#[test]
fn trivial_assertion() {
    assert_eq!(1, 1);
}
