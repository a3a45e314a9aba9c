#[test]
fn it_works() {
    assert!(true);
}
