use kb_memory::add;

#[test]
fn add_works() {
    assert_eq!(add(2, 3), 5);
}
