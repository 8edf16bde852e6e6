#[test]
fn aggregator_it_works() {
    assert_eq!(2 + 2, 4);
}
