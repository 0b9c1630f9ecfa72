use cube_complement::fixed::MyVec;

#[test]
fn every_place_holds_the_value() {
    let filled = MyVec::<u32, 10>::new(42);
    for i in 0..10 {
        assert_eq!(filled.get(i), 42);
    }
    let flags = MyVec::<bool, 1>::new(true);
    assert!(flags.get(0));
}

#[test]
fn a_vector_may_be_empty() {
    let _empty = MyVec::<u8, 0>::new(7);
}
