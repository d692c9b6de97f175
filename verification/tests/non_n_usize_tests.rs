use seg_tree::internal_utils::persistent_utils::NonNUsize;

#[test]
fn non_n_works() {
    let test = NonNUsize::<1>::new(0);
    assert_eq!(test.unwrap().get(), 0);
}

#[test]
fn non_n_works2() {
    let test = NonNUsize::<1>::new(1);
    assert!(test.is_none());
}
