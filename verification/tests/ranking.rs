use movie_search::ranking::top_k_positions;

#[test]
fn selects_best_first_stable() {
    let keys = vec![3, 5, 5, 1, 9];
    assert_eq!(top_k_positions(&keys, 3), vec![4, 1, 2]);
    assert_eq!(top_k_positions(&keys, 10), vec![4, 1, 2, 0, 3]);
    assert_eq!(top_k_positions(&keys, 0), Vec::<usize>::new());
}

#[test]
fn selects_from_nothing() {
    assert!(top_k_positions(&Vec::new(), 4).is_empty());
}

#[test]
fn equal_keys_keep_input_order() {
    let keys = vec![7, 7, 7, 7];
    assert_eq!(top_k_positions(&keys, 2), vec![0, 1]);
}
