use fed_mrmr::ranking::selection_size;

#[test]
fn selection_size_is_limited_by_the_other_features() {
    assert_eq!(selection_size(None, 5), 4);
    assert_eq!(selection_size(Some(2), 5), 2);
    assert_eq!(selection_size(Some(9), 5), 4);
    assert_eq!(selection_size(Some(4), 5), 4);
    assert_eq!(selection_size(Some(0), 5), 0);
    assert_eq!(selection_size(None, 1), 0);
}
