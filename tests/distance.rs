use cross_seed::edit_distance::edit_distance;

#[test]
fn basic() {
    assert_eq!(0, edit_distance("", ""));
    assert_eq!(3, edit_distance("abc", ""));
    assert_eq!(3, edit_distance("", "abc"));
    assert_eq!(2, edit_distance("ab", "cd"));
    assert_eq!(1, edit_distance("car", "cat"));
    assert_eq!(4, edit_distance("hello", "world"));
}

#[test]
fn edit_distance_multibyte_characters() {
    assert_eq!(1, edit_distance("héllo", "hello"));
    assert_eq!(3, edit_distance("kitten", "sitting"));
}
