use hanconv::text::{chars_of, string_of, string_of_range};

#[test]
fn chars_are_scalar_values_not_bytes() {
    assert_eq!(chars_of("一分钟"), vec!['一', '分', '钟']);
    assert_eq!(chars_of("a𠀀b"), vec!['a', '𠀀', 'b']);
    assert_eq!(chars_of(""), Vec::<char>::new());
}

#[test]
fn strings_are_built_from_scalar_values() {
    let chars = vec!['一', '分', '钟', 'x'];
    assert_eq!(string_of(&chars), "一分钟x");
    assert_eq!(string_of_range(&chars, 1, 3), "分钟");
    assert_eq!(string_of_range(&chars, 2, 2), "");
    assert_eq!(string_of(&Vec::new()), "");
}
