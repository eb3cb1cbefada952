use concat::paths::{
    bytes_equal, contains_byte, contains_bytes, file_name, find_last, is_hidden_name,
    is_hidden_path, parent_of, path_ext_lower, starts_with, to_lower,
};

#[test]
fn base_names() {
    assert_eq!(file_name(b"/a/b/c.txt"), b"c.txt");
    assert_eq!(file_name(b"c.txt"), b"c.txt");
    assert_eq!(file_name(b"/"), b"");
    assert_eq!(file_name(b"/a/"), b"");
    assert_eq!(file_name(b""), b"");
}

#[test]
fn parent_directories() {
    assert_eq!(parent_of(b"/a/b/c.txt"), b"/a/b");
    assert_eq!(parent_of(b"/c.txt"), b"/");
    assert_eq!(parent_of(b"c.txt"), b"");
    assert_eq!(parent_of(b"a/c.txt"), b"a");
}

#[test]
fn lower_case_extensions() {
    assert_eq!(path_ext_lower("/a/b.RS"), b"rs");
    assert_eq!(path_ext_lower("/a/b.tar.GZ"), b"gz");
    assert_eq!(path_ext_lower("/a/.bashrc"), b"");
    assert_eq!(path_ext_lower("/a/.config.Toml"), b"toml");
    assert_eq!(path_ext_lower("/a/Makefile"), b"");
    assert_eq!(path_ext_lower("/a/name."), b"");
    assert_eq!(path_ext_lower("/a.d/name"), b"");
    assert_eq!(path_ext_lower(""), b"");
}

#[test]
fn hidden_names_start_with_a_dot() {
    assert!(is_hidden_name(b".env"));
    assert!(!is_hidden_name(b"env"));
    assert!(!is_hidden_name(b""));
    assert!(is_hidden_path("/a/b/.env"));
    assert!(!is_hidden_path("/a/.git/config"));
    assert!(!is_hidden_path("/a/b/c.txt"));
}

#[test]
fn searching_in_bytes() {
    assert_eq!(find_last(b"a/b/c", b'/'), Some(3));
    assert_eq!(find_last(b"abc", b'/'), None);
    assert!(bytes_equal(b"abc", b"abc"));
    assert!(!bytes_equal(b"abc", b"abd"));
    assert!(!bytes_equal(b"abc", b"ab"));
    assert!(starts_with(b"_concat-a", b"_concat-"));
    assert!(!starts_with(b"_conca", b"_concat-"));
    assert!(starts_with(b"abc", b""));
    assert!(contains_bytes(b"a/.b", b"/."));
    assert!(!contains_bytes(b"a/b.", b"/."));
    assert!(contains_bytes(b"abc", b""));
    assert!(contains_byte(b"a*b", b'*'));
    assert!(!contains_byte(b"ab", b'*'));
    assert_eq!(to_lower(b'A'), b'a');
    assert_eq!(to_lower(b'Z'), b'z');
    assert_eq!(to_lower(b'['), b'[');
    assert_eq!(to_lower(b'@'), b'@');
}
