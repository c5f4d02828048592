use rgit::bytes::{bytes_eq, bytes_less, copy_range, find_byte, push_all, starts_with};

#[test]
fn equality_of_byte_strings() {
    assert!(bytes_eq(b"", b""));
    assert!(bytes_eq(b"abc", b"abc"));
    assert!(!bytes_eq(b"abc", b"abd"));
    assert!(!bytes_eq(b"abc", b"ab"));
}

#[test]
fn prefixes() {
    assert!(starts_with(b"src/main", b"src/"));
    assert!(starts_with(b"src", b""));
    assert!(starts_with(b"src", b"src"));
    assert!(!starts_with(b"src", b"src/"));
    assert!(!starts_with(b"lib/main", b"src/"));
}

#[test]
fn first_occurrence_of_a_byte() {
    assert_eq!(find_byte(b"a/b/c", 0, b'/'), 1);
    assert_eq!(find_byte(b"a/b/c", 1, b'/'), 1);
    assert_eq!(find_byte(b"a/b/c", 2, b'/'), 3);
    assert_eq!(find_byte(b"a/b/c", 4, b'/'), 5);
    assert_eq!(find_byte(b"abc", 0, b'/'), 3);
    assert_eq!(find_byte(b"", 0, b'/'), 0);
}

#[test]
fn lexicographic_order() {
    assert!(bytes_less(b"", b"a"));
    assert!(!bytes_less(b"", b""));
    assert!(bytes_less(b"README", b"src"));
    assert!(!bytes_less(b"src", b"README"));
    assert!(bytes_less(b"a", b"ab"));
    assert!(!bytes_less(b"ab", b"a"));
    assert!(bytes_less(b"Z", b"a"));
    assert!(bytes_less(b"a.txt", b"b"));
    assert!(!bytes_less(b"same", b"same"));
    assert!(bytes_less(&[0x7f], &[0x80]));
}

#[test]
fn copying_and_appending() {
    assert_eq!(copy_range(b"hello world", 6, 11), b"world");
    assert_eq!(copy_range(b"hello", 2, 2), b"");
    let mut v = b"ab".to_vec();
    push_all(&mut v, b"cd");
    push_all(&mut v, b"");
    assert_eq!(v, b"abcd");
}
