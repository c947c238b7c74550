use beecrab::memchr::memchr;

#[test]
fn empty() {
    assert_eq!(memchr(b"", b'.'), None);
}

#[test]
fn not_found() {
    assert_eq!(memchr(b"foobar", b'z'), None);
}

#[test]
fn newline_found() {
    assert_eq!(memchr(b"foo\n", b'\n'), Some(3));
}

#[test]
fn last_byte_found() {
    assert_eq!(memchr(b"foobarbaz", b'z'), Some(8));
}

#[test]
fn single_byte_found() {
    assert_eq!(memchr(b"x", b'x'), Some(0));
}

#[test]
fn single_byte_not_found() {
    assert_eq!(memchr(b"x", b'h'), None);
}

#[test]
fn first_of_several_found() {
    assert_eq!(memchr(b"a;b;c", b';'), Some(1));
}
