use cotar::fnv1a::fnv1a_64;
use cotar::reader::Cotar;

#[test]
fn test_ascii() {
    assert_eq!(0xa430d84680aabd0b, fnv1a_64("hello".as_bytes()));
    assert_eq!(0x8c0ec8d1fb9e6e32, fnv1a_64("Hello World!".as_bytes()));
}

#[test]
fn test_utf8() {
    assert_eq!(0x0ac1e907b717cfd7, fnv1a_64("\u{df}".as_bytes()));
    assert_eq!(0xa243ed17175ca587, fnv1a_64("\u{1F984}\u{1F308}".as_bytes()));
    assert_eq!(0xff9c5f3875888db2, fnv1a_64("\u{1F984}".as_bytes()));
    assert_eq!(0xff430738753bcf54, fnv1a_64("\u{1F308}".as_bytes()));
    assert_eq!(
        0x1366018ddd32b3cc,
        fnv1a_64("\u{1F984}\u{1F308}\u{1F308}\u{1F308}\u{1F984}".as_bytes())
    );
}

#[test]
fn hash_of_empty_input_is_offset_basis() {
    assert_eq!(0xcbf29ce484222325, fnv1a_64(&[]));
    assert_eq!(0xcbf29ce484222325, Cotar::hash(""));
}

#[test]
fn path_hash_uses_utf8_bytes() {
    assert_eq!(Cotar::hash("hello"), 0xa430d84680aabd0b);
    assert_eq!(Cotar::hash("Hello World!"), 0x8c0ec8d1fb9e6e32);
    assert_eq!(Cotar::hash("\u{df}"), 0x0ac1e907b717cfd7);
}
