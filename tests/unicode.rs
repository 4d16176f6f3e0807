use ai::unicode::UnicodeByteLimit;

#[test]
fn test_unicode_byte_limit_ascii() {
    assert_eq!("hello".unicode_byte_limit(5), "hello");
    assert_eq!("hello world".unicode_byte_limit(5), "hello");
    assert_eq!("hello".unicode_byte_limit(10), "hello");
    assert_eq!("hello".unicode_byte_limit(0), "");
}

#[test]
fn test_unicode_byte_limit_japanese() {
    assert_eq!("こんにちは".unicode_byte_limit(15), "こんにちは"); // 5 chars * 3 bytes = 15
    assert_eq!("こんにちは".unicode_byte_limit(12), "こんにち"); // 4 chars * 3 bytes = 12
    assert_eq!("こんにちは".unicode_byte_limit(3), "こ"); // 1 char * 3 bytes = 3
    assert_eq!("こんにちは".unicode_byte_limit(2), ""); // Not enough for 1 char
    for i in 1..=16 {
        "こんにちは".unicode_byte_limit(i); // assert no panics
    }
}

#[test]
fn test_unicode_byte_limit_mixed() {
    assert_eq!("hello こんにちは".unicode_byte_limit(10), "hello こ"); // 6 ASCII + 1 Japanese = 9 bytes
}

#[test]
fn test_unicode_byte_limit_empty_string() {
    assert_eq!("".unicode_byte_limit(10), "");
    assert_eq!("".unicode_byte_limit(0), "");
}

#[test]
fn unicode_byte_limit_cuts_inside_a_character() {
    // "é" is two bytes: a limit of 4 on "aéé" keeps "aé" (3 bytes)
    assert_eq!("aéé".unicode_byte_limit(4), "aé");
}
