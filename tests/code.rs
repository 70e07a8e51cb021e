use ustc_swap::code::{
    has_only_code_chars, is_valid_code_format, validate_and_normalize_code, CodeError,
};

#[test]
fn test_validate_code_format() {
    // Valid codes
    assert!(is_valid_code_format("abc123"));
    assert!(is_valid_code_format("my-code_1"));
    assert!(is_valid_code_format("a"));
    assert!(is_valid_code_format("12345678901234567890")); // 20 chars
    assert!(is_valid_code_format("ABC")); // Uppercase is valid (normalized to lowercase)

    // Invalid codes
    assert!(!is_valid_code_format("")); // Empty
    assert!(!is_valid_code_format("123456789012345678901")); // 21 chars
    assert!(!is_valid_code_format("my code")); // Space
    assert!(!is_valid_code_format("my@code")); // Special char
}

#[test]
fn test_validate_and_normalize() {
    // Valid with normalization
    assert_eq!(validate_and_normalize_code("MyCode123").unwrap(), "mycode123");
    assert_eq!(validate_and_normalize_code("MY-CODE_1").unwrap(), "my-code_1");

    // Invalid - empty
    assert!(matches!(validate_and_normalize_code(""), Err(CodeError::EmptyCode)));

    // Invalid - too long (21 characters)
    assert!(matches!(
        validate_and_normalize_code("123456789012345678901"),
        Err(CodeError::InvalidCodeLength)
    ));

    // Invalid - invalid characters
    assert!(matches!(
        validate_and_normalize_code("my code"),
        Err(CodeError::InvalidCodeCharacters)
    ));
    assert!(matches!(
        validate_and_normalize_code("my@code"),
        Err(CodeError::InvalidCodeCharacters)
    ));
}

#[test]
fn code_chars_checked_after_lowercasing() {
    assert!(has_only_code_chars("abc-_09"));
    assert!(!has_only_code_chars("Abc"));
    assert!(!has_only_code_chars("a b"));
    assert!(has_only_code_chars(""));
}

#[test]
fn code_length_counts_bytes() {
    // Twenty bytes of ASCII is the limit; a two-byte character pushes it over.
    assert!(is_valid_code_format("abcdefghijklmnopqrst"));
    assert!(!is_valid_code_format("abcdefghijklmnopqrs\u{e9}"));
    assert!(matches!(
        validate_and_normalize_code("abcdefghijklmnopqrs\u{e9}"),
        Err(CodeError::InvalidCodeLength)
    ));
    // Within the limit, a non-ASCII letter is refused as a character.
    assert!(matches!(
        validate_and_normalize_code("caf\u{c9}"),
        Err(CodeError::InvalidCodeCharacters)
    ));
}

#[test]
fn normalized_code_is_lowercase_copy() {
    let s = validate_and_normalize_code("ZZ_top-9").unwrap();
    assert_eq!(s, "zz_top-9");
    assert_ne!(s, "ZZ_top-9");
}
