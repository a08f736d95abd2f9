use alquitran::issues::Hint;
use alquitran::issues::Issue;
use alquitran::lint::lint_string_field;

#[test]
fn conforming_string_field() {
    let result = lint_string_field(b"Portable_String.123\0\0");
    assert_eq!(Some(b"Portable_String.123".to_vec()), result.value);
    assert_eq!(0, result.hints.len());
    assert_eq!(0, result.issues.len());
}

#[test]
fn empty_string_field() {
    let result = lint_string_field(b"");
    assert_eq!(None, result.value);
    assert_eq!(0, result.hints.len());
    assert_eq!(0, result.issues.len());
}

#[test]
fn no_string_field() {
    let result = lint_string_field(b"\0");
    assert_eq!(Some(Vec::new()), result.value);
    assert_eq!(0, result.hints.len());
    assert_eq!(0, result.issues.len());
}

#[test]
fn unportable_char_in_string_field() {
    let result = lint_string_field(b"user@host\0");
    assert_eq!(Some(b"user@host".to_vec()), result.value);
    assert_eq!(1, result.hints.len());
    assert_eq!((Hint::UnportableCharInString, 4), result.hints[0]);
    assert_eq!(0, result.issues.len());
}

#[test]
fn unterminated_string_field() {
    let result = lint_string_field(b"string");
    assert_eq!(None, result.value);
    assert_eq!(0, result.hints.len());
    assert_eq!(1, result.issues.len());
    assert_eq!((Issue::UnterminatedString, 5), result.issues[0]);
}

#[test]
fn unused_byte_not_nul_in_string_field() {
    let result = lint_string_field(b"string\0x");
    assert_eq!(Some(b"string".to_vec()), result.value);
    assert_eq!(0, result.hints.len());
    assert_eq!(1, result.issues.len());
    assert_eq!((Issue::UnusedByteNotNul, 7), result.issues[0]);
}
