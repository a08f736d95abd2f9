use alquitran::issues::Hint;
use alquitran::issues::Issue;
use alquitran::lint::lint_path_field;

#[test]
fn conforming_path_field() {
    let result = lint_path_field(b"Portable/Name.123\0\0");
    assert_eq!(Some(b"Portable/Name.123".to_vec()), result.value);
    assert_eq!(0, result.hints.len());
    assert_eq!(0, result.issues.len());
}

#[test]
fn empty_path_field() {
    let result = lint_path_field(b"");
    assert_eq!(Some(Vec::new()), result.value);
    assert_eq!(0, result.hints.len());
    assert_eq!(0, result.issues.len());
}

#[test]
fn no_path_field() {
    let result = lint_path_field(b"\0");
    assert_eq!(Some(Vec::new()), result.value);
    assert_eq!(0, result.hints.len());
    assert_eq!(0, result.issues.len());
}

#[test]
fn unportable_char_in_path_field() {
    let result = lint_path_field(b"user@host\0");
    assert_eq!(Some(b"user@host".to_vec()), result.value);
    assert_eq!(1, result.hints.len());
    assert_eq!((Hint::UnportableCharInPath, 4), result.hints[0]);
    assert_eq!(0, result.issues.len());
}

#[test]
fn unterminated_path_field() {
    let result = lint_path_field(b"path");
    assert_eq!(Some(b"path".to_vec()), result.value);
    assert_eq!(0, result.hints.len());
    assert_eq!(0, result.issues.len());
}

#[test]
fn unused_byte_not_nul_in_path_field() {
    let result = lint_path_field(b"path\0x");
    assert_eq!(Some(b"path".to_vec()), result.value);
    assert_eq!(0, result.hints.len());
    assert_eq!(1, result.issues.len());
    assert_eq!((Issue::UnusedByteNotNul, 5), result.issues[0]);
}
