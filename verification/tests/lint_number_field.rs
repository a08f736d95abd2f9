use alquitran::issues::Issue;
use alquitran::lint::lint_number_field;

#[test]
fn conforming_number_field() {
    let result = lint_number_field(b"0012\0\0");
    assert_eq!(Some(10), result.value);
    assert_eq!(0, result.hints.len());
    assert_eq!(0, result.issues.len());
}

#[test]
fn empty_number_field() {
    let result = lint_number_field(b"");
    assert_eq!(None, result.value);
    assert_eq!(0, result.hints.len());
    assert_eq!(1, result.issues.len());
    assert_eq!((Issue::NoNumber, 0), result.issues[0]);
}

#[test]
fn invalid_number_field() {
    let result = lint_number_field(b"90\0");
    assert_eq!(None, result.value);
    assert_eq!(0, result.hints.len());
    assert_eq!(1, result.issues.len());
    assert_eq!((Issue::InvalidNumber, 0), result.issues[0]);
}

#[test]
fn no_number_field() {
    let result = lint_number_field(b"\0\0");
    assert_eq!(None, result.value);
    assert_eq!(0, result.hints.len());
    assert_eq!(1, result.issues.len());
    assert_eq!((Issue::NoNumber, 0), result.issues[0]);
}

#[test]
fn larger_number_in_number_field() {
    let result = lint_number_field(b"7777777777777777\0");
    assert_eq!(Some(281474976710655), result.value);
    assert_eq!(0, result.hints.len());
    assert_eq!(0, result.issues.len());
}

#[test]
fn unterminated_number_field() {
    let result = lint_number_field(b"0");
    assert_eq!(None, result.value);
    assert_eq!(0, result.hints.len());
    assert_eq!(1, result.issues.len());
    assert_eq!((Issue::UnterminatedNumber, 0), result.issues[0]);
}

#[test]
fn unused_byte_not_nul_in_number_field() {
    let result = lint_number_field(b"1\0x");
    assert_eq!(Some(1), result.value);
    assert_eq!(0, result.hints.len());
    assert_eq!(1, result.issues.len());
    assert_eq!((Issue::UnusedByteNotNul, 2), result.issues[0]);
}
