use alquitran::issues::Issue;
use alquitran::lint::lint_nul_field;

#[test]
fn conforming_nul_field() {
    let result = lint_nul_field(b"\0\0");
    assert_eq!(Some(true), result.value);
    assert_eq!(0, result.hints.len());
    assert_eq!(0, result.issues.len());
}

#[test]
fn empty_nul_field() {
    let result = lint_nul_field(b"");
    assert_eq!(Some(true), result.value);
    assert_eq!(0, result.hints.len());
    assert_eq!(0, result.issues.len());
}

#[test]
fn no_nul_field() {
    let result = lint_nul_field(&[1, 2]);
    assert_eq!(Some(false), result.value);
    assert_eq!(0, result.hints.len());
    assert_eq!(
        vec![(Issue::UnusedByteNotNul, 0), (Issue::UnusedByteNotNul, 1)],
        result.issues
    );
}

#[test]
fn unused_byte_not_nul_in_nul_field() {
    let result = lint_nul_field(b"1\0");
    assert_eq!(Some(false), result.value);
    assert_eq!(0, result.hints.len());
    assert_eq!(1, result.issues.len());
    assert_eq!((Issue::UnusedByteNotNul, 0), result.issues[0]);
}
