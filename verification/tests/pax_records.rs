use alquitran::issues::Issue;
use alquitran::pax::LintPaxExtendedHeader;

fn single_issue(bytes: &[u8]) -> Issue {
    let p = LintPaxExtendedHeader::new(bytes.to_vec());
    assert_eq!(1, p.issues.len());
    p.issues[0]
}

#[test]
fn pax_empty_payload() {
    assert_eq!(Issue::PaxEmpty, single_issue(b""));
}

#[test]
fn pax_keyword_containing_size_is_refused() {
    // the value content is irrelevant: the keyword carries "size"
    assert_eq!(Issue::PaxSize, single_issue(b"17 xsizey=abcdef\n"));
}

#[test]
fn pax_keyword_containing_path_is_refused() {
    assert_eq!(Issue::PaxPath, single_issue(b"16 mypath=abcde\n"));
}

#[test]
fn pax_duplicate_keyword() {
    assert_eq!(Issue::PaxHeaderKeywordDuplicate, single_issue(b"7 a=12\n7 a=34\n"));
}

#[test]
fn pax_size_field_not_decimal() {
    assert_eq!(Issue::PaxHeaderSizeInvalid, single_issue(b"abc"));
}

#[test]
fn pax_size_field_octal() {
    assert_eq!(Issue::PaxHeaderSizeOctal, single_issue(b"07 a=12\n"));
}

#[test]
fn pax_size_field_too_large() {
    assert_eq!(Issue::PaxHeaderSizeTooLarge, single_issue(b"9999999999 a=1\n"));
}

#[test]
fn pax_size_field_exceeds_buffer() {
    assert_eq!(Issue::PaxHeaderSizeInvalid, single_issue(b"99 a=1\n"));
}

#[test]
fn pax_record_without_newline() {
    assert_eq!(Issue::PaxHeaderNoNewline, single_issue(b"6 a=12x"));
}

#[test]
fn pax_record_without_equal_sign() {
    assert_eq!(Issue::PaxHeaderNoEqualSign, single_issue(b"7 abcd\n"));
}

#[test]
fn pax_keyword_starting_with_blank() {
    assert_eq!(Issue::PaxHeaderKeywordBlank, single_issue(b"7  a=1\n"));
}

#[test]
fn pax_keyword_not_utf8() {
    assert_eq!(Issue::PaxHeaderKeywordNoUtf8, single_issue(b"6 \xff=1\n"));
}

#[test]
fn pax_keyword_empty() {
    assert_eq!(Issue::PaxHeaderKeywordEmpty, single_issue(b"6 =ab\n"));
}

#[test]
fn pax_conforming_records() {
    let p = LintPaxExtendedHeader::new(b"13 comment=x\n11 atime=0\n".to_vec());
    assert_eq!(0, p.issues.len());
    assert_eq!(
        vec![b"comment".to_vec(), b"atime".to_vec()],
        p.keywords
    );
}
