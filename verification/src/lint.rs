//! Field decoders: pure functions turning a fixed-width byte window into a
//! typed value plus positional hints and issues. Offsets are relative to
//! the field's own window.

use vstd::prelude::*;

verus! {

use crate::issues::Hint;
use crate::issues::Issue;

/// Mark bit for an advisory hint on a header byte.
pub const WARNING: u8 = 1;
/// Mark bit for a specification violation on a header byte.
pub const ERROR: u8 = 2;

/// The outcome of decoding one field: an optional value, plus the hints
/// and issues found at their byte offsets within the field.
pub struct LintResult<V> {
    pub value: Option<V>,
    pub hints: Vec<(Hint, usize)>,
    pub issues: Vec<(Issue, usize)>,
}

/// Every byte of the sequence is zero.
pub open spec fn all_zero(s: Seq<u8>) -> bool {
    forall|j: int| 0 <= j < s.len() ==> s[j] == 0
}

/// An octal digit `'0'` through `'7'`.
pub open spec fn spec_octal_digit(b: u8) -> bool {
    48 <= b <= 55
}

/// A terminator byte for a number field: NUL or space.
pub open spec fn spec_number_term(b: u8) -> bool {
    b == 0 || b == 32
}

/// The portable character set: ASCII letters, digits, `.`, `_`, `-`.
pub open spec fn spec_portable_char(b: u8) -> bool {
    (65 <= b <= 90) || (97 <= b <= 122) || (48 <= b <= 57) || b == 46 || b == 95 || b == 45
}

/// The issues of a nul field from offset `i` on: every non-zero byte is
/// reported as `UnusedByteNotNul` at its offset.
pub open spec fn nul_field_issues(s: Seq<u8>, i: int) -> Seq<(Issue, usize)>
    decreases s.len() - i,
{
    if i < 0 || i >= s.len() {
        Seq::empty()
    } else if s[i] != 0 {
        seq![(Issue::UnusedByteNotNul, i as usize)] + nul_field_issues(s, i + 1)
    } else {
        nul_field_issues(s, i + 1)
    }
}

/// Decode a nul field: every byte must be zero; the value tells whether
/// the whole window was zero.
pub fn lint_nul_field(bytes: &[u8]) -> (r: LintResult<bool>)
    ensures
        r.issues@ == nul_field_issues(bytes@, 0),
        r.hints@ =~= Seq::<(Hint, usize)>::empty(),
        r.value == Some(all_zero(bytes@)),
        forall|k: int| 0 <= k < r.issues@.len() ==> (#[trigger] r.issues@[k]).1 < bytes@.len(),
{
    let mut issues: Vec<(Issue, usize)> = Vec::new();
    let mut n: usize = 0;
    while n < bytes.len()
        invariant
            n <= bytes.len(),
            nul_field_issues(bytes@, 0) =~= issues@ + nul_field_issues(bytes@, n as int),
            issues@.len() == 0 <==> (forall|j: int| 0 <= j < n ==> bytes@[j] == 0),
            forall|k: int| 0 <= k < issues@.len() ==> (#[trigger] issues@[k]).1 < n,
        decreases bytes.len() - n,
    {
        if bytes[n] != 0 {
            issues.push((Issue::UnusedByteNotNul, n));
        }
        n += 1;
    }
    assert(nul_field_issues(bytes@, 0) =~= issues@) by {
        assert(nul_field_issues(bytes@, bytes@.len() as int) =~= Seq::<(Issue, usize)>::empty());
    }
    let empty = issues.len() == 0;
    LintResult { value: Some(empty), hints: Vec::new(), issues }
}

/// The field result mentions issue kind `x` at some offset.
pub open spec fn field_has_issue(s: Seq<(Issue, usize)>, x: Issue) -> bool {
    exists|k: int| 0 <= k < s.len() && (#[trigger] s[k]).0 == x
}

/// The field result mentions hint kind `h` at some offset.
pub open spec fn field_has_hint(s: Seq<(Hint, usize)>, h: Hint) -> bool {
    exists|k: int| 0 <= k < s.len() && (#[trigger] s[k]).0 == h
}

/// A nul field only ever reports `UnusedByteNotNul`.
pub proof fn lemma_nul_field_kinds(s: Seq<u8>, i: int)
    ensures
        forall|k: int|
            0 <= k < nul_field_issues(s, i).len() ==> (#[trigger] nul_field_issues(s, i)[k]).0
                == Issue::UnusedByteNotNul,
    decreases s.len() - i,
{
    if i < 0 || i >= s.len() {
    } else {
        lemma_nul_field_kinds(s, i + 1);
    }
}

/// The offset of the first terminator byte (NUL or space) at or after `i`,
/// or the window's length if none exists.
pub open spec fn first_term_from(s: Seq<u8>, i: int) -> int
    decreases s.len() - i,
{
    if i < 0 || i >= s.len() {
        s.len() as int
    } else if spec_number_term(s[i]) {
        i
    } else {
        first_term_from(s, i + 1)
    }
}

/// The offset of the first terminator byte of a number field.
pub open spec fn first_term(s: Seq<u8>) -> int {
    first_term_from(s, 0)
}

proof fn lemma_first_term_from(s: Seq<u8>, i: int)
    requires
        0 <= i <= s.len(),
    ensures
        i <= first_term_from(s, i) <= s.len(),
        first_term_from(s, i) < s.len() ==> spec_number_term(s[first_term_from(s, i)]),
        forall|j: int| i <= j < first_term_from(s, i) ==> !spec_number_term(s[j]),
    decreases s.len() - i,
{
    if i < s.len() && !spec_number_term(s[i]) {
        lemma_first_term_from(s, i + 1);
    }
}

/// One base-8 accumulation step, wrapping modulo 2^64 (the shift performs
/// the wrap).
pub open spec fn oct_accum(v: u64, d: u8) -> u64 {
    (((v << 3) as int) + (d as int - 48)) as u64
}

/// The value accumulated from the octal digits among the first `i` bytes
/// that lie before the terminator.
pub open spec fn num_value_prefix(s: Seq<u8>, i: int) -> u64
    decreases i,
{
    if i <= 0 {
        0
    } else if i - 1 < first_term(s) && spec_octal_digit(s[i - 1]) {
        oct_accum(num_value_prefix(s, i - 1), s[i - 1])
    } else {
        num_value_prefix(s, i - 1)
    }
}

proof fn lemma_num_value_stable(s: Seq<u8>, i: int)
    requires
        i >= first_term(s),
    ensures
        num_value_prefix(s, i) == num_value_prefix(s, first_term(s)),
    decreases i - first_term(s),
{
    if i > first_term(s) {
        lemma_num_value_stable(s, i - 1);
    }
}

/// A non-octal, non-terminator byte stands before the terminator.
pub open spec fn num_has_invalid(s: Seq<u8>) -> bool {
    exists|j: int| 0 <= j < first_term(s) && !spec_octal_digit(s[j])
}

/// The issues a number field emits while scanning: `InvalidNumber` for a
/// stray byte among the digits, `UnusedByteNotNul` for a non-NUL,
/// non-space byte after the terminator.
pub open spec fn number_field_scan(s: Seq<u8>, i: int) -> Seq<(Issue, usize)>
    decreases s.len() - i,
{
    if i < 0 || i >= s.len() {
        Seq::empty()
    } else if i < first_term(s) {
        if spec_octal_digit(s[i]) {
            number_field_scan(s, i + 1)
        } else {
            seq![(Issue::InvalidNumber, i as usize)] + number_field_scan(s, i + 1)
        }
    } else if i == first_term(s) {
        number_field_scan(s, i + 1)
    } else {
        if spec_number_term(s[i]) {
            number_field_scan(s, i + 1)
        } else {
            seq![(Issue::UnusedByteNotNul, i as usize)] + number_field_scan(s, i + 1)
        }
    }
}

/// The issue appended after the scan: `NoNumber` when no digit was
/// collected, `UnterminatedNumber` when digits exist but no terminator.
pub open spec fn number_field_tail(s: Seq<u8>) -> Seq<(Issue, usize)> {
    if num_has_invalid(s) {
        Seq::empty()
    } else if first_term(s) == 0 {
        seq![(Issue::NoNumber, 0usize)]
    } else if first_term(s) >= s.len() {
        seq![(Issue::UnterminatedNumber, (s.len() - 1) as usize)]
    } else {
        Seq::empty()
    }
}

/// All issues of a number field, in the order they are emitted.
pub open spec fn number_field_issues(s: Seq<u8>) -> Seq<(Issue, usize)> {
    number_field_scan(s, 0) + number_field_tail(s)
}

/// The decoded value of a number field: the octal digit run parsed base-8
/// (wrapping modulo 2^64), or nothing when the field is invalid, empty or
/// unterminated.
pub open spec fn number_field_value(s: Seq<u8>) -> Option<u64> {
    if num_has_invalid(s) {
        None
    } else if first_term(s) == 0 {
        None
    } else if first_term(s) >= s.len() {
        None
    } else {
        Some(num_value_prefix(s, first_term(s)))
    }
}

proof fn lemma_number_scan_kinds(s: Seq<u8>, i: int)
    ensures
        forall|k: int|
            0 <= k < number_field_scan(s, i).len() ==> (#[trigger] number_field_scan(s, i)[k]).0
                == Issue::InvalidNumber || number_field_scan(s, i)[k].0 == Issue::UnusedByteNotNul,
    decreases s.len() - i,
{
    if i < 0 || i >= s.len() {
    } else {
        lemma_number_scan_kinds(s, i + 1);
    }
}

/// A number field only ever reports `InvalidNumber`, `NoNumber`,
/// `UnterminatedNumber` or `UnusedByteNotNul`.
pub proof fn lemma_number_field_kinds(s: Seq<u8>)
    ensures
        forall|k: int|
            0 <= k < number_field_issues(s).len() ==> (#[trigger] number_field_issues(s)[k]).0
                == Issue::InvalidNumber || number_field_issues(s)[k].0 == Issue::NoNumber
                || number_field_issues(s)[k].0 == Issue::UnterminatedNumber
                || number_field_issues(s)[k].0 == Issue::UnusedByteNotNul,
{
    lemma_number_scan_kinds(s, 0);
}

/// Decode an octal, NUL/space-terminated number field.
pub fn lint_number_field(bytes: &[u8]) -> (r: LintResult<u64>)
    ensures
        r.issues@ == number_field_issues(bytes@),
        r.hints@ =~= Seq::<(Hint, usize)>::empty(),
        r.value == number_field_value(bytes@),
        forall|k: int|
            0 <= k < r.issues@.len() ==> (#[trigger] r.issues@[k]).1 < bytes@.len()
                || r.issues@[k].1 == 0,
{
    let ghost s = bytes@;
    proof {
        lemma_first_term_from(s, 0);
    }
    let mut issues: Vec<(Issue, usize)> = Vec::new();
    let mut num = true;
    let mut eos = false;
    let mut any_digit = false;
    let mut val: u64 = 0;
    let mut n: usize = 0;
    while n < bytes.len()
        invariant
            n <= bytes.len(),
            s == bytes@,
            eos <==> first_term(s) < n,
            num <==> !(exists|j: int|
                0 <= j < n && j < first_term(s) && !spec_octal_digit(s[j])),
            any_digit <==> (exists|j: int|
                0 <= j < n && j < first_term(s) && spec_octal_digit(s[j])),
            val == num_value_prefix(s, n as int),
            number_field_scan(s, 0) =~= issues@ + number_field_scan(s, n as int),
            forall|k: int| 0 <= k < issues@.len() ==> (#[trigger] issues@[k]).1 < n,
            0 <= first_term(s) <= s.len(),
            first_term(s) < s.len() ==> spec_number_term(s[first_term(s)]),
            forall|j: int| 0 <= j < first_term(s) ==> !spec_number_term(s[j]),
        decreases bytes.len() - n,
    {
        let b = bytes[n];
        if eos {
            if b != 0 && b != 32 {
                issues.push((Issue::UnusedByteNotNul, n));
            }
        } else if 48 <= b && b <= 55 {
            proof {
                assert(first_term(s) != n as int);
            }
            assert(val << 3 <= 0xfffffffffffffff8u64) by (bit_vector);
            val = (val << 3) + ((b - 48) as u64);
            any_digit = true;
        } else if b == 0 || b == 32 {
            proof {
                assert(first_term(s) == n as int);
            }
            eos = true;
        } else {
            proof {
                assert(first_term(s) != n as int);
            }
            issues.push((Issue::InvalidNumber, n));
            num = false;
        }
        n += 1;
    }
    proof {
        assert(number_field_scan(s, s.len() as int) =~= Seq::<(Issue, usize)>::empty());
        assert(number_field_scan(s, 0) =~= issues@);
    }
    let value: Option<u64>;
    if !num {
        proof {
            let j = choose|j: int|
                0 <= j < bytes@.len() && j < first_term(s) && !spec_octal_digit(s[j]);
            assert(0 <= j < first_term(s) && !spec_octal_digit(s[j]));
        }
        value = None;
    } else if !any_digit {
        proof {
            if first_term(s) > 0 {
                assert(0 <= 0 < bytes@.len() && 0 < first_term(s)
                    && spec_octal_digit(s[0]) ==> any_digit);
                assert(!spec_number_term(s[0]));
                assert(spec_octal_digit(s[0]) || !spec_octal_digit(s[0]));
            }
            assert(first_term(s) == 0);
        }
        issues.push((Issue::NoNumber, 0));
        value = None;
    } else if !eos {
        proof {
            let j = choose|j: int|
                0 <= j < bytes@.len() && j < first_term(s) && spec_octal_digit(s[j]);
            assert(bytes@.len() > 0);
            assert(first_term(s) >= bytes@.len());
        }
        issues.push((Issue::UnterminatedNumber, bytes.len() - 1));
        value = None;
    } else {
        proof {
            lemma_num_value_stable(s, bytes@.len() as int);
        }
        value = Some(val);
    }
    proof {
        assert(issues@ =~= number_field_scan(s, 0) + number_field_tail(s));
    }
    LintResult { value, hints: Vec::new(), issues }
}

/// The offset of the first NUL at or after `i`, or the window's length if
/// none exists.
pub open spec fn first_nul_from(s: Seq<u8>, i: int) -> int
    decreases s.len() - i,
{
    if i < 0 || i >= s.len() {
        s.len() as int
    } else if s[i] == 0 {
        i
    } else {
        first_nul_from(s, i + 1)
    }
}

/// The offset of the first NUL of a path or string field.
pub open spec fn first_nul(s: Seq<u8>) -> int {
    first_nul_from(s, 0)
}

proof fn lemma_first_nul_from(s: Seq<u8>, i: int)
    requires
        0 <= i <= s.len(),
    ensures
        i <= first_nul_from(s, i) <= s.len(),
        first_nul_from(s, i) < s.len() ==> s[first_nul_from(s, i)] == 0,
        forall|j: int| i <= j < first_nul_from(s, i) ==> s[j] != 0,
    decreases s.len() - i,
{
    if i < s.len() && s[i] != 0 {
        lemma_first_nul_from(s, i + 1);
    }
}

/// The issues of a path or string field: every non-NUL byte after the
/// terminator is `UnusedByteNotNul`.
pub open spec fn text_field_scan(s: Seq<u8>, i: int) -> Seq<(Issue, usize)>
    decreases s.len() - i,
{
    if i < 0 || i >= s.len() {
        Seq::empty()
    } else if i <= first_nul(s) {
        text_field_scan(s, i + 1)
    } else if s[i] != 0 {
        seq![(Issue::UnusedByteNotNul, i as usize)] + text_field_scan(s, i + 1)
    } else {
        text_field_scan(s, i + 1)
    }
}

/// The hints of a path field: a non-portable character other than `/`
/// before the terminator.
pub open spec fn path_field_hints(s: Seq<u8>, i: int) -> Seq<(Hint, usize)>
    decreases s.len() - i,
{
    if i < 0 || i >= s.len() {
        Seq::empty()
    } else if i < first_nul(s) && !spec_portable_char(s[i]) && s[i] != 47 {
        seq![(Hint::UnportableCharInPath, i as usize)] + path_field_hints(s, i + 1)
    } else {
        path_field_hints(s, i + 1)
    }
}

/// The hints of a string field: a non-portable character (including `/`)
/// before the terminator.
pub open spec fn string_field_hints(s: Seq<u8>, i: int) -> Seq<(Hint, usize)>
    decreases s.len() - i,
{
    if i < 0 || i >= s.len() {
        Seq::empty()
    } else if i < first_nul(s) && !spec_portable_char(s[i]) {
        seq![(Hint::UnportableCharInString, i as usize)] + string_field_hints(s, i + 1)
    } else {
        string_field_hints(s, i + 1)
    }
}

/// The decoded value of a path field: the bytes before the first NUL, or
/// the whole window when no NUL exists (not an error for paths).
pub open spec fn path_field_value(s: Seq<u8>) -> Seq<u8> {
    s.subrange(0, first_nul(s))
}

/// The issue appended for a non-empty string field lacking a terminator.
pub open spec fn string_field_tail(s: Seq<u8>) -> Seq<(Issue, usize)> {
    if first_nul(s) >= s.len() && s.len() > 0 {
        seq![(Issue::UnterminatedString, (s.len() - 1) as usize)]
    } else {
        Seq::empty()
    }
}

/// All issues of a string field, in the order they are emitted.
pub open spec fn string_field_issues(s: Seq<u8>) -> Seq<(Issue, usize)> {
    text_field_scan(s, 0) + string_field_tail(s)
}

/// The decoded value of a string field: the bytes before the first NUL,
/// or nothing when the field lacks a terminator.
pub open spec fn string_field_value(s: Seq<u8>) -> Option<Seq<u8>> {
    if first_nul(s) < s.len() {
        Some(s.subrange(0, first_nul(s)))
    } else {
        None
    }
}

/// The scan of a path or string field only ever reports
/// `UnusedByteNotNul`.
pub proof fn lemma_text_scan_kinds(s: Seq<u8>, i: int)
    ensures
        forall|k: int|
            0 <= k < text_field_scan(s, i).len() ==> (#[trigger] text_field_scan(s, i)[k]).0
                == Issue::UnusedByteNotNul,
    decreases s.len() - i,
{
    if i < 0 || i >= s.len() {
    } else {
        lemma_text_scan_kinds(s, i + 1);
    }
}

/// A string field only ever reports `UnusedByteNotNul` or
/// `UnterminatedString`.
pub proof fn lemma_string_field_kinds(s: Seq<u8>)
    ensures
        forall|k: int|
            0 <= k < string_field_issues(s).len() ==> (#[trigger] string_field_issues(s)[k]).0
                == Issue::UnusedByteNotNul || string_field_issues(s)[k].0
                == Issue::UnterminatedString,
{
    lemma_text_scan_kinds(s, 0);
}

/// A path field only ever hints `UnportableCharInPath`.
pub proof fn lemma_path_hint_kinds(s: Seq<u8>, i: int)
    ensures
        forall|k: int|
            0 <= k < path_field_hints(s, i).len() ==> (#[trigger] path_field_hints(s, i)[k]).0
                == Hint::UnportableCharInPath,
    decreases s.len() - i,
{
    if i < 0 || i >= s.len() {
    } else {
        lemma_path_hint_kinds(s, i + 1);
    }
}

/// A string field only ever hints `UnportableCharInString`.
pub proof fn lemma_string_hint_kinds(s: Seq<u8>, i: int)
    ensures
        forall|k: int|
            0 <= k < string_field_hints(s, i).len() ==> (#[trigger] string_field_hints(s, i)[k]).0
                == Hint::UnportableCharInString,
    decreases s.len() - i,
{
    if i < 0 || i >= s.len() {
    } else {
        lemma_string_hint_kinds(s, i + 1);
    }
}

/// Decode a path field: bytes up to the first NUL, tolerating a missing
/// terminator; non-portable characters other than `/` are hints.
pub fn lint_path_field(bytes: &[u8]) -> (r: LintResult<Vec<u8>>)
    ensures
        r.issues@ == text_field_scan(bytes@, 0),
        r.hints@ == path_field_hints(bytes@, 0),
        r.value.deep_view() == Some(path_field_value(bytes@)),
        forall|k: int| 0 <= k < r.issues@.len() ==> (#[trigger] r.issues@[k]).1 < bytes@.len(),
        forall|k: int| 0 <= k < r.hints@.len() ==> (#[trigger] r.hints@[k]).1 < bytes@.len(),
{
    let ghost s = bytes@;
    proof {
        lemma_first_nul_from(s, 0);
    }
    let mut issues: Vec<(Issue, usize)> = Vec::new();
    let mut hints: Vec<(Hint, usize)> = Vec::new();
    let mut chars: Vec<u8> = Vec::new();
    let mut eos = false;
    let mut n: usize = 0;
    while n < bytes.len()
        invariant
            n <= bytes.len(),
            s == bytes@,
            eos <==> first_nul(s) < n,
            eos ==> chars@ =~= s.subrange(0, first_nul(s)),
            !eos ==> chars@ =~= s.subrange(0, n as int),
            text_field_scan(s, 0) =~= issues@ + text_field_scan(s, n as int),
            path_field_hints(s, 0) =~= hints@ + path_field_hints(s, n as int),
            forall|k: int| 0 <= k < issues@.len() ==> (#[trigger] issues@[k]).1 < n,
            forall|k: int| 0 <= k < hints@.len() ==> (#[trigger] hints@[k]).1 < n,
            0 <= first_nul(s) <= s.len(),
            first_nul(s) < s.len() ==> s[first_nul(s)] == 0,
            forall|j: int| 0 <= j < first_nul(s) ==> s[j] != 0,
        decreases bytes.len() - n,
    {
        let b = bytes[n];
        if eos {
            if b != 0 {
                issues.push((Issue::UnusedByteNotNul, n));
            }
        } else if b == 0 {
            proof {
                assert(first_nul(s) == n as int);
            }
            eos = true;
        } else {
            proof {
                assert(first_nul(s) != n as int);
            }
            let portable = (65 <= b && b <= 90) || (97 <= b && b <= 122)
                || (48 <= b && b <= 57) || b == 46 || b == 95 || b == 45;
            if !portable && b != 47 {
                hints.push((Hint::UnportableCharInPath, n));
            }
            chars.push(b);
        }
        n += 1;
    }
    proof {
        assert(text_field_scan(s, s.len() as int) =~= Seq::<(Issue, usize)>::empty());
        assert(path_field_hints(s, s.len() as int) =~= Seq::<(Hint, usize)>::empty());
        assert(issues@ =~= text_field_scan(s, 0));
        assert(hints@ =~= path_field_hints(s, 0));
        if !eos {
            assert(chars@ =~= s.subrange(0, first_nul(s)));
        }
    }
    LintResult { value: Some(chars), hints, issues }
}

/// Decode a string field: like a path field, but `/` is not exempt from
/// the portability check and a missing terminator voids the value.
pub fn lint_string_field(bytes: &[u8]) -> (r: LintResult<Vec<u8>>)
    ensures
        r.issues@ == string_field_issues(bytes@),
        r.hints@ == string_field_hints(bytes@, 0),
        r.value.deep_view() == string_field_value(bytes@),
        forall|k: int|
            0 <= k < r.issues@.len() ==> (#[trigger] r.issues@[k]).1 < bytes@.len(),
        forall|k: int| 0 <= k < r.hints@.len() ==> (#[trigger] r.hints@[k]).1 < bytes@.len(),
{
    let ghost s = bytes@;
    proof {
        lemma_first_nul_from(s, 0);
    }
    let mut issues: Vec<(Issue, usize)> = Vec::new();
    let mut hints: Vec<(Hint, usize)> = Vec::new();
    let mut chars: Vec<u8> = Vec::new();
    let mut eos = false;
    let mut n: usize = 0;
    while n < bytes.len()
        invariant
            n <= bytes.len(),
            s == bytes@,
            eos <==> first_nul(s) < n,
            eos ==> chars@ =~= s.subrange(0, first_nul(s)),
            !eos ==> chars@ =~= s.subrange(0, n as int),
            text_field_scan(s, 0) =~= issues@ + text_field_scan(s, n as int),
            string_field_hints(s, 0) =~= hints@ + string_field_hints(s, n as int),
            forall|k: int| 0 <= k < issues@.len() ==> (#[trigger] issues@[k]).1 < n,
            forall|k: int| 0 <= k < hints@.len() ==> (#[trigger] hints@[k]).1 < n,
            0 <= first_nul(s) <= s.len(),
            first_nul(s) < s.len() ==> s[first_nul(s)] == 0,
            forall|j: int| 0 <= j < first_nul(s) ==> s[j] != 0,
        decreases bytes.len() - n,
    {
        let b = bytes[n];
        if eos {
            if b != 0 {
                issues.push((Issue::UnusedByteNotNul, n));
            }
        } else if b == 0 {
            proof {
                assert(first_nul(s) == n as int);
            }
            eos = true;
        } else {
            proof {
                assert(first_nul(s) != n as int);
            }
            let portable = (65 <= b && b <= 90) || (97 <= b && b <= 122)
                || (48 <= b && b <= 57) || b == 46 || b == 95 || b == 45;
            if !portable {
                hints.push((Hint::UnportableCharInString, n));
            }
            chars.push(b);
        }
        n += 1;
    }
    proof {
        assert(text_field_scan(s, s.len() as int) =~= Seq::<(Issue, usize)>::empty());
        assert(string_field_hints(s, s.len() as int) =~= Seq::<(Hint, usize)>::empty());
        assert(hints@ =~= string_field_hints(s, 0));
    }
    let value: Option<Vec<u8>>;
    if !eos {
        if bytes.len() > 0 {
            issues.push((Issue::UnterminatedString, bytes.len() - 1));
        }
        value = None;
    } else {
        value = Some(chars);
    }
    proof {
        assert(issues@ =~= string_field_issues(s));
    }
    LintResult { value, hints, issues }
}

} // verus!
