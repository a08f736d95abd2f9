//! The PAX extended-header parser: decodes the reconstructed payload of an
//! extended-header entry into decimal-length-prefixed keyword/value
//! records and validates the record framing, halting at the first issue.

use vstd::prelude::*;

verus! {

use crate::issues::Hint;
use crate::issues::Issue;

/// The offset of the first occurrence of byte `c` at or after `i`, or the
/// buffer's length if none exists.
pub open spec fn find_byte(s: Seq<u8>, i: int, c: u8) -> int
    decreases s.len() - i,
{
    if i < 0 || i >= s.len() {
        s.len() as int
    } else if s[i] == c {
        i
    } else {
        find_byte(s, i + 1, c)
    }
}

/// A non-empty run of ASCII decimal digits.
pub open spec fn all_digits(s: Seq<u8>) -> bool {
    s.len() > 0 && forall|j: int| 0 <= j < s.len() ==> 48 <= #[trigger] s[j] <= 57
}

/// The value of a digit run read as a decimal number, over the first `i`
/// digits.
pub open spec fn dec_value(s: Seq<u8>, i: int) -> int
    decreases i,
{
    if i <= 0 {
        0
    } else {
        dec_value(s, i - 1) * 10 + (s[i - 1] - 48)
    }
}

/// The declared record length: the digit run read as a decimal, or
/// nothing when the run is empty or holds a non-digit.
pub open spec fn dec_of(s: Seq<u8>) -> Option<int> {
    if all_digits(s) {
        Some(dec_value(s, s.len() as int))
    } else {
        None
    }
}

/// A UTF-8 continuation byte.
pub open spec fn utf8_cont(b: u8) -> bool {
    0x80 <= b <= 0xBF
}

/// The bytes from offset `i` on form well-formed UTF-8.
pub open spec fn is_utf8_from(s: Seq<u8>, i: int) -> bool
    decreases s.len() - i,
{
    if i < 0 || i >= s.len() {
        true
    } else {
        let b0 = s[i];
        if b0 < 0x80 {
            is_utf8_from(s, i + 1)
        } else if 0xC2 <= b0 <= 0xDF {
            i + 1 < s.len() && utf8_cont(s[i + 1]) && is_utf8_from(s, i + 2)
        } else if b0 == 0xE0 {
            i + 2 < s.len() && 0xA0 <= s[i + 1] <= 0xBF && utf8_cont(s[i + 2]) && is_utf8_from(
                s,
                i + 3,
            )
        } else if 0xE1 <= b0 <= 0xEC || 0xEE <= b0 <= 0xEF {
            i + 2 < s.len() && utf8_cont(s[i + 1]) && utf8_cont(s[i + 2]) && is_utf8_from(s, i + 3)
        } else if b0 == 0xED {
            i + 2 < s.len() && 0x80 <= s[i + 1] <= 0x9F && utf8_cont(s[i + 2]) && is_utf8_from(
                s,
                i + 3,
            )
        } else if b0 == 0xF0 {
            i + 3 < s.len() && 0x90 <= s[i + 1] <= 0xBF && utf8_cont(s[i + 2]) && utf8_cont(
                s[i + 3],
            ) && is_utf8_from(s, i + 4)
        } else if 0xF1 <= b0 <= 0xF3 {
            i + 3 < s.len() && utf8_cont(s[i + 1]) && utf8_cont(s[i + 2]) && utf8_cont(s[i + 3])
                && is_utf8_from(s, i + 4)
        } else if b0 == 0xF4 {
            i + 3 < s.len() && 0x80 <= s[i + 1] <= 0x8F && utf8_cont(s[i + 2]) && utf8_cont(
                s[i + 3],
            ) && is_utf8_from(s, i + 4)
        } else {
            false
        }
    }
}

/// The sequence contains `pat` as a contiguous subsequence.
pub open spec fn has_subseq(s: Seq<u8>, pat: Seq<u8>) -> bool {
    exists|i: int| 0 <= i && i + pat.len() <= s.len() && #[trigger] s.subrange(i, i + pat.len())
        == pat
}

/// The bytes of the keyword `"size"`.
pub open spec fn kw_size() -> Seq<u8> {
    seq![115u8, 105u8, 122u8, 101u8]
}

/// The bytes of the keyword `"path"`.
pub open spec fn kw_path() -> Seq<u8> {
    seq![112u8, 97u8, 116u8, 104u8]
}

/// The keyword of a record body: the bytes before the first `=`.
pub open spec fn record_keyword(body: Seq<u8>) -> Seq<u8> {
    body.subrange(0, find_byte(body, 0, 61))
}

/// The issue a record body raises against the keywords already seen, or
/// nothing when the record is acceptable: it must end with a newline,
/// contain `=`, and its keyword must be non-empty, not start with a blank,
/// be UTF-8, be new, and not contain `"size"` or `"path"`.
pub open spec fn pax_record_issue(body: Seq<u8>, seen: Seq<Seq<u8>>) -> Option<Issue> {
    if body.len() == 0 || body[body.len() - 1] != 10 {
        Some(Issue::PaxHeaderNoNewline)
    } else if find_byte(body, 0, 61) >= body.len() {
        Some(Issue::PaxHeaderNoEqualSign)
    } else {
        let kw = record_keyword(body);
        if kw.len() == 0 {
            Some(Issue::PaxHeaderKeywordEmpty)
        } else if kw[0] == 32 || kw[0] == 9 {
            Some(Issue::PaxHeaderKeywordBlank)
        } else if !is_utf8_from(kw, 0) {
            Some(Issue::PaxHeaderKeywordNoUtf8)
        } else if seen.contains(kw) {
            Some(Issue::PaxHeaderKeywordDuplicate)
        } else if has_subseq(kw, kw_size()) {
            Some(Issue::PaxSize)
        } else if has_subseq(kw, kw_path()) {
            Some(Issue::PaxPath)
        } else {
            None
        }
    }
}

/// The outcome of scanning an extended header: the halting issue, if any,
/// and the keywords registered up to that point.
pub struct PaxOutcome {
    pub issue: Option<Issue>,
    pub keywords: Seq<Seq<u8>>,
}

/// Scan the buffer from `start` with the keywords in `seen` registered:
/// parse the decimal length, slice the record body to the declared end,
/// validate it, and continue behind it; halt at the first issue. A record
/// whose declared length does not fit its own buffer is reported as
/// `PaxHeaderSizeInvalid` rather than read out of bounds.
pub open spec fn pax_scan(bytes: Seq<u8>, start: int, seen: Seq<Seq<u8>>) -> PaxOutcome
    decreases bytes.len() - start,
{
    if start < 0 || start >= bytes.len() {
        PaxOutcome { issue: None, keywords: seen }
    } else {
        let sp = find_byte(bytes, start, 32);
        if sp >= bytes.len() {
            PaxOutcome { issue: Some(Issue::PaxHeaderSizeInvalid), keywords: seen }
        } else {
            let szs = bytes.subrange(start, sp);
            match dec_of(szs) {
                None => PaxOutcome { issue: Some(Issue::PaxHeaderSizeInvalid), keywords: seen },
                Some(n) => {
                    if n > 0xFFFF_FFFF_FFFF_FFFF {
                        PaxOutcome { issue: Some(Issue::PaxHeaderSizeInvalid), keywords: seen }
                    } else if szs[0] == 48 {
                        PaxOutcome { issue: Some(Issue::PaxHeaderSizeOctal), keywords: seen }
                    } else if n > 0x7FFFFFFF {
                        PaxOutcome { issue: Some(Issue::PaxHeaderSizeTooLarge), keywords: seen }
                    } else if start + n > bytes.len() || n < sp - start + 1 || n < 1 {
                        PaxOutcome { issue: Some(Issue::PaxHeaderSizeInvalid), keywords: seen }
                    } else {
                        let body = bytes.subrange(sp + 1, start + n);
                        match pax_record_issue(body, seen) {
                            Some(i) => PaxOutcome { issue: Some(i), keywords: seen },
                            None => pax_scan(bytes, start + n, seen.push(record_keyword(body))),
                        }
                    }
                },
            }
        }
    }
}

/// The outcome of linting a whole extended-header payload: an empty
/// payload is itself an issue.
pub open spec fn pax_result(bytes: Seq<u8>) -> PaxOutcome {
    if bytes.len() == 0 {
        PaxOutcome { issue: Some(Issue::PaxEmpty), keywords: Seq::empty() }
    } else {
        pax_scan(bytes, 0, Seq::empty())
    }
}

/// Check that the bytes form well-formed UTF-8.
pub fn check_utf8(v: &Vec<u8>) -> (r: bool)
    ensures
        r == is_utf8_from(v@, 0),
{
    let ghost s = v@;
    let mut i: usize = 0;
    while i < v.len()
        invariant
            0 <= i <= v.len(),
            s == v@,
            is_utf8_from(s, 0) == is_utf8_from(s, i as int),
        decreases v.len() - i,
    {
        let b0 = v[i];
        if b0 < 0x80 {
            i += 1;
        } else if 0xC2 <= b0 && b0 <= 0xDF {
            if !(v.len() - i > 1 && 0x80 <= v[i + 1] && v[i + 1] <= 0xBF) {
                return false;
            }
            i += 2;
        } else if b0 == 0xE0 {
            if !(v.len() - i > 2 && 0xA0 <= v[i + 1] && v[i + 1] <= 0xBF && 0x80 <= v[i + 2] && v[i
                + 2] <= 0xBF) {
                return false;
            }
            i += 3;
        } else if (0xE1 <= b0 && b0 <= 0xEC) || (0xEE <= b0 && b0 <= 0xEF) {
            if !(v.len() - i > 2 && 0x80 <= v[i + 1] && v[i + 1] <= 0xBF && 0x80 <= v[i + 2] && v[i
                + 2] <= 0xBF) {
                return false;
            }
            i += 3;
        } else if b0 == 0xED {
            if !(v.len() - i > 2 && 0x80 <= v[i + 1] && v[i + 1] <= 0x9F && 0x80 <= v[i + 2] && v[i
                + 2] <= 0xBF) {
                return false;
            }
            i += 3;
        } else if b0 == 0xF0 {
            if !(v.len() - i > 3 && 0x90 <= v[i + 1] && v[i + 1] <= 0xBF && 0x80 <= v[i + 2] && v[i
                + 2] <= 0xBF && 0x80 <= v[i + 3] && v[i + 3] <= 0xBF) {
                return false;
            }
            i += 4;
        } else if 0xF1 <= b0 && b0 <= 0xF3 {
            if !(v.len() - i > 3 && 0x80 <= v[i + 1] && v[i + 1] <= 0xBF && 0x80 <= v[i + 2] && v[i
                + 2] <= 0xBF && 0x80 <= v[i + 3] && v[i + 3] <= 0xBF) {
                return false;
            }
            i += 4;
        } else if b0 == 0xF4 {
            if !(v.len() - i > 3 && 0x80 <= v[i + 1] && v[i + 1] <= 0x8F && 0x80 <= v[i + 2] && v[i
                + 2] <= 0xBF && 0x80 <= v[i + 3] && v[i + 3] <= 0xBF) {
                return false;
            }
            i += 4;
        } else {
            return false;
        }
    }
    true
}

/// The pattern occurs as a contiguous subsequence of the bytes.
pub fn find_subseq(v: &Vec<u8>, pat: &Vec<u8>) -> (r: bool)
    ensures
        r == has_subseq(v@, pat@),
{
    if pat.len() > v.len() {
        proof {
            assert(!has_subseq(v@, pat@));
        }
        return false;
    }
    let mut i: usize = 0;
    while i <= v.len() - pat.len()
        invariant
            pat@.len() <= v@.len(),
            0 <= i <= v.len() - pat.len() + 1,
            forall|j: int| 0 <= j < i ==> #[trigger] v@.subrange(j, j + pat@.len()) != pat@,
        decreases v@.len() - pat@.len() + 1 - i,
    {
        let mut k: usize = 0;
        let mut matched = true;
        while k < pat.len()
            invariant
                0 <= k <= pat@.len(),
                i + pat@.len() <= v@.len(),
                v@.len() <= usize::MAX,
                matched <==> (forall|m: int| 0 <= m < k ==> v@[i + m] == pat@[m]),
            decreases pat.len() - k,
        {
            if v[i + k] != pat[k] {
                proof {
                    assert(v@[i as int + k as int] != pat@[k as int]);
                }
                matched = false;
            }
            k += 1;
        }
        if matched {
            proof {
                assert(v@.subrange(i as int, i as int + pat@.len()) =~= pat@);
            }
            return true;
        }
        proof {
            if v@.subrange(i as int, i as int + pat@.len()) == pat@ {
                assert forall|m: int| 0 <= m < pat@.len() implies v@[i + m] == pat@[m] by {
                    assert(v@.subrange(i as int, i as int + pat@.len())[m] == v@[i + m]);
                }
            }
        }
        i += 1;
    }
    proof {
        if has_subseq(v@, pat@) {
            let j = choose|j: int|
                0 <= j && j + pat@.len() <= v@.len() && #[trigger] v@.subrange(j, j + pat@.len())
                    == pat@;
            assert(j < i);
        }
    }
    false
}

fn seen_contains(v: &Vec<Vec<u8>>, kw: &Vec<u8>) -> (r: bool)
    ensures
        r == v.deep_view().contains(kw@),
{
    let mut n: usize = 0;
    while n < v.len()
        invariant
            n <= v.len(),
            forall|j: int| 0 <= j < n ==> v@[j]@ != kw@,
        decreases v.len() - n,
    {
        if crate::header::bytes_eq(&v[n], kw) {
            proof {
                assert(v.deep_view()[n as int] == v@[n as int]@);
            }
            return true;
        }
        n += 1;
    }
    proof {
        if v.deep_view().contains(kw@) {
            let j = choose|j: int| 0 <= j < v.deep_view().len() && v.deep_view()[j] == kw@;
            assert(v.deep_view()[j] == v@[j]@);
        }
    }
    false
}

/// Parse the digit run `[start, end)` as a decimal number: nothing when
/// the run is empty, holds a non-digit, or exceeds the unsigned 64-bit
/// range.
fn parse_decimal(v: &Vec<u8>, start: usize, end: usize) -> (r: Option<u64>)
    requires
        start <= end <= v@.len(),
    ensures
        ({
            let s = v@.subrange(start as int, end as int);
            match dec_of(s) {
                None => r is None,
                Some(n) => if n > 0xFFFF_FFFF_FFFF_FFFF {
                    r is None
                } else {
                    r == Some(n as u64)
                },
            }
        }),
{
    let ghost s = v@.subrange(start as int, end as int);
    if start == end {
        proof {
            assert(!all_digits(s));
        }
        return None;
    }
    let mut val: u64 = 0;
    let mut i: usize = start;
    while i < end
        invariant
            start <= i <= end <= v@.len(),
            s == v@.subrange(start as int, end as int),
            s.len() == end - start,
            forall|j: int| 0 <= j < i - start ==> 48 <= #[trigger] s[j] <= 57,
            val as int == dec_value(s, i - start),
        decreases end - i,
    {
        let b = v[i];
        proof {
            assert(s[i - start] == v@[i as int]);
        }
        if b < 48 || b > 57 {
            proof {
                assert(!all_digits(s));
            }
            return None;
        }
        let d = (b - 48) as u64;
        if val > (0xFFFF_FFFF_FFFF_FFFFu64 - d) / 10 {
            proof {
                assert(val as int * 10 + d > 0xFFFF_FFFF_FFFF_FFFF) by (nonlinear_arith)
                    requires
                        val as int > (0xFFFF_FFFF_FFFF_FFFF - d as int) / 10,
                        0 <= d <= 9,
                ;
                assert(dec_value(s, i - start + 1) > 0xFFFF_FFFF_FFFF_FFFF);
                if all_digits(s) {
                    lemma_dec_monotonic(s, i - start + 1, s.len() as int);
                    assert(dec_of(s) == Some(dec_value(s, s.len() as int)));
                }
            }
            return None;
        }
        proof {
            assert(val as int * 10 + d <= 0xFFFF_FFFF_FFFF_FFFF) by (nonlinear_arith)
                requires
                    val as int <= (0xFFFF_FFFF_FFFF_FFFF - d as int) / 10,
                    0 <= d <= 9,
            ;
        }
        val = val * 10 + d;
        i += 1;
    }
    proof {
        assert(all_digits(s));
    }
    Some(val)
}

proof fn lemma_dec_monotonic(s: Seq<u8>, i: int, j: int)
    requires
        0 <= i <= j,
        forall|m: int| 0 <= m < s.len() ==> 48 <= #[trigger] s[m] <= 57,
        j <= s.len(),
    ensures
        dec_value(s, i) <= dec_value(s, j),
        dec_value(s, i) >= 0,
    decreases j - i,
{
    if i == 0 {
        lemma_dec_nonneg(s, j);
    } else if i < j {
        lemma_dec_monotonic(s, i, j - 1);
        lemma_dec_nonneg(s, i);
        assert(dec_value(s, j) == dec_value(s, j - 1) * 10 + (s[j - 1] - 48));
        assert(dec_value(s, j - 1) * 10 >= dec_value(s, j - 1)) by (nonlinear_arith)
            requires
                dec_value(s, j - 1) >= 0,
        ;
    } else {
        lemma_dec_nonneg(s, i);
    }
}

proof fn lemma_dec_nonneg(s: Seq<u8>, i: int)
    requires
        forall|m: int| 0 <= m < s.len() ==> 48 <= #[trigger] s[m] <= 57,
        i <= s.len(),
    ensures
        dec_value(s, i) >= 0,
    decreases i,
{
    if i > 0 {
        lemma_dec_nonneg(s, i - 1);
        assert(dec_value(s, i - 1) * 10 >= 0) by (nonlinear_arith)
            requires
                dec_value(s, i - 1) >= 0,
        ;
    }
}

/// One linted PAX extended-header payload: its raw bytes, the keywords
/// registered, and the issue that halted the record loop, if any.
pub struct LintPaxExtendedHeader {
    pub keywords: Vec<Vec<u8>>,
    pub hints: Vec<Hint>,
    pub issues: Vec<Issue>,
    pub bytes: Vec<u8>,
}

impl LintPaxExtendedHeader {
    /// Lint an extended-header payload: walk the decimal-length-prefixed
    /// records, registering each keyword, and stop at the first issue.
    pub fn new(bytes: Vec<u8>) -> (r: LintPaxExtendedHeader)
        ensures
            r.bytes@ == bytes@,
            r.hints@ =~= Seq::<Hint>::empty(),
            r.issues@ == match pax_result(bytes@).issue {
                Some(i) => seq![i],
                None => Seq::<Issue>::empty(),
            },
            r.keywords.deep_view() == pax_result(bytes@).keywords,
    {
        let ghost b = bytes@;
        let mut result = LintPaxExtendedHeader {
            keywords: Vec::new(),
            hints: Vec::new(),
            issues: Vec::new(),
            bytes,
        };
        proof {
            assert(result.keywords.deep_view() =~= Seq::<Seq<u8>>::empty());
        }
        if result.bytes.len() == 0 {
            result.issues.push(Issue::PaxEmpty);
            return result;
        }
        let mut start: usize = 0;
        while start < result.bytes.len() && result.issues.len() == 0
            invariant
                start <= result.bytes@.len(),
                b == result.bytes@,
                result.hints@ =~= Seq::<Hint>::empty(),
                result.issues@.len() <= 1,
                result.issues@.len() == 0 ==> pax_scan(b, 0, Seq::empty()) == pax_scan(
                    b,
                    start as int,
                    result.keywords.deep_view(),
                ),
                result.issues@.len() == 1 ==> pax_scan(b, 0, Seq::empty()) == (PaxOutcome {
                    issue: Some(result.issues@[0]),
                    keywords: result.keywords.deep_view(),
                }),
            decreases result.bytes@.len() - start + (if result.issues@.len() == 0 {
                1int
            } else {
                0int
            }),
        {
            let ghost seen = result.keywords.deep_view();
            let mut sp: usize = start;
            while sp < result.bytes.len() && result.bytes[sp] != 32
                invariant
                    start <= sp <= result.bytes@.len(),
                    b == result.bytes@,
                    find_byte(b, start as int, 32) == find_byte(b, sp as int, 32),
                decreases result.bytes@.len() - sp,
            {
                sp += 1;
            }
            proof {
                assert(find_byte(b, sp as int, 32) == sp as int);
            }
            if sp >= result.bytes.len() {
                proof {
                    assert(pax_scan(b, start as int, seen) == (PaxOutcome {
                        issue: Some(Issue::PaxHeaderSizeInvalid),
                        keywords: seen,
                    }));
                }
                result.issues.push(Issue::PaxHeaderSizeInvalid);
            } else {
                match parse_decimal(&result.bytes, start, sp) {
                    None => {
                        proof {
                            assert(pax_scan(b, start as int, seen) == (PaxOutcome {
                                issue: Some(Issue::PaxHeaderSizeInvalid),
                                keywords: seen,
                            }));
                        }
                        result.issues.push(Issue::PaxHeaderSizeInvalid);
                    },
                    Some(n) => {
                        proof {
                            assert(b.subrange(start as int, sp as int)[0] == b[start as int]);
                            lemma_dec_monotonic(
                                b.subrange(start as int, sp as int),
                                0,
                                b.subrange(start as int, sp as int).len() as int,
                            );
                        }
                        if result.bytes[start] == 48 {
                            proof {
                                assert(pax_scan(b, start as int, seen) == (PaxOutcome {
                                    issue: Some(Issue::PaxHeaderSizeOctal),
                                    keywords: seen,
                                }));
                            }
                            result.issues.push(Issue::PaxHeaderSizeOctal);
                        } else if n > 0x7FFFFFFF {
                            proof {
                                assert(pax_scan(b, start as int, seen) == (PaxOutcome {
                                    issue: Some(Issue::PaxHeaderSizeTooLarge),
                                    keywords: seen,
                                }));
                            }
                            result.issues.push(Issue::PaxHeaderSizeTooLarge);
                        } else {
                            proof {
                                reveal_with_fuel(dec_value, 3);
                                let szs = b.subrange(start as int, sp as int);
                                lemma_dec_monotonic(szs, 1, szs.len() as int);
                                assert(dec_value(szs, 0) == 0);
                                assert(dec_value(szs, 1) == szs[0] - 48);
                            }
                            let nn = n as usize;
                            if nn > result.bytes.len() - start || nn < (sp - start) + 1 {
                                proof {
                                    assert(pax_scan(b, start as int, seen) == (PaxOutcome {
                                        issue: Some(Issue::PaxHeaderSizeInvalid),
                                        keywords: seen,
                                    }));
                                }
                                result.issues.push(Issue::PaxHeaderSizeInvalid);
                            } else {
                                let mut body: Vec<u8> = Vec::new();
                                let mut q: usize = sp + 1;
                                while q < start + nn
                                    invariant
                                        sp as int + 1 <= q as int <= start as int + nn as int,
                                        start + nn <= result.bytes@.len(),
                                        result.bytes@.len() <= usize::MAX,
                                        b == result.bytes@,
                                        body@ =~= b.subrange(sp as int + 1, q as int),
                                    decreases start + nn - q,
                                {
                                    body.push(result.bytes[q]);
                                    q += 1;
                                }
                                proof {
                                    assert(body@ =~= b.subrange(
                                        sp as int + 1,
                                        start as int + nn as int,
                                    ));
                                }
                                let rec = Self::lint_record(&mut result.keywords, body);
                                match rec {
                                    Some(i) => {
                                        proof {
                                            assert(pax_scan(b, start as int, seen) == (PaxOutcome {
                                                issue: Some(i),
                                                keywords: seen,
                                            }));
                                        }
                                        result.issues.push(i);
                                    },
                                    None => {
                                        proof {
                                            assert(pax_scan(b, start as int, seen) == pax_scan(
                                                b,
                                                start as int + nn as int,
                                                seen.push(record_keyword(
                                                    b.subrange(sp as int + 1, start as int + nn as int),
                                                )),
                                            ));
                                        }
                                        start += nn;
                                    },
                                }
                            }
                        }
                    },
                }
            }
        }
        result
    }

    /// Validate one record body against the keywords already registered;
    /// register its keyword when the record is acceptable.
    fn lint_record(keywords: &mut Vec<Vec<u8>>, vec: Vec<u8>) -> (r: Option<Issue>)
        ensures
            r == pax_record_issue(vec@, old(keywords).deep_view()),
            r is Some ==> *final(keywords) == *old(keywords),
            r is None ==> final(keywords).deep_view() == old(keywords).deep_view().push(
                record_keyword(vec@),
            ),
    {
        let ghost body = vec@;
        if vec.len() == 0 || vec[vec.len() - 1] != 10 {
            return Some(Issue::PaxHeaderNoNewline);
        }
        let mut p: usize = 0;
        while p < vec.len() && vec[p] != 61
            invariant
                0 <= p <= vec@.len(),
                body == vec@,
                find_byte(body, 0, 61) == find_byte(body, p as int, 61),
            decreases vec@.len() - p,
        {
            p += 1;
        }
        proof {
            assert(find_byte(body, p as int, 61) == p as int);
        }
        if p >= vec.len() {
            return Some(Issue::PaxHeaderNoEqualSign);
        }
        let mut kw: Vec<u8> = Vec::new();
        let mut q: usize = 0;
        while q < p
            invariant
                0 <= q <= p <= vec@.len(),
                body == vec@,
                kw@ =~= body.subrange(0, q as int),
            decreases p - q,
        {
            kw.push(vec[q]);
            q += 1;
        }
        proof {
            assert(kw@ =~= record_keyword(body));
        }
        if kw.len() == 0 {
            return Some(Issue::PaxHeaderKeywordEmpty);
        }
        if kw[0] == 32 || kw[0] == 9 {
            return Some(Issue::PaxHeaderKeywordBlank);
        }
        if !check_utf8(&kw) {
            return Some(Issue::PaxHeaderKeywordNoUtf8);
        }
        if seen_contains(keywords, &kw) {
            return Some(Issue::PaxHeaderKeywordDuplicate);
        }
        let size_pat = kw_size_vec();
        if find_subseq(&kw, &size_pat) {
            return Some(Issue::PaxSize);
        }
        let path_pat = kw_path_vec();
        if find_subseq(&kw, &path_pat) {
            return Some(Issue::PaxPath);
        }
        let ghost pre = keywords.deep_view();
        let ghost kwv = kw@;
        keywords.push(kw);
        proof {
            assert forall|j: int| 0 <= j < keywords.deep_view().len() implies keywords.deep_view()[j] == pre.push(record_keyword(body))[j] by {
                assert(keywords.deep_view()[j] == keywords@[j].deep_view());
                if j < pre.len() {
                    assert(pre[j] == old(keywords)@[j].deep_view());
                } else {
                    assert(keywords@[j] == kw);
                }
            }
            assert(keywords.deep_view() =~= pre.push(record_keyword(body)));
        }
        None
    }
}

/// A record whose keyword contains `"size"` anywhere is always refused
/// as `PaxSize`, and one whose keyword contains `"path"` as `PaxPath`
/// (with `"size"` taking precedence), whatever the value holds — as long
/// as the record frames correctly and the keyword passes the earlier
/// blank, UTF-8 and duplicate checks.
pub proof fn lemma_pax_size_path_refused(body: Seq<u8>, seen: Seq<Seq<u8>>)
    requires
        body.len() > 0,
        body[body.len() - 1] == 10,
        find_byte(body, 0, 61) < body.len(),
        record_keyword(body).len() > 0,
        record_keyword(body)[0] != 32,
        record_keyword(body)[0] != 9,
        is_utf8_from(record_keyword(body), 0),
        !seen.contains(record_keyword(body)),
    ensures
        has_subseq(record_keyword(body), kw_size()) ==> pax_record_issue(body, seen) == Some(
            Issue::PaxSize,
        ),
        !has_subseq(record_keyword(body), kw_size()) && has_subseq(record_keyword(body), kw_path())
            ==> pax_record_issue(body, seen) == Some(Issue::PaxPath),
{
}

fn kw_size_vec() -> (r: Vec<u8>)
    ensures
        r@ == kw_size(),
{
    let mut v: Vec<u8> = Vec::new();
    v.push(115);
    v.push(105);
    v.push(122);
    v.push(101);
    proof {
        assert(v@ =~= kw_size());
    }
    v
}

fn kw_path_vec() -> (r: Vec<u8>)
    ensures
        r@ == kw_path(),
{
    let mut v: Vec<u8> = Vec::new();
    v.push(112);
    v.push(97);
    v.push(116);
    v.push(104);
    proof {
        assert(v@ =~= kw_path());
    }
    v
}

} // verus!
