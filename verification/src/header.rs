//! The header parser: decodes one 512-byte block into a semantic header
//! (path, link target, mode, size, typeflag, format) and applies the
//! header-level validation rules on the POSIX ustar byte layout.

use vstd::prelude::*;

verus! {

use crate::issues::Hint;
use crate::issues::Issue;
use crate::lint::LintResult;
use crate::lint::lint_nul_field;
use crate::lint::lint_number_field;
use crate::lint::lint_path_field;
use crate::lint::lint_string_field;

/// The size of a tar block in bytes.
pub const BLOCK_SIZE: usize = 512;

pub const NAME_START: usize = 0;
pub const NAME_END: usize = 100;
pub const MODE_START: usize = 100;
pub const MODE_END: usize = 108;
pub const UID_START: usize = 108;
pub const UID_END: usize = 116;
pub const GID_START: usize = 116;
pub const GID_END: usize = 124;
pub const SIZE_START: usize = 124;
pub const SIZE_END: usize = 136;
pub const MTIME_START: usize = 136;
pub const MTIME_END: usize = 148;
pub const CKSUM_START: usize = 148;
pub const CKSUM_END: usize = 156;
pub const TYPEFLAG_START: usize = 156;
pub const LINKNAME_START: usize = 157;
pub const LINKNAME_END: usize = 257;
pub const MAGIC_START: usize = 257;
pub const MAGIC_END: usize = 263;
pub const VERSION_START: usize = 263;
pub const VERSION_END: usize = 265;
pub const UNAME_START: usize = 265;
pub const UNAME_END: usize = 297;
pub const GNAME_START: usize = 297;
pub const GNAME_END: usize = 329;
pub const DEVMAJOR_START: usize = 329;
pub const DEVMAJOR_END: usize = 337;
pub const DEVMINOR_START: usize = 337;
pub const DEVMINOR_END: usize = 345;
pub const PREFIX_START: usize = 345;
pub const PREFIX_END: usize = 500;
pub const USTAR_PADDING_START: usize = 500;

/// The header format family, determined per header from its magic and
/// version signature and its typeflag.
#[derive(Copy, Clone, Debug, PartialEq, Eq, PartialOrd, Ord, Structural)]
pub enum Format {
    Gnu,
    Pax,
    Ustar,
    V7,
}

/// The sum over the first `i` block bytes, with the checksum field's own
/// bytes replaced by ASCII spaces.
pub open spec fn checksum_prefix(b: Seq<u8>, i: int) -> int
    decreases i,
{
    if i <= 0 {
        0
    } else {
        checksum_prefix(b, i - 1) + (if 148 <= i - 1 < 156 {
            32
        } else {
            b[i - 1] as int
        })
    }
}

/// The checksum of a 512-byte block: the unsigned byte sum with the
/// checksum field treated as eight spaces.
pub open spec fn checksum_of(b: Seq<u8>) -> int {
    checksum_prefix(b, 512)
}

/// Sum every byte of the block except the checksum field itself,
/// substituting eight ASCII spaces for the checksum field's own bytes.
pub fn calculate_checksum(bytes: &Vec<u8>) -> (r: u64)
    requires
        bytes@.len() == 512,
    ensures
        r as int == checksum_of(bytes@),
        r <= 130560,
{
    let mut acc: u64 = 0;
    let mut i: usize = 0;
    while i < 512
        invariant
            i <= 512,
            bytes@.len() == 512,
            acc as int == checksum_prefix(bytes@, i as int),
            acc <= 255 * i,
        decreases 512 - i,
    {
        if 148 <= i && i < 156 {
            acc = acc + 32;
        } else {
            acc = acc + (bytes[i] as u64);
        }
        i += 1;
    }
    acc
}

/// The decoded checksum field equals the calculated checksum.
pub open spec fn cksum_ok(b: Seq<u8>) -> bool {
    match crate::lint::number_field_value(b.subrange(148, 156)) {
        Some(v) => v as int == checksum_of(b),
        None => false,
    }
}

/// Runs of `/` collapsed to a single `/`, scanning from offset `i`.
pub open spec fn collapse_from(s: Seq<u8>, i: int) -> Seq<u8>
    decreases s.len() - i,
{
    if i < 0 || i >= s.len() {
        Seq::empty()
    } else if i + 1 < s.len() && s[i] == 47 && s[i + 1] == 47 {
        collapse_from(s, i + 1)
    } else {
        seq![s[i]] + collapse_from(s, i + 1)
    }
}

/// The offset after every leading `./` pair, starting the search at `j`.
pub open spec fn dotslash_start(s: Seq<u8>, j: int) -> int
    decreases s.len() - j,
{
    if j < 0 || j + 1 >= s.len() {
        j
    } else if s[j] == 46 && s[j + 1] == 47 {
        dotslash_start(s, j + 2)
    } else {
        j
    }
}

/// A single left-to-right pass replacing each non-overlapping `/./` with
/// `/`, scanning from offset `i`.
pub open spec fn replace_sds_from(s: Seq<u8>, i: int) -> Seq<u8>
    decreases s.len() - i,
{
    if i < 0 || i >= s.len() {
        Seq::empty()
    } else if i + 2 < s.len() && s[i] == 47 && s[i + 1] == 46 && s[i + 2] == 47 {
        seq![47u8] + replace_sds_from(s, i + 3)
    } else {
        seq![s[i]] + replace_sds_from(s, i + 1)
    }
}

/// The length after stripping every trailing `/`, starting from length `k`.
pub open spec fn slash_end(s: Seq<u8>, k: int) -> int
    decreases k,
{
    if 0 < k <= s.len() && s[k - 1] == 47 {
        slash_end(s, k - 1)
    } else {
        k
    }
}

/// The length after stripping every trailing `/.` pair, starting from
/// length `k`.
pub open spec fn slashdot_end(s: Seq<u8>, k: int) -> int
    decreases k,
{
    if 2 <= k <= s.len() && s[k - 2] == 47 && s[k - 1] == 46 {
        slashdot_end(s, k - 2)
    } else {
        k
    }
}

/// The normalized form of a path: repeated `/` collapsed, a leading `./`
/// stripped, internal `/./` collapsed, a trailing `/` or `/.` stripped;
/// if the result becomes empty while the original was not, the original's
/// first byte is kept; a trailing `/` is re-appended if the original ended
/// with `/` and the result does not already start with `/`.
pub open spec fn normalize_spec(p: Seq<u8>) -> Seq<u8> {
    let c = collapse_from(p, 0);
    let t = c.subrange(dotslash_start(c, 0), c.len() as int);
    let r = replace_sds_from(t, 0);
    let k2 = slashdot_end(r, slash_end(r, r.len() as int));
    let reduced = r.subrange(0, k2);
    let base = if reduced.len() == 0 && p.len() > 0 {
        seq![p[0]]
    } else {
        reduced
    };
    if (base.len() == 0 || base[0] != 47) && p.len() > 0 && p[p.len() - 1] == 47 {
        base + seq![47u8]
    } else {
        base
    }
}

proof fn lemma_dotslash_start_bounds(s: Seq<u8>, j: int)
    requires
        0 <= j <= s.len(),
    ensures
        j <= dotslash_start(s, j) <= s.len(),
    decreases s.len() - j,
{
    if j + 1 < s.len() && s[j] == 46 && s[j + 1] == 47 {
        lemma_dotslash_start_bounds(s, j + 2);
    }
}

/// Normalize a path: collapse repeated `/`, strip a leading `./`,
/// collapse internal `/./`, strip a trailing `/` or `/.`; keep the
/// original's first byte if the result would be empty; re-append a
/// trailing `/` if the original ended with one and the result does not
/// start with `/`.
pub fn normalize(path: Vec<u8>) -> (r: Vec<u8>)
    ensures
        r@ == normalize_spec(path@),
{
    let ghost p = path@;
    let mut simple: Vec<u8> = Vec::new();
    let mut i: usize = 0;
    while i < path.len()
        invariant
            i <= path.len(),
            p == path@,
            collapse_from(p, 0) =~= simple@ + collapse_from(p, i as int),
        decreases path.len() - i,
    {
        if !(path[i] == 47 && i + 1 < path.len() && path[i + 1] == 47) {
            simple.push(path[i]);
        }
        i += 1;
    }
    proof {
        assert(collapse_from(p, p.len() as int) =~= Seq::<u8>::empty());
        assert(simple@ =~= collapse_from(p, 0));
    }
    let ghost c = simple@;

    let mut j: usize = 0;
    while simple.len() - j > 1 && simple[j] == 46 && simple[j + 1] == 47
        invariant
            j <= simple.len(),
            c == simple@,
            dotslash_start(c, 0) == dotslash_start(c, j as int),
        decreases simple.len() - j,
    {
        j += 2;
    }
    proof {
        assert(dotslash_start(c, j as int) == j as int);
        lemma_dotslash_start_bounds(c, 0);
    }

    let mut t: Vec<u8> = Vec::new();
    let mut k: usize = j;
    while k < simple.len()
        invariant
            j <= k <= simple.len(),
            c == simple@,
            t@ =~= c.subrange(j as int, k as int),
        decreases simple.len() - k,
    {
        t.push(simple[k]);
        k += 1;
    }
    proof {
        assert(t@ =~= c.subrange(dotslash_start(c, 0), c.len() as int));
    }
    let ghost tv = t@;

    let mut r: Vec<u8> = Vec::new();
    let mut m: usize = 0;
    while m < t.len()
        invariant
            m <= t.len(),
            tv == t@,
            replace_sds_from(tv, 0) =~= r@ + replace_sds_from(tv, m as int),
        decreases t.len() - m,
    {
        if t.len() - m > 2 && t[m] == 47 && t[m + 1] == 46 && t[m + 2] == 47 {
            r.push(47);
            m += 3;
        } else {
            r.push(t[m]);
            m += 1;
        }
    }
    proof {
        assert(replace_sds_from(tv, tv.len() as int) =~= Seq::<u8>::empty());
        assert(r@ =~= replace_sds_from(tv, 0));
    }
    let ghost rv = r@;

    let mut k1: usize = r.len();
    while k1 > 0 && r[k1 - 1] == 47
        invariant
            k1 <= r.len(),
            rv == r@,
            slash_end(rv, rv.len() as int) == slash_end(rv, k1 as int),
        decreases k1,
    {
        k1 -= 1;
    }
    proof {
        assert(slash_end(rv, k1 as int) == k1 as int);
    }

    let mut k2: usize = k1;
    while k2 >= 2 && r[k2 - 2] == 47 && r[k2 - 1] == 46
        invariant
            k2 <= r.len(),
            rv == r@,
            slashdot_end(rv, k1 as int) == slashdot_end(rv, k2 as int),
        decreases k2,
    {
        k2 -= 2;
    }
    proof {
        assert(slashdot_end(rv, k2 as int) == k2 as int);
    }

    let mut reduced: Vec<u8> = Vec::new();
    let mut q: usize = 0;
    while q < k2
        invariant
            q <= k2 <= rv.len(),
            rv == r@,
            reduced@ =~= rv.subrange(0, q as int),
        decreases k2 - q,
    {
        reduced.push(r[q]);
        q += 1;
    }
    proof {
        assert(reduced@ =~= rv.subrange(0, slashdot_end(rv, slash_end(rv, rv.len() as int))));
    }

    let mut normalized: Vec<u8>;
    if reduced.len() == 0 && path.len() > 0 {
        normalized = Vec::new();
        normalized.push(path[0]);
    } else {
        normalized = reduced;
    }
    let starts_slash = normalized.len() > 0 && normalized[0] == 47;
    if !starts_slash && path.len() > 0 && path[path.len() - 1] == 47 {
        normalized.push(47);
    }
    proof {
        assert(normalized@ =~= normalize_spec(p));
    }
    normalized
}

/// A missing field decodes to the empty byte sequence.
pub open spec fn opt_or_empty(o: Option<Seq<u8>>) -> Seq<u8> {
    match o {
        Some(s) => s,
        None => Seq::empty(),
    }
}

/// Prefix and name joined with `/` when both are non-empty, else
/// whichever is non-empty.
pub open spec fn join_path(prefix: Seq<u8>, name: Seq<u8>) -> Seq<u8> {
    if prefix.len() == 0 {
        name
    } else if name.len() == 0 {
        prefix
    } else {
        prefix + seq![47u8] + name
    }
}

/// The normalized full path composed from the prefix and name fields.
pub open spec fn to_path_spec(prefix: Option<Seq<u8>>, name: Option<Seq<u8>>) -> Seq<u8> {
    normalize_spec(join_path(opt_or_empty(prefix), opt_or_empty(name)))
}

/// Compose the full entry path from the prefix and name fields and
/// normalize it.
pub fn to_path(prefix: Option<Vec<u8>>, name: Option<Vec<u8>>) -> (r: Vec<u8>)
    ensures
        r@ == to_path_spec(prefix.deep_view(), name.deep_view()),
{
    let prefix_bytes: Vec<u8> = match prefix {
        Some(v) => v,
        None => Vec::new(),
    };
    let mut name_bytes: Vec<u8> = match name {
        Some(v) => v,
        None => Vec::new(),
    };
    let joined: Vec<u8>;
    if prefix_bytes.len() == 0 {
        joined = name_bytes;
    } else if name_bytes.len() == 0 {
        joined = prefix_bytes;
    } else {
        let mut jv = prefix_bytes;
        jv.push(47);
        jv.append(&mut name_bytes);
        joined = jv;
    }
    proof {
        assert(joined@ =~= join_path(
            opt_or_empty(prefix.deep_view()),
            opt_or_empty(name.deep_view()),
        ));
    }
    normalize(joined)
}

/// The bytes of the block window `[lo, hi)`.
pub open spec fn win(b: Seq<u8>, lo: int, hi: int) -> Seq<u8> {
    b.subrange(lo, hi)
}

/// The typeflag bytes the portable subset allows: `'0'`-`'7'`, `'g'`,
/// `'x'` or NUL.
pub open spec fn typeflag_allowed(t: u8) -> bool {
    (48 <= t <= 55) || t == 103 || t == 120 || t == 0
}

/// The typeflag after coercion: a NUL or disallowed byte becomes `'0'`.
pub open spec fn typeflag_spec(b: Seq<u8>) -> u8 {
    if !typeflag_allowed(b[156]) {
        48
    } else if b[156] == 0 {
        48
    } else {
        b[156]
    }
}

/// The canonical ustar magic and version: `"ustar\0" + "00"`.
pub open spec fn magicver_ustar() -> Seq<u8> {
    seq![117u8, 115u8, 116u8, 97u8, 114u8, 0u8, 48u8, 48u8]
}

/// The GNU magic and version: `"ustar  \0"`.
pub open spec fn magicver_gnu() -> Seq<u8> {
    seq![117u8, 115u8, 116u8, 97u8, 114u8, 32u8, 32u8, 0u8]
}

/// The format classified from the 8-byte magic and version window and the
/// coerced typeflag.
pub open spec fn format_spec(b: Seq<u8>) -> Format {
    let mv = win(b, 257, 265);
    if mv == magicver_ustar() {
        if typeflag_spec(b) == 103 || typeflag_spec(b) == 120 {
            Format::Pax
        } else {
            Format::Ustar
        }
    } else if mv == magicver_gnu() {
        Format::Gnu
    } else {
        Format::V7
    }
}

/// The magic bytes deviate from `"ustar\0"` although the window matches
/// no known signature.
pub open spec fn invalid_magic(b: Seq<u8>) -> bool {
    let mv = win(b, 257, 265);
    mv != magicver_ustar() && mv != magicver_gnu() && !crate::lint::all_zero(mv)
        && win(b, 257, 263) != seq![117u8, 115u8, 116u8, 97u8, 114u8, 0u8]
}

/// The version bytes deviate from `"00"` although the window matches no
/// known signature.
pub open spec fn invalid_version(b: Seq<u8>) -> bool {
    let mv = win(b, 257, 265);
    mv != magicver_ustar() && mv != magicver_gnu() && !crate::lint::all_zero(mv)
        && win(b, 263, 265) != seq![48u8, 48u8]
}

/// The decoded name field.
pub open spec fn name_val(b: Seq<u8>) -> Seq<u8> {
    crate::lint::path_field_value(win(b, 0, 100))
}

/// The decoded prefix field.
pub open spec fn prefix_val(b: Seq<u8>) -> Seq<u8> {
    crate::lint::path_field_value(win(b, 345, 500))
}

/// The decoded linkname field.
pub open spec fn linkname_val(b: Seq<u8>) -> Seq<u8> {
    crate::lint::path_field_value(win(b, 157, 257))
}

/// The decoded mode field.
pub open spec fn mode_field(b: Seq<u8>) -> Option<u64> {
    crate::lint::number_field_value(win(b, 100, 108))
}

/// The mode value carried by the header: the decoded field, or zero.
pub open spec fn mode_spec(b: Seq<u8>) -> u64 {
    match mode_field(b) {
        Some(n) => n,
        None => 0,
    }
}

/// The decoded size field.
pub open spec fn size_field(b: Seq<u8>) -> Option<u64> {
    crate::lint::number_field_value(win(b, 124, 136))
}

/// The size value carried by the header: the decoded field, or zero.
pub open spec fn size_spec(b: Seq<u8>) -> u64 {
    match size_field(b) {
        Some(n) => n,
        None => 0,
    }
}

/// The normalized full path of the header.
pub open spec fn path_spec(b: Seq<u8>) -> Seq<u8> {
    to_path_spec(Some(prefix_val(b)), Some(name_val(b)))
}

/// The path contains two consecutive slashes.
pub open spec fn has_doubleslash(p: Seq<u8>) -> bool {
    exists|i: int| 0 <= i && i + 1 < p.len() && #[trigger] p[i] == 47 && p[i + 1] == 47
}

/// The path contains `/./`.
pub open spec fn has_slashdotslash(p: Seq<u8>) -> bool {
    exists|i: int| 0 <= i && i + 2 < p.len() && #[trigger] p[i] == 47 && p[i + 1] == 46 && p[i + 2] == 47
}

/// The path contains `/../`, starts with `../` or ends with `/..`.
pub open spec fn dotdot_pattern(p: Seq<u8>) -> bool {
    (exists|i: int|
        0 <= i && i + 3 < p.len() && #[trigger] p[i] == 47 && p[i + 1] == 46 && p[i + 2] == 46
            && p[i + 3] == 47) || (p.len() >= 3 && p[0] == 46 && p[1] == 46 && p[2] == 47) || (
    p.len() >= 3 && p[p.len() - 3] == 47 && p[p.len() - 2] == 46 && p[p.len() - 1] == 46)
}

/// The path starts with `/`.
pub open spec fn starts_slash(p: Seq<u8>) -> bool {
    p.len() > 0 && p[0] == 47
}

/// The path ends with `/`.
pub open spec fn ends_slash(p: Seq<u8>) -> bool {
    p.len() > 0 && p[p.len() - 1] == 47
}

/// A typeflag that carries no data blocks: hard link, symlink, directory.
pub open spec fn no_data_typeflag(t: u8) -> bool {
    t == 49 || t == 50 || t == 53
}

/// Issues from the mode, uid, gid, size and mtime number fields and the
/// mode and size range rules.
pub open spec fn numbers_issue(b: Seq<u8>, x: Issue) -> bool {
    crate::lint::field_has_issue(crate::lint::number_field_issues(win(b, 100, 108)), x)  // mode
        || (x == Issue::InvalidMode && (mode_field(b) matches Some(n) && n > 0o7777))
        || crate::lint::field_has_issue(crate::lint::number_field_issues(win(b, 108, 116)), x)  // uid
        || crate::lint::field_has_issue(crate::lint::number_field_issues(win(b, 116, 124)), x)  // gid
        || crate::lint::field_has_issue(crate::lint::number_field_issues(win(b, 124, 136)), x)  // size
        || (x == Issue::LargeEntry && (size_field(b) matches Some(n) && n > 0x7FFFFFFF))
        || crate::lint::field_has_issue(crate::lint::number_field_issues(win(b, 136, 148)), x)  // mtime
}

/// Issues from the magic and version classification.
pub open spec fn magic_issue(b: Seq<u8>, x: Issue) -> bool {
    (x == Issue::InvalidMagic && invalid_magic(b)) || (x == Issue::InvalidVersion
        && invalid_version(b))
}

/// Issues from the devmajor and devminor fields, enforced for
/// Ustar-classified headers only.
pub open spec fn dev_issue(b: Seq<u8>, x: Issue) -> bool {
    format_spec(b) == Format::Ustar && (crate::lint::field_has_issue(
        crate::lint::number_field_issues(win(b, 329, 337)),
        x,
    ) || (x == Issue::DevMajorWithoutSpecialFile && (crate::lint::number_field_value(
        win(b, 329, 337),
    ) matches Some(n)
        && n != 0)) || crate::lint::field_has_issue(
        crate::lint::number_field_issues(win(b, 337, 345)),
        x,
    ) || (x == Issue::DevMinorWithoutSpecialFile && (crate::lint::number_field_value(
        win(b, 337, 345),
    ) matches Some(n)
        && n != 0)))
}

/// Issues from the checks on the composed, normalized path.
pub open spec fn path_rules_issue(p: Seq<u8>, tf: u8, x: Issue) -> bool {
    (x == Issue::EmptyPath && p.len() == 0) || (x == Issue::AbsolutePath && starts_slash(p)) || (x
        == Issue::MultiSlashPath && has_doubleslash(p)) || (x == Issue::DotDotPath
        && dotdot_pattern(p) && !has_doubleslash(p)) || (x == Issue::RegularDirectory
        && ends_slash(p) && tf != 53) || (x == Issue::DirectoryWithoutSlash && !ends_slash(p) && tf
        == 53)
}

/// Issues from the checks relating the link target to the path and
/// typeflag.
pub open spec fn link_rules_issue(link: Seq<u8>, p: Seq<u8>, tf: u8, x: Issue) -> bool {
    (x == Issue::LinknameForNonLink && link.len() > 0 && tf != 49 && tf != 50) || (x
        == Issue::LinkToItself && link == p && tf == 49)
}

/// Whether a header whose checksum verified carries issue kind `x`: the
/// union, over every field and rule of the header check, of the issues
/// that field or rule emits.
pub open spec fn header_issue_body(b: Seq<u8>, x: Issue) -> bool {
    crate::lint::field_has_issue(crate::lint::number_field_issues(win(b, 148, 156)), x)  // checksum field
        || crate::lint::field_has_issue(crate::lint::text_field_scan(win(b, 0, 100), 0), x)  // name
        || numbers_issue(b, x)
        || (x == Issue::InvalidTypeFlag && !typeflag_allowed(b[156]))
        || crate::lint::field_has_issue(crate::lint::text_field_scan(win(b, 157, 257), 0), x)  // linkname
        || magic_issue(b, x)
        || crate::lint::field_has_issue(crate::lint::string_field_issues(win(b, 265, 297)), x)  // uname
        || crate::lint::field_has_issue(crate::lint::string_field_issues(win(b, 297, 329)), x)  // gname
        || dev_issue(b, x)
        || crate::lint::field_has_issue(crate::lint::text_field_scan(win(b, 345, 500), 0), x)  // prefix
        || crate::lint::field_has_issue(crate::lint::nul_field_issues(win(b, 500, 512), 0), x)  // padding
        || (x == Issue::EmptyName && name_val(b).len() == 0 && typeflag_spec(b) != 53)
        || path_rules_issue(path_spec(b), typeflag_spec(b), x)
        || link_rules_issue(linkname_val(b), path_spec(b), typeflag_spec(b), x)
        || (x == Issue::NoDataWithSize && no_data_typeflag(typeflag_spec(b)) && size_spec(b) != 0)
}

/// Whether a header block carries issue kind `x`. A failed checksum
/// short-circuits everything after the checksum field's own decode.
pub open spec fn header_issue(b: Seq<u8>, x: Issue) -> bool {
    if !cksum_ok(b) {
        x == Issue::InvalidChecksum || crate::lint::field_has_issue(
            crate::lint::number_field_issues(win(b, 148, 156)),
            x,
        )
    } else {
        header_issue_body(b, x)
    }
}

/// Whether a header block carries hint kind `h`: hints come only from the
/// path and string fields, and only when the checksum verified.
pub open spec fn header_hint(b: Seq<u8>, h: Hint) -> bool {
    cksum_ok(b) && (crate::lint::field_has_hint(crate::lint::path_field_hints(win(b, 0, 100), 0), h)
        || crate::lint::field_has_hint(crate::lint::path_field_hints(win(b, 157, 257), 0), h)
        || crate::lint::field_has_hint(crate::lint::string_field_hints(win(b, 265, 297), 0), h)
        || crate::lint::field_has_hint(crate::lint::string_field_hints(win(b, 297, 329), 0), h)
        || crate::lint::field_has_hint(crate::lint::path_field_hints(win(b, 345, 500), 0), h))
}

/// The header block carries some issue.
pub open spec fn header_has_issue(b: Seq<u8>) -> bool {
    exists|x: Issue| header_issue(b, x)
}

/// The format field of the decoded header: `V7` when the checksum failed
/// (classification never ran), else the classified format.
pub open spec fn header_format(b: Seq<u8>) -> Format {
    if cksum_ok(b) {
        format_spec(b)
    } else {
        Format::V7
    }
}

/// The coerced typeflag of the decoded header, `'0'` when the checksum
/// failed.
pub open spec fn header_typeflag(b: Seq<u8>) -> u8 {
    if cksum_ok(b) {
        typeflag_spec(b)
    } else {
        48
    }
}

/// The size of the decoded header, zero when the checksum failed.
pub open spec fn header_size(b: Seq<u8>) -> u64 {
    if cksum_ok(b) {
        size_spec(b)
    } else {
        0
    }
}

/// The mode of the decoded header, zero when the checksum failed.
pub open spec fn header_mode(b: Seq<u8>) -> u64 {
    if cksum_ok(b) {
        mode_spec(b)
    } else {
        0
    }
}

/// The path of the decoded header, empty when the checksum failed.
pub open spec fn header_path(b: Seq<u8>) -> Seq<u8> {
    if cksum_ok(b) {
        path_spec(b)
    } else {
        Seq::empty()
    }
}

/// The linkname of the decoded header, empty when the checksum failed.
pub open spec fn header_linkname(b: Seq<u8>) -> Seq<u8> {
    if cksum_ok(b) {
        linkname_val(b)
    } else {
        Seq::empty()
    }
}

/// One decoded 512-byte header block: its raw bytes, the parallel mark
/// array, the semantic fields, and the accumulated hints and issues.
pub struct LintHeader {
    pub hints: Vec<Hint>,
    pub issues: Vec<Issue>,
    pub bytes: Vec<u8>,
    pub marks: Vec<u8>,
    pub format: Format,
    pub linkname: Vec<u8>,
    pub mode: u64,
    pub path: Vec<u8>,
    pub size: u64,
    pub typeflag: u8,
}

/// The fields of the two headers agree except for the hint, issue and
/// mark collections.
pub open spec fn same_core(a: LintHeader, c: LintHeader) -> bool {
    a.bytes == c.bytes && a.format == c.format && a.linkname == c.linkname && a.mode == c.mode
        && a.path == c.path && a.size == c.size && a.typeflag == c.typeflag
}

/// As `same_core`, but the typeflag may differ.
pub open spec fn same_core_but_typeflag(a: LintHeader, c: LintHeader) -> bool {
    a.bytes == c.bytes && a.format == c.format && a.linkname == c.linkname && a.mode == c.mode
        && a.path == c.path && a.size == c.size
}

/// As `same_core`, but the format may differ.
pub open spec fn same_core_but_format(a: LintHeader, c: LintHeader) -> bool {
    a.bytes == c.bytes && a.linkname == c.linkname && a.mode == c.mode && a.path == c.path
        && a.size == c.size && a.typeflag == c.typeflag
}

impl LintHeader {
    /// The collections are well-formed: no duplicate findings, and the
    /// byte and mark arrays span a whole block.
    pub open spec fn wf(self) -> bool {
        self.issues@.no_duplicates() && self.hints@.no_duplicates() && self.marks@.len() == 512
            && self.bytes@.len() == 512
    }

    /// The decoded header's contract: every field and collection is the
    /// one `header_*` gives for the raw block.
    pub open spec fn decoded_from(self, b: Seq<u8>) -> bool {
        self.bytes@ == b && self.format == header_format(b) && self.typeflag == header_typeflag(b)
            && self.size == header_size(b) && self.mode == header_mode(b) && self.path@
            == header_path(b) && self.linkname@ == header_linkname(b) && (forall|x: Issue|
            #[trigger] self.issues@.contains(x) <==> header_issue(b, x)) && (forall|h: Hint|
            #[trigger] self.hints@.contains(h) <==> header_hint(b, h))
    }
}

/// A vector of `n` zero bytes.
pub fn zero_vec(n: usize) -> (v: Vec<u8>)
    ensures
        v@.len() == n,
        crate::lint::all_zero(v@),
{
    let mut v: Vec<u8> = Vec::new();
    let mut i: usize = 0;
    while i < n
        invariant
            i <= n,
            v@.len() == i,
            crate::lint::all_zero(v@),
        decreases n - i,
    {
        v.push(0);
        i += 1;
    }
    v
}

/// Two byte vectors hold the same bytes.
pub fn bytes_eq(a: &Vec<u8>, b: &Vec<u8>) -> (r: bool)
    ensures
        r == (a@ == b@),
{
    if a.len() != b.len() {
        return false;
    }
    let mut n: usize = 0;
    while n < a.len()
        invariant
            n <= a.len(),
            a@.len() == b@.len(),
            forall|j: int| 0 <= j < n ==> a@[j] == b@[j],
        decreases a.len() - n,
    {
        if a[n] != b[n] {
            return false;
        }
        n += 1;
    }
    proof {
        assert(a@ =~= b@);
    }
    true
}

pub(crate) fn vec_contains_issue(v: &Vec<Issue>, x: Issue) -> (r: bool)
    ensures
        r == v@.contains(x),
{
    let mut n: usize = 0;
    while n < v.len()
        invariant
            n <= v.len(),
            forall|j: int| 0 <= j < n ==> v@[j] != x,
        decreases v.len() - n,
    {
        if v[n] == x {
            return true;
        }
        n += 1;
    }
    false
}

pub(crate) fn vec_contains_hint(v: &Vec<Hint>, x: Hint) -> (r: bool)
    ensures
        r == v@.contains(x),
{
    let mut n: usize = 0;
    while n < v.len()
        invariant
            n <= v.len(),
            forall|j: int| 0 <= j < n ==> v@[j] != x,
        decreases v.len() - n,
    {
        if v[n] == x {
            return true;
        }
        n += 1;
    }
    false
}

pub(crate) proof fn lemma_push_contains<A>(s: Seq<A>, x: A)
    ensures
        forall|y: A| s.push(x).contains(y) <==> s.contains(y) || y == x,
{
    assert forall|y: A| s.push(x).contains(y) <==> s.contains(y) || y == x by {
        if s.push(x).contains(y) {
            let i = choose|i: int| 0 <= i < s.push(x).len() && s.push(x)[i] == y;
            if i < s.len() {
                assert(s[i] == y);
            }
        }
        if s.contains(y) {
            let i = choose|i: int| 0 <= i < s.len() && s[i] == y;
            assert(s.push(x)[i] == y);
        }
        assert(s.push(x)[s.len() as int] == x);
    }
}

proof fn lemma_field_has_hint_push(s: Seq<(Hint, usize)>, e: (Hint, usize))
    ensures
        forall|h: Hint|
            #[trigger] crate::lint::field_has_hint(s.push(e), h) <==> crate::lint::field_has_hint(
                s,
                h,
            ) || e.0 == h,
{
    assert forall|h: Hint|
        #[trigger] crate::lint::field_has_hint(s.push(e), h) <==> crate::lint::field_has_hint(
            s,
            h,
        ) || e.0 == h by {
        let t = s.push(e);
        if crate::lint::field_has_hint(t, h) {
            let k = choose|k: int| 0 <= k < t.len() && (#[trigger] t[k]).0 == h;
            if k < s.len() {
                assert(s[k].0 == h);
            } else {
                assert(t[k] == e);
            }
        }
        if crate::lint::field_has_hint(s, h) {
            let k = choose|k: int| 0 <= k < s.len() && (#[trigger] s[k]).0 == h;
            assert(t[k].0 == h);
        }
        if e.0 == h {
            assert(t[s.len() as int].0 == h);
        }
    }
}

proof fn lemma_field_has_issue_push(s: Seq<(Issue, usize)>, e: (Issue, usize))
    ensures
        forall|x: Issue|
            #[trigger] crate::lint::field_has_issue(s.push(e), x)
                <==> crate::lint::field_has_issue(s, x) || e.0 == x,
{
    assert forall|x: Issue|
        #[trigger] crate::lint::field_has_issue(s.push(e), x) <==> crate::lint::field_has_issue(
            s,
            x,
        ) || e.0 == x by {
        let t = s.push(e);
        if crate::lint::field_has_issue(t, x) {
            let k = choose|k: int| 0 <= k < t.len() && (#[trigger] t[k]).0 == x;
            if k < s.len() {
                assert(s[k].0 == x);
            } else {
                assert(t[k] == e);
            }
        }
        if crate::lint::field_has_issue(s, x) {
            let k = choose|k: int| 0 <= k < s.len() && (#[trigger] s[k]).0 == x;
            assert(t[k].0 == x);
        }
        if e.0 == x {
            assert(t[s.len() as int].0 == x);
        }
    }
}

pub(crate) proof fn lemma_push_no_dup<A>(s: Seq<A>, x: A)
    requires
        s.no_duplicates(),
        !s.contains(x),
    ensures
        s.push(x).no_duplicates(),
{
    let t = s.push(x);
    assert forall|i: int, j: int|
        0 <= i < t.len() && 0 <= j < t.len() && i != j implies t[i] != t[j] by {
        if i < s.len() && j == s.len() {
            if t[i] == t[j] {
                assert(s[i] == x);
                assert(s.contains(x));
            }
        } else if j < s.len() && i == s.len() {
            if t[i] == t[j] {
                assert(s[j] == x);
                assert(s.contains(x));
            }
        }
    }
}

/// The path contains two consecutive slashes.
pub fn find_doubleslash(p: &Vec<u8>) -> (r: bool)
    ensures
        r == has_doubleslash(p@),
{
    if p.len() < 2 {
        return false;
    }
    let mut n: usize = 0;
    while n < p.len() - 1
        invariant
            n <= p.len() - 1,
            p@.len() >= 2,
            forall|j: int| 0 <= j < n ==> !(#[trigger] p@[j] == 47 && p@[j + 1] == 47),
        decreases p.len() - n,
    {
        if p[n] == 47 && p[n + 1] == 47 {
            assert(0 <= n as int && n as int + 1 < p@.len() && p@[n as int] == 47
                && p@[n as int + 1] == 47);
            return true;
        }
        n += 1;
    }
    false
}

/// The path contains `/../`, starts with `../` or ends with `/..`.
pub fn find_dotdot(p: &Vec<u8>) -> (r: bool)
    ensures
        r == dotdot_pattern(p@),
{
    if p.len() >= 3 && p[0] == 46 && p[1] == 46 && p[2] == 47 {
        return true;
    }
    if p.len() >= 3 && p[p.len() - 3] == 47 && p[p.len() - 2] == 46 && p[p.len() - 1] == 46 {
        return true;
    }
    if p.len() < 4 {
        return false;
    }
    let mut n: usize = 0;
    while n < p.len() - 3
        invariant
            n <= p.len() - 3,
            p@.len() >= 4,
            forall|j: int|
                0 <= j < n ==> !(#[trigger] p@[j] == 47 && p@[j + 1] == 46 && p@[j + 2] == 46
                    && p@[j + 3] == 47),
            !(p@.len() >= 3 && p@[0] == 46 && p@[1] == 46 && p@[2] == 47),
            !(p@.len() >= 3 && p@[p@.len() - 3] == 47 && p@[p@.len() - 2] == 46
                && p@[p@.len() - 1] == 46),
        decreases p.len() - n,
    {
        if p[n] == 47 && p[n + 1] == 46 && p[n + 2] == 46 && p[n + 3] == 47 {
            assert(0 <= n as int && n as int + 3 < p@.len() && p@[n as int] == 47
                && p@[n as int + 1] == 46 && p@[n as int + 2] == 46 && p@[n as int + 3] == 47);
            return true;
        }
        n += 1;
    }
    false
}

impl LintHeader {
    fn add_issue(&mut self, x: Issue)
        requires
            old(self).wf(),
        ensures
            final(self).wf(),
            same_core(*old(self), *final(self)),
            final(self).hints == old(self).hints,
            final(self).marks == old(self).marks,
            forall|y: Issue|
                #[trigger] final(self).issues@.contains(y) <==> old(self).issues@.contains(y) || y
                    == x,
    {
        if !vec_contains_issue(&self.issues, x) {
            proof {
                lemma_push_no_dup(self.issues@, x);
                lemma_push_contains(self.issues@, x);
            }
            self.issues.push(x);
        }
    }

    fn mark(&mut self, start: usize, end: usize, m: u8)
        requires
            old(self).wf(),
            start <= end <= 512,
        ensures
            final(self).wf(),
            same_core(*old(self), *final(self)),
            final(self).hints == old(self).hints,
            final(self).issues == old(self).issues,
    {
        let mut n: usize = start;
        while n < end
            invariant
                start <= n <= end <= 512,
                self.wf(),
                same_core(*old(self), *self),
                self.hints == old(self).hints,
                self.issues == old(self).issues,
            decreases end - n,
        {
            let cur = self.marks[n];
            self.marks[n] = cur | m;
            n += 1;
        }
    }

    fn insert<T>(&mut self, result: LintResult<T>, offset: usize) -> (r: Option<T>)
        requires
            old(self).wf(),
            offset < 512,
            forall|k: int|
                0 <= k < result.issues@.len() ==> offset + (#[trigger] result.issues@[k]).1 < 512,
            forall|k: int|
                0 <= k < result.hints@.len() ==> offset + (#[trigger] result.hints@[k]).1 < 512,
        ensures
            final(self).wf(),
            r == result.value,
            same_core(*old(self), *final(self)),
            forall|x: Issue|
                #[trigger] final(self).issues@.contains(x) <==> old(self).issues@.contains(x)
                    || crate::lint::field_has_issue(result.issues@, x),
            forall|h: Hint|
                #[trigger] final(self).hints@.contains(h) <==> old(self).hints@.contains(h)
                    || crate::lint::field_has_hint(result.hints@, h),
    {
        proof {
            assert(result.hints@.subrange(0, 0) =~= Seq::<(Hint, usize)>::empty());
            assert(result.issues@.subrange(0, 0) =~= Seq::<(Issue, usize)>::empty());
        }
        let mut n: usize = 0;
        while n < result.hints.len()
            invariant
                n <= result.hints@.len(),
                self.wf(),
                same_core(*old(self), *self),
                self.issues == old(self).issues,
                forall|k: int|
                    0 <= k < result.hints@.len() ==> offset + (#[trigger] result.hints@[k]).1
                        < 512,
                forall|h: Hint|
                    #[trigger] self.hints@.contains(h) <==> old(self).hints@.contains(h)
                        || crate::lint::field_has_hint(
                        result.hints@.subrange(0, n as int),
                        h,
                    ),
            decreases result.hints.len() - n,
        {
            let ghost hpre = self.hints@;
            let (h, pos) = result.hints[n];
            let had = vec_contains_hint(&self.hints, h);
            if !had {
                proof {
                    lemma_push_no_dup(self.hints@, h);
                    lemma_push_contains(self.hints@, h);
                }
                self.hints.push(h);
            }
            let cur = self.marks[offset + pos];
            self.marks[offset + pos] = cur | crate::lint::WARNING;
            proof {
                assert(result.hints@.subrange(0, n as int + 1) =~= result.hints@.subrange(
                    0,
                    n as int,
                ).push(result.hints@[n as int]));
                lemma_field_has_hint_push(
                    result.hints@.subrange(0, n as int),
                    result.hints@[n as int],
                );
                assert forall|h2: Hint|
                    #[trigger] self.hints@.contains(h2) <==> old(self).hints@.contains(h2)
                        || crate::lint::field_has_hint(
                        result.hints@.subrange(0, n as int + 1),
                        h2,
                    ) by {
                    assert(hpre.contains(h2) <==> old(self).hints@.contains(h2)
                        || crate::lint::field_has_hint(result.hints@.subrange(0, n as int), h2));
                    assert(crate::lint::field_has_hint(
                        result.hints@.subrange(0, n as int + 1),
                        h2,
                    ) <==> crate::lint::field_has_hint(result.hints@.subrange(0, n as int), h2)
                        || result.hints@[n as int].0 == h2);
                    if !had {
                        assert(self.hints@ == hpre.push(h));
                        assert(self.hints@.contains(h2) <==> hpre.contains(h2) || h2 == h);
                    } else {
                        assert(self.hints@ == hpre);
                        assert(hpre.contains(h));
                    }
                }
            }
            n += 1;
        }
        proof {
            assert(result.hints@.subrange(0, result.hints@.len() as int) =~= result.hints@);
        }
        let mut n2: usize = 0;
        while n2 < result.issues.len()
            invariant
                n2 <= result.issues@.len(),
                self.wf(),
                same_core(*old(self), *self),
                forall|k: int|
                    0 <= k < result.issues@.len() ==> offset + (#[trigger] result.issues@[k]).1
                        < 512,
                forall|h: Hint|
                    #[trigger] self.hints@.contains(h) <==> old(self).hints@.contains(h)
                        || crate::lint::field_has_hint(result.hints@, h),
                forall|x: Issue|
                    #[trigger] self.issues@.contains(x) <==> old(self).issues@.contains(x)
                        || crate::lint::field_has_issue(
                        result.issues@.subrange(0, n2 as int),
                        x,
                    ),
            decreases result.issues.len() - n2,
        {
            let ghost ipre = self.issues@;
            let (x, pos) = result.issues[n2];
            let had = vec_contains_issue(&self.issues, x);
            if !had {
                proof {
                    lemma_push_no_dup(self.issues@, x);
                    lemma_push_contains(self.issues@, x);
                }
                self.issues.push(x);
            }
            let cur = self.marks[offset + pos];
            self.marks[offset + pos] = cur | crate::lint::ERROR;
            proof {
                assert(result.issues@.subrange(0, n2 as int + 1) =~= result.issues@.subrange(
                    0,
                    n2 as int,
                ).push(result.issues@[n2 as int]));
                lemma_field_has_issue_push(
                    result.issues@.subrange(0, n2 as int),
                    result.issues@[n2 as int],
                );
                assert forall|x2: Issue|
                    #[trigger] self.issues@.contains(x2) <==> old(self).issues@.contains(x2)
                        || crate::lint::field_has_issue(
                        result.issues@.subrange(0, n2 as int + 1),
                        x2,
                    ) by {
                    assert(ipre.contains(x2) <==> old(self).issues@.contains(x2)
                        || crate::lint::field_has_issue(result.issues@.subrange(0, n2 as int), x2));
                    assert(crate::lint::field_has_issue(
                        result.issues@.subrange(0, n2 as int + 1),
                        x2,
                    ) <==> crate::lint::field_has_issue(result.issues@.subrange(0, n2 as int), x2)
                        || result.issues@[n2 as int].0 == x2);
                    if !had {
                        assert(self.issues@ == ipre.push(x));
                        assert(self.issues@.contains(x2) <==> ipre.contains(x2) || x2 == x);
                    } else {
                        assert(self.issues@ == ipre);
                        assert(ipre.contains(x));
                    }
                }
            }
            n2 += 1;
        }
        proof {
            assert(result.issues@.subrange(0, result.issues@.len() as int) =~= result.issues@);
        }
        result.value
    }

    fn lint_nul(&mut self, start: usize, end: usize) -> (r: Option<bool>)
        requires
            old(self).wf(),
            start < end <= 512,
        ensures
            final(self).wf(),
            same_core(*old(self), *final(self)),
            r == Some(crate::lint::all_zero(win(old(self).bytes@, start as int, end as int))),
            forall|x: Issue|
                #[trigger] final(self).issues@.contains(x) <==> old(self).issues@.contains(x)
                    || crate::lint::field_has_issue(
                    crate::lint::nul_field_issues(
                        win(old(self).bytes@, start as int, end as int),
                        0,
                    ),
                    x,
                ),
            forall|h: Hint|
                #[trigger] final(self).hints@.contains(h) <==> old(self).hints@.contains(h),
    {
        let s = vstd::slice::slice_subrange(self.bytes.as_slice(), start, end);
        let res = lint_nul_field(s);
        self.insert(res, start)
    }

    fn lint_number(&mut self, start: usize, end: usize) -> (r: Option<u64>)
        requires
            old(self).wf(),
            start < end <= 512,
        ensures
            final(self).wf(),
            same_core(*old(self), *final(self)),
            r == crate::lint::number_field_value(win(old(self).bytes@, start as int, end as int)),
            forall|x: Issue|
                #[trigger] final(self).issues@.contains(x) <==> old(self).issues@.contains(x)
                    || crate::lint::field_has_issue(
                    crate::lint::number_field_issues(
                        win(old(self).bytes@, start as int, end as int),
                    ),
                    x,
                ),
            forall|h: Hint|
                #[trigger] final(self).hints@.contains(h) <==> old(self).hints@.contains(h),
    {
        let s = vstd::slice::slice_subrange(self.bytes.as_slice(), start, end);
        let res = lint_number_field(s);
        self.insert(res, start)
    }

    fn lint_path(&mut self, start: usize, end: usize) -> (r: Option<Vec<u8>>)
        requires
            old(self).wf(),
            start < end <= 512,
        ensures
            final(self).wf(),
            same_core(*old(self), *final(self)),
            r.deep_view() == Some(
                crate::lint::path_field_value(win(old(self).bytes@, start as int, end as int)),
            ),
            forall|x: Issue|
                #[trigger] final(self).issues@.contains(x) <==> old(self).issues@.contains(x)
                    || crate::lint::field_has_issue(
                    crate::lint::text_field_scan(
                        win(old(self).bytes@, start as int, end as int),
                        0,
                    ),
                    x,
                ),
            forall|h: Hint|
                #[trigger] final(self).hints@.contains(h) <==> old(self).hints@.contains(h)
                    || crate::lint::field_has_hint(
                    crate::lint::path_field_hints(
                        win(old(self).bytes@, start as int, end as int),
                        0,
                    ),
                    h,
                ),
    {
        let s = vstd::slice::slice_subrange(self.bytes.as_slice(), start, end);
        let res = lint_path_field(s);
        self.insert(res, start)
    }

    fn lint_string(&mut self, start: usize, end: usize) -> (r: Option<Vec<u8>>)
        requires
            old(self).wf(),
            start < end <= 512,
        ensures
            final(self).wf(),
            same_core(*old(self), *final(self)),
            r.deep_view() == crate::lint::string_field_value(
                win(old(self).bytes@, start as int, end as int),
            ),
            forall|x: Issue|
                #[trigger] final(self).issues@.contains(x) <==> old(self).issues@.contains(x)
                    || crate::lint::field_has_issue(
                    crate::lint::string_field_issues(
                        win(old(self).bytes@, start as int, end as int),
                    ),
                    x,
                ),
            forall|h: Hint|
                #[trigger] final(self).hints@.contains(h) <==> old(self).hints@.contains(h)
                    || crate::lint::field_has_hint(
                    crate::lint::string_field_hints(
                        win(old(self).bytes@, start as int, end as int),
                        0,
                    ),
                    h,
                ),
    {
        let s = vstd::slice::slice_subrange(self.bytes.as_slice(), start, end);
        let res = lint_string_field(s);
        self.insert(res, start)
    }

    fn lint_full_path(&mut self)
        requires
            old(self).wf(),
        ensures
            final(self).wf(),
            same_core(*old(self), *final(self)),
            final(self).hints == old(self).hints,
            forall|x: Issue|
                #[trigger] final(self).issues@.contains(x) <==> old(self).issues@.contains(x)
                    || path_rules_issue(old(self).path@, old(self).typeflag, x),
    {
        let empty = self.path.len() == 0;
        let abs = self.path.len() > 0 && self.path[0] == 47;
        if empty || abs {
            self.mark(NAME_START, NAME_END, crate::lint::ERROR);
            self.mark(PREFIX_START, PREFIX_END, crate::lint::ERROR);
            if abs {
                self.add_issue(Issue::AbsolutePath);
            } else {
                self.add_issue(Issue::EmptyPath);
            }
        }
        let ds = find_doubleslash(&self.path);
        let dd = find_dotdot(&self.path);
        if dd || ds {
            self.mark(NAME_START, NAME_END, crate::lint::ERROR);
            self.mark(PREFIX_START, PREFIX_END, crate::lint::ERROR);
            if ds {
                self.add_issue(Issue::MultiSlashPath);
            } else {
                self.add_issue(Issue::DotDotPath);
            }
        }
        let trailing = self.path.len() > 0 && self.path[self.path.len() - 1] == 47;
        if trailing && self.typeflag != 53 {
            self.mark(NAME_START, NAME_END, crate::lint::ERROR);
            self.mark(PREFIX_START, PREFIX_END, crate::lint::ERROR);
            self.mark(TYPEFLAG_START, TYPEFLAG_START + 1, crate::lint::ERROR);
            self.add_issue(Issue::RegularDirectory);
        }
        if !trailing && self.typeflag == 53 {
            self.mark(NAME_START, NAME_END, crate::lint::ERROR);
            self.mark(PREFIX_START, PREFIX_END, crate::lint::ERROR);
            self.mark(TYPEFLAG_START, TYPEFLAG_START + 1, crate::lint::ERROR);
            self.add_issue(Issue::DirectoryWithoutSlash);
        }
    }

    fn lint_linkname(&mut self)
        requires
            old(self).wf(),
        ensures
            final(self).wf(),
            same_core(*old(self), *final(self)),
            final(self).hints == old(self).hints,
            forall|x: Issue|
                #[trigger] final(self).issues@.contains(x) <==> old(self).issues@.contains(x)
                    || link_rules_issue(old(self).linkname@, old(self).path@, old(self).typeflag, x),
    {
        if self.linkname.len() > 0 && self.typeflag != 49 && self.typeflag != 50 {
            self.mark(LINKNAME_START, LINKNAME_END, crate::lint::ERROR);
            self.mark(TYPEFLAG_START, TYPEFLAG_START + 1, crate::lint::ERROR);
            self.add_issue(Issue::LinknameForNonLink);
        }
        let same = bytes_eq(&self.linkname, &self.path);
        if same && self.typeflag == 49 {
            self.mark(LINKNAME_START, LINKNAME_END, crate::lint::ERROR);
            self.mark(NAME_START, NAME_END, crate::lint::ERROR);
            self.mark(PREFIX_START, PREFIX_END, crate::lint::ERROR);
            self.mark(TYPEFLAG_START, TYPEFLAG_START + 1, crate::lint::ERROR);
            self.add_issue(Issue::LinkToItself);
        }
    }

    fn lint_size(&mut self)
        requires
            old(self).wf(),
        ensures
            final(self).wf(),
            same_core(*old(self), *final(self)),
            final(self).hints == old(self).hints,
            forall|x: Issue|
                #[trigger] final(self).issues@.contains(x) <==> old(self).issues@.contains(x) || (
                x == Issue::NoDataWithSize && no_data_typeflag(old(self).typeflag) && old(
                    self,
                ).size != 0),
    {
        let no_data = self.typeflag == 49 || self.typeflag == 50 || self.typeflag == 53;
        if no_data && self.size != 0 {
            self.mark(SIZE_START, SIZE_END, crate::lint::ERROR);
            self.mark(TYPEFLAG_START, TYPEFLAG_START + 1, crate::lint::ERROR);
            self.add_issue(Issue::NoDataWithSize);
        }
    }

    fn lint_numbers(&mut self)
        requires
            old(self).wf(),
        ensures
            final(self).wf(),
            final(self).bytes == old(self).bytes,
            final(self).format == old(self).format,
            final(self).linkname == old(self).linkname,
            final(self).path == old(self).path,
            final(self).typeflag == old(self).typeflag,
            final(self).mode == mode_spec(old(self).bytes@),
            final(self).size == size_spec(old(self).bytes@),
            forall|h: Hint|
                #[trigger] final(self).hints@.contains(h) <==> old(self).hints@.contains(h),
            forall|x: Issue|
                #[trigger] final(self).issues@.contains(x) <==> old(self).issues@.contains(x)
                    || numbers_issue(old(self).bytes@, x),
    {
        let mode = self.lint_number(MODE_START, MODE_END);
        if let Some(n) = mode {
            if n > 0o7777 {
                self.mark(MODE_START, MODE_END, crate::lint::ERROR);
                self.add_issue(Issue::InvalidMode);
            }
            self.mode = n;
        } else {
            self.mode = 0;
        }
        let _uid = self.lint_number(UID_START, UID_END);
        let _gid = self.lint_number(GID_START, GID_END);
        let size = self.lint_number(SIZE_START, SIZE_END);
        match size {
            Some(n) => {
                if n > 0x7FFFFFFF {
                    self.mark(SIZE_START, SIZE_END, crate::lint::ERROR);
                    self.add_issue(Issue::LargeEntry);
                }
                self.size = n;
            },
            None => {
                self.size = 0;
            },
        }
        let _mtime = self.lint_number(MTIME_START, MTIME_END);
    }

    fn lint_typeflag(&mut self)
        requires
            old(self).wf(),
        ensures
            final(self).wf(),
            same_core_but_typeflag(*old(self), *final(self)),
            final(self).typeflag == typeflag_spec(old(self).bytes@),
            forall|h: Hint|
                #[trigger] final(self).hints@.contains(h) <==> old(self).hints@.contains(h),
            forall|x: Issue|
                #[trigger] final(self).issues@.contains(x) <==> old(self).issues@.contains(x) || (x
                    == Issue::InvalidTypeFlag && !typeflag_allowed(old(self).bytes@[156])),
    {
        let raw_tf = self.bytes[TYPEFLAG_START];
        self.typeflag = raw_tf;
        if (raw_tf < 48 || raw_tf > 55) && raw_tf != 103 && raw_tf != 120 && raw_tf != 0 {
            self.mark(TYPEFLAG_START, TYPEFLAG_START + 1, crate::lint::ERROR);
            self.add_issue(Issue::InvalidTypeFlag);
            self.typeflag = 48;
        }
        if self.typeflag == 0 {
            self.typeflag = 48;
        }
    }

    fn lint_magic(&mut self)
        requires
            old(self).wf(),
            old(self).format == Format::V7,
            old(self).typeflag == typeflag_spec(old(self).bytes@),
        ensures
            final(self).wf(),
            same_core_but_format(*old(self), *final(self)),
            final(self).format == format_spec(old(self).bytes@),
            forall|h: Hint|
                #[trigger] final(self).hints@.contains(h) <==> old(self).hints@.contains(h),
            forall|x: Issue|
                #[trigger] final(self).issues@.contains(x) <==> old(self).issues@.contains(x)
                    || magic_issue(old(self).bytes@, x),
    {
        let ghost b = self.bytes@;
        let mv_ustar = self.bytes[257] == 117 && self.bytes[258] == 115 && self.bytes[259] == 116
            && self.bytes[260] == 97 && self.bytes[261] == 114 && self.bytes[262] == 0
            && self.bytes[263] == 48 && self.bytes[264] == 48;
        let mv_gnu = self.bytes[257] == 117 && self.bytes[258] == 115 && self.bytes[259] == 116
            && self.bytes[260] == 97 && self.bytes[261] == 114 && self.bytes[262] == 32
            && self.bytes[263] == 32 && self.bytes[264] == 0;
        let mv_zero = self.bytes[257] == 0 && self.bytes[258] == 0 && self.bytes[259] == 0
            && self.bytes[260] == 0 && self.bytes[261] == 0 && self.bytes[262] == 0
            && self.bytes[263] == 0 && self.bytes[264] == 0;
        proof {
            assert(mv_ustar <==> win(b, 257, 265) == magicver_ustar()) by {
                if mv_ustar {
                    assert(win(b, 257, 265) =~= magicver_ustar());
                }
                if win(b, 257, 265) == magicver_ustar() {
                    assert forall|k: int| 0 <= k < 8 implies b[257 + k] == magicver_ustar()[k] by {
                        assert(win(b, 257, 265)[k] == b[257 + k]);
                    }
                    assert(b[257int] == magicver_ustar()[0]);
                    assert(b[258int] == magicver_ustar()[1]);
                    assert(b[259int] == magicver_ustar()[2]);
                    assert(b[260int] == magicver_ustar()[3]);
                    assert(b[261int] == magicver_ustar()[4]);
                    assert(b[262int] == magicver_ustar()[5]);
                    assert(b[263int] == magicver_ustar()[6]);
                    assert(b[264int] == magicver_ustar()[7]);
                }
            }
            assert(mv_gnu <==> win(b, 257, 265) == magicver_gnu()) by {
                if mv_gnu {
                    assert(win(b, 257, 265) =~= magicver_gnu());
                }
                if win(b, 257, 265) == magicver_gnu() {
                    assert forall|k: int| 0 <= k < 8 implies b[257 + k] == magicver_gnu()[k] by {
                        assert(win(b, 257, 265)[k] == b[257 + k]);
                    }
                    assert(b[257int] == magicver_gnu()[0]);
                    assert(b[258int] == magicver_gnu()[1]);
                    assert(b[259int] == magicver_gnu()[2]);
                    assert(b[260int] == magicver_gnu()[3]);
                    assert(b[261int] == magicver_gnu()[4]);
                    assert(b[262int] == magicver_gnu()[5]);
                    assert(b[263int] == magicver_gnu()[6]);
                    assert(b[264int] == magicver_gnu()[7]);
                }
            }
            assert(mv_zero <==> crate::lint::all_zero(win(b, 257, 265))) by {
                if mv_zero {
                    assert forall|k: int| 0 <= k < win(b, 257, 265).len() implies win(
                        b,
                        257,
                        265,
                    )[k] == 0 by {
                        assert(win(b, 257, 265)[k] == b[257 + k]);
                    }
                }
                if crate::lint::all_zero(win(b, 257, 265)) {
                    assert(win(b, 257, 265)[0] == b[257]);
                    assert(win(b, 257, 265)[1] == b[258]);
                    assert(win(b, 257, 265)[2] == b[259]);
                    assert(win(b, 257, 265)[3] == b[260]);
                    assert(win(b, 257, 265)[4] == b[261]);
                    assert(win(b, 257, 265)[5] == b[262]);
                    assert(win(b, 257, 265)[6] == b[263]);
                    assert(win(b, 257, 265)[7] == b[264]);
                }
            }
        }
        if mv_ustar {
            if self.typeflag == 103 || self.typeflag == 120 {
                self.format = Format::Pax;
            } else {
                self.format = Format::Ustar;
            }
        } else if mv_gnu {
            self.format = Format::Gnu;
        } else if mv_zero {
            // genuine V7: keep the initial V7 classification
        } else {
            let magic6 = self.bytes[257] == 117 && self.bytes[258] == 115 && self.bytes[259] == 116
                && self.bytes[260] == 97 && self.bytes[261] == 114 && self.bytes[262] == 0;
            let version2 = self.bytes[263] == 48 && self.bytes[264] == 48;
            proof {
                let m6 = seq![117u8, 115u8, 116u8, 97u8, 114u8, 0u8];
                assert(magic6 <==> win(b, 257, 263) == m6) by {
                    if magic6 {
                        assert(win(b, 257, 263) =~= m6);
                    }
                    if win(b, 257, 263) == m6 {
                        assert(win(b, 257, 263)[0] == b[257]);
                        assert(win(b, 257, 263)[1] == b[258]);
                        assert(win(b, 257, 263)[2] == b[259]);
                        assert(win(b, 257, 263)[3] == b[260]);
                        assert(win(b, 257, 263)[4] == b[261]);
                        assert(win(b, 257, 263)[5] == b[262]);
                    }
                }
                assert(version2 <==> win(b, 263, 265) == seq![48u8, 48u8]) by {
                    if version2 {
                        assert(win(b, 263, 265) =~= seq![48u8, 48u8]);
                    }
                    if win(b, 263, 265) == seq![48u8, 48u8] {
                        assert(win(b, 263, 265)[0] == b[263] && win(b, 263, 265)[1] == b[264]);
                    }
                }
            }
            if !magic6 {
                self.mark(MAGIC_START, MAGIC_END, crate::lint::ERROR);
                self.add_issue(Issue::InvalidMagic);
            }
            if !version2 {
                self.mark(VERSION_START, VERSION_END, crate::lint::ERROR);
                self.add_issue(Issue::InvalidVersion);
            }
        }
    }

    fn lint_dev(&mut self)
        requires
            old(self).wf(),
            old(self).format == format_spec(old(self).bytes@),
        ensures
            final(self).wf(),
            same_core(*old(self), *final(self)),
            forall|h: Hint|
                #[trigger] final(self).hints@.contains(h) <==> old(self).hints@.contains(h),
            forall|x: Issue|
                #[trigger] final(self).issues@.contains(x) <==> old(self).issues@.contains(x)
                    || dev_issue(old(self).bytes@, x),
    {
        if self.format == Format::Ustar {
            let devmajor = self.lint_number(DEVMAJOR_START, DEVMAJOR_END);
            if let Some(n) = devmajor {
                if n != 0 {
                    self.mark(DEVMAJOR_START, DEVMAJOR_END, crate::lint::ERROR);
                    self.add_issue(Issue::DevMajorWithoutSpecialFile);
                }
            }
            let devminor = self.lint_number(DEVMINOR_START, DEVMINOR_END);
            if let Some(n) = devminor {
                if n != 0 {
                    self.mark(DEVMINOR_START, DEVMINOR_END, crate::lint::ERROR);
                    self.add_issue(Issue::DevMinorWithoutSpecialFile);
                }
            }
        }
    }

    #[verifier::rlimit(100)]
    fn lint(&mut self)
        requires
            old(self).wf(),
            old(self).issues@ =~= Seq::<Issue>::empty(),
            old(self).hints@ =~= Seq::<Hint>::empty(),
            old(self).format == Format::V7,
            old(self).typeflag == 48,
            old(self).size == 0,
            old(self).mode == 0,
            old(self).path@ =~= Seq::<u8>::empty(),
            old(self).linkname@ =~= Seq::<u8>::empty(),
        ensures
            final(self).wf(),
            final(self).decoded_from(old(self).bytes@),
    {
        let ghost b = self.bytes@;
        let calculated = calculate_checksum(&self.bytes);
        let cksum = self.lint_number(CKSUM_START, CKSUM_END);
        let sum = match cksum {
            Some(n) => n,
            None => calculated + 1,
        };
        proof {
            assert((sum == calculated) <==> cksum_ok(b));
        }
        if sum != calculated {
            self.mark(CKSUM_START, CKSUM_END, crate::lint::ERROR);
            self.add_issue(Issue::InvalidChecksum);
            return;
        }

        let name = self.lint_path(NAME_START, NAME_END);
        self.lint_numbers();
        self.lint_typeflag();
        let linkname = self.lint_path(LINKNAME_START, LINKNAME_END);
        self.lint_magic();
        let _uname = self.lint_string(UNAME_START, UNAME_END);
        let _gname = self.lint_string(GNAME_START, GNAME_END);
        self.lint_dev();
        let prefix = self.lint_path(PREFIX_START, PREFIX_END);
        let _padding = self.lint_nul(USTAR_PADDING_START, BLOCK_SIZE);

        let name_vec: Vec<u8> = match name {
            Some(v) => v,
            None => unreached(),
        };
        if name_vec.len() == 0 && self.typeflag != 53 {
            self.mark(NAME_START, NAME_END, crate::lint::ERROR);
            self.add_issue(Issue::EmptyName);
        }

        let prefix_vec: Vec<u8> = match prefix {
            Some(v) => v,
            None => unreached(),
        };
        let linkname_vec: Vec<u8> = match linkname {
            Some(v) => v,
            None => unreached(),
        };
        self.path = to_path(Some(prefix_vec), Some(name_vec));
        self.linkname = linkname_vec;
        proof {
            assert(self.path@ == path_spec(b));
            assert(self.linkname@ == linkname_val(b));
        }

        self.lint_full_path();
        self.lint_linkname();
        self.lint_size();

        proof {
            assert forall|x: Issue| #[trigger]
                self.issues@.contains(x) <==> header_issue(b, x) by {}
            assert forall|h: Hint| #[trigger] self.hints@.contains(h) <==> header_hint(b, h) by {}
        }
    }
}

/// Decode one 512-byte block into a semantic header and apply every
/// header-level validation rule.
impl LintHeader {
    pub fn new(bytes: Vec<u8>) -> (h: LintHeader)
        requires
            bytes@.len() == 512,
        ensures
            h.wf(),
            h.decoded_from(bytes@),
    {
        let marks = zero_vec(BLOCK_SIZE);
        let mut result = LintHeader {
            hints: Vec::new(),
            issues: Vec::new(),
            bytes,
            format: Format::V7,
            linkname: Vec::new(),
            marks,
            mode: 0,
            path: Vec::new(),
            size: 0,
            typeflag: 48,
        };
        result.lint();
        result
    }

    /// The number of 512-byte data blocks that follow this header: zero
    /// for hard links, symlinks and directories, else the size rounded up
    /// to whole blocks.
    pub fn get_data_block_count(&self) -> (r: u64)
        ensures
            r == spec_data_block_count(self.typeflag, self.size),
    {
        if self.typeflag == 49 || self.typeflag == 50 || self.typeflag == 53 {
            return 0;
        }
        self.size / 512 + (if self.size % 512 == 0 {
            0
        } else {
            1
        })
    }
}

proof fn lemma_collapse_no_ds(s: Seq<u8>, i: int)
    ensures
        !has_doubleslash(collapse_from(s, i)),
        collapse_from(s, i).len() > 0 ==> 0 <= i < s.len(),
        collapse_from(s, i).len() > 0 && collapse_from(s, i)[0] == 47 ==> s[i] == 47,
    decreases s.len() - i,
{
    if i < 0 || i >= s.len() {
    } else {
        lemma_collapse_no_ds(s, i + 1);
        let rest = collapse_from(s, i + 1);
        if !(i + 1 < s.len() && s[i] == 47 && s[i + 1] == 47) {
            let res = seq![s[i]] + rest;
            if has_doubleslash(res) {
                let j = choose|j: int|
                    0 <= j && j + 1 < res.len() && #[trigger] res[j] == 47 && res[j + 1] == 47;
                if j == 0 {
                    assert(rest[0] == 47 && s[i] == 47);
                    assert(s[i + 1] == 47);
                } else {
                    assert(rest[j - 1] == 47 && rest[j] == 47);
                }
            }
        }
    }
}

proof fn lemma_collapse_id(s: Seq<u8>, i: int)
    requires
        0 <= i <= s.len(),
        !has_doubleslash(s),
    ensures
        collapse_from(s, i) =~= s.subrange(i, s.len() as int),
    decreases s.len() - i,
{
    if i < s.len() {
        lemma_collapse_id(s, i + 1);
        assert(!(i + 1 < s.len() && s[i] == 47 && s[i + 1] == 47));
    }
}

proof fn lemma_dotslash_fixpoint(s: Seq<u8>, j: int)
    requires
        0 <= j,
    ensures
        ({
            let r = dotslash_start(s, j);
            !(r + 1 < s.len() && s[r] == 46 && s[r + 1] == 47)
        }),
    decreases s.len() - j,
{
    if j + 1 < s.len() && s[j] == 46 && s[j + 1] == 47 {
        lemma_dotslash_fixpoint(s, j + 2);
    }
}

proof fn lemma_replace_id(s: Seq<u8>, i: int)
    requires
        0 <= i <= s.len(),
        !has_slashdotslash(s),
    ensures
        replace_sds_from(s, i) =~= s.subrange(i, s.len() as int),
    decreases s.len() - i,
{
    if i < s.len() {
        lemma_replace_id(s, i + 1);
        assert(!(i + 2 < s.len() && s[i] == 47 && s[i + 1] == 46 && s[i + 2] == 47));
    }
}

proof fn lemma_replace_props(t: Seq<u8>, i: int)
    requires
        0 <= i,
        !has_doubleslash(t),
    ensures
        !has_doubleslash(replace_sds_from(t, i)),
        replace_sds_from(t, i).len() > 0 ==> i < t.len(),
        replace_sds_from(t, i).len() > 0 && replace_sds_from(t, i)[0] == 47 ==> t[i] == 47,
        replace_sds_from(t, i).len() > 1 && replace_sds_from(t, i)[0] == 46 && replace_sds_from(
            t,
            i,
        )[1] == 47 ==> i + 1 < t.len() && t[i] == 46 && t[i + 1] == 47,
    decreases t.len() - i,
{
    if i < 0 || i >= t.len() {
    } else if i + 2 < t.len() && t[i] == 47 && t[i + 1] == 46 && t[i + 2] == 47 {
        lemma_replace_props(t, i + 3);
        let rest = replace_sds_from(t, i + 3);
        let res = seq![47u8] + rest;
        if has_doubleslash(res) {
            let j = choose|j: int|
                0 <= j && j + 1 < res.len() && #[trigger] res[j] == 47 && res[j + 1] == 47;
            if j == 0 {
                assert(rest[0] == 47);
                assert(t[i + 3] == 47);
                assert(t[i + 2] == 47 && t[i + 3] == 47);
            } else {
                assert(rest[j - 1] == 47 && rest[j] == 47);
            }
        }
    } else {
        lemma_replace_props(t, i + 1);
        let rest = replace_sds_from(t, i + 1);
        let res = seq![t[i]] + rest;
        if has_doubleslash(res) {
            let j = choose|j: int|
                0 <= j && j + 1 < res.len() && #[trigger] res[j] == 47 && res[j + 1] == 47;
            if j == 0 {
                assert(t[i] == 47 && rest[0] == 47);
                assert(t[i + 1] == 47);
            } else {
                assert(rest[j - 1] == 47 && rest[j] == 47);
            }
        }
        if res.len() > 1 && res[0] == 46 && res[1] == 47 {
            assert(rest[0] == 47);
        }
    }
}

proof fn lemma_slash_end_fix(s: Seq<u8>, k: int)
    requires
        0 <= k <= s.len(),
    ensures
        0 <= slash_end(s, k) <= k,
        !(0 < slash_end(s, k) && s[slash_end(s, k) - 1] == 47),
    decreases k,
{
    if 0 < k && s[k - 1] == 47 {
        lemma_slash_end_fix(s, k - 1);
    }
}

proof fn lemma_slashdot_fix(s: Seq<u8>, k: int)
    requires
        0 <= k <= s.len(),
    ensures
        0 <= slashdot_end(s, k) <= k,
        !(2 <= slashdot_end(s, k) && s[slashdot_end(s, k) - 2] == 47 && s[slashdot_end(s, k) - 1]
            == 46),
        slashdot_end(s, k) < k ==> s[slashdot_end(s, k)] == 47 && s[slashdot_end(s, k) + 1] == 46,
    decreases k,
{
    if 2 <= k && s[k - 2] == 47 && s[k - 1] == 46 {
        lemma_slashdot_fix(s, k - 2);
        if slashdot_end(s, k - 2) == k - 2 {
            assert(s[k - 2] == 47 && s[k - 1] == 46);
        }
    }
}

proof fn lemma_no_ds_subrange(s: Seq<u8>, lo: int, hi: int)
    requires
        0 <= lo <= hi <= s.len(),
        !has_doubleslash(s),
    ensures
        !has_doubleslash(s.subrange(lo, hi)),
{
    let sub = s.subrange(lo, hi);
    if has_doubleslash(sub) {
        let j = choose|j: int|
            0 <= j && j + 1 < sub.len() && #[trigger] sub[j] == 47 && sub[j + 1] == 47;
        assert(s[lo + j] == 47 && s[lo + j + 1] == 47);
    }
}

/// Normalization is idempotent on every path whose normalized form is
/// free of `/./`: normalizing a second time changes nothing. (The one
/// exception arises from the single-pass `/./` replacement: a path such
/// as `a/././b` normalizes to `a/./b`, which still holds `/./` and
/// shrinks again under a second pass.)
pub proof fn lemma_normalize_idempotent(p: Seq<u8>)
    requires
        !has_slashdotslash(normalize_spec(p)),
    ensures
        normalize_spec(normalize_spec(p)) == normalize_spec(p),
{
    let c = collapse_from(p, 0);
    let ds = dotslash_start(c, 0);
    let t = c.subrange(ds, c.len() as int);
    let r = replace_sds_from(t, 0);
    let k1 = slash_end(r, r.len() as int);
    let k2 = slashdot_end(r, k1);
    let reduced = r.subrange(0, k2);
    let n = normalize_spec(p);

    lemma_collapse_no_ds(p, 0);
    lemma_dotslash_start_bounds(c, 0);
    lemma_dotslash_fixpoint(c, 0);
    lemma_no_ds_subrange(c, ds, c.len() as int);
    lemma_replace_props(t, 0);
    lemma_slash_end_fix(r, r.len() as int);
    lemma_slashdot_fix(r, k1);
    lemma_no_ds_subrange(r, 0, k2);

    // the reduced form neither ends with `/` nor with `/.`
    assert(reduced.len() > 0 ==> reduced[reduced.len() - 1] != 47) by {
        if reduced.len() > 0 && reduced[reduced.len() - 1] == 47 {
            assert(r[k2 - 1] == 47);
            if k2 == k1 {
                assert(false);
            } else {
                assert(r[k2] == 47 && r[k2 - 1] == 47);
                assert(has_doubleslash(r));
            }
        }
    }
    assert(reduced.len() >= 2 ==> !(reduced[reduced.len() - 2] == 47 && reduced[reduced.len() - 1]
        == 46)) by {
        if reduced.len() >= 2 && reduced[reduced.len() - 2] == 47 && reduced[reduced.len() - 1]
            == 46 {
            assert(r[k2 - 2] == 47 && r[k2 - 1] == 46);
        }
    }
    // the reduced form does not start with `./`
    assert(reduced.len() >= 2 ==> !(reduced[0] == 46 && reduced[1] == 47)) by {
        if reduced.len() >= 2 && reduced[0] == 46 && reduced[1] == 47 {
            assert(r[0] == 46 && r[1] == 47);
            assert(0 + 1 < t.len() && t[0] == 46 && t[1] == 47);
            assert(c[ds] == 46 && c[ds + 1] == 47 && ds + 1 < c.len());
        }
    }

    if n.len() == 0 {
        assert(collapse_from(n, 0) =~= Seq::<u8>::empty());
        assert(normalize_spec(n) == n);
    } else if n.len() == 1 {
        lemma_norm_single(n);
    } else if n =~= seq![46u8, 47u8] {
        lemma_norm_dotslash(n);
    } else if n.len() == 2 && n[1] == 47 {
        assert(n[0] != 47 && n[0] != 46);
        lemma_norm_two_slash(n);
    } else {
        // the general shape: the kept part is the reduced form itself
        assert(n.len() >= 2);
        let pushed = (reduced.len() == 0 || reduced[0] != 47) && p.len() > 0 && p[p.len() - 1]
            == 47;
        assert(reduced.len() > 0) by {
            if reduced.len() == 0 {
                if p.len() == 0 {
                    assert(n.len() == 0);
                } else {
                    assert(n.len() <= 2);
                    assert(n[0] == p[0]);
                    if n.len() == 2 {
                        assert(n == seq![p[0]] + seq![47u8]);
                        assert(n[1] == 47);
                    }
                }
            }
        }
        let base = reduced;
        assert(n == base || n == base + seq![47u8]);
        assert(!has_doubleslash(n)) by {
            if n == base + seq![47u8] {
                if has_doubleslash(n) {
                    let j = choose|j: int|
                        0 <= j && j + 1 < n.len() && #[trigger] n[j] == 47 && n[j + 1] == 47;
                    if j + 1 < base.len() {
                        assert(base[j] == 47 && base[j + 1] == 47);
                    } else {
                        assert(base[base.len() - 1] == 47);
                    }
                }
            }
        }
        // second pass, step by step
        lemma_collapse_id(n, 0);
        assert(collapse_from(n, 0) =~= n);
        assert(!(n[0] == 46 && n[1] == 47)) by {
            if n == base {
                assert(base[0] == n[0] && base[1] == n[1]);
            } else {
                if base.len() == 1 {
                    assert(n.len() == 2 && n[1] == 47);
                } else {
                    assert(base[0] == n[0] && base[1] == n[1]);
                }
            }
        }
        assert(dotslash_start(n, 0) == 0);
        assert(n.subrange(0, n.len() as int) =~= n);
        lemma_replace_id(n, 0);
        assert(replace_sds_from(n, 0) =~= n);
        let bl = base.len() as int;
        assert(slash_end(n, n.len() as int) == bl) by {
            if n == base + seq![47u8] {
                assert(n[n.len() - 1] == 47);
                assert(slash_end(n, n.len() as int) == slash_end(n, n.len() as int - 1));
                assert(n[bl - 1] == base[base.len() - 1]);
                assert(n[bl - 1] != 47);
            } else {
                assert(n[bl - 1] != 47);
            }
        }
        assert(slashdot_end(n, bl) == bl) by {
            if 2 <= bl {
                assert(n[bl - 2] == base[base.len() - 2] && n[bl - 1] == base[base.len() - 1]);
            }
        }
        assert(n.subrange(0, bl) =~= base);
        assert(normalize_spec(n) == n) by {
            if n == base + seq![47u8] {
                assert(n[n.len() - 1] == 47);
                assert(base[0] != 47);
                assert(normalize_spec(n) == base + seq![47u8]);
            } else {
                assert(n[n.len() - 1] != 47);
                assert(normalize_spec(n) == base);
            }
        }
    }
}

proof fn lemma_norm_single(n: Seq<u8>)
    requires
        n.len() == 1,
    ensures
        normalize_spec(n) == n,
{
    assert(collapse_from(n, 1) =~= Seq::<u8>::empty());
    assert(collapse_from(n, 0) =~= n);
    assert(dotslash_start(n, 0) == 0);
    assert(n.subrange(0, 1) =~= n);
    assert(replace_sds_from(n, 1) =~= Seq::<u8>::empty());
    assert(replace_sds_from(n, 0) =~= n);
    if n[0] == 47 {
        assert(slash_end(n, 1) == slash_end(n, 0));
        assert(slash_end(n, 0) == 0);
        assert(slashdot_end(n, 0) == 0);
        assert(n.subrange(0, 0) =~= Seq::<u8>::empty());
        assert(normalize_spec(n) =~= seq![n[0]]);
    } else {
        assert(slash_end(n, 1) == 1);
        assert(slashdot_end(n, 1) == 1);
        assert(normalize_spec(n) == n);
    }
    assert(normalize_spec(n) =~= n);
}

proof fn lemma_norm_dotslash(n: Seq<u8>)
    requires
        n =~= seq![46u8, 47u8],
    ensures
        normalize_spec(n) == n,
{
    assert(n[0] == 46 && n[1] == 47 && n.len() == 2);
    assert(collapse_from(n, 2) =~= Seq::<u8>::empty());
    assert(collapse_from(n, 1) =~= seq![n[1]]);
    assert(collapse_from(n, 0) =~= n);
    assert(dotslash_start(n, 2) == 2);
    assert(dotslash_start(n, 0) == 2);
    assert(n.subrange(2, 2) =~= Seq::<u8>::empty());
    assert(replace_sds_from(n.subrange(2, 2), 0) =~= Seq::<u8>::empty());
    assert(slash_end(Seq::<u8>::empty(), 0) == 0);
    assert(slashdot_end(Seq::<u8>::empty(), 0) == 0);
    assert(normalize_spec(n) =~= seq![n[0]] + seq![47u8]);
    assert(normalize_spec(n) =~= n);
}

proof fn lemma_norm_two_slash(n: Seq<u8>)
    requires
        n.len() == 2,
        n[1] == 47,
        n[0] != 47,
        n[0] != 46,
    ensures
        normalize_spec(n) == n,
{
    assert(collapse_from(n, 2) =~= Seq::<u8>::empty());
    assert(collapse_from(n, 1) =~= seq![n[1]]);
    assert(collapse_from(n, 0) =~= n);
    assert(dotslash_start(n, 0) == 0);
    assert(n.subrange(0, 2) =~= n);
    assert(replace_sds_from(n, 2) =~= Seq::<u8>::empty());
    assert(replace_sds_from(n, 1) =~= seq![n[1]]);
    assert(replace_sds_from(n, 0) =~= n);
    assert(slash_end(n, 2) == slash_end(n, 1));
    assert(slash_end(n, 1) == 1);
    assert(slashdot_end(n, 1) == 1);
    assert(n.subrange(0, 1) =~= seq![n[0]]);
    assert(normalize_spec(n) =~= seq![n[0]] + seq![47u8]);
    assert(normalize_spec(n) =~= n);
}

/// A checksum failure is reported alone: when the checksum field itself
/// decodes without findings (or the checksum verifies), a header that
/// carries `InvalidChecksum` carries no other issue, because the failure
/// short-circuits every later check.
pub proof fn lemma_checksum_failure_isolated(b: Seq<u8>, x: Issue)
    requires
        crate::lint::number_field_issues(win(b, 148, 156)).len() == 0 || cksum_ok(b),
        header_issue(b, Issue::InvalidChecksum),
        header_issue(b, x),
    ensures
        x == Issue::InvalidChecksum,
{
    if cksum_ok(b) {
        crate::lint::lemma_number_field_kinds(win(b, 148, 156));
        crate::lint::lemma_number_field_kinds(win(b, 100, 108));
        crate::lint::lemma_number_field_kinds(win(b, 108, 116));
        crate::lint::lemma_number_field_kinds(win(b, 116, 124));
        crate::lint::lemma_number_field_kinds(win(b, 124, 136));
        crate::lint::lemma_number_field_kinds(win(b, 136, 148));
        crate::lint::lemma_number_field_kinds(win(b, 329, 337));
        crate::lint::lemma_number_field_kinds(win(b, 337, 345));
        crate::lint::lemma_text_scan_kinds(win(b, 0, 100), 0);
        crate::lint::lemma_text_scan_kinds(win(b, 157, 257), 0);
        crate::lint::lemma_text_scan_kinds(win(b, 345, 500), 0);
        crate::lint::lemma_string_field_kinds(win(b, 265, 297));
        crate::lint::lemma_string_field_kinds(win(b, 297, 329));
        crate::lint::lemma_nul_field_kinds(win(b, 500, 512), 0);
        assert(!header_issue_body(b, Issue::InvalidChecksum));
    }
}

/// The data-block count for an entry: zero for typeflags `'1'`, `'2'`,
/// `'5'`, otherwise the size divided by 512, rounded up.
pub open spec fn spec_data_block_count(tf: u8, size: u64) -> u64 {
    if no_data_typeflag(tf) {
        0
    } else {
        ((size / 512) + (if size % 512 == 0 {
            0int
        } else {
            1int
        })) as u64
    }
}

} // verus!
