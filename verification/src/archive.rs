//! The archive orchestrator: drives the sequential block scan, decodes
//! each header, consumes the PAX parser for extended-header entries, and
//! enforces the cross-entry invariants until termination or the first
//! violation.

use vstd::prelude::*;

verus! {

use crate::issues::Hint;
use crate::issues::Issue;
use crate::header::LintHeader;
use crate::header::Format;

/// The 512-byte block at block index `p`.
pub open spec fn blk(input: Seq<u8>, p: int) -> Seq<u8> {
    input.subrange(512 * p, 512 * p + 512)
}

/// An all-zero 512-byte block.
pub open spec fn zero_block() -> Seq<u8> {
    Seq::new(512, |i: int| 0u8)
}

/// The set of issues a header block carries.
pub open spec fn header_issue_set(b: Seq<u8>) -> Set<Issue> {
    Set::new(|x: Issue| crate::header::header_issue(b, x))
}

/// The set of hints a header block carries.
pub open spec fn header_hint_set(b: Seq<u8>) -> Set<Hint> {
    Set::new(|h: Hint| crate::header::header_hint(b, h))
}

/// The path with one trailing slash removed.
pub open spec fn strip_slash(p: Seq<u8>) -> Seq<u8> {
    if p.len() > 0 && p[p.len() - 1] == 47 {
        p.subrange(0, p.len() - 1)
    } else {
        p
    }
}

/// Some recorded parent path is a prefix of `p`.
pub open spec fn nested_under(parents: Seq<Seq<u8>>, p: Seq<u8>) -> bool {
    exists|k: int| 0 <= k < parents.len() && (#[trigger] parents[k]).is_prefix_of(p)
}

/// The archive format accepts the next header's format: a Pax or Ustar
/// archive accepts Pax and Ustar headers, a Gnu or V7 archive only its
/// own format.
pub open spec fn fmt_ok(af: Option<Format>, hf: Format) -> bool {
    match af {
        None => true,
        Some(a) => if a == Format::Pax || a == Format::Ustar {
            hf == Format::Pax || hf == Format::Ustar
        } else {
            hf == a
        },
    }
}

/// The archive format after accepting a header: Pax stays Pax, otherwise
/// the header's own format.
pub open spec fn fmt_next(af: Option<Format>, hf: Format) -> Option<Format> {
    match af {
        None => Some(hf),
        Some(a) => if a == Format::Pax {
            Some(Format::Pax)
        } else {
            Some(hf)
        },
    }
}

/// The cross-entry state of the scan: the archive format seeded so far,
/// every normalized path seen, and the recorded read-only-directory and
/// link parents.
pub struct ScanState {
    pub format: Option<Format>,
    pub paths: Seq<Seq<u8>>,
    pub ro_dirs: Seq<Seq<u8>>,
    pub links: Seq<Seq<u8>>,
}

/// The state the scan starts in.
pub open spec fn init_state() -> ScanState {
    ScanState { format: None, paths: Seq::empty(), ro_dirs: Seq::empty(), links: Seq::empty() }
}

/// The block held as the diagnostic dump, and its block offset.
pub struct DumpModel {
    pub bytes: Seq<u8>,
    pub offset: int,
}

/// The abstract result of a completed scan.
pub struct ScanModel {
    pub dump: Option<DumpModel>,
    pub dups: Seq<Seq<u8>>,
    pub format: Option<Format>,
    pub issues: Set<Issue>,
    pub hints: Set<Hint>,
}

/// A scan either fails on a short read or finishes with a result.
pub enum ScanResult {
    Truncated,
    Finished(ScanModel),
}

/// The archive scan from block `p` in state `st`: two consecutive zero
/// blocks end the archive (any trailing non-zero byte is an issue); a
/// lone zero block followed by data is an anomaly dumped as the zero
/// block; otherwise one entry is decoded, checked for format drift,
/// header issues, PAX record issues, data padding, and the cross-entry
/// path rules, and the scan continues behind its data blocks.
pub open spec fn scan_from(input: Seq<u8>, p: int, st: ScanState) -> ScanResult
    decreases input.len() - 512 * p,
{
    if p < 0 || 512 * p + 512 > input.len() {
        ScanResult::Truncated
    } else {
        let b = blk(input, p);
        if crate::lint::all_zero(b) {
            if 512 * p + 1024 > input.len() {
                ScanResult::Truncated
            } else if crate::lint::all_zero(blk(input, p + 1)) {
                let rest = input.subrange(512 * p + 1024, input.len() as int);
                ScanResult::Finished(
                    ScanModel {
                        dump: None,
                        dups: Seq::empty(),
                        format: st.format,
                        issues: if crate::lint::all_zero(rest) {
                            Set::empty()
                        } else {
                            Set::empty().insert(Issue::TrailingByteNotNul)
                        },
                        hints: Set::empty(),
                    },
                )
            } else {
                ScanResult::Finished(
                    ScanModel {
                        dump: Some(DumpModel { bytes: zero_block(), offset: p }),
                        dups: Seq::empty(),
                        format: st.format,
                        issues: header_issue_set(zero_block()),
                        hints: header_hint_set(zero_block()),
                    },
                )
            }
        } else {
            let hf = crate::header::header_format(b);
            if !fmt_ok(st.format, hf) {
                ScanResult::Finished(
                    ScanModel {
                        dump: Some(DumpModel { bytes: b, offset: p }),
                        dups: Seq::empty(),
                        format: st.format,
                        issues: header_issue_set(b).insert(Issue::FormatChanged),
                        hints: header_hint_set(b),
                    },
                )
            } else {
                let nf = fmt_next(st.format, hf);
                if crate::header::header_has_issue(b) {
                    ScanResult::Finished(
                        ScanModel {
                            dump: Some(DumpModel { bytes: b, offset: p }),
                            dups: Seq::empty(),
                            format: nf,
                            issues: header_issue_set(b),
                            hints: header_hint_set(b),
                        },
                    )
                } else {
                    let size = crate::header::header_size(b) as int;
                    let tf = crate::header::header_typeflag(b);
                    let count = crate::header::spec_data_block_count(
                        tf,
                        crate::header::header_size(b),
                    ) as int;
                    if 512 * (p + 1 + count) > input.len() {
                        ScanResult::Truncated
                    } else {
                        let pax_halt: Option<Issue> = if (tf == 120 || tf == 103) && count > 0 {
                            crate::pax::pax_result(
                                input.subrange(512 * (p + 1), 512 * (p + 1) + size),
                            ).issue
                        } else {
                            None
                        };
                        if pax_halt is Some {
                            ScanResult::Finished(
                                ScanModel {
                                    dump: Some(DumpModel { bytes: b, offset: p }),
                                    dups: Seq::empty(),
                                    format: nf,
                                    issues: Set::empty().insert(pax_halt->0),
                                    hints: header_hint_set(b),
                                },
                            )
                        } else {
                            let off = size % 512;
                            let lastblk = blk(input, p + count);
                            if count > 0 && off != 0 && !crate::lint::all_zero(
                                lastblk.subrange(off, 512),
                            ) {
                                ScanResult::Finished(
                                    ScanModel {
                                        dump: Some(DumpModel { bytes: lastblk, offset: p + count }),
                                        dups: Seq::empty(),
                                        format: nf,
                                        issues: Set::empty().insert(Issue::DataPaddingNotNul),
                                        hints: Set::empty(),
                                    },
                                )
                            } else {
                                let path = strip_slash(crate::header::header_path(b));
                                if nested_under(st.ro_dirs, path) {
                                    ScanResult::Finished(
                                        ScanModel {
                                            dump: Some(
                                                DumpModel { bytes: b, offset: p + count },
                                            ),
                                            dups: Seq::empty(),
                                            format: nf,
                                            issues: Set::empty().insert(
                                                Issue::ReadOnlyDirectoryWithEntries,
                                            ),
                                            hints: header_hint_set(b),
                                        },
                                    )
                                } else if nested_under(st.links, path) {
                                    ScanResult::Finished(
                                        ScanModel {
                                            dump: Some(
                                                DumpModel { bytes: b, offset: p + count },
                                            ),
                                            dups: Seq::empty(),
                                            format: nf,
                                            issues: Set::empty().insert(Issue::LinkIsParent),
                                            hints: header_hint_set(b),
                                        },
                                    )
                                } else if st.paths.contains(path) {
                                    ScanResult::Finished(
                                        ScanModel {
                                            dump: Some(
                                                DumpModel { bytes: b, offset: p + count },
                                            ),
                                            dups: seq![path],
                                            format: nf,
                                            issues: Set::empty(),
                                            hints: header_hint_set(b),
                                        },
                                    )
                                } else {
                                    let st2 = ScanState {
                                        format: nf,
                                        paths: st.paths.push(path),
                                        ro_dirs: if tf == 53 && crate::header::header_mode(b)
                                            & 0o200 == 0 {
                                            st.ro_dirs.push(path + seq![47u8])
                                        } else {
                                            st.ro_dirs
                                        },
                                        links: if tf == 49 || tf == 50 {
                                            st.links.push(path + seq![47u8])
                                        } else {
                                            st.links
                                        },
                                    };
                                    scan_from(input, p + 1 + count, st2)
                                }
                            }
                        }
                    }
                }
            }
        }
    }
}

/// Block `p` holds an issue-free header whose format fits the archive,
/// whose data blocks all lie within the input, whose PAX records (for an
/// extended-header entry) raise no issue, and whose data padding is
/// clean: the scan reaches the cross-entry path checks for this entry.
pub open spec fn entry_reaches_path_checks(input: Seq<u8>, p: int, st: ScanState) -> bool {
    let b = blk(input, p);
    let tf = crate::header::header_typeflag(b);
    let size = crate::header::header_size(b) as int;
    let count = crate::header::spec_data_block_count(tf, crate::header::header_size(b)) as int;
    &&& 0 <= p
    &&& 512 * p + 512 <= input.len()
    &&& !crate::lint::all_zero(b)
    &&& fmt_ok(st.format, crate::header::header_format(b))
    &&& !crate::header::header_has_issue(b)
    &&& 512 * (p + 1 + count) <= input.len()
    &&& ((tf == 120 || tf == 103) && count > 0 ==> crate::pax::pax_result(
        input.subrange(512 * (p + 1), 512 * (p + 1) + size),
    ).issue is None)
    &&& (count > 0 && size % 512 != 0 ==> crate::lint::all_zero(
        blk(input, p + count).subrange(size % 512, 512),
    ))
}

/// An archive of exactly two all-zero blocks and nothing else is
/// portable, with the detected format left unset: no header was ever
/// decoded.
pub proof fn lemma_empty_archive_portable(input: Seq<u8>)
    requires
        input.len() == 1024,
        crate::lint::all_zero(input),
    ensures
        scan_from(input, 0, init_state()) matches ScanResult::Finished(m) && m.issues
            =~= Set::<Issue>::empty() && m.dups =~= Seq::<Seq<u8>>::empty() && m.dump is None
            && m.format is None,
{
    assert forall|j: int| 0 <= j < blk(input, 0).len() implies blk(input, 0)[j] == 0 by {
        assert(blk(input, 0)[j] == input[j]);
    }
    assert forall|j: int| 0 <= j < blk(input, 1).len() implies blk(input, 1)[j] == 0 by {
        assert(blk(input, 1)[j] == input[512 + j]);
    }
    assert(crate::lint::all_zero(input.subrange(1024, 1024)));
}

/// Two entries with the same normalized path (a trailing slash ignored)
/// halt the scan at the second occurrence: the path is reported in the
/// duplicated set, the second entry's header becomes the dump, and no
/// block after that entry is processed.
pub proof fn lemma_duplicate_path_halts(input: Seq<u8>, p: int, st: ScanState)
    requires
        entry_reaches_path_checks(input, p, st),
        !nested_under(st.ro_dirs, strip_slash(crate::header::header_path(blk(input, p)))),
        !nested_under(st.links, strip_slash(crate::header::header_path(blk(input, p)))),
        st.paths.contains(strip_slash(crate::header::header_path(blk(input, p)))),
    ensures
        scan_from(input, p, st) matches ScanResult::Finished(m) && m.dups == seq![
            strip_slash(crate::header::header_path(blk(input, p))),
        ] && (m.dump matches Some(d) && d.bytes == blk(input, p)),
{
}

/// A directory entry (typeflag `'5'`) whose mode lacks the owner-write
/// bit is recorded: the scan continues with the directory's path, with a
/// trailing slash, added to the read-only-directory set.
pub proof fn lemma_read_only_dir_recorded(input: Seq<u8>, p: int, st: ScanState)
    requires
        entry_reaches_path_checks(input, p, st),
        !nested_under(st.ro_dirs, strip_slash(crate::header::header_path(blk(input, p)))),
        !nested_under(st.links, strip_slash(crate::header::header_path(blk(input, p)))),
        !st.paths.contains(strip_slash(crate::header::header_path(blk(input, p)))),
        crate::header::header_typeflag(blk(input, p)) == 53,
        crate::header::header_mode(blk(input, p)) & 0o200 == 0,
    ensures
        ({
            let b = blk(input, p);
            let path = strip_slash(crate::header::header_path(b));
            let count = crate::header::spec_data_block_count(
                crate::header::header_typeflag(b),
                crate::header::header_size(b),
            ) as int;
            scan_from(input, p, st) == scan_from(
                input,
                p + 1 + count,
                ScanState {
                    format: fmt_next(st.format, crate::header::header_format(b)),
                    paths: st.paths.push(path),
                    ro_dirs: st.ro_dirs.push(path + seq![47u8]),
                    links: st.links,
                },
            )
        }),
{
}

/// An entry whose path lies beneath a recorded read-only directory halts
/// the scan with `ReadOnlyDirectoryWithEntries` as its only issue.
pub proof fn lemma_nested_under_read_only_halts(input: Seq<u8>, p: int, st: ScanState)
    requires
        entry_reaches_path_checks(input, p, st),
        nested_under(st.ro_dirs, strip_slash(crate::header::header_path(blk(input, p)))),
    ensures
        scan_from(input, p, st) matches ScanResult::Finished(m) && m.issues == Set::empty().insert(
            Issue::ReadOnlyDirectoryWithEntries,
        ) && m.dump is Some && m.dups == Seq::<Seq<u8>>::empty(),
{
}

/// The single block held for diagnosis: its raw bytes, the parallel mark
/// array, and its block offset in the archive.
pub struct Dump {
    pub bytes: Vec<u8>,
    pub marks: Vec<u8>,
    pub offset: usize,
}

/// The aggregated result of one archive scan.
pub struct ArchiveLintResult {
    pub dump: Option<Dump>,
    pub duplicated_paths: Vec<Vec<u8>>,
    pub format: Option<Format>,
    pub hints: Vec<Hint>,
    pub issues: Vec<Issue>,
}

/// The concrete result carries exactly the abstract scan model: same
/// dump block and offset, same duplicated paths, format, issues and
/// hints.
pub open spec fn matches_model(res: ArchiveLintResult, m: ScanModel) -> bool {
    (match (res.dump, m.dump) {
        (Option::None, Option::None) => true,
        (Option::Some(d), Option::Some(dm)) => d.bytes@ == dm.bytes && d.offset == dm.offset
            && d.marks@.len() == 512,
        _ => false,
    }) && res.duplicated_paths.deep_view() == m.dups && res.format == m.format
        && res.issues@.no_duplicates() && (forall|x: Issue|
        #[trigger] res.issues@.contains(x) <==> m.issues.contains(x)) && res.hints@.no_duplicates()
        && (forall|h: Hint| #[trigger] res.hints@.contains(h) <==> m.hints.contains(h))
}

impl ArchiveLintResult {
    /// The archive is portable: no issue, no duplicated path, no
    /// diagnostic dump.
    pub fn is_portable(&self) -> (r: bool)
        ensures
            r == (self.issues@.len() == 0 && self.duplicated_paths@.len() == 0
                && self.dump is None),
    {
        self.issues.len() == 0 && self.duplicated_paths.len() == 0 && self.dump.is_none()
    }

    fn insert(&mut self, header: LintHeader, offset: usize)
        requires
            old(self).issues@.no_duplicates(),
            old(self).hints@.no_duplicates(),
            header.wf(),
        ensures
            final(self).issues@.no_duplicates(),
            final(self).hints@.no_duplicates(),
            final(self).dump matches Some(d) && d.bytes@ == header.bytes@ && d.offset == offset
                && d.marks@.len() == 512,
            final(self).duplicated_paths == old(self).duplicated_paths,
            final(self).format == old(self).format,
            forall|x: Issue|
                #[trigger] final(self).issues@.contains(x) <==> old(self).issues@.contains(x)
                    || header.issues@.contains(x),
            forall|h: Hint|
                #[trigger] final(self).hints@.contains(h) <==> old(self).hints@.contains(h)
                    || header.hints@.contains(h),
    {
        proof {
            assert(header.hints@.subrange(0, 0) =~= Seq::<Hint>::empty());
            assert(header.issues@.subrange(0, 0) =~= Seq::<Issue>::empty());
        }
        let mut n: usize = 0;
        while n < header.hints.len()
            invariant
                n <= header.hints@.len(),
                self.issues == old(self).issues,
                self.dump == old(self).dump,
                self.duplicated_paths == old(self).duplicated_paths,
                self.format == old(self).format,
                self.issues@.no_duplicates(),
                self.hints@.no_duplicates(),
                forall|h: Hint|
                    #[trigger] self.hints@.contains(h) <==> old(self).hints@.contains(h)
                        || header.hints@.subrange(0, n as int).contains(h),
            decreases header.hints@.len() - n,
        {
            let ghost hpre = self.hints@;
            let h = header.hints[n];
            let had = crate::header::vec_contains_hint(&self.hints, h);
            if !had {
                proof {
                    crate::header::lemma_push_no_dup(self.hints@, h);
                    crate::header::lemma_push_contains(self.hints@, h);
                }
                self.hints.push(h);
            }
            proof {
                assert(header.hints@.subrange(0, n as int + 1) =~= header.hints@.subrange(
                    0,
                    n as int,
                ).push(header.hints@[n as int]));
                crate::header::lemma_push_contains(
                    header.hints@.subrange(0, n as int),
                    header.hints@[n as int],
                );
                assert forall|h2: Hint|
                    #[trigger] self.hints@.contains(h2) <==> old(self).hints@.contains(h2)
                        || header.hints@.subrange(0, n as int + 1).contains(h2) by {
                    assert(hpre.contains(h2) <==> old(self).hints@.contains(h2)
                        || header.hints@.subrange(0, n as int).contains(h2));
                    if !had {
                        assert(self.hints@ == hpre.push(h));
                    } else {
                        assert(self.hints@ == hpre);
                        assert(hpre.contains(h));
                    }
                }
            }
            n += 1;
        }
        proof {
            assert(header.hints@.subrange(0, header.hints@.len() as int) =~= header.hints@);
        }
        let mut n2: usize = 0;
        while n2 < header.issues.len()
            invariant
                n2 <= header.issues@.len(),
                self.dump == old(self).dump,
                self.duplicated_paths == old(self).duplicated_paths,
                self.format == old(self).format,
                self.issues@.no_duplicates(),
                self.hints@.no_duplicates(),
                forall|h: Hint|
                    #[trigger] self.hints@.contains(h) <==> old(self).hints@.contains(h)
                        || header.hints@.contains(h),
                forall|x: Issue|
                    #[trigger] self.issues@.contains(x) <==> old(self).issues@.contains(x)
                        || header.issues@.subrange(0, n2 as int).contains(x),
            decreases header.issues@.len() - n2,
        {
            let ghost ipre = self.issues@;
            let x = header.issues[n2];
            let had = crate::header::vec_contains_issue(&self.issues, x);
            if !had {
                proof {
                    crate::header::lemma_push_no_dup(self.issues@, x);
                    crate::header::lemma_push_contains(self.issues@, x);
                }
                self.issues.push(x);
            }
            proof {
                assert(header.issues@.subrange(0, n2 as int + 1) =~= header.issues@.subrange(
                    0,
                    n2 as int,
                ).push(header.issues@[n2 as int]));
                crate::header::lemma_push_contains(
                    header.issues@.subrange(0, n2 as int),
                    header.issues@[n2 as int],
                );
                assert forall|x2: Issue|
                    #[trigger] self.issues@.contains(x2) <==> old(self).issues@.contains(x2)
                        || header.issues@.subrange(0, n2 as int + 1).contains(x2) by {
                    assert(ipre.contains(x2) <==> old(self).issues@.contains(x2)
                        || header.issues@.subrange(0, n2 as int).contains(x2));
                    if !had {
                        assert(self.issues@ == ipre.push(x));
                    } else {
                        assert(self.issues@ == ipre);
                        assert(ipre.contains(x));
                    }
                }
            }
            n2 += 1;
        }
        proof {
            assert(header.issues@.subrange(0, header.issues@.len() as int) =~= header.issues@);
        }
        self.dump = Some(
            Dump { bytes: header.bytes, marks: header.marks, offset },
        );
    }
}

/// The scan failed on a short read: the stream ended inside a block.
#[derive(Copy, Clone, Debug, PartialEq, Eq, Structural)]
pub struct TruncatedArchive;

fn push_issue(v: &mut Vec<Issue>, x: Issue)
    requires
        old(v)@.no_duplicates(),
    ensures
        final(v)@.no_duplicates(),
        forall|y: Issue|
            #[trigger] final(v)@.contains(y) <==> old(v)@.contains(y) || y == x,
{
    if !crate::header::vec_contains_issue(v, x) {
        proof {
            crate::header::lemma_push_no_dup(v@, x);
            crate::header::lemma_push_contains(v@, x);
        }
        v.push(x);
    }
}

/// The byte sequences held by a sequence of byte vectors.
pub open spec fn deep_of(s: Seq<Vec<u8>>) -> Seq<Seq<u8>> {
    Seq::new(s.len(), |i: int| s[i]@)
}

proof fn lemma_deep_of_push(s: Seq<Vec<u8>>, x: Vec<u8>)
    ensures
        deep_of(s.push(x)) =~= deep_of(s).push(x@),
{
}

proof fn lemma_deep_view_eq(v: &Vec<Vec<u8>>)
    ensures
        v.deep_view() =~= deep_of(v@),
{
    assert forall|i: int| 0 <= i < v@.len() implies v.deep_view()[i] == deep_of(v@)[i] by {
        assert(v.deep_view()[i] == v@[i].deep_view());
        assert(deep_of(v@)[i] == v@[i]@);
    }
}

fn is_prefix(pre: &Vec<u8>, p: &Vec<u8>) -> (r: bool)
    ensures
        r == pre@.is_prefix_of(p@),
{
    if pre.len() > p.len() {
        return false;
    }
    let mut n: usize = 0;
    while n < pre.len()
        invariant
            n <= pre.len(),
            pre@.len() <= p@.len(),
            forall|j: int| 0 <= j < n ==> pre@[j] == p@[j],
        decreases pre.len() - n,
    {
        if pre[n] != p[n] {
            proof {
                assert(p@.subrange(0, pre@.len() as int)[n as int] == p@[n as int]);
            }
            return false;
        }
        n += 1;
    }
    proof {
        assert(pre@ =~= p@.subrange(0, pre@.len() as int));
    }
    true
}

fn any_prefix_of(parents: &Vec<Vec<u8>>, p: &Vec<u8>) -> (r: bool)
    ensures
        r == nested_under(deep_of(parents@), p@),
{
    let mut n: usize = 0;
    while n < parents.len()
        invariant
            n <= parents.len(),
            forall|j: int| 0 <= j < n ==> !(#[trigger] parents@[j]@).is_prefix_of(p@),
        decreases parents.len() - n,
    {
        if is_prefix(&parents[n], p) {
            proof {
                assert(deep_of(parents@)[n as int] == parents@[n as int]@);
            }
            return true;
        }
        n += 1;
    }
    proof {
        if nested_under(deep_of(parents@), p@) {
            let k = choose|k: int|
                0 <= k < deep_of(parents@).len()
                    && (#[trigger] deep_of(parents@)[k]).is_prefix_of(p@);
            assert(deep_of(parents@)[k] == parents@[k]@);
        }
    }
    false
}

fn paths_contain(v: &Vec<Vec<u8>>, x: &Vec<u8>) -> (r: bool)
    ensures
        r == deep_of(v@).contains(x@),
{
    let mut n: usize = 0;
    while n < v.len()
        invariant
            n <= v.len(),
            forall|j: int| 0 <= j < n ==> v@[j]@ != x@,
        decreases v.len() - n,
    {
        if crate::header::bytes_eq(&v[n], x) {
            proof {
                assert(deep_of(v@)[n as int] == v@[n as int]@);
            }
            return true;
        }
        n += 1;
    }
    proof {
        if deep_of(v@).contains(x@) {
            let j = choose|j: int| 0 <= j < deep_of(v@).len() && deep_of(v@)[j] == x@;
            assert(deep_of(v@)[j] == v@[j]@);
        }
    }
    false
}

/// One archive to lint, held as its full byte stream.
pub struct Archive {
    input: Vec<u8>,
}

impl View for Archive {
    type V = Seq<u8>;

    closed spec fn view(&self) -> Seq<u8> {
        self.input@
    }
}

/// The cross-entry state assembled from the scan's working collections.
pub open spec fn st_of(
    format: Option<Format>,
    paths: Seq<Seq<u8>>,
    ro_dirs: Seq<Seq<u8>>,
    links: Seq<Seq<u8>>,
) -> ScanState {
    ScanState { format, paths, ro_dirs, links }
}

impl Archive {
    /// Wrap a byte stream for linting.
    pub fn new(input: Vec<u8>) -> (r: Archive)
        ensures
            r@ == input@,
    {
        Archive { input }
    }

    #[verifier::loop_isolation(false)]
    fn read_block(&self, pos: usize) -> (r: Vec<u8>)
        requires
            pos + 512 <= self@.len(),
        ensures
            r@ == self@.subrange(pos as int, pos as int + 512),
            r@.len() == 512,
    {
        let n = self.input.len();
        let mut v: Vec<u8> = Vec::new();
        let mut j: usize = 0;
        while j < 512
            invariant
                j <= 512,
                v@ =~= self.input@.subrange(pos as int, pos as int + j as int),
            decreases 512 - j,
        {
            v.push(self.input[pos + j]);
            j += 1;
        }
        proof {
            assert(v@ =~= self@.subrange(pos as int, pos as int + 512));
        }
        v
    }

}

/// What one entry's processing did: fail on a short read, halt the scan
/// with the result filled in, or continue at the given byte position.
pub enum EntryStep {
    Truncated,
    Halt,
    Continue(usize),
}

impl Archive {
    /// Process one entry whose header block starts at block `cur`:
    /// format drift, header issues, data blocks, PAX records, padding
    /// and the cross-entry path rules.
    #[verifier::rlimit(100)]
    #[verifier::loop_isolation(false)]
    fn lint_entry(
        &self,
        cur: usize,
        block: Vec<u8>,
        result: &mut ArchiveLintResult,
        paths: &mut Vec<Vec<u8>>,
        read_only_directories: &mut Vec<Vec<u8>>,
        links: &mut Vec<Vec<u8>>,
    ) -> (r: EntryStep)
        requires
            512 * cur + 512 <= self@.len(),
            block@ == blk(self@, cur as int),
            !crate::lint::all_zero(block@),
            old(result).dump is None,
            old(result).issues@.len() == 0,
            old(result).hints@.len() == 0,
            old(result).duplicated_paths@.len() == 0,
            old(result).issues@.no_duplicates(),
            old(result).hints@.no_duplicates(),
        ensures
            ({
                let st = st_of(
                    old(result).format,
                    deep_of(old(paths)@),
                    deep_of(old(read_only_directories)@),
                    deep_of(old(links)@),
                );
                match r {
                    EntryStep::Truncated => scan_from(self@, cur as int, st) is Truncated,
                    EntryStep::Halt => (scan_from(self@, cur as int, st) matches
                        ScanResult::Finished(m) && matches_model(*final(result), m)),
                    EntryStep::Continue(np) => {
                        &&& scan_from(self@, cur as int, st) == scan_from(
                            self@,
                            np as int / 512,
                            st_of(
                                final(result).format,
                                deep_of(final(paths)@),
                                deep_of(final(read_only_directories)@),
                                deep_of(final(links)@),
                            ),
                        )
                        &&& np % 512 == 0
                        &&& np <= self@.len()
                        &&& np >= 512 * cur + 512
                        &&& final(result).dump is None
                        &&& final(result).issues@.len() == 0
                        &&& final(result).hints@.len() == 0
                        &&& final(result).duplicated_paths@.len() == 0
                        &&& final(result).issues@.no_duplicates()
                        &&& final(result).hints@.no_duplicates()
                    },
                }
            }),
    {
        let ghost input = self@;
        let ghost st = st_of(
            result.format,
            deep_of(paths@),
            deep_of(read_only_directories@),
            deep_of(links@),
        );
        let header = LintHeader::new(block);
        let ghost b = blk(input, cur as int);
        let ghost hf = crate::header::header_format(b);
        let ghost nf = fmt_next(st.format, hf);
        let mut halt_format = false;
        match result.format {
            None => {
                result.format = Some(header.format);
            },
            Some(af) => {
                if af == Format::Pax {
                    if header.format != Format::Pax && header.format != Format::Ustar {
                        halt_format = true;
                    } else {
                        result.format = Some(Format::Pax);
                    }
                } else if af == Format::Ustar {
                    if header.format != Format::Pax && header.format != Format::Ustar {
                        halt_format = true;
                    } else {
                        result.format = Some(header.format);
                    }
                } else if header.format != af {
                    halt_format = true;
                } else {
                    result.format = Some(header.format);
                }
            },
        }
        if halt_format {
            proof {
                assert(!fmt_ok(st.format, hf));
            }
            result.insert(header, cur);
            push_issue(&mut result.issues, Issue::FormatChanged);
            proof {
                assert(result.duplicated_paths.deep_view() =~= Seq::<Seq<u8>>::empty());
            }
            return EntryStep::Halt;
        }
        proof {
            assert(fmt_ok(st.format, hf));
            assert(result.format == nf);
        }
        if header.issues.len() > 0 {
            proof {
                assert(header.issues@.contains(header.issues@[0]));
                assert(crate::header::header_has_issue(b));
            }
            result.insert(header, cur);
            proof {
                assert(result.duplicated_paths.deep_view() =~= Seq::<Seq<u8>>::empty());
            }
            return EntryStep::Halt;
        }
        proof {
            if crate::header::header_has_issue(b) {
                let x = choose|x: Issue| crate::header::header_issue(b, x);
                assert(header.issues@.contains(x));
            }
            assert(!crate::header::header_has_issue(b));
        }
        self.lint_entry_data(cur, header, Ghost(st), result, paths, read_only_directories, links)
    }

    /// Walk one accepted entry's data blocks and apply the PAX, padding
    /// and cross-entry checks.
    #[verifier::rlimit(100)]
    #[verifier::loop_isolation(false)]
    fn lint_entry_data(
        &self,
        cur: usize,
        header: LintHeader,
        Ghost(st): Ghost<ScanState>,
        result: &mut ArchiveLintResult,
        paths: &mut Vec<Vec<u8>>,
        read_only_directories: &mut Vec<Vec<u8>>,
        links: &mut Vec<Vec<u8>>,
    ) -> (r: EntryStep)
        requires
            512 * cur + 512 <= self@.len(),
            header.wf(),
            header.decoded_from(blk(self@, cur as int)),
            !crate::lint::all_zero(blk(self@, cur as int)),
            !crate::header::header_has_issue(blk(self@, cur as int)),
            fmt_ok(st.format, crate::header::header_format(blk(self@, cur as int))),
            old(result).format == fmt_next(
                st.format,
                crate::header::header_format(blk(self@, cur as int)),
            ),
            st.paths == deep_of(old(paths)@),
            st.ro_dirs == deep_of(old(read_only_directories)@),
            st.links == deep_of(old(links)@),
            old(result).dump is None,
            old(result).issues@.len() == 0,
            old(result).hints@.len() == 0,
            old(result).duplicated_paths@.len() == 0,
            old(result).issues@.no_duplicates(),
            old(result).hints@.no_duplicates(),
        ensures
            (match r {
                EntryStep::Truncated => scan_from(self@, cur as int, st) is Truncated,
                EntryStep::Halt => (scan_from(self@, cur as int, st) matches
                    ScanResult::Finished(m) && matches_model(*final(result), m)),
                EntryStep::Continue(np) => {
                    &&& scan_from(self@, cur as int, st) == scan_from(
                        self@,
                        np as int / 512,
                        st_of(
                            final(result).format,
                            deep_of(final(paths)@),
                            deep_of(final(read_only_directories)@),
                            deep_of(final(links)@),
                        ),
                    )
                    &&& np % 512 == 0
                    &&& np <= self@.len()
                    &&& np >= 512 * cur + 512
                    &&& final(result).dump is None
                    &&& final(result).issues@.len() == 0
                    &&& final(result).hints@.len() == 0
                    &&& final(result).duplicated_paths@.len() == 0
                    &&& final(result).issues@.no_duplicates()
                    &&& final(result).hints@.no_duplicates()
                },
            }),
    {
        let ghost input = self@;
        let ghost b = blk(input, cur as int);
        let ghost hf = crate::header::header_format(b);
        let ghost nf = fmt_next(st.format, hf);
        let count = header.get_data_block_count();
        let is_copy = header.typeflag == 120 || header.typeflag == 103;
        let off64 = header.size % 512;
        let off = off64 as usize;
        let take: usize = if off == 0 {
            512
        } else {
            off
        };
        let ghost dstart: int = 512 * (cur as int + 1);
        let ghost size = crate::header::header_size(b) as int;
        let total = self.input.len();
        let mut pos: usize = 512 * cur + 512;
        let mut xheader: Vec<u8> = Vec::new();
        let mut last_block: Vec<u8> = Vec::new();
        let mut bi: u64 = 0;
        proof {
            assert(size == 512 * (size / 512) + size % 512);
        }
        while bi < count
            invariant
                bi <= count,
                pos == 512 * (cur as int + 1) + 512 * bi,
                pos <= input.len(),
                is_copy ==> xheader@ =~= input.subrange(
                    dstart,
                    dstart + (if bi < count {
                        512 * bi as int
                    } else {
                        size
                    }),
                ),
                bi > 0 ==> last_block@ == blk(input, cur as int + bi as int),
            decreases count - bi,
        {
            if self.input.len() - pos < 512 {
                proof {
                    assert(512 * (cur as int + 1 + count as int) > input.len());
                    assert(scan_from(input, cur as int, st) is Truncated);
                }
                return EntryStep::Truncated;
            }
            let data = self.read_block(pos);
            pos += 512;
            if is_copy {
                let lim: usize = if bi + 1 < count {
                    512
                } else {
                    take
                };
                let ghost xbase: int = 512 * bi as int;
                let mut q: usize = 0;
                while q < lim
                    invariant
                        q <= lim <= 512,
                        xheader@ =~= input.subrange(dstart, dstart + xbase + q as int),
                    decreases lim - q,
                {
                    proof {
                        assert(data@[q as int] == input[dstart + xbase + q]);
                    }
                    xheader.push(data[q]);
                    q += 1;
                }
                proof {
                    if bi + 1 < count {
                        assert(xheader@ =~= input.subrange(
                            dstart,
                            dstart + 512 * (bi as int + 1),
                        ));
                    } else {
                        if off == 0 {
                            assert(512 * count as int == size);
                        } else {
                            assert(512 * (count as int - 1) + take == size);
                        }
                        assert(xheader@ =~= input.subrange(dstart, dstart + size));
                    }
                }
            }
            last_block = data;
            bi += 1;
        }
        proof {
            assert(512 * (cur as int + 1 + count as int) <= input.len());
        }
        if is_copy && count > 0 {
            proof {
                assert(xheader@ =~= input.subrange(dstart, dstart + size));
            }
            let pheader = crate::pax::LintPaxExtendedHeader::new(xheader);
            if pheader.issues.len() > 0 {
                let pi = pheader.issues[0];
                result.insert(header, cur);
                push_issue(&mut result.issues, pi);
                proof {
                    assert(result.duplicated_paths.deep_view() =~= Seq::<Seq<u8>>::empty());
                }
                return EntryStep::Halt;
            }
        }
        if count > 0 && off != 0 {
            let mut all_ok = true;
            let mut marks = crate::header::zero_vec(512);
            let mut q: usize = off;
            while q < 512
                invariant
                    off <= q <= 512,
                    marks@.len() == 512,
                    all_ok <==> (forall|j: int| off <= j < q ==> last_block@[j] == 0),
                decreases 512 - q,
            {
                if last_block[q] != 0 {
                    all_ok = false;
                    let cm = marks[q];
                    marks[q] = cm | crate::lint::ERROR;
                }
                q += 1;
            }
            if !all_ok {
                proof {
                    let lb = blk(input, cur as int + count as int);
                    assert(!crate::lint::all_zero(lb.subrange(off as int, 512))) by {
                        let j = choose|j: int| off <= j < 512 && !(last_block@[j] == 0);
                        assert(lb.subrange(off as int, 512)[j - off] == lb[j]);
                    }
                }
                let dump_off = pos / 512 - 1;
                result.dump = Some(Dump { bytes: last_block, marks, offset: dump_off });
                push_issue(&mut result.issues, Issue::DataPaddingNotNul);
                proof {
                    assert(result.duplicated_paths.deep_view() =~= Seq::<Seq<u8>>::empty());
                    assert(dump_off == cur as int + count as int);
                }
                return EntryStep::Halt;
            }
            proof {
                let lb = blk(input, cur as int + count as int);
                assert forall|j: int|
                    0 <= j < lb.subrange(off as int, 512).len() implies lb.subrange(
                    off as int,
                    512,
                )[j] == 0 by {
                    assert(lb.subrange(off as int, 512)[j] == last_block@[j + off]);
                }
            }
        }
        let mut path2: Vec<u8> = Vec::new();
        let mut pq: usize = 0;
        while pq < header.path.len()
            invariant
                pq <= header.path@.len(),
                path2@ =~= header.path@.subrange(0, pq as int),
            decreases header.path.len() - pq,
        {
            path2.push(header.path[pq]);
            pq += 1;
        }
        proof {
            assert(path2@ =~= header.path@);
        }
        if path2.len() > 0 && path2[path2.len() - 1] == 47 {
            path2.pop();
        }
        proof {
            assert(path2@ =~= strip_slash(crate::header::header_path(b)));
        }
        let ghost pth = path2@;
        let dump_off = pos / 512 - 1;
        proof {
            assert(dump_off == cur as int + count as int);
        }
        if any_prefix_of(read_only_directories, &path2) {
            result.insert(header, dump_off);
            push_issue(&mut result.issues, Issue::ReadOnlyDirectoryWithEntries);
            proof {
                assert(result.duplicated_paths.deep_view() =~= Seq::<Seq<u8>>::empty());
            }
            return EntryStep::Halt;
        }
        if any_prefix_of(links, &path2) {
            result.insert(header, dump_off);
            push_issue(&mut result.issues, Issue::LinkIsParent);
            proof {
                assert(result.duplicated_paths.deep_view() =~= Seq::<Seq<u8>>::empty());
            }
            return EntryStep::Halt;
        }
        if header.typeflag == 53 && (header.mode & 0o200) == 0 {
            let mut dir: Vec<u8> = Vec::new();
            let mut dq: usize = 0;
            while dq < path2.len()
                invariant
                    dq <= path2@.len(),
                    dir@ =~= path2@.subrange(0, dq as int),
                decreases path2.len() - dq,
            {
                dir.push(path2[dq]);
                dq += 1;
            }
            dir.push(47);
            proof {
                assert(dir@ =~= pth + seq![47u8]);
            }
            let ghost rod_pre = read_only_directories@;
            read_only_directories.push(dir);
            proof {
                assert(deep_of(read_only_directories@) =~= deep_of(rod_pre).push(
                    pth + seq![47u8],
                )) by {
                    lemma_deep_of_push(rod_pre, read_only_directories@[rod_pre.len() as int]);
                }
            }
        }
        if header.typeflag == 49 || header.typeflag == 50 {
            let mut dir: Vec<u8> = Vec::new();
            let mut dq: usize = 0;
            while dq < path2.len()
                invariant
                    dq <= path2@.len(),
                    dir@ =~= path2@.subrange(0, dq as int),
                decreases path2.len() - dq,
            {
                dir.push(path2[dq]);
                dq += 1;
            }
            dir.push(47);
            proof {
                assert(dir@ =~= pth + seq![47u8]);
            }
            let ghost lk_pre = links@;
            links.push(dir);
            proof {
                assert(deep_of(links@) =~= deep_of(lk_pre).push(pth + seq![47u8])) by {
                    lemma_deep_of_push(lk_pre, links@[lk_pre.len() as int]);
                }
            }
        }
        if paths_contain(paths, &path2) {
            result.insert(header, dump_off);
            result.duplicated_paths.push(path2);
            proof {
                assert(result.duplicated_paths.deep_view() =~= seq![pth]) by {
                    lemma_deep_view_eq(&result.duplicated_paths);
                }
            }
            return EntryStep::Halt;
        }
        let ghost paths_pre = paths@;
        paths.push(path2);
        proof {
            assert(deep_of(paths@) =~= deep_of(paths_pre).push(pth)) by {
                lemma_deep_of_push(paths_pre, paths@[paths_pre.len() as int]);
            }
            assert(pos as int / 512 == cur as int + 1 + count as int);
        }
        EntryStep::Continue(pos)
    }

    /// Scan the archive: decode each header, walk its data blocks, and
    /// enforce the archive-wide rules, halting at the first violation.
    /// An input that ends inside a block is a hard failure, not a lint
    /// finding.
    #[verifier::rlimit(100)]
    #[verifier::loop_isolation(false)]
    pub fn lint(&mut self) -> (r: Result<ArchiveLintResult, TruncatedArchive>)
        ensures
            *final(self) == *old(self),
            (match scan_from(old(self)@, 0, init_state()) {
                ScanResult::Truncated => r is Err,
                ScanResult::Finished(m) => (r matches Ok(res) && matches_model(res, m)),
            }),
    {
        let ghost input = self@;
        let mut result = ArchiveLintResult {
            dump: None,
            duplicated_paths: Vec::new(),
            format: None,
            hints: Vec::new(),
            issues: Vec::new(),
        };
        let mut eoa: usize = 0;
        let mut i: usize = 0;
        let mut pos: usize = 0;
        let mut paths: Vec<Vec<u8>> = Vec::new();
        let mut read_only_directories: Vec<Vec<u8>> = Vec::new();
        let mut links: Vec<Vec<u8>> = Vec::new();
        proof {
            assert(deep_of(paths@) =~= Seq::<Seq<u8>>::empty());
        }
        while eoa < 2
            invariant
                *self == *old(self),
                pos == 512 * i,
                pos <= input.len(),
                eoa <= 2,
                result.dump is None,
                result.issues@.len() == 0,
                result.issues@.no_duplicates(),
                result.hints@.len() == 0,
                result.hints@.no_duplicates(),
                result.duplicated_paths@.len() == 0,
                eoa == 0 ==> scan_from(input, 0, init_state()) == scan_from(
                    input,
                    i as int,
                    st_of(
                        result.format,
                        deep_of(paths@),
                        deep_of(read_only_directories@),
                        deep_of(links@),
                    ),
                ),
                eoa == 1 ==> i >= 1 && crate::lint::all_zero(blk(input, i as int - 1))
                    && scan_from(input, 0, init_state()) == scan_from(
                    input,
                    i as int - 1,
                    st_of(
                        result.format,
                        deep_of(paths@),
                        deep_of(read_only_directories@),
                        deep_of(links@),
                    ),
                ),
                eoa == 2 ==> scan_from(input, 0, init_state()) == ScanResult::Finished(
                    ScanModel {
                        dump: None,
                        dups: Seq::empty(),
                        format: result.format,
                        issues: if crate::lint::all_zero(
                            input.subrange(pos as int, input.len() as int),
                        ) {
                            Set::empty()
                        } else {
                            Set::empty().insert(Issue::TrailingByteNotNul)
                        },
                        hints: Set::empty(),
                    },
                ),
            decreases input.len() - pos,
        {
            let ghost st = st_of(
                result.format,
                deep_of(paths@),
                deep_of(read_only_directories@),
                deep_of(links@),
            );
            let cur = i;
            if self.input.len() - pos < 512 {
                return Err(TruncatedArchive);
            }
            let block = self.read_block(pos);
            let zres = crate::lint::lint_nul_field(block.as_slice());
            let is_zero = match zres.value {
                Some(z) => z,
                None => unreached(),
            };
            proof {
                assert(block@ == blk(input, cur as int));
            }
            if is_zero {
                pos += 512;
                i += 1;
                if eoa == 0 {
                    eoa = 1;
                } else {
                    eoa = 2;
                }
            } else if eoa != 0 {
                let zb = crate::header::zero_vec(512);
                proof {
                    assert(zb@ =~= zero_block());
                }
                let zh = LintHeader::new(zb);
                result.insert(zh, cur - 1);
                proof {
                    assert(result.duplicated_paths.deep_view() =~= Seq::<Seq<u8>>::empty());
                }
                return Ok(result);
            } else {
                let step = self.lint_entry(
                    cur,
                    block,
                    &mut result,
                    &mut paths,
                    &mut read_only_directories,
                    &mut links,
                );
                match step {
                    EntryStep::Truncated => {
                        return Err(TruncatedArchive);
                    },
                    EntryStep::Halt => {
                        return Ok(result);
                    },
                    EntryStep::Continue(np) => {
                        pos = np;
                        i = np / 512;
                    },
                }
            }
        }
        let mut q: usize = pos;
        let mut trailing = false;
        while q < self.input.len()
            invariant
                pos <= q <= input.len(),
                trailing <==> !(forall|j: int| pos <= j < q ==> input[j] == 0),
            decreases self.input@.len() - q,
        {
            if self.input[q] != 0 {
                trailing = true;
            }
            q += 1;
        }
        if trailing {
            push_issue(&mut result.issues, Issue::TrailingByteNotNul);
        }
        proof {
            let rest = input.subrange(pos as int, input.len() as int);
            if trailing {
                let j = choose|j: int| pos <= j < input.len() && !(input[j] == 0);
                assert(rest[j - pos] == input[j]);
                assert(!crate::lint::all_zero(rest));
            } else {
                assert forall|j: int| 0 <= j < rest.len() implies rest[j] == 0 by {
                    assert(rest[j] == input[j + pos]);
                }
            }
            assert(result.duplicated_paths.deep_view() =~= Seq::<Seq<u8>>::empty());
        }
        Ok(result)
    }
}

} // verus!
