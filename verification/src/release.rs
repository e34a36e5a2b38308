//! The crate that one index file stands for: named by its greatest
//! non-yanked release whose version is valid SemVer (the first of equally
//! great ones; the least record name when no release competes), with the
//! dependencies of all its releases.

use vstd::prelude::*;
use crate::index::{
    CrateData, DumpFilters, ErrorCounts, IndexRecord, filter_deps, included_dep_names,
};
use crate::order::{text_le, text_le_exec, lemma_text_le_facts, lemma_text_le_antisymmetric};
use crate::sort::{views, strictly_sorted_keys, sorted_unique, lemma_views_add};

verus! {

/// `semver::Version`, which the library holds without looking inside.
#[verifier::external_type_specification]
#[verifier::external_body]
pub struct ExVersion(semver::Version);

/// Whether `semver::Version::parse` accepts the text.
pub uninterp spec fn semver_parses(text: Seq<char>) -> bool;

/// Whether the version parsed from `newer` is greater than the version
/// parsed from `older` in `semver::Version`'s order.
pub uninterp spec fn semver_greater(newer: Seq<char>, older: Seq<char>) -> bool;

/// A version text together with the `semver::Version` parsed from it. Only
/// `ReleaseVersion::parse` builds one, so the parsed value is always the one
/// that `semver::Version::parse` gives for the text.
struct ReleaseVersion {
    text: String,
    parsed: semver::Version,
}

impl View for ReleaseVersion {
    type V = Seq<char>;

    closed spec fn view(&self) -> Seq<char> {
        self.text@
    }
}

impl ReleaseVersion {
    /// Calls `semver::Version::parse`. Claimed: it succeeds exactly when
    /// `semver_parses` holds of the text, and the value keeps the text it was
    /// parsed from (so that the order below is a function of the texts).
    #[verifier::external_body]
    fn parse(text: &str) -> (r: Option<ReleaseVersion>)
        ensures
            r is Some <==> semver_parses(text@),
            r matches Some(v) ==> v@ == text@,
            r matches Some(v) ==> !semver_greater(v@, v@),
    {
        match semver::Version::parse(text) {
            Ok(parsed) => Some(ReleaseVersion { text: text.to_string(), parsed }),
            Err(_) => None,
        }
    }

    /// Calls `>` of `semver::Version`'s `PartialOrd`. `derive(Ord)` on
    /// `Version` makes it a strict total order on versions, and each text
    /// parses to one version, so the claims are: the answer is
    /// `semver_greater` of the two texts; `other` is then not greater than
    /// `self`; and when the answer is yes, a valid version greater than
    /// `self` is greater than `other`, and a valid version is either below
    /// `self` or above `other`.
    #[verifier::external_body]
    fn is_newer_than(&self, other: &ReleaseVersion) -> (r: bool)
        ensures
            r == semver_greater(self@, other@),
            r ==> !semver_greater(other@, self@),
            forall|z: Seq<char>|
                semver_parses(z) && r && #[trigger] semver_greater(z, self@) ==> semver_greater(z, other@),
            forall|z: Seq<char>|
                semver_parses(z) && r ==> #[trigger] semver_greater(self@, z) || semver_greater(z, other@),
    {
        self.parsed > other.parsed
    }
}

/// A line of an index file, as read: blank, not a record, or a record.
#[derive(Debug)]
pub enum IndexLine {
    Blank,
    Malformed,
    Record(IndexRecord),
}

/// The line is a release that competes: not yanked, with a valid version.
pub open spec fn release_competes(line: IndexLine) -> bool {
    match line {
        IndexLine::Record(r) => !r.yanked && semver_parses(r.vers@),
        _ => false,
    }
}

/// The version text of a record line.
pub open spec fn line_version(line: IndexLine) -> Seq<char> {
    match line {
        IndexLine::Record(r) => r.vers@,
        _ => Seq::empty(),
    }
}

/// The number of lines that are not records.
pub open spec fn malformed_count(lines: Seq<IndexLine>) -> nat
    decreases lines.len(),
{
    if lines.len() == 0 {
        0
    } else {
        malformed_count(lines.drop_last()) + if lines.last() is Malformed { 1nat } else { 0nat }
    }
}

/// The number of non-yanked records whose version is not valid SemVer.
pub open spec fn bad_version_count(lines: Seq<IndexLine>) -> nat
    decreases lines.len(),
{
    if lines.len() == 0 {
        0
    } else {
        bad_version_count(lines.drop_last()) + match lines.last() {
            IndexLine::Record(r) => if !r.yanked && !semver_parses(r.vers@) { 1nat } else { 0nat },
            _ => 0nat,
        }
    }
}

/// The record on a line.
pub open spec fn line_record(line: IndexLine) -> IndexRecord
    recommends
        line is Record,
{
    match line {
        IndexLine::Record(r) => r,
        _ => arbitrary(),
    }
}

/// Line `j`, among the first `n` lines, is a competing release that no
/// competing release among them is newer than.
pub open spec fn top_among(lines: Seq<IndexLine>, n: int, j: int) -> bool {
    &&& 0 <= j < n
    &&& release_competes(lines[j])
    &&& forall|k: int|
        0 <= k < n && #[trigger] release_competes(lines[k])
            ==> !semver_greater(line_version(lines[k]), line_version(lines[j]))
}

/// Some release among the first `n` lines competes.
pub open spec fn competes_among(lines: Seq<IndexLine>, n: int) -> bool {
    exists|j: int| 0 <= j < n && #[trigger] release_competes(lines[j])
}

/// Some line among the first `n` lines is a record.
pub open spec fn record_among(lines: Seq<IndexLine>, n: int) -> bool {
    exists|j: int| 0 <= j < n && #[trigger] lines[j] is Record
}

/// Line `w` is the first of the greatest competing releases among the
/// first `n` lines: the one that a scan in order keeps, as it takes a
/// release only when it is newer than the one it holds.
pub open spec fn first_top_among(lines: Seq<IndexLine>, n: int, w: int) -> bool {
    &&& top_among(lines, n, w)
    &&& forall|j: int| 0 <= j < w ==> !#[trigger] top_among(lines, n, j)
}

/// `t` is the least of the names that the records among the first `n`
/// lines carry.
pub open spec fn least_record_name(lines: Seq<IndexLine>, n: int, t: Seq<char>) -> bool {
    &&& exists|j: int| 0 <= j < n && #[trigger] lines[j] is Record && line_record(lines[j]).name@ == t
    &&& forall|j: int| 0 <= j < n && #[trigger] lines[j] is Record ==> text_le(t, line_record(lines[j]).name@)
}

/// The index file holds at least one record.
pub open spec fn has_record(lines: Seq<IndexLine>) -> bool {
    record_among(lines, lines.len() as int)
}

/// `m` is the name of the crate that the lines stand for: that of its
/// greatest competing release (the first of them when several are equally
/// great), or, when no release competes, the least of its record names in
/// the order of strings.
pub open spec fn is_crate_name(lines: Seq<IndexLine>, m: Seq<char>) -> bool {
    if competes_among(lines, lines.len() as int) {
        exists|w: int| #[trigger] first_top_among(lines, lines.len() as int, w) && line_record(lines[w]).name@ == m
    } else {
        least_record_name(lines, lines.len() as int, m)
    }
}

/// The crates that the kept dependencies of all releases point at: the
/// edges of the crate, every release merged into one node.
pub open spec fn release_dep_names(lines: Seq<IndexLine>, filters: DumpFilters) -> Set<Seq<char>> {
    Set::new(
        |n: Seq<char>|
            exists|i: int|
                0 <= i < lines.len() && #[trigger] lines[i] is Record && included_dep_names(
                    line_record(lines[i]).deps@,
                    filters,
                ).contains(n),
    )
}

proof fn lemma_release_dep_names_step(lines: Seq<IndexLine>, i: int, filters: DumpFilters, n: Seq<char>)
    requires
        0 <= i < lines.len(),
    ensures
        release_dep_names(lines.take(i + 1), filters).contains(n) == (release_dep_names(lines.take(i), filters).contains(n)
            || (lines[i] is Record && included_dep_names(line_record(lines[i]).deps@, filters).contains(n))),
{
    let t = lines.take(i);
    let t1 = lines.take(i + 1);
    if release_dep_names(t1, filters).contains(n) {
        let k = choose|k: int| 0 <= k < t1.len() && #[trigger] t1[k] is Record && included_dep_names(
            line_record(t1[k]).deps@, filters).contains(n);
        if k < i {
            assert(t[k] == t1[k]);
        }
    }
    if release_dep_names(t, filters).contains(n) {
        let k = choose|k: int| 0 <= k < t.len() && #[trigger] t[k] is Record && included_dep_names(
            line_record(t[k]).deps@, filters).contains(n);
        assert(t1[k] == t[k]);
    }
    if lines[i] is Record && included_dep_names(line_record(lines[i]).deps@, filters).contains(n) {
        assert(t1[i] == lines[i]);
    }
}

/// A line that does not compete leaves the greatest releases as they were.
proof fn lemma_top_step_other(lines: Seq<IndexLine>, i: int)
    requires
        0 <= i < lines.len(),
        !release_competes(lines[i]),
    ensures
        !top_among(lines, i + 1, i),
        competes_among(lines, i + 1) == competes_among(lines, i),
        forall|j: int| 0 <= j < i ==> #[trigger] top_among(lines, i + 1, j) == top_among(lines, i, j),
{
    if competes_among(lines, i + 1) {
        let j = choose|j: int| 0 <= j < i + 1 && #[trigger] release_competes(lines[j]);
        assert(j < i);
    }
}

/// The first competing release is the only greatest one so far.
proof fn lemma_top_step_first(lines: Seq<IndexLine>, i: int)
    requires
        0 <= i < lines.len(),
        release_competes(lines[i]),
        !competes_among(lines, i),
        !semver_greater(line_version(lines[i]), line_version(lines[i])),
    ensures
        top_among(lines, i + 1, i),
        competes_among(lines, i + 1),
        forall|j: int| 0 <= j < i ==> !release_competes(#[trigger] lines[j]),
{
    assert forall|k: int| 0 <= k < i + 1 && #[trigger] release_competes(lines[k])
        implies !semver_greater(line_version(lines[k]), line_version(lines[i])) by {
        if k < i {
            assert(competes_among(lines, i));
        }
    }
}

/// A release newer than the greatest so far is the only greatest one.
proof fn lemma_top_step_newer(lines: Seq<IndexLine>, i: int, w: int)
    requires
        0 <= i < lines.len(),
        release_competes(lines[i]),
        top_among(lines, i, w),
        !semver_greater(line_version(lines[i]), line_version(lines[i])),
        semver_greater(line_version(lines[i]), line_version(lines[w])),
        forall|z: Seq<char>|
            semver_parses(z) && #[trigger] semver_greater(z, line_version(lines[i]))
                ==> semver_greater(z, line_version(lines[w])),
        forall|z: Seq<char>|
            semver_parses(z) ==> #[trigger] semver_greater(line_version(lines[i]), z)
                || semver_greater(z, line_version(lines[w])),
    ensures
        top_among(lines, i + 1, i),
        forall|j: int| 0 <= j < i && release_competes(#[trigger] lines[j])
            ==> semver_greater(line_version(lines[i]), line_version(lines[j])),
        forall|j: int| 0 <= j < i ==> !#[trigger] top_among(lines, i + 1, j),
{
    let vi = line_version(lines[i]);
    let vw = line_version(lines[w]);
    assert forall|k: int| 0 <= k < i + 1 && #[trigger] release_competes(lines[k])
        implies !semver_greater(line_version(lines[k]), vi) by {
        if k < i {
            let vk = line_version(lines[k]);
            if semver_greater(vk, vi) {
                assert(semver_greater(vk, vw));
            }
        }
    }
    assert forall|j: int| 0 <= j < i && release_competes(#[trigger] lines[j])
        implies semver_greater(vi, line_version(lines[j])) by {
        let vj = line_version(lines[j]);
        assert(semver_greater(vi, vj) || semver_greater(vj, vw));
    }
    assert forall|j: int| 0 <= j < i implies !#[trigger] top_among(lines, i + 1, j) by {
        if release_competes(lines[j]) {
            assert(semver_greater(vi, line_version(lines[j])));
        }
    }
}

/// A line that is not newer than the first greatest release so far keeps
/// it first and greatest.
proof fn lemma_top_step_kept(lines: Seq<IndexLine>, i: int, w: int)
    requires
        0 <= i < lines.len(),
        first_top_among(lines, i, w),
        release_competes(lines[i]) ==> !semver_greater(line_version(lines[i]), line_version(lines[w])),
    ensures
        first_top_among(lines, i + 1, w),
{
    assert forall|j: int| 0 <= j < w implies !#[trigger] top_among(lines, i + 1, j) by {
        if top_among(lines, i + 1, j) {
            assert(top_among(lines, i, j));
        }
    }
}

/// A line that is not a record leaves the least record name as it was.
proof fn lemma_record_name_other(lines: Seq<IndexLine>, i: int, t: Seq<char>)
    requires
        0 <= i < lines.len(),
        !(lines[i] is Record),
    ensures
        record_among(lines, i + 1) == record_among(lines, i),
        least_record_name(lines, i + 1, t) == least_record_name(lines, i, t),
{
    if record_among(lines, i + 1) {
        let j = choose|j: int| 0 <= j < i + 1 && #[trigger] lines[j] is Record;
        assert(j < i);
    }
    if least_record_name(lines, i + 1, t) {
        let j = choose|j: int| 0 <= j < i + 1 && #[trigger] lines[j] is Record && line_record(lines[j]).name@ == t;
        assert(j < i);
    }
}

/// The least record name after one more line.
proof fn lemma_record_name_step(lines: Seq<IndexLine>, i: int, t: Option<String>, u: Seq<char>)
    requires
        0 <= i < lines.len(),
        lines[i] is Record,
        t is None <==> !record_among(lines, i),
        t is Some ==> least_record_name(lines, i, t->0@),
        u == (match t {
            None => line_record(lines[i]).name@,
            Some(s) => if text_le(s@, line_record(lines[i]).name@) { s@ } else { line_record(lines[i]).name@ },
        }),
    ensures
        record_among(lines, i + 1),
        least_record_name(lines, i + 1, u),
{
    lemma_text_le_facts();
    assert(lines[i] is Record);
    let ni = line_record(lines[i]).name@;
    assert(text_le(ni, ni));
    if let Some(s) = t {
        let j0 = choose|j: int| 0 <= j < i && #[trigger] lines[j] is Record && line_record(lines[j]).name@ == s@;
        assert(lines[j0] is Record);
        assert(text_le(s@, ni) || text_le(ni, s@));
        assert(text_le(u, ni) && text_le(u, s@));
    }
    assert forall|j: int| 0 <= j < i + 1 && #[trigger] lines[j] is Record
        implies text_le(u, line_record(lines[j]).name@) by {
        if j < i {
            assert(record_among(lines, i));
            let s = t->0@;
            assert(text_le(s, line_record(lines[j]).name@));
            assert(text_le(u, s));
        } else {
            assert(j == i);
        }
    }
}

/// The name that the scan of all lines settles on is the crate's name.
proof fn lemma_crate_name_found(lines: Seq<IndexLine>, best: Option<int>, rec: Option<String>)
    requires
        best is None <==> !competes_among(lines, lines.len() as int),
        best matches Some(w) ==> first_top_among(lines, lines.len() as int, w),
        rec is None <==> !record_among(lines, lines.len() as int),
        rec is Some ==> least_record_name(lines, lines.len() as int, rec->0@),
    ensures
        (best is Some || rec is Some) <==> has_record(lines),
        best matches Some(w) ==> lines[w] is Record && is_crate_name(lines, line_record(lines[w]).name@),
        best is None && rec is Some ==> is_crate_name(lines, rec->0@),
{
    let n = lines.len() as int;
    if let Some(w) = best {
        let j = choose|j: int| 0 <= j < n && #[trigger] release_competes(lines[j]);
        assert(lines[j] is Record);
        assert(lines[w] is Record);
    }
}

/// The crate that the lines of one index file stand for: named as
/// `is_crate_name` says, with the kept dependencies of all its releases;
/// counts the lines that are not records and the non-yanked releases whose
/// version does not parse. There is a crate exactly when some line is a
/// record.
pub fn crate_from_index_lines(
    lines: &Vec<IndexLine>,
    filters: &DumpFilters,
    errors: &mut ErrorCounts,
) -> (r: Option<CrateData>)
    requires
        old(errors).json_errors + lines@.len() <= usize::MAX,
        old(errors).version_errors + lines@.len() <= usize::MAX,
    ensures
        final(errors).io_errors == old(errors).io_errors,
        final(errors).json_errors == old(errors).json_errors + malformed_count(lines@),
        final(errors).version_errors == old(errors).version_errors + bad_version_count(lines@),
        r is Some <==> has_record(lines@),
        r matches Some(c) ==> {
            &&& is_crate_name(lines@, c.name@)
            &&& strictly_sorted_keys::<String>(views(c.deps@))
            &&& views(c.deps@).to_set() == release_dep_names(lines@, *filters)
        },
{
    let mut best_version: Option<ReleaseVersion> = None;
    let mut best_index: usize = 0;
    let mut record_name: Option<String> = None;
    let mut all_deps: Vec<String> = Vec::new();
    let n = lines.len();
    for i in 0..n
        invariant
            n == lines@.len(),
            errors.io_errors == old(errors).io_errors,
            errors.json_errors == old(errors).json_errors + malformed_count(lines@.take(i as int)),
            errors.version_errors == old(errors).version_errors + bad_version_count(lines@.take(i as int)),
            malformed_count(lines@.take(i as int)) <= i,
            bad_version_count(lines@.take(i as int)) <= i,
            old(errors).json_errors + n <= usize::MAX,
            old(errors).version_errors + n <= usize::MAX,
            best_version is None <==> !competes_among(lines@, i as int),
            best_version matches Some(v) ==> {
                &&& first_top_among(lines@, i as int, best_index as int)
                &&& v@ == line_version(lines@[best_index as int])
            },
            record_name is None <==> !record_among(lines@, i as int),
            record_name is Some ==> least_record_name(lines@, i as int, record_name->0@),
            views(all_deps@).to_set() == release_dep_names(lines@.take(i as int), *filters),
    {
        let ghost before = all_deps@;
        let ghost mut added: Seq<Seq<char>> = Seq::empty();
        let ghost old_record = record_name;
        proof {
            assert(lines@.take(i + 1).drop_last() =~= lines@.take(i as int));
            assert(lines@.take(i + 1).last() == lines@[i as int]);
            if !release_competes(lines@[i as int]) {
                lemma_top_step_other(lines@, i as int);
                if best_version is Some {
                    lemma_top_step_kept(lines@, i as int, best_index as int);
                }
            }
            if !(lines@[i as int] is Record) && record_name is Some {
                lemma_record_name_other(lines@, i as int, record_name->0@);
            }
            if !(lines@[i as int] is Record) && record_name is None {
                lemma_record_name_other(lines@, i as int, Seq::empty());
            }
        }
        match &lines[i] {
            IndexLine::Blank => {},
            IndexLine::Malformed => {
                errors.json_errors = errors.json_errors + 1;
            },
            IndexLine::Record(record) => {
                let take_name = match &record_name {
                    None => true,
                    Some(t) => !text_le_exec(t.as_str(), record.name.as_str()),
                };
                if take_name {
                    record_name = Some(record.name.clone());
                }
                proof {
                    lemma_record_name_step(lines@, i as int, old_record, record_name->0@);
                }
                let mut kept = filter_deps(record.deps.as_slice(), filters);
                let ghost kept_seq = kept@;
                all_deps.append(&mut kept);
                proof {
                    lemma_views_add(before, kept_seq);
                    added = views(kept_seq);
                }
                if !record.yanked {
                    match ReleaseVersion::parse(record.vers.as_str()) {
                        None => {
                            errors.version_errors = errors.version_errors + 1;
                            proof {
                                lemma_top_step_other(lines@, i as int);
                            }
                        },
                        Some(version) => {
                            let newer = match &best_version {
                                None => {
                                    proof {
                                        lemma_top_step_first(lines@, i as int);
                                    }
                                    true
                                },
                                Some(current) => {
                                    let a = version.is_newer_than(current);
                                    proof {
                                        if a {
                                            lemma_top_step_newer(lines@, i as int, best_index as int);
                                        } else {
                                            lemma_top_step_kept(lines@, i as int, best_index as int);
                                        }
                                    }
                                    a
                                },
                            };
                            if newer {
                                best_version = Some(version);
                                best_index = i;
                                proof {
                                    assert forall|j: int| 0 <= j < i implies !#[trigger] top_among(lines@, i + 1, j) by {
                                        if top_among(lines@, i + 1, j) {
                                            assert(release_competes(lines@[j]));
                                        }
                                    }
                                }
                            }
                        },
                    }
                } else {
                    proof {
                        lemma_top_step_other(lines@, i as int);
                    }
                }
            },
        }
        proof {
            if !(lines@[i as int] is Record) {
                assert(all_deps@ == before);
            }
            assert(views(all_deps@) == views(before) + added);
            assert(lines@[i as int] is Record ==> added.to_set() == included_dep_names(
                line_record(lines@[i as int]).deps@, *filters));
            assert forall|m: Seq<char>| #[trigger] views(all_deps@).to_set().contains(m)
                == release_dep_names(lines@.take(i + 1), *filters).contains(m) by {
                lemma_release_dep_names_step(lines@, i as int, *filters, m);
                let whole = views(all_deps@);
                if whole.contains(m) {
                    let k = choose|k: int| 0 <= k < whole.len() && whole[k] == m;
                    if k < views(before).len() {
                        assert(views(before)[k] == m);
                        assert(views(before).to_set().contains(m));
                    } else {
                        assert(added[k - views(before).len()] == m);
                        assert(added.to_set().contains(m));
                    }
                }
                if views(before).contains(m) {
                    let k = choose|k: int| 0 <= k < views(before).len() && views(before)[k] == m;
                    assert(whole[k] == m);
                }
                if added.contains(m) {
                    let k = choose|k: int| 0 <= k < added.len() && added[k] == m;
                    assert(whole[views(before).len() + k] == m);
                }
            }
            assert(views(all_deps@).to_set() =~= release_dep_names(lines@.take(i + 1), *filters));
        }
    }
    proof {
        assert(lines@.take(n as int) =~= lines@);
        lemma_crate_name_found(lines@, if best_version is Some { Some(best_index as int) } else { None }, record_name);
    }
    let chosen_name = match best_version {
        Some(_) => match &lines[best_index] {
            IndexLine::Record(record) => Some(record.name.clone()),
            _ => None,
        },
        None => record_name,
    };
    match chosen_name {
        None => None,
        Some(name) => {
            let deps = sorted_unique(all_deps);
            Some(CrateData { name, deps })
        },
    }
}

proof fn lemma_counts_remove(s: Seq<IndexLine>, i: int)
    requires
        0 <= i < s.len(),
    ensures
        malformed_count(s) == malformed_count(s.remove(i)) + if s[i] is Malformed { 1nat } else { 0nat },
        bad_version_count(s) == bad_version_count(s.remove(i)) + match s[i] {
            IndexLine::Record(r) => if !r.yanked && !semver_parses(r.vers@) { 1nat } else { 0nat },
            _ => 0nat,
        },
    decreases s.len(),
{
    if i == s.len() - 1 {
        assert(s.remove(i) =~= s.drop_last());
    } else {
        assert(s.remove(i).drop_last() =~= s.drop_last().remove(i));
        assert(s.remove(i).last() == s.last());
        lemma_counts_remove(s.drop_last(), i);
    }
}

proof fn lemma_counts_perm(s: Seq<IndexLine>, t: Seq<IndexLine>)
    requires
        s.to_multiset() == t.to_multiset(),
    ensures
        malformed_count(s) == malformed_count(t),
        bad_version_count(s) == bad_version_count(t),
    decreases s.len(),
{
    broadcast use vstd::seq_lib::group_to_multiset_ensures;

    if s.len() == 0 {
        assert(t.to_multiset().len() == 0);
        assert(t =~= Seq::<IndexLine>::empty());
    } else {
        let j = crate::sort::lemma_multiset_remove_last(s, t);
        lemma_counts_perm(s.drop_last(), t.remove(j));
        lemma_counts_remove(t, j);
    }
}

/// A greatest release of one list of lines is a greatest release of any
/// list whose lines all occur in the first.
proof fn lemma_top_carries_over(l1: Seq<IndexLine>, l2: Seq<IndexLine>, j: int, k: int)
    requires
        forall|x: IndexLine| l2.contains(x) ==> l1.contains(x),
        0 <= k < l2.len(),
        top_among(l1, l1.len() as int, j),
        l2[k] == l1[j],
    ensures
        top_among(l2, l2.len() as int, k),
{
    assert forall|m: int| 0 <= m < l2.len() && #[trigger] release_competes(l2[m])
        implies !semver_greater(line_version(l2[m]), line_version(l2[k])) by {
        assert(l2.contains(l2[m]));
        let p = choose|p: int| 0 <= p < l1.len() && l1[p] == l2[m];
        assert(release_competes(l1[p]));
    }
}

/// Two lists of the same lines have a record, and a competing release,
/// alike.
proof fn lemma_same_lines(l1: Seq<IndexLine>, l2: Seq<IndexLine>)
    requires
        forall|y: IndexLine| l1.contains(y) <==> l2.contains(y),
    ensures
        has_record(l1) == has_record(l2),
        competes_among(l1, l1.len() as int) == competes_among(l2, l2.len() as int),
{
    if has_record(l1) {
        let i = choose|i: int| 0 <= i < l1.len() && #[trigger] l1[i] is Record;
        assert(l1.contains(l1[i]));
        let k = choose|k: int| 0 <= k < l2.len() && l2[k] == l1[i];
        assert(l2[k] is Record);
    }
    if has_record(l2) {
        let i = choose|i: int| 0 <= i < l2.len() && #[trigger] l2[i] is Record;
        assert(l2.contains(l2[i]));
        let k = choose|k: int| 0 <= k < l1.len() && l1[k] == l2[i];
        assert(l1[k] is Record);
    }
    if competes_among(l1, l1.len() as int) {
        let i = choose|i: int| 0 <= i < l1.len() && #[trigger] release_competes(l1[i]);
        assert(l1.contains(l1[i]));
        let k = choose|k: int| 0 <= k < l2.len() && l2[k] == l1[i];
        assert(release_competes(l2[k]));
    }
    if competes_among(l2, l2.len() as int) {
        let i = choose|i: int| 0 <= i < l2.len() && #[trigger] release_competes(l2[i]);
        assert(l2.contains(l2[i]));
        let k = choose|k: int| 0 <= k < l1.len() && l1[k] == l2[i];
        assert(release_competes(l1[k]));
    }
}

/// The crate's name is determined by the lines: two names that both meet
/// `is_crate_name` are the same.
pub proof fn lemma_crate_name_unique(lines: Seq<IndexLine>, a: Seq<char>, b: Seq<char>)
    requires
        is_crate_name(lines, a),
        is_crate_name(lines, b),
    ensures
        a == b,
{
    let n = lines.len() as int;
    if competes_among(lines, n) {
        let wa = choose|w: int| #[trigger] first_top_among(lines, n, w) && line_record(lines[w]).name@ == a;
        let wb = choose|w: int| #[trigger] first_top_among(lines, n, w) && line_record(lines[w]).name@ == b;
        if wa < wb {
            assert(!top_among(lines, n, wa));
        }
        if wb < wa {
            assert(!top_among(lines, n, wb));
        }
    } else {
        let ja = choose|j: int| 0 <= j < n && #[trigger] lines[j] is Record && line_record(lines[j]).name@ == a;
        let jb = choose|j: int| 0 <= j < n && #[trigger] lines[j] is Record && line_record(lines[j]).name@ == b;
        assert(text_le(a, b));
        assert(text_le(b, a));
        lemma_text_le_antisymmetric(a, b);
    }
}

/// When some release competes, the crate's name is carried by a competing
/// release that no competing release of the file is newer than.
pub proof fn lemma_crate_name_from_greatest_release(lines: Seq<IndexLine>, m: Seq<char>)
    requires
        is_crate_name(lines, m),
        competes_among(lines, lines.len() as int),
    ensures
        exists|j: int|
            0 <= j < lines.len() && #[trigger] release_competes(lines[j]) && line_record(lines[j]).name@ == m
                && forall|k: int| 0 <= k < lines.len() && #[trigger] release_competes(lines[k])
                    ==> !semver_greater(line_version(lines[k]), line_version(lines[j])),
{
    let w = choose|w: int| #[trigger] first_top_among(lines, lines.len() as int, w) && line_record(lines[w]).name@ == m;
    assert(release_competes(lines[w]));
}

/// When every record of the file carries the name `m`, the crate is named
/// `m`.
pub proof fn lemma_crate_name_of_one_named_file(lines: Seq<IndexLine>, m: Seq<char>, x: Seq<char>)
    requires
        forall|j: int| 0 <= j < lines.len() && #[trigger] lines[j] is Record ==> line_record(lines[j]).name@ == m,
        is_crate_name(lines, x),
    ensures
        x == m,
{
    let n = lines.len() as int;
    if competes_among(lines, n) {
        let w = choose|w: int| #[trigger] first_top_among(lines, n, w) && line_record(lines[w]).name@ == x;
        assert(lines[w] is Record);
    } else {
        let j = choose|j: int| 0 <= j < n && #[trigger] lines[j] is Record && line_record(lines[j]).name@ == x;
    }
}

/// The crate that an index file stands for does not depend on the order of
/// its lines: the same lines in another order give a crate exactly when the
/// first order does, with the same dependencies and the same error counts;
/// and with the same name when no release competes or when the greatest
/// competing releases all carry one name (as they do when their versions
/// differ, or when the file's records all carry one name).
pub proof fn lemma_crate_independent_of_line_order(l1: Seq<IndexLine>, l2: Seq<IndexLine>, filters: DumpFilters)
    requires
        l1.to_multiset() == l2.to_multiset(),
    ensures
        has_record(l1) == has_record(l2),
        (!competes_among(l1, l1.len() as int) || forall|j: int, k: int|
            #[trigger] top_among(l1, l1.len() as int, j) && #[trigger] top_among(l1, l1.len() as int, k)
                ==> line_record(l1[j]).name@ == line_record(l1[k]).name@)
            ==> forall|a: Seq<char>, b: Seq<char>| #[trigger] is_crate_name(l1, a) && #[trigger] is_crate_name(l2, b) ==> a == b,
        release_dep_names(l1, filters) == release_dep_names(l2, filters),
        malformed_count(l1) == malformed_count(l2),
        bad_version_count(l1) == bad_version_count(l2),
{
    broadcast use vstd::seq_lib::group_to_multiset_ensures;

    assert forall|x: IndexLine| l1.contains(x) <==> l2.contains(x) by {
        vstd::seq_lib::to_multiset_contains(l1, x);
        vstd::seq_lib::to_multiset_contains(l2, x);
    }
    lemma_same_lines(l1, l2);
    let n1 = l1.len() as int;
    let n2 = l2.len() as int;
    if !competes_among(l1, n1) || forall|j: int, k: int|
        #[trigger] top_among(l1, n1, j) && #[trigger] top_among(l1, n1, k)
            ==> line_record(l1[j]).name@ == line_record(l1[k]).name@ {
        assert forall|a: Seq<char>, b: Seq<char>| #[trigger] is_crate_name(l1, a) && #[trigger] is_crate_name(l2, b)
            implies a == b by {
            if competes_among(l1, n1) {
                let w1 = choose|w: int| #[trigger] first_top_among(l1, n1, w) && line_record(l1[w]).name@ == a;
                let w2 = choose|w: int| #[trigger] first_top_among(l2, n2, w) && line_record(l2[w]).name@ == b;
                assert(l2.contains(l2[w2]));
                let p = choose|p: int| 0 <= p < n1 && l1[p] == l2[w2];
                lemma_top_carries_over(l2, l1, w2, p);
                assert(top_among(l1, n1, w1) && top_among(l1, n1, p));
            } else {
                let j1 = choose|j: int| 0 <= j < n1 && #[trigger] l1[j] is Record && line_record(l1[j]).name@ == a;
                let j2 = choose|j: int| 0 <= j < n2 && #[trigger] l2[j] is Record && line_record(l2[j]).name@ == b;
                assert(l1.contains(l1[j1]));
                let p = choose|p: int| 0 <= p < n2 && l2[p] == l1[j1];
                assert(l2[p] is Record);
                assert(text_le(b, a));
                assert(l2.contains(l2[j2]));
                let q = choose|q: int| 0 <= q < n1 && l1[q] == l2[j2];
                assert(l1[q] is Record);
                assert(text_le(a, b));
                lemma_text_le_antisymmetric(a, b);
            }
        }
    }
    assert forall|n: Seq<char>| release_dep_names(l1, filters).contains(n) <==> release_dep_names(l2, filters).contains(n) by {
        if release_dep_names(l1, filters).contains(n) {
            let i = choose|i: int| 0 <= i < l1.len() && #[trigger] l1[i] is Record && included_dep_names(
                line_record(l1[i]).deps@, filters).contains(n);
            assert(l1.contains(l1[i]));
            let k = choose|k: int| 0 <= k < l2.len() && l2[k] == l1[i];
            assert(l2[k] is Record);
        }
        if release_dep_names(l2, filters).contains(n) {
            let i = choose|i: int| 0 <= i < l2.len() && #[trigger] l2[i] is Record && included_dep_names(
                line_record(l2[i]).deps@, filters).contains(n);
            assert(l2.contains(l2[i]));
            let k = choose|k: int| 0 <= k < l1.len() && l1[k] == l2[i];
            assert(l1[k] is Record);
        }
    }
    assert(release_dep_names(l1, filters) =~= release_dep_names(l2, filters));
    lemma_counts_perm(l1, l2);
}

} // verus!
