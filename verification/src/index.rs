//! Records of the crates.io index: which dependencies count, and which
//! release of a crate stands for it.

use vstd::prelude::*;
use crate::order::text_eq_exec;
use crate::sort::{views, sorted_unique, strictly_sorted_keys, lemma_strictly_sorted_unique};

verus! {

/// `c` has the Unicode `White_Space` property (what `char::is_whitespace`
/// and `str::trim` go by).
pub open spec fn is_white_space(c: char) -> bool {
    let u = c as u32;
    ||| 0x09 <= u <= 0x0d
    ||| u == 0x20
    ||| u == 0x85
    ||| u == 0xa0
    ||| u == 0x1680
    ||| 0x2000 <= u <= 0x200a
    ||| u == 0x2028
    ||| u == 0x2029
    ||| u == 0x202f
    ||| u == 0x205f
    ||| u == 0x3000
}

/// Whether a character is white space.
pub fn is_white_space_exec(c: char) -> (r: bool)
    ensures
        r == is_white_space(c),
{
    let u = c as u32;
    (0x09 <= u && u <= 0x0d) || u == 0x20 || u == 0x85 || u == 0xa0 || u == 0x1680 || (0x2000
        <= u && u <= 0x200a) || u == 0x2028 || u == 0x2029 || u == 0x202f || u == 0x205f || u
        == 0x3000
}

/// A line of an index file is blank when it trims to nothing: every
/// character of it is white space.
pub fn is_blank_line(line: &str) -> (r: bool)
    ensures
        r == (forall|i: int| 0 <= i < line@.len() ==> is_white_space(#[trigger] line@[i])),
{
    broadcast use vstd::string::group_string_axioms;

    let mut all = true;
    for c in it: line.chars()
        invariant
            it.seq() == line@,
            all == (forall|i: int| 0 <= i < it.index() ==> is_white_space(#[trigger] line@[i])),
    {
        if !is_white_space_exec(c) {
            all = false;
        }
    }
    all
}

/// Which kinds of dependency edges are kept (the filters under which a
/// crates dump was built).
#[derive(Clone, Copy, Debug, PartialEq, Eq, Structural)]
pub struct DumpFilters {
    pub include_optional: bool,
    pub include_dev: bool,
    pub include_build: bool,
}

/// One dependency of a release, as the index lists it: `name` is the name
/// under which the release uses it, and `package` the crate it is, when it
/// was renamed.
#[derive(Debug)]
pub struct IndexDep {
    pub name: String,
    pub package: Option<String>,
    pub optional: bool,
    pub kind: Option<String>,
}

/// One release of a crate: a line of its index file.
#[derive(Debug)]
pub struct IndexRecord {
    pub name: String,
    pub vers: String,
    pub yanked: bool,
    pub deps: Vec<IndexDep>,
}

/// A crate and the names of the crates that its releases depend on.
#[derive(Debug)]
pub struct CrateData {
    pub name: String,
    pub deps: Vec<String>,
}

/// Counters of what could not be read while scanning the index.
#[derive(Clone, Copy, Debug, Default, PartialEq, Eq, Structural)]
pub struct ErrorCounts {
    pub io_errors: usize,
    pub json_errors: usize,
    pub version_errors: usize,
}

/// The view of an optional string.
pub open spec fn opt_text(s: Option<String>) -> Option<Seq<char>> {
    match s {
        Some(t) => Some(t@),
        None => None,
    }
}

/// Normal dependencies (those without a kind, or of kind `normal`) are
/// kept; `dev` and `build` dependencies when the filters turn them on; no
/// other kind.
pub open spec fn kind_included(kind: Option<Seq<char>>, filters: DumpFilters) -> bool {
    match kind {
        None => true,
        Some(k) => if k == "normal"@ {
            true
        } else if k == "dev"@ {
            filters.include_dev
        } else if k == "build"@ {
            filters.include_build
        } else {
            false
        },
    }
}

/// A dependency is kept when its kind is kept and it is not optional, or
/// optional ones are kept.
pub open spec fn dep_included(dep: IndexDep, filters: DumpFilters) -> bool {
    &&& (!dep.optional || filters.include_optional)
    &&& kind_included(opt_text(dep.kind), filters)
}

/// The crate a dependency points at: its `package` when it was renamed,
/// otherwise its name.
pub open spec fn dep_target(dep: IndexDep) -> Seq<char> {
    match dep.package {
        Some(p) => p@,
        None => dep.name@,
    }
}

/// The crates that the kept dependencies of `deps` point at.
pub open spec fn included_dep_names(deps: Seq<IndexDep>, filters: DumpFilters) -> Set<Seq<char>> {
    Set::new(
        |n: Seq<char>|
            exists|i: int| 0 <= i < deps.len() && dep_included(#[trigger] deps[i], filters) && dep_target(deps[i]) == n,
    )
}

/// Whether a file of the index holds crate records: every file but the
/// index's `config.json` and `README.md`, and only files whose name is text.
pub fn is_index_file(file_name: Option<&str>) -> (r: bool)
    ensures
        r == match file_name {
            None => false,
            Some(n) => n@ != "config.json"@ && n@ != "README.md"@,
        },
{
    let name = match file_name {
        Some(name) => name,
        None => return false,
    };
    if text_eq_exec(name, "config.json") || text_eq_exec(name, "README.md") {
        return false;
    }
    true
}

fn dep_included_exec(dep: &IndexDep, filters: &DumpFilters) -> (r: bool)
    ensures
        r == dep_included(*dep, *filters),
{
    if dep.optional && !filters.include_optional {
        return false;
    }
    match &dep.kind {
        None => true,
        Some(kind) => {
            if text_eq_exec(kind.as_str(), "normal") {
                true
            } else if text_eq_exec(kind.as_str(), "dev") {
                proof {
                    reveal_strlit("normal");
                    reveal_strlit("dev");
                    assert("normal"@.len() == 6);
                    assert(kind@ != "normal"@);
                }
                filters.include_dev
            } else if text_eq_exec(kind.as_str(), "build") {
                proof {
                    reveal_strlit("normal");
                    reveal_strlit("dev");
                    reveal_strlit("build");
                    assert("normal"@.len() == 6);
                    assert(kind@ != "normal"@);
                    assert(kind@ != "dev"@);
                }
                filters.include_build
            } else {
                false
            }
        },
    }
}

fn dep_target_exec(dep: &IndexDep) -> (r: String)
    ensures
        r@ == dep_target(*dep),
{
    match &dep.package {
        Some(package) => package.clone(),
        None => dep.name.clone(),
    }
}

/// The crates that the kept dependencies point at, each once, in ascending
/// order.
pub fn filter_deps(deps: &[IndexDep], filters: &DumpFilters) -> (r: Vec<String>)
    ensures
        strictly_sorted_keys::<String>(views(r@)),
        views(r@).to_set() == included_dep_names(deps@, *filters),
{
    let mut kept: Vec<String> = Vec::new();
    let n = deps.len();
    for i in 0..n
        invariant
            n == deps@.len(),
            forall|k: int| 0 <= k < kept.len() ==> included_dep_names(deps@, *filters).contains(
                #[trigger] views(kept@)[k],
            ),
            forall|j: int|
                0 <= j < i && dep_included(#[trigger] deps@[j], *filters) ==> views(kept@).contains(
                    dep_target(deps@[j]),
                ),
    {
        let ghost old_kept = views(kept@);
        if dep_included_exec(&deps[i], filters) {
            kept.push(dep_target_exec(&deps[i]));
            proof {
                assert(views(kept@) =~= old_kept.push(dep_target(deps@[i as int])));
                assert forall|j: int|
                    0 <= j < i + 1 && dep_included(#[trigger] deps@[j], *filters) implies views(
                    kept@,
                ).contains(dep_target(deps@[j])) by {
                    if j < i {
                        let k = choose|k: int| 0 <= k < old_kept.len() && old_kept[k] == dep_target(deps@[j]);
                        assert(views(kept@)[k] == dep_target(deps@[j]));
                    } else {
                        assert(views(kept@)[old_kept.len() as int] == dep_target(deps@[j]));
                    }
                }
            }
        }
    }
    let ghost all = views(kept@);
    let r = sorted_unique(kept);
    proof {
        let names = included_dep_names(deps@, *filters);
        assert forall|e: Seq<char>| views(r@).to_set().contains(e) <==> names.contains(e) by {
            assert(views(r@).to_set().contains(e) == all.contains(e));
            if all.contains(e) {
                let k = choose|k: int| 0 <= k < all.len() && all[k] == e;
                assert(names.contains(all[k]));
            }
            if names.contains(e) {
                let j = choose|j: int| 0 <= j < deps@.len() && dep_included(#[trigger] deps@[j], *filters) && dep_target(deps@[j]) == e;
                assert(all.contains(dep_target(deps@[j])));
            }
        }
        assert(views(r@).to_set() =~= names);
    }
    r
}

/// Turning more kinds of dependency on never drops an edge: under filters
/// that keep at least what `f` keeps, at least the same names are kept.
pub proof fn lemma_filters_monotone(deps: Seq<IndexDep>, f: DumpFilters, g: DumpFilters)
    requires
        f.include_optional ==> g.include_optional,
        f.include_dev ==> g.include_dev,
        f.include_build ==> g.include_build,
    ensures
        included_dep_names(deps, f).subset_of(included_dep_names(deps, g)),
{
    assert forall|n: Seq<char>| included_dep_names(deps, f).contains(n) implies included_dep_names(deps, g).contains(n) by {
        let i = choose|i: int| 0 <= i < deps.len() && dep_included(#[trigger] deps[i], f) && dep_target(deps[i]) == n;
        assert(dep_included(deps[i], g));
    }
}

/// Which dependencies are kept, told by what each filter lets through: an
/// optional dependency needs `include_optional`, a `dev` one `include_dev`
/// and a `build` one `include_build`, optional or not; a dependency of any
/// other kind than `normal`, `dev` or `build` is never kept; and a
/// dependency that meets all of these is kept.
pub proof fn lemma_kept_dependency_gates(d: IndexDep, f: DumpFilters)
    ensures
        dep_included(d, f) && d.optional ==> f.include_optional,
        dep_included(d, f) && opt_text(d.kind) == Some("dev"@) ==> f.include_dev,
        dep_included(d, f) && opt_text(d.kind) == Some("build"@) ==> f.include_build,
        dep_included(d, f) && d.kind is Some ==> opt_text(d.kind) == Some("normal"@) || opt_text(d.kind) == Some("dev"@)
            || opt_text(d.kind) == Some("build"@),
        (!d.optional || f.include_optional) && (d.kind is None || opt_text(d.kind) == Some("normal"@) || (opt_text(
            d.kind,
        ) == Some("dev"@) && f.include_dev) || (opt_text(d.kind) == Some("build"@) && f.include_build)) ==> dep_included(d, f),
{
    reveal_strlit("normal");
    reveal_strlit("dev");
    reveal_strlit("build");
    assert("dev"@.len() != "normal"@.len());
    assert("build"@.len() != "normal"@.len());
    assert("build"@.len() != "dev"@.len());
}

/// Every kept crate is the target of a dependency that the filters let
/// through: of a kind that is on, and optional only when optional
/// dependencies are on.
pub proof fn lemma_kept_names_pass_the_filters(deps: Seq<IndexDep>, f: DumpFilters, n: Seq<char>)
    requires
        included_dep_names(deps, f).contains(n),
    ensures
        exists|i: int|
            0 <= i < deps.len() && dep_target(#[trigger] deps[i]) == n && (deps[i].optional ==> f.include_optional) && (
            opt_text(deps[i].kind) == Some("dev"@) ==> f.include_dev) && (opt_text(deps[i].kind) == Some("build"@)
                ==> f.include_build) && (deps[i].kind is Some ==> opt_text(deps[i].kind) == Some("normal"@) || opt_text(
            deps[i].kind,
        ) == Some("dev"@) || opt_text(deps[i].kind) == Some("build"@)),
{
    let i = choose|i: int| 0 <= i < deps.len() && dep_included(#[trigger] deps[i], f) && dep_target(deps[i]) == n;
    lemma_kept_dependency_gates(deps[i], f);
}

/// Under the default filters (nothing extra turned on) the kept crates are
/// those of the non-optional dependencies of kind `normal` (or of no kind).
pub proof fn lemma_default_filters_keep_required(deps: Seq<IndexDep>)
    ensures
        included_dep_names(deps, DumpFilters { include_optional: false, include_dev: false, include_build: false })
            == Set::new(|n: Seq<char>| exists|i: int| 0 <= i < deps.len() && {
                let d = #[trigger] deps[i];
                &&& !d.optional
                &&& (d.kind is None || opt_text(d.kind) == Some("normal"@))
                &&& dep_target(d) == n
            }),
{
    let f = DumpFilters { include_optional: false, include_dev: false, include_build: false };
    let want = Set::new(|n: Seq<char>| exists|i: int| 0 <= i < deps.len() && {
        let d = #[trigger] deps[i];
        &&& !d.optional
        &&& (d.kind is None || opt_text(d.kind) == Some("normal"@))
        &&& dep_target(d) == n
    });
    assert forall|n: Seq<char>| included_dep_names(deps, f).contains(n) <==> want.contains(n) by {
        if included_dep_names(deps, f).contains(n) {
            let i = choose|i: int| 0 <= i < deps.len() && dep_included(#[trigger] deps[i], f) && dep_target(deps[i]) == n;
            assert(!deps[i].optional);
        }
        if want.contains(n) {
            let i = choose|i: int| 0 <= i < deps.len() && {
                let d = #[trigger] deps[i];
                &&& !d.optional
                &&& (d.kind is None || opt_text(d.kind) == Some("normal"@))
                &&& dep_target(d) == n
            };
            assert(dep_included(deps[i], f));
        }
    }
    assert(included_dep_names(deps, f) =~= want);
}

/// The kept crates depend only on which dependencies there are, not on
/// their order or repetition: two lists of the same dependencies give the
/// same result of `filter_deps` (one strictly ascending list of names).
pub proof fn lemma_filter_deps_set_determined(
    deps1: Seq<IndexDep>,
    deps2: Seq<IndexDep>,
    filters: DumpFilters,
    kept1: Seq<Seq<char>>,
    kept2: Seq<Seq<char>>,
)
    requires
        deps1.to_set() == deps2.to_set(),
        strictly_sorted_keys::<String>(kept1),
        kept1.to_set() == included_dep_names(deps1, filters),
        strictly_sorted_keys::<String>(kept2),
        kept2.to_set() == included_dep_names(deps2, filters),
    ensures
        kept1 == kept2,
{
    assert forall|n: Seq<char>| included_dep_names(deps1, filters).contains(n) <==> included_dep_names(deps2, filters).contains(n) by {
        if included_dep_names(deps1, filters).contains(n) {
            let i = choose|i: int| 0 <= i < deps1.len() && dep_included(#[trigger] deps1[i], filters) && dep_target(deps1[i]) == n;
            assert(deps1.to_set().contains(deps1[i]));
            assert(deps2.contains(deps1[i]));
            let j = choose|j: int| 0 <= j < deps2.len() && deps2[j] == deps1[i];
            assert(dep_included(deps2[j], filters));
        }
        if included_dep_names(deps2, filters).contains(n) {
            let i = choose|i: int| 0 <= i < deps2.len() && dep_included(#[trigger] deps2[i], filters) && dep_target(deps2[i]) == n;
            assert(deps2.to_set().contains(deps2[i]));
            assert(deps1.contains(deps2[i]));
            let j = choose|j: int| 0 <= j < deps1.len() && deps1[j] == deps2[i];
            assert(dep_included(deps1[j], filters));
        }
    }
    assert(kept1.to_set() =~= kept2.to_set());
    lemma_strictly_sorted_unique::<String>(kept1, kept2);
}

} // verus!
