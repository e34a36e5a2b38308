//! The crates dump: the result of one scan of the index, kept so that a
//! later run with the same index and filters can reuse it.

use vstd::prelude::*;
use crate::order::text_eq_exec;
use crate::index::{CrateData, DumpFilters, ErrorCounts};
use crate::release::{
    IndexLine, crate_from_index_lines, has_record, is_crate_name, release_dep_names, malformed_count,
    bad_version_count,
};
use crate::sort::{views, strictly_sorted_keys};

verus! {

/// What a scan of the index found.
#[derive(Debug)]
pub struct CrateDump {
    pub index_path: String,
    pub filters: DumpFilters,
    pub files_scanned: usize,
    /// Readable index files that hold no release record.
    pub skipped_yanked_only: usize,
    pub errors: ErrorCounts,
    pub crates: Vec<CrateData>,
}

/// A stored dump is reused only when it was built from the same index path
/// and under the same filters.
pub fn accept_dump(dump: CrateDump, index_path: &str, filters: &DumpFilters) -> (r: Option<CrateDump>)
    ensures
        r is Some <==> (dump.index_path@ == index_path@ && dump.filters == *filters),
        r matches Some(d) ==> d == dump,
{
    if !text_eq_exec(dump.index_path.as_str(), index_path) {
        return None;
    }
    if dump.filters != *filters {
        return None;
    }
    Some(dump)
}

/// The running totals of a scan of the index.
#[derive(Debug)]
pub struct DumpScan {
    pub crates: Vec<CrateData>,
    pub errors: ErrorCounts,
    pub files_scanned: usize,
    /// Readable index files that hold no release record.
    pub skipped_yanked_only: usize,
}

/// `c` is the crate that the lines stand for, under the filters.
pub open spec fn is_crate_of_lines(c: CrateData, lines: Seq<IndexLine>, filters: DumpFilters) -> bool {
    &&& has_record(lines)
    &&& is_crate_name(lines, c.name@)
    &&& strictly_sorted_keys::<String>(views(c.deps@))
    &&& views(c.deps@).to_set() == release_dep_names(lines, filters)
}

impl DumpScan {
    /// Every crate kept and every file skipped was a scanned index file.
    pub open spec fn tally_consistent(&self) -> bool {
        self.crates@.len() + self.skipped_yanked_only <= self.files_scanned
    }

    /// A scan that has seen nothing.
    pub fn new() -> (s: DumpScan)
        ensures
            s.crates@.len() == 0,
            s.errors == (ErrorCounts { io_errors: 0, json_errors: 0, version_errors: 0 }),
            s.files_scanned == 0,
            s.skipped_yanked_only == 0,
            s.tally_consistent(),
    {
        DumpScan {
            crates: Vec::new(),
            errors: ErrorCounts { io_errors: 0, json_errors: 0, version_errors: 0 },
            files_scanned: 0,
            skipped_yanked_only: 0,
        }
    }

    /// An entry of the index directory could not be read.
    pub fn record_walk_error(&mut self)
        requires
            old(self).errors.io_errors < usize::MAX,
        ensures
            final(self).errors.io_errors == old(self).errors.io_errors + 1,
            final(self).errors.json_errors == old(self).errors.json_errors,
            final(self).errors.version_errors == old(self).errors.version_errors,
            final(self).crates@ == old(self).crates@,
            final(self).files_scanned == old(self).files_scanned,
            final(self).skipped_yanked_only == old(self).skipped_yanked_only,
            old(self).tally_consistent() ==> final(self).tally_consistent(),
    {
        self.errors.io_errors = self.errors.io_errors + 1;
    }

    /// Takes in one index file: the lines read from it, and whether reading
    /// it failed before its end. A file that could not be read counts as an
    /// I/O error; otherwise its crate is added, or, when not one of its lines
    /// is a release record, the file counts as skipped. Lines that were read
    /// count their errors either way.
    pub fn scan_index_file(&mut self, lines: &Vec<IndexLine>, read_failed: bool, filters: &DumpFilters)
        requires
            old(self).files_scanned < usize::MAX,
            old(self).skipped_yanked_only < usize::MAX,
            old(self).errors.io_errors < usize::MAX,
            old(self).errors.json_errors + lines@.len() <= usize::MAX,
            old(self).errors.version_errors + lines@.len() <= usize::MAX,
        ensures
            final(self).files_scanned == old(self).files_scanned + 1,
            old(self).tally_consistent() ==> final(self).tally_consistent(),
            final(self).errors.json_errors == old(self).errors.json_errors + malformed_count(lines@),
            final(self).errors.version_errors == old(self).errors.version_errors + bad_version_count(lines@),
            read_failed ==> {
                &&& final(self).errors.io_errors == old(self).errors.io_errors + 1
                &&& final(self).crates@ == old(self).crates@
                &&& final(self).skipped_yanked_only == old(self).skipped_yanked_only
            },
            !read_failed && !has_record(lines@) ==> {
                &&& final(self).errors.io_errors == old(self).errors.io_errors
                &&& final(self).crates@ == old(self).crates@
                &&& final(self).skipped_yanked_only == old(self).skipped_yanked_only + 1
            },
            !read_failed && has_record(lines@) ==> {
                &&& final(self).errors.io_errors == old(self).errors.io_errors
                &&& final(self).crates@.len() == old(self).crates@.len() + 1
                &&& final(self).crates@.drop_last() == old(self).crates@
                &&& is_crate_of_lines(final(self).crates@.last(), lines@, *filters)
                &&& final(self).skipped_yanked_only == old(self).skipped_yanked_only
            },
    {
        self.files_scanned = self.files_scanned + 1;
        let found = crate_from_index_lines(lines, filters, &mut self.errors);
        if read_failed {
            self.errors.io_errors = self.errors.io_errors + 1;
            return;
        }
        match found {
            Some(data) => {
                self.crates.push(data);
                proof {
                    assert(self.crates@.drop_last() =~= old(self).crates@);
                }
            },
            None => {
                self.skipped_yanked_only = self.skipped_yanked_only + 1;
            },
        }
    }

    /// The dump of this scan, for the given index path and filters.
    pub fn into_dump(self, index_path: String, filters: DumpFilters) -> (d: CrateDump)
        ensures
            d.index_path == index_path,
            d.filters == filters,
            d.files_scanned == self.files_scanned,
            d.skipped_yanked_only == self.skipped_yanked_only,
            d.errors == self.errors,
            d.crates == self.crates,
    {
        CrateDump {
            index_path,
            filters,
            files_scanned: self.files_scanned,
            skipped_yanked_only: self.skipped_yanked_only,
            errors: self.errors,
            crates: self.crates,
        }
    }
}

} // verus!
