//! Category and keyword labels of crates, from the tables of a crates.io
//! database dump.

use vstd::prelude::*;
use std::collections::HashMap;
use crate::order::{SortKey, text_eq_exec, text_le, lemma_text_le_facts, id_text_le};
use crate::sort::{views, sorted_keys, strictly_sorted_keys, sorted_unique, dedup_sorted, lemma_views_push};

verus! {

/// `c` is an ASCII digit.
pub open spec fn is_digit(c: char) -> bool {
    '0' <= c <= '9'
}

/// The value of a sequence of decimal digits.
pub open spec fn digits_value(s: Seq<char>) -> int
    decreases s.len(),
{
    if s.len() == 0 {
        0
    } else {
        digits_value(s.drop_last()) * 10 + (s.last() as int - '0' as int)
    }
}

/// `s` is one or more decimal digits.
pub open spec fn all_digits(s: Seq<char>) -> bool {
    s.len() > 0 && forall|i: int| 0 <= i < s.len() ==> is_digit(#[trigger] s[i])
}

/// The integer that a text writes in the syntax of `i64`'s `FromStr`: an
/// optional `+` or `-`, then one or more decimal digits.
pub open spec fn signed_value(s: Seq<char>) -> Option<int> {
    if s.len() > 0 && s[0] == '-' {
        if all_digits(s.drop_first()) {
            Some(-digits_value(s.drop_first()))
        } else {
            None
        }
    } else if s.len() > 0 && s[0] == '+' {
        if all_digits(s.drop_first()) {
            Some(digits_value(s.drop_first()))
        } else {
            None
        }
    } else if all_digits(s) {
        Some(digits_value(s))
    } else {
        None
    }
}

/// What `str::parse::<i64>` gives: the written integer, when it fits.
pub open spec fn parsed_i64(s: Seq<char>) -> Option<i64> {
    match signed_value(s) {
        Some(v) => if i64::MIN <= v <= i64::MAX {
            Some(v as i64)
        } else {
            None
        },
        None => None,
    }
}

proof fn lemma_digits_value_nonneg(s: Seq<char>)
    requires
        forall|i: int| 0 <= i < s.len() ==> is_digit(#[trigger] s[i]),
    ensures
        digits_value(s) >= 0,
    decreases s.len(),
{
    if s.len() > 0 {
        lemma_digits_value_nonneg(s.drop_last());
    }
}

/// The characters of a string.
fn chars_of(s: &str) -> (v: Vec<char>)
    ensures
        v@ == s@,
{
    broadcast use vstd::string::group_string_axioms;

    let mut v: Vec<char> = Vec::new();
    for c in it: s.chars()
        invariant
            it.seq() == s@,
            v@ == s@.take(it.index()),
    {
        v.push(c);
        proof {
            assert(v@ =~= s@.take(it.index() + 1));
        }
    }
    proof {
        assert(s@.take(s@.len() as int) =~= s@);
    }
    v
}

/// Parses a decimal `i64` as `str::parse::<i64>` does.
pub fn parse_i64(text: &str) -> (r: Option<i64>)
    ensures
        r == parsed_i64(text@),
{
    let v = chars_of(text);
    let n = v.len();
    if n == 0 {
        return None;
    }
    let neg = v[0] == '-';
    let start: usize = if v[0] == '-' || v[0] == '+' { 1 } else { 0 };
    if start == n {
        return None;
    }
    let limit: u128 = 0x8000_0000_0000_0000;
    let mut acc: u128 = 0;
    let mut i: usize = start;
    proof {
        assert(v@.subrange(start as int, start as int) =~= Seq::<char>::empty());
    }
    while i < n
        invariant
            v@ == text@,
            n == v@.len(),
            start <= i <= n,
            start == (if v@[0] == '-' || v@[0] == '+' { 1usize } else { 0usize }),
            start < n,
            limit == 0x8000_0000_0000_0000u128,
            forall|k: int| start <= k < i ==> is_digit(#[trigger] v@[k]),
            acc <= limit * 10 + 9,
            acc <= limit ==> acc == digits_value(v@.subrange(start as int, i as int)),
            acc > limit ==> digits_value(v@.subrange(start as int, i as int)) > limit,
        decreases n - i,
    {
        let c = v[i];
        if !('0' <= c && c <= '9') {
            proof {
                let rest = v@.subrange(start as int, n as int);
                assert(rest[i - start] == c);
                assert(!all_digits(rest));
                if start == 1 {
                    assert(rest =~= v@.drop_first());
                } else {
                    assert(rest =~= v@);
                }
            }
            return None;
        }
        let d = (c as u32 - '0' as u32) as u128;
        proof {
            let sub = v@.subrange(start as int, i + 1);
            assert(sub.drop_last() =~= v@.subrange(start as int, i as int));
            assert(sub.last() == c);
            lemma_digits_value_nonneg(v@.subrange(start as int, i as int));
        }
        if acc <= limit {
            acc = acc * 10 + d;
        }
        i = i + 1;
    }
    proof {
        let rest = v@.subrange(start as int, n as int);
        if start == 1 {
            assert(rest =~= v@.drop_first());
        } else {
            assert(rest =~= v@);
        }
        assert(all_digits(rest));
    }
    if neg {
        if acc <= limit {
            let m = acc as i128;
            Some((0 - m) as i64)
        } else {
            None
        }
    } else if acc < limit {
        Some(acc as i64)
    } else {
        None
    }
}


/// The position of the first header equal to `name`.
pub fn header_index(headers: &Vec<String>, name: &str) -> (r: Option<usize>)
    ensures
        match r {
            Some(i) => column_of(header_view(*headers), name@) == Some(i as int),
            None => column_of(header_view(*headers), name@) is None,
        },
{
    let ghost h = header_view(*headers);
    let n = headers.len();
    for i in 0..n
        invariant
            n == headers@.len(),
            h == header_view(*headers),
            h.len() == n,
            forall|j: int| 0 <= j < i ==> #[trigger] h[j] != name@,
    {
        if text_eq_exec(headers[i].as_str(), name) {
            proof {
                assert(h[i as int] == headers@[i as int]@);
                lemma_column_of(h, name@, i as int);
            }
            return Some(i);
        }
        proof {
            assert(h[i as int] == headers@[i as int]@);
        }
    }
    None
}

/// Why a table of the dump could not give what the labels need: its header
/// row could not be read as CSV, it lacks a column, or one of its records
/// could not be read as CSV.
#[derive(Debug)]
pub enum LabelError {
    UnreadableHeader,
    MissingColumn(String),
    BadRecord,
}

/// The position of the first header equal to `name`, if any.
pub open spec fn column_of(headers: Seq<Seq<char>>, name: Seq<char>) -> Option<int> {
    if exists|j: int| 0 <= j < headers.len() && #[trigger] headers[j] == name {
        Some(choose|j: int| 0 <= j < headers.len() && #[trigger] headers[j] == name
            && forall|k: int| 0 <= k < j ==> #[trigger] headers[k] != name)
    } else {
        None
    }
}

/// The field of a record at a column, parsed as an id.
pub open spec fn id_field(record: Seq<Seq<char>>, col: int) -> Option<i64> {
    if 0 <= col < record.len() {
        parsed_i64(record[col])
    } else {
        None
    }
}

proof fn lemma_column_of(headers: Seq<Seq<char>>, name: Seq<char>, i: int)
    requires
        0 <= i < headers.len(),
        headers[i] == name,
        forall|j: int| 0 <= j < i ==> #[trigger] headers[j] != name,
    ensures
        column_of(headers, name) == Some(i),
{
    assert(headers[i] == name);
    let c = choose|j: int| 0 <= j < headers.len() && #[trigger] headers[j] == name
        && forall|k: int| 0 <= k < j ==> #[trigger] headers[k] != name;
    if c < i {
        assert(headers[c] != name);
    }
    if c > i {
        assert(headers[i] != name);
    }
}

/// The fields of each record of a table, as text.
pub open spec fn table_view(records: Seq<Vec<String>>) -> Seq<Seq<Seq<char>>> {
    records.map_values(|r: Vec<String>| views(r@))
}

/// The fields of a header row, as text.
pub open spec fn header_view(headers: Vec<String>) -> Seq<Seq<char>> {
    views(headers@)
}

/// The (id, name) pairs of the records whose id field parses and whose name
/// field exists, in the order of the records.
pub open spec fn id_name_pairs(records: Seq<Seq<Seq<char>>>, id_col: int, name_col: int) -> Seq<(i64, Seq<char>)>
    decreases records.len(),
{
    if records.len() == 0 {
        Seq::empty()
    } else {
        let r = records.last();
        id_name_pairs(records.drop_last(), id_col, name_col) + match id_field(r, id_col) {
            Some(id) => if 0 <= name_col < r.len() {
                seq![(id, r[name_col])]
            } else {
                Seq::empty()
            },
            None => Seq::empty(),
        }
    }
}

/// The (left, right) id pairs of the records whose two fields parse, in the
/// order of the records.
pub open spec fn relation_pairs(records: Seq<Seq<Seq<char>>>, left_col: int, right_col: int) -> Seq<(i64, i64)>
    decreases records.len(),
{
    if records.len() == 0 {
        Seq::empty()
    } else {
        let r = records.last();
        relation_pairs(records.drop_last(), left_col, right_col) + match (id_field(r, left_col), id_field(r, right_col)) {
            (Some(a), Some(b)) => seq![(a, b)],
            _ => Seq::empty(),
        }
    }
}

/// The field of a record at a column, if the record has it.
fn field<'a>(record: &'a Vec<String>, col: usize) -> (r: Option<&'a String>)
    ensures
        match r {
            Some(f) => col < record@.len() && *f == record@[col as int],
            None => col >= record@.len(),
        },
{
    if col < record.len() {
        Some(&record[col])
    } else {
        None
    }
}

/// The id of a record at a column, if the field exists and parses.
fn id_at(record: &Vec<String>, col: usize) -> (r: Option<i64>)
    ensures
        r == id_field(views(record@), col as int),
{
    match field(record, col) {
        Some(f) => parse_i64(f.as_str()),
        None => None,
    }
}

/// The rows that the records give, with the two columns at the given
/// positions.
fn read_id_name_rows(records: &Vec<Vec<String>>, id_idx: usize, name_idx: usize) -> (rows: Vec<(i64, String)>)
    ensures
        views(rows@) == id_name_pairs(table_view(records@), id_idx as int, name_idx as int),
{
    let mut rows: Vec<(i64, String)> = Vec::new();
    let ghost tv = table_view(records@);
    let n = records.len();
    assert(forall|j: int| 0 <= j < n ==> #[trigger] tv[j] == views(records@[j]@));
    for k in 0..n
        invariant
            n == records@.len(),
            tv.len() == n,
            forall|j: int| 0 <= j < n ==> #[trigger] tv[j] == views(records@[j]@),
            views(rows@) == id_name_pairs(tv.take(k as int), id_idx as int, name_idx as int),
    {
        proof {
            assert(tv.take(k + 1).drop_last() =~= tv.take(k as int));
            assert(tv.take(k + 1).last() == tv[k as int]);
        }
        let record = &records[k];
        let id = id_at(record, id_idx);
        let name = field(record, name_idx);
        if let (Some(id), Some(name)) = (id, name) {
            let ghost before = rows@;
            let row = (id, name.clone());
            rows.push(row);
            proof {
                lemma_views_push(before, row);
            }
        }
        proof {
            assert(views(rows@) =~= id_name_pairs(tv.take(k + 1), id_idx as int, name_idx as int));
        }
    }
    proof {
        assert(tv.take(n as int) =~= tv);
    }
    rows
}

/// Reads an id-to-name table: finds its two columns by header, then keeps
/// each record whose id parses as an `i64` and whose name field exists.
pub fn read_id_name(headers: &Vec<String>, records: &Vec<Vec<String>>, id_col: &str, name_col: &str)
    -> (r: Result<Vec<(i64, String)>, LabelError>)
    ensures
        match (column_of(header_view(*headers), id_col@), column_of(header_view(*headers), name_col@)) {
            (Some(i), Some(j)) => r matches Ok(rows) && views(rows@) == id_name_pairs(table_view(records@), i, j),
            (None, _) => r matches Err(LabelError::MissingColumn(c)) && c@ == id_col@,
            (Some(_), None) => r matches Err(LabelError::MissingColumn(c)) && c@ == name_col@,
        },
{
    let id_idx = match header_index(headers, id_col) {
        Some(i) => i,
        None => return Err(LabelError::MissingColumn(id_col.to_owned())),
    };
    let name_idx = match header_index(headers, name_col) {
        Some(i) => i,
        None => return Err(LabelError::MissingColumn(name_col.to_owned())),
    };
    let rows = read_id_name_rows(records, id_idx, name_idx);
    Ok(rows)
}

/// The rows that the records give, with the two columns at the given
/// positions.
fn read_relation_rows(records: &Vec<Vec<String>>, left_idx: usize, right_idx: usize) -> (rows: Vec<(i64, i64)>)
    ensures
        rows@ == relation_pairs(table_view(records@), left_idx as int, right_idx as int),
{
    let mut rows: Vec<(i64, i64)> = Vec::new();
    let ghost tv = table_view(records@);
    let n = records.len();
    assert(forall|j: int| 0 <= j < n ==> #[trigger] tv[j] == views(records@[j]@));
    for k in 0..n
        invariant
            n == records@.len(),
            tv.len() == n,
            forall|j: int| 0 <= j < n ==> #[trigger] tv[j] == views(records@[j]@),
            rows@ == relation_pairs(tv.take(k as int), left_idx as int, right_idx as int),
    {
        proof {
            assert(tv.take(k + 1).drop_last() =~= tv.take(k as int));
            assert(tv.take(k + 1).last() == tv[k as int]);
        }
        let record = &records[k];
        let left = id_at(record, left_idx);
        let right = id_at(record, right_idx);
        if let (Some(left), Some(right)) = (left, right) {
            rows.push((left, right));
        }
        proof {
            assert(rows@ =~= relation_pairs(tv.take(k + 1), left_idx as int, right_idx as int));
        }
    }
    proof {
        assert(tv.take(n as int) =~= tv);
    }
    rows
}

/// Reads a table that relates two kinds of ids: finds its two columns by
/// header, then keeps each record whose two fields parse as `i64`.
pub fn read_relation(headers: &Vec<String>, records: &Vec<Vec<String>>, left_col: &str, right_col: &str)
    -> (r: Result<Vec<(i64, i64)>, LabelError>)
    ensures
        match (column_of(header_view(*headers), left_col@), column_of(header_view(*headers), right_col@)) {
            (Some(i), Some(j)) => r matches Ok(rows) && rows@ == relation_pairs(table_view(records@), i, j),
            (None, _) => r matches Err(LabelError::MissingColumn(c)) && c@ == left_col@,
            (Some(_), None) => r matches Err(LabelError::MissingColumn(c)) && c@ == right_col@,
        },
{
    let left_idx = match header_index(headers, left_col) {
        Some(i) => i,
        None => return Err(LabelError::MissingColumn(left_col.to_owned())),
    };
    let right_idx = match header_index(headers, right_col) {
        Some(i) => i,
        None => return Err(LabelError::MissingColumn(right_col.to_owned())),
    };
    let rows = read_relation_rows(records, left_idx, right_idx);
    Ok(rows)
}


/// What `csv::Reader` reads from the bytes of a table: the header row, when
/// it can be read; the records that can be read before the first that
/// cannot; and whether one could not be read.
pub uninterp spec fn csv_table(text: Seq<u8>) -> (Option<Seq<Seq<char>>>, Seq<Seq<Seq<char>>>, bool);

/// Records that CSV writes and reads back unchanged: at least one record
/// (the first is the header row), all with the same number of fields, at
/// least one, and a header whose first field does not start with a byte
/// order mark (which a reader strips from the start of its input).
pub open spec fn csv_round_trips(records: Seq<Seq<Seq<char>>>) -> bool {
    &&& records.len() >= 1
    &&& records[0].len() >= 1
    &&& forall|i: int| 0 <= i < records.len() ==> #[trigger] records[i].len() == records[0].len()
    &&& !(records[0][0].len() > 0 && records[0][0][0] == '\u{feff}')
}

/// Reads a table with `csv::Reader::from_reader`: `headers`, then `records`
/// up to the first error. Claimed: the result is `csv_table` of the bytes,
/// each field taken as its text; when the header row cannot be read, no
/// record is read; and the reader's defaults (comma, double quote, `""`
/// inside quotes for a quote, no comments, no trimming) read back what
/// `csv::Writer`'s defaults write: from `csv_encoded` of records that
/// `csv_round_trips` admits it reads the first as the header row and the
/// rest as the records, with no error.
#[verifier::external_body]
fn read_csv_table(text: &[u8]) -> (t: (Option<Vec<String>>, Vec<Vec<String>>, bool))
    ensures
        forall|rs: Seq<Seq<Seq<char>>>|
            #[trigger] csv_encoded(rs) == text@ && csv_round_trips(rs) ==> !t.2 && t.0 is Some && header_view(t.0->0)
                == rs[0] && table_view(t.1@) == rs.drop_first(),
        csv_table(text@).0 == (match t.0 {
            Some(h) => Some(header_view(h)),
            None => None::<Seq<Seq<char>>>,
        }),
        csv_table(text@).1 == table_view(t.1@),
        csv_table(text@).2 == t.2,
        t.0 is None ==> t.1@.len() == 0 && !t.2,
{
    let mut reader = csv::Reader::from_reader(text);
    let header: Vec<String> = match reader.headers() {
        Ok(h) => h.iter().map(|f| f.to_string()).collect(),
        Err(_) => return (None, Vec::new(), false),
    };
    let mut records = Vec::new();
    for record in reader.records() {
        match record {
            Ok(r) => records.push(r.iter().map(|f| f.to_string()).collect()),
            Err(_) => return (Some(header), records, true),
        }
    }
    (Some(header), records, false)
}

/// Reads an id-to-name table from the bytes of a CSV file: its header row
/// must read, then its two columns must exist, then every record must read;
/// the rows are those that `read_id_name` keeps.
pub fn read_id_name_table(text: &[u8], id_col: &str, name_col: &str) -> (r: Result<Vec<(i64, String)>, LabelError>)
    ensures
        match csv_table(text@) {
            (None, _, _) => r matches Err(LabelError::UnreadableHeader),
            (Some(h), records, failed) => match (column_of(h, id_col@), column_of(h, name_col@)) {
                (Some(i), Some(j)) => if failed {
                    r matches Err(LabelError::BadRecord)
                } else {
                    r matches Ok(rows) && views(rows@) == id_name_pairs(records, i, j)
                },
                (None, _) => r matches Err(LabelError::MissingColumn(c)) && c@ == id_col@,
                (Some(_), None) => r matches Err(LabelError::MissingColumn(c)) && c@ == name_col@,
            },
        },
{
    let (header, records, failed) = read_csv_table(text);
    match header {
        None => Err(LabelError::UnreadableHeader),
        Some(h) => match read_id_name(&h, &records, id_col, name_col) {
            Err(e) => Err(e),
            Ok(rows) => if failed {
                Err(LabelError::BadRecord)
            } else {
                Ok(rows)
            },
        },
    }
}

/// Reads a table that relates two kinds of ids from the bytes of a CSV
/// file: its header row must read, then its two columns must exist, then
/// every record must read; the rows are those that `read_relation` keeps.
pub fn read_relation_table(text: &[u8], left_col: &str, right_col: &str) -> (r: Result<Vec<(i64, i64)>, LabelError>)
    ensures
        match csv_table(text@) {
            (None, _, _) => r matches Err(LabelError::UnreadableHeader),
            (Some(h), records, failed) => match (column_of(h, left_col@), column_of(h, right_col@)) {
                (Some(i), Some(j)) => if failed {
                    r matches Err(LabelError::BadRecord)
                } else {
                    r matches Ok(rows) && rows@ == relation_pairs(records, i, j)
                },
                (None, _) => r matches Err(LabelError::MissingColumn(c)) && c@ == left_col@,
                (Some(_), None) => r matches Err(LabelError::MissingColumn(c)) && c@ == right_col@,
            },
        },
{
    let (header, records, failed) = read_csv_table(text);
    match header {
        None => Err(LabelError::UnreadableHeader),
        Some(h) => match read_relation(&h, &records, left_col, right_col) {
            Err(e) => Err(e),
            Ok(rows) => if failed {
                Err(LabelError::BadRecord)
            } else {
                Ok(rows)
            },
        },
    }
}

broadcast use vstd::std_specs::hash::group_hash_axioms;

/// The id-to-name table that a list of rows gives: a later row for an id
/// replaces an earlier one.
pub open spec fn name_map(rows: Seq<(i64, String)>) -> Map<i64, Seq<char>>
    decreases rows.len(),
{
    if rows.len() == 0 {
        Map::empty()
    } else {
        name_map(rows.drop_last()).insert(rows.last().0, rows.last().1@)
    }
}

/// The (crate id, label) pairs: one for each related pair whose label id has
/// a name.
pub open spec fn label_pairs(rel: Seq<(i64, i64)>, names: Map<i64, Seq<char>>) -> Set<(i64, Seq<char>)> {
    Set::new(
        |p: (i64, Seq<char>)|
            exists|i: int|
                0 <= i < rel.len() && names.contains_key(#[trigger] rel[i].1) && p == (rel[i].0, names[rel[i].1]),
    )
}

/// The labels of one crate id.
pub open spec fn labels_of(id: i64, rel: Seq<(i64, i64)>, names: Map<i64, Seq<char>>) -> Set<Seq<char>> {
    Set::new(|n: Seq<char>| label_pairs(rel, names).contains((id, n)))
}

/// The crate ids that have at least one label.
pub open spec fn labelled_ids(rel: Seq<(i64, i64)>, names: Map<i64, Seq<char>>) -> Set<i64> {
    Set::new(|id: i64| exists|n: Seq<char>| label_pairs(rel, names).contains((id, n)))
}

/// The table of names by id.
fn name_table(rows: &Vec<(i64, String)>) -> (m: HashMap<i64, String>)
    ensures
        forall|k: i64| #[trigger] m@.contains_key(k) == name_map(rows@).contains_key(k),
        forall|k: i64| #[trigger] m@.contains_key(k) ==> m@[k]@ == name_map(rows@)[k],
{
    let mut m: HashMap<i64, String> = HashMap::new();
    let n = rows.len();
    for i in 0..n
        invariant
            n == rows@.len(),
            forall|k: i64| #[trigger] m@.contains_key(k) == name_map(rows@.take(i as int)).contains_key(k),
            forall|k: i64| #[trigger] m@.contains_key(k) ==> m@[k]@ == name_map(rows@.take(i as int))[k],
    {
        proof {
            assert(rows@.take(i + 1).drop_last() =~= rows@.take(i as int));
        }
        m.insert(rows[i].0, rows[i].1.clone());
    }
    proof {
        assert(rows@.take(n as int) =~= rows@);
    }
    m
}

/// The distinct ids of the rows, ascending.
fn sorted_ids(rows: &Vec<(i64, String)>) -> (ids: Vec<i64>)
    ensures
        strictly_sorted_keys::<i64>(views(ids@)),
        forall|k: i64| #[trigger] views(ids@).contains(k) == name_map(rows@).contains_key(k),
{
    let mut all: Vec<i64> = Vec::new();
    let n = rows.len();
    for i in 0..n
        invariant
            n == rows@.len(),
            all@.len() == i,
            forall|k: i64| #[trigger] views(all@).contains(k) == name_map(rows@.take(i as int)).contains_key(k),
    {
        proof {
            assert(rows@.take(i + 1).drop_last() =~= rows@.take(i as int));
        }
        let ghost before = all@;
        all.push(rows[i].0);
        proof {
            lemma_views_push(before, rows@[i as int].0);
            assert forall|k: i64| #[trigger] views(all@).contains(k) == name_map(rows@.take(i + 1)).contains_key(k) by {
                if views(before).contains(k) {
                    let j = choose|j: int| 0 <= j < views(before).len() && views(before)[j] == k;
                    assert(views(all@)[j] == k);
                }
                if views(all@).contains(k) && k != rows@[i as int].0 {
                    let j = choose|j: int| 0 <= j < views(all@).len() && views(all@)[j] == k;
                    assert(views(before)[j] == k);
                }
                if k == rows@[i as int].0 {
                    assert(views(all@)[i as int] == k);
                }
            }
        }
    }
    proof {
        assert(rows@.take(n as int) =~= rows@);
    }
    let ghost listed = views(all@);
    let ids = sorted_unique(all);
    proof {
        assert forall|k: i64| #[trigger] views(ids@).contains(k) == name_map(rows@).contains_key(k) by {
            assert(views(ids@).to_set().contains(k) == listed.to_set().contains(k));
        }
    }
    ids
}


/// The (crate id, label) pairs, each once, ascending.
fn label_pair_list(rel: &Vec<(i64, i64)>, names: &HashMap<i64, String>, Ghost(nm): Ghost<Map<i64, Seq<char>>>)
    -> (r: Vec<(i64, String)>)
    requires
        forall|k: i64| #[trigger] names@.contains_key(k) == nm.contains_key(k),
        forall|k: i64| #[trigger] names@.contains_key(k) ==> names@[k]@ == nm[k],
    ensures
        strictly_sorted_keys::<(i64, String)>(views(r@)),
        views(r@).to_set() == label_pairs(rel@, nm),
{
    let mut all: Vec<(i64, String)> = Vec::new();
    let n = rel.len();
    for i in 0..n
        invariant
            n == rel@.len(),
            forall|k: i64| #[trigger] names@.contains_key(k) == nm.contains_key(k),
            forall|k: i64| #[trigger] names@.contains_key(k) ==> names@[k]@ == nm[k],
            forall|p: (i64, Seq<char>)| #[trigger] views(all@).contains(p) == label_pairs(rel@.take(i as int), nm).contains(p),
    {
        let ghost before = all@;
        let ghost t = rel@.take(i as int);
        let ghost t1 = rel@.take(i + 1);
        proof {
            assert(t1.drop_last() =~= t);
        }
        let (crate_id, label_id) = rel[i];
        match names.get(&label_id) {
            Some(name) => {
                let pair = (crate_id, name.clone());
                all.push(pair);
                proof {
                    lemma_views_push(before, pair);
                    assert forall|p: (i64, Seq<char>)| #[trigger] views(all@).contains(p) == label_pairs(t1, nm).contains(p) by {
                        if views(before).contains(p) {
                            let j = choose|j: int| 0 <= j < views(before).len() && views(before)[j] == p;
                            assert(views(all@)[j] == p);
                            assert(label_pairs(t, nm).contains(p));
                            let w = choose|w: int| 0 <= w < t.len() && nm.contains_key(#[trigger] t[w].1) && p == (t[w].0, nm[t[w].1]);
                            assert(t1[w] == t[w]);
                        }
                        if views(all@).contains(p) && !views(before).contains(p) {
                            let j = choose|j: int| 0 <= j < views(all@).len() && views(all@)[j] == p;
                            if j < views(before).len() {
                                assert(views(before)[j] == p);
                            }
                            assert(p == (crate_id, nm[label_id]));
                            assert(t1[i as int] == (crate_id, label_id));
                        }
                        if label_pairs(t1, nm).contains(p) {
                            let w = choose|w: int| 0 <= w < t1.len() && nm.contains_key(#[trigger] t1[w].1) && p == (t1[w].0, nm[t1[w].1]);
                            if w < i {
                                assert(t[w] == t1[w]);
                                assert(label_pairs(t, nm).contains(p));
                            } else {
                                assert(views(all@)[views(before).len() as int] == p);
                            }
                        }
                    }
                }
            },
            None => {
                proof {
                    assert(!nm.contains_key(label_id));
                    assert forall|p: (i64, Seq<char>)| #[trigger] views(all@).contains(p) == label_pairs(t1, nm).contains(p) by {
                        if label_pairs(t1, nm).contains(p) {
                            let w = choose|w: int| 0 <= w < t1.len() && nm.contains_key(#[trigger] t1[w].1) && p == (t1[w].0, nm[t1[w].1]);
                            if w < i {
                                assert(t[w] == t1[w]);
                            }
                        }
                        if label_pairs(t, nm).contains(p) {
                            let w = choose|w: int| 0 <= w < t.len() && nm.contains_key(#[trigger] t[w].1) && p == (t[w].0, nm[t[w].1]);
                            assert(t1[w] == t[w]);
                        }
                    }
                }
            },
        }
    }
    proof {
        assert(rel@.take(n as int) =~= rel@);
    }
    let ghost listed = views(all@);
    let r = sorted_unique(all);
    proof {
        assert forall|p: (i64, Seq<char>)| views(r@).to_set().contains(p) <==> label_pairs(rel@, nm).contains(p) by {
            assert(views(r@).to_set().contains(p) == listed.to_set().contains(p));
        }
        assert(views(r@).to_set() =~= label_pairs(rel@, nm));
    }
    r
}

/// The first position of a sorted pair list whose id is at least `id`.
fn first_with_id(pairs: &Vec<(i64, String)>, id: i64) -> (lo: usize)
    requires
        sorted_keys::<(i64, String)>(views(pairs@)),
    ensures
        lo <= pairs@.len(),
        forall|i: int| 0 <= i < lo ==> #[trigger] pairs@[i].0 < id,
        forall|i: int| lo <= i < pairs@.len() ==> #[trigger] pairs@[i].0 >= id,
{
    let mut lo: usize = 0;
    let mut hi: usize = pairs.len();
    while lo < hi
        invariant
            sorted_keys::<(i64, String)>(views(pairs@)),
            lo <= hi <= pairs@.len(),
            forall|i: int| 0 <= i < lo ==> #[trigger] pairs@[i].0 < id,
            forall|i: int| hi <= i < pairs@.len() ==> #[trigger] pairs@[i].0 >= id,
        decreases hi - lo,
    {
        let mid = lo + (hi - lo) / 2;
        if pairs[mid].0 < id {
            proof {
                assert forall|i: int| 0 <= i < mid + 1 implies #[trigger] pairs@[i].0 < id by {
                    if i < mid {
                        assert(views(pairs@)[i] == pairs@[i]@);
                        assert(views(pairs@)[mid as int] == pairs@[mid as int]@);
                        assert(id_text_le(views(pairs@)[i], views(pairs@)[mid as int]));
                    }
                }
            }
            lo = mid + 1;
        } else {
            proof {
                assert forall|i: int| mid <= i < pairs@.len() implies #[trigger] pairs@[i].0 >= id by {
                    if i > mid {
                        assert(views(pairs@)[i] == pairs@[i]@);
                        assert(views(pairs@)[mid as int] == pairs@[mid as int]@);
                        assert(id_text_le(views(pairs@)[mid as int], views(pairs@)[i]));
                    }
                }
            }
            hi = mid;
        }
    }
    lo
}

/// The labels paired with `id` in a strictly sorted pair list, ascending.
fn labels_for(pairs: &Vec<(i64, String)>, id: i64) -> (r: Vec<String>)
    requires
        strictly_sorted_keys::<(i64, String)>(views(pairs@)),
    ensures
        strictly_sorted_keys::<String>(views(r@)),
        forall|n: Seq<char>| #[trigger] views(r@).contains(n) == views(pairs@).contains((id, n)),
{
    proof {
        lemma_text_le_facts();
    }
    let start = first_with_id(pairs, id);
    let mut i = start;
    let mut r: Vec<String> = Vec::new();
    while i < pairs.len() && pairs[i].0 == id
        invariant
            forall|a: Seq<char>, b: Seq<char>| #[trigger] text_le(a, b) && #[trigger] text_le(b, a) ==> a == b,
            strictly_sorted_keys::<(i64, String)>(views(pairs@)),
            start <= i <= pairs@.len(),
            forall|k: int| 0 <= k < start ==> #[trigger] pairs@[k].0 < id,
            forall|k: int| start <= k < pairs@.len() ==> #[trigger] pairs@[k].0 >= id,
            forall|k: int| start <= k < i ==> #[trigger] pairs@[k].0 == id,
            r@.len() == i - start,
            forall|k: int| 0 <= k < r@.len() ==> #[trigger] views(r@)[k] == pairs@[start + k].1@,
        decreases pairs@.len() - i,
    {
        let ghost before = r@;
        r.push(pairs[i].1.clone());
        proof {
            lemma_views_push(before, pairs@[i as int].1);
        }
        i = i + 1;
    }
    proof {
        assert forall|a: int, b: int| 0 <= a < b < views(r@).len() implies
            String::key_le(#[trigger] views(r@)[a], #[trigger] views(r@)[b]) && views(r@)[a] != views(r@)[b] by {
            assert(views(pairs@)[start + a] == pairs@[start + a]@);
            assert(views(pairs@)[start + b] == pairs@[start + b]@);
            assert(id_text_le(views(pairs@)[start + a], views(pairs@)[start + b]));
            assert(views(pairs@)[start + a] != views(pairs@)[start + b]);
        }
        assert forall|n: Seq<char>| #[trigger] views(r@).contains(n) == views(pairs@).contains((id, n)) by {
            if views(r@).contains(n) {
                let k = choose|k: int| 0 <= k < views(r@).len() && views(r@)[k] == n;
                assert(views(pairs@)[start + k] == pairs@[start + k]@);
            }
            if views(pairs@).contains((id, n)) {
                let k = choose|k: int| 0 <= k < views(pairs@).len() && views(pairs@)[k] == (id, n);
                assert(views(pairs@)[k] == pairs@[k]@);
                if i < pairs@.len() && k >= i {
                    assert(pairs@[i as int].0 != id);
                    assert(pairs@[i as int].0 > id);
                    if k > i {
                        assert(views(pairs@)[i as int] == pairs@[i as int]@);
                        assert(id_text_le(views(pairs@)[i as int], views(pairs@)[k]));
                    }
                }
                assert(views(r@)[k - start] == n);
            }
        }
    }
    r
}

/// How many distinct ids a sorted pair list holds.
fn distinct_id_count(pairs: &Vec<(i64, String)>) -> (count: usize)
    requires
        sorted_keys::<(i64, String)>(views(pairs@)),
    ensures
        count == Set::new(|id: i64| exists|n: Seq<char>| views(pairs@).contains((id, n))).len(),
{
    let mut ids: Vec<i64> = Vec::new();
    let n = pairs.len();
    for i in 0..n
        invariant
            n == pairs@.len(),
            sorted_keys::<(i64, String)>(views(pairs@)),
            ids@.len() == i,
            forall|k: int| 0 <= k < i ==> #[trigger] ids@[k] == pairs@[k].0,
    {
        ids.push(pairs[i].0);
    }
    let ghost listed = views(ids@);
    proof {
        assert forall|a: int, b: int| 0 <= a < b < listed.len() implies
            i64::key_le(#[trigger] listed[a], #[trigger] listed[b]) by {
            assert(views(pairs@)[a] == pairs@[a]@);
            assert(views(pairs@)[b] == pairs@[b]@);
            assert(id_text_le(views(pairs@)[a], views(pairs@)[b]));
        }
    }
    let uniq = dedup_sorted(ids);
    let ghost want = Set::new(|id: i64| exists|m: Seq<char>| views(pairs@).contains((id, m)));
    proof {
        assert forall|id: i64| views(uniq@).to_set().contains(id) <==> want.contains(id) by {
            assert(views(uniq@).to_set().contains(id) == listed.to_set().contains(id));
            if listed.contains(id) {
                let k = choose|k: int| 0 <= k < listed.len() && listed[k] == id;
                assert(views(pairs@)[k] == pairs@[k]@);
                assert(views(pairs@).contains((id, pairs@[k].1@)));
            }
            if want.contains(id) {
                let m = choose|m: Seq<char>| views(pairs@).contains((id, m));
                let k = choose|k: int| 0 <= k < views(pairs@).len() && views(pairs@)[k] == (id, m);
                assert(views(pairs@)[k] == pairs@[k]@);
                assert(listed[k] == id);
            }
        }
        assert(views(uniq@).to_set() =~= want);
        assert(views(uniq@).no_duplicates()) by {
            assert forall|a: int, b: int| 0 <= a < views(uniq@).len() && 0 <= b < views(uniq@).len() && a != b
                implies views(uniq@)[a] != views(uniq@)[b] by {
                if a < b {
                    assert(views(uniq@)[a] != views(uniq@)[b]);
                } else {
                    assert(views(uniq@)[b] != views(uniq@)[a]);
                }
            }
        }
        views(uniq@).unique_seq_to_set();
    }
    uniq.len()
}


/// The labels of one crate.
#[derive(Debug)]
pub struct LabelRow {
    pub id: i64,
    pub name: String,
    pub categories: Vec<String>,
    pub keywords: Vec<String>,
}

/// The labels of all crates, with how many crates there are and how many
/// have categories and keywords.
#[derive(Debug)]
pub struct LabelTable {
    pub rows: Vec<LabelRow>,
    pub crates: usize,
    pub with_categories: usize,
    pub with_keywords: usize,
}

proof fn lemma_pair_ids(pairs: Seq<(i64, Seq<char>)>, rel: Seq<(i64, i64)>, names: Map<i64, Seq<char>>)
    requires
        pairs.to_set() == label_pairs(rel, names),
    ensures
        Set::new(|id: i64| exists|n: Seq<char>| pairs.contains((id, n))) == labelled_ids(rel, names),
{
    let a = Set::new(|id: i64| exists|n: Seq<char>| pairs.contains((id, n)));
    let b = labelled_ids(rel, names);
    assert forall|id: i64| a.contains(id) <==> b.contains(id) by {
        if a.contains(id) {
            let n = choose|n: Seq<char>| pairs.contains((id, n));
            assert(pairs.to_set().contains((id, n)));
            assert(label_pairs(rel, names).contains((id, n)));
        }
        if b.contains(id) {
            let n = choose|n: Seq<char>| label_pairs(rel, names).contains((id, n));
            assert(pairs.to_set().contains((id, n)));
            assert(pairs.contains((id, n)));
        }
    }
    assert(a =~= b);
}

/// One row per crate id, in ascending id order: the crate's name (the last
/// one given for its id), and its category and keyword labels, each once and
/// ascending; with the number of crates and the numbers of crate ids that
/// have a category or a keyword (crate ids without a name among them).
pub fn build_labels(
    crate_rows: &Vec<(i64, String)>,
    category_rows: &Vec<(i64, String)>,
    crate_categories: &Vec<(i64, i64)>,
    keyword_rows: &Vec<(i64, String)>,
    crate_keywords: &Vec<(i64, i64)>,
) -> (t: LabelTable)
    ensures
        t.rows@.len() == t.crates,
        t.crates == name_map(crate_rows@).dom().len(),
        forall|i: int, j: int| 0 <= i < j < t.rows@.len() ==> #[trigger] t.rows@[i].id < #[trigger] t.rows@[j].id,
        forall|id: i64| name_map(crate_rows@).contains_key(id)
            <==> exists|i: int| 0 <= i < t.rows@.len() && #[trigger] t.rows@[i].id == id,
        forall|i: int| 0 <= i < t.rows@.len() ==> {
            let row = #[trigger] t.rows@[i];
            &&& row.name@ == name_map(crate_rows@)[row.id]
            &&& strictly_sorted_keys::<String>(views(row.categories@))
            &&& views(row.categories@).to_set() == labels_of(row.id, crate_categories@, name_map(category_rows@))
            &&& strictly_sorted_keys::<String>(views(row.keywords@))
            &&& views(row.keywords@).to_set() == labels_of(row.id, crate_keywords@, name_map(keyword_rows@))
        },
        t.with_categories == labelled_ids(crate_categories@, name_map(category_rows@)).len(),
        t.with_keywords == labelled_ids(crate_keywords@, name_map(keyword_rows@)).len(),
{
    let ghost cm = name_map(crate_rows@);
    let ghost catm = name_map(category_rows@);
    let ghost kwm = name_map(keyword_rows@);
    let crate_names = name_table(crate_rows);
    let category_names = name_table(category_rows);
    let keyword_names = name_table(keyword_rows);
    let category_pairs = label_pair_list(crate_categories, &category_names, Ghost(catm));
    let keyword_pairs = label_pair_list(crate_keywords, &keyword_names, Ghost(kwm));
    let with_categories = distinct_id_count(&category_pairs);
    let with_keywords = distinct_id_count(&keyword_pairs);
    proof {
        lemma_pair_ids(views(category_pairs@), crate_categories@, catm);
        lemma_pair_ids(views(keyword_pairs@), crate_keywords@, kwm);
    }
    let ids = sorted_ids(crate_rows);
    let mut rows: Vec<LabelRow> = Vec::new();
    let n = ids.len();
    for i in 0..n
        invariant
            n == ids@.len(),
            strictly_sorted_keys::<i64>(views(ids@)),
            forall|k: i64| #[trigger] views(ids@).contains(k) == cm.contains_key(k),
            forall|k: i64| #[trigger] crate_names@.contains_key(k) == cm.contains_key(k),
            forall|k: i64| #[trigger] crate_names@.contains_key(k) ==> crate_names@[k]@ == cm[k],
            strictly_sorted_keys::<(i64, String)>(views(category_pairs@)),
            views(category_pairs@).to_set() == label_pairs(crate_categories@, catm),
            strictly_sorted_keys::<(i64, String)>(views(keyword_pairs@)),
            views(keyword_pairs@).to_set() == label_pairs(crate_keywords@, kwm),
            rows@.len() == i,
            forall|k: int| 0 <= k < i ==> #[trigger] rows@[k].id == ids@[k],
            forall|k: int| 0 <= k < i ==> {
                let row = #[trigger] rows@[k];
                &&& row.name@ == cm[row.id]
                &&& strictly_sorted_keys::<String>(views(row.categories@))
                &&& views(row.categories@).to_set() == labels_of(row.id, crate_categories@, catm)
                &&& strictly_sorted_keys::<String>(views(row.keywords@))
                &&& views(row.keywords@).to_set() == labels_of(row.id, crate_keywords@, kwm)
            },
    {
        let id = ids[i];
        proof {
            assert(views(ids@)[i as int] == id);
            assert(views(ids@).contains(id));
            assert(cm.contains_key(id));
        }
        let name = match crate_names.get(&id) {
            Some(name) => name.clone(),
            None => {
                proof {
                    assert(false);
                }
                String::new()
            },
        };
        let categories = labels_for(&category_pairs, id);
        let keywords = labels_for(&keyword_pairs, id);
        proof {
            assert(views(categories@).to_set() =~= labels_of(id, crate_categories@, catm));
            assert(views(keywords@).to_set() =~= labels_of(id, crate_keywords@, kwm));
        }
        rows.push(LabelRow { id, name, categories, keywords });
    }
    proof {
        assert forall|a: int, b: int| 0 <= a < b < rows@.len() implies #[trigger] rows@[a].id < #[trigger] rows@[b].id by {
            assert(views(ids@)[a] == ids@[a]);
            assert(views(ids@)[b] == ids@[b]);
        }
        assert forall|id: i64| cm.contains_key(id) <==> exists|k: int| 0 <= k < rows@.len() && #[trigger] rows@[k].id == id by {
            if cm.contains_key(id) {
                assert(views(ids@).contains(id));
                let k = choose|k: int| 0 <= k < views(ids@).len() && views(ids@)[k] == id;
                assert(rows@[k].id == id);
            }
            if exists|k: int| 0 <= k < rows@.len() && #[trigger] rows@[k].id == id {
                let k = choose|k: int| 0 <= k < rows@.len() && #[trigger] rows@[k].id == id;
                assert(views(ids@)[k] == id);
                assert(views(ids@).contains(id));
            }
        }
        assert(views(ids@).to_set() =~= cm.dom());
        assert(views(ids@).no_duplicates()) by {
            assert forall|a: int, b: int| 0 <= a < views(ids@).len() && 0 <= b < views(ids@).len() && a != b
                implies views(ids@)[a] != views(ids@)[b] by {
                if a < b {
                    assert(views(ids@)[a] != views(ids@)[b]);
                } else {
                    assert(views(ids@)[b] != views(ids@)[a]);
                }
            }
        }
        views(ids@).unique_seq_to_set();
    }
    LabelTable { rows, crates: n, with_categories, with_keywords }
}

/// The text of a sequence of labels joined by `;`.
pub open spec fn joined(labels: Seq<Seq<char>>) -> Seq<char>
    decreases labels.len(),
{
    if labels.len() == 0 {
        Seq::empty()
    } else if labels.len() == 1 {
        labels[0]
    } else {
        joined(labels.drop_last()) + seq![';'] + labels.last()
    }
}

/// Joins labels with `;` between them, as they are written out.
pub fn join_labels(labels: &Vec<String>) -> (s: String)
    ensures
        s@ == joined(views(labels@)),
{
    let mut s = String::new();
    let n = labels.len();
    for i in 0..n
        invariant
            n == labels@.len(),
            s@ == joined(views(labels@).take(i as int)),
    {
        proof {
            assert(views(labels@).take(i + 1).drop_last() =~= views(labels@).take(i as int));
            reveal_strlit(";");
        }
        if i > 0 {
            s.append(";");
        }
        s.append(labels[i].as_str());
        proof {
            if i == 0 {
                assert(s@ =~= views(labels@).take(1)[0]);
            } else {
                assert(s@ =~= joined(views(labels@).take(i as int)) + seq![';'] + views(labels@).take(i + 1).last());
            }
        }
    }
    proof {
        assert(views(labels@).take(n as int) =~= views(labels@));
    }
    s
}

/// What `csv::Writer` writes for the records, one line each.
pub uninterp spec fn csv_encoded(records: Seq<Seq<Seq<char>>>) -> Seq<u8>;

/// Writes the records with `csv::Writer::from_writer` into memory:
/// `write_record` for each, then `into_inner`. Claimed: as the writer is not
/// flexible, it fails exactly when some record has another number of fields
/// than the first, and writing into a `Vec` fails in no other way; the
/// bytes are `csv_encoded` of the records' fields.
#[verifier::external_body]
fn write_csv_records(records: &Vec<Vec<String>>) -> (r: Option<Vec<u8>>)
    ensures
        r is Some <==> forall|i: int| 0 <= i < records@.len() ==> #[trigger] records@[i]@.len() == records@[0]@.len(),
        r matches Some(b) ==> b@ == csv_encoded(table_view(records@)),
{
    let mut writer = csv::Writer::from_writer(Vec::new());
    for record in records.iter() {
        if writer.write_record(record).is_err() {
            return None;
        }
    }
    writer.into_inner().ok()
}

/// The fields written for one crate: its name, then its categories and its
/// keywords, each joined by `;`.
pub open spec fn label_fields(row: LabelRow) -> Seq<Seq<char>> {
    seq![row.name@, joined(views(row.categories@)), joined(views(row.keywords@))]
}

/// The records of the label file: a header, then one record per row.
pub open spec fn label_records(rows: Seq<LabelRow>) -> Seq<Seq<Seq<char>>> {
    seq![seq!["crate"@, "categories"@, "keywords"@]] + rows.map_values(|row: LabelRow| label_fields(row))
}

/// The label file holds the header `crate,categories,keywords`, then
/// exactly one record per row of the table, in the table's order, labelled
/// or not: the crate's name, its categories joined by `;` and its keywords
/// joined by `;` (empty fields for a crate without labels).
pub proof fn lemma_label_records_one_per_row(rows: Seq<LabelRow>)
    ensures
        label_records(rows).len() == rows.len() + 1,
        label_records(rows)[0] == seq!["crate"@, "categories"@, "keywords"@],
        forall|i: int|
            0 <= i < rows.len() ==> #[trigger] label_records(rows)[i + 1] == seq![
                rows[i].name@,
                joined(views(rows[i].categories@)),
                joined(views(rows[i].keywords@)),
            ],
        forall|i: int|
            0 <= i < rows.len() && rows[i].categories@.len() == 0 && rows[i].keywords@.len() == 0
                ==> #[trigger] label_records(rows)[i + 1] == seq![rows[i].name@, Seq::<char>::empty(), Seq::<char>::empty()],
{
    assert forall|i: int| 0 <= i < rows.len() implies #[trigger] label_records(rows)[i + 1] == seq![
        rows[i].name@,
        joined(views(rows[i].categories@)),
        joined(views(rows[i].keywords@)),
    ] by {
        assert(label_records(rows)[i + 1] == label_fields(rows[i]));
    }
    assert forall|i: int| 0 <= i < rows.len() && rows[i].categories@.len() == 0 && rows[i].keywords@.len() == 0
        implies #[trigger] label_records(rows)[i + 1] == seq![rows[i].name@, Seq::<char>::empty(), Seq::<char>::empty()] by {
        assert(label_records(rows)[i + 1] == label_fields(rows[i]));
        assert(views(rows[i].categories@).len() == 0);
        assert(views(rows[i].keywords@).len() == 0);
    }
}

fn three_fields(a: String, b: String, c: String) -> (r: Vec<String>)
    ensures
        views(r@) == seq![a@, b@, c@],
{
    let mut r: Vec<String> = Vec::new();
    r.push(a);
    r.push(b);
    r.push(c);
    proof {
        assert(views(r@) =~= seq![a@, b@, c@]);
    }
    r
}

/// The label file's bytes: the header `crate,categories,keywords`, then one
/// CSV record per row of the table.
pub fn labels_csv(table: &LabelTable) -> (r: Vec<u8>)
    ensures
        r@ == csv_encoded(label_records(table.rows@)),
{
    let mut records: Vec<Vec<String>> = Vec::new();
    let header = three_fields("crate".to_owned(), "categories".to_owned(), "keywords".to_owned());
    records.push(header);
    let n = table.rows.len();
    proof {
        assert(table_view(records@)[0] == views(header@));
        assert(label_records(table.rows@)[0] == seq!["crate"@, "categories"@, "keywords"@]);
        assert(table_view(records@) =~= label_records(table.rows@).take(1));
    }
    for i in 0..n
        invariant
            n == table.rows@.len(),
            records@.len() == i + 1,
            forall|j: int| 0 <= j < records@.len() ==> #[trigger] records@[j]@.len() == 3,
            table_view(records@) =~= label_records(table.rows@).take(i + 1),
    {
        let row = &table.rows[i];
        let fields = three_fields(row.name.clone(), join_labels(&row.categories), join_labels(&row.keywords));
        let ghost before = records@;
        records.push(fields);
        proof {
            assert(table_view(records@)[i + 1] == views(fields@));
            assert(label_records(table.rows@)[i + 1] == label_fields(table.rows@[i as int]));
            assert forall|j: int| 0 <= j <= i implies table_view(records@)[j] == #[trigger] table_view(before)[j] by {
                assert(records@[j] == before[j]);
            }
            assert(table_view(records@) =~= label_records(table.rows@).take(i + 2));
        }
    }
    proof {
        assert(label_records(table.rows@).take(n + 1) =~= label_records(table.rows@));
    }
    match write_csv_records(&records) {
        Some(bytes) => bytes,
        None => Vec::new(),
    }
}

} // verus!
