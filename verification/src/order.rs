//! Orders on the values that the library sorts, starting with strings,
//! which are ordered as Rust orders them: by their UTF-8 bytes.

use vstd::prelude::*;
use vstd::relations::*;
use vstd::utf8::*;

verus! {

/// Lexicographic order on byte sequences (a proper prefix comes first).
pub open spec fn bytes_le(a: Seq<u8>, b: Seq<u8>) -> bool
    decreases a.len(),
{
    if a.len() == 0 {
        true
    } else if b.len() == 0 {
        false
    } else if a[0] < b[0] {
        true
    } else if a[0] > b[0] {
        false
    } else {
        bytes_le(a.drop_first(), b.drop_first())
    }
}

/// The order of `str` and `String` values: byte-wise comparison of their
/// UTF-8 encodings.
pub open spec fn text_le(a: Seq<char>, b: Seq<char>) -> bool {
    bytes_le(encode_utf8(a), encode_utf8(b))
}

/// Strict version of `text_le`.
pub open spec fn text_lt(a: Seq<char>, b: Seq<char>) -> bool {
    text_le(a, b) && a != b
}

pub proof fn lemma_bytes_le_reflexive(a: Seq<u8>)
    ensures
        bytes_le(a, a),
    decreases a.len(),
{
    if a.len() > 0 {
        lemma_bytes_le_reflexive(a.drop_first());
    }
}

pub proof fn lemma_bytes_le_total(a: Seq<u8>, b: Seq<u8>)
    ensures
        bytes_le(a, b) || bytes_le(b, a),
    decreases a.len(),
{
    if a.len() > 0 && b.len() > 0 && a[0] == b[0] {
        lemma_bytes_le_total(a.drop_first(), b.drop_first());
    }
}

pub proof fn lemma_bytes_le_antisymmetric(a: Seq<u8>, b: Seq<u8>)
    requires
        bytes_le(a, b),
        bytes_le(b, a),
    ensures
        a == b,
    decreases a.len(),
{
    if a.len() > 0 && b.len() > 0 {
        lemma_bytes_le_antisymmetric(a.drop_first(), b.drop_first());
        assert(a =~= seq![a[0]] + a.drop_first());
        assert(b =~= seq![b[0]] + b.drop_first());
    }
}

pub proof fn lemma_bytes_le_transitive(a: Seq<u8>, b: Seq<u8>, c: Seq<u8>)
    requires
        bytes_le(a, b),
        bytes_le(b, c),
    ensures
        bytes_le(a, c),
    decreases a.len(),
{
    if a.len() > 0 && b.len() > 0 && c.len() > 0 && a[0] == b[0] && b[0] == c[0] {
        lemma_bytes_le_transitive(a.drop_first(), b.drop_first(), c.drop_first());
    }
}

pub proof fn lemma_text_le_antisymmetric(a: Seq<char>, b: Seq<char>)
    requires
        text_le(a, b),
        text_le(b, a),
    ensures
        a == b,
{
    lemma_bytes_le_antisymmetric(encode_utf8(a), encode_utf8(b));
    encode_utf8_decode_utf8(a);
    encode_utf8_decode_utf8(b);
}

/// `text_le` is reflexive, antisymmetric, total and transitive.
pub proof fn lemma_text_le_facts()
    ensures
        forall|a: Seq<char>| #[trigger] text_le(a, a),
        forall|a: Seq<char>, b: Seq<char>| #[trigger] text_le(a, b) && #[trigger] text_le(b, a) ==> a == b,
        forall|a: Seq<char>, b: Seq<char>| #[trigger] text_le(a, b) || #[trigger] text_le(b, a),
        forall|a: Seq<char>, b: Seq<char>, c: Seq<char>|
            #[trigger] text_le(a, b) && #[trigger] text_le(b, c) ==> text_le(a, c),
{
    assert forall|a: Seq<char>| #[trigger] text_le(a, a) by {
        lemma_bytes_le_reflexive(encode_utf8(a));
    }
    assert forall|a: Seq<char>, b: Seq<char>| #[trigger] text_le(a, b) && #[trigger] text_le(b, a)
        implies a == b by {
        lemma_text_le_antisymmetric(a, b);
    }
    assert forall|a: Seq<char>, b: Seq<char>| #[trigger] text_le(a, b) || #[trigger] text_le(b, a) by {
        lemma_bytes_le_total(encode_utf8(a), encode_utf8(b));
    }
    assert forall|a: Seq<char>, b: Seq<char>, c: Seq<char>|
        #[trigger] text_le(a, b) && #[trigger] text_le(b, c) implies text_le(a, c) by {
        lemma_bytes_le_transitive(encode_utf8(a), encode_utf8(b), encode_utf8(c));
    }
}

/// `text_le` is a total order on character sequences.
pub proof fn lemma_text_le_total_ordering()
    ensures
        total_ordering(|a: Seq<char>, b: Seq<char>| text_le(a, b)),
{
    lemma_text_le_facts();
}

proof fn lemma_bytes_le_step(a: Seq<u8>, b: Seq<u8>, i: int)
    requires
        0 <= i < a.len(),
        i < b.len(),
        a[i] == b[i],
    ensures
        bytes_le(a.skip(i), b.skip(i)) == bytes_le(a.skip(i + 1), b.skip(i + 1)),
{
    assert(a.skip(i).drop_first() =~= a.skip(i + 1));
    assert(b.skip(i).drop_first() =~= b.skip(i + 1));
}

/// Byte sequences are compared at their first difference, by the plain
/// order of `u8`: after a common prefix `p`, the sequence with the smaller
/// byte comes first, whatever follows.
pub proof fn lemma_bytes_le_first_difference(p: Seq<u8>, x: u8, y: u8, s: Seq<u8>, t: Seq<u8>)
    requires
        x != y,
    ensures
        bytes_le(p + seq![x] + s, p + seq![y] + t) == (x < y),
    decreases p.len(),
{
    let a = p + seq![x] + s;
    let b = p + seq![y] + t;
    if p.len() == 0 {
        assert(a[0] == x);
        assert(b[0] == y);
    } else {
        assert(a[0] == p[0] && b[0] == p[0]);
        assert(a.drop_first() =~= p.drop_first() + seq![x] + s);
        assert(b.drop_first() =~= p.drop_first() + seq![y] + t);
        lemma_bytes_le_first_difference(p.drop_first(), x, y, s, t);
    }
}

/// A byte sequence comes no later than any sequence it begins.
pub proof fn lemma_bytes_le_prefix(p: Seq<u8>, t: Seq<u8>)
    ensures
        bytes_le(p, p + t),
    decreases p.len(),
{
    if p.len() > 0 {
        assert((p + t)[0] == p[0]);
        assert((p + t).drop_first() =~= p.drop_first() + t);
        lemma_bytes_le_prefix(p.drop_first(), t);
    }
}

proof fn lemma_encode_utf8_concat(a: Seq<char>, b: Seq<char>)
    ensures
        encode_utf8(a + b) == encode_utf8(a) + encode_utf8(b),
    decreases a.len(),
{
    if a.len() == 0 {
        assert(a + b =~= b);
    } else {
        assert((a + b).drop_first() =~= a.drop_first() + b);
        assert((a + b)[0] == a[0]);
        lemma_encode_utf8_concat(a.drop_first(), b);
    }
}

proof fn lemma_encode_ascii(c: char)
    requires
        (c as u32) < 0x80,
    ensures
        encode_utf8(seq![c]) == seq![(c as u32) as u8],
{
    let v = c as u32;
    assert(seq![c].drop_first() =~= Seq::<char>::empty());
    assert((v & 0x7F) == v) by (bit_vector)
        requires
            v < 0x80,
    ;
    assert(has_width_1_encoding(v));
    assert(encode_scalar(v) == seq![leading_byte_width_1(v)]);
    assert(encode_utf8(Seq::<char>::empty()) =~= Seq::<u8>::empty());
    assert(encode_utf8(seq![c]) == encode_scalar(v) + encode_utf8(Seq::<char>::empty()));
    assert(encode_utf8(seq![c]) =~= seq![(v & 0x7F) as u8]);
}

/// Strings are compared as Rust compares `str`: at the first character
/// where they differ, the smaller character comes first (shown here for
/// ASCII characters, whose UTF-8 encodings are themselves), whatever
/// follows; and a string comes no later than any string it begins.
pub proof fn lemma_text_le_first_difference(p: Seq<char>, x: char, y: char, s: Seq<char>, t: Seq<char>)
    requires
        (x as u32) < 0x80,
        (y as u32) < 0x80,
        x != y,
    ensures
        text_le(p + seq![x] + s, p + seq![y] + t) == ((x as u32) < (y as u32)),
        text_le(p, p + t),
{
    lemma_encode_utf8_concat(p + seq![x], s);
    lemma_encode_utf8_concat(p, seq![x]);
    lemma_encode_utf8_concat(p + seq![y], t);
    lemma_encode_utf8_concat(p, seq![y]);
    lemma_encode_utf8_concat(p, t);
    lemma_encode_ascii(x);
    lemma_encode_ascii(y);
    assert((x as u32) as u8 != (y as u32) as u8);
    lemma_bytes_le_first_difference(encode_utf8(p), (x as u32) as u8, (y as u32) as u8, encode_utf8(s), encode_utf8(t));
    lemma_bytes_le_prefix(encode_utf8(p), encode_utf8(t));
}

/// Compares two strings as Rust's `Ord` for `str` does.
pub fn text_le_exec(a: &str, b: &str) -> (r: bool)
    ensures
        r == text_le(a@, b@),
{
    let x = a.as_bytes();
    let y = b.as_bytes();
    let mut i: usize = 0;
    assert(x@.skip(0) =~= x@);
    assert(y@.skip(0) =~= y@);
    while i < x.len() && i < y.len()
        invariant
            i <= x@.len(),
            i <= y@.len(),
            x@ == encode_utf8(a@),
            y@ == encode_utf8(b@),
            bytes_le(x@, y@) == bytes_le(x@.skip(i as int), y@.skip(i as int)),
        decreases x@.len() - i,
    {
        if x[i] < y[i] {
            return true;
        }
        if x[i] > y[i] {
            return false;
        }
        proof {
            lemma_bytes_le_step(x@, y@, i as int);
        }
        i = i + 1;
    }
    i == x.len()
}

/// Whether two strings hold the same characters.
pub fn text_eq_exec(a: &str, b: &str) -> (r: bool)
    ensures
        r == (a@ == b@),
{
    let r = text_le_exec(a, b) && text_le_exec(b, a);
    proof {
        lemma_bytes_le_reflexive(encode_utf8(a@));
        if r {
            lemma_text_le_antisymmetric(a@, b@);
        }
    }
    r
}


/// A type whose values are sorted by a total order on their views.
pub trait SortKey: View + Sized {
    /// The order, stated on views.
    spec fn key_le(a: Self::V, b: Self::V) -> bool;

    /// `key_le` is reflexive, antisymmetric, total and transitive.
    proof fn lemma_key_le_total_ordering()
        ensures
            total_ordering(|a: Self::V, b: Self::V| Self::key_le(a, b)),
    ;

    /// Decides `key_le` on two values.
    fn key_le_exec(&self, other: &Self) -> (r: bool)
        ensures
            r == Self::key_le(self@, other@),
    ;
}

/// The order of a `SortKey` type, as a closure for vstd's relation library.
pub open spec fn key_order<T: SortKey>() -> spec_fn(T::V, T::V) -> bool {
    |a: T::V, b: T::V| T::key_le(a, b)
}

/// The order of a `SortKey` type, stated as four plain facts.
pub proof fn lemma_key_le_facts<T: SortKey>()
    ensures
        forall|a: T::V| #[trigger] T::key_le(a, a),
        forall|a: T::V, b: T::V| #[trigger] T::key_le(a, b) && #[trigger] T::key_le(b, a) ==> a == b,
        forall|a: T::V, b: T::V| #[trigger] T::key_le(a, b) || #[trigger] T::key_le(b, a),
        forall|a: T::V, b: T::V, c: T::V|
            #[trigger] T::key_le(a, b) && #[trigger] T::key_le(b, c) ==> T::key_le(a, c),
{
    T::lemma_key_le_total_ordering();
    let leq = key_order::<T>();
    assert forall|a: T::V| #[trigger] T::key_le(a, a) by {
        assert(leq(a, a));
    }
    assert forall|a: T::V, b: T::V| #[trigger] T::key_le(a, b) && #[trigger] T::key_le(b, a) implies a == b by {
        assert(leq(a, b) && leq(b, a));
    }
    assert forall|a: T::V, b: T::V| #[trigger] T::key_le(a, b) || #[trigger] T::key_le(b, a) by {
        assert(leq(a, b) || leq(b, a));
    }
    assert forall|a: T::V, b: T::V, c: T::V|
        #[trigger] T::key_le(a, b) && #[trigger] T::key_le(b, c) implies T::key_le(a, c) by {
        assert(leq(a, b) && leq(b, c));
        assert(leq(a, c));
    }
}

impl SortKey for String {
    open spec fn key_le(a: Seq<char>, b: Seq<char>) -> bool {
        text_le(a, b)
    }

    proof fn lemma_key_le_total_ordering() {
        lemma_text_le_total_ordering();
        let by_key = |a: Seq<char>, b: Seq<char>| Self::key_le(a, b);
        let by_text = |a: Seq<char>, b: Seq<char>| text_le(a, b);
        assert(by_key =~= by_text);
    }

    fn key_le_exec(&self, other: &Self) -> (r: bool) {
        text_le_exec(self.as_str(), other.as_str())
    }
}


impl SortKey for i64 {
    open spec fn key_le(a: i64, b: i64) -> bool {
        a <= b
    }

    proof fn lemma_key_le_total_ordering() {
    }

    fn key_le_exec(&self, other: &Self) -> (r: bool) {
        *self <= *other
    }
}

/// The order of (id, text) pairs: by id, then by text.
pub open spec fn id_text_le(a: (i64, Seq<char>), b: (i64, Seq<char>)) -> bool {
    ||| a.0 < b.0
    ||| a.0 == b.0 && text_le(a.1, b.1)
}

impl SortKey for (i64, String) {
    open spec fn key_le(a: (i64, Seq<char>), b: (i64, Seq<char>)) -> bool {
        id_text_le(a, b)
    }

    proof fn lemma_key_le_total_ordering() {
        lemma_text_le_facts();
        let r = |a: (i64, Seq<char>), b: (i64, Seq<char>)| Self::key_le(a, b);
        assert forall|a: (i64, Seq<char>)| #[trigger] r(a, a) by {
            assert(id_text_le(a, a));
        }
        assert forall|a: (i64, Seq<char>), b: (i64, Seq<char>)| #[trigger] r(a, b) && #[trigger] r(b, a)
            implies a == b by {
            assert(id_text_le(a, b) && id_text_le(b, a));
        }
        assert forall|a: (i64, Seq<char>), b: (i64, Seq<char>)| #[trigger] r(a, b) || #[trigger] r(b, a) by {
            assert(id_text_le(a, b) || id_text_le(b, a));
        }
        assert forall|a: (i64, Seq<char>), b: (i64, Seq<char>), c: (i64, Seq<char>)|
            #[trigger] r(a, b) && #[trigger] r(b, c) implies r(a, c) by {
            assert(id_text_le(a, b) && id_text_le(b, c));
            assert(id_text_le(a, c));
        }
    }

    fn key_le_exec(&self, other: &Self) -> (r: bool) {
        if self.0 != other.0 {
            self.0 < other.0
        } else {
            text_le_exec(self.1.as_str(), other.1.as_str())
        }
    }
}

} // verus!
