//! The shape of the record source: a byte stream whose records are
//! separated by line feeds, each record holding fields separated by
//! commas. This module gives the splitting its mathematical meaning and
//! the lemmas that connect a left-to-right scan to that meaning.

use vstd::prelude::*;

verus! {

/// The line feed byte that ends a record.
pub const LF: u8 = 10;

/// The carriage return byte that may precede a line feed.
pub const CR: u8 = 13;

/// The comma byte that separates fields within a record.
pub const COMMA: u8 = 44;

/// The pieces of `s` between occurrences of the delimiter `d`, in order.
/// A sequence without the delimiter is a single piece, and every
/// delimiter ends a piece, so `n` delimiters give `n + 1` pieces.
pub open spec fn split_on(s: Seq<u8>, d: u8) -> Seq<Seq<u8>>
    decreases s.len(),
{
    if s.len() == 0 {
        seq![Seq::<u8>::empty()]
    } else if s[0] == d {
        seq![Seq::<u8>::empty()] + split_on(s.drop_first(), d)
    } else {
        let rest = split_on(s.drop_first(), d);
        seq![seq![s[0]] + rest[0]] + rest.drop_first()
    }
}

/// A split always yields at least one piece.
pub proof fn lemma_split_on_len(s: Seq<u8>, d: u8)
    ensures
        split_on(s, d).len() >= 1,
    decreases s.len(),
{
    if s.len() > 0 {
        lemma_split_on_len(s.drop_first(), d);
    }
}

/// A sequence without the delimiter splits into itself alone.
pub proof fn lemma_split_on_no_delim(s: Seq<u8>, d: u8)
    requires
        forall|k: int| 0 <= k < s.len() ==> s[k] != d,
    ensures
        split_on(s, d) == seq![s],
    decreases s.len(),
{
    if s.len() == 0 {
        assert(s =~= Seq::<u8>::empty());
    } else {
        lemma_split_on_no_delim(s.drop_first(), d);
        assert(seq![s[0]] + s.drop_first() =~= s);
        assert(split_on(s, d) =~~= seq![s]);
    }
}

/// A sequence whose first delimiter stands at `j` splits into the piece
/// before `j` followed by the split of what stands after `j`.
pub proof fn lemma_split_on_first_delim(s: Seq<u8>, d: u8, j: int)
    requires
        0 <= j < s.len(),
        s[j] == d,
        forall|k: int| 0 <= k < j ==> s[k] != d,
    ensures
        split_on(s, d) == seq![s.subrange(0, j)] + split_on(
            s.subrange(j + 1, s.len() as int),
            d,
        ),
    decreases j,
{
    if j == 0 {
        assert(s.subrange(0, 0) =~= Seq::<u8>::empty());
        assert(s.subrange(1, s.len() as int) =~= s.drop_first());
        assert(split_on(s, d) =~~= seq![s.subrange(0, 0)] + split_on(
            s.subrange(1, s.len() as int),
            d,
        ));
    } else {
        let t = s.drop_first();
        assert(forall|k: int| 0 <= k < j - 1 ==> t[k] == s[k + 1] && t[k] != d);
        lemma_split_on_first_delim(t, d, j - 1);
        let tail = split_on(t.subrange(j, t.len() as int), d);
        lemma_split_on_len(t.subrange(j, t.len() as int), d);
        assert(t.subrange(j, t.len() as int) =~= s.subrange(j + 1, s.len() as int));
        assert(seq![s[0]] + t.subrange(0, j - 1) =~= s.subrange(0, j));
        assert((seq![t.subrange(0, j - 1)] + tail).drop_first() =~= tail);
        assert(split_on(s, d) =~~= seq![s.subrange(0, j)] + split_on(
            s.subrange(j + 1, s.len() as int),
            d,
        ));
    }
}

/// A record with a final carriage return, left by a source whose lines
/// end in a carriage return and line feed pair, loses that byte.
pub open spec fn strip_cr(r: Seq<u8>) -> Seq<u8> {
    if r.len() > 0 && r[r.len() - 1] == CR {
        r.drop_last()
    } else {
        r
    }
}

/// The records of a source: the pieces between line feeds, with the one
/// empty piece after a final line feed dropped (so a source that ends in
/// a line feed gains no empty record, and an empty source has no records
/// at all), and a final carriage return stripped from each record.
pub open spec fn records_of(s: Seq<u8>) -> Seq<Seq<u8>> {
    let raw = split_on(s, LF);
    let kept = if raw.last().len() == 0 {
        raw.drop_last()
    } else {
        raw
    };
    kept.map_values(|r: Seq<u8>| strip_cr(r))
}

} // verus!
