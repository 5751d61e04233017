//! The corpus loader: it parses a record source into an ordered corpus
//! of validated questions, or rejects the whole source on its first
//! malformed row. The first record of a source is a header naming the
//! fields; every later record is one data row with exactly three
//! comma-separated fields, read positionally as the category, the
//! question and the answer.

use crate::records::{
    lemma_split_on_first_delim, lemma_split_on_len, lemma_split_on_no_delim, records_of, split_on,
    strip_cr, COMMA, CR, LF,
};
use vstd::prelude::*;
use vstd::slice::slice_subrange;
use vstd::utf8::{decode_utf8, valid_utf8};

verus! {

/// A single trivia item. Every successfully parsed question carries a
/// non-empty category, question and answer; a record that would leave
/// any of the three empty is rejected at load time.
#[derive(Debug)]
pub struct Question {
    /// The label grouping related questions.
    pub category: String,
    /// The prompt shown to the respondent.
    pub question: String,
    /// The expected response.
    pub answer: String,
}

impl Question {
    /// All three fields hold at least one character.
    pub open spec fn wf(self) -> bool {
        &&& self.category@.len() > 0
        &&& self.question@.len() > 0
        &&& self.answer@.len() > 0
    }

    /// The question is exactly what the record's three comma-separated
    /// fields decode to, in order.
    pub open spec fn from_record(self, rec: Seq<u8>) -> bool {
        let fs = split_on(rec, COMMA);
        &&& fs.len() == 3
        &&& self.category@ == decode_utf8(fs[0])
        &&& self.question@ == decode_utf8(fs[1])
        &&& self.answer@ == decode_utf8(fs[2])
    }
}

/// Why a single data row was rejected.
#[derive(Clone, Copy, Debug, PartialEq, Eq, Structural)]
pub enum RowError {
    /// The row does not hold exactly three fields.
    WrongFieldCount,
    /// A field of the row is not valid UTF-8 text.
    InvalidUtf8,
    /// A field of the row decodes to the empty string.
    EmptyField,
}

/// Why a whole load was rejected.
#[derive(Clone, Copy, Debug, PartialEq, Eq, Structural)]
pub enum ParseError {
    /// The source is empty: it holds not even a header record.
    MissingHeader,
    /// The data row at record index `row` was rejected for `cause`. The
    /// header is record zero, so the first data row has row one.
    Row { row: usize, cause: RowError },
}

/// Why a single field is rejected, or nothing when it is acceptable:
/// a field must be valid UTF-8 and must decode to a non-empty string.
pub open spec fn field_error(f: Seq<u8>) -> Option<RowError> {
    if !valid_utf8(f) {
        Some(RowError::InvalidUtf8)
    } else if decode_utf8(f).len() == 0 {
        Some(RowError::EmptyField)
    } else {
        None
    }
}

/// Why a data row is rejected, or nothing when it parses: a wrong field
/// count is reported first, then the leftmost offending field.
pub open spec fn row_error(rec: Seq<u8>) -> Option<RowError> {
    let fs = split_on(rec, COMMA);
    if fs.len() != 3 {
        Some(RowError::WrongFieldCount)
    } else if field_error(fs[0]) is Some {
        field_error(fs[0])
    } else if field_error(fs[1]) is Some {
        field_error(fs[1])
    } else {
        field_error(fs[2])
    }
}

/// A source loads exactly when it has a header record and every one of
/// its data rows is acceptable.
pub open spec fn loads(s: Seq<u8>) -> bool {
    let recs = records_of(s);
    &&& recs.len() >= 1
    &&& forall|i: int| 1 <= i < recs.len() ==> #[trigger] row_error(recs[i]) is None
}

/// Relies on `core::str::from_utf8`: it succeeds exactly when the bytes
/// are valid UTF-8, and the returned text is their decoding.
#[verifier::external_body]
fn utf8_field(b: &[u8]) -> (r: Option<&str>)
    ensures
        r is Some <==> valid_utf8(b@),
        r matches Some(t) ==> t@ == decode_utf8(b@),
{
    core::str::from_utf8(b).ok()
}

/// Index of the first occurrence of `d` in `s` at or after `from`, or
/// the length of `s` when there is none.
fn find_byte(s: &[u8], from: usize, d: u8) -> (j: usize)
    requires
        from <= s@.len(),
    ensures
        from <= j <= s@.len(),
        forall|k: int| from <= k < j ==> s@[k] != d,
        j < s@.len() ==> s@[j as int] == d,
{
    let n = s.len();
    let mut j = from;
    while j < n
        invariant
            from <= j <= n,
            n == s@.len(),
            forall|k: int| from <= k < j ==> s@[k] != d,
        decreases n - j,
    {
        if s[j] == d {
            return j;
        }
        j = j + 1;
    }
    j
}

/// Decode one field of a data row, rejecting bytes that are not text
/// and text that is empty.
fn parse_field(f: &[u8]) -> (r: Result<String, RowError>)
    ensures
        match r {
            Ok(s) => field_error(f@) is None && s@ == decode_utf8(f@) && s@.len() > 0,
            Err(k) => field_error(f@) == Some(k),
        },
{
    match utf8_field(f) {
        None => Err(RowError::InvalidUtf8),
        Some(t) => {
            if t.is_empty() {
                Err(RowError::EmptyField)
            } else {
                Ok(t.to_owned())
            }
        },
    }
}

/// Parse one data row into a question: exactly three comma-separated
/// fields, each valid UTF-8 and non-empty.
pub fn parse_record(rec: &[u8]) -> (r: Result<Question, RowError>)
    ensures
        match r {
            Ok(q) => row_error(rec@) is None && q.wf() && q.from_record(rec@),
            Err(k) => row_error(rec@) == Some(k),
        },
{
    let n = rec.len();
    let c1 = find_byte(rec, 0, COMMA);
    if c1 == n {
        proof {
            lemma_split_on_no_delim(rec@, COMMA);
        }
        return Err(RowError::WrongFieldCount);
    }
    let c2 = find_byte(rec, c1 + 1, COMMA);
    proof {
        lemma_split_on_first_delim(rec@, COMMA, c1 as int);
    }
    let ghost suffix1 = rec@.subrange(c1 + 1, n as int);
    if c2 == n {
        proof {
            assert(forall|k: int| 0 <= k < suffix1.len() ==> suffix1[k] == rec@[k + c1 + 1]
                && suffix1[k] != COMMA);
            lemma_split_on_no_delim(suffix1, COMMA);
            assert(split_on(rec@, COMMA).len() == 2);
        }
        return Err(RowError::WrongFieldCount);
    }
    proof {
        assert(suffix1[c2 - c1 - 1] == rec@[c2 as int]);
        assert(forall|k: int| 0 <= k < c2 - c1 - 1 ==> suffix1[k] == rec@[k + c1 + 1]
            && suffix1[k] != COMMA);
        lemma_split_on_first_delim(suffix1, COMMA, c2 - c1 - 1);
        assert(suffix1.subrange(c2 - c1, suffix1.len() as int) =~= rec@.subrange(
            c2 + 1,
            n as int,
        ));
    }
    let ghost suffix2 = rec@.subrange(c2 + 1, n as int);
    let c3 = find_byte(rec, c2 + 1, COMMA);
    if c3 < n {
        proof {
            assert(suffix2[c3 - c2 - 1] == rec@[c3 as int]);
            assert(forall|k: int| 0 <= k < c3 - c2 - 1 ==> suffix2[k] == rec@[k + c2 + 1]
                && suffix2[k] != COMMA);
            lemma_split_on_first_delim(suffix2, COMMA, c3 - c2 - 1);
            lemma_split_on_len(suffix2.subrange(c3 - c2, suffix2.len() as int), COMMA);
            assert(split_on(rec@, COMMA).len() >= 4);
        }
        return Err(RowError::WrongFieldCount);
    }
    proof {
        assert(forall|k: int| 0 <= k < suffix2.len() ==> suffix2[k] == rec@[k + c2 + 1]
            && suffix2[k] != COMMA);
        lemma_split_on_no_delim(suffix2, COMMA);
        assert(split_on(rec@, COMMA) =~~= seq![
            rec@.subrange(0, c1 as int),
            suffix1.subrange(0, c2 - c1 - 1),
            suffix2,
        ]);
        assert(suffix1.subrange(0, c2 - c1 - 1) =~= rec@.subrange(c1 + 1, c2 as int));
    }
    let f0 = slice_subrange(rec, 0, c1);
    let f1 = slice_subrange(rec, c1 + 1, c2);
    let f2 = slice_subrange(rec, c2 + 1, n);
    let category = match parse_field(f0) {
        Ok(s) => s,
        Err(k) => return Err(k),
    };
    let question = match parse_field(f1) {
        Ok(s) => s,
        Err(k) => return Err(k),
    };
    let answer = match parse_field(f2) {
        Ok(s) => s,
        Err(k) => return Err(k),
    };
    Ok(Question { category, question, answer })
}

/// Load a trivia corpus from the bytes of a record source.
///
/// The first record is the header naming the fields; it is consumed and
/// not validated further. Every later record is one data row parsed into
/// a question, in row order. The load fails as a whole on the first
/// rejected row, carrying that row's record index and cause, and on a
/// source with no header record at all; no partial corpus is returned.
pub fn read_questions(src: &[u8]) -> (r: Result<Vec<Question>, ParseError>)
    ensures
        r is Ok <==> loads(src@),
        r matches Ok(qs) ==> {
            let recs = records_of(src@);
            &&& qs@.len() == recs.len() - 1
            &&& forall|i: int| 0 <= i < qs@.len() ==> #[trigger] qs@[i].from_record(recs[i + 1])
                && qs@[i].wf()
        },
        r matches Err(e) ==> match e {
            ParseError::MissingHeader => records_of(src@).len() == 0,
            ParseError::Row { row, cause } => {
                let recs = records_of(src@);
                &&& 1 <= row < recs.len()
                &&& row_error(recs[row as int]) == Some(cause)
                &&& forall|i: int| 1 <= i < row ==> #[trigger] row_error(recs[i]) is None
            },
        },
{
    let n = src.len();
    let mut qs: Vec<Question> = Vec::new();
    let mut i: usize = 0;
    let mut row: usize = 0;
    let ghost mut done: Seq<Seq<u8>> = Seq::<Seq<u8>>::empty();
    proof {
        assert(src@.subrange(0, n as int) =~= src@);
    }
    while i < n
        invariant
            i <= n,
            n == src@.len(),
            row == done.len(),
            row <= i,
            split_on(src@, LF) == done + split_on(src@.subrange(i as int, n as int), LF),
            qs@.len() == if row == 0 { 0int } else { row - 1 },
            forall|k: int| 1 <= k < done.len() ==> {
                &&& qs@[k - 1].from_record(strip_cr(#[trigger] done[k]))
                &&& qs@[k - 1].wf()
                &&& row_error(strip_cr(done[k])) is None
            },
        decreases n - i,
    {
        let j = find_byte(src, i, LF);
        let end = if j > i && src[j - 1] == CR {
            j - 1
        } else {
            j
        };
        let ghost raw_rec = src@.subrange(i as int, j as int);
        let ghost suffix = src@.subrange(i as int, n as int);
        proof {
            assert(strip_cr(raw_rec) =~= src@.subrange(i as int, end as int));
            if j < n {
                assert(suffix[j - i] == src@[j as int]);
                assert(forall|k: int| 0 <= k < j - i ==> suffix[k] == src@[k + i]
                    && suffix[k] != LF);
                lemma_split_on_first_delim(suffix, LF, j - i);
                assert(suffix.subrange(0, j - i) =~= raw_rec);
                assert(suffix.subrange(j - i + 1, suffix.len() as int) =~= src@.subrange(
                    j + 1,
                    n as int,
                ));
            } else {
                assert(forall|k: int| 0 <= k < suffix.len() ==> suffix[k] == src@[k + i]
                    && suffix[k] != LF);
                lemma_split_on_no_delim(suffix, LF);
                assert(suffix =~= raw_rec);
            }
        }
        // Here the raw records of the whole source are `done`, then
        // `raw_rec`, then the split of what follows the line feed at `j`
        // (nothing when `j` is the end of the source).
        if row >= 1 {
            let rec = slice_subrange(src, i, end);
            match parse_record(rec) {
                Ok(q) => {
                    qs.push(q);
                },
                Err(k) => {
                    proof {
                        let raw = split_on(src@, LF);
                        let kept = if raw.last().len() == 0 {
                            raw.drop_last()
                        } else {
                            raw
                        };
                        if j < n {
                            lemma_split_on_len(src@.subrange(j + 1, n as int), LF);
                            assert(raw.len() >= done.len() + 2);
                            assert(kept.len() >= done.len() + 1);
                            assert(kept[row as int] == raw_rec);
                        } else {
                            assert(raw =~= done + seq![raw_rec]);
                            assert(raw.last() == raw_rec);
                            assert(raw_rec.len() > 0);
                            assert(kept[row as int] == raw_rec);
                        }
                        assert(records_of(src@)[row as int] == strip_cr(raw_rec));
                        assert forall|k: int| 1 <= k < row implies #[trigger] row_error(
                            records_of(src@)[k],
                        ) is None by {
                            assert(raw[k] == done[k]);
                            assert(kept[k] == done[k]);
                            assert(records_of(src@)[k] == strip_cr(done[k]));
                        }
                        assert(!loads(src@));
                    }
                    return Err(ParseError::Row { row, cause: k });
                },
            }
        }
        proof {
            done = done + seq![raw_rec];
        }
        row = row + 1;
        if j == n {
            proof {
                let raw = split_on(src@, LF);
                assert(raw =~= done);
                assert(raw.last() == raw_rec);
                assert(raw_rec.len() > 0);
                let recs = records_of(src@);
                assert(recs =~= done.map_values(|r: Seq<u8>| strip_cr(r)));
                assert(recs.len() == row);
                assert forall|k: int| 1 <= k < row implies #[trigger] row_error(recs[k])
                    is None by {
                    assert(recs[k] == strip_cr(done[k]));
                }
                assert(loads(src@));
                assert(qs@.len() == row - 1);
                assert(qs@.len() == recs.len() - 1);
                assert forall|k: int| 0 <= k < qs@.len() implies #[trigger] qs@[k].from_record(
                    recs[k + 1],
                ) && qs@[k].wf() by {
                    assert(recs[k + 1] == strip_cr(done[k + 1]));
                }
            }
            return Ok(qs);
        }
        i = j + 1;
    }
    proof {
        let raw = split_on(src@, LF);
        assert(src@.subrange(n as int, n as int) =~= Seq::<u8>::empty());
        assert(raw =~= done + seq![Seq::<u8>::empty()]);
        assert(raw.last().len() == 0);
        assert(raw.drop_last() =~= done);
        assert(records_of(src@) =~= done.map_values(|r: Seq<u8>| strip_cr(r)));
        assert(records_of(src@).len() == row);
    }
    if row == 0 {
        return Err(ParseError::MissingHeader);
    }
    proof {
        let recs = records_of(src@);
        assert forall|k: int| 1 <= k < row implies #[trigger] row_error(recs[k]) is None by {
            assert(recs[k] == strip_cr(done[k]));
        }
        assert(loads(src@));
        assert forall|k: int| 0 <= k < qs@.len() implies #[trigger] qs@[k].from_record(
            recs[k + 1],
        ) && qs@[k].wf() by {
            assert(recs[k + 1] == strip_cr(done[k + 1]));
        }
    }
    Ok(qs)
}

} // verus!
