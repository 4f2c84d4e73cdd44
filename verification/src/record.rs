//! The on-disk form of a record.
//!
//! A record is one JSON object with a single member that names its kind:
//! `{"Set":{"key":K,"value":V}}` or `{"Rm":{"key":K}}`, where `K` and `V`
//! are JSON string literals. Records follow one another in a log without
//! any separator. The frame around the string literals is read and written
//! here; the literals themselves are `serde_json`'s.

use crate::error::KvsError;
use crate::json::{json_error, json_string_in, json_text_of, read_json_string, write_json_string};
use vstd::prelude::*;
use vstd::slice::slice_subrange;

verus! {

/// A record as the engine handles it.
#[derive(Debug)]
pub enum MultipleCmd {
    /// Sets `key` to `value`; written as a `Set` object.
    Put { key: String, value: String },
    /// Removes `key`; written as an `Rm` object.
    Rm { key: String },
}

/// A record as contracts speak of it.
pub enum Record {
    Put { key: Seq<char>, value: Seq<char> },
    Rm { key: Seq<char> },
}

impl Record {
    /// The key that the record is about.
    pub open spec fn key(self) -> Seq<char> {
        match self {
            Record::Put { key, .. } => key,
            Record::Rm { key } => key,
        }
    }
}

impl View for MultipleCmd {
    type V = Record;

    open spec fn view(&self) -> Record {
        match self {
            MultipleCmd::Put { key, value } => Record::Put { key: key@, value: value@ },
            MultipleCmd::Rm { key } => Record::Rm { key: key@ },
        }
    }
}

impl MultipleCmd {
    /// The record that sets `key` to `value`.
    pub fn set(key: String, value: String) -> (cmd: MultipleCmd)
        ensures
            cmd@ == (Record::Put { key: key@, value: value@ }),
    {
        MultipleCmd::Put { key, value }
    }

    /// The record that removes `key`.
    pub fn rm(key: String) -> (cmd: MultipleCmd)
        ensures
            cmd@ == (Record::Rm { key: key@ }),
    {
        MultipleCmd::Rm { key }
    }
}

/// `{"Set":{"key":`
pub const SET_HEAD: [u8; 14] = [
    0x7b, 0x22, 0x53, 0x65, 0x74, 0x22, 0x3a, 0x7b, 0x22, 0x6b, 0x65, 0x79, 0x22, 0x3a,
];

/// `,"value":`
pub const SET_MID: [u8; 9] = [0x2c, 0x22, 0x76, 0x61, 0x6c, 0x75, 0x65, 0x22, 0x3a];

/// `{"Rm":{"key":`
pub const RM_HEAD: [u8; 13] = [
    0x7b, 0x22, 0x52, 0x6d, 0x22, 0x3a, 0x7b, 0x22, 0x6b, 0x65, 0x79, 0x22, 0x3a,
];

/// `}}`
pub const TAIL: [u8; 2] = [0x7d, 0x7d];

/// `"`
pub const QUOTE: u8 = 0x22;

/// `\`
pub const BACKSLASH: u8 = 0x5c;

/// `token` stands in `bytes` at `start`.
pub open spec fn has_token(bytes: Seq<u8>, start: int, token: Seq<u8>) -> bool {
    &&& 0 <= start
    &&& start + token.len() <= bytes.len()
    &&& bytes.subrange(start, start + token.len()) == token
}

/// Scanning a string literal from `i`, a position after its opening quote:
/// the position one past the closing quote. A backslash takes the byte
/// after it along, so an escaped quote does not close the literal. `None`
/// where the bytes end first.
pub open spec fn literal_end(bytes: Seq<u8>, i: int) -> Option<int>
    decreases bytes.len() - i,
{
    if i < 0 || i >= bytes.len() {
        None
    } else if bytes[i] == QUOTE {
        Some(i + 1)
    } else if bytes[i] == BACKSLASH {
        if i + 1 < bytes.len() {
            literal_end(bytes, i + 2)
        } else {
            None
        }
    } else {
        literal_end(bytes, i + 1)
    }
}

/// The string whose literal opens at `start`, and the position one past the
/// literal. `None` where no literal opens there, where it does not close, or
/// where its text is not a JSON string.
pub open spec fn string_at(bytes: Seq<u8>, start: int) -> Option<(Seq<char>, int)> {
    if 0 <= start < bytes.len() && bytes[start] == QUOTE {
        match literal_end(bytes, start + 1) {
            Some(end) => match json_string_in(bytes.subrange(start, end)) {
                Some(s) => Some((s, end)),
                None => None,
            },
            None => None,
        }
    } else {
        None
    }
}

/// The `Set` record that begins at `start`, and the position one past it.
pub open spec fn set_at(bytes: Seq<u8>, start: int) -> Option<(Record, int)> {
    if has_token(bytes, start, SET_HEAD@) {
        match string_at(bytes, start + 14) {
            Some((key, mid)) => if has_token(bytes, mid, SET_MID@) {
                match string_at(bytes, mid + 9) {
                    Some((value, tail)) => if has_token(bytes, tail, TAIL@) {
                        Some((Record::Put { key, value }, tail + 2))
                    } else {
                        None
                    },
                    None => None,
                }
            } else {
                None
            },
            None => None,
        }
    } else {
        None
    }
}

/// The `Rm` record that begins at `start`, and the position one past it.
pub open spec fn rm_at(bytes: Seq<u8>, start: int) -> Option<(Record, int)> {
    if has_token(bytes, start, RM_HEAD@) {
        match string_at(bytes, start + 13) {
            Some((key, tail)) => if has_token(bytes, tail, TAIL@) {
                Some((Record::Rm { key }, tail + 2))
            } else {
                None
            },
            None => None,
        }
    } else {
        None
    }
}

/// The record that begins at `start`, and the position one past it; `None`
/// where the bytes from `start` on do not begin with a record.
pub open spec fn record_at(bytes: Seq<u8>, start: int) -> Option<(Record, int)> {
    if has_token(bytes, start, SET_HEAD@) {
        set_at(bytes, start)
    } else {
        rm_at(bytes, start)
    }
}

/// `bytes` is the record `rec`, whole and nothing else.
pub open spec fn is_record(bytes: Seq<u8>, rec: Record) -> bool {
    record_at(bytes, 0) == Some((rec, bytes.len() as int))
}

/// The frame of `rec` around the JSON text of its strings.
pub open spec fn framed(rec: Record) -> Seq<u8> {
    match rec {
        Record::Put { key, value } => SET_HEAD@ + json_text_of(key) + SET_MID@ + json_text_of(
            value,
        ) + TAIL@,
        Record::Rm { key } => RM_HEAD@ + json_text_of(key) + TAIL@,
    }
}

/// The lengths of the four tokens of the frame.
pub proof fn lemma_token_lengths()
    ensures
        SET_HEAD@.len() == 14,
        SET_MID@.len() == 9,
        RM_HEAD@.len() == 13,
        TAIL@.len() == 2,
{
}

/// A literal that closes, closes after the scan position and inside the
/// bytes.
pub proof fn lemma_literal_bounds(bytes: Seq<u8>, i: int)
    requires
        literal_end(bytes, i) is Some,
    ensures
        0 <= i < literal_end(bytes, i).unwrap() <= bytes.len(),
    decreases bytes.len() - i,
{
    if bytes[i] == QUOTE {
    } else if bytes[i] == BACKSLASH {
        lemma_literal_bounds(bytes, i + 2);
    } else {
        lemma_literal_bounds(bytes, i + 1);
    }
}

/// A record lies inside the bytes and is not empty.
pub proof fn lemma_record_bounds(bytes: Seq<u8>, start: int)
    requires
        record_at(bytes, start) is Some,
    ensures
        0 <= start < record_at(bytes, start).unwrap().1 <= bytes.len(),
{
    if has_token(bytes, start, SET_HEAD@) {
        let (key, mid) = string_at(bytes, start + 14).unwrap();
        lemma_literal_bounds(bytes, start + 15);
        let (value, tail) = string_at(bytes, mid + 9).unwrap();
        lemma_literal_bounds(bytes, mid + 10);
    } else {
        let (key, tail) = string_at(bytes, start + 13).unwrap();
        lemma_literal_bounds(bytes, start + 14);
    }
}

/// The scan of a literal reads only the literal: where `b` holds, `d`
/// further on, the bytes that `a` holds from `i` to the end of the literal,
/// it closes there as well.
pub proof fn lemma_literal_moves(a: Seq<u8>, i: int, b: Seq<u8>, d: int)
    requires
        literal_end(a, i) is Some,
        0 <= i + d,
        literal_end(a, i).unwrap() + d <= b.len(),
        forall|k: int| i <= k < literal_end(a, i).unwrap() ==> a[k] == #[trigger] b[k + d],
    ensures
        literal_end(b, i + d) == Some(literal_end(a, i).unwrap() + d),
    decreases a.len() - i,
{
    lemma_literal_bounds(a, i);
    assert(a[i] == b[i + d]);
    if a[i] == QUOTE {
    } else if a[i] == BACKSLASH {
        lemma_literal_moves(a, i + 2, b, d);
    } else {
        lemma_literal_moves(a, i + 1, b, d);
    }
}

/// The same for a string: its value depends on the bytes of its literal
/// alone.
pub proof fn lemma_string_moves(a: Seq<u8>, start: int, b: Seq<u8>, d: int)
    requires
        string_at(a, start) is Some,
        0 <= start + d,
        string_at(a, start).unwrap().1 + d <= b.len(),
        forall|k: int| start <= k < string_at(a, start).unwrap().1 ==> a[k] == #[trigger] b[k + d],
    ensures
        string_at(b, start + d) == Some(
            (string_at(a, start).unwrap().0, string_at(a, start).unwrap().1 + d),
        ),
{
    let end = literal_end(a, start + 1).unwrap();
    lemma_literal_bounds(a, start + 1);
    assert(a[start] == b[start + d]);
    lemma_literal_moves(a, start + 1, b, d);
    let x = a.subrange(start, end);
    let y = b.subrange(start + d, end + d);
    assert forall|j: int| 0 <= j < x.len() implies #[trigger] x[j] == y[j] by {
        assert(a[start + j] == b[start + j + d]);
    }
    assert(x =~= y);
}

/// The same for a token.
pub proof fn lemma_token_moves(a: Seq<u8>, p: int, token: Seq<u8>, b: Seq<u8>, d: int)
    requires
        has_token(a, p, token),
        0 <= p + d,
        p + token.len() + d <= b.len(),
        forall|k: int| p <= k < p + token.len() ==> a[k] == #[trigger] b[k + d],
    ensures
        has_token(b, p + d, token),
{
    let x = a.subrange(p, p + token.len());
    let y = b.subrange(p + d, p + d + token.len());
    assert forall|j: int| 0 <= j < x.len() implies #[trigger] x[j] == y[j] by {
        assert(a[p + j] == b[p + j + d]);
    }
    assert(x =~= y);
}

/// A record is read from its own bytes alone: where `b` holds at `t` the
/// bytes that make up the record at `s` in `a`, the same record begins at
/// `t` in `b`.
#[verifier::rlimit(40)]
pub proof fn lemma_record_moves(a: Seq<u8>, s: int, b: Seq<u8>, t: int)
    requires
        record_at(a, s) is Some,
        0 <= t,
        t + (record_at(a, s).unwrap().1 - s) <= b.len(),
        b.subrange(t, t + (record_at(a, s).unwrap().1 - s)) == a.subrange(
            s,
            record_at(a, s).unwrap().1,
        ),
    ensures
        record_at(b, t) == Some((record_at(a, s).unwrap().0, t + (record_at(a, s).unwrap().1 - s))),
{
    let end = record_at(a, s).unwrap().1;
    let d = t - s;
    lemma_record_bounds(a, s);
    assert forall|k: int| s <= k < end implies a[k] == #[trigger] b[k + d] by {
        assert(a.subrange(s, end)[k - s] == b.subrange(t, t + (end - s))[k - s]);
    }
    if has_token(a, s, SET_HEAD@) {
        let (key, mid) = string_at(a, s + 14).unwrap();
        lemma_literal_bounds(a, s + 15);
        let (value, tail) = string_at(a, mid + 9).unwrap();
        lemma_literal_bounds(a, mid + 10);
        lemma_token_moves(a, s, SET_HEAD@, b, d);
        lemma_string_moves(a, s + 14, b, d);
        lemma_token_moves(a, mid, SET_MID@, b, d);
        lemma_string_moves(a, mid + 9, b, d);
        lemma_token_moves(a, tail, TAIL@, b, d);
    } else {
        let (key, tail) = string_at(a, s + 13).unwrap();
        lemma_literal_bounds(a, s + 14);
        lemma_token_moves(a, s, RM_HEAD@, b, d);
        lemma_string_moves(a, s + 13, b, d);
        lemma_token_moves(a, tail, TAIL@, b, d);
        assert(!has_token(b, t, SET_HEAD@)) by {
            if has_token(b, t, SET_HEAD@) {
                assert(b.subrange(t, t + 14)[2] == SET_HEAD@[2]);
                assert(b.subrange(t, t + 13)[2] == RM_HEAD@[2]);
            }
        }
    }
}

/// Where `token` stands in `bytes` at `start`, the position one past it.
pub fn skip_token(bytes: &[u8], start: usize, token: &[u8]) -> (r: Option<usize>)
    ensures
        match r {
            Some(next) => has_token(bytes@, start as int, token@) && next == start + token@.len(),
            None => !has_token(bytes@, start as int, token@),
        },
{
    if start > bytes.len() || token.len() > bytes.len() - start {
        return None;
    }
    let mut i: usize = 0;
    while i < token.len()
        invariant
            start + token.len() <= bytes.len(),
            i <= token.len(),
            bytes@.subrange(start as int, start + i) == token@.subrange(0, i as int),
        decreases token.len() - i,
    {
        if bytes[start + i] != token[i] {
            assert(bytes@.subrange(start as int, start + token.len())[i as int] != token@[i as int]);
            return None;
        }
        assert(bytes@.subrange(start as int, start + i + 1) =~= bytes@.subrange(
            start as int,
            start + i,
        ).push(bytes@[start + i]));
        assert(token@.subrange(0, i + 1) =~= token@.subrange(0, i as int).push(token@[i as int]));
        i += 1;
    }
    assert(token@.subrange(0, token.len() as int) =~= token@);
    Some(start + token.len())
}

/// Scans a string literal from `from`, a position after its opening quote,
/// to one past its closing quote.
pub fn find_literal_end(bytes: &[u8], from: usize) -> (r: Option<usize>)
    ensures
        match r {
            Some(end) => literal_end(bytes@, from as int) == Some(end as int),
            None => literal_end(bytes@, from as int) is None,
        },
{
    let mut i: usize = from;
    while i < bytes.len()
        invariant
            from <= i,
            literal_end(bytes@, i as int) == literal_end(bytes@, from as int),
        decreases bytes.len() - i,
    {
        if bytes[i] == QUOTE {
            return Some(i + 1);
        } else if bytes[i] == BACKSLASH {
            if bytes.len() - i <= 2 {
                assert(i + 1 < bytes.len() ==> literal_end(bytes@, i + 2) is None);
                return None;
            }
            i += 2;
        } else {
            i += 1;
        }
    }
    None
}

/// Reads the string whose literal opens at `start`.
pub fn read_string(bytes: &[u8], start: usize) -> (r: Result<(String, usize), KvsError>)
    ensures
        match r {
            Ok((s, end)) => string_at(bytes@, start as int) == Some((s@, end as int)),
            Err(e) => string_at(bytes@, start as int) is None && e is Serde,
        },
{
    if start >= bytes.len() || bytes[start] != QUOTE {
        return Err(KvsError::Serde(json_error("expected a string literal")));
    }
    match find_literal_end(bytes, start + 1) {
        None => Err(KvsError::Serde(json_error("unterminated string literal"))),
        Some(end) => {
            proof {
                lemma_literal_bounds(bytes@, start + 1);
            }
            match read_json_string(slice_subrange(bytes, start, end)) {
                Ok(s) => Ok((s, end)),
                Err(e) => Err(KvsError::Serde(e)),
            }
        },
    }
}

/// Reads the record that begins at `start`. Returns it with the position
/// one past it, or a `Serde` error where no record begins there.
#[verifier::rlimit(40)]
pub fn decode_record(bytes: &[u8], start: usize) -> (r: Result<(MultipleCmd, usize), KvsError>)
    ensures
        match r {
            Ok((cmd, end)) => record_at(bytes@, start as int) == Some((cmd@, end as int)),
            Err(e) => record_at(bytes@, start as int) is None && e is Serde,
        },
{
    proof {
        lemma_token_lengths();
    }
    if let Some(key_at) = skip_token(bytes, start, SET_HEAD.as_slice()) {
        let (key, mid) = match read_string(bytes, key_at) {
            Ok(found) => found,
            Err(e) => { return Err(e); },
        };
        let value_at = match skip_token(bytes, mid, SET_MID.as_slice()) {
            Some(next) => next,
            None => { return Err(KvsError::Serde(json_error("expected the value of a Set record"))); },
        };
        let (value, tail) = match read_string(bytes, value_at) {
            Ok(found) => found,
            Err(e) => { return Err(e); },
        };
        match skip_token(bytes, tail, TAIL.as_slice()) {
            Some(end) => Ok((MultipleCmd::Put { key, value }, end)),
            None => Err(KvsError::Serde(json_error("expected the end of a Set record"))),
        }
    } else if let Some(key_at) = skip_token(bytes, start, RM_HEAD.as_slice()) {
        let (key, tail) = match read_string(bytes, key_at) {
            Ok(found) => found,
            Err(e) => { return Err(e); },
        };
        match skip_token(bytes, tail, TAIL.as_slice()) {
            Some(end) => Ok((MultipleCmd::Rm { key }, end)),
            None => Err(KvsError::Serde(json_error("expected the end of a Rm record"))),
        }
    } else {
        Err(KvsError::Serde(json_error("expected a Set or Rm record")))
    }
}

/// Frames a `Set` record around the JSON text of its key and of its value.
pub fn frame_set(key_json: &[u8], value_json: &[u8]) -> (record: Vec<u8>)
    ensures
        record@ == SET_HEAD@ + key_json@ + SET_MID@ + value_json@ + TAIL@,
{
    let mut record: Vec<u8> = Vec::new();
    record.extend_from_slice(SET_HEAD.as_slice());
    record.extend_from_slice(key_json);
    record.extend_from_slice(SET_MID.as_slice());
    record.extend_from_slice(value_json);
    record.extend_from_slice(TAIL.as_slice());
    record
}

/// Frames an `Rm` record around the JSON text of its key.
pub fn frame_rm(key_json: &[u8]) -> (record: Vec<u8>)
    ensures
        record@ == RM_HEAD@ + key_json@ + TAIL@,
{
    let mut record: Vec<u8> = Vec::new();
    record.extend_from_slice(RM_HEAD.as_slice());
    record.extend_from_slice(key_json);
    record.extend_from_slice(TAIL.as_slice());
    record
}

/// Whether two records are the same.
pub fn same_record(a: &MultipleCmd, b: &MultipleCmd) -> (r: bool)
    ensures
        r == (a@ == b@),
{
    match (a, b) {
        (MultipleCmd::Put { key: k1, value: v1 }, MultipleCmd::Put { key: k2, value: v2 }) => {
            *k1 == *k2 && *v1 == *v2
        },
        (MultipleCmd::Rm { key: k1 }, MultipleCmd::Rm { key: k2 }) => *k1 == *k2,
        _ => false,
    }
}

/// Hands `record` back where it reads as `cmd`, whole and nothing else, and
/// fails with a `Serde` error where it does not. This is what lets the
/// engine rely on a record it has written without relying on how the JSON
/// text of a string is made.
pub fn seal(cmd: &MultipleCmd, record: Vec<u8>) -> (r: Result<Vec<u8>, KvsError>)
    ensures
        match r {
            Ok(sealed) => sealed == record && is_record(record@, cmd@),
            Err(e) => !is_record(record@, cmd@) && e is Serde,
        },
{
    match decode_record(record.as_slice(), 0) {
        Ok((found, end)) => {
            if end == record.len() && same_record(&found, cmd) {
                Ok(record)
            } else {
                Err(KvsError::Serde(json_error("a record does not read back as it was written")))
            }
        },
        Err(e) => Err(e),
    }
}

/// Writes `cmd` as the frame around the JSON text of its strings. This
/// does not fail: the `Result` is there for the error that `serde_json`
/// has in its signature.
pub fn write_record(cmd: &MultipleCmd) -> (r: Result<Vec<u8>, KvsError>)
    ensures
        match r {
            Ok(record) => record@ == framed(cmd@),
            Err(_) => false,
        },
{
    match cmd {
        MultipleCmd::Put { key, value } => {
            let key_json = match write_json_string(key.as_str()) {
                Ok(text) => text,
                Err(e) => { return Err(KvsError::Serde(e)); },
            };
            let value_json = match write_json_string(value.as_str()) {
                Ok(text) => text,
                Err(e) => { return Err(KvsError::Serde(e)); },
            };
            Ok(frame_set(key_json.as_slice(), value_json.as_slice()))
        },
        MultipleCmd::Rm { key } => {
            let key_json = match write_json_string(key.as_str()) {
                Ok(text) => text,
                Err(e) => { return Err(KvsError::Serde(e)); },
            };
            Ok(frame_rm(key_json.as_slice()))
        },
    }
}

/// Writes `cmd` in its on-disk form: the frame around the JSON text of its
/// strings, sealed. `Ok` exactly where the written record reads back as
/// `cmd`, whole and nothing else; a `Serde` error where it does not.
pub fn encode(cmd: &MultipleCmd) -> (r: Result<Vec<u8>, KvsError>)
    ensures
        match r {
            Ok(record) => is_record(record@, cmd@) && record@ == framed(cmd@),
            Err(e) => e is Serde && !is_record(framed(cmd@), cmd@),
        },
{
    match write_record(cmd) {
        Ok(record) => seal(cmd, record),
        Err(e) => Err(e),
    }
}

} // verus!
