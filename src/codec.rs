//! The record format of the log.
//!
//! A `Set` record is `{"Set":{"key":K,"value":V}}` and a `Remove` record is
//! `{"Rm":{"key":K}}`, where `K` and `V` are JSON string literals. Records
//! follow each other with nothing in between, so a decoder finds the end of a
//! record from its bytes alone.
use crate::command::Commands;
use crate::error::{KvErr, Result};
use vstd::prelude::*;

verus! {

/// The JSON string literal that serde_json writes for a string.
pub uninterp spec fn json_of(s: Seq<char>) -> Seq<u8>;

/// The string that serde_json reads from a JSON string literal.
pub uninterp spec fn json_text_of(t: Seq<u8>) -> Seq<char>;

pub open spec fn quote() -> u8 {
    34u8
}

pub open spec fn backslash() -> u8 {
    92u8
}

/// `{"Set":{"key":`
pub open spec fn set_head() -> Seq<u8> {
    seq![123u8, 34, 83, 101, 116, 34, 58, 123, 34, 107, 101, 121, 34, 58]
}

/// `{"Rm":{"key":`
pub open spec fn rm_head() -> Seq<u8> {
    seq![123u8, 34, 82, 109, 34, 58, 123, 34, 107, 101, 121, 34, 58]
}

/// `,"value":`
pub open spec fn value_mid() -> Seq<u8> {
    seq![44u8, 34, 118, 97, 108, 117, 101, 34, 58]
}

/// `}}`
pub open spec fn tail() -> Seq<u8> {
    seq![125u8, 125]
}

/// Position of the quote that closes a JSON string literal, scanning from
/// position `i` inside it: a backslash escapes the byte after it.
pub open spec fn closing_quote(t: Seq<u8>, i: int) -> Option<int>
    decreases t.len() - i,
{
    if i < 0 || i >= t.len() {
        None
    } else if t[i] == quote() {
        Some(i)
    } else if t[i] == backslash() {
        if i + 1 >= t.len() {
            None
        } else {
            closing_quote(t, i + 2)
        }
    } else {
        closing_quote(t, i + 1)
    }
}

proof fn lemma_closing_quote_bounds(t: Seq<u8>, i: int)
    ensures
        closing_quote(t, i) matches Some(q) ==> i <= q < t.len() && t[q] == quote(),
    decreases t.len() - i,
{
    if 0 <= i < t.len() && t[i] != quote() {
        if t[i] == backslash() {
            if i + 1 < t.len() {
                lemma_closing_quote_bounds(t, i + 2);
            }
        } else {
            lemma_closing_quote_bounds(t, i + 1);
        }
    }
}

/// `t` is one JSON string literal: a quote, a body in which every quote and
/// backslash is escaped, and a closing quote as its last byte.
pub open spec fn is_string_token(t: Seq<u8>) -> bool {
    t.len() >= 2 && t[0] == quote() && closing_quote(t, 1) == Some(t.len() - 1)
}

/// End (exclusive) of the string literal that opens at `p` in `b`.
pub open spec fn string_token_at(b: Seq<u8>, p: int) -> Option<int> {
    if 0 <= p < b.len() && b[p] == quote() {
        match closing_quote(b, p + 1) {
            Some(q) => Some(q + 1),
            None => None,
        }
    } else {
        None
    }
}

/// `b` holds the bytes `lit` at position `p`.
pub open spec fn has_at(b: Seq<u8>, p: int, lit: Seq<u8>) -> bool {
    0 <= p && p + lit.len() <= b.len() && b.subrange(p, p + lit.len()) == lit
}

/// The bytes of a `Set` record with the given key and value literals.
pub open spec fn set_record(k: Seq<u8>, v: Seq<u8>) -> Seq<u8> {
    set_head() + k + value_mid() + v + tail()
}

/// The bytes of a `Remove` record with the given key literal.
pub open spec fn rm_record(k: Seq<u8>) -> Seq<u8> {
    rm_head() + k + tail()
}

/// What the framing of a record finds: the literals of its strings.
pub enum RecordShape {
    SetShape { key: Seq<u8>, value: Seq<u8> },
    RmShape { key: Seq<u8> },
}

/// The record that starts at `p` in `b`, with the position where it ends.
pub open spec fn parse_record(b: Seq<u8>, p: int) -> Option<(RecordShape, int)> {
    if has_at(b, p, set_head()) {
        let k0 = p + set_head().len();
        match string_token_at(b, k0) {
            Some(k1) => if has_at(b, k1, value_mid()) {
                let v0 = k1 + value_mid().len();
                match string_token_at(b, v0) {
                    Some(v1) => if has_at(b, v1, tail()) {
                        Some(
                            (
                                RecordShape::SetShape {
                                    key: b.subrange(k0, k1),
                                    value: b.subrange(v0, v1),
                                },
                                v1 + tail().len(),
                            ),
                        )
                    } else {
                        None
                    },
                    None => None,
                }
            } else {
                None
            },
            None => None,
        }
    } else if has_at(b, p, rm_head()) {
        let k0 = p + rm_head().len();
        match string_token_at(b, k0) {
            Some(k1) => if has_at(b, k1, tail()) {
                Some((RecordShape::RmShape { key: b.subrange(k0, k1) }, k1 + tail().len()))
            } else {
                None
            },
            None => None,
        }
    } else {
        None
    }
}

/// The record at `p` in `b` is a `Set` whose literals serde_json wrote for
/// the key `x` and the value `y`.
pub open spec fn decodes_set(b: Seq<u8>, p: int, x: Seq<char>, y: Seq<char>) -> bool {
    parse_record(b, p) matches Some((RecordShape::SetShape { key, value }, e)) && key == json_of(x)
        && value == json_of(y)
}

/// The record at `p` in `b` is a `Remove` whose literal serde_json wrote for
/// the key `x`.
pub open spec fn decodes_rm(b: Seq<u8>, p: int, x: Seq<char>) -> bool {
    parse_record(b, p) matches Some((RecordShape::RmShape { key }, e)) && key == json_of(x)
}

/// `b` holds exactly one record.
pub open spec fn fills(b: Seq<u8>) -> bool {
    parse_record(b, 0) matches Some((shape, e)) && e == b.len()
}

/// A record ends after it starts and within the bytes.
pub proof fn lemma_parse_end(b: Seq<u8>, p: int)
    ensures
        parse_record(b, p) matches Some((shape, e)) ==> p < e <= b.len(),
{
    assert forall|i: int| #[trigger] closing_quote(b, i) is Some implies i <= closing_quote(b, i)->0 by {
        lemma_closing_quote_bounds(b, i);
    }
    assert(set_head().len() == 14 && rm_head().len() == 13 && value_mid().len() == 9
        && tail().len() == 2);
}

/// The string literals of a framed record are ones serde_json wrote.
pub open spec fn literals_written(shape: RecordShape) -> bool {
    match shape {
        RecordShape::SetShape { key, value } => (exists|x: Seq<char>| json_of(x) == key) && (exists|
            y: Seq<char>,
        | json_of(y) == value),
        RecordShape::RmShape { key } => exists|x: Seq<char>| json_of(x) == key,
    }
}

/// The bytes of `b` from position `p` on are a run of records whose string
/// literals serde_json wrote; an empty run counts.
pub open spec fn readable(b: Seq<u8>, p: int) -> bool
    decreases b.len() - p,
{
    if p < 0 || p >= b.len() {
        true
    } else {
        match parse_record(b, p) {
            None => false,
            Some((shape, e)) => e > p && literals_written(shape) && readable(b, e),
        }
    }
}

proof fn lemma_closing_quote_prefix(a: Seq<u8>, b: Seq<u8>, i: int)
    requires
        0 <= i,
    ensures
        closing_quote(a + b, a.len() + i) == match closing_quote(b, i) {
            Some(q) => Some(a.len() + q),
            None => None,
        },
    decreases b.len() - i,
{
    if i < b.len() {
        assert((a + b)[a.len() + i] == b[i]);
        if b[i] != quote() {
            if b[i] == backslash() {
                if i + 1 < b.len() {
                    lemma_closing_quote_prefix(a, b, i + 2);
                }
            } else {
                lemma_closing_quote_prefix(a, b, i + 1);
            }
        }
    }
}

proof fn lemma_has_at_prefix(a: Seq<u8>, b: Seq<u8>, p: int, lit: Seq<u8>)
    requires
        0 <= p,
    ensures
        has_at(a + b, a.len() + p, lit) == has_at(b, p, lit),
{
    if p + lit.len() <= b.len() {
        assert((a + b).subrange(a.len() + p, a.len() + p + lit.len()) =~= b.subrange(
            p,
            p + lit.len(),
        ));
    }
}

proof fn lemma_token_prefix(a: Seq<u8>, b: Seq<u8>, p: int)
    requires
        0 <= p,
    ensures
        string_token_at(a + b, a.len() + p) == match string_token_at(b, p) {
            Some(e) => Some(a.len() + e),
            None => None,
        },
{
    lemma_closing_quote_prefix(a, b, p + 1);
    if p < b.len() {
        assert((a + b)[a.len() + p] == b[p]);
    }
}

/// Bytes in front of a record do not change how it frames.
pub proof fn lemma_parse_prefix(a: Seq<u8>, b: Seq<u8>, p: int)
    requires
        0 <= p,
    ensures
        parse_record(a + b, a.len() + p) == match parse_record(b, p) {
            Some((shape, e)) => Some((shape, a.len() + e)),
            None => None,
        },
{
    let c = a + b;
    let n = a.len() as int;
    assert(set_head().len() == 14 && rm_head().len() == 13 && value_mid().len() == 9
        && tail().len() == 2);
    assert forall|i: int| #![trigger string_token_at(b, i)] 0 <= i implies string_token_at(c, n + i)
        == match string_token_at(b, i) {
        Some(e) => Some(n + e),
        None => None,
    } by {
        lemma_token_prefix(a, b, i);
    }
    assert forall|i: int, lit: Seq<u8>| #![trigger has_at(b, i, lit)] 0 <= i implies has_at(
        c,
        n + i,
        lit,
    ) == has_at(b, i, lit) by {
        lemma_has_at_prefix(a, b, i, lit);
    }
    assert forall|i: int, j: int| 0 <= i <= j <= b.len() implies #[trigger] c.subrange(n + i, n + j)
        == b.subrange(i, j) by {
        assert(c.subrange(n + i, n + j) =~= b.subrange(i, j));
    }
    lemma_has_at_prefix(a, b, p, set_head());
    lemma_has_at_prefix(a, b, p, rm_head());
    lemma_token_prefix(a, b, p + 14);
    lemma_token_prefix(a, b, p + 13);
    assert forall|i: int| #![trigger closing_quote(b, i)] closing_quote(b, i) is Some implies i
        <= closing_quote(b, i)->0 < b.len() by {
        lemma_closing_quote_bounds(b, i);
    }
}

/// Bytes in front of a run of records do not change whether it reads.
pub proof fn lemma_readable_prefix(a: Seq<u8>, b: Seq<u8>, p: int)
    requires
        0 <= p,
    ensures
        readable(a + b, a.len() + p) == readable(b, p),
    decreases b.len() - p,
{
    if p < b.len() {
        lemma_parse_prefix(a, b, p);
        match parse_record(b, p) {
            Some((shape, e)) => {
                if e > p {
                    lemma_readable_prefix(a, b, e);
                }
            },
            None => {},
        }
    }
}

/// A `Set` record that serde_json's literals fill, followed by a readable
/// run, is a readable run: so is every segment the store writes.
pub proof fn lemma_set_record_readable(x: Seq<char>, y: Seq<char>, rest: Seq<u8>)
    requires
        is_string_token(json_of(x)),
        is_string_token(json_of(y)),
        readable(rest, 0),
    ensures
        readable(set_record(json_of(x), json_of(y)) + rest, 0),
{
    let rec = set_record(json_of(x), json_of(y));
    lemma_set_record_frames(json_of(x), json_of(y), rest);
    lemma_readable_prefix(rec, rest, 0);
    assert(literals_written(RecordShape::SetShape { key: json_of(x), value: json_of(y) }));
}

/// A `Remove` record that a serde_json literal fills, followed by a readable
/// run, is a readable run.
pub proof fn lemma_rm_record_readable(x: Seq<char>, rest: Seq<u8>)
    requires
        is_string_token(json_of(x)),
        readable(rest, 0),
    ensures
        readable(rm_record(json_of(x)) + rest, 0),
{
    let rec = rm_record(json_of(x));
    lemma_rm_record_frames(json_of(x), rest);
    lemma_readable_prefix(rec, rest, 0);
    assert(literals_written(RecordShape::RmShape { key: json_of(x) }));
}

/// The command that a framed record stands for, once its strings are read.
pub open spec fn command_of(shape: RecordShape, c: Commands) -> bool {
    match shape {
        RecordShape::SetShape { key, value } => c matches Commands::Put { key: k, value: v } && k@
            == json_text_of(key) && v@ == json_text_of(value),
        RecordShape::RmShape { key } => c matches Commands::Rm { key: k } && k@ == json_text_of(
            key,
        ),
    }
}

proof fn lemma_closing_quote_shift(a: Seq<u8>, t: Seq<u8>, c: Seq<u8>, i: int)
    requires
        0 <= i,
        closing_quote(t, i) is Some,
    ensures
        closing_quote(a + t + c, a.len() + i) == Some(a.len() + closing_quote(t, i)->0),
    decreases t.len() - i,
{
    let b = a + t + c;
    assert(b[a.len() + i] == t[i]);
    if t[i] != quote() {
        if t[i] == backslash() {
            assert(b[a.len() + i + 1] == t[i + 1]);
            lemma_closing_quote_shift(a, t, c, i + 2);
        } else {
            lemma_closing_quote_shift(a, t, c, i + 1);
        }
    }
}

proof fn lemma_token_at(a: Seq<u8>, t: Seq<u8>, c: Seq<u8>)
    requires
        is_string_token(t),
    ensures
        string_token_at(a + t + c, a.len() as int) == Some((a.len() + t.len()) as int),
        (a + t + c).subrange(a.len() as int, (a.len() + t.len()) as int) == t,
{
    lemma_closing_quote_shift(a, t, c, 1);
    assert((a + t + c)[a.len() as int] == t[0]);
    assert((a + t + c).subrange(a.len() as int, (a.len() + t.len()) as int) =~= t);
}

proof fn lemma_lit_at(a: Seq<u8>, lit: Seq<u8>, c: Seq<u8>)
    ensures
        has_at(a + lit + c, a.len() as int, lit),
{
    assert((a + lit + c).subrange(a.len() as int, (a.len() + lit.len()) as int) =~= lit);
}

/// A `Set` record frames back to its two string literals and its exact
/// length, whatever bytes follow it in the segment.
pub proof fn lemma_set_record_frames(k: Seq<u8>, v: Seq<u8>, rest: Seq<u8>)
    requires
        is_string_token(k),
        is_string_token(v),
    ensures
        parse_record(set_record(k, v) + rest, 0) == Some(
            (RecordShape::SetShape { key: k, value: v }, set_record(k, v).len() as int),
        ),
{
    let b = set_record(k, v) + rest;
    let h = set_head();
    let hk = h + k;
    let hkm = hk + value_mid();
    let hkmv = hkm + v;
    assert(b =~= Seq::<u8>::empty() + h + (k + value_mid() + v + tail() + rest));
    lemma_lit_at(Seq::<u8>::empty(), h, k + value_mid() + v + tail() + rest);
    assert(b =~= h + k + (value_mid() + v + tail() + rest));
    lemma_token_at(h, k, value_mid() + v + tail() + rest);
    assert(b =~= hk + value_mid() + (v + tail() + rest));
    lemma_lit_at(hk, value_mid(), v + tail() + rest);
    assert(b =~= hkm + v + (tail() + rest));
    lemma_token_at(hkm, v, tail() + rest);
    assert(b =~= hkmv + tail() + rest);
    lemma_lit_at(hkmv, tail(), rest);
}

/// A `Remove` record frames back to its key literal and its exact length,
/// whatever bytes follow it in the segment.
pub proof fn lemma_rm_record_frames(k: Seq<u8>, rest: Seq<u8>)
    requires
        is_string_token(k),
    ensures
        parse_record(rm_record(k) + rest, 0) == Some(
            (RecordShape::RmShape { key: k }, rm_record(k).len() as int),
        ),
{
    let b = rm_record(k) + rest;
    let h = rm_head();
    let hk = h + k;
    assert(b =~= Seq::<u8>::empty() + h + (k + tail() + rest));
    lemma_lit_at(Seq::<u8>::empty(), h, k + tail() + rest);
    assert(!has_at(b, 0, set_head())) by {
        assert(b[2] != set_head()[2]);
        assert(b.subrange(0, 14)[2] == b[2]);
    }
    assert(b =~= h + k + (tail() + rest));
    lemma_token_at(h, k, tail() + rest);
    assert(b =~= hk + tail() + rest);
    lemma_lit_at(hk, tail(), rest);
}

/// Relies on serde_json::to_vec on a string: it writes the JSON string
/// literal, a quote, the bytes with each quote, backslash and control byte
/// escaped by a backslash sequence, and a closing quote. It writes into a
/// `Vec`, which cannot fail, and serde_json's reader undoes each escape.
#[verifier::external_body]
fn json_string(s: &String) -> (r: core::result::Result<Vec<u8>, serde_json::Error>)
    ensures
        r is Ok,
        r is Ok ==> r->Ok_0@ == json_of(s@),
        r is Ok ==> is_string_token(r->Ok_0@),
        r is Ok ==> json_text_of(r->Ok_0@) == s@,
{
    serde_json::to_vec(s)
}

/// Relies on serde_json::from_slice, read as a `String`: it reads back any
/// literal that serde_json wrote for a string.
#[verifier::external_body]
fn json_text(t: &[u8]) -> (r: core::result::Result<String, serde_json::Error>)
    ensures
        r is Ok ==> r->Ok_0@ == json_text_of(t@),
        forall|s: Seq<char>| #[trigger] json_of(s) == t@ ==> (r is Ok && r->Ok_0@ == s),
{
    serde_json::from_slice::<String>(t)
}

fn set_head_bytes() -> (r: Vec<u8>)
    ensures
        r@ == set_head(),
{
    let r = vec![123u8, 34, 83, 101, 116, 34, 58, 123, 34, 107, 101, 121, 34, 58];
    assert(r@ =~= set_head());
    r
}

fn rm_head_bytes() -> (r: Vec<u8>)
    ensures
        r@ == rm_head(),
{
    let r = vec![123u8, 34, 82, 109, 34, 58, 123, 34, 107, 101, 121, 34, 58];
    assert(r@ =~= rm_head());
    r
}

fn value_mid_bytes() -> (r: Vec<u8>)
    ensures
        r@ == value_mid(),
{
    let r = vec![44u8, 34, 118, 97, 108, 117, 101, 34, 58];
    assert(r@ =~= value_mid());
    r
}

fn tail_bytes() -> (r: Vec<u8>)
    ensures
        r@ == tail(),
{
    let r = vec![125u8, 125];
    assert(r@ =~= tail());
    r
}

/// The `Set` record around the JSON string literals of a key and a value.
pub fn frame_set(key_lit: Vec<u8>, value_lit: Vec<u8>) -> (r: Vec<u8>)
    ensures
        r@ == set_record(key_lit@, value_lit@),
{
    let mut k = key_lit;
    let mut v = value_lit;
    let mut out = set_head_bytes();
    out.append(&mut k);
    let mut mid = value_mid_bytes();
    out.append(&mut mid);
    out.append(&mut v);
    let mut t = tail_bytes();
    out.append(&mut t);
    out
}

/// The `Remove` record around the JSON string literal of a key.
pub fn frame_rm(key_lit: Vec<u8>) -> (r: Vec<u8>)
    ensures
        r@ == rm_record(key_lit@),
{
    let mut k = key_lit;
    let mut out = rm_head_bytes();
    out.append(&mut k);
    let mut t = tail_bytes();
    out.append(&mut t);
    out
}

/// Encodes the record `Set{key, value}`.
pub fn encode_set(key: &String, value: &String) -> (r: Result<Vec<u8>>)
    ensures
        r is Ok,
        r is Ok ==> r->Ok_0@ == set_record(json_of(key@), json_of(value@)),
        r is Ok ==> is_string_token(json_of(key@)) && is_string_token(json_of(value@)),
        r is Ok ==> decodes_set(r->Ok_0@, 0, key@, value@) && fills(r->Ok_0@),
{
    let k = match json_string(key) {
        Ok(k) => k,
        Err(e) => return Err(KvErr::SerializeErr(e)),
    };
    let v = match json_string(value) {
        Ok(v) => v,
        Err(e) => return Err(KvErr::SerializeErr(e)),
    };
    let r = frame_set(k, v);
    proof {
        lemma_set_record_frames(json_of(key@), json_of(value@), Seq::<u8>::empty());
        assert(r@ + Seq::<u8>::empty() =~= r@);
    }
    Ok(r)
}

/// Encodes the record `Remove{key}`.
pub fn encode_remove(key: &String) -> (r: Result<Vec<u8>>)
    ensures
        r is Ok,
        r is Ok ==> r->Ok_0@ == rm_record(json_of(key@)),
        r is Ok ==> is_string_token(json_of(key@)),
        r is Ok ==> decodes_rm(r->Ok_0@, 0, key@) && fills(r->Ok_0@),
{
    let k = match json_string(key) {
        Ok(k) => k,
        Err(e) => return Err(KvErr::SerializeErr(e)),
    };
    let r = frame_rm(k);
    proof {
        lemma_rm_record_frames(json_of(key@), Seq::<u8>::empty());
        assert(r@ + Seq::<u8>::empty() =~= r@);
    }
    Ok(r)
}

fn matches_at(b: &[u8], p: usize, lit: &Vec<u8>) -> (r: bool)
    ensures
        r == has_at(b@, p as int, lit@),
{
    if p > b.len() || lit.len() > b.len() - p {
        return false;
    }
    let mut i: usize = 0;
    while i < lit.len()
        invariant
            p + lit@.len() <= b@.len(),
            b@.len() == b.len(),
            i <= lit@.len(),
            forall|j: int| 0 <= j < i ==> b@[p + j] == lit@[j],
        decreases lit@.len() - i,
    {
        if b[p + i] != lit[i] {
            assert(b@.subrange(p as int, p + lit@.len())[i as int] != lit@[i as int]);
            return false;
        }
        i = i + 1;
    }
    assert(b@.subrange(p as int, p + lit@.len()) =~= lit@);
    true
}

fn string_token_end(b: &[u8], p: usize) -> (r: Option<usize>)
    ensures
        match string_token_at(b@, p as int) {
            Some(e) => r matches Some(x) && x == e,
            None => r is None,
        },
        r matches Some(e) ==> p < e <= b@.len(),
{
    proof {
        lemma_closing_quote_bounds(b@, p + 1);
    }
    if p >= b.len() || b[p] != 34u8 {
        return None;
    }
    let mut i: usize = p + 1;
    while i < b.len()
        invariant
            p < b@.len(),
            b@[p as int] == quote(),
            p + 1 <= i <= b@.len(),
            closing_quote(b@, i as int) == closing_quote(b@, p + 1),
        decreases b@.len() - i,
    {
        if b[i] == 34u8 {
            return Some(i + 1);
        } else if b[i] == 92u8 {
            if i + 1 >= b.len() {
                return None;
            }
            i = i + 2;
        } else {
            i = i + 1;
        }
    }
    None
}

/// Decodes the record that starts at byte `pos` of `b`, and gives the
/// position where it ends. A record must end within `b`.
pub fn decode_record(b: &[u8], pos: usize) -> (r: Result<(Commands, usize)>)
    ensures
        match parse_record(b@, pos as int) {
            None => r matches Err(KvErr::Corrupt),
            Some((shape, end)) => match r {
                Ok((c, e)) => e == end && command_of(shape, c),
                Err(e) => e is SerializeErr,
            },
        },
        forall|x: Seq<char>, y: Seq<char>| #[trigger]
            decodes_set(b@, pos as int, x, y) ==> (r matches Ok((c, e)) && c matches Commands::Put {
                key,
                value,
            } && key@ == x && value@ == y),
        forall|x: Seq<char>| #[trigger]
            decodes_rm(b@, pos as int, x) ==> (r matches Ok((c, e)) && c matches Commands::Rm { key }
                && key@ == x),
{
    let n = b.len();
    let sh = set_head_bytes();
    assert(sh@.len() == 14);
    if matches_at(b, pos, &sh) {
        let k0 = pos + sh.len();
        let k1 = match string_token_end(b, k0) {
            Some(k1) => k1,
            None => return Err(KvErr::Corrupt),
        };
        let vm = value_mid_bytes();
        if !matches_at(b, k1, &vm) {
            return Err(KvErr::Corrupt);
        }
        let v0 = k1 + vm.len();
        let v1 = match string_token_end(b, v0) {
            Some(v1) => v1,
            None => return Err(KvErr::Corrupt),
        };
        let tl = tail_bytes();
        if !matches_at(b, v1, &tl) {
            return Err(KvErr::Corrupt);
        }
        let key = match json_text(&b[k0..k1]) {
            Ok(s) => s,
            Err(e) => return Err(KvErr::SerializeErr(e)),
        };
        let value = match json_text(&b[v0..v1]) {
            Ok(s) => s,
            Err(e) => return Err(KvErr::SerializeErr(e)),
        };
        Ok((Commands::Put { key, value }, v1 + tl.len()))
    } else {
        let rh = rm_head_bytes();
        assert(rh@.len() == 13);
        if !matches_at(b, pos, &rh) {
            return Err(KvErr::Corrupt);
        }
        let k0 = pos + rh.len();
        let k1 = match string_token_end(b, k0) {
            Some(k1) => k1,
            None => return Err(KvErr::Corrupt),
        };
        let tl = tail_bytes();
        if !matches_at(b, k1, &tl) {
            return Err(KvErr::Corrupt);
        }
        let key = match json_text(&b[k0..k1]) {
            Ok(s) => s,
            Err(e) => return Err(KvErr::SerializeErr(e)),
        };
        Ok((Commands::Rm { key }, k1 + tl.len()))
    }
}

/// The value of the `Set` record that fills `rec` exactly, as read at an
/// index location.
pub fn decode_value(rec: &[u8]) -> (r: Result<String>)
    ensures
        match parse_record(rec@, 0) {
            None => r matches Err(KvErr::Corrupt),
            Some((shape, end)) => {
                &&& r is Ok ==> end == rec@.len() && shape is SetShape && r->Ok_0@ == json_text_of(
                    shape->SetShape_value,
                )
                &&& r is Err ==> r->Err_0 is SerializeErr || (end != rec@.len() && r->Err_0 is Corrupt)
                    || (end == rec@.len() && shape is RmShape && r->Err_0 is UnknownCommand)
            },
        },
        forall|x: Seq<char>, y: Seq<char>| #[trigger]
            decodes_set(rec@, 0, x, y) && fills(rec@) ==> (r is Ok && r->Ok_0@ == y),
        forall|x: Seq<char>| #[trigger]
            decodes_rm(rec@, 0, x) && fills(rec@) ==> (r matches Err(KvErr::UnknownCommand)),
{
    match decode_record(rec, 0) {
        Ok((c, end)) => {
            if end != rec.len() {
                return Err(KvErr::Corrupt);
            }
            match c {
                Commands::Put { key, value } => Ok(value),
                _ => Err(KvErr::UnknownCommand),
            }
        },
        Err(e) => Err(e),
    }
}

} // verus!
