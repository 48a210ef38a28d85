//! Command records and their textual encoding.
//!
//! A record is written as a small JSON-like array, one per line:
//! `["Set","key","value"]`, `["Get","key"]` or `["Rm","key"]`.
//! Inside the quoted fields a quote, a backslash, a line feed and a carriage
//! return are escaped, so an encoded record never holds a raw line break and
//! the line feed that ends it is the record's only one.
use vstd::prelude::*;
use vstd::utf8::{decode_utf8, encode_utf8, valid_utf8};

verus! {

broadcast use vstd::utf8::encode_utf8_valid_utf8, vstd::utf8::encode_utf8_decode_utf8;

/// The byte `"`.
pub const QUOTE: u8 = 34;

/// The byte `\`.
pub const BACKSLASH: u8 = 92;

/// The line feed that ends every record in a log.
pub const NEWLINE: u8 = 10;

/// The carriage return.
pub const CARRIAGE_RETURN: u8 = 13;

/// The byte `n`, which follows a backslash for an escaped line feed.
pub const LETTER_N: u8 = 110;

/// The byte `r`, which follows a backslash for an escaped carriage return.
pub const LETTER_R: u8 = 114;

/// A command: the unit of the log and of the wire protocol.
#[derive(Debug, Clone, PartialEq, Eq)]
pub enum Command {
    /// Binds `key` to `value`; written with the tag `Set`.
    Put { key: String, value: String },
    /// Reads the value of `key`; never written to a log.
    Get { key: String },
    /// Erases the binding of `key`.
    Rm { key: String },
}

/// The mathematical value of a [`Command`].
pub enum Record {
    Put(Seq<char>, Seq<char>),
    Get(Seq<char>),
    Rm(Seq<char>),
}

impl View for Command {
    type V = Record;

    open spec fn view(&self) -> Record {
        match self {
            Command::Put { key, value } => Record::Put(key@, value@),
            Command::Get { key } => Record::Get(key@),
            Command::Rm { key } => Record::Rm(key@),
        }
    }
}

/// Bytes that are not a well-formed record body.
#[derive(Debug, Clone, Copy, PartialEq, Eq)]
pub struct DecodeError;

/// How one byte of a field is written.
pub open spec fn escape_byte(c: u8) -> Seq<u8> {
    if c == QUOTE {
        seq![BACKSLASH, QUOTE]
    } else if c == BACKSLASH {
        seq![BACKSLASH, BACKSLASH]
    } else if c == NEWLINE {
        seq![BACKSLASH, LETTER_N]
    } else if c == CARRIAGE_RETURN {
        seq![BACKSLASH, LETTER_R]
    } else {
        seq![c]
    }
}

/// How the bytes of a field are written between its quotes.
pub open spec fn escape(s: Seq<u8>) -> Seq<u8>
    decreases s.len(),
{
    if s.len() == 0 {
        Seq::empty()
    } else {
        escape(s.drop_last()) + escape_byte(s.last())
    }
}

/// `["Set","`
pub open spec fn set_tag() -> Seq<u8> {
    seq![91u8, 34u8, 83u8, 101u8, 116u8, 34u8, 44u8, 34u8]
}

/// `["Get","`
pub open spec fn get_tag() -> Seq<u8> {
    seq![91u8, 34u8, 71u8, 101u8, 116u8, 34u8, 44u8, 34u8]
}

/// `["Rm","`
pub open spec fn rm_tag() -> Seq<u8> {
    seq![91u8, 34u8, 82u8, 109u8, 34u8, 44u8, 34u8]
}

/// `","`, between the key and the value of a `Set`.
pub open spec fn separator() -> Seq<u8> {
    seq![34u8, 44u8, 34u8]
}

/// `"]`, the end of a record body.
pub open spec fn closing() -> Seq<u8> {
    seq![34u8, 93u8]
}

/// A string field: its UTF-8 bytes, escaped.
pub open spec fn field(s: Seq<char>) -> Seq<u8> {
    escape(encode_utf8(s))
}

/// The body of a record: its encoding without the final line feed.
pub open spec fn encode_body(r: Record) -> Seq<u8> {
    match r {
        Record::Put(k, v) => set_tag() + field(k) + separator() + field(v) + closing(),
        Record::Get(k) => get_tag() + field(k) + closing(),
        Record::Rm(k) => rm_tag() + field(k) + closing(),
    }
}

/// The full encoding of a record, as it stands in a log.
pub open spec fn encode_record(r: Record) -> Seq<u8> {
    encode_body(r).push(NEWLINE)
}

/// Whether `lit` stands in `b` at index `i`.
pub open spec fn has_at(b: Seq<u8>, i: int, lit: Seq<u8>) -> bool {
    0 <= i && i + lit.len() <= b.len() && b.subrange(i, i + lit.len()) == lit
}

/// Reads an escaped field from index `i`, having read `acc` so far: the bytes
/// it holds and the index of the quote that closes it.
pub open spec fn unescape_from(b: Seq<u8>, i: int, acc: Seq<u8>) -> Option<(Seq<u8>, int)>
    decreases b.len() - i,
{
    if i < 0 || i >= b.len() {
        None
    } else if b[i] == QUOTE {
        Some((acc, i))
    } else if b[i] == BACKSLASH {
        if i + 1 >= b.len() {
            None
        } else if b[i + 1] == QUOTE || b[i + 1] == BACKSLASH {
            unescape_from(b, i + 2, acc.push(b[i + 1]))
        } else if b[i + 1] == LETTER_N {
            unescape_from(b, i + 2, acc.push(NEWLINE))
        } else if b[i + 1] == LETTER_R {
            unescape_from(b, i + 2, acc.push(CARRIAGE_RETURN))
        } else {
            None
        }
    } else if b[i] == NEWLINE || b[i] == CARRIAGE_RETURN {
        None
    } else {
        unescape_from(b, i + 1, acc.push(b[i]))
    }
}

/// Reads a string field from index `i`: its characters and the index of its
/// closing quote.
pub open spec fn field_at(b: Seq<u8>, i: int) -> Option<(Seq<char>, int)> {
    match unescape_from(b, i, Seq::empty()) {
        Some((raw, q)) => if valid_utf8(raw) {
            Some((decode_utf8(raw), q))
        } else {
            None
        },
        None => None,
    }
}

/// A record with one field after the tag, ending the body.
pub open spec fn decode_single(b: Seq<u8>, tag_len: int) -> Option<Seq<char>> {
    match field_at(b, tag_len) {
        Some((k, q)) => if q + closing().len() == b.len() && has_at(b, q, closing()) {
            Some(k)
        } else {
            None
        },
        None => None,
    }
}

/// The record whose body is `b`, if there is one.
pub open spec fn decode_body(b: Seq<u8>) -> Option<Record> {
    if has_at(b, 0, set_tag()) {
        match field_at(b, set_tag().len() as int) {
            Some((k, q)) => if has_at(b, q, separator()) {
                match decode_single(b, q + separator().len()) {
                    Some(v) => Some(Record::Put(k, v)),
                    None => None,
                }
            } else {
                None
            },
            None => None,
        }
    } else if has_at(b, 0, get_tag()) {
        match decode_single(b, get_tag().len() as int) {
            Some(k) => Some(Record::Get(k)),
            None => None,
        }
    } else if has_at(b, 0, rm_tag()) {
        match decode_single(b, rm_tag().len() as int) {
            Some(k) => Some(Record::Rm(k)),
            None => None,
        }
    } else {
        None
    }
}

// ---------------------------------------------------------------------------
// Lemmas on escaping.

proof fn lemma_escape_single(c: u8)
    ensures
        escape(seq![c]) == escape_byte(c),
{
    assert(seq![c].drop_last() =~= Seq::<u8>::empty());
    assert(escape(Seq::<u8>::empty()) + escape_byte(c) =~= escape_byte(c));
}

/// Escaping distributes over concatenation.
pub proof fn lemma_escape_concat(a: Seq<u8>, b: Seq<u8>)
    ensures
        escape(a + b) == escape(a) + escape(b),
    decreases b.len(),
{
    if b.len() == 0 {
        assert(a + b =~= a);
        assert(escape(a) + escape(b) =~= escape(a));
    } else {
        lemma_escape_concat(a, b.drop_last());
        assert((a + b).drop_last() =~= a + b.drop_last());
        assert((a + b).last() == b.last());
        assert(escape(a + b) == escape(a + b.drop_last()) + escape_byte(b.last()));
        assert(escape(a) + escape(b) =~= escape(a) + escape(b.drop_last()) + escape_byte(
            b.last(),
        ));
    }
}

/// An escaped field holds no line feed.
pub proof fn lemma_escape_no_newline(s: Seq<u8>)
    ensures
        forall|i: int| 0 <= i < escape(s).len() ==> escape(s)[i] != NEWLINE,
    decreases s.len(),
{
    if s.len() > 0 {
        lemma_escape_no_newline(s.drop_last());
        let e = escape(s.drop_last());
        let t = escape_byte(s.last());
        assert forall|i: int| 0 <= i < escape(s).len() implies escape(s)[i] != NEWLINE by {
            if i < e.len() {
                assert(escape(s)[i] == e[i]);
            } else {
                assert(escape(s)[i] == t[i - e.len()]);
            }
        }
    }
}

/// Reading an escaped field back yields its bytes and stops at its closing quote.
pub proof fn lemma_unescape_escape(b: Seq<u8>, i: int, s: Seq<u8>, acc: Seq<u8>)
    requires
        has_at(b, i, escape(s)),
        i + escape(s).len() < b.len(),
        b[i + escape(s).len()] == QUOTE,
    ensures
        unescape_from(b, i, acc) == Some((acc + s, i + escape(s).len())),
    decreases s.len(),
{
    if s.len() == 0 {
        assert(acc + s =~= acc);
    } else {
        let c = s[0];
        let rest = s.drop_first();
        assert(s =~= seq![c] + rest);
        lemma_escape_concat(seq![c], rest);
        lemma_escape_single(c);
        let t = escape_byte(c);
        assert(escape(s) == t + escape(rest));
        assert forall|j: int| 0 <= j < t.len() implies b[i + j] == t[j] by {
            assert(b.subrange(i, i + escape(s).len())[j] == escape(s)[j]);
        }
        assert(has_at(b, i + t.len(), escape(rest))) by {
            assert(b.subrange(i + t.len(), i + t.len() + escape(rest).len()) =~= escape(rest)) by {
                assert forall|j: int| 0 <= j < escape(rest).len() implies b[i + t.len() + j]
                    == escape(rest)[j] by {
                    assert(b.subrange(i, i + escape(s).len())[t.len() + j] == escape(s)[t.len()
                        + j]);
                }
            }
        }
        lemma_unescape_escape(b, i + t.len(), rest, acc.push(c));
        assert(acc.push(c) + rest =~= acc + s);
    }
}

/// A field that reads back stands in the input, escaped, before its closing quote.
pub proof fn lemma_unescape_sound(b: Seq<u8>, i: int, acc: Seq<u8>) -> (t: Seq<u8>)
    requires
        unescape_from(b, i, acc) is Some,
    ensures
        ({
            let (x, q) = unescape_from(b, i, acc)->Some_0;
            &&& x == acc + t
            &&& 0 <= i <= q < b.len()
            &&& b.subrange(i, q) == escape(t)
            &&& b[q] == QUOTE
        }),
    decreases b.len() - i,
{
    if b[i] == QUOTE {
        assert(acc + Seq::<u8>::empty() =~= acc);
        assert(b.subrange(i, i) =~= escape(Seq::<u8>::empty()));
        Seq::empty()
    } else {
        let (step, c) = if b[i] == BACKSLASH {
            let d = b[i + 1];
            (2int, if d == LETTER_N {
                NEWLINE
            } else if d == LETTER_R {
                CARRIAGE_RETURN
            } else {
                d
            })
        } else {
            (1int, b[i])
        };
        assert(unescape_from(b, i, acc) == unescape_from(b, i + step, acc.push(c)));
        let t2 = lemma_unescape_sound(b, i + step, acc.push(c));
        let t = seq![c] + t2;
        let (x, q) = unescape_from(b, i, acc)->Some_0;
        assert(x =~= acc + t);
        lemma_escape_concat(seq![c], t2);
        lemma_escape_single(c);
        assert(b.subrange(i, i + step) =~= escape_byte(c));
        assert(b.subrange(i, q) =~= b.subrange(i, i + step) + b.subrange(i + step, q));
        t
    }
}

// ---------------------------------------------------------------------------
// Lemmas on whole records.

proof fn lemma_has_at_concat(pre: Seq<u8>, mid: Seq<u8>, post: Seq<u8>)
    ensures
        has_at(pre + mid + post, pre.len() as int, mid),
{
    assert((pre + mid + post).subrange(pre.len() as int, (pre.len() + mid.len()) as int) =~= mid);
}

proof fn lemma_field_at_encoded(b: Seq<u8>, i: int, s: Seq<char>)
    requires
        has_at(b, i, field(s)),
        i + field(s).len() < b.len(),
        b[i + field(s).len()] == QUOTE,
    ensures
        field_at(b, i) == Some((s, i + field(s).len())),
{
    lemma_unescape_escape(b, i, encode_utf8(s), Seq::empty());
    assert(Seq::<u8>::empty() + encode_utf8(s) =~= encode_utf8(s));
}

/// Decoding the body of an encoded record gives the record back.
pub proof fn lemma_decode_encode(r: Record)
    ensures
        decode_body(encode_body(r)) == Some(r),
{
    let b = encode_body(r);
    match r {
        Record::Put(k, v) => {
            let fk = field(k);
            let fv = field(v);
            let p1 = set_tag();
            lemma_has_at_concat(Seq::empty(), p1, fk + separator() + fv + closing());
            assert(Seq::<u8>::empty() + p1 + (fk + separator() + fv + closing()) =~= b);
            let q: int = (p1.len() + fk.len()) as int;
            lemma_has_at_concat(p1, fk, separator() + fv + closing());
            assert(p1 + fk + (separator() + fv + closing()) =~= b);
            assert(b[q] == QUOTE);
            lemma_field_at_encoded(b, p1.len() as int, k);
            lemma_has_at_concat(p1 + fk, separator(), fv + closing());
            assert(p1 + fk + separator() + (fv + closing()) =~= b);
            let j = q + 3;
            lemma_has_at_concat(p1 + fk + separator(), fv, closing());
            assert(b[j + fv.len() as int] == QUOTE);
            lemma_field_at_encoded(b, j, v);
            lemma_has_at_concat(p1 + fk + separator() + fv, closing(), Seq::empty());
            assert(p1 + fk + separator() + fv + closing() + Seq::<u8>::empty() =~= b);
        },
        Record::Get(k) => {
            let fk = field(k);
            let p1 = get_tag();
            assert(b[2] == 71u8);
            assert(!has_at(b, 0, set_tag())) by {
                if has_at(b, 0, set_tag()) {
                    assert(b.subrange(0, 8)[2] == set_tag()[2]);
                }
            }
            lemma_has_at_concat(Seq::empty(), p1, fk + closing());
            assert(Seq::<u8>::empty() + p1 + (fk + closing()) =~= b);
            lemma_has_at_concat(p1, fk, closing());
            assert(b[p1.len() + fk.len() as int] == QUOTE);
            lemma_field_at_encoded(b, p1.len() as int, k);
            lemma_has_at_concat(p1 + fk, closing(), Seq::empty());
            assert(p1 + fk + closing() + Seq::<u8>::empty() =~= b);
        },
        Record::Rm(k) => {
            let fk = field(k);
            let p1 = rm_tag();
            assert(b[2] == 82u8);
            assert(!has_at(b, 0, set_tag())) by {
                if has_at(b, 0, set_tag()) {
                    assert(b.subrange(0, 8)[2] == set_tag()[2]);
                }
            }
            assert(!has_at(b, 0, get_tag())) by {
                if has_at(b, 0, get_tag()) {
                    assert(b.subrange(0, 8)[2] == get_tag()[2]);
                }
            }
            lemma_has_at_concat(Seq::empty(), p1, fk + closing());
            assert(Seq::<u8>::empty() + p1 + (fk + closing()) =~= b);
            lemma_has_at_concat(p1, fk, closing());
            assert(b[p1.len() + fk.len() as int] == QUOTE);
            lemma_field_at_encoded(b, p1.len() as int, k);
            lemma_has_at_concat(p1 + fk, closing(), Seq::empty());
            assert(p1 + fk + closing() + Seq::<u8>::empty() =~= b);
        },
    }
}

proof fn lemma_field_at_sound(b: Seq<u8>, i: int) -> (s: Seq<char>)
    requires
        field_at(b, i) is Some,
    ensures
        ({
            let (x, q) = field_at(b, i)->Some_0;
            &&& x == s
            &&& 0 <= i <= q < b.len()
            &&& b.subrange(i, q) == field(s)
            &&& b[q] == QUOTE
        }),
{
    let t = lemma_unescape_sound(b, i, Seq::empty());
    assert(Seq::<u8>::empty() + t =~= t);
    vstd::utf8::decode_utf8_encode_utf8(t);
    decode_utf8(t)
}

/// A body that decodes is the encoding of what it decodes to.
pub proof fn lemma_encode_decode(b: Seq<u8>)
    requires
        decode_body(b) is Some,
    ensures
        encode_body(decode_body(b)->Some_0) == b,
{
    if has_at(b, 0, set_tag()) {
        let k = lemma_field_at_sound(b, 8);
        let q = field_at(b, 8)->Some_0.1;
        let v = lemma_field_at_sound(b, q + 3);
        let q2 = field_at(b, q + 3)->Some_0.1;
        assert(b =~= b.subrange(0, 8) + b.subrange(8, q) + b.subrange(q, q + 3) + b.subrange(
            q + 3,
            q2,
        ) + b.subrange(q2, b.len() as int));
    } else if has_at(b, 0, get_tag()) {
        let k = lemma_field_at_sound(b, 8);
        let q = field_at(b, 8)->Some_0.1;
        assert(b =~= b.subrange(0, 8) + b.subrange(8, q) + b.subrange(q, b.len() as int));
    } else {
        let k = lemma_field_at_sound(b, 7);
        let q = field_at(b, 7)->Some_0.1;
        assert(b =~= b.subrange(0, 7) + b.subrange(7, q) + b.subrange(q, b.len() as int));
    }
}

/// A record body holds no line feed.
pub proof fn lemma_body_no_newline(r: Record)
    ensures
        forall|i: int| 0 <= i < encode_body(r).len() ==> encode_body(r)[i] != NEWLINE,
{
    let b = encode_body(r);
    match r {
        Record::Put(k, v) => {
            lemma_escape_no_newline(encode_utf8(k));
            lemma_escape_no_newline(encode_utf8(v));
            let a = set_tag();
            let fk = field(k);
            let s = separator();
            let fv = field(v);
            assert forall|i: int| 0 <= i < b.len() implies b[i] != NEWLINE by {
                if i < a.len() {
                } else if i < a.len() + fk.len() {
                    assert(b[i] == fk[i - a.len()]);
                } else if i < a.len() + fk.len() + s.len() {
                } else if i < a.len() + fk.len() + s.len() + fv.len() {
                    assert(b[i] == fv[i - (a.len() + fk.len() + s.len())]);
                }
            }
        },
        Record::Get(k) => {
            lemma_escape_no_newline(encode_utf8(k));
            let a = get_tag();
            let fk = field(k);
            assert forall|i: int| 0 <= i < b.len() implies b[i] != NEWLINE by {
                if a.len() <= i < a.len() + fk.len() {
                    assert(b[i] == fk[i - a.len()]);
                }
            }
        },
        Record::Rm(k) => {
            lemma_escape_no_newline(encode_utf8(k));
            let a = rm_tag();
            let fk = field(k);
            assert forall|i: int| 0 <= i < b.len() implies b[i] != NEWLINE by {
                if a.len() <= i < a.len() + fk.len() {
                    assert(b[i] == fk[i - a.len()]);
                }
            }
        },
    }
}

/// Round trip: every record survives encoding and decoding, and every body
/// that decodes is exactly the encoding of its record.
pub proof fn lemma_codec_round_trip(r: Record, b: Seq<u8>)
    ensures
        decode_body(encode_body(r)) == Some(r),
        decode_body(b) is Some ==> encode_body(decode_body(b)->Some_0) == b,
{
    lemma_decode_encode(r);
    if decode_body(b) is Some {
        lemma_encode_decode(b);
    }
}

// ---------------------------------------------------------------------------
// Executable encoding and decoding.

fn set_tag_bytes() -> (r: Vec<u8>)
    ensures
        r@ == set_tag(),
{
    vec![91u8, 34u8, 83u8, 101u8, 116u8, 34u8, 44u8, 34u8]
}

fn get_tag_bytes() -> (r: Vec<u8>)
    ensures
        r@ == get_tag(),
{
    vec![91u8, 34u8, 71u8, 101u8, 116u8, 34u8, 44u8, 34u8]
}

fn rm_tag_bytes() -> (r: Vec<u8>)
    ensures
        r@ == rm_tag(),
{
    vec![91u8, 34u8, 82u8, 109u8, 34u8, 44u8, 34u8]
}

fn separator_bytes() -> (r: Vec<u8>)
    ensures
        r@ == separator(),
{
    vec![34u8, 44u8, 34u8]
}

fn closing_bytes() -> (r: Vec<u8>)
    ensures
        r@ == closing(),
{
    vec![34u8, 93u8]
}

/// Appends the escaped form of `src` to `out`.
fn push_escaped(out: &mut Vec<u8>, src: &[u8])
    ensures
        final(out)@ == old(out)@ + escape(src@),
{
    let mut i: usize = 0;
    while i < src.len()
        invariant
            i <= src@.len(),
            out@ == old(out)@ + escape(src@.subrange(0, i as int)),
        decreases src@.len() - i,
    {
        let c = src[i];
        proof {
            assert(src@.subrange(0, i + 1).drop_last() =~= src@.subrange(0, i as int));
            assert(src@.subrange(0, i + 1).last() == c);
        }
        if c == QUOTE {
            out.push(BACKSLASH);
            out.push(QUOTE);
        } else if c == BACKSLASH {
            out.push(BACKSLASH);
            out.push(BACKSLASH);
        } else if c == NEWLINE {
            out.push(BACKSLASH);
            out.push(LETTER_N);
        } else if c == CARRIAGE_RETURN {
            out.push(BACKSLASH);
            out.push(LETTER_R);
        } else {
            out.push(c);
        }
        i = i + 1;
        proof {
            assert(out@ =~= old(out)@ + escape(src@.subrange(0, i as int)));
        }
    }
    proof {
        assert(src@.subrange(0, src@.len() as int) =~= src@);
    }
}

/// Appends a string field to `out`.
fn push_field(out: &mut Vec<u8>, s: &String)
    ensures
        final(out)@ == old(out)@ + field(s@),
{
    push_escaped(out, s.as_str().as_bytes());
}

/// Encodes a command as one log line: its body followed by a line feed.
pub fn encode(cmd: &Command) -> (r: Vec<u8>)
    ensures
        r@ == encode_record(cmd@),
{
    let mut out: Vec<u8> = Vec::new();
    match cmd {
        Command::Put { key, value } => {
            out.extend_from_slice(set_tag_bytes().as_slice());
            push_field(&mut out, key);
            out.extend_from_slice(separator_bytes().as_slice());
            push_field(&mut out, value);
        },
        Command::Get { key } => {
            out.extend_from_slice(get_tag_bytes().as_slice());
            push_field(&mut out, key);
        },
        Command::Rm { key } => {
            out.extend_from_slice(rm_tag_bytes().as_slice());
            push_field(&mut out, key);
        },
    }
    out.extend_from_slice(closing_bytes().as_slice());
    out.push(NEWLINE);
    proof {
        assert(out@ =~= encode_record(cmd@));
    }
    out
}

/// Whether `lit` stands in `b` at index `i`.
fn bytes_at(b: &[u8], i: usize, lit: &[u8]) -> (r: bool)
    ensures
        r == has_at(b@, i as int, lit@),
{
    if i > b.len() || lit.len() > b.len() - i {
        return false;
    }
    let mut j: usize = 0;
    while j < lit.len()
        invariant
            i + lit@.len() <= b@.len(),
            j <= lit@.len(),
            forall|t: int| 0 <= t < j ==> b@[i + t] == lit@[t],
        decreases lit@.len() - j,
    {
        assert(i + j < b@.len() == b.len());
        if b[i + j] != lit[j] {
            proof {
                assert(b@.subrange(i as int, i + lit@.len())[j as int] == b@[i + j]);
            }
            return false;
        }
        j = j + 1;
    }
    proof {
        assert(b@.subrange(i as int, i + lit@.len()) =~= lit@);
    }
    true
}

/// Reads the escaped bytes of a field from index `i` up to its closing quote.
fn unescape_field(b: &[u8], i: usize) -> (r: Option<(Vec<u8>, usize)>)
    ensures
        match unescape_from(b@, i as int, Seq::empty()) {
            Some((raw, q)) => r matches Some((v, q2)) && v@ == raw && q2 == q,
            None => r is None,
        },
{
    let mut out: Vec<u8> = Vec::new();
    let mut j: usize = i;
    while j < b.len()
        invariant
            unescape_from(b@, i as int, Seq::empty()) == unescape_from(b@, j as int, out@),
        decreases b@.len() - j,
    {
        let c = b[j];
        if c == QUOTE {
            return Some((out, j));
        } else if c == BACKSLASH {
            if j + 1 >= b.len() {
                return None;
            }
            let d = b[j + 1];
            if d == QUOTE || d == BACKSLASH {
                out.push(d);
            } else if d == LETTER_N {
                out.push(NEWLINE);
            } else if d == LETTER_R {
                out.push(CARRIAGE_RETURN);
            } else {
                return None;
            }
            j = j + 2;
        } else if c == NEWLINE || c == CARRIAGE_RETURN {
            return None;
        } else {
            out.push(c);
            j = j + 1;
        }
    }
    None
}

/// Relies on `String::from_utf8`: it accepts exactly the byte sequences that
/// are valid UTF-8, and the string it returns holds the characters they encode.
#[verifier::external_body]
fn string_from_utf8(bytes: Vec<u8>) -> (r: Option<String>)
    ensures
        r is Some <==> valid_utf8(bytes@),
        r matches Some(s) ==> s@ == decode_utf8(bytes@),
{
    String::from_utf8(bytes).ok()
}

/// Turns UTF-8 bytes into a string, or `None` where they are not valid UTF-8.
pub fn utf8_to_string(bytes: Vec<u8>) -> (r: Option<String>)
    ensures
        r is Some <==> valid_utf8(bytes@),
        r matches Some(s) ==> s@ == decode_utf8(bytes@),
{
    string_from_utf8(bytes)
}

/// Reads a string field from index `i`: the string and its closing quote's index.
fn read_field(b: &[u8], i: usize) -> (r: Option<(String, usize)>)
    ensures
        match field_at(b@, i as int) {
            Some((s, q)) => r matches Some((v, q2)) && v@ == s && q2 == q,
            None => r is None,
        },
{
    match unescape_field(b, i) {
        Some((raw, q)) => match string_from_utf8(raw) {
            Some(s) => Some((s, q)),
            None => None,
        },
        None => None,
    }
}

/// Reads the one field of a `Get` or `Rm` body after its tag.
fn read_single(b: &[u8], tag_len: usize) -> (r: Option<String>)
    ensures
        match decode_single(b@, tag_len as int) {
            Some(k) => r matches Some(v) && v@ == k,
            None => r is None,
        },
{
    match read_field(b, tag_len) {
        Some((k, q)) => {
            if q <= b.len() && b.len() - q == 2 && bytes_at(b, q, closing_bytes().as_slice()) {
                Some(k)
            } else {
                None
            }
        },
        None => None,
    }
}

/// Decodes one record body (a log line or request without its line feed).
pub fn decode(b: &[u8]) -> (r: Result<Command, DecodeError>)
    ensures
        match decode_body(b@) {
            Some(rec) => r matches Ok(c) && c@ == rec,
            None => r is Err,
        },
{
    if bytes_at(b, 0, set_tag_bytes().as_slice()) {
        match read_field(b, 8) {
            Some((key, q)) => {
                if bytes_at(b, q, separator_bytes().as_slice()) {
                    assert(separator().len() == 3 && b@.len() == b.len());
                    match read_single(b, q + 3) {
                        Some(value) => Ok(Command::Put { key, value }),
                        None => Err(DecodeError),
                    }
                } else {
                    Err(DecodeError)
                }
            },
            None => Err(DecodeError),
        }
    } else if bytes_at(b, 0, get_tag_bytes().as_slice()) {
        match read_single(b, 8) {
            Some(key) => Ok(Command::Get { key }),
            None => Err(DecodeError),
        }
    } else if bytes_at(b, 0, rm_tag_bytes().as_slice()) {
        match read_single(b, 7) {
            Some(key) => Ok(Command::Rm { key }),
            None => Err(DecodeError),
        }
    } else {
        Err(DecodeError)
    }
}

} // verus!
