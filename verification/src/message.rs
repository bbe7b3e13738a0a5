//! The binary message envelope exchanged with clients.
//!
//! An envelope is a length-prefixed body of tagged fields, each present or
//! absent on its own, closed by a zero byte. Field 1 (`updates`) and field 2
//! (`clicks`) are lists of key/value pairs, field 3 (`clear`) is one byte.

use vstd::prelude::*;
use vstd::bytes::{lemma_auto_spec_u32_to_from_le_bytes, lemma_auto_spec_u64_to_from_le_bytes};
use vstd::utf8::{
    decode_utf8, encode_utf8, encode_utf8_decode_utf8, encode_utf8_valid_utf8, valid_utf8,
};
use vstd::slice::slice_subrange;
use crate::wire::{
    i64_bytes, i64_prefix, len_bytes, len_prefix, read_i64, read_len, read_string, string_bytes,
    write_i64, write_len, write_string,
};

verus! {

/// The tag of the `updates` field.
pub const TAG_UPDATES: u8 = 1;

/// The tag of the `clicks` field.
pub const TAG_CLICKS: u8 = 2;

/// The tag of the `clear` field.
pub const TAG_CLEAR: u8 = 3;

/// The byte that closes a message body.
pub const TAG_END: u8 = 0;

/// A player key with a score or a score delta.
#[derive(Clone, Debug, PartialEq, Eq)]
pub struct KeyValue {
    pub key: String,
    pub value: i64,
}

impl View for KeyValue {
    type V = (Seq<char>, i64);

    open spec fn view(&self) -> (Seq<char>, i64) {
        (self.key@, self.value)
    }
}

/// The key/value pairs of a list, in order.
pub open spec fn entries(list: Seq<KeyValue>) -> Seq<(Seq<char>, i64)> {
    list.map_values(|kv: KeyValue| kv@)
}

/// The wire envelope. An absent field is `None`: an empty list or `false`
/// is a field that is present.
#[derive(Clone, Debug, PartialEq, Eq)]
pub struct GameMessage {
    pub updates: Option<Vec<KeyValue>>,
    pub clicks: Option<Vec<KeyValue>>,
    pub clear: Option<bool>,
}

/// What a `GameMessage` holds, as mathematical values.
pub struct Envelope {
    pub updates: Option<Seq<(Seq<char>, i64)>>,
    pub clicks: Option<Seq<(Seq<char>, i64)>>,
    pub clear: Option<bool>,
}

/// The pairs of an optional list.
pub open spec fn optional_entries(list: Option<Vec<KeyValue>>) -> Option<Seq<(Seq<char>, i64)>> {
    match list {
        Some(l) => Some(entries(l@)),
        None => None,
    }
}

impl View for GameMessage {
    type V = Envelope;

    open spec fn view(&self) -> Envelope {
        Envelope {
            updates: optional_entries(self.updates),
            clicks: optional_entries(self.clicks),
            clear: self.clear,
        }
    }
}

/// The envelope with no field present.
pub open spec fn empty_envelope() -> Envelope {
    Envelope { updates: None, clicks: None, clear: None }
}

impl Default for GameMessage {
    fn default() -> (m: GameMessage)
        ensures
            m@ == empty_envelope(),
    {
        GameMessage { updates: None, clicks: None, clear: None }
    }
}

/// One pair on the wire: the key as a string, then the value.
pub open spec fn entry_bytes(e: (Seq<char>, i64)) -> Seq<u8> {
    string_bytes(e.0) + i64_bytes(e.1)
}

/// The pairs of a list on the wire, one after the other.
pub open spec fn entries_bytes(es: Seq<(Seq<char>, i64)>) -> Seq<u8>
    decreases es.len(),
{
    if es.len() == 0 {
        Seq::empty()
    } else {
        entries_bytes(es.drop_last()) + entry_bytes(es.last())
    }
}

/// A list on the wire: the number of pairs, then the pairs.
pub open spec fn list_bytes(es: Seq<(Seq<char>, i64)>) -> Seq<u8> {
    len_bytes(es.len()) + entries_bytes(es)
}

/// A list field on the wire: its tag and the list, or nothing when absent.
pub open spec fn list_field_bytes(tag: u8, list: Option<Seq<(Seq<char>, i64)>>) -> Seq<u8> {
    match list {
        Some(es) => seq![tag] + list_bytes(es),
        None => Seq::empty(),
    }
}

/// The byte of a flag.
pub open spec fn flag_byte(flag: bool) -> u8 {
    if flag {
        1
    } else {
        0
    }
}

/// The `clear` field on the wire: its tag and one byte, or nothing when absent.
pub open spec fn flag_field_bytes(flag: Option<bool>) -> Seq<u8> {
    match flag {
        Some(f) => seq![TAG_CLEAR, flag_byte(f)],
        None => Seq::empty(),
    }
}

/// The body of an envelope: the fields that are present, in the order of
/// their tags, and the closing byte.
pub open spec fn body_bytes(m: Envelope) -> Seq<u8> {
    list_field_bytes(TAG_UPDATES, m.updates) + list_field_bytes(TAG_CLICKS, m.clicks)
        + flag_field_bytes(m.clear) + seq![TAG_END]
}

/// An envelope on the wire: the length of its body, then the body.
pub open spec fn frame_bytes(m: Envelope) -> Seq<u8> {
    len_bytes(body_bytes(m).len()) + body_bytes(m)
}

/// Whether an envelope can be put on the wire: its body is no longer than a
/// length prefix can say.
pub open spec fn encodable(m: Envelope) -> bool {
    body_bytes(m).len() <= u32::MAX
}

/// Why a message cannot be encoded.
#[derive(Clone, Copy, Debug, PartialEq, Eq)]
pub enum EncodeError {
    /// The body is longer than a four-byte length can say.
    TooLong,
}


/// A length prefix takes four bytes, and says the length it was made from.
pub proof fn lemma_len_bytes(n: nat)
    requires
        n <= u32::MAX,
    ensures
        len_bytes(n).len() == 4,
        len_prefix(len_bytes(n)) == n,
{
    lemma_auto_spec_u32_to_from_le_bytes();
    assert(len_bytes(n).subrange(0, 4) =~= len_bytes(n));
}

/// An integer takes eight bytes, and they say the integer they were made from.
pub proof fn lemma_i64_bytes(v: i64)
    ensures
        i64_bytes(v).len() == 8,
        i64_prefix(i64_bytes(v)) == v,
{
    lemma_auto_spec_u64_to_from_le_bytes();
    assert(i64_bytes(v).subrange(0, 8) =~= i64_bytes(v));
    assert((v as u64) as i64 == v) by (bit_vector);
}

/// The pairs of two lists joined are the pairs of the first, then of the second.
pub proof fn lemma_entries_bytes_concat(a: Seq<(Seq<char>, i64)>, b: Seq<(Seq<char>, i64)>)
    ensures
        entries_bytes(a + b) == entries_bytes(a) + entries_bytes(b),
    decreases b.len(),
{
    if b.len() == 0 {
        assert(a + b =~= a);
        assert(entries_bytes(a) + entries_bytes(b) =~= entries_bytes(a));
    } else {
        lemma_entries_bytes_concat(a, b.drop_last());
        assert((a + b).drop_last() =~= a + b.drop_last());
        assert((a + b).last() == b.last());
        assert(entries_bytes(a + b) =~= entries_bytes(a) + entries_bytes(b));
    }
}

/// A list on the wire is at least as long as any one of its pairs, and has
/// at least twelve bytes for each pair.
pub proof fn lemma_entries_bytes_len(es: Seq<(Seq<char>, i64)>, i: int)
    requires
        0 <= i < es.len(),
    ensures
        entries_bytes(es).len() >= entry_bytes(es[i]).len(),
        entries_bytes(es).len() >= 12 * es.len(),
    decreases es.len(),
{
    lemma_auto_spec_u32_to_from_le_bytes();
    lemma_auto_spec_u64_to_from_le_bytes();
    if es.len() > 1 {
        if i < es.len() - 1 {
            lemma_entries_bytes_len(es.drop_last(), i);
        } else {
            lemma_entries_bytes_len(es.drop_last(), 0);
        }
    } else {
        assert(entries_bytes(es.drop_last()).len() == 0);
    }
}

/// The number of bytes that the pairs of a list take on the wire: for each
/// pair twelve bytes and the bytes of its key.
pub open spec fn entries_size(es: Seq<(Seq<char>, i64)>) -> nat
    decreases es.len(),
{
    if es.len() == 0 {
        0
    } else {
        entries_size(es.drop_last()) + 12 + encode_utf8(es.last().0).len()
    }
}

/// The number of bytes that a list field takes on the wire.
pub open spec fn list_field_size(list: Option<Seq<(Seq<char>, i64)>>) -> nat {
    match list {
        Some(es) => 5 + entries_size(es),
        None => 0,
    }
}

/// The number of bytes that the body of an envelope takes on the wire.
pub open spec fn body_size(m: Envelope) -> nat {
    list_field_size(m.updates) + list_field_size(m.clicks) + if m.clear is Some {
        3nat
    } else {
        1nat
    }
}

/// The pairs of a list take as many bytes as `entries_size` says.
pub proof fn lemma_entries_size(es: Seq<(Seq<char>, i64)>)
    ensures
        entries_bytes(es).len() == entries_size(es),
    decreases es.len(),
{
    lemma_auto_spec_u32_to_from_le_bytes();
    lemma_auto_spec_u64_to_from_le_bytes();
    if es.len() > 0 {
        lemma_entries_size(es.drop_last());
    }
}

/// The body of an envelope takes as many bytes as `body_size` says, so an
/// envelope can be put on the wire exactly if that is no more than a length
/// prefix can say.
pub proof fn lemma_body_size(m: Envelope)
    ensures
        body_bytes(m).len() == body_size(m),
        encodable(m) <==> body_size(m) <= u32::MAX,
{
    lemma_auto_spec_u32_to_from_le_bytes();
    match m.updates {
        Some(es) => lemma_entries_size(es),
        None => {},
    }
    match m.clicks {
        Some(es) => lemma_entries_size(es),
        None => {},
    }
}

/// Appends a list to `dest`, or says that it is too long for the wire, in
/// which case `dest` is to be thrown away.
fn write_list(dest: &mut Vec<u8>, list: &Vec<KeyValue>) -> (ok: bool)
    ensures
        ok ==> final(dest)@ == old(dest)@ + list_bytes(entries(list@)),
        !ok ==> list_bytes(entries(list@)).len() > u32::MAX,
{
    let ghost es = entries(list@);
    if !write_len(dest, list.len()) {
        proof {
            lemma_entries_bytes_len(es, 0);
        }
        return false;
    }
    let ghost start = dest@;
    let mut i: usize = 0;
    assert(es.subrange(0, 0) =~= Seq::empty());
    assert(start + entries_bytes(es.subrange(0, 0)) =~= start);
    while i < list.len()
        invariant
            i <= list.len(),
            es == entries(list@),
            dest@ == start + entries_bytes(es.subrange(0, i as int)),
        decreases list.len() - i,
    {
        let ghost so_far = dest@;
        if !write_string(dest, list[i].key.as_str()) {
            proof {
                lemma_entries_bytes_len(es, i as int);
            }
            return false;
        }
        write_i64(dest, list[i].value);
        proof {
            let next = es.subrange(0, i + 1);
            assert(next.drop_last() =~= es.subrange(0, i as int));
            assert(next.last() == list@[i as int]@);
            assert(dest@ =~= start + entries_bytes(next));
        }
        i += 1;
    }
    proof {
        assert(es.subrange(0, i as int) =~= es);
        assert(dest@ =~= old(dest)@ + list_bytes(es));
    }
    true
}

impl GameMessage {
    /// Encodes the message, or says that it is too long for the wire.
    pub fn encode(&self) -> (r: Result<Vec<u8>, EncodeError>)
        ensures
            match r {
                Ok(bytes) => encodable(self@) && bytes@ == frame_bytes(self@),
                Err(_) => !encodable(self@),
            },
    {
        let mut body: Vec<u8> = Vec::new();
        match &self.updates {
            Some(list) => {
                body.push(TAG_UPDATES);
                if !write_list(&mut body, list) {
                    return Err(EncodeError::TooLong);
                }
            },
            None => {},
        }
        let ghost first = body@;
        assert(first =~= list_field_bytes(TAG_UPDATES, self@.updates));
        match &self.clicks {
            Some(list) => {
                body.push(TAG_CLICKS);
                if !write_list(&mut body, list) {
                    return Err(EncodeError::TooLong);
                }
            },
            None => {},
        }
        let ghost second = body@;
        assert(second =~= first + list_field_bytes(TAG_CLICKS, self@.clicks));
        match self.clear {
            Some(flag) => {
                body.push(TAG_CLEAR);
                body.push(if flag { 1 } else { 0 });
            },
            None => {},
        }
        assert(body@ =~= second + flag_field_bytes(self@.clear));
        body.push(TAG_END);
        assert(body@ =~= body_bytes(self@));
        let mut frame: Vec<u8> = Vec::new();
        if !write_len(&mut frame, body.len()) {
            return Err(EncodeError::TooLong);
        }
        frame.append(&mut body);
        assert(frame@ =~= frame_bytes(self@));
        Ok(frame)
    }
}


/// Why bytes are not a message.
#[derive(Clone, Copy, Debug, PartialEq, Eq)]
pub enum DecodeError {
    /// The bytes end before the value that a length or a tag announces.
    Truncated,
    /// Bytes follow the closing byte inside the body, or a field follows one
    /// with a greater tag.
    Corrupt,
    /// A key is not valid UTF-8.
    InvalidUtf8,
    /// A field occurs twice.
    DuplicateField,
}

/// Reads a string from the front of `b`: the string and the bytes after it.
pub open spec fn parse_string(b: Seq<u8>) -> Result<(Seq<char>, Seq<u8>), DecodeError> {
    if b.len() < 4 || len_prefix(b) + 4 > b.len() {
        Err(DecodeError::Truncated)
    } else if !valid_utf8(b.subrange(4, len_prefix(b) + 4)) {
        Err(DecodeError::InvalidUtf8)
    } else {
        Ok((decode_utf8(b.subrange(4, len_prefix(b) + 4)), b.skip(len_prefix(b) + 4)))
    }
}

/// Reads one pair from the front of `b`: the pair and the bytes after it.
pub open spec fn parse_entry(b: Seq<u8>) -> Result<((Seq<char>, i64), Seq<u8>), DecodeError> {
    match parse_string(b) {
        Err(e) => Err(e),
        Ok((key, rest)) => if rest.len() < 8 {
            Err(DecodeError::Truncated)
        } else {
            Ok(((key, i64_prefix(rest)), rest.skip(8)))
        },
    }
}

/// Reads `count` pairs from the front of `b` and adds them to `acc`: all
/// the pairs and the bytes after them.
pub open spec fn parse_entries(b: Seq<u8>, count: nat, acc: Seq<(Seq<char>, i64)>) -> Result<
    (Seq<(Seq<char>, i64)>, Seq<u8>),
    DecodeError,
>
    decreases count,
{
    if count == 0 {
        Ok((acc, b))
    } else {
        match parse_entry(b) {
            Err(e) => Err(e),
            Ok((e, rest)) => parse_entries(rest, (count - 1) as nat, acc.push(e)),
        }
    }
}

/// Reads a list from the front of `b`: its pairs and the bytes after it.
pub open spec fn parse_list(b: Seq<u8>) -> Result<(Seq<(Seq<char>, i64)>, Seq<u8>), DecodeError> {
    if b.len() < 4 {
        Err(DecodeError::Truncated)
    } else {
        parse_entries(b.skip(4), len_prefix(b) as nat, Seq::empty())
    }
}

/// The bytes after `count` pairs are no more than there were.
pub proof fn lemma_parse_entries_rest(b: Seq<u8>, count: nat, acc: Seq<(Seq<char>, i64)>)
    ensures
        parse_entries(b, count, acc) matches Ok((_, rest)) ==> rest.len() <= b.len(),
    decreases count,
{
    if count > 0 {
        match parse_entry(b) {
            Err(_) => {},
            Ok((e, rest)) => {
                lemma_parse_entries_rest(rest, (count - 1) as nat, acc.push(e));
            },
        }
    }
}

/// Reads the fields of a body into `acc`, up to the closing byte or the end
/// of the body. Fields come in the order of their tags: one that follows a
/// field with a greater tag is an error, and so are a field that `acc`
/// already has and bytes after the closing byte. At a tag that is not known
/// the rest of the body is skipped.
pub open spec fn parse_fields(b: Seq<u8>, acc: Envelope) -> Result<Envelope, DecodeError>
    decreases b.len(),
{
    if b.len() == 0 {
        Ok(acc)
    } else if b[0] == TAG_END {
        if b.len() == 1 {
            Ok(acc)
        } else {
            Err(DecodeError::Corrupt)
        }
    } else if b[0] == TAG_UPDATES {
        if acc.clicks is Some || acc.clear is Some {
            Err(DecodeError::Corrupt)
        } else if acc.updates is Some {
            Err(DecodeError::DuplicateField)
        } else {
            match parse_list(b.skip(1)) {
                Err(e) => Err(e),
                Ok((es, rest)) => {
                    proof {
                        lemma_parse_entries_rest(
                            b.skip(1).skip(4),
                            len_prefix(b.skip(1)) as nat,
                            Seq::empty(),
                        );
                    }
                    parse_fields(rest, Envelope { updates: Some(es), ..acc })
                },
            }
        }
    } else if b[0] == TAG_CLICKS {
        if acc.clear is Some {
            Err(DecodeError::Corrupt)
        } else if acc.clicks is Some {
            Err(DecodeError::DuplicateField)
        } else {
            match parse_list(b.skip(1)) {
                Err(e) => Err(e),
                Ok((es, rest)) => {
                    proof {
                        lemma_parse_entries_rest(
                            b.skip(1).skip(4),
                            len_prefix(b.skip(1)) as nat,
                            Seq::empty(),
                        );
                    }
                    parse_fields(rest, Envelope { clicks: Some(es), ..acc })
                },
            }
        }
    } else if b[0] == TAG_CLEAR {
        if acc.clear is Some {
            Err(DecodeError::DuplicateField)
        } else if b.len() < 2 {
            Err(DecodeError::Truncated)
        } else {
            parse_fields(b.skip(2), Envelope { clear: Some(b[1] > 0), ..acc })
        }
    } else {
        Ok(acc)
    }
}

/// Reads an envelope from the front of `b`: a length, and a body of that
/// length. Bytes after the body are not looked at.
pub open spec fn parse_frame(b: Seq<u8>) -> Result<Envelope, DecodeError> {
    if b.len() < 4 || len_prefix(b) + 4 > b.len() {
        Err(DecodeError::Truncated)
    } else {
        parse_fields(b.subrange(4, len_prefix(b) + 4), empty_envelope())
    }
}


/// Reads one pair from the front of `raw`, and says how many bytes it took.
fn read_entry(raw: &[u8]) -> (r: Result<(KeyValue, usize), DecodeError>)
    ensures
        match r {
            Ok((kv, used)) => used <= raw@.len() && parse_entry(raw@) == Ok::<_, DecodeError>(
                (kv@, raw@.skip(used as int)),
            ),
            Err(e) => parse_entry(raw@) == Err::<((Seq<char>, i64), Seq<u8>), _>(e),
        },
{
    let len = match read_len(raw) {
        Some(len) => len,
        None => {
            return Err(DecodeError::Truncated);
        },
    };
    if len > raw.len() - 4 {
        return Err(DecodeError::Truncated);
    }
    match read_string(raw) {
        None => Err(DecodeError::InvalidUtf8),
        Some((used, key)) => {
            let rest = slice_subrange(raw, used, raw.len());
            match read_i64(rest) {
                None => Err(DecodeError::Truncated),
                Some(value) => {
                    assert(raw@.skip(used as int).skip(8) =~= raw@.skip(used + 8));
                    Ok((KeyValue { key, value }, used + 8))
                },
            }
        },
    }
}

/// Reads a list from the front of `raw`, and says how many bytes it took.
fn read_list(raw: &[u8]) -> (r: Result<(Vec<KeyValue>, usize), DecodeError>)
    ensures
        match r {
            Ok((list, used)) => used <= raw@.len() && parse_list(raw@) == Ok::<_, DecodeError>(
                (entries(list@), raw@.skip(used as int)),
            ),
            Err(e) => parse_list(raw@) == Err::<(Seq<(Seq<char>, i64)>, Seq<u8>), _>(e),
        },
{
    let count = match read_len(raw) {
        Some(count) => count,
        None => {
            return Err(DecodeError::Truncated);
        },
    };
    let mut list: Vec<KeyValue> = Vec::new();
    let mut at: usize = 4;
    let mut done: usize = 0;
    assert(entries(list@) =~= Seq::empty());
    while done < count
        invariant
            done <= count,
            4 <= at <= raw@.len(),
            count == len_prefix(raw@),
            parse_list(raw@) == parse_entries(
                raw@.skip(at as int),
                (count - done) as nat,
                entries(list@),
            ),
        decreases count - done,
    {
        let rest = slice_subrange(raw, at, raw.len());
        match read_entry(rest) {
            Err(e) => {
                return Err(e);
            },
            Ok((kv, used)) => {
                proof {
                    assert(raw@.skip(at as int).skip(used as int) =~= raw@.skip(at + used));
                    assert(entries(list@.push(kv)) =~= entries(list@).push(kv@));
                }
                list.push(kv);
                at += used;
                done += 1;
            },
        }
    }
    Ok((list, at))
}

impl GameMessage {
    /// Decodes a message from the front of `raw`.
    pub fn decode(raw: &[u8]) -> (r: Result<GameMessage, DecodeError>)
        ensures
            match r {
                Ok(m) => parse_frame(raw@) == Ok::<_, DecodeError>(m@),
                Err(e) => parse_frame(raw@) == Err::<Envelope, _>(e),
            },
    {
        let len = match read_len(raw) {
            Some(len) => len,
            None => {
                return Err(DecodeError::Truncated);
            },
        };
        if len > raw.len() - 4 {
            return Err(DecodeError::Truncated);
        }
        let body = slice_subrange(raw, 4, len + 4);
        let mut m = GameMessage { updates: None, clicks: None, clear: None };
        let mut at: usize = 0;
        assert(body@.skip(0) =~= body@);
        while at < body.len()
            invariant
                at <= body@.len(),
                parse_frame(raw@) == parse_fields(body@.skip(at as int), m@),
            decreases body@.len() - at,
        {
            let tag = body[at];
            let ghost here = body@.skip(at as int);
            assert(here[0] == tag);
            assert(here.skip(1) =~= body@.skip(at + 1));
            if tag == TAG_END {
                if at + 1 == body.len() {
                    return Ok(m);
                }
                return Err(DecodeError::Corrupt);
            } else if tag == TAG_UPDATES || tag == TAG_CLICKS {
                let late = if tag == TAG_UPDATES {
                    m.clicks.is_some() || m.clear.is_some()
                } else {
                    m.clear.is_some()
                };
                if late {
                    return Err(DecodeError::Corrupt);
                }
                let taken = if tag == TAG_UPDATES {
                    m.updates.is_some()
                } else {
                    m.clicks.is_some()
                };
                if taken {
                    return Err(DecodeError::DuplicateField);
                }
                match read_list(slice_subrange(body, at + 1, body.len())) {
                    Err(e) => {
                        return Err(e);
                    },
                    Ok((list, used)) => {
                        assert(body@.skip(at + 1).skip(used as int) =~= body@.skip(
                            at + 1 + used,
                        ));
                        if tag == TAG_UPDATES {
                            m.updates = Some(list);
                        } else {
                            m.clicks = Some(list);
                        }
                        at += 1 + used;
                    },
                }
            } else if tag == TAG_CLEAR {
                if m.clear.is_some() {
                    return Err(DecodeError::DuplicateField);
                }
                if at + 1 == body.len() {
                    return Err(DecodeError::Truncated);
                }
                assert(here[1] == body@[at + 1]);
                assert(here.skip(2) =~= body@.skip(at + 2));
                m.clear = Some(body[at + 1] > 0);
                at += 2;
            } else {
                return Ok(m);
            }
        }
        Ok(m)
    }
}


/// A string that was written is read back, with the bytes after it.
pub proof fn lemma_parse_string_written(s: Seq<char>, tail: Seq<u8>)
    requires
        encode_utf8(s).len() <= u32::MAX,
    ensures
        parse_string(string_bytes(s) + tail) == Ok::<_, DecodeError>((s, tail)),
{
    let text = encode_utf8(s);
    let b = string_bytes(s) + tail;
    lemma_len_bytes(text.len());
    encode_utf8_valid_utf8(s);
    encode_utf8_decode_utf8(s);
    assert(b.subrange(0, 4) =~= len_bytes(text.len()));
    assert(len_bytes(text.len()).subrange(0, 4) =~= len_bytes(text.len()));
    assert(b.subrange(4, text.len() as int + 4) =~= text);
    assert(b.skip(text.len() as int + 4) =~= tail);
}

/// A pair that was written is read back, with the bytes after it.
pub proof fn lemma_parse_entry_written(e: (Seq<char>, i64), tail: Seq<u8>)
    requires
        encode_utf8(e.0).len() <= u32::MAX,
    ensures
        parse_entry(entry_bytes(e) + tail) == Ok::<_, DecodeError>((e, tail)),
{
    let after_key = i64_bytes(e.1) + tail;
    lemma_parse_string_written(e.0, after_key);
    lemma_i64_bytes(e.1);
    assert(entry_bytes(e) + tail =~= string_bytes(e.0) + after_key);
    assert(after_key.subrange(0, 8) =~= i64_bytes(e.1));
    assert(i64_bytes(e.1).subrange(0, 8) =~= i64_bytes(e.1));
    assert(after_key.skip(8) =~= tail);
}

/// Pairs that were written are read back in order, with the bytes after them.
pub proof fn lemma_parse_entries_written(
    es: Seq<(Seq<char>, i64)>,
    tail: Seq<u8>,
    acc: Seq<(Seq<char>, i64)>,
)
    requires
        entries_bytes(es).len() <= u32::MAX,
    ensures
        parse_entries(entries_bytes(es) + tail, es.len(), acc) == Ok::<_, DecodeError>(
            (acc + es, tail),
        ),
    decreases es.len(),
{
    if es.len() == 0 {
        assert(entries_bytes(es) + tail =~= tail);
        assert(acc + es =~= acc);
    } else {
        let head = es[0];
        let others = es.drop_first();
        assert(es =~= seq![head] + others);
        lemma_entries_bytes_concat(seq![head], others);
        assert(entries_bytes(seq![head]) =~= entry_bytes(head)) by {
            assert(seq![head].drop_last() =~= Seq::<(Seq<char>, i64)>::empty());
            assert(seq![head].last() == head);
            reveal_with_fuel(entries_bytes, 2);
        }
        lemma_entries_bytes_len(es, 0);
        let after_head = entries_bytes(others) + tail;
        assert(entries_bytes(es) + tail =~= entry_bytes(head) + after_head);
        lemma_parse_entry_written(head, after_head);
        lemma_parse_entries_written(others, tail, acc.push(head));
        assert(acc.push(head) + others =~= acc + es);
    }
}

/// A list that was written is read back, with the bytes after it.
pub proof fn lemma_parse_list_written(es: Seq<(Seq<char>, i64)>, tail: Seq<u8>)
    requires
        list_bytes(es).len() <= u32::MAX,
    ensures
        parse_list(list_bytes(es) + tail) == Ok::<_, DecodeError>((es, tail)),
{
    let b = list_bytes(es) + tail;
    if es.len() > 0 {
        lemma_entries_bytes_len(es, 0);
    }
    lemma_len_bytes(es.len());
    assert(b.subrange(0, 4) =~= len_bytes(es.len()));
    assert(len_bytes(es.len()).subrange(0, 4) =~= len_bytes(es.len()));
    assert(b.skip(4) =~= entries_bytes(es) + tail);
    lemma_parse_entries_written(es, tail, Seq::empty());
    assert(Seq::<(Seq<char>, i64)>::empty() + es =~= es);
}

/// An `updates` field that was written is read into an envelope that has
/// no field yet, and reading goes on behind it.
pub proof fn lemma_parse_updates_written(es: Seq<(Seq<char>, i64)>, acc: Envelope, rest: Seq<u8>)
    requires
        acc.updates is None,
        acc.clicks is None,
        acc.clear is None,
        list_bytes(es).len() <= u32::MAX,
    ensures
        parse_fields(list_field_bytes(TAG_UPDATES, Some(es)) + rest, acc) == parse_fields(
            rest,
            Envelope { updates: Some(es), ..acc },
        ),
{
    let b = list_field_bytes(TAG_UPDATES, Some(es)) + rest;
    assert(b[0] == TAG_UPDATES);
    assert(b.skip(1) =~= list_bytes(es) + rest);
    lemma_parse_list_written(es, rest);
}

/// A `clicks` field that was written is read into an envelope that has
/// neither clicks nor `clear` yet, and reading goes on behind it.
pub proof fn lemma_parse_clicks_written(es: Seq<(Seq<char>, i64)>, acc: Envelope, rest: Seq<u8>)
    requires
        acc.clicks is None,
        acc.clear is None,
        list_bytes(es).len() <= u32::MAX,
    ensures
        parse_fields(list_field_bytes(TAG_CLICKS, Some(es)) + rest, acc) == parse_fields(
            rest,
            Envelope { clicks: Some(es), ..acc },
        ),
{
    let b = list_field_bytes(TAG_CLICKS, Some(es)) + rest;
    assert(b[0] == TAG_CLICKS);
    assert(b.skip(1) =~= list_bytes(es) + rest);
    lemma_parse_list_written(es, rest);
}

/// A `clear` field that was written is read into an envelope that has none
/// yet, and reading goes on behind it.
pub proof fn lemma_parse_clear_written(flag: bool, acc: Envelope, rest: Seq<u8>)
    requires
        acc.clear is None,
    ensures
        parse_fields(flag_field_bytes(Some(flag)) + rest, acc) == parse_fields(
            rest,
            Envelope { clear: Some(flag), ..acc },
        ),
{
    let b = flag_field_bytes(Some(flag)) + rest;
    assert(b[0] == TAG_CLEAR);
    assert(b[1] == flag_byte(flag));
    assert(b.skip(2) =~= rest);
}

/// The fields of a body that was written are read back.
pub proof fn lemma_parse_body_written(m: Envelope)
    requires
        encodable(m),
    ensures
        parse_fields(body_bytes(m), empty_envelope()) == Ok::<_, DecodeError>(m),
{
    let end = seq![TAG_END];
    let third = flag_field_bytes(m.clear) + end;
    let second = list_field_bytes(TAG_CLICKS, m.clicks) + third;
    let body = body_bytes(m);
    assert(body =~= list_field_bytes(TAG_UPDATES, m.updates) + second);
    let e0 = empty_envelope();
    let e1 = Envelope { updates: m.updates, ..e0 };
    let e2 = Envelope { clicks: m.clicks, ..e1 };
    let e3 = Envelope { clear: m.clear, ..e2 };
    assert(e3 == m);
    assert(parse_fields(end, e3) == Ok::<_, DecodeError>(e3));
    assert(parse_fields(third, e2) == parse_fields(end, e3)) by {
        match m.clear {
            Some(flag) => {
                lemma_parse_clear_written(flag, e2, end);
            },
            None => {
                assert(third =~= end);
            },
        }
    }
    assert(parse_fields(second, e1) == parse_fields(third, e2)) by {
        match m.clicks {
            Some(es) => {
                lemma_parse_clicks_written(es, e1, third);
            },
            None => {
                assert(second =~= third);
            },
        }
    }
    assert(parse_fields(body, e0) == parse_fields(second, e1)) by {
        match m.updates {
            Some(es) => {
                lemma_parse_updates_written(es, e0, second);
            },
            None => {
                assert(body =~= second);
            },
        }
    }
}

/// Decoding undoes encoding: the bytes of an envelope that can be put on
/// the wire, whatever follows them, are read back as that envelope.
pub proof fn law_decoding_undoes_encoding(m: Envelope, tail: Seq<u8>)
    requires
        encodable(m),
    ensures
        parse_frame(frame_bytes(m) + tail) == Ok::<_, DecodeError>(m),
{
    let body = body_bytes(m);
    let b = frame_bytes(m) + tail;
    lemma_len_bytes(body.len());
    assert(b.subrange(0, 4) =~= len_bytes(body.len()));
    assert(len_bytes(body.len()).subrange(0, 4) =~= len_bytes(body.len()));
    assert(b.subrange(4, body.len() as int + 4) =~= body);
    lemma_parse_body_written(m);
}

} // verus!
