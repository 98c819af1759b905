use vstd::prelude::*;
use vstd::slice::{slice_subrange, slice_to_vec};
use vstd::utf8::{decode_utf8, encode_utf8, valid_utf8};
use crate::bytes::{extend, lemma_utf8_empty, string_from_utf8};
use crate::error::{ErrorKind, ErrorMessage, fails};
use crate::grammar::{Item, enc, lemma_value_round_trip, lemma_parse_sound, parse_item, valid};
use crate::header::{ByteLength, byte_count, choose_width, min_width, width_of_tag, width_tag};
use crate::length::{be_bytes, be_value, decode_length, encode_length, lemma_be_round_trip, lemma_max_count};
use crate::value::Value;

verus! {

/// Marks the start of a key chunk.
pub const KEY_START: u8 = 0xF3;
/// High nibble of a key name's header byte.
pub const KEY_NAME: u8 = 0x70;
/// Marks the end of a key chunk.
pub const KEY_END: u8 = 0xF4;

/// A name chunk: a header with the `marker` nibble and the smallest width for
/// the name's length, that length, then the UTF-8 bytes.
pub open spec fn enc_name(marker: u8, b: Seq<u8>) -> Seq<u8> {
    seq![(marker + width_tag(min_width(b.len()))) as u8] + be_bytes(b.len(), byte_count(min_width(b.len())))
        + b
}

/// Decodes a name chunk carrying the `marker` nibble from the front of `s`:
/// the name's bytes and the number of bytes the chunk took.
pub open spec fn parse_name(marker: u8, s: Seq<u8>) -> Result<(Seq<u8>, nat), ErrorKind> {
    if s.len() == 0 {
        Err(ErrorKind::TruncatedInput)
    } else if s[0] / 16 != marker / 16 {
        Err(ErrorKind::MalformedName)
    } else {
        match width_of_tag(s[0] % 16) {
            None => Err(ErrorKind::InvalidHeader),
            Some(w) => {
                let c = byte_count(w) as int;
                if w == ByteLength::Zero {
                    Err(ErrorKind::EmptyCollection)
                } else if s.len() < 1 + c {
                    Err(ErrorKind::TruncatedInput)
                } else {
                    let n = be_value(s.subrange(1, 1 + c));
                    if n == 0 {
                        Err(ErrorKind::EmptyCollection)
                    } else if n > usize::MAX {
                        Err(ErrorKind::LengthOverflow)
                    } else if s.len() < 1 + c + n {
                        Err(ErrorKind::TruncatedInput)
                    } else if !valid_utf8(s.subrange(1 + c, 1 + c + n)) {
                        Err(ErrorKind::InvalidUtf8)
                    } else {
                        Ok((s.subrange(1 + c, 1 + c + n), (1 + c + n) as nat))
                    }
                }
            },
        }
    }
}

/// The encoding of a key: its start marker, its name chunk, its value, its end marker.
pub open spec fn enc_key(name: Seq<u8>, v: Item) -> Seq<u8> {
    seq![KEY_START] + enc_name(KEY_NAME, name) + enc(v) + seq![KEY_END]
}

/// Decodes one key from the front of `s`: its name bytes and value, and the
/// number of bytes it took. The value must be followed by the end marker.
#[verifier::opaque]
pub open spec fn parse_key(s: Seq<u8>) -> Result<((Seq<u8>, Item), nat), ErrorKind> {
    if s.len() == 0 {
        Err(ErrorKind::TruncatedInput)
    } else if s[0] != KEY_START {
        Err(ErrorKind::MalformedBoundary)
    } else {
        match parse_name(KEY_NAME, s.subrange(1, s.len() as int)) {
            Err(k) => Err(k),
            Ok((name, a)) => match parse_item(s.subrange(1 + a as int, s.len() as int)) {
                Err(k) => Err(k),
                Ok((v, b)) => if s.len() <= 1 + a + b {
                    Err(ErrorKind::TruncatedInput)
                } else if s[1 + a as int + b as int] != KEY_END {
                    Err(ErrorKind::MalformedBoundary)
                } else {
                    Ok(((name, v), (1 + a + b + 1) as nat))
                },
            },
        }
    }
}

/// Decodes a chunk that holds exactly one key, from its start marker to its end marker.
pub open spec fn parse_key_chunk(s: Seq<u8>) -> Result<(Seq<u8>, Item), ErrorKind> {
    if s.len() < 2 || s[0] != KEY_START || s.last() != KEY_END {
        Err(ErrorKind::MalformedBoundary)
    } else {
        match parse_key(s) {
            Err(k) => Err(k),
            Ok((key, n)) => if n == s.len() {
                Ok(key)
            } else {
                Err(ErrorKind::MalformedBoundary)
            },
        }
    }
}

/// A name chunk decodes to the name it was made from, whatever bytes follow it.
pub proof fn lemma_parse_name(marker: u8, b: Seq<u8>, t: Seq<u8>)
    requires
        marker == 0x60 || marker == 0x70,
        0 < b.len() <= usize::MAX,
        valid_utf8(b),
    ensures
        parse_name(marker, enc_name(marker, b) + t) == Ok::<(Seq<u8>, nat), ErrorKind>(
            (b, enc_name(marker, b).len()),
        ),
{
    let n = b.len();
    let w = min_width(n);
    let c = byte_count(w) as int;
    let s = enc_name(marker, b) + t;
    lemma_max_count(w);
    lemma_be_round_trip(n, byte_count(w));
    assert(s.subrange(1, 1 + c) =~= be_bytes(n, byte_count(w)));
    assert(s.subrange(1 + c, 1 + c + n) =~= b);
}

/// Encodes a name with the `marker` nibble in its header.
pub fn encode_name(name: &str, marker: u8) -> (r: Result<Vec<u8>, ErrorMessage>)
    requires
        marker == 0x60 || marker == 0x70,
    ensures
        name@.len() == 0 ==> fails(r, ErrorKind::EmptyCollection),
        name@.len() > 0 ==> (r matches Ok(b) && b@ == enc_name(marker, encode_utf8(name@))),
{
    let b = name.as_bytes();
    proof {
        lemma_utf8_empty(name@);
    }
    let n = b.len();
    let w = match choose_width(n) {
        Ok(w) => w,
        Err(e) => return Err(e),
    };
    let mut bytes: Vec<u8> = Vec::new();
    bytes.push(marker + w.tag());
    let mut count = encode_length(n as u64, w);
    bytes.append(&mut count);
    extend(&mut bytes, b);
    proof {
        assert(bytes@ =~= enc_name(marker, b@));
    }
    Ok(bytes)
}

/// Decodes the name chunk carrying the `marker` nibble at `s[pos..]`,
/// returning the name and the number of bytes the chunk took.
pub fn decode_name(s: &[u8], pos: usize, marker: u8) -> (r: Result<(String, usize), ErrorMessage>)
    requires
        pos <= s@.len(),
    ensures
        match parse_name(marker, s@.subrange(pos as int, s@.len() as int)) {
            Ok((b, c)) => r matches Ok((name, n)) && name@ == decode_utf8(b) && n == c,
            Err(k) => r matches Err(e) && e.kind == k,
        },
{
    let len = s.len();
    let ghost ss = s@.subrange(pos as int, len as int);
    if pos >= len {
        return Err(ErrorMessage::new(ErrorKind::TruncatedInput));
    }
    let h = s[pos];
    proof {
        assert(ss[0] == h);
    }
    if h / 16 != marker / 16 {
        return Err(ErrorMessage::new(ErrorKind::MalformedName));
    }
    let lo = h % 16;
    let w = if lo == 0 {
        return Err(ErrorMessage::new(ErrorKind::EmptyCollection));
    } else if lo == 1 {
        ByteLength::One
    } else if lo == 2 {
        ByteLength::Two
    } else if lo == 3 {
        ByteLength::Four
    } else if lo == 4 {
        ByteLength::Eight
    } else {
        return Err(ErrorMessage::new(ErrorKind::InvalidHeader));
    };
    let c = w.as_byte_count();
    if len - pos < 1 + c {
        return Err(ErrorMessage::new(ErrorKind::TruncatedInput));
    }
    let n64 = decode_length(s, pos + 1, c);
    proof {
        assert(ss.subrange(1, 1 + c) =~= s@.subrange(pos + 1, pos + 1 + c));
    }
    if n64 == 0 {
        return Err(ErrorMessage::new(ErrorKind::EmptyCollection));
    }
    if n64 > usize::MAX as u64 {
        return Err(ErrorMessage::new(ErrorKind::LengthOverflow));
    }
    let n = n64 as usize;
    let start = pos + 1 + c;
    if len - start < n {
        return Err(ErrorMessage::new(ErrorKind::TruncatedInput));
    }
    let payload = slice_to_vec(slice_subrange(s, start, start + n));
    proof {
        assert(payload@ =~= ss.subrange(1 + c, 1 + c + n));
    }
    match string_from_utf8(payload) {
        None => Err(ErrorMessage::new(ErrorKind::InvalidUtf8)),
        Some(name) => Ok((name, 1 + c + n)),
    }
}

/// A name bound to one value.
#[derive(Debug, PartialEq, Eq)]
pub struct Key {
    pub name: String,
    pub value: Value,
}

impl Key {
    pub fn new(name: String, value: Value) -> (r: Key)
        ensures
            r.name@ == name@,
            r.value@ == value@,
    {
        Key { name, value }
    }

    /// Replaces the value; the name stays.
    pub fn set_value(&mut self, new_value: Value)
        ensures
            final(self).name@ == old(self).name@,
            final(self).value@ == new_value@,
    {
        self.value = new_value;
    }

    /// Encodes the key. An empty name has no encoding and is refused.
    pub fn encode(&self) -> (r: Result<Vec<u8>, ErrorMessage>)
        ensures
            self.name@.len() == 0 ==> fails(r, ErrorKind::EmptyCollection),
            self.name@.len() > 0 ==> (r matches Ok(b) && b@ == enc_key(
                encode_utf8(self.name@),
                self.value@,
            )),
    {
        let name = match encode_name(self.name.as_str(), KEY_NAME) {
            Ok(n) => n,
            Err(e) => return Err(e),
        };
        let mut bytes: Vec<u8> = Vec::new();
        bytes.push(KEY_START);
        extend(&mut bytes, name.as_slice());
        extend(&mut bytes, self.value.bytes().as_slice());
        bytes.push(KEY_END);
        proof {
            assert(bytes@ =~= enc_key(encode_utf8(self.name@), self.value@));
        }
        Ok(bytes)
    }

    /// Same as [`Key::encode`].
    pub fn serialize(&self) -> (r: Result<Vec<u8>, ErrorMessage>)
        ensures
            self.name@.len() == 0 ==> fails(r, ErrorKind::EmptyCollection),
            self.name@.len() > 0 ==> (r matches Ok(b) && b@ == enc_key(
                encode_utf8(self.name@),
                self.value@,
            )),
    {
        self.encode()
    }

    /// Decodes the key at the front of `s[pos..]`, returning it with the number
    /// of bytes it took.
    pub fn decode_at(s: &[u8], pos: usize) -> (r: Result<(Key, usize), ErrorMessage>)
        requires
            pos <= s@.len(),
        ensures
            match parse_key(s@.subrange(pos as int, s@.len() as int)) {
                Ok(((n, v), c)) => r matches Ok((k, used)) && k.name@ == decode_utf8(n) && k.value@
                    == v && used == c,
                Err(k) => r matches Err(e) && e.kind == k,
            },
    {
        reveal(parse_key);
        let len = s.len();
        let ghost ss = s@.subrange(pos as int, len as int);
        if pos >= len {
            return Err(ErrorMessage::new(ErrorKind::TruncatedInput));
        }
        if s[pos] != KEY_START {
            return Err(ErrorMessage::new(ErrorKind::MalformedBoundary));
        }
        proof {
            assert(ss.subrange(1, ss.len() as int) =~= s@.subrange(pos + 1, len as int));
        }
        let (name, a) = match decode_name(s, pos + 1, KEY_NAME) {
            Ok(p) => p,
            Err(e) => return Err(e),
        };
        proof {
            assert(ss.subrange(1 + a, ss.len() as int) =~= s@.subrange(pos + 1 + a, len as int));
        }
        let (value, b) = match Value::decode_at(s, pos + 1 + a) {
            Ok(p) => p,
            Err(e) => return Err(e),
        };
        proof {
            lemma_parse_sound(s@.subrange(pos + 1 + a, len as int));
        }
        let end = pos + 1 + a + b;
        if end >= len {
            return Err(ErrorMessage::new(ErrorKind::TruncatedInput));
        }
        if s[end] != KEY_END {
            return Err(ErrorMessage::new(ErrorKind::MalformedBoundary));
        }
        Ok((Key { name, value }, 1 + a + b + 1))
    }

    /// Decodes a chunk that holds exactly one key, from its start marker to its end marker.
    pub fn decode(vec: Vec<u8>) -> (r: Result<Key, ErrorMessage>)
        ensures
            match parse_key_chunk(vec@) {
                Ok((n, v)) => r matches Ok(k) && k.name@ == decode_utf8(n) && k.value@ == v,
                Err(k) => r matches Err(e) && e.kind == k,
            },
    {
        let len = vec.len();
        if len < 2 || vec[0] != KEY_START || vec[len - 1] != KEY_END {
            return Err(ErrorMessage::new(ErrorKind::MalformedBoundary));
        }
        proof {
            assert(vec@.subrange(0, len as int) =~= vec@);
        }
        match Key::decode_at(vec.as_slice(), 0) {
            Err(e) => Err(e),
            Ok((k, n)) => if n == len {
                Ok(k)
            } else {
                Err(ErrorMessage::new(ErrorKind::MalformedBoundary))
            },
        }
    }

    /// Same as [`Key::decode`].
    pub fn deserialize(bytes: Vec<u8>) -> (r: Result<Key, ErrorMessage>)
        ensures
            match parse_key_chunk(bytes@) {
                Ok((n, v)) => r matches Ok(k) && k.name@ == decode_utf8(n) && k.value@ == v,
                Err(k) => r matches Err(e) && e.kind == k,
            },
    {
        Key::decode(bytes)
    }
}

/// An encoded key decodes to its name and value, whatever bytes follow it.
pub proof fn lemma_parse_key(name: Seq<u8>, v: Item, t: Seq<u8>)
    requires
        0 < name.len() <= usize::MAX,
        valid_utf8(name),
        valid(v),
    ensures
        parse_key(enc_key(name, v) + t) == Ok::<((Seq<u8>, Item), nat), ErrorKind>(
            ((name, v), enc_key(name, v).len()),
        ),
{
    reveal(parse_key);
    let s = enc_key(name, v) + t;
    let a = enc_name(KEY_NAME, name).len();
    assert(s.subrange(1, s.len() as int) =~= enc_name(KEY_NAME, name) + (enc(v) + seq![KEY_END] + t));
    lemma_parse_name(KEY_NAME, name, enc(v) + seq![KEY_END] + t);
    assert(s.subrange(1 + a as int, s.len() as int) =~= enc(v) + (seq![KEY_END] + t));
    lemma_value_round_trip(v, seq![KEY_END] + t);
    assert(s[1 + a as int + enc(v).len() as int] == KEY_END);
}

/// Round trip of keys: the chunk that a key encodes to decodes to the same
/// name and value.
pub proof fn lemma_key_round_trip(name: Seq<u8>, v: Item)
    requires
        0 < name.len() <= usize::MAX,
        valid_utf8(name),
        valid(v),
    ensures
        parse_key_chunk(enc_key(name, v)) == Ok::<(Seq<u8>, Item), ErrorKind>((name, v)),
{
    let s = enc_key(name, v);
    lemma_parse_key(name, v, Seq::empty());
    assert(s + Seq::<u8>::empty() =~= s);
    assert(s[0] == KEY_START);
    assert(s.last() == KEY_END);
}

} // verus!
