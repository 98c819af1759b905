use vstd::prelude::*;
use vstd::slice::{slice_subrange, slice_to_vec};
use vstd::utf8::{decode_utf8, decode_utf8_encode_utf8, encode_utf8, encode_utf8_valid_utf8};
use crate::bytes::{extend, string_from_utf8};
use crate::error::{ErrorKind, ErrorMessage, fails};
use crate::grammar::{Item, counted, enc, enc_all, kind_of, lemma_enc_all_push, lemma_header_byte_of, lemma_value_round_trip, lemma_values_round_trip, lemma_parse_items_sound, lemma_parse_sound, lemma_valid_all, parse_item, parse_items, payload_of, valid, width_of};
use crate::header::{ByteLength, Type, byte_count, choose_width, decode_header, encode_header, is_numeric, max_count};
use crate::length::{be_bytes, be_value, decode_length, encode_length, lemma_be_value_bound, lemma_max_count};

verus! {

/// One typed value together with its encoding: a header byte, a count field for
/// strings and arrays, then the payload.
#[derive(Debug, PartialEq, Eq)]
pub struct Value {
    kind: Type,
    length: ByteLength,
    bytes: Vec<u8>,
}

/// The models of a sequence of values.
pub open spec fn views(vals: Seq<Value>) -> Seq<Item> {
    vals.map_values(|v: Value| v@)
}

/// How a decoding result relates to what the grammar gives for the same bytes.
pub open spec fn decoded_as(r: Result<Value, ErrorMessage>, p: Result<(Item, nat), ErrorKind>) -> bool {
    match p {
        Ok((v, _)) => r matches Ok(x) && x@ == v,
        Err(k) => fails(r, k),
    }
}

/// The unsigned number that an item holds, when it is a number of that type and width.
pub open spec fn number_of(v: Item, kind: Type, width: ByteLength) -> Option<nat> {
    match v {
        Item::Number { kind: k, width: w, payload } => if k == kind && w == width {
            Some(be_value(payload))
        } else {
            None
        },
        _ => None,
    }
}

/// The two's complement bit pattern of `n` in the bytes of `width`.
pub open spec fn twos(n: int, width: ByteLength) -> nat {
    if n >= 0 {
        n as nat
    } else {
        (n + max_count(width) + 1) as nat
    }
}

/// The signed number that a two's complement bit pattern of `width` stands for.
pub open spec fn signed(bits: nat, width: ByteLength) -> int {
    if bits * 2 > max_count(width) {
        bits - max_count(width) - 1
    } else {
        bits as int
    }
}

impl View for Value {
    type V = Item;

    closed spec fn view(&self) -> Item {
        parse_item(self.bytes@)->Ok_0.0
    }
}

impl Value {
    #[verifier::type_invariant]
    spec fn well_formed(&self) -> bool {
        &&& valid(self@)
        &&& self.bytes@ == enc(self@)
        &&& self.kind == kind_of(self@)
        &&& self.length == width_of(self@)
    }

    fn from_parts(kind: Type, length: ByteLength, bytes: Vec<u8>, Ghost(v): Ghost<Item>) -> (r: Value)
        requires
            valid(v),
            bytes@ == enc(v),
            kind == kind_of(v),
            length == width_of(v),
        ensures
            r@ == v,
    {
        proof {
            lemma_value_round_trip(v, Seq::empty());
            assert(enc(v) + Seq::<u8>::empty() =~= enc(v));
        }
        Value { kind, length, bytes }
    }

    /// Every value is a valid item.
    pub fn is_valid(&self) -> (r: bool)
        ensures
            r,
            valid(self@),
    {
        proof {
            use_type_invariant(self);
        }
        true
    }

    /// The type that the header announces.
    pub fn kind(&self) -> (r: Type)
        ensures
            r == kind_of(self@),
    {
        proof {
            use_type_invariant(self);
        }
        self.kind
    }

    /// The width that the header announces.
    pub fn length(&self) -> (r: ByteLength)
        ensures
            r == width_of(self@),
    {
        proof {
            use_type_invariant(self);
        }
        self.length
    }

    /// The complete encoding of this value.
    pub fn bytes(&self) -> (r: &Vec<u8>)
        ensures
            r@ == enc(self@),
            valid(self@),
    {
        proof {
            use_type_invariant(self);
        }
        &self.bytes
    }

    fn boolean(b: bool) -> (r: Value)
        ensures
            r@ == Item::Flag(b),
    {
        let t = if b { Type::True } else { Type::False };
        let mut bytes: Vec<u8> = Vec::new();
        bytes.push(t.tag());
        Value::from_parts(t, ByteLength::Zero, bytes, Ghost(Item::Flag(b)))
    }

    fn from_bits(kind: Type, width: ByteLength, bits: u64) -> (r: Value)
        requires
            is_numeric(kind),
            width != ByteLength::Zero,
            bits <= max_count(width),
        ensures
            r@ == (Item::Number { kind, width, payload: be_bytes(bits as nat, byte_count(width)) }),
    {
        let mut bytes: Vec<u8> = Vec::new();
        bytes.push(encode_header(kind, width));
        let mut payload = encode_length(bits, width);
        let ghost p = payload@;
        bytes.append(&mut payload);
        let ghost v = Item::Number { kind, width, payload: p };
        proof {
            assert(bytes@ =~= enc(v));
        }
        Value::from_parts(kind, width, bytes, Ghost(v))
    }

    fn bits_of(&self, kind: Type, width: ByteLength) -> (r: Result<u64, ErrorMessage>)
        requires
            is_numeric(kind),
            width != ByteLength::Zero,
        ensures
            match number_of(self@, kind, width) {
                Some(n) => r matches Ok(x) && x as nat == n && n <= max_count(width),
                None => fails(r, ErrorKind::WrongType),
            },
    {
        proof {
            use_type_invariant(self);
        }
        if self.kind != kind || self.length != width {
            return Err(ErrorMessage::new(ErrorKind::WrongType));
        }
        let ghost payload = self@->Number_payload;
        proof {
            assert(self.bytes@.subrange(1, 1 + byte_count(width) as int) =~= payload);
            lemma_be_value_bound(payload);
            lemma_max_count(width);
        }
        Ok(decode_length(self.bytes.as_slice(), 1, width.as_byte_count()))
    }

    /// Decodes one value from the front of `s[pos..]`, returning it with the
    /// number of bytes it took. Nothing past the end of `s` is read.
    pub fn decode_at(s: &[u8], pos: usize) -> (r: Result<(Value, usize), ErrorMessage>)
        requires
            pos <= s@.len(),
        ensures
            match parse_item(s@.subrange(pos as int, s@.len() as int)) {
                Ok((v, c)) => r matches Ok((x, n)) && x@ == v && n == c,
                Err(k) => r matches Err(e) && e.kind == k,
            },
        decreases s@.len() - pos, 0nat,
    {
        let len = s.len();
        let ghost ss = s@.subrange(pos as int, len as int);
        if pos >= len {
            return Err(ErrorMessage::new(ErrorKind::TruncatedInput));
        }
        let h = s[pos];
        proof {
            assert(ss[0] == h);
            lemma_header_byte_of(h);
        }
        let (t, w) = match decode_header(h) {
            Ok(p) => p,
            Err(e) => return Err(e),
        };
        let c = w.as_byte_count();
        match t {
            Type::False => {
                return Ok((Value::boolean(false), 1));
            },
            Type::True => {
                return Ok((Value::boolean(true), 1));
            },
            _ => {},
        }
        if w == ByteLength::Zero {
            if t == Type::String || t == Type::Array {
                return Err(ErrorMessage::new(ErrorKind::EmptyCollection));
            }
            return Err(ErrorMessage::new(ErrorKind::InvalidHeader));
        }
        if len - pos < 1 + c {
            return Err(ErrorMessage::new(ErrorKind::TruncatedInput));
        }
        if t == Type::Uint || t == Type::Int || t == Type::Float {
            let bytes = slice_to_vec(slice_subrange(s, pos, pos + 1 + c));
            let ghost v = Item::Number { kind: t, width: w, payload: ss.subrange(1, 1 + c) };
            proof {
                assert(bytes@ =~= enc(v));
            }
            return Ok((Value::from_parts(t, w, bytes, Ghost(v)), 1 + c));
        }
        let n64 = decode_length(s, pos + 1, c);
        proof {
            assert(ss.subrange(1, 1 + c) =~= s@.subrange(pos + 1, pos + 1 + c));
        }
        if n64 == 0 {
            return Err(ErrorMessage::new(ErrorKind::EmptyCollection));
        }
        if n64 > usize::MAX as u64 {
            return Err(ErrorMessage::new(ErrorKind::LengthOverflow));
        }
        let n = n64 as usize;
        let start = pos + 1 + c;
        if t == Type::String {
            if len - start < n {
                return Err(ErrorMessage::new(ErrorKind::TruncatedInput));
            }
            let payload = slice_to_vec(slice_subrange(s, start, start + n));
            proof {
                assert(payload@ =~= ss.subrange(1 + c, 1 + c + n));
            }
            match string_from_utf8(payload) {
                None => {
                    return Err(ErrorMessage::new(ErrorKind::InvalidUtf8));
                },
                Some(text) => {
                    let v = Value::from_string(text);
                    proof {
                        decode_utf8_encode_utf8(ss.subrange(1 + c, 1 + c + n));
                    }
                    return match v {
                        Ok(x) => Ok((x, 1 + c + n)),
                        Err(e) => Err(e),
                    };
                },
            }
        }
        proof {
            assert(ss.subrange(1 + c, ss.len() as int) =~= s@.subrange(start as int, len as int));
            lemma_parse_items_sound(s@.subrange(start as int, len as int), n as nat);
        }
        match Value::decode_list(s, start, n) {
            Err(e) => Err(e),
            Ok((elems, used)) => match Value::from_vec(elems) {
                Ok(x) => Ok((x, 1 + c + used)),
                Err(e) => Err(e),
            },
        }
    }

    /// Decodes `n` consecutive values from `s[start..]`, returning them with the
    /// number of bytes they took.
    fn decode_list(s: &[u8], start: usize, n: usize) -> (r: Result<(Vec<Value>, usize), ErrorMessage>)
        requires
            start <= s@.len(),
        ensures
            match parse_items(s@.subrange(start as int, s@.len() as int), n as nat) {
                Ok((items, m)) => r matches Ok((vals, used)) && views(vals@) == items && used == m
                    && vals@.len() == n,
                Err(k) => r matches Err(e) && e.kind == k,
            },
        decreases s@.len() - start, 1nat,
    {
        let len = s.len();
        let mut elems: Vec<Value> = Vec::new();
        let mut p: usize = start;
        let mut i: usize = 0;
        let ghost whole = parse_items(s@.subrange(start as int, len as int), n as nat);
        proof {
            assert(whole == glue(views(elems@), 0, whole)) by {
                assert(views(elems@) =~= Seq::<Item>::empty());
                if let Ok((more, m)) = whole {
                    assert(Seq::<Item>::empty() + more =~= more);
                }
            }
        }
        while i < n
            invariant
                len == s@.len(),
                start <= p <= len,
                i <= n,
                elems@.len() == i,
                whole == parse_items(s@.subrange(start as int, len as int), n as nat),
                whole == glue(
                    views(elems@),
                    (p - start) as nat,
                    parse_items(s@.subrange(p as int, len as int), (n - i) as nat),
                ),
            decreases n - i,
        {
            let ghost rest = s@.subrange(p as int, len as int);
            match Value::decode_at(s, p) {
                Err(e) => {
                    proof {
                        assert(parse_items(rest, (n - i) as nat) == Err::<(Seq<Item>, nat), ErrorKind>(
                            e.kind,
                        ));
                    }
                    return Err(e);
                },
                Ok((x, used)) => {
                    proof {
                        lemma_parse_sound(rest);
                        assert(rest.subrange(used as int, rest.len() as int) =~= s@.subrange(
                            p + used,
                            len as int,
                        ));
                        let done = views(elems@);
                        assert(views(elems@.push(x)) =~= done.push(x@));
                        match parse_items(s@.subrange(p + used, len as int), (n - i - 1) as nat) {
                            Ok((more, m)) => {
                                assert(done + (seq![x@] + more) =~= done.push(x@) + more);
                            },
                            Err(k) => {},
                        }
                    }
                    elems.push(x);
                    p = p + used;
                    i = i + 1;
                },
            }
        }
        proof {
            assert(views(elems@) + Seq::<Item>::empty() =~= views(elems@));
        }
        Ok((elems, p - start))
    }

    /// Decodes the value at the front of `vec`; bytes after it are ignored.
    pub fn decode(vec: Vec<u8>) -> (r: Result<Value, ErrorMessage>)
        ensures
            decoded_as(r, parse_item(vec@)),
    {
        proof {
            assert(vec@.subrange(0, vec@.len() as int) =~= vec@);
        }
        match Value::decode_at(vec.as_slice(), 0) {
            Ok((v, _)) => Ok(v),
            Err(e) => Err(e),
        }
    }

    /// Builds a value from a sequence of values: an array of them, in order.
    /// An empty sequence has no encoding and is refused.
    pub fn from_vec(vec: Vec<Value>) -> (r: Result<Value, ErrorMessage>)
        ensures
            vec@.len() == 0 ==> fails(r, ErrorKind::EmptyCollection),
            vec@.len() > 0 ==> (r matches Ok(x) && x@ == Item::List(views(vec@))),
    {
        let n = vec.len();
        let w = match choose_width(n) {
            Ok(w) => w,
            Err(e) => return Err(e),
        };
        let ghost items = views(vec@);
        let mut bytes: Vec<u8> = Vec::new();
        bytes.push(encode_header(Type::Array, w));
        let mut count = encode_length(n as u64, w);
        bytes.append(&mut count);
        proof {
            assert(bytes@ =~= counted(Type::Array, n as nat) + enc_all(items.take(0)));
        }
        let mut i: usize = 0;
        while i < n
            invariant
                n == vec@.len(),
                items == views(vec@),
                i <= n,
                bytes@ == counted(Type::Array, n as nat) + enc_all(items.take(i as int)),
                forall|j: int| 0 <= j < i ==> #[trigger] valid(items[j]),
            decreases n - i,
        {
            let b = vec[i].bytes();
            proof {
                lemma_enc_all_push(items.take(i as int), items[i as int]);
                assert(items.take(i + 1) =~= items.take(i as int).push(items[i as int]));
            }
            extend(&mut bytes, b.as_slice());
            i = i + 1;
        }
        proof {
            assert(items.take(n as int) =~= items);
            lemma_valid_all(items);
        }
        Ok(Value::from_parts(Type::Array, w, bytes, Ghost(Item::List(items))))
    }

    /// Reads the value as a `u8`; only an unsigned integer of 1 byte(s) qualifies.
    pub fn as_u8(&self) -> (r: Result<u8, ErrorMessage>)
        ensures
            match number_of(self@, Type::Uint, ByteLength::One) {
                Some(n) => r matches Ok(x) && x as nat == n,
                None => fails(r, ErrorKind::WrongType),
            },
    {
        match self.bits_of(Type::Uint, ByteLength::One) {
            Ok(b) => Ok(b as u8),
            Err(e) => Err(e),
        }
    }

    /// An unsigned integer of 1 byte(s) holding `num`.
    pub fn from_u8(num: u8) -> (r: Value)
        ensures
            r@ == (Item::Number {
                kind: Type::Uint,
                width: ByteLength::One,
                payload: be_bytes(num as nat, 1),
            }),
    {
        Value::from_bits(Type::Uint, ByteLength::One, num as u64)
    }
    /// Reads the value as an `i8`; only a signed integer of 1 byte(s) qualifies.
    pub fn as_i8(&self) -> (r: Result<i8, ErrorMessage>)
        ensures
            match number_of(self@, Type::Int, ByteLength::One) {
                Some(n) => r matches Ok(x) && x as int == signed(n, ByteLength::One),
                None => fails(r, ErrorKind::WrongType),
            },
    {
        match self.bits_of(Type::Int, ByteLength::One) {
            Ok(b) => {
                if b > 0x7F {
                    Ok((b as i128 - 0x100) as i8)
                } else {
                    Ok(b as i8)
                }
            },
            Err(e) => Err(e),
        }
    }

    /// A signed integer of 1 byte(s) holding `num` in two's complement.
    pub fn from_i8(num: i8) -> (r: Value)
        ensures
            r@ == (Item::Number {
                kind: Type::Int,
                width: ByteLength::One,
                payload: be_bytes(twos(num as int, ByteLength::One), 1),
            }),
    {
        let bits: u64 = if num >= 0 {
            num as u64
        } else {
            (num as i128 + 0x100) as u64
        };
        Value::from_bits(Type::Int, ByteLength::One, bits)
    }
    /// Reads the value as a `u16`; only an unsigned integer of 2 byte(s) qualifies.
    pub fn as_u16(&self) -> (r: Result<u16, ErrorMessage>)
        ensures
            match number_of(self@, Type::Uint, ByteLength::Two) {
                Some(n) => r matches Ok(x) && x as nat == n,
                None => fails(r, ErrorKind::WrongType),
            },
    {
        match self.bits_of(Type::Uint, ByteLength::Two) {
            Ok(b) => Ok(b as u16),
            Err(e) => Err(e),
        }
    }

    /// An unsigned integer of 2 byte(s) holding `num`.
    pub fn from_u16(num: u16) -> (r: Value)
        ensures
            r@ == (Item::Number {
                kind: Type::Uint,
                width: ByteLength::Two,
                payload: be_bytes(num as nat, 2),
            }),
    {
        Value::from_bits(Type::Uint, ByteLength::Two, num as u64)
    }
    /// Reads the value as an `i16`; only a signed integer of 2 byte(s) qualifies.
    pub fn as_i16(&self) -> (r: Result<i16, ErrorMessage>)
        ensures
            match number_of(self@, Type::Int, ByteLength::Two) {
                Some(n) => r matches Ok(x) && x as int == signed(n, ByteLength::Two),
                None => fails(r, ErrorKind::WrongType),
            },
    {
        match self.bits_of(Type::Int, ByteLength::Two) {
            Ok(b) => {
                if b > 0x7FFF {
                    Ok((b as i128 - 0x1_0000) as i16)
                } else {
                    Ok(b as i16)
                }
            },
            Err(e) => Err(e),
        }
    }

    /// A signed integer of 2 byte(s) holding `num` in two's complement.
    pub fn from_i16(num: i16) -> (r: Value)
        ensures
            r@ == (Item::Number {
                kind: Type::Int,
                width: ByteLength::Two,
                payload: be_bytes(twos(num as int, ByteLength::Two), 2),
            }),
    {
        let bits: u64 = if num >= 0 {
            num as u64
        } else {
            (num as i128 + 0x1_0000) as u64
        };
        Value::from_bits(Type::Int, ByteLength::Two, bits)
    }
    /// Reads the value as a `u32`; only an unsigned integer of 4 byte(s) qualifies.
    pub fn as_u32(&self) -> (r: Result<u32, ErrorMessage>)
        ensures
            match number_of(self@, Type::Uint, ByteLength::Four) {
                Some(n) => r matches Ok(x) && x as nat == n,
                None => fails(r, ErrorKind::WrongType),
            },
    {
        match self.bits_of(Type::Uint, ByteLength::Four) {
            Ok(b) => Ok(b as u32),
            Err(e) => Err(e),
        }
    }

    /// An unsigned integer of 4 byte(s) holding `num`.
    pub fn from_u32(num: u32) -> (r: Value)
        ensures
            r@ == (Item::Number {
                kind: Type::Uint,
                width: ByteLength::Four,
                payload: be_bytes(num as nat, 4),
            }),
    {
        Value::from_bits(Type::Uint, ByteLength::Four, num as u64)
    }
    /// Reads the value as an `i32`; only a signed integer of 4 byte(s) qualifies.
    pub fn as_i32(&self) -> (r: Result<i32, ErrorMessage>)
        ensures
            match number_of(self@, Type::Int, ByteLength::Four) {
                Some(n) => r matches Ok(x) && x as int == signed(n, ByteLength::Four),
                None => fails(r, ErrorKind::WrongType),
            },
    {
        match self.bits_of(Type::Int, ByteLength::Four) {
            Ok(b) => {
                if b > 0x7FFF_FFFF {
                    Ok((b as i128 - 0x1_0000_0000) as i32)
                } else {
                    Ok(b as i32)
                }
            },
            Err(e) => Err(e),
        }
    }

    /// A signed integer of 4 byte(s) holding `num` in two's complement.
    pub fn from_i32(num: i32) -> (r: Value)
        ensures
            r@ == (Item::Number {
                kind: Type::Int,
                width: ByteLength::Four,
                payload: be_bytes(twos(num as int, ByteLength::Four), 4),
            }),
    {
        let bits: u64 = if num >= 0 {
            num as u64
        } else {
            (num as i128 + 0x1_0000_0000) as u64
        };
        Value::from_bits(Type::Int, ByteLength::Four, bits)
    }
    /// Reads the value as a `u64`; only an unsigned integer of 8 byte(s) qualifies.
    pub fn as_u64(&self) -> (r: Result<u64, ErrorMessage>)
        ensures
            match number_of(self@, Type::Uint, ByteLength::Eight) {
                Some(n) => r matches Ok(x) && x as nat == n,
                None => fails(r, ErrorKind::WrongType),
            },
    {
        match self.bits_of(Type::Uint, ByteLength::Eight) {
            Ok(b) => Ok(b as u64),
            Err(e) => Err(e),
        }
    }

    /// An unsigned integer of 8 byte(s) holding `num`.
    pub fn from_u64(num: u64) -> (r: Value)
        ensures
            r@ == (Item::Number {
                kind: Type::Uint,
                width: ByteLength::Eight,
                payload: be_bytes(num as nat, 8),
            }),
    {
        Value::from_bits(Type::Uint, ByteLength::Eight, num as u64)
    }
    /// Reads the value as an `i64`; only a signed integer of 8 byte(s) qualifies.
    pub fn as_i64(&self) -> (r: Result<i64, ErrorMessage>)
        ensures
            match number_of(self@, Type::Int, ByteLength::Eight) {
                Some(n) => r matches Ok(x) && x as int == signed(n, ByteLength::Eight),
                None => fails(r, ErrorKind::WrongType),
            },
    {
        match self.bits_of(Type::Int, ByteLength::Eight) {
            Ok(b) => {
                if b > 0x7FFF_FFFF_FFFF_FFFF {
                    Ok((b as i128 - 0x1_0000_0000_0000_0000) as i64)
                } else {
                    Ok(b as i64)
                }
            },
            Err(e) => Err(e),
        }
    }

    /// A signed integer of 8 byte(s) holding `num` in two's complement.
    pub fn from_i64(num: i64) -> (r: Value)
        ensures
            r@ == (Item::Number {
                kind: Type::Int,
                width: ByteLength::Eight,
                payload: be_bytes(twos(num as int, ByteLength::Eight), 8),
            }),
    {
        let bits: u64 = if num >= 0 {
            num as u64
        } else {
            (num as i128 + 0x1_0000_0000_0000_0000) as u64
        };
        Value::from_bits(Type::Int, ByteLength::Eight, bits)
    }
    /// Builds a number from its header byte and payload at the front of `vec`;
    /// bytes past the payload are ignored. Only the numeric types are accepted.
    pub fn from_number(vec: Vec<u8>) -> (r: Result<Value, ErrorMessage>)
        ensures
            vec@.len() == 0 ==> fails(r, ErrorKind::TruncatedInput),
            vec@.len() > 0 && vec@[0] / 16 > 3 ==> fails(r, ErrorKind::WrongType),
            vec@.len() > 0 && vec@[0] / 16 <= 3 ==> decoded_as(r, parse_item(vec@)),
    {
        if vec.len() == 0 {
            return Err(ErrorMessage::new(ErrorKind::TruncatedInput));
        }
        if vec[0] / 16 > 3 {
            return Err(ErrorMessage::new(ErrorKind::WrongType));
        }
        Value::decode(vec)
    }

    /// The bytes after the header and the count field: a number's bit pattern,
    /// a string's UTF-8 bytes, an array's element encodings; nothing for a boolean.
    pub fn isolate_value_bytes(&self) -> (r: &[u8])
        ensures
            r@ == payload_of(self@),
    {
        proof {
            use_type_invariant(self);
        }
        let start: usize = match self.kind {
            Type::String | Type::Array => 1 + self.length.as_byte_count(),
            _ => 1,
        };
        proof {
            match self@ {
                Item::Text(b) => {
                    crate::grammar::lemma_counted(Type::String, b.len());
                },
                Item::List(items) => {
                    crate::grammar::lemma_counted(Type::Array, items.len());
                },
                _ => {},
            }
            assert(self.bytes@.subrange(start as int, self.bytes@.len() as int) =~= payload_of(self@));
        }
        slice_subrange(self.bytes.as_slice(), start, self.bytes.len())
    }

    /// Reads the value as a string.
    pub fn as_string(&self) -> (r: Result<String, ErrorMessage>)
        ensures
            match self@ {
                Item::Text(b) => r matches Ok(s) && s@ == decode_utf8(b),
                _ => fails(r, ErrorKind::WrongType),
            },
    {
        proof {
            use_type_invariant(self);
        }
        if self.kind != Type::String {
            return Err(ErrorMessage::new(ErrorKind::WrongType));
        }
        let payload = slice_to_vec(self.isolate_value_bytes());
        match string_from_utf8(payload) {
            Some(s) => Ok(s),
            None => Err(ErrorMessage::new(ErrorKind::InvalidUtf8)),
        }
    }

    /// Reads the value as a boolean.
    pub fn as_bool(&self) -> (r: Result<bool, ErrorMessage>)
        ensures
            match self@ {
                Item::Flag(b) => r == Ok::<bool, ErrorMessage>(b),
                _ => fails(r, ErrorKind::WrongType),
            },
    {
        proof {
            use_type_invariant(self);
        }
        match self.kind {
            Type::True => Ok(true),
            Type::False => Ok(false),
            _ => Err(ErrorMessage::new(ErrorKind::WrongType)),
        }
    }

    /// A boolean value; it never fails.
    pub fn from_bool(bool: bool) -> (r: Result<Value, ErrorMessage>)
        ensures
            r matches Ok(x) && x@ == Item::Flag(bool),
    {
        Ok(Value::boolean(bool))
    }

    /// Reads the value as an array of values, in order.
    pub fn as_array(&self) -> (r: Result<Vec<Value>, ErrorMessage>)
        ensures
            match self@ {
                Item::List(items) => r matches Ok(vals) && views(vals@) == items,
                _ => fails(r, ErrorKind::WrongType),
            },
    {
        proof {
            use_type_invariant(self);
        }
        if self.kind != Type::Array {
            return Err(ErrorMessage::new(ErrorKind::WrongType));
        }
        let ghost items = self@->List_0;
        let c = self.length.as_byte_count();
        let s = self.bytes.as_slice();
        proof {
            crate::grammar::lemma_counted(Type::Array, items.len());
            assert(s@.subrange(1, 1 + c) =~= counted(Type::Array, items.len()).subrange(1, 1 + c));
        }
        let n = decode_length(s, 1, c);
        proof {
            assert(s@.subrange(1 + c, s@.len() as int) =~= enc_all(items) + Seq::<u8>::empty());
            lemma_values_round_trip(items, Seq::<u8>::empty());
        }
        match Value::decode_list(s, 1 + c, n as usize) {
            Ok((vals, _)) => Ok(vals),
            Err(e) => Err(e),
        }
    }

    /// Builds a string value from the UTF-8 bytes of `str`.
    /// An empty string has no encoding and is refused.
    pub fn from_string(str: String) -> (r: Result<Value, ErrorMessage>)
        ensures
            str@.len() == 0 ==> fails(r, ErrorKind::EmptyCollection),
            str@.len() > 0 ==> (r matches Ok(x) && x@ == Item::Text(encode_utf8(str@))),
    {
        proof {
            crate::bytes::lemma_utf8_empty(str@);
        }
        let b = str.as_str().as_bytes();
        let n = b.len();
        let w = match choose_width(n) {
            Ok(w) => w,
            Err(e) => return Err(e),
        };
        let mut bytes: Vec<u8> = Vec::new();
        bytes.push(encode_header(Type::String, w));
        let mut count = encode_length(n as u64, w);
        bytes.append(&mut count);
        extend(&mut bytes, b);
        let ghost v = Item::Text(b@);
        proof {
            encode_utf8_valid_utf8(str@);
            assert(bytes@ =~= enc(v));
        }
        Ok(Value::from_parts(Type::String, w, bytes, Ghost(v)))
    }
}

/// The result of decoding items one by one: `done` already decoded in `c` bytes, then `rest`.
pub open spec fn glue<T>(done: Seq<T>, c: nat, rest: Result<(Seq<T>, nat), ErrorKind>) -> Result<(Seq<T>, nat), ErrorKind> {
    match rest {
        Ok((more, m)) => Ok((done + more, c + m)),
        Err(k) => Err(k),
    }
}

} // verus!
