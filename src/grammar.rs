use vstd::prelude::*;
use vstd::utf8::*;
use crate::error::ErrorKind;
use crate::header::{ByteLength, Type, byte_count, header_byte, header_of, is_numeric, max_count, min_width};
use crate::length::{be_bytes, be_value, lemma_be_round_trip, lemma_max_count};

verus! {

/// The mathematical model of a value: what a value means, apart from its bytes.
pub enum Item {
    /// An integer or float of `width`, held as its big-endian bit pattern.
    Number { kind: Type, width: ByteLength, payload: Seq<u8> },
    /// A string, held as its UTF-8 bytes.
    Text(Seq<u8>),
    /// An ordered array of values.
    List(Seq<Item>),
    /// A boolean.
    Flag(bool),
}

/// Whether an item can be encoded: numbers carry a width of one to eight bytes
/// and a payload of that size; strings and arrays are non-empty and strings are UTF-8.
pub open spec fn valid(v: Item) -> bool
    decreases v,
{
    match v {
        Item::Number { kind, width, payload } => is_numeric(kind) && width != ByteLength::Zero
            && payload.len() == byte_count(width),
        Item::Text(b) => 0 < b.len() <= usize::MAX && valid_utf8(b),
        Item::List(items) => 0 < items.len() <= usize::MAX && valid_all(items),
        Item::Flag(_) => true,
    }
}

/// Whether every item of a sequence is valid.
pub open spec fn valid_all(items: Seq<Item>) -> bool
    decreases items,
{
    if items.len() == 0 {
        true
    } else {
        valid(items[0]) && valid_all(items.drop_first())
    }
}

/// A header byte of type `t` with the smallest width for `n`, then `n` in that width.
pub open spec fn counted(t: Type, n: nat) -> Seq<u8> {
    seq![header_byte(t, min_width(n))] + be_bytes(n, byte_count(min_width(n)))
}

/// The byte encoding of an item.
pub open spec fn enc(v: Item) -> Seq<u8>
    decreases v,
{
    match v {
        Item::Number { kind, width, payload } => seq![header_byte(kind, width)] + payload,
        Item::Text(b) => counted(Type::String, b.len()) + b,
        Item::List(items) => counted(Type::Array, items.len()) + enc_all(items),
        Item::Flag(f) => seq![if f { 0x81u8 } else { 0x80u8 }],
    }
}

/// The encodings of a sequence of items, concatenated in order.
pub open spec fn enc_all(items: Seq<Item>) -> Seq<u8>
    decreases items,
{
    if items.len() == 0 {
        Seq::empty()
    } else {
        enc(items[0]) + enc_all(items.drop_first())
    }
}

/// The type that an item's header announces.
pub open spec fn kind_of(v: Item) -> Type {
    match v {
        Item::Number { kind, .. } => kind,
        Item::Text(_) => Type::String,
        Item::List(_) => Type::Array,
        Item::Flag(f) => if f { Type::True } else { Type::False },
    }
}

/// The width that an item's header announces.
pub open spec fn width_of(v: Item) -> ByteLength {
    match v {
        Item::Number { width, .. } => width,
        Item::Text(b) => min_width(b.len()),
        Item::List(items) => min_width(items.len()),
        Item::Flag(_) => ByteLength::Zero,
    }
}

/// What follows the header and the count field in an item's encoding.
pub open spec fn payload_of(v: Item) -> Seq<u8> {
    match v {
        Item::Number { payload, .. } => payload,
        Item::Text(b) => b,
        Item::List(items) => enc_all(items),
        Item::Flag(_) => Seq::empty(),
    }
}

/// Decodes one item from the front of `s`: the item and the number of bytes it took.
/// Every read is checked against the length of `s` first.
pub open spec fn parse_item(s: Seq<u8>) -> Result<(Item, nat), ErrorKind>
    decreases s.len(), 0nat,
{
    if s.len() == 0 {
        Err(ErrorKind::TruncatedInput)
    } else {
        match header_of(s[0]) {
            Err(k) => Err(k),
            Ok((t, w)) => {
                let c: int = byte_count(w) as int;
                if t == Type::False {
                    Ok((Item::Flag(false), 1))
                } else if t == Type::True {
                    Ok((Item::Flag(true), 1))
                } else if is_numeric(t) {
                    if w == ByteLength::Zero {
                        Err(ErrorKind::InvalidHeader)
                    } else if s.len() < 1 + c {
                        Err(ErrorKind::TruncatedInput)
                    } else {
                        Ok((Item::Number { kind: t, width: w, payload: s.subrange(1, 1 + c) }, (1 + c) as nat))
                    }
                } else if w == ByteLength::Zero {
                    Err(ErrorKind::EmptyCollection)
                } else if s.len() < 1 + c {
                    Err(ErrorKind::TruncatedInput)
                } else {
                    let n = be_value(s.subrange(1, 1 + c));
                    if n == 0 {
                        Err(ErrorKind::EmptyCollection)
                    } else if n > usize::MAX {
                        Err(ErrorKind::LengthOverflow)
                    } else if t == Type::String {
                        if s.len() < 1 + c + n {
                            Err(ErrorKind::TruncatedInput)
                        } else if !valid_utf8(s.subrange(1 + c, 1 + c + n)) {
                            Err(ErrorKind::InvalidUtf8)
                        } else {
                            Ok((Item::Text(s.subrange(1 + c, 1 + c + n)), (1 + c + n) as nat))
                        }
                    } else {
                        match parse_items(s.subrange(1 + c, s.len() as int), n) {
                            Err(k) => Err(k),
                            Ok((items, m)) => Ok((Item::List(items), (1 + c + m) as nat)),
                        }
                    }
                }
            },
        }
    }
}

/// Decodes `n` consecutive items from the front of `s`.
pub open spec fn parse_items(s: Seq<u8>, n: nat) -> Result<(Seq<Item>, nat), ErrorKind>
    decreases s.len(), n + 1,
{
    if n == 0 {
        Ok((Seq::empty(), 0))
    } else {
        match parse_item(s) {
            Err(k) => Err(k),
            Ok((first, c)) => if c <= s.len() {
                match parse_items(s.subrange(c as int, s.len() as int), (n - 1) as nat) {
                    Err(k) => Err(k),
                    Ok((rest, m)) => Ok((seq![first] + rest, c + m)),
                }
            } else {
                Err(ErrorKind::TruncatedInput)
            },
        }
    }
}

/// A header byte decodes to the type and width it was packed from.
pub proof fn lemma_header_round_trip(t: Type, w: ByteLength)
    requires
        is_numeric(t) || t == Type::String || t == Type::Array || w == ByteLength::Zero,
    ensures
        header_of(header_byte(t, w)) == Ok::<(Type, ByteLength), ErrorKind>((t, w)),
{
}

/// The smallest width of a positive count is not `Zero`, and the count reads back.
pub proof fn lemma_counted(t: Type, n: nat)
    requires
        0 < n <= usize::MAX,
        t == Type::String || t == Type::Array,
    ensures
        min_width(n) != ByteLength::Zero,
        n <= max_count(min_width(n)),
        counted(t, n).len() == 1 + byte_count(min_width(n)),
        counted(t, n)[0] == header_byte(t, min_width(n)),
        be_value(counted(t, n).subrange(1, 1 + byte_count(min_width(n)) as int)) == n,
        header_of(counted(t, n)[0]) == Ok::<(Type, ByteLength), ErrorKind>((t, min_width(n))),
{
    let w = min_width(n);
    lemma_max_count(w);
    lemma_be_round_trip(n, byte_count(w));
    lemma_header_round_trip(t, w);
    assert(counted(t, n).subrange(1, 1 + byte_count(w) as int) =~= be_bytes(n, byte_count(w)));
}

/// Round trip of values: a valid item's encoding decodes to the same item,
/// bit for bit, taking exactly its own bytes, whatever bytes follow it.
pub proof fn lemma_value_round_trip(v: Item, t: Seq<u8>)
    requires
        valid(v),
    ensures
        parse_item(enc(v) + t) == Ok::<(Item, nat), ErrorKind>((v, enc(v).len())),
    decreases v, 1nat,
{
    let s = enc(v) + t;
    match v {
        Item::Number { kind, width, payload } => {
            lemma_header_round_trip(kind, width);
            assert(s.subrange(1, 1 + byte_count(width) as int) =~= payload);
        },
        Item::Text(b) => {
            let n = b.len();
            lemma_counted(Type::String, n);
            let c = byte_count(min_width(n)) as int;
            assert(s.subrange(1, 1 + c) =~= counted(Type::String, n).subrange(1, 1 + c));
            assert(s.subrange(1 + c, 1 + c + n) =~= b);
        },
        Item::List(items) => {
            let n = items.len();
            lemma_counted(Type::Array, n);
            let c = byte_count(min_width(n)) as int;
            assert(s.subrange(1, 1 + c) =~= counted(Type::Array, n).subrange(1, 1 + c));
            assert(s.subrange(1 + c, s.len() as int) =~= enc_all(items) + t);
            lemma_values_round_trip(items, t);
        },
        Item::Flag(f) => {},
    }
}

/// Encoded items decode to themselves, in order, whatever bytes follow them.
pub proof fn lemma_values_round_trip(items: Seq<Item>, t: Seq<u8>)
    requires
        valid_all(items),
    ensures
        parse_items(enc_all(items) + t, items.len()) == Ok::<(Seq<Item>, nat), ErrorKind>(
            (items, enc_all(items).len()),
        ),
    decreases items, 0nat,
{
    if items.len() > 0 {
        let rest = items.drop_first();
        let s = enc_all(items) + t;
        assert(s =~= enc(items[0]) + (enc_all(rest) + t));
        lemma_value_round_trip(items[0], enc_all(rest) + t);
        let c = enc(items[0]).len();
        assert(s.subrange(c as int, s.len() as int) =~= enc_all(rest) + t);
        lemma_values_round_trip(rest, t);
        assert(seq![items[0]] + rest =~= items);

    } else {
        assert(items =~= Seq::<Item>::empty());
    }
}

/// Whatever decodes is a valid item, taken from within the input.
pub proof fn lemma_parse_sound(s: Seq<u8>)
    ensures
        parse_item(s) matches Ok((v, c)) ==> valid(v) && 1 <= c <= s.len(),
    decreases s.len(), 0nat,
{
    if s.len() > 0 {
        if let Ok((t, w)) = header_of(s[0]) {
            let c = byte_count(w) as int;
            if t == Type::Array && w != ByteLength::Zero && s.len() >= 1 + c {
                let n = be_value(s.subrange(1, 1 + c));
                lemma_parse_items_sound(s.subrange(1 + c, s.len() as int), n);
            }
        }
    }
}

/// Whatever decodes as `n` items is `n` valid items, taken from within the input.
pub proof fn lemma_parse_items_sound(s: Seq<u8>, n: nat)
    ensures
        parse_items(s, n) matches Ok((items, m)) ==> valid_all(items) && items.len() == n
            && m <= s.len(),
    decreases s.len(), n + 1,
{
    if n > 0 {
        lemma_parse_sound(s);
        if let Ok((first, c)) = parse_item(s) {
            let rest = s.subrange(c as int, s.len() as int);
            lemma_parse_items_sound(rest, (n - 1) as nat);
            if let Ok((more, m)) = parse_items(rest, (n - 1) as nat) {
                let items = seq![first] + more;
                assert(items.drop_first() =~= more);
            }
        }
    }
}

/// A strict prefix of an encoded item never decodes: the decoder reports truncation.
pub proof fn lemma_truncated(v: Item, k: nat)
    requires
        valid(v),
        k < enc(v).len(),
    ensures
        parse_item(enc(v).take(k as int)) == Err::<(Item, nat), ErrorKind>(ErrorKind::TruncatedInput),
    decreases v, 1nat,
{
    let s = enc(v).take(k as int);
    if k > 0 {
        assert(s[0] == enc(v)[0]);
        match v {
            Item::Number { kind, width, payload } => {
                lemma_header_round_trip(kind, width);
            },
            Item::Text(b) => {
                let n = b.len();
                lemma_counted(Type::String, n);
                let c = byte_count(min_width(n)) as int;
                if k >= 1 + c {
                    assert(s.subrange(1, 1 + c) =~= counted(Type::String, n).subrange(1, 1 + c));
                }
            },
            Item::List(items) => {
                let n = items.len();
                lemma_counted(Type::Array, n);
                let c = byte_count(min_width(n)) as int;
                if k >= 1 + c {
                    assert(s.subrange(1, 1 + c) =~= counted(Type::Array, n).subrange(1, 1 + c));
                    assert(s.subrange(1 + c, s.len() as int) =~= enc_all(items).take(k - 1 - c));
                    lemma_truncated_all(items, (k - 1 - c) as nat);
                }
            },
            Item::Flag(f) => {},
        }
    }
}

/// A strict prefix of encoded items never decodes as all of them.
pub proof fn lemma_truncated_all(items: Seq<Item>, k: nat)
    requires
        valid_all(items),
        k < enc_all(items).len(),
    ensures
        parse_items(enc_all(items).take(k as int), items.len()) == Err::<(Seq<Item>, nat), ErrorKind>(
            ErrorKind::TruncatedInput,
        ),
    decreases items, 0nat,
{
    let rest = items.drop_first();
    let s = enc_all(items).take(k as int);
    let c = enc(items[0]).len();
    if k < c {
        assert(s =~= enc(items[0]).take(k as int));
        lemma_truncated(items[0], k);
    } else {
        assert(s =~= enc(items[0]) + enc_all(rest).take(k - c));
        lemma_value_round_trip(items[0], enc_all(rest).take(k - c));
        assert(s.subrange(c as int, s.len() as int) =~= enc_all(rest).take(k - c));
        lemma_truncated_all(rest, (k - c) as nat);
    }
}

/// A header byte is the packing of what it decodes to.
pub proof fn lemma_header_byte_of(b: u8)
    ensures
        header_of(b) matches Ok((t, w)) ==> b == header_byte(t, w) && (is_numeric(t)
            || t == Type::String || t == Type::Array || w == ByteLength::Zero),
{
}

/// Encoding one more item appends its encoding.
pub proof fn lemma_enc_all_push(items: Seq<Item>, x: Item)
    ensures
        enc_all(items.push(x)) == enc_all(items) + enc(x),
    decreases items.len(),
{
    if items.len() == 0 {
        assert(items.push(x).drop_first() =~= Seq::<Item>::empty());
        assert(items.push(x)[0] == x);
        assert(enc_all(Seq::<Item>::empty()) == Seq::<u8>::empty());
        assert(enc_all(items.push(x)) =~= enc(x));
    } else {
        assert(items.push(x).drop_first() =~= items.drop_first().push(x));
        lemma_enc_all_push(items.drop_first(), x);
        assert(enc_all(items.push(x)) =~= enc_all(items) + enc(x));
    }
}

/// A sequence is valid exactly when each of its items is.
pub proof fn lemma_valid_all(items: Seq<Item>)
    ensures
        valid_all(items) <==> forall|i: int| 0 <= i < items.len() ==> #[trigger] valid(items[i]),
    decreases items.len(),
{
    if items.len() > 0 {
        let rest = items.drop_first();
        lemma_valid_all(rest);
        if valid_all(items) {
            assert forall|i: int| 0 <= i < items.len() implies #[trigger] valid(items[i]) by {
                if i > 0 {
                    assert(items[i] == rest[i - 1]);
                }
            }
        }
        if forall|i: int| 0 <= i < items.len() ==> #[trigger] valid(items[i]) {
            assert forall|i: int| 0 <= i < rest.len() implies #[trigger] valid(rest[i]) by {
                assert(valid(items[i + 1]));
            }
            assert(valid(items[0]));
        }
    }
}

/// No bytes decode to an empty string or an empty array.
pub proof fn lemma_decoded_not_empty(s: Seq<u8>)
    ensures
        parse_item(s) matches Ok((v, _)) ==> !(v matches Item::Text(b) && b.len() == 0) && !(
        v matches Item::List(items) && items.len() == 0),
{
    lemma_parse_sound(s);
}

} // verus!
