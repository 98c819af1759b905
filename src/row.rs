use vstd::prelude::*;
use vstd::utf8::{decode_utf8, encode_utf8, encode_utf8_decode_utf8, encode_utf8_valid_utf8, valid_utf8};
use crate::bytes::{extend, lemma_utf8_empty};
use crate::error::{ErrorKind, ErrorMessage, fails};
use crate::grammar::{Item, valid};
use crate::key::{
    Key, KEY_START, decode_name, enc_key, enc_name, encode_name, lemma_parse_key, lemma_parse_name,
    parse_key, parse_name,
};
use crate::table::{last_wins, lemma_last_wins_absent, lemma_last_wins_contains, lemma_last_wins_index, lemma_last_wins_remove, unique_names};
use crate::value::{Value, glue};

verus! {

/// Marks the start of a row chunk.
pub const ROW_START: u8 = 0xF1;
/// High nibble of a row name's header byte.
pub const ROW_NAME: u8 = 0x60;
/// Marks the end of a row chunk.
pub const ROW_END: u8 = 0xF2;

/// What a row means: its name and the map from key names to values.
pub ghost struct RowView {
    pub name: Seq<char>,
    pub keys: Map<Seq<char>, Item>,
}

/// The named values of a sequence of keys.
pub open spec fn key_entries(keys: Seq<Key>) -> Seq<(Seq<char>, Item)> {
    keys.map_values(|k: Key| (k.name@, k.value@))
}

/// The encoded names and values of a sequence of keys.
pub open spec fn key_records(keys: Seq<Key>) -> Seq<(Seq<u8>, Item)> {
    keys.map_values(|k: Key| (encode_utf8(k.name@), k.value@))
}

/// The named values that decoded key records stand for.
pub open spec fn decoded_entries(recs: Seq<(Seq<u8>, Item)>) -> Seq<(Seq<char>, Item)> {
    recs.map_values(|p: (Seq<u8>, Item)| (decode_utf8(p.0), p.1))
}

/// The encodings of key records, concatenated in order.
pub open spec fn enc_keys(recs: Seq<(Seq<u8>, Item)>) -> Seq<u8>
    decreases recs.len(),
{
    if recs.len() == 0 {
        Seq::empty()
    } else {
        enc_key(recs[0].0, recs[0].1) + enc_keys(recs.drop_first())
    }
}

/// The encoding of a row: its start marker, its name chunk, its keys, its end marker.
pub open spec fn enc_row(name: Seq<u8>, recs: Seq<(Seq<u8>, Item)>) -> Seq<u8> {
    seq![ROW_START] + enc_name(ROW_NAME, name) + enc_keys(recs) + seq![ROW_END]
}

/// Decodes keys from the front of `s` up to and including the row's end marker.
pub open spec fn parse_keys(s: Seq<u8>) -> Result<(Seq<(Seq<u8>, Item)>, nat), ErrorKind>
    decreases s.len(),
{
    if s.len() == 0 {
        Err(ErrorKind::TruncatedInput)
    } else if s[0] == ROW_END {
        Ok((Seq::empty(), 1))
    } else {
        match parse_key(s) {
            Err(k) => Err(k),
            Ok((rec, n)) => if 0 < n <= s.len() {
                match parse_keys(s.subrange(n as int, s.len() as int)) {
                    Err(k) => Err(k),
                    Ok((more, m)) => Ok((seq![rec] + more, n + m)),
                }
            } else {
                Err(ErrorKind::TruncatedInput)
            },
        }
    }
}

/// Decodes one row from the front of `s`: its name bytes and key records, and
/// the number of bytes it took.
#[verifier::opaque]
pub open spec fn parse_row(s: Seq<u8>) -> Result<((Seq<u8>, Seq<(Seq<u8>, Item)>), nat), ErrorKind> {
    if s.len() == 0 {
        Err(ErrorKind::TruncatedInput)
    } else if s[0] != ROW_START {
        Err(ErrorKind::MalformedBoundary)
    } else {
        match parse_name(ROW_NAME, s.subrange(1, s.len() as int)) {
            Err(k) => Err(k),
            Ok((name, a)) => match parse_keys(s.subrange(1 + a as int, s.len() as int)) {
                Err(k) => Err(k),
                Ok((recs, m)) => Ok(((name, recs), 1 + a + m)),
            },
        }
    }
}

/// Decodes a chunk that holds exactly one row, from its start marker to its end marker.
pub open spec fn parse_row_chunk(s: Seq<u8>) -> Result<(Seq<u8>, Seq<(Seq<u8>, Item)>), ErrorKind> {
    if s.len() < 2 || s[0] != ROW_START || s.last() != ROW_END {
        Err(ErrorKind::MalformedBoundary)
    } else {
        match parse_row(s) {
            Err(k) => Err(k),
            Ok((row, n)) => if n == s.len() {
                Ok(row)
            } else {
                Err(ErrorKind::MalformedBoundary)
            },
        }
    }
}

/// The row that a decoded name and key records stand for.
pub open spec fn row_model(name: Seq<u8>, recs: Seq<(Seq<u8>, Item)>) -> RowView {
    RowView { name: decode_utf8(name), keys: last_wins(decoded_entries(recs)) }
}

/// A named set of uniquely named keys.
#[derive(Debug, PartialEq, Eq)]
pub struct Row {
    pub name: String,
    pub keys: Vec<Key>,
}

impl View for Row {
    type V = RowView;

    open spec fn view(&self) -> RowView {
        RowView { name: self.name@, keys: last_wins(key_entries(self.keys@)) }
    }
}

impl Row {
    /// Key names are unique and every value is valid.
    pub open spec fn wf(&self) -> bool {
        &&& unique_names(key_entries(self.keys@))
        &&& forall|i: int| 0 <= i < self.keys@.len() ==> valid(#[trigger] self.keys@[i].value@)
    }

    /// Whether every key name is non-empty, so that the row can be encoded.
    pub open spec fn names_nonempty(&self) -> bool {
        &&& self.name@.len() > 0
        &&& forall|i: int| 0 <= i < self.keys@.len() ==> (#[trigger] self.keys@[i]).name@.len() > 0
    }

    /// Whether the UTF-8 encoding of every name fits a length field.
    pub open spec fn names_fit(&self) -> bool {
        &&& encode_utf8(self.name@).len() <= usize::MAX
        &&& forall|i: int| 0 <= i < self.keys@.len() ==> encode_utf8((#[trigger] self.keys@[i]).name@).len() <= usize::MAX
    }

    fn find(&self, name: &String) -> (r: Option<usize>)
        ensures
            r matches Some(i) ==> i < self.keys@.len() && self.keys@[i as int].name@ == name@,
            r is None ==> forall|i: int| 0 <= i < self.keys@.len() ==> (#[trigger] self.keys@[i]).name@ != name@,
    {
        let mut i: usize = 0;
        while i < self.keys.len()
            invariant
                i <= self.keys@.len(),
                forall|j: int| 0 <= j < i ==> (#[trigger] self.keys@[j]).name@ != name@,
            decreases self.keys@.len() - i,
        {
            if self.keys[i].name == *name {
                return Some(i);
            }
            i = i + 1;
        }
        None
    }

    /// A row with the given name and no keys.
    pub fn new_empty(name: String) -> (r: Row)
        ensures
            r.wf(),
            r@.name == name@,
            r@.keys == Map::<Seq<char>, Item>::empty(),
    {
        let r = Row { name, keys: Vec::new() };
        proof {
            assert(key_entries(r.keys@) =~= Seq::<(Seq<char>, Item)>::empty());
        }
        r
    }

    /// A row holding the given keys; of two keys with one name, the later one stays.
    pub fn new(name: String, keys: Vec<Key>) -> (r: Row)
        ensures
            r.wf(),
            r@.name == name@,
            r@.keys == last_wins(key_entries(keys@)),
    {
        let ghost all = keys@;
        let total = keys.len();
        let mut rest = keys;
        let mut row = Row::new_empty(name);
        let mut i: usize = 0;
        while rest.len() > 0
            invariant
                row.wf(),
                row@.name == name@,
                i <= all.len(),
                total == all.len(),
                rest@ == all.subrange(i as int, all.len() as int),
                row@.keys == last_wins(key_entries(all.take(i as int))),
            decreases rest@.len(),
        {
            let k = rest.remove(0);
            proof {
                assert(all[i as int] == k);
                assert(key_entries(all.take(i + 1)).drop_last() =~= key_entries(all.take(i as int)));
            }
            row.add_key(k);
            i = i + 1;
            proof {
                assert(rest@ =~= all.subrange(i as int, all.len() as int));
            }
        }
        proof {
            assert(all.take(i as int) =~= all);
        }
        row
    }

    /// The keys, in the order the row holds them.
    pub fn get_keys(&self) -> (r: &Vec<Key>)
        ensures
            r@ == self.keys@,
    {
        &self.keys
    }

    /// Adds a key; a key of the same name is replaced.
    pub fn add_key(&mut self, key: Key)
        requires
            old(self).wf(),
        ensures
            final(self).wf(),
            final(self)@.name == old(self)@.name,
            final(self)@.keys == old(self)@.keys.insert(key.name@, key.value@),
    {
        let _valid = key.value.is_valid();
        let ghost n = key.name@;
        let ghost v = key.value@;
        match self.find(&key.name) {
            Some(i) => {
                proof {
                    let e = key_entries(self.keys@);
                    assert(e[i as int].0 == n);
                    lemma_last_wins_remove(e, i as int);
                    assert(key_entries(self.keys@.remove(i as int)) =~= e.remove(i as int));
                    lemma_remove_keeps_wf(self.keys@, i as int);
                }
                self.keys.remove(i);
            },
            None => {
                proof {
                    lemma_last_wins_absent(key_entries(self.keys@), n);
                }
            },
        }
        let ghost before = self.keys@;
        proof {
            assert forall|j: int| 0 <= j < before.len() implies (#[trigger] before[j]).name@ != n by {
                if exists|j: int| 0 <= j < before.len() && (#[trigger] before[j]).name@ == n {
                    let j = choose|j: int| 0 <= j < before.len() && (#[trigger] before[j]).name@ == n;
                    assert(key_entries(before)[j].0 == n);
                    lemma_last_wins_contains(key_entries(before), n);
                }
            }
        }
        self.keys.push(key);
        proof {
            let e = key_entries(self.keys@);
            assert forall|a: int, b: int| 0 <= a < b < e.len() implies #[trigger] e[a].0 != #[trigger] e[b].0 by {
                if b < e.len() - 1 {
                    assert(key_entries(before)[a].0 != key_entries(before)[b].0);
                } else {
                    assert(before[a].name@ != n);
                }
            }
            assert forall|j: int| 0 <= j < self.keys@.len() implies valid(#[trigger] self.keys@[j].value@) by {
                if j < before.len() {
                    assert(self.keys@[j] == before[j]);
                }
            }
            assert(key_entries(self.keys@).drop_last() =~= key_entries(before));
            assert(last_wins(key_entries(before)).insert(n, v) =~= old(self)@.keys.insert(n, v));
        }
    }

    /// Adds a key made of `name` and `value`; a key of that name is replaced.
    pub fn insert_key(&mut self, name: String, value: Value)
        requires
            old(self).wf(),
        ensures
            final(self).wf(),
            final(self)@.name == old(self)@.name,
            final(self)@.keys == old(self)@.keys.insert(name@, value@),
    {
        self.add_key(Key::new(name, value));
    }

    /// Adds a key made of `key` and `value`; a key of that name is replaced.
    pub fn new_key(&mut self, key: &str, value: Value)
        requires
            old(self).wf(),
        ensures
            final(self).wf(),
            final(self)@.name == old(self)@.name,
            final(self)@.keys == old(self)@.keys.insert(key@, value@),
    {
        self.add_key(Key::new(key.to_owned(), value));
    }

    /// The key of the given name, if the row has one.
    pub fn get_key(&self, key: &str) -> (r: Option<&Key>)
        requires
            self.wf(),
        ensures
            r is Some <==> self@.keys.contains_key(key@),
            r matches Some(k) ==> k.name@ == key@ && k.value@ == self@.keys[key@],
    {
        let target = key.to_owned();
        match self.find(&target) {
            Some(i) => {
                proof {
                    lemma_last_wins_index(key_entries(self.keys@), i as int);
                }
                Some(&self.keys[i])
            },
            None => {
                proof {
                    lemma_last_wins_absent(key_entries(self.keys@), key@);
                }
                None
            },
        }
    }

    /// Removes the key of the given name and returns it, if the row has one.
    pub fn remove_key(&mut self, key: &str) -> (r: Option<Key>)
        requires
            old(self).wf(),
        ensures
            final(self).wf(),
            final(self)@.name == old(self)@.name,
            final(self)@.keys == old(self)@.keys.remove(key@),
            r is Some <==> old(self)@.keys.contains_key(key@),
            r matches Some(k) ==> k.name@ == key@ && k.value@ == old(self)@.keys[key@],
    {
        let target = key.to_owned();
        match self.find(&target) {
            Some(i) => {
                proof {
                    let e = key_entries(self.keys@);
                    lemma_last_wins_index(e, i as int);
                    lemma_last_wins_remove(e, i as int);
                    assert(key_entries(self.keys@.remove(i as int)) =~= e.remove(i as int));
                }
                proof {
                    lemma_remove_keeps_wf(self.keys@, i as int);
                }
                let k = self.keys.remove(i);
                Some(k)
            },
            None => {
                proof {
                    lemma_last_wins_absent(key_entries(self.keys@), key@);
                }
                None
            },
        }
    }
}

/// Removing a key keeps the names unique and the values valid.
proof fn lemma_remove_keeps_wf(keys: Seq<Key>, i: int)
    requires
        unique_names(key_entries(keys)),
        forall|j: int| 0 <= j < keys.len() ==> valid(#[trigger] keys[j].value@),
        0 <= i < keys.len(),
    ensures
        unique_names(key_entries(keys.remove(i))),
        forall|j: int| 0 <= j < keys.remove(i).len() ==> valid(#[trigger] keys.remove(i)[j].value@),
{
    let r = keys.remove(i);
    let e = key_entries(keys);
    assert forall|a: int, b: int| 0 <= a < b < r.len() implies #[trigger] key_entries(r)[a].0
        != #[trigger] key_entries(r)[b].0 by {
        let a2 = if a < i { a } else { a + 1 };
        let b2 = if b < i { b } else { b + 1 };
        assert(e[a2].0 != e[b2].0);
    }
    assert forall|j: int| 0 <= j < r.len() implies valid(#[trigger] r[j].value@) by {
        let j2 = if j < i { j } else { j + 1 };
        assert(r[j] == keys[j2]);
    }
}

impl Row {
    /// Encodes the row. A row or key name that is empty has no encoding and is refused.
    pub fn encode(&self) -> (r: Result<Vec<u8>, ErrorMessage>)
        ensures
            !self.names_nonempty() ==> fails(r, ErrorKind::EmptyCollection),
            self.names_nonempty() ==> (r matches Ok(b) && b@ == enc_row(
                encode_utf8(self.name@),
                key_records(self.keys@),
            )),
    {
        let name = match encode_name(self.name.as_str(), ROW_NAME) {
            Ok(n) => n,
            Err(e) => return Err(e),
        };
        let mut bytes: Vec<u8> = Vec::new();
        bytes.push(ROW_START);
        extend(&mut bytes, name.as_slice());
        let ghost head = bytes@;
        let ghost recs = key_records(self.keys@);
        proof {
            assert(bytes@ =~= head + enc_keys(recs.take(0)));
        }
        let mut i: usize = 0;
        while i < self.keys.len()
            invariant
                i <= self.keys@.len(),
                recs == key_records(self.keys@),
                head == seq![ROW_START] + enc_name(ROW_NAME, encode_utf8(self.name@)),
                bytes@ == head + enc_keys(recs.take(i as int)),
                forall|j: int| 0 <= j < i ==> (#[trigger] self.keys@[j]).name@.len() > 0,
            decreases self.keys@.len() - i,
        {
            let kb = match self.keys[i].encode() {
                Ok(b) => b,
                Err(e) => return Err(e),
            };
            proof {
                lemma_enc_keys_push(recs.take(i as int), recs[i as int]);
                assert(recs.take(i + 1) =~= recs.take(i as int).push(recs[i as int]));
            }
            extend(&mut bytes, kb.as_slice());
            i = i + 1;
        }
        bytes.push(ROW_END);
        proof {
            assert(recs.take(i as int) =~= recs);
            assert(bytes@ =~= enc_row(encode_utf8(self.name@), recs));
        }
        Ok(bytes)
    }

    /// Same as [`Row::encode`].
    pub fn serialize(&self) -> (r: Result<Vec<u8>, ErrorMessage>)
        ensures
            !self.names_nonempty() ==> fails(r, ErrorKind::EmptyCollection),
            self.names_nonempty() ==> (r matches Ok(b) && b@ == enc_row(
                encode_utf8(self.name@),
                key_records(self.keys@),
            )),
    {
        self.encode()
    }

    /// Decodes the row at the front of `s[pos..]`, returning it with the number
    /// of bytes it took. Keys are found by decoding them one after another, so
    /// marker bytes inside names or values cannot cut a key short.
    pub fn decode_at(s: &[u8], pos: usize) -> (r: Result<(Row, usize), ErrorMessage>)
        requires
            pos <= s@.len(),
        ensures
            match parse_row(s@.subrange(pos as int, s@.len() as int)) {
                Ok(((n, recs), c)) => r matches Ok((row, used)) && row.wf() && row@ == row_model(
                    n,
                    recs,
                ) && used == c,
                Err(k) => r matches Err(e) && e.kind == k,
            },
    {
        reveal(parse_row);
        let len = s.len();
        let ghost ss = s@.subrange(pos as int, len as int);
        if pos >= len {
            return Err(ErrorMessage::new(ErrorKind::TruncatedInput));
        }
        if s[pos] != ROW_START {
            return Err(ErrorMessage::new(ErrorKind::MalformedBoundary));
        }
        proof {
            assert(ss.subrange(1, ss.len() as int) =~= s@.subrange(pos + 1, len as int));
        }
        let (name, a) = match decode_name(s, pos + 1, ROW_NAME) {
            Ok(p) => p,
            Err(e) => return Err(e),
        };
        let ghost nb = parse_name(ROW_NAME, ss.subrange(1, ss.len() as int))->Ok_0.0;
        let start = pos + 1 + a;
        proof {
            assert(ss.subrange(1 + a, ss.len() as int) =~= s@.subrange(start as int, len as int));
        }
        let mut row = Row::new_empty(name);
        let mut p: usize = start;
        let ghost whole = parse_keys(s@.subrange(start as int, len as int));
        let ghost mut done: Seq<(Seq<u8>, Item)> = Seq::empty();
        proof {
            assert(decoded_entries(done) =~= Seq::<(Seq<char>, Item)>::empty());
            if let Ok((more, m)) = whole {
                assert(done + more =~= more);
            }
        }
        while p < len && s[p] != ROW_END
            invariant
                len == s@.len(),
                pos < start <= p <= len,
                ss == s@.subrange(pos as int, len as int),
                ss[0] == ROW_START,
                parse_name(ROW_NAME, ss.subrange(1, ss.len() as int)) == Ok::<(Seq<u8>, nat), ErrorKind>((nb, (start - pos - 1) as nat)),
                ss.subrange(start - pos, ss.len() as int) == s@.subrange(start as int, len as int),
                whole == parse_keys(s@.subrange(start as int, len as int)),
                whole == glue(done, (p - start) as nat, parse_keys(s@.subrange(p as int, len as int))),
                row.wf(),
                row@.name == decode_utf8(nb),
                row@.keys == last_wins(decoded_entries(done)),
            decreases len - p,
        {
            let ghost rest = s@.subrange(p as int, len as int);
            proof {
                assert(rest[0] != ROW_END);
            }
            match Key::decode_at(s, p) {
                Err(e) => {
                    proof {
                        reveal(parse_row);
                        lemma_keys_step(s@, p as int, done, (p - start) as nat, whole);
                    }
                    return Err(e);
                },
                Ok((k, used)) => {
                    let ghost rec = parse_key(rest)->Ok_0.0;
                    proof {
                        lemma_keys_step(s@, p as int, done, (p - start) as nat, whole);
                        assert(decoded_entries(done.push(rec)).drop_last() =~= decoded_entries(done));
                    }
                    row.add_key(k);
                    p = p + used;
                    proof {
                        done = done.push(rec);
                    }
                },
            }
        }
        if p >= len {
            proof {
                assert(s@.subrange(p as int, len as int).len() == 0);
            }
            return Err(ErrorMessage::new(ErrorKind::TruncatedInput));
        }
        proof {
            let rest = s@.subrange(p as int, len as int);
            assert(rest[0] == ROW_END);
            assert(done + Seq::<(Seq<u8>, Item)>::empty() =~= done);
        }
        Ok((row, p + 1 - pos))
    }

    /// Decodes a chunk that holds exactly one row, from its start marker to its end marker.
    pub fn decode(vec: Vec<u8>) -> (r: Result<Row, ErrorMessage>)
        ensures
            match parse_row_chunk(vec@) {
                Ok((n, recs)) => r matches Ok(row) && row.wf() && row@ == row_model(n, recs),
                Err(k) => r matches Err(e) && e.kind == k,
            },
    {
        let len = vec.len();
        if len < 2 || vec[0] != ROW_START || vec[len - 1] != ROW_END {
            return Err(ErrorMessage::new(ErrorKind::MalformedBoundary));
        }
        proof {
            assert(vec@.subrange(0, len as int) =~= vec@);
        }
        match Row::decode_at(vec.as_slice(), 0) {
            Err(e) => Err(e),
            Ok((row, n)) => if n == len {
                Ok(row)
            } else {
                Err(ErrorMessage::new(ErrorKind::MalformedBoundary))
            },
        }
    }

    /// Same as [`Row::decode`].
    pub fn deserialize(bytes: Vec<u8>) -> (r: Result<Row, ErrorMessage>)
        ensures
            match parse_row_chunk(bytes@) {
                Ok((n, recs)) => r matches Ok(row) && row.wf() && row@ == row_model(n, recs),
                Err(k) => r matches Err(e) && e.kind == k,
            },
    {
        Row::decode(bytes)
    }
}

/// One step of decoding keys: the key at `p` joins those already decoded.
proof fn lemma_keys_step(
    s: Seq<u8>,
    p: int,
    done: Seq<(Seq<u8>, Item)>,
    c: nat,
    whole: Result<(Seq<(Seq<u8>, Item)>, nat), ErrorKind>,
)
    requires
        0 <= p < s.len(),
        s[p] != ROW_END,
        whole == glue(done, c, parse_keys(s.subrange(p, s.len() as int))),
    ensures
        parse_key(s.subrange(p, s.len() as int)) matches Ok((rec, used)) ==> {
            &&& 0 < used
            &&& p + used <= s.len()
            &&& whole == glue(done.push(rec), c + used, parse_keys(s.subrange(p + used, s.len() as int)))
        },
        parse_key(s.subrange(p, s.len() as int)) matches Err(k) ==> whole == Err::<(Seq<(Seq<u8>, Item)>, nat), ErrorKind>(k),
{
    reveal(parse_key);
    let rest = s.subrange(p, s.len() as int);
    assert(rest[0] == s[p]);
    if let Ok((rec, used)) = parse_key(rest) {
        assert(rest.subrange(used as int, rest.len() as int) =~= s.subrange(p + used, s.len() as int));
        match parse_keys(s.subrange(p + used, s.len() as int)) {
            Ok((more, m)) => {
                assert(done + (seq![rec] + more) =~= done.push(rec) + more);
            },
            Err(_) => {},
        }
    }
}

/// Encoding one more key appends its encoding.
pub proof fn lemma_enc_keys_push(recs: Seq<(Seq<u8>, Item)>, x: (Seq<u8>, Item))
    ensures
        enc_keys(recs.push(x)) == enc_keys(recs) + enc_key(x.0, x.1),
    decreases recs.len(),
{
    if recs.len() == 0 {
        assert(recs.push(x).drop_first() =~= Seq::<(Seq<u8>, Item)>::empty());
        assert(recs.push(x)[0] == x);
        assert(enc_keys(Seq::<(Seq<u8>, Item)>::empty()) == Seq::<u8>::empty());
        assert(enc_keys(recs.push(x)) =~= enc_key(x.0, x.1));
    } else {
        assert(recs.push(x).drop_first() =~= recs.drop_first().push(x));
        lemma_enc_keys_push(recs.drop_first(), x);
        assert(enc_keys(recs.push(x)) =~= enc_keys(recs) + enc_key(x.0, x.1));
    }
}

/// Whether key records can be encoded and decode back: names are non-empty
/// UTF-8 that fits a length field, and values are valid.
pub open spec fn records_ok(recs: Seq<(Seq<u8>, Item)>) -> bool {
    forall|i: int| 0 <= i < recs.len() ==> {
        &&& 0 < (#[trigger] recs[i]).0.len() <= usize::MAX
        &&& valid_utf8(recs[i].0)
        &&& valid(recs[i].1)
    }
}

/// Encoded keys, followed by the row's end marker, decode to themselves in order.
pub proof fn lemma_parse_keys(recs: Seq<(Seq<u8>, Item)>, t: Seq<u8>)
    requires
        records_ok(recs),
    ensures
        parse_keys(enc_keys(recs) + seq![ROW_END] + t) == Ok::<(Seq<(Seq<u8>, Item)>, nat), ErrorKind>(
            (recs, enc_keys(recs).len() + 1),
        ),
    decreases recs.len(),
{
    let s = enc_keys(recs) + seq![ROW_END] + t;
    if recs.len() == 0 {
        assert(recs =~= Seq::<(Seq<u8>, Item)>::empty());
        assert(s[0] == ROW_END);
    } else {
        let rest = recs.drop_first();
        let x = recs[0];
        let tail = enc_keys(rest) + seq![ROW_END] + t;
        assert(s =~= enc_key(x.0, x.1) + tail);
        lemma_parse_key(x.0, x.1, tail);
        assert(s[0] == KEY_START);
        let n = enc_key(x.0, x.1).len();
        assert(s.subrange(n as int, s.len() as int) =~= tail);
        assert(records_ok(rest)) by {
            assert forall|i: int| 0 <= i < rest.len() implies 0 < (#[trigger] rest[i]).0.len() <= usize::MAX
                && valid_utf8(rest[i].0) && valid(rest[i].1) by {
                assert(rest[i] == recs[i + 1]);
            }
        }
        lemma_parse_keys(rest, t);
        assert(seq![x] + rest =~= recs);
    }
}

/// An encoded row decodes to its name and key records, whatever bytes follow it.
pub proof fn lemma_parse_row(name: Seq<u8>, recs: Seq<(Seq<u8>, Item)>, t: Seq<u8>)
    requires
        0 < name.len() <= usize::MAX,
        valid_utf8(name),
        records_ok(recs),
    ensures
        parse_row(enc_row(name, recs) + t) == Ok::<((Seq<u8>, Seq<(Seq<u8>, Item)>), nat), ErrorKind>(
            ((name, recs), enc_row(name, recs).len()),
        ),
{
    reveal(parse_row);
    let s = enc_row(name, recs) + t;
    let tail = enc_keys(recs) + seq![ROW_END] + t;
    assert(s.subrange(1, s.len() as int) =~= enc_name(ROW_NAME, name) + tail);
    lemma_parse_name(ROW_NAME, name, tail);
    let a = enc_name(ROW_NAME, name).len();
    assert(s.subrange(1 + a as int, s.len() as int) =~= tail);
    lemma_parse_keys(recs, t);
}

/// A decoded row starts at the front and ends within the input.
pub proof fn lemma_parse_row_bounds(s: Seq<u8>)
    ensures
        parse_row(s) matches Ok((_, n)) ==> 0 < n <= s.len(),
{
    reveal(parse_row);
    if let Ok((_, n)) = parse_row(s) {
        let t = s.subrange(1, s.len() as int);
        let a = parse_name(ROW_NAME, t)->Ok_0.1;
        lemma_parse_keys_bounds(s.subrange(1 + a as int, s.len() as int));
    }
}

/// Decoded keys end within the input.
pub proof fn lemma_parse_keys_bounds(s: Seq<u8>)
    ensures
        parse_keys(s) matches Ok((_, n)) ==> 0 < n <= s.len(),
    decreases s.len(),
{
    if s.len() > 0 && s[0] != ROW_END {
        if let Ok((rec, n)) = parse_key(s) {
            if 0 < n <= s.len() {
                lemma_parse_keys_bounds(s.subrange(n as int, s.len() as int));
            }
        }
    }
}

/// A row that can be encoded has key records that decode back, and they stand
/// for the row itself.
pub proof fn lemma_row_records(r: Row)
    requires
        r.wf(),
        r.names_nonempty(),
        r.names_fit(),
    ensures
        records_ok(key_records(r.keys@)),
        0 < encode_utf8(r.name@).len() <= usize::MAX,
        valid_utf8(encode_utf8(r.name@)),
        row_model(encode_utf8(r.name@), key_records(r.keys@)) == r@,
{
    let recs = key_records(r.keys@);
    assert forall|i: int| 0 <= i < recs.len() implies {
        &&& 0 < (#[trigger] recs[i]).0.len() <= usize::MAX
        &&& valid_utf8(recs[i].0)
        &&& valid(recs[i].1)
    } by {
        lemma_utf8_empty(r.keys@[i].name@);
        encode_utf8_valid_utf8(r.keys@[i].name@);
    }
    lemma_utf8_empty(r.name@);
    encode_utf8_valid_utf8(r.name@);
    encode_utf8_decode_utf8(r.name@);
    assert forall|i: int| 0 <= i < recs.len() implies #[trigger] decoded_entries(recs)[i] == key_entries(r.keys@)[i] by {
        encode_utf8_decode_utf8(r.keys@[i].name@);
    }
    assert(decoded_entries(recs) =~= key_entries(r.keys@));
}

/// Round trip of rows: the chunk that a row encodes to decodes to the same
/// name and the same keys, compared as a map, whatever bytes its names and
/// values hold.
pub proof fn lemma_row_round_trip(r: Row)
    requires
        r.wf(),
        r.names_nonempty(),
        r.names_fit(),
    ensures
        parse_row_chunk(enc_row(encode_utf8(r.name@), key_records(r.keys@))) == Ok::<
            (Seq<u8>, Seq<(Seq<u8>, Item)>),
            ErrorKind,
        >((encode_utf8(r.name@), key_records(r.keys@))),
        row_model(encode_utf8(r.name@), key_records(r.keys@)) == r@,
{
    let name = encode_utf8(r.name@);
    let recs = key_records(r.keys@);
    lemma_row_records(r);
    let s = enc_row(name, recs);
    lemma_parse_row(name, recs, Seq::empty());
    assert(s + Seq::<u8>::empty() =~= s);
    assert(s[0] == ROW_START);
    assert(s.last() == ROW_END);
}

} // verus!
