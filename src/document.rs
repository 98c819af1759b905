use vstd::prelude::*;
use vstd::utf8::{decode_utf8, encode_utf8, encode_utf8_decode_utf8, valid_utf8};
use crate::bytes::extend;
use crate::error::{ErrorKind, ErrorMessage, fails};
use crate::grammar::Item;
use crate::key::Key;
use crate::row::{Row, RowView, enc_row, key_entries, key_records, lemma_parse_row, lemma_row_records, parse_row, records_ok, row_model};
use crate::table::{last_wins, lemma_last_wins_absent, lemma_last_wins_contains, lemma_last_wins_index, lemma_last_wins_remove, unique_names};
use crate::value::glue;

verus! {

/// The first byte of a document: the version marker.
pub const VERSION_HEADER: u8 = 0xF0;

/// The version stamp of a document; `beta == 0` marks a stable release.
/// Versions order by major, then minor, then patch, then beta.
#[derive(Clone, Copy, Debug, PartialEq, Eq, Structural, PartialOrd, Ord, Hash)]
pub struct Version {
    pub major: u8,
    pub minor: u8,
    pub patch: u8,
    pub beta: u8,
}

/// The five bytes of a version stamp.
pub open spec fn version_bytes(v: Version) -> Seq<u8> {
    seq![VERSION_HEADER, v.major, v.minor, v.patch, v.beta]
}

/// Decodes the version stamp at the front of `s`.
pub open spec fn version_of(s: Seq<u8>) -> Result<Version, ErrorKind> {
    if s.len() < 5 || s[0] != VERSION_HEADER {
        Err(ErrorKind::MalformedVersion)
    } else {
        Ok(Version { major: s[1], minor: s[2], patch: s[3], beta: s[4] })
    }
}

impl Version {
    pub fn new(major: u8, minor: u8, patch: u8, beta: u8) -> (r: Version)
        ensures
            r == (Version { major, minor, patch, beta }),
    {
        Version { major, minor, patch, beta }
    }

    /// Decodes the version stamp at the front of `vec`; bytes after it are ignored.
    pub fn decode(vec: &[u8]) -> (r: Result<Version, ErrorMessage>)
        ensures
            match version_of(vec@) {
                Ok(v) => r == Ok::<Version, ErrorMessage>(v),
                Err(k) => fails(r, k),
            },
    {
        if vec.len() < 5 || vec[0] != VERSION_HEADER {
            return Err(ErrorMessage::new(ErrorKind::MalformedVersion));
        }
        Ok(Version { major: vec[1], minor: vec[2], patch: vec[3], beta: vec[4] })
    }

    /// Same as [`Version::decode`], on an owned buffer.
    pub fn deserialize(bytes: Vec<u8>) -> (r: Result<Version, ErrorMessage>)
        ensures
            match version_of(bytes@) {
                Ok(v) => r == Ok::<Version, ErrorMessage>(v),
                Err(k) => fails(r, k),
            },
    {
        Version::decode(bytes.as_slice())
    }

    /// The five bytes of this version stamp.
    pub fn serialize(&self) -> (r: [u8; 5])
        ensures
            r@ == version_bytes(*self),
    {
        let r = [VERSION_HEADER, self.major, self.minor, self.patch, self.beta];
        proof {
            assert(r@ =~= version_bytes(*self));
        }
        r
    }
}

/// The version that new documents carry: 1.0.0, stable.
pub fn current_version() -> (r: Version)
    ensures
        r == (Version { major: 1, minor: 0, patch: 0, beta: 0 }),
{
    Version { major: 1, minor: 0, patch: 0, beta: 0 }
}

/// What a document means: its version and the map from row names to rows.
pub ghost struct DocView {
    pub version: Version,
    pub rows: Map<Seq<char>, RowView>,
}

/// The named rows of a sequence of rows.
pub open spec fn row_entries(rows: Seq<Row>) -> Seq<(Seq<char>, RowView)> {
    rows.map_values(|r: Row| (r.name@, r@))
}

/// The encoded names and key records of a sequence of rows.
pub open spec fn row_records(rows: Seq<Row>) -> Seq<(Seq<u8>, Seq<(Seq<u8>, Item)>)> {
    rows.map_values(|r: Row| (encode_utf8(r.name@), key_records(r.keys@)))
}

/// The encodings of row records, concatenated in order.
pub open spec fn enc_rows(recs: Seq<(Seq<u8>, Seq<(Seq<u8>, Item)>)>) -> Seq<u8>
    decreases recs.len(),
{
    if recs.len() == 0 {
        Seq::empty()
    } else {
        enc_row(recs[0].0, recs[0].1) + enc_rows(recs.drop_first())
    }
}

/// The encoding of a document: its version stamp, then its rows.
pub open spec fn enc_document(v: Version, recs: Seq<(Seq<u8>, Seq<(Seq<u8>, Item)>)>) -> Seq<u8> {
    version_bytes(v) + enc_rows(recs)
}

/// Decodes rows, one after another, up to the end of `s`.
pub open spec fn parse_rows(s: Seq<u8>) -> Result<(Seq<(Seq<u8>, Seq<(Seq<u8>, Item)>)>, nat), ErrorKind>
    decreases s.len(),
{
    if s.len() == 0 {
        Ok((Seq::empty(), 0))
    } else {
        match parse_row(s) {
            Err(k) => Err(k),
            Ok((rec, n)) => if 0 < n <= s.len() {
                match parse_rows(s.subrange(n as int, s.len() as int)) {
                    Err(k) => Err(k),
                    Ok((more, m)) => Ok((seq![rec] + more, n + m)),
                }
            } else {
                Err(ErrorKind::TruncatedInput)
            },
        }
    }
}

/// Decodes a whole document: its version stamp and its row records.
pub open spec fn parse_document(s: Seq<u8>) -> Result<(Version, Seq<(Seq<u8>, Seq<(Seq<u8>, Item)>)>), ErrorKind> {
    match version_of(s) {
        Err(k) => Err(k),
        Ok(v) => match parse_rows(s.subrange(5, s.len() as int)) {
            Err(k) => Err(k),
            Ok((recs, _)) => Ok((v, recs)),
        },
    }
}

/// The document that a version and decoded row records stand for; of two rows
/// with one name, the later one stays.
pub open spec fn document_model(v: Version, recs: Seq<(Seq<u8>, Seq<(Seq<u8>, Item)>)>) -> DocView {
    DocView {
        version: v,
        rows: last_wins(recs.map_values(|r: (Seq<u8>, Seq<(Seq<u8>, Item)>)| (decode_utf8(r.0), row_model(r.0, r.1)))),
    }
}

/// A document: a version stamp and a set of uniquely named rows.
#[derive(Debug, PartialEq, Eq)]
pub struct YAD {
    pub version: Version,
    pub rows: Vec<Row>,
}

impl View for YAD {
    type V = DocView;

    open spec fn view(&self) -> DocView {
        DocView { version: self.version, rows: last_wins(row_entries(self.rows@)) }
    }
}

impl YAD {
    /// Row names are unique and every row is well formed.
    pub open spec fn wf(&self) -> bool {
        &&& unique_names(row_entries(self.rows@))
        &&& forall|i: int| 0 <= i < self.rows@.len() ==> (#[trigger] self.rows@[i]).wf()
    }

    /// Whether every row and key name is non-empty, so that the document can be encoded.
    pub open spec fn names_nonempty(&self) -> bool {
        forall|i: int| 0 <= i < self.rows@.len() ==> (#[trigger] self.rows@[i]).names_nonempty()
    }

    /// Whether the UTF-8 encoding of every row and key name fits a length field.
    pub open spec fn names_fit(&self) -> bool {
        forall|i: int| 0 <= i < self.rows@.len() ==> (#[trigger] self.rows@[i]).names_fit()
    }

    fn find(&self, name: &String) -> (r: Option<usize>)
        ensures
            r matches Some(i) ==> i < self.rows@.len() && self.rows@[i as int].name@ == name@,
            r is None ==> forall|i: int| 0 <= i < self.rows@.len() ==> (#[trigger] self.rows@[i]).name@ != name@,
    {
        let mut i: usize = 0;
        while i < self.rows.len()
            invariant
                i <= self.rows@.len(),
                forall|j: int| 0 <= j < i ==> (#[trigger] self.rows@[j]).name@ != name@,
            decreases self.rows@.len() - i,
        {
            if self.rows[i].name == *name {
                return Some(i);
            }
            i = i + 1;
        }
        None
    }

    /// An empty document of the current version.
    pub fn new() -> (r: YAD)
        ensures
            r.wf(),
            r@.version == (Version { major: 1, minor: 0, patch: 0, beta: 0 }),
            r@.rows == Map::<Seq<char>, RowView>::empty(),
    {
        YAD::new_empty(current_version())
    }

    /// An empty document of the given version.
    pub fn new_empty(version: Version) -> (r: YAD)
        ensures
            r.wf(),
            r@.version == version,
            r@.rows == Map::<Seq<char>, RowView>::empty(),
    {
        let r = YAD { version, rows: Vec::new() };
        proof {
            assert(row_entries(r.rows@) =~= Seq::<(Seq<char>, RowView)>::empty());
        }
        r
    }

    /// The rows, in the order the document holds them.
    pub fn get_rows(&self) -> (r: &Vec<Row>)
        ensures
            r@ == self.rows@,
    {
        &self.rows
    }

    /// Adds a row; a row of the same name is replaced.
    pub fn add_row(&mut self, row: Row)
        requires
            old(self).wf(),
            row.wf(),
        ensures
            final(self).wf(),
            final(self)@.version == old(self)@.version,
            final(self)@.rows == old(self)@.rows.insert(row.name@, row@),
    {
        let ghost n = row.name@;
        let ghost v = row@;
        match self.find(&row.name) {
            Some(i) => {
                proof {
                    let e = row_entries(self.rows@);
                    assert(e[i as int].0 == n);
                    lemma_last_wins_remove(e, i as int);
                    assert(row_entries(self.rows@.remove(i as int)) =~= e.remove(i as int));
                    lemma_remove_keeps_wf(self.rows@, i as int);
                }
                self.rows.remove(i);
            },
            None => {
                proof {
                    lemma_last_wins_absent(row_entries(self.rows@), n);
                }
            },
        }
        let ghost before = self.rows@;
        proof {
            assert forall|j: int| 0 <= j < before.len() implies (#[trigger] before[j]).name@ != n by {
                if exists|j: int| 0 <= j < before.len() && (#[trigger] before[j]).name@ == n {
                    let j = choose|j: int| 0 <= j < before.len() && (#[trigger] before[j]).name@ == n;
                    assert(row_entries(before)[j].0 == n);
                    lemma_last_wins_contains(row_entries(before), n);
                }
            }
        }
        self.rows.push(row);
        proof {
            let e = row_entries(self.rows@);
            assert forall|a: int, b: int| 0 <= a < b < e.len() implies #[trigger] e[a].0 != #[trigger] e[b].0 by {
                if b < e.len() - 1 {
                    assert(row_entries(before)[a].0 != row_entries(before)[b].0);
                } else {
                    assert(before[a].name@ != n);
                }
            }
            assert forall|j: int| 0 <= j < self.rows@.len() implies (#[trigger] self.rows@[j]).wf() by {
                if j < before.len() {
                    assert(self.rows@[j] == before[j]);
                }
            }
            assert(row_entries(self.rows@).drop_last() =~= row_entries(before));
            assert(last_wins(row_entries(before)).insert(n, v) =~= old(self)@.rows.insert(n, v));
        }
    }

    /// Adds a row made of `name` and `keys`; a row of that name is replaced.
    pub fn insert_row(&mut self, name: String, keys: Vec<Key>)
        requires
            old(self).wf(),
        ensures
            final(self).wf(),
            final(self)@.version == old(self)@.version,
            final(self)@.rows == old(self)@.rows.insert(
                name@,
                RowView { name: name@, keys: last_wins(key_entries(keys@)) },
            ),
    {
        let row = Row::new(name, keys);
        self.add_row(row);
    }

    /// The row of the given name, if the document has one.
    pub fn get_row(&self, key: &str) -> (r: Option<&Row>)
        requires
            self.wf(),
        ensures
            r is Some <==> self@.rows.contains_key(key@),
            r matches Some(row) ==> row.wf() && row.name@ == key@ && row@ == self@.rows[key@],
    {
        let target = key.to_owned();
        match self.find(&target) {
            Some(i) => {
                proof {
                    lemma_last_wins_index(row_entries(self.rows@), i as int);
                }
                Some(&self.rows[i])
            },
            None => {
                proof {
                    lemma_last_wins_absent(row_entries(self.rows@), key@);
                }
                None
            },
        }
    }

    /// Removes the row of the given name and returns it, if the document has one.
    pub fn remove_row(&mut self, key: &str) -> (r: Option<Row>)
        requires
            old(self).wf(),
        ensures
            final(self).wf(),
            final(self)@.version == old(self)@.version,
            final(self)@.rows == old(self)@.rows.remove(key@),
            r is Some <==> old(self)@.rows.contains_key(key@),
            r matches Some(row) ==> row.name@ == key@ && row@ == old(self)@.rows[key@],
    {
        let target = key.to_owned();
        match self.find(&target) {
            Some(i) => {
                proof {
                    let e = row_entries(self.rows@);
                    lemma_last_wins_index(e, i as int);
                    lemma_last_wins_remove(e, i as int);
                    assert(row_entries(self.rows@.remove(i as int)) =~= e.remove(i as int));
                    lemma_remove_keeps_wf(self.rows@, i as int);
                }
                let row = self.rows.remove(i);
                Some(row)
            },
            None => {
                proof {
                    lemma_last_wins_absent(row_entries(self.rows@), key@);
                }
                None
            },
        }
    }
}

/// Removing a row keeps the names unique and the rows well formed.
proof fn lemma_remove_keeps_wf(rows: Seq<Row>, i: int)
    requires
        unique_names(row_entries(rows)),
        forall|j: int| 0 <= j < rows.len() ==> (#[trigger] rows[j]).wf(),
        0 <= i < rows.len(),
    ensures
        unique_names(row_entries(rows.remove(i))),
        forall|j: int| 0 <= j < rows.remove(i).len() ==> (#[trigger] rows.remove(i)[j]).wf(),
{
    let r = rows.remove(i);
    let e = row_entries(rows);
    assert forall|a: int, b: int| 0 <= a < b < r.len() implies #[trigger] row_entries(r)[a].0
        != #[trigger] row_entries(r)[b].0 by {
        let a2 = if a < i { a } else { a + 1 };
        let b2 = if b < i { b } else { b + 1 };
        assert(e[a2].0 != e[b2].0);
    }
    assert forall|j: int| 0 <= j < r.len() implies (#[trigger] r[j]).wf() by {
        let j2 = if j < i { j } else { j + 1 };
        assert(r[j] == rows[j2]);
    }
}

impl YAD {
    /// Encodes the document: its version stamp, then each row. A row or key
    /// name that is empty has no encoding and is refused.
    pub fn serialize(&self) -> (r: Result<Vec<u8>, ErrorMessage>)
        ensures
            !self.names_nonempty() ==> fails(r, ErrorKind::EmptyCollection),
            self.names_nonempty() ==> (r matches Ok(b) && b@ == enc_document(
                self.version,
                row_records(self.rows@),
            )),
    {
        let mut bytes: Vec<u8> = Vec::new();
        bytes.push(VERSION_HEADER);
        bytes.push(self.version.major);
        bytes.push(self.version.minor);
        bytes.push(self.version.patch);
        bytes.push(self.version.beta);
        let ghost recs = row_records(self.rows@);
        proof {
            assert(bytes@ =~= version_bytes(self.version) + enc_rows(recs.take(0)));
        }
        let mut i: usize = 0;
        while i < self.rows.len()
            invariant
                i <= self.rows@.len(),
                recs == row_records(self.rows@),
                bytes@ == version_bytes(self.version) + enc_rows(recs.take(i as int)),
                forall|j: int| 0 <= j < i ==> (#[trigger] self.rows@[j]).names_nonempty(),
            decreases self.rows@.len() - i,
        {
            let rb = match self.rows[i].encode() {
                Ok(b) => b,
                Err(e) => return Err(e),
            };
            proof {
                lemma_enc_rows_push(recs.take(i as int), recs[i as int]);
                assert(recs.take(i + 1) =~= recs.take(i as int).push(recs[i as int]));
            }
            extend(&mut bytes, rb.as_slice());
            i = i + 1;
        }
        proof {
            assert(recs.take(i as int) =~= recs);
        }
        Ok(bytes)
    }

    /// Decodes a document: a version stamp, then rows up to the end of `vec`.
    /// Of two rows with one name the later one stays, as of two keys in a row.
    pub fn deserialize(vec: Vec<u8>) -> (r: Result<YAD, ErrorMessage>)
        ensures
            match parse_document(vec@) {
                Ok((v, recs)) => r matches Ok(d) && d.wf() && d@ == document_model(v, recs),
                Err(k) => fails(r, k),
            },
    {
        let len = vec.len();
        if len < 5 || vec[0] != VERSION_HEADER {
            return Err(ErrorMessage::new(ErrorKind::MalformedVersion));
        }
        let version = Version { major: vec[1], minor: vec[2], patch: vec[3], beta: vec[4] };
        let s = vec.as_slice();
        let mut doc = YAD::new_empty(version);
        let mut p: usize = 5;
        let ghost whole = parse_rows(s@.subrange(5, len as int));
        let ghost mut done: Seq<(Seq<u8>, Seq<(Seq<u8>, Item)>)> = Seq::empty();
        proof {
            assert(named_rows(done) =~= Seq::<(Seq<char>, RowView)>::empty());
            if let Ok((more, m)) = whole {
                assert(done + more =~= more);
            }
        }
        while p < len
            invariant
                len == s@.len(),
                s@ == vec@,
                5 <= p <= len,
                version_of(vec@) == Ok::<Version, ErrorKind>(version),
                whole == parse_rows(s@.subrange(5, len as int)),
                whole == glue(done, (p - 5) as nat, parse_rows(s@.subrange(p as int, len as int))),
                doc.wf(),
                doc@.version == version,
                doc@.rows == last_wins(named_rows(done)),
            decreases len - p,
        {
            match Row::decode_at(s, p) {
                Err(e) => {
                    proof {
                        lemma_rows_step(s@, p as int, done, (p - 5) as nat, whole);
                    }
                    return Err(e);
                },
                Ok((row, used)) => {
                    let ghost rec = parse_row(s@.subrange(p as int, len as int))->Ok_0.0;
                    proof {
                        lemma_rows_step(s@, p as int, done, (p - 5) as nat, whole);
                        assert(named_rows(done.push(rec)).drop_last() =~= named_rows(done));
                    }
                    doc.add_row(row);
                    p = p + used;
                    proof {
                        done = done.push(rec);
                    }
                },
            }
        }
        proof {
            assert(s@.subrange(p as int, len as int).len() == 0);
            assert(done + Seq::<(Seq<u8>, Seq<(Seq<u8>, Item)>)>::empty() =~= done);
        }
        Ok(doc)
    }
}

/// Encodes a document; see [`YAD::serialize`].
pub fn serialize(yad: &YAD) -> (r: Result<Vec<u8>, ErrorMessage>)
    ensures
        !yad.names_nonempty() ==> fails(r, ErrorKind::EmptyCollection),
        yad.names_nonempty() ==> (r matches Ok(b) && b@ == enc_document(
            yad.version,
            row_records(yad.rows@),
        )),
{
    yad.serialize()
}

/// Decodes a document; see [`YAD::deserialize`].
pub fn deserialize(vec: Vec<u8>) -> (r: Result<YAD, ErrorMessage>)
    ensures
        match parse_document(vec@) {
            Ok((v, recs)) => r matches Ok(d) && d.wf() && d@ == document_model(v, recs),
            Err(k) => fails(r, k),
        },
{
    YAD::deserialize(vec)
}

/// The named rows that decoded row records stand for.
pub open spec fn named_rows(recs: Seq<(Seq<u8>, Seq<(Seq<u8>, Item)>)>) -> Seq<(Seq<char>, RowView)> {
    recs.map_values(|r: (Seq<u8>, Seq<(Seq<u8>, Item)>)| (decode_utf8(r.0), row_model(r.0, r.1)))
}

/// One step of decoding rows: the row at `p` joins those already decoded.
proof fn lemma_rows_step(
    s: Seq<u8>,
    p: int,
    done: Seq<(Seq<u8>, Seq<(Seq<u8>, Item)>)>,
    c: nat,
    whole: Result<(Seq<(Seq<u8>, Seq<(Seq<u8>, Item)>)>, nat), ErrorKind>,
)
    requires
        0 <= p < s.len(),
        whole == glue(done, c, parse_rows(s.subrange(p, s.len() as int))),
    ensures
        parse_row(s.subrange(p, s.len() as int)) matches Ok((rec, used)) ==> {
            &&& 0 < used
            &&& p + used <= s.len()
            &&& whole == glue(done.push(rec), c + used, parse_rows(s.subrange(p + used, s.len() as int)))
        },
        parse_row(s.subrange(p, s.len() as int)) matches Err(k) ==> whole == Err::<(Seq<(Seq<u8>, Seq<(Seq<u8>, Item)>)>, nat), ErrorKind>(k),
{
    let rest = s.subrange(p, s.len() as int);
    if let Ok((rec, used)) = parse_row(rest) {
        crate::row::lemma_parse_row_bounds(rest);
        assert(rest.subrange(used as int, rest.len() as int) =~= s.subrange(p + used, s.len() as int));
        match parse_rows(s.subrange(p + used, s.len() as int)) {
            Ok((more, m)) => {
                assert(done + (seq![rec] + more) =~= done.push(rec) + more);
            },
            Err(_) => {},
        }
    }
}

/// Encoding one more row appends its encoding.
pub proof fn lemma_enc_rows_push(
    recs: Seq<(Seq<u8>, Seq<(Seq<u8>, Item)>)>,
    x: (Seq<u8>, Seq<(Seq<u8>, Item)>),
)
    ensures
        enc_rows(recs.push(x)) == enc_rows(recs) + enc_row(x.0, x.1),
    decreases recs.len(),
{
    if recs.len() == 0 {
        assert(recs.push(x).drop_first() =~= Seq::<(Seq<u8>, Seq<(Seq<u8>, Item)>)>::empty());
        assert(recs.push(x)[0] == x);
        assert(enc_rows(Seq::<(Seq<u8>, Seq<(Seq<u8>, Item)>)>::empty()) == Seq::<u8>::empty());
        assert(enc_rows(recs.push(x)) =~= enc_row(x.0, x.1));
    } else {
        assert(recs.push(x).drop_first() =~= recs.drop_first().push(x));
        lemma_enc_rows_push(recs.drop_first(), x);
        assert(enc_rows(recs.push(x)) =~= enc_rows(recs) + enc_row(x.0, x.1));
    }
}

/// Whether a row record can be encoded and decodes back.
pub open spec fn row_record_ok(r: (Seq<u8>, Seq<(Seq<u8>, Item)>)) -> bool {
    &&& 0 < r.0.len() <= usize::MAX
    &&& valid_utf8(r.0)
    &&& records_ok(r.1)
}

/// Encoded rows decode to themselves, in order.
pub proof fn lemma_parse_rows(recs: Seq<(Seq<u8>, Seq<(Seq<u8>, Item)>)>)
    requires
        forall|i: int| 0 <= i < recs.len() ==> row_record_ok(#[trigger] recs[i]),
    ensures
        parse_rows(enc_rows(recs)) == Ok::<(Seq<(Seq<u8>, Seq<(Seq<u8>, Item)>)>, nat), ErrorKind>(
            (recs, enc_rows(recs).len()),
        ),
    decreases recs.len(),
{
    if recs.len() == 0 {
        assert(recs =~= Seq::<(Seq<u8>, Seq<(Seq<u8>, Item)>)>::empty());
    } else {
        let x = recs[0];
        let rest = recs.drop_first();
        let s = enc_rows(recs);
        assert(row_record_ok(x));
        lemma_parse_row(x.0, x.1, enc_rows(rest));
        let n = enc_row(x.0, x.1).len();
        assert(s.subrange(n as int, s.len() as int) =~= enc_rows(rest));
        assert forall|i: int| 0 <= i < rest.len() implies row_record_ok(#[trigger] rest[i]) by {
            assert(rest[i] == recs[i + 1]);
        }
        lemma_parse_rows(rest);
        assert(seq![x] + rest =~= recs);
    }
}

/// The rows of a document that can be encoded make row records that decode back,
/// and these stand for the rows themselves.
pub proof fn lemma_doc_records(d: YAD)
    requires
        d.wf(),
        d.names_nonempty(),
        d.names_fit(),
    ensures
        forall|i: int| 0 <= i < row_records(d.rows@).len() ==> row_record_ok(#[trigger] row_records(d.rows@)[i]),
        named_rows(row_records(d.rows@)) == row_entries(d.rows@),
{
    let recs = row_records(d.rows@);
    assert forall|i: int| 0 <= i < recs.len() implies row_record_ok(#[trigger] recs[i]) by {
        lemma_row_records(d.rows@[i]);
    }
    assert forall|i: int| 0 <= i < recs.len() implies #[trigger] named_rows(recs)[i] == row_entries(
        d.rows@,
    )[i] by {
        lemma_row_records(d.rows@[i]);
        encode_utf8_decode_utf8(d.rows@[i].name@);
    }
    assert(named_rows(recs) =~= row_entries(d.rows@));
}

/// Round trip of documents: the bytes that a document encodes to decode to its
/// version and rows, and these stand for the same document, compared as maps
/// of rows and keys.
pub proof fn lemma_document_round_trip(d: YAD)
    requires
        d.wf(),
        d.names_nonempty(),
        d.names_fit(),
    ensures
        parse_document(enc_document(d.version, row_records(d.rows@))) == Ok::<
            (Version, Seq<(Seq<u8>, Seq<(Seq<u8>, Item)>)>),
            ErrorKind,
        >((d.version, row_records(d.rows@))),
        document_model(d.version, row_records(d.rows@)) == d@,
{
    let recs = row_records(d.rows@);
    lemma_doc_records(d);
    lemma_parse_rows(recs);
    let s = enc_document(d.version, recs);
    assert(s.subrange(5, s.len() as int) =~= enc_rows(recs));
}

} // verus!
