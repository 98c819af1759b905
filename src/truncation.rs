use vstd::prelude::*;
use vstd::utf8::{encode_utf8, valid_utf8};
use crate::document::{YAD, Version, enc_document, enc_rows, parse_document, parse_rows, row_record_ok, row_records};
use crate::error::ErrorKind;
use crate::grammar::{Item, enc, lemma_truncated, lemma_value_round_trip, parse_item, valid};
use crate::header::{byte_count, min_width};
use crate::key::{KEY_NAME, KEY_START, enc_key, enc_name, lemma_parse_key, lemma_parse_name, parse_key, parse_name};
use crate::length::{be_bytes, lemma_be_round_trip, lemma_max_count};
use crate::row::{ROW_END, ROW_NAME, ROW_START, enc_keys, enc_row, lemma_parse_row, parse_keys, parse_row, records_ok};

verus! {

/// A strict prefix of a name chunk reports truncation.
pub proof fn lemma_name_prefix(marker: u8, b: Seq<u8>, k: nat)
    requires
        marker == 0x60 || marker == 0x70,
        0 < b.len() <= usize::MAX,
        valid_utf8(b),
        k < enc_name(marker, b).len(),
    ensures
        parse_name(marker, enc_name(marker, b).take(k as int)) == Err::<(Seq<u8>, nat), ErrorKind>(
            ErrorKind::TruncatedInput,
        ),
{
    let s = enc_name(marker, b).take(k as int);
    let n = b.len();
    let w = min_width(n);
    let c = byte_count(w) as int;
    lemma_max_count(w);
    lemma_be_round_trip(n, byte_count(w));
    if k > 0 {
        assert(s[0] == enc_name(marker, b)[0]);
        if k >= 1 + c {
            assert(s.subrange(1, 1 + c) =~= be_bytes(n, byte_count(w)));
        }
    }
}

/// A strict prefix of a key reports truncation.
pub proof fn lemma_key_prefix(name: Seq<u8>, v: Item, k: nat)
    requires
        0 < name.len() <= usize::MAX,
        valid_utf8(name),
        valid(v),
        k < enc_key(name, v).len(),
    ensures
        parse_key(enc_key(name, v).take(k as int)) == Err::<((Seq<u8>, Item), nat), ErrorKind>(
            ErrorKind::TruncatedInput,
        ),
{
    reveal(parse_key);
    let full = enc_key(name, v);
    let s = full.take(k as int);
    let nm = enc_name(KEY_NAME, name);
    let a = nm.len();
    if k > 0 {
        assert(s[0] == KEY_START);
        let after = s.subrange(1, s.len() as int);
        if k - 1 < a {
            assert(after =~= nm.take(k - 1));
            lemma_name_prefix(KEY_NAME, name, (k - 1) as nat);
        } else {
            let t = (enc(v) + seq![crate::key::KEY_END]).take(k - 1 - a);
            assert(after =~= nm + t);
            lemma_parse_name(KEY_NAME, name, t);
            let rest = s.subrange(1 + a as int, s.len() as int);
            assert(rest =~= t);
            if k - 1 - a < enc(v).len() {
                assert(t =~= enc(v).take(k - 1 - a));
                lemma_truncated(v, (k - 1 - a) as nat);
            } else {
                assert(t =~= enc(v) + Seq::<u8>::empty());
                lemma_value_round_trip(v, Seq::empty());
            }
        }
    }
}

/// A strict prefix of encoded keys and the row's end marker reports truncation.
pub proof fn lemma_keys_prefix(recs: Seq<(Seq<u8>, Item)>, k: nat)
    requires
        records_ok(recs),
        k < enc_keys(recs).len() + 1,
    ensures
        parse_keys((enc_keys(recs) + seq![ROW_END]).take(k as int)) == Err::<
            (Seq<(Seq<u8>, Item)>, nat),
            ErrorKind,
        >(ErrorKind::TruncatedInput),
    decreases recs.len(),
{
    let s = (enc_keys(recs) + seq![ROW_END]).take(k as int);
    if k > 0 && recs.len() > 0 {
        let x = recs[0];
        let rest = recs.drop_first();
        let ek = enc_key(x.0, x.1);
        assert(enc_keys(recs) + seq![ROW_END] =~= ek + (enc_keys(rest) + seq![ROW_END]));
        reveal(parse_key);
        assert(s[0] == KEY_START);
        assert(records_ok(rest)) by {
            assert forall|i: int| 0 <= i < rest.len() implies 0 < (#[trigger] rest[i]).0.len() <= usize::MAX
                && valid_utf8(rest[i].0) && valid(rest[i].1) by {
                assert(rest[i] == recs[i + 1]);
            }
        }
        if k < ek.len() {
            assert(s =~= ek.take(k as int));
            lemma_key_prefix(x.0, x.1, k);
        } else {
            let t = (enc_keys(rest) + seq![ROW_END]).take(k - ek.len());
            assert(s =~= ek + t);
            lemma_parse_key(x.0, x.1, t);
            assert(s.subrange(ek.len() as int, s.len() as int) =~= t);
            lemma_keys_prefix(rest, (k - ek.len()) as nat);
        }
    } else if k > 0 {
        assert(enc_keys(recs).len() == 0);
    }
}

/// A strict prefix of a row reports truncation.
pub proof fn lemma_row_prefix(name: Seq<u8>, recs: Seq<(Seq<u8>, Item)>, k: nat)
    requires
        0 < name.len() <= usize::MAX,
        valid_utf8(name),
        records_ok(recs),
        k < enc_row(name, recs).len(),
    ensures
        parse_row(enc_row(name, recs).take(k as int)) == Err::<
            ((Seq<u8>, Seq<(Seq<u8>, Item)>), nat),
            ErrorKind,
        >(ErrorKind::TruncatedInput),
{
    reveal(parse_row);
    let s = enc_row(name, recs).take(k as int);
    let nm = enc_name(ROW_NAME, name);
    let a = nm.len();
    if k > 0 {
        assert(s[0] == ROW_START);
        let after = s.subrange(1, s.len() as int);
        if k - 1 < a {
            assert(after =~= nm.take(k - 1));
            lemma_name_prefix(ROW_NAME, name, (k - 1) as nat);
        } else {
            let t = (enc_keys(recs) + seq![ROW_END]).take(k - 1 - a);
            assert(after =~= nm + t);
            lemma_parse_name(ROW_NAME, name, t);
            assert(s.subrange(1 + a as int, s.len() as int) =~= t);
            lemma_keys_prefix(recs, (k - 1 - a) as nat);
        }
    }
}

/// A prefix of encoded rows either reports truncation or ends where a row
/// ends, and then decodes to the rows before that point.
pub proof fn lemma_rows_prefix(recs: Seq<(Seq<u8>, Seq<(Seq<u8>, Item)>)>, k: nat)
    requires
        forall|i: int| 0 <= i < recs.len() ==> row_record_ok(#[trigger] recs[i]),
        k <= enc_rows(recs).len(),
    ensures
        match parse_rows(enc_rows(recs).take(k as int)) {
            Ok((got, m)) => got.len() <= recs.len() && got == recs.take(got.len() as int)
                && enc_rows(got) == enc_rows(recs).take(k as int),
            Err(e) => e == ErrorKind::TruncatedInput,
        },
    decreases recs.len(),
{
    let s = enc_rows(recs).take(k as int);
    if k == 0 {
        assert(recs.take(0) =~= Seq::<(Seq<u8>, Seq<(Seq<u8>, Item)>)>::empty());
        assert(s =~= Seq::<u8>::empty());
    } else {
        let x = recs[0];
        let rest = recs.drop_first();
        let er = enc_row(x.0, x.1);
        assert(row_record_ok(x));
        assert forall|i: int| 0 <= i < rest.len() implies row_record_ok(#[trigger] rest[i]) by {
            assert(rest[i] == recs[i + 1]);
        }
        if k < er.len() {
            assert(s =~= er.take(k as int));
            lemma_row_prefix(x.0, x.1, k);
        } else {
            let t = enc_rows(rest).take(k - er.len());
            assert(s =~= er + t);
            lemma_parse_row(x.0, x.1, t);
            assert(s.subrange(er.len() as int, s.len() as int) =~= t);
            lemma_rows_prefix(rest, (k - er.len()) as nat);
            if let Ok((more, m)) = parse_rows(t) {
                let got = seq![x] + more;
                assert(got.drop_first() =~= more);
                assert(got =~= recs.take(got.len() as int)) by {
                    assert forall|i: int| 0 <= i < got.len() implies got[i] == recs.take(got.len() as int)[i] by {
                        if i > 0 {
                            assert(got[i] == more[i - 1]);
                            assert(more[i - 1] == rest.take(more.len() as int)[i - 1]);
                        }
                    }
                }
                assert(enc_rows(got) =~= er + enc_rows(more));
            }
        }
    }
}

/// Truncation safety of documents: a strict prefix of a document's encoding
/// never decodes past its end. Below five bytes the version stamp is missing;
/// otherwise decoding reports truncation, unless the prefix ends where a row
/// ends, and then it is itself the encoding of the rows before that point.
pub proof fn lemma_document_prefix(d: YAD, k: nat)
    requires
        d.wf(),
        d.names_nonempty(),
        d.names_fit(),
        k < enc_document(d.version, row_records(d.rows@)).len(),
    ensures
        ({
            let b = enc_document(d.version, row_records(d.rows@));
            let recs = row_records(d.rows@);
            &&& k < 5 ==> parse_document(b.take(k as int)) == Err::<
                (Version, Seq<(Seq<u8>, Seq<(Seq<u8>, Item)>)>),
                ErrorKind,
            >(ErrorKind::MalformedVersion)
            &&& k >= 5 ==> match parse_document(b.take(k as int)) {
                Ok((v, got)) => v == d.version && got == recs.take(got.len() as int)
                    && b.take(k as int) == enc_document(v, got),
                Err(e) => e == ErrorKind::TruncatedInput,
            }
        }),
{
    let recs = row_records(d.rows@);
    let b = enc_document(d.version, recs);
    crate::document::lemma_doc_records(d);
    if k >= 5 {
        let s = b.take(k as int);
        assert(s.subrange(5, s.len() as int) =~= enc_rows(recs).take(k - 5));
        lemma_rows_prefix(recs, (k - 5) as nat);
        if let Ok((got, m)) = parse_rows(enc_rows(recs).take(k - 5)) {
            assert(s =~= enc_document(d.version, got));
        }
    }
}

} // verus!
