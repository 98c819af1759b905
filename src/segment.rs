use vstd::prelude::*;
use crate::key::{KEY_END, KEY_START};
use crate::row::{ROW_END, ROW_START};

verus! {

/// The state of a left-to-right scan for chunks: the chunks closed so far,
/// the chunk being gathered, and whether a chunk is open.
pub open spec fn scan(s: Seq<u8>, start: u8, end: u8) -> (Seq<Seq<u8>>, Seq<u8>, bool)
    decreases s.len(),
{
    if s.len() == 0 {
        (Seq::empty(), Seq::empty(), false)
    } else {
        let (done, cur, inside) = scan(s.drop_last(), start, end);
        let b = s.last();
        if b == start {
            (done, seq![b], true)
        } else if b == end && inside {
            (done.push(cur.push(b)), Seq::empty(), false)
        } else if inside {
            (done, cur.push(b), true)
        } else {
            (done, cur, false)
        }
    }
}

/// The chunks that run from a `start` byte to the next `end` byte, markers
/// included. A new `start` drops an unfinished chunk; bytes outside chunks are
/// skipped. The scan does not nest and does not know about payloads.
pub open spec fn segments(s: Seq<u8>, start: u8, end: u8) -> Seq<Seq<u8>> {
    scan(s, start, end).0
}

/// The contents of a sequence of byte vectors.
pub open spec fn contents(v: Seq<Vec<u8>>) -> Seq<Seq<u8>> {
    v.map_values(|b: Vec<u8>| b@)
}

/// Splits `bytes` into the chunks that run from a `start` byte to the next `end` byte.
pub fn segment(bytes: &Vec<u8>, start: &u8, end: &u8) -> (r: Vec<Vec<u8>>)
    ensures
        contents(r@) == segments(bytes@, *start, *end),
{
    let mut result: Vec<Vec<u8>> = Vec::new();
    let mut current: Vec<u8> = Vec::new();
    let mut inside = false;
    let mut i: usize = 0;
    proof {
        assert(contents(result@) =~= Seq::<Seq<u8>>::empty());
        assert(bytes@.take(0) =~= Seq::<u8>::empty());
    }
    while i < bytes.len()
        invariant
            i <= bytes@.len(),
            scan(bytes@.take(i as int), *start, *end) == (contents(result@), current@, inside),
        decreases bytes@.len() - i,
    {
        let b = bytes[i];
        proof {
            assert(bytes@.take(i + 1).drop_last() =~= bytes@.take(i as int));
            assert(bytes@.take(i + 1).last() == b);
        }
        if b == *start {
            current = Vec::new();
            current.push(b);
            inside = true;
            proof {
                assert(current@ =~= seq![b]);
            }
        } else if b == *end && inside {
            current.push(b);
            let done = current;
            result.push(done);
            current = Vec::new();
            inside = false;
            proof {
                assert(contents(result@) =~= scan(bytes@.take(i as int), *start, *end).0.push(done@));
                assert(current@ =~= Seq::<u8>::empty());
            }
        } else if inside {
            current.push(b);
        }
        i = i + 1;
    }
    proof {
        assert(bytes@.take(i as int) =~= bytes@);
    }
    result
}

/// Splits `bytes` into key chunks.
pub fn segment_keys(bytes: &Vec<u8>) -> (r: Vec<Vec<u8>>)
    ensures
        contents(r@) == segments(bytes@, KEY_START, KEY_END),
{
    segment(bytes, &KEY_START, &KEY_END)
}

/// Splits `bytes` into row chunks.
pub fn segment_rows(bytes: &Vec<u8>) -> (r: Vec<Vec<u8>>)
    ensures
        contents(r@) == segments(bytes@, ROW_START, ROW_END),
{
    segment(bytes, &ROW_START, &ROW_END)
}

} // verus!
