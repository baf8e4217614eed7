//! Lists of item ids, and their bytes in the artifact.

use crate::wire::{
    counted_bytes, lemma_parse_counted, lemma_parse_repeat_err, lemma_parse_u32, lemma_skip_skip,
    parse_counted, parse_repeat, parse_u32, put_u32, put_usize, reads_back, repeat_bytes,
    take_u32, take_usize, u32_bytes, CodecError, Parsed,
};
use vstd::prelude::*;

verus! {

/// An index into the vector of items.
pub type Id = u32;

/// `u32_bytes` as a value.
pub open spec fn id_enc() -> spec_fn(Id) -> Seq<u8> {
    |v: Id| u32_bytes(v)
}

/// `parse_u32` as a value.
pub open spec fn id_item() -> spec_fn(Seq<u8>) -> Parsed<Id> {
    |s: Seq<u8>| parse_u32(s)
}

/// The bytes of a list of ids: their number, then each id in four bytes.
pub open spec fn ids_bytes(ids: Seq<Id>) -> Seq<u8> {
    counted_bytes(ids, id_enc())
}

/// Reading a list of ids from the front of `s`.
pub open spec fn parse_ids(s: Seq<u8>) -> Parsed<Seq<Id>> {
    parse_counted(s, id_item())
}

/// The ids of the items that may hold the points of one cell, in ascending
/// order.
#[derive(Debug)]
pub struct EncodableIds(pub Vec<Id>);

impl View for EncodableIds {
    type V = Seq<Id>;

    open spec fn view(&self) -> Seq<Id> {
        self.0@
    }
}

impl EncodableIds {
    /// The ids as a slice.
    pub fn as_ref(&self) -> (ids: &[Id])
        ensures
            ids@ == self@,
    {
        self.0.as_slice()
    }

    /// Appends the bytes of the list to `out`.
    pub fn encode(&self, out: &mut Vec<u8>)
        ensures
            final(out)@ == old(out)@ + ids_bytes(self@),
    {
        let ids = &self.0;
        put_usize(out, ids.len());
        let ghost start = out@;
        let mut i: usize = 0;
        while i < ids.len()
            invariant
                i <= ids.len(),
                out@ == start + repeat_bytes(ids@.take(i as int), id_enc()),
            decreases ids.len() - i,
        {
            put_u32(out, ids[i]);
            proof {
                let next = ids@.take(i + 1);
                assert(next.drop_last() == ids@.take(i as int));
                assert(next.last() == ids@[i as int]);
                assert(out@ == start + repeat_bytes(next, id_enc()));
            }
            i = i + 1;
        }
        assert(ids@.take(ids@.len() as int) == ids@);
        assert(out@ == old(out)@ + ids_bytes(self@));
    }

    /// Reads a list of ids at `pos`.
    #[verifier::loop_isolation(false)]
    pub fn decode(bytes: &[u8], pos: usize) -> (r: Result<(EncodableIds, usize), CodecError>)
        requires
            pos <= bytes@.len(),
        ensures
            match parse_ids(bytes@.skip(pos as int)) {
                Ok((v, n)) => r matches Ok((ids, p)) && ids@ == v && p == pos + n && pos <= p
                    <= bytes@.len(),
                Err(e) => r matches Err(f) && f == e,
            },
    {
        let (count, start) = match take_usize(bytes, pos) {
            Err(e) => {
                return Err(e);
            },
            Ok(x) => x,
        };
        let ghost s = bytes@.skip(start as int);
        proof {
            lemma_skip_skip(bytes@, pos as int, 8);
        }
        let mut ids: Vec<Id> = Vec::new();
        let mut p: usize = start;
        let mut i: usize = 0;
        while i < count
            invariant
                i <= count,
                start <= p <= bytes@.len(),
                parse_repeat(s, i as nat, id_item()) == Ok::<(Seq<Id>, int), CodecError>(
                    (ids@, p - start),
                ),
            decreases count - i,
        {
            proof {
                lemma_skip_skip(bytes@, start as int, p - start);
            }
            match take_u32(bytes, p) {
                Err(e) => {
                    proof {
                        assert(parse_repeat(s, (i + 1) as nat, id_item()) is Err);
                        lemma_parse_repeat_err(s, (i + 1) as nat, count as nat, id_item());
                    }
                    return Err(e);
                },
                Ok((v, q)) => {
                    ids.push(v);
                    p = q;
                },
            }
            i = i + 1;
        }
        Ok((EncodableIds(ids), p))
    }
}

/// A list of ids is read back as it was written, whatever follows it.
pub proof fn lemma_parse_ids(ids: Seq<Id>, rest: Seq<u8>)
    requires
        ids.len() <= usize::MAX,
    ensures
        parse_ids(ids_bytes(ids) + rest) == Ok::<(Seq<Id>, int), CodecError>(
            (ids, ids_bytes(ids).len() as int),
        ),
{
    assert forall|i: int| 0 <= i < ids.len() implies reads_back(
        #[trigger] ids[i],
        id_enc(),
        id_item(),
    ) by {
        let v = ids[i];
        assert forall|tail: Seq<u8>| #[trigger]
            id_item()(id_enc()(v) + tail) == Ok::<(Id, int), CodecError>(
                (v, id_enc()(v).len() as int),
            ) by {
            lemma_parse_u32(v, tail);
        }
    }
    lemma_parse_counted(ids, rest, id_enc(), id_item());
}

} // verus!
