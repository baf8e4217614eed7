//! Items as records of the artifact, and the ordered vector that holds them.

use crate::wire::{
    counted_bytes, lemma_parse_counted, lemma_parse_repeat_err, lemma_skip_skip, parse_counted,
    parse_repeat, put_usize, reads_back, repeat_bytes, take_usize, CodecError, Parsed,
};
use vstd::prelude::*;

verus! {

/// A value that the artifact holds as a run of bytes.
pub trait Record: Sized {
    /// The value as mathematics sees it.
    type Model;

    /// The mathematical value of `self`.
    spec fn model(&self) -> Self::Model;

    /// Whether `m` can be written so that it is read back as it was: its
    /// counts fit a machine word and no string of it ends in a zero
    /// character.
    spec fn fits(m: Self::Model) -> bool;

    /// The bytes of `m`.
    spec fn record_bytes(m: Self::Model) -> Seq<u8>;

    /// Reading a value from the front of `s`.
    spec fn parse_record(s: Seq<u8>) -> Parsed<Self::Model>;

    /// Appends the bytes of `self` to `out`.
    fn encode(&self, out: &mut Vec<u8>)
        ensures
            final(out)@ == old(out)@ + Self::record_bytes(self.model()),
    ;

    /// Reads a value at `pos`.
    fn decode(bytes: &[u8], pos: usize) -> (r: Result<(Self, usize), CodecError>)
        requires
            pos <= bytes@.len(),
        ensures
            match Self::parse_record(bytes@.skip(pos as int)) {
                Ok((m, n)) => r matches Ok((v, p)) && v.model() == m && p == pos + n && pos <= p
                    <= bytes@.len(),
                Err(e) => r matches Err(f) && f == e,
            },
    ;

    /// A value that fits is read back as it was written, whatever follows
    /// it.
    proof fn lemma_round_trip(m: Self::Model, rest: Seq<u8>)
        requires
            Self::fits(m),
        ensures
            Self::parse_record(Self::record_bytes(m) + rest) == Ok::<(Self::Model, int), CodecError>(
                (m, Self::record_bytes(m).len() as int),
            ),
    ;
}

/// `record_bytes` of `T` as a value.
pub open spec fn record_enc<T: Record>() -> spec_fn(T::Model) -> Seq<u8> {
    |m: T::Model| T::record_bytes(m)
}

/// `parse_record` of `T` as a value.
pub open spec fn record_item<T: Record>() -> spec_fn(Seq<u8>) -> Parsed<T::Model> {
    |s: Seq<u8>| T::parse_record(s)
}

/// The bytes of a vector of items: their number, then each item.
pub open spec fn items_bytes<T: Record>(items: Seq<T::Model>) -> Seq<u8> {
    counted_bytes(items, record_enc::<T>())
}

/// Reading a vector of items from the front of `s`.
pub open spec fn parse_items<T: Record>(s: Seq<u8>) -> Parsed<Seq<T::Model>> {
    parse_counted(s, record_item::<T>())
}

/// The mathematical values of a run of items.
pub open spec fn models<T: Record>(items: Seq<T>) -> Seq<T::Model> {
    Seq::new(items.len(), |i: int| items[i].model())
}

/// The items of a corpus in the order in which they were added: the id of an
/// item is its place in this vector.
#[derive(Debug)]
pub struct ConcreteVec<T>(pub Vec<T>);

impl<T> View for ConcreteVec<T> {
    type V = Seq<T>;

    open spec fn view(&self) -> Seq<T> {
        self.0@
    }
}

impl<T> ConcreteVec<T> {
    /// The number of items.
    pub fn len(&self) -> (n: usize)
        ensures
            n == self@.len(),
    {
        self.0.len()
    }

    /// The item at place `i`, if there is one.
    pub fn get(&self, i: usize) -> (r: Option<&T>)
        ensures
            r is Some <==> i < self@.len(),
            r matches Some(item) ==> *item == self@[i as int],
    {
        if i < self.0.len() {
            Some(&self.0[i])
        } else {
            None
        }
    }
}

impl<T: Record> ConcreteVec<T> {
    /// Appends the bytes of the items to `out`.
    pub fn encode(&self, out: &mut Vec<u8>)
        ensures
            final(out)@ == old(out)@ + items_bytes::<T>(models(self@)),
    {
        let items = &self.0;
        put_usize(out, items.len());
        let ghost start = out@;
        let ghost all = models(self@);
        let mut i: usize = 0;
        while i < items.len()
            invariant
                i <= items.len(),
                items@ == self@,
                all == models(self@),
                out@ == start + repeat_bytes(all.take(i as int), record_enc::<T>()),
            decreases items.len() - i,
        {
            items[i].encode(out);
            proof {
                let next = all.take(i + 1);
                assert(next.drop_last() == all.take(i as int));
                assert(next.last() == items@[i as int].model());
                assert(out@ == start + repeat_bytes(next, record_enc::<T>()));
            }
            i = i + 1;
        }
        assert(all.take(all.len() as int) == all);
        assert(out@ == old(out)@ + items_bytes::<T>(all));
    }

    /// Reads a vector of items at `pos`.
    #[verifier::loop_isolation(false)]
    pub fn decode(bytes: &[u8], pos: usize) -> (r: Result<(ConcreteVec<T>, usize), CodecError>)
        requires
            pos <= bytes@.len(),
        ensures
            match parse_items::<T>(bytes@.skip(pos as int)) {
                Ok((ms, n)) => r matches Ok((items, p)) && models(items@) == ms && p == pos + n
                    && pos <= p <= bytes@.len(),
                Err(e) => r matches Err(f) && f == e,
            },
    {
        let (count, start) = match take_usize(bytes, pos) {
            Err(e) => {
                return Err(e);
            },
            Ok(x) => x,
        };
        let ghost s = bytes@.skip(start as int);
        proof {
            lemma_skip_skip(bytes@, pos as int, 8);
        }
        let mut items: Vec<T> = Vec::new();
        let mut p: usize = start;
        let mut i: usize = 0;
        assert(models(items@) == Seq::<T::Model>::empty());
        while i < count
            invariant
                i <= count,
                start <= p <= bytes@.len(),
                parse_repeat(s, i as nat, record_item::<T>()) == Ok::<
                    (Seq<T::Model>, int),
                    CodecError,
                >((models(items@), p - start)),
            decreases count - i,
        {
            proof {
                lemma_skip_skip(bytes@, start as int, p - start);
            }
            match T::decode(bytes, p) {
                Err(e) => {
                    proof {
                        assert(parse_repeat(s, (i + 1) as nat, record_item::<T>()) is Err);
                        lemma_parse_repeat_err(s, (i + 1) as nat, count as nat, record_item::<T>());
                    }
                    return Err(e);
                },
                Ok((item, q)) => {
                    let ghost before = items@;
                    let ghost added = item.model();
                    items.push(item);
                    assert(models(items@) == models(before).push(added));
                    p = q;
                },
            }
            i = i + 1;
        }
        Ok((ConcreteVec(items), p))
    }
}

/// A vector of items, each of which fits, is read back as it was written,
/// whatever follows it.
pub proof fn lemma_items_round_trip<T: Record>(items: Seq<T::Model>, rest: Seq<u8>)
    requires
        items.len() <= usize::MAX,
        forall|i: int| 0 <= i < items.len() ==> T::fits(#[trigger] items[i]),
    ensures
        parse_items::<T>(items_bytes::<T>(items) + rest) == Ok::<(Seq<T::Model>, int), CodecError>(
            (items, items_bytes::<T>(items).len() as int),
        ),
{
    assert forall|i: int| 0 <= i < items.len() implies reads_back(
        #[trigger] items[i],
        record_enc::<T>(),
        record_item::<T>(),
    ) by {
        let m = items[i];
        assert forall|tail: Seq<u8>| #[trigger]
            record_item::<T>()(record_enc::<T>()(m) + tail) == Ok::<(T::Model, int), CodecError>(
                (m, record_enc::<T>()(m).len() as int),
            ) by {
            T::lemma_round_trip(m, tail);
        }
    }
    lemma_parse_counted(items, rest, record_enc::<T>(), record_item::<T>());
}

/// The bytes of a vector of items, each of which fits, are read back as the
/// items.
pub proof fn lemma_items_bytes_decode<T: Record>(items: Seq<T::Model>)
    requires
        items.len() <= usize::MAX,
        forall|i: int| 0 <= i < items.len() ==> T::fits(#[trigger] items[i]),
    ensures
        parse_items::<T>(items_bytes::<T>(items)) == Ok::<(Seq<T::Model>, int), CodecError>(
            (items, items_bytes::<T>(items).len() as int),
        ),
{
    lemma_items_round_trip::<T>(items, Seq::empty());
    assert(items_bytes::<T>(items) + Seq::<u8>::empty() == items_bytes::<T>(items));
}

} // verus!
