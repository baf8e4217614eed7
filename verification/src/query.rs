//! The query: from a point to the items that hold it.
//!
//! The grid narrows the items down to the candidates of the point's cell.
//! Whether the geometry of a candidate holds the point is computed outside
//! this library, on the coordinates as numbers, and comes in as one flag for
//! each candidate.

use crate::degrees::{degree_floor, floor_degree, interior, is_interior};
use crate::grid::{
    hit_ids, lemma_hit_ids_complete, lemma_hit_ids_sound, GridLookup, RoundDegree, MAX_ITEMS,
};
use crate::ids::{EncodableIds, Id};
use crate::record::ConcreteVec;
use vstd::prelude::*;
use vstd::slice::*;

verus! {

/// Access to the items of a corpus that are held in memory.
pub trait HasItemData {
    /// The kind of item.
    type Item;

    /// Whether the data is ready for queries.
    spec fn ready(&self) -> bool;

    /// The items, in the order of their ids.
    spec fn spec_items(&self) -> Seq<Self::Item>;

    /// The items, in the order of their ids.
    fn get_mem_items(&self) -> (items: &ConcreteVec<Self::Item>)
        ensures
            items@ == self.spec_items(),
    ;
}

/// Access to the grid lookup of a corpus that is held in memory.
pub trait HasLookupData: HasItemData {
    /// The list of the cell `(x, y)`, if it has one.
    spec fn spec_entry(&self, x: int, y: int) -> Option<Seq<Id>>;

    /// The table from cells to lists of ids.
    fn get_mem_lookup(&self) -> (table: &GridLookup)
        requires
            self.ready(),
        ensures
            table.wf(),
            table.ids_below(self.spec_items().len() as int),
            forall|x: int, y: int| (#[trigger] table.entry(x, y)) == self.spec_entry(x, y),
    ;
}

/// The items of a corpus together with their grid lookup, ready for
/// queries.
#[derive(Debug)]
pub struct GeoIndex<T> {
    items: ConcreteVec<T>,
    lookup: GridLookup,
    fast_path: bool,
}

/// The candidates that are left where their flag is set, in their order.
pub open spec fn kept(candidates: Seq<Id>, flags: Seq<bool>) -> Seq<Id>
    decreases candidates.len(),
{
    if candidates.len() == 0 || flags.len() == 0 {
        Seq::empty()
    } else {
        let front = kept(candidates.drop_last(), flags.drop_last());
        if flags.last() {
            front.push(candidates.last())
        } else {
            front
        }
    }
}

/// For each candidate, whether the item of that id holds the point: `hit`
/// says so for every item of the corpus.
pub open spec fn flags_of(candidates: Seq<Id>, hit: Seq<bool>) -> Seq<bool> {
    Seq::new(candidates.len(), |i: int| hit[candidates[i] as int])
}

/// The answer of the query for a point whose cell has the candidates
/// `candidates`: nothing where there are none; the only candidate untested
/// where the corpus takes the fast path and the point lies inside the
/// interior; and else the candidates whose item holds the point.
pub open spec fn answer(candidates: Seq<Id>, fast_path: bool, inside: bool, hit: Seq<bool>) -> Seq<
    Id,
> {
    if candidates.len() == 0 {
        Seq::empty()
    } else if fast_path && inside && candidates.len() == 1 {
        candidates
    } else {
        kept(candidates, flags_of(candidates, hit))
    }
}

/// Whether the ids stand in strictly ascending order.
pub open spec fn ascending(ids: Seq<Id>) -> bool {
    forall|j: int, k: int| 0 <= j < k < ids.len() ==> ids[j] < ids[k]
}

/// What the first step of a query found.
#[derive(Debug)]
pub enum Lookup {
    /// The answer is known: these are the ids of the items that hold the
    /// point.
    Resolved(Vec<Id>),
    /// These are the candidates; the answer is those of them whose geometry
    /// holds the point.
    Candidates(Vec<Id>),
}

impl Lookup {
    /// The ids that the step found.
    pub open spec fn ids(&self) -> Seq<Id> {
        match *self {
            Lookup::Resolved(v) => v@,
            Lookup::Candidates(v) => v@,
        }
    }
}

impl<T> GeoIndex<T> {
    /// The table is well formed, the ids can tell the items apart, and every
    /// id in the table is the place of an item.
    pub closed spec fn wf(&self) -> bool {
        &&& self.lookup.wf()
        &&& self.items@.len() <= MAX_ITEMS
        &&& self.lookup.ids_below(self.items@.len() as int)
    }

    /// The items, in the order of their ids.
    pub closed spec fn items(&self) -> Seq<T> {
        self.items@
    }

    /// The list of the cell `(x, y)`, if it has one.
    pub closed spec fn entry(&self, x: int, y: int) -> Option<Seq<Id>> {
        self.lookup.entry(x, y)
    }

    /// Whether the only candidate of a cell is taken without the exact test.
    pub closed spec fn fast_path(&self) -> bool {
        self.fast_path
    }

    /// The candidates of the cell `(x, y)`: its list, and nothing where it
    /// has none.
    pub open spec fn candidates(&self, x: int, y: int) -> Seq<Id> {
        match self.entry(x, y) {
            Some(ids) => ids,
            None => Seq::empty(),
        }
    }

    /// Whether `step` is what the first step of a query for the point finds:
    /// the candidates of the point's cell, resolved where there are none or
    /// where the fast path is taken.
    pub open spec fn finds(&self, lng_bits: u32, lat_bits: u32, step: Lookup) -> bool {
        let found = self.candidates(degree_floor(lng_bits) as int, degree_floor(lat_bits) as int);
        &&& step.ids() == found
        &&& step is Resolved <==> found.len() == 0 || (self.fast_path() && interior(
            lng_bits,
            lat_bits,
        ) && found.len() == 1)
    }

    /// Every id in the table is the place of an item.
    pub proof fn lemma_ids_valid(&self, x: int, y: int, i: int)
        requires
            self.wf(),
            0 <= i < self.candidates(x, y).len(),
        ensures
            self.candidates(x, y)[i] < self.items().len(),
    {
        assert(self.lookup.entry(x, y).unwrap()[i] < self.items@.len());
    }

    /// Joins the items and their table. There is no index where the items are
    /// more than ids can tell apart, or where an id in the table is the place
    /// of no item.
    pub fn new(items: ConcreteVec<T>, lookup: GridLookup, fast_path: bool) -> (r: Option<
        GeoIndex<T>,
    >)
        requires
            lookup.wf(),
        ensures
            r is Some <==> items@.len() <= MAX_ITEMS && lookup.ids_below(items@.len() as int),
            r matches Some(index) ==> index.wf() && index.items() == items@ && index.fast_path()
                == fast_path && forall|x: int, y: int|
                (#[trigger] index.entry(x, y)) == lookup.entry(x, y),
    {
        let n = items.len();
        if n as u64 > MAX_ITEMS {
            return None;
        }
        if !lookup.ids_valid(n) {
            return None;
        }
        Some(GeoIndex { items, lookup, fast_path })
    }

    /// The items whose ids are given, in the order of the ids.
    pub fn map_into_items(&self, ids: &[Id]) -> (r: Vec<&T>)
        requires
            forall|i: int| 0 <= i < ids@.len() ==> (#[trigger] ids@[i]) < self.items().len(),
        ensures
            r@.len() == ids@.len(),
            forall|i: int| 0 <= i < ids@.len() ==> *(#[trigger] r@[i]) == self.items()[ids@[i] as int],
    {
        let mut r: Vec<&T> = Vec::new();
        let mut i: usize = 0;
        while i < ids.len()
            invariant
                i <= ids@.len(),
                r@.len() == i,
                forall|k: int| 0 <= k < ids@.len() ==> (#[trigger] ids@[k]) < self.items@.len(),
                forall|k: int| 0 <= k < i ==> *(#[trigger] r@[k]) == self.items@[ids@[k] as int],
            decreases ids.len() - i,
        {
            let id = ids[i] as usize;
            r.push(&self.items.0[id]);
            i = i + 1;
        }
        r
    }

    /// The items that may hold the points of the cell `(x, y)`, in the order
    /// of the cell's list; `None` where the cell has no list.
    pub fn get_lookup_suggestions(&self, x: RoundDegree, y: RoundDegree) -> (r: Option<Vec<&T>>)
        requires
            self.wf(),
        ensures
            r is Some == self.entry(x as int, y as int) is Some,
            r matches Some(found) ==> {
                let ids = self.candidates(x as int, y as int);
                &&& found@.len() == ids.len()
                &&& forall|i: int|
                    0 <= i < ids.len() ==> *(#[trigger] found@[i]) == self.items()[ids[i] as int]
            },
    {
        match self.lookup.get(x, y) {
            None => None,
            Some(ids) => {
                proof {
                    assert forall|i: int| 0 <= i < ids@.len() implies (#[trigger] ids@[i])
                        < self.items().len() by {
                        self.lemma_ids_valid(x as int, y as int, i);
                    }
                }
                Some(self.map_into_items(ids.as_ref()))
            },
        }
    }

    /// The first step of a query for the point with the longitude `lng_bits`
    /// and the latitude `lat_bits`, both as single-precision bit patterns:
    /// the candidates of the cell that the point falls into. They are the
    /// answer already where there are none, and where the corpus takes the
    /// fast path, the cell has one candidate and the point lies inside the
    /// interior. Else `confirm` gives the answer.
    pub fn lookup(&self, lng_bits: u32, lat_bits: u32) -> (step: Lookup)
        requires
            self.wf(),
        ensures
            self.finds(lng_bits, lat_bits, step),
    {
        let x = floor_degree(lng_bits);
        let y = floor_degree(lat_bits);
        match self.lookup.get(x, y) {
            None => Lookup::Resolved(Vec::new()),
            Some(ids) => {
                let found = slice_to_vec(ids.as_ref());
                if found.len() == 0 || (self.fast_path && found.len() == 1 && is_interior(
                    lng_bits,
                    lat_bits,
                )) {
                    Lookup::Resolved(found)
                } else {
                    Lookup::Candidates(found)
                }
            },
        }
    }

    /// The answer of the slow query: the ids of all items whose geometry
    /// holds the point, in ascending order. `contained` says of every item
    /// whether it does.
    pub fn lookup_slow(&self, contained: &Vec<bool>) -> (r: Vec<Id>)
        requires
            self.wf(),
            contained@.len() == self.items().len(),
        ensures
            r@ == hit_ids(contained@),
    {
        crate::grid::cell_ids(contained).0
    }
}

impl<T> HasItemData for GeoIndex<T> {
    type Item = T;

    open spec fn ready(&self) -> bool {
        self.wf()
    }

    open spec fn spec_items(&self) -> Seq<T> {
        self.items()
    }

    fn get_mem_items(&self) -> (items: &ConcreteVec<T>) {
        &self.items
    }
}

impl<T> HasLookupData for GeoIndex<T> {
    open spec fn spec_entry(&self, x: int, y: int) -> Option<Seq<Id>> {
        self.entry(x, y)
    }

    fn get_mem_lookup(&self) -> (table: &GridLookup) {
        &self.lookup
    }
}

/// The second step of a query: of the candidates, those whose flag says that
/// their geometry holds the point, in the order of the candidates.
pub fn confirm(candidates: &Vec<Id>, contained: &Vec<bool>) -> (r: Vec<Id>)
    requires
        candidates@.len() == contained@.len(),
    ensures
        r@ == kept(candidates@, contained@),
{
    let mut r: Vec<Id> = Vec::new();
    let mut i: usize = 0;
    while i < candidates.len()
        invariant
            i <= candidates@.len(),
            candidates@.len() == contained@.len(),
            r@ == kept(candidates@.take(i as int), contained@.take(i as int)),
        decreases candidates.len() - i,
    {
        proof {
            assert(candidates@.take(i + 1).drop_last() == candidates@.take(i as int));
            assert(contained@.take(i + 1).drop_last() == contained@.take(i as int));
        }
        if contained[i] {
            r.push(candidates[i]);
        }
        i = i + 1;
    }
    assert(candidates@.take(candidates@.len() as int) == candidates@);
    assert(contained@.take(contained@.len() as int) == contained@);
    r
}

/// The places of the flags that are set, in ascending order.
pub open spec fn kept_places(flags: Seq<bool>) -> Seq<int>
    decreases flags.len(),
{
    if flags.len() == 0 {
        Seq::empty()
    } else {
        let front = kept_places(flags.drop_last());
        if flags.last() {
            front.push(flags.len() - 1)
        } else {
            front
        }
    }
}

/// What is kept is a filter of the candidates that keeps their order: the
/// candidates at the places whose flag is set, and those places ascend.
pub proof fn lemma_kept_order(candidates: Seq<Id>, flags: Seq<bool>)
    requires
        candidates.len() == flags.len(),
    ensures
        kept(candidates, flags).len() == kept_places(flags).len(),
        forall|k: int|
            0 <= k < kept_places(flags).len() ==> 0 <= (#[trigger] kept_places(flags)[k])
                < flags.len() && flags[kept_places(flags)[k]] && kept(candidates, flags)[k]
                == candidates[kept_places(flags)[k]],
        forall|j: int, k: int|
            0 <= j < k < kept_places(flags).len() ==> kept_places(flags)[j] < kept_places(
                flags,
            )[k],
        forall|i: int| 0 <= i < flags.len() && flags[i] ==> kept_places(flags).contains(i),
    decreases flags.len(),
{
    if flags.len() > 0 {
        let cf = candidates.drop_last();
        let ff = flags.drop_last();
        lemma_kept_order(cf, ff);
        let places = kept_places(flags);
        assert forall|k: int| 0 <= k < places.len() implies 0 <= (#[trigger] places[k])
            < flags.len() && flags[places[k]] && kept(candidates, flags)[k]
            == candidates[places[k]] by {
            if k < kept_places(ff).len() {
                assert(places[k] == kept_places(ff)[k]);
                assert(ff[places[k]] == flags[places[k]]);
                assert(cf[places[k]] == candidates[places[k]]);
            }
        }
        assert forall|i: int| 0 <= i < flags.len() && flags[i] implies places.contains(i) by {
            if i < ff.len() {
                assert(ff[i]);
                let k = choose|k: int| 0 <= k < kept_places(ff).len() && kept_places(ff)[k] == i;
                assert(places[k] == i);
            } else {
                assert(places.last() == i);
            }
        }
    }
}

/// Two strictly ascending runs of ids that hold the same ids are the same
/// run.
pub proof fn lemma_ascending_same(a: Seq<Id>, b: Seq<Id>)
    requires
        ascending(a),
        ascending(b),
        forall|v: Id| a.contains(v) <==> b.contains(v),
    ensures
        a == b,
    decreases a.len(),
{
    if a.len() == 0 {
        if b.len() > 0 {
            assert(b.contains(b[0]));
            assert(a.contains(b[0]));
        }
        assert(a =~= b);
    } else {
        assert(a.contains(a.last()));
        assert(b.contains(a.last()));
        assert(b.len() > 0);
        assert(b.contains(b.last()));
        assert(a.contains(b.last()));
        let ia = choose|i: int| 0 <= i < a.len() && a[i] == b.last();
        let ib = choose|i: int| 0 <= i < b.len() && b[i] == a.last();
        assert(a.last() == b.last());
        let af = a.drop_last();
        let bf = b.drop_last();
        assert forall|v: Id| af.contains(v) <==> bf.contains(v) by {
            if af.contains(v) {
                let i = choose|i: int| 0 <= i < af.len() && af[i] == v;
                assert(a[i] == v && v < a.last());
                assert(a.contains(v));
                let j = choose|j: int| 0 <= j < b.len() && b[j] == v;
                assert(j < b.len() - 1);
                assert(bf[j] == v);
            }
            if bf.contains(v) {
                let i = choose|i: int| 0 <= i < bf.len() && bf[i] == v;
                assert(b[i] == v && v < b.last());
                assert(b.contains(v));
                let j = choose|j: int| 0 <= j < a.len() && a[j] == v;
                assert(j < a.len() - 1);
                assert(af[j] == v);
            }
        }
        lemma_ascending_same(af, bf);
        assert(a =~= af.push(a.last()));
        assert(b =~= bf.push(b.last()));
    }
}

/// What is kept of strictly ascending candidates ascends strictly, and holds
/// exactly the candidates whose flag is set.
pub proof fn lemma_kept_ascending(candidates: Seq<Id>, flags: Seq<bool>)
    requires
        candidates.len() == flags.len(),
        ascending(candidates),
    ensures
        ascending(kept(candidates, flags)),
        forall|v: Id|
            kept(candidates, flags).contains(v) <==> exists|i: int|
                0 <= i < candidates.len() && #[trigger] candidates[i] == v && flags[i],
{
    lemma_kept_order(candidates, flags);
    let k = kept(candidates, flags);
    let places = kept_places(flags);
    assert forall|a: int, b: int| 0 <= a < b < k.len() implies k[a] < k[b] by {
        assert(places[a] < places[b]);
        assert(k[a] == candidates[places[a]]);
        assert(k[b] == candidates[places[b]]);
    }
    assert forall|v: Id| k.contains(v) implies exists|i: int|
        0 <= i < candidates.len() && #[trigger] candidates[i] == v && flags[i] by {
        let j = choose|j: int| 0 <= j < k.len() && k[j] == v;
        assert(candidates[places[j]] == v);
    }
    assert forall|v: Id|
        (exists|i: int|
            0 <= i < candidates.len() && #[trigger] candidates[i] == v
                && flags[i]) implies k.contains(v) by {
        let i = choose|i: int| 0 <= i < candidates.len() && #[trigger] candidates[i] == v && flags[i];
        assert(places.contains(i));
        let j = choose|j: int| 0 <= j < places.len() && places[j] == i;
        assert(k[j] == v);
    }
}

/// The query with the grid gives the answer of the slow query.
///
/// This holds where the candidates of the point's cell ascend strictly and
/// are places of items, and where every item that holds the point is among
/// them. One case is left out: the fast path is taken and the only candidate
/// does not hold the point.
pub proof fn lemma_lookup_matches_slow(
    candidates: Seq<Id>,
    fast_path: bool,
    inside: bool,
    hit: Seq<bool>,
)
    requires
        hit.len() <= MAX_ITEMS,
        ascending(candidates),
        forall|i: int| 0 <= i < candidates.len() ==> (#[trigger] candidates[i]) < hit.len(),
        forall|i: int| 0 <= i < hit.len() && hit[i] ==> candidates.contains(i as Id),
        fast_path && inside && candidates.len() == 1 ==> hit[candidates[0] as int],
    ensures
        answer(candidates, fast_path, inside, hit) == hit_ids(hit),
{
    let slow = hit_ids(hit);
    lemma_hit_ids_sound(hit);
    assert forall|v: Id| slow.contains(v) implies candidates.contains(v) && hit[v as int] by {
        let k = choose|k: int| 0 <= k < slow.len() && slow[k] == v;
        assert(hit[slow[k] as int]);
    }
    assert forall|i: int| 0 <= i < hit.len() && hit[i] implies slow.contains(i as Id) by {
        lemma_hit_ids_complete(hit, i);
    }
    if candidates.len() == 0 {
        if slow.len() > 0 {
            assert(slow.contains(slow[0]));
        }
        assert(slow =~= Seq::<Id>::empty());
    } else if fast_path && inside && candidates.len() == 1 {
        let c = candidates[0];
        assert(slow.contains(c as int as Id));
        assert forall|v: Id| candidates.contains(v) <==> slow.contains(v) by {
            if candidates.contains(v) {
                assert(v == c);
            }
            if slow.contains(v) {
                assert(candidates.contains(v));
            }
        }
        lemma_ascending_same(candidates, slow);
    } else {
        let flags = flags_of(candidates, hit);
        let k = kept(candidates, flags);
        lemma_kept_ascending(candidates, flags);
        assert forall|v: Id| k.contains(v) <==> slow.contains(v) by {
            if k.contains(v) {
                let i = choose|i: int|
                    0 <= i < candidates.len() && #[trigger] candidates[i] == v && flags[i];
                assert(hit[v as int]);
                assert(slow.contains(v as int as Id));
            }
            if slow.contains(v) {
                let i = choose|i: int| 0 <= i < candidates.len() && candidates[i] == v;
                assert(flags[i]);
            }
        }
        lemma_ascending_same(k, slow);
    }
}

/// The query on a table that was built from flags gives the answer of the
/// slow query.
///
/// `reaches` says of every item whether its geometry reaches into the
/// point's cell, and `hit` whether it holds the point; an item that holds
/// the point reaches into the cell. Where the corpus takes the fast path it
/// covers the point: some item holds it.
pub proof fn lemma_built_lookup_matches_slow(
    reaches: Seq<bool>,
    fast_path: bool,
    inside: bool,
    hit: Seq<bool>,
)
    requires
        reaches.len() == hit.len() <= MAX_ITEMS,
        forall|i: int| 0 <= i < hit.len() && hit[i] ==> reaches[i],
        fast_path ==> exists|i: int| 0 <= i < hit.len() && hit[i],
    ensures
        answer(hit_ids(reaches), fast_path, inside, hit) == hit_ids(hit),
{
    let candidates = hit_ids(reaches);
    lemma_hit_ids_sound(reaches);
    assert forall|i: int| 0 <= i < hit.len() && hit[i] implies candidates.contains(i as Id) by {
        lemma_hit_ids_complete(reaches, i);
    }
    if fast_path && inside && candidates.len() == 1 {
        let i = choose|i: int| 0 <= i < hit.len() && hit[i];
        assert(candidates.contains(i as Id));
        assert(candidates[0] == i as Id);
    }
    lemma_lookup_matches_slow(candidates, fast_path, inside, hit);
}

/// The answer that the two steps of a query give: what the first step
/// found where that is the answer, and else what `confirm` keeps of it under
/// the flags of the candidates.
pub open spec fn outcome(step: Lookup, hit: Seq<bool>) -> Seq<Id> {
    match step {
        Lookup::Resolved(ids) => ids@,
        Lookup::Candidates(ids) => kept(ids@, flags_of(ids@, hit)),
    }
}

/// The two steps of a query give the answer for the candidates of the
/// point's cell.
pub proof fn lemma_steps_give_answer<T>(
    index: GeoIndex<T>,
    lng_bits: u32,
    lat_bits: u32,
    step: Lookup,
    hit: Seq<bool>,
)
    requires
        index.finds(lng_bits, lat_bits, step),
    ensures
        outcome(step, hit) == answer(
            index.candidates(degree_floor(lng_bits) as int, degree_floor(lat_bits) as int),
            index.fast_path(),
            interior(lng_bits, lat_bits),
            hit,
        ),
{
}

/// A query has one answer: two first steps that the index may take for one
/// point find the same ids and agree on whether they are the answer, and
/// from the same flags `confirm` keeps the same of them.
pub proof fn lemma_one_answer<T>(
    index: GeoIndex<T>,
    lng_bits: u32,
    lat_bits: u32,
    first: Lookup,
    second: Lookup,
)
    requires
        index.finds(lng_bits, lat_bits, first),
        index.finds(lng_bits, lat_bits, second),
    ensures
        first.ids() == second.ids(),
        first is Resolved <==> second is Resolved,
        forall|flags: Seq<bool>| kept(first.ids(), flags) == kept(second.ids(), flags),
{
}

} // verus!
