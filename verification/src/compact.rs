//! The compact form of the lookup: each cell holds up to ten ids in a fixed
//! array, and a query answers with the first item that holds the point.

use vstd::prelude::*;

verus! {

/// The number of ids that a cell holds.
pub const CELL_IDS: usize = 10;

/// The id that stands for no item.
pub const NO_TIMEZONE: i16 = -1;

/// The ids of a cell: those of its items first, then `NO_TIMEZONE`.
pub type TimezoneIds = [i16; 10];

/// The id at place `k` of a cell with the list `ids`: that of the list where
/// it has one, and else `NO_TIMEZONE`.
pub open spec fn padded_id(ids: Seq<i16>, k: int) -> i16 {
    if 0 <= k < ids.len() {
        ids[k]
    } else {
        NO_TIMEZONE
    }
}

/// The fixed array of a cell: the first ten ids of its list, and
/// `NO_TIMEZONE` where the list has fewer.
pub fn pad_timezone_ids(ids: &Vec<i16>) -> (cell: TimezoneIds)
    ensures
        forall|k: int| 0 <= k < CELL_IDS ==> (#[trigger] cell@[k]) == padded_id(ids@, k),
{
    let mut cell: TimezoneIds = [NO_TIMEZONE;10];
    let mut k: usize = 0;
    while k < CELL_IDS && k < ids.len()
        invariant
            k <= CELL_IDS,
            forall|j: int| 0 <= j < k ==> (#[trigger] cell@[j]) == padded_id(ids@, j),
            forall|j: int| k <= j < CELL_IDS ==> (#[trigger] cell@[j]) == NO_TIMEZONE,
        decreases CELL_IDS - k,
    {
        cell[k] = ids[k];
        k = k + 1;
    }
    cell
}

/// Whether `id` is the place of one of `item_count` items.
pub open spec fn names_item(id: i16, item_count: nat) -> bool {
    0 <= id < item_count
}

/// The places of the items that the ids of a cell name, in the order of the
/// ids. An id that names no item is passed over.
pub open spec fn named_items(ids: Seq<i16>, item_count: nat) -> Seq<usize>
    decreases ids.len(),
{
    if ids.len() == 0 {
        Seq::empty()
    } else {
        let front = named_items(ids.drop_last(), item_count);
        if names_item(ids.last(), item_count) {
            front.push(ids.last() as usize)
        } else {
            front
        }
    }
}

/// The places of the items of a cell.
pub fn map_timezones(item_count: usize, cell: &TimezoneIds) -> (places: Vec<usize>)
    ensures
        places@ == named_items(cell@, item_count as nat),
{
    let mut places: Vec<usize> = Vec::new();
    let mut k: usize = 0;
    while k < CELL_IDS
        invariant
            k <= CELL_IDS,
            cell@.len() == CELL_IDS,
            places@ == named_items(cell@.take(k as int), item_count as nat),
        decreases CELL_IDS - k,
    {
        let id = cell[k];
        proof {
            assert(cell@.take(k + 1).drop_last() == cell@.take(k as int));
        }
        if id >= 0 && (id as usize) < item_count {
            places.push(id as usize);
        }
        k = k + 1;
    }
    assert(cell@.take(CELL_IDS as int) == cell@);
    places
}

/// The first place whose flag is set, if any flag is.
pub open spec fn first_set(flags: Seq<bool>) -> Option<int>
    decreases flags.len(),
{
    if flags.len() == 0 {
        None
    } else if flags[0] {
        Some(0)
    } else {
        match first_set(flags.drop_first()) {
            Some(k) => Some(k + 1),
            None => None,
        }
    }
}

/// The first place whose flag is set lies among the flags, its flag is set,
/// and no flag before it is; and there is none only where no flag is set.
pub proof fn lemma_first_set(flags: Seq<bool>)
    ensures
        match first_set(flags) {
            Some(k) => 0 <= k < flags.len() && flags[k] && forall|j: int| 0 <= j < k ==> !flags[j],
            None => forall|j: int| 0 <= j < flags.len() ==> !flags[j],
        },
    decreases flags.len(),
{
    if flags.len() > 0 && !flags[0] {
        let rest = flags.drop_first();
        lemma_first_set(rest);
        match first_set(rest) {
            Some(k) => {
                assert forall|j: int| 0 <= j < k + 1 implies !flags[j] by {
                    if j > 0 {
                        assert(rest[j - 1] == flags[j]);
                    }
                }
                assert(rest[k] == flags[k + 1]);
            },
            None => {
                assert forall|j: int| 0 <= j < flags.len() implies !flags[j] by {
                    if j > 0 {
                        assert(rest[j - 1] == flags[j]);
                    }
                }
            },
        }
    }
}

/// The place of the first flag that is set.
#[verifier::loop_isolation(false)]
pub fn first_hit(flags: &Vec<bool>) -> (r: Option<usize>)
    ensures
        match first_set(flags@) {
            Some(k) => r matches Some(i) && i == k,
            None => r is None,
        },
{
    let mut k: usize = 0;
    proof {
        lemma_first_set(flags@);
    }
    while k < flags.len()
        invariant
            k <= flags@.len(),
            forall|j: int| 0 <= j < k ==> !flags@[j],
        decreases flags.len() - k,
    {
        if flags[k] {
            return Some(k);
        }
        k = k + 1;
    }
    None
}

/// The answer of the first-match query: the only candidate untested where the
/// cell has one and the point lies inside the interior, and else the first
/// candidate whose flag says that it holds the point.
pub fn get_timezone(candidates: &Vec<usize>, inside: bool, contained: &Vec<bool>) -> (r: Option<
    usize,
>)
    requires
        candidates@.len() == contained@.len(),
    ensures
        r == (if candidates@.len() == 1 && inside {
            Some(candidates@[0])
        } else {
            match first_set(contained@) {
                Some(k) => Some(candidates@[k]),
                None => None,
            }
        }),
{
    if candidates.len() == 1 && inside {
        return Some(candidates[0]);
    }
    proof {
        lemma_first_set(contained@);
    }
    match first_hit(contained) {
        Some(k) => Some(candidates[k]),
        None => None,
    }
}

/// The answer of the slow first-match query: the first of all items that holds
/// the point.
pub fn get_timezone_via_full_lookup(contained: &Vec<bool>) -> (r: Option<usize>)
    ensures
        match first_set(contained@) {
            Some(k) => r matches Some(i) && i == k,
            None => r is None,
        },
{
    first_hit(contained)
}

} // verus!
