//! The grid lookup: for each one-degree cell of the globe, the ids of the
//! items whose geometry reaches into the cell.

use crate::ids::{ids_bytes, lemma_parse_ids, parse_ids, EncodableIds, Id};
use crate::wire::{
    counted_bytes, i16_bytes, lemma_parse_counted, lemma_parse_i16, lemma_parse_repeat_err,
    lemma_skip_skip, parse_counted, parse_i16, parse_repeat, put_i16, put_usize, reads_back,
    repeat_bytes, take_i16, take_usize, CodecError, Parsed,
};
use vstd::prelude::*;

verus! {

/// A whole number of degrees.
pub type RoundDegree = i16;

/// A cell of the grid: the whole degrees of longitude and latitude at its
/// south-west corner.
pub type RoundLngLat = (RoundDegree, RoundDegree);

/// The westernmost column of cells.
pub const LNG_MIN: RoundDegree = -180;

/// The first column east of the grid.
pub const LNG_END: RoundDegree = 180;

/// The southernmost row of cells.
pub const LAT_MIN: RoundDegree = -90;

/// The first row north of the grid.
pub const LAT_END: RoundDegree = 90;

/// The number of rows of the grid.
pub const GRID_ROWS: usize = 180;

/// The number of cells of the grid: 360 columns of 180 rows.
pub const GRID_CELLS: usize = 64800;

/// Whether `(x, y)` is a cell of the grid.
pub open spec fn in_grid(x: int, y: int) -> bool {
    LNG_MIN <= x < LNG_END && LAT_MIN <= y < LAT_END
}

/// The place of a cell in column-major order, columns from west to east and
/// each column from south to north.
pub open spec fn slot_of(x: int, y: int) -> int {
    (x - LNG_MIN) * GRID_ROWS + (y - LAT_MIN)
}

/// The longitude of the cell at `slot`.
pub open spec fn slot_x(slot: int) -> int {
    slot / (GRID_ROWS as int) + LNG_MIN
}

/// The latitude of the cell at `slot`.
pub open spec fn slot_y(slot: int) -> int {
    slot % (GRID_ROWS as int) + LAT_MIN
}

/// How many of the slots hold a list.
spec fn present(cells: Seq<Option<EncodableIds>>) -> nat
    decreases cells.len(),
{
    if cells.len() == 0 {
        0
    } else {
        present(cells.drop_last()) + if cells.last() is Some {
            1nat
        } else {
            0nat
        }
    }
}

/// No more slots hold a list than there are slots.
proof fn lemma_present_bound(cells: Seq<Option<EncodableIds>>)
    ensures
        present(cells) <= cells.len(),
    decreases cells.len(),
{
    if cells.len() > 0 {
        lemma_present_bound(cells.drop_last());
    }
}

/// Every slot holds a list exactly when as many hold one as there are slots.
proof fn lemma_present_all(cells: Seq<Option<EncodableIds>>)
    ensures
        present(cells) == cells.len() <==> forall|i: int|
            0 <= i < cells.len() ==> (#[trigger] cells[i]) is Some,
    decreases cells.len(),
{
    if cells.len() > 0 {
        let front = cells.drop_last();
        lemma_present_all(front);
        lemma_present_bound(front);
        if present(cells) == cells.len() {
            assert forall|i: int| 0 <= i < cells.len() implies (#[trigger] cells[i]) is Some by {
                if i < front.len() {
                    assert(front[i] == cells[i]);
                }
            }
        }
        if forall|i: int| 0 <= i < cells.len() ==> (#[trigger] cells[i]) is Some {
            assert forall|i: int| 0 <= i < front.len() implies (#[trigger] front[i]) is Some by {
                assert(front[i] == cells[i]);
            }
            assert(cells[cells.len() - 1] is Some);
        }
    }
}

/// Putting a value into one slot changes the count by that slot alone.
proof fn lemma_present_update(cells: Seq<Option<EncodableIds>>, i: int, v: Option<EncodableIds>)
    requires
        0 <= i < cells.len(),
    ensures
        present(cells.update(i, v)) + (if cells[i] is Some {
            1nat
        } else {
            0nat
        }) == present(cells) + (if v is Some {
            1nat
        } else {
            0nat
        }),
    decreases cells.len(),
{
    let after = cells.update(i, v);
    if i == cells.len() - 1 {
        assert(after.drop_last() == cells.drop_last());
    } else {
        assert(after.drop_last() == cells.drop_last().update(i, v));
        lemma_present_update(cells.drop_last(), i, v);
    }
}

/// The place of a cell of the grid, and `None` for any other pair.
pub fn cell_slot(x: RoundDegree, y: RoundDegree) -> (slot: Option<usize>)
    ensures
        slot is Some <==> in_grid(x as int, y as int),
        slot matches Some(s) ==> s == slot_of(x as int, y as int) && s < GRID_CELLS,
{
    if LNG_MIN <= x && x < LNG_END && LAT_MIN <= y && y < LAT_END {
        let column: usize = (x as i32 - LNG_MIN as i32) as usize;
        let row: usize = (y as i32 - LAT_MIN as i32) as usize;
        Some(column * GRID_ROWS + row)
    } else {
        None
    }
}

/// The cell at a place below `GRID_CELLS`.
pub fn slot_cell(slot: usize) -> (cell: RoundLngLat)
    requires
        slot < GRID_CELLS,
    ensures
        in_grid(cell.0 as int, cell.1 as int),
        slot_of(cell.0 as int, cell.1 as int) == slot,
        cell.0 == slot_x(slot as int),
        cell.1 == slot_y(slot as int),
{
    let column: usize = slot / GRID_ROWS;
    let row: usize = slot % GRID_ROWS;
    ((column as i32 + LNG_MIN as i32) as i16, (row as i32 + LAT_MIN as i32) as i16)
}

/// The table from cells to lists of ids.
#[derive(Debug)]
pub struct GridLookup {
    cells: Vec<Option<EncodableIds>>,
    count: usize,
}

impl GridLookup {
    /// The table holds one slot for each cell of the grid, and knows how many
    /// of them hold a list.
    pub closed spec fn wf(&self) -> bool {
        &&& self.cells@.len() == GRID_CELLS
        &&& self.count == present(self.cells@)
    }

    /// The list of the cell `(x, y)`: `None` where the table has none, and
    /// for every pair that is no cell of the grid.
    pub closed spec fn entry(&self, x: int, y: int) -> Option<Seq<Id>> {
        if in_grid(x, y) {
            match self.cells@[slot_of(x, y)] {
                Some(ids) => Some(ids@),
                None => None,
            }
        } else {
            None
        }
    }

    /// The number of cells that have a list.
    pub closed spec fn spec_len(&self) -> nat {
        present(self.cells@)
    }

    /// Whether every cell of the grid has a list.
    pub open spec fn complete(&self) -> bool {
        forall|x: int, y: int| in_grid(x, y) ==> (#[trigger] self.entry(x, y)) is Some
    }

    /// Whether every id in every list is below `n`.
    pub open spec fn ids_below(&self, n: int) -> bool {
        forall|x: int, y: int, i: int|
            self.entry(x, y) is Some && 0 <= i < self.entry(x, y).unwrap().len() ==> (
            #[trigger] self.entry(x, y).unwrap()[i]) < n
    }

    /// A table in which no cell has a list.
    pub fn new() -> (table: GridLookup)
        ensures
            table.wf(),
            table.spec_len() == 0,
            forall|x: int, y: int| (#[trigger] table.entry(x, y)) is None,
    {
        let mut cells: Vec<Option<EncodableIds>> = Vec::new();
        let mut i: usize = 0;
        while i < GRID_CELLS
            invariant
                i <= GRID_CELLS,
                cells@.len() == i,
                present(cells@) == 0,
                forall|k: int| 0 <= k < i ==> (#[trigger] cells@[k]) is None,
            decreases GRID_CELLS - i,
        {
            let ghost before = cells@;
            cells.push(None);
            assert(cells@.drop_last() == before);
            i = i + 1;
        }
        GridLookup { cells, count: 0 }
    }

    /// Gives the cell `(x, y)` the list `ids`, in place of the one it had.
    /// A pair that is no cell of the grid is not stored: the answer says
    /// whether it was.
    pub fn insert(&mut self, x: RoundDegree, y: RoundDegree, ids: EncodableIds) -> (stored: bool)
        requires
            old(self).wf(),
        ensures
            final(self).wf(),
            stored == in_grid(x as int, y as int),
            stored ==> final(self).entry(x as int, y as int) == Some(ids@),
            forall|a: int, b: int|
                !(stored && a == x && b == y) ==> (#[trigger] final(self).entry(a, b)) == old(self).entry(a, b),
            final(self).spec_len() == old(self).spec_len() + (if stored && old(self).entry(
                x as int,
                y as int,
            ) is None {
                1nat
            } else {
                0nat
            }),
    {
        match cell_slot(x, y) {
            None => false,
            Some(slot) => {
                let fresh = self.cells[slot].is_none();
                proof {
                    lemma_present_update(self.cells@, slot as int, Some(ids));
                    lemma_present_bound(self.cells@.update(slot as int, Some(ids)));
                }
                self.cells.set(slot, Some(ids));
                if fresh {
                    self.count = self.count + 1;
                }
                assert forall|a: int, b: int| !(a == x && b == y) implies (
                #[trigger] self.entry(a, b)) == old(self).entry(a, b) by {
                    if in_grid(a, b) {
                        assert(slot_of(a, b) != slot);
                    }
                }
                true
            },
        }
    }

    /// The list of the cell `(x, y)`, if the table has one.
    pub fn get(&self, x: RoundDegree, y: RoundDegree) -> (r: Option<&EncodableIds>)
        requires
            self.wf(),
        ensures
            r is Some == self.entry(x as int, y as int) is Some,
            r matches Some(ids) ==> Some(ids@) == self.entry(x as int, y as int),
    {
        match cell_slot(x, y) {
            None => None,
            Some(slot) => self.cells[slot].as_ref(),
        }
    }

    /// The number of cells that have a list.
    pub fn len(&self) -> (n: usize)
        requires
            self.wf(),
        ensures
            n == self.spec_len(),
            n <= GRID_CELLS,
    {
        proof {
            lemma_present_bound(self.cells@);
        }
        self.count
    }

    /// Whether every cell of the grid has a list.
    pub fn is_complete(&self) -> (b: bool)
        requires
            self.wf(),
        ensures
            b == self.complete(),
    {
        proof {
            self.lemma_complete();
        }
        self.count == GRID_CELLS
    }

    /// Whether every id in every list is below `n`.
    #[verifier::loop_isolation(false)]
    pub fn ids_valid(&self, n: usize) -> (b: bool)
        requires
            self.wf(),
        ensures
            b == self.ids_below(n as int),
    {
        let mut slot: usize = 0;
        while slot < GRID_CELLS
            invariant
                slot <= GRID_CELLS,
                forall|s: int, i: int|
                    0 <= s < slot && self.cells@[s] is Some && 0 <= i < self.cells@[s].unwrap()@.len()
                        ==> (#[trigger] self.cells@[s].unwrap()@[i]) < n,
            decreases GRID_CELLS - slot,
        {
            match &self.cells[slot] {
                None => {},
                Some(ids) => {
                    let list = &ids.0;
                    let mut i: usize = 0;
                    while i < list.len()
                        invariant
                            i <= list@.len(),
                            forall|k: int| 0 <= k < i ==> (#[trigger] list@[k]) < n,
                        decreases list.len() - i,
                    {
                        if list[i] as usize >= n {
                            proof {
                                let x = slot_x(slot as int);
                                let y = slot_y(slot as int);
                                assert(in_grid(x, y) && slot_of(x, y) == slot);
                                assert(self.entry(x, y).unwrap()[i as int] >= n);
                            }
                            return false;
                        }
                        i = i + 1;
                    }
                },
            }
            slot = slot + 1;
        }
        proof {
            assert forall|x: int, y: int, i: int|
                self.entry(x, y) is Some && 0 <= i < self.entry(x, y).unwrap().len() implies (
            #[trigger] self.entry(x, y).unwrap()[i]) < n by {
                let s = slot_of(x, y);
                assert(self.cells@[s].unwrap()@[i] < n);
            }
        }
        true
    }

    /// The table counts no more lists than the grid has cells.
    pub proof fn lemma_bounded(&self)
        requires
            self.wf(),
        ensures
            self.spec_len() <= GRID_CELLS,
    {
        lemma_present_bound(self.cells@);
    }

    /// Every cell of the grid has a list exactly when the table counts
    /// `GRID_CELLS` of them.
    pub proof fn lemma_complete(&self)
        requires
            self.wf(),
        ensures
            self.complete() <==> self.spec_len() == GRID_CELLS,
    {
        lemma_present_all(self.cells@);
        if self.complete() {
            assert forall|i: int| 0 <= i < self.cells@.len() implies (
            #[trigger] self.cells@[i]) is Some by {
                let x = slot_x(i);
                let y = slot_y(i);
                assert(in_grid(x, y) && slot_of(x, y) == i);
                assert(self.entry(x, y) is Some);
            }
        }
        if self.spec_len() == GRID_CELLS {
            assert forall|x: int, y: int| in_grid(x, y) implies (#[trigger] self.entry(
                x,
                y,
            )) is Some by {
                assert(self.cells@[slot_of(x, y)] is Some);
            }
        }
    }
}

/// The most items that ids can tell apart.
pub const MAX_ITEMS: u64 = 0x1_0000_0000;

/// The ids of the items whose flag is set, in ascending order: the item at
/// place `i` has the id `i`.
pub open spec fn hit_ids(flags: Seq<bool>) -> Seq<Id>
    decreases flags.len(),
{
    if flags.len() == 0 {
        Seq::empty()
    } else {
        let front = hit_ids(flags.drop_last());
        if flags.last() {
            front.push((flags.len() - 1) as Id)
        } else {
            front
        }
    }
}

/// `hit_ids` holds no more ids than there are flags, each of them the place
/// of a flag that is set, and in strictly ascending order.
pub proof fn lemma_hit_ids_sound(flags: Seq<bool>)
    requires
        flags.len() <= MAX_ITEMS,
    ensures
        hit_ids(flags).len() <= flags.len(),
        forall|k: int|
            0 <= k < hit_ids(flags).len() ==> (#[trigger] hit_ids(flags)[k]) < flags.len()
                && flags[hit_ids(flags)[k] as int],
        forall|j: int, k: int|
            0 <= j < k < hit_ids(flags).len() ==> hit_ids(flags)[j] < hit_ids(flags)[k],
    decreases flags.len(),
{
    if flags.len() > 0 {
        let front = flags.drop_last();
        lemma_hit_ids_sound(front);
        assert forall|k: int| 0 <= k < hit_ids(flags).len() implies (#[trigger] hit_ids(
            flags,
        )[k]) < flags.len() && flags[hit_ids(flags)[k] as int] by {
            if k < hit_ids(front).len() {
                assert(hit_ids(flags)[k] == hit_ids(front)[k]);
                assert(front[hit_ids(front)[k] as int] == flags[hit_ids(front)[k] as int]);
            }
        }
    }
}

/// `hit_ids` holds the place of every flag that is set.
pub proof fn lemma_hit_ids_complete(flags: Seq<bool>, i: int)
    requires
        flags.len() <= MAX_ITEMS,
        0 <= i < flags.len(),
        flags[i],
    ensures
        hit_ids(flags).contains(i as Id),
    decreases flags.len(),
{
    let front = flags.drop_last();
    if i == flags.len() - 1 {
        assert(hit_ids(flags).last() == i as Id);
    } else {
        lemma_hit_ids_complete(front, i);
        let k = choose|k: int| 0 <= k < hit_ids(front).len() && hit_ids(front)[k] == i as Id;
        assert(hit_ids(flags)[k] == i as Id);
    }
}

/// The list of one cell: the ids of the items whose flag says that their
/// geometry reaches into the cell.
pub fn cell_ids(flags: &Vec<bool>) -> (ids: EncodableIds)
    requires
        flags@.len() <= MAX_ITEMS,
    ensures
        ids@ == hit_ids(flags@),
{
    let mut ids: Vec<Id> = Vec::new();
    let mut i: usize = 0;
    while i < flags.len()
        invariant
            i <= flags@.len() <= MAX_ITEMS,
            ids@ == hit_ids(flags@.take(i as int)),
        decreases flags.len() - i,
    {
        proof {
            assert(flags@.take(i + 1).drop_last() == flags@.take(i as int));
        }
        if flags[i] {
            ids.push(i as Id);
        }
        i = i + 1;
    }
    assert(flags@.take(flags@.len() as int) == flags@);
    EncodableIds(ids)
}

/// The sweep over the grid that builds a table: cell after cell in the order
/// of the slots, each with the flags of the items for that cell.
#[derive(Debug)]
pub struct GridSweep {
    table: GridLookup,
    next: usize,
    item_count: usize,
}

impl GridSweep {
    /// The cells before `next` have their lists, the others have none, and
    /// every id is the place of an item.
    pub closed spec fn wf(&self) -> bool {
        &&& self.table.wf()
        &&& self.next <= GRID_CELLS
        &&& self.item_count <= MAX_ITEMS
        &&& self.table.ids_below(self.item_count as int)
        &&& forall|x: int, y: int|
            (#[trigger] self.table.entry(x, y)) is Some <==> in_grid(x, y) && slot_of(x, y)
                < self.next
    }

    /// The number of cells that the sweep has passed.
    pub closed spec fn passed(&self) -> nat {
        self.next as nat
    }

    /// The number of items that the sweep is for.
    pub closed spec fn spec_item_count(&self) -> nat {
        self.item_count as nat
    }

    /// The list that the sweep has for the cell `(x, y)`.
    pub closed spec fn entry(&self, x: int, y: int) -> Option<Seq<Id>> {
        self.table.entry(x, y)
    }

    /// Whether the sweep has passed every cell.
    pub open spec fn done(&self) -> bool {
        self.passed() == GRID_CELLS
    }

    /// A sweep for `item_count` items that has passed no cell.
    pub fn new(item_count: usize) -> (sweep: GridSweep)
        requires
            item_count <= MAX_ITEMS,
        ensures
            sweep.wf(),
            sweep.passed() == 0,
            sweep.spec_item_count() == item_count,
            forall|x: int, y: int| (#[trigger] sweep.entry(x, y)) is None,
    {
        GridSweep { table: GridLookup::new(), next: 0, item_count }
    }

    /// The cell whose flags the sweep asks for next; `None` when it has
    /// passed them all.
    pub fn pending(&self) -> (cell: Option<RoundLngLat>)
        requires
            self.wf(),
        ensures
            cell is None <==> self.done(),
            cell matches Some(c) ==> in_grid(c.0 as int, c.1 as int) && slot_of(
                c.0 as int,
                c.1 as int,
            ) == self.passed(),
    {
        if self.next < GRID_CELLS {
            Some(slot_cell(self.next))
        } else {
            None
        }
    }

    /// Gives the pending cell its list: the ids of the items whose flag is
    /// set.
    pub fn record(&mut self, flags: &Vec<bool>)
        requires
            old(self).wf(),
            !old(self).done(),
            flags@.len() == old(self).spec_item_count(),
        ensures
            final(self).wf(),
            final(self).passed() == old(self).passed() + 1,
            final(self).spec_item_count() == old(self).spec_item_count(),
            forall|x: int, y: int|
                in_grid(x, y) && slot_of(x, y) == old(self).passed() ==> (#[trigger] final(self).entry(x, y)) == Some(hit_ids(flags@)),
            forall|x: int, y: int|
                !(in_grid(x, y) && slot_of(x, y) == old(self).passed()) ==> (#[trigger] final(self).entry(x, y)) == old(self).entry(x, y),
    {
        let (x, y) = slot_cell(self.next);
        let ids = cell_ids(flags);
        proof {
            lemma_hit_ids_sound(flags@);
        }
        self.table.insert(x, y, ids);
        self.next = self.next + 1;
        proof {
            assert forall|a: int, b: int, i: int|
                self.table.entry(a, b) is Some && 0 <= i < self.table.entry(a, b).unwrap().len() implies (
            #[trigger] self.table.entry(a, b).unwrap()[i]) < self.item_count by {
                if a == x && b == y {
                } else {
                    assert(self.table.entry(a, b) == old(self).table.entry(a, b));
                    assert(old(self).table.entry(a, b).unwrap()[i] < self.item_count);
                }
            }
        }
    }

    /// The table of a sweep that has passed every cell.
    pub fn finish(self) -> (table: GridLookup)
        requires
            self.wf(),
            self.done(),
        ensures
            table.wf(),
            table.complete(),
            table.spec_len() == GRID_CELLS,
            table.ids_below(self.spec_item_count() as int),
            forall|x: int, y: int| (#[trigger] table.entry(x, y)) == self.entry(x, y),
    {
        proof {
            self.table.lemma_complete();
        }
        self.table
    }
}

/// Builds the table for `item_count` items. `hits` holds one row for each
/// cell, in the order of `cell_slot`, and in each row one flag for each item:
/// whether the item's geometry reaches into the cell. Every cell gets a list,
/// an empty one where no flag is set.
pub fn get_lookup_from_geometries(item_count: usize, hits: &Vec<Vec<bool>>) -> (table: GridLookup)
    requires
        item_count <= MAX_ITEMS,
        hits@.len() == GRID_CELLS,
        forall|c: int| 0 <= c < GRID_CELLS ==> (#[trigger] hits@[c])@.len() == item_count,
    ensures
        table.wf(),
        table.complete(),
        table.spec_len() == GRID_CELLS,
        table.ids_below(item_count as int),
        forall|x: int, y: int|
            in_grid(x, y) ==> (#[trigger] table.entry(x, y)) == Some(
                hit_ids(hits@[slot_of(x, y)]@),
            ),
{
    let mut sweep = GridSweep::new(item_count);
    let mut slot: usize = 0;
    while slot < GRID_CELLS
        invariant
            slot <= GRID_CELLS,
            sweep.wf(),
            sweep.passed() == slot,
            sweep.spec_item_count() == item_count,
            hits@.len() == GRID_CELLS,
            forall|c: int| 0 <= c < GRID_CELLS ==> (#[trigger] hits@[c])@.len() == item_count,
            forall|x: int, y: int|
                in_grid(x, y) && slot_of(x, y) < slot ==> (#[trigger] sweep.entry(x, y)) == Some(
                    hit_ids(hits@[slot_of(x, y)]@),
                ),
        decreases GRID_CELLS - slot,
    {
        sweep.record(&hits[slot]);
        slot = slot + 1;
    }
    sweep.finish()
}

/// One entry of the table as the artifact lists it: a cell and its list.
pub struct CellEntry {
    pub x: RoundDegree,
    pub y: RoundDegree,
    pub ids: Seq<Id>,
}

/// The bytes of an entry: the cell's longitude and latitude in two bytes
/// each, then the list.
pub open spec fn entry_bytes(e: CellEntry) -> Seq<u8> {
    i16_bytes(e.x) + i16_bytes(e.y) + ids_bytes(e.ids)
}

/// Reading an entry from the front of `s`.
pub open spec fn parse_entry(s: Seq<u8>) -> Parsed<CellEntry> {
    match parse_i16(s) {
        Ok((x, n)) => match parse_i16(s.skip(n)) {
            Ok((y, m)) => match parse_ids(s.skip(n + m)) {
                Ok((ids, k)) => Ok((CellEntry { x, y, ids }, n + m + k)),
                Err(e) => Err(e),
            },
            Err(e) => Err(e),
        },
        Err(e) => Err(e),
    }
}

/// `entry_bytes` as a value.
pub open spec fn entry_enc() -> spec_fn(CellEntry) -> Seq<u8> {
    |e: CellEntry| entry_bytes(e)
}

/// `parse_entry` as a value.
pub open spec fn entry_item() -> spec_fn(Seq<u8>) -> Parsed<CellEntry> {
    |s: Seq<u8>| parse_entry(s)
}

/// The bytes of a table: the number of its entries, then the entries.
pub open spec fn table_bytes(entries: Seq<CellEntry>) -> Seq<u8> {
    counted_bytes(entries, entry_enc())
}

/// Reading the entries of a table from the front of `s`.
pub open spec fn parse_table(s: Seq<u8>) -> Parsed<Seq<CellEntry>> {
    parse_counted(s, entry_item())
}

/// The list that a run of entries leaves a cell with: that of the last entry
/// for the cell. Entries for pairs that are no cells of the grid count for
/// nothing.
pub open spec fn last_listed(entries: Seq<CellEntry>, x: int, y: int) -> Option<Seq<Id>>
    decreases entries.len(),
{
    if entries.len() == 0 {
        None
    } else if in_grid(x, y) && entries.last().x == x && entries.last().y == y {
        Some(entries.last().ids)
    } else {
        last_listed(entries.drop_last(), x, y)
    }
}

/// The entries of the first `k` slots, in the order of the slots.
spec fn listed(cells: Seq<Option<EncodableIds>>, k: nat) -> Seq<CellEntry>
    decreases k,
{
    if k == 0 {
        Seq::empty()
    } else {
        let front = listed(cells, (k - 1) as nat);
        match cells[k - 1] {
            Some(ids) => front.push(
                CellEntry { x: slot_x(k - 1) as i16, y: slot_y(k - 1) as i16, ids: ids@ },
            ),
            None => front,
        }
    }
}

/// As many entries are listed as slots hold a list.
proof fn lemma_listed_len(cells: Seq<Option<EncodableIds>>, k: nat)
    requires
        k <= cells.len(),
    ensures
        listed(cells, k).len() == present(cells.take(k as int)),
    decreases k,
{
    if k > 0 {
        lemma_listed_len(cells, (k - 1) as nat);
        assert(cells.take(k as int).drop_last() == cells.take(k - 1));
    }
}

/// The entries listed for the first `k` slots leave each cell with the list
/// of its slot, if the slot is among them.
proof fn lemma_listed_last(cells: Seq<Option<EncodableIds>>, k: nat, x: int, y: int)
    requires
        k <= cells.len() == GRID_CELLS,
    ensures
        last_listed(listed(cells, k), x, y) == (if in_grid(x, y) && slot_of(x, y) < k {
            match cells[slot_of(x, y)] {
                Some(ids) => Some(ids@),
                None => None,
            }
        } else {
            None
        }),
    decreases k,
{
    if k > 0 {
        lemma_listed_last(cells, (k - 1) as nat, x, y);
        let front = listed(cells, (k - 1) as nat);
        match cells[k - 1] {
            Some(ids) => {
                let e = CellEntry { x: slot_x(k - 1) as i16, y: slot_y(k - 1) as i16, ids: ids@ };
                assert(front.push(e).drop_last() == front);
                assert(front.push(e).last() == e);
                if in_grid(x, y) && e.x == x && e.y == y {
                    assert(slot_of(x, y) == k - 1);
                }
            },
            None => {},
        }
    }
}

/// An entry is read back as it was written, whatever follows it.
pub proof fn lemma_parse_entry(e: CellEntry, rest: Seq<u8>)
    requires
        e.ids.len() <= usize::MAX,
    ensures
        parse_entry(entry_bytes(e) + rest) == Ok::<(CellEntry, int), CodecError>(
            (e, entry_bytes(e).len() as int),
        ),
{
    let all = entry_bytes(e) + rest;
    lemma_parse_i16(e.x, i16_bytes(e.y) + ids_bytes(e.ids) + rest);
    lemma_parse_i16(e.y, ids_bytes(e.ids) + rest);
    lemma_parse_ids(e.ids, rest);
    assert(all == i16_bytes(e.x) + (i16_bytes(e.y) + ids_bytes(e.ids) + rest));
    assert(all.skip(2) == i16_bytes(e.y) + (ids_bytes(e.ids) + rest));
    assert(all.skip(4) == ids_bytes(e.ids) + rest);
}

/// A run of entries is read back as it was written, whatever follows it.
pub proof fn lemma_parse_table(entries: Seq<CellEntry>, rest: Seq<u8>)
    requires
        entries.len() <= usize::MAX,
        forall|i: int| 0 <= i < entries.len() ==> (#[trigger] entries[i]).ids.len() <= usize::MAX,
    ensures
        parse_table(table_bytes(entries) + rest) == Ok::<(Seq<CellEntry>, int), CodecError>(
            (entries, table_bytes(entries).len() as int),
        ),
{
    assert forall|i: int| 0 <= i < entries.len() implies reads_back(
        #[trigger] entries[i],
        entry_enc(),
        entry_item(),
    ) by {
        let e = entries[i];
        assert forall|tail: Seq<u8>| #[trigger]
            entry_item()(entry_enc()(e) + tail) == Ok::<(CellEntry, int), CodecError>(
                (e, entry_enc()(e).len() as int),
            ) by {
            lemma_parse_entry(e, tail);
        }
    }
    lemma_parse_counted(entries, rest, entry_enc(), entry_item());
}

impl GridLookup {
    /// The entries of the first `k` slots, in the order of the slots: each
    /// cell that has a list, with its list.
    pub open spec fn listed_cells(&self, k: nat) -> Seq<CellEntry>
        decreases k,
    {
        if k == 0 {
            Seq::empty()
        } else {
            let front = self.listed_cells((k - 1) as nat);
            match self.entry(slot_x(k - 1), slot_y(k - 1)) {
                Some(ids) => front.push(
                    CellEntry { x: slot_x(k - 1) as i16, y: slot_y(k - 1) as i16, ids },
                ),
                None => front,
            }
        }
    }

    /// The entries of the table, in the order of their slots.
    pub open spec fn entries(&self) -> Seq<CellEntry> {
        self.listed_cells(GRID_CELLS as nat)
    }

    /// The entries are those of the slots that hold a list.
    proof fn lemma_listed_cells(&self, k: nat)
        requires
            self.wf(),
            k <= GRID_CELLS,
        ensures
            self.listed_cells(k) == listed(self.cells@, k),
        decreases k,
    {
        if k > 0 {
            self.lemma_listed_cells((k - 1) as nat);
            let x = slot_x(k - 1);
            let y = slot_y(k - 1);
            assert(in_grid(x, y) && slot_of(x, y) == k - 1);
        }
    }

    /// Only a cell of the grid has a list.
    pub proof fn lemma_entry_in_grid(&self, x: int, y: int)
        ensures
            self.entry(x, y) is Some ==> in_grid(x, y),
    {
    }

    /// The entries are the lists of the table: as many as it counts, and the
    /// cell of each is left with its list.
    pub proof fn lemma_entries(&self)
        requires
            self.wf(),
        ensures
            self.entries().len() == self.spec_len(),
            forall|x: int, y: int| last_listed(self.entries(), x, y) == #[trigger] self.entry(x, y),
            forall|i: int|
                0 <= i < self.entries().len() ==> (#[trigger] self.entries()[i]).ids.len()
                    <= usize::MAX,
    {
        self.lemma_listed_cells(GRID_CELLS as nat);
        lemma_listed_len(self.cells@, GRID_CELLS as nat);
        assert(self.cells@.take(GRID_CELLS as int) == self.cells@);
        assert forall|x: int, y: int| last_listed(self.entries(), x, y) == #[trigger] self.entry(
            x,
            y,
        ) by {
            lemma_listed_last(self.cells@, GRID_CELLS as nat, x, y);
        }
        lemma_listed_fits(self.cells@, GRID_CELLS as nat);
    }

    /// Appends the bytes of the table to `out`: the number of cells that have
    /// a list, then each such cell with its list, in the order of the slots.
    pub fn encode(&self, out: &mut Vec<u8>)
        requires
            self.wf(),
        ensures
            final(out)@ == old(out)@ + table_bytes(self.entries()),
    {
        proof {
            self.lemma_listed_cells(GRID_CELLS as nat);
            lemma_listed_len(self.cells@, GRID_CELLS as nat);
            assert(self.cells@.take(GRID_CELLS as int) == self.cells@);
        }
        put_usize(out, self.count);
        let ghost start = out@;
        let mut slot: usize = 0;
        while slot < GRID_CELLS
            invariant
                slot <= GRID_CELLS,
                self.cells@.len() == GRID_CELLS,
                out@ == start + repeat_bytes(listed(self.cells@, slot as nat), entry_enc()),
            decreases GRID_CELLS - slot,
        {
            match &self.cells[slot] {
                None => {},
                Some(ids) => {
                    let (x, y) = slot_cell(slot);
                    let ghost e = CellEntry { x, y, ids: ids@ };
                    let ghost before = out@;
                    put_i16(out, x);
                    put_i16(out, y);
                    ids.encode(out);
                    proof {
                        let front = listed(self.cells@, slot as nat);
                        assert(out@ == before + entry_bytes(e));
                        assert(front.push(e).drop_last() == front);
                        assert(front.push(e).last() == e);
                    }
                },
            }
            slot = slot + 1;
        }
    }

    /// Reads a table at `pos`. Of two entries for one cell the later one
    /// stays; an entry for a pair that is no cell of the grid is read and
    /// dropped.
    #[verifier::loop_isolation(false)]
    pub fn decode(bytes: &[u8], pos: usize) -> (r: Result<(GridLookup, usize), CodecError>)
        requires
            pos <= bytes@.len(),
        ensures
            match parse_table(bytes@.skip(pos as int)) {
                Ok((entries, n)) => r matches Ok((table, p)) && table.wf() && p == pos + n && pos
                    <= p <= bytes@.len() && forall|x: int, y: int|
                    (#[trigger] table.entry(x, y)) == last_listed(entries, x, y),
                Err(e) => r matches Err(f) && f == e,
            },
    {
        let (count, start) = match take_usize(bytes, pos) {
            Err(e) => {
                return Err(e);
            },
            Ok(x) => x,
        };
        let ghost s = bytes@.skip(start as int);
        proof {
            lemma_skip_skip(bytes@, pos as int, 8);
        }
        let mut table = GridLookup::new();
        let ghost mut entries: Seq<CellEntry> = Seq::empty();
        let mut p: usize = start;
        let mut i: usize = 0;
        while i < count
            invariant
                i <= count,
                start <= p <= bytes@.len(),
                table.wf(),
                parse_repeat(s, i as nat, entry_item()) == Ok::<(Seq<CellEntry>, int), CodecError>(
                    (entries, p - start),
                ),
                forall|x: int, y: int| (#[trigger] table.entry(x, y)) == last_listed(entries, x, y),
            decreases count - i,
        {
            proof {
                lemma_skip_skip(bytes@, start as int, p - start);
            }
            let (x, p1) = match take_i16(bytes, p) {
                Err(e) => {
                    proof {
                        assert(parse_repeat(s, (i + 1) as nat, entry_item()) is Err);
                        lemma_parse_repeat_err(s, (i + 1) as nat, count as nat, entry_item());
                    }
                    return Err(e);
                },
                Ok(v) => v,
            };
            proof {
                lemma_skip_skip(bytes@, p as int, 2);
            }
            let (y, p2) = match take_i16(bytes, p1) {
                Err(e) => {
                    proof {
                        assert(parse_repeat(s, (i + 1) as nat, entry_item()) is Err);
                        lemma_parse_repeat_err(s, (i + 1) as nat, count as nat, entry_item());
                    }
                    return Err(e);
                },
                Ok(v) => v,
            };
            proof {
                lemma_skip_skip(bytes@, p as int, 4);
            }
            let (ids, p3) = match EncodableIds::decode(bytes, p2) {
                Err(e) => {
                    proof {
                        assert(parse_repeat(s, (i + 1) as nat, entry_item()) is Err);
                        lemma_parse_repeat_err(s, (i + 1) as nat, count as nat, entry_item());
                    }
                    return Err(e);
                },
                Ok(v) => v,
            };
            proof {
                let e = CellEntry { x, y, ids: ids@ };
                let ghost before = entries;
                entries = entries.push(e);
                assert(entries.drop_last() == before);
                assert(entries.last() == e);
            }
            table.insert(x, y, ids);
            p = p3;
            i = i + 1;
        }
        Ok((table, p))
    }
}

/// The lists of the entries that are listed fit a machine word, as every
/// list does that is held in memory.
proof fn lemma_listed_fits(cells: Seq<Option<EncodableIds>>, k: nat)
    requires
        k <= cells.len(),
    ensures
        forall|i: int|
            0 <= i < listed(cells, k).len() ==> (#[trigger] listed(cells, k)[i]).ids.len()
                <= usize::MAX,
    decreases k,
{
    if k > 0 {
        lemma_listed_fits(cells, (k - 1) as nat);
        let front = listed(cells, (k - 1) as nat);
        match cells[k - 1] {
            Some(ids) => {
                assert(ids.0@.len() == ids.0.len());
                assert forall|i: int| 0 <= i < listed(cells, k).len() implies (#[trigger] listed(
                    cells,
                    k,
                )[i]).ids.len() <= usize::MAX by {
                    if i < front.len() {
                        assert(listed(cells, k)[i] == front[i]);
                    }
                }
            },
            None => {},
        }
    }
}

/// A table is read back as it was written: reading its bytes gives its
/// entries, and they leave every cell with the list it had.
pub proof fn lemma_table_round_trip(table: GridLookup, rest: Seq<u8>)
    requires
        table.wf(),
    ensures
        parse_table(table_bytes(table.entries()) + rest) == Ok::<(Seq<CellEntry>, int), CodecError>(
            (table.entries(), table_bytes(table.entries()).len() as int),
        ),
        forall|x: int, y: int| last_listed(table.entries(), x, y) == #[trigger] table.entry(x, y),
{
    table.lemma_entries();
    table.lemma_bounded();
    lemma_parse_table(table.entries(), rest);
}

/// The bytes of a table are read back as its entries, and they leave every
/// cell with the list it had.
pub proof fn lemma_table_bytes_decode(table: GridLookup)
    requires
        table.wf(),
    ensures
        parse_table(table_bytes(table.entries())) == Ok::<(Seq<CellEntry>, int), CodecError>(
            (table.entries(), table_bytes(table.entries()).len() as int),
        ),
        forall|x: int, y: int| last_listed(table.entries(), x, y) == #[trigger] table.entry(x, y),
{
    lemma_table_round_trip(table, Seq::empty());
    assert(table_bytes(table.entries()) + Seq::<u8>::empty() == table_bytes(table.entries()));
}

} // verus!
