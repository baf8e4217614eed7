//! The two byte strings of a corpus: its items and its grid lookup.

use crate::grid::{
    get_lookup_from_geometries, last_listed, parse_table, table_bytes, GridLookup, GRID_CELLS,
    MAX_ITEMS,
};
use crate::query::GeoIndex;
use crate::record::{items_bytes, models, parse_items, ConcreteVec, Record};
use crate::wire::CodecError;
use vstd::prelude::*;

verus! {

/// The bytes of the items of a corpus.
pub fn generate_item_bincode<T: Record>(items: &ConcreteVec<T>) -> (out: Vec<u8>)
    ensures
        out@ == items_bytes::<T>(models(items@)),
{
    let mut out: Vec<u8> = Vec::new();
    items.encode(&mut out);
    assert(Seq::<u8>::empty() + items_bytes::<T>(models(items@)) == items_bytes::<T>(
        models(items@),
    ));
    out
}

/// The bytes of a grid lookup.
pub fn generate_lookup_bincode(table: &GridLookup) -> (out: Vec<u8>)
    requires
        table.wf(),
    ensures
        out@ == table_bytes(table.entries()),
{
    let mut out: Vec<u8> = Vec::new();
    table.encode(&mut out);
    assert(Seq::<u8>::empty() + table_bytes(table.entries()) == table_bytes(table.entries()));
    out
}

/// The two byte strings of a corpus: those of its items, and those of the
/// grid lookup that is built for them from `hits`, which holds for each cell
/// and each item whether the item's geometry reaches into the cell.
pub fn generate_bincodes<T: Record>(items: &ConcreteVec<T>, hits: &Vec<Vec<bool>>) -> (out: (
    Vec<u8>,
    Vec<u8>,
))
    requires
        items@.len() <= MAX_ITEMS,
        hits@.len() == GRID_CELLS,
        forall|c: int| 0 <= c < GRID_CELLS ==> (#[trigger] hits@[c])@.len() == items@.len(),
    ensures
        out.0@ == items_bytes::<T>(models(items@)),
        exists|table: GridLookup|
            table.wf() && table.complete() && table.ids_below(items@.len() as int) && out.1@
                == table_bytes(table.entries()) && forall|x: int, y: int|
                crate::grid::in_grid(x, y) ==> (#[trigger] table.entry(x, y)) == Some(
                    crate::grid::hit_ids(hits@[crate::grid::slot_of(x, y)]@),
                ),
{
    let item_bytes = generate_item_bincode(items);
    let table = get_lookup_from_geometries(items.len(), hits);
    let lookup_bytes = generate_lookup_bincode(&table);
    (item_bytes, lookup_bytes)
}

/// Reads the items of a corpus from the front of `data`. What follows them
/// is not looked at.
pub fn decode_binary_data<T: Record>(data: &[u8]) -> (r: Result<ConcreteVec<T>, CodecError>)
    ensures
        match parse_items::<T>(data@) {
            Ok((ms, n)) => r matches Ok(items) && models(items@) == ms,
            Err(e) => r matches Err(f) && f == e,
        },
{
    assert(data@.skip(0) == data@);
    match ConcreteVec::<T>::decode(data, 0) {
        Ok((items, _)) => Ok(items),
        Err(e) => Err(e),
    }
}

/// Reads a grid lookup from the front of `data`. What follows it is not
/// looked at.
pub fn decode_lookup_data(data: &[u8]) -> (r: Result<GridLookup, CodecError>)
    ensures
        match parse_table(data@) {
            Ok((entries, n)) => r matches Ok(table) && table.wf() && forall|x: int, y: int|
                (#[trigger] table.entry(x, y)) == last_listed(entries, x, y),
            Err(e) => r matches Err(f) && f == e,
        },
{
    assert(data@.skip(0) == data@);
    match GridLookup::decode(data, 0) {
        Ok((table, _)) => Ok(table),
        Err(e) => Err(e),
    }
}

/// Why the two byte strings of a corpus gave no index.
#[derive(Clone, Copy, Debug, PartialEq, Eq, Structural)]
pub enum LoadError {
    /// The bytes of the items could not be decoded.
    Items(CodecError),
    /// The bytes of the grid lookup could not be decoded.
    Lookup(CodecError),
    /// The items are more than ids can tell apart, or the grid lookup holds
    /// an id that is the place of no item.
    InvalidIds,
}

/// What loading the two byte strings of a corpus gives: the items and the
/// lists of the cells, or the reason why there is no index. The items are
/// read first.
pub open spec fn loaded<T: Record>(item_bytes: Seq<u8>, lookup_bytes: Seq<u8>) -> Result<
    (Seq<T::Model>, Seq<crate::grid::CellEntry>),
    LoadError,
> {
    match parse_items::<T>(item_bytes) {
        Err(e) => Err(LoadError::Items(e)),
        Ok((items, _)) => match parse_table(lookup_bytes) {
            Err(e) => Err(LoadError::Lookup(e)),
            Ok((entries, _)) => if items.len() <= MAX_ITEMS && forall|x: int, y: int, i: int|
                last_listed(entries, x, y) is Some && 0 <= i < last_listed(
                    entries,
                    x,
                    y,
                ).unwrap().len() ==> (#[trigger] last_listed(entries, x, y).unwrap()[i])
                    < items.len() {
                Ok((items, entries))
            } else {
                Err(LoadError::InvalidIds)
            },
        },
    }
}

/// Makes the index of a corpus from its two byte strings: decodes the
/// items, then the grid lookup, and joins them.
pub fn load<T: Record>(item_bytes: &[u8], lookup_bytes: &[u8], fast_path: bool) -> (r: Result<
    GeoIndex<T>,
    LoadError,
>)
    ensures
        match loaded::<T>(item_bytes@, lookup_bytes@) {
            Ok((items, entries)) => r matches Ok(index) && index.wf() && models(index.items())
                == items && index.fast_path() == fast_path && forall|x: int, y: int|
                (#[trigger] index.entry(x, y)) == last_listed(entries, x, y),
            Err(e) => r matches Err(f) && f == e,
        },
{
    let items = match decode_binary_data::<T>(item_bytes) {
        Err(e) => {
            return Err(LoadError::Items(e));
        },
        Ok(v) => v,
    };
    let table = match decode_lookup_data(lookup_bytes) {
        Err(e) => {
            return Err(LoadError::Lookup(e));
        },
        Ok(v) => v,
    };
    let ghost entries = parse_table(lookup_bytes@).unwrap().0;
    let ghost count = items@.len();
    assert(models(items@).len() == count);
    match GeoIndex::new(items, table, fast_path) {
        None => {
            proof {
                if count <= MAX_ITEMS {
                    assert(!table.ids_below(count as int));
                    let (x, y, i) = choose|x: int, y: int, i: int|
                        table.entry(x, y) is Some && 0 <= i < table.entry(x, y).unwrap().len()
                            && !((#[trigger] table.entry(x, y).unwrap()[i]) < count);
                    assert(last_listed(entries, x, y) == table.entry(x, y));
                    assert(!(last_listed(entries, x, y).unwrap()[i] < count));
                }
            }
            Err(LoadError::InvalidIds)
        },
        Some(index) => {
            proof {
                assert forall|x: int, y: int, i: int|
                    last_listed(entries, x, y) is Some && 0 <= i < last_listed(
                        entries,
                        x,
                        y,
                    ).unwrap().len() implies (#[trigger] last_listed(entries, x, y).unwrap()[i])
                    < count by {
                    assert(table.entry(x, y) == last_listed(entries, x, y));
                    assert(table.entry(x, y).unwrap()[i] < count);
                }
            }
            Ok(index)
        },
    }
}

} // verus!
