//! What the items of every corpus have in common.

use crate::geometry::{Geometry, GeometryModel};
use crate::properties::{attributes, Properties, PropertyModel};
use vstd::prelude::*;

verus! {

/// An item with an id and a geometry.
pub trait HasGeometry {
    /// The id of the item: its place in the vector of its corpus.
    spec fn spec_id(&self) -> usize;

    /// The geometry of the item.
    spec fn spec_geometry(&self) -> GeometryModel;

    /// The id of the item.
    fn id(&self) -> (id: usize)
        ensures
            id == self.spec_id(),
    ;

    /// The geometry of the item.
    fn geometry(&self) -> (g: &Geometry)
        ensures
            g@ == self.spec_geometry(),
    ;
}

/// An item that gives its attributes back by name.
pub trait HasProperties {
    /// The attributes of the item, in the order in which it lists them.
    spec fn spec_properties(&self) -> Seq<(Seq<char>, PropertyModel)>;

    /// The attributes of the item.
    fn properties(&self) -> (p: Properties)
        ensures
            attributes(p@) == self.spec_properties(),
    ;
}

/// An item that is a time zone.
pub trait IsTimezone: HasGeometry + HasProperties {
    /// The identifier of the time zone, empty where it has none.
    spec fn spec_identifier(&self) -> Seq<char>;

    /// The identifier of the time zone.
    fn identifier(&self) -> (s: &str)
        ensures
            s@ == self.spec_identifier(),
    ;
}

/// An item that is an administrative region.
pub trait IsAdmin: HasGeometry + HasProperties {
    /// The name of the region.
    spec fn spec_name(&self) -> Seq<char>;

    /// The name of the region.
    fn name(&self) -> (s: &str)
        ensures
            s@ == self.spec_name(),
    ;
}

} // verus!
