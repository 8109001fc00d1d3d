use vstd::prelude::*;

verus! {

#[verifier::external_type_specification]
#[verifier::external_body]
pub struct ExHexLayout(hexx::HexLayout);

/// Relies on the derived `Clone` of hexx's `HexLayout`, which copies its
/// orientation, origin and scale field by field.
pub assume_specification[ <hexx::HexLayout as core::clone::Clone>::clone ](
    layout: &hexx::HexLayout,
) -> (r: hexx::HexLayout)
    ensures
        r == *layout,
;

/// Relies on hexx's `HexLayout::default`, the layout of the default orientation.
pub assume_specification[ <hexx::HexLayout as core::default::Default>::default ]() -> hexx::HexLayout;

/// An axial hex-grid coordinate pair.
#[derive(Clone, Copy, Debug, Default, PartialEq, Eq, Structural, Hash)]
pub struct Location {
    pub x: i32,
    pub y: i32,
}

impl Location {
    pub fn from_pair(value: (i32, i32)) -> (r: Location)
        ensures
            r == (Location { x: value.0, y: value.1 }),
    {
        Location { x: value.0, y: value.1 }
    }
}

/// The map root's own attribute: the geometry of its hex grid.
#[derive(Debug)]
pub struct HexMap {
    pub layout: hexx::HexLayout,
}

impl HexMap {
    pub fn new() -> (r: HexMap) {
        HexMap { layout: hexx::HexLayout::default() }
    }

    /// A copy of this map with the same layout.
    pub fn duplicate(&self) -> (r: HexMap)
        ensures
            r == *self,
    {
        HexMap { layout: self.layout.clone() }
    }
}

/// A named layer; its tile instances are its children in the object graph.
#[derive(Debug)]
pub struct Layer {
    pub name: String,
}

impl Layer {
    pub fn new(name: String) -> (r: Layer)
        ensures
            r.name@ == name@,
    {
        Layer { name }
    }
}

} // verus!
