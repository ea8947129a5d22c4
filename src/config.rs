use vstd::prelude::*;

verus! {

/// The blueprints that every player of a game starts with, by name.
#[derive(Clone, Debug)]
pub struct Transformation {
    pub starting_cards: Vec<String>,
}

/// A feature placed on a map tile at start: the tile's coordinates and the
/// name of the feature's blueprint.
#[derive(Clone, Debug)]
pub struct Feature {
    pub x: u8,
    pub y: u8,
    pub feature: String,
}

} // verus!
