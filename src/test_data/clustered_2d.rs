use vstd::prelude::*;

use crate::clustering::single_linkage::Point;

verus! {

/// A labelled point of a two-dimensional data set.
#[derive(Debug, Clone, Copy)]
pub struct Clustered2D {
    pub id: usize,
    pub x: u32,
    pub y: u32,
    /// The category the point belongs to in the labelling.
    pub category: i32,
}

impl Clustered2D {
    /// The point with the same id and the coordinates `[x, y]`.
    pub fn to_point(&self) -> (r: Point)
        ensures
            r.id == self.id,
            r.coordinates@ == seq![self.x, self.y],
    {
        let mut coordinates: Vec<u32> = Vec::new();
        coordinates.push(self.x);
        coordinates.push(self.y);
        assert(coordinates@ =~= seq![self.x, self.y]);
        Point { id: self.id, coordinates }
    }
}

} // verus!
