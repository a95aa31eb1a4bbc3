use super::data::Color;
use vstd::prelude::*;

verus! {

/// The color table of a document.
pub type GlobalColorTable = ColorTable;

/// The color table of one image.
pub type LocalColorTable = ColorTable;

/// An ordered palette. Entry 0 is the first one read.
#[derive(Debug, Clone)]
pub struct ColorTable {
    pub colors: Vec<Color>,
}

impl View for ColorTable {
    type V = Seq<Color>;

    open spec fn view(&self) -> Seq<Color> {
        self.colors@
    }
}

impl ColorTable {
    /// The table with the given entries.
    pub fn new(colors: Vec<Color>) -> (table: Self)
        ensures
            table@ == colors@,
    {
        Self { colors }
    }
}

} // verus!
