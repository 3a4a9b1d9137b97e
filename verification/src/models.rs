//! The records that the analysis works on.

use vstd::prelude::*;

verus! {

/// A calendar date without a time component, held as plain numbers.
#[derive(Clone, Copy, Debug, PartialEq, Eq, Structural)]
pub struct DrawDate {
    pub year: i32,
    pub month: u32,
    pub day: u32,
}

impl DrawDate {
    /// The month and the day lie in the ranges that a calendar allows.
    pub open spec fn well_formed(self) -> bool {
        1 <= self.month <= 12 && 1 <= self.day <= 31
    }

    /// The date that stands in for a stored date that cannot be read.
    pub open spec fn epoch_spec() -> DrawDate {
        DrawDate { year: 1970, month: 1, day: 1 }
    }

    /// 1 January 1970.
    pub fn epoch() -> (date: DrawDate)
        ensures
            date == Self::epoch_spec(),
            date.well_formed(),
    {
        DrawDate { year: 1970, month: 1, day: 1 }
    }
}

/// One historical draw, with its numbers decoded.
#[derive(Clone, Debug, PartialEq, Eq)]
pub struct Draw {
    pub id: i64,
    pub game: String,
    pub draw_date: DrawDate,
    pub numbers: Vec<u8>,
}

/// What a `Draw` is, as mathematical values.
pub struct DrawView {
    pub id: int,
    pub game: Seq<char>,
    pub draw_date: DrawDate,
    pub numbers: Seq<u8>,
}

impl View for Draw {
    type V = DrawView;

    open spec fn view(&self) -> DrawView {
        DrawView {
            id: self.id as int,
            game: self.game@,
            draw_date: self.draw_date,
            numbers: self.numbers@,
        }
    }
}

/// The numbers of each draw of a history, in the order of the history.
pub open spec fn history(draws: Seq<Draw>) -> Seq<Seq<u8>> {
    Seq::new(draws.len(), |i: int| draws[i].numbers@)
}

} // verus!
