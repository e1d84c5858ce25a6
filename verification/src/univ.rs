//! A university as an earlier list of universities has it.

use crate::college::spec_scale;
use vstd::prelude::*;

verus! {

/// A university of the list.
#[derive(Debug, Clone)]
pub struct Univ {
    /// The number of the university in the catalogue.
    pub uid: usize,
    /// The category: 1 national, 2 public, 3 private.
    pub institute: u8,
    /// The number of the prefecture.
    pub pref: u8,
    /// The capacity of the whole university.
    pub capa: u32,
    /// The score of the university, in thousandths of a point.
    pub dev: i32,
    /// The places for new students.
    pub enroll: u32,
    /// Offers for each enrolment, in thousandths.
    pub over_rate: u32,
    /// The students that got an offer.
    pub s_vec: Vec<usize>,
}

impl Univ {
    /// The size class of the university: large from 8000 of capacity, medium
    /// from 4000, small under that.
    pub fn univ_scale(&self) -> (scale: usize)
        ensures
            scale == spec_scale(self.capa),
    {
        if self.capa >= 8000 {
            0
        } else if self.capa >= 4000 {
            1
        } else {
            2
        }
    }
}

} // verus!
