//! The parameters of a run. Rates are whole thousandths: 1200 stands for 1.2.

use std::collections::HashMap;
use vstd::prelude::*;

verus! {

/// The fixed parameters of a run.
#[derive(Debug, Clone)]
pub struct Config {
    /// The number of students of each year.
    pub student_number: Vec<usize>,
    /// The seed of the root generator.
    pub random_seed: u64,
    /// Lowest and highest score of a public college that a student applies
    /// to, in whole points relative to its own score.
    pub national_range: [i32; 2],
    /// The lower edge of each rank of private colleges, in whole points
    /// relative to the student's score.
    pub college_rank_lower: [i32; 3],
    /// The upper edge of each rank.
    pub college_rank_upper: [i32; 3],
    /// How many colleges a student picks from each rank, for each of the two
    /// application patterns.
    pub college_rank_select_number: [[usize; 3]; 2],
    /// The share of a private college's offers that it keeps back for the
    /// waitlist, in thousandths.
    pub enroll_add_rate: u32,
    /// How far under a college's own score a waitlist offer may go, in score
    /// units; zero for no floor.
    pub enroll_add_lower: i32,
    /// The number of years to run.
    pub epochs: i32,
    /// The calendar year of the first year.
    pub start_year: usize,
    /// Whether colleges are picked with a chance in proportion to their
    /// places, not all alike.
    pub college_select_by_enroll: bool,
    /// Whether the enrolment limits go on changing after 2018.
    pub small_college_support: bool,
    /// Whether a college's score follows the scores of those it enrolled.
    pub update_dev: bool,
    /// For each year after the first, the places and the capacity that the
    /// colleges get, by the number of the college in the catalogue.
    pub enroll_capa_dics: Vec<HashMap<usize, (u32, u32)>>,
    /// Whether `enroll_capa_dics` is in force.
    pub grounding: bool,
    /// The enrolment limits from the eighth table year on, by size of
    /// college, in thousandths.
    pub new_limits: [u32; 3],
    /// Which of the two ways to work out a quota is used: 2 for the one by
    /// yield, anything else for the one by last year's excess.
    pub enroll_algo_version: i32,
    /// The yield assumed of a college without figures, in thousandths.
    pub mean_yield_rate: u32,
    /// The score that a weaker student is taken to have when its bands are
    /// worked out, if there is to be one: the low end of the population.
    pub score_floor: Option<i32>,
    /// The score that a stronger student is taken to have when its bands are
    /// worked out, if there is to be one: the high end of the population.
    pub score_ceiling: Option<i32>,
}

/// The most that a college of a size may enrol over its places in a table
/// year, in thousandths: rows 0 to 6 are fixed, row 7 is `new_limits`.
pub open spec fn spec_limit(new_limits: [u32; 3], row: int, scale: int) -> u32 {
    if row == 0 {
        if scale == 0 {
            1200
        } else {
            1300
        }
    } else if row == 1 {
        if scale == 0 {
            1170
        } else if scale == 1 {
            1270
        } else {
            1300
        }
    } else if row == 2 {
        if scale == 0 {
            1140
        } else if scale == 1 {
            1240
        } else {
            1300
        }
    } else if row <= 6 {
        if scale == 0 {
            1100
        } else if scale == 1 {
            1200
        } else {
            1300
        }
    } else {
        new_limits[scale]
    }
}

/// The table rows in force before and in a calendar year.
pub open spec fn spec_limit_rows(year: int, small_college_support: bool) -> (int, int) {
    let last: int = if small_college_support {
        2022
    } else {
        2018
    };
    if year <= 2015 {
        (0, 0)
    } else if year <= last {
        (year - 2016, year - 2015)
    } else {
        (last - 2015, last - 2015)
    }
}

/// What is wrong with a configuration.
#[derive(Debug, Clone, Copy, PartialEq, Eq, Structural)]
pub enum ConfigError {
    /// The share of offers kept back for the waitlist is more than a whole.
    Rate,
    /// The number of years is negative, or a year has no number of students.
    Years,
    /// A range of scores has its lower edge over its upper edge.
    Range,
    /// A year after the first has no list of places and capacities, though
    /// the run is to set them.
    Grants,
}

impl Config {
    /// The category of a private college.
    pub const PRIVATE: u8 = 3;

    /// The rates are shares of a whole.
    pub open spec fn wf(&self) -> bool {
        self.enroll_add_rate <= 1000
    }

    /// Every year has a number of students.
    pub open spec fn years_ok(&self) -> bool {
        0 <= self.epochs <= self.student_number@.len()
    }

    /// No range of scores has its lower edge over its upper edge.
    pub open spec fn ranges_ok(&self) -> bool {
        &&& self.national_range[0] <= self.national_range[1]
        &&& forall|r: int|
            0 <= r < 3 ==> #[trigger] self.college_rank_lower[r] <= self.college_rank_upper[r]
    }

    /// Every year after the first has a table of places and capacities, where
    /// the run is to set them.
    pub open spec fn grants_ok(&self) -> bool {
        self.grounding ==> self.epochs <= self.enroll_capa_dics@.len() + 1
    }

    /// Tells what is wrong with the configuration, if anything: first of the
    /// rates, then of the years, then of the ranges, then of the grants.
    pub fn validate(&self) -> (checked: Result<(), ConfigError>)
        ensures
            match checked {
                Ok(_) => self.wf() && self.years_ok() && self.ranges_ok() && self.grants_ok(),
                Err(ConfigError::Rate) => !self.wf(),
                Err(ConfigError::Years) => self.wf() && !self.years_ok(),
                Err(ConfigError::Range) => self.wf() && self.years_ok() && !self.ranges_ok(),
                Err(ConfigError::Grants) => self.wf() && self.years_ok() && self.ranges_ok()
                    && !self.grants_ok(),
            },
    {
        if self.enroll_add_rate > 1000 {
            return Err(ConfigError::Rate);
        }
        if self.epochs < 0 || self.epochs as usize > self.student_number.len() {
            return Err(ConfigError::Years);
        }
        if self.national_range[0] > self.national_range[1] {
            return Err(ConfigError::Range);
        }
        let mut r: usize = 0;
        while r < 3
            invariant
                r <= 3,
                self.wf(),
                self.years_ok(),
                forall|i: int|
                    0 <= i < r ==> #[trigger] self.college_rank_lower[i] <= self.college_rank_upper[i],
            decreases 3 - r,
        {
            if self.college_rank_lower[r] > self.college_rank_upper[r] {
                assert(!(self.college_rank_lower[r as int] <= self.college_rank_upper[r as int]));
                return Err(ConfigError::Range);
            }
            r += 1;
        }
        if self.grounding && self.epochs as usize > 0 && self.epochs as usize - 1
            > self.enroll_capa_dics.len() {
            return Err(ConfigError::Grants);
        }
        Ok(())
    }

    /// The score that counts for the bands of a student: its own, raised to
    /// the floor and then lowered to the ceiling where the run has them.
    pub open spec fn spec_effective_score(&self, score: i32) -> i32 {
        let raised = match self.score_floor {
            Some(floor) => if score < floor {
                floor
            } else {
                score
            },
            None => score,
        };
        match self.score_ceiling {
            Some(ceiling) => if raised > ceiling {
                ceiling
            } else {
                raised
            },
            None => raised,
        }
    }

    /// The score that counts for the bands of a student.
    pub fn effective_score(&self, score: i32) -> (effective: i32)
        ensures
            effective == self.spec_effective_score(score),
    {
        let raised = match self.score_floor {
            Some(floor) => if score < floor {
                floor
            } else {
                score
            },
            None => score,
        };
        match self.score_ceiling {
            Some(ceiling) => if raised > ceiling {
                ceiling
            } else {
                raised
            },
            None => raised,
        }
    }

    /// The enrolment limit of a table row and a size of college.
    pub fn limit(&self, row: usize, scale: usize) -> (rate: u32)
        requires
            row <= 7,
            scale <= 2,
        ensures
            rate == spec_limit(self.new_limits, row as int, scale as int),
    {
        if row == 0 {
            if scale == 0 {
                1200
            } else {
                1300
            }
        } else if row == 1 {
            if scale == 0 {
                1170
            } else if scale == 1 {
                1270
            } else {
                1300
            }
        } else if row == 2 {
            if scale == 0 {
                1140
            } else if scale == 1 {
                1240
            } else {
                1300
            }
        } else if row <= 6 {
            if scale == 0 {
                1100
            } else if scale == 1 {
                1200
            } else {
                1300
            }
        } else {
            self.new_limits[scale]
        }
    }

    /// The table rows in force before and in a calendar year.
    pub fn limit_rows(&self, year: usize) -> (rows: (usize, usize))
        ensures
            rows.0 <= rows.1 <= 7,
            (rows.0 as int, rows.1 as int) == spec_limit_rows(year as int, self.small_college_support),
    {
        let last: usize = if self.small_college_support {
            2022
        } else {
            2018
        };
        if year <= 2015 {
            (0, 0)
        } else if year <= last {
            (year - 2016, year - 2015)
        } else {
            (last - 2015, last - 2015)
        }
    }
}

} // verus!
