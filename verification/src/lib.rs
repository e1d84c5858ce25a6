//! Matching rounds between students and colleges over one admission year.
//!
//! Students apply to colleges within bands around their own score and sit an
//! exam at each. Private colleges make first offers to the best of their
//! applicants, students answer, public colleges make their offers, students
//! that hold offers decide, private colleges fill up from their waitlists, and
//! students decide on those offers. Every event is a bit of the status byte
//! of its pair of student and college; the status of all pairs is kept as a
//! sparse matrix and brought up to date by merging each round into it.
//!
//! - [`flags`]: the events and the status bytes they add up to.
//! - [`matrix`], [`reduce`]: the sparse status matrix, and how the lists that
//!   the agents emit become one.
//! - [`ranking`], [`offer`]: whom a college with a quota makes an offer to.
//! - [`band`], [`choice`]: which colleges a student draws from, and which
//!   college of its row of the status it likes best.
//! - [`stream`]: a random stream for each agent.
//! - [`config`], [`college`], [`student`], [`univ`]: the run and its agents.
//! - [`round`], [`settle`], [`year`]: the rounds of a year, its end, and the
//!   whole year in one step.
//! - [`ledger`]: what holds of the status throughout: every status is one of
//!   the known ones, and nobody is enrolled twice.
//! - [`replay`]: a year that is run twice on colleges and students that are
//!   alike comes out the same.
//! - [`plan`]: no college makes more offers, or enrols more students, than
//!   it planned.
//! - [`ratio`], [`report`]: rounding of quotients, and the log of a student as
//!   a line of text.

pub mod band;
pub mod choice;
pub mod college;
pub mod config;
pub mod flags;
pub mod ledger;
pub mod matrix;
pub mod offer;
pub mod plan;
pub mod ranking;
pub mod ratio;
pub mod reduce;
pub mod replay;
pub mod report;
pub mod round;
pub mod settle;
pub mod stream;
pub mod student;
pub mod univ;
pub mod year;
