//! The colleges, and how each of them decides on its offers.

use crate::config::{spec_limit, spec_limit_rows, Config};
use crate::flags::{R_ADMISSION_1ST, R_ADMISSION_RSV, R_FAILED};
use crate::offer::{backfill, backfill_limit, is_backfill, offer, offered};
use crate::ranking::{lemma_rising, rising, rising_order};
use crate::ratio::{ceil_ratio, product, ratio_ceiled, ratio_rounded, round_ratio, Fraction};
use crate::student::Student;
use vstd::prelude::*;

verus! {

/// A college as it stands in one year.
#[derive(Debug, Clone)]
pub struct College {
    /// How many years the college has been through.
    pub epoch: usize,
    /// The number of the college in the catalogue.
    pub cid: usize,
    /// The category: 1 national, 2 public, 3 private.
    pub institute: u8,
    /// The capacity of the whole college.
    pub capa: u32,
    /// The places for new students.
    pub enroll: u32,
    /// Offers for each enrolment in the year before, as a fraction.
    pub over_rate: Fraction,
    /// The applicants of the year before.
    pub applicant_num: u32,
    /// The offers of the year before.
    pub passed_num: u32,
    /// The enrolments of the year before.
    pub adm_num: u32,
    /// The size class: 0 large, 1 medium, 2 small.
    pub own_scale: usize,
    /// The enrolment limit now in force, in thousandths.
    pub current_rate: u32,
    /// The score of the college, in thousandths of a point.
    pub score: i32,
    /// The place of the college in the list of the year, which rises with the score.
    pub index: usize,
    /// The students that got a first offer this year.
    pub s_vec: Vec<usize>,
    /// The number of first offers this year.
    pub new_enroll_num: usize,
    /// The number of offers kept back for the waitlist this year.
    pub add_enroll_num: usize,
    /// The score of the college before the first year and after each year.
    pub dev_history: Vec<i32>,
    /// The enrolments before the first year and of each year.
    pub adm_history: Vec<u32>,
    /// The enrolments for each thousand places, before the first year and of each year.
    pub fillrate_history: Vec<usize>,
}

/// What a year did to one college.
#[derive(Debug, Clone, PartialEq, Eq)]
pub struct CollegeResult {
    /// The year, counted from zero.
    pub epoch: i32,
    /// The place of the college in the list of the year.
    pub index: usize,
    /// The number of the college in the catalogue.
    pub cid: usize,
    /// The category of the college.
    pub institute: u8,
    /// The score of the college in that year.
    pub dev: i32,
    /// The places for new students.
    pub enroll: u32,
    /// Offers for each enrolment in the year before.
    pub over_rate: Fraction,
    /// The applicants.
    pub apply_count: u32,
    /// First offers turned down without a deposit.
    pub decline1: u32,
    /// Waitlist offers turned down.
    pub decline2: u32,
    /// First offers, of private and public colleges.
    pub enroll_1st_count: u32,
    /// Waitlist offers.
    pub enroll_add_count: u32,
    /// Deposits paid for offers that were not taken up.
    pub paid_only_count: u32,
    /// Enrolments on a first offer.
    pub admisson_1st: u32,
    /// Enrolments on an offer that was held.
    pub admisson_rsv: u32,
    /// Enrolments from the waitlist.
    pub admisson_add: u32,
    /// All enrolments.
    pub admissons: u32,
    /// The mean exam score of those enrolled, in thousandths of a point, and
    /// zero where nobody enrolled.
    pub new_deviation: i32,
    /// All deposits: those of the enrolled and those not taken up.
    pub payments: u32,
}

/// Places and capacity that a college is given for a later year.
#[derive(Debug, Clone, Copy, PartialEq, Eq)]
pub struct EnrollAndCapa {
    /// The number of the college in the catalogue.
    pub cid: usize,
    /// The places for new students.
    pub enroll: u32,
    /// The capacity of the whole college.
    pub capa: u32,
}

/// The size class of a college of the given capacity.
pub open spec fn spec_scale(capa: u32) -> usize {
    if capa >= 8000 {
        0
    } else if capa >= 4000 {
        1
    } else {
        2
    }
}

/// The colleges stand by rising score.
pub open spec fn sorted_by_score(colleges: Seq<College>) -> bool {
    forall|i: int, j: int|
        0 <= i < j < colleges.len() ==> (#[trigger] colleges[i]).score <= (#[trigger] colleges[j]).score
}

/// Each college stands at the place that its index names.
pub open spec fn indexed(colleges: Seq<College>) -> bool {
    forall|i: int| 0 <= i < colleges.len() ==> (#[trigger] colleges[i]).index == i
}

/// The candidates of a college with their exam scores.
pub open spec fn scored(students: Seq<Student>, candidates: Seq<usize>, cid: usize) -> Seq<
    (usize, i32),
> {
    Seq::new(candidates.len(), |k: int| (candidates[k], students[candidates[k] as int].exam(cid)))
}

/// Every candidate is a student of the list who sat the exam of the college.
pub open spec fn all_sat(students: Seq<Student>, candidates: Seq<usize>, cid: usize) -> bool {
    forall|k: int|
        0 <= k < candidates.len() ==> (#[trigger] candidates[k]) < students.len()
            && students[candidates[k] as int].sat(cid)
}

/// The students of a row whose status is `status`, in the order of the row.
pub open spec fn with_status(row: Seq<(usize, u8)>, status: u8) -> Seq<usize>
    decreases row.len(),
{
    if row.len() == 0 {
        Seq::empty()
    } else if row.last().1 == status {
        with_status(row.drop_last(), status).push(row.last().0)
    } else {
        with_status(row.drop_last(), status)
    }
}

/// How many students of a row are enrolled at a private college before the
/// waitlist round: on a first offer or on one that was held.
pub open spec fn enrolled_early(row: Seq<(usize, u8)>) -> int
    decreases row.len(),
{
    if row.len() == 0 {
        0
    } else if row.last().1 == R_ADMISSION_1ST || row.last().1 == R_ADMISSION_RSV {
        enrolled_early(row.drop_last()) + 1
    } else {
        enrolled_early(row.drop_last())
    }
}

/// The score under which a college makes no waitlist offer.
pub open spec fn spec_floor(score: i32, margin: i32) -> Option<i64> {
    if margin == 0 {
        None
    } else {
        Some((score - margin) as i64)
    }
}

/// The scores of the colleges in the order of the list.
pub open spec fn scores_of(colleges: Seq<College>) -> Seq<i32> {
    Seq::new(colleges.len(), |k: int| colleges[k].score)
}

/// The places and capacity that a college gets for its next year, where the
/// run sets them: not after the last year, and only for a college that the
/// table of that year names.
pub open spec fn next_grant(conf: &Config, epoch: usize, cid: usize) -> Option<(u32, u32)> {
    if conf.grounding && epoch + 1 < conf.epochs && epoch < conf.enroll_capa_dics.len()
        && conf.enroll_capa_dics[epoch as int]@.contains_key(cid) {
        Some(conf.enroll_capa_dics[epoch as int]@[cid])
    } else {
        None
    }
}

/// The sum of two counts, kept within the range of a count.
pub open spec fn capped_sum(a: u32, b: u32) -> u32 {
    if a + b > u32::MAX {
        u32::MAX
    } else {
        (a + b) as u32
    }
}

/// The students of a row with a status are students of the row with that
/// status, in the order of the row.
pub proof fn lemma_with_status(row: Seq<(usize, u8)>, status: u8)
    ensures
        with_status(row, status).len() <= row.len(),
        forall|k: int|
            0 <= k < with_status(row, status).len() ==> exists|i: int|
                0 <= i < row.len() && #[trigger] row[i] == (
                    #[trigger] with_status(row, status)[k],
                    status,
                ),
        (forall|i: int, j: int| 0 <= i < j < row.len() ==> (#[trigger] row[i]).0 < (#[trigger] row[j]).0)
            ==> forall|a: int, b: int|
            0 <= a < b < with_status(row, status).len() ==> #[trigger] with_status(row, status)[a]
                < #[trigger] with_status(row, status)[b],
    decreases row.len(),
{
    if row.len() > 0 {
        let front = row.drop_last();
        let last = row.last();
        lemma_with_status(front, status);
        let all = with_status(row, status);
        let part = with_status(front, status);
        assert forall|k: int| 0 <= k < all.len() implies exists|i: int|
            0 <= i < row.len() && #[trigger] row[i] == (#[trigger] all[k], status) by {
            if k < part.len() {
                let i = choose|i: int| 0 <= i < front.len() && #[trigger] front[i] == (part[k], status);
                assert(row[i] == front[i]);
            } else {
                assert(row[row.len() - 1] == (all[k], status));
            }
        }
        if forall|i: int, j: int| 0 <= i < j < row.len() ==> (#[trigger] row[i]).0 < (#[trigger] row[j]).0 {
            assert forall|i: int, j: int| 0 <= i < j < front.len() implies (#[trigger] front[i]).0 < (
            #[trigger] front[j]).0 by {
                assert(front[i] == row[i] && front[j] == row[j]);
            }
            assert forall|a: int, b: int| 0 <= a < b < all.len() implies #[trigger] all[a]
                < #[trigger] all[b] by {
                if b >= part.len() {
                    let i = choose|i: int| 0 <= i < front.len() && #[trigger] front[i] == (part[a], status);
                    assert(row[i] == front[i]);
                    assert(row[i].0 < row[row.len() - 1].0);
                }
            }
        }
    }
}

impl College {
    /// The fields that only a year's end changes are the same in both.
    pub open spec fn same_standing(&self, other: &College) -> bool {
        &&& self.epoch == other.epoch
        &&& self.cid == other.cid
        &&& self.institute == other.institute
        &&& self.capa == other.capa
        &&& self.enroll == other.enroll
        &&& self.over_rate == other.over_rate
        &&& self.applicant_num == other.applicant_num
        &&& self.passed_num == other.passed_num
        &&& self.adm_num == other.adm_num
        &&& self.score == other.score
        &&& self.index == other.index
        &&& self.dev_history@ == other.dev_history@
        &&& self.adm_history@ == other.adm_history@
        &&& self.fillrate_history@ == other.fillrate_history@
    }

    /// The fields that the rounds of a year write are the same in both.
    pub open spec fn same_scratch(&self, other: &College) -> bool {
        &&& self.own_scale == other.own_scale
        &&& self.current_rate == other.current_rate
        &&& self.s_vec@ == other.s_vec@
        &&& self.new_enroll_num == other.new_enroll_num
        &&& self.add_enroll_num == other.add_enroll_num
    }

    /// The college is private.
    pub open spec fn is_private(&self) -> bool {
        self.institute == Config::PRIVATE
    }

    /// The enrolment limit that holds for the college in its year.
    pub open spec fn spec_rate(&self, conf: &Config) -> u32 {
        let rows = spec_limit_rows(conf.start_year + self.epoch, conf.small_college_support);
        spec_limit(conf.new_limits, rows.1, spec_scale(self.capa) as int)
    }

    /// The enrolment limit that held the year before.
    pub open spec fn spec_rate_before(&self, conf: &Config) -> u32 {
        let rows = spec_limit_rows(conf.start_year + self.epoch, conf.small_college_support);
        spec_limit(conf.new_limits, rows.0, spec_scale(self.capa) as int)
    }

    /// The number of offers that the college plans for its year. A public
    /// college offers its places. A private college works by yield, or by
    /// last year's excess of offers, as the run says. By yield: places times
    /// limit, divided by the share of last year's offers that led to
    /// enrolment, or by the mean yield where last year's figures are
    /// missing. By excess: places times last year's offers for each
    /// enrolment times the change of the limit. Either is rounded to the
    /// nearest whole number.
    pub open spec fn spec_quota(&self, conf: &Config) -> int {
        if !self.is_private() {
            self.enroll as int
        } else if conf.enroll_algo_version == 2 {
            if self.passed_num == 0 || self.adm_num == 0 {
                ratio_rounded(self.enroll * self.spec_rate(conf) * 1, conf.mean_yield_rate as int)
            } else {
                ratio_rounded(
                    self.enroll * self.spec_rate(conf) * self.passed_num,
                    1000 * self.adm_num * 1,
                )
            }
        } else {
            ratio_rounded(
                self.enroll * self.over_rate.num * self.spec_rate(conf),
                self.over_rate.den * self.spec_rate_before(conf) * 1,
            )
        }
    }

    /// How many of its planned offers a private college keeps back for the waitlist.
    pub open spec fn spec_waitlist_pool(&self, conf: &Config) -> int {
        ratio_rounded(self.spec_quota(conf) * conf.enroll_add_rate, 1000)
    }

    /// The students that a private college makes a waitlist offer to, given its
    /// row of the status matrix: the refill from those it had turned down.
    pub open spec fn spec_waitlist_offers(
        &self,
        conf: &Config,
        students: Seq<Student>,
        row: Seq<(usize, u8)>,
    ) -> Seq<usize> {
        let rejected = scored(students, with_status(row, R_FAILED), self.index);
        crate::offer::refill(
            rejected,
            backfill_limit(
                enrolled_early(row) as usize,
                self.spec_target() as usize,
                self.add_enroll_num,
                rejected,
            ),
            spec_floor(self.score, conf.enroll_add_lower),
        )
    }

    /// The enrolments that a private college aims at: places times limit, rounded up.
    pub open spec fn spec_target(&self) -> int {
        ratio_ceiled(self.enroll * self.current_rate, 1000)
    }

    /// A copy of the college.
    pub fn duplicate(&self) -> (copy: College)
        ensures
            copy.same_standing(self),
            copy.same_scratch(self),
    {
        College {
            epoch: self.epoch,
            cid: self.cid,
            institute: self.institute,
            capa: self.capa,
            enroll: self.enroll,
            over_rate: self.over_rate,
            applicant_num: self.applicant_num,
            passed_num: self.passed_num,
            adm_num: self.adm_num,
            own_scale: self.own_scale,
            current_rate: self.current_rate,
            score: self.score,
            index: self.index,
            s_vec: self.s_vec.clone(),
            new_enroll_num: self.new_enroll_num,
            add_enroll_num: self.add_enroll_num,
            dev_history: self.dev_history.clone(),
            adm_history: self.adm_history.clone(),
            fillrate_history: self.fillrate_history.clone(),
        }
    }

    /// The size class of the college: large from 8000 of capacity, medium from
    /// 4000, small under that.
    pub fn college_scale(&self) -> (scale: usize)
        ensures
            scale == spec_scale(self.capa),
    {
        if self.capa >= 8000 {
            0
        } else if self.capa >= 4000 {
            1
        } else {
            2
        }
    }

    /// Works out the number of offers for this year. A private college notes
    /// its size class and the limit in force on the way.
    pub fn enroll_num(&mut self, conf: &Config) -> (quota: usize)
        ensures
            quota == old(self).spec_quota(conf),
            final(self).same_standing(old(self)),
            final(self).s_vec@ == old(self).s_vec@,
            final(self).new_enroll_num == old(self).new_enroll_num,
            final(self).add_enroll_num == old(self).add_enroll_num,
            old(self).is_private() ==> final(self).own_scale == spec_scale(old(self).capa)
                && final(self).current_rate == old(self).spec_rate(conf),
            !old(self).is_private() ==> final(self).own_scale == old(self).own_scale
                && final(self).current_rate == old(self).current_rate,
    {
        if self.institute != Config::PRIVATE {
            return self.enroll as usize;
        }
        self.own_scale = self.college_scale();
        let year = match conf.start_year.checked_add(self.epoch) {
            Some(y) => y,
            None => usize::MAX,
        };
        let rows = conf.limit_rows(year);
        self.current_rate = conf.limit(rows.1, self.own_scale);
        if conf.enroll_algo_version == 2 {
            if self.passed_num == 0 || self.adm_num == 0 {
                round_ratio(product(self.enroll, self.current_rate, 1), conf.mean_yield_rate as u128)
            } else {
                round_ratio(
                    product(self.enroll, self.current_rate, self.passed_num),
                    product(1000, self.adm_num, 1),
                )
            }
        } else {
            let before = conf.limit(rows.0, self.own_scale);
            round_ratio(
                product(self.enroll, self.over_rate.num, self.current_rate),
                product(self.over_rate.den, before, 1),
            )
        }
    }

    /// How many of `quota` offers are kept back for the waitlist.
    fn waitlist_pool(quota: usize, conf: &Config) -> (pool: usize)
        requires
            conf.wf(),
        ensures
            pool == ratio_rounded(quota * conf.enroll_add_rate, 1000),
            pool <= quota,
    {
        let rate = conf.enroll_add_rate;
        assert(quota * rate <= quota * 1000) by (nonlinear_arith)
            requires
                0 <= rate <= 1000,
                0 <= quota,
        ;
        let n: u128 = (quota as u128) * (rate as u128);
        let pool = round_ratio(n, 1000);
        assert((2 * n + 1000) / 2000 <= quota) by (nonlinear_arith)
            requires
                n <= quota * 1000,
        ;
        pool
    }

    /// The candidates with the scores they reached in the exam of this college.
    fn score_candidates(&self, students: &Vec<Student>, candidates: &Vec<usize>) -> (list: Vec<
        (usize, i32),
    >)
        requires
            all_sat(students@, candidates@, self.index),
        ensures
            list@ == scored(students@, candidates@, self.index),
    {
        let mut list: Vec<(usize, i32)> = Vec::new();
        let mut k: usize = 0;
        while k < candidates.len()
            invariant
                k <= candidates.len(),
                all_sat(students@, candidates@, self.index),
                list@ == scored(students@, candidates@, self.index).take(k as int),
            decreases candidates.len() - k,
        {
            let sid = candidates[k];
            list.push((sid, students[sid].exam_dev(self.index)));
            k += 1;
            assert(list@ =~= scored(students@, candidates@, self.index).take(k as int));
        }
        assert(list@ =~= scored(students@, candidates@, self.index));
        list
    }

    /// First offers of a private college. It works out its number of offers,
    /// keeps a share of them back for the waitlist, and makes the others to
    /// the candidates with the best exam scores.
    pub fn enroll1(&mut self, conf: &Config, students: &Vec<Student>, candidates: &Vec<usize>) -> (admitted:
        Vec<usize>)
        requires
            conf.wf(),
            all_sat(students@, candidates@, old(self).index),
        ensures
            final(self).same_standing(old(self)),
            old(self).is_private() ==> final(self).own_scale == spec_scale(old(self).capa)
                && final(self).current_rate == old(self).spec_rate(conf),
            !old(self).is_private() ==> final(self).own_scale == old(self).own_scale
                && final(self).current_rate == old(self).current_rate,
            final(self).add_enroll_num == old(self).spec_waitlist_pool(conf),
            final(self).new_enroll_num == old(self).spec_quota(conf) - old(self).spec_waitlist_pool(
                conf,
            ),
            final(self).s_vec@ == admitted@,
            admitted@ == offered(
                final(self).new_enroll_num,
                scored(students@, candidates@, old(self).index),
            ),
    {
        let quota = self.enroll_num(conf);
        self.add_enroll_num = College::waitlist_pool(quota, conf);
        self.new_enroll_num = quota - self.add_enroll_num;
        let list = self.score_candidates(students, candidates);
        let admitted = offer(self.new_enroll_num, &list);
        self.s_vec = admitted.clone();
        admitted
    }

    /// Offers of a public college: its places go to the candidates with the
    /// best exam scores.
    pub fn enroll2(&mut self, students: &Vec<Student>, candidates: &Vec<usize>, conf: &Config) -> (admitted:
        Vec<usize>)
        requires
            all_sat(students@, candidates@, old(self).index),
        ensures
            final(self).same_standing(old(self)),
            old(self).is_private() ==> final(self).own_scale == spec_scale(old(self).capa)
                && final(self).current_rate == old(self).spec_rate(conf),
            !old(self).is_private() ==> final(self).own_scale == old(self).own_scale
                && final(self).current_rate == old(self).current_rate,
            final(self).add_enroll_num == old(self).add_enroll_num,
            final(self).new_enroll_num == old(self).spec_quota(conf),
            final(self).s_vec@ == admitted@,
            admitted@ == offered(
                final(self).new_enroll_num,
                scored(students@, candidates@, old(self).index),
            ),
    {
        self.new_enroll_num = self.enroll_num(conf);
        let list = self.score_candidates(students, candidates);
        let admitted = offer(self.new_enroll_num, &list);
        self.s_vec = admitted.clone();
        admitted
    }

    /// Waitlist offers of a private college. `row` is the college's row of
    /// the status matrix: student and status. The college counts who is
    /// enrolled so far, and where that is short of its target it makes
    /// offers to those it had turned down, best first: at most the shortfall
    /// and the pool kept back in the first round together, and none under
    /// its floor, which lies the configured margin under its own score.
    pub fn enroll3(&self, conf: &Config, students: &Vec<Student>, row: &Vec<(usize, u8)>) -> (admitted:
        Vec<usize>)
        requires
            all_sat(students@, with_status(row@, R_FAILED), self.index),
        ensures
            is_backfill(
                admitted@,
                scored(students@, with_status(row@, R_FAILED), self.index),
                backfill_limit(
                    enrolled_early(row@) as usize,
                    self.spec_target() as usize,
                    self.add_enroll_num,
                    scored(students@, with_status(row@, R_FAILED), self.index),
                ),
                spec_floor(self.score, conf.enroll_add_lower),
            ),
            admitted@ == self.spec_waitlist_offers(conf, students@, row@),
    {
        let mut enrolled: usize = 0;
        let mut failed: Vec<usize> = Vec::new();
        let mut k: usize = 0;
        while k < row.len()
            invariant
                k <= row.len(),
                enrolled == enrolled_early(row@.take(k as int)),
                enrolled <= k,
                failed@ == with_status(row@.take(k as int), R_FAILED),
            decreases row.len() - k,
        {
            assert(row@.take(k + 1).drop_last() =~= row@.take(k as int));
            let status = row[k].1;
            if status == R_ADMISSION_1ST || status == R_ADMISSION_RSV {
                enrolled += 1;
            }
            if status == R_FAILED {
                failed.push(row[k].0);
            }
            k += 1;
        }
        assert(row@.take(row.len() as int) =~= row@);
        let target = ceil_ratio(product(self.enroll, self.current_rate, 1), 1000);
        let floor: Option<i64> = if conf.enroll_add_lower == 0 {
            None
        } else {
            Some(self.score as i64 - conf.enroll_add_lower as i64)
        };
        let list = self.score_candidates(students, &failed);
        let admitted = backfill(enrolled, target, self.add_enroll_num, &list, floor);
        proof {
            crate::offer::lemma_refill(
                admitted@,
                list@,
                backfill_limit(enrolled, target, self.add_enroll_num, list@),
                floor,
            );
        }
        admitted
    }

    /// All but the place in the list is the same in both.
    pub open spec fn same_but_index(&self, other: &College) -> bool {
        &&& self.epoch == other.epoch
        &&& self.cid == other.cid
        &&& self.institute == other.institute
        &&& self.capa == other.capa
        &&& self.enroll == other.enroll
        &&& self.over_rate == other.over_rate
        &&& self.applicant_num == other.applicant_num
        &&& self.passed_num == other.passed_num
        &&& self.adm_num == other.adm_num
        &&& self.score == other.score
        &&& self.dev_history@ == other.dev_history@
        &&& self.adm_history@ == other.adm_history@
        &&& self.fillrate_history@ == other.fillrate_history@
        &&& self.same_scratch(other)
    }

    /// The college as it enters its first year: the record, with the
    /// applicants of the year before taken to be as many as the places where
    /// they are not known, and with its score as the start of its history.
    pub open spec fn is_entry_of(&self, record: &College) -> bool {
        &&& self.epoch == record.epoch
        &&& self.cid == record.cid
        &&& self.institute == record.institute
        &&& self.capa == record.capa
        &&& self.enroll == record.enroll
        &&& self.over_rate == record.over_rate
        &&& self.applicant_num == if record.applicant_num == 0 {
            record.enroll
        } else {
            record.applicant_num
        }
        &&& self.passed_num == record.passed_num
        &&& self.adm_num == record.adm_num
        &&& self.score == record.score
        &&& self.dev_history@ == record.dev_history@.push(record.score)
        &&& self.adm_history@ == record.adm_history@.push(0)
        &&& self.fillrate_history@ == record.fillrate_history@.push(0)
        &&& self.same_scratch(record)
    }

    /// The colleges by rising score, equal scores in the order given, each
    /// with its new place as index.
    pub fn arrange(list: &Vec<College>) -> (out: Vec<College>)
        ensures
            out.len() == list.len(),
            forall|i: int|
                0 <= i < out.len() ==> (#[trigger] out[i]).index == i && out[i].same_but_index(
                    &list[rising(scores_of(list@))[i] as int],
                ),
            sorted_by_score(out@),
            indexed(out@),
    {
        let mut scores: Vec<i32> = Vec::new();
        let mut k: usize = 0;
        while k < list.len()
            invariant
                k <= list.len(),
                scores@ == scores_of(list@).take(k as int),
            decreases list.len() - k,
        {
            scores.push(list[k].score);
            k += 1;
            assert(scores@ =~= scores_of(list@).take(k as int));
        }
        assert(scores@ =~= scores_of(list@));
        let order = rising_order(&scores);
        proof {
            lemma_rising(scores@);
        }
        let mut out: Vec<College> = Vec::new();
        let mut i: usize = 0;
        while i < order.len()
            invariant
                i <= order.len(),
                order@ == rising(scores_of(list@)),
                order@.len() == list.len(),
                forall|p: int| 0 <= p < order@.len() ==> (#[trigger] order@[p]) < list.len(),
                out.len() == i,
                forall|p: int|
                    0 <= p < i ==> (#[trigger] out[p]).index == p && out[p].same_but_index(
                        &list[order@[p] as int],
                    ),
            decreases order.len() - i,
        {
            let mut college = list[order[i]].duplicate();
            college.index = i;
            out.push(college);
            i += 1;
        }
        proof {
            assert forall|a: int, b: int| 0 <= a < b < out.len() implies (#[trigger] out[a]).score <= (
            #[trigger] out[b]).score by {
                let x = rising(scores@)[a] as int;
                let y = rising(scores@)[b] as int;
                assert(scores@[x] <= scores@[y]);
            }
        }
        out
    }

    /// The colleges as they enter the first year, by rising score.
    pub fn from_conf(records: &Vec<College>) -> (out: Vec<College>)
        ensures
            out.len() == records.len(),
            forall|i: int|
                0 <= i < out.len() ==> (#[trigger] out[i]).index == i && out[i].is_entry_of(
                    &records[rising(scores_of(records@))[i] as int],
                ),
            sorted_by_score(out@),
            indexed(out@),
    {
        let mut entries: Vec<College> = Vec::new();
        let mut k: usize = 0;
        while k < records.len()
            invariant
                k <= records.len(),
                entries.len() == k,
                forall|p: int| 0 <= p < k ==> (#[trigger] entries[p]).is_entry_of(&records[p]),
            decreases records.len() - k,
        {
            let mut college = records[k].duplicate();
            college.dev_history.push(college.score);
            college.fillrate_history.push(0);
            college.adm_history.push(0);
            if college.applicant_num == 0 {
                college.applicant_num = college.enroll;
            }
            entries.push(college);
            k += 1;
        }
        assert(scores_of(entries@) =~= scores_of(records@));
        let out = College::arrange(&entries);
        proof {
            lemma_rising(scores_of(records@));
            assert forall|i: int| 0 <= i < out.len() implies (#[trigger] out[i]).index == i
                && out[i].is_entry_of(&records[rising(scores_of(records@))[i] as int]) by {
                let p = rising(scores_of(records@))[i] as int;
                assert(entries[p].is_entry_of(&records[p]));
                assert(out[i].same_but_index(&entries[p]));
            }
        }
        out
    }

    /// The college as it goes into the next year, after `result`. Its score
    /// follows the mean exam score of those enrolled where the run says so;
    /// its figures of the year before are those of `result`; its histories
    /// grow by one entry; and it gets new places and capacity where the run
    /// sets them.
    pub fn update(&self, result: &CollegeResult, conf: &Config) -> (next: College)
        requires
            self.epoch < usize::MAX,
        ensures
            next.epoch == self.epoch + 1,
            next.cid == self.cid,
            next.institute == self.institute,
            next.index == self.index,
            next.same_scratch(self),
            next.score == if conf.update_dev {
                result.new_deviation
            } else {
                self.score
            },
            next.adm_num == result.admissons,
            next.passed_num == capped_sum(result.enroll_1st_count, result.enroll_add_count),
            next.applicant_num == result.apply_count,
            next.over_rate == (Fraction { num: result.enroll_1st_count, den: result.admissons }),
            next.dev_history@ == self.dev_history@.push(result.new_deviation),
            next.adm_history@ == self.adm_history@.push(result.admissons),
            next.fillrate_history@ == self.fillrate_history@.push(
                ratio_rounded(result.admissons * 1000, self.enroll as int) as usize,
            ),
            match next_grant(conf, self.epoch, self.cid) {
                Some(grant) => next.enroll == grant.0 && next.capa == grant.1,
                None => next.enroll == self.enroll && next.capa == self.capa,
            },
    {
        let mut college = self.duplicate();
        college.epoch = college.epoch + 1;
        if conf.update_dev {
            college.score = result.new_deviation;
        }
        college.adm_num = result.admissons;
        college.passed_num = match result.enroll_1st_count.checked_add(result.enroll_add_count) {
            Some(sum) => sum,
            None => u32::MAX,
        };
        college.dev_history.push(result.new_deviation);
        assert(result.admissons * 1000 == (result.admissons as u128) * 1000);
        college.fillrate_history.push(
            round_ratio((result.admissons as u128) * 1000, self.enroll as u128),
        );
        college.adm_history.push(result.admissons);
        college.applicant_num = result.apply_count;
        college.over_rate = Fraction { num: result.enroll_1st_count, den: result.admissons };
        if conf.grounding && conf.epochs > 0 && college.epoch < conf.epochs as usize && self.epoch
            < conf.enroll_capa_dics.len() {
            match conf.enroll_capa_dics[self.epoch].get(&self.cid) {
                Some(grant) => {
                    college.enroll = grant.0;
                    college.capa = grant.1;
                },
                None => {},
            }
        }
        college
    }
}

} // verus!
