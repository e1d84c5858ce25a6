//! One admission year from the applications to its end.

use crate::college::{indexed, sorted_by_score, College, CollegeResult};
use crate::config::Config;
use crate::flags::{spec_is_admitted, ENROLL_1ST, ENROLL_2ND, ENROLL_3RD};
use crate::choice::enrolled_at;
use crate::ledger::{
    all_legal, enrolled_once, legal, lemma_conservation, lemma_decision_merge,
    lemma_decision_settles, lemma_enrolled_alike, lemma_enrolled_here, lemma_first_merge,
    lemma_transposed, lemma_waitlist_merge,
};
use crate::matrix::{lemma_row_entries, merged, row_entries, transposed, within};
use crate::flags::APPLY;
use crate::round::{
    admission1, admission2, admission3, after_application, after_first_decision,
    after_first_offers, after_later_decision, after_public_offers, applicants,
    applications_in_reach, apply, divide_colleges, enroll1, enroll2, enroll3, first_answers,
    first_offers, later_decision, numbered, on_record, public_offers, ready, round_cells,
    waitlist_offers, waitlist_sound,
};
use crate::settle::{count_flag, is_result_of, next_in_order, settle};
use crate::student::{
    application_cap, at_least_one, first_wish, is_group, is_student_result, log_of, member,
    rank_bands,
    reached, ApplyPattern, Student, StudentResult,
};
use vstd::prelude::*;

verus! {

/// Why a year could not be run.
#[derive(Debug, Clone, Copy, PartialEq, Eq, Structural)]
pub enum StepError {
    /// A rate of the configuration is more than a whole.
    Config,
    /// The colleges do not stand by rising score at the places that their
    /// indices name, or are too many.
    Colleges,
    /// The students are not numbered as they stand, have applied before, or
    /// carry too few draws.
    Students,
}

/// The colleges can go into a year: they stand by rising score, each at the
/// place that its index names, and their number and years can be counted.
pub open spec fn roster(colleges: Seq<College>) -> bool {
    &&& indexed(colleges)
    &&& sorted_by_score(colleges)
    &&& colleges.len() < u32::MAX
    &&& forall|c: int| 0 <= c < colleges.len() ==> (#[trigger] colleges[c]).epoch < usize::MAX
}

/// The students can go into a year: they are numbered as they stand, have not
/// applied yet, carry the draws they need, and can be counted.
pub open spec fn cohort(students: Seq<Student>, conf: &Config) -> bool {
    &&& numbered(students)
    &&& ready(students, conf)
    &&& students.len() < u32::MAX
}

/// The course of a year: what each round found and what it left.
pub struct YearTrace {
    /// The public colleges as the students saw them.
    pub nationals: Seq<College>,
    /// The private colleges as the students saw them.
    pub privates: Seq<College>,
    /// The colleges after the first offers.
    pub colleges_first: Seq<College>,
    /// The students after their applications.
    pub students_applied: Seq<Student>,
    /// The students after their first decisions.
    pub students_first: Seq<Student>,
    /// The students after their second decisions.
    pub students_second: Seq<Student>,
    /// The applications, a row for each college.
    pub applications: Map<(int, int), u8>,
    /// The first offers, a row for each student.
    pub first_offers: Map<(int, int), u8>,
    /// The answers to the first offers, a row for each college.
    pub first_answers: Map<(int, int), u8>,
    /// The public offers, a row for each student.
    pub public_offers: Map<(int, int), u8>,
    /// The status after the public offers, a row for each student.
    pub status_first: Map<(int, int), u8>,
    /// The second decisions, a row for each college.
    pub second_decisions: Map<(int, int), u8>,
    /// The status after the second decisions, a row for each college.
    pub status_second: Map<(int, int), u8>,
    /// The waitlist offers, a row for each student.
    pub waitlist_offers: Map<(int, int), u8>,
    /// The status after the waitlist offers, a row for each student.
    pub status_third: Map<(int, int), u8>,
    /// The last decisions, a row for each college.
    pub last_decisions: Map<(int, int), u8>,
    /// The final status, a row for each college.
    pub status: Map<(int, int), u8>,
}

/// The group lists every college of its kind, in the order of the list of
/// all colleges.
pub open spec fn whole_group(group: Seq<College>, colleges: Seq<College>, private: bool) -> bool {
    &&& forall|a: int, b: int|
        0 <= a < b < group.len() ==> (#[trigger] group[a]).index < (#[trigger] group[b]).index
    &&& forall|i: int|
        0 <= i < colleges.len() && (#[trigger] colleges[i]).is_private() == private ==> member(
            group,
            i as usize,
        )
}

/// `trace` is the course of a year from the colleges and students that went
/// into it to those that came out: every round is made of what each of its
/// agents emits on what the round found, and the status is all rounds merged.
pub open spec fn is_course(
    trace: YearTrace,
    conf: &Config,
    colleges_before: Seq<College>,
    colleges: Seq<College>,
    students_before: Seq<Student>,
    students: Seq<Student>,
) -> bool {
    let n = colleges_before.len();
    let k = students_before.len();
    &&& colleges.len() == n && trace.colleges_first.len() == n
    &&& students.len() == k && trace.students_applied.len() == k && trace.students_first.len() == k
        && trace.students_second.len() == k
    // the colleges as the students see them
    &&& is_group(trace.nationals, false, n as int)
    &&& is_group(trace.privates, true, n as int)
    &&& trace.nationals.len() + trace.privates.len() == n
    &&& whole_group(trace.nationals, colleges_before, false)
    &&& whole_group(trace.privates, colleges_before, true)
    &&& forall|j: int|
        0 <= j < trace.nationals.len() ==> (#[trigger] trace.nationals[j]).same_standing(
            &colleges_before[trace.nationals[j].index as int],
        )
    &&& forall|j: int|
        0 <= j < trace.privates.len() ==> (#[trigger] trace.privates[j]).same_standing(
            &colleges_before[trace.privates[j].index as int],
        )
    // applications
    &&& forall|s: int|
        0 <= s < k ==> after_application(
            students_before[s],
            #[trigger] trace.students_applied[s],
            conf,
            trace.nationals,
            trace.privates,
        )
    &&& forall|c: int, s: int|
        0 <= s < k ==> (#[trigger] trace.applications.contains_key((c, s)) <==> 0 <= c < usize::MAX
            && trace.students_applied[s].sat(c as usize))
    &&& forall|x: (int, int)| #[trigger]
        trace.applications.contains_key(x) ==> trace.applications[x] == APPLY && 0 <= x.1 < k
    // first offers and the answers to them
    &&& trace.first_offers == round_cells(
        |c: int| first_offers(colleges_before[c], conf, trace.students_applied, trace.applications, c),
        n,
    )
    &&& forall|c: int|
        0 <= c < n ==> after_first_offers(
            colleges_before[c],
            #[trigger] trace.colleges_first[c],
            conf,
            trace.students_applied,
            trace.applications,
            c,
        )
    &&& trace.first_answers == round_cells(
        |s: int|
            first_answers(trace.students_applied[s], trace.colleges_first, trace.first_offers, s),
        k,
    )
    &&& forall|s: int|
        0 <= s < k ==> after_first_decision(
            trace.students_applied[s],
            #[trigger] trace.students_first[s],
            trace.colleges_first,
            trace.first_offers,
            s,
        )
    // public offers
    &&& trace.public_offers == round_cells(
        |c: int|
            public_offers(trace.colleges_first[c], conf, trace.students_first, trace.applications, c),
        n,
    )
    &&& forall|c: int|
        0 <= c < n ==> after_public_offers(
            trace.colleges_first[c],
            #[trigger] colleges[c],
            conf,
            trace.students_first,
            trace.applications,
            c,
        )
    &&& trace.status_first == merged(
        merged(merged(trace.first_offers, trace.public_offers), transposed(trace.applications)),
        transposed(trace.first_answers),
    )
    // second decisions
    &&& trace.second_decisions == round_cells(
        |s: int| later_decision(trace.students_first[s], colleges, trace.status_first, s, true),
        k,
    )
    &&& forall|s: int|
        0 <= s < k ==> after_later_decision(
            trace.students_first[s],
            #[trigger] trace.students_second[s],
            colleges,
            trace.status_first,
            s,
            true,
        )
    &&& trace.status_second == merged(trace.second_decisions, transposed(trace.status_first))
    // waitlist offers
    &&& trace.waitlist_offers == round_cells(
        |c: int| waitlist_offers(colleges[c], conf, trace.students_second, trace.status_second, c),
        n,
    )
    &&& forall|c: int|
        0 <= c < n && (#[trigger] colleges[c]).is_private() ==> waitlist_sound(
            colleges[c],
            conf,
            trace.students_second,
            trace.status_second,
            c,
        )
    &&& trace.status_third == merged(trace.waitlist_offers, transposed(trace.status_second))
    // last decisions
    &&& trace.last_decisions == round_cells(
        |s: int| later_decision(trace.students_second[s], colleges, trace.status_third, s, false),
        k,
    )
    &&& forall|s: int|
        0 <= s < k ==> after_later_decision(
            trace.students_second[s],
            #[trigger] students[s],
            colleges,
            trace.status_third,
            s,
            false,
        )
    &&& trace.status == merged(trace.last_decisions, transposed(trace.status_third))
    // after every merge every status is one of the known ones, and nobody
    // is enrolled twice
    &&& all_legal(trace.status_first, 1) && enrolled_once(trace.status_first)
    &&& all_legal(trace.status_second, 2) && enrolled_once(transposed(trace.status_second))
    &&& all_legal(trace.status_third, 3) && enrolled_once(trace.status_third)
}

/// The log of a student shows it enrolled at one college at most.
pub open spec fn enrolled_once_in(log: Seq<(u8, usize, u8)>) -> bool {
    forall|i: int, j: int|
        0 <= i < log.len() && 0 <= j < log.len() && spec_is_admitted((#[trigger] log[i]).2)
            && spec_is_admitted((#[trigger] log[j]).2) ==> i == j
}

/// What a year leaves behind. `status` is the final status of all pairs, a
/// row for each college and a column for each student.
pub open spec fn year_done(
    epoch: i32,
    conf: &Config,
    colleges_before: Seq<College>,
    colleges: Seq<College>,
    students_before: Seq<Student>,
    students: Seq<Student>,
    status: Map<(int, int), u8>,
    next: Seq<College>,
    college_results: Seq<CollegeResult>,
    student_results: Seq<StudentResult>,
) -> bool {
    &&& colleges.len() == colleges_before.len()
    &&& students.len() == students_before.len()
    &&& next.len() == colleges.len()
    &&& college_results.len() == colleges.len()
    &&& student_results.len() == students.len()
    &&& forall|c: int|
        0 <= c < colleges.len() ==> (#[trigger] colleges[c]).same_standing(&colleges_before[c])
    &&& forall|s: int|
        0 <= s < students.len() ==> {
            &&& (#[trigger] students[s]).id == students_before[s].id
            &&& students[s].score == students_before[s].score
            &&& students[s].pattern == students_before[s].pattern
            &&& students[s].wf()
        }
    // every status is one of the known ones, and nobody is enrolled twice
    &&& within(status, colleges.len() as int, students.len() as int)
    &&& forall|k: (int, int)| #[trigger]
        status.contains_key(k) <==> 0 <= k.1 < students.len() && 0 <= k.0 < usize::MAX
            && students[k.1].sat(k.0 as usize)
    &&& all_legal(status, 4)
    &&& enrolled_once(transposed(status))
    // each student has settled on the college where it is enrolled
    &&& forall|s: int|
        0 <= s < students.len() ==> (#[trigger] students[s]).admission == enrolled_at(
            row_entries(transposed(status), s, colleges.len()),
        ) && (students[s].admission.is_some() ==> students[s].admission.unwrap() < colleges.len())
    // the results are read off the final status
    &&& forall|c: int|
        0 <= c < colleges.len() ==> is_result_of(
            #[trigger] college_results[c],
            epoch,
            colleges[c],
            students,
            row_entries(status, c, students.len()),
        )
    &&& forall|s: int|
        0 <= s < students.len() ==> is_student_result(
            #[trigger] student_results[s],
            epoch,
            students[s],
            row_entries(transposed(status), s, colleges.len()),
            colleges,
        )
    // no college has more offers than applicants, or more enrolled than offers
    &&& forall|c: int|
        0 <= c < colleges.len() ==> (#[trigger] college_results[c]).admissons
            <= college_results[c].enroll_1st_count + college_results[c].enroll_add_count
            <= college_results[c].apply_count
    // no student is enrolled at two colleges
    &&& forall|s: int|
        0 <= s < students.len() ==> enrolled_once_in((#[trigger] student_results[s]).result@)
    // the colleges of the next year stand by rising score
    &&& sorted_by_score(next)
    &&& indexed(next)
    &&& forall|i: int|
        0 <= i < next.len() ==> #[trigger] next_in_order(next, colleges, college_results, conf, i)
}

/// A year has run: it took a course from the colleges and students that
/// went into it to those that came out, and left the results that are read
/// off the final status of that course.
pub open spec fn is_year(
    epoch: i32,
    conf: &Config,
    colleges_before: Seq<College>,
    colleges: Seq<College>,
    students_before: Seq<Student>,
    students: Seq<Student>,
    next: Seq<College>,
    college_results: Seq<CollegeResult>,
    student_results: Seq<StudentResult>,
) -> bool {
    exists|trace: YearTrace| #[trigger]
        is_course(trace, conf, colleges_before, colleges, students_before, students) && year_done(
            epoch,
            conf,
            colleges_before,
            colleges,
            students_before,
            students,
            trace.status,
            next,
            college_results,
            student_results,
        )
}

/// Tells whether the colleges can go into a year.
pub fn check_roster(colleges: &Vec<College>) -> (ok: bool)
    ensures
        ok == roster(colleges@),
{
    if colleges.len() >= u32::MAX as usize {
        return false;
    }
    let mut c: usize = 0;
    while c < colleges.len()
        invariant
            c <= colleges.len(),
            forall|p: int| 0 <= p < c ==> (#[trigger] colleges[p]).index == p,
            forall|p: int| 0 <= p < c ==> (#[trigger] colleges[p]).epoch < usize::MAX,
            forall|i: int, j: int|
                0 <= i < j < c ==> (#[trigger] colleges[i]).score <= (#[trigger] colleges[j]).score,
        decreases colleges.len() - c,
    {
        if colleges[c].index != c || colleges[c].epoch == usize::MAX {
            return false;
        }
        if c > 0 && colleges[c - 1].score > colleges[c].score {
            return false;
        }
        proof {
            assert forall|i: int, j: int| 0 <= i < j < c + 1 implies (#[trigger] colleges[i]).score <= (
            #[trigger] colleges[j]).score by {
                if j == c && i < c - 1 {
                    assert(colleges[i].score <= colleges[c - 1].score);
                }
            }
        }
        c += 1;
    }
    true
}

/// Tells whether the students can go into a year.
pub fn check_cohort(students: &Vec<Student>, conf: &Config) -> (ok: bool)
    ensures
        ok == cohort(students@, conf),
{
    if students.len() >= u32::MAX as usize {
        return false;
    }
    let mut s: usize = 0;
    while s < students.len()
        invariant
            s <= students.len(),
            forall|p: int| 0 <= p < s ==> (#[trigger] students[p]).id == p,
            forall|p: int|
                0 <= p < s ==> {
                    let x = #[trigger] students[p];
                    &&& x.c_map@.len() == 0
                    &&& x.admission.is_none()
                    &&& x.count_pattern < 2
                    &&& x.exam_errors@.len() >= application_cap(
                        conf.college_rank_select_number[x.count_pattern as int],
                    )
                },
        decreases students.len() - s,
    {
        let x = &students[s];
        if x.id != s || x.c_map.len() != 0 || x.admission.is_some() || x.count_pattern >= 2 {
            return false;
        }
        let counts = conf.college_rank_select_number[x.count_pattern];
        let cap: u128 = 1 + one_or(counts[0]) + one_or(counts[1]) + one_or(counts[2]);
        if (x.exam_errors.len() as u128) < cap {
            return false;
        }
        s += 1;
    }
    true
}

/// `n`, or one where `n` is nothing.
fn one_or(n: usize) -> (m: u128)
    ensures
        m == at_least_one(n),
{
    if n == 0 {
        1
    } else {
        n as u128
    }
}

/// What the applications of a student say of public colleges: one that
/// applied to a public college applies to both kinds, and to that public
/// college only.
pub proof fn lemma_one_public(
    student: Student,
    conf: &Config,
    colleges: Seq<College>,
    nationals: Seq<College>,
    privates: Seq<College>,
    c1: usize,
    c2: usize,
)
    requires
        is_group(privates, true, colleges.len() as int),
        forall|k: int|
            0 <= k < privates.len() ==> (#[trigger] privates[k]).same_standing(
                &colleges[privates[k].index as int],
            ),
        applications_in_reach(student, conf, nationals, privates),
        student.sat(c1),
        student.sat(c2),
        c1 < colleges.len(),
        c2 < colleges.len(),
        !colleges[c1 as int].is_private(),
    ensures
        student.pattern == ApplyPattern::Both,
        !colleges[c2 as int].is_private() ==> c1 == c2,
{
    let bands = rank_bands(conf, student.score, privates);
    let k1 = choose|k: int| 0 <= k < student.c_map@.len() && (#[trigger] student.c_map@[k]).0 == c1;
    let k2 = choose|k: int| 0 <= k < student.c_map@.len() && (#[trigger] student.c_map@[k]).0 == c2;
    assert(student.c_map@[k1].0 == c1);
    assert(student.c_map@[k2].0 == c2);
    if reached(privates, bands, c1) {
        let r = choose|r: int|
            0 <= r < bands.len() && crate::student::in_band(privates, #[trigger] bands[r], c1);
        let j = choose|j: int| crate::student::member_in_band(privates, bands[r], c1, j);
        assert(privates[j].same_standing(&colleges[privates[j].index as int]));
        assert(privates[j].is_private());
    }
    if !colleges[c2 as int].is_private() {
        if reached(privates, bands, c2) {
            let r = choose|r: int|
                0 <= r < bands.len() && crate::student::in_band(privates, #[trigger] bands[r], c2);
            let j = choose|j: int| crate::student::member_in_band(privates, bands[r], c2, j);
            assert(privates[j].same_standing(&colleges[privates[j].index as int]));
            assert(privates[j].is_private());
        }
        assert(k1 == k2);
    }
}

/// A log read off a row of a status in which nobody is enrolled twice shows
/// its student enrolled once at most.
pub proof fn lemma_log_enrolled_once(
    t: Map<(int, int), u8>,
    s: int,
    cols: nat,
    colleges: Seq<College>,
)
    requires
        cols <= usize::MAX,
        enrolled_once(t),
    ensures
        enrolled_once_in(log_of(row_entries(t, s, cols), colleges)),
{
    let row = row_entries(t, s, cols);
    let log = log_of(row, colleges);
    lemma_row_entries(t, s, cols);
    assert forall|i: int, j: int|
        0 <= i < log.len() && 0 <= j < log.len() && spec_is_admitted((#[trigger] log[i]).2)
            && spec_is_admitted((#[trigger] log[j]).2) implies i == j by {
        let a = row[i];
        let b = row[j];
        assert(t.contains_key((s, a.0 as int)) && t.contains_key((s, b.0 as int)));
        assert(a.0 == b.0);
        if i < j {
            assert(row[i].0 < row[j].0);
        } else if j < i {
            assert(row[j].0 < row[i].0);
        }
    }
}

/// Conservation at a college: its result, read off a row of legal statuses,
/// has no more offers than applicants and no more enrolled than offers.
pub proof fn lemma_result_conserves(
    result: CollegeResult,
    epoch: i32,
    college: College,
    students: Seq<Student>,
    status: Map<(int, int), u8>,
    c: int,
)
    requires
        students.len() <= u32::MAX,
        all_legal(status, 4),
        is_result_of(result, epoch, college, students, row_entries(status, c, students.len())),
    ensures
        result.admissons <= result.enroll_1st_count + result.enroll_add_count
            <= result.apply_count,
{
    let row = row_entries(status, c, students.len());
    lemma_row_entries(status, c, students.len());
    assert forall|i: int| 0 <= i < row.len() implies legal((#[trigger] row[i]).1, 4) by {
        assert(status.contains_key((c, row[i].0 as int)));
    }
    lemma_conservation(row);
    crate::settle::lemma_counts(row);
    assert(count_flag(row, ENROLL_1ST) >= 0 && count_flag(row, ENROLL_2ND) >= 0 && count_flag(
        row,
        ENROLL_3RD,
    ) >= 0);
}

/// Runs one year. The students apply and sit their exams; the private
/// colleges make their first offers and the students answer them; the public
/// colleges make their offers; the students that hold offers decide; the
/// private colleges make waitlist offers; the students decide on those; and
/// the year is closed. After each round of offers or decisions the status of
/// all pairs is brought up to date.
///
/// The result holds the colleges as they go into the next year, what the
/// year did to each college, and what it did to each student. A year that
/// cannot be run leaves colleges and students as they were.
pub fn step(
    epoch: i32,
    colleges: &mut Vec<College>,
    students: &mut Vec<Student>,
    conf: &Config,
) -> (out: Result<(Vec<College>, Vec<CollegeResult>, Vec<StudentResult>), StepError>)
    ensures
        match out {
            Err(StepError::Config) => !conf.wf(),
            Err(StepError::Colleges) => conf.wf() && !roster(old(colleges)@),
            Err(StepError::Students) => conf.wf() && roster(old(colleges)@) && !cohort(
                old(students)@,
                conf,
            ),
            Ok(_) => conf.wf() && roster(old(colleges)@) && cohort(old(students)@, conf),
        },
        out.is_err() ==> final(colleges)@ == old(colleges)@ && final(students)@ == old(students)@,
        out.is_ok() ==> is_year(
            epoch,
            conf,
            old(colleges)@,
            final(colleges)@,
            old(students)@,
            final(students)@,
            out.unwrap().0@,
            out.unwrap().1@,
            out.unwrap().2@,
        ),
{
    if conf.enroll_add_rate > 1000 {
        return Err(StepError::Config);
    }
    if !check_roster(colleges) {
        return Err(StepError::Colleges);
    }
    if !check_cohort(students, conf) {
        return Err(StepError::Students);
    }
    let ghost c0 = colleges@;
    let ghost s_before = students@;
    let (nationals, privates) = divide_colleges(colleges);
    let total = colleges.len();

    // applications
    let m0 = apply(students, &nationals, &privates, conf);
    let ghost st0 = students@;
    proof {
        assert(on_record(st0, m0@));
    }

    // first offers and first answers
    let e1 = enroll1(colleges, students, &m0, conf);
    let ghost c1 = colleges@;
    proof {
        assert forall|i: int| 0 <= i < c1.len() implies (#[trigger] c1[i]).index == i by {
            assert(c1[i].same_standing(&c0[i]));
        }
    }
    let a1 = admission1(students, colleges, &e1, conf);
    let ghost st1 = students@;
    proof {
        assert forall|k: (int, int)| #[trigger] m0@.contains_key(k) implies 0 <= k.1 < st1.len() && 0
            <= k.0 < usize::MAX && st1[k.1].sat(k.0 as usize) by {
            assert(st1[k.1].same_person(&st0[k.1]));
        }
    }

    // public offers
    let e2 = enroll2(colleges, students, &m0, conf);
    let ghost c2 = colleges@;
    proof {
        assert forall|i: int| 0 <= i < c2.len() implies (#[trigger] c2[i]).index == i
            && c2[i].same_standing(&c0[i]) by {
            assert(c2[i].same_standing(&c1[i]));
            assert(c1[i].same_standing(&c0[i]));
        }
    }

    // first merge
    let offers = e1.merge(&e2);
    let with_apps = offers.merge(&m0.transpose());
    let status1 = with_apps.merge(&a1.transpose());
    proof {
        let wish = |s: int| first_wish(st0[s].admission, st0[s].pattern, st0[s].c_map@, c1);
        let private = |c: int| c0[c].is_private();
        assert forall|k: (int, int)| #[trigger] e2@.contains_key(k) implies m0@.contains_key(
            (k.1, k.0),
        ) && e2@[k] == ENROLL_2ND && !private(k.1) by {
            assert(c1[k.1].same_standing(&c0[k.1]));
        }
        assert forall|k: (int, int)| #[trigger] a1@.contains_key(k) implies a1@[k] == (if wish(k.1)
            == Some(k.0 as usize) {
            crate::flags::ADMISSION_1ST
        } else {
            crate::flags::RESERVE
        }) && 0 <= k.0 < usize::MAX by {}
        assert forall|k: (int, int)| #[trigger] m0@.contains_key(k) && !private(k.0) implies wish(
            k.1,
        ).is_none() by {
            lemma_one_public(st0[k.1], conf, c0, nationals@, privates@, k.0 as usize, k.0 as usize);
        }
        assert forall|k1: (int, int), k2: (int, int)|
            #[trigger] m0@.contains_key(k1) && #[trigger] m0@.contains_key(k2) && k1.1 == k2.1
                && !private(k1.0) && !private(k2.0) implies k1.0 == k2.0 by {
            lemma_one_public(
                st0[k1.1],
                conf,
                c0,
                nationals@,
                privates@,
                k1.0 as usize,
                k2.0 as usize,
            );
        }
        lemma_first_merge(m0@, e1@, e2@, a1@, wish, private);
        // a student that has settled by now is enrolled on a first offer
        assert forall|s: int| 0 <= s < st1.len() && (#[trigger] st1[s]).admission.is_some() implies st1[s].admission
            == enrolled_at(row_entries(status1@, s, total as nat)) by {
            assert(after_first_decision(st0[s], st1[s], c1, e1@, s));
            assert(st0[s].same_plan(&s_before[s]));
            let w = wish(s).unwrap();
            let passed = applicants(e1@, s, total as nat);
            assert(passed.contains(w));
            let i = choose|i: int| 0 <= i < passed.len() && passed[i] == w;
            lemma_row_entries(e1@, s, total as nat);
            let entry = row_entries(e1@, s, total as nat)[i];
            assert(e1@.contains_key((s, entry.0 as int)));
            assert(m0@.contains_key((w as int, s)));
            assert(status1@.contains_key((s, w as int)));
            lemma_enrolled_here(status1@, s, total as nat, w as int);
        }
    }

    // second decisions and second merge
    let a2 = admission2(students, colleges, &status1, conf);
    let ghost st2 = students@;
    let status2 = a2.merge(&status1.transpose());
    let ghost t2 = transposed(status2@);
    proof {
        lemma_transposed(a2@, transposed(status1@));
        lemma_transposed(status1@, status1@);
        assert(t2 == merged(transposed(a2@), status1@));
        lemma_decision_merge(status1@, a2@, st1.len() as int, total as nat, true);
        assert forall|s: int| 0 <= s < st2.len() implies (#[trigger] st2[s]).admission
            == enrolled_at(row_entries(t2, s, total as nat)) by {
            lemma_decision_settles(status1@, st1, st2[s], c2, st1.len() as int, true, s);
        }
        assert forall|k: (int, int)| #[trigger] status2@.contains_key(k) implies 0 <= k.1
            < st2.len() && 0 <= k.0 < usize::MAX && st2[k.1].sat(k.0 as usize) by {
            assert(t2.contains_key((k.1, k.0)));
            assert(status1@.contains_key((k.1, k.0)));
            assert(m0@.contains_key(k));
            assert(st2[k.1].same_person(&st1[k.1]));
            assert(st1[k.1].same_person(&st0[k.1]));
        }
    }

    // waitlist offers and third merge
    let e3 = enroll3(colleges, students, &status2, conf);
    let status3 = e3.merge(&status2.transpose());
    proof {
        assert(status3@ == merged(e3@, t2));
        assert forall|k: (int, int)| #[trigger] e3@.contains_key(k) implies t2.contains_key(k)
            && t2[k] == crate::flags::R_FAILED && e3@[k] == ENROLL_3RD by {
            assert(status2@.contains_key((k.1, k.0)));
        }
        lemma_waitlist_merge(t2, e3@);
        assert(within(t2, st2.len() as int, total as int)) by {
            assert forall|k: (int, int)| #[trigger] t2.contains_key(k) implies 0 <= k.0 < st2.len()
                && 0 <= k.1 < total by {
                assert(status2@.contains_key((k.1, k.0)));
            }
        }
        assert forall|s: int| 0 <= s < st2.len() implies (#[trigger] st2[s]).admission
            == enrolled_at(row_entries(status3@, s, total as nat)) by {
            assert forall|c: int|
                (#[trigger] status3@.contains_key((s, c)) && spec_is_admitted(status3@[(s, c)]))
                    <==> (#[trigger] t2.contains_key((s, c)) && spec_is_admitted(t2[(s, c)])) by {
                if t2.contains_key((s, c)) {
                    if e3@.contains_key((s, c)) {
                        assert(t2[(s, c)] == crate::flags::R_FAILED);
                    }
                }
            }
            lemma_enrolled_alike(status3@, t2, s, st2.len() as int, total as nat);
        }
    }

    // last decisions and last merge
    let a3 = admission3(students, colleges, &status3, conf);
    let ghost st3 = students@;
    let status4 = a3.merge(&status3.transpose());
    let ghost t4 = transposed(status4@);
    proof {
        lemma_transposed(a3@, transposed(status3@));
        lemma_transposed(status3@, status3@);
        assert(t4 == merged(transposed(a3@), status3@));
        lemma_decision_merge(status3@, a3@, st2.len() as int, total as nat, false);
        assert forall|s: int| 0 <= s < st3.len() implies (#[trigger] st3[s]).admission
            == enrolled_at(row_entries(t4, s, total as nat)) && (st3[s].admission.is_some()
            ==> st3[s].admission.unwrap() < total) by {
            lemma_decision_settles(status3@, st2, st3[s], c2, st2.len() as int, false, s);
            lemma_row_entries(t4, s, total as nat);
            if st3[s].admission.is_some() {
                let row = row_entries(t4, s, total as nat);
                let i = choose|i: int| crate::choice::is_first_admitted(row, i);
                assert(row[i].0 < total);
            }
        }
        assert forall|k: (int, int)|
            0 <= k.1 < st3.len() && 0 <= k.0 < usize::MAX && st3[k.1].sat(k.0 as usize)
                implies #[trigger] status4@.contains_key(k) by {
            assert(st3[k.1].same_person(&st2[k.1]));
            assert(st2[k.1].same_person(&st1[k.1]));
            assert(st1[k.1].same_person(&st0[k.1]));
            assert(m0@.contains_key(k));
            assert(status1@.contains_key((k.1, k.0)));
            assert(t2.contains_key((k.1, k.0)));
            assert(status3@.contains_key((k.1, k.0)));
            assert(t4.contains_key((k.1, k.0)));
        }
        assert forall|k: (int, int)| #[trigger] status4@.contains_key(k) implies 0 <= k.1
            < st3.len() && 0 <= k.0 < usize::MAX && st3[k.1].sat(k.0 as usize) && legal(
            status4@[k],
            4,
        ) by {
            assert(t4.contains_key((k.1, k.0)));
            assert(status3@.contains_key((k.1, k.0)));
            assert(t2.contains_key((k.1, k.0)));
            assert(status1@.contains_key((k.1, k.0)));
            assert(m0@.contains_key(k));
            assert(st3[k.1].same_person(&st2[k.1]));
            assert(st2[k.1].same_person(&st1[k.1]));
            assert(st1[k.1].same_person(&st0[k.1]));
            assert(legal(t4[(k.1, k.0)], 4));
        }
    }

    // the end of the year
    let (next, college_results, student_results) = settle(epoch, students, colleges, &status4, conf);
    proof {
        assert forall|c: int| 0 <= c < c2.len() implies (#[trigger] college_results[c]).admissons
            <= college_results[c].enroll_1st_count + college_results[c].enroll_add_count
            <= college_results[c].apply_count by {
            lemma_result_conserves(college_results[c], epoch, c2[c], st3, status4@, c);
        }
        assert forall|s: int| 0 <= s < st3.len() implies enrolled_once_in(
            (#[trigger] student_results[s]).result@,
        ) by {
            lemma_log_enrolled_once(t4, s, total as nat, c2);
        }
        assert forall|s: int| 0 <= s < st3.len() implies {
            &&& (#[trigger] st3[s]).id == s_before[s].id
            &&& st3[s].score == s_before[s].score
            &&& st3[s].pattern == s_before[s].pattern
            &&& st3[s].wf()
        } by {
            assert(st3[s].same_person(&st2[s]));
            assert(st2[s].same_person(&st1[s]));
            assert(st1[s].same_person(&st0[s]));
            assert(st0[s].same_plan(&s_before[s]));
        }
        let trace = YearTrace {
            nationals: nationals@,
            privates: privates@,
            colleges_first: c1,
            students_applied: st0,
            students_first: st1,
            students_second: st2,
            applications: m0@,
            first_offers: e1@,
            first_answers: a1@,
            public_offers: e2@,
            status_first: status1@,
            second_decisions: a2@,
            status_second: status2@,
            waitlist_offers: e3@,
            status_third: status3@,
            last_decisions: a3@,
            status: status4@,
        };
        assert(all_legal(status2@, 2)) by {
            assert forall|k: (int, int)| #[trigger] status2@.contains_key(k) implies legal(
                status2@[k],
                2,
            ) by {
                assert(t2.contains_key((k.1, k.0)));
            }
        }
        assert(is_course(trace, conf, c0, c2, s_before, st3));
        assert(year_done(
            epoch,
            conf,
            c0,
            c2,
            s_before,
            st3,
            trace.status,
            next@,
            college_results@,
            student_results@,
        ));
        assert(exists|trace: YearTrace| #[trigger]
            is_course(trace, conf, old(colleges)@, colleges@, old(students)@, students@)
                && year_done(
                epoch,
                conf,
                old(colleges)@,
                colleges@,
                old(students)@,
                students@,
                trace.status,
                next@,
                college_results@,
                student_results@,
            ));
    }
    let out = Ok((next, college_results, student_results));
    assert(out.unwrap().0@ == next@);
    out
}

} // verus!
