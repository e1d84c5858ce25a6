//! Offers against plans: in the final status of a year no college has more
//! first or public offers than it planned for the round.

use crate::college::{enrolled_early, scored, with_status, College, CollegeResult};
use crate::offer::{backfill_limit, shortfall};
use crate::config::Config;
use crate::flags::{
    spec_union, ENROLL_1ST, ENROLL_2ND, ENROLL_3RD, R_ADMISSION_1ST, R_ADMISSION_2ND,
    R_ADMISSION_3RD, R_ADMISSION_RSV, R_FAILED,
};
use crate::matrix::{flag_at, lemma_row_entries, merged, row_entries, transposed};
use crate::reduce::listed_value;
use crate::round::{
    after_first_offers, after_public_offers, agents, first_answers, first_offers, later_decision,
    public_offers, round_cells, waitlist_offers, waitlist_sound,
};
use crate::settle::{count_flag, count_status, is_result_of, lemma_counts};
use crate::student::{Student, StudentResult};
use crate::year::{cohort, is_course, roster, year_done, YearTrace};
use vstd::prelude::*;

verus! {

/// An entry of the matrix of a round is an entry that its agent emitted.
pub proof fn lemma_round_entry(
    emitted: spec_fn(int) -> Seq<(usize, u8)>,
    agents: nat,
    k: (int, int),
)
    requires
        round_cells(emitted, agents).contains_key(k),
    ensures
        0 <= k.1 < agents,
        exists|i: int|
            0 <= i < emitted(k.1).len() && (#[trigger] emitted(k.1)[i]).0 == k.0 && emitted(k.1)[i].1
                == round_cells(emitted, agents)[k],
{
    let list = emitted(k.1);
    let i = choose|i: int| 0 <= i < list.len() && (#[trigger] list[i]).0 == k.0;
    assert(list[i].1 == listed_value(list, k.0));
}

/// The status of a merged pair holds the events of both sides, and the
/// status of a pair is that of the pair the other way round in the
/// transposed matrix.
pub proof fn lemma_flag_at(a: Map<(int, int), u8>, b: Map<(int, int), u8>, row: int, col: int)
    ensures
        flag_at(merged(a, b), row, col) == spec_union(flag_at(a, row, col), flag_at(b, row, col)),
        flag_at(transposed(a), row, col) == flag_at(a, col, row),
{
}

/// A row whose entries with an event all stand for agents of a list has no
/// more such entries than the list is long.
pub proof fn lemma_count_within(row: Seq<(usize, u8)>, flag: u8, list: Seq<usize>)
    requires
        forall|i: int, j: int| 0 <= i < j < row.len() ==> (#[trigger] row[i]).0 < (#[trigger] row[j]).0,
        forall|i: int|
            0 <= i < row.len() && (#[trigger] row[i]).1 & flag != 0 ==> list.contains(row[i].0),
    ensures
        count_flag(row, flag) <= list.len(),
    decreases row.len(),
{
    if row.len() > 0 {
        let front = row.drop_last();
        let last = row.last();
        assert forall|i: int, j: int| 0 <= i < j < front.len() implies (#[trigger] front[i]).0 < (
        #[trigger] front[j]).0 by {
            assert(front[i] == row[i] && front[j] == row[j]);
        }
        if last.1 & flag != 0 {
            assert(row[row.len() - 1].1 & flag != 0);
            assert(list.contains(last.0));
            let p = choose|p: int| 0 <= p < list.len() && list[p] == last.0;
            let rest = list.remove(p);
            assert forall|i: int| 0 <= i < front.len() && (#[trigger] front[i]).1 & flag
                != 0 implies rest.contains(front[i].0) by {
                assert(front[i] == row[i]);
                assert(row[i].0 < row[row.len() - 1].0);
                assert(list.contains(row[i].0));
                let q = choose|q: int| 0 <= q < list.len() && list[q] == row[i].0;
                if q < p {
                    assert(rest[q] == row[i].0);
                } else {
                    assert(rest[q - 1] == row[i].0);
                }
            }
            lemma_count_within(front, flag, rest);
        } else {
            assert forall|i: int| 0 <= i < front.len() && (#[trigger] front[i]).1 & flag
                != 0 implies list.contains(front[i].0) by {
                assert(front[i] == row[i]);
            }
            lemma_count_within(front, flag, list);
        }
    }
}

/// In the final status of a year a pair holds an offer only if the college
/// made that offer to the student in the round of such offers.
pub proof fn lemma_offer_flags(
    trace: YearTrace,
    conf: &Config,
    colleges_before: Seq<College>,
    colleges: Seq<College>,
    students_before: Seq<Student>,
    students: Seq<Student>,
    c: int,
    s: int,
)
    requires
        is_course(trace, conf, colleges_before, colleges, students_before, students),
    ensures
        flag_at(trace.status, c, s) & ENROLL_1ST != 0 ==> trace.first_offers.contains_key((s, c)),
        flag_at(trace.status, c, s) & ENROLL_2ND != 0 ==> trace.public_offers.contains_key((s, c)),
        flag_at(trace.status, c, s) & ENROLL_3RD != 0 ==> trace.waitlist_offers.contains_key((s, c)),
{
    let n = colleges_before.len();
    let k = students_before.len();
    let last = flag_at(trace.last_decisions, c, s);
    let late = flag_at(trace.waitlist_offers, s, c);
    let second = flag_at(trace.second_decisions, c, s);
    let first = flag_at(trace.first_offers, s, c);
    let public = flag_at(trace.public_offers, s, c);
    let applied = flag_at(trace.applications, c, s);
    let answer = flag_at(trace.first_answers, c, s);
    lemma_flag_at(trace.last_decisions, transposed(trace.status_third), c, s);
    lemma_flag_at(trace.status_third, trace.status_third, c, s);
    lemma_flag_at(trace.waitlist_offers, transposed(trace.status_second), s, c);
    lemma_flag_at(trace.status_second, trace.status_second, s, c);
    lemma_flag_at(trace.second_decisions, transposed(trace.status_first), c, s);
    lemma_flag_at(trace.status_first, trace.status_first, c, s);
    let offers = merged(trace.first_offers, trace.public_offers);
    let applied_too = merged(offers, transposed(trace.applications));
    lemma_flag_at(applied_too, transposed(trace.first_answers), s, c);
    lemma_flag_at(offers, transposed(trace.applications), s, c);
    lemma_flag_at(trace.first_offers, trace.public_offers, s, c);
    lemma_flag_at(trace.applications, trace.applications, s, c);
    lemma_flag_at(trace.first_answers, trace.first_answers, s, c);
    let all = flag_at(trace.status, c, s);
    assert(all == last | (late | (second | (((first | public) | applied) | answer))));
    if trace.last_decisions.contains_key((c, s)) {
        lemma_round_entry(
            |s: int| later_decision(trace.students_second[s], colleges, trace.status_third, s, false),
            k,
            (c, s),
        );
    }
    if trace.waitlist_offers.contains_key((s, c)) {
        lemma_round_entry(
            |c: int|
                waitlist_offers(colleges[c], conf, trace.students_second, trace.status_second, c),
            n,
            (s, c),
        );
    }
    if trace.second_decisions.contains_key((c, s)) {
        lemma_round_entry(
            |s: int| later_decision(trace.students_first[s], colleges, trace.status_first, s, true),
            k,
            (c, s),
        );
    }
    if trace.first_offers.contains_key((s, c)) {
        lemma_round_entry(
            |c: int|
                first_offers(colleges_before[c], conf, trace.students_applied, trace.applications, c),
            n,
            (s, c),
        );
    }
    if trace.public_offers.contains_key((s, c)) {
        lemma_round_entry(
            |c: int|
                public_offers(
                    trace.colleges_first[c],
                    conf,
                    trace.students_first,
                    trace.applications,
                    c,
                ),
            n,
            (s, c),
        );
    }
    if trace.first_answers.contains_key((c, s)) {
        lemma_round_entry(
            |s: int|
                first_answers(trace.students_applied[s], trace.colleges_first, trace.first_offers, s),
            k,
            (c, s),
        );
    }
    assert(last == 0 || last == 128);
    assert(late == 0 || late == 64);
    assert(second == 0 || second == 32);
    assert(first == 0 || first == 2);
    assert(public == 0 || public == 16);
    assert(applied == 0 || applied == 1);
    assert(answer == 0 || answer == 4 || answer == 8);
    assert((last == 0 || last == 128) && (late == 0 || late == 64) && (second == 0 || second == 32)
        && (first == 0 || first == 2) && (public == 0 || public == 16) && (applied == 0 || applied
        == 1) && (answer == 0 || answer == 4 || answer == 8) ==> (((last | (late | (second | (((
    first | public) | applied) | answer)))) & 2 != 0 ==> first == 2) && ((last | (late | (second | (
    ((first | public) | applied) | answer)))) & 16 != 0 ==> public == 16) && ((last | (late | (
    second | (((first | public) | applied) | answer)))) & 64 != 0 ==> late == 64))) by (bit_vector);
}

/// No college makes more offers than it planned. In the results of a year
/// the first and public offers of a college are no more than the offers it
/// planned for its round, so it enrols no more students than that plan and
/// its waitlist offers together; and a public college, which plans as many
/// offers as it has places and makes no waitlist offers, enrols no more
/// students than it has places.
pub proof fn lemma_offers_within_plan(
    epoch: i32,
    conf: &Config,
    colleges_before: Seq<College>,
    students_before: Seq<Student>,
    trace: YearTrace,
    colleges: Seq<College>,
    students: Seq<Student>,
    next: Seq<College>,
    college_results: Seq<CollegeResult>,
    student_results: Seq<StudentResult>,
    c: int,
)
    requires
        roster(colleges_before),
        cohort(students_before, conf),
        is_course(trace, conf, colleges_before, colleges, students_before, students),
        year_done(
            epoch,
            conf,
            colleges_before,
            colleges,
            students_before,
            students,
            trace.status,
            next,
            college_results,
            student_results,
        ),
        0 <= c < colleges.len(),
    ensures
        college_results[c].enroll_1st_count <= colleges[c].new_enroll_num,
        college_results[c].admissons <= colleges[c].new_enroll_num
            + college_results[c].enroll_add_count,
        !colleges[c].is_private() ==> college_results[c].enroll_add_count == 0
            && college_results[c].admissons <= colleges[c].enroll,
        college_results[c].enroll_add_count <= waitlist_offers(
            colleges[c],
            conf,
            trace.students_second,
            trace.status_second,
            c,
        ).len(),
{
    let n = colleges_before.len();
    let k = students_before.len();
    let row = row_entries(trace.status, c, k);
    lemma_row_entries(trace.status, c, k);
    lemma_counts(row);
    assert(is_result_of(college_results[c], epoch, colleges[c], students, row));
    assert(after_first_offers(
        colleges_before[c],
        trace.colleges_first[c],
        conf,
        trace.students_applied,
        trace.applications,
        c,
    ));
    assert(after_public_offers(
        trace.colleges_first[c],
        colleges[c],
        conf,
        trace.students_first,
        trace.applications,
        c,
    ));
    let first = first_offers(colleges_before[c], conf, trace.students_applied, trace.applications, c);
    let public = public_offers(
        trace.colleges_first[c],
        conf,
        trace.students_first,
        trace.applications,
        c,
    );
    let late = waitlist_offers(colleges[c], conf, trace.students_second, trace.status_second, c);
    assert forall|i: int| 0 <= i < row.len() implies ((#[trigger] row[i]).1 & ENROLL_1ST != 0
        ==> agents(first).contains(row[i].0)) && (row[i].1 & ENROLL_2ND != 0 ==> agents(
        public,
    ).contains(row[i].0)) && (row[i].1 & ENROLL_3RD != 0 ==> agents(late).contains(row[i].0)) by {
        let s = row[i].0 as int;
        lemma_offer_flags(trace, conf, colleges_before, colleges, students_before, students, c, s);
        if row[i].1 & ENROLL_1ST != 0 {
            lemma_round_entry(
                |c: int|
                    first_offers(
                        colleges_before[c],
                        conf,
                        trace.students_applied,
                        trace.applications,
                        c,
                    ),
                n,
                (s, c),
            );
            let j = choose|j: int|
                0 <= j < first.len() && (#[trigger] first[j]).0 == s;
            assert(agents(first)[j] == row[i].0);
        }
        if row[i].1 & ENROLL_2ND != 0 {
            lemma_round_entry(
                |c: int|
                    public_offers(
                        trace.colleges_first[c],
                        conf,
                        trace.students_first,
                        trace.applications,
                        c,
                    ),
                n,
                (s, c),
            );
            let j = choose|j: int|
                0 <= j < public.len() && (#[trigger] public[j]).0 == s;
            assert(agents(public)[j] == row[i].0);
        }
        if row[i].1 & ENROLL_3RD != 0 {
            lemma_round_entry(
                |c: int|
                    waitlist_offers(colleges[c], conf, trace.students_second, trace.status_second, c),
                n,
                (s, c),
            );
            let j = choose|j: int| 0 <= j < late.len() && (#[trigger] late[j]).0 == s;
            assert(agents(late)[j] == row[i].0);
        }
    }
    lemma_count_within(row, ENROLL_1ST, agents(first));
    lemma_count_within(row, ENROLL_2ND, agents(public));
    lemma_count_within(row, ENROLL_3RD, agents(late));
}

/// A row whose entries with a status all stand for agents of a list has no
/// more such entries than the list is long.
pub proof fn lemma_status_within(row: Seq<(usize, u8)>, status: u8, list: Seq<usize>)
    requires
        forall|i: int, j: int| 0 <= i < j < row.len() ==> (#[trigger] row[i]).0 < (#[trigger] row[j]).0,
        forall|i: int| 0 <= i < row.len() && (#[trigger] row[i]).1 == status ==> list.contains(row[i].0),
    ensures
        count_status(row, status) <= list.len(),
    decreases row.len(),
{
    if row.len() > 0 {
        let front = row.drop_last();
        let last = row.last();
        assert forall|i: int, j: int| 0 <= i < j < front.len() implies (#[trigger] front[i]).0 < (
        #[trigger] front[j]).0 by {
            assert(front[i] == row[i] && front[j] == row[j]);
        }
        if last.1 == status {
            assert(row[row.len() - 1].1 == status);
            assert(list.contains(last.0));
            let p = choose|p: int| 0 <= p < list.len() && list[p] == last.0;
            let rest = list.remove(p);
            assert forall|i: int| 0 <= i < front.len() && (#[trigger] front[i]).1
                == status implies rest.contains(front[i].0) by {
                assert(front[i] == row[i]);
                assert(row[i].0 < row[row.len() - 1].0);
                assert(list.contains(row[i].0));
                let q = choose|q: int| 0 <= q < list.len() && list[q] == row[i].0;
                if q < p {
                    assert(rest[q] == row[i].0);
                } else {
                    assert(rest[q - 1] == row[i].0);
                }
            }
            lemma_status_within(front, status, rest);
        } else {
            assert forall|i: int| 0 <= i < front.len() && (#[trigger] front[i]).1
                == status implies list.contains(front[i].0) by {
                assert(front[i] == row[i]);
            }
            lemma_status_within(front, status, list);
        }
    }
}

/// The agents of a row with a status are as many as its entries with that
/// status, and the agent of every such entry is among them.
pub proof fn lemma_with_status_counts(row: Seq<(usize, u8)>, status: u8)
    ensures
        with_status(row, status).len() == count_status(row, status),
        forall|i: int|
            0 <= i < row.len() && (#[trigger] row[i]).1 == status ==> with_status(
                row,
                status,
            ).contains(row[i].0),
    decreases row.len(),
{
    if row.len() > 0 {
        let front = row.drop_last();
        lemma_with_status_counts(front, status);
        let all = with_status(row, status);
        assert forall|i: int| 0 <= i < row.len() && (#[trigger] row[i]).1 == status implies all.contains(
            row[i].0,
        ) by {
            if i < front.len() {
                assert(front[i] == row[i]);
                let q = choose|q: int|
                    0 <= q < with_status(front, status).len() && with_status(front, status)[q]
                        == row[i].0;
                assert(all[q] == row[i].0);
            } else {
                assert(all[all.len() - 1] == row[i].0);
            }
        }
    }
}

/// Those enrolled early by a row are those enrolled on a first offer and
/// those enrolled on an offer that was held.
pub proof fn lemma_enrolled_early(row: Seq<(usize, u8)>)
    ensures
        enrolled_early(row) == count_status(row, R_ADMISSION_1ST) + count_status(
            row,
            R_ADMISSION_RSV,
        ),
    decreases row.len(),
{
    if row.len() > 0 {
        lemma_enrolled_early(row.drop_last());
    }
}

/// In the final status of a year, a pair without an event of the waitlist
/// round has the status that it had after the second decisions.
pub proof fn lemma_settled_early(
    trace: YearTrace,
    conf: &Config,
    colleges_before: Seq<College>,
    colleges: Seq<College>,
    students_before: Seq<Student>,
    students: Seq<Student>,
    c: int,
    s: int,
)
    requires
        is_course(trace, conf, colleges_before, colleges, students_before, students),
    ensures
        flag_at(trace.status, c, s) & 192 == 0 ==> flag_at(trace.status, c, s) == flag_at(
            trace.status_second,
            c,
            s,
        ),
{
    let n = colleges_before.len();
    let k = students_before.len();
    let last = flag_at(trace.last_decisions, c, s);
    let late = flag_at(trace.waitlist_offers, s, c);
    let before = flag_at(trace.status_second, c, s);
    lemma_flag_at(trace.last_decisions, transposed(trace.status_third), c, s);
    lemma_flag_at(trace.status_third, trace.status_third, c, s);
    lemma_flag_at(trace.waitlist_offers, transposed(trace.status_second), s, c);
    lemma_flag_at(trace.status_second, trace.status_second, s, c);
    let all = flag_at(trace.status, c, s);
    assert(all == last | (late | before));
    if trace.last_decisions.contains_key((c, s)) {
        lemma_round_entry(
            |s: int| later_decision(trace.students_second[s], colleges, trace.status_third, s, false),
            k,
            (c, s),
        );
    }
    if trace.waitlist_offers.contains_key((s, c)) {
        lemma_round_entry(
            |c: int|
                waitlist_offers(colleges[c], conf, trace.students_second, trace.status_second, c),
            n,
            (s, c),
        );
    }
    assert((last == 0 || last == 128) && (late == 0 || late == 64) && (last | (late | before)) & 192
        == 0 ==> (last | (late | before)) == before) by (bit_vector);
}

/// A private college enrols no more students than it planned. In the results
/// of a year its enrolments are within its planned first offers, or within
/// its target and its waitlist pool together, whichever is more.
pub proof fn lemma_enrolled_within_plan(
    epoch: i32,
    conf: &Config,
    colleges_before: Seq<College>,
    students_before: Seq<Student>,
    trace: YearTrace,
    colleges: Seq<College>,
    students: Seq<Student>,
    next: Seq<College>,
    college_results: Seq<CollegeResult>,
    student_results: Seq<StudentResult>,
    c: int,
)
    requires
        roster(colleges_before),
        cohort(students_before, conf),
        is_course(trace, conf, colleges_before, colleges, students_before, students),
        year_done(
            epoch,
            conf,
            colleges_before,
            colleges,
            students_before,
            students,
            trace.status,
            next,
            college_results,
            student_results,
        ),
        0 <= c < colleges.len(),
        colleges[c].is_private(),
    ensures
        college_results[c].admissons <= colleges[c].new_enroll_num || college_results[c].admissons
            <= (colleges[c].spec_target() as usize) + colleges[c].add_enroll_num,
{
    let n = colleges_before.len();
    let k = students_before.len();
    let row = row_entries(trace.status, c, k);
    let earlier = row_entries(trace.status_second, c, k);
    lemma_row_entries(trace.status, c, k);
    lemma_row_entries(trace.status_second, c, k);
    lemma_counts(row);
    lemma_counts(earlier);
    lemma_enrolled_early(earlier);
    lemma_offers_within_plan(
        epoch,
        conf,
        colleges_before,
        students_before,
        trace,
        colleges,
        students,
        next,
        college_results,
        student_results,
        c,
    );
    assert(is_result_of(college_results[c], epoch, colleges[c], students, row));
    assert(after_first_offers(
        colleges_before[c],
        trace.colleges_first[c],
        conf,
        trace.students_applied,
        trace.applications,
        c,
    ));
    assert(after_public_offers(
        trace.colleges_first[c],
        colleges[c],
        conf,
        trace.students_first,
        trace.applications,
        c,
    ));
    let public = public_offers(
        trace.colleges_first[c],
        conf,
        trace.students_first,
        trace.applications,
        c,
    );
    let late = waitlist_offers(colleges[c], conf, trace.students_second, trace.status_second, c);
    assert(waitlist_sound(colleges[c], conf, trace.students_second, trace.status_second, c));
    assert(17u8 & 16u8 != 0 && 193u8 & 64u8 != 0 && 11u8 & 192u8 == 0 && 39u8 & 192u8 == 0)
        by (bit_vector);
    assert forall|i: int| 0 <= i < row.len() implies ((#[trigger] row[i]).1 == R_ADMISSION_2ND
        ==> agents(public).contains(row[i].0)) && (row[i].1 == R_ADMISSION_3RD ==> agents(
        late,
    ).contains(row[i].0)) && (row[i].1 == R_ADMISSION_1ST ==> with_status(
        earlier,
        R_ADMISSION_1ST,
    ).contains(row[i].0)) && (row[i].1 == R_ADMISSION_RSV ==> with_status(
        earlier,
        R_ADMISSION_RSV,
    ).contains(row[i].0)) by {
        let s = row[i].0 as int;
        lemma_offer_flags(trace, conf, colleges_before, colleges, students_before, students, c, s);
        lemma_settled_early(trace, conf, colleges_before, colleges, students_before, students, c, s);
        if row[i].1 == R_ADMISSION_2ND {
            lemma_round_entry(
                |c: int|
                    public_offers(
                        trace.colleges_first[c],
                        conf,
                        trace.students_first,
                        trace.applications,
                        c,
                    ),
                n,
                (s, c),
            );
        }
        if row[i].1 == R_ADMISSION_3RD {
            lemma_round_entry(
                |c: int|
                    waitlist_offers(colleges[c], conf, trace.students_second, trace.status_second, c),
                n,
                (s, c),
            );
            let j = choose|j: int| 0 <= j < late.len() && (#[trigger] late[j]).0 == s;
            assert(agents(late)[j] == row[i].0);
        }
        if row[i].1 == R_ADMISSION_1ST || row[i].1 == R_ADMISSION_RSV {
            assert(trace.status_second.contains_key((c, s)));
            let j = choose|j: int| 0 <= j < earlier.len() && #[trigger] earlier[j].0 == s;
            assert(earlier[j].1 == row[i].1);
            lemma_with_status_counts(earlier, row[i].1);
        }
    }
    lemma_status_within(row, R_ADMISSION_2ND, agents(public));
    lemma_status_within(row, R_ADMISSION_3RD, agents(late));
    lemma_with_status_counts(earlier, R_ADMISSION_1ST);
    lemma_with_status_counts(earlier, R_ADMISSION_RSV);
    lemma_status_within(row, R_ADMISSION_1ST, with_status(earlier, R_ADMISSION_1ST));
    lemma_status_within(row, R_ADMISSION_RSV, with_status(earlier, R_ADMISSION_RSV));
    let early = enrolled_early(earlier);
    let target = colleges[c].spec_target() as usize;
    let pool = colleges[c].add_enroll_num;
    let rejected = scored(trace.students_second, with_status(earlier, R_FAILED), c as usize);
    let limit = backfill_limit(early as usize, target, pool, rejected);
    assert(late.len() <= limit);
    assert(count_status(row, R_ADMISSION_2ND) == 0);
    assert(count_status(row, R_ADMISSION_3RD) <= late.len());
    assert(count_status(row, R_ADMISSION_1ST) + count_status(row, R_ADMISSION_RSV) <= early);
    assert(0 <= early <= earlier.len());
    if shortfall(early as usize, target) == 0 {
        assert(college_results[c].enroll_add_count == 0);
    } else {
        assert(limit <= target - early + pool);
    }
}

/// All enrolments of a year.
pub open spec fn enrolled_in_all(results: Seq<CollegeResult>) -> int
    decreases results.len(),
{
    if results.len() == 0 {
        0
    } else {
        enrolled_in_all(results.drop_last()) + results.last().admissons
    }
}

/// All places of the colleges.
pub open spec fn places_in_all(colleges: Seq<College>) -> int
    decreases colleges.len(),
{
    if colleges.len() == 0 {
        0
    } else {
        places_in_all(colleges.drop_last()) + colleges.last().enroll
    }
}

/// The plan that a college has noted in its year is within its places: a
/// private college plans no more first offers than it has places, and its
/// target and its waitlist pool together are no more than its places.
pub open spec fn plans_within_places(college: College) -> bool {
    college.is_private() ==> college.new_enroll_num <= college.enroll && (
    college.spec_target() as usize) + college.add_enroll_num <= college.enroll
}

/// Where no college enrols more than it has places, all enrolments are
/// within all places.
pub proof fn lemma_sums_within(results: Seq<CollegeResult>, colleges: Seq<College>)
    requires
        results.len() == colleges.len(),
        forall|c: int| 0 <= c < results.len() ==> (#[trigger] results[c]).admissons <= colleges[c].enroll,
    ensures
        enrolled_in_all(results) <= places_in_all(colleges),
    decreases results.len(),
{
    if results.len() > 0 {
        assert forall|c: int| 0 <= c < results.drop_last().len() implies (
        #[trigger] results.drop_last()[c]).admissons <= colleges.drop_last()[c].enroll by {
            assert(results[c].admissons <= colleges[c].enroll);
        }
        lemma_sums_within(results.drop_last(), colleges.drop_last());
        assert(results[results.len() - 1].admissons <= colleges[results.len() - 1].enroll);
    }
}

/// Where the plans of all colleges are within their places, a year enrols
/// no more students than the colleges have places: none at any college, and
/// so none in all.
pub proof fn lemma_enrolled_within_places(
    epoch: i32,
    conf: &Config,
    colleges_before: Seq<College>,
    students_before: Seq<Student>,
    trace: YearTrace,
    colleges: Seq<College>,
    students: Seq<Student>,
    next: Seq<College>,
    college_results: Seq<CollegeResult>,
    student_results: Seq<StudentResult>,
)
    requires
        roster(colleges_before),
        cohort(students_before, conf),
        is_course(trace, conf, colleges_before, colleges, students_before, students),
        year_done(
            epoch,
            conf,
            colleges_before,
            colleges,
            students_before,
            students,
            trace.status,
            next,
            college_results,
            student_results,
        ),
        forall|c: int| 0 <= c < colleges.len() ==> plans_within_places(#[trigger] colleges[c]),
    ensures
        forall|c: int|
            0 <= c < colleges.len() ==> (#[trigger] college_results[c]).admissons
                <= colleges[c].enroll,
        enrolled_in_all(college_results) <= places_in_all(colleges),
{
    assert forall|c: int| 0 <= c < colleges.len() implies (#[trigger] college_results[c]).admissons
        <= colleges[c].enroll by {
        assert(plans_within_places(colleges[c]));
        lemma_offers_within_plan(
            epoch,
            conf,
            colleges_before,
            students_before,
            trace,
            colleges,
            students,
            next,
            college_results,
            student_results,
            c,
        );
        if colleges[c].is_private() {
            lemma_enrolled_within_plan(
                epoch,
                conf,
                colleges_before,
                students_before,
                trace,
                colleges,
                students,
                next,
                college_results,
                student_results,
                c,
            );
        }
    }
    lemma_sums_within(college_results, colleges);
}

} // verus!
