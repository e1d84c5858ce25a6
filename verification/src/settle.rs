//! The end of a year: what it did to each college and each student, and the
//! colleges as they go into the next year.

use crate::college::{capped_sum, scores_of, College, CollegeResult};
use crate::config::Config;
use crate::flags::{
    is_admitted, spec_is_admitted, ENROLL_1ST, ENROLL_2ND, ENROLL_3RD, R_ADMISSION_1ST,
    R_ADMISSION_2ND, R_ADMISSION_3RD, R_ADMISSION_RSV, R_DECLINE1, R_DECLINE1_PAID, R_DECLINE2,
};
use crate::choice::row_within;
use crate::matrix::{lemma_row_entries, row_entries, StatusMatrix};
use crate::ranking::rising;
use crate::ratio::{mean_rounded, round_mean};
use crate::round::{numbered, on_record};
use crate::reduce::{lemma_listed, listed, listed_value, one_each};
use crate::student::{is_student_result, logged, Student, StudentResult};
use std::collections::HashMap;
use vstd::prelude::*;

verus! {

/// How many entries of a row have exactly the status.
pub open spec fn count_status(row: Seq<(usize, u8)>, status: u8) -> int
    decreases row.len(),
{
    if row.len() == 0 {
        0
    } else if row.last().1 == status {
        count_status(row.drop_last(), status) + 1
    } else {
        count_status(row.drop_last(), status)
    }
}

/// How many entries of a row have an event of `flag` in their status.
pub open spec fn count_flag(row: Seq<(usize, u8)>, flag: u8) -> int
    decreases row.len(),
{
    if row.len() == 0 {
        0
    } else if row.last().1 & flag != 0 {
        count_flag(row.drop_last(), flag) + 1
    } else {
        count_flag(row.drop_last(), flag)
    }
}

/// How many entries of a row say that the student is enrolled.
pub open spec fn count_admitted(row: Seq<(usize, u8)>) -> int
    decreases row.len(),
{
    if row.len() == 0 {
        0
    } else if spec_is_admitted(row.last().1) {
        count_admitted(row.drop_last()) + 1
    } else {
        count_admitted(row.drop_last())
    }
}

/// The sum of the exam scores that the students enrolled by a row reached
/// at the college.
pub open spec fn admitted_sum(students: Seq<Student>, row: Seq<(usize, u8)>, cid: usize) -> int
    decreases row.len(),
{
    if row.len() == 0 {
        0
    } else if spec_is_admitted(row.last().1) {
        admitted_sum(students, row.drop_last(), cid) + students[row.last().0 as int].exam(cid)
    } else {
        admitted_sum(students, row.drop_last(), cid)
    }
}

/// The mean exam score of those enrolled, and zero where nobody is.
pub open spec fn new_score(students: Seq<Student>, row: Seq<(usize, u8)>, cid: usize) -> int {
    if count_admitted(row) == 0 {
        0
    } else {
        mean_rounded(admitted_sum(students, row, cid), count_admitted(row))
    }
}

/// A count kept within the range of a count.
pub open spec fn capped(n: int) -> u32 {
    if n > u32::MAX {
        u32::MAX
    } else {
        n as u32
    }
}

/// `result` is what the year did to `college`, whose row of the final status
/// matrix is `row`.
pub open spec fn is_result_of(
    result: CollegeResult,
    epoch: i32,
    college: College,
    students: Seq<Student>,
    row: Seq<(usize, u8)>,
) -> bool {
    &&& result.epoch == epoch
    &&& result.index == college.index
    &&& result.cid == college.cid
    &&& result.institute == college.institute
    &&& result.dev == college.score
    &&& result.enroll == college.enroll
    &&& result.over_rate == college.over_rate
    &&& result.apply_count == row.len()
    &&& result.decline1 == count_status(row, R_DECLINE1)
    &&& result.decline2 == count_status(row, R_DECLINE2)
    &&& result.enroll_1st_count == capped(count_flag(row, ENROLL_1ST) + count_flag(row, ENROLL_2ND))
    &&& result.enroll_add_count == count_flag(row, ENROLL_3RD)
    &&& result.paid_only_count == count_status(row, R_DECLINE1_PAID)
    &&& result.admisson_1st == count_status(row, R_ADMISSION_1ST) + count_status(
        row,
        R_ADMISSION_2ND,
    )
    &&& result.admisson_rsv == count_status(row, R_ADMISSION_RSV)
    &&& result.admisson_add == count_status(row, R_ADMISSION_3RD)
    &&& result.admissons == count_admitted(row)
    &&& result.new_deviation == new_score(students, row, college.index)
    &&& result.payments == capped(count_admitted(row) + count_status(row, R_DECLINE1_PAID))
}

/// The counts of a row are within its length, and those enrolled are the
/// enrolled of the four ways together.
pub proof fn lemma_counts(row: Seq<(usize, u8)>)
    ensures
        forall|status: u8| 0 <= #[trigger] count_status(row, status) <= row.len(),
        forall|flag: u8| 0 <= #[trigger] count_flag(row, flag) <= row.len(),
        0 <= count_admitted(row) <= row.len(),
        count_admitted(row) == count_status(row, R_ADMISSION_1ST) + count_status(
            row,
            R_ADMISSION_2ND,
        ) + count_status(row, R_ADMISSION_RSV) + count_status(row, R_ADMISSION_3RD),
    decreases row.len(),
{
    if row.len() > 0 {
        lemma_counts(row.drop_last());
        assert forall|status: u8| 0 <= #[trigger] count_status(row, status) <= row.len() by {
            assert(0 <= count_status(row.drop_last(), status) <= row.len() - 1);
        }
        assert forall|flag: u8| 0 <= #[trigger] count_flag(row, flag) <= row.len() by {
            assert(0 <= count_flag(row.drop_last(), flag) <= row.len() - 1);
        }
    }
}

/// The count that the counters hold for a status: none where they have no
/// entry for it.
pub open spec fn counted(counters: Map<u8, u32>, key: u8) -> int {
    if counters.contains_key(key) {
        counters[key] as int
    } else {
        0
    }
}

/// The count that the counters hold for the status `key`, and nothing where
/// they hold none.
pub fn count_eq(m: &HashMap<u8, u32>, key: &u8) -> (n: u32)
    ensures
        n == counted(m@, *key),
{
    match m.get(key) {
        Some(val) => *val,
        None => 0,
    }
}

/// Counters for a row: for each status, how many entries of the row have it.
pub fn tally(row: &Vec<(usize, u8)>) -> (counters: HashMap<u8, u32>)
    requires
        row.len() <= u32::MAX,
    ensures
        forall|status: u8| #[trigger] counted(counters@, status) == count_status(row@, status),
{
    let mut counters: HashMap<u8, u32> = HashMap::new();
    let mut i: usize = 0;
    while i < row.len()
        invariant
            i <= row.len(),
            row.len() <= u32::MAX,
            forall|status: u8| #[trigger]
                counted(counters@, status) == count_status(row@.take(i as int), status),
        decreases row.len() - i,
    {
        let val = row[i].1;
        let n = count_eq(&counters, &val);
        proof {
            lemma_counts(row@.take(i as int));
            assert(n == count_status(row@.take(i as int), val));
            assert(row@.take(i + 1).drop_last() =~= row@.take(i as int));
        }
        let ghost before = counters@;
        counters.insert(val, n + 1);
        proof {
            assert forall|status: u8| #[trigger]
                counted(counters@, status) == count_status(row@.take(i + 1), status) by {
                assert(counted(before, status) == count_status(row@.take(i as int), status));
            }
        }
        i += 1;
    }
    assert(row@.take(row.len() as int) =~= row@);
    counters
}

/// How many entries of the row have an event of `key` in their status.
pub fn count(row: &Vec<(usize, u8)>, key: u8) -> (n: u32)
    requires
        row.len() <= u32::MAX,
    ensures
        n == count_flag(row@, key),
{
    let mut n: u32 = 0;
    let mut i: usize = 0;
    while i < row.len()
        invariant
            i <= row.len(),
            row.len() <= u32::MAX,
            n == count_flag(row@.take(i as int), key),
            n <= i,
        decreases row.len() - i,
    {
        assert(row@.take(i + 1).drop_last() =~= row@.take(i as int));
        if row[i].1 & key != 0 {
            n += 1;
        }
        i += 1;
    }
    assert(row@.take(row.len() as int) =~= row@);
    n
}

/// The sum of two counts, kept within the range of a count.
fn add_capped(a: u32, b: u32) -> (sum: u32)
    ensures
        sum == capped(a + b),
{
    match a.checked_add(b) {
        Some(s) => s,
        None => u32::MAX,
    }
}

/// Number and mean exam score of the students that a row shows enrolled.
fn enrolled_mean(students: &Vec<Student>, row: &Vec<(usize, u8)>, cid: usize) -> (out: (u32, i32))
    requires
        row.len() <= u32::MAX,
        forall|i: int|
            0 <= i < row.len() ==> (#[trigger] row[i]).0 < students.len() && students[row[i].0 as int].sat(
                cid,
            ),
    ensures
        out.0 == count_admitted(row@),
        out.1 == new_score(students@, row@, cid),
{
    let mut n: u32 = 0;
    let mut sum: i128 = 0;
    let mut i: usize = 0;
    while i < row.len()
        invariant
            i <= row.len(),
            row.len() <= u32::MAX,
            forall|k: int|
                0 <= k < row.len() ==> (#[trigger] row[k]).0 < students.len()
                    && students[row[k].0 as int].sat(cid),
            n == count_admitted(row@.take(i as int)),
            n <= i,
            sum == admitted_sum(students@, row@.take(i as int), cid),
            -0x8000_0000 * n <= sum <= 0x7fff_ffff * n,
        decreases row.len() - i,
    {
        assert(row@.take(i + 1).drop_last() =~= row@.take(i as int));
        if is_admitted(row[i].1) {
            let score = students[row[i].0].exam_dev(cid);
            n += 1;
            sum = sum + score as i128;
        }
        i += 1;
    }
    assert(row@.take(row.len() as int) =~= row@);
    if n == 0 {
        (0, 0)
    } else {
        (n, round_mean(sum, n as u64))
    }
}

/// What the year did to one college.
fn college_result(
    epoch: i32,
    college: &College,
    students: &Vec<Student>,
    row: &Vec<(usize, u8)>,
) -> (result: CollegeResult)
    requires
        row.len() <= u32::MAX,
        forall|i: int|
            0 <= i < row.len() ==> (#[trigger] row[i]).0 < students.len() && students[row[i].0 as int].sat(
                college.index,
            ),
    ensures
        is_result_of(result, epoch, *college, students@, row@),
{
    proof {
        lemma_counts(row@);
    }
    let (admissons, new_deviation) = enrolled_mean(students, row, college.index);
    let counters = tally(row);
    let paid_only_count = count_eq(&counters, &R_DECLINE1_PAID);
    let first = count_eq(&counters, &R_ADMISSION_1ST);
    let public = count_eq(&counters, &R_ADMISSION_2ND);
    proof {
        assert(counted(counters@, R_DECLINE1) == count_status(row@, R_DECLINE1));
        assert(counted(counters@, R_DECLINE2) == count_status(row@, R_DECLINE2));
        assert(counted(counters@, R_DECLINE1_PAID) == count_status(row@, R_DECLINE1_PAID));
        assert(counted(counters@, R_ADMISSION_1ST) == count_status(row@, R_ADMISSION_1ST));
        assert(counted(counters@, R_ADMISSION_2ND) == count_status(row@, R_ADMISSION_2ND));
        assert(counted(counters@, R_ADMISSION_RSV) == count_status(row@, R_ADMISSION_RSV));
        assert(counted(counters@, R_ADMISSION_3RD) == count_status(row@, R_ADMISSION_3RD));
    }
    CollegeResult {
        epoch,
        index: college.index,
        cid: college.cid,
        institute: college.institute,
        dev: college.score,
        enroll: college.enroll,
        over_rate: college.over_rate,
        apply_count: row.len() as u32,
        decline1: count_eq(&counters, &R_DECLINE1),
        decline2: count_eq(&counters, &R_DECLINE2),
        enroll_1st_count: add_capped(count(row, ENROLL_1ST), count(row, ENROLL_2ND)),
        enroll_add_count: count(row, ENROLL_3RD),
        paid_only_count,
        admisson_1st: first + public,
        admisson_rsv: count_eq(&counters, &R_ADMISSION_RSV),
        admisson_add: count_eq(&counters, &R_ADMISSION_3RD),
        admissons,
        new_deviation,
        payments: add_capped(admissons, paid_only_count),
    }
}

/// The score with which a college goes into the next year.
pub open spec fn next_score(college: College, result: CollegeResult, conf: &Config) -> i32 {
    if conf.update_dev {
        result.new_deviation
    } else {
        college.score
    }
}

/// `next` is `college` as it goes into the next year after `result`, but for
/// its place in the list.
pub open spec fn is_next_of(next: College, college: College, result: CollegeResult, conf: &Config) -> bool {
    &&& next.epoch == college.epoch + 1
    &&& next.cid == college.cid
    &&& next.institute == college.institute
    &&& next.same_scratch(&college)
    &&& next.score == next_score(college, result, conf)
    &&& next.adm_num == result.admissons
    &&& next.passed_num == capped_sum(result.enroll_1st_count, result.enroll_add_count)
    &&& next.applicant_num == result.apply_count
    &&& next.over_rate == (crate::ratio::Fraction {
        num: result.enroll_1st_count,
        den: result.admissons,
    })
    &&& next.dev_history@ == college.dev_history@.push(result.new_deviation)
    &&& next.adm_history@ == college.adm_history@.push(result.admissons)
    &&& next.fillrate_history@ == college.fillrate_history@.push(
        crate::ratio::ratio_rounded(result.admissons * 1000, college.enroll as int) as usize,
    )
    &&& match crate::college::next_grant(conf, college.epoch, college.cid) {
        Some(grant) => next.enroll == grant.0 && next.capa == grant.1,
        None => next.enroll == college.enroll && next.capa == college.capa,
    }
}

/// The scores with which the colleges go into the next year.
pub open spec fn next_scores(
    colleges: Seq<College>,
    results: Seq<CollegeResult>,
    conf: &Config,
) -> Seq<i32> {
    Seq::new(colleges.len(), |c: int| next_score(colleges[c], results[c], conf))
}

/// The college at place `i` of the next year's list is the college that
/// belongs there by rising score, as it goes out of this year.
pub open spec fn next_in_order(
    next: Seq<College>,
    colleges: Seq<College>,
    results: Seq<CollegeResult>,
    conf: &Config,
    i: int,
) -> bool {
    let c = rising(next_scores(colleges, results, conf))[i] as int;
    0 <= c < colleges.len() && is_next_of(next[i], colleges[c], results[c], conf)
}

/// The end of the year. `status` is the final status matrix, a row for each
/// college and a column for each student. The result holds the colleges as
/// they go into the next year, by rising score and numbered anew, what the
/// year did to each college, and what it did to each student.
pub fn settle(
    epoch: i32,
    students: &Vec<Student>,
    colleges: &Vec<College>,
    status: &StatusMatrix,
    conf: &Config,
) -> (out: (Vec<College>, Vec<CollegeResult>, Vec<StudentResult>))
    requires
        crate::college::indexed(colleges@),
        colleges.len() < usize::MAX,
        students.len() <= u32::MAX,
        status.rows() == colleges.len(),
        status.cols() == students.len(),
        numbered(students@),
        on_record(students@, status@),
        forall|c: int| 0 <= c < colleges.len() ==> (#[trigger] colleges[c]).epoch < usize::MAX,
    ensures
        out.0.len() == colleges.len(),
        out.1.len() == colleges.len(),
        out.2.len() == students.len(),
        forall|c: int|
            0 <= c < colleges.len() ==> is_result_of(
                #[trigger] out.1[c],
                epoch,
                colleges[c],
                students@,
                row_entries(status@, c, students.len() as nat),
            ),
        crate::college::sorted_by_score(out.0@),
        crate::college::indexed(out.0@),
        forall|i: int|
            0 <= i < out.0.len() ==> #[trigger] next_in_order(out.0@, colleges@, out.1@, conf, i),
        forall|s: int|
            0 <= s < students.len() ==> is_student_result(
                #[trigger] out.2[s],
                epoch,
                students[s],
                row_entries(crate::matrix::transposed(status@), s, colleges.len() as nat),
                colleges@,
            ),
{
    let rows = status.by_row();
    let mut results: Vec<CollegeResult> = Vec::new();
    let mut updated: Vec<College> = Vec::new();
    let mut c: usize = 0;
    while c < colleges.len()
        invariant
            c <= colleges.len(),
            crate::college::indexed(colleges@),
            students.len() <= u32::MAX,
            status.cols() == students.len(),
            on_record(students@, status@),
            rows.len() == colleges.len(),
            forall|r: int|
                0 <= r < rows.len() ==> (#[trigger] rows[r])@ == row_entries(status@, r, status.cols()),
            forall|p: int| 0 <= p < colleges.len() ==> (#[trigger] colleges[p]).epoch < usize::MAX,
            results.len() == c,
            updated.len() == c,
            forall|p: int|
                0 <= p < c ==> is_result_of(
                    #[trigger] results[p],
                    epoch,
                    colleges[p],
                    students@,
                    row_entries(status@, p, students.len() as nat),
                ),
            forall|p: int|
                0 <= p < c ==> is_next_of(#[trigger] updated[p], colleges[p], results[p], conf),
        decreases colleges.len() - c,
    {
        proof {
            lemma_row_entries(status@, c as int, students.len() as nat);
            let row = row_entries(status@, c as int, students.len() as nat);
            assert(colleges[c as int].index == c);
            assert forall|i: int| 0 <= i < row.len() implies (#[trigger] row[i]).0 < students.len()
                && students[row[i].0 as int].sat(c) by {
                assert(status@.contains_key((c as int, row[i].0 as int)));
            }
        }
        let result = college_result(epoch, &colleges[c], students, &rows[c]);
        let next = colleges[c].update(&result, conf);
        updated.push(next);
        results.push(result);
        c += 1;
    }
    let next_colleges = College::arrange(&updated);
    proof {
        assert(scores_of(updated@) =~= next_scores(colleges@, results@, conf));
        crate::ranking::lemma_rising(scores_of(updated@));
        assert forall|i: int| 0 <= i < next_colleges.len() implies #[trigger] next_in_order(
            next_colleges@,
            colleges@,
            results@,
            conf,
            i,
        ) by {
            let c = rising(scores_of(updated@))[i] as int;
            assert(is_next_of(updated[c], colleges[c], results[c], conf));
            assert(next_colleges[i].same_but_index(&updated[c]));
        }
    }
    proof {
        assert forall|r: int| 0 <= r < rows.len() implies one_each(#[trigger] rows[r]@) by {
            lemma_row_entries(status@, r, students.len() as nat);
        }
    }
    let mut smap = student_map(&rows);
    proof {
        assert forall|id: usize| row_within(
            #[trigger] logged(smap@, id),
            colleges.len() as int,
        ) by {
            lemma_log_within(rows@, id, rows.len() as nat);
        }
    }
    let student_results = crate::student::settle(epoch, students, &mut smap, colleges);
    proof {
        assert forall|s: int| 0 <= s < students.len() implies is_student_result(
            #[trigger] student_results[s],
            epoch,
            students[s],
            row_entries(crate::matrix::transposed(status@), s, colleges.len() as nat),
            colleges@,
        ) by {
            assert(students[s].id == s);
            lemma_log_from(status@, rows@, s as usize, rows.len() as nat, students.len() as nat);
        }
    }
    (next_colleges, results, student_results)
}

/// A log with the entry of a college added, where the list of the college
/// has an entry for the student.
pub open spec fn extended(log: Seq<(usize, u8)>, list: Seq<(usize, u8)>, id: usize, c: usize) -> Seq<
    (usize, u8),
> {
    if listed(list, id as int) {
        log.push((c, listed_value(list, id as int)))
    } else {
        log
    }
}

/// The log of a student over the first `upto` colleges: for each college
/// whose row has an entry for the student, the college and the status,
/// by rising college.
pub open spec fn log_from(rows: Seq<Vec<(usize, u8)>>, id: usize, upto: nat) -> Seq<(usize, u8)>
    decreases upto,
{
    if upto == 0 {
        Seq::empty()
    } else {
        extended(
            log_from(rows, id, (upto - 1) as nat),
            rows[upto - 1]@,
            id,
            (upto - 1) as usize,
        )
    }
}

/// What one more entry of a list does to what the list has for a student.
pub proof fn lemma_prefix_listed(list: Seq<(usize, u8)>, i: int, id: usize)
    requires
        one_each(list),
        0 <= i < list.len(),
    ensures
        list[i].0 == id ==> !listed(list.take(i), id as int) && listed(list.take(i + 1), id as int)
            && listed_value(list.take(i + 1), id as int) == list[i].1,
        list[i].0 != id ==> listed(list.take(i + 1), id as int) == listed(list.take(i), id as int)
            && (listed(list.take(i), id as int) ==> listed_value(list.take(i + 1), id as int)
            == listed_value(list.take(i), id as int)),
{
    let short = list.take(i);
    let long = list.take(i + 1);
    assert forall|a: int, b: int| 0 <= a < b < long.len() implies (#[trigger] long[a]).0 != (
    #[trigger] long[b]).0 by {
        assert(long[a] == list[a] && long[b] == list[b]);
    }
    assert forall|a: int, b: int| 0 <= a < b < short.len() implies (#[trigger] short[a]).0 != (
    #[trigger] short[b]).0 by {
        assert(short[a] == list[a] && short[b] == list[b]);
    }
    if list[i].0 == id {
        if listed(short, id as int) {
            let j = choose|j: int| 0 <= j < short.len() && (#[trigger] short[j]).0 == id as int;
            assert(short[j] == list[j]);
            assert(list[j].0 != list[i].0);
        }
        assert(long[i] == list[i]);
        lemma_listed(long, i);
    } else {
        if listed(long, id as int) {
            let j = choose|j: int| 0 <= j < long.len() && (#[trigger] long[j]).0 == id as int;
            assert(long[j] == list[j]);
            assert(short[j].0 == id);
        }
        if listed(short, id as int) {
            let j = choose|j: int| 0 <= j < short.len() && (#[trigger] short[j]).0 == id as int;
            assert(short[j] == list[j]);
            assert(long[j] == list[j]);
            lemma_listed(short, j);
            lemma_listed(long, j);
        }
    }
}

/// Every entry of the log of a student names one of the colleges gone through.
pub proof fn lemma_log_within(rows: Seq<Vec<(usize, u8)>>, id: usize, upto: nat)
    requires
        upto <= usize::MAX,
    ensures
        row_within(log_from(rows, id, upto), upto as int),
    decreases upto,
{
    if upto > 0 {
        lemma_log_within(rows, id, (upto - 1) as nat);
    }
}

/// The log of a student from the rows of the colleges is the row of the
/// student in the status with rows and columns exchanged.
pub proof fn lemma_log_from(
    status: Map<(int, int), u8>,
    rows: Seq<Vec<(usize, u8)>>,
    id: usize,
    upto: nat,
    cols: nat,
)
    requires
        upto <= rows.len(),
        upto <= usize::MAX,
        id < cols <= usize::MAX,
        forall|r: int| 0 <= r < rows.len() ==> (#[trigger] rows[r])@ == row_entries(status, r, cols),
    ensures
        log_from(rows, id, upto) == row_entries(crate::matrix::transposed(status), id as int, upto),
    decreases upto,
{
    if upto > 0 {
        lemma_log_from(status, rows, id, (upto - 1) as nat, cols);
        let c = upto - 1;
        let row = rows[c]@;
        lemma_row_entries(status, c, cols);
        if listed(row, id as int) {
            let j = choose|j: int| 0 <= j < row.len() && (#[trigger] row[j]).0 == id as int;
            assert(status.contains_key((c, row[j].0 as int)));
        }
        if status.contains_key((c, id as int)) {
            let j = choose|j: int| 0 <= j < row.len() && #[trigger] row[j].0 == id as int;
            assert(row[j].0 == id as int);
        }
    }
}

/// The logs of the students by their numbers, from the rows of the
/// colleges: each entry of the row of a college goes to the log of its
/// student, with the place of the college. A student that no row has an
/// entry for gets no log.
pub fn student_map(rows: &Vec<Vec<(usize, u8)>>) -> (smap: HashMap<usize, Vec<(usize, u8)>>)
    requires
        forall|r: int| 0 <= r < rows.len() ==> one_each(#[trigger] rows[r]@),
    ensures
        forall|id: usize| #[trigger] logged(smap@, id) == log_from(rows@, id, rows.len() as nat),
{
    let mut smap: HashMap<usize, Vec<(usize, u8)>> = HashMap::new();
    let mut c: usize = 0;
    while c < rows.len()
        invariant
            c <= rows.len(),
            forall|r: int| 0 <= r < rows.len() ==> one_each(#[trigger] rows[r]@),
            forall|id: usize| #[trigger] logged(smap@, id) == log_from(rows@, id, c as nat),
        decreases rows.len() - c,
    {
        let row = &rows[c];
        let mut i: usize = 0;
        assert(row@.take(0) =~= Seq::<(usize, u8)>::empty());
        while i < row.len()
            invariant
                i <= row.len(),
                c < rows.len(),
                one_each(row@),
                row@ == rows@[c as int]@,
                forall|id: usize| #[trigger]
                    logged(smap@, id) == extended(
                        log_from(rows@, id, c as nat),
                        row@.take(i as int),
                        id,
                        c,
                    ),
            decreases row.len() - i,
        {
            let sid = row[i].0;
            let val = row[i].1;
            let ghost before = smap@;
            let mut list = match smap.remove(&sid) {
                Some(v) => v,
                None => Vec::new(),
            };
            assert(list@ == logged(before, sid));
            list.push((c, val));
            smap.insert(sid, list);
            proof {
                assert forall|id: usize| #[trigger]
                    logged(smap@, id) == extended(
                        log_from(rows@, id, c as nat),
                        row@.take(i + 1),
                        id,
                        c,
                    ) by {
                    assert(logged(before, id) == extended(
                        log_from(rows@, id, c as nat),
                        row@.take(i as int),
                        id,
                        c,
                    ));
                    lemma_prefix_listed(row@, i as int, id);
                }
            }
            i += 1;
        }
        proof {
            assert(row@.take(row.len() as int) =~= row@);
        }
        c += 1;
    }
    smap
}

} // verus!
