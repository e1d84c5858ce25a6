//! A year is a function of what goes into it: two courses of a year from the
//! same colleges, students and configuration are the same, round by round.

use crate::band::{band, band_weights_of, count_below, is_selection, selection, width};
use crate::choice::{best_with, is_best, lemma_best_unique, row_within};
use crate::college::{lemma_with_status, scored, with_status, College, CollegeResult};
use crate::config::Config;
use crate::flags::{ENROLL_1ST, ENROLL_2ND, R_ENROLL_3RD, R_FAILED, R_RESERVED};
use crate::matrix::{lemma_row_entries, row_entries, transposed};
use crate::ranking::rising;
use crate::settle::{admitted_sum, is_result_of, next_in_order, next_scores};
use crate::round::{
    after_application, after_first_decision, after_first_offers, after_later_decision,
    after_public_offers, agents_of, applicants, first_answers, first_offers, later_decision,
    marked, public_offers, round_cells, waitlist_offers,
};
use crate::student::{
    application_draws, drawn_colleges, exams_within, favourite, is_application, is_group,
    is_student_result, log_of,
    is_preferred, lemma_preferred_unique, lemma_rank_draws_alike, member, national_band, national_choice,
    national_draw_of, places_of, rank_bands, rank_draws, wanted_from, ApplyPattern, Student,
    StudentResult,
};
use crate::stream::state_words;
use crate::year::{cohort, is_course, is_year, roster, whole_group, year_done, YearTrace};
use vstd::prelude::*;

verus! {

/// Two lists of colleges are alike: place by place the colleges have the
/// same standing.
pub open spec fn alike(one: Seq<College>, other: Seq<College>) -> bool {
    &&& one.len() == other.len()
    &&& forall|k: int| 0 <= k < one.len() ==> (#[trigger] one[k]).same_standing(&other[k])
}

/// Two groups that list every college of one kind of two lists that are
/// alike, in their order, are alike.
pub proof fn lemma_groups_alike(
    one: Seq<College>,
    other: Seq<College>,
    colleges: Seq<College>,
    colleges_again: Seq<College>,
    private: bool,
)
    requires
        alike(colleges, colleges_again),
        is_group(one, private, colleges.len() as int),
        is_group(other, private, colleges.len() as int),
        whole_group(one, colleges, private),
        whole_group(other, colleges_again, private),
        forall|j: int|
            0 <= j < one.len() ==> (#[trigger] one[j]).same_standing(&colleges[one[j].index as int]),
        forall|j: int|
            0 <= j < other.len() ==> (#[trigger] other[j]).same_standing(
                &colleges_again[other[j].index as int],
            ),
    ensures
        alike(one, other),
{
    let longer = if one.len() >= other.len() {
        one.len()
    } else {
        other.len()
    };
    lemma_same_places(one, other, colleges, colleges_again, private, longer as int);
    if longer > 0 {
        let last = longer - 1;
        assert(same_place(one, other, last));
    }
    assert forall|k: int| 0 <= k < one.len() implies (#[trigger] one[k]).same_standing(
        &other[k],
    ) by {
        assert(same_place(one, other, k));
        assert(one[k].same_standing(&colleges[one[k].index as int]));
        assert(other[k].same_standing(&colleges_again[other[k].index as int]));
        assert(colleges[one[k].index as int].same_standing(&colleges_again[one[k].index as int]));
    }
}

/// Both groups have a college at the place, and it is the same college.
pub open spec fn same_place(one: Seq<College>, other: Seq<College>, k: int) -> bool {
    k < one.len() && k < other.len() && one[k].index == other[k].index
}

/// Up to any place, two such groups hold the same colleges.
proof fn lemma_same_places(
    one: Seq<College>,
    other: Seq<College>,
    colleges: Seq<College>,
    colleges_again: Seq<College>,
    private: bool,
    upto: int,
)
    requires
        alike(colleges, colleges_again),
        is_group(one, private, colleges.len() as int),
        is_group(other, private, colleges.len() as int),
        whole_group(one, colleges, private),
        whole_group(other, colleges_again, private),
        forall|j: int|
            0 <= j < one.len() ==> (#[trigger] one[j]).same_standing(&colleges[one[j].index as int]),
        forall|j: int|
            0 <= j < other.len() ==> (#[trigger] other[j]).same_standing(
                &colleges_again[other[j].index as int],
            ),
        0 <= upto,
    ensures
        forall|k: int|
            0 <= k < upto && (k < one.len() || k < other.len()) ==> #[trigger] same_place(
                one,
                other,
                k,
            ),
    decreases upto,
{
    if upto > 0 {
        lemma_same_places(one, other, colleges, colleges_again, private, upto - 1);
        let k = upto - 1;
        if k < one.len() {
            let c = one[k].index;
            assert(one[k].same_standing(&colleges[c as int]));
            assert(colleges[c as int].same_standing(&colleges_again[c as int]));
            assert(colleges_again[c as int].is_private() == private);
            assert(member(other, c));
            let j = choose|j: int| 0 <= j < other.len() && (#[trigger] other[j]).index == c;
            if j < k {
                assert(same_place(one, other, j));
            }
        }
        if k < other.len() {
            let c = other[k].index;
            assert(other[k].same_standing(&colleges_again[c as int]));
            assert(colleges[c as int].same_standing(&colleges_again[c as int]));
            assert(colleges[c as int].is_private() == private);
            assert(member(one, c));
            let j = choose|j: int| 0 <= j < one.len() && (#[trigger] one[j]).index == c;
            if j < k {
                assert(same_place(one, other, j));
            }
        }
        if k < one.len() && k < other.len() {
            let j = choose|j: int| 0 <= j < other.len() && (#[trigger] other[j]).index == one[k].index;
            let i = choose|i: int| 0 <= i < one.len() && (#[trigger] one[i]).index == other[k].index;
            assert(member(other, one[k].index));
            assert(member(one, other[k].index));
            if j > k {
                assert(other[k].index < other[j].index);
            }
            if i > k {
                assert(one[k].index < one[i].index);
            }
        }
    }
}

/// Lists that are alike have as many colleges under a threshold.
pub proof fn lemma_count_below_alike(one: Seq<College>, other: Seq<College>, threshold: int)
    requires
        alike(one, other),
    ensures
        count_below(one, threshold) == count_below(other, threshold),
        0 <= count_below(one, threshold) <= one.len(),
    decreases one.len(),
{
    if one.len() > 0 {
        assert(one[one.len() - 1].same_standing(&other[one.len() - 1]));
        assert forall|k: int| 0 <= k < one.drop_last().len() implies (#[trigger] one.drop_last()[k]).same_standing(
            &other.drop_last()[k],
        ) by {
            assert(one[k].same_standing(&other[k]));
        }
        lemma_count_below_alike(one.drop_last(), other.drop_last(), threshold);
    }
}

/// Lists that are alike give a student the same band, and the band lies in
/// the list.
pub proof fn lemma_band_alike(
    one: Seq<College>,
    other: Seq<College>,
    agent_score: i32,
    lower_offset: int,
    upper_offset: int,
)
    requires
        alike(one, other),
    ensures
        band(one, agent_score, lower_offset, upper_offset) == band(
            other,
            agent_score,
            lower_offset,
            upper_offset,
        ),
        one.len() > 0 ==> band(one, agent_score, lower_offset, upper_offset).0 < one.len() && band(
            one,
            agent_score,
            lower_offset,
            upper_offset,
        ).1 < one.len(),
{
    lemma_count_below_alike(one, other, agent_score + lower_offset);
    lemma_count_below_alike(one, other, agent_score + upper_offset + 1);
}

/// From lists that are alike a generator makes the same choice.
pub proof fn lemma_selection_alike(
    words: Seq<u64>,
    bound: (usize, usize),
    select_number: usize,
    one: Seq<College>,
    other: Seq<College>,
    proportional: bool,
)
    requires
        alike(one, other),
        bound.1 < one.len(),
    ensures
        selection(words, bound, select_number, one, proportional) == selection(
            words,
            bound,
            select_number,
            other,
            proportional,
        ),
{
    if width(bound) > 1 {
        assert forall|k: int| 0 <= k < width(bound) implies #[trigger] band_weights_of(bound, one)[k]
            == band_weights_of(bound, other)[k] by {
            assert(one[bound.0 + k].same_standing(&other[bound.0 + k]));
        }
        assert(band_weights_of(bound, one) =~= band_weights_of(bound, other));
    }
}

/// From groups that are alike a generator makes the same draws for the
/// ranks of private colleges.
pub proof fn lemma_rank_draws_of_alike(
    words: Seq<u64>,
    student: Student,
    conf: &Config,
    one: Seq<College>,
    other: Seq<College>,
    national: Option<usize>,
    ranks: nat,
)
    requires
        alike(one, other),
        ranks <= 3,
    ensures
        rank_draws(words, student, conf, one, national, ranks) == rank_draws(
            words,
            student,
            conf,
            other,
            national,
            ranks,
        ),
        rank_bands(conf, student.score, one) == rank_bands(conf, student.score, other),
    decreases ranks,
{
    lemma_rank_bands_alike(conf, student.score, one, other);
    if ranks > 0 {
        lemma_rank_draws_of_alike(words, student, conf, one, other, national, (ranks - 1) as nat);
        if one.len() > 0 {
            let before = rank_draws(words, student, conf, one, national, (ranks - 1) as nat);
            lemma_selection_alike(
                before.1,
                rank_bands(conf, student.score, one)[ranks - 1],
                wanted_from(
                    conf.college_rank_select_number[student.count_pattern as int],
                    ranks - 1,
                    national,
                ),
                one,
                other,
                conf.college_select_by_enroll,
            );
        }
    }
}

/// Groups that are alike give a student the same bands, and the bands lie
/// in the group.
pub proof fn lemma_rank_bands_alike(conf: &Config, score: i32, one: Seq<College>, other: Seq<College>)
    requires
        alike(one, other),
    ensures
        rank_bands(conf, score, one) == rank_bands(conf, score, other),
        one.len() > 0 ==> forall|r: int|
            0 <= r < 3 ==> (#[trigger] rank_bands(conf, score, one)[r]).1 < one.len(),
{
    assert forall|r: int| 0 <= r < 3 implies #[trigger] rank_bands(conf, score, one)[r]
        == rank_bands(conf, score, other)[r] && (one.len() > 0 ==> rank_bands(conf, score, one)[r].1
        < one.len()) by {
        lemma_band_alike(
            one,
            other,
            conf.spec_effective_score(score),
            conf.college_rank_lower[r] * 1000,
            conf.college_rank_upper[r] * 1000,
        );
    }
    assert(rank_bands(conf, score, one) =~= rank_bands(conf, score, other));
}

/// Two students that are alike in what counts for their applications, with
/// streams in the same state, apply to the same colleges, in the same order,
/// where the groups that they see are alike, and their streams are left in
/// the same state.
pub proof fn lemma_application_alike(
    student: Student,
    student_again: Student,
    conf: &Config,
    nationals: Seq<College>,
    privates: Seq<College>,
    nationals_again: Seq<College>,
    privates_again: Seq<College>,
    c_vec: Seq<usize>,
    c_vec_again: Seq<usize>,
)
    requires
        state_words(student.rng) == state_words(student_again.rng),
        student.score == student_again.score,
        student.pattern == student_again.pattern,
        student.count_pattern == student_again.count_pattern,
        alike(nationals, nationals_again),
        alike(privates, privates_again),
        is_application(
            c_vec,
            student,
            conf,
            nationals,
            privates,
            application_draws(student, conf, nationals, privates).0,
            application_draws(student, conf, nationals, privates).1,
        ),
        is_application(
            c_vec_again,
            student_again,
            conf,
            nationals_again,
            privates_again,
            application_draws(student_again, conf, nationals_again, privates_again).0,
            application_draws(student_again, conf, nationals_again, privates_again).1,
        ),
    ensures
        application_draws(student, conf, nationals, privates) == application_draws(
            student_again,
            conf,
            nationals_again,
            privates_again,
        ),
        c_vec == c_vec_again,
{
    let words = state_words(student.rng);
    lemma_band_alike(
        nationals,
        nationals_again,
        conf.spec_effective_score(student.score),
        conf.national_range[0] * 1000,
        conf.national_range[1] * 1000,
    );
    let bound = national_band(student.score, conf, nationals);
    if nationals.len() > 0 {
        lemma_selection_alike(
            words,
            bound,
            1,
            nationals,
            nationals_again,
            conf.college_select_by_enroll,
        );
    }
    let first = if student.pattern == ApplyPattern::Both {
        national_draw_of(words, student.score, conf, nationals)
    } else {
        (Seq::empty(), words)
    };
    let national = if student.pattern == ApplyPattern::Both {
        national_choice(first.0, student.score, conf, nationals)
    } else {
        None
    };
    if national.is_some() {
        assert(is_selection(first.0, bound, 1, nationals, conf.college_select_by_enroll));
        if width(bound) > 1 {
            assert(first.0[0] <= bound.1);
        }
        assert(first.0[0] < nationals.len());
        assert(nationals[first.0[0] as int].same_standing(&nationals_again[first.0[0] as int]));
    }
    assert(national == if student.pattern == ApplyPattern::Both {
        national_choice(first.0, student.score, conf, nationals_again)
    } else {
        None
    });
    lemma_rank_draws_of_alike(first.1, student, conf, privates, privates_again, national, 3);
    lemma_rank_draws_alike(first.1, student, student_again, conf, privates_again, national, 3);
    let picks = rank_draws(first.1, student, conf, privates, national, 3).0;
    assert forall|r: int| 0 <= r < 3 implies places_of(#[trigger] picks[r], privates) == places_of(
        picks[r],
        privates_again,
    ) by {
        lemma_rank_bands_alike(conf, student.score, privates, privates_again);
        let line = rank_bands(conf, student.score, privates)[r];
        assert forall|k: int| 0 <= k < picks[r].len() implies #[trigger] places_of(picks[r], privates)[k]
            == places_of(picks[r], privates_again)[k] by {
            assert(privates.len() > 0);
            assert(is_selection(
                picks[r],
                line,
                wanted_from(
                    conf.college_rank_select_number[student.count_pattern as int],
                    r,
                    national,
                ),
                privates,
                conf.college_select_by_enroll,
            ));
            assert(line.0 < privates.len() && line.1 < privates.len()) by {
                lemma_band_alike(
                    privates,
                    privates_again,
                    conf.spec_effective_score(student.score),
                    conf.college_rank_lower[r] * 1000,
                    conf.college_rank_upper[r] * 1000,
                );
            }
            if width(line) > 1 {
                assert(picks[r][k] <= line.1);
            }
            assert(picks[r][k] < privates.len());
            assert(privates[picks[r][k] as int].same_standing(&privates_again[picks[r][k] as int]));
        }
        assert(places_of(picks[r], privates) =~= places_of(picks[r], privates_again));
    }
    assert(drawn_colleges(picks, privates, national) == drawn_colleges(
        picks,
        privates_again,
        national,
    ));
}

/// Two students are alike: they have the same plan and the same records,
/// and their streams are in the same state.
pub open spec fn same_record(one: Student, other: Student) -> bool {
    &&& one.same_plan(&other)
    &&& one.c_map@ == other.c_map@
    &&& state_words(one.rng) == state_words(other.rng)
}

/// Two lists of students are alike, place by place.
pub open spec fn same_records(one: Seq<Student>, other: Seq<Student>) -> bool {
    &&& one.len() == other.len()
    &&& forall|s: int| 0 <= s < one.len() ==> same_record(#[trigger] one[s], other[s])
}

/// Two lists of colleges are the same in every field, place by place.
pub open spec fn same_colleges(one: Seq<College>, other: Seq<College>) -> bool {
    &&& one.len() == other.len()
    &&& forall|c: int|
        0 <= c < one.len() ==> (#[trigger] one[c]).same_standing(&other[c]) && one[c].same_scratch(
            &other[c],
        )
}

/// Rounds whose agents emit the same lists give the same matrix.
pub proof fn lemma_round_alike(
    one: spec_fn(int) -> Seq<(usize, u8)>,
    other: spec_fn(int) -> Seq<(usize, u8)>,
    agents: nat,
)
    requires
        forall|i: int| 0 <= i < agents ==> #[trigger] one(i) == other(i),
    ensures
        round_cells(one, agents) == round_cells(other, agents),
{
    assert(round_cells(one, agents) =~= round_cells(other, agents));
}

/// Students that are alike reached the same scores in the exam of a college.
pub proof fn lemma_scored_alike(
    one: Seq<Student>,
    other: Seq<Student>,
    candidates: Seq<usize>,
    cid: usize,
)
    requires
        same_records(one, other),
        forall|i: int| 0 <= i < candidates.len() ==> #[trigger] candidates[i] < one.len(),
    ensures
        scored(one, candidates, cid) == scored(other, candidates, cid),
{
    assert forall|k: int| 0 <= k < candidates.len() implies #[trigger] scored(one, candidates, cid)[k]
        == scored(other, candidates, cid)[k] by {
        assert(same_record(one[candidates[k] as int], other[candidates[k] as int]));
    }
    assert(scored(one, candidates, cid) =~= scored(other, candidates, cid));
}

/// A student likes the same college best in lists that are alike.
pub proof fn lemma_favourite_alike(c_map: Seq<(usize, i32)>, one: Seq<College>, other: Seq<College>)
    requires
        alike(one, other),
        exams_within(c_map, one.len() as int),
    ensures
        favourite(c_map, one) == favourite(c_map, other),
{
    assert forall|i: int| is_preferred(c_map, one, i) == is_preferred(c_map, other, i) by {
        assert forall|j: int| 0 <= j < c_map.len() implies one[(#[trigger] c_map[j]).0 as int].score
            == other[c_map[j].0 as int].score by {
            assert(one[c_map[j].0 as int].same_standing(&other[c_map[j].0 as int]));
        }
    }
    if exists|i: int| is_preferred(c_map, one, i) {
        let i = choose|i: int| is_preferred(c_map, one, i);
        assert(is_preferred(c_map, other, i));
        let j = choose|j: int| is_preferred(c_map, other, j);
        lemma_preferred_unique(c_map, other, i, j);
    } else if exists|i: int| is_preferred(c_map, other, i) {
        let i = choose|i: int| is_preferred(c_map, other, i);
        assert(is_preferred(c_map, one, i));
    }
}

/// The best college of a row with a status is the same in lists that are alike.
pub proof fn lemma_best_alike(row: Seq<(usize, u8)>, one: Seq<College>, other: Seq<College>, status: u8)
    requires
        alike(one, other),
        row_within(row, one.len() as int),
    ensures
        best_with(row, one, status) == best_with(row, other, status),
{
    assert forall|i: int| is_best(row, one, status, i) == is_best(row, other, status, i) by {
        assert forall|j: int| 0 <= j < row.len() implies one[(#[trigger] row[j]).0 as int].score
            == other[row[j].0 as int].score by {
            assert(one[row[j].0 as int].same_standing(&other[row[j].0 as int]));
        }
    }
    if exists|i: int| is_best(row, one, status, i) {
        let i = choose|i: int| is_best(row, one, status, i);
        assert(is_best(row, other, status, i));
        let j = choose|j: int| is_best(row, other, status, j);
        lemma_best_unique(row, other, status, i, j);
    } else if exists|i: int| is_best(row, other, status, i) {
        let i = choose|i: int| is_best(row, other, status, i);
        assert(is_best(row, one, status, i));
    }
}

/// Two courses of a year from the same colleges and students show the
/// students the same groups, and see the same applications.
pub proof fn lemma_same_applications(
    conf: &Config,
    colleges_before: Seq<College>,
    students_before: Seq<Student>,
    one: YearTrace,
    colleges: Seq<College>,
    students: Seq<Student>,
    colleges_before_again: Seq<College>,
    students_before_again: Seq<Student>,
    other: YearTrace,
    colleges_again: Seq<College>,
    students_again: Seq<Student>,
)
    requires
        same_colleges(colleges_before, colleges_before_again),
        same_records(students_before, students_before_again),
        is_course(one, conf, colleges_before, colleges, students_before, students),
        is_course(
            other,
            conf,
            colleges_before_again,
            colleges_again,
            students_before_again,
            students_again,
        ),
    ensures
        alike(one.nationals, other.nationals),
        alike(one.privates, other.privates),
        same_records(one.students_applied, other.students_applied),
        one.applications == other.applications,
{
    lemma_groups_alike(one.nationals, other.nationals, colleges_before, colleges_before_again, false);
    lemma_groups_alike(one.privates, other.privates, colleges_before, colleges_before_again, true);
    let k = students_before.len();
    assert forall|s: int| 0 <= s < k implies same_record(
        #[trigger] one.students_applied[s],
        other.students_applied[s],
    ) by {
        let a = one.students_applied[s];
        let b = other.students_applied[s];
        assert(same_record(students_before[s], students_before_again[s]));
        assert(after_application(students_before[s], a, conf, one.nationals, one.privates));
        assert(after_application(students_before_again[s], b, conf, other.nationals, other.privates));
        lemma_application_alike(
            students_before[s],
            students_before_again[s],
            conf,
            one.nationals,
            one.privates,
            other.nationals,
            other.privates,
            agents_of(a.c_map@),
            agents_of(b.c_map@),
        );
        assert(a.c_map@ =~= b.c_map@);
    }
    assert forall|x: (int, int)| one.applications.contains_key(x) == other.applications.contains_key(
        x,
    ) by {
        let c = x.0;
        let s = x.1;
        assert(x == (c, s));
        if 0 <= s < k {
            assert(same_record(one.students_applied[s], other.students_applied[s]));
            assert(one.applications.contains_key((c, s)) <==> 0 <= c < usize::MAX
                && one.students_applied[s].sat(c as usize));
            assert(other.applications.contains_key((c, s)) <==> 0 <= c < usize::MAX
                && other.students_applied[s].sat(c as usize));
        }
    }
    assert(one.applications =~= other.applications);
}

/// Lists that give the same entries under one status are the same.
pub proof fn lemma_marked_same(one: Seq<usize>, other: Seq<usize>, status: u8)
    requires
        marked(one, status) == marked(other, status),
    ensures
        one == other,
{
    assert(one.len() == marked(one, status).len());
    assert(other.len() == marked(other, status).len());
    assert forall|i: int| 0 <= i < one.len() implies one[i] == other[i] by {
        assert(marked(one, status)[i].0 == one[i]);
        assert(marked(other, status)[i].0 == other[i]);
    }
    assert(one =~= other);
}

/// Two courses of a year from the same colleges and students see the same
/// first offers and the same answers to them.
pub proof fn lemma_same_first_round(
    conf: &Config,
    colleges_before: Seq<College>,
    students_before: Seq<Student>,
    one: YearTrace,
    colleges: Seq<College>,
    students: Seq<Student>,
    colleges_before_again: Seq<College>,
    students_before_again: Seq<Student>,
    other: YearTrace,
    colleges_again: Seq<College>,
    students_again: Seq<Student>,
)
    requires
        roster(colleges_before),
        cohort(students_before, conf),
        same_colleges(colleges_before, colleges_before_again),
        same_records(students_before, students_before_again),
        is_course(one, conf, colleges_before, colleges, students_before, students),
        is_course(
            other,
            conf,
            colleges_before_again,
            colleges_again,
            students_before_again,
            students_again,
        ),
    ensures
        one.applications == other.applications,
        one.first_offers == other.first_offers,
        same_colleges(one.colleges_first, other.colleges_first),
        one.first_answers == other.first_answers,
        same_records(one.students_first, other.students_first),
{
    lemma_same_applications(
        conf,
        colleges_before,
        students_before,
        one,
        colleges,
        students,
        colleges_before_again,
        students_before_again,
        other,
        colleges_again,
        students_again,
    );
    let n = colleges_before.len();
    let k = students_before.len();
    let offers = |c: int|
        first_offers(colleges_before[c], conf, one.students_applied, one.applications, c);
    let offers_again = |c: int|
        first_offers(colleges_before_again[c], conf, other.students_applied, other.applications, c);
    assert forall|c: int| 0 <= c < n implies #[trigger] offers(c) == offers_again(c) by {
        assert(colleges_before[c].same_standing(&colleges_before_again[c]));
        lemma_row_entries(one.applications, c, k);
        lemma_scored_alike(
            one.students_applied,
            other.students_applied,
            applicants(one.applications, c, k),
            c as usize,
        );
    }
    lemma_round_alike(offers, offers_again, n);
    assert forall|c: int| 0 <= c < n implies (#[trigger] one.colleges_first[c]).same_standing(
        &other.colleges_first[c],
    ) && one.colleges_first[c].same_scratch(&other.colleges_first[c]) by {
        assert(offers(c) == offers_again(c));
        assert(colleges_before[c].same_standing(&colleges_before_again[c]));
        assert(after_first_offers(
            colleges_before[c],
            one.colleges_first[c],
            conf,
            one.students_applied,
            one.applications,
            c,
        ));
        assert(after_first_offers(
            colleges_before_again[c],
            other.colleges_first[c],
            conf,
            other.students_applied,
            other.applications,
            c,
        ));
        if colleges_before[c].is_private() {
            lemma_marked_same(one.colleges_first[c].s_vec@, other.colleges_first[c].s_vec@, ENROLL_1ST);
        }
    }
    let answers = |s: int|
        first_answers(one.students_applied[s], one.colleges_first, one.first_offers, s);
    let answers_again = |s: int|
        first_answers(other.students_applied[s], other.colleges_first, other.first_offers, s);
    assert forall|s: int| 0 <= s < k implies #[trigger] answers(s) == answers_again(s)
        && same_record(one.students_first[s], other.students_first[s]) by {
        let a = one.students_applied[s];
        let b = other.students_applied[s];
        assert(same_record(a, b));
        assert(after_application(students_before[s], a, conf, one.nationals, one.privates));
        lemma_favourite_alike(a.c_map@, one.colleges_first, other.colleges_first);
        assert(after_first_decision(a, one.students_first[s], one.colleges_first, one.first_offers, s));
        assert(after_first_decision(
            b,
            other.students_first[s],
            other.colleges_first,
            other.first_offers,
            s,
        ));
    }
    lemma_round_alike(answers, answers_again, k);
    assert forall|s: int| 0 <= s < k implies same_record(
        #[trigger] one.students_first[s],
        other.students_first[s],
    ) by {
        assert(answers(s) == answers_again(s));
    }
}

/// A student reads the same decision off a row in lists of colleges that are
/// alike.
pub proof fn lemma_decision_alike(
    one: Student,
    other: Student,
    colleges: Seq<College>,
    colleges_again: Seq<College>,
    status: Map<(int, int), u8>,
    s: int,
    second: bool,
)
    requires
        same_record(one, other),
        alike(colleges, colleges_again),
        colleges.len() <= usize::MAX,
    ensures
        later_decision(one, colleges, status, s, second) == later_decision(
            other,
            colleges_again,
            status,
            s,
            second,
        ),
        forall|after: Student, after_again: Student|
            after_later_decision(one, after, colleges, status, s, second) && after_later_decision(
                other,
                after_again,
                colleges_again,
                status,
                s,
                second,
            ) ==> same_record(after, after_again),
{
    let row = row_entries(status, s, colleges.len());
    lemma_row_entries(status, s, colleges.len());
    lemma_best_alike(row, colleges, colleges_again, R_RESERVED);
    lemma_best_alike(row, colleges, colleges_again, R_ENROLL_3RD);
}

/// Two courses of a year from the same colleges and students see the same
/// public offers and the same second decisions.
pub proof fn lemma_same_second_round(
    conf: &Config,
    colleges_before: Seq<College>,
    students_before: Seq<Student>,
    one: YearTrace,
    colleges: Seq<College>,
    students: Seq<Student>,
    colleges_before_again: Seq<College>,
    students_before_again: Seq<Student>,
    other: YearTrace,
    colleges_again: Seq<College>,
    students_again: Seq<Student>,
)
    requires
        roster(colleges_before),
        cohort(students_before, conf),
        same_colleges(colleges_before, colleges_before_again),
        same_records(students_before, students_before_again),
        is_course(one, conf, colleges_before, colleges, students_before, students),
        is_course(
            other,
            conf,
            colleges_before_again,
            colleges_again,
            students_before_again,
            students_again,
        ),
    ensures
        one.applications == other.applications,
        same_colleges(colleges, colleges_again),
        one.status_first == other.status_first,
        one.second_decisions == other.second_decisions,
        same_records(one.students_second, other.students_second),
        one.status_second == other.status_second,
{
    lemma_same_first_round(
        conf,
        colleges_before,
        students_before,
        one,
        colleges,
        students,
        colleges_before_again,
        students_before_again,
        other,
        colleges_again,
        students_again,
    );
    let n = colleges_before.len();
    let k = students_before.len();
    let offers = |c: int|
        public_offers(one.colleges_first[c], conf, one.students_first, one.applications, c);
    let offers_again = |c: int|
        public_offers(other.colleges_first[c], conf, other.students_first, other.applications, c);
    assert forall|c: int| 0 <= c < n implies #[trigger] offers(c) == offers_again(c) by {
        assert(one.colleges_first[c].same_standing(&other.colleges_first[c]));
        lemma_row_entries(one.applications, c, k);
        lemma_scored_alike(
            one.students_first,
            other.students_first,
            applicants(one.applications, c, k),
            c as usize,
        );
    }
    lemma_round_alike(offers, offers_again, n);
    assert forall|c: int| 0 <= c < n implies (#[trigger] colleges[c]).same_standing(
        &colleges_again[c],
    ) && colleges[c].same_scratch(&colleges_again[c]) by {
        assert(offers(c) == offers_again(c));
        assert(one.colleges_first[c].same_standing(&other.colleges_first[c]));
        assert(after_public_offers(
            one.colleges_first[c],
            colleges[c],
            conf,
            one.students_first,
            one.applications,
            c,
        ));
        assert(after_public_offers(
            other.colleges_first[c],
            colleges_again[c],
            conf,
            other.students_first,
            other.applications,
            c,
        ));
        if !one.colleges_first[c].is_private() {
            lemma_marked_same(colleges[c].s_vec@, colleges_again[c].s_vec@, ENROLL_2ND);
        }
    }
    let decisions = |s: int| later_decision(one.students_first[s], colleges, one.status_first, s, true);
    let decisions_again = |s: int|
        later_decision(other.students_first[s], colleges_again, other.status_first, s, true);
    assert forall|s: int| 0 <= s < k implies #[trigger] decisions(s) == decisions_again(s)
        && same_record(one.students_second[s], other.students_second[s]) by {
        assert(same_record(one.students_first[s], other.students_first[s]));
        lemma_decision_alike(
            one.students_first[s],
            other.students_first[s],
            colleges,
            colleges_again,
            one.status_first,
            s,
            true,
        );
        assert(after_later_decision(
            one.students_first[s],
            one.students_second[s],
            colleges,
            one.status_first,
            s,
            true,
        ));
        assert(after_later_decision(
            other.students_first[s],
            other.students_second[s],
            colleges_again,
            other.status_first,
            s,
            true,
        ));
    }
    lemma_round_alike(decisions, decisions_again, k);
    assert forall|s: int| 0 <= s < k implies same_record(
        #[trigger] one.students_second[s],
        other.students_second[s],
    ) by {
        assert(decisions(s) == decisions_again(s));
    }
}

/// A college makes the same waitlist offers to students that are alike.
pub proof fn lemma_waitlist_alike(
    college: College,
    college_again: College,
    conf: &Config,
    students: Seq<Student>,
    students_again: Seq<Student>,
    status: Map<(int, int), u8>,
    c: int,
)
    requires
        college.same_standing(&college_again),
        college.same_scratch(&college_again),
        same_records(students, students_again),
        students.len() <= usize::MAX,
    ensures
        waitlist_offers(college, conf, students, status, c) == waitlist_offers(
            college_again,
            conf,
            students_again,
            status,
            c,
        ),
{
    let row = row_entries(status, c, students.len());
    let failed = with_status(row, R_FAILED);
    lemma_row_entries(status, c, students.len());
    lemma_with_status(row, R_FAILED);
    assert forall|i: int| 0 <= i < failed.len() implies #[trigger] failed[i] < students.len() by {
        let j = choose|j: int| 0 <= j < row.len() && #[trigger] row[j] == (failed[i], R_FAILED);
        assert(row[j].0 < students.len());
    }
    lemma_scored_alike(students, students_again, failed, college.index);
}

/// Two courses of a year from the same colleges and students are the same
/// in every round: they see the same offers and decisions, and leave the
/// same status, colleges that are the same in every field, and students
/// with the same plans, records and streams.
pub proof fn lemma_same_course(
    conf: &Config,
    colleges_before: Seq<College>,
    students_before: Seq<Student>,
    one: YearTrace,
    colleges: Seq<College>,
    students: Seq<Student>,
    colleges_before_again: Seq<College>,
    students_before_again: Seq<Student>,
    other: YearTrace,
    colleges_again: Seq<College>,
    students_again: Seq<Student>,
)
    requires
        roster(colleges_before),
        cohort(students_before, conf),
        same_colleges(colleges_before, colleges_before_again),
        same_records(students_before, students_before_again),
        is_course(one, conf, colleges_before, colleges, students_before, students),
        is_course(
            other,
            conf,
            colleges_before_again,
            colleges_again,
            students_before_again,
            students_again,
        ),
    ensures
        one.applications == other.applications,
        one.status_first == other.status_first,
        one.status_second == other.status_second,
        one.status_third == other.status_third,
        one.status == other.status,
        same_colleges(colleges, colleges_again),
        same_records(students, students_again),
{
    lemma_same_second_round(
        conf,
        colleges_before,
        students_before,
        one,
        colleges,
        students,
        colleges_before_again,
        students_before_again,
        other,
        colleges_again,
        students_again,
    );
    let n = colleges_before.len();
    let k = students_before.len();
    let offers = |c: int|
        waitlist_offers(colleges[c], conf, one.students_second, one.status_second, c);
    let offers_again = |c: int|
        waitlist_offers(colleges_again[c], conf, other.students_second, other.status_second, c);
    assert forall|c: int| 0 <= c < n implies #[trigger] offers(c) == offers_again(c) by {
        assert(colleges[c].same_standing(&colleges_again[c]));
        lemma_waitlist_alike(
            colleges[c],
            colleges_again[c],
            conf,
            one.students_second,
            other.students_second,
            one.status_second,
            c,
        );
    }
    lemma_round_alike(offers, offers_again, n);
    let decisions = |s: int|
        later_decision(one.students_second[s], colleges, one.status_third, s, false);
    let decisions_again = |s: int|
        later_decision(other.students_second[s], colleges_again, other.status_third, s, false);
    assert forall|s: int| 0 <= s < k implies #[trigger] decisions(s) == decisions_again(s)
        && same_record(students[s], students_again[s]) by {
        assert(same_record(one.students_second[s], other.students_second[s]));
        lemma_decision_alike(
            one.students_second[s],
            other.students_second[s],
            colleges,
            colleges_again,
            one.status_third,
            s,
            false,
        );
        assert(after_later_decision(
            one.students_second[s],
            students[s],
            colleges,
            one.status_third,
            s,
            false,
        ));
        assert(after_later_decision(
            other.students_second[s],
            students_again[s],
            colleges_again,
            other.status_third,
            s,
            false,
        ));
    }
    lemma_round_alike(decisions, decisions_again, k);
    assert forall|s: int| 0 <= s < k implies same_record(#[trigger] students[s], students_again[s]) by {
        assert(decisions(s) == decisions_again(s));
    }
}

/// Two results of a student say the same.
pub open spec fn same_log(one: StudentResult, other: StudentResult) -> bool {
    &&& one.epoch == other.epoch
    &&& one.id == other.id
    &&& one.score == other.score
    &&& one.pattern == other.pattern
    &&& one.admission == other.admission
    &&& one.result@ == other.result@
}

/// Students that are alike bring a college the same sum of exam scores.
pub proof fn lemma_admitted_sum_alike(
    students: Seq<Student>,
    students_again: Seq<Student>,
    row: Seq<(usize, u8)>,
    cid: usize,
)
    requires
        same_records(students, students_again),
        row_within(row, students.len() as int),
    ensures
        admitted_sum(students, row, cid) == admitted_sum(students_again, row, cid),
    decreases row.len(),
{
    if row.len() > 0 {
        assert forall|j: int| 0 <= j < row.drop_last().len() implies (#[trigger] row.drop_last()[j]).0
            < students.len() by {
            assert(row[j].0 < students.len());
        }
        lemma_admitted_sum_alike(students, students_again, row.drop_last(), cid);
        assert(row[row.len() - 1].0 < students.len());
        assert(same_record(students[row.last().0 as int], students_again[row.last().0 as int]));
    }
}

/// A year is a function of what goes into it. Two runs of a year from the
/// same colleges, students and configuration leave the same final status,
/// the same results of the colleges and of the students, and colleges for
/// the next year that are the same in every field.
pub proof fn lemma_same_year(
    epoch: i32,
    conf: &Config,
    colleges_before: Seq<College>,
    students_before: Seq<Student>,
    one: YearTrace,
    colleges: Seq<College>,
    students: Seq<Student>,
    next: Seq<College>,
    college_results: Seq<CollegeResult>,
    student_results: Seq<StudentResult>,
    colleges_before_again: Seq<College>,
    students_before_again: Seq<Student>,
    other: YearTrace,
    colleges_again: Seq<College>,
    students_again: Seq<Student>,
    next_again: Seq<College>,
    college_results_again: Seq<CollegeResult>,
    student_results_again: Seq<StudentResult>,
)
    requires
        roster(colleges_before),
        cohort(students_before, conf),
        same_colleges(colleges_before, colleges_before_again),
        same_records(students_before, students_before_again),
        is_course(one, conf, colleges_before, colleges, students_before, students),
        year_done(
            epoch,
            conf,
            colleges_before,
            colleges,
            students_before,
            students,
            one.status,
            next,
            college_results,
            student_results,
        ),
        is_course(
            other,
            conf,
            colleges_before_again,
            colleges_again,
            students_before_again,
            students_again,
        ),
        year_done(
            epoch,
            conf,
            colleges_before_again,
            colleges_again,
            students_before_again,
            students_again,
            other.status,
            next_again,
            college_results_again,
            student_results_again,
        ),
    ensures
        one.status == other.status,
        college_results == college_results_again,
        student_results.len() == student_results_again.len(),
        forall|s: int|
            0 <= s < student_results.len() ==> same_log(
                #[trigger] student_results[s],
                student_results_again[s],
            ),
        same_colleges(next, next_again),
{
    lemma_same_course(
        conf,
        colleges_before,
        students_before,
        one,
        colleges,
        students,
        colleges_before_again,
        students_before_again,
        other,
        colleges_again,
        students_again,
    );
    let n = colleges_before.len();
    let k = students_before.len();
    let status = one.status;
    assert forall|c: int| 0 <= c < n implies #[trigger] college_results[c]
        == college_results_again[c] by {
        let row = row_entries(status, c, k);
        lemma_row_entries(status, c, k);
        assert(colleges[c].same_standing(&colleges_again[c]));
        lemma_admitted_sum_alike(students, students_again, row, colleges[c].index);
        assert(is_result_of(college_results[c], epoch, colleges[c], students, row));
        assert(is_result_of(college_results_again[c], epoch, colleges_again[c], students_again, row));
    }
    assert(college_results =~= college_results_again);
    assert forall|s: int| 0 <= s < k implies same_log(
        #[trigger] student_results[s],
        student_results_again[s],
    ) by {
        let row = row_entries(transposed(status), s, n);
        lemma_row_entries(transposed(status), s, n);
        assert(same_record(students[s], students_again[s]));
        assert(is_student_result(student_results[s], epoch, students[s], row, colleges));
        assert(is_student_result(
            student_results_again[s],
            epoch,
            students_again[s],
            row,
            colleges_again,
        ));
        assert forall|i: int| 0 <= i < row.len() implies #[trigger] log_of(row, colleges)[i]
            == log_of(row, colleges_again)[i] by {
            assert(row[i].0 < n);
            assert(colleges[row[i].0 as int].same_standing(&colleges_again[row[i].0 as int]));
        }
        assert(log_of(row, colleges) =~= log_of(row, colleges_again));
    }
    assert forall|c: int| 0 <= c < n implies #[trigger] next_scores(colleges, college_results, conf)[c]
        == next_scores(colleges_again, college_results_again, conf)[c] by {
        assert(colleges[c].same_standing(&colleges_again[c]));
    }
    assert(next_scores(colleges, college_results, conf) =~= next_scores(
        colleges_again,
        college_results_again,
        conf,
    ));
    assert forall|i: int| 0 <= i < n implies (#[trigger] next[i]).same_standing(&next_again[i])
        && next[i].same_scratch(&next_again[i]) by {
        assert(next_in_order(next, colleges, college_results, conf, i));
        assert(next_in_order(next_again, colleges_again, college_results_again, conf, i));
        let c = rising(next_scores(colleges, college_results, conf))[i] as int;
        assert(colleges[c].same_standing(&colleges_again[c]));
        assert(next_again[i].index == i);
    }
}

/// A year that is run twice comes out the same. Where the colleges that go
/// into two runs are the same in every field, and the students have the same
/// plans and records and streams in the same state, the two runs leave the
/// same results of the colleges, results of the students that say the
/// same, colleges for the next year that are the same in every field, and
/// colleges and students that are alike in the same way.
pub proof fn lemma_year_repeats(
    epoch: i32,
    conf: &Config,
    colleges_before: Seq<College>,
    students_before: Seq<Student>,
    colleges: Seq<College>,
    students: Seq<Student>,
    next: Seq<College>,
    college_results: Seq<CollegeResult>,
    student_results: Seq<StudentResult>,
    colleges_before_again: Seq<College>,
    students_before_again: Seq<Student>,
    colleges_again: Seq<College>,
    students_again: Seq<Student>,
    next_again: Seq<College>,
    college_results_again: Seq<CollegeResult>,
    student_results_again: Seq<StudentResult>,
)
    requires
        roster(colleges_before),
        cohort(students_before, conf),
        same_colleges(colleges_before, colleges_before_again),
        same_records(students_before, students_before_again),
        is_year(
            epoch,
            conf,
            colleges_before,
            colleges,
            students_before,
            students,
            next,
            college_results,
            student_results,
        ),
        is_year(
            epoch,
            conf,
            colleges_before_again,
            colleges_again,
            students_before_again,
            students_again,
            next_again,
            college_results_again,
            student_results_again,
        ),
    ensures
        college_results == college_results_again,
        student_results.len() == student_results_again.len(),
        forall|s: int|
            0 <= s < student_results.len() ==> same_log(
                #[trigger] student_results[s],
                student_results_again[s],
            ),
        same_colleges(next, next_again),
        same_colleges(colleges, colleges_again),
        same_records(students, students_again),
{
    let one = choose|trace: YearTrace| #[trigger]
        is_course(trace, conf, colleges_before, colleges, students_before, students) && year_done(
            epoch,
            conf,
            colleges_before,
            colleges,
            students_before,
            students,
            trace.status,
            next,
            college_results,
            student_results,
        );
    let other = choose|trace: YearTrace| #[trigger]
        is_course(
            trace,
            conf,
            colleges_before_again,
            colleges_again,
            students_before_again,
            students_again,
        ) && year_done(
            epoch,
            conf,
            colleges_before_again,
            colleges_again,
            students_before_again,
            students_again,
            trace.status,
            next_again,
            college_results_again,
            student_results_again,
        );
    lemma_same_course(
        conf,
        colleges_before,
        students_before,
        one,
        colleges,
        students,
        colleges_before_again,
        students_before_again,
        other,
        colleges_again,
        students_again,
    );
    lemma_same_year(
        epoch,
        conf,
        colleges_before,
        students_before,
        one,
        colleges,
        students,
        next,
        college_results,
        student_results,
        colleges_before_again,
        students_before_again,
        other,
        colleges_again,
        students_again,
        next_again,
        college_results_again,
        student_results_again,
    );
}

} // verus!
