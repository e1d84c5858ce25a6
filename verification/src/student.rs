//! The students of a year, and what each of them decides.

use crate::band::{band, bounds, is_selection, lemma_selection_in_band, select, selection, width};
use crate::choice::{best_with, enrolled_at, find_admitted, find_best, row_within};
use crate::college::{sorted_by_score, College};
use crate::config::Config;
use crate::flags::{ADMISSION_1ST, RESERVE, R_ENROLL_3RD, R_RESERVED};
use crate::ranking::{lemma_rising, rising, rising_order};
use crate::stream::{distinct, jumped, jumped_times, split, state_words};
use rand_xoshiro::Xoshiro256StarStar;
use std::collections::{HashMap, HashSet};
use vstd::prelude::*;

verus! {

/// Where a student applies.
#[derive(Debug, Clone, Copy, PartialEq, Eq, Structural)]
pub enum ApplyPattern {
    /// To public and private colleges.
    Both,
    /// To private colleges only.
    PrivateOnly,
}

impl ApplyPattern {
    /// The number a pattern is written as: 1 for both, 2 for private only.
    pub open spec fn spec_code(self) -> u8 {
        match self {
            ApplyPattern::Both => 1,
            ApplyPattern::PrivateOnly => 2,
        }
    }

    /// The number a pattern is written as.
    #[verifier::when_used_as_spec(spec_code)]
    pub fn code(self) -> (c: u8)
        ensures
            c == self.spec_code(),
    {
        match self {
            ApplyPattern::Both => 1,
            ApplyPattern::PrivateOnly => 2,
        }
    }
}

/// A student of one year.
#[derive(Debug, Clone)]
pub struct Student {
    /// The place of the student in the year's list, which rises with the score.
    pub id: usize,
    /// The ability of the student, in thousandths of a point.
    pub score: i32,
    /// The colleges applied to, each with the score reached in its exam, in
    /// the order of the applications.
    pub c_map: Vec<(usize, i32)>,
    /// Where the student applies.
    pub pattern: ApplyPattern,
    /// The college that the student has settled on.
    pub admission: Option<usize>,
    /// The student's own random stream.
    pub rng: Xoshiro256StarStar,
    /// Which of the two rows of selection counts the student goes by.
    pub count_pattern: usize,
    /// How far each exam in turn falls from the student's ability, in
    /// thousandths of a point.
    pub exam_errors: Vec<i32>,
    /// Whether the student lets its held offers go and waits for the waitlist.
    pub gamble: bool,
}

/// A group of colleges as a student sees it: by rising score, each with a
/// place of its own under `total` in the list of all colleges, and all
/// private or none.
pub open spec fn is_group(group: Seq<College>, private: bool, total: int) -> bool {
    &&& sorted_by_score(group)
    &&& group.len() <= u32::MAX
    &&& forall|k: int|
        0 <= k < group.len() ==> (#[trigger] group[k]).index < total && group[k].is_private()
            == private
    &&& forall|i: int, j: int|
        0 <= i < j < group.len() ==> (#[trigger] group[i]).index != (#[trigger] group[j]).index
}

/// The college is the member at place `j` of the group, and `j` lies in the band or starts it.
pub open spec fn member_in_band(group: Seq<College>, bound: (usize, usize), cid: usize, j: int) -> bool {
    &&& 0 <= j < group.len()
    &&& group[j].index == cid
    &&& (bound.0 <= j <= bound.1 || j == bound.0)
}

/// The college is a member of the group that lies in the band or starts it.
pub open spec fn in_band(group: Seq<College>, bound: (usize, usize), cid: usize) -> bool {
    exists|j: int| member_in_band(group, bound, cid, j)
}

/// The college is a member of the group within reach of one of the bands.
pub open spec fn reached(group: Seq<College>, bands: Seq<(usize, usize)>, cid: usize) -> bool {
    exists|r: int| 0 <= r < bands.len() && in_band(group, #[trigger] bands[r], cid)
}

/// The college is a member of the group.
pub open spec fn member(group: Seq<College>, cid: usize) -> bool {
    exists|j: int| 0 <= j < group.len() && (#[trigger] group[j]).index == cid
}

/// The exam records of a student that applies to `c_vec` in turn.
pub open spec fn exams_of(score: i32, errors: Seq<i32>, c_vec: Seq<usize>) -> Seq<(usize, i32)> {
    Seq::new(c_vec.len(), |k: int| (c_vec[k], exam_result(score, errors[k])))
}

/// The band of a student in each of the three ranks of private colleges.
pub open spec fn rank_bands(conf: &Config, score: i32, privates: Seq<College>) -> Seq<(usize, usize)> {
    Seq::new(
        3,
        |r: int|
            if privates.len() > 0 {
                band(
                    privates,
                    conf.spec_effective_score(score),
                    conf.college_rank_lower[r] * 1000,
                    conf.college_rank_upper[r] * 1000,
                )
            } else {
                (0usize, 0usize)
            },
    )
}

/// The score of an exam: the ability and the error of the day, kept within the
/// range of scores.
pub open spec fn exam_result(score: i32, error: i32) -> i32 {
    if score + error > i32::MAX {
        i32::MAX
    } else if score + error < i32::MIN {
        i32::MIN
    } else {
        (score + error) as i32
    }
}

/// No college has two records in `c_map`.
pub open spec fn one_exam_each(c_map: Seq<(usize, i32)>) -> bool {
    forall|i: int, j: int| 0 <= i < j < c_map.len() ==> (#[trigger] c_map[i]).0 != (#[trigger] c_map[j]).0
}

/// `c_map` has a record for the college.
pub open spec fn has_exam(c_map: Seq<(usize, i32)>, cid: usize) -> bool {
    exists|i: int| 0 <= i < c_map.len() && (#[trigger] c_map[i]).0 == cid
}

/// The record at `i` is the first that `c_map` has for the college.
pub open spec fn first_exam(c_map: Seq<(usize, i32)>, cid: usize, i: int) -> bool {
    &&& 0 <= i < c_map.len()
    &&& c_map[i].0 == cid
    &&& forall|j: int| 0 <= j < i ==> (#[trigger] c_map[j]).0 != cid
}

/// The exam score that `c_map` records for the college, in its first record
/// of it.
pub open spec fn exam_score(c_map: Seq<(usize, i32)>, cid: usize) -> i32 {
    c_map[choose|i: int| first_exam(c_map, cid, i)].1
}

/// Every college with a record is one of the list.
pub open spec fn exams_within(c_map: Seq<(usize, i32)>, total: int) -> bool {
    forall|j: int| 0 <= j < c_map.len() ==> (#[trigger] c_map[j]).0 < total
}

/// The record at `i` is that of the college that the student likes best of
/// those it applied to: none has a higher score, and none before it as high.
pub open spec fn is_preferred(c_map: Seq<(usize, i32)>, colleges: Seq<College>, i: int) -> bool {
    &&& 0 <= i < c_map.len()
    &&& forall|j: int|
        0 <= j < c_map.len() ==> colleges[(#[trigger] c_map[j]).0 as int].score
            <= colleges[c_map[i].0 as int].score
    &&& forall|j: int|
        0 <= j < i ==> colleges[(#[trigger] c_map[j]).0 as int].score < colleges[c_map[i].0 as int].score
}

/// The college that a student likes best of those it applied to, if it
/// applied to any.
pub open spec fn favourite(c_map: Seq<(usize, i32)>, colleges: Seq<College>) -> Option<usize> {
    if exists|i: int| is_preferred(c_map, colleges, i) {
        Some(c_map[choose|i: int| is_preferred(c_map, colleges, i)].0)
    } else {
        None
    }
}

/// The college whose first offer a student accepts at once: the one it likes
/// best, if it is still free and applies to private colleges only.
pub open spec fn first_wish(
    admission: Option<usize>,
    pattern: ApplyPattern,
    c_map: Seq<(usize, i32)>,
    colleges: Seq<College>,
) -> Option<usize> {
    if admission.is_none() && pattern == ApplyPattern::PrivateOnly {
        favourite(c_map, colleges)
    } else {
        None
    }
}

/// The answer of a student to a first offer of the college.
pub open spec fn first_answer(wish: Option<usize>, cid: usize) -> u8 {
    if wish == Some(cid) {
        ADMISSION_1ST
    } else {
        RESERVE
    }
}

/// The college that a student commits to when it reads its row: none if it
/// has settled before, is enrolled by its row, or holds back; otherwise the
/// best college of its row with the status.
pub open spec fn commitment(
    admission: Option<usize>,
    row: Seq<(usize, u8)>,
    colleges: Seq<College>,
    status: u8,
    hold: bool,
) -> Option<usize> {
    if admission.is_none() && enrolled_at(row).is_none() && !hold {
        best_with(row, colleges, status)
    } else {
        None
    }
}

/// The college that a student has settled on after it has read its row: the
/// one it had settled on before, else the one where its row shows it
/// enrolled, else the one it commits to now.
pub open spec fn settled_after(
    admission: Option<usize>,
    row: Seq<(usize, u8)>,
    colleges: Seq<College>,
    status: u8,
    hold: bool,
) -> Option<usize> {
    if admission.is_some() {
        admission
    } else if enrolled_at(row).is_some() {
        enrolled_at(row)
    } else {
        commitment(admission, row, colleges, status, hold)
    }
}

/// The most colleges that a student with the given row of selection counts
/// applies to: from each rank the count, or one where the count is nothing,
/// and one public college.
pub open spec fn application_cap(counts: [usize; 3]) -> int {
    1 + at_least_one(counts[0]) + at_least_one(counts[1]) + at_least_one(counts[2])
}

/// `n`, or one where `n` is nothing.
pub open spec fn at_least_one(n: usize) -> int {
    if n == 0 {
        1
    } else {
        n as int
    }
}

/// The number of exam draws that a student with the given row of selection
/// counts needs, or the largest number there is where that would be more.
pub fn application_room(counts: &[usize; 3]) -> (room: usize)
    ensures
        room == if application_cap(*counts) > usize::MAX {
            usize::MAX as int
        } else {
            application_cap(*counts)
        },
{
    let mut room: usize = 1;
    let mut i: usize = 0;
    while i < 3
        invariant
            i <= 3,
            room == {
                let sum = 1 + (if i >= 1 {
                    at_least_one(counts[0])
                } else {
                    0
                }) + (if i >= 2 {
                    at_least_one(counts[1])
                } else {
                    0
                }) + (if i >= 3 {
                    at_least_one(counts[2])
                } else {
                    0
                });
                if sum > usize::MAX {
                    usize::MAX as int
                } else {
                    sum
                }
            },
        decreases 3 - i,
    {
        let n = if counts[i] == 0 {
            1
        } else {
            counts[i]
        };
        room = match room.checked_add(n) {
            Some(sum) => sum,
            None => usize::MAX,
        };
        i += 1;
    }
    room
}

/// The places in the list of all colleges of the members of a group that
/// were picked.
pub open spec fn places_of(picked: Seq<usize>, group: Seq<College>) -> Seq<usize> {
    Seq::new(picked.len(), |k: int| group[picked[k] as int].index)
}

/// A list with only the first of equal entries kept, in the order of the list.
pub open spec fn dedup(list: Seq<usize>) -> Seq<usize>
    decreases list.len(),
{
    if list.len() == 0 {
        Seq::empty()
    } else if dedup(list.drop_last()).contains(list.last()) {
        dedup(list.drop_last())
    } else {
        dedup(list.drop_last()).push(list.last())
    }
}

/// The band of a student among the public colleges.
pub open spec fn national_band(score: i32, conf: &Config, nationals: Seq<College>) -> (usize, usize) {
    band(
        nationals,
        conf.spec_effective_score(score),
        conf.national_range[0] * 1000,
        conf.national_range[1] * 1000,
    )
}

/// There is a band of public colleges for the student to draw from: there
/// are public colleges, and the band is not just the first place.
pub open spec fn has_national_band(score: i32, conf: &Config, nationals: Seq<College>) -> bool {
    nationals.len() > 0 && national_band(score, conf, nationals) != (0usize, 0usize)
}

/// `picked` is a draw of one public college for the student, where there
/// is a band to draw from.
pub open spec fn is_national_draw(
    picked: Seq<usize>,
    score: i32,
    conf: &Config,
    nationals: Seq<College>,
) -> bool {
    has_national_band(score, conf, nationals) ==> is_selection(
        picked,
        national_band(score, conf, nationals),
        1,
        nationals,
        conf.college_select_by_enroll,
    )
}

/// The public college that a student applies to, given the draw: the
/// college drawn, and none where there was no band or nothing was drawn.
pub open spec fn national_choice(
    picked: Seq<usize>,
    score: i32,
    conf: &Config,
    nationals: Seq<College>,
) -> Option<usize> {
    if has_national_band(score, conf, nationals) && picked.len() > 0 {
        Some(nationals[picked[0] as int].index)
    } else {
        None
    }
}

/// The draw of a public college that a generator in the given state makes
/// for a student, and the state it is left in: a choice of one from the
/// band, and nothing where there is no band.
pub open spec fn national_draw_of(
    words: Seq<u64>,
    score: i32,
    conf: &Config,
    nationals: Seq<College>,
) -> (Seq<usize>, Seq<u64>) {
    if has_national_band(score, conf, nationals) {
        selection(
            words,
            national_band(score, conf, nationals),
            1,
            nationals,
            conf.college_select_by_enroll,
        )
    } else {
        (Seq::empty(), words)
    }
}

/// How many colleges a student picks from a rank: the count of its row,
/// and one less in the first rank where it has chosen a public college.
pub open spec fn wanted_from(counts: [usize; 3], rank: int, national: Option<usize>) -> usize {
    if national.is_some() && rank == 0 && counts[0] > 0 {
        (counts[0] - 1) as usize
    } else {
        counts[rank]
    }
}

/// `picks` holds a draw for each of the three ranks of private colleges.
pub open spec fn are_rank_draws(
    picks: Seq<Seq<usize>>,
    student: Student,
    conf: &Config,
    privates: Seq<College>,
    national: Option<usize>,
) -> bool {
    &&& picks.len() == 3
    &&& forall|r: int|
        0 <= r < 3 ==> if privates.len() > 0 {
            is_selection(
                #[trigger] picks[r],
                rank_bands(conf, student.score, privates)[r],
                wanted_from(
                    conf.college_rank_select_number[student.count_pattern as int],
                    r,
                    national,
                ),
                privates,
                conf.college_select_by_enroll,
            )
        } else {
            (#[trigger] picks[r]).len() == 0
        }
}

/// The draws for the first `ranks` ranks of private colleges that a generator
/// in the given state makes for a student, and the state it is left in.
pub open spec fn rank_draws(
    words: Seq<u64>,
    student: Student,
    conf: &Config,
    privates: Seq<College>,
    national: Option<usize>,
    ranks: nat,
) -> (Seq<Seq<usize>>, Seq<u64>)
    decreases ranks,
{
    if ranks == 0 {
        (Seq::empty(), words)
    } else {
        let before = rank_draws(words, student, conf, privates, national, (ranks - 1) as nat);
        let draw = if privates.len() > 0 {
            selection(
                before.1,
                rank_bands(conf, student.score, privates)[ranks - 1],
                wanted_from(
                    conf.college_rank_select_number[student.count_pattern as int],
                    ranks - 1,
                    national,
                ),
                privates,
                conf.college_select_by_enroll,
            )
        } else {
            (Seq::empty(), before.1)
        };
        (before.0.push(draw.0), draw.1)
    }
}

/// All draws that a student makes when it applies, from the state of its
/// stream on: the draw of a public college, the draws of the three ranks,
/// and the state its stream is left in.
pub open spec fn application_draws(
    student: Student,
    conf: &Config,
    nationals: Seq<College>,
    privates: Seq<College>,
) -> (Seq<usize>, Seq<Seq<usize>>, Seq<u64>) {
    let first = if student.pattern == ApplyPattern::Both {
        national_draw_of(state_words(student.rng), student.score, conf, nationals)
    } else {
        (Seq::empty(), state_words(student.rng))
    };
    let national = if student.pattern == ApplyPattern::Both {
        national_choice(first.0, student.score, conf, nationals)
    } else {
        None
    };
    let ranks = rank_draws(first.1, student, conf, privates, national, 3);
    (first.0, ranks.0, ranks.1)
}

/// Two students that are alike in what counts for their applications, with
/// streams in the same state, make the same draws and so apply to the same
/// colleges in the same order.
pub proof fn lemma_same_stream_same_application(
    one: Student,
    other: Student,
    c_vec: Seq<usize>,
    d_vec: Seq<usize>,
    conf: &Config,
    nationals: Seq<College>,
    privates: Seq<College>,
)
    requires
        state_words(one.rng) == state_words(other.rng),
        one.score == other.score,
        one.pattern == other.pattern,
        one.count_pattern == other.count_pattern,
        is_application(
            c_vec,
            one,
            conf,
            nationals,
            privates,
            application_draws(one, conf, nationals, privates).0,
            application_draws(one, conf, nationals, privates).1,
        ),
        is_application(
            d_vec,
            other,
            conf,
            nationals,
            privates,
            application_draws(other, conf, nationals, privates).0,
            application_draws(other, conf, nationals, privates).1,
        ),
    ensures
        application_draws(one, conf, nationals, privates) == application_draws(
            other,
            conf,
            nationals,
            privates,
        ),
        c_vec == d_vec,
{
    let first = if one.pattern == ApplyPattern::Both {
        national_draw_of(state_words(one.rng), one.score, conf, nationals)
    } else {
        (Seq::empty(), state_words(one.rng))
    };
    let national = if one.pattern == ApplyPattern::Both {
        national_choice(first.0, one.score, conf, nationals)
    } else {
        None
    };
    lemma_rank_draws_alike(first.1, one, other, conf, privates, national, 3);
}

/// The draws of the ranks depend on the score and the row of counts of the
/// student alone.
pub proof fn lemma_rank_draws_alike(
    words: Seq<u64>,
    one: Student,
    other: Student,
    conf: &Config,
    privates: Seq<College>,
    national: Option<usize>,
    ranks: nat,
)
    requires
        one.score == other.score,
        one.count_pattern == other.count_pattern,
    ensures
        rank_draws(words, one, conf, privates, national, ranks) == rank_draws(
            words,
            other,
            conf,
            privates,
            national,
            ranks,
        ),
    decreases ranks,
{
    if ranks > 0 {
        lemma_rank_draws_alike(words, one, other, conf, privates, national, (ranks - 1) as nat);
    }
}

/// The colleges of a student's draws in the order drawn: rank after rank,
/// and the public college last.
pub open spec fn drawn_colleges(
    picks: Seq<Seq<usize>>,
    privates: Seq<College>,
    national: Option<usize>,
) -> Seq<usize> {
    places_of(picks[0], privates) + places_of(picks[1], privates) + places_of(picks[2], privates)
        + match national {
        Some(n) => seq![n],
        None => Seq::empty(),
    }
}

/// `c_vec` is what a student applies to, given its draws: a public college
/// only if it applies to both kinds, and each college drawn once.
pub open spec fn is_application(
    c_vec: Seq<usize>,
    student: Student,
    conf: &Config,
    nationals: Seq<College>,
    privates: Seq<College>,
    national_draw: Seq<usize>,
    picks: Seq<Seq<usize>>,
) -> bool {
    let national = if student.pattern == ApplyPattern::Both {
        national_choice(national_draw, student.score, conf, nationals)
    } else {
        None
    };
    &&& student.pattern == ApplyPattern::Both ==> is_national_draw(
        national_draw,
        student.score,
        conf,
        nationals,
    )
    &&& are_rank_draws(picks, student, conf, privates, national)
    &&& c_vec == dedup(drawn_colleges(picks, privates, national))
}

/// A list with only first entries kept holds each value of the list once.
pub proof fn lemma_dedup(list: Seq<usize>)
    ensures
        distinct(dedup(list)),
        dedup(list).len() <= list.len(),
        forall|x: usize|
            #![trigger dedup(list).contains(x)]
            #![trigger list.contains(x)]
            dedup(list).contains(x) <==> list.contains(x),
    decreases list.len(),
{
    if list.len() > 0 {
        let front = list.drop_last();
        let last = list.last();
        lemma_dedup(front);
        let d = dedup(front);
        let all = dedup(list);
        assert forall|x: usize|
            #![trigger all.contains(x)]
            #![trigger list.contains(x)]
            all.contains(x) <==> list.contains(x) by {
            if all.contains(x) {
                let i = choose|i: int| 0 <= i < all.len() && all[i] == x;
                if i < d.len() {
                    assert(d[i] == x);
                    assert(d.contains(x));
                    let j = choose|j: int| 0 <= j < front.len() && front[j] == x;
                    assert(list[j] == x);
                } else {
                    assert(list[list.len() - 1] == x);
                }
            }
            if list.contains(x) {
                let j = choose|j: int| 0 <= j < list.len() && list[j] == x;
                if j < front.len() {
                    assert(front[j] == x);
                    assert(front.contains(x));
                    let i = choose|i: int| 0 <= i < d.len() && d[i] == x;
                    assert(all[i] == x);
                } else if d.contains(last) {
                } else {
                    assert(all[all.len() - 1] == x);
                }
            }
        }
        assert forall|i: int, j: int| 0 <= i < j < all.len() implies all[i] != all[j] by {
            if j == d.len() {
                assert(d[i] == all[i]);
                assert(d.contains(all[i]));
            }
        }
    }
}

/// The first record of a college gives its score.
pub proof fn lemma_first_exam(c_map: Seq<(usize, i32)>, cid: usize, i: int)
    requires
        first_exam(c_map, cid, i),
    ensures
        has_exam(c_map, cid),
        exam_score(c_map, cid) == c_map[i].1,
{
    let j = choose|j: int| first_exam(c_map, cid, j);
    assert(first_exam(c_map, cid, j));
    if i < j {
        assert(c_map[i].0 != cid);
    } else if j < i {
        assert(c_map[j].0 != cid);
    }
}

/// Where no college has two records, any record of a college gives its score.
pub proof fn lemma_exam_score(c_map: Seq<(usize, i32)>, i: int)
    requires
        one_exam_each(c_map),
        0 <= i < c_map.len(),
    ensures
        has_exam(c_map, c_map[i].0),
        exam_score(c_map, c_map[i].0) == c_map[i].1,
{
    let cid = c_map[i].0;
    assert forall|j: int| 0 <= j < i implies (#[trigger] c_map[j]).0 != cid by {
        assert(c_map[j].0 != c_map[i].0);
    }
    lemma_first_exam(c_map, cid, i);
}

/// The college that a student likes best is the only one.
pub proof fn lemma_preferred_unique(
    c_map: Seq<(usize, i32)>,
    colleges: Seq<College>,
    i: int,
    j: int,
)
    requires
        is_preferred(c_map, colleges, i),
        is_preferred(c_map, colleges, j),
    ensures
        i == j,
{
    if i < j {
        assert(colleges[c_map[i].0 as int].score < colleges[c_map[j].0 as int].score);
        assert(colleges[c_map[j].0 as int].score <= colleges[c_map[i].0 as int].score);
    } else if j < i {
        assert(colleges[c_map[j].0 as int].score < colleges[c_map[i].0 as int].score);
        assert(colleges[c_map[i].0 as int].score <= colleges[c_map[j].0 as int].score);
    }
}

/// A student never settles twice: once it has settled on a college, reading a
/// row leaves it there and commits it to nothing.
pub proof fn lemma_settles_once(
    admission: Option<usize>,
    row: Seq<(usize, u8)>,
    colleges: Seq<College>,
    status: u8,
    hold: bool,
)
    requires
        admission.is_some(),
    ensures
        settled_after(admission, row, colleges, status, hold) == admission,
        commitment(admission, row, colleges, status, hold).is_none(),
{
}

/// Adds the error of the day to the ability.
fn sit(score: i32, error: i32) -> (result: i32)
    ensures
        result == exam_result(score, error),
{
    let sum: i64 = score as i64 + error as i64;
    if sum > i32::MAX as i64 {
        i32::MAX
    } else if sum < i32::MIN as i64 {
        i32::MIN
    } else {
        sum as i32
    }
}

/// The list with only the first of equal entries kept. A set of the
/// values seen so far tells which entries are new.
pub fn first_occurrences(list: &Vec<usize>) -> (out: Vec<usize>)
    ensures
        out@ == dedup(list@),
{
    let mut out: Vec<usize> = Vec::new();
    let mut seen: HashSet<usize> = HashSet::new();
    let mut i: usize = 0;
    while i < list.len()
        invariant
            i <= list.len(),
            out@ == dedup(list@.take(i as int)),
            forall|x: usize| seen@.contains(x) <==> #[trigger] out@.contains(x),
        decreases list.len() - i,
    {
        assert(list@.take(i + 1).drop_last() =~= list@.take(i as int));
        let ghost kept = out@;
        let value = list[i];
        if seen.insert(value) {
            out.push(value);
            proof {
                assert forall|x: usize| seen@.contains(x) <==> #[trigger] out@.contains(x) by {
                    if kept.contains(x) {
                        let j = choose|j: int| 0 <= j < kept.len() && kept[j] == x;
                        assert(out@[j] == x);
                    }
                    if x == value {
                        assert(out@[out@.len() - 1] == x);
                    }
                    if out@.contains(x) && x != value {
                        let j = choose|j: int| 0 <= j < out@.len() && out@[j] == x;
                        assert(kept[j] == x);
                    }
                }
            }
        }
        i += 1;
    }
    assert(list@.take(list.len() as int) =~= list@);
    out
}

impl Student {
    /// The records of the student name no college twice.
    pub open spec fn wf(&self) -> bool {
        one_exam_each(self.c_map@)
    }

    /// The student sat the exam of the college.
    pub open spec fn sat(&self, cid: usize) -> bool {
        has_exam(self.c_map@, cid)
    }

    /// The score that the student reached in the exam of the college.
    pub open spec fn exam(&self, cid: usize) -> i32 {
        exam_score(self.c_map@, cid)
    }

    /// All but the settled college is the same in both.
    pub open spec fn same_person(&self, other: &Student) -> bool {
        &&& self.id == other.id
        &&& self.score == other.score
        &&& self.c_map@ == other.c_map@
        &&& self.pattern == other.pattern
        &&& self.rng == other.rng
        &&& self.count_pattern == other.count_pattern
        &&& self.exam_errors@ == other.exam_errors@
        &&& self.gamble == other.gamble
    }

    /// All but the random stream and the exam records is the same in both.
    pub open spec fn same_plan(&self, other: &Student) -> bool {
        &&& self.id == other.id
        &&& self.score == other.score
        &&& self.pattern == other.pattern
        &&& self.admission == other.admission
        &&& self.count_pattern == other.count_pattern
        &&& self.exam_errors@ == other.exam_errors@
        &&& self.gamble == other.gamble
    }

    /// A fresh student of the given score. Its stream is split off `prev_rng`,
    /// which is moved one jump ahead for it.
    pub fn new(score: i32, prev_rng: &mut Xoshiro256StarStar) -> (student: Student)
        ensures
            state_words(*final(prev_rng)) == jumped(state_words(*old(prev_rng))),
            state_words(student.rng) == state_words(*final(prev_rng)),
            student.id == 0,
            student.score == score,
            student.c_map@ == Seq::<(usize, i32)>::empty(),
            student.pattern == ApplyPattern::Both,
            student.admission.is_none(),
            student.count_pattern == 0,
            student.exam_errors@ == Seq::<i32>::empty(),
            !student.gamble,
    {
        Student {
            id: 0,
            score,
            c_map: Vec::new(),
            pattern: ApplyPattern::Both,
            admission: None,
            rng: split(prev_rng),
            count_pattern: 0,
            exam_errors: Vec::new(),
            gamble: false,
        }
    }

    /// The score that the student reached in the exam of a college it applied to.
    pub fn exam_dev(&self, cid: usize) -> (score: i32)
        requires
            self.sat(cid),
        ensures
            score == self.exam(cid),
    {
        let mut i: usize = 0;
        while i < self.c_map.len() && self.c_map[i].0 != cid
            invariant
                i <= self.c_map.len(),
                forall|j: int| 0 <= j < i ==> (#[trigger] self.c_map[j]).0 != cid,
                self.sat(cid),
            decreases self.c_map.len() - i,
        {
            i += 1;
        }
        proof {
            let k = choose|k: int| 0 <= k < self.c_map.len() && (#[trigger] self.c_map[k]).0 == cid;
            assert(self.c_map[k].0 == cid);
            assert(i < self.c_map.len());
            lemma_first_exam(self.c_map@, cid, i as int);
        }
        self.c_map[i].1
    }

    /// The band of the student among `colleges`, with the two edges given in
    /// whole points relative to the score that counts for the student.
    pub fn get_bounds(&self, conf: &Config, lower: i32, upper: i32, colleges: &Vec<College>) -> (bound: (
        usize,
        usize,
    ))
        requires
            colleges.len() > 0,
            sorted_by_score(colleges@),
        ensures
            bound == band(
                colleges@,
                conf.spec_effective_score(self.score),
                lower * 1000,
                upper * 1000,
            ),
            bound.0 < colleges.len(),
            bound.1 < colleges.len(),
    {
        bounds(conf.effective_score(self.score), lower as i64 * 1000, upper as i64 * 1000, colleges)
    }

    /// Chooses colleges from a band of `colleges` with the student's own
    /// stream, and gives their places in the list of all colleges. Where the
    /// band is no wider than wanted nothing is drawn and the stream stays.
    pub fn select_college(
        &mut self,
        colleges: &Vec<College>,
        bound: (usize, usize),
        select_number: usize,
        proportional: bool,
    ) -> (chosen: Vec<usize>)
        requires
            bound.0 < colleges.len(),
            bound.1 < colleges.len(),
            colleges.len() <= u32::MAX,
        ensures
            final(self).same_plan(old(self)),
            final(self).c_map@ == old(self).c_map@,
            is_selection(
                selection(
                    state_words(old(self).rng),
                    bound,
                    select_number,
                    colleges@,
                    proportional,
                ).0,
                bound,
                select_number,
                colleges@,
                proportional,
            ),
            forall|k: int|
                0 <= k < chosen.len() ==> (#[trigger] selection(
                    state_words(old(self).rng),
                    bound,
                    select_number,
                    colleges@,
                    proportional,
                ).0[k]) < colleges.len(),
            chosen@ == places_of(
                selection(
                    state_words(old(self).rng),
                    bound,
                    select_number,
                    colleges@,
                    proportional,
                ).0,
                colleges@,
            ),
            state_words(final(self).rng) == selection(
                state_words(old(self).rng),
                bound,
                select_number,
                colleges@,
                proportional,
            ).1,
            width(bound) <= 1 || width(bound) <= select_number ==> final(self).rng == old(self).rng,
    {
        let picked = select(&mut self.rng, bound, select_number, colleges, proportional);
        let mut chosen: Vec<usize> = Vec::new();
        let mut k: usize = 0;
        while k < picked.len()
            invariant
                k <= picked.len(),
                chosen.len() == k,
                forall|i: int| 0 <= i < picked.len() ==> #[trigger] picked[i] < colleges.len(),
                forall|i: int| 0 <= i < k ==> #[trigger] chosen[i] == colleges[picked[i] as int].index,
            decreases picked.len() - k,
        {
            chosen.push(colleges[picked[k]].index);
            k += 1;
        }
        assert(chosen@ =~= places_of(picked@, colleges@));
        chosen
    }

    /// Chooses one public college within the range of the student, if there
    /// is one: it draws one college of its band among the public colleges.
    /// A band that is just the first place counts as no band, and then
    /// nothing is drawn and the stream stays.
    pub fn from_nationals(&mut self, conf: &Config, nationals: &Vec<College>) -> (chosen: Option<
        usize,
    >)
        requires
            sorted_by_score(nationals@),
            nationals.len() <= u32::MAX,
        ensures
            final(self).same_plan(old(self)),
            final(self).c_map@ == old(self).c_map@,
            is_national_draw(
                national_draw_of(state_words(old(self).rng), old(self).score, conf, nationals@).0,
                old(self).score,
                conf,
                nationals@,
            ),
            chosen == national_choice(
                national_draw_of(state_words(old(self).rng), old(self).score, conf, nationals@).0,
                old(self).score,
                conf,
                nationals@,
            ),
            state_words(final(self).rng) == national_draw_of(
                state_words(old(self).rng),
                old(self).score,
                conf,
                nationals@,
            ).1,
            !has_national_band(old(self).score, conf, nationals@) ==> final(self).rng == old(self).rng,
            chosen.is_some() ==> member(nationals@, chosen.unwrap()),
    {
        if nationals.len() == 0 {
            return None;
        }
        let bound = self.get_bounds(conf, conf.national_range[0], conf.national_range[1], nationals);
        if bound.0 == 0 && bound.1 == 0 {
            return None;
        }
        let picked = select(&mut self.rng, bound, 1, nationals, conf.college_select_by_enroll);
        if picked.len() > 0 {
            assert(nationals@[picked[0] as int].index == nationals[picked[0] as int].index);
            Some(nationals[picked[0]].index)
        } else {
            None
        }
    }

    /// The college that the student likes best of those it applied to.
    fn preferred(&self, colleges: &Vec<College>) -> (found: Option<usize>)
        requires
            exams_within(self.c_map@, colleges.len() as int),
        ensures
            found == favourite(self.c_map@, colleges@),
    {
        if self.c_map.len() == 0 {
            proof {
                if exists|c: int| is_preferred(self.c_map@, colleges@, c) {
                    let c = choose|c: int| is_preferred(self.c_map@, colleges@, c);
                }
            }
            return None;
        }
        let mut best: usize = 0;
        let mut i: usize = 1;
        while i < self.c_map.len()
            invariant
                1 <= i <= self.c_map.len(),
                exams_within(self.c_map@, colleges.len() as int),
                is_preferred(self.c_map@.take(i as int), colleges@, best as int),
            decreases self.c_map.len() - i,
        {
            if colleges[self.c_map[best].0].score < colleges[self.c_map[i].0].score {
                best = i;
            }
            i += 1;
            proof {
                let before = self.c_map@.take(i - 1);
                let now = self.c_map@.take(i as int);
                assert forall|j: int| 0 <= j < before.len() implies #[trigger] now[j] == before[j] by {}
            }
        }
        proof {
            assert(self.c_map@.take(self.c_map.len() as int) =~= self.c_map@);
            let c = choose|c: int| is_preferred(self.c_map@, colleges@, c);
            lemma_preferred_unique(self.c_map@, colleges@, c, best as int);
        }
        Some(self.c_map[best].0)
    }

    /// First decision, on the first offers of private colleges. The student
    /// answers each offer: it enrols at once where the offer is from the
    /// college it likes best of all it applied to and it applies to private
    /// colleges only, and pays a deposit to hold every other offer.
    pub fn admission1(&mut self, conf: &Config, colleges: &Vec<College>, passed_ids: &Vec<usize>) -> (answers:
        Vec<(usize, (usize, u8))>)
        requires
            exams_within(old(self).c_map@, colleges.len() as int),
        ensures
            final(self).same_person(old(self)),
            answers.len() == passed_ids.len(),
            forall|k: int|
                0 <= k < answers.len() ==> #[trigger] answers[k] == (
                    passed_ids[k],
                    (
                        old(self).id,
                        first_answer(
                            first_wish(
                                old(self).admission,
                                old(self).pattern,
                                old(self).c_map@,
                                colleges@,
                            ),
                            passed_ids[k],
                        ),
                    ),
                ),
            final(self).admission == {
                let wish = first_wish(
                    old(self).admission,
                    old(self).pattern,
                    old(self).c_map@,
                    colleges@,
                );
                if wish.is_some() && passed_ids@.contains(wish.unwrap()) {
                    wish
                } else {
                    old(self).admission
                }
            },
    {
        let mut answers: Vec<(usize, (usize, u8))> = Vec::new();
        let free = self.admission.is_none() && self.pattern.code() == 2;
        let wish: Option<usize> = if free {
            self.preferred(colleges)
        } else {
            None
        };
        let ghost old_self = *self;
        let mut k: usize = 0;
        let mut seen = false;
        while k < passed_ids.len()
            invariant
                k <= passed_ids.len(),
                answers.len() == k,
                *self == old_self,
                forall|i: int|
                    0 <= i < k ==> #[trigger] answers[i] == (
                        passed_ids[i],
                        (self.id, first_answer(wish, passed_ids[i])),
                    ),
                seen <==> wish.is_some() && passed_ids@.take(k as int).contains(wish.unwrap()),
            decreases passed_ids.len() - k,
        {
            let cid = passed_ids[k];
            let status = if wish == Some(cid) {
                ADMISSION_1ST
            } else {
                RESERVE
            };
            if wish == Some(cid) {
                seen = true;
            }
            answers.push((cid, (self.id, status)));
            k += 1;
            proof {
                let before = passed_ids@.take(k - 1);
                let now = passed_ids@.take(k as int);
                assert(now =~= before.push(cid));
                if wish.is_some() {
                    let w = wish.unwrap();
                    if now.contains(w) {
                        let p = choose|p: int| 0 <= p < now.len() && now[p] == w;
                        if p < before.len() {
                            assert(before[p] == w);
                        }
                    }
                    if before.contains(w) {
                        let p = choose|p: int| 0 <= p < before.len() && before[p] == w;
                        assert(now[p] == w);
                    }
                    assert(now[k - 1] == cid);
                }
            }
        }
        assert(passed_ids@.take(passed_ids.len() as int) =~= passed_ids@);
        if seen {
            self.admission = wish;
        }
        answers
    }

    /// Reads the student's row of the status matrix and commits, if it is
    /// time to, to the best college of the row with the status.
    fn decide(&mut self, colleges: &Vec<College>, row: &Vec<(usize, u8)>, status: u8, hold: bool) -> (chosen:
        Option<usize>)
        requires
            row_within(row@, colleges.len() as int),
        ensures
            final(self).same_person(old(self)),
            chosen == commitment(old(self).admission, row@, colleges@, status, hold),
            final(self).admission == settled_after(
                old(self).admission,
                row@,
                colleges@,
                status,
                hold,
            ),
    {
        if self.admission.is_some() {
            return None;
        }
        let enrolled = find_admitted(row);
        if enrolled.is_some() {
            self.admission = enrolled;
            return None;
        }
        if hold {
            return None;
        }
        let chosen = find_best(row, colleges, status);
        if chosen.is_some() {
            self.admission = chosen;
        }
        chosen
    }

    /// Second decision, after the public colleges have made their offers.
    /// `row` is the student's row of the status matrix: college and status.
    /// A student that is enrolled by now, at a private college on its first
    /// offer or at a public one, stays there. Of the others, one that holds
    /// offers commits to the best of them, unless it would rather wait for
    /// the waitlist.
    pub fn admission2(&mut self, conf: &Config, colleges: &Vec<College>, row: &Vec<(usize, u8)>) -> (chosen:
        Option<usize>)
        requires
            row_within(row@, colleges.len() as int),
        ensures
            final(self).same_person(old(self)),
            chosen == commitment(
                old(self).admission,
                row@,
                colleges@,
                R_RESERVED,
                old(self).gamble,
            ),
            final(self).admission == settled_after(
                old(self).admission,
                row@,
                colleges@,
                R_RESERVED,
                old(self).gamble,
            ),
    {
        let hold = self.gamble;
        self.decide(colleges, row, R_RESERVED, hold)
    }

    /// Last decision, after the waitlist offers. A student that is enrolled by
    /// now stays there; another commits to the best college that made it a
    /// waitlist offer.
    pub fn admission3(&mut self, conf: &Config, colleges: &Vec<College>, row: &Vec<(usize, u8)>) -> (chosen:
        Option<usize>)
        requires
            row_within(row@, colleges.len() as int),
        ensures
            final(self).same_person(old(self)),
            chosen == commitment(old(self).admission, row@, colleges@, R_ENROLL_3RD, false),
            final(self).admission == settled_after(
                old(self).admission,
                row@,
                colleges@,
                R_ENROLL_3RD,
                false,
            ),
    {
        self.decide(colleges, row, R_ENROLL_3RD, false)
    }

    /// Application. The student chooses a public college within its range,
    /// if it applies to public colleges, and from each of the three ranks
    /// of private colleges as many as its row of selection counts says, one
    /// fewer from the first rank where it has chosen a public college. It
    /// sits the exam of each college once, in the order chosen, the public
    /// college last. The result holds the band of each rank and the colleges.
    pub fn apply(&mut self, conf: &Config, nationals: &Vec<College>, privates: &Vec<College>) -> (out: (
        Vec<(usize, usize)>,
        Vec<usize>,
    ))
        requires
            old(self).c_map.len() == 0,
            old(self).count_pattern < 2,
            old(self).exam_errors.len() >= application_cap(
                conf.college_rank_select_number[old(self).count_pattern as int],
            ),
            sorted_by_score(nationals@),
            nationals.len() <= u32::MAX,
            sorted_by_score(privates@),
            privates.len() <= u32::MAX,
        ensures
            final(self).same_plan(old(self)),
            out.0@ == rank_bands(conf, old(self).score, privates@),
            is_application(
                out.1@,
                *old(self),
                conf,
                nationals@,
                privates@,
                application_draws(*old(self), conf, nationals@, privates@).0,
                application_draws(*old(self), conf, nationals@, privates@).1,
            ),
            state_words(final(self).rng) == application_draws(
                *old(self),
                conf,
                nationals@,
                privates@,
            ).2,
            final(self).c_map@ == exams_of(old(self).score, old(self).exam_errors@, out.1@),
            distinct(out.1@),
            out.1@.len() <= application_cap(
                conf.college_rank_select_number[old(self).count_pattern as int],
            ),
            forall|k: int|
                0 <= k < out.1@.len() ==> reached(privates@, out.0@, #[trigger] out.1@[k]) || (k
                    == out.1@.len() - 1 && old(self).pattern == ApplyPattern::Both && member(
                    nationals@,
                    out.1@[k],
                )),
    {
        let national: Option<usize> = match self.pattern {
            ApplyPattern::Both => self.from_nationals(conf, nationals),
            _ => None,
        };
        let ghost first = if old(self).pattern == ApplyPattern::Both {
            national_draw_of(state_words(old(self).rng), old(self).score, conf, nationals@)
        } else {
            (Seq::empty(), state_words(old(self).rng))
        };
        let ghost national_draw: Seq<usize> = first.0;
        assert(state_words(self.rng) == first.1);
        let mut bands: Vec<(usize, usize)> = Vec::new();
        let mut r: usize = 0;
        while r < 3
            invariant
                r <= 3,
                sorted_by_score(privates@),
                self.same_plan(old(self)),
                bands@ == rank_bands(conf, old(self).score, privates@).take(r as int),
                privates.len() > 0 ==> forall|i: int|
                    0 <= i < r ==> (#[trigger] bands@[i]).0 < privates.len() && bands@[i].1
                        < privates.len(),
            decreases 3 - r,
        {
            let bound = if privates.len() > 0 {
                self.get_bounds(
                    conf,
                    conf.college_rank_lower[r],
                    conf.college_rank_upper[r],
                    privates,
                )
            } else {
                (0, 0)
            };
            bands.push(bound);
            r += 1;
            assert(bands@ =~= rank_bands(conf, old(self).score, privates@).take(r as int));
        }
        assert(bands@ =~= rank_bands(conf, old(self).score, privates@));
        let counts = conf.college_rank_select_number[self.count_pattern];
        let mut all: Vec<usize> = Vec::new();
        let ghost mut picks: Seq<Seq<usize>> = Seq::empty();
        r = 0;
        while r < 3
            invariant
                r <= 3,
                privates.len() <= u32::MAX,
                self.same_plan(old(self)),
                self.c_map@ == old(self).c_map@,
                counts == conf.college_rank_select_number[old(self).count_pattern as int],
                bands@ == rank_bands(conf, old(self).score, privates@),
                privates.len() > 0 ==> forall|i: int|
                    0 <= i < 3 ==> (#[trigger] bands@[i]).0 < privates.len() && bands@[i].1
                        < privates.len(),
                picks.len() == r,
                (picks, state_words(self.rng)) == rank_draws(
                    first.1,
                    *old(self),
                    conf,
                    privates@,
                    national,
                    r as nat,
                ),
                forall|i: int|
                    0 <= i < r ==> if privates.len() > 0 {
                        is_selection(
                            #[trigger] picks[i],
                            bands@[i],
                            wanted_from(counts, i, national),
                            privates@,
                            conf.college_select_by_enroll,
                        )
                    } else {
                        (#[trigger] picks[i]).len() == 0
                    },
                all@ == (if r >= 1 {
                    places_of(picks[0], privates@)
                } else {
                    Seq::empty()
                }) + (if r >= 2 {
                    places_of(picks[1], privates@)
                } else {
                    Seq::empty()
                }) + (if r >= 3 {
                    places_of(picks[2], privates@)
                } else {
                    Seq::empty()
                }),
                all@.len() <= (if r >= 1 {
                    at_least_one(counts[0])
                } else {
                    0
                }) + (if r >= 2 {
                    at_least_one(counts[1])
                } else {
                    0
                }) + (if r >= 3 {
                    at_least_one(counts[2])
                } else {
                    0
                }),
                forall|k: int| 0 <= k < all@.len() ==> reached(privates@, bands@, #[trigger] all@[k]),
            decreases 3 - r,
        {
            let ghost before = all@;
            let ghost picked: Seq<usize> = Seq::empty();
            if privates.len() > 0 {
                let mut n = counts[r];
                if national.is_some() && r == 0 && n > 0 {
                    n = n - 1;
                }
                let bound = bands[r];
                let ghost found = state_words(self.rng);
                let chosen = self.select_college(privates, bound, n, conf.college_select_by_enroll);
                proof {
                    picked = selection(
                        found,
                        bound,
                        n,
                        privates@,
                        conf.college_select_by_enroll,
                    ).0;
                    lemma_selection_in_band(
                        picked,
                        bound,
                        n,
                        privates@,
                        conf.college_select_by_enroll,
                    );
                    assert(chosen@ =~= places_of(picked, privates@));
                    assert forall|k: int| 0 <= k < chosen@.len() implies reached(
                        privates@,
                        bands@,
                        #[trigger] chosen@[k],
                    ) by {
                        assert(member_in_band(privates@, bands@[r as int], chosen@[k], picked[k] as int));
                        assert(in_band(privates@, bands@[r as int], chosen@[k]));
                    }
                }
                all = crate::reduce::append_vector(all, chosen);
            }
            proof {
                picks = picks.push(picked);
                assert(places_of(picked, privates@).len() == picked.len());
                assert forall|k: int| 0 <= k < all@.len() implies reached(
                    privates@,
                    bands@,
                    #[trigger] all@[k],
                ) by {
                    if k < before.len() {
                        assert(all@[k] == before[k]);
                    }
                }
            }
            r += 1;
        }
        let ghost drawn_private = all@;
        match national {
            Some(n) => {
                all.push(n);
            },
            None => {},
        }
        let c_vec = first_occurrences(&all);
        proof {
            assert(all@ =~= drawn_colleges(picks, privates@, national));
            assert(is_application(
                c_vec@,
                *old(self),
                conf,
                nationals@,
                privates@,
                national_draw,
                picks,
            ));
            lemma_dedup(all@);
            lemma_dedup(drawn_private);
            assert(all@.drop_last() =~= drawn_private || national.is_none());
            assert forall|k: int| 0 <= k < c_vec@.len() implies reached(
                privates@,
                bands@,
                #[trigger] c_vec@[k],
            ) || (k == c_vec@.len() - 1 && old(self).pattern == ApplyPattern::Both && member(
                nationals@,
                c_vec@[k],
            )) by {
                let x = c_vec@[k];
                if national.is_some() && !dedup(drawn_private).contains(national.unwrap()) {
                    assert(c_vec@ == dedup(drawn_private).push(national.unwrap()));
                    if k < c_vec@.len() - 1 {
                        assert(dedup(drawn_private)[k] == x);
                        assert(dedup(drawn_private).contains(x));
                        assert(drawn_private.contains(x));
                        let i = choose|i: int| 0 <= i < drawn_private.len() && drawn_private[i] == x;
                    }
                } else {
                    assert(c_vec@ == dedup(drawn_private));
                    assert(c_vec@.contains(x));
                    assert(drawn_private.contains(x));
                    let i = choose|i: int| 0 <= i < drawn_private.len() && drawn_private[i] == x;
                }
            }
        }
        let ghost left_in = state_words(self.rng);
        let mut k: usize = 0;
        while k < c_vec.len()
            invariant
                k <= c_vec.len(),
                c_vec.len() <= self.exam_errors.len(),
                self.same_plan(old(self)),
                state_words(self.rng) == left_in,
                self.c_map@ == exams_of(old(self).score, old(self).exam_errors@, c_vec@).take(
                    k as int,
                ),
            decreases c_vec.len() - k,
        {
            let result = sit(self.score, self.exam_errors[k]);
            self.c_map.push((c_vec[k], result));
            k += 1;
            assert(self.c_map@ =~= exams_of(old(self).score, old(self).exam_errors@, c_vec@).take(
                k as int,
            ));
        }
        assert(self.c_map@ =~= exams_of(old(self).score, old(self).exam_errors@, c_vec@));
        let out = (bands, c_vec);
        assert(out.1@ == c_vec@);
        out
    }

    /// The student has not applied anywhere, has not settled, and carries no draws.
    pub open spec fn is_fresh(&self) -> bool {
        &&& self.c_map@.len() == 0
        &&& self.pattern == ApplyPattern::Both
        &&& self.admission.is_none()
        &&& self.count_pattern == 0
        &&& self.exam_errors@.len() == 0
        &&& !self.gamble
    }

    /// The students of a year, one for each of `scores`. A stream is split off
    /// `rng` for each score in turn, one jump further for each. The students
    /// stand by rising score, equal scores in the order given, and are
    /// numbered as they stand.
    pub fn from_conf(conf: &Config, epoch: usize, scores: &Vec<i32>, rng: &mut Xoshiro256StarStar) -> (students:
        Vec<Student>)
        requires
            epoch < conf.student_number.len(),
            scores.len() == conf.student_number[epoch as int],
        ensures
            students.len() == scores.len(),
            state_words(*final(rng)) == jumped_times(state_words(*old(rng)), scores.len() as nat),
            forall|i: int|
                0 <= i < students.len() ==> {
                    let born = rising(scores@)[i];
                    &&& born < scores.len()
                    &&& (#[trigger] students[i]).id == i
                    &&& students[i].score == scores[born as int]
                    &&& state_words(students[i].rng) == jumped_times(
                        state_words(*old(rng)),
                        (born + 1) as nat,
                    )
                    &&& students[i].is_fresh()
                },
            forall|i: int, j: int|
                0 <= i < j < students.len() ==> (#[trigger] students[i]).score <= (
                #[trigger] students[j]).score,
    {
        let mut streams: Vec<Xoshiro256StarStar> = Vec::new();
        let mut k: usize = 0;
        while k < scores.len()
            invariant
                k <= scores.len(),
                streams.len() == k,
                state_words(*rng) == jumped_times(state_words(*old(rng)), k as nat),
                forall|p: int|
                    0 <= p < k ==> state_words(#[trigger] streams[p]) == jumped_times(
                        state_words(*old(rng)),
                        (p + 1) as nat,
                    ),
            decreases scores.len() - k,
        {
            streams.push(split(rng));
            k += 1;
        }
        let order = rising_order(scores);
        proof {
            lemma_rising(scores@);
        }
        let mut students: Vec<Student> = Vec::new();
        let mut i: usize = 0;
        while i < order.len()
            invariant
                i <= order.len(),
                order@ == rising(scores@),
                order@.len() == scores.len(),
                streams.len() == scores.len(),
                forall|p: int| 0 <= p < order@.len() ==> (#[trigger] order@[p]) < scores.len(),
                forall|p: int|
                    0 <= p < streams.len() ==> state_words(#[trigger] streams[p]) == jumped_times(
                        state_words(*old(rng)),
                        (p + 1) as nat,
                    ),
                students.len() == i,
                forall|p: int|
                    0 <= p < i ==> {
                        let born = order@[p];
                        &&& (#[trigger] students[p]).id == p
                        &&& students[p].score == scores[born as int]
                        &&& state_words(students[p].rng) == jumped_times(
                            state_words(*old(rng)),
                            (born + 1) as nat,
                        )
                        &&& students[p].is_fresh()
                    },
            decreases order.len() - i,
        {
            let born = order[i];
            students.push(
                Student {
                    id: i,
                    score: scores[born],
                    c_map: Vec::new(),
                    pattern: ApplyPattern::Both,
                    admission: None,
                    rng: streams[born].clone(),
                    count_pattern: 0,
                    exam_errors: Vec::new(),
                    gamble: false,
                },
            );
            i += 1;
        }
        proof {
            assert forall|a: int, b: int| 0 <= a < b < students.len() implies (
            #[trigger] students[a]).score <= (#[trigger] students[b]).score by {
                let x = rising(scores@)[a] as int;
                let y = rising(scores@)[b] as int;
                assert(scores@[x] <= scores@[y]);
            }
        }
        students
    }
}

/// What a year did to one student.
#[derive(Debug, Clone, PartialEq, Eq)]
pub struct StudentResult {
    /// The year, counted from zero.
    pub epoch: i32,
    /// The number of the student.
    pub id: usize,
    /// The ability of the student, in thousandths of a point.
    pub score: i32,
    /// Where the student applied: 1 to both kinds of college, 2 to private ones only.
    pub pattern: u8,
    /// The college that the student settled on.
    pub admission: Option<usize>,
    /// What became of each application: category of the college, place of
    /// the college, final status; by rising place of the college.
    pub result: Vec<(u8, usize, u8)>,
}

impl StudentResult {
    /// The log as a line of text.
    pub fn log_string(&self) -> (text: String)
        ensures
            text@ == crate::report::log_text(self.result@),
    {
        crate::report::write_log(&self.result)
    }
}

/// The log of a student: each entry of its row with the category of the college.
pub open spec fn log_of(row: Seq<(usize, u8)>, colleges: Seq<College>) -> Seq<(u8, usize, u8)> {
    Seq::new(row.len(), |i: int| (colleges[row[i].0 as int].institute, row[i].0, row[i].1))
}

/// `result` is what the year did to `student`, whose row of the final status is `row`.
pub open spec fn is_student_result(
    result: StudentResult,
    epoch: i32,
    student: Student,
    row: Seq<(usize, u8)>,
    colleges: Seq<College>,
) -> bool {
    &&& result.epoch == epoch
    &&& result.id == student.id
    &&& result.score == student.score
    &&& result.pattern == student.pattern.spec_code()
    &&& result.admission == student.admission
    &&& result.result@ == log_of(row, colleges)
}

/// The log that a map of logs holds for a student: none where it has no
/// entry for it.
pub open spec fn logged(smap: Map<usize, Vec<(usize, u8)>>, id: usize) -> Seq<(usize, u8)> {
    if smap.contains_key(id) {
        smap[id]@
    } else {
        Seq::empty()
    }
}

/// What the year did to each student. `smap` holds for the number of each
/// student that applied its row of the final status: college and status. A
/// student without an entry has an empty log.
pub fn settle(
    epoch: i32,
    students: &Vec<Student>,
    smap: &mut HashMap<usize, Vec<(usize, u8)>>,
    colleges: &Vec<College>,
) -> (results: Vec<StudentResult>)
    requires
        forall|id: usize| row_within(#[trigger] logged(old(smap)@, id), colleges.len() as int),
    ensures
        final(smap)@ == old(smap)@,
        results.len() == students.len(),
        forall|s: int|
            0 <= s < results.len() ==> is_student_result(
                #[trigger] results[s],
                epoch,
                students[s],
                logged(old(smap)@, students[s].id),
                colleges@,
            ),
{
    let mut results: Vec<StudentResult> = Vec::new();
    let mut s: usize = 0;
    while s < students.len()
        invariant
            s <= students.len(),
            smap@ == old(smap)@,
            forall|id: usize| row_within(#[trigger] logged(smap@, id), colleges.len() as int),
            results.len() == s,
            forall|p: int|
                0 <= p < s ==> is_student_result(
                    #[trigger] results[p],
                    epoch,
                    students[p],
                    logged(smap@, students[p].id),
                    colleges@,
                ),
        decreases students.len() - s,
    {
        let mut log: Vec<(u8, usize, u8)> = Vec::new();
        let id = students[s].id;
        assert(row_within(logged(smap@, id), colleges.len() as int));
        match smap.get(&id) {
            Some(row) => {
                let mut i: usize = 0;
                while i < row.len()
                    invariant
                        i <= row.len(),
                        row_within(row@, colleges.len() as int),
                        log@ == log_of(row@, colleges@).take(i as int),
                    decreases row.len() - i,
                {
                    let cid = row[i].0;
                    log.push((colleges[cid].institute, cid, row[i].1));
                    i += 1;
                    assert(log@ =~= log_of(row@, colleges@).take(i as int));
                }
                assert(log@ =~= log_of(row@, colleges@));
            },
            None => {
                assert(log@ =~= log_of(logged(smap@, id), colleges@));
            },
        }
        results.push(
            StudentResult {
                epoch,
                id: students[s].id,
                score: students[s].score,
                pattern: students[s].pattern.code(),
                admission: students[s].admission,
                result: log,
            },
        );
        s += 1;
    }
    results
}

} // verus!
