//! The rounds of one admission year, each over all agents of one side.

use crate::choice::{best_with, enrolled_at, is_best};
use crate::college::{
    all_sat, indexed, lemma_with_status, scored, sorted_by_score, with_status, College,
};
use crate::config::Config;
use crate::flags::{
    ADMISSION_2ND, ADMISSION_3RD, APPLY, ENROLL_1ST, ENROLL_2ND, ENROLL_3RD, R_ENROLL_3RD,
    R_FAILED, R_RESERVED,
};
use crate::matrix::{lemma_row_entries, row_entries, within, StatusMatrix};
use crate::offer::{lemma_top, offer_count, offered, top};
use crate::reduce::{gather, gathered, listed, listed_value, one_each, well_listed};
use crate::student::{
    application_cap, commitment, exams_of, exams_within, first_answer, first_wish, is_group,
    member, rank_bands, reached, settled_after, ApplyPattern, Student,
};
use vstd::prelude::*;

verus! {

/// The entries of a list of agents that all have one status.
pub open spec fn marked(ids: Seq<usize>, status: u8) -> Seq<(usize, u8)> {
    Seq::new(ids.len(), |i: int| (ids[i], status))
}

/// The agents of the entries of a row.
pub open spec fn agents(row: Seq<(usize, u8)>) -> Seq<usize> {
    Seq::new(row.len(), |i: int| row[i].0)
}

/// The matrix of a round: it stores at the row of a counterpart and the
/// column of an agent the status that the agent emits for the counterpart.
pub open spec fn round_cells(emitted: spec_fn(int) -> Seq<(usize, u8)>, agents: nat) -> Map<
    (int, int),
    u8,
> {
    Map::new(
        |k: (int, int)| 0 <= k.1 < agents && listed(emitted(k.1), k.0),
        |k: (int, int)| listed_value(emitted(k.1), k.0),
    )
}

/// The lists of the agents stand for the matrix of their round.
pub proof fn lemma_round_cells(lists: Seq<Vec<(usize, u8)>>, emitted: spec_fn(int) -> Seq<(usize, u8)>)
    requires
        forall|a: int| 0 <= a < lists.len() ==> (#[trigger] lists[a])@ == emitted(a),
    ensures
        gathered(lists) == round_cells(emitted, lists.len()),
{
    let left = gathered(lists);
    let right = round_cells(emitted, lists.len());
    assert forall|k: (int, int)| #[trigger]
        left.dom().contains(k) == right.dom().contains(k) && (left.dom().contains(k) ==> left[k]
            == right[k]) by {
        if 0 <= k.1 < lists.len() {
            assert(lists[k.1]@ == emitted(k.1));
        }
    }
    assert(left =~= right);
}

/// Every student stands at the place that its number names.
pub open spec fn numbered(students: Seq<Student>) -> bool {
    forall|i: int| 0 <= i < students.len() ==> (#[trigger] students[i]).id == i
}

/// The students are ready to apply: none has a record yet or has settled, and
/// each carries a row of selection counts and exam draws enough for all its
/// applications.
pub open spec fn ready(students: Seq<Student>, conf: &Config) -> bool {
    forall|i: int|
        0 <= i < students.len() ==> {
            let s = #[trigger] students[i];
            &&& s.c_map@.len() == 0
            &&& s.admission.is_none()
            &&& s.count_pattern < 2
            &&& s.exam_errors@.len() >= application_cap(
                conf.college_rank_select_number[s.count_pattern as int],
            )
        }
}

/// A student's applications go to private colleges within reach of its bands
/// and, last and only if it applies to both kinds, to one public college.
pub open spec fn applications_in_reach(
    s: Student,
    conf: &Config,
    nationals: Seq<College>,
    privates: Seq<College>,
) -> bool {
    forall|k: int|
        0 <= k < s.c_map@.len() ==> reached(
            privates,
            rank_bands(conf, s.score, privates),
            (#[trigger] s.c_map@[k]).0,
        ) || (k == s.c_map@.len() - 1 && s.pattern == ApplyPattern::Both && member(
            nationals,
            s.c_map@[k].0,
        ))
}

/// What the round of applications leaves of a student: it has a record for
/// each college that its draws name, in the order drawn, with the score of
/// its exam there; its stream is where the draws left it; and it is
/// otherwise as it was.
pub open spec fn after_application(
    before: Student,
    after: Student,
    conf: &Config,
    nationals: Seq<College>,
    privates: Seq<College>,
) -> bool {
    &&& after.same_plan(&before)
    &&& after.wf()
    &&& exams_within(after.c_map@, (nationals.len() + privates.len()) as int)
    &&& after.c_map@ == exams_of(before.score, before.exam_errors@, agents_of(after.c_map@))
    &&& after.c_map@.len() <= after.exam_errors@.len()
    &&& applications_in_reach(after, conf, nationals, privates)
    &&& crate::student::is_application(
        agents_of(after.c_map@),
        before,
        conf,
        nationals,
        privates,
        crate::student::application_draws(before, conf, nationals, privates).0,
        crate::student::application_draws(before, conf, nationals, privates).1,
    )
    &&& crate::stream::state_words(after.rng) == crate::student::application_draws(
        before,
        conf,
        nationals,
        privates,
    ).2
}

/// The two groups of a list of colleges: public and private, each by rising
/// score and with the places that the colleges have in the list.
pub fn divide_colleges(colleges: &Vec<College>) -> (groups: (Vec<College>, Vec<College>))
    requires
        indexed(colleges@),
        sorted_by_score(colleges@),
        colleges.len() <= u32::MAX,
    ensures
        is_group(groups.0@, false, colleges.len() as int),
        is_group(groups.1@, true, colleges.len() as int),
        groups.0.len() + groups.1.len() == colleges.len(),
        forall|k: int|
            0 <= k < groups.0.len() ==> (#[trigger] groups.0[k]).same_standing(
                &colleges[groups.0[k].index as int],
            ) && groups.0[k].same_scratch(&colleges[groups.0[k].index as int]),
        forall|k: int|
            0 <= k < groups.1.len() ==> (#[trigger] groups.1[k]).same_standing(
                &colleges[groups.1[k].index as int],
            ) && groups.1[k].same_scratch(&colleges[groups.1[k].index as int]),
        forall|a: int, b: int|
            0 <= a < b < groups.0.len() ==> (#[trigger] groups.0[a]).index < (
            #[trigger] groups.0[b]).index,
        forall|a: int, b: int|
            0 <= a < b < groups.1.len() ==> (#[trigger] groups.1[a]).index < (
            #[trigger] groups.1[b]).index,
        forall|i: int|
            0 <= i < colleges.len() ==> if (#[trigger] colleges[i]).is_private() {
                member(groups.1@, i as usize)
            } else {
                member(groups.0@, i as usize)
            },
{
    let mut nationals: Vec<College> = Vec::new();
    let mut privates: Vec<College> = Vec::new();
    let mut i: usize = 0;
    while i < colleges.len()
        invariant
            i <= colleges.len(),
            indexed(colleges@),
            sorted_by_score(colleges@),
            nationals.len() + privates.len() == i,
            forall|k: int|
                0 <= k < nationals.len() ==> (#[trigger] nationals[k]).index < i
                    && !nationals[k].is_private() && nationals[k].same_standing(
                    &colleges[nationals[k].index as int],
                ) && nationals[k].same_scratch(&colleges[nationals[k].index as int]),
            forall|k: int|
                0 <= k < privates.len() ==> (#[trigger] privates[k]).index < i
                    && privates[k].is_private() && privates[k].same_standing(
                    &colleges[privates[k].index as int],
                ) && privates[k].same_scratch(&colleges[privates[k].index as int]),
            forall|a: int, b: int|
                0 <= a < b < nationals.len() ==> (#[trigger] nationals[a]).index < (
                #[trigger] nationals[b]).index,
            forall|a: int, b: int|
                0 <= a < b < privates.len() ==> (#[trigger] privates[a]).index < (
                #[trigger] privates[b]).index,
            forall|p: int|
                0 <= p < i ==> if (#[trigger] colleges[p]).is_private() {
                    member(privates@, p as usize)
                } else {
                    member(nationals@, p as usize)
                },
        decreases colleges.len() - i,
    {
        let copy = colleges[i].duplicate();
        let ghost old_nationals = nationals@;
        let ghost old_privates = privates@;
        if copy.institute == Config::PRIVATE {
            privates.push(copy);
        } else {
            nationals.push(copy);
        }
        proof {
            assert forall|p: int| 0 <= p < i + 1 implies if (#[trigger] colleges[p]).is_private() {
                member(privates@, p as usize)
            } else {
                member(nationals@, p as usize)
            } by {
                if p < i {
                    if colleges[p].is_private() {
                        let j = choose|j: int|
                            0 <= j < old_privates.len() && (#[trigger] old_privates[j]).index == p;
                        assert(privates@[j].index == p);
                    } else {
                        let j = choose|j: int|
                            0 <= j < old_nationals.len() && (#[trigger] old_nationals[j]).index == p;
                        assert(nationals@[j].index == p);
                    }
                } else {
                    if colleges[p].is_private() {
                        assert(privates@[privates.len() - 1].index == p);
                    } else {
                        assert(nationals@[nationals.len() - 1].index == p);
                    }
                }
            }
        }
        i += 1;
    }
    proof {
        assert forall|a: int, b: int| 0 <= a < b < nationals.len() implies (
        #[trigger] nationals[a]).score <= (#[trigger] nationals[b]).score by {
            assert(nationals[a].index < nationals[b].index);
            assert(colleges[nationals[a].index as int].score
                <= colleges[nationals[b].index as int].score);
        }
        assert forall|a: int, b: int| 0 <= a < b < privates.len() implies (
        #[trigger] privates[a]).score <= (#[trigger] privates[b]).score by {
            assert(privates[a].index < privates[b].index);
            assert(colleges[privates[a].index as int].score
                <= colleges[privates[b].index as int].score);
        }
    }
    (nationals, privates)
}

/// The list of a student for the round of applications.
fn application_list(c_vec: &Vec<usize>) -> (list: Vec<(usize, u8)>)
    ensures
        list@ == marked(c_vec@, APPLY),
{
    mark(c_vec, APPLY)
}

/// The agents of a list, each with the status.
fn mark(ids: &Vec<usize>, status: u8) -> (list: Vec<(usize, u8)>)
    ensures
        list@ == marked(ids@, status),
{
    let mut list: Vec<(usize, u8)> = Vec::new();
    let mut i: usize = 0;
    while i < ids.len()
        invariant
            i <= ids.len(),
            list@ == marked(ids@, status).take(i as int),
        decreases ids.len() - i,
    {
        list.push((ids[i], status));
        i += 1;
        assert(list@ =~= marked(ids@, status).take(i as int));
    }
    assert(list@ =~= marked(ids@, status));
    list
}

/// Applications. Every student chooses its colleges and sits their exams.
/// The result is the matrix of applications, a row for each college and a
/// column for each student.
pub fn apply(
    students: &mut Vec<Student>,
    nationals: &Vec<College>,
    privates: &Vec<College>,
    conf: &Config,
) -> (m: StatusMatrix)
    requires
        numbered(old(students)@),
        ready(old(students)@, conf),
        nationals.len() + privates.len() < usize::MAX,
        is_group(nationals@, false, nationals.len() + privates.len()),
        is_group(privates@, true, nationals.len() + privates.len()),
    ensures
        final(students).len() == old(students).len(),
        m.rows() == nationals.len() + privates.len(),
        m.cols() == final(students).len(),
        within(m@, m.rows() as int, m.cols() as int),
        forall|i: int|
            0 <= i < final(students).len() ==> after_application(
                old(students)[i],
                #[trigger] final(students)[i],
                conf,
                nationals@,
                privates@,
            ),
        forall|c: int, i: int|
            0 <= i < final(students).len() ==> (#[trigger] m@.contains_key((c, i)) <==> 0 <= c
                < usize::MAX && final(students)[i].sat(c as usize)),
        forall|k: (int, int)| #[trigger] m@.contains_key(k) ==> m@[k] == APPLY,
{
    let total = nationals.len() + privates.len();
    let mut lists: Vec<Vec<(usize, u8)>> = Vec::new();
    let mut i: usize = 0;
    while i < students.len()
        invariant
            i <= students.len(),
            students.len() == old(students).len(),
            total == nationals.len() + privates.len(),
            is_group(nationals@, false, total as int),
            is_group(privates@, true, total as int),
            lists.len() == i,
            forall|k: int| i <= k < students.len() ==> (#[trigger] students[k]) == old(students)[k],
            ready(old(students)@, conf),
            well_listed(lists@, total as int),
            forall|p: int|
                0 <= p < i ==> after_application(
                    old(students)[p],
                    #[trigger] students[p],
                    conf,
                    nationals@,
                    privates@,
                ),
            forall|p: int|
                0 <= p < i ==> (#[trigger] lists[p])@ == marked(agents_of(students[p].c_map@), APPLY),
        decreases students.len() - i,
    {
        let ghost before = students[i as int];
        let ghost prev = students@;
        assert(before == old(students)[i as int]);
        let (bands, c_vec) = students[i].apply(conf, nationals, privates);
        let list = application_list(&c_vec);
        proof {
            let s = students[i as int];
            assert(s.c_map@ == exams_of(before.score, before.exam_errors@, c_vec@));
            assert(agents_of(s.c_map@) =~= c_vec@);
            assert forall|a: int, b: int| 0 <= a < b < s.c_map@.len() implies (
            #[trigger] s.c_map@[a]).0 != (#[trigger] s.c_map@[b]).0 by {
                assert(c_vec@[a] != c_vec@[b]);
            }
            assert forall|k: int| 0 <= k < s.c_map@.len() implies reached(
                privates@,
                rank_bands(conf, s.score, privates@),
                (#[trigger] s.c_map@[k]).0,
            ) || (k == s.c_map@.len() - 1 && s.pattern == ApplyPattern::Both && member(
                nationals@,
                s.c_map@[k].0,
            )) by {
                assert(s.c_map@[k].0 == c_vec@[k]);
            }
            assert forall|k: int| 0 <= k < s.c_map@.len() implies (#[trigger] s.c_map@[k]).0
                < total by {
                lemma_application_within(s, conf, nationals@, privates@, total as int, k);
            }
            assert(one_each(list@)) by {
                assert forall|a: int, b: int| 0 <= a < b < list@.len() implies (#[trigger] list@[a]).0
                    != (#[trigger] list@[b]).0 by {
                    assert(c_vec@[a] != c_vec@[b]);
                }
            }
            assert forall|k: int| 0 <= k < list@.len() implies (#[trigger] list@[k]).0 < total by {
                assert(s.c_map@[k].0 < total);
            }
        }
        let ghost old_lists = lists@;
        lists.push(list);
        proof {
            assert forall|a: int| 0 <= a < lists@.len() implies one_each((#[trigger] lists@[a])@)
                && forall|q: int|
                0 <= q < lists@[a]@.len() ==> (#[trigger] lists@[a]@[q]).0 < total by {
                if a < old_lists.len() {
                    assert(lists@[a] == old_lists[a]);
                }
            }
            let s = students[i as int];
            assert(after_application(before, s, conf, nationals@, privates@));
            assert forall|p: int| 0 <= p < i + 1 implies after_application(
                old(students)[p],
                #[trigger] students[p],
                conf,
                nationals@,
                privates@,
            ) by {
                if p < i {
                    assert(students[p] == prev[p]);
                }
            }
            assert forall|p: int| 0 <= p < i + 1 implies (#[trigger] lists[p])@ == marked(
                agents_of(students[p].c_map@),
                APPLY,
            ) by {
                if p < i {
                    assert(lists@[p] == old_lists[p]);
                    assert(students[p] == prev[p]);
                }
            }
        }
        i += 1;
    }
    let m = gather(&lists, total);
    proof {
        assert forall|c: int, p: int| 0 <= p < students.len() implies (#[trigger] m@.contains_key(
            (c, p),
        ) <==> 0 <= c < usize::MAX && students[p].sat(c as usize)) by {
            let s = students[p];
            let list = lists[p]@;
            if m@.contains_key((c, p)) {
                let q = choose|q: int| 0 <= q < list.len() && (#[trigger] list[q]).0 == c;
                assert(s.c_map@[q].0 == c);
            }
            if 0 <= c < usize::MAX && s.sat(c as usize) {
                let q = choose|q: int| 0 <= q < s.c_map@.len() && (#[trigger] s.c_map@[q]).0 == c as usize;
                assert(list[q].0 == c);
            }
        }
        assert forall|k: (int, int)| #[trigger] m@.contains_key(k) implies m@[k] == APPLY by {
            let list = lists[k.1]@;
            let q = choose|q: int| 0 <= q < list.len() && (#[trigger] list[q]).0 == k.0;
            assert(list[q].1 == APPLY);
            let q2 = choose|q2: int| 0 <= q2 < list.len() && (#[trigger] list[q2]).0 == k.0;
        }
    }
    m
}

/// The colleges of the records of a student, in the order of its applications.
pub open spec fn agents_of(c_map: Seq<(usize, i32)>) -> Seq<usize> {
    Seq::new(c_map.len(), |i: int| c_map[i].0)
}

/// A college that a student applied to within reach of its groups is one of
/// the list of all colleges.
pub proof fn lemma_application_within(
    s: Student,
    conf: &Config,
    nationals: Seq<College>,
    privates: Seq<College>,
    total: int,
    k: int,
)
    requires
        is_group(nationals, false, total),
        is_group(privates, true, total),
        applications_in_reach(s, conf, nationals, privates),
        0 <= k < s.c_map@.len(),
    ensures
        s.c_map@[k].0 < total,
{
    let cid = s.c_map@[k].0;
    let bands = rank_bands(conf, s.score, privates);
    if reached(privates, bands, cid) {
        let r = choose|r: int| 0 <= r < bands.len() && crate::student::in_band(privates, #[trigger] bands[r], cid);
        let j = choose|j: int| crate::student::member_in_band(privates, bands[r], cid, j);
        assert(privates[j].index < total);
    } else {
        let j = choose|j: int| 0 <= j < nationals.len() && (#[trigger] nationals[j]).index == cid;
        assert(nationals[j].index < total);
    }
}

/// Every application that the matrix shows is on record: its student is one
/// of the list and sat the exam of the college.
pub open spec fn on_record(students: Seq<Student>, applications: Map<(int, int), u8>) -> bool {
    forall|k: (int, int)| #[trigger]
        applications.contains_key(k) ==> 0 <= k.1 < students.len() && 0 <= k.0 < usize::MAX
            && students[k.1].sat(k.0 as usize)
}

/// The students that the matrix shows in the row of a college, by rising number.
pub open spec fn applicants(m: Map<(int, int), u8>, row: int, cols: nat) -> Seq<usize> {
    agents(row_entries(m, row, cols))
}

/// The number of first offers of a college: its planned offers less those
/// kept back for the waitlist.
pub open spec fn first_quota(college: College, conf: &Config) -> usize {
    (college.spec_quota(conf) - college.spec_waitlist_pool(conf)) as usize
}

/// What a college emits in the round of first offers: a private college its
/// offers to the best of its applicants, any other nothing.
pub open spec fn first_offers(
    college: College,
    conf: &Config,
    students: Seq<Student>,
    applications: Map<(int, int), u8>,
    c: int,
) -> Seq<(usize, u8)> {
    if college.is_private() {
        marked(
            offered(
                first_quota(college, conf),
                scored(students, applicants(applications, c, students.len()), c as usize),
            ),
            ENROLL_1ST,
        )
    } else {
        Seq::empty()
    }
}

/// What a college emits in the round of public offers: a public college its
/// offers to the best of its applicants, a private one nothing.
pub open spec fn public_offers(
    college: College,
    conf: &Config,
    students: Seq<Student>,
    applications: Map<(int, int), u8>,
    c: int,
) -> Seq<(usize, u8)> {
    if !college.is_private() {
        marked(
            offered(
                college.spec_quota(conf) as usize,
                scored(students, applicants(applications, c, students.len()), c as usize),
            ),
            ENROLL_2ND,
        )
    } else {
        Seq::empty()
    }
}

/// What the round of first offers leaves of a college: a private college
/// has noted its plan and its offers, any other is as it was.
pub open spec fn after_first_offers(
    before: College,
    after: College,
    conf: &Config,
    students: Seq<Student>,
    applications: Map<(int, int), u8>,
    c: int,
) -> bool {
    &&& after.same_standing(&before)
    &&& if before.is_private() {
        &&& after.own_scale == crate::college::spec_scale(before.capa)
        &&& after.current_rate == before.spec_rate(conf)
        &&& after.add_enroll_num == before.spec_waitlist_pool(conf)
        &&& after.new_enroll_num == first_quota(before, conf)
        &&& marked(after.s_vec@, ENROLL_1ST) == first_offers(
            before,
            conf,
            students,
            applications,
            c,
        )
    } else {
        after.same_scratch(&before)
    }
}

/// The students of the entries of a row.
fn agents_in(row: &Vec<(usize, u8)>) -> (ids: Vec<usize>)
    ensures
        ids@ == agents(row@),
{
    let mut ids: Vec<usize> = Vec::new();
    let mut i: usize = 0;
    while i < row.len()
        invariant
            i <= row.len(),
            ids@ == agents(row@).take(i as int),
        decreases row.len() - i,
    {
        ids.push(row[i].0);
        i += 1;
        assert(ids@ =~= agents(row@).take(i as int));
    }
    assert(ids@ =~= agents(row@));
    ids
}

/// The applicants of a college are students on record, none of them twice,
/// and so are those of them that get an offer.
pub proof fn lemma_offers_well_made(
    students: Seq<Student>,
    applications: Map<(int, int), u8>,
    c: int,
    quota: usize,
    status: u8,
)
    requires
        on_record(students, applications),
        students.len() <= usize::MAX,
        0 <= c < usize::MAX,
    ensures
        all_sat(students, applicants(applications, c, students.len()), c as usize),
        one_each(
            marked(
                offered(quota, scored(students, applicants(applications, c, students.len()), c as usize)),
                status,
            ),
        ),
        forall|i: int|
            0 <= i < offered(
                quota,
                scored(students, applicants(applications, c, students.len()), c as usize),
            ).len() ==> {
                let s = #[trigger] offered(
                    quota,
                    scored(students, applicants(applications, c, students.len()), c as usize),
                )[i];
                s < students.len() && applications.contains_key((c, s as int))
            },
{
    let row = row_entries(applications, c, students.len());
    let ids = applicants(applications, c, students.len());
    let cands = scored(students, ids, c as usize);
    lemma_row_entries(applications, c, students.len());
    assert forall|k: int| 0 <= k < ids.len() implies (#[trigger] ids[k]) < students.len()
        && students[ids[k] as int].sat(c as usize) by {
        let e = row[k];
        assert(applications.contains_key((c, e.0 as int)));
    }
    let n = offer_count(quota, cands);
    lemma_top(cands, n);
    assert forall|i: int, j: int| 0 <= i < j < cands.len() implies (#[trigger] cands[i]).0 != (
    #[trigger] cands[j]).0 by {
        assert(row[i].0 < row[j].0);
    }
    let out = offered(quota, cands);
    assert forall|i: int| 0 <= i < out.len() implies {
        let s = #[trigger] out[i];
        s < students.len() && applications.contains_key((c, s as int))
    } by {
        let place = crate::ranking::ranked(cands)[i].1 as int;
        assert(out[i] == cands[place].0);
        assert(cands[place].0 == ids[place]);
        let e = row[place];
        assert(applications.contains_key((c, e.0 as int)));
    }
    let list = marked(out, status);
    assert forall|a: int, b: int| 0 <= a < b < list.len() implies (#[trigger] list[a]).0 != (
    #[trigger] list[b]).0 by {
        assert(top(cands, n)[a] != top(cands, n)[b]);
    }
}

/// First offers. Every private college plans its offers and makes them to
/// the best of its applicants. The result is the matrix of these offers, a
/// row for each student and a column for each college.
pub fn enroll1(
    colleges: &mut Vec<College>,
    students: &Vec<Student>,
    apply_mat: &StatusMatrix,
    conf: &Config,
) -> (m: StatusMatrix)
    requires
        conf.wf(),
        indexed(old(colleges)@),
        students.len() < usize::MAX,
        apply_mat.rows() == old(colleges).len(),
        apply_mat.cols() == students.len(),
        on_record(students@, apply_mat@),
    ensures
        final(colleges).len() == old(colleges).len(),
        m.rows() == students.len(),
        m.cols() == final(colleges).len(),
        within(m@, m.rows() as int, m.cols() as int),
        m@ == round_cells(
            |c: int| first_offers(old(colleges)@[c], conf, students@, apply_mat@, c),
            old(colleges).len() as nat,
        ),
        forall|c: int|
            0 <= c < final(colleges).len() ==> after_first_offers(
                old(colleges)[c],
                #[trigger] final(colleges)[c],
                conf,
                students@,
                apply_mat@,
                c,
            ),
        forall|k: (int, int)| #[trigger]
            m@.contains_key(k) ==> 0 <= k.1 < old(colleges).len() && old(colleges)[k.1].is_private()
                && apply_mat@.contains_key((k.1, k.0)) && m@[k] == ENROLL_1ST,
{
    let rows = apply_mat.by_row();
    let mut lists: Vec<Vec<(usize, u8)>> = Vec::new();
    let mut c: usize = 0;
    while c < colleges.len()
        invariant
            c <= colleges.len(),
            colleges.len() == old(colleges).len(),
            conf.wf(),
            indexed(old(colleges)@),
            students.len() < usize::MAX,
            on_record(students@, apply_mat@),
            rows.len() == colleges.len(),
            apply_mat.cols() == students.len(),
            forall|r: int|
                0 <= r < rows.len() ==> (#[trigger] rows[r])@ == row_entries(
                    apply_mat@,
                    r,
                    apply_mat.cols(),
                ),
            lists.len() == c,
            forall|k: int| c <= k < colleges.len() ==> (#[trigger] colleges[k]) == old(colleges)[k],
            well_listed(lists@, students.len() as int),
            forall|p: int|
                0 <= p < c ==> (#[trigger] lists[p])@ == first_offers(
                    old(colleges)[p],
                    conf,
                    students@,
                    apply_mat@,
                    p,
                ),
            forall|p: int|
                0 <= p < c ==> after_first_offers(
                    old(colleges)[p],
                    #[trigger] colleges[p],
                    conf,
                    students@,
                    apply_mat@,
                    p,
                ),
        decreases colleges.len() - c,
    {
        let ghost before = colleges[c as int];
        let ghost prev = colleges@;
        assert(before == old(colleges)[c as int]);
        assert(before.index == c);
        let mut list: Vec<(usize, u8)> = Vec::new();
        if colleges[c].institute == Config::PRIVATE {
            let candidates = agents_in(&rows[c]);
            proof {
                lemma_offers_well_made(students@, apply_mat@, c as int, 0, ENROLL_1ST);
            }
            let admitted = colleges[c].enroll1(conf, students, &candidates);
            list = mark(&admitted, ENROLL_1ST);
        }
        proof {
            assert(list@ =~= first_offers(before, conf, students@, apply_mat@, c as int));
            if before.is_private() {
                lemma_offers_well_made(
                    students@,
                    apply_mat@,
                    c as int,
                    first_quota(before, conf),
                    ENROLL_1ST,
                );
            }
            assert forall|q: int| 0 <= q < list@.len() implies (#[trigger] list@[q]).0
                < students.len() by {
                let out = offered(
                    first_quota(before, conf),
                    scored(
                        students@,
                        applicants(apply_mat@, c as int, students@.len()),
                        c as usize,
                    ),
                );
                assert(out[q] < students.len());
            }
        }
        let ghost old_lists = lists@;
        lists.push(list);
        proof {
            assert forall|a: int| 0 <= a < lists@.len() implies one_each((#[trigger] lists@[a])@)
                && forall|q: int|
                0 <= q < lists@[a]@.len() ==> (#[trigger] lists@[a]@[q]).0 < students.len() by {
                if a < old_lists.len() {
                    assert(lists@[a] == old_lists[a]);
                }
            }
        }
        proof {
            assert(list@ == first_offers(before, conf, students@, apply_mat@, c as int));
            assert(after_first_offers(before, colleges[c as int], conf, students@, apply_mat@, c as int));
            assert forall|p: int| 0 <= p < c + 1 implies (#[trigger] lists[p])@ == first_offers(
                old(colleges)[p],
                conf,
                students@,
                apply_mat@,
                p,
            ) by {
                if p < c {
                    assert(lists@[p] == old_lists[p]);
                }
            }
            assert forall|p: int| 0 <= p < c + 1 implies after_first_offers(
                old(colleges)[p],
                #[trigger] colleges[p],
                conf,
                students@,
                apply_mat@,
                p,
            ) by {
                if p < c {
                    assert(colleges[p] == prev[p]);
                }
            }
        }
        c += 1;
    }
    let m = gather(&lists, students.len());
    proof {
        let emitted = |c: int| first_offers(old(colleges)@[c], conf, students@, apply_mat@, c);
        lemma_round_cells(lists@, emitted);
        assert forall|k: (int, int)| #[trigger] m@.contains_key(k) implies 0 <= k.1 < old(
            colleges,
        ).len() && old(colleges)[k.1].is_private() && apply_mat@.contains_key((k.1, k.0)) && m@[k]
            == ENROLL_1ST by {
            let before = old(colleges)[k.1];
            let list = first_offers(before, conf, students@, apply_mat@, k.1);
            let q = choose|q: int| 0 <= q < list.len() && (#[trigger] list[q]).0 == k.0;
            lemma_offers_well_made(
                students@,
                apply_mat@,
                k.1,
                first_quota(before, conf),
                ENROLL_1ST,
            );
            crate::reduce::lemma_listed(list, q);
            let out = offered(
                first_quota(before, conf),
                scored(students@, applicants(apply_mat@, k.1, students@.len()), k.1 as usize),
            );
            assert(out[q] == k.0);
        }
    }
    m
}

/// What the round of public offers leaves of a college: a public college
/// has noted its offers, a private one is as it was.
pub open spec fn after_public_offers(
    before: College,
    after: College,
    conf: &Config,
    students: Seq<Student>,
    applications: Map<(int, int), u8>,
    c: int,
) -> bool {
    &&& after.same_standing(&before)
    &&& if !before.is_private() {
        &&& after.own_scale == before.own_scale
        &&& after.current_rate == before.current_rate
        &&& after.add_enroll_num == before.add_enroll_num
        &&& after.new_enroll_num == before.spec_quota(conf)
        &&& marked(after.s_vec@, ENROLL_2ND) == public_offers(
            before,
            conf,
            students,
            applications,
            c,
        )
    } else {
        after.same_scratch(&before)
    }
}

/// Public offers. Every public college makes offers to the best of its
/// applicants, as many as it has places. The result is the matrix of these
/// offers, a row for each student and a column for each college.
pub fn enroll2(
    colleges: &mut Vec<College>,
    students: &Vec<Student>,
    apply_mat: &StatusMatrix,
    conf: &Config,
) -> (m: StatusMatrix)
    requires
        indexed(old(colleges)@),
        students.len() < usize::MAX,
        apply_mat.rows() == old(colleges).len(),
        apply_mat.cols() == students.len(),
        on_record(students@, apply_mat@),
    ensures
        final(colleges).len() == old(colleges).len(),
        m.rows() == students.len(),
        m.cols() == final(colleges).len(),
        within(m@, m.rows() as int, m.cols() as int),
        m@ == round_cells(
            |c: int| public_offers(old(colleges)@[c], conf, students@, apply_mat@, c),
            old(colleges).len() as nat,
        ),
        forall|c: int|
            0 <= c < final(colleges).len() ==> after_public_offers(
                old(colleges)[c],
                #[trigger] final(colleges)[c],
                conf,
                students@,
                apply_mat@,
                c,
            ),
        forall|k: (int, int)| #[trigger]
            m@.contains_key(k) ==> 0 <= k.1 < old(colleges).len() && !old(colleges)[k.1].is_private()
                && apply_mat@.contains_key((k.1, k.0)) && m@[k] == ENROLL_2ND,
{
    let rows = apply_mat.by_row();
    let mut lists: Vec<Vec<(usize, u8)>> = Vec::new();
    let mut c: usize = 0;
    while c < colleges.len()
        invariant
            c <= colleges.len(),
            colleges.len() == old(colleges).len(),
            indexed(old(colleges)@),
            students.len() < usize::MAX,
            on_record(students@, apply_mat@),
            rows.len() == colleges.len(),
            apply_mat.cols() == students.len(),
            forall|r: int|
                0 <= r < rows.len() ==> (#[trigger] rows[r])@ == row_entries(
                    apply_mat@,
                    r,
                    apply_mat.cols(),
                ),
            lists.len() == c,
            forall|k: int| c <= k < colleges.len() ==> (#[trigger] colleges[k]) == old(colleges)[k],
            well_listed(lists@, students.len() as int),
            forall|p: int|
                0 <= p < c ==> (#[trigger] lists[p])@ == public_offers(
                    old(colleges)[p],
                    conf,
                    students@,
                    apply_mat@,
                    p,
                ),
            forall|p: int|
                0 <= p < c ==> after_public_offers(
                    old(colleges)[p],
                    #[trigger] colleges[p],
                    conf,
                    students@,
                    apply_mat@,
                    p,
                ),
        decreases colleges.len() - c,
    {
        let ghost before = colleges[c as int];
        let ghost prev = colleges@;
        assert(before == old(colleges)[c as int]);
        assert(before.index == c);
        let mut list: Vec<(usize, u8)> = Vec::new();
        if colleges[c].institute != Config::PRIVATE {
            let candidates = agents_in(&rows[c]);
            proof {
                lemma_offers_well_made(students@, apply_mat@, c as int, 0, ENROLL_2ND);
            }
            let admitted = colleges[c].enroll2(students, &candidates, conf);
            list = mark(&admitted, ENROLL_2ND);
        }
        proof {
            assert(list@ =~= public_offers(before, conf, students@, apply_mat@, c as int));
            if !before.is_private() {
                lemma_offers_well_made(
                    students@,
                    apply_mat@,
                    c as int,
                    before.spec_quota(conf) as usize,
                    ENROLL_2ND,
                );
            }
            assert forall|q: int| 0 <= q < list@.len() implies (#[trigger] list@[q]).0
                < students.len() by {
                let out = offered(
                    before.spec_quota(conf) as usize,
                    scored(
                        students@,
                        applicants(apply_mat@, c as int, students@.len()),
                        c as usize,
                    ),
                );
                assert(out[q] < students.len());
            }
        }
        let ghost old_lists = lists@;
        lists.push(list);
        proof {
            assert forall|a: int| 0 <= a < lists@.len() implies one_each((#[trigger] lists@[a])@)
                && forall|q: int|
                0 <= q < lists@[a]@.len() ==> (#[trigger] lists@[a]@[q]).0 < students.len() by {
                if a < old_lists.len() {
                    assert(lists@[a] == old_lists[a]);
                }
            }
            assert(list@ == public_offers(before, conf, students@, apply_mat@, c as int));
            assert(after_public_offers(before, colleges[c as int], conf, students@, apply_mat@, c as int));
            assert forall|p: int| 0 <= p < c + 1 implies (#[trigger] lists[p])@ == public_offers(
                old(colleges)[p],
                conf,
                students@,
                apply_mat@,
                p,
            ) by {
                if p < c {
                    assert(lists@[p] == old_lists[p]);
                }
            }
            assert forall|p: int| 0 <= p < c + 1 implies after_public_offers(
                old(colleges)[p],
                #[trigger] colleges[p],
                conf,
                students@,
                apply_mat@,
                p,
            ) by {
                if p < c {
                    assert(colleges[p] == prev[p]);
                }
            }
        }
        c += 1;
    }
    let m = gather(&lists, students.len());
    proof {
        let emitted = |c: int| public_offers(old(colleges)@[c], conf, students@, apply_mat@, c);
        lemma_round_cells(lists@, emitted);
        assert forall|k: (int, int)| #[trigger] m@.contains_key(k) implies 0 <= k.1 < old(
            colleges,
        ).len() && !old(colleges)[k.1].is_private() && apply_mat@.contains_key((k.1, k.0)) && m@[k]
            == ENROLL_2ND by {
            let before = old(colleges)[k.1];
            let list = public_offers(before, conf, students@, apply_mat@, k.1);
            let q = choose|q: int| 0 <= q < list.len() && (#[trigger] list[q]).0 == k.0;
            lemma_offers_well_made(
                students@,
                apply_mat@,
                k.1,
                before.spec_quota(conf) as usize,
                ENROLL_2ND,
            );
            crate::reduce::lemma_listed(list, q);
            let out = offered(
                before.spec_quota(conf) as usize,
                scored(students@, applicants(apply_mat@, k.1, students@.len()), k.1 as usize),
            );
            assert(out[q] == k.0);
        }
    }
    m
}

/// What a student emits in the round of first decisions: an answer to each
/// first offer it got, in the order of the colleges.
pub open spec fn first_answers(
    student: Student,
    colleges: Seq<College>,
    offers: Map<(int, int), u8>,
    s: int,
) -> Seq<(usize, u8)> {
    let passed = applicants(offers, s, colleges.len());
    let wish = first_wish(student.admission, student.pattern, student.c_map@, colleges);
    Seq::new(passed.len(), |k: int| (passed[k], first_answer(wish, passed[k])))
}

/// What the round of first decisions leaves of a student: it has settled on
/// the college it likes best if that college made it an offer and it applies
/// to private colleges only.
pub open spec fn after_first_decision(
    before: Student,
    after: Student,
    colleges: Seq<College>,
    offers: Map<(int, int), u8>,
    s: int,
) -> bool {
    let passed = applicants(offers, s, colleges.len());
    let wish = first_wish(before.admission, before.pattern, before.c_map@, colleges);
    &&& after.same_person(&before)
    &&& after.admission == if wish.is_some() && passed.contains(wish.unwrap()) {
        wish
    } else {
        before.admission
    }
}

/// The answers of a student without its own number.
fn strip(answers: &Vec<(usize, (usize, u8))>) -> (list: Vec<(usize, u8)>)
    ensures
        list@.len() == answers@.len(),
        forall|k: int| 0 <= k < list@.len() ==> #[trigger] list@[k] == (answers@[k].0, answers@[k].1.1),
{
    let mut list: Vec<(usize, u8)> = Vec::new();
    let mut i: usize = 0;
    while i < answers.len()
        invariant
            i <= answers.len(),
            list@.len() == i,
            forall|k: int| 0 <= k < i ==> #[trigger] list@[k] == (answers@[k].0, answers@[k].1.1),
        decreases answers.len() - i,
    {
        list.push((answers[i].0, answers[i].1.1));
        i += 1;
    }
    list
}

/// First decisions. Every student answers the first offers it got. The result
/// is the matrix of the answers, a row for each college and a column for
/// each student.
pub fn admission1(
    students: &mut Vec<Student>,
    colleges: &Vec<College>,
    enroll_mat: &StatusMatrix,
    conf: &Config,
) -> (m: StatusMatrix)
    requires
        colleges.len() < usize::MAX,
        enroll_mat.rows() == old(students).len(),
        enroll_mat.cols() == colleges.len(),
        forall|i: int|
            0 <= i < old(students).len() ==> exams_within(
                (#[trigger] old(students)[i]).c_map@,
                colleges.len() as int,
            ),
    ensures
        final(students).len() == old(students).len(),
        m.rows() == colleges.len(),
        m.cols() == final(students).len(),
        within(m@, m.rows() as int, m.cols() as int),
        m@ == round_cells(
            |s: int| first_answers(old(students)@[s], colleges@, enroll_mat@, s),
            old(students).len() as nat,
        ),
        forall|s: int|
            0 <= s < final(students).len() ==> after_first_decision(
                old(students)[s],
                #[trigger] final(students)[s],
                colleges@,
                enroll_mat@,
                s,
            ),
        forall|k: (int, int)| #[trigger]
            m@.contains_key(k) <==> enroll_mat@.contains_key((k.1, k.0)),
        forall|k: (int, int)| #[trigger]
            m@.contains_key(k) ==> 0 <= k.1 < old(students).len() && 0 <= k.0 < colleges.len() && m@[k]
                == first_answer(
                first_wish(
                    old(students)[k.1].admission,
                    old(students)[k.1].pattern,
                    old(students)[k.1].c_map@,
                    colleges@,
                ),
                k.0 as usize,
            ),
{
    let rows = enroll_mat.by_row();
    let mut lists: Vec<Vec<(usize, u8)>> = Vec::new();
    let mut s: usize = 0;
    while s < students.len()
        invariant
            s <= students.len(),
            students.len() == old(students).len(),
            colleges.len() < usize::MAX,
            rows.len() == students.len(),
            enroll_mat.cols() == colleges.len(),
            forall|r: int|
                0 <= r < rows.len() ==> (#[trigger] rows[r])@ == row_entries(
                    enroll_mat@,
                    r,
                    enroll_mat.cols(),
                ),
            forall|i: int|
                0 <= i < old(students).len() ==> exams_within(
                    (#[trigger] old(students)[i]).c_map@,
                    colleges.len() as int,
                ),
            lists.len() == s,
            forall|k: int| s <= k < students.len() ==> (#[trigger] students[k]) == old(students)[k],
            well_listed(lists@, colleges.len() as int),
            forall|p: int|
                0 <= p < s ==> (#[trigger] lists[p])@ == first_answers(
                    old(students)[p],
                    colleges@,
                    enroll_mat@,
                    p,
                ),
            forall|p: int|
                0 <= p < s ==> after_first_decision(
                    old(students)[p],
                    #[trigger] students[p],
                    colleges@,
                    enroll_mat@,
                    p,
                ),
        decreases students.len() - s,
    {
        let ghost before = students[s as int];
        let ghost prev = students@;
        assert(before == old(students)[s as int]);
        let passed = agents_in(&rows[s]);
        let answers = students[s].admission1(conf, colleges, &passed);
        let list = strip(&answers);
        proof {
            lemma_row_entries(enroll_mat@, s as int, colleges.len() as nat);
            assert(list@ =~= first_answers(before, colleges@, enroll_mat@, s as int));
            let row = row_entries(enroll_mat@, s as int, colleges.len() as nat);
            assert forall|a: int, b: int| 0 <= a < b < list@.len() implies (#[trigger] list@[a]).0 != (
            #[trigger] list@[b]).0 by {
                assert(row[a].0 < row[b].0);
            }
            assert forall|q: int| 0 <= q < list@.len() implies (#[trigger] list@[q]).0
                < colleges.len() by {
                assert(row[q].0 < colleges.len());
            }
        }
        let ghost old_lists = lists@;
        lists.push(list);
        proof {
            assert forall|a: int| 0 <= a < lists@.len() implies one_each((#[trigger] lists@[a])@)
                && forall|q: int|
                0 <= q < lists@[a]@.len() ==> (#[trigger] lists@[a]@[q]).0 < colleges.len() by {
                if a < old_lists.len() {
                    assert(lists@[a] == old_lists[a]);
                }
            }
            assert(after_first_decision(before, students[s as int], colleges@, enroll_mat@, s as int));
            assert forall|p: int| 0 <= p < s + 1 implies (#[trigger] lists[p])@ == first_answers(
                old(students)[p],
                colleges@,
                enroll_mat@,
                p,
            ) by {
                if p < s {
                    assert(lists@[p] == old_lists[p]);
                }
            }
            assert forall|p: int| 0 <= p < s + 1 implies after_first_decision(
                old(students)[p],
                #[trigger] students[p],
                colleges@,
                enroll_mat@,
                p,
            ) by {
                if p < s {
                    assert(students[p] == prev[p]);
                }
            }
        }
        s += 1;
    }
    let m = gather(&lists, colleges.len());
    proof {
        let emitted = |s: int| first_answers(old(students)@[s], colleges@, enroll_mat@, s);
        lemma_round_cells(lists@, emitted);
        assert forall|k: (int, int)| #[trigger]
            m@.contains_key(k) <==> enroll_mat@.contains_key((k.1, k.0)) by {
            if m@.contains_key(k) {
                let list = first_answers(old(students)[k.1], colleges@, enroll_mat@, k.1);
                let q = choose|q: int| 0 <= q < list.len() && (#[trigger] list[q]).0 == k.0;
                lemma_row_entries(enroll_mat@, k.1, colleges.len() as nat);
                let row = row_entries(enroll_mat@, k.1, colleges.len() as nat);
                assert(row[q].0 == k.0);
            }
            if enroll_mat@.contains_key((k.1, k.0)) {
                lemma_row_entries(enroll_mat@, k.1, colleges.len() as nat);
                let row = row_entries(enroll_mat@, k.1, colleges.len() as nat);
                let q = choose|q: int| 0 <= q < row.len() && #[trigger] row[q].0 == k.0;
                let list = first_answers(old(students)[k.1], colleges@, enroll_mat@, k.1);
                assert(list[q].0 == k.0);
            }
        }
        assert forall|k: (int, int)| #[trigger] m@.contains_key(k) implies 0 <= k.1 < old(
            students,
        ).len() && 0 <= k.0 < colleges.len() && m@[k] == first_answer(
            first_wish(
                old(students)[k.1].admission,
                old(students)[k.1].pattern,
                old(students)[k.1].c_map@,
                colleges@,
            ),
            k.0 as usize,
        ) by {
            let list = first_answers(old(students)[k.1], colleges@, enroll_mat@, k.1);
            let q = choose|q: int| 0 <= q < list.len() && (#[trigger] list[q]).0 == k.0;
            lemma_row_entries(enroll_mat@, k.1, colleges.len() as nat);
            let row = row_entries(enroll_mat@, k.1, colleges.len() as nat);
            assert forall|a: int, b: int| 0 <= a < b < list.len() implies (#[trigger] list[a]).0 != (
            #[trigger] list[b]).0 by {
                assert(row[a].0 < row[b].0);
            }
            crate::reduce::lemma_listed(list, q);
        }
    }
    m
}

/// The list of an agent that emits one status for one counterpart, or nothing.
pub open spec fn single(chosen: Option<usize>, status: u8) -> Seq<(usize, u8)> {
    match chosen {
        Some(c) => seq![(c, status)],
        None => Seq::empty(),
    }
}

/// What a student emits in a round of later decisions: the word that it
/// enrols at the college it commits to, if it commits to one. In the second
/// round it commits among the offers it holds, unless it holds back; in
/// the last round among its waitlist offers.
pub open spec fn later_decision(
    student: Student,
    colleges: Seq<College>,
    status: Map<(int, int), u8>,
    s: int,
    second: bool,
) -> Seq<(usize, u8)> {
    single(
        commitment(
            student.admission,
            row_entries(status, s, colleges.len()),
            colleges,
            if second {
                R_RESERVED
            } else {
                R_ENROLL_3RD
            },
            second && student.gamble,
        ),
        if second {
            ADMISSION_2ND
        } else {
            ADMISSION_3RD
        },
    )
}

/// What a round of later decisions leaves of a student.
pub open spec fn after_later_decision(
    before: Student,
    after: Student,
    colleges: Seq<College>,
    status: Map<(int, int), u8>,
    s: int,
    second: bool,
) -> bool {
    &&& after.same_person(&before)
    &&& after.admission == settled_after(
        before.admission,
        row_entries(status, s, colleges.len()),
        colleges,
        if second {
            R_RESERVED
        } else {
            R_ENROLL_3RD
        },
        second && before.gamble,
    )
}

/// The best college of a row with a status has an entry with that status.
pub proof fn lemma_best_with(row: Seq<(usize, u8)>, colleges: Seq<College>, status: u8)
    ensures
        best_with(row, colleges, status).is_some() ==> exists|i: int|
            0 <= i < row.len() && #[trigger] row[i] == (best_with(row, colleges, status).unwrap(), status),
{
    if best_with(row, colleges, status).is_some() {
        let i = choose|i: int| is_best(row, colleges, status, i);
        assert(row[i] == (best_with(row, colleges, status).unwrap(), status));
    }
}

/// The status that a student looks for in a round of later decisions.
pub open spec fn wanted(second: bool) -> u8 {
    if second {
        R_RESERVED
    } else {
        R_ENROLL_3RD
    }
}

/// The status that a student emits in a round of later decisions.
pub open spec fn emitted_by(second: bool) -> u8 {
    if second {
        ADMISSION_2ND
    } else {
        ADMISSION_3RD
    }
}

/// Every enrolment of a round of later decisions is at a college that the
/// status showed with the status looked for, by a student that the status
/// did not show enrolled anywhere, and no student enrols twice.
pub open spec fn decisions_sound(
    m: Map<(int, int), u8>,
    status: Map<(int, int), u8>,
    colleges: nat,
    second: bool,
) -> bool {
    &&& forall|k: (int, int)| #[trigger]
        m.contains_key(k) ==> {
            &&& status.contains_key((k.1, k.0))
            &&& status[(k.1, k.0)] == wanted(second)
            &&& enrolled_at(row_entries(status, k.1, colleges)).is_none()
            &&& m[k] == emitted_by(second)
        }
    &&& forall|k1: (int, int), k2: (int, int)|
        #[trigger] m.contains_key(k1) && #[trigger] m.contains_key(k2) && k1.1 == k2.1 ==> k1.0
            == k2.0
}

/// The matrix of a round of later decisions is sound.
pub proof fn lemma_decisions_sound(
    students: Seq<Student>,
    colleges: Seq<College>,
    status: Map<(int, int), u8>,
    second: bool,
)
    requires
        colleges.len() <= usize::MAX,
    ensures
        decisions_sound(
            round_cells(
                |s: int| later_decision(students[s], colleges, status, s, second),
                students.len(),
            ),
            status,
            colleges.len(),
            second,
        ),
{
    let m = round_cells(
        |s: int| later_decision(students[s], colleges, status, s, second),
        students.len(),
    );
    assert forall|k: (int, int)| #[trigger] m.contains_key(k) implies {
        &&& status.contains_key((k.1, k.0))
        &&& status[(k.1, k.0)] == wanted(second)
        &&& enrolled_at(row_entries(status, k.1, colleges.len())).is_none()
        &&& m[k] == emitted_by(second)
        &&& later_decision(students[k.1], colleges, status, k.1, second) == seq![
            (k.0 as usize, emitted_by(second)),
        ]
    } by {
        let list = later_decision(students[k.1], colleges, status, k.1, second);
        let row = row_entries(status, k.1, colleges.len());
        let q = choose|q: int| 0 <= q < list.len() && (#[trigger] list[q]).0 == k.0;
        assert(list.len() == 1);
        assert(q == 0);
        lemma_best_with(row, colleges, wanted(second));
        let i = choose|i: int|
            0 <= i < row.len() && #[trigger] row[i] == (
                best_with(row, colleges, wanted(second)).unwrap(),
                wanted(second),
            );
        lemma_row_entries(status, k.1, colleges.len());
        assert(status.contains_key((k.1, row[i].0 as int)));
        assert(list =~= seq![(k.0 as usize, emitted_by(second))]);
        let v = choose|v: int| 0 <= v < list.len() && (#[trigger] list[v]).0 == k.0;
        assert(v == 0);
    }
    assert forall|k1: (int, int), k2: (int, int)|
        #[trigger] m.contains_key(k1) && #[trigger] m.contains_key(k2) && k1.1 == k2.1 implies k1.0
        == k2.0 by {
        let list = later_decision(students[k1.1], colleges, status, k1.1, second);
        assert(list == seq![(k1.0 as usize, emitted_by(second))]);
        assert(list == seq![(k2.0 as usize, emitted_by(second))]);
        assert(list[0].0 == k1.0);
        assert(list[0].0 == k2.0);
    }
}

/// A round of later decisions: the second if `second`, else the last.
fn decision_round(
    students: &mut Vec<Student>,
    colleges: &Vec<College>,
    status: &StatusMatrix,
    conf: &Config,
    second: bool,
) -> (m: StatusMatrix)
    requires
        colleges.len() < usize::MAX,
        status.rows() == old(students).len(),
        status.cols() == colleges.len(),
    ensures
        final(students).len() == old(students).len(),
        m.rows() == colleges.len(),
        m.cols() == final(students).len(),
        within(m@, m.rows() as int, m.cols() as int),
        m@ == round_cells(
            |s: int| later_decision(old(students)@[s], colleges@, status@, s, second),
            old(students).len() as nat,
        ),
        forall|s: int|
            0 <= s < final(students).len() ==> after_later_decision(
                old(students)[s],
                #[trigger] final(students)[s],
                colleges@,
                status@,
                s,
                second,
            ),
        decisions_sound(m@, status@, colleges.len() as nat, second),
{
    let rows = status.by_row();
    let mut lists: Vec<Vec<(usize, u8)>> = Vec::new();
    let mut s: usize = 0;
    while s < students.len()
        invariant
            s <= students.len(),
            students.len() == old(students).len(),
            colleges.len() < usize::MAX,
            rows.len() == students.len(),
            status.cols() == colleges.len(),
            within(status@, status.rows() as int, status.cols() as int),
            forall|r: int|
                0 <= r < rows.len() ==> (#[trigger] rows[r])@ == row_entries(status@, r, status.cols()),
            lists.len() == s,
            forall|k: int| s <= k < students.len() ==> (#[trigger] students[k]) == old(students)[k],
            well_listed(lists@, colleges.len() as int),
            forall|p: int|
                0 <= p < s ==> (#[trigger] lists[p])@ == later_decision(
                    old(students)[p],
                    colleges@,
                    status@,
                    p,
                    second,
                ),
            forall|p: int|
                0 <= p < s ==> after_later_decision(
                    old(students)[p],
                    #[trigger] students[p],
                    colleges@,
                    status@,
                    p,
                    second,
                ),
        decreases students.len() - s,
    {
        let ghost before = students[s as int];
        let ghost prev = students@;
        assert(before == old(students)[s as int]);
        proof {
            lemma_row_entries(status@, s as int, colleges.len() as nat);
        }
        let chosen = if second {
            students[s].admission2(conf, colleges, &rows[s])
        } else {
            students[s].admission3(conf, colleges, &rows[s])
        };
        let mut list: Vec<(usize, u8)> = Vec::new();
        match chosen {
            Some(c) => {
                list.push(
                    (
                        c,
                        if second {
                            ADMISSION_2ND
                        } else {
                            ADMISSION_3RD
                        },
                    ),
                );
            },
            None => {},
        }
        proof {
            assert(list@ =~= later_decision(before, colleges@, status@, s as int, second));
            let row = row_entries(status@, s as int, colleges.len() as nat);
            lemma_best_with(
                row,
                colleges@,
                if second {
                    R_RESERVED
                } else {
                    R_ENROLL_3RD
                },
            );
        }
        let ghost old_lists = lists@;
        lists.push(list);
        proof {
            assert forall|a: int| 0 <= a < lists@.len() implies one_each((#[trigger] lists@[a])@)
                && forall|q: int|
                0 <= q < lists@[a]@.len() ==> (#[trigger] lists@[a]@[q]).0 < colleges.len() by {
                if a < old_lists.len() {
                    assert(lists@[a] == old_lists[a]);
                }
            }
            assert(after_later_decision(
                before,
                students[s as int],
                colleges@,
                status@,
                s as int,
                second,
            ));
            assert forall|p: int| 0 <= p < s + 1 implies (#[trigger] lists[p])@ == later_decision(
                old(students)[p],
                colleges@,
                status@,
                p,
                second,
            ) by {
                if p < s {
                    assert(lists@[p] == old_lists[p]);
                }
            }
            assert forall|p: int| 0 <= p < s + 1 implies after_later_decision(
                old(students)[p],
                #[trigger] students[p],
                colleges@,
                status@,
                p,
                second,
            ) by {
                if p < s {
                    assert(students[p] == prev[p]);
                }
            }
        }
        s += 1;
    }
    let m = gather(&lists, colleges.len());
    proof {
        let emitted = |s: int| later_decision(old(students)@[s], colleges@, status@, s, second);
        lemma_round_cells(lists@, emitted);
        lemma_decisions_sound(old(students)@, colleges@, status@, second);
    }
    m
}

/// Second decisions, on the status after the public offers. Every student
/// that is not enrolled yet and holds offers commits to the best of them,
/// unless it holds back. The result is the matrix of these enrolments, a
/// row for each college and a column for each student.
pub fn admission2(
    students: &mut Vec<Student>,
    colleges: &Vec<College>,
    status: &StatusMatrix,
    conf: &Config,
) -> (m: StatusMatrix)
    requires
        colleges.len() < usize::MAX,
        status.rows() == old(students).len(),
        status.cols() == colleges.len(),
    ensures
        final(students).len() == old(students).len(),
        m.rows() == colleges.len(),
        m.cols() == final(students).len(),
        within(m@, m.rows() as int, m.cols() as int),
        m@ == round_cells(
            |s: int| later_decision(old(students)@[s], colleges@, status@, s, true),
            old(students).len() as nat,
        ),
        forall|s: int|
            0 <= s < final(students).len() ==> after_later_decision(
                old(students)[s],
                #[trigger] final(students)[s],
                colleges@,
                status@,
                s,
                true,
            ),
        decisions_sound(m@, status@, colleges.len() as nat, true),
{
    decision_round(students, colleges, status, conf, true)
}

/// Last decisions, on the status after the waitlist offers. Every student
/// that is not enrolled yet commits to the best college that made it a
/// waitlist offer. The result is the matrix of these enrolments, a row for
/// each college and a column for each student.
pub fn admission3(
    students: &mut Vec<Student>,
    colleges: &Vec<College>,
    status: &StatusMatrix,
    conf: &Config,
) -> (m: StatusMatrix)
    requires
        colleges.len() < usize::MAX,
        status.rows() == old(students).len(),
        status.cols() == colleges.len(),
    ensures
        final(students).len() == old(students).len(),
        m.rows() == colleges.len(),
        m.cols() == final(students).len(),
        within(m@, m.rows() as int, m.cols() as int),
        m@ == round_cells(
            |s: int| later_decision(old(students)@[s], colleges@, status@, s, false),
            old(students).len() as nat,
        ),
        forall|s: int|
            0 <= s < final(students).len() ==> after_later_decision(
                old(students)[s],
                #[trigger] final(students)[s],
                colleges@,
                status@,
                s,
                false,
            ),
        decisions_sound(m@, status@, colleges.len() as nat, false),
{
    decision_round(students, colleges, status, conf, false)
}

/// What a college emits in the waitlist round: a private college its
/// waitlist offers, any other nothing.
pub open spec fn waitlist_offers(
    college: College,
    conf: &Config,
    students: Seq<Student>,
    status: Map<(int, int), u8>,
    c: int,
) -> Seq<(usize, u8)> {
    if college.is_private() {
        marked(
            college.spec_waitlist_offers(conf, students, row_entries(status, c, students.len())),
            ENROLL_3RD,
        )
    } else {
        Seq::empty()
    }
}

/// The waitlist offers of a college are a refill from those it had turned down.
pub open spec fn waitlist_sound(
    college: College,
    conf: &Config,
    students: Seq<Student>,
    status: Map<(int, int), u8>,
    c: int,
) -> bool {
    let row = row_entries(status, c, students.len());
    let rejected = scored(students, with_status(row, R_FAILED), c as usize);
    crate::offer::is_backfill(
        college.spec_waitlist_offers(conf, students, row),
        rejected,
        crate::offer::backfill_limit(
            crate::college::enrolled_early(row) as usize,
            college.spec_target() as usize,
            college.add_enroll_num,
            rejected,
        ),
        crate::college::spec_floor(college.score, conf.enroll_add_lower),
    )
}

/// Those that a college had turned down are students on record.
pub proof fn lemma_failed_on_record(students: Seq<Student>, status: Map<(int, int), u8>, c: int)
    requires
        on_record(students, status),
        students.len() <= usize::MAX,
        0 <= c < usize::MAX,
    ensures
        all_sat(students, with_status(row_entries(status, c, students.len()), R_FAILED), c as usize),
        forall|k: int|
            0 <= k < with_status(row_entries(status, c, students.len()), R_FAILED).len() ==> {
                let s = #[trigger] with_status(row_entries(status, c, students.len()), R_FAILED)[k];
                status.contains_key((c, s as int)) && status[(c, s as int)] == R_FAILED
            },
        forall|a: int, b: int|
            0 <= a < b < with_status(row_entries(status, c, students.len()), R_FAILED).len()
                ==> #[trigger] with_status(row_entries(status, c, students.len()), R_FAILED)[a]
                < #[trigger] with_status(row_entries(status, c, students.len()), R_FAILED)[b],
{
    let row = row_entries(status, c, students.len());
    let ids = with_status(row, R_FAILED);
    lemma_row_entries(status, c, students.len());
    lemma_with_status(row, R_FAILED);
    assert forall|k: int| 0 <= k < ids.len() implies (#[trigger] ids[k]) < students.len()
        && students[ids[k] as int].sat(c as usize) && status.contains_key((c, ids[k] as int))
        && status[(c, ids[k] as int)] == R_FAILED by {
        let i = choose|i: int| 0 <= i < row.len() && #[trigger] row[i] == (ids[k], R_FAILED);
        assert(status.contains_key((c, row[i].0 as int)));
    }
}

/// The waitlist offers of a college go to students on record that it had
/// turned down, to none of them twice.
pub proof fn lemma_waitlist_well_made(
    college: College,
    conf: &Config,
    students: Seq<Student>,
    status: Map<(int, int), u8>,
    c: int,
)
    requires
        on_record(students, status),
        students.len() <= usize::MAX,
        0 <= c < usize::MAX,
        college.index == c,
        waitlist_sound(college, conf, students, status, c),
    ensures
        one_each(
            marked(
                college.spec_waitlist_offers(conf, students, row_entries(status, c, students.len())),
                ENROLL_3RD,
            ),
        ),
        forall|i: int|
            0 <= i < college.spec_waitlist_offers(
                conf,
                students,
                row_entries(status, c, students.len()),
            ).len() ==> {
                let s = #[trigger] college.spec_waitlist_offers(
                    conf,
                    students,
                    row_entries(status, c, students.len()),
                )[i];
                s < students.len() && status.contains_key((c, s as int)) && status[(c, s as int)]
                    == R_FAILED
            },
{
    let row = row_entries(status, c, students.len());
    let ids = with_status(row, R_FAILED);
    let cands = scored(students, ids, c as usize);
    lemma_failed_on_record(students, status, c);
    lemma_row_entries(status, c, students.len());
    lemma_with_status(row, R_FAILED);
    let out = college.spec_waitlist_offers(conf, students, row);
    assert(waitlist_sound(college, conf, students, status, c));
    assert(out.len() <= cands.len());
    lemma_top(cands, out.len() as int);
    assert forall|i: int, j: int| 0 <= i < j < cands.len() implies (#[trigger] cands[i]).0 != (
    #[trigger] cands[j]).0 by {
        assert(ids[i] < ids[j]);
    }
    assert forall|i: int| 0 <= i < out.len() implies {
        let s = #[trigger] out[i];
        s < students.len() && status.contains_key((c, s as int)) && status[(c, s as int)]
            == R_FAILED
    } by {
        let place = crate::ranking::ranked(cands)[i].1 as int;
        assert(out[i] == top(cands, out.len() as int)[i]);
        assert(out[i] == cands[place].0);
        assert(cands[place].0 == ids[place]);
    }
    let list = marked(out, ENROLL_3RD);
    assert forall|a: int, b: int| 0 <= a < b < list.len() implies (#[trigger] list[a]).0 != (
    #[trigger] list[b]).0 by {
        assert(top(cands, out.len() as int)[a] != top(cands, out.len() as int)[b]);
    }
}

/// Waitlist offers, on the status after the second decisions. Every private
/// college that is short of its target makes offers to the best of those it
/// had turned down. The result is the matrix of these offers, a row for
/// each student and a column for each college.
pub fn enroll3(
    colleges: &Vec<College>,
    students: &Vec<Student>,
    status: &StatusMatrix,
    conf: &Config,
) -> (m: StatusMatrix)
    requires
        indexed(colleges@),
        students.len() < usize::MAX,
        status.rows() == colleges.len(),
        status.cols() == students.len(),
        on_record(students@, status@),
    ensures
        m.rows() == students.len(),
        m.cols() == colleges.len(),
        within(m@, m.rows() as int, m.cols() as int),
        m@ == round_cells(
            |c: int| waitlist_offers(colleges@[c], conf, students@, status@, c),
            colleges.len() as nat,
        ),
        forall|k: (int, int)| #[trigger]
            m@.contains_key(k) ==> 0 <= k.1 < colleges.len() && colleges[k.1].is_private()
                && status@.contains_key((k.1, k.0)) && status@[(k.1, k.0)] == R_FAILED && m@[k]
                == ENROLL_3RD,
        forall|c: int|
            0 <= c < colleges.len() && (#[trigger] colleges[c]).is_private() ==> waitlist_sound(
                colleges[c],
                conf,
                students@,
                status@,
                c,
            ),
{
    let rows = status.by_row();
    let mut lists: Vec<Vec<(usize, u8)>> = Vec::new();
    let mut c: usize = 0;
    while c < colleges.len()
        invariant
            c <= colleges.len(),
            indexed(colleges@),
            students.len() < usize::MAX,
            on_record(students@, status@),
            rows.len() == colleges.len(),
            status.cols() == students.len(),
            forall|r: int|
                0 <= r < rows.len() ==> (#[trigger] rows[r])@ == row_entries(status@, r, status.cols()),
            lists.len() == c,
            well_listed(lists@, students.len() as int),
            forall|p: int|
                0 <= p < c ==> (#[trigger] lists[p])@ == waitlist_offers(
                    colleges[p],
                    conf,
                    students@,
                    status@,
                    p,
                ),
            forall|p: int|
                0 <= p < c && (#[trigger] colleges[p]).is_private() ==> waitlist_sound(
                    colleges[p],
                    conf,
                    students@,
                    status@,
                    p,
                ),
        decreases colleges.len() - c,
    {
        assert(colleges[c as int].index == c);
        let mut list: Vec<(usize, u8)> = Vec::new();
        proof {
            lemma_failed_on_record(students@, status@, c as int);
        }
        if colleges[c].institute == Config::PRIVATE {
            let admitted = colleges[c].enroll3(conf, students, &rows[c]);
            list = mark(&admitted, ENROLL_3RD);
            proof {
                assert(waitlist_sound(colleges[c as int], conf, students@, status@, c as int));
                lemma_waitlist_well_made(colleges[c as int], conf, students@, status@, c as int);
            }
        }
        proof {
            assert(list@ =~= waitlist_offers(colleges[c as int], conf, students@, status@, c as int));
        }
        let ghost old_lists = lists@;
        lists.push(list);
        proof {
            assert forall|a: int| 0 <= a < lists@.len() implies one_each((#[trigger] lists@[a])@)
                && forall|q: int|
                0 <= q < lists@[a]@.len() ==> (#[trigger] lists@[a]@[q]).0 < students.len() by {
                if a < old_lists.len() {
                    assert(lists@[a] == old_lists[a]);
                } else {
                    if colleges[c as int].is_private() {
                        let out = colleges[c as int].spec_waitlist_offers(
                            conf,
                            students@,
                            row_entries(status@, c as int, students@.len()),
                        );
                        assert forall|q: int| 0 <= q < lists@[a]@.len() implies (
                        #[trigger] lists@[a]@[q]).0 < students.len() by {
                            assert(out[q] < students.len());
                        }
                    }
                }
            }
            assert forall|p: int| 0 <= p < c + 1 implies (#[trigger] lists[p])@ == waitlist_offers(
                colleges[p],
                conf,
                students@,
                status@,
                p,
            ) by {
                if p < c {
                    assert(lists@[p] == old_lists[p]);
                }
            }
        }
        c += 1;
    }
    let m = gather(&lists, students.len());
    proof {
        let emitted = |c: int| waitlist_offers(colleges@[c], conf, students@, status@, c);
        lemma_round_cells(lists@, emitted);
        assert forall|k: (int, int)| #[trigger] m@.contains_key(k) implies 0 <= k.1
            < colleges.len() && colleges[k.1].is_private() && status@.contains_key((k.1, k.0))
            && status@[(k.1, k.0)] == R_FAILED && m@[k] == ENROLL_3RD by {
            let college = colleges[k.1];
            let list = waitlist_offers(college, conf, students@, status@, k.1);
            let q = choose|q: int| 0 <= q < list.len() && (#[trigger] list[q]).0 == k.0;
            assert(college.index == k.1);
            assert(college.is_private());
            lemma_waitlist_well_made(college, conf, students@, status@, k.1);
            crate::reduce::lemma_listed(list, q);
            let out = college.spec_waitlist_offers(
                conf,
                students@,
                row_entries(status@, k.1, students@.len()),
            );
            assert(out[q] == k.0);
        }
    }
    m
}

} // verus!
