//! What holds of the status of a year as round after round is merged in:
//! every status is one of the known ones, and nobody is enrolled twice.

use crate::choice::{enrolled_at, is_first_admitted, lemma_some_first};
use crate::college::College;
use crate::flags::{
    lemma_union_idempotent, spec_is_admitted, spec_union, ADMISSION_1ST, ADMISSION_2ND,
    ADMISSION_3RD, APPLY, ENROLL_1ST, ENROLL_2ND, ENROLL_3RD, RESERVE, R_ADMISSION_1ST,
    R_ADMISSION_2ND, R_ADMISSION_3RD, R_ADMISSION_RSV, R_ENROLL_3RD, R_FAILED, R_RESERVED,
};
use crate::matrix::{flag_at, lemma_row_entries, merged, row_entries, transposed, within};
use crate::reduce::listed;
use crate::round::{
    after_later_decision, decisions_sound, emitted_by, later_decision, lemma_decisions_sound,
    round_cells, single, wanted,
};
use crate::student::{commitment, Student};
use crate::settle::{count_admitted, count_flag};
use vstd::prelude::*;

verus! {

/// The status is one that a pair can have once `stage` of the four merges of
/// a year are done.
pub open spec fn legal(status: u8, stage: int) -> bool {
    ||| status == R_FAILED
    ||| status == R_RESERVED
    ||| status == R_ADMISSION_1ST
    ||| status == R_ADMISSION_2ND
    ||| (stage >= 2 && status == R_ADMISSION_RSV)
    ||| (stage >= 3 && status == R_ENROLL_3RD)
    ||| (stage >= 4 && status == R_ADMISSION_3RD)
}

/// Every status of the matrix is legal at the stage.
pub open spec fn all_legal(t: Map<(int, int), u8>, stage: int) -> bool {
    forall|k: (int, int)| #[trigger] t.contains_key(k) ==> legal(t[k], stage)
}

/// No row of the matrix shows its student enrolled at two colleges.
pub open spec fn enrolled_once(t: Map<(int, int), u8>) -> bool {
    forall|k1: (int, int), k2: (int, int)|
        #[trigger] t.contains_key(k1) && #[trigger] t.contains_key(k2) && k1.0 == k2.0
            && spec_is_admitted(t[k1]) && spec_is_admitted(t[k2]) ==> k1.1 == k2.1
}

/// Every pair of `t` is a pair of `base`, which has rows and columns the other way round.
pub open spec fn covered(t: Map<(int, int), u8>, base: Map<(int, int), u8>) -> bool {
    forall|k: (int, int)| #[trigger] t.contains_key(k) ==> base.contains_key((k.1, k.0))
}

/// How the events of a pair add up to its status.
pub proof fn lemma_status_bits()
    ensures
        spec_union(ENROLL_1ST, APPLY) == 3,
        spec_union(3, ADMISSION_1ST) == R_ADMISSION_1ST,
        spec_union(3, RESERVE) == R_RESERVED,
        spec_union(ENROLL_2ND, APPLY) == R_ADMISSION_2ND,
        spec_union(ADMISSION_2ND, R_RESERVED) == R_ADMISSION_RSV,
        spec_union(ENROLL_3RD, R_FAILED) == R_ENROLL_3RD,
        spec_union(ADMISSION_3RD, R_ENROLL_3RD) == R_ADMISSION_3RD,
{
    assert(2u8 | 1u8 == 3u8 && 3u8 | 8u8 == 11u8 && 3u8 | 4u8 == 7u8 && 16u8 | 1u8 == 17u8 && 32u8
        | 7u8 == 39u8 && 64u8 | 1u8 == 65u8 && 128u8 | 65u8 == 193u8) by (bit_vector);
}

/// Which offers each legal status holds.
pub proof fn lemma_offer_bits()
    ensures
        forall|v: u8|
            legal(v, 4) ==> {
                let first: int = if v & ENROLL_1ST != 0 {
                    1
                } else {
                    0
                };
                let public: int = if v & ENROLL_2ND != 0 {
                    1
                } else {
                    0
                };
                let late: int = if v & ENROLL_3RD != 0 {
                    1
                } else {
                    0
                };
                let enrolled: int = if spec_is_admitted(v) {
                    1
                } else {
                    0
                };
                #[trigger] legal(v, 4) && enrolled <= first + public + late <= 1
            },
{
    assert(1u8 & 2u8 == 0 && 1u8 & 16u8 == 0 && 1u8 & 64u8 == 0) by (bit_vector);
    assert(7u8 & 2u8 != 0 && 7u8 & 16u8 == 0 && 7u8 & 64u8 == 0) by (bit_vector);
    assert(11u8 & 2u8 != 0 && 11u8 & 16u8 == 0 && 11u8 & 64u8 == 0) by (bit_vector);
    assert(17u8 & 2u8 == 0 && 17u8 & 16u8 != 0 && 17u8 & 64u8 == 0) by (bit_vector);
    assert(39u8 & 2u8 != 0 && 39u8 & 16u8 == 0 && 39u8 & 64u8 == 0) by (bit_vector);
    assert(65u8 & 2u8 == 0 && 65u8 & 16u8 == 0 && 65u8 & 64u8 != 0) by (bit_vector);
    assert(193u8 & 2u8 == 0 && 193u8 & 16u8 == 0 && 193u8 & 64u8 != 0) by (bit_vector);
}

/// Turning a matrix round twice gives the matrix, and turning a merged matrix
/// round is merging the matrices turned round.
pub proof fn lemma_transposed(a: Map<(int, int), u8>, b: Map<(int, int), u8>)
    ensures
        transposed(transposed(a)) == a,
        transposed(merged(a, b)) == merged(transposed(a), transposed(b)),
{
    assert(transposed(transposed(a)) =~= a);
    let left = transposed(merged(a, b));
    let right = merged(transposed(a), transposed(b));
    assert forall|k: (int, int)| #[trigger]
        left.dom().contains(k) == right.dom().contains(k) && (left.dom().contains(k) ==> left[k]
            == right[k]) by {
        assert(flag_at(transposed(a), k.0, k.1) == flag_at(a, k.1, k.0));
        assert(flag_at(transposed(b), k.0, k.1) == flag_at(b, k.1, k.0));
    }
    assert(left =~= right);
}

/// The first merge of a year: first offers, public offers, applications and
/// first answers give a status in which every pair is legal and nobody is
/// enrolled twice. `wish` is the college that each student accepts at once,
/// `private` tells the private colleges.
pub proof fn lemma_first_merge(
    applications: Map<(int, int), u8>,
    first: Map<(int, int), u8>,
    public: Map<(int, int), u8>,
    answers: Map<(int, int), u8>,
    wish: spec_fn(int) -> Option<usize>,
    private: spec_fn(int) -> bool,
)
    requires
        forall|k: (int, int)| #[trigger] applications.contains_key(k) ==> applications[k] == APPLY,
        forall|k: (int, int)| #[trigger]
            first.contains_key(k) ==> applications.contains_key((k.1, k.0)) && first[k]
                == ENROLL_1ST && private(k.1),
        forall|k: (int, int)| #[trigger]
            public.contains_key(k) ==> applications.contains_key((k.1, k.0)) && public[k]
                == ENROLL_2ND && !private(k.1),
        forall|k: (int, int)| #[trigger] answers.contains_key(k) <==> first.contains_key((k.1, k.0)),
        forall|k: (int, int)| #[trigger]
            answers.contains_key(k) ==> answers[k] == (if wish(k.1) == Some(k.0 as usize) {
                ADMISSION_1ST
            } else {
                RESERVE
            }) && 0 <= k.0 < usize::MAX,
        // a student with a wish applies to no public college, and no student to two
        forall|k: (int, int)| #[trigger]
            applications.contains_key(k) && !private(k.0) ==> wish(k.1).is_none(),
        forall|k1: (int, int), k2: (int, int)|
            #[trigger] applications.contains_key(k1) && #[trigger] applications.contains_key(k2)
                && k1.1 == k2.1 && !private(k1.0) && !private(k2.0) ==> k1.0 == k2.0,
    ensures
        all_legal(
            merged(merged(merged(first, public), transposed(applications)), transposed(answers)),
            1,
        ),
        enrolled_once(
            merged(merged(merged(first, public), transposed(applications)), transposed(answers)),
        ),
        covered(
            merged(merged(merged(first, public), transposed(applications)), transposed(answers)),
            applications,
        ),
        forall|k: (int, int)| #[trigger]
            applications.contains_key(k) ==> merged(
                merged(merged(first, public), transposed(applications)),
                transposed(answers),
            ).contains_key((k.1, k.0)),
        forall|k: (int, int)| #[trigger]
            merged(
                merged(merged(first, public), transposed(applications)),
                transposed(answers),
            ).contains_key(k) ==> (spec_is_admitted(
                merged(
                    merged(merged(first, public), transposed(applications)),
                    transposed(answers),
                )[k],
            ) <==> wish(k.0) == Some(k.1 as usize) && first.contains_key(k) || public.contains_key(k)),
{
    let t = merged(merged(merged(first, public), transposed(applications)), transposed(answers));
    lemma_status_bits();
    assert forall|k: (int, int)| #[trigger] applications.contains_key(k) implies t.contains_key(
        (k.1, k.0),
    ) by {
        let a = flag_at(first, k.1, k.0);
        let b = flag_at(public, k.1, k.0);
        let c = flag_at(transposed(applications), k.1, k.0);
        let d = flag_at(transposed(answers), k.1, k.0);
        lemma_union_idempotent(spec_union(a, b), c);
        lemma_union_idempotent(spec_union(spec_union(a, b), c), d);
        assert(c == APPLY);
        assert(flag_at(merged(first, public), k.1, k.0) == spec_union(a, b));
        assert(flag_at(merged(merged(first, public), transposed(applications)), k.1, k.0)
            == spec_union(spec_union(a, b), c));
    }
    assert forall|k: (int, int)| #[trigger] t.contains_key(k) implies {
        &&& applications.contains_key((k.1, k.0))
        &&& t[k] == if first.contains_key(k) {
            if wish(k.0) == Some(k.1 as usize) {
                R_ADMISSION_1ST
            } else {
                R_RESERVED
            }
        } else if public.contains_key(k) {
            R_ADMISSION_2ND
        } else {
            R_FAILED
        }
    } by {
        lemma_cell_first_merge(applications, first, public, answers, wish, private, k);
    }
    assert forall|k1: (int, int), k2: (int, int)|
        #[trigger] t.contains_key(k1) && #[trigger] t.contains_key(k2) && k1.0 == k2.0
            && spec_is_admitted(t[k1]) && spec_is_admitted(t[k2]) implies k1.1 == k2.1 by {
        if first.contains_key(k1) {
            assert(wish(k1.0) == Some(k1.1 as usize));
            assert(answers.contains_key((k1.1, k1.0)));
            if first.contains_key(k2) {
                assert(answers.contains_key((k2.1, k2.0)));
            } else {
                assert(public.contains_key(k2));
                assert(applications.contains_key((k2.1, k2.0)));
            }
        } else {
            assert(public.contains_key(k1));
            assert(applications.contains_key((k1.1, k1.0)));
            if first.contains_key(k2) {
                assert(wish(k2.0) == Some(k2.1 as usize));
            } else {
                assert(public.contains_key(k2));
                assert(applications.contains_key((k2.1, k2.0)));
            }
        }
    }
}

/// One pair in the first merge.
proof fn lemma_cell_first_merge(
    applications: Map<(int, int), u8>,
    first: Map<(int, int), u8>,
    public: Map<(int, int), u8>,
    answers: Map<(int, int), u8>,
    wish: spec_fn(int) -> Option<usize>,
    private: spec_fn(int) -> bool,
    k: (int, int),
)
    requires
        forall|k: (int, int)| #[trigger] applications.contains_key(k) ==> applications[k] == APPLY,
        forall|k: (int, int)| #[trigger]
            first.contains_key(k) ==> applications.contains_key((k.1, k.0)) && first[k]
                == ENROLL_1ST && private(k.1),
        forall|k: (int, int)| #[trigger]
            public.contains_key(k) ==> applications.contains_key((k.1, k.0)) && public[k]
                == ENROLL_2ND && !private(k.1),
        forall|k: (int, int)| #[trigger] answers.contains_key(k) <==> first.contains_key((k.1, k.0)),
        forall|k: (int, int)| #[trigger]
            answers.contains_key(k) ==> answers[k] == (if wish(k.1) == Some(k.0 as usize) {
                ADMISSION_1ST
            } else {
                RESERVE
            }) && 0 <= k.0 < usize::MAX,
        merged(
            merged(merged(first, public), transposed(applications)),
            transposed(answers),
        ).contains_key(k),
    ensures
        applications.contains_key((k.1, k.0)),
        merged(merged(merged(first, public), transposed(applications)), transposed(answers))[k]
            == if first.contains_key(k) {
            if wish(k.0) == Some(k.1 as usize) {
                R_ADMISSION_1ST
            } else {
                R_RESERVED
            }
        } else if public.contains_key(k) {
            R_ADMISSION_2ND
        } else {
            R_FAILED
        },
{
    lemma_status_bits();
    let offers = merged(first, public);
    let with_apps = merged(offers, transposed(applications));
    let a = flag_at(first, k.0, k.1);
    let b = flag_at(public, k.0, k.1);
    let c = flag_at(transposed(applications), k.0, k.1);
    let d = flag_at(transposed(answers), k.0, k.1);
    lemma_union_idempotent(a, b);
    lemma_union_idempotent(b, a);
    lemma_union_idempotent(spec_union(a, b), c);
    lemma_union_idempotent(c, spec_union(a, b));
    lemma_union_idempotent(spec_union(spec_union(a, b), c), d);
    assert(flag_at(offers, k.0, k.1) == spec_union(a, b));
    assert(flag_at(with_apps, k.0, k.1) == spec_union(spec_union(a, b), c));
    if first.contains_key(k) {
        assert(answers.contains_key((k.1, k.0)));
        assert(!public.contains_key(k));
        assert(applications.contains_key((k.1, k.0)));
    } else {
        assert(!answers.contains_key((k.1, k.0)));
        if public.contains_key(k) {
            assert(applications.contains_key((k.1, k.0)));
        }
    }
}

/// A merge of later decisions: the enrolments of the round merged into the
/// status give a status in which every pair is legal and nobody is enrolled
/// twice. `decisions` has a row for each college, `t` a row for each student.
pub proof fn lemma_decision_merge(
    t: Map<(int, int), u8>,
    decisions: Map<(int, int), u8>,
    rows: int,
    cols: nat,
    second: bool,
)
    requires
        cols <= usize::MAX,
        within(t, rows, cols as int),
        all_legal(
            t,
            if second {
                1
            } else {
                3
            },
        ),
        enrolled_once(t),
        decisions_sound(decisions, t, cols, second),
    ensures
        all_legal(
            merged(transposed(decisions), t),
            if second {
                2
            } else {
                4
            },
        ),
        enrolled_once(merged(transposed(decisions), t)),
        forall|k: (int, int)| #[trigger]
            merged(transposed(decisions), t).contains_key(k) <==> t.contains_key(k),
        forall|k: (int, int)| #[trigger]
            t.contains_key(k) ==> merged(transposed(decisions), t)[k] == if decisions.contains_key(
                (k.1, k.0),
            ) {
                if second {
                    R_ADMISSION_RSV
                } else {
                    R_ADMISSION_3RD
                }
            } else {
                t[k]
            },
{
    let next = merged(transposed(decisions), t);
    lemma_status_bits();
    assert forall|k: (int, int)|
        (#[trigger] next.contains_key(k) <==> t.contains_key(k)) && (t.contains_key(k) ==> next[k]
            == if decisions.contains_key((k.1, k.0)) {
            if second {
                R_ADMISSION_RSV
            } else {
                R_ADMISSION_3RD
            }
        } else {
            t[k]
        }) by {
        let a = flag_at(transposed(decisions), k.0, k.1);
        let b = flag_at(t, k.0, k.1);
        lemma_union_idempotent(a, b);
        lemma_union_idempotent(b, a);
        if decisions.contains_key((k.1, k.0)) {
            assert(t.contains_key(k));
        }
    }
    assert forall|k: (int, int)| #[trigger] t.contains_key(k) implies next[k]
        == if decisions.contains_key((k.1, k.0)) {
        if second {
            R_ADMISSION_RSV
        } else {
            R_ADMISSION_3RD
        }
    } else {
        t[k]
    } by {
        assert(next.contains_key(k));
    }
    assert forall|k1: (int, int), k2: (int, int)|
        #[trigger] next.contains_key(k1) && #[trigger] next.contains_key(k2) && k1.0 == k2.0
            && spec_is_admitted(next[k1]) && spec_is_admitted(next[k2]) implies k1.1 == k2.1 by {
        let d1 = decisions.contains_key((k1.1, k1.0));
        let d2 = decisions.contains_key((k2.1, k2.0));
        if d1 && d2 {
        } else if d1 {
            lemma_none_enrolled(t, k1.0, cols, k2.1);
        } else if d2 {
            lemma_none_enrolled(t, k2.0, cols, k1.1);
        }
    }
}

/// Where a row shows its student enrolled nowhere, no pair of the row has a
/// status of enrolment.
pub proof fn lemma_none_enrolled(t: Map<(int, int), u8>, row: int, cols: nat, col: int)
    requires
        cols <= usize::MAX,
        enrolled_at(row_entries(t, row, cols)).is_none(),
        t.contains_key((row, col)),
        0 <= col < cols,
    ensures
        !spec_is_admitted(t[(row, col)]),
{
    let entries = row_entries(t, row, cols);
    lemma_row_entries(t, row, cols);
    crate::choice::lemma_enrolled_at(entries);
    let i = choose|i: int| 0 <= i < entries.len() && #[trigger] entries[i].0 == col;
    assert(!spec_is_admitted(entries[i].1));
}

/// The merge of the waitlist offers: the offers merged into the status give a
/// status in which every pair is legal and nobody is enrolled twice.
pub proof fn lemma_waitlist_merge(t: Map<(int, int), u8>, offers: Map<(int, int), u8>)
    requires
        all_legal(t, 2),
        enrolled_once(t),
        forall|k: (int, int)| #[trigger]
            offers.contains_key(k) ==> t.contains_key(k) && t[k] == R_FAILED && offers[k]
                == ENROLL_3RD,
    ensures
        all_legal(merged(offers, t), 3),
        enrolled_once(merged(offers, t)),
        forall|k: (int, int)| #[trigger] merged(offers, t).contains_key(k) <==> t.contains_key(k),
        forall|k: (int, int)| #[trigger]
            t.contains_key(k) ==> merged(offers, t)[k] == if offers.contains_key(k) {
                R_ENROLL_3RD
            } else {
                t[k]
            },
{
    let next = merged(offers, t);
    lemma_status_bits();
    assert forall|k: (int, int)|
        (#[trigger] next.contains_key(k) <==> t.contains_key(k)) && (t.contains_key(k) ==> next[k]
            == if offers.contains_key(k) {
            R_ENROLL_3RD
        } else {
            t[k]
        }) by {
        let a = flag_at(offers, k.0, k.1);
        let b = flag_at(t, k.0, k.1);
        lemma_union_idempotent(a, b);
        lemma_union_idempotent(b, a);
    }
    assert forall|k: (int, int)| #[trigger] t.contains_key(k) implies next[k]
        == if offers.contains_key(k) {
        R_ENROLL_3RD
    } else {
        t[k]
    } by {
        assert(next.contains_key(k));
    }
}

/// Conservation: in a row of legal statuses there are no more offers than
/// entries, and no more students enrolled than offers.
pub proof fn lemma_conservation(row: Seq<(usize, u8)>)
    requires
        forall|i: int| 0 <= i < row.len() ==> legal((#[trigger] row[i]).1, 4),
    ensures
        count_admitted(row) <= count_flag(row, ENROLL_1ST) + count_flag(row, ENROLL_2ND)
            + count_flag(row, ENROLL_3RD) <= row.len(),
    decreases row.len(),
{
    if row.len() > 0 {
        let front = row.drop_last();
        assert forall|i: int| 0 <= i < front.len() implies legal((#[trigger] front[i]).1, 4) by {
            assert(front[i] == row[i]);
        }
        lemma_conservation(front);
        lemma_offer_bits();
        assert(legal(row[row.len() - 1].1, 4));
    }
}

/// Conservation after every merge of a year: in any row of a status whose
/// pairs are legal at a stage, there are no more offers than entries and no
/// more students enrolled than offers.
pub proof fn lemma_conservation_at(t: Map<(int, int), u8>, stage: int, row: int, cols: nat)
    requires
        cols <= usize::MAX,
        stage <= 4,
        all_legal(t, stage),
    ensures
        count_admitted(row_entries(t, row, cols)) <= count_flag(
            row_entries(t, row, cols),
            ENROLL_1ST,
        ) + count_flag(row_entries(t, row, cols), ENROLL_2ND) + count_flag(
            row_entries(t, row, cols),
            ENROLL_3RD,
        ) <= row_entries(t, row, cols).len(),
{
    let entries = row_entries(t, row, cols);
    lemma_row_entries(t, row, cols);
    assert forall|i: int| 0 <= i < entries.len() implies legal((#[trigger] entries[i]).1, 4) by {
        assert(t.contains_key((row, entries[i].0 as int)));
    }
    lemma_conservation(entries);
}

/// Where a row has a pair with a status of enrolment, and nobody is enrolled
/// twice, the row shows its student enrolled at the college of that pair.
pub proof fn lemma_enrolled_here(t: Map<(int, int), u8>, row: int, cols: nat, col: int)
    requires
        cols <= usize::MAX,
        enrolled_once(t),
        0 <= col < cols,
        t.contains_key((row, col)),
        spec_is_admitted(t[(row, col)]),
    ensures
        enrolled_at(row_entries(t, row, cols)) == Some(col as usize),
{
    let entries = row_entries(t, row, cols);
    lemma_row_entries(t, row, cols);
    let i = choose|i: int| 0 <= i < entries.len() && #[trigger] entries[i].0 == col;
    lemma_some_first(entries, i);
    let f = choose|f: int| is_first_admitted(entries, f);
    assert(t.contains_key((row, entries[f].0 as int)));
    assert(entries[f].0 == col);
}

/// Where no pair of a row has a status of enrolment, the row shows its
/// student enrolled nowhere.
pub proof fn lemma_enrolled_nowhere(t: Map<(int, int), u8>, row: int, cols: nat)
    requires
        cols <= usize::MAX,
        forall|col: int| #[trigger] t.contains_key((row, col)) ==> !spec_is_admitted(t[(row, col)]),
    ensures
        enrolled_at(row_entries(t, row, cols)).is_none(),
{
    let entries = row_entries(t, row, cols);
    lemma_row_entries(t, row, cols);
    crate::choice::lemma_enrolled_at(entries);
    assert forall|j: int| 0 <= j < entries.len() implies !spec_is_admitted(
        (#[trigger] entries[j]).1,
    ) by {
        assert(t.contains_key((row, entries[j].0 as int)));
    }
}

/// Two matrices in which nobody is enrolled twice, and whose rows for a
/// student have a status of enrolment at the same colleges, show the student
/// enrolled at the same college.
pub proof fn lemma_enrolled_alike(
    t: Map<(int, int), u8>,
    other: Map<(int, int), u8>,
    row: int,
    rows: int,
    cols: nat,
)
    requires
        cols <= usize::MAX,
        enrolled_once(t),
        enrolled_once(other),
        within(t, rows, cols as int),
        within(other, rows, cols as int),
        forall|col: int|
            (#[trigger] t.contains_key((row, col)) && spec_is_admitted(t[(row, col)])) <==> (
            #[trigger] other.contains_key((row, col)) && spec_is_admitted(other[(row, col)])),
    ensures
        enrolled_at(row_entries(t, row, cols)) == enrolled_at(row_entries(other, row, cols)),
{
    if exists|col: int| #[trigger] t.contains_key((row, col)) && spec_is_admitted(t[(row, col)]) {
        let col = choose|col: int| #[trigger]
            t.contains_key((row, col)) && spec_is_admitted(t[(row, col)]);
        assert(other.contains_key((row, col)));
        lemma_enrolled_here(t, row, cols, col);
        lemma_enrolled_here(other, row, cols, col);
    } else {
        assert forall|col: int| #[trigger] other.contains_key((row, col)) implies !spec_is_admitted(
            other[(row, col)],
        ) by {
            if spec_is_admitted(other[(row, col)]) {
                assert(t.contains_key((row, col)));
            }
        }
        lemma_enrolled_nowhere(t, row, cols);
        lemma_enrolled_nowhere(other, row, cols);
    }
}

/// After a round of later decisions a student has settled on the college
/// at which the merged status shows it enrolled, if it had done so before
/// wherever it had settled at all.
pub proof fn lemma_decision_settles(
    t: Map<(int, int), u8>,
    before: Seq<Student>,
    after: Student,
    colleges: Seq<College>,
    rows: int,
    second: bool,
    s: int,
)
    requires
        colleges.len() <= usize::MAX,
        within(t, rows, colleges.len() as int),
        all_legal(
            t,
            if second {
                1
            } else {
                3
            },
        ),
        enrolled_once(t),
        0 <= s < before.len(),
        after_later_decision(before[s], after, colleges, t, s, second),
        before[s].admission.is_some() ==> before[s].admission == enrolled_at(
            row_entries(t, s, colleges.len()),
        ),
    ensures
        after.admission == enrolled_at(
            row_entries(
                merged(
                    transposed(
                        round_cells(
                            |x: int| later_decision(before[x], colleges, t, x, second),
                            before.len(),
                        ),
                    ),
                    t,
                ),
                s,
                colleges.len(),
            ),
        ),
{
    let cols = colleges.len();
    let decisions = round_cells(
        |x: int| later_decision(before[x], colleges, t, x, second),
        before.len(),
    );
    let next = merged(transposed(decisions), t);
    lemma_decisions_sound(before, colleges, t, second);
    lemma_decision_merge(t, decisions, rows, cols, second);
    let row = row_entries(t, s, cols);
    let chosen = commitment(
        before[s].admission,
        row,
        colleges,
        wanted(second),
        second && before[s].gamble,
    );
    assert(later_decision(before[s], colleges, t, s, second) == single(chosen, emitted_by(second)));
    match chosen {
        Some(x) => {
            let list = single(chosen, emitted_by(second));
            assert(list[0].0 == x);
            assert(listed(list, x as int));
            assert(decisions.contains_key((x as int, s)));
            assert(t.contains_key((s, x as int)));
            assert(next.contains_key((s, x as int)));
            lemma_enrolled_here(next, s, cols, x as int);
        },
        None => {
            assert forall|c: int| !decisions.contains_key((c, s)) by {
                let list = single(chosen, emitted_by(second));
                assert(list.len() == 0);
            }
            assert forall|c: int|
                (#[trigger] next.contains_key((s, c)) && spec_is_admitted(next[(s, c)])) <==> (
                #[trigger] t.contains_key((s, c)) && spec_is_admitted(t[(s, c)])) by {
                assert(!decisions.contains_key((c, s)));
                if t.contains_key((s, c)) {
                    assert(next[(s, c)] == t[(s, c)]);
                }
            }
            assert(within(next, rows, cols as int)) by {
                assert forall|k: (int, int)| #[trigger] next.contains_key(k) implies 0 <= k.0 < rows
                    && 0 <= k.1 < cols by {
                    assert(t.contains_key(k));
                }
            }
            lemma_enrolled_alike(next, t, s, rows, cols);
        },
    }
}

} // verus!
