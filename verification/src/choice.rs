//! What a student reads from its row of the status matrix: where it is
//! enrolled, and which college with a given status it likes best.

use crate::college::College;
use crate::flags::{is_admitted, spec_is_admitted};
use vstd::prelude::*;

verus! {

/// Every entry of a row names a college of the list.
pub open spec fn row_within(row: Seq<(usize, u8)>, total: int) -> bool {
    forall|j: int| 0 <= j < row.len() ==> (#[trigger] row[j]).0 < total
}

/// The entry at `i` is the best of a row with the given status: its college
/// has the highest score of them, and is the first of those that have it.
pub open spec fn is_best(row: Seq<(usize, u8)>, colleges: Seq<College>, status: u8, i: int) -> bool {
    &&& 0 <= i < row.len()
    &&& row[i].1 == status
    &&& forall|j: int|
        0 <= j < row.len() && (#[trigger] row[j]).1 == status ==> colleges[row[j].0 as int].score
            <= colleges[row[i].0 as int].score
    &&& forall|j: int|
        0 <= j < i && (#[trigger] row[j]).1 == status ==> colleges[row[j].0 as int].score
            < colleges[row[i].0 as int].score
}

/// The entry at `i` is the first of a row that says the student is enrolled.
pub open spec fn is_first_admitted(row: Seq<(usize, u8)>, i: int) -> bool {
    &&& 0 <= i < row.len()
    &&& spec_is_admitted(row[i].1)
    &&& forall|j: int| 0 <= j < i ==> !spec_is_admitted((#[trigger] row[j]).1)
}

/// The college of the best entry of a row with the given status, if the row
/// has an entry with that status.
pub open spec fn best_with(row: Seq<(usize, u8)>, colleges: Seq<College>, status: u8) -> Option<
    usize,
> {
    if exists|i: int| is_best(row, colleges, status, i) {
        Some(row[choose|i: int| is_best(row, colleges, status, i)].0)
    } else {
        None
    }
}

/// The college at which a row first shows the student enrolled, if it does.
pub open spec fn enrolled_at(row: Seq<(usize, u8)>) -> Option<usize> {
    if exists|i: int| is_first_admitted(row, i) {
        Some(row[choose|i: int| is_first_admitted(row, i)].0)
    } else {
        None
    }
}

/// The best entry of a row is the only one.
pub proof fn lemma_best_unique(
    row: Seq<(usize, u8)>,
    colleges: Seq<College>,
    status: u8,
    i: int,
    j: int,
)
    requires
        is_best(row, colleges, status, i),
        is_best(row, colleges, status, j),
    ensures
        i == j,
{
    if i < j {
        assert(colleges[row[i].0 as int].score < colleges[row[j].0 as int].score);
        assert(colleges[row[j].0 as int].score <= colleges[row[i].0 as int].score);
    } else if j < i {
        assert(colleges[row[j].0 as int].score < colleges[row[i].0 as int].score);
        assert(colleges[row[i].0 as int].score <= colleges[row[j].0 as int].score);
    }
}

/// The first entry of a row that says the student is enrolled is the only one.
pub proof fn lemma_first_admitted_unique(row: Seq<(usize, u8)>, i: int, j: int)
    requires
        is_first_admitted(row, i),
        is_first_admitted(row, j),
    ensures
        i == j,
{
    if i < j {
        assert(!spec_is_admitted(row[i].1));
    } else if j < i {
        assert(!spec_is_admitted(row[j].1));
    }
}

/// A row shows the student enrolled at some college exactly if one of its
/// entries has a status of enrolment.
pub proof fn lemma_enrolled_at(row: Seq<(usize, u8)>)
    ensures
        enrolled_at(row).is_none() <==> forall|j: int|
            0 <= j < row.len() ==> !spec_is_admitted((#[trigger] row[j]).1),
    decreases row.len(),
{
    if enrolled_at(row).is_none() {
        assert forall|j: int| 0 <= j < row.len() implies !spec_is_admitted((#[trigger] row[j]).1) by {
            if spec_is_admitted(row[j].1) {
                lemma_some_first(row, j);
            }
        }
    } else {
        let i = choose|i: int| is_first_admitted(row, i);
        assert(spec_is_admitted(row[i].1));
    }
}

/// Where an entry says the student is enrolled, some entry is the first to.
pub proof fn lemma_some_first(row: Seq<(usize, u8)>, j: int)
    requires
        0 <= j < row.len(),
        spec_is_admitted(row[j].1),
    ensures
        exists|i: int| is_first_admitted(row, i),
    decreases j,
{
    if exists|k: int| 0 <= k < j && spec_is_admitted((#[trigger] row[k]).1) {
        let k = choose|k: int| 0 <= k < j && spec_is_admitted((#[trigger] row[k]).1);
        lemma_some_first(row, k);
    } else {
        assert(is_first_admitted(row, j));
    }
}

/// The college at which the row first shows the student enrolled.
pub fn find_admitted(row: &Vec<(usize, u8)>) -> (found: Option<usize>)
    ensures
        found == enrolled_at(row@),
{
    let mut i: usize = 0;
    while i < row.len()
        invariant
            i <= row.len(),
            forall|j: int| 0 <= j < i ==> !spec_is_admitted((#[trigger] row[j]).1),
        decreases row.len() - i,
    {
        if is_admitted(row[i].1) {
            proof {
                assert(is_first_admitted(row@, i as int));
                let c = choose|c: int| is_first_admitted(row@, c);
                lemma_first_admitted_unique(row@, c, i as int);
            }
            return Some(row[i].0);
        }
        i += 1;
    }
    proof {
        if exists|c: int| is_first_admitted(row@, c) {
            let c = choose|c: int| is_first_admitted(row@, c);
            assert(!spec_is_admitted(row[c].1));
        }
    }
    None
}

/// The college of the best entry of the row with the given status.
pub fn find_best(row: &Vec<(usize, u8)>, colleges: &Vec<College>, status: u8) -> (found: Option<
    usize,
>)
    requires
        row_within(row@, colleges.len() as int),
    ensures
        found == best_with(row@, colleges@, status),
{
    let mut best: Option<usize> = None;
    let mut i: usize = 0;
    while i < row.len()
        invariant
            i <= row.len(),
            row_within(row@, colleges.len() as int),
            match best {
                Some(b) => is_best(row@.take(i as int), colleges@, status, b as int),
                None => forall|j: int| 0 <= j < i ==> (#[trigger] row[j]).1 != status,
            },
        decreases row.len() - i,
    {
        if row[i].1 == status {
            let better = match best {
                Some(b) => colleges[row[b].0].score < colleges[row[i].0].score,
                None => true,
            };
            if better {
                best = Some(i);
            }
        }
        i += 1;
        proof {
            let before = row@.take(i - 1);
            let now = row@.take(i as int);
            assert forall|j: int| 0 <= j < before.len() implies #[trigger] now[j] == before[j] by {}
        }
    }
    assert(row@.take(row.len() as int) =~= row@);
    match best {
        Some(b) => {
            proof {
                let c = choose|c: int| is_best(row@, colleges@, status, c);
                lemma_best_unique(row@, colleges@, status, c, b as int);
            }
            Some(row[b].0)
        },
        None => {
            proof {
                if exists|c: int| is_best(row@, colleges@, status, c) {
                    let c = choose|c: int| is_best(row@, colleges@, status, c);
                    assert(row[c].1 == status);
                }
            }
            None
        },
    }
}

} // verus!
