//! From what each agent emits to one matrix: the lists of the agents are put
//! together into one list of edges, and the edges into a sparse matrix.

use crate::matrix::{triplet_cells, within, StatusMatrix};
use vstd::prelude::*;

verus! {

/// An edge: the row, and the column with the status.
pub type Edge = (usize, (usize, u8));

/// The list has an entry for `x`.
pub open spec fn listed(list: Seq<(usize, u8)>, x: int) -> bool {
    exists|i: int| 0 <= i < list.len() && (#[trigger] list[i]).0 == x
}

/// The status that the list has for `x`.
pub open spec fn listed_value(list: Seq<(usize, u8)>, x: int) -> u8 {
    list[choose|i: int| 0 <= i < list.len() && (#[trigger] list[i]).0 == x].1
}

/// The list has no two entries for one counterpart.
pub open spec fn one_each(list: Seq<(usize, u8)>) -> bool {
    forall|i: int, j: int| 0 <= i < j < list.len() ==> (#[trigger] list[i]).0 != (#[trigger] list[j]).0
}

/// In a list without two entries for one counterpart, an entry gives the
/// status of its counterpart.
pub proof fn lemma_listed(list: Seq<(usize, u8)>, i: int)
    requires
        one_each(list),
        0 <= i < list.len(),
    ensures
        listed(list, list[i].0 as int),
        listed_value(list, list[i].0 as int) == list[i].1,
{
    let x = list[i].0 as int;
    let j = choose|j: int| 0 <= j < list.len() && (#[trigger] list[j]).0 == x;
    if i < j {
        assert(list[i].0 != list[j].0);
    } else if j < i {
        assert(list[j].0 != list[i].0);
    }
}

/// The matrix that a list of edges stands for.
pub open spec fn edge_cells(edges: Seq<Edge>) -> Map<(int, int), u8> {
    Map::new(
        |k: (int, int)| exists|i: int| is_edge(edges, k, i),
        |k: (int, int)| edges[choose|i: int| is_edge(edges, k, i)].1.1,
    )
}

/// The edge at `i` is one for row and column `k`.
pub open spec fn is_edge(edges: Seq<Edge>, k: (int, int), i: int) -> bool {
    0 <= i < edges.len() && edges[i].0 == k.0 && edges[i].1.0 == k.1
}

/// No two edges of the list are for one row and column.
pub open spec fn distinct_edges(edges: Seq<Edge>) -> bool {
    forall|i: int, j: int|
        0 <= i < j < edges.len() ==> !((#[trigger] edges[i]).0 == (#[trigger] edges[j]).0
            && edges[i].1.0 == edges[j].1.0)
}

/// Every edge of the list lies inside a shape of `rows` by `cols`.
pub open spec fn edges_within(edges: Seq<Edge>, rows: int, cols: int) -> bool {
    forall|i: int| 0 <= i < edges.len() ==> (#[trigger] edges[i]).0 < rows && edges[i].1.0 < cols
}

/// The matrix of the lists of all agents: it stores at the row of a
/// counterpart and the column of an agent the status that the agent's list
/// has for the counterpart.
pub open spec fn gathered(lists: Seq<Vec<(usize, u8)>>) -> Map<(int, int), u8> {
    Map::new(
        |k: (int, int)| 0 <= k.1 < lists.len() && listed(lists[k.1]@, k.0),
        |k: (int, int)| listed_value(lists[k.1]@, k.0),
    )
}

/// The list of each agent has no two entries for one counterpart, and names
/// counterparts under `rows` only.
pub open spec fn well_listed(lists: Seq<Vec<(usize, u8)>>, rows: int) -> bool {
    forall|a: int|
        0 <= a < lists.len() ==> one_each((#[trigger] lists[a])@) && forall|i: int|
            0 <= i < lists[a]@.len() ==> (#[trigger] lists[a]@[i]).0 < rows
}

/// The edges that the list of one agent stands for.
pub open spec fn edges_of(agent: usize, entries: Seq<(usize, u8)>) -> Seq<Edge> {
    Seq::new(entries.len(), |i: int| (entries[i].0, (agent, entries[i].1)))
}

/// The order of the edges in a list does not matter to the matrix: two lists
/// that hold the same edges stand for the same matrix.
pub proof fn lemma_edge_order(a: Seq<Edge>, b: Seq<Edge>)
    requires
        distinct_edges(a),
        distinct_edges(b),
        forall|e: Edge| a.contains(e) <==> b.contains(e),
    ensures
        edge_cells(a) == edge_cells(b),
{
    assert forall|k: (int, int)| #[trigger]
        edge_cells(a).dom().contains(k) == edge_cells(b).dom().contains(k) && (edge_cells(
            a,
        ).dom().contains(k) ==> edge_cells(a)[k] == edge_cells(b)[k]) by {
        if edge_cells(a).dom().contains(k) {
            let i = choose|i: int| is_edge(a, k, i);
            assert(a.contains(a[i]));
            assert(b.contains(a[i]));
            let j = choose|j: int| 0 <= j < b.len() && b[j] == a[i];
            assert(is_edge(b, k, j));
            let j2 = choose|j2: int| is_edge(b, k, j2);
            if j2 != j {
                if j2 < j {
                    assert(!(b[j2].0 == b[j].0 && b[j2].1.0 == b[j].1.0));
                } else {
                    assert(!(b[j].0 == b[j2].0 && b[j].1.0 == b[j2].1.0));
                }
            }
        }
        if edge_cells(b).dom().contains(k) {
            let j = choose|j: int| is_edge(b, k, j);
            assert(b.contains(b[j]));
            assert(a.contains(b[j]));
            let i = choose|i: int| 0 <= i < a.len() && a[i] == b[j];
            assert(is_edge(a, k, i));
            let i2 = choose|i2: int| is_edge(a, k, i2);
            if i2 != i {
                if i2 < i {
                    assert(!(a[i2].0 == a[i].0 && a[i2].1.0 == a[i].1.0));
                } else {
                    assert(!(a[i].0 == a[i2].0 && a[i].1.0 == a[i2].1.0));
                }
            }
        }
    }
    assert(edge_cells(a) =~= edge_cells(b));
}

/// Puts two lists together, the left one first.
pub fn append_vector<T>(left: Vec<T>, right: Vec<T>) -> (all: Vec<T>)
    ensures
        all@ == left@ + right@,
{
    let mut all = left;
    let mut rest = right;
    all.append(&mut rest);
    all
}

/// Adds the edges of one agent's list to the edges gathered so far.
pub fn fold_edges(acc: Vec<Edge>, agent: usize, entries: &Vec<(usize, u8)>) -> (all: Vec<Edge>)
    ensures
        all@ == acc@ + edges_of(agent, entries@),
{
    let mut all = acc;
    let mut i: usize = 0;
    while i < entries.len()
        invariant
            i <= entries.len(),
            all@ == acc@ + edges_of(agent, entries@).take(i as int),
        decreases entries.len() - i,
    {
        all.push((entries[i].0, (agent, entries[i].1)));
        i += 1;
        assert(all@ =~= acc@ + edges_of(agent, entries@).take(i as int));
    }
    assert(edges_of(agent, entries@).take(entries.len() as int) =~= edges_of(agent, entries@));
    all
}

/// The sparse matrix of `rows` by `cols` that stores the status of each edge
/// at its row and column.
pub fn make_matrix_any_value(list: &Vec<Edge>, rows: usize, cols: usize) -> (m: StatusMatrix)
    requires
        rows < usize::MAX,
        edges_within(list@, rows as int, cols as int),
        distinct_edges(list@),
    ensures
        m.rows() == rows,
        m.cols() == cols,
        m@ == edge_cells(list@),
        within(m@, rows as int, cols as int),
{
    let mut r: Vec<usize> = Vec::new();
    let mut c: Vec<usize> = Vec::new();
    let mut d: Vec<u8> = Vec::new();
    let mut i: usize = 0;
    while i < list.len()
        invariant
            i <= list.len(),
            r.len() == i,
            c.len() == i,
            d.len() == i,
            forall|k: int|
                0 <= k < i ==> (#[trigger] list[k]) == (r[k], (c[k], d[k])),
        decreases list.len() - i,
    {
        r.push(list[i].0);
        c.push(list[i].1.0);
        d.push(list[i].1.1);
        i += 1;
    }
    proof {
        assert forall|k: int| 0 <= k < r.len() implies #[trigger] r[k] < rows by {
            assert(list[k].0 < rows);
        }
        assert forall|k: int| 0 <= k < c.len() implies #[trigger] c[k] < cols by {
            assert(list[k].1.0 < cols);
        }
        assert forall|a: int, b: int| 0 <= a < b < r.len() implies !(#[trigger] r[a] == #[trigger] r[b]
            && c[a] == c[b]) by {
            assert(!(list[a].0 == list[b].0 && list[a].1.0 == list[b].1.0));
        }
        let cells = triplet_cells(r@, c@, d@);
        let want = edge_cells(list@);
        assert forall|k: (int, int)| #[trigger]
            cells.dom().contains(k) == want.dom().contains(k) && (cells.dom().contains(k)
                ==> cells[k] == want[k]) by {
            if cells.dom().contains(k) {
                let t = choose|t: int| 0 <= t < r@.len() && #[trigger] r@[t] == k.0 && c@[t] == k.1;
                assert(list[t] == (r[t], (c[t], d[t])));
                assert(is_edge(list@, k, t));
                let e = choose|e: int| is_edge(list@, k, e);
                if e < t {
                    assert(!(list[e].0 == list[t].0 && list[e].1.0 == list[t].1.0));
                } else if t < e {
                    assert(!(list[t].0 == list[e].0 && list[t].1.0 == list[e].1.0));
                }
            }
            if want.dom().contains(k) {
                let e = choose|e: int| is_edge(list@, k, e);
                assert(list[e] == (r[e], (c[e], d[e])));
                assert(r@[e] == k.0 && c@[e] == k.1);
            }
        }
        assert(cells =~= want);
    }
    StatusMatrix::from_triplets((rows, cols), r, c, d)
}

/// The edges of a list of rows and columns that all have one status.
pub open spec fn with_value(list: Seq<(usize, usize)>, value: u8) -> Seq<Edge> {
    Seq::new(list.len(), |i: int| (list[i].0, (list[i].1, value)))
}

/// The sparse matrix of `rows` by `cols` that stores `value` at the row and
/// column of each entry of the list.
pub fn make_matrix(list: &Vec<(usize, usize)>, rows: usize, cols: usize, value: u8) -> (m:
    StatusMatrix)
    requires
        rows < usize::MAX,
        edges_within(with_value(list@, value), rows as int, cols as int),
        distinct_edges(with_value(list@, value)),
    ensures
        m.rows() == rows,
        m.cols() == cols,
        m@ == edge_cells(with_value(list@, value)),
        within(m@, rows as int, cols as int),
{
    let mut edges: Vec<Edge> = Vec::new();
    let mut i: usize = 0;
    while i < list.len()
        invariant
            i <= list.len(),
            edges@ == with_value(list@, value).take(i as int),
        decreases list.len() - i,
    {
        edges.push((list[i].0, (list[i].1, value)));
        i += 1;
        assert(edges@ =~= with_value(list@, value).take(i as int));
    }
    assert(edges@ =~= with_value(list@, value));
    make_matrix_any_value(&edges, rows, cols)
}

/// The edges of the lists of the first `n` agents, agent after agent.
pub open spec fn flat(lists: Seq<Vec<(usize, u8)>>, n: nat) -> Seq<Edge>
    decreases n,
{
    if n == 0 {
        Seq::empty()
    } else {
        flat(lists, (n - 1) as nat) + edges_of((n - 1) as usize, lists[n - 1]@)
    }
}

/// The edge is one that the list of an agent under `n` holds.
pub open spec fn edge_listed(lists: Seq<Vec<(usize, u8)>>, n: int, e: Edge) -> bool {
    e.1.0 < n && lists[e.1.0 as int]@.contains((e.0, e.1.1))
}

/// The edge that an entry of the list of agent `b` stands for.
pub open spec fn entry_edge(b: int, entry: (usize, u8)) -> Edge {
    (entry.0, (b as usize, entry.1))
}

/// The edges of well-made lists lie inside the shape, are all for different
/// places, and are just the entries of the lists.
pub proof fn lemma_flat(lists: Seq<Vec<(usize, u8)>>, rows: int, n: nat)
    requires
        well_listed(lists, rows),
        n <= lists.len(),
        n <= usize::MAX,
    ensures
        edges_within(flat(lists, n), rows, n as int),
        distinct_edges(flat(lists, n)),
        forall|t: int|
            0 <= t < flat(lists, n).len() ==> edge_listed(lists, n as int, #[trigger] flat(lists, n)[t]),
        forall|b: int, i: int|
            0 <= b < n && 0 <= i < lists[b]@.len() ==> flat(lists, n).contains(
                entry_edge(b, #[trigger] lists[b]@[i]),
            ),
    decreases n,
{
    if n > 0 {
        let a = (n - 1) as nat;
        lemma_flat(lists, rows, a);
        let before = flat(lists, a);
        let list = lists[a as int]@;
        let added = edges_of(a as usize, list);
        let all = flat(lists, n);
        assert(one_each(list));
        assert forall|t: int| 0 <= t < all.len() implies (#[trigger] all[t]).0 < rows && all[t].1.0
            < n && edge_listed(lists, n as int, all[t]) by {
            if t < before.len() {
                assert(all[t] == before[t]);
                assert(edge_listed(lists, a as int, before[t]));
            } else {
                let i = t - before.len();
                assert(all[t] == added[i]);
                assert(list[i].0 < rows);
                assert(list[i] == (all[t].0, all[t].1.1));
            }
        }
        assert forall|s: int, t: int| 0 <= s < t < all.len() implies !((#[trigger] all[s]).0 == (
        #[trigger] all[t]).0 && all[s].1.0 == all[t].1.0) by {
            if t < before.len() {
                assert(all[s] == before[s] && all[t] == before[t]);
            } else if s < before.len() {
                assert(all[s] == before[s]);
                assert(before[s].1.0 < a);
                assert(all[t] == added[t - before.len()]);
            } else {
                assert(all[s] == added[s - before.len()]);
                assert(all[t] == added[t - before.len()]);
                assert(list[s - before.len()].0 != list[t - before.len()].0);
            }
        }
        assert forall|b: int, i: int| 0 <= b < n && 0 <= i < lists[b]@.len() implies all.contains(
            entry_edge(b, #[trigger] lists[b]@[i]),
        ) by {
            let e = entry_edge(b, lists[b]@[i]);
            if b < a {
                assert(before.contains(e));
                let t = choose|t: int| 0 <= t < before.len() && before[t] == e;
                assert(all[t] == e);
            } else {
                assert(all[before.len() + i] == added[i]);
            }
        }
    }
}

/// The edges of well-made lists stand for the matrix of the lists.
pub proof fn lemma_flat_cells(lists: Seq<Vec<(usize, u8)>>, rows: int)
    requires
        well_listed(lists, rows),
        lists.len() <= usize::MAX,
    ensures
        edge_cells(flat(lists, lists.len())) == gathered(lists),
{
    let edges = flat(lists, lists.len());
    lemma_flat(lists, rows, lists.len());
    let cells = edge_cells(edges);
    let want = gathered(lists);
    assert forall|k: (int, int)| #[trigger]
        cells.dom().contains(k) == want.dom().contains(k) && (cells.dom().contains(k) ==> cells[k]
            == want[k]) by {
        if cells.dom().contains(k) {
            let t = choose|t: int| is_edge(edges, k, t);
            assert(edge_listed(lists, lists.len() as int, edges[t]));
            let list = lists[k.1]@;
            let i = choose|i: int| 0 <= i < list.len() && list[i] == (edges[t].0, edges[t].1.1);
            lemma_listed(list, i);
        }
        if want.dom().contains(k) {
            let list = lists[k.1]@;
            let i = choose|i: int| 0 <= i < list.len() && (#[trigger] list[i]).0 == k.0;
            lemma_listed(list, i);
            let e = entry_edge(k.1, list[i]);
            assert(edges.contains(e));
            let t = choose|t: int| 0 <= t < edges.len() && edges[t] == e;
            assert(is_edge(edges, k, t));
            let t2 = choose|t2: int| is_edge(edges, k, t2);
            if t2 < t {
                assert(!(edges[t2].0 == edges[t].0 && edges[t2].1.0 == edges[t].1.0));
            } else if t < t2 {
                assert(!(edges[t].0 == edges[t2].0 && edges[t].1.0 == edges[t2].1.0));
            }
        }
    }
    assert(cells =~= want);
}

/// Gathers what all agents emit into one matrix: a column for each agent, a
/// row for each counterpart.
pub fn gather(lists: &Vec<Vec<(usize, u8)>>, rows: usize) -> (m: StatusMatrix)
    requires
        rows < usize::MAX,
        well_listed(lists@, rows as int),
    ensures
        m.rows() == rows,
        m.cols() == lists.len(),
        m@ == gathered(lists@),
        within(m@, rows as int, lists.len() as int),
{
    let mut edges: Vec<Edge> = Vec::new();
    let mut a: usize = 0;
    while a < lists.len()
        invariant
            a <= lists.len(),
            edges@ == flat(lists@, a as nat),
        decreases lists.len() - a,
    {
        edges = fold_edges(edges, a, &lists[a]);
        a += 1;
    }
    proof {
        lemma_flat(lists@, rows as int, lists.len() as nat);
        lemma_flat_cells(lists@, rows as int);
    }
    make_matrix_any_value(&edges, rows, lists.len())
}

} // verus!
