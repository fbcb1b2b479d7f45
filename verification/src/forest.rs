//! Forests on the integer grid: sets of cells, joined where they share a
//! side, that hold no round trip.
//!
//! A set of cells is shown to be a forest by ranks: an order in which the
//! cells can be put down one by one so that each cell, when it is put down,
//! shares a side with at most one cell that is there already.

use vstd::prelude::*;

verus! {

/// A cell of the grid by its column and its row.
pub type Cell = (int, int);

/// The rank of each cell.
pub type Ranks = Map<Cell, int>;

/// Whether two cells share a side.
pub open spec fn adjacent(a: Cell, b: Cell) -> bool {
    ||| a.0 == b.0 && (a.1 == b.1 + 1 || b.1 == a.1 + 1)
    ||| a.1 == b.1 && (a.0 == b.0 + 1 || b.0 == a.0 + 1)
}

/// One if `n` is a cell of the set of lower rank than `c`, else zero.
pub open spec fn lower(cells: Set<Cell>, ranks: Ranks, c: Cell, n: Cell) -> int {
    if cells.contains(n) && ranks[n] < ranks[c] {
        1
    } else {
        0
    }
}

/// Whether `n` is no cell of the set of the same rank as `c`.
pub open spec fn differs(cells: Set<Cell>, ranks: Ranks, c: Cell, n: Cell) -> bool {
    cells.contains(n) ==> ranks[n] != ranks[c]
}

/// If `c` is in the set, at most one of its four neighbors is in the set
/// with a lower rank, and none with the same rank.
pub open spec fn ordered_at(cells: Set<Cell>, ranks: Ranks, c: Cell) -> bool {
    cells.contains(c) ==> {
        &&& lower(cells, ranks, c, (c.0, c.1 - 1)) + lower(cells, ranks, c, (c.0, c.1 + 1)) + lower(
            cells,
            ranks,
            c,
            (c.0 + 1, c.1),
        ) + lower(cells, ranks, c, (c.0 - 1, c.1)) <= 1
        &&& differs(cells, ranks, c, (c.0, c.1 - 1))
        &&& differs(cells, ranks, c, (c.0, c.1 + 1))
        &&& differs(cells, ranks, c, (c.0 + 1, c.1))
        &&& differs(cells, ranks, c, (c.0 - 1, c.1))
    }
}

/// The ranks order the set as a forest is ordered from its roots, and all
/// ranks of its cells are below `top`.
pub open spec fn ranked(cells: Set<Cell>, ranks: Ranks, top: int) -> bool {
    &&& forall|c: Cell| #[trigger] ordered_at(cells, ranks, c)
    &&& forall|c: Cell| cells.contains(c) ==> #[trigger] ranks[c] < top
}

/// The set is a forest: there are ranks that order it as one.
pub open spec fn is_forest(cells: Set<Cell>) -> bool {
    exists|ranks: Ranks, top: int| #[trigger] ranked(cells, ranks, top)
}

/// The index that follows `i` on a round trip through `len` indices.
pub open spec fn next_around(i: int, len: int) -> int {
    if i + 1 == len {
        0
    } else {
        i + 1
    }
}

/// A round trip through cells of the set: at least three cells, no cell
/// twice, each sharing a side with the next and the last with the first.
pub open spec fn is_cycle(cells: Set<Cell>, path: Seq<Cell>) -> bool {
    &&& path.len() >= 3
    &&& forall|i: int| 0 <= i < path.len() ==> cells.contains(#[trigger] path[i])
    &&& forall|i: int, j: int| 0 <= i < j < path.len() ==> #[trigger] path[i] != #[trigger] path[j]
    &&& forall|i: int|
        0 <= i < path.len() ==> adjacent(#[trigger] path[i], path[next_around(i, path.len() as int)])
}

/// The empty set is a forest.
pub proof fn lemma_empty_is_forest()
    ensures
        is_forest(Set::<Cell>::empty()),
{
    let ranks: Ranks = Map::empty();
    assert(ranked(Set::<Cell>::empty(), ranks, 0));
}

/// A forest stays one when a cell is added that shares a side with no cell
/// of it.
pub proof fn lemma_grow_root(cells: Set<Cell>, c: Cell)
    requires
        is_forest(cells),
        !cells.contains((c.0, c.1 - 1)),
        !cells.contains((c.0, c.1 + 1)),
        !cells.contains((c.0 + 1, c.1)),
        !cells.contains((c.0 - 1, c.1)),
    ensures
        is_forest(cells.insert(c)),
{
    if cells.contains(c) {
        assert(cells.insert(c) =~= cells);
    } else {
        let (r0, top) = choose|ranks: Ranks, top: int| #[trigger] ranked(cells, ranks, top);
        let ranks = r0.insert(c, top);
        let grown = cells.insert(c);
        assert forall|e: Cell| #[trigger] ordered_at(grown, ranks, e) by {
            assert(ordered_at(cells, r0, e));
            lemma_step(cells, r0, top, c, e);
        }
        assert(ranked(grown, ranks, top + 1));
    }
}

/// A forest stays one when a cell is added that shares a side with exactly
/// one cell of it.
pub proof fn lemma_grow_leaf(cells: Set<Cell>, c: Cell, parent: Cell)
    requires
        is_forest(cells),
        !cells.contains(c),
        adjacent(c, parent),
        forall|n: Cell| #[trigger] cells.contains(n) && adjacent(c, n) ==> n == parent,
    ensures
        is_forest(cells.insert(c)),
{
    let (r0, top) = choose|ranks: Ranks, top: int| #[trigger] ranked(cells, ranks, top);
    let ranks = r0.insert(c, top);
    let grown = cells.insert(c);
    assert forall|e: Cell| #[trigger] ordered_at(grown, ranks, e) by {
        assert(ordered_at(cells, r0, e));
        lemma_step(cells, r0, top, c, e);
        if e == c {
            let n = (c.0, c.1 - 1);
            let s = (c.0, c.1 + 1);
            let ea = (c.0 + 1, c.1);
            let w = (c.0 - 1, c.1);
            assert(adjacent(c, n) && adjacent(c, s) && adjacent(c, ea) && adjacent(c, w));
            assert(cells.contains(n) ==> n == parent);
            assert(cells.contains(s) ==> s == parent);
            assert(cells.contains(ea) ==> ea == parent);
            assert(cells.contains(w) ==> w == parent);
        }
    }
    assert(ranked(grown, ranks, top + 1));
}

/// What a cell `e` sees of its neighbors when the cell `c` is added with the
/// rank `top`: a cell that was there before sees no new neighbor of lower or
/// equal rank, and `c` sees every neighbor that was there before with a
/// lower rank.
proof fn lemma_step(cells: Set<Cell>, r0: Ranks, top: int, c: Cell, e: Cell)
    requires
        !cells.contains(c),
        forall|n: Cell| cells.contains(n) ==> #[trigger] r0[n] < top,
    ensures
        forall|n: Cell|
            e != c && cells.contains(e) ==> #[trigger] lower(
                cells.insert(c),
                r0.insert(c, top),
                e,
                n,
            ) == lower(cells, r0, e, n),
        forall|n: Cell|
            e != c && cells.contains(e) && differs(cells, r0, e, n) ==> #[trigger] differs(
                cells.insert(c),
                r0.insert(c, top),
                e,
                n,
            ),
        forall|n: Cell|
            e == c ==> #[trigger] lower(cells.insert(c), r0.insert(c, top), e, n) == if cells.contains(
                n,
            ) {
                1int
            } else {
                0int
            },
        forall|n: Cell|
            e == c && n != c ==> #[trigger] differs(cells.insert(c), r0.insert(c, top), e, n),
        forall|n: Cell| cells.insert(c).contains(n) ==> #[trigger] r0.insert(c, top)[n] < top + 1,
{
    let grown = cells.insert(c);
    let ranks = r0.insert(c, top);
    assert forall|n: Cell| e != c && cells.contains(e) implies #[trigger] lower(
        grown,
        ranks,
        e,
        n,
    ) == lower(cells, r0, e, n) by {
        assert(r0[e] < top);
    }
    assert forall|n: Cell| e == c implies #[trigger] lower(grown, ranks, e, n) == if cells.contains(
        n,
    ) {
        1int
    } else {
        0int
    } by {
        if cells.contains(n) {
            assert(r0[n] < top);
        }
    }
    assert forall|n: Cell| e == c && n != c implies #[trigger] differs(grown, ranks, e, n) by {
        if cells.contains(n) {
            assert(r0[n] < top);
        }
    }
    assert forall|n: Cell|
        e != c && cells.contains(e) && differs(cells, r0, e, n) implies #[trigger] differs(
        grown,
        ranks,
        e,
        n,
    ) by {
        assert(r0[e] < top);
    }
    assert forall|n: Cell| grown.contains(n) implies #[trigger] ranks[n] < top + 1 by {
        if n != c {
            assert(r0[n] < top);
        }
    }
}

/// Every part of a forest is a forest.
pub proof fn lemma_subset_is_forest(cells: Set<Cell>, part: Set<Cell>)
    requires
        is_forest(cells),
        part.subset_of(cells),
    ensures
        is_forest(part),
{
    let (ranks, top) = choose|ranks: Ranks, top: int| #[trigger] ranked(cells, ranks, top);
    assert forall|c: Cell| #[trigger] ordered_at(part, ranks, c) by {
        assert(ordered_at(cells, ranks, c));
    }
    assert(ranked(part, ranks, top));
}

/// The index of a cell of greatest rank among the first `n` cells of a path.
proof fn lemma_highest(ranks: Ranks, path: Seq<Cell>, n: int) -> (m: int)
    requires
        0 < n <= path.len(),
    ensures
        0 <= m < n,
        forall|i: int| 0 <= i < n ==> ranks[#[trigger] path[i]] <= ranks[path[m]],
    decreases n,
{
    if n == 1 {
        0
    } else {
        let m = lemma_highest(ranks, path, n - 1);
        if ranks[path[n - 1]] > ranks[path[m]] {
            n - 1
        } else {
            m
        }
    }
}

/// Of two neighbors of an ordered cell, both in the set, one has a rank
/// above the rank of the cell.
proof fn lemma_two_neighbors(cells: Set<Cell>, ranks: Ranks, c: Cell, p: Cell, q: Cell)
    requires
        ordered_at(cells, ranks, c),
        cells.contains(c),
        cells.contains(p),
        cells.contains(q),
        adjacent(c, p),
        adjacent(c, q),
        p != q,
    ensures
        ranks[p] > ranks[c] || ranks[q] > ranks[c],
{
    let n = (c.0, c.1 - 1);
    let s = (c.0, c.1 + 1);
    let e = (c.0 + 1, c.1);
    let w = (c.0 - 1, c.1);
    assert(p == n || p == s || p == e || p == w);
    assert(q == n || q == s || q == e || q == w);
    if ranks[p] <= ranks[c] && ranks[q] <= ranks[c] {
        assert(lower(cells, ranks, c, p) == 1);
        assert(lower(cells, ranks, c, q) == 1);
    }
}

/// A forest has no cycle: no round trip leads through its cells.
pub proof fn lemma_forest_has_no_cycle(cells: Set<Cell>, path: Seq<Cell>)
    requires
        is_forest(cells),
    ensures
        !is_cycle(cells, path),
{
    if is_cycle(cells, path) {
        let (ranks, top) = choose|ranks: Ranks, top: int| #[trigger] ranked(cells, ranks, top);
        let len = path.len() as int;
        let m = lemma_highest(ranks, path, len);
        let before = if m == 0 {
            len - 1
        } else {
            m - 1
        };
        let after = next_around(m, len);
        let c = path[m];
        let p = path[before];
        let q = path[after];
        assert(next_around(before, len) == m);
        assert(adjacent(p, c));
        assert(adjacent(c, q));
        assert(p != q) by {
            if before < after {
                assert(path[before] != path[after]);
            } else {
                assert(path[after] != path[before]);
            }
        }
        assert(ordered_at(cells, ranks, c));
        lemma_two_neighbors(cells, ranks, c, p, q);
    }
}

/// A way through cells of the set: at least one cell, no cell twice, each
/// sharing a side with the next.
pub open spec fn is_path(cells: Set<Cell>, path: Seq<Cell>) -> bool {
    &&& path.len() >= 1
    &&& forall|i: int| 0 <= i < path.len() ==> cells.contains(#[trigger] path[i])
    &&& forall|i: int, j: int| 0 <= i < j < path.len() ==> #[trigger] path[i] != #[trigger] path[j]
    &&& forall|i: int| 0 <= i < path.len() - 1 ==> adjacent(#[trigger] path[i], path[i + 1])
}

/// On a way through an ordered set no cell has a higher rank than both ends
/// of the way.
proof fn lemma_path_peaks_at_an_end(cells: Set<Cell>, ranks: Ranks, top: int, path: Seq<Cell>)
    requires
        ranked(cells, ranks, top),
        is_path(cells, path),
    ensures
        forall|i: int|
            0 <= i < path.len() ==> ranks[#[trigger] path[i]] <= ranks[path[0]] || ranks[path[i]]
                <= ranks[path.last()],
{
    let len = path.len() as int;
    let m = lemma_highest(ranks, path, len);
    if 0 < m < len - 1 {
        let c = path[m];
        let p = path[m - 1];
        let q = path[m + 1];
        assert(adjacent(p, path[m - 1 + 1]));
        assert(adjacent(c, q));
        assert(path[m - 1] != path[m + 1]);
        assert(ordered_at(cells, ranks, c));
        lemma_two_neighbors(cells, ranks, c, p, q);
    }
}

/// The part of a way from its second cell on, and the part up to the cell
/// before its last, are ways.
proof fn lemma_path_parts(cells: Set<Cell>, path: Seq<Cell>)
    requires
        is_path(cells, path),
        path.len() >= 2,
    ensures
        is_path(cells, path.skip(1)),
        is_path(cells, path.drop_last()),
{
    let tail = path.skip(1);
    let head = path.drop_last();
    assert forall|i: int| 0 <= i < tail.len() implies cells.contains(#[trigger] tail[i]) by {
        assert(tail[i] == path[i + 1]);
    }
    assert forall|i: int, j: int| 0 <= i < j < tail.len() implies #[trigger] tail[i]
        != #[trigger] tail[j] by {
        assert(tail[i] == path[i + 1] && tail[j] == path[j + 1]);
    }
    assert forall|i: int| 0 <= i < tail.len() - 1 implies adjacent(#[trigger] tail[i], tail[i + 1]) by {
        assert(tail[i] == path[i + 1] && tail[i + 1] == path[i + 1 + 1]);
        assert(adjacent(path[i + 1], path[i + 1 + 1]));
    }
    assert forall|i: int| 0 <= i < head.len() implies cells.contains(#[trigger] head[i]) by {
        assert(head[i] == path[i]);
    }
    assert forall|i: int, j: int| 0 <= i < j < head.len() implies #[trigger] head[i]
        != #[trigger] head[j] by {
        assert(head[i] == path[i] && head[j] == path[j]);
    }
    assert forall|i: int| 0 <= i < head.len() - 1 implies adjacent(#[trigger] head[i], head[i + 1]) by {
        assert(head[i] == path[i] && head[i + 1] == path[i + 1]);
    }
}

/// Two ways through an ordered set that start at the same cell and end at
/// the same cell are the same way.
proof fn lemma_one_way(cells: Set<Cell>, ranks: Ranks, top: int, p: Seq<Cell>, q: Seq<Cell>)
    requires
        ranked(cells, ranks, top),
        is_path(cells, p),
        is_path(cells, q),
        p[0] == q[0],
        p.last() == q.last(),
    ensures
        p == q,
    decreases p.len() + q.len(),
{
    let a = p[0];
    let b = p.last();
    if p.len() == 1 || q.len() == 1 {
        // the way starts where it ends, and a way passes no cell twice
        if p.len() > 1 {
            assert(p[0] != p[p.len() - 1]);
        }
        if q.len() > 1 {
            assert(q[0] != q[q.len() - 1]);
        }
        assert(p =~= q);
    } else {
        lemma_path_peaks_at_an_end(cells, ranks, top, p);
        lemma_path_peaks_at_an_end(cells, ranks, top, q);
        lemma_path_parts(cells, p);
        lemma_path_parts(cells, q);
        assert(ordered_at(cells, ranks, a));
        assert(ordered_at(cells, ranks, b));
        if ranks[a] >= ranks[b] {
            // both ways leave the first cell for its one neighbor of lower rank
            let u = p[1];
            let v = q[1];
            assert(adjacent(p[0], p[0int + 1]) && adjacent(q[0], q[0int + 1]));
            assert(ranks[u] <= ranks[a] && ranks[v] <= ranks[a]);
            if u != v {
                lemma_two_neighbors(cells, ranks, a, u, v);
            }
            lemma_one_way(cells, ranks, top, p.skip(1), q.skip(1));
            assert(p =~= seq![a] + p.skip(1));
            assert(q =~= seq![a] + q.skip(1));
        } else {
            // both ways reach the last cell from its one neighbor of lower rank
            let u = p[p.len() - 2];
            let v = q[q.len() - 2];
            assert(adjacent(p[p.len() - 2], p[p.len() - 2 + 1]));
            assert(adjacent(q[q.len() - 2], q[q.len() - 2 + 1]));
            assert(ranks[u] <= ranks[b] && ranks[v] <= ranks[b]);
            if u != v {
                lemma_two_neighbors(cells, ranks, b, u, v);
            }
            lemma_one_way(cells, ranks, top, p.drop_last(), q.drop_last());
            assert(p =~= p.drop_last().push(b));
            assert(q =~= q.drop_last().push(b));
        }
    }
}

/// In a forest there is at most one way from one cell to another: two ways
/// that start at the same cell and end at the same cell are the same way.
pub proof fn lemma_forest_has_one_way(cells: Set<Cell>, p: Seq<Cell>, q: Seq<Cell>)
    requires
        is_forest(cells),
        is_path(cells, p),
        is_path(cells, q),
        p[0] == q[0],
        p.last() == q.last(),
    ensures
        p == q,
{
    let (ranks, top) = choose|ranks: Ranks, top: int| #[trigger] ranked(cells, ranks, top);
    lemma_one_way(cells, ranks, top, p, q);
}

/// A walk through cells of the set: at least one cell, each sharing a side
/// with the next. A walk may pass a cell more than once.
pub open spec fn is_walk(cells: Set<Cell>, walk: Seq<Cell>) -> bool {
    &&& walk.len() >= 1
    &&& forall|i: int| 0 <= i < walk.len() ==> cells.contains(#[trigger] walk[i])
    &&& forall|i: int| 0 <= i < walk.len() - 1 ==> adjacent(#[trigger] walk[i], walk[i + 1])
}

/// Whether a walk through cells of the set leads from `p` to `q`.
pub open spec fn joined(cells: Set<Cell>, p: Cell, q: Cell) -> bool {
    exists|walk: Seq<Cell>| #[trigger] is_walk(cells, walk) && walk[0] == p && walk.last() == q
}

/// Every cell of the set is joined to itself.
pub proof fn lemma_joined_self(cells: Set<Cell>, p: Cell)
    requires
        cells.contains(p),
    ensures
        joined(cells, p, p),
{
    let walk = seq![p];
    assert(is_walk(cells, walk) && walk[0] == p && walk.last() == p);
}

/// Two cells of the set that share a side are joined.
pub proof fn lemma_joined_step(cells: Set<Cell>, p: Cell, q: Cell)
    requires
        cells.contains(p),
        cells.contains(q),
        adjacent(p, q),
    ensures
        joined(cells, p, q),
{
    let walk = seq![p, q];
    assert(is_walk(cells, walk) && walk[0] == p && walk.last() == q);
}

/// If `p` is joined to `q`, then `q` is joined to `p`.
pub proof fn lemma_joined_back(cells: Set<Cell>, p: Cell, q: Cell)
    requires
        joined(cells, p, q),
    ensures
        joined(cells, q, p),
{
    let walk = choose|walk: Seq<Cell>| #[trigger]
        is_walk(cells, walk) && walk[0] == p && walk.last() == q;
    let len = walk.len() as int;
    let back = Seq::new(walk.len(), |i: int| walk[len - 1 - i]);
    assert forall|i: int| 0 <= i < back.len() - 1 implies adjacent(#[trigger] back[i], back[i + 1]) by {
        assert(adjacent(walk[len - 1 - i - 1], walk[len - 1 - i - 1 + 1]));
    }
    assert(is_walk(cells, back) && back[0] == q && back.last() == p);
}

/// If `p` is joined to `q` and `q` to `r`, then `p` is joined to `r`.
pub proof fn lemma_joined_on(cells: Set<Cell>, p: Cell, q: Cell, r: Cell)
    requires
        joined(cells, p, q),
        joined(cells, q, r),
    ensures
        joined(cells, p, r),
{
    let first = choose|walk: Seq<Cell>| #[trigger]
        is_walk(cells, walk) && walk[0] == p && walk.last() == q;
    let second = choose|walk: Seq<Cell>| #[trigger]
        is_walk(cells, walk) && walk[0] == q && walk.last() == r;
    let walk = first + second.skip(1);
    assert forall|i: int| 0 <= i < walk.len() implies cells.contains(#[trigger] walk[i]) by {
        if i < first.len() {
            assert(walk[i] == first[i]);
        } else {
            assert(walk[i] == second[i - first.len() + 1]);
        }
    }
    assert forall|i: int| 0 <= i < walk.len() - 1 implies adjacent(#[trigger] walk[i], walk[i + 1]) by {
        if i < first.len() - 1 {
            assert(walk[i] == first[i] && walk[i + 1] == first[i + 1]);
        } else if i == first.len() - 1 {
            assert(walk[i] == first.last());
            assert(walk[i + 1] == second[0int + 1]);
            assert(adjacent(second[0], second[0int + 1]));
        } else {
            let k = i - first.len() + 1;
            assert(walk[i] == second[k] && walk[i + 1] == second[k + 1]);
        }
    }
    assert(is_walk(cells, walk) && walk[0] == p && walk.last() == r);
}

/// Cells that are joined in a set are joined in every set that holds it.
pub proof fn lemma_joined_more(cells: Set<Cell>, more: Set<Cell>, p: Cell, q: Cell)
    requires
        cells.subset_of(more),
        joined(cells, p, q),
    ensures
        joined(more, p, q),
{
    let walk = choose|walk: Seq<Cell>| #[trigger]
        is_walk(cells, walk) && walk[0] == p && walk.last() == q;
    assert(is_walk(more, walk));
}

/// Cells that are joined are cells of the set.
pub proof fn lemma_joined_cells(cells: Set<Cell>, p: Cell, q: Cell)
    requires
        joined(cells, p, q),
    ensures
        cells.contains(p),
        cells.contains(q),
{
    let walk = choose|walk: Seq<Cell>| #[trigger]
        is_walk(cells, walk) && walk[0] == p && walk.last() == q;
    assert(cells.contains(walk[0]));
    assert(cells.contains(walk[walk.len() - 1]));
}

} // verus!
