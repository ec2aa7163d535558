//! What falls after a clear: the stacks of cells above emptied cells, one
//! gravity step over them, and how many steps a gap takes to close.
use crate::block::Block;
use crate::matching::{in_grid, kind_at};
use crate::{Point, NUM_COLS, NUM_ROWS};
use vstd::prelude::*;

verus! {

/// The grid as columns of cells.
pub open spec fn grid_of<const R: usize, const C: usize>(heap: [[Block; R]; C]) -> Seq<Seq<Block>> {
    heap@.map_values(|c: [Block; R]| c@)
}

pub open spec fn set_cell(g: Seq<Seq<Block>>, x: int, y: int, b: Block) -> Seq<Seq<Block>> {
    g.update(x, g[x].update(y, b))
}

/// Whether the cell at `p` can fall: the row below exists and is empty.
pub open spec fn can_fall(g: Seq<Seq<Block>>, rows: int, p: Point) -> bool {
    p.y + 1 < rows && g[p.x as int][p.y + 1].kind.is_none()
}

/// The cell at `p` moved one row down; its old place keeps only the
/// flashing flag.
pub open spec fn fall_one(g: Seq<Seq<Block>>, p: Point) -> Seq<Seq<Block>> {
    let b = g[p.x as int][p.y as int];
    set_cell(set_cell(g, p.x as int, p.y as int, Block { kind: None, exploding: b.exploding }), p.x as int, p.y + 1, b)
}

/// One gravity step over the followed cells, in order: the grid after it,
/// the followed coordinates after it, and whether any cell moved.
pub open spec fn gravity_pass(g: Seq<Seq<Block>>, rows: int, pts: Seq<Point>) -> (Seq<Seq<Block>>, Seq<Point>, bool)
    decreases pts.len(),
{
    if pts.len() == 0 {
        (g, seq![], false)
    } else {
        let prev = gravity_pass(g, rows, pts.drop_last());
        let p = pts.last();
        if can_fall(prev.0, rows, p) {
            (fall_one(prev.0, p), prev.1.push(Point { x: p.x, y: (p.y + 1) as usize }), true)
        } else {
            (prev.0, prev.1.push(p), prev.2)
        }
    }
}

/// The grid with every cell of `pts` emptied and its flashing stopped.
pub open spec fn cleared(g: Seq<Seq<Block>>, pts: Seq<Point>) -> Seq<Seq<Block>> {
    Seq::new(
        g.len(),
        |x: int|
            Seq::new(
                g[x].len(),
                |y: int|
                    if pts.contains(Point { x: x as usize, y: y as usize }) {
                        Block { kind: None, exploding: false }
                    } else {
                        g[x][y]
                    },
            ),
    )
}

/// The grid with the flashing flag of every cell of `pts` set to `on`.
pub open spec fn flashed(g: Seq<Seq<Block>>, pts: Seq<Point>, on: bool) -> Seq<Seq<Block>> {
    Seq::new(
        g.len(),
        |x: int|
            Seq::new(
                g[x].len(),
                |y: int|
                    if pts.contains(Point { x: x as usize, y: y as usize }) {
                        Block { kind: g[x][y].kind, exploding: on }
                    } else {
                        g[x][y]
                    },
            ),
    )
}

/// A gravity step keeps the number of followed cells and keeps them in the
/// grid.
pub proof fn lemma_gravity_pass_shape(g: Seq<Seq<Block>>, pts: Seq<Point>)
    requires
        forall|i: int| 0 <= i < pts.len() ==> #[trigger] in_grid::<NUM_ROWS, NUM_COLS>(pts[i].x as int, pts[i].y as int),
    ensures
        gravity_pass(g, NUM_ROWS as int, pts).1.len() == pts.len(),
        forall|i: int|
            0 <= i < pts.len() ==> #[trigger] in_grid::<NUM_ROWS, NUM_COLS>(
                gravity_pass(g, NUM_ROWS as int, pts).1[i].x as int,
                gravity_pass(g, NUM_ROWS as int, pts).1[i].y as int,
            ),
    decreases pts.len(),
{
    if pts.len() > 0 {
        let init = pts.drop_last();
        assert forall|i: int| 0 <= i < init.len() implies #[trigger] in_grid::<NUM_ROWS, NUM_COLS>(init[i].x as int, init[i].y as int) by {
            assert(init[i] == pts[i]);
            assert(in_grid::<NUM_ROWS, NUM_COLS>(pts[i].x as int, pts[i].y as int));
        }
        lemma_gravity_pass_shape(g, init);
        assert(in_grid::<NUM_ROWS, NUM_COLS>(pts[pts.len() - 1].x as int, pts[pts.len() - 1].y as int));
        let r = gravity_pass(g, NUM_ROWS as int, pts).1;
        let q = gravity_pass(g, NUM_ROWS as int, init).1;
        assert forall|i: int| 0 <= i < pts.len() implies #[trigger] in_grid::<NUM_ROWS, NUM_COLS>(r[i].x as int, r[i].y as int) by {
            if i < init.len() {
                assert(r[i] == q[i]);
            }
        }
    }
}

/// `n` gravity steps, each over the cells that the previous one left.
pub open spec fn gravity_steps(g: Seq<Seq<Block>>, rows: int, pts: Seq<Point>, n: nat) -> (Seq<Seq<Block>>, Seq<Point>)
    decreases n,
{
    if n == 0 {
        (g, pts)
    } else {
        let prev = gravity_steps(g, rows, pts, (n - 1) as nat);
        let next = gravity_pass(prev.0, rows, prev.1);
        (next.0, next.1)
    }
}

/// Whether the gravity step after `k` steps moves anything.
pub open spec fn moves_after(g: Seq<Seq<Block>>, rows: int, pts: Seq<Point>, k: nat) -> bool {
    let s = gravity_steps(g, rows, pts, k);
    gravity_pass(s.0, rows, s.1).2
}

/// A single followed cell above a gap of exactly `n` empty cells (then the
/// floor or a filled cell) moves on each of the first `n` gravity steps,
/// ends `n` rows lower, and the step after that moves nothing.
pub proof fn lemma_gap_takes_n_steps(g: Seq<Seq<Block>>, rows: int, p: Point, n: nat)
    requires
        p.x < g.len(),
        g[p.x as int].len() == rows,
        rows <= usize::MAX,
        p.y + n < rows,
        forall|k: int| p.y < k <= p.y + n ==> (#[trigger] g[p.x as int][k]).kind.is_none(),
        p.y + n + 1 == rows || g[p.x as int][p.y + n + 1].kind.is_some(),
    ensures
        forall|k: nat| k < n ==> #[trigger] moves_after(g, rows, seq![p], k),
        !moves_after(g, rows, seq![p], n),
        gravity_steps(g, rows, seq![p], n).1 == seq![Point { x: p.x, y: (p.y + n) as usize }],
{
    assert forall|k: nat| k < n implies #[trigger] moves_after(g, rows, seq![p], k) by {
        lemma_gap_step(g, rows, p, n, k);
    }
    lemma_gap_step(g, rows, p, n, n);
}

proof fn lemma_pass_single(g: Seq<Seq<Block>>, rows: int, q: Point)
    ensures
        gravity_pass(g, rows, seq![q]) == if can_fall(g, rows, q) {
            (fall_one(g, q), seq![Point { x: q.x, y: (q.y + 1) as usize }], true)
        } else {
            (g, seq![q], false)
        },
{
    assert(seq![q].drop_last() =~= Seq::<Point>::empty());
    assert(gravity_pass(g, rows, Seq::<Point>::empty()) == (g, Seq::<Point>::empty(), false));
    assert(Seq::<Point>::empty().push(q) =~= seq![q]);
    assert(Seq::<Point>::empty().push(Point { x: q.x, y: (q.y + 1) as usize }) =~= seq![Point { x: q.x, y: (q.y + 1) as usize }]);
}

proof fn lemma_gap_step(g: Seq<Seq<Block>>, rows: int, p: Point, n: nat, k: nat)
    requires
        p.x < g.len(),
        g[p.x as int].len() == rows,
        rows <= usize::MAX,
        p.y + n < rows,
        forall|j: int| p.y < j <= p.y + n ==> (#[trigger] g[p.x as int][j]).kind.is_none(),
        p.y + n + 1 == rows || g[p.x as int][p.y + n + 1].kind.is_some(),
        k <= n,
    ensures
        ({
            let s = gravity_steps(g, rows, seq![p], k);
            &&& s.1 == seq![Point { x: p.x, y: (p.y + k) as usize }]
            &&& s.0.len() == g.len()
            &&& s.0[p.x as int].len() == rows
            &&& forall|j: int| p.y + k < j <= p.y + n ==> (#[trigger] s.0[p.x as int][j]).kind.is_none()
            &&& p.y + n + 1 < rows ==> s.0[p.x as int][p.y + n + 1] == g[p.x as int][p.y + n + 1]
            &&& moves_after(g, rows, seq![p], k) == (k < n)
        }),
    decreases k,
{
    let x = p.x as int;
    if k > 0 {
        lemma_gap_step(g, rows, p, n, (k - 1) as nat);
        let prev = gravity_steps(g, rows, seq![p], (k - 1) as nat);
        let q = Point { x: p.x, y: (p.y + k - 1) as usize };
        assert(can_fall(prev.0, rows, q));
        lemma_pass_single(prev.0, rows, q);
        let moved = fall_one(prev.0, q);
        assert(gravity_pass(prev.0, rows, prev.1) == (moved, seq![Point { x: p.x, y: (q.y + 1) as usize }], true));
        assert(forall|j: int| p.y + k < j <= p.y + n ==> #[trigger] moved[x][j] == prev.0[x][j]);
    }
    let s = gravity_steps(g, rows, seq![p], k);
    let q = Point { x: p.x, y: (p.y + k) as usize };
    lemma_pass_single(s.0, rows, q);
    if k < n {
        assert(can_fall(s.0, rows, q));
    } else {
        assert(!can_fall(s.0, rows, q));
    }
}

/// The cells of column `x` from row `top` downward, `n` of them.
pub open spec fn column_run(x: usize, top: int, n: nat) -> Seq<Point> {
    Seq::new(n, |i: int| Point { x, y: (top - i) as usize })
}

/// `n` filled cells stacked right above a single empty cell at row `gap`,
/// with the floor or a filled cell below the gap, followed from the lowest
/// up: one gravity step moves every one of them down one row, and the step
/// after it moves nothing.
pub proof fn lemma_stack_over_gap(g: Seq<Seq<Block>>, rows: int, x: usize, gap: usize, n: nat)
    requires
        x < g.len(),
        g[x as int].len() == rows,
        rows <= usize::MAX,
        1 <= n <= gap < rows,
        g[x as int][gap as int].kind.is_none(),
        forall|k: int| gap - n <= k < gap ==> (#[trigger] g[x as int][k]).kind.is_some(),
        gap + 1 == rows || g[x as int][gap + 1].kind.is_some(),
    ensures
        ({
            let first = gravity_pass(g, rows, column_run(x, gap - 1, n));
            &&& first.2
            &&& first.1 == column_run(x, gap as int, n)
            &&& forall|k: int| gap - n < k <= gap ==> #[trigger] first.0[x as int][k] == g[x as int][k - 1]
            &&& first.0[x as int][gap - n].kind.is_none()
            &&& !gravity_pass(first.0, rows, first.1).2
        }),
{
    let pts = column_run(x, gap - 1, n);
    lemma_stack_pass(g, rows, x, gap, n, n as int);
    assert(pts.take(n as int) =~= pts);
    let first = gravity_pass(g, rows, pts);
    let qs = column_run(x, gap as int, n);
    assert(first.1 =~= qs);
    lemma_settled_pass(g, first.0, rows, x, gap, n, n as int);
    assert(qs.take(n as int) =~= qs);
}

proof fn lemma_stack_pass(g: Seq<Seq<Block>>, rows: int, x: usize, gap: usize, n: nat, j: int)
    requires
        x < g.len(),
        g[x as int].len() == rows,
        rows <= usize::MAX,
        1 <= n <= gap < rows,
        g[x as int][gap as int].kind.is_none(),
        forall|k: int| gap - n <= k < gap ==> (#[trigger] g[x as int][k]).kind.is_some(),
        0 <= j <= n,
    ensures
        ({
            let s = gravity_pass(g, rows, column_run(x, gap - 1, n).take(j));
            &&& s.0.len() == g.len()
            &&& s.0[x as int].len() == rows
            &&& s.1 == Seq::new(j as nat, |i: int| Point { x, y: (gap - i) as usize })
            &&& s.2 == (j > 0)
            &&& forall|k: int| gap - j < k <= gap ==> #[trigger] s.0[x as int][k] == g[x as int][k - 1]
            &&& s.0[x as int][gap - j].kind.is_none()
            &&& forall|k: int| 0 <= k < gap - j ==> #[trigger] s.0[x as int][k] == g[x as int][k]
            &&& forall|k: int| gap < k < rows ==> #[trigger] s.0[x as int][k] == g[x as int][k]
        }),
    decreases j,
{
    let pts = column_run(x, gap - 1, n);
    if j == 0 {
        assert(pts.take(0) =~= Seq::<Point>::empty());
        assert(Seq::new(0, |i: int| Point { x, y: (gap - i) as usize }) =~= Seq::<Point>::empty());
    } else {
        lemma_stack_pass(g, rows, x, gap, n, j - 1);
        let prev = gravity_pass(g, rows, pts.take(j - 1));
        let q = Point { x, y: (gap - j) as usize };
        assert(pts.take(j).drop_last() =~= pts.take(j - 1));
        assert(pts.take(j).last() == q);
        assert(can_fall(prev.0, rows, q));
        let s = gravity_pass(g, rows, pts.take(j));
        assert(s.0 == fall_one(prev.0, q));
        assert(s.1 =~= Seq::new(j as nat, |i: int| Point { x, y: (gap - i) as usize }));
        assert forall|k: int| gap - j < k <= gap implies #[trigger] s.0[x as int][k] == g[x as int][k - 1] by {
            if k == gap - j + 1 {
                assert(prev.0[x as int][gap - j] == g[x as int][gap - j]);
            }
        }
    }
}

proof fn lemma_settled_pass(g: Seq<Seq<Block>>, h: Seq<Seq<Block>>, rows: int, x: usize, gap: usize, n: nat, j: int)
    requires
        x < g.len(),
        g[x as int].len() == rows,
        rows <= usize::MAX,
        1 <= n <= gap < rows,
        forall|k: int| gap - n <= k < gap ==> (#[trigger] g[x as int][k]).kind.is_some(),
        gap + 1 == rows || g[x as int][gap + 1].kind.is_some(),
        h.len() == g.len(),
        h[x as int].len() == rows,
        forall|k: int| gap - n < k <= gap ==> #[trigger] h[x as int][k] == g[x as int][k - 1],
        gap + 1 < rows ==> h[x as int][gap + 1] == g[x as int][gap + 1],
        0 <= j <= n,
    ensures
        gravity_pass(h, rows, column_run(x, gap as int, n).take(j)) == (h, column_run(x, gap as int, n).take(j), false),
    decreases j,
{
    let qs = column_run(x, gap as int, n);
    if j == 0 {
        assert(qs.take(0) =~= Seq::<Point>::empty());
    } else {
        lemma_settled_pass(g, h, rows, x, gap, n, j - 1);
        let q = Point { x, y: (gap - (j - 1)) as usize };
        assert(qs.take(j).drop_last() =~= qs.take(j - 1));
        assert(qs.take(j).last() == q);
        if j > 1 {
            assert(h[x as int][gap - j + 2] == g[x as int][gap - j + 1]);
        }
        assert(!can_fall(h, rows, q));
        assert(qs.take(j - 1).push(q) =~= qs.take(j));
    }
}

/// The filled cells of column `x` from row `y` upward, up to the first
/// empty cell or the top.
pub open spec fn stack_from<const R: usize, const C: usize>(heap: [[Block; R]; C], x: int, y: int) -> Seq<Point>
    decreases y + 1,
{
    if in_grid::<R, C>(x, y) && kind_at(heap, x, y).is_some() {
        seq![Point { x: x as usize, y: y as usize }] + stack_from(heap, x, y - 1)
    } else {
        seq![]
    }
}

/// For each origin in order, the filled cells stacked right above it,
/// nearest first.
pub open spec fn stacks_above<const R: usize, const C: usize>(heap: [[Block; R]; C], origins: Seq<Point>) -> Seq<Point>
    decreases origins.len(),
{
    if origins.len() == 0 {
        seq![]
    } else {
        stacks_above(heap, origins.drop_last()) + stack_from(heap, origins.last().x as int, origins.last().y - 1)
    }
}

/// Inserting an item anywhere adds it once to the multiset.
pub proof fn lemma_insert_multiset(s: Seq<Point>, i: int, a: Point)
    requires
        0 <= i <= s.len(),
    ensures
        s.insert(i, a).to_multiset() =~= s.to_multiset().insert(a),
{
    broadcast use vstd::seq_lib::group_to_multiset_ensures;
    let t = s.insert(i, a);
    assert(t.remove(i) =~= s);
    assert(t[i] == a);
    assert(t.contains(a));
    assert(t.to_multiset().remove(a) == s.to_multiset());
}

/// A stack above a cell of a column of `R` cells holds at most `R` cells.
proof fn lemma_stack_len<const R: usize, const C: usize>(heap: [[Block; R]; C], x: int, y: int)
    ensures
        stack_from(heap, x, y).len() <= R,
        stack_from(heap, x, y).len() <= if y >= 0 { y + 1 } else { 0 },
    decreases y + 1,
{
    if in_grid::<R, C>(x, y) && kind_at(heap, x, y).is_some() {
        lemma_stack_len(heap, x, y - 1);
    }
}

/// The stacks above `n` origins hold at most `n * R` cells.
pub proof fn lemma_stacks_len<const R: usize, const C: usize>(heap: [[Block; R]; C], origins: Seq<Point>)
    ensures
        stacks_above(heap, origins).len() <= origins.len() * R,
    decreases origins.len(),
{
    if origins.len() > 0 {
        lemma_stacks_len(heap, origins.drop_last());
        lemma_stack_len(heap, origins.last().x as int, origins.last().y - 1);
        let n = origins.len();
        assert((n - 1) * R + R == n * R) by (nonlinear_arith);
    }
}

/// Distinct cells of the grid number at most its size.
pub proof fn lemma_distinct_cells(s: Seq<Point>)
    requires
        s.no_duplicates(),
        forall|k: int| 0 <= k < s.len() ==> #[trigger] in_grid::<NUM_ROWS, NUM_COLS>(s[k].x as int, s[k].y as int),
    ensures
        s.len() <= NUM_COLS * NUM_ROWS,
{
    let keys = s.map_values(|p: Point| p.y * 6 + p.x);
    assert(keys.no_duplicates()) by {
        assert forall|i: int, j: int| 0 <= i < keys.len() && 0 <= j < keys.len() && i != j implies keys[i] != keys[j] by {
            assert(in_grid::<NUM_ROWS, NUM_COLS>(s[i].x as int, s[i].y as int));
            assert(in_grid::<NUM_ROWS, NUM_COLS>(s[j].x as int, s[j].y as int));
            assert(s[i] != s[j]);
        }
    }
    keys.unique_seq_to_set();
    let range = vstd::set_lib::set_int_range(0, 78);
    assert(keys.to_set().subset_of(range)) by {
        assert forall|v: int| keys.to_set().contains(v) implies range.contains(v) by {
            assert(keys.contains(v));
            let i = choose|i: int| 0 <= i < keys.len() && keys[i] == v;
            assert(in_grid::<NUM_ROWS, NUM_COLS>(s[i].x as int, s[i].y as int));
        }
    }
    vstd::set_lib::lemma_int_range(0, 78);
    vstd::set_lib::lemma_len_subset(keys.to_set(), range);
}

} // verus!
