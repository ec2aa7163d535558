//! Run detection: which cells an origin matches along the four axes,
//! how a pass over several origins collects and scores them, and the laws
//! that hold of it.
use crate::block::{Block, BlockKind};
use crate::pit::PitState;
use crate::Point;
use vstd::prelude::*;

verus! {

/// A step to one of the eight neighbours of a cell.
#[derive(Debug, Clone, Copy, PartialEq, Eq, Structural)]
pub enum Direction {
    North,
    South,
    West,
    East,
    NorthEast,
    SouthWest,
    NorthWest,
    SouthEast,
}

impl Direction {
    /// Column change of one step.
    pub open spec fn dx(self) -> int {
        match self {
            Direction::East | Direction::NorthEast | Direction::SouthEast => 1,
            Direction::West | Direction::SouthWest | Direction::NorthWest => -1,
            _ => 0,
        }
    }

    /// Row change of one step (rows grow downwards).
    pub open spec fn dy(self) -> int {
        match self {
            Direction::South | Direction::SouthWest | Direction::SouthEast => 1,
            Direction::North | Direction::NorthEast | Direction::NorthWest => -1,
            _ => 0,
        }
    }

    fn delta_x(&self) -> (r: i8)
        ensures
            r == self.dx(),
    {
        match self {
            Direction::East | Direction::NorthEast | Direction::SouthEast => 1,
            Direction::West | Direction::SouthWest | Direction::NorthWest => -1,
            _ => 0,
        }
    }

    fn delta_y(&self) -> (r: i8)
        ensures
            r == self.dy(),
    {
        match self {
            Direction::South | Direction::SouthWest | Direction::SouthEast => 1,
            Direction::North | Direction::NorthEast | Direction::NorthWest => -1,
            _ => 0,
        }
    }
}

/// The four alignment axes, each scanned in two opposite directions.
#[derive(Debug, Clone, Copy, PartialEq, Eq, Structural)]
pub enum CardinalAxis {
    NxS,
    ExW,
    NExSW,
    NWxSE,
}

impl CardinalAxis {
    /// The axes in the order in which they are scanned.
    pub open spec fn seek_order() -> Seq<CardinalAxis> {
        seq![CardinalAxis::NxS, CardinalAxis::ExW, CardinalAxis::NExSW, CardinalAxis::NWxSE]
    }

    /// The direction scanned first along the axis.
    pub open spec fn first(self) -> Direction {
        match self {
            CardinalAxis::NxS => Direction::North,
            CardinalAxis::ExW => Direction::West,
            CardinalAxis::NExSW => Direction::NorthEast,
            CardinalAxis::NWxSE => Direction::NorthWest,
        }
    }

    /// The direction scanned second, opposite to the first.
    pub open spec fn second(self) -> Direction {
        match self {
            CardinalAxis::NxS => Direction::South,
            CardinalAxis::ExW => Direction::East,
            CardinalAxis::NExSW => Direction::SouthWest,
            CardinalAxis::NWxSE => Direction::SouthEast,
        }
    }

    pub fn iter() -> (r: Vec<CardinalAxis>)
        ensures
            r@ == CardinalAxis::seek_order(),
    {
        vec![CardinalAxis::NxS, CardinalAxis::ExW, CardinalAxis::NExSW, CardinalAxis::NWxSE]
    }

    pub fn directions(&self) -> (r: (Direction, Direction))
        ensures
            r == (self.first(), self.second()),
    {
        match self {
            CardinalAxis::NxS => (Direction::North, Direction::South),
            CardinalAxis::ExW => (Direction::West, Direction::East),
            CardinalAxis::NExSW => (Direction::NorthEast, Direction::SouthWest),
            CardinalAxis::NWxSE => (Direction::NorthWest, Direction::SouthEast),
        }
    }
}

/// Whether `(x, y)` lies in a grid of `C` columns and `R` rows.
pub open spec fn in_grid<const R: usize, const C: usize>(x: int, y: int) -> bool {
    0 <= x < C as int && 0 <= y < R as int
}

/// The kind held at `(x, y)`.
pub open spec fn kind_at<const R: usize, const C: usize>(
    heap: [[Block; R]; C],
    x: int,
    y: int,
) -> Option<BlockKind> {
    heap@[x]@[y].kind
}

pub open spec fn ray_measure<const R: usize, const C: usize>(x: int, y: int, d: Direction) -> int {
    (if d.dx() > 0 {
        C as int - x
    } else if d.dx() < 0 {
        x + 1
    } else {
        0
    }) + (if d.dy() > 0 {
        R as int - y
    } else if d.dy() < 0 {
        y + 1
    } else {
        0
    })
}

/// The cells from `(x, y)` onwards in direction `d` that hold `kind`, up
/// to the first cell that does not or to the edge of the grid.
pub open spec fn ray<const R: usize, const C: usize>(
    heap: [[Block; R]; C],
    kind: Option<BlockKind>,
    x: int,
    y: int,
    d: Direction,
) -> Seq<Point>
    decreases ray_measure::<R, C>(x, y, d),
{
    if in_grid::<R, C>(x, y) && kind_at(heap, x, y) == kind {
        seq![Point { x: x as usize, y: y as usize }] + ray(heap, kind, x + d.dx(), y + d.dy(), d)
    } else {
        seq![]
    }
}

/// The neighbours of `o` along `axis` that continue its run: first those
/// in the first direction, nearest first, then those in the second.
pub open spec fn axis_run<const R: usize, const C: usize>(
    heap: [[Block; R]; C],
    o: Point,
    axis: CardinalAxis,
) -> Seq<Point> {
    let kind = kind_at(heap, o.x as int, o.y as int);
    let a = axis.first();
    let b = axis.second();
    ray(heap, kind, o.x + a.dx(), o.y + a.dy(), a) + ray(heap, kind, o.x + b.dx(), o.y + b.dy(), b)
}

/// An axis matches when the run through `o` holds three cells or more.
pub open spec fn axis_matched<const R: usize, const C: usize>(
    heap: [[Block; R]; C],
    o: Point,
    axis: CardinalAxis,
) -> bool {
    axis_run(heap, o, axis).len() >= 2
}

pub open spec fn axis_hits<const R: usize, const C: usize>(
    heap: [[Block; R]; C],
    o: Point,
    axis: CardinalAxis,
) -> Seq<Point> {
    if axis_matched(heap, o, axis) {
        axis_run(heap, o, axis)
    } else {
        seq![]
    }
}

/// The cells of the matched runs along the first `n` axes.
pub open spec fn hits_upto<const R: usize, const C: usize>(
    heap: [[Block; R]; C],
    o: Point,
    n: nat,
) -> Seq<Point>
    decreases n,
{
    if n == 0 {
        seq![]
    } else {
        hits_upto(heap, o, (n - 1) as nat) + axis_hits(
            heap,
            o,
            CardinalAxis::seek_order()[n - 1],
        )
    }
}

/// How many of the first `n` axes match.
pub open spec fn axes_upto<const R: usize, const C: usize>(
    heap: [[Block; R]; C],
    o: Point,
    n: nat,
) -> nat
    decreases n,
{
    if n == 0 {
        0
    } else {
        axes_upto(heap, o, (n - 1) as nat) + if axis_matched(
            heap,
            o,
            CardinalAxis::seek_order()[n - 1],
        ) {
            1nat
        } else {
            0nat
        }
    }
}

/// The number of axes along which `o` lies in a run of three or more.
pub open spec fn matched_axes<const R: usize, const C: usize>(
    heap: [[Block; R]; C],
    o: Point,
) -> nat {
    if kind_at(heap, o.x as int, o.y as int).is_none() {
        0
    } else {
        axes_upto(heap, o, 4)
    }
}

/// The cells matched from origin `o`: the runs of every matched axis, in
/// scanning order, followed by `o` itself; nothing when `o` is empty or
/// no axis matches.
pub open spec fn matches_at<const R: usize, const C: usize>(
    heap: [[Block; R]; C],
    o: Point,
) -> Seq<Point> {
    if kind_at(heap, o.x as int, o.y as int).is_none() {
        seq![]
    } else {
        let all = hits_upto(heap, o, 4);
        if all.len() > 0 {
            all.push(o)
        } else {
            seq![]
        }
    }
}

/// One coordinate moved by `delta`, if it stays below `bound`.
fn shift(v: usize, delta: i8, bound: usize) -> (r: Option<usize>)
    requires
        v < bound,
        -1 <= delta <= 1,
    ensures
        match r {
            Some(n) => n == v + delta && n < bound,
            None => !(0 <= v + delta < bound),
        },
{
    if delta > 0 {
        if v + 1 < bound {
            Some(v + 1)
        } else {
            None
        }
    } else if delta < 0 {
        if v > 0 {
            Some(v - 1)
        } else {
            None
        }
    } else {
        Some(v)
    }
}

/// The neighbour of `(x, y)` in direction `d`, if it lies in the grid.
fn step<const R: usize, const C: usize>(x: usize, y: usize, d: Direction) -> (r: Option<(usize, usize)>)
    requires
        x < C,
        y < R,
    ensures
        match r {
            Some((nx, ny)) => nx == x + d.dx() && ny == y + d.dy() && in_grid::<R, C>(nx as int, ny as int),
            None => !in_grid::<R, C>(x + d.dx(), y + d.dy()),
        },
{
    match shift(x, d.delta_x(), C) {
        Some(nx) => match shift(y, d.delta_y(), R) {
            Some(ny) => Some((nx, ny)),
            None => None,
        },
        None => None,
    }
}

/// Appends to `out` the cells of direction `d` from `(ox, oy)` that hold
/// the kind of `origin_item`.
pub(crate) fn scan<const R: usize, const C: usize>(
    heap: &[[Block; R]; C],
    origin_item: Block,
    ox: usize,
    oy: usize,
    d: Direction,
    out: &mut Vec<Point>,
)
    requires
        ox < C,
        oy < R,
    ensures
        final(out)@ == old(out)@ + ray(*heap, origin_item.kind, ox + d.dx(), oy + d.dy(), d),
{
    let ghost start = out@;
    let ghost full = ray(*heap, origin_item.kind, ox + d.dx(), oy + d.dy(), d);
    let mut cur = step::<R, C>(ox, oy, d);
    loop
        invariant
            match cur {
                Some((x, y)) => x < C && y < R && out@ + ray(*heap, origin_item.kind, x as int, y as int, d) == start + full,
                None => out@ == start + full,
            },
        ensures
            out@ == start + full,
        decreases
            match cur {
                Some((x, y)) => ray_measure::<R, C>(x as int, y as int, d) + 1,
                None => 0,
            },
    {
        match cur {
            None => {
                break;
            },
            Some((x, y)) => {
                let ghost rest = ray(*heap, origin_item.kind, x + d.dx(), y + d.dy(), d);
                if !heap[x][y].same_kind(&origin_item) {
                    assert(ray(*heap, origin_item.kind, x as int, y as int, d) == Seq::<Point>::empty());
                    assert(out@ =~= out@ + Seq::<Point>::empty());
                    break;
                }
                out.push(Point { x, y });
                assert(out@ + rest == start + full) by {
                    assert(ray(*heap, origin_item.kind, x as int, y as int, d) == seq![Point { x, y }] + rest);
                    assert(out@ + rest =~= (out@.drop_last() + seq![Point { x, y }]) + rest);
                }
                cur = step::<R, C>(x, y, d);
            },
        }
    }
}

/// Every cell of a ray lies in the grid and holds the ray's kind.
pub proof fn lemma_ray_cells<const R: usize, const C: usize>(
    heap: [[Block; R]; C],
    kind: Option<BlockKind>,
    x: int,
    y: int,
    d: Direction,
)
    ensures
        forall|i: int|
            #![trigger ray(heap, kind, x, y, d)[i]]
            0 <= i < ray(heap, kind, x, y, d).len() ==> {
                let p = ray(heap, kind, x, y, d)[i];
                in_grid::<R, C>(p.x as int, p.y as int) && kind_at(heap, p.x as int, p.y as int) == kind
            },
        in_grid::<R, C>(x, y) ==> ray(heap, kind, x, y, d).len() <= ray_measure::<R, C>(x, y, d),
        !in_grid::<R, C>(x, y) ==> ray(heap, kind, x, y, d).len() == 0,
        ray(heap, kind, x, y, d).len() <= R + C,
    decreases ray_measure::<R, C>(x, y, d),
{
    if in_grid::<R, C>(x, y) && kind_at(heap, x, y) == kind {
        lemma_ray_cells(heap, kind, x + d.dx(), y + d.dy(), d);
        let rest = ray(heap, kind, x + d.dx(), y + d.dy(), d);
        assert forall|i: int| 0 < i < ray(heap, kind, x, y, d).len() implies ray(heap, kind, x, y, d)[i] == rest[i - 1] by {}
    }
}

/// Every cell matched from an origin in the grid lies in the grid.
pub proof fn lemma_matches_in_grid<const R: usize, const C: usize>(heap: [[Block; R]; C], o: Point)
    requires
        in_grid::<R, C>(o.x as int, o.y as int),
    ensures
        forall|i: int|
            #![trigger matches_at(heap, o)[i]]
            0 <= i < matches_at(heap, o).len() ==> in_grid::<R, C>(
                matches_at(heap, o)[i].x as int,
                matches_at(heap, o)[i].y as int,
            ),
        matches_at(heap, o).len() <= 8 * (R + C) + 1,
{
    let kind = kind_at(heap, o.x as int, o.y as int);
    assert forall|n: nat| n <= 4 implies {
        &&& forall|i: int|
            0 <= i < hits_upto(heap, o, n).len() ==> #[trigger] in_grid::<R, C>(
                hits_upto(heap, o, n)[i].x as int,
                hits_upto(heap, o, n)[i].y as int,
            )
        &&& hits_upto(heap, o, n).len() <= 2 * n * (R + C)
    } by {
        lemma_hits_in_grid(heap, o, n);
    }
}

proof fn lemma_hits_in_grid<const R: usize, const C: usize>(heap: [[Block; R]; C], o: Point, n: nat)
    requires
        in_grid::<R, C>(o.x as int, o.y as int),
        n <= 4,
    ensures
        forall|i: int|
            0 <= i < hits_upto(heap, o, n).len() ==> #[trigger] in_grid::<R, C>(
                hits_upto(heap, o, n)[i].x as int,
                hits_upto(heap, o, n)[i].y as int,
            ),
        hits_upto(heap, o, n).len() <= 2 * n * (R + C),
    decreases n,
{
    if n > 0 {
        lemma_hits_in_grid(heap, o, (n - 1) as nat);
        let axis = CardinalAxis::seek_order()[n - 1];
        let kind = kind_at(heap, o.x as int, o.y as int);
        let a = axis.first();
        let b = axis.second();
        lemma_ray_cells(heap, kind, o.x + a.dx(), o.y + a.dy(), a);
        lemma_ray_cells(heap, kind, o.x + b.dx(), o.y + b.dy(), b);
        let ra = ray(heap, kind, o.x + a.dx(), o.y + a.dy(), a);
        let rb = ray(heap, kind, o.x + b.dx(), o.y + b.dy(), b);
        let prev = hits_upto(heap, o, (n - 1) as nat);
        let h = axis_hits(heap, o, axis);
        assert(hits_upto(heap, o, n) == prev + h);
        assert forall|i: int| 0 <= i < h.len() implies #[trigger] in_grid::<R, C>(h[i].x as int, h[i].y as int) by {
            if i < ra.len() {
                assert(h[i] == ra[i]);
            } else {
                assert(h[i] == rb[i - ra.len()]);
            }
        }
        assert forall|i: int| 0 <= i < hits_upto(heap, o, n).len() implies #[trigger] in_grid::<R, C>(
            hits_upto(heap, o, n)[i].x as int,
            hits_upto(heap, o, n)[i].y as int,
        ) by {
            if i < prev.len() {
                assert(hits_upto(heap, o, n)[i] == prev[i]);
            } else {
                assert(hits_upto(heap, o, n)[i] == h[i - prev.len()]);
            }
        }
        assert(2 * n * (R + C) == 2 * (n - 1) * (R + C) + 2 * (R + C)) by (nonlinear_arith);
    }
}

/// `acc` followed by the items of `s` that are not already there, in order.
pub open spec fn add_new(acc: Seq<Point>, s: Seq<Point>) -> Seq<Point>
    decreases s.len(),
{
    if s.len() == 0 {
        acc
    } else {
        let a = add_new(acc, s.drop_last());
        if a.contains(s.last()) {
            a
        } else {
            a.push(s.last())
        }
    }
}

/// The union of the cells matched from each origin, in order of first
/// appearance, each once.
pub open spec fn collect_matching<const R: usize, const C: usize>(
    heap: [[Block; R]; C],
    origins: Seq<Point>,
) -> Seq<Point>
    decreases origins.len(),
{
    if origins.len() == 0 {
        seq![]
    } else {
        add_new(collect_matching(heap, origins.drop_last()), matches_at(heap, origins.last()))
    }
}

/// Points added for the cells of a pass: each origin earns its number of
/// matched axes times the multiplier for every cell that it is the first
/// to match.
pub open spec fn matching_score<const R: usize, const C: usize>(
    heap: [[Block; R]; C],
    origins: Seq<Point>,
) -> int
    decreases origins.len(),
{
    if origins.len() == 0 {
        0
    } else {
        let prev = collect_matching(heap, origins.drop_last());
        matching_score(heap, origins.drop_last()) + matched_axes(heap, origins.last()) * PitState::SCORE_MUL * (
        collect_matching(heap, origins).len() - prev.len())
    }
}

/// `add_new` only appends, never more than it is given, keeps its items
/// distinct, and holds exactly the items of both sequences.
pub proof fn lemma_add_new(acc: Seq<Point>, s: Seq<Point>)
    ensures
        add_new(acc, s).len() <= acc.len() + s.len(),
        acc.len() <= add_new(acc, s).len(),
        add_new(acc, s).subrange(0, acc.len() as int) == acc,
        acc.no_duplicates() ==> add_new(acc, s).no_duplicates(),
        forall|p: Point| #[trigger] add_new(acc, s).contains(p) <==> (acc.contains(p) || s.contains(p)),
    decreases s.len(),
{
    if s.len() > 0 {
        lemma_add_new(acc, s.drop_last());
        let a = add_new(acc, s.drop_last());
        assert forall|p: Point| #[trigger] add_new(acc, s).contains(p) <==> (acc.contains(p) || s.contains(p)) by {
            if s.drop_last().contains(p) {
                let k = choose|k: int| 0 <= k < s.drop_last().len() && s.drop_last()[k] == p;
                assert(s[k] == p);
            }
            if s.contains(p) && p != s.last() {
                let k = choose|k: int| 0 <= k < s.len() && s[k] == p;
                assert(s.drop_last()[k] == p);
            }
            if !a.contains(s.last()) {
                assert(a.push(s.last())[a.len() as int] == s.last());
                if a.contains(p) {
                    let k = choose|k: int| 0 <= k < a.len() && a[k] == p;
                    assert(a.push(s.last())[k] == p);
                }
                if a.push(s.last()).contains(p) && p != s.last() {
                    let k = choose|k: int| 0 <= k < a.len() + 1 && a.push(s.last())[k] == p;
                    assert(a[k] == p);
                }
            }
        }
        assert(add_new(acc, s).subrange(0, acc.len() as int) =~= acc) by {
            assert(a.subrange(0, acc.len() as int) == acc);
            if !a.contains(s.last()) {
                assert forall|i: int| 0 <= i < acc.len() implies a.push(s.last())[i] == a[i] by {}
            }
        }
    }
}

/// `add_new` over a prefix of `s` yields a prefix of `add_new` over `s`.
pub proof fn lemma_add_new_prefix(acc: Seq<Point>, s: Seq<Point>, j: int)
    requires
        0 <= j <= s.len(),
    ensures
        add_new(acc, s.take(j)).len() <= add_new(acc, s).len(),
    decreases s.len() - j,
{
    if j < s.len() {
        lemma_add_new_prefix(acc, s, j + 1);
        assert(s.take(j + 1).drop_last() =~= s.take(j));
    } else {
        assert(s.take(j) =~= s);
    }
}

/// The score of a prefix of the origins is at most that of all of them,
/// and each origin's share is the difference of the collected lengths.
pub proof fn lemma_matching_score_prefix<const R: usize, const C: usize>(
    heap: [[Block; R]; C],
    origins: Seq<Point>,
    i: int,
)
    requires
        0 <= i <= origins.len(),
    ensures
        0 <= matching_score(heap, origins.take(i)) <= matching_score(heap, origins),
    decreases origins.len() - i,
{
    if i < origins.len() {
        lemma_matching_score_prefix(heap, origins, i + 1);
        let t = origins.take(i + 1);
        assert(t.drop_last() =~= origins.take(i));
        let prev = collect_matching(heap, origins.take(i));
        lemma_add_new(prev, matches_at(heap, t.last()));
        let diff = collect_matching(heap, t).len() - prev.len();
        let axes = matched_axes(heap, t.last());
        assert(axes * 10 * diff >= 0) by (nonlinear_arith)
            requires
                diff >= 0,
                axes >= 0,
        ;
        lemma_matching_score_nonneg(heap, origins.take(i));
        assert(matching_score(heap, t) == matching_score(heap, origins.take(i)) + axes * 10 * diff);
    } else {
        assert(origins.take(i) =~= origins);
        lemma_matching_score_nonneg(heap, origins);
    }
}

proof fn lemma_matching_score_nonneg<const R: usize, const C: usize>(heap: [[Block; R]; C], origins: Seq<Point>)
    ensures
        0 <= matching_score(heap, origins),
    decreases origins.len(),
{
    if origins.len() > 0 {
        lemma_matching_score_nonneg(heap, origins.drop_last());
        let prev = collect_matching(heap, origins.drop_last());
        lemma_add_new(prev, matches_at(heap, origins.last()));
        let diff = collect_matching(heap, origins).len() - prev.len();
        let axes = matched_axes(heap, origins.last());
        assert(axes * 10 * diff >= 0) by (nonlinear_arith)
            requires
                diff >= 0,
                axes >= 0,
        ;
    }
}

/// At most four axes match.
pub proof fn lemma_axes_bound<const R: usize, const C: usize>(heap: [[Block; R]; C], o: Point, n: nat)
    ensures
        axes_upto(heap, o, n) <= n,
    decreases n,
{
    if n > 0 {
        lemma_axes_bound(heap, o, (n - 1) as nat);
    }
}

/// What one pass can add, in score and in cells, grows at most linearly
/// with the number of origins.
pub proof fn lemma_pass_bounds<const R: usize, const C: usize>(heap: [[Block; R]; C], origins: Seq<Point>)
    requires
        forall|i: int| 0 <= i < origins.len() ==> #[trigger] in_grid::<R, C>(origins[i].x as int, origins[i].y as int),
    ensures
        collect_matching(heap, origins).len() <= (8 * (R + C) + 1) * origins.len(),
        matching_score(heap, origins) <= 40 * (8 * (R + C) + 1) * origins.len(),
        forall|k: int| 0 <= k < collect_matching(heap, origins).len() ==> #[trigger] in_grid::<R, C>(
            collect_matching(heap, origins)[k].x as int,
            collect_matching(heap, origins)[k].y as int,
        ),
    decreases origins.len(),
{
    if origins.len() > 0 {
        let init = origins.drop_last();
        let o = origins.last();
        assert(in_grid::<R, C>(origins[origins.len() - 1].x as int, origins[origins.len() - 1].y as int));
        lemma_pass_bounds(heap, init);
        let prev = collect_matching(heap, init);
        let m = matches_at(heap, o);
        lemma_matches_in_grid(heap, o);
        lemma_add_new(prev, m);
        lemma_axes_bound(heap, o, 4);
        let k = 8 * (R + C) + 1;
        let diff = collect_matching(heap, origins).len() - prev.len();
        let axes = matched_axes(heap, o);
        assert(diff <= k);
        assert(axes <= 4);
        assert(axes * 10 * diff <= 40 * k) by (nonlinear_arith)
            requires
                0 <= diff <= k,
                0 <= axes <= 4,
        ;
        assert(k * init.len() + k == k * origins.len()) by (nonlinear_arith)
            requires
                origins.len() == init.len() + 1,
        ;
        assert(40 * k * init.len() + 40 * k == 40 * k * origins.len()) by (nonlinear_arith)
            requires
                origins.len() == init.len() + 1,
        ;
        let all = collect_matching(heap, origins);
        assert forall|j: int| 0 <= j < all.len() implies #[trigger] in_grid::<R, C>(all[j].x as int, all[j].y as int) by {
            assert(all.contains(all[j]));
            if prev.contains(all[j]) {
                let i = choose|i: int| 0 <= i < prev.len() && prev[i] == all[j];
                assert(in_grid::<R, C>(prev[i].x as int, prev[i].y as int));
            } else {
                let i = choose|i: int| 0 <= i < m.len() && m[i] == all[j];
                assert(in_grid::<R, C>(m[i].x as int, m[i].y as int));
            }
        }
    }
}

/// The cell `k` steps from `o` in direction `d` lies in the grid and holds
/// the kind of `o`.
pub open spec fn run_cell<const R: usize, const C: usize>(
    heap: [[Block; R]; C],
    o: Point,
    d: Direction,
    k: int,
) -> bool {
    let x = o.x + k * d.dx();
    let y = o.y + k * d.dy();
    in_grid::<R, C>(x, y) && kind_at(heap, x, y) == kind_at(heap, o.x as int, o.y as int)
}

pub open spec fn cell_at(o: Point, d: Direction, k: int) -> Point {
    Point { x: (o.x + k * d.dx()) as usize, y: (o.y + k * d.dy()) as usize }
}

/// A run of exactly three cells of one kind along an axis, with the origin
/// `na` cells from its end in the axis's first direction, matches along
/// that axis, with exactly the two other cells of the run, and every cell
/// of the run is among the cells matched from the origin.
pub proof fn lemma_run_of_three<const R: usize, const C: usize>(
    heap: [[Block; R]; C],
    o: Point,
    axis: CardinalAxis,
    na: int,
)
    requires
        in_grid::<R, C>(o.x as int, o.y as int),
        kind_at(heap, o.x as int, o.y as int).is_some(),
        0 <= na <= 2,
        na >= 1 ==> run_cell(heap, o, axis.first(), 1),
        na >= 2 ==> run_cell(heap, o, axis.first(), 2),
        !run_cell(heap, o, axis.first(), na + 1),
        2 - na >= 1 ==> run_cell(heap, o, axis.second(), 1),
        2 - na >= 2 ==> run_cell(heap, o, axis.second(), 2),
        !run_cell(heap, o, axis.second(), 3 - na),
    ensures
        axis_matched(heap, o, axis),
        axis_run(heap, o, axis).len() == 2,
        na >= 1 ==> matches_at(heap, o).contains(cell_at(o, axis.first(), 1)),
        na >= 2 ==> matches_at(heap, o).contains(cell_at(o, axis.first(), 2)),
        2 - na >= 1 ==> matches_at(heap, o).contains(cell_at(o, axis.second(), 1)),
        2 - na >= 2 ==> matches_at(heap, o).contains(cell_at(o, axis.second(), 2)),
        matches_at(heap, o).contains(o),
{
    let kind = kind_at(heap, o.x as int, o.y as int);
    let a = axis.first();
    let b = axis.second();
    lemma_ray_run(heap, o, a, na);
    lemma_ray_run(heap, o, b, 2 - na);
    let ra = ray(heap, kind, o.x + a.dx(), o.y + a.dy(), a);
    let rb = ray(heap, kind, o.x + b.dx(), o.y + b.dy(), b);
    let run = axis_run(heap, o, axis);
    assert(run == ra + rb);
    // the run's cells sit among the hits of all four axes
    let i = if axis == CardinalAxis::NxS { 0int } else if axis == CardinalAxis::ExW { 1 } else if axis == CardinalAxis::NExSW { 2 } else { 3 };
    assert(CardinalAxis::seek_order()[i] == axis);
    lemma_hits_contain(heap, o, axis, i);
    let all = hits_upto(heap, o, 4);
    assert(all.len() > 0);
    let m = matches_at(heap, o);
    assert(m == all.push(o));
    assert(m[all.len() as int] == o);
    assert forall|q: Point| run.contains(q) implies m.contains(q) by {
        let k = choose|k: int| 0 <= k < run.len() && run[k] == q;
        assert(all.contains(q));
        let j = choose|j: int| 0 <= j < all.len() && all[j] == q;
        assert(m[j] == q);
    }
    if na >= 1 {
        assert(run[0] == cell_at(o, a, 1));
        assert(run.contains(cell_at(o, a, 1)));
    }
    if na >= 2 {
        assert(run[1] == cell_at(o, a, 2));
        assert(run.contains(cell_at(o, a, 2)));
    }
    if 2 - na >= 1 {
        assert(run[na] == cell_at(o, b, 1));
        assert(run.contains(cell_at(o, b, 1)));
    }
    if 2 - na >= 2 {
        assert(run[na + 1] == cell_at(o, b, 2));
        assert(run.contains(cell_at(o, b, 2)));
    }
}

/// Neither neighbour of `o` along `axis` holds the kind of `o`.
pub open spec fn no_neighbour_along<const R: usize, const C: usize>(heap: [[Block; R]; C], o: Point, axis: CardinalAxis) -> bool {
    !run_cell(heap, o, axis.first(), 1) && !run_cell(heap, o, axis.second(), 1)
}

/// A run of exactly three cells along an axis, with no other neighbour of
/// the origin's kind along the other three axes: the origin matches along
/// exactly one axis, and exactly three cells, which are the run's cells
/// (stated by `lemma_run_of_three`).
pub proof fn lemma_run_of_three_alone<const R: usize, const C: usize>(
    heap: [[Block; R]; C],
    o: Point,
    axis: CardinalAxis,
    na: int,
)
    requires
        in_grid::<R, C>(o.x as int, o.y as int),
        kind_at(heap, o.x as int, o.y as int).is_some(),
        0 <= na <= 2,
        na >= 1 ==> run_cell(heap, o, axis.first(), 1),
        na >= 2 ==> run_cell(heap, o, axis.first(), 2),
        !run_cell(heap, o, axis.first(), na + 1),
        2 - na >= 1 ==> run_cell(heap, o, axis.second(), 1),
        2 - na >= 2 ==> run_cell(heap, o, axis.second(), 2),
        !run_cell(heap, o, axis.second(), 3 - na),
        forall|other: CardinalAxis| other != axis ==> #[trigger] no_neighbour_along(heap, o, other),
    ensures
        matched_axes(heap, o) == 1,
        matches_at(heap, o).len() == 3,
{
    lemma_run_of_three(heap, o, axis, na);
    lemma_other_axes_unmatched(heap, o, axis);
    let order = CardinalAxis::seek_order();
    assert(hits_upto(heap, o, 4) == hits_upto(heap, o, 3) + axis_hits(heap, o, order[3]));
    assert(hits_upto(heap, o, 3) == hits_upto(heap, o, 2) + axis_hits(heap, o, order[2]));
    assert(hits_upto(heap, o, 2) == hits_upto(heap, o, 1) + axis_hits(heap, o, order[1]));
    assert(hits_upto(heap, o, 1) == hits_upto(heap, o, 0) + axis_hits(heap, o, order[0]));
    assert(hits_upto(heap, o, 4).len() == 2);
    assert(axes_upto(heap, o, 4) == axes_upto(heap, o, 3) + if axis_matched(heap, o, order[3]) { 1nat } else { 0nat });
    assert(axes_upto(heap, o, 3) == axes_upto(heap, o, 2) + if axis_matched(heap, o, order[2]) { 1nat } else { 0nat });
    assert(axes_upto(heap, o, 2) == axes_upto(heap, o, 1) + if axis_matched(heap, o, order[1]) { 1nat } else { 0nat });
    assert(axes_upto(heap, o, 1) == axes_upto(heap, o, 0) + if axis_matched(heap, o, order[0]) { 1nat } else { 0nat });
    assert(axes_upto(heap, o, 4) == 1);
}

proof fn lemma_other_axes_unmatched<const R: usize, const C: usize>(heap: [[Block; R]; C], o: Point, axis: CardinalAxis)
    requires
        forall|other: CardinalAxis| other != axis ==> #[trigger] no_neighbour_along(heap, o, other),
    ensures
        forall|other: CardinalAxis| other != axis ==> #[trigger] axis_hits(heap, o, other).len() == 0 && !axis_matched(heap, o, other),
{
    let kind = kind_at(heap, o.x as int, o.y as int);
    assert forall|other: CardinalAxis| other != axis implies axis_hits(heap, o, other).len() == 0 && !axis_matched(heap, o, other) by {
        let a = other.first();
        let b = other.second();
        assert(no_neighbour_along(heap, o, other));
        assert(o.x + 1 * a.dx() == o.x + a.dx() && o.y + 1 * a.dy() == o.y + a.dy());
        assert(o.x + 1 * b.dx() == o.x + b.dx() && o.y + 1 * b.dy() == o.y + b.dy());
        assert(ray(heap, kind, o.x + a.dx(), o.y + a.dy(), a).len() == 0);
        assert(ray(heap, kind, o.x + b.dx(), o.y + b.dy(), b).len() == 0);
    }
}

/// A ray from `o` in direction `d` over exactly `n` cells of `o`'s kind
/// (at most two) lists those cells, nearest first.
proof fn lemma_ray_run<const R: usize, const C: usize>(heap: [[Block; R]; C], o: Point, d: Direction, n: int)
    requires
        in_grid::<R, C>(o.x as int, o.y as int),
        0 <= n <= 2,
        n >= 1 ==> run_cell(heap, o, d, 1),
        n >= 2 ==> run_cell(heap, o, d, 2),
        !run_cell(heap, o, d, n + 1),
    ensures
        ray(heap, kind_at(heap, o.x as int, o.y as int), o.x + d.dx(), o.y + d.dy(), d).len() == n,
        n >= 1 ==> ray(heap, kind_at(heap, o.x as int, o.y as int), o.x + d.dx(), o.y + d.dy(), d)[0] == cell_at(o, d, 1),
        n >= 2 ==> ray(heap, kind_at(heap, o.x as int, o.y as int), o.x + d.dx(), o.y + d.dy(), d)[1] == cell_at(o, d, 2),
{
    let kind = kind_at(heap, o.x as int, o.y as int);
    let x1 = o.x + d.dx();
    let y1 = o.y + d.dy();
    let x2 = x1 + d.dx();
    let y2 = y1 + d.dy();
    let x3 = x2 + d.dx();
    let y3 = y2 + d.dy();
    assert(o.x + 1 * d.dx() == x1 && o.y + 1 * d.dy() == y1);
    assert(o.x + 2 * d.dx() == x2 && o.y + 2 * d.dy() == y2);
    assert(o.x + 3 * d.dx() == x3 && o.y + 3 * d.dy() == y3);
    if n == 0 {
        assert(ray(heap, kind, x1, y1, d) == Seq::<Point>::empty());
    } else if n == 1 {
        assert(ray(heap, kind, x2, y2, d) == Seq::<Point>::empty());
        assert(ray(heap, kind, x1, y1, d) == seq![cell_at(o, d, 1)] + ray(heap, kind, x2, y2, d));
    } else {
        assert(ray(heap, kind, x3, y3, d) == Seq::<Point>::empty());
        assert(ray(heap, kind, x2, y2, d) == seq![cell_at(o, d, 2)] + ray(heap, kind, x3, y3, d));
        assert(ray(heap, kind, x1, y1, d) == seq![cell_at(o, d, 1)] + ray(heap, kind, x2, y2, d));
    }
}

/// The hits of the axis at position `i` of the scanning order are among
/// the hits of all four axes.
proof fn lemma_hits_contain<const R: usize, const C: usize>(heap: [[Block; R]; C], o: Point, axis: CardinalAxis, i: int)
    requires
        0 <= i < 4,
        CardinalAxis::seek_order()[i] == axis,
    ensures
        forall|q: Point| axis_hits(heap, o, axis).contains(q) ==> #[trigger] hits_upto(heap, o, 4).contains(q),
        axis_hits(heap, o, axis).len() > 0 ==> hits_upto(heap, o, 4).len() > 0,
{
    assert forall|q: Point| axis_hits(heap, o, axis).contains(q) implies #[trigger] hits_upto(heap, o, 4).contains(q) by {
        let h = axis_hits(heap, o, axis);
        let prev = hits_upto(heap, o, i as nat);
        let k = choose|k: int| 0 <= k < h.len() && h[k] == q;
        assert(hits_upto(heap, o, (i + 1) as nat) == prev + h);
        assert((prev + h)[prev.len() + k] == q);
        assert(hits_upto(heap, o, (i + 1) as nat).contains(q));
        lemma_hits_upto_grows(heap, o, (i + 1) as nat, q);
    }
    if axis_hits(heap, o, axis).len() > 0 {
        let q = axis_hits(heap, o, axis)[0];
        assert(axis_hits(heap, o, axis).contains(q));
        assert(hits_upto(heap, o, 4).contains(q));
    }
}

proof fn lemma_hits_upto_grows<const R: usize, const C: usize>(heap: [[Block; R]; C], o: Point, n: nat, q: Point)
    requires
        n <= 4,
        hits_upto(heap, o, n).contains(q),
    ensures
        hits_upto(heap, o, 4).contains(q),
    decreases 4 - n,
{
    if n < 4 {
        let cur = hits_upto(heap, o, n);
        let next = hits_upto(heap, o, n + 1);
        let k = choose|k: int| 0 <= k < cur.len() && cur[k] == q;
        assert(next == cur + axis_hits(heap, o, CardinalAxis::seek_order()[n as int]));
        assert(next[k] == q);
        lemma_hits_upto_grows(heap, o, n + 1, q);
    }
}

/// A cell whose run along every axis, itself included, is shorter than
/// three: it has no two neighbours of its own kind along any axis.
pub open spec fn lone<const R: usize, const C: usize>(heap: [[Block; R]; C], p: Point) -> bool {
    in_grid::<R, C>(p.x as int, p.y as int) && forall|a: CardinalAxis| #[trigger] axis_run(heap, p, a).len() < 2
}

/// A ray starts where it is asked to and each of its cells is one step on
/// from the one before.
proof fn lemma_ray_links<const R: usize, const C: usize>(
    heap: [[Block; R]; C],
    kind: Option<BlockKind>,
    x: int,
    y: int,
    d: Direction,
)
    ensures
        ray(heap, kind, x, y, d).len() > 0 ==> ray(heap, kind, x, y, d)[0] == (Point { x: x as usize, y: y as usize })
            && in_grid::<R, C>(x, y),
        forall|i: int|
            #![trigger ray(heap, kind, x, y, d)[i]]
            0 < i < ray(heap, kind, x, y, d).len() ==> ray(heap, kind, x, y, d)[i].x == ray(heap, kind, x, y, d)[i
                - 1].x + d.dx() && ray(heap, kind, x, y, d)[i].y == ray(heap, kind, x, y, d)[i - 1].y + d.dy(),
    decreases ray_measure::<R, C>(x, y, d),
{
    if in_grid::<R, C>(x, y) && kind_at(heap, x, y) == kind {
        lemma_ray_links(heap, kind, x + d.dx(), y + d.dy(), d);
        let r = ray(heap, kind, x, y, d);
        let rest = ray(heap, kind, x + d.dx(), y + d.dy(), d);
        assert(r[0] == Point { x: x as usize, y: y as usize });
        assert forall|i: int| 0 < i < r.len() implies #[trigger] r[i].x == r[i - 1].x + d.dx() && r[i].y == r[i - 1].y + d.dy() by {
            assert(r[i] == rest[i - 1]);
            assert(r[i] == rest[i - 1]);
            if i > 1 {
                assert(r[i - 1] == rest[i - 2]);
            } else {
                assert(rest[0] == Point { x: (x + d.dx()) as usize, y: (y + d.dy()) as usize });
                assert(in_grid::<R, C>(x + d.dx(), y + d.dy()));
            }
        }
    }
}

/// The ray from a cell of a ray onwards is what is left of that ray.
proof fn lemma_ray_suffix<const R: usize, const C: usize>(
    heap: [[Block; R]; C],
    kind: Option<BlockKind>,
    x: int,
    y: int,
    d: Direction,
    i: int,
)
    requires
        0 <= i < ray(heap, kind, x, y, d).len(),
    ensures
        ray(heap, kind, ray(heap, kind, x, y, d)[i].x + d.dx(), ray(heap, kind, x, y, d)[i].y + d.dy(), d).len()
            == ray(heap, kind, x, y, d).len() - i - 1,
    decreases i,
{
    let r = ray(heap, kind, x, y, d);
    let rest = ray(heap, kind, x + d.dx(), y + d.dy(), d);
    lemma_ray_links(heap, kind, x, y, d);
    assert(r == seq![Point { x: x as usize, y: y as usize }] + rest);
    if i > 0 {
        assert(r[i] == rest[i - 1]);
        lemma_ray_suffix(heap, kind, x + d.dx(), y + d.dy(), d, i - 1);
    }
}

/// Looking back from the `i`-th cell of the ray from `o` in direction
/// `d1`, the ray in the opposite direction `d2` passes the cells before it
/// and `o`, then the whole ray from `o` in direction `d2`.
proof fn lemma_ray_back<const R: usize, const C: usize>(
    heap: [[Block; R]; C],
    o: Point,
    d1: Direction,
    d2: Direction,
    i: int,
)
    requires
        in_grid::<R, C>(o.x as int, o.y as int),
        d2.dx() == -d1.dx(),
        d2.dy() == -d1.dy(),
        0 <= i < ray(heap, kind_at(heap, o.x as int, o.y as int), o.x + d1.dx(), o.y + d1.dy(), d1).len(),
    ensures
        ({
            let kind = kind_at(heap, o.x as int, o.y as int);
            let r1 = ray(heap, kind, o.x + d1.dx(), o.y + d1.dy(), d1);
            let r2 = ray(heap, kind, o.x + d2.dx(), o.y + d2.dy(), d2);
            ray(heap, kind, r1[i].x + d2.dx(), r1[i].y + d2.dy(), d2).len() >= i + 1 + r2.len()
        }),
    decreases i,
{
    let kind = kind_at(heap, o.x as int, o.y as int);
    let r1 = ray(heap, kind, o.x + d1.dx(), o.y + d1.dy(), d1);
    lemma_ray_links(heap, kind, o.x + d1.dx(), o.y + d1.dy(), d1);
    lemma_ray_cells(heap, kind, o.x + d1.dx(), o.y + d1.dy(), d1);
    if i == 0 {
        assert(r1[0].x + d2.dx() == o.x && r1[0].y + d2.dy() == o.y);
        assert(ray(heap, kind, o.x as int, o.y as int, d2) == seq![o] + ray(heap, kind, o.x + d2.dx(), o.y + d2.dy(), d2));
    } else {
        lemma_ray_back(heap, o, d1, d2, i - 1);
        let q = r1[i - 1];
        assert(in_grid::<R, C>(q.x as int, q.y as int) && kind_at(heap, q.x as int, q.y as int) == kind);
        assert(r1[i].x + d2.dx() == q.x && r1[i].y + d2.dy() == q.y);
        assert(ray(heap, kind, q.x as int, q.y as int, d2) == seq![q] + ray(heap, kind, q.x + d2.dx(), q.y + d2.dy(), d2));
    }
}

/// A cell on the ray from `o` in direction `d1` lies in a run along the
/// axis that is at least as long as the run through `o`.
proof fn lemma_run_through<const R: usize, const C: usize>(
    heap: [[Block; R]; C],
    o: Point,
    d1: Direction,
    d2: Direction,
    i: int,
)
    requires
        in_grid::<R, C>(o.x as int, o.y as int),
        d2.dx() == -d1.dx(),
        d2.dy() == -d1.dy(),
        0 <= i < ray(heap, kind_at(heap, o.x as int, o.y as int), o.x + d1.dx(), o.y + d1.dy(), d1).len(),
    ensures
        ({
            let kind = kind_at(heap, o.x as int, o.y as int);
            let r1 = ray(heap, kind, o.x + d1.dx(), o.y + d1.dy(), d1);
            let r2 = ray(heap, kind, o.x + d2.dx(), o.y + d2.dy(), d2);
            let p = r1[i];
            &&& kind_at(heap, p.x as int, p.y as int) == kind
            &&& ray(heap, kind, p.x + d1.dx(), p.y + d1.dy(), d1).len() + ray(heap, kind, p.x + d2.dx(), p.y + d2.dy(), d2).len()
                >= r1.len() + r2.len()
        }),
{
    let kind = kind_at(heap, o.x as int, o.y as int);
    lemma_ray_cells(heap, kind, o.x + d1.dx(), o.y + d1.dy(), d1);
    lemma_ray_suffix(heap, kind, o.x + d1.dx(), o.y + d1.dy(), d1, i);
    lemma_ray_back(heap, o, d1, d2, i);
}

/// A cell matched from an origin holds the origin's kind and lies in a run
/// of three or more cells of that kind along some axis.
pub proof fn lemma_matched_in_run<const R: usize, const C: usize>(heap: [[Block; R]; C], o: Point, p: Point)
    requires
        in_grid::<R, C>(o.x as int, o.y as int),
        matches_at(heap, o).contains(p),
    ensures
        kind_at(heap, p.x as int, p.y as int) == kind_at(heap, o.x as int, o.y as int),
        kind_at(heap, o.x as int, o.y as int).is_some(),
        exists|a: CardinalAxis| #[trigger] axis_run(heap, p, a).len() >= 2,
        !lone(heap, p),
{
    let kind = kind_at(heap, o.x as int, o.y as int);
    let all = hits_upto(heap, o, 4);
    let m = matches_at(heap, o);
    let j = choose|j: int| 0 <= j < m.len() && m[j] == p;
    if j < all.len() {
        assert(all.contains(p));
        let axis = lemma_hit_axis(heap, o, 4, p);
        let a = axis.first();
        let b = axis.second();
        let ra = ray(heap, kind, o.x + a.dx(), o.y + a.dy(), a);
        let rb = ray(heap, kind, o.x + b.dx(), o.y + b.dy(), b);
        let run = axis_run(heap, o, axis);
        let k = choose|k: int| 0 <= k < run.len() && run[k] == p;
        if k < ra.len() {
            assert(ra[k] == p);
            lemma_run_through(heap, o, a, b, k);
        } else {
            assert(rb[k - ra.len()] == p);
            lemma_run_through(heap, o, b, a, k - ra.len());
        }
        assert(axis_run(heap, p, axis).len() >= 2);
    } else {
        assert(p == o);
        let axis = lemma_hit_axis(heap, o, 4, all[0]);
        assert(axis_run(heap, p, axis).len() >= 2);
    }
}


/// A cell among the hits of the first `n` axes lies in the run of a
/// matched axis.
proof fn lemma_hit_axis<const R: usize, const C: usize>(heap: [[Block; R]; C], o: Point, n: nat, q: Point) -> (axis: CardinalAxis)
    requires
        n <= 4,
        hits_upto(heap, o, n).contains(q),
    ensures
        axis_matched(heap, o, axis),
        axis_run(heap, o, axis).contains(q),
    decreases n,
{
    let cur = hits_upto(heap, o, n);
    let k = choose|k: int| 0 <= k < cur.len() && cur[k] == q;
    let prev = hits_upto(heap, o, (n - 1) as nat);
    let ax = CardinalAxis::seek_order()[n - 1];
    let h = axis_hits(heap, o, ax);
    assert(cur == prev + h);
    if k < prev.len() {
        assert(prev[k] == q);
        assert(prev.contains(q));
        lemma_hit_axis(heap, o, (n - 1) as nat, q)
    } else {
        assert(h[k - prev.len()] == q);
        assert(axis_run(heap, o, ax)[k - prev.len()] == q);
        ax
    }
}

/// The cells collected in a pass are exactly those matched from any of its
/// origins.
pub proof fn lemma_collect_members<const R: usize, const C: usize>(heap: [[Block; R]; C], origins: Seq<Point>, q: Point)
    ensures
        collect_matching(heap, origins).contains(q) <==> exists|i: int|
            0 <= i < origins.len() && #[trigger] matches_at(heap, origins[i]).contains(q),
        collect_matching(heap, origins).no_duplicates(),
    decreases origins.len(),
{
    if origins.len() > 0 {
        let init = origins.drop_last();
        lemma_collect_members(heap, init, q);
        lemma_add_new(collect_matching(heap, init), matches_at(heap, origins.last()));
        if exists|i: int| 0 <= i < origins.len() && #[trigger] matches_at(heap, origins[i]).contains(q) {
            let i = choose|i: int| 0 <= i < origins.len() && #[trigger] matches_at(heap, origins[i]).contains(q);
            if i < init.len() {
                assert(init[i] == origins[i]);
            }
        }
        if exists|i: int| 0 <= i < init.len() && #[trigger] matches_at(heap, init[i]).contains(q) {
            let i = choose|i: int| 0 <= i < init.len() && #[trigger] matches_at(heap, init[i]).contains(q);
            assert(init[i] == origins[i]);
        }
    }
}

/// A cell with no two neighbours of its kind along any axis is never
/// matched, from whichever origins.
pub proof fn lemma_lone_cell_never_matched<const R: usize, const C: usize>(
    heap: [[Block; R]; C],
    origins: Seq<Point>,
    p: Point,
)
    requires
        lone(heap, p),
        forall|i: int| 0 <= i < origins.len() ==> #[trigger] in_grid::<R, C>(origins[i].x as int, origins[i].y as int),
    ensures
        !collect_matching(heap, origins).contains(p),
        forall|i: int| 0 <= i < origins.len() ==> !#[trigger] matches_at(heap, origins[i]).contains(p),
{
    assert forall|i: int| 0 <= i < origins.len() implies !#[trigger] matches_at(heap, origins[i]).contains(p) by {
        if matches_at(heap, origins[i]).contains(p) {
            lemma_matched_in_run(heap, origins[i], p);
        }
    }
    lemma_collect_members(heap, origins, p);
}

/// Scoring of a pass: an origin added to a pass adds to its cells those it
/// matches that were not collected yet, and adds to its score its number
/// of matched axes times the multiplier for each of them.
pub proof fn lemma_pass_score<const R: usize, const C: usize>(heap: [[Block; R]; C], origins: Seq<Point>, o: Point)
    ensures
        ({
            let prev = collect_matching(heap, origins);
            let fresh = matches_at(heap, o).to_set().difference(prev.to_set());
            &&& collect_matching(heap, origins.push(o)).len() == prev.len() + fresh.len()
            &&& matching_score(heap, origins.push(o)) == matching_score(heap, origins) + matched_axes(heap, o)
                * PitState::SCORE_MUL * fresh.len()
        }),
{
    let prev = collect_matching(heap, origins);
    let m = matches_at(heap, o);
    let fresh = m.to_set().difference(prev.to_set());
    let all = collect_matching(heap, origins.push(o));
    assert(origins.push(o).drop_last() =~= origins);
    assert(all == add_new(prev, m));
    lemma_collect_members(heap, origins, o);
    lemma_add_new(prev, m);
    assert(all.no_duplicates());
    let t = all.skip(prev.len() as int);
    assert(all =~= prev + t) by {
        assert(all.subrange(0, prev.len() as int) == prev);
    }
    assert(t.no_duplicates()) by {
        assert forall|i: int, j: int| 0 <= i < t.len() && 0 <= j < t.len() && i != j implies t[i] != t[j] by {
            assert(t[i] == all[prev.len() + i]);
            assert(t[j] == all[prev.len() + j]);
            assert(all[prev.len() + i] != all[prev.len() + j]);
        }
    }
    assert(t.to_set() =~= fresh) by {
        assert forall|q: Point| t.to_set().contains(q) <==> fresh.contains(q) by {
            if t.contains(q) {
                let i = choose|i: int| 0 <= i < t.len() && t[i] == q;
                assert(all[prev.len() + i] == q);
                assert(all.contains(q));
                if prev.contains(q) {
                    let j = choose|j: int| 0 <= j < prev.len() && prev[j] == q;
                    assert(all[j] == q);
                }
            }
            if m.contains(q) && !prev.contains(q) {
                assert(all.contains(q));
                let i = choose|i: int| 0 <= i < all.len() && all[i] == q;
                if i < prev.len() {
                    assert(prev[i] == q);
                }
                assert(t[i - prev.len()] == q);
            }
        }
    }
    t.unique_seq_to_set();
    assert(matching_score(heap, origins.push(o)) == matching_score(heap, origins) + matched_axes(heap, o) * 10 * (
    all.len() - prev.len()));
}

/// Items all already present add nothing.
pub proof fn lemma_add_new_present(acc: Seq<Point>, s: Seq<Point>)
    requires
        forall|k: int| 0 <= k < s.len() ==> acc.contains(#[trigger] s[k]),
    ensures
        add_new(acc, s) == acc,
    decreases s.len(),
{
    if s.len() > 0 {
        assert forall|k: int| 0 <= k < s.drop_last().len() implies acc.contains(#[trigger] s.drop_last()[k]) by {
            assert(s.drop_last()[k] == s[k]);
        }
        lemma_add_new_present(acc, s.drop_last());
        assert(acc.contains(s[s.len() - 1]));
    }
}

} // verus!
