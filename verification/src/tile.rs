use vstd::prelude::*;
use crate::rng::{gen_index, new_small_rng};

verus! {

/// One cell of the minesweeper grid.
#[derive(Clone, Copy, Debug, PartialEq, Eq, Structural)]
pub struct Tile {
    pub x: usize,
    pub y: usize,
    pub mine: bool,
    pub flagged: bool,
    pub mines_around: u32,
    pub revealed: bool,
    pub flow_revealed: bool,
}

impl Tile {
    pub fn new(x: usize, y: usize) -> (t: Tile)
        ensures
            t.x == x,
            t.y == y,
            !t.mine,
            !t.flagged,
            t.mines_around == 0,
            !t.revealed,
            !t.flow_revealed,
    {
        Tile {
            x,
            y,
            mine: false,
            flagged: false,
            mines_around: 0,
            revealed: false,
            flow_revealed: false,
        }
    }

    pub fn set_as_mine(&mut self)
        ensures
            *final(self) == (Tile { mine: true, ..*old(self) }),
    {
        self.mine = true;
    }

    pub fn set_mines_around(&mut self, mines_around: u32)
        ensures
            *final(self) == (Tile { mines_around, ..*old(self) }),
    {
        self.mines_around = mines_around;
    }

    /// Marking a tile revealed is idempotent.
    pub fn set_revealed(&mut self)
        ensures
            *final(self) == (Tile { revealed: true, ..*old(self) }),
    {
        self.revealed = true;
    }

    pub fn flip_flag(&mut self)
        ensures
            *final(self) == (Tile { flagged: !old(self).flagged, ..*old(self) }),
    {
        match self.flagged {
            true => self.flagged = false,
            false => self.flagged = true,
        };
    }
}

/// A freshly constructed tile: no mine, no flag, nothing revealed.
pub open spec fn is_fresh(t: Tile) -> bool {
    !t.mine && !t.flagged && !t.revealed && !t.flow_revealed && t.mines_around == 0
}

pub open spec fn in_bounds(w: int, h: int, x: int, y: int) -> bool {
    0 <= x < w && 0 <= y < h
}

/// The tile of column `x`, row `y` in a column-major flat grid of row count `h`.
pub open spec fn gat(g: Seq<Tile>, h: int, x: int, y: int) -> Tile {
    g[x * h + y]
}

/// A well-formed `w` by `h` grid: the flat sequence has one tile per cell and
/// every tile carries its own coordinates.
pub open spec fn grid_wf(g: Seq<Tile>, w: int, h: int) -> bool {
    &&& w >= 0
    &&& h >= 0
    &&& w * h <= usize::MAX
    &&& g.len() == w * h
    &&& forall|x: int, y: int|
        in_bounds(w, h, x, y) ==> (#[trigger] gat(g, h, x, y)).x == x && gat(g, h, x, y).y == y
}

pub open spec fn count_mines(g: Seq<Tile>) -> int
    decreases g.len(),
{
    if g.len() == 0 {
        0
    } else {
        count_mines(g.drop_last()) + (if g.last().mine {
            1int
        } else {
            0int
        })
    }
}

pub open spec fn count_revealed(g: Seq<Tile>) -> int
    decreases g.len(),
{
    if g.len() == 0 {
        0
    } else {
        count_revealed(g.drop_last()) + (if g.last().revealed {
            1int
        } else {
            0int
        })
    }
}

/// How many tiles have not yet served as a flood-expansion source; the
/// termination measure of the flood reveal.
pub open spec fn count_unvisited(g: Seq<Tile>) -> int
    decreases g.len(),
{
    if g.len() == 0 {
        0
    } else {
        count_unvisited(g.drop_last()) + (if g.last().flow_revealed {
            0int
        } else {
            1int
        })
    }
}

pub proof fn lemma_index_bounds(w: int, h: int, x: int, y: int)
    by (nonlinear_arith)
    requires
        0 <= x < w,
        0 <= y < h,
    ensures
        0 <= x * h + y,
        x * h + y < w * h,
{
}

pub proof fn lemma_index_inj(h: int, x1: int, y1: int, x2: int, y2: int)
    by (nonlinear_arith)
    requires
        0 <= x1,
        0 <= x2,
        0 <= y1 < h,
        0 <= y2 < h,
        x1 * h + y1 == x2 * h + y2,
    ensures
        x1 == x2,
        y1 == y2,
{
}

pub proof fn lemma_index_lt(h: int, x: int, y: int, i: int, j: int)
    by (nonlinear_arith)
    requires
        0 <= y < h,
        0 <= j,
        0 <= x,
        x < i || (x == i && y < j),
    ensures
        x * h + y < i * h + j,
{
}

/// Updating one tile shifts each census by the difference at that tile.
pub proof fn lemma_counts_update(g: Seq<Tile>, i: int, t: Tile)
    requires
        0 <= i < g.len(),
    ensures
        count_mines(g.update(i, t)) == count_mines(g) - (if g[i].mine {
            1int
        } else {
            0int
        }) + (if t.mine {
            1int
        } else {
            0int
        }),
        count_revealed(g.update(i, t)) == count_revealed(g) - (if g[i].revealed {
            1int
        } else {
            0int
        }) + (if t.revealed {
            1int
        } else {
            0int
        }),
        count_unvisited(g.update(i, t)) == count_unvisited(g) - (if g[i].flow_revealed {
            0int
        } else {
            1int
        }) + (if t.flow_revealed {
            0int
        } else {
            1int
        }),
    decreases g.len(),
{
    if i == g.len() - 1 {
        assert(g.update(i, t).drop_last() =~= g.drop_last());
    } else {
        assert(g.update(i, t).drop_last() =~= g.drop_last().update(i, t));
        lemma_counts_update(g.drop_last(), i, t);
    }
}

pub proof fn lemma_counts_bounds(g: Seq<Tile>)
    ensures
        0 <= count_mines(g) <= g.len(),
        0 <= count_revealed(g) <= g.len(),
        0 <= count_unvisited(g) <= g.len(),
    decreases g.len(),
{
    if g.len() > 0 {
        lemma_counts_bounds(g.drop_last());
    }
}

pub proof fn lemma_counts_take_step(g: Seq<Tile>, i: int)
    requires
        0 <= i < g.len(),
    ensures
        count_mines(g.take(i + 1)) == count_mines(g.take(i)) + (if g[i].mine {
            1int
        } else {
            0int
        }),
        count_revealed(g.take(i + 1)) == count_revealed(g.take(i)) + (if g[i].revealed {
            1int
        } else {
            0int
        }),
{
    assert(g.take(i + 1).drop_last() =~= g.take(i));
    assert(g.take(i + 1).last() == g[i]);
}

pub proof fn lemma_count_mines_zero(g: Seq<Tile>)
    requires
        forall|i: int| 0 <= i < g.len() ==> !(#[trigger] g[i]).mine,
    ensures
        count_mines(g) == 0,
    decreases g.len(),
{
    if g.len() > 0 {
        assert(forall|i: int|
            0 <= i < g.drop_last().len() ==> !(#[trigger] g.drop_last()[i]).mine);
        lemma_count_mines_zero(g.drop_last());
    }
}

/// If no tile loses its visited mark, the unvisited census cannot grow.
pub proof fn lemma_unvisited_mono(g1: Seq<Tile>, g2: Seq<Tile>)
    requires
        g1.len() == g2.len(),
        forall|i: int| 0 <= i < g1.len() ==> ((#[trigger] g1[i]).flow_revealed
            ==> g2[i].flow_revealed),
    ensures
        count_unvisited(g2) <= count_unvisited(g1),
    decreases g1.len(),
{
    if g1.len() > 0 {
        assert(forall|i: int|
            0 <= i < g1.drop_last().len() ==> ((#[trigger] g1.drop_last()[i]).flow_revealed
                ==> g2.drop_last()[i].flow_revealed)) by {
            assert(forall|i: int| 0 <= i < g1.len() - 1 ==> g1.drop_last()[i] == g1[i]);
            assert(forall|i: int| 0 <= i < g2.len() - 1 ==> g2.drop_last()[i] == g2[i]);
        }
        lemma_unvisited_mono(g1.drop_last(), g2.drop_last());
    }
}

/// How a one-cell update looks through the two-dimensional lens.
pub proof fn lemma_gat_update(g: Seq<Tile>, w: int, h: int, x: int, y: int, t: Tile)
    requires
        g.len() == w * h,
        in_bounds(w, h, x, y),
    ensures
        gat(g.update(x * h + y, t), h, x, y) == t,
        forall|a: int, b: int|
            in_bounds(w, h, a, b) && (a != x || b != y) ==> #[trigger] gat(
                g.update(x * h + y, t),
                h,
                a,
                b,
            ) == gat(g, h, a, b),
{
    lemma_index_bounds(w, h, x, y);
    assert forall|a: int, b: int|
        in_bounds(w, h, a, b) && (a != x || b != y) implies #[trigger] gat(
        g.update(x * h + y, t),
        h,
        a,
        b,
    ) == gat(g, h, a, b) by {
        lemma_index_bounds(w, h, a, b);
        if a * h + b == x * h + y {
            lemma_index_inj(h, a, b, x, y);
        }
    }
}

/// One if the cell exists and holds a mine, else zero.
pub open spec fn mine01(g: Seq<Tile>, w: int, h: int, x: int, y: int) -> int {
    if in_bounds(w, h, x, y) && gat(g, h, x, y).mine {
        1
    } else {
        0
    }
}

/// The number of mines among the up-to-eight neighbors of `(x, y)`, clipped
/// at the board edges (Moore neighborhood).
pub open spec fn adj_mines(g: Seq<Tile>, w: int, h: int, x: int, y: int) -> int {
    mine01(g, w, h, x - 1, y - 1) + mine01(g, w, h, x - 1, y) + mine01(g, w, h, x - 1, y + 1)
        + mine01(g, w, h, x, y - 1) + mine01(g, w, h, x, y + 1) + mine01(g, w, h, x + 1, y - 1)
        + mine01(g, w, h, x + 1, y) + mine01(g, w, h, x + 1, y + 1)
}

/// Equal to `b` in every field except possibly the adjacency count.
pub open spec fn same_but_count(a: Tile, b: Tile) -> bool {
    a.x == b.x && a.y == b.y && a.mine == b.mine && a.flagged == b.flagged && a.revealed
        == b.revealed && a.flow_revealed == b.flow_revealed
}

/// Equal to `b` in every field except possibly the mine flag and the
/// adjacency count.
pub open spec fn same_but_mines(a: Tile, b: Tile) -> bool {
    a.x == b.x && a.y == b.y && a.flagged == b.flagged && a.revealed == b.revealed
        && a.flow_revealed == b.flow_revealed
}

pub proof fn lemma_count_mines_same(g1: Seq<Tile>, g2: Seq<Tile>)
    requires
        g1.len() == g2.len(),
        forall|i: int| 0 <= i < g1.len() ==> (#[trigger] g1[i]).mine == g2[i].mine,
    ensures
        count_mines(g1) == count_mines(g2),
    decreases g1.len(),
{
    if g1.len() > 0 {
        assert(forall|i: int|
            0 <= i < g1.drop_last().len() ==> (#[trigger] g1.drop_last()[i]).mine
                == g2.drop_last()[i].mine) by {
            assert(forall|i: int| 0 <= i < g1.len() - 1 ==> g1.drop_last()[i] == g1[i]);
            assert(forall|i: int| 0 <= i < g2.len() - 1 ==> g2.drop_last()[i] == g2[i]);
        }
        lemma_count_mines_same(g1.drop_last(), g2.drop_last());
    }
}

pub proof fn lemma_mine01_same(g1: Seq<Tile>, g2: Seq<Tile>, w: int, h: int, x: int, y: int)
    requires
        g1.len() == w * h,
        g2.len() == w * h,
        forall|i: int| 0 <= i < g1.len() ==> (#[trigger] g1[i]).mine == g2[i].mine,
    ensures
        mine01(g1, w, h, x, y) == mine01(g2, w, h, x, y),
{
    if in_bounds(w, h, x, y) {
        lemma_index_bounds(w, h, x, y);
    }
}

/// The adjacency count reads nothing but the mine flags.
pub proof fn lemma_adj_same_at(g1: Seq<Tile>, g2: Seq<Tile>, w: int, h: int, x: int, y: int)
    requires
        g1.len() == w * h,
        g2.len() == w * h,
        forall|i: int| 0 <= i < g1.len() ==> (#[trigger] g1[i]).mine == g2[i].mine,
    ensures
        adj_mines(g1, w, h, x, y) == adj_mines(g2, w, h, x, y),
{
    lemma_mine01_same(g1, g2, w, h, x - 1, y - 1);
    lemma_mine01_same(g1, g2, w, h, x - 1, y);
    lemma_mine01_same(g1, g2, w, h, x - 1, y + 1);
    lemma_mine01_same(g1, g2, w, h, x, y - 1);
    lemma_mine01_same(g1, g2, w, h, x, y + 1);
    lemma_mine01_same(g1, g2, w, h, x + 1, y - 1);
    lemma_mine01_same(g1, g2, w, h, x + 1, y);
    lemma_mine01_same(g1, g2, w, h, x + 1, y + 1);
}

/// `a` is `b` with possibly more revelation: the same tile in every static
/// field, and revealed or flood-visited wherever `b` already was.
pub open spec fn same_but_reveal(a: Tile, b: Tile) -> bool {
    a.x == b.x && a.y == b.y && a.mine == b.mine && a.flagged == b.flagged && a.mines_around
        == b.mines_around && (b.revealed ==> a.revealed) && (b.flow_revealed ==> a.flow_revealed)
}

/// A reveal operation only ever adds revelation: no tile is un-revealed, no
/// visited mark is lost, and nothing else changes.
pub open spec fn reveal_mono(g1: Seq<Tile>, g2: Seq<Tile>) -> bool {
    &&& g1.len() == g2.len()
    &&& forall|k: int| 0 <= k < g1.len() ==> same_but_reveal(#[trigger] g2[k], g1[k])
}

/// The neighbor at `(x, y)`, if it exists, has been handed its due by a
/// flood expansion: it is revealed, and visited when its own count is zero.
pub open spec fn nbr_done(g: Seq<Tile>, w: int, h: int, x: int, y: int) -> bool {
    in_bounds(w, h, x, y) ==> (gat(g, h, x, y).revealed && (gat(g, h, x, y).mines_around == 0
        ==> gat(g, h, x, y).flow_revealed))
}

/// The whole clipped eight-neighborhood of `(x, y)` has been expanded into.
pub open spec fn flood_done_around(g: Seq<Tile>, w: int, h: int, x: int, y: int) -> bool {
    nbr_done(g, w, h, x - 1, y - 1) && nbr_done(g, w, h, x - 1, y) && nbr_done(g, w, h, x - 1, y + 1)
        && nbr_done(g, w, h, x, y - 1) && nbr_done(g, w, h, x, y + 1) && nbr_done(
        g,
        w,
        h,
        x + 1,
        y - 1,
    ) && nbr_done(g, w, h, x + 1, y) && nbr_done(g, w, h, x + 1, y + 1)
}

/// Some neighbor of `(a, b)` gained its visited mark between `g1` and `g2`.
pub open spec fn adjacent_new_visit(
    g1: Seq<Tile>,
    g2: Seq<Tile>,
    w: int,
    h: int,
    a: int,
    b: int,
) -> bool {
    exists|p: int, q: int|
        #![trigger gat(g2, h, p, q)]
        in_bounds(w, h, p, q) && (p != a || q != b) && p - a <= 1 && a - p <= 1 && q - b <= 1 && b
            - q <= 1 && gat(g2, h, p, q).flow_revealed && !gat(g1, h, p, q).flow_revealed
}

pub proof fn lemma_mono_trans(g1: Seq<Tile>, g2: Seq<Tile>, g3: Seq<Tile>)
    requires
        reveal_mono(g1, g2),
        reveal_mono(g2, g3),
    ensures
        reveal_mono(g1, g3),
{
    assert forall|k: int| 0 <= k < g1.len() implies same_but_reveal(#[trigger] g3[k], g1[k]) by {
        assert(same_but_reveal(g2[k], g1[k]));
        assert(same_but_reveal(g3[k], g2[k]));
    }
}

pub proof fn lemma_done_preserved(g1: Seq<Tile>, g2: Seq<Tile>, w: int, h: int, x: int, y: int)
    requires
        reveal_mono(g1, g2),
        g1.len() == w * h,
        nbr_done(g1, w, h, x, y),
    ensures
        nbr_done(g2, w, h, x, y),
{
    if in_bounds(w, h, x, y) {
        lemma_index_bounds(w, h, x, y);
    }
}

pub proof fn lemma_flood_done_mono(g1: Seq<Tile>, g2: Seq<Tile>, w: int, h: int, x: int, y: int)
    requires
        reveal_mono(g1, g2),
        g1.len() == w * h,
        flood_done_around(g1, w, h, x, y),
    ensures
        flood_done_around(g2, w, h, x, y),
{
    lemma_done_preserved(g1, g2, w, h, x - 1, y - 1);
    lemma_done_preserved(g1, g2, w, h, x - 1, y);
    lemma_done_preserved(g1, g2, w, h, x - 1, y + 1);
    lemma_done_preserved(g1, g2, w, h, x, y - 1);
    lemma_done_preserved(g1, g2, w, h, x, y + 1);
    lemma_done_preserved(g1, g2, w, h, x + 1, y - 1);
    lemma_done_preserved(g1, g2, w, h, x + 1, y);
    lemma_done_preserved(g1, g2, w, h, x + 1, y + 1);
}

/// The visited census cannot grow across a reveal operation.
pub proof fn lemma_unvisited_mono_reveal(g1: Seq<Tile>, g2: Seq<Tile>)
    requires
        reveal_mono(g1, g2),
    ensures
        count_unvisited(g2) <= count_unvisited(g1),
{
    assert(forall|i: int|
        0 <= i < g1.len() ==> ((#[trigger] g1[i]).flow_revealed ==> g2[i].flow_revealed));
    lemma_unvisited_mono(g1, g2);
}

/// What one flood reveal at `(x, y)` does to the grid.
///
/// - Revelation only grows, and no other field of any tile changes.
/// - The clicked tile ends revealed; if its count is zero it ends visited.
/// - Every tile that gains its visited mark is a zero-count tile whose whole
///   clipped neighborhood ends revealed, with its zero-count neighbors
///   visited in turn: the flood covers the zero region to its maximum and
///   reveals its border, without recursing past a non-zero tile.
/// - Every tile that gains revelation or a visited mark is the clicked tile
///   itself or borders a tile that gained its visited mark: the flood never
///   crosses a non-zero boundary tile.
/// - A click on a tile that is already revealed and already expanded (or
///   that cannot expand) changes nothing: the flood is idempotent.
pub open spec fn flood_post(
    gold: Seq<Tile>,
    gnew: Seq<Tile>,
    w: int,
    h: int,
    x: int,
    y: int,
) -> bool {
    &&& gnew.len() == w * h
    &&& reveal_mono(gold, gnew)
    &&& count_unvisited(gnew) <= count_unvisited(gold)
    &&& gat(gnew, h, x, y).revealed
    &&& (gat(gold, h, x, y).mines_around == 0 ==> gat(gnew, h, x, y).flow_revealed)
    &&& forall|a: int, b: int|
        in_bounds(w, h, a, b) && (#[trigger] gat(gnew, h, a, b)).flow_revealed && !gat(
            gold,
            h,
            a,
            b,
        ).flow_revealed ==> gat(gnew, h, a, b).mines_around == 0 && gat(gnew, h, a, b).revealed
            && flood_done_around(gnew, w, h, a, b)
    &&& forall|a: int, b: int|
        in_bounds(w, h, a, b) && ((#[trigger] gat(gnew, h, a, b)).revealed && !gat(
            gold,
            h,
            a,
            b,
        ).revealed || gat(gnew, h, a, b).flow_revealed && !gat(gold, h, a, b).flow_revealed) ==> (a
            == x && b == y) || adjacent_new_visit(gold, gnew, w, h, a, b)
    &&& (gat(gold, h, x, y).revealed && (gat(gold, h, x, y).mines_around == 0 ==> gat(
        gold,
        h,
        x,
        y,
    ).flow_revealed) ==> gnew == gold)
    &&& forall|a: int, b: int|
        in_bounds(w, h, a, b) && (#[trigger] gat(gnew, h, a, b)).flow_revealed && !gat(
            gold,
            h,
            a,
            b,
        ).flow_revealed ==> exists|p: Seq<(int, int)>|
            #![trigger zero_path(gold, w, h, p)]
            zero_path(gold, w, h, p) && p[0] == (x, y) && p.last() == (a, b)
}

/// The state part way through one flood expansion at `(x, y)`: the clicked
/// zero tile has been revealed and marked visited, some of its neighbors
/// have been expanded into, and every other newly visited tile is already
/// fully handled.
pub open spec fn flood_acc(gold: Seq<Tile>, g: Seq<Tile>, w: int, h: int, x: int, y: int) -> bool {
    &&& gold.len() == w * h
    &&& g.len() == w * h
    &&& in_bounds(w, h, x, y)
    &&& reveal_mono(gold, g)
    &&& gat(g, h, x, y).flow_revealed
    &&& !gat(gold, h, x, y).flow_revealed
    &&& gat(g, h, x, y).revealed
    &&& gat(gold, h, x, y).mines_around == 0
    &&& forall|a: int, b: int|
        in_bounds(w, h, a, b) && (a != x || b != y) && (#[trigger] gat(g, h, a, b)).flow_revealed
            && !gat(gold, h, a, b).flow_revealed ==> gat(g, h, a, b).mines_around == 0 && gat(
            g,
            h,
            a,
            b,
        ).revealed && flood_done_around(g, w, h, a, b)
    &&& forall|a: int, b: int|
        in_bounds(w, h, a, b) && ((#[trigger] gat(g, h, a, b)).revealed && !gat(
            gold,
            h,
            a,
            b,
        ).revealed || gat(g, h, a, b).flow_revealed && !gat(gold, h, a, b).flow_revealed) ==> (a
            == x && b == y) || adjacent_new_visit(gold, g, w, h, a, b)
    &&& forall|a: int, b: int|
        in_bounds(w, h, a, b) && (#[trigger] gat(g, h, a, b)).flow_revealed && !gat(
            gold,
            h,
            a,
            b,
        ).flow_revealed ==> exists|p: Seq<(int, int)>|
            #![trigger zero_path(gold, w, h, p)]
            zero_path(gold, w, h, p) && p[0] == (x, y) && p.last() == (a, b)
}

/// Flood reveal is idempotent: when one flood reveal at `(x, y)` takes the
/// grid from `g0` to `g1`, a second flood reveal at the same coordinates
/// leaves `g1` exactly as it is.
pub proof fn lemma_flood_idempotent(
    g0: Seq<Tile>,
    g1: Seq<Tile>,
    g2: Seq<Tile>,
    w: int,
    h: int,
    x: int,
    y: int,
)
    requires
        in_bounds(w, h, x, y),
        flood_post(g0, g1, w, h, x, y),
        flood_post(g1, g2, w, h, x, y),
    ensures
        g2 == g1,
{
    lemma_index_bounds(w, h, x, y);
    assert(same_but_reveal(g1[x * h + y], g0[x * h + y]));
}

/// Two cells of the grid touch, diagonals included.
pub open spec fn adjacent(a: int, b: int, c: int, d: int) -> bool {
    (a != c || b != d) && a - c <= 1 && c - a <= 1 && b - d <= 1 && d - b <= 1
}

/// A chain of pairwise adjacent, in-bounds, zero-count tiles.
pub open spec fn zero_path(g: Seq<Tile>, w: int, h: int, p: Seq<(int, int)>) -> bool {
    &&& p.len() > 0
    &&& forall|i: int|
        0 <= i < p.len() ==> in_bounds(w, h, (#[trigger] p[i]).0, p[i].1) && gat(
            g,
            h,
            p[i].0,
            p[i].1,
        ).mines_around == 0
    &&& forall|i: int|
        0 < i < p.len() ==> adjacent((#[trigger] p[i]).0, p[i].1, p[i - 1].0, p[i - 1].1)
}

/// A zero chain only reads the adjacency counts, which a reveal never
/// touches.
pub proof fn lemma_zero_path_same(g1: Seq<Tile>, g2: Seq<Tile>, w: int, h: int, p: Seq<(int, int)>)
    requires
        g1.len() == w * h,
        g2.len() == w * h,
        forall|k: int| 0 <= k < g1.len() ==> (#[trigger] g2[k]).mines_around == g1[k].mines_around,
        zero_path(g1, w, h, p),
    ensures
        zero_path(g2, w, h, p),
{
    assert forall|i: int| 0 <= i < p.len() implies in_bounds(w, h, (#[trigger] p[i]).0, p[i].1)
        && gat(g2, h, p[i].0, p[i].1).mines_around == 0 by {
        lemma_index_bounds(w, h, p[i].0, p[i].1);
    }
}

/// A zero chain grows backward over an adjacent zero tile.
pub proof fn lemma_zero_path_prepend(
    g: Seq<Tile>,
    w: int,
    h: int,
    x: int,
    y: int,
    p: Seq<(int, int)>,
)
    requires
        zero_path(g, w, h, p),
        in_bounds(w, h, x, y),
        gat(g, h, x, y).mines_around == 0,
        adjacent(p[0].0, p[0].1, x, y),
    ensures
        zero_path(g, w, h, seq![(x, y)] + p),
        (seq![(x, y)] + p)[0] == (x, y),
        (seq![(x, y)] + p).last() == p.last(),
{
    let q = seq![(x, y)] + p;
    assert forall|i: int| 0 <= i < q.len() implies in_bounds(w, h, (#[trigger] q[i]).0, q[i].1)
        && gat(g, h, q[i].0, q[i].1).mines_around == 0 by {
        if i > 0 {
            assert(q[i] == p[i - 1]);
        }
    }
    assert forall|i: int| 0 < i < q.len() implies adjacent(
        (#[trigger] q[i]).0,
        q[i].1,
        q[i - 1].0,
        q[i - 1].1,
    ) by {
        if i == 1 {
            assert(q[1] == p[0]);
        } else {
            assert(q[i] == p[i - 1] && q[i - 1] == p[i - 2]);
        }
    }
}

/// Every visited tile is a revealed zero tile whose whole neighborhood has
/// been expanded into. This holds of a fresh board (nothing is visited) and
/// every flood reveal keeps it.
pub open spec fn flood_consistent(g: Seq<Tile>, w: int, h: int) -> bool {
    forall|a: int, b: int|
        in_bounds(w, h, a, b) && (#[trigger] gat(g, h, a, b)).flow_revealed ==> gat(
            g,
            h,
            a,
            b,
        ).mines_around == 0 && gat(g, h, a, b).revealed && flood_done_around(g, w, h, a, b)
}

pub proof fn lemma_nbr_done_weak(g1: Seq<Tile>, g2: Seq<Tile>, w: int, h: int, x: int, y: int)
    requires
        g1.len() == w * h,
        g2.len() == w * h,
        forall|k: int|
            0 <= k < g1.len() ==> (#[trigger] g2[k]).mines_around == g1[k].mines_around && g2[k].flow_revealed
                == g1[k].flow_revealed && (g1[k].revealed ==> g2[k].revealed),
        nbr_done(g1, w, h, x, y),
    ensures
        nbr_done(g2, w, h, x, y),
{
    if in_bounds(w, h, x, y) {
        lemma_index_bounds(w, h, x, y);
    }
}

/// Changes that only add revelation or touch flags — a single reveal, a
/// flag flip — keep the board flood consistent.
pub proof fn lemma_consistency_monotone(g1: Seq<Tile>, g2: Seq<Tile>, w: int, h: int)
    requires
        g1.len() == w * h,
        g2.len() == w * h,
        forall|k: int|
            0 <= k < g1.len() ==> (#[trigger] g2[k]).mines_around == g1[k].mines_around && g2[k].flow_revealed
                == g1[k].flow_revealed && (g1[k].revealed ==> g2[k].revealed),
        flood_consistent(g1, w, h),
    ensures
        flood_consistent(g2, w, h),
{
    assert forall|a: int, b: int|
        in_bounds(w, h, a, b) && (#[trigger] gat(g2, h, a, b)).flow_revealed implies gat(
        g2,
        h,
        a,
        b,
    ).mines_around == 0 && gat(g2, h, a, b).revealed && flood_done_around(g2, w, h, a, b) by {
        lemma_index_bounds(w, h, a, b);
        assert(gat(g1, h, a, b).flow_revealed);
        lemma_nbr_done_weak(g1, g2, w, h, a - 1, b - 1);
        lemma_nbr_done_weak(g1, g2, w, h, a - 1, b);
        lemma_nbr_done_weak(g1, g2, w, h, a - 1, b + 1);
        lemma_nbr_done_weak(g1, g2, w, h, a, b - 1);
        lemma_nbr_done_weak(g1, g2, w, h, a, b + 1);
        lemma_nbr_done_weak(g1, g2, w, h, a + 1, b - 1);
        lemma_nbr_done_weak(g1, g2, w, h, a + 1, b);
        lemma_nbr_done_weak(g1, g2, w, h, a + 1, b + 1);
    }
}

/// A flood reveal keeps the board flood consistent.
pub proof fn lemma_flood_preserves_consistency(
    gold: Seq<Tile>,
    gnew: Seq<Tile>,
    w: int,
    h: int,
    x: int,
    y: int,
)
    requires
        gold.len() == w * h,
        flood_consistent(gold, w, h),
        flood_post(gold, gnew, w, h, x, y),
    ensures
        flood_consistent(gnew, w, h),
{
    assert forall|a: int, b: int|
        in_bounds(w, h, a, b) && (#[trigger] gat(gnew, h, a, b)).flow_revealed implies gat(
        gnew,
        h,
        a,
        b,
    ).mines_around == 0 && gat(gnew, h, a, b).revealed && flood_done_around(gnew, w, h, a, b) by {
        lemma_index_bounds(w, h, a, b);
        if gat(gold, h, a, b).flow_revealed {
            lemma_flood_done_mono(gold, gnew, w, h, a, b);
        }
    }
}

/// The flood covers the maximal connected zero region: on a flood
/// consistent board, after a flood reveal at `(x, y)`, every tile that a
/// chain of adjacent zero-count tiles joins to the clicked tile ends
/// visited, with its whole clipped neighborhood revealed.
pub proof fn lemma_flood_covers_zero_region(
    gold: Seq<Tile>,
    gnew: Seq<Tile>,
    w: int,
    h: int,
    x: int,
    y: int,
    p: Seq<(int, int)>,
)
    requires
        gold.len() == w * h,
        flood_consistent(gold, w, h),
        flood_post(gold, gnew, w, h, x, y),
        zero_path(gold, w, h, p),
        p[0] == (x, y),
    ensures
        gat(gnew, h, p.last().0, p.last().1).flow_revealed,
        flood_done_around(gnew, w, h, p.last().0, p.last().1),
    decreases p.len(),
{
    let (vx, vy) = (p.last().0, p.last().1);
    lemma_index_bounds(w, h, vx, vy);
    lemma_index_bounds(w, h, x, y);
    if p.len() == 1 {
        assert(vx == x && vy == y);
        assert(gat(gnew, h, x, y).flow_revealed) by {
            assert(same_but_reveal(gnew[x * h + y], gold[x * h + y]));
        }
    } else {
        let q = p.drop_last();
        assert(zero_path(gold, w, h, q)) by {
            assert(forall|i: int| 0 <= i < q.len() ==> q[i] == p[i]);
        }
        lemma_flood_covers_zero_region(gold, gnew, w, h, x, y, q);
        let (ux, uy) = (q.last().0, q.last().1);
        assert(adjacent(vx, vy, ux, uy));
        // the neighborhood of the previous path tile is done, so this tile
        // is revealed and, being a zero tile, visited
        assert(nbr_done(gnew, w, h, vx, vy));
        assert(gat(gnew, h, vx, vy).mines_around == 0) by {
            assert(same_but_reveal(gnew[vx * h + vy], gold[vx * h + vy]));
        }
    }
    // the tile is visited; consistency old or new yields its neighborhood
    if gat(gold, h, vx, vy).flow_revealed {
        lemma_flood_done_mono(gold, gnew, w, h, vx, vy);
    }
}

/// The flood never escapes the zero region: every tile that gains
/// revelation, other than the clicked tile itself, borders the end of a
/// chain of adjacent zero-count tiles that starts at the clicked tile. A
/// tile separated from the region by a non-zero boundary tile therefore
/// stays hidden: the boundary itself is revealed, but never recursed past.
pub proof fn lemma_flood_within_zero_region(
    gold: Seq<Tile>,
    gnew: Seq<Tile>,
    w: int,
    h: int,
    x: int,
    y: int,
    a: int,
    b: int,
)
    requires
        flood_post(gold, gnew, w, h, x, y),
        in_bounds(w, h, a, b),
        gat(gnew, h, a, b).revealed,
        !gat(gold, h, a, b).revealed,
        a != x || b != y,
    ensures
        exists|p: Seq<(int, int)>|
            #![trigger zero_path(gold, w, h, p)]
            zero_path(gold, w, h, p) && p[0] == (x, y) && adjacent(p.last().0, p.last().1, a, b),
{
    assert(adjacent_new_visit(gold, gnew, w, h, a, b));
    let (nx, ny) = choose|nx: int, ny: int|
        #![trigger gat(gnew, h, nx, ny)]
        in_bounds(w, h, nx, ny) && (nx != a || ny != b) && nx - a <= 1 && a - nx <= 1 && ny - b
            <= 1 && b - ny <= 1 && gat(gnew, h, nx, ny).flow_revealed && !gat(
            gold,
            h,
            nx,
            ny,
        ).flow_revealed;
    let p = choose|p: Seq<(int, int)>|
        zero_path(gold, w, h, p) && p[0] == (x, y) && p.last() == (nx, ny);
    assert(zero_path(gold, w, h, p) && p[0] == (x, y) && adjacent(p.last().0, p.last().1, a, b));
}

/// Revealing and visiting a zero tile that was not yet an expansion source
/// starts a flood expansion.
pub proof fn lemma_flood_acc_init(gold: Seq<Tile>, g: Seq<Tile>, w: int, h: int, x: int, y: int)
    requires
        gold.len() == w * h,
        in_bounds(w, h, x, y),
        gat(gold, h, x, y).mines_around == 0,
        !gat(gold, h, x, y).flow_revealed,
        g == gold.update(x * h + y, Tile { revealed: true, ..gat(gold, h, x, y) }).update(
            x * h + y,
            Tile { revealed: true, flow_revealed: true, ..gat(gold, h, x, y) },
        ),
    ensures
        flood_acc(gold, g, w, h, x, y),
        count_unvisited(g) == count_unvisited(gold) - 1,
{
    let idx = x * h + y;
    let t0 = gat(gold, h, x, y);
    let gmid = gold.update(idx, Tile { revealed: true, ..t0 });
    lemma_index_bounds(w, h, x, y);
    lemma_counts_update(gold, idx, Tile { revealed: true, ..t0 });
    lemma_counts_update(gmid, idx, Tile { revealed: true, flow_revealed: true, ..t0 });
    assert forall|k: int| 0 <= k < gold.len() implies same_but_reveal(
        #[trigger] g[k],
        gold[k],
    ) by {
        if k != idx {
            assert(g[k] == gold[k]);
        }
    }
    assert forall|a: int, b: int|
        in_bounds(w, h, a, b) && (a != x || b != y) implies #[trigger] gat(g, h, a, b) == gat(
        gold,
        h,
        a,
        b,
    ) by {
        lemma_index_bounds(w, h, a, b);
        if a * h + b == idx {
            lemma_index_inj(h, a, b, x, y);
        }
    }
    assert(zero_path(gold, w, h, seq![(x, y)]));
    assert forall|a: int, b: int|
        in_bounds(w, h, a, b) && (#[trigger] gat(g, h, a, b)).flow_revealed && !gat(
            gold,
            h,
            a,
            b,
        ).flow_revealed implies exists|p: Seq<(int, int)>|
        #![trigger zero_path(gold, w, h, p)]
        zero_path(gold, w, h, p) && p[0] == (x, y) && p.last() == (a, b) by {
        assert(a == x && b == y);
        assert(zero_path(gold, w, h, seq![(x, y)]) && (seq![(x, y)])[0] == (x, y) && (seq![
            (x, y),
        ]).last() == (x, y));
    }
    assert(flood_acc(gold, g, w, h, x, y));
}

/// Revealing a tile that cannot expand — its count is not zero, or it has
/// already served as a source — is the whole effect of a flood at it.
pub proof fn lemma_flood_noop(gold: Seq<Tile>, g: Seq<Tile>, w: int, h: int, x: int, y: int)
    requires
        gold.len() == w * h,
        in_bounds(w, h, x, y),
        !(gat(gold, h, x, y).mines_around == 0 && !gat(gold, h, x, y).flow_revealed),
        g == gold.update(x * h + y, Tile { revealed: true, ..gat(gold, h, x, y) }),
    ensures
        flood_post(gold, g, w, h, x, y),
{
    let idx = x * h + y;
    let t0 = gat(gold, h, x, y);
    lemma_index_bounds(w, h, x, y);
    lemma_counts_update(gold, idx, Tile { revealed: true, ..t0 });
    assert forall|k: int| 0 <= k < gold.len() implies same_but_reveal(
        #[trigger] g[k],
        gold[k],
    ) by {
        if k != idx {
            assert(g[k] == gold[k]);
        }
    }
    assert forall|a: int, b: int|
        in_bounds(w, h, a, b) && (a != x || b != y) implies #[trigger] gat(g, h, a, b) == gat(
        gold,
        h,
        a,
        b,
    ) by {
        lemma_index_bounds(w, h, a, b);
        if a * h + b == idx {
            lemma_index_inj(h, a, b, x, y);
        }
    }
    if t0.revealed {
        assert(gold[idx] == t0);
        assert(g =~= gold);
    }
    assert forall|a: int, b: int|
        in_bounds(w, h, a, b) && (#[trigger] gat(g, h, a, b)).flow_revealed && !gat(
            gold,
            h,
            a,
            b,
        ).flow_revealed implies exists|p: Seq<(int, int)>|
        #![trigger zero_path(gold, w, h, p)]
        zero_path(gold, w, h, p) && p[0] == (x, y) && p.last() == (a, b) by {
        if a == x && b == y {
            assert(gat(g, h, x, y).flow_revealed == t0.flow_revealed);
        } else {
            assert(gat(g, h, a, b) == gat(gold, h, a, b));
        }
    }
    assert(flood_post(gold, g, w, h, x, y));
}

/// Once the whole neighborhood of the freshly visited clicked tile has
/// been expanded into, the flood at it is complete.
pub proof fn lemma_flood_finish(gold: Seq<Tile>, g: Seq<Tile>, w: int, h: int, x: int, y: int)
    requires
        flood_acc(gold, g, w, h, x, y),
        flood_done_around(g, w, h, x, y),
        count_unvisited(g) <= count_unvisited(gold),
    ensures
        flood_post(gold, g, w, h, x, y),
{
    lemma_index_bounds(w, h, x, y);
    assert(same_but_reveal(g[x * h + y], gold[x * h + y]));
    assert forall|a: int, b: int|
        in_bounds(w, h, a, b) && (#[trigger] gat(g, h, a, b)).flow_revealed && !gat(
            gold,
            h,
            a,
            b,
        ).flow_revealed implies gat(g, h, a, b).mines_around == 0 && gat(g, h, a, b).revealed
        && flood_done_around(g, w, h, a, b) by {
        lemma_index_bounds(w, h, a, b);
    }
    assert(flood_post(gold, g, w, h, x, y));
}

/// One flood expansion leaves the tile it was aimed at revealed, and
/// visited when its count is zero.
pub proof fn lemma_nbr_done_from_post(
    gpre: Seq<Tile>,
    gpost: Seq<Tile>,
    w: int,
    h: int,
    nx: int,
    ny: int,
)
    requires
        gpre.len() == w * h,
        in_bounds(w, h, nx, ny) ==> flood_post(gpre, gpost, w, h, nx, ny),
    ensures
        nbr_done(gpost, w, h, nx, ny),
{
    if in_bounds(w, h, nx, ny) {
        lemma_index_bounds(w, h, nx, ny);
        assert(same_but_reveal(gpost[nx * h + ny], gpre[nx * h + ny]));
    }
}

/// Expanding into one in-bounds neighbor keeps the partial-expansion state.
pub proof fn lemma_flood_acc_step(
    gold: Seq<Tile>,
    gpre: Seq<Tile>,
    gpost: Seq<Tile>,
    w: int,
    h: int,
    x: int,
    y: int,
    nx: int,
    ny: int,
)
    requires
        flood_acc(gold, gpre, w, h, x, y),
        in_bounds(w, h, nx, ny),
        nx != x || ny != y,
        nx - x <= 1,
        x - nx <= 1,
        ny - y <= 1,
        y - ny <= 1,
        flood_post(gpre, gpost, w, h, nx, ny),
    ensures
        flood_acc(gold, gpost, w, h, x, y),
{
    lemma_mono_trans(gold, gpre, gpost);
    lemma_index_bounds(w, h, x, y);
    lemma_index_bounds(w, h, nx, ny);
    assert forall|a: int, b: int|
        in_bounds(w, h, a, b) && (a != x || b != y) && (#[trigger] gat(
            gpost,
            h,
            a,
            b,
        )).flow_revealed && !gat(gold, h, a, b).flow_revealed implies gat(
        gpost,
        h,
        a,
        b,
    ).mines_around == 0 && gat(gpost, h, a, b).revealed && flood_done_around(
        gpost,
        w,
        h,
        a,
        b,
    ) by {
        lemma_index_bounds(w, h, a, b);
        if gat(gpre, h, a, b).flow_revealed {
            assert(flood_done_around(gpre, w, h, a, b));
            lemma_flood_done_mono(gpre, gpost, w, h, a, b);
        }
    }
    assert forall|a: int, b: int|
        in_bounds(w, h, a, b) && ((#[trigger] gat(gpost, h, a, b)).revealed && !gat(
            gold,
            h,
            a,
            b,
        ).revealed || gat(gpost, h, a, b).flow_revealed && !gat(gold, h, a, b).flow_revealed)
        implies (a == x && b == y) || adjacent_new_visit(gold, gpost, w, h, a, b) by {
        lemma_index_bounds(w, h, a, b);
        let fresh_here = (gat(gpost, h, a, b).revealed && !gat(gpre, h, a, b).revealed) || (gat(
            gpost,
            h,
            a,
            b,
        ).flow_revealed && !gat(gpre, h, a, b).flow_revealed);
        if fresh_here {
            // first touched by this expansion step
            if a == nx && b == ny {
                // its witness is the clicked tile itself, freshly visited
                assert(gat(gpost, h, x, y).flow_revealed && !gat(gold, h, x, y).flow_revealed);
                assert(adjacent_new_visit(gold, gpost, w, h, a, b));
            } else {
                assert(adjacent_new_visit(gpre, gpost, w, h, a, b));
                let (p, q): (int, int) = choose|p: int, q: int|
                    #![trigger gat(gpost, h, p, q)]
                    in_bounds(w, h, p, q) && (p != a || q != b) && p - a <= 1 && a - p <= 1 && q - b
                        <= 1 && b - q <= 1 && gat(gpost, h, p, q).flow_revealed && !gat(
                        gpre,
                        h,
                        p,
                        q,
                    ).flow_revealed;
                lemma_index_bounds(w, h, p, q);
                assert(!gat(gold, h, p, q).flow_revealed);
                assert(adjacent_new_visit(gold, gpost, w, h, a, b));
            }
        } else {
            // already new before this step; its old witness still serves
            if (a == x && b == y) {
            } else {
                assert(adjacent_new_visit(gold, gpre, w, h, a, b));
                let (p, q): (int, int) = choose|p: int, q: int|
                    #![trigger gat(gpre, h, p, q)]
                    in_bounds(w, h, p, q) && (p != a || q != b) && p - a <= 1 && a - p <= 1 && q - b
                        <= 1 && b - q <= 1 && gat(gpre, h, p, q).flow_revealed && !gat(
                        gold,
                        h,
                        p,
                        q,
                    ).flow_revealed;
                lemma_index_bounds(w, h, p, q);
                assert(gat(gpost, h, p, q).flow_revealed);
                assert(adjacent_new_visit(gold, gpost, w, h, a, b));
            }
        }
    }
    assert forall|a: int, b: int|
        in_bounds(w, h, a, b) && (#[trigger] gat(gpost, h, a, b)).flow_revealed && !gat(
            gold,
            h,
            a,
            b,
        ).flow_revealed implies exists|p: Seq<(int, int)>|
        #![trigger zero_path(gold, w, h, p)]
        zero_path(gold, w, h, p) && p[0] == (x, y) && p.last() == (a, b) by {
        lemma_index_bounds(w, h, a, b);
        if gat(gpre, h, a, b).flow_revealed {
            // the chain found before this step still ends here
            let p = choose|p: Seq<(int, int)>|
                zero_path(gold, w, h, p) && p[0] == (x, y) && p.last() == (a, b);
            assert(zero_path(gold, w, h, p));
        } else {
            // first visited by this step: the step's own chain starts at the
            // neighbor, so the clicked tile extends it by one
            let p = choose|p: Seq<(int, int)>|
                zero_path(gpre, w, h, p) && p[0] == (nx, ny) && p.last() == (a, b);
            assert(forall|k: int|
                0 <= k < gpre.len() ==> (#[trigger] gold[k]).mines_around
                    == gpre[k].mines_around) by {
                assert(forall|k: int|
                    0 <= k < gpre.len() ==> same_but_reveal(#[trigger] gpre[k], gold[k]));
            }
            lemma_zero_path_same(gpre, gold, w, h, p);
            lemma_zero_path_prepend(gold, w, h, x, y, p);
            assert(zero_path(gold, w, h, seq![(x, y)] + p) && (seq![(x, y)] + p)[0] == (x, y) && (
            seq![(x, y)] + p).last() == (a, b));
        }
    }
}

/// The rectangular tile container, stored column major: the tile of column
/// `x`, row `y` sits at flat index `x * height + y`.
#[derive(Debug)]
pub struct Tiles {
    pub width: usize,
    pub height: usize,
    pub tiles: Vec<Tile>,
}

impl Tiles {
    pub open spec fn grid(self) -> Seq<Tile> {
        self.tiles@
    }

    pub open spec fn wf(self) -> bool {
        grid_wf(self.tiles@, self.width as int, self.height as int)
    }

    pub open spec fn at(self, x: int, y: int) -> Tile {
        gat(self.tiles@, self.height as int, x, y)
    }

    pub fn new(width: usize, height: usize) -> (t: Tiles)
        requires
            width * height <= usize::MAX,
        ensures
            t.wf(),
            t.width == width,
            t.height == height,
            forall|i: int| 0 <= i < t.grid().len() ==> is_fresh(#[trigger] t.grid()[i]),
            count_mines(t.grid()) == 0,
    {
        let mut tiles: Vec<Tile> = Vec::new();
        let mut i: usize = 0;
        while i < width
            invariant
                i <= width,
                width * height <= usize::MAX,
                tiles@.len() == i * height,
                forall|x: int, y: int|
                    0 <= x < i && 0 <= y < height ==> (#[trigger] gat(
                        tiles@,
                        height as int,
                        x,
                        y,
                    )).x == x && gat(tiles@, height as int, x, y).y == y,
                forall|k: int| 0 <= k < tiles@.len() ==> is_fresh(#[trigger] tiles@[k]),
            decreases width - i,
        {
            let mut j: usize = 0;
            while j < height
                invariant
                    i < width,
                    j <= height,
                    width * height <= usize::MAX,
                    tiles@.len() == i * height + j,
                    forall|x: int, y: int|
                        0 <= x && 0 <= y < height && (x < i || (x == i && y < j)) ==> (
                        #[trigger] gat(tiles@, height as int, x, y)).x == x && gat(
                            tiles@,
                            height as int,
                            x,
                            y,
                        ).y == y,
                    forall|k: int| 0 <= k < tiles@.len() ==> is_fresh(#[trigger] tiles@[k]),
                decreases height - j,
            {
                let ghost g0 = tiles@;
                tiles.push(Tile::new(i, j));
                proof {
                    assert forall|x: int, y: int|
                        0 <= x && 0 <= y < height && (x < i || (x == i && y < j + 1)) implies (
                        #[trigger] gat(tiles@, height as int, x, y)).x == x && gat(
                        tiles@,
                        height as int,
                        x,
                        y,
                    ).y == y by {
                        if x < i || (x == i && y < j) {
                            lemma_index_lt(height as int, x, y, i as int, j as int);
                            assert(gat(tiles@, height as int, x, y) == gat(
                                g0,
                                height as int,
                                x,
                                y,
                            ));
                        } else {
                            assert(x == i && y == j);
                        }
                    }
                }
                j += 1;
            }
            proof {
                assert((i as int + 1) * (height as int) == i as int * height as int
                    + height as int) by (nonlinear_arith);
            }
            i += 1;
        }
        let t = Tiles { width, height, tiles };
        proof {
            lemma_count_mines_zero(t.grid());
        }
        t
    }

    /// Scatters `amount_of_mines` further mines over tiles that hold none —
    /// each pick uniform over the tiles still free, so the mines are chosen
    /// uniformly at random without replacement — then runs the one-time
    /// adjacency finalization pass.
    #[verifier::loop_isolation(false)]
    #[verifier::rlimit(100)]
    pub fn set_mines_with(&mut self, rng: &mut rand::rngs::SmallRng, amount_of_mines: u32)
        requires
            old(self).wf(),
            count_mines(old(self).tiles@) + amount_of_mines <= old(self).width as int * old(
                self,
            ).height as int,
        ensures
            final(self).wf(),
            final(self).width == old(self).width,
            final(self).height == old(self).height,
            final(self).tiles@.len() == old(self).tiles@.len(),
            count_mines(final(self).tiles@) == count_mines(old(self).tiles@) + amount_of_mines,
            forall|k: int|
                0 <= k < old(self).tiles@.len() ==> same_but_mines(
                    #[trigger] final(self).tiles@[k],
                    old(self).tiles@[k],
                ) && (old(self).tiles@[k].mine ==> final(self).tiles@[k].mine),
            forall|x: int, y: int|
                in_bounds(old(self).width as int, old(self).height as int, x, y)
                    ==> (#[trigger] final(self).at(x, y)).mines_around == adj_mines(
                    final(self).tiles@,
                    old(self).width as int,
                    old(self).height as int,
                    x,
                    y,
                ),
    {
        let ghost w = self.width as int;
        let ghost h = self.height as int;
        let ghost g0 = self.tiles@;
        // Collect the coordinates of every tile that is still free.
        let mut free: Vec<(usize, usize)> = Vec::new();
        let mut i: usize = 0;
        while i < self.width
            invariant
                i <= self.width,
                free@.len() == i as int * h - count_mines(g0.take(i as int * h)),
                forall|k: int|
                    0 <= k < free@.len() ==> in_bounds(w, h, (#[trigger] free@[k]).0 as int, free@[k].1 as int)
                        && !gat(g0, h, free@[k].0 as int, free@[k].1 as int).mine,
                forall|k: int| 0 <= k < free@.len() ==> ((#[trigger] free@[k]).0 as int) < i as int,
                forall|k1: int, k2: int| 0 <= k1 < k2 < free@.len() ==> free@[k1] != free@[k2],
            decreases self.width - i,
        {
            let mut j: usize = 0;
            while j < self.height
                invariant
                    i < self.width,
                    j <= self.height,
                    free@.len() == i as int * h + j as int - count_mines(
                        g0.take(i as int * h + j as int),
                    ),
                    forall|k: int|
                        0 <= k < free@.len() ==> in_bounds(
                            w,
                            h,
                            (#[trigger] free@[k]).0 as int,
                            free@[k].1 as int,
                        ) && !gat(g0, h, free@[k].0 as int, free@[k].1 as int).mine,
                    forall|k: int|
                        0 <= k < free@.len() ==> ((#[trigger] free@[k]).0 as int) < i as int || (
                        free@[k].0 as int == i as int && (free@[k].1 as int) < j as int),
                    forall|k1: int, k2: int| 0 <= k1 < k2 < free@.len() ==> free@[k1] != free@[k2],
                decreases self.height - j,
            {
                proof {
                    lemma_index_bounds(w, h, i as int, j as int);
                    lemma_counts_take_step(g0, i as int * h + j as int);
                    lemma_counts_bounds(g0.take(i as int * h + j as int));
                }
                if !self.get(i, j).mine {
                    free.push((i, j));
                }
                j += 1;
            }
            proof {
                assert((i as int + 1) * h == i as int * h + h) by (nonlinear_arith);
            }
            i += 1;
        }
        proof {
            assert(g0.take(w * h) =~= g0);
        }
        // Draw the mines one by one, each uniform over the remaining free tiles.
        let mut placed: u32 = 0;
        while placed < amount_of_mines
            invariant
                placed <= amount_of_mines,
                self.wf(),
                self.width == old(self).width,
                self.height == old(self).height,
                self.tiles@.len() == g0.len(),
                count_mines(self.tiles@) == count_mines(g0) + placed,
                free@.len() == w * h - count_mines(self.tiles@),
                forall|k: int|
                    0 <= k < free@.len() ==> in_bounds(w, h, (#[trigger] free@[k]).0 as int, free@[k].1 as int)
                        && !gat(self.tiles@, h, free@[k].0 as int, free@[k].1 as int).mine,
                forall|k1: int, k2: int| 0 <= k1 < k2 < free@.len() ==> free@[k1] != free@[k2],
                forall|k: int|
                    0 <= k < g0.len() ==> same_but_mines(#[trigger] self.tiles@[k], g0[k])
                        && self.tiles@[k].mines_around == g0[k].mines_around && (g0[k].mine
                        ==> self.tiles@[k].mine),
            decreases amount_of_mines - placed,
        {
            let idx = gen_index(rng, free.len());
            let pick = free[idx];
            let fx: usize = pick.0;
            let fy: usize = pick.1;
            let t0 = self.get(fx, fy);
            let ghost gprev = self.tiles@;
            proof {
                lemma_index_bounds(w, h, fx as int, fy as int);
            }
            self.set_tile(fx, fy, Tile { mine: true, ..t0 });
            proof {
                lemma_counts_update(gprev, fx as int * h + fy as int, Tile { mine: true, ..t0 });
            }
            let ghost fprev = free@;
            free.swap_remove(idx);
            proof {
                assert(free@ == fprev.update(idx as int, fprev.last()).drop_last());
                assert forall|k: int|
                    0 <= k < free@.len() implies in_bounds(
                    w,
                    h,
                    (#[trigger] free@[k]).0 as int,
                    free@[k].1 as int,
                ) && !gat(self.tiles@, h, free@[k].0 as int, free@[k].1 as int).mine by {
                    let s = if k == idx as int { fprev.len() - 1 } else { k };
                    assert(free@[k] == fprev[s]);
                    assert(s != idx as int ==> fprev[s] != fprev[idx as int]);
                    if s != idx as int {
                        assert(self.at(fprev[s].0 as int, fprev[s].1 as int) == gat(
                            gprev,
                            h,
                            fprev[s].0 as int,
                            fprev[s].1 as int,
                        ));
                    }
                }
                assert forall|k1: int, k2: int| 0 <= k1 < k2 < free@.len() implies free@[k1]
                    != free@[k2] by {
                    let s1 = if k1 == idx as int { fprev.len() - 1 } else { k1 };
                    let s2 = if k2 == idx as int { fprev.len() - 1 } else { k2 };
                    assert(free@[k1] == fprev[s1]);
                    assert(free@[k2] == fprev[s2]);
                }
                assert forall|k: int| 0 <= k < g0.len() implies same_but_mines(
                    #[trigger] self.tiles@[k],
                    g0[k],
                ) && self.tiles@[k].mines_around == g0[k].mines_around && (g0[k].mine
                    ==> self.tiles@[k].mine) by {
                    if k != fx as int * h + fy as int {
                        assert(self.tiles@[k] == gprev[k]);
                    }
                }
            }
            placed += 1;
        }
        let ghost gmid = self.tiles@;
        self.calculate_mines_around();
        proof {
            lemma_count_mines_same(self.tiles@, gmid);
        }
    }

    /// Places `amount_of_mines` mines at random, with a fresh pseudorandom
    /// generator of its own, and finalizes the adjacency counts.
    pub fn set_mines(&mut self, amount_of_mines: u32)
        requires
            old(self).wf(),
            count_mines(old(self).tiles@) + amount_of_mines <= old(self).width as int * old(
                self,
            ).height as int,
        ensures
            final(self).wf(),
            final(self).width == old(self).width,
            final(self).height == old(self).height,
            final(self).tiles@.len() == old(self).tiles@.len(),
            count_mines(final(self).tiles@) == count_mines(old(self).tiles@) + amount_of_mines,
            forall|k: int|
                0 <= k < old(self).tiles@.len() ==> same_but_mines(
                    #[trigger] final(self).tiles@[k],
                    old(self).tiles@[k],
                ) && (old(self).tiles@[k].mine ==> final(self).tiles@[k].mine),
            forall|x: int, y: int|
                in_bounds(old(self).width as int, old(self).height as int, x, y)
                    ==> (#[trigger] final(self).at(x, y)).mines_around == adj_mines(
                    final(self).tiles@,
                    old(self).width as int,
                    old(self).height as int,
                    x,
                    y,
                ),
    {
        let mut rng = new_small_rng();
        self.set_mines_with(&mut rng, amount_of_mines);
    }

    fn is_legit(&self, x: usize, y: usize) -> (r: bool)
        requires
            self.wf(),
        ensures
            r == in_bounds(self.width as int, self.height as int, x as int, y as int),
    {
        x < self.width && y < self.height
    }

    pub fn get(&self, x: usize, y: usize) -> (t: Tile)
        requires
            self.wf(),
            x < self.width,
            y < self.height,
        ensures
            t == self.at(x as int, y as int),
    {
        proof {
            lemma_index_bounds(self.width as int, self.height as int, x as int, y as int);
        }
        let i: usize = x * self.height + y;
        self.tiles[i]
    }

    fn set_tile(&mut self, x: usize, y: usize, t: Tile)
        requires
            old(self).wf(),
            x < old(self).width,
            y < old(self).height,
            t.x == x,
            t.y == y,
        ensures
            final(self).wf(),
            final(self).width == old(self).width,
            final(self).height == old(self).height,
            final(self).tiles@ == old(self).tiles@.update(
                x as int * old(self).height as int + y as int,
                t,
            ),
            final(self).at(x as int, y as int) == t,
            forall|a: int, b: int|
                in_bounds(old(self).width as int, old(self).height as int, a, b) && (a != x as int
                    || b != y as int) ==> #[trigger] final(self).at(a, b) == old(self).at(a, b),
    {
        proof {
            lemma_index_bounds(self.width as int, self.height as int, x as int, y as int);
        }
        let i: usize = x * self.height + y;
        let ghost g0 = self.tiles@;
        self.tiles[i] = t;
        proof {
            lemma_gat_update(g0, self.width as int, self.height as int, x as int, y as int, t);
        }
    }

    /// Reveals exactly the tile at `(x, y)`; no cascading.
    pub fn reveal_at(&mut self, x: usize, y: usize)
        requires
            old(self).wf(),
            x < old(self).width,
            y < old(self).height,
        ensures
            final(self).wf(),
            final(self).width == old(self).width,
            final(self).height == old(self).height,
            final(self).at(x as int, y as int) == (Tile {
                revealed: true,
                ..old(self).at(x as int, y as int)
            }),
            forall|a: int, b: int|
                in_bounds(old(self).width as int, old(self).height as int, a, b) && (a != x as int
                    || b != y as int) ==> #[trigger] final(self).at(a, b) == old(self).at(a, b),
    {
        let t0 = self.get(x, y);
        self.set_tile(x, y, Tile { revealed: true, ..t0 });
    }

    /// Flips the flag of exactly the tile at `(x, y)`.
    pub fn flip_flag_at(&mut self, x: usize, y: usize)
        requires
            old(self).wf(),
            x < old(self).width,
            y < old(self).height,
        ensures
            final(self).wf(),
            final(self).width == old(self).width,
            final(self).height == old(self).height,
            final(self).at(x as int, y as int) == (Tile {
                flagged: !old(self).at(x as int, y as int).flagged,
                ..old(self).at(x as int, y as int)
            }),
            forall|a: int, b: int|
                in_bounds(old(self).width as int, old(self).height as int, a, b) && (a != x as int
                    || b != y as int) ==> #[trigger] final(self).at(a, b) == old(self).at(a, b),
    {
        let t0 = self.get(x, y);
        self.set_tile(x, y, Tile { flagged: !t0.flagged, ..t0 });
    }

    #[verifier::rlimit(60)]
    fn count_mines_at(&self, x: usize, y: usize) -> (c: u32)
        requires
            self.wf(),
            x < self.width,
            y < self.height,
        ensures
            c as int == adj_mines(
                self.tiles@,
                self.width as int,
                self.height as int,
                x as int,
                y as int,
            ),
            c <= 8,
    {
        let ghost g = self.tiles@;
        let ghost w = self.width as int;
        let ghost h = self.height as int;
        let m1: u32 = if x > 0 && y > 0 && self.get(x - 1, y - 1).mine {
            1
        } else {
            0
        };
        assert(m1 as int == mine01(g, w, h, x as int - 1, y as int - 1));
        let m2: u32 = if x > 0 && self.get(x - 1, y).mine {
            1
        } else {
            0
        };
        assert(m2 as int == mine01(g, w, h, x as int - 1, y as int));
        let m3: u32 = if x > 0 && y + 1 < self.height && self.get(x - 1, y + 1).mine {
            1
        } else {
            0
        };
        assert(m3 as int == mine01(g, w, h, x as int - 1, y as int + 1));
        let m4: u32 = if y > 0 && self.get(x, y - 1).mine {
            1
        } else {
            0
        };
        assert(m4 as int == mine01(g, w, h, x as int, y as int - 1));
        let m5: u32 = if y + 1 < self.height && self.get(x, y + 1).mine {
            1
        } else {
            0
        };
        assert(m5 as int == mine01(g, w, h, x as int, y as int + 1));
        let m6: u32 = if x + 1 < self.width && y > 0 && self.get(x + 1, y - 1).mine {
            1
        } else {
            0
        };
        assert(m6 as int == mine01(g, w, h, x as int + 1, y as int - 1));
        let m7: u32 = if x + 1 < self.width && self.get(x + 1, y).mine {
            1
        } else {
            0
        };
        assert(m7 as int == mine01(g, w, h, x as int + 1, y as int));
        let m8: u32 = if x + 1 < self.width && y + 1 < self.height && self.get(x + 1, y + 1).mine {
            1
        } else {
            0
        };
        assert(m8 as int == mine01(g, w, h, x as int + 1, y as int + 1));
        m1 + m2 + m3 + m4 + m5 + m6 + m7 + m8
    }

    /// The one-time finalization pass: stores in every tile the exact number
    /// of mines among its clipped eight-neighborhood.
    #[verifier::loop_isolation(false)]
    pub fn calculate_mines_around(&mut self)
        requires
            old(self).wf(),
        ensures
            final(self).wf(),
            final(self).width == old(self).width,
            final(self).height == old(self).height,
            final(self).tiles@.len() == old(self).tiles@.len(),
            forall|k: int|
                0 <= k < old(self).tiles@.len() ==> same_but_count(
                    #[trigger] final(self).tiles@[k],
                    old(self).tiles@[k],
                ),
            forall|x: int, y: int|
                in_bounds(old(self).width as int, old(self).height as int, x, y)
                    ==> (#[trigger] final(self).at(x, y)).mines_around == adj_mines(
                    final(self).tiles@,
                    old(self).width as int,
                    old(self).height as int,
                    x,
                    y,
                ),
    {
        let ghost gorig = self.tiles@;
        let ghost w = self.width as int;
        let ghost h = self.height as int;
        let mut i: usize = 0;
        while i < self.width
            invariant
                self.wf(),
                self.width == old(self).width,
                self.height == old(self).height,
                i <= self.width,
                forall|k: int|
                    0 <= k < gorig.len() ==> same_but_count(#[trigger] self.tiles@[k], gorig[k]),
                forall|x: int, y: int|
                    0 <= x < i && 0 <= y < h ==> (#[trigger] self.at(x, y)).mines_around
                        == adj_mines(gorig, w, h, x, y),
            decreases self.width - i,
        {
            let mut j: usize = 0;
            while j < self.height
                invariant
                    i < self.width,
                    j <= self.height,
                    self.wf(),
                    self.width == old(self).width,
                    self.height == old(self).height,
                    forall|k: int|
                        0 <= k < gorig.len() ==> same_but_count(
                            #[trigger] self.tiles@[k],
                            gorig[k],
                        ),
                    forall|x: int, y: int|
                        0 <= x && 0 <= y < h && (x < i || (x == i && y < j)) ==> (
                        #[trigger] self.at(x, y)).mines_around == adj_mines(gorig, w, h, x, y),
                decreases self.height - j,
            {
                let c = self.count_mines_at(i, j);
                let t0 = self.get(i, j);
                let ghost gprev = self.tiles@;
                proof {
                    lemma_adj_same_at(gprev, gorig, w, h, i as int, j as int);
                    lemma_index_bounds(w, h, i as int, j as int);
                }
                self.set_tile(i, j, Tile { mines_around: c, ..t0 });
                proof {
                    assert forall|k: int| 0 <= k < gorig.len() implies same_but_count(
                        #[trigger] self.tiles@[k],
                        gorig[k],
                    ) by {
                        if k != i as int * h + j as int {
                            assert(self.tiles@[k] == gprev[k]);
                        }
                    }
                    assert forall|x: int, y: int|
                        0 <= x && 0 <= y < h && (x < i || (x == i && y < j + 1)) implies (
                    #[trigger] self.at(x, y)).mines_around == adj_mines(gorig, w, h, x, y) by {
                        if x == i as int && y == j as int {
                        } else {
                            assert(self.at(x, y) == gat(gprev, h, x, y));
                        }
                    }
                }
                j += 1;
            }
            i += 1;
        }
        proof {
            assert forall|x: int, y: int| in_bounds(w, h, x, y) implies (#[trigger] self.at(
                x,
                y,
            )).mines_around == adj_mines(self.tiles@, w, h, x, y) by {
                lemma_adj_same_at(self.tiles@, gorig, w, h, x, y);
            }
        }
    }

    /// The recursive flood reveal. Reveals `(x, y)`; when that tile has a
    /// zero count and has not yet served as an expansion source, marks it
    /// visited and expands into all eight clipped neighbors.
    #[verifier::rlimit(100)]
    fn flood(&mut self, x: usize, y: usize)
        requires
            old(self).wf(),
            x < old(self).width,
            y < old(self).height,
        ensures
            final(self).wf(),
            final(self).width == old(self).width,
            final(self).height == old(self).height,
            flood_post(
                old(self).tiles@,
                final(self).tiles@,
                old(self).width as int,
                old(self).height as int,
                x as int,
                y as int,
            ),
        decreases count_unvisited(self.tiles@),
    {
        let ghost w = self.width as int;
        let ghost h = self.height as int;
        let ghost gold = self.tiles@;
        let ghost xi = x as int;
        let ghost yi = y as int;
        proof {
            lemma_index_bounds(w, h, xi, yi);
            lemma_counts_bounds(gold);
        }
        let t0 = self.get(x, y);
        self.set_tile(x, y, Tile { revealed: true, ..t0 });
        if t0.mines_around == 0 && !t0.flow_revealed {
            let t1 = self.get(x, y);
            self.set_tile(x, y, Tile { flow_revealed: true, ..t1 });
            proof {
                lemma_flood_acc_init(gold, self.tiles@, w, h, xi, yi);
            }
            let ghost s0 = self.tiles@;
            let ghost s = self.tiles@;

            if x > 0 && y > 0 {
                proof {
                    lemma_counts_bounds(self.tiles@);
                    assert(count_unvisited(self.tiles@) < count_unvisited(gold));
                }
                self.flood(x - 1, y - 1);
                proof {
                    lemma_nbr_done_from_post(s, self.tiles@, w, h, xi - 1, yi - 1);
                    lemma_flood_acc_step(gold, s, self.tiles@, w, h, xi, yi, xi - 1, yi - 1);
                }
            }
            proof {
                assert(nbr_done(self.tiles@, w, h, xi - 1, yi - 1));
            }
            let ghost s = self.tiles@;

            if x > 0 {
                proof {
                    lemma_counts_bounds(self.tiles@);
                    assert(count_unvisited(self.tiles@) < count_unvisited(gold));
                }
                self.flood(x - 1, y);
                proof {
                    lemma_nbr_done_from_post(s, self.tiles@, w, h, xi - 1, yi);
                    lemma_flood_acc_step(gold, s, self.tiles@, w, h, xi, yi, xi - 1, yi);
                    lemma_done_preserved(s, self.tiles@, w, h, xi - 1, yi - 1);
                }
            }
            proof {
                assert(nbr_done(self.tiles@, w, h, xi - 1, yi - 1));
                assert(nbr_done(self.tiles@, w, h, xi - 1, yi));
            }
            let ghost s = self.tiles@;

            if x > 0 && self.is_legit(x - 1, y + 1) {
                proof {
                    lemma_counts_bounds(self.tiles@);
                    assert(count_unvisited(self.tiles@) < count_unvisited(gold));
                }
                self.flood(x - 1, y + 1);
                proof {
                    lemma_nbr_done_from_post(s, self.tiles@, w, h, xi - 1, yi + 1);
                    lemma_flood_acc_step(gold, s, self.tiles@, w, h, xi, yi, xi - 1, yi + 1);
                    lemma_done_preserved(s, self.tiles@, w, h, xi - 1, yi - 1);
                    lemma_done_preserved(s, self.tiles@, w, h, xi - 1, yi);
                }
            }
            proof {
                assert(nbr_done(self.tiles@, w, h, xi - 1, yi - 1));
                assert(nbr_done(self.tiles@, w, h, xi - 1, yi));
                assert(nbr_done(self.tiles@, w, h, xi - 1, yi + 1));
            }
            let ghost s = self.tiles@;

            if y > 0 {
                proof {
                    lemma_counts_bounds(self.tiles@);
                    assert(count_unvisited(self.tiles@) < count_unvisited(gold));
                }
                self.flood(x, y - 1);
                proof {
                    lemma_nbr_done_from_post(s, self.tiles@, w, h, xi, yi - 1);
                    lemma_flood_acc_step(gold, s, self.tiles@, w, h, xi, yi, xi, yi - 1);
                    lemma_done_preserved(s, self.tiles@, w, h, xi - 1, yi - 1);
                    lemma_done_preserved(s, self.tiles@, w, h, xi - 1, yi);
                    lemma_done_preserved(s, self.tiles@, w, h, xi - 1, yi + 1);
                }
            }
            proof {
                assert(nbr_done(self.tiles@, w, h, xi - 1, yi - 1));
                assert(nbr_done(self.tiles@, w, h, xi - 1, yi));
                assert(nbr_done(self.tiles@, w, h, xi - 1, yi + 1));
                assert(nbr_done(self.tiles@, w, h, xi, yi - 1));
            }
            let ghost s = self.tiles@;

            if self.is_legit(x, y + 1) {
                proof {
                    lemma_counts_bounds(self.tiles@);
                    assert(count_unvisited(self.tiles@) < count_unvisited(gold));
                }
                self.flood(x, y + 1);
                proof {
                    lemma_nbr_done_from_post(s, self.tiles@, w, h, xi, yi + 1);
                    lemma_flood_acc_step(gold, s, self.tiles@, w, h, xi, yi, xi, yi + 1);
                    lemma_done_preserved(s, self.tiles@, w, h, xi - 1, yi - 1);
                    lemma_done_preserved(s, self.tiles@, w, h, xi - 1, yi);
                    lemma_done_preserved(s, self.tiles@, w, h, xi - 1, yi + 1);
                    lemma_done_preserved(s, self.tiles@, w, h, xi, yi - 1);
                }
            }
            proof {
                assert(nbr_done(self.tiles@, w, h, xi - 1, yi - 1));
                assert(nbr_done(self.tiles@, w, h, xi - 1, yi));
                assert(nbr_done(self.tiles@, w, h, xi - 1, yi + 1));
                assert(nbr_done(self.tiles@, w, h, xi, yi - 1));
                assert(nbr_done(self.tiles@, w, h, xi, yi + 1));
            }
            let ghost s = self.tiles@;

            if y > 0 && self.is_legit(x + 1, y - 1) {
                proof {
                    lemma_counts_bounds(self.tiles@);
                    assert(count_unvisited(self.tiles@) < count_unvisited(gold));
                }
                self.flood(x + 1, y - 1);
                proof {
                    lemma_nbr_done_from_post(s, self.tiles@, w, h, xi + 1, yi - 1);
                    lemma_flood_acc_step(gold, s, self.tiles@, w, h, xi, yi, xi + 1, yi - 1);
                    lemma_done_preserved(s, self.tiles@, w, h, xi - 1, yi - 1);
                    lemma_done_preserved(s, self.tiles@, w, h, xi - 1, yi);
                    lemma_done_preserved(s, self.tiles@, w, h, xi - 1, yi + 1);
                    lemma_done_preserved(s, self.tiles@, w, h, xi, yi - 1);
                    lemma_done_preserved(s, self.tiles@, w, h, xi, yi + 1);
                }
            }
            proof {
                assert(nbr_done(self.tiles@, w, h, xi - 1, yi - 1));
                assert(nbr_done(self.tiles@, w, h, xi - 1, yi));
                assert(nbr_done(self.tiles@, w, h, xi - 1, yi + 1));
                assert(nbr_done(self.tiles@, w, h, xi, yi - 1));
                assert(nbr_done(self.tiles@, w, h, xi, yi + 1));
                assert(nbr_done(self.tiles@, w, h, xi + 1, yi - 1));
            }
            let ghost s = self.tiles@;

            if self.is_legit(x + 1, y) {
                proof {
                    lemma_counts_bounds(self.tiles@);
                    assert(count_unvisited(self.tiles@) < count_unvisited(gold));
                }
                self.flood(x + 1, y);
                proof {
                    lemma_nbr_done_from_post(s, self.tiles@, w, h, xi + 1, yi);
                    lemma_flood_acc_step(gold, s, self.tiles@, w, h, xi, yi, xi + 1, yi);
                    lemma_done_preserved(s, self.tiles@, w, h, xi - 1, yi - 1);
                    lemma_done_preserved(s, self.tiles@, w, h, xi - 1, yi);
                    lemma_done_preserved(s, self.tiles@, w, h, xi - 1, yi + 1);
                    lemma_done_preserved(s, self.tiles@, w, h, xi, yi - 1);
                    lemma_done_preserved(s, self.tiles@, w, h, xi, yi + 1);
                    lemma_done_preserved(s, self.tiles@, w, h, xi + 1, yi - 1);
                }
            }
            proof {
                assert(nbr_done(self.tiles@, w, h, xi - 1, yi - 1));
                assert(nbr_done(self.tiles@, w, h, xi - 1, yi));
                assert(nbr_done(self.tiles@, w, h, xi - 1, yi + 1));
                assert(nbr_done(self.tiles@, w, h, xi, yi - 1));
                assert(nbr_done(self.tiles@, w, h, xi, yi + 1));
                assert(nbr_done(self.tiles@, w, h, xi + 1, yi - 1));
                assert(nbr_done(self.tiles@, w, h, xi + 1, yi));
            }
            let ghost s = self.tiles@;

            if self.is_legit(x + 1, y + 1) {
                proof {
                    lemma_counts_bounds(self.tiles@);
                    assert(count_unvisited(self.tiles@) < count_unvisited(gold));
                }
                self.flood(x + 1, y + 1);
                proof {
                    lemma_nbr_done_from_post(s, self.tiles@, w, h, xi + 1, yi + 1);
                    lemma_flood_acc_step(gold, s, self.tiles@, w, h, xi, yi, xi + 1, yi + 1);
                    lemma_done_preserved(s, self.tiles@, w, h, xi - 1, yi - 1);
                    lemma_done_preserved(s, self.tiles@, w, h, xi - 1, yi);
                    lemma_done_preserved(s, self.tiles@, w, h, xi - 1, yi + 1);
                    lemma_done_preserved(s, self.tiles@, w, h, xi, yi - 1);
                    lemma_done_preserved(s, self.tiles@, w, h, xi, yi + 1);
                    lemma_done_preserved(s, self.tiles@, w, h, xi + 1, yi - 1);
                    lemma_done_preserved(s, self.tiles@, w, h, xi + 1, yi);
                }
            }
            proof {
                assert(nbr_done(self.tiles@, w, h, xi - 1, yi - 1));
                assert(nbr_done(self.tiles@, w, h, xi - 1, yi));
                assert(nbr_done(self.tiles@, w, h, xi - 1, yi + 1));
                assert(nbr_done(self.tiles@, w, h, xi, yi - 1));
                assert(nbr_done(self.tiles@, w, h, xi, yi + 1));
                assert(nbr_done(self.tiles@, w, h, xi + 1, yi - 1));
                assert(nbr_done(self.tiles@, w, h, xi + 1, yi));
                assert(nbr_done(self.tiles@, w, h, xi + 1, yi + 1));
                assert(flood_done_around(self.tiles@, w, h, xi, yi));
                lemma_unvisited_mono_reveal(s0, self.tiles@);
                lemma_flood_finish(gold, self.tiles@, w, h, xi, yi);
            }
        } else {
            proof {
                lemma_flood_noop(gold, self.tiles@, w, h, xi, yi);
            }
        }
    }

    /// The player's flood reveal: reveals `(x, y)` and, when that tile
    /// borders no mine, cascades across the whole contiguous zero-count
    /// region and its border.
    pub fn reveal_around(&mut self, x: u32, y: u32)
        requires
            old(self).wf(),
            (x as int) < old(self).width as int,
            (y as int) < old(self).height as int,
        ensures
            final(self).wf(),
            final(self).width == old(self).width,
            final(self).height == old(self).height,
            flood_post(
                old(self).tiles@,
                final(self).tiles@,
                old(self).width as int,
                old(self).height as int,
                x as int,
                y as int,
            ),
    {
        self.flood(x as usize, y as usize);
    }

    /// Places a single mine by hand; a deterministic seam for fixtures, beside
    /// the random placement of `set_mines`.
    pub fn set_mine_at(&mut self, x: usize, y: usize)
        requires
            old(self).wf(),
            x < old(self).width,
            y < old(self).height,
        ensures
            final(self).wf(),
            final(self).width == old(self).width,
            final(self).height == old(self).height,
            final(self).at(x as int, y as int) == (Tile {
                mine: true,
                ..old(self).at(x as int, y as int)
            }),
            forall|a: int, b: int|
                in_bounds(old(self).width as int, old(self).height as int, a, b) && (a != x as int
                    || b != y as int) ==> #[trigger] final(self).at(a, b) == old(self).at(a, b),
    {
        let t0 = self.get(x, y);
        self.set_tile(x, y, Tile { mine: true, ..t0 });
    }
}

} // verus!
