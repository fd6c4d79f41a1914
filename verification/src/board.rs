use vstd::prelude::*;
use crate::counter::CountDown;
use crate::tile::{
    Tile, Tiles, adj_mines, count_mines, count_revealed, flood_consistent, flood_post, in_bounds,
    gat, is_fresh, lemma_counts_bounds, lemma_counts_take_step, lemma_index_bounds,
};

verus! {

/// How many frames a second left click may lag behind the first and still
/// count as a double click.
pub const CLICK_SPEED: u32 = 100;

/// One game: the tile grid, the gesture timer and the session flags, plus
/// the display size in pixels that the render layer draws into.
#[derive(Debug)]
pub struct Board {
    pub width: u32,
    pub height: u32,
    pub cols: u32,
    pub rows: u32,
    pub mine_count: u32,
    pub lost: bool,
    pub win: bool,
    pub tiles: Tiles,
    pub counter: CountDown,
}

impl Board {
    /// The grid matches the advertised column and row counts, and the cell
    /// count fits the arithmetic of the win check.
    pub open spec fn wf(self) -> bool {
        &&& self.tiles.wf()
        &&& self.tiles.width as int == self.cols as int
        &&& self.tiles.height as int == self.rows as int
        &&& self.cols as int * self.rows as int <= u32::MAX as int
    }

    /// Some revealed tile is a mine.
    pub open spec fn spec_lost(self) -> bool {
        exists|k: int|
            0 <= k < self.tiles.tiles@.len() && (#[trigger] self.tiles.tiles@[k]).mine
                && self.tiles.tiles@[k].revealed
    }

    /// Every mine is flagged; nothing is asked of the other tiles.
    pub open spec fn spec_win_flags(self) -> bool {
        forall|k: int|
            0 <= k < self.tiles.tiles@.len() ==> ((#[trigger] self.tiles.tiles@[k]).mine
                ==> self.tiles.tiles@[k].flagged)
    }

    /// Exactly the non-mine tiles are hidden no more: the unrevealed count
    /// equals the mine count.
    pub open spec fn spec_win_reveal(self) -> bool {
        self.cols as int * self.rows as int - count_revealed(self.tiles.tiles@)
            == self.mine_count as int
    }

    pub fn new(width: u32, height: u32, cols: u32, rows: u32, mines: u32) -> (b: Board)
        requires
            mines as int <= cols as int * rows as int,
            cols as int * rows as int <= u32::MAX as int,
            cols as int * rows as int <= usize::MAX as int,
        ensures
            b.wf(),
            b.width == width,
            b.height == height,
            b.cols == cols,
            b.rows == rows,
            b.mine_count == mines,
            !b.win,
            !b.lost,
            b.counter.time_left == CLICK_SPEED,
            b.counter.reset_time == CLICK_SPEED,
            count_mines(b.tiles.tiles@) == mines,
            forall|k: int|
                0 <= k < b.tiles.tiles@.len() ==> !(#[trigger] b.tiles.tiles@[k]).revealed && !b.tiles.tiles@[k].flagged
                    && !b.tiles.tiles@[k].flow_revealed,
            forall|x: int, y: int|
                in_bounds(cols as int, rows as int, x, y) ==> (#[trigger] b.tiles.at(
                    x,
                    y,
                )).mines_around == adj_mines(b.tiles.tiles@, cols as int, rows as int, x, y),
            flood_consistent(b.tiles.tiles@, cols as int, rows as int),
    {
        let mut tiles = Tiles::new(cols as usize, rows as usize);
        let ghost gfresh = tiles.tiles@;
        tiles.set_mines(mines);
        proof {
            assert forall|k: int|
                0 <= k < tiles.tiles@.len() implies !(#[trigger] tiles.tiles@[k]).revealed
                && !tiles.tiles@[k].flagged && !tiles.tiles@[k].flow_revealed by {
                assert(is_fresh(gfresh[k]));
            }
        }
        proof {
            assert forall|a: int, b: int|
                in_bounds(cols as int, rows as int, a, b) && (#[trigger] gat(
                    tiles.tiles@,
                    rows as int,
                    a,
                    b,
                )).flow_revealed implies false by {
                lemma_index_bounds(cols as int, rows as int, a, b);
            }
        }
        let counter = CountDown::new(CLICK_SPEED);
        Board {
            width,
            height,
            cols,
            rows,
            mine_count: mines,
            lost: false,
            win: false,
            tiles,
            counter,
        }
    }

    /// The character the render layer should draw for one tile.
    pub fn prepare_character(cell: &Tile) -> (r: String)
        requires
            cell.mines_around <= 8,
        ensures
            r@ == spec_character(*cell),
    {
        match cell.revealed {
            true => match cell.mine {
                true => "B".to_string(),
                false => match cell.mines_around {
                    0u32 => " ".to_string(),
                    1u32 => "1".to_string(),
                    2u32 => "2".to_string(),
                    3u32 => "3".to_string(),
                    4u32 => "4".to_string(),
                    5u32 => "5".to_string(),
                    6u32 => "6".to_string(),
                    7u32 => "7".to_string(),
                    8u32 => "8".to_string(),
                    _ => {
                        proof {
                            assert(false);
                        }
                        " ".to_string()
                    },
                },
            },
            false => match cell.flagged {
                true => "F".to_string(),
                false => "X".to_string(),
            },
        }
    }

    pub fn check_lost(&self) -> (r: bool)
        ensures
            r == self.spec_lost(),
    {
        let n = self.tiles.tiles.len();
        let mut k: usize = 0;
        while k < n
            invariant
                n == self.tiles.tiles@.len(),
                k <= n,
                forall|i: int|
                    0 <= i < k ==> !((#[trigger] self.tiles.tiles@[i]).mine
                        && self.tiles.tiles@[i].revealed),
            decreases n - k,
        {
            let t = self.tiles.tiles[k];
            if t.mine && t.revealed {
                assert(self.tiles.tiles@[k as int].mine && self.tiles.tiles@[k as int].revealed);
                return true;
            }
            k += 1;
        }
        false
    }

    pub fn check_win_through_flags(&self) -> (r: bool)
        ensures
            r == self.spec_win_flags(),
    {
        let n = self.tiles.tiles.len();
        let mut k: usize = 0;
        while k < n
            invariant
                n == self.tiles.tiles@.len(),
                k <= n,
                forall|i: int|
                    0 <= i < k ==> ((#[trigger] self.tiles.tiles@[i]).mine
                        ==> self.tiles.tiles@[i].flagged),
            decreases n - k,
        {
            let t = self.tiles.tiles[k];
            if t.mine && !t.flagged {
                assert(self.tiles.tiles@[k as int].mine && !self.tiles.tiles@[k as int].flagged);
                return false;
            }
            k += 1;
        }
        true
    }

    pub fn check_win_through_revealed_tiles(&self) -> (r: bool)
        requires
            self.wf(),
        ensures
            r == self.spec_win_reveal(),
    {
        let n = self.tiles.tiles.len();
        let mut count_revealed_tiles: u32 = 0;
        let mut k: usize = 0;
        while k < n
            invariant
                self.wf(),
                n == self.tiles.tiles@.len(),
                k <= n,
                n as int <= u32::MAX as int,
                count_revealed_tiles as int == count_revealed(self.tiles.tiles@.take(k as int)),
                count_revealed_tiles as int <= k as int,
            decreases n - k,
        {
            proof {
                lemma_counts_take_step(self.tiles.tiles@, k as int);
            }
            if self.tiles.tiles[k].revealed {
                count_revealed_tiles += 1;
            }
            k += 1;
        }
        proof {
            assert(self.tiles.tiles@.take(n as int) =~= self.tiles.tiles@);
            lemma_counts_bounds(self.tiles.tiles@);
        }
        if (self.cols * self.rows - count_revealed_tiles) == self.mine_count {
            return true;
        }
        false
    }

    /// The per-frame status sweep: once lost or won, a session stays so.
    pub fn checks(&mut self)
        requires
            old(self).wf(),
        ensures
            final(self).wf(),
            final(self).lost == (old(self).lost || old(self).spec_lost()),
            final(self).win == (old(self).win || old(self).spec_win_flags()
                || old(self).spec_win_reveal()),
            final(self).tiles == old(self).tiles,
            final(self).counter == old(self).counter,
            final(self).width == old(self).width,
            final(self).height == old(self).height,
            final(self).cols == old(self).cols,
            final(self).rows == old(self).rows,
            final(self).mine_count == old(self).mine_count,
    {
        if self.check_lost() {
            self.lost = true;
        }
        if self.check_win_through_flags() || self.check_win_through_revealed_tiles() {
            self.win = true;
        }
    }

    /// The flood reveal, dispatched on the board's own grid.
    pub fn reveal_around(&mut self, x: u32, y: u32)
        requires
            old(self).wf(),
            (x as int) < old(self).cols as int,
            (y as int) < old(self).rows as int,
        ensures
            final(self).wf(),
            final(self).cols == old(self).cols,
            final(self).rows == old(self).rows,
            final(self).width == old(self).width,
            final(self).height == old(self).height,
            final(self).mine_count == old(self).mine_count,
            final(self).win == old(self).win,
            final(self).lost == old(self).lost,
            final(self).counter == old(self).counter,
            flood_post(
                old(self).tiles.tiles@,
                final(self).tiles.tiles@,
                old(self).cols as int,
                old(self).rows as int,
                x as int,
                y as int,
            ),
    {
        self.tiles.reveal_around(x, y);
    }
}

/// The glyph of one tile: a flag or mask while hidden, a bomb, a blank or
/// the adjacency digit once revealed.
pub open spec fn spec_character(t: Tile) -> Seq<char> {
    if t.revealed {
        if t.mine {
            "B"@
        } else if t.mines_around == 0 {
            " "@
        } else if t.mines_around == 1 {
            "1"@
        } else if t.mines_around == 2 {
            "2"@
        } else if t.mines_around == 3 {
            "3"@
        } else if t.mines_around == 4 {
            "4"@
        } else if t.mines_around == 5 {
            "5"@
        } else if t.mines_around == 6 {
            "6"@
        } else if t.mines_around == 7 {
            "7"@
        } else if t.mines_around == 8 {
            "8"@
        } else {
            Seq::<char>::empty()
        }
    } else {
        if t.flagged {
            "F"@
        } else {
            "X"@
        }
    }
}

} // verus!
