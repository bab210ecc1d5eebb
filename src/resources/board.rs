use crate::components::{adjacent, Coordinate};
use crate::resources::tile::Tile;
use crate::resources::tile_map::{
    cell_index, count_true, lemma_cell_index, lemma_count_true_clear, lemma_count_true_push,
    lemma_grid_size, lemma_neighbors, neighbors, expected_tile, lemma_cell_at,
    lemma_count_true_within, lemma_count_true_bound, TileMap,
};
use vstd::prelude::*;

verus! {

/// What a reveal did.
#[derive(Debug, Clone, PartialEq, Eq)]
pub enum RevealOutcome {
    /// The cell was not hidden, or lies outside the board: nothing changed.
    AlreadyRevealed,
    /// The cell held a mine; it alone was uncovered.
    Exploded(Coordinate),
    /// These cells were uncovered, in the order of the cascade; `complete` tells whether
    /// now only as many cells stay hidden as there are mines.
    Revealed { tiles: Vec<Coordinate>, complete: bool },
}

/// What a flag toggle did.
#[derive(Debug, Clone, Copy, PartialEq, Eq, Structural)]
pub enum FlagOutcome {
    /// The cell was not hidden, or lies outside the board: nothing changed.
    NotHidden,
    Flagged(Coordinate),
    Unflagged(Coordinate),
}

/// A game in progress: the grid, which cells are still hidden and which carry a flag.
pub struct Board {
    tile_map: TileMap,
    covered: Vec<bool>,
    marked: Vec<bool>,
    covered_count: usize,
}

/// A cascade may go from `p` to `d`: `p` is an empty cell of the grid and `d` touches it.
pub open spec fn spreads(g: TileMap, p: Coordinate, d: Coordinate) -> bool {
    g.contains(p) && g.tile(p) == Tile::Empty && adjacent(p, d)
}

/// The cell `s[i]` touches an empty cell listed before it.
pub open spec fn reached(g: TileMap, s: Seq<Coordinate>, i: int) -> bool {
    exists|j: int| 0 <= j < i && #[trigger] spreads(g, s[j], s[i])
}

/// Every cell of `s` but the first touches an empty cell listed before it.
pub open spec fn justified(g: TileMap, s: Seq<Coordinate>) -> bool {
    forall|i: int| 1 <= i < s.len() ==> #[trigger] reached(g, s, i)
}

/// The state of a cascade from `coord` on `b0` that has reached board `b`: `out` lists the
/// cells uncovered so far, `stack` the positions in `out` of empty cells whose neighbours
/// may still be hidden; every other listed empty cell but the one at `skip` is settled.
#[verifier::opaque]
spec fn cascade(
    b0: Board,
    coord: Coordinate,
    b: Board,
    out: Seq<Coordinate>,
    stack: Seq<usize>,
    skip: int,
) -> bool {
    &&& b.wf()
    &&& b0.wf()
    &&& b.grid() == b0.grid()
    &&& out.len() >= 1
    &&& out[0] == coord
    &&& out.no_duplicates()
    &&& forall|i: int|
        0 <= i < out.len() ==> b0.is_hidden_cell(#[trigger] out[i]) && !b0.grid().is_mine(out[i])
    &&& justified(b0.grid(), out)
    &&& uncovered(b0, b, out)
    &&& forall|t: int|
        0 <= t < stack.len() ==> (#[trigger] stack[t]) < out.len() && b0.grid().tile(
            out[stack[t] as int],
        ) == Tile::Empty
    &&& forall|k: int|
        0 <= k < out.len() && k != skip && b0.grid().tile(#[trigger] out[k]) == Tile::Empty
            && !stack.contains(k as usize) ==> settled(b, out[k])
}

proof fn lemma_cascade_wf(
    b0: Board,
    coord: Coordinate,
    b: Board,
    out: Seq<Coordinate>,
    stack: Seq<usize>,
    skip: int,
)
    requires
        cascade(b0, coord, b, out, stack, skip),
    ensures
        b.wf(),
        b.grid() == b0.grid(),
{
    reveal(cascade);
}

/// Taking position `j` off the top of the stack leaves `out[j]` as the one cell that may be
/// unsettled, and an empty one.
proof fn lemma_cascade_pop(
    b0: Board,
    coord: Coordinate,
    b: Board,
    out: Seq<Coordinate>,
    stack0: Seq<usize>,
    j: usize,
)
    requires
        cascade(b0, coord, b, out, stack0, -1),
        stack0.len() > 0,
        stack0.last() == j,
    ensures
        cascade(b0, coord, b, out, stack0.drop_last(), j as int),
        j < out.len(),
        b.wf(),
        b.grid() == b0.grid(),
        b0.grid().contains(out[j as int]),
        b0.grid().tile(out[j as int]) == Tile::Empty,
{
    reveal(cascade);
    let stack = stack0.drop_last();
    assert(stack0[stack0.len() - 1] == j);
    assert(b0.is_hidden_cell(out[j as int]));
    assert forall|kk: int|
        0 <= kk < out.len() && kk != j && b0.grid().tile(#[trigger] out[kk]) == Tile::Empty
            && !stack.contains(kk as usize) implies settled(b, out[kk]) by {
        if stack0.contains(kk as usize) {
            let i = choose|i: int| 0 <= i < stack0.len() && stack0[i] == kk as usize;
            assert(stack[i] == kk as usize);
        }
    }
    assert forall|t: int| 0 <= t < stack.len() implies (#[trigger] stack[t]) < out.len()
        && b0.grid().tile(out[stack[t] as int]) == Tile::Empty by {
        assert(stack[t] == stack0[t]);
    }
}

/// Once `out[j]` is settled, every listed empty cell off the stack is.
proof fn lemma_cascade_settle(
    b0: Board,
    coord: Coordinate,
    b: Board,
    out: Seq<Coordinate>,
    stack: Seq<usize>,
    j: int,
)
    requires
        cascade(b0, coord, b, out, stack, j),
        0 <= j < out.len(),
        settled(b, out[j]),
    ensures
        cascade(b0, coord, b, out, stack, -1),
{
    reveal(cascade);
}

/// When the stack is empty the cascade is complete: `out` is the whole flood from `coord`.
proof fn lemma_cascade_done(b0: Board, coord: Coordinate, b: Board, out: Seq<Coordinate>)
    requires
        cascade(b0, coord, b, out, Seq::empty(), -1),
        b0.is_hidden_cell(coord),
        !b0.grid().is_mine(coord),
    ensures
        flood_of(b0, coord, out),
        uncovered(b0, b, out),
        b.wf(),
        b.grid() == b0.grid(),
{
    reveal(cascade);
    reveal(settled);
    let g = b0.grid();
    assert forall|i: int, d: Coordinate|
        0 <= i < out.len() && #[trigger] spreads(g, out[i], d) && g.contains(d) && b0.is_hidden_cell(d)
            implies out.contains(d) by {
        assert(settled(b, out[i]));
        assert(!b.is_hidden_cell(d));
    }
}

/// The tile the numbering rule gives cell `c` of `g`.
pub open spec fn expected_tile_of(g: TileMap, c: Coordinate) -> Tile {
    expected_tile(g.mines(), g.w() as int, g.h() as int, c)
}

/// No cell of the grid that touches `p` is hidden on `b`.
#[verifier::opaque]
pub open spec fn settled(b: Board, p: Coordinate) -> bool {
    forall|d: Coordinate| b.grid().contains(d) && adjacent(p, d) ==> !#[trigger] b.is_hidden_cell(d)
}

/// `b1` is `b0` with the cells of `s` uncovered and their flags gone, and nothing else changed.
pub open spec fn uncovered(b0: Board, b1: Board, s: Seq<Coordinate>) -> bool {
    &&& b1.grid() == b0.grid()
    &&& forall|d: Coordinate| #[trigger]
        b1.is_hidden_cell(d) == (b0.is_hidden_cell(d) && !s.contains(d))
    &&& forall|d: Coordinate| #[trigger]
        b1.is_flagged_cell(d) == (b0.is_flagged_cell(d) && !s.contains(d))
    &&& b1.hidden_count() + s.len() == b0.hidden_count()
}

/// `s` lists, each once, the cells that a cascade from the hidden non-mine cell `c` of
/// `b` uncovers: it starts at `c`; every later cell touches an empty cell listed before
/// it; every hidden cell that touches a listed empty cell is listed; no mine is listed.
pub open spec fn flood_of(b: Board, c: Coordinate, s: Seq<Coordinate>) -> bool {
    &&& s.len() >= 1
    &&& s[0] == c
    &&& s.no_duplicates()
    &&& forall|i: int|
        0 <= i < s.len() ==> b.is_hidden_cell(#[trigger] s[i]) && !b.grid().is_mine(s[i])
    &&& justified(b.grid(), s)
    &&& forall|i: int, d: Coordinate|
        0 <= i < s.len() && #[trigger] spreads(b.grid(), s[i], d) && b.grid().contains(d)
            && b.is_hidden_cell(d) ==> s.contains(d)
}

/// What `reveal_tile(c)` does to a board `b0`, leaving `b1` and returning `r`.
pub open spec fn reveal_step(b0: Board, c: Coordinate, b1: Board, r: RevealOutcome) -> bool {
    &&& (r is AlreadyRevealed <==> !b0.is_hidden_cell(c))
    &&& (r is Exploded <==> b0.is_hidden_cell(c) && b0.grid().is_mine(c))
    &&& match r {
        RevealOutcome::AlreadyRevealed => b1 == b0,
        RevealOutcome::Exploded(e) => e == c && uncovered(b0, b1, seq![c]),
        RevealOutcome::Revealed { tiles, complete } => {
            &&& flood_of(b0, c, tiles@)
            &&& uncovered(b0, b1, tiles@)
            &&& complete == (b1.hidden_count() == b0.grid().mine_total())
        },
    }
}

/// What `try_toggle_mark(c)` does to a board `b0`, leaving `b1` and returning `r`.
pub open spec fn flag_step(b0: Board, c: Coordinate, b1: Board, r: FlagOutcome) -> bool {
    if !b0.is_hidden_cell(c) {
        r == FlagOutcome::NotHidden && b1 == b0
    } else {
        &&& r == (if b0.is_flagged_cell(c) {
            FlagOutcome::Unflagged(c)
        } else {
            FlagOutcome::Flagged(c)
        })
        &&& b1.grid() == b0.grid()
        &&& b1.hidden_count() == b0.hidden_count()
        &&& forall|d: Coordinate| #[trigger] b1.is_hidden_cell(d) == b0.is_hidden_cell(d)
        &&& forall|d: Coordinate| #[trigger]
            b1.is_flagged_cell(d) == (if d == c {
                !b0.is_flagged_cell(d)
            } else {
                b0.is_flagged_cell(d)
            })
    }
}

proof fn lemma_justified_push(g: TileMap, s: Seq<Coordinate>, j: int, d: Coordinate)
    requires
        justified(g, s),
        0 <= j < s.len(),
        spreads(g, s[j], d),
    ensures
        justified(g, s.push(d)),
{
    let t = s.push(d);
    assert forall|i: int| 1 <= i < t.len() implies #[trigger] reached(g, t, i) by {
        if i < s.len() {
            assert(reached(g, s, i));
            let k = choose|k: int| 0 <= k < i && #[trigger] spreads(g, s[k], s[i]);
            assert(t[k] == s[k] && t[i] == s[i]);
            assert(spreads(g, t[k], t[i]));
        } else {
            assert(t[j] == s[j] && t[i] == d);
            assert(spreads(g, t[j], t[i]));
        }
    }
}

proof fn lemma_uncovered_push(b0: Board, b1: Board, b2: Board, s: Seq<Coordinate>, d: Coordinate)
    requires
        uncovered(b0, b1, s),
        uncovered(b1, b2, seq![d]),
        b1.is_hidden_cell(d),
    ensures
        uncovered(b0, b2, s.push(d)),
        !s.contains(d),
{
    let t = s.push(d);
    assert(seq![d][0] == d);
    assert forall|x: Coordinate| #[trigger] t.contains(x) == (s.contains(x) || x == d) by {
        if s.contains(x) {
            let i = choose|i: int| 0 <= i < s.len() && s[i] == x;
            assert(t[i] == x);
        }
        if x == d {
            assert(t[s.len() as int] == x);
        }
        if t.contains(x) {
            let i = choose|i: int| 0 <= i < t.len() && t[i] == x;
            if i < s.len() {
                assert(s[i] == x);
            }
        }
    }
    assert forall|x: Coordinate| #[trigger] seq![d].contains(x) == (x == d) by {
        if seq![d].contains(x) {
            let i = choose|i: int| 0 <= i < 1 && seq![d][i] == x;
        }
    }
}

/// Flagging a hidden cell and then revealing it uncovers it: the flag goes on, the reveal
/// does something, and afterwards the cell is neither hidden nor flagged.
pub proof fn lemma_flag_then_reveal(
    b0: Board,
    b1: Board,
    b2: Board,
    c: Coordinate,
    f: FlagOutcome,
    r: RevealOutcome,
)
    requires
        b0.wf(),
        b0.is_hidden_cell(c),
        !b0.is_flagged_cell(c),
        flag_step(b0, c, b1, f),
        reveal_step(b1, c, b2, r),
    ensures
        f == FlagOutcome::Flagged(c),
        b1.is_flagged_cell(c),
        !(r is AlreadyRevealed),
        !b2.is_hidden_cell(c),
        !b2.is_flagged_cell(c),
{
    assert(b1.is_hidden_cell(c));
    match r {
        RevealOutcome::Exploded(_) => {
            assert(seq![c][0] == c);
            assert(seq![c].contains(c));
        },
        RevealOutcome::Revealed { tiles, .. } => {
            assert(tiles@[0] == c);
            assert(tiles@.contains(c));
        },
        RevealOutcome::AlreadyRevealed => {},
    }
}

/// A cascade uncovers each cell at most once, so it lists no more cells than the board
/// had hidden, and no more than the grid has.
pub proof fn lemma_cascade_bounded(b0: Board, c: Coordinate, b1: Board, r: RevealOutcome)
    requires
        b0.wf(),
        reveal_step(b0, c, b1, r),
        r is Revealed,
    ensures
        r->tiles@.len() <= b0.hidden_count() <= b0.grid().w() * b0.grid().h(),
{
    lemma_count_true_bound(b0.hidden_mask());
}

/// While every mine is still hidden, the board is complete (as many hidden cells as mines)
/// exactly when the hidden cells are the mines.
pub proof fn lemma_complete_iff_mines_left(b: Board)
    requires
        b.wf(),
        forall|c: Coordinate| #[trigger] b.grid().is_mine(c) ==> b.is_hidden_cell(c),
    ensures
        (b.hidden_count() == b.grid().mine_total()) <==> (forall|c: Coordinate|
            b.grid().contains(c) ==> (#[trigger] b.is_hidden_cell(c) <==> b.grid().is_mine(c))),
{
    let g = b.grid();
    let w = g.w() as int;
    let h = g.h() as int;
    let m = g.mines();
    let s = b.hidden_mask();
    assert forall|i: int| 0 <= i < m.len() && #[trigger] m[i] implies s[i] by {
        lemma_cell_at(w, h, i);
        assert(g.is_mine(crate::resources::tile_map::cell_at(w, i)));
    }
    lemma_count_true_within(m, s);
    if forall|c: Coordinate| g.contains(c) ==> (#[trigger] b.is_hidden_cell(c) <==> g.is_mine(c)) {
        assert forall|i: int| 0 <= i < m.len() implies m[i] == s[i] by {
            lemma_cell_at(w, h, i);
            let c = crate::resources::tile_map::cell_at(w, i);
            assert(b.is_hidden_cell(c) <==> g.is_mine(c));
        }
        assert(m =~= s);
    }
    if b.hidden_count() == g.mine_total() {
        assert forall|c: Coordinate| g.contains(c) implies (#[trigger] b.is_hidden_cell(c)
            <==> g.is_mine(c)) by {
            lemma_cell_index(w, h, c);
        }
    }
}

/// Once the board is complete with every mine still hidden, no reveal uncovers safe cells
/// any more: completion is announced once.
pub proof fn lemma_complete_once(b0: Board, c: Coordinate, b1: Board, r: RevealOutcome)
    requires
        b0.wf(),
        forall|d: Coordinate| #[trigger] b0.grid().is_mine(d) ==> b0.is_hidden_cell(d),
        b0.hidden_count() == b0.grid().mine_total(),
        reveal_step(b0, c, b1, r),
    ensures
        !(r is Revealed),
{
    lemma_complete_iff_mines_left(b0);
    if b0.is_hidden_cell(c) {
        assert(b0.grid().is_mine(c));
    }
}

impl Board {
    pub closed spec fn grid(&self) -> TileMap {
        self.tile_map
    }

    /// Which cells, row by row, are hidden.
    pub closed spec fn hidden_mask(&self) -> Seq<bool> {
        self.covered@
    }

    /// Which cells, row by row, carry a flag.
    pub closed spec fn flag_mask(&self) -> Seq<bool> {
        self.marked@
    }

    closed spec fn counter(&self) -> nat {
        self.covered_count as nat
    }

    /// How many cells are hidden.
    pub open spec fn hidden_count(&self) -> nat {
        count_true(self.hidden_mask())
    }

    pub open spec fn is_hidden_cell(&self, c: Coordinate) -> bool {
        self.grid().contains(c) && self.hidden_mask()[cell_index(self.grid().w() as int, c)]
    }

    pub open spec fn is_flagged_cell(&self, c: Coordinate) -> bool {
        self.grid().contains(c) && self.flag_mask()[cell_index(self.grid().w() as int, c)]
    }

    /// Whether a cell is hidden, as a predicate.
    pub open spec fn hidden_pred(&self) -> spec_fn(Coordinate) -> bool {
        |d: Coordinate| self.is_hidden_cell(d)
    }

    /// A well-formed grid, one hidden and one flag entry per cell, flags only on hidden cells.
    pub open spec fn wf(&self) -> bool {
        &&& self.grid().wf()
        &&& self.hidden_mask().len() == self.grid().tiles().len()
        &&& self.flag_mask().len() == self.grid().tiles().len()
        &&& forall|i: int|
            0 <= i < self.flag_mask().len() && #[trigger] self.flag_mask()[i]
                ==> self.hidden_mask()[i]
        &&& self.counter_ok()
    }

    /// The stored count of hidden cells is right.
    pub closed spec fn counter_ok(&self) -> bool {
        self.counter() == self.hidden_count()
    }

    /// A board on `tile_map` with every cell hidden and no flag.
    pub fn new(tile_map: TileMap) -> (r: Board)
        requires
            tile_map.wf(),
        ensures
            r.wf(),
            r.grid() == tile_map,
            r.hidden_count() == tile_map.w() * tile_map.h(),
            forall|c: Coordinate| tile_map.contains(c) ==> #[trigger] r.is_hidden_cell(c),
            forall|c: Coordinate| !#[trigger] r.is_flagged_cell(c),
    {
        proof {
            lemma_grid_size(tile_map.w() as int, tile_map.h() as int);
        }
        let n: usize = tile_map.width() as usize * tile_map.height() as usize;
        let mut covered: Vec<bool> = Vec::new();
        let mut marked: Vec<bool> = Vec::new();
        let mut i: usize = 0;
        while i < n
            invariant
                i <= n,
                covered@.len() == i,
                marked@.len() == i,
                count_true(covered@) == i,
                forall|j: int| 0 <= j < i ==> #[trigger] covered@[j],
                forall|j: int| 0 <= j < i ==> !#[trigger] marked@[j],
            decreases n - i,
        {
            proof {
                lemma_count_true_push(covered@, true);
            }
            covered.push(true);
            marked.push(false);
            i += 1;
        }
        let r = Board { tile_map, covered, marked, covered_count: n };
        assert forall|c: Coordinate| tile_map.contains(c) implies #[trigger] r.is_hidden_cell(c) by {
            lemma_cell_index(tile_map.w() as int, tile_map.h() as int, c);
        }
        assert forall|c: Coordinate| !#[trigger] r.is_flagged_cell(c) by {
            if tile_map.contains(c) {
                lemma_cell_index(tile_map.w() as int, tile_map.h() as int, c);
            }
        }
        r
    }

    /// The grid the game is played on.
    pub fn tile_map(&self) -> (r: &TileMap)
        ensures
            *r == self.grid(),
    {
        &self.tile_map
    }

    fn index_of(&self, c: Coordinate) -> (r: usize)
        requires
            self.wf(),
            self.grid().contains(c),
        ensures
            r == cell_index(self.grid().w() as int, c),
            r < self.hidden_mask().len(),
    {
        proof {
            lemma_cell_index(self.grid().w() as int, self.grid().h() as int, c);
            lemma_grid_size(self.grid().w() as int, self.grid().h() as int);
        }
        c.y as usize * self.tile_map.width() as usize + c.x as usize
    }

    pub fn is_hidden(&self, coord: Coordinate) -> (r: bool)
        requires
            self.wf(),
        ensures
            r == self.is_hidden_cell(coord),
    {
        if coord.x >= self.tile_map.width() || coord.y >= self.tile_map.height() {
            return false;
        }
        let i = self.index_of(coord);
        self.covered[i]
    }

    pub fn is_flagged(&self, coord: Coordinate) -> (r: bool)
        requires
            self.wf(),
        ensures
            r == self.is_flagged_cell(coord),
    {
        if coord.x >= self.tile_map.width() || coord.y >= self.tile_map.height() {
            return false;
        }
        let i = self.index_of(coord);
        self.marked[i]
    }

    /// The cell to uncover when the player asks for `coord`: it, when hidden, flagged or not
    /// (a flag does not keep a cell from being revealed).
    pub fn tile_to_uncover(&self, coord: Coordinate) -> (r: Option<Coordinate>)
        requires
            self.wf(),
        ensures
            r == (if self.is_hidden_cell(coord) {
                Some(coord)
            } else {
                None
            }),
    {
        if self.is_hidden(coord) {
            Some(coord)
        } else {
            None
        }
    }

    /// The hidden neighbours of `coord`, in direction order.
    pub fn adjacent_covered_tiles(&self, coord: Coordinate) -> (r: Vec<Coordinate>)
        requires
            self.wf(),
        ensures
            r@ == neighbors(self.grid().w() as int, self.grid().h() as int, coord).filter(
                self.hidden_pred(),
            ),
    {
        let nb = self.tile_map.safe_square_at(coord);
        let mut r: Vec<Coordinate> = Vec::new();
        let mut i: usize = 0;
        while i < nb.len()
            invariant
                self.wf(),
                i <= nb@.len(),
                r@ == nb@.take(i as int).filter(self.hidden_pred()),
            decreases nb@.len() - i,
        {
            let d = nb[i];
            proof {
                reveal(Seq::filter);
                assert(nb@.take(i + 1).drop_last() =~= nb@.take(i as int));
                assert(nb@.take(i + 1).last() == d);
            }
            if self.is_hidden(d) {
                r.push(d);
            }
            i += 1;
        }
        assert(nb@.take(nb@.len() as int) =~= nb@);
        r
    }

    /// Uncovers the hidden cell `c` and drops its flag.
    fn uncover_cell(&mut self, c: Coordinate)
        requires
            old(self).wf(),
            old(self).is_hidden_cell(c),
        ensures
            final(self).wf(),
            uncovered(*old(self), *final(self), seq![c]),
    {
        let i = self.index_of(c);
        let ghost w = self.grid().w() as int;
        let ghost h = self.grid().h() as int;
        let ghost b0 = *self;
        proof {
            lemma_count_true_clear(self.covered@, i as int);
        }
        self.marked[i] = false;
        self.covered[i] = false;
        self.covered_count = self.covered_count - 1;
        proof {
            lemma_cell_index(w, h, c);
            assert forall|d: Coordinate| #[trigger]
                self.is_hidden_cell(d) == (b0.is_hidden_cell(d) && !seq![c].contains(d)) by {
                assert(seq![c][0] == c);
                if self.grid().contains(d) {
                    lemma_cell_index(w, h, d);
                }
            }
            assert forall|d: Coordinate| #[trigger]
                self.is_flagged_cell(d) == (b0.is_flagged_cell(d) && !seq![c].contains(d)) by {
                assert(seq![c][0] == c);
                if self.grid().contains(d) {
                    lemma_cell_index(w, h, d);
                }
            }
        }
    }

    /// Uncovers `coord` when it is hidden, dropping its flag first.
    pub fn try_uncover_tile(&mut self, coord: Coordinate) -> (r: Option<Coordinate>)
        requires
            old(self).wf(),
        ensures
            final(self).wf(),
            old(self).is_hidden_cell(coord) ==> r == Some(coord) && uncovered(
                *old(self),
                *final(self),
                seq![coord],
            ),
            !old(self).is_hidden_cell(coord) ==> r is None && *final(self) == *old(self),
    {
        if self.is_hidden(coord) {
            self.uncover_cell(coord);
            Some(coord)
        } else {
            None
        }
    }

    /// Whether only as many cells stay hidden as there are mines.
    pub fn is_completed(&self) -> (r: bool)
        requires
            self.wf(),
        ensures
            r == (self.hidden_count() == self.grid().mine_total()),
    {
        self.covered_count == self.tile_map.bomb_count() as usize
    }

    /// Uncovers `d`, a hidden neighbour of the empty cell `out[j]`, lists it, and puts its
    /// position on the stack when it is empty.
    fn spread_to(
        &mut self,
        out: &mut Vec<Coordinate>,
        stack: &mut Vec<usize>,
        j: usize,
        d: Coordinate,
        Ghost(b0): Ghost<Board>,
        Ghost(coord): Ghost<Coordinate>,
    )
        requires
            cascade(b0, coord, *old(self), old(out)@, old(stack)@, j as int),
            j < old(out)@.len(),
            spreads(b0.grid(), old(out)@[j as int], d),
            old(self).is_hidden_cell(d),
        ensures
            cascade(b0, coord, *final(self), final(out)@, final(stack)@, j as int),
            final(out)@ == old(out)@.push(d),
            final(self).covered_count + final(stack)@.len() < old(self).covered_count + old(
                stack,
            )@.len() + 1,
            forall|x: Coordinate| #[trigger]
                final(self).is_hidden_cell(x) == (old(self).is_hidden_cell(x) && x != d),
    {
        let ghost g = b0.grid();
        let ghost before = *self;
        let ghost out0 = out@;
        let ghost st0 = stack@;
        proof {
            reveal(cascade);
            reveal(settled);
        }
        self.uncover_cell(d);
        proof {
            lemma_uncovered_push(b0, before, *self, out0, d);
            g.lemma_no_mine_next_to_empty(out0[j as int], d);
            lemma_justified_push(g, out0, j as int, d);
            assert(seq![d][0] == d);
        }
        out.push(d);
        let cnt = self.tile_map.bomb_count_at(d);
        assert(g.tile(d) == expected_tile_of(g, d));
        if cnt == 0 {
            stack.push(out.len() - 1);
        }
        proof {
            assert forall|x: usize| #[trigger] stack@.contains(x) && x != out@.len() - 1 implies st0.contains(x) by {
                let i = choose|i: int| 0 <= i < stack@.len() && stack@[i] == x;
                if i < st0.len() {
                    assert(st0[i] == x);
                }
            }
            assert forall|kk: int|
                0 <= kk < out@.len() && kk != j && g.tile(#[trigger] out@[kk]) == Tile::Empty
                    && !stack@.contains(kk as usize) implies settled(*self, out@[kk]) by {
                if kk < out0.len() {
                    assert(out@[kk] == out0[kk]);
                    if st0.contains(kk as usize) {
                        let i = choose|i: int| 0 <= i < st0.len() && st0[i] == kk as usize;
                        assert(stack@[i] == kk as usize);
                    }
                    assert(settled(before, out0[kk]));
                } else {
                    assert(stack@[stack@.len() - 1] == kk as usize);
                }
            }
            assert forall|i: int| 0 <= i < out@.len() implies b0.is_hidden_cell(#[trigger] out@[i])
                && !g.is_mine(out@[i]) by {
                if i < out0.len() {
                    assert(out@[i] == out0[i]);
                }
            }
            assert forall|t: int| 0 <= t < stack@.len() implies (#[trigger] stack@[t]) < out@.len()
                && g.tile(out@[stack@[t] as int]) == Tile::Empty by {
                if t < st0.len() {
                    assert(stack@[t] == st0[t]);
                    assert(out@[st0[t] as int] == out0[st0[t] as int]);
                }
            }
        }
    }

    /// Takes the last position off the stack and uncovers every hidden neighbour of the
    /// empty cell there.
    fn spread_from_top(
        &mut self,
        out: &mut Vec<Coordinate>,
        stack: &mut Vec<usize>,
        Ghost(b0): Ghost<Board>,
        Ghost(coord): Ghost<Coordinate>,
    )
        requires
            cascade(b0, coord, *old(self), old(out)@, old(stack)@, -1),
            old(stack)@.len() > 0,
        ensures
            cascade(b0, coord, *final(self), final(out)@, final(stack)@, -1),
            final(self).covered_count + final(stack)@.len() < old(self).covered_count + old(
                stack,
            )@.len(),
    {
        let ghost g = b0.grid();
        let ghost w = g.w() as int;
        let ghost h = g.h() as int;
        let ghost stack0 = stack@;
        let j = match stack.pop() {
            Some(j) => j,
            None => 0,
        };
        proof {
            lemma_cascade_pop(b0, coord, *self, out@, stack0, j);
        }
        let p = out[j];
        let nb = self.tile_map.safe_square_at(p);
        proof {
            lemma_neighbors(w, h, p);
        }
        let ghost entry = self.covered_count + stack@.len();
        let mut k: usize = 0;
        while k < nb.len()
            invariant
                cascade(b0, coord, *self, out@, stack@, j as int),
                self.wf(),
                self.grid() == g,
                g == b0.grid(),
                w == g.w() as int,
                h == g.h() as int,
                j < out@.len(),
                out@[j as int] == p,
                g.contains(p),
                g.tile(p) == Tile::Empty,
                nb@ == neighbors(w, h, p),
                forall|d: Coordinate| #[trigger] nb@.contains(d) <==> (g.contains(d) && adjacent(p, d)),
                k <= nb@.len(),
                forall|t: int| 0 <= t < k ==> !self.is_hidden_cell(#[trigger] nb@[t]),
                self.covered_count + stack@.len() <= entry,
            decreases nb@.len() - k,
        {
            let d = nb[k];
            assert(nb@.contains(d));
            if self.is_hidden(d) {
                let ghost before = *self;
                let ghost out0 = out@;
                self.spread_to(out, stack, j, d, Ghost(b0), Ghost(coord));
                proof {
                    lemma_cascade_wf(b0, coord, *self, out@, stack@, j as int);
                }
                assert(out@[j as int] == out0[j as int]);
                assert forall|t: int| 0 <= t < k + 1 implies !self.is_hidden_cell(#[trigger] nb@[t]) by {
                    if t < k {
                        assert(!before.is_hidden_cell(nb@[t]));
                    }
                }
            }
            k += 1;
        }
        assert forall|d: Coordinate| g.contains(d) && adjacent(p, d) implies !#[trigger] self.is_hidden_cell(d) by {
            assert(nb@.contains(d));
            let t = choose|t: int| 0 <= t < nb@.len() && nb@[t] == d;
        }
        proof {
            reveal(settled);
            lemma_cascade_settle(b0, coord, *self, out@, stack@, j as int);
        }
    }

    /// Reveals `coord`. Nothing happens to a cell that is not hidden. A mine is uncovered
    /// alone. Any other cell is uncovered with its flag dropped; from an empty cell the
    /// reveal cascades: every hidden neighbour of an uncovered empty cell is uncovered in
    /// turn, its flag dropped, until no uncovered empty cell has a hidden neighbour.
    pub fn reveal_tile(&mut self, coord: Coordinate) -> (r: RevealOutcome)
        requires
            old(self).wf(),
        ensures
            final(self).wf(),
            reveal_step(*old(self), coord, *final(self), r),
    {
        if !self.is_hidden(coord) {
            return RevealOutcome::AlreadyRevealed;
        }
        let ghost b0 = *self;
        let ghost g = self.grid();
        let mine = self.tile_map.is_bomb_at(coord);
        let start_count = self.tile_map.bomb_count_at(coord);
        self.uncover_cell(coord);
        if mine {
            return RevealOutcome::Exploded(coord);
        }
        let mut out: Vec<Coordinate> = Vec::new();
        out.push(coord);
        let mut stack: Vec<usize> = Vec::new();
        if start_count == 0 {
            stack.push(0);
            assert(stack@[0] == 0usize);
        }
        assert(out@ =~= seq![coord]);
        assert(g.tile(coord) == expected_tile_of(g, coord));
        assert(justified(g, out@));
        proof {
            reveal(cascade);
        }
        while stack.len() > 0
            invariant
                cascade(b0, coord, *self, out@, stack@, -1),
                g == b0.grid(),
            decreases self.covered_count + stack@.len(),
        {
            self.spread_from_top(&mut out, &mut stack, Ghost(b0), Ghost(coord));
        }
        proof {
            assert(stack@ =~= Seq::<usize>::empty());
            lemma_cascade_done(b0, coord, *self, out@);
        }
        let complete = self.is_completed();
        RevealOutcome::Revealed { tiles: out, complete }
    }

    /// Puts a flag on the hidden cell `coord`, or takes it off.
    pub fn try_toggle_mark(&mut self, coord: Coordinate) -> (r: FlagOutcome)
        requires
            old(self).wf(),
        ensures
            final(self).wf(),
            flag_step(*old(self), coord, *final(self), r),
    {
        if !self.is_hidden(coord) {
            return FlagOutcome::NotHidden;
        }
        let i = self.index_of(coord);
        let ghost w = self.grid().w() as int;
        let ghost h = self.grid().h() as int;
        let ghost b0 = *self;
        let was = self.marked[i];
        self.marked[i] = !was;
        proof {
            lemma_cell_index(w, h, coord);
            assert forall|d: Coordinate| #[trigger] self.is_hidden_cell(d) == b0.is_hidden_cell(d) by {}
            assert forall|d: Coordinate| #[trigger]
                self.is_flagged_cell(d) == (if d == coord {
                    !b0.is_flagged_cell(d)
                } else {
                    b0.is_flagged_cell(d)
                }) by {
                if self.grid().contains(d) {
                    lemma_cell_index(w, h, d);
                }
            }
        }
        if was {
            FlagOutcome::Unflagged(coord)
        } else {
            FlagOutcome::Flagged(coord)
        }
    }
}

} // verus!
