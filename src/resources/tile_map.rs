use crate::components::{adjacent, direction, in_grid, Coordinate};
use crate::resources::tile::{decimal, digit_str, push_decimal, tile_text, Tile};
use vstd::arithmetic::div_mod::lemma_fundamental_div_mod_converse;
use rand::Rng;
use vstd::prelude::*;
use vstd::set_lib::lemma_map_size;

verus! {

/// Position of a cell in the row-major sequence of a grid `w` cells wide.
pub open spec fn cell_index(w: int, c: Coordinate) -> int {
    c.y * w + c.x
}

/// The cell at a position of the row-major sequence of a grid `w` cells wide.
pub open spec fn cell_at(w: int, i: int) -> Coordinate {
    Coordinate { x: (i % w) as u16, y: (i / w) as u16 }
}

pub open spec fn in_bounds(w: int, h: int, c: Coordinate) -> bool {
    in_grid(w, h, c.x as int, c.y as int)
}

/// The neighbour of `c` in direction `k`, as a pair of integers.
pub open spec fn step(c: Coordinate, k: int) -> (int, int) {
    (c.x + direction(k).0, c.y + direction(k).1)
}

/// The neighbours of `c` inside the grid in the first `k` directions, in direction order.
pub open spec fn neighbors_upto(w: int, h: int, c: Coordinate, k: nat) -> Seq<Coordinate>
    decreases k,
{
    if k == 0 {
        Seq::empty()
    } else {
        let prev = neighbors_upto(w, h, c, (k - 1) as nat);
        let p = step(c, k - 1);
        if in_grid(w, h, p.0, p.1) {
            prev.push(Coordinate { x: p.0 as u16, y: p.1 as u16 })
        } else {
            prev
        }
    }
}

/// The neighbours of `c` that lie inside a `w` x `h` grid, in direction order.
pub open spec fn neighbors(w: int, h: int, c: Coordinate) -> Seq<Coordinate> {
    neighbors_upto(w, h, c, 8)
}

/// How many cells of `s` are mined in `mask`.
pub open spec fn count_mined(mask: Seq<bool>, w: int, s: Seq<Coordinate>) -> nat
    decreases s.len(),
{
    if s.len() == 0 {
        0
    } else {
        count_mined(mask, w, s.drop_last()) + if mask[cell_index(w, s.last())] {
            1nat
        } else {
            0nat
        }
    }
}

/// How many of the neighbours of `c` are mined in `mask`.
pub open spec fn mines_around(mask: Seq<bool>, w: int, h: int, c: Coordinate) -> nat {
    count_mined(mask, w, neighbors(w, h, c))
}

/// How many entries of `s` are true.
pub open spec fn count_true(s: Seq<bool>) -> nat
    decreases s.len(),
{
    if s.len() == 0 {
        0
    } else {
        count_true(s.drop_last()) + if s.last() {
            1nat
        } else {
            0nat
        }
    }
}

/// The tile that cell `c` holds on a grid whose mined cells are `mask`.
pub open spec fn expected_tile(mask: Seq<bool>, w: int, h: int, c: Coordinate) -> Tile {
    if mask[cell_index(w, c)] {
        Tile::Bomb
    } else if mines_around(mask, w, h, c) == 0 {
        Tile::Empty
    } else {
        Tile::BombNeighbor(mines_around(mask, w, h, c) as u8)
    }
}

/// Which cells of a row-major tile sequence hold a mine.
pub open spec fn mines_of(tiles: Seq<Tile>) -> Seq<bool> {
    tiles.map_values(|t: Tile| t is Bomb)
}

pub proof fn lemma_cell_index(w: int, h: int, c: Coordinate)
    requires
        in_bounds(w, h, c),
    ensures
        0 <= cell_index(w, c) < w * h,
        cell_at(w, cell_index(w, c)) == c,
{
    lemma_fundamental_div_mod_converse(cell_index(w, c), w, c.y as int, c.x as int);
    assert(c.y * w + c.x < w * h) by (nonlinear_arith)
        requires
            0 <= c.x < w,
            0 <= c.y < h,
    ;
}

pub proof fn lemma_cell_at(w: int, h: int, i: int)
    requires
        0 <= i < w * h,
        0 <= w <= u16::MAX,
        0 <= h <= u16::MAX,
    ensures
        w > 0,
        in_bounds(w, h, cell_at(w, i)),
        cell_index(w, cell_at(w, i)) == i,
{
    assert(w > 0) by (nonlinear_arith)
        requires
            0 <= i < w * h,
            0 <= w,
    ;
    assert(0 <= i % w < w && 0 <= i / w < h && (i / w) * w + i % w == i) by (nonlinear_arith)
        requires
            0 <= i < w * h,
            w > 0,
    ;
    assert(cell_at(w, i).x == i % w);
    assert(cell_at(w, i).y == i / w);
}

pub proof fn lemma_grid_size(w: int, h: int)
    requires
        0 <= w <= u16::MAX,
        0 <= h <= u16::MAX,
    ensures
        0 <= w * h <= u32::MAX,
{
    assert(0 <= w * h <= u16::MAX * u16::MAX) by (nonlinear_arith)
        requires
            0 <= w <= u16::MAX,
            0 <= h <= u16::MAX,
    ;
}

/// The direction in which `d` lies from `c`, for a cell `d` that touches `c`.
pub open spec fn direction_of(c: Coordinate, d: Coordinate) -> int {
    let dx = d.x - c.x;
    let dy = d.y - c.y;
    if dy == -1 {
        dx + 1
    } else if dy == 0 {
        if dx == -1 {
            3
        } else {
            4
        }
    } else {
        dx + 6
    }
}

/// Every listed neighbour lies in the grid and touches `c`; every cell of the grid that
/// touches `c` in one of the first `k` directions is listed.
pub proof fn lemma_neighbors_upto(w: int, h: int, c: Coordinate, k: nat)
    requires
        k <= 8,
        w <= u16::MAX + 1,
        h <= u16::MAX + 1,
    ensures
        neighbors_upto(w, h, c, k).len() <= k,
        forall|i: int|
            0 <= i < neighbors_upto(w, h, c, k).len() ==> in_bounds(
                w,
                h,
                #[trigger] neighbors_upto(w, h, c, k)[i],
            ) && adjacent(c, neighbors_upto(w, h, c, k)[i]),
        forall|j: int|
            0 <= j < k && #[trigger] in_grid(w, h, step(c, j).0, step(c, j).1)
                ==> neighbors_upto(w, h, c, k).contains(
                Coordinate { x: step(c, j).0 as u16, y: step(c, j).1 as u16 },
            ),
        forall|i: int|
            0 <= i < neighbors_upto(w, h, c, k).len() ==> direction_of(
                c,
                #[trigger] neighbors_upto(w, h, c, k)[i],
            ) < k,
        neighbors_upto(w, h, c, k).no_duplicates(),
    decreases k,
{
    if k > 0 {
        lemma_neighbors_upto(w, h, c, (k - 1) as nat);
        let prev = neighbors_upto(w, h, c, (k - 1) as nat);
        let s = neighbors_upto(w, h, c, k);
        assert forall|i: int| 0 <= i < s.len() implies in_bounds(w, h, #[trigger] s[i]) && adjacent(
            c,
            s[i],
        ) && direction_of(c, s[i]) < k by {
            if i < prev.len() {
                assert(s[i] == prev[i]);
            }
        }
        if s.len() > prev.len() {
            assert(direction_of(c, s[prev.len() as int]) == k - 1);
            assert forall|a: int, b: int| 0 <= a < b < s.len() implies s[a] != s[b] by {
                if b == prev.len() {
                    assert(direction_of(c, s[a]) < k - 1);
                } else {
                    assert(s[a] == prev[a] && s[b] == prev[b]);
                }
            }
        }
        assert forall|j: int|
            0 <= j < k && #[trigger] in_grid(w, h, step(c, j).0, step(c, j).1) implies s.contains(
            Coordinate { x: step(c, j).0 as u16, y: step(c, j).1 as u16 },
        ) by {
            let d = Coordinate { x: step(c, j).0 as u16, y: step(c, j).1 as u16 };
            if j < k - 1 {
                let t = choose|t: int| 0 <= t < prev.len() && prev[t] == d;
                assert(s[t] == d);
            } else {
                assert(s[prev.len() as int] == d);
            }
        }
    }
}

/// The neighbour list holds exactly the cells of the grid that touch `c`.
pub proof fn lemma_neighbors(w: int, h: int, c: Coordinate)
    requires
        w <= u16::MAX + 1,
        h <= u16::MAX + 1,
    ensures
        neighbors(w, h, c).len() <= 8,
        neighbors(w, h, c).no_duplicates(),
        forall|d: Coordinate|
            #[trigger] neighbors(w, h, c).contains(d) <==> (in_bounds(w, h, d) && adjacent(c, d)),
{
    lemma_neighbors_upto(w, h, c, 8);
    let s = neighbors(w, h, c);
    assert forall|d: Coordinate| in_bounds(w, h, d) && adjacent(c, d) implies s.contains(d) by {
        let dx = d.x - c.x;
        let dy = d.y - c.y;
        let j: int = if dy == -1 {
            dx + 1
        } else if dy == 0 {
            if dx == -1 {
                3
            } else {
                4
            }
        } else {
            dx + 6
        };
        assert(step(c, j) == (d.x as int, d.y as int));
        assert(in_grid(w, h, step(c, j).0, step(c, j).1));
    }
}

proof fn lemma_count_mined_bound(mask: Seq<bool>, w: int, s: Seq<Coordinate>)
    ensures
        count_mined(mask, w, s) <= s.len(),
    decreases s.len(),
{
    if s.len() > 0 {
        lemma_count_mined_bound(mask, w, s.drop_last());
    }
}

/// The cells of `s` that are mined in `mask`, as a set.
pub open spec fn mined_set(mask: Seq<bool>, w: int, s: Seq<Coordinate>) -> Set<Coordinate> {
    Set::new(|d: Coordinate| s.contains(d) && mask[cell_index(w, d)])
}

/// Over a list without repeats, the count of mined cells is the size of their set.
proof fn lemma_count_mined_set(mask: Seq<bool>, w: int, s: Seq<Coordinate>)
    requires
        s.no_duplicates(),
    ensures
        mined_set(mask, w, s).finite(),
        mined_set(mask, w, s).len() == count_mined(mask, w, s),
    decreases s.len(),
{
    if s.len() == 0 {
        assert(mined_set(mask, w, s) =~= Set::empty());
    } else {
        let t = s.drop_last();
        let x = s.last();
        assert forall|a: int, b: int| 0 <= a < b < t.len() implies t[a] != t[b] by {
            assert(t[a] == s[a] && t[b] == s[b]);
        }
        lemma_count_mined_set(mask, w, t);
        assert forall|d: Coordinate| #[trigger] s.contains(d) <==> (t.contains(d) || d == x) by {
            if t.contains(d) {
                let i = choose|i: int| 0 <= i < t.len() && t[i] == d;
                assert(s[i] == d);
            }
            if d == x {
                assert(s[s.len() - 1] == d);
            }
            if s.contains(d) {
                let i = choose|i: int| 0 <= i < s.len() && s[i] == d;
                if i < t.len() {
                    assert(t[i] == d);
                }
            }
        }
        if t.contains(x) {
            let i = choose|i: int| 0 <= i < t.len() && t[i] == x;
            assert(s[i] == s[s.len() - 1]);
        }
        if mask[cell_index(w, x)] {
            assert(mined_set(mask, w, s) =~= mined_set(mask, w, t).insert(x));
        } else {
            assert(mined_set(mask, w, s) =~= mined_set(mask, w, t));
        }
    }
}

/// The positions of the true entries of `s`.
pub open spec fn true_positions(s: Seq<bool>) -> Set<int> {
    Set::new(|i: int| 0 <= i < s.len() && s[i])
}

proof fn lemma_true_positions(s: Seq<bool>)
    ensures
        true_positions(s).finite(),
        true_positions(s).len() == count_true(s),
    decreases s.len(),
{
    if s.len() == 0 {
        assert(true_positions(s) =~= Set::empty());
    } else {
        let t = s.drop_last();
        lemma_true_positions(t);
        if s.last() {
            assert(true_positions(s) =~= true_positions(t).insert(s.len() - 1));
        } else {
            assert(true_positions(s) =~= true_positions(t));
        }
    }
}

pub proof fn lemma_count_true_push(s: Seq<bool>, b: bool)
    ensures
        count_true(s.push(b)) == count_true(s) + if b {
            1nat
        } else {
            0nat
        },
{
    assert(s.push(b).drop_last() =~= s);
}

pub proof fn lemma_count_true_set(s: Seq<bool>, i: int)
    requires
        0 <= i < s.len(),
        !s[i],
    ensures
        count_true(s.update(i, true)) == count_true(s) + 1,
    decreases s.len(),
{
    let u = s.update(i, true);
    if i == s.len() - 1 {
        assert(u.drop_last() =~= s.drop_last());
    } else {
        lemma_count_true_set(s.drop_last(), i);
        assert(u.drop_last() =~= s.drop_last().update(i, true));
    }
}

pub proof fn lemma_count_true_clear(s: Seq<bool>, i: int)
    requires
        0 <= i < s.len(),
        s[i],
    ensures
        count_true(s.update(i, false)) + 1 == count_true(s),
{
    let u = s.update(i, false);
    lemma_count_true_set(u, i);
    assert(u.update(i, true) =~= s);
}

/// A mask that holds another holds at least as many entries, and the same number only
/// when the two are equal.
pub proof fn lemma_count_true_within(m: Seq<bool>, s: Seq<bool>)
    requires
        m.len() == s.len(),
        forall|i: int| 0 <= i < m.len() && #[trigger] m[i] ==> s[i],
    ensures
        count_true(m) <= count_true(s),
        count_true(m) == count_true(s) ==> m == s,
    decreases m.len(),
{
    if m.len() > 0 {
        let m1 = m.drop_last();
        let s1 = s.drop_last();
        assert forall|i: int| 0 <= i < m1.len() && #[trigger] m1[i] implies s1[i] by {
            assert(m[i]);
        }
        lemma_count_true_within(m1, s1);
        if count_true(m) == count_true(s) {
            assert(m1 =~= s1);
            assert(m =~= m1.push(m.last()));
            assert(s =~= s1.push(s.last()));
        }
    }
}

pub proof fn lemma_count_true_bound(s: Seq<bool>)
    ensures
        count_true(s) <= s.len(),
    decreases s.len(),
{
    if s.len() > 0 {
        lemma_count_true_bound(s.drop_last());
    }
}


proof fn lemma_count_mined_none(mask: Seq<bool>, w: int, s: Seq<Coordinate>)
    requires
        forall|i: int| 0 <= i < s.len() ==> !mask[cell_index(w, #[trigger] s[i])],
    ensures
        count_mined(mask, w, s) == 0,
    decreases s.len(),
{
    if s.len() > 0 {
        let t = s.drop_last();
        assert forall|i: int| 0 <= i < t.len() implies !mask[cell_index(w, #[trigger] t[i])] by {
            assert(t[i] == s[i]);
        }
        lemma_count_mined_none(mask, w, t);
    }
}

proof fn lemma_count_mined_zero(mask: Seq<bool>, w: int, s: Seq<Coordinate>)
    requires
        count_mined(mask, w, s) == 0,
    ensures
        forall|i: int| 0 <= i < s.len() ==> !mask[cell_index(w, #[trigger] s[i])],
    decreases s.len(),
{
    if s.len() > 0 {
        let t = s.drop_last();
        lemma_count_mined_zero(mask, w, t);
        assert forall|i: int| 0 <= i < s.len() implies !mask[cell_index(w, #[trigger] s[i])] by {
            if i < t.len() {
                assert(t[i] == s[i]);
            }
        }
    }
}

/// Why a grid cannot be built.
#[derive(Debug, Clone, Copy, PartialEq, Eq, Structural)]
pub enum GridError {
    /// A side is zero, a mine lies outside the grid or on the cell of another, or there
    /// are not fewer mines than cells.
    InvalidConfiguration,
}

/// The steps `(dx, dy)` of direction `k`.
fn direction_steps(k: usize) -> (r: (i8, i8))
    requires
        k < 8,
    ensures
        r.0 == direction(k as int).0,
        r.1 == direction(k as int).1,
{
    if k == 0 {
        (-1, -1)
    } else if k == 1 {
        (0, -1)
    } else if k == 2 {
        (1, -1)
    } else if k == 3 {
        (-1, 0)
    } else if k == 4 {
        (1, 0)
    } else if k == 5 {
        (-1, 1)
    } else if k == 6 {
        (0, 1)
    } else {
        (1, 1)
    }
}

/// The neighbours of `c` inside a `width` x `height` grid, in direction order.
pub fn neighbor_cells(width: u16, height: u16, c: Coordinate) -> (r: Vec<Coordinate>)
    ensures
        r@ == neighbors(width as int, height as int, c),
{
    let mut r: Vec<Coordinate> = Vec::new();
    let mut k: usize = 0;
    while k < 8
        invariant
            k <= 8,
            r@ == neighbors_upto(width as int, height as int, c, k as nat),
        decreases 8 - k,
    {
        let (dx, dy) = direction_steps(k);
        match c.offset(dx, dy, width, height) {
            Some(n) => r.push(n),
            None => {},
        }
        k += 1;
    }
    r
}

/// How many neighbours of `c` hold a mine in the row-major tiles `map`.
fn count_bombs_in(map: &Vec<Tile>, width: u16, height: u16, c: Coordinate) -> (r: u8)
    requires
        map@.len() == width * height,
    ensures
        r == mines_around(mines_of(map@), width as int, height as int, c),
{
    let ghost w = width as int;
    let ghost h = height as int;
    let nbrs = neighbor_cells(width, height, c);
    proof {
        lemma_neighbors(w, h, c);
        lemma_grid_size(w, h);
    }
    let mut cnt: u8 = 0;
    let mut i: usize = 0;
    while i < nbrs.len()
        invariant
            nbrs@ == neighbors(w, h, c),
            nbrs@.len() <= 8,
            w == width as int,
            h == height as int,
            0 <= w * h <= u32::MAX,
            map@.len() == w * h,
            i <= nbrs@.len(),
            cnt <= i,
            cnt == count_mined(mines_of(map@), w, nbrs@.take(i as int)),
            forall|d: Coordinate| #[trigger] nbrs@.contains(d) ==> in_bounds(w, h, d),
        decreases nbrs@.len() - i,
    {
        let n = nbrs[i];
        assert(nbrs@.contains(n));
        proof {
            lemma_cell_index(w, h, n);
            assert(nbrs@.take(i + 1).drop_last() =~= nbrs@.take(i as int));
        }
        let idx: usize = n.y as usize * width as usize + n.x as usize;
        if map[idx].is_bomb() {
            cnt += 1;
        }
        i += 1;
    }
    assert(nbrs@.take(nbrs@.len() as int) =~= nbrs@);
    cnt
}

/// Whether a cell is mined by selection when `left` mines are still to place and the draw
/// for the cell is `draw`, a number below the count of cells not yet decided.
pub open spec fn picked_at(left: nat, draw: usize) -> bool {
    left > 0 && draw < left
}

/// How many of `count` mines are still to place before cell `i` when cells are mined by
/// selection on `draws`.
pub open spec fn left_before(draws: Seq<usize>, count: nat, i: nat) -> nat
    decreases i,
{
    if i == 0 {
        count
    } else {
        let k = left_before(draws, count, (i - 1) as nat);
        if picked_at(k, draws[i - 1]) {
            (k - 1) as nat
        } else {
            k
        }
    }
}

/// The row-major mask that selection on `draws` gives for `count` mines: each cell in turn
/// is mined when its draw falls below the number of mines still to place.
pub open spec fn selection(draws: Seq<usize>, count: nat) -> Seq<bool> {
    Seq::new(draws.len(), |i: int| picked_at(left_before(draws, count, i as nat), draws[i]))
}

/// One draw per cell of an `n`-cell grid, the draw for cell `i` below `n - i`, the number
/// of cells not yet decided.
pub open spec fn valid_draws(draws: Seq<usize>, n: int) -> bool {
    draws.len() == n && forall|i: int| 0 <= i < n ==> #[trigger] draws[i] < n - i
}

/// The mask that selection on `draws` gives: exactly `count` mines. With uniform draws every
/// placement is equally likely, each cell being mined with probability (mines left) /
/// (cells left).
fn mask_from_draws(n: usize, count: u16, draws: &Vec<usize>) -> (r: Vec<bool>)
    requires
        count <= n,
        valid_draws(draws@, n as int),
    ensures
        r@ == selection(draws@, count as nat),
        count_true(r@) == count,
{
    let ghost sel = selection(draws@, count as nat);
    let mut mask: Vec<bool> = Vec::new();
    let mut needed: u16 = count;
    let mut i: usize = 0;
    while i < n
        invariant
            i <= n,
            valid_draws(draws@, n as int),
            sel == selection(draws@, count as nat),
            mask@ == sel.take(i as int),
            needed == left_before(draws@, count as nat, i as nat),
            needed <= n - i,
            count_true(mask@) + needed == count,
        decreases n - i,
    {
        let d = draws[i];
        let mined = needed > 0 && d < needed as usize;
        proof {
            lemma_count_true_push(mask@, mined);
        }
        mask.push(mined);
        proof {
            assert(mask@ =~= sel.take(i + 1));
        }
        if mined {
            needed -= 1;
        }
        i += 1;
    }
    assert(mask@ =~= sel);
    mask
}

/// Relies on rand::rng and rand::Rng::random_range: a number drawn from `0..n` by the
/// thread's generator. random_range panics on an empty range, which `requires` leaves out.
#[verifier::external_body]
fn random_below(n: usize) -> (r: usize)
    requires
        n > 0,
    ensures
        r < n,
{
    rand::rng().random_range(0..n)
}

/// Uniform draws for selection on an `n`-cell grid.
fn random_draws(n: usize) -> (r: Vec<usize>)
    ensures
        valid_draws(r@, n as int),
{
    let mut draws: Vec<usize> = Vec::new();
    let mut i: usize = 0;
    while i < n
        invariant
            i <= n,
            draws@.len() == i,
            forall|j: int| 0 <= j < i ==> #[trigger] draws@[j] < n - j,
        decreases n - i,
    {
        let d = random_below(n - i);
        draws.push(d);
        i += 1;
    }
    draws
}

/// A row-major mask of `n` cells, none of them mined.
fn clear_mask(n: usize) -> (r: Vec<bool>)
    ensures
        r@.len() == n,
        count_true(r@) == 0,
        forall|j: int| 0 <= j < n ==> !#[trigger] r@[j],
{
    let mut mask: Vec<bool> = Vec::new();
    let mut i: usize = 0;
    while i < n
        invariant
            i <= n,
            mask@.len() == i,
            count_true(mask@) == 0,
            forall|j: int| 0 <= j < i ==> !#[trigger] mask@[j],
        decreases n - i,
    {
        proof {
            lemma_count_true_push(mask@, false);
        }
        mask.push(false);
        i += 1;
    }
    mask
}

/// Whether a grid can be made of the given size with mines on the listed cells: both
/// sides positive, every mine inside the grid and on a cell of its own, fewer mines than
/// cells, and a mine count that fits in 16 bits.
pub open spec fn valid_layout(w: int, h: int, bombs: Seq<Coordinate>) -> bool {
    &&& w > 0
    &&& h > 0
    &&& bombs.len() < w * h
    &&& bombs.len() <= u16::MAX
    &&& bombs.no_duplicates()
    &&& forall|i: int| 0 <= i < bombs.len() ==> in_bounds(w, h, #[trigger] bombs[i])
}

/// Whether a grid of the given size can hold the given number of mines.
pub open spec fn valid_config(w: int, h: int, mine_count: int) -> bool {
    w > 0 && h > 0 && mine_count < w * h
}

/// A line of `n` dashes.
pub open spec fn dashes(n: nat) -> Seq<char> {
    Seq::new(n, |i: int| '-')
}

/// The pictures of the first `k` tiles of row `y`, side by side.
pub open spec fn row_text(m: TileMap, y: int, k: nat) -> Seq<char>
    decreases k,
{
    if k == 0 {
        Seq::empty()
    } else {
        row_text(m, y, (k - 1) as nat) + tile_text(
            m.tile(Coordinate { x: (k - 1) as u16, y: y as u16 }),
        )
    }
}

/// The first `k` lines of the rows of the picture, top row first, each framed by `|`.
pub open spec fn rows_text(m: TileMap, k: nat) -> Seq<char>
    decreases k,
{
    if k == 0 {
        Seq::empty()
    } else {
        rows_text(m, (k - 1) as nat) + seq!['|'] + row_text(m, m.h() - k, m.w() as nat) + seq![
            '|',
            '\n',
        ]
    }
}

/// The text picture of a grid: a header with its size and mine count, a border, the rows
/// from the top one down, and the border again.
pub open spec fn map_text(m: TileMap) -> Seq<char> {
    "Map ("@ + decimal(m.w() as nat) + ", "@ + decimal(m.h() as nat) + ") with "@ + decimal(
        m.mine_total() as nat,
    ) + " bombs:\n"@ + dashes((m.w() + 2) as nat) + seq!['\n'] + rows_text(m, m.h() as nat)
        + dashes((m.w() + 2) as nat)
}

/// A `width` x `height` grid of tiles, stored row by row.
#[derive(Debug, Clone)]
pub struct TileMap {
    bomb_count: u16,
    height: u16,
    width: u16,
    map: Vec<Tile>,
}

impl TileMap {
    /// Number of columns.
    pub closed spec fn w(&self) -> u16 {
        self.width
    }

    /// Number of rows.
    pub closed spec fn h(&self) -> u16 {
        self.height
    }

    /// The number of mines the grid was made with.
    pub closed spec fn mine_total(&self) -> u16 {
        self.bomb_count
    }

    /// The tiles, row by row.
    pub closed spec fn tiles(&self) -> Seq<Tile> {
        self.map@
    }

    /// The tile at `c`, for `c` inside the grid.
    pub open spec fn tile(&self, c: Coordinate) -> Tile {
        self.tiles()[cell_index(self.w() as int, c)]
    }

    /// Which cells, row by row, hold a mine.
    pub open spec fn mines(&self) -> Seq<bool> {
        mines_of(self.tiles())
    }

    pub open spec fn contains(&self, c: Coordinate) -> bool {
        in_bounds(self.w() as int, self.h() as int, c)
    }

    pub open spec fn is_mine(&self, c: Coordinate) -> bool {
        self.contains(c) && self.tile(c) is Bomb
    }

    /// How many neighbours of `c` hold a mine.
    pub open spec fn mines_near(&self, c: Coordinate) -> nat {
        mines_around(self.mines(), self.w() as int, self.h() as int, c)
    }

    /// One tile per cell; exactly `mine_total` mines; every other cell is `Empty` when no
    /// neighbour holds a mine and otherwise holds the number of neighbours that do.
    pub open spec fn wf(&self) -> bool {
        &&& self.tiles().len() == self.w() * self.h()
        &&& count_true(self.mines()) == self.mine_total()
        &&& forall|c: Coordinate|
            self.contains(c) ==> #[trigger] self.tile(c) == expected_tile(
                self.mines(),
                self.w() as int,
                self.h() as int,
                c,
            )
    }

    /// No cell next to an empty cell holds a mine.
    pub proof fn lemma_no_mine_next_to_empty(&self, p: Coordinate, d: Coordinate)
        requires
            self.wf(),
            self.contains(p),
            self.tile(p) == Tile::Empty,
            self.contains(d),
            adjacent(p, d),
        ensures
            !self.is_mine(d),
    {
        let w = self.w() as int;
        let h = self.h() as int;
        lemma_neighbors(w, h, p);
        let s = neighbors(w, h, p);
        assert(self.tile(p) == expected_tile(self.mines(), w, h, p));
        lemma_count_mined_zero(self.mines(), w, s);
        assert(s.contains(d));
        let i = choose|i: int| 0 <= i < s.len() && s[i] == d;
        assert(!self.mines()[cell_index(w, s[i])]);
        lemma_cell_index(w, h, d);
    }

    /// The cells that hold a mine.
    pub open spec fn mine_cells(&self) -> Set<Coordinate> {
        Set::new(|c: Coordinate| self.is_mine(c))
    }

    /// Exactly `mine_total` cells of a well-formed grid hold a mine.
    pub proof fn lemma_mine_count(&self)
        requires
            self.wf(),
        ensures
            self.mine_cells().finite(),
            self.mine_cells().len() == self.mine_total(),
    {
        let w = self.w() as int;
        let h = self.h() as int;
        let m = self.mines();
        let positions = true_positions(m);
        lemma_true_positions(m);
        let f = |i: int| cell_at(w, i);
        assert forall|i1: int, i2: int|
            positions.contains(i1) && positions.contains(i2) && #[trigger] f(i1) == #[trigger] f(
                i2,
            ) implies i1 == i2 by {
            lemma_cell_at(w, h, i1);
            lemma_cell_at(w, h, i2);
        }
        assert forall|c: Coordinate| #[trigger] positions.map(f).contains(c) == self.mine_cells().contains(c) by {
            if positions.map(f).contains(c) {
                let i = choose|i: int| positions.contains(i) && f(i) == c;
                lemma_cell_at(w, h, i);
            }
            if self.is_mine(c) {
                lemma_cell_index(w, h, c);
                assert(positions.contains(cell_index(w, c)));
                assert(f(cell_index(w, c)) == c);
            }
        }
        assert(positions.map(f) =~= self.mine_cells());
        lemma_map_size(positions, self.mine_cells(), f);
    }

    /// The cells of the grid that touch `c` and hold a mine.
    pub open spec fn mined_neighbors(&self, c: Coordinate) -> Set<Coordinate> {
        Set::new(|d: Coordinate| self.contains(d) && adjacent(c, d) && self.is_mine(d))
    }

    /// Numbering: a cell without a mine is `Empty` when no cell touching it holds a mine,
    /// and otherwise holds the number of cells touching it that do.
    pub proof fn lemma_numbering(&self, c: Coordinate)
        requires
            self.wf(),
            self.contains(c),
            !self.is_mine(c),
        ensures
            self.mined_neighbors(c).finite(),
            self.tile(c) == (if self.mined_neighbors(c).len() == 0 {
                Tile::Empty
            } else {
                Tile::BombNeighbor(self.mined_neighbors(c).len() as u8)
            }),
    {
        let w = self.w() as int;
        let h = self.h() as int;
        let s = neighbors(w, h, c);
        lemma_neighbors(w, h, c);
        lemma_count_mined_set(self.mines(), w, s);
        assert forall|d: Coordinate| #[trigger]
            self.mined_neighbors(c).contains(d) == mined_set(self.mines(), w, s).contains(d) by {
            if self.contains(d) {
                lemma_cell_index(w, h, d);
            }
        }
        assert(self.mined_neighbors(c) =~= mined_set(self.mines(), w, s));
        lemma_cell_index(w, h, c);
        assert(self.tile(c) == expected_tile(self.mines(), w, h, c));
    }

    /// A cell without a mine is empty or counts between 1 and 8 mines around it.
    pub proof fn lemma_tile_kinds(&self, c: Coordinate)
        requires
            self.wf(),
            self.contains(c),
        ensures
            self.tile(c) is Bomb <==> self.is_mine(c),
            self.tile(c) is Empty <==> (!self.is_mine(c) && self.mines_near(c) == 0),
            self.tile(c) matches Tile::BombNeighbor(n) ==> 1 <= n <= 8 && n == self.mines_near(c),
    {
        let w = self.w() as int;
        let h = self.h() as int;
        lemma_neighbors(w, h, c);
        lemma_count_mined_bound(self.mines(), w, neighbors(w, h, c));
        lemma_cell_index(w, h, c);
        assert(self.tile(c) == expected_tile(self.mines(), w, h, c));
    }

    /// The grid whose mined cells are `mask`, numbered.
    fn from_mask(width: u16, height: u16, mask: &Vec<bool>, bomb_count: u16) -> (r: TileMap)
        requires
            mask@.len() == width * height,
            count_true(mask@) == bomb_count,
        ensures
            r.wf(),
            r.w() == width,
            r.h() == height,
            r.mine_total() == bomb_count,
            r.mines() == mask@,
    {
        let ghost w = width as int;
        let ghost h = height as int;
        proof {
            lemma_grid_size(w, h);
        }
        let n: usize = width as usize * height as usize;
        let mut map: Vec<Tile> = Vec::new();
        let mut i: usize = 0;
        while i < n
            invariant
                n == mask@.len(),
                i <= n,
                map@.len() == i,
                forall|j: int|
                    0 <= j < i ==> (#[trigger] map@[j] is Bomb) == mask@[j] && (map@[j] is Bomb
                        || map@[j] is Empty),
            decreases n - i,
        {
            if mask[i] {
                map.push(Tile::Bomb);
            } else {
                map.push(Tile::Empty);
            }
            i += 1;
        }
        assert(mines_of(map@) =~= mask@);
        let mut i: usize = 0;
        while i < n
            invariant
                n == w * h,
                w == width as int,
                h == height as int,
                map@.len() == n,
                mines_of(map@) == mask@,
                i <= n,
                forall|j: int|
                    0 <= j < i ==> #[trigger] map@[j] == expected_tile(mask@, w, h, cell_at(w, j)),
            decreases n - i,
        {
            proof {
                lemma_cell_at(w, h, i as int);
            }
            let c = Coordinate { x: (i % width as usize) as u16, y: (i / width as usize) as u16 };
            assert(c == cell_at(w, i as int));
            if !map[i].is_bomb() {
                let num = count_bombs_in(&map, width, height, c);
                let t = if num == 0 {
                    Tile::Empty
                } else {
                    Tile::BombNeighbor(num)
                };
                let ghost before = map@;
                map[i] = t;
                assert(mines_of(map@) =~= mines_of(before));
            } else {
                assert(mines_of(map@)[i as int]);
            }
            i += 1;
        }
        let r = TileMap { bomb_count, height, width, map };
        assert forall|c: Coordinate| r.contains(c) implies #[trigger] r.tile(c) == expected_tile(
            r.mines(),
            w,
            h,
            c,
        ) by {
            lemma_cell_index(w, h, c);
        }
        r
    }

    /// A grid of the given size with no mine: every tile is `Empty`.
    pub fn empty(width: u16, height: u16) -> (r: Self)
        ensures
            r.wf(),
            r.w() == width,
            r.h() == height,
            r.mine_total() == 0,
            forall|c: Coordinate| r.contains(c) ==> #[trigger] r.tile(c) == Tile::Empty,
    {
        proof {
            lemma_grid_size(width as int, height as int);
        }
        let n: usize = width as usize * height as usize;
        let mask = clear_mask(n);
        let r = Self::from_mask(width, height, &mask, 0);
        assert forall|c: Coordinate| r.contains(c) implies #[trigger] r.tile(c) == Tile::Empty by {
            let w = width as int;
            let h = height as int;
            lemma_neighbors(w, h, c);
            let s = neighbors(w, h, c);
            assert forall|i: int| 0 <= i < s.len() implies !mask@[cell_index(w, #[trigger] s[i])] by {
                assert(s.contains(s[i]));
                lemma_cell_index(w, h, s[i]);
            }
            lemma_count_mined_none(mask@, w, s);
            lemma_cell_index(w, h, c);
        }
        r
    }

    /// The grid with mines exactly on the listed cells, numbered; fails with
    /// `InvalidConfiguration` unless the layout is valid.
    pub fn with_bombs(width: u16, height: u16, bombs: &Vec<Coordinate>) -> (r: Result<
        TileMap,
        GridError,
    >)
        ensures
            r is Ok <==> valid_layout(width as int, height as int, bombs@),
            match r {
                Ok(m) => {
                    &&& m.wf()
                    &&& m.w() == width
                    &&& m.h() == height
                    &&& m.mine_total() == bombs@.len()
                    &&& forall|c: Coordinate|
                        m.contains(c) ==> (#[trigger] m.is_mine(c) <==> bombs@.contains(c))
                },
                Err(e) => e == GridError::InvalidConfiguration,
            },
    {
        let ghost w = width as int;
        let ghost h = height as int;
        if width == 0 || height == 0 {
            return Err(GridError::InvalidConfiguration);
        }
        proof {
            lemma_grid_size(w, h);
        }
        let n: usize = width as usize * height as usize;
        if bombs.len() >= n || bombs.len() > u16::MAX as usize {
            return Err(GridError::InvalidConfiguration);
        }
        let mut mask = clear_mask(n);
        assert forall|c: Coordinate| in_bounds(w, h, c) implies (mask@[cell_index(w, c)]
            <==> #[trigger] bombs@.take(0).contains(c)) by {
            lemma_cell_index(w, h, c);
        }
        let mut i: usize = 0;
        while i < bombs.len()
            invariant
                w == width as int,
                h == height as int,
                w > 0,
                h > 0,
                n == w * h,
                0 <= w * h <= u32::MAX,
                bombs@.len() < n,
                bombs@.len() <= u16::MAX,
                i <= bombs@.len(),
                mask@.len() == n,
                count_true(mask@) == i,
                forall|c: Coordinate|
                    in_bounds(w, h, c) ==> (mask@[cell_index(w, c)] <==> #[trigger] bombs@.take(
                        i as int,
                    ).contains(c)),
                bombs@.take(i as int).no_duplicates(),
                forall|j: int| 0 <= j < i ==> in_bounds(w, h, #[trigger] bombs@[j]),
            decreases bombs@.len() - i,
        {
            let b = bombs[i];
            if b.x >= width || b.y >= height {
                assert(!in_bounds(w, h, bombs@[i as int]));
                return Err(GridError::InvalidConfiguration);
            }
            proof {
                lemma_cell_index(w, h, b);
            }
            let idx: usize = b.y as usize * width as usize + b.x as usize;
            if mask[idx] {
                proof {
                    let pre = bombs@.take(i as int);
                    assert(pre.contains(b));
                    let j = choose|j: int| 0 <= j < pre.len() && pre[j] == b;
                    assert(bombs@[j] == bombs@[i as int]);
                }
                return Err(GridError::InvalidConfiguration);
            }
            let ghost before = mask@;
            proof {
                lemma_count_true_set(mask@, idx as int);
            }
            mask[idx] = true;
            proof {
                let pre = bombs@.take(i as int);
                let post = bombs@.take(i + 1);
                assert(post =~= pre.push(b));
                assert forall|c: Coordinate| in_bounds(w, h, c) implies (mask@[cell_index(w, c)]
                    <==> #[trigger] post.contains(c)) by {
                    lemma_cell_index(w, h, c);
                    if post.contains(c) && c != b {
                        let j = choose|j: int| 0 <= j < post.len() && post[j] == c;
                        assert(pre[j] == c);
                    }
                    if pre.contains(c) {
                        let j = choose|j: int| 0 <= j < pre.len() && pre[j] == c;
                        assert(post[j] == c);
                    }
                    if c == b {
                        assert(post[i as int] == c);
                    }
                }
                assert forall|j: int, k: int|
                    0 <= j < post.len() && 0 <= k < post.len() && j != k implies post[j]
                    != post[k] by {
                    if j == i {
                        assert(pre.contains(post[k]));
                    } else if k == i {
                        assert(pre.contains(post[j]));
                    }
                }
            }
            i += 1;
        }
        assert(bombs@.take(bombs@.len() as int) =~= bombs@);
        let m = Self::from_mask(width, height, &mask, bombs.len() as u16);
        assert forall|c: Coordinate| m.contains(c) implies (#[trigger] m.is_mine(c)
            <==> bombs@.contains(c)) by {
            lemma_cell_index(w, h, c);
        }
        Ok(m)
    }

    /// The grid whose mines are placed by selection on `draws`, numbered; fails with
    /// `InvalidConfiguration` when a side is zero, there are not fewer mines than cells, or
    /// the draws are not one per cell each below the number of cells left.
    pub fn from_draws(width: u16, height: u16, mine_count: u16, draws: &Vec<usize>) -> (r: Result<
        TileMap,
        GridError,
    >)
        ensures
            r is Ok <==> valid_config(width as int, height as int, mine_count as int)
                && valid_draws(draws@, width * height),
            match r {
                Ok(m) => {
                    &&& m.wf()
                    &&& m.w() == width
                    &&& m.h() == height
                    &&& m.mine_total() == mine_count
                    &&& m.mines() == selection(draws@, mine_count as nat)
                },
                Err(e) => e == GridError::InvalidConfiguration,
            },
    {
        if width == 0 || height == 0 {
            return Err(GridError::InvalidConfiguration);
        }
        proof {
            lemma_grid_size(width as int, height as int);
        }
        let n: usize = width as usize * height as usize;
        if mine_count as usize >= n || draws.len() != n {
            return Err(GridError::InvalidConfiguration);
        }
        let mut i: usize = 0;
        while i < n
            invariant
                i <= n,
                draws@.len() == n,
                forall|j: int| 0 <= j < i ==> #[trigger] draws@[j] < n - j,
            decreases n - i,
        {
            if draws[i] >= n - i {
                return Err(GridError::InvalidConfiguration);
            }
            i += 1;
        }
        let mask = mask_from_draws(n, mine_count, draws);
        Ok(Self::from_mask(width, height, &mask, mine_count))
    }

    /// A `width` x `height` grid with `mine_count` mines on cells drawn at random, every
    /// placement equally likely, numbered; fails with `InvalidConfiguration` when a side is
    /// zero or there are not fewer mines than cells.
    pub fn generate(width: u16, height: u16, mine_count: u16) -> (r: Result<TileMap, GridError>)
        ensures
            r is Ok <==> valid_config(width as int, height as int, mine_count as int),
            match r {
                Ok(m) => {
                    &&& m.wf()
                    &&& m.w() == width
                    &&& m.h() == height
                    &&& m.mine_total() == mine_count
                },
                Err(e) => e == GridError::InvalidConfiguration,
            },
    {
        if width == 0 || height == 0 {
            return Err(GridError::InvalidConfiguration);
        }
        proof {
            lemma_grid_size(width as int, height as int);
        }
        let n: usize = width as usize * height as usize;
        if mine_count as usize >= n {
            return Err(GridError::InvalidConfiguration);
        }
        let draws = random_draws(n);
        Self::from_draws(width, height, mine_count, &draws)
    }

    /// Replaces the mines with `bomb_count` mines on cells drawn at random, every placement
    /// equally likely, and numbers the grid again; fails with `InvalidConfiguration`, leaving
    /// the grid as it was, when a side is zero or there are not fewer mines than cells.
    pub fn set_bombs(&mut self, bomb_count: u16) -> (r: Result<(), GridError>)
        ensures
            r is Ok <==> valid_config(old(self).w() as int, old(self).h() as int, bomb_count as int),
            match r {
                Ok(_) => {
                    &&& final(self).wf()
                    &&& final(self).w() == old(self).w()
                    &&& final(self).h() == old(self).h()
                    &&& final(self).mine_total() == bomb_count
                },
                Err(e) => e == GridError::InvalidConfiguration && *final(self) == *old(self),
            },
    {
        match Self::generate(self.width, self.height, bomb_count) {
            Ok(m) => {
                *self = m;
                Ok(())
            },
            Err(e) => Err(e),
        }
    }

    /// The first cell, in row-major order, whose tile is `Empty`.
    pub fn first_empty(&self) -> (r: Option<Coordinate>)
        requires
            self.wf(),
        ensures
            match r {
                Some(c) => {
                    &&& self.contains(c)
                    &&& self.tile(c) == Tile::Empty
                    &&& forall|d: Coordinate|
                        self.contains(d) && cell_index(self.w() as int, d) < cell_index(
                            self.w() as int,
                            c,
                        ) ==> #[trigger] self.tile(d) != Tile::Empty
                },
                None => forall|d: Coordinate| self.contains(d) ==> #[trigger] self.tile(d) != Tile::Empty,
            },
    {
        let ghost w = self.w() as int;
        let ghost h = self.h() as int;
        proof {
            lemma_grid_size(w, h);
        }
        let n: usize = self.width as usize * self.height as usize;
        let mut i: usize = 0;
        while i < n
            invariant
                self.wf(),
                w == self.w() as int,
                h == self.h() as int,
                n == w * h,
                i <= n,
                forall|j: int| 0 <= j < i ==> self.tiles()[j] != Tile::Empty,
            decreases n - i,
        {
            if self.map[i] == Tile::Empty {
                proof {
                    lemma_cell_at(w, h, i as int);
                }
                let c = Coordinate {
                    x: (i % self.width as usize) as u16,
                    y: (i / self.width as usize) as u16,
                };
                assert(c == cell_at(w, i as int));
                assert forall|d: Coordinate|
                    self.contains(d) && cell_index(w, d) < cell_index(w, c) implies #[trigger] self.tile(
                    d,
                ) != Tile::Empty by {
                    lemma_cell_index(w, h, d);
                }
                return Some(c);
            }
            i += 1;
        }
        assert forall|d: Coordinate| self.contains(d) implies #[trigger] self.tile(d) != Tile::Empty by {
            lemma_cell_index(w, h, d);
        }
        None
    }

    /// Appends a line of `w + 2` dashes.
    fn push_border(&self, s: &mut String)
        ensures
            final(s)@ == old(s)@ + dashes((self.w() + 2) as nat),
    {
        let n: u32 = self.width as u32 + 2;
        let mut i: u32 = 0;
        while i < n
            invariant
                i <= n,
                n == self.w() + 2,
                s@ == old(s)@ + dashes(i as nat),
            decreases n - i,
        {
            s.append("-");
            proof {
                reveal_strlit("-");
                assert(dashes((i + 1) as nat) =~= dashes(i as nat) + seq!['-']);
            }
            i += 1;
        }
    }

    /// Appends the pictures of the tiles of row `y`, left to right.
    fn push_row(&self, s: &mut String, y: u16)
        requires
            self.wf(),
            y < self.h(),
        ensures
            final(s)@ == old(s)@ + row_text(*self, y as int, self.w() as nat),
    {
        let mut x: u16 = 0;
        while x < self.width
            invariant
                self.wf(),
                y < self.h(),
                x <= self.w(),
                s@ == old(s)@ + row_text(*self, y as int, x as nat),
            decreases self.w() - x,
        {
            proof {
                lemma_cell_index(self.w() as int, self.h() as int, Coordinate { x, y });
                lemma_grid_size(self.w() as int, self.h() as int);
            }
            let idx: usize = y as usize * self.width as usize + x as usize;
            let t = self.map[idx].console_output();
            s.append(t.as_str());
            x += 1;
        }
    }

    /// A text picture of the grid, top row first.
    pub fn console_output(&self) -> (r: String)
        requires
            self.wf(),
        ensures
            r@ == map_text(*self),
    {
        let mut s = String::from_str("Map (");
        push_decimal(&mut s, self.width);
        s.append(", ");
        push_decimal(&mut s, self.height);
        s.append(") with ");
        push_decimal(&mut s, self.bomb_count);
        s.append(" bombs:\n");
        self.push_border(&mut s);
        s.append("\n");
        proof {
            reveal_strlit("\n");
            reveal_strlit("|");
            reveal_strlit("|\n");
        }
        let ghost head = s@;
        let mut k: u16 = 0;
        while k < self.height
            invariant
                self.wf(),
                k <= self.h(),
                s@ == head + rows_text(*self, k as nat),
            decreases self.h() - k,
        {
            s.append("|");
            self.push_row(&mut s, self.height - 1 - k);
            s.append("|\n");
            proof {
                reveal_strlit("|");
                reveal_strlit("|\n");
                assert("|"@ =~= seq!['|']);
                assert("|\n"@ =~= seq!['|', '\n']);
                assert(s@ =~= head + rows_text(*self, (k + 1) as nat));
            }
            k += 1;
        }
        self.push_border(&mut s);
        proof {
            assert(s@ =~= map_text(*self));
        }
        s
    }

    pub fn width(&self) -> (r: u16)
        ensures
            r == self.w(),
    {
        self.width
    }

    pub fn height(&self) -> (r: u16)
        ensures
            r == self.h(),
    {
        self.height
    }

    pub fn bomb_count(&self) -> (r: u16)
        ensures
            r == self.mine_total(),
    {
        self.bomb_count
    }

    /// The neighbours of `coordinate` that lie in the grid, in direction order.
    pub fn safe_square_at(&self, coordinate: Coordinate) -> (r: Vec<Coordinate>)
        ensures
            r@ == neighbors(self.w() as int, self.h() as int, coordinate),
    {
        neighbor_cells(self.width, self.height, coordinate)
    }

    /// The tile at `coordinate`, or `None` outside the grid.
    pub fn tile_at(&self, coordinate: Coordinate) -> (r: Option<Tile>)
        requires
            self.wf(),
        ensures
            r == (if self.contains(coordinate) {
                Some(self.tile(coordinate))
            } else {
                None
            }),
    {
        if coordinate.x >= self.width || coordinate.y >= self.height {
            return None;
        }
        proof {
            lemma_cell_index(self.w() as int, self.h() as int, coordinate);
            lemma_grid_size(self.w() as int, self.h() as int);
        }
        let idx: usize = coordinate.y as usize * self.width as usize + coordinate.x as usize;
        Some(self.map[idx])
    }

    /// Whether `coordinate` is a cell of the grid that holds a mine; false outside.
    pub fn is_bomb_at(&self, coordinate: Coordinate) -> (r: bool)
        requires
            self.wf(),
        ensures
            r == self.is_mine(coordinate),
    {
        if coordinate.x >= self.width || coordinate.y >= self.height {
            return false;
        }
        proof {
            lemma_cell_index(self.w() as int, self.h() as int, coordinate);
            lemma_grid_size(self.w() as int, self.h() as int);
        }
        let idx: usize = coordinate.y as usize * self.width as usize + coordinate.x as usize;
        self.map[idx].is_bomb()
    }

    /// How many neighbours of `coordinate` hold a mine; 0 on a mine or outside the grid.
    pub fn bomb_count_at(&self, coordinate: Coordinate) -> (r: u8)
        requires
            self.wf(),
        ensures
            r == (if !self.contains(coordinate) || self.is_mine(coordinate) {
                0
            } else {
                self.mines_near(coordinate)
            }),
    {
        if coordinate.x >= self.width || coordinate.y >= self.height {
            return 0;
        }
        if self.is_bomb_at(coordinate) {
            return 0;
        }
        count_bombs_in(&self.map, self.width, self.height, coordinate)
    }
}

} // verus!
