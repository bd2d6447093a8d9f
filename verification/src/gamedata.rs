use crate::cursor::{cursor_in_bounds, Cursor, CursorActions, Moves};
use crate::grid_store::{grid_cols, grid_from_vec, grid_get_tile, grid_seq, grid_set_tile, grid_square};
use crate::rng::random_below;
use vstd::pervasive::VecAdditionalExecFns;
use vstd::prelude::*;

verus! {

/// What the renderer shows for a tile: still hidden, marked with `!`,
/// the adjacent-mine count of a revealed tile, or a mine at game end.
#[derive(PartialEq, Eq, Structural, Clone, Copy, Debug)]
pub enum TileDisplay {
    Hidden,
    Marked,
    Count(u8),
    Mine,
}

#[derive(PartialEq, Eq, Structural, Clone, Copy, Debug)]
pub struct Tile {
    pub is_bomb: bool,
    pub been_revealed: bool,
    pub bombs_around: u8,
    pub display: TileDisplay,
    pub name: usize,
}

#[derive(PartialEq, Eq, Structural, Clone, Copy, Debug)]
pub struct GameData {
    pub revealed_tiles: usize,
    pub tiles_marked: isize,
    pub revealed_tiles_to_win: usize,
}

pub struct GameConfig {
    pub grid_size: usize,
    pub bomb_count: isize,
    pub tiles: grid::Grid<Tile>,
    pub game_data: GameData,
    pub cursor_data: Cursor,
}

#[derive(PartialEq, Eq, Structural, Clone, Copy, Debug)]
pub enum GameActions {
    IncorrectInput,
    GameOver,
    Win,
    TileAlreadySelected,
    TileAlreadyMarked,
    SuccessfulRun,
}

#[derive(PartialEq, Eq, Structural, Clone, Copy, Debug)]
pub enum GameError {
    InvalidConfiguration,
}

// ---------------------------------------------------------------------
// Coordinates and 8-neighborhoods
// ---------------------------------------------------------------------

pub open spec fn in_bounds_coord(p: (int, int), n: int) -> bool {
    0 <= p.0 < n && 0 <= p.1 < n
}

/// The row-major linear index of a coordinate.
pub open spec fn lin(p: (int, int), n: int) -> int {
    p.0 * n + p.1
}

pub open spec fn coord_of(i: int, n: int) -> (int, int) {
    (i / n, i % n)
}

pub open spec fn keep(r: int, c: int, n: int) -> Seq<(int, int)> {
    if in_bounds_coord((r, c), n) {
        seq![(r, c)]
    } else {
        Seq::empty()
    }
}

/// The in-bounds 8-neighbors of (r, c), in the order the resolver
/// generates its candidate offsets.
pub open spec fn neighbors_of(r: int, c: int, n: int) -> Seq<(int, int)> {
    keep(r, c - 1, n) + keep(r, c + 1, n) + keep(r - 1, c, n) + keep(r + 1, c, n) + keep(
        r - 1,
        c + 1,
        n,
    ) + keep(r + 1, c - 1, n) + keep(r - 1, c - 1, n) + keep(r + 1, c + 1, n)
}

/// Two distinct cells whose rows and columns differ by at most one.
pub open spec fn adjacent8(a: (int, int), b: (int, int)) -> bool {
    a != b && -1 <= a.0 - b.0 <= 1 && -1 <= a.1 - b.1 <= 1
}

/// The flattened neighbor lists of a whole coordinate list.
pub open spec fn neighbors_of_all(coords: Seq<(int, int)>, n: int) -> Seq<(int, int)>
    decreases coords.len(),
{
    if coords.len() == 0 {
        Seq::empty()
    } else {
        neighbors_of_all(coords.drop_last(), n) + neighbors_of(
            coords.last().0,
            coords.last().1,
            n,
        )
    }
}

/// How often `p` occurs in `s`.
pub open spec fn occ(s: Seq<(int, int)>, p: (int, int)) -> int
    decreases s.len(),
{
    if s.len() == 0 {
        0
    } else {
        occ(s.drop_last(), p) + if s.last() == p {
            1int
        } else {
            0int
        }
    }
}

pub proof fn lemma_occ_concat(a: Seq<(int, int)>, b: Seq<(int, int)>, p: (int, int))
    ensures
        occ(a + b, p) == occ(a, p) + occ(b, p),
    decreases b.len(),
{
    if b.len() == 0 {
        assert(a + b =~= a);
    } else {
        assert((a + b).drop_last() =~= a + b.drop_last());
        lemma_occ_concat(a, b.drop_last(), p);
    }
}

pub proof fn lemma_occ_nonneg_contains(s: Seq<(int, int)>, p: (int, int))
    ensures
        occ(s, p) >= 0,
        occ(s, p) >= 1 <==> s.contains(p),
    decreases s.len(),
{
    if s.len() > 0 {
        lemma_occ_nonneg_contains(s.drop_last(), p);
        if s.drop_last().contains(p) {
            let k = choose|k: int| 0 <= k < s.len() - 1 && s.drop_last()[k] == p;
            assert(s[k] == p);
        }
        if s.contains(p) && s.last() != p {
            let k = choose|k: int| 0 <= k < s.len() && s[k] == p;
            assert(s.drop_last()[k] == p);
        }
    }
}

proof fn lemma_occ_keep(r: int, c: int, n: int, p: (int, int))
    ensures
        occ(keep(r, c, n), p) == if in_bounds_coord((r, c), n) && (r, c) == p {
            1int
        } else {
            0int
        },
{
    if in_bounds_coord((r, c), n) {
        let s = seq![(r, c)];
        assert(keep(r, c, n) == s);
        assert(s.drop_last() =~= Seq::<(int, int)>::empty());
        assert(occ(s.drop_last(), p) == 0);
        assert(s.last() == (r, c));
        assert(occ(s, p) == 0 + if (r, c) == p {
            1int
        } else {
            0int
        });
    } else {
        assert(keep(r, c, n) == Seq::<(int, int)>::empty());
        assert(occ(keep(r, c, n), p) == 0);
    }
}

/// Each cell occurs in a neighbor list at most once: exactly once when
/// it is an in-bounds 8-neighbor of the center, else not at all.
pub proof fn lemma_occ_neighbors(r: int, c: int, n: int, p: (int, int))
    ensures
        occ(neighbors_of(r, c, n), p) == if in_bounds_coord(p, n) && adjacent8((r, c), p) {
            1int
        } else {
            0int
        },
{
    let k1 = keep(r, c - 1, n);
    let k2 = keep(r, c + 1, n);
    let k3 = keep(r - 1, c, n);
    let k4 = keep(r + 1, c, n);
    let k5 = keep(r - 1, c + 1, n);
    let k6 = keep(r + 1, c - 1, n);
    let k7 = keep(r - 1, c - 1, n);
    let k8 = keep(r + 1, c + 1, n);
    lemma_occ_concat(k1 + k2 + k3 + k4 + k5 + k6 + k7, k8, p);
    lemma_occ_concat(k1 + k2 + k3 + k4 + k5 + k6, k7, p);
    lemma_occ_concat(k1 + k2 + k3 + k4 + k5, k6, p);
    lemma_occ_concat(k1 + k2 + k3 + k4, k5, p);
    lemma_occ_concat(k1 + k2 + k3, k4, p);
    lemma_occ_concat(k1 + k2, k3, p);
    lemma_occ_concat(k1, k2, p);
    lemma_occ_keep(r, c - 1, n, p);
    lemma_occ_keep(r, c + 1, n, p);
    lemma_occ_keep(r - 1, c, n, p);
    lemma_occ_keep(r + 1, c, n, p);
    lemma_occ_keep(r - 1, c + 1, n, p);
    lemma_occ_keep(r + 1, c - 1, n, p);
    lemma_occ_keep(r - 1, c - 1, n, p);
    lemma_occ_keep(r + 1, c + 1, n, p);
}

/// A neighbor list holds exactly the in-bounds 8-neighbors of its center.
pub proof fn lemma_neighbors_contains(r: int, c: int, n: int, p: (int, int))
    ensures
        neighbors_of(r, c, n).contains(p) <==> (in_bounds_coord(p, n) && adjacent8((r, c), p)),
{
    lemma_occ_neighbors(r, c, n, p);
    lemma_occ_nonneg_contains(neighbors_of(r, c, n), p);
}

/// An interior tile has exactly 8 in-bounds neighbors.
pub proof fn lemma_neighbor_count_interior(r: int, c: int, n: int)
    requires
        0 < r < n - 1,
        0 < c < n - 1,
    ensures
        neighbors_of(r, c, n).len() == 8,
{
}

/// A corner tile has exactly 3 in-bounds neighbors.
pub proof fn lemma_neighbor_count_corner(r: int, c: int, n: int)
    requires
        n >= 2,
        r == 0 || r == n - 1,
        c == 0 || c == n - 1,
    ensures
        neighbors_of(r, c, n).len() == 3,
{
}

/// An edge tile that is no corner has exactly 5 in-bounds neighbors.
pub proof fn lemma_neighbor_count_edge(r: int, c: int, n: int)
    requires
        ((r == 0 || r == n - 1) && 0 < c < n - 1) || ((c == 0 || c == n - 1) && 0 < r < n - 1),
    ensures
        neighbors_of(r, c, n).len() == 5,
{
}

// ---------------------------------------------------------------------
// Counting tiles
// ---------------------------------------------------------------------

/// The mine layout of a board, one flag per tile, row-major.
pub open spec fn bombs_of(tiles: Seq<Tile>) -> Seq<bool> {
    tiles.map_values(|t: Tile| t.is_bomb)
}

pub open spec fn mine_at(bombs: Seq<bool>, n: int, p: (int, int)) -> bool
    recommends
        0 <= lin(p, n) < bombs.len(),
{
    bombs[lin(p, n)]
}

/// How many of the given cells are mines.
pub open spec fn count_mines_at(bombs: Seq<bool>, n: int, coords: Seq<(int, int)>) -> int
    decreases coords.len(),
{
    if coords.len() == 0 {
        0
    } else {
        count_mines_at(bombs, n, coords.drop_last()) + if mine_at(bombs, n, coords.last()) {
            1int
        } else {
            0int
        }
    }
}

/// The number of mines among the in-bounds 8-neighbors of (r, c): what
/// a tile's `bombs_around` must equal.
pub open spec fn adj_mines(bombs: Seq<bool>, n: int, r: int, c: int) -> int {
    count_mines_at(bombs, n, neighbors_of(r, c, n))
}

pub open spec fn count_revealed(tiles: Seq<Tile>) -> int
    decreases tiles.len(),
{
    if tiles.len() == 0 {
        0
    } else {
        count_revealed(tiles.drop_last()) + if tiles.last().been_revealed {
            1int
        } else {
            0int
        }
    }
}

pub open spec fn count_bombs(tiles: Seq<Tile>) -> int
    decreases tiles.len(),
{
    if tiles.len() == 0 {
        0
    } else {
        count_bombs(tiles.drop_last()) + if tiles.last().is_bomb {
            1int
        } else {
            0int
        }
    }
}

pub open spec fn count_marked(tiles: Seq<Tile>) -> int
    decreases tiles.len(),
{
    if tiles.len() == 0 {
        0
    } else {
        count_marked(tiles.drop_last()) + if tiles.last().display == TileDisplay::Marked {
            1int
        } else {
            0int
        }
    }
}

pub proof fn lemma_counts_bounds(tiles: Seq<Tile>)
    ensures
        0 <= count_revealed(tiles) <= tiles.len(),
        0 <= count_bombs(tiles) <= tiles.len(),
        0 <= count_marked(tiles) <= tiles.len(),
    decreases tiles.len(),
{
    if tiles.len() > 0 {
        lemma_counts_bounds(tiles.drop_last());
    }
}

/// A board without mines, revealed tiles or marks counts none of them.
pub proof fn lemma_counts_all_clear(tiles: Seq<Tile>)
    ensures
        (forall|i: int| 0 <= i < tiles.len() ==> !(#[trigger] tiles[i]).is_bomb) ==> count_bombs(
            tiles,
        ) == 0,
        (forall|i: int| 0 <= i < tiles.len() ==> !(#[trigger] tiles[i]).been_revealed)
            ==> count_revealed(tiles) == 0,
        (forall|i: int| 0 <= i < tiles.len() ==> (#[trigger] tiles[i]).display
            != TileDisplay::Marked) ==> count_marked(tiles) == 0,
    decreases tiles.len(),
{
    if tiles.len() > 0 {
        assert(forall|i: int| 0 <= i < tiles.len() - 1 ==> #[trigger] tiles.drop_last()[i]
            == tiles[i]);
        lemma_counts_all_clear(tiles.drop_last());
        assert(tiles[tiles.len() - 1] == tiles.last());
    }
}

/// How every per-tile counter changes when one tile is replaced.
pub proof fn lemma_counts_update(tiles: Seq<Tile>, i: int, t: Tile)
    requires
        0 <= i < tiles.len(),
    ensures
        count_revealed(tiles.update(i, t)) == count_revealed(tiles) + (if t.been_revealed {
            1int
        } else {
            0int
        }) - (if tiles[i].been_revealed {
            1int
        } else {
            0int
        }),
        count_bombs(tiles.update(i, t)) == count_bombs(tiles) + (if t.is_bomb {
            1int
        } else {
            0int
        }) - (if tiles[i].is_bomb {
            1int
        } else {
            0int
        }),
        count_marked(tiles.update(i, t)) == count_marked(tiles) + (if t.display
            == TileDisplay::Marked {
            1int
        } else {
            0int
        }) - (if tiles[i].display == TileDisplay::Marked {
            1int
        } else {
            0int
        }),
    decreases tiles.len(),
{
    let s2 = tiles.update(i, t);
    if i == tiles.len() - 1 {
        assert(s2.drop_last() =~= tiles.drop_last());
    } else {
        assert(s2.drop_last() =~= tiles.drop_last().update(i, t));
        lemma_counts_update(tiles.drop_last(), i, t);
    }
}

/// A cell list counting no mines holds no mine at all.
pub proof fn lemma_count_mines_zero(bombs: Seq<bool>, n: int, coords: Seq<(int, int)>)
    requires
        count_mines_at(bombs, n, coords) == 0,
    ensures
        forall|k: int| 0 <= k < coords.len() ==> !mine_at(bombs, n, #[trigger] coords[k]),
    decreases coords.len(),
{
    if coords.len() > 0 {
        assert(count_mines_at(bombs, n, coords.drop_last()) >= 0) by {
            lemma_count_mines_at_bounds(bombs, n, coords.drop_last());
        }
        lemma_count_mines_zero(bombs, n, coords.drop_last());
        assert forall|k: int| 0 <= k < coords.len() implies !mine_at(
            bombs,
            n,
            #[trigger] coords[k],
        ) by {
            if k < coords.len() - 1 {
                assert(coords.drop_last()[k] == coords[k]);
                assert(!mine_at(bombs, n, coords.drop_last()[k]));
            } else {
                assert(coords[k] == coords.last());
            }
        }
    }
}

pub proof fn lemma_count_mines_at_bounds(bombs: Seq<bool>, n: int, coords: Seq<(int, int)>)
    ensures
        0 <= count_mines_at(bombs, n, coords) <= coords.len(),
    decreases coords.len(),
{
    if coords.len() > 0 {
        lemma_count_mines_at_bounds(bombs, n, coords.drop_last());
    }
}

// ---------------------------------------------------------------------
// Well-formedness
// ---------------------------------------------------------------------

/// What a tile may show: a revealed tile shows its count unless marked
/// over; a hidden tile shows the hidden glyph or a mark.
pub open spec fn tile_state_ok(t: Tile) -> bool {
    if t.been_revealed {
        t.display == TileDisplay::Count(t.bombs_around) || t.display == TileDisplay::Marked
    } else {
        t.display == TileDisplay::Hidden || t.display == TileDisplay::Marked
    }
}

/// The board invariant: square, tiles named by their index, every
/// adjacency count correct, displays consistent, and no revealed mine.
pub open spec fn board_wf(tiles: Seq<Tile>, n: int) -> bool {
    &&& tiles.len() == n * n
    &&& forall|i: int| 0 <= i < tiles.len() ==> (#[trigger] tiles[i]).name == i
    &&& forall|i: int|
        0 <= i < tiles.len() ==> (#[trigger] tiles[i]).bombs_around as int == adj_mines(
            bombs_of(tiles),
            n,
            i / n,
            i % n,
        )
    &&& forall|i: int| 0 <= i < tiles.len() ==> tile_state_ok(#[trigger] tiles[i])
    &&& forall|i: int|
        0 <= i < tiles.len() ==> !((#[trigger] tiles[i]).is_bomb && tiles[i].been_revealed)
}

/// The whole-session invariant: the board is well formed and the cached
/// counters agree with it.
pub open spec fn config_wf(gc: GameConfig) -> bool {
    let n = gc.grid_size as int;
    let tiles = grid_seq(gc.tiles);
    &&& 1 <= n
    &&& 2 * n * n < isize::MAX
    &&& n * n <= usize::MAX
    &&& grid_cols(gc.tiles) == gc.grid_size
    &&& board_wf(tiles, n)
    &&& gc.bomb_count == count_bombs(tiles)
    &&& gc.bomb_count < n * n
    &&& gc.game_data.revealed_tiles == count_revealed(tiles)
    &&& gc.game_data.revealed_tiles_to_win == n * n - gc.bomb_count
    &&& 0 <= gc.game_data.tiles_marked <= count_marked(tiles) + count_revealed(tiles)
    &&& count_marked(tiles) <= gc.game_data.tiles_marked
    &&& cursor_in_bounds(gc.cursor_data, n)
}

impl GameData {
    /// The win test: every safe tile has been revealed.
    pub fn win_conditions_met(&mut self) -> (r: bool)
        ensures
            *final(self) == *old(self),
            r == (old(self).revealed_tiles == old(self).revealed_tiles_to_win),
    {
        if self.revealed_tiles == self.revealed_tiles_to_win {
            true
        } else {
            false
        }
    }
}

// ---------------------------------------------------------------------
// Adjacency resolver
// ---------------------------------------------------------------------

pub open spec fn coord_view(p: (usize, usize)) -> (int, int) {
    (p.0 as int, p.1 as int)
}

pub open spec fn coords_view(s: Seq<(usize, usize)>) -> Seq<(int, int)> {
    s.map_values(|p: (usize, usize)| coord_view(p))
}

/// The in-bounds 8-neighbors of one tile, in candidate order.
fn coords_around_one(row: usize, col: usize, grid_size: usize) -> (res: Vec<(usize, usize)>)
    requires
        row < grid_size,
        col < grid_size,
    ensures
        coords_view(res@) == neighbors_of(row as int, col as int, grid_size as int),
        forall|k: int|
            0 <= k < res@.len() ==> (#[trigger] res@[k]).0 < grid_size && res@[k].1 < grid_size,
{
    let r = row;
    let c = col;
    let n = grid_size;
    let ghost ri = row as int;
    let ghost ci = col as int;
    let ghost ni = grid_size as int;
    let mut res: Vec<(usize, usize)> = Vec::new();
    proof {
        assert(coords_view(res@) =~= Seq::<(int, int)>::empty());
    }
    if c >= 1 {
        res.push((r, c - 1));
    }
    let ghost g1 = keep(ri, ci - 1, ni);
    proof {
        assert(coords_view(res@) =~= g1);
    }
    if c + 1 < n {
        res.push((r, c + 1));
    }
    let ghost g2 = g1 + keep(ri, ci + 1, ni);
    proof {
        assert(coords_view(res@) =~= g2);
    }
    if r >= 1 {
        res.push((r - 1, c));
    }
    let ghost g3 = g2 + keep(ri - 1, ci, ni);
    proof {
        assert(coords_view(res@) =~= g3);
    }
    if r + 1 < n {
        res.push((r + 1, c));
    }
    let ghost g4 = g3 + keep(ri + 1, ci, ni);
    proof {
        assert(coords_view(res@) =~= g4);
    }
    if r >= 1 && c + 1 < n {
        res.push((r - 1, c + 1));
    }
    let ghost g5 = g4 + keep(ri - 1, ci + 1, ni);
    proof {
        assert(coords_view(res@) =~= g5);
    }
    if r + 1 < n && c >= 1 {
        res.push((r + 1, c - 1));
    }
    let ghost g6 = g5 + keep(ri + 1, ci - 1, ni);
    proof {
        assert(coords_view(res@) =~= g6);
    }
    if r >= 1 && c >= 1 {
        res.push((r - 1, c - 1));
    }
    let ghost g7 = g6 + keep(ri - 1, ci - 1, ni);
    proof {
        assert(coords_view(res@) =~= g7);
    }
    if r + 1 < n && c + 1 < n {
        res.push((r + 1, c + 1));
    }
    proof {
        assert(coords_view(res@) =~= g7 + keep(ri + 1, ci + 1, ni));
        assert(g7 + keep(ri + 1, ci + 1, ni) =~= neighbors_of(ri, ci, ni));
    }
    res
}

/// The Adjacency Resolver: the flattened, non-deduplicated list of the
/// in-bounds 8-neighbors of every given coordinate, in input order. Any
/// deduplication is the caller's business.
pub fn coords_around_input_coords(coords: &mut Vec<(usize, usize)>, grid_size: usize) -> (res: Vec<
    (usize, usize),
>)
    requires
        forall|k: int|
            0 <= k < old(coords)@.len() ==> (#[trigger] old(coords)@[k]).0 < grid_size && old(
                coords,
            )@[k].1 < grid_size,
    ensures
        *final(coords) == *old(coords),
        coords_view(res@) == neighbors_of_all(coords_view(old(coords)@), grid_size as int),
        forall|k: int|
            0 <= k < res@.len() ==> (#[trigger] res@[k]).0 < grid_size && res@[k].1 < grid_size,
{
    let ghost all = coords_view(coords@);
    let ghost ni = grid_size as int;
    let mut res: Vec<(usize, usize)> = Vec::new();
    let mut j: usize = 0;
    proof {
        assert(all.subrange(0, 0) =~= Seq::<(int, int)>::empty());
        assert(coords_view(res@) =~= neighbors_of_all(all.subrange(0, 0), ni));
    }
    while j < coords.len()
        invariant
            j <= coords@.len(),
            ni == grid_size as int,
            all == coords_view(coords@),
            forall|k: int|
                0 <= k < coords@.len() ==> (#[trigger] coords@[k]).0 < grid_size
                    && coords@[k].1 < grid_size,
            coords_view(res@) == neighbors_of_all(all.subrange(0, j as int), ni),
            forall|k: int|
                0 <= k < res@.len() ==> (#[trigger] res@[k]).0 < grid_size && res@[k].1
                    < grid_size,
        decreases coords@.len() - j,
    {
        let p = coords[j];
        proof {
            assert(p == coords@[j as int]);
        }
        let mut nb = coords_around_one(p.0, p.1, grid_size);
        let ghost pre = coords_view(res@);
        let ghost nbv = coords_view(nb@);
        res.append(&mut nb);
        proof {
            let a = all.subrange(0, j as int);
            let b = all.subrange(0, j + 1);
            assert(b.drop_last() =~= a);
            assert(b.last() == coord_view(coords@[j as int]));
            assert(coords_view(res@) =~= pre + nbv);
            assert(nbv == neighbors_of(b.last().0, b.last().1, ni));
            assert(neighbors_of_all(b, ni) == neighbors_of_all(a, ni) + neighbors_of(
                b.last().0,
                b.last().1,
                ni,
            ));
            assert(coords_view(res@) == neighbors_of_all(b, ni));
        }
        j = j + 1;
    }
    proof {
        assert(all.subrange(0, coords@.len() as int) =~= all);
    }
    res
}

// ---------------------------------------------------------------------
// Double counting: mines near a cell against cells near a mine
// ---------------------------------------------------------------------

/// How many entries of `xs` lie in `a`.
pub open spec fn sum_mem(xs: Seq<(int, int)>, a: Seq<(int, int)>) -> int
    decreases xs.len(),
{
    if xs.len() == 0 {
        0
    } else {
        sum_mem(xs.drop_last(), a) + if a.contains(xs.last()) {
            1int
        } else {
            0int
        }
    }
}

/// The occurrences of all entries of `a` within `xs`, summed.
pub open spec fn occ_sum(a: Seq<(int, int)>, xs: Seq<(int, int)>) -> int
    decreases a.len(),
{
    if a.len() == 0 {
        0
    } else {
        occ_sum(a.drop_last(), xs) + occ(xs, a.last())
    }
}

proof fn lemma_push_contains(a: Seq<(int, int)>, x: (int, int), y: (int, int))
    ensures
        a.push(x).contains(y) <==> (a.contains(y) || y == x),
{
    if a.contains(y) {
        let k = choose|k: int| 0 <= k < a.len() && a[k] == y;
        assert(a.push(x)[k] == y);
    }
    assert(a.push(x)[a.len() as int] == x);
    if a.push(x).contains(y) && y != x {
        let k = choose|k: int| 0 <= k < a.len() + 1 && a.push(x)[k] == y;
        assert(a[k] == y);
    }
}

proof fn lemma_sum_mem_empty(xs: Seq<(int, int)>)
    ensures
        sum_mem(xs, Seq::empty()) == 0,
    decreases xs.len(),
{
    if xs.len() > 0 {
        lemma_sum_mem_empty(xs.drop_last());
    }
}

proof fn lemma_sum_mem_push(xs: Seq<(int, int)>, a: Seq<(int, int)>, x: (int, int))
    requires
        !a.contains(x),
    ensures
        sum_mem(xs, a.push(x)) == sum_mem(xs, a) + occ(xs, x),
    decreases xs.len(),
{
    if xs.len() > 0 {
        lemma_sum_mem_push(xs.drop_last(), a, x);
        lemma_push_contains(a, x, xs.last());
    }
}

pub proof fn lemma_sum_mem_bounds(xs: Seq<(int, int)>, a: Seq<(int, int)>)
    ensures
        0 <= sum_mem(xs, a) <= xs.len(),
    decreases xs.len(),
{
    if xs.len() > 0 {
        lemma_sum_mem_bounds(xs.drop_last(), a);
    }
}

/// Counting which entries of `xs` lie in a duplicate-free `a` equals
/// counting how often each entry of `a` occurs in `xs`.
pub proof fn lemma_sum_occ_swap(xs: Seq<(int, int)>, a: Seq<(int, int)>)
    requires
        a.no_duplicates(),
    ensures
        sum_mem(xs, a) == occ_sum(a, xs),
    decreases a.len(),
{
    if a.len() == 0 {
        assert(a =~= Seq::<(int, int)>::empty());
        lemma_sum_mem_empty(xs);
    } else {
        let d = a.drop_last();
        assert(d.no_duplicates());
        assert(!d.contains(a.last())) by {
            if d.contains(a.last()) {
                let k = choose|k: int| 0 <= k < d.len() && d[k] == a.last();
                assert(a[k] == a.last());
            }
        }
        lemma_sum_occ_swap(xs, d);
        assert(a =~= d.push(a.last()));
        lemma_sum_mem_push(xs, d, a.last());
        assert(sum_mem(xs, a) == sum_mem(xs, d.push(a.last())));
        assert(sum_mem(xs, a) == sum_mem(xs, d) + occ(xs, a.last()));
        assert(occ_sum(a, xs) == occ_sum(d, xs) + occ(xs, a.last()));
    }
}

pub proof fn lemma_occ_subrange_le(s: Seq<(int, int)>, j: int, p: (int, int))
    requires
        0 <= j <= s.len(),
    ensures
        0 <= occ(s.subrange(0, j), p) <= occ(s, p),
{
    assert(s =~= s.subrange(0, j) + s.subrange(j, s.len() as int));
    lemma_occ_concat(s.subrange(0, j), s.subrange(j, s.len() as int), p);
    lemma_occ_nonneg_contains(s.subrange(0, j), p);
    lemma_occ_nonneg_contains(s.subrange(j, s.len() as int), p);
}

/// How often a cell occurs among the flattened neighbor lists of `a`:
/// once for each entry of `a` it is adjacent to.
pub proof fn lemma_occ_flat(a: Seq<(int, int)>, n: int, q: (int, int))
    requires
        forall|k: int| 0 <= k < a.len() ==> in_bounds_coord(#[trigger] a[k], n),
        in_bounds_coord(q, n),
    ensures
        occ(neighbors_of_all(a, n), q) == occ_sum(a, neighbors_of(q.0, q.1, n)),
    decreases a.len(),
{
    if a.len() > 0 {
        let d = a.drop_last();
        let m = a.last();
        assert(forall|k: int| 0 <= k < d.len() ==> #[trigger] d[k] == a[k]);
        lemma_occ_flat(d, n, q);
        lemma_occ_concat(neighbors_of_all(d, n), neighbors_of(m.0, m.1, n), q);
        lemma_occ_neighbors(m.0, m.1, n, q);
        lemma_occ_neighbors(q.0, q.1, n, m);
    }
}

/// Counting mines cell by cell equals counting membership in the mine
/// coordinate list, once the mine flags match that list.
pub proof fn lemma_count_mines_is_sum_mem(
    bombs: Seq<bool>,
    n: int,
    xs: Seq<(int, int)>,
    mines: Seq<(int, int)>,
)
    requires
        forall|p: (int, int)| xs.contains(p) ==> in_bounds_coord(p, n),
        forall|p: (int, int)|
            in_bounds_coord(p, n) ==> (#[trigger] mine_at(bombs, n, p) <==> mines.contains(p)),
    ensures
        count_mines_at(bombs, n, xs) == sum_mem(xs, mines),
    decreases xs.len(),
{
    if xs.len() > 0 {
        assert(xs[xs.len() - 1] == xs.last());
        assert(xs.contains(xs.last()));
        assert(forall|k: int| 0 <= k < xs.len() - 1 ==> #[trigger] xs.drop_last()[k] == xs[k]);
        assert(forall|p: (int, int)| xs.drop_last().contains(p) ==> xs.contains(p)) by {
            assert forall|p: (int, int)| xs.drop_last().contains(p) implies xs.contains(p) by {
                let k = choose|k: int| 0 <= k < xs.len() - 1 && xs.drop_last()[k] == p;
                assert(xs[k] == p);
            }
        }
        lemma_count_mines_is_sum_mem(bombs, n, xs.drop_last(), mines);
        assert(mine_at(bombs, n, xs.last()) <==> mines.contains(xs.last()));
    }
}

/// Row-major index arithmetic: splitting an index is the inverse of
/// flattening an in-bounds coordinate.
pub proof fn lemma_coord_of_bounds(i: int, n: int)
    requires
        n >= 1,
        0 <= i < n * n,
    ensures
        in_bounds_coord(coord_of(i, n), n),
        lin(coord_of(i, n), n) == i,
{
    vstd::arithmetic::div_mod::lemma_fundamental_div_mod(i, n);
    vstd::arithmetic::div_mod::lemma_mod_bound(i, n);
    let q = i / n;
    let r = i % n;
    assert(q >= 0 && q < n) by (nonlinear_arith)
        requires
            i == n * q + r,
            0 <= r < n,
            0 <= i,
            i < n * n,
            n >= 1;
    assert(q * n + r == i) by (nonlinear_arith)
        requires
            i == n * q + r;
}

pub proof fn lemma_lin_coord_inverse(p: (int, int), n: int)
    requires
        n >= 1,
        in_bounds_coord(p, n),
    ensures
        0 <= lin(p, n) < n * n,
        coord_of(lin(p, n), n) == p,
{
    let x = p.0 * n + p.1;
    assert(0 <= x < n * n) by (nonlinear_arith)
        requires
            0 <= p.0 < n,
            0 <= p.1 < n,
            x == p.0 * n + p.1;
    vstd::arithmetic::div_mod::lemma_fundamental_div_mod_converse(x, n, p.0, p.1);
}

// ---------------------------------------------------------------------
// Revealing tiles
// ---------------------------------------------------------------------

/// A tile after being revealed: it shows its adjacent-mine count.
pub open spec fn revealed_tile(t: Tile) -> Tile {
    Tile { been_revealed: true, display: TileDisplay::Count(t.bombs_around), ..t }
}

/// Revealing is idempotent: an already revealed tile is left alone.
pub open spec fn reveal_or_keep(t: Tile) -> Tile {
    if t.been_revealed {
        t
    } else {
        revealed_tile(t)
    }
}

/// Whether some coordinate of the list addresses the cell with linear
/// index `i`.
pub open spec fn covers_cell(coords: Seq<(usize, usize)>, i: int, n: int) -> bool
    decreases coords.len(),
{
    if coords.len() == 0 {
        false
    } else {
        covers_cell(coords.drop_last(), i, n) || lin(coord_view(coords.last()), n) == i
    }
}

/// The subsequence of coordinates whose tile has no adjacent mine.
pub open spec fn zeros_among(coords: Seq<(usize, usize)>, tiles: Seq<Tile>, n: int) -> Seq<
    (usize, usize),
>
    decreases coords.len(),
{
    if coords.len() == 0 {
        Seq::empty()
    } else {
        let pre = zeros_among(coords.drop_last(), tiles, n);
        if tiles[lin(coord_view(coords.last()), n)].bombs_around == 0 {
            pre.push(coords.last())
        } else {
            pre
        }
    }
}

pub proof fn lemma_covers_cell_contains(coords: Seq<(usize, usize)>, i: int, n: int)
    ensures
        covers_cell(coords, i, n) <==> exists|k: int|
            0 <= k < coords.len() && lin(coord_view(#[trigger] coords[k]), n) == i,
    decreases coords.len(),
{
    if coords.len() > 0 {
        lemma_covers_cell_contains(coords.drop_last(), i, n);
        if covers_cell(coords.drop_last(), i, n) {
            let k = choose|k: int|
                0 <= k < coords.len() - 1 && lin(coord_view(#[trigger] coords.drop_last()[k]), n)
                    == i;
            assert(coords[k] == coords.drop_last()[k]);
        }
        if exists|k: int| 0 <= k < coords.len() && lin(coord_view(#[trigger] coords[k]), n) == i {
            let k = choose|k: int|
                0 <= k < coords.len() && lin(coord_view(#[trigger] coords[k]), n) == i;
            if k < coords.len() - 1 {
                assert(coords.drop_last()[k] == coords[k]);
            }
        }
    }
}

pub proof fn lemma_zeros_among_contains(
    coords: Seq<(usize, usize)>,
    tiles: Seq<Tile>,
    n: int,
    p: (usize, usize),
)
    ensures
        zeros_among(coords, tiles, n).contains(p) <==> (coords.contains(p) && tiles[lin(
            coord_view(p),
            n,
        )].bombs_around == 0),
    decreases coords.len(),
{
    if coords.len() > 0 {
        lemma_zeros_among_contains(coords.drop_last(), tiles, n, p);
        let pre = zeros_among(coords.drop_last(), tiles, n);
        if coords.drop_last().contains(p) {
            let k = choose|k: int| 0 <= k < coords.len() - 1 && coords.drop_last()[k] == p;
            assert(coords[k] == p);
        }
        if coords.contains(p) && p != coords.last() {
            let k = choose|k: int| 0 <= k < coords.len() && coords[k] == p;
            assert(coords.drop_last()[k] == p);
        }
        if tiles[lin(coord_view(coords.last()), n)].bombs_around == 0 {
            assert(zeros_among(coords, tiles, n) == pre.push(coords.last()));
            assert(pre.push(coords.last()).contains(p) <==> (pre.contains(p) || p
                == coords.last())) by {
                if pre.contains(p) {
                    let k = choose|k: int| 0 <= k < pre.len() && pre[k] == p;
                    assert(pre.push(coords.last())[k] == p);
                }
                if pre.push(coords.last()).contains(p) {
                    let k = choose|k: int|
                        0 <= k < pre.len() + 1 && pre.push(coords.last())[k] == p;
                    if k < pre.len() {
                        assert(pre[k] == p);
                    }
                }
                assert(pre.push(coords.last())[pre.len() as int] == coords.last());
            }
            assert(coords.contains(coords.last())) by {
                assert(coords[coords.len() - 1] == coords.last());
            }
        }
    }
}

/// A board with a marked tile counts at least one mark.
pub proof fn lemma_count_marked_pos(tiles: Seq<Tile>, i: int)
    requires
        0 <= i < tiles.len(),
        tiles[i].display == TileDisplay::Marked,
    ensures
        count_marked(tiles) >= 1,
    decreases tiles.len(),
{
    lemma_counts_bounds(tiles.drop_last());
    if i < tiles.len() - 1 {
        lemma_count_marked_pos(tiles.drop_last(), i);
    }
}

/// Replacing one tile by another with the same mine flag, count and
/// name keeps the board well formed, as long as the new tile's display
/// is consistent and no mine gets revealed.
pub proof fn lemma_board_update_keeps_adj(tiles: Seq<Tile>, n: int, i: int, t: Tile)
    requires
        board_wf(tiles, n),
        0 <= i < tiles.len(),
        t.is_bomb == tiles[i].is_bomb,
        t.bombs_around == tiles[i].bombs_around,
        t.name == tiles[i].name,
        tile_state_ok(t),
        !(t.is_bomb && t.been_revealed),
    ensures
        board_wf(tiles.update(i, t), n),
{
    let t2 = tiles.update(i, t);
    assert(bombs_of(t2) =~= bombs_of(tiles));
    assert forall|j: int| 0 <= j < t2.len() implies (#[trigger] t2[j]).bombs_around as int
        == adj_mines(bombs_of(t2), n, j / n, j % n) && t2[j].name == j && tile_state_ok(t2[j])
        && !(t2[j].is_bomb && t2[j].been_revealed) by {
        if j != i {
            assert(t2[j] == tiles[j]);
        }
    }
}

/// No mine is revealed, so the revealed count can reach the number of
/// safe tiles and no further; it reaches it exactly when every safe
/// tile is revealed.
pub proof fn lemma_count_rev_vs_bombs(tiles: Seq<Tile>)
    requires
        forall|i: int|
            0 <= i < tiles.len() ==> !((#[trigger] tiles[i]).is_bomb && tiles[i].been_revealed),
    ensures
        count_revealed(tiles) + count_bombs(tiles) <= tiles.len(),
        (count_revealed(tiles) + count_bombs(tiles) == tiles.len()) <==> (forall|i: int|
            0 <= i < tiles.len() ==> ((#[trigger] tiles[i]).is_bomb
                || tiles[i].been_revealed)),
    decreases tiles.len(),
{
    if tiles.len() > 0 {
        let d = tiles.drop_last();
        assert(forall|i: int| 0 <= i < d.len() ==> #[trigger] d[i] == tiles[i]);
        assert(forall|i: int|
            0 <= i < d.len() ==> !((#[trigger] d[i]).is_bomb && d[i].been_revealed));
        lemma_count_rev_vs_bombs(d);
        assert(tiles[tiles.len() - 1] == tiles.last());
        if count_revealed(tiles) + count_bombs(tiles) == tiles.len() {
            assert(count_revealed(d) + count_bombs(d) == d.len());
            assert forall|i: int| 0 <= i < tiles.len() implies ((#[trigger] tiles[i]).is_bomb
                || tiles[i].been_revealed) by {
                if i < tiles.len() - 1 {
                    assert(d[i] == tiles[i]);
                    assert(d[i].is_bomb || d[i].been_revealed);
                }
            }
        }
        if forall|i: int|
            0 <= i < tiles.len() ==> ((#[trigger] tiles[i]).is_bomb
                || tiles[i].been_revealed) {
            assert forall|i: int| 0 <= i < d.len() implies ((#[trigger] d[i]).is_bomb
                || d[i].been_revealed) by {
                assert(d[i] == tiles[i]);
            }
            assert(count_revealed(d) + count_bombs(d) == d.len());
        }
    }
}

/// A board with an unrevealed tile is not fully revealed.
pub proof fn lemma_count_revealed_lt(tiles: Seq<Tile>, i: int)
    requires
        0 <= i < tiles.len(),
        !tiles[i].been_revealed,
    ensures
        count_revealed(tiles) < tiles.len(),
    decreases tiles.len(),
{
    lemma_counts_bounds(tiles.drop_last());
    if i < tiles.len() - 1 {
        lemma_count_revealed_lt(tiles.drop_last(), i);
    }
}

/// Reveals every listed tile that is still hidden, keeping the cached
/// counters consistent, and returns the listed coordinates whose tile
/// has no adjacent mine: the ones the flood fill keeps expanding from.
pub fn reveal_tiles_return_zeros(
    coords: &mut Vec<(usize, usize)>,
    game_config: &mut GameConfig,
) -> (zeros: Vec<(usize, usize)>)
    requires
        config_wf(*old(game_config)),
        forall|k: int|
            0 <= k < old(coords)@.len() ==> (#[trigger] old(coords)@[k]).0 < old(
                game_config,
            ).grid_size && old(coords)@[k].1 < old(game_config).grid_size && !grid_seq(
                old(game_config).tiles,
            )[lin(coord_view(old(coords)@[k]), old(game_config).grid_size as int)].is_bomb,
    ensures
        *final(coords) == *old(coords),
        config_wf(*final(game_config)),
        final(game_config).grid_size == old(game_config).grid_size,
        final(game_config).bomb_count == old(game_config).bomb_count,
        final(game_config).cursor_data == old(game_config).cursor_data,
        final(game_config).game_data.tiles_marked == old(game_config).game_data.tiles_marked,
        final(game_config).game_data.revealed_tiles_to_win == old(
            game_config,
        ).game_data.revealed_tiles_to_win,
        forall|i: int|
            0 <= i < grid_seq(old(game_config).tiles).len() && !covers_cell(
                old(coords)@,
                i,
                old(game_config).grid_size as int,
            ) ==> grid_seq(final(game_config).tiles)[i] == grid_seq(old(game_config).tiles)[i],
        forall|i: int|
            0 <= i < grid_seq(old(game_config).tiles).len() && covers_cell(
                old(coords)@,
                i,
                old(game_config).grid_size as int,
            ) ==> grid_seq(final(game_config).tiles)[i] == reveal_or_keep(
                grid_seq(old(game_config).tiles)[i],
            ),
        zeros@ == zeros_among(
            old(coords)@,
            grid_seq(old(game_config).tiles),
            old(game_config).grid_size as int,
        ),
{
    let n = game_config.grid_size;
    let ghost ni = n as int;
    let ghost tiles0 = grid_seq(game_config.tiles);
    let ghost gc0 = *game_config;
    let mut new_zeros_vec: Vec<(usize, usize)> = Vec::new();
    let mut j: usize = 0;
    proof {
        assert(coords@.subrange(0, 0) =~= Seq::<(usize, usize)>::empty());
    }
    while j < coords.len()
        invariant
            j <= coords@.len(),
            *coords == *old(coords),
            ni == n as int,
            n == gc0.grid_size,
            tiles0 == grid_seq(gc0.tiles),
            gc0 == *old(game_config),
            config_wf(gc0),
            forall|k: int|
                0 <= k < coords@.len() ==> (#[trigger] coords@[k]).0 < n && coords@[k].1 < n
                    && !tiles0[lin(coord_view(coords@[k]), ni)].is_bomb,
            config_wf(*game_config),
            game_config.grid_size == n,
            game_config.bomb_count == gc0.bomb_count,
            game_config.cursor_data == gc0.cursor_data,
            game_config.game_data.tiles_marked == gc0.game_data.tiles_marked,
            game_config.game_data.revealed_tiles_to_win == gc0.game_data.revealed_tiles_to_win,
            forall|i: int|
                0 <= i < tiles0.len() && !covers_cell(coords@.subrange(0, j as int), i, ni)
                    ==> grid_seq(game_config.tiles)[i] == tiles0[i],
            forall|i: int|
                0 <= i < tiles0.len() && covers_cell(coords@.subrange(0, j as int), i, ni)
                    ==> grid_seq(game_config.tiles)[i] == reveal_or_keep(tiles0[i]),
            new_zeros_vec@ == zeros_among(coords@.subrange(0, j as int), tiles0, ni),
        decreases coords@.len() - j,
    {
        let p = coords[j];
        let ghost pre = coords@.subrange(0, j as int);
        let ghost cur = coords@.subrange(0, j + 1);
        let ghost m = lin(coord_view(p), ni);
        proof {
            assert(cur.drop_last() =~= pre);
            assert(cur.last() == p);
            assert(0 <= m < tiles0.len()) by {
                assert((p.0 as int) * ni + (p.1 as int) < ni * ni) by (nonlinear_arith)
                    requires
                        0 <= (p.0 as int) < ni,
                        0 <= (p.1 as int) < ni;
                assert(tiles0.len() == ni * ni);
            }
        }
        let selected_coords = grid_get_tile(&game_config.tiles, p.0, p.1);
        proof {
            assert(selected_coords == grid_seq(game_config.tiles)[m]);
            assert(grid_seq(game_config.tiles)[m] == tiles0[m] || grid_seq(game_config.tiles)[m]
                == reveal_or_keep(tiles0[m]));
            assert(selected_coords.bombs_around == tiles0[m].bombs_around);
            assert(selected_coords.is_bomb == tiles0[m].is_bomb);
        }
        if !selected_coords.been_revealed {
            let ghost tiles_before = grid_seq(game_config.tiles);
            let new_tile = Tile {
                is_bomb: selected_coords.is_bomb,
                been_revealed: true,
                bombs_around: selected_coords.bombs_around,
                display: TileDisplay::Count(selected_coords.bombs_around),
                name: selected_coords.name,
            };
            proof {
                assert(new_tile == revealed_tile(selected_coords));
            }
            grid_set_tile(&mut game_config.tiles, p.0, p.1, new_tile);
            proof {
                let tiles_after = grid_seq(game_config.tiles);
                assert(tiles_after == tiles_before.update(m, new_tile));
                assert(bombs_of(tiles_after) =~= bombs_of(tiles_before));
                lemma_counts_update(tiles_before, m, new_tile);
                lemma_count_revealed_lt(tiles_before, m);
                lemma_counts_bounds(tiles_before);
            }
            game_config.game_data.revealed_tiles = game_config.game_data.revealed_tiles + 1;
            proof {
                let tiles_after = grid_seq(game_config.tiles);
                assert forall|i: int| 0 <= i < tiles0.len() implies tile_state_ok(
                    #[trigger] tiles_after[i],
                ) && (tiles_after[i].bombs_around as int == adj_mines(
                    bombs_of(tiles_after),
                    ni,
                    i / ni,
                    i % ni,
                )) by {
                    assert(adj_mines(bombs_of(tiles_after), ni, i / ni, i % ni) == adj_mines(
                        bombs_of(tiles_before),
                        ni,
                        i / ni,
                        i % ni,
                    ));
                    if i != m {
                        assert(tiles_after[i] == tiles_before[i]);
                    }
                }
                assert(config_wf(*game_config));
            }
        }
        if selected_coords.bombs_around == 0 {
            new_zeros_vec.push(p);
        }
        proof {
            assert forall|i: int|
                0 <= i < tiles0.len() && covers_cell(cur, i, ni) implies grid_seq(
                game_config.tiles,
            )[i] == reveal_or_keep(tiles0[i]) by {
                if i != m && covers_cell(pre, i, ni) {
                    assert(grid_seq(game_config.tiles)[i] == reveal_or_keep(tiles0[i]));
                }
            }
            assert(new_zeros_vec@ == zeros_among(cur, tiles0, ni));
        }
        j = j + 1;
    }
    proof {
        assert(coords@.subrange(0, coords@.len() as int) =~= coords@);
    }
    new_zeros_vec
}

/// Uncovers the whole board for the final render: mines show the mine
/// glyph, every other tile its adjacent-mine count.
pub open spec fn end_displayed(t: Tile) -> Tile {
    Tile {
        display: if t.is_bomb {
            TileDisplay::Mine
        } else {
            TileDisplay::Count(t.bombs_around)
        },
        ..t
    }
}

pub fn reveal_all_tiles(game_config: &mut GameConfig)
    requires
        old(game_config).grid_size >= 1,
        grid_cols(old(game_config).tiles) == old(game_config).grid_size,
        grid_seq(old(game_config).tiles).len() == old(game_config).grid_size as int * old(
            game_config,
        ).grid_size as int,
    ensures
        final(game_config).grid_size == old(game_config).grid_size,
        final(game_config).bomb_count == old(game_config).bomb_count,
        final(game_config).cursor_data == old(game_config).cursor_data,
        final(game_config).game_data == old(game_config).game_data,
        grid_cols(final(game_config).tiles) == grid_cols(old(game_config).tiles),
        grid_seq(final(game_config).tiles).len() == grid_seq(old(game_config).tiles).len(),
        forall|i: int|
            0 <= i < grid_seq(old(game_config).tiles).len() ==> grid_seq(
                final(game_config).tiles,
            )[i] == end_displayed(grid_seq(old(game_config).tiles)[i]),
{
    let n = game_config.grid_size;
    let ghost ni = n as int;
    let ghost tiles0 = grid_seq(game_config.tiles);
    let ghost gc0 = *game_config;
    let mut coord_1: usize = 0;
    while coord_1 < n
        invariant
            coord_1 <= n,
            ni == n as int,
            n == gc0.grid_size,
            tiles0 == grid_seq(gc0.tiles),
            *old(game_config) == gc0,
            game_config.grid_size == n,
            game_config.bomb_count == gc0.bomb_count,
            game_config.cursor_data == gc0.cursor_data,
            game_config.game_data == gc0.game_data,
            grid_cols(game_config.tiles) == n,
            grid_seq(game_config.tiles).len() == ni * ni,
            tiles0.len() == ni * ni,
            forall|i: int|
                0 <= i < coord_1 as int * ni ==> grid_seq(game_config.tiles)[i] == end_displayed(
                    tiles0[i],
                ),
            forall|i: int|
                coord_1 as int * ni <= i < ni * ni ==> grid_seq(game_config.tiles)[i]
                    == tiles0[i],
        decreases n - coord_1,
    {
        proof {
            assert(coord_1 as int * ni + ni <= ni * ni) by (nonlinear_arith)
                requires
                    (coord_1 as int) < ni,
                    ni >= 0;
        }
        let mut coord_2: usize = 0;
        while coord_2 < n
            invariant
                coord_2 <= n,
                coord_1 < n,
                ni == n as int,
                n == gc0.grid_size,
                tiles0 == grid_seq(gc0.tiles),
                *old(game_config) == gc0,
                game_config.grid_size == n,
                game_config.bomb_count == gc0.bomb_count,
                game_config.cursor_data == gc0.cursor_data,
                game_config.game_data == gc0.game_data,
                grid_cols(game_config.tiles) == n,
                grid_seq(game_config.tiles).len() == ni * ni,
                tiles0.len() == ni * ni,
                coord_1 as int * ni + ni <= ni * ni,
                forall|i: int|
                    0 <= i < coord_1 as int * ni + coord_2 as int ==> grid_seq(
                        game_config.tiles,
                    )[i] == end_displayed(tiles0[i]),
                forall|i: int|
                    coord_1 as int * ni + coord_2 as int <= i < ni * ni ==> grid_seq(
                        game_config.tiles,
                    )[i] == tiles0[i],
            decreases n - coord_2,
        {
            let ghost m = coord_1 as int * ni + coord_2 as int;
            let selected_tile = grid_get_tile(&game_config.tiles, coord_1, coord_2);
            let new_tile = Tile {
                display: if selected_tile.is_bomb {
                    TileDisplay::Mine
                } else {
                    TileDisplay::Count(selected_tile.bombs_around)
                },
                ..selected_tile
            };
            let ghost tiles_before = grid_seq(game_config.tiles);
            grid_set_tile(&mut game_config.tiles, coord_1, coord_2, new_tile);
            proof {
                assert(0 <= m < ni * ni);
                assert(grid_seq(game_config.tiles) == tiles_before.update(m, new_tile));
                assert(new_tile == end_displayed(tiles0[m]));
            }
            coord_2 = coord_2 + 1;
        }
        proof {
            assert(coord_1 as int * ni + ni == (coord_1 + 1) as int * ni) by (nonlinear_arith);
            assert((coord_1 + 1) as int * ni <= ni * ni) by (nonlinear_arith)
                requires
                    coord_1 as int + 1 <= ni,
                    ni >= 0,
            ;
        }
        coord_1 = coord_1 + 1;
    }
}

// ---------------------------------------------------------------------
// Board generation
// ---------------------------------------------------------------------

/// Draws `bomb_count` distinct tile names from [0, grid_size²),
/// uniformly without replacement, by a partial shuffle of all names.
fn sample_bomb_names(grid_size: usize, bomb_count: usize) -> (names: Vec<usize>)
    requires
        grid_size >= 1,
        grid_size as int * grid_size as int <= usize::MAX,
        (bomb_count as int) < grid_size as int * grid_size as int,
    ensures
        names@.len() == bomb_count,
        names@.no_duplicates(),
        forall|k: int|
            0 <= k < names@.len() ==> (#[trigger] names@[k] as int) < grid_size as int
                * grid_size as int,
{
    let n2 = grid_size * grid_size;
    let mut pool: Vec<usize> = Vec::new();
    let mut i: usize = 0;
    while i < n2
        invariant
            i <= n2,
            pool@.len() == i,
            forall|k: int| 0 <= k < i ==> (#[trigger] pool@[k]) == k,
        decreases n2 - i,
    {
        pool.push(i);
        i = i + 1;
    }
    let mut j: usize = 0;
    while j < bomb_count
        invariant
            j <= bomb_count,
            bomb_count < n2,
            pool@.len() == n2,
            pool@.no_duplicates(),
            forall|k: int| 0 <= k < n2 ==> (#[trigger] pool@[k]) < n2,
        decreases bomb_count - j,
    {
        let r = j + random_below(n2 - j);
        let a = pool[j];
        let b = pool[r];
        let ghost before = pool@;
        pool.set(j, b);
        pool.set(r, a);
        proof {
            assert forall|k1: int, k2: int|
                0 <= k1 < n2 && 0 <= k2 < n2 && k1 != k2 implies pool@[k1] != pool@[k2] by {
                assert(pool@ == before.update(j as int, b).update(r as int, a));
            }
        }
        j = j + 1;
    }
    let ghost full = pool@;
    pool.truncate(bomb_count);
    proof {
        assert(pool@ == full.subrange(0, bomb_count as int));
        assert forall|k1: int, k2: int|
            0 <= k1 < pool@.len() && 0 <= k2 < pool@.len() && k1 != k2 implies pool@[k1]
            != pool@[k2] by {
            assert(pool@[k1] == full[k1] && pool@[k2] == full[k2]);
        }
    }
    pool
}

/// Builds the board for a given mine placement: fresh hidden tiles,
/// the listed tiles mined, and every adjacency count accumulated by
/// walking the neighbors of each mine.
fn tiles_from_bomb_names(bomb_names: Vec<usize>, grid_size: usize) -> (g: grid::Grid<Tile>)
    requires
        grid_size >= 1,
        grid_size as int * grid_size as int <= usize::MAX,
        bomb_names@.no_duplicates(),
        forall|k: int|
            0 <= k < bomb_names@.len() ==> (#[trigger] bomb_names@[k] as int) < grid_size as int
                * grid_size as int,
    ensures
        grid_cols(g) == grid_size,
        board_wf(grid_seq(g), grid_size as int),
        count_bombs(grid_seq(g)) == bomb_names@.len(),
        forall|i: int|
            0 <= i < grid_seq(g).len() ==> !(#[trigger] grid_seq(g)[i]).been_revealed
                && grid_seq(g)[i].display == TileDisplay::Hidden,
        forall|i: int|
            0 <= i < grid_seq(g).len() ==> ((#[trigger] grid_seq(g)[i]).is_bomb
                <==> bomb_names@.contains(i as usize)),
{
    let n = grid_size;
    let ghost ni = n as int;
    let ghost namesv = bomb_names@;
    let n2 = n * n;
    let mut tiles: Vec<Tile> = Vec::new();
    let mut counter: usize = 0;
    while counter < n2
        invariant
            counter <= n2,
            tiles@.len() == counter,
            forall|i: int|
                0 <= i < counter ==> (#[trigger] tiles@[i]) == (Tile {
                    is_bomb: false,
                    been_revealed: false,
                    bombs_around: 0,
                    display: TileDisplay::Hidden,
                    name: i as usize,
                }),
        decreases n2 - counter,
    {
        let new_tile = Tile {
            is_bomb: false,
            been_revealed: false,
            bombs_around: 0,
            display: TileDisplay::Hidden,
            name: counter,
        };
        tiles.push(new_tile);
        counter = counter + 1;
    }
    let mut bomb_coordinates = tile_names_to_coords(bomb_names, n);
    let ghost bcv = bomb_coordinates@;
    proof {
        assert forall|k: int| 0 <= k < bcv.len() implies in_bounds_coord(
            coord_view(#[trigger] bcv[k]),
            ni,
        ) && lin(coord_view(bcv[k]), ni) == namesv[k] as int by {
            lemma_coord_of_bounds(namesv[k] as int, ni);
        }
    }
    let mut grid_set = grid_from_vec(tiles, n);
    let coords_around_bombs = coords_around_input_coords(&mut bomb_coordinates, n);
    let ghost minesv = coords_view(bcv);
    let ghost flatv = coords_view(coords_around_bombs@);
    proof {
        assert(flatv == neighbors_of_all(minesv, ni));
        assert forall|k1: int, k2: int|
            0 <= k1 < minesv.len() && 0 <= k2 < minesv.len() && k1 != k2 implies minesv[k1]
            != minesv[k2] by {
            assert(lin(minesv[k1], ni) == namesv[k1] as int);
            assert(lin(minesv[k2], ni) == namesv[k2] as int);
        }
        assert(minesv.no_duplicates());
    }
    proof {
        lemma_counts_all_clear(grid_seq(grid_set));
        assert(bcv.subrange(0, 0) =~= Seq::<(usize, usize)>::empty());
    }
    // place the mines
    let mut j: usize = 0;
    while j < bomb_coordinates.len()
        invariant
            j <= bcv.len(),
            ni == n as int,
            ni * ni <= usize::MAX,
            n >= 1,
            bomb_coordinates@ == bcv,
            namesv.no_duplicates(),
            bcv.len() == namesv.len(),
            forall|k: int|
                0 <= k < bcv.len() ==> in_bounds_coord(coord_view(#[trigger] bcv[k]), ni) && lin(
                    coord_view(bcv[k]),
                    ni,
                ) == namesv[k] as int,
            grid_cols(grid_set) == n,
            grid_seq(grid_set).len() == ni * ni,
            count_bombs(grid_seq(grid_set)) == j,
            forall|i: int|
                0 <= i < ni * ni ==> {
                    let t = #[trigger] grid_seq(grid_set)[i];
                    t.name == i && !t.been_revealed && t.display == TileDisplay::Hidden
                        && t.bombs_around == 0 && (t.is_bomb <==> covers_cell(
                        bcv.subrange(0, j as int),
                        i,
                        ni,
                    ))
                },
        decreases bcv.len() - j,
    {
        let p = bomb_coordinates[j];
        let ghost pre = bcv.subrange(0, j as int);
        let ghost cur = bcv.subrange(0, j + 1);
        let ghost m = lin(coord_view(p), ni);
        proof {
            assert(cur.drop_last() =~= pre);
            assert(cur.last() == p);
            assert(0 <= m < ni * ni) by {
                lemma_lin_coord_inverse(coord_view(p), ni);
            }
            assert(!covers_cell(pre, m, ni)) by {
                lemma_covers_cell_contains(pre, m, ni);
                if covers_cell(pre, m, ni) {
                    let k = choose|k: int|
                        0 <= k < pre.len() && lin(coord_view(#[trigger] pre[k]), ni) == m;
                    assert(pre[k] == bcv[k]);
                    assert(namesv[k] == namesv[j as int]);
                }
            }
        }
        let t = grid_get_tile(&grid_set, p.0, p.1);
        let new_tile = Tile { is_bomb: true, ..t };
        let ghost tiles_before = grid_seq(grid_set);
        grid_set_tile(&mut grid_set, p.0, p.1, new_tile);
        proof {
            assert(grid_seq(grid_set) == tiles_before.update(m, new_tile));
            lemma_counts_update(tiles_before, m, new_tile);
            assert forall|i: int| 0 <= i < ni * ni implies {
                let t2 = #[trigger] grid_seq(grid_set)[i];
                t2.name == i && !t2.been_revealed && t2.display == TileDisplay::Hidden
                    && t2.bombs_around == 0 && (t2.is_bomb <==> covers_cell(cur, i, ni))
            } by {
                if i != m {
                    assert(grid_seq(grid_set)[i] == tiles_before[i]);
                    assert(covers_cell(cur, i, ni) == covers_cell(pre, i, ni));
                }
            }
        }
        j = j + 1;
    }
    proof {
        assert(bcv.subrange(0, bcv.len() as int) =~= bcv);
    }
    // accumulate the adjacency counts around every mine
    let mut j2: usize = 0;
    while j2 < coords_around_bombs.len()
        invariant
            j2 <= coords_around_bombs@.len(),
            ni == n as int,
            ni * ni <= usize::MAX,
            n >= 1,
            flatv == coords_view(coords_around_bombs@),
            flatv == neighbors_of_all(minesv, ni),
            minesv.no_duplicates(),
            forall|k: int| 0 <= k < minesv.len() ==> in_bounds_coord(#[trigger] minesv[k], ni),
            forall|k: int|
                0 <= k < coords_around_bombs@.len() ==> (#[trigger] coords_around_bombs@[k]).0
                    < n && coords_around_bombs@[k].1 < n,
            grid_cols(grid_set) == n,
            grid_seq(grid_set).len() == ni * ni,
            count_bombs(grid_seq(grid_set)) == namesv.len(),
            forall|i: int|
                0 <= i < ni * ni ==> {
                    let t = #[trigger] grid_seq(grid_set)[i];
                    t.name == i && !t.been_revealed && t.display == TileDisplay::Hidden
                        && (t.is_bomb <==> covers_cell(bcv, i, ni)) && t.bombs_around as int
                        == occ(flatv.subrange(0, j2 as int), coord_of(i, ni))
                },
        decreases coords_around_bombs@.len() - j2,
    {
        let p = coords_around_bombs[j2];
        let ghost q = coord_view(p);
        let ghost pre = flatv.subrange(0, j2 as int);
        let ghost cur = flatv.subrange(0, j2 + 1);
        let ghost m = lin(q, ni);
        proof {
            assert(cur.drop_last() =~= pre);
            assert(cur.last() == q);
            lemma_lin_coord_inverse(q, ni);
            assert(coord_of(m, ni) == q);
            assert(occ(flatv, q) <= 8) by {
                lemma_occ_flat(minesv, ni, q);
                lemma_sum_occ_swap(neighbors_of(q.0, q.1, ni), minesv);
                lemma_sum_mem_bounds(neighbors_of(q.0, q.1, ni), minesv);
            }
            lemma_occ_subrange_le(flatv, j2 as int, q);
        }
        let t = grid_get_tile(&grid_set, p.0, p.1);
        let new_tile = Tile { bombs_around: t.bombs_around + 1, ..t };
        let ghost tiles_before = grid_seq(grid_set);
        grid_set_tile(&mut grid_set, p.0, p.1, new_tile);
        proof {
            assert(grid_seq(grid_set) == tiles_before.update(m, new_tile));
            lemma_counts_update(tiles_before, m, new_tile);
            assert forall|i: int| 0 <= i < ni * ni implies {
                let t2 = #[trigger] grid_seq(grid_set)[i];
                t2.name == i && !t2.been_revealed && t2.display == TileDisplay::Hidden && (
                t2.is_bomb <==> covers_cell(bcv, i, ni)) && t2.bombs_around as int == occ(
                    cur,
                    coord_of(i, ni),
                )
            } by {
                if i == m {
                    assert(grid_seq(grid_set)[i] == new_tile);
                } else {
                    assert(grid_seq(grid_set)[i] == tiles_before[i]);
                    assert(coord_of(i, ni) != q) by {
                        lemma_coord_of_bounds(i, ni);
                    }
                }
            }
        }
        j2 = j2 + 1;
    }
    proof {
        let tiles_fin = grid_seq(grid_set);
        let bombs = bombs_of(tiles_fin);
        assert(flatv.subrange(0, flatv.len() as int) =~= flatv);
        assert forall|p: (int, int)| in_bounds_coord(p, ni) implies (#[trigger] mine_at(
            bombs,
            ni,
            p,
        ) <==> minesv.contains(p)) by {
            lemma_lin_coord_inverse(p, ni);
            let i = lin(p, ni);
            assert(bombs[i] == tiles_fin[i].is_bomb);
            lemma_covers_cell_contains(bcv, i, ni);
            if covers_cell(bcv, i, ni) {
                let k = choose|k: int|
                    0 <= k < bcv.len() && lin(coord_view(#[trigger] bcv[k]), ni) == i;
                lemma_lin_coord_inverse(coord_view(bcv[k]), ni);
                assert(coord_view(bcv[k]) == p);
                assert(minesv[k] == p);
            }
            if minesv.contains(p) {
                let k = choose|k: int| 0 <= k < minesv.len() && minesv[k] == p;
                assert(coord_view(bcv[k]) == p);
                assert(lin(coord_view(bcv[k]), ni) == i);
            }
        }
        assert forall|i: int| 0 <= i < ni * ni implies (#[trigger] tiles_fin[i]).bombs_around
            as int == adj_mines(bombs, ni, i / ni, i % ni) by {
            lemma_coord_of_bounds(i, ni);
            let q = coord_of(i, ni);
            assert(tiles_fin[i].bombs_around as int == occ(flatv, q));
            lemma_occ_flat(minesv, ni, q);
            lemma_sum_occ_swap(neighbors_of(q.0, q.1, ni), minesv);
            assert forall|p: (int, int)| neighbors_of(q.0, q.1, ni).contains(p) implies
                in_bounds_coord(p, ni) by {
                lemma_neighbors_contains(q.0, q.1, ni, p);
            }
            lemma_count_mines_is_sum_mem(bombs, ni, neighbors_of(q.0, q.1, ni), minesv);
        }
        assert forall|i: int| 0 <= i < ni * ni implies ((#[trigger] tiles_fin[i]).is_bomb
            <==> namesv.contains(i as usize)) by {
            lemma_covers_cell_contains(bcv, i, ni);
            if covers_cell(bcv, i, ni) {
                let k = choose|k: int|
                    0 <= k < bcv.len() && lin(coord_view(#[trigger] bcv[k]), ni) == i;
                assert(namesv[k] as int == i);
                assert(namesv[k] == i as usize);
            }
            if namesv.contains(i as usize) {
                let k = choose|k: int| 0 <= k < namesv.len() && namesv[k] == i as usize;
                assert(lin(coord_view(bcv[k]), ni) == i);
            }
        }
        assert(board_wf(grid_seq(grid_set), ni));
    }
    grid_set
}

/// The Board Generator: `bomb_count` mines drawn at random, every
/// other tile safe, and every tile's adjacent-mine count computed.
pub fn tile_creation(grid_size: &usize, bomb_count: &usize) -> (g: grid::Grid<Tile>)
    requires
        *grid_size >= 1,
        *grid_size as int * *grid_size as int <= usize::MAX,
        (*bomb_count as int) < *grid_size as int * *grid_size as int,
    ensures
        grid_cols(g) == *grid_size,
        board_wf(grid_seq(g), *grid_size as int),
        count_bombs(grid_seq(g)) == *bomb_count,
        forall|i: int|
            0 <= i < grid_seq(g).len() ==> !(#[trigger] grid_seq(g)[i]).been_revealed
                && grid_seq(g)[i].display == TileDisplay::Hidden,
{
    let bomb_names = sample_bomb_names(*grid_size, *bomb_count);
    tiles_from_bomb_names(bomb_names, *grid_size)
}

/// Builds a whole session for a chosen mine placement: the
/// deterministic core of `create_game_config`, also the injection
/// point for reproducible boards.
pub fn create_game_config_with_bombs_at(grid_size: usize, bomb_names: Vec<usize>) -> (gc:
    GameConfig)
    requires
        grid_size >= 1,
        2 * (grid_size as int) * (grid_size as int) < isize::MAX,
        grid_size as int * grid_size as int <= usize::MAX,
        bomb_names@.no_duplicates(),
        forall|k: int|
            0 <= k < bomb_names@.len() ==> (#[trigger] bomb_names@[k] as int) < grid_size as int
                * grid_size as int,
        bomb_names@.len() < grid_size as int * grid_size as int,
    ensures
        config_wf(gc),
        gc.grid_size == grid_size,
        gc.bomb_count == bomb_names@.len(),
        gc.game_data.revealed_tiles == 0,
        gc.game_data.tiles_marked == 0,
        gc.game_data.revealed_tiles_to_win as int == grid_size as int * grid_size as int
            - bomb_names@.len(),
        gc.cursor_data.position == [0usize, 0usize],
        gc.cursor_data.currently_moving == Moves::Stay,
        gc.cursor_data.action == CursorActions::Move,
        forall|i: int|
            0 <= i < grid_seq(gc.tiles).len() ==> ((#[trigger] grid_seq(gc.tiles)[i]).is_bomb
                <==> bomb_names@.contains(i as usize)),
        forall|i: int|
            0 <= i < grid_seq(gc.tiles).len() ==> !(#[trigger] grid_seq(
                gc.tiles,
            )[i]).been_revealed && grid_seq(gc.tiles)[i].display == TileDisplay::Hidden,
{
    let count = bomb_names.len();
    let tiles = tiles_from_bomb_names(bomb_names, grid_size);
    let game_data = GameData {
        revealed_tiles: 0,
        tiles_marked: 0,
        revealed_tiles_to_win: grid_size * grid_size - count,
    };
    let cursor = Cursor {
        currently_moving: Moves::Stay,
        position: [0, 0],
        action: CursorActions::Move,
    };
    let bomb_count = count as isize;
    let gc = GameConfig { grid_size, bomb_count, tiles, game_data, cursor_data: cursor };
    proof {
        lemma_counts_all_clear(grid_seq(gc.tiles));
        assert(count as int <= isize::MAX) by (nonlinear_arith)
            requires
                (count as int) < (grid_size as int) * (grid_size as int),
                2 * (grid_size as int) * (grid_size as int) < isize::MAX,
                grid_size >= 1;
        assert(gc.bomb_count as int == count as int);
        assert(gc.bomb_count == count_bombs(grid_seq(gc.tiles)));
        assert(gc.game_data.revealed_tiles == count_revealed(grid_seq(gc.tiles)));
        assert(0 <= gc.game_data.tiles_marked <= count_marked(grid_seq(gc.tiles))
            + count_revealed(grid_seq(gc.tiles)));
        assert(cursor_in_bounds(gc.cursor_data, gc.grid_size as int));
        assert(config_wf(gc));
    }
    gc
}

/// Builds a fresh session: validates the configuration, then places
/// `bomb_count` random mines. Fails with `InvalidConfiguration`
/// exactly when the mine count does not fit the grid.
pub fn create_game_config(grid_size: usize, bomb_count: usize) -> (r: Result<
    GameConfig,
    GameError,
>)
    requires
        2 * (grid_size as int) * (grid_size as int) < isize::MAX,
        grid_size as int * grid_size as int <= usize::MAX,
    ensures
        r is Ok <==> (grid_size >= 1 && (bomb_count as int) < grid_size as int
            * grid_size as int),
        r is Err ==> r == Result::<GameConfig, GameError>::Err(GameError::InvalidConfiguration),
        r is Ok ==> {
            let gc = r->Ok_0;
            &&& config_wf(gc)
            &&& gc.grid_size == grid_size
            &&& gc.bomb_count == bomb_count
            &&& gc.game_data.revealed_tiles == 0
            &&& gc.game_data.tiles_marked == 0
            &&& gc.game_data.revealed_tiles_to_win as int == grid_size as int
                * grid_size as int - bomb_count
            &&& gc.cursor_data.position == [0usize, 0usize]
            &&& gc.cursor_data.currently_moving == Moves::Stay
            &&& gc.cursor_data.action == CursorActions::Move
        },
{
    if grid_size < 1 {
        return Err(GameError::InvalidConfiguration);
    }
    let n2 = grid_size * grid_size;
    if bomb_count >= n2 {
        return Err(GameError::InvalidConfiguration);
    }
    let bomb_names = sample_bomb_names(grid_size, bomb_count);
    Ok(create_game_config_with_bombs_at(grid_size, bomb_names))
}

/// Linear tile names to (row, col) coordinates, row-major.
pub fn tile_names_to_coords(names: Vec<usize>, grid_size: usize) -> (coords: Vec<(usize, usize)>)
    requires
        grid_size >= 1,
    ensures
        coords@.len() == names@.len(),
        forall|i: int|
            0 <= i < names@.len() ==> coord_view(#[trigger] coords@[i]) == coord_of(
                names@[i] as int,
                grid_size as int,
            ),
{
    let mut new_coords: Vec<(usize, usize)> = Vec::new();
    let mut j: usize = 0;
    while j < names.len()
        invariant
            grid_size >= 1,
            j <= names@.len(),
            new_coords@.len() == j,
            forall|i: int|
                0 <= i < j ==> coord_view(#[trigger] new_coords@[i]) == coord_of(
                    names@[i] as int,
                    grid_size as int,
                ),
        decreases names@.len() - j,
    {
        let name = names[j];
        new_coords.push((name / grid_size, name % grid_size));
        j = j + 1;
    }
    new_coords
}

} // verus!
