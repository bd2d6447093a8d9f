use crate::cursor::CursorActions;
use crate::gamedata::{
    adj_mines, adjacent8, bombs_of, config_wf, coord_of, coord_view, coords_view, count_marked,
    count_revealed, covers_cell, in_bounds_coord, lemma_board_update_keeps_adj,
    lemma_coord_of_bounds, lemma_count_marked_pos, lemma_count_mines_zero,
    lemma_count_rev_vs_bombs, lemma_counts_bounds, lemma_counts_update, lemma_count_revealed_lt,
    lemma_covers_cell_contains, lemma_lin_coord_inverse, lemma_neighbors_contains,
    lemma_zeros_among_contains, lin, mine_at, neighbors_of, neighbors_of_all, reveal_or_keep,
    revealed_tile, zeros_among, coords_around_input_coords, reveal_tiles_return_zeros,
    GameActions, GameConfig, Tile, TileDisplay,
};
use crate::grid_store::{grid_cols, grid_get_tile, grid_seq, grid_set_tile};
use vstd::prelude::*;
use vstd::seq_lib::*;
use vstd::set_lib::*;

verus! {

/// Whether `p` occurs in a coordinate list.
fn contains_coord(v: &Vec<(usize, usize)>, p: (usize, usize)) -> (b: bool)
    ensures
        b == v@.contains(p),
{
    let mut i: usize = 0;
    while i < v.len()
        invariant
            i <= v@.len(),
            forall|k: int| 0 <= k < i ==> (#[trigger] v@[k]) != p,
        decreases v@.len() - i,
    {
        let q = v[i];
        if q.0 == p.0 && q.1 == p.1 {
            proof {
                assert(v@[i as int] == p);
            }
            return true;
        }
        i = i + 1;
    }
    false
}

proof fn lemma_concat_contains(a: Seq<(int, int)>, b: Seq<(int, int)>, x: (int, int))
    ensures
        (a + b).contains(x) <==> (a.contains(x) || b.contains(x)),
{
    if a.contains(x) {
        let k = choose|k: int| 0 <= k < a.len() && a[k] == x;
        assert((a + b)[k] == x);
    }
    if b.contains(x) {
        let k = choose|k: int| 0 <= k < b.len() && b[k] == x;
        assert((a + b)[a.len() + k] == x);
    }
    if (a + b).contains(x) {
        let k = choose|k: int| 0 <= k < a.len() + b.len() && (a + b)[k] == x;
        if k < a.len() {
            assert(a[k] == x);
        } else {
            assert(b[k - a.len()] == x);
        }
    }
}

/// A cell lies among the flattened neighbor lists of `a` exactly when
/// it neighbors some entry of `a`.
proof fn lemma_neighbors_of_all_contains(a: Seq<(int, int)>, n: int, x: (int, int))
    ensures
        neighbors_of_all(a, n).contains(x) <==> exists|j: int|
            0 <= j < a.len() && neighbors_of((#[trigger] a[j]).0, a[j].1, n).contains(x),
    decreases a.len(),
{
    if a.len() > 0 {
        let d = a.drop_last();
        lemma_neighbors_of_all_contains(d, n, x);
        lemma_concat_contains(
            neighbors_of_all(d, n),
            neighbors_of(a.last().0, a.last().1, n),
            x,
        );
        if neighbors_of_all(d, n).contains(x) {
            let j = choose|j: int|
                0 <= j < d.len() && neighbors_of((#[trigger] d[j]).0, d[j].1, n).contains(x);
            assert(a[j] == d[j]);
        }
        if neighbors_of(a.last().0, a.last().1, n).contains(x) {
            assert(a[a.len() - 1] == a.last());
        }
        if exists|j: int|
            0 <= j < a.len() && neighbors_of((#[trigger] a[j]).0, a[j].1, n).contains(x) {
            let j = choose|j: int|
                0 <= j < a.len() && neighbors_of((#[trigger] a[j]).0, a[j].1, n).contains(x);
            if j < a.len() - 1 {
                assert(d[j] == a[j]);
            }
        }
    }
}

/// A duplicate-free list of in-bounds coordinates on an n-by-n grid
/// has at most n² entries.
proof fn lemma_distinct_cells_card(s: Seq<(usize, usize)>, n: int)
    requires
        n >= 1,
        s.no_duplicates(),
        forall|k: int| 0 <= k < s.len() ==> in_bounds_coord(coord_view(#[trigger] s[k]), n),
    ensures
        s.len() <= n * n,
{
    let lins = s.map_values(|p: (usize, usize)| lin(coord_view(p), n));
    assert forall|k1: int, k2: int|
        0 <= k1 < lins.len() && 0 <= k2 < lins.len() && k1 != k2 implies lins[k1] != lins[k2] by {
        lemma_lin_coord_inverse(coord_view(s[k1]), n);
        lemma_lin_coord_inverse(coord_view(s[k2]), n);
    }
    lins.unique_seq_to_set();
    assert(lins.to_set().subset_of(set_int_range(0, n * n))) by {
        assert forall|x: int| lins.to_set().contains(x) implies set_int_range(0, n * n).contains(
            x,
        ) by {
            let k = choose|k: int| 0 <= k < lins.len() && lins[k] == x;
            lemma_lin_coord_inverse(coord_view(s[k]), n);
        }
    }
    lemma_int_range(0, n * n);
    lemma_len_subset(lins.to_set(), set_int_range(0, n * n));
}

proof fn lemma_covers_concat(a: Seq<(usize, usize)>, b: Seq<(usize, usize)>, i: int, n: int)
    ensures
        covers_cell(a + b, i, n) <==> (covers_cell(a, i, n) || covers_cell(b, i, n)),
    decreases b.len(),
{
    if b.len() == 0 {
        assert(a + b =~= a);
    } else {
        assert((a + b).drop_last() =~= a + b.drop_last());
        lemma_covers_concat(a, b.drop_last(), i, n);
    }
}

/// On coordinates within the grid, covering a cell and holding its
/// coordinate are the same thing.
proof fn lemma_covers_coord(s: Seq<(usize, usize)>, p: (usize, usize), n: int)
    requires
        n >= 1,
        in_bounds_coord(coord_view(p), n),
        forall|k: int| 0 <= k < s.len() ==> in_bounds_coord(coord_view(#[trigger] s[k]), n),
    ensures
        covers_cell(s, lin(coord_view(p), n), n) <==> s.contains(p),
{
    let i = lin(coord_view(p), n);
    lemma_covers_cell_contains(s, i, n);
    lemma_lin_coord_inverse(coord_view(p), n);
    if covers_cell(s, i, n) {
        let k = choose|k: int| 0 <= k < s.len() && lin(coord_view(#[trigger] s[k]), n) == i;
        lemma_lin_coord_inverse(coord_view(s[k]), n);
        assert(coord_view(s[k]) == coord_view(p));
        assert(s[k] == p);
    }
    if s.contains(p) {
        let k = choose|k: int| 0 <= k < s.len() && s[k] == p;
        assert(lin(coord_view(s[k]), n) == i);
    }
}

/// A chain of at most `k` zero tiles links the start tile `s` to tile
/// `i`: either `i` is the start, or some tile without adjacent mines
/// is itself reachable and adjacent to `i`. With a zero start this set
/// is exactly the connected zero region together with its border.
pub open spec fn reaches(tiles: Seq<Tile>, n: int, s: int, i: int, k: nat) -> bool
    decreases k,
{
    if i == s {
        true
    } else if k == 0 {
        false
    } else {
        exists|z: int|
            0 <= z < tiles.len() && (#[trigger] tiles[z]).bombs_around == 0 && reaches(
                tiles,
                n,
                s,
                z,
                (k - 1) as nat,
            ) && adjacent8(coord_of(z, n), coord_of(i, n))
    }
}

/// Whatever a zero-tile chain from the start can reach, the Reveal
/// Engine has revealed: on a board with nothing revealed beforehand,
/// the engine's closure guarantee forces the whole connected zero
/// region and its border open.
pub proof fn lemma_reveal_engine_completeness(
    t0: Seq<Tile>,
    t1: Seq<Tile>,
    n: int,
    s: int,
    i: int,
    k: nat,
)
    requires
        n >= 1,
        t0.len() == n * n,
        t1.len() == n * n,
        0 <= s < n * n,
        0 <= i < n * n,
        forall|j: int|
            0 <= j < n * n ==> (#[trigger] t1[j]).bombs_around == t0[j].bombs_around,
        t1[s].been_revealed,
        forall|j: int|
            0 <= j < n * n && (#[trigger] t1[j]).been_revealed && t1[j].bombs_around == 0
                ==> forall|p: (int, int)|
                #[trigger] neighbors_of(coord_of(j, n).0, coord_of(j, n).1, n).contains(p)
                    ==> t1[lin(p, n)].been_revealed,
        reaches(t0, n, s, i, k),
    ensures
        t1[i].been_revealed,
    decreases k,
{
    if i != s {
        let z = choose|z: int|
            0 <= z < t0.len() && (#[trigger] t0[z]).bombs_around == 0 && reaches(
                t0,
                n,
                s,
                z,
                (k - 1) as nat,
            ) && adjacent8(coord_of(z, n), coord_of(i, n));
        lemma_reveal_engine_completeness(t0, t1, n, s, z, (k - 1) as nat);
        lemma_coord_of_bounds(i, n);
        lemma_coord_of_bounds(z, n);
        lemma_neighbors_contains(coord_of(z, n).0, coord_of(z, n).1, n, coord_of(i, n));
        assert(t1[lin(coord_of(i, n), n)].been_revealed);
    }
}

/// The linear index of the cursor tile.
pub open spec fn cursor_lin(gc: GameConfig) -> int {
    lin(
        (gc.cursor_data.position[0] as int, gc.cursor_data.position[1] as int),
        gc.grid_size as int,
    )
}

/// The Reveal Engine: starting from the cursor's tile, which has no
/// adjacent mine, reveals the connected region of zero tiles together
/// with its non-zero border, each tile at most once. Already revealed
/// tiles are left untouched, so running it again changes nothing.
#[verifier::rlimit(100)]
pub fn reveal_all_zeros_around_cursor_position(game_config: &mut GameConfig)
    requires
        config_wf(*old(game_config)),
        grid_seq(old(game_config).tiles)[cursor_lin(*old(game_config))].bombs_around == 0,
        !grid_seq(old(game_config).tiles)[cursor_lin(*old(game_config))].is_bomb,
    ensures
        config_wf(*final(game_config)),
        final(game_config).grid_size == old(game_config).grid_size,
        final(game_config).bomb_count == old(game_config).bomb_count,
        final(game_config).cursor_data == old(game_config).cursor_data,
        final(game_config).game_data.tiles_marked == old(game_config).game_data.tiles_marked,
        final(game_config).game_data.revealed_tiles_to_win == old(
            game_config,
        ).game_data.revealed_tiles_to_win,
        grid_seq(final(game_config).tiles)[cursor_lin(*old(game_config))].been_revealed,
        forall|i: int|
            0 <= i < grid_seq(old(game_config).tiles).len() ==> grid_seq(
                final(game_config).tiles,
            )[i] == grid_seq(old(game_config).tiles)[i] || grid_seq(final(game_config).tiles)[i]
                == revealed_tile(grid_seq(old(game_config).tiles)[i]),
        forall|i: int|
            0 <= i < grid_seq(old(game_config).tiles).len() && grid_seq(
                old(game_config).tiles,
            )[i].been_revealed ==> grid_seq(final(game_config).tiles)[i] == grid_seq(
                old(game_config).tiles,
            )[i],
        forall|i: int|
            0 <= i < grid_seq(old(game_config).tiles).len() && !grid_seq(
                old(game_config).tiles,
            )[i].been_revealed && grid_seq(final(game_config).tiles)[i].been_revealed ==> exists|
                k: nat,
            |
                reaches(
                    grid_seq(old(game_config).tiles),
                    old(game_config).grid_size as int,
                    cursor_lin(*old(game_config)),
                    i,
                    k,
                ),
        forall|i: int|
            0 <= i < grid_seq(old(game_config).tiles).len() && !grid_seq(
                old(game_config).tiles,
            )[i].been_revealed && grid_seq(final(game_config).tiles)[i].been_revealed ==> i
                == cursor_lin(*old(game_config)) || exists|z: int|
                0 <= z < grid_seq(old(game_config).tiles).len() && grid_seq(
                    final(game_config).tiles,
                )[z].been_revealed && grid_seq(final(game_config).tiles)[z].bombs_around == 0
                    && adjacent8(
                    coord_of(z, old(game_config).grid_size as int),
                    coord_of(i, old(game_config).grid_size as int),
                ),
        forall|i: int|
            0 <= i < grid_seq(old(game_config).tiles).len() && grid_seq(
                final(game_config).tiles,
            )[i].been_revealed && grid_seq(final(game_config).tiles)[i].bombs_around == 0 && (i
                == cursor_lin(*old(game_config)) || !grid_seq(
                old(game_config).tiles,
            )[i].been_revealed) ==> forall|p: (int, int)|
                #[trigger] neighbors_of(
                    coord_of(i, old(game_config).grid_size as int).0,
                    coord_of(i, old(game_config).grid_size as int).1,
                    old(game_config).grid_size as int,
                ).contains(p) ==> grid_seq(final(game_config).tiles)[lin(
                    p,
                    old(game_config).grid_size as int,
                )].been_revealed,
{
    let n = game_config.grid_size;
    let ghost ni = n as int;
    let ghost gc0 = *game_config;
    let ghost t0 = grid_seq(gc0.tiles);
    let start = (game_config.cursor_data.position[0], game_config.cursor_data.position[1]);
    let ghost sl = lin(coord_view(start), ni);
    let mut frontier: Vec<(usize, usize)> = Vec::new();
    frontier.push(start);
    let mut seen: Vec<(usize, usize)> = Vec::new();
    proof {
        assert(sl == cursor_lin(gc0));
        assert(frontier@[0] == start);
        lemma_lin_coord_inverse(coord_view(start), ni);
        assert(reaches(t0, ni, sl, sl, 0nat));
    }
    while frontier.len() > 0
        invariant
            ni == n as int,
            gc0 == *old(game_config),
            t0 == grid_seq(gc0.tiles),
            config_wf(gc0),
            n == gc0.grid_size,
            sl == lin(coord_view(start), ni),
            sl == cursor_lin(gc0),
            start.0 < n && start.1 < n,
            0 <= sl < t0.len(),
            t0[sl].bombs_around == 0,
            !t0[sl].is_bomb,
            config_wf(*game_config),
            game_config.grid_size == n,
            game_config.bomb_count == gc0.bomb_count,
            game_config.cursor_data == gc0.cursor_data,
            game_config.game_data.tiles_marked == gc0.game_data.tiles_marked,
            game_config.game_data.revealed_tiles_to_win == gc0.game_data.revealed_tiles_to_win,
            seen@.no_duplicates(),
            forall|k: int|
                0 <= k < seen@.len() ==> (#[trigger] seen@[k]).0 < n && seen@[k].1 < n,
            seen@.len() <= ni * ni,
            forall|i: int|
                0 <= i < t0.len() && covers_cell(seen@, i, ni) ==> grid_seq(
                    game_config.tiles,
                )[i] == reveal_or_keep(t0[i]),
            forall|i: int|
                0 <= i < t0.len() && !covers_cell(seen@, i, ni) ==> grid_seq(
                    game_config.tiles,
                )[i] == t0[i],
            forall|k: int|
                0 <= k < frontier@.len() ==> {
                    let p = #[trigger] frontier@[k];
                    &&& p.0 < n
                    &&& p.1 < n
                    &&& t0[lin(coord_view(p), ni)].bombs_around == 0
                    &&& !t0[lin(coord_view(p), ni)].is_bomb
                    &&& (covers_cell(seen@, lin(coord_view(p), ni), ni) || lin(
                        coord_view(p),
                        ni,
                    ) == sl)
                    &&& exists|k: nat| reaches(t0, ni, sl, lin(coord_view(p), ni), k)
                },
            covers_cell(seen@, sl, ni) || frontier@.contains(start),
            forall|i: int|
                0 <= i < t0.len() && covers_cell(seen@, i, ni) ==> exists|k: nat|
                    reaches(t0, ni, sl, i, k),
            forall|i: int|
                0 <= i < t0.len() && covers_cell(seen@, i, ni) && t0[i].bombs_around == 0 ==> (
                forall|p: (int, int)|
                    #[trigger] neighbors_of(
                        coord_of(i, ni).0,
                        coord_of(i, ni).1,
                        ni,
                    ).contains(p) ==> covers_cell(seen@, lin(p, ni), ni)) || covers_cell(
                    frontier@,
                    i,
                    ni,
                ),
            forall|i: int|
                0 <= i < t0.len() && covers_cell(seen@, i, ni) ==> i == sl || exists|z: int|
                    0 <= z < t0.len() && covers_cell(seen@, z, ni) && t0[z].bombs_around == 0
                        && adjacent8(coord_of(z, ni), coord_of(i, ni)),
        decreases ni * ni - seen@.len(), frontier@.len(),
    {
        let ghost seen0 = seen@;
        let ghost frontier0 = frontier@;
        let nbrs = coords_around_input_coords(&mut frontier, n);
        let ghost nbrsv = nbrs@;
        let mut candidates: Vec<(usize, usize)> = Vec::new();
        let mut i1: usize = 0;
        while i1 < frontier.len()
            invariant
                i1 <= frontier@.len(),
                ni == n as int,
                n >= 1,
                frontier@ == frontier0,
                seen@ == seen0,
                t0 == grid_seq(gc0.tiles),
                config_wf(gc0),
                n == gc0.grid_size,
                forall|k: int|
                    0 <= k < frontier0.len() ==> {
                        let p = #[trigger] frontier0[k];
                        &&& p.0 < n
                        &&& p.1 < n
                        &&& t0[lin(coord_view(p), ni)].bombs_around == 0
                        &&& !t0[lin(coord_view(p), ni)].is_bomb
                    },
                candidates@.no_duplicates(),
                forall|k: int|
                    0 <= k < candidates@.len() ==> (#[trigger] candidates@[k]).0 < n
                        && candidates@[k].1 < n,
                forall|k: int| 0 <= k < candidates@.len() ==> !seen0.contains(
                    #[trigger] candidates@[k],
                ),
                forall|k: int|
                    0 <= k < candidates@.len() ==> !t0[lin(
                        coord_view(#[trigger] candidates@[k]),
                        ni,
                    )].is_bomb,
                forall|k: int|
                    0 <= k < candidates@.len() ==> frontier0.contains(#[trigger] candidates@[k])
                        || exists|j: int|
                        0 <= j < frontier0.len() && neighbors_of(
                            coord_view(#[trigger] frontier0[j]).0,
                            coord_view(frontier0[j]).1,
                            ni,
                        ).contains(coord_view(candidates@[k])),
                forall|k: int|
                    0 <= k < i1 ==> seen0.contains(#[trigger] frontier0[k])
                        || candidates@.contains(frontier0[k]),
            decreases frontier@.len() - i1,
        {
            let p = frontier[i1];
            let in_seen = contains_coord(&seen, p);
            let in_cand = contains_coord(&candidates, p);
            if !in_seen && !in_cand {
                let ghost cpre = candidates@;
                candidates.push(p);
                proof {
                    assert(candidates@.drop_last() =~= cpre);
                    assert(candidates@.last() == p);
                    assert(frontier0.contains(p)) by {
                        assert(frontier0[i1 as int] == p);
                    }
                    assert forall|k: int|
                        0 <= k < candidates@.len() implies !seen0.contains(
                        #[trigger] candidates@[k],
                    ) && !t0[lin(coord_view(candidates@[k]), ni)].is_bomb && (
                    frontier0.contains(candidates@[k]) || exists|j: int|
                        0 <= j < frontier0.len() && neighbors_of(
                            coord_view(#[trigger] frontier0[j]).0,
                            coord_view(frontier0[j]).1,
                            ni,
                        ).contains(coord_view(candidates@[k]))) by {
                        if k < candidates@.len() - 1 {
                            assert(candidates@[k] == cpre[k]);
                        } else {
                            assert(candidates@[k] == p);
                        }
                    }
                    assert forall|k1: int, k2: int|
                        0 <= k1 < candidates@.len() && 0 <= k2 < candidates@.len() && k1
                            != k2 implies candidates@[k1] != candidates@[k2] by {
                        if k1 < candidates@.len() - 1 && k2 < candidates@.len() - 1 {
                            assert(candidates@[k1] == cpre[k1] && candidates@[k2] == cpre[k2]);
                        } else {
                            assert(!cpre.contains(p));
                        }
                    }
                }
            }
            proof {
                assert forall|k: int| 0 <= k < i1 + 1 implies seen0.contains(
                    #[trigger] frontier0[k],
                ) || candidates@.contains(frontier0[k]) by {
                    if k == i1 as int && !seen0.contains(p) {
                        assert(candidates@[candidates@.len() - 1] == p || candidates@.contains(
                            p,
                        ));
                    }
                }
            }
            i1 = i1 + 1;
        }
        let mut i2: usize = 0;
        while i2 < nbrs.len()
            invariant
                i2 <= nbrsv.len(),
                ni == n as int,
                n >= 1,
                nbrsv == nbrs@,
                frontier@ == frontier0,
                seen@ == seen0,
                t0 == grid_seq(gc0.tiles),
                config_wf(gc0),
                n == gc0.grid_size,
                coords_view(nbrsv) == neighbors_of_all(coords_view(frontier0), ni),
                forall|k: int|
                    0 <= k < nbrsv.len() ==> (#[trigger] nbrsv[k]).0 < n && nbrsv[k].1 < n,
                forall|k: int|
                    0 <= k < frontier0.len() ==> {
                        let p = #[trigger] frontier0[k];
                        &&& p.0 < n
                        &&& p.1 < n
                        &&& t0[lin(coord_view(p), ni)].bombs_around == 0
                        &&& !t0[lin(coord_view(p), ni)].is_bomb
                    },
                candidates@.no_duplicates(),
                forall|k: int|
                    0 <= k < candidates@.len() ==> (#[trigger] candidates@[k]).0 < n
                        && candidates@[k].1 < n,
                forall|k: int| 0 <= k < candidates@.len() ==> !seen0.contains(
                    #[trigger] candidates@[k],
                ),
                forall|k: int|
                    0 <= k < candidates@.len() ==> !t0[lin(
                        coord_view(#[trigger] candidates@[k]),
                        ni,
                    )].is_bomb,
                forall|k: int|
                    0 <= k < candidates@.len() ==> frontier0.contains(#[trigger] candidates@[k])
                        || exists|j: int|
                        0 <= j < frontier0.len() && neighbors_of(
                            coord_view(#[trigger] frontier0[j]).0,
                            coord_view(frontier0[j]).1,
                            ni,
                        ).contains(coord_view(candidates@[k])),
                forall|k: int|
                    0 <= k < frontier0.len() ==> seen0.contains(#[trigger] frontier0[k])
                        || candidates@.contains(frontier0[k]),
                forall|k: int|
                    0 <= k < i2 ==> seen0.contains(#[trigger] nbrsv[k]) || candidates@.contains(
                        nbrsv[k],
                    ),
            decreases nbrsv.len() - i2,
        {
            let p = nbrs[i2];
            let in_seen = contains_coord(&seen, p);
            let in_cand = contains_coord(&candidates, p);
            proof {
                assert(coords_view(nbrsv)[i2 as int] == coord_view(p));
                assert(coords_view(nbrsv).contains(coord_view(p)));
                lemma_neighbors_of_all_contains(coords_view(frontier0), ni, coord_view(p));
                let j = choose|j: int|
                    0 <= j < coords_view(frontier0).len() && neighbors_of(
                        (#[trigger] coords_view(frontier0)[j]).0,
                        coords_view(frontier0)[j].1,
                        ni,
                    ).contains(coord_view(p));
                let z = frontier0[j];
                let zc = coord_view(z);
                assert(neighbors_of(zc.0, zc.1, ni).contains(coord_view(p)));
                lemma_lin_coord_inverse(zc, ni);
                assert(t0[lin(zc, ni)].bombs_around as int == adj_mines(
                    bombs_of(t0),
                    ni,
                    lin(zc, ni) / ni,
                    lin(zc, ni) % ni,
                ));
                assert(coord_of(lin(zc, ni), ni) == zc);
                assert(adj_mines(bombs_of(t0), ni, zc.0, zc.1) == 0);
                lemma_count_mines_zero(bombs_of(t0), ni, neighbors_of(zc.0, zc.1, ni));
                let k = choose|k: int|
                    0 <= k < neighbors_of(zc.0, zc.1, ni).len() && neighbors_of(zc.0, zc.1, ni)[k]
                        == coord_view(p);
                assert(!mine_at(bombs_of(t0), ni, coord_view(p)));
                lemma_lin_coord_inverse(coord_view(p), ni);
                assert(!t0[lin(coord_view(p), ni)].is_bomb);
            }
            if !in_seen && !in_cand {
                let ghost cpre = candidates@;
                candidates.push(p);
                proof {
                    assert(candidates@.drop_last() =~= cpre);
                    assert(candidates@.last() == p);
                    assert forall|k: int|
                        0 <= k < candidates@.len() implies !seen0.contains(
                        #[trigger] candidates@[k],
                    ) && !t0[lin(coord_view(candidates@[k]), ni)].is_bomb && (
                    frontier0.contains(candidates@[k]) || exists|j: int|
                        0 <= j < frontier0.len() && neighbors_of(
                            coord_view(#[trigger] frontier0[j]).0,
                            coord_view(frontier0[j]).1,
                            ni,
                        ).contains(coord_view(candidates@[k]))) by {
                        if k < candidates@.len() - 1 {
                            assert(candidates@[k] == cpre[k]);
                        } else {
                            assert(candidates@[k] == p);
                        }
                    }
                    assert forall|k1: int, k2: int|
                        0 <= k1 < candidates@.len() && 0 <= k2 < candidates@.len() && k1
                            != k2 implies candidates@[k1] != candidates@[k2] by {
                        if k1 < candidates@.len() - 1 && k2 < candidates@.len() - 1 {
                            assert(candidates@[k1] == cpre[k1] && candidates@[k2] == cpre[k2]);
                        } else {
                            assert(!cpre.contains(p));
                        }
                    }
                    assert forall|k: int|
                        0 <= k < frontier0.len() implies seen0.contains(#[trigger] frontier0[k])
                        || candidates@.contains(frontier0[k]) by {
                        if candidates@.drop_last().contains(frontier0[k]) {
                            let q = choose|q: int|
                                0 <= q < cpre.len() && cpre[q] == frontier0[k];
                            assert(candidates@[q] == frontier0[k]);
                        }
                    }
                }
            }
            proof {
                assert forall|k: int| 0 <= k < i2 + 1 implies seen0.contains(
                    #[trigger] nbrsv[k],
                ) || candidates@.contains(nbrsv[k]) by {
                    if k == i2 as int && !seen0.contains(p) {
                        assert(candidates@.contains(p));
                    }
                }
            }
            i2 = i2 + 1;
        }
        // merge the new candidates into the seen set
        let ghost cand = candidates@;
        let mut i3: usize = 0;
        while i3 < candidates.len()
            invariant
                i3 <= cand.len(),
                candidates@ == cand,
                seen@ == seen0 + cand.subrange(0, i3 as int),
            decreases cand.len() - i3,
        {
            let p = candidates[i3];
            seen.push(p);
            proof {
                assert(seen@ =~= seen0 + cand.subrange(0, i3 + 1));
            }
            i3 = i3 + 1;
        }
        proof {
            assert(cand.subrange(0, cand.len() as int) =~= cand);
            assert(seen@ == seen0 + cand);
        }
        let ghost seen1 = seen0 + cand;
        let ghost tiles_b = grid_seq(game_config.tiles);
        proof {
            // the candidates are in bounds and safe in the current board
            assert forall|k: int| 0 <= k < cand.len() implies (#[trigger] cand[k]).0
                < game_config.grid_size && cand[k].1 < game_config.grid_size && !grid_seq(
                game_config.tiles,
            )[lin(coord_view(cand[k]), game_config.grid_size as int)].is_bomb by {
                lemma_lin_coord_inverse(coord_view(cand[k]), ni);
                let i = lin(coord_view(cand[k]), ni);
                if covers_cell(seen0, i, ni) {
                    assert(grid_seq(game_config.tiles)[i] == reveal_or_keep(t0[i]));
                } else {
                    assert(grid_seq(game_config.tiles)[i] == t0[i]);
                }
            }
        }
        let prev_frontier_len = frontier.len();
        frontier = reveal_tiles_return_zeros(&mut candidates, game_config);
        proof {
            let tiles_a = grid_seq(game_config.tiles);
            // seen1 stays duplicate-free and in bounds
            assert forall|k1: int, k2: int|
                0 <= k1 < seen1.len() && 0 <= k2 < seen1.len() && k1 != k2 implies seen1[k1]
                != seen1[k2] by {
                if k1 < seen0.len() && k2 >= seen0.len() {
                    if seen1[k1] == seen1[k2] {
                        assert(seen0.contains(cand[k2 - seen0.len()])) by {
                            assert(seen0[k1] == cand[k2 - seen0.len()]);
                        }
                    }
                } else if k2 < seen0.len() && k1 >= seen0.len() {
                    if seen1[k1] == seen1[k2] {
                        assert(seen0.contains(cand[k1 - seen0.len()])) by {
                            assert(seen0[k2] == cand[k1 - seen0.len()]);
                        }
                    }
                }
            }
            assert(seen1.no_duplicates());
            assert(seen@.len() <= ni * ni) by {
                lemma_distinct_cells_card(seen1, ni);
            }
            // the board now reflects seen1
            assert forall|i: int| 0 <= i < t0.len() implies (covers_cell(seen1, i, ni)
                ==> tiles_a[i] == reveal_or_keep(t0[i])) && (!covers_cell(seen1, i, ni)
                ==> tiles_a[i] == t0[i]) by {
                lemma_covers_concat(seen0, cand, i, ni);
                if covers_cell(cand, i, ni) {
                    assert(tiles_a[i] == reveal_or_keep(tiles_b[i]));
                    if covers_cell(seen0, i, ni) {
                        assert(tiles_b[i] == reveal_or_keep(t0[i]));
                    } else {
                        assert(tiles_b[i] == t0[i]);
                    }
                } else {
                    assert(tiles_a[i] == tiles_b[i]);
                }
            }
            // every candidate is linked to the start by a zero chain
            assert forall|kc: int| 0 <= kc < cand.len() implies exists|k: nat|
                reaches(t0, ni, sl, lin(coord_view(#[trigger] cand[kc]), ni), k) by {
                let x = cand[kc];
                let i = lin(coord_view(x), ni);
                lemma_lin_coord_inverse(coord_view(x), ni);
                if i == sl {
                    assert(reaches(t0, ni, sl, i, 0nat));
                } else if frontier0.contains(x) {
                    let kf = choose|kf: int| 0 <= kf < frontier0.len() && frontier0[kf] == x;
                    assert(exists|k: nat|
                        reaches(t0, ni, sl, lin(coord_view(frontier0[kf]), ni), k));
                } else {
                    let j = choose|j: int|
                        0 <= j < frontier0.len() && neighbors_of(
                            coord_view(#[trigger] frontier0[j]).0,
                            coord_view(frontier0[j]).1,
                            ni,
                        ).contains(coord_view(x));
                    let z = lin(coord_view(frontier0[j]), ni);
                    lemma_lin_coord_inverse(coord_view(frontier0[j]), ni);
                    let kz = choose|kz: nat| reaches(t0, ni, sl, z, kz);
                    lemma_neighbors_contains(
                        coord_view(frontier0[j]).0,
                        coord_view(frontier0[j]).1,
                        ni,
                        coord_view(x),
                    );
                    assert(0 <= z < t0.len() && t0[z].bombs_around == 0 && reaches(
                        t0,
                        ni,
                        sl,
                        z,
                        kz,
                    ) && adjacent8(coord_of(z, ni), coord_of(i, ni)));
                    assert(reaches(t0, ni, sl, i, (kz + 1) as nat));
                }
            }
            // every seen cell is linked to the start by a zero chain
            assert forall|i: int|
                0 <= i < t0.len() && covers_cell(seen1, i, ni) implies exists|k: nat|
                reaches(t0, ni, sl, i, k) by {
                lemma_covers_concat(seen0, cand, i, ni);
                if !covers_cell(seen0, i, ni) {
                    lemma_covers_cell_contains(cand, i, ni);
                    let kc = choose|kc: int|
                        0 <= kc < cand.len() && lin(coord_view(#[trigger] cand[kc]), ni) == i;
                    assert(exists|k: nat|
                        reaches(t0, ni, sl, lin(coord_view(cand[kc]), ni), k));
                }
            }
            // the new frontier: the zero tiles among the candidates
            assert(frontier@ == zeros_among(cand, tiles_b, ni));
            assert forall|k: int| 0 <= k < frontier@.len() implies {
                let p = #[trigger] frontier@[k];
                &&& p.0 < n
                &&& p.1 < n
                &&& t0[lin(coord_view(p), ni)].bombs_around == 0
                &&& !t0[lin(coord_view(p), ni)].is_bomb
                &&& (covers_cell(seen1, lin(coord_view(p), ni), ni) || lin(coord_view(p), ni)
                    == sl)
                &&& exists|kk: nat| reaches(t0, ni, sl, lin(coord_view(p), ni), kk)
            } by {
                let p = frontier@[k];
                assert(frontier@.contains(p));
                lemma_zeros_among_contains(cand, tiles_b, ni, p);
                assert(cand.contains(p));
                let kc = choose|kc: int| 0 <= kc < cand.len() && cand[kc] == p;
                let i = lin(coord_view(p), ni);
                lemma_lin_coord_inverse(coord_view(p), ni);
                if covers_cell(seen0, i, ni) {
                    assert(tiles_b[i] == reveal_or_keep(t0[i]));
                } else {
                    assert(tiles_b[i] == t0[i]);
                }
                assert(t0[i].bombs_around == 0);
                lemma_covers_concat(seen0, cand, i, ni);
                lemma_covers_cell_contains(cand, i, ni);
            }
            // the start tile is or becomes seen
            assert(covers_cell(seen1, sl, ni) || frontier@.contains(start)) by {
                lemma_covers_concat(seen0, cand, sl, ni);
                if !covers_cell(seen0, sl, ni) {
                    assert(frontier0.contains(start));
                    let k = choose|k: int| 0 <= k < frontier0.len() && frontier0[k] == start;
                    if seen0.contains(start) {
                        lemma_covers_coord(seen0, start, ni);
                    } else {
                        assert(cand.contains(start));
                        lemma_covers_coord(cand, start, ni);
                    }
                }
            }
            // closure is maintained
            assert forall|i: int|
                0 <= i < t0.len() && covers_cell(seen1, i, ni) && t0[i].bombs_around
                    == 0 implies (forall|p: (int, int)|
                #[trigger] neighbors_of(coord_of(i, ni).0, coord_of(i, ni).1, ni).contains(p)
                    ==> covers_cell(seen1, lin(p, ni), ni)) || covers_cell(
                frontier@,
                i,
                ni,
            ) by {
                lemma_covers_concat(seen0, cand, i, ni);
                lemma_coord_of_bounds(i, ni);
                if covers_cell(cand, i, ni) {
                    lemma_covers_cell_contains(cand, i, ni);
                    let kc = choose|kc: int|
                        0 <= kc < cand.len() && lin(coord_view(#[trigger] cand[kc]), ni) == i;
                    lemma_zeros_among_contains(cand, tiles_b, ni, cand[kc]);
                    assert(tiles_b[i].bombs_around == t0[i].bombs_around) by {
                        if covers_cell(seen0, i, ni) {
                            assert(tiles_b[i] == reveal_or_keep(t0[i]));
                        } else {
                            assert(tiles_b[i] == t0[i]);
                        }
                    }
                    assert(frontier@.contains(cand[kc]));
                    lemma_covers_coord(frontier@, cand[kc], ni);
                } else if covers_cell(seen0, i, ni) {
                    if covers_cell(frontier0, i, ni) {
                        // its whole neighborhood went through the merge
                        lemma_covers_cell_contains(frontier0, i, ni);
                        let kf = choose|kf: int|
                            0 <= kf < frontier0.len() && lin(
                                coord_view(#[trigger] frontier0[kf]),
                                ni,
                            ) == i;
                        assert forall|p: (int, int)|
                            #[trigger] neighbors_of(
                                coord_of(i, ni).0,
                                coord_of(i, ni).1,
                                ni,
                            ).contains(p) implies covers_cell(seen1, lin(p, ni), ni) by {
                            lemma_lin_coord_inverse(coord_view(frontier0[kf]), ni);
                            assert(coord_view(frontier0[kf]) == coord_of(i, ni));
                            lemma_neighbors_of_all_contains(coords_view(frontier0), ni, p);
                            assert(coords_view(frontier0)[kf] == coord_view(frontier0[kf]));
                            assert(neighbors_of_all(coords_view(frontier0), ni).contains(p));
                            let kn = choose|kn: int|
                                0 <= kn < coords_view(nbrsv).len() && coords_view(nbrsv)[kn]
                                    == p;
                            assert(coord_view(nbrsv[kn]) == p);
                            assert(seen0.contains(nbrsv[kn]) || cand.contains(nbrsv[kn]));
                            lemma_neighbors_contains(coord_of(i, ni).0, coord_of(i, ni).1, ni, p);
                            lemma_lin_coord_inverse(p, ni);
                            assert(in_bounds_coord(coord_view(nbrsv[kn]), ni));
                            lemma_covers_concat(seen0, cand, lin(p, ni), ni);
                            if seen0.contains(nbrsv[kn]) {
                                lemma_covers_coord(seen0, nbrsv[kn], ni);
                            } else {
                                lemma_covers_coord(cand, nbrsv[kn], ni);
                            }
                        }
                    } else {
                        assert forall|p: (int, int)|
                            #[trigger] neighbors_of(
                                coord_of(i, ni).0,
                                coord_of(i, ni).1,
                                ni,
                            ).contains(p) implies covers_cell(seen1, lin(p, ni), ni) by {
                            lemma_covers_concat(seen0, cand, lin(p, ni), ni);
                        }
                    }
                }
            }
            // soundness is maintained
            assert forall|i: int| 0 <= i < t0.len() && covers_cell(seen1, i, ni) implies i == sl
                || exists|z: int|
                0 <= z < t0.len() && covers_cell(seen1, z, ni) && t0[z].bombs_around == 0
                    && adjacent8(coord_of(z, ni), coord_of(i, ni)) by {
                lemma_covers_concat(seen0, cand, i, ni);
                lemma_coord_of_bounds(i, ni);
                if covers_cell(seen0, i, ni) {
                    if i != sl {
                        let z = choose|z: int|
                            0 <= z < t0.len() && covers_cell(seen0, z, ni) && t0[z].bombs_around
                                == 0 && adjacent8(coord_of(z, ni), coord_of(i, ni));
                        assert(covers_cell(seen1, z, ni)) by {
                            lemma_covers_concat(seen0, cand, z, ni);
                        }
                    }
                } else if covers_cell(cand, i, ni) {
                    lemma_covers_cell_contains(cand, i, ni);
                    let kc = choose|kc: int|
                        0 <= kc < cand.len() && lin(coord_view(#[trigger] cand[kc]), ni) == i;
                    let x = cand[kc];
                    lemma_lin_coord_inverse(coord_view(x), ni);
                    if frontier0.contains(x) {
                        let kf = choose|kf: int|
                            0 <= kf < frontier0.len() && frontier0[kf] == x;
                        assert(covers_cell(seen0, i, ni) || i == sl);
                    } else {
                        let j = choose|j: int|
                            0 <= j < frontier0.len() && neighbors_of(
                                coord_view(#[trigger] frontier0[j]).0,
                                coord_view(frontier0[j]).1,
                                ni,
                            ).contains(coord_view(x));
                        let z = lin(coord_view(frontier0[j]), ni);
                        lemma_lin_coord_inverse(coord_view(frontier0[j]), ni);
                        assert(covers_cell(seen1, z, ni)) by {
                            lemma_covers_concat(seen0, cand, z, ni);
                            if seen0.contains(frontier0[j]) {
                                lemma_covers_coord(seen0, frontier0[j], ni);
                            } else {
                                assert(cand.contains(frontier0[j]));
                                lemma_covers_coord(cand, frontier0[j], ni);
                            }
                        }
                        lemma_neighbors_contains(
                            coord_view(frontier0[j]).0,
                            coord_view(frontier0[j]).1,
                            ni,
                            coord_view(x),
                        );
                        assert(adjacent8(coord_of(z, ni), coord_of(i, ni)));
                    }
                }
            }
            // termination
            if cand.len() == 0 {
                assert(seen1 =~= seen0);
                assert(frontier@.len() == 0) by {
                    if frontier@.len() > 0 {
                        assert(frontier@.contains(frontier@[0]));
                        lemma_zeros_among_contains(cand, tiles_b, ni, frontier@[0]);
                    }
                }
                assert(frontier@.len() < prev_frontier_len);
            } else {
                assert(seen@.len() > seen0.len());
            }
        }
    }
    proof {
        let t1 = grid_seq(game_config.tiles);
        assert(covers_cell(seen@, sl, ni));
        assert(t1[sl] == reveal_or_keep(t0[sl]));
        // each ensures clause from the loop invariants, with the seen
        // set as the set of touched cells
        assert forall|i: int|
            0 <= i < t0.len() && !t0[i].been_revealed && t1[i].been_revealed implies i == sl
            || exists|z: int|
            0 <= z < t0.len() && t1[z].been_revealed && t1[z].bombs_around == 0 && adjacent8(
                coord_of(z, ni),
                coord_of(i, ni),
            ) by {
            assert(covers_cell(seen@, i, ni));
            if i != sl {
                let z = choose|z: int|
                    0 <= z < t0.len() && covers_cell(seen@, z, ni) && t0[z].bombs_around == 0
                        && adjacent8(coord_of(z, ni), coord_of(i, ni));
                assert(t1[z] == reveal_or_keep(t0[z]));
            }
        }
        assert forall|i: int|
            0 <= i < t0.len() && t1[i].been_revealed && t1[i].bombs_around == 0 && (i == sl
                || !t0[i].been_revealed) implies forall|p: (int, int)|
            #[trigger] neighbors_of(coord_of(i, ni).0, coord_of(i, ni).1, ni).contains(p)
                ==> t1[lin(p, ni)].been_revealed by {
            assert(covers_cell(seen@, i, ni)) by {
                if i != sl && !t0[i].been_revealed {
                    if !covers_cell(seen@, i, ni) {
                        assert(t1[i] == t0[i]);
                    }
                }
            }
            assert(t0[i].bombs_around == 0) by {
                assert(t1[i] == reveal_or_keep(t0[i]));
            }
            assert forall|p: (int, int)|
                #[trigger] neighbors_of(coord_of(i, ni).0, coord_of(i, ni).1, ni).contains(
                    p,
                ) implies t1[lin(p, ni)].been_revealed by {
                assert(covers_cell(seen@, lin(p, ni), ni));
                lemma_neighbors_contains(coord_of(i, ni).0, coord_of(i, ni).1, ni, p);
                lemma_lin_coord_inverse(p, ni);
                assert(t1[lin(p, ni)] == reveal_or_keep(t0[lin(p, ni)]));
            }
        }
    }
}

/// The win condition reads the cached counter, and the counter can
/// never pass the threshold: it equals it exactly when every safe tile
/// is revealed. So Win triggers at that point and never before.
pub proof fn lemma_win_iff_all_safe_revealed(gc: GameConfig)
    requires
        config_wf(gc),
    ensures
        gc.game_data.revealed_tiles <= gc.game_data.revealed_tiles_to_win,
        (gc.game_data.revealed_tiles == gc.game_data.revealed_tiles_to_win) <==> (forall|i: int|
            0 <= i < grid_seq(gc.tiles).len() ==> (!(#[trigger] grid_seq(gc.tiles)[i]).is_bomb
                ==> grid_seq(gc.tiles)[i].been_revealed)),
{
    let tiles = grid_seq(gc.tiles);
    lemma_count_rev_vs_bombs(tiles);
    lemma_counts_bounds(tiles);
    assert forall|i: int|
        0 <= i < tiles.len() implies (((#[trigger] tiles[i]).is_bomb || tiles[i].been_revealed)
        <==> (!tiles[i].is_bomb ==> tiles[i].been_revealed)) by {}
}

/// The Game Orchestrator's dispatch for one turn: reads the cursor's
/// pending action, applies it to the tile under the cursor, and
/// reports what happened. Win is reported exactly when every safe tile
/// is revealed.
pub fn gameplay(game_config: &mut GameConfig) -> (r: GameActions)
    requires
        config_wf(*old(game_config)),
    ensures
        config_wf(*final(game_config)),
        final(game_config).grid_size == old(game_config).grid_size,
        final(game_config).bomb_count == old(game_config).bomb_count,
        final(game_config).cursor_data == old(game_config).cursor_data,
        final(game_config).game_data.revealed_tiles_to_win == old(
            game_config,
        ).game_data.revealed_tiles_to_win,
        r == GameActions::Win <==> final(game_config).game_data.revealed_tiles == final(game_config).game_data.revealed_tiles_to_win,
        old(game_config).game_data.revealed_tiles == old(
            game_config,
        ).game_data.revealed_tiles_to_win ==> r == GameActions::Win && *final(game_config)
            == *old(game_config),
        old(game_config).game_data.revealed_tiles != old(
            game_config,
        ).game_data.revealed_tiles_to_win ==> {
            let gc = *old(game_config);
            let i = cursor_lin(gc);
            let t = grid_seq(gc.tiles)[i];
            let fin = *final(game_config);
            match gc.cursor_data.action {
                CursorActions::FailedInput => r == GameActions::IncorrectInput && fin == gc,
                CursorActions::Move => r == GameActions::SuccessfulRun && fin == gc,
                CursorActions::Mark => {
                    &&& r == GameActions::SuccessfulRun
                    &&& fin.game_data.revealed_tiles == gc.game_data.revealed_tiles
                    &&& (t.display == TileDisplay::Marked ==> grid_seq(fin.tiles) == grid_seq(
                        gc.tiles,
                    ).update(
                        i,
                        (Tile {
                            display: if t.been_revealed {
                                TileDisplay::Count(t.bombs_around)
                            } else {
                                TileDisplay::Hidden
                            },
                            ..t
                        }),
                    ) && fin.game_data.tiles_marked == gc.game_data.tiles_marked - 1)
                    &&& (t.display != TileDisplay::Marked ==> grid_seq(fin.tiles) == grid_seq(
                        gc.tiles,
                    ).update(i, (Tile { display: TileDisplay::Marked, ..t }))
                        && fin.game_data.tiles_marked == gc.game_data.tiles_marked + 1)
                },
                CursorActions::Select => {
                    &&& (t.display == TileDisplay::Marked ==> r
                        == GameActions::TileAlreadyMarked && fin == gc)
                    &&& (t.display != TileDisplay::Marked && t.display != TileDisplay::Hidden
                        ==> r == GameActions::TileAlreadySelected && fin == gc)
                    &&& (t.display == TileDisplay::Hidden && t.is_bomb ==> r
                        == GameActions::GameOver && fin == gc)
                    &&& (t.display == TileDisplay::Hidden && !t.is_bomb && t.bombs_around != 0
                        ==> grid_seq(fin.tiles) == grid_seq(gc.tiles).update(
                        i,
                        revealed_tile(t),
                    ) && fin.game_data.revealed_tiles == gc.game_data.revealed_tiles + 1
                        && fin.game_data.tiles_marked == gc.game_data.tiles_marked && (r
                        == GameActions::Win || r == GameActions::SuccessfulRun))
                    &&& (t.display == TileDisplay::Hidden && !t.is_bomb && t.bombs_around == 0
                        ==> grid_seq(fin.tiles)[i].been_revealed
                        && fin.game_data.tiles_marked == gc.game_data.tiles_marked && (r
                        == GameActions::Win || r == GameActions::SuccessfulRun) && (forall|
                        j: int,
                    |
                        0 <= j < grid_seq(gc.tiles).len() ==> grid_seq(fin.tiles)[j]
                            == grid_seq(gc.tiles)[j] || grid_seq(fin.tiles)[j] == revealed_tile(
                            grid_seq(gc.tiles)[j],
                        )) && (forall|j: int|
                        0 <= j < grid_seq(gc.tiles).len() && grid_seq(
                            gc.tiles,
                        )[j].been_revealed ==> grid_seq(fin.tiles)[j] == grid_seq(gc.tiles)[j]))
                },
            }
        },
{
    let ghost gc0 = *game_config;
    proof {
        lemma_win_iff_all_safe_revealed(gc0);
    }
    if game_config.game_data.win_conditions_met() {
        return GameActions::Win;
    }
    let row = game_config.cursor_data.position[0];
    let col = game_config.cursor_data.position[1];
    let ghost ni = game_config.grid_size as int;
    let ghost il = cursor_lin(gc0);
    let ghost t0 = grid_seq(gc0.tiles);
    proof {
        lemma_lin_coord_inverse((row as int, col as int), ni);
    }
    let tile_at_cursor = grid_get_tile(&game_config.tiles, row, col);
    proof {
        assert(tile_at_cursor == t0[il]);
    }
    match game_config.cursor_data.action {
        CursorActions::FailedInput => {
            return GameActions::IncorrectInput;
        },
        CursorActions::Move => {
            return GameActions::SuccessfulRun;
        },
        CursorActions::Mark => {
            if tile_at_cursor.display == TileDisplay::Marked {
                let new_display = if tile_at_cursor.been_revealed {
                    TileDisplay::Count(tile_at_cursor.bombs_around)
                } else {
                    TileDisplay::Hidden
                };
                let new_tile = Tile { display: new_display, ..tile_at_cursor };
                grid_set_tile(&mut game_config.tiles, row, col, new_tile);
                proof {
                    lemma_board_update_keeps_adj(t0, ni, il, new_tile);
                    lemma_counts_update(t0, il, new_tile);
                    lemma_count_marked_pos(t0, il);
                }
                game_config.game_data.tiles_marked = game_config.game_data.tiles_marked - 1;
                proof {
                    assert(config_wf(*game_config));
                }
            } else {
                let new_tile = Tile { display: TileDisplay::Marked, ..tile_at_cursor };
                grid_set_tile(&mut game_config.tiles, row, col, new_tile);
                proof {
                    lemma_board_update_keeps_adj(t0, ni, il, new_tile);
                    lemma_counts_update(t0, il, new_tile);
                    lemma_counts_bounds(grid_seq(game_config.tiles));
                    lemma_counts_bounds(t0);
                    assert(game_config.game_data.tiles_marked < isize::MAX) by (nonlinear_arith)
                        requires
                            game_config.game_data.tiles_marked <= count_marked(t0)
                                + count_revealed(t0),
                            count_marked(t0) <= t0.len(),
                            count_revealed(t0) <= t0.len(),
                            t0.len() == ni * ni,
                            2 * ni * ni < isize::MAX;
                }
                game_config.game_data.tiles_marked = game_config.game_data.tiles_marked + 1;
                proof {
                    assert(config_wf(*game_config));
                }
            }
            return GameActions::SuccessfulRun;
        },
        CursorActions::Select => {
            if tile_at_cursor.display != TileDisplay::Hidden {
                if tile_at_cursor.display == TileDisplay::Marked {
                    return GameActions::TileAlreadyMarked;
                } else {
                    return GameActions::TileAlreadySelected;
                }
            } else if tile_at_cursor.is_bomb {
                return GameActions::GameOver;
            }
            if tile_at_cursor.bombs_around == 0 {
                reveal_all_zeros_around_cursor_position(game_config);
            } else {
                let new_tile = Tile {
                    been_revealed: true,
                    display: TileDisplay::Count(tile_at_cursor.bombs_around),
                    ..tile_at_cursor
                };
                proof {
                    assert(new_tile == revealed_tile(tile_at_cursor));
                    assert(!t0[il].been_revealed);
                    lemma_board_update_keeps_adj(t0, ni, il, new_tile);
                    lemma_counts_update(t0, il, new_tile);
                    lemma_count_revealed_lt(t0, il);
                }
                grid_set_tile(&mut game_config.tiles, row, col, new_tile);
                game_config.game_data.revealed_tiles = game_config.game_data.revealed_tiles + 1;
                proof {
                    assert(config_wf(*game_config));
                }
            }
            proof {
                lemma_win_iff_all_safe_revealed(*game_config);
            }
            if game_config.game_data.win_conditions_met() {
                return GameActions::Win;
            }
            return GameActions::SuccessfulRun;
        },
    }
}

} // verus!
