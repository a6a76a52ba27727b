//! The grid engine: tile grid, the four directional moves, the merge rule,
//! tile spawning, score accounting and board-full detection.

use rand::Rng;
use vstd::prelude::*;

verus! {

/// A game state: a square grid of optional power-of-two tiles, a score that
/// grows by a fixed amount per successful move, and a terminal flag.
#[derive(Clone)]
pub struct Game {
    pub size: usize,
    pub grid: Vec<Vec<Option<u32>>>,
    pub score: u32,
    pub game_over: bool,
}

/// A tile value is a power of two.
pub open spec fn is_pow2(v: u32) -> bool
    decreases v,
{
    if v == 0 {
        false
    } else if v == 1 {
        true
    } else {
        v % 2 == 0 && is_pow2(v / 2)
    }
}

/// A spawned or merged tile: a power of two, at least 2.
pub open spec fn is_tile(v: u32) -> bool {
    v >= 2 && is_pow2(v)
}

/// What a manual edit leaves in a cell: a held value doubled, capped at
/// 2048; an empty cell gets a 2.
pub open spec fn edit_bump(c: Option<u32>) -> u32 {
    match c {
        Some(v) => if v + v <= 2048 {
            (v + v) as u32
        } else {
            2048
        },
        None => 2,
    }
}

/// The edit cap is itself a tile value.
pub proof fn lemma_2048_is_tile()
    ensures
        is_tile(2048),
{
    assert(is_pow2(1));
    assert(is_pow2(2));
    assert(is_pow2(4));
    assert(is_pow2(8));
    assert(is_pow2(16));
    assert(is_pow2(32));
    assert(is_pow2(64));
    assert(is_pow2(128));
    assert(is_pow2(256));
    assert(is_pow2(512));
    assert(is_pow2(1024));
    assert(is_pow2(2048));
}

/// A cell is empty or holds a tile value.
pub open spec fn cell_ok(c: Option<u32>) -> bool {
    match c {
        Some(v) => is_tile(v),
        None => true,
    }
}

/// A cell whose value can be doubled without overflowing `u32`.
pub open spec fn cell_double_safe(c: Option<u32>) -> bool {
    match c {
        Some(v) => v + v <= u32::MAX,
        None => true,
    }
}

/// Every cell of the grid can take part in a merge without overflow.
pub open spec fn grid_double_safe(g: Seq<Seq<Option<u32>>>) -> bool {
    forall|i: int, j: int|
        0 <= i < g.len() && 0 <= j < g[i].len() ==> cell_double_safe(#[trigger] g[i][j])
}

/// The ordered sequence of tile values of a row, empties removed.
pub open spec fn tiles_of(r: Seq<Option<u32>>) -> Seq<u32>
    decreases r.len(),
{
    if r.len() == 0 {
        Seq::empty()
    } else {
        match r[0] {
            Some(v) => seq![v] + tiles_of(r.skip(1)),
            None => tiles_of(r.skip(1)),
        }
    }
}

/// The merge rule: scan left to right; an adjacent equal pair becomes one
/// doubled tile, and a merged tile cannot merge again in the same pass.
pub open spec fn merge_seq(s: Seq<u32>) -> Seq<u32>
    decreases s.len(),
{
    if s.len() >= 2 && s[0] == s[1] {
        seq![(s[0] + s[0]) as u32] + merge_seq(s.skip(2))
    } else if s.len() >= 1 {
        seq![s[0]] + merge_seq(s.skip(1))
    } else {
        Seq::empty()
    }
}

/// The given values placed from column 0, the remaining columns empty.
pub open spec fn place_left(vals: Seq<u32>, n: nat) -> Seq<Option<u32>> {
    Seq::new(n, |i: int| if i < vals.len() { Some(vals[i]) } else { None })
}

/// One row after a leftward move: compact, merge, place left.
pub open spec fn slide_row(r: Seq<Option<u32>>) -> Seq<Option<u32>> {
    place_left(merge_seq(tiles_of(r)), r.len())
}

/// Every row slid to the left independently.
pub open spec fn slide_grid(g: Seq<Seq<Option<u32>>>) -> Seq<Seq<Option<u32>>> {
    g.map_values(|r: Seq<Option<u32>>| slide_row(r))
}

/// A sequence reversed.
pub open spec fn rev_of<A>(s: Seq<A>) -> Seq<A> {
    Seq::new(s.len(), |i: int| s[s.len() - 1 - i])
}

/// Every row reversed in place.
pub open spec fn rev_rows(g: Seq<Seq<Option<u32>>>) -> Seq<Seq<Option<u32>>> {
    g.map_values(|r: Seq<Option<u32>>| rev_of(r))
}

/// The transpose of a square grid: cell (i, j) holds what (j, i) held.
pub open spec fn transpose(g: Seq<Seq<Option<u32>>>) -> Seq<Seq<Option<u32>>> {
    Seq::new(g.len(), |i: int| Seq::new(g.len(), |j: int| g[j][i]))
}

/// The grid a leftward move drives toward, before any spawn.
pub open spec fn left_target(g: Seq<Seq<Option<u32>>>) -> Seq<Seq<Option<u32>>> {
    slide_grid(g)
}

/// A rightward move is the leftward one under row reversal.
pub open spec fn right_target(g: Seq<Seq<Option<u32>>>) -> Seq<Seq<Option<u32>>> {
    rev_rows(slide_grid(rev_rows(g)))
}

/// An upward move is the leftward one under transposition.
pub open spec fn up_target(g: Seq<Seq<Option<u32>>>) -> Seq<Seq<Option<u32>>> {
    transpose(slide_grid(transpose(g)))
}

/// A downward move is the leftward one under transposition and row reversal.
pub open spec fn down_target(g: Seq<Seq<Option<u32>>>) -> Seq<Seq<Option<u32>>> {
    transpose(rev_rows(slide_grid(rev_rows(transpose(g)))))
}

/// The grid with cell (i, j) replaced.
pub open spec fn cell_set(
    g: Seq<Seq<Option<u32>>>,
    i: int,
    j: int,
    c: Option<u32>,
) -> Seq<Seq<Option<u32>>> {
    g.update(i, g[i].update(j, c))
}

/// Some cell of the grid is empty.
pub open spec fn has_empty(g: Seq<Seq<Option<u32>>>) -> bool {
    exists|i: int, j: int| 0 <= i < g.len() && 0 <= j < g[i].len() && g[i][j] is None
}

/// `post` is `pre` with one empty cell filled by a spawned 2 or 4.
pub open spec fn spawn_step(pre: Seq<Seq<Option<u32>>>, post: Seq<Seq<Option<u32>>>) -> bool {
    exists|i: int, j: int, v: u32|
        0 <= i < pre.len() && 0 <= j < pre[i].len() && pre[i][j] is None && (v == 2 || v == 4)
            && post == cell_set(pre, i, j, Some(v))
}

/// How many cells of the grid are populated.
pub open spec fn tile_count(g: Seq<Seq<Option<u32>>>) -> nat
    decreases g.len(),
{
    if g.len() == 0 {
        0
    } else {
        tiles_of(g[0]).len() + tile_count(g.skip(1))
    }
}

/// Appending a cell appends its value, if any, to the compacted tiles.
pub proof fn lemma_tiles_of_push(r: Seq<Option<u32>>, c: Option<u32>)
    ensures
        tiles_of(r.push(c)) == tiles_of(r) + (match c {
            Some(v) => seq![v],
            None => Seq::<u32>::empty(),
        }),
    decreases r.len(),
{
    let ext = (match c {
        Some(v) => seq![v],
        None => Seq::<u32>::empty(),
    });
    if r.len() == 0 {
        assert(r.push(c)[0] == c);
        assert(r.push(c).skip(1) =~= Seq::<Option<u32>>::empty());
        assert(tiles_of(Seq::<Option<u32>>::empty()) == Seq::<u32>::empty());
        assert(tiles_of(r) == Seq::<u32>::empty());
        assert(tiles_of(r) + ext =~= ext);
        match c {
            Some(v) => {
                assert(tiles_of(r.push(c)) =~= seq![v]);
            },
            None => {
                assert(tiles_of(r.push(c)) =~= Seq::<u32>::empty());
            },
        }
    } else {
        assert(r.push(c)[0] == r[0]);
        assert(r.push(c).skip(1) =~= r.skip(1).push(c));
        lemma_tiles_of_push(r.skip(1), c);
        match r[0] {
            Some(v) => {
                assert(tiles_of(r.push(c)) == seq![v] + (tiles_of(r.skip(1)) + ext));
                assert(seq![v] + (tiles_of(r.skip(1)) + ext) =~= (seq![v] + tiles_of(r.skip(1)))
                    + ext);
            },
            None => {},
        }
    }
}

/// Merging never lengthens a sequence, and only a merge-free sequence keeps
/// its length.
pub proof fn lemma_merge_props(s: Seq<u32>)
    ensures
        merge_seq(s).len() <= s.len(),
        merge_seq(s).len() == s.len() ==> merge_seq(s) == s,
    decreases s.len(),
{
    if s.len() >= 2 && s[0] == s[1] {
        lemma_merge_props(s.skip(2));
    } else if s.len() >= 1 {
        lemma_merge_props(s.skip(1));
        if merge_seq(s).len() == s.len() {
            assert(merge_seq(s.skip(1)) == s.skip(1));
            assert(seq![s[0]] + s.skip(1) =~= s);
        }
    } else {
        assert(merge_seq(s) =~= s);
    }
}

/// A row holds at least as many cells as tiles; equality forces every cell
/// to be occupied.
pub proof fn lemma_tiles_len(r: Seq<Option<u32>>)
    ensures
        tiles_of(r).len() <= r.len(),
        tiles_of(r).len() == r.len() ==> forall|j: int| 0 <= j < r.len() ==> r[j] is Some,
    decreases r.len(),
{
    if r.len() > 0 {
        lemma_tiles_len(r.skip(1));
        if tiles_of(r).len() == r.len() {
            assert forall|j: int| 0 <= j < r.len() implies r[j] is Some by {
                if j > 0 {
                    assert(r.skip(1)[j - 1] == r[j]);
                }
            }
        }
    }
}

/// Placing values at the left and compacting gives the values back.
pub proof fn lemma_tiles_of_place_left(w: Seq<u32>, n: nat)
    requires
        w.len() <= n,
    ensures
        tiles_of(place_left(w, n)) == w,
    decreases n,
{
    let p = place_left(w, n);
    if n == 0 {
        assert(tiles_of(p) =~= w);
    } else if w.len() == 0 {
        assert(p[0] is None);
        assert(p.skip(1) =~= place_left(w, (n - 1) as nat));
        lemma_tiles_of_place_left(w, (n - 1) as nat);
    } else {
        assert(p[0] == Some(w[0]));
        assert(p.skip(1) =~= place_left(w.skip(1), (n - 1) as nat));
        lemma_tiles_of_place_left(w.skip(1), (n - 1) as nat);
        assert(seq![w[0]] + w.skip(1) =~= w);
    }
}

/// A fully occupied row is exactly its tiles placed from the left.
pub proof fn lemma_full_row(r: Seq<Option<u32>>)
    requires
        forall|j: int| 0 <= j < r.len() ==> r[j] is Some,
    ensures
        tiles_of(r).len() == r.len(),
        place_left(tiles_of(r), r.len()) == r,
    decreases r.len(),
{
    if r.len() > 0 {
        assert(r.skip(1).len() == r.len() - 1);
        assert forall|j: int| 0 <= j < r.skip(1).len() implies r.skip(1)[j] is Some by {
            assert(r.skip(1)[j] == r[j + 1]);
        }
        lemma_full_row(r.skip(1));
        let v = r[0]->Some_0;
        let w = tiles_of(r);
        assert(w == seq![v] + tiles_of(r.skip(1)));
        assert forall|j: int| 0 <= j < r.len() implies place_left(w, r.len())[j] == r[j] by {
            if j > 0 {
                assert(w[j] == tiles_of(r.skip(1))[j - 1]);
                assert(place_left(tiles_of(r.skip(1)), r.skip(1).len())[j - 1] == r.skip(1)[j
                    - 1]);
                assert(r.skip(1)[j - 1] == r[j]);
            }
        }
        assert(place_left(w, r.len()) =~= r);
    } else {
        assert(place_left(tiles_of(r), r.len()) =~= r);
    }
}

/// A slid row with no empty cell was already fully packed and merge-free, so
/// sliding left it unchanged.
pub proof fn lemma_slide_fixed(r: Seq<Option<u32>>)
    requires
        forall|j: int| 0 <= j < r.len() ==> slide_row(r)[j] is Some,
    ensures
        slide_row(r) == r,
{
    let w = merge_seq(tiles_of(r));
    lemma_tiles_len(r);
    lemma_merge_props(tiles_of(r));
    if w.len() < r.len() {
        assert(slide_row(r)[w.len() as int] is None);
        assert(false);
    }
    assert(tiles_of(r).len() == r.len());
    assert(w == tiles_of(r));
    lemma_full_row(r);
}

/// A slid grid with no empty cell equals the grid it came from: a move that
/// changes anything leaves an empty cell for the spawn.
pub proof fn lemma_slide_grid_full_fixed(g: Seq<Seq<Option<u32>>>)
    ensures
        !has_empty(slide_grid(g)) ==> slide_grid(g) == g,
{
    if !has_empty(slide_grid(g)) {
        assert forall|i: int| 0 <= i < g.len() implies slide_grid(g)[i] == g[i] by {
            assert(slide_grid(g)[i] == slide_row(g[i]));
            assert forall|j: int| 0 <= j < slide_row(g[i]).len() implies slide_row(g[i])[j]
                is Some by {
                if slide_row(g[i])[j] is None {
                    assert(slide_grid(g)[i][j] is None);
                    assert(has_empty(slide_grid(g)));
                }
            }
            lemma_slide_fixed(g[i]);
        }
        assert(slide_grid(g) =~= g);
    }
}

/// The tiles of a well-formed row are tile values.
pub proof fn lemma_tiles_ok(r: Seq<Option<u32>>)
    requires
        forall|j: int| 0 <= j < r.len() ==> cell_ok(#[trigger] r[j]),
    ensures
        forall|k: int| 0 <= k < tiles_of(r).len() ==> is_tile(#[trigger] tiles_of(r)[k]),
    decreases r.len(),
{
    if r.len() > 0 {
        assert forall|j: int| 0 <= j < r.skip(1).len() implies cell_ok(#[trigger] r.skip(1)[j]) by {
            assert(r.skip(1)[j] == r[j + 1]);
        }
        lemma_tiles_ok(r.skip(1));
        match r[0] {
            Some(v) => {
                assert forall|k: int| 0 <= k < tiles_of(r).len() implies is_tile(
                    #[trigger] tiles_of(r)[k],
                ) by {
                    if k > 0 {
                        assert(tiles_of(r)[k] == tiles_of(r.skip(1))[k - 1]);
                    }
                }
            },
            None => {},
        }
    }
}

/// The tiles of a double-safe row are double-safe.
pub proof fn lemma_tiles_double_safe(r: Seq<Option<u32>>)
    requires
        forall|j: int| 0 <= j < r.len() ==> cell_double_safe(#[trigger] r[j]),
    ensures
        forall|k: int|
            0 <= k < tiles_of(r).len() ==> #[trigger] tiles_of(r)[k] + tiles_of(r)[k] <= u32::MAX,
    decreases r.len(),
{
    if r.len() > 0 {
        assert forall|j: int| 0 <= j < r.skip(1).len() implies cell_double_safe(
            #[trigger] r.skip(1)[j],
        ) by {
            assert(r.skip(1)[j] == r[j + 1]);
        }
        lemma_tiles_double_safe(r.skip(1));
        match r[0] {
            Some(v) => {
                assert forall|k: int|
                    0 <= k < tiles_of(r).len() implies #[trigger] tiles_of(r)[k] + tiles_of(r)[k]
                    <= u32::MAX by {
                    if k > 0 {
                        assert(tiles_of(r)[k] == tiles_of(r.skip(1))[k - 1]);
                    }
                }
            },
            None => {},
        }
    }
}

/// Doubling a tile gives a tile.
pub proof fn lemma_double_tile(v: u32)
    requires
        is_tile(v),
        v + v <= u32::MAX,
    ensures
        is_tile((v + v) as u32),
{
    let d = (v + v) as u32;
    assert(d == 2 * v);
    assert(d % 2 == 0 && d / 2 == v);
}

/// Merging tile values yields tile values.
pub proof fn lemma_merge_tiles_ok(s: Seq<u32>)
    requires
        forall|k: int| 0 <= k < s.len() ==> is_tile(#[trigger] s[k]),
        forall|k: int| 0 <= k < s.len() ==> #[trigger] s[k] + s[k] <= u32::MAX,
    ensures
        forall|k: int| 0 <= k < merge_seq(s).len() ==> is_tile(#[trigger] merge_seq(s)[k]),
    decreases s.len(),
{
    if s.len() >= 2 && s[0] == s[1] {
        assert forall|k: int| 0 <= k < s.skip(2).len() implies is_tile(#[trigger] s.skip(2)[k])
            && s.skip(2)[k] + s.skip(2)[k] <= u32::MAX by {
            assert(s.skip(2)[k] == s[k + 2]);
        }
        lemma_merge_tiles_ok(s.skip(2));
        lemma_double_tile(s[0]);
        assert forall|k: int| 0 <= k < merge_seq(s).len() implies is_tile(
            #[trigger] merge_seq(s)[k],
        ) by {
            if k > 0 {
                assert(merge_seq(s)[k] == merge_seq(s.skip(2))[k - 1]);
            }
        }
    } else if s.len() >= 1 {
        assert forall|k: int| 0 <= k < s.skip(1).len() implies is_tile(#[trigger] s.skip(1)[k])
            && s.skip(1)[k] + s.skip(1)[k] <= u32::MAX by {
            assert(s.skip(1)[k] == s[k + 1]);
        }
        lemma_merge_tiles_ok(s.skip(1));
        assert forall|k: int| 0 <= k < merge_seq(s).len() implies is_tile(
            #[trigger] merge_seq(s)[k],
        ) by {
            if k > 0 {
                assert(merge_seq(s)[k] == merge_seq(s.skip(1))[k - 1]);
            }
        }
    }
}

/// Sliding a well-formed, double-safe row yields well-formed cells.
pub proof fn lemma_slide_row_ok(r: Seq<Option<u32>>)
    requires
        forall|j: int| 0 <= j < r.len() ==> cell_ok(#[trigger] r[j]),
        forall|j: int| 0 <= j < r.len() ==> cell_double_safe(#[trigger] r[j]),
    ensures
        forall|j: int| 0 <= j < slide_row(r).len() ==> cell_ok(#[trigger] slide_row(r)[j]),
{
    lemma_tiles_ok(r);
    lemma_tiles_double_safe(r);
    lemma_merge_tiles_ok(tiles_of(r));
}

/// No two adjacent values of the sequence are equal: no merge is possible.
pub open spec fn unmergeable(s: Seq<u32>) -> bool {
    forall|k: int| 0 <= k < s.len() - 1 ==> #[trigger] s[k] != s[k + 1]
}

/// The row is its own tiles packed against the left edge.
pub open spec fn left_packed(r: Seq<Option<u32>>) -> bool {
    r == place_left(tiles_of(r), r.len())
}

/// The given values placed against the right edge, the columns before them
/// empty.
pub open spec fn place_right(vals: Seq<u32>, n: nat) -> Seq<Option<u32>> {
    Seq::new(
        n,
        |i: int|
            if i >= n - vals.len() {
                Some(vals[i - (n - vals.len())])
            } else {
                None
            },
    )
}

/// Merging changes nothing when no two adjacent values are equal.
pub proof fn lemma_merge_free(s: Seq<u32>)
    requires
        unmergeable(s),
    ensures
        merge_seq(s) == s,
    decreases s.len(),
{
    if s.len() >= 2 && s[0] == s[1] {
        assert(false);
    } else if s.len() >= 1 {
        assert forall|k: int| 0 <= k < s.skip(1).len() - 1 implies #[trigger] s.skip(1)[k] != s.skip(
            1,
        )[k + 1] by {
            assert(s.skip(1)[k] == s[k + 1]);
            assert(s.skip(1)[k + 1] == s[k + 2]);
        }
        lemma_merge_free(s.skip(1));
        assert(seq![s[0]] + s.skip(1) =~= s);
    } else {
        assert(merge_seq(s) =~= s);
    }
}

/// A row already packed to the left whose tiles have no adjacent equal pair
/// is left unchanged by a leftward slide: such a move reports no change, so
/// it neither scores nor spawns.
pub proof fn lemma_packed_row_noop(r: Seq<Option<u32>>)
    requires
        left_packed(r),
        unmergeable(tiles_of(r)),
    ensures
        slide_row(r) == r,
{
    lemma_merge_free(tiles_of(r));
}

/// Placing values at the right and compacting gives the values back.
pub proof fn lemma_tiles_of_place_right(u: Seq<u32>, n: nat)
    requires
        u.len() <= n,
    ensures
        tiles_of(place_right(u, n)) == u,
    decreases n,
{
    let p = place_right(u, n);
    if n == 0 {
        assert(tiles_of(p) =~= u);
    } else if u.len() < n {
        assert(p[0] is None);
        assert(p.skip(1) =~= place_right(u, (n - 1) as nat));
        lemma_tiles_of_place_right(u, (n - 1) as nat);
    } else {
        assert(p =~= place_left(u, n));
        lemma_tiles_of_place_left(u, n);
    }
}

/// Moving right after moving left, when no merge is possible, packs the same
/// tiles in the same order against the right edge: the occupancy pattern of
/// the left-packed row, reversed.
pub proof fn lemma_left_then_right(w: Seq<u32>, n: nat)
    requires
        w.len() <= n,
        unmergeable(w),
    ensures
        rev_of(slide_row(rev_of(place_left(w, n)))) == place_right(w, n),
{
    let rw = rev_of(w);
    assert(rev_of(place_left(w, n)) =~= place_right(rw, n));
    lemma_tiles_of_place_right(rw, n);
    assert forall|k: int| 0 <= k < rw.len() - 1 implies #[trigger] rw[k] != rw[k + 1] by {
        assert(rw[k] == w[w.len() - 1 - k]);
        assert(rw[k + 1] == w[w.len() - 2 - k]);
        assert(w[w.len() - 2 - k] != w[w.len() - 2 - k + 1]);
    }
    lemma_merge_free(rw);
    assert(slide_row(place_right(rw, n)) == place_left(rw, n));
    assert(rev_of(place_left(rw, n)) =~= place_right(rev_of(rw), n));
    assert(rev_of(rw) =~= w);
}

/// A row with every cell occupied and no adjacent equal pair slides to
/// itself.
pub proof fn lemma_full_unmergeable_row(r: Seq<Option<u32>>)
    requires
        forall|j: int| 0 <= j < r.len() ==> (#[trigger] r[j]) is Some,
        forall|j: int| 0 <= j < r.len() - 1 ==> r[j] != #[trigger] r[j + 1],
    ensures
        slide_row(r) == r,
{
    lemma_full_row(r);
    let w = tiles_of(r);
    assert forall|k: int| 0 <= k < w.len() - 1 implies #[trigger] w[k] != w[k + 1] by {
        assert(place_left(w, r.len())[k] == r[k]);
        assert(place_left(w, r.len())[k + 1] == r[k + 1]);
        assert(r[k] == Some(w[k]));
        assert(r[k + 1] == Some(w[k + 1]));
    }
    lemma_merge_free(w);
}

/// On a full grid with no two adjacent equal tiles in any row or column,
/// every directional move target is the grid itself: no direction changes
/// anything.
pub proof fn lemma_terminal_targets(g: Seq<Seq<Option<u32>>>, n: nat)
    requires
        g.len() == n,
        forall|i: int| 0 <= i < n ==> (#[trigger] g[i]).len() == n,
        forall|i: int, j: int| 0 <= i < n && 0 <= j < n ==> (#[trigger] g[i][j]) is Some,
        forall|i: int, j: int| 0 <= i < n && 0 <= j < n - 1 ==> g[i][j] != #[trigger] g[i][j + 1],
        forall|i: int, j: int| 0 <= i < n - 1 && 0 <= j < n ==> g[i][j] != #[trigger] g[i + 1][j],
    ensures
        left_target(g) == g,
        right_target(g) == g,
        up_target(g) == g,
        down_target(g) == g,
{
    assert forall|i: int| 0 <= i < n implies #[trigger] slide_grid(g)[i] == g[i] by {
        lemma_full_unmergeable_row(g[i]);
    }
    assert(left_target(g) =~= g);

    let rg = rev_rows(g);
    assert forall|i: int| 0 <= i < n implies #[trigger] slide_grid(rg)[i] == rg[i] by {
        assert(rg[i] == rev_of(g[i]));
        assert forall|j: int| 0 <= j < rg[i].len() implies (#[trigger] rg[i][j]) is Some by {
            assert(rg[i][j] == g[i][n - 1 - j]);
        }
        assert forall|j: int| 0 <= j < rg[i].len() - 1 implies rg[i][j] != #[trigger] rg[i][j
            + 1] by {
            assert(rg[i][j] == g[i][n - 1 - j]);
            assert(rg[i][j + 1] == g[i][n - 2 - j]);
            assert(g[i][n - 2 - j] != g[i][n - 2 - j + 1]);
        }
        lemma_full_unmergeable_row(rg[i]);
    }
    assert(slide_grid(rg) =~= rg);
    lemma_rev_rows_involution(g);
    assert(right_target(g) == g);

    let tg = transpose(g);
    assert forall|i: int| 0 <= i < n implies #[trigger] slide_grid(tg)[i] == tg[i] by {
        assert forall|j: int| 0 <= j < tg[i].len() implies (#[trigger] tg[i][j]) is Some by {
            assert(tg[i][j] == g[j][i]);
        }
        assert forall|j: int| 0 <= j < tg[i].len() - 1 implies tg[i][j] != #[trigger] tg[i][j
            + 1] by {
            assert(tg[i][j] == g[j][i]);
            assert(tg[i][j + 1] == g[j + 1][i]);
        }
        lemma_full_unmergeable_row(tg[i]);
    }
    assert(slide_grid(tg) =~= tg);
    lemma_transpose_involution(g);
    assert(up_target(g) == g);

    let rtg = rev_rows(tg);
    assert forall|i: int| 0 <= i < n implies #[trigger] slide_grid(rtg)[i] == rtg[i] by {
        assert(rtg[i] == rev_of(tg[i]));
        assert forall|j: int| 0 <= j < rtg[i].len() implies (#[trigger] rtg[i][j]) is Some by {
            assert(rtg[i][j] == tg[i][n - 1 - j]);
            assert(tg[i][n - 1 - j] == g[n - 1 - j][i]);
        }
        assert forall|j: int| 0 <= j < rtg[i].len() - 1 implies rtg[i][j] != #[trigger] rtg[i][j
            + 1] by {
            assert(rtg[i][j] == tg[i][n - 1 - j]);
            assert(rtg[i][j + 1] == tg[i][n - 2 - j]);
            assert(tg[i][n - 1 - j] == g[n - 1 - j][i]);
            assert(tg[i][n - 2 - j] == g[n - 2 - j][i]);
            assert(g[n - 2 - j][i] != g[n - 2 - j + 1][i]);
        }
        lemma_full_unmergeable_row(rtg[i]);
    }
    assert(slide_grid(rtg) =~= rtg);
    lemma_rev_rows_involution(tg);
    assert(rev_rows(slide_grid(rtg)) == tg);
    assert(down_target(g) == g);
}

/// Filling an empty cell of a row adds one to its tile count.
pub proof fn lemma_tiles_of_update(r: Seq<Option<u32>>, j: int, v: u32)
    requires
        0 <= j < r.len(),
        r[j] is None,
    ensures
        tiles_of(r.update(j, Some(v))).len() == tiles_of(r).len() + 1,
    decreases r.len(),
{
    let ru = r.update(j, Some(v));
    if j == 0 {
        assert(ru[0] == Some(v));
        assert(ru.skip(1) =~= r.skip(1));
    } else {
        assert(ru[0] == r[0]);
        assert(ru.skip(1) =~= r.skip(1).update(j - 1, Some(v)));
        assert(r.skip(1)[j - 1] is None);
        lemma_tiles_of_update(r.skip(1), j - 1, v);
    }
}

/// Filling an empty cell of a grid adds one to its tile count.
pub proof fn lemma_tile_count_cell_set(g: Seq<Seq<Option<u32>>>, i: int, j: int, v: u32)
    requires
        0 <= i < g.len(),
        0 <= j < g[i].len(),
        g[i][j] is None,
    ensures
        tile_count(cell_set(g, i, j, Some(v))) == tile_count(g) + 1,
    decreases g.len(),
{
    let gu = cell_set(g, i, j, Some(v));
    if i == 0 {
        assert(gu[0] == g[0].update(j, Some(v)));
        assert(gu.skip(1) =~= g.skip(1));
        lemma_tiles_of_update(g[0], j, v);
    } else {
        assert(gu[0] == g[0]);
        assert(gu.skip(1) =~= cell_set(g.skip(1), i - 1, j, Some(v)));
        lemma_tile_count_cell_set(g.skip(1), i - 1, j, v);
    }
}

/// A spawn populates exactly one more cell than before.
pub proof fn lemma_spawn_adds_one_tile(a: Seq<Seq<Option<u32>>>, b: Seq<Seq<Option<u32>>>)
    requires
        spawn_step(a, b),
    ensures
        tile_count(b) == tile_count(a) + 1,
{
    let (i, j, v) = choose|i: int, j: int, v: u32|
        0 <= i < a.len() && 0 <= j < a[i].len() && a[i][j] is None && (v == 2 || v == 4) && b
            == cell_set(a, i, j, Some(v));
    lemma_tile_count_cell_set(a, i, j, v);
}

/// A row of empty cells has no tiles.
pub proof fn lemma_tiles_of_all_none(r: Seq<Option<u32>>)
    requires
        forall|j: int| 0 <= j < r.len() ==> (#[trigger] r[j]) is None,
    ensures
        tiles_of(r).len() == 0,
    decreases r.len(),
{
    if r.len() > 0 {
        assert forall|j: int| 0 <= j < r.skip(1).len() implies (#[trigger] r.skip(1)[j])
            is None by {
            assert(r.skip(1)[j] == r[j + 1]);
        }
        lemma_tiles_of_all_none(r.skip(1));
    }
}

/// A grid of empty cells holds no tiles.
pub proof fn lemma_tile_count_empty(g: Seq<Seq<Option<u32>>>)
    requires
        forall|i: int, j: int| 0 <= i < g.len() && 0 <= j < g[i].len() ==> (#[trigger] g[i][j])
            is None,
    ensures
        tile_count(g) == 0,
    decreases g.len(),
{
    if g.len() > 0 {
        lemma_tiles_of_all_none(g[0]);
        assert forall|i: int, j: int|
            0 <= i < g.skip(1).len() && 0 <= j < g.skip(1)[i].len() implies (#[trigger] g.skip(
            1,
        )[i][j]) is None by {
            assert(g.skip(1)[i] == g[i + 1]);
        }
        lemma_tile_count_empty(g.skip(1));
    }
}

/// Reversing every row twice gives the grid back.
pub proof fn lemma_rev_rows_involution(g: Seq<Seq<Option<u32>>>)
    ensures
        rev_rows(rev_rows(g)) == g,
{
    assert forall|i: int| 0 <= i < g.len() implies #[trigger] rev_rows(rev_rows(g))[i] == g[i] by {
        assert(rev_of(rev_of(g[i])) =~= g[i]);
    }
    assert(rev_rows(rev_rows(g)) =~= g);
}

/// Transposing a square grid twice gives the grid back.
pub proof fn lemma_transpose_involution(g: Seq<Seq<Option<u32>>>)
    requires
        forall|i: int| 0 <= i < g.len() ==> (#[trigger] g[i]).len() == g.len(),
    ensures
        transpose(transpose(g)) == g,
{
    assert forall|i: int| 0 <= i < g.len() implies #[trigger] transpose(transpose(g))[i]
        == g[i] by {
        assert(transpose(transpose(g))[i] =~= g[i]);
    }
    assert(transpose(transpose(g)) =~= g);
}

/// A spawn seen through row reversal is still a spawn.
pub proof fn lemma_spawn_rev(a: Seq<Seq<Option<u32>>>, b: Seq<Seq<Option<u32>>>)
    requires
        spawn_step(a, b),
    ensures
        spawn_step(rev_rows(a), rev_rows(b)),
{
    let (i, j, v) = choose|i: int, j: int, v: u32|
        0 <= i < a.len() && 0 <= j < a[i].len() && a[i][j] is None && (v == 2 || v == 4) && b
            == cell_set(a, i, j, Some(v));
    let j2 = a[i].len() - 1 - j;
    assert(rev_rows(a)[i][j2] == a[i][j]);
    assert forall|k: int| 0 <= k < a.len() implies #[trigger] rev_rows(b)[k] == cell_set(
        rev_rows(a),
        i,
        j2,
        Some(v),
    )[k] by {
        if k == i {
            assert(rev_of(b[i]) =~= rev_of(a[i]).update(j2, Some(v)));
        } else {
            assert(b[k] == a[k]);
        }
    }
    assert(rev_rows(b) =~= cell_set(rev_rows(a), i, j2, Some(v)));
    assert(spawn_step(rev_rows(a), rev_rows(b)));
}

/// A spawn seen through transposition is still a spawn.
pub proof fn lemma_spawn_transpose(a: Seq<Seq<Option<u32>>>, b: Seq<Seq<Option<u32>>>)
    requires
        spawn_step(a, b),
        forall|i: int| 0 <= i < a.len() ==> (#[trigger] a[i]).len() == a.len(),
    ensures
        spawn_step(transpose(a), transpose(b)),
{
    let (i, j, v) = choose|i: int, j: int, v: u32|
        0 <= i < a.len() && 0 <= j < a[i].len() && a[i][j] is None && (v == 2 || v == 4) && b
            == cell_set(a, i, j, Some(v));
    assert(transpose(a)[j][i] == a[i][j]);
    assert forall|k: int| 0 <= k < a.len() implies #[trigger] transpose(b)[k] == cell_set(
        transpose(a),
        j,
        i,
        Some(v),
    )[k] by {
        assert(transpose(b)[k] =~= cell_set(transpose(a), j, i, Some(v))[k]);
    }
    assert(transpose(b) =~= cell_set(transpose(a), j, i, Some(v)));
    assert(spawn_step(transpose(a), transpose(b)));
}

/// Relies on rand::Rng::gen_range: a value drawn uniformly from `0..n`,
/// which is nonempty since `n > 0`.
#[verifier::external_body]
fn random_below(n: usize) -> (r: usize)
    requires
        n > 0,
    ensures
        r < n,
{
    rand::thread_rng().gen_range(0..n)
}

/// Whether two rows agree cell by cell.
fn rows_equal(a: &Vec<Option<u32>>, b: &Vec<Option<u32>>) -> (r: bool)
    ensures
        r == (a@ == b@),
{
    if a.len() != b.len() {
        return false;
    }
    let mut k: usize = 0;
    while k < a.len()
        invariant
            k <= a@.len(),
            a@.len() == b@.len(),
            forall|t: int| 0 <= t < k ==> a@[t] == b@[t],
        decreases a@.len() - k,
    {
        let same = match (a[k], b[k]) {
            (Some(x), Some(y)) => x == y,
            (None, None) => true,
            _ => false,
        };
        if !same {
            proof {
                assert(a@[k as int] != b@[k as int]);
            }
            return false;
        }
        k += 1;
    }
    proof {
        assert(a@ =~= b@);
    }
    true
}

/// One row slid to the left: compact, merge, place from column 0.
fn slide_row_exec(row: &Vec<Option<u32>>) -> (out: Vec<Option<u32>>)
    requires
        forall|j: int| 0 <= j < row@.len() ==> cell_double_safe(#[trigger] row@[j]),
    ensures
        out@ == slide_row(row@),
{
    let n = row.len();
    let mut tiles: Vec<u32> = Vec::new();
    let mut j: usize = 0;
    proof {
        assert(row@.take(0) =~= Seq::<Option<u32>>::empty());
        assert(tiles@ == tiles_of(row@.take(0)));
    }
    while j < n
        invariant
            j <= n,
            n == row@.len(),
            tiles@ == tiles_of(row@.take(j as int)),
            forall|t: int| 0 <= t < row@.len() ==> cell_double_safe(#[trigger] row@[t]),
        decreases n - j,
    {
        proof {
            assert(row@.take(j + 1) =~= row@.take(j as int).push(row@[j as int]));
            lemma_tiles_of_push(row@.take(j as int), row@[j as int]);
        }
        match row[j] {
            Some(v) => {
                tiles.push(v);
                proof {
                    assert(tiles@ =~= tiles_of(row@.take(j as int)) + seq![v]);
                }
            },
            None => {
                proof {
                    assert(tiles@ + Seq::<u32>::empty() =~= tiles@);
                }
            },
        }
        j += 1;
    }
    proof {
        assert(row@.take(n as int) =~= row@);
        lemma_tiles_double_safe(row@);
        lemma_tiles_len(row@);
        lemma_merge_props(tiles_of(row@));
    }
    let merged = Game::merge(tiles);
    let mut out: Vec<Option<u32>> = Vec::new();
    let mut k: usize = 0;
    while k < n
        invariant
            k <= n,
            n == row@.len(),
            merged@ == merge_seq(tiles_of(row@)),
            merged@.len() <= n,
            out@.len() == k,
            forall|t: int| 0 <= t < k ==> out@[t] == slide_row(row@)[t],
        decreases n - k,
    {
        if k < merged.len() {
            out.push(Some(merged[k]));
        } else {
            out.push(None);
        }
        k += 1;
    }
    proof {
        assert(out@ =~= slide_row(row@));
    }
    out
}

impl Game {
    /// The grid as a sequence of rows of optional tile values.
    pub open spec fn rows(self) -> Seq<Seq<Option<u32>>> {
        self.grid@.map_values(|r: Vec<Option<u32>>| r@)
    }

    /// Well-formed: a square grid of the stated size, every occupied cell a
    /// power-of-two tile.
    pub open spec fn wf(self) -> bool {
        &&& self.size >= 1
        &&& self.rows().len() == self.size
        &&& forall|i: int| 0 <= i < self.size ==> (#[trigger] self.rows()[i]).len() == self.size
        &&& forall|i: int, j: int|
            0 <= i < self.size && 0 <= j < self.size ==> cell_ok(#[trigger] self.rows()[i][j])
    }

    /// How a move relates the state after to the state before: `t` is the
    /// slid grid, `moved` reports whether it differs from the grid before, and a
    /// successful move scores one point and spawns exactly one tile into `t`.
    pub open spec fn move_rel(pre: Game, post: Game, t: Seq<Seq<Option<u32>>>, moved: bool) -> bool {
        &&& moved == (t != pre.rows())
        &&& post.size == pre.size
        &&& if moved {
            &&& post.score == pre.score + 1
            &&& post.game_over == pre.game_over
            &&& spawn_step(t, post.rows())
        } else {
            &&& post.rows() == pre.rows()
            &&& post.score == pre.score
            &&& post.game_over == pre.game_over
        }
    }

    /// One pass of the merge rule over compacted tile values.
    pub fn merge(tiles: Vec<u32>) -> (r: Vec<u32>)
        requires
            forall|k: int| 0 <= k < tiles@.len() ==> #[trigger] tiles@[k] + tiles@[k] <= u32::MAX,
        ensures
            r@ == merge_seq(tiles@),
    {
        let mut result: Vec<u32> = Vec::new();
        let mut i: usize = 0;
        proof {
            assert(tiles@.skip(0) =~= tiles@);
            assert(result@ + merge_seq(tiles@) =~= merge_seq(tiles@));
        }
        while i < tiles.len()
            invariant
                i <= tiles@.len(),
                forall|k: int| 0 <= k < tiles@.len() ==> #[trigger] tiles@[k] + tiles@[k] <= u32::MAX,
                merge_seq(tiles@) == result@ + merge_seq(tiles@.skip(i as int)),
            decreases tiles@.len() - i,
        {
            let ghost pre = result@;
            let ghost rest = tiles@.skip(i as int);
            if i + 1 < tiles.len() && tiles[i] == tiles[i + 1] {
                result.push(tiles[i] * 2);
                proof {
                    assert(rest.len() >= 2);
                    assert(rest[0] == tiles@[i as int]);
                    assert(rest[1] == tiles@[i as int + 1]);
                    assert(rest.skip(2) =~= tiles@.skip(i as int + 2));
                    assert(merge_seq(rest) == seq![(rest[0] + rest[0]) as u32] + merge_seq(
                        tiles@.skip(i as int + 2),
                    ));
                    assert(result@ =~= pre + seq![(rest[0] + rest[0]) as u32]);
                    assert(result@ + merge_seq(tiles@.skip(i as int + 2)) =~= pre + merge_seq(rest));
                }
                i += 2;
            } else {
                result.push(tiles[i]);
                proof {
                    assert(rest.len() >= 1);
                    assert(rest[0] == tiles@[i as int]);
                    assert(rest.skip(1) =~= tiles@.skip(i as int + 1));
                    if rest.len() >= 2 && rest[0] == rest[1] {
                        assert(false);
                    }
                    assert(merge_seq(rest) == seq![rest[0]] + merge_seq(tiles@.skip(i as int + 1)));
                    assert(result@ =~= pre + seq![rest[0]]);
                    assert(result@ + merge_seq(tiles@.skip(i as int + 1)) =~= pre + merge_seq(rest));
                }
                i += 1;
            }
        }
        proof {
            assert(tiles@.skip(i as int) =~= Seq::<u32>::empty());
            assert(result@ + merge_seq(tiles@.skip(i as int)) =~= result@);
        }
        result
    }

    /// Place a 2 (or, one time in ten, a 4) into a uniformly chosen empty
    /// cell; with no empty cell, mark the game over instead.
    pub fn spawn_tile(&mut self)
        requires
            old(self).wf(),
        ensures
            final(self).wf(),
            final(self).size == old(self).size,
            final(self).score == old(self).score,
            has_empty(old(self).rows()) ==> {
                &&& spawn_step(old(self).rows(), final(self).rows())
                &&& final(self).game_over == old(self).game_over
            },
            !has_empty(old(self).rows()) ==> {
                &&& final(self).rows() == old(self).rows()
                &&& final(self).game_over
            },
    {
        let n = self.size;
        let mut empty: Vec<(usize, usize)> = Vec::new();
        let mut i: usize = 0;
        while i < n
            invariant
                i <= n,
                n == self.size,
                self.wf(),
                forall|k: int|
                    0 <= k < empty@.len() ==> {
                        let p = #[trigger] empty@[k];
                        &&& p.0 < n
                        &&& p.1 < n
                        &&& self.rows()[p.0 as int][p.1 as int] is None
                    },
                forall|a: int, b: int|
                    0 <= a < i && 0 <= b < n && (#[trigger] self.rows()[a][b]) is None
                        ==> empty@.contains((a as usize, b as usize)),
            decreases n - i,
        {
            let mut j: usize = 0;
            while j < n
                invariant
                    i < n,
                    j <= n,
                    n == self.size,
                    self.wf(),
                    forall|k: int|
                        0 <= k < empty@.len() ==> {
                            let p = #[trigger] empty@[k];
                            &&& p.0 < n
                            &&& p.1 < n
                            &&& self.rows()[p.0 as int][p.1 as int] is None
                        },
                    forall|a: int, b: int|
                        0 <= a < i && 0 <= b < n && (#[trigger] self.rows()[a][b]) is None
                            ==> empty@.contains((a as usize, b as usize)),
                    forall|b: int|
                        0 <= b < j && (#[trigger] self.rows()[i as int][b]) is None
                            ==> empty@.contains((i, b as usize)),
                decreases n - j,
            {
                let ghost oe = empty@;
                if self.grid[i][j].is_none() {
                    empty.push((i, j));
                    proof {
                        assert(empty@[empty@.len() - 1] == (i, j));
                        assert(empty@.contains((i, j)));
                    }
                }
                proof {
                    assert forall|a: usize, b: usize| oe.contains((a, b)) implies empty@.contains(
                        (a, b),
                    ) by {
                        let k = choose|k: int| 0 <= k < oe.len() && oe[k] == (a, b);
                        assert(empty@[k] == (a, b));
                    }
                }
                j += 1;
            }
            i += 1;
        }
        if empty.len() == 0 {
            proof {
                if has_empty(self.rows()) {
                    let (a, b) = choose|a: int, b: int|
                        0 <= a < self.rows().len() && 0 <= b < self.rows()[a].len()
                            && self.rows()[a][b] is None;
                    assert(empty@.contains((a as usize, b as usize)));
                }
            }
            self.game_over = true;
            return;
        }
        proof {
            let p = empty@[0];
            assert(self.rows()[p.0 as int][p.1 as int] is None);
            assert(has_empty(self.rows()));
        }
        let idx = random_below(empty.len());
        let (r, c) = empty[idx];
        let value: u32 = if random_below(10) < 9 {
            2
        } else {
            4
        };
        proof {
            assert(self.rows()[r as int][c as int] is None);
        }
        self.grid[r][c] = Some(value);
        proof {
            assert(is_pow2(1));
            assert(is_pow2(2));
            assert(is_pow2(4));
            assert(self.rows()[r as int] =~= old(self).rows()[r as int].update(
                c as int,
                Some(value),
            ));
            assert(self.rows() =~= cell_set(old(self).rows(), r as int, c as int, Some(value)));
            assert(spawn_step(old(self).rows(), self.rows()));
        }
    }

    /// Slide and merge every row to the left; on any change, score one point
    /// and spawn one tile.
    pub fn move_left(&mut self) -> (moved: bool)
        requires
            old(self).wf(),
            grid_double_safe(old(self).rows()),
            old(self).score < u32::MAX,
        ensures
            final(self).wf(),
            Game::move_rel(*old(self), *final(self), left_target(old(self).rows()), moved),
    {
        let n = self.size;
        let mut newgrid: Vec<Vec<Option<u32>>> = Vec::new();
        let mut moved = false;
        let mut i: usize = 0;
        while i < n
            invariant
                i <= n,
                n == self.size,
                self.wf(),
                grid_double_safe(self.rows()),
                newgrid@.len() == i,
                forall|t: int|
                    0 <= t < i ==> (#[trigger] newgrid@[t])@ == slide_row(self.rows()[t]),
                moved <==> exists|t: int|
                    0 <= t < i && slide_row(#[trigger] self.rows()[t]) != self.rows()[t],
            decreases n - i,
        {
            proof {
                assert forall|jj: int| 0 <= jj < self.grid@[i as int]@.len() implies
                    cell_double_safe(#[trigger] self.grid@[i as int]@[jj]) by {
                    assert(self.grid@[i as int]@[jj] == self.rows()[i as int][jj]);
                    assert(cell_double_safe(self.rows()[i as int][jj]));
                }
            }
            let nr = slide_row_exec(&self.grid[i]);
            let changed = !rows_equal(&nr, &self.grid[i]);
            proof {
                assert(nr@ == slide_row(self.rows()[i as int]));
                if changed {
                    assert(slide_row(self.rows()[i as int]) != self.rows()[i as int]);
                } else {
                    assert(slide_row(self.rows()[i as int]) == self.rows()[i as int]);
                }
            }
            if changed {
                moved = true;
            }
            newgrid.push(nr);
            i += 1;
        }
        let ghost g0 = self.rows();
        let ghost t = left_target(g0);
        self.grid = newgrid;
        proof {
            assert forall|k: int| 0 <= k < n implies #[trigger] self.rows()[k] == t[k] by {
                assert(self.rows()[k] == newgrid@[k]@);
                assert(t[k] == slide_row(g0[k]));
            }
            assert(self.rows() =~= t);
            if moved {
                assert(t != g0);
            } else {
                assert forall|k: int| 0 <= k < n implies #[trigger] t[k] == g0[k] by {
                    assert(slide_row(g0[k]) == g0[k]);
                }
                assert(t =~= g0);
            }
            assert forall|a: int, b: int|
                0 <= a < self.size && 0 <= b < self.size implies cell_ok(
                #[trigger] self.rows()[a][b],
            ) by {
                lemma_slide_row_ok(g0[a]);
                assert(self.rows()[a] == slide_row(g0[a]));
            }
            assert(self.wf());
        }
        if moved {
            self.score += 1;
            proof {
                lemma_slide_grid_full_fixed(g0);
                assert(has_empty(self.rows()));
            }
            self.spawn_tile();
        }
        moved
    }

    /// Reverse every row in place.
    fn reverse_grid(&mut self)
        requires
            old(self).wf(),
        ensures
            final(self).wf(),
            final(self).rows() == rev_rows(old(self).rows()),
            final(self).size == old(self).size,
            final(self).score == old(self).score,
            final(self).game_over == old(self).game_over,
            grid_double_safe(old(self).rows()) ==> grid_double_safe(final(self).rows()),
    {
        let n = self.size;
        let mut newgrid: Vec<Vec<Option<u32>>> = Vec::new();
        let mut i: usize = 0;
        while i < n
            invariant
                i <= n,
                n == self.size,
                self.wf(),
                newgrid@.len() == i,
                forall|t: int| 0 <= t < i ==> (#[trigger] newgrid@[t])@ == rev_of(self.rows()[t]),
            decreases n - i,
        {
            let mut nr: Vec<Option<u32>> = Vec::new();
            let mut j: usize = 0;
            while j < n
                invariant
                    i < n,
                    j <= n,
                    n == self.size,
                    self.wf(),
                    nr@.len() == j,
                    forall|t: int| 0 <= t < j ==> nr@[t] == self.rows()[i as int][n - 1 - t],
                decreases n - j,
            {
                proof {
                    assert(self.grid@.len() == self.rows().len());
                    assert(self.grid@[i as int]@ == self.rows()[i as int]);
                }
                nr.push(self.grid[i][n - 1 - j]);
                j += 1;
            }
            proof {
                assert(nr@ =~= rev_of(self.rows()[i as int]));
            }
            newgrid.push(nr);
            i += 1;
        }
        let ghost g0 = self.rows();
        self.grid = newgrid;
        proof {
            assert forall|t: int| 0 <= t < n implies #[trigger] self.rows()[t] == rev_rows(g0)[t] by {
                assert(self.rows()[t] == newgrid@[t]@);
            }
            assert(self.rows() =~= rev_rows(g0));
            assert forall|a: int, b: int| 0 <= a < n && 0 <= b < n implies cell_ok(
                #[trigger] self.rows()[a][b],
            ) by {
                assert(self.rows()[a][b] == g0[a][n - 1 - b]);
                assert(cell_ok(g0[a][n - 1 - b]));
            }
            if grid_double_safe(g0) {
                assert forall|a: int, b: int|
                    0 <= a < self.rows().len() && 0 <= b < self.rows()[a].len() implies
                    cell_double_safe(#[trigger] self.rows()[a][b]) by {
                    assert(self.rows()[a][b] == g0[a][n - 1 - b]);
                    assert(cell_double_safe(g0[a][n - 1 - b]));
                }
            }
        }
    }

    /// Transpose the square grid in place.
    fn transpose_grid(&mut self)
        requires
            old(self).wf(),
        ensures
            final(self).wf(),
            final(self).rows() == transpose(old(self).rows()),
            final(self).size == old(self).size,
            final(self).score == old(self).score,
            final(self).game_over == old(self).game_over,
            grid_double_safe(old(self).rows()) ==> grid_double_safe(final(self).rows()),
    {
        let n = self.size;
        let mut newgrid: Vec<Vec<Option<u32>>> = Vec::new();
        let mut i: usize = 0;
        while i < n
            invariant
                i <= n,
                n == self.size,
                self.wf(),
                newgrid@.len() == i,
                forall|t: int|
                    0 <= t < i ==> (#[trigger] newgrid@[t])@ == transpose(self.rows())[t],
            decreases n - i,
        {
            let mut nr: Vec<Option<u32>> = Vec::new();
            let mut j: usize = 0;
            while j < n
                invariant
                    i < n,
                    j <= n,
                    n == self.size,
                    self.wf(),
                    nr@.len() == j,
                    forall|t: int| 0 <= t < j ==> nr@[t] == self.rows()[t][i as int],
                decreases n - j,
            {
                proof {
                    assert(self.grid@.len() == self.rows().len());
                    assert(self.grid@[j as int]@ == self.rows()[j as int]);
                }
                nr.push(self.grid[j][i]);
                j += 1;
            }
            proof {
                assert(nr@ =~= transpose(self.rows())[i as int]);
            }
            newgrid.push(nr);
            i += 1;
        }
        let ghost g0 = self.rows();
        self.grid = newgrid;
        proof {
            assert forall|t: int| 0 <= t < n implies #[trigger] self.rows()[t] == transpose(
                g0,
            )[t] by {
                assert(self.rows()[t] == newgrid@[t]@);
            }
            assert(self.rows() =~= transpose(g0));
            assert forall|a: int, b: int| 0 <= a < n && 0 <= b < n implies cell_ok(
                #[trigger] self.rows()[a][b],
            ) by {
                assert(self.rows()[a][b] == g0[b][a]);
                assert(cell_ok(g0[b][a]));
            }
            if grid_double_safe(g0) {
                assert forall|a: int, b: int|
                    0 <= a < self.rows().len() && 0 <= b < self.rows()[a].len() implies
                    cell_double_safe(#[trigger] self.rows()[a][b]) by {
                    assert(self.rows()[a][b] == g0[b][a]);
                    assert(cell_double_safe(g0[b][a]));
                }
            }
        }
    }

    /// A rightward move: the leftward move under row reversal.
    pub fn move_right(&mut self) -> (moved: bool)
        requires
            old(self).wf(),
            grid_double_safe(old(self).rows()),
            old(self).score < u32::MAX,
        ensures
            final(self).wf(),
            Game::move_rel(*old(self), *final(self), right_target(old(self).rows()), moved),
    {
        let ghost g0 = self.rows();
        self.reverse_grid();
        let moved = self.move_left();
        let ghost mid = self.rows();
        self.reverse_grid();
        proof {
            let t = slide_grid(rev_rows(g0));
            let rt = right_target(g0);
            lemma_rev_rows_involution(g0);
            if moved {
                lemma_spawn_rev(t, mid);
                lemma_rev_rows_involution(t);
                assert(rt != g0) by {
                    if rt == g0 {
                        assert(rev_rows(rt) == rev_rows(g0));
                        assert(rev_rows(rt) == t);
                    }
                }
            } else {
                assert(mid == rev_rows(g0));
                assert(self.rows() == g0);
                assert(rt == g0);
            }
        }
        moved
    }

    /// An upward move: the leftward move under transposition.
    pub fn move_up(&mut self) -> (moved: bool)
        requires
            old(self).wf(),
            grid_double_safe(old(self).rows()),
            old(self).score < u32::MAX,
        ensures
            final(self).wf(),
            Game::move_rel(*old(self), *final(self), up_target(old(self).rows()), moved),
    {
        let ghost g0 = self.rows();
        self.transpose_grid();
        let moved = self.move_left();
        let ghost mid = self.rows();
        self.transpose_grid();
        proof {
            let t = slide_grid(transpose(g0));
            let ut = up_target(g0);
            lemma_transpose_involution(g0);
            if moved {
                assert forall|i: int| 0 <= i < t.len() implies (#[trigger] t[i]).len()
                    == t.len() by {
                    assert(t[i] == slide_row(transpose(g0)[i]));
                }
                lemma_spawn_transpose(t, mid);
                lemma_transpose_involution(t);
                assert(ut != g0) by {
                    if ut == g0 {
                        assert(transpose(ut) == transpose(g0));
                        assert(transpose(ut) == t);
                    }
                }
            } else {
                assert(mid == transpose(g0));
                assert(self.rows() == g0);
                assert(ut == g0);
            }
        }
        moved
    }

    /// A downward move: the leftward move under transposition and reversal.
    pub fn move_down(&mut self) -> (moved: bool)
        requires
            old(self).wf(),
            grid_double_safe(old(self).rows()),
            old(self).score < u32::MAX,
        ensures
            final(self).wf(),
            Game::move_rel(*old(self), *final(self), down_target(old(self).rows()), moved),
    {
        let ghost g0 = self.rows();
        self.transpose_grid();
        self.reverse_grid();
        let moved = self.move_left();
        let ghost mid = self.rows();
        self.reverse_grid();
        self.transpose_grid();
        proof {
            let t = slide_grid(rev_rows(transpose(g0)));
            let dt = down_target(g0);
            lemma_transpose_involution(g0);
            lemma_rev_rows_involution(transpose(g0));
            if moved {
                lemma_spawn_rev(t, mid);
                assert forall|i: int| 0 <= i < rev_rows(t).len() implies (#[trigger] rev_rows(
                    t,
                )[i]).len() == rev_rows(t).len() by {
                    assert(t[i] == slide_row(rev_rows(transpose(g0))[i]));
                }
                lemma_spawn_transpose(rev_rows(t), rev_rows(mid));
                lemma_rev_rows_involution(t);
                assert forall|i: int| 0 <= i < rev_rows(t).len() implies (#[trigger] rev_rows(
                    t,
                )[i]).len() == rev_rows(t).len() by {}
                lemma_transpose_involution(rev_rows(t));
                assert(dt != g0) by {
                    if dt == g0 {
                        assert(transpose(dt) == transpose(g0));
                        assert(transpose(dt) == rev_rows(t));
                        assert(rev_rows(rev_rows(t)) == rev_rows(transpose(g0)));
                    }
                }
            } else {
                assert(mid == rev_rows(transpose(g0)));
                assert(self.rows() == g0);
                assert(dt == g0);
            }
        }
        moved
    }

    /// A full, independent copy of the state, for simulation.
    pub fn snapshot(&self) -> (g: Game)
        ensures
            g.size == self.size,
            g.score == self.score,
            g.game_over == self.game_over,
            g.rows() == self.rows(),
    {
        let n = self.grid.len();
        let mut grid: Vec<Vec<Option<u32>>> = Vec::new();
        let mut i: usize = 0;
        while i < n
            invariant
                i <= n,
                n == self.grid@.len(),
                grid@.len() == i,
                forall|t: int| 0 <= t < i ==> (#[trigger] grid@[t])@ == self.grid@[t]@,
            decreases n - i,
        {
            let m = self.grid[i].len();
            let mut row: Vec<Option<u32>> = Vec::new();
            let mut j: usize = 0;
            while j < m
                invariant
                    j <= m,
                    i < n,
                    n == self.grid@.len(),
                    m == self.grid@[i as int]@.len(),
                    row@.len() == j,
                    forall|u: int| 0 <= u < j ==> row@[u] == self.grid@[i as int]@[u],
                decreases m - j,
            {
                row.push(self.grid[i][j]);
                j += 1;
            }
            proof {
                assert(row@ =~= self.grid@[i as int]@);
            }
            grid.push(row);
            i += 1;
        }
        let g = Game { size: self.size, grid, score: self.score, game_over: self.game_over };
        proof {
            assert forall|t: int| 0 <= t < n implies #[trigger] g.rows()[t] == self.rows()[t] by {
                assert(g.rows()[t] == g.grid@[t]@);
            }
            assert(g.rows() =~= self.rows());
        }
        g
    }

    /// A fresh game: an all-empty grid of the given size, then two spawns.
    /// On a one-cell board the second spawn finds no room and ends the game
    /// at once.
    pub fn new(size: usize) -> (g: Game)
        requires
            size >= 1,
        ensures
            g.wf(),
            g.size == size,
            g.score == 0,
            size == 1 ==> tile_count(g.rows()) == 1 && g.game_over,
            size >= 2 ==> tile_count(g.rows()) == 2 && !g.game_over,
            forall|i: int, j: int|
                0 <= i < size && 0 <= j < size ==> ((#[trigger] g.rows()[i][j]) is None
                    || g.rows()[i][j] == Some(2u32) || g.rows()[i][j] == Some(4u32)),
    {
        let mut grid: Vec<Vec<Option<u32>>> = Vec::new();
        let mut i: usize = 0;
        while i < size
            invariant
                i <= size,
                grid@.len() == i,
                forall|t: int| 0 <= t < i ==> (#[trigger] grid@[t])@.len() == size,
                forall|t: int, u: int|
                    0 <= t < i && 0 <= u < size ==> (#[trigger] grid@[t]@[u]) is None,
            decreases size - i,
        {
            let mut row: Vec<Option<u32>> = Vec::new();
            let mut j: usize = 0;
            while j < size
                invariant
                    j <= size,
                    row@.len() == j,
                    forall|u: int| 0 <= u < j ==> (#[trigger] row@[u]) is None,
                decreases size - j,
            {
                row.push(None);
                j += 1;
            }
            grid.push(row);
            i += 1;
        }
        let mut game = Game { size, grid, score: 0, game_over: false };
        proof {
            assert forall|t: int| 0 <= t < size implies (#[trigger] game.rows()[t]).len()
                == size by {
                assert(game.rows()[t] == game.grid@[t]@);
            }
            assert forall|t: int, u: int| 0 <= t < size && 0 <= u < size implies (
            #[trigger] game.rows()[t][u]) is None by {
                assert(game.rows()[t] == game.grid@[t]@);
            }
            assert(game.wf());
            lemma_tile_count_empty(game.rows());
            assert(game.rows()[0][0] is None);
            assert(has_empty(game.rows()));
        }
        let ghost e = game.rows();
        game.spawn_tile();
        let ghost g1 = game.rows();
        proof {
            lemma_spawn_adds_one_tile(e, g1);
            let (i1, j1, v1) = choose|i1: int, j1: int, v1: u32|
                0 <= i1 < e.len() && 0 <= j1 < e[i1].len() && e[i1][j1] is None && (v1 == 2 || v1
                    == 4) && g1 == cell_set(e, i1, j1, Some(v1));
            if size == 1 {
                assert(g1[0][0] == Some(v1));
                if has_empty(g1) {
                    let (a, b) = choose|a: int, b: int|
                        0 <= a < g1.len() && 0 <= b < g1[a].len() && g1[a][b] is None;
                    assert(a == 0 && b == 0);
                    assert(false);
                }
            } else {
                if j1 + 1 < size {
                    assert(g1[i1][j1 + 1] == e[i1][j1 + 1]);
                    assert(g1[i1][j1 + 1] is None);
                } else {
                    assert(g1[i1][j1 - 1] == e[i1][j1 - 1]);
                    assert(g1[i1][j1 - 1] is None);
                }
                assert(has_empty(g1));
            }
        }
        game.spawn_tile();
        proof {
            let g2 = game.rows();
            let (i1, j1, v1) = choose|i1: int, j1: int, v1: u32|
                0 <= i1 < e.len() && 0 <= j1 < e[i1].len() && e[i1][j1] is None && (v1 == 2 || v1
                    == 4) && g1 == cell_set(e, i1, j1, Some(v1));
            if size >= 2 {
                lemma_spawn_adds_one_tile(g1, g2);
                let (i2, j2, v2) = choose|i2: int, j2: int, v2: u32|
                    0 <= i2 < g1.len() && 0 <= j2 < g1[i2].len() && g1[i2][j2] is None && (v2 == 2
                        || v2 == 4) && g2 == cell_set(g1, i2, j2, Some(v2));
                assert forall|a: int, b: int| 0 <= a < size && 0 <= b < size implies ((
                #[trigger] g2[a][b]) is None || g2[a][b] == Some(2u32) || g2[a][b] == Some(
                    4u32,
                )) by {
                    assert(e[a][b] is None);
                }
            } else {
                assert forall|a: int, b: int| 0 <= a < size && 0 <= b < size implies ((
                #[trigger] g2[a][b]) is None || g2[a][b] == Some(2u32) || g2[a][b] == Some(
                    4u32,
                )) by {
                    assert(e[a][b] is None);
                }
            }
        }
        game
    }

    /// Manual edit: double the held tile, capped at 2048, or place a 2 into
    /// an empty cell. Does not touch score or the game-over flag.
    pub fn edit_cell_increment(&mut self, row: usize, col: usize)
        requires
            old(self).wf(),
            row < old(self).size,
            col < old(self).size,
        ensures
            final(self).wf(),
            final(self).size == old(self).size,
            final(self).score == old(self).score,
            final(self).game_over == old(self).game_over,
            final(self).rows() == cell_set(
                old(self).rows(),
                row as int,
                col as int,
                Some(edit_bump(old(self).rows()[row as int][col as int])),
            ),
    {
        proof {
            assert(self.grid@.len() == self.rows().len());
            assert(self.grid@[row as int]@ == self.rows()[row as int]);
        }
        let nv: u32 = match self.grid[row][col] {
            Some(v) => if v <= 1024 {
                v * 2
            } else {
                2048
            },
            None => 2,
        };
        self.grid[row][col] = Some(nv);
        proof {
            let c0 = old(self).rows()[row as int][col as int];
            lemma_2048_is_tile();
            assert(is_pow2(1));
            assert(is_pow2(2));
            match c0 {
                Some(v) => {
                    if v + v <= 2048 {
                        lemma_double_tile(v);
                    }
                },
                None => {},
            }
            assert(is_tile(nv));
            assert(self.rows()[row as int] =~= old(self).rows()[row as int].update(
                col as int,
                Some(nv),
            ));
            assert(self.rows() =~= cell_set(old(self).rows(), row as int, col as int, Some(nv)));
        }
    }

    /// Manual edit: clear the selected cell. Does not touch score or the
    /// game-over flag.
    pub fn edit_cell_clear(&mut self, row: usize, col: usize)
        requires
            old(self).wf(),
            row < old(self).size,
            col < old(self).size,
        ensures
            final(self).wf(),
            final(self).size == old(self).size,
            final(self).score == old(self).score,
            final(self).game_over == old(self).game_over,
            final(self).rows() == cell_set(old(self).rows(), row as int, col as int, None),
    {
        proof {
            assert(self.grid@.len() == self.rows().len());
            assert(self.grid@[row as int]@ == self.rows()[row as int]);
        }
        self.grid[row][col] = None;
        proof {
            assert(self.rows()[row as int] =~= old(self).rows()[row as int].update(
                col as int,
                None,
            ));
            assert(self.rows() =~= cell_set(old(self).rows(), row as int, col as int, None));
        }
    }
}

/// The grid size a request yields: the requested number when it is positive,
/// else the default of 4.
pub fn choose_size(requested: Option<usize>) -> (s: usize)
    ensures
        s >= 1,
        (match requested {
            Some(n) => if n > 0 {
                s == n
            } else {
                s == 4
            },
            None => s == 4,
        }),
{
    match requested {
        Some(n) => if n > 0 {
            n
        } else {
            4
        },
        None => 4,
    }
}

} // verus!
