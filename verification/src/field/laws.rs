use crate::field::model::FieldView;
use crate::field::tile::TileKind;
use crate::field::RevealOutcome;
use crate::util::adjacent;
use crate::util::grid_cells;
use crate::util::lemma_grid_cells;
use crate::util::Position;
use vstd::prelude::*;

verus! {

/// Every cell holds a mine or is free: the two sets are finite and their
/// sizes add up to the number of cells.
pub proof fn lemma_free_len(v: FieldView)
    requires
        v.grid_ok(),
    ensures
        v.mines().finite(),
        v.free().finite(),
        v.mines().len() + v.free().len() == v.width * v.height,
{
    let cells = grid_cells(v.width, v.height);
    lemma_grid_cells(v.width as usize, v.height as usize);
    assert(v.width * v.height == v.height * v.width) by (nonlinear_arith);
    vstd::set_lib::lemma_len_subset(v.mines(), cells);
    vstd::set_lib::lemma_len_subset(v.free(), cells);
    vstd::set_lib::lemma_set_disjoint_lens(v.mines(), v.free());
    assert(v.mines() + v.free() =~= cells);
}

/// Putting a mine into a free tile adds that cell to the mines and changes
/// nothing else.
pub proof fn lemma_with_mine(v: FieldView, p: Position)
    requires
        v.grid_ok(),
        v.in_bounds(p),
    ensures
        v.with_mine(p).grid_ok(),
        v.with_mine(p).mines() == v.mines().insert(p),
        forall|q: Position|
            v.in_bounds(q) ==> (#[trigger] v.with_mine(p).tile(q)).is_showing == v.tile(
                q,
            ).is_showing,
{
    let m = v.with_mine(p);
    assert forall|q: Position| m.in_bounds(q) implies (#[trigger] m.tile(q)).position == q
        && m.tile(q).wf() by {
        assert(v.tile(q).position == q);
    }
    assert(m.mines() =~= v.mines().insert(p));
}

/// A tile that no mine touches is in reach of itself.
pub proof fn lemma_reach_start(v: FieldView, start: Position)
    requires
        v.is_zero(start),
    ensures
        v.zero_reach(start, start),
{
    let path = seq![start];
    assert(v.zero_path(path) && path[0] == start && path.last() == start);
}

/// A chain can be made longer by a tile that no mine touches and that
/// touches its end.
pub proof fn lemma_reach_step(v: FieldView, start: Position, z: Position, q: Position)
    requires
        v.zero_reach(start, z),
        adjacent(z, q),
        v.is_zero(q),
    ensures
        v.zero_reach(start, q),
{
    let path = choose|path: Seq<Position>| #[trigger]
        v.zero_path(path) && path[0] == start && path.last() == z;
    let longer = path.push(q);
    assert forall|i: int| 0 <= i < longer.len() - 1 implies adjacent(
        #[trigger] longer[i],
        longer[i + 1],
    ) by {
        if i < path.len() - 1 {
            assert(longer[i] == path[i]);
            assert(longer[i + 1] == path[i + 1]);
        }
    }
    assert forall|i: int| 0 <= i < longer.len() implies v.is_zero(#[trigger] longer[i]) by {
        if i < path.len() {
            assert(longer[i] == path[i]);
        }
    }
    assert(v.zero_path(longer) && longer[0] == start && longer.last() == q);
}

/// Whether `marked` lacks nothing that a flood would add to it: with a tile
/// that no mine touches it holds every tile without a mine that touches it.
pub open spec fn flood_closed(v: FieldView, marked: Set<Position>) -> bool {
    forall|z: Position, q: Position|
        #![trigger marked.contains(z), adjacent(z, q)]
        marked.contains(z) && v.is_zero(z) && adjacent(z, q) && v.in_bounds(q) && !v.is_mine(q)
            ==> marked.contains(q)
}

/// A set that holds the start and lacks nothing holds the end of every chain.
pub proof fn lemma_closed_holds_path(
    v: FieldView,
    start: Position,
    marked: Set<Position>,
    path: Seq<Position>,
)
    requires
        v.zero_path(path),
        path[0] == start,
        marked.contains(start),
        flood_closed(v, marked),
    ensures
        marked.contains(path.last()),
    decreases path.len(),
{
    if path.len() > 1 {
        let shorter = path.drop_last();
        assert forall|i: int| 0 <= i < shorter.len() - 1 implies adjacent(
            #[trigger] shorter[i],
            shorter[i + 1],
        ) by {
            assert(shorter[i] == path[i]);
            assert(shorter[i + 1] == path[i + 1]);
        }
        assert forall|i: int| 0 <= i < shorter.len() implies v.is_zero(#[trigger] shorter[i]) by {
            assert(shorter[i] == path[i]);
        }
        lemma_closed_holds_path(v, start, marked, shorter);
        let z = path[path.len() - 2];
        assert(z == shorter.last());
        assert(adjacent(z, path[path.len() - 2 + 1]));
        assert(v.is_zero(path[path.len() - 1]));
    }
}

/// A set that holds the start and lacks nothing holds all that a flood opens.
pub proof fn lemma_closed_holds_flood(v: FieldView, start: Position, marked: Set<Position>, q: Position)
    requires
        marked.contains(start),
        flood_closed(v, marked),
        v.flooded(start, q),
    ensures
        marked.contains(q),
{
    let z = choose|z: Position| #[trigger] v.zero_reach(start, z) && (z == q || adjacent(z, q));
    let path = choose|path: Seq<Position>| #[trigger]
        v.zero_path(path) && path[0] == start && path.last() == z;
    lemma_closed_holds_path(v, start, marked, path);
    assert(v.is_zero(path[path.len() - 1]));
}

/// A flood from a tile that no mine touches opens that tile, every tile at
/// the end of a chain from it, and every tile without a mine that touches
/// such an end. It opens no mine, and leaves every other tile as it was.
pub proof fn lemma_flood_covers(v: FieldView, start: Position, z: Position, q: Position)
    requires
        v.grid_ok(),
        v.is_zero(start),
    ensures
        v.flooded(start, start),
        v.zero_reach(start, z) ==> v.flooded(start, z),
        v.zero_reach(start, z) && adjacent(z, q) && v.in_bounds(q) && !v.is_mine(q) ==> v.flooded(
            start,
            q,
        ),
        v.is_mine(q) ==> !v.flooded(start, q),
        v.in_bounds(q) && v.flooded(start, q) ==> v.flood(start).tile(q) == v.tile(q).with_showing(
            true,
        ),
        v.in_bounds(q) && !v.flooded(start, q) ==> v.flood(start).tile(q) == v.tile(q),
{
    lemma_reach_start(v, start);
    if v.zero_reach(start, z) {
        let path = choose|path: Seq<Position>| #[trigger]
            v.zero_path(path) && path[0] == start && path.last() == z;
        assert(v.is_zero(path[path.len() - 1]));
    }
    if v.in_bounds(q) {
        assert(v.flood_set(start).contains(q) == v.flooded(start, q));
    }
}

/// Opening a tile changes nothing but which tiles are open, and closes
/// none: the field stays sound, with its mines and counts where they were.
pub proof fn lemma_reveal_keeps(v: FieldView, row: usize, col: usize, post: FieldView, out: RevealOutcome)
    requires
        v.grid_ok(),
        v.reveal_post(row, col, post, out),
    ensures
        post.grid_ok(),
        post.height == v.height,
        post.width == v.width,
        post.num_mines == v.num_mines,
        post.mines() == v.mines(),
        forall|q: Position|
            v.in_bounds(q) ==> (#[trigger] post.tile(q)).kind == v.tile(q).kind && (v.tile(
                q,
            ).is_showing ==> post.tile(q).is_showing),
        v.wf() ==> post.wf(),
{
    let p = Position { x: col, y: row };
    assert forall|q: Position| v.in_bounds(q) implies (#[trigger] post.tile(q)).kind == v.tile(
        q,
    ).kind && post.tile(q).position == q && post.tile(q).wf() && (v.tile(q).is_showing
        ==> post.tile(q).is_showing) by {
        assert(v.tile(q).position == q);
    }
    assert(post.mines() =~= v.mines());
    if v.wf() {
        assert forall|q: Position| post.in_bounds(q) implies #[trigger] post.count_ok_at(q) by {
            assert(v.count_ok_at(q));
        }
    }
}

/// Opening the same tile of the field a second time reports that it is open
/// already and changes nothing.
pub proof fn lemma_reveal_twice(
    v: FieldView,
    row: usize,
    col: usize,
    once: FieldView,
    first: RevealOutcome,
    twice: FieldView,
    second: RevealOutcome,
)
    requires
        v.grid_ok(),
        v.in_bounds(Position { x: col, y: row }),
        v.reveal_post(row, col, once, first),
        once.reveal_post(row, col, twice, second),
    ensures
        twice == once,
        second == RevealOutcome::AlreadyShown,
{
    let p = Position { x: col, y: row };
    if !v.tile(p).is_showing && v.tile(p).is_zero() {
        lemma_flood_covers(v, p, p, p);
    }
    assert(once.tile(p).is_showing);
}

/// Opening a tile that the field does not have, or one that is open
/// already, changes nothing.
pub proof fn lemma_reveal_nothing(v: FieldView, row: usize, col: usize, post: FieldView, out: RevealOutcome)
    requires
        v.grid_ok(),
        v.reveal_post(row, col, post, out),
        !v.in_bounds(Position { x: col, y: row }) || v.tile(Position { x: col, y: row }).is_showing,
    ensures
        post == v,
        out == RevealOutcome::OutOfBounds || out == RevealOutcome::AlreadyShown,
{
}

/// Opening a hidden mine, or a hidden tile that a mine touches, opens that
/// tile and no other.
pub proof fn lemma_reveal_single(
    v: FieldView,
    row: usize,
    col: usize,
    post: FieldView,
    out: RevealOutcome,
    q: Position,
)
    requires
        v.grid_ok(),
        v.reveal_post(row, col, post, out),
        v.in_bounds(Position { x: col, y: row }),
        !v.tile(Position { x: col, y: row }).is_showing,
        !v.tile(Position { x: col, y: row }).is_zero(),
        v.in_bounds(q),
    ensures
        v.is_mine(Position { x: col, y: row }) <==> out == RevealOutcome::MineRevealed,
        !v.is_mine(Position { x: col, y: row }) <==> out == (RevealOutcome::SafeRevealed {
            count: 1,
        }),
        q == (Position { x: col, y: row }) ==> post.tile(q) == v.tile(q).with_showing(true),
        q != (Position { x: col, y: row }) ==> post.tile(q) == v.tile(q),
{
}

} // verus!
