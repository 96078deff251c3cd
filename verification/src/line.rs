//! What a move does to one line of the board, as functions on sequences.
//!
//! A line is a row or a column read in some direction; its first cell is the
//! one at the edge that the tiles slide toward.

use vstd::prelude::*;
use crate::board::{is_tile_value, lemma_tile_values};

verus! {

/// The tiles of a line: its cells that are not empty, in their order.
pub open spec fn tiles(line: Seq<nat>) -> Seq<nat>
    decreases line.len(),
{
    if line.len() == 0 {
        Seq::empty()
    } else if line.last() == 0 {
        tiles(line.drop_last())
    } else {
        tiles(line.drop_last()).push(line.last())
    }
}

/// Tiles after merging, from the front: where the first two tiles are equal
/// they become one tile of twice the value, which merges no further; then the
/// same is done with what follows.
pub open spec fn merged(t: Seq<nat>) -> Seq<nat>
    decreases t.len(),
{
    if t.len() < 2 {
        t
    } else if t[0] == t[1] {
        seq![2 * t[0]] + merged(t.skip(2))
    } else {
        seq![t[0]] + merged(t.skip(1))
    }
}

/// `t` followed by empty cells up to the length `n`.
pub open spec fn padded(t: Seq<nat>, n: nat) -> Seq<nat> {
    t + Seq::new((n - t.len()) as nat, |i: int| 0nat)
}

/// A line after its tiles have slid to its front and merged there: the pair
/// nearest the front merges first.
pub open spec fn slide(line: Seq<nat>) -> Seq<nat> {
    padded(merged(tiles(line)), line.len())
}

/// A line after its tiles have slid to its front but merged from the back: the
/// pair farthest from the front merges first.
pub open spec fn slide_merging_from_back(line: Seq<nat>) -> Seq<nat> {
    padded(merged(tiles(line).reverse()).reverse(), line.len())
}

/// No empty cell of the line comes before a tile.
pub open spec fn is_compact(line: Seq<nat>) -> bool {
    forall|i: int, j: int| 0 <= i < j < line.len() && line[i] == 0 ==> line[j] == 0
}

/// A cell added at the end of a line adds a tile at the end, unless it is
/// empty.
pub proof fn lemma_tiles_push(line: Seq<nat>, v: nat)
    ensures
        tiles(line.push(v)) == if v == 0 {
            tiles(line)
        } else {
            tiles(line).push(v)
        },
{
    assert(line.push(v).drop_last() =~= line);
}

/// The tiles of two lines put together are the tiles of the first, then
/// those of the second.
pub proof fn lemma_tiles_concat(a: Seq<nat>, b: Seq<nat>)
    ensures
        tiles(a + b) == tiles(a) + tiles(b),
    decreases b.len(),
{
    if b.len() == 0 {
        assert(a + b =~= a);
        assert(tiles(a) + tiles(b) =~= tiles(a));
    } else {
        lemma_tiles_concat(a, b.drop_last());
        assert((a + b).drop_last() =~= a + b.drop_last());
        assert((a + b).last() == b.last());
        if b.last() != 0 {
            assert((tiles(a) + tiles(b.drop_last())).push(b.last()) =~= tiles(a) + tiles(
                b.drop_last(),
            ).push(b.last()));
        }
    }
}

/// A line of one cell has that cell as its tile, unless it is empty.
pub proof fn lemma_tiles_single(v: nat)
    ensures
        tiles(seq![v]) == if v == 0 {
            Seq::<nat>::empty()
        } else {
            seq![v]
        },
{
    lemma_tiles_push(Seq::empty(), v);
    assert(Seq::<nat>::empty().push(v) =~= seq![v]);
}

/// A line without tiles has none.
pub proof fn lemma_tiles_of_empty_cells(line: Seq<nat>)
    requires
        forall|i: int| 0 <= i < line.len() ==> line[i] == 0,
    ensures
        tiles(line) == Seq::<nat>::empty(),
    decreases line.len(),
{
    if line.len() > 0 {
        lemma_tiles_of_empty_cells(line.drop_last());
    }
}

/// Every tile is a cell of the line that is not empty, and there are no more
/// tiles than cells.
pub proof fn lemma_tiles_are_cells(line: Seq<nat>)
    ensures
        tiles(line).len() <= line.len(),
        forall|i: int| 0 <= i < tiles(line).len() ==> #[trigger] tiles(line)[i] != 0,
        forall|i: int|
            0 <= i < tiles(line).len() ==> exists|j: int|
                0 <= j < line.len() && line[j] == #[trigger] tiles(line)[i],
    decreases line.len(),
{
    if line.len() > 0 {
        let rest = line.drop_last();
        lemma_tiles_are_cells(rest);
        assert forall|i: int| 0 <= i < tiles(line).len() implies exists|j: int|
            0 <= j < line.len() && line[j] == #[trigger] tiles(line)[i] by {
            if i < tiles(rest).len() {
                let j = choose|j: int| 0 <= j < rest.len() && rest[j] == tiles(rest)[i];
                assert(line[j] == tiles(line)[i]);
            } else {
                assert(line[line.len() - 1] == tiles(line)[i]);
            }
        }
    }
}

/// A line of tiles only is its own sequence of tiles.
pub proof fn lemma_tiles_of_tiles(t: Seq<nat>)
    requires
        forall|i: int| 0 <= i < t.len() ==> t[i] != 0,
    ensures
        tiles(t) == t,
    decreases t.len(),
{
    if t.len() > 0 {
        lemma_tiles_of_tiles(t.drop_last());
        assert(t.drop_last().push(t.last()) =~= t);
    }
}

/// Sliding the tiles of a line to its front neither adds nor loses a tile.
pub proof fn lemma_tiles_of_padded(line: Seq<nat>, n: nat)
    ensures
        tiles(padded(tiles(line), n)) == tiles(line),
{
    let t = tiles(line);
    let gap = Seq::new((n - t.len()) as nat, |i: int| 0nat);
    lemma_tiles_are_cells(line);
    lemma_tiles_of_tiles(t);
    lemma_tiles_of_empty_cells(gap);
    lemma_tiles_concat(t, gap);
    assert(t + Seq::<nat>::empty() =~= t);
}

/// A cell put before a line adds a tile at the front, unless it is empty.
pub proof fn lemma_tiles_cons(v: nat, rest: Seq<nat>)
    ensures
        tiles(seq![v] + rest) == if v == 0 {
            tiles(rest)
        } else {
            seq![v] + tiles(rest)
        },
{
    lemma_tiles_concat(seq![v], rest);
    lemma_tiles_single(v);
    if v == 0 {
        assert(Seq::<nat>::empty() + tiles(rest) =~= tiles(rest));
    }
}

/// Two equal tiles at the front merge into one.
pub proof fn lemma_merged_pair(v: nat, rest: Seq<nat>)
    ensures
        merged(seq![v] + (seq![v] + rest)) == seq![2 * v] + merged(rest),
{
    let t = seq![v] + (seq![v] + rest);
    assert(t.skip(2) =~= rest);
}

/// A tile at the front that differs from the next one stays as it is.
pub proof fn lemma_merged_single(v: nat, rest: Seq<nat>)
    requires
        rest.len() == 0 || rest[0] != v,
    ensures
        merged(seq![v] + rest) == seq![v] + merged(rest),
{
    let t = seq![v] + rest;
    if rest.len() == 0 {
        assert(t =~= seq![v] + merged(rest));
    } else {
        assert(t.skip(1) =~= rest);
    }
}

/// Merging tiles gives tiles, and no more of them than there were.
pub proof fn lemma_merged_tiles(t: Seq<nat>)
    requires
        forall|i: int| 0 <= i < t.len() ==> #[trigger] t[i] != 0,
    ensures
        merged(t).len() <= t.len(),
        forall|i: int| 0 <= i < merged(t).len() ==> #[trigger] merged(t)[i] != 0,
    decreases t.len(),
{
    if t.len() >= 2 {
        if t[0] == t[1] {
            lemma_merged_tiles(t.skip(2));
        } else {
            lemma_merged_tiles(t.skip(1));
        }
    }
}

/// A line that has slid is as long as it was, and its tiles stand at its
/// front without a gap, whichever end the merging starts from.
pub proof fn lemma_slide_is_compact(line: Seq<nat>)
    ensures
        slide(line).len() == line.len(),
        is_compact(slide(line)),
        slide_merging_from_back(line).len() == line.len(),
        is_compact(slide_merging_from_back(line)),
{
    let t = tiles(line);
    lemma_tiles_are_cells(line);
    lemma_merged_tiles(t);
    let back = t.reverse();
    assert forall|i: int| 0 <= i < back.len() implies #[trigger] back[i] != 0 by {
        assert(back[i] == t[t.len() - 1 - i]);
    }
    lemma_merged_tiles(back);
    let up = merged(back).reverse();
    assert forall|i: int| 0 <= i < up.len() implies #[trigger] up[i] != 0 by {
        assert(up[i] == merged(back)[merged(back).len() - 1 - i]);
    }
}

/// What a merging pass over a line has reached at cell `i`: the tiles before
/// `i` are final, and those from `i` on are still to be merged.
pub open spec fn pass_reached(line: Seq<nat>, i: int, goal: Seq<nat>) -> bool {
    tiles(line.take(i)) + merged(tiles(line.skip(i))) == goal
}

/// A pass that doubles the tile at `i` and empties the equal cell after it
/// has reached `i + 1`.
pub proof fn lemma_pass_merges(line: Seq<nat>, i: int, goal: Seq<nat>)
    requires
        0 <= i,
        i + 1 < line.len(),
        line[i] != 0,
        line[i] == line[i + 1],
        pass_reached(line, i, goal),
    ensures
        pass_reached(line.update(i, 2 * line[i]).update(i + 1, 0), i + 1, goal),
{
    let x = line[i];
    let now = line.update(i, 2 * x).update(i + 1, 0);
    let done = tiles(line.take(i));
    let rest = tiles(line.skip(i + 2));
    assert(line.skip(i) =~= seq![x] + line.skip(i + 1));
    assert(line.skip(i + 1) =~= seq![x] + line.skip(i + 2));
    lemma_tiles_cons(x, line.skip(i + 1));
    lemma_tiles_cons(x, line.skip(i + 2));
    lemma_merged_pair(x, rest);
    assert(now.take(i + 1) =~= line.take(i).push(2 * x));
    lemma_tiles_push(line.take(i), 2 * x);
    assert(now.skip(i + 1) =~= seq![0nat] + line.skip(i + 2));
    lemma_tiles_cons(0, line.skip(i + 2));
    assert(done.push(2 * x) + merged(rest) =~= done + (seq![2 * x] + merged(rest)));
}

/// A pass that leaves the cell at `i` as it is, because it is empty or differs
/// from the next tile, has reached `i + 1`.
pub proof fn lemma_pass_keeps(line: Seq<nat>, i: int, goal: Seq<nat>)
    requires
        0 <= i,
        i + 1 < line.len(),
        line[i] == 0 || line[i] != line[i + 1],
        line[i + 1] == 0 ==> forall|j: int| i < j < line.len() ==> line[j] == 0,
        pass_reached(line, i, goal),
    ensures
        pass_reached(line, i + 1, goal),
{
    let x = line[i];
    let done = tiles(line.take(i));
    let next = tiles(line.skip(i + 1));
    assert(line.skip(i) =~= seq![x] + line.skip(i + 1));
    assert(line.skip(i + 1) =~= seq![line[i + 1]] + line.skip(i + 2));
    assert(line.take(i + 1) =~= line.take(i).push(x));
    lemma_tiles_push(line.take(i), x);
    lemma_tiles_cons(x, line.skip(i + 1));
    lemma_tiles_cons(line[i + 1], line.skip(i + 2));
    if x != 0 {
        if line[i + 1] == 0 {
            lemma_tiles_of_empty_cells(line.skip(i + 1));
        }
        lemma_merged_single(x, next);
        assert(done.push(x) + merged(next) =~= done + (seq![x] + merged(next)));
    }
}

/// A pass starts with nothing final.
pub proof fn lemma_pass_starts(line: Seq<nat>)
    ensures
        pass_reached(line, 0, merged(tiles(line))),
{
    assert(line.take(0) =~= Seq::<nat>::empty());
    assert(line.skip(0) =~= line);
    assert(Seq::<nat>::empty() + merged(tiles(line)) =~= merged(tiles(line)));
}

/// A pass that has reached the last cell is done: the tiles of the line are
/// the merged ones.
pub proof fn lemma_pass_ends(line: Seq<nat>, goal: Seq<nat>)
    requires
        line.len() > 0,
        pass_reached(line, line.len() - 1, goal),
    ensures
        tiles(line) == goal,
{
    let n = line.len() - 1;
    assert(line.skip(n) =~= seq![line[n]]);
    lemma_tiles_single(line[n]);
    lemma_tiles_concat(line.take(n), line.skip(n));
    assert(line.take(n) + line.skip(n) =~= line);
}

/// What stacking a line's tiles one by one has reached: the tiles in `done`
/// are final, `open` is the cell on top of them (empty, or a tile that may
/// still merge), and the cells of `rest` are still to come.
pub open spec fn stack_reached(done: Seq<nat>, open: nat, rest: Seq<nat>, goal: Seq<nat>) -> bool {
    done + merged(tiles(seq![open] + rest)) == goal
}

/// Stacking starts with nothing final and an empty cell on top.
pub proof fn lemma_stack_starts(line: Seq<nat>)
    ensures
        stack_reached(Seq::empty(), 0, line, merged(tiles(line))),
{
    lemma_tiles_cons(0, line);
    assert(Seq::<nat>::empty() + merged(tiles(line)) =~= merged(tiles(line)));
}

/// An empty cell that comes next changes nothing.
pub proof fn lemma_stack_skips(done: Seq<nat>, open: nat, rest: Seq<nat>, goal: Seq<nat>)
    requires
        rest.len() > 0,
        rest[0] == 0,
        stack_reached(done, open, rest, goal),
    ensures
        stack_reached(done, open, rest.skip(1), goal),
{
    assert(rest =~= seq![0nat] + rest.skip(1));
    lemma_tiles_cons(0, rest.skip(1));
    lemma_tiles_cons(open, rest);
    lemma_tiles_cons(open, rest.skip(1));
}

/// A tile that comes next goes into the empty cell on top.
pub proof fn lemma_stack_places(done: Seq<nat>, rest: Seq<nat>, goal: Seq<nat>)
    requires
        rest.len() > 0,
        rest[0] != 0,
        stack_reached(done, 0, rest, goal),
    ensures
        stack_reached(done, rest[0], rest.skip(1), goal),
{
    assert(rest =~= seq![rest[0]] + rest.skip(1));
    lemma_tiles_cons(0, rest);
}

/// A tile that comes next and equals the one on top merges with it; the
/// doubled tile is final.
pub proof fn lemma_stack_merges(done: Seq<nat>, open: nat, rest: Seq<nat>, goal: Seq<nat>)
    requires
        rest.len() > 0,
        open != 0,
        rest[0] == open,
        stack_reached(done, open, rest, goal),
    ensures
        stack_reached(done.push(2 * open), 0, rest.skip(1), goal),
{
    let after = tiles(rest.skip(1));
    assert(rest =~= seq![open] + rest.skip(1));
    lemma_tiles_cons(open, rest);
    lemma_tiles_cons(open, rest.skip(1));
    lemma_tiles_cons(0, rest.skip(1));
    lemma_merged_pair(open, after);
    assert(done.push(2 * open) + merged(after) =~= done + (seq![2 * open] + merged(after)));
}

/// A tile that comes next and differs from the one on top makes that one
/// final and takes its place on top.
pub proof fn lemma_stack_advances(done: Seq<nat>, open: nat, rest: Seq<nat>, goal: Seq<nat>)
    requires
        rest.len() > 0,
        open != 0,
        rest[0] != 0,
        rest[0] != open,
        stack_reached(done, open, rest, goal),
    ensures
        stack_reached(done.push(open), rest[0], rest.skip(1), goal),
{
    let next = tiles(seq![rest[0]] + rest.skip(1));
    assert(rest =~= seq![rest[0]] + rest.skip(1));
    lemma_tiles_cons(open, rest);
    lemma_tiles_cons(rest[0], rest.skip(1));
    lemma_merged_single(open, next);
    assert(done.push(open) + merged(next) =~= done + (seq![open] + merged(next)));
}

/// When no cell is left to come, the stack holds the merged tiles.
pub proof fn lemma_stack_ends(done: Seq<nat>, open: nat, goal: Seq<nat>)
    requires
        stack_reached(done, open, Seq::empty(), goal),
    ensures
        goal == if open == 0 {
            done
        } else {
            done.push(open)
        },
{
    assert(seq![open] + Seq::<nat>::empty() =~= seq![open]);
    lemma_tiles_single(open);
    if open == 0 {
        assert(done + Seq::<nat>::empty() =~= done);
    } else {
        assert(done + seq![open] =~= done.push(open));
    }
}

/// Every cell of the line holds what a cell can hold in a game.
pub open spec fn holds_tile_values(line: Seq<nat>) -> bool {
    forall|i: int| 0 <= i < line.len() ==> is_tile_value(#[trigger] line[i])
}

/// Merging tiles gives tiles.
pub proof fn lemma_merged_tile_values(t: Seq<nat>)
    requires
        holds_tile_values(t),
    ensures
        holds_tile_values(merged(t)),
    decreases t.len(),
{
    if t.len() >= 2 {
        if t[0] == t[1] {
            let rest = t.skip(2);
            assert forall|i: int| 0 <= i < rest.len() implies is_tile_value(#[trigger] rest[i]) by {
                assert(rest[i] == t[i + 2]);
            }
            lemma_merged_tile_values(rest);
            lemma_tile_values(t[0]);
        } else {
            let rest = t.skip(1);
            assert forall|i: int| 0 <= i < rest.len() implies is_tile_value(#[trigger] rest[i]) by {
                assert(rest[i] == t[i + 1]);
            }
            lemma_merged_tile_values(rest);
        }
    }
}

/// A line that holds nothing but tiles and empty cells still does after it
/// has slid, whichever end the merging starts from.
pub proof fn lemma_slide_tile_values(line: Seq<nat>)
    requires
        holds_tile_values(line),
    ensures
        holds_tile_values(slide(line)),
        holds_tile_values(slide(line.reverse()).reverse()),
        holds_tile_values(slide_merging_from_back(line)),
{
    let turned = line.reverse();
    assert forall|i: int| 0 <= i < turned.len() implies is_tile_value(#[trigger] turned[i]) by {
        assert(turned[i] == line[line.len() - 1 - i]);
    }
    lemma_slide_front_tile_values(line);
    lemma_slide_front_tile_values(turned);
    let slid = slide(turned);
    assert forall|i: int| 0 <= i < slid.reverse().len() implies is_tile_value(
        #[trigger] slid.reverse()[i],
    ) by {
        assert(slid.reverse()[i] == slid[slid.len() - 1 - i]);
    }
    let t = tiles(line);
    lemma_tiles_are_cells(line);
    assert forall|i: int| 0 <= i < t.len() implies is_tile_value(#[trigger] t[i]) by {
        let j = choose|j: int| 0 <= j < line.len() && line[j] == t[i];
        assert(is_tile_value(line[j]));
    }
    let back = t.reverse();
    assert forall|i: int| 0 <= i < back.len() implies is_tile_value(#[trigger] back[i]) by {
        assert(back[i] == t[t.len() - 1 - i]);
    }
    lemma_merged_tile_values(back);
    let up = merged(back).reverse();
    assert forall|i: int| 0 <= i < up.len() implies is_tile_value(#[trigger] up[i]) by {
        assert(up[i] == merged(back)[merged(back).len() - 1 - i]);
    }
}

/// The case of `lemma_slide_tile_values` in which the merging starts at the
/// front.
pub proof fn lemma_slide_front_tile_values(line: Seq<nat>)
    requires
        holds_tile_values(line),
    ensures
        holds_tile_values(slide(line)),
{
    let t = tiles(line);
    lemma_tiles_are_cells(line);
    assert forall|i: int| 0 <= i < t.len() implies is_tile_value(#[trigger] t[i]) by {
        let j = choose|j: int| 0 <= j < line.len() && line[j] == t[i];
        assert(is_tile_value(line[j]));
    }
    lemma_merged_tile_values(t);
}

} // verus!
