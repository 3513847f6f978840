//! What holds of every drawing of a tree.

use vstd::prelude::*;

use crate::layout::{bar, branch, column, lemma_glyphs, lemma_line_columns, row_text, Row};
use crate::tree::{
    depicts, draw, draw_from, leads, opens, reachable, row_of, within, Bounds, Tree,
};

verus! {

/// Every row drawn of a directory and of what lies below it shows an entry
/// of the tree as it stands there.
pub proof fn lemma_rows_depict(
    tree: Tree,
    bounds: Bounds,
    place: Seq<int>,
    flags: Seq<bool>,
    total: nat,
    index: nat,
)
    requires
        leads(tree, bounds, place, flags),
    ensures
        forall|j: int|
            0 <= j < draw_from(tree, bounds, place, flags, total, index).rows.len() ==> depicts(
                tree,
                bounds,
                #[trigger] draw_from(tree, bounds, place, flags, total, index).rows[j],
            ),
    decreases bounds.depth - place.len(), tree(place).len() - index,
{
    let drawn = draw_from(tree, bounds, place, flags, total, index);
    if index >= tree(place).len() {
    } else if !bounds.room(total, index) {
    } else {
        let row = row_of(tree, bounds, place, flags, index);
        assert(row.place.drop_last() =~= place);
        assert(depicts(tree, bounds, row));
        if opens(tree, bounds, place, index) {
            let below = place.push(index as int);
            let marks = flags.push(!row.last);
            assert forall|k: int| 0 <= k < below.len() implies {
                &&& 0 <= #[trigger] below[k] < tree(below.take(k)).len()
                &&& tree(below.take(k))[below[k]].is_dir
                &&& marks[k] == (below[k] + 1 < tree(below.take(k)).len())
                &&& bounds.per_dir matches Some(l) ==> below[k] < l
            } by {
                if k < place.len() {
                    assert(below.take(k) =~= place.take(k));
                    assert(below[k] == place[k]);
                } else {
                    assert(below.take(k) =~= place);
                }
            }
            lemma_rows_depict(tree, bounds, below, marks, total + 1, 0);
            let inner = draw_from(tree, bounds, below, marks, total + 1, 0);
            if inner.cut is Some {
                assert forall|j: int| 0 <= j < drawn.rows.len() implies depicts(
                    tree,
                    bounds,
                    #[trigger] drawn.rows[j],
                ) by {
                    if j > 0 {
                        assert(drawn.rows[j] == inner.rows[j - 1]);
                    }
                }
            } else {
                lemma_rows_depict(tree, bounds, place, flags, inner.total, index + 1);
                let rest = draw_from(tree, bounds, place, flags, inner.total, index + 1);
                assert forall|j: int| 0 <= j < drawn.rows.len() implies depicts(
                    tree,
                    bounds,
                    #[trigger] drawn.rows[j],
                ) by {
                    if j == 0 {
                    } else if j - 1 < inner.rows.len() {
                        assert(drawn.rows[j] == inner.rows[j - 1]);
                    } else {
                        assert(drawn.rows[j] == rest.rows[j - 1 - inner.rows.len()]);
                    }
                }
            }
        } else {
            lemma_rows_depict(tree, bounds, place, flags, total + 1, index + 1);
            let rest = draw_from(tree, bounds, place, flags, total + 1, index + 1);
            assert forall|j: int| 0 <= j < drawn.rows.len() implies depicts(
                tree,
                bounds,
                #[trigger] drawn.rows[j],
            ) by {
                if j > 0 {
                    assert(drawn.rows[j] == rest.rows[j - 1]);
                }
            }
        }
    }
}

/// The rows count the entries drawn, and the count stays within the bound
/// on the total.
pub proof fn lemma_total_kept(
    tree: Tree,
    bounds: Bounds,
    place: Seq<int>,
    flags: Seq<bool>,
    total: nat,
    index: nat,
)
    ensures
        draw_from(tree, bounds, place, flags, total, index).total == total + draw_from(
            tree,
            bounds,
            place,
            flags,
            total,
            index,
        ).rows.len(),
        bounds.total matches Some(t) ==> total <= t ==> draw_from(
            tree,
            bounds,
            place,
            flags,
            total,
            index,
        ).total <= t,
    decreases bounds.depth - place.len(), tree(place).len() - index,
{
    if index >= tree(place).len() {
    } else if !bounds.room(total, index) {
    } else {
        let row = row_of(tree, bounds, place, flags, index);
        if opens(tree, bounds, place, index) {
            let below = place.push(index as int);
            let marks = flags.push(!row.last);
            lemma_total_kept(tree, bounds, below, marks, total + 1, 0);
            let inner = draw_from(tree, bounds, below, marks, total + 1, 0);
            if inner.cut is None {
                lemma_total_kept(tree, bounds, place, flags, inner.total, index + 1);
            }
        } else {
            lemma_total_kept(tree, bounds, place, flags, total + 1, index + 1);
        }
    }
}

/// The bound on the total takes a prefix of what would be drawn without it:
/// everything where that fits, and otherwise exactly as many rows as the
/// bound allows, after which the walk is cut.
pub proof fn lemma_total_cuts(
    tree: Tree,
    bounds: Bounds,
    place: Seq<int>,
    flags: Seq<bool>,
    total: nat,
    index: nat,
)
    requires
        bounds.total is Some,
        total <= bounds.total->0,
    ensures
        ({
            let held = draw_from(tree, bounds, place, flags, total, index);
            let free = draw_from(tree, bounds.unbounded(), place, flags, total, index);
            if total + free.rows.len() <= bounds.total->0 {
                held == free
            } else {
                &&& held.cut is Some
                &&& held.total == bounds.total->0
                &&& held.rows == free.rows.take(bounds.total->0 - total)
            }
        }),
    decreases bounds.depth - place.len(), tree(place).len() - index,
{
    let open = bounds.unbounded();
    let limit = bounds.total->0;
    let held = draw_from(tree, bounds, place, flags, total, index);
    let free = draw_from(tree, open, place, flags, total, index);
    if index >= tree(place).len() {
    } else if !open.room(total, index) {
    } else if !bounds.room(total, index) {
        assert(free.rows.len() >= 1);
        assert(held.rows =~= free.rows.take(0));
    } else {
        let row = row_of(tree, bounds, place, flags, index);
        assert(row == row_of(tree, open, place, flags, index));
        if opens(tree, bounds, place, index) {
            let below = place.push(index as int);
            let marks = flags.push(!row.last);
            lemma_total_cuts(tree, bounds, below, marks, total + 1, 0);
            lemma_total_kept(tree, open, below, marks, total + 1, 0);
            let inner_held = draw_from(tree, bounds, below, marks, total + 1, 0);
            let inner_free = draw_from(tree, open, below, marks, total + 1, 0);
            if total + 1 + inner_free.rows.len() <= limit {
                if inner_free.cut is None {
                    lemma_total_cuts(tree, bounds, place, flags, inner_free.total, index + 1);
                    let rest_held = draw_from(tree, bounds, place, flags, inner_free.total, index + 1);
                    let rest_free = draw_from(tree, open, place, flags, inner_free.total, index + 1);
                    if inner_free.total + rest_free.rows.len() <= limit {
                    } else {
                        assert(held.rows =~= free.rows.take(limit - total));
                    }
                }
            } else {
                assert(held.rows =~= free.rows.take(limit - total));
            }
        } else {
            lemma_total_cuts(tree, bounds, place, flags, total + 1, index + 1);
            let rest_free = draw_from(tree, open, place, flags, total + 1, index + 1);
            if total + 1 + rest_free.rows.len() <= limit {
            } else {
                assert(held.rows =~= free.rows.take(limit - total));
            }
        }
    }
}

/// A directory with more entries than the bound per directory allows cuts
/// the walk: its surplus is never passed over in silence.
pub proof fn lemma_overfull_cuts(
    tree: Tree,
    bounds: Bounds,
    place: Seq<int>,
    flags: Seq<bool>,
    total: nat,
    index: nat,
)
    requires
        bounds.per_dir is Some,
        index <= bounds.per_dir->0 < tree(place).len(),
    ensures
        draw_from(tree, bounds, place, flags, total, index).cut is Some,
    decreases bounds.per_dir->0 - index,
{
    if !bounds.room(total, index) {
    } else {
        let row = row_of(tree, bounds, place, flags, index);
        if opens(tree, bounds, place, index) {
            let inner = draw_from(
                tree,
                bounds,
                place.push(index as int),
                flags.push(!row.last),
                total + 1,
                0,
            );
            if inner.cut is None {
                lemma_overfull_cuts(tree, bounds, place, flags, inner.total, index + 1);
            }
        } else {
            lemma_overfull_cuts(tree, bounds, place, flags, total + 1, index + 1);
        }
    }
}

/// Where the walk is not cut, every directory that yields a row is within
/// the bound per directory.
pub proof fn lemma_uncut_within(
    tree: Tree,
    bounds: Bounds,
    place: Seq<int>,
    flags: Seq<bool>,
    total: nat,
    index: nat,
)
    requires
        draw_from(tree, bounds, place, flags, total, index).cut is None,
        bounds.per_dir matches Some(l) ==> index <= l,
    ensures
        forall|j: int|
            #![trigger draw_from(tree, bounds, place, flags, total, index).rows[j]]
            0 <= j < draw_from(tree, bounds, place, flags, total, index).rows.len() ==> (
            bounds.per_dir matches Some(l) ==> tree(
                draw_from(tree, bounds, place, flags, total, index).rows[j].place.drop_last(),
            ).len() <= l),
    decreases bounds.depth - place.len(), tree(place).len() - index,
{
    let drawn = draw_from(tree, bounds, place, flags, total, index);
    if bounds.per_dir is Some && bounds.per_dir->0 < tree(place).len() {
        lemma_overfull_cuts(tree, bounds, place, flags, total, index);
    }
    if index >= tree(place).len() {
    } else if !bounds.room(total, index) {
    } else {
        let row = row_of(tree, bounds, place, flags, index);
        assert(row.place.drop_last() =~= place);
        if opens(tree, bounds, place, index) {
            let below = place.push(index as int);
            let marks = flags.push(!row.last);
            let inner = draw_from(tree, bounds, below, marks, total + 1, 0);
            lemma_uncut_within(tree, bounds, below, marks, total + 1, 0);
            lemma_uncut_within(tree, bounds, place, flags, inner.total, index + 1);
            let rest = draw_from(tree, bounds, place, flags, inner.total, index + 1);
            assert forall|j: int| 0 <= j < drawn.rows.len() implies (bounds.per_dir matches Some(l)
                ==> tree((#[trigger] drawn.rows[j]).place.drop_last()).len() <= l) by {
                if j == 0 {
                } else if j - 1 < inner.rows.len() {
                    assert(drawn.rows[j] == inner.rows[j - 1]);
                } else {
                    assert(drawn.rows[j] == rest.rows[j - 1 - inner.rows.len()]);
                }
            }
        } else {
            lemma_uncut_within(tree, bounds, place, flags, total + 1, index + 1);
            let rest = draw_from(tree, bounds, place, flags, total + 1, index + 1);
            assert forall|j: int| 0 <= j < drawn.rows.len() implies (bounds.per_dir matches Some(l)
                ==> tree((#[trigger] drawn.rows[j]).place.drop_last()).len() <= l) by {
                if j > 0 {
                    assert(drawn.rows[j] == rest.rows[j - 1]);
                }
            }
        }
    }
}

/// Every row of a rendering shows an entry of the tree as it stands there.
pub proof fn lemma_drawing_depicts(tree: Tree, bounds: Bounds)
    requires
        bounds.depth >= 1,
    ensures
        forall|j: int|
            0 <= j < draw(tree, bounds).rows.len() ==> depicts(
                tree,
                bounds,
                #[trigger] draw(tree, bounds).rows[j],
            ),
{
    lemma_rows_depict(tree, bounds, seq![], seq![], 0, 0);
}

/// On the line of a row that shows an entry of the tree, the glyph in front
/// of the name is the closing one exactly where the entry is the last of
/// its directory, and the column of each ancestor holds a bar exactly where
/// entries follow that ancestor in its own directory.
pub proof fn lemma_line_tells_siblings(tree: Tree, bounds: Bounds, row: Row)
    requires
        depicts(tree, bounds, row),
    ensures
        row_text(row).len() >= 4 * row.place.len(),
        column(row_text(row), row.place.len() - 1) == branch(true) <==> row.place.last() + 1
            == tree(row.place.drop_last()).len(),
        forall|k: int|
            0 <= k < row.place.len() - 1 ==> (#[trigger] column(row_text(row), k) == bar(true)
                <==> row.place[k] + 1 < tree(row.place.take(k)).len()),
{
    lemma_glyphs();
    lemma_line_columns(row.flags, row.last, row.name, row.more);
    let dir = row.place.drop_last();
    assert forall|k: int| 0 <= k < row.place.len() - 1 implies (#[trigger] column(row_text(row), k)
        == bar(true) <==> row.place[k] + 1 < tree(row.place.take(k)).len()) by {
        assert(dir[k] == row.place[k]);
        assert(dir.take(k) =~= row.place.take(k));
        assert(column(row_text(row), k) == bar(row.flags[k]));
    }
}

/// What is drawn of a directory from one of its entries on lies in that
/// directory, at that entry or behind it, or below such an entry.
pub proof fn lemma_rows_within(
    tree: Tree,
    bounds: Bounds,
    place: Seq<int>,
    flags: Seq<bool>,
    total: nat,
    index: nat,
)
    ensures
        forall|j: int|
            0 <= j < draw_from(tree, bounds, place, flags, total, index).rows.len() ==> within(
                place,
                index as int,
                (#[trigger] draw_from(tree, bounds, place, flags, total, index).rows[j]).place,
            ),
    decreases bounds.depth - place.len(), tree(place).len() - index,
{
    let drawn = draw_from(tree, bounds, place, flags, total, index);
    if index >= tree(place).len() {
    } else if !bounds.room(total, index) {
    } else {
        let row = row_of(tree, bounds, place, flags, index);
        assert(row.place.take(place.len() as int) =~= place);
        if opens(tree, bounds, place, index) {
            let below = place.push(index as int);
            let marks = flags.push(!row.last);
            lemma_rows_within(tree, bounds, below, marks, total + 1, 0);
            let inner = draw_from(tree, bounds, below, marks, total + 1, 0);
            let rest = draw_from(tree, bounds, place, flags, inner.total, index + 1);
            if inner.cut is None {
                lemma_rows_within(tree, bounds, place, flags, inner.total, index + 1);
            }
            assert forall|j: int| 0 <= j < drawn.rows.len() implies within(
                place,
                index as int,
                (#[trigger] drawn.rows[j]).place,
            ) by {
                if j == 0 {
                } else if j - 1 < inner.rows.len() {
                    let at = inner.rows[j - 1].place;
                    assert(drawn.rows[j] == inner.rows[j - 1]);
                    assert(within(below, 0, at));
                    assert(at.take(place.len() as int) =~= at.take(below.len() as int).take(
                        place.len() as int,
                    ));
                    assert(at[place.len() as int] == at.take(below.len() as int)[place.len() as int]);
                } else {
                    assert(drawn.rows[j] == rest.rows[j - 1 - inner.rows.len()]);
                }
            }
        } else {
            lemma_rows_within(tree, bounds, place, flags, total + 1, index + 1);
            let rest = draw_from(tree, bounds, place, flags, total + 1, index + 1);
            assert forall|j: int| 0 <= j < drawn.rows.len() implies within(
                place,
                index as int,
                (#[trigger] drawn.rows[j]).place,
            ) by {
                if j > 0 {
                    assert(drawn.rows[j] == rest.rows[j - 1]);
                }
            }
        }
    }
}

/// No entry is drawn twice.
pub proof fn lemma_rows_distinct(
    tree: Tree,
    bounds: Bounds,
    place: Seq<int>,
    flags: Seq<bool>,
    total: nat,
    index: nat,
)
    ensures
        forall|i: int, j: int|
            #![trigger
                draw_from(tree, bounds, place, flags, total, index).rows[i],
                draw_from(tree, bounds, place, flags, total, index).rows[j]]
            0 <= i < j < draw_from(tree, bounds, place, flags, total, index).rows.len()
                ==> draw_from(tree, bounds, place, flags, total, index).rows[i].place != draw_from(
                tree,
                bounds,
                place,
                flags,
                total,
                index,
            ).rows[j].place,
    decreases bounds.depth - place.len(), tree(place).len() - index,
{
    let drawn = draw_from(tree, bounds, place, flags, total, index);
    let depth = place.len() as int;
    if index >= tree(place).len() {
    } else if !bounds.room(total, index) {
    } else {
        let row = row_of(tree, bounds, place, flags, index);
        if opens(tree, bounds, place, index) {
            let below = place.push(index as int);
            let marks = flags.push(!row.last);
            let inner = draw_from(tree, bounds, below, marks, total + 1, 0);
            let rest = draw_from(tree, bounds, place, flags, inner.total, index + 1);
            lemma_rows_within(tree, bounds, below, marks, total + 1, 0);
            lemma_rows_distinct(tree, bounds, below, marks, total + 1, 0);
            if inner.cut is None {
                lemma_rows_within(tree, bounds, place, flags, inner.total, index + 1);
                lemma_rows_distinct(tree, bounds, place, flags, inner.total, index + 1);
            }
            assert forall|i: int, j: int| 0 <= i < j < drawn.rows.len() implies (
            #[trigger] drawn.rows[i]).place != (#[trigger] drawn.rows[j]).place by {
                let first = drawn.rows[i].place;
                let second = drawn.rows[j].place;
                if j - 1 < inner.rows.len() {
                    assert(drawn.rows[j] == inner.rows[j - 1]);
                    assert(within(below, 0, second));
                    if i > 0 {
                        assert(drawn.rows[i] == inner.rows[i - 1]);
                    }
                } else {
                    assert(drawn.rows[j] == rest.rows[j - 1 - inner.rows.len()]);
                    assert(within(place, (index + 1) as int, second));
                    if i == 0 {
                    } else if i - 1 < inner.rows.len() {
                        assert(drawn.rows[i] == inner.rows[i - 1]);
                        assert(within(below, 0, first));
                        assert(first[depth] == first.take(below.len() as int)[depth]);
                    } else {
                        assert(drawn.rows[i] == rest.rows[i - 1 - inner.rows.len()]);
                    }
                }
            }
        } else {
            let rest = draw_from(tree, bounds, place, flags, total + 1, index + 1);
            lemma_rows_within(tree, bounds, place, flags, total + 1, index + 1);
            lemma_rows_distinct(tree, bounds, place, flags, total + 1, index + 1);
            assert forall|i: int, j: int| 0 <= i < j < drawn.rows.len() implies (
            #[trigger] drawn.rows[i]).place != (#[trigger] drawn.rows[j]).place by {
                assert(drawn.rows[j] == rest.rows[j - 1]);
                assert(within(place, (index + 1) as int, drawn.rows[j].place));
                if i > 0 {
                    assert(drawn.rows[i] == rest.rows[i - 1]);
                }
            }
        }
    }
}

/// Where the walk is not cut, nothing is passed over: every entry that the
/// depth bound lets be drawn has its row.
pub proof fn lemma_uncut_shows_all(
    tree: Tree,
    bounds: Bounds,
    place: Seq<int>,
    flags: Seq<bool>,
    total: nat,
    index: nat,
    at: Seq<int>,
)
    requires
        draw_from(tree, bounds, place, flags, total, index).cut is None,
        within(place, index as int, at),
        reachable(tree, bounds, at),
    ensures
        exists|j: int|
            0 <= j < draw_from(tree, bounds, place, flags, total, index).rows.len() && (
            #[trigger] draw_from(tree, bounds, place, flags, total, index).rows[j]).place == at,
    decreases bounds.depth - place.len(), tree(place).len() - index,
{
    let drawn = draw_from(tree, bounds, place, flags, total, index);
    let depth = place.len() as int;
    assert(at.take(depth) == place);
    assert(0 <= at[depth] < tree(at.take(depth)).len());
    let row = row_of(tree, bounds, place, flags, index);
    let below = place.push(index as int);
    let marks = flags.push(!row.last);
    if at[depth] == index {
        if at.len() == depth + 1 {
            assert(at =~= row.place);
            assert(drawn.rows[0].place == at);
        } else {
            assert(tree(at.take(depth))[at[depth]].is_dir);
            assert(opens(tree, bounds, place, index));
            let inner = draw_from(tree, bounds, below, marks, total + 1, 0);
            assert(at.take(below.len() as int) =~= below);
            assert(0 <= at[depth + 1]);
            lemma_uncut_shows_all(tree, bounds, below, marks, total + 1, 0, at);
            let j = choose|j: int| 0 <= j < inner.rows.len() && (#[trigger] inner.rows[j]).place == at;
            assert(drawn.rows[j + 1] == inner.rows[j]);
        }
    } else if opens(tree, bounds, place, index) {
        let inner = draw_from(tree, bounds, below, marks, total + 1, 0);
        let rest = draw_from(tree, bounds, place, flags, inner.total, index + 1);
        lemma_uncut_shows_all(tree, bounds, place, flags, inner.total, index + 1, at);
        let j = choose|j: int| 0 <= j < rest.rows.len() && (#[trigger] rest.rows[j]).place == at;
        assert(drawn.rows[1 + inner.rows.len() + j] == rest.rows[j]);
    } else {
        let rest = draw_from(tree, bounds, place, flags, total + 1, index + 1);
        lemma_uncut_shows_all(tree, bounds, place, flags, total + 1, index + 1, at);
        let j = choose|j: int| 0 <= j < rest.rows.len() && (#[trigger] rest.rows[j]).place == at;
        assert(drawn.rows[1 + j] == rest.rows[j]);
    }
}

/// A rendering that is not cut shows the tree down to the depth bound in
/// full: every entry that the bound lets be drawn has a row, and only one.
pub proof fn lemma_uncut_drawing_is_whole(tree: Tree, bounds: Bounds, at: Seq<int>)
    requires
        draw(tree, bounds).cut is None,
        reachable(tree, bounds, at),
    ensures
        exists|j: int|
            0 <= j < draw(tree, bounds).rows.len() && (#[trigger] draw(tree, bounds).rows[j]).place
                == at,
        forall|i: int, j: int|
            #![trigger draw(tree, bounds).rows[i], draw(tree, bounds).rows[j]]
            0 <= i < j < draw(tree, bounds).rows.len() ==> draw(tree, bounds).rows[i].place
                != draw(tree, bounds).rows[j].place,
{
    assert(at.take(0) =~= seq![]);
    lemma_uncut_shows_all(tree, bounds, seq![], seq![], 0, 0, at);
    lemma_rows_distinct(tree, bounds, seq![], seq![], 0, 0);
}

} // verus!
