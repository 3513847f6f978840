//! The renderer, step by step, draws what [`draw`] says of the whole tree.

use vstd::prelude::*;

use crate::layout::{marker_text, Row};
use crate::tree::{depicts, draw, draw_from, Bounds, Drawing, Tree};
use crate::tree_lemmas::{lemma_drawing_depicts, lemma_total_cuts};
use crate::walk::{flags_of, path_of, place_of, Demand, Level, Outcome, Walk};

verus! {

/// What is still to be drawn of the directories `above`, outermost first,
/// once the directory below them has yielded `inner`: nothing more where
/// the walk was cut, else the rest of each directory from the entry after
/// the one that led down.
pub open spec fn resume(
    tree: Tree,
    bounds: Bounds,
    above: Seq<Level>,
    inner: Drawing,
) -> Drawing
    decreases above.len(),
{
    if above.len() == 0 || inner.cut is Some {
        inner
    } else {
        let up = above.drop_last();
        let rest = draw_from(
            tree,
            bounds,
            place_of(up),
            flags_of(up),
            inner.total,
            above.last().next + 1,
        );
        resume(tree, bounds, up, inner.followed_by(rest))
    }
}

impl Walk {
    /// The listings that the walk holds are those of the tree.
    pub open spec fn follows(self, tree: Tree) -> bool {
        forall|k: int|
            0 <= k < self.above.len() ==> (#[trigger] self.above[k]).entries == tree(
                place_of(self.above).take(k),
            )
    }

    /// Everything that is still to be drawn of the tree when the walk
    /// awaits a listing.
    pub open spec fn pending(self, tree: Tree) -> Drawing {
        resume(
            tree,
            self.bounds(),
            self.above,
            draw_from(
                tree,
                self.bounds(),
                place_of(self.above),
                flags_of(self.above),
                self.total,
                0,
            ),
        )
    }

    /// What an outcome of the walk amounts to, given all that was still to
    /// be drawn of the tree before it: the outcome's rows come first, and
    /// what is left is what the walk awaits, or nothing where it has ended.
    /// The directory asked for is the one in which the walk stands.
    pub open spec fn keeps_to(
        self,
        tree: Tree,
        whole: Drawing,
        rows: Seq<Row>,
        demand: Demand,
    ) -> bool {
        match demand {
            Demand::List(path) => {
                &&& path == path_of(self.above)
                &&& self.inv()
                &&& self.status is Scanning
                &&& self.follows(tree)
                &&& whole == self.pending(tree).preceded_by(rows)
            },
            Demand::Complete => whole == (Drawing { rows, total: self.total, cut: None }),
            Demand::Truncated(marker) => {
                &&& whole.rows == rows
                &&& whole.total == self.total
                &&& whole.cut is Some
                &&& marker == marker_text(whole.cut->0)
            },
        }
    }
}

/// Rows in front of what a directory yields stay in front of everything
/// that follows it.
proof fn lemma_resume_preceded(
    tree: Tree,
    bounds: Bounds,
    above: Seq<Level>,
    inner: Drawing,
    rows: Seq<Row>,
)
    ensures
        resume(tree, bounds, above, inner.preceded_by(rows)) == resume(
            tree,
            bounds,
            above,
            inner,
        ).preceded_by(rows),
    decreases above.len(),
{
    if above.len() == 0 || inner.cut is Some {
    } else {
        let up = above.drop_last();
        let rest = draw_from(
            tree,
            bounds,
            place_of(up),
            flags_of(up),
            inner.total,
            above.last().next + 1,
        );
        assert(inner.preceded_by(rows).followed_by(rest).rows =~= inner.followed_by(
            rest,
        ).preceded_by(rows).rows);
        lemma_resume_preceded(tree, bounds, up, inner.followed_by(rest), rows);
    }
}

/// Scanning on from an entry of a directory draws what the tree says is
/// left of it and of the directories above.
proof fn lemma_advance(walk: Walk, here: Level, tree: Tree)
    requires
        walk.inv(),
        walk.status is Scanning,
        walk.follows(tree),
        here.entries == tree(place_of(walk.above)),
    ensures
        ({
            let outcome = walk.advance(here);
            let whole = resume(
                tree,
                walk.bounds(),
                walk.above,
                draw_from(
                    tree,
                    walk.bounds(),
                    place_of(walk.above),
                    flags_of(walk.above),
                    walk.total,
                    here.next,
                ),
            );
            outcome.walk.keeps_to(tree, whole, outcome.rows, outcome.demand)
        }),
    decreases walk.above.len(), here.entries.len() - here.next,
{
    let bounds = walk.bounds();
    let place = place_of(walk.above);
    let flags = flags_of(walk.above);
    let drawn = draw_from(tree, bounds, place, flags, walk.total, here.next);
    let whole = resume(tree, bounds, walk.above, drawn);
    let outcome = walk.advance(here);
    if here.exhausted() {
        if walk.above.len() == 0 {
        } else {
            let up = walk.left();
            let top = walk.above.last();
            assert(place_of(up.above) =~= place.drop_last());
            assert(place.take(walk.above.len() - 1) =~= place.drop_last());
            assert(top == walk.above[walk.above.len() - 1]);
            assert(top.entries == tree(place_of(up.above)));
            assert forall|k: int| 0 <= k < up.above.len() implies (#[trigger] up.above[k]).entries
                == tree(place_of(up.above).take(k)) by {
                assert(up.above[k] == walk.above[k]);
                assert(place_of(up.above).take(k) =~= place.take(k));
            }
            lemma_advance(up, top.step(), tree);
            let rest = draw_from(
                tree,
                bounds,
                place_of(up.above),
                flags_of(up.above),
                walk.total,
                top.next + 1,
            );
            assert(drawn.followed_by(rest).rows =~= rest.rows);
        }
    } else if !walk.has_room(here) {
    } else {
        let row = walk.row(here);
        if walk.descends(here) {
            let down = walk.counted().entered(here);
            assert(place_of(down.above) =~= place.push(here.next as int));
            assert(flags_of(down.above) =~= flags.push(!row.last));
            assert forall|k: int| 0 <= k < down.above.len() implies (#[trigger] down.above[k]).entries
                == tree(place_of(down.above).take(k)) by {
                if k < walk.above.len() {
                    assert(down.above[k] == walk.above[k]);
                    assert(place_of(down.above).take(k) =~= place.take(k));
                } else {
                    assert(place_of(down.above).take(k) =~= place);
                }
            }
            let inner = draw_from(
                tree,
                bounds,
                place_of(down.above),
                flags_of(down.above),
                walk.total + 1,
                0,
            );
            assert(down.above.drop_last() =~= walk.above);
            if inner.cut is Some {
                assert(drawn == inner.after(row));
            } else {
                let rest = draw_from(tree, bounds, place, flags, inner.total, here.next + 1);
                assert(drawn == inner.followed_by(rest).after(row));
            }
            assert(down.pending(tree) == resume(tree, bounds, down.above, inner));
            lemma_resume_preceded(
                tree,
                bounds,
                walk.above,
                if inner.cut is Some {
                    inner
                } else {
                    inner.followed_by(
                        draw_from(tree, bounds, place, flags, inner.total, here.next + 1),
                    )
                },
                seq![row],
            );
        } else {
            let on = walk.counted();
            lemma_advance(on, here.step(), tree);
            let rest = draw_from(tree, bounds, place, flags, walk.total + 1, here.next + 1);
            assert(drawn == rest.after(row));
            lemma_resume_preceded(tree, bounds, walk.above, rest, seq![row]);
            let later = on.advance(here.step());
            let left = resume(tree, bounds, walk.above, rest);
            assert(whole == left.preceded_by(seq![row]));
            if later.demand is List {
                assert(whole.rows =~= later.walk.pending(tree).preceded_by(outcome.rows).rows);
            }
        }
    }
}

impl Walk {
    /// The walk has drawn nothing yet and awaits the listing of the root.
    pub open spec fn fresh(self) -> bool {
        &&& self.depth_limit >= 1
        &&& self.above.len() == 0
        &&& self.total == 0
        &&& self.status is Scanning
    }

    /// What the renderer has handed out in all after `steps` listings, each
    /// of them the one that the tree holds for the directory asked for. A
    /// renderer that has ended is handed nothing more.
    pub open spec fn played(self, tree: Tree, steps: nat) -> Outcome
        decreases steps,
    {
        if steps == 0 {
            Outcome { walk: self, rows: seq![], demand: Demand::List(path_of(self.above)) }
        } else {
            let before = self.played(tree, (steps - 1) as nat);
            if before.demand is List {
                let step = before.walk.scan(tree(place_of(before.walk.above)));
                Outcome { walk: step.walk, rows: before.rows + step.rows, demand: step.demand }
            } else {
                before
            }
        }
    }
}

/// A renderer that is handed the listing the tree holds for the directory
/// it asked for draws next what comes next in the drawing of the tree, and
/// goes on to await what the tree says is still to be drawn.
pub proof fn lemma_scan_keeps_to_tree(walk: Walk, tree: Tree)
    requires
        walk.inv(),
        walk.status is Scanning,
        walk.follows(tree),
    ensures
        ({
            let outcome = walk.scan(tree(place_of(walk.above)));
            outcome.walk.keeps_to(tree, walk.pending(tree), outcome.rows, outcome.demand)
        }),
{
    lemma_advance(walk, Level { entries: tree(place_of(walk.above)), next: 0 }, tree);
}

/// To a fresh renderer the whole drawing of the tree is still to be drawn.
pub proof fn lemma_fresh_pending(walk: Walk, tree: Tree)
    requires
        walk.fresh(),
    ensures
        walk.inv(),
        walk.follows(tree),
        walk.pending(tree) == draw(tree, walk.bounds()),
{
    assert(place_of(walk.above) =~= seq![]);
    assert(flags_of(walk.above) =~= seq![]);
}

/// However many listings a rendering takes, what a fresh renderer has
/// handed out is the front of the drawing of the tree, and what is left of
/// the drawing is what it awaits.
pub proof fn lemma_run_keeps_to_tree(walk: Walk, tree: Tree, steps: nat)
    requires
        walk.fresh(),
    ensures
        ({
            let run = walk.played(tree, steps);
            run.walk.keeps_to(tree, draw(tree, walk.bounds()), run.rows, run.demand)
        }),
    decreases steps,
{
    lemma_fresh_pending(walk, tree);
    let whole = draw(tree, walk.bounds());
    if steps == 0 {
        assert(whole.rows =~= walk.pending(tree).preceded_by(seq![]).rows);
    } else {
        lemma_run_keeps_to_tree(walk, tree, (steps - 1) as nat);
        let before = walk.played(tree, (steps - 1) as nat);
        if before.demand is List {
            lemma_scan_keeps_to_tree(before.walk, tree);
            let step = before.walk.scan(tree(place_of(before.walk.above)));
            let left = before.walk.pending(tree);
            match step.demand {
                Demand::List(_) => {
                    assert(whole.rows =~= step.walk.pending(tree).preceded_by(
                        before.rows + step.rows,
                    ).rows);
                },
                Demand::Complete => {},
                Demand::Truncated(_) => {},
            }
        }
    }
}

/// A rendering that has come to its end has handed out the drawing of the
/// tree, row for row: it counts what the drawing counts, and it ends
/// truncated exactly where the drawing is cut, with the marker of that cut.
pub proof fn lemma_finished_run_is_drawing(walk: Walk, tree: Tree, steps: nat)
    requires
        walk.fresh(),
        !(walk.played(tree, steps).demand is List),
    ensures
        ({
            let run = walk.played(tree, steps);
            let whole = draw(tree, walk.bounds());
            &&& run.rows == whole.rows
            &&& run.walk.total == whole.total
            &&& run.demand is Complete <==> whole.cut is None
            &&& run.demand matches Demand::Truncated(marker) ==> marker == marker_text(whole.cut->0)
        }),
{
    lemma_run_keeps_to_tree(walk, tree, steps);
}

/// Two renderings of one tree under the same bounds that have come to
/// their ends have handed out the same rows, the same count and the same
/// ending.
pub proof fn lemma_same_tree_same_rows(
    first: Walk,
    second: Walk,
    tree: Tree,
    steps: nat,
    again: nat,
)
    requires
        first.fresh(),
        second.fresh(),
        first.bounds() == second.bounds(),
        !(first.played(tree, steps).demand is List),
        !(second.played(tree, again).demand is List),
    ensures
        first.played(tree, steps).rows == second.played(tree, again).rows,
        first.played(tree, steps).demand == second.played(tree, again).demand,
        first.played(tree, steps).walk.total == second.played(tree, again).walk.total,
{
    lemma_finished_run_is_drawing(first, tree, steps);
    lemma_finished_run_is_drawing(second, tree, again);
}


/// A scan that ends in asking for a listing has drawn the directory that
/// is to be listed.
proof fn lemma_listing_costs_a_row(walk: Walk, here: Level)
    ensures
        walk.advance(here).demand is List ==> walk.advance(here).rows.len() >= 1,
    decreases walk.above.len(), here.entries.len() - here.next,
{
    if here.exhausted() {
        if walk.above.len() > 0 {
            lemma_listing_costs_a_row(walk.left(), walk.above.last().step());
        }
    } else if !walk.has_room(here) {
    } else if walk.descends(here) {
    } else {
        lemma_listing_costs_a_row(walk.counted(), here.step());
    }
}

/// While a rendering goes on, each listing has brought at least one row.
proof fn lemma_rows_per_step(walk: Walk, tree: Tree, steps: nat)
    ensures
        walk.played(tree, steps).demand is List ==> walk.played(tree, steps).rows.len() >= steps,
    decreases steps,
{
    if steps > 0 {
        lemma_rows_per_step(walk, tree, (steps - 1) as nat);
        let before = walk.played(tree, (steps - 1) as nat);
        if before.demand is List {
            lemma_listing_costs_a_row(
                before.walk,
                Level { entries: tree(place_of(before.walk.above)), next: 0 },
            );
        }
    }
}

/// A rendering comes to its end: it takes no more listings than the
/// drawing of the tree has rows, and the root's.
pub proof fn lemma_run_ends(walk: Walk, tree: Tree)
    requires
        walk.fresh(),
    ensures
        !(walk.played(tree, draw(tree, walk.bounds()).rows.len() + 1).demand is List),
{
    let steps = draw(tree, walk.bounds()).rows.len() + 1;
    lemma_rows_per_step(walk, tree, steps);
    lemma_run_keeps_to_tree(walk, tree, steps);
}


/// Whatever a rendering has handed out, be it at its end or not, shows
/// entries of the tree as they stand there.
pub proof fn lemma_run_depicts(walk: Walk, tree: Tree, steps: nat)
    requires
        walk.fresh(),
    ensures
        forall|j: int|
            0 <= j < walk.played(tree, steps).rows.len() ==> depicts(
                tree,
                walk.bounds(),
                #[trigger] walk.played(tree, steps).rows[j],
            ),
{
    lemma_run_keeps_to_tree(walk, tree, steps);
    lemma_drawing_depicts(tree, walk.bounds());
    let run = walk.played(tree, steps);
    let whole = draw(tree, walk.bounds());
    assert forall|j: int| 0 <= j < run.rows.len() implies depicts(
        tree,
        walk.bounds(),
        #[trigger] run.rows[j],
    ) by {
        assert(run.rows[j] == whole.rows[j]);
    }
}

/// A rendering of a tree that holds more entries within the other bounds
/// than the bound on the total allows ends truncated, having drawn exactly
/// as many entries as that bound allows.
pub proof fn lemma_run_cut_by_total(walk: Walk, tree: Tree, steps: nat)
    requires
        walk.fresh(),
        !(walk.played(tree, steps).demand is List),
        draw(tree, walk.bounds().unbounded()).rows.len() > walk.bounds().total->0,
    ensures
        walk.played(tree, steps).demand is Truncated,
        walk.played(tree, steps).rows.len() == walk.bounds().total->0,
        walk.played(tree, steps).walk.total == walk.bounds().total->0,
{
    lemma_finished_run_is_drawing(walk, tree, steps);
    lemma_total_cuts(tree, walk.bounds(), seq![], seq![], 0, 0);
}

} // verus!
