//! What a rendering is, told over the whole tree at once.
//!
//! A tree is given by the listing of each of its directories. A directory
//! is named by its place: the index of each entry that leads down to it
//! from the root, so the root's place is empty. [`draw`] says which rows a
//! tree yields under given bounds; [`crate::tree_lemmas`] says what holds
//! of every such row.

use vstd::prelude::*;

use crate::layout::Row;

verus! {

/// One entry of a listing, as the contracts see it.
pub struct EntryView {
    pub name: Seq<char>,
    pub is_dir: bool,
}

/// A tree: the entries of the directory at each place. A directory that
/// cannot be listed holds the one placeholder entry that is drawn for it.
pub type Tree = spec_fn(Seq<int>) -> Seq<EntryView>;

/// The three bounds of a rendering.
pub struct Bounds {
    /// How many levels of entries are drawn; at least one.
    pub depth: nat,
    /// How many entries are drawn of any one directory.
    pub per_dir: Option<nat>,
    /// How many entries are drawn in all.
    pub total: Option<nat>,
}

/// The rows drawn from some point on.
pub struct Drawing {
    pub rows: Seq<Row>,
    /// How many entries have been drawn in all once these rows are out.
    pub total: nat,
    /// Where a bound stopped the walk, if one did: the flags of the
    /// directories above the one in which it stopped.
    pub cut: Option<Seq<bool>>,
}

impl Bounds {
    /// Whether the entry at `index` of some directory may be drawn once
    /// `total` entries are out.
    pub open spec fn room(self, total: nat, index: nat) -> bool {
        &&& self.total matches Some(t) ==> total < t
        &&& self.per_dir matches Some(l) ==> index < l
    }

    /// The same bounds without the one on the total.
    pub open spec fn unbounded(self) -> Bounds {
        Bounds { total: None, ..self }
    }
}

impl Drawing {
    /// The drawing with one more row in front.
    pub open spec fn after(self, row: Row) -> Drawing {
        Drawing { rows: seq![row] + self.rows, ..self }
    }

    /// The drawing with more rows in front.
    pub open spec fn preceded_by(self, rows: Seq<Row>) -> Drawing {
        Drawing { rows: rows + self.rows, ..self }
    }

    /// This drawing followed by another, which starts where this one ends.
    pub open spec fn followed_by(self, rest: Drawing) -> Drawing {
        Drawing { rows: self.rows + rest.rows, total: rest.total, cut: rest.cut }
    }
}

/// The row of the entry at `index` of the directory at `place`.
pub open spec fn row_of(
    tree: Tree,
    bounds: Bounds,
    place: Seq<int>,
    flags: Seq<bool>,
    index: nat,
) -> Row {
    let entry = tree(place)[index as int];
    Row {
        place: place.push(index as int),
        flags,
        last: index + 1 == tree(place).len(),
        name: entry.name,
        more: entry.is_dir && place.len() + 1 == bounds.depth,
    }
}

/// Whether the walk enters the entry at `index` of the directory at `place`.
pub open spec fn opens(tree: Tree, bounds: Bounds, place: Seq<int>, index: nat) -> bool {
    tree(place)[index as int].is_dir && place.len() + 1 < bounds.depth
}

/// The rows drawn of the directory at `place` from its entry `index` on,
/// each directory that is entered drawn in full before the entry after it,
/// when `total` entries are out already. The walk stops for good at the
/// first entry for which there is no room.
pub open spec fn draw_from(
    tree: Tree,
    bounds: Bounds,
    place: Seq<int>,
    flags: Seq<bool>,
    total: nat,
    index: nat,
) -> Drawing
    decreases bounds.depth - place.len(), tree(place).len() - index,
{
    if index >= tree(place).len() {
        Drawing { rows: seq![], total, cut: None }
    } else if !bounds.room(total, index) {
        Drawing { rows: seq![], total, cut: Some(flags) }
    } else {
        let row = row_of(tree, bounds, place, flags, index);
        if opens(tree, bounds, place, index) {
            let inner = draw_from(
                tree,
                bounds,
                place.push(index as int),
                flags.push(!row.last),
                total + 1,
                0,
            );
            if inner.cut is Some {
                inner.after(row)
            } else {
                inner.followed_by(
                    draw_from(tree, bounds, place, flags, inner.total, index + 1),
                ).after(row)
            }
        } else {
            draw_from(tree, bounds, place, flags, total + 1, index + 1).after(row)
        }
    }
}

/// The rendering of a whole tree.
pub open spec fn draw(tree: Tree, bounds: Bounds) -> Drawing {
    draw_from(tree, bounds, seq![], seq![], 0, 0)
}

/// The way down to a directory lies within the tree and the bounds: each
/// index on it is that of a directory that was drawn, and each flag says
/// whether entries follow that directory in its own listing.
pub open spec fn leads(tree: Tree, bounds: Bounds, place: Seq<int>, flags: Seq<bool>) -> bool {
    &&& flags.len() == place.len()
    &&& place.len() < bounds.depth
    &&& forall|k: int|
        0 <= k < place.len() ==> {
            &&& 0 <= #[trigger] place[k] < tree(place.take(k)).len()
            &&& tree(place.take(k))[place[k]].is_dir
            &&& flags[k] == (place[k] + 1 < tree(place.take(k)).len())
            &&& bounds.per_dir matches Some(l) ==> place[k] < l
        }
}

/// The row shows an entry of the tree as it stands there: under its name,
/// with the closing glyph exactly where it is the last of its directory,
/// with a bar in an ancestor's column exactly where entries follow that
/// ancestor, no deeper than the depth bound and no further into its
/// directory than the bound per directory, and marked exactly where it is a
/// directory on the deepest level.
pub open spec fn depicts(tree: Tree, bounds: Bounds, row: Row) -> bool {
    let dir = row.place.drop_last();
    let index = row.place.last();
    &&& row.place.len() >= 1
    &&& leads(tree, bounds, dir, row.flags)
    &&& 0 <= index < tree(dir).len()
    &&& bounds.per_dir matches Some(l) ==> index < l
    &&& row.name == tree(dir)[index].name
    &&& row.last == (index + 1 == tree(dir).len())
    &&& row.more == (tree(dir)[index].is_dir && row.place.len() == bounds.depth)
}

/// The place `at` lies in the directory at `place`, at its entry `index`
/// or behind it, or somewhere below such an entry.
pub open spec fn within(place: Seq<int>, index: int, at: Seq<int>) -> bool {
    &&& at.len() > place.len()
    &&& at.take(place.len() as int) == place
    &&& at[place.len() as int] >= index
}

/// The place `at` is that of an entry which the depth bound lets be drawn:
/// it lies within the tree, no deeper than the bound, and everything above
/// it is a directory.
pub open spec fn reachable(tree: Tree, bounds: Bounds, at: Seq<int>) -> bool {
    &&& 1 <= at.len() <= bounds.depth
    &&& forall|k: int|
        0 <= k < at.len() ==> {
            &&& 0 <= #[trigger] at[k] < tree(at.take(k)).len()
            &&& k + 1 < at.len() ==> tree(at.take(k))[at[k]].is_dir
        }
}

} // verus!
