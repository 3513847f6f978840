//! The renderer as the contracts see it: a walk through the tree that holds
//! the listing of each directory it has entered and not yet left.
//!
//! [`Walk::scan`] says what the renderer does with one listing. What the
//! walk draws of a whole tree is told in [`crate::tree`], and
//! [`crate::follow`] shows that the two agree.

use vstd::prelude::*;

use crate::layout::{marker_text, Row};
use crate::tree::{Bounds, EntryView};

verus! {

/// A directory that the walk has entered: its listing, and the entry the
/// walk stands at.
pub struct Level {
    pub entries: Seq<EntryView>,
    pub next: nat,
}

impl Level {
    /// The entry that the walk stands at.
    pub open spec fn current(self) -> EntryView {
        self.entries[self.next as int]
    }

    /// The walk has passed the directory's last entry.
    pub open spec fn exhausted(self) -> bool {
        self.next >= self.entries.len()
    }

    /// The walk stands at the directory's last entry.
    pub open spec fn closes(self) -> bool {
        self.next + 1 == self.entries.len()
    }

    /// The same directory with the walk at the entry after this one.
    pub open spec fn step(self) -> Level {
        Level { entries: self.entries, next: self.next + 1 }
    }
}

/// Where a rendering stands.
#[derive(Clone, Copy, Debug, PartialEq, Eq)]
pub enum Status {
    /// A listing is awaited.
    Scanning,
    /// Every entry within the depth limit has been drawn.
    Complete,
    /// A limit stopped the walk before the tree was exhausted.
    Truncated,
}

/// The renderer as the contracts see it.
pub struct Walk {
    pub depth_limit: nat,
    pub dir_len_limit: Option<nat>,
    pub total_len_limit: Option<nat>,
    /// How many entries have been drawn.
    pub total: nat,
    /// The directories between the root and the directory whose listing is
    /// awaited, outermost first, each standing at the entry that leads on.
    pub above: Seq<Level>,
    pub status: Status,
}

/// What the renderer wants next, as the contracts see it.
pub enum Demand {
    /// The listing of the directory reached from the root by these names.
    List(Seq<Seq<char>>),
    /// Nothing: the tree is drawn in full.
    Complete,
    /// Nothing: a limit cut the tree short, and this text closes the output.
    Truncated(Seq<char>),
}

/// The result of handing the renderer one listing: the walk as it stands
/// afterwards, the rows drawn, and what the renderer wants next.
pub struct Outcome {
    pub walk: Walk,
    pub rows: Seq<Row>,
    pub demand: Demand,
}

/// For each pending directory, whether entries follow the one the walk
/// stands at.
pub open spec fn flags_of(above: Seq<Level>) -> Seq<bool> {
    Seq::new(above.len(), |k: int| above[k].next + 1 < above[k].entries.len())
}

/// Where the directory whose listing is awaited stands in the tree: for each
/// pending directory, the index of the entry that leads on.
pub open spec fn place_of(above: Seq<Level>) -> Seq<int> {
    Seq::new(above.len(), |k: int| above[k].next as int)
}

/// The names that lead from the root to the directory whose listing is
/// awaited.
pub open spec fn path_of(above: Seq<Level>) -> Seq<Seq<char>> {
    Seq::new(above.len(), |k: int| above[k].current().name)
}

impl Walk {
    /// The depth of the directory that is being scanned.
    pub open spec fn depth(self) -> nat {
        self.above.len()
    }

    /// The bounds that the walk keeps to. The count of drawn entries is a
    /// machine integer, so there is a bound on the total even where none
    /// was asked for.
    pub open spec fn bounds(self) -> Bounds {
        Bounds {
            depth: self.depth_limit,
            per_dir: self.dir_len_limit,
            total: Some(
                match self.total_len_limit {
                    Some(t) if t < usize::MAX => t,
                    _ => usize::MAX as nat,
                },
            ),
        }
    }

    /// Whether one more entry of the directory `here` may be drawn.
    pub open spec fn has_room(self, here: Level) -> bool {
        self.bounds().room(self.total, here.next)
    }

    /// The line of the entry that `here` stands at.
    pub open spec fn row(self, here: Level) -> Row {
        Row {
            place: place_of(self.above).push(here.next as int),
            flags: flags_of(self.above),
            last: here.closes(),
            name: here.current().name,
            more: here.current().is_dir && self.depth() + 1 == self.depth_limit,
        }
    }

    /// Whether the walk enters the entry that `here` stands at.
    pub open spec fn descends(self, here: Level) -> bool {
        here.current().is_dir && self.depth() + 1 < self.depth_limit
    }

    /// The walk after one more entry has been drawn.
    pub open spec fn counted(self) -> Walk {
        Walk { total: self.total + 1, ..self }
    }

    /// The walk after it has gone down from the entry that `here` stands
    /// at.
    pub open spec fn entered(self, here: Level) -> Walk {
        Walk { above: self.above.push(here), ..self }
    }

    /// The walk after it has come back up into the innermost pending
    /// directory.
    pub open spec fn left(self) -> Walk {
        Walk { above: self.above.drop_last(), ..self }
    }

    /// The walk after it has come to the given end.
    pub open spec fn ended(self, status: Status) -> Walk {
        Walk { status, ..self }
    }

    /// What closes the output of a walk that has ended.
    pub open spec fn closing(self) -> Demand {
        match self.status {
            Status::Truncated => Demand::Truncated(marker_text(flags_of(self.above))),
            _ => Demand::Complete,
        }
    }

    /// Scans the directory `here` from the entry it stands at, and after it
    /// the rest of the directories above, until a directory has to be
    /// listed, a limit is reached or nothing is left.
    pub open spec fn advance(self, here: Level) -> Outcome
        decreases self.above.len(), here.entries.len() - here.next,
    {
        if here.exhausted() {
            if self.above.len() == 0 {
                Outcome {
                    walk: self.ended(Status::Complete),
                    rows: seq![],
                    demand: Demand::Complete,
                }
            } else {
                self.left().advance(self.above.last().step())
            }
        } else if !self.has_room(here) {
            let walk = self.ended(Status::Truncated);
            Outcome { walk, rows: seq![], demand: walk.closing() }
        } else if self.descends(here) {
            let walk = self.counted().entered(here);
            Outcome { walk, rows: seq![self.row(here)], demand: Demand::List(path_of(walk.above)) }
        } else {
            let rest = self.counted().advance(here.step());
            Outcome { walk: rest.walk, rows: seq![self.row(here)] + rest.rows, demand: rest.demand }
        }
    }

    /// What the renderer does with the listing it awaited. A renderer that
    /// has ended stays as it is and repeats how it ended.
    pub open spec fn scan(self, listing: Seq<EntryView>) -> Outcome {
        match self.status {
            Status::Scanning => self.advance(Level { entries: listing, next: 0 }),
            _ => Outcome { walk: self, rows: seq![], demand: self.closing() },
        }
    }

    /// The row lies within the walk's bounds: no deeper than the depth
    /// limit lets entries be drawn, one column per level above it, marked
    /// only on the deepest level, and in its directory before the limit per
    /// directory.
    pub open spec fn bounded(self, row: Row) -> bool {
        &&& row.place.len() == row.flags.len() + 1
        &&& row.place.len() <= self.depth_limit
        &&& row.more ==> row.place.len() == self.depth_limit
        &&& self.dir_len_limit matches Some(l) ==> row.place.last() < l
    }

    /// What holds of a renderer between two listings.
    pub open spec fn inv(self) -> bool {
        &&& self.depth_limit >= 1
        &&& self.above.len() < self.depth_limit
        &&& self.total <= usize::MAX
        &&& self.total_len_limit matches Some(t) ==> self.total <= t
        &&& self.status is Complete ==> self.above.len() == 0
        &&& forall|k: int|
            0 <= k < self.above.len() ==> {
                &&& (#[trigger] self.above[k]).next < self.above[k].entries.len()
                &&& self.above[k].current().is_dir
                &&& self.dir_len_limit matches Some(l) ==> self.above[k].next < l
            }
    }
}

/// Whatever listing a renderer is handed, it stays within its bounds: what
/// holds between two listings holds again afterwards, the count has grown
/// by the rows handed out, and every one of these rows lies within the
/// depth limit, takes up no more columns than there are levels above it,
/// and stands in its directory before the limit per directory.
pub proof fn lemma_scan_bounded(walk: Walk, listing: Seq<EntryView>)
    requires
        walk.inv(),
    ensures
        walk.scan(listing).walk.inv(),
        walk.scan(listing).walk.total == walk.total + walk.scan(listing).rows.len(),
        forall|j: int|
            0 <= j < walk.scan(listing).rows.len() ==> walk.bounded(
                #[trigger] walk.scan(listing).rows[j],
            ),
{
    if walk.status is Scanning {
        lemma_advance_bounded(walk, Level { entries: listing, next: 0 });
    }
}

proof fn lemma_advance_bounded(walk: Walk, here: Level)
    requires
        walk.inv(),
        walk.status is Scanning,
    ensures
        walk.advance(here).walk.inv(),
        walk.advance(here).walk.total == walk.total + walk.advance(here).rows.len(),
        forall|j: int|
            0 <= j < walk.advance(here).rows.len() ==> walk.bounded(
                #[trigger] walk.advance(here).rows[j],
            ),
    decreases walk.above.len(), here.entries.len() - here.next,
{
    let outcome = walk.advance(here);
    if here.exhausted() {
        if walk.above.len() > 0 {
            lemma_advance_bounded(walk.left(), walk.above.last().step());
        }
    } else if !walk.has_room(here) {
    } else if walk.descends(here) {
        let down = walk.counted().entered(here);
        assert forall|k: int| 0 <= k < down.above.len() implies {
            &&& (#[trigger] down.above[k]).next < down.above[k].entries.len()
            &&& down.above[k].current().is_dir
            &&& down.dir_len_limit matches Some(l) ==> down.above[k].next < l
        } by {
            if k < walk.above.len() {
                assert(down.above[k] == walk.above[k]);
            }
        }
    } else {
        lemma_advance_bounded(walk.counted(), here.step());
        let rest = walk.counted().advance(here.step());
        assert forall|j: int| 0 <= j < outcome.rows.len() implies walk.bounded(
            #[trigger] outcome.rows[j],
        ) by {
            if j > 0 {
                assert(outcome.rows[j] == rest.rows[j - 1]);
            }
        }
    }
}

} // verus!
