//! The renderer: a depth-first walk over directory listings that it is
//! handed one at a time.
//!
//! The renderer never lists a directory itself. Each call of
//! [`Renderer::scan_directory`] takes the outcome of the listing that the
//! renderer asked for last, and returns the lines that can be drawn from it
//! together with what has to happen next: another listing, or the end of
//! the tree.

use vstd::prelude::*;
use vstd::string::*;

use crate::config::Config;
use crate::layout::{gaps, indent, line_text, marker_text, row_text, rows_text, texts};
use crate::text::{decimal, decimal_text};
use crate::tree::EntryView;
use crate::utils::Limit;
use crate::walk::{flags_of, path_of, Demand, Level, Outcome, Status, Walk};

verus! {

/// One entry of a directory listing.
#[derive(Clone, Debug, PartialEq, Eq)]
pub struct Entry {
    pub name: String,
    pub is_dir: bool,
}

impl View for Entry {
    type V = EntryView;

    open spec fn view(&self) -> EntryView {
        EntryView { name: self.name@, is_dir: self.is_dir }
    }
}

/// The entries of a listing as the contracts see them.
pub open spec fn entry_views(entries: Seq<Entry>) -> Seq<EntryView> {
    Seq::new(entries.len(), |i: int| entries[i]@)
}

/// What the outcome of a listing stands for: the entries found, or the one
/// placeholder that is drawn for a directory that could not be listed.
pub open spec fn listed(listing: Option<Vec<Entry>>) -> Seq<EntryView> {
    match listing {
        Some(entries) => entry_views(entries@),
        None => seq![EntryView { name: "[[RESTRICTED]]"@, is_dir: false }],
    }
}

/// The line that sums a rendering up, behind an empty line.
pub open spec fn summary_text(total: nat, seconds: Seq<char>) -> Seq<char> {
    "\n"@ + decimal(total) + " files and directories displayed in "@ + seconds + " seconds"@
}

/// What has to happen after a call of [`Renderer::scan_directory`].
#[derive(Clone, Debug, PartialEq, Eq)]
pub enum Next {
    /// The directory reached from the root by these names has to be listed,
    /// and the outcome handed to the renderer.
    List(Vec<String>),
    /// The tree is drawn in full.
    Complete,
    /// A limit cut the tree short; this text closes the output.
    Truncated(String),
}

impl View for Next {
    type V = Demand;

    open spec fn view(&self) -> Demand {
        match self {
            Next::List(path) => Demand::List(texts(path@)),
            Next::Complete => Demand::Complete,
            Next::Truncated(marker) => Demand::Truncated(marker@),
        }
    }
}

/// The lines drawn from one listing, and what has to happen next.
#[derive(Clone, Debug, PartialEq, Eq)]
pub struct Step {
    pub lines: Vec<String>,
    pub next: Next,
}

impl Step {
    /// The step hands out exactly what the outcome holds.
    pub open spec fn shows(&self, outcome: Outcome) -> bool {
        &&& texts(self.lines@) == rows_text(outcome.rows)
        &&& self.next@ == outcome.demand
    }
}

/// A directory that the walk has entered and not yet left.
struct Frame {
    entries: Vec<Entry>,
    next: usize,
    /// The directory's own count of drawn entries, kept here while the walk
    /// is below it.
    shown: Limit,
}

impl Frame {
    spec fn level(&self) -> Level {
        Level { entries: entry_views(self.entries@), next: self.next as nat }
    }
}

spec fn levels(pending: Seq<Frame>) -> Seq<Level> {
    Seq::new(pending.len(), |k: int| pending[k].level())
}

/// The state of one rendering: the three counters, the table of vertical
/// bars, and the directories that the walk has entered and not yet left.
pub struct Renderer {
    /// One slot per depth: whether a vertical bar is drawn in that column.
    draw_layer_table: Vec<bool>,
    dir_depth_limit: Limit,
    dir_len_limit: Limit,
    total_len_limit: Limit,
    /// The directories above the one whose listing is awaited.
    pending: Vec<Frame>,
    status: Status,
}

impl View for Renderer {
    type V = Walk;

    closed spec fn view(&self) -> Walk {
        Walk {
            depth_limit: match self.dir_depth_limit.ceiling() {
                Some(d) => d,
                None => 0,
            },
            dir_len_limit: self.dir_len_limit.ceiling(),
            total_len_limit: self.total_len_limit.ceiling(),
            total: self.total_len_limit.count(),
            above: levels(self.pending@),
            status: self.status,
        }
    }
}

impl Renderer {
    /// How the fields hang together while the directory below `pending` is
    /// scanned or awaited.
    spec fn coherent(&self) -> bool {
        &&& self@.inv()
        &&& self.dir_depth_limit.ceiling() is Some
        &&& self.draw_layer_table@.len() == self@.depth_limit
        &&& self.dir_depth_limit.count() == self.pending@.len()
        &&& forall|k: int|
            0 <= k < self.pending@.len() ==> {
                &&& (#[trigger] self.pending@[k]).shown.count() == self.pending@[k].next + 1
                &&& self.pending@[k].shown.ceiling() == self.dir_len_limit.ceiling()
                &&& self.draw_layer_table@[k] == flags_of(self@.above)[k]
            }
    }

    /// The renderer is in a state that the library's own functions produce.
    pub closed spec fn wf(&self) -> bool {
        &&& self.coherent()
        &&& self.status is Scanning ==> self.dir_len_limit.count() == 0
    }

    /// A well-formed renderer satisfies what holds between two listings.
    pub proof fn lemma_wf(&self)
        requires
            self.wf(),
        ensures
            self@.inv(),
    {
    }

    fn new(
        draw_layer_table: Vec<bool>,
        dir_depth_limit: Limit,
        dir_len_limit: Limit,
        total_len_limit: Limit,
    ) -> (r: Self)
        ensures
            r.draw_layer_table == draw_layer_table,
            r.dir_depth_limit == dir_depth_limit,
            r.dir_len_limit == dir_len_limit,
            r.total_len_limit == total_len_limit,
            r.pending@.len() == 0,
            r.status is Scanning,
    {
        Self {
            draw_layer_table,
            dir_depth_limit,
            dir_len_limit,
            total_len_limit,
            pending: Vec::new(),
            status: Status::Scanning,
        }
    }

    /// Begins the rendering that a configuration asks for: the first line
    /// is the root directory as it was given, and the root is the first
    /// directory to be listed.
    pub fn render_directory(config: Config) -> (start: (Renderer, Step))
        requires
            config@ is Render,
            config@->max_depth >= 1,
        ensures
            start.0.wf(),
            start.0@ == (Walk {
                depth_limit: config@->max_depth,
                dir_len_limit: config@->dir_len_limit,
                total_len_limit: config@->total_len_limit,
                total: 0,
                above: seq![],
                status: Status::Scanning,
            }),
            texts(start.1.lines@) == seq![config@->root_dir],
            start.1.next@ == Demand::List(seq![]),
    {
        let root_dir = match config.get_root_dir() {
            Some(root_dir) => root_dir,
            None => String::new(),
        };
        let dir_depth_limit = Limit::new(config.get_max_depth());
        let dir_len_limit = Limit::new(config.get_dir_len_limit());
        let total_len_limit = Limit::new(config.get_total_len_limit());

        let depth = match dir_depth_limit.get_limit() {
            Some(depth) => depth,
            None => 0,
        };
        let mut draw_layer_table: Vec<bool> = Vec::new();
        while draw_layer_table.len() < depth
            invariant
                draw_layer_table@.len() <= depth,
            decreases depth - draw_layer_table@.len(),
        {
            draw_layer_table.push(true);
        }
        let renderer = Renderer::new(
            draw_layer_table,
            dir_depth_limit,
            dir_len_limit,
            total_len_limit,
        );
        assert(renderer@.above =~= seq![]);

        let mut lines: Vec<String> = Vec::new();
        lines.push(root_dir);
        assert(texts(lines@) =~= seq![config@->root_dir]);
        let path: Vec<String> = Vec::new();
        assert(texts(path@) =~= seq![]);
        (renderer, Step { lines, next: Next::List(path) })
    }

    /// The line that sums a rendering up, behind an empty line: how many
    /// entries were drawn, and in how many seconds as the caller words it.
    pub fn render_summary(&self, seconds: &str) -> (summary: String)
        ensures
            summary@ == summary_text(self@.total, seconds@),
    {
        let mut summary = String::from_str("\n");
        let count = decimal_text(self.total_len_limit.get_count());
        summary.append(count.as_str());
        summary.append(" files and directories displayed in ");
        summary.append(seconds);
        summary.append(" seconds");
        summary
    }

    /// How many entries have been drawn so far: never more than the limit
    /// on the total allows.
    pub fn count(&self) -> (n: usize)
        ensures
            n as nat == self@.total,
            self.wf() ==> (self@.total_len_limit matches Some(t) ==> n <= t),
    {
        self.total_len_limit.get_count()
    }

    /// Where the rendering stands.
    pub fn status(&self) -> (s: Status)
        ensures
            s == self@.status,
    {
        self.status
    }

    /// Draws the line of one entry of the directory that is being scanned,
    /// unless the total limit is used up.
    fn render_line(&mut self, file_name: &str, is_last_in_dir: bool, is_dir: bool) -> (line: Option<
        String,
    >)
        requires
            old(self).dir_depth_limit.count() <= old(self).draw_layer_table@.len(),
        ensures
            final(self).draw_layer_table == old(self).draw_layer_table,
            final(self).dir_depth_limit == old(self).dir_depth_limit,
            final(self).dir_len_limit == old(self).dir_len_limit,
            final(self).pending == old(self).pending,
            final(self).status == old(self).status,
            final(self).total_len_limit.ceiling() == old(self).total_len_limit.ceiling(),
            line is Some <==> old(self).total_len_limit.under_limit()
                && old(self).total_len_limit.count() < usize::MAX,
            line is None ==> final(self).total_len_limit.count() == old(self).total_len_limit.count(),
            line matches Some(text) ==> {
                &&& final(self).total_len_limit.count() == old(self).total_len_limit.count() + 1
                &&& text@ == line_text(
                    old(self).draw_layer_table@.take(old(self).dir_depth_limit.count() as int),
                    is_last_in_dir,
                    file_name@,
                    is_dir && old(self).dir_depth_limit.at_limit(),
                )
            },
    {
        if !self.total_len_limit.is_under_limit() || self.total_len_limit.get_count()
            == usize::MAX {
            return None;
        }
        self.total_len_limit.increment();

        let mut print_buffer = String::new();
        let depth = self.dir_depth_limit.get_count();
        let ghost flags = self.draw_layer_table@.take(depth as int);
        let mut layer: usize = 0;
        while layer < depth
            invariant
                layer <= depth <= self.draw_layer_table@.len(),
                flags == self.draw_layer_table@.take(depth as int),
                print_buffer@ == indent(flags.take(layer as int)),
            decreases depth - layer,
        {
            proof {
                let upto = flags.take(layer + 1);
                assert(upto.drop_last() == flags.take(layer as int));
                assert(upto.last() == self.draw_layer_table@[layer as int]);
            }
            if self.draw_layer_table[layer] {
                print_buffer.append("│   ");
            } else {
                print_buffer.append("    ");
            }
            layer += 1;
        }
        assert(flags.take(depth as int) == flags);

        if is_last_in_dir {
            print_buffer.append("└── ");
        } else {
            print_buffer.append("├── ");
        }
        print_buffer.append(file_name);
        if is_dir && self.dir_depth_limit.is_at_limit() {
            print_buffer.append(" ...");
        }
        Some(print_buffer)
    }

    /// The text that closes the output when a limit has cut the tree short:
    /// one column per directory above the one in which the walk stopped,
    /// then the mark for that directory itself. The count stays as it is:
    /// it holds the entries that were drawn, and no other.
    pub fn render_limit_reached(&self) -> (marker: String)
        requires
            self.wf(),
        ensures
            marker@ == marker_text(flags_of(self@.above)),
    {
        let mut marker = String::new();
        let depth = self.dir_depth_limit.get_count();
        let ghost flags = flags_of(self@.above);
        assert(flags == self.draw_layer_table@.take(depth as int));
        let mut layer: usize = 0;
        while layer < depth
            invariant
                layer <= depth <= self.draw_layer_table@.len(),
                flags == self.draw_layer_table@.take(depth as int),
                marker@ == gaps(flags.take(layer as int)),
            decreases depth - layer,
        {
            proof {
                let upto = flags.take(layer + 1);
                assert(upto.drop_last() == flags.take(layer as int));
                assert(upto.last() == self.draw_layer_table@[layer as int]);
            }
            if self.draw_layer_table[layer] {
                marker.append("... ");
            } else {
                marker.append("    ");
            }
            layer += 1;
        }
        assert(flags.take(depth as int) == flags);
        marker.append("... ");
        marker
    }

    /// Takes the outcome of the listing that the renderer asked for last:
    /// the entries found, or `None` where the directory could not be listed.
    /// Draws every entry that can be drawn before another directory has to
    /// be listed, and says what has to happen next. A renderer that has
    /// ended draws nothing and repeats how it ended.
    pub fn scan_directory(&mut self, listing: Option<Vec<Entry>>) -> (step: Step)
        requires
            old(self).wf(),
        ensures
            final(self).wf(),
            final(self)@ == old(self)@.scan(listed(listing)).walk,
            step.shows(old(self)@.scan(listed(listing))),
    {
        let mut lines: Vec<String> = Vec::new();
        assert(texts(lines@) =~= rows_text(seq![]));
        match self.status {
            Status::Scanning => {},
            Status::Complete => {
                return Step { lines, next: Next::Complete };
            },
            Status::Truncated => {
                let marker = self.render_limit_reached();
                return Step { lines, next: Next::Truncated(marker) };
            },
        }
        let ghost goal = old(self)@.scan(listed(listing));
        let mut entries = match listing {
            Some(entries) => entries,
            None => {
                let mut placeholder: Vec<Entry> = Vec::new();
                placeholder.push(Entry { name: String::from_str("[[RESTRICTED]]"), is_dir: false });
                placeholder
            },
        };
        assert(entry_views(entries@) =~= listed(listing));
        let mut next: usize = 0;
        assert(texts(lines@) + rows_text(goal.rows) =~= rows_text(goal.rows));
        loop
            invariant
                self.coherent(),
                self.status is Scanning,
                goal == old(self)@.scan(listed(listing)),
                next <= entries@.len(),
                self.dir_len_limit.count() == next,
                ({
                    let rest = self@.advance(
                        Level { entries: entry_views(entries@), next: next as nat },
                    );
                    &&& rest.walk == goal.walk
                    &&& rest.demand == goal.demand
                    &&& texts(lines@) + rows_text(rest.rows) == rows_text(goal.rows)
                }),
            decreases self.pending@.len(), entries@.len() - next,
        {
            let ghost walk = self@;
            let ghost here = Level { entries: entry_views(entries@), next: next as nat };
            let ghost old_pending = self.pending@;
            if next >= entries.len() {
                self.dir_len_limit.reset_count();
                match self.pending.pop() {
                    None => {
                        self.status = Status::Complete;
                        assert(self@ =~~= walk.ended(Status::Complete));
                        assert(texts(lines@) + rows_text(seq![]) =~= texts(lines@));
                        return Step { lines, next: Next::Complete };
                    },
                    Some(parent) => {
                        let ghost top = walk.above.len() - 1;
                        assert(parent == old_pending[top]);
                        assert(parent.level() == walk.above[top]);
                        proof {
                            parent.shown.lemma_bounded();
                        }
                        self.dir_depth_limit.decrement();
                        self.dir_len_limit = parent.shown;
                        entries = parent.entries;
                        next = parent.next + 1;
                        assert(self@.above =~= walk.above.drop_last());
                        assert(self@.dir_len_limit == walk.dir_len_limit);
                        assert(self@.depth_limit == walk.depth_limit);
                        assert(self@ =~~= walk.left());
                        assert(flags_of(self@.above) =~= flags_of(walk.above).drop_last());
                    },
                }
            } else {
                if !self.dir_len_limit.is_under_limit() {
                    self.status = Status::Truncated;
                    assert(self@ =~~= walk.ended(Status::Truncated));
                    let marker = self.render_limit_reached();
                    assert(texts(lines@) + rows_text(seq![]) =~= texts(lines@));
                    return Step { lines, next: Next::Truncated(marker) };
                }
                let is_last = next + 1 == entries.len();
                let depth = self.dir_depth_limit.get_count();
                self.draw_layer_table[depth] = !is_last;
                assert(self@ =~~= walk);
                assert(self.draw_layer_table@.take(depth as int) =~= flags_of(walk.above));
                let is_dir = entries[next].is_dir;
                match self.render_line(entries[next].name.as_str(), is_last, is_dir) {
                    None => {
                        self.status = Status::Truncated;
                        assert(self@ =~~= walk.ended(Status::Truncated));
                        let marker = self.render_limit_reached();
                        assert(texts(lines@) + rows_text(seq![]) =~= texts(lines@));
                        return Step { lines, next: Next::Truncated(marker) };
                    },
                    Some(line) => {
                        assert(line@ == row_text(walk.row(here)));
                        let ghost before = lines@;
                        lines.push(line);
                        assert(texts(lines@) =~= texts(before) + rows_text(seq![walk.row(here)]));
                    },
                }
                assert(self@ =~~= walk.counted());
                self.dir_len_limit.increment();
                if is_dir {
                    proof {
                        self.dir_depth_limit.lemma_bounded();
                    }
                    self.dir_depth_limit.increment();
                    if self.dir_depth_limit.is_under_limit() {
                        let shown = self.dir_len_limit;
                        self.dir_len_limit.reset_count();
                        self.pending.push(Frame { entries, next, shown });
                        assert(self.pending@[old_pending.len() as int].level() == here);
                        assert(self@.above =~= walk.above.push(here));
                        assert(self@.dir_len_limit == walk.dir_len_limit);
                        assert(self@.depth_limit == walk.depth_limit);
                        assert(self@.total == walk.total + 1);
                        assert(self@ =~~= walk.counted().entered(here));
                        let path = self.path();
                        return Step { lines, next: Next::List(path) };
                    }
                    self.dir_depth_limit.decrement();
                }
                next += 1;
                proof {
                    let rest = walk.counted().advance(here.step());
                    assert(rows_text(seq![walk.row(here)] + rest.rows) =~= rows_text(
                        seq![walk.row(here)],
                    ) + rows_text(rest.rows));
                }
            }
        }
    }

    /// The names that lead from the root to the directory whose listing is
    /// awaited.
    fn path(&self) -> (path: Vec<String>)
        requires
            self.coherent(),
        ensures
            texts(path@) == path_of(self@.above),
    {
        let mut path: Vec<String> = Vec::new();
        let mut k: usize = 0;
        while k < self.pending.len()
            invariant
                self.coherent(),
                k <= self.pending@.len(),
                path@.len() == k,
                texts(path@) == path_of(self@.above).take(k as int),
            decreases self.pending@.len() - k,
        {
            let frame = &self.pending[k];
            assert(self@.above[k as int] == frame.level());
            let name = frame.entries[frame.next].name.clone();
            let ghost before = path@;
            path.push(name);
            assert forall|i: int| 0 <= i < k + 1 implies texts(path@)[i] == path_of(
                self@.above,
            ).take(k + 1)[i] by {
                if i < k {
                    assert(texts(before)[i] == path_of(self@.above).take(k as int)[i]);
                } else {
                    assert(self@.above[i].current() == frame.entries@[frame.next as int]@);
                }
            }
            assert(texts(path@) =~= path_of(self@.above).take(k + 1));
            k += 1;
        }
        assert(path_of(self@.above).take(k as int) == path_of(self@.above));
        path
    }
}

} // verus!
