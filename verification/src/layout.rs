//! What a rendered line looks like.
//!
//! A line is made of four-character blocks: one per ancestor directory,
//! then the branch glyph, then the entry's name and, for a directory whose
//! contents are withheld, a trailing mark.

use vstd::prelude::*;

verus! {

/// What one line of the tree shows, and of which entry.
pub struct Row {
    /// Where the entry stands in the tree: the index of each directory on
    /// the way down from the root, then the entry's own index.
    pub place: Seq<int>,
    /// One flag per ancestor, outermost first: whether a vertical bar runs
    /// through that ancestor's column.
    pub flags: Seq<bool>,
    /// Whether the entry closes its directory.
    pub last: bool,
    pub name: Seq<char>,
    /// Whether the entry is a directory whose contents are not shown.
    pub more: bool,
}

/// The column of one ancestor on an entry's line.
pub open spec fn bar(flag: bool) -> Seq<char> {
    if flag {
        "│   "@
    } else {
        "    "@
    }
}

/// The column of one ancestor on the line that closes a truncated tree.
pub open spec fn gap(flag: bool) -> Seq<char> {
    if flag {
        "... "@
    } else {
        "    "@
    }
}

/// The glyph in front of an entry's name.
pub open spec fn branch(last: bool) -> Seq<char> {
    if last {
        "└── "@
    } else {
        "├── "@
    }
}

/// The mark behind a directory that is shown but not opened.
pub open spec fn tail(more: bool) -> Seq<char> {
    if more {
        " ..."@
    } else {
        Seq::empty()
    }
}

/// The ancestors' columns of an entry's line.
pub open spec fn indent(flags: Seq<bool>) -> Seq<char>
    decreases flags.len(),
{
    if flags.len() == 0 {
        Seq::empty()
    } else {
        indent(flags.drop_last()) + bar(flags.last())
    }
}

/// The ancestors' columns of the closing line of a truncated tree.
pub open spec fn gaps(flags: Seq<bool>) -> Seq<char>
    decreases flags.len(),
{
    if flags.len() == 0 {
        Seq::empty()
    } else {
        gaps(flags.drop_last()) + gap(flags.last())
    }
}

/// The text of an entry's line.
pub open spec fn line_text(flags: Seq<bool>, last: bool, name: Seq<char>, more: bool) -> Seq<char> {
    indent(flags) + branch(last) + name + tail(more)
}

/// The text of a row.
pub open spec fn row_text(row: Row) -> Seq<char> {
    line_text(row.flags, row.last, row.name, row.more)
}

/// The text that closes a tree cut short below the given ancestors: their
/// columns, then the mark for the directory in which the listing stopped.
pub open spec fn marker_text(flags: Seq<bool>) -> Seq<char> {
    gaps(flags) + gap(true)
}

/// The texts of a run of rows.
pub open spec fn rows_text(rows: Seq<Row>) -> Seq<Seq<char>> {
    Seq::new(rows.len(), |i: int| row_text(rows[i]))
}

/// The texts of a run of strings.
pub open spec fn texts(strings: Seq<String>) -> Seq<Seq<char>> {
    Seq::new(strings.len(), |i: int| strings[i]@)
}


/// The four characters of a text's column `k`.
pub open spec fn column(text: Seq<char>, k: int) -> Seq<char> {
    text.subrange(4 * k, 4 * k + 4)
}

/// The glyphs are four characters wide, and no two that stand for
/// different things look alike.
pub proof fn lemma_glyphs()
    ensures
        forall|flag: bool| #[trigger] bar(flag).len() == 4,
        forall|flag: bool| #[trigger] gap(flag).len() == 4,
        forall|last: bool| #[trigger] branch(last).len() == 4,
        bar(true) != bar(false),
        gap(true) != gap(false),
        branch(true) != branch(false),
        forall|flag: bool, last: bool| bar(flag) != branch(last),
{
    reveal_strlit("│   ");
    reveal_strlit("    ");
    reveal_strlit("... ");
    reveal_strlit("└── ");
    reveal_strlit("├── ");
    assert("│   "@[0] != "    "@[0]);
    assert("... "@[0] != "    "@[0]);
    assert("└── "@[0] != "├── "@[0]);
    assert forall|flag: bool, last: bool| bar(flag) != branch(last) by {
        assert(bar(flag)[1] != branch(last)[1]);
    }
}

/// The ancestors' columns hold one bar or blank per flag.
pub proof fn lemma_indent_columns(flags: Seq<bool>)
    ensures
        indent(flags).len() == 4 * flags.len(),
        forall|k: int| 0 <= k < flags.len() ==> #[trigger] column(indent(flags), k) == bar(flags[k]),
    decreases flags.len(),
{
    lemma_glyphs();
    if flags.len() > 0 {
        let front = flags.drop_last();
        lemma_indent_columns(front);
        assert forall|k: int| 0 <= k < flags.len() implies #[trigger] column(indent(flags), k)
            == bar(flags[k]) by {
            if k < front.len() {
                assert(column(indent(flags), k) =~= column(indent(front), k));
            } else {
                assert(column(indent(flags), k) =~= bar(flags.last()));
            }
        }
    }
}

/// The ancestors' columns of a closing line hold one mark or blank per
/// flag.
pub proof fn lemma_gaps_columns(flags: Seq<bool>)
    ensures
        gaps(flags).len() == 4 * flags.len(),
        forall|k: int| 0 <= k < flags.len() ==> #[trigger] column(gaps(flags), k) == gap(flags[k]),
    decreases flags.len(),
{
    lemma_glyphs();
    if flags.len() > 0 {
        let front = flags.drop_last();
        lemma_gaps_columns(front);
        assert forall|k: int| 0 <= k < flags.len() implies #[trigger] column(gaps(flags), k)
            == gap(flags[k]) by {
            if k < front.len() {
                assert(column(gaps(flags), k) =~= column(gaps(front), k));
            } else {
                assert(column(gaps(flags), k) =~= gap(flags.last()));
            }
        }
    }
}

/// How the closing line of a truncated tree reads column by column: the
/// mark or a blank for each ancestor, then the mark for the directory in
/// which the listing stopped, so that the line is never empty.
pub proof fn lemma_marker_columns(flags: Seq<bool>)
    ensures
        marker_text(flags).len() == 4 * flags.len() + 4,
        forall|k: int|
            0 <= k < flags.len() ==> #[trigger] column(marker_text(flags), k) == gap(flags[k]),
        column(marker_text(flags), flags.len() as int) == gap(true),
{
    lemma_glyphs();
    lemma_gaps_columns(flags);
    assert forall|k: int| 0 <= k < flags.len() implies #[trigger] column(marker_text(flags), k)
        == gap(flags[k]) by {
        assert(column(marker_text(flags), k) =~= column(gaps(flags), k));
    }
    assert(column(marker_text(flags), flags.len() as int) =~= gap(true));
}

/// How a line reads column by column: a bar in the column of each ancestor
/// that is flagged and a blank in the others, then the branch glyph, then
/// the name and the mark.
pub proof fn lemma_line_columns(flags: Seq<bool>, last: bool, name: Seq<char>, more: bool)
    ensures
        line_text(flags, last, name, more).len() >= 4 * flags.len() + 4,
        forall|k: int|
            0 <= k < flags.len() ==> #[trigger] column(line_text(flags, last, name, more), k)
                == bar(flags[k]),
        column(line_text(flags, last, name, more), flags.len() as int) == branch(last),
        line_text(flags, last, name, more).skip(4 * flags.len() as int + 4) == name + tail(more),
{
    lemma_glyphs();
    lemma_indent_columns(flags);
    let text = line_text(flags, last, name, more);
    assert forall|k: int| 0 <= k < flags.len() implies #[trigger] column(text, k) == bar(
        flags[k],
    ) by {
        assert(column(text, k) =~= column(indent(flags), k));
    }
    assert(column(text, flags.len() as int) =~= branch(last));
    assert(text.skip(4 * flags.len() as int + 4) =~= name + tail(more));
}

} // verus!
