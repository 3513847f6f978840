use mtree::config::Config;
use mtree::render::{Entry, Next, Renderer};
use mtree::walk::Status;

/// A directory tree held in memory.
enum Node {
    File(&'static str),
    Dir(&'static str, Vec<Node>),
    Locked(&'static str),
}

fn name_of(node: &Node) -> &'static str {
    match node {
        Node::File(name) | Node::Dir(name, _) | Node::Locked(name) => name,
    }
}

fn listing(nodes: &[Node]) -> Vec<Entry> {
    nodes
        .iter()
        .map(|node| Entry { name: name_of(node).to_string(), is_dir: !matches!(node, Node::File(_)) })
        .collect()
}

/// What listing the directory at `path` below `root` gives.
fn list(root: &Node, path: &[String]) -> Option<Vec<Entry>> {
    let mut here = root;
    for name in path {
        let Node::Dir(_, children) = here else { panic!("not a directory") };
        here = children.iter().find(|child| name_of(child) == name).unwrap();
    }
    match here {
        Node::Dir(_, children) => Some(listing(children)),
        Node::Locked(_) => None,
        Node::File(_) => panic!("asked to list a file"),
    }
}

struct Output {
    lines: Vec<String>,
    marker: Option<String>,
    count: usize,
    listed: Vec<Vec<String>>,
}

fn configure(root: &str, depth: usize, dir_len: Option<usize>, total: Option<usize>) -> Config {
    let mut config = Config::new();
    config.set_root_dir(root.to_string(), true).unwrap();
    config.set_max_depth(depth).unwrap();
    config.set_dir_len_limit(dir_len).unwrap();
    config.set_total_len_limit(total).unwrap();
    config
}

fn render(root: &Node, depth: usize, dir_len: Option<usize>, total: Option<usize>) -> Output {
    let (mut renderer, mut step) =
        Renderer::render_directory(configure(name_of(root), depth, dir_len, total));
    let mut lines = Vec::new();
    let mut listed = Vec::new();
    loop {
        lines.extend(step.lines);
        match step.next {
            Next::List(path) => {
                assert_eq!(renderer.status(), Status::Scanning);
                let found = list(root, &path);
                listed.push(path);
                step = renderer.scan_directory(found);
            }
            Next::Complete => {
                assert_eq!(renderer.status(), Status::Complete);
                return Output { lines, marker: None, count: renderer.count(), listed };
            }
            Next::Truncated(marker) => {
                assert_eq!(renderer.status(), Status::Truncated);
                assert_eq!(renderer.render_limit_reached(), marker);
                return Output { lines, marker: Some(marker), count: renderer.count(), listed };
            }
        }
    }
}

fn files(names: &[&'static str]) -> Vec<Node> {
    names.iter().map(|name| Node::File(name)).collect()
}

fn sample() -> Node {
    Node::Dir(
        "root",
        vec![
            Node::Dir(
                "src",
                vec![
                    Node::Dir("messages", files(&["help.txt", "version.txt"])),
                    Node::File("main.rs"),
                ],
            ),
            Node::File("Cargo.toml"),
            Node::Dir("target", vec![Node::Dir("debug", files(&["mtree"]))]),
        ],
    )
}

#[test]
fn two_files_get_a_tee_and_a_corner() {
    let out = render(&Node::Dir("root", files(&["a.txt", "b.txt"])), 2, None, None);
    assert_eq!(out.lines, ["root", "├── a.txt", "└── b.txt"]);
    assert_eq!(out.marker, None);
    assert_eq!(out.count, 2);
}

#[test]
fn directory_on_the_deepest_level_is_marked_and_left_closed() {
    let root = Node::Dir("root", vec![Node::Dir("sub", files(&["x.txt"]))]);
    let out = render(&root, 1, None, None);
    assert_eq!(out.lines, ["root", "└── sub ..."]);
    assert_eq!(out.marker, None);
    assert_eq!(out.count, 1);
    assert_eq!(out.listed, [Vec::<String>::new()]);
}

#[test]
fn total_limit_cuts_the_listing() {
    let root = Node::Dir("root", files(&["a", "b", "c", "d", "e"]));
    let out = render(&root, 2, None, Some(3));
    assert_eq!(out.lines, ["root", "├── a", "├── b", "├── c"]);
    assert_eq!(out.marker, Some("... ".to_string()));
    assert_eq!(out.count, 3);
}

#[test]
fn unreadable_root_shows_the_placeholder() {
    let out = render(&Node::Locked("root"), 2, None, None);
    assert_eq!(out.lines, ["root", "└── [[RESTRICTED]]"]);
    assert_eq!(out.marker, None);
    assert_eq!(out.count, 1);
}

#[test]
fn unreadable_subdirectory_shows_the_placeholder_and_siblings_follow() {
    let root = Node::Dir(
        "root",
        vec![Node::Locked("secret"), Node::File("open.txt")],
    );
    let out = render(&root, 3, None, None);
    assert_eq!(
        out.lines,
        ["root", "├── secret", "│   └── [[RESTRICTED]]", "└── open.txt"]
    );
    assert_eq!(out.marker, None);
    assert_eq!(out.count, 3);
}

#[test]
fn empty_root_draws_nothing() {
    let out = render(&Node::Dir("root", vec![]), 2, None, None);
    assert_eq!(out.lines, ["root"]);
    assert_eq!(out.marker, None);
    assert_eq!(out.count, 0);
}

#[test]
fn empty_subdirectory_is_no_truncation() {
    let root = Node::Dir("root", vec![Node::Dir("empty", vec![]), Node::File("f")]);
    let out = render(&root, 2, None, None);
    assert_eq!(out.lines, ["root", "├── empty", "└── f"]);
    assert_eq!(out.marker, None);
    assert_eq!(out.count, 2);
}

#[test]
fn nested_tree_draws_bars_below_entries_that_are_not_last() {
    let out = render(&sample(), 3, None, None);
    assert_eq!(
        out.lines,
        [
            "root",
            "├── src",
            "│   ├── messages",
            "│   │   ├── help.txt",
            "│   │   └── version.txt",
            "│   └── main.rs",
            "├── Cargo.toml",
            "└── target",
            "    └── debug",
            "        └── mtree",
        ]
    );
    assert_eq!(out.marker, None);
    assert_eq!(out.count, 9);
    assert_eq!(
        out.listed,
        [
            vec![],
            vec!["src".to_string()],
            vec!["src".to_string(), "messages".to_string()],
            vec!["target".to_string()],
            vec!["target".to_string(), "debug".to_string()],
        ]
    );
}

#[test]
fn depth_limit_stops_the_descent() {
    let out = render(&sample(), 2, None, None);
    assert_eq!(
        out.lines,
        [
            "root",
            "├── src",
            "│   ├── messages ...",
            "│   └── main.rs",
            "├── Cargo.toml",
            "└── target",
            "    └── debug ...",
        ]
    );
    assert_eq!(out.marker, None);
    assert_eq!(out.count, 6);
    assert_eq!(out.listed.len(), 3);
}

#[test]
fn no_line_is_indented_deeper_than_the_depth_limit_allows() {
    for depth in 1..=4 {
        let out = render(&sample(), depth, None, None);
        for line in &out.lines[1..] {
            let glyph = line.find(['├', '└']).unwrap();
            let columns = line[..glyph].chars().count() / 4;
            assert!(columns <= depth - 1, "{line} at depth limit {depth}");
        }
        for path in &out.listed {
            assert!(path.len() < depth);
        }
    }
}

#[test]
fn truncation_below_the_root_ends_the_whole_rendering() {
    let out = render(&sample(), 3, None, Some(3));
    assert_eq!(
        out.lines,
        ["root", "├── src", "│   ├── messages", "│   │   ├── help.txt"]
    );
    assert_eq!(out.marker, Some("... ... ... ".to_string()));
    assert_eq!(out.count, 3);
}

#[test]
fn marker_leaves_a_gap_below_an_entry_that_was_last() {
    let root = Node::Dir(
        "root",
        vec![Node::File("a"), Node::Dir("last", files(&["x", "y"]))],
    );
    let out = render(&root, 2, None, Some(3));
    assert_eq!(out.lines, ["root", "├── a", "└── last", "    ├── x"]);
    assert_eq!(out.marker, Some("    ... ".to_string()));
    assert_eq!(out.count, 3);
}

#[test]
fn total_limit_that_is_just_enough_is_no_truncation() {
    let root = Node::Dir("root", files(&["a", "b", "c"]));
    let out = render(&root, 2, None, Some(3));
    assert_eq!(out.lines, ["root", "├── a", "├── b", "└── c"]);
    assert_eq!(out.marker, None);
    assert_eq!(out.count, 3);
}

#[test]
fn total_limit_of_zero_draws_nothing() {
    let root = Node::Dir("root", files(&["a"]));
    let out = render(&root, 2, None, Some(0));
    assert_eq!(out.lines, ["root"]);
    assert_eq!(out.marker, Some("... ".to_string()));
    assert_eq!(out.count, 0);

    let out = render(&Node::Dir("root", vec![]), 2, None, Some(0));
    assert_eq!(out.marker, None);

    let out = render(&Node::Locked("root"), 2, None, Some(0));
    assert_eq!(out.lines, ["root"]);
    assert_eq!(out.marker, Some("... ".to_string()));
}

#[test]
fn count_never_exceeds_the_total_limit() {
    for total in 0..12 {
        let out = render(&sample(), 3, None, Some(total));
        assert_eq!(out.count, total.min(9));
        assert_eq!(out.lines.len(), 1 + out.count);
        assert_eq!(out.marker.is_some(), total < 9);
    }
}

#[test]
fn per_directory_limit_cuts_an_overfull_directory() {
    let root = Node::Dir("root", files(&["a", "b", "c"]));
    let out = render(&root, 2, Some(2), None);
    assert_eq!(out.lines, ["root", "├── a", "├── b"]);
    assert_eq!(out.marker, Some("... ".to_string()));
    assert_eq!(out.count, 2);
}

#[test]
fn per_directory_limit_counts_each_directory_by_itself() {
    let root = Node::Dir(
        "root",
        vec![
            Node::Dir("one", files(&["a", "b"])),
            Node::Dir("two", files(&["c", "d"])),
        ],
    );
    let out = render(&root, 2, Some(2), None);
    assert_eq!(
        out.lines,
        ["root", "├── one", "│   ├── a", "│   └── b", "└── two", "    ├── c", "    └── d"]
    );
    assert_eq!(out.marker, None);
    assert_eq!(out.count, 6);
}

#[test]
fn per_directory_limit_holds_after_coming_back_up() {
    let root = Node::Dir(
        "root",
        vec![
            Node::Dir("one", files(&["a"])),
            Node::File("two"),
            Node::File("three"),
        ],
    );
    let out = render(&root, 2, Some(2), None);
    assert_eq!(out.lines, ["root", "├── one", "│   └── a", "├── two"]);
    assert_eq!(out.marker, Some("... ".to_string()));
    assert_eq!(out.count, 3);
}

#[test]
fn per_directory_limit_cuts_inside_a_subdirectory() {
    let root = Node::Dir(
        "root",
        vec![Node::Dir("big", files(&["a", "b", "c"])), Node::File("after")],
    );
    let out = render(&root, 2, Some(2), None);
    assert_eq!(out.lines, ["root", "├── big", "│   ├── a", "│   ├── b"]);
    assert_eq!(out.marker, Some("... ... ".to_string()));
    assert_eq!(out.count, 3);
}

#[test]
fn per_directory_limit_of_zero_draws_nothing() {
    let out = render(&Node::Dir("root", files(&["a"])), 2, Some(0), None);
    assert_eq!(out.lines, ["root"]);
    assert_eq!(out.marker, Some("... ".to_string()));
    assert_eq!(out.count, 0);
}

#[test]
fn rendering_twice_gives_the_same_output() {
    for (depth, dir_len, total) in
        [(3, None, None), (2, Some(1), None), (3, None, Some(4)), (1, Some(2), Some(2))]
    {
        let first = render(&sample(), depth, dir_len, total);
        let second = render(&sample(), depth, dir_len, total);
        assert_eq!(first.lines, second.lines);
        assert_eq!(first.marker, second.marker);
        assert_eq!(first.count, second.count);
        assert_eq!(first.listed, second.listed);
    }
}

#[test]
fn renderer_that_has_ended_repeats_its_ending() {
    let (mut renderer, _) = Renderer::render_directory(configure("root", 2, None, Some(1)));
    let step = renderer.scan_directory(Some(listing(&files(&["a", "b"]))));
    assert_eq!(step.lines, ["├── a"]);
    assert!(matches!(step.next, Next::Truncated(ref marker) if marker == "... "));
    let again = renderer.scan_directory(Some(listing(&files(&["c"]))));
    assert!(again.lines.is_empty());
    assert!(matches!(again.next, Next::Truncated(ref marker) if marker == "... "));
    assert_eq!(renderer.count(), 1);

    let (mut renderer, _) = Renderer::render_directory(configure("root", 2, None, None));
    let step = renderer.scan_directory(Some(vec![]));
    assert!(matches!(step.next, Next::Complete));
    let again = renderer.scan_directory(None);
    assert!(again.lines.is_empty());
    assert!(matches!(again.next, Next::Complete));
    assert_eq!(renderer.count(), 0);
}

#[test]
fn rendering_begins_with_the_root_as_given() {
    let (renderer, step) = Renderer::render_directory(configure("./some/dir/", 1, None, None));
    assert_eq!(step.lines, ["./some/dir/"]);
    assert!(matches!(step.next, Next::List(ref path) if path.is_empty()));
    assert_eq!(renderer.count(), 0);
    assert_eq!(renderer.status(), Status::Scanning);
    assert_eq!(renderer.render_limit_reached(), "... ");
}

#[test]
fn summary_counts_the_entries_drawn() {
    let (mut renderer, _) = Renderer::render_directory(configure("root", 2, None, None));
    assert_eq!(
        renderer.render_summary("0.00"),
        "\n0 files and directories displayed in 0.00 seconds"
    );
    let names: Vec<Node> = (0..12).map(|_| Node::File("f")).collect();
    renderer.scan_directory(Some(listing(&names)));
    assert_eq!(
        renderer.render_summary("1.25"),
        "\n12 files and directories displayed in 1.25 seconds"
    );
}

/// The column of an ancestor, or of the entry's own glyph, on a line.
fn column(line: &str, k: usize) -> String {
    line.chars().skip(4 * k).take(4).collect()
}

#[test]
fn only_the_last_entry_of_a_directory_gets_the_corner() {
    for count in 1..6 {
        let names: Vec<Node> = (0..count).map(|_| Node::File("f")).collect();
        let out = render(&Node::Dir("root", names), 1, None, None);
        for (index, line) in out.lines[1..].iter().enumerate() {
            let glyph = if index + 1 == count { "└── " } else { "├── " };
            assert_eq!(column(line, 0), glyph);
        }
    }
}

#[test]
fn bar_runs_below_exactly_the_ancestors_that_are_not_last() {
    let deep = |last_outer: bool, last_inner: bool| {
        let inner = if last_inner {
            vec![Node::Dir("inner", files(&["leaf"]))]
        } else {
            vec![Node::Dir("inner", files(&["leaf"])), Node::File("after")]
        };
        let outer = if last_outer {
            vec![Node::Dir("outer", inner)]
        } else {
            vec![Node::Dir("outer", inner), Node::File("after")]
        };
        render(&Node::Dir("root", outer), 3, None, None)
    };
    for last_outer in [false, true] {
        for last_inner in [false, true] {
            let out = deep(last_outer, last_inner);
            let leaf = &out.lines[3];
            assert!(leaf.ends_with("leaf"));
            assert_eq!(column(leaf, 0), if last_outer { "    " } else { "│   " });
            assert_eq!(column(leaf, 1), if last_inner { "    " } else { "│   " });
            assert_eq!(column(leaf, 2), "└── ");
        }
    }
}

/// A straightforward recursive rendering, to hold the renderer against.
struct Plain {
    depth: usize,
    dir_len: Option<usize>,
    total: Option<usize>,
    lines: Vec<String>,
    count: usize,
    marker: Option<String>,
}

impl Plain {
    fn cut(&mut self, bars: &[bool]) -> bool {
        let mut marker = String::new();
        for &bar in bars {
            marker.push_str(if bar { "... " } else { "    " });
        }
        marker.push_str("... ");
        self.marker = Some(marker);
        false
    }

    fn scan(&mut self, node: &Node, bars: &mut Vec<bool>) -> bool {
        let entries: Vec<(&str, Option<&Node>)> = match node {
            Node::Dir(_, children) => children
                .iter()
                .map(|child| (name_of(child), (!matches!(child, Node::File(_))).then_some(child)))
                .collect(),
            Node::Locked(_) => vec![("[[RESTRICTED]]", None)],
            Node::File(_) => unreachable!(),
        };
        for (index, (name, below)) in entries.iter().enumerate() {
            if self.dir_len.is_some_and(|limit| index >= limit)
                || self.total.is_some_and(|limit| self.count >= limit)
            {
                return self.cut(bars);
            }
            let last = index + 1 == entries.len();
            let mut line = String::new();
            for &bar in bars.iter() {
                line.push_str(if bar { "│   " } else { "    " });
            }
            line.push_str(if last { "└── " } else { "├── " });
            line.push_str(name);
            if below.is_some() && bars.len() + 1 == self.depth {
                line.push_str(" ...");
            }
            self.lines.push(line);
            self.count += 1;
            if let Some(below) = below {
                if bars.len() + 1 < self.depth {
                    bars.push(!last);
                    let whole = self.scan(below, bars);
                    bars.pop();
                    if !whole {
                        return false;
                    }
                }
            }
        }
        true
    }
}

fn render_plainly(
    root: &Node,
    depth: usize,
    dir_len: Option<usize>,
    total: Option<usize>,
) -> Plain {
    let mut plain =
        Plain { depth, dir_len, total, lines: vec![name_of(root).to_string()], count: 0, marker: None };
    plain.scan(root, &mut Vec::new());
    plain
}

/// A small generator of numbers that look random and are always the same.
struct Dice(u64);

impl Dice {
    fn roll(&mut self, sides: u64) -> u64 {
        self.0 = self.0.wrapping_mul(6364136223846793005).wrapping_add(1442695040888963407);
        (self.0 >> 33) % sides
    }
}

const NAMES: [&str; 6] = ["a", "b", "c", "d", "e", "f"];

fn grow(dice: &mut Dice, height: u64) -> Vec<Node> {
    let count = dice.roll(5);
    (0..count)
        .map(|index| {
            let name = NAMES[index as usize];
            match dice.roll(if height == 0 { 1 } else { 4 }) {
                0 | 1 => Node::File(name),
                2 => Node::Dir(name, grow(dice, height - 1)),
                _ => Node::Locked(name),
            }
        })
        .collect()
}

#[test]
fn renderer_agrees_with_a_plain_recursive_rendering() {
    let mut dice = Dice(2024);
    for _ in 0..300 {
        let root = Node::Dir("root", grow(&mut dice, 3));
        let depth = 1 + dice.roll(4) as usize;
        let dir_len = match dice.roll(3) {
            0 => None,
            _ => Some(dice.roll(5) as usize),
        };
        let total = match dice.roll(3) {
            0 => None,
            _ => Some(dice.roll(12) as usize),
        };
        let out = render(&root, depth, dir_len, total);
        let plain = render_plainly(&root, depth, dir_len, total);
        assert_eq!(out.lines, plain.lines);
        assert_eq!(out.marker, plain.marker);
        assert_eq!(out.count, plain.count);
    }
}
