//! The configuration of a run, and how it is read from the command line.
//!
//! Reading the arguments needs a few facts about the machine: which of the
//! arguments name directories that can be listed, and what the message
//! files hold. The caller looks these up and hands them over in a
//! [`Host`]; the parser itself touches nothing.

use vstd::prelude::*;
use vstd::string::*;

use crate::layout::texts;
use crate::text::{dashed, number, parse_number, replace, replaced, same, starts_with_dash};

verus! {

/// A configuration as the contracts see it.
pub enum ConfigView {
    Render {
        root_dir: Seq<char>,
        max_depth: nat,
        dir_len_limit: Option<nat>,
        total_len_limit: Option<nat>,
    },
    Message(Seq<char>),
    Error(Seq<char>),
}

/// What the parser needs to know of the machine it runs on.
#[derive(Clone, Debug, PartialEq, Eq)]
pub struct Host {
    /// The arguments that name a directory that can be listed.
    pub directories: Vec<String>,
    /// What the help file holds, if it can be read.
    pub help_text: Option<String>,
    /// What the version file holds, if it can be read.
    pub version_text: Option<String>,
    /// The version of the package, if the environment tells it.
    pub package_version: Option<String>,
}

/// A host as the contracts see it.
pub struct HostView {
    pub directories: Seq<Seq<char>>,
    pub help_text: Option<Seq<char>>,
    pub version_text: Option<Seq<char>>,
    pub package_version: Option<Seq<char>>,
}

/// A text that may be missing, as the contracts see it.
pub open spec fn text_of(text: Option<String>) -> Option<Seq<char>> {
    match text {
        Some(t) => Some(t@),
        None => None,
    }
}

/// A limit that may be missing, as the contracts see it.
pub open spec fn limit_of(size: Option<usize>) -> Option<nat> {
    match size {
        Some(n) => Some(n as nat),
        None => None,
    }
}

impl View for Host {
    type V = HostView;

    open spec fn view(&self) -> HostView {
        HostView {
            directories: texts(self.directories@),
            help_text: text_of(self.help_text),
            version_text: text_of(self.version_text),
            package_version: text_of(self.package_version),
        }
    }
}

/// What is said of a directory that cannot be listed.
pub open spec fn missing_directory(dir: Seq<char>) -> Seq<char> {
    "The directory `"@ + dir + "` does not exist."@
}

/// What is said of a tag that is none of `-D`, `-L`, `-T`.
pub open spec fn invalid_tag(tag: Seq<char>) -> Seq<char> {
    "The tag `"@ + tag + "` is invalid."@
}

/// What is said of a tag that ends the arguments.
pub open spec fn no_value(tag: Seq<char>) -> Seq<char> {
    "No value after tag `"@ + tag + "`."@
}

/// What is said of a value that is no number.
pub open spec fn invalid_value(value: Seq<char>, tag: Seq<char>) -> Seq<char> {
    "Invalid value `"@ + value + "` after tag `"@ + tag + "`"@
}

/// What is said of a second directory among the arguments.
pub open spec fn too_many_directories() -> Seq<char> {
    "The arguments can only contain up to one base directory."@
}

/// What is said where a limit is set on a configuration that renders
/// nothing.
pub open spec fn not_rendering() -> Seq<char> {
    "Tried to set the max depth while the Config was not in Render mode."@
}

/// What is said where a root directory is set on a configuration that
/// renders nothing.
pub open spec fn not_rendering_root() -> Seq<char> {
    "Tried to set the root directory while the Config was not in Render mode."@
}

/// The help message: what the help file holds, or a stand-in.
pub open spec fn help_message(text: Option<Seq<char>>) -> Seq<char> {
    match text {
        Some(t) => t,
        None => "Error help version message."@,
    }
}

/// The version message: what the version file holds, or a stand-in, with
/// the package's version and the day filled in.
pub open spec fn version_message(
    text: Option<Seq<char>>,
    version: Seq<char>,
    build_time: Seq<char>,
) -> Seq<char> {
    let message = match text {
        Some(t) => t,
        None => "Error reading version message."@,
    };
    replaced(replaced(message, "<version>"@, version), "<build_time>"@, build_time)
}

/// Whether a character can stand in a date: a digit, a dash or a plus sign.
pub open spec fn date_char(c: char) -> bool {
    '0' <= c <= '9' || c == '-' || c == '+'
}

/// Whether a text is written with the characters of a date alone.
pub open spec fn is_date(text: Seq<char>) -> bool {
    forall|i: int| 0 <= i < text.len() ==> date_char(#[trigger] text[i])
}

/// The text is the host's version message for some day.
pub open spec fn dated_version_message(host: HostView, text: Seq<char>) -> bool {
    exists|date: Seq<char>|
        is_date(date) && text == #[trigger] version_message(
            host.version_text,
            host.package_version->0,
            date,
        )
}

/// Whether an argument is one of the three tags.
pub open spec fn is_tag(tag: Seq<char>) -> bool {
    tag == "-D"@ || tag == "-L"@ || tag == "-T"@
}

impl ConfigView {
    /// The configuration that renders the current directory two levels
    /// deep.
    pub open spec fn initial() -> ConfigView {
        ConfigView::Render {
            root_dir: "."@,
            max_depth: 2,
            dir_len_limit: None,
            total_len_limit: None,
        }
    }

    /// The configuration with another root directory, if it renders.
    pub open spec fn with_root_dir(self, dir: Seq<char>) -> ConfigView {
        match self {
            ConfigView::Render {
                root_dir,
                max_depth,
                dir_len_limit,
                total_len_limit,
            } => ConfigView::Render {
                root_dir: dir,
                max_depth,
                dir_len_limit,
                total_len_limit,
            },
            _ => self,
        }
    }

    /// The configuration with another depth limit, if it renders.
    pub open spec fn with_max_depth(self, depth: nat) -> ConfigView {
        match self {
            ConfigView::Render {
                root_dir,
                max_depth,
                dir_len_limit,
                total_len_limit,
            } => ConfigView::Render {
                root_dir,
                max_depth: depth,
                dir_len_limit,
                total_len_limit,
            },
            _ => self,
        }
    }

    /// The configuration with another limit per directory, if it renders.
    pub open spec fn with_dir_len_limit(self, limit: Option<nat>) -> ConfigView {
        match self {
            ConfigView::Render {
                root_dir,
                max_depth,
                dir_len_limit,
                total_len_limit,
            } => ConfigView::Render {
                root_dir,
                max_depth,
                dir_len_limit: limit,
                total_len_limit,
            },
            _ => self,
        }
    }

    /// The configuration with another limit on the total, if it renders.
    pub open spec fn with_total_len_limit(self, limit: Option<nat>) -> ConfigView {
        match self {
            ConfigView::Render {
                root_dir,
                max_depth,
                dir_len_limit,
                total_len_limit,
            } => ConfigView::Render {
                root_dir,
                max_depth,
                dir_len_limit,
                total_len_limit: limit,
            },
            _ => self,
        }
    }

    /// The configuration after a tag has set one of its limits.
    pub open spec fn with_tag(self, tag: Seq<char>, value: nat) -> ConfigView {
        if tag == "-D"@ {
            self.with_max_depth(value)
        } else if tag == "-L"@ {
            self.with_dir_len_limit(Some(value))
        } else {
            self.with_total_len_limit(Some(value))
        }
    }

    /// What a tag and the argument behind it do to a configuration.
    pub open spec fn tagged(self, tag: Seq<char>, value: Option<Seq<char>>) -> Result<
        ConfigView,
        Seq<char>,
    > {
        if !is_tag(tag) {
            Err(invalid_tag(tag))
        } else {
            match value {
                None => Err(no_value(tag)),
                Some(text) => match number(text) {
                    None => Err(invalid_value(text, tag)),
                    Some(n) => if self is Render {
                        Ok(self.with_tag(tag, n))
                    } else {
                        Err(not_rendering())
                    },
                },
            }
        }
    }

    /// What setting a root directory does to a configuration, given whether
    /// the directory can be listed.
    pub open spec fn rooted(self, dir: Seq<char>, exists: bool) -> Result<ConfigView, Seq<char>> {
        if !exists {
            Err(missing_directory(dir))
        } else if self is Render {
            Ok(self.with_root_dir(dir))
        } else {
            Err(not_rendering_root())
        }
    }
}

/// The argument at a place, if there is one.
pub open spec fn argument(args: Seq<Seq<char>>, at: int) -> Option<Seq<char>> {
    if 0 <= at < args.len() {
        Some(args[at])
    } else {
        None
    }
}

/// The configuration that the arguments from `at` on make of `config`,
/// when `found` directories stand before them. An argument without a dash
/// in front is the root directory; one with a dash is a tag and takes the
/// argument behind it as its value. The first fault ends the reading.
pub open spec fn parsed_from(
    args: Seq<Seq<char>>,
    directories: Seq<Seq<char>>,
    at: int,
    config: ConfigView,
    found: nat,
) -> ConfigView
    decreases args.len() - at,
{
    if at < 0 || at >= args.len() {
        config
    } else if !dashed(args[at]) {
        match config.rooted(args[at], directories.contains(args[at])) {
            Err(error) => ConfigView::Error(error),
            Ok(next) => if found >= 1 {
                ConfigView::Error(too_many_directories())
            } else {
                parsed_from(args, directories, at + 1, next, found + 1)
            },
        }
    } else {
        match config.tagged(args[at], argument(args, at + 1)) {
            Err(error) => ConfigView::Error(error),
            Ok(next) => parsed_from(args, directories, at + 2, next, found),
        }
    }
}

/// Whether the arguments ask for the version message.
pub open spec fn asks_version(args: Seq<Seq<char>>) -> bool {
    args.len() > 1 && args[1] == "--version"@
}

/// The configuration that the arguments stand for, unless they ask for the
/// version message. The first argument is the program's own name.
pub open spec fn parsed(args: Seq<Seq<char>>, host: HostView) -> ConfigView {
    if args.len() > 1 && args[1] == "--help"@ {
        ConfigView::Message(help_message(host.help_text))
    } else {
        parsed_from(args, host.directories, 1, ConfigView::initial(), 0)
    }
}


/// What a run is to do: render a directory, print a message, or report an
/// error in the arguments.
#[derive(Debug, PartialEq)]
pub struct Config {
    mode: Mode,
}

#[derive(Debug, PartialEq)]
enum Mode {
    Render {
        root_dir: String,
        max_depth: usize,
        dir_len_limit: Option<usize>,
        total_len_limit: Option<usize>,
    },
    Message(String),
    Error(String),
}

impl View for Config {
    type V = ConfigView;

    closed spec fn view(&self) -> ConfigView {
        match self.mode {
            Mode::Render {
                root_dir,
                max_depth,
                dir_len_limit,
                total_len_limit,
            } => ConfigView::Render {
                root_dir: root_dir@,
                max_depth: max_depth as nat,
                dir_len_limit: limit_of(dir_len_limit),
                total_len_limit: limit_of(total_len_limit),
            },
            Mode::Message(message) => ConfigView::Message(message@),
            Mode::Error(error) => ConfigView::Error(error@),
        }
    }
}

/// Three pieces of text in a row.
fn joined(first: &str, second: &str, third: &str) -> (text: String)
    ensures
        text@ == first@ + second@ + third@,
{
    let mut text = String::from_str(first);
    text.append(second);
    text.append(third);
    text
}

/// Today's date in UTC as text, from
/// `chrono::offset::Utc::now().date_naive().to_string()`. The text depends
/// on the clock, so nothing is said of which day it names: only that it is
/// written with digits, dashes and, for a year past 9999, a plus sign.
/// This is taken on trust from chrono, not proved. The call panics where
/// the clock stands before 1970 or beyond the years that chrono holds.
#[verifier::external_body]
fn today() -> (date: String)
    ensures
        is_date(date@),
{
    chrono::offset::Utc::now().date_naive().to_string()
}

impl Host {
    /// Whether the name is that of a directory that can be listed.
    pub fn knows(&self, name: &str) -> (r: bool)
        ensures
            r == self@.directories.contains(name@),
    {
        let mut k: usize = 0;
        while k < self.directories.len()
            invariant
                k <= self.directories@.len(),
                forall|j: int| 0 <= j < k ==> self@.directories[j] != name@,
            decreases self.directories@.len() - k,
        {
            if same(self.directories[k].as_str(), name) {
                assert(self@.directories[k as int] == name@);
                return true;
            }
            k += 1;
        }
        false
    }
}

impl Config {
    /// The configuration that renders the current directory two levels
    /// deep.
    pub fn new() -> (config: Self)
        ensures
            config@ == ConfigView::initial(),
    {
        Self {
            mode: Mode::Render {
                root_dir: String::from_str("."),
                max_depth: 2,
                dir_len_limit: None,
                total_len_limit: None,
            },
        }
    }

    /// The configuration that prints a message.
    pub fn new_message(message: String) -> (config: Self)
        ensures
            config@ == ConfigView::Message(message@),
    {
        Self { mode: Mode::Message(message) }
    }

    /// The configuration that reports an error.
    pub fn new_error(error: String) -> (config: Self)
        ensures
            config@ == ConfigView::Error(error@),
    {
        Self { mode: Mode::Error(error) }
    }

    /// Whether the arguments ask for the version message, which only a
    /// host that knows the package's version can give.
    pub fn wants_version(args: &Vec<String>) -> (r: bool)
        ensures
            r == asks_version(texts(args@)),
    {
        args.len() > 1 && same(args[1].as_str(), "--version")
    }

    /// Reads the command line. The first argument is the program's own
    /// name; `--help` or `--version` behind it asks for a message;
    /// otherwise the arguments are read one after another, and the first
    /// fault makes the configuration an error.
    ///
    /// The version message holds today's date, which the clock decides.
    pub fn from(args: Vec<String>, host: &Host) -> (config: Self)
        requires
            args@.len() >= 1,
            asks_version(texts(args@)) ==> host@.package_version is Some,
        ensures
            !asks_version(texts(args@)) ==> config@ == parsed(texts(args@), host@),
            asks_version(texts(args@)) ==> (config@ matches ConfigView::Message(message)
                && dated_version_message(host@, message)),
    {
        Self::parse_config(args, host)
    }

    /// Reads the arguments: a message where the second one asks for it,
    /// else the default configuration changed by each argument in turn.
    fn parse_config(args: Vec<String>, host: &Host) -> (config: Self)
        requires
            args@.len() >= 1,
            asks_version(texts(args@)) ==> host@.package_version is Some,
        ensures
            !asks_version(texts(args@)) ==> config@ == parsed(texts(args@), host@),
            asks_version(texts(args@)) ==> (config@ matches ConfigView::Message(message)
                && dated_version_message(host@, message)),
    {
        if args.len() > 1 {
            if same(args[1].as_str(), "--help") {
                proof {
                    reveal_strlit("--help");
                    reveal_strlit("--version");
                    assert("--help"@[2] != "--version"@[2]);
                }
                return Self::new_message(Self::get_help_message(host));
            }
            if same(args[1].as_str(), "--version") {
                return Self::new_message(Self::get_version_message(host));
            }
        }
        let mut config = Self::new();
        let mut directories_contained_in_args: usize = 0;
        let mut at: usize = 1;
        let ghost goal = parsed(texts(args@), host@);
        while at < args.len()
            invariant
                1 <= at,
                directories_contained_in_args <= 1,
                config@ is Render,
                !asks_version(texts(args@)),
                goal == parsed(texts(args@), host@),
                parsed_from(
                    texts(args@),
                    host@.directories,
                    at as int,
                    config@,
                    directories_contained_in_args as nat,
                ) == goal,
            decreases args@.len() - at,
        {
            let arg = args[at].as_str();
            let result = if !starts_with_dash(arg) {
                directories_contained_in_args += 1;
                let exists = host.knows(arg);
                at += 1;
                config.set_root_dir(arg.to_owned(), exists)
            } else {
                let outcome = if at + 1 < args.len() {
                    config.parse_tag_and_value(arg, Some(args[at + 1].as_str()))
                } else {
                    config.parse_tag_and_value(arg, None)
                };
                at = if at + 1 < args.len() {
                    at + 2
                } else {
                    at + 1
                };
                outcome
            };
            if let Err(error) = result {
                return Self::new_error(error);
            }
            if directories_contained_in_args > 1 {
                return Self::new_error(
                    String::from_str("The arguments can only contain up to one base directory."),
                );
            }
        }
        config
    }

    /// Sets one of the limits from a tag and the argument behind it, if
    /// there is one.
    fn parse_tag_and_value(&mut self, tag: &str, value: Option<&str>) -> (r: Result<(), String>)
        ensures
            match old(self)@.tagged(
                tag@,
                match value {
                    Some(text) => Some(text@),
                    None => None,
                },
            ) {
                Ok(next) => r is Ok && final(self)@ == next,
                Err(error) => r matches Err(e) && e@ == error && final(self)@ == old(self)@,
            },
    {
        if !(same(tag, "-D") || same(tag, "-L") || same(tag, "-T")) {
            return Err(joined("The tag `", tag, "` is invalid."));
        }
        let value = match value {
            Some(value) => value,
            None => {
                return Err(joined("No value after tag `", tag, "`."));
            },
        };
        let number = match parse_number(value) {
            Some(number) => number,
            None => {
                let mut error = joined("Invalid value `", value, "` after tag `");
                error.append(tag);
                error.append("`");
                return Err(error);
            },
        };
        if same(tag, "-D") {
            self.set_max_depth(number)
        } else if same(tag, "-L") {
            self.set_dir_len_limit(Some(number))
        } else {
            self.set_total_len_limit(Some(number))
        }
    }

    /// The directory to render, if the configuration renders.
    pub fn get_root_dir(&self) -> (r: Option<String>)
        ensures
            match self@ {
                ConfigView::Render { root_dir, .. } => r matches Some(dir) && dir@ == root_dir,
                _ => r is None,
            },
    {
        match &self.mode {
            Mode::Render { root_dir, .. } => Some(root_dir.clone()),
            _ => None,
        }
    }

    /// Makes a directory the root of the rendering, given whether it can be
    /// listed.
    pub fn set_root_dir(&mut self, new_root_dir: String, exists: bool) -> (r: Result<(), String>)
        ensures
            match old(self)@.rooted(new_root_dir@, exists) {
                Ok(next) => r is Ok && final(self)@ == next,
                Err(error) => r matches Err(e) && e@ == error && final(self)@ == old(self)@,
            },
    {
        if !exists {
            return Err(joined("The directory `", new_root_dir.as_str(), "` does not exist."));
        }
        match &mut self.mode {
            Mode::Render { root_dir, .. } => {
                *root_dir = new_root_dir;
                Ok(())
            },
            _ => Err(
                String::from_str(
                    "Tried to set the root directory while the Config was not in Render mode.",
                ),
            ),
        }
    }

    /// The depth limit, if the configuration renders.
    pub fn get_max_depth(&self) -> (r: Option<usize>)
        ensures
            match self@ {
                ConfigView::Render { max_depth, .. } => r matches Some(depth) && depth == max_depth,
                _ => r is None,
            },
    {
        match &self.mode {
            Mode::Render { max_depth, .. } => Some(*max_depth),
            _ => None,
        }
    }

    /// Sets the depth limit of a configuration that renders.
    pub fn set_max_depth(&mut self, new_depth: usize) -> (r: Result<(), String>)
        ensures
            final(self)@ == old(self)@.with_max_depth(new_depth as nat),
            r is Ok <==> old(self)@ is Render,
            r matches Err(e) ==> e@ == not_rendering(),
    {
        match &mut self.mode {
            Mode::Render { max_depth, .. } => {
                *max_depth = new_depth;
                Ok(())
            },
            _ => Err(
                String::from_str(
                    "Tried to set the max depth while the Config was not in Render mode.",
                ),
            ),
        }
    }

    /// The limit per directory, if the configuration renders and has one.
    pub fn get_dir_len_limit(&self) -> (r: Option<usize>)
        ensures
            match self@ {
                ConfigView::Render { dir_len_limit, .. } => limit_of(r) == dir_len_limit,
                _ => r is None,
            },
    {
        match &self.mode {
            Mode::Render { dir_len_limit, .. } => *dir_len_limit,
            _ => None,
        }
    }

    /// Sets or lifts the limit per directory of a configuration that
    /// renders.
    pub fn set_dir_len_limit(&mut self, new_dir_len_limit: Option<usize>) -> (r: Result<
        (),
        String,
    >)
        ensures
            final(self)@ == old(self)@.with_dir_len_limit(limit_of(new_dir_len_limit)),
            r is Ok <==> old(self)@ is Render,
            r matches Err(e) ==> e@ == not_rendering(),
    {
        match &mut self.mode {
            Mode::Render { dir_len_limit, .. } => {
                *dir_len_limit = new_dir_len_limit;
                Ok(())
            },
            _ => Err(
                String::from_str(
                    "Tried to set the max depth while the Config was not in Render mode.",
                ),
            ),
        }
    }

    /// The limit on the total, if the configuration renders and has one.
    pub fn get_total_len_limit(&self) -> (r: Option<usize>)
        ensures
            match self@ {
                ConfigView::Render { total_len_limit, .. } => limit_of(r) == total_len_limit,
                _ => r is None,
            },
    {
        match &self.mode {
            Mode::Render { total_len_limit, .. } => *total_len_limit,
            _ => None,
        }
    }

    /// Sets or lifts the limit on the total of a configuration that
    /// renders.
    pub fn set_total_len_limit(&mut self, new_total_len_limit: Option<usize>) -> (r: Result<
        (),
        String,
    >)
        ensures
            final(self)@ == old(self)@.with_total_len_limit(limit_of(new_total_len_limit)),
            r is Ok <==> old(self)@ is Render,
            r matches Err(e) ==> e@ == not_rendering(),
    {
        match &mut self.mode {
            Mode::Render { total_len_limit, .. } => {
                *total_len_limit = new_total_len_limit;
                Ok(())
            },
            _ => Err(
                String::from_str(
                    "Tried to set the max depth while the Config was not in Render mode.",
                ),
            ),
        }
    }

    /// The message to print, if that is what the configuration holds.
    pub fn get_message(&self) -> (r: Option<String>)
        ensures
            match self@ {
                ConfigView::Message(message) => r matches Some(text) && text@ == message,
                _ => r is None,
            },
    {
        match &self.mode {
            Mode::Message(message) => Some(message.clone()),
            _ => None,
        }
    }

    /// The error to report, if that is what the configuration holds.
    pub fn get_error(&self) -> (r: Option<String>)
        ensures
            match self@ {
                ConfigView::Error(error) => r matches Some(text) && text@ == error,
                _ => r is None,
            },
    {
        match &self.mode {
            Mode::Error(error) => Some(error.clone()),
            _ => None,
        }
    }

    /// The help message: what the help file holds, or a stand-in where it
    /// could not be read.
    pub fn get_help_message(host: &Host) -> (message: String)
        ensures
            message@ == help_message(host@.help_text),
    {
        match &host.help_text {
            Some(text) => text.clone(),
            None => String::from_str("Error help version message."),
        }
    }

    /// The version message: what the version file holds, or a stand-in
    /// where it could not be read, with the package's version in place of
    /// every `<version>` and today's date in place of every `<build_time>`.
    pub fn get_version_message(host: &Host) -> (message: String)
        requires
            host@.package_version is Some,
        ensures
            dated_version_message(host@, message@),
    {
        let version = match &host.package_version {
            Some(version) => version.as_str(),
            None => "",
        };
        let build_time = today();
        let message = match &host.version_text {
            Some(text) => text.clone(),
            None => String::from_str("Error reading version message."),
        };
        proof {
            reveal_strlit("<version>");
            reveal_strlit("<build_time>");
        }
        let with_version = replace(message.as_str(), "<version>", version);
        let filled = replace(with_version.as_str(), "<build_time>", build_time.as_str());
        assert(filled@ == version_message(host@.version_text, host@.package_version->0, build_time@));
        filled
    }
}

} // verus!
