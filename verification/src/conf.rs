//! The logging configuration: where logs go, at which levels, and how a
//! configuration reads as text.
use std::collections::BTreeMap;
use vstd::prelude::*;
use crate::level::{entries_view, keys_ascending, lists_pairs};

verus! {

/// The outside error type that `str::parse` reports for a `LogConf`; it is
/// carried through opaquely and never built here.
#[verifier::external_type_specification]
#[verifier::external_body]
pub struct ExAnyhowError(anyhow::Error);

/// Name of the environment variable that switches on metric printing.
pub const PRINT_STAT: &'static str = "PRINT_STAT";

/// Where log records are written.
#[derive(Clone, Copy, Debug, PartialEq, Eq, Structural)]
pub enum Output {
    Console,
    File,
    Both,
}

/// Directory settings for file output.
#[derive(Clone, Debug, PartialEq)]
pub struct FileLogConf {
    /// The log directory; the file name derives from the program's name.
    pub path: String,
}

/// A logging policy.
#[derive(Clone, Debug, PartialEq)]
pub struct LogConf {
    /// The level specification, such as `"warn,ctrl=info,data=debug"`.
    pub level: String,
    /// Structured per-target levels (`target -> level name`), overriding the
    /// level specification; the key `global` sets the root level, and an
    /// entry whose level name is unknown is skipped. Shown in place of
    /// `level` when present.
    pub levels: Option<BTreeMap<String, String>>,
    /// Where records go.
    pub output: Output,
    /// Directory settings, used when `output` includes a file.
    pub file: Option<FileLogConf>,
}

/// The name of an output, as it is shown and serialized.
pub open spec fn output_name(o: Output) -> Seq<char> {
    match o {
        Output::Console => "Console"@,
        Output::File => "File"@,
        Output::Both => "Both"@,
    }
}

/// Name for what `format!("{:?}", s)` gives for a text `s`: the text quoted
/// and escaped as Rust's `Debug` for `str` does.
pub uninterp spec fn str_debug(s: Seq<char>) -> Seq<char>;

/// `Debug` text of a string slice, through `format!("{:?}", ..)`; the result
/// is claimed to be `str_debug` of the text and nothing more.
#[verifier::external_body]
fn debug_str(s: &str) -> (r: String)
    ensures
        r@ == str_debug(s@),
{
    format!("{:?}", s)
}

/// Name for the sequence of `(key, value)` pairs, taken as texts, that
/// `BTreeMap::iter` yields for a map of strings whose contents are `m`.
pub uninterp spec fn btree_entries(m: Map<Seq<char>, Seq<char>>) -> Seq<(Seq<char>, Seq<char>)>;

/// The entries of a map of strings, through `BTreeMap::iter` with each key
/// and value cloned; the result is claimed to be `btree_entries` of the
/// map's contents, to list every pair of the map with each key once, and to
/// be sorted by key, as the documentation of `iter` says (strings order by
/// their bytes, which follows the code points).
#[verifier::external_body]
pub(crate) fn level_entries(m: &BTreeMap<String, String>) -> (r: Vec<(String, String)>)
    ensures
        entries_view(r@) == btree_entries(m.deep_view()),
        lists_pairs(entries_view(r@), m.deep_view()),
        keys_ascending(entries_view(r@)),
{
    m.iter().map(|(k, v)| (k.clone(), v.clone())).collect()
}

/// The items of a map's `Debug` text: `key: value` for each pair, both in
/// their `Debug` form, separated by `, `.
pub open spec fn map_debug_items(entries: Seq<(Seq<char>, Seq<char>)>) -> Seq<char>
    decreases entries.len(),
{
    if entries.len() == 0 {
        Seq::empty()
    } else {
        let item = str_debug(entries.last().0) + ": "@ + str_debug(entries.last().1);
        if entries.len() == 1 {
            item
        } else {
            map_debug_items(entries.drop_last()) + ", "@ + item
        }
    }
}

/// The `Debug` text of a map whose pairs, in iteration order, are
/// `entries` (what `format!("{:?}", ..)` gives for a `BTreeMap`): its items
/// between braces.
pub open spec fn map_debug(entries: Seq<(Seq<char>, Seq<char>)>) -> Seq<char> {
    "{"@ + map_debug_items(entries) + "}"@
}

/// The `Debug` text of a map of strings, built from its pairs in order.
fn debug_map(entries: &Vec<(String, String)>) -> (r: String)
    ensures
        r@ == map_debug(entries_view(entries@)),
{
    let ghost ev = entries_view(entries@);
    let mut items = String::new();
    let mut i: usize = 0;
    proof {
        assert(ev.take(0) =~= Seq::<(Seq<char>, Seq<char>)>::empty());
    }
    while i < entries.len()
        invariant
            i <= entries@.len(),
            ev == entries_view(entries@),
            ev.len() == entries@.len(),
            items@ == map_debug_items(ev.take(i as int)),
        decreases entries.len() - i,
    {
        proof {
            assert(ev.take(i + 1).drop_last() =~= ev.take(i as int));
            assert(ev.take(i + 1).last() == ev[i as int]);
        }
        if i > 0 {
            items.append(", ");
        }
        let k = debug_str(entries[i].0.as_str());
        let v = debug_str(entries[i].1.as_str());
        items.append(k.as_str());
        items.append(": ");
        items.append(v.as_str());
        proof {
            if i == 0 {
                assert(items@ =~= str_debug(ev[0].0) + ": "@ + str_debug(ev[0].1));
            } else {
                assert(items@ =~= map_debug_items(ev.take(i as int)) + ", "@ + (str_debug(
                    ev[i as int].0,
                ) + ": "@ + str_debug(ev[i as int].1)));
            }
        }
        i = i + 1;
    }
    proof {
        assert(ev.take(entries@.len() as int) =~= ev);
    }
    let mut out = String::from_str("{");
    out.append(items.as_str());
    out.append("}");
    out
}

impl Output {
    /// The output's name: `Console`, `File` or `Both`.
    pub fn to_string(&self) -> (r: String)
        ensures
            r@ == output_name(*self),
    {
        match self {
            Output::Console => String::from_str("Console"),
            Output::File => String::from_str("File"),
            Output::Both => String::from_str("Both"),
        }
    }
}

/// The level specification of the default configuration.
pub open spec fn default_level_text() -> Seq<char> {
    "warn,ctrl=info,launch=info,source=info,sink=info,stat=info,runtime=warn,oml=warn,wpl=warn,klib=warn,orion_error=error,orion_sens=warn"@
}

impl Default for LogConf {
    /// The production default: a warn-level root with info for the control
    /// and data-plane targets, written to files under `./data/logs/`.
    fn default() -> (r: Self)
        ensures
            r.level@ == default_level_text(),
            r.levels is None,
            r.output == Output::File,
            r.file matches Some(f) && f.path@ == "./data/logs/"@,
    {
        LogConf {
            level: String::from_str(
                "warn,ctrl=info,launch=info,source=info,sink=info,stat=info,runtime=warn,oml=warn,wpl=warn,klib=warn,orion_error=error,orion_sens=warn",
            ),
            levels: None,
            output: Output::File,
            file: Some(FileLogConf { path: String::from_str("./data/logs/") }),
        }
    }
}

impl std::str::FromStr for LogConf {
    type Err = anyhow::Error;

    /// A file configuration under `./logs` whose level specification is the
    /// given text; it never fails.
    fn from_str(debug: &str) -> (r: Result<Self, Self::Err>)
        ensures
            r matches Ok(c) && c.level@ == debug@ && c.levels is None && c.output == Output::File
                && (c.file matches Some(f) && f.path@ == "./logs"@),
    {
        Ok(LogConf::from_level(debug))
    }
}

impl LogConf {
    /// The configuration that `str::parse` gives: the level specification
    /// `debug`, file output under `./logs`, no structured levels.
    pub fn from_level(debug: &str) -> (r: Self)
        ensures
            r.level@ == debug@,
            r.levels is None,
            r.output == Output::File,
            r.file matches Some(f) && f.path@ == "./logs"@,
    {
        LogConf {
            level: String::from_str(debug),
            levels: None,
            output: Output::File,
            file: Some(FileLogConf { path: String::from_str("./logs") }),
        }
    }

    /// A console-only configuration with the level specification `debug`.
    pub fn log_to_console(debug: &str) -> (r: Self)
        ensures
            r.level@ == debug@,
            r.levels is None,
            r.output == Output::Console,
            r.file is None,
    {
        LogConf { level: String::from_str(debug), levels: None, output: Output::Console, file: None }
    }

    /// The level specification.
    pub fn level(&self) -> (r: &String)
        ensures
            *r == self.level,
    {
        &self.level
    }

    /// The structured per-target levels.
    pub fn levels(&self) -> (r: &Option<BTreeMap<String, String>>)
        ensures
            *r == self.levels,
    {
        &self.levels
    }

    /// Where records go.
    pub fn output(&self) -> (r: &Output)
        ensures
            *r == self.output,
    {
        &self.output
    }

    /// The file settings.
    pub fn file(&self) -> (r: &Option<FileLogConf>)
        ensures
            *r == self.file,
    {
        &self.file
    }

    /// The same configuration with another output.
    pub fn with_output(self, output: Output) -> (r: Self)
        ensures
            r.output == output,
            r.level == self.level,
            r.levels == self.levels,
            r.file == self.file,
    {
        LogConf { output, ..self }
    }

    /// The text that describes the configuration: the structured levels if
    /// present, otherwise the level specification; then the output; then
    /// the directory as an optional string.
    pub open spec fn display_text(&self) -> Seq<char> {
        let head = match self.levels {
            Some(m) => "levels: "@ + map_debug(btree_entries(m.deep_view())),
            None => "level: "@ + self.level@,
        };
        let path = match self.file {
            Some(f) => "Some("@ + str_debug(f.path@) + ")"@,
            None => "None"@,
        };
        head + "\n"@ + "output: "@ + output_name(self.output) + "\n"@ + "path: "@ + path + "\n"@
    }

    /// The configuration as text, one setting per line.
    pub fn to_string(&self) -> (r: String)
        ensures
            r@ == self.display_text(),
            self.levels matches Some(m) ==> lists_pairs(btree_entries(m.deep_view()), m.deep_view())
                && keys_ascending(btree_entries(m.deep_view())),
    {
        let mut out = String::new();
        match &self.levels {
            Some(map) => {
                out.append("levels: ");
                let entries = level_entries(map);
                let d = debug_map(&entries);
                out.append(d.as_str());
            },
            None => {
                out.append("level: ");
                out.append(self.level.as_str());
            },
        }
        out.append("\n");
        out.append("output: ");
        let o = self.output.to_string();
        out.append(o.as_str());
        out.append("\n");
        out.append("path: ");
        match &self.file {
            Some(f) => {
                out.append("Some(");
                let d = debug_str(f.path.as_str());
                out.append(d.as_str());
                out.append(")");
            },
            None => {
                out.append("None");
            },
        }
        out.append("\n");
        out
    }
}

/// The first line of a configuration's text shows its level setting in
/// full: without structured levels it is `level: ` followed by the whole
/// level specification, unchanged (commas included); with them it begins
/// with `levels: `. The text ends with the line that shows the directory.
pub proof fn law_display_first_line(c: &LogConf)
    ensures
        c.levels is None ==> exists|rest: Seq<char>|
            c.display_text() == "level: "@ + c.level@ + "\n"@ + rest,
        c.levels is Some ==> exists|rest: Seq<char>| c.display_text() == "levels: "@ + rest,
        exists|front: Seq<char>|
            c.display_text() == front + "path: "@ + (match c.file {
                Some(f) => "Some("@ + str_debug(f.path@) + ")"@,
                None => "None"@,
            }) + "\n"@,
{
    let path = match c.file {
        Some(f) => "Some("@ + str_debug(f.path@) + ")"@,
        None => "None"@,
    };
    let tail = "output: "@ + output_name(c.output) + "\n"@ + "path: "@ + path + "\n"@;
    match c.levels {
        Some(m) => {
            let rest = map_debug(btree_entries(m.deep_view())) + "\n"@ + tail;
            assert(c.display_text() =~= "levels: "@ + rest);
            let front = "levels: "@ + map_debug(btree_entries(m.deep_view())) + "\n"@ + "output: "@
                + output_name(c.output) + "\n"@;
            assert(c.display_text() =~= front + "path: "@ + path + "\n"@);
        },
        None => {
            assert(c.display_text() =~= "level: "@ + c.level@ + "\n"@ + tail);
            let front = "level: "@ + c.level@ + "\n"@ + "output: "@ + output_name(c.output)
                + "\n"@;
            assert(c.display_text() =~= front + "path: "@ + path + "\n"@);
        },
    }
}

/// Whether metric printing is on: the variable `PRINT_STAT` holds exactly
/// `true` (an unset variable counts as `false`).
pub fn print_stat_enabled(value: Option<&str>) -> (r: bool)
    ensures
        r == (value matches Some(v) && v@ == "true"@),
{
    proof {
        reveal_strlit("true");
    }
    match value {
        Some(v) => {
            let n: usize = v.unicode_len();
            if n != 4 {
                return false;
            }
            let r = v.get_char(0) == 't' && v.get_char(1) == 'r' && v.get_char(2) == 'u'
                && v.get_char(3) == 'e';
            proof {
                if r {
                    assert(v@ =~= "true"@);
                } else {
                    assert(v@ != "true"@);
                }
            }
            r
        },
        None => false,
    }
}

} // verus!
