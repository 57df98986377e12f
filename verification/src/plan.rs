//! What it takes to set up logging for a configuration: the root and
//! per-target levels, the console output, and the rolling log file with its
//! archives. Carrying the plan out (opening files, installing the logger)
//! is left to the caller.
use vstd::prelude::*;
use crate::conf::{btree_entries, level_entries, LogConf, Output};
use crate::level::{
    apply_level_overrides, entries_view, error_text, keys_ascending, law_structured_levels_override,
    level_spec_of, levels_with_overrides, lists_pairs, overrides_take_effect, parse_level_spec,
    targets_view, ConfError, LevelFilter, SpecLevels,
};

verus! {

/// Name for what `Path::file_stem` gives for a path, taken as text: the
/// last component without its final extension, if the path has a file name.
pub uninterp spec fn path_file_stem(path: Seq<char>) -> Option<Seq<char>>;

/// An optional string, taken as text.
pub open spec fn opt_text(s: Option<String>) -> Option<Seq<char>> {
    match s {
        Some(t) => Some(t@),
        None => None,
    }
}

/// The file stem of `path`, through `std::path::Path::file_stem`; the result
/// is claimed to be `path_file_stem` of the path, and a stem, when there is
/// one, to be non-empty and free of `/` (it is part of the path's last
/// component, as the documentation of `file_name` and `file_stem` says).
#[verifier::external_body]
fn file_stem(path: &str) -> (r: Option<String>)
    ensures
        opt_text(r) == path_file_stem(path@),
        r matches Some(s) ==> s@.len() > 0 && forall|i: int| 0 <= i < s@.len() ==> s@[i] != '/',
{
    match std::path::Path::new(path).file_stem() {
        Some(stem) => stem.to_str().map(str::to_owned),
        None => None,
    }
}

/// The path that appending the relative or absolute path `name` to `dir`
/// gives with Unix paths, as `PathBuf::push` does there: an absolute `name`
/// replaces `dir`; otherwise a `/` joins the two unless `dir` is empty or
/// already ends with one. Windows separators and drive prefixes are not
/// modelled: the separator is always `/`.
pub open spec fn pushed_path(dir: Seq<char>, name: Seq<char>) -> Seq<char> {
    if name.len() > 0 && name[0] == '/' {
        name
    } else if dir.len() > 0 && dir.last() != '/' {
        dir + seq!['/'] + name
    } else {
        dir + name
    }
}

/// Appends `name` to the directory `dir`, as `PathBuf::push` does on Unix
/// (only `/` separates; see `pushed_path`).
pub fn path_push(dir: &str, name: &str) -> (r: String)
    ensures
        r@ == pushed_path(dir@, name@),
{
    let nn: usize = name.unicode_len();
    if nn > 0 && name.get_char(0) == '/' {
        return String::from_str(name);
    }
    let dn: usize = dir.unicode_len();
    let mut out = String::from_str(dir);
    if dn > 0 && dir.get_char(dn - 1) != '/' {
        out.append("/");
        proof {
            reveal_strlit("/");
            assert("/"@ =~= seq!['/']);
        }
    }
    out.append(name);
    out
}

/// The log file of a program whose file stem is `stem`, in `dir`.
pub open spec fn log_file_path(dir: Seq<char>, stem: Seq<char>) -> Seq<char> {
    pushed_path(dir, stem + ".log"@)
}

/// The log file `stem.log` in the directory `dir`.
pub fn log_file_in(dir: &str, stem: &str) -> (r: String)
    ensures
        r@ == log_file_path(dir@, stem@),
{
    let mut name = String::from_str(stem);
    name.append(".log");
    path_push(dir, name.as_str())
}

/// The directory part of a path inside `dir`: the directory itself, then a
/// `/` unless the directory is empty or ends with one.
pub open spec fn dir_prefix(dir: Seq<char>) -> Seq<char> {
    if dir.len() > 0 && dir.last() != '/' {
        dir + seq!['/']
    } else {
        dir
    }
}

/// The log file is `<stem>.log` inside the configured directory: the
/// directory itself, then a `/` unless the directory is empty or ends with
/// one, then the name.
pub proof fn law_log_file_in_dir(dir: Seq<char>, stem: Seq<char>)
    requires
        !(stem.len() > 0 && stem[0] == '/'),
    ensures
        log_file_path(dir, stem) == dir_prefix(dir) + (stem + ".log"@),
{
    reveal_strlit(".log");
    let name = stem + ".log"@;
    if stem.len() == 0 {
        assert(name[0] == '.');
    } else {
        assert(name[0] == stem[0]);
    }
}

/// The directory that a configuration logs to: its file directory, or
/// `./logs` when it has none.
pub open spec fn log_dir(conf: &LogConf) -> Seq<char> {
    match conf.file {
        Some(f) => f.path@,
        None => "./logs"@,
    }
}

/// The stem that names the log file of the program invoked as `program`:
/// its file stem, or `app` when the program is unknown or has none.
pub open spec fn program_stem(program: Option<Seq<char>>) -> Seq<char> {
    match program {
        Some(p) => match path_file_stem(p) {
            Some(s) => s,
            None => "app"@,
        },
        None => "app"@,
    }
}

/// The log file is named after the program: whenever the program path has a
/// file stem, that stem names the file, however the program was started
/// (by absolute or relative path, or by bare name); `app` names it only when
/// there is no program or its path has no stem.
pub proof fn law_log_file_named_after_program(dir: Seq<char>, program: Option<Seq<char>>)
    ensures
        program matches Some(p) ==> (path_file_stem(p) matches Some(s) ==> program_stem(program)
            == s && log_file_path(dir, program_stem(program)) == log_file_path(dir, s)),
        (program is None || path_file_stem(program->0) is None) ==> program_stem(program)
            == "app"@,
{
}

/// An optional string slice, taken as text.
pub open spec fn opt_str(s: Option<&str>) -> Option<Seq<char>> {
    match s {
        Some(t) => Some(t@),
        None => None,
    }
}

/// The log file for `conf` when the program was invoked as `program`
/// (the first command-line argument, if any): `<dir>/<stem>.log`, where the
/// stem is a non-empty name without `/`.
pub fn resolve_log_file(conf: &LogConf, program: Option<&str>) -> (r: String)
    ensures
        r@ == log_file_path(log_dir(conf), program_stem(opt_str(program))),
        r@ == dir_prefix(log_dir(conf)) + (program_stem(opt_str(program)) + ".log"@),
        program_stem(opt_str(program)).len() > 0,
        forall|i: int|
            0 <= i < program_stem(opt_str(program)).len() ==> program_stem(opt_str(program))[i]
                != '/',
{
    proof {
        reveal_strlit("app");
    }
    let stem: String = match program {
        Some(p) => match file_stem(p) {
            Some(s) => s,
            None => String::from_str("app"),
        },
        None => String::from_str("app"),
    };
    proof {
        law_log_file_in_dir(log_dir(conf), stem@);
    }
    match &conf.file {
        Some(f) => log_file_in(f.path.as_str(), stem.as_str()),
        None => log_file_in("./logs", stem.as_str()),
    }
}

/// The levels that a configuration sets: those of its level specification,
/// overridden by its structured levels when it has them (see
/// `levels_with_overrides`; the entries come in the map's order).
pub open spec fn conf_levels(conf: &LogConf) -> SpecLevels {
    match conf.levels {
        None => level_spec_of(conf.level@),
        Some(m) => levels_with_overrides(level_spec_of(conf.level@), btree_entries(m.deep_view())),
    }
}

/// The rolling file output: the live file, the pattern that names archives
/// (`{}` is the archive index), how many archives are kept, and the size in
/// bytes at which the live file is rolled.
pub struct RollingFilePlan {
    pub path: String,
    pub archive_pattern: String,
    pub archive_count: u32,
    pub trigger_size: u64,
}

/// Everything that logging is set up with.
pub struct LogPlan {
    /// Layout of a record: timestamp, level, target, message.
    pub encoder_pattern: String,
    /// The level of every target without its own.
    pub root_level: LevelFilter,
    /// Per-target levels: those of the level specification that the
    /// structured levels do not override, in order, then the structured
    /// levels in ascending key order.
    pub targets: Vec<(String, LevelFilter)>,
    /// Whether records go to the console.
    pub console: bool,
    /// The rolling file that records go to, if any.
    pub file: Option<RollingFilePlan>,
}

/// The layout of a record, without module path or line.
pub open spec fn encoder_pattern_text() -> Seq<char> {
    "{d(%Y-%m-%d %H:%M:%S.%f)} [{l:5}] [{t:7}] {m}{n}"@
}

/// How many rolled archives are kept.
pub const ARCHIVE_COUNT: u32 = 10;

/// The size at which the live log file is rolled: 10 MiB.
pub const TRIGGER_SIZE: u64 = 10485760;

/// The rolling file plan for the live file `path`: archives `path.{}.gz`,
/// ten of them, rolled at 10 MiB.
pub open spec fn is_rolling_plan_for(f: RollingFilePlan, path: Seq<char>) -> bool {
    &&& f.path@ == path
    &&& f.archive_pattern@ == path + ".{}.gz"@
    &&& f.archive_count == ARCHIVE_COUNT
    &&& f.trigger_size == TRIGGER_SIZE
}

/// The setup for `conf` in a program invoked as `program`. It is refused
/// exactly when the level specification holds an unknown level name, with
/// the first such name; otherwise the levels are those of the specification
/// overridden by the structured levels (in ascending key order; entries
/// with an unknown level are skipped), the console is used for `Console`
/// and `Both`, and a rolling file `<dir>/<stem>.log` for `File` and `Both`.
pub fn log_plan(conf: &LogConf, program: Option<&str>) -> (r: Result<LogPlan, ConfError>)
    ensures
        conf.levels matches Some(m) ==> lists_pairs(btree_entries(m.deep_view()), m.deep_view())
            && keys_ascending(btree_entries(m.deep_view())),
        r is Err <==> level_spec_of(conf.level@) is Err,
        match r {
            Err(e) => conf_levels(conf) == Err::<
                (LevelFilter, Seq<(Seq<char>, LevelFilter)>),
                Seq<char>,
            >(error_text(e)),
            Ok(p) => {
                &&& conf_levels(conf) == Ok::<
                    (LevelFilter, Seq<(Seq<char>, LevelFilter)>),
                    Seq<char>,
                >((p.root_level, targets_view(p.targets@)))
                &&& p.encoder_pattern@ == encoder_pattern_text()
                &&& p.console == (conf.output != Output::File)
                &&& (p.file is None <==> conf.output == Output::Console)
                &&& (p.file matches Some(f) ==> is_rolling_plan_for(
                    f,
                    log_file_path(log_dir(conf), program_stem(opt_str(program))),
                ))
                &&& (conf.levels is None ==> level_spec_of(conf.level@) == Ok::<
                    (LevelFilter, Seq<(Seq<char>, LevelFilter)>),
                    Seq<char>,
                >((p.root_level, targets_view(p.targets@))))
                &&& (conf.levels matches Some(m) ==> (level_spec_of(conf.level@) matches Ok(
                    (root0, targets0),
                ) ==> overrides_take_effect(
                    m.deep_view(),
                    root0,
                    targets0,
                    p.root_level,
                    targets_view(p.targets@),
                )))
                &&& (p.file matches Some(f) ==> f.path@ == dir_prefix(log_dir(conf)) + (
                program_stem(opt_str(program)) + ".log"@))
            },
        },
{
    let entries: Option<Vec<(String, String)>> = match &conf.levels {
        None => None,
        Some(m) => {
            let listed = level_entries(m);
            proof {
                law_structured_levels_override(
                    level_spec_of(conf.level@),
                    entries_view(listed@),
                    m.deep_view(),
                );
            }
            Some(listed)
        },
    };
    proof {
        if let Some(m) = &conf.levels {
            assert(entries is Some);
            assert(entries_view(entries->0@) == btree_entries(m.deep_view()));
        } else {
            assert(entries is None);
        }
    }
    let (spec_root, spec_targets) = match parse_level_spec(conf.level.as_str()) {
        Ok(parsed) => parsed,
        Err(e) => {
            return Err(e);
        },
    };
    let (root_level, targets) = match &entries {
        None => (spec_root, spec_targets),
        Some(listed) => apply_level_overrides(spec_root, spec_targets, listed),
    };
    let encoder_pattern = String::from_str("{d(%Y-%m-%d %H:%M:%S.%f)} [{l:5}] [{t:7}] {m}{n}");
    let console = match conf.output {
        Output::Console => true,
        Output::File => false,
        Output::Both => true,
    };
    let file = match conf.output {
        Output::Console => None,
        Output::File | Output::Both => {
            let path = resolve_log_file(conf, program);
            let mut archive_pattern = path.clone();
            archive_pattern.append(".{}.gz");
            Some(
                RollingFilePlan {
                    path,
                    archive_pattern,
                    archive_count: ARCHIVE_COUNT,
                    trigger_size: TRIGGER_SIZE,
                },
            )
        },
    };
    Ok(LogPlan { encoder_pattern, root_level, targets, console, file })
}

} // verus!
