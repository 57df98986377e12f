//! Log levels and the level specification `"warn,ctrl=info,data=debug"`:
//! a comma-separated list whose bare entries set the root level and whose
//! `target=level` entries set the level of one target.
use vstd::prelude::*;
use crate::text::{
    is_first_index,
    all_white, find_char, first_index_of, is_white, lemma_first_index_unique, lemma_split_on_concat,
    lemma_trim_end_after_mark, lemma_trim_idempotent, lemma_trim_start_before_mark,
    lemma_trim_start_no_char, trim_end, trim_start,
    lemma_split_on_no_sep, lemma_split_on_nonempty, lemma_trim_white_around, lower_equals,
    split_on, text_lt, to_ascii_lower, trim, trim_range,
};

verus! {

/// The verbosity threshold of a logger, from `Off` (nothing) to `Trace` (everything).
#[derive(Clone, Copy, Debug, PartialEq, Eq, Structural)]
pub enum LevelFilter {
    Off,
    Error,
    Warn,
    Info,
    Debug,
    Trace,
}

/// Why a logging configuration was refused.
#[derive(Clone, Debug, PartialEq, Eq)]
pub enum ConfError {
    /// A level name that is none of `off`, `error`, `warn`, `info`, `debug`,
    /// `trace` in any letter case; it carries the offending (trimmed) text.
    UnknownLogLevel(String),
}

/// The level that a level name denotes, letter case ignored.
pub open spec fn level_of(s: Seq<char>) -> Option<LevelFilter> {
    let l = to_ascii_lower(s);
    if l == seq!['o', 'f', 'f'] {
        Some(LevelFilter::Off)
    } else if l == seq!['e', 'r', 'r', 'o', 'r'] {
        Some(LevelFilter::Error)
    } else if l == seq!['w', 'a', 'r', 'n'] {
        Some(LevelFilter::Warn)
    } else if l == seq!['i', 'n', 'f', 'o'] {
        Some(LevelFilter::Info)
    } else if l == seq!['d', 'e', 'b', 'u', 'g'] {
        Some(LevelFilter::Debug)
    } else if l == seq!['t', 'r', 'a', 'c', 'e'] {
        Some(LevelFilter::Trace)
    } else {
        None
    }
}

/// The text that an error carries.
pub open spec fn error_text(e: ConfError) -> Seq<char> {
    match e {
        ConfError::UnknownLogLevel(t) => t@,
    }
}

/// Parses one level name, letter case ignored. Any other text, the empty
/// one included, is refused with that text.
pub fn parse_lv(s: &str) -> (r: Result<LevelFilter, ConfError>)
    ensures
        match r {
            Ok(l) => level_of(s@) == Some(l),
            Err(e) => level_of(s@) is None && error_text(e) == s@,
        },
{
    let off = ['o', 'f', 'f'];
    let error = ['e', 'r', 'r', 'o', 'r'];
    let warn = ['w', 'a', 'r', 'n'];
    let info = ['i', 'n', 'f', 'o'];
    let debug = ['d', 'e', 'b', 'u', 'g'];
    let trace = ['t', 'r', 'a', 'c', 'e'];
    assert(off@ =~= seq!['o', 'f', 'f']);
    assert(error@ =~= seq!['e', 'r', 'r', 'o', 'r']);
    assert(warn@ =~= seq!['w', 'a', 'r', 'n']);
    assert(info@ =~= seq!['i', 'n', 'f', 'o']);
    assert(debug@ =~= seq!['d', 'e', 'b', 'u', 'g']);
    assert(trace@ =~= seq!['t', 'r', 'a', 'c', 'e']);
    if lower_equals(s, &off) {
        Ok(LevelFilter::Off)
    } else if lower_equals(s, &error) {
        Ok(LevelFilter::Error)
    } else if lower_equals(s, &warn) {
        Ok(LevelFilter::Warn)
    } else if lower_equals(s, &info) {
        Ok(LevelFilter::Info)
    } else if lower_equals(s, &debug) {
        Ok(LevelFilter::Debug)
    } else if lower_equals(s, &trace) {
        Ok(LevelFilter::Trace)
    } else {
        Err(ConfError::UnknownLogLevel(String::from_str(s)))
    }
}


/// The meaning of a level specification read so far: the root level and the
/// `(target, level)` pairs in the order of their entries, or the text of the
/// first level name that was refused.
pub type SpecLevels = Result<(LevelFilter, Seq<(Seq<char>, LevelFilter)>), Seq<char>>;

/// Reads one comma-separated entry `raw` after the state `st`: an entry that
/// is blank once trimmed changes nothing; `target=level` (split at the first
/// `=`, both sides trimmed) appends a target; a bare name sets the root
/// level. A refused name ends the reading; an error, once there, stays.
pub open spec fn apply_part(st: SpecLevels, raw: Seq<char>) -> SpecLevels {
    match st {
        Err(e) => Err(e),
        Ok((root, targets)) => {
            let p = trim(raw);
            if p.len() == 0 {
                Ok((root, targets))
            } else {
                match first_index_of(p, '=') {
                    Some(i) => {
                        let v = trim(p.subrange(i + 1, p.len() as int));
                        match level_of(v) {
                            Some(l) => Ok((root, targets.push((trim(p.subrange(0, i)), l)))),
                            None => Err(v),
                        }
                    },
                    None => match level_of(p) {
                        Some(l) => Ok((l, targets)),
                        None => Err(p),
                    },
                }
            }
        },
    }
}

/// Reads the entries `parts` from left to right, starting from `st`.
pub open spec fn fold_parts(st: SpecLevels, parts: Seq<Seq<char>>) -> SpecLevels
    decreases parts.len(),
{
    if parts.len() == 0 {
        st
    } else {
        apply_part(fold_parts(st, parts.drop_last()), parts.last())
    }
}

/// The state before any entry: root level `Info`, no targets.
pub open spec fn initial_levels() -> SpecLevels {
    Ok((LevelFilter::Info, Seq::empty()))
}

/// The meaning of a whole level specification.
pub open spec fn level_spec_of(s: Seq<char>) -> SpecLevels {
    fold_parts(initial_levels(), split_on(s, ','))
}

/// The targets of a result, each name taken as text.
pub open spec fn targets_view(v: Seq<(String, LevelFilter)>) -> Seq<(Seq<char>, LevelFilter)> {
    v.map_values(|p: (String, LevelFilter)| (p.0@, p.1))
}

/// What a parse result says, in the terms of `level_spec_of`.
pub open spec fn parsed_view(r: Result<(LevelFilter, Vec<(String, LevelFilter)>), ConfError>) -> SpecLevels {
    match r {
        Ok((root, targets)) => Ok((root, targets_view(targets@))),
        Err(e) => Err(error_text(e)),
    }
}

/// Once an entry was refused, later entries change nothing.
pub proof fn lemma_fold_parts_error(e: Seq<char>, parts: Seq<Seq<char>>)
    ensures
        fold_parts(Err(e), parts) == Err::<(LevelFilter, Seq<(Seq<char>, LevelFilter)>), Seq<char>>(e),
    decreases parts.len(),
{
    if parts.len() > 0 {
        lemma_fold_parts_error(e, parts.drop_last());
    }
}

/// Reading `x` then `y` is reading `x + y`.
pub proof fn lemma_fold_parts_concat(st: SpecLevels, x: Seq<Seq<char>>, y: Seq<Seq<char>>)
    ensures
        fold_parts(st, x + y) == fold_parts(fold_parts(st, x), y),
    decreases y.len(),
{
    if y.len() == 0 {
        assert(x + y =~= x);
    } else {
        lemma_fold_parts_concat(st, x, y.drop_last());
        assert((x + y).drop_last() =~= x + y.drop_last());
        assert((x + y).last() == y.last());
    }
}

/// A specification joined from two with a comma means what the first means,
/// continued with the entries of the second: earlier target entries come
/// first, a later bare entry overrides the root level, and a refused name in
/// the first part is the error of the whole.
pub proof fn law_level_spec_concat(a: Seq<char>, b: Seq<char>)
    ensures
        level_spec_of(a + seq![','] + b) == fold_parts(level_spec_of(a), split_on(b, ',')),
{
    lemma_split_on_concat(a, b, ',');
    lemma_fold_parts_concat(initial_levels(), split_on(a, ','), split_on(b, ','));
}

/// The entry `raw` is a bare level name: not blank once trimmed, and
/// without `=`.
pub open spec fn is_bare_entry(raw: Seq<char>) -> bool {
    trim(raw).len() > 0 && first_index_of(trim(raw), '=') is None
}

/// Some entry of `parts` is a bare level name.
pub open spec fn has_bare_entry(parts: Seq<Seq<char>>) -> bool {
    exists|i: int| 0 <= i < parts.len() && is_bare_entry(#[trigger] parts[i])
}

/// A reading from the initial state, moved to start from `(root, targets)`:
/// an error stays; otherwise the targets follow `targets`, and the root is
/// kept unless the entries held a bare level name.
pub open spec fn continued_from(
    root: LevelFilter,
    targets: Seq<(Seq<char>, LevelFilter)>,
    fresh: SpecLevels,
    bare: bool,
) -> SpecLevels {
    match fresh {
        Err(e) => Err(e),
        Ok((r, t)) => Ok((if bare { r } else { root }, targets + t)),
    }
}

/// Reading entries from any state is reading them from the initial state,
/// continued from that state.
proof fn lemma_fold_parts_from(
    root: LevelFilter,
    targets: Seq<(Seq<char>, LevelFilter)>,
    parts: Seq<Seq<char>>,
)
    ensures
        fold_parts(Ok((root, targets)), parts) == continued_from(
            root,
            targets,
            fold_parts(initial_levels(), parts),
            has_bare_entry(parts),
        ),
    decreases parts.len(),
{
    if parts.len() == 0 {
        assert(targets + Seq::<(Seq<char>, LevelFilter)>::empty() =~= targets);
        assert(!has_bare_entry(parts));
    } else {
        let init = parts.drop_last();
        let p = parts.last();
        lemma_fold_parts_from(root, targets, init);
        assert(has_bare_entry(parts) == (has_bare_entry(init) || is_bare_entry(p))) by {
            if has_bare_entry(init) {
                let i = choose|i: int| 0 <= i < init.len() && is_bare_entry(#[trigger] init[i]);
                assert(parts[i] == init[i]);
            }
            if is_bare_entry(p) {
                assert(parts[parts.len() - 1] == p);
            }
            if has_bare_entry(parts) {
                let i = choose|i: int| 0 <= i < parts.len() && is_bare_entry(#[trigger] parts[i]);
                if i < parts.len() - 1 {
                    assert(init[i] == parts[i]);
                }
            }
        }
        let fresh = fold_parts(initial_levels(), init);
        if let Ok((rb, tb)) = fresh {
            let tp = trim(p);
            if tp.len() > 0 {
                if let Some(i) = first_index_of(tp, '=') {
                    let v = trim(tp.subrange(i + 1, tp.len() as int));
                    if let Some(l) = level_of(v) {
                        let t = (trim(tp.subrange(0, i)), l);
                        assert((targets + tb).push(t) =~= targets + tb.push(t));
                    }
                }
            }
        }
    }
}

/// Joining two specifications with a comma: the whole is read exactly when
/// both are; then its targets are those of the first followed by those of
/// the second, and its root level is the second's when the second holds a
/// bare level name, the first's otherwise. An error of the first is the
/// error of the whole; else an error of the second is.
pub proof fn law_level_spec_join(a: Seq<char>, b: Seq<char>)
    ensures
        level_spec_of(a + seq![','] + b) is Ok <==> (level_spec_of(a) is Ok && level_spec_of(b) is Ok),
        level_spec_of(a) is Err ==> level_spec_of(a + seq![','] + b) == level_spec_of(a),
        level_spec_of(a) is Ok && level_spec_of(b) is Err ==> level_spec_of(a + seq![','] + b)
            == level_spec_of(b),
        level_spec_of(a) matches Ok((ra, ta)) ==> (level_spec_of(b) matches Ok((rb, tb))
            ==> level_spec_of(a + seq![','] + b) == Ok::<
            (LevelFilter, Seq<(Seq<char>, LevelFilter)>),
            Seq<char>,
        >((if has_bare_entry(split_on(b, ',')) {
            rb
        } else {
            ra
        }, ta + tb))),
{
    law_level_spec_concat(a, b);
    match level_spec_of(a) {
        Err(e) => {
            lemma_fold_parts_error(e, split_on(b, ','));
        },
        Ok((ra, ta)) => {
            lemma_fold_parts_from(ra, ta, split_on(b, ','));
        },
    }
}

/// A `target=level` entry appends its target: after the entries of `a`,
/// the entry `k=v` (no comma in either, no `=` in `k`) appends the target
/// named `k` trimmed, at the level that `v` trimmed names (the level
/// `parse_lv` gives for it); a value that names no level is the error, with
/// that trimmed value. An error of `a` stays.
pub proof fn law_target_entry(a: Seq<char>, k: Seq<char>, v: Seq<char>)
    requires
        forall|i: int| 0 <= i < k.len() ==> k[i] != ',' && k[i] != '=',
        forall|i: int| 0 <= i < v.len() ==> v[i] != ',',
    ensures
        level_spec_of(a + seq![','] + (k + seq!['='] + v)) == match level_spec_of(a) {
            Err(e) => Err(e),
            Ok((root, targets)) => match level_of(trim(v)) {
                Some(l) => Ok((root, targets.push((trim(k), l)))),
                None => Err(trim(v)),
            },
        },
{
    let e = k + seq!['='] + v;
    assert forall|i: int| 0 <= i < e.len() implies e[i] != ',' by {
        if i < k.len() {
            assert(e[i] == k[i]);
        } else if i > k.len() {
            assert(e[i] == v[i - k.len() - 1]);
        }
    }
    law_level_spec_concat(a, e);
    lemma_split_on_no_sep(e, ',');
    assert(seq![e].drop_last() =~= Seq::<Seq<char>>::empty());
    assert(seq![e].last() == e);
    assert(fold_parts(level_spec_of(a), Seq::<Seq<char>>::empty()) == level_spec_of(a));
    let tk = trim_start(k);
    let tev = trim_end(v);
    assert(!is_white('='));
    assert(k + (seq!['='] + v) =~= e);
    lemma_trim_start_before_mark(k, seq!['='] + v);
    assert(tk + (seq!['='] + v) =~= (tk + seq!['=']) + v);
    lemma_trim_end_after_mark(tk + seq!['='], v);
    let p = trim(e);
    assert(p =~= tk + seq!['='] + tev);
    lemma_trim_start_no_char(k, '=');
    let i = tk.len() as int;
    assert(is_first_index(p, '=', i)) by {
        assert forall|j: int| 0 <= j < i implies p[j] != '=' by {
            assert(p[j] == tk[j]);
        }
    }
    lemma_first_index_unique(p, '=', i);
    assert(p.subrange(0, i) =~= tk);
    assert(p.subrange(i + 1, p.len() as int) =~= tev);
    lemma_trim_idempotent(k);
    lemma_trim_idempotent(v);
}

/// A carriage return (or any other whitespace) at the end of a
/// specification, as a line read from a CRLF file ends, changes nothing.
pub proof fn law_trailing_carriage_return_ignored(a: Seq<char>, e: Seq<char>)
    requires
        forall|i: int| 0 <= i < e.len() ==> e[i] != ',',
    ensures
        level_spec_of(a + seq![','] + (e + seq!['\r'])) == level_spec_of(a + seq![','] + e),
        level_spec_of(a + seq![','] + (e + seq!['\r', '\n'])) == level_spec_of(a + seq![','] + e),
{
    let none = Seq::<char>::empty();
    assert(all_white(none));
    assert(all_white(seq!['\r']));
    assert(all_white(seq!['\r', '\n']));
    assert(none + e + seq!['\r'] =~= e + seq!['\r']);
    assert(none + e + seq!['\r', '\n'] =~= e + seq!['\r', '\n']);
    law_entry_whitespace_ignored(a, none, e, seq!['\r']);
    law_entry_whitespace_ignored(a, none, e, seq!['\r', '\n']);
}

/// A specification with no comma is a single entry.
pub proof fn lemma_single_entry(e: Seq<char>)
    requires
        forall|i: int| 0 <= i < e.len() ==> e[i] != ',',
    ensures
        level_spec_of(e) == apply_part(initial_levels(), e),
{
    lemma_split_on_no_sep(e, ',');
    assert(seq![e].drop_last() =~= Seq::<Seq<char>>::empty());
    assert(seq![e].last() == e);
    assert(fold_parts(initial_levels(), Seq::<Seq<char>>::empty()) == initial_levels());
}

/// Level names are read without regard to ASCII letter case: two names that
/// agree once folded to lower case denote the same level, or none.
pub proof fn law_level_name_case_insensitive(s: Seq<char>, t: Seq<char>)
    requires
        to_ascii_lower(s) == to_ascii_lower(t),
    ensures
        level_of(s) == level_of(t),
{
}

/// A blank entry (empty or only whitespace), before or after the rest of a
/// specification, changes nothing.
pub proof fn law_blank_entry_ignored(a: Seq<char>, b: Seq<char>)
    requires
        forall|i: int| 0 <= i < b.len() ==> b[i] != ',',
        trim(b).len() == 0,
    ensures
        level_spec_of(a + seq![','] + b) == level_spec_of(a),
        level_spec_of(b + seq![','] + a) == level_spec_of(a),
{
    law_level_spec_concat(a, b);
    lemma_split_on_no_sep(b, ',');
    assert(seq![b].drop_last() =~= Seq::<Seq<char>>::empty());
    assert(seq![b].last() == b);
    assert(fold_parts(level_spec_of(a), Seq::<Seq<char>>::empty()) == level_spec_of(a));
    law_level_spec_concat(b, a);
    lemma_single_entry(b);
    lemma_fold_parts_concat(initial_levels(), split_on(b, ','), split_on(a, ','));
}

/// Whitespace around an entry does not change what the specification means.
pub proof fn law_entry_whitespace_ignored(
    a: Seq<char>,
    w1: Seq<char>,
    e: Seq<char>,
    w2: Seq<char>,
)
    requires
        all_white(w1),
        all_white(w2),
        forall|i: int| 0 <= i < e.len() ==> e[i] != ',',
    ensures
        level_spec_of(a + seq![','] + (w1 + e + w2)) == level_spec_of(a + seq![','] + e),
        level_spec_of(w1 + e + w2) == level_spec_of(e),
{
    let x = w1 + e + w2;
    assert forall|i: int| 0 <= i < x.len() implies x[i] != ',' by {
        if i < w1.len() {
            assert(is_white(w1[i]));
        } else if i < w1.len() + e.len() {
            assert(x[i] == e[i - w1.len()]);
        } else {
            assert(is_white(w2[i - w1.len() - e.len()]));
        }
    }
    lemma_trim_white_around(w1, e, w2);
    lemma_split_on_no_sep(x, ',');
    lemma_split_on_no_sep(e, ',');
    law_level_spec_concat(a, x);
    law_level_spec_concat(a, e);
    assert(seq![x].drop_last() =~= Seq::<Seq<char>>::empty());
    assert(seq![e].drop_last() =~= Seq::<Seq<char>>::empty());
    assert(seq![x].last() == x);
    assert(seq![e].last() == e);
    assert(fold_parts(level_spec_of(a), Seq::<Seq<char>>::empty()) == level_spec_of(a));
    lemma_single_entry(x);
    lemma_single_entry(e);
}

/// A later bare level name overrides the root level and keeps the targets.
pub proof fn law_later_root_overrides(a: Seq<char>, n: Seq<char>, l: LevelFilter)
    requires
        forall|i: int| 0 <= i < n.len() ==> n[i] != ',',
        first_index_of(trim(n), '=') is None,
        level_of(trim(n)) == Some(l),
        level_spec_of(a) is Ok,
    ensures
        level_spec_of(a + seq![','] + n) == Ok::<
            (LevelFilter, Seq<(Seq<char>, LevelFilter)>),
            Seq<char>,
        >((l, level_spec_of(a)->Ok_0.1)),
{
    law_level_spec_concat(a, n);
    lemma_split_on_no_sep(n, ',');
    assert(seq![n].drop_last() =~= Seq::<Seq<char>>::empty());
    assert(seq![n].last() == n);
    assert(fold_parts(level_spec_of(a), Seq::<Seq<char>>::empty()) == level_spec_of(a));
    assert(to_ascii_lower(trim(n)).len() == trim(n).len());
}

/// Reads the entry `s[lo..hi]` into the root level and targets.
fn apply_segment(
    s: &str,
    lo: usize,
    hi: usize,
    root: &mut LevelFilter,
    targets: &mut Vec<(String, LevelFilter)>,
) -> (r: Result<(), ConfError>)
    requires
        lo <= hi <= s@.len(),
    ensures
        match r {
            Ok(()) => apply_part(
                Ok((*old(root), targets_view(old(targets)@))),
                s@.subrange(lo as int, hi as int),
            ) == Ok::<(LevelFilter, Seq<(Seq<char>, LevelFilter)>), Seq<char>>(
                (*final(root), targets_view(final(targets)@)),
            ),
            Err(e) => apply_part(
                Ok((*old(root), targets_view(old(targets)@))),
                s@.subrange(lo as int, hi as int),
            ) == Err::<(LevelFilter, Seq<(Seq<char>, LevelFilter)>), Seq<char>>(error_text(e)),
        },
{
    let ghost raw = s@.subrange(lo as int, hi as int);
    let (a, b) = trim_range(s, lo, hi);
    let ghost p = s@.subrange(a as int, b as int);
    if a == b {
        return Ok(());
    }
    match find_char(s, a, b, '=') {
        Some(k) => {
            let (ka, kb) = trim_range(s, a, k);
            let (va, vb) = trim_range(s, k + 1, b);
            proof {
                let i = k - a;
                assert(p.subrange(i + 1, p.len() as int) =~= s@.subrange(k + 1, b as int));
                assert(p.subrange(0, i) =~= s@.subrange(a as int, k as int));
            }
            let v = s.substring_char(va, vb);
            let l = parse_lv(v)?;
            let key = String::from_str(s.substring_char(ka, kb));
            let ghost before = targets@;
            targets.push((key, l));
            proof {
                assert(targets_view(targets@) =~= targets_view(before).push(
                    (s@.subrange(ka as int, kb as int), l),
                ));
            }
            Ok(())
        },
        None => {
            let l = parse_lv(s.substring_char(a, b))?;
            *root = l;
            Ok(())
        },
    }
}

/// Parses a level specification such as `"warn,ctrl=info,data=debug"`:
/// entries are separated by commas and trimmed, blank entries are skipped,
/// a bare level name sets the root level (the last one wins; `Info` when
/// there is none), and `target=level` entries give the targets in order.
/// The first unknown level name is the error.
pub fn parse_level_spec(spec: &str) -> (r: Result<(LevelFilter, Vec<(String, LevelFilter)>), ConfError>)
    ensures
        parsed_view(r) == level_spec_of(spec@),
{
    let n: usize = spec.unicode_len();
    let mut root = LevelFilter::Info;
    let mut targets: Vec<(String, LevelFilter)> = Vec::new();
    let mut start: usize = 0;
    let mut i: usize = 0;
    proof {
        assert(spec@.take(0) =~= Seq::<char>::empty());
        assert(targets_view(targets@) =~= Seq::<(Seq<char>, LevelFilter)>::empty());
    }
    while i < n
        invariant
            n == spec@.len(),
            start <= i <= n,
            split_on(spec@.take(i as int), ',').len() >= 1,
            split_on(spec@.take(i as int), ',').last() == spec@.subrange(start as int, i as int),
            fold_parts(initial_levels(), split_on(spec@.take(i as int), ',').drop_last()) == Ok::<
                (LevelFilter, Seq<(Seq<char>, LevelFilter)>),
                Seq<char>,
            >((root, targets_view(targets@))),
        decreases n - i,
    {
        let ghost segs = split_on(spec@.take(i as int), ',');
        proof {
            assert(spec@.take(i + 1).drop_last() =~= spec@.take(i as int));
            assert(spec@.take(i + 1).last() == spec@[i as int]);
        }
        if spec.get_char(i) == ',' {
            let step = apply_segment(spec, start, i, &mut root, &mut targets);
            match step {
                Ok(()) => {},
                Err(e) => {
                    proof {
                        assert(segs =~= segs.drop_last().push(segs.last()));
                        assert(fold_parts(initial_levels(), segs) == Err::<
                            (LevelFilter, Seq<(Seq<char>, LevelFilter)>),
                            Seq<char>,
                        >(error_text(e)));
                        let rest = spec@.subrange(i + 1, n as int);
                        assert(spec@ =~= spec@.take(i as int) + seq![','] + rest);
                        lemma_split_on_concat(spec@.take(i as int), rest, ',');
                        lemma_fold_parts_concat(initial_levels(), segs, split_on(rest, ','));
                        lemma_fold_parts_error(error_text(e), split_on(rest, ','));
                    }
                    return Err(e);
                },
            }
            proof {
                let segs2 = split_on(spec@.take(i + 1), ',');
                assert(segs2 == segs.push(Seq::<char>::empty()));
                assert(segs2.drop_last() =~= segs);
                assert(segs =~= segs.drop_last().push(segs.last()));
                assert(spec@.subrange(i + 1, i + 1) =~= Seq::<char>::empty());
            }
            start = i + 1;
        } else {
            proof {
                let segs2 = split_on(spec@.take(i + 1), ',');
                assert(segs2.drop_last() =~= segs.drop_last());
                assert(spec@.subrange(start as int, i + 1) =~= spec@.subrange(
                    start as int,
                    i as int,
                ).push(spec@[i as int]));
            }
        }
        i = i + 1;
        proof {
            lemma_split_on_nonempty(spec@.take(i as int), ',');
        }
    }
    let ghost segs = split_on(spec@.take(n as int), ',');
    let step = apply_segment(spec, start, n, &mut root, &mut targets);
    proof {
        assert(spec@.take(n as int) =~= spec@);
        assert(segs =~= segs.drop_last().push(segs.last()));
    }
    match step {
        Ok(()) => Ok((root, targets)),
        Err(e) => Err(e),
    }
}


/// The key of the structured levels that sets the root level.
pub open spec fn global_key() -> Seq<char> {
    "global"@
}

/// Structured levels as `(name, level text)` pairs, each taken as text.
pub open spec fn entries_view(v: Seq<(String, String)>) -> Seq<(Seq<char>, Seq<char>)> {
    v.map_values(|p: (String, String)| (p.0@, p.1@))
}

/// `entries` lists every pair of `m`, each key once.
pub open spec fn lists_pairs(
    entries: Seq<(Seq<char>, Seq<char>)>,
    m: Map<Seq<char>, Seq<char>>,
) -> bool {
    &&& forall|i: int|
        0 <= i < entries.len() ==> m.contains_key(#[trigger] entries[i].0) && m[entries[i].0]
            == entries[i].1
    &&& forall|k: Seq<char>|
        #[trigger] m.contains_key(k) ==> exists|i: int|
            0 <= i < entries.len() && #[trigger] entries[i].0 == k
    &&& forall|i: int, j: int|
        0 <= i < j < entries.len() ==> #[trigger] entries[i].0 != #[trigger] entries[j].0
}

/// The keys of `entries` ascend in the order of texts.
pub open spec fn keys_ascending(entries: Seq<(Seq<char>, Seq<char>)>) -> bool {
    forall|i: int, j: int|
        0 <= i < j < entries.len() ==> text_lt(#[trigger] entries[i].0, #[trigger] entries[j].0)
}

/// Applies one structured level `(name, level text)` after the state `st`:
/// with a known level, the name `global` sets the root level and any other
/// name appends a target; an entry whose level text is unknown is skipped.
pub open spec fn apply_entry(st: SpecLevels, e: (Seq<char>, Seq<char>)) -> SpecLevels {
    match st {
        Err(x) => Err(x),
        Ok((root, targets)) => match level_of(e.1) {
            None => Ok((root, targets)),
            Some(l) => if e.0 == global_key() {
                Ok((l, targets))
            } else {
                Ok((root, targets.push((e.0, l))))
            },
        },
    }
}

/// Applies the structured levels `entries` from left to right, starting from `st`.
pub open spec fn fold_entries(st: SpecLevels, entries: Seq<(Seq<char>, Seq<char>)>) -> SpecLevels
    decreases entries.len(),
{
    if entries.len() == 0 {
        st
    } else {
        apply_entry(fold_entries(st, entries.drop_last()), entries.last())
    }
}

/// A target of the level specification named `name` is overridden by the
/// structured levels `entries`: some entry other than `global` with a known
/// level has that name.
pub open spec fn is_overridden(name: Seq<char>, entries: Seq<(Seq<char>, Seq<char>)>) -> bool {
    &&& name != global_key()
    &&& exists|i: int|
        0 <= i < entries.len() && #[trigger] entries[i].0 == name && level_of(entries[i].1) is Some
}

/// The name `name` is set by the structured levels `m`: it is not `global`,
/// and `m` gives it a known level.
pub open spec fn named_by(m: Map<Seq<char>, Seq<char>>, name: Seq<char>) -> bool {
    &&& name != global_key()
    &&& m.contains_key(name)
    &&& level_of(m[name]) is Some
}

/// The targets that the structured levels `entries` do not override, in order.
pub open spec fn without_overridden(
    targets: Seq<(Seq<char>, LevelFilter)>,
    entries: Seq<(Seq<char>, Seq<char>)>,
) -> Seq<(Seq<char>, LevelFilter)>
    decreases targets.len(),
{
    if targets.len() == 0 {
        targets
    } else {
        let kept = without_overridden(targets.drop_last(), entries);
        if is_overridden(targets.last().0, entries) {
            kept
        } else {
            kept.push(targets.last())
        }
    }
}

/// The levels of a level specification read as `st`, overridden by the
/// structured levels `entries`: targets that an entry with a known level
/// names are dropped, then the entries are applied in order (`global` sets
/// the root level, other names are appended as targets, entries with an
/// unknown level are skipped). An error of the specification stays.
pub open spec fn levels_with_overrides(st: SpecLevels, entries: Seq<(Seq<char>, Seq<char>)>) -> SpecLevels {
    match st {
        Err(e) => Err(e),
        Ok((root, targets)) => fold_entries(Ok((root, without_overridden(targets, entries))), entries),
    }
}

/// The targets that the structured levels `entries` add, in order: one
/// for each entry other than `global` whose level text is known.
pub open spec fn entry_targets(entries: Seq<(Seq<char>, Seq<char>)>) -> Seq<(Seq<char>, LevelFilter)>
    decreases entries.len(),
{
    if entries.len() == 0 {
        Seq::empty()
    } else {
        let t = entry_targets(entries.drop_last());
        let e = entries.last();
        if e.0 == global_key() {
            t
        } else {
            match level_of(e.1) {
                Some(l) => t.push((e.0, l)),
                None => t,
            }
        }
    }
}

/// The root level after the structured levels `entries`, from `root`: the
/// level of the last `global` entry with a known level, if any.
pub open spec fn entries_root(root: LevelFilter, entries: Seq<(Seq<char>, Seq<char>)>) -> LevelFilter
    decreases entries.len(),
{
    if entries.len() == 0 {
        root
    } else {
        let r = entries_root(root, entries.drop_last());
        let e = entries.last();
        if e.0 == global_key() {
            match level_of(e.1) {
                Some(l) => l,
                None => r,
            }
        } else {
            r
        }
    }
}

/// Reading structured levels never fails: the root is `entries_root`, and
/// the targets are extended by `entry_targets`.
proof fn lemma_fold_entries_ok(
    root: LevelFilter,
    base: Seq<(Seq<char>, LevelFilter)>,
    entries: Seq<(Seq<char>, Seq<char>)>,
)
    ensures
        fold_entries(Ok((root, base)), entries) == Ok::<
            (LevelFilter, Seq<(Seq<char>, LevelFilter)>),
            Seq<char>,
        >((entries_root(root, entries), base + entry_targets(entries))),
    decreases entries.len(),
{
    if entries.len() == 0 {
        assert(base + Seq::<(Seq<char>, LevelFilter)>::empty() =~= base);
    } else {
        let init = entries.drop_last();
        lemma_fold_entries_ok(root, base, init);
        let e = entries.last();
        if e.0 != global_key() && level_of(e.1) is Some {
            assert(base + entry_targets(init).push((e.0, level_of(e.1)->0)) =~= (base
                + entry_targets(init)).push((e.0, level_of(e.1)->0)));
        }
    }
}

/// Each target that the structured levels add comes from an entry other
/// than `global`, at that entry's level; each such entry with a known level
/// adds one.
proof fn lemma_entry_targets(entries: Seq<(Seq<char>, Seq<char>)>)
    ensures
        forall|j: int|
            #![trigger entry_targets(entries)[j]]
            0 <= j < entry_targets(entries).len() ==> exists|i: int|
                0 <= i < entries.len() && #[trigger] entries[i].0 == entry_targets(entries)[j].0
                    && entries[i].0 != global_key() && level_of(entries[i].1) == Some(
                    entry_targets(entries)[j].1,
                ),
        forall|i: int|
            0 <= i < entries.len() && #[trigger] entries[i].0 != global_key() && level_of(
                entries[i].1,
            ) is Some ==> entry_targets(entries).contains((entries[i].0, level_of(entries[i].1)->0)),
    decreases entries.len(),
{
    if entries.len() > 0 {
        let init = entries.drop_last();
        lemma_entry_targets(init);
        let t = entry_targets(init);
        let t2 = entry_targets(entries);
        assert forall|j: int| #![trigger t2[j]] 0 <= j < t2.len() implies exists|i: int|
            0 <= i < entries.len() && #[trigger] entries[i].0 == t2[j].0 && entries[i].0
                != global_key() && level_of(entries[i].1) == Some(t2[j].1) by {
            if j < t.len() {
                assert(t2[j] == t[j]);
                let i = choose|i: int|
                    0 <= i < init.len() && #[trigger] init[i].0 == t[j].0 && init[i].0
                        != global_key() && level_of(init[i].1) == Some(t[j].1);
                assert(entries[i] == init[i]);
            } else {
                assert(entries[entries.len() - 1] == entries.last());
            }
        }
        assert forall|i: int|
            0 <= i < entries.len() && #[trigger] entries[i].0 != global_key() && level_of(
                entries[i].1,
            ) is Some implies t2.contains((entries[i].0, level_of(entries[i].1)->0)) by {
            if i < entries.len() - 1 {
                assert(entries[i] == init[i]);
                let k = choose|k: int| 0 <= k < t.len() && t[k] == (init[i].0, level_of(init[i].1)->0);
                if entries.last().0 != global_key() && level_of(entries.last().1) is Some {
                    assert(t2[k] == t[k]);
                }
            } else {
                assert(entries[i] == entries.last());
                assert(t2[t2.len() - 1] == (entries[i].0, level_of(entries[i].1)->0));
            }
        }
    }
}

/// No target left by `without_overridden` is overridden, and every target
/// that is not overridden is left.
proof fn lemma_without_overridden(
    targets: Seq<(Seq<char>, LevelFilter)>,
    entries: Seq<(Seq<char>, Seq<char>)>,
)
    ensures
        forall|j: int|
            0 <= j < without_overridden(targets, entries).len() ==> !is_overridden(
                #[trigger] without_overridden(targets, entries)[j].0,
                entries,
            ),
        forall|t: (Seq<char>, LevelFilter)|
            targets.contains(t) && !is_overridden(t.0, entries) ==> #[trigger] without_overridden(
                targets,
                entries,
            ).contains(t),
    decreases targets.len(),
{
    if targets.len() > 0 {
        let init = targets.drop_last();
        lemma_without_overridden(init, entries);
        let kept = without_overridden(init, entries);
        let w = without_overridden(targets, entries);
        assert forall|j: int| 0 <= j < w.len() implies !is_overridden(#[trigger] w[j].0, entries) by {
            if j < kept.len() {
                assert(w[j] == kept[j]);
            }
        }
        assert forall|t: (Seq<char>, LevelFilter)|
            targets.contains(t) && !is_overridden(t.0, entries) implies #[trigger] w.contains(t) by {
            let k = choose|k: int| 0 <= k < targets.len() && targets[k] == t;
            if k < targets.len() - 1 {
                assert(init[k] == t);
                assert(init.contains(t));
                assert(without_overridden(init, entries).contains(t));
                assert(kept.contains(t));
                let q = choose|q: int| 0 <= q < kept.len() && kept[q] == t;
                if !is_overridden(targets.last().0, entries) {
                    assert(w[q] == kept[q]);
                }
            } else {
                assert(targets.last() == t);
                assert(w[w.len() - 1] == t);
            }
        }
    }
}

/// With distinct keys, the root after a `global` entry with a known level
/// is that level.
proof fn lemma_entries_root_global(
    root: LevelFilter,
    entries: Seq<(Seq<char>, Seq<char>)>,
    i: int,
)
    requires
        0 <= i < entries.len(),
        entries[i].0 == global_key(),
        level_of(entries[i].1) is Some,
        forall|a: int, b: int|
            0 <= a < b < entries.len() ==> #[trigger] entries[a].0 != #[trigger] entries[b].0,
    ensures
        entries_root(root, entries) == level_of(entries[i].1)->0,
    decreases entries.len(),
{
    if i < entries.len() - 1 {
        let init = entries.drop_last();
        assert(entries[i] == init[i]);
        assert(entries[i].0 != entries[entries.len() - 1].0);
        assert(entries.last() == entries[entries.len() - 1]);
        lemma_entries_root_global(root, init, i);
    } else {
        assert(entries.last() == entries[i]);
    }
}

/// Without a `global` entry of known level, the root stays.
proof fn lemma_entries_root_none(root: LevelFilter, entries: Seq<(Seq<char>, Seq<char>)>)
    requires
        forall|i: int|
            0 <= i < entries.len() && #[trigger] entries[i].0 == global_key() ==> level_of(
                entries[i].1,
            ) is None,
    ensures
        entries_root(root, entries) == root,
    decreases entries.len(),
{
    if entries.len() > 0 {
        let init = entries.drop_last();
        assert forall|i: int|
            0 <= i < init.len() && #[trigger] init[i].0 == global_key() implies level_of(
                init[i].1,
            ) is None by {
            assert(init[i] == entries[i]);
        }
        lemma_entries_root_none(root, init);
        assert(entries.last() == entries[entries.len() - 1]);
    }
}

/// The structured levels `m` have taken effect on `root` and `targets`
/// over the levels `(root0, targets0)` of the level specification: a
/// `global` entry of known level is the root level, otherwise the root is
/// kept; each other name with a known level is a target at that level and
/// at no other; every target of the specification whose name `m` does not
/// set is kept.
pub open spec fn overrides_take_effect(
    m: Map<Seq<char>, Seq<char>>,
    root0: LevelFilter,
    targets0: Seq<(Seq<char>, LevelFilter)>,
    root: LevelFilter,
    targets: Seq<(Seq<char>, LevelFilter)>,
) -> bool {
    &&& root == (if m.contains_key(global_key()) && level_of(m[global_key()]) is Some {
        level_of(m[global_key()])->0
    } else {
        root0
    })
    &&& forall|k: Seq<char>|
        #[trigger] named_by(m, k) ==> targets.contains((k, level_of(m[k])->0))
    &&& forall|j: int|
        0 <= j < targets.len() && #[trigger] named_by(m, targets[j].0) ==> targets[j].1 == level_of(
            m[targets[j].0],
        )->0
    &&& forall|t: (Seq<char>, LevelFilter)|
        #[trigger] targets0.contains(t) && !named_by(m, t.0) ==> targets.contains(t)
}

/// Structured levels are per-target overrides. Given a listing `entries` of
/// the pairs of `m`, overriding a reading `st` of a level specification
/// fails exactly when `st` failed; otherwise the overrides of `m` take
/// effect (see `overrides_take_effect`), and the targets are exactly those
/// of the specification that `m` does not set, followed by those of `m`.
pub proof fn law_structured_levels_override(
    st: SpecLevels,
    entries: Seq<(Seq<char>, Seq<char>)>,
    m: Map<Seq<char>, Seq<char>>,
)
    requires
        lists_pairs(entries, m),
    ensures
        levels_with_overrides(st, entries) is Err <==> st is Err,
        st matches Ok((root0, targets0)) ==> {
            &&& levels_with_overrides(st, entries) == Ok::<
                (LevelFilter, Seq<(Seq<char>, LevelFilter)>),
                Seq<char>,
            >(
                (
                    entries_root(root0, entries),
                    without_overridden(targets0, entries) + entry_targets(entries),
                ),
            )
            &&& overrides_take_effect(
                m,
                root0,
                targets0,
                entries_root(root0, entries),
                without_overridden(targets0, entries) + entry_targets(entries),
            )
        },
{
    if let Ok((root0, ts0)) = st {
        let base = without_overridden(ts0, entries);
        lemma_fold_entries_ok(root0, base, entries);
        lemma_entry_targets(entries);
        lemma_without_overridden(ts0, entries);
        let et = entry_targets(entries);
        let targets = base + et;
        assert forall|k: Seq<char>| is_overridden(k, entries) <==> named_by(m, k) by {
            if is_overridden(k, entries) {
                let i = choose|i: int|
                    0 <= i < entries.len() && #[trigger] entries[i].0 == k && level_of(
                        entries[i].1,
                    ) is Some;
                assert(m.contains_key(entries[i].0));
            }
            if named_by(m, k) {
                assert(m.contains_key(k));
                let i = choose|i: int| 0 <= i < entries.len() && #[trigger] entries[i].0 == k;
                assert(m[entries[i].0] == entries[i].1);
            }
        }
        assert forall|k: Seq<char>| #[trigger] named_by(m, k) implies targets.contains(
            (k, level_of(m[k])->0),
        ) by {
            assert(m.contains_key(k));
            let i = choose|i: int| 0 <= i < entries.len() && #[trigger] entries[i].0 == k;
            assert(m[entries[i].0] == entries[i].1);
            assert(et.contains((entries[i].0, level_of(entries[i].1)->0)));
            let q = choose|q: int| 0 <= q < et.len() && et[q] == (k, level_of(m[k])->0);
            assert(targets[base.len() + q] == et[q]);
        }
        assert forall|j: int|
            0 <= j < targets.len() && #[trigger] named_by(m, targets[j].0) implies targets[j].1
            == level_of(m[targets[j].0])->0 by {
            if j < base.len() {
                assert(targets[j] == base[j]);
                assert(is_overridden(base[j].0, entries));
            } else {
                let q = j - base.len();
                assert(targets[j] == et[q]);
                let i = choose|i: int|
                    0 <= i < entries.len() && #[trigger] entries[i].0 == et[q].0 && entries[i].0
                        != global_key() && level_of(entries[i].1) == Some(et[q].1);
                assert(m[entries[i].0] == entries[i].1);
            }
        }
        assert forall|t: (Seq<char>, LevelFilter)|
            #[trigger] ts0.contains(t) && !named_by(m, t.0) implies targets.contains(t) by {
            assert(!is_overridden(t.0, entries));
            assert(base.contains(t));
            let q = choose|q: int| 0 <= q < base.len() && base[q] == t;
            assert(targets[q] == base[q]);
        }
        if m.contains_key(global_key()) && level_of(m[global_key()]) is Some {
            let i = choose|i: int|
                0 <= i < entries.len() && #[trigger] entries[i].0 == global_key();
            assert(m[entries[i].0] == entries[i].1);
            lemma_entries_root_global(root0, entries, i);
        } else {
            assert forall|i: int|
                0 <= i < entries.len() && #[trigger] entries[i].0 == global_key() implies level_of(
                entries[i].1,
            ) is None by {
                assert(m.contains_key(entries[i].0));
                assert(m[entries[i].0] == entries[i].1);
            }
            lemma_entries_root_none(root0, entries);
        }
    }
}

/// Whether the target `name` is overridden by the structured levels `entries`.
fn target_overridden(name: &String, entries: &Vec<(String, String)>) -> (r: bool)
    ensures
        r == is_overridden(name@, entries_view(entries@)),
{
    let global = String::from_str("global");
    if *name == global {
        return false;
    }
    let ghost ev = entries_view(entries@);
    let mut j: usize = 0;
    while j < entries.len()
        invariant
            j <= entries@.len(),
            ev == entries_view(entries@),
            ev.len() == entries@.len(),
            name@ != global_key(),
            forall|i: int|
                0 <= i < j ==> !(#[trigger] ev[i].0 == name@ && level_of(ev[i].1) is Some),
        decreases entries.len() - j,
    {
        if entries[j].0 == *name {
            let known = match parse_lv(entries[j].1.as_str()) {
                Ok(_) => true,
                Err(_) => false,
            };
            if known {
                assert(ev[j as int].0 == name@ && level_of(ev[j as int].1) is Some);
                return true;
            }
        }
        j = j + 1;
    }
    false
}

/// Overrides the levels `(root, targets)` of a level specification with the
/// structured levels `entries`, as `levels_with_overrides` says; it never fails.
pub fn apply_level_overrides(
    root: LevelFilter,
    targets: Vec<(String, LevelFilter)>,
    entries: &Vec<(String, String)>,
) -> (r: (LevelFilter, Vec<(String, LevelFilter)>))
    ensures
        levels_with_overrides(Ok((root, targets_view(targets@))), entries_view(entries@)) == Ok::<
            (LevelFilter, Seq<(Seq<char>, LevelFilter)>),
            Seq<char>,
        >((r.0, targets_view(r.1@))),
{
    let ghost tv = targets_view(targets@);
    let ghost ev = entries_view(entries@);
    let mut kept: Vec<(String, LevelFilter)> = Vec::new();
    let mut i: usize = 0;
    proof {
        assert(tv.take(0) =~= Seq::<(Seq<char>, LevelFilter)>::empty());
        assert(targets_view(kept@) =~= Seq::<(Seq<char>, LevelFilter)>::empty());
    }
    while i < targets.len()
        invariant
            i <= targets@.len(),
            tv == targets_view(targets@),
            ev == entries_view(entries@),
            targets_view(kept@) == without_overridden(tv.take(i as int), ev),
        decreases targets.len() - i,
    {
        proof {
            assert(tv.take(i + 1).drop_last() =~= tv.take(i as int));
            assert(tv.take(i + 1).last() == tv[i as int]);
        }
        if !target_overridden(&targets[i].0, entries) {
            let name = targets[i].0.clone();
            let l = targets[i].1;
            let ghost before = kept@;
            kept.push((name, l));
            proof {
                assert(targets_view(kept@) =~= targets_view(before).push(tv[i as int]));
            }
        }
        i = i + 1;
    }
    proof {
        assert(tv.take(targets@.len() as int) =~= tv);
    }
    let mut level = root;
    let ghost init: SpecLevels = Ok((root, without_overridden(tv, ev)));
    let mut j: usize = 0;
    proof {
        assert(ev.take(0) =~= Seq::<(Seq<char>, Seq<char>)>::empty());
    }
    while j < entries.len()
        invariant
            j <= entries@.len(),
            tv == targets_view(targets@),
            ev == entries_view(entries@),
            ev.len() == entries@.len(),
            init == Ok::<(LevelFilter, Seq<(Seq<char>, LevelFilter)>), Seq<char>>(
                (root, without_overridden(tv, ev)),
            ),
            fold_entries(init, ev.take(j as int)) == Ok::<
                (LevelFilter, Seq<(Seq<char>, LevelFilter)>),
                Seq<char>,
            >((level, targets_view(kept@))),
        decreases entries.len() - j,
    {
        proof {
            assert(ev.take(j + 1).drop_last() =~= ev.take(j as int));
            assert(ev.take(j + 1).last() == ev[j as int]);
        }
        match parse_lv(entries[j].1.as_str()) {
            Ok(l) => {
                let global = String::from_str("global");
                if entries[j].0 == global {
                    level = l;
                } else {
                    let name = entries[j].0.clone();
                    let ghost before = kept@;
                    kept.push((name, l));
                    proof {
                        assert(targets_view(kept@) =~= targets_view(before).push(
                            (ev[j as int].0, l),
                        ));
                    }
                }
            },
            Err(_) => {},
        }
        j = j + 1;
    }
    proof {
        assert(ev.take(entries@.len() as int) =~= ev);
    }
    (level, kept)
}

} // verus!
