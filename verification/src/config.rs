//! The `build.cal` language: targets with keys such as `kind`, `sources`
//! and `deps`, and the parser that reads it.

use vstd::prelude::*;
use crate::text::{
    lemma_push_deep_view,
    chars_eq, chars_of, ends_with, find_char, is_ws, line_ranges, lines, piece_ranges, pieces,
    ranges_in, slices_of, starts_with, string_from, trim, trim_chars, word_ranges, words,
    find_from, has_prefix, lemma_find_from_bounds, concat3, decimal, decimal_string, push_str,
};

verus! {

/// What a target builds.
#[derive(Clone, Copy, Debug, PartialEq, Eq, Structural)]
pub enum TargetKind {
    Exe,
    Staticlib,
    Sharedlib,
}

/// The language a target's sources are written in.
#[derive(Clone, Copy, Debug, PartialEq, Eq, Structural)]
pub enum Language {
    C,
    Cpp,
}

/// One `target NAME { ... }` block of `build.cal`.
#[derive(Debug)]
pub struct TargetConfig {
    pub kind: TargetKind,
    pub language: Language,
    pub sources: Vec<String>,
    pub deps: Vec<String>,
    pub output: String,
    pub cflags: Vec<String>,
    pub cppflags: Vec<String>,
    pub ldflags: Vec<String>,
}

/// The mathematical content of a [`TargetConfig`].
pub struct TargetSpec {
    pub kind: TargetKind,
    pub language: Language,
    pub sources: Seq<Seq<char>>,
    pub deps: Seq<Seq<char>>,
    pub output: Seq<char>,
    pub cflags: Seq<Seq<char>>,
    pub cppflags: Seq<Seq<char>>,
    pub ldflags: Seq<Seq<char>>,
}

impl View for TargetConfig {
    type V = TargetSpec;

    open spec fn view(&self) -> TargetSpec {
        TargetSpec {
            kind: self.kind,
            language: self.language,
            sources: self.sources.deep_view(),
            deps: self.deps.deep_view(),
            output: self.output@,
            cflags: self.cflags.deep_view(),
            cppflags: self.cppflags.deep_view(),
            ldflags: self.ldflags.deep_view(),
        }
    }
}

/// A parsed `build.cal`: its targets by name, in the order in which they
/// were first defined. A name defined twice keeps its later definition.
#[derive(Debug)]
pub struct BuildConfig {
    pub targets: Vec<(String, TargetConfig)>,
}

/// Named targets, in order.
pub open spec fn named_view(ts: Seq<(String, TargetConfig)>) -> Seq<(Seq<char>, TargetSpec)> {
    Seq::new(ts.len(), |i: int| (ts[i].0@, ts[i].1@))
}

impl View for BuildConfig {
    type V = Seq<(Seq<char>, TargetSpec)>;

    open spec fn view(&self) -> Seq<(Seq<char>, TargetSpec)> {
        named_view(self.targets@)
    }
}

/// Why a `build.cal` was refused. Line numbers count from 1.
#[derive(Debug)]
pub enum ConfigError {
    NestedTarget { line: usize },
    MissingTargetName { line: usize },
    StrayBrace { line: usize },
    KeyOutsideTarget { line: usize },
    ExpectedKeyValue { line: usize },
    InvalidKind { line: usize, value: String },
    InvalidLanguage { line: usize, value: String },
    UnknownKey { line: usize, key: String, target: String },
    MissingOutput { target: String },
    NoSources { target: String },
    UnterminatedTarget,
    NoTargets,
}

/// The mathematical content of a [`ConfigError`].
pub enum ConfigErrorSpec {
    NestedTarget { line: int },
    MissingTargetName { line: int },
    StrayBrace { line: int },
    KeyOutsideTarget { line: int },
    ExpectedKeyValue { line: int },
    InvalidKind { line: int, value: Seq<char> },
    InvalidLanguage { line: int, value: Seq<char> },
    UnknownKey { line: int, key: Seq<char>, target: Seq<char> },
    MissingOutput { target: Seq<char> },
    NoSources { target: Seq<char> },
    UnterminatedTarget,
    NoTargets,
}

impl View for ConfigError {
    type V = ConfigErrorSpec;

    open spec fn view(&self) -> ConfigErrorSpec {
        match self {
            ConfigError::NestedTarget { line } => ConfigErrorSpec::NestedTarget { line: *line as int },
            ConfigError::MissingTargetName { line } => ConfigErrorSpec::MissingTargetName {
                line: *line as int,
            },
            ConfigError::StrayBrace { line } => ConfigErrorSpec::StrayBrace { line: *line as int },
            ConfigError::KeyOutsideTarget { line } => ConfigErrorSpec::KeyOutsideTarget {
                line: *line as int,
            },
            ConfigError::ExpectedKeyValue { line } => ConfigErrorSpec::ExpectedKeyValue {
                line: *line as int,
            },
            ConfigError::InvalidKind { line, value } => ConfigErrorSpec::InvalidKind {
                line: *line as int,
                value: value@,
            },
            ConfigError::InvalidLanguage { line, value } => ConfigErrorSpec::InvalidLanguage {
                line: *line as int,
                value: value@,
            },
            ConfigError::UnknownKey { line, key, target } => ConfigErrorSpec::UnknownKey {
                line: *line as int,
                key: key@,
                target: target@,
            },
            ConfigError::MissingOutput { target } => ConfigErrorSpec::MissingOutput {
                target: target@,
            },
            ConfigError::NoSources { target } => ConfigErrorSpec::NoSources { target: target@ },
            ConfigError::UnterminatedTarget => ConfigErrorSpec::UnterminatedTarget,
            ConfigError::NoTargets => ConfigErrorSpec::NoTargets,
        }
    }
}

/// The message that reports a configuration error.
pub open spec fn config_error_text(e: ConfigErrorSpec) -> Seq<char> {
    match e {
        ConfigErrorSpec::NestedTarget { line } => "line "@ + decimal(line as nat) + ": nested target not allowed"@,
        ConfigErrorSpec::MissingTargetName { line } => "line "@ + decimal(line as nat) + ": target name missing"@,
        ConfigErrorSpec::StrayBrace { line } => "line "@ + decimal(line as nat) + ": stray `}`"@,
        ConfigErrorSpec::KeyOutsideTarget { line } => "line "@ + decimal(line as nat) + ": key outside of target block"@,
        ConfigErrorSpec::ExpectedKeyValue { line } => "line "@ + decimal(line as nat) + ": expected `key = value`"@,
        ConfigErrorSpec::InvalidKind { line, value } => "line "@ + decimal(line as nat) + ": invalid kind `"@ + value
            + "`"@,
        ConfigErrorSpec::InvalidLanguage { line, value } => "line "@ + decimal(line as nat) + ": invalid language `"@
            + value + "`"@,
        ConfigErrorSpec::UnknownKey { line, key, target } => "line "@ + decimal(line as nat) + ": unknown key `"@
            + key + "` in target `"@ + target + "`"@,
        ConfigErrorSpec::MissingOutput { target } => "target `"@ + target + "` missing `output`"@,
        ConfigErrorSpec::NoSources { target } => "target `"@ + target + "` has no `sources`"@,
        ConfigErrorSpec::UnterminatedTarget => "unterminated target block"@,
        ConfigErrorSpec::NoTargets => "no targets defined in build.cal"@,
    }
}

impl ConfigError {
    /// The message that reports this error.
    pub fn message(&self) -> (r: String)
        ensures
            r@ == config_error_text(self@),
    {
        match self {
            ConfigError::NestedTarget { line } => concat3("line ", decimal_string(*line).as_str(), ": nested target not allowed"),
            ConfigError::MissingTargetName { line } => concat3("line ", decimal_string(*line).as_str(), ": target name missing"),
            ConfigError::StrayBrace { line } => concat3("line ", decimal_string(*line).as_str(), ": stray `}`"),
            ConfigError::KeyOutsideTarget { line } => concat3(
                "line ",
                decimal_string(*line).as_str(),
                ": key outside of target block",
            ),
            ConfigError::ExpectedKeyValue { line } => concat3("line ", decimal_string(*line).as_str(), ": expected `key = value`"),
            ConfigError::InvalidKind { line, value } => {
                let mut s = concat3("line ", decimal_string(*line).as_str(), ": invalid kind `");
                push_str(&mut s, value.as_str());
                push_str(&mut s, "`");
                s
            },
            ConfigError::InvalidLanguage { line, value } => {
                let mut s = concat3("line ", decimal_string(*line).as_str(), ": invalid language `");
                push_str(&mut s, value.as_str());
                push_str(&mut s, "`");
                s
            },
            ConfigError::UnknownKey { line, key, target } => {
                let mut s = concat3("line ", decimal_string(*line).as_str(), ": unknown key `");
                push_str(&mut s, key.as_str());
                push_str(&mut s, "` in target `");
                push_str(&mut s, target.as_str());
                push_str(&mut s, "`");
                s
            },
            ConfigError::MissingOutput { target } => concat3("target `", target.as_str(), "` missing `output`"),
            ConfigError::NoSources { target } => concat3("target `", target.as_str(), "` has no `sources`"),
            ConfigError::UnterminatedTarget => crate::text::string_of("unterminated target block"),
            ConfigError::NoTargets => crate::text::string_of("no targets defined in build.cal"),
        }
    }
}

// ---------- values ----------


/// A value with surrounding whitespace removed and, where it is wrapped in
/// double quotes, the quotes removed too.
pub open spec fn spec_trim_string(v: Seq<char>) -> Seq<char> {
    let t = trim(v);
    if t.len() >= 2 && t[0] == '"' && t[t.len() - 1] == '"' {
        t.subrange(1, t.len() - 1)
    } else {
        t
    }
}

/// Each piece of a list, trimmed and unquoted.
pub open spec fn list_items(ps: Seq<Seq<char>>) -> Seq<Seq<char>> {
    Seq::new(ps.len(), |i: int| spec_trim_string(trim(ps[i])))
}

/// Each word, unquoted.
pub open spec fn word_items(ws: Seq<Seq<char>>) -> Seq<Seq<char>> {
    Seq::new(ws.len(), |i: int| spec_trim_string(ws[i]))
}

/// The items of a bracketed list `[a, b, ...]`: the text between the
/// brackets, cut at each comma, each item trimmed and unquoted.
pub open spec fn spec_parse_list(v: Seq<char>) -> Seq<Seq<char>> {
    let inner = trim(v.subrange(1, v.len() - 1));
    if inner.len() == 0 {
        seq![]
    } else {
        list_items(pieces(inner, ','))
    }
}

/// A list value: empty, a bracketed list, or whitespace-separated words,
/// each unquoted.
pub open spec fn spec_parse_list_or_word(v: Seq<char>) -> Seq<Seq<char>> {
    let t = trim(v);
    if t.len() == 0 {
        seq![]
    } else if t[0] == '[' && t[t.len() - 1] == ']' {
        spec_parse_list(t)
    } else {
        word_items(words(t))
    }
}

pub fn trim_string_chars(v: &[char]) -> (r: String)
    ensures
        r@ == spec_trim_string(v@),
{
    let t = trim_chars(v);
    if t.len() >= 2 && t[0] == '"' && t[t.len() - 1] == '"' {
        string_from(&t[1..t.len() - 1])
    } else {
        string_from(t)
    }
}

/// Removes surrounding whitespace, then one pair of enclosing double quotes.
pub fn trim_string(v: &str) -> (r: String)
    ensures
        r@ == spec_trim_string(v@),
{
    let cs = chars_of(v);
    trim_string_chars(cs.as_slice())
}

pub fn parse_list_chars(v: &[char]) -> (r: Vec<String>)
    requires
        v@.len() >= 2,
    ensures
        r.deep_view() == spec_parse_list(v@),
{
    let inner = trim_chars(&v[1..v.len() - 1]);
    let mut out: Vec<String> = Vec::new();
    if inner.len() == 0 {
        assert(out.deep_view() =~= seq![]);
        return out;
    }
    let rs = piece_ranges(inner, ',');
    let ghost ps = pieces(inner@, ',');
    let mut k: usize = 0;
    while k < rs.len()
        invariant
            k <= rs.len(),
            ranges_in(inner@, rs@),
            slices_of(inner@, rs@) == ps,
            out.deep_view() == list_items(ps.take(k as int)),
        decreases rs.len() - k,
    {
        let (a, b) = rs[k];
        assert(ps[k as int] == inner@.subrange(a as int, b as int));
        let item = trim_string_chars(trim_chars(&inner[a..b]));
        let ghost before = out.deep_view();
        out.push(item);
        proof {
            lemma_push_deep_view(before, out@, item);
            assert(item@ == spec_trim_string(trim(ps[k as int])));
            assert(list_items(ps.take(k + 1)) =~= list_items(ps.take(k as int)).push(item@));
        }
        k = k + 1;
        assert(out.deep_view() =~= list_items(ps.take(k as int)));
    }
    assert(ps.take(k as int) =~= ps);
    out
}

/// The items of a bracketed list `[a, b, ...]`. The first and last
/// characters are taken as the brackets.
pub fn parse_list(v: &str) -> (r: Vec<String>)
    requires
        v@.len() >= 2,
        (v@[0] as u32) < 128,
        (v@[v@.len() - 1] as u32) < 128,
    ensures
        r.deep_view() == spec_parse_list(v@),
{
    let cs = chars_of(v);
    parse_list_chars(cs.as_slice())
}

pub fn parse_list_or_word_chars(v: &[char]) -> (r: Vec<String>)
    ensures
        r.deep_view() == spec_parse_list_or_word(v@),
{
    let t = trim_chars(v);
    let mut out: Vec<String> = Vec::new();
    if t.len() == 0 {
        assert(out.deep_view() =~= seq![]);
        return out;
    }
    if t[0] == '[' && t[t.len() - 1] == ']' {
        if t.len() < 2 {
            assert(false);
        }
        return parse_list_chars(t);
    }
    let rs = word_ranges(t);
    let ghost ws = words(t@);
    let mut k: usize = 0;
    while k < rs.len()
        invariant
            k <= rs.len(),
            ranges_in(t@, rs@),
            slices_of(t@, rs@) == ws,
            out.deep_view() == word_items(ws.take(k as int)),
        decreases rs.len() - k,
    {
        let (a, b) = rs[k];
        assert(ws[k as int] == t@.subrange(a as int, b as int));
        let item = trim_string_chars(&t[a..b]);
        let ghost before = out.deep_view();
        out.push(item);
        proof {
            lemma_push_deep_view(before, out@, item);
            assert(item@ == spec_trim_string(ws[k as int]));
            assert(word_items(ws.take(k + 1)) =~= word_items(ws.take(k as int)).push(item@));
        }
        k = k + 1;
        assert(out.deep_view() =~= word_items(ws.take(k as int)));
    }
    assert(ws.take(k as int) =~= ws);
    out
}

/// A list value: empty, a bracketed list `[a, b]`, or words separated by
/// whitespace; each item is unquoted.
pub fn parse_list_or_word(v: &str) -> (r: Vec<String>)
    ensures
        r.deep_view() == spec_parse_list_or_word(v@),
{
    let cs = chars_of(v);
    parse_list_or_word_chars(cs.as_slice())
}

} // verus!

verus! {

// ---------- the parser ----------

/// The settings a new target block starts from.
pub open spec fn default_target() -> TargetSpec {
    TargetSpec {
        kind: TargetKind::Exe,
        language: Language::Cpp,
        sources: seq![],
        deps: seq![],
        output: seq![],
        cflags: seq![],
        cppflags: seq![],
        ldflags: seq![],
    }
}

pub open spec fn kw_target() -> Seq<char> {
    seq!['t', 'a', 'r', 'g', 'e', 't', ' ']
}

pub open spec fn kw_kind() -> Seq<char> {
    seq!['k', 'i', 'n', 'd']
}

pub open spec fn kw_language() -> Seq<char> {
    seq!['l', 'a', 'n', 'g', 'u', 'a', 'g', 'e']
}

pub open spec fn kw_sources() -> Seq<char> {
    seq!['s', 'o', 'u', 'r', 'c', 'e', 's']
}

pub open spec fn kw_deps() -> Seq<char> {
    seq!['d', 'e', 'p', 's']
}

pub open spec fn kw_output() -> Seq<char> {
    seq!['o', 'u', 't', 'p', 'u', 't']
}

pub open spec fn kw_cflags() -> Seq<char> {
    seq!['c', 'f', 'l', 'a', 'g', 's']
}

pub open spec fn kw_cppflags() -> Seq<char> {
    seq!['c', 'p', 'p', 'f', 'l', 'a', 'g', 's']
}

pub open spec fn kw_ldflags() -> Seq<char> {
    seq!['l', 'd', 'f', 'l', 'a', 'g', 's']
}

/// The kind that a `kind = ...` value names.
pub open spec fn spec_kind(v: Seq<char>) -> Option<TargetKind> {
    if v == seq!['e', 'x', 'e'] {
        Some(TargetKind::Exe)
    } else if v == seq!['s', 't', 'a', 't', 'i', 'c', 'l', 'i', 'b'] {
        Some(TargetKind::Staticlib)
    } else if v == seq!['s', 'h', 'a', 'r', 'e', 'd', 'l', 'i', 'b'] {
        Some(TargetKind::Sharedlib)
    } else {
        None
    }
}

/// The language that a `language = ...` value names.
pub open spec fn spec_language(v: Seq<char>) -> Option<Language> {
    if v == seq!['c'] {
        Some(Language::C)
    } else if v == seq!['c', 'p', 'p'] {
        Some(Language::Cpp)
    } else {
        None
    }
}

/// The target block `name` after the line `key = value`.
pub open spec fn apply_key(
    name: Seq<char>,
    t: TargetSpec,
    key: Seq<char>,
    value: Seq<char>,
    line: int,
) -> Result<TargetSpec, ConfigErrorSpec> {
    if key == kw_kind() {
        match spec_kind(spec_trim_string(value)) {
            Some(k) => Ok(TargetSpec { kind: k, ..t }),
            None => Err(ConfigErrorSpec::InvalidKind { line, value: spec_trim_string(value) }),
        }
    } else if key == kw_language() {
        match spec_language(spec_trim_string(value)) {
            Some(l) => Ok(TargetSpec { language: l, ..t }),
            None => Err(ConfigErrorSpec::InvalidLanguage { line, value: spec_trim_string(value) }),
        }
    } else if key == kw_sources() {
        Ok(TargetSpec { sources: spec_parse_list_or_word(value), ..t })
    } else if key == kw_deps() {
        Ok(TargetSpec { deps: spec_parse_list_or_word(value), ..t })
    } else if key == kw_output() {
        Ok(TargetSpec { output: spec_trim_string(value), ..t })
    } else if key == kw_cflags() {
        Ok(TargetSpec { cflags: spec_parse_list_or_word(value), ..t })
    } else if key == kw_cppflags() {
        Ok(TargetSpec { cppflags: spec_parse_list_or_word(value), ..t })
    } else if key == kw_ldflags() {
        Ok(TargetSpec { ldflags: spec_parse_list_or_word(value), ..t })
    } else {
        Err(ConfigErrorSpec::UnknownKey { line, key, target: name })
    }
}

/// The first index at or after `i` of an entry named `name`, or the length.
pub open spec fn name_index<T>(s: Seq<(Seq<char>, T)>, name: Seq<char>, i: int) -> int
    decreases s.len() - i,
{
    if 0 <= i < s.len() && s[i].0 != name {
        name_index(s, name, i + 1)
    } else {
        i
    }
}

pub proof fn lemma_name_index_bounds<T>(s: Seq<(Seq<char>, T)>, name: Seq<char>, i: int)
    requires
        0 <= i <= s.len(),
    ensures
        i <= name_index(s, name, i) <= s.len(),
        name_index(s, name, i) < s.len() ==> s[name_index(s, name, i)].0 == name,
        forall|k: int| i <= k < name_index(s, name, i) ==> #[trigger] s[k].0 != name,
    decreases s.len() - i,
{
    if i < s.len() && s[i].0 != name {
        lemma_name_index_bounds(s, name, i + 1);
    }
}

/// `s` with the entry `name` set to `t`: replaced in place where there is
/// one, appended where there is none, as a map insert does.
pub open spec fn put_named<T>(s: Seq<(Seq<char>, T)>, name: Seq<char>, t: T) -> Seq<
    (Seq<char>, T),
> {
    let k = name_index(s, name, 0);
    if k < s.len() {
        s.update(k, (name, t))
    } else {
        s.push((name, t))
    }
}

/// Where the parser stands between two lines.
pub struct ParseState {
    pub done: Seq<(Seq<char>, TargetSpec)>,
    pub current: Option<(Seq<char>, TargetSpec)>,
}

/// The parser's state after line number `line`, whose text is `raw`.
pub open spec fn parse_step(st: ParseState, line: int, raw: Seq<char>) -> Result<
    ParseState,
    ConfigErrorSpec,
> {
    let l = trim(raw);
    if l.len() == 0 || l[0] == '#' {
        Ok(st)
    } else if has_prefix(l, kw_target()) && l[l.len() - 1] == '{' {
        if st.current is Some {
            Err(ConfigErrorSpec::NestedTarget { line })
        } else {
            let inner = trim(l.subrange(7, l.len() - 1));
            if inner.len() == 0 {
                Err(ConfigErrorSpec::MissingTargetName { line })
            } else {
                Ok(ParseState { done: st.done, current: Some((inner, default_target())) })
            }
        }
    } else if l == seq!['}'] {
        match st.current {
            Some(c) => if c.1.output.len() == 0 {
                Err(ConfigErrorSpec::MissingOutput { target: c.0 })
            } else if c.1.sources.len() == 0 {
                Err(ConfigErrorSpec::NoSources { target: c.0 })
            } else {
                Ok(ParseState { done: put_named(st.done, c.0, c.1), current: None })
            },
            None => Err(ConfigErrorSpec::StrayBrace { line }),
        }
    } else {
        match st.current {
            None => Err(ConfigErrorSpec::KeyOutsideTarget { line }),
            Some(c) => {
                let e = find_from(l, '=', 0);
                if e >= l.len() {
                    Err(ConfigErrorSpec::ExpectedKeyValue { line })
                } else {
                    match apply_key(
                        c.0,
                        c.1,
                        trim(l.subrange(0, e)),
                        trim(l.subrange(e + 1, l.len() as int)),
                        line,
                    ) {
                        Ok(t) => Ok(ParseState { done: st.done, current: Some((c.0, t)) }),
                        Err(er) => Err(er),
                    }
                }
            },
        }
    }
}

/// The parser's state after the lines `ls[k..]`.
pub open spec fn parse_lines(ls: Seq<Seq<char>>, k: int, st: ParseState) -> Result<
    ParseState,
    ConfigErrorSpec,
>
    decreases ls.len() - k,
{
    if k < 0 || k >= ls.len() {
        Ok(st)
    } else {
        match parse_step(st, k + 1, ls[k]) {
            Ok(s2) => parse_lines(ls, k + 1, s2),
            Err(e) => Err(e),
        }
    }
}

/// What `build.cal` text `src` parses to.
pub open spec fn spec_parse_config(src: Seq<char>) -> Result<
    Seq<(Seq<char>, TargetSpec)>,
    ConfigErrorSpec,
> {
    match parse_lines(lines(src), 0, ParseState { done: seq![], current: None }) {
        Err(e) => Err(e),
        Ok(st) => if st.current is Some {
            Err(ConfigErrorSpec::UnterminatedTarget)
        } else if st.done.len() == 0 {
            Err(ConfigErrorSpec::NoTargets)
        } else {
            Ok(st.done)
        },
    }
}

} // verus!

verus! {

struct Parser {
    done: Vec<(String, TargetConfig)>,
    current: Option<(String, TargetConfig)>,
}

impl View for Parser {
    type V = ParseState;

    closed spec fn view(&self) -> ParseState {
        ParseState {
            done: named_view(self.done@),
            current: match self.current {
                Some(c) => Some((c.0@, c.1@)),
                None => None,
            },
        }
    }
}

fn new_target() -> (t: TargetConfig)
    ensures
        t@ == default_target(),
{
    let t = TargetConfig {
        kind: TargetKind::Exe,
        language: Language::Cpp,
        sources: Vec::new(),
        deps: Vec::new(),
        output: String::new(),
        cflags: Vec::new(),
        cppflags: Vec::new(),
        ldflags: Vec::new(),
    };
    assert(t@.sources =~= seq![]);
    assert(t@.deps =~= seq![]);
    assert(t@.cflags =~= seq![]);
    assert(t@.cppflags =~= seq![]);
    assert(t@.ldflags =~= seq![]);
    t
}

/// Sets the entry `name` of a list of named targets to `t`.
fn put_target(done: &mut Vec<(String, TargetConfig)>, name: String, t: TargetConfig)
    ensures
        named_view(final(done)@) == put_named(named_view(old(done)@), name@, t@),
{
    let ghost s = named_view(done@);
    proof {
        lemma_name_index_bounds(s, name@, 0);
    }
    let mut k: usize = 0;
    while k < done.len() && done[k].0 != name
        invariant
            k <= done.len(),
            s == named_view(done@),
            name_index(s, name@, k as int) == name_index(s, name@, 0),
        decreases done.len() - k,
    {
        k = k + 1;
    }
    let ghost nv = name@;
    let ghost tv = t@;
    if k < done.len() {
        assert(name_index(s, nv, k as int) == k as int);
        done.set(k, (name, t));
        assert(named_view(done@) =~= s.update(k as int, (nv, tv)));
    } else {
        done.push((name, t));
        assert(named_view(done@) =~= s.push((nv, tv)));
    }
}

fn kind_of(v: &[char]) -> (r: Option<TargetKind>)
    ensures
        r == spec_kind(v@),
{
    if chars_eq(v, &['e', 'x', 'e']) {
        Some(TargetKind::Exe)
    } else if chars_eq(v, &['s', 't', 'a', 't', 'i', 'c', 'l', 'i', 'b']) {
        Some(TargetKind::Staticlib)
    } else if chars_eq(v, &['s', 'h', 'a', 'r', 'e', 'd', 'l', 'i', 'b']) {
        Some(TargetKind::Sharedlib)
    } else {
        None
    }
}

fn language_of(v: &[char]) -> (r: Option<Language>)
    ensures
        r == spec_language(v@),
{
    let c_lit: [char; 1] = ['c'];
    assert(c_lit@ =~= seq!['c']);
    if chars_eq(v, &c_lit) {
        Some(Language::C)
    } else if chars_eq(v, &['c', 'p', 'p']) {
        Some(Language::Cpp)
    } else {
        None
    }
}

fn apply_key_exec(name: &String, t: TargetConfig, key: &[char], value: &[char], line: usize) -> (r:
    Result<TargetConfig, ConfigError>)
    ensures
        match r {
            Ok(t2) => apply_key(name@, t@, key@, value@, line as int) == Ok::<TargetSpec, ConfigErrorSpec>(t2@),
            Err(e) => apply_key(name@, t@, key@, value@, line as int) == Err::<TargetSpec, ConfigErrorSpec>(e@),
        },
{
    let mut t = t;
    if chars_eq(key, &['k', 'i', 'n', 'd']) {
        let val = trim_string_chars(value);
        let vc = chars_of(val.as_str());
        match kind_of(vc.as_slice()) {
            Some(k) => {
                t.kind = k;
                Ok(t)
            },
            None => Err(ConfigError::InvalidKind { line, value: val }),
        }
    } else if chars_eq(key, &['l', 'a', 'n', 'g', 'u', 'a', 'g', 'e']) {
        let val = trim_string_chars(value);
        let vc = chars_of(val.as_str());
        match language_of(vc.as_slice()) {
            Some(l) => {
                t.language = l;
                Ok(t)
            },
            None => Err(ConfigError::InvalidLanguage { line, value: val }),
        }
    } else if chars_eq(key, &['s', 'o', 'u', 'r', 'c', 'e', 's']) {
        t.sources = parse_list_or_word_chars(value);
        Ok(t)
    } else if chars_eq(key, &['d', 'e', 'p', 's']) {
        t.deps = parse_list_or_word_chars(value);
        Ok(t)
    } else if chars_eq(key, &['o', 'u', 't', 'p', 'u', 't']) {
        t.output = trim_string_chars(value);
        Ok(t)
    } else if chars_eq(key, &['c', 'f', 'l', 'a', 'g', 's']) {
        t.cflags = parse_list_or_word_chars(value);
        Ok(t)
    } else if chars_eq(key, &['c', 'p', 'p', 'f', 'l', 'a', 'g', 's']) {
        t.cppflags = parse_list_or_word_chars(value);
        Ok(t)
    } else if chars_eq(key, &['l', 'd', 'f', 'l', 'a', 'g', 's']) {
        t.ldflags = parse_list_or_word_chars(value);
        Ok(t)
    } else {
        Err(ConfigError::UnknownKey { line, key: string_from(key), target: name.clone() })
    }
}

fn step_exec(st: Parser, line: usize, raw: &[char]) -> (r: Result<Parser, ConfigError>)
    ensures
        match r {
            Ok(s2) => parse_step(st@, line as int, raw@) == Ok::<ParseState, ConfigErrorSpec>(s2@),
            Err(e) => parse_step(st@, line as int, raw@) == Err::<ParseState, ConfigErrorSpec>(e@),
        },
{
    let l = trim_chars(raw);
    if l.len() == 0 || l[0] == '#' {
        return Ok(st);
    }
    if starts_with(l, &['t', 'a', 'r', 'g', 'e', 't', ' ']) && l[l.len() - 1] == '{' {
        if st.current.is_some() {
            return Err(ConfigError::NestedTarget { line });
        }
        assert(l@[6] == ' ');
        let inner = trim_chars(&l[7..l.len() - 1]);
        if inner.len() == 0 {
            return Err(ConfigError::MissingTargetName { line });
        }
        let t = new_target();
        let s2 = Parser { done: st.done, current: Some((string_from(inner), t)) };
        return Ok(s2);
    }
    let close: [char; 1] = ['}'];
    assert(close@ =~= seq!['}']);
    if chars_eq(l, &close) {
        let Parser { done, current } = st;
        match current {
            Some(c) => {
                let (name, cfg) = c;
                if cfg.output.as_str().is_empty() {
                    return Err(ConfigError::MissingOutput { target: name });
                }
                if cfg.sources.len() == 0 {
                    return Err(ConfigError::NoSources { target: name });
                }
                let mut done = done;
                put_target(&mut done, name, cfg);
                return Ok(Parser { done, current: None });
            },
            None => {
                return Err(ConfigError::StrayBrace { line });
            },
        }
    }
    let Parser { done, current } = st;
    match current {
        None => Err(ConfigError::KeyOutsideTarget { line }),
        Some(c) => {
            let (name, cfg) = c;
            proof {
                lemma_find_from_bounds(l@, '=', 0);
            }
            let e = find_char(l, '=', 0);
            if e >= l.len() {
                return Err(ConfigError::ExpectedKeyValue { line });
            }
            let key = trim_chars(&l[0..e]);
            let value = trim_chars(&l[e + 1..l.len()]);
            match apply_key_exec(&name, cfg, key, value, line) {
                Ok(t) => Ok(Parser { done, current: Some((name, t)) }),
                Err(er) => Err(er),
            }
        },
    }
}

} // verus!

verus! {

/// Parses the text of a `build.cal` file.
///
/// Lines are trimmed; blank lines and lines starting with `#` are skipped.
/// `target NAME {` opens a block, `}` closes it, and inside a block each
/// line is `key = value`. A closed block needs an `output` and at least one
/// source. The whole file needs at least one target and no open block at
/// its end.
pub fn parse_config(src: &str) -> (r: Result<BuildConfig, ConfigError>)
    ensures
        match r {
            Ok(cfg) => spec_parse_config(src@) == Ok::<Seq<(Seq<char>, TargetSpec)>, ConfigErrorSpec>(cfg@),
            Err(e) => spec_parse_config(src@) == Err::<Seq<(Seq<char>, TargetSpec)>, ConfigErrorSpec>(e@),
        },
        r matches Ok(cfg) ==> config_valid(cfg@) && cfg@.len() > 0,
{
    proof {
        lemma_parsed_config_valid(src@);
    }
    let cs = chars_of(src);
    let s = cs.as_slice();
    let rs = line_ranges(s);
    let ghost ls = lines(s@);
    let mut st = Parser { done: Vec::new(), current: None };
    assert(named_view(st.done@) =~= seq![]);
    let ghost init = st@;
    assert(init == ParseState { done: seq![], current: None });
    assert(ls == lines(src@));
    let mut k: usize = 0;
    while k < rs.len()
        invariant
            k <= rs.len(),
            ranges_in(s@, rs@),
            slices_of(s@, rs@) == ls,
            parse_lines(ls, 0, init) == parse_lines(ls, k as int, st@),
            init == (ParseState { done: seq![], current: None }),
            ls == lines(src@),
        decreases rs.len() - k,
    {
        let (a, b) = rs[k];
        assert(ls[k as int] == s@.subrange(a as int, b as int));
        let ghost before = st@;
        assert(ls.len() == rs@.len());
        match step_exec(st, k + 1, &s[a..b]) {
            Ok(s2) => {
                st = s2;
            },
            Err(e) => {
                assert(parse_lines(ls, k as int, before) == Err::<ParseState, ConfigErrorSpec>(e@));
                return Err(e);
            },
        }
        k = k + 1;
    }
    let Parser { done, current } = st;
    if current.is_some() {
        return Err(ConfigError::UnterminatedTarget);
    }
    if done.len() == 0 {
        return Err(ConfigError::NoTargets);
    }
    Ok(BuildConfig { targets: done })
}

} // verus!

verus! {

/// No two entries share a name.
pub open spec fn names_distinct<T>(s: Seq<(Seq<char>, T)>) -> bool {
    forall|i: int, j: int| 0 <= i < s.len() && 0 <= j < s.len() && i != j ==> #[trigger] s[i].0 != #[trigger] s[j].0
}

/// Every target has an output and at least one source.
pub open spec fn targets_complete(s: Seq<(Seq<char>, TargetSpec)>) -> bool {
    forall|i: int| 0 <= i < s.len() ==> (#[trigger] s[i]).1.output.len() > 0 && s[i].1.sources.len() > 0
}

/// What every accepted `build.cal` gives: distinct names, and each target
/// with an output and a source.
pub open spec fn config_valid(s: Seq<(Seq<char>, TargetSpec)>) -> bool {
    names_distinct(s) && targets_complete(s)
}

pub proof fn lemma_put_named_distinct<T>(s: Seq<(Seq<char>, T)>, name: Seq<char>, t: T)
    requires
        names_distinct(s),
    ensures
        names_distinct(put_named(s, name, t)),
        put_named(s, name, t).len() >= 1,
        exists|k: int| 0 <= k < put_named(s, name, t).len() && put_named(s, name, t)[k] == (name, t),
        forall|k: int| 0 <= k < put_named(s, name, t).len() ==> #[trigger] put_named(s, name, t)[k] == (name, t) || (put_named(s, name, t)[k].0 != name && s.contains(put_named(s, name, t)[k])),
{
    lemma_name_index_bounds(s, name, 0);
    let k = name_index(s, name, 0);
    let r = put_named(s, name, t);
    if k < s.len() {
        assert(r[k] == (name, t));
        assert forall|j: int| 0 <= j < r.len() implies #[trigger] r[j] == (name, t) || (r[j].0 != name && s.contains(r[j])) by {
            if j != k {
                assert(s[j] == r[j]);
            }
        }
    } else {
        assert(r[s.len() as int] == (name, t));
        assert forall|j: int| 0 <= j < r.len() implies #[trigger] r[j] == (name, t) || (r[j].0 != name && s.contains(r[j])) by {
            if j < s.len() {
                assert(s[j] == r[j]);
            }
        }
    }
}

/// Each accepted state keeps the finished targets valid.
pub open spec fn state_valid(st: ParseState) -> bool {
    config_valid(st.done)
}

pub proof fn lemma_parse_step_valid(st: ParseState, line: int, raw: Seq<char>)
    requires
        state_valid(st),
    ensures
        parse_step(st, line, raw) matches Ok(s2) ==> state_valid(s2),
{
    let l = trim(raw);
    if l.len() == 0 || l[0] == '#' {
    } else if has_prefix(l, kw_target()) && l[l.len() - 1] == '{' {
    } else if l == seq!['}'] {
        if let Some(c) = st.current {
            if c.1.output.len() > 0 && c.1.sources.len() > 0 {
                lemma_put_named_distinct(st.done, c.0, c.1);
                let r = put_named(st.done, c.0, c.1);
                assert forall|i: int| 0 <= i < r.len() implies (#[trigger] r[i]).1.output.len() > 0 && r[i].1.sources.len() > 0 by {
                    if r[i] != (c.0, c.1) {
                        let j = choose|j: int| 0 <= j < st.done.len() && st.done[j] == r[i];
                        assert(st.done[j].1.output.len() > 0);
                    }
                }
            }
        }
    } else {
    }
}

pub proof fn lemma_parse_lines_valid(ls: Seq<Seq<char>>, k: int, st: ParseState)
    requires
        state_valid(st),
    ensures
        parse_lines(ls, k, st) matches Ok(s2) ==> state_valid(s2),
    decreases ls.len() - k,
{
    if 0 <= k < ls.len() {
        lemma_parse_step_valid(st, k + 1, ls[k]);
        if let Ok(s2) = parse_step(st, k + 1, ls[k]) {
            lemma_parse_lines_valid(ls, k + 1, s2);
        }
    }
}

/// Every configuration that parses has distinct target names, and each of
/// its targets has an output and at least one source.
pub proof fn lemma_parsed_config_valid(src: Seq<char>)
    ensures
        spec_parse_config(src) matches Ok(c) ==> config_valid(c) && c.len() > 0,
{
    lemma_parse_lines_valid(lines(src), 0, ParseState { done: seq![], current: None });
}

} // verus!

verus! {

/// A value written in double quotes reads back as exactly what is between
/// them, whitespace and all.
pub proof fn lemma_quoted_value(s: Seq<char>)
    ensures
        spec_trim_string(seq!['"'] + s + seq!['"']) == s,
{
    let q = seq!['"'] + s + seq!['"'];
    crate::text::lemma_skip_ws_bounds(q, 0);
    assert(!is_ws(q[0]));
    assert(crate::text::skip_ws(q, 0) == 0);
    assert(!is_ws(q[q.len() - 1]));
    assert(crate::text::back_ws(q, 0, q.len() as int) == q.len());
    assert(trim(q) =~= q);
    assert(q.subrange(1, q.len() - 1) =~= s);
}

} // verus!

verus! {

// ---------- lines that say nothing ----------

/// A line that the parser skips: blank, or a comment.
pub open spec fn is_blank_line(raw: Seq<char>) -> bool {
    trim(raw).len() == 0 || trim(raw)[0] == '#'
}

proof fn lemma_step_line_irrelevant(st: ParseState, l1: int, l2: int, raw: Seq<char>)
    ensures
        parse_step(st, l1, raw) is Ok <==> parse_step(st, l2, raw) is Ok,
        parse_step(st, l1, raw) is Ok ==> parse_step(st, l1, raw) == parse_step(st, l2, raw),
{
}

proof fn lemma_parse_lines_shifted(ls: Seq<Seq<char>>, ls2: Seq<Seq<char>>, k: int, st: ParseState)
    requires
        0 <= k <= ls.len(),
        ls2.len() == ls.len() + 1,
        forall|m: int| k <= m < ls.len() ==> #[trigger] ls2[m + 1] == ls[m],
    ensures
        parse_lines(ls2, k + 1, st) is Ok <==> parse_lines(ls, k, st) is Ok,
        parse_lines(ls, k, st) is Ok ==> parse_lines(ls2, k + 1, st) == parse_lines(ls, k, st),
    decreases ls.len() - k,
{
    if k < ls.len() {
        assert(ls2[k + 1] == ls[k]);
        lemma_step_line_irrelevant(st, k + 1, k + 2, ls[k]);
        match parse_step(st, k + 1, ls[k]) {
            Ok(s2) => {
                lemma_parse_lines_shifted(ls, ls2, k + 1, s2);
            },
            Err(_) => {},
        }
    }
}

proof fn lemma_parse_lines_insert(ls: Seq<Seq<char>>, j: int, b: Seq<char>, k: int, st: ParseState)
    requires
        0 <= k <= j <= ls.len(),
        is_blank_line(b),
    ensures
        parse_lines(ls.insert(j, b), k, st) is Ok <==> parse_lines(ls, k, st) is Ok,
        parse_lines(ls, k, st) is Ok ==> parse_lines(ls.insert(j, b), k, st) == parse_lines(ls, k, st),
    decreases j - k,
{
    let ls2 = ls.insert(j, b);
    if k < j {
        assert(ls2[k] == ls[k]);
        match parse_step(st, k + 1, ls[k]) {
            Ok(s2) => {
                lemma_parse_lines_insert(ls, j, b, k + 1, s2);
            },
            Err(_) => {},
        }
    } else {
        assert(ls2[j] == b);
        assert(parse_step(st, j + 1, b) == Ok::<ParseState, ConfigErrorSpec>(st));
        assert forall|m: int| j <= m < ls.len() implies #[trigger] ls2[m + 1] == ls[m] by {}
        lemma_parse_lines_shifted(ls, ls2, j, st);
    }
}

/// Blank and comment lines say nothing: a text with one more such line
/// parses where the text without it parses, to the same targets. (Only the
/// line numbers that errors report can differ.)
pub proof fn lemma_blank_line_ignored(src: Seq<char>, src2: Seq<char>, j: int, b: Seq<char>)
    requires
        0 <= j <= lines(src).len(),
        is_blank_line(b),
        lines(src2) == lines(src).insert(j, b),
    ensures
        spec_parse_config(src2) is Ok <==> spec_parse_config(src) is Ok,
        spec_parse_config(src) is Ok ==> spec_parse_config(src2) == spec_parse_config(src),
{
    let st = ParseState { done: seq![], current: None };
    lemma_parse_lines_insert(lines(src), j, b, 0, st);
}

} // verus!
