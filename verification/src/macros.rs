//! The preprocessor of the dialect: `//#` directives and text macros.
//!
//! The whole input is first scanned for `//#DEFINE name value` lines; the
//! built-in macro `var` (`let mut`) is always present. Lines are then
//! processed one at a time by [`Dialect::step`]. An `//#INCLUDE path` line asks
//! the caller for a file ([`DialectEvent::Include`]); the caller answers with
//! [`Dialect::include_file`]. The same full path is included at most once.
use vstd::prelude::*;
use crate::text::{
    chars_of, ends_with, ends_with_of, is_alphanumeric, char_alphanumeric, is_ident_of, is_ws, join, join_of, lines,
    lines_of, push_chars, push_str, slice_of, starts_with, starts_with_of, string_of, trim,
    trim_of, trim_start, trim_start_of, views, words, words_of, words_acc, eq_str,
};

verus! {

// ---------------------------------------------------------------------------
// Macro tables
// ---------------------------------------------------------------------------
/// The value of macro `k`: its latest definition.
pub open spec fn lookup(es: Seq<(Seq<char>, Seq<char>)>, k: Seq<char>) -> Option<Seq<char>>
    decreases es.len(),
{
    if es.len() == 0 {
        None
    } else if es.last().0 == k {
        Some(es.last().1)
    } else {
        lookup(es.drop_last(), k)
    }
}

/// The definitions that survive `//#CLEAR_MACROES`: those of `var`.
pub open spec fn keep_var(es: Seq<(Seq<char>, Seq<char>)>) -> Seq<(Seq<char>, Seq<char>)>
    decreases es.len(),
{
    if es.len() == 0 {
        es
    } else if es.last().0 == "var"@ {
        keep_var(es.drop_last()).push(es.last())
    } else {
        keep_var(es.drop_last())
    }
}

/// A table of macro definitions, later definitions shadowing earlier ones.
pub struct MacroTable {
    entries: Vec<(Vec<char>, Vec<char>)>,
}

pub open spec fn entry_views(v: Seq<(Vec<char>, Vec<char>)>) -> Seq<(Seq<char>, Seq<char>)> {
    v.map_values(|e: (Vec<char>, Vec<char>)| (e.0@, e.1@))
}

impl View for MacroTable {
    type V = Seq<(Seq<char>, Seq<char>)>;

    closed spec fn view(&self) -> Seq<(Seq<char>, Seq<char>)> {
        entry_views(self.entries@)
    }
}

impl MacroTable {
    /// An empty table.
    pub fn new() -> (r: MacroTable)
        ensures
            r@ == Seq::<(Seq<char>, Seq<char>)>::empty(),
    {
        let r = MacroTable { entries: Vec::new() };
        assert(r@ =~= Seq::<(Seq<char>, Seq<char>)>::empty());
        r
    }

    /// Defines (or redefines) `k` as `v`.
    pub fn insert(&mut self, k: Vec<char>, v: Vec<char>)
        ensures
            final(self)@ == old(self)@.push((k@, v@)),
    {
        let ghost prev = self@;
        self.entries.push((k, v));
        assert(self@ =~= prev.push((k@, v@)));
    }

    /// The value of `k`, if it is defined.
    pub fn get(&self, k: &Vec<char>) -> (r: Option<Vec<char>>)
        ensures
            match r {
                Some(v) => lookup(self@, k@) == Some(v@),
                None => lookup(self@, k@) is None,
            },
    {
        let mut j = self.entries.len();
        assert(self@.take(j as int) =~= self@);
        while j > 0
            invariant
                j <= self.entries.len(),
                self@ == entry_views(self.entries@),
                lookup(self@, k@) == lookup(self@.take(j as int), k@),
            decreases j,
        {
            let e = &self.entries[j - 1];
            assert(self@.take(j as int).last() == (e.0@, e.1@));
            if vec_eq(&e.0, k) {
                let r = e.1.clone();
                assert(r@ =~= e.1@);
                return Some(r);
            }
            assert(self@.take(j as int).drop_last() =~= self@.take(j - 1));
            j -= 1;
        }
        None
    }

    /// Removes every definition but those of `var`.
    pub fn retain_var(&mut self)
        ensures
            final(self)@ == keep_var(old(self)@),
    {
        let ghost old_v = self@;
        let mut kept: Vec<(Vec<char>, Vec<char>)> = Vec::new();
        let var = chars_of("var");
        let mut i: usize = 0;
        assert(old_v.take(0) =~= Seq::<(Seq<char>, Seq<char>)>::empty());
        while i < self.entries.len()
            invariant
                i <= self.entries.len(),
                old_v == entry_views(self.entries@),
                var@ == "var"@,
                entry_views(kept@) == keep_var(old_v.take(i as int)),
            decreases self.entries.len() - i,
        {
            let e = &self.entries[i];
            let ghost ev = (e.0@, e.1@);
            assert(old_v.take(i + 1).drop_last() =~= old_v.take(i as int));
            assert(old_v.take(i + 1).last() == ev);
            if vec_eq(&e.0, &var) {
                let ghost prev = entry_views(kept@);
                let k = e.0.clone();
                let v = e.1.clone();
                assert(k@ =~= e.0@);
                assert(v@ =~= e.1@);
                kept.push((k, v));
                assert(entry_views(kept@) =~= prev.push(ev));
            }
            i += 1;
        }
        assert(old_v.take(self.entries.len() as int) =~= old_v);
        self.entries = kept;
    }
}

/// Whether two character vectors are equal.
pub fn vec_eq(a: &Vec<char>, b: &Vec<char>) -> (r: bool)
    ensures
        r == (a@ == b@),
{
    if a.len() != b.len() {
        return false;
    }
    let mut i: usize = 0;
    while i < a.len()
        invariant
            i <= a.len(),
            a.len() == b.len(),
            forall|k: int| 0 <= k < i ==> a@[k] == b@[k],
        decreases a.len() - i,
    {
        if a[i] != b[i] {
            return false;
        }
        i += 1;
    }
    assert(a@ =~= b@);
    true
}

// ---------------------------------------------------------------------------
// Definitions and expansion
// ---------------------------------------------------------------------------
/// The definition that a line makes: `//#DEFINE name value...` (after
/// leading white space) defines `name` as the rest of its words joined by
/// single spaces.
pub open spec fn definition_of(line: Seq<char>) -> Seq<(Seq<char>, Seq<char>)> {
    let t = trim_start_of(line);
    let parts = words_of(t);
    if starts_with_of(t, "//#DEFINE"@) && parts.len() >= 3 {
        seq![(parts[1], join_of(parts.skip(2), " "@))]
    } else {
        Seq::empty()
    }
}

/// The definitions made by `ls`, in order.
pub open spec fn definitions_of(ls: Seq<Seq<char>>) -> Seq<(Seq<char>, Seq<char>)>
    decreases ls.len(),
{
    if ls.len() == 0 {
        Seq::empty()
    } else {
        definitions_of(ls.drop_last()) + definition_of(ls.last())
    }
}

/// The characters that make up a macro word.
pub open spec fn is_word_char(c: char) -> bool {
    char_alphanumeric(c) || c == '_' || c == ')' || c == ':' || c == '=' || c == '>' || c == '-'
}

/// A word replaced by its macro value.
pub open spec fn subst(w: Seq<char>, m: Seq<(Seq<char>, Seq<char>)>) -> Seq<char> {
    if w.len() == 0 {
        w
    } else {
        match lookup(m, w) {
            Some(v) => v,
            None => w,
        }
    }
}

/// The expansion of the rest `s` of a line, `w` being the word read so far.
pub open spec fn expand_acc(
    s: Seq<char>,
    m: Seq<(Seq<char>, Seq<char>)>,
    w: Seq<char>,
) -> Seq<char>
    decreases s.len(),
{
    if s.len() == 0 {
        subst(w, m)
    } else if is_word_char(s[0]) {
        expand_acc(s.drop_first(), m, w.push(s[0]))
    } else {
        subst(w, m) + seq![s[0]] + expand_acc(s.drop_first(), m, Seq::empty())
    }
}

/// `line` with every macro word replaced by its value.
pub open spec fn expand_of(line: Seq<char>, m: Seq<(Seq<char>, Seq<char>)>) -> Seq<char> {
    expand_acc(line, m, Seq::empty())
}

fn is_word_char_exec(c: char) -> (r: bool)
    ensures
        r == is_word_char(c),
{
    is_alphanumeric(c) || c == '_' || c == ')' || c == ':' || c == '=' || c == '>' || c == '-'
}

fn push_subst(out: &mut Vec<char>, w: &Vec<char>, macros: &MacroTable)
    ensures
        final(out)@ == old(out)@ + subst(w@, macros@),
{
    if w.len() == 0 {
        assert(old(out)@ + w@ =~= old(out)@);
        return ;
    }
    match macros.get(w) {
        Some(v) => push_chars(out, &v),
        None => push_chars(out, w),
    }
}

/// Appends `line` to `out` with its macro words replaced by their values.
pub fn apply_macros(line: &Vec<char>, macros: &MacroTable, out: &mut Vec<char>)
    ensures
        final(out)@ == old(out)@ + expand_of(line@, macros@),
{
    let ghost start = out@;
    let mut word: Vec<char> = Vec::new();
    let mut i: usize = 0;
    assert(line@.skip(0) =~= line@);
    assert(out@ =~= start + Seq::<char>::empty());
    while i < line.len()
        invariant
            i <= line.len(),
            start + expand_of(line@, macros@) == out@ + expand_acc(
                line@.skip(i as int),
                macros@,
                word@,
            ),
        decreases line.len() - i,
    {
        assert(line@.skip(i as int).drop_first() =~= line@.skip(i + 1));
        let c = line[i];
        if is_word_char_exec(c) {
            word.push(c);
        } else {
            let ghost prev = out@;
            let ghost w = word@;
            push_subst(out, &word, macros);
            out.push(c);
            word = Vec::new();
            assert(out@ + expand_acc(line@.skip(i + 1), macros@, word@) =~= prev + (subst(
                w,
                macros@,
            ) + seq![c] + expand_acc(line@.skip(i + 1), macros@, Seq::empty())));
        }
        i += 1;
    }
    push_subst(out, &word, macros);
}

/// The definitions made by the lines of `text`.
pub fn collect_definitions(text: &Vec<char>) -> (r: MacroTable)
    ensures
        r@ == definitions_of(lines_of(text@)),
{
    let ls = lines(text);
    let ghost lv = views(ls@);
    let mut table = MacroTable::new();
    let mut i: usize = 0;
    assert(lv.take(0) =~= Seq::<Seq<char>>::empty());
    while i < ls.len()
        invariant
            i <= ls.len(),
            lv == views(ls@),
            lv == lines_of(text@),
            table@ == definitions_of(lv.take(i as int)),
        decreases ls.len() - i,
    {
        let t = trim_start(&ls[i]);
        assert(lv.take(i + 1).drop_last() =~= lv.take(i as int));
        assert(lv.take(i + 1).last() == ls@[i as int]@);
        let ghost prev = table@;
        if starts_with(&t, "//#DEFINE") {
            let parts = words(&t);
            if parts.len() >= 3 {
                let mut rest: Vec<Vec<char>> = Vec::new();
                let mut j: usize = 2;
                while j < parts.len()
                    invariant
                        2 <= j <= parts.len(),
                        views(rest@) =~= views(parts@).subrange(2, j as int),
                    decreases parts.len() - j,
                {
                    let c = parts[j].clone();
                    assert(c@ =~= parts@[j as int]@);
                    let ghost prev = views(rest@);
                    rest.push(c);
                    assert(views(rest@) =~= prev.push(views(parts@)[j as int]));
                    j += 1;
                }
                assert(views(rest@) =~= views(parts@).skip(2));
                let value = join(&rest, " ");
                let name = parts[1].clone();
                assert(name@ == views(parts@)[1]);
                table.insert(name, value);
                assert(table@ =~= prev + definition_of(ls@[i as int]@));
            } else {
                assert(table@ =~= prev + definition_of(ls@[i as int]@));
            }
        } else {
            assert(table@ =~= prev + definition_of(ls@[i as int]@));
        }
        i += 1;
    }
    assert(lv.take(ls.len() as int) =~= lv);
    table
}

} // verus!

verus! {

// ---------------------------------------------------------------------------
// The preprocessor as a state machine
// ---------------------------------------------------------------------------
/// The state of the preprocessor, as values.
pub struct DialectState {
    /// The lines of the input.
    pub lines: Seq<Seq<char>>,
    /// The index of the next line to process.
    pub next: nat,
    /// The directory that relative include paths are resolved against.
    pub lib_root: Seq<char>,
    /// The macro definitions, later ones shadowing earlier ones.
    pub macros: Seq<(Seq<char>, Seq<char>)>,
    /// The full paths already included.
    pub visited: Seq<Seq<char>>,
    /// `//#ENABLE_MACRO` is in force.
    pub enabled: bool,
    /// `//#NO_SPACE` is in force.
    pub strict_tabs: bool,
    /// The text produced so far.
    pub output: Seq<char>,
    /// The include (path as written, full path) waiting for its file.
    pub pending: Option<(Seq<char>, Seq<char>)>,
}

/// What a step asks of the caller.
pub enum Outcome {
    /// A line was processed.
    Line,
    /// The file at this full path is needed.
    Include(Seq<char>),
    /// The line with this number (from 1) is indented with spaces under `//#NO_SPACE`.
    StyleError(nat),
    /// Every line has been processed.
    Finished,
}

/// The full path of an include: absolute paths as written, others below `root`.
pub open spec fn full_path_of(path: Seq<char>, root: Seq<char>) -> Seq<char> {
    if starts_with_of(path, "/"@) {
        path
    } else if ends_with_of(root, "/"@) || root.len() == 0 {
        root + path
    } else {
        root + "/"@ + path
    }
}

/// The state before the first line.
pub open spec fn initial_state(input: Seq<char>, lib_root: Seq<char>) -> DialectState {
    DialectState {
        lines: lines_of(input),
        next: 0,
        lib_root,
        macros: definitions_of(lines_of(input)).push(("var"@, "let mut"@)),
        visited: Seq::empty(),
        enabled: false,
        strict_tabs: false,
        output: Seq::empty(),
        pending: None,
    }
}

/// The processing of the next line.
pub open spec fn dialect_step(m: DialectState) -> (DialectState, Outcome) {
    if let Some(p) = m.pending {
        (m, Outcome::Include(p.1))
    } else if m.next >= m.lines.len() {
        (m, Outcome::Finished)
    } else {
        let line = m.lines[m.next as int];
        let t = trim_start_of(line);
        let m1 = DialectState { next: m.next + 1, ..m };
        if starts_with_of(t, "//#"@) {
            if starts_with_of(t, "//#NO_SPACE"@) {
                (
                    DialectState { strict_tabs: true, output: m.output + line + "\n"@, ..m1 },
                    Outcome::Line,
                )
            } else if starts_with_of(t, "//#ENABLE_MACRO"@) {
                (
                    DialectState { enabled: true, output: m.output + line + "\n"@, ..m1 },
                    Outcome::Line,
                )
            } else if starts_with_of(t, "//#DISABLE_MACRO"@) {
                (
                    DialectState { enabled: false, output: m.output + line + "\n"@, ..m1 },
                    Outcome::Line,
                )
            } else if starts_with_of(t, "//#INCLUDE"@) {
                let path = trim_of(t.skip(10));
                let full = full_path_of(path, m.lib_root);
                if m.visited.contains(full) {
                    (DialectState { output: m.output + "\n"@, ..m1 }, Outcome::Line)
                } else {
                    (
                        DialectState {
                            visited: m.visited.push(full),
                            pending: Some((path, full)),
                            ..m1
                        },
                        Outcome::Include(full),
                    )
                }
            } else if starts_with_of(t, "//#DEFINE"@) {
                (m1, Outcome::Line)
            } else if starts_with_of(t, "//#CLEAR_MACROES"@) {
                (DialectState { macros: keep_var(m.macros), ..m1 }, Outcome::Line)
            } else {
                (DialectState { output: m.output + line + "\n"@, ..m1 }, Outcome::Line)
            }
        } else if m.strict_tabs && line.len() > 0 && line[0] == ' ' {
            (m, Outcome::StyleError(m.next + 1))
        } else {
            (
                DialectState {
                    output: m.output + (if m.enabled {
                        expand_of(line, m.macros)
                    } else {
                        line
                    }) + "\n"@,
                    ..m1
                },
                Outcome::Line,
            )
        }
    }
}

/// The lines of an included file as they go to the output.
pub open spec fn include_body_of(
    ls: Seq<Seq<char>>,
    ms: Seq<(Seq<char>, Seq<char>)>,
    enabled: bool,
) -> Seq<char>
    decreases ls.len(),
{
    if ls.len() == 0 {
        Seq::empty()
    } else {
        let l = ls.last();
        include_body_of(ls.drop_last(), ms, enabled) + (if enabled && !starts_with_of(
            trim_start_of(l),
            "//!"@,
        ) {
            expand_of(l, ms)
        } else {
            l
        }) + "\n"@
    }
}

/// The state after the caller answers a pending include with the file's
/// text, or `None` where the file could not be read.
pub open spec fn include_step(m: DialectState, content: Option<Seq<char>>) -> DialectState {
    match m.pending {
        None => m,
        Some((path, full)) => match content {
            None => DialectState {
                output: m.output + "// ERROR: Could not find include file: "@ + path + "\n"@
                    + "\n"@,
                pending: None,
                ..m
            },
            Some(c) => {
                let ms = m.macros + definitions_of(lines_of(c));
                DialectState {
                    output: m.output + "// --- Start of Include: "@ + full + " ---\n"@
                        + include_body_of(lines_of(c), ms, m.enabled) + "// --- End of Include: "@
                        + full + " ---\n"@ + "\n"@,
                    macros: ms,
                    pending: None,
                    ..m
                }
            },
        },
    }
}

/// What a step of [`Dialect`] reports.
pub enum DialectEvent {
    /// A line was processed.
    Line,
    /// Read the file at this full path and pass its text to [`Dialect::include_file`].
    Include(String),
    /// This line (numbered from 1) is indented with spaces under `//#NO_SPACE`.
    StyleError(usize),
    /// Every line has been processed; [`Dialect::output`] holds the result.
    Finished,
}

pub open spec fn event_view(e: DialectEvent) -> Outcome {
    match e {
        DialectEvent::Line => Outcome::Line,
        DialectEvent::Include(s) => Outcome::Include(s@),
        DialectEvent::StyleError(n) => Outcome::StyleError(n as nat),
        DialectEvent::Finished => Outcome::Finished,
    }
}

/// The preprocessor of one input text.
pub struct Dialect {
    lines: Vec<Vec<char>>,
    next: usize,
    lib_root: Vec<char>,
    macros: MacroTable,
    visited: Vec<Vec<char>>,
    enabled: bool,
    strict_tabs: bool,
    output: Vec<char>,
    pending: Option<(Vec<char>, Vec<char>)>,
}

pub open spec fn pending_view(p: Option<(Vec<char>, Vec<char>)>) -> Option<(Seq<char>, Seq<char>)> {
    match p {
        Some((a, b)) => Some((a@, b@)),
        None => None,
    }
}

impl View for Dialect {
    type V = DialectState;

    closed spec fn view(&self) -> DialectState {
        DialectState {
            lines: views(self.lines@),
            next: self.next as nat,
            lib_root: self.lib_root@,
            macros: self.macros@,
            visited: views(self.visited@),
            enabled: self.enabled,
            strict_tabs: self.strict_tabs,
            output: self.output@,
            pending: pending_view(self.pending),
        }
    }
}

fn full_path(path: &Vec<char>, root: &Vec<char>) -> (r: Vec<char>)
    ensures
        r@ == full_path_of(path@, root@),
{
    if starts_with(path, "/") {
        let r = path.clone();
        assert(r@ =~= path@);
        return r;
    }
    let mut r = root.clone();
    assert(r@ =~= root@);
    if !(ends_with(root, "/") || root.len() == 0) {
        push_str(&mut r, "/");
    }
    push_chars(&mut r, path);
    r
}

fn contains_path(v: &Vec<Vec<char>>, p: &Vec<char>) -> (r: bool)
    ensures
        r == views(v@).contains(p@),
{
    let mut i: usize = 0;
    while i < v.len()
        invariant
            i <= v.len(),
            forall|k: int| 0 <= k < i ==> views(v@)[k] != p@,
        decreases v.len() - i,
    {
        if vec_eq(&v[i], p) {
            assert(views(v@)[i as int] == p@);
            return true;
        }
        i += 1;
    }
    false
}

impl Dialect {
    /// The preprocessor of `input`, resolving relative includes below `lib_root`.
    pub fn new(input: &str, lib_root: &str) -> (r: Dialect)
        ensures
            r@ == initial_state(input@, lib_root@),
    {
        let iv = chars_of(input);
        let mut macros = collect_definitions(&iv);
        macros.insert(chars_of("var"), chars_of("let mut"));
        let r = Dialect {
            lines: lines(&iv),
            next: 0,
            lib_root: chars_of(lib_root),
            macros,
            visited: Vec::new(),
            enabled: false,
            strict_tabs: false,
            output: Vec::new(),
            pending: None,
        };
        assert(views(r.visited@) =~= Seq::<Seq<char>>::empty());
        r
    }

    /// The text produced so far.
    pub fn output(&self) -> (r: String)
        ensures
            r@ == self@.output,
    {
        string_of(&self.output)
    }

    /// Processes the next line.
    pub fn step(&mut self) -> (r: DialectEvent)
        ensures
            (final(self)@, event_view(r)) == dialect_step(old(self)@),
    {
        if let Some((_, full)) = &self.pending {
            return DialectEvent::Include(string_of(full));
        }
        if self.next >= self.lines.len() {
            return DialectEvent::Finished;
        }
        let ghost m = self@;
        let line = self.lines[self.next].clone();
        assert(line@ =~= views(self.lines@)[self.next as int]);
        let t = trim_start(&line);
        if starts_with(&t, "//#") {
            if starts_with(&t, "//#NO_SPACE") {
                self.strict_tabs = true;
                push_chars(&mut self.output, &line);
                push_str(&mut self.output, "\n");
            } else if starts_with(&t, "//#ENABLE_MACRO") {
                self.enabled = true;
                push_chars(&mut self.output, &line);
                push_str(&mut self.output, "\n");
            } else if starts_with(&t, "//#DISABLE_MACRO") {
                self.enabled = false;
                push_chars(&mut self.output, &line);
                push_str(&mut self.output, "\n");
            } else if starts_with(&t, "//#INCLUDE") {
                proof {
                    reveal_strlit("//#INCLUDE");
                }
                let rest = slice_of(&t, 10, t.len());
                assert(rest@ =~= t@.skip(10));
                let path = trim(&rest);
                let full = full_path(&path, &self.lib_root);
                if contains_path(&self.visited, &full) {
                    push_str(&mut self.output, "\n");
                } else {
                    let ghost pv = views(self.visited@);
                    self.visited.push(full.clone());
                    assert(views(self.visited@) =~= pv.push(full@));
                    let name = string_of(&full);
                    self.pending = Some((path, full));
                    self.next = self.next + 1;
                    return DialectEvent::Include(name);
                }
            } else if starts_with(&t, "//#DEFINE") {
            } else if starts_with(&t, "//#CLEAR_MACROES") {
                self.macros.retain_var();
            } else {
                push_chars(&mut self.output, &line);
                push_str(&mut self.output, "\n");
            }
        } else if self.strict_tabs && line.len() > 0 && line[0] == ' ' {
            return DialectEvent::StyleError(self.next + 1);
        } else {
            if self.enabled {
                apply_macros(&line, &self.macros, &mut self.output);
            } else {
                push_chars(&mut self.output, &line);
            }
            push_str(&mut self.output, "\n");
        }
        self.next = self.next + 1;
        DialectEvent::Line
    }

    /// Answers the pending include with the file's text, or `None` where the
    /// file could not be read.
    pub fn include_file(&mut self, content: Option<&str>)
        ensures
            final(self)@ == include_step(
                old(self)@,
                match content {
                    Some(c) => Some(c@),
                    None => None,
                },
            ),
    {
        let ghost m = self@;
        let pending = self.pending.take();
        match pending {
            None => {},
            Some((path, full)) => {
                match content {
                    None => {
                        push_str(&mut self.output, "// ERROR: Could not find include file: ");
                        push_chars(&mut self.output, &path);
                        push_str(&mut self.output, "\n");
                        push_str(&mut self.output, "\n");
                        assert(self.output@ =~= m.output + "// ERROR: Could not find include file: "@
                            + path@ + "\n"@ + "\n"@);
                    },
                    Some(c) => {
                        let cv = chars_of(c);
                        let defs = collect_definitions(&cv);
                        let mut k: usize = 0;
                        let ghost m0 = self.macros@;
                        while k < defs.entries.len()
                            invariant
                                k <= defs.entries.len(),
                                self.macros@ == m0 + defs@.take(k as int),
                                m0 == m.macros,
                                defs@ == definitions_of(lines_of(c@)),
                                self.output@ == m.output,
                                self.enabled == m.enabled,
                                self.pending is None,
                                self.lines@ == old(self).lines@,
                                self.next == old(self).next,
                                self.lib_root@ == old(self).lib_root@,
                                self.visited@ == old(self).visited@,
                                self.strict_tabs == old(self).strict_tabs,
                            decreases defs.entries.len() - k,
                        {
                            let e = &defs.entries[k];
                            let a = e.0.clone();
                            let b = e.1.clone();
                            assert(a@ =~= e.0@);
                            assert(b@ =~= e.1@);
                            assert(defs@[k as int] == (e.0@, e.1@));
                            self.macros.insert(a, b);
                            assert(defs@.take(k + 1) =~= defs@.take(k as int).push(defs@[k as int]));
                            k += 1;
                        }
                        assert(defs@.take(defs.entries.len() as int) =~= defs@);
                        push_str(&mut self.output, "// --- Start of Include: ");
                        push_chars(&mut self.output, &full);
                        push_str(&mut self.output, " ---\n");
                        let ls = lines(&cv);
                        let ghost lv = views(ls@);
                        let ghost base = self.output@;
                        let mut i: usize = 0;
                        assert(lv.take(0) =~= Seq::<Seq<char>>::empty());
                        assert(self.output@ =~= base + include_body_of(lv.take(0), self.macros@, self.enabled));
                        while i < ls.len()
                            invariant
                                i <= ls.len(),
                                lv == views(ls@),
                                lv == lines_of(c@),
                                self.macros@ == m.macros + definitions_of(lines_of(c@)),
                                self.enabled == m.enabled,
                                self.pending is None,
                                self.lines@ == old(self).lines@,
                                self.next == old(self).next,
                                self.lib_root@ == old(self).lib_root@,
                                self.visited@ == old(self).visited@,
                                self.strict_tabs == old(self).strict_tabs,
                                self.output@ == base + include_body_of(
                                    lv.take(i as int),
                                    self.macros@,
                                    self.enabled,
                                ),
                            decreases ls.len() - i,
                        {
                            let l = &ls[i];
                            assert(lv.take(i + 1).drop_last() =~= lv.take(i as int));
                            assert(lv.take(i + 1).last() == l@);
                            if self.enabled && !starts_with(&trim_start(l), "//!") {
                                apply_macros(l, &self.macros, &mut self.output);
                            } else {
                                push_chars(&mut self.output, l);
                            }
                            push_str(&mut self.output, "\n");
                            i += 1;
                        }
                        assert(lv.take(ls.len() as int) =~= lv);
                        push_str(&mut self.output, "// --- End of Include: ");
                        push_chars(&mut self.output, &full);
                        push_str(&mut self.output, " ---\n");
                        push_str(&mut self.output, "\n");
                        assert(self.macros@ == m.macros + definitions_of(lines_of(c@)));
                        assert(self.output@ =~= m.output + "// --- Start of Include: "@ + full@
                            + " ---\n"@ + include_body_of(lines_of(c@), self.macros@, m.enabled)
                            + "// --- End of Include: "@ + full@ + " ---\n"@ + "\n"@);
                    },
                }
            },
        }
    }
}

} // verus!

verus! {

// ---------------------------------------------------------------------------
// Laws
// ---------------------------------------------------------------------------
proof fn lemma_lookup_append(es: Seq<(Seq<char>, Seq<char>)>, more: Seq<(Seq<char>, Seq<char>)>, k: Seq<char>)
    requires
        lookup(es, k) is Some,
    ensures
        lookup(es + more, k) is Some,
    decreases more.len(),
{
    if more.len() > 0 {
        lemma_lookup_append(es, more.drop_last(), k);
        assert((es + more).drop_last() =~= es + more.drop_last());
    } else {
        assert(es + more =~= es);
    }
}

proof fn lemma_keep_var(es: Seq<(Seq<char>, Seq<char>)>)
    requires
        lookup(es, "var"@) is Some,
    ensures
        lookup(keep_var(es), "var"@) is Some,
    decreases es.len(),
{
    if es.last().0 != "var"@ {
        lemma_keep_var(es.drop_last());
    }
}

/// The built-in macro `var` is always defined: at the start, and after every
/// step and every include (`//#CLEAR_MACROES` keeps it).
pub proof fn law_var_always_defined(input: Seq<char>, root: Seq<char>, m: DialectState, content: Option<Seq<char>>)
    ensures
        lookup(initial_state(input, root).macros, "var"@) is Some,
        lookup(m.macros, "var"@) is Some ==> lookup(dialect_step(m).0.macros, "var"@) is Some,
        lookup(m.macros, "var"@) is Some ==> lookup(include_step(m, content).macros, "var"@) is Some,
{
    if lookup(m.macros, "var"@) is Some {
        lemma_keep_var(m.macros);
        if let Some(c) = content {
            lemma_lookup_append(m.macros, definitions_of(lines_of(c)), "var"@);
        }
    }
}

/// A file is asked for at most once: a step asks for a path only when it has
/// not been included yet, and records it; no step or include forgets a path.
pub proof fn law_include_once(m: DialectState, content: Option<Seq<char>>, q: Seq<char>)
    ensures
        m.pending is None && dialect_step(m).1 == Outcome::Include(q) ==> !m.visited.contains(q)
            && dialect_step(m).0.visited.contains(q),
        m.visited.contains(q) ==> dialect_step(m).0.visited.contains(q),
        include_step(m, content).visited == m.visited,
{
    if m.pending is None && m.next < m.lines.len() {
        let t = trim_start_of(m.lines[m.next as int]);
        let full = full_path_of(trim_of(t.skip(10)), m.lib_root);
        assert(m.visited.push(full).last() == full);
        if m.visited.contains(q) {
            let i = choose|i: int| 0 <= i < m.visited.len() && m.visited[i] == q;
            assert(m.visited.push(full)[i] == q);
        }
    }
}

proof fn lemma_expand_identity(s: Seq<char>, m: Seq<(Seq<char>, Seq<char>)>, w: Seq<char>)
    requires
        forall|k: Seq<char>| #[trigger] lookup(m, k) matches Some(v) ==> v == k,
    ensures
        expand_acc(s, m, w) == w + s,
    decreases s.len(),
{
    if s.len() == 0 {
        assert(w + s =~= w);
    } else if is_word_char(s[0]) {
        lemma_expand_identity(s.drop_first(), m, w.push(s[0]));
        assert(w.push(s[0]) + s.drop_first() =~= w + s);
    } else {
        lemma_expand_identity(s.drop_first(), m, Seq::empty());
        assert(subst(w, m) == w);
        assert(w + seq![s[0]] + (Seq::<char>::empty() + s.drop_first()) =~= w + s);
    }
}

/// Expansion only replaces macro words by their values: where every defined
/// macro stands for itself, a line is left as it is.
pub proof fn law_expansion_only_replaces_macros(s: Seq<char>, m: Seq<(Seq<char>, Seq<char>)>)
    requires
        forall|k: Seq<char>| #[trigger] lookup(m, k) matches Some(v) ==> v == k,
    ensures
        expand_of(s, m) == s,
{
    lemma_expand_identity(s, m, Seq::empty());
    assert(Seq::<char>::empty() + s =~= s);
}

/// With macros disabled, an ordinary line (no directive, no style error) is
/// copied unchanged.
pub proof fn law_disabled_lines_copied(m: DialectState)
    requires
        m.pending is None,
        m.next < m.lines.len(),
        !m.enabled,
        !starts_with_of(trim_start_of(m.lines[m.next as int]), "//#"@),
        !(m.strict_tabs && m.lines[m.next as int].len() > 0 && m.lines[m.next as int][0] == ' '),
    ensures
        dialect_step(m).0.output == m.output + m.lines[m.next as int] + "\n"@,
        dialect_step(m).1 == Outcome::Line,
{
}


/// A character that separates words in source text: white space or
/// punctuation that is not part of a macro word, and not alphanumeric.
pub open spec fn is_delimiter(c: char) -> bool {
    &&& !char_alphanumeric(c)
    &&& (is_ws(c) || c == ';' || c == ',' || c == '(' || c == '.' || c == '[' || c == ']' || c
        == '{' || c == '}' || c == '+' || c == '*' || c == '/' || c == '&' || c == '|' || c == '!'
        || c == '<' || c == '"' || c == '#' || c == '?')
}

proof fn lemma_expand_split(
    pre: Seq<char>,
    c: char,
    x: Seq<char>,
    m: Seq<(Seq<char>, Seq<char>)>,
    w: Seq<char>,
)
    requires
        !is_word_char(c),
    ensures
        expand_acc(pre + seq![c] + x, m, w) == expand_acc(pre, m, w) + seq![c] + expand_acc(
            x,
            m,
            Seq::empty(),
        ),
    decreases pre.len(),
{
    let s = pre + seq![c] + x;
    if pre.len() == 0 {
        assert(s =~= seq![c] + x);
        assert(s.drop_first() =~= x);
    } else {
        assert(s.drop_first() =~= pre.drop_first() + seq![c] + x);
        assert(s[0] == pre[0]);
        if is_word_char(pre[0]) {
            lemma_expand_split(pre.drop_first(), c, x, m, w.push(pre[0]));
        } else {
            lemma_expand_split(pre.drop_first(), c, x, m, Seq::empty());
        }
    }
}

proof fn lemma_expand_word(n: Seq<char>, m: Seq<(Seq<char>, Seq<char>)>, w: Seq<char>)
    requires
        is_ident_of(n),
    ensures
        expand_acc(n, m, w) == subst(w + n, m),
    decreases n.len(),
{
    if n.len() == 0 {
        assert(w + n =~= w);
    } else {
        assert(is_word_char(n[0]));
        assert(is_ident_of(n.drop_first()));
        lemma_expand_word(n.drop_first(), m, w.push(n[0]));
        assert(w.push(n[0]) + n.drop_first() =~= w + n);
    }
}

/// A delimiter ends a macro word: what comes before it is expanded, the
/// delimiter is kept, and what follows is expanded from a fresh word.
pub proof fn law_delimiter_splits_expansion(
    pre: Seq<char>,
    c: char,
    post: Seq<char>,
    m: Seq<(Seq<char>, Seq<char>)>,
)
    requires
        is_delimiter(c),
    ensures
        expand_of(pre + seq![c] + post, m) == expand_of(pre, m) + seq![c] + expand_of(post, m),
{
    lemma_expand_split(pre, c, post, m, Seq::empty());
}

/// With macros enabled, a defined macro whose name is an identifier (letters,
/// digits and underscores) and that stands between delimiters is replaced by
/// its value; the rest of the line is expanded on its own.
pub proof fn law_macro_name_replaced(
    pre: Seq<char>,
    c: char,
    n: Seq<char>,
    d: char,
    post: Seq<char>,
    m: Seq<(Seq<char>, Seq<char>)>,
    v: Seq<char>,
)
    requires
        is_delimiter(c),
        is_delimiter(d),
        n.len() > 0,
        is_ident_of(n),
        lookup(m, n) == Some(v),
    ensures
        expand_of(pre + seq![c] + n + seq![d] + post, m) == expand_of(pre, m) + seq![c] + v
            + seq![d] + expand_of(post, m),
{
    let e = Seq::<char>::empty();
    assert(pre + seq![c] + n + seq![d] + post =~= pre + seq![c] + (n + seq![d] + post));
    lemma_expand_split(pre, c, n + seq![d] + post, m, e);
    lemma_expand_split(n, d, post, m, e);
    lemma_expand_word(n, m, e);
    assert(e + n =~= n);
}

/// A line that starts with a defined identifier macro followed by a
/// delimiter starts with the macro's value; a line that is only the name
/// becomes the value.
pub proof fn law_macro_name_at_line_start(
    n: Seq<char>,
    d: char,
    post: Seq<char>,
    m: Seq<(Seq<char>, Seq<char>)>,
    v: Seq<char>,
)
    requires
        is_delimiter(d),
        n.len() > 0,
        is_ident_of(n),
        lookup(m, n) == Some(v),
    ensures
        expand_of(n + seq![d] + post, m) == v + seq![d] + expand_of(post, m),
        expand_of(n, m) == v,
{
    let e = Seq::<char>::empty();
    lemma_expand_split(n, d, post, m, e);
    lemma_expand_word(n, m, e);
    assert(e + n =~= n);
}


/// With macros enabled, an ordinary line holding a defined identifier macro
/// between delimiters goes to the output with the macro replaced by its
/// value, the rest of the line expanded on its own.
pub proof fn law_enabled_line_expands_macro(
    m: DialectState,
    pre: Seq<char>,
    c: char,
    n: Seq<char>,
    d: char,
    post: Seq<char>,
    v: Seq<char>,
)
    requires
        m.pending is None,
        m.next < m.lines.len(),
        m.enabled,
        m.lines[m.next as int] == pre + seq![c] + n + seq![d] + post,
        !starts_with_of(trim_start_of(m.lines[m.next as int]), "//#"@),
        !(m.strict_tabs && m.lines[m.next as int].len() > 0 && m.lines[m.next as int][0] == ' '),
        is_delimiter(c),
        is_delimiter(d),
        n.len() > 0,
        is_ident_of(n),
        lookup(m.macros, n) == Some(v),
    ensures
        dialect_step(m).0.output == m.output + expand_of(pre, m.macros) + seq![c] + v + seq![d]
            + expand_of(post, m.macros) + "\n"@,
        dialect_step(m).1 == Outcome::Line,
{
    law_macro_name_replaced(pre, c, n, d, post, m.macros, v);
    let x = expand_of(pre, m.macros) + seq![c] + v + seq![d] + expand_of(post, m.macros);
    assert(m.output + x + "\n"@ =~= m.output + expand_of(pre, m.macros) + seq![c] + v + seq![d]
        + expand_of(post, m.macros) + "\n"@);
}


/// A sequence without white space.
pub open spec fn is_single_word(w: Seq<char>) -> bool {
    w.len() > 0 && forall|i: int| 0 <= i < w.len() ==> !is_ws(#[trigger] w[i])
}

proof fn lemma_words_run(x: Seq<char>, rest: Seq<char>, cur: Seq<char>)
    requires
        forall|i: int| 0 <= i < x.len() ==> !is_ws(#[trigger] x[i]),
    ensures
        words_acc(x + rest, cur) == words_acc(rest, cur + x),
    decreases x.len(),
{
    if x.len() == 0 {
        assert(x + rest =~= rest);
        assert(cur + x =~= cur);
    } else {
        assert((x + rest).drop_first() =~= x.drop_first() + rest);
        assert((x + rest)[0] == x[0]);
        lemma_words_run(x.drop_first(), rest, cur.push(x[0]));
        assert(cur.push(x[0]) + x.drop_first() =~= cur + x);
    }
}

proof fn lemma_words_space(rest: Seq<char>, cur: Seq<char>)
    requires
        cur.len() > 0,
    ensures
        words_acc(" "@ + rest, cur) == seq![cur] + words_acc(rest, Seq::empty()),
{
    reveal_strlit(" ");
    assert((" "@ + rest)[0] == ' ');
    assert((" "@ + rest).drop_first() =~= rest);
}

/// `//#DEFINE NAME VALUE` (a one-word name and a one-word value) defines
/// `NAME` as `VALUE`.
pub proof fn law_define_line(n: Seq<char>, val: Seq<char>)
    requires
        is_single_word(n),
        is_single_word(val),
    ensures
        definition_of("//#DEFINE "@ + n + " "@ + val) == seq![(n, val)],
{
    reveal_strlit("//#DEFINE ");
    reveal_strlit("//#DEFINE");
    reveal_strlit(" ");
    let e = Seq::<char>::empty();
    let line = "//#DEFINE "@ + n + " "@ + val;
    assert(line[0] == '/');
    assert(trim_start_of(line) == line);
    let kw = "//#DEFINE"@;
    assert(forall|i: int| 0 <= i < kw.len() ==> !is_ws(#[trigger] kw[i]));
    assert(line =~= kw + (" "@ + (n + (" "@ + (val + e)))));
    lemma_words_run(kw, " "@ + (n + (" "@ + (val + e))), e);
    assert(e + kw =~= kw);
    lemma_words_space(n + (" "@ + (val + e)), kw);
    lemma_words_run(n, " "@ + (val + e), e);
    assert(e + n =~= n);
    lemma_words_space(val + e, n);
    lemma_words_run(val, e, e);
    assert(e + val =~= val);
    assert(words_acc(e, val) == seq![val]);
    let parts = words_of(line);
    assert(parts =~= seq![kw, n, val]);
    assert(line.subrange(0, 9) =~= kw);
    assert(parts.skip(2) =~= seq![val]);
    assert(join_of(seq![val], " "@) == val);
}

} // verus!
