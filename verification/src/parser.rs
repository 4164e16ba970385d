//! The line compiler of the first arrow dialect: `->` pipelines and `+>`
//! argument lists turned into nested calls.
use vstd::prelude::*;
use crate::text::{
    Strip,
    before_char,
    before_of,
    chars_of,
    contains,
    contains_of,
    ends_with,
    ends_with_of,
    find,
    find_of,
    lemma_find_bounds,
    lemma_trim_len,
    push_chars,
    push_str,
    replace,
    replace_of,
    replace_vec,
    rfind_char,
    rfind_of,
    slice_of,
    starts_with,
    starts_with_of,
    string_of,
    strip_end,
    strip_end_by,
    strip_start,
    strip_start_by,
    trim,
    trim_of,
    without_last,
    drop_last_if,
    is_ws,
    lemma_contains_middle,
    lemma_replace_contains,
    lemma_rfind_last,
    lemma_strip_end_concat,
    lemma_trim_unchanged,
    is_ascii_letter,
    is_ascii_digit,
    lemma_first_word,
    lemma_find_by_unique,
    lemma_matches_contains,
    lemma_not_contains,
    lemma_trim_word_space,
    matches_at,
};

verus! {

// ---------------------------------------------------------------------------
// Specification
// ---------------------------------------------------------------------------
/// A name that the compiler writes as a method call (`args.name()`).
pub open spec fn is_method_name(f: Seq<char>) -> bool {
    ||| starts_with_of(f, "unwrap"@)
    ||| starts_with_of(f, "collect"@)
    ||| starts_with_of(f, "parse"@)
    ||| starts_with_of(f, "trim"@)
    ||| starts_with_of(f, "to_string"@)
    ||| starts_with_of(f, "len"@)
    ||| starts_with_of(f, "as_str"@)
    ||| starts_with_of(f, "to_uppercase"@)
}

/// The call that passes `args` to `func`.
pub open spec fn final_call_of(func: Seq<char>, args: Seq<char>) -> Seq<char> {
    let f = trim_of(func);
    if contains_of(f, "!"@) {
        if contains_of(f, "arg1"@) {
            replace_of(f, "arg1"@, args)
        } else if let Some(pos) = rfind_of(f, ')') {
            let head = f.take(pos);
            if ends_with_of(trim_of(head), "("@) {
                head + args + ")"@
            } else {
                head + ", "@ + args + ")"@
            }
        } else {
            f + "("@ + args + ")"@
        }
    } else if is_method_name(f) {
        args + "."@ + (if contains_of(f, "("@) {
            f
        } else {
            f + "()"@
        })
    } else if contains_of(f, "("@) {
        let base = strip_end(f, Strip::CloseParen);
        if ends_with_of(base, "("@) {
            base + args + ")"@
        } else {
            base + ", "@ + args + ")"@
        }
    } else {
        f + "("@ + args + ")"@
    }
}

/// A bare variable (with an optional `: type`) that a pipeline may end in.
pub open spec fn is_pure_variable_of(s: Seq<char>) -> bool {
    let t = trim_of(s);
    if contains_of(t, "("@) || contains_of(t, "!"@) || contains_of(t, "\""@) {
        false
    } else if contains_of(t, " "@) {
        contains_of(t, ":"@)
    } else {
        t.len() > 0
    }
}

/// The statement emitted by the last step of a pipeline.
pub open spec fn last_step_of(content: Seq<char>, buffer: Seq<char>) -> Seq<char> {
    if buffer.len() == 0 {
        Seq::empty()
    } else if is_pure_variable_of(content) {
        "let "@ + replace_of(content, ":"@, " : "@) + " = "@ + buffer + ";"@
    } else {
        final_call_of(content, buffer) + ";"@
    }
}

/// The code emitted for the rest `line` of a pipeline, `buffer` holding the
/// expression built so far.
pub open spec fn pipeline_of(line: Seq<char>, buffer: Seq<char>) -> Seq<char>
    decreases line.len(),
{
    if let Some(p) = find_of(line, "+>"@) {
        let content = trim_of(line.take(p));
        let next = strip_end(strip_start(content, Strip::Brackets), Strip::Brackets);
        let rest = trim_of(line.skip(p + 2));
        proof {
            reveal_strlit("+>");
            lemma_find_bounds(line, "+>"@);
            lemma_trim_len(line.skip(p + 2));
        }
        if rest.len() == 0 {
            Seq::empty()
        } else {
            pipeline_of(rest, next)
        }
    } else if let Some(p) = find_of(line, "->"@) {
        let content = trim_of(line.take(p));
        let next = if buffer.len() == 0 {
            content
        } else {
            final_call_of(content, buffer)
        };
        let rest = trim_of(line.skip(p + 2));
        proof {
            reveal_strlit("->");
            lemma_find_bounds(line, "->"@);
            lemma_trim_len(line.skip(p + 2));
        }
        if rest.len() == 0 {
            Seq::empty()
        } else {
            pipeline_of(rest, next)
        }
    } else {
        last_step_of(line, buffer)
    }
}

/// A line that the compiler copies unchanged (after trimming).
pub open spec fn is_plain_line(t: Seq<char>) -> bool {
    ||| starts_with_of(t, "fn "@)
    ||| starts_with_of(t, "pub fn "@)
    ||| starts_with_of(t, "use "@)
    ||| starts_with_of(t, "//"@)
    ||| (starts_with_of(t, "let "@) && !contains_of(t, "->"@))
}

/// What `compile_arrow_line` returns for `input`.
pub open spec fn compile_arrow_line_of(input: Seq<char>) -> Seq<char> {
    let t = trim_of(input);
    if t.len() == 0 {
        "\n"@
    } else if is_plain_line(t) {
        t + "\n"@
    } else if starts_with_of(t, "-"@) && contains_of(t, ">"@) {
        "drop("@ + trim_of(without_last(strip_end(trim_of(before_of(t.drop_first(), '>')), Strip::Semi), '-')) + ");\n"@
    } else if contains_of(t, "->"@) || contains_of(t, "+>"@) {
        pipeline_of(strip_end(t, Strip::Semi), Seq::empty()) + "\n"@
    } else {
        t + "\n"@
    }
}

// ---------------------------------------------------------------------------
// Implementation
// ---------------------------------------------------------------------------
fn is_method_name_exec(f: &Vec<char>) -> (r: bool)
    ensures
        r == is_method_name(f@),
{
    starts_with(f, "unwrap") || starts_with(f, "collect") || starts_with(f, "parse")
        || starts_with(f, "trim") || starts_with(f, "to_string") || starts_with(f, "len")
        || starts_with(f, "as_str") || starts_with(f, "to_uppercase")
}

/// The call that passes `args` to `func`: macros get `args` as their last
/// argument (or in place of `arg1`), known methods are called on `args`, and
/// other functions get `args` as their last argument.
pub fn emit_final_call(func: &Vec<char>, args: &Vec<char>) -> (r: Vec<char>)
    ensures
        r@ == final_call_of(func@, args@),
{
    let f = trim(func);
    if contains(&f, "!") {
        if contains(&f, "arg1") {
            proof {
                reveal_strlit("arg1");
            }
            let a = chars_of("arg1");
            replace_vec(&f, &a, args)
        } else {
            match rfind_char(&f, ')') {
                Some(pos) => {
                    let head = slice_of(&f, 0, pos);
                    let ht = trim(&head);
                    let mut r = head.clone();
                    assert(r@ == head@);
                    if ends_with(&ht, "(") {
                        push_chars(&mut r, args);
                        push_str(&mut r, ")");
                    } else {
                        push_str(&mut r, ", ");
                        push_chars(&mut r, args);
                        push_str(&mut r, ")");
                    }
                    proof {
                        reveal_strlit("(");
                        assert(head@ =~= f@.take(pos as int));
                    }
                    r
                },
                None => {
                    let mut r = f.clone();
                    assert(r@ == f@);
                    push_str(&mut r, "(");
                    push_chars(&mut r, args);
                    push_str(&mut r, ")");
                    r
                },
            }
        }
    } else if is_method_name_exec(&f) {
        let mut r = args.clone();
        assert(r@ == args@);
        push_str(&mut r, ".");
        push_chars(&mut r, &f);
        if !contains(&f, "(") {
            push_str(&mut r, "()");
        }
        assert(r@ =~= final_call_of(func@, args@));
        r
    } else if contains(&f, "(") {
        let mut r = strip_end_by(&f, Strip::CloseParen);
        if ends_with(&r, "(") {
            push_chars(&mut r, args);
            push_str(&mut r, ")");
        } else {
            push_str(&mut r, ", ");
            push_chars(&mut r, args);
            push_str(&mut r, ")");
        }
        r
    } else {
        let mut r = f.clone();
        assert(r@ == f@);
        push_str(&mut r, "(");
        push_chars(&mut r, args);
        push_str(&mut r, ")");
        r
    }
}

/// Whether `s` is a bare variable, possibly with a `: type` annotation.
pub fn is_pure_variable(s: &Vec<char>) -> (r: bool)
    ensures
        r == is_pure_variable_of(s@),
{
    let t = trim(s);
    if contains(&t, "(") || contains(&t, "!") || contains(&t, "\"") {
        return false;
    }
    if contains(&t, " ") {
        return contains(&t, ":");
    }
    t.len() > 0
}

/// The first arrow of `input` and the trimmed text before it; `+>` is looked
/// for before `->`. `None` when `input` holds no arrow.
pub fn parse_step(input: &Vec<char>) -> (r: Option<(Vec<char>, bool, usize)>)
    ensures
        match r {
            Some((content, multi, pos)) => {
                &&& multi ==> find_of(input@, "+>"@) == Some(pos as int)
                &&& !multi ==> find_of(input@, "+>"@) is None && find_of(input@, "->"@) == Some(
                    pos as int,
                )
                &&& content@ == trim_of(input@.take(pos as int))
                &&& pos + 2 <= input.len()
            },
            None => find_of(input@, "+>"@) is None && find_of(input@, "->"@) is None,
        },
{
    proof {
        reveal_strlit("+>");
        reveal_strlit("->");
        lemma_find_bounds(input@, "+>"@);
        lemma_find_bounds(input@, "->"@);
    }
    if let Some(p) = find(input, "+>") {
        let head = slice_of(input, 0, p);
        assert(head@ =~= input@.take(p as int));
        return Some((trim(&head), true, p));
    }
    if let Some(p) = find(input, "->") {
        let head = slice_of(input, 0, p);
        assert(head@ =~= input@.take(p as int));
        return Some((trim(&head), false, p));
    }
    None
}

/// Compiles one line of the arrow dialect into Rust.
pub fn compile_arrow_line(input: &str) -> (r: String)
    ensures
        r@ == compile_arrow_line_of(input@),
{
    let iv = chars_of(input);
    let t = trim(&iv);
    let mut out: Vec<char> = Vec::new();
    if t.len() == 0 {
        push_str(&mut out, "\n");
        return string_of(&out);
    }
    if starts_with(&t, "fn ") || starts_with(&t, "pub fn ") || starts_with(&t, "use ")
        || starts_with(&t, "//") || (starts_with(&t, "let ") && !contains(&t, "->")) {
        let mut r = t.clone();
        assert(r@ == t@);
        push_str(&mut r, "\n");
        return string_of(&r);
    }
    if starts_with(&t, "-") && contains(&t, ">") {
        let tail = slice_of(&t, 1, t.len());
        assert(tail@ =~= t@.drop_first());
        let name = trim(&drop_last_if(&strip_end_by(&trim(&before_char(&tail, '>')), Strip::Semi), '-'));
        push_str(&mut out, "drop(");
        push_chars(&mut out, &name);
        push_str(&mut out, ");\n");
        return string_of(&out);
    }
    if contains(&t, "->") || contains(&t, "+>") {
        let mut line = strip_end_by(&t, Strip::Semi);
        let mut buffer: Vec<char> = Vec::new();
        let ghost goal = pipeline_of(line@, buffer@);
        loop
            invariant_except_break
                pipeline_of(line@, buffer@) == goal,
                out@ == Seq::<char>::empty(),
            ensures
                out@ == goal,
            decreases line.len(),
        {
            match parse_step(&line) {
                None => {
                    if buffer.len() > 0 {
                        if is_pure_variable(&line) {
                            proof {
                                reveal_strlit(":");
                            }
                            push_str(&mut out, "let ");
                            push_chars(&mut out, &replace(&line, ":", " : "));
                            push_str(&mut out, " = ");
                            push_chars(&mut out, &buffer);
                            push_str(&mut out, ";");
                        } else {
                            push_chars(&mut out, &emit_final_call(&line, &buffer));
                            push_str(&mut out, ";");
                        }
                    }
                    assert(out@ =~= goal);
                    break ;
                },
                Some((content, multi, pos)) => {
                    let tail = slice_of(&line, pos + 2, line.len());
                    assert(tail@ =~= line@.skip(pos + 2));
                    let rest = trim(&tail);
                    if multi {
                        buffer = strip_end_by(&strip_start_by(&content, Strip::Brackets), Strip::Brackets);
                    } else if buffer.len() > 0 {
                        buffer = emit_final_call(&content, &buffer);
                    } else {
                        buffer = content;
                    }
                    proof {
                        lemma_trim_len(line@.skip(pos + 2));
                    }
                    if rest.len() == 0 {
                        assert(out@ =~= goal);
                        break ;
                    }
                    line = rest;
                },
            }
        }
        push_str(&mut out, "\n");
        return string_of(&out);
    }
    let mut r = t.clone();
    assert(r@ == t@);
    push_str(&mut r, "\n");
    string_of(&r)
}

} // verus!

verus! {

/// Every compiled line ends with a newline.
pub proof fn law_compiled_line_ends_with_newline(input: Seq<char>)
    ensures
        ends_with_of(compile_arrow_line_of(input), "\n"@),
{
    reveal_strlit("\n");
    reveal_strlit(");\n");
    let r = compile_arrow_line_of(input);
    assert(r.len() >= 1);
    assert(r.last() == '\n');
    assert(r.subrange(r.len() - 1, r.len() as int) =~= "\n"@);
}


/// The piped value always occurs in the call that passes it on, whatever
/// the step is.
pub proof fn law_final_call_keeps_piped(func: Seq<char>, args: Seq<char>)
    ensures
        contains_of(final_call_of(func, args), args),
{
    reveal_strlit("arg1");
    let f = trim_of(func);
    if contains_of(f, "!"@) {
        if contains_of(f, "arg1"@) {
            lemma_replace_contains(f, "arg1"@, args);
        } else if let Some(pos) = rfind_of(f, ')') {
            let head = f.take(pos);
            if ends_with_of(trim_of(head), "("@) {
                lemma_contains_middle(head, args, ")"@);
            } else {
                lemma_contains_middle(head + ", "@, args, ")"@);
            }
        } else {
            lemma_contains_middle(f + "("@, args, ")"@);
        }
    } else if is_method_name(f) {
        let tail = "."@ + (if contains_of(f, "("@) {
            f
        } else {
            f + "()"@
        });
        lemma_contains_middle(Seq::empty(), args, tail);
        assert(Seq::<char>::empty() + args + tail =~= final_call_of(func, args));
    } else if contains_of(f, "("@) {
        let base = strip_end(f, Strip::CloseParen);
        if ends_with_of(base, "("@) {
            lemma_contains_middle(base, args, ")"@);
        } else {
            lemma_contains_middle(base + ", "@, args, ")"@);
        }
    } else {
        lemma_contains_middle(f + "("@, args, ")"@);
    }
}

/// Piping `v` into a macro call `m!(a)` that has arguments and no `arg1`
/// gives `m!(a, v)`: the piped value becomes the macro's last argument.
pub proof fn law_pipe_into_macro(m: Seq<char>, a: Seq<char>, v: Seq<char>)
    requires
        m.len() > 0,
        !is_ws(m[0]),
        a.len() > 0,
        !is_ws(a.last()),
        a.last() != '(',
        !contains_of(m + "!("@ + a + ")"@, "arg1"@),
    ensures
        final_call_of(m + "!("@ + a + ")"@, v) == m + "!("@ + a + ", "@ + v + ")"@,
{
    reveal_strlit("!(");
    reveal_strlit("!");
    reveal_strlit("(");
    reveal_strlit(")");
    let f = m + "!("@ + a + ")"@;
    assert(f[0] == m[0]);
    assert(f.last() == ')');
    lemma_trim_unchanged(f);
    assert(f =~= m + "!"@ + ("("@ + a + ")"@));
    lemma_contains_middle(m, "!"@, "("@ + a + ")"@);
    lemma_rfind_last(f, ')');
    let h = f.take(f.len() - 1);
    assert(h =~= m + "!("@ + a);
    assert(h[0] == m[0]);
    assert(h.last() == a.last());
    lemma_trim_unchanged(h);
    assert(!ends_with_of(h, "("@)) by {
        assert(h.subrange(h.len() - 1, h.len() as int)[0] == a.last());
    }
}

/// Piping `v` into an ordinary function call `g(a)` (no macro, no method
/// name, no `arg1`) gives `g(a, v)`.
pub proof fn law_pipe_into_function(g: Seq<char>, a: Seq<char>, v: Seq<char>)
    requires
        g.len() > 0,
        !is_ws(g[0]),
        a.len() > 0,
        !is_ws(a.last()),
        a.last() != '(',
        a.last() != ')',
        !contains_of(g + "("@ + a + ")"@, "!"@),
        !is_method_name(g + "("@ + a + ")"@),
    ensures
        final_call_of(g + "("@ + a + ")"@, v) == g + "("@ + a + ", "@ + v + ")"@,
{
    reveal_strlit("(");
    reveal_strlit(")");
    let f = g + "("@ + a + ")"@;
    assert(f[0] == g[0]);
    assert(f.last() == ')');
    lemma_trim_unchanged(f);
    let h = g + "("@ + a;
    lemma_contains_middle(g, "("@, a + ")"@);
    assert(g + "("@ + (a + ")"@) =~= f);
    assert(h.last() == a.last());
    lemma_strip_end_concat(h, ")"@, Strip::CloseParen);
    assert(strip_end(")"@, Strip::CloseParen) =~= Seq::<char>::empty()) by {
        assert(")"@.drop_last() =~= Seq::<char>::empty());
        assert(strip_end(Seq::<char>::empty(), Strip::CloseParen) == Seq::<char>::empty());
    }
    assert(h + ")"@ =~= f);
    assert(h + Seq::<char>::empty() =~= h);
    assert(!ends_with_of(h, "("@)) by {
        assert(h.subrange(h.len() - 1, h.len() as int)[0] == a.last());
    }
}


/// A character of a simple macro argument list: a letter, a digit, `_`,
/// `,`, a space, a double quote or a brace.
pub open spec fn is_macro_arg_char(c: char) -> bool {
    is_ascii_letter(c) || is_ascii_digit(c) || c == '_' || c == ',' || c == ' ' || c == '"'
        || c == '{' || c == '}'
}

/// `compile_arrow_line` on `v -> m!(a)` gives `m!(a, v);`: a value piped
/// into a macro that already has arguments becomes its last argument. Here
/// `v` and `m` are plain names (`v` not `fn`, `use` or `pub`), `a` is a
/// non-empty argument list of simple characters not ending in a space, and
/// `m!(a)` does not name `arg1`.
#[verifier::spinoff_prover]
#[verifier::rlimit(40)]
pub proof fn law_compile_pipe_into_macro(v: Seq<char>, m: Seq<char>, a: Seq<char>)
    requires
        v.len() > 0,
        forall|i: int|
            0 <= i < v.len() ==> is_ascii_letter(#[trigger] v[i]) || is_ascii_digit(v[i]) || v[i]
                == '_',
        v != "fn"@ && v != "use"@ && v != "pub"@,
        m.len() > 0,
        forall|i: int|
            0 <= i < m.len() ==> is_ascii_letter(#[trigger] m[i]) || is_ascii_digit(m[i]) || m[i]
                == '_',
        a.len() > 0,
        forall|i: int| 0 <= i < a.len() ==> is_macro_arg_char(#[trigger] a[i]),
        a.last() != ' ',
        !contains_of(m + "!("@ + a + ")"@, "arg1"@),
    ensures
        compile_arrow_line_of(v + " -> "@ + m + "!("@ + a + ")"@) == m + "!("@ + a + ", "@ + v
            + ");\n"@,
{
    reveal_strlit(" -> ");
    reveal_strlit("-> ");
    reveal_strlit("!(");
    reveal_strlit("(");
    reveal_strlit(")");
    reveal_strlit(";");
    reveal_strlit(" ");
    reveal_strlit("\n");
    reveal_strlit("->");
    reveal_strlit("+>");
    reveal_strlit("-");
    reveal_strlit("//");
    reveal_strlit("fn ");
    reveal_strlit("use ");
    reveal_strlit("pub fn ");
    reveal_strlit("fn");
    reveal_strlit("use");
    reveal_strlit("pub");
    reveal_strlit("\"");
    reveal_strlit("!");
    reveal_strlit(", ");
    reveal_strlit(");\n");
    let f = m + "!("@ + a + ")"@;
    let t = v + " -> "@ + f;
    let q: int = (v.len() + 1) as int;
    let e = Seq::<char>::empty();
    assert(t =~= v + " -> "@ + m + "!("@ + a + ")"@);
    assert forall|i: int| 0 <= i < f.len() implies f[i] != '>' && f[i] != '-' && f[i] != ';'
        by {
        if i < m.len() {
            assert(f[i] == m[i]);
        } else if i < m.len() + 2 {
        } else if i < m.len() + 2 + a.len() {
            assert(f[i] == a[i - m.len() - 2]);
        }
    }
    assert forall|i: int| 0 <= i < t.len() && i != q + 1 implies t[i] != '>' by {
        if i < v.len() {
            assert(t[i] == v[i]);
        } else if i >= v.len() + 4 {
            assert(t[i] == f[i - v.len() - 4]);
        }
    }
    assert(t[q] == '-' && t[q + 1] == '>');
    assert(t[0] == v[0]);
    assert(f[0] == m[0]);
    assert(f.last() == ')');
    assert(t.last() == ')');
    lemma_trim_unchanged(t);
    // not a plain line, not a drop
    assert(forall|i: int| 0 <= i < v.len() ==> v[i] != ' ');
    assert(t =~= v + " "@ + ("-> "@ + f));
    if starts_with_of(t, "fn "@) {
        lemma_first_word(v, "-> "@ + f, "fn "@, 2);
        assert("fn "@.take(2) =~= "fn"@);
    }
    if starts_with_of(t, "use "@) {
        lemma_first_word(v, "-> "@ + f, "use "@, 3);
        assert("use "@.take(3) =~= "use"@);
    }
    if starts_with_of(t, "pub fn "@) {
        lemma_first_word(v, "-> "@ + f, "pub fn "@, 3);
        assert("pub fn "@.take(3) =~= "pub"@);
    }
    assert(!starts_with_of(t, "//"@)) by {
        if starts_with_of(t, "//"@) {
            assert(t.subrange(0, 2)[0] == t[0]);
        }
    }
    assert(!starts_with_of(t, "-"@)) by {
        if starts_with_of(t, "-"@) {
            assert(t.subrange(0, 1)[0] == t[0]);
        }
    }
    assert(t.subrange(q, q + 2) =~= "->"@);
    lemma_matches_contains(t, "->"@, q);
    assert(!is_plain_line(t));
    assert(strip_end(t, Strip::Semi) == t);
    // the pipeline: one `->`
    lemma_find_by_unique(t, "+>"@, 1, q + 1);
    assert(!matches_at(t, q, "+>"@)) by {
        if matches_at(t, q, "+>"@) {
            assert(t.subrange(q, q + 2)[0] == t[q]);
        }
    }
    lemma_find_by_unique(t, "->"@, 1, q + 1);
    assert(t.take(q) =~= v + " "@);
    assert(!is_ws(v[0]) && !is_ws(v.last()));
    lemma_trim_word_space(v);
    assert(t.skip(q + 2) =~= " "@ + f);
    assert(!is_ws(f[0]) && !is_ws(f.last()));
    lemma_trim_word_space(f);
    // the last step: the macro call
    lemma_not_contains(f, "+>"@, 1);
    lemma_not_contains(f, "->"@, 1);
    assert(f =~= (m + "!"@) + "("@ + (a + ")"@));
    lemma_contains_middle(m + "!"@, "("@, a + ")"@);
    assert(!is_pure_variable_of(f));
    assert(!is_ws(m[0]) && !is_ws(a.last()) && a.last() != '(');
    law_pipe_into_macro(m, a, v);
    assert(pipeline_of(f, v) == final_call_of(f, v) + ";"@);
    assert(pipeline_of(t, e) == pipeline_of(f, v));
    assert(m + "!("@ + a + ", "@ + v + ")"@ + ";"@ + "\n"@ =~= m + "!("@ + a + ", "@ + v
        + ");\n"@);
}

} // verus!
