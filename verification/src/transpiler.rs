//! The line translator of the ArrowRust dialect.
//!
//! `transpile_line` turns one line of `.ars` source into Rust. Lines between
//! `//#ARROW_IGNORE` and `//#ARROW_NO_IGNORE` are copied unchanged; the
//! caller keeps that mode between calls.
use vstd::prelude::*;
use crate::text::{
    before_char, before_of, chars_of, contains, contains_of, count_leading_spaces, ends_with,
    ends_with_of, eq_str, find, find_of, is_alphabetic, is_alphanumeric, is_ident, is_ident_of,
    lemma_find_bounds, lemma_strip_len, lemma_trim_len, leading_spaces, matches_at,
    matches_at_vec, push_chars, push_str, replace, replace_of, replace_vec, rfind_char, rfind_of,
    slice_of, spaces, spaces_of, lines, lines_of, split_char, split_of, starts_with, starts_with_of, strip_end,
    strip_end_by, strip_start, strip_start_by, trim, trim_end, trim_end_of, trim_of, views, words,
    words_of, char_alphabetic, char_alphanumeric, string_of, Strip, without_last, drop_last_if,
    is_ws, is_ascii_letter, is_ascii_digit, lemma_find_first_char, lemma_strip_end_concat,
    lemma_before_char, lemma_replace_none, lemma_replace_prefix, lemma_replace_absent,
    lemma_contains_middle, lemma_replace_contains, lemma_rfind_last, lemma_trim_unchanged,
    lemma_find_by_unique, lemma_not_contains, lemma_first_word, lemma_first_word_prefix,
    lemma_matches_contains, lemma_rfind_before_tail, lemma_trim_word_space,
};

verus! {

// ---------------------------------------------------------------------------
// Arrows
// ---------------------------------------------------------------------------
/// The arrows of a pipeline, in the order in which a step looks for them.
#[derive(Clone, Copy, PartialEq, Eq)]
pub enum Arrow {
    /// `->|`: `break`
    Break,
    /// `->^`: `continue`
    Continue,
    /// `->()`: `return ()`
    ReturnUnit,
    /// `!->`: `.expect(message)`
    Expect,
    /// `&->`: pass a reference
    Ref,
    /// `mv->`: pass the value and drop it
    Move,
    /// `+>`: pass several arguments
    Multi,
    /// `->`: pass the value
    Pipe,
}

pub open spec fn arrow_text(a: Arrow) -> Seq<char> {
    match a {
        Arrow::Break => "->|"@,
        Arrow::Continue => "->^"@,
        Arrow::ReturnUnit => "->()"@,
        Arrow::Expect => "!->"@,
        Arrow::Ref => "&->"@,
        Arrow::Move => "mv->"@,
        Arrow::Multi => "+>"@,
        Arrow::Pipe => "->"@,
    }
}

pub open spec fn arrow_len(a: Arrow) -> int {
    match a {
        Arrow::Break => 3,
        Arrow::Continue => 3,
        Arrow::ReturnUnit => 4,
        Arrow::Expect => 3,
        Arrow::Ref => 3,
        Arrow::Move => 4,
        Arrow::Multi => 2,
        Arrow::Pipe => 2,
    }
}

pub proof fn lemma_arrow_len(a: Arrow)
    ensures
        arrow_text(a).len() == arrow_len(a),
{
    reveal_strlit("->|");
    reveal_strlit("->^");
    reveal_strlit("->()");
    reveal_strlit("!->");
    reveal_strlit("&->");
    reveal_strlit("mv->");
    reveal_strlit("+>");
    reveal_strlit("->");
}

/// The arrow a pipeline step acts on, with its position: the first arrow of
/// the list (not the leftmost one) that occurs in `s`.
pub open spec fn step_of(s: Seq<char>) -> Option<(Arrow, int)> {
    if let Some(p) = find_of(s, "->|"@) {
        Some((Arrow::Break, p))
    } else if let Some(p) = find_of(s, "->^"@) {
        Some((Arrow::Continue, p))
    } else if let Some(p) = find_of(s, "->()"@) {
        Some((Arrow::ReturnUnit, p))
    } else if let Some(p) = find_of(s, "!->"@) {
        Some((Arrow::Expect, p))
    } else if let Some(p) = find_of(s, "&->"@) {
        Some((Arrow::Ref, p))
    } else if let Some(p) = find_of(s, "mv->"@) {
        Some((Arrow::Move, p))
    } else if let Some(p) = find_of(s, "+>"@) {
        Some((Arrow::Multi, p))
    } else if let Some(p) = find_of(s, "->"@) {
        Some((Arrow::Pipe, p))
    } else {
        None
    }
}

pub proof fn lemma_step_bounds(s: Seq<char>)
    ensures
        step_of(s) matches Some((a, p)) ==> 0 <= p && p + arrow_len(a) <= s.len() && matches_at(
            s,
            p,
            arrow_text(a),
        ),
{
    lemma_find_bounds(s, "->|"@);
    lemma_find_bounds(s, "->^"@);
    lemma_find_bounds(s, "->()"@);
    lemma_find_bounds(s, "!->"@);
    lemma_find_bounds(s, "&->"@);
    lemma_find_bounds(s, "mv->"@);
    lemma_find_bounds(s, "+>"@);
    lemma_find_bounds(s, "->"@);
    if let Some((a, p)) = step_of(s) {
        lemma_arrow_len(a);
    }
}

fn arrow_str(a: Arrow) -> (r: &'static str)
    ensures
        r@ == arrow_text(a),
{
    match a {
        Arrow::Break => "->|",
        Arrow::Continue => "->^",
        Arrow::ReturnUnit => "->()",
        Arrow::Expect => "!->",
        Arrow::Ref => "&->",
        Arrow::Move => "mv->",
        Arrow::Multi => "+>",
        Arrow::Pipe => "->",
    }
}

fn arrow_length(a: Arrow) -> (r: usize)
    ensures
        r == arrow_len(a),
{
    match a {
        Arrow::Break => 3,
        Arrow::Continue => 3,
        Arrow::ReturnUnit => 4,
        Arrow::Expect => 3,
        Arrow::Ref => 3,
        Arrow::Move => 4,
        Arrow::Multi => 2,
        Arrow::Pipe => 2,
    }
}

/// The arrow a pipeline step acts on, with its position.
pub fn step(s: &Vec<char>) -> (r: Option<(Arrow, usize)>)
    ensures
        match r {
            Some((a, p)) => step_of(s@) == Some((a, p as int)),
            None => step_of(s@) is None,
        },
{
    if let Some(p) = find(s, "->|") {
        return Some((Arrow::Break, p));
    }
    if let Some(p) = find(s, "->^") {
        return Some((Arrow::Continue, p));
    }
    if let Some(p) = find(s, "->()") {
        return Some((Arrow::ReturnUnit, p));
    }
    if let Some(p) = find(s, "!->") {
        return Some((Arrow::Expect, p));
    }
    if let Some(p) = find(s, "&->") {
        return Some((Arrow::Ref, p));
    }
    if let Some(p) = find(s, "mv->") {
        return Some((Arrow::Move, p));
    }
    if let Some(p) = find(s, "+>") {
        return Some((Arrow::Multi, p));
    }
    if let Some(p) = find(s, "->") {
        return Some((Arrow::Pipe, p));
    }
    None
}

// ---------------------------------------------------------------------------
// Calls
// ---------------------------------------------------------------------------
/// Names that the translator writes as method calls on the piped value.
pub open spec fn is_rust_method(f: Seq<char>) -> bool {
    ||| contains_of(f, "unwrap"@)
    ||| contains_of(f, "collect"@)
    ||| contains_of(f, "parse"@)
    ||| contains_of(f, "trim"@)
    ||| contains_of(f, "to_string"@)
    ||| contains_of(f, "len"@)
    ||| contains_of(f, "as_str"@)
    ||| contains_of(f, "expect"@)
    ||| contains_of(f, "insert"@)
    ||| contains_of(f, "push"@)
    ||| contains_of(f, "to_uppercase"@)
}

/// A call of function `f` with `args` as its last argument (or in place of `arg1`).
pub open spec fn standard_call_of(f: Seq<char>, args: Seq<char>) -> Seq<char> {
    if contains_of(f, "arg1"@) {
        replace_of(f, "arg1"@, args)
    } else if let Some(p) = rfind_of(f, ')') {
        let head = trim_of(f.take(p));
        head + (if ends_with_of(head, "("@) {
            Seq::empty()
        } else {
            ", "@
        }) + args + ")"@
    } else {
        f + "("@ + args + ")"@
    }
}

/// The expression that passes `args` to the step `f`.
pub open spec fn wrap_call_of(f0: Seq<char>, args: Seq<char>) -> Seq<char> {
    let f = trim_of(f0);
    if f.len() == 0 || f == "set_bit"@ {
        args
    } else if ends_with_of(f, "!"@) {
        if f == "println!"@ || f == "print!"@ || f == "format!"@ {
            f + "(\"{}\", "@ + args + ")"@
        } else {
            f + "("@ + args + ")"@
        }
    } else if is_rust_method(f) {
        if contains_of(f, "("@) {
            args + "."@ + f
        } else {
            args + "."@ + f + "()"@
        }
    } else {
        standard_call_of(f, args)
    }
}

fn is_rust_method_exec(f: &Vec<char>) -> (r: bool)
    ensures
        r == is_rust_method(f@),
{
    contains(f, "unwrap") || contains(f, "collect") || contains(f, "parse") || contains(f, "trim")
        || contains(f, "to_string") || contains(f, "len") || contains(f, "as_str") || contains(
        f,
        "expect",
    ) || contains(f, "insert") || contains(f, "push") || contains(f, "to_uppercase")
}

/// A call of function `f` with `args` as its last argument (or in place of `arg1`).
pub fn format_standard_call(f: &Vec<char>, args: &Vec<char>) -> (r: Vec<char>)
    ensures
        r@ == standard_call_of(f@, args@),
{
    if contains(f, "arg1") {
        proof {
            reveal_strlit("arg1");
        }
        let a = chars_of("arg1");
        return replace_vec(f, &a, args);
    }
    match rfind_char(f, ')') {
        Some(p) => {
            let head0 = slice_of(f, 0, p);
            assert(head0@ =~= f@.take(p as int));
            let mut r = trim(&head0);
            let ghost head = r@;
            if !ends_with(&r, "(") {
                push_str(&mut r, ", ");
            } else {
                assert(r@ =~= head + Seq::<char>::empty());
            }
            push_chars(&mut r, args);
            push_str(&mut r, ")");
            r
        },
        None => {
            let mut r = f.clone();
            assert(r@ == f@);
            push_str(&mut r, "(");
            push_chars(&mut r, args);
            push_str(&mut r, ")");
            r
        },
    }
}

/// The expression that passes `args` to the step `f0`.
pub fn wrap_call(f0: &Vec<char>, args: &Vec<char>) -> (r: Vec<char>)
    ensures
        r@ == wrap_call_of(f0@, args@),
{
    let f = trim(f0);
    if f.len() == 0 || eq_str(&f, "set_bit") {
        let r = args.clone();
        assert(r@ == args@);
        return r;
    }
    if ends_with(&f, "!") {
        let mut r = f.clone();
        assert(r@ == f@);
        if eq_str(&f, "println!") || eq_str(&f, "print!") || eq_str(&f, "format!") {
            push_str(&mut r, "(\"{}\", ");
        } else {
            push_str(&mut r, "(");
        }
        push_chars(&mut r, args);
        push_str(&mut r, ")");
        return r;
    }
    if is_rust_method_exec(&f) {
        let mut r = args.clone();
        assert(r@ == args@);
        push_str(&mut r, ".");
        push_chars(&mut r, &f);
        if !contains(&f, "(") {
            push_str(&mut r, "()");
        }
        return r;
    }
    format_standard_call(&f, args)
}

// ---------------------------------------------------------------------------
// Pipelines
// ---------------------------------------------------------------------------
/// `p[0] & !(1 << p[1])) | ((p[2] & 1) << p[1])`: the bit assignment that a
/// `+>` step of a `set_bit` line becomes.
pub open spec fn set_bit_expr(p: Seq<Seq<char>>) -> Seq<char> {
    "(("@ + replace_of(p[0], "&"@, ""@) + " & !(1 << "@ + p[1] + ")) | (("@ + p[2] + " & 1) << "@
        + p[1] + "))"@
}

/// The trimmed pieces of `s` between commas.
pub open spec fn trimmed_pieces(s: Seq<char>) -> Seq<Seq<char>> {
    split_of(s, ',').map_values(|x: Seq<char>| trim_of(x))
}

/// The accumulated expression after a step that does not end the pipeline.
pub open spec fn next_acc_of(
    s: Seq<char>,
    a: Arrow,
    content: Seq<char>,
    acc: Seq<char>,
) -> Seq<char> {
    match a {
        Arrow::Ref => "&"@ + (if acc.len() == 0 {
            content
        } else {
            acc
        }),
        Arrow::Move => {
            let var = if acc.len() == 0 {
                content
            } else {
                acc
            };
            let body = if acc.len() == 0 {
                content
            } else {
                wrap_call_of(content, acc)
            };
            "{ let __tmp = "@ + body + "; drop("@ + var + "); __tmp }"@
        },
        Arrow::Multi => {
            let inner = strip_end(strip_start(content, Strip::Brackets), Strip::Brackets);
            if contains_of(s, "set_bit"@) {
                let p = trimmed_pieces(inner);
                if p.len() == 3 {
                    set_bit_expr(p)
                } else {
                    acc
                }
            } else {
                inner
            }
        },
        _ => if acc.len() == 0 {
            content
        } else {
            wrap_call_of(content, acc)
        },
    }
}

/// The text of the last step of a pipeline (one with no arrow).
pub open spec fn last_of(current: Seq<char>, acc: Seq<char>, target: Seq<char>) -> Seq<char> {
    let c = if ends_with_of(current, ";"@) {
        trim_of(current.drop_last())
    } else {
        current
    };
    if c.len() > 0 && is_ident_of(c) && target.len() == 0 {
        target + (if acc.len() == 0 {
            c
        } else {
            "let "@ + c + " = "@ + acc
        })
    } else {
        target + (if acc.len() == 0 {
            c
        } else {
            wrap_call_of(c, acc)
        })
    }
}

/// Where the message of a `!->` step ends in the text `after` that follows the arrow.
pub open spec fn message_end(after: Seq<char>) -> int {
    match step_of(after) {
        Some((_, q)) => q,
        None => after.len() as int,
    }
}

/// The translation of the rest `current` of pipeline `s`, `acc` holding the
/// expression built so far and `target` the assignment it goes to.
pub open spec fn pipeline_loop_of(
    s: Seq<char>,
    current: Seq<char>,
    acc: Seq<char>,
    target: Seq<char>,
) -> Seq<char>
    decreases current.len(),
{
    match step_of(current) {
        None => last_of(current, acc, target),
        Some((a, p)) => {
            proof {
                lemma_step_bounds(current);
            }
            let content = trim_of(current.take(p));
            match a {
                Arrow::Break => target + "break;"@,
                Arrow::Continue => target + "continue;"@,
                Arrow::ReturnUnit => target + "return ();"@,
                Arrow::Expect => {
                    let after = current.skip(p + 3);
                    let end = message_end(after);
                    proof {
                        lemma_step_bounds(after);
                        lemma_trim_len(after.skip(end));
                    }
                    let msg = trim_of(after.take(end));
                    let base = if acc.len() == 0 {
                        content
                    } else {
                        acc
                    };
                    pipeline_loop_of(
                        s,
                        trim_of(after.skip(end)),
                        base + ".expect("@ + msg + ")"@,
                        target,
                    )
                },
                _ => {
                    let rest = trim_of(current.skip(p + arrow_len(a)));
                    proof {
                        lemma_trim_len(current.skip(p + arrow_len(a)));
                    }
                    let acc2 = next_acc_of(s, a, content, acc);
                    if rest.len() == 0 {
                        target + acc2
                    } else {
                        pipeline_loop_of(s, rest, acc2, target)
                    }
                },
            }
        },
    }
}

/// `(target, rest)`: a leading `name =` that the pipeline's value is assigned to.
pub open spec fn target_of(s: Seq<char>) -> (Seq<char>, Seq<char>) {
    match find_of(s, "="@) {
        Some(e) => {
            let left = s.take(e);
            if !contains_of(left, "->"@) && !contains_of(left, "+>"@) && !starts_with_of(
                s.skip(e),
                "=="@,
            ) {
                (trim_of(left) + " = "@, trim_of(s.skip(e + 1)))
            } else {
                (Seq::empty(), s)
            }
        },
        None => (Seq::empty(), s),
    }
}

/// The translation of the pipeline `s`.
pub open spec fn pipeline_of(s: Seq<char>) -> Seq<char> {
    pipeline_loop_of(s, target_of(s).1, Seq::empty(), target_of(s).0)
}

fn trimmed_pieces_exec(s: &Vec<char>) -> (r: Vec<Vec<char>>)
    ensures
        views(r@) == trimmed_pieces(s@),
{
    let parts = split_char(s, ',');
    let mut r: Vec<Vec<char>> = Vec::new();
    let mut i: usize = 0;
    while i < parts.len()
        invariant
            i <= parts.len(),
            views(parts@) == split_of(s@, ','),
            views(r@) =~= views(parts@).take(i as int).map_values(|x: Seq<char>| trim_of(x)),
        decreases parts.len() - i,
    {
        let t = trim(&parts[i]);
        let ghost prev = views(r@);
        let ghost tv = t@;
        r.push(t);
        assert(views(r@) =~= prev.push(tv));
        assert(views(parts@).take(i + 1).map_values(|x: Seq<char>| trim_of(x)) =~= views(
            parts@,
        ).take(i as int).map_values(|x: Seq<char>| trim_of(x)).push(trim_of(parts@[i as int]@)));
        i += 1;
    }
    assert(views(parts@).take(i as int) =~= views(parts@));
    r
}

fn next_acc(s: &Vec<char>, a: Arrow, content: &Vec<char>, acc: &Vec<char>) -> (r: Vec<char>)
    ensures
        r@ == next_acc_of(s@, a, content@, acc@),
{
    match a {
        Arrow::Ref => {
            let mut r: Vec<char> = Vec::new();
            push_str(&mut r, "&");
            if acc.len() == 0 {
                push_chars(&mut r, content);
            } else {
                push_chars(&mut r, acc);
            }
            r
        },
        Arrow::Move => {
            let mut r: Vec<char> = Vec::new();
            push_str(&mut r, "{ let __tmp = ");
            if acc.len() == 0 {
                push_chars(&mut r, content);
                push_str(&mut r, "; drop(");
                push_chars(&mut r, content);
            } else {
                push_chars(&mut r, &wrap_call(content, acc));
                push_str(&mut r, "; drop(");
                push_chars(&mut r, acc);
            }
            push_str(&mut r, "); __tmp }");
            r
        },
        Arrow::Multi => {
            let inner = strip_end_by(&strip_start_by(content, Strip::Brackets), Strip::Brackets);
            if contains(s, "set_bit") {
                let p = trimmed_pieces_exec(&inner);
                if p.len() == 3 {
                    proof {
                        reveal_strlit("&");
                    }
                    let mut r: Vec<char> = Vec::new();
                    push_str(&mut r, "((");
                    push_chars(&mut r, &replace(&p[0], "&", ""));
                    push_str(&mut r, " & !(1 << ");
                    push_chars(&mut r, &p[1]);
                    push_str(&mut r, ")) | ((");
                    push_chars(&mut r, &p[2]);
                    push_str(&mut r, " & 1) << ");
                    push_chars(&mut r, &p[1]);
                    push_str(&mut r, "))");
                    r
                } else {
                    let r = acc.clone();
                    assert(r@ == acc@);
                    r
                }
            } else {
                inner
            }
        },
        _ => {
            if acc.len() == 0 {
                let r = content.clone();
                assert(r@ == content@);
                r
            } else {
                wrap_call(content, acc)
            }
        },
    }
}

fn last_step(current: &Vec<char>, acc: &Vec<char>, target: &Vec<char>) -> (r: Vec<char>)
    ensures
        r@ == last_of(current@, acc@, target@),
{
    let c = if ends_with(current, ";") {
        proof {
            reveal_strlit(";");
        }
        let d = slice_of(current, 0, current.len() - 1);
        assert(d@ =~= current@.drop_last());
        trim(&d)
    } else {
        let d = current.clone();
        assert(d@ == current@);
        d
    };
    let mut r = target.clone();
    assert(r@ == target@);
    if c.len() > 0 && is_ident(&c) && target.len() == 0 {
        if acc.len() > 0 {
            push_str(&mut r, "let ");
            push_chars(&mut r, &c);
            push_str(&mut r, " = ");
            push_chars(&mut r, acc);
        } else {
            push_chars(&mut r, &c);
        }
    } else {
        if acc.len() == 0 {
            push_chars(&mut r, &c);
        } else {
            push_chars(&mut r, &wrap_call(&c, acc));
        }
    }
    r
}

fn split_target(s: &Vec<char>) -> (r: (Vec<char>, Vec<char>))
    ensures
        r.0@ == target_of(s@).0,
        r.1@ == target_of(s@).1,
{
    proof {
        lemma_find_bounds(s@, "="@);
        reveal_strlit("=");
    }
    match find(s, "=") {
        Some(e) => {
            let left = slice_of(s, 0, e);
            assert(left@ =~= s@.take(e as int));
            let from_eq = slice_of(s, e, s.len());
            assert(from_eq@ =~= s@.skip(e as int));
            if !contains(&left, "->") && !contains(&left, "+>") && !starts_with(&from_eq, "==") {
                let mut t = trim(&left);
                push_str(&mut t, " = ");
                let rest0 = slice_of(s, e + 1, s.len());
                assert(rest0@ =~= s@.skip(e + 1));
                (t, trim(&rest0))
            } else {
                let c = s.clone();
                assert(c@ == s@);
                (Vec::new(), c)
            }
        },
        None => {
            let c = s.clone();
            assert(c@ == s@);
            (Vec::new(), c)
        },
    }
}

/// Translates the pipeline `s`: `a -> f -> g` becomes `g(f(a))`, with the
/// other arrows giving references, moves, `expect`, `break`, `continue` and
/// `return ()`; a leading `name =` is kept as the assignment target.
pub fn handle_pipeline(s: &Vec<char>) -> (r: Vec<char>)
    ensures
        r@ == pipeline_of(s@),
{
    let (target, mut current) = split_target(s);
    let mut acc: Vec<char> = Vec::new();
    let ghost goal = pipeline_of(s@);
    loop
        invariant
            goal == pipeline_of(s@),
            pipeline_loop_of(s@, current@, acc@, target@) == goal,
        decreases current.len(),
    {
        proof {
            lemma_step_bounds(current@);
        }
        match step(&current) {
            None => {
                return last_step(&current, &acc, &target);
            },
            Some((a, p)) => {
                let head = slice_of(&current, 0, p);
                assert(head@ =~= current@.take(p as int));
                let content = trim(&head);
                match a {
                    Arrow::Break => {
                        let mut r = target.clone();
                        assert(r@ == target@);
                        push_str(&mut r, "break;");
                        return r;
                    },
                    Arrow::Continue => {
                        let mut r = target.clone();
                        assert(r@ == target@);
                        push_str(&mut r, "continue;");
                        return r;
                    },
                    Arrow::ReturnUnit => {
                        let mut r = target.clone();
                        assert(r@ == target@);
                        push_str(&mut r, "return ();");
                        return r;
                    },
                    Arrow::Expect => {
                        let after = slice_of(&current, p + 3, current.len());
                        assert(after@ =~= current@.skip(p + 3));
                        proof {
                            lemma_step_bounds(after@);
                        }
                        let end = match step(&after) {
                            Some((_, q)) => q,
                            None => after.len(),
                        };
                        let m0 = slice_of(&after, 0, end);
                        assert(m0@ =~= after@.take(end as int));
                        let msg = trim(&m0);
                        let r0 = slice_of(&after, end, after.len());
                        assert(r0@ =~= after@.skip(end as int));
                        let mut next = if acc.len() == 0 {
                            content
                        } else {
                            acc
                        };
                        push_str(&mut next, ".expect(");
                        push_chars(&mut next, &msg);
                        push_str(&mut next, ")");
                        proof {
                            lemma_trim_len(after@.skip(end as int));
                        }
                        acc = next;
                        current = trim(&r0);
                    },
                    _ => {
                        let len = arrow_length(a);
                        let tail = slice_of(&current, p + len, current.len());
                        assert(tail@ =~= current@.skip(p + arrow_len(a)));
                        let rest = trim(&tail);
                        let acc2 = next_acc(s, a, &content, &acc);
                        proof {
                            lemma_trim_len(current@.skip(p + arrow_len(a)));
                        }
                        if rest.len() == 0 {
                            let mut r = target.clone();
                            assert(r@ == target@);
                            push_chars(&mut r, &acc2);
                            return r;
                        }
                        acc = acc2;
                        current = rest;
                    },
                }
            },
        }
    }
}

} // verus!

verus! {

// ---------------------------------------------------------------------------
// `name.cp->` copies
// ---------------------------------------------------------------------------
/// The end of the identifier characters (alphanumeric or `_`) from `i` on.
pub open spec fn ident_end(s: Seq<char>, i: int) -> int
    decreases s.len() - i,
{
    if 0 <= i < s.len() && (char_alphanumeric(s[i]) || s[i] == '_') {
        ident_end(s, i + 1)
    } else {
        i
    }
}

pub proof fn lemma_ident_end(s: Seq<char>, i: int)
    requires
        0 <= i <= s.len(),
    ensures
        i <= ident_end(s, i) <= s.len(),
    decreases s.len() - i,
{
    if i < s.len() && (char_alphanumeric(s[i]) || s[i] == '_') {
        lemma_ident_end(s, i + 1);
    }
}

/// The identifier `s[i..e]` as `.cp->` keeps it: whole when its last
/// character is a single byte, and empty otherwise (the byte range up to
/// that character's first byte does not end on a character boundary).
pub open spec fn kept_ident(s: Seq<char>, i: int, e: int) -> Seq<char> {
    if (s[e - 1] as u32) < 128 {
        s.subrange(i, e)
    } else {
        Seq::empty()
    }
}

/// The text from position `i` on with every `name.cp->` written `name.clone()`,
/// `name` being an identifier (it starts with a letter or `_`).
pub open spec fn cp_scan(s: Seq<char>, i: int) -> Seq<char>
    decreases s.len() - i,
{
    if i < 0 || i >= s.len() {
        Seq::empty()
    } else if char_alphabetic(s[i]) || s[i] == '_' {
        let e = ident_end(s, i + 1);
        proof {
            lemma_ident_end(s, i + 1);
            reveal_strlit(".cp->");
        }
        if matches_at(s, e, ".cp->"@) {
            kept_ident(s, i, e) + ".clone()"@ + cp_scan(s, e + 5)
        } else {
            s.subrange(i, e) + cp_scan(s, e)
        }
    } else {
        seq![s[i]] + cp_scan(s, i + 1)
    }
}

/// `s` with every `name.cp->` written `name.clone()`.
pub open spec fn cp_arrow_of(s: Seq<char>) -> Seq<char> {
    cp_scan(s, 0)
}

/// Writes every `name.cp->` of `s` as `name.clone()`.
pub fn replace_cp_arrow(s: &Vec<char>) -> (r: Vec<char>)
    ensures
        r@ == cp_arrow_of(s@),
{
    let cp = chars_of(".cp->");
    proof {
        reveal_strlit(".cp->");
    }
    let mut out: Vec<char> = Vec::new();
    let mut i: usize = 0;
    while i < s.len()
        invariant
            i <= s.len(),
            cp@ == ".cp->"@,
            cp@.len() == 5,
            out@ + cp_scan(s@, i as int) == cp_scan(s@, 0),
        decreases s.len() - i,
    {
        let c = s[i];
        if is_alphabetic(c) || c == '_' {
            let mut e = i + 1;
            while e < s.len() && (is_alphanumeric(s[e]) || s[e] == '_')
                invariant
                    i < e <= s.len(),
                    ident_end(s@, i + 1) == ident_end(s@, e as int),
                decreases s.len() - e,
            {
                e += 1;
            }
            let ident = slice_of(s, i, e);
            let ghost prev = out@;
            if matches_at_vec(s, e, &cp) {
                if (s[e - 1] as u32) < 128 {
                    push_chars(&mut out, &ident);
                }
                push_str(&mut out, ".clone()");
                assert(out@ + cp_scan(s@, e + 5) =~= prev + (kept_ident(s@, i as int, e as int)
                    + ".clone()"@ + cp_scan(s@, e + 5)));
                i = e + 5;
            } else {
                push_chars(&mut out, &ident);
                assert(out@ + cp_scan(s@, e as int) =~= prev + (s@.subrange(i as int, e as int)
                    + cp_scan(s@, e as int)));
                i = e;
            }
        } else {
            let ghost prev = out@;
            out.push(c);
            assert(out@ + cp_scan(s@, i + 1) =~= prev + (seq![c] + cp_scan(s@, i + 1)));
            i += 1;
        }
    }
    assert(out@ + Seq::<char>::empty() =~= out@);
    out
}

// ---------------------------------------------------------------------------
// Declarations and statements
// ---------------------------------------------------------------------------
/// `s` without a leading `clone ` word.
pub open spec fn without_clone(c: Seq<char>) -> Seq<char> {
    if starts_with_of(c, "clone "@) {
        trim_of(c.skip(6))
    } else {
        c
    }
}

/// `tuple Name (types)` as the tuple struct `struct Name(types);`.
pub open spec fn tuple_decl_of(s: Seq<char>) -> Seq<char> {
    let c = without_clone(trim_of(s.skip(6)));
    let name = match find_of(c, "("@) {
        Some(p) => trim_of(c.take(p)),
        None => trim_of(c),
    };
    let types = match find_of(c, "("@) {
        Some(p) => trim_of(c.skip(p)),
        None => "()"@,
    };
    "struct "@ + name + strip_end(types, Strip::Semi) + ";"@
}

/// `customtype Name base` as a type alias.
pub open spec fn custom_type_of(s: Seq<char>) -> Seq<char> {
    let c = without_clone(trim_of(s.skip(11)));
    let parts = words_of(c);
    let name = if parts.len() > 0 {
        parts[0]
    } else {
        "Unknown"@
    };
    let base = strip_end(
        if parts.len() > 1 {
            parts[1]
        } else {
            "i32"@
        },
        Strip::Semi,
    );
    "type "@ + name + " = "@ + base + ";"@
}

/// `input() -> var` as a read of one line of standard input into `var`.
pub open spec fn input_call_of(s: Seq<char>) -> Seq<char> {
    match find_of(s, "->"@) {
        Some(p) => "{ let mut __b = String::new(); std::io::stdin().read_line(&mut __b).unwrap(); "@
            + strip_end(trim_of(s.skip(p + 2)), Strip::Semi)
            + " = __b.trim().to_string(); }"@,
        None => s,
    }
}

/// The `insert` line of one `key: value` pair of a dictionary literal.
pub open spec fn pair_line_of(pair: Seq<char>, var: Seq<char>) -> Seq<char> {
    match find_of(pair, ":"@) {
        Some(p) => var + ".insert("@ + trim_of(pair.take(p)) + ", "@ + trim_of(pair.skip(p + 1))
            + ");\n"@,
        None => Seq::empty(),
    }
}

/// The `insert` lines of the pairs of a dictionary literal.
pub open spec fn pair_lines_of(pairs: Seq<Seq<char>>, var: Seq<char>) -> Seq<char>
    decreases pairs.len(),
{
    if pairs.len() == 0 {
        Seq::empty()
    } else {
        pair_lines_of(pairs.drop_last(), var) + pair_line_of(pairs.last(), var)
    }
}

/// A `name: dict = { k: v, ... }` literal as a `HashMap` filled by inserts.
pub open spec fn dict_init_of(s: Seq<char>) -> Seq<char> {
    match (find_of(s, "{"@), rfind_of(s, '}')) {
        (Some(open), Some(close)) => {
            let prefix = trim_of(strip_end(s.take(open), Strip::Equals));
            let var = replace_of(
                replace_of(trim_of(before_of(prefix, ':')), "let mut "@, ""@),
                "let "@,
                ""@,
            );
            let body = if open + 1 <= close {
                s.subrange(open + 1, close)
            } else {
                Seq::empty()
            };
            trim_end_of(
                "let mut "@ + var + " = std::collections::HashMap::new();\n"@ + pair_lines_of(
                    split_of(body, ','),
                    var,
                ),
            )
        },
        _ => s,
    }
}

/// The part of `s` before the first `p` (`s.split(p).next()`).
pub open spec fn before_str_of(s: Seq<char>, p: Seq<char>) -> Seq<char> {
    match find_of(s, p) {
        Some(i) => s.take(i),
        None => s,
    }
}

/// The part of `s` between the first and the second `p` (`s.split(p).nth(1)`).
pub open spec fn second_part_of(s: Seq<char>, p: Seq<char>) -> Option<Seq<char>> {
    match find_of(s, p) {
        Some(i) => {
            let rest = s.skip(i + p.len());
            Some(before_str_of(rest, p))
        },
        None => None,
    }
}

/// The text of a `repeat` line has an argument part: the line is longer than
/// `repeat` and the character after it is a single byte, so that the rest
/// begins at byte 7.
pub open spec fn repeat_ok(s: Seq<char>) -> bool {
    s.len() > 6 && (s[6] as u32) < 128
}

/// `repeat n as i {` as `for i in 0..n  {`, and a bare `repeat {` as `loop{`.
pub open spec fn repeat_of(s: Seq<char>) -> Seq<char> {
    let body = trim_of(
        if repeat_ok(s) {
            s.skip(7)
        } else {
            Seq::empty()
        },
    );
    if body.len() == 0 || body == "{"@ {
        "loop{"@
    } else {
        let expr_part = match find_of(body, "{"@) {
            Some(p) => trim_of(body.take(p)),
            None => body,
        };
        let brace = match find_of(body, "{"@) {
            Some(p) => " {"@,
            None => Seq::empty(),
        };
        let expr = trim_of(before_str_of(expr_part, " as "@));
        let var = trim_of(
            match second_part_of(expr_part, " as "@) {
                Some(v) => v,
                None => "i"@,
            },
        );
        "for "@ + var + " in 0.."@ + expr + " "@ + brace
    }
}

/// The line holds an arrow.
pub open spec fn has_pipeline_of(s: Seq<char>) -> bool {
    ||| contains_of(s, "->"@)
    ||| contains_of(s, "+>"@)
    ||| contains_of(s, "!->"@)
    ||| contains_of(s, "&->"@)
    ||| contains_of(s, "mv->"@)
}

/// Lines that the translator leaves as they are.
pub open spec fn should_skip_of(s: Seq<char>) -> bool {
    ||| starts_with_of(s, "fn "@)
    ||| starts_with_of(s, "pub fn "@)
    ||| starts_with_of(s, "use "@)
    ||| starts_with_of(s, "extern "@)
    ||| starts_with_of(s, "mod "@)
    ||| starts_with_of(s, "unsafe"@)
    ||| starts_with_of(s, "impl "@)
    ||| starts_with_of(s, "pub impl "@)
    ||| starts_with_of(s, "struct "@)
    ||| starts_with_of(s, "enum "@)
    ||| starts_with_of(s, "trait "@)
    ||| ((starts_with_of(s, "if "@) || starts_with_of(s, "else "@) || starts_with_of(
        s,
        "match "@,
    ) || starts_with_of(s, "while "@) || starts_with_of(s, "for "@) || starts_with_of(
        s,
        "loop "@,
    )) && !has_pipeline_of(s))
}

/// `-name->`: a drop of `name`.
pub open spec fn is_utilizer_of(s: Seq<char>) -> bool {
    starts_with_of(s, "-"@) && !starts_with_of(s, "->"@) && contains_of(s, ">"@)
}

pub open spec fn utilizer_of(s: Seq<char>) -> Seq<char> {
    "drop("@ + dropped_name(s.drop_first()) + ")"@
}

/// The variable that `-name->` (or `-name>`) names: the text before the `>`
/// without the arrow's one `-` and the spaces around it.
pub open spec fn dropped_name(t: Seq<char>) -> Seq<char> {
    trim_of(without_last(trim_of(before_of(t, '>')), '-'))
}

/// Statements that a pipeline result is not `return`ed as.
pub open spec fn starts_statement(s: Seq<char>) -> bool {
    ||| starts_with_of(s, "break"@)
    ||| starts_with_of(s, "continue"@)
    ||| starts_with_of(s, "return"@)
    ||| starts_with_of(s, "let"@)
    ||| starts_with_of(s, "match"@)
    ||| starts_with_of(s, "{"@)
    ||| starts_with_of(s, "drop"@)
}

/// The text of `enumeration from coll to item {` between `from ` and the `{`.
pub open spec fn enumeration_head(cc: Seq<char>) -> Seq<char> {
    trim_of(cc.subrange(17, cc.len() - 1))
}

/// A line `enumeration from coll to item {`.
pub open spec fn is_enumeration_of(cc: Seq<char>) -> bool {
    &&& starts_with_of(cc, "enumeration from "@)
    &&& ends_with_of(cc, "{"@)
    &&& find_of(enumeration_head(cc), " to "@) is Some
}

/// `enumeration from coll to item {` as a loop over the indices of `coll`
/// that binds `item` to a reference to each element:
/// `for __enum_index in 0..coll.len() { let item = &coll[__enum_index];`.
pub open spec fn enumeration_of(cc: Seq<char>) -> Seq<char> {
    let h = enumeration_head(cc);
    let p = find_of(h, " to "@)->Some_0;
    let coll = trim_of(h.take(p));
    let item = trim_of(h.skip(p + 4));
    "for __enum_index in 0.."@ + coll + ".len() { let "@ + item + " = &"@ + coll
        + "[__enum_index];"@
}

/// The translation of a statement `cc` (its final `;`s removed; `semi` tells
/// whether it had one).
pub open spec fn processed_of(cc: Seq<char>, semi: bool) -> Seq<char> {
    if should_skip_of(cc) {
        cc
    } else if is_utilizer_of(cc) {
        utilizer_of(cc)
    } else if starts_with_of(cc, "repeat"@) {
        repeat_of(cc)
    } else if is_enumeration_of(cc) {
        enumeration_of(cc)
    } else if has_pipeline_of(cc) {
        let res = pipeline_of(cc);
        if !semi && !contains_of(res, "="@) && res.len() > 0 && !starts_statement(res) {
            "return "@ + res
        } else {
            res
        }
    } else {
        cc
    }
}

/// `(code, comment)`: a `//` comment split off (unless the `//` follows a `!`).
pub open spec fn comment_split_of(code: Seq<char>) -> (Seq<char>, Seq<char>) {
    match find_of(code, "//"@) {
        Some(p) => if p > 0 && ends_with_of(code.take(p), "!"@) {
            (code, Seq::empty())
        } else {
            (trim_end_of(code.take(p)), code.skip(p))
        },
        None => (code, Seq::empty()),
    }
}

/// The code of a line with `ValueRes<` and `Value<` written as options.
pub open spec fn typed_of(clean: Seq<char>) -> Seq<char> {
    replace_of(replace_of(clean, "ValueRes<"@, "Result<Option<"@), "Value<"@, "Option<"@)
}

/// The statement of a line after the dictionary, input and copy rewrites.
pub open spec fn statement_of(cur: Seq<char>) -> Seq<char> {
    let c2 = replace_of(cur, ": dict"@, ": std::collections::HashMap"@);
    let c3 = if contains_of(c2, "input()"@) {
        input_call_of(c2)
    } else {
        c2
    };
    cp_arrow_of(c3)
}

/// A line that is a declaration (`tuple`, `customtype`) or a dictionary literal.
pub open spec fn is_declaration(cur: Seq<char>) -> bool {
    ||| starts_with_of(cur, "tuple "@)
    ||| starts_with_of(cur, "customtype "@)
    ||| (contains_of(cur, ": dict"@) && contains_of(cur, "{"@) && contains_of(cur, "="@))
}

pub open spec fn declaration_of(cur: Seq<char>) -> Seq<char> {
    if starts_with_of(cur, "tuple "@) {
        tuple_decl_of(cur)
    } else if starts_with_of(cur, "customtype "@) {
        custom_type_of(cur)
    } else {
        dict_init_of(cur)
    }
}

/// A line copied as it is (blank, `//!` doc comment).
pub open spec fn is_verbatim(code: Seq<char>) -> bool {
    code.len() == 0 || starts_with_of(code, "//!"@)
}

/// The translation of a line outside ignore mode.
pub open spec fn translate_of(line: Seq<char>) -> Seq<char> {
    let indent = spaces_of(leading_spaces(line));
    let code = trim_of(line);
    if is_verbatim(code) {
        line + "\n"@
    } else if code == "pass"@ {
        indent + "// pass\n"@
    } else if code == "import std;"@ {
        indent + "use std::collections::*;\n"@ + indent + "use std::io::*;\n"@ + indent
            + "use std::fs::*;\n"@
    } else {
        let comment = comment_split_of(code).1;
        let cur = typed_of(comment_split_of(code).0);
        if is_declaration(cur) {
            indent + declaration_of(cur) + comment + "\n"@
        } else {
            let st = statement_of(cur);
            let semi = ends_with_of(st, ";"@);
            let cc = strip_end(st, Strip::Semi);
            let processed = processed_of(cc, semi);
            let suffix = if semi && !ends_with_of(processed, ";"@) && !ends_with_of(
                processed,
                "}"@,
            ) {
                ";"@
            } else {
                Seq::empty()
            };
            indent + processed + suffix + comment + "\n"@
        }
    }
}

pub open spec fn is_ignore_marker(line: Seq<char>) -> bool {
    trim_of(line) == "//#ARROW_IGNORE"@
}

pub open spec fn is_no_ignore_marker(line: Seq<char>) -> bool {
    trim_of(line) == "//#ARROW_NO_IGNORE"@
}

/// `(output, mode after)` of `transpile_line` for `line` in ignore mode `ignore`.
pub open spec fn transpile_of(ignore: bool, line: Seq<char>) -> (Seq<char>, bool) {
    if is_ignore_marker(line) {
        (line + "\n"@, true)
    } else if is_no_ignore_marker(line) {
        (line + "\n"@, false)
    } else if ignore {
        (line + "\n"@, true)
    } else {
        (translate_of(line), false)
    }
}

// ---------------------------------------------------------------------------
// Implementation of the line handlers
// ---------------------------------------------------------------------------
fn without_clone_exec(c: Vec<char>) -> (r: Vec<char>)
    ensures
        r@ == without_clone(c@),
{
    if starts_with(&c, "clone ") {
        proof {
            reveal_strlit("clone ");
        }
        let t = slice_of(&c, 6, c.len());
        assert(t@ =~= c@.skip(6));
        trim(&t)
    } else {
        c
    }
}

/// `tuple Name (types)` as `struct Name(types);`.
pub fn handle_tuple_decl(s: &Vec<char>) -> (r: Vec<char>)
    requires
        starts_with_of(s@, "tuple "@),
    ensures
        r@ == tuple_decl_of(s@),
{
    proof {
        reveal_strlit("tuple ");
        lemma_find_bounds(s@, "tuple "@);
    }
    let t = slice_of(s, 6, s.len());
    assert(t@ =~= s@.skip(6));
    let c = without_clone_exec(trim(&t));
    proof {
        lemma_find_bounds(c@, "("@);
        reveal_strlit("(");
    }
    let (name, types) = match find(&c, "(") {
        Some(p) => {
            let a = slice_of(&c, 0, p);
            assert(a@ =~= c@.take(p as int));
            let b = slice_of(&c, p, c.len());
            assert(b@ =~= c@.skip(p as int));
            (trim(&a), trim(&b))
        },
        None => (trim(&c), chars_of("()")),
    };
    let mut r: Vec<char> = Vec::new();
    push_str(&mut r, "struct ");
    push_chars(&mut r, &name);
    push_chars(&mut r, &strip_end_by(&types, Strip::Semi));
    push_str(&mut r, ";");
    r
}

/// `customtype Name base` as `type Name = base;`.
pub fn handle_custom_type_decl(s: &Vec<char>) -> (r: Vec<char>)
    requires
        starts_with_of(s@, "customtype "@),
    ensures
        r@ == custom_type_of(s@),
{
    proof {
        reveal_strlit("customtype ");
    }
    let t = slice_of(s, 11, s.len());
    assert(t@ =~= s@.skip(11));
    let c = without_clone_exec(trim(&t));
    let parts = words(&c);
    let name = if parts.len() > 0 {
        parts[0].clone()
    } else {
        chars_of("Unknown")
    };
    let base0 = if parts.len() > 1 {
        parts[1].clone()
    } else {
        chars_of("i32")
    };
    assert(parts.len() > 0 ==> name@ == views(parts@)[0]);
    assert(parts.len() > 1 ==> base0@ == views(parts@)[1]);
    let mut r: Vec<char> = Vec::new();
    push_str(&mut r, "type ");
    push_chars(&mut r, &name);
    push_str(&mut r, " = ");
    push_chars(&mut r, &strip_end_by(&base0, Strip::Semi));
    push_str(&mut r, ";");
    r
}

/// `input() -> var` as a block that reads a line of standard input into `var`.
pub fn handle_input_call(s: &Vec<char>) -> (r: Vec<char>)
    ensures
        r@ == input_call_of(s@),
{
    proof {
        lemma_find_bounds(s@, "->"@);
        reveal_strlit("->");
    }
    match find(s, "->") {
        Some(p) => {
            let n = s.len();
            let t = slice_of(s, p + 2, n);
            assert(t@ =~= s@.skip(p + 2));
            let var = strip_end_by(&trim(&t), Strip::Semi);
            let mut r: Vec<char> = Vec::new();
            push_str(
                &mut r,
                "{ let mut __b = String::new(); std::io::stdin().read_line(&mut __b).unwrap(); ",
            );
            push_chars(&mut r, &var);
            push_str(&mut r, " = __b.trim().to_string(); }");
            r
        },
        None => {
            let r = s.clone();
            assert(r@ == s@);
            r
        },
    }
}

fn pair_line(pair: &Vec<char>, var: &Vec<char>) -> (r: Vec<char>)
    ensures
        r@ == pair_line_of(pair@, var@),
{
    proof {
        lemma_find_bounds(pair@, ":"@);
        reveal_strlit(":");
    }
    match find(pair, ":") {
        Some(p) => {
            let k = slice_of(pair, 0, p);
            assert(k@ =~= pair@.take(p as int));
            let n = pair.len();
            assert(p + 1 <= n);
            let v = slice_of(pair, p + 1, n);
            assert(v@ =~= pair@.skip(p + 1));
            let mut r = var.clone();
            assert(r@ == var@);
            push_str(&mut r, ".insert(");
            push_chars(&mut r, &trim(&k));
            push_str(&mut r, ", ");
            push_chars(&mut r, &trim(&v));
            push_str(&mut r, ");\n");
            r
        },
        None => Vec::new(),
    }
}

/// `name: dict = { k: v, ... }` as a new `HashMap` with one `insert` per pair.
pub fn handle_dict_init(s: &Vec<char>) -> (r: Vec<char>)
    ensures
        r@ == dict_init_of(s@),
{
    proof {
        lemma_find_bounds(s@, "{"@);
        reveal_strlit("{");
    }
    let open = find(s, "{");
    let close = rfind_char(s, '}');
    match (open, close) {
        (Some(open), Some(close)) => {
            let p0 = slice_of(s, 0, open);
            assert(p0@ =~= s@.take(open as int));
            let prefix = trim(&strip_end_by(&p0, Strip::Equals));
            proof {
                reveal_strlit("let mut ");
                reveal_strlit("let ");
            }
            let var = replace(&replace(&trim(&before_char(&prefix, ':')), "let mut ", ""), "let ", "");
            let body = if open + 1 <= close {
                slice_of(s, open + 1, close)
            } else {
                Vec::new()
            };
            let pairs = split_char(&body, ',');
            let ghost ps = views(pairs@);
            let mut res: Vec<char> = Vec::new();
            push_str(&mut res, "let mut ");
            push_chars(&mut res, &var);
            push_str(&mut res, " = std::collections::HashMap::new();\n");
            let ghost head = res@;
            let mut i: usize = 0;
            assert(ps.take(0) =~= Seq::<Seq<char>>::empty());
            assert(res@ =~= head + pair_lines_of(ps.take(0), var@));
            while i < pairs.len()
                invariant
                    i <= pairs.len(),
                    ps == views(pairs@),
                    res@ == head + pair_lines_of(ps.take(i as int), var@),
                decreases pairs.len() - i,
            {
                let line = pair_line(&pairs[i], &var);
                let ghost prev = res@;
                push_chars(&mut res, &line);
                assert(ps.take(i + 1).drop_last() =~= ps.take(i as int));
                assert(ps.take(i + 1).last() == pairs@[i as int]@);
                assert(res@ =~= head + pair_lines_of(ps.take(i + 1), var@));
                i += 1;
            }
            assert(ps.take(pairs.len() as int) =~= ps);
            trim_end(&res)
        },
        _ => {
            let r = s.clone();
            assert(r@ == s@);
            r
        },
    }
}

fn before_str(s: &Vec<char>, p: &str) -> (r: Vec<char>)
    ensures
        r@ == before_str_of(s@, p@),
{
    proof {
        lemma_find_bounds(s@, p@);
    }
    match find(s, p) {
        Some(i) => {
            let r = slice_of(s, 0, i);
            assert(r@ =~= s@.take(i as int));
            r
        },
        None => {
            let r = s.clone();
            assert(r@ == s@);
            r
        },
    }
}

fn second_part(s: &Vec<char>, p: &str) -> (r: Option<Vec<char>>)
    ensures
        match r {
            Some(v) => second_part_of(s@, p@) == Some(v@),
            None => second_part_of(s@, p@) is None,
        },
{
    proof {
        lemma_find_bounds(s@, p@);
    }
    let pv = chars_of(p);
    match find(s, p) {
        Some(i) => {
            let n = s.len();
            let rest = slice_of(s, i + pv.len(), n);
            assert(rest@ =~= s@.skip(i + p@.len()));
            Some(before_str(&rest, p))
        },
        None => None,
    }
}

/// `repeat n as i {` as `for i in 0..n  {`, and a bare `repeat {` as `loop{`.
pub fn handle_repeat(s: &Vec<char>) -> (r: Vec<char>)
    ensures
        r@ == repeat_of(s@),
{
    let t = if s.len() > 6 && (s[6] as u32) < 128 {
        let t = slice_of(s, 7, s.len());
        assert(t@ =~= s@.skip(7));
        t
    } else {
        Vec::new()
    };
    let body = trim(&t);
    if body.len() == 0 || eq_str(&body, "{") {
        return chars_of("loop{");
    }
    proof {
        lemma_find_bounds(body@, "{"@);
        reveal_strlit("{");
    }
    let (expr_part, brace) = match find(&body, "{") {
        Some(p) => {
            let a = slice_of(&body, 0, p);
            assert(a@ =~= body@.take(p as int));
            (trim(&a), chars_of(" {"))
        },
        None => {
            let b = body.clone();
            assert(b@ == body@);
            (b, Vec::new())
        },
    };
    let expr = trim(&before_str(&expr_part, " as "));
    let var = match second_part(&expr_part, " as ") {
        Some(v) => trim(&v),
        None => trim(&chars_of("i")),
    };
    let mut r: Vec<char> = Vec::new();
    push_str(&mut r, "for ");
    push_chars(&mut r, &var);
    push_str(&mut r, " in 0..");
    push_chars(&mut r, &expr);
    push_str(&mut r, " ");
    push_chars(&mut r, &brace);
    r
}

fn has_pipeline(s: &Vec<char>) -> (r: bool)
    ensures
        r == has_pipeline_of(s@),
{
    contains(s, "->") || contains(s, "+>") || contains(s, "!->") || contains(s, "&->") || contains(
        s,
        "mv->",
    )
}

fn should_skip(s: &Vec<char>) -> (r: bool)
    ensures
        r == should_skip_of(s@),
{
    if starts_with(s, "fn ") || starts_with(s, "pub fn ") || starts_with(s, "use ") || starts_with(
        s,
        "extern ",
    ) || starts_with(s, "mod ") || starts_with(s, "unsafe") || starts_with(s, "impl ")
        || starts_with(s, "pub impl ") || starts_with(s, "struct ") || starts_with(s, "enum ")
        || starts_with(s, "trait ") {
        return true;
    }
    (starts_with(s, "if ") || starts_with(s, "else ") || starts_with(s, "match ") || starts_with(
        s,
        "while ",
    ) || starts_with(s, "for ") || starts_with(s, "loop ")) && !has_pipeline(s)
}

fn is_utilizer(s: &Vec<char>) -> (r: bool)
    ensures
        r == is_utilizer_of(s@),
{
    starts_with(s, "-") && !starts_with(s, "->") && contains(s, ">")
}

/// `-name->` as `drop(name)`.
pub fn handle_utilizer(s: &Vec<char>) -> (r: Vec<char>)
    requires
        s.len() > 0,
    ensures
        r@ == utilizer_of(s@),
{
    let t = slice_of(s, 1, s.len());
    assert(t@ =~= s@.drop_first());
    let mut r: Vec<char> = Vec::new();
    push_str(&mut r, "drop(");
    push_chars(&mut r, &trim(&drop_last_if(&trim(&before_char(&t, '>')), '-')));
    push_str(&mut r, ")");
    r
}

fn starts_statement_exec(s: &Vec<char>) -> (r: bool)
    ensures
        r == starts_statement(s@),
{
    starts_with(s, "break") || starts_with(s, "continue") || starts_with(s, "return")
        || starts_with(s, "let") || starts_with(s, "match") || starts_with(s, "{") || starts_with(
        s,
        "drop",
    )
}

/// The loop that `enumeration from coll to item {` stands for, or `None`
/// for any other line.
pub fn handle_enumeration(cc: &Vec<char>) -> (r: Option<Vec<char>>)
    ensures
        r is Some <==> is_enumeration_of(cc@),
        r matches Some(v) ==> v@ == enumeration_of(cc@),
{
    proof {
        reveal_strlit("enumeration from ");
        reveal_strlit("{");
        reveal_strlit(" to ");
    }
    if !(starts_with(cc, "enumeration from ") && ends_with(cc, "{")) {
        return None;
    }
    let n = cc.len();
    assert(n >= 18) by {
        assert(cc@.subrange(0, 17)[16] == ' ');
        assert(cc@.subrange(n - 1, n as int)[0] == '{');
        if n == 17 {
            assert(cc@.subrange(0, 17)[16] == cc@[16]);
            assert(cc@.subrange(n - 1, n as int)[0] == cc@[16]);
        }
    }
    let body = slice_of(cc, 17, n - 1);
    assert(body@ =~= cc@.subrange(17, n - 1));
    let h = trim(&body);
    proof {
        lemma_find_bounds(h@, " to "@);
    }
    match find(&h, " to ") {
        None => None,
        Some(p) => {
            let a = slice_of(&h, 0, p);
            assert(a@ =~= h@.take(p as int));
            let hn = h.len();
            let b = slice_of(&h, p + 4, hn);
            assert(b@ =~= h@.skip(p + 4));
            let coll = trim(&a);
            let item = trim(&b);
            let mut r: Vec<char> = Vec::new();
            push_str(&mut r, "for __enum_index in 0..");
            push_chars(&mut r, &coll);
            push_str(&mut r, ".len() { let ");
            push_chars(&mut r, &item);
            push_str(&mut r, " = &");
            push_chars(&mut r, &coll);
            push_str(&mut r, "[__enum_index];");
            Some(r)
        },
    }
}

fn process_statement(cc: &Vec<char>, semi: bool) -> (r: Vec<char>)
    ensures
        r@ == processed_of(cc@, semi),
{
    if should_skip(cc) {
        let r = cc.clone();
        assert(r@ == cc@);
        return r;
    }
    if is_utilizer(cc) {
        proof {
            reveal_strlit("-");
        }
        return handle_utilizer(cc);
    }
    if starts_with(cc, "repeat") {
        return handle_repeat(cc);
    }
    if let Some(r) = handle_enumeration(cc) {
        return r;
    }
    if has_pipeline(cc) {
        let res = handle_pipeline(cc);
        if !semi && !contains(&res, "=") && res.len() > 0 && !starts_statement_exec(&res) {
            let mut r: Vec<char> = Vec::new();
            push_str(&mut r, "return ");
            push_chars(&mut r, &res);
            return r;
        }
        return res;
    }
    let r = cc.clone();
    assert(r@ == cc@);
    r
}

fn split_comment(code: &Vec<char>) -> (r: (Vec<char>, Vec<char>))
    ensures
        r.0@ == comment_split_of(code@).0,
        r.1@ == comment_split_of(code@).1,
{
    proof {
        lemma_find_bounds(code@, "//"@);
    }
    match find(code, "//") {
        Some(p) => {
            let before = slice_of(code, 0, p);
            assert(before@ =~= code@.take(p as int));
            if p > 0 && ends_with(&before, "!") {
                let c = code.clone();
                assert(c@ == code@);
                (c, Vec::new())
            } else {
                let cm = slice_of(code, p, code.len());
                assert(cm@ =~= code@.skip(p as int));
                (trim_end(&before), cm)
            }
        },
        None => {
            let c = code.clone();
            assert(c@ == code@);
            (c, Vec::new())
        },
    }
}

/// The translation of a line outside ignore mode.
fn translate(line: &Vec<char>) -> (r: Vec<char>)
    ensures
        r@ == translate_of(line@),
{
    let indent = spaces(count_leading_spaces(line));
    let code = trim(line);
    if code.len() == 0 || starts_with(&code, "//!") {
        let mut r = line.clone();
        assert(r@ == line@);
        push_str(&mut r, "\n");
        return r;
    }
    if eq_str(&code, "pass") {
        let mut r = indent.clone();
        assert(r@ == indent@);
        push_str(&mut r, "// pass\n");
        return r;
    }
    if eq_str(&code, "import std;") {
        let mut r: Vec<char> = Vec::new();
        push_chars(&mut r, &indent);
        push_str(&mut r, "use std::collections::*;\n");
        push_chars(&mut r, &indent);
        push_str(&mut r, "use std::io::*;\n");
        push_chars(&mut r, &indent);
        push_str(&mut r, "use std::fs::*;\n");
        return r;
    }
    let (clean, comment) = split_comment(&code);
    proof {
        reveal_strlit("ValueRes<");
        reveal_strlit("Value<");
        reveal_strlit(": dict");
    }
    let cur = replace(&replace(&clean, "ValueRes<", "Result<Option<"), "Value<", "Option<");
    let decl = if starts_with(&cur, "tuple ") {
        Some(handle_tuple_decl(&cur))
    } else if starts_with(&cur, "customtype ") {
        Some(handle_custom_type_decl(&cur))
    } else if contains(&cur, ": dict") && contains(&cur, "{") && contains(&cur, "=") {
        Some(handle_dict_init(&cur))
    } else {
        None
    };
    if let Some(d) = decl {
        let mut r = indent.clone();
        assert(r@ == indent@);
        push_chars(&mut r, &d);
        push_chars(&mut r, &comment);
        push_str(&mut r, "\n");
        return r;
    }
    let c2 = replace(&cur, ": dict", ": std::collections::HashMap");
    let c3 = if contains(&c2, "input()") {
        handle_input_call(&c2)
    } else {
        c2
    };
    let st = replace_cp_arrow(&c3);
    let semi = ends_with(&st, ";");
    let cc = strip_end_by(&st, Strip::Semi);
    let processed = process_statement(&cc, semi);
    let mut r = indent.clone();
    assert(r@ == indent@);
    push_chars(&mut r, &processed);
    if semi && !ends_with(&processed, ";") && !ends_with(&processed, "}") {
        push_str(&mut r, ";");
    }
    push_chars(&mut r, &comment);
    push_str(&mut r, "\n");
    r
}

/// Translates one line of ArrowRust into Rust (ending in a newline).
///
/// `ignore_mode` is the translator's ignore mode: `//#ARROW_IGNORE` sets it,
/// `//#ARROW_NO_IGNORE` clears it, and while it is set every line is copied
/// unchanged.
pub fn transpile_line(ignore_mode: &mut bool, line: &str) -> (r: String)
    ensures
        r@ == transpile_of(*old(ignore_mode), line@).0,
        *final(ignore_mode) == transpile_of(*old(ignore_mode), line@).1,
{
    let lv = chars_of(line);
    string_of(&transpile_chars(ignore_mode, &lv))
}

fn transpile_chars(ignore_mode: &mut bool, lv: &Vec<char>) -> (r: Vec<char>)
    ensures
        r@ == transpile_of(*old(ignore_mode), lv@).0,
        *final(ignore_mode) == transpile_of(*old(ignore_mode), lv@).1,
{
    let t = trim(lv);
    if eq_str(&t, "//#ARROW_IGNORE") {
        *ignore_mode = true;
        let mut r = lv.clone();
        assert(r@ == lv@);
        push_str(&mut r, "\n");
        return r;
    }
    if eq_str(&t, "//#ARROW_NO_IGNORE") {
        *ignore_mode = false;
        let mut r = lv.clone();
        assert(r@ == lv@);
        push_str(&mut r, "\n");
        return r;
    }
    if *ignore_mode {
        let mut r = lv.clone();
        assert(r@ == lv@);
        push_str(&mut r, "\n");
        return r;
    }
    translate(lv)
}

/// `(output, mode after)` of translating the lines `ls` one after the other,
/// starting in ignore mode `ignore`: the outputs are concatenated and each
/// line starts in the mode that the line before it left.
pub open spec fn transpile_lines_of(ignore: bool, ls: Seq<Seq<char>>) -> (Seq<char>, bool)
    decreases ls.len(),
{
    if ls.len() == 0 {
        (Seq::empty(), ignore)
    } else {
        let before = transpile_lines_of(ignore, ls.drop_last());
        let last = transpile_of(before.1, ls.last());
        (before.0 + last.0, last.1)
    }
}

/// Translates a whole text of ArrowRust, line by line (as `str::lines` splits
/// it), threading the ignore mode from each line to the next.
pub fn transpile_text(ignore_mode: &mut bool, text: &str) -> (r: String)
    ensures
        r@ == transpile_lines_of(*old(ignore_mode), lines_of(text@)).0,
        *final(ignore_mode) == transpile_lines_of(*old(ignore_mode), lines_of(text@)).1,
{
    let tv = chars_of(text);
    let lns = lines(&tv);
    let ghost ls = views(lns@);
    let ghost mode0 = *ignore_mode;
    let mut out: Vec<char> = Vec::new();
    let mut i: usize = 0;
    assert(ls.take(0) =~= Seq::<Seq<char>>::empty());
    while i < lns.len()
        invariant
            i <= lns.len(),
            ls == views(lns@),
            ls == lines_of(text@),
            out@ == transpile_lines_of(mode0, ls.take(i as int)).0,
            *ignore_mode == transpile_lines_of(mode0, ls.take(i as int)).1,
        decreases lns.len() - i,
    {
        let piece = transpile_chars(ignore_mode, &lns[i]);
        push_chars(&mut out, &piece);
        proof {
            assert(ls.take(i + 1).drop_last() =~= ls.take(i as int));
            assert(ls.take(i + 1).last() == lns@[i as int]@);
        }
        i = i + 1;
    }
    assert(ls.take(lns.len() as int) =~= ls);
    string_of(&out)
}

} // verus!

verus! {

// ---------------------------------------------------------------------------
// Laws
// ---------------------------------------------------------------------------
/// In ignore mode every line is copied unchanged (with its newline), and the
/// mode stays on until the line `//#ARROW_NO_IGNORE`.
pub proof fn law_ignore_mode_copies(line: Seq<char>)
    ensures
        transpile_of(true, line).0 == line + "\n"@,
        transpile_of(true, line).1 == !is_no_ignore_marker(line),
{
    reveal_strlit("//#ARROW_IGNORE");
    reveal_strlit("//#ARROW_NO_IGNORE");
    if is_ignore_marker(line) && is_no_ignore_marker(line) {
        assert("//#ARROW_IGNORE"@.len() != "//#ARROW_NO_IGNORE"@.len());
    }
}

/// `//#ARROW_IGNORE` turns ignore mode on and `//#ARROW_NO_IGNORE` turns it
/// off, whatever the mode was; both lines are copied unchanged.
pub proof fn law_ignore_markers(mode: bool, line: Seq<char>)
    ensures
        is_ignore_marker(line) ==> transpile_of(mode, line) == (line + "\n"@, true),
        is_no_ignore_marker(line) ==> transpile_of(mode, line) == (line + "\n"@, false),
        !is_ignore_marker(line) && !is_no_ignore_marker(line) && !mode ==> !transpile_of(
            mode,
            line,
        ).1,
{
    reveal_strlit("//#ARROW_IGNORE");
    reveal_strlit("//#ARROW_NO_IGNORE");
}

/// Translating the lines `a` and then the lines `b`, with the mode that `a`
/// left, gives the same output and final mode as translating `a + b` at once.
pub proof fn law_lines_split(mode: bool, a: Seq<Seq<char>>, b: Seq<Seq<char>>)
    ensures
        transpile_lines_of(mode, a + b) == ({
            let first = transpile_lines_of(mode, a);
            let second = transpile_lines_of(first.1, b);
            (first.0 + second.0, second.1)
        }),
    decreases b.len(),
{
    if b.len() == 0 {
        assert(a + b =~= a);
        assert(transpile_lines_of(mode, a).0 + Seq::<char>::empty() =~= transpile_lines_of(
            mode,
            a,
        ).0);
    } else {
        law_lines_split(mode, a, b.drop_last());
        assert((a + b).drop_last() =~= a + b.drop_last());
        assert((a + b).last() == b.last());
        let first = transpile_lines_of(mode, a);
        let mid = transpile_lines_of(first.1, b.drop_last());
        let last = transpile_of(mid.1, b.last());
        assert(first.0 + mid.0 + last.0 =~= first.0 + (mid.0 + last.0));
    }
}

/// The value piped into a step always occurs in the call that the step
/// becomes (a step that is not empty and not `set_bit`).
pub proof fn law_piped_value_kept(f: Seq<char>, args: Seq<char>)
    requires
        trim_of(f).len() > 0,
        trim_of(f) != "set_bit"@,
    ensures
        contains_of(wrap_call_of(f, args), args),
{
    let t = trim_of(f);
    reveal_strlit("arg1");
    reveal_strlit(".");
    reveal_strlit("()");
    if ends_with_of(t, "!"@) {
        if t == "println!"@ || t == "print!"@ || t == "format!"@ {
            lemma_contains_middle(t + "(\"{}\", "@, args, ")"@);
        } else {
            lemma_contains_middle(t + "("@, args, ")"@);
        }
    } else if is_rust_method(t) {
        if contains_of(t, "("@) {
            lemma_contains_middle(Seq::empty(), args, "."@ + t);
            assert(Seq::<char>::empty() + args + ("."@ + t) =~= args + "."@ + t);
        } else {
            lemma_contains_middle(Seq::empty(), args, "."@ + t + "()"@);
            assert(Seq::<char>::empty() + args + ("."@ + t + "()"@) =~= args + "."@ + t + "()"@);
        }
    } else {
        law_call_takes_piped_value(t, args);
    }
}

/// A call of `f` holds the piped `args`: in place of `arg1` when `f` names
/// it, and otherwise as its last argument, right before the closing `)`.
pub proof fn law_call_takes_piped_value(f: Seq<char>, args: Seq<char>)
    ensures
        contains_of(standard_call_of(f, args), args),
        !contains_of(f, "arg1"@) ==> ends_with_of(standard_call_of(f, args), args + ")"@),
{
    reveal_strlit("arg1");
    let r = standard_call_of(f, args);
    if contains_of(f, "arg1"@) {
        lemma_replace_contains(f, "arg1"@, args);
    } else {
        let x = if let Some(p) = rfind_of(f, ')') {
            let head = trim_of(f.take(p));
            head + (if ends_with_of(head, "("@) {
                Seq::empty()
            } else {
                ", "@
            })
        } else {
            f + "("@
        };
        assert(r == x + args + ")"@);
        lemma_contains_middle(x, args, ")"@);
        assert(r.subrange(r.len() - (args + ")"@).len(), r.len() as int) =~= args + ")"@);
    }
}

/// Piping `v` into an ordinary call `g(a)` (not a macro, not a method the
/// translator knows, no `arg1`) gives `g(a, v)`: the piped value becomes the
/// last argument, after the ones already there.
pub proof fn law_pipe_into_call(g: Seq<char>, a: Seq<char>, v: Seq<char>)
    requires
        g.len() > 0,
        !is_ws(g[0]),
        a.len() > 0,
        !is_ws(a.last()),
        a.last() != '(',
        !contains_of(g + "("@ + a + ")"@, "arg1"@),
        !is_rust_method(g + "("@ + a + ")"@),
    ensures
        wrap_call_of(g + "("@ + a + ")"@, v) == g + "("@ + a + ", "@ + v + ")"@,
        standard_call_of(g + "("@ + a + ")"@, v) == g + "("@ + a + ", "@ + v + ")"@,
{
    reveal_strlit("(");
    reveal_strlit(")");
    reveal_strlit("!");
    reveal_strlit("set_bit");
    let f = g + "("@ + a + ")"@;
    assert(f[0] == g[0]);
    assert(f.last() == ')');
    lemma_trim_unchanged(f);
    assert(f != "set_bit"@) by {
        if f == "set_bit"@ {
            assert("set_bit"@.last() == 't');
        }
    }
    assert(!ends_with_of(f, "!"@)) by {
        assert(f.subrange(f.len() - 1, f.len() as int)[0] == ')');
    }
    lemma_rfind_last(f, ')');
    let h = f.take(f.len() - 1);
    assert(h =~= g + "("@ + a);
    assert(h[0] == g[0]);
    assert(h.last() == a.last());
    lemma_trim_unchanged(h);
    assert(!ends_with_of(h, "("@)) by {
        assert(h.subrange(h.len() - 1, h.len() as int)[0] == a.last());
    }
}

/// A name made of ASCII letters, digits and underscores.
pub open spec fn is_plain_name(n: Seq<char>) -> bool {
    &&& n.len() > 0
    &&& forall|i: int|
        0 <= i < n.len() ==> is_ascii_letter(#[trigger] n[i]) || is_ascii_digit(n[i]) || n[i]
            == '_'
}

/// A dictionary literal `let NAME: ... = {k: v, ...}` or
/// `let mut NAME: ... = {k: v, ...}` becomes `let mut NAME =
/// std::collections::HashMap::new();` followed by one `NAME.insert(k, v);`
/// per pair: the map is always bound mutably, to the bare name.
pub proof fn law_dict_literal_binds_name(
    kw: Seq<char>,
    name: Seq<char>,
    rest: Seq<char>,
    body: Seq<char>,
    tail: Seq<char>,
)
    requires
        kw == "let mut "@ || kw == "let "@,
        is_plain_name(name),
        forall|i: int| 0 <= i < rest.len() ==> rest[i] != '{',
        forall|i: int| 0 <= i < tail.len() ==> tail[i] != '}',
    ensures
        dict_init_of(kw + name + ":"@ + rest + "{"@ + body + "}"@ + tail) == trim_end_of(
            "let mut "@ + name + " = std::collections::HashMap::new();\n"@ + pair_lines_of(
                split_of(body, ','),
                name,
            ),
        ),
{
    reveal_strlit("let mut ");
    reveal_strlit("let ");
    reveal_strlit(":");
    reveal_strlit("{");
    reveal_strlit("}");
    let x = kw + name + ":"@;
    let pre = x + rest;
    let s = pre + "{"@ + body + "}"@ + tail;
    let kn = kw + name;
    assert(forall|i: int| 0 <= i < kw.len() ==> kw[i] != '{' && kw[i] != ':');
    assert forall|k: int| 0 <= k < pre.len() implies pre[k] != '{' by {
        if k < kw.len() {
        } else if k < kn.len() {
            assert(pre[k] == name[k - kw.len()]);
        } else if k == kn.len() {
        } else {
            assert(pre[k] == rest[k - x.len()]);
        }
    }
    assert(s[pre.len() as int] == '{');
    assert(forall|k: int| 0 <= k < pre.len() ==> s[k] == pre[k]);
    lemma_find_first_char(s, '{', pre.len() as int);
    assert("{"@ =~= seq!['{']);
    assert(s =~= (pre + "{"@ + body) + seq!['}'] + tail);
    lemma_rfind_before_tail(pre + "{"@ + body, '}', tail);
    assert(s.take(pre.len() as int) =~= pre);
    // the text before `{`, trimmed: `kw name:` and what is left of `rest`
    assert(x.last() == ':');
    lemma_strip_end_concat(x, rest, Strip::Equals);
    let r1 = strip_end(rest, Strip::Equals);
    assert((x + r1)[0] == 'l');
    assert(strip_start(x + r1, Strip::Space) == x + r1);
    lemma_strip_end_concat(x, r1, Strip::Space);
    let prefix = x + strip_end(r1, Strip::Space);
    assert(trim_of(strip_end(s.take(pre.len() as int), Strip::Equals)) == prefix);
    assert(prefix =~= kn + seq![':'] + strip_end(r1, Strip::Space));
    assert forall|i: int| 0 <= i < kn.len() implies kn[i] != ':' by {
        if i >= kw.len() {
            assert(kn[i] == name[i - kw.len()]);
        }
    }
    lemma_before_char(kn, ':', strip_end(r1, Strip::Space));
    assert(kn[0] == 'l');
    assert(kn.last() == name.last());
    lemma_trim_unchanged(kn);
    assert(forall|i: int| 0 <= i < name.len() ==> name[i] != ' ');
    reveal_strlit("");
    let e = ""@;
    if kw == "let mut "@ {
        lemma_replace_prefix("let mut "@, name, e);
        lemma_replace_absent(name, "let mut "@, e, 3);
        assert(e + name =~= name);
        lemma_replace_absent(name, "let "@, e, 3);
    } else {
        assert forall|j: int| !matches_at(kn, j, "let mut "@) by {
            if matches_at(kn, j, "let mut "@) {
                let sub = kn.subrange(j, j + 8);
                assert(sub[3] == ' ');
                assert(sub[7] == ' ');
                assert(kn[j + 3] == ' ');
                assert(kn[j + 7] == ' ');
                if j + 3 >= 4 {
                    assert(kn[j + 3] == name[j + 3 - 4]);
                }
                assert(j == 0);
                assert(kn[7] == name[3]);
            }
        }
        lemma_replace_none(kn, "let mut "@, e);
        lemma_replace_prefix("let "@, name, e);
        lemma_replace_absent(name, "let "@, e, 3);
        assert(e + name =~= name);
    }
    assert(s.subrange((pre.len() + 1) as int, (pre.len() + 1 + body.len()) as int) =~= body);
    assert(find_of(s, "{"@) == Some(pre.len() as int));
    assert(before_of(prefix, ':') == kn);
    assert(replace_of(replace_of(trim_of(kn), "let mut "@, e), "let "@, e) == name);
}

proof fn lemma_cp_scan_identity(s: Seq<char>, i: int)
    requires
        0 <= i <= s.len(),
        forall|j: int| 0 <= j < s.len() ==> s[j] != '.',
    ensures
        cp_scan(s, i) == s.subrange(i, s.len() as int),
    decreases s.len() - i,
{
    reveal_strlit(".cp->");
    if i < s.len() {
        if char_alphabetic(s[i]) || s[i] == '_' {
            let e = ident_end(s, i + 1);
            lemma_ident_end(s, i + 1);
            if matches_at(s, e, ".cp->"@) {
                assert(s.subrange(e, e + 5)[0] == s[e]);
            }
            lemma_cp_scan_identity(s, e);
            assert(s.subrange(i, e) + s.subrange(e, s.len() as int) =~= s.subrange(
                i,
                s.len() as int,
            ));
        } else {
            lemma_cp_scan_identity(s, i + 1);
            assert(seq![s[i]] + s.subrange(i + 1, s.len() as int) =~= s.subrange(
                i,
                s.len() as int,
            ));
        }
    } else {
        assert(s.subrange(i, s.len() as int) =~= Seq::<char>::empty());
    }
}

/// A character of a simple argument list: a letter, a digit, `_`, `,` or a space.
pub open spec fn is_simple_arg_char(c: char) -> bool {
    is_ascii_letter(c) || is_ascii_digit(c) || c == '_' || c == ',' || c == ' '
}

/// A non-empty argument list of letters, digits, `_`, `,` and spaces that
/// does not end in a space.
pub open spec fn is_simple_args(a: Seq<char>) -> bool {
    &&& a.len() > 0
    &&& forall|i: int| 0 <= i < a.len() ==> is_simple_arg_char(#[trigger] a[i])
    &&& a.last() != ' '
}

proof fn lemma_no_arrow(s: Seq<char>)
    requires
        forall|i: int| 0 <= i < s.len() ==> s[i] != '>',
    ensures
        step_of(s) is None,
        !has_pipeline_of(s),
{
    reveal_strlit("->|");
    reveal_strlit("->^");
    reveal_strlit("->()");
    reveal_strlit("!->");
    reveal_strlit("&->");
    reveal_strlit("mv->");
    reveal_strlit("+>");
    reveal_strlit("->");
    lemma_not_contains(s, "->|"@, 1);
    lemma_not_contains(s, "->^"@, 1);
    lemma_not_contains(s, "->()"@, 1);
    lemma_not_contains(s, "!->"@, 2);
    lemma_not_contains(s, "&->"@, 2);
    lemma_not_contains(s, "mv->"@, 3);
    lemma_not_contains(s, "+>"@, 1);
    lemma_not_contains(s, "->"@, 1);
}

/// The one arrow of `s` is a ` -> ` at `q`.
proof fn lemma_single_pipe(s: Seq<char>, q: int)
    requires
        1 <= q,
        q + 3 <= s.len(),
        s[q - 1] == ' ',
        s[q] == '-',
        s[q + 1] == '>',
        s[q + 2] == ' ',
        forall|i: int| 0 <= i < s.len() && i != q + 1 ==> s[i] != '>',
    ensures
        step_of(s) == Some((Arrow::Pipe, q)),
{
    reveal_strlit("->|");
    reveal_strlit("->^");
    reveal_strlit("->()");
    reveal_strlit("!->");
    reveal_strlit("&->");
    reveal_strlit("mv->");
    reveal_strlit("+>");
    reveal_strlit("->");
    lemma_find_by_unique(s, "->|"@, 1, q + 1);
    assert(!matches_at(s, q, "->|"@)) by {
        if matches_at(s, q, "->|"@) {
            assert(s.subrange(q, q + 3)[2] == s[q + 2]);
        }
    }
    lemma_find_by_unique(s, "->^"@, 1, q + 1);
    assert(!matches_at(s, q, "->^"@)) by {
        if matches_at(s, q, "->^"@) {
            assert(s.subrange(q, q + 3)[2] == s[q + 2]);
        }
    }
    lemma_find_by_unique(s, "->()"@, 1, q + 1);
    assert(!matches_at(s, q, "->()"@)) by {
        if matches_at(s, q, "->()"@) {
            assert(s.subrange(q, q + 4)[2] == s[q + 2]);
        }
    }
    lemma_find_by_unique(s, "!->"@, 2, q + 1);
    assert(!matches_at(s, q - 1, "!->"@)) by {
        if matches_at(s, q - 1, "!->"@) {
            assert(s.subrange(q - 1, q + 2)[0] == s[q - 1]);
        }
    }
    lemma_find_by_unique(s, "&->"@, 2, q + 1);
    assert(!matches_at(s, q - 1, "&->"@)) by {
        if matches_at(s, q - 1, "&->"@) {
            assert(s.subrange(q - 1, q + 2)[0] == s[q - 1]);
        }
    }
    lemma_find_by_unique(s, "mv->"@, 3, q + 1);
    assert(!matches_at(s, q - 2, "mv->"@)) by {
        if matches_at(s, q - 2, "mv->"@) {
            assert(s.subrange(q - 2, q + 2)[1] == s[q - 1]);
        }
    }
    lemma_find_by_unique(s, "+>"@, 1, q + 1);
    assert(!matches_at(s, q, "+>"@)) by {
        if matches_at(s, q, "+>"@) {
            assert(s.subrange(q, q + 2)[0] == s[q]);
        }
    }
    lemma_find_by_unique(s, "->"@, 1, q + 1);
    assert(s.subrange(q, q + 2) =~= "->"@);
}

/// The characters of `v -> g(a)` for a plain name `v`, a plain name `g` and
/// simple arguments `a`.
proof fn lemma_pipe_line_chars(v: Seq<char>, g: Seq<char>, a: Seq<char>)
    requires
        is_plain_name(v),
        is_plain_name(g),
        is_simple_args(a),
    ensures
        ({
            let f = g + "("@ + a + ")"@;
            let cc = v + " -> "@ + f;
            let q: int = (v.len() + 1) as int;
            &&& cc.len() == v.len() + 4 + f.len()
            &&& f.len() == g.len() + a.len() + 2
            &&& cc[q - 1] == ' ' && cc[q] == '-' && cc[q + 1] == '>' && cc[q + 2] == ' '
            &&& cc[0] == v[0]
            &&& f[0] == g[0] && f[g.len() as int] == '(' && f.last() == ')'
            &&& forall|i: int| 0 <= i < f.len() ==> f[i] != '>' && f[i] != '=' && f[i] != '/'
                && f[i] != '<' && f[i] != ':' && f[i] != '.' && f[i] != ';' && f[i] != '-'
            &&& forall|i: int| 0 <= i < f.len() && i != g.len() ==> f[i] != '('
            &&& forall|i: int|
                0 <= i < cc.len() && i != q + 1 ==> cc[i] != '>'
            &&& forall|i: int|
                0 <= i < cc.len() ==> cc[i] != '=' && cc[i] != '/' && cc[i] != '<' && cc[i]
                    != ':' && cc[i] != '.' && cc[i] != ';'
            &&& forall|i: int|
                0 <= i < cc.len() && i != q + 3 + g.len() ==> cc[i] != '('
            &&& cc[q + 3 + g.len()] == '(' && cc[q + 4 + g.len()] == a[0]
            &&& forall|i: int| 0 <= i < v.len() ==> cc[i] == v[i]
        }),
{
    reveal_strlit("(");
    reveal_strlit(")");
    reveal_strlit(" -> ");
    let f = g + "("@ + a + ")"@;
    let cc = v + " -> "@ + f;
    let q: int = (v.len() + 1) as int;
    assert forall|i: int| 0 <= i < f.len() implies f[i] != '>' && f[i] != '=' && f[i] != '/'
        && f[i] != '<' && f[i] != ':' && f[i] != '.' && f[i] != ';' && f[i] != '-' && (i
        != g.len() ==> f[i] != '(') by {
        if i < g.len() {
            assert(f[i] == g[i]);
        } else if i == g.len() {
        } else if i < g.len() + 1 + a.len() {
            assert(f[i] == a[i - g.len() - 1]);
        } else {
        }
    }
    assert forall|i: int| 0 <= i < cc.len() implies (i != q + 1 ==> cc[i] != '>') && cc[i]
        != '=' && cc[i] != '/' && cc[i] != '<' && cc[i] != ':' && cc[i] != '.' && cc[i] != ';'
        && (i != q + 3 + g.len() ==> cc[i] != '(') by {
        if i < v.len() {
            assert(cc[i] == v[i]);
        } else if i < v.len() + 4 {
        } else {
            assert(cc[i] == f[i - v.len() - 4]);
        }
    }
    assert(cc[q + 4 + g.len()] == f[g.len() + 1int]);
    assert(f[g.len() + 1int] == a[0]);
}

/// `v -> g(a)` as a pipeline is the call `g(a, v)`.
proof fn lemma_pipeline_into_call(v: Seq<char>, g: Seq<char>, a: Seq<char>)
    requires
        is_plain_name(v),
        is_plain_name(g),
        is_simple_args(a),
        !contains_of(g + "("@ + a + ")"@, "arg1"@),
        !is_rust_method(g + "("@ + a + ")"@),
        !char_alphanumeric('('),
    ensures
        pipeline_of(v + " -> "@ + g + "("@ + a + ")"@) == g + "("@ + a + ", "@ + v + ")"@,
{
    reveal_strlit("=");
    reveal_strlit(" -> ");
    reveal_strlit(";");
    reveal_strlit(" ");
    let f = g + "("@ + a + ")"@;
    let cc = v + " -> "@ + f;
    let q: int = (v.len() + 1) as int;
    assert(cc =~= v + " -> "@ + g + "("@ + a + ")"@);
    lemma_pipe_line_chars(v, g, a);
    lemma_not_contains(cc, "="@, 0);
    assert(target_of(cc) == (Seq::<char>::empty(), cc));
    lemma_single_pipe(cc, q);
    assert(cc.take(q) =~= v + " "@);
    lemma_trim_word_space(v);
    assert(cc.skip(q + 2) =~= " "@ + f);
    assert(!is_ws(f[0]) && !is_ws(f.last()));
    lemma_trim_word_space(f);
    lemma_no_arrow(f);
    assert(!ends_with_of(f, ";"@)) by {
        assert(f.subrange(f.len() - 1, f.len() as int)[0] == f.last());
    }
    assert(!is_ident_of(f)) by {
        assert(f[g.len() as int] == '(');
    }
    assert(!is_ws(a.last()));
    law_pipe_into_call(g, a, v);
    let e = Seq::<char>::empty();
    assert(e + wrap_call_of(f, v) =~= wrap_call_of(f, v));
    assert(last_of(f, v, e) == wrap_call_of(f, v));
    assert(pipeline_loop_of(cc, f, v, e) == last_of(f, v, e));
    assert(next_acc_of(cc, Arrow::Pipe, v, e) == v);
    assert(trim_of(cc.skip(q + 2)) == f);
    assert(pipeline_loop_of(cc, cc, e, e) == pipeline_loop_of(cc, f, v, e));
}

/// Names that start a line the translator treats specially: item keywords,
/// the declarations `tuple` and `customtype`, and `unsafe…`/`repeat…`.
pub open spec fn is_reserved_word(v: Seq<char>) -> bool {
    ||| v == "fn"@
    ||| v == "use"@
    ||| v == "extern"@
    ||| v == "mod"@
    ||| v == "impl"@
    ||| v == "struct"@
    ||| v == "enum"@
    ||| v == "trait"@
    ||| v == "tuple"@
    ||| v == "customtype"@
    ||| starts_with_of(v, "unsafe"@)
    ||| starts_with_of(v, "repeat"@)
}

proof fn lemma_no_keyword_start(v: Seq<char>, t: Seq<char>)
    requires
        is_plain_name(v),
        !is_reserved_word(v),
        t.len() > 0,
        t[0] == '-',
    ensures
        ({
            let s = v + " "@ + t;
            &&& !starts_with_of(s, "fn "@)
            &&& !starts_with_of(s, "pub fn "@)
            &&& !starts_with_of(s, "use "@)
            &&& !starts_with_of(s, "extern "@)
            &&& !starts_with_of(s, "mod "@)
            &&& !starts_with_of(s, "unsafe"@)
            &&& !starts_with_of(s, "impl "@)
            &&& !starts_with_of(s, "pub impl "@)
            &&& !starts_with_of(s, "struct "@)
            &&& !starts_with_of(s, "enum "@)
            &&& !starts_with_of(s, "trait "@)
            &&& !starts_with_of(s, "tuple "@)
            &&& !starts_with_of(s, "customtype "@)
            &&& !starts_with_of(s, "repeat"@)
            &&& !starts_with_of(s, "enumeration from "@)
            &&& !starts_with_of(s, "-"@)
        }),
{
    reveal_strlit("fn ");
    reveal_strlit("use ");
    reveal_strlit("extern ");
    reveal_strlit("mod ");
    reveal_strlit("impl ");
    reveal_strlit("struct ");
    reveal_strlit("enum ");
    reveal_strlit("trait ");
    reveal_strlit("tuple ");
    reveal_strlit("customtype ");
    reveal_strlit("fn");
    reveal_strlit("use");
    reveal_strlit("extern");
    reveal_strlit("mod");
    reveal_strlit("impl");
    reveal_strlit("struct");
    reveal_strlit("enum");
    reveal_strlit("trait");
    reveal_strlit("tuple");
    reveal_strlit("customtype");
    reveal_strlit("pub fn ");
    reveal_strlit("pub impl ");
    reveal_strlit("enumeration from ");
    reveal_strlit("unsafe");
    reveal_strlit("repeat");
    reveal_strlit("-");
    reveal_strlit(" ");
    let s = v + " "@ + t;
    assert(forall|i: int| 0 <= i < v.len() ==> v[i] != ' ');
    assert(s[0] == v[0]);
    assert(s[v.len() as int] == ' ');
    assert(forall|i: int| 0 <= i < t.len() ==> s[v.len() + 1 + i] == t[i]);
    if starts_with_of(s, "fn "@) {
        lemma_first_word(v, t, "fn "@, 2);
        assert("fn "@.take(2) =~= "fn"@);
    }
    if starts_with_of(s, "use "@) {
        lemma_first_word(v, t, "use "@, 3);
        assert("use "@.take(3) =~= "use"@);
    }
    if starts_with_of(s, "extern "@) {
        lemma_first_word(v, t, "extern "@, 6);
        assert("extern "@.take(6) =~= "extern"@);
    }
    if starts_with_of(s, "mod "@) {
        lemma_first_word(v, t, "mod "@, 3);
        assert("mod "@.take(3) =~= "mod"@);
    }
    if starts_with_of(s, "impl "@) {
        lemma_first_word(v, t, "impl "@, 4);
        assert("impl "@.take(4) =~= "impl"@);
    }
    if starts_with_of(s, "struct "@) {
        lemma_first_word(v, t, "struct "@, 6);
        assert("struct "@.take(6) =~= "struct"@);
    }
    if starts_with_of(s, "enum "@) {
        lemma_first_word(v, t, "enum "@, 4);
        assert("enum "@.take(4) =~= "enum"@);
    }
    if starts_with_of(s, "trait "@) {
        lemma_first_word(v, t, "trait "@, 5);
        assert("trait "@.take(5) =~= "trait"@);
    }
    if starts_with_of(s, "tuple "@) {
        lemma_first_word(v, t, "tuple "@, 5);
        assert("tuple "@.take(5) =~= "tuple"@);
    }
    if starts_with_of(s, "customtype "@) {
        lemma_first_word(v, t, "customtype "@, 10);
        assert("customtype "@.take(10) =~= "customtype"@);
    }
    if starts_with_of(s, "pub fn "@) {
        lemma_first_word(v, t, "pub fn "@, 3);
        assert(s.subrange(0, "pub fn "@.len() as int)[4] == s[4]);
        assert(s[4] == t[0]);
    }
    if starts_with_of(s, "pub impl "@) {
        lemma_first_word(v, t, "pub impl "@, 3);
        assert(s.subrange(0, "pub impl "@.len() as int)[4] == s[4]);
        assert(s[4] == t[0]);
    }
    if starts_with_of(s, "enumeration from "@) {
        lemma_first_word(v, t, "enumeration from "@, 11);
        assert(s.subrange(0, "enumeration from "@.len() as int)[12] == s[12]);
        assert(s[12] == t[0]);
    }
    if starts_with_of(s, "unsafe"@) {
        lemma_first_word_prefix(v, t, "unsafe"@);
    }
    if starts_with_of(s, "repeat"@) {
        lemma_first_word_prefix(v, t, "repeat"@);
    }
    if starts_with_of(s, "-"@) {
        assert(s.subrange(0, 1)[0] == s[0]);
    }
}

/// `transpile_line` on `v -> g(a);` (outside ignore mode) gives
/// `g(a, v);`: a value piped into an ordinary function call is passed as its
/// last argument, after the arguments already there, and ignore mode stays
/// off. Here `v` and `g` are plain names (`v` not a keyword the translator
/// treats specially), `a` a simple argument list, and `g(a)` neither names
/// `arg1` nor a method the translator writes with a dot.
#[verifier::spinoff_prover]
#[verifier::rlimit(40)]
pub proof fn law_transpile_pipe_into_call(v: Seq<char>, g: Seq<char>, a: Seq<char>)
    requires
        is_plain_name(v),
        !is_reserved_word(v),
        is_plain_name(g),
        is_simple_args(a),
        !contains_of(g + "("@ + a + ")"@, "arg1"@),
        !is_rust_method(g + "("@ + a + ")"@),
        !char_alphanumeric('('),
    ensures
        transpile_of(false, v + " -> "@ + g + "("@ + a + ");"@) == (
            g + "("@ + a + ", "@ + v + ");\n"@,
            false,
        ),
{
    reveal_strlit(" -> ");
    reveal_strlit(";");
    reveal_strlit(");");
    reveal_strlit(");\n");
    reveal_strlit("\n");
    reveal_strlit("(");
    reveal_strlit(")");
    reveal_strlit(" ");
    reveal_strlit("->");
    reveal_strlit("-> ");
    reveal_strlit("//");
    reveal_strlit("//!");
    reveal_strlit("pass");
    reveal_strlit("import std;");
    reveal_strlit("ValueRes<");
    reveal_strlit("Value<");
    reveal_strlit(": dict");
    reveal_strlit("input()");
    reveal_strlit("}");
    reveal_strlit("//#ARROW_IGNORE");
    reveal_strlit("//#ARROW_NO_IGNORE");
    let f = g + "("@ + a + ")"@;
    let cc = v + " -> "@ + f;
    let line = cc + ";"@;
    let q: int = (v.len() + 1) as int;
    let e = Seq::<char>::empty();
    assert(line =~= v + " -> "@ + g + "("@ + a + ");"@);
    lemma_pipe_line_chars(v, g, a);
    assert(forall|i: int| 0 <= i < cc.len() ==> line[i] == cc[i]);
    assert(line.last() == ';');
    assert forall|i: int| 0 <= i < line.len() implies line[i] != '/' && line[i] != '<'
        && line[i] != ':' && line[i] != '.' && (i != q + 3 + g.len() ==> line[i] != '(') by {
        if i < cc.len() {
            assert(line[i] == cc[i]);
        }
    }
    // indentation and trimming
    assert(leading_spaces(line) == 0);
    assert(spaces_of(0) =~= e);
    lemma_trim_unchanged(line);
    let code = line;
    assert(!starts_with_of(code, "//!"@)) by {
        if starts_with_of(code, "//!"@) {
            assert(code.subrange(0, 3)[0] == code[0]);
        }
    }
    assert(code != "pass"@);
    assert(code != "import std;"@) by {
        if code == "import std;"@ {
            assert(code[q + 1] == '>');
        }
    }
    // no comment, no typed values
    lemma_not_contains(code, "//"@, 0);
    lemma_replace_absent(code, "ValueRes<"@, "Result<Option<"@, 8);
    lemma_replace_absent(code, "Value<"@, "Option<"@, 5);
    assert(typed_of(code) == code);
    // not a declaration
    assert(code =~= v + " "@ + ("-> "@ + f + ";"@));
    lemma_no_keyword_start(v, "-> "@ + f + ";"@);
    lemma_not_contains(code, ": dict"@, 0);
    assert(!is_declaration(code));
    // the statement is the line itself
    lemma_replace_absent(code, ": dict"@, ": std::collections::HashMap"@, 0);
    let qp = q + 3 + g.len();
    lemma_find_by_unique(code, "input()"@, 5, qp);
    assert(!matches_at(code, qp - 5, "input()"@)) by {
        if matches_at(code, qp - 5, "input()"@) {
            assert(code.subrange(qp - 5, qp + 2)[6] == code[qp + 1]);
        }
    }
    lemma_cp_scan_identity(code, 0);
    assert(code.subrange(0, code.len() as int) =~= code);
    assert(statement_of(code) == code);
    assert(ends_with_of(code, ";"@)) by {
        assert(code.subrange(code.len() - 1, code.len() as int) =~= ";"@);
    }
    lemma_strip_end_concat(cc, ";"@, Strip::Semi);
    assert(";"@.drop_last() =~= e);
    assert(strip_end(";"@, Strip::Semi) == e) by {
        assert(strip_end(e, Strip::Semi) == e);
    }
    assert(cc + e =~= cc);
    assert(strip_end(code, Strip::Semi) == cc);
    // the statement is a pipeline
    assert(cc =~= v + " "@ + ("-> "@ + f));
    lemma_no_keyword_start(v, "-> "@ + f);
    assert(cc.subrange(q, q + 2) =~= "->"@);
    lemma_matches_contains(cc, "->"@, q);
    assert(has_pipeline_of(cc));
    assert(!should_skip_of(cc));
    assert(!is_utilizer_of(cc));
    assert(!is_enumeration_of(cc));
    lemma_pipeline_into_call(v, g, a);
    assert(cc =~= v + " -> "@ + g + "("@ + a + ")"@);
    let res = g + "("@ + a + ", "@ + v + ")"@;
    assert(processed_of(cc, true) == res);
    assert(res.last() == ')');
    assert(!ends_with_of(res, ";"@)) by {
        assert(res.subrange(res.len() - 1, res.len() as int)[0] == ')');
    }
    assert(!ends_with_of(res, "}"@)) by {
        assert(res.subrange(res.len() - 1, res.len() as int)[0] == ')');
    }
    assert(translate_of(line) == e + res + ";"@ + e + "\n"@);
    assert(e + res + ";"@ + e + "\n"@ =~= g + "("@ + a + ", "@ + v + ");\n"@);
    assert(!is_ignore_marker(line)) by {
        assert("//#ARROW_IGNORE"@[0] == '/');
    }
    assert(!is_no_ignore_marker(line)) by {
        assert("//#ARROW_NO_IGNORE"@[0] == '/');
    }
}

/// `transpile_line` on a dictionary literal `let NAME: dict = {k: v, ...}`
/// or `let mut NAME: dict = {k: v, ...}` (with or without a final `;`,
/// outside ignore mode) gives `let mut NAME = std::collections::HashMap::new();`
/// and then `NAME.insert(k, v);` for each pair, `NAME` being the bare name.
#[verifier::spinoff_prover]
#[verifier::rlimit(40)]
pub proof fn law_transpile_dict_literal(
    kw: Seq<char>,
    name: Seq<char>,
    body: Seq<char>,
    tail: Seq<char>,
)
    requires
        kw == "let mut "@ || kw == "let "@,
        is_plain_name(name),
        forall|i: int| 0 <= i < body.len() ==> body[i] != '/' && body[i] != '<',
        tail == ";"@ || tail.len() == 0,
    ensures
        transpile_of(false, kw + name + ": dict = {"@ + body + "}"@ + tail) == (
            trim_end_of(
                "let mut "@ + name + " = std::collections::HashMap::new();\n"@ + pair_lines_of(
                    split_of(body, ','),
                    name,
                ),
            ) + "\n"@,
            false,
        ),
{
    reveal_strlit("let mut ");
    reveal_strlit("let ");
    reveal_strlit(": dict = {");
    reveal_strlit(": dict");
    reveal_strlit(" = {");
    reveal_strlit(":");
    reveal_strlit(" dict = ");
    reveal_strlit("{");
    reveal_strlit("}");
    reveal_strlit(";");
    reveal_strlit("=");
    reveal_strlit("\n");
    reveal_strlit("//");
    reveal_strlit("//!");
    reveal_strlit("pass");
    reveal_strlit("import std;");
    reveal_strlit("ValueRes<");
    reveal_strlit("Value<");
    reveal_strlit("tuple ");
    reveal_strlit("customtype ");
    reveal_strlit("//#ARROW_IGNORE");
    reveal_strlit("//#ARROW_NO_IGNORE");
    reveal_strlit(": dict ");
    reveal_strlit(" {");
    reveal_strlit(": dict = ");
    let e = Seq::<char>::empty();
    let kn = kw + name;
    let line = kn + ": dict = {"@ + body + "}"@ + tail;
    assert(line =~= kw + name + ": dict = {"@ + body + "}"@ + tail);
    assert(line[0] == 'l');
    assert(line.last() == ';' || line.last() == '}');
    assert forall|i: int| 0 <= i < line.len() implies line[i] != '/' && line[i] != '<' by {
        let a = kn.len() + 10;
        if i < kw.len() {
        } else if i < kn.len() {
            assert(line[i] == name[i - kw.len()]);
        } else if i < a {
        } else if i < a + body.len() {
            assert(line[i] == body[i - a]);
        } else {
        }
    }
    // indentation and trimming
    assert(leading_spaces(line) == 0);
    assert(spaces_of(0) =~= e);
    lemma_trim_unchanged(line);
    assert(!starts_with_of(line, "//!"@)) by {
        if starts_with_of(line, "//!"@) {
            assert(line.subrange(0, 3)[0] == line[0]);
        }
    }
    assert(line != "pass"@);
    assert(line != "import std;"@);
    // no comment, no typed values
    lemma_not_contains(line, "//"@, 0);
    lemma_replace_absent(line, "ValueRes<"@, "Result<Option<"@, 8);
    lemma_replace_absent(line, "Value<"@, "Option<"@, 5);
    assert(typed_of(line) == line);
    // a dictionary literal
    assert(!starts_with_of(line, "tuple "@)) by {
        if starts_with_of(line, "tuple "@) {
            assert(line.subrange(0, 6)[0] == line[0]);
        }
    }
    assert(!starts_with_of(line, "customtype "@)) by {
        if starts_with_of(line, "customtype "@) {
            assert(line.subrange(0, 11)[0] == line[0]);
        }
    }
    let after = " = {"@ + body + "}"@ + tail;
    assert(line =~= kn + ": dict"@ + after);
    lemma_contains_middle(kn, ": dict"@, after);
    assert(line =~= (kn + ": dict "@) + "="@ + (" {"@ + body + "}"@ + tail));
    lemma_contains_middle(kn + ": dict "@, "="@, " {"@ + body + "}"@ + tail);
    assert(line =~= (kn + ": dict = "@) + "{"@ + (body + "}"@ + tail));
    lemma_contains_middle(kn + ": dict = "@, "{"@, body + "}"@ + tail);
    assert(is_declaration(line));
    assert(line =~= kw + name + ":"@ + " dict = "@ + "{"@ + body + "}"@ + tail);
    assert(forall|i: int| 0 <= i < tail.len() ==> tail[i] != '}');
    law_dict_literal_binds_name(kw, name, " dict = "@, body, tail);
    assert(declaration_of(line) == dict_init_of(line));
    let d = dict_init_of(line);
    assert(e + d + e + "\n"@ =~= d + "\n"@);
    assert(!is_ignore_marker(line)) by {
        assert("//#ARROW_IGNORE"@[0] == '/');
    }
    assert(!is_no_ignore_marker(line)) by {
        assert("//#ARROW_NO_IGNORE"@[0] == '/');
    }
}

proof fn lemma_ends_with_newline(a: Seq<char>, b: Seq<char>)
    requires
        ends_with_of(b, "\n"@),
    ensures
        ends_with_of(a + b, "\n"@),
{
    reveal_strlit("\n");
    assert((a + b).subrange((a + b).len() - 1, (a + b).len() as int) =~= b.subrange(
        b.len() - 1,
        b.len() as int,
    ));
}

/// Every translated line ends with a newline.
pub proof fn law_output_ends_with_newline(mode: bool, line: Seq<char>)
    ensures
        ends_with_of(transpile_of(mode, line).0, "\n"@),
{
    reveal_strlit("\n");
    reveal_strlit("// pass\n");
    reveal_strlit("use std::fs::*;\n");
    assert("\n"@.subrange(0, 1) =~= "\n"@);
    assert(ends_with_of("\n"@, "\n"@));
    assert("// pass\n"@.subrange(7, 8) =~= "\n"@);
    assert("use std::fs::*;\n"@.subrange(15, 16) =~= "\n"@);
    let code = trim_of(line);
    let indent = spaces_of(leading_spaces(line));
    lemma_ends_with_newline(line, "\n"@);
    lemma_ends_with_newline(indent, "// pass\n"@);
    lemma_ends_with_newline(
        indent + "use std::collections::*;\n"@ + indent + "use std::io::*;\n"@ + indent,
        "use std::fs::*;\n"@,
    );
    let comment = comment_split_of(code).1;
    let cur = typed_of(comment_split_of(code).0);
    lemma_ends_with_newline(indent + declaration_of(cur) + comment, "\n"@);
    let st = statement_of(cur);
    let semi = ends_with_of(st, ";"@);
    let cc = strip_end(st, Strip::Semi);
    let processed = processed_of(cc, semi);
    lemma_ends_with_newline(indent + processed + ";"@ + comment, "\n"@);
    lemma_ends_with_newline(indent + processed + Seq::<char>::empty() + comment, "\n"@);
}

proof fn lemma_strip_spaces_prefix(n: nat, x: Seq<char>)
    ensures
        strip_start(spaces_of(n) + x, Strip::Space) == strip_start(x, Strip::Space),
        leading_spaces(spaces_of(n) + x) == n + leading_spaces(x),
    decreases n,
{
    if n > 0 {
        let s = spaces_of(n) + x;
        assert(s[0] == ' ');
        assert(s.drop_first() =~= spaces_of((n - 1) as nat) + x);
        lemma_strip_spaces_prefix((n - 1) as nat, x);
    } else {
        assert(spaces_of(0) + x =~= x);
    }
}

/// `pass` becomes a comment, at the same indentation, in any line.
pub proof fn law_pass_becomes_comment(n: nat, mode: bool)
    ensures
        !mode ==> transpile_of(mode, spaces_of(n) + "pass"@) == (spaces_of(n) + "// pass\n"@, false),
{
    reveal_strlit("pass");
    reveal_strlit("//#ARROW_IGNORE");
    reveal_strlit("//#ARROW_NO_IGNORE");
    reveal_strlit("//!");
    let p = "pass"@;
    lemma_strip_spaces_prefix(n, p);
    assert(strip_start(p, Strip::Space) == p);
    assert(strip_end(p, Strip::Space) == p);
    assert(leading_spaces(p) == 0);
    assert(trim_of(spaces_of(n) + p) == p);
    assert(!starts_with_of(p, "//!"@)) by {
        assert(p.subrange(0, 3)[0] != "//!"@[0]);
    }
}

} // verus!
