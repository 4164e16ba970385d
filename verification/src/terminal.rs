//! Terminal control: the ANSI escape sequences for clearing the screen,
//! moving and hiding the cursor, and 24-bit colours, and the text of a drawn
//! box. Writing them to the terminal is the caller's part.
use vstd::prelude::*;
use crate::bigint::decimal;
use crate::base::SafeString;
use crate::text::{chars_of, string_of, push_str, push_chars};

verus! {

/// The control sequence introducer, `ESC [`.
pub open spec fn csi() -> Seq<char> {
    seq!['\x1B', '[']
}

/// `ESC [ y ; x H`: move the cursor to column `x`, row `y` (from 1).
pub open spec fn move_text(x: nat, y: nat) -> Seq<char> {
    csi() + decimal(y) + seq![';'] + decimal(x) + seq!['H']
}

/// `ESC [ kind ; 2 ; r ; g ; b m`: a 24-bit colour, `kind` 38 for the text
/// and 48 for the background.
pub open spec fn rgb_text(kind: nat, r: nat, g: nat, b: nat) -> Seq<char> {
    csi() + decimal(kind) + seq![';', '2', ';'] + decimal(r) + seq![';'] + decimal(g) + seq![';']
        + decimal(b) + seq!['m']
}

/// `ESC [ 0 m`: reset every style and colour.
pub open spec fn reset_text() -> Seq<char> {
    csi() + seq!['0', 'm']
}

/// `text` in the colour `(r, g, b)`, followed by a reset.
pub open spec fn colored(text: Seq<char>, r: nat, g: nat, b: nat) -> Seq<char> {
    rgb_text(38, r, g, b) + text + reset_text()
}

/// `n` copies of `c`.
pub open spec fn repeat_char(c: char, n: nat) -> Seq<char> {
    Seq::new(n, |i: int| c)
}

/// The middle rows of a box: row `i` (from 0) at `y + i + 1`, a vertical bar,
/// `w - 2` spaces and a vertical bar.
pub open spec fn box_rows(x: nat, y: nat, w: nat, k: nat) -> Seq<char>
    decreases k,
{
    if k == 0 {
        Seq::empty()
    } else {
        box_rows(x, y, w, (k - 1) as nat) + move_text(x, y + k) + seq!['│'] + repeat_char(
            ' ',
            (w - 2) as nat,
        ) + seq!['│']
    }
}

/// A box of `w` by `h` cells with its top left corner at `(x, y)`.
pub open spec fn box_text(x: nat, y: nat, w: nat, h: nat) -> Seq<char> {
    move_text(x, y) + seq!['┌'] + repeat_char('─', (w - 2) as nat) + seq!['┐'] + box_rows(
        x,
        y,
        w,
        (h - 2) as nat,
    ) + move_text(x, (y + h - 1) as nat) + seq!['└'] + repeat_char('─', (w - 2) as nat) + seq![
        '┘',
    ]
}

/// The decimal digits of `n`.
pub fn decimal_digits(n: u64) -> (r: Vec<char>)
    ensures
        r@ == decimal(n as nat),
{
    let mut digits: Vec<char> = Vec::new();
    digits.push(digit_char_of(n % 10));
    let mut rest = n / 10;
    proof {
        if rest > 0 {
            assert(decimal(n as nat) =~= decimal(rest as nat) + digits@);
        } else {
            assert(decimal(n as nat) =~= digits@);
        }
    }
    while rest > 0
        invariant
            rest > 0 ==> decimal(n as nat) == decimal(rest as nat) + digits@,
            rest == 0 ==> decimal(n as nat) == digits@,
        decreases rest,
    {
        let d = rest % 10;
        let c = digit_char_of(d);
        let ghost old_digits = digits@;
        digits.insert(0, c);
        proof {
            assert(digits@ =~= seq![c] + old_digits);
            if rest / 10 > 0 {
                assert(decimal(rest as nat) == decimal((rest / 10) as nat).push(c));
                assert(decimal((rest / 10) as nat).push(c) + old_digits =~= decimal(
                    (rest / 10) as nat,
                ) + digits@);
            } else {
                assert(decimal(rest as nat) =~= seq![c]);
            }
        }
        rest = rest / 10;
    }
    digits
}

/// The character of decimal digit `d`.
fn digit_char_of(d: u64) -> (c: char)
    requires
        d < 10,
    ensures
        c == crate::bigint::digit_char(d as nat),
{
    match d {
        0 => '0',
        1 => '1',
        2 => '2',
        3 => '3',
        4 => '4',
        5 => '5',
        6 => '6',
        7 => '7',
        8 => '8',
        _ => '9',
    }
}

/// Appends `ESC [ y ; x H`.
fn push_move(out: &mut Vec<char>, x: u32, y: u32)
    ensures
        final(out)@ == old(out)@ + move_text(x as nat, y as nat),
{
    out.push('\x1B');
    out.push('[');
    push_chars(out, &decimal_digits(y as u64));
    out.push(';');
    push_chars(out, &decimal_digits(x as u64));
    out.push('H');
    proof {
        assert(final(out)@ =~= old(out)@ + move_text(x as nat, y as nat));
    }
}

/// Appends the 24-bit colour sequence of kind 38 (text) or 48 (background).
fn push_rgb(out: &mut Vec<char>, kind: u64, r: u8, g: u8, b: u8)
    ensures
        final(out)@ == old(out)@ + rgb_text(kind as nat, r as nat, g as nat, b as nat),
{
    out.push('\x1B');
    out.push('[');
    push_chars(out, &decimal_digits(kind));
    out.push(';');
    out.push('2');
    out.push(';');
    push_chars(out, &decimal_digits(r as u64));
    out.push(';');
    push_chars(out, &decimal_digits(g as u64));
    out.push(';');
    push_chars(out, &decimal_digits(b as u64));
    out.push('m');
    proof {
        assert(final(out)@ =~= old(out)@ + rgb_text(kind as nat, r as nat, g as nat, b as nat));
    }
}

/// Appends `ESC [ 0 m`.
fn push_reset(out: &mut Vec<char>)
    ensures
        final(out)@ == old(out)@ + reset_text(),
{
    out.push('\x1B');
    out.push('[');
    out.push('0');
    out.push('m');
    proof {
        assert(final(out)@ =~= old(out)@ + reset_text());
    }
}

/// Appends `n` copies of `c`.
fn push_repeat(out: &mut Vec<char>, c: char, n: u32)
    ensures
        final(out)@ == old(out)@ + repeat_char(c, n as nat),
{
    let mut i: u32 = 0;
    while i < n
        invariant
            i <= n,
            out@ == old(out)@ + repeat_char(c, i as nat),
        decreases n - i,
    {
        out.push(c);
        i += 1;
        proof {
            assert(out@ =~= old(out)@ + repeat_char(c, i as nat));
        }
    }
}

/// The terminal: the escape sequences that control it.
pub struct Terminal;

impl Terminal {
    /// Clears the whole screen and puts the cursor at 1,1.
    pub fn clear() -> (r: String)
        ensures
            r@ == csi() + seq!['2', 'J'] + csi() + seq!['1', ';', '1', 'H'],
    {
        let mut out: Vec<char> = Vec::new();
        out.push('\x1B');
        out.push('[');
        out.push('2');
        out.push('J');
        push_move(&mut out, 1, 1);
        proof {
            assert(decimal(1) =~= seq!['1']);
            assert(out@ =~= csi() + seq!['2', 'J'] + csi() + seq!['1', ';', '1', 'H']);
        }
        string_of(&out)
    }

    /// Clears the line the cursor is on.
    pub fn clear_line() -> (r: String)
        ensures
            r@ == csi() + seq!['2', 'K'],
    {
        let mut out: Vec<char> = Vec::new();
        out.push('\x1B');
        out.push('[');
        out.push('2');
        out.push('K');
        proof {
            assert(out@ =~= csi() + seq!['2', 'K']);
        }
        string_of(&out)
    }

    /// Moves the cursor to column `x`, row `y` (counted from 1).
    pub fn move_to(x: u32, y: u32) -> (r: String)
        ensures
            r@ == move_text(x as nat, y as nat),
    {
        let mut out: Vec<char> = Vec::new();
        push_move(&mut out, x, y);
        proof {
            assert(out@ =~= move_text(x as nat, y as nat));
        }
        string_of(&out)
    }

    /// Hides the cursor.
    pub fn hide_cursor() -> (r: String)
        ensures
            r@ == csi() + seq!['?', '2', '5', 'l'],
    {
        let mut out: Vec<char> = Vec::new();
        out.push('\x1B');
        out.push('[');
        push_str(&mut out, "?25l");
        proof {
            reveal_strlit("?25l");
            assert(out@ =~= csi() + seq!['?', '2', '5', 'l']);
        }
        string_of(&out)
    }

    /// Shows the cursor.
    pub fn show_cursor() -> (r: String)
        ensures
            r@ == csi() + seq!['?', '2', '5', 'h'],
    {
        let mut out: Vec<char> = Vec::new();
        out.push('\x1B');
        out.push('[');
        push_str(&mut out, "?25h");
        proof {
            reveal_strlit("?25h");
            assert(out@ =~= csi() + seq!['?', '2', '5', 'h']);
        }
        string_of(&out)
    }

    /// Sets the text colour.
    pub fn set_fg_rgb(r: u8, g: u8, b: u8) -> (s: String)
        ensures
            s@ == rgb_text(38, r as nat, g as nat, b as nat),
    {
        let mut out: Vec<char> = Vec::new();
        push_rgb(&mut out, 38, r, g, b);
        proof {
            assert(out@ =~= rgb_text(38, r as nat, g as nat, b as nat));
        }
        string_of(&out)
    }

    /// Sets the background colour.
    pub fn set_bg_rgb(r: u8, g: u8, b: u8) -> (s: String)
        ensures
            s@ == rgb_text(48, r as nat, g as nat, b as nat),
    {
        let mut out: Vec<char> = Vec::new();
        push_rgb(&mut out, 48, r, g, b);
        proof {
            assert(out@ =~= rgb_text(48, r as nat, g as nat, b as nat));
        }
        string_of(&out)
    }

    /// Resets every style and colour.
    pub fn reset() -> (s: String)
        ensures
            s@ == reset_text(),
    {
        let mut out: Vec<char> = Vec::new();
        push_reset(&mut out);
        proof {
            assert(out@ =~= reset_text());
        }
        string_of(&out)
    }

    /// `text` in the colour `(r, g, b)`, then a reset.
    pub fn print_rgb(text: &str, r: u8, g: u8, b: u8) -> (s: String)
        ensures
            s@ == colored(text@, r as nat, g as nat, b as nat),
    {
        let mut out: Vec<char> = Vec::new();
        push_rgb(&mut out, 38, r, g, b);
        push_str(&mut out, text);
        push_reset(&mut out);
        proof {
            assert(out@ =~= colored(text@, r as nat, g as nat, b as nat));
        }
        string_of(&out)
    }
}

/// Text that can be shown in a 24-bit colour.
pub trait Colorable: Sized {
    /// The characters of the text.
    spec fn text(&self) -> Seq<char>;

    /// The text in the colour `(r, g, b)`, followed by a reset.
    fn color_rgb(self, r: u8, g: u8, b: u8) -> (s: String)
        ensures
            s@ == colored(self.text(), r as nat, g as nat, b as nat),
    ;
}

/// The colour sequence, `text` and a reset.
fn colored_string(text: &Vec<char>, r: u8, g: u8, b: u8) -> (s: String)
    ensures
        s@ == colored(text@, r as nat, g as nat, b as nat),
{
    let mut out: Vec<char> = Vec::new();
    push_rgb(&mut out, 38, r, g, b);
    push_chars(&mut out, text);
    push_reset(&mut out);
    proof {
        assert(out@ =~= colored(text@, r as nat, g as nat, b as nat));
    }
    string_of(&out)
}

impl Colorable for String {
    open spec fn text(&self) -> Seq<char> {
        self@
    }

    fn color_rgb(self, r: u8, g: u8, b: u8) -> (s: String) {
        colored_string(&chars_of(self.as_str()), r, g, b)
    }
}

impl<'a> Colorable for &'a str {
    open spec fn text(&self) -> Seq<char> {
        (*self)@
    }

    fn color_rgb(self, r: u8, g: u8, b: u8) -> (s: String) {
        colored_string(&chars_of(self), r, g, b)
    }
}

impl Colorable for SafeString {
    open spec fn text(&self) -> Seq<char> {
        self@
    }

    fn color_rgb(self, r: u8, g: u8, b: u8) -> (s: String) {
        let v = self.to_string();
        colored_string(&chars_of(v.as_str()), r, g, b)
    }
}

/// The text that draws a `w` by `h` box with its top left corner at `(x, y)`:
/// a top edge, `h - 2` rows of spaces between bars, and a bottom edge, each
/// after a cursor move to its row.
pub fn draw_box(x: u32, y: u32, w: u32, h: u32) -> (s: String)
    requires
        w >= 2,
        h >= 2,
        y + h - 1 <= u32::MAX,
    ensures
        s@ == box_text(x as nat, y as nat, w as nat, h as nat),
{
    let mut out: Vec<char> = Vec::new();
    push_move(&mut out, x, y);
    out.push('┌');
    push_repeat(&mut out, '─', w - 2);
    out.push('┐');
    let ghost top = out@;
    let mut i: u32 = 0;
    while i < h - 2
        invariant
            h >= 2,
            w >= 2,
            y + h - 1 <= u32::MAX,
            i <= h - 2,
            out@ == top + box_rows(x as nat, y as nat, w as nat, i as nat),
        decreases h - 2 - i,
    {
        push_move(&mut out, x, y + i + 1);
        out.push('│');
        push_repeat(&mut out, ' ', w - 2);
        out.push('│');
        proof {
            assert(out@ =~= top + box_rows(x as nat, y as nat, w as nat, (i + 1) as nat));
        }
        i += 1;
    }
    push_move(&mut out, x, y + (h - 1));
    out.push('└');
    push_repeat(&mut out, '─', w - 2);
    out.push('┘');
    proof {
        assert(out@ =~= box_text(x as nat, y as nat, w as nat, h as nat));
    }
    string_of(&out)
}

} // verus!
