//! The SYML grammar, stated over the characters of a text.
//!
//! Each rule takes the text and a position and says where a match ends and
//! what it yields, or that the rule does not match there. Alternatives are
//! tried in order and repetitions are greedy, so every rule has at most one
//! result at a position.
use vstd::prelude::*;
use crate::value::{Tree, first_wins};

verus! {

/// Whether the character has the Unicode property XID_Start.
pub uninterp spec fn xid_start(c: char) -> bool;

/// Whether the character has the Unicode property XID_Continue.
pub uninterp spec fn xid_continue(c: char) -> bool;

pub open spec fn is_ascii_char(c: char) -> bool {
    (c as u32) < 128
}

pub open spec fn is_ascii_letter(c: char) -> bool {
    ('a' <= c && c <= 'z') || ('A' <= c && c <= 'Z')
}

pub open spec fn is_digit(c: char) -> bool {
    '0' <= c && c <= '9'
}

pub open spec fn at(s: Seq<char>, p: int, c: char) -> bool {
    0 <= p < s.len() && s[p] == c
}

pub open spec fn opt_end(o: Option<int>, p: int) -> int {
    match o {
        Some(q) => q,
        None => p,
    }
}

pub open spec fn is_space(c: char) -> bool {
    c == ' ' || c == '\t'
}

/// The end of the run of spaces and tabs that starts at `p`.
pub open spec fn skip_ws(s: Seq<char>, p: int) -> int
    decreases s.len() - p,
{
    if 0 <= p < s.len() && is_space(s[p]) {
        skip_ws(s, p + 1)
    } else {
        p
    }
}

/// A line break: `\n` or `\r\n`.
pub open spec fn newline(s: Seq<char>, p: int) -> Option<int> {
    if at(s, p, '\n') {
        Some(p + 1)
    } else if at(s, p, '\r') && at(s, p + 1, '\n') {
        Some(p + 2)
    } else {
        None
    }
}

/// The end of a comment's text: the next line break or the end of the text.
pub open spec fn comment_text_end(s: Seq<char>, p: int) -> int
    decreases s.len() - p,
{
    if 0 <= p < s.len() && newline(s, p) is None {
        comment_text_end(s, p + 1)
    } else {
        p
    }
}

/// A comment: `;` and the rest of the line.
pub open spec fn comment(s: Seq<char>, p: int) -> Option<int> {
    if at(s, p, ';') {
        Some(comment_text_end(s, p + 1))
    } else {
        None
    }
}

/// A line that holds at most spaces and a comment, with its line break.
pub open spec fn blank_line(s: Seq<char>, p: int) -> Option<int> {
    let q = skip_ws(s, p);
    newline(s, opt_end(comment(s, q), q))
}

/// The end of the run of blank lines that starts at `p`.
pub open spec fn blank_lines_end(s: Seq<char>, p: int) -> int
    decreases s.len() - p,
{
    match blank_line(s, p) {
        Some(q) => if p < q <= s.len() {
            blank_lines_end(s, q)
        } else {
            p
        },
        None => p,
    }
}

/// A separator: one or more blank lines, or the end of the text.
pub open spec fn line_breaks(s: Seq<char>, p: int) -> Option<int> {
    match blank_line(s, p) {
        Some(q) => Some(blank_lines_end(s, q)),
        None => if p == s.len() {
            Some(p)
        } else {
            None
        },
    }
}

/// Exactly `n` spaces.
pub open spec fn indent(s: Seq<char>, p: int, n: nat) -> Option<int> {
    if 0 <= p && p + n <= s.len() && forall|i: int| p <= i < p + n ==> s[i] == ' ' {
        Some(p + n)
    } else {
        None
    }
}

/// The ASCII characters that may stand anywhere in a bare word.
pub open spec fn is_word_mark(c: char) -> bool {
    ||| c == '!' || c == '#' || c == '$' || c == '%' || c == '&' || c == '(' || c == ')'
    ||| c == '*' || c == '+' || c == '.' || c == '/' || c == '<' || c == '=' || c == '>'
    ||| c == '?' || c == '@' || c == '\\' || c == '^' || c == '_' || c == '`' || c == '|'
    ||| c == '~'
    ||| is_digit(c)
    ||| is_ascii_letter(c)
}

/// A character that may start a bare word, but for `-`.
pub open spec fn is_word_start(c: char) -> bool {
    is_word_mark(c) || (!is_ascii_char(c) && xid_start(c))
}

/// A character that may follow the first one of a bare word.
pub open spec fn is_word_char(c: char) -> bool {
    is_word_mark(c) || c == '-' || c == '\'' || (!is_ascii_char(c) && xid_continue(c))
}

/// The first character of a bare word: `-` only where no space follows it.
pub open spec fn word_start(s: Seq<char>, p: int) -> bool {
    0 <= p < s.len() && (is_word_start(s[p]) || (s[p] == '-' && !at(s, p + 1, ' ')))
}

pub open spec fn word_chars_end(s: Seq<char>, p: int) -> int
    decreases s.len() - p,
{
    if 0 <= p < s.len() && is_word_char(s[p]) {
        word_chars_end(s, p + 1)
    } else {
        p
    }
}

/// A bare word: where it ends.
pub open spec fn bare(s: Seq<char>, p: int) -> Option<int> {
    if word_start(s, p) {
        Some(word_chars_end(s, p + 1))
    } else {
        None
    }
}

pub open spec fn quoted_text_end(s: Seq<char>, p: int) -> int
    decreases s.len() - p,
{
    if 0 <= p < s.len() && s[p] != '\'' && newline(s, p) is None {
        quoted_text_end(s, p + 1)
    } else {
        p
    }
}

/// A single-quoted literal: everything up to the next `'`, on one line.
pub open spec fn single_quoted(s: Seq<char>, p: int) -> Option<(int, Seq<char>)> {
    if at(s, p, '\'') {
        let e = quoted_text_end(s, p + 1);
        if at(s, e, '\'') {
            Some((e + 1, s.subrange(p + 1, e)))
        } else {
            None
        }
    } else {
        None
    }
}

pub open spec fn is_hex(c: char) -> bool {
    is_digit(c) || ('a' <= c && c <= 'f') || ('A' <= c && c <= 'F')
}

pub open spec fn hex_value(c: char) -> nat {
    if is_digit(c) {
        (c as u32 - '0' as u32) as nat
    } else if 'a' <= c && c <= 'f' {
        (c as u32 - 'a' as u32 + 10) as nat
    } else {
        (c as u32 - 'A' as u32 + 10) as nat
    }
}

/// Whether the `n` characters from `p` are hex digits.
pub open spec fn hex_run(s: Seq<char>, p: int, n: nat) -> bool {
    0 <= p && p + n <= s.len() && forall|i: int| p <= i < p + n ==> is_hex(#[trigger] s[i])
}

/// The number that the `n` hex digits from `p` spell.
pub open spec fn hex_number(s: Seq<char>, p: int, n: nat) -> nat
    decreases n,
{
    if n == 0 {
        0
    } else {
        hex_number(s, p, (n - 1) as nat) * 16 + hex_value(s[p + n - 1])
    }
}

/// How many hex digits follow from `p`, counting at most `max`.
pub open spec fn hex_count(s: Seq<char>, p: int, max: nat) -> nat
    decreases max,
{
    if max > 0 && 0 <= p < s.len() && is_hex(s[p]) {
        1 + hex_count(s, p + 1, (max - 1) as nat)
    } else {
        0
    }
}

/// Whether a number is the code of a character: at most 0x10FFFF, and not
/// a surrogate.
pub open spec fn is_char_code(n: nat) -> bool {
    n <= 0x10FFFF && !(0xD800 <= n <= 0xDFFF)
}

pub open spec fn code_char(e: int, n: nat) -> Option<(int, char)> {
    if is_char_code(n) {
        Some((e, n as char))
    } else {
        None
    }
}

/// An escape sequence: the character it stands for and where it ends.
pub open spec fn escape(s: Seq<char>, p: int) -> Option<(int, char)> {
    if !at(s, p, '\\') || p + 1 >= s.len() {
        None
    } else {
        let c = s[p + 1];
        let q = p + 2;
        if c == '\\' || c == '\'' || c == '"' || c == ' ' || c == '\t' {
            Some((q, c))
        } else if c == 'n' {
            Some((q, '\n'))
        } else if c == 'r' {
            Some((q, '\r'))
        } else if c == 't' {
            Some((q, '\t'))
        } else if c == 'x' {
            if hex_run(s, q, 2) {
                Some((q + 2, hex_number(s, q, 2) as char))
            } else {
                None
            }
        } else if c == 'u' {
            if hex_run(s, q, 4) {
                code_char(q + 4, hex_number(s, q, 4))
            } else {
                let k = hex_count(s, q + 1, 8);
                if at(s, q, '{') && k >= 1 && at(s, q + 1 + k, '}') {
                    code_char(q + 2 + k, hex_number(s, q + 1, k))
                } else {
                    None
                }
            }
        } else if c == 'U' {
            if hex_run(s, q, 8) {
                code_char(q + 8, hex_number(s, q, 8))
            } else {
                None
            }
        } else {
            None
        }
    }
}

/// A line continuation inside a double-quoted string: a backslash, an
/// optional comment, a line break and the spaces after it.
pub open spec fn continuation(s: Seq<char>, p: int) -> Option<int> {
    if at(s, p, '\\') {
        let q = opt_end(comment(s, p + 1), p + 1);
        match newline(s, q) {
            Some(r) => Some(skip_ws(s, r)),
            None => None,
        }
    } else {
        None
    }
}

/// One character of a double-quoted string's body, written as an escape or
/// as itself, with a continuation after it if one follows.
pub open spec fn string_piece(s: Seq<char>, p: int) -> Option<(int, char)> {
    match escape(s, p) {
        Some((q, c)) => Some((opt_end(continuation(s, q), q), c)),
        None => if 0 <= p < s.len() && newline(s, p) is None && s[p] != '\\' && s[p] != '"' {
            Some((opt_end(continuation(s, p + 1), p + 1), s[p]))
        } else {
            None
        },
    }
}

/// The body of a double-quoted string: where it ends and what it spells.
pub open spec fn string_pieces(s: Seq<char>, p: int) -> (int, Seq<char>)
    decreases s.len() - p,
{
    match string_piece(s, p) {
        Some((q, c)) => if p < q <= s.len() {
            let (e, cs) = string_pieces(s, q);
            (e, seq![c] + cs)
        } else {
            (p, Seq::empty())
        },
        None => (p, Seq::empty()),
    }
}

/// A double-quoted string with escapes and line continuations.
pub open spec fn double_quoted(s: Seq<char>, p: int) -> Option<(int, Seq<char>)> {
    if at(s, p, '"') {
        let q = opt_end(continuation(s, p + 1), p + 1);
        let (e, cs) = string_pieces(s, q);
        if at(s, e, '"') {
            Some((e + 1, cs))
        } else {
            None
        }
    } else {
        None
    }
}

/// A scalar literal: a bare word, a single-quoted or a double-quoted one,
/// tried in that order.
pub open spec fn scalar(s: Seq<char>, p: int) -> Option<(int, Seq<char>)> {
    match bare(s, p) {
        Some(e) => Some((e, s.subrange(p, e))),
        None => match single_quoted(s, p) {
            Some(r) => Some(r),
            None => double_quoted(s, p),
        },
    }
}

/// A value under a chain of keys: `{k1: {k2: ... v}}`, the keys outermost
/// first.
pub open spec fn nest(ks: Seq<Seq<char>>, v: Tree) -> Tree
    decreases ks.len(),
{
    if ks.len() == 0 {
        v
    } else {
        nest(ks.drop_last(), Tree::Mapping(seq![(ks.last(), v)]))
    }
}

/// The separator of inline items: a comma with spaces around it.
pub open spec fn comma(s: Seq<char>, p: int) -> Option<int> {
    let q = skip_ws(s, p);
    if at(s, q, ',') {
        Some(skip_ws(s, q + 1))
    } else {
        None
    }
}

/// An inline value: a bracketed list, a braced table or a scalar.
pub open spec fn inline_form(s: Seq<char>, p: int) -> Option<(int, Tree)>
    decreases s.len() - p, 2int,
{
    if !(0 <= p <= s.len()) {
        None
    } else {
        match inline_list(s, p) {
            Some(r) => Some(r),
            None => match inline_table(s, p) {
                Some(r) => Some(r),
                None => match scalar(s, p) {
                    Some((e, t)) => Some((e, Tree::Scalar(t))),
                    None => None,
                },
            },
        }
    }
}

/// `[a, b, ...]`, with an optional comma after the last item.
pub open spec fn inline_list(s: Seq<char>, p: int) -> Option<(int, Tree)>
    decreases s.len() - p, 1int,
{
    if at(s, p, '[') {
        let q = skip_ws(s, p + 1);
        let (e, items) = if p < q <= s.len() {
            match inline_form(s, q) {
                Some((e1, v)) => if q < e1 <= s.len() {
                    let (e2, rest) = inline_items(s, e1);
                    (opt_end(comma(s, e2), e2), seq![v] + rest)
                } else {
                    (q, Seq::empty())
                },
                None => (q, Seq::empty()),
            }
        } else {
            (q, Seq::empty())
        };
        let f = skip_ws(s, e);
        if at(s, f, ']') {
            Some((f + 1, Tree::Sequence(items)))
        } else {
            None
        }
    } else {
        None
    }
}

/// The items of an inline list after the first: each behind a comma.
pub open spec fn inline_items(s: Seq<char>, p: int) -> (int, Seq<Tree>)
    decreases s.len() - p, 0int,
{
    match comma(s, p) {
        Some(q) => if p < q <= s.len() {
            match inline_form(s, q) {
                Some((e, v)) => if q < e <= s.len() {
                    let (f, rest) = inline_items(s, e);
                    (f, seq![v] + rest)
                } else {
                    (p, Seq::empty())
                },
                None => (p, Seq::empty()),
            }
        } else {
            (p, Seq::empty())
        },
        None => (p, Seq::empty()),
    }
}

/// An entry of an inline table: `key: value`.
pub open spec fn inline_entry(s: Seq<char>, p: int) -> Option<(int, (Seq<char>, Tree))>
    decreases s.len() - p, 1int,
{
    match scalar(s, p) {
        Some((q, k)) => {
            let r = skip_ws(s, q);
            let t = skip_ws(s, r + 1);
            if at(s, r, ':') && p < t <= s.len() {
                match inline_form(s, t) {
                    Some((e, v)) => Some((e, (k, v))),
                    None => None,
                }
            } else {
                None
            }
        },
        None => None,
    }
}

/// `{k: v, ...}`, with an optional comma after the last entry.
pub open spec fn inline_table(s: Seq<char>, p: int) -> Option<(int, Tree)>
    decreases s.len() - p, 1int,
{
    if at(s, p, '{') {
        let q = skip_ws(s, p + 1);
        let (e, es) = if p < q <= s.len() {
            match inline_entry(s, q) {
                Some((e1, kv)) => if q < e1 <= s.len() {
                    let (e2, rest) = inline_entries(s, e1);
                    (opt_end(comma(s, e2), e2), seq![kv] + rest)
                } else {
                    (q, Seq::empty())
                },
                None => (q, Seq::empty()),
            }
        } else {
            (q, Seq::empty())
        };
        let f = skip_ws(s, e);
        if at(s, f, '}') {
            Some((f + 1, Tree::Mapping(first_wins(es))))
        } else {
            None
        }
    } else {
        None
    }
}

/// The entries of an inline table after the first: each behind a comma.
pub open spec fn inline_entries(s: Seq<char>, p: int) -> (int, Seq<(Seq<char>, Tree)>)
    decreases s.len() - p, 0int,
{
    match comma(s, p) {
        Some(q) => if p < q <= s.len() {
            match inline_entry(s, q) {
                Some((e, kv)) => if q < e <= s.len() {
                    let (f, rest) = inline_entries(s, e);
                    (f, seq![kv] + rest)
                } else {
                    (p, Seq::empty())
                },
                None => (p, Seq::empty()),
            }
        } else {
            (p, Seq::empty())
        },
        None => (p, Seq::empty()),
    }
}

/// A value at indentation `n`: a block list, a block table or an inline
/// value, tried in that order.
pub open spec fn block_value(s: Seq<char>, p: int, n: nat) -> Option<(int, Tree)>
    decreases s.len() - p, 6int,
{
    match block_only(s, p, n) {
        Some(r) => Some(r),
        None => inline_form(s, p),
    }
}

/// A block list or a block table at indentation `n`.
pub open spec fn block_only(s: Seq<char>, p: int, n: nat) -> Option<(int, Tree)>
    decreases s.len() - p, 5int,
{
    match block_list(s, p, n) {
        Some(r) => Some(r),
        None => block_table(s, p, n),
    }
}

/// One item of a block list: `- ` and a value at indentation `n + 2`.
pub open spec fn list_item(s: Seq<char>, p: int, n: nat) -> Option<(int, Tree)>
    decreases s.len() - p, 3int,
{
    if at(s, p, '-') && at(s, p + 1, ' ') {
        block_value(s, p + 2, n + 2)
    } else {
        None
    }
}

/// Where the next item or entry at indentation `n` starts: after line
/// breaks and exactly `n` spaces.
pub open spec fn next_line(s: Seq<char>, p: int, n: nat) -> Option<int> {
    match line_breaks(s, p) {
        Some(q) => indent(s, q, n),
        None => None,
    }
}

/// A block list: items at indentation `n`, one per line.
pub open spec fn block_list(s: Seq<char>, p: int, n: nat) -> Option<(int, Tree)>
    decreases s.len() - p, 4int,
{
    match list_item(s, p, n) {
        Some((e, v)) => if p < e <= s.len() {
            let (f, rest) = more_items(s, e, n);
            Some((f, Tree::Sequence(seq![v] + rest)))
        } else {
            None
        },
        None => None,
    }
}

/// The items of a block list after the first.
pub open spec fn more_items(s: Seq<char>, p: int, n: nat) -> (int, Seq<Tree>)
    decreases s.len() - p, 3int,
{
    match next_line(s, p, n) {
        Some(q) => if p < q <= s.len() {
            match list_item(s, q, n) {
                Some((e, v)) => if q < e <= s.len() {
                    let (f, rest) = more_items(s, e, n);
                    (f, seq![v] + rest)
                } else {
                    (p, Seq::empty())
                },
                None => (p, Seq::empty()),
            }
        } else {
            (p, Seq::empty())
        },
        None => (p, Seq::empty()),
    }
}

/// A key of a block table with its colon: the key's text and where the
/// colon ends.
pub open spec fn key_colon(s: Seq<char>, p: int) -> Option<(int, Seq<char>)> {
    match scalar(s, p) {
        Some((q, k)) => {
            let r = skip_ws(s, q);
            if at(s, r, ':') {
                Some((r + 1, k))
            } else {
                None
            }
        },
        None => None,
    }
}

/// Further keys on the same line, each after spaces.
pub open spec fn more_keys(s: Seq<char>, p: int) -> (int, Seq<Seq<char>>)
    decreases s.len() - p,
{
    match key_colon(s, skip_ws(s, p)) {
        Some((q, k)) => if p < q <= s.len() {
            let (e, ks) = more_keys(s, q);
            (e, seq![k] + ks)
        } else {
            (p, Seq::empty())
        },
        None => (p, Seq::empty()),
    }
}

/// The value of a block table's entry: on the following lines a block list
/// at the key's indentation `n` or another block value at `n + 2`; else an
/// inline value on the same line.
pub open spec fn entry_value(s: Seq<char>, p: int, n: nat) -> Option<(int, Tree)>
    decreases s.len() - p, 3int,
{
    let below = match line_breaks(s, p) {
        Some(q) => match indent(s, q, n) {
            Some(r) if p < r <= s.len() && block_list(s, r, n) is Some => block_list(s, r, n),
            _ => match indent(s, q, n + 2) {
                Some(r) => if p < r <= s.len() {
                    block_only(s, r, n + 2)
                } else {
                    None
                },
                None => None,
            },
        },
        None => None,
    };
    match below {
        Some(r) => Some(r),
        None => {
            let q = skip_ws(s, p);
            if p <= q <= s.len() {
                inline_form(s, q)
            } else {
                None
            }
        },
    }
}

/// An entry of a block table: one or more `key:` on one line and a value;
/// `a: b: v` stands for `a: {b: v}`.
pub open spec fn table_entry(s: Seq<char>, p: int, n: nat) -> Option<(int, (Seq<char>, Tree))>
    decreases s.len() - p, 3int,
{
    match key_colon(s, p) {
        Some((q, k)) => {
            let (e, ks) = more_keys(s, q);
            if p < e <= s.len() {
                match entry_value(s, e, n) {
                    Some((f, v)) => Some((f, (k, nest(ks, v)))),
                    None => None,
                }
            } else {
                None
            }
        },
        None => None,
    }
}

/// A block table: entries at indentation `n`, one per line.
pub open spec fn block_table(s: Seq<char>, p: int, n: nat) -> Option<(int, Tree)>
    decreases s.len() - p, 4int,
{
    match table_entry(s, p, n) {
        Some((e, kv)) => if p < e <= s.len() {
            let (f, rest) = more_entries(s, e, n);
            Some((f, Tree::Mapping(first_wins(seq![kv] + rest))))
        } else {
            None
        },
        None => None,
    }
}

/// The entries of a block table after the first.
pub open spec fn more_entries(s: Seq<char>, p: int, n: nat) -> (int, Seq<(Seq<char>, Tree)>)
    decreases s.len() - p, 3int,
{
    match next_line(s, p, n) {
        Some(q) => if p < q <= s.len() {
            match table_entry(s, q, n) {
                Some((e, kv)) => if q < e <= s.len() {
                    let (f, rest) = more_entries(s, e, n);
                    (f, seq![kv] + rest)
                } else {
                    (p, Seq::empty())
                },
                None => (p, Seq::empty()),
            }
        } else {
            (p, Seq::empty())
        },
        None => (p, Seq::empty()),
    }
}

/// A whole document: optional blank lines, a value at indentation 0, and
/// line breaks up to the end of the text.
pub open spec fn document(s: Seq<char>) -> Option<Tree> {
    let p = opt_end(line_breaks(s, 0), 0);
    match block_value(s, p, 0) {
        Some((q, v)) => match line_breaks(s, q) {
            Some(r) => if r == s.len() {
                Some(v)
            } else {
                None
            },
            None => None,
        },
        None => None,
    }
}

} // verus!

verus! {

/// The line of a position: one more than the line breaks before it.
pub open spec fn line_of(s: Seq<char>, p: int) -> nat
    decreases p,
{
    if p <= 0 {
        1
    } else {
        line_of(s, p - 1) + if s[p - 1] == '\n' {
            1nat
        } else {
            0nat
        }
    }
}

/// The column of a position: one more than the characters after the last
/// line break before it.
pub open spec fn column_of(s: Seq<char>, p: int) -> nat
    decreases p,
{
    if p <= 0 {
        1
    } else if s[p - 1] == '\n' {
        1
    } else {
        column_of(s, p - 1) + 1
    }
}

/// A text that is one scalar literal and nothing else.
pub open spec fn whole_scalar(s: Seq<char>) -> Option<Seq<char>> {
    match scalar(s, 0) {
        Some((e, t)) => if e == s.len() {
            Some(t)
        } else {
            None
        },
        None => None,
    }
}

/// A text that is one inline value and nothing else.
pub open spec fn whole_inline(s: Seq<char>) -> Option<Tree> {
    match inline_form(s, 0) {
        Some((e, t)) => if e == s.len() {
            Some(t)
        } else {
            None
        },
        None => None,
    }
}

/// Whether a whole text is one bare word.
pub open spec fn is_bare(t: Seq<char>) -> bool {
    bare(t, 0) == Some(t.len() as int)
}

} // verus!
