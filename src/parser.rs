//! The parser: each function matches one rule of the grammar in
//! `crate::grammar` at a position and returns exactly what the rule gives.
use vstd::prelude::*;
use crate::grammar::{
    xid_start, xid_continue, is_ascii_char, is_ascii_letter, is_digit, at, skip_ws, newline,
    comment_text_end, comment, blank_line, blank_lines_end, line_breaks, is_word_mark,
    is_word_start, is_word_char, word_chars_end, bare, quoted_text_end, single_quoted, is_hex,
    hex_value, hex_run, hex_number, hex_count, is_char_code, code_char, escape, continuation,
    string_piece, string_pieces, double_quoted, scalar, nest, comma, inline_form, inline_list,
    inline_items, inline_entry, inline_table, inline_entries, block_value, block_only, list_item,
    next_line, block_list, more_items, key_colon, more_keys, entry_value, table_entry, block_table,
    more_entries, document, line_of, column_of, whole_scalar, whole_inline, is_bare,
};
use crate::grammar::indent as indent_rule;
use crate::value::{
    Tree, Value, Table, tree_of, trees_of, entries_of, first_wins, lemma_trees_of_push,
    lemma_first_wins_push,
};

verus! {

/// What the parser looked for at the furthest position that it reached.
#[derive(Debug, Clone, Copy, PartialEq, Eq, Structural)]
pub enum Expected {
    /// This very character.
    Char(char),
    /// The first character of a bare word.
    WordStart,
    /// A hex digit.
    HexDigit,
    /// Hex digits that spell the code of a character.
    CharCode,
    /// A line break.
    LineBreak,
    /// The end of the text.
    End,
}

/// Why a text could not be parsed: the furthest position that the parser
/// reached, and what it looked for there.
#[derive(Debug, PartialEq, Eq)]
pub struct ParseError {
    /// The line of the position, counted from 1.
    pub line: usize,
    /// The column of the position in characters, counted from 1.
    pub column: usize,
    /// The position, in characters from the start of the text.
    pub offset: usize,
    /// What the parser looked for there.
    pub expected: Vec<Expected>,
}

/// Whether an error's line and column are those of its position in `s`.
pub open spec fn located(s: Seq<char>, e: ParseError) -> bool {
    &&& e.offset <= s.len()
    &&& e.line == line_of(s, e.offset as int)
    &&& e.column == column_of(s, e.offset as int)
}

/// The furthest position at which a rule failed, and what was looked for
/// there.
struct Furthest {
    pos: usize,
    expected: Vec<Expected>,
}

impl Furthest {
    fn new() -> (r: Furthest)
        ensures
            r.pos == 0,
            r.expected@.len() == 0,
    {
        Furthest { pos: 0, expected: Vec::new() }
    }

    /// Records that `e` was looked for at `pos`.
    fn note(&mut self, pos: usize, e: Expected)
        ensures
            final(self).pos == if pos > old(self).pos { pos } else { old(self).pos },
    {
        if pos > self.pos {
            self.pos = pos;
            self.expected = Vec::new();
            self.expected.push(e);
        } else if pos == self.pos {
            let mut i: usize = 0;
            let mut seen = false;
            while i < self.expected.len()
                invariant
                    i <= self.expected.len(),
                decreases self.expected.len() - i,
            {
                if self.expected[i] == e {
                    seen = true;
                }
                i += 1;
            }
            if !seen {
                self.expected.push(e);
            }
        }
    }
}

/// Relies on unicode_ident::is_xid_start, which answers from a table of
/// ASCII letters below 128.
#[verifier::external_body]
fn is_xid_start(c: char) -> (r: bool)
    ensures
        !is_ascii_char(c) ==> r == xid_start(c),
        is_ascii_char(c) ==> r == is_ascii_letter(c),
{
    unicode_ident::is_xid_start(c)
}

/// Relies on unicode_ident::is_xid_continue, which answers from a table of
/// ASCII letters, digits and `_` below 128.
#[verifier::external_body]
fn is_xid_continue(c: char) -> (r: bool)
    ensures
        !is_ascii_char(c) ==> r == xid_continue(c),
        is_ascii_char(c) ==> r == (is_ascii_letter(c) || is_digit(c) || c == '_'),
{
    unicode_ident::is_xid_continue(c)
}

/// Relies on char::from_u32: the character with this code, if there is one.
#[verifier::external_body]
fn char_from_code(n: u32) -> (r: Option<char>)
    ensures
        r == (if is_char_code(n as nat) {
            Some((n as nat) as char)
        } else {
            None
        }),
{
    char::from_u32(n)
}

/// Relies on String::push: the character goes at the end.
#[verifier::external_body]
pub(crate) fn push_char(s: &mut String, c: char)
    ensures
        final(s)@ == old(s)@.push(c),
{
    s.push(c);
}

/// The characters of a text, in order.
pub fn chars_of(s: &str) -> (r: Vec<char>)
    ensures
        r@ == s@,
{
    let mut out: Vec<char> = Vec::new();
    for c in it: s.chars()
        invariant
            out@ == it.seq().take(it.index() as int),
            it.seq() == s@,
    {
        out.push(c);
    }
    out
}

/// A text made of the given characters.
pub fn string_of(cs: &Vec<char>) -> (r: String)
    ensures
        r@ == cs@,
{
    let mut out = String::new();
    let mut i: usize = 0;
    while i < cs.len()
        invariant
            i <= cs.len(),
            out@ == cs@.take(i as int),
        decreases cs.len() - i,
    {
        push_char(&mut out, cs[i]);
        i += 1;
        assert(out@ =~= cs@.take(i as int));
    }
    assert(cs@.take(i as int) =~= cs@);
    out
}

fn char_at(s: &Vec<char>, p: usize, c: char, fl: &mut Furthest) -> (r: bool)
    ensures
        r == at(s@, p as int, c),
{
    if p < s.len() && s[p] == c {
        true
    } else {
        fl.note(p, Expected::Char(c));
        false
    }
}

fn skip_ws_at(s: &Vec<char>, p: usize) -> (r: usize)
    requires
        p <= s.len(),
    ensures
        r as int == skip_ws(s@, p as int),
        p <= r <= s.len(),
{
    let mut q = p;
    while q < s.len() && (s[q] == ' ' || s[q] == '\t')
        invariant
            p <= q <= s.len(),
            skip_ws(s@, q as int) == skip_ws(s@, p as int),
        decreases s.len() - q,
    {
        q += 1;
    }
    q
}

fn newline_at(s: &Vec<char>, p: usize) -> (r: Option<usize>)
    requires
        p <= s.len(),
    ensures
        r matches Some(q) ==> newline(s@, p as int) == Some(q as int) && p < q <= s.len(),
        r is None ==> newline(s@, p as int) is None,
{
    if p < s.len() && s[p] == '\n' {
        Some(p + 1)
    } else if s.len() - p >= 2 && s[p] == '\r' && s[p + 1] == '\n' {
        Some(p + 2)
    } else {
        None
    }
}

fn comment_at(s: &Vec<char>, p: usize) -> (r: Option<usize>)
    requires
        p <= s.len(),
    ensures
        r matches Some(q) ==> comment(s@, p as int) == Some(q as int) && p < q <= s.len(),
        r is None ==> comment(s@, p as int) is None,
{
    if p < s.len() && s[p] == ';' {
        let mut q = p + 1;
        while q < s.len() && newline_at(s, q).is_none()
            invariant
                p < q <= s.len(),
                comment_text_end(s@, q as int) == comment_text_end(s@, p + 1),
            decreases s.len() - q,
        {
            q += 1;
        }
        Some(q)
    } else {
        None
    }
}

fn blank_line_at(s: &Vec<char>, p: usize) -> (r: Option<usize>)
    requires
        p <= s.len(),
    ensures
        r matches Some(q) ==> blank_line(s@, p as int) == Some(q as int) && p < q <= s.len(),
        r is None ==> blank_line(s@, p as int) is None,
{
    let q = skip_ws_at(s, p);
    let c = match comment_at(s, q) {
        Some(e) => e,
        None => q,
    };
    newline_at(s, c)
}

fn line_breaks_at(s: &Vec<char>, p: usize, fl: &mut Furthest) -> (r: Option<usize>)
    requires
        p <= s.len(),
    ensures
        r matches Some(q) ==> line_breaks(s@, p as int) == Some(q as int) && p <= q <= s.len(),
        r is None ==> line_breaks(s@, p as int) is None,
{
    match blank_line_at(s, p) {
        Some(q0) => {
            let mut q = q0;
            let mut next = blank_line_at(s, q);
            while next.is_some()
                invariant
                    p < q <= s.len(),
                    blank_lines_end(s@, q as int) == blank_lines_end(s@, q0 as int),
                    next matches Some(e) ==> blank_line(s@, q as int) == Some(e as int) && q < e
                        <= s.len(),
                    next is None ==> blank_line(s@, q as int) is None,
                decreases s.len() - q,
            {
                q = next.unwrap();
                next = blank_line_at(s, q);
            }
            Some(q)
        },
        None => {
            if p == s.len() {
                Some(p)
            } else {
                fl.note(skip_ws_at(s, p), Expected::LineBreak);
                None
            }
        },
    }
}

fn indent_at(s: &Vec<char>, p: usize, n: usize, fl: &mut Furthest) -> (r: Option<usize>)
    requires
        p <= s.len(),
    ensures
        r matches Some(q) ==> indent_rule(s@, p as int, n as nat) == Some(q as int) && q == p + n
            && q <= s.len(),
        r is None ==> indent_rule(s@, p as int, n as nat) is None,
{
    if n > s.len() - p {
        return None;
    }
    let mut i: usize = 0;
    while i < n
        invariant
            i <= n,
            p + n <= s.len(),
            forall|j: int| p <= j < p + i ==> s@[j] == ' ',
        decreases n - i,
    {
        if s[p + i] != ' ' {
            fl.note(p + i, Expected::Char(' '));
            return None;
        }
        i += 1;
    }
    Some(p + n)
}

fn is_word_mark_char(c: char) -> (r: bool)
    ensures
        r == is_word_mark(c),
{
    c == '!' || c == '#' || c == '$' || c == '%' || c == '&' || c == '(' || c == ')' || c == '*'
        || c == '+' || c == '.' || c == '/' || c == '<' || c == '=' || c == '>' || c == '?' || c
        == '@' || c == '\\' || c == '^' || c == '_' || c == '`' || c == '|' || c == '~' || ('0'
        <= c && c <= '9') || ('a' <= c && c <= 'z') || ('A' <= c && c <= 'Z')
}

fn is_word_start_char(c: char) -> (r: bool)
    ensures
        r == is_word_start(c),
{
    if is_word_mark_char(c) {
        true
    } else if (c as u32) < 128 {
        false
    } else {
        is_xid_start(c)
    }
}

fn is_word_char_at(c: char) -> (r: bool)
    ensures
        r == is_word_char(c),
{
    if is_word_mark_char(c) || c == '-' || c == '\'' {
        true
    } else if (c as u32) < 128 {
        false
    } else {
        is_xid_continue(c)
    }
}

fn bare_at(s: &Vec<char>, p: usize, fl: &mut Furthest) -> (r: Option<usize>)
    requires
        p <= s.len(),
    ensures
        r matches Some(q) ==> bare(s@, p as int) == Some(q as int) && p < q <= s.len(),
        r is None ==> bare(s@, p as int) is None,
{
    if p < s.len() && (is_word_start_char(s[p]) || (s[p] == '-' && !(p + 1 < s.len() && s[p + 1]
        == ' '))) {
        let mut q = p + 1;
        while q < s.len() && is_word_char_at(s[q])
            invariant
                p < q <= s.len(),
                word_chars_end(s@, q as int) == word_chars_end(s@, p + 1),
            decreases s.len() - q,
        {
            q += 1;
        }
        Some(q)
    } else {
        fl.note(p, Expected::WordStart);
        None
    }
}

fn copy_range(s: &Vec<char>, from: usize, to: usize) -> (r: Vec<char>)
    requires
        from <= to <= s.len(),
    ensures
        r@ == s@.subrange(from as int, to as int),
{
    let mut out: Vec<char> = Vec::new();
    let mut i = from;
    while i < to
        invariant
            from <= i <= to <= s.len(),
            out@ == s@.subrange(from as int, i as int),
        decreases to - i,
    {
        out.push(s[i]);
        i += 1;
        assert(out@ =~= s@.subrange(from as int, i as int));
    }
    out
}

fn single_quoted_at(s: &Vec<char>, p: usize, fl: &mut Furthest) -> (r: Option<(usize, Vec<char>)>)
    requires
        p <= s.len(),
    ensures
        r matches Some((q, t)) ==> single_quoted(s@, p as int) == Some((q as int, t@)) && p < q
            <= s.len(),
        r is None ==> single_quoted(s@, p as int) is None,
{
    if !char_at(s, p, '\'', fl) {
        return None;
    }
    let mut e = p + 1;
    while e < s.len() && s[e] != '\'' && newline_at(s, e).is_none()
        invariant
            p < e <= s.len(),
            quoted_text_end(s@, e as int) == quoted_text_end(s@, p + 1),
        decreases s.len() - e,
    {
        e += 1;
    }
    if char_at(s, e, '\'', fl) {
        Some((e + 1, copy_range(s, p + 1, e)))
    } else {
        None
    }
}

/// Sixteen to the power `n`.
pub open spec fn pow16(n: nat) -> nat
    decreases n,
{
    if n == 0 {
        1
    } else {
        16 * pow16((n - 1) as nat)
    }
}

proof fn lemma_pow16_mono(i: nat, j: nat)
    requires
        i <= j,
    ensures
        pow16(i) <= pow16(j),
    decreases j,
{
    if i < j {
        lemma_pow16_mono(i, (j - 1) as nat);
    }
}

fn hex_digit(c: char) -> (r: u32)
    requires
        is_hex(c),
    ensures
        r as nat == hex_value(c),
        r < 16,
{
    if '0' <= c && c <= '9' {
        (c as u32) - ('0' as u32)
    } else if 'a' <= c && c <= 'f' {
        (c as u32) - ('a' as u32) + 10
    } else {
        (c as u32) - ('A' as u32) + 10
    }
}

fn is_hex_char(c: char) -> (r: bool)
    ensures
        r == is_hex(c),
{
    ('0' <= c && c <= '9') || ('a' <= c && c <= 'f') || ('A' <= c && c <= 'F')
}

fn hex_run_at(s: &Vec<char>, p: usize, n: usize, fl: &mut Furthest) -> (r: bool)
    requires
        p <= s.len(),
    ensures
        r == hex_run(s@, p as int, n as nat),
{
    if n > s.len() - p {
        fl.note(s.len(), Expected::HexDigit);
        return false;
    }
    let mut i: usize = 0;
    while i < n
        invariant
            i <= n,
            p + n <= s.len(),
            forall|j: int| p <= j < p + i ==> is_hex(#[trigger] s@[j]),
        decreases n - i,
    {
        if !is_hex_char(s[p + i]) {
            fl.note(p + i, Expected::HexDigit);
            return false;
        }
        i += 1;
    }
    true
}

fn hex_count_at(s: &Vec<char>, p: usize, max: usize) -> (r: usize)
    requires
        p <= s.len(),
    ensures
        r as nat == hex_count(s@, p as int, max as nat),
        r <= max,
        p + r <= s.len(),
        forall|j: int| p <= j < p + r ==> is_hex(#[trigger] s@[j]),
{
    let mut i: usize = 0;
    while i < max && p + i < s.len() && is_hex_char(s[p + i])
        invariant
            i <= max,
            p + i <= s.len(),
            forall|j: int| p <= j < p + i ==> is_hex(#[trigger] s@[j]),
            i + hex_count(s@, p + i, (max - i) as nat) == hex_count(s@, p as int, max as nat),
        decreases max - i,
    {
        i += 1;
    }
    i
}

fn hex_number_at(s: &Vec<char>, p: usize, n: usize) -> (r: u32)
    requires
        n <= 8,
        p + n <= s.len(),
        forall|j: int| p <= j < p + n ==> is_hex(#[trigger] s@[j]),
    ensures
        r as nat == hex_number(s@, p as int, n as nat),
        r < pow16(n as nat),
{
    proof {
        lemma_pow16_mono(n as nat, 8);
        assert(pow16(8) == 4294967296) by {
            reveal_with_fuel(pow16, 9);
        }
    }
    let mut acc: u32 = 0;
    let mut i: usize = 0;
    while i < n
        invariant
            i <= n <= 8,
            p + n <= s.len(),
            forall|j: int| p <= j < p + n ==> is_hex(#[trigger] s@[j]),
            acc as nat == hex_number(s@, p as int, i as nat),
            acc < pow16(i as nat),
            pow16(n as nat) <= 4294967296,
        decreases n - i,
    {
        let d = hex_digit(s[p + i]);
        proof {
            lemma_pow16_mono((i + 1) as nat, n as nat);
            assert(acc * 16 + d < pow16((i + 1) as nat)) by (nonlinear_arith)
                requires
                    acc < pow16(i as nat),
                    d < 16,
                    pow16((i + 1) as nat) == 16 * pow16(i as nat),
            ;
        }
        acc = acc * 16 + d;
        i += 1;
    }
    acc
}

/// The character with code `n`, where one has it.
fn code_char_at(e: usize, n: u32, fl: &mut Furthest) -> (r: Option<(usize, char)>)
    ensures
        r matches Some((q, c)) ==> code_char(e as int, n as nat) == Some((q as int, c)) && q == e,
        r is None ==> code_char(e as int, n as nat) is None,
{
    match char_from_code(n) {
        Some(c) => Some((e, c)),
        None => {
            fl.note(e, Expected::CharCode);
            None
        },
    }
}

fn escape_at(s: &Vec<char>, p: usize, fl: &mut Furthest) -> (r: Option<(usize, char)>)
    requires
        p <= s.len(),
    ensures
        r matches Some((q, c)) ==> escape(s@, p as int) == Some((q as int, c)) && p < q <= s.len(),
        r is None ==> escape(s@, p as int) is None,
{
    if !char_at(s, p, '\\', fl) || s.len() - p < 2 {
        return None;
    }
    let c = s[p + 1];
    let q = p + 2;
    if c == '\\' || c == '\'' || c == '"' || c == ' ' || c == '\t' {
        Some((q, c))
    } else if c == 'n' {
        Some((q, '\n'))
    } else if c == 'r' {
        Some((q, '\r'))
    } else if c == 't' {
        Some((q, '\t'))
    } else if c == 'x' {
        if hex_run_at(s, q, 2, fl) {
            let n = hex_number_at(s, q, 2);
            proof {
                reveal_with_fuel(pow16, 3);
            }
            code_char_at(q + 2, n, fl)
        } else {
            None
        }
    } else if c == 'u' {
        if hex_run_at(s, q, 4, fl) {
            let n = hex_number_at(s, q, 4);
            code_char_at(q + 4, n, fl)
        } else if char_at(s, q, '{', fl) {
            let k = hex_count_at(s, q + 1, 8);
            if k >= 1 && char_at(s, q + 1 + k, '}', fl) {
                let n = hex_number_at(s, q + 1, k);
                code_char_at(q + 2 + k, n, fl)
            } else {
                if k == 0 {
                    fl.note(q + 1, Expected::HexDigit);
                }
                None
            }
        } else {
            None
        }
    } else if c == 'U' {
        if hex_run_at(s, q, 8, fl) {
            let n = hex_number_at(s, q, 8);
            code_char_at(q + 8, n, fl)
        } else {
            None
        }
    } else {
        None
    }
}

fn continuation_at(s: &Vec<char>, p: usize) -> (r: Option<usize>)
    requires
        p <= s.len(),
    ensures
        r matches Some(q) ==> continuation(s@, p as int) == Some(q as int) && p < q <= s.len(),
        r is None ==> continuation(s@, p as int) is None,
{
    if p < s.len() && s[p] == '\\' {
        let q = match comment_at(s, p + 1) {
            Some(e) => e,
            None => p + 1,
        };
        match newline_at(s, q) {
            Some(r) => Some(skip_ws_at(s, r)),
            None => None,
        }
    } else {
        None
    }
}

fn string_piece_at(s: &Vec<char>, p: usize, fl: &mut Furthest) -> (r: Option<(usize, char)>)
    requires
        p <= s.len(),
    ensures
        r matches Some((q, c)) ==> string_piece(s@, p as int) == Some((q as int, c)) && p < q
            <= s.len(),
        r is None ==> string_piece(s@, p as int) is None,
{
    match escape_at(s, p, fl) {
        Some((q, c)) => {
            let e = match continuation_at(s, q) {
                Some(e) => e,
                None => q,
            };
            Some((e, c))
        },
        None => {
            if p < s.len() && newline_at(s, p).is_none() && s[p] != '\\' && s[p] != '"' {
                let e = match continuation_at(s, p + 1) {
                    Some(e) => e,
                    None => p + 1,
                };
                Some((e, s[p]))
            } else {
                None
            }
        },
    }
}

fn double_quoted_at(s: &Vec<char>, p: usize, fl: &mut Furthest) -> (r: Option<(usize, Vec<char>)>)
    requires
        p <= s.len(),
    ensures
        r matches Some((q, t)) ==> double_quoted(s@, p as int) == Some((q as int, t@)) && p < q
            <= s.len(),
        r is None ==> double_quoted(s@, p as int) is None,
{
    if !char_at(s, p, '"', fl) {
        return None;
    }
    let q0 = match continuation_at(s, p + 1) {
        Some(e) => e,
        None => p + 1,
    };
    let mut q = q0;
    let mut acc: Vec<char> = Vec::new();
    let mut next = string_piece_at(s, q, fl);
    while next.is_some()
        invariant
            p < q0 <= q <= s.len(),
            string_pieces(s@, q0 as int) == (string_pieces(s@, q as int).0, acc@ + string_pieces(
                s@,
                q as int,
            ).1),
            next matches Some((e, c)) ==> string_piece(s@, q as int) == Some((e as int, c)) && q
                < e <= s.len(),
            next is None ==> string_piece(s@, q as int) is None,
        decreases s.len() - q,
    {
        let (e, c) = next.unwrap();
        proof {
            let rest = string_pieces(s@, e as int).1;
            assert(acc@.push(c) + rest =~= acc@ + (seq![c] + rest));
        }
        acc.push(c);
        q = e;
        next = string_piece_at(s, q, fl);
    }
    proof {
        assert(acc@ + Seq::<char>::empty() =~= acc@);
    }
    if char_at(s, q, '"', fl) {
        Some((q + 1, acc))
    } else {
        None
    }
}

fn scalar_at(s: &Vec<char>, p: usize, fl: &mut Furthest) -> (r: Option<(usize, Vec<char>)>)
    requires
        p <= s.len(),
    ensures
        r matches Some((q, t)) ==> scalar(s@, p as int) == Some((q as int, t@)) && p < q <= s.len(),
        r is None ==> scalar(s@, p as int) is None,
{
    match bare_at(s, p, fl) {
        Some(e) => Some((e, copy_range(s, p, e))),
        None => match single_quoted_at(s, p, fl) {
            Some(r) => Some(r),
            None => double_quoted_at(s, p, fl),
        },
    }
}

/// The models of a list of keys.
pub open spec fn keys_model(ks: Seq<Vec<char>>) -> Seq<Seq<char>> {
    ks.map_values(|k: Vec<char>| k@)
}

/// Whether a parse result is what a grammar rule gives at `p`.
pub open spec fn gives_tree(r: Option<(usize, Value)>, o: Option<(int, Tree)>, p: int, len: int) -> bool {
    match r {
        Some((q, v)) => o == Some((q as int, tree_of(v))) && p < q <= len,
        None => o is None,
    }
}

/// Whether a parsed entry is what a grammar rule gives at `p`.
pub open spec fn gives_entry(
    r: Option<(usize, (String, Value))>,
    o: Option<(int, (Seq<char>, Tree))>,
    p: int,
    len: int,
) -> bool {
    match r {
        Some((q, (k, v))) => o == Some((q as int, (k@, tree_of(v)))) && p < q <= len,
        None => o is None,
    }
}

fn comma_at(s: &Vec<char>, p: usize, fl: &mut Furthest) -> (r: Option<usize>)
    requires
        p <= s.len(),
    ensures
        r matches Some(q) ==> comma(s@, p as int) == Some(q as int) && p < q <= s.len(),
        r is None ==> comma(s@, p as int) is None,
{
    let q = skip_ws_at(s, p);
    if char_at(s, q, ',', fl) {
        Some(skip_ws_at(s, q + 1))
    } else {
        None
    }
}

fn inline_value_at(s: &Vec<char>, p: usize, fl: &mut Furthest) -> (r: Option<(usize, Value)>)
    requires
        p <= s.len(),
    ensures
        gives_tree(r, inline_form(s@, p as int), p as int, s.len() as int),
    decreases s.len() - p, 2int,
{
    match inline_list_at(s, p, fl) {
        Some(r) => Some(r),
        None => match inline_table_at(s, p, fl) {
            Some(r) => Some(r),
            None => match scalar_at(s, p, fl) {
                Some((e, t)) => Some((e, Value::String(string_of(&t)))),
                None => None,
            },
        },
    }
}

fn inline_list_at(s: &Vec<char>, p: usize, fl: &mut Furthest) -> (r: Option<(usize, Value)>)
    requires
        p <= s.len(),
    ensures
        gives_tree(r, inline_list(s@, p as int), p as int, s.len() as int),
    decreases s.len() - p, 1int,
{
    if !char_at(s, p, '[', fl) {
        return None;
    }
    let q = skip_ws_at(s, p + 1);
    let mut items: Vec<Value> = Vec::new();
    let mut e = q;
    match inline_value_at(s, q, fl) {
        Some((e1, v)) => {
            items.push(v);
            proof {
                lemma_trees_of_push(Seq::empty(), v);
                assert(Seq::<Value>::empty().push(v) =~= items@);
            }
            let e2 = inline_items_at(s, e1, &mut items, fl);
            proof {
                let rest = inline_items(s@, e1 as int).1;
                assert(seq![tree_of(v)] =~= Seq::<Tree>::empty().push(tree_of(v)));
            }
            e = match comma_at(s, e2, fl) {
                Some(c) => c,
                None => e2,
            };
        },
        None => {
            assert(items@ =~= Seq::<Value>::empty());
        },
    }
    let f = skip_ws_at(s, e);
    if char_at(s, f, ']', fl) {
        Some((f + 1, Value::Array(items)))
    } else {
        None
    }
}

fn inline_items_at(s: &Vec<char>, p: usize, items: &mut Vec<Value>, fl: &mut Furthest) -> (r: usize)
    requires
        p <= s.len(),
    ensures
        r as int == inline_items(s@, p as int).0,
        trees_of(final(items)@) == trees_of(old(items)@) + inline_items(s@, p as int).1,
        p <= r <= s.len(),
    decreases s.len() - p, 0int,
{
    let mut q = p;
    loop
        invariant
            p <= q <= s.len(),
            inline_items(s@, p as int).0 == inline_items(s@, q as int).0,
            trees_of(old(items)@) + inline_items(s@, p as int).1 == trees_of(items@)
                + inline_items(s@, q as int).1,
        ensures
            p <= q <= s.len(),
            inline_items(s@, p as int).0 == inline_items(s@, q as int).0,
            trees_of(old(items)@) + inline_items(s@, p as int).1 == trees_of(items@)
                + inline_items(s@, q as int).1,
            inline_items(s@, q as int) == (q as int, Seq::<Tree>::empty()),
        decreases s.len() - q,
    {
        let c = match comma_at(s, q, fl) {
            Some(c) => c,
            None => break,
        };
        let (e, v) = match inline_value_at(s, c, fl) {
            Some(x) => x,
            None => break,
        };
        proof {
            let rest = inline_items(s@, e as int).1;
            lemma_trees_of_push(items@, v);
            assert(trees_of(items@).push(tree_of(v)) + rest =~= trees_of(items@) + (seq![tree_of(v)]
                + rest));
        }
        items.push(v);
        q = e;
    }
    proof {
        assert(trees_of(items@) + Seq::<Tree>::empty() =~= trees_of(items@));
    }
    q
}

fn inline_entry_at(s: &Vec<char>, p: usize, fl: &mut Furthest) -> (r: Option<(usize, (String, Value))>)
    requires
        p <= s.len(),
    ensures
        gives_entry(r, inline_entry(s@, p as int), p as int, s.len() as int),
    decreases s.len() - p, 1int,
{
    let (q, k) = match scalar_at(s, p, fl) {
        Some(x) => x,
        None => return None,
    };
    let r = skip_ws_at(s, q);
    if !char_at(s, r, ':', fl) {
        return None;
    }
    let t = skip_ws_at(s, r + 1);
    match inline_value_at(s, t, fl) {
        Some((e, v)) => Some((e, (string_of(&k), v))),
        None => None,
    }
}

fn inline_table_at(s: &Vec<char>, p: usize, fl: &mut Furthest) -> (r: Option<(usize, Value)>)
    requires
        p <= s.len(),
    ensures
        gives_tree(r, inline_table(s@, p as int), p as int, s.len() as int),
    decreases s.len() - p, 1int,
{
    if !char_at(s, p, '{', fl) {
        return None;
    }
    let q = skip_ws_at(s, p + 1);
    let mut t = Table::new();
    let mut e = q;
    let ghost mut es: Seq<(Seq<char>, Tree)> = Seq::empty();
    match inline_entry_at(s, q, fl) {
        Some((e1, (k, v))) => {
            proof {
                es = seq![(k@, tree_of(v))];
                lemma_first_wins_push(Seq::empty(), (k@, tree_of(v)));
                assert(Seq::<(Seq<char>, Tree)>::empty().push((k@, tree_of(v))) =~= es);
            }
            t.insert_first(k, v);
            let e2 = inline_entries_at(s, e1, &mut t, Ghost(es), fl);
            e = match comma_at(s, e2, fl) {
                Some(c) => c,
                None => e2,
            };
            proof {
                es = es + inline_entries(s@, e1 as int).1;
            }
        },
        None => {},
    }
    let f = skip_ws_at(s, e);
    if char_at(s, f, '}', fl) {
        Some((f + 1, Value::Table(t)))
    } else {
        None
    }
}

fn inline_entries_at(
    s: &Vec<char>,
    p: usize,
    t: &mut Table,
    Ghost(es): Ghost<Seq<(Seq<char>, Tree)>>,
    fl: &mut Furthest,
) -> (r: usize)
    requires
        p <= s.len(),
        entries_of(*old(t)) == first_wins(es),
    ensures
        r as int == inline_entries(s@, p as int).0,
        entries_of(*final(t)) == first_wins(es + inline_entries(s@, p as int).1),
        p <= r <= s.len(),
    decreases s.len() - p, 0int,
{
    let mut q = p;
    let ghost mut done: Seq<(Seq<char>, Tree)> = es;
    loop
        invariant
            p <= q <= s.len(),
            inline_entries(s@, p as int).0 == inline_entries(s@, q as int).0,
            es + inline_entries(s@, p as int).1 == done + inline_entries(s@, q as int).1,
            entries_of(*t) == first_wins(done),
        ensures
            p <= q <= s.len(),
            inline_entries(s@, p as int).0 == inline_entries(s@, q as int).0,
            es + inline_entries(s@, p as int).1 == done + inline_entries(s@, q as int).1,
            entries_of(*t) == first_wins(done),
            inline_entries(s@, q as int) == (q as int, Seq::<(Seq<char>, Tree)>::empty()),
        decreases s.len() - q,
    {
        let c = match comma_at(s, q, fl) {
            Some(c) => c,
            None => break,
        };
        let (e, (k, v)) = match inline_entry_at(s, c, fl) {
            Some(x) => x,
            None => break,
        };
        proof {
            let kv = (k@, tree_of(v));
            let rest = inline_entries(s@, e as int).1;
            lemma_first_wins_push(done, kv);
            assert(done.push(kv) + rest =~= done + (seq![kv] + rest));
            done = done.push(kv);
        }
        t.insert_first(k, v);
        q = e;
    }
    proof {
        assert(done + Seq::<(Seq<char>, Tree)>::empty() =~= done);
    }
    q
}

fn block_value_at(s: &Vec<char>, p: usize, n: usize, fl: &mut Furthest) -> (r: Option<(usize, Value)>)
    requires
        n <= p <= s.len(),
    ensures
        gives_tree(r, block_value(s@, p as int, n as nat), p as int, s.len() as int),
    decreases s.len() - p, 6int,
{
    match block_only_at(s, p, n, fl) {
        Some(r) => Some(r),
        None => inline_value_at(s, p, fl),
    }
}

fn block_only_at(s: &Vec<char>, p: usize, n: usize, fl: &mut Furthest) -> (r: Option<(usize, Value)>)
    requires
        n <= p <= s.len(),
    ensures
        gives_tree(r, block_only(s@, p as int, n as nat), p as int, s.len() as int),
    decreases s.len() - p, 5int,
{
    match block_list_at(s, p, n, fl) {
        Some(r) => Some(r),
        None => block_table_at(s, p, n, fl),
    }
}

fn list_item_at(s: &Vec<char>, p: usize, n: usize, fl: &mut Furthest) -> (r: Option<(usize, Value)>)
    requires
        n <= p <= s.len(),
    ensures
        gives_tree(r, list_item(s@, p as int, n as nat), p as int, s.len() as int),
    decreases s.len() - p, 3int,
{
    if char_at(s, p, '-', fl) && char_at(s, p + 1, ' ', fl) {
        block_value_at(s, p + 2, n + 2, fl)
    } else {
        None
    }
}

fn next_line_at(s: &Vec<char>, p: usize, n: usize, fl: &mut Furthest) -> (r: Option<usize>)
    requires
        p <= s.len(),
    ensures
        r matches Some(q) ==> next_line(s@, p as int, n as nat) == Some(q as int) && p <= q
            <= s.len() && n <= q,
        r is None ==> next_line(s@, p as int, n as nat) is None,
{
    match line_breaks_at(s, p, fl) {
        Some(q) => indent_at(s, q, n, fl),
        None => None,
    }
}

fn block_list_at(s: &Vec<char>, p: usize, n: usize, fl: &mut Furthest) -> (r: Option<(usize, Value)>)
    requires
        n <= p <= s.len(),
    ensures
        gives_tree(r, block_list(s@, p as int, n as nat), p as int, s.len() as int),
    decreases s.len() - p, 4int,
{
    let (e, v) = match list_item_at(s, p, n, fl) {
        Some(x) => x,
        None => return None,
    };
    let mut items: Vec<Value> = Vec::new();
    items.push(v);
    proof {
        lemma_trees_of_push(Seq::empty(), v);
        assert(Seq::<Value>::empty().push(v) =~= items@);
        assert(seq![tree_of(v)] =~= Seq::<Tree>::empty().push(tree_of(v)));
    }
    let f = more_items_at(s, e, n, &mut items, fl);
    Some((f, Value::Array(items)))
}

fn more_items_at(s: &Vec<char>, p: usize, n: usize, items: &mut Vec<Value>, fl: &mut Furthest) -> (r: usize)
    requires
        p <= s.len(),
    ensures
        r as int == more_items(s@, p as int, n as nat).0,
        trees_of(final(items)@) == trees_of(old(items)@) + more_items(s@, p as int, n as nat).1,
        p <= r <= s.len(),
    decreases s.len() - p, 3int,
{
    let mut q = p;
    loop
        invariant
            p <= q <= s.len(),
            more_items(s@, p as int, n as nat).0 == more_items(s@, q as int, n as nat).0,
            trees_of(old(items)@) + more_items(s@, p as int, n as nat).1 == trees_of(items@)
                + more_items(s@, q as int, n as nat).1,
        ensures
            p <= q <= s.len(),
            more_items(s@, p as int, n as nat).0 == more_items(s@, q as int, n as nat).0,
            trees_of(old(items)@) + more_items(s@, p as int, n as nat).1 == trees_of(items@)
                + more_items(s@, q as int, n as nat).1,
            more_items(s@, q as int, n as nat) == (q as int, Seq::<Tree>::empty()),
        decreases s.len() - q,
    {
        let c = match next_line_at(s, q, n, fl) {
            Some(c) => c,
            None => break,
        };
        if c <= q {
            break ;
        }
        let (e, v) = match list_item_at(s, c, n, fl) {
            Some(x) => x,
            None => break,
        };
        proof {
            let rest = more_items(s@, e as int, n as nat).1;
            lemma_trees_of_push(items@, v);
            assert(trees_of(items@).push(tree_of(v)) + rest =~= trees_of(items@) + (seq![tree_of(v)]
                + rest));
        }
        items.push(v);
        q = e;
    }
    proof {
        assert(trees_of(items@) + Seq::<Tree>::empty() =~= trees_of(items@));
    }
    q
}

fn key_colon_at(s: &Vec<char>, p: usize, fl: &mut Furthest) -> (r: Option<(usize, Vec<char>)>)
    requires
        p <= s.len(),
    ensures
        r matches Some((q, k)) ==> key_colon(s@, p as int) == Some((q as int, k@)) && p < q
            <= s.len(),
        r is None ==> key_colon(s@, p as int) is None,
{
    let (q, k) = match scalar_at(s, p, fl) {
        Some(x) => x,
        None => return None,
    };
    let r = skip_ws_at(s, q);
    if char_at(s, r, ':', fl) {
        Some((r + 1, k))
    } else {
        None
    }
}

fn more_keys_at(s: &Vec<char>, p: usize, keys: &mut Vec<Vec<char>>, fl: &mut Furthest) -> (r: usize)
    requires
        p <= s.len(),
    ensures
        r as int == more_keys(s@, p as int).0,
        keys_model(final(keys)@) == keys_model(old(keys)@) + more_keys(s@, p as int).1,
        p <= r <= s.len(),
{
    let mut q = p;
    loop
        invariant
            p <= q <= s.len(),
            more_keys(s@, p as int).0 == more_keys(s@, q as int).0,
            keys_model(old(keys)@) + more_keys(s@, p as int).1 == keys_model(keys@) + more_keys(
                s@,
                q as int,
            ).1,
        ensures
            p <= q <= s.len(),
            more_keys(s@, p as int).0 == more_keys(s@, q as int).0,
            keys_model(old(keys)@) + more_keys(s@, p as int).1 == keys_model(keys@) + more_keys(
                s@,
                q as int,
            ).1,
            more_keys(s@, q as int) == (q as int, Seq::<Seq<char>>::empty()),
        decreases s.len() - q,
    {
        let w = skip_ws_at(s, q);
        let (e, k) = match key_colon_at(s, w, fl) {
            Some(x) => x,
            None => break,
        };
        proof {
            let rest = more_keys(s@, e as int).1;
            assert(keys_model(keys@.push(k)) =~= keys_model(keys@).push(k@));
            assert(keys_model(keys@).push(k@) + rest =~= keys_model(keys@) + (seq![k@] + rest));
        }
        keys.push(k);
        q = e;
    }
    proof {
        assert(keys_model(keys@) + Seq::<Seq<char>>::empty() =~= keys_model(keys@));
    }
    q
}

fn entry_value_at(s: &Vec<char>, p: usize, n: usize, fl: &mut Furthest) -> (r: Option<(usize, Value)>)
    requires
        p <= s.len(),
    ensures
        gives_tree(r, entry_value(s@, p as int, n as nat), p as int, s.len() as int),
    decreases s.len() - p, 3int,
{
    let mut below: Option<(usize, Value)> = None;
    if let Some(q) = line_breaks_at(s, p, fl) {
        let mut listed = false;
        if let Some(r) = indent_at(s, q, n, fl) {
            if p < r {
                if let Some(x) = block_list_at(s, r, n, fl) {
                    below = Some(x);
                    listed = true;
                }
            }
        }
        if !listed && s.len() >= 2 && n <= s.len() - 2 {
            if let Some(r) = indent_at(s, q, n + 2, fl) {
                if p < r {
                    below = block_only_at(s, r, n + 2, fl);
                }
            }
        }
    }
    match below {
        Some(x) => Some(x),
        None => {
            let q = skip_ws_at(s, p);
            inline_value_at(s, q, fl)
        },
    }
}

fn table_entry_at(s: &Vec<char>, p: usize, n: usize, fl: &mut Furthest) -> (r: Option<(usize, (String, Value))>)
    requires
        p <= s.len(),
    ensures
        gives_entry(r, table_entry(s@, p as int, n as nat), p as int, s.len() as int),
    decreases s.len() - p, 3int,
{
    let (q, k) = match key_colon_at(s, p, fl) {
        Some(x) => x,
        None => return None,
    };
    let mut keys: Vec<Vec<char>> = Vec::new();
    let e = more_keys_at(s, q, &mut keys, fl);
    proof {
        assert(keys_model(Seq::empty()) =~= Seq::<Seq<char>>::empty());
        assert(Seq::<Seq<char>>::empty() + more_keys(s@, q as int).1 =~= more_keys(s@, q as int).1);
    }
    let (f, v) = match entry_value_at(s, e, n, fl) {
        Some(x) => x,
        None => return None,
    };
    let ghost ks = keys_model(keys@);
    let ghost v0 = tree_of(v);
    let mut acc = v;
    while keys.len() > 0
        invariant
            nest(keys_model(keys@), tree_of(acc)) == nest(ks, v0),
        decreases keys.len(),
    {
        let ghost before = keys@;
        let kk = keys.pop().unwrap();
        let mut t = Table::new();
        proof {
            assert(before =~= keys@.push(kk));
            assert(keys_model(keys@.push(kk)) =~= keys_model(keys@).push(kk@));
            assert(keys_model(keys@) =~= keys_model(before).drop_last());
        }
        let ghost inner = tree_of(acc);
        t.insert_first(string_of(&kk), acc);
        proof {
            assert(entries_of(t) =~= seq![(kk@, inner)]);
        }
        acc = Value::Table(t);
    }
    proof {
        assert(keys_model(keys@) =~= Seq::<Seq<char>>::empty());
    }
    Some((f, (string_of(&k), acc)))
}

fn block_table_at(s: &Vec<char>, p: usize, n: usize, fl: &mut Furthest) -> (r: Option<(usize, Value)>)
    requires
        n <= p <= s.len(),
    ensures
        gives_tree(r, block_table(s@, p as int, n as nat), p as int, s.len() as int),
    decreases s.len() - p, 4int,
{
    let (e, (k, v)) = match table_entry_at(s, p, n, fl) {
        Some(x) => x,
        None => return None,
    };
    let ghost kv = (k@, tree_of(v));
    let mut t = Table::new();
    proof {
        lemma_first_wins_push(Seq::empty(), kv);
        assert(Seq::<(Seq<char>, Tree)>::empty().push(kv) =~= seq![kv]);
    }
    t.insert_first(k, v);
    let ghost first = seq![kv];
    let f = more_entries_at(s, e, n, &mut t, Ghost(first), fl);
    Some((f, Value::Table(t)))
}

fn more_entries_at(
    s: &Vec<char>,
    p: usize,
    n: usize,
    t: &mut Table,
    Ghost(es): Ghost<Seq<(Seq<char>, Tree)>>,
    fl: &mut Furthest,
) -> (r: usize)
    requires
        p <= s.len(),
        entries_of(*old(t)) == first_wins(es),
    ensures
        r as int == more_entries(s@, p as int, n as nat).0,
        entries_of(*final(t)) == first_wins(es + more_entries(s@, p as int, n as nat).1),
        p <= r <= s.len(),
    decreases s.len() - p, 3int,
{
    let mut q = p;
    let ghost mut done: Seq<(Seq<char>, Tree)> = es;
    loop
        invariant
            p <= q <= s.len(),
            more_entries(s@, p as int, n as nat).0 == more_entries(s@, q as int, n as nat).0,
            es + more_entries(s@, p as int, n as nat).1 == done + more_entries(
                s@,
                q as int,
                n as nat,
            ).1,
            entries_of(*t) == first_wins(done),
        ensures
            p <= q <= s.len(),
            more_entries(s@, p as int, n as nat).0 == more_entries(s@, q as int, n as nat).0,
            es + more_entries(s@, p as int, n as nat).1 == done + more_entries(
                s@,
                q as int,
                n as nat,
            ).1,
            entries_of(*t) == first_wins(done),
            more_entries(s@, q as int, n as nat) == (q as int, Seq::<(Seq<char>, Tree)>::empty()),
        decreases s.len() - q,
    {
        let c = match next_line_at(s, q, n, fl) {
            Some(c) => c,
            None => break,
        };
        if c <= q {
            break ;
        }
        let (e, (k, v)) = match table_entry_at(s, c, n, fl) {
            Some(x) => x,
            None => break,
        };
        proof {
            let kv = (k@, tree_of(v));
            let rest = more_entries(s@, e as int, n as nat).1;
            lemma_first_wins_push(done, kv);
            assert(done.push(kv) + rest =~= done + (seq![kv] + rest));
            done = done.push(kv);
        }
        t.insert_first(k, v);
        q = e;
    }
    proof {
        assert(done + Seq::<(Seq<char>, Tree)>::empty() =~= done);
    }
    q
}

fn error_at(s: &Vec<char>, fl: Furthest) -> (r: ParseError)
    ensures
        located(s@, r),
{
    let mut p = if fl.pos < s.len() {
        fl.pos
    } else {
        s.len()
    };
    if p == usize::MAX {
        p = p - 1;
    }
    let mut line: usize = 1;
    let mut column: usize = 1;
    let mut i: usize = 0;
    while i < p
        invariant
            i <= p <= s.len(),
            p < usize::MAX,
            line == line_of(s@, i as int),
            column == column_of(s@, i as int),
            line <= i + 1,
            column <= i + 1,
        decreases p - i,
    {
        if s[i] == '\n' {
            line = line + 1;
            column = 1;
        } else {
            column = column + 1;
        }
        i += 1;
    }
    ParseError { line, column, offset: p, expected: fl.expected }
}

/// Parses a whole document: a value at indentation 0, with blank or comment
/// lines before and after it.
pub fn value(input: &str) -> (r: Result<Value, ParseError>)
    ensures
        match r {
            Ok(v) => document(input@) == Some(tree_of(v)),
            Err(e) => document(input@) is None && located(input@, e),
        },
{
    let s = chars_of(input);
    let mut fl = Furthest::new();
    let p = match line_breaks_at(&s, 0, &mut fl) {
        Some(q) => q,
        None => 0,
    };
    if let Some((q, v)) = block_value_at(&s, p, 0, &mut fl) {
        if let Some(r) = line_breaks_at(&s, q, &mut fl) {
            if r == s.len() {
                return Ok(v);
            }
            fl.note(r, Expected::End);
        }
    }
    Err(error_at(&s, fl))
}

/// Parses a text that is one scalar literal: a bare word, a single-quoted or
/// a double-quoted one.
pub fn simple_val(input: &str) -> (r: Result<String, ParseError>)
    ensures
        match r {
            Ok(t) => whole_scalar(input@) == Some(t@),
            Err(e) => whole_scalar(input@) is None && located(input@, e),
        },
{
    let s = chars_of(input);
    let mut fl = Furthest::new();
    if let Some((e, t)) = scalar_at(&s, 0, &mut fl) {
        if e == s.len() {
            return Ok(string_of(&t));
        }
        fl.note(e, Expected::End);
    }
    Err(error_at(&s, fl))
}

/// Parses a text that is one inline value: a bracketed list, a braced table
/// or a scalar literal.
pub fn inline_value(input: &str) -> (r: Result<Value, ParseError>)
    ensures
        match r {
            Ok(v) => whole_inline(input@) == Some(tree_of(v)),
            Err(e) => whole_inline(input@) is None && located(input@, e),
        },
{
    let s = chars_of(input);
    let mut fl = Furthest::new();
    if let Some((e, v)) = inline_value_at(&s, 0, &mut fl) {
        if e == s.len() {
            return Ok(v);
        }
        fl.note(e, Expected::End);
    }
    Err(error_at(&s, fl))
}

/// Whether a whole text is one bare word, which needs no quotes.
pub fn is_bare_word(t: &Vec<char>) -> (r: bool)
    ensures
        r == is_bare(t@),
{
    let mut fl = Furthest::new();
    match bare_at(t, 0, &mut fl) {
        Some(e) => e == t.len(),
        None => false,
    }
}

/// Parses a text that is exactly `n` spaces.
pub fn indent(input: &str, n: usize) -> (r: Result<(), ParseError>)
    ensures
        match r {
            Ok(()) => indent_rule(input@, 0, n as nat) == Some(input@.len() as int),
            Err(e) => indent_rule(input@, 0, n as nat) != Some(input@.len() as int) && located(
                input@,
                e,
            ),
        },
{
    let s = chars_of(input);
    let mut fl = Furthest::new();
    if let Some(e) = indent_at(&s, 0, n, &mut fl) {
        if e == s.len() {
            return Ok(());
        }
        fl.note(e, Expected::End);
    }
    Err(error_at(&s, fl))
}

} // verus!
