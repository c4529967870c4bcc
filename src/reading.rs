//! Lemmas on how the parser reads text that the serializer wrote.
use vstd::prelude::*;
use crate::grammar::{
    at, bare, word_start, word_chars_end, is_word_char, is_bare, single_quoted, quoted_text_end,
    double_quoted, scalar, continuation, escape, string_piece, string_pieces, is_hex, hex_value,
    hex_run, hex_number, hex_count,
};
use crate::grammar::{
    blank_line, line_breaks, indent, next_line, list_item, block_list, more_items, block_table,
    more_entries, table_entry, key_colon, more_keys, entry_value, block_only, block_value, nest,
    is_space, skip_ws, comma, inline_form, inline_items, inline_entry, inline_entries,
};
use crate::parser::pow16;
use crate::value::{Tree, is_empty_tree, well_formed, lemma_first_wins_distinct};
use crate::serialize::{
    indented, list_lines, entry_lines, entry_text, spaces, compact, compact_items, compact_entries,
    compact_entry, quoted, escaped, escape_all, hex_digits, hex_char, hex_width, short_escape,
    single_quotable, debug_escape_len,
};

verus! {

/// Whether `t` stands in `s` from position `p`.
pub open spec fn text_at(s: Seq<char>, p: int, t: Seq<char>) -> bool {
    0 <= p && p + t.len() <= s.len() && s.subrange(p, p + t.len()) == t
}

/// The characters that may follow a scalar that the serializer wrote.
pub open spec fn is_stop(c: char) -> bool {
    c == ',' || c == ']' || c == '}' || c == ':' || c == '\n'
}

/// Whether the text ends at `e` or a stop character stands there.
pub open spec fn stops(s: Seq<char>, e: int) -> bool {
    e == s.len() || (0 <= e < s.len() && is_stop(s[e]))
}

pub proof fn lemma_text_at_index(s: Seq<char>, p: int, t: Seq<char>)
    requires
        text_at(s, p, t),
    ensures
        forall|i: int| 0 <= i < t.len() ==> #[trigger] s[p + i] == t[i],
{
    assert forall|i: int| 0 <= i < t.len() implies #[trigger] s[p + i] == t[i] by {
        assert(s.subrange(p, p + t.len())[i] == s[p + i]);
    }
}

pub proof fn lemma_text_at_split(s: Seq<char>, p: int, a: Seq<char>, b: Seq<char>)
    requires
        text_at(s, p, a + b),
    ensures
        text_at(s, p, a),
        text_at(s, p + a.len(), b),
{
    lemma_text_at_index(s, p, a + b);
    assert(s.subrange(p, p + a.len()) =~= a) by {
        assert forall|i: int| 0 <= i < a.len() implies s.subrange(p, p + a.len())[i] == a[i] by {
            assert(s[p + i] == (a + b)[i]);
        }
    }
    assert(s.subrange(p + a.len(), p + a.len() + b.len()) =~= b) by {
        assert forall|i: int| 0 <= i < b.len() implies s.subrange(
            p + a.len(),
            p + a.len() + b.len(),
        )[i] == b[i] by {
            assert(s[p + (a.len() + i)] == (a + b)[a.len() + i]);
        }
    }
}

proof fn lemma_stop_not_word(c: char)
    requires
        is_stop(c),
    ensures
        !is_word_char(c),
        c != ' ',
{
}

proof fn lemma_word_run(s: Seq<char>, a: int, b: int)
    requires
        0 <= a <= b <= s.len(),
        forall|j: int| a <= j < b ==> is_word_char(#[trigger] s[j]),
        b == s.len() || !is_word_char(s[b]),
    ensures
        word_chars_end(s, a) == b,
    decreases b - a,
{
    if a < b {
        lemma_word_run(s, a + 1, b);
    }
}

proof fn lemma_word_run_back(s: Seq<char>, a: int)
    requires
        0 <= a <= s.len(),
    ensures
        a <= word_chars_end(s, a) <= s.len(),
        forall|j: int| a <= j < word_chars_end(s, a) ==> is_word_char(#[trigger] s[j]),
    decreases s.len() - a,
{
    if a < s.len() && is_word_char(s[a]) {
        lemma_word_run_back(s, a + 1);
    }
}

proof fn lemma_bare_reads(s: Seq<char>, p: int, t: Seq<char>)
    requires
        text_at(s, p, t),
        is_bare(t),
        stops(s, p + t.len()),
    ensures
        bare(s, p) == Some(p + t.len()),
{
    lemma_text_at_index(s, p, t);
    lemma_word_run_back(t, 1);
    assert(s[p + 0] == t[0]);
    if t.len() > 1 {
        assert(s[p + 1] == t[1]);
    } else if p + 1 < s.len() {
        lemma_stop_not_word(s[p + 1]);
    }
    assert forall|j: int| p + 1 <= j < p + t.len() implies is_word_char(#[trigger] s[j]) by {
        assert(s[p + (j - p)] == t[j - p]);
    }
    if p + t.len() < s.len() {
        lemma_stop_not_word(s[p + t.len()]);
    }
    lemma_word_run(s, p + 1, p + t.len());
}

proof fn lemma_quoted_run(s: Seq<char>, a: int, b: int)
    requires
        0 <= a <= b < s.len(),
        forall|j: int| a <= j < b ==> #[trigger] s[j] != '\'' && s[j] != '\n' && s[j] != '\r',
        s[b] == '\'',
    ensures
        quoted_text_end(s, a) == b,
    decreases b - a,
{
    if a < b {
        lemma_quoted_run(s, a + 1, b);
    }
}

proof fn lemma_single_reads(s: Seq<char>, p: int, t: Seq<char>)
    requires
        text_at(s, p, seq!['\''] + t + seq!['\'']),
        forall|i: int| 0 <= i < t.len() ==> single_quotable(#[trigger] t[i]),
    ensures
        single_quoted(s, p) == Some((p + t.len() + 2, t)),
        bare(s, p) is None,
{
    let w = seq!['\''] + t + seq!['\''];
    lemma_text_at_index(s, p, w);
    assert(s[p + 0] == w[0]);
    assert(s[p + (t.len() + 1)] == w[t.len() + 1int]);
    assert forall|j: int| p + 1 <= j < p + 1 + t.len() implies #[trigger] s[j] != '\'' && s[j] != '\n'
        && s[j] != '\r' by {
        assert(s[p + (j - p)] == w[j - p]);
        assert(w[j - p] == t[j - p - 1]);
        assert(single_quotable(t[j - p - 1]));
    }
    lemma_quoted_run(s, p + 1, p + 1 + t.len());
    assert(s.subrange(p + 1, p + 1 + t.len()) =~= t) by {
        assert forall|i: int| 0 <= i < t.len() implies s.subrange(p + 1, p + 1 + t.len())[i] == t[i] by {
            assert(s[p + (i + 1)] == w[i + 1]);
        }
    }
}

/// A letter that may follow a backslash in text that the serializer wrote.
pub open spec fn is_escape_letter(c: char) -> bool {
    c == 'n' || c == 'r' || c == 't' || c == '\\' || c == '"' || c == 'x' || c == 'u'
}

pub proof fn lemma_hex_char(d: nat)
    requires
        d < 16,
    ensures
        is_hex(hex_char(d)),
        hex_value(hex_char(d)) == d,
{
}

pub proof fn lemma_hex_digits(s: Seq<char>, p: int, n: nat, w: nat)
    requires
        text_at(s, p, hex_digits(n, w)),
        n < pow16(w),
    ensures
        hex_digits(n, w).len() == w,
        hex_run(s, p, w),
        hex_number(s, p, w) == n,
    decreases w,
{
    if w > 0 {
        let hd = hex_digits((n / 16) as nat, (w - 1) as nat);
        let x = hex_char(n % 16);
        assert(hex_digits(n, w) == hd.push(x));
        assert(hd.push(x) =~= hd + seq![x]);
        lemma_text_at_split(s, p, hd, seq![x]);
        assert((n / 16) < pow16((w - 1) as nat)) by (nonlinear_arith)
            requires
                n < pow16(w),
                pow16(w) == 16 * pow16((w - 1) as nat),
        ;
        lemma_hex_digits(s, p, (n / 16) as nat, (w - 1) as nat);
        lemma_text_at_index(s, p + hd.len(), seq![x]);
        assert(s[p + hd.len() + 0] == x);
        lemma_hex_char(n % 16);
        assert(s[p + w - 1] == x);
    } else {
        assert(hex_digits(n, w).len() == 0);
    }
}

pub proof fn lemma_hex_count(s: Seq<char>, a: int, w: nat, max: nat)
    requires
        0 <= a,
        a + w <= s.len(),
        forall|j: int| a <= j < a + w ==> is_hex(#[trigger] s[j]),
        a + w == s.len() || !is_hex(s[a + w]),
        w <= max,
    ensures
        hex_count(s, a, max) == w,
    decreases w,
{
    if w > 0 {
        lemma_hex_count(s, a + 1, (w - 1) as nat, (max - 1) as nat);
    }
}

pub proof fn lemma_hex_width(n: nat, k: nat)
    requires
        1 <= k,
        n < pow16(k),
    ensures
        n < pow16(hex_width(n)),
        hex_width(n) <= k,
    decreases n,
{
    if n >= 16 {
        assert(k >= 2) by {
            if k == 1 {
                reveal_with_fuel(pow16, 2);
            }
        }
        assert((n / 16) < pow16((k - 1) as nat)) by (nonlinear_arith)
            requires
                n < pow16(k),
                pow16(k) == 16 * pow16((k - 1) as nat),
        ;
        lemma_hex_width((n / 16) as nat, (k - 1) as nat);
        let w = hex_width((n / 16) as nat);
        assert(n < pow16(w + 1)) by (nonlinear_arith)
            requires
                n / 16 < pow16(w),
                pow16(w + 1) == 16 * pow16(w),
        ;
    } else {
        reveal_with_fuel(pow16, 2);
    }
}

/// What the serializer writes for a character starts with a backslash only
/// where an escape letter follows.
pub proof fn lemma_escaped_shape(c: char)
    ensures
        escaped(c).len() >= 1,
        escaped(c)[0] == '\\' ==> escaped(c).len() >= 2 && is_escape_letter(escaped(c)[1]),
        escaped(c)[0] != '"',
{
}

proof fn lemma_no_continuation(s: Seq<char>, e: int)
    requires
        0 <= e < s.len(),
        s[e] == '\\' ==> e + 1 < s.len() && is_escape_letter(s[e + 1]),
    ensures
        continuation(s, e) is None,
{
}

proof fn lemma_piece_reads(s: Seq<char>, q: int, c: char)
    requires
        text_at(s, q, escaped(c)),
        q + escaped(c).len() < s.len(),
        s[q + escaped(c).len()] == '\\' ==> q + escaped(c).len() + 1 < s.len() && is_escape_letter(
            s[q + escaped(c).len() + 1],
        ),
    ensures
        string_piece(s, q) == Some((q + escaped(c).len(), c)),
{
    let w = escaped(c);
    let e = q + w.len();
    let n = c as nat;
    lemma_text_at_index(s, q, w);
    lemma_no_continuation(s, e);
    assert(s[q + 0] == w[0]);
    if c == '\'' || (short_escape(c) is None && debug_escape_len(c) == 1) {
        assert(escape(s, q) is None);
    } else if short_escape(c) is Some {
        assert(s[q + 1] == w[1]);
    } else {
        assert(s[q + 1] == w[1]);
        reveal_with_fuel(pow16, 7);
        if n < 0x100 {
            let hd = hex_digits(n, 2);
            assert(w == seq!['\\', 'x'] + hd);
            lemma_text_at_split(s, q, seq!['\\', 'x'], hd);
            lemma_hex_digits(s, q + 2, n, 2);
        } else if n < 0x10000 {
            let hd = hex_digits(n, 4);
            assert(w == seq!['\\', 'u'] + hd);
            lemma_text_at_split(s, q, seq!['\\', 'u'], hd);
            lemma_hex_digits(s, q + 2, n, 4);
        } else {
            let k = hex_width(n);
            lemma_hex_width(n, 6);
            let hd = hex_digits(n, k);
            assert(w == seq!['\\', 'u', '{'] + hd + seq!['}']);
            lemma_text_at_split(s, q, seq!['\\', 'u', '{'] + hd, seq!['}']);
            lemma_text_at_split(s, q, seq!['\\', 'u', '{'], hd);
            lemma_hex_digits(s, q + 3, n, k);
            assert(s[q + 2] == w[2]);
            assert(!hex_run(s, q + 2, 4));
            lemma_text_at_index(s, q + 3 + k, seq!['}']);
            assert(s[q + 3 + k + 0] == '}');
            lemma_hex_count(s, q + 3, k, 8);
        }
    }
}

proof fn lemma_escape_all_concat(a: Seq<char>, b: Seq<char>)
    ensures
        escape_all(a + b) == escape_all(a) + escape_all(b),
    decreases b.len(),
{
    if b.len() == 0 {
        assert(a + b =~= a);
        assert(escape_all(a) + escape_all(b) =~= escape_all(a));
    } else {
        assert((a + b).drop_last() =~= a + b.drop_last());
        lemma_escape_all_concat(a, b.drop_last());
        assert(escape_all(a) + escape_all(b.drop_last()) + escaped(b.last()) =~= escape_all(a) + (
        escape_all(b.drop_last()) + escaped(b.last())));
    }
}

proof fn lemma_escape_all_front(t: Seq<char>)
    requires
        t.len() > 0,
    ensures
        escape_all(t) == escaped(t[0]) + escape_all(t.drop_first()),
{
    assert(t =~= seq![t[0]] + t.drop_first());
    lemma_escape_all_concat(seq![t[0]], t.drop_first());
    assert(seq![t[0]].drop_last() =~= Seq::<char>::empty());
    assert(escape_all(Seq::<char>::empty()) =~= Seq::<char>::empty());
    assert(Seq::<char>::empty() + escaped(t[0]) =~= escaped(t[0]));
    assert(escape_all(seq![t[0]]) =~= escaped(t[0]));
}

proof fn lemma_pieces_read(s: Seq<char>, q: int, t: Seq<char>)
    requires
        text_at(s, q, escape_all(t)),
        at(s, q + escape_all(t).len(), '"'),
    ensures
        string_pieces(s, q) == (q + escape_all(t).len(), t),
    decreases t.len(),
{
    if t.len() == 0 {
        assert(t =~= Seq::<char>::empty());
    } else {
        let c = t[0];
        let rest = t.drop_first();
        lemma_escape_all_front(t);
        lemma_text_at_split(s, q, escaped(c), escape_all(rest));
        let e = q + escaped(c).len();
        if rest.len() > 0 {
            lemma_escape_all_front(rest);
            lemma_text_at_split(s, e, escaped(rest[0]), escape_all(rest.drop_first()));
            lemma_text_at_index(s, e, escaped(rest[0]));
            lemma_escaped_shape(rest[0]);
            assert(s[e + 0] == escaped(rest[0])[0]);
            if s[e] == '\\' {
                assert(s[e + 1] == escaped(rest[0])[1]);
            }
        } else {
            assert(escape_all(rest).len() == 0);
        }
        lemma_piece_reads(s, q, c);
        lemma_pieces_read(s, e, rest);
        assert(seq![c] + rest =~= t);
    }
}

proof fn lemma_double_reads(s: Seq<char>, p: int, t: Seq<char>)
    requires
        text_at(s, p, seq!['"'] + escape_all(t) + seq!['"']),
    ensures
        double_quoted(s, p) == Some((p + escape_all(t).len() + 2, t)),
        bare(s, p) is None,
        single_quoted(s, p) is None,
{
    let body = escape_all(t);
    lemma_text_at_split(s, p, seq!['"'] + body, seq!['"']);
    lemma_text_at_split(s, p, seq!['"'], body);
    lemma_text_at_index(s, p, seq!['"']);
    assert(s[p + 0] == '"');
    lemma_text_at_index(s, p + 1 + body.len(), seq!['"']);
    assert(s[p + 1 + body.len() + 0] == '"');
    if t.len() > 0 {
        lemma_escape_all_front(t);
        lemma_text_at_split(s, p + 1, escaped(t[0]), escape_all(t.drop_first()));
        lemma_text_at_index(s, p + 1, escaped(t[0]));
        lemma_escaped_shape(t[0]);
        assert(s[p + 1 + 0] == escaped(t[0])[0]);
        if s[p + 1] == '\\' {
            assert(s[p + 1 + 1] == escaped(t[0])[1]);
        }
    } else {
        assert(body.len() == 0);
    }
    lemma_no_continuation(s, p + 1);
    lemma_pieces_read(s, p + 1, t);
}

/// A scalar that the serializer wrote reads back as the same text, where a
/// stop character or the end of the text follows it.
pub proof fn lemma_scalar_reads(s: Seq<char>, p: int, t: Seq<char>)
    requires
        text_at(s, p, quoted(t)),
        stops(s, p + quoted(t).len()),
    ensures
        scalar(s, p) == Some((p + quoted(t).len(), t)),
{
    let w = quoted(t);
    if t.len() == 0 {
        lemma_text_at_index(s, p, w);
        assert(s[p + 0] == '\'');
        assert(s[p + 1] == '\'');
        assert(s.subrange(p + 1, p + 1) =~= t);
    } else if is_bare(t) {
        lemma_bare_reads(s, p, t);
    } else if forall|i: int| 0 <= i < t.len() ==> single_quotable(#[trigger] t[i]) {
        lemma_single_reads(s, p, t);
    } else {
        lemma_double_reads(s, p, t);
    }
}

/// The concatenation of some pieces of text, in order.
pub open spec fn cat(ps: Seq<Seq<char>>) -> Seq<char>
    decreases ps.len(),
{
    if ps.len() == 0 {
        Seq::empty()
    } else {
        cat(ps.drop_last()) + ps.last()
    }
}

pub proof fn lemma_cat_front(ps: Seq<Seq<char>>)
    requires
        ps.len() > 0,
    ensures
        cat(ps) == ps[0] + cat(ps.drop_first()),
    decreases ps.len(),
{
    if ps.len() == 1 {
        assert(ps.drop_first() =~= Seq::<Seq<char>>::empty());
        assert(ps.drop_last() =~= Seq::<Seq<char>>::empty());
        assert(Seq::<char>::empty() + ps[0] =~= ps[0] + Seq::<char>::empty());
    } else {
        lemma_cat_front(ps.drop_last());
        assert(ps.drop_last().drop_first() =~= ps.drop_first().drop_last());
        assert(ps.drop_first().last() == ps.last());
        assert(ps[0] + cat(ps.drop_first().drop_last()) + ps.last() =~= ps[0] + (cat(
            ps.drop_first().drop_last(),
        ) + ps.last()));
    }
}

/// The first character of a scalar as written.
pub proof fn lemma_quoted_shape(t: Seq<char>)
    ensures
        quoted(t).len() >= 1,
        quoted(t)[0] != ' ' && quoted(t)[0] != '\t' && quoted(t)[0] != '[' && quoted(t)[0] != '{'
            && quoted(t)[0] != ']' && quoted(t)[0] != '}' && quoted(t)[0] != '\n' && quoted(t)[0]
            != '\r' && quoted(t)[0] != ';' && quoted(t)[0] != ',' && quoted(t)[0] != ':',
        quoted(t)[0] == '-' ==> is_bare(t) && (t.len() == 1 || t[1] != ' '),
{
    if t.len() > 0 && is_bare(t) {
        assert(word_start(t, 0));
    }
}

pub proof fn lemma_compact_shape(v: Tree)
    ensures
        compact(v).len() >= 1,
        compact(v)[0] != ' ' && compact(v)[0] != '\t' && compact(v)[0] != ']' && compact(v)[0] != '}'
            && compact(v)[0] != ',',
{
    match v {
        Tree::Scalar(t) => lemma_quoted_shape(t),
        _ => {},
    }
}

/// The pieces of a compact list: each item, after a comma but for the first.
pub open spec fn item_pieces(items: Seq<Tree>) -> Seq<Seq<char>> {
    Seq::new(
        items.len(),
        |i: int|
            if i == 0 {
                compact(items[0])
            } else {
                seq![','] + compact(items[i])
            },
    )
}

pub open spec fn entry_pieces(es: Seq<(Seq<char>, Tree)>) -> Seq<Seq<char>> {
    Seq::new(
        es.len(),
        |i: int|
            if i == 0 {
                compact_entry(es[0])
            } else {
                seq![','] + compact_entry(es[i])
            },
    )
}

proof fn lemma_compact_items_cat(items: Seq<Tree>)
    ensures
        compact_items(items) == cat(item_pieces(items)),
    decreases items.len(),
{
    if items.len() > 1 {
        let sub = items.subrange(0, items.len() - 1);
        lemma_compact_items_cat(sub);
        assert(item_pieces(items).drop_last() =~= item_pieces(sub));
        assert(item_pieces(items).last() == seq![','] + compact(items[items.len() - 1]));
        assert(cat(item_pieces(items)) == cat(item_pieces(items).drop_last()) + item_pieces(
            items,
        ).last());
        assert(compact_items(sub) + seq![','] + compact(items[items.len() - 1]) =~= cat(
            item_pieces(sub),
        ) + (seq![','] + compact(items[items.len() - 1])));
    } else if items.len() == 1 {
        assert(item_pieces(items).drop_last() =~= Seq::<Seq<char>>::empty());
        assert(Seq::<char>::empty() + compact(items[0]) =~= compact(items[0]));
        assert(cat(item_pieces(items)) == cat(item_pieces(items).drop_last()) + item_pieces(
            items,
        ).last());
    } else {
        assert(item_pieces(items).len() == 0);
    }
}

proof fn lemma_compact_entries_cat(es: Seq<(Seq<char>, Tree)>)
    ensures
        compact_entries(es) == cat(entry_pieces(es)),
    decreases es.len(),
{
    if es.len() > 1 {
        let sub = es.subrange(0, es.len() - 1);
        lemma_compact_entries_cat(sub);
        assert(entry_pieces(es).drop_last() =~= entry_pieces(sub));
        assert(entry_pieces(es).last() == seq![','] + compact_entry(es[es.len() - 1]));
        assert(cat(entry_pieces(es)) == cat(entry_pieces(es).drop_last()) + entry_pieces(es).last());
        assert(compact_entries(sub) + seq![','] + compact_entry(es[es.len() - 1]) =~= cat(
            entry_pieces(sub),
        ) + (seq![','] + compact_entry(es[es.len() - 1])));
    } else if es.len() == 1 {
        assert(entry_pieces(es).drop_last() =~= Seq::<Seq<char>>::empty());
        assert(Seq::<char>::empty() + compact_entry(es[0]) =~= compact_entry(es[0]));
        assert(cat(entry_pieces(es)) == cat(entry_pieces(es).drop_last()) + entry_pieces(es).last());
    } else {
        assert(entry_pieces(es).len() == 0);
    }
}

proof fn lemma_nothing_inline(s: Seq<char>, p: int)
    requires
        0 <= p < s.len(),
        s[p] == ']' || s[p] == '}',
    ensures
        inline_form(s, p) is None,
        inline_entry(s, p) is None,
{
}

/// A value written in compact form reads back as itself where a stop
/// character or the end of the text follows it.
#[verifier::rlimit(40)]
pub proof fn lemma_compact_reads(s: Seq<char>, p: int, v: Tree)
    requires
        well_formed(v),
        text_at(s, p, compact(v)),
        stops(s, p + compact(v).len()),
    ensures
        inline_form(s, p) == Some((p + compact(v).len(), v)),
    decreases v, 0int,
{
    let w = compact(v);
    let e = p + w.len();
    lemma_compact_shape(v);
    lemma_text_at_index(s, p, w);
    assert(s[p + 0] == w[0]);
    match v {
        Tree::Scalar(t) => {
            lemma_scalar_reads(s, p, t);
        },
        Tree::Sequence(items) => {
            let ps = item_pieces(items);
            lemma_compact_items_cat(items);
            lemma_text_at_split(s, p, seq!['['] + cat(ps), seq![']']);
            lemma_text_at_split(s, p, seq!['['], cat(ps));
            let m = p + 1 + cat(ps).len();
            lemma_text_at_index(s, m, seq![']']);
            assert(s[m + 0] == ']');
            if items.len() == 0 {
                assert(cat(ps).len() == 0);
                lemma_nothing_inline(s, p + 1);
                assert(items =~= Seq::<Tree>::empty());
            } else {
                lemma_cat_front(ps);
                lemma_text_at_split(s, p + 1, ps[0], cat(ps.drop_first()));
                let e1 = p + 1 + ps[0].len();
                lemma_compact_shape(items[0]);
                lemma_text_at_index(s, p + 1, ps[0]);
                assert(s[p + 1 + 0] == ps[0][0]);
                if items.len() > 1 {
                    assert(ps.drop_first()[0] == ps[1]);
                    lemma_cat_front(ps.drop_first());
                    lemma_text_at_index(s, e1, cat(ps.drop_first()));
                    assert(s[e1 + 0] == cat(ps.drop_first())[0]);
                }
                assert(decreases_to!(v => v->Sequence_0));
                lemma_compact_reads(s, p + 1, items[0]);
                assert(ps.drop_first() =~= ps.subrange(1, ps.len() as int));
                lemma_inline_items_read(s, e1, items, 1);
                assert(seq![items[0]] + items.subrange(1, items.len() as int) =~= items);
            }
        },
        Tree::Mapping(es) => {
            let ps = entry_pieces(es);
            lemma_compact_entries_cat(es);
            lemma_text_at_split(s, p, seq!['{'] + cat(ps), seq!['}']);
            lemma_text_at_split(s, p, seq!['{'], cat(ps));
            let m = p + 1 + cat(ps).len();
            lemma_text_at_index(s, m, seq!['}']);
            assert(s[m + 0] == '}');
            lemma_first_wins_distinct(es);
            if es.len() == 0 {
                assert(cat(ps).len() == 0);
                lemma_nothing_inline(s, p + 1);
                assert(es =~= Seq::<(Seq<char>, Tree)>::empty());
            } else {
                lemma_cat_front(ps);
                lemma_text_at_split(s, p + 1, ps[0], cat(ps.drop_first()));
                let e1 = p + 1 + ps[0].len();
                if es.len() > 1 {
                    assert(ps.drop_first()[0] == ps[1]);
                    lemma_cat_front(ps.drop_first());
                    lemma_text_at_index(s, e1, cat(ps.drop_first()));
                    assert(s[e1 + 0] == cat(ps.drop_first())[0]);
                }
                assert(decreases_to!(v => v->Mapping_0));
                lemma_entry_reads(s, p + 1, es, 0);
                assert(ps.drop_first() =~= ps.subrange(1, ps.len() as int));
                lemma_inline_entries_read(s, e1, es, 1);
                assert(seq![es[0]] + es.subrange(1, es.len() as int) =~= es);
            }
        },
    }
}

/// An entry written in compact form reads back as itself.
proof fn lemma_entry_reads(s: Seq<char>, p: int, es: Seq<(Seq<char>, Tree)>, i: int)
    requires
        0 <= i < es.len(),
        well_formed(es[i].1),
        text_at(s, p, compact_entry(es[i])),
        stops(s, p + compact_entry(es[i]).len()),
        s[p + compact_entry(es[i]).len()] != ':' || p + compact_entry(es[i]).len() == s.len(),
    ensures
        inline_entry(s, p) == Some((p + compact_entry(es[i]).len(), es[i])),
    decreases es, 0int,
{
    let (k, v) = es[i];
    let qk = quoted(k);
    lemma_text_at_split(s, p, qk + seq![':'], compact(v));
    lemma_text_at_split(s, p, qk, seq![':']);
    lemma_text_at_index(s, p + qk.len(), seq![':']);
    assert(s[p + qk.len() + 0] == ':');
    lemma_scalar_reads(s, p, k);
    let t = p + qk.len() + 1;
    lemma_compact_shape(v);
    lemma_text_at_index(s, t, compact(v));
    assert(s[t + 0] == compact(v)[0]);
    assert(decreases_to!(es => es[i]));
    assert(decreases_to!(es[i] => es[i].1));
    lemma_compact_reads(s, t, v);
}

proof fn lemma_inline_items_read(s: Seq<char>, e: int, items: Seq<Tree>, k: int)
    requires
        1 <= k <= items.len(),
        forall|j: int| 0 <= j < items.len() ==> well_formed(#[trigger] items[j]),
        text_at(s, e, cat(item_pieces(items).subrange(k, items.len() as int))),
        at(s, e + cat(item_pieces(items).subrange(k, items.len() as int)).len(), ']'),
    ensures
        inline_items(s, e) == (
            e + cat(item_pieces(items).subrange(k, items.len() as int)).len(),
            items.subrange(k, items.len() as int),
        ),
    decreases items, items.len() - k,
{
    let ps = item_pieces(items).subrange(k, items.len() as int);
    if k == items.len() {
        assert(ps =~= Seq::<Seq<char>>::empty());
        assert(items.subrange(k, items.len() as int) =~= Seq::<Tree>::empty());
    } else {
        lemma_cat_front(ps);
        assert(ps[0] == seq![','] + compact(items[k]));
        assert(ps.drop_first() =~= item_pieces(items).subrange(k + 1, items.len() as int));
        lemma_text_at_split(s, e, ps[0], cat(ps.drop_first()));
        lemma_text_at_split(s, e, seq![','], compact(items[k]));
        lemma_text_at_index(s, e, seq![',']);
        assert(s[e + 0] == ',');
        lemma_compact_shape(items[k]);
        lemma_text_at_index(s, e + 1, compact(items[k]));
        assert(s[e + 1 + 0] == compact(items[k])[0]);
        let e2 = e + ps[0].len();
        if k + 1 < items.len() {
            let rest = ps.drop_first();
            assert(rest[0] == seq![','] + compact(items[k + 1]));
            lemma_cat_front(rest);
            lemma_text_at_index(s, e2, cat(rest));
            assert(s[e2 + 0] == cat(rest)[0]);
        }
        assert(decreases_to!(items => items[k]));
        lemma_compact_reads(s, e + 1, items[k]);
        lemma_inline_items_read(s, e2, items, k + 1);
        assert(seq![items[k]] + items.subrange(k + 1, items.len() as int) =~= items.subrange(
            k,
            items.len() as int,
        ));
    }
}

proof fn lemma_inline_entries_read(s: Seq<char>, e: int, es: Seq<(Seq<char>, Tree)>, k: int)
    requires
        1 <= k <= es.len(),
        forall|j: int| 0 <= j < es.len() ==> well_formed(#[trigger] es[j].1),
        text_at(s, e, cat(entry_pieces(es).subrange(k, es.len() as int))),
        at(s, e + cat(entry_pieces(es).subrange(k, es.len() as int)).len(), '}'),
    ensures
        inline_entries(s, e) == (
            e + cat(entry_pieces(es).subrange(k, es.len() as int)).len(),
            es.subrange(k, es.len() as int),
        ),
    decreases es, es.len() - k + 2,
{
    let ps = entry_pieces(es).subrange(k, es.len() as int);
    if k == es.len() {
        assert(ps =~= Seq::<Seq<char>>::empty());
        assert(es.subrange(k, es.len() as int) =~= Seq::<(Seq<char>, Tree)>::empty());
    } else {
        lemma_cat_front(ps);
        assert(ps[0] == seq![','] + compact_entry(es[k]));
        assert(ps.drop_first() =~= entry_pieces(es).subrange(k + 1, es.len() as int));
        lemma_text_at_split(s, e, ps[0], cat(ps.drop_first()));
        lemma_text_at_split(s, e, seq![','], compact_entry(es[k]));
        lemma_text_at_index(s, e, seq![',']);
        assert(s[e + 0] == ',');
        lemma_quoted_shape(es[k].0);
        lemma_text_at_index(s, e + 1, compact_entry(es[k]));
        assert(s[e + 1 + 0] == compact_entry(es[k])[0]);
        let e2 = e + ps[0].len();
        if k + 1 < es.len() {
            let rest = ps.drop_first();
            assert(rest[0] == seq![','] + compact_entry(es[k + 1]));
            lemma_cat_front(rest);
            lemma_text_at_index(s, e2, cat(rest));
            assert(s[e2 + 0] == cat(rest)[0]);
        }
        lemma_entry_reads(s, e + 1, es, k);
        lemma_inline_entries_read(s, e2, es, k + 1);
        assert(seq![es[k]] + es.subrange(k + 1, es.len() as int) =~= es.subrange(k, es.len() as int));
    }
}

/// A character that may start the content of a line that the serializer
/// wrote.
pub open spec fn content_start(c: char) -> bool {
    c != ' ' && c != '\t' && c != '\n' && c != '\r' && c != ';'
}

/// A line from `a` holds `m` spaces and then content.
pub open spec fn line_starts(s: Seq<char>, a: int, m: int) -> bool {
    0 <= a && 0 <= m && a + m < s.len() && (forall|j: int| a <= j < a + m ==> s[j] == ' ')
        && content_start(s[a + m])
}

/// What may follow a block value at indentation `n`: the end of the text,
/// or a line indented at most `n` (less than `n` where `strict`) that does
/// not start a list item at `n`.
pub open spec fn tail_ok(s: Seq<char>, e: int, n: nat, strict: bool) -> bool {
    e == s.len() || (at(s, e, '\n') && exists|m: nat|
        m <= n && (strict ==> m < n) && #[trigger] line_starts(s, e + 1, m as int) && (m == n
            ==> !(at(s, e + 1 + m, '-') && at(s, e + 2 + m, ' '))))
}

pub open spec fn is_block_table(v: Tree) -> bool {
    v is Mapping && !is_empty_tree(v)
}

proof fn lemma_skip_spaces(s: Seq<char>, a: int, m: int)
    requires
        0 <= a,
        0 <= m,
        a + m < s.len(),
        forall|j: int| a <= j < a + m ==> s[j] == ' ',
        !is_space(s[a + m]),
    ensures
        skip_ws(s, a) == a + m,
    decreases m,
{
    if m > 0 {
        lemma_skip_spaces(s, a + 1, m - 1);
    }
}

/// A line break followed by an indented line of content is one separator.
proof fn lemma_line_break(s: Seq<char>, e: int, m: int)
    requires
        at(s, e, '\n'),
        line_starts(s, e + 1, m),
    ensures
        line_breaks(s, e) == Some(e + 1),
        blank_line(s, e + 1) is None,
{
    lemma_skip_spaces(s, e + 1, m);
    assert(skip_ws(s, e) == e);
}

proof fn lemma_tail_weaken(s: Seq<char>, e: int, n: nat, strict: bool)
    requires
        tail_ok(s, e, n, strict),
    ensures
        tail_ok(s, e, n + 2, true),
        tail_ok(s, e, n + 2, false),
        tail_ok(s, e, n, false),
        stops(s, e),
{
    if e != s.len() {
        let m = choose|m: nat|
            m <= n && (strict ==> m < n) && #[trigger] line_starts(s, e + 1, m as int) && (m == n
                ==> !(at(s, e + 1 + m, '-') && at(s, e + 2 + m, ' ')));
        assert(line_starts(s, e + 1, m as int));
    }
}

/// What follows a block list or table ends it.
proof fn lemma_tail_stops(s: Seq<char>, e: int, n: nat, strict: bool)
    requires
        0 <= e <= s.len(),
        tail_ok(s, e, n, strict),
    ensures
        more_items(s, e, n) == (e, Seq::<Tree>::empty()),
        strict ==> more_entries(s, e, n) == (e, Seq::<(Seq<char>, Tree)>::empty()),
        line_breaks(s, e) is Some,
        stops(s, e),
        skip_ws(s, e) == e,
{
    if e == s.len() {
        assert(blank_line(s, e) is None);
        assert(line_breaks(s, e) == Some(e));
        if n == 0 {
            assert(next_line(s, e, n) == Some(e));
        } else {
            assert(next_line(s, e, n) is None);
        }
    } else {
        let m = choose|m: nat|
            m <= n && (strict ==> m < n) && #[trigger] line_starts(s, e + 1, m as int) && (m == n
                ==> !(at(s, e + 1 + m, '-') && at(s, e + 2 + m, ' ')));
        lemma_line_break(s, e, m as int);
        if m < n {
            assert(indent(s, e + 1, n) is None) by {
                assert(!(s[e + 1 + m] == ' '));
            }
            assert(next_line(s, e, n) is None);
        } else {
            assert(indent(s, e + 1, n) == Some(e + 1 + n));
            assert(next_line(s, e, n) == Some(e + 1 + n));
            assert(list_item(s, e + 1 + n, n) is None);
        }
    }
}

pub open spec fn list_pieces(items: Seq<Tree>, n: nat) -> Seq<Seq<char>> {
    Seq::new(
        items.len(),
        |i: int|
            if i == 0 {
                seq!['-', ' '] + indented(items[0], n + 1)
            } else {
                seq!['\n'] + spaces(n) + seq!['-', ' '] + indented(items[i], n + 1)
            },
    )
}

pub open spec fn line_pieces(es: Seq<(Seq<char>, Tree)>, n: nat) -> Seq<Seq<char>> {
    Seq::new(
        es.len(),
        |i: int|
            if i == 0 {
                entry_text(es[0], n)
            } else {
                seq!['\n'] + spaces(n) + entry_text(es[i], n)
            },
    )
}

pub proof fn lemma_list_lines_cat(items: Seq<Tree>, n: nat)
    ensures
        list_lines(items, n) == cat(list_pieces(items, n)),
    decreases items.len(),
{
    let ps = list_pieces(items, n);
    if items.len() > 1 {
        let sub = items.subrange(0, items.len() - 1);
        lemma_list_lines_cat(sub, n);
        assert(ps.drop_last() =~= list_pieces(sub, n));
        assert(cat(ps) == cat(ps.drop_last()) + ps.last());
        assert(list_lines(sub, n) + seq!['\n'] + spaces(n) + seq!['-', ' '] + indented(
            items[items.len() - 1],
            n + 1,
        ) =~= cat(list_pieces(sub, n)) + ps.last());
    } else if items.len() == 1 {
        assert(ps.drop_last() =~= Seq::<Seq<char>>::empty());
        assert(cat(ps) == cat(ps.drop_last()) + ps.last());
        assert(Seq::<char>::empty() + ps[0] =~= ps[0]);
    } else {
        assert(ps.len() == 0);
    }
}

pub proof fn lemma_entry_lines_cat(es: Seq<(Seq<char>, Tree)>, n: nat)
    ensures
        entry_lines(es, n) == cat(line_pieces(es, n)),
    decreases es.len(),
{
    let ps = line_pieces(es, n);
    if es.len() > 1 {
        let sub = es.subrange(0, es.len() - 1);
        lemma_entry_lines_cat(sub, n);
        assert(ps.drop_last() =~= line_pieces(sub, n));
        assert(cat(ps) == cat(ps.drop_last()) + ps.last());
        assert(entry_lines(sub, n) + seq!['\n'] + spaces(n) + entry_text(es[es.len() - 1], n)
            =~= cat(line_pieces(sub, n)) + ps.last());
    } else if es.len() == 1 {
        assert(ps.drop_last() =~= Seq::<Seq<char>>::empty());
        assert(cat(ps) == cat(ps.drop_last()) + ps.last());
        assert(Seq::<char>::empty() + ps[0] =~= ps[0]);
    } else {
        assert(ps.len() == 0);
    }
}

proof fn lemma_no_scalar_at(s: Seq<char>, p: int)
    requires
        0 <= p < s.len(),
        s[p] == '[' || s[p] == '{' || s[p] == '\n' || s[p] == ' ',
    ensures
        scalar(s, p) is None,
        key_colon(s, p) is None,
{
}

/// A line break, the padding of level `n` and a list item's dash after a
/// block value: a tail for it one level deeper, and where the next item of
/// the list at level `n` starts.
proof fn lemma_item_line(s: Seq<char>, e: int, n: nat, rest: Seq<char>)
    requires
        text_at(s, e, seq!['\n'] + spaces(n) + seq!['-', ' '] + rest),
    ensures
        tail_ok(s, e, (2 * n + 2) as nat, true),
        tail_ok(s, e, (2 * n + 2) as nat, false),
        next_line(s, e, (2 * n) as nat) == Some(e + 1 + 2 * n),
        at(s, e + 1 + 2 * n, '-'),
        at(s, e + 2 + 2 * n, ' '),
        text_at(s, e + 3 + 2 * n, rest),
{
    let w = seq!['\n'] + spaces(n) + seq!['-', ' '] + rest;
    lemma_text_at_index(s, e, w);
    assert(s[e + 0] == w[0]);
    assert(s[e + (1 + 2 * n)] == w[1 + 2 * n as int]);
    assert(s[e + (2 + 2 * n)] == w[2 + 2 * n as int]);
    assert forall|j: int| e + 1 <= j < e + 1 + 2 * n implies s[j] == ' ' by {
        assert(s[e + (j - e)] == w[j - e]);
    }
    assert(line_starts(s, e + 1, 2 * n as int));
    lemma_line_break(s, e, 2 * n as int);
    assert(seq!['\n'] + spaces(n) + seq!['-', ' '] + rest =~= (seq!['\n'] + spaces(n) + seq![
        '-',
        ' ',
    ]) + rest);
    lemma_text_at_split(s, e, seq!['\n'] + spaces(n) + seq!['-', ' '], rest);
}

/// A line break and the padding of level `n` before a table entry: a tail
/// at level `n` and deeper, and where the next entry at level `n` starts.
proof fn lemma_entry_line(s: Seq<char>, e: int, n: nat, kv: (Seq<char>, Tree))
    requires
        text_at(s, e, seq!['\n'] + spaces(n) + entry_text(kv, n)),
    ensures
        tail_ok(s, e, (2 * n) as nat, false),
        tail_ok(s, e, (2 * n + 2) as nat, true),
        tail_ok(s, e, (2 * n + 2) as nat, false),
        next_line(s, e, (2 * n) as nat) == Some(e + 1 + 2 * n),
        text_at(s, e + 1 + 2 * n, entry_text(kv, n)),
{
    let w = seq!['\n'] + spaces(n) + entry_text(kv, n);
    let et = entry_text(kv, n);
    let qk = quoted(kv.0);
    lemma_quoted_shape(kv.0);
    lemma_text_at_index(s, e, w);
    assert(s[e + 0] == w[0]);
    assert(s[e + (1 + 2 * n)] == w[1 + 2 * n as int]);
    assert(w[1 + 2 * n as int] == et[0]);
    assert(et[0] == qk[0]);
    assert(s[e + (2 + 2 * n)] == w[2 + 2 * n as int]);
    if qk.len() > 1 {
        assert(et[1] == qk[1]);
    } else {
        assert(et[1] == ':');
    }
    if qk[0] == '-' && kv.0.len() > 1 {
        assert(qk == kv.0);
    }
    assert forall|j: int| e + 1 <= j < e + 1 + 2 * n implies s[j] == ' ' by {
        assert(s[e + (j - e)] == w[j - e]);
    }
    assert(line_starts(s, e + 1, 2 * n as int));
    lemma_line_break(s, e, 2 * n as int);
    lemma_text_at_split(s, e, seq!['\n'] + spaces(n), et);
}

proof fn lemma_char_at(s: Seq<char>, p: int, t: Seq<char>, i: int)
    requires
        text_at(s, p, t),
        0 <= i < t.len(),
    ensures
        s[p + i] == t[i],
{
    assert(s.subrange(p, p + t.len())[i] == s[p + i]);
}

/// A scalar, or an empty list or table, written at level `n` reads back as
/// itself.
proof fn lemma_flat_reads(s: Seq<char>, p: int, v: Tree, n: nat)
    requires
        well_formed(v),
        v is Scalar || is_empty_tree(v),
        text_at(s, p, indented(v, n)),
        tail_ok(s, p + indented(v, n).len(), (2 * n) as nat, false),
    ensures
        block_value(s, p, (2 * n) as nat) == Some((p + indented(v, n).len(), v)),
{
    let w = indented(v, n);
    let e = p + w.len();
    let nn = (2 * n) as nat;
    lemma_tail_stops(s, e, nn, false);
    assert(w == compact(v)) by {
        match v {
            Tree::Sequence(items) => {
                assert(compact(v) =~= seq!['[', ']']);
            },
            Tree::Mapping(es) => {
                assert(compact(v) =~= seq!['{', '}']);
            },
            _ => {},
        }
    }
    lemma_compact_shape(v);
    lemma_char_at(s, p, w, 0);
    match v {
        Tree::Scalar(t) => {
            lemma_quoted_shape(t);
            if w.len() > 1 {
                lemma_char_at(s, p, w, 1);
                if w[0] == '-' {
                    assert(w == t);
                }
            }
            lemma_scalar_reads(s, p, t);
            assert(key_colon(s, p) is None);
        },
        _ => {
            lemma_no_scalar_at(s, p);
        },
    }
    assert(block_list(s, p, nn) is None);
    assert(table_entry(s, p, nn) is None);
    assert(block_table(s, p, nn) is None);
    assert(block_only(s, p, nn) is None);
    lemma_compact_reads(s, p, v);
}

/// A value written in indented form at level `n` reads back as itself at
/// indentation `2 * n`, where a fitting tail follows it.
pub proof fn lemma_indented_reads(s: Seq<char>, p: int, v: Tree, n: nat)
    requires
        well_formed(v),
        text_at(s, p, indented(v, n)),
        tail_ok(s, p + indented(v, n).len(), (2 * n) as nat, is_block_table(v)),
    ensures
        block_value(s, p, (2 * n) as nat) == Some((p + indented(v, n).len(), v)),
        v is Sequence && !is_empty_tree(v) ==> block_list(s, p, (2 * n) as nat) == Some(
            (p + indented(v, n).len(), v),
        ),
        is_block_table(v) ==> block_list(s, p, (2 * n) as nat) is None && block_only(
            s,
            p,
            (2 * n) as nat,
        ) == Some((p + indented(v, n).len(), v)),
    decreases v, 2int,
{
    let e = p + indented(v, n).len();
    if v is Scalar || is_empty_tree(v) {
        if is_block_table(v) {
        } else {
            lemma_flat_reads(s, p, v, n);
        }
    } else if v is Sequence {
        lemma_list_block_reads(s, p, v, n);
    } else {
        lemma_table_block_reads(s, p, v, n);
    }
}

#[verifier::rlimit(100)]
proof fn lemma_list_block_reads(s: Seq<char>, p: int, v: Tree, n: nat)
    requires
        v is Sequence,
        !is_empty_tree(v),
        well_formed(v),
        text_at(s, p, indented(v, n)),
        tail_ok(s, p + indented(v, n).len(), (2 * n) as nat, false),
    ensures
        block_list(s, p, (2 * n) as nat) == Some((p + indented(v, n).len(), v)),
        block_value(s, p, (2 * n) as nat) == Some((p + indented(v, n).len(), v)),
    decreases v, 1int,
{
    let items = v->Sequence_0;
    let e = p + indented(v, n).len();
    let nn = (2 * n) as nat;
    let ps = list_pieces(items, n);
    lemma_list_lines_cat(items, n);
    lemma_cat_front(ps);
    lemma_text_at_split(s, p, ps[0], cat(ps.drop_first()));
    lemma_text_at_split(s, p, seq!['-', ' '], indented(items[0], n + 1));
    lemma_char_at(s, p, ps[0], 0);
    lemma_char_at(s, p, ps[0], 1);
    let e0 = p + ps[0].len();
    if items.len() > 1 {
        assert(ps.drop_first()[0] == ps[1]);
        lemma_cat_front(ps.drop_first());
        lemma_text_at_split(s, e0, ps[1], cat(ps.drop_first().drop_first()));
        lemma_item_line(s, e0, n, indented(items[1], n + 1));
    } else {
        assert(ps.drop_first() =~= Seq::<Seq<char>>::empty());
        lemma_tail_weaken(s, e, nn, false);
    }
    let t = v;
    assert(decreases_to!(t => t->Sequence_0));
    assert(decreases_to!(items => items[0]));
    assert((2 * (n + 1)) as nat == nn + 2);
    lemma_indented_reads(s, p + 2, items[0], n + 1);
    assert(list_item(s, p, nn) == Some((e0, items[0])));
    assert(ps.drop_first() =~= ps.subrange(1, ps.len() as int));
    lemma_more_items_read(s, e0, items, n, 1);
    assert(seq![items[0]] + items.subrange(1, items.len() as int) =~= items);
}

#[verifier::rlimit(100)]
proof fn lemma_table_block_reads(s: Seq<char>, p: int, v: Tree, n: nat)
    requires
        is_block_table(v),
        well_formed(v),
        text_at(s, p, indented(v, n)),
        tail_ok(s, p + indented(v, n).len(), (2 * n) as nat, true),
    ensures
        block_list(s, p, (2 * n) as nat) is None,
        block_only(s, p, (2 * n) as nat) == Some((p + indented(v, n).len(), v)),
        block_value(s, p, (2 * n) as nat) == Some((p + indented(v, n).len(), v)),
    decreases v, 1int,
{
    let es = v->Mapping_0;
    let e = p + indented(v, n).len();
    let nn = (2 * n) as nat;
    let ps = line_pieces(es, n);
    lemma_entry_lines_cat(es, n);
    lemma_cat_front(ps);
    lemma_text_at_split(s, p, ps[0], cat(ps.drop_first()));
    let e0 = p + ps[0].len();
    let qk = quoted(es[0].0);
    lemma_quoted_shape(es[0].0);
    lemma_char_at(s, p, ps[0], 0);
    assert(ps[0][0] == qk[0]);
    if qk.len() > 1 {
        lemma_char_at(s, p, ps[0], 1);
        assert(ps[0][1] == qk[1]);
        if qk[0] == '-' {
            assert(qk == es[0].0);
        }
    } else {
        lemma_char_at(s, p, ps[0], 1);
        assert(ps[0][1] == ':');
    }
    assert(list_item(s, p, nn) is None);
    if es.len() > 1 {
        assert(ps.drop_first()[0] == ps[1]);
        lemma_cat_front(ps.drop_first());
        lemma_text_at_split(s, e0, ps[1], cat(ps.drop_first().drop_first()));
        lemma_entry_line(s, e0, n, es[1]);
    } else {
        assert(ps.drop_first() =~= Seq::<Seq<char>>::empty());
        lemma_tail_weaken(s, e, nn, true);
    }
    let t = v;
    assert(decreases_to!(t => t->Mapping_0));
    lemma_entry_block_reads(s, p, es, 0, n);
    assert(ps.drop_first() =~= ps.subrange(1, ps.len() as int));
    lemma_more_entries_read(s, e0, es, n, 1);
    assert(seq![es[0]] + es.subrange(1, es.len() as int) =~= es);
    lemma_first_wins_distinct(es);
}

#[verifier::rlimit(100)]
proof fn lemma_more_items_read(s: Seq<char>, e: int, items: Seq<Tree>, n: nat, k: int)
    requires
        1 <= k <= items.len(),
        forall|j: int| 0 <= j < items.len() ==> well_formed(#[trigger] items[j]),
        text_at(s, e, cat(list_pieces(items, n).subrange(k, items.len() as int))),
        tail_ok(
            s,
            e + cat(list_pieces(items, n).subrange(k, items.len() as int)).len(),
            (2 * n) as nat,
            false,
        ),
    ensures
        more_items(s, e, (2 * n) as nat) == (
            e + cat(list_pieces(items, n).subrange(k, items.len() as int)).len(),
            items.subrange(k, items.len() as int),
        ),
    decreases items, items.len() - k,
{
    let ps = list_pieces(items, n).subrange(k, items.len() as int);
    let nn = (2 * n) as nat;
    if k == items.len() {
        assert(ps =~= Seq::<Seq<char>>::empty());
        assert(items.subrange(k, items.len() as int) =~= Seq::<Tree>::empty());
        lemma_tail_stops(s, e, nn, false);
    } else {
        lemma_cat_front(ps);
        let iv = indented(items[k], n + 1);
        assert(ps[0] == seq!['\n'] + spaces(n) + seq!['-', ' '] + iv);
        assert(ps[0].len() == 3 + 2 * n + iv.len());
        assert(ps.drop_first() =~= list_pieces(items, n).subrange(k + 1, items.len() as int));
        lemma_text_at_split(s, e, ps[0], cat(ps.drop_first()));
        lemma_item_line(s, e, n, iv);
        let q = e + 1 + 2 * n;
        let e2 = e + ps[0].len();
        if k + 1 < items.len() {
            let rest = ps.drop_first();
            assert(rest[0] == seq!['\n'] + spaces(n) + seq!['-', ' '] + indented(items[k + 1], n + 1));
            lemma_cat_front(rest);
            lemma_text_at_split(s, e2, rest[0], cat(rest.drop_first()));
            lemma_item_line(s, e2, n, indented(items[k + 1], n + 1));
        } else {
            assert(ps.drop_first() =~= Seq::<Seq<char>>::empty());
            lemma_tail_weaken(s, e2, nn, false);
        }
        assert(decreases_to!(items => items[k]));
        assert((2 * (n + 1)) as nat == nn + 2);
        lemma_indented_reads(s, q + 2, items[k], n + 1);
        assert(list_item(s, q, nn) == Some((e2, items[k])));
        lemma_more_items_read(s, e2, items, n, k + 1);
        assert(seq![items[k]] + items.subrange(k + 1, items.len() as int) =~= items.subrange(
            k,
            items.len() as int,
        ));
    }
}

proof fn lemma_more_entries_read(s: Seq<char>, e: int, es: Seq<(Seq<char>, Tree)>, n: nat, k: int)
    requires
        1 <= k <= es.len(),
        forall|j: int| 0 <= j < es.len() ==> well_formed(#[trigger] es[j].1),
        text_at(s, e, cat(line_pieces(es, n).subrange(k, es.len() as int))),
        tail_ok(
            s,
            e + cat(line_pieces(es, n).subrange(k, es.len() as int)).len(),
            (2 * n) as nat,
            true,
        ),
    ensures
        more_entries(s, e, (2 * n) as nat) == (
            e + cat(line_pieces(es, n).subrange(k, es.len() as int)).len(),
            es.subrange(k, es.len() as int),
        ),
    decreases es, es.len() - k + 3,
{
    let ps = line_pieces(es, n).subrange(k, es.len() as int);
    let nn = (2 * n) as nat;
    if k == es.len() {
        assert(ps =~= Seq::<Seq<char>>::empty());
        assert(es.subrange(k, es.len() as int) =~= Seq::<(Seq<char>, Tree)>::empty());
        lemma_tail_stops(s, e, nn, true);
    } else {
        let e2 = lemma_more_entries_head(s, e, es, n, k);
        lemma_more_entries_read(s, e2, es, n, k + 1);
        assert(seq![es[k]] + es.subrange(k + 1, es.len() as int) =~= es.subrange(k, es.len() as int));
    }
}

/// The first of the remaining entries: it reads back, and the others
/// follow where it ends.
#[verifier::rlimit(100)]
proof fn lemma_more_entries_head(s: Seq<char>, e: int, es: Seq<(Seq<char>, Tree)>, n: nat, k: int) -> (e2: int)
    requires
        1 <= k < es.len(),
        forall|j: int| 0 <= j < es.len() ==> well_formed(#[trigger] es[j].1),
        text_at(s, e, cat(line_pieces(es, n).subrange(k, es.len() as int))),
        tail_ok(
            s,
            e + cat(line_pieces(es, n).subrange(k, es.len() as int)).len(),
            (2 * n) as nat,
            true,
        ),
    ensures
        text_at(s, e2, cat(line_pieces(es, n).subrange(k + 1, es.len() as int))),
        e2 + cat(line_pieces(es, n).subrange(k + 1, es.len() as int)).len() == e + cat(
            line_pieces(es, n).subrange(k, es.len() as int),
        ).len(),
        e < e2 <= s.len(),
        more_entries(s, e, (2 * n) as nat) == (
            more_entries(s, e2, (2 * n) as nat).0,
            seq![es[k]] + more_entries(s, e2, (2 * n) as nat).1,
        ),
    decreases es, es.len() - k + 2,
{
    let ps = line_pieces(es, n).subrange(k, es.len() as int);
    let nn = (2 * n) as nat;
    lemma_cat_front(ps);
    assert(ps[0] == seq!['\n'] + spaces(n) + entry_text(es[k], n));
    assert(ps.drop_first() =~= line_pieces(es, n).subrange(k + 1, es.len() as int));
    lemma_text_at_split(s, e, ps[0], cat(ps.drop_first()));
    lemma_entry_line(s, e, n, es[k]);
    let q = e + 1 + 2 * n;
    let e2 = e + ps[0].len();
    if k + 1 < es.len() {
        let rest = ps.drop_first();
        assert(rest[0] == seq!['\n'] + spaces(n) + entry_text(es[k + 1], n));
        lemma_cat_front(rest);
        lemma_text_at_split(s, e2, rest[0], cat(rest.drop_first()));
        lemma_entry_line(s, e2, n, es[k + 1]);
    } else {
        assert(ps.drop_first() =~= Seq::<Seq<char>>::empty());
        lemma_tail_weaken(s, e2, nn, true);
    }
    lemma_entry_block_reads(s, q, es, k, n);
    e2
}

/// What follows the key of an entry written at level `n`.
pub open spec fn entry_tail(v: Tree, n: nat) -> Seq<char> {
    if v is Scalar || is_empty_tree(v) {
        seq![' '] + compact(v)
    } else if v is Sequence {
        seq!['\n'] + spaces(n) + indented(v, n)
    } else {
        seq!['\n'] + spaces(n + 1) + indented(v, n + 1)
    }
}

/// An entry of a table written at level `n` reads back as itself.
#[verifier::rlimit(100)]
proof fn lemma_entry_block_reads(s: Seq<char>, p: int, es: Seq<(Seq<char>, Tree)>, i: int, n: nat)
    requires
        0 <= i < es.len(),
        well_formed(es[i].1),
        text_at(s, p, entry_text(es[i], n)),
        tail_ok(s, p + entry_text(es[i], n).len(), (2 * n) as nat, false),
    ensures
        table_entry(s, p, (2 * n) as nat) == Some((p + entry_text(es[i], n).len(), es[i])),
    decreases es, 1int,
{
    let (k, v) = es[i];
    let qk = quoted(k);
    let nn = (2 * n) as nat;
    let w = entry_text(es[i], n);
    let e = p + w.len();
    let tail = entry_tail(v, n);
    assert(w == qk + seq![':'] + tail);
    lemma_text_at_split(s, p, qk + seq![':'], tail);
    lemma_text_at_split(s, p, qk, seq![':']);
    lemma_char_at(s, p + qk.len(), seq![':'], 0);
    lemma_scalar_reads(s, p, k);
    let q = p + qk.len() + 1;
    assert(key_colon(s, p) == Some((q, k)));
    lemma_entry_value_reads(s, q, es, i, n);
    assert(nest(Seq::<Seq<char>>::empty(), v) == v);
}

proof fn lemma_entry_value_reads(s: Seq<char>, q: int, es: Seq<(Seq<char>, Tree)>, i: int, n: nat)
    requires
        0 <= i < es.len(),
        well_formed(es[i].1),
        text_at(s, q, entry_tail(es[i].1, n)),
        tail_ok(s, q + entry_tail(es[i].1, n).len(), (2 * n) as nat, false),
    ensures
        more_keys(s, q) == (q, Seq::<Seq<char>>::empty()),
        entry_value(s, q, (2 * n) as nat) == Some((q + entry_tail(es[i].1, n).len(), es[i].1)),
    decreases es, 0int,
{
    let v = es[i].1;
    assert(decreases_to!(es => es[i]));
    assert(decreases_to!(es[i] => es[i].1));
    if v is Scalar || is_empty_tree(v) {
        lemma_flat_value_reads(s, q, v, n);
    } else if v is Sequence {
        lemma_list_value_reads(s, q, v, n);
    } else {
        lemma_table_value_reads(s, q, v, n);
    }
}

#[verifier::rlimit(100)]
proof fn lemma_flat_value_reads(s: Seq<char>, q: int, v: Tree, n: nat)
    requires
        v is Scalar || is_empty_tree(v),
        well_formed(v),
        text_at(s, q, entry_tail(v, n)),
        tail_ok(s, q + entry_tail(v, n).len(), (2 * n) as nat, false),
    ensures
        more_keys(s, q) == (q, Seq::<Seq<char>>::empty()),
        entry_value(s, q, (2 * n) as nat) == Some((q + entry_tail(v, n).len(), v)),
{
    let nn = (2 * n) as nat;
    let tail = entry_tail(v, n);
    let e = q + tail.len();
    lemma_tail_stops(s, e, nn, false);
    lemma_char_at(s, q, tail, 0);
    lemma_compact_shape(v);
    lemma_char_at(s, q, tail, 1);
    lemma_text_at_split(s, q, seq![' '], compact(v));
    lemma_skip_spaces(s, q, 1);
    match v {
        Tree::Scalar(t) => {
            lemma_scalar_reads(s, q + 1, t);
        },
        _ => {
            lemma_no_scalar_at(s, q + 1);
        },
    }
    assert(key_colon(s, q + 1) is None);
    assert(blank_line(s, q) is None);
    lemma_compact_reads(s, q + 1, v);
}

#[verifier::rlimit(100)]
proof fn lemma_list_value_reads(s: Seq<char>, q: int, v: Tree, n: nat)
    requires
        v is Sequence,
        !is_empty_tree(v),
        well_formed(v),
        text_at(s, q, entry_tail(v, n)),
        tail_ok(s, q + entry_tail(v, n).len(), (2 * n) as nat, false),
    ensures
        more_keys(s, q) == (q, Seq::<Seq<char>>::empty()),
        entry_value(s, q, (2 * n) as nat) == Some((q + entry_tail(v, n).len(), v)),
    decreases v, 3int,
{
    let nn = (2 * n) as nat;
    let tail = entry_tail(v, n);
    lemma_char_at(s, q, tail, 0);
    lemma_no_scalar_at(s, q);
    let iv = indented(v, n);
    let rest_v = iv.subrange(2, iv.len() as int);
    let items = v->Sequence_0;
    let ps = list_pieces(items, n);
    lemma_list_lines_cat(items, n);
    lemma_cat_front(ps);
    assert(iv =~= seq!['-', ' '] + rest_v);
    assert(tail =~= seq!['\n'] + spaces(n) + seq!['-', ' '] + rest_v);
    lemma_item_line(s, q, n, rest_v);
    lemma_text_at_split(s, q, seq!['\n'] + spaces(n), iv);
    lemma_indented_reads(s, q + 1 + 2 * n, v, n);
    assert(indent(s, q + 1, nn) == Some(q + 1 + 2 * n));
}

#[verifier::rlimit(100)]
proof fn lemma_table_value_reads(s: Seq<char>, q: int, v: Tree, n: nat)
    requires
        is_block_table(v),
        well_formed(v),
        text_at(s, q, entry_tail(v, n)),
        tail_ok(s, q + entry_tail(v, n).len(), (2 * n) as nat, false),
    ensures
        more_keys(s, q) == (q, Seq::<Seq<char>>::empty()),
        entry_value(s, q, (2 * n) as nat) == Some((q + entry_tail(v, n).len(), v)),
    decreases v, 3int,
{
    let nn = (2 * n) as nat;
    let tail = entry_tail(v, n);
    let e = q + tail.len();
    lemma_char_at(s, q, tail, 0);
    lemma_no_scalar_at(s, q);
    let et = indented(v, n + 1);
    let es2 = v->Mapping_0;
    let ps = line_pieces(es2, n + 1);
    lemma_entry_lines_cat(es2, n + 1);
    lemma_cat_front(ps);
    lemma_quoted_shape(es2[0].0);
    assert(et[0] == quoted(es2[0].0)[0]);
    assert(tail =~= seq!['\n'] + spaces(n + 1) + et);
    assert forall|j: int| q + 1 <= j < q + 3 + 2 * n implies s[j] == ' ' by {
        lemma_char_at(s, q, tail, j - q);
    }
    lemma_char_at(s, q, tail, 3 + 2 * n as int);
    assert(line_starts(s, q + 1, 2 * n as int + 2));
    lemma_line_break(s, q, 2 * n as int + 2);
    assert(indent(s, q + 1, nn) == Some(q + 1 + 2 * n));
    assert(s[q + 1 + 2 * n] == ' ');
    assert(block_list(s, q + 1 + 2 * n, nn) is None);
    assert(indent(s, q + 1, nn + 2) == Some(q + 3 + 2 * n));
    lemma_text_at_split(s, q, seq!['\n'] + spaces(n + 1), et);
    lemma_tail_weaken(s, e, nn, false);
    assert((2 * (n + 1)) as nat == nn + 2);
    lemma_indented_reads(s, q + 3 + 2 * n, v, n + 1);
}

} // verus!
