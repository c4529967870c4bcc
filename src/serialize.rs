//! Rendering values as SYML text, compact on one line or indented on many.
use vstd::prelude::*;
use vstd::string::StringExecFns;
use crate::grammar::is_bare;
use crate::parser::{chars_of, push_char, is_bare_word};
use crate::value::{
    Tree, Value, Table, tree_of, trees_of, entries_of, lemma_trees_of_index, is_empty_tree,
};

verus! {

/// How many characters `char::escape_debug` gives for a character.
pub uninterp spec fn debug_escape_len(c: char) -> nat;

/// Relies on char::escape_debug: the length of the escaped form of `c`,
/// which is 1 where the character is shown as itself.
#[verifier::external_body]
fn escape_debug_len(c: char) -> (r: usize)
    ensures
        r as nat == debug_escape_len(c),
{
    c.escape_debug().len()
}

/// The letter of a short escape: `\n`, `\r`, `\t`, `\\` and `\"`.
pub open spec fn short_escape(c: char) -> Option<char> {
    if c == '\n' {
        Some('n')
    } else if c == '\r' {
        Some('r')
    } else if c == '\t' {
        Some('t')
    } else if c == '\\' {
        Some('\\')
    } else if c == '"' {
        Some('"')
    } else {
        None
    }
}

/// A character that quotes show as itself: one with no short escape, not
/// `'`, and shown as itself by Rust's debug escaping.
pub open spec fn prints_plain(c: char) -> bool {
    short_escape(c) is None && c != '\'' && debug_escape_len(c) == 1
}

/// A character that may stand as itself between single quotes.
pub open spec fn single_quotable(c: char) -> bool {
    c == '"' || prints_plain(c)
}

pub open spec fn hex_char(d: nat) -> char {
    if d < 10 {
        ('0' as nat + d) as char
    } else {
        ('a' as nat + d - 10) as char
    }
}

/// The `w` lowest hex digits of `n`, in lower case, the highest first.
pub open spec fn hex_digits(n: nat, w: nat) -> Seq<char>
    decreases w,
{
    if w == 0 {
        Seq::empty()
    } else {
        hex_digits(n / 16, (w - 1) as nat).push(hex_char(n % 16))
    }
}

/// How many hex digits `n` has, at least one.
pub open spec fn hex_width(n: nat) -> nat
    decreases n,
{
    if n < 16 {
        1
    } else {
        1 + hex_width(n / 16)
    }
}

/// A character as it stands between double quotes.
pub open spec fn escaped(c: char) -> Seq<char> {
    let n = c as nat;
    if c == '\'' {
        seq![c]
    } else if short_escape(c) is Some {
        seq!['\\', short_escape(c)->0]
    } else if debug_escape_len(c) == 1 {
        seq![c]
    } else if n < 0x100 {
        seq!['\\', 'x'] + hex_digits(n, 2)
    } else if n < 0x10000 {
        seq!['\\', 'u'] + hex_digits(n, 4)
    } else {
        seq!['\\', 'u', '{'] + hex_digits(n, hex_width(n)) + seq!['}']
    }
}

/// The characters of a text, each as it stands between double quotes.
pub open spec fn escape_all(t: Seq<char>) -> Seq<char>
    decreases t.len(),
{
    if t.len() == 0 {
        Seq::empty()
    } else {
        escape_all(t.drop_last()) + escaped(t.last())
    }
}

/// A scalar's text as written: `''` when empty, bare when it is one bare
/// word, between single quotes when every character may stand there, and
/// else between double quotes with escapes.
pub open spec fn quoted(t: Seq<char>) -> Seq<char> {
    if t.len() == 0 {
        seq!['\'', '\'']
    } else if is_bare(t) {
        t
    } else if forall|i: int| 0 <= i < t.len() ==> single_quotable(#[trigger] t[i]) {
        seq!['\''] + t + seq!['\'']
    } else {
        seq!['"'] + escape_all(t) + seq!['"']
    }
}

/// The compact form: one line, `[a,b]` and `{k:v}`.
pub open spec fn compact(v: Tree) -> Seq<char>
    decreases v,
{
    match v {
        Tree::Scalar(t) => quoted(t),
        Tree::Sequence(items) => seq!['['] + compact_items(items) + seq![']'],
        Tree::Mapping(es) => seq!['{'] + compact_entries(es) + seq!['}'],
    }
}

/// List items in compact form, separated by commas.
pub open spec fn compact_items(items: Seq<Tree>) -> Seq<char>
    decreases items,
{
    if items.len() == 0 {
        Seq::empty()
    } else if items.len() == 1 {
        compact(items[0])
    } else {
        compact_items(items.subrange(0, items.len() - 1)) + seq![','] + compact(items[items.len() - 1])
    }
}

/// One entry in compact form: `k:v`.
pub open spec fn compact_entry(kv: (Seq<char>, Tree)) -> Seq<char>
    decreases kv,
{
    quoted(kv.0) + seq![':'] + compact(kv.1)
}

/// Table entries in compact form, separated by commas.
pub open spec fn compact_entries(es: Seq<(Seq<char>, Tree)>) -> Seq<char>
    decreases es,
{
    if es.len() == 0 {
        Seq::empty()
    } else if es.len() == 1 {
        compact_entry(es[0])
    } else {
        compact_entries(es.subrange(0, es.len() - 1)) + seq![','] + compact_entry(es[es.len() - 1])
    }
}

/// Two spaces for each level of indentation.
pub open spec fn spaces(n: nat) -> Seq<char> {
    Seq::new(2 * n, |i: int| ' ')
}

/// The indented form at level `n`, which starts where the cursor stands;
/// empty lists and tables, and all scalars, stay compact.
pub open spec fn indented(v: Tree, n: nat) -> Seq<char>
    decreases v,
{
    match v {
        Tree::Scalar(t) => quoted(t),
        Tree::Sequence(items) => if items.len() == 0 {
            seq!['[', ']']
        } else {
            list_lines(items, n)
        },
        Tree::Mapping(es) => if es.len() == 0 {
            seq!['{', '}']
        } else {
            entry_lines(es, n)
        },
    }
}

/// The items of a list at level `n`, each behind `- `, each after the first
/// on a line of its own.
pub open spec fn list_lines(items: Seq<Tree>, n: nat) -> Seq<char>
    decreases items,
{
    if items.len() == 0 {
        Seq::empty()
    } else if items.len() == 1 {
        seq!['-', ' '] + indented(items[0], n + 1)
    } else {
        list_lines(items.subrange(0, items.len() - 1), n) + seq!['\n'] + spaces(n) + seq!['-', ' ']
            + indented(items[items.len() - 1], n + 1)
    }
}

/// One entry of a table at level `n`: a scalar or an empty value follows
/// on the key's line; a list starts on the next line at the key's level,
/// a table on the next line one level deeper.
pub open spec fn entry_text(kv: (Seq<char>, Tree), n: nat) -> Seq<char>
    decreases kv,
{
    let v = kv.1;
    quoted(kv.0) + seq![':'] + if v is Scalar || is_empty_tree(v) {
        seq![' '] + compact(v)
    } else if v is Sequence {
        seq!['\n'] + spaces(n) + indented(v, n)
    } else {
        seq!['\n'] + spaces(n + 1) + indented(v, n + 1)
    }
}

/// The entries of a table at level `n`, each after the first on a line of
/// its own.
pub open spec fn entry_lines(es: Seq<(Seq<char>, Tree)>, n: nat) -> Seq<char>
    decreases es,
{
    if es.len() == 0 {
        Seq::empty()
    } else if es.len() == 1 {
        entry_text(es[0], n)
    } else {
        entry_lines(es.subrange(0, es.len() - 1), n) + seq!['\n'] + spaces(n) + entry_text(
            es[es.len() - 1],
            n,
        )
    }
}

fn push_chars(out: &mut String, cs: &Vec<char>)
    ensures
        final(out)@ == old(out)@ + cs@,
{
    let mut i: usize = 0;
    while i < cs.len()
        invariant
            i <= cs.len(),
            out@ == old(out)@ + cs@.take(i as int),
        decreases cs.len() - i,
    {
        push_char(out, cs[i]);
        i += 1;
        assert(out@ =~= old(out)@ + cs@.take(i as int));
    }
    assert(cs@.take(i as int) =~= cs@);
}

fn hex_char_of(d: u32) -> (r: char)
    requires
        d < 16,
    ensures
        r == hex_char(d as nat),
{
    if d < 10 {
        ('0' as u8 + d as u8) as char
    } else {
        ('a' as u8 + (d - 10) as u8) as char
    }
}

fn write_hex(n: u32, w: usize, out: &mut String)
    ensures
        final(out)@ == old(out)@ + hex_digits(n as nat, w as nat),
    decreases w,
{
    if w > 0 {
        write_hex(n / 16, w - 1, out);
        let ghost mid = out@;
        push_char(out, hex_char_of(n % 16));
        assert(out@ =~= old(out)@ + hex_digits(n as nat, w as nat));
    } else {
        assert(out@ =~= old(out)@ + hex_digits(n as nat, w as nat));
    }
}

fn hex_width_of(n: u32) -> (r: usize)
    ensures
        r as nat == hex_width(n as nat),
        r <= n as nat + 1,
    decreases n,
{
    if n < 16 {
        1
    } else {
        1 + hex_width_of(n / 16)
    }
}

fn write_escaped(c: char, out: &mut String)
    ensures
        final(out)@ == old(out)@ + escaped(c),
{
    let n = c as u32;
    if c == '\'' {
        push_char(out, c);
    } else if c == '\n' || c == '\r' || c == '\t' || c == '\\' || c == '"' {
        let e = if c == '\n' {
            'n'
        } else if c == '\r' {
            'r'
        } else if c == '\t' {
            't'
        } else {
            c
        };
        push_char(out, '\\');
        push_char(out, e);
    } else if escape_debug_len(c) == 1 {
        push_char(out, c);
    } else if n < 0x100 {
        push_char(out, '\\');
        push_char(out, 'x');
        write_hex(n, 2, out);
    } else if n < 0x10000 {
        push_char(out, '\\');
        push_char(out, 'u');
        write_hex(n, 4, out);
    } else {
        push_char(out, '\\');
        push_char(out, 'u');
        push_char(out, '{');
        let w = hex_width_of(n);
        write_hex(n, w, out);
        push_char(out, '}');
    }
    assert(out@ =~= old(out)@ + escaped(c));
}

/// Writes a scalar's text, quoted as its characters require.
pub fn write_scalar(t: &String, out: &mut String)
    ensures
        final(out)@ == old(out)@ + quoted(t@),
{
    let cs = chars_of(t.as_str());
    if cs.len() == 0 {
        push_char(out, '\'');
        push_char(out, '\'');
        assert(out@ =~= old(out)@ + quoted(t@));
        return ;
    }
    if is_bare_word(&cs) {
        push_chars(out, &cs);
        return ;
    }
    let mut single = true;
    let mut i: usize = 0;
    while i < cs.len()
        invariant
            i <= cs.len(),
            single <==> forall|j: int| 0 <= j < i ==> single_quotable(#[trigger] cs@[j]),
        decreases cs.len() - i,
    {
        let c = cs[i];
        let ok = c == '"' || (c != '\n' && c != '\r' && c != '\t' && c != '\\' && c != '\''
            && escape_debug_len(c) == 1);
        if !ok {
            single = false;
        }
        i += 1;
    }
    if single {
        push_char(out, '\'');
        push_chars(out, &cs);
        push_char(out, '\'');
        assert(out@ =~= old(out)@ + quoted(t@));
    } else {
        push_char(out, '"');
        let ghost start = out@;
        let mut k: usize = 0;
        while k < cs.len()
            invariant
                k <= cs.len(),
                out@ == start + escape_all(cs@.take(k as int)),
            decreases cs.len() - k,
        {
            proof {
                assert(cs@.take(k + 1).drop_last() =~= cs@.take(k as int));
            }
            write_escaped(cs[k], out);
            k += 1;
            assert(out@ =~= start + escape_all(cs@.take(k as int)));
        }
        push_char(out, '"');
        assert(cs@.take(k as int) =~= cs@);
        assert(out@ =~= old(out)@ + quoted(t@));
    }
}

proof fn lemma_compact_items_step(items: Seq<Tree>, i: int)
    requires
        0 <= i < items.len(),
    ensures
        compact_items(items.take(i + 1)) == if i == 0 {
            compact(items[0])
        } else {
            compact_items(items.take(i)) + seq![','] + compact(items[i])
        },
{
    assert(items.take(i + 1).subrange(0, i) =~= items.take(i));
}

proof fn lemma_compact_entries_step(es: Seq<(Seq<char>, Tree)>, i: int)
    requires
        0 <= i < es.len(),
    ensures
        compact_entries(es.take(i + 1)) == if i == 0 {
            compact_entry(es[0])
        } else {
            compact_entries(es.take(i)) + seq![','] + compact_entry(es[i])
        },
{
    assert(es.take(i + 1).subrange(0, i) =~= es.take(i));
}

/// Writes a value in compact form.
pub fn write_compact(v: &Value, out: &mut String)
    ensures
        final(out)@ == old(out)@ + compact(tree_of(*v)),
    decreases tree_of(*v), 1int,
{
    match v {
        Value::String(t) => write_scalar(t, out),
        Value::Array(a) => {
            proof {
                let t = tree_of(*v);
                assert(decreases_to!(t => t->Sequence_0));
            }
            write_compact_list(a, out);
        },
        Value::Table(t) => {
            proof {
                let tr = tree_of(*v);
                assert(decreases_to!(tr => tr->Mapping_0));
            }
            write_compact_table(t, out);
        },
    }
}

/// Writes a list in compact form: `[a,b]`.
pub fn write_compact_list(a: &Vec<Value>, out: &mut String)
    ensures
        final(out)@ == old(out)@ + compact(Tree::Sequence(trees_of(a@))),
    decreases trees_of(a@), 0int,
{
    push_char(out, '[');
    let ghost start = out@;
    let ghost ts = trees_of(a@);
    proof {
        lemma_trees_of_index(a@);
    }
    let mut i: usize = 0;
    while i < a.len()
        invariant
            i <= a.len(),
            ts == trees_of(a@),
            ts.len() == a@.len(),
            forall|j: int| 0 <= j < a@.len() ==> #[trigger] ts[j] == tree_of(a@[j]),
            out@ == start + compact_items(ts.take(i as int)),
        decreases a.len() - i,
    {
        proof {
            lemma_compact_items_step(ts, i as int);
            assert(decreases_to!(ts => ts[i as int]));
        }
        if i > 0 {
            push_char(out, ',');
        }
        write_compact(&a[i], out);
        i += 1;
        assert(out@ =~= start + compact_items(ts.take(i as int)));
    }
    push_char(out, ']');
    assert(ts.take(i as int) =~= ts);
    assert(out@ =~= old(out)@ + compact(Tree::Sequence(trees_of(a@))));
}

/// Writes a table in compact form: `{k:v,...}`.
pub fn write_compact_table(t: &Table, out: &mut String)
    ensures
        final(out)@ == old(out)@ + compact(Tree::Mapping(entries_of(*t))),
    decreases entries_of(*t), 0int,
{
    push_char(out, '{');
    let ghost start = out@;
    let ghost es = entries_of(*t);
    let pairs = t.pairs();
    let mut i: usize = 0;
    while i < pairs.len()
        invariant
            i <= pairs.len(),
            es == entries_of(*t),
            pairs@.len() == es.len(),
            forall|j: int|
                0 <= j < pairs@.len() ==> (#[trigger] pairs@[j]).0@ == es[j].0 && tree_of(
                    *pairs@[j].1,
                ) == es[j].1,
            out@ == start + compact_entries(es.take(i as int)),
        decreases pairs.len() - i,
    {
        proof {
            lemma_compact_entries_step(es, i as int);
            let kv = es[i as int];
            assert(decreases_to!(es => kv));
            assert(decreases_to!(kv => kv.1));
        }
        if i > 0 {
            push_char(out, ',');
        }
        let (k, v) = pairs[i];
        write_scalar(k, out);
        push_char(out, ':');
        write_compact(v, out);
        i += 1;
        assert(out@ =~= start + compact_entries(es.take(i as int)));
    }
    push_char(out, '}');
    assert(es.take(i as int) =~= es);
    assert(out@ =~= old(out)@ + compact(Tree::Mapping(entries_of(*t))));
}

/// The padding of the next level: two more spaces.
fn deeper(pad: &String, Ghost(n): Ghost<nat>) -> (r: String)
    requires
        pad@ == spaces(n),
    ensures
        r@ == spaces(n + 1),
{
    let mut r = pad.clone();
    push_char(&mut r, ' ');
    push_char(&mut r, ' ');
    assert(r@ =~= spaces(n + 1));
    r
}

/// Appends the indentation of level `indent`: two spaces a level.
pub fn do_indent(out: &mut String, indent: usize)
    ensures
        final(out)@ == old(out)@ + spaces(indent as nat),
{
    let mut i: usize = 0;
    while i < indent
        invariant
            i <= indent,
            out@ == old(out)@ + spaces(i as nat),
        decreases indent - i,
    {
        push_char(out, ' ');
        push_char(out, ' ');
        i += 1;
        assert(out@ =~= old(out)@ + spaces(i as nat));
    }
}

/// The padding of level `n`.
fn padding(n: usize) -> (r: String)
    ensures
        r@ == spaces(n as nat),
{
    let mut r = String::new();
    do_indent(&mut r, n);
    assert(r@ =~= spaces(n as nat));
    r
}

proof fn lemma_list_lines_step(items: Seq<Tree>, i: int, n: nat)
    requires
        0 <= i < items.len(),
    ensures
        list_lines(items.take(i + 1), n) == if i == 0 {
            seq!['-', ' '] + indented(items[0], n + 1)
        } else {
            list_lines(items.take(i), n) + seq!['\n'] + spaces(n) + seq!['-', ' '] + indented(
                items[i],
                n + 1,
            )
        },
{
    assert(items.take(i + 1).subrange(0, i) =~= items.take(i));
}

proof fn lemma_entry_lines_step(es: Seq<(Seq<char>, Tree)>, i: int, n: nat)
    requires
        0 <= i < es.len(),
    ensures
        entry_lines(es.take(i + 1), n) == if i == 0 {
            entry_text(es[0], n)
        } else {
            entry_lines(es.take(i), n) + seq!['\n'] + spaces(n) + entry_text(es[i], n)
        },
{
    assert(es.take(i + 1).subrange(0, i) =~= es.take(i));
}

/// Writes a value in indented form at the level whose padding is `pad`.
fn write_indented(v: &Value, pad: &String, Ghost(n): Ghost<nat>, out: &mut String)
    requires
        pad@ == spaces(n),
    ensures
        final(out)@ == old(out)@ + indented(tree_of(*v), n),
    decreases tree_of(*v), 1int,
{
    match v {
        Value::String(t) => write_scalar(t, out),
        Value::Array(a) => {
            proof {
                let t = tree_of(*v);
                assert(decreases_to!(t => t->Sequence_0));
            }
            write_indented_list(a, pad, Ghost(n), out);
        },
        Value::Table(t) => {
            proof {
                let tr = tree_of(*v);
                assert(decreases_to!(tr => tr->Mapping_0));
            }
            write_indented_table(t, pad, Ghost(n), out);
        },
    }
}

fn write_indented_list(a: &Vec<Value>, pad: &String, Ghost(n): Ghost<nat>, out: &mut String)
    requires
        pad@ == spaces(n),
    ensures
        final(out)@ == old(out)@ + indented(Tree::Sequence(trees_of(a@)), n),
    decreases trees_of(a@), 0int,
{
    let ghost ts = trees_of(a@);
    proof {
        lemma_trees_of_index(a@);
    }
    if a.len() == 0 {
        push_char(out, '[');
        push_char(out, ']');
        assert(out@ =~= old(out)@ + indented(Tree::Sequence(trees_of(a@)), n));
        return ;
    }
    let inner = deeper(pad, Ghost(n));
    let ghost start = out@;
    let mut i: usize = 0;
    while i < a.len()
        invariant
            i <= a.len(),
            pad@ == spaces(n),
            inner@ == spaces(n + 1),
            ts == trees_of(a@),
            ts.len() == a@.len(),
            forall|j: int| 0 <= j < a@.len() ==> #[trigger] ts[j] == tree_of(a@[j]),
            out@ == start + list_lines(ts.take(i as int), n),
        decreases a.len() - i,
    {
        proof {
            lemma_list_lines_step(ts, i as int, n);
            assert(decreases_to!(ts => ts[i as int]));
        }
        if i > 0 {
            push_char(out, '\n');
            out.append(pad.as_str());
        }
        push_char(out, '-');
        push_char(out, ' ');
        write_indented(&a[i], &inner, Ghost(n + 1), out);
        i += 1;
        assert(out@ =~= start + list_lines(ts.take(i as int), n));
    }
    assert(ts.take(i as int) =~= ts);
}

fn write_indented_table(t: &Table, pad: &String, Ghost(n): Ghost<nat>, out: &mut String)
    requires
        pad@ == spaces(n),
    ensures
        final(out)@ == old(out)@ + indented(Tree::Mapping(entries_of(*t)), n),
    decreases entries_of(*t), 0int,
{
    let ghost es = entries_of(*t);
    let pairs = t.pairs();
    if pairs.len() == 0 {
        push_char(out, '{');
        push_char(out, '}');
        assert(out@ =~= old(out)@ + indented(Tree::Mapping(entries_of(*t)), n));
        return ;
    }
    let inner = deeper(pad, Ghost(n));
    let ghost start = out@;
    let mut i: usize = 0;
    while i < pairs.len()
        invariant
            i <= pairs.len(),
            pad@ == spaces(n),
            inner@ == spaces(n + 1),
            es == entries_of(*t),
            pairs@.len() == es.len(),
            forall|j: int|
                0 <= j < pairs@.len() ==> (#[trigger] pairs@[j]).0@ == es[j].0 && tree_of(
                    *pairs@[j].1,
                ) == es[j].1,
            out@ == start + entry_lines(es.take(i as int), n),
        decreases pairs.len() - i,
    {
        let ghost kv = es[i as int];
        proof {
            lemma_entry_lines_step(es, i as int, n);
            assert(decreases_to!(es => kv));
            assert(decreases_to!(kv => kv.1));
        }
        if i > 0 {
            push_char(out, '\n');
            out.append(pad.as_str());
        }
        let ghost before = out@;
        let (k, v) = pairs[i];
        write_scalar(k, out);
        push_char(out, ':');
        if is_scalar_or_empty(v) {
            push_char(out, ' ');
            write_compact(v, out);
        } else if let Value::Array(a) = v {
            push_char(out, '\n');
            out.append(pad.as_str());
            proof {
                let tv = tree_of(*v);
                assert(decreases_to!(tv => tv->Sequence_0));
            }
            write_indented_list(a, pad, Ghost(n), out);
        } else if let Value::Table(sub) = v {
            push_char(out, '\n');
            out.append(inner.as_str());
            proof {
                let tv = tree_of(*v);
                assert(decreases_to!(tv => tv->Mapping_0));
            }
            write_indented_table(sub, &inner, Ghost(n + 1), out);
        }
        assert(out@ =~= before + entry_text(kv, n));
        i += 1;
        assert(out@ =~= start + entry_lines(es.take(i as int), n));
    }
    assert(es.take(i as int) =~= es);
}

/// Whether a value is a scalar, or a list or table without items.
fn is_scalar_or_empty(v: &Value) -> (r: bool)
    ensures
        r == (tree_of(*v) is Scalar || is_empty_tree(tree_of(*v))),
{
    match v {
        Value::String(_) => true,
        Value::Array(a) => {
            proof {
                lemma_trees_of_index(a@);
            }
            a.len() == 0
        },
        Value::Table(t) => t.len() == 0,
    }
}

/// Rendering as SYML text, appended to a `String`.
pub trait SYMLSerialize {
    /// The value that is rendered.
    spec fn form(&self) -> Tree;

    /// Appends the compact form: one line, no spaces between items.
    fn serialize_min(&self, out: &mut String)
        ensures
            final(out)@ == old(out)@ + compact(self.form()),
    ;

    /// Appends the indented form at level `indent`, two spaces a level;
    /// the first line continues where the text stands.
    fn serialize(&self, out: &mut String, indent: usize)
        ensures
            final(out)@ == old(out)@ + indented(self.form(), indent as nat),
    ;

    /// The indented form at level `indent`.
    fn serialize_to_string(&self, indent: usize) -> (r: String)
        ensures
            r@ == indented(self.form(), indent as nat),
    ;

    /// The compact form.
    fn serialize_min_to_string(&self) -> (r: String)
        ensures
            r@ == compact(self.form()),
    ;
}

impl SYMLSerialize for Value {
    open spec fn form(&self) -> Tree {
        tree_of(*self)
    }

    fn serialize_min(&self, out: &mut String) {
        write_compact(self, out);
    }

    fn serialize(&self, out: &mut String, indent: usize) {
        let pad = padding(indent);
        write_indented(self, &pad, Ghost(indent as nat), out);
    }

    fn serialize_to_string(&self, indent: usize) -> (r: String) {
        let mut out = String::new();
        self.serialize(&mut out, indent);
        assert(out@ =~= indented(self.form(), indent as nat));
        out
    }

    fn serialize_min_to_string(&self) -> (r: String) {
        let mut out = String::new();
        self.serialize_min(&mut out);
        assert(out@ =~= compact(self.form()));
        out
    }
}

impl SYMLSerialize for String {
    open spec fn form(&self) -> Tree {
        Tree::Scalar(self@)
    }

    fn serialize_min(&self, out: &mut String) {
        write_scalar(self, out);
    }

    fn serialize(&self, out: &mut String, indent: usize) {
        write_scalar(self, out);
    }

    fn serialize_to_string(&self, indent: usize) -> (r: String) {
        let mut out = String::new();
        write_scalar(self, &mut out);
        assert(out@ =~= indented(self.form(), indent as nat));
        out
    }

    fn serialize_min_to_string(&self) -> (r: String) {
        let mut out = String::new();
        write_scalar(self, &mut out);
        assert(out@ =~= compact(self.form()));
        out
    }
}

impl SYMLSerialize for Vec<Value> {
    open spec fn form(&self) -> Tree {
        Tree::Sequence(trees_of(self@))
    }

    fn serialize_min(&self, out: &mut String) {
        write_compact_list(self, out);
    }

    fn serialize(&self, out: &mut String, indent: usize) {
        let pad = padding(indent);
        write_indented_list(self, &pad, Ghost(indent as nat), out);
    }

    fn serialize_to_string(&self, indent: usize) -> (r: String) {
        let mut out = String::new();
        self.serialize(&mut out, indent);
        assert(out@ =~= indented(self.form(), indent as nat));
        out
    }

    fn serialize_min_to_string(&self) -> (r: String) {
        let mut out = String::new();
        self.serialize_min(&mut out);
        assert(out@ =~= compact(self.form()));
        out
    }
}

impl SYMLSerialize for Table {
    open spec fn form(&self) -> Tree {
        Tree::Mapping(entries_of(*self))
    }

    fn serialize_min(&self, out: &mut String) {
        write_compact_table(self, out);
    }

    fn serialize(&self, out: &mut String, indent: usize) {
        let pad = padding(indent);
        write_indented_table(self, &pad, Ghost(indent as nat), out);
    }

    fn serialize_to_string(&self, indent: usize) -> (r: String) {
        let mut out = String::new();
        self.serialize(&mut out, indent);
        assert(out@ =~= indented(self.form(), indent as nat));
        out
    }

    fn serialize_min_to_string(&self) -> (r: String) {
        let mut out = String::new();
        self.serialize_min(&mut out);
        assert(out@ =~= compact(self.form()));
        out
    }
}

} // verus!
