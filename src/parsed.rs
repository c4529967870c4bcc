//! Every value that the grammar yields is well formed: its tables have
//! distinct keys.
use vstd::prelude::*;
use crate::grammar::{
    inline_form, inline_list, inline_items, inline_entry, inline_table, inline_entries, block_value,
    block_only, list_item, block_list, more_items, entry_value, table_entry, block_table,
    more_entries, key_colon, more_keys, next_line, line_breaks, indent, skip_ws, comma, scalar, at,
    nest, document, opt_end,
};
use crate::value::{Tree, well_formed, distinct_keys, first_wins, has_key};

verus! {

proof fn lemma_first_wins_wf(es: Seq<(Seq<char>, Tree)>)
    requires
        forall|j: int| 0 <= j < es.len() ==> well_formed(#[trigger] es[j].1),
    ensures
        well_formed(Tree::Mapping(first_wins(es))),
    decreases es.len(),
{
    if es.len() > 0 {
        let d = es.drop_last();
        assert forall|j: int| 0 <= j < d.len() implies well_formed(#[trigger] d[j].1) by {
            assert(d[j] == es[j]);
        }
        lemma_first_wins_wf(d);
        let fd = first_wins(d);
        if !has_key(fd, es.last().0) {
            let r = fd.push(es.last());
            assert(distinct_keys(r)) by {
                assert forall|i: int, j: int| 0 <= i < j < r.len() implies (#[trigger] r[i]).0 != (
                #[trigger] r[j]).0 by {
                    if j == r.len() - 1 {
                        assert(r[i] == fd[i]);
                        if r[i].0 == r[j].0 {
                            assert(has_key(fd, es.last().0));
                        }
                    } else {
                        assert(r[i] == fd[i] && r[j] == fd[j]);
                    }
                }
            }
            assert forall|j: int| 0 <= j < r.len() implies well_formed(#[trigger] r[j].1) by {
                if j < fd.len() {
                    assert(r[j] == fd[j]);
                }
            }
        }
    }
}

proof fn lemma_nest_wf(ks: Seq<Seq<char>>, v: Tree)
    requires
        well_formed(v),
    ensures
        well_formed(nest(ks, v)),
    decreases ks.len(),
{
    if ks.len() > 0 {
        let m = Tree::Mapping(seq![(ks.last(), v)]);
        assert(well_formed(m));
        lemma_nest_wf(ks.drop_last(), m);
    }
}

proof fn lemma_cons_items(v: Tree, rest: Seq<Tree>)
    requires
        well_formed(v),
        forall|j: int| 0 <= j < rest.len() ==> well_formed(#[trigger] rest[j]),
    ensures
        forall|j: int| 0 <= j < (seq![v] + rest).len() ==> well_formed(#[trigger] (seq![v] + rest)[j]),
{
    assert forall|j: int| 0 <= j < (seq![v] + rest).len() implies well_formed(
        #[trigger] (seq![v] + rest)[j],
    ) by {
        if j > 0 {
            assert((seq![v] + rest)[j] == rest[j - 1]);
        }
    }
}

proof fn lemma_cons_entries(kv: (Seq<char>, Tree), rest: Seq<(Seq<char>, Tree)>)
    requires
        well_formed(kv.1),
        forall|j: int| 0 <= j < rest.len() ==> well_formed(#[trigger] rest[j].1),
    ensures
        forall|j: int|
            0 <= j < (seq![kv] + rest).len() ==> well_formed(#[trigger] (seq![kv] + rest)[j].1),
{
    assert forall|j: int| 0 <= j < (seq![kv] + rest).len() implies well_formed(
        #[trigger] (seq![kv] + rest)[j].1,
    ) by {
        if j > 0 {
            assert((seq![kv] + rest)[j] == rest[j - 1]);
        }
    }
}

pub proof fn lemma_inline_form_wf(s: Seq<char>, p: int)
    ensures
        inline_form(s, p) matches Some((_, v)) ==> well_formed(v),
    decreases s.len() - p, 2int,
{
    if 0 <= p <= s.len() {
        lemma_inline_list_wf(s, p);
        lemma_inline_table_wf(s, p);
    }
}

proof fn lemma_inline_list_wf(s: Seq<char>, p: int)
    ensures
        inline_list(s, p) matches Some((_, v)) ==> well_formed(v),
    decreases s.len() - p, 1int,
{
    if at(s, p, '[') {
        let q = skip_ws(s, p + 1);
        if p < q <= s.len() {
            lemma_inline_form_wf(s, q);
            match inline_form(s, q) {
                Some((e1, v)) => {
                    if q < e1 <= s.len() {
                        lemma_inline_items_wf(s, e1);
                        lemma_cons_items(v, inline_items(s, e1).1);
                    }
                },
                None => {},
            }
        }
    }
}

proof fn lemma_inline_items_wf(s: Seq<char>, p: int)
    ensures
        forall|j: int|
            0 <= j < inline_items(s, p).1.len() ==> well_formed(#[trigger] inline_items(s, p).1[j]),
    decreases s.len() - p, 0int,
{
    match comma(s, p) {
        Some(q) => if p < q <= s.len() {
            lemma_inline_form_wf(s, q);
            match inline_form(s, q) {
                Some((e, v)) => if q < e <= s.len() {
                    lemma_inline_items_wf(s, e);
                    lemma_cons_items(v, inline_items(s, e).1);
                },
                None => {},
            }
        },
        None => {},
    }
}

proof fn lemma_inline_entry_wf(s: Seq<char>, p: int)
    ensures
        inline_entry(s, p) matches Some((_, kv)) ==> well_formed(kv.1),
    decreases s.len() - p, 1int,
{
    match scalar(s, p) {
        Some((q, k)) => {
            let r = skip_ws(s, q);
            let t = skip_ws(s, r + 1);
            if at(s, r, ':') && p < t <= s.len() {
                lemma_inline_form_wf(s, t);
            }
        },
        None => {},
    }
}

proof fn lemma_inline_table_wf(s: Seq<char>, p: int)
    ensures
        inline_table(s, p) matches Some((_, v)) ==> well_formed(v),
    decreases s.len() - p, 1int,
{
    if at(s, p, '{') {
        let q = skip_ws(s, p + 1);
        if p < q <= s.len() {
            lemma_inline_entry_wf(s, q);
            match inline_entry(s, q) {
                Some((e1, kv)) => {
                    if q < e1 <= s.len() {
                        lemma_inline_entries_wf(s, e1);
                        lemma_cons_entries(kv, inline_entries(s, e1).1);
                        lemma_first_wins_wf(seq![kv] + inline_entries(s, e1).1);
                    }
                },
                None => {
                    lemma_first_wins_wf(Seq::empty());
                },
            }
        } else {
            lemma_first_wins_wf(Seq::empty());
        }
    }
}

proof fn lemma_inline_entries_wf(s: Seq<char>, p: int)
    ensures
        forall|j: int|
            0 <= j < inline_entries(s, p).1.len() ==> well_formed(
                #[trigger] inline_entries(s, p).1[j].1,
            ),
    decreases s.len() - p, 0int,
{
    match comma(s, p) {
        Some(q) => if p < q <= s.len() {
            lemma_inline_entry_wf(s, q);
            match inline_entry(s, q) {
                Some((e, kv)) => if q < e <= s.len() {
                    lemma_inline_entries_wf(s, e);
                    lemma_cons_entries(kv, inline_entries(s, e).1);
                },
                None => {},
            }
        },
        None => {},
    }
}

pub proof fn lemma_block_value_wf(s: Seq<char>, p: int, n: nat)
    ensures
        block_value(s, p, n) matches Some((_, v)) ==> well_formed(v),
    decreases s.len() - p, 6int,
{
    lemma_block_only_wf(s, p, n);
    lemma_inline_form_wf(s, p);
}

proof fn lemma_block_only_wf(s: Seq<char>, p: int, n: nat)
    ensures
        block_only(s, p, n) matches Some((_, v)) ==> well_formed(v),
    decreases s.len() - p, 5int,
{
    lemma_block_list_wf(s, p, n);
    lemma_block_table_wf(s, p, n);
}

proof fn lemma_list_item_wf(s: Seq<char>, p: int, n: nat)
    ensures
        list_item(s, p, n) matches Some((_, v)) ==> well_formed(v),
    decreases s.len() - p, 3int,
{
    if at(s, p, '-') && at(s, p + 1, ' ') {
        lemma_block_value_wf(s, p + 2, n + 2);
    }
}

proof fn lemma_block_list_wf(s: Seq<char>, p: int, n: nat)
    ensures
        block_list(s, p, n) matches Some((_, v)) ==> well_formed(v),
    decreases s.len() - p, 4int,
{
    lemma_list_item_wf(s, p, n);
    match list_item(s, p, n) {
        Some((e, v)) => if p < e <= s.len() {
            lemma_more_items_wf(s, e, n);
            lemma_cons_items(v, more_items(s, e, n).1);
        },
        None => {},
    }
}

proof fn lemma_more_items_wf(s: Seq<char>, p: int, n: nat)
    ensures
        forall|j: int|
            0 <= j < more_items(s, p, n).1.len() ==> well_formed(#[trigger] more_items(s, p, n).1[j]),
    decreases s.len() - p, 3int,
{
    match next_line(s, p, n) {
        Some(q) => if p < q <= s.len() {
            lemma_list_item_wf(s, q, n);
            match list_item(s, q, n) {
                Some((e, v)) => if q < e <= s.len() {
                    lemma_more_items_wf(s, e, n);
                    lemma_cons_items(v, more_items(s, e, n).1);
                },
                None => {},
            }
        },
        None => {},
    }
}

proof fn lemma_entry_value_wf(s: Seq<char>, p: int, n: nat)
    ensures
        entry_value(s, p, n) matches Some((_, v)) ==> well_formed(v),
    decreases s.len() - p, 3int,
{
    match line_breaks(s, p) {
        Some(q) => {
            match indent(s, q, n) {
                Some(r) => if p < r <= s.len() {
                    lemma_block_list_wf(s, r, n);
                },
                None => {},
            }
            match indent(s, q, n + 2) {
                Some(r) => if p < r <= s.len() {
                    lemma_block_only_wf(s, r, n + 2);
                },
                None => {},
            }
        },
        None => {},
    }
    let q = skip_ws(s, p);
    if p <= q <= s.len() {
        lemma_inline_form_wf(s, q);
    }
}

proof fn lemma_table_entry_wf(s: Seq<char>, p: int, n: nat)
    ensures
        table_entry(s, p, n) matches Some((_, kv)) ==> well_formed(kv.1),
    decreases s.len() - p, 3int,
{
    match key_colon(s, p) {
        Some((q, k)) => {
            let (e, ks) = more_keys(s, q);
            if p < e <= s.len() {
                lemma_entry_value_wf(s, e, n);
                match entry_value(s, e, n) {
                    Some((f, v)) => {
                        lemma_nest_wf(ks, v);
                    },
                    None => {},
                }
            }
        },
        None => {},
    }
}

proof fn lemma_block_table_wf(s: Seq<char>, p: int, n: nat)
    ensures
        block_table(s, p, n) matches Some((_, v)) ==> well_formed(v),
    decreases s.len() - p, 4int,
{
    lemma_table_entry_wf(s, p, n);
    match table_entry(s, p, n) {
        Some((e, kv)) => if p < e <= s.len() {
            lemma_more_entries_wf(s, e, n);
            lemma_cons_entries(kv, more_entries(s, e, n).1);
            lemma_first_wins_wf(seq![kv] + more_entries(s, e, n).1);
        },
        None => {},
    }
}

proof fn lemma_more_entries_wf(s: Seq<char>, p: int, n: nat)
    ensures
        forall|j: int|
            0 <= j < more_entries(s, p, n).1.len() ==> well_formed(
                #[trigger] more_entries(s, p, n).1[j].1,
            ),
    decreases s.len() - p, 3int,
{
    match next_line(s, p, n) {
        Some(q) => if p < q <= s.len() {
            lemma_table_entry_wf(s, q, n);
            match table_entry(s, q, n) {
                Some((e, kv)) => if q < e <= s.len() {
                    lemma_more_entries_wf(s, e, n);
                    lemma_cons_entries(kv, more_entries(s, e, n).1);
                },
                None => {},
            }
        },
        None => {},
    }
}

/// Every document yields a well-formed value.
pub proof fn lemma_document_wf(s: Seq<char>)
    ensures
        document(s) matches Some(v) ==> well_formed(v),
{
    lemma_block_value_wf(s, opt_end(line_breaks(s, 0), 0), 0);
}

} // verus!
