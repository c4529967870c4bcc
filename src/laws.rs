//! Laws that relate the parser and the serializer.
use vstd::prelude::*;
use crate::grammar::{document, line_breaks, blank_line, block_only, key_colon, list_item};
use crate::reading::{
    text_at, tail_ok, lemma_indented_reads, lemma_compact_reads, lemma_quoted_shape,
    lemma_compact_shape, lemma_scalar_reads, list_pieces, line_pieces, lemma_cat_front,
};
use crate::serialize::{compact, indented};
use crate::value::{Tree, is_empty_tree, well_formed};

verus! {

/// An empty list, an empty table and an empty text are written in compact
/// form at every level of indentation.
pub proof fn empty_forms_stay_compact(v: Tree, n: nat)
    requires
        is_empty_tree(v),
    ensures
        indented(v, n) == compact(v),
{
    match v {
        Tree::Scalar(t) => {},
        Tree::Sequence(items) => {
            assert(compact(v) =~= seq!['[', ']']);
        },
        Tree::Mapping(es) => {
            assert(compact(v) =~= seq!['{', '}']);
        },
    }
}

/// The first character of a value in indented form starts a line's
/// content: not a space, a tab, a line break or a comment.
proof fn lemma_indented_first(v: Tree, n: nat)
    ensures
        indented(v, n).len() >= 1,
        indented(v, n)[0] != ' ' && indented(v, n)[0] != '\t' && indented(v, n)[0] != '\n'
            && indented(v, n)[0] != '\r' && indented(v, n)[0] != ';',
{
    match v {
        Tree::Scalar(t) => {
            lemma_quoted_shape(t);
        },
        Tree::Sequence(items) => {
            if items.len() > 0 {
                crate::reading::lemma_list_lines_cat(items, n);
                lemma_cat_front(list_pieces(items, n));
            }
        },
        Tree::Mapping(es) => {
            if es.len() > 0 {
                crate::reading::lemma_entry_lines_cat(es, n);
                lemma_cat_front(line_pieces(es, n));
                lemma_quoted_shape(es[0].0);
            }
        },
    }
}

proof fn lemma_whole(s: Seq<char>)
    ensures
        text_at(s, 0, s),
        tail_ok(s, s.len() as int, 0, false),
        tail_ok(s, s.len() as int, 0, true),
        line_breaks(s, s.len() as int) == Some(s.len() as int),
{
    assert(s.subrange(0, s.len() as int) =~= s);
    assert(blank_line(s, s.len() as int) is None);
}

/// A value written in indented form parses back to the same value, where
/// each of its tables has distinct keys.
pub proof fn indented_round_trip(v: Tree)
    requires
        well_formed(v),
    ensures
        document(indented(v, 0)) == Some(v),
{
    let s = indented(v, 0);
    lemma_whole(s);
    lemma_indented_first(v, 0);
    assert(blank_line(s, 0) is None);
    lemma_indented_reads(s, 0, v, 0);
}

/// A value written in compact form parses back to the same value, where
/// each of its tables has distinct keys.
pub proof fn compact_round_trip(v: Tree)
    requires
        well_formed(v),
    ensures
        document(compact(v)) == Some(v),
{
    let s = compact(v);
    lemma_whole(s);
    lemma_compact_shape(v);
    crate::reading::lemma_text_at_index(s, 0, s);
    match v {
        Tree::Scalar(t) => {
            lemma_quoted_shape(t);
            if s.len() > 1 && s[0] == '-' {
                assert(s == t);
            }
            lemma_scalar_reads(s, 0, t);
        },
        _ => {},
    }
    assert(blank_line(s, 0) is None);
    assert(list_item(s, 0, 0) is None);
    assert(key_colon(s, 0) is None);
    assert(block_only(s, 0, 0) is None);
    lemma_compact_reads(s, 0, v);
}

/// Every value that a document yields has distinct keys in each table.
pub proof fn parsed_values_are_well_formed(t: Seq<char>)
    ensures
        document(t) matches Some(v) ==> well_formed(v),
{
    crate::parsed::lemma_document_wf(t);
}

/// Parsing a text and writing the value again gives a text that, parsed
/// and written once more, comes out the same, in either form.
pub proof fn rewriting_is_stable(t: Seq<char>)
    requires
        document(t) is Some,
    ensures
        ({
            let v = document(t)->0;
            &&& document(indented(v, 0)) == Some(v)
            &&& indented(document(indented(v, 0))->0, 0) == indented(v, 0)
            &&& document(compact(v)) == Some(v)
            &&& compact(document(compact(v))->0) == compact(v)
        }),
{
    let v = document(t)->0;
    crate::parsed::lemma_document_wf(t);
    indented_round_trip(v);
    compact_round_trip(v);
}

} // verus!
