//! The value tree: texts, lists and tables whose keys are unique and keep
//! the order in which they were first inserted.
use vstd::prelude::*;
use linked_hash_map::LinkedHashMap;

verus! {

/// The mathematical model of a value: a tree of text leaves, lists and
/// keyed entries in order.
pub enum Tree {
    Scalar(Seq<char>),
    Sequence(Seq<Tree>),
    Mapping(Seq<(Seq<char>, Tree)>),
}

/// An ordered table of entries with unique keys, in insertion order.
#[verifier::external_body]
#[derive(Debug, PartialEq, Eq)]
pub struct Table {
    map: LinkedHashMap<String, Value>,
}

/// The entries of a table, in the order in which they were inserted.
pub uninterp spec fn entries_of(t: Table) -> Seq<(Seq<char>, Tree)>;

/// A value: a text, a list of values, or a table of keyed values.
#[derive(Debug, PartialEq, Eq)]
pub enum Value {
    String(String),
    Array(Vec<Value>),
    Table(Table),
}

/// The models of a run of values, one for one.
pub open spec fn trees_of(s: Seq<Value>) -> Seq<Tree>
    decreases s,
{
    if s.len() == 0 {
        Seq::empty()
    } else {
        trees_of(s.subrange(0, s.len() - 1)).push(tree_of(s[s.len() - 1]))
    }
}

/// The model of a value.
pub open spec fn tree_of(v: Value) -> Tree
    decreases v,
{
    match v {
        Value::String(s) => Tree::Scalar(s@),
        Value::Array(a) => Tree::Sequence(trees_of(a@)),
        Value::Table(t) => Tree::Mapping(entries_of(t)),
    }
}

/// The model of a run holds the model of each of its values, in order.
pub proof fn lemma_trees_of_index(s: Seq<Value>)
    ensures
        trees_of(s).len() == s.len(),
        forall|j: int| 0 <= j < s.len() ==> #[trigger] trees_of(s)[j] == tree_of(s[j]),
    decreases s.len(),
{
    if s.len() > 0 {
        lemma_trees_of_index(s.subrange(0, s.len() - 1));
        assert forall|j: int| 0 <= j < s.len() - 1 implies s.subrange(0, s.len() - 1)[j] == s[j] by {}
    }
}

/// Appending a value appends its model.
pub proof fn lemma_trees_of_push(s: Seq<Value>, v: Value)
    ensures
        trees_of(s.push(v)) == trees_of(s).push(tree_of(v)),
{
    assert(s.push(v).subrange(0, s.len() as int) =~= s);
}

/// Adding an entry at the end keeps the first entry of each key.
pub proof fn lemma_first_wins_push(es: Seq<(Seq<char>, Tree)>, kv: (Seq<char>, Tree))
    ensures
        first_wins(es.push(kv)) == (if has_key(first_wins(es), kv.0) {
            first_wins(es)
        } else {
            first_wins(es).push(kv)
        }),
{
    assert(es.push(kv).drop_last() =~= es);
}

/// Two runs whose values have the same models, one for one, have the same
/// models.
pub proof fn lemma_trees_of_pointwise(s: Seq<Value>, t: Seq<Value>)
    requires
        s.len() == t.len(),
        forall|j: int| 0 <= j < s.len() ==> tree_of(#[trigger] s[j]) == tree_of(t[j]),
    ensures
        trees_of(s) == trees_of(t),
    decreases s.len(),
{
    if s.len() > 0 {
        lemma_trees_of_pointwise(s.subrange(0, s.len() - 1), t.subrange(0, t.len() - 1));
    }
}

/// Whether a key is among the keys of some entries.
pub open spec fn has_key(es: Seq<(Seq<char>, Tree)>, k: Seq<char>) -> bool {
    exists|i: int| 0 <= i < es.len() && (#[trigger] es[i]).0 == k
}

/// The entries with every repeated key left out after its first entry.
pub open spec fn first_wins(es: Seq<(Seq<char>, Tree)>) -> Seq<(Seq<char>, Tree)>
    decreases es.len(),
{
    if es.len() == 0 {
        es
    } else {
        let d = first_wins(es.drop_last());
        if has_key(d, es.last().0) {
            d
        } else {
            d.push(es.last())
        }
    }
}

impl Clone for Table {
    /// Relies on LinkedHashMap's clone: the copy holds clones of the same
    /// entries in the same order; keys are `String`s, and values are cloned
    /// by `Value::clone`, which keeps a value's model.
    #[verifier::external_body]
    fn clone(&self) -> (r: Table)
        ensures
            entries_of(r) == entries_of(*self),
    {
        Table { map: self.map.clone() }
    }
}

impl Clone for Value {
    fn clone(&self) -> (r: Value)
        ensures
            tree_of(r) == tree_of(*self),
        decreases tree_of(*self),
    {
        match self {
            Value::String(s) => Value::String(s.clone()),
            Value::Array(a) => {
                let mut out: Vec<Value> = Vec::new();
                let mut i: usize = 0;
                while i < a.len()
                    invariant
                        i <= a.len(),
                        out@.len() == i,
                        tree_of(*self) == Tree::Sequence(trees_of(a@)),
                        forall|j: int| 0 <= j < i ==> tree_of(#[trigger] out@[j]) == tree_of(a@[j]),
                    decreases a.len() - i,
                {
                    proof {
                        lemma_trees_of_index(a@);
                        let ts = trees_of(a@);
                        let t = tree_of(*self);
                        assert(decreases_to!(t => t->Sequence_0));
                        assert(decreases_to!(ts => ts[i as int]));
                    }
                    out.push(a[i].clone());
                    i += 1;
                }
                proof {
                    lemma_trees_of_pointwise(out@, a@);
                }
                Value::Array(out)
            },
            Value::Table(t) => Value::Table(t.clone()),
        }
    }
}

impl Table {
    /// An empty table.
    pub fn new() -> (r: Table)
        ensures
            entries_of(r) == Seq::<(Seq<char>, Tree)>::empty(),
    {
        Table::empty_map()
    }

    /// Relies on LinkedHashMap::new: a new map is empty.
    #[verifier::external_body]
    fn empty_map() -> (r: Table)
        ensures
            entries_of(r) == Seq::<(Seq<char>, Tree)>::empty(),
    {
        Table { map: LinkedHashMap::new() }
    }

    /// Adds an entry at the end where its key is new; where the key is
    /// present, the table stays as it is.
    pub fn insert_first(&mut self, k: String, v: Value)
        ensures
            entries_of(*final(self)) == (if has_key(entries_of(*old(self)), k@) {
                entries_of(*old(self))
            } else {
                entries_of(*old(self)).push((k@, tree_of(v)))
            }),
    {
        self.map_insert_first(k, v);
    }

    /// Relies on LinkedHashMap::entry and Entry::or_insert: a pair whose key
    /// is new goes at the end; where the key is present, nothing changes.
    #[verifier::external_body]
    fn map_insert_first(&mut self, k: String, v: Value)
        ensures
            entries_of(*final(self)) == (if has_key(entries_of(*old(self)), k@) {
                entries_of(*old(self))
            } else {
                entries_of(*old(self)).push((k@, tree_of(v)))
            }),
    {
        self.map.entry(k).or_insert(v);
    }

    /// The entries by reference, in order.
    pub fn pairs(&self) -> (r: Vec<(&String, &Value)>)
        ensures
            r@.len() == entries_of(*self).len(),
            forall|i: int|
                0 <= i < r@.len() ==> (#[trigger] r@[i]).0@ == entries_of(*self)[i].0 && tree_of(
                    *r@[i].1,
                ) == entries_of(*self)[i].1,
    {
        self.map_pairs()
    }

    /// Relies on LinkedHashMap::iter: the entries by reference, in order.
    #[verifier::external_body]
    fn map_pairs(&self) -> (r: Vec<(&String, &Value)>)
        ensures
            r@.len() == entries_of(*self).len(),
            forall|i: int|
                0 <= i < r@.len() ==> (#[trigger] r@[i]).0@ == entries_of(*self)[i].0 && tree_of(
                    *r@[i].1,
                ) == entries_of(*self)[i].1,
    {
        self.map.iter().collect()
    }

    /// A table of the given entries; of entries with equal keys, the first
    /// is kept and the others are left out.
    pub fn from_pairs(pairs: Vec<(String, Value)>) -> (r: Table)
        ensures
            entries_of(r) == first_wins(pairs_model(pairs@)),
    {
        let mut pairs = pairs;
        let ghost all = pairs@;
        let mut rev: Vec<(String, Value)> = Vec::new();
        while pairs.len() > 0
            invariant
                all == pairs@ + rev@.reverse(),
            decreases pairs.len(),
        {
            let ghost before = pairs@;
            let kv = pairs.pop().unwrap();
            proof {
                assert(rev@.push(kv).reverse() =~= seq![kv] + rev@.reverse());
                assert(before =~= pairs@.push(kv));
            }
            rev.push(kv);
            assert(all =~= pairs@ + rev@.reverse());
        }
        let mut t = Table::new();
        let ghost mut done: Seq<(String, Value)> = Seq::empty();
        proof {
            assert(pairs_model(done) =~= Seq::<(Seq<char>, Tree)>::empty());
        }
        while rev.len() > 0
            invariant
                all == done + rev@.reverse(),
                entries_of(t) == first_wins(pairs_model(done)),
            decreases rev.len(),
        {
            let ghost before = rev@;
            let (k, v) = rev.pop().unwrap();
            proof {
                let kv = (k, v);
                assert(before =~= rev@.push(kv));
                assert(before.reverse() =~= seq![kv] + rev@.reverse());
                assert(pairs_model(done.push(kv)) =~= pairs_model(done).push((k@, tree_of(v))));
                lemma_first_wins_push(pairs_model(done), (k@, tree_of(v)));
                done = done.push(kv);
                assert(all =~= done + rev@.reverse());
            }
            t.insert_first(k, v);
        }
        assert(done =~= all);
        t
    }

    /// Whether the table has no entries.
    pub fn is_empty(&self) -> (r: bool)
        ensures
            r == (entries_of(*self).len() == 0),
    {
        self.len() == 0
    }

    /// The number of entries.
    pub fn len(&self) -> (r: usize)
        ensures
            r == entries_of(*self).len(),
    {
        self.map_len()
    }

    /// Relies on LinkedHashMap::len: the number of entries.
    #[verifier::external_body]
    fn map_len(&self) -> (r: usize)
        ensures
            r == entries_of(*self).len(),
    {
        self.map.len()
    }
}


/// Whether a value holds nothing: an empty text, list or table.
pub open spec fn is_empty_tree(v: Tree) -> bool {
    match v {
        Tree::Scalar(t) => t.len() == 0,
        Tree::Sequence(items) => items.len() == 0,
        Tree::Mapping(es) => es.len() == 0,
    }
}

impl Value {
    /// Whether the value holds nothing: an empty text, list or table.
    pub fn is_empty(&self) -> (r: bool)
        ensures
            r == is_empty_tree(tree_of(*self)),
    {
        match self {
            Value::String(s) => s.as_str().unicode_len() == 0,
            Value::Array(a) => {
                proof {
                    lemma_trees_of_index(a@);
                }
                a.len() == 0
            },
            Value::Table(t) => t.len() == 0,
        }
    }

    /// Whether the value is a text.
    pub fn is_string(&self) -> (r: bool)
        ensures
            r == (*self is String),
    {
        matches!(self, Value::String(_))
    }

    /// Whether the value is a list.
    pub fn is_array(&self) -> (r: bool)
        ensures
            r == (*self is Array),
    {
        matches!(self, Value::Array(_))
    }

    /// Whether the value is a table.
    pub fn is_table(&self) -> (r: bool)
        ensures
            r == (*self is Table),
    {
        matches!(self, Value::Table(_))
    }

    /// The text, where the value is one.
    pub fn as_string(&self) -> (r: Option<&String>)
        ensures
            match r {
                Some(s) => *self == Value::String(*s),
                None => !(*self is String),
            },
    {
        if let Value::String(v) = self {
            Some(v)
        } else {
            None
        }
    }

    /// The text, where the value is one, to change in place.
    pub fn as_string_mut(&mut self) -> (r: Option<&mut String>)
        ensures
            match r {
                Some(s) => *old(self) == Value::String(*s) && *final(self) == Value::String(*final(s)),
                None => !(*old(self) is String) && *final(self) == *old(self),
            },
    {
        if let Value::String(v) = self {
            Some(v)
        } else {
            None
        }
    }

    /// The list, where the value is one.
    pub fn as_array(&self) -> (r: Option<&Vec<Value>>)
        ensures
            match r {
                Some(a) => *self == Value::Array(*a),
                None => !(*self is Array),
            },
    {
        if let Value::Array(v) = self {
            Some(v)
        } else {
            None
        }
    }

    /// The list, where the value is one, to change in place.
    pub fn as_array_mut(&mut self) -> (r: Option<&mut Vec<Value>>)
        ensures
            match r {
                Some(a) => *old(self) == Value::Array(*a) && *final(self) == Value::Array(*final(a)),
                None => !(*old(self) is Array) && *final(self) == *old(self),
            },
    {
        if let Value::Array(v) = self {
            Some(v)
        } else {
            None
        }
    }

    /// The table, where the value is one.
    pub fn as_table(&self) -> (r: Option<&Table>)
        ensures
            match r {
                Some(t) => *self == Value::Table(*t),
                None => !(*self is Table),
            },
    {
        if let Value::Table(v) = self {
            Some(v)
        } else {
            None
        }
    }

    /// The table, where the value is one, to change in place.
    pub fn as_table_mut(&mut self) -> (r: Option<&mut Table>)
        ensures
            match r {
                Some(t) => *old(self) == Value::Table(*t) && *final(self) == Value::Table(*final(t)),
                None => !(*old(self) is Table) && *final(self) == *old(self),
            },
    {
        if let Value::Table(v) = self {
            Some(v)
        } else {
            None
        }
    }

    /// The text as a `str`, where the value is one.
    pub fn as_str(&self) -> (r: Option<&str>)
        ensures
            match r {
                Some(s) => *self is String && s@ == self->String_0@,
                None => !(*self is String),
            },
    {
        match self.as_string() {
            Some(s) => Some(s.as_str()),
            None => None,
        }
    }

    /// The items as a slice, where the value is a list.
    pub fn as_slice(&self) -> (r: Option<&[Value]>)
        ensures
            match r {
                Some(s) => *self is Array && s@ == self->Array_0@,
                None => !(*self is Array),
            },
    {
        match self.as_array() {
            Some(a) => Some(a.as_slice()),
            None => None,
        }
    }

    /// The items as a slice to change in place, where the value is a list.
    pub fn as_slice_mut(&mut self) -> (r: Option<&mut [Value]>)
        ensures
            match r {
                Some(s) => *old(self) is Array && s@ == old(self)->Array_0@ && *final(self) is Array
                    && final(s)@ == final(self)->Array_0@,
                None => !(*old(self) is Array) && *final(self) == *old(self),
            },
    {
        match self.as_array_mut() {
            Some(a) => Some(a.as_mut_slice()),
            None => None,
        }
    }

    /// A table of the given entries; of entries with equal keys, the first
    /// is kept and the others are left out.
    pub fn from_pairs(pairs: Vec<(String, Value)>) -> (r: Value)
        ensures
            tree_of(r) == Tree::Mapping(first_wins(pairs_model(pairs@))),
    {
        Value::Table(Table::from_pairs(pairs))
    }

    /// A list of texts.
    pub fn from_strs(items: Vec<&str>) -> (r: Value)
        ensures
            tree_of(r) == Tree::Sequence(items@.map_values(|s: &str| Tree::Scalar(s@))),
    {
        let mut out: Vec<Value> = Vec::new();
        let mut i: usize = 0;
        while i < items.len()
            invariant
                i <= items.len(),
                trees_of(out@) == items@.take(i as int).map_values(|s: &str| Tree::Scalar(s@)),
            decreases items.len() - i,
        {
            let v = Value::String(items[i].to_owned());
            proof {
                lemma_trees_of_push(out@, v);
            }
            out.push(v);
            i += 1;
            assert(trees_of(out@) =~= items@.take(i as int).map_values(|s: &str| Tree::Scalar(s@)));
        }
        assert(items@.take(i as int) =~= items@);
        Value::Array(out)
    }
}

/// The models of key and value pairs.
pub open spec fn pairs_model(ps: Seq<(String, Value)>) -> Seq<(Seq<char>, Tree)> {
    ps.map_values(|kv: (String, Value)| (kv.0@, tree_of(kv.1)))
}

impl From<String> for Value {
    fn from(s: String) -> Value {
        Value::String(s)
    }
}

impl vstd::std_specs::convert::FromSpecImpl<String> for Value {
    open spec fn obeys_from_spec() -> bool {
        true
    }

    open spec fn from_spec(s: String) -> Value {
        Value::String(s)
    }
}

impl From<Vec<Value>> for Value {
    fn from(a: Vec<Value>) -> Value {
        Value::Array(a)
    }
}

impl vstd::std_specs::convert::FromSpecImpl<Vec<Value>> for Value {
    open spec fn obeys_from_spec() -> bool {
        true
    }

    open spec fn from_spec(a: Vec<Value>) -> Value {
        Value::Array(a)
    }
}

impl From<Table> for Value {
    fn from(t: Table) -> Value {
        Value::Table(t)
    }
}

impl vstd::std_specs::convert::FromSpecImpl<Table> for Value {
    open spec fn obeys_from_spec() -> bool {
        true
    }

    open spec fn from_spec(t: Table) -> Value {
        Value::Table(t)
    }
}

impl TryFrom<Value> for String {
    type Error = Value;

    fn try_from(v: Value) -> Result<String, Value> {
        match v {
            Value::String(s) => Ok(s),
            other => Err(other),
        }
    }
}

impl vstd::std_specs::convert::TryFromSpecImpl<Value> for String {
    open spec fn obeys_try_from_spec() -> bool {
        true
    }

    open spec fn try_from_spec(v: Value) -> Result<String, Value> {
        match v {
            Value::String(s) => Ok(s),
            other => Err(other),
        }
    }
}

impl TryFrom<Value> for Vec<Value> {
    type Error = Value;

    fn try_from(v: Value) -> Result<Vec<Value>, Value> {
        match v {
            Value::Array(a) => Ok(a),
            other => Err(other),
        }
    }
}

impl vstd::std_specs::convert::TryFromSpecImpl<Value> for Vec<Value> {
    open spec fn obeys_try_from_spec() -> bool {
        true
    }

    open spec fn try_from_spec(v: Value) -> Result<Vec<Value>, Value> {
        match v {
            Value::Array(a) => Ok(a),
            other => Err(other),
        }
    }
}

impl TryFrom<Value> for Table {
    type Error = Value;

    fn try_from(v: Value) -> Result<Table, Value> {
        match v {
            Value::Table(t) => Ok(t),
            other => Err(other),
        }
    }
}

impl vstd::std_specs::convert::TryFromSpecImpl<Value> for Table {
    open spec fn obeys_try_from_spec() -> bool {
        true
    }

    open spec fn try_from_spec(v: Value) -> Result<Table, Value> {
        match v {
            Value::Table(t) => Ok(t),
            other => Err(other),
        }
    }
}

/// Whether the keys of some entries are pairwise distinct.
pub open spec fn distinct_keys(es: Seq<(Seq<char>, Tree)>) -> bool {
    forall|i: int, j: int| 0 <= i < j < es.len() ==> (#[trigger] es[i]).0 != (#[trigger] es[j]).0
}

/// Whether every table in the value has distinct keys, as every table that
/// the library builds has.
pub open spec fn well_formed(v: Tree) -> bool
    decreases v,
{
    match v {
        Tree::Scalar(_) => true,
        Tree::Sequence(items) => forall|i: int|
            0 <= i < items.len() ==> well_formed(#[trigger] items[i]),
        Tree::Mapping(es) => distinct_keys(es) && forall|i: int|
            0 <= i < es.len() ==> well_formed(#[trigger] es[i].1),
    }
}

/// Entries with distinct keys lose none of them to the first-wins rule.
pub proof fn lemma_first_wins_distinct(es: Seq<(Seq<char>, Tree)>)
    requires
        distinct_keys(es),
    ensures
        first_wins(es) == es,
    decreases es.len(),
{
    if es.len() > 0 {
        let d = es.drop_last();
        assert(distinct_keys(d)) by {
            assert forall|i: int, j: int| 0 <= i < j < d.len() implies (#[trigger] d[i]).0 != (
            #[trigger] d[j]).0 by {
                assert(d[i] == es[i] && d[j] == es[j]);
            }
        }
        lemma_first_wins_distinct(d);
        assert(!has_key(d, es.last().0)) by {
            if has_key(d, es.last().0) {
                let i = choose|i: int| 0 <= i < d.len() && (#[trigger] d[i]).0 == es.last().0;
                assert(es[i] == d[i]);
            }
        }
        assert(d.push(es.last()) =~= es);
    }
}

} // verus!
