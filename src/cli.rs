//! Settings of the command-line converters, and how they read scalars.
use vstd::prelude::*;
use crate::parser::chars_of;

verus! {

/// What a converter was asked to do: the text to convert, whether to write
/// the long form, and which scalars to read as JSON numbers, booleans or
/// null.
#[non_exhaustive]
#[derive(Debug)]
pub struct Config {
    pub src: String,
    pub is_long_output: bool,
    pub convert_number: bool,
    pub convert_boolean: bool,
    pub convert_null: bool,
}

impl Default for Config {
    fn default() -> (r: Config)
        ensures
            r.src@.len() == 0,
            !r.is_long_output,
            !r.convert_number,
            !r.convert_boolean,
            !r.convert_null,
    {
        Config {
            src: String::new(),
            is_long_output: false,
            convert_number: false,
            convert_boolean: false,
            convert_null: false,
        }
    }
}

/// How a scalar is written in JSON.
#[derive(Debug, Clone, Copy, PartialEq, Eq, Structural)]
pub enum Reading {
    Null,
    Boolean(bool),
    Number,
    Text,
}

pub open spec fn null_word() -> Seq<char> {
    seq!['n', 'u', 'l', 'l']
}

pub open spec fn true_word() -> Seq<char> {
    seq!['t', 'r', 'u', 'e']
}

pub open spec fn false_word() -> Seq<char> {
    seq!['f', 'a', 'l', 's', 'e']
}

/// How a scalar is read under the flags: `null` as null, `true` and `false`
/// as booleans, a number as a number, tried in that order and each only
/// where its flag is on; otherwise as a string.
pub open spec fn reading_of(cfg: Config, t: Seq<char>, is_number: bool) -> Reading {
    if cfg.convert_null && t == null_word() {
        Reading::Null
    } else if cfg.convert_boolean && t == true_word() {
        Reading::Boolean(true)
    } else if cfg.convert_boolean && t == false_word() {
        Reading::Boolean(false)
    } else if cfg.convert_number && is_number {
        Reading::Number
    } else {
        Reading::Text
    }
}

fn spells(cs: &Vec<char>, w: &[char]) -> (r: bool)
    ensures
        r == (cs@ == w@),
{
    if cs.len() != w.len() {
        return false;
    }
    let mut i: usize = 0;
    while i < w.len()
        invariant
            i <= w.len() == cs.len(),
            forall|j: int| 0 <= j < i ==> cs@[j] == w@[j],
        decreases w.len() - i,
    {
        if cs[i] != w[i] {
            return false;
        }
        i += 1;
    }
    assert(cs@ =~= w@);
    true
}

impl Config {
    /// How the scalar `text` is written in JSON; `is_number` says whether
    /// the text reads as a floating-point number.
    pub fn reading(&self, text: &str, is_number: bool) -> (r: Reading)
        ensures
            r == reading_of(*self, text@, is_number),
    {
        let cs = chars_of(text);
        let null_w = ['n', 'u', 'l', 'l'];
        let true_w = ['t', 'r', 'u', 'e'];
        let false_w = ['f', 'a', 'l', 's', 'e'];
        assert(null_w@ =~= null_word());
        assert(true_w@ =~= true_word());
        assert(false_w@ =~= false_word());
        if self.convert_null && spells(&cs, &null_w) {
            Reading::Null
        } else if self.convert_boolean && spells(&cs, &true_w) {
            Reading::Boolean(true)
        } else if self.convert_boolean && spells(&cs, &false_w) {
            Reading::Boolean(false)
        } else if self.convert_number && is_number {
            Reading::Number
        } else {
            Reading::Text
        }
    }
}

} // verus!
