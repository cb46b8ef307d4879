use vstd::prelude::*;

use crate::text;

verus! {

/// The kind tag of a runtime value.
#[derive(Clone, Copy, Debug, PartialEq, Eq, Structural)]
pub enum ValueType {
    String,
    Number,
    Table,
}

/// A runtime value: a number, an immutable string, a table view (a heap
/// handle plus a per-dimension offset vector), or the uninitialized sentinel.
#[derive(Debug)]
pub struct Value {
    pub value_type: ValueType,
    pub string_value: Option<String>,
    pub number_value: i64,
    pub table_index: usize,
    pub slice_offset: Option<Vec<usize>>,
}

/// The mathematical reading of a `Value`.
pub ghost enum ValueModel {
    Num { n: int },
    Txt { text: Seq<char> },
    Tbl { handle: int, offset: Seq<usize> },
    Uninit,
}

impl View for Value {
    type V = ValueModel;

    open spec fn view(&self) -> ValueModel {
        match self.value_type {
            ValueType::Number => ValueModel::Num { n: self.number_value as int },
            ValueType::String => ValueModel::Txt {
                text: match self.string_value {
                    Some(s) => s@,
                    None => Seq::empty(),
                },
            },
            ValueType::Table => {
                if self.table_index == usize::MAX {
                    ValueModel::Uninit
                } else {
                    ValueModel::Tbl {
                        handle: self.table_index as int,
                        offset: match self.slice_offset {
                            Some(v) => v@,
                            None => Seq::empty(),
                        },
                    }
                }
            },
        }
    }
}

impl Value {
    /// The representation invariant: each kind carries the fields it reads.
    pub open spec fn wf(self) -> bool {
        match self.value_type {
            ValueType::Number => true,
            ValueType::String => self.string_value is Some,
            ValueType::Table => {
                if self.table_index == usize::MAX {
                    self.slice_offset is None
                } else {
                    self.slice_offset is Some
                }
            },
        }
    }

    /// The sentinel distinguishable from every live value; it fills fresh
    /// table cells and stands for an absent return value.
    pub fn uninitialized() -> (r: Value)
        ensures
            r@ is Uninit,
            r.wf(),
    {
        Value {
            value_type: ValueType::Table,
            string_value: None,
            number_value: 0,
            table_index: usize::MAX,
            slice_offset: None,
        }
    }

    pub fn number_value(n: i64) -> (r: Value)
        ensures
            r@ == (ValueModel::Num { n: n as int }),
            r.wf(),
    {
        Value {
            value_type: ValueType::Number,
            string_value: None,
            number_value: n,
            table_index: 0,
            slice_offset: None,
        }
    }

    pub fn string_value(string: &String) -> (r: Value)
        ensures
            r@ == (ValueModel::Txt { text: string@ }),
            r.wf(),
    {
        Value {
            value_type: ValueType::String,
            string_value: Some(string.clone()),
            number_value: 0,
            table_index: 0,
            slice_offset: None,
        }
    }

    pub fn boolean_value(b: bool) -> (r: Value)
        ensures
            r@ == (ValueModel::Num { n: if b { 1int } else { 0int } }),
            r.wf(),
    {
        Value::number_value(if b { 1 } else { 0 })
    }

    /// Truthiness: false exactly for the number zero.
    pub open spec fn spec_truthy(self) -> bool {
        !(self@ matches ValueModel::Num { n } && n == 0)
    }

    pub fn as_boolean(&self) -> (r: bool)
        ensures
            r == self.spec_truthy(),
    {
        !matches!(self.value_type, ValueType::Number) || self.number_value != 0
    }

    pub fn is_uninitialized(&self) -> (r: bool)
        ensures
            r == (self@ is Uninit),
    {
        self.table_index == usize::MAX && matches!(self.value_type, ValueType::Table)
    }

    /// A diagnostic rendering of the value, one line, never failing.
    pub fn describe(&self) -> (r: String)
        requires
            self.wf(),
        ensures
            self@ matches ValueModel::Num { n } ==> r@ == seq!['<', 'N', 'u', 'm', 'b', 'e', 'r', ' ', 'V', 'a', 'l', 'u', 'e', ' '].add(
                text::int_text(n),
            ).push('>'),
            self@ matches ValueModel::Txt { text } ==> r@ == seq!['<', 'S', 't', 'r', 'i', 'n', 'g', ' ', 'V', 'a', 'l', 'u', 'e', ' '].add(
                text,
            ).push('>'),
    {
        match self.value_type {
            ValueType::Number => {
                let mut s = new_string_lit("<Number Value ");
                let digits = text::i64_to_string(self.number_value);
                s = s.concat(digits.as_str());
                text::push_char(&mut s, '>');
                proof {
                    assert(seq!['<', 'N', 'u', 'm', 'b', 'e', 'r', ' ', 'V', 'a', 'l', 'u', 'e', ' ']
                        =~= "<Number Value "@) by {
                        reveal_strlit("<Number Value ");
                    }
                }
                s
            },
            ValueType::String => {
                let mut s = new_string_lit("<String Value ");
                match &self.string_value {
                    Some(text) => {
                        s = s.concat(text.as_str());
                    },
                    None => {},
                }
                text::push_char(&mut s, '>');
                proof {
                    assert(seq!['<', 'S', 't', 'r', 'i', 'n', 'g', ' ', 'V', 'a', 'l', 'u', 'e', ' ']
                        =~= "<String Value "@) by {
                        reveal_strlit("<String Value ");
                    }
                }
                s
            },
            ValueType::Table => new_string_lit("<Table Value>"),
        }
    }
}

fn new_string_lit(s: &str) -> (r: String)
    ensures
        r@ == s@,
{
    s.to_owned()
}

/// An element-for-element copy of an offset vector.
pub fn copy_usize_vec(v: &Vec<usize>) -> (r: Vec<usize>)
    ensures
        r@ == v@,
{
    let mut r: Vec<usize> = Vec::new();
    let mut i: usize = 0;
    while i < v.len()
        invariant
            i <= v.len(),
            r@ == v@.subrange(0, i as int),
        decreases v.len() - i,
    {
        r.push(v[i]);
        proof {
            assert(r@ =~= v@.subrange(0, i + 1 as int));
        }
        i = i + 1;
    }
    proof {
        assert(v@.subrange(0, v@.len() as int) =~= v@);
    }
    r
}

impl Clone for Value {
    /// A copy that reads as the same value; table values stay shallow, so the
    /// copy aliases the same heap entry.
    fn clone(&self) -> (res: Self)
        ensures
            res@ == self@,
            res.wf() == self.wf(),
            res.value_type == self.value_type,
    {
        Value {
            value_type: self.value_type,
            string_value: match &self.string_value {
                Some(s) => Some(s.clone()),
                None => None,
            },
            number_value: self.number_value,
            table_index: self.table_index,
            slice_offset: match &self.slice_offset {
                Some(v) => Some(copy_usize_vec(v)),
                None => None,
            },
        }
    }
}

} // verus!
