use vstd::prelude::*;

use crate::environment::{Environment, Label, assoc_get, assoc_map, assoc_set, distinct_keys};
use crate::errors::ErrorKind;
use crate::table::TableManager;
use crate::text;
use crate::value::{Value, ValueModel};

verus! {

/// The label table: identifiers to jump targets, global per evaluation unit.
pub struct LabelMap(pub Vec<(String, Label)>);

impl LabelMap {
    pub open spec fn wf(self) -> bool {
        distinct_keys(self.0@)
    }

    /// The labels as a map from names to targets.
    pub open spec fn map(self) -> Map<Seq<char>, Label> {
        assoc_map(self.0@)
    }

    pub fn get(&self, label_name: &str) -> (r: Option<&Label>)
        requires
            self.wf(),
        ensures
            match r {
                Some(l) => self.map().contains_key(label_name@) && self.map()[label_name@] == *l,
                None => !self.map().contains_key(label_name@),
            },
    {
        let owned = label_name.to_owned();
        assoc_get(&self.0, &owned)
    }

    pub fn insert(&mut self, label_name: String, value: Label)
        requires
            old(self).wf(),
        ensures
            final(self).wf(),
            final(self).map() =~= old(self).map().insert(label_name@, value),
    {
        assoc_set(&mut self.0, &label_name, value);
    }

    /// How a jump target resolves: the literal name `next` is the following
    /// line, anything else goes through the label table.
    pub open spec fn resolve(self, name: Seq<char>, current: int) -> Option<int> {
        if name == "next"@ {
            Some(current + 1)
        } else if self.map().contains_key(name) {
            Some(self.map()[name].line_number as int)
        } else {
            None
        }
    }

    pub fn get_line_number_with_inferred(&self, label_name: &str, current_line_number: &usize) -> (r:
        Option<usize>)
        requires
            self.wf(),
            *current_line_number < usize::MAX,
        ensures
            match r {
                Some(n) => self.resolve(label_name@, *current_line_number as int) == Some(n as int),
                None => self.resolve(label_name@, *current_line_number as int) is None,
            },
    {
        let owned = label_name.to_owned();
        if owned == String::from_str("next") {
            proof {
                reveal_strlit("next");
            }
            Some(*current_line_number + 1)
        } else {
            proof {
                reveal_strlit("next");
            }
            match self.get(label_name) {
                Some(l) => Some(l.line_number),
                None => None,
            }
        }
    }
}

/// Whether a value makes sense against a heap: well formed, and a table view
/// names a live handle with one offset per dimension.
pub open spec fn value_ok(heap: Map<int, crate::table::TableModel>, v: Value) -> bool {
    &&& v.wf()
    &&& (v@ matches ValueModel::Tbl { handle, offset } ==> heap.contains_key(handle)
        && offset.len() == heap[handle].dims.len())
}

/// Every binding of every frame holds a sensible value.
pub open spec fn envs_ok(heap: Map<int, crate::table::TableModel>, envs: Seq<Environment>) -> bool {
    forall|i: int, j: int|
        0 <= i < envs.len() && 0 <= j < envs[i].variables@.len() ==> value_ok(
            heap,
            (#[trigger] envs[i].variables@[j]).1,
        )
}

/// Every cell of every table holds a sensible value.
pub open spec fn heap_ok(heap: Map<int, crate::table::TableModel>) -> bool {
    forall|k: int, c: int|
        heap.contains_key(k) && 0 <= c < heap[k].cells.len() ==> value_ok(
            heap,
            (#[trigger] heap[k].cells[c]),
        )
}

/// The evaluator: a stack of call frames, the label table, the table heap,
/// and the creation counter that paces collection.
pub struct VM {
    pub environment: Vec<Environment>,
    pub labels: LabelMap,
    pub table_manager: TableManager,
    pub table_creations: u32,
}

/// Reads a variable, innermost frame first.
pub open spec fn stack_lookup(envs: Seq<Environment>, name: Seq<char>) -> Option<Value>
    decreases envs.len(),
{
    if envs.len() == 0 {
        None
    } else if envs.last().bindings().contains_key(name) {
        Some(envs.last().bindings()[name])
    } else {
        stack_lookup(envs.drop_last(), name)
    }
}

impl VM {
    /// The evaluator invariant: a populated frame stack, well-formed frames
    /// and label table, and a heap that every held table value resolves
    /// against.
    pub open spec fn wf(self) -> bool {
        &&& self.environment@.len() >= 1
        &&& forall|i: int|
            0 <= i < self.environment@.len() ==> (#[trigger] self.environment@[i]).wf()
        &&& forall|i: int|
            1 <= i < self.environment@.len() ==> (#[trigger] self.environment@[i]).return_address
                is Some
        &&& self.table_creations < 20
        &&& self.labels.wf()
        &&& self.table_manager.wf()
        &&& envs_ok(self.table_manager.heap(), self.environment@)
        &&& heap_ok(self.table_manager.heap())
    }

    /// The heap as the evaluator sees it.
    pub open spec fn heap(self) -> Map<int, crate::table::TableModel> {
        self.table_manager.heap()
    }

    pub fn new() -> (r: VM)
        ensures
            r.wf(),
            r.environment@.len() == 1,
            r.environment@[0].bindings() =~= Map::<Seq<char>, Value>::empty(),
            r.heap() =~= Map::<int, crate::table::TableModel>::empty(),
    {
        let mut environment: Vec<Environment> = Vec::new();
        environment.push(Environment::that_returns_to(None));
        VM {
            environment,
            labels: LabelMap(Vec::new()),
            table_manager: TableManager::new(),
            table_creations: 0,
        }
    }

    pub fn add_label(&mut self, name: String, file: String, line_number: usize)
        requires
            old(self).wf(),
        ensures
            final(self).wf(),
            final(self).labels.map() =~= old(self).labels.map().insert(
                name@,
                Label { file, line_number },
            ),
            final(self).environment@ == old(self).environment@,
            final(self).table_manager == old(self).table_manager,
            final(self).table_creations == old(self).table_creations,
    {
        let label = Label { file, line_number };
        proof {
            assert(label.file == file && label.line_number == line_number);
        }
        self.labels.insert(name, label);
    }

    /// Binds a name in the innermost frame.
    pub fn assign_variable(&mut self, name: &String, value: Value)
        requires
            old(self).wf(),
            value_ok(old(self).heap(), value),
        ensures
            final(self).wf(),
            final(self).environment@.len() == old(self).environment@.len(),
            final(self).environment@.last().bindings() =~= old(self).environment@.last().bindings().insert(name@, value),
            final(self).environment@.last().return_address == old(self).environment@.last().return_address,
            forall|i: int|
                0 <= i < old(self).environment@.len() - 1 ==> (#[trigger] final(self).environment@[i]) == old(self).environment@[i],
            final(self).table_manager == old(self).table_manager,
            final(self).labels == old(self).labels,
            final(self).table_creations == old(self).table_creations,
    {
        let last = self.environment.len() - 1;
        let ghost pre = self.environment@;
        let env = &mut self.environment[last];
        assoc_set(&mut env.variables, name, value);
        let ghost post_env = *env;
        proof {
            assert(self.environment@ == pre.update(last as int, post_env));
            assert(post_env.wf()) by {
                assert(forall|j: int|
                    0 <= j < post_env.variables@.len() ==> (#[trigger] post_env.variables@[j]).1
                        == value || exists|k: int|
                        0 <= k < pre[last as int].variables@.len()
                            && pre[last as int].variables@[k].1 == post_env.variables@[j].1);
            }
            assert(envs_ok(self.heap(), self.environment@)) by {
                assert forall|i: int, j: int|
                    0 <= i < self.environment@.len() && 0 <= j
                        < self.environment@[i].variables@.len() implies value_ok(
                    self.heap(),
                    (#[trigger] self.environment@[i].variables@[j]).1,
                ) by {
                    if i == last as int {
                        let v = self.environment@[i].variables@[j].1;
                        if v != value {
                            let k = choose|k: int|
                                0 <= k < pre[last as int].variables@.len() && (#[trigger] pre[last as int].variables@[k]).1 == v;
                            assert(value_ok(self.heap(), pre[last as int].variables@[k].1));
                        }
                    } else {
                        assert(self.environment@[i] == pre[i]);
                    }
                }
            }
        }
    }

    /// Reads a variable by the innermost frame that binds it.
    pub fn read_variable(&self, name: &String) -> (r: Option<&Value>)
        requires
            self.wf(),
        ensures
            match r {
                Some(v) => stack_lookup(self.environment@, name@) == Some(*v) && value_ok(
                    self.heap(),
                    *v,
                ),
                None => stack_lookup(self.environment@, name@) is None,
            },
    {
        let n = self.environment.len();
        let mut i: usize = n;
        proof {
            assert(self.environment@.subrange(0, n as int) =~= self.environment@);
        }
        while i > 0
            invariant
                i <= n,
                n == self.environment@.len(),
                self.wf(),
                stack_lookup(self.environment@, name@) == stack_lookup(
                    self.environment@.subrange(0, i as int),
                    name@,
                ),
            decreases i,
        {
            let env = &self.environment[i - 1];
            proof {
                assert(self.environment@.subrange(0, i as int).last() == self.environment@[i
                    - 1]);
                assert(self.environment@.subrange(0, i as int).drop_last()
                    =~= self.environment@.subrange(0, i - 1));
            }
            match assoc_get(&env.variables, name) {
                Some(v) => {
                    proof {
                        let frame = self.environment@[i - 1];
                        assert(stack_lookup(self.environment@, name@) == Some(
                            frame.bindings()[name@],
                        ));
                        crate::environment::lemma_assoc_map_contains(frame.variables@, name@);
                        let k = choose|k: int|
                            0 <= k < frame.variables@.len() && (#[trigger] frame.variables@[k]).0@ == name@;
                        crate::environment::lemma_assoc_map_get(frame.variables@, k);
                        assert(value_ok(self.heap(), frame.variables@[k].1));
                    }
                    return Some(v);
                },
                None => {},
            }
            i = i - 1;
        }
        proof {
            assert(self.environment@.subrange(0, 0) =~= Seq::<Environment>::empty());
        }
        None
    }
}

/// Truncating division, as the host divides machine integers.
pub open spec fn div_trunc(x: int, d: int) -> int {
    if x == 0 {
        0
    } else if x > 0 && d > 0 {
        x / d
    } else if x < 0 && d < 0 {
        (x * -1) / (d * -1)
    } else if x < 0 {
        ((x * -1) / d) * -1
    } else {
        (x / (d * -1)) * -1
    }
}

/// Truncating remainder, as the host takes it.
pub open spec fn rem_trunc(x: int, d: int) -> int {
    if x == 0 {
        0
    } else if x > 0 && d > 0 {
        x % d
    } else if x < 0 && d < 0 {
        ((x * -1) % (d * -1)) * -1
    } else if x < 0 {
        ((x * -1) % d) * -1
    } else {
        x % (d * -1)
    }
}

/// Number arithmetic wraps at the machine width.
pub open spec fn wrap64(x: int) -> int {
    vstd::wrapping::i64_specs::signed_crop(x) as int
}

/// What `SUM` computes, for every pair of operand values and every operator
/// symbol.
pub open spec fn sum_spec(a: ValueModel, b: ValueModel, op: Seq<char>) -> Result<
    ValueModel,
    ErrorKind,
> {
    if op == "+"@ {
        match (a, b) {
            (ValueModel::Txt { text: x }, ValueModel::Txt { text: y }) => Ok(
                ValueModel::Txt { text: x + y },
            ),
            (ValueModel::Txt { text: x }, ValueModel::Num { n: y }) => Ok(
                ValueModel::Txt { text: x + text::int_text(y) },
            ),
            (ValueModel::Num { n: x }, ValueModel::Txt { text: y }) => Ok(
                ValueModel::Txt { text: text::int_text(x) + y },
            ),
            (ValueModel::Num { n: x }, ValueModel::Num { n: y }) => Ok(
                ValueModel::Num { n: wrap64(x + y) },
            ),
            _ => Err(ErrorKind::TypeMismatch),
        }
    } else if op == "=="@ {
        match (a, b) {
            (ValueModel::Txt { text: x }, ValueModel::Txt { text: y }) => Ok(
                ValueModel::Num {
                    n: if x == y {
                        1int
                    } else {
                        0int
                    },
                },
            ),
            (ValueModel::Num { n: x }, ValueModel::Num { n: y }) => Ok(
                ValueModel::Num {
                    n: if x == y {
                        1int
                    } else {
                        0int
                    },
                },
            ),
            _ => Err(ErrorKind::TypeMismatch),
        }
    } else if op == "-"@ || op == "*"@ || op == "/"@ || op == "%"@ {
        match (a, b) {
            (ValueModel::Num { n: x }, ValueModel::Num { n: y }) => {
                if op == "-"@ {
                    Ok(ValueModel::Num { n: wrap64(x - y) })
                } else if op == "*"@ {
                    Ok(ValueModel::Num { n: wrap64(x * y) })
                } else if op == "/"@ {
                    if y == 0 || !(i64::MIN <= div_trunc(x, y) <= i64::MAX) {
                        Err(ErrorKind::DivisionByZero)
                    } else {
                        Ok(ValueModel::Num { n: div_trunc(x, y) })
                    }
                } else {
                    if y == 0 || (x == i64::MIN && y == -1) {
                        Err(ErrorKind::DivisionByZero)
                    } else {
                        Ok(ValueModel::Num { n: rem_trunc(x, y) })
                    }
                }
            },
            _ => Err(ErrorKind::TypeMismatch),
        }
    } else if op == "<"@ || op == ">"@ || op == "<="@ || op == ">="@ {
        match (a, b) {
            (ValueModel::Num { n: x }, ValueModel::Num { n: y }) => {
                let holds = if op == "<"@ {
                    x < y
                } else if op == ">"@ {
                    x > y
                } else if op == "<="@ {
                    x <= y
                } else {
                    x >= y
                };
                Ok(
                    ValueModel::Num {
                        n: if holds {
                            1int
                        } else {
                            0int
                        },
                    },
                )
            },
            (ValueModel::Txt { text: x }, ValueModel::Txt { text: y }) => {
                let holds = if op == "<"@ {
                    text::lex_lt(x, y)
                } else if op == ">"@ {
                    text::lex_lt(y, x)
                } else if op == "<="@ {
                    !text::lex_lt(y, x)
                } else {
                    !text::lex_lt(x, y)
                };
                Ok(
                    ValueModel::Num {
                        n: if holds {
                            1int
                        } else {
                            0int
                        },
                    },
                )
            },
            _ => Err(ErrorKind::TypeMismatch),
        }
    } else {
        Err(ErrorKind::UnsupportedOperator)
    }
}

impl VM {
    /// Arithmetic, concatenation and comparison over two operand values.
    pub fn do_sum(v1: &Value, v2: &Value, operand: &String) -> (r: Result<Value, ErrorKind>)
        requires
            v1.wf(),
            v2.wf(),
        ensures
            match r {
                Ok(v) => sum_spec(v1@, v2@, operand@) == Ok::<ValueModel, ErrorKind>(v@) && v.wf()
                    && !(v@ is Tbl) && !(v@ is Uninit),
                Err(k) => sum_spec(v1@, v2@, operand@) == Err::<ValueModel, ErrorKind>(k),
            },
    {
        let num1 = matches!(v1.value_type, crate::value::ValueType::Number);
        let num2 = matches!(v2.value_type, crate::value::ValueType::Number);
        let str1 = matches!(v1.value_type, crate::value::ValueType::String);
        let str2 = matches!(v2.value_type, crate::value::ValueType::String);
        if *operand == String::from_str("+") {
            if str1 && str2 {
                let x = match &v1.string_value {
                    Some(s) => s,
                    None => {
                        return Err(ErrorKind::TypeMismatch);
                    },
                };
                let y = match &v2.string_value {
                    Some(s) => s,
                    None => {
                        return Err(ErrorKind::TypeMismatch);
                    },
                };
                Ok(Value::string_value(&x.clone().concat(y.as_str())))
            } else if str1 && num2 {
                let x = match &v1.string_value {
                    Some(s) => s,
                    None => {
                        return Err(ErrorKind::TypeMismatch);
                    },
                };
                let y = text::i64_to_string(v2.number_value);
                Ok(Value::string_value(&x.clone().concat(y.as_str())))
            } else if num1 && str2 {
                let x = text::i64_to_string(v1.number_value);
                let y = match &v2.string_value {
                    Some(s) => s,
                    None => {
                        return Err(ErrorKind::TypeMismatch);
                    },
                };
                Ok(Value::string_value(&x.concat(y.as_str())))
            } else if num1 && num2 {
                let n = v1.number_value.wrapping_add(v2.number_value);
                proof {
                    lemma_wrap_add(v1.number_value, v2.number_value);
                }
                Ok(Value::number_value(n))
            } else {
                Err(ErrorKind::TypeMismatch)
            }
        } else if *operand == String::from_str("==") {
            if str1 && str2 {
                let x = match &v1.string_value {
                    Some(s) => s,
                    None => {
                        return Err(ErrorKind::TypeMismatch);
                    },
                };
                let y = match &v2.string_value {
                    Some(s) => s,
                    None => {
                        return Err(ErrorKind::TypeMismatch);
                    },
                };
                Ok(Value::boolean_value(*x == *y))
            } else if num1 && num2 {
                Ok(Value::boolean_value(v1.number_value == v2.number_value))
            } else {
                Err(ErrorKind::TypeMismatch)
            }
        } else if *operand == String::from_str("-") {
            if num1 && num2 {
                let n = v1.number_value.wrapping_sub(v2.number_value);
                proof {
                    lemma_wrap_sub(v1.number_value, v2.number_value);
                }
                Ok(Value::number_value(n))
            } else {
                Err(ErrorKind::TypeMismatch)
            }
        } else if *operand == String::from_str("*") {
            if num1 && num2 {
                Ok(Value::number_value(v1.number_value.wrapping_mul(v2.number_value)))
            } else {
                Err(ErrorKind::TypeMismatch)
            }
        } else if *operand == String::from_str("/") {
            if num1 && num2 {
                match v1.number_value.checked_div(v2.number_value) {
                    Some(n) => Ok(Value::number_value(n)),
                    None => Err(ErrorKind::DivisionByZero),
                }
            } else {
                Err(ErrorKind::TypeMismatch)
            }
        } else if *operand == String::from_str("%") {
            if num1 && num2 {
                match v1.number_value.checked_rem(v2.number_value) {
                    Some(n) => Ok(Value::number_value(n)),
                    None => Err(ErrorKind::DivisionByZero),
                }
            } else {
                Err(ErrorKind::TypeMismatch)
            }
        } else if *operand == String::from_str("<") {
            if num1 && num2 {
                Ok(Value::boolean_value(v1.number_value < v2.number_value))
            } else if str1 && str2 {
                let x = match &v1.string_value {
                    Some(s) => s,
                    None => {
                        return Err(ErrorKind::TypeMismatch);
                    },
                };
                let y = match &v2.string_value {
                    Some(s) => s,
                    None => {
                        return Err(ErrorKind::TypeMismatch);
                    },
                };
                Ok(Value::boolean_value(text::str_lex_lt(x.as_str(), y.as_str())))
            } else {
                Err(ErrorKind::TypeMismatch)
            }
        } else if *operand == String::from_str(">") {
            if num1 && num2 {
                Ok(Value::boolean_value(v1.number_value > v2.number_value))
            } else if str1 && str2 {
                let x = match &v1.string_value {
                    Some(s) => s,
                    None => {
                        return Err(ErrorKind::TypeMismatch);
                    },
                };
                let y = match &v2.string_value {
                    Some(s) => s,
                    None => {
                        return Err(ErrorKind::TypeMismatch);
                    },
                };
                Ok(Value::boolean_value(text::str_lex_lt(y.as_str(), x.as_str())))
            } else {
                Err(ErrorKind::TypeMismatch)
            }
        } else if *operand == String::from_str("<=") {
            if num1 && num2 {
                Ok(Value::boolean_value(v1.number_value <= v2.number_value))
            } else if str1 && str2 {
                let x = match &v1.string_value {
                    Some(s) => s,
                    None => {
                        return Err(ErrorKind::TypeMismatch);
                    },
                };
                let y = match &v2.string_value {
                    Some(s) => s,
                    None => {
                        return Err(ErrorKind::TypeMismatch);
                    },
                };
                Ok(Value::boolean_value(!text::str_lex_lt(y.as_str(), x.as_str())))
            } else {
                Err(ErrorKind::TypeMismatch)
            }
        } else if *operand == String::from_str(">=") {
            if num1 && num2 {
                Ok(Value::boolean_value(v1.number_value >= v2.number_value))
            } else if str1 && str2 {
                let x = match &v1.string_value {
                    Some(s) => s,
                    None => {
                        return Err(ErrorKind::TypeMismatch);
                    },
                };
                let y = match &v2.string_value {
                    Some(s) => s,
                    None => {
                        return Err(ErrorKind::TypeMismatch);
                    },
                };
                Ok(Value::boolean_value(!text::str_lex_lt(x.as_str(), y.as_str())))
            } else {
                Err(ErrorKind::TypeMismatch)
            }
        } else {
            Err(ErrorKind::UnsupportedOperator)
        }
    }
}

proof fn lemma_wrap_add(x: i64, y: i64)
    ensures
        vstd::wrapping::i64_specs::wrapping_add(x, y) as int == wrap64(x + y),
{
}

proof fn lemma_wrap_sub(x: i64, y: i64)
    ensures
        vstd::wrapping::i64_specs::wrapping_sub(x, y) as int == wrap64(x - y),
{
}

/// Old heap entries survive unchanged when the heap only grows.
pub open spec fn heap_extended(
    pre: Map<int, crate::table::TableModel>,
    post: Map<int, crate::table::TableModel>,
) -> bool {
    forall|k: int|
        #[trigger] pre.contains_key(k) ==> post.contains_key(k) && post[k] == pre[k]
}

/// Dimension-preserving heap changes keep values sensible.
pub open spec fn dims_preserved(
    pre: Map<int, crate::table::TableModel>,
    post: Map<int, crate::table::TableModel>,
) -> bool {
    forall|k: int|
        #[trigger] pre.contains_key(k) ==> post.contains_key(k) && post[k].dims == pre[k].dims
}

proof fn lemma_value_ok_dims(
    pre: Map<int, crate::table::TableModel>,
    post: Map<int, crate::table::TableModel>,
    v: Value,
)
    requires
        dims_preserved(pre, post),
        value_ok(pre, v),
    ensures
        value_ok(post, v),
{
    match v@ {
        ValueModel::Tbl { handle, offset } => {
            assert(pre.contains_key(handle));
            assert(post[handle].dims == pre[handle].dims);
        },
        _ => {},
    }
}

proof fn lemma_extended_dims(
    pre: Map<int, crate::table::TableModel>,
    post: Map<int, crate::table::TableModel>,
)
    requires
        heap_extended(pre, post),
    ensures
        dims_preserved(pre, post),
{
    assert forall|k: int| pre.contains_key(k) implies post.contains_key(k) && (
    #[trigger] post[k]).dims == pre[k].dims by {
        assert(post[k] == pre[k]);
    }
}

proof fn lemma_value_ok_extended(
    pre: Map<int, crate::table::TableModel>,
    post: Map<int, crate::table::TableModel>,
    v: Value,
)
    requires
        heap_extended(pre, post),
        value_ok(pre, v),
    ensures
        value_ok(post, v),
{
    lemma_extended_dims(pre, post);
    lemma_value_ok_dims(pre, post, v);
}

proof fn lemma_extended_trans(
    a: Map<int, crate::table::TableModel>,
    b: Map<int, crate::table::TableModel>,
    c: Map<int, crate::table::TableModel>,
)
    requires
        heap_extended(a, b),
        heap_extended(b, c),
    ensures
        heap_extended(a, c),
{
    assert forall|k: int| a.contains_key(k) implies c.contains_key(k) && (#[trigger] c[k])
        == a[k] by {
        assert(b.contains_key(k) && b[k] == a[k]);
        assert(c[k] == b[k]);
    }
}

/// Under the manager invariant, every cell of every heap entry is well
/// formed.
proof fn lemma_heap_cells_wf(m: crate::table::TableManager, k: int, c: int)
    requires
        m.wf(),
        m.heap().contains_key(k),
        0 <= c < m.heap()[k].cells.len(),
    ensures
        m.heap()[k].cells[c].wf(),
{
    crate::table::lemma_heap_map_contains(m.tables@, k);
    let i = choose|i: int| 0 <= i < m.tables@.len() && (#[trigger] m.tables@[i]).0 as int == k;
    crate::table::lemma_heap_map_get(m.tables@, i);
}

/// Whether an item is an expression without side effects.
pub open spec fn is_pure_item(m: crate::line::ItemModel) -> bool {
    m is Num || m is Txt || m is Lbl
}

/// What a side-effect-free expression evaluates to: literals to themselves,
/// labels to the innermost binding, anything else is not a pure expression.
pub open spec fn pure_eval(envs: Seq<Environment>, item: crate::line::ItemModel) -> Result<
    ValueModel,
    ErrorKind,
> {
    match item {
        crate::line::ItemModel::Num { n } => Ok(ValueModel::Num { n }),
        crate::line::ItemModel::Txt { text } => Ok(ValueModel::Txt { text }),
        crate::line::ItemModel::Lbl { text } => match stack_lookup(envs, text) {
            Some(v) => Ok(v@),
            None => Err(ErrorKind::Unbound),
        },
        crate::line::ItemModel::Cmd { op } => Err(ErrorKind::TypeMismatch),
        _ => Err(ErrorKind::TypeMismatch),
    }
}

/// The output text of an item: numbers in canonical decimal, strings as
/// themselves, a variable by its value; table values cannot be said, and
/// bracketed groups read as empty text.
pub open spec fn item_text(envs: Seq<Environment>, item: crate::line::ItemModel) -> Result<
    Seq<char>,
    ErrorKind,
> {
    match item {
        crate::line::ItemModel::Num { n } => Ok(text::int_text(n)),
        crate::line::ItemModel::Txt { text } => Ok(text),
        crate::line::ItemModel::Lbl { text } => match stack_lookup(envs, text) {
            Some(v) => match v@ {
                ValueModel::Num { n } => Ok(text::int_text(n)),
                ValueModel::Txt { text: t } => Ok(t),
                _ => Err(ErrorKind::SayTable),
            },
            None => Err(ErrorKind::Unbound),
        },
        crate::line::ItemModel::Cmd { op } => Err(ErrorKind::TypeMismatch),
        _ => Ok(Seq::empty()),
    }
}

impl VM {
    /// Evaluates an expression item without permitting side effects: table
    /// literals are rejected.
    pub fn line_item_as_value_pure(&self, item: &crate::line::LineItem) -> (r: Result<
        Value,
        ErrorKind,
    >)
        requires
            self.wf(),
        ensures
            match r {
                Ok(v) => pure_eval(self.environment@, crate::line::item_model(*item)) == Ok::<
                    ValueModel,
                    ErrorKind,
                >(v@) && v.wf() && value_ok(self.heap(), v),
                Err(k) => pure_eval(self.environment@, crate::line::item_model(*item)) == Err::<
                    ValueModel,
                    ErrorKind,
                >(k),
            },
    {
        match item {
            crate::line::LineItem::Number(n) => Ok(Value::number_value(*n)),
            crate::line::LineItem::String(s) => Ok(Value::string_value(s)),
            crate::line::LineItem::Label(name) => match self.read_variable(name) {
                Some(v) => Ok(v.clone()),
                None => Err(ErrorKind::Unbound),
            },
            _ => Err(ErrorKind::TypeMismatch),
        }
    }

    /// Evaluates an expression item. A table literal allocates a heap table,
    /// evaluates its data items recursively and writes them into the leading
    /// cells; everything else is pure.
    pub fn line_item_as_value(&mut self, item: &crate::line::LineItem) -> (r: Result<
        Value,
        ErrorKind,
    >)
        requires
            old(self).wf(),
        ensures
            final(self).wf(),
            final(self).environment@ == old(self).environment@,
            final(self).labels == old(self).labels,
            final(self).table_creations == old(self).table_creations,
            heap_extended(old(self).heap(), final(self).heap()),
            is_pure_item(crate::line::item_model(*item)) || crate::line::item_model(*item)
                is Cmd || crate::line::item_model(*item) is Arr ==> final(self).table_manager
                == old(self).table_manager,
            match r {
                Ok(v) => {
                    &&& v.wf()
                    &&& value_ok(final(self).heap(), v)
                    &&& (is_pure_item(crate::line::item_model(*item)) ==> pure_eval(
                        old(self).environment@,
                        crate::line::item_model(*item),
                    ) == Ok::<ValueModel, ErrorKind>(v@))
                    &&& (crate::line::item_model(*item) matches crate::line::ItemModel::Tbl {
                        dims,
                        data,
                    } ==> v@ matches ValueModel::Tbl { handle, offset } && !old(self).heap().contains_key(handle) && final(self).heap().contains_key(handle)
                        && offset == crate::table::zero_offsets(dims.len() as int) && final(self).heap()[handle].dims.map(|q: int, x: usize| x as int) == dims && final(self).heap()[handle].cells.len() == crate::table::dims_product(final(self).heap()[handle].dims) && data.len() <= final(self).heap()[handle].cells.len() && (forall|c: int|
                        data.len() <= c < final(self).heap()[handle].cells.len() ==> (
                        #[trigger] final(self).heap()[handle].cells[c])@ is Uninit) && (forall|c:
                        int|
                        0 <= c < data.len() && is_pure_item(#[trigger] data[c]) ==> (pure_eval(
                            old(self).environment@,
                            data[c],
                        ) matches Ok(m) && final(self).heap()[handle].cells[c]@ == m)))
                },
                Err(k) => {
                    &&& (is_pure_item(crate::line::item_model(*item)) || crate::line::item_model(
                        *item,
                    ) is Cmd ==> pure_eval(old(self).environment@, crate::line::item_model(*item))
                        == Err::<ValueModel, ErrorKind>(k))
                    &&& (crate::line::item_model(*item) is Arr ==> k
                        == ErrorKind::InternalInvariant)
                },
            },
        decreases *item,
    {
        match item {
            crate::line::LineItem::Table(dimensions, data) => {
                let value = match self.table_manager.create_table(dimensions) {
                    Ok(v) => v,
                    Err(k) => {
                        proof {
                            assert(self.heap() == old(self).heap());
                        }
                        return Err(k);
                    },
                };
                proof {
                    assert(heap_extended(old(self).heap(), self.heap()));
                    assert(envs_ok(self.heap(), self.environment@)) by {
                        assert forall|i2: int, j2: int|
                            0 <= i2 < self.environment@.len() && 0 <= j2
                                < self.environment@[i2].variables@.len() implies value_ok(
                            self.heap(),
                            (#[trigger] self.environment@[i2].variables@[j2]).1,
                        ) by {
                            lemma_value_ok_extended(
                                old(self).heap(),
                                self.heap(),
                                self.environment@[i2].variables@[j2].1,
                            );
                        }
                    }
                    assert(heap_ok(self.heap())) by {
                        assert forall|k: int, c: int|
                            self.heap().contains_key(k) && 0 <= c
                                < self.heap()[k].cells.len() implies value_ok(
                            self.heap(),
                            (#[trigger] self.heap()[k].cells[c]),
                        ) by {
                            lemma_heap_cells_wf(self.table_manager, k, c);
                            if old(self).heap().contains_key(k) {
                                lemma_value_ok_extended(
                                    old(self).heap(),
                                    self.heap(),
                                    self.heap()[k].cells[c],
                                );
                            } else {
                                assert(self.heap()[k].cells[c]@ is Uninit);
                            }
                        }
                    }
                }
                let ghost h0 = value@->Tbl_handle;
                let ghost created = self.heap()[value@->Tbl_handle];
                let mut values: Vec<Value> = Vec::new();
                let total = data.len();
                let mut i: usize = 0;
                proof {
                    assert(decreases_to!(*item => *data));
                    assert(crate::line::item_model(*item) is Tbl);
                }
                while i < total
                    invariant
                        i <= total,
                        total == data@.len(),
                        decreases_to!(*item => *data),
                        crate::line::item_model(*item) is Tbl,
                        h0 == value@->Tbl_handle,
                        self.heap().contains_key(h0),
                        self.heap()[h0] == created,
                        self.wf(),
                        self.environment@ == old(self).environment@,
                        self.labels == old(self).labels,
                        self.table_creations == old(self).table_creations,
                        heap_extended(old(self).heap(), self.heap()),
                        value_ok(self.heap(), value),
                        value.wf(),
                        value@ is Tbl,
                        !old(self).heap().contains_key(value@->Tbl_handle),
                        self.heap().contains_key(value@->Tbl_handle),
                        values@.len() == i,
                        forall|m: int|
                            0 <= m < values@.len() ==> value_ok(
                                self.heap(),
                                #[trigger] values@[m],
                            ) && values@[m].wf(),
                        forall|m: int|
                            0 <= m < values@.len() && is_pure_item(
                                #[trigger] crate::line::items_model(data@)[m],
                            ) ==> (pure_eval(
                                old(self).environment@,
                                crate::line::items_model(data@)[m],
                            ) matches Ok(mm) && values@[m]@ == mm),
                    decreases total - i,
                {
                    proof {
                        vstd::std_specs::vec::axiom_vec_index_decreases(*data, i as int);
                        crate::line::lemma_items_model_len(data@);
                        crate::line::lemma_items_model_index(data@, i as int);
                    }
                    let ghost before = *self;
                    let v = match self.line_item_as_value(&data[i]) {
                        Ok(v) => v,
                        Err(k) => {
                            proof {
                                lemma_extended_trans(
                                    old(self).heap(),
                                    before.heap(),
                                    self.heap(),
                                );
                            }
                            return Err(k);
                        },
                    };
                    proof {
                        lemma_extended_trans(old(self).heap(), before.heap(), self.heap());
                        assert(self.heap()[h0] == before.heap()[h0]);
                    }
                    values.push(v);
                    proof {
                        assert forall|m: int|
                            0 <= m < values@.len() implies value_ok(
                            self.heap(),
                            #[trigger] values@[m],
                        ) && values@[m].wf() by {
                            if m < values@.len() - 1 {
                                assert(values@[m] == values@.drop_last()[m]);
                                lemma_value_ok_extended(
                                    before.heap(),
                                    self.heap(),
                                    values@[m],
                                );
                            }
                        }
                        lemma_value_ok_extended(before.heap(), self.heap(), value);
                    }
                    i = i + 1;
                }
                let ghost pre_write = *self;
                let ghost vals = values@;
                match self.table_manager.write_raw(&value, values) {
                    Ok(()) => {},
                    Err(k) => {
                        proof {
                            assert(self.table_manager.heap() =~= pre_write.heap());
                            assert(self.table_manager.heap() == pre_write.heap());
                        }
                        return Err(k);
                    },
                }
                proof {
                    let h = value@->Tbl_handle;
                    let pre_h = pre_write.heap();
                    let post_h = self.heap();
                    assert(pre_h.contains_key(h));
                    assert(dims_preserved(pre_h, post_h)) by {
                        assert forall|k: int| pre_h.contains_key(k) implies post_h.contains_key(
                            k,
                        ) && (#[trigger] post_h[k]).dims == pre_h[k].dims by {
                            if k != h {
                                assert(post_h[k] == pre_h[k]);
                            }
                        }
                    }
                    assert(heap_extended(old(self).heap(), post_h)) by {
                        assert forall|k: int|
                            old(self).heap().contains_key(k) implies post_h.contains_key(k) && (
                        #[trigger] post_h[k]) == old(self).heap()[k] by {
                            assert(k != h);
                            assert(pre_h.contains_key(k) && pre_h[k] == old(self).heap()[k]);
                            assert(post_h[k] == pre_h[k]);
                        }
                    }
                    assert(envs_ok(post_h, self.environment@)) by {
                        assert forall|i2: int, j2: int|
                            0 <= i2 < self.environment@.len() && 0 <= j2
                                < self.environment@[i2].variables@.len() implies value_ok(
                            post_h,
                            (#[trigger] self.environment@[i2].variables@[j2]).1,
                        ) by {
                            lemma_value_ok_dims(
                                pre_h,
                                post_h,
                                self.environment@[i2].variables@[j2].1,
                            );
                        }
                    }
                    assert(heap_ok(post_h)) by {
                        assert forall|k: int, c: int|
                            post_h.contains_key(k) && 0 <= c
                                < post_h[k].cells.len() implies value_ok(
                            post_h,
                            (#[trigger] post_h[k].cells[c]),
                        ) by {
                            lemma_heap_cells_wf(self.table_manager, k, c);
                            if k == h {
                                let cell = post_h[k].cells[c];
                                if c < vals.len() {
                                    assert(cell == vals[c]);
                                    lemma_value_ok_dims(pre_h, post_h, cell);
                                } else {
                                    assert(cell == pre_h[h].cells[c]);
                                    assert(value_ok(pre_h, cell));
                                    lemma_value_ok_dims(pre_h, post_h, cell);
                                }
                            } else {
                                assert(pre_h.contains_key(k));
                                assert(post_h[k] == pre_h[k]);
                                lemma_value_ok_dims(pre_h, post_h, pre_h[k].cells[c]);
                            }
                        }
                    }
                    lemma_value_ok_dims(pre_h, post_h, value);
                    assert(pre_h[h] == created);
                    assert(post_h[h].dims == created.dims);
                    assert(post_h[h].cells.len() == created.cells.len());
                    assert(vals.len() == data@.len());
                    assert(crate::line::item_model(*item)->Tbl_data == crate::line::items_model(
                        data@,
                    ));
                    crate::line::lemma_items_model_len(data@);
                    assert(post_h[h].dims.map(|q: int, x: usize| x as int)
                        =~= crate::line::item_model(*item)->Tbl_dims) by {
                        assert(post_h[h].dims == dimensions@);
                    }
                    assert(forall|c: int|
                        vals.len() <= c < post_h[h].cells.len() ==> (
                        #[trigger] post_h[h].cells[c]) == created.cells[c]);
                    assert(forall|c: int|
                        0 <= c < vals.len() ==> (#[trigger] post_h[h].cells[c]) == vals[c]);
                }
                Ok(value)
            },
            crate::line::LineItem::Array(_) => Err(ErrorKind::InternalInvariant),
            _ => {
                let r = self.line_item_as_value_pure(item);
                r
            },
        }
    }

    /// The output text of an item, as `SAY` and `ASK` print it.
    pub fn line_item_to_string(&self, item: &crate::line::LineItem) -> (r: Result<
        String,
        ErrorKind,
    >)
        requires
            self.wf(),
        ensures
            match r {
                Ok(t) => item_text(self.environment@, crate::line::item_model(*item)) == Ok::<
                    Seq<char>,
                    ErrorKind,
                >(t@),
                Err(k) => item_text(self.environment@, crate::line::item_model(*item)) == Err::<
                    Seq<char>,
                    ErrorKind,
                >(k),
            },
    {
        match item {
            crate::line::LineItem::Number(n) => Ok(text::i64_to_string(*n)),
            crate::line::LineItem::String(s) => Ok(s.clone()),
            crate::line::LineItem::Label(name) => match self.read_variable(name) {
                Some(v) => match v.value_type {
                    crate::value::ValueType::Number => Ok(text::i64_to_string(v.number_value)),
                    crate::value::ValueType::String => match &v.string_value {
                        Some(s) => Ok(s.clone()),
                        None => Err(ErrorKind::SayTable),
                    },
                    crate::value::ValueType::Table => Err(ErrorKind::SayTable),
                },
                None => Err(ErrorKind::Unbound),
            },
            crate::line::LineItem::Command(_) => Err(ErrorKind::TypeMismatch),
            _ => Ok(String::new()),
        }
    }
}

/// A frame's bindings, read at the model level.
pub open spec fn bindings_m(m: Map<Seq<char>, Value>) -> Map<Seq<char>, ValueModel> {
    m.map_values(|v: Value| v@)
}

/// A variable read against a base stack with one extra model-level frame on
/// top.
pub open spec fn lookup_m(
    base: Seq<Environment>,
    top: Map<Seq<char>, ValueModel>,
    name: Seq<char>,
) -> Option<ValueModel> {
    if top.contains_key(name) {
        Some(top[name])
    } else {
        match stack_lookup(base, name) {
            Some(v) => Some(v@),
            None => None,
        }
    }
}

/// A pure expression evaluated against a base stack with one extra
/// model-level frame on top.
pub open spec fn pure_eval2(
    base: Seq<Environment>,
    top: Map<Seq<char>, ValueModel>,
    item: crate::line::ItemModel,
) -> Result<ValueModel, ErrorKind> {
    match item {
        crate::line::ItemModel::Num { n } => Ok(ValueModel::Num { n }),
        crate::line::ItemModel::Txt { text } => Ok(ValueModel::Txt { text }),
        crate::line::ItemModel::Lbl { text } => match lookup_m(base, top, text) {
            Some(m) => Ok(m),
            None => Err(ErrorKind::Unbound),
        },
        _ => Err(ErrorKind::TypeMismatch),
    }
}

/// The left-to-right binding of call arguments to the parameters of the
/// function line: each argument is evaluated with the parameters bound so
/// far already in scope.
pub open spec fn bind_args(
    base: Seq<Environment>,
    fitems: Seq<crate::line::ItemModel>,
    citems: Seq<crate::line::ItemModel>,
    i: int,
    n: int,
    acc: Map<Seq<char>, ValueModel>,
) -> Result<Map<Seq<char>, ValueModel>, ErrorKind>
    decreases n - i,
{
    if i >= n {
        Ok(acc)
    } else {
        match pure_eval2(base, acc, citems[i]) {
            Err(k) => Err(k),
            Ok(m) => match fitems[i] {
                crate::line::ItemModel::Lbl { text } => bind_args(
                    base,
                    fitems,
                    citems,
                    i + 1,
                    n,
                    acc.insert(text, m),
                ),
                _ => Err(ErrorKind::TypeMismatch),
            },
        }
    }
}

/// A fold over the arguments splits at any midpoint.
proof fn lemma_bind_split(
    base: Seq<Environment>,
    fitems: Seq<crate::line::ItemModel>,
    citems: Seq<crate::line::ItemModel>,
    s: int,
    m: int,
    n: int,
    acc: Map<Seq<char>, ValueModel>,
)
    requires
        s <= m <= n,
    ensures
        bind_args(base, fitems, citems, s, n, acc) == (match bind_args(
            base,
            fitems,
            citems,
            s,
            m,
            acc,
        ) {
            Ok(mid) => bind_args(base, fitems, citems, m, n, mid),
            Err(k) => Err::<Map<Seq<char>, ValueModel>, ErrorKind>(k),
        }),
    decreases m - s,
{
    if s < m {
        match pure_eval2(base, acc, citems[s]) {
            Err(k) => {},
            Ok(v) => {
                match fitems[s] {
                    crate::line::ItemModel::Lbl { text } => {
                        lemma_bind_split(base, fitems, citems, s + 1, m, n, acc.insert(text, v));
                    },
                    _ => {},
                }
            },
        }
    }
}

/// A pure expression reads the same against the pushed frame and against
/// its model.
proof fn lemma_pure_eval_push(
    base: Seq<Environment>,
    envs: Seq<Environment>,
    top: Map<Seq<char>, ValueModel>,
    item: crate::line::ItemModel,
)
    requires
        envs.len() == base.len() + 1,
        forall|i: int| 0 <= i < base.len() ==> (#[trigger] envs[i]) == base[i],
        bindings_m(envs.last().bindings()) == top,
    ensures
        pure_eval(envs, item) == pure_eval2(base, top, item),
{
    match item {
        crate::line::ItemModel::Lbl { text } => {
            assert(envs.drop_last() =~= base);
            if envs.last().bindings().contains_key(text) {
                assert(top.contains_key(text));
                assert(top[text] == envs.last().bindings()[text]@);
            } else {
                assert(!top.contains_key(text));
            }
        },
        _ => {},
    }
}

impl VM {
    /// Pushes a frame for a call: the return address is the line after the
    /// call, and each parameter of the function line is bound to the
    /// corresponding evaluated call argument.
    pub fn call_function(
        &mut self,
        function_line: &crate::line::Line,
        call_line: &crate::line::Line,
        file: &String,
        fun: usize,
        ret: usize,
    ) -> (r: Result<Label, ErrorKind>)
        requires
            old(self).wf(),
            ret < usize::MAX,
        ensures
            final(self).wf(),
            final(self).labels == old(self).labels,
            final(self).table_creations == old(self).table_creations,
            heap_extended(old(self).heap(), final(self).heap()),
            forall|i: int|
                0 <= i < old(self).environment@.len() ==> (#[trigger] final(self).environment@[i])
                    == old(self).environment@[i],
            ({
                let fitems = crate::line::items_model(function_line.items@);
                let citems = crate::line::items_model(call_line.items@);
                let pure_args = all_pure(citems, 2, fitems.len() as int);
                match r {
                    Ok(l) => {
                        &&& l.line_number == fun
                        &&& fitems.len() >= 2
                        &&& citems.len() >= fitems.len()
                        &&& final(self).environment@.len() == old(self).environment@.len() + 1
                        &&& final(self).environment@.last().return_address matches Some(back)
                            && back.line_number == ret + 1 && back.file@ == file@
                        &&& (pure_args ==> (bind_args(
                            old(self).environment@,
                            fitems,
                            citems,
                            2,
                            fitems.len() as int,
                            Map::empty(),
                        ) matches Ok(binds) && bindings_m(
                            final(self).environment@.last().bindings(),
                        ) =~= binds && final(self).table_manager == old(self).table_manager))
                    },
                    Err(k) => {
                        &&& final(self).environment@ == old(self).environment@
                        &&& (if fitems.len() < 2 || citems.len() < 2 || fitems.len()
                            > citems.len() {
                            k == ErrorKind::WrongArity && final(self).table_manager == old(self).table_manager
                        } else {
                            pure_args ==> bind_args(
                                old(self).environment@,
                                fitems,
                                citems,
                                2,
                                fitems.len() as int,
                                Map::empty(),
                            ) == Err::<Map<Seq<char>, ValueModel>, ErrorKind>(k) && final(self).table_manager == old(self).table_manager
                        })
                        &&& (fitems.len() >= 2 && citems.len() >= fitems.len() && pure_args
                            && bind_args(
                            old(self).environment@,
                            fitems,
                            citems,
                            2,
                            fitems.len() as int,
                            Map::empty(),
                        ) is Ok ==> false)
                    },
                }
            }),
    {
        proof {
            crate::line::lemma_items_model_len(function_line.items@);
            crate::line::lemma_items_model_len(call_line.items@);
        }
        if function_line.items.len() < 2 || call_line.items.len() < 2 {
            return Err(ErrorKind::WrongArity);
        }
        let num_arguments = function_line.items.len() - 2;
        if num_arguments > call_line.items.len() - 2 {
            return Err(ErrorKind::WrongArity);
        }
        let back = Label { file: file.clone(), line_number: ret + 1 };
        let new_env = Environment::that_returns_to(Some(back));
        let ghost pre = self.environment@;
        self.environment.push(new_env);
        proof {
            assert(forall|i: int| 0 <= i < pre.len() ==> (#[trigger] self.environment@[i]) == pre[i]);
            assert(self.environment@.last().return_address matches Some(b) && b.line_number == ret
                + 1 && b.file@ == file@);
            assert(envs_ok(self.heap(), self.environment@)) by {
                assert forall|i: int, j: int|
                    0 <= i < self.environment@.len() && 0 <= j
                        < self.environment@[i].variables@.len() implies value_ok(
                    self.heap(),
                    (#[trigger] self.environment@[i].variables@[j]).1,
                ) by {
                    if i < pre.len() {
                        assert(self.environment@[i] == pre[i]);
                    }
                }
            }
        }
        let ghost fitems = crate::line::items_model(function_line.items@);
        let ghost citems = crate::line::items_model(call_line.items@);
        let ghost pure_args = all_pure(citems, 2, fitems.len() as int);
        let mut i: usize = 2;
        while i < num_arguments + 2
            invariant
                2 <= i <= num_arguments + 2,
                num_arguments <= usize::MAX - 2,
                num_arguments + 2 == function_line.items@.len(),
                num_arguments + 2 <= call_line.items@.len(),
                fitems == crate::line::items_model(function_line.items@),
                citems == crate::line::items_model(call_line.items@),
                fitems.len() == num_arguments + 2,
                citems.len() == call_line.items@.len(),
                pure_args == all_pure(citems, 2, fitems.len() as int),
                self.wf(),
                self.labels == old(self).labels,
                self.table_creations == old(self).table_creations,
                heap_extended(old(self).heap(), self.heap()),
                self.environment@.len() == old(self).environment@.len() + 1,
                forall|m: int|
                    0 <= m < old(self).environment@.len() ==> (#[trigger] self.environment@[m])
                        == old(self).environment@[m],
                self.environment@.last().return_address matches Some(b) && b.line_number == ret + 1
                    && b.file@ == file@,
                old(self).wf(),
                pure_args ==> (bind_args(
                    old(self).environment@,
                    fitems,
                    citems,
                    2,
                    i as int,
                    Map::empty(),
                ) matches Ok(acc) && bindings_m(self.environment@.last().bindings()) =~= acc
                    && self.table_manager == old(self).table_manager),
            decreases num_arguments + 2 - i,
        {
            proof {
                crate::line::lemma_items_model_len(function_line.items@);
                crate::line::lemma_items_model_len(call_line.items@);
                crate::line::lemma_items_model_index(call_line.items@, i as int);
                crate::line::lemma_items_model_index(function_line.items@, i as int);
            }
            let ghost before = *self;
            let value = match self.line_item_as_value(&call_line.items[i]) {
                Ok(v) => v,
                Err(k) => {
                    proof {
                        reveal_with_fuel(bind_args, 3);
                        lemma_extended_trans(old(self).heap(), before.heap(), self.heap());
                        if pure_args {
                            let acc = bind_args(
                                old(self).environment@,
                                fitems,
                                citems,
                                2,
                                i as int,
                                Map::empty(),
                            )->Ok_0;
                            lemma_pure_eval_push(
                                old(self).environment@,
                                before.environment@,
                                acc,
                                citems[i as int],
                            );
                            lemma_bind_split(
                                old(self).environment@,
                                fitems,
                                citems,
                                2,
                                i as int,
                                fitems.len() as int,
                                Map::empty(),
                            );
                        }
                    }
                    let _ = self.environment.pop();
                    proof {
                        assert(self.environment@ =~= old(self).environment@);
                        assert(envs_ok(self.heap(), self.environment@)) by {
                            assert forall|a: int, b: int|
                                0 <= a < self.environment@.len() && 0 <= b
                                    < self.environment@[a].variables@.len() implies value_ok(
                                self.heap(),
                                (#[trigger] self.environment@[a].variables@[b]).1,
                            ) by {
                                assert(self.environment@[a] == old(self).environment@[a]);
                                assert(envs_ok(old(self).heap(), old(self).environment@));
                                assert(value_ok(
                                    old(self).heap(),
                                    old(self).environment@[a].variables@[b].1,
                                ));
                                lemma_value_ok_extended(
                                    old(self).heap(),
                                    self.heap(),
                                    old(self).environment@[a].variables@[b].1,
                                );
                            }
                        }
                    }
                    return Err(k);
                },
            };
            proof {
                lemma_extended_trans(old(self).heap(), before.heap(), self.heap());
                if pure_args {
                    let acc = bind_args(
                        old(self).environment@,
                        fitems,
                        citems,
                        2,
                        i as int,
                        Map::empty(),
                    )->Ok_0;
                    lemma_pure_eval_push(
                        old(self).environment@,
                        before.environment@,
                        acc,
                        citems[i as int],
                    );
                    lemma_bind_split(
                        old(self).environment@,
                        fitems,
                        citems,
                        2,
                        i as int,
                        fitems.len() as int,
                        Map::empty(),
                    );
                }
            }
            match &function_line.items[i] {
                crate::line::LineItem::Label(param) => {
                    let owned = param.clone();
                    self.assign_variable(&owned, value);
                    proof {
                        reveal_with_fuel(bind_args, 3);
                        if pure_args {
                            let acc = bind_args(
                                old(self).environment@,
                                fitems,
                                citems,
                                2,
                                i as int,
                                Map::empty(),
                            )->Ok_0;
                            assert(bindings_m(self.environment@.last().bindings()) =~= acc.insert(
                                owned@,
                                value@,
                            ));
                            lemma_bind_split(
                                old(self).environment@,
                                fitems,
                                citems,
                                2,
                                i as int,
                                i + 1,
                                Map::empty(),
                            );
                            assert(is_pure_item(citems[i as int]));
                            assert(pure_eval2(old(self).environment@, acc, citems[i as int])
                                == Ok::<ValueModel, ErrorKind>(value@));
                            assert(fitems[i as int] == (crate::line::ItemModel::Lbl {
                                text: owned@,
                            }));
                            assert(bind_args(
                                old(self).environment@,
                                fitems,
                                citems,
                                i as int,
                                i + 1,
                                acc,
                            ) == Ok::<Map<Seq<char>, ValueModel>, ErrorKind>(
                                acc.insert(owned@, value@),
                            ));
                            assert(bind_args(
                                old(self).environment@,
                                fitems,
                                citems,
                                2,
                                i + 1,
                                Map::empty(),
                            ) == Ok::<Map<Seq<char>, ValueModel>, ErrorKind>(
                                acc.insert(owned@, value@),
                            ));
                        }
                    }
                },
                _ => {
                    proof {
                        reveal_with_fuel(bind_args, 3);
                        if pure_args {
                            let acc = bind_args(
                                old(self).environment@,
                                fitems,
                                citems,
                                2,
                                i as int,
                                Map::empty(),
                            )->Ok_0;
                            assert(!(fitems[i as int] is Lbl));
                            assert(bind_args(
                                old(self).environment@,
                                fitems,
                                citems,
                                2,
                                fitems.len() as int,
                                Map::empty(),
                            ) == Err::<Map<Seq<char>, ValueModel>, ErrorKind>(
                                ErrorKind::TypeMismatch,
                            ));
                        }
                    }
                    let _ = self.environment.pop();
                    proof {
                        assert(self.environment@ =~= old(self).environment@);
                        assert(envs_ok(self.heap(), self.environment@)) by {
                            assert forall|a: int, b: int|
                                0 <= a < self.environment@.len() && 0 <= b
                                    < self.environment@[a].variables@.len() implies value_ok(
                                self.heap(),
                                (#[trigger] self.environment@[a].variables@[b]).1,
                            ) by {
                                assert(self.environment@[a] == old(self).environment@[a]);
                                assert(envs_ok(old(self).heap(), old(self).environment@));
                                assert(value_ok(
                                    old(self).heap(),
                                    old(self).environment@[a].variables@[b].1,
                                ));
                                lemma_value_ok_extended(
                                    old(self).heap(),
                                    self.heap(),
                                    old(self).environment@[a].variables@[b].1,
                                );
                            }
                        }
                    }
                    return Err(ErrorKind::TypeMismatch);
                },
            }
            i = i + 1;
        }
        proof {
            if pure_args {
                assert(bind_args(
                    old(self).environment@,
                    fitems,
                    citems,
                    2,
                    fitems.len() as int,
                    Map::empty(),
                ) is Ok);
            }
        }
        Ok(Label { file: file.clone(), line_number: fun })
    }

    /// Pops the callee frame: an optional return expression is evaluated in
    /// the callee and stored under `@save` in the caller.
    pub fn return_from_function(&mut self, return_line: &crate::line::Line, line_number: usize) -> (r:
        Result<Label, ErrorKind>)
        requires
            old(self).wf(),
        ensures
            final(self).wf(),
            final(self).labels == old(self).labels,
            final(self).table_creations == old(self).table_creations,
            heap_extended(old(self).heap(), final(self).heap()),
            old(self).environment@.len() >= 2 && (return_line@.items.len() <= 1 || (is_pure_item(
                return_line@.items[1],
            ) && pure_eval(old(self).environment@, return_line@.items[1]) is Ok)) ==> r is Ok,
            (return_line@.items.len() <= 1 || is_pure_item(return_line@.items[1])) ==> final(self).table_manager == old(self).table_manager,
            match r {
                Ok(l) => {
                    &&& old(self).environment@.len() >= 2
                    &&& final(self).environment@.len() == old(self).environment@.len() - 1
                    &&& final(self).environment@.last().return_address == old(self).environment@[old(self).environment@.len() - 2].return_address
                    &&& (old(self).environment@.last().return_address matches Some(l0) && l
                        == l0)
                    &&& forall|i: int|
                        0 <= i < final(self).environment@.len() - 1 ==> (#[trigger] final(self).environment@[i]) == old(self).environment@[i]
                    &&& (return_line@.items.len() <= 1 ==> final(self).environment@ == old(self).environment@.drop_last())
                    &&& (return_line@.items.len() > 1 ==> final(self).environment@.last().bindings().contains_key("@save"@) && final(self).environment@.last().bindings().remove("@save"@) =~= old(self).environment@[old(self).environment@.len() - 2].bindings().remove("@save"@))
                    &&& (return_line@.items.len() > 1 && is_pure_item(return_line@.items[1]) ==> (pure_eval(old(self).environment@, return_line@.items[1]) matches Ok(m) && final(self).environment@.last().bindings()["@save"@]@ == m))
                },
                Err(k) => {
                    &&& (old(self).environment@.len() == 1 ==> k == ErrorKind::RootReturn && *final(self) == *old(self))
                    &&& (old(self).environment@.len() > 1 && return_line@.items.len() > 1
                        && is_pure_item(return_line@.items[1]) ==> pure_eval(
                        old(self).environment@,
                        return_line@.items[1],
                    ) == Err::<ValueModel, ErrorKind>(k))
                    &&& final(self).environment@ == old(self).environment@
                },
            },
    {
        proof {
            crate::line::lemma_items_model_len(return_line.items@);
            if return_line.items@.len() > 1 {
                crate::line::lemma_items_model_index(return_line.items@, 1);
            }
        }
        if self.environment.len() <= 1 {
            return Err(ErrorKind::RootReturn);
        }
        let has_expr = return_line.items.len() > 1;
        let return_value = if has_expr {
            let ghost before = *self;
            match self.line_item_as_value(&return_line.items[1]) {
                Ok(v) => Some(v),
                Err(k) => {
                    return Err(k);
                },
            }
        } else {
            None
        };
        let ghost pre_pop = *self;
        let popped = match self.environment.pop() {
            Some(env) => env,
            None => {
                proof {
                    assert(false);
                }
                return Err(ErrorKind::InternalInvariant);
            },
        };
        let back = match popped.return_address {
            Some(l) => l,
            None => {
                proof {
                    assert(false);
                }
                return Err(ErrorKind::InternalInvariant);
            },
        };
        proof {
            assert(self.environment@ =~= pre_pop.environment@.drop_last());
            assert(envs_ok(self.heap(), self.environment@)) by {
                assert forall|i: int, j: int|
                    0 <= i < self.environment@.len() && 0 <= j
                        < self.environment@[i].variables@.len() implies value_ok(
                    self.heap(),
                    (#[trigger] self.environment@[i].variables@[j]).1,
                ) by {
                    assert(self.environment@[i] == pre_pop.environment@[i]);
                }
            }
        }
        match return_value {
            Some(v) => {
                let save = String::from_str("@save");
                proof {
                    reveal_strlit("@save");
                }
                self.assign_variable(&save, v);
            },
            None => {},
        }
        Ok(back)
    }

    /// Creates a table bound to a name, pacing the collector: every
    /// twenty-first creation triggers a collection.
    pub fn create_table(&mut self, name: &String, dimensions: &Vec<usize>) -> (r: Result<
        (),
        ErrorKind,
    >)
        requires
            old(self).wf(),
        ensures
            final(self).wf(),
            final(self).labels == old(self).labels,
            final(self).environment@.len() == old(self).environment@.len(),
            r is Ok ==> final(self).table_creations as int == if old(self).table_creations + 1
                >= 20 {
                0int
            } else {
                old(self).table_creations + 1
            },
            crate::table::dims_product(dimensions@) <= usize::MAX
                && old(self).table_manager.tables@.len() < usize::MAX ==> r is Ok,
            old(self).table_creations + 1 >= 20 && r is Ok ==> forall|k: int|
                final(self).heap().contains_key(k) ==> crate::table::reachable(
                    final(self).heap(),
                    final(self).environment@,
                    k,
                ),
            match r {
                Ok(()) => {
                    &&& bound_in_top(*old(self), *final(self), name@)
                    &&& !old(self).heap().contains_key(
                        final(self).environment@.last().bindings()[name@]@->Tbl_handle,
                    )
                    &&& final(self).environment@.last().bindings().contains_key(name@)
                    &&& final(self).environment@.last().bindings()[name@]@ matches ValueModel::Tbl {
                        handle,
                        offset,
                    } && offset == crate::table::zero_offsets(dimensions@.len() as int) && final(self).heap().contains_key(handle) && final(self).heap()[handle].dims == dimensions@
                        && final(self).heap()[handle].cells.len() == crate::table::dims_product(
                        dimensions@,
                    ) && (forall|c: int|
                        0 <= c < final(self).heap()[handle].cells.len() ==> (#[trigger] final(self).heap()[handle].cells[c])@ is Uninit)
                },
                Err(k) => k == ErrorKind::TableTooLarge && final(self).environment@ == old(self).environment@ && final(self).heap() == old(self).heap() && final(self).table_creations == old(self).table_creations,
            },
    {
        let value = match self.table_manager.create_table(dimensions) {
            Ok(v) => v,
            Err(k) => {
                proof {
                    assert(self.heap() == old(self).heap());
                }
                return Err(k);
            },
        };
        let ghost h = value@->Tbl_handle;
        proof {
            assert(heap_extended(old(self).heap(), self.heap()));
            assert(envs_ok(self.heap(), self.environment@)) by {
                assert forall|i2: int, j2: int|
                    0 <= i2 < self.environment@.len() && 0 <= j2
                        < self.environment@[i2].variables@.len() implies value_ok(
                    self.heap(),
                    (#[trigger] self.environment@[i2].variables@[j2]).1,
                ) by {
                    lemma_value_ok_extended(
                        old(self).heap(),
                        self.heap(),
                        self.environment@[i2].variables@[j2].1,
                    );
                }
            }
            assert(heap_ok(self.heap())) by {
                assert forall|k: int, c: int|
                    self.heap().contains_key(k) && 0 <= c
                        < self.heap()[k].cells.len() implies value_ok(
                    self.heap(),
                    (#[trigger] self.heap()[k].cells[c]),
                ) by {
                    lemma_heap_cells_wf(self.table_manager, k, c);
                    if old(self).heap().contains_key(k) {
                        lemma_value_ok_extended(
                            old(self).heap(),
                            self.heap(),
                            self.heap()[k].cells[c],
                        );
                    } else {
                        assert(self.heap()[k].cells[c]@ is Uninit);
                    }
                }
            }
        }
        self.assign_variable(name, value);
        proof {
            let envs = self.environment@;
            let top = envs.len() - 1;
            assert(envs.last().bindings().contains_key(name@));
            assert(envs.last().bindings()[name@] == value);
            crate::environment::lemma_assoc_map_contains(envs.last().variables@, name@);
            let j = choose|j: int|
                0 <= j < envs.last().variables@.len() && (#[trigger] envs.last().variables@[j]).0@
                    == name@;
            crate::environment::lemma_assoc_map_get(envs.last().variables@, j);
            assert(envs[top].variables@[j].1 == value);
            assert(crate::table::value_handle(envs[top].variables@[j].1) == Some(h));
            assert(crate::table::is_root(envs, h));
        }
        let ghost bound = *self;
        self.table_creations = self.table_creations + 1;
        if self.table_creations >= 20 {
            self.table_creations = 0;
            self.collect_garbage();
            proof {
                assert(self.heap().contains_key(h));
                assert(self.heap()[h].dims == bound.heap()[h].dims);
                assert(self.heap()[h].cells == bound.heap()[h].cells);
                assert forall|k: int|
                    self.heap().contains_key(k) implies crate::table::reachable(
                    self.heap(),
                    self.environment@,
                    k,
                ) by {
                    assert(crate::table::reachable(bound.heap(), bound.environment@, k));
                    let n = choose|n: nat|
                        crate::table::reach_n(bound.heap(), bound.environment@, k, n);
                    assert(self.environment@ == bound.environment@);
                    crate::table::lemma_reach_in_survivors(
                        bound.heap(),
                        self.heap(),
                        bound.environment@,
                        k,
                        n,
                    );
                    assert(crate::table::reach_n(self.heap(), self.environment@, k, n));
                }
            }
        }
        proof {
            assert(self.environment@.last().bindings().contains_key(name@));
            assert(self.environment@.last().bindings()[name@] == value);
        }
        Ok(())
    }

    /// A full mark-sweep cycle with the frames' bindings as roots. Every
    /// table value held in any binding keeps its handle and its extents.
    pub fn collect_garbage(&mut self)
        requires
            old(self).wf(),
        ensures
            final(self).wf(),
            final(self).environment@ == old(self).environment@,
            final(self).labels == old(self).labels,
            final(self).table_creations == old(self).table_creations,
            forall|k: int|
                final(self).heap().contains_key(k) ==> old(self).heap().contains_key(k) && (
                #[trigger] final(self).heap()[k]).dims == old(self).heap()[k].dims && final(self).heap()[k].cells == old(self).heap()[k].cells,
            forall|h: int|
                crate::table::is_root(old(self).environment@, h) && old(self).heap().contains_key(h) ==> final(self).heap().contains_key(h),
            forall|k: int|
                final(self).heap().contains_key(k) <==> (old(self).heap().contains_key(k)
                    && crate::table::reachable(old(self).heap(), old(self).environment@, k)),
    {
        self.table_manager.mark(&self.environment);
        let ghost marked = *self;
        self.table_manager.sweep();
        proof {
            let pre_h = old(self).heap();
            let mid_h = marked.heap();
            let post_h = self.heap();
            assert(crate::table::swept_heap(mid_h, post_h));
            assert forall|k: int|
                post_h.contains_key(k) implies pre_h.contains_key(k) && (
            #[trigger] post_h[k]).dims == pre_h[k].dims && post_h[k].cells == pre_h[k].cells by {
                crate::table::lemma_swept_facts(mid_h, post_h, k);
            }
            assert forall|h: int|
                crate::table::is_root(old(self).environment@, h) && pre_h.contains_key(
                    h,
                ) implies post_h.contains_key(h) by {
                assert(mid_h[h].marked);
                crate::table::lemma_swept_keeps(mid_h, post_h, h);
            }
            assert forall|k: int|
                post_h.contains_key(k) implies pre_h.contains_key(k)
                    && crate::table::reachable(pre_h, old(self).environment@, k) by {
                crate::table::lemma_swept_facts(mid_h, post_h, k);
            }
            assert forall|k: int|
                pre_h.contains_key(k) && crate::table::reachable(
                    pre_h,
                    old(self).environment@,
                    k,
                ) implies post_h.contains_key(k) by {
                let n = choose|n: nat|
                    crate::table::reach_n(pre_h, old(self).environment@, k, n);
                crate::table::lemma_reachable_marked(
                    pre_h,
                    mid_h,
                    old(self).environment@,
                    k,
                    n,
                );
                crate::table::lemma_swept_keeps(mid_h, post_h, k);
            }
            assert(envs_ok(post_h, self.environment@)) by {
                assert forall|i: int, j: int|
                    0 <= i < self.environment@.len() && 0 <= j
                        < self.environment@[i].variables@.len() implies value_ok(
                    post_h,
                    (#[trigger] self.environment@[i].variables@[j]).1,
                ) by {
                    let v = self.environment@[i].variables@[j].1;
                    match v@ {
                        ValueModel::Tbl { handle, offset } => {
                            assert(crate::table::is_root(old(self).environment@, handle)) by {
                                assert(crate::table::value_handle(
                                    old(self).environment@[i].variables@[j].1,
                                ) == Some(handle));
                            }
                            assert(mid_h[handle].marked);
                            crate::table::lemma_swept_keeps(mid_h, post_h, handle);
                        },
                        _ => {},
                    }
                }
            }
            assert(heap_ok(post_h)) by {
                assert forall|k: int, c: int|
                    post_h.contains_key(k) && 0 <= c < post_h[k].cells.len() implies value_ok(
                    post_h,
                    (#[trigger] post_h[k].cells[c]),
                ) by {
                    lemma_heap_cells_wf(self.table_manager, k, c);
                    let cell = post_h[k].cells[c];
                    match cell@ {
                        ValueModel::Tbl { handle, offset } => {
                            crate::table::lemma_swept_facts(mid_h, post_h, k);
                            assert(mid_h[k].cells[c] == cell);
                            assert(crate::table::value_handle(cell) == Some(handle));
                            assert(pre_h.contains_key(k));
                            assert(pre_h[k].cells[c] == cell);
                            assert(value_ok(pre_h, cell));
                            assert(mid_h.contains_key(handle));
                            assert(crate::table::marked_closed(mid_h));
                            assert(mid_h[handle].marked);
                            crate::table::lemma_swept_keeps(mid_h, post_h, handle);
                        },
                        _ => {},
                    }
                }
            }
        }
    }
}

/// Reading a name right after binding it in the innermost frame yields the
/// value bound: the innermost binding always wins.
pub proof fn lemma_read_after_assign(envs: Seq<Environment>, name: Seq<char>, value: Value)
    requires
        envs.len() >= 1,
        envs.last().bindings().contains_key(name),
        envs.last().bindings()[name] == value,
    ensures
        stack_lookup(envs, name) == Some(value),
{
}

/// A call followed by a return with no errors in between restores the frame
/// stack height: the call pushes exactly one frame and the return pops
/// exactly one.
pub proof fn lemma_call_return_restores_height(before: VM, during: VM, after: VM)
    requires
        during.environment@.len() == before.environment@.len() + 1,
        after.environment@.len() == during.environment@.len() - 1,
    ensures
        after.environment@.len() == before.environment@.len(),
{
}

/// What one step of the evaluator hands back: the next line to run with any
/// text to print, or a request for one input line at an `ASK`.
pub enum StepOutcome {
    Next { pc: usize, output: Option<String> },
    NeedInput { prompt: String },
}

/// A name, unchanged; a handle for quantifier instantiation.
pub open spec fn seq_id(s: Seq<char>) -> Seq<char> {
    s
}

/// A label-defining command.
pub open spec fn is_label_command(c: crate::line::Command) -> bool {
    c == crate::line::Command::LABEL || c == crate::line::Command::FUNCTION || c
        == crate::line::Command::FOR
}

/// Whether a line defines a label: `LABEL`, `FUNCTION` and `FOR` lines
/// register their first argument.
pub open spec fn defines_label(line: crate::line::LineModel, name: Seq<char>) -> bool {
    &&& line.items.len() >= 2
    &&& line.items[0] is Cmd
    &&& is_label_command(line.items[0]->Cmd_op)
    &&& line.items[1] == (crate::line::ItemModel::Lbl { text: name })
}

/// The line a name labels after the scan: the last defining line wins.
pub open spec fn scan_index(lines: Seq<crate::line::LineModel>, name: Seq<char>) -> Option<int>
    decreases lines.len(),
{
    if lines.len() == 0 {
        None
    } else if defines_label(lines.last(), name) {
        Some(lines.len() - 1)
    } else {
        scan_index(lines.drop_last(), name)
    }
}

/// The input line an `ASK` stores: the trailing newline, if any, is removed.
pub open spec fn stripped(s: Seq<char>) -> Seq<char> {
    if s.len() >= 2 && s[s.len() - 2] == '\r' && s[s.len() - 1] == '\n' {
        s.take(s.len() - 2)
    } else if s.len() >= 1 && s[s.len() - 1] == '\n' {
        s.take(s.len() - 1)
    } else {
        s
    }
}

fn strip_newline(s: String) -> (r: String)
    ensures
        r@ == stripped(s@),
{
    let n = s.as_str().unicode_len();
    if n >= 2 && s.as_str().get_char(n - 2) == '\r' && s.as_str().get_char(n - 1) == '\n' {
        let r = s.as_str().substring_char(0, n - 2);
        proof {
            assert(r@ =~= stripped(s@));
        }
        r.to_owned()
    } else if n >= 1 && s.as_str().get_char(n - 1) == '\n' {
        let r = s.as_str().substring_char(0, n - 1);
        proof {
            assert(r@ =~= stripped(s@));
        }
        r.to_owned()
    } else {
        s
    }
}

/// Reads a pure expression as a table index or extent.
pub open spec fn index_of(envs: Seq<Environment>, item: crate::line::ItemModel) -> Result<
    int,
    ErrorKind,
> {
    match pure_eval(envs, item) {
        Ok(ValueModel::Num { n }) => if 0 <= n <= usize::MAX {
            Ok(n)
        } else {
            Err(ErrorKind::TypeMismatch)
        },
        Ok(_) => Err(ErrorKind::TypeMismatch),
        Err(k) => Err(k),
    }
}

/// The left-to-right reading of `count` pure index expressions, the first
/// error winning.
pub open spec fn indices_of(
    envs: Seq<Environment>,
    items: Seq<crate::line::ItemModel>,
    start: int,
    count: int,
) -> Result<Seq<usize>, ErrorKind>
    decreases count,
{
    if count <= 0 {
        Ok(Seq::empty())
    } else {
        match indices_of(envs, items, start, count - 1) {
            Ok(front) => match index_of(envs, items[start + count - 1]) {
                Ok(n) => Ok(front.push(n as usize)),
                Err(k) => Err(k),
            },
            Err(k) => Err(k),
        }
    }
}

proof fn lemma_indices_len(
    envs: Seq<Environment>,
    items: Seq<crate::line::ItemModel>,
    start: int,
    count: int,
)
    requires
        count >= 0,
        indices_of(envs, items, start, count) is Ok,
    ensures
        indices_of(envs, items, start, count)->Ok_0.len() == count,
    decreases count,
{
    if count > 0 {
        lemma_indices_len(envs, items, start, count - 1);
    }
}

proof fn lemma_indices_err_extends(
    envs: Seq<Environment>,
    items: Seq<crate::line::ItemModel>,
    start: int,
    m: int,
    count: int,
    k: ErrorKind,
)
    requires
        0 < m <= count,
        indices_of(envs, items, start, m) == Err::<Seq<usize>, ErrorKind>(k),
    ensures
        indices_of(envs, items, start, count) == Err::<Seq<usize>, ErrorKind>(k),
    decreases count - m,
{
    if m < count {
        lemma_indices_err_extends(envs, items, start, m + 1, count, k);
    }
}

/// Whether every item of a range is a pure expression.
pub open spec fn all_pure(items: Seq<crate::line::ItemModel>, start: int, until: int) -> bool {
    forall|q: int| start <= q < until ==> is_pure_item(#[trigger] items[q])
}

impl VM {
    fn eval_index_pure(&self, item: &crate::line::LineItem) -> (r: Result<usize, ErrorKind>)
        requires
            self.wf(),
        ensures
            match r {
                Ok(u) => index_of(self.environment@, crate::line::item_model(*item)) == Ok::<
                    int,
                    ErrorKind,
                >(u as int),
                Err(k) => index_of(self.environment@, crate::line::item_model(*item)) == Err::<
                    int,
                    ErrorKind,
                >(k),
            },
    {
        let v = match self.line_item_as_value_pure(item) {
            Ok(v) => v,
            Err(k) => {
                return Err(k);
            },
        };
        match v.value_type {
            crate::value::ValueType::Number => {
                let n = v.number_value;
                if n >= 0 && (n as u64) <= (usize::MAX as u64) {
                    Ok(n as usize)
                } else {
                    Err(ErrorKind::TypeMismatch)
                }
            },
            _ => Err(ErrorKind::TypeMismatch),
        }
    }

    /// Reads the `count` pure expressions of a line starting at `start` as
    /// indices.
    fn eval_indices_pure(&self, line: &crate::line::Line, start: usize, count: usize) -> (r: Result<
        Vec<usize>,
        ErrorKind,
    >)
        requires
            self.wf(),
            start + count <= line.items@.len(),
        ensures
            match r {
                Ok(v) => indices_of(
                    self.environment@,
                    crate::line::items_model(line.items@),
                    start as int,
                    count as int,
                ) == Ok::<Seq<usize>, ErrorKind>(v@),
                Err(k) => indices_of(
                    self.environment@,
                    crate::line::items_model(line.items@),
                    start as int,
                    count as int,
                ) == Err::<Seq<usize>, ErrorKind>(k),
            },
    {
        let ghost models = crate::line::items_model(line.items@);
        proof {
            crate::line::lemma_items_model_len(line.items@);
        }
        let mut v: Vec<usize> = Vec::new();
        let total_len = line.items.len();
        let mut m: usize = 0;
        while m < count
            invariant
                m <= count,
                start + count <= line.items@.len(),
                total_len == line.items@.len(),
                models == crate::line::items_model(line.items@),
                models.len() == total_len,
                self.wf(),
                v@.len() == m,
                indices_of(self.environment@, models, start as int, m as int) == Ok::<
                    Seq<usize>,
                    ErrorKind,
                >(v@),
            decreases count - m,
        {
            proof {
                crate::line::lemma_items_model_index(line.items@, start + m);
            }
            match self.eval_index_pure(&line.items[start + m]) {
                Ok(u) => {
                    let ghost prior = v@;
                    v.push(u);
                    proof {
                        assert(v@.drop_last() =~= prior);
                        assert(indices_of(
                            self.environment@,
                            models,
                            start as int,
                            m + 1,
                        ) == Ok::<Seq<usize>, ErrorKind>(prior.push(u)));
                        assert(v@ =~= prior.push(u));
                    }
                },
                Err(k) => {
                    proof {
                        assert(indices_of(self.environment@, models, start as int, m + 1)
                            == Err::<Seq<usize>, ErrorKind>(k));
                        lemma_indices_err_extends(
                            self.environment@,
                            models,
                            start as int,
                            m + 1,
                            count as int,
                            k,
                        );
                    }
                    return Err(k);
                },
            }
            m = m + 1;
        }
        Ok(v)
    }

    /// Resolves a jump target to a line index inside the program.
    fn resolve_target(&self, name: &String, pc: usize, code_len: usize) -> (r: Result<
        usize,
        ErrorKind,
    >)
        requires
            self.wf(),
            pc < code_len,
            code_len < usize::MAX,
        ensures
            match r {
                Ok(t) => self.labels.resolve(name@, pc as int) == Some(t as int) && t < code_len,
                Err(k) => k == ErrorKind::UnknownLabel && (self.labels.resolve(name@, pc as int)
                    is None || (self.labels.resolve(name@, pc as int) matches Some(t) && !(t
                    < code_len))),
            },
    {
        match self.labels.get_line_number_with_inferred(name.as_str(), &pc) {
            Some(n) => {
                if n < code_len {
                    Ok(n)
                } else {
                    Err(ErrorKind::UnknownLabel)
                }
            },
            None => Err(ErrorKind::UnknownLabel),
        }
    }

}

/// What the label scan establishes: the frames and heap untouched, and the
/// label table holding, for every name, the last line that defines it.
pub open spec fn scanned(
    pre: VM,
    post: VM,
    code: Seq<crate::line::Line>,
    file: Seq<char>,
) -> bool {
    &&& post.environment@ == pre.environment@
    &&& post.table_manager == pre.table_manager
    &&& post.table_creations == pre.table_creations
    &&& forall|name: Seq<char>|
        #![trigger post.labels.map().contains_key(name)]
        match scan_index(code.map(|q: int, l: crate::line::Line| l@), name) {
            Some(t) => post.labels.map().contains_key(name)
                && post.labels.map()[name].line_number as int == t
                && post.labels.map()[name].file@ == file,
            None => post.labels.map().contains_key(name) == pre.labels.map().contains_key(name)
                && (pre.labels.map().contains_key(name) ==> post.labels.map()[name]
                == pre.labels.map()[name]),
        }
}

impl VM {
    /// The first pass: records every label-defining line, later definitions
    /// overwriting earlier ones.
    pub fn scan_labels(&mut self, file: &str, code: &Vec<crate::line::Line>) -> (r: Result<
        (),
        crate::errors::RunError,
    >)
        requires
            old(self).wf(),
            forall|i: int|
                0 <= i < code@.len() ==> (#[trigger] code@[i])@.items.len() >= 1
                    && code@[i]@.items[0] is Cmd,
        ensures
            final(self).wf(),
            final(self).environment@ == old(self).environment@,
            final(self).table_manager == old(self).table_manager,
            final(self).table_creations == old(self).table_creations,
            match r {
                Ok(()) => scanned(*old(self), *final(self), code@, file@),
                Err(e) => e.kind == ErrorKind::TypeMismatch,
            },
    {
        let ghost models = code@.map(|q: int, l: crate::line::Line| l@);
        let n = code.len();
        let mut i: usize = 0;
        proof {
            assert(models.subrange(0, 0) =~= Seq::<crate::line::LineModel>::empty());
        }
        while i < n
            invariant
                i <= n,
                n == code@.len(),
                models == code@.map(|q: int, l: crate::line::Line| l@),
                models.len() == n,
                self.wf(),
                self.environment@ == old(self).environment@,
                self.table_manager == old(self).table_manager,
                self.table_creations == old(self).table_creations,
                forall|i2: int|
                    0 <= i2 < code@.len() ==> (#[trigger] code@[i2])@.items.len() >= 1
                        && code@[i2]@.items[0] is Cmd,
                forall|name: Seq<char>|
                    #![trigger self.labels.map().contains_key(name)]
                    match scan_index(models.subrange(0, i as int), name) {
                        Some(t) => self.labels.map().contains_key(name)
                            && self.labels.map()[name].line_number as int == t
                            && self.labels.map()[name].file@ == file@,
                        None => self.labels.map().contains_key(name) == old(self).labels.map().contains_key(name) && (old(self).labels.map().contains_key(name) ==> self.labels.map()[name] == old(self).labels.map()[name]),
                    },
            decreases n - i,
        {
            let line = &code[i];
            proof {
                crate::line::lemma_items_model_len(line.items@);
                if line.items@.len() >= 2 {
                    crate::line::lemma_items_model_index(line.items@, 1);
                }
                crate::line::lemma_items_model_index(line.items@, 0);
                assert(models[i as int] == line@);
                assert(models.subrange(0, i + 1).drop_last() =~= models.subrange(0, i as int));
                assert(models.subrange(0, i + 1).last() == models[i as int]);
            }
            let is_definer = match &line.items[0] {
                crate::line::LineItem::Command(c) => matches!(
                    c,
                    crate::line::Command::LABEL
                        | crate::line::Command::FUNCTION
                        | crate::line::Command::FOR
                ),
                _ => false,
            };
            if is_definer {
                if line.items.len() < 2 {
                    return Err(crate::errors::RunError::at(
                        ErrorKind::TypeMismatch,
                        line.line_number,
                    ));
                }
                match &line.items[1] {
                    crate::line::LineItem::Label(name) => {
                        self.add_label(name.clone(), file.to_owned(), i);
                        proof {
                            assert forall|nm: Seq<char>|
                                #![trigger self.labels.map().contains_key(nm)]
                                match scan_index(models.subrange(0, i + 1), nm) {
                                    Some(t) => self.labels.map().contains_key(nm)
                                        && self.labels.map()[nm].line_number as int == t
                                        && self.labels.map()[nm].file@ == file@,
                                    None => self.labels.map().contains_key(nm) == old(self).labels.map().contains_key(nm) && (old(self).labels.map().contains_key(nm)
                                        ==> self.labels.map()[nm] == old(self).labels.map()[nm]),
                                } by {
                                if defines_label(models[i as int], nm) {
                                    assert(nm == name@);
                                } else {
                                    assert(scan_index(models.subrange(0, i + 1), nm)
                                        == scan_index(models.subrange(0, i as int), nm));
                                    if nm != name@ {
                                    }
                                }
                            }
                        }
                    },
                    _ => {
                        return Err(crate::errors::RunError::at(
                            ErrorKind::TypeMismatch,
                            line.line_number,
                        ));
                    },
                }
            } else {
                proof {
                    assert(forall|nm: Seq<char>|
                        !defines_label(models[i as int], #[trigger] seq_id(nm)));
                    assert(forall|nm: Seq<char>|
                        #[trigger] scan_index(models.subrange(0, i + 1), nm) == scan_index(
                            models.subrange(0, i as int),
                            nm,
                        ));
                }
            }
            i = i + 1;
        }
        proof {
            assert(models.subrange(0, n as int) =~= models);
            assert(forall|name: Seq<char>|
                #![trigger self.labels.map().contains_key(name)]
                match scan_index(code@.map(|q: int, l: crate::line::Line| l@), name) {
                    Some(t) => self.labels.map().contains_key(name)
                        && self.labels.map()[name].line_number as int == t
                        && self.labels.map()[name].file@ == file@,
                    None => self.labels.map().contains_key(name) == old(self).labels.map().contains_key(name) && (old(self).labels.map().contains_key(name)
                        ==> self.labels.map()[name] == old(self).labels.map()[name]),
                });
        }
        Ok(())
    }
}

impl VM {
    /// A new view of the same storage: the supplied offsets are added to the
    /// view's, each strictly below its extent.
    #[verifier::rlimit(60)]
    #[verifier::spinoff_prover]
    pub fn slice_table(&self, table_value: &Value, offset: &Vec<usize>) -> (r: Result<
        Value,
        ErrorKind,
    >)
        requires
            self.wf(),
            table_value.wf(),
        ensures
            match r {
                Ok(v) => {
                    &&& v.wf()
                    &&& value_ok(self.heap(), v)
                    &&& table_value@ matches ValueModel::Tbl { handle, offset: base }
                    &&& v@ matches ValueModel::Tbl { handle: h2, offset: noff } && h2 == handle
                    &&& self.heap().contains_key(handle)
                    &&& offset@.len() == self.heap()[handle].dims.len()
                    &&& base.len() == self.heap()[handle].dims.len()
                    &&& v@->Tbl_offset.len() == self.heap()[handle].dims.len()
                    &&& forall|i: int|
                        0 <= i < offset@.len() ==> (#[trigger] v@->Tbl_offset[i]) as int == base[i]
                            + offset@[i] && base[i] + offset@[i] < self.heap()[handle].dims[i]
                },
                Err(k) => {
                    if !(table_value@ is Tbl) {
                        k == ErrorKind::TypeMismatch
                    } else if !self.heap().contains_key(table_value@->Tbl_handle) {
                        k == ErrorKind::InternalInvariant
                    } else if table_value@->Tbl_offset.len() != self.heap()[
                        table_value@->Tbl_handle].dims.len() || offset@.len() != self.heap()[
                        table_value@->Tbl_handle].dims.len() {
                        k == ErrorKind::DimensionMismatch
                    } else {
                        k == ErrorKind::SliceOutOfRange && exists|i: int|
                            0 <= i < offset@.len() && (#[trigger] table_value@->Tbl_offset[i])
                                + offset@[i] >= self.heap()[table_value@->Tbl_handle].dims[i]
                    }
                },
            },
    {
        if table_value.is_uninitialized() || !matches!(
            table_value.value_type,
            crate::value::ValueType::Table,
        ) {
            return Err(ErrorKind::TypeMismatch);
        }
        let dims = match self.table_manager.get_dimensions(table_value) {
            Ok(d) => d,
            Err(k) => {
                return Err(k);
            },
        };
        let base = match &table_value.slice_offset {
            Some(v) => v,
            None => {
                return Err(ErrorKind::DimensionMismatch);
            },
        };
        let n = dims.len();
        if base.len() != n || offset.len() != n {
            return Err(ErrorKind::DimensionMismatch);
        }
        let ghost h = table_value@->Tbl_handle;
        proof {
            assert(table_value@ matches ValueModel::Tbl { handle, offset: b } && handle == h && b
                == base@);
            assert(self.heap().contains_key(h));
            assert(self.heap()[h].dims == dims@);
        }
        let mut new_offset: Vec<usize> = Vec::new();
        let mut i: usize = 0;
        while i < n
            invariant
                i <= n,
                n == dims@.len(),
                base@.len() == n,
                offset@.len() == n,
                new_offset@.len() == i,
                table_value@ matches ValueModel::Tbl { handle, offset: b } && handle == h && b
                    == base@,
                self.heap().contains_key(h),
                self.heap()[h].dims == dims@,
                self.wf(),
                table_value.wf(),
                forall|q: int|
                    0 <= q < i ==> (#[trigger] new_offset@[q]) as int == base@[q] + offset@[q]
                        && base@[q] + offset@[q] < dims@[q],
            decreases n - i,
        {
            let sum = match base[i].checked_add(offset[i]) {
                Some(s) => s,
                None => {
                    proof {
                        assert(base@[i as int] + offset@[i as int] > usize::MAX);
                        assert(dims@[i as int] <= usize::MAX);
                    }
                    return Err(ErrorKind::SliceOutOfRange);
                },
            };
            if sum >= dims[i] {
                return Err(ErrorKind::SliceOutOfRange);
            }
            new_offset.push(sum);
            i = i + 1;
        }
        Ok(
            Value {
                value_type: crate::value::ValueType::Table,
                string_value: None,
                number_value: 0,
                table_index: table_value.table_index,
                slice_offset: Some(new_offset),
            },
        )
    }
}

/// A jump target that lands inside the program.
pub open spec fn jump(labels: LabelMap, name: Seq<char>, pc: int, len: int) -> Option<int> {
    match labels.resolve(name, pc) {
        Some(t) => if 0 <= t < len {
            Some(t)
        } else {
            None
        },
        None => None,
    }
}

/// Truthiness of a value model: false exactly for the number zero.
pub open spec fn model_truthy(m: ValueModel) -> bool {
    !(m matches ValueModel::Num { n } && n == 0)
}

/// What `CALL target expr…` does at the step level: target resolution,
/// arity checks, the pushed frame with its return address, and — for pure
/// arguments — the exact parameter bindings, with success owed.
#[verifier::opaque]
pub open spec fn call_step_post(
    pre: VM,
    post: VM,
    code: Seq<crate::line::Line>,
    file: Seq<char>,
    pc: int,
    len: int,
    r: Result<usize, ErrorKind>,
) -> bool {
    let items = crate::line::items_model(code[pc].items@);
    if items.len() < 2 {
        r == Err::<usize, ErrorKind>(ErrorKind::WrongArity) && quiet(pre, post)
    } else if !(items[1] is Lbl || items[1] is Txt) {
        r == Err::<usize, ErrorKind>(ErrorKind::TypeMismatch) && quiet(pre, post)
    } else {
        let tname = if items[1] is Lbl {
            items[1]->Lbl_text
        } else {
            items[1]->Txt_text
        };
        if !pre.labels.map().contains_key(tname) {
            r == Err::<usize, ErrorKind>(ErrorKind::UnknownLabel) && quiet(pre, post)
        } else {
            let fun = pre.labels.map()[tname].line_number as int;
            if fun >= len {
                r == Err::<usize, ErrorKind>(ErrorKind::UnknownLabel) && quiet(pre, post)
            } else {
                let fitems = crate::line::items_model(code[fun].items@);
                let pure_args = all_pure(items, 2, fitems.len() as int);
                match r {
                    Ok(t) => {
                        &&& t as int == fun
                        &&& fitems.len() >= 2
                        &&& items.len() >= fitems.len()
                        &&& post.environment@.len() == pre.environment@.len() + 1
                        &&& (forall|i: int|
                            0 <= i < pre.environment@.len() ==> (
                            #[trigger] post.environment@[i]) == pre.environment@[i])
                        &&& (post.environment@.last().return_address matches Some(b)
                            && b.line_number as int == pc + 1 && b.file@ == file)
                        &&& (pure_args ==> (bind_args(
                            pre.environment@,
                            fitems,
                            items,
                            2,
                            fitems.len() as int,
                            Map::empty(),
                        ) matches Ok(binds) && bindings_m(post.environment@.last().bindings())
                            =~= binds && post.table_manager == pre.table_manager))
                    },
                    Err(k) => {
                        &&& post.environment@ == pre.environment@
                        &&& (fitems.len() < 2 || items.len() < fitems.len() ==> k
                            == ErrorKind::WrongArity)
                        &&& (fitems.len() >= 2 && items.len() >= fitems.len() && pure_args
                            ==> bind_args(
                            pre.environment@,
                            fitems,
                            items,
                            2,
                            fitems.len() as int,
                            Map::empty(),
                        ) == Err::<Map<Seq<char>, ValueModel>, ErrorKind>(k))
                    },
                }
            }
        }
    }
}

/// What `RETURN [expr]` does at the step level: the root case, the
/// frame pop with the caller's return address, and — for an absent or pure
/// expression — the exact `@save` value, with success owed.
#[verifier::opaque]
pub open spec fn ret_step_post(
    pre: VM,
    post: VM,
    items: Seq<crate::line::ItemModel>,
    r: Result<usize, ErrorKind>,
) -> bool {
    if pre.environment@.len() <= 1 {
        r == Err::<usize, ErrorKind>(ErrorKind::RootReturn) && quiet(pre, post)
    } else {
        let addr = pre.environment@.last().return_address->Some_0.line_number as int;
        &&& (items.len() <= 1 ==> ((r matches Ok(t) && t as int == addr) && post.environment@
            == pre.environment@.drop_last() && post.table_manager == pre.table_manager
            && post.labels == pre.labels && post.table_creations == pre.table_creations))
        &&& (items.len() > 1 && is_pure_item(items[1]) ==> match pure_eval(
            pre.environment@,
            items[1],
        ) {
            Err(k) => r == Err::<usize, ErrorKind>(k) && post.environment@ == pre.environment@
                && post.table_manager == pre.table_manager && post.labels == pre.labels
                && post.table_creations == pre.table_creations,
            Ok(m) => {
                &&& (r matches Ok(t) && t as int == addr)
                &&& post.environment@.len() == pre.environment@.len() - 1
                &&& (forall|i: int|
                    0 <= i < post.environment@.len() - 1 ==> (#[trigger] post.environment@[i])
                        == pre.environment@[i])
                &&& post.environment@.last().return_address == pre.environment@[pre.environment@.len() - 2].return_address
                &&& post.environment@.last().bindings().contains_key("@save"@)
                &&& post.environment@.last().bindings()["@save"@]@ == m
                &&& post.environment@.last().bindings().remove("@save"@)
                    =~= pre.environment@[pre.environment@.len() - 2].bindings().remove("@save"@)
                &&& post.table_manager == pre.table_manager
                &&& post.labels == pre.labels
                &&& post.table_creations == pre.table_creations
            },
        })
    }
}

/// A step result with the error reduced to its kind.
pub open spec fn kindly(r: Result<StepOutcome, crate::errors::RunError>) -> Result<
    StepOutcome,
    ErrorKind,
> {
    match r {
        Ok(o) => Ok(o),
        Err(e) => Err(e.kind),
    }
}

/// What one executed line guarantees, per command: the relation between the
/// state before and after, the next line, and any output, with the error
/// kind when the step fails. This is the evaluator's transition relation.
pub open spec fn step_post(
    pre: VM,
    post: VM,
    code: Seq<crate::line::Line>,
    file: Seq<char>,
    pc: int,
    input: Option<String>,
    r: Result<StepOutcome, ErrorKind>,
) -> bool {

                let items = code[pc]@.items;
                let cmd = items[0]->Cmd_op;
                let envs = pre.environment@;
                &&& (true)
                &&& ((cmd == crate::line::Command::NOOP || cmd == crate::line::Command::LABEL
                    || cmd == crate::line::Command::FUNCTION) ==> (r matches Ok(
                    StepOutcome::Next { pc: pc2, output },
                ) && pc2 == pc + 1 && output is None && post == pre))
                &&& (cmd == crate::line::Command::SAY && items.len() >= 2 ==> match item_text(
                    envs,
                    items[1],
                ) {
                    Ok(t) => r matches Ok(StepOutcome::Next { pc: pc2, output }) && pc2 == pc + 1
                        && (output matches Some(o) && o@ == t) && post == pre,
                    Err(k) => r matches Err(ke2) && ke2 == k,
                })
                &&& (cmd == crate::line::Command::ASK && items.len() >= 2 && input is None
                    ==> match item_text(envs, items[1]) {
                    Ok(t) => r matches Ok(StepOutcome::NeedInput { prompt }) && prompt@ == t
                        && post == pre,
                    Err(k) => r matches Err(ke2) && ke2 == k,
                })
                &&& (cmd == crate::line::Command::ASK && items.len() >= 2 && input is Some ==> (r
                    matches Ok(StepOutcome::Next { pc: pc2, output }) && pc2 == pc + 1 && output
                    is None && bound_in_top(pre, post, "@save"@) && post.environment@.last().bindings()["@save"@]@ == (ValueModel::Txt {
                    text: stripped(input->0@),
                }) && post.table_manager == pre.table_manager && post.table_creations
                    == pre.table_creations))
                &&& ((cmd == crate::line::Command::SAY || cmd == crate::line::Command::ASK)
                    && items.len() < 2 ==> (r matches Err(ke2) && ke2 == ErrorKind::WrongArity)
                    && post == pre)
                &&& (cmd == crate::line::Command::RETURN ==> match r {
                    Ok(o) => (o matches StepOutcome::Next { pc: p2, output } && output is None
                        && ret_step_post(pre, post, items, Ok(p2))),
                    Err(ke) => ret_step_post(pre, post, items, Err(ke)),
                })
                &&& (cmd == crate::line::Command::CALL ==> match r {
                    Ok(o) => (o matches StepOutcome::Next { pc: p2, output } && output is None
                        && call_step_post(
                        pre,
                        post,
                        code,
                        file,
                        pc,
                        code.len() as int,
                        Ok(p2),
                    )),
                    Err(ke) => call_step_post(
                        pre,
                        post,
                        code,
                        file,
                        pc,
                        code.len() as int,
                        Err(ke),
                    ),
                })
                &&& (cmd == crate::line::Command::GOTO ==> match r {
                    Ok(o) => (o matches StepOutcome::Next { pc: p2, output } && output is None
                        && goto_post(
                        pre,
                        post,
                        items,
                        pc,
                        code.len() as int,
                        Ok(p2),
                    )),
                    Err(ke) => goto_post(
                        pre,
                        post,
                        items,
                        pc,
                        code.len() as int,
                        Err(ke),
                    ),
                })
                &&& (cmd == crate::line::Command::IF ==> match r {
                    Ok(o) => (o matches StepOutcome::Next { pc: p2, output } && output is None
                        && if_post(
                        pre,
                        post,
                        items,
                        pc,
                        code.len() as int,
                        Ok(p2),
                    )),
                    Err(ke) => if_post(
                        pre,
                        post,
                        items,
                        pc,
                        code.len() as int,
                        Err(ke),
                    ),
                })
                &&& (cmd == crate::line::Command::FOR ==> match r {
                    Ok(o) => (o matches StepOutcome::Next { pc: p2, output } && output is None
                        && for_post(
                        pre,
                        post,
                        items,
                        pc,
                        code.len() as int,
                        Ok(p2),
                    )),
                    Err(ke) => for_post(
                        pre,
                        post,
                        items,
                        pc,
                        code.len() as int,
                        Err(ke),
                    ),
                })
                &&& (cmd == crate::line::Command::CONTINUE ==> match r {
                    Ok(o) => (o matches StepOutcome::Next { pc: p2, output } && output is None
                        && continue_post(
                        pre,
                        post,
                        code,
                        pc,
                        code.len() as int,
                        Ok(p2),
                    )),
                    Err(ke) => continue_post(
                        pre,
                        post,
                        code,
                        pc,
                        code.len() as int,
                        Err(ke),
                    ),
                })
                &&& (cmd == crate::line::Command::SET ==> match r {
                    Ok(o) => (o matches StepOutcome::Next { pc: p2, output } && p2 == pc + 1
                        && output is None && set_post(pre, post, items, None)),
                    Err(ke) => set_post(pre, post, items, Some(ke)),
                })
                &&& (cmd == crate::line::Command::SUM ==> match r {
                    Ok(o) => (o matches StepOutcome::Next { pc: p2, output } && p2 == pc + 1
                        && output is None && sum_post(pre, post, items, None)),
                    Err(ke) => sum_post(pre, post, items, Some(ke)),
                })
                &&& (cmd == crate::line::Command::TABLE ==> match r {
                    Ok(o) => (o matches StepOutcome::Next { pc: p2, output } && p2 == pc + 1
                        && output is None && table_post(pre, post, items, None)),
                    Err(ke) => table_post(pre, post, items, Some(ke)),
                })
                &&& (cmd == crate::line::Command::GET ==> match r {
                    Ok(o) => (o matches StepOutcome::Next { pc: p2, output } && p2 == pc + 1
                        && output is None && get_post(pre, post, items, None)),
                    Err(ke) => get_post(pre, post, items, Some(ke)),
                })
                &&& (cmd == crate::line::Command::PUT ==> match r {
                    Ok(o) => (o matches StepOutcome::Next { pc: p2, output } && p2 == pc + 1
                        && output is None && put_post(pre, post, items, None)),
                    Err(ke) => put_post(pre, post, items, Some(ke)),
                })
                &&& (cmd == crate::line::Command::SLICE ==> match r {
                    Ok(o) => (o matches StepOutcome::Next { pc: p2, output } && p2 == pc + 1
                        && output is None && slice_post(pre, post, items, None)),
                    Err(ke) => slice_post(pre, post, items, Some(ke)),
                })
}

impl VM {
    /// Executes the line at `pc`: the heart of the evaluator. The outcome
    /// carries the next line and any text to print; an `ASK` without an
    /// input line asks the driver for one. The whole transition is pinned by
    /// `step_post`.
    #[verifier::rlimit(100)]
    #[verifier::spinoff_prover]
    pub fn step(
        &mut self,
        file: &String,
        code: &Vec<crate::line::Line>,
        pc: usize,
        input: Option<String>,
    ) -> (r: Result<StepOutcome, crate::errors::RunError>)
        requires
            old(self).wf(),
            pc < code@.len(),
            code@.len() < usize::MAX,
            forall|i: int|
                0 <= i < code@.len() ==> (#[trigger] code@[i])@.items.len() >= 1
                    && code@[i]@.items[0] is Cmd,
        ensures
            final(self).wf(),
            final(self).labels == old(self).labels,
            (r matches Err(e) ==> e.line == code@[pc as int].line_number),
            step_post(*old(self), *final(self), code@, file@, pc as int, input, kindly(r)),
    {
        self.step_run(file, code, pc, input)
    }

    /// Executes the line at `pc`: the heart of the evaluator. The outcome
    /// carries the next line and any text to print; an `ASK` without an
    /// input line asks the driver for one.
    #[verifier::rlimit(100)]
    #[verifier::spinoff_prover]
    fn step_run(
        &mut self,
        file: &String,
        code: &Vec<crate::line::Line>,
        pc: usize,
        input: Option<String>,
    ) -> (r: Result<StepOutcome, crate::errors::RunError>)
        requires
            old(self).wf(),
            pc < code@.len(),
            code@.len() < usize::MAX,
            forall|i: int|
                0 <= i < code@.len() ==> (#[trigger] code@[i])@.items.len() >= 1
                    && code@[i]@.items[0] is Cmd,
        ensures
            final(self).wf(),
            final(self).labels == old(self).labels,
            (r matches Err(e) ==> e.line == code@[pc as int].line_number),
            ({
                let rk = kindly(r);


                let items = code@[pc as int]@.items;
                let cmd = items[0]->Cmd_op;
                let envs = old(self).environment@;
                &&& (true)
                &&& ((cmd == crate::line::Command::NOOP || cmd == crate::line::Command::LABEL
                    || cmd == crate::line::Command::FUNCTION) ==> (rk matches Ok(
                    StepOutcome::Next { pc: pc2, output },
                ) && pc2 == pc + 1 && output is None && *final(self) == *old(self)))
                &&& (cmd == crate::line::Command::SAY && items.len() >= 2 ==> match item_text(
                    envs,
                    items[1],
                ) {
                    Ok(t) => rk matches Ok(StepOutcome::Next { pc: pc2, output }) && pc2 == pc + 1
                        && (output matches Some(o) && o@ == t) && *final(self) == *old(self),
                    Err(k) => rk matches Err(ke2) && ke2 == k,
                })
                &&& (cmd == crate::line::Command::ASK && items.len() >= 2 && input is None
                    ==> match item_text(envs, items[1]) {
                    Ok(t) => rk matches Ok(StepOutcome::NeedInput { prompt }) && prompt@ == t
                        && *final(self) == *old(self),
                    Err(k) => rk matches Err(ke2) && ke2 == k,
                })
                &&& (cmd == crate::line::Command::ASK && items.len() >= 2 && input is Some ==> (r
                    matches Ok(StepOutcome::Next { pc: pc2, output }) && pc2 == pc + 1 && output
                    is None && bound_in_top(*old(self), *final(self), "@save"@) && final(self).environment@.last().bindings()["@save"@]@ == (ValueModel::Txt {
                    text: stripped(input->0@),
                }) && final(self).table_manager == old(self).table_manager && final(self).table_creations == old(self).table_creations))
                &&& ((cmd == crate::line::Command::SAY || cmd == crate::line::Command::ASK)
                    && items.len() < 2 ==> (rk matches Err(ke2x) && ke2x == ErrorKind::WrongArity)
                    && *final(self) == *old(self))
                &&& (cmd == crate::line::Command::RETURN ==> match rk {
                    Ok(o) => (o matches StepOutcome::Next { pc: p2, output } && output is None
                        && ret_step_post(*old(self), *final(self), items, Ok(p2))),
                    Err(ke) => ret_step_post(*old(self), *final(self), items, Err(ke)),
                })
                &&& (cmd == crate::line::Command::CALL ==> match rk {
                    Ok(o) => (o matches StepOutcome::Next { pc: p2, output } && output is None
                        && call_step_post(
                        *old(self),
                        *final(self),
                        code@,
                        file@,
                        pc as int,
                        code@.len() as int,
                        Ok(p2),
                    )),
                    Err(ke) => call_step_post(
                        *old(self),
                        *final(self),
                        code@,
                        file@,
                        pc as int,
                        code@.len() as int,
                        Err(ke),
                    ),
                })
                &&& (cmd == crate::line::Command::GOTO ==> match rk {
                    Ok(o) => (o matches StepOutcome::Next { pc: p2, output } && output is None
                        && goto_post(
                        *old(self),
                        *final(self),
                        items,
                        pc as int,
                        code@.len() as int,
                        Ok(p2),
                    )),
                    Err(ke) => goto_post(
                        *old(self),
                        *final(self),
                        items,
                        pc as int,
                        code@.len() as int,
                        Err(ke),
                    ),
                })
                &&& (cmd == crate::line::Command::IF ==> match rk {
                    Ok(o) => (o matches StepOutcome::Next { pc: p2, output } && output is None
                        && if_post(
                        *old(self),
                        *final(self),
                        items,
                        pc as int,
                        code@.len() as int,
                        Ok(p2),
                    )),
                    Err(ke) => if_post(
                        *old(self),
                        *final(self),
                        items,
                        pc as int,
                        code@.len() as int,
                        Err(ke),
                    ),
                })
                &&& (cmd == crate::line::Command::FOR ==> match rk {
                    Ok(o) => (o matches StepOutcome::Next { pc: p2, output } && output is None
                        && for_post(
                        *old(self),
                        *final(self),
                        items,
                        pc as int,
                        code@.len() as int,
                        Ok(p2),
                    )),
                    Err(ke) => for_post(
                        *old(self),
                        *final(self),
                        items,
                        pc as int,
                        code@.len() as int,
                        Err(ke),
                    ),
                })
                &&& (cmd == crate::line::Command::CONTINUE ==> match rk {
                    Ok(o) => (o matches StepOutcome::Next { pc: p2, output } && output is None
                        && continue_post(
                        *old(self),
                        *final(self),
                        code@,
                        pc as int,
                        code@.len() as int,
                        Ok(p2),
                    )),
                    Err(ke) => continue_post(
                        *old(self),
                        *final(self),
                        code@,
                        pc as int,
                        code@.len() as int,
                        Err(ke),
                    ),
                })
                &&& (cmd == crate::line::Command::SET ==> match rk {
                    Ok(o) => (o matches StepOutcome::Next { pc: p2, output } && p2 == pc + 1
                        && output is None && set_post(*old(self), *final(self), items, None)),
                    Err(ke) => set_post(*old(self), *final(self), items, Some(ke)),
                })
                &&& (cmd == crate::line::Command::SUM ==> match rk {
                    Ok(o) => (o matches StepOutcome::Next { pc: p2, output } && p2 == pc + 1
                        && output is None && sum_post(*old(self), *final(self), items, None)),
                    Err(ke) => sum_post(*old(self), *final(self), items, Some(ke)),
                })
                &&& (cmd == crate::line::Command::TABLE ==> match rk {
                    Ok(o) => (o matches StepOutcome::Next { pc: p2, output } && p2 == pc + 1
                        && output is None && table_post(*old(self), *final(self), items, None)),
                    Err(ke) => table_post(*old(self), *final(self), items, Some(ke)),
                })
                &&& (cmd == crate::line::Command::GET ==> match rk {
                    Ok(o) => (o matches StepOutcome::Next { pc: p2, output } && p2 == pc + 1
                        && output is None && get_post(*old(self), *final(self), items, None)),
                    Err(ke) => get_post(*old(self), *final(self), items, Some(ke)),
                })
                &&& (cmd == crate::line::Command::PUT ==> match rk {
                    Ok(o) => (o matches StepOutcome::Next { pc: p2, output } && p2 == pc + 1
                        && output is None && put_post(*old(self), *final(self), items, None)),
                    Err(ke) => put_post(*old(self), *final(self), items, Some(ke)),
                })
                &&& (cmd == crate::line::Command::SLICE ==> match rk {
                    Ok(o) => (o matches StepOutcome::Next { pc: p2, output } && p2 == pc + 1
                        && output is None && slice_post(*old(self), *final(self), items, None)),
                    Err(ke) => slice_post(*old(self), *final(self), items, Some(ke)),
                })
            }),
    {
        let line = &code[pc];
        let lnum = line.line_number;
        let ghost items = line@.items;
        proof {
            assert(*line == code@[pc as int]);
            assert(crate::line::items_model(line.items@) == code@[pc as int]@.items);
            assert(items == code@[pc as int]@.items);
            crate::line::lemma_items_model_len(line.items@);
            assert forall|q: int| 0 <= q < line.items@.len() implies #[trigger] items[q]
                == crate::line::item_model(line.items@[q]) by {
                crate::line::lemma_items_model_index(line.items@, q);
            }
        }
        let cmd = match &line.items[0] {
            crate::line::LineItem::Command(c) => *c,
            _ => {
                return Err(crate::errors::RunError::at(ErrorKind::InternalInvariant, lnum));
            },
        };
        match cmd {
            crate::line::Command::LABEL => Ok(StepOutcome::Next { pc: pc + 1, output: None }),
            crate::line::Command::FUNCTION => Ok(StepOutcome::Next { pc: pc + 1, output: None }),
            crate::line::Command::NOOP => Ok(StepOutcome::Next { pc: pc + 1, output: None }),
            crate::line::Command::GOTO => {
                match self.exec_goto(line, pc, code.len()) {
                    Ok(t) => Ok(StepOutcome::Next { pc: t, output: None }),
                    Err(k) => Err(crate::errors::RunError::at(k, lnum)),
                }
            },
            crate::line::Command::IF => {
                match self.exec_if(line, pc, code.len()) {
                    Ok(t) => Ok(StepOutcome::Next { pc: t, output: None }),
                    Err(k) => Err(crate::errors::RunError::at(k, lnum)),
                }
            },
            crate::line::Command::FOR => {
                match self.exec_for(line, pc, code.len()) {
                    Ok(t) => Ok(StepOutcome::Next { pc: t, output: None }),
                    Err(k) => Err(crate::errors::RunError::at(k, lnum)),
                }
            },
            crate::line::Command::CONTINUE => {
                match self.exec_continue(code, pc) {
                    Ok(t) => Ok(StepOutcome::Next { pc: t, output: None }),
                    Err(k) => Err(crate::errors::RunError::at(k, lnum)),
                }
            },
            crate::line::Command::SUM => {
                let hr = self.exec_sum(line);
                match hr {
                    Ok(()) => Ok(StepOutcome::Next { pc: pc + 1, output: None }),
                    Err(k) => Err(crate::errors::RunError::at(k, lnum)),
                }
            },
            crate::line::Command::SAY => {
                if line.items.len() < 2 {
                    return Err(crate::errors::RunError::at(ErrorKind::WrongArity, lnum));
                }
                match self.line_item_to_string(&line.items[1]) {
                    Ok(t) => Ok(StepOutcome::Next { pc: pc + 1, output: Some(t) }),
                    Err(k) => Err(crate::errors::RunError::at(k, lnum)),
                }
            },
            crate::line::Command::ASK => {
                if line.items.len() < 2 {
                    return Err(crate::errors::RunError::at(ErrorKind::WrongArity, lnum));
                }
                match input {
                    None => {
                        match self.line_item_to_string(&line.items[1]) {
                            Ok(t) => Ok(StepOutcome::NeedInput { prompt: t }),
                            Err(k) => Err(crate::errors::RunError::at(k, lnum)),
                        }
                    },
                    Some(text) => {
                        let trimmed = strip_newline(text);
                        let save = String::from_str("@save");
                        proof {
                            reveal_strlit("@save");
                        }
                        self.assign_variable(&save, Value::string_value(&trimmed));
                        Ok(StepOutcome::Next { pc: pc + 1, output: None })
                    },
                }
            },
            crate::line::Command::SET => {
                let hr = self.exec_set(line);
                match hr {
                    Ok(()) => Ok(StepOutcome::Next { pc: pc + 1, output: None }),
                    Err(k) => Err(crate::errors::RunError::at(k, lnum)),
                }
            },
            crate::line::Command::TABLE => {
                let hr = self.exec_table(line);
                match hr {
                    Ok(()) => Ok(StepOutcome::Next { pc: pc + 1, output: None }),
                    Err(k) => Err(crate::errors::RunError::at(k, lnum)),
                }
            },
            crate::line::Command::GET => {
                let hr = self.exec_get(line);
                match hr {
                    Ok(()) => Ok(StepOutcome::Next { pc: pc + 1, output: None }),
                    Err(k) => Err(crate::errors::RunError::at(k, lnum)),
                }
            },
            crate::line::Command::PUT => {
                let hr = self.exec_put(line);
                match hr {
                    Ok(()) => Ok(StepOutcome::Next { pc: pc + 1, output: None }),
                    Err(k) => Err(crate::errors::RunError::at(k, lnum)),
                }
            },
            crate::line::Command::SLICE => {
                let hr = self.exec_slice(line);
                match hr {
                    Ok(()) => Ok(StepOutcome::Next { pc: pc + 1, output: None }),
                    Err(k) => Err(crate::errors::RunError::at(k, lnum)),
                }
            },
            crate::line::Command::CALL => {
                proof {
                    reveal(call_step_post);
                }
                if line.items.len() < 2 {
                    return Err(crate::errors::RunError::at(ErrorKind::WrongArity, lnum));
                }
                let target_name: String = match &line.items[1] {
                    crate::line::LineItem::Label(t) => t.clone(),
                    crate::line::LineItem::String(t) => t.clone(),
                    _ => {
                        return Err(crate::errors::RunError::at(ErrorKind::TypeMismatch, lnum));
                    },
                };
                let fun = match self.labels.get(target_name.as_str()) {
                    Some(l) => l.line_number,
                    None => {
                        return Err(crate::errors::RunError::at(ErrorKind::UnknownLabel, lnum));
                    },
                };
                if fun >= code.len() {
                    return Err(crate::errors::RunError::at(ErrorKind::UnknownLabel, lnum));
                }
                let function_line = &code[fun];
                match self.call_function(function_line, line, file, fun, pc) {
                    Ok(l) => Ok(StepOutcome::Next { pc: l.line_number, output: None }),
                    Err(k) => Err(crate::errors::RunError::at(k, lnum)),
                }
            },
            crate::line::Command::RETURN => {
                proof {
                    reveal(ret_step_post);
                }
                match self.return_from_function(line, pc) {
                    Ok(l) => Ok(StepOutcome::Next { pc: l.line_number, output: None }),
                    Err(k) => Err(crate::errors::RunError::at(k, lnum)),
                }
            },
        }
    }
}

/// Under the evaluator invariant, a value read out of a table cell is
/// sensible against the heap.
proof fn lemma_heap_cells_wf_value(vm: VM, tv: Value, idx: Seq<usize>)
    requires
        vm.wf(),
    ensures
        crate::table::access_error(vm.heap(), tv, idx) is None && tv@ is Tbl ==> value_ok(
            vm.heap(),
            crate::table::cell_at(vm.heap(), tv, idx),
        ),
{
    if crate::table::access_error(vm.heap(), tv, idx) is None && tv@ is Tbl {
        let h = tv@->Tbl_handle;
        let dims = vm.heap()[h].dims;
        let pos = crate::table::shifted(tv@->Tbl_offset, idx);
        crate::table::lemma_flat_prefix_bound(dims, pos, dims.len() as int);
        assert(dims.subrange(0, dims.len() as int) =~= dims);
        assert(vm.heap()[h].cells.len() >= crate::table::dims_product(dims)) by {
            lemma_heap_entry_wf(vm.table_manager, h);
        }
    }
}

/// Under the manager invariant, each entry's cell count is the product of
/// its extents.
proof fn lemma_heap_entry_wf(m: crate::table::TableManager, k: int)
    requires
        m.wf(),
        m.heap().contains_key(k),
    ensures
        m.heap()[k].cells.len() == crate::table::dims_product(m.heap()[k].dims),
{
    crate::table::lemma_heap_map_contains(m.tables@, k);
    let i = choose|i: int| 0 <= i < m.tables@.len() && (#[trigger] m.tables@[i]).0 as int == k;
    crate::table::lemma_heap_map_get(m.tables@, i);
}

/// The outcome of a command that yields no value: nothing on success, the
/// error kind otherwise.
pub open spec fn unit_err(r: Result<(), ErrorKind>) -> Option<ErrorKind> {
    match r {
        Ok(u) => None,
        Err(k) => Some(k),
    }
}

/// Nothing observable changed: frames, heap, labels and the creation
/// counter are as before.
pub open spec fn quiet(pre: VM, post: VM) -> bool {
    &&& post.environment@ == pre.environment@
    &&& post.heap() == pre.heap()
    &&& post.labels == pre.labels
    &&& post.table_creations == pre.table_creations
}

/// The innermost frame gained exactly one binding; everything else is as
/// before.
pub open spec fn bound_in_top(pre: VM, post: VM, name: Seq<char>) -> bool {
    &&& post.environment@.len() == pre.environment@.len()
    &&& pre.environment@.len() >= 1
    &&& (forall|i: int|
        0 <= i < pre.environment@.len() - 1 ==> (#[trigger] post.environment@[i])
            == pre.environment@[i])
    &&& post.environment@.last().return_address == pre.environment@.last().return_address
    &&& post.environment@.last().bindings().contains_key(name)
    &&& post.environment@.last().bindings().remove(name)
        =~= pre.environment@.last().bindings().remove(name)
    &&& post.labels == pre.labels
}

/// What `GOTO target` does: the resolved in-range target, or the exact
/// error, with nothing else changed.
#[verifier::opaque]
pub open spec fn goto_post(
    pre: VM,
    post: VM,
    items: Seq<crate::line::ItemModel>,
    pc: int,
    len: int,
    r: Result<usize, ErrorKind>,
) -> bool {
    if items.len() < 2 {
        r == Err::<usize, ErrorKind>(ErrorKind::WrongArity) && quiet(pre, post)
    } else {
        match items[1] {
            crate::line::ItemModel::Lbl { text } => match jump(pre.labels, text, pc, len) {
                Some(t) => (r matches Ok(t2) && t2 as int == t) && quiet(pre, post),
                None => r == Err::<usize, ErrorKind>(ErrorKind::UnknownLabel) && quiet(pre, post),
            },
            _ => r == Err::<usize, ErrorKind>(ErrorKind::TypeMismatch) && quiet(pre, post),
        }
    }
}

/// What `IF cond then_label else_label` does for a pure condition: the
/// branch picked by truthiness, resolved, or the exact error.
#[verifier::opaque]
pub open spec fn if_post(
    pre: VM,
    post: VM,
    items: Seq<crate::line::ItemModel>,
    pc: int,
    len: int,
    r: Result<usize, ErrorKind>,
) -> bool {
    if items.len() < 4 {
        r == Err::<usize, ErrorKind>(ErrorKind::WrongArity) && quiet(pre, post)
    } else if is_pure_item(items[1]) {
        match pure_eval(pre.environment@, items[1]) {
            Err(k) => r == Err::<usize, ErrorKind>(k) && quiet(pre, post),
            Ok(m) => {
                let chosen = if model_truthy(m) {
                    items[2]
                } else {
                    items[3]
                };
                match chosen {
                    crate::line::ItemModel::Lbl { text } => match jump(pre.labels, text, pc, len) {
                        Some(t) => (r matches Ok(t2) && t2 as int == t) && quiet(pre, post),
                        None => r == Err::<usize, ErrorKind>(ErrorKind::UnknownLabel) && quiet(
                            pre,
                            post,
                        ),
                    },
                    _ => r == Err::<usize, ErrorKind>(ErrorKind::TypeMismatch) && quiet(
                        pre,
                        post,
                    ),
                }
            },
        }
    } else {
        true
    }
}

/// What `FOR name end_label var expr` does for a pure bound: step into the
/// body while the variable is below the bound, else jump past the loop.
#[verifier::opaque]
pub open spec fn for_post(
    pre: VM,
    post: VM,
    items: Seq<crate::line::ItemModel>,
    pc: int,
    len: int,
    r: Result<usize, ErrorKind>,
) -> bool {
    if items.len() < 5 {
        r == Err::<usize, ErrorKind>(ErrorKind::WrongArity) && quiet(pre, post)
    } else if is_pure_item(items[4]) {
        match pure_eval(pre.environment@, items[4]) {
            Err(k) => r == Err::<usize, ErrorKind>(k) && quiet(pre, post),
            Ok(end) => match items[2] {
                crate::line::ItemModel::Lbl { text } => match jump(pre.labels, text, pc, len) {
                    None => r == Err::<usize, ErrorKind>(ErrorKind::UnknownLabel) && quiet(
                        pre,
                        post,
                    ),
                    Some(t) => match items[3] {
                        crate::line::ItemModel::Lbl { text: var } => match stack_lookup(
                            pre.environment@,
                            var,
                        ) {
                            None => r == Err::<usize, ErrorKind>(ErrorKind::Unbound) && quiet(
                                pre,
                                post,
                            ),
                            Some(v) => if !(v@ is Num) {
                                r == Err::<usize, ErrorKind>(ErrorKind::TypeMismatch) && quiet(
                                    pre,
                                    post,
                                )
                            } else if !(end is Num) {
                                r == Err::<usize, ErrorKind>(ErrorKind::TypeMismatch) && quiet(
                                    pre,
                                    post,
                                )
                            } else if v@->Num_n < end->Num_n {
                                (r matches Ok(t2) && t2 == pc + 1) && quiet(pre, post)
                            } else {
                                (r matches Ok(t2) && t2 as int == t) && quiet(pre, post)
                            },
                        },
                        _ => r == Err::<usize, ErrorKind>(ErrorKind::TypeMismatch) && quiet(
                            pre,
                            post,
                        ),
                    },
                },
                _ => r == Err::<usize, ErrorKind>(ErrorKind::TypeMismatch) && quiet(pre, post),
            },
        }
    } else {
        true
    }
}

/// What `SET name expr` does for a pure expression: the exact binding, or
/// the exact error.
#[verifier::opaque]
pub open spec fn set_post(
    pre: VM,
    post: VM,
    items: Seq<crate::line::ItemModel>,
    e: Option<ErrorKind>,
) -> bool {
    if items.len() < 3 {
        e == Some::<ErrorKind>(ErrorKind::WrongArity) && quiet(pre, post)
    } else if is_pure_item(items[2]) {
        match pure_eval(pre.environment@, items[2]) {
            Err(k) => e == Some::<ErrorKind>(k) && quiet(pre, post),
            Ok(m) => match items[1] {
                crate::line::ItemModel::Lbl { text } => e is None && bound_in_top(pre, post, text)
                    && post.environment@.last().bindings()[text]@ == m && post.table_manager
                    == pre.table_manager && post.table_creations == pre.table_creations,
                _ => e == Some::<ErrorKind>(ErrorKind::TypeMismatch) && quiet(pre, post),
            },
        }
    } else {
        true
    }
}

/// What `SUM a op b` does for pure operands: `@save` holds the computed
/// value per the arithmetic specification, or the exact error.
#[verifier::opaque]
pub open spec fn sum_post(
    pre: VM,
    post: VM,
    items: Seq<crate::line::ItemModel>,
    e: Option<ErrorKind>,
) -> bool {
    if items.len() < 4 {
        e == Some::<ErrorKind>(ErrorKind::WrongArity) && quiet(pre, post)
    } else {
        match items[2] {
            crate::line::ItemModel::Lbl { text: op } => if is_pure_item(items[1])
                && is_pure_item(items[3]) {
                match pure_eval(pre.environment@, items[1]) {
                    Err(k) => e == Some::<ErrorKind>(k) && quiet(pre, post),
                    Ok(a) => match pure_eval(pre.environment@, items[3]) {
                        Err(k) => e == Some::<ErrorKind>(k) && quiet(pre, post),
                        Ok(b) => match sum_spec(a, b, op) {
                            Err(k) => e == Some::<ErrorKind>(k) && quiet(pre, post),
                            Ok(m) => e is None && bound_in_top(pre, post, "@save"@)
                                && post.environment@.last().bindings()["@save"@]@ == m
                                && post.table_manager == pre.table_manager
                                && post.table_creations == pre.table_creations,
                        },
                    },
                }
            } else {
                true
            },
            _ => e == Some::<ErrorKind>(ErrorKind::TypeMismatch) && quiet(pre, post),
        }
    }
}

/// What `CONTINUE for_label` does: jump back to the named `FOR` line with
/// its loop variable stepped by one in the innermost frame.
#[verifier::opaque]
pub open spec fn continue_post(
    pre: VM,
    post: VM,
    code: Seq<crate::line::Line>,
    pc: int,
    len: int,
    r: Result<usize, ErrorKind>,
) -> bool {
    let items = crate::line::items_model(code[pc].items@);
    if items.len() < 2 {
        r == Err::<usize, ErrorKind>(ErrorKind::WrongArity) && quiet(pre, post)
    } else {
        match items[1] {
            crate::line::ItemModel::Lbl { text } => match jump(pre.labels, text, pc, len) {
                None => r == Err::<usize, ErrorKind>(ErrorKind::UnknownLabel) && quiet(pre, post),
                Some(t) => {
                    let titems = crate::line::items_model(code[t].items@);
                    if titems.len() < 1 || !(titems[0] is Cmd) || titems[0]->Cmd_op
                        != crate::line::Command::FOR {
                        r == Err::<usize, ErrorKind>(ErrorKind::TypeMismatch) && quiet(pre, post)
                    } else if titems.len() < 4 {
                        r == Err::<usize, ErrorKind>(ErrorKind::WrongArity) && quiet(pre, post)
                    } else {
                        match titems[3] {
                            crate::line::ItemModel::Lbl { text: var } => match stack_lookup(
                                pre.environment@,
                                var,
                            ) {
                                None => r == Err::<usize, ErrorKind>(ErrorKind::Unbound) && quiet(
                                    pre,
                                    post,
                                ),
                                Some(v) => if !(v@ is Num) {
                                    r == Err::<usize, ErrorKind>(ErrorKind::TypeMismatch)
                                        && quiet(pre, post)
                                } else {
                                    (r matches Ok(t2) && t2 as int == t) && bound_in_top(
                                        pre,
                                        post,
                                        var,
                                    ) && post.environment@.last().bindings()[var]@ == (
                                    ValueModel::Num { n: wrap64(v@->Num_n + 1) })
                                        && post.table_manager == pre.table_manager
                                        && post.table_creations == pre.table_creations
                                },
                            },
                            _ => r == Err::<usize, ErrorKind>(ErrorKind::TypeMismatch) && quiet(
                                pre,
                                post,
                            ),
                        }
                    }
                },
            },
            _ => r == Err::<usize, ErrorKind>(ErrorKind::TypeMismatch) && quiet(pre, post),
        }
    }
}

/// What `GET name indices…` does, for every input: each error with the
/// condition it arises on, and on success `@save` holds the cell read.
#[verifier::opaque]
pub open spec fn get_post(
    pre: VM,
    post: VM,
    items: Seq<crate::line::ItemModel>,
    e: Option<ErrorKind>,
) -> bool {
    if items.len() < 2 {
        e == Some::<ErrorKind>(ErrorKind::WrongArity) && quiet(pre, post)
    } else {
        match items[1] {
            crate::line::ItemModel::Lbl { text } => match stack_lookup(pre.environment@, text) {
                Some(tv) => if !(tv@ is Tbl) {
                    e == Some::<ErrorKind>(ErrorKind::TypeMismatch) && quiet(pre, post)
                } else {
                    match indices_of(pre.environment@, items, 2, items.len() - 2) {
                        Err(k) => e == Some::<ErrorKind>(k) && quiet(pre, post),
                        Ok(idx) => match crate::table::access_error(pre.heap(), tv, idx) {
                            Some(k) => e == Some::<ErrorKind>(k) && quiet(pre, post),
                            None => if crate::table::cell_at(pre.heap(), tv, idx)@ is Uninit {
                                e == Some::<ErrorKind>(ErrorKind::UninitCell) && quiet(
                                    pre,
                                    post,
                                )
                            } else {
                                e is None && bound_in_top(pre, post, "@save"@)
                                    && post.environment@.last().bindings()["@save"@]@
                                    == crate::table::cell_at(pre.heap(), tv, idx)@
                                    && post.table_manager == pre.table_manager
                                    && post.table_creations == pre.table_creations
                            },
                        },
                    }
                },
                None => e == Some::<ErrorKind>(ErrorKind::Unbound) && quiet(pre, post),
            },
            _ => e == Some::<ErrorKind>(ErrorKind::TypeMismatch) && quiet(pre, post),
        }
    }
}

/// What `PUT name indices… expr` does: errors exactly, and for a pure value
/// expression the one addressed cell is written and nothing else changes.
#[verifier::opaque]
pub open spec fn put_post(
    pre: VM,
    post: VM,
    items: Seq<crate::line::ItemModel>,
    e: Option<ErrorKind>,
) -> bool {
    if items.len() < 2 {
        e == Some::<ErrorKind>(ErrorKind::WrongArity) && quiet(pre, post)
    } else {
        match items[1] {
            crate::line::ItemModel::Lbl { text } => match stack_lookup(pre.environment@, text) {
                Some(tv) => if !(tv@ is Tbl) {
                    e == Some::<ErrorKind>(ErrorKind::TypeMismatch) && quiet(pre, post)
                } else {
                    let handle = tv@->Tbl_handle;
                    let dlen = pre.heap()[handle].dims.len() as int;
                    if items.len() - 2 <= dlen {
                        e == Some::<ErrorKind>(ErrorKind::WrongArity) && quiet(pre, post)
                    } else {
                        match indices_of(pre.environment@, items, 2, dlen) {
                            Err(k) => e == Some::<ErrorKind>(k) && quiet(pre, post),
                            Ok(idx) => if is_pure_item(items[2 + dlen]) {
                                match pure_eval(pre.environment@, items[2 + dlen]) {
                                    Err(k) => e == Some::<ErrorKind>(k) && quiet(pre, post),
                                    Ok(m) => match crate::table::access_error(
                                        pre.heap(),
                                        tv,
                                        idx,
                                    ) {
                                        Some(k) => e == Some::<ErrorKind>(k)
                                            && post.environment@ == pre.environment@
                                            && post.heap() == pre.heap() && post.labels
                                            == pre.labels && post.table_creations
                                            == pre.table_creations,
                                        None => {
                                            let flat = crate::table::flat_index(
                                                pre.heap()[handle].dims,
                                                crate::table::shifted(tv@->Tbl_offset, idx),
                                            );
                                            &&& e is None
                                            &&& post.environment@ == pre.environment@
                                            &&& post.labels == pre.labels
                                            &&& post.table_creations == pre.table_creations
                                            &&& post.heap().dom() =~= pre.heap().dom()
                                            &&& (forall|k2: int|
                                                pre.heap().contains_key(k2) && k2 != handle
                                                    ==> (#[trigger] post.heap()[k2])
                                                    == pre.heap()[k2])
                                            &&& post.heap()[handle].dims
                                                == pre.heap()[handle].dims
                                            &&& post.heap()[handle].marked
                                                == pre.heap()[handle].marked
                                            &&& post.heap()[handle].cells.len()
                                                == pre.heap()[handle].cells.len()
                                            &&& post.heap()[handle].cells[flat]@ == m
                                            &&& (forall|c: int|
                                                0 <= c < pre.heap()[handle].cells.len() && c
                                                    != flat ==> (
                                                #[trigger] post.heap()[handle].cells[c])
                                                    == pre.heap()[handle].cells[c])
                                        },
                                    },
                                }
                            } else {
                                true
                            },
                        }
                    }
                },
                None => e == Some::<ErrorKind>(ErrorKind::Unbound) && quiet(pre, post),
            },
            _ => e == Some::<ErrorKind>(ErrorKind::TypeMismatch) && quiet(pre, post),
        }
    }
}

/// What `SLICE name offsets…` does: errors exactly, and on success `@save`
/// holds a view of the same storage with the offsets added, each strictly
/// inside its extent.
#[verifier::opaque]
pub open spec fn slice_post(
    pre: VM,
    post: VM,
    items: Seq<crate::line::ItemModel>,
    e: Option<ErrorKind>,
) -> bool {
    if items.len() < 2 {
        e == Some::<ErrorKind>(ErrorKind::WrongArity) && quiet(pre, post)
    } else {
        match items[1] {
            crate::line::ItemModel::Lbl { text } => match stack_lookup(pre.environment@, text) {
                Some(tv) => if !(tv@ is Tbl) {
                    e == Some::<ErrorKind>(ErrorKind::TypeMismatch) && quiet(pre, post)
                } else {
                    let handle = tv@->Tbl_handle;
                    let base = tv@->Tbl_offset;
                    let ndims = base.len() as int;
                    if items.len() - 2 < ndims {
                        e == Some::<ErrorKind>(ErrorKind::WrongArity) && quiet(pre, post)
                    } else {
                        match indices_of(pre.environment@, items, 2, ndims) {
                            Err(k) => e == Some::<ErrorKind>(k) && quiet(pre, post),
                            Ok(off) => if exists|i: int|
                                0 <= i < ndims && (#[trigger] base[i]) + off[i]
                                    >= pre.heap()[handle].dims[i] {
                                e == Some::<ErrorKind>(ErrorKind::SliceOutOfRange) && quiet(
                                    pre,
                                    post,
                                )
                            } else {
                                e is None && bound_in_top(pre, post, "@save"@)
                                    && post.environment@.last().bindings()["@save"@]@ == (
                                ValueModel::Tbl {
                                    handle,
                                    offset: Seq::new(
                                        ndims as nat,
                                        |i: int| (base[i] + off[i]) as usize,
                                    ),
                                }) && post.table_manager == pre.table_manager
                                    && post.table_creations == pre.table_creations
                            },
                        }
                    }
                },
                None => e == Some::<ErrorKind>(ErrorKind::Unbound) && quiet(pre, post),
            },
            _ => e == Some::<ErrorKind>(ErrorKind::TypeMismatch) && quiet(pre, post),
        }
    }
}

/// What `TABLE name dims…` does when the extents are pure expressions:
/// errors exactly, success owed whenever the cell count fits, and the bound
/// value is a fresh table of the given extents with all cells uninitialized.
#[verifier::opaque]
pub open spec fn table_post(
    pre: VM,
    post: VM,
    items: Seq<crate::line::ItemModel>,
    e: Option<ErrorKind>,
) -> bool {
    if items.len() < 2 {
        e == Some::<ErrorKind>(ErrorKind::WrongArity) && quiet(pre, post)
    } else {
        match items[1] {
            crate::line::ItemModel::Lbl { text } => if all_pure(items, 2, items.len() as int) {
                match indices_of(pre.environment@, items, 2, items.len() - 2) {
                    Err(k) => e == Some::<ErrorKind>(k) && quiet(pre, post),
                    Ok(ds) => {
                        &&& (crate::table::dims_product(ds) <= usize::MAX
                            && pre.table_manager.tables@.len() < usize::MAX ==> e is None)
                        &&& (e matches Some(k) ==> k == ErrorKind::TableTooLarge)
                        &&& (e is None ==> (bound_in_top(pre, post, text)
                            && (post.environment@.last().bindings()[text]@
                            matches ValueModel::Tbl { handle, offset }
                            && offset == crate::table::zero_offsets(ds.len() as int)
                            && !pre.heap().contains_key(handle) && post.heap().contains_key(
                            handle,
                        ) && post.heap()[handle].dims == ds && post.heap()[handle].cells.len()
                            == crate::table::dims_product(ds) && (forall|c: int|
                            0 <= c < post.heap()[handle].cells.len() ==> (
                            #[trigger] post.heap()[handle].cells[c])@ is Uninit))))
                    },
                }
            } else {
                true
            },
            _ => e == Some::<ErrorKind>(ErrorKind::TypeMismatch) && quiet(pre, post),
        }
    }
}

impl VM {
    /// `IF cond then_label else_label`: branches on the truthiness of the
    /// condition.
    fn exec_if(&mut self, line: &crate::line::Line, pc: usize, code_len: usize) -> (r: Result<
        usize,
        ErrorKind,
    >)
        requires
            old(self).wf(),
            pc < code_len,
            code_len < usize::MAX,
        ensures
            final(self).wf(),
            final(self).labels == old(self).labels,
            final(self).environment@ == old(self).environment@,
            heap_extended(old(self).heap(), final(self).heap()),
            if_post(
                *old(self),
                *final(self),
                crate::line::items_model(line.items@),
                pc as int,
                code_len as int,
                r,
            ),
    {
        proof {
            reveal(if_post);
            crate::line::lemma_items_model_len(line.items@);
            assert forall|q: int| 0 <= q < line.items@.len() implies #[trigger] crate::line::items_model(
                line.items@,
            )[q] == crate::line::item_model(line.items@[q]) by {
                crate::line::lemma_items_model_index(line.items@, q);
            }
        }
        if line.items.len() < 4 {
            return Err(ErrorKind::WrongArity);
        }
        let cond = match self.line_item_as_value(&line.items[1]) {
            Ok(v) => v,
            Err(k) => {
                return Err(k);
            },
        };
        let which: usize = if cond.as_boolean() {
            2
        } else {
            3
        };
        match &line.items[which] {
            crate::line::LineItem::Label(text) => self.resolve_target(text, pc, code_len),
            _ => Err(ErrorKind::TypeMismatch),
        }
    }

    /// `FOR name end_label var expr`: continues into the body while the loop
    /// variable is below the bound, otherwise jumps past the loop.
    fn exec_for(&mut self, line: &crate::line::Line, pc: usize, code_len: usize) -> (r: Result<
        usize,
        ErrorKind,
    >)
        requires
            old(self).wf(),
            pc < code_len,
            code_len < usize::MAX,
        ensures
            final(self).wf(),
            final(self).labels == old(self).labels,
            final(self).environment@ == old(self).environment@,
            heap_extended(old(self).heap(), final(self).heap()),
            for_post(
                *old(self),
                *final(self),
                crate::line::items_model(line.items@),
                pc as int,
                code_len as int,
                r,
            ),
    {
        proof {
            reveal(for_post);
            crate::line::lemma_items_model_len(line.items@);
            assert forall|q: int| 0 <= q < line.items@.len() implies #[trigger] crate::line::items_model(
                line.items@,
            )[q] == crate::line::item_model(line.items@[q]) by {
                crate::line::lemma_items_model_index(line.items@, q);
            }
        }
        if line.items.len() < 5 {
            return Err(ErrorKind::WrongArity);
        }
        let end_value = match self.line_item_as_value(&line.items[4]) {
            Ok(v) => v,
            Err(k) => {
                return Err(k);
            },
        };
        let target = match &line.items[2] {
            crate::line::LineItem::Label(text) => {
                match self.resolve_target(text, pc, code_len) {
                    Ok(t) => t,
                    Err(k) => {
                        return Err(k);
                    },
                }
            },
            _ => {
                return Err(ErrorKind::TypeMismatch);
            },
        };
        let current = match &line.items[3] {
            crate::line::LineItem::Label(var) => match self.read_variable(var) {
                Some(v) => {
                    if matches!(v.value_type, crate::value::ValueType::Number) {
                        v.number_value
                    } else {
                        return Err(ErrorKind::TypeMismatch);
                    }
                },
                None => {
                    return Err(ErrorKind::Unbound);
                },
            },
            _ => {
                return Err(ErrorKind::TypeMismatch);
            },
        };
        let compare = if matches!(end_value.value_type, crate::value::ValueType::Number) {
            end_value.number_value
        } else {
            return Err(ErrorKind::TypeMismatch);
        };
        if current < compare {
            Ok(pc + 1)
        } else {
            Ok(target)
        }
    }

    /// `CONTINUE for_label`: jumps back to the `FOR` line after stepping its
    /// loop variable by one.
    fn exec_continue(&mut self, code: &Vec<crate::line::Line>, pc: usize) -> (r: Result<
        usize,
        ErrorKind,
    >)
        requires
            old(self).wf(),
            pc < code@.len(),
            code@.len() < usize::MAX,
            forall|i: int|
                0 <= i < code@.len() ==> (#[trigger] code@[i])@.items.len() >= 1
                    && code@[i]@.items[0] is Cmd,
        ensures
            final(self).wf(),
            final(self).labels == old(self).labels,
            final(self).table_manager == old(self).table_manager,
            final(self).environment@.len() == old(self).environment@.len(),
            r matches Ok(t) ==> t < code@.len() && code@[t as int]@.items[0]->Cmd_op
                == crate::line::Command::FOR,
            continue_post(
                *old(self),
                *final(self),
                code@,
                pc as int,
                code@.len() as int,
                r,
            ),
    {
        let line = &code[pc];
        proof {
            reveal(continue_post);
            crate::line::lemma_items_model_len(line.items@);
            if line.items@.len() >= 2 {
                crate::line::lemma_items_model_index(line.items@, 1);
            }
        }
        if line.items.len() < 2 {
            return Err(ErrorKind::WrongArity);
        }
        let target = match &line.items[1] {
            crate::line::LineItem::Label(text) => {
                match self.resolve_target(text, pc, code.len()) {
                    Ok(t) => t,
                    Err(k) => {
                        return Err(k);
                    },
                }
            },
            _ => {
                return Err(ErrorKind::TypeMismatch);
            },
        };
        let target_line = &code[target];
        proof {
            crate::line::lemma_items_model_len(target_line.items@);
            crate::line::lemma_items_model_index(target_line.items@, 0);
            if target_line.items@.len() >= 4 {
                crate::line::lemma_items_model_index(target_line.items@, 3);
            }
        }
        let is_for = match &target_line.items[0] {
            crate::line::LineItem::Command(c) => matches!(c, crate::line::Command::FOR),
            _ => false,
        };
        if !is_for {
            return Err(ErrorKind::TypeMismatch);
        }
        if target_line.items.len() < 4 {
            return Err(ErrorKind::WrongArity);
        }
        let var = match &target_line.items[3] {
            crate::line::LineItem::Label(v) => v.clone(),
            _ => {
                return Err(ErrorKind::TypeMismatch);
            },
        };
        let current = match self.read_variable(&var) {
            Some(v) => {
                if matches!(v.value_type, crate::value::ValueType::Number) {
                    v.number_value
                } else {
                    return Err(ErrorKind::TypeMismatch);
                }
            },
            None => {
                return Err(ErrorKind::Unbound);
            },
        };
        proof {
            lemma_wrap_add(current, 1);
        }
        self.assign_variable(&var, Value::number_value(current.wrapping_add(1)));
        Ok(target)
    }

    /// `TABLE name dims…`: creates a table and binds it.
    fn exec_table(&mut self, line: &crate::line::Line) -> (r: Result<(), ErrorKind>)
        requires
            old(self).wf(),
        ensures
            final(self).wf(),
            final(self).labels == old(self).labels,
            final(self).environment@.len() == old(self).environment@.len(),
            ({
                let items = crate::line::items_model(line.items@);
                r is Ok ==> items.len() >= 2 && items[1] is Lbl && final(self).environment@.last().bindings().contains_key(items[1]->Lbl_text) && final(self).environment@.last().bindings()[items[1]->Lbl_text]@ is Tbl
            }),
            table_post(*old(self), *final(self), crate::line::items_model(line.items@), unit_err(r)),
    {
        proof {
            reveal(table_post);
            crate::line::lemma_items_model_len(line.items@);
            assert forall|q: int| 0 <= q < line.items@.len() implies #[trigger] crate::line::items_model(
                line.items@,
            )[q] == crate::line::item_model(line.items@[q]) by {
                crate::line::lemma_items_model_index(line.items@, q);
            }
        }
        if line.items.len() < 2 {
            return Err(ErrorKind::WrongArity);
        }
        let name = match &line.items[1] {
            crate::line::LineItem::Label(n) => n.clone(),
            _ => {
                return Err(ErrorKind::TypeMismatch);
            },
        };
        let ghost models = crate::line::items_model(line.items@);
        let mut dims: Vec<usize> = Vec::new();
        let count = line.items.len();
        let mut q: usize = 2;
        while q < count
            invariant
                2 <= q <= count,
                count == line.items@.len(),
                models == crate::line::items_model(line.items@),
                models.len() == count,
                self.wf(),
                self.labels == old(self).labels,
                self.environment@.len() == old(self).environment@.len(),
                models[1] == crate::line::item_model(line.items@[1]),
                models[1] is Lbl,
                dims@.len() == q - 2,
                all_pure(models, 2, count as int) ==> self.environment@ == old(self).environment@
                    && self.table_manager == old(self).table_manager && self.table_creations
                    == old(self).table_creations && indices_of(
                    old(self).environment@,
                    models,
                    2,
                    q - 2,
                ) == Ok::<Seq<usize>, ErrorKind>(dims@),
            decreases count - q,
        {
            proof {
                reveal(table_post);
                crate::line::lemma_items_model_index(line.items@, q as int);
            }
            let ghost pure_case = all_pure(models, 2, count as int);
            let v = match self.line_item_as_value(&line.items[q]) {
                Ok(v) => v,
                Err(k) => {
                    proof {
                        if pure_case {
                            assert(indices_of(old(self).environment@, models, 2, q - 1)
                                == Err::<Seq<usize>, ErrorKind>(k));
                            lemma_indices_err_extends(
                                old(self).environment@,
                                models,
                                2,
                                q - 1,
                                count - 2,
                                k,
                            );
                        }
                    }
                    return Err(k);
                },
            };
            if !matches!(v.value_type, crate::value::ValueType::Number) {
                proof {
                    if pure_case {
                        assert(indices_of(old(self).environment@, models, 2, q - 1)
                            == Err::<Seq<usize>, ErrorKind>(ErrorKind::TypeMismatch));
                        lemma_indices_err_extends(
                            old(self).environment@,
                            models,
                            2,
                            q - 1,
                            count - 2,
                            ErrorKind::TypeMismatch,
                        );
                    }
                }
                return Err(ErrorKind::TypeMismatch);
            }
            let n = v.number_value;
            if n < 0 || (n as u64) > (usize::MAX as u64) {
                proof {
                    if pure_case {
                        assert(indices_of(old(self).environment@, models, 2, q - 1)
                            == Err::<Seq<usize>, ErrorKind>(ErrorKind::TypeMismatch));
                        lemma_indices_err_extends(
                            old(self).environment@,
                            models,
                            2,
                            q - 1,
                            count - 2,
                            ErrorKind::TypeMismatch,
                        );
                    }
                }
                return Err(ErrorKind::TypeMismatch);
            }
            let ghost prior = dims@;
            dims.push(n as usize);
            proof {
                assert(dims@ =~= prior.push(n as usize));
            }
            q = q + 1;
        }
        match self.create_table(&name, &dims) {
            Ok(()) => {
                proof {
                    crate::line::lemma_items_model_index(line.items@, 1);
                }
                Ok(())
            },
            Err(k) => Err(k),
        }
    }

    /// `GET name indices…`: reads a cell of the named table into `@save`.
    fn exec_get(&mut self, line: &crate::line::Line) -> (r: Result<(), ErrorKind>)
        requires
            old(self).wf(),
        ensures
            final(self).wf(),
            final(self).labels == old(self).labels,
            final(self).table_manager == old(self).table_manager,
            final(self).environment@.len() == old(self).environment@.len(),
            get_post(*old(self), *final(self), crate::line::items_model(line.items@), unit_err(r)),
    {
        proof {
            reveal(get_post);
            crate::line::lemma_items_model_len(line.items@);
            assert forall|q: int| 0 <= q < line.items@.len() implies #[trigger] crate::line::items_model(
                line.items@,
            )[q] == crate::line::item_model(line.items@[q]) by {
                crate::line::lemma_items_model_index(line.items@, q);
            }
        }
        if line.items.len() < 2 {
            return Err(ErrorKind::WrongArity);
        }
        let name = match &line.items[1] {
            crate::line::LineItem::Label(n) => n.clone(),
            _ => {
                return Err(ErrorKind::TypeMismatch);
            },
        };
        let table = match self.read_variable(&name) {
            Some(v) => {
                if matches!(v.value_type, crate::value::ValueType::Table)
                    && !v.is_uninitialized() {
                    v.clone()
                } else {
                    return Err(ErrorKind::TypeMismatch);
                }
            },
            None => {
                return Err(ErrorKind::Unbound);
            },
        };
        let ghost stored = stack_lookup(old(self).environment@, name@)->0;
        proof {
            assert(table@ == stored@);
        }
        let count = line.items.len() - 2;
        let indices = match self.eval_indices_pure(line, 2, count) {
            Ok(v) => v,
            Err(k) => {
                return Err(k);
            },
        };
        let value = match self.table_manager.get(&table, &indices) {
            Ok(v) => v.clone(),
            Err(k) => {
                proof {
                    assert(crate::table::access_error(self.heap(), stored, indices@)
                        == crate::table::access_error(self.heap(), table, indices@));
                    assert(crate::table::cell_at(self.heap(), stored, indices@)
                        == crate::table::cell_at(self.heap(), table, indices@));
                }
                return Err(k);
            },
        };
        proof {
            lemma_heap_cells_wf_value(*self, table, indices@);
            assert(crate::table::access_error(self.heap(), stored, indices@)
                == crate::table::access_error(self.heap(), table, indices@));
            assert(crate::table::cell_at(self.heap(), stored, indices@) == crate::table::cell_at(
                self.heap(),
                table,
                indices@,
            ));
        }
        let save = String::from_str("@save");
        proof {
            reveal_strlit("@save");
        }
        self.assign_variable(&save, value);
        Ok(())
    }

    /// `PUT name indices… expr`: writes a cell of the named table.
    fn exec_put(&mut self, line: &crate::line::Line) -> (r: Result<(), ErrorKind>)
        requires
            old(self).wf(),
        ensures
            final(self).wf(),
            final(self).labels == old(self).labels,
            final(self).environment@ == old(self).environment@,
            dims_preserved(old(self).heap(), final(self).heap()),
            put_post(*old(self), *final(self), crate::line::items_model(line.items@), unit_err(r)),
    {
        proof {
            reveal(put_post);
            crate::line::lemma_items_model_len(line.items@);
            assert forall|q: int| 0 <= q < line.items@.len() implies #[trigger] crate::line::items_model(
                line.items@,
            )[q] == crate::line::item_model(line.items@[q]) by {
                crate::line::lemma_items_model_index(line.items@, q);
            }
        }
        if line.items.len() < 2 {
            return Err(ErrorKind::WrongArity);
        }
        let name = match &line.items[1] {
            crate::line::LineItem::Label(n) => n.clone(),
            _ => {
                return Err(ErrorKind::TypeMismatch);
            },
        };
        let table = match self.read_variable(&name) {
            Some(v) => {
                if matches!(v.value_type, crate::value::ValueType::Table)
                    && !v.is_uninitialized() {
                    v.clone()
                } else {
                    return Err(ErrorKind::TypeMismatch);
                }
            },
            None => {
                return Err(ErrorKind::Unbound);
            },
        };
        let ghost stored = stack_lookup(old(self).environment@, name@)->0;
        proof {
            assert(table@ == stored@);
        }
        let dlen = match self.table_manager.get_dimensions(&table) {
            Ok(d) => d.len(),
            Err(k) => {
                proof {
                    assert(false);
                }
                return Err(k);
            },
        };
        if line.items.len() < 3 || line.items.len() - 2 <= dlen {
            return Err(ErrorKind::WrongArity);
        }
        let indices = match self.eval_indices_pure(line, 2, dlen) {
            Ok(v) => v,
            Err(k) => {
                return Err(k);
            },
        };
        let value = match self.line_item_as_value(&line.items[2 + dlen]) {
            Ok(v) => v,
            Err(k) => {
                proof {
                    lemma_extended_dims(old(self).heap(), self.heap());
                }
                return Err(k);
            },
        };
        proof {
            lemma_extended_dims(old(self).heap(), self.heap());
        }
        let ghost pre_put = *self;
        match self.table_manager.put(&table, &indices, value) {
            Ok(()) => {},
            Err(k) => {
                proof {
                    assert(self.heap() == pre_put.heap());
                    assert(crate::table::access_error(pre_put.heap(), stored, indices@)
                        == crate::table::access_error(pre_put.heap(), table, indices@));
                }
                return Err(k);
            },
        }
        proof {
            let h = table@->Tbl_handle;
            let pre_h = pre_put.heap();
            let post_h = self.heap();
            assert(table@ is Tbl);
            assert(post_h == crate::table::heap_after_put(pre_h, table, indices@, value));
            let fi0 = crate::table::flat_index(
                pre_h[h].dims,
                crate::table::shifted(table@->Tbl_offset, indices@),
            );
            assert(post_h[h].cells == pre_h[h].cells.update(fi0, value));
            assert(0 <= fi0 < pre_h[h].cells.len()) by {
                lemma_heap_entry_wf(pre_put.table_manager, h);
                crate::table::lemma_flat_prefix_bound(
                    pre_h[h].dims,
                    crate::table::shifted(table@->Tbl_offset, indices@),
                    pre_h[h].dims.len() as int,
                );
                assert(pre_h[h].dims.subrange(0, pre_h[h].dims.len() as int) =~= pre_h[h].dims);
            }
            assert(value_ok(pre_h, value));
            assert(dims_preserved(old(self).heap(), pre_h));
            assert(dims_preserved(pre_h, post_h)) by {
                assert forall|k: int| pre_h.contains_key(k) implies post_h.contains_key(k) && (
                #[trigger] post_h[k]).dims == pre_h[k].dims by {
                    if k != h {
                        assert(post_h[k] == pre_h[k]);
                    }
                }
            }
            assert(envs_ok(post_h, self.environment@)) by {
                assert forall|i2: int, j2: int|
                    0 <= i2 < self.environment@.len() && 0 <= j2
                        < self.environment@[i2].variables@.len() implies value_ok(
                    post_h,
                    (#[trigger] self.environment@[i2].variables@[j2]).1,
                ) by {
                    lemma_value_ok_dims(pre_h, post_h, self.environment@[i2].variables@[j2].1);
                }
            }
            assert(heap_ok(post_h)) by {
                assert forall|k: int, c: int|
                    post_h.contains_key(k) && 0 <= c < post_h[k].cells.len() implies value_ok(
                    post_h,
                    (#[trigger] post_h[k].cells[c]),
                ) by {
                    lemma_heap_cells_wf(self.table_manager, k, c);
                    let cell = post_h[k].cells[c];
                    if k == h {
                        let fi = crate::table::flat_index(
                            pre_h[h].dims,
                            crate::table::shifted(table@->Tbl_offset, indices@),
                        );
                        if c == fi {
                            lemma_value_ok_dims(pre_h, post_h, cell);
                        } else {
                            assert(cell == pre_h[k].cells[c]);
                            lemma_value_ok_dims(pre_h, post_h, cell);
                        }
                    } else {
                        assert(post_h[k] == pre_h[k]);
                        lemma_value_ok_dims(pre_h, post_h, cell);
                    }
                }
            }
            assert(dims_preserved(old(self).heap(), post_h)) by {
                assert forall|k: int|
                    old(self).heap().contains_key(k) implies post_h.contains_key(k) && (
                #[trigger] post_h[k]).dims == old(self).heap()[k].dims by {
                    assert(pre_h.contains_key(k) && pre_h[k].dims == old(self).heap()[k].dims);
                }
            }
            assert(crate::table::access_error(pre_h, stored, indices@)
                == crate::table::access_error(pre_h, table, indices@));
            assert(post_h.dom() =~= pre_h.dom());
            assert(post_h[h].marked == pre_h[h].marked);
        }
        Ok(())
    }

    /// `SLICE name offsets…`: stores a shifted view of the named table in
    /// `@save`.
    fn exec_slice(&mut self, line: &crate::line::Line) -> (r: Result<(), ErrorKind>)
        requires
            old(self).wf(),
        ensures
            final(self).wf(),
            final(self).labels == old(self).labels,
            final(self).table_manager == old(self).table_manager,
            final(self).environment@.len() == old(self).environment@.len(),
            slice_post(*old(self), *final(self), crate::line::items_model(line.items@), unit_err(r)),
    {
        proof {
            reveal(slice_post);
            crate::line::lemma_items_model_len(line.items@);
            assert forall|q: int| 0 <= q < line.items@.len() implies #[trigger] crate::line::items_model(
                line.items@,
            )[q] == crate::line::item_model(line.items@[q]) by {
                crate::line::lemma_items_model_index(line.items@, q);
            }
        }
        if line.items.len() < 2 {
            return Err(ErrorKind::WrongArity);
        }
        let name = match &line.items[1] {
            crate::line::LineItem::Label(n) => n.clone(),
            _ => {
                return Err(ErrorKind::TypeMismatch);
            },
        };
        let table = match self.read_variable(&name) {
            Some(v) => {
                if matches!(v.value_type, crate::value::ValueType::Table)
                    && !v.is_uninitialized() {
                    v.clone()
                } else {
                    return Err(ErrorKind::TypeMismatch);
                }
            },
            None => {
                return Err(ErrorKind::Unbound);
            },
        };
        let ghost stored = stack_lookup(old(self).environment@, name@)->0;
        proof {
            assert(table@ == stored@);
            assert(value_ok(self.heap(), table));
            assert(self.heap().contains_key(table@->Tbl_handle));
            assert(table@->Tbl_offset.len() == self.heap()[table@->Tbl_handle].dims.len());
        }
        let ndims = match &table.slice_offset {
            Some(v) => v.len(),
            None => {
                proof {
                    assert(false);
                }
                return Err(ErrorKind::TypeMismatch);
            },
        };
        proof {
            assert(ndims == table@->Tbl_offset.len());
        }
        if line.items.len() - 2 < ndims {
            return Err(ErrorKind::WrongArity);
        }
        let offsets = match self.eval_indices_pure(line, 2, ndims) {
            Ok(v) => v,
            Err(k) => {
                return Err(k);
            },
        };
        proof {
            lemma_indices_len(
                old(self).environment@,
                crate::line::items_model(line.items@),
                2,
                ndims as int,
            );
        }
        let new_value = match self.slice_table(&table, &offsets) {
            Ok(v) => v,
            Err(k) => {
                proof {
                    assert(offsets@.len() == ndims);
                    assert(k == ErrorKind::SliceOutOfRange);
                }
                return Err(k);
            },
        };
        proof {
            let base = stored@->Tbl_offset;
            let h = stored@->Tbl_handle;
            assert forall|i: int|
                0 <= i < ndims implies (#[trigger] base[i]) + offsets@[i]
                    < self.heap().index(h).dims[i] by {
                assert(new_value@->Tbl_offset[i] as int == base[i] + offsets@[i]);
            }
            assert(!(exists|i: int|
                0 <= i < ndims && (#[trigger] base[i]) + offsets@[i] >= self.heap()[h].dims[i]));
            assert(new_value@ == (ValueModel::Tbl {
                handle: h,
                offset: Seq::new(ndims as nat, |i: int| (base[i] + offsets@[i]) as usize),
            })) by {
                assert(new_value@->Tbl_offset =~= Seq::new(
                    ndims as nat,
                    |i: int| (base[i] + offsets@[i]) as usize,
                ));
            }
        }
        let save = String::from_str("@save");
        proof {
            reveal_strlit("@save");
        }
        self.assign_variable(&save, new_value);
        Ok(())
    }
}

impl VM {
    /// `GOTO target`: an unconditional jump.
    fn exec_goto(&mut self, line: &crate::line::Line, pc: usize, code_len: usize) -> (r: Result<
        usize,
        ErrorKind,
    >)
        requires
            old(self).wf(),
            pc < code_len,
            code_len < usize::MAX,
        ensures
            final(self).wf(),
            *final(self) == *old(self),
            goto_post(
                *old(self),
                *final(self),
                crate::line::items_model(line.items@),
                pc as int,
                code_len as int,
                r,
            ),
    {
        proof {
            reveal(goto_post);
            crate::line::lemma_items_model_len(line.items@);
            if line.items@.len() >= 2 {
                crate::line::lemma_items_model_index(line.items@, 1);
            }
        }
        if line.items.len() < 2 {
            return Err(ErrorKind::WrongArity);
        }
        match &line.items[1] {
            crate::line::LineItem::Label(text) => self.resolve_target(text, pc, code_len),
            _ => Err(ErrorKind::TypeMismatch),
        }
    }

    /// `SET name expr`: binds a name to an evaluated expression in the
    /// innermost frame.
    fn exec_set(&mut self, line: &crate::line::Line) -> (r: Result<(), ErrorKind>)
        requires
            old(self).wf(),
        ensures
            final(self).wf(),
            final(self).labels == old(self).labels,
            final(self).environment@.len() == old(self).environment@.len(),
            heap_extended(old(self).heap(), final(self).heap()),
            set_post(*old(self), *final(self), crate::line::items_model(line.items@), unit_err(r)),
    {
        proof {
            reveal(set_post);
            crate::line::lemma_items_model_len(line.items@);
            if line.items@.len() >= 3 {
                crate::line::lemma_items_model_index(line.items@, 1);
                crate::line::lemma_items_model_index(line.items@, 2);
            }
        }
        if line.items.len() < 3 {
            return Err(ErrorKind::WrongArity);
        }
        let value = match self.line_item_as_value(&line.items[2]) {
            Ok(v) => v,
            Err(k) => {
                return Err(k);
            },
        };
        match &line.items[1] {
            crate::line::LineItem::Label(name) => {
                let owned = name.clone();
                self.assign_variable(&owned, value);
                Ok(())
            },
            _ => Err(ErrorKind::TypeMismatch),
        }
    }

    /// `SUM a op b`: computes over the two operands and stores the result in
    /// `@save`.
    fn exec_sum(&mut self, line: &crate::line::Line) -> (r: Result<(), ErrorKind>)
        requires
            old(self).wf(),
        ensures
            final(self).wf(),
            final(self).labels == old(self).labels,
            final(self).environment@.len() == old(self).environment@.len(),
            heap_extended(old(self).heap(), final(self).heap()),
            sum_post(*old(self), *final(self), crate::line::items_model(line.items@), unit_err(r)),
    {
        proof {
            reveal(sum_post);
            crate::line::lemma_items_model_len(line.items@);
            if line.items@.len() >= 4 {
                crate::line::lemma_items_model_index(line.items@, 1);
                crate::line::lemma_items_model_index(line.items@, 2);
                crate::line::lemma_items_model_index(line.items@, 3);
            }
        }
        if line.items.len() < 4 {
            return Err(ErrorKind::WrongArity);
        }
        let operand = match &line.items[2] {
            crate::line::LineItem::Label(text) => text.clone(),
            _ => {
                return Err(ErrorKind::TypeMismatch);
            },
        };
        let v1 = match self.line_item_as_value(&line.items[1]) {
            Ok(v) => v,
            Err(k) => {
                return Err(k);
            },
        };
        let ghost mid = *self;
        let v2 = match self.line_item_as_value(&line.items[3]) {
            Ok(v) => v,
            Err(k) => {
                proof {
                    lemma_extended_trans(old(self).heap(), mid.heap(), self.heap());
                }
                return Err(k);
            },
        };
        proof {
            lemma_extended_trans(old(self).heap(), mid.heap(), self.heap());
        }
        let sum = match Self::do_sum(&v1, &v2, &operand) {
            Ok(v) => v,
            Err(k) => {
                return Err(k);
            },
        };
        let save = String::from_str("@save");
        proof {
            reveal_strlit("@save");
            assert(value_ok(self.heap(), sum)) by {
                assert(!(sum@ is Tbl));
            }
        }
        self.assign_variable(&save, sum);
        Ok(())
    }
}

/// One configuration of the scripted driver: the machine, the current line,
/// any pending input line, how many inputs were consumed, and everything
/// printed so far.
pub ghost struct DriveConfig {
    pub vm: VM,
    pub pc: int,
    pub pending: Option<String>,
    pub used: int,
    pub outs: Seq<String>,
}

/// One move of the driver: the current line executes per `step_post`, or an
/// input request is answered from the next scripted input.
pub open spec fn drive_step(
    c1: DriveConfig,
    c2: DriveConfig,
    code: Seq<crate::line::Line>,
    file: Seq<char>,
    ins: Seq<String>,
) -> bool {
    &&& 0 <= c1.pc < code.len()
    &&& ({
        ||| (exists|p2: usize, output: Option<String>|
            (#[trigger] step_post(
                c1.vm,
                c2.vm,
                code,
                file,
                c1.pc,
                c1.pending,
                Ok(StepOutcome::Next { pc: p2, output }),
            )) && c2.pc == p2 as int && c2.pending is None && c2.used == c1.used && c2.outs == (
            match output {
                Some(o) => c1.outs.push(o),
                None => c1.outs,
            }))
        ||| (exists|prompt: String|
            (#[trigger] step_post(
                c1.vm,
                c2.vm,
                code,
                file,
                c1.pc,
                c1.pending,
                Ok(StepOutcome::NeedInput { prompt }),
            )) && c2.pc == c1.pc && c1.used < ins.len() && c2.pending == Some(ins[c1.used])
                && c2.used == c1.used + 1 && c2.outs == c1.outs.push(prompt))
    })
}

/// A run of the driver: consecutive configurations linked by driver moves.
pub open spec fn runs(
    tr: Seq<DriveConfig>,
    code: Seq<crate::line::Line>,
    file: Seq<char>,
    ins: Seq<String>,
) -> bool {
    forall|i: int|
        0 <= i < tr.len() - 1 ==> drive_step(#[trigger] tr[i], tr[i + 1], code, file, ins)
}

/// Appending a legal move keeps a run a run.
proof fn lemma_runs_extend(
    tr: Seq<DriveConfig>,
    nextc: DriveConfig,
    code: Seq<crate::line::Line>,
    file: Seq<char>,
    ins: Seq<String>,
)
    requires
        tr.len() >= 1,
        runs(tr, code, file, ins),
        drive_step(tr.last(), nextc, code, file, ins),
    ensures
        runs(tr.push(nextc), code, file, ins),
        tr.push(nextc).last() == nextc,
        tr.push(nextc).first() == tr.first(),
        tr.push(nextc).len() == tr.len() + 1,
    decreases tr.len(),
{
    let t2 = tr.push(nextc);
    assert forall|i: int|
        0 <= i < t2.len() - 1 implies drive_step(#[trigger] t2[i], t2[i + 1], code, file, ins) by {
        if i < t2.len() - 2 {
            assert(t2[i] == tr[i]);
            assert(t2[i + 1] == tr[i + 1]);
            assert(drive_step(tr[i], tr[i + 1], code, file, ins));
        } else {
            assert(t2[i] == tr.last());
            assert(t2[i + 1] == nextc);
        }
    }
}

impl VM {
    /// Runs a canonicalized program to completion with scripted input lines,
    /// collecting everything it prints. The step budget keeps the run
    /// finite; an interactive front end drives `step` directly instead.
    #[verifier::rlimit(100)]
    #[verifier::spinoff_prover]
    pub fn evaluate(
        &mut self,
        file: &String,
        code: &Vec<crate::line::Line>,
        inputs: &Vec<String>,
        max_steps: u64,
    ) -> (r: Result<Vec<String>, crate::errors::RunError>)
        requires
            old(self).wf(),
            code@.len() < usize::MAX,
            forall|i: int|
                0 <= i < code@.len() ==> (#[trigger] code@[i])@.items.len() >= 1
                    && code@[i]@.items[0] is Cmd,
        ensures
            final(self).wf(),
            final(self).environment@.len() >= 1,
            r matches Ok(outs) ==> exists|vm1: VM, tr: Seq<DriveConfig>|
                #![trigger scanned(*old(self), vm1, code@, file@), runs(tr, code@, file@, inputs@)]
                {
                    &&& scanned(*old(self), vm1, code@, file@)
                    &&& runs(tr, code@, file@, inputs@)
                    &&& tr.len() >= 1
                    &&& tr.first() == (DriveConfig {
                        vm: vm1,
                        pc: 0,
                        pending: None::<String>,
                        used: 0,
                        outs: Seq::<String>::empty(),
                    })
                    &&& tr.last().vm == *final(self)
                    &&& tr.last().pc >= code@.len()
                    &&& tr.last().pending is None
                    &&& 0 <= tr.last().used <= inputs@.len()
                    &&& tr.last().outs == outs@
                },
    {
        match self.scan_labels(file.as_str(), code) {
            Ok(()) => {},
            Err(e) => {
                return Err(e);
            },
        }
        let ghost vm1 = *self;
        proof {
            assert(scanned(*old(self), vm1, code@, file@));
        }
        let mut outputs: Vec<String> = Vec::new();
        let mut pc: usize = 0;
        let mut next_input: usize = 0;
        let mut pending: Option<String> = None;
        let mut fuel: u64 = max_steps;
        let ghost init = DriveConfig {
            vm: vm1,
            pc: 0,
            pending: None::<String>,
            used: 0,
            outs: Seq::<String>::empty(),
        };
        let ghost mut tr: Seq<DriveConfig> = seq![init];
        proof {
            assert(outputs@ =~= Seq::<String>::empty());
        }
        while pc < code.len()
            invariant
                self.wf(),
                code@.len() < usize::MAX,
                next_input <= inputs@.len(),
                scanned(*old(self), vm1, code@, file@),
                self.labels == vm1.labels,
                forall|i: int|
                    0 <= i < code@.len() ==> (#[trigger] code@[i])@.items.len() >= 1
                        && code@[i]@.items[0] is Cmd,
                tr.len() >= 1,
                runs(tr, code@, file@, inputs@),
                tr.first() == init,
                init == (DriveConfig {
                    vm: vm1,
                    pc: 0,
                    pending: None::<String>,
                    used: 0,
                    outs: Seq::<String>::empty(),
                }),
                tr.last() == (DriveConfig {
                    vm: *self,
                    pc: pc as int,
                    pending: pending,
                    used: next_input as int,
                    outs: outputs@,
                }),
                (pending is Some ==> (pc as int) < code@.len()),
            decreases fuel,
        {
            if fuel == 0 {
                return Err(crate::errors::RunError::at(ErrorKind::StepLimit, 0));
            }
            fuel = fuel - 1;
            let current_input = pending;
            pending = None;
            let ghost prev = tr.last();
            let ghost prior_tr = tr;
            match self.step(file, code, pc, current_input) {
                Ok(StepOutcome::Next { pc: pc2, output }) => {
                    let ghost out_ghost = output;
                    match output {
                        Some(o) => {
                            outputs.push(o);
                        },
                        None => {},
                    }
                    pc = pc2;
                    proof {
                        let nextc = DriveConfig {
                            vm: *self,
                            pc: pc as int,
                            pending: None::<String>,
                            used: next_input as int,
                            outs: outputs@,
                        };
                        assert(nextc.vm == *self);
                        assert(step_post(
                            prev.vm,
                            nextc.vm,
                            code@,
                            file@,
                            prev.pc,
                            prev.pending,
                            Ok(StepOutcome::Next { pc: pc2, output: out_ghost }),
                        ));
                        assert(drive_step(prev, nextc, code@, file@, inputs@));
                        lemma_runs_extend(tr, nextc, code@, file@, inputs@);
                        tr = tr.push(nextc);
                    }
                },
                Ok(StepOutcome::NeedInput { prompt }) => {
                    let ghost prompt_ghost = prompt;
                    outputs.push(prompt);
                    if next_input < inputs.len() {
                        pending = Some(inputs[next_input].clone());
                        next_input = next_input + 1;
                        proof {
                            let nextc = DriveConfig {
                                vm: *self,
                                pc: pc as int,
                                pending: pending,
                                used: next_input as int,
                                outs: outputs@,
                            };
                            assert(nextc.vm == *self);
                            assert(step_post(
                                prev.vm,
                                nextc.vm,
                                code@,
                                file@,
                                prev.pc,
                                prev.pending,
                                Ok(StepOutcome::NeedInput { prompt: prompt_ghost }),
                            ));
                            assert(pending == Some(inputs@[prev.used]));
                            assert(drive_step(prev, nextc, code@, file@, inputs@));
                            lemma_runs_extend(tr, nextc, code@, file@, inputs@);
                            tr = tr.push(nextc);
                        }
                    } else {
                        return Err(crate::errors::RunError::at(ErrorKind::InputExhausted, 0));
                    }
                },
                Err(e) => {
                    return Err(e);
                },
            }
        }
        proof {
            assert(tr.last().pending is None);
            assert(tr.last().outs == outputs@);
            assert(scanned(*old(self), vm1, code@, file@));
            assert(runs(tr, code@, file@, inputs@));
        }
        Ok(outputs)
    }

    /// Decomposes raw source lines and runs them, without canonicalization.
    pub fn evaluate_lines(
        &mut self,
        file: &String,
        lines: &Vec<String>,
        inputs: &Vec<String>,
        max_steps: u64,
    ) -> (r: Result<Vec<String>, crate::errors::RunError>)
        requires
            old(self).wf(),
        ensures
            final(self).wf(),
            crate::line::decomposed(crate::line::texts_of(lines@)) matches Err(p) ==> r matches Err(
                e,
            ) && e.kind == p.0 && e.line as int == p.1,
            r matches Ok(outs) ==> exists|
                code: Seq<crate::line::Line>,
                vm1: VM,
                tr: Seq<DriveConfig>,
            |
                #![trigger scanned(*old(self), vm1, code, file@), runs(tr, code, file@, inputs@)]
                {
                    &&& crate::line::decomposed(crate::line::texts_of(lines@)) == Ok::<
                        Seq<crate::line::LineModel>,
                        (ErrorKind, int),
                    >(code.map(|j: int, l: crate::line::Line| l@))
                    &&& scanned(*old(self), vm1, code, file@)
                    &&& runs(tr, code, file@, inputs@)
                    &&& tr.len() >= 1
                    &&& tr.first() == (DriveConfig {
                        vm: vm1,
                        pc: 0,
                        pending: None::<String>,
                        used: 0,
                        outs: Seq::<String>::empty(),
                    })
                    &&& tr.last().vm == *final(self)
                    &&& tr.last().pc >= code.len()
                    &&& tr.last().pending is None
                    &&& 0 <= tr.last().used <= inputs@.len()
                    &&& tr.last().outs == outs@
                },
    {
        let code = match crate::line::decompose_lines(lines) {
            Ok(c) => c,
            Err(e) => {
                return Err(e);
            },
        };
        if code.len() == usize::MAX {
            return Err(crate::errors::RunError::at(ErrorKind::StepLimit, 0));
        }
        let r = self.evaluate(file, &code, inputs, max_steps);
        proof {
            if r is Ok {
                let outs = r->Ok_0;
                let (vm1, tr): (VM, Seq<DriveConfig>) = choose|vm1: VM, tr: Seq<DriveConfig>|
                    #![trigger scanned(*old(self), vm1, code@, file@), runs(tr, code@, file@, inputs@)]
                    {
                        &&& scanned(*old(self), vm1, code@, file@)
                        &&& runs(tr, code@, file@, inputs@)
                        &&& tr.len() >= 1
                        &&& tr.first() == (DriveConfig {
                            vm: vm1,
                            pc: 0,
                            pending: None::<String>,
                            used: 0,
                            outs: Seq::<String>::empty(),
                        })
                        &&& tr.last().vm == *self
                        &&& tr.last().pc >= code@.len()
                        &&& tr.last().pending is None
                        &&& 0 <= tr.last().used <= inputs@.len()
                        &&& tr.last().outs == outs@
                    };
                assert(scanned(*old(self), vm1, code@, file@));
                assert(runs(tr, code@, file@, inputs@));
            }
        }
        r
    }
}

} // verus!
