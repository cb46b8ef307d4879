use vstd::prelude::*;

use crate::errors::{ErrorKind, RunError};
use crate::lexing_specification::LexingSpecification;
use crate::lexing_specification::v0::{canonical_items, v0_lex_spec};
use crate::line::{Command, ItemModel, Line};

verus! {

/// The registry's reading of a line: specifications are tried in order and
/// the first success wins.
pub open spec fn registry_spec(
    specs: Seq<LexingSpecification>,
    head: Command,
    items: Seq<ItemModel>,
) -> Option<(Command, Seq<(int, ItemModel)>)>
    decreases specs.len(),
{
    if specs.len() == 0 {
        None
    } else {
        match v0_lex_spec(specs[0].model(), head, items) {
            Some(c) => Some(c),
            None => registry_spec(specs.skip(1), head, items),
        }
    }
}

/// Canonicalizes one line against the registered specifications, in order.
pub fn lex_line(line: &Line, specs: &Vec<LexingSpecification>) -> (r: Result<Line, RunError>)
    requires
        line@.items.len() >= 1,
        line@.items[0] is Cmd,
    ensures
        match r {
            Ok(out) => registry_spec(specs@, line@.items[0]->Cmd_op, line@.items.skip(1))
                matches Some(c) && out@.items == canonical_items(c.0, c.1) && out@.number
                == line@.number,
            Err(e) => e.kind == ErrorKind::LexicalNoMatch && e.line == line.line_number
                && registry_spec(specs@, line@.items[0]->Cmd_op, line@.items.skip(1)) is None,
        },
{
    let ghost head = line@.items[0]->Cmd_op;
    let ghost after = line@.items.skip(1);
    proof {
        assert(specs@.skip(0) =~= specs@);
    }
    let n = specs.len();
    let mut k: usize = 0;
    while k < n
        invariant
            k <= n,
            n == specs@.len(),
            line@.items.len() >= 1,
            line@.items[0] is Cmd,
            head == line@.items[0]->Cmd_op,
            after == line@.items.skip(1),
            registry_spec(specs@, head, after) == registry_spec(specs@.skip(k as int), head, after),
        decreases n - k,
    {
        proof {
            assert(specs@.skip(k as int)[0] == specs@[k as int]);
            assert(specs@.skip(k as int).skip(1) =~= specs@.skip(k + 1));
        }
        match specs[k].lex(line) {
            Some(out) => {
                return Ok(out);
            },
            None => {},
        }
        k = k + 1;
    }
    proof {
        assert(specs@.skip(n as int) =~= Seq::<LexingSpecification>::empty());
    }
    Err(RunError::at(ErrorKind::LexicalNoMatch, line.line_number))
}

/// Canonicalizes a whole program, line by line.
pub fn lex(lines: &Vec<Line>, specs: &Vec<LexingSpecification>) -> (r: Result<Vec<Line>, RunError>)
    requires
        forall|i: int|
            0 <= i < lines@.len() ==> (#[trigger] lines@[i])@.items.len() >= 1
                && lines@[i]@.items[0] is Cmd,
    ensures
        match r {
            Ok(out) => {
                &&& out@.len() == lines@.len()
                &&& forall|i: int|
                    0 <= i < out@.len() ==> (registry_spec(
                        specs@,
                        (#[trigger] lines@[i])@.items[0]->Cmd_op,
                        lines@[i]@.items.skip(1),
                    ) matches Some(c) && out@[i]@.items == canonical_items(c.0, c.1)
                        && out@[i]@.number == lines@[i]@.number)
                &&& forall|i: int|
                    0 <= i < out@.len() ==> (#[trigger] out@[i])@.items.len() >= 1
                        && out@[i]@.items[0] is Cmd
            },
            Err(e) => e.kind == ErrorKind::LexicalNoMatch && exists|i: int|
                0 <= i < lines@.len() && e.line == (#[trigger] lines@[i]).line_number
                    && registry_spec(
                    specs@,
                    lines@[i]@.items[0]->Cmd_op,
                    lines@[i]@.items.skip(1),
                ) is None && (forall|j: int|
                    0 <= j < i ==> registry_spec(
                        specs@,
                        (#[trigger] lines@[j])@.items[0]->Cmd_op,
                        lines@[j]@.items.skip(1),
                    ) is Some),
        },
{
    let mut out: Vec<Line> = Vec::new();
    let mut i: usize = 0;
    while i < lines.len()
        invariant
            i <= lines@.len(),
            out@.len() == i,
            forall|j: int|
                0 <= j < lines@.len() ==> (#[trigger] lines@[j])@.items.len() >= 1
                    && lines@[j]@.items[0] is Cmd,
            forall|j: int|
                0 <= j < i ==> (registry_spec(
                    specs@,
                    (#[trigger] lines@[j])@.items[0]->Cmd_op,
                    lines@[j]@.items.skip(1),
                ) matches Some(c) && out@[j]@.items == canonical_items(c.0, c.1)
                    && out@[j]@.number == lines@[j]@.number),
            forall|j: int|
                0 <= j < i ==> (#[trigger] out@[j])@.items.len() >= 1 && out@[j]@.items[0] is Cmd,
        decreases lines@.len() - i,
    {
        match lex_line(&lines[i], specs) {
            Ok(line) => {
                let ghost prior = out@;
                proof {
                    let c = registry_spec(
                        specs@,
                        lines@[i as int]@.items[0]->Cmd_op,
                        lines@[i as int]@.items.skip(1),
                    )->Some_0;
                    crate::line::lemma_items_model_len(line.items@);
                    assert(canonical_items(c.0, c.1)[0] is Cmd);
                    assert(canonical_items(c.0, c.1).len() >= 1);
                }
                out.push(line);
                proof {
                    assert(forall|j: int|
                        0 <= j < prior.len() ==> (#[trigger] out@[j]) == prior[j]);
                }
            },
            Err(e) => {
                proof {
                    assert(forall|j: int|
                        0 <= j < i ==> registry_spec(
                            specs@,
                            (#[trigger] lines@[j])@.items[0]->Cmd_op,
                            lines@[j]@.items.skip(1),
                        ) is Some);
                }
                return Err(e);
            },
        }
        i = i + 1;
    }
    Ok(out)
}

} // verus!
