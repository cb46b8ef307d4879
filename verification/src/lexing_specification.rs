use vstd::prelude::*;

use crate::line::{Line, LineModel};

pub mod v0;

verus! {

/// One atom of a surface pattern: a keyword to consume, an argument to
/// capture under a position, or the rest of the line verbatim.
#[derive(Debug)]
pub enum Matcher {
    Symbol(String),
    Argument(i32),
    Rest,
}

/// The mathematical reading of a matcher.
pub ghost enum MatcherModel {
    Sym { text: Seq<char> },
    Arg { index: int },
    Rest,
}

pub open spec fn matcher_model(m: Matcher) -> MatcherModel {
    match m {
        Matcher::Symbol(s) => MatcherModel::Sym { text: s@ },
        Matcher::Argument(i) => MatcherModel::Arg { index: i as int },
        Matcher::Rest => MatcherModel::Rest,
    }
}

pub open spec fn matchers_model(s: Seq<Matcher>) -> Seq<MatcherModel>
    decreases s,
{
    if s.len() == 0 {
        Seq::empty()
    } else {
        matchers_model(s.drop_last()).push(matcher_model(s.last()))
    }
}

pub broadcast proof fn lemma_matchers_model_len(s: Seq<Matcher>)
    ensures
        (#[trigger] matchers_model(s)).len() == s.len(),
    decreases s,
{
    if s.len() > 0 {
        lemma_matchers_model_len(s.drop_last());
    }
}

pub broadcast proof fn lemma_matchers_model_index(s: Seq<Matcher>, i: int)
    requires
        0 <= i < s.len(),
    ensures
        #[trigger] matchers_model(s)[i] == matcher_model(s[i]),
    decreases s,
{
    lemma_matchers_model_len(s);
    if i < s.len() - 1 {
        lemma_matchers_model_index(s.drop_last(), i);
        assert(s.drop_last()[i] == s[i]);
    } else {
        assert(s.last() == s[i]);
    }
}

/// A surface syntax: one of the tagged specification variants.
pub enum LexingSpecification {
    V0(v0::LexingSpecificationV0),
}

impl LexingSpecification {
    pub open spec fn model(self) -> Seq<(crate::line::Command, Seq<MatcherModel>)> {
        match self {
            LexingSpecification::V0(s) => s.model(),
        }
    }

    /// Canonicalizes a line against this specification's ordered matchings,
    /// or reports that none applies.
    pub fn lex(&self, line: &Line) -> (r: Option<Line>)
        requires
            line@.items.len() >= 1,
            line@.items[0] is Cmd,
        ensures
            match r {
                Some(out) => v0::v0_lex_spec(
                    self.model(),
                    line@.items[0]->Cmd_op,
                    line@.items.skip(1),
                ) matches Some(c) && out@.items == v0::canonical_items(c.0, c.1) && out@.number
                    == line@.number,
                None => v0::v0_lex_spec(self.model(), line@.items[0]->Cmd_op, line@.items.skip(1))
                    is None,
            },
    {
        match self {
            LexingSpecification::V0(s) => s.lex(line),
        }
    }
}

} // verus!
