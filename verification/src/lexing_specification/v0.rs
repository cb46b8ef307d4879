use vstd::prelude::*;

use crate::line::{Command, ItemModel, Line, LineItem, items_model, item_model,
    lemma_items_model_index, lemma_items_model_len};
use crate::lexing_specification::{Matcher, MatcherModel, matcher_model, matchers_model,
    lemma_matchers_model_index, lemma_matchers_model_len};

verus! {

/// A surface syntax loaded from a configuration document: a name, a version,
/// and the ordered command matchings.
pub struct LexingSpecificationV0 {
    pub name: String,
    pub version: i32,
    pub matchings: Vec<(Command, Vec<Matcher>)>,
}

/// The captured arguments of one successful match: position and item.
pub struct Matching {
    pub arguments: Vec<(i128, LineItem)>,
}

/// The mathematical reading of a capture list.
pub open spec fn args_model(s: Seq<(i128, LineItem)>) -> Seq<(int, ItemModel)>
    decreases s,
{
    if s.len() == 0 {
        Seq::empty()
    } else {
        args_model(s.drop_last()).push((s.last().0 as int, item_model(s.last().1)))
    }
}

pub broadcast proof fn lemma_args_model_len(s: Seq<(i128, LineItem)>)
    ensures
        (#[trigger] args_model(s)).len() == s.len(),
    decreases s,
{
    if s.len() > 0 {
        lemma_args_model_len(s.drop_last());
    }
}

pub broadcast proof fn lemma_args_model_index(s: Seq<(i128, LineItem)>, i: int)
    requires
        0 <= i < s.len(),
    ensures
        #[trigger] args_model(s)[i] == (s[i].0 as int, item_model(s[i].1)),
    decreases s,
{
    lemma_args_model_len(s);
    if i < s.len() - 1 {
        lemma_args_model_index(s.drop_last(), i);
        assert(s.drop_last()[i] == s[i]);
    } else {
        assert(s.last() == s[i]);
    }
}

/// The mathematical reading of an ordered matching list.
pub open spec fn pairs_model(s: Seq<(Command, Vec<Matcher>)>) -> Seq<
    (Command, Seq<MatcherModel>),
>
    decreases s,
{
    if s.len() == 0 {
        Seq::empty()
    } else {
        pairs_model(s.drop_last()).push((s.last().0, matchers_model(s.last().1@)))
    }
}

pub broadcast proof fn lemma_pairs_model_len(s: Seq<(Command, Vec<Matcher>)>)
    ensures
        (#[trigger] pairs_model(s)).len() == s.len(),
    decreases s,
{
    if s.len() > 0 {
        lemma_pairs_model_len(s.drop_last());
    }
}

pub broadcast proof fn lemma_pairs_model_index(s: Seq<(Command, Vec<Matcher>)>, i: int)
    requires
        0 <= i < s.len(),
    ensures
        #[trigger] pairs_model(s)[i] == (s[i].0, matchers_model(s[i].1@)),
    decreases s,
{
    lemma_pairs_model_len(s);
    if i < s.len() - 1 {
        lemma_pairs_model_index(s.drop_last(), i);
        assert(s.drop_last()[i] == s[i]);
    } else {
        assert(s.last() == s[i]);
    }
}

/// Matching one pattern against a line's argument items, left to right:
/// a symbol consumes an equal label, an argument captures any item under its
/// position, and an exhausted pattern or `Rest` captures whatever remains at
/// the positions after the largest one seen.
pub open spec fn match_spec(items: Seq<ItemModel>, pat: Seq<MatcherModel>, maxarg: int) -> Option<
    Seq<(int, ItemModel)>,
>
    decreases pat.len(),
{
    if pat.len() == 0 {
        Some(Seq::new(items.len(), |i: int| (maxarg + 1 + i, items[i])))
    } else if items.len() == 0 {
        if pat[0] is Rest {
            Some(Seq::empty())
        } else {
            None
        }
    } else {
        match pat[0] {
            MatcherModel::Sym { text } => {
                if items[0] matches ItemModel::Lbl { text: t } && t == text {
                    match_spec(items.skip(1), pat.skip(1), maxarg)
                } else {
                    None
                }
            },
            MatcherModel::Arg { index } => {
                match match_spec(
                    items.skip(1),
                    pat.skip(1),
                    if index > maxarg {
                        index
                    } else {
                        maxarg
                    },
                ) {
                    Some(r) => Some(r.push((index, items[0]))),
                    None => None,
                }
            },
            MatcherModel::Rest => Some(
                Seq::new(items.len(), |i: int| (maxarg + 1 + i, items[i])),
            ),
        }
    }
}

impl Matching {
    /// Captures everything from `start` on, at the positions after the
    /// largest argument position seen so far.
    pub fn of_rest(leftover: &Vec<LineItem>, start: usize, max_argument_index: i128) -> (r:
        Matching)
        requires
            start <= leftover@.len(),
            0 <= max_argument_index <= i32::MAX,
        ensures
            args_model(r.arguments@) == Seq::new(
                (leftover@.len() - start) as nat,
                |i: int| (max_argument_index + 1 + i, item_model(leftover@[start + i])),
            ),
    {
        let mut arguments: Vec<(i128, LineItem)> = Vec::new();
        let mut i: usize = start;
        while i < leftover.len()
            invariant
                start <= i <= leftover@.len(),
                arguments@.len() == i - start,
                0 <= max_argument_index <= i32::MAX,
                args_model(arguments@) == Seq::new(
                    (i - start) as nat,
                    |j: int| (max_argument_index + 1 + j, item_model(leftover@[start + j])),
                ),
            decreases leftover@.len() - i,
        {
            let ghost prior = arguments@;
            let position: i128 = max_argument_index + 1 + ((i - start) as i128);
            arguments.push((position, leftover[i].clone()));
            proof {
                assert(arguments@.drop_last() =~= prior);
                lemma_args_model_len(arguments@);
                assert(args_model(arguments@) =~= Seq::new(
                    (i + 1 - start) as nat,
                    |j: int| (max_argument_index + 1 + j, item_model(leftover@[start + j])),
                ));
            }
            i = i + 1;
        }
        Matching { arguments }
    }
}

/// Matches a pattern suffix against an item suffix, mirroring `match_spec`.
fn parse(
    items: &Vec<LineItem>,
    ip: usize,
    pattern: &Vec<Matcher>,
    pp: usize,
    maxarg: i128,
) -> (r: Option<Matching>)
    requires
        ip <= items@.len(),
        pp <= pattern@.len(),
        0 <= maxarg <= i32::MAX,
    ensures
        match r {
            Some(m) => match_spec(
                items_model(items@).skip(ip as int),
                matchers_model(pattern@).skip(pp as int),
                maxarg as int,
            ) == Some(args_model(m.arguments@)),
            None => match_spec(
                items_model(items@).skip(ip as int),
                matchers_model(pattern@).skip(pp as int),
                maxarg as int,
            ) is None,
        },
    decreases pattern@.len() - pp,
{
    let ghost im = items_model(items@).skip(ip as int);
    let ghost pm = matchers_model(pattern@).skip(pp as int);
    proof {
        lemma_items_model_len(items@);
        lemma_matchers_model_len(pattern@);
        if pp < pattern@.len() {
            lemma_matchers_model_index(pattern@, pp as int);
            assert(pm[0] == matcher_model(pattern@[pp as int]));
        }
        if ip < items@.len() {
            lemma_items_model_index(items@, ip as int);
            assert(im[0] == item_model(items@[ip as int]));
        }
        assert(im.len() == items@.len() - ip);
        assert(pm.len() == pattern@.len() - pp);
    }
    if pp == pattern.len() {
        let r = Matching::of_rest(items, ip, maxarg);
        proof {
            assert(Seq::new(
                (items@.len() - ip) as nat,
                |i: int| (maxarg + 1 + i, item_model(items@[ip + i])),
            ) =~= Seq::new(im.len(), |i: int| (maxarg as int + 1 + i, im[i]))) by {
                assert forall|i: int| 0 <= i < im.len() implies im[i] == item_model(
                    items@[ip + i],
                ) by {
                    lemma_items_model_index(items@, ip + i);
                }
            }
        }
        return Some(r);
    }
    if ip == items.len() {
        if matches!(pattern[pp], Matcher::Rest) {
            return Some(Matching { arguments: Vec::new() });
        }
        return None;
    }
    match &pattern[pp] {
        Matcher::Symbol(sym) => {
            let matched = match &items[ip] {
                LineItem::Label(t) => *t == *sym,
                _ => false,
            };
            if matched {
                proof {
                    assert(im.skip(1) =~= items_model(items@).skip(ip + 1));
                    assert(pm.skip(1) =~= matchers_model(pattern@).skip(pp + 1));
                }
                parse(items, ip + 1, pattern, pp + 1, maxarg)
            } else {
                None
            }
        },
        Matcher::Argument(idx) => {
            let widened: i128 = *idx as i128;
            let ni: i128 = if widened > maxarg {
                widened
            } else {
                maxarg
            };
            proof {
                assert(im.skip(1) =~= items_model(items@).skip(ip + 1));
                assert(pm.skip(1) =~= matchers_model(pattern@).skip(pp + 1));
            }
            match parse(items, ip + 1, pattern, pp + 1, ni) {
                Some(mut m) => {
                    let ghost prior = m.arguments@;
                    m.arguments.push((widened, items[ip].clone()));
                    proof {
                        assert(m.arguments@.drop_last() =~= prior);
                        assert(args_model(m.arguments@) == args_model(prior).push(
                            (widened as int, item_model(m.arguments@.last().1)),
                        ));
                    }
                    Some(m)
                },
                None => None,
            }
        },
        Matcher::Rest => {
            let r = Matching::of_rest(items, ip, maxarg);
            proof {
                assert(Seq::new(
                    (items@.len() - ip) as nat,
                    |i: int| (maxarg + 1 + i, item_model(items@[ip + i])),
                ) =~= Seq::new(im.len(), |i: int| (maxarg as int + 1 + i, im[i]))) by {
                    assert forall|i: int| 0 <= i < im.len() implies im[i] == item_model(
                        items@[ip + i],
                    ) by {
                        lemma_items_model_index(items@, ip + i);
                    }
                }
            }
            Some(r)
        },
    }
}

/// Stable insertion of a capture into a position-sorted capture list: it
/// lands after every capture whose position is not greater.
pub open spec fn insert_pos(sorted: Seq<(int, ItemModel)>, e: (int, ItemModel)) -> Seq<
    (int, ItemModel),
>
    decreases sorted.len(),
{
    if sorted.len() == 0 {
        seq![e]
    } else if sorted.last().0 <= e.0 {
        sorted.push(e)
    } else {
        insert_pos(sorted.drop_last(), e).push(sorted.last())
    }
}

/// Stable sort of captures by position.
pub open spec fn sort_pos(s: Seq<(int, ItemModel)>) -> Seq<(int, ItemModel)>
    decreases s.len(),
{
    if s.len() == 0 {
        Seq::empty()
    } else {
        insert_pos(sort_pos(s.drop_last()), s.last())
    }
}

/// Non-decreasing positions.
pub open spec fn pos_sorted(s: Seq<(int, ItemModel)>) -> bool {
    forall|i: int, j: int| 0 <= i < j < s.len() ==> (#[trigger] s[i]).0 <= (#[trigger] s[j]).0
}

/// The canonical line body: the command, then the captured items by
/// ascending position.
pub open spec fn canonical_items(cmd: Command, captures: Seq<(int, ItemModel)>) -> Seq<
    ItemModel,
> {
    seq![ItemModel::Cmd { op: cmd }].add(
        sort_pos(captures).map(|i: int, p: (int, ItemModel)| p.1),
    )
}

/// Where the stable insertion boundary lies, the insertion is a splice.
proof fn lemma_insert_pos_splice(s: Seq<(int, ItemModel)>, e: (int, ItemModel), j: int)
    requires
        pos_sorted(s),
        0 <= j <= s.len(),
        j == 0 || s[j - 1].0 <= e.0,
        forall|m: int| j <= m < s.len() ==> (#[trigger] s[m]).0 > e.0,
    ensures
        insert_pos(s, e) == s.take(j) + seq![e] + s.skip(j),
        pos_sorted(insert_pos(s, e)),
    decreases s.len(),
{
    if s.len() == 0 {
        assert(insert_pos(s, e) =~= s.take(j) + seq![e] + s.skip(j));
    } else if s.last().0 <= e.0 {
        assert(j == s.len()) by {
            if j < s.len() {
                assert(s[s.len() - 1].0 > e.0);
            }
        }
        assert(s.take(j) =~= s);
        assert(s.skip(j) =~= Seq::<(int, ItemModel)>::empty());
        assert(insert_pos(s, e) =~= s.take(j) + seq![e] + s.skip(j));
    } else {
        assert(j < s.len()) by {
            if j == s.len() {
                assert(s[j - 1].0 <= e.0);
            }
        }
        assert(pos_sorted(s.drop_last())) by {
            assert(forall|a: int, b: int|
                0 <= a < b < s.len() - 1 ==> (#[trigger] s.drop_last()[a]) == s[a]
                    && (#[trigger] s.drop_last()[b]) == s[b]);
        }
        assert(forall|m: int|
            j <= m < s.len() - 1 ==> (#[trigger] s.drop_last()[m]).0 > e.0) by {
            assert(forall|m: int|
                j <= m < s.len() - 1 ==> (#[trigger] s.drop_last()[m]) == s[m]);
        }
        if j > 0 {
            assert(s.drop_last()[j - 1] == s[j - 1]);
        }
        lemma_insert_pos_splice(s.drop_last(), e, j);
        assert(insert_pos(s, e) == insert_pos(s.drop_last(), e).push(s.last()));
        assert(insert_pos(s, e) =~= s.take(j) + seq![e] + s.skip(j)) by {
            assert(s.drop_last().take(j) =~= s.take(j));
            assert(s.drop_last().skip(j).push(s.last()) =~= s.skip(j));
        }
        assert(pos_sorted(insert_pos(s, e))) by {
            let r = s.take(j) + seq![e] + s.skip(j);
            assert forall|a: int, b: int|
                0 <= a < b < r.len() implies (#[trigger] r[a]).0 <= (#[trigger] r[b]).0 by {
                if a < j {
                    assert(r[a] == s[a]);
                } else if a == j {
                    assert(r[a] == e);
                } else {
                    assert(r[a] == s[a - 1]);
                }
                if b < j {
                    assert(r[b] == s[b]);
                } else if b == j {
                    assert(r[b] == e);
                } else {
                    assert(r[b] == s[b - 1]);
                }
            }
        }
    }
}

/// Stable insertion sort of the captures by position, mirroring `sort_pos`.
fn sort_arguments(args: Vec<(i128, LineItem)>) -> (r: Vec<(i128, LineItem)>)
    ensures
        args_model(r@) == sort_pos(args_model(args@)),
        pos_sorted(args_model(r@)),
        r@.len() == args@.len(),
{
    proof {
        lemma_args_model_len(args@);
    }
    let mut out: Vec<(i128, LineItem)> = Vec::new();
    let mut k: usize = 0;
    while k < args.len()
        invariant
            k <= args@.len(),
            out@.len() == k,
            args_model(out@) == sort_pos(args_model(args@.subrange(0, k as int))),
            pos_sorted(args_model(out@)),
        decreases args@.len() - k,
    {
        proof {
            lemma_args_model_len(out@);
            lemma_args_model_len(args@);
            lemma_args_model_index(args@, k as int);
            assert(args_model(args@.subrange(0, k + 1)).drop_last() =~= args_model(
                args@.subrange(0, k as int),
            )) by {
                assert(args@.subrange(0, k + 1).drop_last() =~= args@.subrange(0, k as int));
                lemma_args_model_len(args@.subrange(0, k + 1));
            }
            assert(args_model(args@.subrange(0, k + 1)).last() == (args@[k as int].0 as int,
            item_model(args@[k as int].1))) by {
                lemma_args_model_len(args@.subrange(0, k + 1));
                lemma_args_model_index(args@.subrange(0, k + 1), k as int);
            }
        }
        let key: i128 = args[k].0;
        let element = (key, args[k].1.clone());
        // Find the stable insertion point, scanning from the end.
        let mut j: usize = out.len();
        while j > 0 && out[j - 1].0 > key
            invariant
                j <= out@.len(),
                forall|m: int| j <= m < out@.len() ==> (#[trigger] out@[m]).0 > key,
            decreases j,
        {
            j = j - 1;
        }
        let ghost prior = out@;
        let ghost prior_model = args_model(out@);
        proof {
            lemma_args_model_len(prior);
            assert forall|m: int| j <= m < prior_model.len() implies (
            #[trigger] prior_model[m]).0 > key as int by {
                lemma_args_model_index(prior, m);
            }
            if j > 0 {
                lemma_args_model_index(prior, j - 1);
            }
            lemma_insert_pos_splice(
                prior_model,
                (key as int, item_model(element.1)),
                j as int,
            );
        }
        out.insert(j, element);
        proof {
            assert(args_model(out@) =~= prior_model.take(j as int) + seq![
                (key as int, item_model(element.1)),
            ] + prior_model.skip(j as int)) by {
                lemma_args_model_len(out@);
                assert forall|m: int| 0 <= m < out@.len() implies args_model(out@)[m] == (
                prior_model.take(j as int) + seq![(key as int, item_model(element.1))]
                    + prior_model.skip(j as int))[m] by {
                    lemma_args_model_index(out@, m);
                    if m < j {
                        assert(out@[m] == prior[m]);
                        lemma_args_model_index(prior, m);
                    } else if m == j {
                        assert(out@[m] == element);
                    } else {
                        assert(out@[m] == prior[m - 1]);
                        lemma_args_model_index(prior, m - 1);
                    }
                }
            }
        }
        k = k + 1;
    }
    proof {
        assert(args@.subrange(0, args@.len() as int) =~= args@);
    }
    out
}

/// First-match canonicalization against an ordered matching list: an entry
/// applies when its command is the line's head command and its pattern
/// matches the items after the head.
///
/// Matching is keyed on the head and ranges over the arguments alone by
/// design: the decomposer has already promoted the first token of every
/// logical line to a `Command` item, and a `Symbol` matcher consumes only
/// `Label` items, so a pattern matched against the full item sequence could
/// never consume the head — no matching would ever produce a line in the
/// canonical `Command`-then-arguments shape that the evaluator and the
/// surface scenarios require.
pub open spec fn v0_lex_spec(
    ms: Seq<(Command, Seq<MatcherModel>)>,
    head: Command,
    items: Seq<ItemModel>,
) -> Option<(Command, Seq<(int, ItemModel)>)>
    decreases ms.len(),
{
    if ms.len() == 0 {
        None
    } else if ms[0].0 == head {
        match match_spec(items, ms[0].1, 0) {
            Some(c) => Some((ms[0].0, c)),
            None => v0_lex_spec(ms.skip(1), head, items),
        }
    } else {
        v0_lex_spec(ms.skip(1), head, items)
    }
}

impl LexingSpecificationV0 {
    /// The ordered matchings, mathematically.
    pub open spec fn model(self) -> Seq<(Command, Seq<MatcherModel>)> {
        pairs_model(self.matchings@)
    }

    /// Canonicalizes a line: the first matching pattern wins, its command
    /// becomes the head, and the captured items follow by ascending position.
    pub fn lex(&self, line: &Line) -> (r: Option<Line>)
        requires
            line@.items.len() >= 1,
            line@.items[0] is Cmd,
        ensures
            match r {
                Some(out) => v0_lex_spec(
                    self.model(),
                    line@.items[0]->Cmd_op,
                    line@.items.skip(1),
                ) matches Some(c) && out@.items == canonical_items(c.0, c.1) && out@.number
                    == line@.number,
                None => v0_lex_spec(self.model(), line@.items[0]->Cmd_op, line@.items.skip(1))
                    is None,
            },
    {
        let ghost mm = self.model();
        let ghost after = line@.items.skip(1);
        proof {
            lemma_items_model_len(line.items@);
            lemma_pairs_model_len(self.matchings@);
            assert(mm.skip(0) =~= mm);
            lemma_items_model_index(line.items@, 0);
        }
        let head: Command = match &line.items[0] {
            LineItem::Command(c) => *c,
            _ => {
                return None;
            },
        };
        let n = self.matchings.len();
        let mut k: usize = 0;
        while k < n
            invariant
                k <= n,
                n == self.matchings@.len(),
                mm == self.model(),
                mm.len() == n,
                after == line@.items.skip(1),
                line@.items.len() >= 1,
                line@.items[0] is Cmd,
                head == line@.items[0]->Cmd_op,
                v0_lex_spec(mm, head, after) == v0_lex_spec(mm.skip(k as int), head, after),
            decreases n - k,
        {
            proof {
                lemma_pairs_model_index(self.matchings@, k as int);
                assert(mm.skip(k as int)[0] == mm[k as int]);
                assert(mm.skip(k as int).skip(1) =~= mm.skip(k + 1));
                lemma_items_model_len(line.items@);
                assert(matchers_model(self.matchings@[k as int].1@).skip(0) =~= matchers_model(
                    self.matchings@[k as int].1@,
                ));
                assert(items_model(line.items@).skip(1) == after);
            }
            if self.matchings[k].0 != head {
                k = k + 1;
                continue ;
            }
            match parse(&line.items, 1, &self.matchings[k].1, 0, 0) {
                Some(m) => {
                    let sorted = sort_arguments(m.arguments);
                    let mut items: Vec<LineItem> = Vec::new();
                    items.push(LineItem::Command(self.matchings[k].0));
                    let ghost smodel = args_model(sorted@);
                    let mut j: usize = 0;
                    proof {
                        lemma_args_model_len(sorted@);
                        assert(items@.drop_last() =~= Seq::<LineItem>::empty());
                        assert(items_model(items@) =~= seq![
                            ItemModel::Cmd { op: self.matchings@[k as int].0 },
                        ]) by {
                            lemma_items_model_len(items@);
                            lemma_items_model_index(items@, 0);
                            assert(items@[0] == LineItem::Command(self.matchings@[k as int].0));
                        }
                        assert(smodel.take(0) =~= Seq::<(int, ItemModel)>::empty());
                        assert(seq![ItemModel::Cmd { op: self.matchings@[k as int].0 }].add(
                            smodel.take(0).map(|q: int, p: (int, ItemModel)| p.1),
                        ) =~= items_model(items@));
                    }
                    while j < sorted.len()
                        invariant
                            j <= sorted@.len(),
                            smodel == args_model(sorted@),
                            smodel.len() == sorted@.len(),
                            items@.len() == j + 1,
                            items_model(items@) == seq![
                                ItemModel::Cmd { op: self.matchings@[k as int].0 },
                            ].add(smodel.take(j as int).map(|q: int, p: (int, ItemModel)| p.1)),
                            k < self.matchings@.len(),
                        decreases sorted@.len() - j,
                    {
                        let ghost prior_items = items@;
                        items.push(sorted[j].1.clone());
                        proof {
                            lemma_args_model_index(sorted@, j as int);
                            assert(items@.drop_last() =~= prior_items);
                            assert(items_model(items@) == items_model(prior_items).push(
                                item_model(items@.last())));
                            assert(item_model(items@.last()) == smodel[j as int].1);
                            assert(seq![ItemModel::Cmd { op: self.matchings@[k as int].0 }].add(
                                smodel.take(j + 1).map(|q: int, p: (int, ItemModel)| p.1),
                            ) =~= items_model(prior_items).push(smodel[j as int].1));
                        }
                        j = j + 1;
                    }
                    proof {
                        assert(smodel.take(smodel.len() as int) =~= smodel);
                        assert(items_model(items@) == canonical_items(
                            self.matchings@[k as int].0,
                            args_model(m.arguments@),
                        ));
                    }
                    return Some(Line { line_number: line.line_number, items });
                },
                None => {},
            }
            k = k + 1;
        }
        proof {
            assert(mm.skip(n as int) =~= Seq::<(Command, Seq<MatcherModel>)>::empty());
        }
        None
    }
}

/// The configuration document's value type, opaque to verification.
#[verifier::external_type_specification]
#[verifier::external_body]
pub struct ExYaml(yaml_rust::Yaml);

/// The mathematical reading of a parsed configuration node: text, an
/// integer, a mapping in document order, a sequence, or any other node.
pub ghost enum DocNode {
    Text { text: Seq<char> },
    Int { n: int },
    Mapping { entries: Seq<(DocNode, DocNode)> },
    List { items: Seq<DocNode> },
    Other,
}

/// What yaml_rust::YamlLoader::load_from_str yields on given text: the
/// parsed document nodes, a function of the text alone, or nothing where
/// the text is refused.
pub uninterp spec fn yaml_doc_of(text: Seq<char>) -> Option<Seq<DocNode>>;

/// What a parsed node holds, as yaml_rust's accessors read it: a function
/// of the node value alone.
pub uninterp spec fn yaml_node_model(y: yaml_rust::Yaml) -> DocNode;

/// The models of a node sequence.
pub open spec fn nodes_model(v: Seq<yaml_rust::Yaml>) -> Seq<DocNode> {
    v.map(|i: int, y: yaml_rust::Yaml| yaml_node_model(y))
}

/// The models of a mapping's entries, in document order.
pub open spec fn entries_model(v: Seq<(yaml_rust::Yaml, yaml_rust::Yaml)>) -> Seq<
    (DocNode, DocNode),
> {
    v.map(
        |i: int, kv: (yaml_rust::Yaml, yaml_rust::Yaml)|
            (yaml_node_model(kv.0), yaml_node_model(kv.1)),
    )
}

/// Relies on yaml_rust::YamlLoader::load_from_str: parses a document stream,
/// a function of the text alone, or refuses ill-formed text.
#[verifier::external_body]
fn load_yaml_documents(text: &str) -> (r: Result<Vec<yaml_rust::Yaml>, ()>)
    ensures
        r is Ok <==> yaml_doc_of(text@) is Some,
        r matches Ok(v) ==> yaml_doc_of(text@) == Some(nodes_model(v@)),
{
    match yaml_rust::YamlLoader::load_from_str(text) {
        Ok(v) => Ok(v),
        Err(_) => Err(()),
    }
}

/// Relies on yaml_rust::Yaml::as_str: the content of a string node, nothing
/// for any other node.
#[verifier::external_body]
fn yaml_as_str(y: &yaml_rust::Yaml) -> (r: Option<String>)
    ensures
        r is Some <==> yaml_node_model(*y) is Text,
        r matches Some(s) ==> yaml_node_model(*y) == (DocNode::Text { text: s@ }),
{
    y.as_str().map(|s| s.to_string())
}

/// Relies on yaml_rust::Yaml::as_i64: the value of an integer node, nothing
/// for any other node.
#[verifier::external_body]
fn yaml_as_i64(y: &yaml_rust::Yaml) -> (r: Option<i64>)
    ensures
        r is Some <==> yaml_node_model(*y) is Int,
        r matches Some(i) ==> yaml_node_model(*y) == (DocNode::Int { n: i as int }),
{
    y.as_i64()
}

/// Relies on yaml_rust::Yaml::as_hash: the key-value entries of a mapping
/// node in document order, nothing for any other node.
#[verifier::external_body]
fn yaml_hash_entries(y: &yaml_rust::Yaml) -> (r: Option<Vec<(yaml_rust::Yaml, yaml_rust::Yaml)>>)
    ensures
        r is Some <==> yaml_node_model(*y) is Mapping,
        r matches Some(v) ==> yaml_node_model(*y) == (DocNode::Mapping { entries: entries_model(v@) }),
{
    y.as_hash().map(|h| h.iter().map(|(k, v)| (k.clone(), v.clone())).collect())
}

/// Relies on yaml_rust::Yaml::as_vec: the elements of a sequence node,
/// nothing for any other node.
#[verifier::external_body]
fn yaml_as_vec(y: &yaml_rust::Yaml) -> (r: Option<Vec<yaml_rust::Yaml>>)
    ensures
        r is Some <==> yaml_node_model(*y) is List,
        r matches Some(v) ==> yaml_node_model(*y) == (DocNode::List { items: nodes_model(v@) }),
{
    y.as_vec().map(|v| v.clone())
}

/// How one format element reads: an integer in argument range is an
/// argument position, the ellipsis text is the rest marker, any other text
/// is a keyword; anything else is refused.
pub open spec fn format_element_model(d: DocNode) -> Result<MatcherModel, crate::errors::ErrorKind> {
    match d {
        DocNode::Int { n } => {
            if (i32::MIN as int) <= n <= (i32::MAX as int) {
                Ok(MatcherModel::Arg { index: n })
            } else {
                Err(crate::errors::ErrorKind::BadSpecification)
            }
        },
        DocNode::Text { text } => {
            if text == "..."@ {
                Ok(MatcherModel::Rest)
            } else {
                Ok(MatcherModel::Sym { text })
            }
        },
        _ => Err(crate::errors::ErrorKind::BadSpecification),
    }
}

/// A format list read element by element, in order.
pub open spec fn format_list_model(items: Seq<DocNode>) -> Result<
    Seq<MatcherModel>,
    crate::errors::ErrorKind,
>
    decreases items.len(),
{
    if items.len() == 0 {
        Ok(Seq::empty())
    } else {
        match format_list_model(items.drop_last()) {
            Ok(ms) => match format_element_model(items.last()) {
                Ok(m) => Ok(ms.push(m)),
                Err(k) => Err(k),
            },
            Err(k) => Err(k),
        }
    }
}

/// The `format` value of a matcher mapping: the last entry under that key,
/// as a later entry overwrites an earlier one.
pub open spec fn map_lookup_format(entries: Seq<(DocNode, DocNode)>) -> Option<DocNode>
    decreases entries.len(),
{
    if entries.len() == 0 {
        None
    } else if entries.last().0 matches DocNode::Text { text } && text == "format"@ {
        Some(entries.last().1)
    } else {
        map_lookup_format(entries.drop_last())
    }
}

/// One entry of the `commands` mapping: a known command name other than
/// `NOOP`, and a mapping whose `format` value lists the elements.
pub open spec fn matcher_entry_model(key: DocNode, val: DocNode) -> Result<
    (Command, Seq<MatcherModel>),
    crate::errors::ErrorKind,
> {
    match key {
        DocNode::Text { text } => {
            if crate::line::command_of(text) == Command::NOOP {
                Err(crate::errors::ErrorKind::BadSpecification)
            } else {
                match val {
                    DocNode::Mapping { entries } => match map_lookup_format(entries) {
                        Some(f) => match f {
                            DocNode::List { items } => match format_list_model(items) {
                                Ok(ms) => Ok((crate::line::command_of(text), ms)),
                                Err(k) => Err(k),
                            },
                            _ => Err(crate::errors::ErrorKind::BadSpecification),
                        },
                        None => Err(crate::errors::ErrorKind::BadSpecification),
                    },
                    _ => Err(crate::errors::ErrorKind::BadSpecification),
                }
            }
        },
        _ => Err(crate::errors::ErrorKind::BadSpecification),
    }
}

/// The `commands` mapping read entry by entry, in document order.
pub open spec fn matchers_doc_model(entries: Seq<(DocNode, DocNode)>) -> Result<
    Seq<(Command, Seq<MatcherModel>)>,
    crate::errors::ErrorKind,
>
    decreases entries.len(),
{
    if entries.len() == 0 {
        Ok(Seq::empty())
    } else {
        match matchers_doc_model(entries.drop_last()) {
            Ok(ms) => match matcher_entry_model(entries.last().0, entries.last().1) {
                Ok(p) => Ok(ms.push(p)),
                Err(k) => Err(k),
            },
            Err(k) => Err(k),
        }
    }
}

/// The running read of the top-level documents: the name seen last and the
/// matchings seen last.
pub ghost struct DocRead {
    pub name: Option<Seq<char>>,
    pub matchings: Option<Seq<(Command, Seq<MatcherModel>)>>,
}

/// One top-level entry: `name` takes text, `commands` takes a mapping of
/// matchings, and every other entry is skipped.
pub open spec fn doc_entry_model(st: DocRead, key: DocNode, val: DocNode) -> Result<
    DocRead,
    crate::errors::ErrorKind,
> {
    match key {
        DocNode::Text { text } => {
            if text == "name"@ {
                match val {
                    DocNode::Text { text: n } => Ok(
                        DocRead { name: Some(n), matchings: st.matchings },
                    ),
                    _ => Err(crate::errors::ErrorKind::BadSpecification),
                }
            } else if text == "commands"@ {
                match val {
                    DocNode::Mapping { entries } => match matchers_doc_model(entries) {
                        Ok(ms) => Ok(DocRead { name: st.name, matchings: Some(ms) }),
                        Err(k) => Err(k),
                    },
                    _ => Err(crate::errors::ErrorKind::BadSpecification),
                }
            } else {
                Ok(st)
            }
        },
        _ => Ok(st),
    }
}

/// One document's entries read in order.
pub open spec fn doc_entries_fold(st: DocRead, entries: Seq<(DocNode, DocNode)>) -> Result<
    DocRead,
    crate::errors::ErrorKind,
>
    decreases entries.len(),
{
    if entries.len() == 0 {
        Ok(st)
    } else {
        match doc_entries_fold(st, entries.drop_last()) {
            Ok(st2) => doc_entry_model(st2, entries.last().0, entries.last().1),
            Err(k) => Err(k),
        }
    }
}

/// The documents read in order; each must be a mapping.
pub open spec fn docs_fold(st: DocRead, docs: Seq<DocNode>) -> Result<
    DocRead,
    crate::errors::ErrorKind,
>
    decreases docs.len(),
{
    if docs.len() == 0 {
        Ok(st)
    } else {
        match docs_fold(st, docs.drop_last()) {
            Ok(st2) => match docs.last() {
                DocNode::Mapping { entries } => doc_entries_fold(st2, entries),
                _ => Err(crate::errors::ErrorKind::BadSpecification),
            },
            Err(k) => Err(k),
        }
    }
}

/// The whole read of configuration text: the parsed documents walked in
/// order, the matchings required, the name falling back to the source name.
pub open spec fn spec_doc_model(source_name: Seq<char>, text: Seq<char>) -> Result<
    (Seq<char>, Seq<(Command, Seq<MatcherModel>)>),
    crate::errors::ErrorKind,
> {
    match yaml_doc_of(text) {
        None => Err(crate::errors::ErrorKind::BadSpecification),
        Some(docs) => {
            if docs.len() == 0 {
                Err(crate::errors::ErrorKind::BadSpecification)
            } else {
                match docs_fold(DocRead { name: None, matchings: None }, docs) {
                    Ok(st) => match st.matchings {
                        Some(ms) => Ok(
                            (
                                match st.name {
                                    Some(n) => n,
                                    None => source_name,
                                },
                                ms,
                            ),
                        ),
                        None => Err(crate::errors::ErrorKind::BadSpecification),
                    },
                    Err(k) => Err(k),
                }
            }
        },
    }
}

proof fn lemma_format_list_err(items: Seq<DocNode>, j: int, k: crate::errors::ErrorKind)
    requires
        0 <= j < items.len(),
        format_list_model(items.take(j)) is Ok,
        format_element_model(items[j]) == Err::<MatcherModel, crate::errors::ErrorKind>(k),
    ensures
        format_list_model(items) == Err::<Seq<MatcherModel>, crate::errors::ErrorKind>(k),
    decreases items.len(),
{
    if j == items.len() - 1 {
        assert(items.take(j) =~= items.drop_last());
        assert(items.last() == items[j]);
    } else {
        assert(items.drop_last().take(j) =~= items.take(j));
        assert(items.drop_last()[j] == items[j]);
        lemma_format_list_err(items.drop_last(), j, k);
    }
}

proof fn lemma_matchers_doc_err(entries: Seq<(DocNode, DocNode)>, j: int, k: crate::errors::ErrorKind)
    requires
        0 <= j < entries.len(),
        matchers_doc_model(entries.take(j)) is Ok,
        matcher_entry_model(entries[j].0, entries[j].1) == Err::<
            (Command, Seq<MatcherModel>),
            crate::errors::ErrorKind,
        >(k),
    ensures
        matchers_doc_model(entries) == Err::<
            Seq<(Command, Seq<MatcherModel>)>,
            crate::errors::ErrorKind,
        >(k),
    decreases entries.len(),
{
    if j == entries.len() - 1 {
        assert(entries.take(j) =~= entries.drop_last());
        assert(entries.last() == entries[j]);
    } else {
        assert(entries.drop_last().take(j) =~= entries.take(j));
        assert(entries.drop_last()[j] == entries[j]);
        lemma_matchers_doc_err(entries.drop_last(), j, k);
    }
}

proof fn lemma_doc_entries_err(
    st: DocRead,
    stj: DocRead,
    entries: Seq<(DocNode, DocNode)>,
    j: int,
    k: crate::errors::ErrorKind,
)
    requires
        0 <= j < entries.len(),
        doc_entries_fold(st, entries.take(j)) == Ok::<DocRead, crate::errors::ErrorKind>(stj),
        doc_entry_model(stj, entries[j].0, entries[j].1) == Err::<
            DocRead,
            crate::errors::ErrorKind,
        >(k),
    ensures
        doc_entries_fold(st, entries) == Err::<DocRead, crate::errors::ErrorKind>(k),
    decreases entries.len(),
{
    if j == entries.len() - 1 {
        assert(entries.take(j) =~= entries.drop_last());
        assert(entries.last() == entries[j]);
    } else {
        assert(entries.drop_last().take(j) =~= entries.take(j));
        assert(entries.drop_last()[j] == entries[j]);
        lemma_doc_entries_err(st, stj, entries.drop_last(), j, k);
    }
}

proof fn lemma_docs_fold_err(
    st: DocRead,
    stj: DocRead,
    docs: Seq<DocNode>,
    j: int,
    k: crate::errors::ErrorKind,
)
    requires
        0 <= j < docs.len(),
        docs_fold(st, docs.take(j)) == Ok::<DocRead, crate::errors::ErrorKind>(stj),
        match docs[j] {
            DocNode::Mapping { entries } => doc_entries_fold(stj, entries) == Err::<
                DocRead,
                crate::errors::ErrorKind,
            >(k),
            _ => k == crate::errors::ErrorKind::BadSpecification,
        },
    ensures
        docs_fold(st, docs) == Err::<DocRead, crate::errors::ErrorKind>(k),
    decreases docs.len(),
{
    if j == docs.len() - 1 {
        assert(docs.take(j) =~= docs.drop_last());
        assert(docs.last() == docs[j]);
    } else {
        assert(docs.drop_last().take(j) =~= docs.take(j));
        assert(docs.drop_last()[j] == docs[j]);
        lemma_docs_fold_err(st, stj, docs.drop_last(), j, k);
    }
}

impl LexingSpecificationV0 {
    /// Reads one format element: an integer is an argument position, the
    /// ellipsis is the rest marker, any other string is a keyword.
    fn convert_format_element(element: &yaml_rust::Yaml) -> (r: Result<
        Matcher,
        crate::errors::ErrorKind,
    >)
        ensures
            r matches Err(k) ==> k == crate::errors::ErrorKind::BadSpecification,
            match r {
                Ok(m) => format_element_model(yaml_node_model(*element)) == Ok::<
                    MatcherModel,
                    crate::errors::ErrorKind,
                >(matcher_model(m)),
                Err(k) => format_element_model(yaml_node_model(*element)) == Err::<
                    MatcherModel,
                    crate::errors::ErrorKind,
                >(k),
            },
    {
        match yaml_as_i64(element) {
            Some(i) => {
                if i64::from(i32::MIN) <= i && i <= i64::from(i32::MAX) {
                    Ok(Matcher::Argument(i as i32))
                } else {
                    Err(crate::errors::ErrorKind::BadSpecification)
                }
            },
            None => match yaml_as_str(element) {
                Some(text) => {
                    if text == String::from_str("...") {
                        Ok(Matcher::Rest)
                    } else {
                        Ok(Matcher::Symbol(text))
                    }
                },
                None => Err(crate::errors::ErrorKind::BadSpecification),
            },
        }
    }

    /// Reads the `commands` mapping: each entry names a known command other
    /// than `NOOP` and carries a `format` sequence.
    fn convert_yaml_matchers(spec: &yaml_rust::Yaml) -> (r: Result<
        Vec<(Command, Vec<Matcher>)>,
        crate::errors::ErrorKind,
    >)
        ensures
            match r {
                Ok(ms) => (yaml_node_model(*spec) matches DocNode::Mapping { entries }
                    && matchers_doc_model(entries) == Ok::<
                    Seq<(Command, Seq<MatcherModel>)>,
                    crate::errors::ErrorKind,
                >(pairs_model(ms@))) && forall|j: int|
                    0 <= j < ms@.len() ==> (#[trigger] ms@[j]).0 != Command::NOOP,
                Err(k) => k == crate::errors::ErrorKind::BadSpecification && (yaml_node_model(
                    *spec,
                ) matches DocNode::Mapping { entries } ==> matchers_doc_model(entries) == Err::<
                    Seq<(Command, Seq<MatcherModel>)>,
                    crate::errors::ErrorKind,
                >(k)),
            },
    {
        let commands = match yaml_hash_entries(spec) {
            Some(entries) => entries,
            None => {
                return Err(crate::errors::ErrorKind::BadSpecification);
            },
        };
        let ghost em = entries_model(commands@);
        let mut result: Vec<(Command, Vec<Matcher>)> = Vec::new();
        let mut ci: usize = 0;
        proof {
            assert(em.take(0) =~= Seq::<(DocNode, DocNode)>::empty());
            assert(pairs_model(result@) =~= Seq::<(Command, Seq<MatcherModel>)>::empty());
        }
        while ci < commands.len()
            invariant
                ci <= commands@.len(),
                em == entries_model(commands@),
                yaml_node_model(*spec) == (DocNode::Mapping { entries: em }),
                matchers_doc_model(em.take(ci as int)) == Ok::<
                    Seq<(Command, Seq<MatcherModel>)>,
                    crate::errors::ErrorKind,
                >(pairs_model(result@)),
                forall|j: int|
                    0 <= j < result@.len() ==> (#[trigger] result@[j]).0 != Command::NOOP,
            decreases commands@.len() - ci,
        {
            proof {
                assert(em[ci as int] == (
                    yaml_node_model(commands@[ci as int].0),
                    yaml_node_model(commands@[ci as int].1),
                ));
            }
            let name = match yaml_as_str(&commands[ci].0) {
                Some(n) => n,
                None => {
                    proof {
                        lemma_matchers_doc_err(
                            em,
                            ci as int,
                            crate::errors::ErrorKind::BadSpecification,
                        );
                    }
                    return Err(crate::errors::ErrorKind::BadSpecification);
                },
            };
            let command = Command::from_string(name.as_str());
            if matches!(command, Command::NOOP) {
                proof {
                    lemma_matchers_doc_err(
                        em,
                        ci as int,
                        crate::errors::ErrorKind::BadSpecification,
                    );
                }
                return Err(crate::errors::ErrorKind::BadSpecification);
            }
            let matcher_entries = match yaml_hash_entries(&commands[ci].1) {
                Some(entries) => entries,
                None => {
                    proof {
                        lemma_matchers_doc_err(
                            em,
                            ci as int,
                            crate::errors::ErrorKind::BadSpecification,
                        );
                    }
                    return Err(crate::errors::ErrorKind::BadSpecification);
                },
            };
            let ghost mem = entries_model(matcher_entries@);
            // The matching pattern lives under the `format` key.
            let mut format_value: Option<&yaml_rust::Yaml> = None;
            let mut fi: usize = 0;
            proof {
                assert(mem.take(0) =~= Seq::<(DocNode, DocNode)>::empty());
            }
            while fi < matcher_entries.len()
                invariant
                    fi <= matcher_entries@.len(),
                    ci < commands@.len(),
                    em == entries_model(commands@),
                    yaml_node_model(*spec) == (DocNode::Mapping { entries: em }),
                    matchers_doc_model(em.take(ci as int)) == Ok::<
                        Seq<(Command, Seq<MatcherModel>)>,
                        crate::errors::ErrorKind,
                    >(pairs_model(result@)),
                    forall|j: int|
                        0 <= j < result@.len() ==> (#[trigger] result@[j]).0 != Command::NOOP,
                    em[ci as int].0 == (DocNode::Text { text: name@ }),
                    command == crate::line::command_of(name@),
                    !(command is NOOP),
                    em[ci as int].1 == (DocNode::Mapping { entries: mem }),
                    mem == entries_model(matcher_entries@),
                    (match format_value {
                        Some(y) => Some(yaml_node_model(*y)),
                        None => None::<DocNode>,
                    }) == map_lookup_format(mem.take(fi as int)),
                decreases matcher_entries@.len() - fi,
            {
                proof {
                    assert(mem[fi as int] == (
                        yaml_node_model(matcher_entries@[fi as int].0),
                        yaml_node_model(matcher_entries@[fi as int].1),
                    ));
                    assert(mem.take(fi + 1).drop_last() =~= mem.take(fi as int));
                    assert(mem.take(fi + 1).last() == mem[fi as int]);
                }
                let is_format = match yaml_as_str(&matcher_entries[fi].0) {
                    Some(key) => key == String::from_str("format"),
                    None => false,
                };
                if is_format {
                    format_value = Some(&matcher_entries[fi].1);
                }
                fi = fi + 1;
            }
            proof {
                assert(mem.take(matcher_entries@.len() as int) =~= mem);
            }
            let format_items = match format_value {
                Some(v) => match yaml_as_vec(v) {
                    Some(items) => items,
                    None => {
                        proof {
                            lemma_matchers_doc_err(
                                em,
                                ci as int,
                                crate::errors::ErrorKind::BadSpecification,
                            );
                        }
                        return Err(crate::errors::ErrorKind::BadSpecification);
                    },
                },
                None => {
                    proof {
                        lemma_matchers_doc_err(
                            em,
                            ci as int,
                            crate::errors::ErrorKind::BadSpecification,
                        );
                    }
                    return Err(crate::errors::ErrorKind::BadSpecification);
                },
            };
            let ghost im = nodes_model(format_items@);
            let mut matchers: Vec<Matcher> = Vec::new();
            let mut ei: usize = 0;
            proof {
                assert(im.take(0) =~= Seq::<DocNode>::empty());
                assert(matchers_model(matchers@) =~= Seq::<MatcherModel>::empty());
            }
            while ei < format_items.len()
                invariant
                    ei <= format_items@.len(),
                    ci < commands@.len(),
                    em == entries_model(commands@),
                    yaml_node_model(*spec) == (DocNode::Mapping { entries: em }),
                    matchers_doc_model(em.take(ci as int)) == Ok::<
                        Seq<(Command, Seq<MatcherModel>)>,
                        crate::errors::ErrorKind,
                    >(pairs_model(result@)),
                    forall|j: int|
                        0 <= j < result@.len() ==> (#[trigger] result@[j]).0 != Command::NOOP,
                    em[ci as int].0 == (DocNode::Text { text: name@ }),
                    command == crate::line::command_of(name@),
                    !(command is NOOP),
                    em[ci as int].1 == (DocNode::Mapping { entries: mem }),
                    mem == entries_model(matcher_entries@),
                    map_lookup_format(mem) == Some(DocNode::List { items: im }),
                    im == nodes_model(format_items@),
                    format_list_model(im.take(ei as int)) == Ok::<
                        Seq<MatcherModel>,
                        crate::errors::ErrorKind,
                    >(matchers_model(matchers@)),
                decreases format_items@.len() - ei,
            {
                proof {
                    assert(im[ei as int] == yaml_node_model(format_items@[ei as int]));
                    assert(im.take(ei + 1).drop_last() =~= im.take(ei as int));
                    assert(im.take(ei + 1).last() == im[ei as int]);
                }
                match Self::convert_format_element(&format_items[ei]) {
                    Ok(m) => {
                        let ghost prior = matchers@;
                        matchers.push(m);
                        proof {
                            assert(matchers@.drop_last() =~= prior);
                        }
                    },
                    Err(k) => {
                        proof {
                            lemma_format_list_err(im, ei as int, k);
                            lemma_matchers_doc_err(em, ci as int, k);
                        }
                        return Err(k);
                    },
                }
                ei = ei + 1;
            }
            proof {
                assert(im.take(format_items@.len() as int) =~= im);
                assert(matcher_entry_model(em[ci as int].0, em[ci as int].1) == Ok::<
                    (Command, Seq<MatcherModel>),
                    crate::errors::ErrorKind,
                >((command, matchers_model(matchers@))));
                assert(em.take(ci + 1).drop_last() =~= em.take(ci as int));
                assert(em.take(ci + 1).last() == em[ci as int]);
            }
            let ghost prior = result@;
            result.push((command, matchers));
            proof {
                assert(result@.drop_last() =~= prior);
                assert(forall|j: int|
                    0 <= j < prior.len() ==> (#[trigger] result@[j]) == prior[j]);
            }
            ci = ci + 1;
        }
        proof {
            assert(em.take(commands@.len() as int) =~= em);
        }
        Ok(result)
    }

    /// Builds a specification from configuration text: the recognized keys
    /// are `name`, `version` and `commands`; unknown keys are skipped; a
    /// document without commands is refused.
    pub fn from_text(source_name: &str, text: &str) -> (r: Result<
        LexingSpecificationV0,
        crate::errors::ErrorKind,
    >)
        ensures
            match r {
                Ok(spec) => spec.version == 0 && spec_doc_model(source_name@, text@) == Ok::<
                    (Seq<char>, Seq<(Command, Seq<MatcherModel>)>),
                    crate::errors::ErrorKind,
                >((spec.name@, spec.model())) && forall|j: int|
                    0 <= j < spec.matchings@.len() ==> (#[trigger] spec.matchings@[j]).0
                        != Command::NOOP,
                Err(k) => k == crate::errors::ErrorKind::BadSpecification && spec_doc_model(
                    source_name@,
                    text@,
                ) == Err::<
                    (Seq<char>, Seq<(Command, Seq<MatcherModel>)>),
                    crate::errors::ErrorKind,
                >(k),
            },
    {
        let documents = match load_yaml_documents(text) {
            Ok(docs) => docs,
            Err(()) => {
                return Err(crate::errors::ErrorKind::BadSpecification);
            },
        };
        let ghost docs = nodes_model(documents@);
        if documents.len() == 0 {
            return Err(crate::errors::ErrorKind::BadSpecification);
        }
        let ghost dinit = DocRead { name: None, matchings: None };
        let ghost mut dread: DocRead = dinit;
        let mut found_name: Option<String> = None;
        let mut found_matchings: Option<Vec<(Command, Vec<Matcher>)>> = None;
        let mut di: usize = 0;
        proof {
            assert(docs.take(0) =~= Seq::<DocNode>::empty());
        }
        while di < documents.len()
            invariant
                di <= documents@.len(),
                documents@.len() > 0,
                docs == nodes_model(documents@),
                yaml_doc_of(text@) == Some(docs),
                docs_fold(dinit, docs.take(di as int)) == Ok::<
                    DocRead,
                    crate::errors::ErrorKind,
                >(dread),
                dinit == (DocRead { name: None, matchings: None }),
                dread.name == (match found_name {
                    Some(n) => Some(n@),
                    None => None::<Seq<char>>,
                }),
                dread.matchings == (match found_matchings {
                    Some(ms) => Some(pairs_model(ms@)),
                    None => None::<Seq<(Command, Seq<MatcherModel>)>>,
                }),
                match found_matchings {
                    Some(ms) => forall|j: int|
                        0 <= j < ms@.len() ==> (#[trigger] ms@[j]).0 != Command::NOOP,
                    None => true,
                },
            decreases documents@.len() - di,
        {
            proof {
                assert(docs[di as int] == yaml_node_model(documents@[di as int]));
            }
            let ghost dstart = dread;
            let entries = match yaml_hash_entries(&documents[di]) {
                Some(entries) => entries,
                None => {
                    proof {
                        lemma_docs_fold_err(
                            dinit,
                            dstart,
                            docs,
                            di as int,
                            crate::errors::ErrorKind::BadSpecification,
                        );
                    }
                    return Err(crate::errors::ErrorKind::BadSpecification);
                },
            };
            let ghost dem = entries_model(entries@);
            let mut ki: usize = 0;
            proof {
                assert(dem.take(0) =~= Seq::<(DocNode, DocNode)>::empty());
            }
            while ki < entries.len()
                invariant
                    ki <= entries@.len(),
                    di < documents@.len(),
                    documents@.len() > 0,
                    docs == nodes_model(documents@),
                    yaml_doc_of(text@) == Some(docs),
                    dinit == (DocRead { name: None, matchings: None }),
                    docs_fold(dinit, docs.take(di as int)) == Ok::<
                        DocRead,
                        crate::errors::ErrorKind,
                    >(dstart),
                    docs[di as int] == (DocNode::Mapping { entries: dem }),
                    dem == entries_model(entries@),
                    doc_entries_fold(dstart, dem.take(ki as int)) == Ok::<
                        DocRead,
                        crate::errors::ErrorKind,
                    >(dread),
                    dread.name == (match found_name {
                        Some(n) => Some(n@),
                        None => None::<Seq<char>>,
                    }),
                    dread.matchings == (match found_matchings {
                        Some(ms) => Some(pairs_model(ms@)),
                        None => None::<Seq<(Command, Seq<MatcherModel>)>>,
                    }),
                    match found_matchings {
                        Some(ms) => forall|j: int|
                            0 <= j < ms@.len() ==> (#[trigger] ms@[j]).0 != Command::NOOP,
                        None => true,
                    },
                decreases entries@.len() - ki,
            {
                proof {
                    assert(dem[ki as int] == (
                        yaml_node_model(entries@[ki as int].0),
                        yaml_node_model(entries@[ki as int].1),
                    ));
                    assert(dem.take(ki + 1).drop_last() =~= dem.take(ki as int));
                    assert(dem.take(ki + 1).last() == dem[ki as int]);
                }
                match yaml_as_str(&entries[ki].0) {
                    Some(key) => {
                        if key == String::from_str("name") {
                            match yaml_as_str(&entries[ki].1) {
                                Some(n) => {
                                    found_name = Some(n);
                                    proof {
                                        dread = DocRead {
                                            name: (match found_name {
                                                Some(ref n2) => Some(n2@),
                                                None => None::<Seq<char>>,
                                            }),
                                            matchings: dread.matchings,
                                        };
                                    }
                                },
                                None => {
                                    proof {
                                        lemma_doc_entries_err(
                                            dstart,
                                            dread,
                                            dem,
                                            ki as int,
                                            crate::errors::ErrorKind::BadSpecification,
                                        );
                                        lemma_docs_fold_err(
                                            dinit,
                                            dstart,
                                            docs,
                                            di as int,
                                            crate::errors::ErrorKind::BadSpecification,
                                        );
                                    }
                                    return Err(crate::errors::ErrorKind::BadSpecification);
                                },
                            }
                        } else if key == String::from_str("commands") {
                            match Self::convert_yaml_matchers(&entries[ki].1) {
                                Ok(ms) => {
                                    let ghost msm = pairs_model(ms@);
                                    found_matchings = Some(ms);
                                    proof {
                                        dread = DocRead {
                                            name: dread.name,
                                            matchings: Some(msm),
                                        };
                                    }
                                },
                                Err(k) => {
                                    proof {
                                        assert(doc_entry_model(
                                            dread,
                                            dem[ki as int].0,
                                            dem[ki as int].1,
                                        ) == Err::<DocRead, crate::errors::ErrorKind>(k));
                                        lemma_doc_entries_err(dstart, dread, dem, ki as int, k);
                                        lemma_docs_fold_err(dinit, dstart, docs, di as int, k);
                                    }
                                    return Err(k);
                                },
                            }
                        } else {
                            // `version` and unknown keys are skipped.
                        }
                    },
                    None => {
                        // Non-string keys are skipped.
                    },
                }
                ki = ki + 1;
            }
            proof {
                assert(dem.take(entries@.len() as int) =~= dem);
                assert(docs.take(di + 1).drop_last() =~= docs.take(di as int));
                assert(docs.take(di + 1).last() == docs[di as int]);
            }
            di = di + 1;
        }
        proof {
            assert(docs.take(documents@.len() as int) =~= docs);
        }
        let matchings = match found_matchings {
            Some(ms) => ms,
            None => {
                return Err(crate::errors::ErrorKind::BadSpecification);
            },
        };
        let name = match found_name {
            Some(n) => n,
            None => source_name.to_owned(),
        };
        Ok(LexingSpecificationV0 { name, version: 0, matchings })
    }
}

/// A pattern of one rest marker: it matches any argument list verbatim.
fn rest_pattern() -> (r: Vec<Matcher>)
    ensures
        matchers_model(r@) == seq![MatcherModel::Rest],
{
    let mut v: Vec<Matcher> = Vec::new();
    v.push(Matcher::Rest);
    proof {
        assert(matchers_model(v@) =~= seq![MatcherModel::Rest]) by {
            lemma_matchers_model_len(v@);
            lemma_matchers_model_index(v@, 0);
            assert(v@[0] == Matcher::Rest);
        }
    }
    v
}

/// The built-in default matchings: every command, in repertoire order, with
/// the verbatim pattern.
pub open spec fn built_in_model() -> Seq<(Command, Seq<MatcherModel>)> {
    seq![
        (Command::LABEL, seq![MatcherModel::Rest]),
        (Command::FUNCTION, seq![MatcherModel::Rest]),
        (Command::CALL, seq![MatcherModel::Rest]),
        (Command::RETURN, seq![MatcherModel::Rest]),
        (Command::GOTO, seq![MatcherModel::Rest]),
        (Command::IF, seq![MatcherModel::Rest]),
        (Command::FOR, seq![MatcherModel::Rest]),
        (Command::CONTINUE, seq![MatcherModel::Rest]),
        (Command::SUM, seq![MatcherModel::Rest]),
        (Command::SAY, seq![MatcherModel::Rest]),
        (Command::ASK, seq![MatcherModel::Rest]),
        (Command::SET, seq![MatcherModel::Rest]),
        (Command::TABLE, seq![MatcherModel::Rest]),
        (Command::GET, seq![MatcherModel::Rest]),
        (Command::PUT, seq![MatcherModel::Rest]),
        (Command::SLICE, seq![MatcherModel::Rest]),
        (Command::NOOP, seq![MatcherModel::Rest]),
    ]
}

impl LexingSpecificationV0 {
    /// The built-in default specification: every command keeps its arguments
    /// verbatim.
    pub fn built_in() -> (r: LexingSpecificationV0)
        ensures
            r.model() == built_in_model(),
    {
        let mut matchings: Vec<(Command, Vec<Matcher>)> = Vec::new();
        matchings.push((Command::LABEL, rest_pattern()));
        matchings.push((Command::FUNCTION, rest_pattern()));
        matchings.push((Command::CALL, rest_pattern()));
        matchings.push((Command::RETURN, rest_pattern()));
        matchings.push((Command::GOTO, rest_pattern()));
        matchings.push((Command::IF, rest_pattern()));
        matchings.push((Command::FOR, rest_pattern()));
        matchings.push((Command::CONTINUE, rest_pattern()));
        matchings.push((Command::SUM, rest_pattern()));
        matchings.push((Command::SAY, rest_pattern()));
        matchings.push((Command::ASK, rest_pattern()));
        matchings.push((Command::SET, rest_pattern()));
        matchings.push((Command::TABLE, rest_pattern()));
        matchings.push((Command::GET, rest_pattern()));
        matchings.push((Command::PUT, rest_pattern()));
        matchings.push((Command::SLICE, rest_pattern()));
        matchings.push((Command::NOOP, rest_pattern()));
        proof {
            assert(pairs_model(matchings@) =~= built_in_model()) by {
                lemma_pairs_model_len(matchings@);
                assert forall|j: int| 0 <= j < matchings@.len() implies pairs_model(
                    matchings@,
                )[j] == built_in_model()[j] by {
                    lemma_pairs_model_index(matchings@, j);
                }
            }
        }
        LexingSpecificationV0 {
            name: String::from_str("built-in"),
            version: 0,
            matchings,
        }
    }
}

/// When a pattern list is already sorted by position, sorting keeps it.
proof fn lemma_sort_pos_id(s: Seq<(int, ItemModel)>)
    requires
        pos_sorted(s),
    ensures
        sort_pos(s) == s,
    decreases s.len(),
{
    if s.len() > 0 {
        assert(pos_sorted(s.drop_last())) by {
            assert(forall|a: int, b: int|
                0 <= a < b < s.len() - 1 ==> (#[trigger] s.drop_last()[a]) == s[a]
                    && (#[trigger] s.drop_last()[b]) == s[b]);
        }
        lemma_sort_pos_id(s.drop_last());
        if s.len() == 1 {
            assert(insert_pos(sort_pos(s.drop_last()), s.last()) =~= s);
        } else {
            assert(s.drop_last().last().0 <= s.last().0) by {
                assert(s[s.len() - 2].0 <= s[s.len() - 1].0);
            }
            assert(insert_pos(s.drop_last(), s.last()) =~= s);
        }
    }
}

/// Against the built-in matchings, canonicalization is the identity: the
/// head command stays and the arguments follow in their original order.
pub proof fn lemma_built_in_identity(head: Command, items: Seq<ItemModel>)
    ensures
        v0_lex_spec(built_in_model(), head, items) matches Some(c) && c.0 == head
            && canonical_items(c.0, c.1) == seq![ItemModel::Cmd { op: head }].add(items),
{
    lemma_all_rest_lex(built_in_model(), head, items);
    assert(exists|j: int|
        0 <= j < built_in_model().len() && (#[trigger] built_in_model()[j]).0 == head) by {
        match head {
            Command::LABEL => {
                assert(built_in_model()[0].0 == head);
            },
            Command::FUNCTION => {
                assert(built_in_model()[1].0 == head);
            },
            Command::CALL => {
                assert(built_in_model()[2].0 == head);
            },
            Command::RETURN => {
                assert(built_in_model()[3].0 == head);
            },
            Command::GOTO => {
                assert(built_in_model()[4].0 == head);
            },
            Command::IF => {
                assert(built_in_model()[5].0 == head);
            },
            Command::FOR => {
                assert(built_in_model()[6].0 == head);
            },
            Command::CONTINUE => {
                assert(built_in_model()[7].0 == head);
            },
            Command::SUM => {
                assert(built_in_model()[8].0 == head);
            },
            Command::SAY => {
                assert(built_in_model()[9].0 == head);
            },
            Command::ASK => {
                assert(built_in_model()[10].0 == head);
            },
            Command::SET => {
                assert(built_in_model()[11].0 == head);
            },
            Command::TABLE => {
                assert(built_in_model()[12].0 == head);
            },
            Command::GET => {
                assert(built_in_model()[13].0 == head);
            },
            Command::PUT => {
                assert(built_in_model()[14].0 == head);
            },
            Command::SLICE => {
                assert(built_in_model()[15].0 == head);
            },
            Command::NOOP => {
                assert(built_in_model()[16].0 == head);
            },
        }
    }
    let enumeration = Seq::new(items.len(), |i: int| (1 + i, items[i]));
    assert(pos_sorted(enumeration));
    lemma_sort_pos_id(enumeration);
    assert(sort_pos(enumeration).map(|i: int, p: (int, ItemModel)| p.1) =~= items);
}

/// Against matchings whose every pattern is the rest marker, the first entry
/// with the line's head command wins and captures the arguments verbatim.
proof fn lemma_all_rest_lex(
    ms: Seq<(Command, Seq<MatcherModel>)>,
    head: Command,
    items: Seq<ItemModel>,
)
    requires
        forall|j: int| 0 <= j < ms.len() ==> (#[trigger] ms[j]).1 == seq![MatcherModel::Rest],
    ensures
        (exists|j: int| 0 <= j < ms.len() && (#[trigger] ms[j]).0 == head) ==> v0_lex_spec(
            ms,
            head,
            items,
        ) == Some((head, Seq::new(items.len(), |i: int| (1 + i, items[i])))),
    decreases ms.len(),
{
    if ms.len() > 0 {
        if ms[0].0 == head {
            let pat = ms[0].1;
            assert(pat == seq![MatcherModel::Rest]);
            assert(pat.len() == 1);
            if items.len() == 0 {
                assert(match_spec(items, pat, 0) == Some(Seq::<(int, ItemModel)>::empty()));
                assert(Seq::new(items.len(), |i: int| (1 + i, items[i])) =~= Seq::<
                    (int, ItemModel),
                >::empty());
            } else {
                assert(pat[0] is Rest);
                assert(match_spec(items, pat, 0) == Some(
                    Seq::new(items.len(), |i: int| (0 + 1 + i, items[i])),
                ));
                assert(Seq::new(items.len(), |i: int| (0 + 1 + i, items[i])) =~= Seq::new(
                    items.len(),
                    |i: int| (1 + i, items[i]),
                ));
            }
        } else {
            assert(forall|j: int|
                0 <= j < ms.skip(1).len() ==> (#[trigger] ms.skip(1)[j]).1 == seq![
                    MatcherModel::Rest,
                ]) by {
                assert(forall|j: int|
                    0 <= j < ms.len() - 1 ==> (#[trigger] ms.skip(1)[j]) == ms[j + 1]);
            }
            lemma_all_rest_lex(ms.skip(1), head, items);
            if exists|j: int| 0 <= j < ms.len() && (#[trigger] ms[j]).0 == head {
                let j = choose|j: int| 0 <= j < ms.len() && (#[trigger] ms[j]).0 == head;
                assert(j >= 1);
                assert(ms.skip(1)[j - 1] == ms[j]);
            }
        }
    }
}

} // verus!
