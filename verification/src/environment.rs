use vstd::prelude::*;

use crate::value::Value;

verus! {

/// A jump target: a source file name together with a 0-based index into the
/// canonicalized line sequence.
pub struct Label {
    pub file: String,
    pub line_number: usize,
}

/// One activation record: where to return to (absent on the root frame) and
/// the frame's variable bindings, keyed by name.
pub struct Environment {
    pub return_address: Option<Label>,
    pub variables: Vec<(String, Value)>,
}

/// The mathematical reading of a binding list: a map from names to values,
/// later entries winning.
pub open spec fn assoc_map<V>(s: Seq<(String, V)>) -> Map<Seq<char>, V>
    decreases s.len(),
{
    if s.len() == 0 {
        Map::empty()
    } else {
        assoc_map(s.drop_last()).insert(s.last().0@, s.last().1)
    }
}

/// No two entries share a name.
pub open spec fn distinct_keys<V>(s: Seq<(String, V)>) -> bool {
    forall|i: int, j: int| 0 <= i < j < s.len() ==> (#[trigger] s[i]).0@ != (#[trigger] s[j]).0@
}

pub proof fn lemma_assoc_map_contains<V>(s: Seq<(String, V)>, name: Seq<char>)
    ensures
        assoc_map(s).contains_key(name) <==> exists|i: int|
            0 <= i < s.len() && (#[trigger] s[i]).0@ == name,
    decreases s.len(),
{
    if s.len() > 0 {
        lemma_assoc_map_contains(s.drop_last(), name);
        if s.last().0@ == name {
            assert(s[s.len() - 1].0@ == name);
        } else {
            if exists|i: int| 0 <= i < s.len() && (#[trigger] s[i]).0@ == name {
                let i = choose|i: int| 0 <= i < s.len() && (#[trigger] s[i]).0@ == name;
                assert(s.drop_last()[i] == s[i]);
            }
            if exists|i: int| 0 <= i < s.len() - 1 && (#[trigger] s.drop_last()[i]).0@ == name {
                let i = choose|i: int|
                    0 <= i < s.len() - 1 && (#[trigger] s.drop_last()[i]).0@ == name;
                assert(s[i] == s.drop_last()[i]);
            }
        }
    }
}

pub proof fn lemma_assoc_map_get<V>(s: Seq<(String, V)>, i: int)
    requires
        distinct_keys(s),
        0 <= i < s.len(),
    ensures
        assoc_map(s).contains_key(s[i].0@),
        assoc_map(s)[s[i].0@] == s[i].1,
    decreases s.len(),
{
    if i == s.len() - 1 {
        assert(s.last() == s[i]);
    } else {
        assert(distinct_keys(s.drop_last())) by {
            assert(forall|a: int, b: int|
                0 <= a < b < s.len() - 1 ==> (#[trigger] s.drop_last()[a]) == s[a]
                    && (#[trigger] s.drop_last()[b]) == s[b]);
        }
        assert(s.drop_last()[i] == s[i]);
        lemma_assoc_map_get(s.drop_last(), i);
        assert(s[i].0@ != s.last().0@);
    }
}

pub proof fn lemma_assoc_map_update<V>(s: Seq<(String, V)>, i: int, entry: (String, V))
    requires
        distinct_keys(s),
        0 <= i < s.len(),
        entry.0@ == s[i].0@,
    ensures
        assoc_map(s.update(i, entry)) =~= assoc_map(s).insert(entry.0@, entry.1),
        distinct_keys(s.update(i, entry)),
    decreases s.len(),
{
    let t = s.update(i, entry);
    assert(distinct_keys(t)) by {
        assert(forall|a: int|
            0 <= a < s.len() ==> (#[trigger] t[a]).0@ == s[a].0@);
    }
    if i == s.len() - 1 {
        assert(t.drop_last() =~= s.drop_last());
        assert(t.last() == entry);
    } else {
        assert(distinct_keys(s.drop_last())) by {
            assert(forall|a: int, b: int|
                0 <= a < b < s.len() - 1 ==> (#[trigger] s.drop_last()[a]) == s[a]
                    && (#[trigger] s.drop_last()[b]) == s[b]);
        }
        assert(t.drop_last() =~= s.drop_last().update(i, entry));
        assert(s.drop_last()[i] == s[i]);
        lemma_assoc_map_update(s.drop_last(), i, entry);
        assert(t.last() == s.last());
        assert(s.last().0@ != entry.0@);
    }
}

/// Looks a name up in a binding list.
pub fn assoc_get<'a, V>(vars: &'a Vec<(String, V)>, name: &String) -> (r: Option<&'a V>)
    requires
        distinct_keys(vars@),
    ensures
        match r {
            Some(v) => assoc_map(vars@).contains_key(name@) && assoc_map(vars@)[name@] == *v,
            None => !assoc_map(vars@).contains_key(name@),
        },
{
    proof {
        lemma_assoc_map_contains(vars@, name@);
    }
    let n = vars.len();
    let mut i: usize = 0;
    while i < n
        invariant
            i <= n,
            n == vars@.len(),
            distinct_keys(vars@),
            forall|j: int| 0 <= j < i ==> (#[trigger] vars@[j]).0@ != name@,
        decreases n - i,
    {
        if vars[i].0 == *name {
            proof {
                lemma_assoc_map_get(vars@, i as int);
            }
            return Some(&vars[i].1);
        }
        i = i + 1;
    }
    proof {
        lemma_assoc_map_contains(vars@, name@);
    }
    None
}

/// Binds a name in a binding list, overwriting an existing entry.
pub fn assoc_set<V>(vars: &mut Vec<(String, V)>, name: &String, value: V)
    requires
        distinct_keys(old(vars)@),
    ensures
        distinct_keys(final(vars)@),
        assoc_map(final(vars)@) =~= assoc_map(old(vars)@).insert(name@, value),
        forall|j: int|
            0 <= j < final(vars)@.len() ==> (#[trigger] final(vars)@[j]).1 == value || exists|k: int|
                0 <= k < old(vars)@.len() && old(vars)@[k].1 == final(vars)@[j].1,
{
    let n = vars.len();
    let mut i: usize = 0;
    while i < n
        invariant
            i <= n,
            n == vars@.len(),
            vars@ == old(vars)@,
            distinct_keys(vars@),
            forall|j: int| 0 <= j < i ==> (#[trigger] vars@[j]).0@ != name@,
        decreases n - i,
    {
        if vars[i].0 == *name {
            let entry = (name.clone(), value);
            proof {
                lemma_assoc_map_update(vars@, i as int, entry);
            }
            vars[i] = entry;
            return ;
        }
        i = i + 1;
    }
    let ghost prior = vars@;
    vars.push((name.clone(), value));
    proof {
        assert(vars@.drop_last() =~= prior);
        assert(distinct_keys(vars@)) by {
            assert(forall|j: int| 0 <= j < prior.len() ==> (#[trigger] vars@[j]) == prior[j]);
        }
    }
}

impl Environment {
    /// The frame invariant: binding names are distinct and every bound value
    /// is well formed.
    pub open spec fn wf(self) -> bool {
        &&& distinct_keys(self.variables@)
        &&& forall|i: int|
            0 <= i < self.variables@.len() ==> (#[trigger] self.variables@[i]).1.wf()
    }

    /// The frame's bindings as a map from names to values.
    pub open spec fn bindings(self) -> Map<Seq<char>, Value> {
        assoc_map(self.variables@)
    }

    pub fn that_returns_to(ret: Option<Label>) -> (r: Environment)
        ensures
            r.return_address == ret,
            r.bindings() =~= Map::<Seq<char>, Value>::empty(),
            r.variables@.len() == 0,
            r.wf(),
    {
        Environment { return_address: ret, variables: Vec::new() }
    }
}

} // verus!
