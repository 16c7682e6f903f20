//! Values by name: lists of names with their values, in which each name stands once, in ascending
//! order.

use vstd::prelude::*;

use crate::registers;
use crate::text;
use crate::text::{same_text, text_before};

verus! {

/// The names of a list of pairs.
pub open spec fn names<V>(pairs: Seq<(String, V)>) -> Seq<Seq<char>> {
    pairs.map_values(|p: (String, V)| p.0@)
}

/// Whether the names of a list of pairs ascend, so that each stands once.
pub open spec fn in_order<V>(pairs: Seq<(String, V)>) -> bool {
    text::strictly_ordered(names(pairs))
}

/// The entries that a list of pairs makes in a register.
pub open spec fn entries<V>(pairs: Seq<(String, V)>) -> Seq<(Seq<char>, V)> {
    pairs.map_values(|p: (String, V)| (p.0@, p.1))
}

/// The last value that a list of pairs gives a name.
pub open spec fn value_of<V>(pairs: Seq<(String, V)>, name: Seq<char>) -> Option<V> {
    registers::last_value(entries(pairs), name)
}

/// Values by name.
#[derive(Debug)]
pub struct Named<V> {
    pairs: Vec<(String, V)>,
}

impl<V> View for Named<V> {
    type V = Seq<(String, V)>;

    /// The names with their values.
    closed spec fn view(&self) -> Seq<(String, V)> {
        self.pairs@
    }
}

impl<V> Named<V> {
    #[verifier::type_invariant]
    spec fn inv(self) -> bool {
        in_order(self@)
    }

    /// No names.
    pub fn new() -> (r: Named<V>)
        ensures
            r@ == Seq::<(String, V)>::empty(),
    {
        Named { pairs: Vec::new() }
    }

    /// The values of a list of pairs by name: the last one of a name counts.
    pub fn from_pairs(pairs: Vec<(String, V)>) -> (r: Named<V>)
        ensures
            in_order(r@),
            forall|name: Seq<char>| #[trigger] value_of(r@, name) == value_of(pairs@, name),
    {
        let ghost all = pairs@;
        let n: usize = pairs.len();
        let mut rest: Vec<(String, V)> = pairs;
        let mut out: Vec<(String, V)> = Vec::new();
        let mut i: usize = 0;
        proof {
            assert(all.skip(0) =~= all);
            assert(entries(all.take(0)) =~= entries(out@));
        }
        while i < n
            invariant
                n == all.len(),
                i <= n,
                rest@ == all.skip(i as int),
                in_order(out@),
                forall|name: Seq<char>| #[trigger]
                    value_of(out@, name) == value_of(all.take(i as int), name),
            decreases n - i,
        {
            let (name, value): (String, V) = rest.remove(0);
            proof {
                assert(all[i as int] == (name, value));
                assert(rest@ =~= all.skip(i + 1));
                let next = entries(all.take(i + 1));
                assert(next.drop_last() =~= entries(all.take(i as int)));
                assert(next.last() == (name@, value));
            }
            put(&mut out, name, value);
            i = i + 1;
        }
        proof {
            assert(all.take(i as int) =~= all);
        }
        Named { pairs: out }
    }

    /// The value of a name.
    pub fn get(&self, name: &str) -> (r: Option<&V>)
        ensures
            match r {
                Some(v) => value_of(self@, name@) == Some(*v),
                None => value_of(self@, name@) is None,
            },
    {
        proof {
            use_type_invariant(self);
        }
        let mut i: usize = 0;
        while i < self.pairs.len()
            invariant
                in_order(self@),
                i <= self@.len(),
                forall|k: int| 0 <= k < i ==> (#[trigger] self@[k]).0@ != name@,
            decreases self@.len() - i,
        {
            if same_text(self.pairs[i].0.as_str(), name) {
                proof {
                    lemma_value_beside(self@, i as int);
                }
                return Some(&self.pairs[i].1);
            }
            i = i + 1;
        }
        proof {
            lemma_no_value(self@, name@);
        }
        None
    }

    /// The names with their values, in order.
    pub fn pairs(&self) -> (r: &Vec<(String, V)>)
        ensures
            r@ == self@,
            in_order(r@),
    {
        proof {
            use_type_invariant(self);
        }
        &self.pairs
    }
}

/// The value of each name of a list in order is the one beside it.
proof fn lemma_value_beside<V>(pairs: Seq<(String, V)>, k: int)
    requires
        in_order(pairs),
        0 <= k < pairs.len(),
    ensures
        value_of(pairs, pairs[k].0@) == Some(pairs[k].1),
    decreases pairs.len(),
{
    let rest = pairs.drop_last();
    assert(entries(pairs).drop_last() =~= entries(rest));
    assert(entries(pairs).last() == (pairs.last().0@, pairs.last().1));
    if k < pairs.len() - 1 {
        let ns = names(pairs);
        assert(text::comes_before(ns[k], ns[pairs.len() - 1]));
        text::lemma_order_is_total(ns[k], ns[k]);
        assert forall|i: int, j: int| 0 <= i < j < names(rest).len() implies text::comes_before(
            #[trigger] names(rest)[i],
            #[trigger] names(rest)[j],
        ) by {
            assert(names(rest)[i] == ns[i] && names(rest)[j] == ns[j]);
        }
        lemma_value_beside(rest, k);
        assert(rest[k] == pairs[k]);
    }
}

/// A name that is not in a list has no value there.
proof fn lemma_no_value<V>(pairs: Seq<(String, V)>, name: Seq<char>)
    requires
        forall|k: int| 0 <= k < pairs.len() ==> (#[trigger] pairs[k]).0@ != name,
    ensures
        value_of(pairs, name) is None,
    decreases pairs.len(),
{
    if pairs.len() > 0 {
        let rest = pairs.drop_last();
        assert(entries(pairs).drop_last() =~= entries(rest));
        assert(entries(pairs).last() == (pairs.last().0@, pairs.last().1));
        assert(pairs[pairs.len() - 1].0@ != name);
        assert forall|k: int| 0 <= k < rest.len() implies (#[trigger] rest[k]).0@ != name by {
            assert(rest[k] == pairs[k]);
        }
        lemma_no_value(rest, name);
    }
}

/// Gives a name its value: in place where the name is there, else where it belongs.
fn put<V>(list: &mut Vec<(String, V)>, name: String, value: V)
    requires
        in_order(old(list)@),
    ensures
        in_order(final(list)@),
        forall|n: Seq<char>| #[trigger]
            value_of(final(list)@, n) == (if n == name@ {
                Some(value)
            } else {
                value_of(old(list)@, n)
            }),
{
    let ghost before = list@;
    let ghost ns = names(before);
    let ghost own = name@;
    let mut at: usize = 0;
    while at < list.len() && text_before(list[at].0.as_str(), name.as_str())
        invariant
            list@ == before,
            ns == names(before),
            name@ == own,
            at <= before.len(),
            forall|k: int| 0 <= k < at ==> text::comes_before(#[trigger] ns[k], own),
        decreases before.len() - at,
    {
        proof {
            assert(ns[at as int] == before[at as int].0@);
        }
        at = at + 1;
    }
    let there: bool = at < list.len() && same_text(list[at].0.as_str(), name.as_str());
    proof {
        if at < before.len() {
            assert(ns[at as int] == before[at as int].0@);
            text::lemma_order_is_total(ns[at as int], own);
        }
        assert forall|k: int| at <= k < before.len() && !(there && k == at) implies
            text::comes_before(own, #[trigger] ns[k]) by {
            if k > at {
                assert(text::comes_before(ns[at as int], ns[k]));
                if !there {
                    text::lemma_order_is_transitive(own, ns[at as int], ns[k]);
                }
            }
        }
    }
    if there {
        list.set(at, (name, value));
    } else {
        list.insert(at, (name, value));
    }
    proof {
        let after = list@;
        let na = names(after);
        let shift: int = if there { 0 } else { 1 };
        assert(after[at as int] == (name, value));
        assert forall|k: int| 0 <= k < after.len() && k != at implies #[trigger] na[k]
            == ns[if k < at { k } else { k - shift }] by {}
        assert(na[at as int] == own);
        assert forall|i: int, j: int| 0 <= i < j < na.len() implies text::comes_before(
            #[trigger] na[i],
            #[trigger] na[j],
        ) by {
            if i != at && j != at {
                let x = if i < at { i } else { i - shift };
                let y = if j < at { j } else { j - shift };
                assert(text::comes_before(ns[x], ns[y]));
            } else if j == at {
                assert(na[i] == ns[i]);
            } else {
                assert(na[j] == ns[j - shift]);
            }
        }
        assert forall|n: Seq<char>| #[trigger] value_of(after, n) == (if n == own {
            Some(value)
        } else {
            value_of(before, n)
        }) by {
            if n == own {
                lemma_value_beside(after, at as int);
            } else if exists|k: int| 0 <= k < before.len() && (#[trigger] before[k]).0@ == n {
                let k = choose|k: int| 0 <= k < before.len() && (#[trigger] before[k]).0@ == n;
                let x = if k < at { k } else { k + shift };
                assert(after[x] == before[k]);
                lemma_value_beside(before, k);
                lemma_value_beside(after, x);
            } else {
                assert forall|k: int| 0 <= k < after.len() implies (#[trigger] after[k]).0@ != n by {
                    if k != at {
                        assert(after[k] == before[if k < at { k } else { k - shift }]);
                    }
                }
                lemma_no_value(before, n);
                lemma_no_value(after, n);
            }
        }
    }
}

/// Of pairs with the same name the last one counts, and a name without a pair has no value.
pub proof fn lemma_last_pair_counts<V>(pairs: Seq<(String, V)>, name: Seq<char>, k: int)
    requires
        0 <= k < pairs.len() ==> pairs[k].0@ == name,
        forall|j: int|
            (k < j || !(0 <= k < pairs.len())) && 0 <= j < pairs.len() ==> (
            #[trigger] pairs[j]).0@ != name,
    ensures
        0 <= k < pairs.len() ==> value_of(pairs, name) == Some(pairs[k].1),
        !(0 <= k < pairs.len()) ==> value_of(pairs, name) is None,
{
    let list = entries(pairs);
    assert forall|j: int|
        (k < j || !(0 <= k < list.len())) && 0 <= j < list.len() implies (#[trigger] list[j]).0
        != name by {
        assert(list[j].0 == pairs[j].0@);
    }
    registers::lemma_last_of_a_key(list, name, k);
}

} // verus!
