//! Deduplicated sets of names.
//!
//! Roles and tools are both opaque names compared by exact string equality.
//! A [`NameSet`] stores them as a strictly sorted vector, so membership alone
//! determines the stored order: equal sets have equal representations, which
//! keeps the persisted role file deterministic.

use crate::order::lemma_lex_lt_asymmetric;
use crate::order::lemma_lex_lt_connected;
use crate::order::lemma_lex_lt_irreflexive;
use crate::order::lemma_lex_lt_transitive;
use crate::order::lex_lt;
use crate::order::str_lt;
use crate::text::trim;
use crate::text::trim_spec;
use vstd::prelude::*;

verus! {

broadcast use vstd::set::group_set_axioms;

/// A deduplicated set of names (roles or tools), held in strictly ascending
/// lexicographic order.
pub struct NameSet {
    items: Vec<String>,
}

/// Ingestion of raw names: each entry is trimmed of surrounding whitespace,
/// empty results are discarded, and the survivors form a set.
pub open spec fn normalized_set(s: Seq<Seq<char>>) -> Set<Seq<char>>
    decreases s.len(),
{
    if s.len() == 0 {
        Set::<Seq<char>>::empty()
    } else {
        let rest = normalized_set(s.drop_last());
        let t = trim_spec(s.last());
        if t.len() > 0 {
            rest.insert(t)
        } else {
            rest
        }
    }
}

/// Strictly ascending under [`lex_lt`]; implies freedom from duplicates.
pub open spec fn strictly_sorted(s: Seq<Seq<char>>) -> bool {
    forall|i: int, j: int| 0 <= i < j < s.len() ==> lex_lt(#[trigger] s[i], #[trigger] s[j])
}

impl NameSet {
    /// The names in stored order.
    pub closed spec fn seq(&self) -> Seq<Seq<char>> {
        self.items.deep_view()
    }

    /// The membership of this set: its abstract value.
    pub open spec fn set(&self) -> Set<Seq<char>> {
        self.seq().to_set()
    }

    /// Well-formed: strictly sorted, and no name is empty.
    pub open spec fn wf(&self) -> bool {
        &&& strictly_sorted(self.seq())
        &&& forall|i: int| 0 <= i < self.seq().len() ==> (#[trigger] self.seq()[i]).len() > 0
    }

    /// The empty set of names.
    pub fn empty() -> (r: NameSet)
        ensures
            r.wf(),
            r.seq() == Seq::<Seq<char>>::empty(),
            r.set() == Set::<Seq<char>>::empty(),
    {
        let r = NameSet { items: Vec::new() };
        proof {
            assert(r.seq() =~= Seq::<Seq<char>>::empty());
            assert(r.set() =~= Set::<Seq<char>>::empty());
        }
        r
    }

    /// The number of names held.
    pub fn len(&self) -> (r: usize)
        ensures
            r == self.seq().len(),
    {
        self.items.len()
    }

    /// Whether no name is held.
    pub fn is_empty(&self) -> (r: bool)
        ensures
            r == (self.seq().len() == 0),
            r == self.set().is_empty(),
    {
        proof {
            if self.seq().len() == 0 {
                assert(self.set() =~= Set::<Seq<char>>::empty());
            } else {
                assert(self.seq().contains(self.seq()[0]));
                assert(self.set().contains(self.seq()[0]));
            }
        }
        self.items.len() == 0
    }

    /// The names in stored order, for iteration and display.
    pub fn as_vec(&self) -> (r: &Vec<String>)
        ensures
            r.deep_view() == self.seq(),
    {
        &self.items
    }

    /// The names in stored order, as an owned vector.
    pub fn to_vec(&self) -> (r: Vec<String>)
        ensures
            r.deep_view() == self.seq(),
    {
        let mut r: Vec<String> = Vec::new();
        let n = self.items.len();
        let mut i: usize = 0;
        proof {
            assert(r.deep_view() =~= self.seq().take(0));
        }
        while i < n
            invariant
                0 <= i <= n,
                r.deep_view() == self.seq().take(i as int),
            decreases n - i,
        {
            let ghost prev = r.deep_view();
            let x = self.items[i].clone();
            r.push(x);
            proof {
                assert(r.deep_view() =~= prev.push(self.seq()[i as int]));
                assert(self.seq().take(i as int).push(self.seq()[i as int]) =~= self.seq().take(
                    i as int + 1,
                ));
            }
            i = i + 1;
        }
        proof {
            assert(self.seq().take(n as int) =~= self.seq());
        }
        r
    }

    /// Whether `x` is one of the names.
    pub fn contains_name(&self, x: &String) -> (r: bool)
        ensures
            r == self.set().contains(x@),
    {
        let n = self.items.len();
        let mut i: usize = 0;
        while i < n
            invariant
                0 <= i <= n,
                n == self.seq().len(),
                forall|j: int| 0 <= j < i ==> #[trigger] self.seq()[j] != x@,
            decreases n - i,
        {
            if self.items[i] == *x {
                proof {
                    assert(self.seq()[i as int] == x@);
                    assert(self.seq().contains(x@));
                }
                return true;
            }
            i = i + 1;
        }
        proof {
            if self.set().contains(x@) {
                let k = choose|k: int| 0 <= k < self.seq().len() && self.seq()[k] == x@;
                assert(self.seq()[k] != x@);
            }
        }
        false
    }

    /// Adds `x`, keeping the stored order; adding a present name is a no-op.
    pub fn insert(&mut self, x: String)
        requires
            old(self).wf(),
            x@.len() > 0,
        ensures
            final(self).wf(),
            final(self).set() == old(self).set().insert(x@),
    {
        let n = self.items.len();
        let mut i: usize = 0;
        while i < n && str_lt(self.items[i].as_str(), x.as_str())
            invariant
                0 <= i <= n,
                forall|j: int| 0 <= j < i ==> lex_lt(#[trigger] self.seq()[j], x@),
            decreases n - i,
        {
            i = i + 1;
        }
        let ghost s0 = self.seq();
        if i < n && self.items[i] == x {
            proof {
                assert(self.seq()[i as int] == x@);
                assert(self.seq().contains(x@));
                assert(old(self).set().insert(x@) =~= old(self).set());
            }
            return ;
        }
        proof {
            if i < n {
                lemma_lex_lt_connected(s0[i as int], x@);
                assert(lex_lt(x@, s0[i as int]));
            }
        }
        self.items.insert(i, x);
        proof {
            old(self).items@.insert_ensures(i as int, x);
            assert(self.seq() =~= s0.insert(i as int, x@)) by {
                s0.insert_ensures(i as int, x@);
                assert forall|k: int| 0 <= k < self.seq().len() implies self.seq()[k] == s0.insert(
                    i as int,
                    x@,
                )[k] by {
                    if k < i {
                        assert(self.items@[k] == old(self).items@[k]);
                    } else if k == i {
                        assert(self.items@[k] == x);
                    } else {
                        assert(self.items@[k] == old(self).items@[k - 1]);
                    }
                }
            }
            let s1 = s0.insert(i as int, x@);
            s0.insert_ensures(i as int, x@);
            assert forall|a: int, b: int| 0 <= a < b < s1.len() implies lex_lt(
                #[trigger] s1[a],
                #[trigger] s1[b],
            ) by {
                if b < i {
                    assert(s1[a] == s0[a] && s1[b] == s0[b]);
                } else if b == i {
                    assert(s1[a] == s0[a]);
                    assert(lex_lt(s0[a], x@));
                } else if a < i {
                    assert(s1[a] == s0[a] && s1[b] == s0[b - 1]);
                    if b - 1 == i {
                        if i < n {
                            lemma_lex_lt_transitive(s0[a], x@, s0[i as int]);
                        }
                        assert(b - 1 == i ==> i < n);
                    } else {
                        assert(lex_lt(s0[a], s0[b - 1]));
                    }
                } else if a == i {
                    assert(s1[a] == x@ && s1[b] == s0[b - 1]);
                    if b - 1 == i {
                        assert(lex_lt(x@, s0[i as int]));
                    } else {
                        lemma_lex_lt_transitive(x@, s0[i as int], s0[b - 1]);
                    }
                } else {
                    assert(s1[a] == s0[a - 1] && s1[b] == s0[b - 1]);
                }
            }
            lemma_seq_insert_to_set(s0, i as int, x@);
        }
    }

    /// The union of two name sets.
    pub fn union(&self, other: &NameSet) -> (r: NameSet)
        requires
            self.wf(),
            other.wf(),
        ensures
            r.wf(),
            r.set() == self.set().union(other.set()),
    {
        let mut r = NameSet::empty();
        let n = self.items.len();
        let mut i: usize = 0;
        proof {
            assert(self.seq().take(0) =~= Seq::<Seq<char>>::empty());
            assert(r.set() =~= self.seq().take(0).to_set());
        }
        while i < n
            invariant
                0 <= i <= n,
                n == self.seq().len(),
                r.wf(),
                r.set() == self.seq().take(i as int).to_set(),
            decreases n - i,
        {
            let x = self.items[i].clone();
            proof {
                assert(x@ == self.seq()[i as int]);
            }
            r.insert(x);
            proof {
                lemma_take_to_set_step(self.seq(), i as int);
            }
            i = i + 1;
        }
        proof {
            assert(self.seq().take(n as int) =~= self.seq());
        }
        let m = other.items.len();
        let mut k: usize = 0;
        proof {
            assert(other.seq().take(0) =~= Seq::<Seq<char>>::empty());
            assert(r.set() =~= self.set().union(other.seq().take(0).to_set()));
        }
        while k < m
            invariant
                0 <= k <= m,
                m == other.seq().len(),
                r.wf(),
                r.set() == self.set().union(other.seq().take(k as int).to_set()),
            decreases m - k,
        {
            let x = other.items[k].clone();
            proof {
                assert(x@ == other.seq()[k as int]);
            }
            r.insert(x);
            proof {
                lemma_take_to_set_step(other.seq(), k as int);
                assert(self.set().union(other.seq().take(k as int).to_set()).insert(x@)
                    =~= self.set().union(other.seq().take(k as int + 1).to_set()));
            }
            k = k + 1;
        }
        proof {
            assert(other.seq().take(m as int) =~= other.seq());
        }
        r
    }

    /// The names of `self` that are not in `other`.
    pub fn difference(&self, other: &NameSet) -> (r: NameSet)
        requires
            self.wf(),
            other.wf(),
        ensures
            r.wf(),
            r.set() == self.set().difference(other.set()),
    {
        let mut r = NameSet::empty();
        let n = self.items.len();
        let mut i: usize = 0;
        proof {
            assert(r.set() =~= self.seq().take(0).to_set().difference(other.set()));
        }
        while i < n
            invariant
                0 <= i <= n,
                n == self.seq().len(),
                r.wf(),
                r.set() == self.seq().take(i as int).to_set().difference(other.set()),
            decreases n - i,
        {
            proof {
                lemma_take_to_set_step(self.seq(), i as int);
            }
            if !other.contains_name(&self.items[i]) {
                let x = self.items[i].clone();
                proof {
                    assert(x@ == self.seq()[i as int]);
                }
                r.insert(x);
            }
            proof {
                assert(r.set() =~= self.seq().take(i as int + 1).to_set().difference(
                    other.set(),
                ));
            }
            i = i + 1;
        }
        proof {
            assert(self.seq().take(n as int) =~= self.seq());
        }
        r
    }

    /// The names of `self` that are also in `other`.
    pub fn intersection(&self, other: &NameSet) -> (r: NameSet)
        requires
            self.wf(),
            other.wf(),
        ensures
            r.wf(),
            r.set() == self.set().intersect(other.set()),
    {
        let mut r = NameSet::empty();
        let n = self.items.len();
        let mut i: usize = 0;
        proof {
            assert(r.set() =~= self.seq().take(0).to_set().intersect(other.set()));
        }
        while i < n
            invariant
                0 <= i <= n,
                n == self.seq().len(),
                r.wf(),
                r.set() == self.seq().take(i as int).to_set().intersect(other.set()),
            decreases n - i,
        {
            proof {
                lemma_take_to_set_step(self.seq(), i as int);
            }
            if other.contains_name(&self.items[i]) {
                let x = self.items[i].clone();
                proof {
                    assert(x@ == self.seq()[i as int]);
                }
                r.insert(x);
            }
            proof {
                assert(r.set() =~= self.seq().take(i as int + 1).to_set().intersect(
                    other.set(),
                ));
            }
            i = i + 1;
        }
        proof {
            assert(self.seq().take(n as int) =~= self.seq());
        }
        r
    }

    /// Builds a set from raw names: trims each, drops the empty, deduplicates.
    pub fn from_items(items: &Vec<String>) -> (r: NameSet)
        ensures
            r.wf(),
            r.set() == normalized_set(items.deep_view()),
    {
        let mut r = NameSet::empty();
        let n = items.len();
        let mut i: usize = 0;
        proof {
            assert(items.deep_view().take(0) =~= Seq::<Seq<char>>::empty());
            assert(r.set() =~= normalized_set(items.deep_view().take(0)));
        }
        while i < n
            invariant
                0 <= i <= n,
                n == items.deep_view().len(),
                r.wf(),
                r.set() == normalized_set(items.deep_view().take(i as int)),
            decreases n - i,
        {
            let t = trim(items[i].as_str());
            proof {
                let dv = items.deep_view();
                assert(dv.take(i as int + 1).drop_last() =~= dv.take(i as int));
                assert(dv.take(i as int + 1).last() == dv[i as int]);
                assert(t@ == trim_spec(dv[i as int]));
            }
            if !t.as_str().is_empty() {
                r.insert(t);
            }
            i = i + 1;
        }
        proof {
            assert(items.deep_view().take(n as int) =~= items.deep_view());
        }
        r
    }
}

/// A well-formed name set holds no duplicate and no empty names.
pub proof fn lemma_wf_no_duplicates(s: &NameSet)
    requires
        s.wf(),
    ensures
        s.seq().no_duplicates(),
        forall|i: int| 0 <= i < s.seq().len() ==> (#[trigger] s.seq()[i]).len() > 0,
{
    assert forall|i: int, j: int|
        0 <= i < s.seq().len() && 0 <= j < s.seq().len() && i != j implies s.seq()[i]
        != s.seq()[j] by {
        if i < j {
            if s.seq()[i] == s.seq()[j] {
                lemma_lex_lt_irreflexive(s.seq()[i]);
            }
        } else {
            if s.seq()[i] == s.seq()[j] {
                lemma_lex_lt_irreflexive(s.seq()[i]);
            }
        }
    }
}

/// Inserting into the sequence inserts into its membership.
proof fn lemma_seq_insert_to_set(s: Seq<Seq<char>>, i: int, x: Seq<char>)
    requires
        0 <= i <= s.len(),
    ensures
        s.insert(i, x).to_set() == s.to_set().insert(x),
{
    s.insert_ensures(i, x);
    let t = s.insert(i, x);
    assert forall|e: Seq<char>| t.to_set().contains(e) implies s.to_set().insert(x).contains(
        e,
    ) by {
        let j = choose|j: int| 0 <= j < t.len() && t[j] == e;
        if j < i {
            assert(s[j] == e);
            assert(s.contains(e));
        } else if j > i {
            assert(s[j - 1] == e);
            assert(s.contains(e));
        }
    }
    assert forall|e: Seq<char>| s.to_set().insert(x).contains(e) implies t.to_set().contains(
        e,
    ) by {
        if e == x {
            assert(t[i] == e);
            assert(t.contains(e));
        } else {
            let k = choose|k: int| 0 <= k < s.len() && s[k] == e;
            if k < i {
                assert(t[k] == e);
            } else {
                assert(t[k + 1] == e);
            }
            assert(t.contains(e));
        }
    }
    assert(t.to_set() =~= s.to_set().insert(x));
}

/// Extending a prefix by one element inserts that element into its membership.
proof fn lemma_take_to_set_step(s: Seq<Seq<char>>, i: int)
    requires
        0 <= i < s.len(),
    ensures
        s.take(i + 1).to_set() == s.take(i).to_set().insert(s[i]),
{
    assert(s.take(i + 1) =~= s.take(i).push(s[i]));
    s.take(i).lemma_push_to_set_commute(s[i]);
}

/// Dropping the head of a strictly sorted sequence removes exactly the head
/// from its membership, and keeps the rest strictly sorted.
proof fn lemma_sorted_drop_first_to_set(s: Seq<Seq<char>>)
    requires
        strictly_sorted(s),
        s.len() > 0,
    ensures
        strictly_sorted(s.drop_first()),
        s.drop_first().to_set() == s.to_set().remove(s[0]),
{
    let d = s.drop_first();
    assert forall|e: Seq<char>| d.to_set().contains(e) implies s.to_set().remove(s[0]).contains(
        e,
    ) by {
        let j = choose|j: int| 0 <= j < d.len() && d[j] == e;
        assert(s[j + 1] == e);
        assert(s.contains(e));
        assert(lex_lt(s[0], s[j + 1]));
        if e == s[0] {
            lemma_lex_lt_irreflexive(e);
        }
    }
    assert forall|e: Seq<char>| s.to_set().remove(s[0]).contains(e) implies d.to_set().contains(
        e,
    ) by {
        let k = choose|k: int| 0 <= k < s.len() && s[k] == e;
        assert(k > 0);
        assert(d[k - 1] == e);
        assert(d.contains(e));
    }
    assert(d.to_set() =~= s.to_set().remove(s[0]));
}

/// Strictly sorted sequences with the same membership are identical: the
/// stored order of a well-formed [`NameSet`] is determined by its set.
proof fn lemma_strict_sorted_unique(x: Seq<Seq<char>>, y: Seq<Seq<char>>)
    requires
        strictly_sorted(x),
        strictly_sorted(y),
        x.to_set() == y.to_set(),
    ensures
        x == y,
    decreases x.len(),
{
    if x.len() == 0 {
        if y.len() > 0 {
            assert(y.contains(y[0]));
            assert(x.to_set().contains(y[0]));
        }
        assert(x =~= y);
    } else {
        assert(x.contains(x[0]));
        assert(y.to_set().contains(x[0]));
        let k = choose|k: int| 0 <= k < y.len() && y[k] == x[0];
        assert(y.contains(y[0]));
        assert(x.to_set().contains(y[0]));
        let m = choose|m: int| 0 <= m < x.len() && x[m] == y[0];
        if k > 0 && m > 0 {
            assert(lex_lt(y[0], y[k]));
            assert(lex_lt(x[0], x[m]));
            lemma_lex_lt_asymmetric(y[0], x[0]);
        }
        assert(x[0] == y[0]);
        lemma_sorted_drop_first_to_set(x);
        lemma_sorted_drop_first_to_set(y);
        lemma_strict_sorted_unique(x.drop_first(), y.drop_first());
        assert(x.len() == y.len());
        assert forall|i: int| 0 <= i < x.len() implies x[i] == y[i] by {
            if i > 0 {
                assert(x[i] == x.drop_first()[i - 1]);
                assert(y[i] == y.drop_first()[i - 1]);
            }
        }
        assert(x =~= y);
    }
}

/// Membership determines the whole representation: two well-formed name sets
/// holding the same names hold them in the same order.
pub proof fn lemma_canonical(a: &NameSet, b: &NameSet)
    requires
        a.wf(),
        b.wf(),
        a.set() == b.set(),
    ensures
        a.seq() == b.seq(),
{
    lemma_strict_sorted_unique(a.seq(), b.seq());
}

} // verus!
