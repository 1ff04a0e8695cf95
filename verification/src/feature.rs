//! Interned names and sets of activated features.
//!
//! Every name the planner handles (a feature, a target triple, a profile, an
//! artifact) is a [`Symbol`]: a small integer that stands for a string kept
//! elsewhere. A [`FeatureSet`] is a set of such symbols. It is stored as a
//! strictly increasing list, so that two sets with the same members have the
//! same representation and can be compared member by member.

use vstd::prelude::*;

verus! {

/// An interned name.
#[derive(Clone, Copy, Debug, PartialEq, Eq, Structural, Hash)]
pub struct Symbol {
    pub id: u64,
}

/// `s` lists its symbols in strictly increasing order of `id`.
pub open spec fn strictly_increasing(s: Seq<Symbol>) -> bool {
    forall|i: int, j: int| 0 <= i < j < s.len() ==> s[i].id < s[j].id
}

/// A strictly increasing list is determined by the set of its members.
pub proof fn lemma_increasing_list_unique(a: Seq<Symbol>, b: Seq<Symbol>)
    requires
        strictly_increasing(a),
        strictly_increasing(b),
        a.to_set() == b.to_set(),
    ensures
        a == b,
    decreases a.len(),
{
    if a.len() == 0 {
        if b.len() > 0 {
            assert(b.to_set().contains(b[0]));
            assert(a.to_set().contains(b[0]));
        }
        assert(a =~= b);
    } else if b.len() == 0 {
        assert(a.to_set().contains(a[0]));
        assert(b.to_set().contains(a[0]));
    } else {
        let x = a.last();
        let y = b.last();
        assert(a.to_set().contains(x));
        assert(b.to_set().contains(x));
        assert(b.to_set().contains(y));
        assert(a.to_set().contains(y));
        let ix = choose|i: int| 0 <= i < b.len() && b[i] == x;
        let iy = choose|i: int| 0 <= i < a.len() && a[i] == y;
        assert(x.id <= y.id);
        assert(y.id <= x.id);
        assert(x == y);
        let a0 = a.drop_last();
        let b0 = b.drop_last();
        assert forall|s: Symbol| a0.to_set().contains(s) == b0.to_set().contains(s) by {
            if a0.to_set().contains(s) {
                let i = choose|i: int| 0 <= i < a0.len() && a0[i] == s;
                assert(a[i] == s);
                assert(a.to_set().contains(s));
                assert(b.to_set().contains(s));
                let j = choose|j: int| 0 <= j < b.len() && b[j] == s;
                assert(s.id < x.id);
                assert(j < b.len() - 1);
                assert(b0[j] == s);
            }
            if b0.to_set().contains(s) {
                let i = choose|i: int| 0 <= i < b0.len() && b0[i] == s;
                assert(b[i] == s);
                assert(b.to_set().contains(s));
                assert(a.to_set().contains(s));
                let j = choose|j: int| 0 <= j < a.len() && a[j] == s;
                assert(s.id < y.id);
                assert(j < a.len() - 1);
                assert(a0[j] == s);
            }
        }
        assert(a0.to_set() =~= b0.to_set());
        lemma_increasing_list_unique(a0, b0);
        assert(a =~= a0.push(x));
        assert(b =~= b0.push(y));
    }
}

/// A set of activated feature names.
#[derive(Clone, Debug, PartialEq, Eq)]
pub struct FeatureSet {
    items: Vec<Symbol>,
}

impl View for FeatureSet {
    type V = Set<Symbol>;

    closed spec fn view(&self) -> Set<Symbol> {
        self.items@.to_set()
    }
}

impl FeatureSet {
    /// The members in increasing order.
    pub closed spec fn listing(&self) -> Seq<Symbol> {
        self.items@
    }

    /// The representation invariant: the listing is strictly increasing and
    /// holds exactly the members.
    pub closed spec fn wf(&self) -> bool {
        strictly_increasing(self.items@)
    }

    /// What the listing has to do with the set.
    pub proof fn lemma_listing(&self)
        ensures
            self@ == self.listing().to_set(),
            self.wf() == strictly_increasing(self.listing()),
            self@.finite(),
            self.wf() ==> self@.len() == self.listing().len(),
    {
        broadcast use vstd::seq_lib::seq_to_set_is_finite;

        if self.wf() {
            assert(self.items@.no_duplicates());
            self.items@.unique_seq_to_set();
        }
    }

    /// Equal sets have equal listings.
    pub proof fn lemma_same_set_same_listing(&self, other: &FeatureSet)
        requires
            self.wf(),
            other.wf(),
            self@ == other@,
        ensures
            self.listing() == other.listing(),
    {
        lemma_increasing_list_unique(self.items@, other.items@);
    }

    /// The empty set.
    pub fn new() -> (r: FeatureSet)
        ensures
            r.wf(),
            r@ == Set::<Symbol>::empty(),
    {
        let r = FeatureSet { items: Vec::new() };
        assert(r.items@.to_set() =~= Set::<Symbol>::empty());
        r
    }

    /// The number of members.
    pub fn len(&self) -> (n: usize)
        requires
            self.wf(),
        ensures
            n == self@.len(),
    {
        proof {
            self.lemma_listing();
        }
        self.items.len()
    }

    /// The member at position `i` of the increasing listing.
    pub fn get(&self, i: usize) -> (s: Symbol)
        requires
            i < self.listing().len(),
        ensures
            s == self.listing()[i as int],
            self@.contains(s),
    {
        assert(self.items@.to_set().contains(self.items@[i as int]));
        self.items[i]
    }

    /// The length of the listing, for walking it with [`FeatureSet::get`].
    pub fn listing_len(&self) -> (n: usize)
        ensures
            n == self.listing().len(),
    {
        self.items.len()
    }

    /// Whether `f` is a member.
    pub fn contains(&self, f: Symbol) -> (r: bool)
        ensures
            r == self@.contains(f),
    {
        let n = self.items.len();
        let mut i: usize = 0;
        while i < n
            invariant
                n == self.items@.len(),
                i <= n,
                forall|k: int| 0 <= k < i ==> self.items@[k] != f,
            decreases n - i,
        {
            if self.items[i].id == f.id {
                assert(self.items@[i as int] == f);
                assert(self.items@.to_set().contains(f));
                return true;
            }
            i = i + 1;
        }
        assert(!self.items@.contains(f));
        false
    }

    /// Adds `f`. Adding a member again changes nothing.
    pub fn insert(&mut self, f: Symbol)
        requires
            old(self).wf(),
        ensures
            final(self).wf(),
            final(self)@ == old(self)@.insert(f),
    {
        let n = self.items.len();
        let mut i: usize = 0;
        while i < n && self.items[i].id < f.id
            invariant
                n == self.items@.len(),
                i <= n,
                self.items@ == old(self).items@,
                forall|k: int| 0 <= k < i ==> self.items@[k].id < f.id,
            decreases n - i,
        {
            i = i + 1;
        }
        if i < n && self.items[i].id == f.id {
            assert(self.items@[i as int] == f);
            assert(self.items@.to_set().contains(f));
            assert(self.items@.to_set() =~= old(self).items@.to_set().insert(f));
            return ;
        }
        let ghost before = self.items@;
        self.items.insert(i, f);
        proof {
            let after = self.items@;
            assert(after == before.insert(i as int, f));
            assert forall|a: int, b: int| 0 <= a < b < after.len() implies after[a].id
                < after[b].id by {
                if a < i && b == i {
                    assert(after[a] == before[a]);
                } else if a < i && b > i {
                    assert(after[a] == before[a]);
                    assert(after[b] == before[b - 1]);
                } else if a == i {
                    assert(after[b] == before[b - 1]);
                    assert(before[b - 1].id >= before[i as int].id);
                } else if a > i {
                    assert(after[a] == before[a - 1]);
                    assert(after[b] == before[b - 1]);
                } else {
                    assert(after[a] == before[a]);
                    assert(after[b] == before[b]);
                }
            }
            assert forall|s: Symbol| after.to_set().contains(s) == before.to_set().insert(
                f,
            ).contains(s) by {
                if after.to_set().contains(s) {
                    let k = choose|k: int| 0 <= k < after.len() && after[k] == s;
                    if k < i {
                        assert(before[k] == s);
                    } else if k > i {
                        assert(before[k - 1] == s);
                    }
                }
                if before.to_set().contains(s) {
                    let k = choose|k: int| 0 <= k < before.len() && before[k] == s;
                    if k < i {
                        assert(after[k] == s);
                    } else {
                        assert(after[k + 1] == s);
                    }
                }
                if s == f {
                    assert(after[i as int] == s);
                }
            }
            assert(after.to_set() =~= before.to_set().insert(f));
        }
    }

    /// A copy of this set.
    pub fn duplicate(&self) -> (r: FeatureSet)
        ensures
            r@ == self@,
            r.listing() == self.listing(),
            r.wf() == self.wf(),
    {
        let mut items: Vec<Symbol> = Vec::new();
        let n = self.items.len();
        let mut i: usize = 0;
        while i < n
            invariant
                n == self.items@.len(),
                i <= n,
                items@ == self.items@.take(i as int),
            decreases n - i,
        {
            items.push(self.items[i]);
            assert(self.items@.take(i + 1) =~= self.items@.take(i as int).push(
                self.items@[i as int],
            ));
            i = i + 1;
        }
        assert(self.items@.take(n as int) =~= self.items@);
        FeatureSet { items }
    }

    /// The set with the members of `v`, in whatever order and however often
    /// `v` lists them.
    pub fn from_vec(v: &Vec<Symbol>) -> (r: FeatureSet)
        ensures
            r.wf(),
            r@ == v@.to_set(),
    {
        let mut r = FeatureSet::new();
        let n = v.len();
        let mut i: usize = 0;
        while i < n
            invariant
                n == v@.len(),
                i <= n,
                r.wf(),
                r@ == v@.take(i as int).to_set(),
            decreases n - i,
        {
            r.insert(v[i]);
            proof {
                let a = v@.take(i as int);
                let b = v@.take(i + 1);
                assert(b =~= a.push(v@[i as int]));
                assert forall|s: Symbol| b.to_set().contains(s) == a.to_set().insert(
                    v@[i as int],
                ).contains(s) by {
                    if b.to_set().contains(s) {
                        let k = choose|k: int| 0 <= k < b.len() && b[k] == s;
                        if k < i {
                            assert(a[k] == s);
                        }
                    }
                    if a.to_set().contains(s) {
                        let k = choose|k: int| 0 <= k < a.len() && a[k] == s;
                        assert(b[k] == s);
                    }
                    if s == v@[i as int] {
                        assert(b[i as int] == s);
                    }
                }
                assert(b.to_set() =~= a.to_set().insert(v@[i as int]));
            }
            i = i + 1;
        }
        assert(v@.take(n as int) =~= v@);
        r
    }

    /// Adds every member of `other`.
    pub fn extend(&mut self, other: &FeatureSet)
        requires
            old(self).wf(),
        ensures
            final(self).wf(),
            final(self)@ == old(self)@.union(other@),
    {
        let n = other.items.len();
        let mut i: usize = 0;
        while i < n
            invariant
                n == other.items@.len(),
                i <= n,
                self.wf(),
                self@ == old(self)@.union(other.items@.take(i as int).to_set()),
            decreases n - i,
        {
            let ghost before = self@;
            self.insert(other.items[i]);
            proof {
                let a = other.items@.take(i as int);
                let b = other.items@.take(i + 1);
                let x = other.items@[i as int];
                assert(b =~= a.push(x));
                assert forall|s: Symbol| b.to_set().contains(s) == a.to_set().insert(x).contains(
                    s,
                ) by {
                    if b.to_set().contains(s) {
                        let k = choose|k: int| 0 <= k < b.len() && b[k] == s;
                        if k < i {
                            assert(a[k] == s);
                        }
                    }
                    if a.to_set().contains(s) {
                        let k = choose|k: int| 0 <= k < a.len() && a[k] == s;
                        assert(b[k] == s);
                    }
                    if s == x {
                        assert(b[i as int] == s);
                    }
                }
                assert(b.to_set() =~= a.to_set().insert(x));
                assert(self@ =~= old(self)@.union(b.to_set()));
            }
            i = i + 1;
        }
        assert(other.items@.take(n as int) =~= other.items@);
    }

    /// Whether the two sets have the same members.
    pub fn same(&self, other: &FeatureSet) -> (r: bool)
        requires
            self.wf(),
            other.wf(),
        ensures
            r == (self@ == other@),
    {
        let n = self.items.len();
        if n != other.items.len() {
            proof {
                if self@ == other@ {
                    lemma_increasing_list_unique(self.items@, other.items@);
                }
            }
            return false;
        }
        let mut i: usize = 0;
        while i < n
            invariant
                n == self.items@.len(),
                n == other.items@.len(),
                i <= n,
                self.wf(),
                other.wf(),
                forall|k: int| 0 <= k < i ==> self.items@[k] == other.items@[k],
            decreases n - i,
        {
            if self.items[i].id != other.items[i].id {
                proof {
                    if self@ == other@ {
                        lemma_increasing_list_unique(self.items@, other.items@);
                    }
                }
                return false;
            }
            i = i + 1;
        }
        assert(self.items@ =~= other.items@);
        true
    }

    /// The members, in increasing order.
    pub fn to_vec(&self) -> (v: Vec<Symbol>)
        ensures
            v@ == self.listing(),
    {
        self.duplicate().items
    }

    /// Whether both `a` and `b` are members.
    pub fn holds_both(&self, a: Symbol, b: Symbol) -> (r: bool)
        ensures
            r == (self@.contains(a) && self@.contains(b)),
    {
        self.contains(a) && self.contains(b)
    }
}

} // verus!
