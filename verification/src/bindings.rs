//! Variable bindings: a finite map from variable names to terms.
use vstd::prelude::*;
use crate::terms::{Name, Symbol, Term, TermModel};

verus! {

/// The map described by a sequence of entries, later entries overriding earlier ones.
pub open spec fn entries_map(s: Seq<(Symbol, Term)>) -> Map<Name, TermModel>
    decreases s.len(),
{
    if s.len() == 0 {
        Map::empty()
    } else {
        entries_map(s.drop_last()).insert(s.last().0@, s.last().1@)
    }
}

/// No two entries share a key.
pub open spec fn distinct_keys(s: Seq<(Symbol, Term)>) -> bool {
    forall|i: int, j: int| 0 <= i < j < s.len() ==> (#[trigger] s[i]).0@ != (#[trigger] s[j]).0@
}

/// The keys of the entries, in order.
pub open spec fn entry_keys(s: Seq<(Symbol, Term)>) -> Seq<Name> {
    Seq::new(s.len(), |i: int| s[i].0@)
}

/// The map of entries with distinct keys holds exactly their keys, each with its term.
pub proof fn lemma_entries_map(s: Seq<(Symbol, Term)>)
    requires
        distinct_keys(s),
    ensures
        entries_map(s).dom().finite(),
        forall|k: Name| entries_map(s).dom().contains(k) <==> entry_keys(s).contains(k),
        forall|i: int| 0 <= i < s.len() ==> #[trigger] entries_map(s)[s[i].0@] == s[i].1@,
        entries_map(s).dom().len() == s.len(),
    decreases s.len(),
{
    if s.len() > 0 {
        let p = s.drop_last();
        assert(distinct_keys(p));
        lemma_entries_map(p);
        let k = s.last().0@;
        assert(!entry_keys(p).contains(k)) by {
            if entry_keys(p).contains(k) {
                let i = choose|i: int| 0 <= i < entry_keys(p).len() && entry_keys(p)[i] == k;
                assert(s[i].0@ == s[s.len() - 1].0@);
            }
        }
        assert forall|k2: Name| entries_map(s).dom().contains(k2) <==> entry_keys(s).contains(k2) by {
            if entry_keys(s).contains(k2) {
                let i = choose|i: int| 0 <= i < entry_keys(s).len() && entry_keys(s)[i] == k2;
                if i < s.len() - 1 {
                    assert(entry_keys(p)[i] == k2);
                }
            }
            if entry_keys(p).contains(k2) {
                let i = choose|i: int| 0 <= i < entry_keys(p).len() && entry_keys(p)[i] == k2;
                assert(entry_keys(s)[i] == k2);
            }
            if k2 == k {
                assert(entry_keys(s)[s.len() - 1] == k2);
            }
        }
        assert forall|i: int| 0 <= i < s.len() implies #[trigger] entries_map(s)[s[i].0@] == s[i].1@ by {
            if i < s.len() - 1 {
                assert(p[i] == s[i]);
                assert(s[i].0@ != k);
            }
        }
    }
}

/// Variable bindings: each variable name is bound to at most one term.
pub struct Bindings {
    entries: Vec<(Symbol, Term)>,
}

impl View for Bindings {
    type V = Map<Name, TermModel>;

    closed spec fn view(&self) -> Map<Name, TermModel> {
        entries_map(self.entries@)
    }
}

impl Bindings {
    #[verifier::type_invariant]
    closed spec fn keys_distinct(self) -> bool {
        distinct_keys(self.entries@)
    }

    /// The bound names, in the order in which they were first bound.
    pub closed spec fn key_seq(&self) -> Seq<Name> {
        entry_keys(self.entries@)
    }

    /// No bindings.
    pub fn new() -> (r: Bindings)
        ensures
            r@ == Map::<Name, TermModel>::empty(),
            r.key_seq().len() == 0,
    {
        let r = Bindings { entries: Vec::new() };
        assert(r@ =~= Map::<Name, TermModel>::empty());
        r
    }

    /// The number of bindings; the bound names are the key sequence, without repetition.
    pub fn len(&self) -> (r: usize)
        ensures
            r == self.key_seq().len(),
            self.key_seq().no_duplicates(),
            forall|k: Name| self@.dom().contains(k) <==> self.key_seq().contains(k),
            self@.dom().finite(),
            self@.dom().len() == r,
    {
        proof {
            use_type_invariant(self);
            lemma_entries_map(self.entries@);
        }
        self.entries.len()
    }

    /// The `i`-th binding in the key sequence.
    pub fn entry_at(&self, i: usize) -> (r: (&Symbol, &Term))
        requires
            i < self.key_seq().len(),
        ensures
            r.0@ == self.key_seq()[i as int],
            r.1@ == self@[self.key_seq()[i as int]],
    {
        proof {
            use_type_invariant(self);
            lemma_entries_map(self.entries@);
        }
        let e = &self.entries[i];
        (&e.0, &e.1)
    }

    /// The position of `k` among the entries.
    fn find(&self, k: &Symbol) -> (r: Option<usize>)
        ensures
            match r {
                Some(i) => i < self.entries@.len() && self.entries@[i as int].0@ == k@,
                None => !self.key_seq().contains(k@),
            },
    {
        let n = self.entries.len();
        let mut i: usize = 0;
        while i < n
            invariant
                n == self.entries@.len(),
                i <= n,
                forall|j: int| 0 <= j < i ==> self.entries@[j].0@ != k@,
            decreases n - i,
        {
            if self.entries[i].0.eq_symbol(k) {
                return Some(i);
            }
            i = i + 1;
        }
        proof {
            if self.key_seq().contains(k@) {
                let j = choose|j: int| 0 <= j < self.key_seq().len() && self.key_seq()[j] == k@;
                assert(self.entries@[j].0@ == k@);
            }
        }
        None
    }

    /// The term bound to `k`, if any.
    pub fn get(&self, k: &Symbol) -> (r: Option<&Term>)
        ensures
            r is Some <==> self@.dom().contains(k@),
            r matches Some(t) ==> t@ == self@[k@],
    {
        proof {
            use_type_invariant(self);
            lemma_entries_map(self.entries@);
        }
        match self.find(k) {
            Some(i) => {
                assert(entry_keys(self.entries@)[i as int] == k@);
                assert(entry_keys(self.entries@).contains(k@));
                assert(self@.dom().contains(k@));
                assert(self@[k@] == self.entries@[i as int].1@);
                Some(&self.entries[i].1)
            },
            None => {
                assert(!entry_keys(self.entries@).contains(k@));
                assert(!self@.dom().contains(k@));
                None
            },
        }
    }

    /// Whether `k` is bound.
    pub fn contains_key(&self, k: &Symbol) -> (r: bool)
        ensures
            r == self@.dom().contains(k@),
    {
        proof {
            use_type_invariant(self);
            lemma_entries_map(self.entries@);
        }
        match self.find(k) {
            Some(i) => {
                assert(entry_keys(self.entries@)[i as int] == k@);
                assert(entry_keys(self.entries@).contains(k@));
                true
            },
            None => {
                assert(!entry_keys(self.entries@).contains(k@));
                false
            },
        }
    }

    /// Binds `k` to `v`, replacing any earlier binding of `k`.
    pub fn insert(&mut self, k: Symbol, v: Term)
        ensures
            final(self)@ == old(self)@.insert(k@, v@),
            forall|n: Name| final(self).key_seq().contains(n) <==> (old(self).key_seq().contains(n) || n == k@),
    {
        proof {
            use_type_invariant(&*self);
            lemma_entries_map(self.entries@);
        }
        let ghost s0 = self.entries@;
        match self.find(&k) {
            Some(i) => {
                let ghost e = (k, v);
                let ghost s1 = s0.update(i as int, e);
                assert(distinct_keys(s1)) by {
                    assert forall|a: int, b: int| 0 <= a < b < s1.len() implies (#[trigger] s1[a]).0@ != (#[trigger] s1[b]).0@ by {
                        assert(s0[a].0@ != s0[b].0@);
                    }
                }
                proof {
                    lemma_entries_map(s1);
                    assert forall|n: Name| entry_keys(s1).contains(n) <==> entry_keys(s0).contains(n) by {
                        if entry_keys(s1).contains(n) {
                            let j = choose|j: int| 0 <= j < entry_keys(s1).len() && entry_keys(s1)[j] == n;
                            assert(entry_keys(s0)[j] == n);
                        }
                        if entry_keys(s0).contains(n) {
                            let j = choose|j: int| 0 <= j < entry_keys(s0).len() && entry_keys(s0)[j] == n;
                            assert(entry_keys(s1)[j] == n);
                        }
                    }
                    assert forall|n: Name| #[trigger] entries_map(s1).dom().contains(n) implies entries_map(s1)[n] == entries_map(s0).insert(k@, v@)[n] by {
                        assert(entry_keys(s1).contains(n));
                        let j = choose|j: int| 0 <= j < entry_keys(s1).len() && entry_keys(s1)[j] == n;
                        assert(0 <= j < s1.len());
                        assert(s1[j].0@ == n);
                        assert(entries_map(s1)[s1[j].0@] == s1[j].1@);
                        if j != i {
                            assert(s0[j] == s1[j]);
                            assert(entries_map(s0)[s0[j].0@] == s0[j].1@);
                            assert(n != k@) by {
                                assert(s0[i as int].0@ == k@);
                            }
                        }
                    }
                    assert(entry_keys(s0)[i as int] == k@);
                    assert(entry_keys(s0).contains(k@));
                    assert forall|n: Name| entries_map(s1).dom().contains(n) == entries_map(s0).insert(k@, v@).dom().contains(n) by {
                        assert(entries_map(s1).dom().contains(n) == entry_keys(s1).contains(n));
                        assert(entries_map(s0).dom().contains(n) == entry_keys(s0).contains(n));
                    }
                    assert(entries_map(s1).dom() =~= entries_map(s0).insert(k@, v@).dom());
                    assert(entries_map(s1) =~= entries_map(s0).insert(k@, v@));
                }
                let mut es: Vec<(Symbol, Term)> = Vec::new();
                std::mem::swap(&mut es, &mut self.entries);
                es.set(i, (k, v));
                self.entries = es;
            },
            None => {
                let ghost s1 = s0.push((k, v));
                assert(distinct_keys(s1)) by {
                    assert forall|a: int, b: int| 0 <= a < b < s1.len() implies (#[trigger] s1[a]).0@ != (#[trigger] s1[b]).0@ by {
                        if b == s0.len() {
                            assert(entry_keys(s0)[a] == s0[a].0@);
                        } else {
                            assert(s0[a].0@ != s0[b].0@);
                        }
                    }
                }
                assert(s1.drop_last() =~= s0);
                assert forall|n: Name| entry_keys(s1).contains(n) <==> (entry_keys(s0).contains(n) || n == k@) by {
                    if entry_keys(s1).contains(n) {
                        let j = choose|j: int| 0 <= j < entry_keys(s1).len() && entry_keys(s1)[j] == n;
                        if j < s0.len() {
                            assert(entry_keys(s0)[j] == n);
                        }
                    }
                    if entry_keys(s0).contains(n) {
                        let j = choose|j: int| 0 <= j < entry_keys(s0).len() && entry_keys(s0)[j] == n;
                        assert(entry_keys(s1)[j] == n);
                    }
                    if n == k@ {
                        assert(entry_keys(s1)[s0.len() as int] == n);
                    }
                }
                let mut es: Vec<(Symbol, Term)> = Vec::new();
                std::mem::swap(&mut es, &mut self.entries);
                es.push((k, v));
                self.entries = es;
            },
        }
    }

    /// Removes every binding.
    pub fn clear(&mut self)
        ensures
            final(self)@ == Map::<Name, TermModel>::empty(),
            final(self).key_seq().len() == 0,
    {
        self.entries = Vec::new();
        assert(self@ =~= Map::<Name, TermModel>::empty());
    }
}

impl Clone for Bindings {
    fn clone(&self) -> (r: Self)
        ensures
            r@ == self@,
            r.key_seq() == self.key_seq(),
    {
        proof {
            use_type_invariant(self);
        }
        let n = self.entries.len();
        let mut es: Vec<(Symbol, Term)> = Vec::new();
        let mut i: usize = 0;
        while i < n
            invariant
                n == self.entries@.len(),
                i <= n,
                es@.len() == i,
                distinct_keys(self.entries@),
                forall|j: int| 0 <= j < i ==> (#[trigger] es@[j]).0@ == self.entries@[j].0@ && es@[j].1@ == self.entries@[j].1@,
                entries_map(es@) == entries_map(self.entries@.take(i as int)),
            decreases n - i,
        {
            let e = &self.entries[i];
            let c = (e.0.clone(), e.1.clone());
            proof {
                let s = es@.push(c);
                assert(s.drop_last() =~= es@);
                let t = self.entries@.take(i + 1);
                assert(t.drop_last() =~= self.entries@.take(i as int));
            }
            es.push(c);
            i = i + 1;
        }
        assert(self.entries@.take(n as int) =~= self.entries@);
        assert(distinct_keys(es@)) by {
            assert forall|a: int, b: int| 0 <= a < b < es@.len() implies (#[trigger] es@[a]).0@ != (#[trigger] es@[b]).0@ by {
                assert(self.entries@[a].0@ != self.entries@[b].0@);
            }
        }
        let r = Bindings { entries: es };
        assert(r.key_seq() =~= self.key_seq());
        r
    }
}

} // verus!
