//! Cycles of variables that constraints unify with each other.
use vstd::prelude::*;
use crate::terms::{names, Name, Symbol};
use crate::model::{
    add_pair, first_overlap, first_touch, join_cycles, overlaps, pick, pick_from,
    set_add, set_union,
};

verus! {

/// The names of each cycle.
pub open spec fn cycles_model(v: Seq<Vec<Symbol>>) -> Seq<Seq<Name>> {
    Seq::new(v.len(), |i: int| names(v[i]@))
}

/// Whether `x` is among the symbols.
pub fn contains_symbol(v: &Vec<Symbol>, x: &Symbol) -> (r: bool)
    ensures
        r == names(v@).contains(x@),
{
    let n = v.len();
    let mut i: usize = 0;
    while i < n
        invariant
            n == v.len(),
            i <= n,
            forall|j: int| 0 <= j < i ==> v@[j]@ != x@,
        decreases n - i,
    {
        if v[i].eq_symbol(x) {
            assert(names(v@)[i as int] == x@);
            return true;
        }
        i = i + 1;
    }
    proof {
        if names(v@).contains(x@) {
            let j = choose|j: int| 0 <= j < names(v@).len() && names(v@)[j] == x@;
            assert(v@[j]@ == x@);
        }
    }
    false
}

/// Adds `x` unless it is already there.
pub fn add_symbol(v: &mut Vec<Symbol>, x: &Symbol)
    ensures
        names(final(v)@) == set_add(names(old(v)@), x@),
{
    if !contains_symbol(v, x) {
        let ghost v0 = v@;
        v.push(x.clone());
        assert(names(v@) =~= names(v0).push(x@));
    }
}

/// A copy of the symbols.
pub fn clone_symbols(v: &Vec<Symbol>) -> (r: Vec<Symbol>)
    ensures
        names(r@) == names(v@),
{
    let n = v.len();
    let mut r: Vec<Symbol> = Vec::new();
    let mut i: usize = 0;
    while i < n
        invariant
            n == v.len(),
            i <= n,
            r@.len() == i,
            forall|j: int| 0 <= j < i ==> (#[trigger] r@[j])@ == v@[j]@,
        decreases n - i,
    {
        r.push(v[i].clone());
        i = i + 1;
    }
    assert(names(r@) =~= names(v@));
    r
}

/// Replaces the `k`-th cycle.
fn replace_cycle(cycles: &mut Vec<Vec<Symbol>>, k: usize, c: Vec<Symbol>)
    requires
        k < old(cycles)@.len(),
    ensures
        cycles_model(final(cycles)@) == cycles_model(old(cycles)@).update(k as int, names(c@)),
{
    let ghost m0 = cycles_model(cycles@);
    let _ = cycles.remove(k);
    cycles.insert(k, c);
    assert(cycles_model(cycles@) =~= m0.update(k as int, names(c@)));
}

/// Adds the pair of unified variables `(l, r)` to the first cycle that holds
/// either of them, or starts a new cycle with both.
pub fn add_pair_to_cycles(cycles: &mut Vec<Vec<Symbol>>, l: &Symbol, r: &Symbol)
    ensures
        cycles_model(final(cycles)@) == add_pair(cycles_model(old(cycles)@), (l@, r@)),
{
    let ghost m0 = cycles_model(cycles@);
    let n = cycles.len();
    let mut k: usize = 0;
    while k < n && !contains_symbol(&cycles[k], l) && !contains_symbol(&cycles[k], r)
        invariant
            n == cycles@.len(),
            k <= n,
            m0 == cycles_model(cycles@),
            first_touch(m0, l@, r@, 0) == first_touch(m0, l@, r@, k as int),
        decreases n - k,
    {
        k = k + 1;
    }
    if k < n {
        if contains_symbol(&cycles[k], l) {
            let mut c = clone_symbols(&cycles[k]);
            add_symbol(&mut c, r);
            replace_cycle(cycles, k, c);
        } else {
            let mut c = clone_symbols(&cycles[k]);
            add_symbol(&mut c, l);
            replace_cycle(cycles, k, c);
        }
    } else {
        let mut c: Vec<Symbol> = Vec::new();
        c.push(r.clone());
        assert(names(c@) =~= seq![r@]);
        add_symbol(&mut c, l);
        let ghost c_names = names(c@);
        cycles.push(c);
        assert(cycles_model(cycles@) =~= m0.push(c_names));
    }
}

/// Whether the two cycles share a name.
fn cycles_overlap(a: &Vec<Symbol>, b: &Vec<Symbol>) -> (r: bool)
    ensures
        r == overlaps(names(a@), names(b@)),
{
    let n = b.len();
    let mut j: usize = 0;
    while j < n
        invariant
            n == b@.len(),
            j <= n,
            forall|i: int| 0 <= i < j ==> !names(a@).contains(#[trigger] names(b@)[i]),
        decreases n - j,
    {
        if contains_symbol(a, &b[j]) {
            assert(names(b@)[j as int] == b@[j as int]@);
            return true;
        }
        j = j + 1;
    }
    false
}

/// `a` extended with the names of `b` it lacks, in the order of `b`.
fn union_into(a: &mut Vec<Symbol>, b: &Vec<Symbol>)
    ensures
        names(final(a)@) == set_union(names(old(a)@), names(b@)),
{
    let ghost a0 = names(a@);
    let n = b.len();
    let mut j: usize = 0;
    assert(names(b@).take(0) =~= Seq::<Name>::empty());
    while j < n
        invariant
            n == b@.len(),
            j <= n,
            names(a@) == set_union(a0, names(b@).take(j as int)),
        decreases n - j,
    {
        proof {
            assert(names(b@).take(j + 1).drop_last() =~= names(b@).take(j as int));
        }
        add_symbol(a, &b[j]);
        j = j + 1;
    }
    assert(names(b@).take(n as int) =~= names(b@));
}

/// Merges each cycle, in order, into the first earlier merged cycle that it
/// overlaps.
pub fn join_all_cycles(cycles: &Vec<Vec<Symbol>>) -> (r: Vec<Vec<Symbol>>)
    ensures
        cycles_model(r@) == join_cycles(cycles_model(cycles@)),
{
    let ghost m = cycles_model(cycles@);
    let n = cycles.len();
    let mut joined: Vec<Vec<Symbol>> = Vec::new();
    let mut i: usize = 0;
    assert(m.take(0) =~= Seq::<Seq<Name>>::empty());
    assert(cycles_model(joined@) =~= Seq::<Seq<Name>>::empty());
    while i < n
        invariant
            n == cycles@.len(),
            i <= n,
            m == cycles_model(cycles@),
            cycles_model(joined@) == join_cycles(m.take(i as int)),
        decreases n - i,
    {
        proof {
            assert(m.take(i + 1).drop_last() =~= m.take(i as int));
        }
        let new_cycle = &cycles[i];
        let ghost jm = cycles_model(joined@);
        let jn = joined.len();
        let mut k: usize = 0;
        while k < jn && !cycles_overlap(&joined[k], new_cycle)
            invariant
                jn == joined@.len(),
                k <= jn,
                jm == cycles_model(joined@),
                names(new_cycle@) == m[i as int],
                first_overlap(jm, m[i as int], 0) == first_overlap(jm, m[i as int], k as int),
            decreases jn - k,
        {
            k = k + 1;
        }
        if k < jn {
            let mut c = clone_symbols(&joined[k]);
            union_into(&mut c, new_cycle);
            replace_cycle(&mut joined, k, c);
        } else {
            let c = clone_symbols(new_cycle);
            let ghost c_names = names(c@);
            joined.push(c);
            assert(cycles_model(joined@) =~= jm.push(c_names));
        }
        i = i + 1;
    }
    assert(m.take(n as int) =~= m);
    joined
}

/// The first symbol of the cycle that is not temporary, else its first symbol.
pub fn pick_symbol(cycle: &Vec<Symbol>) -> (r: Symbol)
    ensures
        r@ == pick(names(cycle@)),
{
    let ghost c = names(cycle@);
    let mut set_first = false;
    let mut cycle_sym = Symbol::new("");
    proof {
        reveal_strlit("");
        assert(cycle_sym@ =~= Seq::<char>::empty());
    }
    let n = cycle.len();
    let mut i: usize = 0;
    while i < n
        invariant
            n == cycle@.len(),
            i <= n,
            c == names(cycle@),
            set_first == (i > 0),
            set_first ==> cycle_sym@ == c[0],
            !set_first ==> cycle_sym@ == Seq::<char>::empty(),
            pick(c) == pick_from(c, i as int),
        decreases n - i,
    {
        let symbol = &cycle[i];
        if !set_first {
            cycle_sym = symbol.clone();
            set_first = true;
        }
        if !symbol.is_temporary_var() {
            return symbol.clone();
        }
        i = i + 1;
    }
    cycle_sym
}

} // verus!
