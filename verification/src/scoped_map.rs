//! A map of key-value pairs organized in scopes: whole groups of bindings
//! are opened with `push` and dropped with `pop`. A lookup walks the scopes
//! from the innermost outwards, so inner bindings shadow outer ones.

use vstd::prelude::*;
use vstd::std_specs::cmp::PartialEqSpec;
use std::collections::HashMap;
use std::hash::Hash;

verus! {

broadcast use vstd::std_specs::vec::axiom_spec_len;

/// The first binding of `key` in one scope, scanned front to back.
pub open spec fn scope_lookup<K: PartialEqSpec, V>(scope: Seq<(K, V)>, key: K) -> Option<V>
    decreases scope.len(),
{
    if scope.len() == 0 {
        None
    } else if scope.first().0.eq_spec(&key) {
        Some(scope.first().1)
    } else {
        scope_lookup(scope.drop_first(), key)
    }
}

/// The first position in one scope whose key means `key`, or `-1` when no
/// key there does.
pub open spec fn scope_match_index<K: PartialEqSpec, V>(scope: Seq<(K, V)>, key: K) -> int
    decreases scope.len(),
{
    if scope.len() == 0 {
        -1
    } else if scope.first().0.eq_spec(&key) {
        0
    } else if scope_match_index(scope.drop_first(), key) == -1 {
        -1
    } else {
        1 + scope_match_index(scope.drop_first(), key)
    }
}

/// The match index is a matching position, and the first one.
proof fn lemma_scope_match_index<K: PartialEqSpec, V>(scope: Seq<(K, V)>, key: K)
    ensures
        scope_match_index(scope, key) == -1 ==> forall|j: int|
            0 <= j < scope.len() ==> !(#[trigger] scope[j]).0.eq_spec(&key),
        scope_match_index(scope, key) != -1 ==> {
            let p = scope_match_index(scope, key);
            &&& 0 <= p < scope.len()
            &&& scope[p].0.eq_spec(&key)
            &&& forall|j: int| 0 <= j < p ==> !(#[trigger] scope[j]).0.eq_spec(&key)
        },
    decreases scope.len(),
{
    if scope.len() > 0 {
        lemma_scope_match_index(scope.drop_first(), key);
        let d = scope.drop_first();
        if !scope.first().0.eq_spec(&key) {
            assert forall|j: int| 1 <= j < scope.len() implies scope[j] == d[j - 1] by {}
        }
    }
}

/// A lookup passes over a prefix of non-matching keys.
proof fn lemma_scope_lookup_skip<K: PartialEqSpec, V>(scope: Seq<(K, V)>, key: K, i: int)
    requires
        0 <= i <= scope.len(),
        forall|j: int| 0 <= j < i ==> !(#[trigger] scope[j]).0.eq_spec(&key),
    ensures
        scope_lookup(scope, key) == scope_lookup(scope.skip(i), key),
    decreases i,
{
    if i > 0 {
        assert(!scope.first().0.eq_spec(&key)) by {
            assert(scope[0] == scope.first());
        }
        assert(scope.drop_first() =~= scope.skip(1));
        assert(scope.skip(1).skip(i - 1) =~= scope.skip(i));
        assert forall|j: int| 0 <= j < i - 1 implies !(#[trigger] scope.skip(1)[j]).0.eq_spec(
            &key,
        ) by {
            assert(scope.skip(1)[j] == scope[j + 1]);
        }
        lemma_scope_lookup_skip(scope.skip(1), key, i - 1);
        assert(scope_lookup(scope, key) == scope_lookup(scope.drop_first(), key));
    } else {
        assert(scope.skip(0) =~= scope);
    }
}

/// The binding of `key`, taken from the innermost scope that holds one.
pub open spec fn stack_lookup<K: PartialEqSpec, V>(stack: Seq<Vec<(K, V)>>, key: K) -> Option<V>
    decreases stack.len(),
{
    if stack.len() == 0 {
        None
    } else {
        match scope_lookup(stack.last()@, key) {
            Some(v) => Some(v),
            None => stack_lookup(stack.drop_last(), key),
        }
    }
}

/// A scoped map: a stack of scopes, each holding its own bindings in
/// insertion order.
pub struct ScopedMap<K, V> {
    pub stack: Vec<Vec<(K, V)>>,
}

impl<K: PartialEq + PartialEqSpec + Clone + Hash + Eq, V: Clone> ScopedMap<K, V> {
    pub fn new() -> (r: Self)
        ensures
            r.stack@.len() == 0,
    {
        ScopedMap { stack: Vec::new() }
    }

    /// Open a fresh innermost scope.
    pub fn push(&mut self)
        ensures
            final(self).stack@.len() == old(self).stack@.len() + 1,
            final(self).stack@.last()@.len() == 0,
            final(self).stack@.drop_last() == old(self).stack@,
    {
        self.stack.push(Vec::new());
        proof {
            assert(final(self).stack@.drop_last() =~= old(self).stack@);
        }
    }

    /// Drop the innermost scope, with all its bindings. Popping an empty
    /// map does nothing.
    pub fn pop(&mut self)
        ensures
            old(self).stack@.len() == 0 ==> *final(self) == *old(self),
            old(self).stack@.len() > 0 ==> final(self).stack@ == old(self).stack@.drop_last(),
    {
        if !self.is_empty() {
            self.stack.pop();
        }
    }

    /// The number of open scopes.
    pub fn len(&self) -> (r: usize)
        ensures
            r == self.stack@.len(),
    {
        self.stack.len()
    }

    /// Whether no scope is open.
    pub fn is_empty(&self) -> (r: bool)
        ensures
            r == (self.stack@.len() == 0),
    {
        self.stack.is_empty()
    }

    /// Bind `key` to `val` in the innermost scope: replace the value of the
    /// first binding whose key means `key`, or append a fresh binding.
    /// At least one scope must be open; binding into an empty map is a
    /// caller bug.
    pub fn insert(&mut self, key: &K, val: &V)
        requires
            old(self).stack@.len() > 0,
        ensures
            final(self).stack@.len() == old(self).stack@.len(),
            final(self).stack@.drop_last() == old(self).stack@.drop_last(),
            K::obeys_eq_spec() ==> ({
                let top0 = old(self).stack@.last()@;
                let p = scope_match_index(top0, *key);
                if p == -1 {
                    exists|kc: K, vc: V|
                        cloned(*key, kc) && cloned(*val, vc) && final(self).stack@.last()@ == top0.push(
                            (kc, vc),
                        )
                } else {
                    exists|vc: V|
                        cloned(*val, vc) && final(self).stack@.last()@ == top0.update(
                            p,
                            (top0[p].0, vc),
                        ) && stack_lookup(final(self).stack@, *key) == Some(vc)
                }
            }),
    {
        proof {
            if K::obeys_eq_spec() {
                lemma_scope_match_index::<K, V>(self.stack@.last()@, *key);
            }
        }
        let top = self.stack.len() - 1;
        let n = self.stack[top].len();
        let mut i: usize = 0;
        while i < n
            invariant
                self.stack@.len() == old(self).stack@.len(),
                top == self.stack@.len() - 1,
                n == self.stack@[top as int]@.len(),
                i <= n,
                self.stack == old(self).stack,
                K::obeys_eq_spec() ==> forall|j: int|
                    0 <= j < i ==> !(#[trigger] self.stack@[top as int]@[j]).0.eq_spec(key),
            decreases n - i,
        {
            let hit = self.stack[top][i].0 == *key;
            if hit {
                let ghost top0 = self.stack@[top as int]@;
                let vc = val.clone();
                let ghost vcg = vc;
                self.stack[top][i].1 = vc;
                proof {
                    assert(final(self).stack@.drop_last() =~= old(self).stack@.drop_last());
                    if K::obeys_eq_spec() {
                        lemma_scope_match_index::<K, V>(top0, *key);
                        let p = scope_match_index(top0, *key);
                        assert(p == i) by {
                            if p < i {
                                assert(!top0[p].0.eq_spec(key));
                            }
                            if p > i {
                                assert(!top0[i as int].0.eq_spec(key));
                            }
                        }
                        let top1 = final(self).stack@.last()@;
                        assert(top1 =~= top0.update(p, (top0[p].0, vcg)));
                        assert forall|j: int| 0 <= j < p implies !(#[trigger] top1[j]).0.eq_spec(
                            key,
                        ) by {
                            assert(top1[j] == top0[j]);
                        }
                        lemma_scope_lookup_skip(top1, *key, p);
                        assert(top1.skip(p).first() == top1[p]);
                        assert(scope_lookup(top1, *key) == Some(vcg));
                        assert(stack_lookup(final(self).stack@, *key) == Some(vcg));
                        assert(cloned(*val, vcg) && final(self).stack@.last()@ == top0.update(
                            p,
                            (top0[p].0, vcg),
                        ) && stack_lookup(final(self).stack@, *key) == Some(vcg));
                    }
                }
                return ;
            }
            i += 1;
        }
        let kc = key.clone();
        let vc = val.clone();
        let ghost kcg = kc;
        let ghost vcg = vc;
        self.stack[top].push((kc, vc));
        proof {
            assert(final(self).stack@.drop_last() =~= old(self).stack@.drop_last());
            if K::obeys_eq_spec() {
                let top0 = old(self).stack@.last()@;
                lemma_scope_match_index::<K, V>(top0, *key);
                let p = scope_match_index(top0, *key);
                assert(p == -1) by {
                    if p != -1 {
                        assert(!top0[p].0.eq_spec(key));
                    }
                }
                assert(final(self).stack@.last()@ =~= top0.push((kcg, vcg)));
                assert(cloned(*key, kcg) && cloned(*val, vcg) && final(self).stack@.last()@
                    == top0.push((kcg, vcg)));
            }
        }
    }

    /// All the bindings, flattened into one map; inner scopes win over
    /// outer ones, later bindings of a scope over earlier ones.
    pub fn flatten(&self) -> (r: HashMap<K, V>)
    {
        let mut map: HashMap<K, V> = HashMap::new();
        let nscopes = self.stack.len();
        let mut s: usize = 0;
        while s < nscopes
            invariant
                nscopes == self.stack@.len(),
                s <= nscopes,
            decreases nscopes - s,
        {
            let n = self.stack[s].len();
            let mut i: usize = 0;
            while i < n
                invariant
                    s < nscopes,
                    nscopes == self.stack@.len(),
                    n == self.stack@[s as int]@.len(),
                    i <= n,
                decreases n - i,
            {
                let pair = &self.stack[s][i];
                map.insert(pair.0.clone(), pair.1.clone());
                i += 1;
            }
            s += 1;
        }
        map
    }

    /// Look `key` up, innermost scope first.
    pub fn get(&self, key: &K) -> (r: Option<V>)
        ensures
            K::obeys_eq_spec() ==> match stack_lookup(self.stack@, *key) {
                Option::None => r is None,
                Option::Some(v) => r matches Some(rv) && cloned(v, rv),
            },
    {
        proof {
            assert(self.stack@.take(self.stack@.len() as int) =~= self.stack@);
        }
        // For each scope, from the innermost outwards:
        let mut s = self.stack.len();
        while s > 0
            invariant
                s <= self.stack@.len(),
                K::obeys_eq_spec() ==> stack_lookup(self.stack@, *key) == stack_lookup(
                    self.stack@.take(s as int),
                    *key,
                ),
            decreases s,
        {
            s -= 1;
            let ghost scope_full = self.stack@[s as int]@;
            proof {
                assert(scope_full.skip(0) =~= scope_full);
            }
            let n = self.stack[s].len();
            let mut i: usize = 0;
            while i < n
                invariant
                    s < self.stack@.len(),
                    scope_full == self.stack@[s as int]@,
                    n == scope_full.len(),
                    i <= n,
                    K::obeys_eq_spec() ==> scope_lookup(scope_full, *key) == scope_lookup(
                        scope_full.skip(i as int),
                        *key,
                    ),
                    K::obeys_eq_spec() ==> stack_lookup(self.stack@, *key) == stack_lookup(
                        self.stack@.take(s as int + 1),
                        *key,
                    ),
                decreases n - i,
            {
                let eq = self.stack[s][i].0 == *key;
                proof {
                    if K::obeys_eq_spec() {
                        let tail = scope_full.skip(i as int);
                        assert(tail.first() == scope_full[i as int]);
                        assert(tail.drop_first() =~= scope_full.skip(i + 1));
                    }
                }
                if eq {
                    proof {
                        if K::obeys_eq_spec() {
                            let tail = scope_full.skip(i as int);
                            assert(tail.first() == scope_full[i as int]);
                            assert(tail.first().0.eq_spec(&*key));
                            assert(scope_lookup(tail, *key) == Some(tail.first().1));
                            assert(scope_lookup(scope_full, *key) == Some(scope_full[i as int].1));
                            let taken = self.stack@.take(s + 1);
                            assert(taken.last()@ == scope_full);
                            assert(stack_lookup(self.stack@, *key) == Some(
                                scope_full[i as int].1,
                            ));
                        }
                    }
                    return Some(self.stack[s][i].1.clone());
                }
                i += 1;
            }
            proof {
                if K::obeys_eq_spec() {
                    assert(scope_full.skip(n as int) =~= Seq::<(K, V)>::empty());
                    assert(scope_lookup(scope_full, *key) is None);
                    let taken = self.stack@.take(s + 1);
                    assert(taken.last()@ == scope_full);
                    assert(taken.drop_last() =~= self.stack@.take(s as int));
                }
            }
        }
        proof {
            if K::obeys_eq_spec() {
                assert(self.stack@.take(0) =~= Seq::<Vec<(K, V)>>::empty());
            }
        }
        None
    }

    /// Whether some scope binds `key`.
    pub fn has(&self, key: &K) -> (r: bool)
        ensures
            K::obeys_eq_spec() ==> r == (stack_lookup(self.stack@, *key) is Some),
    {
        matches!(self.get(key), Some(_))
    }
}

impl<K: PartialEq + PartialEqSpec + Clone + Hash + Eq, V: Clone> Default for ScopedMap<K, V> {
    fn default() -> (r: Self)
        ensures
            r.stack@.len() == 0,
    {
        Self::new()
    }
}

} // verus!
