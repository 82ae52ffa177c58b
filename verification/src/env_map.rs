//! The key/value mapping view of an env file: a vector of pairs with
//! pairwise-distinct keys, kept in insertion order so iteration is
//! deterministic. Contracts speak of two models: the ordered pair sequence
//! (`seq_view`) and the mathematical map it denotes (`map_view`).

use vstd::prelude::*;
use crate::bytes::{bytes_eq, copy_bytes};

verus! {

/// Whether some pair in `s` has key `k`.
pub open spec fn key_in(s: Seq<(Seq<u8>, Seq<u8>)>, k: Seq<u8>) -> bool {
    exists|i: int| 0 <= i < s.len() && (#[trigger] s[i]).0 == k
}

/// The value paired with `k`; the last pair with that key wins.
pub open spec fn val_at(s: Seq<(Seq<u8>, Seq<u8>)>, k: Seq<u8>) -> Seq<u8>
    decreases s.len(),
{
    if s.len() == 0 {
        Seq::empty()
    } else if s.last().0 == k {
        s.last().1
    } else {
        val_at(s.drop_last(), k)
    }
}

pub open spec fn distinct_keys(s: Seq<(Seq<u8>, Seq<u8>)>) -> bool {
    forall|i: int, j: int| 0 <= i < j < s.len() ==> (#[trigger] s[i]).0 != (#[trigger] s[j]).0
}

/// The map denoted by a pair sequence.
pub open spec fn map_of(s: Seq<(Seq<u8>, Seq<u8>)>) -> Map<Seq<u8>, Seq<u8>> {
    Map::new(|k: Seq<u8>| key_in(s, k), |k: Seq<u8>| val_at(s, k))
}

/// Every pair whose key is `k` gets the value `v`; order is untouched.
pub open spec fn replace_key(s: Seq<(Seq<u8>, Seq<u8>)>, k: Seq<u8>, v: Seq<u8>) -> Seq<(Seq<u8>, Seq<u8>)> {
    s.map_values(|q: (Seq<u8>, Seq<u8>)| if q.0 == k { (q.0, v) } else { q })
}

/// Inserting a pair: replace in place if the key is present, else append.
pub open spec fn insert_pair(s: Seq<(Seq<u8>, Seq<u8>)>, p: (Seq<u8>, Seq<u8>)) -> Seq<(Seq<u8>, Seq<u8>)> {
    if key_in(s, p.0) {
        replace_key(s, p.0, p.1)
    } else {
        s.push(p)
    }
}

/// Merging one pair: append if absent; if present, replace only when
/// `overwrite` is set.
pub open spec fn merge_pair(s: Seq<(Seq<u8>, Seq<u8>)>, p: (Seq<u8>, Seq<u8>), overwrite: bool) -> Seq<(Seq<u8>, Seq<u8>)> {
    if !key_in(s, p.0) {
        s.push(p)
    } else if overwrite {
        replace_key(s, p.0, p.1)
    } else {
        s
    }
}

/// Merging the pairs of `b` into `a`, left to right.
pub open spec fn merge_seq(a: Seq<(Seq<u8>, Seq<u8>)>, b: Seq<(Seq<u8>, Seq<u8>)>, overwrite: bool) -> Seq<(Seq<u8>, Seq<u8>)>
    decreases b.len(),
{
    if b.len() == 0 {
        a
    } else {
        merge_pair(merge_seq(a, b.drop_last(), overwrite), b.last(), overwrite)
    }
}

pub proof fn lemma_val_at(s: Seq<(Seq<u8>, Seq<u8>)>, i: int)
    requires
        distinct_keys(s),
        0 <= i < s.len(),
    ensures
        key_in(s, s[i].0),
        val_at(s, s[i].0) == s[i].1,
    decreases s.len(),
{
    if i == s.len() - 1 {
    } else {
        assert(distinct_keys(s.drop_last()));
        lemma_val_at(s.drop_last(), i);
        assert(s.drop_last()[i] == s[i]);
        assert(s.last().0 != s[i].0);
    }
}

pub proof fn lemma_replace_key(s: Seq<(Seq<u8>, Seq<u8>)>, k: Seq<u8>, v: Seq<u8>)
    requires
        distinct_keys(s),
    ensures
        distinct_keys(replace_key(s, k, v)),
        forall|k2: Seq<u8>| key_in(replace_key(s, k, v), k2) <==> key_in(s, k2),
        key_in(s, k) ==> val_at(replace_key(s, k, v), k) == v,
        forall|k2: Seq<u8>| k2 != k && key_in(s, k2)
            ==> val_at(replace_key(s, k, v), k2) == val_at(s, k2),
    decreases s.len(),
{
    let r = replace_key(s, k, v);
    assert(r.len() == s.len());
    assert forall|i: int| 0 <= i < s.len() implies (#[trigger] r[i]).0 == s[i].0 by {}
    assert forall|k2: Seq<u8>| key_in(r, k2) <==> key_in(s, k2) by {
        if key_in(r, k2) {
            let i = choose|i: int| 0 <= i < r.len() && (#[trigger] r[i]).0 == k2;
            assert(s[i].0 == k2);
        }
        if key_in(s, k2) {
            let i = choose|i: int| 0 <= i < s.len() && (#[trigger] s[i]).0 == k2;
            assert(r[i].0 == k2);
        }
    }
    if s.len() > 0 {
        assert(distinct_keys(s.drop_last()));
        lemma_replace_key(s.drop_last(), k, v);
        assert(r.drop_last() =~= replace_key(s.drop_last(), k, v));
        assert(r.last() == (if s.last().0 == k { (s.last().0, v) } else { s.last() }));
        if key_in(s, k) {
            if s.last().0 == k {
                assert(val_at(r, k) == v);
            } else {
                let i = choose|i: int| 0 <= i < s.len() && (#[trigger] s[i]).0 == k;
                assert(s.drop_last()[i] == s[i]);
                assert(key_in(s.drop_last(), k));
                assert(val_at(r, k) == val_at(r.drop_last(), k));
            }
        }
        assert forall|k2: Seq<u8>| k2 != k && key_in(s, k2)
            implies val_at(r, k2) == val_at(s, k2) by {
            if s.last().0 == k2 {
                assert(r.last() == (if k2 == k { (s.last().0, v) } else { s.last() }));
                assert(val_at(r, k2) == s.last().1);
            } else {
                let i = choose|i: int| 0 <= i < s.len() && (#[trigger] s[i]).0 == k2;
                assert(s.drop_last()[i] == s[i]);
                assert(key_in(s.drop_last(), k2));
                assert(val_at(r, k2) == val_at(r.drop_last(), k2));
                assert(val_at(s, k2) == val_at(s.drop_last(), k2));
            }
        }
    }
}

pub proof fn lemma_insert_pair(s: Seq<(Seq<u8>, Seq<u8>)>, p: (Seq<u8>, Seq<u8>))
    requires
        distinct_keys(s),
    ensures
        distinct_keys(insert_pair(s, p)),
        forall|k: Seq<u8>| key_in(insert_pair(s, p), k) <==> key_in(s, k) || k == p.0,
        val_at(insert_pair(s, p), p.0) == p.1,
        forall|k: Seq<u8>| k != p.0 && key_in(s, k) ==> val_at(insert_pair(s, p), k) == val_at(s, k),
        map_of(insert_pair(s, p)) == map_of(s).insert(p.0, p.1),
{
    let r = insert_pair(s, p);
    if key_in(s, p.0) {
        lemma_replace_key(s, p.0, p.1);
    } else {
        assert(r == s.push(p));
        assert(r.drop_last() =~= s);
        assert(r.last() == p);
        assert forall|k: Seq<u8>| key_in(r, k) <==> key_in(s, k) || k == p.0 by {
            if key_in(r, k) {
                let i = choose|i: int| 0 <= i < r.len() && (#[trigger] r[i]).0 == k;
                if i < s.len() {
                    assert(s[i].0 == k);
                } else {
                    assert(k == p.0);
                }
            }
            if key_in(s, k) {
                let i = choose|i: int| 0 <= i < s.len() && (#[trigger] s[i]).0 == k;
                assert(r[i].0 == k);
            }
            if k == p.0 {
                assert(r[s.len() as int].0 == k);
            }
        }
        assert(distinct_keys(r)) by {
            assert forall|i: int, j: int| 0 <= i < j < r.len() implies (#[trigger] r[i]).0 != (#[trigger] r[j]).0 by {
                if j == s.len() {
                    assert(r[i] == s[i]);
                    assert(!key_in(s, p.0));
                    assert(0 <= i < s.len() && s[i].0 == s[i].0);
                }
            }
        }
        assert(val_at(r, p.0) == p.1);
        assert forall|k: Seq<u8>| k != p.0 && key_in(s, k) implies val_at(r, k) == val_at(s, k) by {
            assert(val_at(r, k) == val_at(r.drop_last(), k));
        }
    }
    assert(map_of(insert_pair(s, p)) =~= map_of(s).insert(p.0, p.1));
}

pub proof fn lemma_merge_pair(s: Seq<(Seq<u8>, Seq<u8>)>, p: (Seq<u8>, Seq<u8>), overwrite: bool)
    requires
        distinct_keys(s),
    ensures
        distinct_keys(merge_pair(s, p, overwrite)),
        forall|k: Seq<u8>| key_in(merge_pair(s, p, overwrite), k) <==> key_in(s, k) || k == p.0,
        (overwrite || !key_in(s, p.0)) ==> val_at(merge_pair(s, p, overwrite), p.0) == p.1,
        (!overwrite && key_in(s, p.0)) ==> merge_pair(s, p, overwrite) == s,
        forall|k: Seq<u8>| k != p.0 && key_in(s, k)
            ==> val_at(merge_pair(s, p, overwrite), k) == val_at(s, k),
{
    if !key_in(s, p.0) || overwrite {
        lemma_insert_pair(s, p);
        assert(merge_pair(s, p, overwrite) == insert_pair(s, p));
    }
}

pub proof fn lemma_merge_seq(a: Seq<(Seq<u8>, Seq<u8>)>, b: Seq<(Seq<u8>, Seq<u8>)>, overwrite: bool)
    requires
        distinct_keys(a),
        distinct_keys(b),
    ensures
        distinct_keys(merge_seq(a, b, overwrite)),
        forall|k: Seq<u8>| key_in(merge_seq(a, b, overwrite), k) <==> key_in(a, k) || key_in(b, k),
        forall|k: Seq<u8>| key_in(b, k) && (overwrite || !key_in(a, k))
            ==> val_at(merge_seq(a, b, overwrite), k) == val_at(b, k),
        forall|k: Seq<u8>| key_in(a, k) && !(overwrite && key_in(b, k))
            ==> val_at(merge_seq(a, b, overwrite), k) == val_at(a, k),
    decreases b.len(),
{
    if b.len() == 0 {
    } else {
        let b0 = b.drop_last();
        let p = b.last();
        assert(distinct_keys(b0));
        lemma_merge_seq(a, b0, overwrite);
        let m0 = merge_seq(a, b0, overwrite);
        lemma_merge_pair(m0, p, overwrite);
        let m = merge_seq(a, b, overwrite);
        assert(m == merge_pair(m0, p, overwrite));
        assert(!key_in(b0, p.0)) by {
            if key_in(b0, p.0) {
                let i = choose|i: int| 0 <= i < b0.len() && (#[trigger] b0[i]).0 == p.0;
                assert(b[i] == b0[i]);
                assert(b[i].0 == b[b.len() - 1].0);
            }
        }
        assert forall|k: Seq<u8>| key_in(b, k) <==> key_in(b0, k) || k == p.0 by {
            if key_in(b, k) {
                let i = choose|i: int| 0 <= i < b.len() && (#[trigger] b[i]).0 == k;
                if i < b0.len() {
                    assert(b0[i].0 == k);
                } else {
                    assert(k == p.0);
                }
            }
            if key_in(b0, k) {
                let i = choose|i: int| 0 <= i < b0.len() && (#[trigger] b0[i]).0 == k;
                assert(b[i].0 == k);
            }
            if k == p.0 {
                assert(b[b.len() - 1].0 == k);
            }
        }
        assert forall|k: Seq<u8>| key_in(b, k) && (overwrite || !key_in(a, k))
            implies val_at(m, k) == val_at(b, k) by {
            if k == p.0 {
                assert(val_at(b, k) == p.1);
                if overwrite {
                    assert(val_at(m, k) == p.1);
                } else {
                    assert(!key_in(a, k));
                    assert(!key_in(m0, p.0));
                    assert(val_at(m, k) == p.1);
                }
            } else {
                assert(key_in(b0, k));
                assert(val_at(b, k) == val_at(b0, k));
                assert(key_in(m0, k));
                assert(val_at(m, k) == val_at(m0, k));
            }
        }
        assert forall|k: Seq<u8>| key_in(a, k) && !(overwrite && key_in(b, k))
            implies val_at(m, k) == val_at(a, k) by {
            if k == p.0 {
                assert(!overwrite);
                assert(key_in(m0, p.0));
                assert(m == m0);
            } else {
                assert(key_in(m0, k));
                assert(val_at(m, k) == val_at(m0, k));
                assert(!(overwrite && key_in(b0, k)));
            }
        }
    }
}

/// An ordered key/value mapping with distinct keys; the working snapshot a
/// caller mutates before rendering it back into a document.
pub struct EnvMap {
    pub pairs: Vec<(Vec<u8>, Vec<u8>)>,
}

impl EnvMap {
    /// The pair sequence in iteration order.
    pub open spec fn seq_view(self) -> Seq<(Seq<u8>, Seq<u8>)> {
        self.pairs@.map_values(|p: (Vec<u8>, Vec<u8>)| (p.0@, p.1@))
    }

    /// The map the pairs denote.
    pub open spec fn map_view(self) -> Map<Seq<u8>, Seq<u8>> {
        map_of(self.seq_view())
    }

    pub open spec fn wf(self) -> bool {
        distinct_keys(self.seq_view())
    }

    pub fn new() -> (r: EnvMap)
        ensures
            r.wf(),
            r.seq_view() == Seq::<(Seq<u8>, Seq<u8>)>::empty(),
            r.map_view() == Map::<Seq<u8>, Seq<u8>>::empty(),
    {
        let r = EnvMap { pairs: Vec::new() };
        proof {
            assert(r.seq_view() =~= Seq::<(Seq<u8>, Seq<u8>)>::empty());
            assert(r.map_view() =~= Map::<Seq<u8>, Seq<u8>>::empty());
        }
        r
    }

    pub fn len(&self) -> (r: usize)
        ensures
            r == self.seq_view().len(),
    {
        self.pairs.len()
    }

    pub fn key_at(&self, i: usize) -> (r: &Vec<u8>)
        requires
            i < self.seq_view().len(),
        ensures
            r@ == self.seq_view()[i as int].0,
    {
        &self.pairs[i].0
    }

    pub fn value_at(&self, i: usize) -> (r: &Vec<u8>)
        requires
            i < self.seq_view().len(),
        ensures
            r@ == self.seq_view()[i as int].1,
    {
        &self.pairs[i].1
    }

    fn index_of(&self, k: &Vec<u8>) -> (r: Option<usize>)
        ensures
            match r {
                Some(i) => i < self.seq_view().len() && self.seq_view()[i as int].0 == k@,
                None => !key_in(self.seq_view(), k@),
            },
    {
        let mut i: usize = 0;
        while i < self.pairs.len()
            invariant
                i <= self.seq_view().len(),
                forall|t: int| 0 <= t < i ==> (#[trigger] self.seq_view()[t]).0 != k@,
            decreases self.seq_view().len() - i,
        {
            if bytes_eq(&self.pairs[i].0, k) {
                return Some(i);
            }
            i = i + 1;
        }
        None
    }

    pub fn contains(&self, k: &Vec<u8>) -> (r: bool)
        ensures
            r == self.map_view().contains_key(k@),
    {
        self.index_of(k).is_some()
    }

    /// The current value for `k`, if any.
    pub fn get(&self, k: &Vec<u8>) -> (r: Option<&Vec<u8>>)
        requires
            self.wf(),
        ensures
            match r {
                Some(v) => self.map_view().contains_key(k@) && v@ == self.map_view()[k@],
                None => !self.map_view().contains_key(k@),
            },
    {
        match self.index_of(k) {
            Some(i) => {
                proof {
                    lemma_val_at(self.seq_view(), i as int);
                }
                Some(&self.pairs[i].1)
            }
            None => None,
        }
    }

    /// Sets `k` to `v`: replaces the value in place if the key is present
    /// (keeping its position), else appends the pair.
    pub fn insert(&mut self, k: Vec<u8>, v: Vec<u8>)
        requires
            old(self).wf(),
        ensures
            final(self).wf(),
            final(self).seq_view() == insert_pair(old(self).seq_view(), (k@, v@)),
            final(self).map_view() == old(self).map_view().insert(k@, v@),
    {
        proof {
            lemma_insert_pair(old(self).seq_view(), (k@, v@));
        }
        match self.index_of(&k) {
            Some(i) => {
                self.pairs.set(i, (k, v));
                proof {
                    assert forall|t: int| 0 <= t < old(self).seq_view().len() && t != i
                        implies (#[trigger] old(self).seq_view()[t]).0 != k@ by {}
                    assert(self.seq_view() =~= replace_key(old(self).seq_view(), k@, v@));
                }
            }
            None => {
                self.pairs.push((k, v));
                proof {
                    assert(self.seq_view() =~= old(self).seq_view().push((k@, v@)));
                }
            }
        }
    }

    /// A deep copy.
    pub fn duplicate(&self) -> (r: EnvMap)
        ensures
            r.seq_view() == self.seq_view(),
    {
        let mut pairs: Vec<(Vec<u8>, Vec<u8>)> = Vec::new();
        let mut i: usize = 0;
        while i < self.pairs.len()
            invariant
                i <= self.pairs@.len(),
                pairs@.len() == i,
                forall|t: int| 0 <= t < i
                    ==> (#[trigger] pairs@[t]).0@ == self.pairs@[t].0@
                        && pairs@[t].1@ == self.pairs@[t].1@,
            decreases self.pairs@.len() - i,
        {
            let k = copy_bytes(&self.pairs[i].0);
            let v = copy_bytes(&self.pairs[i].1);
            pairs.push((k, v));
            i = i + 1;
        }
        let r = EnvMap { pairs };
        proof {
            assert(r.seq_view() =~= self.seq_view());
        }
        r
    }

    /// Merges `src` into `self`: absent keys are added; present keys are
    /// overwritten only when `overwrite` is set; keys of `self` are never
    /// removed; order stays stable.
    #[verifier::loop_isolation(false)]
    pub fn merge_from(&mut self, src: &EnvMap, overwrite: bool)
        requires
            old(self).wf(),
            src.wf(),
        ensures
            final(self).wf(),
            final(self).seq_view() == merge_seq(old(self).seq_view(), src.seq_view(), overwrite),
            forall|k: Seq<u8>| #[trigger] final(self).map_view().contains_key(k)
                <==> old(self).map_view().contains_key(k) || src.map_view().contains_key(k),
            forall|k: Seq<u8>| src.map_view().contains_key(k)
                && (overwrite || !old(self).map_view().contains_key(k))
                ==> #[trigger] final(self).map_view()[k] == src.map_view()[k],
            forall|k: Seq<u8>| old(self).map_view().contains_key(k)
                && !(overwrite && src.map_view().contains_key(k))
                ==> #[trigger] final(self).map_view()[k] == old(self).map_view()[k],
    {
        let ghost orig = old(self).seq_view();
        let mut i: usize = 0;
        while i < src.pairs.len()
            invariant
                i <= src.seq_view().len(),
                self.wf(),
                self.seq_view() == merge_seq(orig, src.seq_view().take(i as int), overwrite),
            decreases src.seq_view().len() - i,
        {
            let k = copy_bytes(&src.pairs[i].0);
            let v = copy_bytes(&src.pairs[i].1);
            proof {
                assert(src.seq_view().take(i + 1).drop_last() =~= src.seq_view().take(i as int));
                assert(src.seq_view().take(i + 1).last() == src.seq_view()[i as int]);
            }
            let ghost before = self.seq_view();
            if overwrite {
                self.insert(k, v);
                proof {
                    assert(self.seq_view() == merge_pair(before, (src.seq_view()[i as int].0, src.seq_view()[i as int].1), overwrite));
                }
            } else {
                if !self.contains(&k) {
                    self.insert(k, v);
                }
                proof {
                    assert(self.seq_view() == merge_pair(before, (src.seq_view()[i as int].0, src.seq_view()[i as int].1), overwrite));
                }
            }
            i = i + 1;
        }
        proof {
            assert(src.seq_view().take(src.seq_view().len() as int) =~= src.seq_view());
            lemma_merge_seq(orig, src.seq_view(), overwrite);
        }
    }
}

} // verus!
