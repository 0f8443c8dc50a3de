//! Small verified collections used by the store: an association table keyed by
//! `u64` and a set of `u64` identifiers, both backed by vectors.

use vstd::prelude::*;

verus! {

/// The map described by a sequence of key/value pairs; later pairs win.
pub closed spec fn pairs_to_map<V>(s: Seq<(u64, V)>) -> Map<u64, V>
    decreases s.len(),
{
    if s.len() == 0 {
        Map::empty()
    } else {
        pairs_to_map(s.drop_last()).insert(s.last().0, s.last().1)
    }
}

/// The keys of a sequence of pairs, in order.
pub open spec fn keys_of<V>(s: Seq<(u64, V)>) -> Seq<u64> {
    Seq::new(s.len(), |i: int| s[i].0)
}

proof fn lemma_ptm_dom<V>(s: Seq<(u64, V)>)
    ensures
        pairs_to_map(s).dom() =~= keys_of(s).to_set(),
    decreases s.len(),
{
    if s.len() > 0 {
        lemma_ptm_dom(s.drop_last());
        assert forall|k: u64| #[trigger] keys_of(s).to_set().contains(k)
            <==> pairs_to_map(s).dom().contains(k) by {
            if keys_of(s).to_set().contains(k) {
                let i = choose|i: int| 0 <= i < s.len() && keys_of(s)[i] == k;
                if i < s.len() - 1 {
                    assert(keys_of(s.drop_last())[i] == k);
                    assert(keys_of(s.drop_last()).to_set().contains(k));
                }
            }
            if pairs_to_map(s).dom().contains(k) {
                if k == s.last().0 {
                    assert(keys_of(s)[s.len() - 1] == k);
                } else {
                    let i = choose|i: int|
                        0 <= i < s.len() - 1 && keys_of(s.drop_last())[i] == k;
                    assert(keys_of(s)[i] == k);
                }
            }
        }
    }
}

proof fn lemma_ptm_index<V>(s: Seq<(u64, V)>, i: int)
    requires
        keys_of(s).no_duplicates(),
        0 <= i < s.len(),
    ensures
        pairs_to_map(s).contains_key(s[i].0),
        pairs_to_map(s)[s[i].0] == s[i].1,
    decreases s.len(),
{
    lemma_ptm_dom(s);
    assert(keys_of(s)[i] == s[i].0);
    if i < s.len() - 1 {
        assert(keys_of(s.drop_last()).no_duplicates()) by {
            assert forall|p: int, q: int|
                0 <= p < q < keys_of(s.drop_last()).len() implies keys_of(s.drop_last())[p]
                != keys_of(s.drop_last())[q] by {
                assert(keys_of(s)[p] == keys_of(s.drop_last())[p]);
                assert(keys_of(s)[q] == keys_of(s.drop_last())[q]);
            }
        }
        lemma_ptm_index(s.drop_last(), i);
        assert(s.drop_last()[i] == s[i]);
        assert(keys_of(s)[i] != keys_of(s)[s.len() - 1]);
    }
}

proof fn lemma_ptm_update<V>(s: Seq<(u64, V)>, i: int)
    requires
        keys_of(s).no_duplicates(),
        0 <= i < s.len(),
    ensures
        forall|v: V|
            pairs_to_map(#[trigger] s.update(i, (s[i].0, v))) =~= pairs_to_map(s).insert(
                s[i].0,
                v,
            ),
    decreases s.len(),
{
    assert forall|v: V|
        pairs_to_map(#[trigger] s.update(i, (s[i].0, v))) =~= pairs_to_map(s).insert(
            s[i].0,
            v,
        ) by {
        let su = s.update(i, (s[i].0, v));
        if i == s.len() - 1 {
            assert(su.drop_last() =~= s.drop_last());
        } else {
            assert(keys_of(s.drop_last()).no_duplicates()) by {
                assert forall|p: int, q: int|
                    0 <= p < q < keys_of(s.drop_last()).len() implies keys_of(
                    s.drop_last(),
                )[p] != keys_of(s.drop_last())[q] by {
                    assert(keys_of(s)[p] == keys_of(s.drop_last())[p]);
                    assert(keys_of(s)[q] == keys_of(s.drop_last())[q]);
                }
            }
            lemma_ptm_update(s.drop_last(), i);
            assert(su.drop_last() =~= s.drop_last().update(i, (s[i].0, v)));
            assert(s.drop_last()[i] == s[i]);
            assert(su.last() == s.last());
            assert(keys_of(s)[i] != keys_of(s)[s.len() - 1]);
        }
    }
}

proof fn lemma_ptm_remove<V>(s: Seq<(u64, V)>, i: int)
    requires
        keys_of(s).no_duplicates(),
        0 <= i < s.len(),
    ensures
        pairs_to_map(s.remove(i)) =~= pairs_to_map(s).remove(s[i].0),
    decreases s.len(),
{
    lemma_ptm_dom(s);
    lemma_ptm_dom(s.remove(i));
    assert(keys_of(s.drop_last()).no_duplicates()) by {
        assert forall|p: int, q: int|
            0 <= p < q < keys_of(s.drop_last()).len() implies keys_of(s.drop_last())[p]
            != keys_of(s.drop_last())[q] by {
            assert(keys_of(s)[p] == keys_of(s.drop_last())[p]);
            assert(keys_of(s)[q] == keys_of(s.drop_last())[q]);
        }
    }
    if i == s.len() - 1 {
        assert(s.remove(i) =~= s.drop_last());
        lemma_ptm_dom(s.drop_last());
        assert(!keys_of(s.drop_last()).to_set().contains(s[i].0)) by {
            if keys_of(s.drop_last()).to_set().contains(s[i].0) {
                let j = choose|j: int|
                    0 <= j < s.len() - 1 && keys_of(s.drop_last())[j] == s[i].0;
                assert(keys_of(s)[j] == keys_of(s)[i]);
            }
        }
    } else {
        lemma_ptm_remove(s.drop_last(), i);
        assert(s.remove(i).drop_last() =~= s.drop_last().remove(i));
        assert(s.remove(i).last() == s.last());
        assert(s.drop_last()[i] == s[i]);
        assert(keys_of(s)[i] != keys_of(s)[s.len() - 1]);
    }
}

proof fn lemma_ptm_len<V>(s: Seq<(u64, V)>)
    requires
        keys_of(s).no_duplicates(),
    ensures
        pairs_to_map(s).dom().finite(),
        pairs_to_map(s).dom().len() == s.len(),
    decreases s.len(),
{
    lemma_ptm_dom(s);
    if s.len() > 0 {
        assert(keys_of(s.drop_last()).no_duplicates()) by {
            assert forall|p: int, q: int|
                0 <= p < q < keys_of(s.drop_last()).len() implies keys_of(s.drop_last())[p]
                != keys_of(s.drop_last())[q] by {
                assert(keys_of(s)[p] == keys_of(s.drop_last())[p]);
                assert(keys_of(s)[q] == keys_of(s.drop_last())[q]);
            }
        }
        lemma_ptm_len(s.drop_last());
        lemma_ptm_dom(s.drop_last());
        assert(!keys_of(s.drop_last()).to_set().contains(s.last().0)) by {
            if keys_of(s.drop_last()).to_set().contains(s.last().0) {
                let j = choose|j: int|
                    0 <= j < s.len() - 1 && keys_of(s.drop_last())[j] == s.last().0;
                assert(keys_of(s)[j] == keys_of(s)[s.len() - 1]);
            }
        }
    }
}

/// An association table keyed by `u64` identifiers, stored as a vector of
/// pairs in insertion order with no duplicated key. Its mathematical view is
/// the corresponding finite `Map<u64, V>`.
pub struct Table<V> {
    entries: Vec<(u64, V)>,
}

impl<V> View for Table<V> {
    type V = Map<u64, V>;

    closed spec fn view(&self) -> Map<u64, V> {
        pairs_to_map(self.entries@)
    }
}

impl<V> Table<V> {
    /// The stored pairs, in insertion order.
    pub closed spec fn pairs(self) -> Seq<(u64, V)> {
        self.entries@
    }

    /// The stored keys, in insertion order.
    pub open spec fn key_seq(self) -> Seq<u64> {
        keys_of(self.pairs())
    }

    /// Well-formedness: no key occurs twice.
    pub open spec fn wf(self) -> bool {
        self.key_seq().no_duplicates()
    }

    /// Links the pair sequence with the map view.
    pub proof fn lemma_pairs(self)
        requires
            self.wf(),
        ensures
            self@.dom() =~= self.key_seq().to_set(),
            forall|i: int|
                0 <= i < self.pairs().len() ==> self@.contains_key(#[trigger] self.pairs()[i].0)
                    && self@[self.pairs()[i].0] == self.pairs()[i].1
                    && self.key_seq()[i] == self.pairs()[i].0,
            self@.dom().finite(),
            self@.dom().len() == self.pairs().len(),
    {
        lemma_ptm_dom(self.pairs());
        lemma_ptm_len(self.pairs());
        assert forall|i: int| 0 <= i < self.pairs().len() implies self@.contains_key(
            #[trigger] self.pairs()[i].0,
        ) && self@[self.pairs()[i].0] == self.pairs()[i].1 && self.key_seq()[i]
            == self.pairs()[i].0 by {
            lemma_ptm_index(self.pairs(), i);
        }
    }

    /// A key is in the map exactly when it occurs in the key sequence.
    pub proof fn lemma_dom(self)
        ensures
            forall|k: u64| self@.contains_key(k) <==> self.key_seq().contains(k),
            self@.dom() =~= self.key_seq().to_set(),
    {
        lemma_ptm_dom(self.pairs());
        assert forall|k: u64| self@.contains_key(k) <==> self.key_seq().contains(k) by {
            assert(self.key_seq().to_set().contains(k) <==> self.key_seq().contains(k));
        }
    }

    pub fn new() -> (r: Table<V>)
        ensures
            r.wf(),
            r@ =~= Map::<u64, V>::empty(),
            r.pairs() == Seq::<(u64, V)>::empty(),
    {
        Table { entries: Vec::new() }
    }

    pub fn len(&self) -> (r: usize)
        ensures
            r == self.pairs().len(),
    {
        self.entries.len()
    }

    pub fn is_empty(&self) -> (r: bool)
        ensures
            r == (self.pairs().len() == 0),
            r == (self@ =~= Map::<u64, V>::empty()),
    {
        proof {
            lemma_ptm_dom(self.pairs());
            if self.pairs().len() > 0 {
                assert(self.key_seq()[0] == self.pairs()[0].0);
                assert(self@.contains_key(self.pairs()[0].0));
            }
        }
        self.entries.len() == 0
    }

    fn index_of(&self, k: u64) -> (r: Option<usize>)
        ensures
            match r {
                Some(i) => i < self.pairs().len() && self.pairs()[i as int].0 == k,
                None => !self@.contains_key(k),
            },
    {
        let n = self.entries.len();
        let mut i: usize = 0;
        while i < n
            invariant
                n == self.pairs().len(),
                i <= n,
                forall|j: int| 0 <= j < i ==> self.pairs()[j].0 != k,
            decreases n - i,
        {
            if self.entries[i].0 == k {
                return Some(i);
            }
            i = i + 1;
        }
        proof {
            lemma_ptm_dom(self.pairs());
            if self@.contains_key(k) {
                let j = choose|j: int| 0 <= j < self.pairs().len() && self.key_seq()[j] == k;
                assert(self.pairs()[j].0 == k);
            }
        }
        None
    }

    pub fn contains_key(&self, k: u64) -> (r: bool)
        ensures
            r == self@.contains_key(k),
    {
        proof {
            lemma_ptm_dom(self.pairs());
        }
        match self.index_of(k) {
            Some(i) => {
                proof {
                    assert(self.key_seq()[i as int] == k);
                }
                true
            },
            None => false,
        }
    }

    pub fn get(&self, k: u64) -> (r: Option<&V>)
        requires
            self.wf(),
        ensures
            match r {
                Some(v) => self@.contains_key(k) && *v == self@[k],
                None => !self@.contains_key(k),
            },
    {
        match self.index_of(k) {
            Some(i) => {
                proof {
                    lemma_ptm_index(self.pairs(), i as int);
                }
                Some(&self.entries[i].1)
            },
            None => None,
        }
    }

    pub fn insert(&mut self, k: u64, v: V)
        requires
            old(self).wf(),
        ensures
            final(self).wf(),
            final(self)@ =~= old(self)@.insert(k, v),
            old(self)@.contains_key(k) ==> final(self).key_seq() == old(self).key_seq(),
            !old(self)@.contains_key(k) ==> final(self).key_seq() == old(self).key_seq().push(
                k,
            ),
            final(self)@.dom() =~= old(self)@.dom().insert(k),
    {
        proof {
            lemma_ptm_dom(self.pairs());
        }
        match self.index_of(k) {
            Some(i) => {
                proof {
                    assert(self.key_seq()[i as int] == k);
                    lemma_ptm_update(self.pairs(), i as int);
                }
                self.entries[i] = (k, v);
                proof {
                    assert(self.key_seq() =~= old(self).key_seq());
                }
            },
            None => {
                self.entries.push((k, v));
                proof {
                    assert(self.pairs().drop_last() =~= old(self).pairs());
                    assert(self.key_seq() =~= old(self).key_seq().push(k));
                    assert(self.wf()) by {
                        if !self.key_seq().no_duplicates() {
                            let (p, q) = choose|p: int, q: int|
                                0 <= p < q < self.key_seq().len() && self.key_seq()[p]
                                    == self.key_seq()[q];
                            assert(q == self.key_seq().len() - 1);
                            assert(old(self).key_seq().contains(k));
                        }
                    }
                }
            },
        }
    }

    pub fn remove(&mut self, k: u64) -> (r: Option<V>)
        requires
            old(self).wf(),
        ensures
            final(self).wf(),
            final(self)@ =~= old(self)@.remove(k),
            final(self)@.dom() =~= old(self)@.dom().remove(k),
            match r {
                Some(v) => old(self)@.contains_key(k) && v == old(self)@[k],
                None => !old(self)@.contains_key(k) && final(self)@ =~= old(self)@
                    && *final(self) == *old(self),
            },
    {
        proof {
            lemma_ptm_dom(self.pairs());
        }
        match self.index_of(k) {
            Some(i) => {
                proof {
                    lemma_ptm_index(self.pairs(), i as int);
                    lemma_ptm_remove(self.pairs(), i as int);
                    assert(keys_of(old(self).pairs().remove(i as int)).no_duplicates()) by {
                        let sk = old(self).key_seq();
                        let rk = keys_of(old(self).pairs().remove(i as int));
                        assert forall|p: int, q: int| 0 <= p < q < rk.len() implies rk[p]
                            != rk[q] by {
                            let p0 = if p < i as int { p } else { p + 1 };
                            let q0 = if q < i as int { q } else { q + 1 };
                            assert(rk[p] == sk[p0]);
                            assert(rk[q] == sk[q0]);
                        }
                    }
                }
                let (_, v) = self.entries.remove(i);
                Some(v)
            },
            None => {
                proof {
                    assert(old(self)@.remove(k) =~= old(self)@);
                }
                None
            },
        }
    }

    /// All keys, in insertion order.
    pub fn keys(&self) -> (r: Vec<u64>)
        ensures
            r@ == self.key_seq(),
    {
        let n = self.entries.len();
        let mut r: Vec<u64> = Vec::new();
        let mut i: usize = 0;
        while i < n
            invariant
                n == self.pairs().len(),
                i <= n,
                r@ =~= self.key_seq().subrange(0, i as int),
            decreases n - i,
        {
            r.push(self.entries[i].0);
            proof {
                assert(r@ =~= self.key_seq().subrange(0, i + 1 as int));
            }
            i = i + 1;
        }
        proof {
            assert(r@ =~= self.key_seq());
        }
        r
    }

    pub fn key_at(&self, i: usize) -> (r: u64)
        requires
            i < self.pairs().len(),
        ensures
            r == self.pairs()[i as int].0,
    {
        self.entries[i].0
    }

    pub fn val_at(&self, i: usize) -> (r: &V)
        requires
            i < self.pairs().len(),
        ensures
            *r == self.pairs()[i as int].1,
    {
        &self.entries[i].1
    }
}

/// A set of `u64` identifiers, stored as a vector without duplicates.
/// Its mathematical view is the corresponding finite `Set<u64>`.
pub struct IdSet {
    ids: Vec<u64>,
}

impl View for IdSet {
    type V = Set<u64>;

    closed spec fn view(&self) -> Set<u64> {
        self.ids@.to_set()
    }
}

impl IdSet {
    /// The stored identifiers, in insertion order.
    pub closed spec fn seq(self) -> Seq<u64> {
        self.ids@
    }

    /// Well-formedness: no identifier occurs twice.
    pub open spec fn wf(self) -> bool {
        self.seq().no_duplicates()
    }

    pub proof fn lemma_view(self)
        ensures
            forall|x: u64| self@.contains(x) <==> self.seq().contains(x),
            self@.finite(),
            self.wf() ==> self@.len() == self.seq().len(),
    {
        broadcast use vstd::seq_lib::seq_to_set_is_finite;

        if self.wf() {
            self.seq().unique_seq_to_set();
        }
    }

    pub fn new() -> (r: IdSet)
        ensures
            r.wf(),
            r@ =~= Set::<u64>::empty(),
            r.seq() == Seq::<u64>::empty(),
    {
        IdSet { ids: Vec::new() }
    }

    pub fn len(&self) -> (r: usize)
        ensures
            r == self.seq().len(),
    {
        self.ids.len()
    }

    pub fn is_empty(&self) -> (r: bool)
        ensures
            r == (self.seq().len() == 0),
            r == (self@ =~= Set::<u64>::empty()),
    {
        proof {
            if self.seq().len() > 0 {
                assert(self@.contains(self.seq()[0]));
            }
            if self.seq().len() == 0 {
                assert forall|x: u64| !self@.contains(x) by {}
            }
        }
        self.ids.len() == 0
    }

    fn index_of(&self, x: u64) -> (r: Option<usize>)
        ensures
            match r {
                Some(i) => i < self.seq().len() && self.seq()[i as int] == x,
                None => !self.seq().contains(x) && !self@.contains(x),
            },
    {
        let n = self.ids.len();
        let mut i: usize = 0;
        while i < n
            invariant
                n == self.seq().len(),
                i <= n,
                forall|j: int| 0 <= j < i ==> self.seq()[j] != x,
            decreases n - i,
        {
            if self.ids[i] == x {
                return Some(i);
            }
            i = i + 1;
        }
        None
    }

    pub fn contains(&self, x: u64) -> (r: bool)
        ensures
            r == self@.contains(x),
            r == self.seq().contains(x),
    {
        match self.index_of(x) {
            Some(_) => true,
            None => false,
        }
    }

    /// Adds `x`; does nothing when it is already present.
    pub fn insert(&mut self, x: u64)
        requires
            old(self).wf(),
        ensures
            final(self).wf(),
            final(self)@ =~= old(self)@.insert(x),
            old(self)@.contains(x) ==> final(self).seq() == old(self).seq() && final(self)@
                =~= old(self)@,
            !old(self)@.contains(x) ==> final(self).seq() == old(self).seq().push(x),
    {
        if !self.contains(x) {
            self.ids.push(x);
            proof {
                assert(self.seq().drop_last() =~= old(self).seq());
                assert(self.wf()) by {
                    if !self.seq().no_duplicates() {
                        let (p, q) = choose|p: int, q: int|
                            0 <= p < q < self.seq().len() && self.seq()[p] == self.seq()[q];
                        assert(q == self.seq().len() - 1);
                        assert(old(self).seq().contains(x));
                    }
                }
                assert(self@ =~= old(self)@.insert(x)) by {
                    assert forall|y: u64| self@.contains(y) <==> old(self)@.insert(x).contains(
                        y,
                    ) by {
                        if self.seq().contains(y) {
                            let j = choose|j: int|
                                0 <= j < self.seq().len() && self.seq()[j] == y;
                            if j < self.seq().len() - 1 {
                                assert(old(self).seq()[j] == y);
                            }
                        }
                        if old(self).seq().contains(y) {
                            let j = choose|j: int|
                                0 <= j < old(self).seq().len() && old(self).seq()[j] == y;
                            assert(self.seq()[j] == y);
                        }
                        assert(self.seq()[self.seq().len() - 1] == x);
                    }
                }
            }
        } else {
            proof {
                assert(old(self)@.insert(x) =~= old(self)@);
            }
        }
    }

    /// Removes `x`; does nothing when it is absent.
    pub fn remove(&mut self, x: u64)
        requires
            old(self).wf(),
        ensures
            final(self).wf(),
            final(self)@ =~= old(self)@.remove(x),
            !old(self)@.contains(x) ==> final(self).seq() == old(self).seq() && *final(self)
                == *old(self),
    {
        match self.index_of(x) {
            Some(i) => {
                proof {
                    let s = old(self).seq();
                    let r = s.remove(i as int);
                    assert(r.no_duplicates()) by {
                        assert forall|p: int, q: int| 0 <= p < q < r.len() implies r[p]
                            != r[q] by {
                            let p0 = if p < i as int { p } else { p + 1 };
                            let q0 = if q < i as int { q } else { q + 1 };
                            assert(r[p] == s[p0]);
                            assert(r[q] == s[q0]);
                        }
                    }
                    assert(r.to_set() =~= s.to_set().remove(x)) by {
                        assert forall|y: u64| r.to_set().contains(y) <==> s.to_set().remove(
                            x,
                        ).contains(y) by {
                            if r.contains(y) {
                                let j = choose|j: int| 0 <= j < r.len() && r[j] == y;
                                let j0 = if j < i as int { j } else { j + 1 };
                                assert(s[j0] == y);
                                assert(y != x) by {
                                    if y == x {
                                        assert(s[i as int] == s[j0]);
                                    }
                                }
                            }
                            if s.contains(y) && y != x {
                                let j = choose|j: int| 0 <= j < s.len() && s[j] == y;
                                if j < i as int {
                                    assert(r[j] == y);
                                } else {
                                    assert(j > i as int);
                                    assert(r[j - 1] == y);
                                }
                            }
                        }
                    }
                }
                let _ = self.ids.remove(i);
            },
            None => {
                proof {
                    assert(old(self)@.remove(x) =~= old(self)@);
                }
            },
        }
    }

    /// All identifiers, in insertion order.
    pub fn to_vec(&self) -> (r: Vec<u64>)
        ensures
            r@ == self.seq(),
    {
        let n = self.ids.len();
        let mut r: Vec<u64> = Vec::new();
        let mut i: usize = 0;
        while i < n
            invariant
                n == self.seq().len(),
                i <= n,
                r@ =~= self.seq().subrange(0, i as int),
            decreases n - i,
        {
            r.push(self.ids[i]);
            proof {
                assert(r@ =~= self.seq().subrange(0, i + 1 as int));
            }
            i = i + 1;
        }
        proof {
            assert(r@ =~= self.seq());
        }
        r
    }

}

} // verus!
