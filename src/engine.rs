//! An ordered key-value engine: byte keys kept in lexicographic order, point
//! reads and writes, atomic batches, and positioned reads for forward and
//! backward scans.
use vstd::prelude::*;
use crate::order::{
    bytes_eq, bytes_lt, lemma_lex_asymmetric, lemma_lex_irreflexive, lemma_lex_le_transitive,
    lemma_lex_total, lemma_lex_transitive, lex_le, lex_lt,
};

verus! {

/// One stored key and its value.
pub struct KvPair {
    pub key: Vec<u8>,
    pub value: Vec<u8>,
}

/// One write of a batch.
pub enum BatchOp {
    Put { key: Vec<u8>, value: Vec<u8> },
    Delete { key: Vec<u8> },
}

pub open spec fn apply_op(m: Map<Seq<u8>, Seq<u8>>, op: BatchOp) -> Map<Seq<u8>, Seq<u8>> {
    match op {
        BatchOp::Put { key, value } => m.insert(key@, value@),
        BatchOp::Delete { key } => m.remove(key@),
    }
}

/// The contents after applying `ops` to `m`, first to last.
pub open spec fn apply_ops(m: Map<Seq<u8>, Seq<u8>>, ops: Seq<BatchOp>) -> Map<Seq<u8>, Seq<u8>>
    decreases ops.len(),
{
    if ops.len() == 0 {
        m
    } else {
        apply_op(apply_ops(m, ops.drop_last()), ops.last())
    }
}

/// Keys strictly ascending, hence distinct.
pub open spec fn sorted_keys(es: Seq<(Seq<u8>, Seq<u8>)>) -> bool {
    forall|i: int, j: int| 0 <= i < j < es.len() ==> #[trigger] lex_lt(es[i].0, es[j].0)
}

/// `es` lists exactly the pairs of `m`, in key order.
pub open spec fn lists_map(es: Seq<(Seq<u8>, Seq<u8>)>, m: Map<Seq<u8>, Seq<u8>>) -> bool {
    &&& sorted_keys(es)
    &&& forall|i: int|
        0 <= i < es.len() ==> #[trigger] m.contains_key(es[i].0) && m[es[i].0] == es[i].1
    &&& forall|k: Seq<u8>| #[trigger]
        m.contains_key(k) ==> exists|i: int| 0 <= i < es.len() && es[i].0 == k
}

pub struct Engine {
    items: Vec<KvPair>,
    contents: Ghost<Map<Seq<u8>, Seq<u8>>>,
}

impl View for Engine {
    type V = Map<Seq<u8>, Seq<u8>>;

    /// The stored pairs, key to value.
    closed spec fn view(&self) -> Map<Seq<u8>, Seq<u8>> {
        self.contents@
    }
}

impl Engine {
    /// The stored pairs in ascending key order.
    pub closed spec fn entries(&self) -> Seq<(Seq<u8>, Seq<u8>)> {
        self.items@.map_values(|p: KvPair| (p.key@, p.value@))
    }

    pub closed spec fn wf(&self) -> bool {
        lists_map(self.entries(), self@)
    }

    pub proof fn lemma_wf(&self)
        requires
            self.wf(),
        ensures
            lists_map(self.entries(), self@),
    {
    }

    /// An empty engine.
    pub fn new() -> (e: Engine)
        ensures
            e.wf(),
            e@ == Map::<Seq<u8>, Seq<u8>>::empty(),
            e.entries().len() == 0,
    {
        let e = Engine { items: Vec::new(), contents: Ghost(Map::empty()) };
        assert(e.entries() =~= Seq::empty());
        e
    }

    /// The number of stored pairs.
    pub fn len(&self) -> (n: usize)
        ensures
            n == self.entries().len(),
    {
        self.items.len()
    }

    /// The key at position `i` of the key order.
    pub fn key_at(&self, i: usize) -> (k: &[u8])
        requires
            i < self.entries().len(),
        ensures
            k@ == self.entries()[i as int].0,
    {
        self.items[i].key.as_slice()
    }

    /// The value at position `i` of the key order.
    pub fn value_at(&self, i: usize) -> (v: &Vec<u8>)
        requires
            i < self.entries().len(),
        ensures
            v@ == self.entries()[i as int].1,
    {
        &self.items[i].value
    }

    /// The position of the first key at or after `from`: the start of a forward scan.
    pub fn seek(&self, from: &[u8]) -> (i: usize)
        requires
            self.wf(),
        ensures
            i <= self.entries().len(),
            forall|j: int| 0 <= j < i ==> lex_lt(#[trigger] self.entries()[j].0, from@),
            forall|j: int| i <= j < self.entries().len() ==> lex_le(from@, #[trigger] self.entries()[j].0),
    {
        let ghost es = self.entries();
        let mut i: usize = 0;
        while i < self.items.len() && bytes_lt(self.items[i].key.as_slice(), from)
            invariant
                es == self.entries(),
                i <= es.len(),
                forall|j: int| 0 <= j < i ==> lex_lt(#[trigger] es[j].0, from@),
            decreases es.len() - i,
        {
            i = i + 1;
        }
        proof {
            if i < es.len() {
                lemma_lex_total(es[i as int].0, from@);
                assert forall|j: int| i <= j < es.len() implies lex_le(from@, #[trigger] es[j].0) by {
                    if j > i {
                        assert(lex_lt(es[i as int].0, es[j].0));
                        lemma_lex_le_transitive(from@, es[i as int].0, es[j].0);
                    }
                }
            }
        }
        i
    }

    /// The position just past the last key at or before `from`: a backward scan
    /// starts one below it.
    pub fn seek_past(&self, from: &[u8]) -> (i: usize)
        requires
            self.wf(),
        ensures
            i <= self.entries().len(),
            forall|j: int| 0 <= j < i ==> lex_le(#[trigger] self.entries()[j].0, from@),
            forall|j: int| i <= j < self.entries().len() ==> lex_lt(from@, #[trigger] self.entries()[j].0),
    {
        let ghost es = self.entries();
        let mut i: usize = 0;
        while i < self.items.len() && !bytes_lt(from, self.items[i].key.as_slice())
            invariant
                es == self.entries(),
                i <= es.len(),
                forall|j: int| 0 <= j < i ==> lex_le(#[trigger] es[j].0, from@),
            decreases es.len() - i,
        {
            proof {
                lemma_lex_total(es[i as int].0, from@);
            }
            i = i + 1;
        }
        proof {
            if i < es.len() {
                assert forall|j: int| i <= j < es.len() implies lex_lt(from@, #[trigger] es[j].0) by {
                    if j > i {
                        assert(lex_lt(es[i as int].0, es[j].0));
                        lemma_lex_transitive(from@, es[i as int].0, es[j].0);
                    }
                }
            }
        }
        i
    }

    /// The value stored at `key`, if any.
    pub fn get(&self, key: &[u8]) -> (r: Option<Vec<u8>>)
        requires
            self.wf(),
        ensures
            r matches Some(v) ==> self@.contains_key(key@) && v@ == self@[key@],
            r is None ==> !self@.contains_key(key@),
    {
        let i = self.seek(key);
        if i < self.items.len() && bytes_eq(self.items[i].key.as_slice(), key) {
            assert(self@.contains_key(self.entries()[i as int].0));
            Some(vstd::slice::slice_to_vec(self.items[i].value.as_slice()))
        } else {
            proof {
                let es = self.entries();
                if self@.contains_key(key@) {
                    let j = choose|j: int| 0 <= j < es.len() && es[j].0 == key@;
                    if j < i {
                        lemma_lex_irreflexive(key@);
                    } else if j > i {
                        assert(lex_lt(es[i as int].0, es[j].0));
                        assert(lex_le(key@, es[i as int].0));
                        lemma_lex_asymmetric(es[i as int].0, key@);
                    }
                }
            }
            None
        }
    }

    /// Stores `value` at `key`, replacing what was there.
    pub fn put(&mut self, key: Vec<u8>, value: Vec<u8>)
        requires
            old(self).wf(),
        ensures
            final(self).wf(),
            final(self)@ == old(self)@.insert(key@, value@),
    {
        let ghost es = self.entries();
        let ghost m0 = self@;
        let ghost k = key@;
        let ghost v = value@;
        let i = self.seek(key.as_slice());
        if i < self.items.len() && bytes_eq(self.items[i].key.as_slice(), key.as_slice()) {
            self.items.set(i, KvPair { key, value });
            self.contents = Ghost(self.contents@.insert(k, v));
            proof {
                let ns = self.entries();
                assert(ns =~= es.update(i as int, (k, v)));
                assert forall|a: int, b: int| 0 <= a < b < ns.len() implies #[trigger] lex_lt(
                    ns[a].0,
                    ns[b].0,
                ) by {
                    assert(lex_lt(es[a].0, es[b].0));
                }
                assert forall|a: int| 0 <= a < ns.len() implies #[trigger] self@.contains_key(ns[a].0)
                    && self@[ns[a].0] == ns[a].1 by {
                    if a != i {
                        assert(m0.contains_key(es[a].0));
                        assert(lex_lt(es[a].0, k) || lex_lt(k, es[a].0)) by {
                            if a < i {
                                assert(lex_lt(es[a].0, es[i as int].0));
                            } else {
                                assert(lex_lt(es[i as int].0, es[a].0));
                            }
                        }
                        lemma_lex_irreflexive(k);
                    }
                }
                assert forall|kk: Seq<u8>| #[trigger] self@.contains_key(kk) implies exists|a: int|
                    0 <= a < ns.len() && ns[a].0 == kk by {
                    if kk == k {
                        assert(ns[i as int].0 == kk);
                    } else {
                        let a = choose|a: int| 0 <= a < es.len() && es[a].0 == kk;
                        assert(ns[a].0 == kk);
                    }
                }
            }
        } else {
            self.items.insert(i, KvPair { key, value });
            self.contents = Ghost(self.contents@.insert(k, v));
            proof {
                let ns = self.entries();
                assert(ns =~= es.insert(i as int, (k, v)));
                if i < es.len() {
                    lemma_lex_total(k, es[i as int].0);
                }
                assert forall|a: int, b: int| 0 <= a < b < ns.len() implies #[trigger] lex_lt(
                    ns[a].0,
                    ns[b].0,
                ) by {
                    if b == i {
                    } else if a == i {
                        assert(ns[b].0 == es[b - 1].0);
                        if b - 1 > i {
                            assert(lex_lt(es[i as int].0, es[b - 1].0));
                            lemma_lex_transitive(k, es[i as int].0, es[b - 1].0);
                        }
                    } else if a < i && b > i {
                        assert(lex_lt(es[a].0, k));
                        assert(lex_le(k, es[b - 1].0));
                        lemma_lex_le_transitive(es[a].0, k, es[b - 1].0);
                        lemma_lex_asymmetric(es[a].0, es[b - 1].0);
                        if es[a].0 == es[b - 1].0 {
                            lemma_lex_irreflexive(k);
                            lemma_lex_asymmetric(es[a].0, k);
                        }
                    } else if a > i {
                        assert(lex_lt(es[a - 1].0, es[b - 1].0));
                    } else {
                        assert(lex_lt(es[a].0, es[b].0));
                    }
                }
                assert forall|a: int| 0 <= a < ns.len() implies #[trigger] self@.contains_key(ns[a].0)
                    && self@[ns[a].0] == ns[a].1 by {
                    if a < i {
                        assert(m0.contains_key(es[a].0));
                        assert(lex_lt(es[a].0, k));
                        lemma_lex_irreflexive(k);
                    } else if a > i {
                        assert(m0.contains_key(es[a - 1].0));
                        if a - 1 > i {
                            assert(lex_lt(es[i as int].0, es[a - 1].0));
                            lemma_lex_le_transitive(k, es[i as int].0, es[a - 1].0);
                            lemma_lex_asymmetric(es[i as int].0, es[a - 1].0);
                        }
                        assert(es[a - 1].0 != k);
                    }
                }
                assert forall|kk: Seq<u8>| #[trigger] self@.contains_key(kk) implies exists|a: int|
                    0 <= a < ns.len() && ns[a].0 == kk by {
                    if kk == k {
                        assert(ns[i as int].0 == kk);
                    } else {
                        let a = choose|a: int| 0 <= a < es.len() && es[a].0 == kk;
                        if a < i {
                            assert(ns[a].0 == kk);
                        } else {
                            assert(ns[a + 1].0 == kk);
                        }
                    }
                }
            }
        }
    }

    /// Removes `key`; removing an absent key changes nothing.
    pub fn delete(&mut self, key: &[u8])
        requires
            old(self).wf(),
        ensures
            final(self).wf(),
            final(self)@ == old(self)@.remove(key@),
    {
        let ghost es = self.entries();
        let ghost m0 = self@;
        let ghost k = key@;
        let i = self.seek(key);
        if i < self.items.len() && bytes_eq(self.items[i].key.as_slice(), key) {
            self.items.remove(i);
            self.contents = Ghost(self.contents@.remove(k));
            proof {
                let ns = self.entries();
                assert(ns =~= es.remove(i as int));
                assert forall|a: int, b: int| 0 <= a < b < ns.len() implies #[trigger] lex_lt(
                    ns[a].0,
                    ns[b].0,
                ) by {
                    if a < i && b >= i {
                        assert(lex_lt(es[a].0, es[b + 1].0));
                    } else if a >= i {
                        assert(lex_lt(es[a + 1].0, es[b + 1].0));
                    } else {
                        assert(lex_lt(es[a].0, es[b].0));
                    }
                }
                assert forall|a: int| 0 <= a < ns.len() implies #[trigger] self@.contains_key(ns[a].0)
                    && self@[ns[a].0] == ns[a].1 by {
                    if a < i {
                        assert(m0.contains_key(es[a].0));
                        assert(lex_lt(es[a].0, es[i as int].0));
                        lemma_lex_irreflexive(k);
                    } else {
                        assert(m0.contains_key(es[a + 1].0));
                        assert(lex_lt(es[i as int].0, es[a + 1].0));
                        lemma_lex_irreflexive(k);
                    }
                }
                assert forall|kk: Seq<u8>| #[trigger] self@.contains_key(kk) implies exists|a: int|
                    0 <= a < ns.len() && ns[a].0 == kk by {
                    let a = choose|a: int| 0 <= a < es.len() && es[a].0 == kk;
                    if a < i {
                        assert(ns[a].0 == kk);
                    } else {
                        assert(a != i);
                        assert(ns[a - 1].0 == kk);
                    }
                }
            }
        } else {
            proof {
                if self@.contains_key(k) {
                    let j = choose|j: int| 0 <= j < es.len() && es[j].0 == k;
                    if j < i {
                        lemma_lex_irreflexive(k);
                    } else if j > i {
                        assert(lex_lt(es[i as int].0, es[j].0));
                        lemma_lex_asymmetric(es[i as int].0, k);
                    }
                }
                assert(self@ =~= self@.remove(k));
            }
        }
    }

    /// Applies every write of `ops`, first to last, as one step.
    pub fn write_batch(&mut self, ops: Vec<BatchOp>)
        requires
            old(self).wf(),
        ensures
            final(self).wf(),
            final(self)@ == apply_ops(old(self)@, ops@),
    {
        let ghost m0 = self@;
        let mut i: usize = 0;
        while i < ops.len()
            invariant
                self.wf(),
                i <= ops@.len(),
                self@ == apply_ops(m0, ops@.take(i as int)),
            decreases ops@.len() - i,
        {
            assert(ops@.take(i + 1).drop_last() =~= ops@.take(i as int));
            match &ops[i] {
                BatchOp::Put { key, value } => {
                    self.put(vstd::slice::slice_to_vec(key.as_slice()), vstd::slice::slice_to_vec(value.as_slice()));
                },
                BatchOp::Delete { key } => {
                    self.delete(key.as_slice());
                },
            }
            i = i + 1;
        }
        assert(ops@.take(i as int) =~= ops@);
    }
}

} // verus!
