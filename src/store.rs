//! Records of named models over the engine: puts, and gets and deletes by a
//! primary-key expression.
use vstd::prelude::*;
use vstd::string::StringSliceAdditionalSpecFns;
use vstd::utf8::encode_utf8;
use crate::engine::{apply_ops, lists_map, BatchOp, Engine};
use crate::keyspace::{
    in_model, is_valid_pk, key_of, lemma_key_in_model, model_prefix, prefix_bytes, storage_key,
    valid_pk,
};
use crate::order::{
    has_prefix, lemma_lex_asymmetric, lemma_lex_irreflexive, lemma_lex_le_transitive,
    lemma_prefix_convex, lemma_prefix_le, lex_le, lex_lt,
};

verus! {

/// The failures of the library, by kind.
#[derive(Debug)]
pub enum BicycleError {
    InvalidArgument,
    NotFound,
    DecodeError,
    EngineError,
    CompileError,
    GuestTrap(String),
    IoError(String),
}

/// A selection of records of one model by primary key.
#[derive(Debug)]
pub enum IndexQuery {
    Eq(String),
    Gte(String),
    Lte(String),
    BeginsWith(String),
}

pub type Entries = Seq<(Seq<u8>, Seq<u8>)>;

/// Keys of model `m` at or after the key of primary key `v`.
pub open spec fn gte_key(m: Seq<u8>, v: Seq<u8>) -> spec_fn(Seq<u8>) -> bool {
    |k: Seq<u8>| in_model(m, k) && lex_le(key_of(m, v), k)
}

/// Keys of model `m` at or before the key of primary key `v`.
pub open spec fn lte_key(m: Seq<u8>, v: Seq<u8>) -> spec_fn(Seq<u8>) -> bool {
    |k: Seq<u8>| in_model(m, k) && lex_le(k, key_of(m, v))
}

/// Keys of model `m` whose primary key begins with `v`.
pub open spec fn prefix_key(m: Seq<u8>, v: Seq<u8>) -> spec_fn(Seq<u8>) -> bool {
    |k: Seq<u8>| key_of(m, v).is_prefix_of(k)
}

/// The key of model `m` with primary key exactly `v`.
pub open spec fn eq_key(m: Seq<u8>, v: Seq<u8>) -> spec_fn(Seq<u8>) -> bool {
    |k: Seq<u8>| k == key_of(m, v)
}

/// The field number that carries each kind of expression on the wire.
pub open spec fn query_tag(q: IndexQuery) -> nat {
    match q {
        IndexQuery::Eq(_) => 1,
        IndexQuery::Gte(_) => 2,
        IndexQuery::Lte(_) => 3,
        IndexQuery::BeginsWith(_) => 4,
    }
}

/// The text of an expression.
pub open spec fn query_text(q: IndexQuery) -> Seq<char> {
    match q {
        IndexQuery::Eq(v) => v@,
        IndexQuery::Gte(v) => v@,
        IndexQuery::Lte(v) => v@,
        IndexQuery::BeginsWith(v) => v@,
    }
}

/// The key predicate of the expression of kind `t` (1 `Eq`, 2 `Gte`, 3 `Lte`,
/// 4 `BeginsWith`) over the primary-key bytes `v`.
pub open spec fn tag_key(m: Seq<u8>, t: nat, v: Seq<u8>) -> spec_fn(Seq<u8>) -> bool {
    if t == 1 {
        eq_key(m, v)
    } else if t == 2 {
        gte_key(m, v)
    } else if t == 3 {
        lte_key(m, v)
    } else {
        prefix_key(m, v)
    }
}

/// The key predicate that an expression stands for.
pub open spec fn query_key(m: Seq<u8>, q: IndexQuery) -> spec_fn(Seq<u8>) -> bool {
    tag_key(m, query_tag(q), encode_utf8(query_text(q)))
}

/// The entries whose key satisfies `f`, in the order of `es`.
pub open spec fn select(es: Entries, f: spec_fn(Seq<u8>) -> bool) -> Entries {
    es.filter(|e: (Seq<u8>, Seq<u8>)| f(e.0))
}

/// `m` without the keys that satisfy `f`.
pub open spec fn without(m: Map<Seq<u8>, Seq<u8>>, f: spec_fn(Seq<u8>) -> bool) -> Map<
    Seq<u8>,
    Seq<u8>,
> {
    Map::new(|k: Seq<u8>| m.contains_key(k) && !f(k), |k: Seq<u8>| m[k])
}

/// The contents of a list of byte vectors.
pub open spec fn views(v: Seq<Vec<u8>>) -> Seq<Seq<u8>> {
    v.map_values(|x: Vec<u8>| x@)
}

/// The values of a run of entries.
pub open spec fn values_of(es: Entries) -> Seq<Seq<u8>> {
    es.map_values(|e: (Seq<u8>, Seq<u8>)| e.1)
}

/// What a get of kind `t` over `v` returns on `es`, the engine's entries in key
/// order: `Lte` in descending key order, the others in ascending key order.
pub open spec fn tag_result(es: Entries, m: Seq<u8>, t: nat, v: Seq<u8>) -> Seq<Seq<u8>> {
    if t == 3 {
        values_of(select(es, tag_key(m, t, v)).reverse())
    } else {
        values_of(select(es, tag_key(m, t, v)))
    }
}

/// What a get by `q` returns on `es`.
pub open spec fn query_result(es: Entries, m: Seq<u8>, q: IndexQuery) -> Seq<Seq<u8>> {
    tag_result(es, m, query_tag(q), encode_utf8(query_text(q)))
}

/// The contents after `m` takes the records `ps` of model `model`, first to last.
pub open spec fn put_all(
    m: Map<Seq<u8>, Seq<u8>>,
    model: Seq<u8>,
    ps: Seq<(String, Vec<u8>)>,
) -> Map<Seq<u8>, Seq<u8>>
    decreases ps.len(),
{
    if ps.len() == 0 {
        m
    } else {
        put_all(m, model, ps.drop_last()).insert(key_of(model, encode_utf8(ps.last().0@)), ps.last().1@)
    }
}

/// Every primary key of `ps` is valid.
pub open spec fn all_pks_valid(ps: Seq<(String, Vec<u8>)>) -> bool {
    forall|i: int| 0 <= i < ps.len() ==> valid_pk(encode_utf8(#[trigger] ps[i].0@))
}

/// A filter that keeps exactly the positions `a..b` keeps that run.
proof fn lemma_filter_block(s: Entries, pred: spec_fn((Seq<u8>, Seq<u8>)) -> bool, a: int, b: int)
    requires
        0 <= a <= b <= s.len(),
        forall|i: int| 0 <= i < a ==> !pred(#[trigger] s[i]),
        forall|i: int| a <= i < b ==> pred(#[trigger] s[i]),
        forall|i: int| b <= i < s.len() ==> !pred(#[trigger] s[i]),
    ensures
        s.filter(pred) == s.subrange(a, b),
    decreases s.len(),
{
    reveal(Seq::filter);
    if s.len() == 0 {
        assert(s.subrange(a, b) =~= s);
    } else {
        let n = s.len() - 1;
        let d = s.drop_last();
        if b <= n {
            lemma_filter_block(d, pred, a, b);
            assert(d.subrange(a, b) =~= s.subrange(a, b));
        } else if a <= n {
            lemma_filter_block(d, pred, a, n);
            assert(s.subrange(a, b) =~= d.subrange(a, n).push(s[n]));
        } else {
            lemma_filter_block(d, pred, n, n);
            assert(s.subrange(a, b) =~= d.subrange(n, n));
        }
    }
}

/// The keys that satisfy `f` are exactly those of entries `a..b`: selecting by `f`
/// gives that run, and removing by `f` removes its keys.
proof fn lemma_block(
    es: Entries,
    m: Map<Seq<u8>, Seq<u8>>,
    f: spec_fn(Seq<u8>) -> bool,
    a: int,
    b: int,
)
    requires
        lists_map(es, m),
        0 <= a <= b <= es.len(),
        forall|i: int| 0 <= i < a ==> !f(#[trigger] es[i].0),
        forall|i: int| a <= i < b ==> f(#[trigger] es[i].0),
        forall|i: int| b <= i < es.len() ==> !f(#[trigger] es[i].0),
    ensures
        select(es, f) == es.subrange(a, b),
        without(m, f) == Map::new(
            |k: Seq<u8>| m.contains_key(k) && !es.subrange(a, b).map_values(|e: (Seq<u8>, Seq<u8>)| e.0).contains(k),
            |k: Seq<u8>| m[k],
        ),
{
    let pred = |e: (Seq<u8>, Seq<u8>)| f(e.0);
    assert forall|i: int| 0 <= i < es.len() implies pred(#[trigger] es[i]) == f(es[i].0) by {}
    lemma_filter_block(es, pred, a, b);
    let keys = es.subrange(a, b).map_values(|e: (Seq<u8>, Seq<u8>)| e.0);
    assert forall|k: Seq<u8>| m.contains_key(k) implies (f(k) <==> keys.contains(k)) by {
        let j = choose|j: int| 0 <= j < es.len() && es[j].0 == k;
        if f(k) {
            assert(a <= j < b);
            assert(keys[j - a] == k);
        }
        if keys.contains(k) {
            let t = choose|t: int| 0 <= t < keys.len() && keys[t] == k;
            assert(es[a + t].0 == k);
        }
    }
    assert(without(m, f) =~= Map::new(
        |k: Seq<u8>| m.contains_key(k) && !keys.contains(k),
        |k: Seq<u8>| m[k],
    ));
}

/// Applying only deletes removes exactly their keys.
proof fn lemma_apply_deletes(m: Map<Seq<u8>, Seq<u8>>, ops: Seq<BatchOp>, keys: Seq<Seq<u8>>)
    requires
        ops.len() == keys.len(),
        forall|t: int| 0 <= t < ops.len() ==> (#[trigger] ops[t] matches BatchOp::Delete { key } && key@ == keys[t]),
    ensures
        apply_ops(m, ops) == Map::new(|k: Seq<u8>| m.contains_key(k) && !keys.contains(k), |k: Seq<u8>| m[k]),
    decreases ops.len(),
{
    if ops.len() == 0 {
        assert(apply_ops(m, ops) =~= Map::new(|k: Seq<u8>| m.contains_key(k) && !keys.contains(k), |k: Seq<u8>| m[k]));
    } else {
        let n = ops.len() - 1;
        assert(ops[n] matches BatchOp::Delete { key } && key@ == keys[n]);
        lemma_apply_deletes(m, ops.drop_last(), keys.drop_last());
        assert forall|k: Seq<u8>| keys.contains(k) <==> (keys.drop_last().contains(k) || k == keys[n]) by {
            if keys.contains(k) {
                let t = choose|t: int| 0 <= t < keys.len() && keys[t] == k;
                if t < n {
                    assert(keys.drop_last()[t] == k);
                }
            }
            if keys.drop_last().contains(k) {
                let t = choose|t: int| 0 <= t < n && keys.drop_last()[t] == k;
                assert(keys[t] == k);
            }
        }
        assert(apply_ops(m, ops) =~= Map::new(|k: Seq<u8>| m.contains_key(k) && !keys.contains(k), |k: Seq<u8>| m[k]));
    }
}

/// The end of the run of keys from position `a` on that begin with `prefix`.
fn run_end(db: &Engine, a: usize, prefix: &[u8]) -> (end: usize)
    requires
        a <= db.entries().len(),
    ensures
        a <= end <= db.entries().len(),
        forall|j: int| a <= j < end ==> prefix@.is_prefix_of(#[trigger] db.entries()[j].0),
        end == db.entries().len() || !prefix@.is_prefix_of(db.entries()[end as int].0),
{
    let mut i = a;
    while i < db.len() && has_prefix(db.key_at(i), prefix)
        invariant
            a <= i <= db.entries().len(),
            forall|j: int| a <= j < i ==> prefix@.is_prefix_of(#[trigger] db.entries()[j].0),
        decreases db.entries().len() - i,
    {
        i = i + 1;
    }
    i
}

/// The start of the run of keys below position `b` that begin with `prefix`.
fn run_start(db: &Engine, b: usize, prefix: &[u8]) -> (start: usize)
    requires
        b <= db.entries().len(),
    ensures
        start <= b,
        forall|j: int| start <= j < b ==> prefix@.is_prefix_of(#[trigger] db.entries()[j].0),
        start == 0 || !prefix@.is_prefix_of(db.entries()[start - 1].0),
{
    let mut i = b;
    while i > 0 && has_prefix(db.key_at(i - 1), prefix)
        invariant
            i <= b <= db.entries().len(),
            forall|j: int| i <= j < b ==> prefix@.is_prefix_of(#[trigger] db.entries()[j].0),
        decreases i,
    {
        i = i - 1;
    }
    i
}

/// The values of entries `a..b`, in ascending key order.
fn values_in(db: &Engine, a: usize, b: usize) -> (r: Vec<Vec<u8>>)
    requires
        a <= b <= db.entries().len(),
    ensures
        views(r@) == values_of(db.entries().subrange(a as int, b as int)),
{
    let ghost es = db.entries();
    let mut out: Vec<Vec<u8>> = Vec::new();
    let mut i = a;
    while i < b
        invariant
            es == db.entries(),
            a <= i <= b <= es.len(),
            views(out@) == values_of(es.subrange(a as int, i as int)),
        decreases b - i,
    {
        let v = vstd::slice::slice_to_vec(db.value_at(i).as_slice());
        let ghost before = out@;
        out.push(v);
        assert(views(out@) =~= views(before).push(es[i as int].1));
        assert(values_of(es.subrange(a as int, i + 1)) =~= values_of(es.subrange(a as int, i as int)).push(es[i as int].1));
        i = i + 1;
    }
    out
}

/// The values of entries `a..b`, in descending key order.
fn values_in_rev(db: &Engine, a: usize, b: usize) -> (r: Vec<Vec<u8>>)
    requires
        a <= b <= db.entries().len(),
    ensures
        views(r@) == values_of(db.entries().subrange(a as int, b as int).reverse()),
{
    let ghost es = db.entries();
    let mut out: Vec<Vec<u8>> = Vec::new();
    let mut i = b;
    while i > a
        invariant
            es == db.entries(),
            a <= i <= b <= es.len(),
            views(out@) == values_of(es.subrange(i as int, b as int).reverse()),
        decreases i,
    {
        let v = vstd::slice::slice_to_vec(db.value_at(i - 1).as_slice());
        let ghost before = out@;
        out.push(v);
        assert(views(out@) =~= views(before).push(es[i - 1].1));
        assert(es.subrange(i - 1, b as int).reverse() =~= es.subrange(i as int, b as int).reverse().push(es[i - 1]));
        assert(values_of(es.subrange(i - 1, b as int).reverse()) =~= values_of(es.subrange(i as int, b as int).reverse()).push(es[i - 1].1));
        i = i - 1;
    }
    assert(es.subrange(a as int, b as int).reverse() =~= es.subrange(i as int, b as int).reverse());
    out
}

/// Deletes of the keys of entries `a..b`.
fn deletes_in(db: &Engine, a: usize, b: usize) -> (r: Vec<BatchOp>)
    requires
        a <= b <= db.entries().len(),
    ensures
        r@.len() == b - a,
        forall|t: int| 0 <= t < r@.len() ==> (#[trigger] r@[t] matches BatchOp::Delete { key } && key@ == db.entries()[a + t].0),
{
    let ghost es = db.entries();
    let mut out: Vec<BatchOp> = Vec::new();
    let mut i = a;
    while i < b
        invariant
            es == db.entries(),
            a <= i <= b <= es.len(),
            out@.len() == i - a,
            forall|t: int| 0 <= t < out@.len() ==> (#[trigger] out@[t] matches BatchOp::Delete { key } && key@ == es[a + t].0),
        decreases b - i,
    {
        out.push(BatchOp::Delete { key: vstd::slice::slice_to_vec(db.key_at(i)) });
        i = i + 1;
    }
    out
}

/// Removes the entries `a..b`, which are exactly the keys that satisfy `f`.
fn delete_block(db: &mut Engine, a: usize, b: usize, Ghost(f): Ghost<spec_fn(Seq<u8>) -> bool>)
    requires
        old(db).wf(),
        a <= b <= old(db).entries().len(),
        forall|i: int| 0 <= i < a ==> !f(#[trigger] old(db).entries()[i].0),
        forall|i: int| a <= i < b ==> f(#[trigger] old(db).entries()[i].0),
        forall|i: int| b <= i < old(db).entries().len() ==> !f(#[trigger] old(db).entries()[i].0),
    ensures
        final(db).wf(),
        final(db)@ == without(old(db)@, f),
{
    let ghost es = db.entries();
    let ghost m = db@;
    proof {
        db.lemma_wf();
        lemma_block(es, m, f, a as int, b as int);
    }
    let ops = deletes_in(db, a, b);
    proof {
        lemma_apply_deletes(m, ops@, es.subrange(a as int, b as int).map_values(|e: (Seq<u8>, Seq<u8>)| e.0));
    }
    db.write_batch(ops);
}

/// Where a scan forward from the key of `val` runs for `Gte`: positions `start..end`.
fn gte_run(db: &Engine, model: &str, val: &str) -> (r: (usize, usize))
    requires
        db.wf(),
    ensures
        r.0 <= r.1 <= db.entries().len(),
        forall|i: int| 0 <= i < r.0 ==> !gte_key(model.spec_bytes(), val.spec_bytes())(#[trigger] db.entries()[i].0),
        forall|i: int| r.0 <= i < r.1 ==> gte_key(model.spec_bytes(), val.spec_bytes())(#[trigger] db.entries()[i].0),
        forall|i: int| r.1 <= i < db.entries().len() ==> !gte_key(model.spec_bytes(), val.spec_bytes())(#[trigger] db.entries()[i].0),
{
    let ghost es = db.entries();
    let ghost m = model.spec_bytes();
    let key = storage_key(model, val);
    let ghost k = key@;
    let start = db.seek(key.as_slice());
    let prefix = prefix_bytes(model);
    let end = run_end(db, start, prefix.as_slice());
    proof {
        db.lemma_wf();
        lemma_key_in_model(m, val.spec_bytes());
        assert forall|j: int| 0 <= j < start implies !gte_key(m, val.spec_bytes())(#[trigger] es[j].0) by {
            lemma_lex_irreflexive(k);
            lemma_lex_asymmetric(k, es[j].0);
        }
        assert forall|j: int| end <= j < es.len() implies !gte_key(m, val.spec_bytes())(#[trigger] es[j].0) by {
            if j > end && in_model(m, es[j].0) {
                assert(lex_lt(es[end as int].0, es[j].0));
                lemma_prefix_convex(model_prefix(m), k, es[end as int].0, es[j].0);
            }
        }
    }
    (start, end)
}

/// Records of `model` with primary key at or after `val`, in ascending key order.
pub fn get_gte(db: &Engine, model: &str, val: &str) -> (r: Vec<Vec<u8>>)
    requires
        db.wf(),
    ensures
        views(r@) == values_of(select(db.entries(), gte_key(model.spec_bytes(), val.spec_bytes()))),
{
    let (a, b) = gte_run(db, model, val);
    proof {
        db.lemma_wf();
        lemma_block(db.entries(), db@, gte_key(model.spec_bytes(), val.spec_bytes()), a as int, b as int);
    }
    values_in(db, a, b)
}

/// Removes the records of `model` with primary key at or after `val`.
pub fn delete_gte(db: &mut Engine, model: &str, val: &str)
    requires
        old(db).wf(),
    ensures
        final(db).wf(),
        final(db)@ == without(old(db)@, gte_key(model.spec_bytes(), val.spec_bytes())),
{
    let (a, b) = gte_run(db, model, val);
    delete_block(db, a, b, Ghost(gte_key(model.spec_bytes(), val.spec_bytes())));
}

/// Where a scan backward from the key of `val` runs for `Lte`: positions `start..end`.
fn lte_run(db: &Engine, model: &str, val: &str) -> (r: (usize, usize))
    requires
        db.wf(),
    ensures
        r.0 <= r.1 <= db.entries().len(),
        forall|i: int| 0 <= i < r.0 ==> !lte_key(model.spec_bytes(), val.spec_bytes())(#[trigger] db.entries()[i].0),
        forall|i: int| r.0 <= i < r.1 ==> lte_key(model.spec_bytes(), val.spec_bytes())(#[trigger] db.entries()[i].0),
        forall|i: int| r.1 <= i < db.entries().len() ==> !lte_key(model.spec_bytes(), val.spec_bytes())(#[trigger] db.entries()[i].0),
{
    let ghost es = db.entries();
    let ghost m = model.spec_bytes();
    let key = storage_key(model, val);
    let ghost k = key@;
    let end = db.seek_past(key.as_slice());
    let prefix = prefix_bytes(model);
    let start = run_start(db, end, prefix.as_slice());
    proof {
        db.lemma_wf();
        lemma_key_in_model(m, val.spec_bytes());
        assert forall|j: int| 0 <= j < start implies !lte_key(m, val.spec_bytes())(#[trigger] es[j].0) by {
            if j < start - 1 && in_model(m, es[j].0) {
                assert(lex_lt(es[j].0, es[start - 1].0));
                lemma_prefix_convex(model_prefix(m), es[j].0, es[start - 1].0, k);
            }
        }
        assert forall|j: int| end <= j < es.len() implies !lte_key(m, val.spec_bytes())(#[trigger] es[j].0) by {
            lemma_lex_irreflexive(k);
            lemma_lex_asymmetric(k, es[j].0);
        }
    }
    (start, end)
}

/// Where the records whose primary key begins with `val` stand: positions `start..end`.
fn prefix_run(db: &Engine, model: &str, val: &str) -> (r: (usize, usize))
    requires
        db.wf(),
    ensures
        r.0 <= r.1 <= db.entries().len(),
        forall|i: int| 0 <= i < r.0 ==> !prefix_key(model.spec_bytes(), val.spec_bytes())(#[trigger] db.entries()[i].0),
        forall|i: int| r.0 <= i < r.1 ==> prefix_key(model.spec_bytes(), val.spec_bytes())(#[trigger] db.entries()[i].0),
        forall|i: int| r.1 <= i < db.entries().len() ==> !prefix_key(model.spec_bytes(), val.spec_bytes())(#[trigger] db.entries()[i].0),
{
    let ghost es = db.entries();
    let key = storage_key(model, val);
    let ghost k = key@;
    let start = db.seek(key.as_slice());
    let end = run_end(db, start, key.as_slice());
    proof {
        db.lemma_wf();
        assert(k.is_prefix_of(k)) by {
            assert(k =~= k.subrange(0, k.len() as int));
        }
        assert forall|j: int| 0 <= j < start implies !prefix_key(model.spec_bytes(), val.spec_bytes())(#[trigger] es[j].0) by {
            if k.is_prefix_of(es[j].0) {
                lemma_prefix_le(k, es[j].0);
                lemma_lex_irreflexive(k);
                lemma_lex_asymmetric(k, es[j].0);
            }
        }
        assert forall|j: int| end <= j < es.len() implies !prefix_key(model.spec_bytes(), val.spec_bytes())(#[trigger] es[j].0) by {
            if j > end && k.is_prefix_of(es[j].0) {
                assert(lex_lt(es[end as int].0, es[j].0));
                lemma_prefix_convex(k, k, es[end as int].0, es[j].0);
            }
        }
    }
    (start, end)
}

/// Where the record with primary key `val` stands, if it is there: positions `start..end`.
fn eq_run(db: &Engine, model: &str, val: &str) -> (r: (usize, usize))
    requires
        db.wf(),
    ensures
        r.0 <= r.1 <= db.entries().len(),
        forall|i: int| 0 <= i < r.0 ==> !eq_key(model.spec_bytes(), val.spec_bytes())(#[trigger] db.entries()[i].0),
        forall|i: int| r.0 <= i < r.1 ==> eq_key(model.spec_bytes(), val.spec_bytes())(#[trigger] db.entries()[i].0),
        forall|i: int| r.1 <= i < db.entries().len() ==> !eq_key(model.spec_bytes(), val.spec_bytes())(#[trigger] db.entries()[i].0),
{
    let ghost es = db.entries();
    let key = storage_key(model, val);
    let ghost k = key@;
    let start = db.seek(key.as_slice());
    let end = if start < db.len() && crate::order::bytes_eq(db.key_at(start), key.as_slice()) {
        start + 1
    } else {
        start
    };
    proof {
        db.lemma_wf();
        lemma_lex_irreflexive(k);
        assert forall|j: int| end <= j < es.len() implies !eq_key(model.spec_bytes(), val.spec_bytes())(#[trigger] es[j].0) by {
            if j > start {
                assert(lex_lt(es[start as int].0, es[j].0));
                lemma_lex_le_transitive(k, es[start as int].0, es[j].0);
                lemma_lex_asymmetric(es[start as int].0, es[j].0);
            }
        }
    }
    (start, end)
}

/// The record of `model` with primary key `val`: none or one.
pub fn get_eq(db: &Engine, model: &str, val: &str) -> (r: Vec<Vec<u8>>)
    requires
        db.wf(),
    ensures
        views(r@) == values_of(select(db.entries(), eq_key(model.spec_bytes(), val.spec_bytes()))),
{
    let (a, b) = eq_run(db, model, val);
    proof {
        db.lemma_wf();
        lemma_block(db.entries(), db@, eq_key(model.spec_bytes(), val.spec_bytes()), a as int, b as int);
    }
    values_in(db, a, b)
}

/// Records of `model` with primary key at or before `val`, in descending key order.
pub fn get_lte(db: &Engine, model: &str, val: &str) -> (r: Vec<Vec<u8>>)
    requires
        db.wf(),
    ensures
        views(r@) == values_of(select(db.entries(), lte_key(model.spec_bytes(), val.spec_bytes())).reverse()),
{
    let (a, b) = lte_run(db, model, val);
    proof {
        db.lemma_wf();
        lemma_block(db.entries(), db@, lte_key(model.spec_bytes(), val.spec_bytes()), a as int, b as int);
    }
    values_in_rev(db, a, b)
}

/// Records of `model` whose primary key begins with `val`, in ascending key order.
pub fn get_begins_with(db: &Engine, model: &str, val: &str) -> (r: Vec<Vec<u8>>)
    requires
        db.wf(),
    ensures
        views(r@) == values_of(select(db.entries(), prefix_key(model.spec_bytes(), val.spec_bytes()))),
{
    let (a, b) = prefix_run(db, model, val);
    proof {
        db.lemma_wf();
        lemma_block(db.entries(), db@, prefix_key(model.spec_bytes(), val.spec_bytes()), a as int, b as int);
    }
    values_in(db, a, b)
}

/// Removes the record of `model` with primary key `val`, if it is there.
pub fn delete_eq(db: &mut Engine, model: &str, val: &str)
    requires
        old(db).wf(),
    ensures
        final(db).wf(),
        final(db)@ == without(old(db)@, eq_key(model.spec_bytes(), val.spec_bytes())),
        final(db)@ == old(db)@.remove(key_of(model.spec_bytes(), val.spec_bytes())),
{
    let key = storage_key(model, val);
    db.delete(key.as_slice());
    assert(final(db)@ =~= without(old(db)@, eq_key(model.spec_bytes(), val.spec_bytes())));
}

/// Removes the records of `model` with primary key at or before `val`.
pub fn delete_lte(db: &mut Engine, model: &str, val: &str)
    requires
        old(db).wf(),
    ensures
        final(db).wf(),
        final(db)@ == without(old(db)@, lte_key(model.spec_bytes(), val.spec_bytes())),
{
    let (a, b) = lte_run(db, model, val);
    delete_block(db, a, b, Ghost(lte_key(model.spec_bytes(), val.spec_bytes())));
}

/// Removes the records of `model` whose primary key begins with `val`.
pub fn delete_begins_with(db: &mut Engine, model: &str, val: &str)
    requires
        old(db).wf(),
    ensures
        final(db).wf(),
        final(db)@ == without(old(db)@, prefix_key(model.spec_bytes(), val.spec_bytes())),
{
    let (a, b) = prefix_run(db, model, val);
    delete_block(db, a, b, Ghost(prefix_key(model.spec_bytes(), val.spec_bytes())));
}

/// Stores `v` as the record of `model` with primary key `k`, replacing any
/// record with that key. An invalid primary key is refused and nothing changes.
pub fn put(db: &mut Engine, model: &str, k: String, v: Vec<u8>) -> (r: Result<(), BicycleError>)
    requires
        old(db).wf(),
    ensures
        final(db).wf(),
        r is Ok <==> valid_pk(encode_utf8(k@)),
        r is Ok ==> final(db)@ == old(db)@.insert(key_of(model.spec_bytes(), encode_utf8(k@)), v@),
        r matches Err(e) ==> e is InvalidArgument && final(db)@ == old(db)@,
{
    if !is_valid_pk(k.as_str()) {
        return Err(BicycleError::InvalidArgument);
    }
    let key = storage_key(model, k.as_str());
    db.put(key, v);
    Ok(())
}

/// Whether every primary key of `params` is valid.
fn pks_valid(params: &Vec<(String, Vec<u8>)>) -> (r: bool)
    ensures
        r == all_pks_valid(params@),
{
    let mut i: usize = 0;
    while i < params.len()
        invariant
            i <= params@.len(),
            forall|j: int| 0 <= j < i ==> valid_pk(encode_utf8(#[trigger] params@[j].0@)),
        decreases params@.len() - i,
    {
        if !is_valid_pk(params[i].0.as_str()) {
            return false;
        }
        i = i + 1;
    }
    true
}

/// Stores every record of `params` in one batch, later ones over earlier ones
/// with the same key. If any primary key is invalid, none is stored.
pub fn batch_put(db: &mut Engine, model: &str, params: Vec<(String, Vec<u8>)>) -> (r: Result<(), BicycleError>)
    requires
        old(db).wf(),
    ensures
        final(db).wf(),
        r is Ok <==> all_pks_valid(params@),
        r is Ok ==> final(db)@ == put_all(old(db)@, model.spec_bytes(), params@),
        r matches Err(e) ==> e is InvalidArgument && final(db)@ == old(db)@,
{
    if !pks_valid(&params) {
        return Err(BicycleError::InvalidArgument);
    }
    let ghost m0 = db@;
    let ghost mb = model.spec_bytes();
    let mut ops: Vec<BatchOp> = Vec::new();
    let mut i: usize = 0;
    while i < params.len()
        invariant
            i <= params@.len(),
            mb == model.spec_bytes(),
            apply_ops(m0, ops@) == put_all(m0, mb, params@.take(i as int)),
        decreases params@.len() - i,
    {
        let name = params[i].0.as_str();
        let key = storage_key(model, name);
        let value = vstd::slice::slice_to_vec(params[i].1.as_slice());
        let ghost before = ops@;
        let ghost pair = params@[i as int];
        assert(name@ == pair.0@);
        assert(name.spec_bytes() == encode_utf8(pair.0@));
        assert(key@ == key_of(mb, encode_utf8(pair.0@)));
        assert(value@ == pair.1@);
        ops.push(BatchOp::Put { key, value });
        assert(ops@.drop_last() =~= before);
        assert(params@.take(i + 1).drop_last() =~= params@.take(i as int));
        assert(params@.take(i + 1).last() == pair);
        assert(apply_ops(m0, ops@) == apply_ops(m0, before).insert(key_of(mb, encode_utf8(pair.0@)), pair.1@));
        i = i + 1;
    }
    assert(params@.take(i as int) =~= params@);
    db.write_batch(ops);
    Ok(())
}

/// Records of `model` selected by `query`; a missing expression is refused.
pub fn get_by_pk(db: &Engine, model: &str, query: Option<IndexQuery>) -> (r: Result<Vec<Vec<u8>>, BicycleError>)
    requires
        db.wf(),
    ensures
        match query {
            None => r matches Err(e) && e is InvalidArgument,
            Some(q) => r matches Ok(v) && views(v@) == query_result(db.entries(), model.spec_bytes(), q),
        },
{
    match query {
        None => Err(BicycleError::InvalidArgument),
        Some(IndexQuery::Eq(v)) => Ok(get_eq(db, model, v.as_str())),
        Some(IndexQuery::Gte(v)) => Ok(get_gte(db, model, v.as_str())),
        Some(IndexQuery::Lte(v)) => Ok(get_lte(db, model, v.as_str())),
        Some(IndexQuery::BeginsWith(v)) => Ok(get_begins_with(db, model, v.as_str())),
    }
}

/// Removes the records of `model` selected by `query`; a missing expression is
/// refused and nothing changes.
pub fn delete_by_pk(db: &mut Engine, model: &str, query: Option<IndexQuery>) -> (r: Result<(), BicycleError>)
    requires
        old(db).wf(),
    ensures
        final(db).wf(),
        match query {
            None => r matches Err(e) && e is InvalidArgument && final(db)@ == old(db)@,
            Some(q) => r is Ok && final(db)@ == without(old(db)@, query_key(model.spec_bytes(), q)),
        },
{
    match query {
        None => Err(BicycleError::InvalidArgument),
        Some(IndexQuery::Eq(v)) => {
            delete_eq(db, model, v.as_str());
            Ok(())
        },
        Some(IndexQuery::Gte(v)) => {
            delete_gte(db, model, v.as_str());
            Ok(())
        },
        Some(IndexQuery::Lte(v)) => {
            delete_lte(db, model, v.as_str());
            Ok(())
        },
        Some(IndexQuery::BeginsWith(v)) => {
            delete_begins_with(db, model, v.as_str());
            Ok(())
        },
    }
}

} // verus!
