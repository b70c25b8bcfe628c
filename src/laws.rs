//! Laws of the record store and of the calls a guest makes, stated over the
//! contracts of the operations.
use vstd::prelude::*;
use crate::engine::{lists_map, sorted_keys, Engine};
use crate::keyspace::{
    in_model, key_of, lemma_key_in_model, lemma_key_split, lemma_models_disjoint, model_prefix,
    pk_of, valid_model,
};
use crate::order::{
    lemma_lex_asymmetric, lemma_lex_common_prefix, lemma_lex_irreflexive, lemma_lex_total, lex_lt,
};
use crate::store::{
    all_pks_valid, eq_key, gte_key, lte_key, prefix_key, put_all, query_key, query_tag,
    query_text, select, values_of, without, Entries, IndexQuery,
};
use crate::host::{
    host_effect, is_structured_value, lemma_put_all_records, null_value, record_pk,
    records_valid, result_of, HostCall, Invocation,
};
use crate::keyspace::valid_pk;
use crate::wire::{scan_list, scan_query};
use vstd::utf8::encode_utf8;

verus! {

/// What a selection holds: entries of `es` that satisfy `f`, all of them, in
/// the order of `es`.
pub proof fn lemma_select_facts(es: Entries, f: spec_fn(Seq<u8>) -> bool)
    ensures
        forall|i: int|
            0 <= i < select(es, f).len() ==> f(#[trigger] select(es, f)[i].0) && es.contains(
                select(es, f)[i],
            ),
        forall|j: int| 0 <= j < es.len() && f(#[trigger] es[j].0) ==> select(es, f).contains(es[j]),
        sorted_keys(es) ==> sorted_keys(select(es, f)),
    decreases es.len(),
{
    reveal(Seq::filter);
    let pred = |e: (Seq<u8>, Seq<u8>)| f(e.0);
    let sel = select(es, f);
    if es.len() > 0 {
        let d = es.drop_last();
        let last = es.last();
        lemma_select_facts(d, f);
        let sub = select(d, f);
        assert(sel == if f(last.0) { sub.push(last) } else { sub });
        assert forall|i: int| 0 <= i < sel.len() implies f(#[trigger] sel[i].0) && es.contains(sel[i]) by {
            if i < sub.len() {
                assert(sel[i] == sub[i]);
                let j = choose|j: int| 0 <= j < d.len() && d[j] == sub[i];
                assert(es[j] == sel[i]);
            } else {
                assert(es[es.len() - 1] == sel[i]);
            }
        }
        assert forall|j: int| 0 <= j < es.len() && f(#[trigger] es[j].0) implies sel.contains(es[j]) by {
            if j < d.len() {
                assert(d[j] == es[j]);
                assert(f(d[j].0));
                let i = choose|i: int| 0 <= i < sub.len() && sub[i] == d[j];
                assert(sel[i] == es[j]);
            } else {
                assert(sel[sel.len() - 1] == es[j]);
            }
        }
        if sorted_keys(es) {
            assert(sorted_keys(d));
            assert forall|a: int, b: int| 0 <= a < b < sel.len() implies #[trigger] lex_lt(
                sel[a].0,
                sel[b].0,
            ) by {
                if b < sub.len() {
                    assert(sel[a] == sub[a] && sel[b] == sub[b]);
                } else {
                    assert(sel[a] == sub[a]);
                    let j = choose|j: int| 0 <= j < d.len() && d[j] == sub[a];
                    assert(lex_lt(es[j].0, es[es.len() - 1].0));
                }
            }
        }
    }
}

/// A selection by a key that no stored key satisfies is empty.
pub proof fn lemma_select_none(es: Entries, m: Map<Seq<u8>, Seq<u8>>, f: spec_fn(Seq<u8>) -> bool)
    requires
        lists_map(es, m),
        forall|k: Seq<u8>| m.contains_key(k) ==> !f(k),
    ensures
        select(es, f).len() == 0,
{
    lemma_select_facts(es, f);
    if select(es, f).len() > 0 {
        let e = select(es, f)[0];
        let j = choose|j: int| 0 <= j < es.len() && es[j] == e;
        assert(m.contains_key(es[j].0));
    }
}

/// The selection of a single stored key is that one entry.
pub proof fn lemma_select_one(es: Entries, m: Map<Seq<u8>, Seq<u8>>, k: Seq<u8>)
    requires
        lists_map(es, m),
        m.contains_key(k),
    ensures
        select(es, |x: Seq<u8>| x == k) == seq![(k, m[k])],
{
    let f = |x: Seq<u8>| x == k;
    let sel = select(es, f);
    lemma_select_facts(es, f);
    let j = choose|j: int| 0 <= j < es.len() && es[j].0 == k;
    assert(sel.contains(es[j]));
    let i = choose|i: int| 0 <= i < sel.len() && sel[i] == es[j];
    assert forall|a: int| 0 <= a < sel.len() implies sel[a] == es[j] by {
        let b = choose|b: int| 0 <= b < es.len() && es[b] == sel[a];
        if b != j {
            if b < j {
                assert(lex_lt(es[b].0, es[j].0));
            } else {
                assert(lex_lt(es[j].0, es[b].0));
            }
            lemma_lex_irreflexive(k);
        }
    }
    if sel.len() > 1 {
        assert(lex_lt(sel[0].0, sel[1].0));
        lemma_lex_irreflexive(k);
    }
    assert(sel =~= seq![(k, m[k])]);
}

/// After a record is put, a get of its primary key returns exactly that record.
pub proof fn lemma_put_then_get(
    before: Engine,
    after: Engine,
    model: Seq<u8>,
    pk: Seq<u8>,
    record: Seq<u8>,
)
    requires
        after.wf(),
        after@ == before@.insert(key_of(model, pk), record),
    ensures
        values_of(select(after.entries(), eq_key(model, pk))) == seq![record],
{
    after.lemma_wf();
    let k = key_of(model, pk);
    lemma_select_one(after.entries(), after@, k);
    assert(eq_key(model, pk) == (|x: Seq<u8>| x == k));
    assert(values_of(seq![(k, record)]) =~= seq![record]);
}

/// A selection within one model returns no record stored under another model,
/// whatever the expression.
pub proof fn lemma_models_isolated(db: Engine, m1: Seq<u8>, m2: Seq<u8>, q: IndexQuery)
    requires
        db.wf(),
        valid_model(m1),
        valid_model(m2),
        m1 != m2,
    ensures
        forall|i: int|
            0 <= i < select(db.entries(), query_key(m1, q)).len() ==> in_model(
                m1,
                #[trigger] select(db.entries(), query_key(m1, q))[i].0,
            ) && !in_model(m2, select(db.entries(), query_key(m1, q))[i].0),
{
    let f = query_key(m1, q);
    let sel = select(db.entries(), f);
    lemma_select_facts(db.entries(), f);
    assert forall|i: int| 0 <= i < sel.len() implies in_model(m1, #[trigger] sel[i].0) && !in_model(
        m2,
        sel[i].0,
    ) by {
        let k = sel[i].0;
        assert(f(k));
        match q {
            IndexQuery::Eq(v) => {
                lemma_key_in_model(m1, vstd::utf8::encode_utf8(v@));
            },
            IndexQuery::BeginsWith(v) => {
                let p = key_of(m1, vstd::utf8::encode_utf8(v@));
                assert(model_prefix(m1) =~= k.subrange(0, m1.len() + 1 as int)) by {
                    assert forall|t: int| 0 <= t < m1.len() + 1 implies model_prefix(m1)[t] == k[t] by {
                        assert(p[t] == k.subrange(0, p.len() as int)[t]);
                    }
                }
            },
            _ => {},
        }
        lemma_models_disjoint(m1, m2, k);
    }
}

/// Deleting by `Eq` twice leaves what deleting once left, and a later get of
/// that primary key is empty.
pub proof fn lemma_delete_idempotent(once: Engine, twice: Engine, before: Map<Seq<u8>, Seq<u8>>, model: Seq<u8>, pk: Seq<u8>)
    requires
        once.wf(),
        once@ == without(before, eq_key(model, pk)),
        twice@ == without(once@, eq_key(model, pk)),
    ensures
        twice@ == once@,
        select(once.entries(), eq_key(model, pk)).len() == 0,
{
    assert(twice@ =~= once@);
    once.lemma_wf();
    lemma_select_none(once.entries(), once@, eq_key(model, pk));
}

/// A get by `BeginsWith(v)` returns exactly the stored records of the model whose
/// primary key begins with `v`, in ascending primary-key order.
pub proof fn lemma_begins_with_selects_prefix(db: Engine, model: Seq<u8>, v: Seq<u8>)
    requires
        db.wf(),
    ensures
        forall|i: int|
            0 <= i < select(db.entries(), prefix_key(model, v)).len() ==> {
                let e = #[trigger] select(db.entries(), prefix_key(model, v))[i];
                &&& db@.contains_key(e.0) && db@[e.0] == e.1
                &&& in_model(model, e.0)
                &&& v.is_prefix_of(pk_of(model, e.0))
            },
        forall|k: Seq<u8>|
            #![trigger db@.contains_key(k)]
            db@.contains_key(k) && in_model(model, k) && v.is_prefix_of(pk_of(model, k)) ==> exists|i: int|
                0 <= i < select(db.entries(), prefix_key(model, v)).len() && select(
                    db.entries(),
                    prefix_key(model, v),
                )[i].0 == k,
        forall|i: int, j: int|
            0 <= i < j < select(db.entries(), prefix_key(model, v)).len() ==> lex_lt(
                pk_of(model, #[trigger] select(db.entries(), prefix_key(model, v))[i].0),
                pk_of(model, #[trigger] select(db.entries(), prefix_key(model, v))[j].0),
            ),
{
    db.lemma_wf();
    let es = db.entries();
    let f = prefix_key(model, v);
    let sel = select(es, f);
    let p = key_of(model, v);
    let mp = model_prefix(model);
    lemma_select_facts(es, f);
    assert forall|k: Seq<u8>| #[trigger] f(k) implies in_model(model, k) && v.is_prefix_of(pk_of(model, k)) by {
        assert(p[0] == p[0]);
        assert(mp =~= k.subrange(0, mp.len() as int)) by {
            assert forall|t: int| 0 <= t < mp.len() implies mp[t] == k[t] by {
                assert(p[t] == k.subrange(0, p.len() as int)[t]);
            }
        }
        assert(v =~= pk_of(model, k).subrange(0, v.len() as int)) by {
            assert forall|t: int| 0 <= t < v.len() implies v[t] == pk_of(model, k)[t] by {
                assert(p[mp.len() + t] == k.subrange(0, p.len() as int)[mp.len() + t]);
            }
        }
    }
    assert forall|i: int| 0 <= i < sel.len() implies ({
        let e = #[trigger] sel[i];
        &&& db@.contains_key(e.0) && db@[e.0] == e.1
        &&& in_model(model, e.0)
        &&& v.is_prefix_of(pk_of(model, e.0))
    }) by {
        let j = choose|j: int| 0 <= j < es.len() && es[j] == sel[i];
        assert(db@.contains_key(es[j].0));
        assert(f(sel[i].0));
    }
    assert forall|k: Seq<u8>|
        #![trigger db@.contains_key(k)]
        db@.contains_key(k) && in_model(model, k) && v.is_prefix_of(pk_of(model, k)) implies exists|i: int|
            0 <= i < sel.len() && sel[i].0 == k by {
        let j = choose|j: int| 0 <= j < es.len() && es[j].0 == k;
        lemma_key_split(model, k);
        let pk = pk_of(model, k);
        assert(p =~= k.subrange(0, p.len() as int)) by {
            assert forall|t: int| 0 <= t < p.len() implies p[t] == k[t] by {
                if t >= mp.len() {
                    assert(v[t - mp.len()] == pk.subrange(0, v.len() as int)[t - mp.len()]);
                }
            }
        }
        assert(f(es[j].0));
        assert(sel.contains(es[j]));
    }
    assert forall|i: int, j: int| 0 <= i < j < sel.len() implies lex_lt(
        pk_of(model, #[trigger] sel[i].0),
        pk_of(model, #[trigger] sel[j].0),
    ) by {
        assert(lex_lt(sel[i].0, sel[j].0));
        assert(f(sel[i].0) && f(sel[j].0));
        lemma_key_split(model, sel[i].0);
        lemma_key_split(model, sel[j].0);
        lemma_lex_common_prefix(mp, pk_of(model, sel[i].0), pk_of(model, sel[j].0));
    }
}

/// `Gte(v)` and `Lte(v)` together select every record of the model, and both
/// select exactly the record with primary key `v`.
pub proof fn lemma_range_closure(db: Engine, model: Seq<u8>, v: Seq<u8>)
    requires
        db.wf(),
    ensures
        forall|e: (Seq<u8>, Seq<u8>)|
            #![trigger select(db.entries(), gte_key(model, v)).contains(e)]
            #![trigger select(db.entries(), lte_key(model, v)).contains(e)]
            db.entries().contains(e) ==> {
                &&& (select(db.entries(), gte_key(model, v)).contains(e) || select(
                    db.entries(),
                    lte_key(model, v),
                ).contains(e)) <==> in_model(model, e.0)
                &&& (select(db.entries(), gte_key(model, v)).contains(e) && select(
                    db.entries(),
                    lte_key(model, v),
                ).contains(e)) <==> e.0 == key_of(model, v)
            },
{
    let es = db.entries();
    let g = gte_key(model, v);
    let l = lte_key(model, v);
    lemma_select_facts(es, g);
    lemma_select_facts(es, l);
    lemma_key_in_model(model, v);
    assert forall|e: (Seq<u8>, Seq<u8>)|
        #![trigger select(es, g).contains(e)]
        #![trigger select(es, l).contains(e)]
        es.contains(e) implies {
            &&& (select(es, g).contains(e) || select(es, l).contains(e)) <==> in_model(model, e.0)
            &&& (select(es, g).contains(e) && select(es, l).contains(e)) <==> e.0 == key_of(model, v)
        } by {
        let j = choose|j: int| 0 <= j < es.len() && es[j] == e;
        let k = key_of(model, v);
        lemma_lex_total(k, e.0);
        lemma_lex_asymmetric(k, e.0);
        if select(es, g).contains(e) {
            let i = choose|i: int| 0 <= i < select(es, g).len() && select(es, g)[i] == e;
            assert(g(select(es, g)[i].0));
        }
        if select(es, l).contains(e) {
            let i = choose|i: int| 0 <= i < select(es, l).len() && select(es, l)[i] == e;
            assert(l(select(es, l)[i].0));
        }
        if in_model(model, e.0) {
            if g(e.0) {
                assert(g(es[j].0));
            } else {
                assert(l(es[j].0));
            }
        }
        if e.0 == k {
            assert(g(es[j].0) && l(es[j].0));
        }
    }
}

/// A typed call on the records, with decoded arguments.
pub enum CrudCall {
    GetByPk(IndexQuery),
    DeleteByPk(IndexQuery),
    Put(String, Vec<u8>),
    BatchPut(Vec<(String, Vec<u8>)>),
}

/// What a typed call does to the stored pairs of `model`, by the contracts of
/// `get_by_pk`, `delete_by_pk`, `put` and `batch_put`.
pub open spec fn crud_effect(m: Map<Seq<u8>, Seq<u8>>, model: Seq<u8>, c: CrudCall) -> Map<Seq<u8>, Seq<u8>> {
    match c {
        CrudCall::GetByPk(_) => m,
        CrudCall::DeleteByPk(q) => without(m, query_key(model, q)),
        CrudCall::Put(k, v) => if valid_pk(encode_utf8(k@)) {
            m.insert(key_of(model, encode_utf8(k@)), v@)
        } else {
            m
        },
        CrudCall::BatchPut(ps) => if all_pks_valid(ps@) {
            put_all(m, model, ps@)
        } else {
            m
        },
    }
}

/// The bytes of host call `h` decode to the arguments of typed call `c`.
pub open spec fn decodes_to(h: HostCall, c: CrudCall) -> bool {
    match (h, c) {
        (HostCall::GetByPk(b), CrudCall::GetByPk(q)) => scan_query(b@, None) == Some(
            Some((query_tag(q), encode_utf8(query_text(q)))),
        ),
        (HostCall::DeleteByPk(b), CrudCall::DeleteByPk(q)) => scan_query(b@, None) == Some(
            Some((query_tag(q), encode_utf8(query_text(q)))),
        ),
        (HostCall::Put(b), CrudCall::Put(k, v)) => record_pk(b@) == Some(encode_utf8(k@)) && v@ == b@,
        (HostCall::BatchPut(b), CrudCall::BatchPut(ps)) => scan_list(b@, seq![]) matches Some(items)
            && items.len() == ps@.len() && forall|i: int|
            0 <= i < items.len() ==> #[trigger] record_pk(items[i]) == Some(encode_utf8(ps@[i].0@))
                && ps@[i].1@ == items[i],
        _ => false,
    }
}

/// The stored pairs after host calls `hs`, first to last.
pub open spec fn host_run(m: Map<Seq<u8>, Seq<u8>>, model: Seq<u8>, hs: Seq<HostCall>) -> Map<Seq<u8>, Seq<u8>>
    decreases hs.len(),
{
    if hs.len() == 0 {
        m
    } else {
        host_effect(host_run(m, model, hs.drop_last()), model, hs.last())
    }
}

/// The stored pairs after typed calls `cs`, first to last.
pub open spec fn crud_run(m: Map<Seq<u8>, Seq<u8>>, model: Seq<u8>, cs: Seq<CrudCall>) -> Map<Seq<u8>, Seq<u8>>
    decreases cs.len(),
{
    if cs.len() == 0 {
        m
    } else {
        crud_effect(crud_run(m, model, cs.drop_last()), model, cs.last())
    }
}

/// One host call does what the typed call it decodes to does.
pub proof fn lemma_host_call_matches(m: Map<Seq<u8>, Seq<u8>>, model: Seq<u8>, h: HostCall, c: CrudCall)
    requires
        decodes_to(h, c),
    ensures
        host_effect(m, model, h) == crud_effect(m, model, c),
{
    match (h, c) {
        (HostCall::BatchPut(b), CrudCall::BatchPut(ps)) => {
            let items = scan_list(b@, seq![])->0;
            assert forall|i: int| 0 <= i < ps@.len() implies #[trigger] record_pk(items[i]) is Some by {}
            assert forall|i: int| 0 <= i < ps@.len() implies encode_utf8((#[trigger] ps@[i]).0@) == record_pk(
                items[i],
            )->0 && ps@[i].1@ == items[i] by {
                assert(record_pk(items[i]) == Some(encode_utf8(ps@[i].0@)));
            }
            lemma_put_all_records(m, model, ps@, items);
            assert(records_valid(items) <==> all_pks_valid(ps@)) by {
                if records_valid(items) {
                    assert forall|i: int| 0 <= i < ps@.len() implies valid_pk(encode_utf8(#[trigger] ps@[i].0@)) by {
                        assert(record_pk(items[i]) == Some(encode_utf8(ps@[i].0@)));
                    }
                }
                if all_pks_valid(ps@) {
                    assert forall|i: int| 0 <= i < items.len() implies #[trigger] record_pk(items[i]) is Some
                        && valid_pk(record_pk(items[i])->0) by {
                        assert(record_pk(items[i]) == Some(encode_utf8(ps@[i].0@)));
                        assert(valid_pk(encode_utf8(ps@[i].0@)));
                    }
                }
            }
        },
        _ => {},
    }
}

/// Any run of host calls from a guest leaves the records as the typed calls
/// with the same arguments, in the same order, leave them.
pub proof fn lemma_host_calls_match_direct(m: Map<Seq<u8>, Seq<u8>>, model: Seq<u8>, hs: Seq<HostCall>, cs: Seq<CrudCall>)
    requires
        hs.len() == cs.len(),
        forall|i: int| 0 <= i < hs.len() ==> decodes_to(#[trigger] hs[i], cs[i]),
    ensures
        host_run(m, model, hs) == crud_run(m, model, cs),
    decreases hs.len(),
{
    if hs.len() > 0 {
        let n = hs.len() - 1;
        assert(decodes_to(hs[n], cs[n]));
        lemma_host_calls_match_direct(m, model, hs.drop_last(), cs.drop_last());
        lemma_host_call_matches(host_run(m, model, hs.drop_last()), model, hs.last(), cs.last());
    }
}

/// A guest that never sets an output returns null.
pub proof fn lemma_no_output_is_null(inv: Invocation)
    requires
        inv.output is None,
    ensures
        result_of(inv) == null_value(),
{
}

/// The host hands the input over unchanged and returns what the guest sets, so
/// a guest that writes back what it read returns its input: `fresh` is an
/// invocation made with an input, `read` what `host_get_input` handed out, and
/// `done` the invocation after `host_set_output` took `read` back.
pub proof fn lemma_echo_returns_input(fresh: Invocation, read: Vec<u8>, done: Invocation)
    requires
        fresh.input is Some,
        read@ == fresh.input->0@,
        is_structured_value(read@),
        done.output == Some(read),
    ensures
        result_of(done) == fresh.input->0@,
{
}

} // verus!
