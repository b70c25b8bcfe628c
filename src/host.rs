//! The host side of one procedure invocation: the input and output slot, and
//! the functions a guest calls to reach the records. A guest hands over bytes
//! it wrote into its memory (`None` where they could not be read) and takes
//! back bytes to copy into its memory, or a status: 1 for success, 0 for failure.
use vstd::prelude::*;
use vstd::string::StringSliceAdditionalSpecFns;
use vstd::utf8::decode_utf8_encode_utf8;
use prost::Message;
use crate::engine::Engine;
use crate::keyspace::{key_of, valid_pk};
use crate::store::{batch_put, delete_by_pk, get_by_pk, put, tag_key, tag_result, without};
use crate::wire::{decode_index_query, decode_list, decode_record_pk, encode_list, frame_list, scan_list, scan_pk, scan_query};

verus! {

/// Whether `b` decodes as a structured value.
pub uninterp spec fn is_structured_value(b: Seq<u8>) -> bool;

/// Relies on prost-types' `Value` with `prost::Message::decode`: whether the
/// bytes decode as a `google.protobuf.Value`, which depends on the bytes alone.
#[verifier::external_body]
fn decodes_as_value(b: &[u8]) -> (r: bool)
    ensures
        r == is_structured_value(b@),
{
    prost_types::Value::decode(b).is_ok()
}

/// The structured value null: field 1, the null kind, with value 0.
pub open spec fn null_value() -> Seq<u8> {
    seq![0x08u8, 0x00u8]
}

/// A pointer and a length in guest memory as one number: the pointer in the
/// high 32 bits, the length in the low 32 bits.
pub fn pack_ptr_len(ptr: u32, len: u32) -> (r: u64)
    ensures
        r >> 32u64 == ptr as u64,
        r & 0xffff_ffffu64 == len as u64,
        r == ptr as u64 * 0x1_0000_0000 + len as u64,
{
    let p = ptr as u64;
    let l = len as u64;
    let r = (p << 32u64) | l;
    assert(r >> 32u64 == p && r & 0xffff_ffffu64 == l && r == p * 0x1_0000_0000 + l) by (bit_vector)
        requires
            p < 0x1_0000_0000,
            l < 0x1_0000_0000,
            r == (p << 32u64) | l,
    ;
    r
}

/// What an invocation returns: its output, or null where none was set.
pub open spec fn result_of(inv: Invocation) -> Seq<u8> {
    match inv.output {
        Some(o) => o@,
        None => null_value(),
    }
}

/// The input of one invocation and its output slot.
pub struct Invocation {
    pub input: Option<Vec<u8>>,
    pub output: Option<Vec<u8>>,
}

impl Invocation {
    /// An invocation with `input` and the output slot unset.
    pub fn new(input: Option<Vec<u8>>) -> (r: Invocation)
        ensures
            r.input == input,
            r.output is None,
    {
        Invocation { input, output: None }
    }

    /// The bytes of the input, to copy into the guest; `None` where there is no input.
    pub fn host_get_input(&self) -> (r: Option<Vec<u8>>)
        ensures
            r is None <==> self.input is None,
            r matches Some(b) ==> b@ == self.input->0@,
    {
        match &self.input {
            None => None,
            Some(b) => Some(vstd::slice::slice_to_vec(b.as_slice())),
        }
    }

    /// Stores `bytes` as the output if they decode as a structured value; a later
    /// call overwrites an earlier one.
    pub fn host_set_output(&mut self, bytes: Option<Vec<u8>>) -> (r: i32)
        ensures
            final(self).input == old(self).input,
            r == 1 <==> (bytes matches Some(b) && is_structured_value(b@)),
            r == 1 ==> final(self).output == bytes,
            r != 1 ==> r == 0 && final(self).output == old(self).output,
    {
        match bytes {
            None => 0,
            Some(b) => {
                if decodes_as_value(b.as_slice()) {
                    self.output = Some(b);
                    1
                } else {
                    0
                }
            },
        }
    }

    /// The result of the invocation once the guest has returned: the output, or
    /// null where the guest never set one.
    pub fn finish(self) -> (r: Vec<u8>)
        ensures
            r@ == result_of(self),
    {
        match self.output {
            Some(o) => o,
            None => vec![0x08u8, 0x00u8],
        }
    }
}

/// The primary key of an encoded record, if it decodes.
pub open spec fn record_pk(b: Seq<u8>) -> Option<Seq<u8>> {
    scan_pk(b, seq![])
}

/// Every record decodes.
pub open spec fn all_decode(items: Seq<Seq<u8>>) -> bool {
    forall|i: int| 0 <= i < items.len() ==> #[trigger] record_pk(items[i]) is Some
}

/// Whether every record of `items` decodes.
pub fn records_decode(items: &Vec<Vec<u8>>) -> (r: bool)
    ensures
        r == all_decode(crate::store::views(items@)),
{
    let ghost all = crate::store::views(items@);
    let mut i: usize = 0;
    while i < items.len()
        invariant
            all == crate::store::views(items@),
            i <= items@.len(),
            forall|j: int| 0 <= j < i ==> #[trigger] record_pk(all[j]) is Some,
        decreases items@.len() - i,
    {
        if decode_record_pk(items[i].as_slice()).is_err() {
            assert(record_pk(all[i as int]) is None);
            return false;
        }
        i = i + 1;
    }
    true
}

/// Every record decodes and has a valid primary key.
pub open spec fn records_valid(items: Seq<Seq<u8>>) -> bool {
    forall|i: int|
        0 <= i < items.len() ==> #[trigger] record_pk(items[i]) is Some && valid_pk(record_pk(items[i])->0)
}

/// The contents after `m` takes the encoded records `items` of `model`, first to last.
pub open spec fn put_records(m: Map<Seq<u8>, Seq<u8>>, model: Seq<u8>, items: Seq<Seq<u8>>) -> Map<
    Seq<u8>,
    Seq<u8>,
>
    decreases items.len(),
{
    if items.len() == 0 {
        m
    } else {
        put_records(m, model, items.drop_last()).insert(
            key_of(model, record_pk(items.last())->0),
            items.last(),
        )
    }
}

/// Get by an encoded expression: the selected records as an encoded list, or
/// `None` where the request is unreadable, does not decode or has no expression,
/// or a selected record does not decode.
pub fn host_get_by_pk(db: &Engine, model: &str, request: Option<Vec<u8>>) -> (r: Option<Vec<u8>>)
    requires
        db.wf(),
    ensures
        r is Some <==> (request matches Some(b) && scan_query(b@, None) matches Some(Some((t, v)))
            && all_decode(tag_result(db.entries(), model.spec_bytes(), t, v))),
        r matches Some(out) ==> ({
            let (t, v) = scan_query(request->0@, None)->0->0;
            out@ == frame_list(tag_result(db.entries(), model.spec_bytes(), t, v))
        }),
{
    let b = match request {
        None => return None,
        Some(b) => b,
    };
    let q = match decode_index_query(b.as_slice()) {
        Ok(Some(q)) => q,
        _ => return None,
    };
    match get_by_pk(db, model, Some(q)) {
        Ok(records) => if records_decode(&records) {
            Some(encode_list(&records))
        } else {
            None
        },
        Err(_) => None,
    }
}

/// Delete by an encoded expression.
pub fn host_delete_by_pk(db: &mut Engine, model: &str, request: Option<Vec<u8>>) -> (r: i32)
    requires
        old(db).wf(),
    ensures
        final(db).wf(),
        r == 1 <==> (request matches Some(b) && scan_query(b@, None) matches Some(Some(_))),
        r == 1 ==> ({
            let (t, v) = scan_query(request->0@, None)->0->0;
            final(db)@ == without(old(db)@, tag_key(model.spec_bytes(), t, v))
        }),
        r != 1 ==> r == 0 && final(db)@ == old(db)@,
        request matches Some(b) ==> final(db)@ == host_effect(old(db)@, model.spec_bytes(), HostCall::DeleteByPk(b)),
{
    let b = match request {
        None => return 0,
        Some(b) => b,
    };
    let q = match decode_index_query(b.as_slice()) {
        Ok(Some(q)) => q,
        _ => return 0,
    };
    match delete_by_pk(db, model, Some(q)) {
        Ok(()) => 1,
        Err(_) => 0,
    }
}

/// Put of one encoded record under the primary key it carries.
pub fn host_put(db: &mut Engine, model: &str, request: Option<Vec<u8>>) -> (r: i32)
    requires
        old(db).wf(),
    ensures
        final(db).wf(),
        r == 1 <==> (request matches Some(b) && record_pk(b@) matches Some(pk) && valid_pk(pk)),
        r == 1 ==> final(db)@ == old(db)@.insert(key_of(model.spec_bytes(), record_pk(request->0@)->0), request->0@),
        r != 1 ==> r == 0 && final(db)@ == old(db)@,
        request matches Some(b) ==> final(db)@ == host_effect(old(db)@, model.spec_bytes(), HostCall::Put(b)),
{
    let b = match request {
        None => return 0,
        Some(b) => b,
    };
    let pk = match decode_record_pk(b.as_slice()) {
        Ok(pk) => pk,
        Err(_) => return 0,
    };
    proof {
        decode_utf8_encode_utf8(record_pk(b@)->0);
    }
    match put(db, model, pk, b) {
        Ok(()) => 1,
        Err(_) => 0,
    }
}

/// Put of an encoded list of records in one batch: all of them or, where one
/// does not decode or has an invalid primary key, none.
pub fn host_batch_put(db: &mut Engine, model: &str, request: Option<Vec<u8>>) -> (r: i32)
    requires
        old(db).wf(),
    ensures
        final(db).wf(),
        r == 1 <==> (request matches Some(b) && scan_list(b@, seq![]) matches Some(items) && records_valid(items)),
        r == 1 ==> final(db)@ == put_records(old(db)@, model.spec_bytes(), scan_list(request->0@, seq![])->0),
        r != 1 ==> r == 0 && final(db)@ == old(db)@,
        request matches Some(b) ==> final(db)@ == host_effect(old(db)@, model.spec_bytes(), HostCall::BatchPut(b)),
{
    let b = match request {
        None => return 0,
        Some(b) => b,
    };
    let items = match decode_list(b.as_slice()) {
        Ok(items) => items,
        Err(_) => return 0,
    };
    let ghost all = crate::store::views(items@);
    let params = match primary_keys(&items) {
        Some(p) => p,
        None => {
            proof {
                let j = choose|j: int| 0 <= j < items@.len() && (#[trigger] record_pk(items@[j]@)) is None;
                assert(all[j] == items@[j]@);
            }
            return 0;
        },
    };
    let ghost ps = params@;
    proof {
        lemma_put_all_records(db@, model.spec_bytes(), ps, all);
        assert(crate::store::all_pks_valid(ps) <==> records_valid(all)) by {
            if crate::store::all_pks_valid(ps) {
                assert forall|j: int| 0 <= j < all.len() implies #[trigger] record_pk(all[j]) is Some
                    && valid_pk(record_pk(all[j])->0) by {
                    assert(valid_pk(vstd::utf8::encode_utf8(ps[j].0@)));
                }
            }
            if records_valid(all) {
                assert forall|j: int| 0 <= j < ps.len() implies valid_pk(
                    vstd::utf8::encode_utf8(#[trigger] ps[j].0@),
                ) by {
                    assert(record_pk(all[j]) is Some);
                }
            }
        }
    }
    match batch_put(db, model, params) {
        Ok(()) => 1,
        Err(_) => 0,
    }
}

/// Each record with the primary key it carries, or `None` where one does not decode.
pub(crate) fn primary_keys(items: &Vec<Vec<u8>>) -> (r: Option<Vec<(String, Vec<u8>)>>)
    ensures
        r is None ==> exists|j: int| 0 <= j < items@.len() && (#[trigger] record_pk(items@[j]@)) is None,
        r matches Some(ps) ==> ps@.len() == items@.len()
            && (forall|j: int| 0 <= j < items@.len() ==> #[trigger] record_pk(crate::store::views(items@)[j]) is Some)
            && (forall|j: int|
                0 <= j < items@.len() ==> vstd::utf8::encode_utf8((#[trigger] ps@[j]).0@) == record_pk(
                    crate::store::views(items@)[j],
                )->0 && ps@[j].1@ == crate::store::views(items@)[j]),
{
    let ghost all = crate::store::views(items@);
    let mut params: Vec<(String, Vec<u8>)> = Vec::new();
    let mut i: usize = 0;
    while i < items.len()
        invariant
            all == crate::store::views(items@),
            i <= items@.len(),
            params@.len() == i,
            forall|j: int| 0 <= j < i ==> #[trigger] record_pk(all[j]) is Some,
            forall|j: int|
                0 <= j < i ==> vstd::utf8::encode_utf8((#[trigger] params@[j]).0@) == record_pk(all[j])->0
                    && params@[j].1@ == all[j],
        decreases items@.len() - i,
    {
        let pk = match decode_record_pk(items[i].as_slice()) {
            Ok(pk) => pk,
            Err(_) => {
                assert(record_pk(items@[i as int]@) is None);
                return None;
            },
        };
        proof {
            decode_utf8_encode_utf8(record_pk(all[i as int])->0);
        }
        params.push((pk, vstd::slice::slice_to_vec(items[i].as_slice())));
        i = i + 1;
    }
    Some(params)
}

pub proof fn lemma_put_all_records(
    m: Map<Seq<u8>, Seq<u8>>,
    model: Seq<u8>,
    ps: Seq<(String, Vec<u8>)>,
    items: Seq<Seq<u8>>,
)
    requires
        ps.len() == items.len(),
        forall|j: int| 0 <= j < ps.len() ==> #[trigger] record_pk(items[j]) is Some,
        forall|j: int|
            0 <= j < ps.len() ==> vstd::utf8::encode_utf8((#[trigger] ps[j]).0@) == record_pk(items[j])->0
                && ps[j].1@ == items[j],
    ensures
        crate::store::put_all(m, model, ps) == put_records(m, model, items),
    decreases ps.len(),
{
    if ps.len() > 0 {
        let n = ps.len() - 1;
        assert(ps[n].1@ == items[n]);
        assert(record_pk(items[n]) is Some);
        lemma_put_all_records(m, model, ps.drop_last(), items.drop_last());
    }
}

/// A call a guest makes into the records, with the bytes it handed over.
pub enum HostCall {
    GetByPk(Vec<u8>),
    DeleteByPk(Vec<u8>),
    Put(Vec<u8>),
    BatchPut(Vec<u8>),
}

/// What a host call does to the stored pairs of `model`.
pub open spec fn host_effect(m: Map<Seq<u8>, Seq<u8>>, model: Seq<u8>, c: HostCall) -> Map<Seq<u8>, Seq<u8>> {
    match c {
        HostCall::GetByPk(_) => m,
        HostCall::DeleteByPk(b) => match scan_query(b@, None) {
            Some(Some((t, v))) => without(m, tag_key(model, t, v)),
            _ => m,
        },
        HostCall::Put(b) => match record_pk(b@) {
            Some(pk) => if valid_pk(pk) {
                m.insert(key_of(model, pk), b@)
            } else {
                m
            },
            None => m,
        },
        HostCall::BatchPut(b) => match scan_list(b@, seq![]) {
            Some(items) => if records_valid(items) {
                put_records(m, model, items)
            } else {
                m
            },
            None => m,
        },
    }
}

} // verus!
