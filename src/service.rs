//! The data service: the typed operations on records of any model, over one
//! engine, taking and giving records in their encoded form.
use vstd::prelude::*;
use vstd::string::StringSliceAdditionalSpecFns;
use vstd::utf8::decode_utf8_encode_utf8;
use crate::engine::Engine;
use crate::host::{
    all_decode, lemma_put_all_records, primary_keys, put_records, record_pk, records_decode,
    records_valid,
};
use crate::keyspace::{key_of, valid_pk};
use crate::store::{
    all_pks_valid, batch_put, delete_by_pk, get_by_pk, put, query_key, query_result, views,
    without, BicycleError, IndexQuery,
};
use crate::wire::decode_record_pk;

verus! {

/// The status class a remote caller sees for each kind of failure: 400 for a
/// request at fault, 404 for an unknown procedure, 500 for the rest.
pub open spec fn status_of(e: BicycleError) -> u16 {
    match e {
        BicycleError::InvalidArgument => 400,
        BicycleError::CompileError => 400,
        BicycleError::NotFound => 404,
        _ => 500,
    }
}

impl BicycleError {
    /// The status class of this failure.
    pub fn status(&self) -> (r: u16)
        ensures
            r == status_of(*self),
    {
        match self {
            BicycleError::InvalidArgument => 400,
            BicycleError::CompileError => 400,
            BicycleError::NotFound => 404,
            _ => 500,
        }
    }
}

pub struct BicycleService {
    db: Engine,
}

impl View for BicycleService {
    type V = Map<Seq<u8>, Seq<u8>>;

    /// The stored pairs of the engine.
    closed spec fn view(&self) -> Map<Seq<u8>, Seq<u8>> {
        self.db@
    }
}

impl BicycleService {
    pub closed spec fn wf(&self) -> bool {
        self.db.wf()
    }

    /// The engine's entries in key order.
    pub closed spec fn entries(&self) -> Seq<(Seq<u8>, Seq<u8>)> {
        self.db.entries()
    }

    /// A service over an empty engine.
    pub fn new() -> (r: BicycleService)
        ensures
            r.wf(),
            r@ == Map::<Seq<u8>, Seq<u8>>::empty(),
    {
        BicycleService { db: Engine::new() }
    }

    /// The engine, for host calls of an invocation.
    pub fn engine_mut(&mut self) -> (r: &mut Engine)
        ensures
            r@ == old(self)@,
            r.wf() == old(self).wf(),
            r.entries() == old(self).entries(),
            final(self)@ == final(r)@,
            final(self).wf() == final(r).wf(),
            final(self).entries() == final(r).entries(),
    {
        &mut self.db
    }

    /// The engine itself.
    pub fn engine(&self) -> (r: &Engine)
        ensures
            r.wf() == self.wf(),
            r@ == self@,
            r.entries() == self.entries(),
    {
        &self.db
    }

    /// The encoded records of `model` selected by `query`; where one of them does
    /// not decode, none is returned.
    pub fn get_by_pk(&self, model: &str, query: Option<IndexQuery>) -> (r: Result<Vec<Vec<u8>>, BicycleError>)
        requires
            self.wf(),
        ensures
            match query {
                None => r matches Err(e) && e is InvalidArgument,
                Some(q) => if all_decode(query_result(self.entries(), model.spec_bytes(), q)) {
                    r matches Ok(v) && views(v@) == query_result(self.entries(), model.spec_bytes(), q)
                } else {
                    r matches Err(e) && e is DecodeError
                },
            },
    {
        let records = get_by_pk(&self.db, model, query)?;
        if records_decode(&records) {
            Ok(records)
        } else {
            Err(BicycleError::DecodeError)
        }
    }

    /// Removes the records of `model` selected by `query`.
    pub fn delete_by_pk(&mut self, model: &str, query: Option<IndexQuery>) -> (r: Result<(), BicycleError>)
        requires
            old(self).wf(),
        ensures
            final(self).wf(),
            match query {
                None => r matches Err(e) && e is InvalidArgument && final(self)@ == old(self)@,
                Some(q) => r is Ok && final(self)@ == without(old(self)@, query_key(model.spec_bytes(), q)),
            },
    {
        delete_by_pk(&mut self.db, model, query)
    }

    /// Stores an encoded record of `model` under the primary key it carries.
    pub fn put(&mut self, model: &str, record: Vec<u8>) -> (r: Result<(), BicycleError>)
        requires
            old(self).wf(),
        ensures
            final(self).wf(),
            match record_pk(record@) {
                None => r matches Err(e) && e is DecodeError && final(self)@ == old(self)@,
                Some(pk) => if valid_pk(pk) {
                    r is Ok && final(self)@ == old(self)@.insert(key_of(model.spec_bytes(), pk), record@)
                } else {
                    r matches Err(e) && e is InvalidArgument && final(self)@ == old(self)@
                },
            },
    {
        let pk = match decode_record_pk(record.as_slice()) {
            Ok(pk) => pk,
            Err(e) => return Err(e),
        };
        proof {
            decode_utf8_encode_utf8(record_pk(record@)->0);
        }
        put(&mut self.db, model, pk, record)
    }

    /// Stores encoded records of `model` in one batch: all of them, or none
    /// where one does not decode or has an invalid primary key.
    pub fn batch_put(&mut self, model: &str, records: Vec<Vec<u8>>) -> (r: Result<(), BicycleError>)
        requires
            old(self).wf(),
        ensures
            final(self).wf(),
            r is Ok <==> records_valid(views(records@)),
            r is Ok ==> final(self)@ == put_records(old(self)@, model.spec_bytes(), views(records@)),
            r is Err ==> final(self)@ == old(self)@,
            r matches Err(e) ==> if exists|j: int|
                0 <= j < records@.len() && (#[trigger] record_pk(views(records@)[j])) is None {
                e is DecodeError
            } else {
                e is InvalidArgument
            },
    {
        let ghost all = views(records@);
        let params = match primary_keys(&records) {
            Some(p) => p,
            None => {
                proof {
                    let j = choose|j: int| 0 <= j < records@.len() && (#[trigger] record_pk(records@[j]@)) is None;
                    assert(all[j] == records@[j]@);
                }
                return Err(BicycleError::DecodeError);
            },
        };
        let ghost ps = params@;
        proof {
            lemma_put_all_records(self.db@, model.spec_bytes(), ps, all);
            assert(all_pks_valid(ps) <==> records_valid(all)) by {
                if all_pks_valid(ps) {
                    assert forall|j: int| 0 <= j < all.len() implies #[trigger] record_pk(all[j]) is Some
                        && valid_pk(record_pk(all[j])->0) by {
                        assert(valid_pk(vstd::utf8::encode_utf8(ps[j].0@)));
                    }
                }
                if records_valid(all) {
                    assert forall|j: int| 0 <= j < ps.len() implies valid_pk(
                        vstd::utf8::encode_utf8(#[trigger] ps[j].0@),
                    ) by {
                        assert(record_pk(all[j]) is Some);
                    }
                }
            }
        }
        batch_put(&mut self.db, model, params)
    }
}

} // verus!
