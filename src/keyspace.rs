//! The key layout of records on the engine: `model`, one `#` byte, then `pk`.
use vstd::prelude::*;
use vstd::string::StringSliceAdditionalSpecFns;

verus! {

/// The byte between a model name and a primary key in a storage key (`#`).
pub const KEY_SEPARATOR: u8 = 35;

/// ASCII letters, digits and `_`.
pub open spec fn is_model_byte(b: u8) -> bool {
    (48 <= b <= 57) || (65 <= b <= 90) || (97 <= b <= 122) || b == 95
}

/// A model name: non-empty, of ASCII letters, digits and underscores.
pub open spec fn valid_model(m: Seq<u8>) -> bool {
    m.len() > 0 && forall|i: int| 0 <= i < m.len() ==> is_model_byte(#[trigger] m[i])
}

/// A primary key: non-empty, without the separator byte.
pub open spec fn valid_pk(p: Seq<u8>) -> bool {
    p.len() > 0 && !p.contains(KEY_SEPARATOR)
}

/// The bytes that begin every key of model `m`.
pub open spec fn model_prefix(m: Seq<u8>) -> Seq<u8> {
    m.push(KEY_SEPARATOR)
}

/// The storage key of the record of model `m` with primary key `p`.
pub open spec fn key_of(m: Seq<u8>, p: Seq<u8>) -> Seq<u8> {
    model_prefix(m) + p
}

/// `k` lies in the part of the keyspace that belongs to model `m`.
pub open spec fn in_model(m: Seq<u8>, k: Seq<u8>) -> bool {
    model_prefix(m).is_prefix_of(k)
}

/// The primary key part of a key of model `m`.
pub open spec fn pk_of(m: Seq<u8>, k: Seq<u8>) -> Seq<u8> {
    k.skip(m.len() + 1 as int)
}

pub proof fn lemma_key_in_model(m: Seq<u8>, p: Seq<u8>)
    ensures
        in_model(m, key_of(m, p)),
        pk_of(m, key_of(m, p)) == p,
        key_of(m, p).len() == m.len() + 1 + p.len(),
{
    assert(model_prefix(m) =~= key_of(m, p).subrange(0, m.len() + 1 as int));
    assert(pk_of(m, key_of(m, p)) =~= p);
}

/// A key of model `m` is `m`'s prefix followed by its primary key.
pub proof fn lemma_key_split(m: Seq<u8>, k: Seq<u8>)
    requires
        in_model(m, k),
    ensures
        k == key_of(m, pk_of(m, k)),
{
    assert(k =~= key_of(m, pk_of(m, k)));
}

/// No key lies in the parts of two different models.
pub proof fn lemma_models_disjoint(m1: Seq<u8>, m2: Seq<u8>, k: Seq<u8>)
    requires
        valid_model(m1),
        valid_model(m2),
        m1 != m2,
        in_model(m1, k),
    ensures
        !in_model(m2, k),
{
    if in_model(m2, k) {
        if m1.len() < m2.len() {
            assert(k[m1.len() as int] == model_prefix(m1)[m1.len() as int]);
            assert(model_prefix(m1)[m1.len() as int] == KEY_SEPARATOR);
            assert(k[m1.len() as int] == model_prefix(m2)[m1.len() as int]);
            assert(is_model_byte(m2[m1.len() as int]));
        } else if m2.len() < m1.len() {
            assert(k[m2.len() as int] == model_prefix(m2)[m2.len() as int]);
            assert(model_prefix(m2)[m2.len() as int] == KEY_SEPARATOR);
            assert(k[m2.len() as int] == model_prefix(m1)[m2.len() as int]);
            assert(is_model_byte(m1[m2.len() as int]));
        } else {
            assert(m1 =~= m2) by {
                assert forall|i: int| 0 <= i < m1.len() implies m1[i] == m2[i] by {
                    assert(m1[i] == model_prefix(m1)[i]);
                    assert(m2[i] == model_prefix(m2)[i]);
                    assert(k[i] == model_prefix(m1)[i]);
                    assert(k[i] == model_prefix(m2)[i]);
                }
            }
        }
    }
}

/// Whether `model` is a valid model name.
pub fn is_valid_model(model: &str) -> (r: bool)
    ensures
        r == valid_model(model.spec_bytes()),
{
    let b = model.as_bytes();
    if b.len() == 0 {
        return false;
    }
    let mut i: usize = 0;
    while i < b.len()
        invariant
            b@ == model.spec_bytes(),
            i <= b@.len(),
            forall|j: int| 0 <= j < i ==> is_model_byte(#[trigger] b@[j]),
        decreases b@.len() - i,
    {
        let c = b[i];
        if !((48 <= c && c <= 57) || (65 <= c && c <= 90) || (97 <= c && c <= 122) || c == 95) {
            return false;
        }
        i = i + 1;
    }
    true
}

/// Whether `pk` is a valid primary key.
pub fn is_valid_pk(pk: &str) -> (r: bool)
    ensures
        r == valid_pk(pk.spec_bytes()),
{
    let b = pk.as_bytes();
    if b.len() == 0 {
        return false;
    }
    let mut i: usize = 0;
    while i < b.len()
        invariant
            b@ == pk.spec_bytes(),
            i <= b@.len(),
            forall|j: int| 0 <= j < i ==> b@[j] != KEY_SEPARATOR,
        decreases b@.len() - i,
    {
        if b[i] == KEY_SEPARATOR {
            assert(b@[i as int] == KEY_SEPARATOR);
            return false;
        }
        i = i + 1;
    }
    true
}

/// The bytes that begin every key of `model`.
pub fn prefix_bytes(model: &str) -> (r: Vec<u8>)
    ensures
        r@ == model_prefix(model.spec_bytes()),
{
    let mut r = vstd::slice::slice_to_vec(model.as_bytes());
    r.push(KEY_SEPARATOR);
    r
}

/// The storage key of the record of `model` with primary key `pk`.
pub fn storage_key(model: &str, pk: &str) -> (r: Vec<u8>)
    ensures
        r@ == key_of(model.spec_bytes(), pk.spec_bytes()),
{
    let mut r = prefix_bytes(model);
    let b = pk.as_bytes();
    let mut i: usize = 0;
    while i < b.len()
        invariant
            b@ == pk.spec_bytes(),
            i <= b@.len(),
            r@ == model_prefix(model.spec_bytes()) + b@.take(i as int),
        decreases b@.len() - i,
    {
        r.push(b[i]);
        assert(b@.take(i + 1) =~= b@.take(i as int).push(b@[i as int]));
        i = i + 1;
    }
    assert(b@.take(i as int) =~= b@);
    r
}

} // verus!
