//! The wire format at the guest boundary: base-128 varints and tagged fields,
//! read and written at the level of bytes.
use vstd::prelude::*;
use vstd::utf8::{decode_utf8, encode_utf8, valid_utf8};
use crate::store::{query_tag, query_text, views, BicycleError, IndexQuery};

verus! {

/// Where the varint at the front of `b` ends, scanning from byte `i`: a byte
/// below 0x80 ends it; at most ten bytes, and a tenth byte above 1 overflows.
pub open spec fn varint_end(b: Seq<u8>, i: nat) -> Option<nat>
    decreases 10 - i,
{
    if i >= 10 || i >= b.len() {
        None
    } else if b[i as int] < 128 {
        if i == 9 && b[i as int] >= 2 {
            None
        } else {
            Some(i + 1)
        }
    } else {
        varint_end(b, i + 1)
    }
}

/// The number the first `n` bytes of `b` spell, seven bits a byte, low bits first.
pub open spec fn varint_value(b: Seq<u8>, n: nat) -> nat
    decreases n,
{
    if n == 0 || b.len() == 0 {
        0
    } else {
        (b[0] % 128) as nat + 128 * varint_value(b.drop_first(), (n - 1) as nat)
    }
}

/// The shortest varint that spells `v`.
pub open spec fn varint_bytes(v: nat) -> Seq<u8>
    decreases v,
{
    if v < 128 {
        seq![v as u8]
    } else {
        seq![(v % 128 + 128) as u8] + varint_bytes(v / 128)
    }
}

/// Relies on prost's `encoding::decode_varint`: it reads the varint at the front
/// of the buffer as `varint_end` and `varint_value` describe, and fails where
/// `varint_end` finds none.
#[verifier::external_body]
fn read_varint(b: &[u8]) -> (r: Option<(u64, &[u8])>)
    ensures
        r is Some <==> varint_end(b@, 0) is Some,
        r matches Some((v, rest)) ==> v as nat == varint_value(b@, varint_end(b@, 0)->0)
            && rest@ == b@.skip(varint_end(b@, 0)->0 as int),
{
    let mut s = b;
    match prost::encoding::decode_varint(&mut s) {
        Ok(v) => Some((v, s)),
        Err(_) => None,
    }
}

/// Relies on prost's `encoding::encode_varint`: it appends the shortest varint
/// of `v`.
#[verifier::external_body]
fn put_varint(v: u64, buf: &mut Vec<u8>)
    ensures
        final(buf)@ == old(buf)@ + varint_bytes(v as nat),
{
    prost::encoding::encode_varint(v, buf)
}

/// Relies on `String::from_utf8`: it succeeds exactly on valid UTF-8 and the
/// string holds the characters those bytes encode.
#[verifier::external_body]
fn utf8_string(b: Vec<u8>) -> (r: Option<String>)
    ensures
        r is Some <==> valid_utf8(b@),
        r matches Some(s) ==> s@ == decode_utf8(b@),
{
    String::from_utf8(b).ok()
}

/// The wire type of a varint field.
pub const WIRE_VARINT: u64 = 0;

/// The wire type of an eight-byte field.
pub const WIRE_FIXED64: u64 = 1;

/// The wire type of a length-delimited field.
pub const WIRE_LEN: u64 = 2;

/// The wire type of a four-byte field.
pub const WIRE_FIXED32: u64 = 5;

/// The field at the front of `b`: its tag, its wire type and its body, with the
/// number of bytes it takes. A key above 32 bits, tag 0, an unknown wire type or
/// a body that runs past the end is no field.
pub open spec fn field_at(b: Seq<u8>) -> Option<((nat, nat, Seq<u8>), nat)> {
    match varint_end(b, 0) {
        None => None,
        Some(n) => {
            let key = varint_value(b, n);
            let tag = key / 8;
            let wt = key % 8;
            let r = b.skip(n as int);
            if key > 0xffff_ffff || tag == 0 {
                None
            } else if wt == WIRE_VARINT {
                match varint_end(r, 0) {
                    None => None,
                    Some(m) => Some(((tag, wt, r.take(m as int)), n + m)),
                }
            } else if wt == WIRE_FIXED64 {
                if r.len() >= 8 {
                    Some(((tag, wt, r.take(8)), n + 8))
                } else {
                    None
                }
            } else if wt == WIRE_FIXED32 {
                if r.len() >= 4 {
                    Some(((tag, wt, r.take(4)), n + 4))
                } else {
                    None
                }
            } else if wt == WIRE_LEN {
                match varint_end(r, 0) {
                    None => None,
                    Some(m) => {
                        let len = varint_value(r, m);
                        if m + len <= r.len() {
                            Some(((tag, wt, r.subrange(m as int, (m + len) as int)), n + m + len))
                        } else {
                            None
                        }
                    },
                }
            } else {
                None
            }
        },
    }
}

proof fn lemma_varint_end_bounds(b: Seq<u8>, i: nat)
    ensures
        varint_end(b, i) matches Some(n) ==> i < n <= b.len() && n <= 10,
    decreases 10 - i,
{
    if i < 10 && i < b.len() && b[i as int] >= 128 {
        lemma_varint_end_bounds(b, i + 1);
    }
}

proof fn lemma_field_at_bounds(b: Seq<u8>)
    ensures
        field_at(b) matches Some((f, n)) ==> 0 < n <= b.len(),
{
    lemma_varint_end_bounds(b, 0);
    if let Some(n) = varint_end(b, 0) {
        lemma_varint_end_bounds(b.skip(n as int), 0);
    }
}

/// The field at the front of `b` and the bytes after it.
pub fn next_field(b: &[u8]) -> (r: Option<(u64, u64, &[u8], &[u8])>)
    ensures
        r is Some <==> field_at(b@) is Some,
        r matches Some((tag, wt, body, rest)) ==> ({
            let (f, n) = field_at(b@)->0;
            &&& tag as nat == f.0 && wt as nat == f.1 && body@ == f.2
            &&& rest@ == b@.skip(n as int)
            &&& rest@.len() < b@.len()
        }),
{
    proof {
        lemma_varint_end_bounds(b@, 0);
        lemma_field_at_bounds(b@);
    }
    let (key, r1) = match read_varint(b) {
        None => return None,
        Some(x) => x,
    };
    if key > 0xffff_ffff || key / 8 == 0 {
        return None;
    }
    let tag = key / 8;
    let wt = key % 8;
    proof {
        lemma_varint_end_bounds(r1@, 0);
    }
    if wt == WIRE_VARINT {
        let (_, r2) = match read_varint(r1) {
            None => return None,
            Some(x) => x,
        };
        let used = r1.len() - r2.len();
        let body = vstd::slice::slice_subrange(r1, 0, used);
        assert(b@.skip(varint_end(b@, 0)->0 as int).skip(varint_end(r1@, 0)->0 as int)
            =~= b@.skip((varint_end(b@, 0)->0 + varint_end(r1@, 0)->0) as int));
        Some((tag, wt, body, r2))
    } else if wt == WIRE_FIXED64 || wt == WIRE_FIXED32 {
        let size: usize = if wt == WIRE_FIXED64 { 8 } else { 4 };
        if r1.len() < size {
            return None;
        }
        let body = vstd::slice::slice_subrange(r1, 0, size);
        let rest = vstd::slice::slice_subrange(r1, size, r1.len());
        assert(b@.skip(varint_end(b@, 0)->0 as int).skip(size as int)
            =~= b@.skip((varint_end(b@, 0)->0 + size) as int));
        Some((tag, wt, body, rest))
    } else if wt == WIRE_LEN {
        let (len, r2) = match read_varint(r1) {
            None => return None,
            Some(x) => x,
        };
        if len > r2.len() as u64 {
            return None;
        }
        let body = vstd::slice::slice_subrange(r2, 0, len as usize);
        let rest = vstd::slice::slice_subrange(r2, len as usize, r2.len());
        proof {
            let n = varint_end(b@, 0)->0;
            let m = varint_end(r1@, 0)->0;
            assert(r2@ == r1@.skip(m as int));
            assert(body@ =~= r1@.subrange(m as int, (m + len) as int));
            assert(rest@ =~= b@.skip((n + m + len) as int));
        }
        Some((tag, wt, body, rest))
    } else {
        None
    }
}

/// The tag of the field that carries a primary key in a record, and the
/// records in a list.
pub const TAG_FIRST: u64 = 1;

/// The expression that the fields of `b` leave, reading on from `acc`: fields 1
/// to 4 carry `Eq`, `Gte`, `Lte` and `BeginsWith` as UTF-8 text, the last one
/// counts, and others are skipped. `None` where `b` does not decode.
pub open spec fn scan_query(b: Seq<u8>, acc: Option<(nat, Seq<u8>)>) -> Option<Option<(nat, Seq<u8>)>>
    decreases b.len(),
{
    if b.len() == 0 {
        Some(acc)
    } else {
        match field_at(b) {
            None => None,
            Some((f, n)) => if 0 < n <= b.len() {
                if 1 <= f.0 <= 4 {
                    if f.1 == WIRE_LEN && valid_utf8(f.2) {
                        scan_query(b.skip(n as int), Some((f.0, f.2)))
                    } else {
                        None
                    }
                } else {
                    scan_query(b.skip(n as int), acc)
                }
            } else {
                None
            },
        }
    }
}

/// The primary key that the fields of `b` leave, reading on from `acc`: field 1
/// as UTF-8 text, the last one counting, others skipped. A record without one
/// has the empty key. `None` where `b` does not decode.
pub open spec fn scan_pk(b: Seq<u8>, acc: Seq<u8>) -> Option<Seq<u8>>
    decreases b.len(),
{
    if b.len() == 0 {
        Some(acc)
    } else {
        match field_at(b) {
            None => None,
            Some((f, n)) => if 0 < n <= b.len() {
                if f.0 == TAG_FIRST {
                    if f.1 == WIRE_LEN && valid_utf8(f.2) {
                        scan_pk(b.skip(n as int), f.2)
                    } else {
                        None
                    }
                } else {
                    scan_pk(b.skip(n as int), acc)
                }
            } else {
                None
            },
        }
    }
}

/// The items that the fields of `b` add to `acc`: each field 1 is one item,
/// others are skipped. `None` where `b` does not decode.
pub open spec fn scan_list(b: Seq<u8>, acc: Seq<Seq<u8>>) -> Option<Seq<Seq<u8>>>
    decreases b.len(),
{
    if b.len() == 0 {
        Some(acc)
    } else {
        match field_at(b) {
            None => None,
            Some((f, n)) => if 0 < n <= b.len() {
                if f.0 == TAG_FIRST {
                    if f.1 == WIRE_LEN {
                        scan_list(b.skip(n as int), acc.push(f.2))
                    } else {
                        None
                    }
                } else {
                    scan_list(b.skip(n as int), acc)
                }
            } else {
                None
            },
        }
    }
}

/// A list of items as field 1, one field per item, in order.
pub open spec fn frame_list(items: Seq<Seq<u8>>) -> Seq<u8>
    decreases items.len(),
{
    if items.len() == 0 {
        seq![]
    } else {
        frame_list(items.drop_last()) + seq![0x0au8] + varint_bytes(items.last().len()) + items.last()
    }
}

/// Reads an expression. A missing expression gives `Ok(None)`.
pub fn decode_index_query(b: &[u8]) -> (r: Result<Option<IndexQuery>, BicycleError>)
    ensures
        match scan_query(b@, None) {
            None => r matches Err(e) && e is DecodeError,
            Some(None) => r matches Ok(None),
            Some(Some((t, v))) => r matches Ok(Some(q)) && query_tag(q) == t && query_text(q) == decode_utf8(v)
                && encode_utf8(query_text(q)) == v,
        },
{
    let mut rest = b;
    let mut found: Option<(u64, String)> = None;
    let ghost mut acc: Option<(nat, Seq<u8>)> = None;
    while rest.len() > 0
        invariant
            scan_query(b@, None) == scan_query(rest@, acc),
            acc is None <==> found is None,
            found matches Some((t, s)) ==> acc matches Some((at, av)) && t as nat == at && 1 <= t <= 4 && s@ == decode_utf8(av)
                && valid_utf8(av),
        decreases rest@.len(),
    {
        proof {
            lemma_field_at_bounds(rest@);
        }
        let (tag, wt, body, next) = match next_field(rest) {
            None => return Err(BicycleError::DecodeError),
            Some(x) => x,
        };
        if 1 <= tag && tag <= 4 {
            if wt != WIRE_LEN {
                return Err(BicycleError::DecodeError);
            }
            match utf8_string(vstd::slice::slice_to_vec(body)) {
                None => return Err(BicycleError::DecodeError),
                Some(text) => {
                    found = Some((tag, text));
                    proof {
                        acc = Some((tag as nat, body@));
                    }
                },
            }
        }
        rest = next;
    }
    match found {
        None => Ok(None),
        Some((tag, text)) => {
            let q = if tag == 1 {
                IndexQuery::Eq(text)
            } else if tag == 2 {
                IndexQuery::Gte(text)
            } else if tag == 3 {
                IndexQuery::Lte(text)
            } else {
                IndexQuery::BeginsWith(text)
            };
            proof {
                let (_, av) = acc->0;
                vstd::utf8::decode_utf8_encode_utf8(av);
            }
            Ok(Some(q))
        },
    }
}

/// Reads the primary key of a record.
pub fn decode_record_pk(b: &[u8]) -> (r: Result<String, BicycleError>)
    ensures
        match scan_pk(b@, seq![]) {
            None => r matches Err(e) && e is DecodeError,
            Some(pk) => r matches Ok(s) && s@ == decode_utf8(pk) && valid_utf8(pk),
        },
{
    let mut rest = b;
    let mut found = String::new();
    let ghost mut acc: Seq<u8> = seq![];
    proof {
        assert(decode_utf8(seq![]) =~= Seq::<char>::empty()) by {
            reveal_with_fuel(decode_utf8, 1);
        }
        assert(valid_utf8(seq![])) by {
            reveal_with_fuel(valid_utf8, 1);
        }
    }
    while rest.len() > 0
        invariant
            scan_pk(b@, seq![]) == scan_pk(rest@, acc),
            found@ == decode_utf8(acc),
            valid_utf8(acc),
        decreases rest@.len(),
    {
        proof {
            lemma_field_at_bounds(rest@);
        }
        let (tag, wt, body, next) = match next_field(rest) {
            None => return Err(BicycleError::DecodeError),
            Some(x) => x,
        };
        if tag == TAG_FIRST {
            if wt != WIRE_LEN {
                return Err(BicycleError::DecodeError);
            }
            match utf8_string(vstd::slice::slice_to_vec(body)) {
                None => return Err(BicycleError::DecodeError),
                Some(text) => {
                    found = text;
                    proof {
                        acc = body@;
                    }
                },
            }
        }
        rest = next;
    }
    Ok(found)
}

/// Reads a list of items.
pub fn decode_list(b: &[u8]) -> (r: Result<Vec<Vec<u8>>, BicycleError>)
    ensures
        match scan_list(b@, seq![]) {
            None => r matches Err(e) && e is DecodeError,
            Some(items) => r matches Ok(v) && views(v@) == items,
        },
{
    let mut rest = b;
    let mut out: Vec<Vec<u8>> = Vec::new();
    let ghost mut acc: Seq<Seq<u8>> = seq![];
    while rest.len() > 0
        invariant
            scan_list(b@, seq![]) == scan_list(rest@, acc),
            views(out@) == acc,
        decreases rest@.len(),
    {
        proof {
            lemma_field_at_bounds(rest@);
        }
        let (tag, wt, body, next) = match next_field(rest) {
            None => return Err(BicycleError::DecodeError),
            Some(x) => x,
        };
        if tag == TAG_FIRST {
            if wt != WIRE_LEN {
                return Err(BicycleError::DecodeError);
            }
            let item = vstd::slice::slice_to_vec(body);
            let ghost before = out@;
            out.push(item);
            proof {
                assert(views(out@) =~= views(before).push(body@));
                acc = acc.push(body@);
            }
        }
        rest = next;
    }
    assert(views(out@) =~= acc);
    Ok(out)
}

/// Writes a list of items.
pub fn encode_list(items: &Vec<Vec<u8>>) -> (r: Vec<u8>)
    ensures
        r@ == frame_list(views(items@)),
{
    let mut out: Vec<u8> = Vec::new();
    let mut i: usize = 0;
    while i < items.len()
        invariant
            i <= items@.len(),
            out@ == frame_list(views(items@).take(i as int)),
        decreases items@.len() - i,
    {
        let item = &items[i];
        out.push(0x0a);
        put_varint(item.len() as u64, &mut out);
        let mut j: usize = 0;
        let ghost start = out@;
        while j < item.len()
            invariant
                j <= item@.len(),
                out@ == start + item@.take(j as int),
            decreases item@.len() - j,
        {
            out.push(item[j]);
            assert(item@.take(j + 1) =~= item@.take(j as int).push(item@[j as int]));
            j = j + 1;
        }
        proof {
            let t = views(items@).take(i + 1);
            assert(t.drop_last() =~= views(items@).take(i as int));
            assert(t.last() == item@);
            assert(item@.take(j as int) =~= item@);
            assert(out@ =~= frame_list(t));
        }
        i = i + 1;
    }
    assert(views(items@).take(i as int) =~= views(items@));
    out
}

/// 128 to the power `k`.
pub open spec fn pow128(k: nat) -> nat
    decreases k,
{
    if k == 0 {
        1
    } else {
        128 * pow128((k - 1) as nat)
    }
}

/// The shape of the shortest varint of `v` below `2 * 128^(k-1)`: continuation
/// bytes, then a last byte below 0x80, at most `k` bytes, and a last byte below 2
/// where it takes all `k`.
proof fn lemma_varint_bytes_shape(v: nat, k: nat)
    requires
        k >= 1,
        v < 2 * pow128((k - 1) as nat),
    ensures
        1 <= varint_bytes(v).len() <= k,
        forall|j: int| 0 <= j < varint_bytes(v).len() - 1 ==> varint_bytes(v)[j] >= 128,
        varint_bytes(v).last() < 128,
        varint_bytes(v).len() == k ==> varint_bytes(v).last() < 2,
    decreases v,
{
    let s = varint_bytes(v);
    if v < 128 {
        if k == 1 {
            assert(pow128(0) == 1);
        }
    } else {
        if k == 1 {
            assert(pow128(0) == 1);
        }
        assert(k >= 2);
        let k1 = (k - 1) as nat;
        assert(pow128(k1) == 128 * pow128((k1 - 1) as nat));
        assert(v / 128 < 2 * pow128((k1 - 1) as nat)) by (nonlinear_arith)
            requires
                v < 2 * (128 * pow128((k1 - 1) as nat)),
        ;
        lemma_varint_bytes_shape(v / 128, k1);
        let t = varint_bytes(v / 128);
        assert(s == seq![(v % 128 + 128) as u8] + t);
        assert forall|j: int| 0 <= j < s.len() - 1 implies s[j] >= 128 by {
            if j > 0 {
                assert(s[j] == t[j - 1]);
            }
        }
        assert(s.last() == t.last());
    }
}

/// A varint whose bytes have the right shape ends where they do.
proof fn lemma_varint_end_at(b: Seq<u8>, i: nat, len: nat)
    requires
        len >= 1,
        i + len <= 10,
        i + len <= b.len(),
        forall|j: int| i <= j < i + len - 1 ==> b[j] >= 128,
        b[i + len - 1] < 128,
        i + len == 10 ==> b[9] < 2,
    ensures
        varint_end(b, i) == Some(i + len),
    decreases len,
{
    if len > 1 {
        lemma_varint_end_at(b, i + 1, (len - 1) as nat);
    }
}

/// The shortest varint of `v` reads back as `v`, whatever follows it.
proof fn lemma_varint_round_trip(v: nat, rest: Seq<u8>)
    requires
        v <= 0xffff_ffff_ffff_ffff,
    ensures
        varint_end(varint_bytes(v) + rest, 0) == Some(varint_bytes(v).len()),
        varint_value(varint_bytes(v) + rest, varint_bytes(v).len()) == v,
    decreases v,
{
    let s = varint_bytes(v);
    let b = s + rest;
    assert(pow128(9) == 0x8000_0000_0000_0000) by {
        reveal_with_fuel(pow128, 10);
    }
    lemma_varint_bytes_shape(v, 10);
    lemma_varint_end_at(b, 0, s.len());
    if v >= 128 {
        lemma_varint_round_trip(v / 128, rest);
        assert(b.drop_first() =~= varint_bytes(v / 128) + rest);
        assert(b[0] == (v % 128 + 128) as u8);
        assert(b[0] % 128 == v % 128);
        assert(v == v % 128 + 128 * (v / 128));
        let t = varint_bytes(v / 128);
        assert(s.len() == 1 + t.len());
        assert(varint_value(b, s.len()) == (b[0] % 128) as nat + 128 * varint_value(b.drop_first(), t.len()));
    } else {
        assert(b.drop_first() =~= rest);
        assert(b[0] == v as u8);
        assert(varint_value(b, 1) == (b[0] % 128) as nat + 128 * varint_value(b.drop_first(), 0));
    }
}

/// One item framed as field 1.
pub open spec fn frame_one(item: Seq<u8>) -> Seq<u8> {
    seq![0x0au8] + varint_bytes(item.len()) + item
}

proof fn lemma_frame_list_front(items: Seq<Seq<u8>>)
    requires
        items.len() > 0,
    ensures
        frame_list(items) == frame_one(items[0]) + frame_list(items.drop_first()),
    decreases items.len(),
{
    if items.len() == 1 {
        assert(items.drop_last() =~= seq![]);
        assert(items.drop_first() =~= seq![]);
        assert(frame_list(items) =~= frame_one(items[0]) + frame_list(items.drop_first()));
    } else {
        lemma_frame_list_front(items.drop_last());
        assert(items.drop_last().drop_first() =~= items.drop_first().drop_last());
        assert(items.drop_first().last() == items.last());
        assert(frame_list(items) =~= frame_one(items[0]) + frame_list(items.drop_first()));
    }
}

proof fn lemma_scan_one(item: Seq<u8>, rest: Seq<u8>, acc: Seq<Seq<u8>>)
    requires
        item.len() <= 0xffff_ffff_ffff_ffff,
    ensures
        scan_list(frame_one(item) + rest, acc) == scan_list(rest, acc.push(item)),
{
    let b = frame_one(item) + rest;
    let v = varint_bytes(item.len());
    let r = b.skip(1);
    assert(r =~= v + (item + rest));
    lemma_varint_round_trip(item.len(), item + rest);
    assert(varint_end(b, 0) == Some(1nat));
    assert(varint_value(b, 1) == 10) by {
        assert(b[0] == 0x0au8);
        assert(varint_value(b.drop_first(), 0) == 0);
    }
    let m = v.len();
    assert(r.subrange(m as int, (m + item.len()) as int) =~= item);
    assert(b.skip((1 + m + item.len()) as int) =~= rest);
}

/// A list of items framed by `encode_list` reads back, by `decode_list`, as the
/// same items in the same order.
pub proof fn lemma_list_round_trip(items: Seq<Seq<u8>>)
    requires
        forall|i: int| 0 <= i < items.len() ==> (#[trigger] items[i]).len() <= 0xffff_ffff_ffff_ffff,
    ensures
        scan_list(frame_list(items), seq![]) == Some(items),
{
    lemma_scan_from(items, seq![]);
    assert(seq![] + items =~= items);
}

proof fn lemma_scan_from(items: Seq<Seq<u8>>, acc: Seq<Seq<u8>>)
    requires
        forall|i: int| 0 <= i < items.len() ==> (#[trigger] items[i]).len() <= 0xffff_ffff_ffff_ffff,
    ensures
        scan_list(frame_list(items), acc) == Some(acc + items),
    decreases items.len(),
{
    if items.len() == 0 {
        assert(acc + items =~= acc);
    } else {
        lemma_frame_list_front(items);
        assert(items[0].len() <= 0xffff_ffff_ffff_ffff);
        lemma_scan_one(items[0], frame_list(items.drop_first()), acc);
        lemma_scan_from(items.drop_first(), acc.push(items[0]));
        assert(acc.push(items[0]) + items.drop_first() =~= acc + items);
    }
}

} // verus!
