use bicycle::engine::Engine;
use bicycle::host::{
    host_batch_put, host_delete_by_pk, host_get_by_pk, host_put, pack_ptr_len, Invocation,
};
use bicycle::registry::{check_name, is_valid_name, Registry};
use bicycle::service::BicycleService;
use bicycle::store::{get_eq, get_gte, put, BicycleError, IndexQuery};
use bicycle::wire::{decode_index_query, decode_list, decode_record_pk, encode_list, next_field};

fn field(tag: u8, body: &[u8]) -> Vec<u8> {
    let mut out = vec![(tag << 3) | 2, body.len() as u8];
    out.extend_from_slice(body);
    out
}

fn rec(pk: &str) -> Vec<u8> {
    field(1, pk.as_bytes())
}

fn query(tag: u8, v: &str) -> Vec<u8> {
    field(tag, v.as_bytes())
}

fn list(items: &[Vec<u8>]) -> Vec<u8> {
    let mut out = vec![];
    for i in items {
        out.extend(field(1, i));
    }
    out
}

#[test]
fn echo_invocation_returns_input() {
    let hi = field(3, b"hi");
    let mut inv = Invocation::new(Some(hi.clone()));
    let read = inv.host_get_input().unwrap();
    assert_eq!(read, hi);
    assert_eq!(inv.host_set_output(Some(read)), 1);
    assert_eq!(inv.finish(), hi);
}

#[test]
fn echo_keeps_embedded_nul() {
    let v = field(3, b"a\0b");
    let mut inv = Invocation::new(Some(v.clone()));
    let read = inv.host_get_input().unwrap();
    assert_eq!(inv.host_set_output(Some(read)), 1);
    assert_eq!(inv.finish(), v);
}

#[test]
fn no_output_is_null() {
    let inv = Invocation::new(None);
    assert_eq!(inv.host_get_input(), None);
    assert_eq!(inv.finish(), vec![0x08, 0x00]);
}

#[test]
fn bad_output_is_refused_and_later_output_overwrites() {
    let mut inv = Invocation::new(None);
    assert_eq!(inv.host_set_output(Some(vec![0x0a, 0x05, 0x01])), 0);
    assert_eq!(inv.host_set_output(None), 0);
    assert_eq!(inv.host_set_output(Some(vec![0x20, 0x01])), 1);
    assert_eq!(inv.host_set_output(Some(field(3, b"x"))), 1);
    assert_eq!(inv.finish(), field(3, b"x"));
}

#[test]
fn pointer_and_length_packing() {
    assert_eq!(pack_ptr_len(1, 2), (1u64 << 32) | 2);
    assert_eq!(pack_ptr_len(0xffff_ffff, 0xffff_ffff), u64::MAX);
    assert_eq!(pack_ptr_len(0, 7), 7);
}

#[test]
fn procedure_query_by_prefix() {
    let mut db = Engine::new();
    for pk in ["a1", "a2", "b1"] {
        put(&mut db, "Dog", pk.to_string(), rec(pk)).unwrap();
    }
    let out = host_get_by_pk(&db, "Dog", Some(query(4, "a"))).unwrap();
    let items = decode_list(&out).unwrap();
    let pks: Vec<String> = items.iter().map(|i| decode_record_pk(i).unwrap()).collect();
    assert_eq!(pks, vec!["a1".to_string(), "a2".to_string()]);
    assert_eq!(out, list(&[rec("a1"), rec("a2")]));
}

#[test]
fn host_calls_fail_with_zero() {
    let mut db = Engine::new();
    assert_eq!(host_get_by_pk(&db, "Dog", None), None);
    assert_eq!(host_get_by_pk(&db, "Dog", Some(vec![0xff])), None);
    assert_eq!(host_get_by_pk(&db, "Dog", Some(vec![])), None);
    assert_eq!(host_delete_by_pk(&mut db, "Dog", Some(vec![0x0a, 0x09])), 0);
    assert_eq!(host_put(&mut db, "Dog", Some(vec![0x0a, 0x02, 0xff, 0xfe])), 0);
    assert_eq!(host_put(&mut db, "Dog", Some(rec("a#b"))), 0);
    assert_eq!(host_batch_put(&mut db, "Dog", Some(list(&[rec("ok"), rec("")]))), 0);
    assert_eq!(db.len(), 0);
}

#[test]
fn host_calls_match_direct_calls() {
    let mut via_host = Engine::new();
    let mut direct = Engine::new();
    assert_eq!(host_put(&mut via_host, "Dog", Some(rec("a"))), 1);
    put(&mut direct, "Dog", "a".to_string(), rec("a")).unwrap();
    assert_eq!(host_batch_put(&mut via_host, "Dog", Some(list(&[rec("b"), rec("c")]))), 1);
    bicycle::store::batch_put(&mut direct, "Dog", vec![("b".to_string(), rec("b")), ("c".to_string(), rec("c"))]).unwrap();
    assert_eq!(host_delete_by_pk(&mut via_host, "Dog", Some(query(3, "a"))), 1);
    bicycle::store::delete_lte(&mut direct, "Dog", "a");
    assert_eq!(get_gte(&via_host, "Dog", ""), get_gte(&direct, "Dog", ""));
    assert_eq!(get_gte(&via_host, "Dog", ""), vec![rec("b"), rec("c")]);
}

#[test]
fn query_decoding() {
    assert!(matches!(decode_index_query(&query(1, "x")), Ok(Some(IndexQuery::Eq(v))) if v == "x"));
    assert!(matches!(decode_index_query(&query(2, "x")), Ok(Some(IndexQuery::Gte(v))) if v == "x"));
    assert!(matches!(decode_index_query(&query(3, "x")), Ok(Some(IndexQuery::Lte(v))) if v == "x"));
    assert!(matches!(decode_index_query(&query(4, "x")), Ok(Some(IndexQuery::BeginsWith(v))) if v == "x"));
    let mut two = query(1, "x");
    two.extend(query(4, "yz"));
    assert!(matches!(decode_index_query(&two), Ok(Some(IndexQuery::BeginsWith(v))) if v == "yz"));
    assert!(matches!(decode_index_query(&[]), Ok(None)));
    assert!(matches!(decode_index_query(&[0x08, 0x01]), Err(BicycleError::DecodeError)));
    assert!(matches!(decode_index_query(&[0x0a, 0x01, 0xff]), Err(BicycleError::DecodeError)));
    let mut skipped = vec![0x28, 0x96, 0x01];
    skipped.extend(query(2, "q"));
    assert!(matches!(decode_index_query(&skipped), Ok(Some(IndexQuery::Gte(v))) if v == "q"));
}

#[test]
fn long_fields_use_multibyte_lengths() {
    let body = vec![b'z'; 200];
    let framed = encode_list(&vec![body.clone()]);
    assert_eq!(&framed[..3], &[0x0a, 0xc8, 0x01]);
    assert_eq!(framed.len(), 203);
    assert_eq!(decode_list(&framed).unwrap(), vec![body]);
}

#[test]
fn field_reader_reads_each_wire_type() {
    let bytes = [0x08, 0x96, 0x01, 0x11, 1, 2, 3, 4, 5, 6, 7, 8, 0x1d, 9, 9, 9, 9];
    let (tag, wt, body, rest) = next_field(&bytes).unwrap();
    assert_eq!((tag, wt, body), (1, 0, &[0x96u8, 0x01][..]));
    let (tag, wt, body, rest) = next_field(rest).unwrap();
    assert_eq!((tag, wt, body.len()), (2, 1, 8));
    let (tag, wt, body, rest) = next_field(rest).unwrap();
    assert_eq!((tag, wt, body.len(), rest.len()), (3, 5, 4, 0));
    assert!(next_field(&[0x00, 0x01]).is_none());
    assert!(next_field(&[0x0b]).is_none());
    assert!(next_field(&[0x0a, 0x05, 0x01]).is_none());
}

#[test]
fn record_primary_key() {
    assert_eq!(decode_record_pk(&rec("k1")).unwrap(), "k1");
    assert_eq!(decode_record_pk(&[0x10, 0x01]).unwrap(), "");
    assert!(matches!(decode_record_pk(&[0x08, 0x01]), Err(BicycleError::DecodeError)));
}

#[test]
fn registry_lifecycle() {
    let mut r: Registry<u32> = Registry::new();
    r.insert("echo".to_string(), 1);
    r.insert("alpha".to_string(), 2);
    r.insert("echo".to_string(), 3);
    assert_eq!(r.list(), vec!["alpha".to_string(), "echo".to_string()]);
    assert_eq!(r.get("echo"), Some(&3));
    assert!(matches!(r.lookup("missing"), Err(BicycleError::NotFound)));
    assert!(matches!(r.remove("missing"), Err(BicycleError::NotFound)));
    assert_eq!(r.remove("alpha").unwrap(), 2);
    assert!(!r.contains("alpha"));
    assert_eq!(r.list(), vec!["echo".to_string()]);
}

#[test]
fn registry_reload_has_same_names() {
    let r = Registry::load(vec![("b".to_string(), 1u8), ("a".to_string(), 2), ("b".to_string(), 3)]);
    assert_eq!(r.list(), vec!["a".to_string(), "b".to_string()]);
    assert_eq!(r.get("b"), Some(&3));
}

#[test]
fn procedure_names() {
    assert!(is_valid_name("echo-v1.wasm"));
    assert!(!is_valid_name(""));
    assert!(!is_valid_name(".."));
    assert!(!is_valid_name("a/b"));
    assert!(matches!(check_name("x/y"), Err(BicycleError::InvalidArgument)));
    assert!(check_name("ok").is_ok());
}

#[test]
fn service_put_and_errors() {
    let mut s = BicycleService::new();
    s.put("Dog", rec("4")).unwrap();
    assert_eq!(s.get_by_pk("Dog", Some(IndexQuery::Eq("4".to_string()))).unwrap(), vec![rec("4")]);
    assert!(matches!(s.put("Dog", vec![0x08]), Err(BicycleError::DecodeError)));
    assert!(matches!(s.put("Dog", rec("")), Err(BicycleError::InvalidArgument)));
    assert!(matches!(s.batch_put("Dog", vec![rec("x"), vec![0xff]]), Err(BicycleError::DecodeError)));
    assert!(matches!(s.batch_put("Dog", vec![rec("x"), rec("y#")]), Err(BicycleError::InvalidArgument)));
    s.batch_put("Dog", vec![rec("5"), rec("6")]).unwrap();
    s.delete_by_pk("Dog", Some(IndexQuery::Gte("5".to_string()))).unwrap();
    assert_eq!(get_gte(s.engine(), "Dog", ""), vec![rec("4")]);
    assert_eq!(get_eq(s.engine(), "Dog", "5").len(), 0);
}

#[test]
fn error_status_classes() {
    assert_eq!(BicycleError::InvalidArgument.status(), 400);
    assert_eq!(BicycleError::CompileError.status(), 400);
    assert_eq!(BicycleError::NotFound.status(), 404);
    assert_eq!(BicycleError::DecodeError.status(), 500);
    assert_eq!(BicycleError::GuestTrap("boom".to_string()).status(), 500);
    assert_eq!(BicycleError::IoError("disk".to_string()).status(), 500);
    assert_eq!(BicycleError::EngineError.status(), 500);
}

#[test]
fn undecodable_stored_record_fails_the_get() {
    let mut s = BicycleService::new();
    s.put("Dog", rec("a")).unwrap();
    put(s.engine_mut(), "Dog", "b".to_string(), vec![0x0a, 0x09]).unwrap();
    assert!(matches!(s.get_by_pk("Dog", Some(IndexQuery::Gte("".to_string()))), Err(BicycleError::DecodeError)));
    assert_eq!(s.get_by_pk("Dog", Some(IndexQuery::Eq("a".to_string()))).unwrap(), vec![rec("a")]);
    assert_eq!(host_get_by_pk(s.engine(), "Dog", Some(query(2, ""))), None);
    assert_eq!(host_get_by_pk(s.engine(), "Dog", Some(query(1, "a"))), Some(list(&[rec("a")])));
}
