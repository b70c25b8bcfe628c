use bicycle::engine::{BatchOp, Engine};
use bicycle::keyspace::{is_valid_model, is_valid_pk, prefix_bytes, storage_key};
use bicycle::order::{bytes_eq, bytes_lt, has_prefix};
use bicycle::store::{
    batch_put, delete_begins_with, delete_by_pk, delete_eq, delete_gte, delete_lte, get_begins_with,
    get_by_pk, get_eq, get_gte, get_lte, put, BicycleError, IndexQuery,
};

fn field(tag: u8, body: &[u8]) -> Vec<u8> {
    let mut out = vec![(tag << 3) | 2, body.len() as u8];
    out.extend_from_slice(body);
    out
}

fn dog(pk: &str, name: &str, age: u8, breed: &str) -> Vec<u8> {
    let mut out = field(1, pk.as_bytes());
    out.extend(field(2, name.as_bytes()));
    out.extend([0x18, age]);
    out.extend(field(4, breed.as_bytes()));
    out
}

fn rec(pk: &str) -> Vec<u8> {
    field(1, pk.as_bytes())
}

fn put_dogs(db: &mut Engine, pks: &[&str]) {
    for pk in pks {
        put(db, "Dog", pk.to_string(), rec(pk)).unwrap();
    }
}

#[test]
fn crud_put_then_get_eq() {
    let mut db = Engine::new();
    let sam = dog("4", "Sam", 6, "Labrador");
    put(&mut db, "Dog", "4".to_string(), sam.clone()).unwrap();
    assert_eq!(get_eq(&db, "Dog", "4"), vec![sam.clone()]);
    let got = get_by_pk(&db, "Dog", Some(IndexQuery::Eq("4".to_string()))).unwrap();
    assert_eq!(got, vec![sam]);
}

#[test]
fn put_replaces_same_pk() {
    let mut db = Engine::new();
    put(&mut db, "Dog", "4".to_string(), dog("4", "Sam", 6, "Labrador")).unwrap();
    let older = dog("4", "Sam", 7, "Labrador");
    put(&mut db, "Dog", "4".to_string(), older.clone()).unwrap();
    assert_eq!(get_eq(&db, "Dog", "4"), vec![older]);
    assert_eq!(db.len(), 1);
}

#[test]
fn begins_with_selects_prefix_in_order() {
    let mut db = Engine::new();
    put_dogs(&mut db, &["b1", "a2", "a1"]);
    assert_eq!(get_begins_with(&db, "Dog", "a"), vec![rec("a1"), rec("a2")]);
    assert_eq!(get_begins_with(&db, "Dog", "c"), Vec::<Vec<u8>>::new());
    assert_eq!(get_begins_with(&db, "Dog", ""), vec![rec("a1"), rec("a2"), rec("b1")]);
}

#[test]
fn range_stops_at_model_boundary() {
    let mut db = Engine::new();
    put(&mut db, "Dog", "z".to_string(), rec("z")).unwrap();
    put(&mut db, "Cat", "a".to_string(), rec("a")).unwrap();
    assert_eq!(get_gte(&db, "Dog", ""), vec![rec("z")]);
    assert_eq!(get_lte(&db, "Cat", "zzz"), vec![rec("a")]);
    assert_eq!(get_lte(&db, "Dog", "zzz"), vec![rec("z")]);
}

#[test]
fn model_names_that_prefix_each_other_stay_apart() {
    let mut db = Engine::new();
    put(&mut db, "Dog", "x".to_string(), rec("dog-x")).unwrap();
    put(&mut db, "Dogs", "a".to_string(), rec("dogs-a")).unwrap();
    put(&mut db, "Do", "y".to_string(), rec("do-y")).unwrap();
    assert_eq!(get_gte(&db, "Dog", ""), vec![rec("dog-x")]);
    assert_eq!(get_lte(&db, "Dog", "zz"), vec![rec("dog-x")]);
    assert_eq!(get_begins_with(&db, "Do", ""), vec![rec("do-y")]);
    assert_eq!(get_eq(&db, "Dogs", "a"), vec![rec("dogs-a")]);
}

#[test]
fn gte_and_lte_orders() {
    let mut db = Engine::new();
    put_dogs(&mut db, &["a", "b", "c", "d"]);
    assert_eq!(get_gte(&db, "Dog", "b"), vec![rec("b"), rec("c"), rec("d")]);
    assert_eq!(get_lte(&db, "Dog", "c"), vec![rec("c"), rec("b"), rec("a")]);
    assert_eq!(get_gte(&db, "Dog", "bb"), vec![rec("c"), rec("d")]);
    assert_eq!(get_lte(&db, "Dog", "bb"), vec![rec("b"), rec("a")]);
}

#[test]
fn gte_union_lte_is_whole_model_and_overlap_is_eq() {
    let mut db = Engine::new();
    put_dogs(&mut db, &["a", "b", "c"]);
    put(&mut db, "Cat", "b".to_string(), rec("cat")).unwrap();
    let gte = get_gte(&db, "Dog", "b");
    let lte = get_lte(&db, "Dog", "b");
    let mut union: Vec<Vec<u8>> = gte.clone();
    for r in &lte {
        if !union.contains(r) {
            union.push(r.clone());
        }
    }
    union.sort();
    assert_eq!(union, vec![rec("a"), rec("b"), rec("c")]);
    let both: Vec<Vec<u8>> = gte.into_iter().filter(|r| lte.contains(r)).collect();
    assert_eq!(both, vec![rec("b")]);
}

#[test]
fn empty_results_are_not_errors() {
    let db = Engine::new();
    assert_eq!(get_by_pk(&db, "Dog", Some(IndexQuery::Gte("".to_string()))).unwrap().len(), 0);
    assert_eq!(get_eq(&db, "Dog", "nope").len(), 0);
}

#[test]
fn missing_expression_is_invalid_argument() {
    let mut db = Engine::new();
    assert!(matches!(get_by_pk(&db, "Dog", None), Err(BicycleError::InvalidArgument)));
    assert!(matches!(delete_by_pk(&mut db, "Dog", None), Err(BicycleError::InvalidArgument)));
}

#[test]
fn invalid_pk_is_refused() {
    let mut db = Engine::new();
    assert!(matches!(put(&mut db, "Dog", "a#b".to_string(), rec("x")), Err(BicycleError::InvalidArgument)));
    assert!(matches!(put(&mut db, "Dog", "".to_string(), rec("x")), Err(BicycleError::InvalidArgument)));
    assert_eq!(db.len(), 0);
}

#[test]
fn delete_eq_twice_is_same_as_once() {
    let mut db = Engine::new();
    put_dogs(&mut db, &["a", "b"]);
    delete_eq(&mut db, "Dog", "a");
    let once: Vec<Vec<u8>> = get_gte(&db, "Dog", "");
    delete_eq(&mut db, "Dog", "a");
    assert_eq!(get_gte(&db, "Dog", ""), once);
    assert_eq!(once, vec![rec("b")]);
    assert_eq!(get_eq(&db, "Dog", "a").len(), 0);
}

#[test]
fn range_and_prefix_deletes() {
    let mut db = Engine::new();
    put_dogs(&mut db, &["a1", "a2", "b1", "c1"]);
    put(&mut db, "Cat", "a1".to_string(), rec("cat")).unwrap();
    delete_begins_with(&mut db, "Dog", "a");
    assert_eq!(get_gte(&db, "Dog", ""), vec![rec("b1"), rec("c1")]);
    delete_gte(&mut db, "Dog", "c");
    assert_eq!(get_gte(&db, "Dog", ""), vec![rec("b1")]);
    delete_lte(&mut db, "Dog", "b1");
    assert_eq!(get_gte(&db, "Dog", "").len(), 0);
    assert_eq!(get_eq(&db, "Cat", "a1"), vec![rec("cat")]);
    assert!(delete_by_pk(&mut db, "Cat", Some(IndexQuery::Eq("a1".to_string()))).is_ok());
    assert_eq!(db.len(), 0);
}

#[test]
fn failed_batch_leaves_nothing_visible() {
    let mut db = Engine::new();
    let params = vec![("a".to_string(), rec("a")), ("b#".to_string(), rec("b"))];
    assert!(matches!(batch_put(&mut db, "Dog", params), Err(BicycleError::InvalidArgument)));
    assert_eq!(get_eq(&db, "Dog", "a").len(), 0);
    assert_eq!(db.len(), 0);
}

#[test]
fn batch_put_stores_all_later_wins() {
    let mut db = Engine::new();
    let params = vec![
        ("b".to_string(), rec("b")),
        ("a".to_string(), rec("a-old")),
        ("a".to_string(), rec("a-new")),
    ];
    batch_put(&mut db, "Dog", params).unwrap();
    assert_eq!(get_gte(&db, "Dog", ""), vec![rec("a-new"), rec("b")]);
}

#[test]
fn storage_key_layout() {
    assert_eq!(storage_key("Dog", "4"), b"Dog#4".to_vec());
    assert_eq!(prefix_bytes("Dog"), b"Dog#".to_vec());
    assert!(is_valid_model("Dog_2"));
    assert!(!is_valid_model("Do-g"));
    assert!(!is_valid_model(""));
    assert!(is_valid_pk("ab"));
    assert!(!is_valid_pk("a#b"));
    assert!(!is_valid_pk(""));
}

#[test]
fn byte_order_helpers() {
    assert!(bytes_lt(b"a", b"b"));
    assert!(bytes_lt(b"a", b"ab"));
    assert!(!bytes_lt(b"ab", b"a"));
    assert!(!bytes_lt(b"a", b"a"));
    assert!(bytes_eq(b"xy", b"xy"));
    assert!(!bytes_eq(b"xy", b"x"));
    assert!(has_prefix(b"Dog#1", b"Dog#"));
    assert!(!has_prefix(b"Do", b"Dog#"));
}

#[test]
fn engine_batch_and_point_ops() {
    let mut db = Engine::new();
    db.put(b"k2".to_vec(), b"v2".to_vec());
    db.write_batch(vec![
        BatchOp::Put { key: b"k1".to_vec(), value: b"v1".to_vec() },
        BatchOp::Delete { key: b"k2".to_vec() },
        BatchOp::Put { key: b"k3".to_vec(), value: b"v3".to_vec() },
    ]);
    assert_eq!(db.get(b"k1"), Some(b"v1".to_vec()));
    assert_eq!(db.get(b"k2"), None);
    assert_eq!(db.key_at(1), b"k3");
    db.delete(b"absent");
    assert_eq!(db.len(), 2);
    assert_eq!(db.seek(b"k2"), 1);
    assert_eq!(db.seek_past(b"k3"), 2);
}
