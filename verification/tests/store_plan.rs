use earthquake_alert::lookup::{sorted_unique, text_less, SeenIds};
use earthquake_alert::store_plan::{
    list_holds, geohash_bucket_prefix, geohash_index_key, geohash_subscription_key, plan_delete,
    plan_upsert, remove_from_index, subscription_key, IndexUpdate, StoreOp,
};

fn strings(v: &[&str]) -> Vec<String> {
    v.iter().map(|s| s.to_string()).collect()
}

fn describe(ops: &[StoreOp]) -> Vec<String> {
    ops.iter()
        .map(|op| match op {
            StoreOp::RemoveFromIndex(k) => format!("unlist {k}"),
            StoreOp::Remove(k) => format!("remove {k}"),
            StoreOp::PutSubscription(k) => format!("put {k}"),
        })
        .collect()
}

#[test]
fn key_layout() {
    assert_eq!(subscription_key("abc123"), "sub:abc123");
    assert_eq!(geohash_index_key("wx4g"), "geo:wx4g");
    assert_eq!(geohash_bucket_prefix("wx4g"), "geo_sub:wx4g:");
    assert_eq!(geohash_subscription_key("wx4g", "abc123"), "geo_sub:wx4g:abc123");
}

#[test]
fn a_bucket_prefix_reads_one_cell_only() {
    let key = geohash_subscription_key("wx4g", "abc123");
    assert!(key.starts_with(&geohash_bucket_prefix("wx4g")));
    assert!(!key.starts_with(&geohash_bucket_prefix("wx4")));
    assert!(!geohash_subscription_key("wx4", "gabc").starts_with(&geohash_bucket_prefix("wx4g")));
}

#[test]
fn first_upsert_writes_the_record_and_its_buckets() {
    let ops = plan_upsert("abc123", &Vec::new(), &strings(&["wx4g", "wx4u"]));
    assert_eq!(
        describe(&ops),
        vec!["put sub:abc123", "put geo_sub:wx4g:abc123", "put geo_sub:wx4u:abc123"]
    );
}

#[test]
fn moving_a_subscription_empties_its_old_bucket() {
    let ops = plan_upsert("abc123", &strings(&["wx4g", "wx4u"]), &strings(&["wtw3", "wx4u"]));
    assert_eq!(
        describe(&ops),
        vec![
            "unlist geo:wx4g",
            "unlist geo:wx4u",
            "remove geo_sub:wx4g:abc123",
            "put sub:abc123",
            "put geo_sub:wtw3:abc123",
            "put geo_sub:wx4u:abc123",
        ]
    );
}

#[test]
fn delete_removes_every_entry_of_the_subscription() {
    let ops = plan_delete("abc123", &strings(&["wtw3"]));
    assert_eq!(
        describe(&ops),
        vec!["unlist geo:wtw3", "remove geo_sub:wtw3:abc123", "remove sub:abc123"]
    );
    assert_eq!(describe(&plan_delete("x", &Vec::new())), vec!["remove sub:x"]);
}

#[test]
fn legacy_lists_lose_the_subscription() {
    match remove_from_index(&strings(&["a", "b", "a", "c"]), "a") {
        IndexUpdate::Write(rest) => assert_eq!(rest, strings(&["b", "c"])),
        IndexUpdate::Delete => panic!("the list is not empty"),
    }
    assert!(matches!(remove_from_index(&strings(&["a"]), "a"), IndexUpdate::Delete));
    assert!(matches!(remove_from_index(&Vec::new(), "a"), IndexUpdate::Delete));
    match remove_from_index(&strings(&["b"]), "a") {
        IndexUpdate::Write(rest) => assert_eq!(rest, strings(&["b"])),
        IndexUpdate::Delete => panic!("b stays"),
    }
}

#[test]
fn list_membership() {
    let v = strings(&["wx4g", "wx4u"]);
    assert!(list_holds(&v, "wx4u"));
    assert!(!list_holds(&v, "wx4"));
    assert!(!list_holds(&Vec::new(), ""));
}

#[test]
fn string_order() {
    assert!(text_less("a", "b"));
    assert!(text_less("ab", "abc"));
    assert!(!text_less("abc", "ab"));
    assert!(!text_less("abc", "abc"));
    assert!(text_less("", "a"));
    assert!(text_less("Z", "a"));
    assert!(text_less("z", "订"));
    for (a, b) in [("legacy1", "legacy2"), ("b", "ab"), ("x9", "xa")] {
        assert_eq!(text_less(a, b), a < b);
    }
}

#[test]
fn legacy_ids_are_sorted_and_deduplicated() {
    let ids = strings(&["legacy2", "abc", "legacy1", "abc", "legacy2"]);
    assert_eq!(sorted_unique(&ids), strings(&["abc", "legacy1", "legacy2"]));
    assert_eq!(sorted_unique(&Vec::new()), Vec::<String>::new());
    let mut expected = strings(&["b", "订", "a", "B", "ab"]);
    expected.sort();
    expected.dedup();
    assert_eq!(sorted_unique(&strings(&["b", "订", "a", "B", "ab", "a"])), expected);
}

#[test]
fn each_subscription_is_handed_out_once() {
    let mut seen = SeenIds::new();
    assert!(!seen.contains("abc"));
    assert!(seen.insert("abc"));
    assert!(!seen.insert("abc"));
    assert!(seen.insert("legacy1"));
    assert!(seen.contains("abc"));
    assert!(seen.contains("legacy1"));
    assert!(!seen.contains("legacy2"));
}

enum Entry {
    Record(Vec<u8>),
    Index(Vec<String>),
}

fn apply(store: &mut std::collections::BTreeMap<String, Entry>, ops: &[StoreOp], id: &str, value: &[u8]) {
    for op in ops {
        match op {
            StoreOp::PutSubscription(k) => {
                store.insert(k.clone(), Entry::Record(value.to_vec()));
            }
            StoreOp::Remove(k) => {
                store.remove(k);
            }
            StoreOp::RemoveFromIndex(k) => {
                let update = match store.get(k) {
                    Some(Entry::Index(ids)) => Some(remove_from_index(ids, id)),
                    _ => None,
                };
                match update {
                    Some(IndexUpdate::Delete) => {
                        store.remove(k);
                    }
                    Some(IndexUpdate::Write(rest)) => {
                        store.insert(k.clone(), Entry::Index(rest));
                    }
                    None => {}
                }
            }
        }
    }
}

fn bucket(store: &std::collections::BTreeMap<String, Entry>, geohash: &str) -> Vec<String> {
    let prefix = geohash_bucket_prefix(geohash);
    store.keys().filter(|k| k.starts_with(&prefix)).map(|k| k[prefix.len()..].to_string()).collect()
}

#[test]
fn plans_move_and_delete_a_subscription_in_a_store() {
    let mut store = std::collections::BTreeMap::new();
    store.insert("sub:other".to_string(), Entry::Record(b"o".to_vec()));
    store.insert("geo_sub:wx4g:other".to_string(), Entry::Record(b"o".to_vec()));
    store.insert("geo:wx4g".to_string(), Entry::Index(strings(&["abc123", "other"])));

    apply(&mut store, &plan_upsert("abc123", &Vec::new(), &strings(&["wx4g"])), "abc123", b"v1");
    assert_eq!(bucket(&store, "wx4g"), strings(&["abc123", "other"]));

    apply(
        &mut store,
        &plan_upsert("abc123", &strings(&["wx4g"]), &strings(&["wtw3"])),
        "abc123",
        b"v2",
    );
    assert_eq!(bucket(&store, "wx4g"), strings(&["other"]));
    assert_eq!(bucket(&store, "wtw3"), strings(&["abc123"]));
    assert!(matches!(store.get("sub:abc123"), Some(Entry::Record(v)) if v == b"v2"));
    assert!(matches!(store.get("geo:wx4g"), Some(Entry::Index(ids)) if *ids == strings(&["other"])));

    apply(&mut store, &plan_delete("abc123", &strings(&["wtw3"])), "abc123", b"");
    assert!(bucket(&store, "wtw3").is_empty());
    assert!(store.get("sub:abc123").is_none());
    // the other subscription is untouched
    assert!(matches!(store.get("sub:other"), Some(Entry::Record(v)) if v == b"o"));
    assert_eq!(bucket(&store, "wx4g"), strings(&["other"]));
}
