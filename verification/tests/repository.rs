use zawgl::model::{Property, PropertyValue};
use zawgl::repository::{BTreeIndex, KeyPropertiesRepository, PropertiesRespository};

fn prop(name: &str, value: PropertyValue) -> Property {
    Property { id: None, name: name.to_string(), value }
}

fn names(props: &[Property]) -> Vec<String> {
    props.iter().map(|p| p.name.clone()).collect()
}

#[test]
fn put_then_get_gives_the_lists_back_with_ids() {
    let mut repo = KeyPropertiesRepository::new();
    let mut first = vec![prop("name", PropertyValue::PString("Alice".to_string())), prop("age", PropertyValue::PInteger(42))];
    assert_eq!(repo.put("person", &mut first), Some(()));
    assert_eq!(first[0].id, Some(0));
    assert_eq!(first[1].id, Some(1));
    let mut second = vec![prop("score", PropertyValue::PFloat(2.5f64.to_bits())), prop("ok", PropertyValue::PBool(true))];
    assert_eq!(repo.put("person", &mut second), Some(()));
    assert_eq!(second[0].id, Some(2));
    let got = repo.get("person").unwrap();
    assert_eq!(got.len(), 2);
    assert_eq!(names(&got[0]), vec!["name", "age"]);
    assert_eq!(got[0][0].id, Some(0));
    assert!(matches!(&got[0][0].value, PropertyValue::PString(s) if s == "Alice"));
    assert!(matches!(got[0][1].value, PropertyValue::PInteger(42)));
    assert!(matches!(got[1][0].value, PropertyValue::PFloat(bits) if f64::from_bits(bits) == 2.5));
    assert!(matches!(got[1][1].value, PropertyValue::PBool(true)));
    assert_eq!(got[1][1].id, Some(3));
}

#[test]
fn keys_are_kept_apart() {
    let mut repo = KeyPropertiesRepository::new();
    let mut a = vec![prop("a", PropertyValue::PInteger(1))];
    let mut b = vec![prop("b", PropertyValue::PInteger(2))];
    repo.put("k1", &mut a).unwrap();
    repo.put("k2", &mut b).unwrap();
    assert_eq!(names(&repo.get("k1").unwrap()[0]), vec!["a"]);
    assert_eq!(names(&repo.get("k2").unwrap()[0]), vec!["b"]);
    assert!(repo.get("k3").is_none());
}

#[test]
fn clear_forgets_everything() {
    let mut repo = KeyPropertiesRepository::new();
    let mut a = vec![prop("a", PropertyValue::PInteger(1))];
    repo.put("k", &mut a).unwrap();
    repo.clear();
    assert!(repo.get("k").is_none());
    let mut b = vec![prop("b", PropertyValue::PBool(false))];
    repo.put("k", &mut b).unwrap();
    assert_eq!(b[0].id, Some(0));
    assert_eq!(repo.get("k").unwrap().len(), 1);
}

#[test]
fn properties_repository_lists() {
    let mut props = PropertiesRespository::new();
    let mut l = vec![prop("x", PropertyValue::PInteger(-7))];
    assert_eq!(props.create_list(&mut l), Some(0));
    let mut empty: Vec<Property> = Vec::new();
    assert_eq!(props.create_list(&mut empty), Some(1));
    assert_eq!(props.retrieve_list(1).unwrap().len(), 0);
    let back = props.retrieve_list(0).unwrap();
    assert_eq!(back[0].id, Some(0));
    assert!(matches!(back[0].value, PropertyValue::PInteger(-7)));
    assert!(props.retrieve_list(2).is_none());
}

#[test]
fn index_appends_ids_under_a_key() {
    let mut idx = BTreeIndex::new();
    assert!(idx.search("a").is_none());
    assert_eq!(idx.insert("a", 5), Some(()));
    assert_eq!(idx.insert("b", 6), Some(()));
    assert_eq!(idx.insert("a", 7), Some(()));
    assert_eq!(idx.search("a").unwrap(), vec![5, 7]);
    assert_eq!(idx.search("b").unwrap(), vec![6]);
    idx.clear();
    assert!(idx.search("a").is_none());
}

#[test]
fn sync_hands_out_each_put_once() {
    let mut repo = KeyPropertiesRepository::new();
    assert!(repo.sync().is_empty());
    let mut a = vec![prop("a", PropertyValue::PInteger(1))];
    let mut b = vec![prop("b", PropertyValue::PString("x".to_string())), prop("c", PropertyValue::PBool(true))];
    repo.put("k1", &mut a).unwrap();
    repo.put("k2", &mut b).unwrap();
    let puts = repo.sync();
    assert_eq!(puts.len(), 2);
    assert_eq!(puts[0].0, "k1");
    assert_eq!(names(&puts[0].1), vec!["a"]);
    assert_eq!(puts[1].0, "k2");
    assert_eq!(names(&puts[1].1), vec!["b", "c"]);
    assert_eq!(puts[1].1[1].id, Some(2));
    assert!(repo.sync().is_empty());
    assert_eq!(repo.get("k2").unwrap().len(), 1);
}

#[test]
fn reopening_from_the_synced_puts_answers_alike() {
    let mut repo = KeyPropertiesRepository::new();
    let mut a = vec![prop("name", PropertyValue::PString("Alice".to_string())), prop("age", PropertyValue::PInteger(42))];
    repo.put("person", &mut a).unwrap();
    let mut written = repo.sync();
    let mut b = vec![prop("title", PropertyValue::PString("Heat".to_string()))];
    let mut c = vec![prop("age", PropertyValue::PInteger(7))];
    repo.put("movie", &mut b).unwrap();
    repo.put("person", &mut c).unwrap();
    written.extend(repo.sync());
    let mut reopened = KeyPropertiesRepository::from_puts(&written).unwrap();
    for key in ["person", "movie", "nobody"] {
        let before = repo.get(key);
        let after = reopened.get(key);
        assert_eq!(before.is_some(), after.is_some());
        if let (Some(x), Some(y)) = (before, after) {
            assert_eq!(x.len(), y.len());
            for (l1, l2) in x.iter().zip(y.iter()) {
                assert_eq!(names(l1), names(l2));
                assert_eq!(l1.iter().map(|p| p.id).collect::<Vec<_>>(), l2.iter().map(|p| p.id).collect::<Vec<_>>());
            }
        }
    }
    let mut d = vec![prop("x", PropertyValue::PBool(true))];
    reopened.put("person", &mut d).unwrap();
    assert_eq!(d[0].id, Some(4));
}

#[test]
fn pending_puts_are_kept_until_marked_synced() {
    let mut repo = KeyPropertiesRepository::new();
    let mut a = vec![prop("a", PropertyValue::PInteger(1))];
    repo.put("k", &mut a).unwrap();
    assert_eq!(repo.pending_puts().len(), 1);
    assert_eq!(repo.pending_puts().len(), 1);
    repo.mark_synced();
    assert!(repo.pending_puts().is_empty());
    assert!(repo.sync().is_empty());
}
