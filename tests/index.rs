use minikeyvalue::index::MemIndex;

fn vols(names: &[&str]) -> Vec<String> {
    names.iter().map(|s| s.to_string()).collect()
}

#[test]
fn index_create_get_delete() {
    let mut idx = MemIndex::new();
    assert_eq!(idx.get("k"), None);
    assert!(idx.create_if_absent("k", &vols(&["v1", "v2"])));
    assert_eq!(idx.get("k"), Some(vols(&["v1", "v2"])));
    assert!(!idx.create_if_absent("k", &vols(&["v3"])));
    assert_eq!(idx.get("k"), Some(vols(&["v1", "v2"])));
    assert!(idx.create_if_absent("other", &vols(&["v3"])));
    assert!(idx.delete("k"));
    assert!(!idx.delete("k"));
    assert_eq!(idx.get("k"), None);
    assert_eq!(idx.get("other"), Some(vols(&["v3"])));
}

#[test]
fn index_create_once_of_many() {
    let mut idx = MemIndex::new();
    let results: Vec<bool> = (0..10)
        .map(|i| idx.create_if_absent("newkey", &vols(&[&format!("v{}", i)])))
        .collect();
    assert_eq!(results.iter().filter(|r| **r).count(), 1);
    assert!(results[0]);
    assert_eq!(idx.get("newkey"), Some(vols(&["v0"])));
}
