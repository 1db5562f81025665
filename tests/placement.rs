use minikeyvalue::placement::select_lowest_scores;
use minikeyvalue::key2volumes;

fn vols(names: &[&str]) -> Vec<String> {
    names.iter().map(|s| s.to_string()).collect()
}

#[test]
fn place_picks_lowest_scores_in_order() {
    let v = vols(&["v1", "v2", "v3"]);
    assert_eq!(key2volumes("foo", &v, 2), vols(&["v1", "v3"]));
    assert_eq!(key2volumes("foo", &v, 3), vols(&["v1", "v3", "v2"]));
    let w = vols(&["http://a", "http://b", "http://c", "http://d"]);
    assert_eq!(key2volumes("bar", &w, 3), vols(&["http://c", "http://b", "http://d"]));
}

#[test]
fn place_is_deterministic() {
    let v = vols(&["a", "b", "c", "d", "e"]);
    for key in ["x", "y", "some/longer key", ""] {
        assert_eq!(key2volumes(key, &v, 3), key2volumes(key, &v, 3));
    }
}

#[test]
fn place_length_and_distinct() {
    let v = vols(&["a", "b", "c", "d", "e"]);
    for k in 0..8usize {
        let r = key2volumes("key", &v, k);
        assert_eq!(r.len(), k.min(v.len()));
        for (i, x) in r.iter().enumerate() {
            assert!(v.contains(x));
            assert!(!r[i + 1..].contains(x));
        }
    }
}

#[test]
fn place_edge_cases() {
    assert!(key2volumes("foo", &[], 3).is_empty());
    assert!(key2volumes("foo", &vols(&["v1", "v2"]), 0).is_empty());
    let mut all = key2volumes("foo", &vols(&["v1", "v2", "v3"]), 10);
    all.sort();
    assert_eq!(all, vols(&["v1", "v2", "v3"]));
}

#[test]
fn place_order_does_not_depend_on_input_order() {
    let a = vols(&["v1", "v2", "v3", "v4"]);
    let b = vols(&["v4", "v3", "v2", "v1"]);
    for i in 0..50 {
        let key = format!("key{}", i);
        assert_eq!(key2volumes(&key, &a, 2), key2volumes(&key, &b, 2));
    }
}

#[test]
fn place_removing_unselected_volume_changes_nothing() {
    let all: Vec<String> = (0..8).map(|i| format!("http://vol{}", i)).collect();
    for i in 0..200 {
        let key = format!("k{}", i);
        let before = key2volumes(&key, &all, 3);
        for removed in all.iter() {
            if before.contains(removed) {
                continue;
            }
            let fewer: Vec<String> = all.iter().filter(|v| *v != removed).cloned().collect();
            assert_eq!(key2volumes(&key, &fewer, 3), before);
        }
    }
}

#[test]
fn place_minimal_disruption_sample() {
    let all: Vec<String> = (0..10).map(|i| format!("http://vol{}", i)).collect();
    let fewer: Vec<String> = all[..9].to_vec();
    let n = 2000;
    let mut changed = 0;
    for i in 0..n {
        let key = format!("sample-{}", i);
        if key2volumes(&key, &all, 1) != key2volumes(&key, &fewer, 1) {
            changed += 1;
        }
    }
    let fraction = changed as f64 / n as f64;
    assert!(fraction > 0.05 && fraction < 0.15, "fraction {}", fraction);
}

#[test]
fn select_orders_by_score_then_position() {
    let scored = vec![
        (vec![3u8, 0], "a".to_string()),
        (vec![1u8, 9], "b".to_string()),
        (vec![1u8, 9], "c".to_string()),
        (vec![1u8], "d".to_string()),
        (vec![2u8], "e".to_string()),
    ];
    assert_eq!(select_lowest_scores(scored.clone(), 3), vols(&["d", "b", "c"]));
    assert_eq!(select_lowest_scores(scored.clone(), 9), vols(&["d", "b", "c", "e", "a"]));
    assert_eq!(select_lowest_scores(scored, 0), Vec::<String>::new());
    assert_eq!(select_lowest_scores(Vec::new(), 2), Vec::<String>::new());
}

#[test]
fn place_removing_any_volume_keeps_relative_order() {
    let all: Vec<String> = (0..6).map(|i| format!("http://vol{}", i)).collect();
    for i in 0..100 {
        let key = format!("r{}", i);
        let wider = key2volumes(&key, &all, 4);
        for removed in all.iter() {
            let fewer: Vec<String> = all.iter().filter(|v| *v != removed).cloned().collect();
            let mut expected: Vec<String> = wider.iter().filter(|v| *v != removed).cloned().collect();
            expected.truncate(3);
            assert_eq!(key2volumes(&key, &fewer, 3), expected);
        }
    }
}

#[test]
fn place_adding_a_volume_displaces_at_most_the_last() {
    let base: Vec<String> = (0..5).map(|i| format!("http://vol{}", i)).collect();
    let added = "http://new".to_string();
    let mut more = base.clone();
    more.push(added.clone());
    for i in 0..100 {
        let key = format!("a{}", i);
        let before = key2volumes(&key, &base, 3);
        let after: Vec<String> =
            key2volumes(&key, &more, 3).into_iter().filter(|v| *v != added).collect();
        assert!(after.len() >= 2);
        assert_eq!(after[..], before[..after.len()]);
    }
}
