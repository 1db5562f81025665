use minikeyvalue::coordinator::{
    begin_read, begin_read_from, begin_read_record, begin_write, commit_write, delete_key,
    finish_write, index_record, next_read, next_write, record_probe, record_store, Config,
    Outcome, ReadAction, Redirect, WriteAction,
};
use minikeyvalue::index::MemIndex;
use minikeyvalue::key2path;
use minikeyvalue::key2volumes;
use std::collections::HashMap;

fn vols(names: &[&str]) -> Vec<String> {
    names.iter().map(|s| s.to_string()).collect()
}

/// Volumes simulated in memory: blobs by address, and addresses of volumes that are down.
struct Cluster {
    blobs: HashMap<String, String>,
    down: Vec<String>,
    calls: usize,
}

impl Cluster {
    fn new() -> Cluster {
        Cluster { blobs: HashMap::new(), down: Vec::new(), calls: 0 }
    }

    fn is_down(&self, url: &str) -> bool {
        self.down.iter().any(|d| url.starts_with(&format!("{}/", d)))
    }

    fn store(&mut self, url: &str, body: &str) -> bool {
        self.calls += 1;
        if self.is_down(url) {
            return false;
        }
        self.blobs.insert(url.to_string(), body.to_string());
        true
    }

    fn head(&mut self, url: &str) -> bool {
        self.calls += 1;
        !self.is_down(url) && self.blobs.contains_key(url)
    }
}

fn put(cfg: &Config, idx: &mut MemIndex, cl: &mut Cluster, key: &str, body: &str) -> u16 {
    let indexed = idx.get(key).is_some();
    let mut plan = match begin_write(cfg, key, body, indexed) {
        Ok(p) => p,
        Err(o) => return o.status_code(),
    };
    loop {
        match next_write(&plan) {
            WriteAction::Store { url } => {
                let ok = cl.store(&url, body);
                if let Some(o) = record_store(&mut plan, ok) {
                    return o.status_code();
                }
            }
            WriteAction::Commit => return commit_write(idx, &plan).status_code(),
        }
    }
}

fn get(idx: &MemIndex, cl: &mut Cluster, key: &str) -> Result<Redirect, u16> {
    let mut plan = match begin_read_from(idx, key) {
        Some(p) => p,
        None => return Err(Outcome::NotFound.status_code()),
    };
    loop {
        match next_read(&plan) {
            ReadAction::Probe { url } => {
                let ok = cl.head(&url);
                if let Some(r) = record_probe(&mut plan, ok) {
                    return Ok(r);
                }
            }
            ReadAction::NotFound => return Err(Outcome::NotFound.status_code()),
        }
    }
}

#[test]
fn write_read_round_trip() {
    let cfg = Config::new(vols(&["v1", "v2", "v3"]), 2);
    let mut idx = MemIndex::new();
    let mut cl = Cluster::new();
    assert_eq!(put(&cfg, &mut idx, &mut cl, "foo", "bar"), 201);
    let chosen = key2volumes("foo", &vols(&["v1", "v2", "v3"]), 2);
    assert_eq!(chosen, vols(&["v1", "v3"]));
    for v in &chosen {
        assert_eq!(cl.blobs.get(&format!("{}/{}", v, key2path("foo"))).unwrap(), "bar");
    }
    let r = get(&idx, &mut cl, "foo").ok().unwrap();
    assert_eq!(r.location, format!("{}/{}", chosen[0], key2path("foo")));
    assert_eq!(r.key_volumes, "v1,v3");
}

#[test]
fn read_skips_down_replica() {
    let cfg = Config::new(vols(&["v1", "v2", "v3"]), 2);
    let mut idx = MemIndex::new();
    let mut cl = Cluster::new();
    assert_eq!(put(&cfg, &mut idx, &mut cl, "foo", "bar"), 201);
    cl.down.push("v1".to_string());
    let r = get(&idx, &mut cl, "foo").ok().unwrap();
    assert_eq!(r.location, format!("v3/{}", key2path("foo")));
    assert_eq!(r.key_volumes, "v1,v3");
}

#[test]
fn repeated_put_conflicts() {
    let cfg = Config::new(vols(&["v1", "v2", "v3"]), 2);
    let mut idx = MemIndex::new();
    let mut cl = Cluster::new();
    assert_eq!(put(&cfg, &mut idx, &mut cl, "foo", "bar"), 201);
    assert_eq!(put(&cfg, &mut idx, &mut cl, "foo", "other"), 409);
    assert_eq!(idx.get("foo"), Some(vols(&["v1", "v3"])));
    let r = get(&idx, &mut cl, "foo").ok().unwrap();
    assert_eq!(cl.blobs.get(&r.location).unwrap(), "bar");
}

#[test]
fn empty_body_is_refused() {
    let cfg = Config::new(vols(&["v1", "v2", "v3"]), 2);
    let mut idx = MemIndex::new();
    let mut cl = Cluster::new();
    assert_eq!(put(&cfg, &mut idx, &mut cl, "foo", ""), 400);
    assert_eq!(cl.calls, 0);
    assert_eq!(idx.get("foo"), None);
}

#[test]
fn all_replicas_down_read_is_not_found() {
    let cfg = Config::new(vols(&["v1", "v2", "v3"]), 2);
    let mut idx = MemIndex::new();
    let mut cl = Cluster::new();
    assert_eq!(put(&cfg, &mut idx, &mut cl, "foo", "bar"), 201);
    cl.down = vols(&["v1", "v2", "v3"]);
    assert_eq!(get(&idx, &mut cl, "foo").err(), Some(404));
}

#[test]
fn missing_key_read_makes_no_calls() {
    let idx = MemIndex::new();
    let mut cl = Cluster::new();
    assert_eq!(get(&idx, &mut cl, "nothing").err(), Some(404));
    assert_eq!(cl.calls, 0);
}

#[test]
fn delete_then_rewrite() {
    let cfg = Config::new(vols(&["v1", "v2", "v3"]), 2);
    let mut idx = MemIndex::new();
    let mut cl = Cluster::new();
    assert_eq!(put(&cfg, &mut idx, &mut cl, "foo", "bar"), 201);
    assert_eq!(delete_key(&mut idx, "foo").status_code(), 204);
    assert_eq!(get(&idx, &mut cl, "foo").err(), Some(404));
    assert_eq!(delete_key(&mut idx, "foo").status_code(), 404);
    let bigger = Config::new(vols(&["v1", "v2", "v3", "v4"]), 2);
    assert_eq!(put(&bigger, &mut idx, &mut cl, "foo", "baz"), 201);
    assert!(get(&idx, &mut cl, "foo").is_ok());
}

#[test]
fn failed_replica_write_commits_nothing() {
    let cfg = Config::new(vols(&["v1", "v2", "v3"]), 2);
    let mut idx = MemIndex::new();
    let mut cl = Cluster::new();
    cl.down.push("v3".to_string());
    assert_eq!(put(&cfg, &mut idx, &mut cl, "foo", "bar"), 500);
    assert_eq!(idx.get("foo"), None);
    cl.down.clear();
    assert_eq!(put(&cfg, &mut idx, &mut cl, "foo", "bar"), 201);
}

#[test]
fn first_replica_failure_stops_the_write() {
    let cfg = Config::new(vols(&["v1", "v2", "v3"]), 2);
    let mut idx = MemIndex::new();
    let mut cl = Cluster::new();
    cl.down.push("v1".to_string());
    assert_eq!(put(&cfg, &mut idx, &mut cl, "foo", "bar"), 500);
    assert_eq!(cl.calls, 1);
}

#[test]
fn concurrent_writers_one_wins() {
    let cfg = Config::new(vols(&["v1", "v2", "v3"]), 2);
    let mut idx = MemIndex::new();
    let mut cl = Cluster::new();
    let mut plans = Vec::new();
    for _ in 0..5 {
        plans.push(begin_write(&cfg, "newkey", "data", false).ok().unwrap());
    }
    let mut codes = Vec::new();
    for plan in plans.iter_mut() {
        while let WriteAction::Store { url } = next_write(plan) {
            let ok = cl.store(&url, "data");
            assert!(record_store(plan, ok).is_none());
        }
        codes.push(commit_write(&mut idx, plan).status_code());
    }
    assert_eq!(codes.iter().filter(|c| **c == 201).count(), 1);
    assert_eq!(codes.iter().filter(|c| **c == 409).count(), 4);
    assert_eq!(idx.get("newkey"), Some(key2volumes("newkey", &vols(&["v1", "v2", "v3"]), 2)));
}

#[test]
fn config_clamps_replicas() {
    let cfg = Config::new(vols(&["v1", "v2"]), 3);
    assert_eq!(cfg.replicas(), 2);
    let cfg = Config::new(vols(&["v1", "v2", "v3"]), 2);
    assert_eq!(cfg.replicas(), 2);
    let cfg = Config::parse("http://a,http://b,http://c", 5);
    assert_eq!(cfg.volumes(), &vols(&["http://a", "http://b", "http://c"]));
    assert_eq!(cfg.replicas(), 3);
}

#[test]
fn status_codes() {
    assert_eq!(Outcome::Created.status_code(), 201);
    assert_eq!(Outcome::Deleted.status_code(), 204);
    assert_eq!(Outcome::InvalidArgument.status_code(), 400);
    assert_eq!(Outcome::Conflict.status_code(), 409);
    assert_eq!(Outcome::NotFound.status_code(), 404);
    assert_eq!(Outcome::Unavailable.status_code(), 500);
}

#[test]
fn write_outcome_follows_commit_result() {
    let cfg = Config::new(vols(&["v1", "v2", "v3"]), 2);
    assert_eq!(begin_write(&cfg, "foo", "bar", true).err(), Some(Outcome::Conflict));
    assert_eq!(begin_write(&cfg, "foo", "", true).err(), Some(Outcome::InvalidArgument));
    let mut plan = begin_write(&cfg, "foo", "bar", false).ok().unwrap();
    assert_eq!(plan.replicas(), &vols(&["v1", "v3"]));
    match next_write(&plan) {
        WriteAction::Store { url } => assert_eq!(url, "v1/ac/bd/Zm9v"),
        WriteAction::Commit => panic!("nothing stored yet"),
    }
    assert!(record_store(&mut plan, true).is_none());
    match next_write(&plan) {
        WriteAction::Store { url } => assert_eq!(url, "v3/ac/bd/Zm9v"),
        WriteAction::Commit => panic!("one replica left"),
    }
    assert!(record_store(&mut plan, true).is_none());
    assert!(matches!(next_write(&plan), WriteAction::Commit));
    assert_eq!(finish_write(&plan, true), Outcome::Created);
    assert_eq!(finish_write(&plan, false), Outcome::Conflict);
    let (key, record) = index_record(&plan);
    assert_eq!(key, "foo");
    assert_eq!(record, "v1,v3");
}

#[test]
fn read_from_stored_record() {
    assert!(begin_read_record("foo", None).is_none());
    let mut plan = begin_read_record("foo", Some("v1,v3".to_string())).unwrap();
    match next_read(&plan) {
        ReadAction::Probe { url } => assert_eq!(url, "v1/ac/bd/Zm9v"),
        ReadAction::NotFound => panic!("two replicas to try"),
    }
    assert!(record_probe(&mut plan, false).is_none());
    match next_read(&plan) {
        ReadAction::Probe { url } => assert_eq!(url, "v3/ac/bd/Zm9v"),
        ReadAction::NotFound => panic!("one replica to try"),
    }
    assert!(record_probe(&mut plan, false).is_none());
    assert!(matches!(next_read(&plan), ReadAction::NotFound));
    let mut again = begin_read("foo", Some(vols(&["v2"]))).unwrap();
    let r = record_probe(&mut again, true).unwrap();
    assert_eq!(r.location, "v2/ac/bd/Zm9v");
    assert_eq!(r.key_volumes, "v2");
}
