use vstd::prelude::*;
use crate::placement::names;

verus! {

/// The index after an atomic create-if-absent of `key` with `replicas`.
pub open spec fn after_create(
    m: Map<Seq<char>, Seq<Seq<char>>>,
    key: Seq<char>,
    replicas: Seq<Seq<char>>,
) -> Map<Seq<char>, Seq<Seq<char>>> {
    if m.contains_key(key) {
        m
    } else {
        m.insert(key, replicas)
    }
}

/// The index, and the result of each call, after create-if-absent calls for
/// `key` with each of `lists` in turn.
pub open spec fn creates(
    m: Map<Seq<char>, Seq<Seq<char>>>,
    key: Seq<char>,
    lists: Seq<Seq<Seq<char>>>,
) -> (Map<Seq<char>, Seq<Seq<char>>>, Seq<bool>)
    decreases lists.len(),
{
    if lists.len() == 0 {
        (m, seq![])
    } else {
        let (m2, rs) = creates(m, key, lists.drop_last());
        (after_create(m2, key, lists.last()), rs.push(!m2.contains_key(key)))
    }
}

/// Of any run of create-if-absent calls for a key that is not bound, exactly
/// the first succeeds, and the index ends with the key bound once, to the list
/// that the first call gave.
pub proof fn lemma_create_once(
    m: Map<Seq<char>, Seq<Seq<char>>>,
    key: Seq<char>,
    lists: Seq<Seq<Seq<char>>>,
)
    requires
        !m.contains_key(key),
        lists.len() > 0,
    ensures
        creates(m, key, lists).1.len() == lists.len(),
        creates(m, key, lists).1[0],
        forall|i: int| 1 <= i < lists.len() ==> !#[trigger] creates(m, key, lists).1[i],
        creates(m, key, lists).0 == m.insert(key, lists[0]),
    decreases lists.len(),
{
    let init = lists.drop_last();
    let prev = creates(m, key, init);
    assert(creates(m, key, lists) == (
        after_create(prev.0, key, lists.last()),
        prev.1.push(!prev.0.contains_key(key)),
    ));
    if lists.len() == 1 {
        assert(init.len() == 0);
        assert(prev == (m, Seq::<bool>::empty()));
        assert(lists.last() == lists[0]);
    } else {
        lemma_create_once(m, key, init);
        assert(init[0] == lists[0]);
        let rs = creates(m, key, lists).1;
        let rs0 = creates(m, key, init).1;
        assert forall|i: int| 1 <= i < lists.len() implies !#[trigger] rs[i] by {
            if i < lists.len() - 1 {
                assert(rs[i] == rs0[i]);
            }
        }
    }
}

/// A copy of a list of volume identifiers.
pub(crate) fn copy_list(v: &[String]) -> (r: Vec<String>)
    ensures
        names(r@) == names(v@),
{
    let mut out: Vec<String> = Vec::new();
    let mut i: usize = 0;
    while i < v.len()
        invariant
            i <= v@.len(),
            out@.len() == i,
            forall|j: int| 0 <= j < i ==> #[trigger] out@[j]@ == v@[j]@,
        decreases v@.len() - i,
    {
        out.push(v[i].clone());
        i = i + 1;
    }
    assert(names(out@) =~= names(v@));
    out
}

/// An in-memory index store: each key bound to the ordered replica list it
/// was committed with.
pub struct MemIndex {
    entries: Vec<(String, Vec<String>)>,
    contents: Ghost<Map<Seq<char>, Seq<Seq<char>>>>,
}

impl View for MemIndex {
    type V = Map<Seq<char>, Seq<Seq<char>>>;

    closed spec fn view(&self) -> Map<Seq<char>, Seq<Seq<char>>> {
        self.contents@
    }
}

impl MemIndex {
    /// Each entry's key is bound in the map to its replica list, no key is
    /// stored twice, and every key of the map is stored.
    pub closed spec fn wf(&self) -> bool {
        &&& forall|i: int|
            0 <= i < self.entries@.len() ==> {
                &&& self.contents@.contains_key(#[trigger] self.entries@[i].0@)
                &&& self.contents@[self.entries@[i].0@] == names(self.entries@[i].1@)
            }
        &&& forall|i: int, j: int|
            0 <= i < self.entries@.len() && 0 <= j < self.entries@.len() && i != j
                ==> #[trigger] self.entries@[i].0@ != #[trigger] self.entries@[j].0@
        &&& forall|k: Seq<char>|
            #[trigger] self.contents@.contains_key(k) ==> exists|i: int|
                0 <= i < self.entries@.len() && #[trigger] self.entries@[i].0@ == k
    }

    /// An empty index.
    pub fn new() -> (r: MemIndex)
        ensures
            r.wf(),
            r@ == Map::<Seq<char>, Seq<Seq<char>>>::empty(),
    {
        MemIndex { entries: Vec::new(), contents: Ghost(Map::empty()) }
    }

    /// Position of the entry for `key`.
    fn find(&self, key: &String) -> (r: Option<usize>)
        requires
            self.wf(),
        ensures
            match r {
                Some(i) => i < self.entries@.len() && self.entries@[i as int].0@ == key@,
                None => !self@.contains_key(key@),
            },
    {
        let mut i: usize = 0;
        while i < self.entries.len()
            invariant
                self.wf(),
                i <= self.entries@.len(),
                forall|j: int| 0 <= j < i ==> #[trigger] self.entries@[j].0@ != key@,
            decreases self.entries@.len() - i,
        {
            if self.entries[i].0 == *key {
                return Some(i);
            }
            i = i + 1;
        }
        None
    }

    /// The replica list committed for `key`, if any.
    pub fn get(&self, key: &str) -> (r: Option<Vec<String>>)
        requires
            self.wf(),
        ensures
            match r {
                Some(v) => self@.contains_key(key@) && names(v@) == self@[key@],
                None => !self@.contains_key(key@),
            },
    {
        let k = key.to_owned();
        match self.find(&k) {
            Some(i) => Some(copy_list(self.entries[i].1.as_slice())),
            None => None,
        }
    }

    /// Binds `key` to `replicas` unless it is bound already; says whether it
    /// did. Of several calls for an unbound key exactly the first succeeds.
    pub fn create_if_absent(&mut self, key: &str, replicas: &[String]) -> (created: bool)
        requires
            old(self).wf(),
        ensures
            final(self).wf(),
            created == !old(self)@.contains_key(key@),
            final(self)@ == after_create(old(self)@, key@, names(replicas@)),
    {
        let k = key.to_owned();
        match self.find(&k) {
            Some(_) => false,
            None => {
                let list = copy_list(replicas);
                let ghost old_entries = self.entries@;
                self.entries.push((k, list));
                self.contents = Ghost(self.contents@.insert(key@, names(replicas@)));
                proof {
                    let n = old_entries.len() as int;
                    assert(self.entries@[n].0@ == key@);
                    assert forall|q: Seq<char>| #[trigger] self.contents@.contains_key(q) implies exists|i: int|
                        0 <= i < self.entries@.len() && #[trigger] self.entries@[i].0@ == q by {
                        if q != key@ {
                            let i = choose|i: int| 0 <= i < old_entries.len() && #[trigger] old_entries[i].0@ == q;
                            assert(self.entries@[i] == old_entries[i]);
                        }
                    }
                }
                true
            },
        }
    }

    /// Removes the binding of `key`; says whether there was one.
    pub fn delete(&mut self, key: &str) -> (removed: bool)
        requires
            old(self).wf(),
        ensures
            final(self).wf(),
            removed == old(self)@.contains_key(key@),
            final(self)@ == old(self)@.remove(key@),
    {
        let k = key.to_owned();
        match self.find(&k) {
            Some(i) => {
                let ghost old_entries = self.entries@;
                let _ = self.entries.remove(i);
                self.contents = Ghost(self.contents@.remove(key@));
                proof {
                    assert forall|j: int| 0 <= j < self.entries@.len() implies
                        #[trigger] self.entries@[j] == old_entries[if j < i { j } else { j + 1 }] by {}
                    assert forall|q: Seq<char>| #[trigger] self.contents@.contains_key(q) implies exists|j: int|
                        0 <= j < self.entries@.len() && #[trigger] self.entries@[j].0@ == q by {
                        let t = choose|t: int| 0 <= t < old_entries.len() && #[trigger] old_entries[t].0@ == q;
                        assert(t != i);
                        let j = if t < i { t } else { t - 1 };
                        assert(self.entries@[j] == old_entries[t]);
                    }
                }
                true
            },
            None => {
                proof {
                    assert(self.contents@.remove(key@) =~= self.contents@);
                }
                false
            },
        }
    }
}

} // verus!
