use vstd::prelude::*;
use vstd::string::StringExecFns;
use crate::index::{after_create, MemIndex};
use crate::path::{key2path, key_path};
use crate::placement::{key2volumes, names, place};
use crate::volume_list::{join_commas, join_volumes, split_commas, split_volumes};

verus! {

/// What a request comes to, as the client sees it.
#[derive(Clone, Copy, Debug, PartialEq, Eq, Structural)]
pub enum Outcome {
    Created,
    Deleted,
    InvalidArgument,
    Conflict,
    NotFound,
    Unavailable,
}

/// The HTTP status of each outcome.
pub open spec fn status_of(o: Outcome) -> u16 {
    match o {
        Outcome::Created => 201,
        Outcome::Deleted => 204,
        Outcome::InvalidArgument => 400,
        Outcome::Conflict => 409,
        Outcome::NotFound => 404,
        Outcome::Unavailable => 500,
    }
}

impl Outcome {
    /// The HTTP status that answers the request.
    pub fn status_code(&self) -> (r: u16)
        ensures
            r == status_of(*self),
    {
        match self {
            Outcome::Created => 201,
            Outcome::Deleted => 204,
            Outcome::InvalidArgument => 400,
            Outcome::Conflict => 409,
            Outcome::NotFound => 404,
            Outcome::Unavailable => 500,
        }
    }
}

/// Where a blob lives: the volume's base address, a `/`, and the path.
pub open spec fn volume_url(volume: Seq<char>, path: Seq<char>) -> Seq<char> {
    volume + seq!['/'] + path
}

fn make_url(volume: &String, path: &String) -> (r: String)
    ensures
        r@ == volume_url(volume@, path@),
{
    let sep = "/";
    proof {
        reveal_strlit("/");
    }
    let mut url = String::from_str(volume.as_str());
    url.append(sep);
    url.append(path.as_str());
    url
}

/// The static cluster view: the known volumes and how many replicas each key
/// gets, never more than there are volumes.
pub struct Config {
    volumes: Vec<String>,
    replicas: usize,
}

impl Config {
    /// The known volumes, in configured order.
    pub closed spec fn volume_names(&self) -> Seq<Seq<char>> {
        names(self.volumes@)
    }

    /// How many replicas each key gets.
    pub closed spec fn replica_count(&self) -> nat {
        self.replicas as nat
    }

    /// A configuration over `volumes`, with the replica count clamped to their
    /// number.
    pub fn new(volumes: Vec<String>, replicas: usize) -> (r: Config)
        ensures
            r.volume_names() == names(volumes@),
            r.replica_count() == if replicas < volumes@.len() { replicas as nat } else { volumes@.len() },
    {
        let n = volumes.len();
        let k = if replicas < n { replicas } else { n };
        Config { volumes, replicas: k }
    }

    /// A configuration from a comma-separated volume list.
    pub fn parse(volume_list: &str, replicas: usize) -> (r: Config)
        ensures
            r.volume_names() == split_commas(volume_list@),
            r.replica_count() == if replicas < split_commas(volume_list@).len() {
                replicas as nat
            } else {
                split_commas(volume_list@).len()
            },
    {
        Config::new(split_volumes(volume_list), replicas)
    }

    /// The known volumes.
    pub fn volumes(&self) -> (r: &Vec<String>)
        ensures
            names(r@) == self.volume_names(),
    {
        &self.volumes
    }

    /// The number of replicas of each key.
    pub fn replicas(&self) -> (r: usize)
        ensures
            r == self.replica_count(),
    {
        self.replicas
    }
}

/// A write under way: the replicas that must all hold the value before the
/// key is committed, and how many already do.
pub struct WritePlan {
    key: String,
    path: String,
    replicas: Vec<String>,
    stored: usize,
}

/// The next thing a write does.
pub enum WriteAction {
    /// Store the value at this address.
    Store { url: String },
    /// Every replica holds the value: commit the key to the index.
    Commit,
}

impl WritePlan {
    /// The key being written.
    pub closed spec fn key_view(&self) -> Seq<char> {
        self.key@
    }

    /// The path of the key's blob on each replica.
    pub closed spec fn path_view(&self) -> Seq<char> {
        self.path@
    }

    /// The replicas, in the order they are written.
    pub closed spec fn replica_names(&self) -> Seq<Seq<char>> {
        names(self.replicas@)
    }

    /// How many replicas, from the first, hold the value.
    pub closed spec fn stored_count(&self) -> nat {
        self.stored as nat
    }

    /// No more replicas hold the value than there are.
    pub closed spec fn wf(&self) -> bool {
        self.stored <= self.replicas@.len()
    }

    /// The replica list of the write, in order.
    pub fn replicas(&self) -> (r: &Vec<String>)
        ensures
            names(r@) == self.replica_names(),
    {
        &self.replicas
    }
}

/// Starts a write of `body` under `key`, where `indexed` says whether the
/// index holds the key already: an empty body is refused, an indexed key is a
/// conflict, and otherwise the replicas are placed. No volume has been
/// contacted yet.
pub fn begin_write(cfg: &Config, key: &str, body: &str, indexed: bool) -> (r: Result<WritePlan, Outcome>)
    ensures
        body@.len() == 0 ==> r == Err::<WritePlan, Outcome>(Outcome::InvalidArgument),
        body@.len() > 0 && indexed ==> r == Err::<WritePlan, Outcome>(Outcome::Conflict),
        body@.len() > 0 && !indexed ==> r is Ok,
        r matches Ok(p) ==> {
            &&& p.wf()
            &&& p.key_view() == key@
            &&& p.path_view() == key_path(key@)
            &&& p.replica_names() == place(key@, cfg.volume_names(), cfg.replica_count())
            &&& p.stored_count() == 0
        },
{
    if body.is_empty() {
        return Err(Outcome::InvalidArgument);
    }
    if indexed {
        return Err(Outcome::Conflict);
    }
    let replicas = key2volumes(key, cfg.volumes.as_slice(), cfg.replicas);
    Ok(WritePlan { key: key.to_owned(), path: key2path(key), replicas, stored: 0 })
}

/// The next step of a write: store at the next replica, or commit once all
/// of them hold the value.
pub fn next_write(plan: &WritePlan) -> (r: WriteAction)
    requires
        plan.wf(),
    ensures
        match r {
            WriteAction::Store { url } => plan.stored_count() < plan.replica_names().len()
                && url@ == volume_url(plan.replica_names()[plan.stored_count() as int], plan.path_view()),
            WriteAction::Commit => plan.stored_count() == plan.replica_names().len(),
        },
{
    if plan.stored < plan.replicas.len() {
        WriteAction::Store { url: make_url(&plan.replicas[plan.stored], &plan.path) }
    } else {
        WriteAction::Commit
    }
}

/// Records the answer of the replica that was last asked to store the value.
/// A failure ends the write, with nothing committed.
pub fn record_store(plan: &mut WritePlan, ok: bool) -> (r: Option<Outcome>)
    requires
        old(plan).wf(),
        old(plan).stored_count() < old(plan).replica_names().len(),
    ensures
        final(plan).wf(),
        final(plan).key_view() == old(plan).key_view(),
        final(plan).path_view() == old(plan).path_view(),
        final(plan).replica_names() == old(plan).replica_names(),
        ok ==> r is None && final(plan).stored_count() == old(plan).stored_count() + 1,
        !ok ==> r == Some(Outcome::Unavailable) && final(plan).stored_count() == old(plan).stored_count(),
{
    if ok {
        if plan.stored < plan.replicas.len() {
            plan.stored = plan.stored + 1;
        }
        None
    } else {
        Some(Outcome::Unavailable)
    }
}

/// The answer to a write whose commit, a create-if-absent of the key with the
/// replica list, reported `created`. Only a write that every replica has
/// acknowledged may be committed.
pub fn finish_write(plan: &WritePlan, created: bool) -> (r: Outcome)
    requires
        plan.wf(),
        plan.stored_count() == plan.replica_names().len(),
    ensures
        r == if created { Outcome::Created } else { Outcome::Conflict },
{
    if created {
        Outcome::Created
    } else {
        Outcome::Conflict
    }
}

/// Commits a write that every replica has acknowledged to an in-memory index:
/// the key is bound to its replica list unless a concurrent writer bound it
/// first.
pub fn commit_write(index: &mut MemIndex, plan: &WritePlan) -> (r: Outcome)
    requires
        old(index).wf(),
        plan.wf(),
        plan.stored_count() == plan.replica_names().len(),
    ensures
        final(index).wf(),
        r == if old(index)@.contains_key(plan.key_view()) { Outcome::Conflict } else { Outcome::Created },
        final(index)@ == after_create(old(index)@, plan.key_view(), plan.replica_names()),
{
    let created = index.create_if_absent(plan.key.as_str(), plan.replicas.as_slice());
    finish_write(plan, created)
}

/// The key of a write and its replica list as written to an index: the
/// identifiers joined with commas.
pub fn index_record(plan: &WritePlan) -> (r: (String, String))
    ensures
        r.0@ == plan.key_view(),
        r.1@ == join_commas(plan.replica_names()),
{
    (plan.key.clone(), join_volumes(plan.replicas.as_slice()))
}

/// A read under way: the committed replicas, tried in order, and how many
/// have failed to answer.
pub struct ReadPlan {
    path: String,
    replicas: Vec<String>,
    tried: usize,
}

/// The next thing a read does.
pub enum ReadAction {
    /// Ask this address whether it holds the blob.
    Probe { url: String },
    /// No replica answered.
    NotFound,
}

/// Where the client is sent for the value, and the full replica list.
pub struct Redirect {
    pub location: String,
    pub key_volumes: String,
}

impl ReadPlan {
    /// The path of the key's blob on each replica.
    pub closed spec fn path_view(&self) -> Seq<char> {
        self.path@
    }

    /// The replicas, in the order they are tried.
    pub closed spec fn replica_names(&self) -> Seq<Seq<char>> {
        names(self.replicas@)
    }

    /// How many replicas, from the first, failed to answer.
    pub closed spec fn tried_count(&self) -> nat {
        self.tried as nat
    }

    /// No more replicas were tried than there are.
    pub closed spec fn wf(&self) -> bool {
        self.tried <= self.replicas@.len()
    }
}

/// What a failed probe does to a read: the same replicas, and one more of
/// them tried.
pub open spec fn probe_failed(before: ReadPlan, after: ReadPlan) -> bool {
    &&& after.wf()
    &&& after.path_view() == before.path_view()
    &&& after.replica_names() == before.replica_names()
    &&& after.tried_count() == before.tried_count() + 1
}

/// A read whose every probe fails tries each replica once, in order, and
/// ends where `next_read` answers `NotFound`: the same answer as for a key
/// that is not indexed. `runs` holds the read after each failed probe.
pub proof fn lemma_all_probes_fail(runs: Seq<ReadPlan>)
    requires
        runs.len() > 0,
        runs[0].wf(),
        runs[0].tried_count() == 0,
        runs.len() == runs[0].replica_names().len() + 1,
        forall|t: int| 0 <= t < runs.len() - 1 ==> probe_failed(#[trigger] runs[t], runs[t + 1]),
    ensures
        forall|t: int| 0 <= t < runs.len() ==> {
            &&& (#[trigger] runs[t]).tried_count() == t
            &&& runs[t].replica_names() == runs[0].replica_names()
            &&& runs[t].path_view() == runs[0].path_view()
        },
        runs.last().tried_count() == runs.last().replica_names().len(),
{
    assert forall|t: int| 0 <= t < runs.len() implies {
        &&& (#[trigger] runs[t]).tried_count() == t
        &&& runs[t].replica_names() == runs[0].replica_names()
        &&& runs[t].path_view() == runs[0].path_view()
    } by {
        lemma_failed_prefix(runs, t);
    }
}

proof fn lemma_failed_prefix(runs: Seq<ReadPlan>, t: int)
    requires
        0 <= t < runs.len(),
        runs[0].tried_count() == 0,
        forall|u: int| 0 <= u < runs.len() - 1 ==> probe_failed(#[trigger] runs[u], runs[u + 1]),
    ensures
        runs[t].tried_count() == t,
        runs[t].replica_names() == runs[0].replica_names(),
        runs[t].path_view() == runs[0].path_view(),
    decreases t,
{
    if t > 0 {
        lemma_failed_prefix(runs, t - 1);
        assert(probe_failed(runs[t - 1], runs[t]));
    }
}

/// Starts a read of `key`, given the replica list that the index holds for
/// it: nothing when the key is not indexed.
pub fn begin_read(key: &str, committed: Option<Vec<String>>) -> (r: Option<ReadPlan>)
    ensures
        r is None <==> committed is None,
        r matches Some(p) ==> {
            &&& p.wf()
            &&& p.path_view() == key_path(key@)
            &&& p.replica_names() == names(committed->Some_0@)
            &&& p.tried_count() == 0
        },
{
    match committed {
        Some(replicas) => Some(ReadPlan { path: key2path(key), replicas, tried: 0 }),
        None => None,
    }
}

/// Starts a read of `key` from an in-memory index.
pub fn begin_read_from(index: &MemIndex, key: &str) -> (r: Option<ReadPlan>)
    requires
        index.wf(),
    ensures
        r is None <==> !index@.contains_key(key@),
        r matches Some(p) ==> {
            &&& p.wf()
            &&& p.path_view() == key_path(key@)
            &&& p.replica_names() == index@[key@]
            &&& p.tried_count() == 0
        },
{
    begin_read(key, index.get(key))
}

/// Starts a read of `key` from a stored record, the comma-joined replica list.
pub fn begin_read_record(key: &str, record: Option<String>) -> (r: Option<ReadPlan>)
    ensures
        r is None <==> record is None,
        r matches Some(p) ==> {
            &&& p.wf()
            &&& p.path_view() == key_path(key@)
            &&& p.replica_names() == split_commas(record->Some_0@)
            &&& p.tried_count() == 0
        },
{
    match record {
        Some(s) => begin_read(key, Some(split_volumes(s.as_str()))),
        None => None,
    }
}

/// The next step of a read: probe the next replica in order, or give up once
/// all have failed.
pub fn next_read(plan: &ReadPlan) -> (r: ReadAction)
    requires
        plan.wf(),
    ensures
        match r {
            ReadAction::Probe { url } => plan.tried_count() < plan.replica_names().len()
                && url@ == volume_url(plan.replica_names()[plan.tried_count() as int], plan.path_view()),
            ReadAction::NotFound => plan.tried_count() == plan.replica_names().len(),
        },
{
    if plan.tried < plan.replicas.len() {
        ReadAction::Probe { url: make_url(&plan.replicas[plan.tried], &plan.path) }
    } else {
        ReadAction::NotFound
    }
}

/// Records the answer of the replica that was last probed: the first that
/// answers is where the client is sent.
pub fn record_probe(plan: &mut ReadPlan, ok: bool) -> (r: Option<Redirect>)
    requires
        old(plan).wf(),
        old(plan).tried_count() < old(plan).replica_names().len(),
    ensures
        final(plan).wf(),
        final(plan).path_view() == old(plan).path_view(),
        final(plan).replica_names() == old(plan).replica_names(),
        ok ==> final(plan).tried_count() == old(plan).tried_count() && (r matches Some(d) && d.location@
            == volume_url(old(plan).replica_names()[old(plan).tried_count() as int], old(plan).path_view())
            && d.key_volumes@ == join_commas(old(plan).replica_names())),
        !ok ==> r is None && probe_failed(*old(plan), *final(plan)),
{
    if ok {
        let location = make_url(&plan.replicas[plan.tried], &plan.path);
        let key_volumes = join_volumes(plan.replicas.as_slice());
        Some(Redirect { location, key_volumes })
    } else {
        if plan.tried < plan.replicas.len() {
            plan.tried = plan.tried + 1;
        }
        None
    }
}

/// A deleted key can be written again: the index no longer holds it, so a
/// write is not refused as a conflict, and its commit binds the key to the
/// replica list placed under the configuration of that time.
pub proof fn lemma_delete_then_rewrite(
    m: Map<Seq<char>, Seq<Seq<char>>>,
    key: Seq<char>,
    volumes: Seq<Seq<char>>,
    k: nat,
)
    ensures
        !m.remove(key).contains_key(key),
        after_create(m.remove(key), key, place(key, volumes, k)).contains_key(key),
        after_create(m.remove(key), key, place(key, volumes, k))[key] == place(key, volumes, k),
{
}

/// The answer to a delete whose index removal reported `removed`.
pub fn delete_outcome(removed: bool) -> (r: Outcome)
    ensures
        r == if removed { Outcome::Deleted } else { Outcome::NotFound },
{
    if removed {
        Outcome::Deleted
    } else {
        Outcome::NotFound
    }
}

/// Removes the index entry of `key`; the blobs stay where they are.
pub fn delete_key(index: &mut MemIndex, key: &str) -> (r: Outcome)
    requires
        old(index).wf(),
    ensures
        final(index).wf(),
        r == if old(index)@.contains_key(key@) { Outcome::Deleted } else { Outcome::NotFound },
        final(index)@ == old(index)@.remove(key@),
{
    let removed = index.delete(key);
    delete_outcome(removed)
}

} // verus!
