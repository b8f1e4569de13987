//! Process identity and environment bookkeeping: a process identifier,
//! a key/value environment store, and a working directory.
//!
//! The environment is held as a list of bindings with pairwise
//! distinct keys; its meaning is the key/value map the list denotes.

use vstd::prelude::*;

verus! {

/// One environment binding.
pub struct EnvEntry {
    pub key: String,
    pub value: String,
}

/// The key/value map a list of bindings denotes; a later binding of a
/// key overrides an earlier one.
pub open spec fn map_of(entries: Seq<EnvEntry>) -> Map<Seq<char>, Seq<char>>
    decreases entries.len(),
{
    if entries.len() == 0 {
        Map::empty()
    } else {
        map_of(entries.drop_last()).insert(entries.last().key@, entries.last().value@)
    }
}

/// No key is bound twice.
pub open spec fn keys_unique(entries: Seq<EnvEntry>) -> bool {
    forall|i: int, j: int|
        0 <= i < j < entries.len() ==> (#[trigger] entries[i]).key@ != (#[trigger] entries[j]).key@
}

/// Abstract state of a process.
pub struct ProcessView {
    pub id: int,
    pub env: Map<Seq<char>, Seq<char>>,
    pub dir: Seq<char>,
}

/// Per-process state: identifier, environment, working directory.
pub struct Process {
    id: usize,
    env: Vec<EnvEntry>,
    dir: String,
}

impl View for Process {
    type V = ProcessView;

    closed spec fn view(&self) -> ProcessView {
        ProcessView { id: self.id as int, env: map_of(self.env@), dir: self.dir@ }
    }
}

impl Process {
    /// The environment bindings in storage order.
    pub closed spec fn env_entries(&self) -> Seq<EnvEntry> {
        self.env@
    }

    pub closed spec fn wf(&self) -> bool {
        keys_unique(self.env@)
    }

    /// A fresh process under the given identifier, with an empty
    /// environment and the given working directory.
    pub fn new(id: usize, dir: &str) -> (p: Process)
        ensures
            p.wf(),
            p@.id == id as int,
            p@.env == Map::<Seq<char>, Seq<char>>::empty(),
            p@.dir == dir@,
    {
        Process { id, env: Vec::new(), dir: dir.to_owned() }
    }
}

/// Under distinct keys, the denoted map holds exactly the listed
/// bindings.
proof fn lemma_map_of_props(entries: Seq<EnvEntry>)
    requires
        keys_unique(entries),
    ensures
        forall|k: Seq<char>|
            map_of(entries).contains_key(k) <==> exists|i: int|
                0 <= i < entries.len() && (#[trigger] entries[i]).key@ == k,
        forall|i: int|
            0 <= i < entries.len() ==> map_of(entries)[(#[trigger] entries[i]).key@]
                == entries[i].value@,
    decreases entries.len(),
{
    if entries.len() > 0 {
        let pre = entries.drop_last();
        let last = entries.last();
        assert forall|i: int, j: int| 0 <= i < j < pre.len() implies (#[trigger] pre[i]).key@ != (
        #[trigger] pre[j]).key@ by {
            assert(pre[i] == entries[i] && pre[j] == entries[j]);
        }
        lemma_map_of_props(pre);
        assert forall|k: Seq<char>| map_of(entries).contains_key(k) implies exists|i: int|
            0 <= i < entries.len() && (#[trigger] entries[i]).key@ == k by {
            if k == last.key@ {
                assert(entries[entries.len() - 1].key@ == k);
            } else {
                assert(map_of(pre).contains_key(k));
                let i = choose|i: int| 0 <= i < pre.len() && (#[trigger] pre[i]).key@ == k;
                assert(pre[i] == entries[i]);
                assert(entries[i].key@ == k);
            }
        }
        assert forall|k: Seq<char>|
            (exists|i: int| 0 <= i < entries.len() && (#[trigger] entries[i]).key@ == k) implies
            map_of(entries).contains_key(k) by {
            let i = choose|i: int| 0 <= i < entries.len() && (#[trigger] entries[i]).key@ == k;
            if i < entries.len() - 1 {
                assert(pre[i] == entries[i]);
                assert(pre[i].key@ == k);
                assert(map_of(pre).contains_key(k));
            } else {
                assert(k == last.key@);
            }
        }
        assert forall|i: int| 0 <= i < entries.len() implies map_of(entries)[(
        #[trigger] entries[i]).key@] == entries[i].value@ by {
            if i < entries.len() - 1 {
                assert(pre[i] == entries[i]);
                assert(entries[i].key@ != last.key@);
            }
        }
    }
}

/// Replacing the binding at `i` by one with the same key denotes the
/// same map as inserting that binding, and keeps keys distinct.
proof fn lemma_map_of_update(entries: Seq<EnvEntry>, i: int, e: EnvEntry)
    requires
        keys_unique(entries),
        0 <= i < entries.len(),
        entries[i].key@ == e.key@,
    ensures
        map_of(entries.update(i, e)) == map_of(entries).insert(e.key@, e.value@),
        keys_unique(entries.update(i, e)),
    decreases entries.len(),
{
    let upd = entries.update(i, e);
    assert forall|a: int, b: int| 0 <= a < b < upd.len() implies (#[trigger] upd[a]).key@ != (
    #[trigger] upd[b]).key@ by {
        assert(upd[a].key@ == entries[a].key@ && upd[b].key@ == entries[b].key@);
    }
    let pre = entries.drop_last();
    let last = entries.last();
    if i == entries.len() - 1 {
        assert(upd.drop_last() =~= pre);
        assert(upd.last() == e);
        assert(map_of(upd) == map_of(pre).insert(e.key@, e.value@));
        assert(map_of(pre).insert(last.key@, last.value@).insert(e.key@, e.value@) =~= map_of(
            pre,
        ).insert(e.key@, e.value@));
    } else {
        assert forall|a: int, b: int| 0 <= a < b < pre.len() implies (#[trigger] pre[a]).key@ != (
        #[trigger] pre[b]).key@ by {
            assert(pre[a] == entries[a] && pre[b] == entries[b]);
        }
        assert(pre[i] == entries[i]);
        lemma_map_of_update(pre, i, e);
        assert(upd.drop_last() =~= pre.update(i, e));
        assert(upd.last() == last);
        assert(map_of(upd) == map_of(pre).insert(e.key@, e.value@).insert(last.key@, last.value@));
        assert(e.key@ != last.key@);
        assert(map_of(pre).insert(e.key@, e.value@).insert(last.key@, last.value@) =~= map_of(
            pre,
        ).insert(last.key@, last.value@).insert(e.key@, e.value@));
    }
}

/// Appending a binding under a fresh key denotes the inserted map and
/// keeps keys distinct.
proof fn lemma_map_of_push(entries: Seq<EnvEntry>, e: EnvEntry)
    requires
        keys_unique(entries),
        forall|i: int| 0 <= i < entries.len() ==> (#[trigger] entries[i]).key@ != e.key@,
    ensures
        map_of(entries.push(e)) == map_of(entries).insert(e.key@, e.value@),
        keys_unique(entries.push(e)),
{
    assert(entries.push(e).drop_last() =~= entries);
    assert(entries.push(e).last() == e);
    let p = entries.push(e);
    assert forall|a: int, b: int| 0 <= a < b < p.len() implies (#[trigger] p[a]).key@ != (
    #[trigger] p[b]).key@ by {
        if b < p.len() - 1 {
            assert(p[a] == entries[a] && p[b] == entries[b]);
        } else {
            assert(p[a] == entries[a] && p[b] == e);
        }
    }
}

/// Index of the binding of `k`, if one exists.
#[verifier::loop_isolation(false)]
fn find_key(entries: &Vec<EnvEntry>, k: &String) -> (r: Option<usize>)
    ensures
        match r {
            Some(i) => i < entries@.len() && entries@[i as int].key@ == k@,
            None => forall|j: int| 0 <= j < entries@.len() ==> (#[trigger] entries@[j]).key@ != k@,
        },
{
    let mut i: usize = 0;
    while i < entries.len()
        invariant
            0 <= i <= entries@.len(),
            forall|j: int| 0 <= j < i ==> (#[trigger] entries@[j]).key@ != k@,
        decreases entries@.len() - i,
    {
        if entries[i].key == *k {
            return Some(i);
        }
        i = i + 1;
    }
    None
}

/// The process identifier.
pub fn id(p: &Process) -> (r: usize)
    ensures
        r as int == p@.id,
{
    p.id
}

/// Looks a key up in the process environment.
pub fn env(p: &Process, key: &str) -> (r: Option<String>)
    requires
        p.wf(),
    ensures
        match r {
            Some(v) => p@.env.contains_key(key@) && v@ == p@.env[key@],
            None => !p@.env.contains_key(key@),
        },
{
    let k = key.to_owned();
    proof {
        lemma_map_of_props(p.env@);
    }
    match find_key(&p.env, &k) {
        Some(i) => Some(p.env[i].value.clone()),
        None => None,
    }
}

/// All environment bindings, in storage order.
#[verifier::loop_isolation(false)]
pub fn envs(p: &Process) -> (r: Vec<EnvEntry>)
    ensures
        r@ == p.env_entries(),
        map_of(r@) == p@.env,
{
    let mut out: Vec<EnvEntry> = Vec::new();
    let mut i: usize = 0;
    while i < p.env.len()
        invariant
            0 <= i <= p.env@.len(),
            out@ == p.env@.take(i as int),
        decreases p.env@.len() - i,
    {
        let e = &p.env[i];
        out.push(EnvEntry { key: e.key.clone(), value: e.value.clone() });
        proof {
            assert(p.env@.take(i + 1) =~= p.env@.take(i as int).push(p.env@[i as int]));
        }
        i = i + 1;
    }
    proof {
        assert(p.env@.take(p.env@.len() as int) =~= p.env@);
    }
    out
}

/// The working directory.
pub fn dir(p: &Process) -> (r: String)
    ensures
        r@ == p@.dir,
{
    p.dir.clone()
}

/// Binds `key` to `val` in the process environment, replacing any
/// earlier binding of `key`.
pub fn set_env(p: &mut Process, key: &str, val: &str)
    requires
        old(p).wf(),
    ensures
        final(p).wf(),
        final(p)@.id == old(p)@.id,
        final(p)@.dir == old(p)@.dir,
        final(p)@.env == old(p)@.env.insert(key@, val@),
{
    let k = key.to_owned();
    let v = val.to_owned();
    let ghost entries0 = p.env@;
    match find_key(&p.env, &k) {
        Some(i) => {
            p.env.remove(i);
            p.env.insert(i, EnvEntry { key: k, value: v });
            proof {
                let e = EnvEntry { key: k, value: v };
                assert(p.env@ =~= entries0.update(i as int, e));
                lemma_map_of_update(entries0, i as int, e);
            }
        },
        None => {
            p.env.push(EnvEntry { key: k, value: v });
            proof {
                lemma_map_of_push(entries0, EnvEntry { key: k, value: v });
            }
        },
    }
}

/// Replaces the working directory.
pub fn set_dir(p: &mut Process, dir: &str)
    ensures
        final(p).wf() == old(p).wf(),
        final(p)@.id == old(p)@.id,
        final(p)@.env == old(p)@.env,
        final(p)@.dir == dir@,
{
    p.dir = dir.to_owned();
}

} // verus!
