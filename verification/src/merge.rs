//! Merging several configuration sources into one tree.
//!
//! Sources are given highest priority first. The merge keeps the identity
//! of the first source, registers child groups into per-key buckets, lets
//! the first task claim each key, drops a task whose key already belongs
//! to a group bucket, and recursively merges each bucket.

use vstd::prelude::*;

use crate::model::{Group, GroupModel, Task, TaskModel};
use crate::model::{gm_size, gm_size_seq, group_model, groups_model, tasks_model};
use crate::model::{lemma_gm_size_seq_push, lemma_groups_model_push, lemma_tasks_model_push};
use crate::nav::find_task_index;

verus! {

/// A bucket: one child-group key together with every same-keyed child
/// group collected from the sources, in priority order.
pub type BucketModel = (char, Seq<GroupModel>);

/// The total number of nodes held by a sequence of buckets.
pub open spec fn buckets_size(bs: Seq<BucketModel>) -> nat
    decreases bs.len(),
{
    if bs.len() == 0 {
        0
    } else {
        gm_size_seq(bs[0].1) + buckets_size(bs.drop_first())
    }
}

/// The total number of nodes strictly below the roots of a sequence of
/// group trees.
pub open spec fn children_size(s: Seq<GroupModel>) -> nat
    decreases s.len(),
{
    if s.len() == 0 {
        0
    } else {
        gm_size_seq(s[0].groups) + children_size(s.drop_first())
    }
}

/// True iff some bucket carries the key.
pub open spec fn has_bucket(bs: Seq<BucketModel>, k: char) -> bool {
    exists|j: int| 0 <= j < bs.len() && bs[j].0 == k
}

/// True iff some task of the sequence carries the key.
pub open spec fn has_task_key(ts: Seq<TaskModel>, k: char) -> bool {
    exists|j: int| 0 <= j < ts.len() && ts[j].key == k
}

/// Registers one child group: appended to the bucket of its key, or put
/// into a fresh bucket at the end.
pub open spec fn buckets_add(bs: Seq<BucketModel>, g: GroupModel) -> Seq<BucketModel>
    decreases bs.len(),
{
    if bs.len() == 0 {
        seq![(g.key, seq![g])]
    } else if bs[0].0 == g.key {
        seq![(bs[0].0, bs[0].1.push(g))] + bs.drop_first()
    } else {
        seq![bs[0]] + buckets_add(bs.drop_first(), g)
    }
}

/// Registers a list of child groups, in order.
pub open spec fn buckets_add_all(bs: Seq<BucketModel>, gs: Seq<GroupModel>) -> Seq<BucketModel>
    decreases gs.len(),
{
    if gs.len() == 0 {
        bs
    } else {
        buckets_add_all(buckets_add(bs, gs[0]), gs.drop_first())
    }
}

/// Lets each new task claim its key: a task is dropped when its key
/// already belongs to a group bucket or to an earlier task.
pub open spec fn tasks_add_all(
    ts: Seq<TaskModel>,
    bs: Seq<BucketModel>,
    new: Seq<TaskModel>,
) -> Seq<TaskModel>
    decreases new.len(),
{
    if new.len() == 0 {
        ts
    } else {
        let t = new[0];
        let ts1 = if has_bucket(bs, t.key) || has_task_key(ts, t.key) {
            ts
        } else {
            ts.push(t)
        };
        tasks_add_all(ts1, bs, new.drop_first())
    }
}

/// Folds the peer elements in priority order: each element first
/// registers its child groups, then its tasks are evaluated against the
/// buckets seen so far.
pub open spec fn merge_fold(
    bs: Seq<BucketModel>,
    ts: Seq<TaskModel>,
    elems: Seq<GroupModel>,
) -> (Seq<BucketModel>, Seq<TaskModel>)
    decreases elems.len(),
{
    if elems.len() == 0 {
        (bs, ts)
    } else {
        let bs1 = buckets_add_all(bs, elems[0].groups);
        let ts1 = tasks_add_all(ts, bs1, elems[0].tasks);
        merge_fold(bs1, ts1, elems.drop_first())
    }
}

/// True iff a group shares the identity of the first source.
pub open spec fn peer_pred(first: GroupModel, g: GroupModel) -> bool {
    g.name == first.name && g.key == first.key
}

/// The subsequence of elements that share a given identity.
pub open spec fn peers_of_rec(first: GroupModel, gs: Seq<GroupModel>) -> Seq<GroupModel>
    decreases gs.len(),
{
    if gs.len() == 0 {
        Seq::empty()
    } else {
        let rest = peers_of_rec(first, gs.drop_first());
        if peer_pred(first, gs[0]) {
            seq![gs[0]] + rest
        } else {
            rest
        }
    }
}

/// The elements that share the identity of the first element.
pub open spec fn peers_of(gs: Seq<GroupModel>) -> Seq<GroupModel> {
    peers_of_rec(gs[0], gs)
}

/// The merge of an empty list of sources.
pub open spec fn empty_group_model() -> GroupModel {
    GroupModel { name: Seq::empty(), key: '\u{0}', groups: Seq::empty(), tasks: Seq::empty() }
}

/// Registering one group grows the bucket contents by exactly that group.
pub proof fn lemma_buckets_add_size(bs: Seq<BucketModel>, g: GroupModel)
    ensures
        buckets_size(buckets_add(bs, g)) == buckets_size(bs) + gm_size(g),
    decreases bs.len(),
{
    reveal_with_fuel(buckets_size, 2);
    reveal_with_fuel(gm_size_seq, 2);
    if bs.len() == 0 {
        let r = buckets_add(bs, g);
        assert(r[0] == (g.key, seq![g]));
        assert(r.drop_first() =~= Seq::<BucketModel>::empty());
        assert(seq![g][0] == g);
        assert(seq![g].drop_first() =~= Seq::<GroupModel>::empty());
    } else if bs[0].0 == g.key {
        let r = buckets_add(bs, g);
        assert(r[0] == (bs[0].0, bs[0].1.push(g)));
        assert(r.drop_first() =~= bs.drop_first());
        lemma_gm_size_seq_push(bs[0].1, g);
    } else {
        let r = buckets_add(bs, g);
        assert(r[0] == bs[0]);
        assert(r.drop_first() =~= buckets_add(bs.drop_first(), g));
        lemma_buckets_add_size(bs.drop_first(), g);
    }
}

/// Registering a list of groups grows the bucket contents by their size.
pub proof fn lemma_buckets_add_all_size(bs: Seq<BucketModel>, gs: Seq<GroupModel>)
    ensures
        buckets_size(buckets_add_all(bs, gs)) == buckets_size(bs) + gm_size_seq(gs),
    decreases gs.len(),
{
    if gs.len() > 0 {
        lemma_buckets_add_size(bs, gs[0]);
        lemma_buckets_add_all_size(buckets_add(bs, gs[0]), gs.drop_first());
    }
}

/// The fold's buckets hold the start contents plus every child group of
/// the folded elements.
pub proof fn lemma_merge_fold_size(
    bs: Seq<BucketModel>,
    ts: Seq<TaskModel>,
    elems: Seq<GroupModel>,
)
    ensures
        buckets_size(merge_fold(bs, ts, elems).0) == buckets_size(bs) + children_size(elems),
    decreases elems.len(),
{
    if elems.len() > 0 {
        let bs1 = buckets_add_all(bs, elems[0].groups);
        let ts1 = tasks_add_all(ts, bs1, elems[0].tasks);
        lemma_buckets_add_all_size(bs, elems[0].groups);
        lemma_merge_fold_size(bs1, ts1, elems.drop_first());
    }
}

/// A sequence of trees has exactly its length more nodes than stand
/// strictly below the roots.
pub proof fn lemma_children_size(s: Seq<GroupModel>)
    ensures
        gm_size_seq(s) == children_size(s) + s.len(),
    decreases s.len(),
{
    if s.len() > 0 {
        assert(gm_size(s[0]) == 1 + gm_size_seq(s[0].groups));
        lemma_children_size(s.drop_first());
    }
}

/// Selecting peers never grows the total size.
pub proof fn lemma_peers_rec_size(first: GroupModel, s: Seq<GroupModel>)
    ensures
        gm_size_seq(peers_of_rec(first, s)) <= gm_size_seq(s),
    decreases s.len(),
{
    if s.len() > 0 {
        lemma_peers_rec_size(first, s.drop_first());
        if peer_pred(first, s[0]) {
            let rest = peers_of_rec(first, s.drop_first());
            assert((seq![s[0]] + rest)[0] == s[0]);
            assert((seq![s[0]] + rest).drop_first() =~= rest);
        }
    }
}

/// The first element always stands among its peers.
pub proof fn lemma_peers_nonempty(gs: Seq<GroupModel>)
    requires
        gs.len() > 0,
    ensures
        peers_of(gs).len() >= 1,
        gm_size_seq(peers_of(gs)) <= gm_size_seq(gs),
{
    lemma_peers_rec_size(gs[0], gs);
}

/// The merged tree of a list of sources.
pub open spec fn merge_model(gs: Seq<GroupModel>) -> GroupModel
    decreases gm_size_seq(gs), 0int, 0int,
        via merge_model_dec
{
    if gs.len() == 0 {
        empty_group_model()
    } else {
        let peers = peers_of(gs);
        if peers.len() == 1 {
            peers[0]
        } else {
            let folded = merge_fold(Seq::empty(), Seq::empty(), peers);
            GroupModel {
                name: gs[0].name,
                key: gs[0].key,
                groups: merge_buckets(folded.0),
                tasks: folded.1,
            }
        }
    }
}

/// The merged child groups: one recursive merge per bucket, in order.
pub open spec fn merge_buckets(bs: Seq<BucketModel>) -> Seq<GroupModel>
    decreases buckets_size(bs), 1int, bs.len(),
        via merge_buckets_dec
{
    if bs.len() == 0 {
        Seq::empty()
    } else {
        seq![merge_model(bs[0].1)] + merge_buckets(bs.drop_first())
    }
}

#[via_fn]
proof fn merge_model_dec(gs: Seq<GroupModel>) {
    if gs.len() != 0 {
        let peers = peers_of(gs);
        if peers.len() != 1 {
            lemma_peers_nonempty(gs);
            lemma_merge_fold_size(Seq::empty(), Seq::empty(), peers);
            lemma_children_size(peers);
        }
    }
}

#[via_fn]
proof fn merge_buckets_dec(bs: Seq<BucketModel>) {
}

/// View of the executable buckets: each bucket's contents as models.
pub open spec fn buckets_view(bs: Seq<(char, Vec<Group>)>) -> Seq<BucketModel> {
    bs.map_values(|b: (char, Vec<Group>)| (b.0, groups_model(b.1@)))
}

/// Registering a group whose key is already bucketed appends it there.
pub proof fn lemma_buckets_add_found(bs: Seq<BucketModel>, g: GroupModel, j: int)
    requires
        0 <= j < bs.len(),
        bs[j].0 == g.key,
        forall|k: int| 0 <= k < j ==> bs[k].0 != g.key,
    ensures
        buckets_add(bs, g) == bs.update(j, (bs[j].0, bs[j].1.push(g))),
    decreases j,
{
    if j == 0 {
        assert(buckets_add(bs, g) =~= bs.update(0, (bs[0].0, bs[0].1.push(g))));
    } else {
        assert(bs.drop_first()[j - 1] == bs[j]);
        lemma_buckets_add_found(bs.drop_first(), g, j - 1);
        assert(buckets_add(bs, g) =~= bs.update(j, (bs[j].0, bs[j].1.push(g))));
    }
}

/// Registering a group with a fresh key opens a new bucket at the end.
pub proof fn lemma_buckets_add_missing(bs: Seq<BucketModel>, g: GroupModel)
    requires
        forall|k: int| 0 <= k < bs.len() ==> bs[k].0 != g.key,
    ensures
        buckets_add(bs, g) == bs.push((g.key, seq![g])),
    decreases bs.len(),
{
    if bs.len() == 0 {
        assert(buckets_add(bs, g) =~= bs.push((g.key, seq![g])));
    } else {
        lemma_buckets_add_missing(bs.drop_first(), g);
        assert(buckets_add(bs, g) =~= bs.push((g.key, seq![g])));
    }
}

impl Group {
    /// The empty group: the merge of no sources at all.
    pub fn empty() -> (g: Group)
        ensures
            g@ == empty_group_model(),
    {
        let g = Group {
            name: String::new(),
            key: '\u{0}',
            groups: Vec::new(),
            tasks: Vec::new(),
        };
        proof {
            assert(g@ =~= empty_group_model());
        }
        g
    }
}

/// Registers one child group into the buckets.
fn bucket_push(buckets: &mut Vec<(char, Vec<Group>)>, g: Group)
    ensures
        buckets_view(final(buckets)@) == buckets_add(buckets_view(old(buckets)@), g@),
{
    broadcast use crate::model::lemma_groups_model_len;
    broadcast use crate::model::lemma_groups_model_index;

    let mut i: usize = 0;
    while i < buckets.len()
        invariant
            i <= buckets@.len(),
            *buckets == *old(buckets),
            forall|k: int| 0 <= k < i ==> buckets@[k].0 != g.key,
        decreases buckets@.len() - i,
    {
        if buckets[i].0 == g.key {
            let mut b = buckets.remove(i);
            b.1.push(g);
            let ghost gg = group_model(g);
            buckets.insert(i, b);
            proof {
                let obs = buckets_view(old(buckets)@);
                lemma_buckets_add_found(obs, gg, i as int);
                lemma_groups_model_push(old(buckets)@[i as int].1@, g);
                assert(buckets@ =~= old(buckets)@.update(i as int, buckets@[i as int]));
                assert(buckets_view(buckets@) =~= buckets_add(obs, gg));
            }
            return ;
        }
        i = i + 1;
    }
    let gkey = g.key;
    let ghost gg = group_model(g);
    let mut fresh: Vec<Group> = Vec::new();
    fresh.push(g);
    buckets.push((gkey, fresh));
    proof {
        let obs = buckets_view(old(buckets)@);
        lemma_buckets_add_missing(obs, gg);
        assert(groups_model(Seq::<Group>::empty()) =~= Seq::<GroupModel>::empty());
        lemma_groups_model_push(Seq::<Group>::empty(), g);
        assert(buckets_view(buckets@) =~= buckets_add(obs, gg));
    }
}

/// True iff some bucket carries the key.
fn has_bucket_key(buckets: &Vec<(char, Vec<Group>)>, k: char) -> (r: bool)
    ensures
        r == has_bucket(buckets_view(buckets@), k),
{
    let mut i: usize = 0;
    while i < buckets.len()
        invariant
            i <= buckets@.len(),
            forall|j: int| 0 <= j < i ==> buckets@[j].0 != k,
        decreases buckets@.len() - i,
    {
        if buckets[i].0 == k {
            assert(buckets_view(buckets@)[i as int].0 == k);
            return true;
        }
        i = i + 1;
    }
    assert(forall|j: int| 0 <= j < buckets_view(buckets@).len()
        ==> buckets_view(buckets@)[j].0 != k);
    false
}

/// True iff some already-claimed task carries the key.
fn has_task_with_key(tasks: &Vec<Task>, k: char) -> (r: bool)
    ensures
        r == has_task_key(tasks_model(tasks@), k),
{
    let mut i: usize = 0;
    while i < tasks.len()
        invariant
            i <= tasks@.len(),
            forall|j: int| 0 <= j < i ==> tasks@[j].key != k,
        decreases tasks@.len() - i,
    {
        if tasks[i].key == k {
            assert(tasks_model(tasks@)[i as int].key == k);
            return true;
        }
        i = i + 1;
    }
    assert(forall|j: int| 0 <= j < tasks_model(tasks@).len()
        ==> tasks_model(tasks@)[j].key != k);
    false
}

/// Merges a priority-ordered list of same-identity sources into one tree.
///
/// The result is the deterministic fold described by [`merge_model`]: the
/// first source's identity is kept, a group always claims a key against
/// any later task, and among tasks the highest-priority source wins.
pub fn merge_groups(groups: Vec<Group>) -> (merged: Group)
    ensures
        merged@ == merge_model(groups_model(groups@)),
    decreases gm_size_seq(groups_model(groups@)),
{
    broadcast use crate::model::lemma_groups_model_len;
    broadcast use crate::model::lemma_groups_model_index;

    let ghost gs = groups_model(groups@);
    if groups.len() == 0 {
        proof {
            assert(gs =~= Seq::<GroupModel>::empty());
        }
        return Group::empty();
    }
    let name = groups[0].name.clone();
    let key = groups[0].key;
    proof {
        assert(gs[0] == group_model(groups@[0]));
    }

    // Keep only the elements that share the first element's identity.
    let mut rest = groups;
    let mut peers: Vec<Group> = Vec::new();
    while rest.len() > 0
        invariant
            name@ == gs[0].name,
            key == gs[0].key,
            groups_model(peers@) + peers_of_rec(gs[0], groups_model(rest@))
                == peers_of_rec(gs[0], gs),
        decreases rest@.len(),
    {
        let ghost bv = rest@;
        let ghost before = groups_model(bv);
        let g = rest.remove(0);
        proof {
            crate::model::lemma_groups_model_split_first(bv);
            assert(rest@ =~= bv.drop_first());
            assert(before == seq![g@] + groups_model(rest@));
            assert(before[0] == g@);
            assert(before.drop_first() =~= groups_model(rest@));
        }
        if g.name == name && g.key == key {
            proof {
                lemma_groups_model_push(peers@, g);
                assert(groups_model(peers@).push(g@) + peers_of_rec(gs[0], groups_model(rest@))
                    =~= groups_model(peers@) + (seq![g@] + peers_of_rec(
                    gs[0],
                    groups_model(rest@),
                )));
            }
            peers.push(g);
        }
    }
    proof {
        assert(groups_model(rest@) =~= Seq::<GroupModel>::empty());
        assert(groups_model(peers@) + Seq::<GroupModel>::empty() =~= groups_model(peers@));
        assert(groups_model(peers@) == peers_of(gs));
        lemma_peers_nonempty(gs);
    }

    if peers.len() == 1 {
        let only = peers.remove(0);
        proof {
            assert(only@ == peers_of(gs)[0]);
        }
        return only;
    }

    let ghost peers0 = groups_model(peers@);
    let ghost folded = merge_fold(Seq::<BucketModel>::empty(), Seq::<TaskModel>::empty(), peers0);

    let mut buckets: Vec<(char, Vec<Group>)> = Vec::new();
    let mut tasks: Vec<Task> = Vec::new();
    proof {
        assert(buckets_view(buckets@) =~= Seq::<BucketModel>::empty());
        assert(tasks_model(tasks@) =~= Seq::<TaskModel>::empty());
    }
    while peers.len() > 0
        invariant
            merge_fold(buckets_view(buckets@), tasks_model(tasks@), groups_model(peers@))
                == folded,
        decreases peers@.len(),
    {
        let ghost bv = peers@;
        let ghost before = groups_model(bv);
        let p = peers.remove(0);
        proof {
            crate::model::lemma_groups_model_split_first(bv);
            assert(peers@ =~= bv.drop_first());
            assert(before == seq![p@] + groups_model(peers@));
            assert(before[0] == p@);
            assert(before.drop_first() =~= groups_model(peers@));
        }
        let mut pgs = p.groups;
        let mut pts = p.tasks;
        proof {
            assert(p@.groups == groups_model(pgs@));
            assert(p@.tasks == tasks_model(pts@));
        }

        let ghost bs_target = buckets_add_all(buckets_view(buckets@), groups_model(pgs@));
        while pgs.len() > 0
            invariant
                buckets_add_all(buckets_view(buckets@), groups_model(pgs@)) == bs_target,
            decreases pgs@.len(),
        {
            let ghost gv = pgs@;
            let ghost gbefore = groups_model(gv);
            let cg = pgs.remove(0);
            proof {
                crate::model::lemma_groups_model_split_first(gv);
                assert(pgs@ =~= gv.drop_first());
                assert(gbefore == seq![cg@] + groups_model(pgs@));
                assert(gbefore[0] == cg@);
                assert(gbefore.drop_first() =~= groups_model(pgs@));
            }
            bucket_push(&mut buckets, cg);
        }
        proof {
            assert(groups_model(pgs@) =~= Seq::<GroupModel>::empty());
            assert(buckets_view(buckets@) == bs_target);
        }

        let ghost ts_target = tasks_add_all(tasks_model(tasks@), bs_target, tasks_model(pts@));
        while pts.len() > 0
            invariant
                buckets_view(buckets@) == bs_target,
                tasks_add_all(tasks_model(tasks@), bs_target, tasks_model(pts@)) == ts_target,
            decreases pts@.len(),
        {
            let ghost tbefore = tasks_model(pts@);
            let t = pts.remove(0);
            proof {
                assert(tbefore =~= seq![t@] + tasks_model(pts@));
                assert(tbefore[0] == t@);
                assert(tbefore.drop_first() =~= tasks_model(pts@));
            }
            let claimed = has_bucket_key(&buckets, t.key) || has_task_with_key(&tasks, t.key);
            if !claimed {
                proof {
                    lemma_tasks_model_push(tasks@, t);
                }
                tasks.push(t);
            }
        }
        proof {
            assert(tasks_model(pts@) =~= Seq::<TaskModel>::empty());
            assert(tasks_model(tasks@) == ts_target);
        }
    }
    proof {
        assert(groups_model(peers@) =~= Seq::<GroupModel>::empty());
        assert(buckets_view(buckets@) == folded.0);
        assert(tasks_model(tasks@) == folded.1);
        lemma_merge_fold_size(Seq::<BucketModel>::empty(), Seq::<TaskModel>::empty(), peers0);
        lemma_children_size(peers0);
        lemma_peers_nonempty(gs);
        assert(buckets_size(folded.0) < gm_size_seq(gs));
    }

    // Recursively merge each bucket, in first-seen key order.
    let ghost folded_bs = buckets_view(buckets@);
    let mut subgroups: Vec<Group> = Vec::new();
    proof {
        assert(groups_model(subgroups@) =~= Seq::<GroupModel>::empty());
        assert(groups_model(subgroups@) + merge_buckets(folded_bs) =~= merge_buckets(folded_bs));
    }
    while buckets.len() > 0
        invariant
            groups_model(subgroups@) + merge_buckets(buckets_view(buckets@))
                == merge_buckets(folded_bs),
            buckets_size(buckets_view(buckets@)) <= buckets_size(folded_bs),
            buckets_size(folded_bs) < gm_size_seq(gs),
            gs == groups_model(groups@),
        decreases buckets@.len(),
    {
        let ghost bbefore = buckets_view(buckets@);
        let b = buckets.remove(0);
        proof {
            assert(bbefore =~= seq![(b.0, groups_model(b.1@))] + buckets_view(buckets@));
            assert(bbefore[0] == (b.0, groups_model(b.1@)));
            assert(bbefore.drop_first() =~= buckets_view(buckets@));
            assert(gm_size_seq(groups_model(b.1@)) <= buckets_size(bbefore));
        }
        let m = merge_groups(b.1);
        proof {
            lemma_groups_model_push(subgroups@, m);
            assert(merge_buckets(bbefore) =~= seq![merge_model(bbefore[0].1)] + merge_buckets(
                bbefore.drop_first(),
            ));
            assert(groups_model(subgroups@).push(m@) + merge_buckets(buckets_view(buckets@))
                =~= groups_model(subgroups@) + (seq![merge_model(bbefore[0].1)] + merge_buckets(
                buckets_view(buckets@),
            )));
        }
        subgroups.push(m);
    }
    proof {
        assert(buckets_view(buckets@) =~= Seq::<BucketModel>::empty());
        assert(merge_buckets(Seq::<BucketModel>::empty()) =~= Seq::<GroupModel>::empty());
        assert(groups_model(subgroups@) + Seq::<GroupModel>::empty() =~= groups_model(subgroups@));
    }

    let out = Group { name, key, groups: subgroups, tasks };
    proof {
        assert(out@ =~= merge_model(gs));
    }
    out
}

/// Pairwise-distinct task keys.
pub open spec fn distinct_task_keys(ts: Seq<TaskModel>) -> bool {
    forall|i: int, j: int| 0 <= i < j < ts.len() ==> ts[i].key != ts[j].key
}

/// Pairwise-distinct group keys.
pub open spec fn distinct_group_keys(gs: Seq<GroupModel>) -> bool {
    forall|i: int, j: int| 0 <= i < j < gs.len() ==> gs[i].key != gs[j].key
}

/// Pairwise-distinct bucket keys.
pub open spec fn distinct_bucket_keys(bs: Seq<BucketModel>) -> bool {
    forall|i: int, j: int| 0 <= i < j < bs.len() ==> bs[i].0 != bs[j].0
}

/// True iff some group of the sequence carries the key.
pub open spec fn has_group_key(gs: Seq<GroupModel>, k: char) -> bool {
    exists|j: int| 0 <= j < gs.len() && gs[j].key == k
}

/// Every bucket holds at least one group, and only groups of its key.
pub open spec fn wf_buckets(bs: Seq<BucketModel>) -> bool {
    &&& forall|j: int| 0 <= j < bs.len() ==> (#[trigger] bs[j]).1.len() >= 1
    &&& forall|j: int, x: int|
        0 <= j < bs.len() && 0 <= x < bs[j].1.len() ==> (#[trigger] bs[j].1[x]).key == bs[j].0
}

/// The first search stays inside the sequence and hits the key.
proof fn lemma_find_task_index_range(ts: Seq<TaskModel>, k: char)
    ensures
        -1 <= find_task_index(ts, k) < ts.len(),
        find_task_index(ts, k) >= 0 ==> ts[find_task_index(ts, k)].key == k,
    decreases ts.len(),
{
    if ts.len() > 0 && ts[0].key != k {
        lemma_find_task_index_range(ts.drop_first(), k);
        if find_task_index(ts.drop_first(), k) >= 0 {
            assert(ts.drop_first()[find_task_index(ts.drop_first(), k)] == ts[find_task_index(
                ts,
                k,
            )]);
        }
    }
}

proof fn lemma_has_task_key_split(ts: Seq<TaskModel>, k: char)
    requires
        ts.len() > 0,
    ensures
        has_task_key(ts, k) <==> (ts[0].key == k || has_task_key(ts.drop_first(), k)),
{
    if has_task_key(ts, k) {
        let i = choose|i: int| 0 <= i < ts.len() && ts[i].key == k;
        if i > 0 {
            assert(ts.drop_first()[i - 1] == ts[i]);
        }
    }
    if has_task_key(ts.drop_first(), k) {
        let i = choose|i: int| 0 <= i < ts.drop_first().len() && ts.drop_first()[i].key == k;
        assert(ts[i + 1] == ts.drop_first()[i]);
    }
}

proof fn lemma_has_group_key_split(gs: Seq<GroupModel>, k: char)
    requires
        gs.len() > 0,
    ensures
        has_group_key(gs, k) <==> (gs[0].key == k || has_group_key(gs.drop_first(), k)),
{
    if has_group_key(gs, k) {
        let i = choose|i: int| 0 <= i < gs.len() && gs[i].key == k;
        if i > 0 {
            assert(gs.drop_first()[i - 1] == gs[i]);
        }
    }
    if has_group_key(gs.drop_first(), k) {
        let i = choose|i: int| 0 <= i < gs.drop_first().len() && gs.drop_first()[i].key == k;
        assert(gs[i + 1] == gs.drop_first()[i]);
    }
}

/// Registering a group adds exactly its key to the bucket keys.
proof fn lemma_buckets_add_membership(bs: Seq<BucketModel>, g: GroupModel, k: char)
    ensures
        has_bucket(buckets_add(bs, g), k) <==> (has_bucket(bs, k) || g.key == k),
    decreases bs.len(),
{
    let r = buckets_add(bs, g);
    if bs.len() == 0 {
        assert(r[0].0 == g.key);
        if has_bucket(r, k) {
            let i = choose|i: int| 0 <= i < r.len() && r[i].0 == k;
            assert(i == 0);
        }
    } else if bs[0].0 == g.key {
        assert(r.len() == bs.len());
        assert forall|i: int| 0 <= i < bs.len() implies r[i].0 == bs[i].0 by {
            if i > 0 {
                assert(r[i] == bs.drop_first()[i - 1]);
            }
        }
        if has_bucket(bs, k) {
            let i = choose|i: int| 0 <= i < bs.len() && bs[i].0 == k;
            assert(r[i].0 == k);
        }
        if has_bucket(r, k) {
            let i = choose|i: int| 0 <= i < r.len() && r[i].0 == k;
            assert(bs[i].0 == k);
        }
    } else {
        lemma_buckets_add_membership(bs.drop_first(), g, k);
        let sub = buckets_add(bs.drop_first(), g);
        assert(r.len() == 1 + sub.len());
        assert(r[0] == bs[0]);
        assert forall|i: int| 1 <= i < r.len() implies r[i] == sub[i - 1] by {}
        if has_bucket(bs, k) {
            let i = choose|i: int| 0 <= i < bs.len() && bs[i].0 == k;
            if i == 0 {
                assert(r[0].0 == k);
            } else {
                assert(bs.drop_first()[i - 1] == bs[i]);
                assert(has_bucket(bs.drop_first(), k));
                let x = choose|x: int| 0 <= x < sub.len() && sub[x].0 == k;
                assert(r[x + 1].0 == k);
            }
        }
        if g.key == k {
            let x = choose|x: int| 0 <= x < sub.len() && sub[x].0 == k;
            assert(r[x + 1].0 == k);
        }
        if has_bucket(r, k) && !has_bucket(bs, k) && g.key != k {
            let i = choose|i: int| 0 <= i < r.len() && r[i].0 == k;
            assert(i > 0);
            assert(sub[i - 1].0 == k);
            assert(has_bucket(bs.drop_first(), k));
            let y = choose|y: int| 0 <= y < bs.drop_first().len() && bs.drop_first()[y].0 == k;
            assert(bs[y + 1].0 == k);
            assert(false);
        }
    }
}

/// Registering a list of groups adds exactly their keys.
proof fn lemma_buckets_add_all_membership(bs: Seq<BucketModel>, gs: Seq<GroupModel>, k: char)
    ensures
        has_bucket(buckets_add_all(bs, gs), k) <==> (has_bucket(bs, k) || has_group_key(gs, k)),
    decreases gs.len(),
{
    if gs.len() == 0 {
        assert(!has_group_key(gs, k));
    } else {
        lemma_buckets_add_membership(bs, gs[0], k);
        lemma_buckets_add_all_membership(buckets_add(bs, gs[0]), gs.drop_first(), k);
        lemma_has_group_key_split(gs, k);
    }
}

/// What claiming tasks does: earlier entries are kept in place, a key
/// appears afterwards iff it was there or is a fresh, unbucketed key of
/// the new list, keys stay pairwise distinct, and every appended task is
/// the new list's first task of its key.
proof fn lemma_tasks_add_all_props(ts: Seq<TaskModel>, bs: Seq<BucketModel>, new: Seq<TaskModel>)
    requires
        distinct_task_keys(ts),
    ensures
        ({
            let r = tasks_add_all(ts, bs, new);
            &&& r.len() >= ts.len()
            &&& forall|i: int| 0 <= i < ts.len() ==> r[i] == ts[i]
            &&& distinct_task_keys(r)
            &&& forall|k: char|
                has_task_key(r, k) <==> (has_task_key(ts, k) || (!has_bucket(bs, k)
                    && has_task_key(new, k)))
            &&& forall|i: int|
                ts.len() <= i < r.len() ==> (!has_bucket(bs, (#[trigger] r[i]).key)
                    && !has_task_key(ts, r[i].key) && find_task_index(new, r[i].key) >= 0 && r[i]
                    == new[find_task_index(new, r[i].key)])
        }),
    decreases new.len(),
{
    let r = tasks_add_all(ts, bs, new);
    if new.len() == 0 {
        assert forall|k: char| !has_task_key(new, k) by {}
    } else {
        let t = new[0];
        let rest = new.drop_first();
        let skip = has_bucket(bs, t.key) || has_task_key(ts, t.key);
        let ts1 = if skip {
            ts
        } else {
            ts.push(t)
        };
        if !skip {
            assert forall|i: int, j: int| 0 <= i < j < ts1.len() implies ts1[i].key
                != ts1[j].key by {
                if j == ts1.len() - 1 {
                    assert(ts1[j] == t);
                    assert(ts1[i] == ts[i]);
                    assert(!has_task_key(ts, t.key));
                }
            }
        }
        lemma_tasks_add_all_props(ts1, bs, rest);
        assert(r == tasks_add_all(ts1, bs, rest));
        assert forall|k: char| has_task_key(ts1, k) <==> (has_task_key(ts, k) || (!skip && t.key
            == k)) by {
            if has_task_key(ts1, k) && !has_task_key(ts, k) {
                let i = choose|i: int| 0 <= i < ts1.len() && ts1[i].key == k;
                if i < ts.len() {
                    assert(ts[i].key == k);
                }
            }
            if has_task_key(ts, k) {
                let i = choose|i: int| 0 <= i < ts.len() && ts[i].key == k;
                assert(ts1[i].key == k);
            }
            if !skip && t.key == k {
                assert(ts1[ts1.len() - 1].key == k);
            }
        }
        assert forall|k: char| has_task_key(r, k) <==> (has_task_key(ts, k) || (!has_bucket(bs, k)
            && has_task_key(new, k))) by {
            lemma_has_task_key_split(new, k);
        }
        assert forall|i: int|
            ts.len() <= i < r.len() implies (!has_bucket(bs, (#[trigger] r[i]).key)
                && !has_task_key(ts, r[i].key) && find_task_index(new, r[i].key) >= 0 && r[i]
                == new[find_task_index(new, r[i].key)]) by {
            let k = r[i].key;
            if !skip && i == ts.len() {
                assert(r[i] == ts1[i]);
                assert(r[i] == t);
                assert(find_task_index(new, t.key) == 0);
            } else {
                assert(i >= ts1.len());
                assert(!has_task_key(ts1, k));
                assert(find_task_index(rest, k) >= 0 && r[i] == rest[find_task_index(rest, k)]);
                assert(t.key != k);
                lemma_find_task_index_range(rest, k);
                assert(find_task_index(new, k) == find_task_index(rest, k) + 1);
                assert(rest[find_task_index(rest, k)] == new[find_task_index(rest, k) + 1]);
            }
        }
    }
}

/// Bucketed keys survive the whole fold.
proof fn lemma_fold_bucket_monotone(
    bs: Seq<BucketModel>,
    ts: Seq<TaskModel>,
    elems: Seq<GroupModel>,
    k: char,
)
    requires
        has_bucket(bs, k),
    ensures
        has_bucket(merge_fold(bs, ts, elems).0, k),
    decreases elems.len(),
{
    if elems.len() > 0 {
        let bs1 = buckets_add_all(bs, elems[0].groups);
        let ts1 = tasks_add_all(ts, bs1, elems[0].tasks);
        lemma_buckets_add_all_membership(bs, elems[0].groups, k);
        lemma_fold_bucket_monotone(bs1, ts1, elems.drop_first(), k);
    }
}

/// Once a key is bucketed, no task of that key is ever claimed.
proof fn lemma_fold_no_task_when_bucketed(
    bs: Seq<BucketModel>,
    ts: Seq<TaskModel>,
    elems: Seq<GroupModel>,
    k: char,
)
    requires
        has_bucket(bs, k),
        !has_task_key(ts, k),
        distinct_task_keys(ts),
    ensures
        !has_task_key(merge_fold(bs, ts, elems).1, k),
    decreases elems.len(),
{
    if elems.len() > 0 {
        let bs1 = buckets_add_all(bs, elems[0].groups);
        let ts1 = tasks_add_all(ts, bs1, elems[0].tasks);
        lemma_buckets_add_all_membership(bs, elems[0].groups, k);
        lemma_tasks_add_all_props(ts, bs1, elems[0].tasks);
        lemma_fold_no_task_when_bucketed(bs1, ts1, elems.drop_first(), k);
    }
}

/// The fold's task keys stay pairwise distinct.
proof fn lemma_fold_distinct_tasks(
    bs: Seq<BucketModel>,
    ts: Seq<TaskModel>,
    elems: Seq<GroupModel>,
)
    requires
        distinct_task_keys(ts),
    ensures
        distinct_task_keys(merge_fold(bs, ts, elems).1),
    decreases elems.len(),
{
    if elems.len() > 0 {
        let bs1 = buckets_add_all(bs, elems[0].groups);
        let ts1 = tasks_add_all(ts, bs1, elems[0].tasks);
        lemma_tasks_add_all_props(ts, bs1, elems[0].tasks);
        lemma_fold_distinct_tasks(bs1, ts1, elems.drop_first());
    }
}

/// Registering a group keeps bucket keys distinct and buckets well
/// formed.
proof fn lemma_buckets_add_wf(bs: Seq<BucketModel>, g: GroupModel)
    requires
        distinct_bucket_keys(bs),
        wf_buckets(bs),
    ensures
        distinct_bucket_keys(buckets_add(bs, g)),
        wf_buckets(buckets_add(bs, g)),
    decreases bs.len(),
{
    let r = buckets_add(bs, g);
    if bs.len() == 0 {
        assert(r[0].1 == seq![g]);
        assert(r[0].1[0] == g);
    } else if bs[0].0 == g.key {
        assert(r[0].1 == bs[0].1.push(g));
        assert forall|i: int| 0 <= i < bs.len() implies r[i].0 == bs[i].0 && (i > 0 ==> r[i]
            == bs[i]) by {
            if i > 0 {
                assert(r[i] == bs.drop_first()[i - 1]);
            }
        }
        assert forall|j: int| 0 <= j < r.len() implies (#[trigger] r[j]).1.len() >= 1 by {
            if j > 0 {
                assert(r[j] == bs[j]);
            }
        }
        assert forall|j: int, x: int|
            0 <= j < r.len() && 0 <= x < r[j].1.len() implies (#[trigger] r[j].1[x]).key
            == r[j].0 by {
            if j == 0 {
                if x < bs[0].1.len() {
                    assert(r[0].1[x] == bs[0].1[x]);
                } else {
                    assert(r[0].1[x] == g);
                }
            } else {
                assert(r[j] == bs[j]);
            }
        }
    } else {
        assert forall|i: int, j: int| 0 <= i < j < bs.drop_first().len() implies bs.drop_first()[i].0
            != bs.drop_first()[j].0 by {
            assert(bs.drop_first()[i] == bs[i + 1]);
            assert(bs.drop_first()[j] == bs[j + 1]);
        }
        assert forall|j: int| 0 <= j < bs.drop_first().len() implies (#[trigger] bs.drop_first()[j]).1.len()
            >= 1 by {
            assert(bs.drop_first()[j] == bs[j + 1]);
        }
        assert forall|j: int, x: int|
            0 <= j < bs.drop_first().len() && 0 <= x < bs.drop_first()[j].1.len() implies (
            #[trigger] bs.drop_first()[j].1[x]).key == bs.drop_first()[j].0 by {
            assert(bs.drop_first()[j] == bs[j + 1]);
            assert(bs[j + 1].1[x].key == bs[j + 1].0);
        }
        lemma_buckets_add_wf(bs.drop_first(), g);
        let sub = buckets_add(bs.drop_first(), g);
        assert(r[0] == bs[0]);
        assert forall|i: int| 1 <= i < r.len() implies r[i] == sub[i - 1] by {}
        assert forall|i: int, j: int| 0 <= i < j < r.len() implies r[i].0 != r[j].0 by {
            if i == 0 {
                lemma_buckets_add_membership(bs.drop_first(), g, r[j].0);
                assert(sub[j - 1].0 == r[j].0);
                assert(has_bucket(sub, r[j].0));
                if r[0].0 == r[j].0 {
                    if has_bucket(bs.drop_first(), r[j].0) {
                        let y = choose|y: int|
                            0 <= y < bs.drop_first().len() && bs.drop_first()[y].0 == r[j].0;
                        assert(bs[y + 1].0 == r[j].0);
                        assert(false);
                    } else {
                        assert(g.key == r[j].0);
                        assert(false);
                    }
                }
            }
        }
        assert forall|j: int| 0 <= j < r.len() implies (#[trigger] r[j]).1.len() >= 1 by {
            if j > 0 {
                assert(r[j] == sub[j - 1]);
            }
        }
        assert forall|j: int, x: int|
            0 <= j < r.len() && 0 <= x < r[j].1.len() implies (#[trigger] r[j].1[x]).key
            == r[j].0 by {
            if j == 0 {
                assert(bs[0].1[x].key == bs[0].0);
            } else {
                assert(r[j] == sub[j - 1]);
                assert(sub[j - 1].1[x].key == sub[j - 1].0);
            }
        }
    }
}

/// Registering a list of groups keeps buckets well formed.
proof fn lemma_buckets_add_all_wf(bs: Seq<BucketModel>, gs: Seq<GroupModel>)
    requires
        distinct_bucket_keys(bs),
        wf_buckets(bs),
    ensures
        distinct_bucket_keys(buckets_add_all(bs, gs)),
        wf_buckets(buckets_add_all(bs, gs)),
    decreases gs.len(),
{
    if gs.len() > 0 {
        lemma_buckets_add_wf(bs, gs[0]);
        lemma_buckets_add_all_wf(buckets_add(bs, gs[0]), gs.drop_first());
    }
}

/// The whole fold keeps buckets well formed.
proof fn lemma_fold_buckets_wf(bs: Seq<BucketModel>, ts: Seq<TaskModel>, elems: Seq<GroupModel>)
    requires
        distinct_bucket_keys(bs),
        wf_buckets(bs),
    ensures
        distinct_bucket_keys(merge_fold(bs, ts, elems).0),
        wf_buckets(merge_fold(bs, ts, elems).0),
    decreases elems.len(),
{
    if elems.len() > 0 {
        let bs1 = buckets_add_all(bs, elems[0].groups);
        let ts1 = tasks_add_all(ts, bs1, elems[0].tasks);
        lemma_buckets_add_all_wf(bs, elems[0].groups);
        lemma_fold_buckets_wf(bs1, ts1, elems.drop_first());
    }
}

/// Every peer shares the identity it was selected for.
proof fn lemma_peers_rec_all(first: GroupModel, s: Seq<GroupModel>)
    ensures
        forall|i: int|
            0 <= i < peers_of_rec(first, s).len() ==> peer_pred(
                first,
                #[trigger] peers_of_rec(first, s)[i],
            ),
    decreases s.len(),
{
    if s.len() > 0 {
        lemma_peers_rec_all(first, s.drop_first());
        let rest = peers_of_rec(first, s.drop_first());
        if peer_pred(first, s[0]) {
            assert forall|i: int|
                0 <= i < peers_of_rec(first, s).len() implies peer_pred(
                first,
                #[trigger] peers_of_rec(first, s)[i],
            ) by {
                if i > 0 {
                    assert(peers_of_rec(first, s)[i] == rest[i - 1]);
                }
            }
        }
    }
}

/// The merged tree keeps the identity of the first source.
pub proof fn lemma_merge_model_identity(gs: Seq<GroupModel>)
    requires
        gs.len() > 0,
    ensures
        merge_model(gs).name == gs[0].name,
        merge_model(gs).key == gs[0].key,
{
    let peers = peers_of(gs);
    lemma_peers_nonempty(gs);
    if peers.len() == 1 {
        lemma_peers_rec_all(gs[0], gs);
        assert(peer_pred(gs[0], peers[0]));
    }
}

/// Each merged child group answers to its bucket's key, in order.
proof fn lemma_merge_buckets_keys(bs: Seq<BucketModel>)
    requires
        wf_buckets(bs),
    ensures
        merge_buckets(bs).len() == bs.len(),
        forall|j: int| 0 <= j < bs.len() ==> (#[trigger] merge_buckets(bs)[j]).key == bs[j].0,
    decreases bs.len(),
{
    if bs.len() > 0 {
        assert(bs[0].1.len() >= 1);
        assert(bs[0].1[0].key == bs[0].0);
        lemma_merge_model_identity(bs[0].1);
        assert forall|j: int| 0 <= j < bs.drop_first().len() implies (#[trigger] bs.drop_first()[j]).1.len()
            >= 1 by {
            assert(bs.drop_first()[j] == bs[j + 1]);
        }
        assert forall|j: int, x: int|
            0 <= j < bs.drop_first().len() && 0 <= x < bs.drop_first()[j].1.len() implies (
            #[trigger] bs.drop_first()[j].1[x]).key == bs.drop_first()[j].0 by {
            assert(bs.drop_first()[j] == bs[j + 1]);
            assert(bs[j + 1].1[x].key == bs[j + 1].0);
        }
        lemma_merge_buckets_keys(bs.drop_first());
        assert forall|j: int| 0 <= j < bs.len() implies (#[trigger] merge_buckets(bs)[j]).key
            == bs[j].0 by {
            if j > 0 {
                assert(merge_buckets(bs)[j] == merge_buckets(bs.drop_first())[j - 1]);
                assert(bs.drop_first()[j - 1] == bs[j]);
            }
        }
    }
}

/// When several sources are merged, the merged tree's task keys and
/// child-group keys are each pairwise distinct.
pub proof fn lemma_merge_keys_unique(gs: Seq<GroupModel>)
    requires
        gs.len() > 0,
        peers_of(gs).len() != 1,
    ensures
        distinct_task_keys(merge_model(gs).tasks),
        distinct_group_keys(merge_model(gs).groups),
{
    let peers = peers_of(gs);
    let folded = merge_fold(Seq::empty(), Seq::empty(), peers);
    lemma_fold_distinct_tasks(Seq::empty(), Seq::empty(), peers);
    lemma_fold_buckets_wf(Seq::empty(), Seq::empty(), peers);
    lemma_merge_buckets_keys(folded.0);
    assert forall|i: int, j: int|
        0 <= i < j < merge_model(gs).groups.len() implies merge_model(gs).groups[i].key
        != merge_model(gs).groups[j].key by {
        assert(merge_buckets(folded.0)[i].key == folded.0[i].0);
        assert(merge_buckets(folded.0)[j].key == folded.0[j].0);
    }
}

/// Among same-keyed tasks of two sibling sources, the higher-priority
/// source's first task of that key is kept, and no other task of that
/// key survives.
pub proof fn lemma_merge_dedup(a: GroupModel, b: GroupModel, k: char)
    requires
        peer_pred(a, b),
        a.groups.len() == 0,
        b.groups.len() == 0,
        has_task_key(a.tasks, k),
    ensures
        ({
            let m = merge_model(seq![a, b]);
            &&& has_task_key(m.tasks, k)
            &&& distinct_task_keys(m.tasks)
            &&& exists|i: int|
                0 <= i < m.tasks.len() && (#[trigger] m.tasks[i]).key == k && m.tasks[i]
                    == a.tasks[find_task_index(a.tasks, k)]
        }),
{
    reveal_with_fuel(peers_of_rec, 3);
    reveal_with_fuel(merge_fold, 3);
    let gs = seq![a, b];
    assert(gs[0] == a);
    assert(gs[1] == b);
    let peers = peers_of(gs);
    assert(peer_pred(gs[0], gs[0]));
    assert(gs.drop_first() =~= seq![b]);
    assert(seq![b].drop_first() =~= Seq::<GroupModel>::empty());
    assert(peers_of_rec(gs[0], seq![b]) == seq![b] + Seq::<GroupModel>::empty());
    assert(seq![b] + Seq::<GroupModel>::empty() =~= seq![b]);
    assert(peers =~= seq![a] + seq![b]);
    assert(peers =~= gs);
    assert(peers.len() == 2);

    let bs1 = buckets_add_all(Seq::empty(), a.groups);
    assert(bs1 =~= Seq::<BucketModel>::empty());
    let ts1 = tasks_add_all(Seq::empty(), bs1, a.tasks);
    let bs2 = buckets_add_all(bs1, b.groups);
    assert(bs2 =~= Seq::<BucketModel>::empty());
    let ts2 = tasks_add_all(ts1, bs2, b.tasks);
    assert(peers.drop_first() =~= seq![b]);
    assert(peers.drop_first().drop_first() =~= Seq::<GroupModel>::empty());
    let folded = merge_fold(Seq::empty(), Seq::empty(), peers);
    assert(folded.1 == ts2);
    assert(merge_model(gs).tasks == ts2);

    lemma_tasks_add_all_props(Seq::empty(), bs1, a.tasks);
    assert forall|kk: char| !has_bucket(bs1, kk) by {}
    assert(has_task_key(ts1, k));
    lemma_tasks_add_all_props(ts1, bs2, b.tasks);
    assert(has_task_key(ts2, k));
    assert(distinct_task_keys(ts2));
    lemma_find_task_index_range(a.tasks, k);
    let i = choose|i: int| 0 <= i < ts1.len() && ts1[i].key == k;
    assert(ts1[i] == a.tasks[find_task_index(a.tasks, k)]);
    assert(ts2[i] == ts1[i]);
}

/// A group key claims its key against every task, as long as the
/// sources before the group's own source hold no task of that key: the
/// merged tree then has a child group and no task with the key. (A task
/// from a source processed before the colliding group's source survives
/// beside the group; that narrow case is the one this statement leaves
/// out.)
pub proof fn lemma_group_shadows_task(gs: Seq<GroupModel>, k: char, i: int)
    requires
        gs.len() > 0,
        peers_of(gs).len() != 1,
        0 <= i < peers_of(gs).len(),
        has_group_key(peers_of(gs)[i].groups, k),
        forall|j: int| 0 <= j < i ==> !has_task_key(peers_of(gs)[j].tasks, k),
    ensures
        !has_task_key(merge_model(gs).tasks, k),
        has_group_key(merge_model(gs).groups, k),
{
    let peers = peers_of(gs);
    let folded = merge_fold(Seq::empty(), Seq::empty(), peers);
    lemma_group_shadow_fold(Seq::empty(), Seq::empty(), peers, k, i);
    lemma_fold_buckets_wf(Seq::empty(), Seq::empty(), peers);
    lemma_merge_buckets_keys(folded.0);
    let j = choose|j: int| 0 <= j < folded.0.len() && folded.0[j].0 == k;
    assert(merge_buckets(folded.0)[j].key == k);
}

/// Inside the fold: if some element registers the key as a group and no
/// earlier element holds a task of it, the key ends bucketed and
/// taskless.
proof fn lemma_group_shadow_fold(
    bs: Seq<BucketModel>,
    ts: Seq<TaskModel>,
    elems: Seq<GroupModel>,
    k: char,
    i: int,
)
    requires
        0 <= i < elems.len(),
        has_group_key(elems[i].groups, k),
        forall|j: int| 0 <= j < i ==> !has_task_key((#[trigger] elems[j]).tasks, k),
        !has_task_key(ts, k),
        distinct_task_keys(ts),
    ensures
        !has_task_key(merge_fold(bs, ts, elems).1, k),
        has_bucket(merge_fold(bs, ts, elems).0, k),
    decreases elems.len(),
{
    let bs1 = buckets_add_all(bs, elems[0].groups);
    let ts1 = tasks_add_all(ts, bs1, elems[0].tasks);
    let rest = elems.drop_first();
    lemma_buckets_add_all_membership(bs, elems[0].groups, k);
    lemma_tasks_add_all_props(ts, bs1, elems[0].tasks);
    if has_bucket(bs1, k) {
        if i > 0 {
            assert(!has_task_key(elems[0].tasks, k));
        }
        assert(!has_task_key(ts1, k));
        lemma_fold_no_task_when_bucketed(bs1, ts1, rest, k);
        lemma_fold_bucket_monotone(bs1, ts1, rest, k);
    } else {
        assert(i > 0) by {
            if i == 0 {
                assert(has_group_key(elems[0].groups, k));
            }
        }
        assert(!has_task_key(elems[0].tasks, k));
        assert(!has_task_key(ts1, k));
        assert(rest[i - 1] == elems[i]);
        assert forall|j: int| 0 <= j < i - 1 implies !has_task_key(
            (#[trigger] rest[j]).tasks,
            k,
        ) by {
            assert(rest[j] == elems[j + 1]);
        }
        lemma_group_shadow_fold(bs1, ts1, rest, k, i - 1);
    }
}

} // verus!
