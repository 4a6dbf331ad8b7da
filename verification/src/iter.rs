//! Walking every task of a tree, newest branch first.

use vstd::prelude::*;

use crate::model::{Group, GroupModel, Task, TaskModel};
use crate::model::{gm_size, gm_size_seq, group_model, groups_model, tasks_model};
use crate::model::{
    lemma_gm_size_seq_concat, lemma_gm_size_seq_drop_last, lemma_groups_model_concat,
    lemma_groups_model_drop_last, lemma_groups_model_push,
};

verus! {

broadcast use crate::model::lemma_groups_model_len, crate::model::lemma_groups_model_index;

/// The tasks a [`TaskIterator`] in the given state still produces, in
/// order: the pending tasks from the back, then the pending groups from
/// the back, each expanded the same way.
pub open spec fn drain(groups: Seq<GroupModel>, tasks: Seq<TaskModel>) -> Seq<TaskModel>
    decreases gm_size_seq(groups), tasks.len(),
        via drain_dec
{
    if tasks.len() > 0 {
        seq![tasks.last()] + drain(groups, tasks.drop_last())
    } else if groups.len() > 0 {
        drain(groups.drop_last() + groups.last().groups, groups.last().tasks)
    } else {
        Seq::empty()
    }
}

#[via_fn]
proof fn drain_dec(groups: Seq<GroupModel>, tasks: Seq<TaskModel>) {
    if tasks.len() == 0 && groups.len() > 0 {
        lemma_gm_size_seq_concat(groups.drop_last(), groups.last().groups);
        lemma_gm_size_seq_drop_last(groups);
        assert(gm_size(groups.last()) == 1 + gm_size_seq(groups.last().groups));
    }
}

/// A cursor over every task of a tree, produced by [`Group::iter_mut`].
pub struct TaskIterator {
    pub groups: Vec<Group>,
    pub tasks: Vec<Task>,
}

impl TaskIterator {
    /// The tasks this iterator still produces, in order.
    pub open spec fn pending(self) -> Seq<TaskModel> {
        drain(groups_model(self.groups@), tasks_model(self.tasks@))
    }

    /// Produces the next task, or nothing once every task was seen.
    pub fn next(&mut self) -> (r: Option<Task>)
        ensures
            match r {
                Option::Some(t) => old(self).pending().len() > 0 && t@ == old(self).pending()[0]
                    && final(self).pending() == old(self).pending().drop_first(),
                Option::None => old(self).pending().len() == 0,
            },
    {
        loop
            invariant
                self.pending() == old(self).pending(),
            decreases gm_size_seq(groups_model(self.groups@)),
        {
            let ghost pre_g = groups_model(self.groups@);
            let ghost pre_t = tasks_model(self.tasks@);
            let t_opt = self.tasks.pop();
            match t_opt {
                Option::Some(t) => {
                    proof {
                        assert(pre_t.last() == t@);
                        assert(tasks_model(self.tasks@) =~= pre_t.drop_last());
                        assert(drain(pre_g, pre_t) == seq![t@] + self.pending());
                        assert((seq![t@] + self.pending())[0] == t@);
                        assert((seq![t@] + self.pending()).drop_first() =~= self.pending());
                    }
                    return Option::Some(t);
                },
                Option::None => {
                    let g_opt = self.groups.pop();
                    match g_opt {
                        Option::None => {
                            proof {
                                assert(self.pending() =~= Seq::<TaskModel>::empty());
                            }
                            return Option::None;
                        },
                        Option::Some(g) => {
                            let ghost popped = self.groups@;
                            let mut cgs = g.groups;
                            let ghost cv = cgs@;
                            self.tasks = g.tasks;
                            self.groups.append(&mut cgs);
                            proof {
                                lemma_groups_model_drop_last(popped.push(g));
                                assert(popped.push(g).drop_last() =~= popped);
                                lemma_groups_model_concat(popped, cv);
                                assert(pre_g.last() == g@);
                                assert(groups_model(popped) == pre_g.drop_last());
                                assert(groups_model(self.groups@) == pre_g.drop_last()
                                    + g@.groups);
                                assert(tasks_model(self.tasks@) == g@.tasks);
                                lemma_gm_size_seq_concat(pre_g.drop_last(), g@.groups);
                                lemma_gm_size_seq_drop_last(pre_g);
                                assert(gm_size(g@) == 1 + gm_size_seq(g@.groups));
                            }
                        },
                    }
                },
            }
        }
    }
}

impl Group {
    /// An iterator over every task of this tree, leaving the tree as it
    /// stands; the most recently reached branch is walked first.
    pub fn iter_mut(&mut self) -> (it: TaskIterator)
        ensures
            *final(self) == *old(self),
            it.pending() == drain(seq![old(self)@], Seq::<TaskModel>::empty()),
    {
        let start = self.clone();
        let ghost gm = group_model(start);
        let mut gvec: Vec<Group> = Vec::new();
        gvec.push(start);
        let it = TaskIterator { groups: gvec, tasks: Vec::new() };
        proof {
            lemma_groups_model_push(Seq::<Group>::empty(), it.groups@[0]);
            assert(Seq::<Group>::empty().push(it.groups@[0]) =~= it.groups@);
            assert(groups_model(Seq::<Group>::empty()).push(gm) =~= seq![self@]);
            assert(tasks_model(it.tasks@) =~= Seq::<TaskModel>::empty());
        }
        it
    }
}

} // verus!
