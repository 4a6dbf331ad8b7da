//! The interactive navigation state machine.
//!
//! A navigator holds a stack of groups: the root at the bottom, one entry
//! per group the user has drilled into. One key press drives one step:
//! quit, select a task, push a group, pop back up, or report a transient
//! input error and stay in place.

use vstd::prelude::*;

use crate::model::{Group, GroupModel, Task, TaskModel};
use crate::model::{groups_model, tasks_model};
use crate::model::{lemma_groups_model_drop_last, lemma_groups_model_push};

verus! {

broadcast use crate::model::lemma_groups_model_len, crate::model::lemma_groups_model_index;

/// One key press, as the state machine sees it.
#[derive(PartialEq, Eq, Structural, Clone, Copy, Debug)]
pub enum KeyInput {
    /// A character key, and whether the control modifier was held.
    Character(char, bool),
    Enter,
    Backspace,
    Esc,
    /// Function keys and everything else that carries no character.
    Other,
}

/// A transient input error, shown once on the next redraw.
#[derive(PartialEq, Eq, Structural, Clone, Copy, Debug)]
pub enum NavError {
    /// Whitespace is not allowed.
    Whitespace,
    /// Going up at the root.
    AtRoot,
    /// No task or group answers to this key.
    NoMatch(char),
    /// The key carries no plain character.
    NotCharacter,
}

/// What one key press did to the browsing state.
pub enum NavOutcome {
    /// The user gave up the selection.
    Quit,
    /// The user's selection.
    Selected(Task),
    /// Still browsing; a transient error may be due for display.
    Continue(Option<NavError>),
}

/// The index of the first task with the key, or -1.
pub open spec fn find_task_index(ts: Seq<TaskModel>, ch: char) -> int
    decreases ts.len(),
{
    if ts.len() == 0 {
        -1
    } else if ts[0].key == ch {
        0
    } else {
        let r = find_task_index(ts.drop_first(), ch);
        if r == -1 {
            -1
        } else {
            r + 1
        }
    }
}

/// The index of the first group with the key, or -1.
pub open spec fn find_group_index(gs: Seq<GroupModel>, ch: char) -> int
    decreases gs.len(),
{
    if gs.len() == 0 {
        -1
    } else if gs[0].key == ch {
        0
    } else {
        let r = find_group_index(gs.drop_first(), ch);
        if r == -1 {
            -1
        } else {
            r + 1
        }
    }
}

/// The effect of one key press on a browsing stack.
pub ghost enum NavEffect {
    Quit,
    Selected(TaskModel),
    Browse(Seq<GroupModel>, Option<NavError>),
}

/// The transition table: evaluated top to bottom, first match wins.
pub open spec fn nav_transition(stack: Seq<GroupModel>, key: KeyInput) -> NavEffect
    recommends
        stack.len() >= 1,
{
    match key {
        KeyInput::Character(ch, ctrl) => if ch == 'q' {
            NavEffect::Quit
        } else if ch == ' ' {
            NavEffect::Browse(stack, Option::Some(NavError::Whitespace))
        } else if !ctrl {
            let top = stack.last();
            let ti = find_task_index(top.tasks, ch);
            if ti >= 0 {
                NavEffect::Selected(top.tasks[ti])
            } else {
                let gi = find_group_index(top.groups, ch);
                if gi >= 0 {
                    NavEffect::Browse(stack.push(top.groups[gi]), Option::None)
                } else {
                    NavEffect::Browse(stack, Option::Some(NavError::NoMatch(ch)))
                }
            }
        } else {
            NavEffect::Browse(stack, Option::Some(NavError::NotCharacter))
        },
        KeyInput::Backspace | KeyInput::Esc => if stack.len() <= 1 {
            NavEffect::Browse(stack, Option::Some(NavError::AtRoot))
        } else {
            NavEffect::Browse(stack.drop_last(), Option::None)
        },
        _ => NavEffect::Browse(stack, Option::Some(NavError::NotCharacter)),
    }
}

/// The effect an outcome together with the stack it left stands for.
pub open spec fn outcome_effect(out: NavOutcome, new_stack: Seq<GroupModel>) -> NavEffect {
    match out {
        NavOutcome::Quit => NavEffect::Quit,
        NavOutcome::Selected(t) => NavEffect::Selected(t@),
        NavOutcome::Continue(e) => NavEffect::Browse(new_stack, e),
    }
}

/// Scans tasks for the first one with the key.
fn find_task_in(ts: &Vec<Task>, ch: char) -> (r: Option<usize>)
    ensures
        match r {
            Option::Some(i) => i < ts@.len() && find_task_index(tasks_model(ts@), ch) == i,
            Option::None => find_task_index(tasks_model(ts@), ch) == -1,
        },
{
    let mut i: usize = 0;
    while i < ts.len()
        invariant
            i <= ts@.len(),
            forall|k: int| 0 <= k < i ==> tasks_model(ts@)[k].key != ch,
        decreases ts@.len() - i,
    {
        if ts[i].key == ch {
            proof {
                lemma_find_task_at(tasks_model(ts@), ch, i as int);
            }
            return Option::Some(i);
        }
        i = i + 1;
    }
    proof {
        lemma_find_task_none(tasks_model(ts@), ch);
    }
    Option::None
}

/// Scans groups for the first one with the key.
fn find_group_in(gs: &Vec<Group>, ch: char) -> (r: Option<usize>)
    ensures
        match r {
            Option::Some(i) => i < gs@.len() && find_group_index(groups_model(gs@), ch) == i,
            Option::None => find_group_index(groups_model(gs@), ch) == -1,
        },
{
    let mut i: usize = 0;
    while i < gs.len()
        invariant
            i <= gs@.len(),
            forall|k: int| 0 <= k < i ==> groups_model(gs@)[k].key != ch,
        decreases gs@.len() - i,
    {
        if gs[i].key == ch {
            proof {
                lemma_find_group_at(groups_model(gs@), ch, i as int);
            }
            return Option::Some(i);
        }
        i = i + 1;
    }
    proof {
        lemma_find_group_none(groups_model(gs@), ch);
    }
    Option::None
}

/// The scan's first hit is what the recursive search finds.
proof fn lemma_find_task_at(ts: Seq<TaskModel>, ch: char, i: int)
    requires
        0 <= i < ts.len(),
        ts[i].key == ch,
        forall|k: int| 0 <= k < i ==> ts[k].key != ch,
    ensures
        find_task_index(ts, ch) == i,
    decreases i,
{
    if i > 0 {
        assert forall|k: int| 0 <= k < i - 1 implies ts.drop_first()[k].key != ch by {
            assert(ts.drop_first()[k] == ts[k + 1]);
        }
        assert(ts.drop_first()[i - 1] == ts[i]);
        lemma_find_task_at(ts.drop_first(), ch, i - 1);
    }
}

/// A scan without a hit means the recursive search finds nothing.
proof fn lemma_find_task_none(ts: Seq<TaskModel>, ch: char)
    requires
        forall|k: int| 0 <= k < ts.len() ==> ts[k].key != ch,
    ensures
        find_task_index(ts, ch) == -1,
    decreases ts.len(),
{
    if ts.len() > 0 {
        assert forall|k: int| 0 <= k < ts.drop_first().len() implies ts.drop_first()[k].key
            != ch by {
            assert(ts.drop_first()[k] == ts[k + 1]);
        }
        lemma_find_task_none(ts.drop_first(), ch);
    }
}

/// The scan's first hit is what the recursive search finds.
proof fn lemma_find_group_at(gs: Seq<GroupModel>, ch: char, i: int)
    requires
        0 <= i < gs.len(),
        gs[i].key == ch,
        forall|k: int| 0 <= k < i ==> gs[k].key != ch,
    ensures
        find_group_index(gs, ch) == i,
    decreases i,
{
    if i > 0 {
        assert forall|k: int| 0 <= k < i - 1 implies gs.drop_first()[k].key != ch by {
            assert(gs.drop_first()[k] == gs[k + 1]);
        }
        assert(gs.drop_first()[i - 1] == gs[i]);
        lemma_find_group_at(gs.drop_first(), ch, i - 1);
    }
}

/// A scan without a hit means the recursive search finds nothing.
proof fn lemma_find_group_none(gs: Seq<GroupModel>, ch: char)
    requires
        forall|k: int| 0 <= k < gs.len() ==> gs[k].key != ch,
    ensures
        find_group_index(gs, ch) == -1,
    decreases gs.len(),
{
    if gs.len() > 0 {
        assert forall|k: int| 0 <= k < gs.drop_first().len() implies gs.drop_first()[k].key
            != ch by {
            assert(gs.drop_first()[k] == gs[k + 1]);
        }
        lemma_find_group_none(gs.drop_first(), ch);
    }
}

/// The browsing state: the root group and every group drilled into.
pub struct Navigator {
    pub stack: Vec<Group>,
}

impl Navigator {
    /// The stack never empties, and each entry is a child of the one
    /// below it.
    pub open spec fn wf(self) -> bool {
        &&& self.stack@.len() >= 1
        &&& forall|i: int|
            0 <= i < self.stack@.len() - 1 ==> groups_model(self.stack@)[i].groups.contains(
                groups_model(self.stack@)[i + 1],
            )
    }

    /// Starts browsing at the root.
    pub fn new(root: Group) -> (nav: Navigator)
        ensures
            nav.wf(),
            nav.stack@.len() == 1,
            groups_model(nav.stack@) == seq![root@],
    {
        let ghost rm = root@;
        let mut stack: Vec<Group> = Vec::new();
        stack.push(root);
        proof {
            lemma_groups_model_push(Seq::<Group>::empty(), stack@[0]);
            assert(Seq::<Group>::empty().push(stack@[0]) =~= stack@);
            assert(groups_model(Seq::<Group>::empty()).push(rm) =~= seq![rm]);
        }
        Navigator { stack }
    }

    /// The group currently browsed: the top of the stack.
    pub fn current(&self) -> (g: &Group)
        requires
            self.wf(),
        ensures
            g@ == groups_model(self.stack@).last(),
    {
        &self.stack[self.stack.len() - 1]
    }

    /// How deep the user has drilled in; 1 at the root.
    pub fn depth(&self) -> (d: usize)
        ensures
            d == self.stack@.len(),
    {
        self.stack.len()
    }

    /// The names of every group below the root, in order: the
    /// breadcrumb trail.
    pub fn breadcrumbs(&self) -> (r: Vec<String>)
        requires
            self.wf(),
        ensures
            r@.len() == self.stack@.len() - 1,
            forall|i: int|
                0 <= i < r@.len() ==> r@[i]@ == groups_model(self.stack@)[i + 1].name,
    {
        let mut r: Vec<String> = Vec::new();
        let mut i: usize = 1;
        while i < self.stack.len()
            invariant
                1 <= i <= self.stack@.len(),
                r@.len() == i - 1,
                forall|k: int|
                    0 <= k < r@.len() ==> r@[k]@ == groups_model(self.stack@)[k + 1].name,
            decreases self.stack@.len() - i,
        {
            r.push(self.stack[i].name.clone());
            i = i + 1;
        }
        r
    }

    /// One step of the state machine, as the transition table gives it.
    pub fn step(&mut self, key: KeyInput) -> (out: NavOutcome)
        requires
            old(self).wf(),
        ensures
            final(self).wf(),
            outcome_effect(out, groups_model(final(self).stack@)) == nav_transition(
                groups_model(old(self).stack@),
                key,
            ),
            !(out matches NavOutcome::Continue(Option::None)) ==> *final(self) == *old(self),
    {
        match key {
            KeyInput::Character(ch, ctrl) => {
                if ch == 'q' {
                    return NavOutcome::Quit;
                }
                if ch == ' ' {
                    return NavOutcome::Continue(Option::Some(NavError::Whitespace));
                }
                if !ctrl {
                    let top_i = self.stack.len() - 1;
                    let ti = find_task_in(&self.stack[top_i].tasks, ch);
                    proof {
                        assert(groups_model(self.stack@).last() == self.stack@[top_i as int]@);
                    }
                    if let Option::Some(i) = ti {
                        let t = self.stack[top_i].tasks[i].clone();
                        return NavOutcome::Selected(t);
                    }
                    let gi = find_group_in(&self.stack[top_i].groups, ch);
                    match gi {
                        Option::Some(i) => {
                            let child = self.stack[top_i].groups[i].clone();
                            proof {
                                lemma_groups_model_push(self.stack@, child);
                            }
                            self.stack.push(child);
                            proof {
                                let ns = groups_model(self.stack@);
                                assert forall|k: int| 0 <= k < ns.len() - 1 implies ns[k].groups
                                    .contains(ns[k + 1]) by {
                                    if k < ns.len() - 2 {
                                        assert(groups_model(old(self).stack@)[k].groups.contains(
                                            groups_model(old(self).stack@)[k + 1],
                                        ));
                                    }
                                }
                            }
                            return NavOutcome::Continue(Option::None);
                        },
                        Option::None => {
                            return NavOutcome::Continue(Option::Some(NavError::NoMatch(ch)));
                        },
                    }
                }
                NavOutcome::Continue(Option::Some(NavError::NotCharacter))
            },
            KeyInput::Backspace | KeyInput::Esc => {
                if self.stack.len() <= 1 {
                    return NavOutcome::Continue(Option::Some(NavError::AtRoot));
                }
                proof {
                    lemma_groups_model_drop_last(self.stack@);
                }
                let popped = self.stack.pop();
                proof {
                    let ns = groups_model(self.stack@);
                    assert forall|k: int| 0 <= k < ns.len() - 1 implies ns[k].groups.contains(
                        ns[k + 1],
                    ) by {
                        assert(groups_model(old(self).stack@)[k].groups.contains(
                            groups_model(old(self).stack@)[k + 1],
                        ));
                    }
                }
                NavOutcome::Continue(Option::None)
            },
            _ => NavOutcome::Continue(Option::Some(NavError::NotCharacter)),
        }
    }
}

/// From any browsing state, a key that matches a child group pushes
/// exactly one breadcrumb, and going up afterwards restores the stack;
/// going up at the root leaves the stack as it is and reports the error.
pub proof fn lemma_navigation_round_trip(stack: Seq<GroupModel>, ch: char)
    requires
        stack.len() >= 1,
        ch != 'q',
        ch != ' ',
        find_task_index(stack.last().tasks, ch) == -1,
        find_group_index(stack.last().groups, ch) >= 0,
    ensures
        ({
            let pushed = stack.push(stack.last().groups[find_group_index(stack.last().groups, ch)]);
            &&& nav_transition(stack, KeyInput::Character(ch, false)) == NavEffect::Browse(
                pushed,
                Option::<NavError>::None,
            )
            &&& pushed.len() == stack.len() + 1
            &&& nav_transition(pushed, KeyInput::Backspace) == NavEffect::Browse(
                stack,
                Option::<NavError>::None,
            )
        }),
{
    let gi = find_group_index(stack.last().groups, ch);
    let pushed = stack.push(stack.last().groups[gi]);
    assert(pushed.drop_last() =~= stack);
}

/// Going up at the root reports the error and leaves the stack alone.
pub proof fn lemma_back_at_root(stack: Seq<GroupModel>)
    requires
        stack.len() == 1,
    ensures
        nav_transition(stack, KeyInput::Backspace) == NavEffect::Browse(
            stack,
            Option::Some(NavError::AtRoot),
        ),
        nav_transition(stack, KeyInput::Esc) == NavEffect::Browse(
            stack,
            Option::Some(NavError::AtRoot),
        ),
{
}

} // verus!
