//! The entity model: tasks, groups, and their mathematical views.

use vstd::prelude::*;

verus! {

/// A leaf action: a named shell command bound to a single-character key.
pub struct Task {
    pub name: String,
    pub key: char,
    pub cmd: String,
    pub confirm: bool,
    pub clear: bool,
    pub working_dir: Option<String>,
    /// Extra environment entries for the child; names are unique.
    pub env: Vec<(String, String)>,
    pub clear_env: bool,
}

/// An internal menu node: child groups and tasks, each keyed by one character.
pub struct Group {
    pub name: String,
    pub key: char,
    pub groups: Vec<Group>,
    pub tasks: Vec<Task>,
}

/// Mathematical model of a task: every string as a sequence of characters.
#[verifier::ext_equal]
pub ghost struct TaskModel {
    pub name: Seq<char>,
    pub key: char,
    pub cmd: Seq<char>,
    pub confirm: bool,
    pub clear: bool,
    pub working_dir: Option<Seq<char>>,
    pub env: Seq<(Seq<char>, Seq<char>)>,
    pub clear_env: bool,
}

/// Mathematical model of a group.
#[verifier::ext_equal]
pub ghost struct GroupModel {
    pub name: Seq<char>,
    pub key: char,
    pub groups: Seq<GroupModel>,
    pub tasks: Seq<TaskModel>,
}

/// Model of an environment-entry list: each name and value as characters.
pub open spec fn env_model(s: Seq<(String, String)>) -> Seq<(Seq<char>, Seq<char>)> {
    s.map_values(|p: (String, String)| (p.0@, p.1@))
}

impl View for Task {
    type V = TaskModel;

    open spec fn view(&self) -> TaskModel {
        TaskModel {
            name: self.name@,
            key: self.key,
            cmd: self.cmd@,
            confirm: self.confirm,
            clear: self.clear,
            working_dir: match self.working_dir {
                Option::Some(d) => Option::Some(d@),
                Option::None => Option::None,
            },
            env: env_model(self.env@),
            clear_env: self.clear_env,
        }
    }
}

/// View of a sequence of tasks, element by element.
pub open spec fn tasks_model(s: Seq<Task>) -> Seq<TaskModel> {
    s.map_values(|t: Task| t@)
}

/// View of a group, recursively over its children.
pub open spec fn group_model(g: Group) -> GroupModel
    decreases g, 1int,
{
    GroupModel {
        name: g.name@,
        key: g.key,
        groups: groups_model(g.groups@),
        tasks: tasks_model(g.tasks@),
    }
}

/// View of a sequence of groups, element by element.
pub open spec fn groups_model(s: Seq<Group>) -> Seq<GroupModel>
    decreases s, 0int,
{
    if s.len() == 0 {
        Seq::empty()
    } else {
        groups_model(s.drop_last()).push(group_model(s.last()))
    }
}

impl View for Group {
    type V = GroupModel;

    open spec fn view(&self) -> GroupModel {
        group_model(*self)
    }
}

/// The length of a group-sequence view equals the length of the sequence.
pub broadcast proof fn lemma_groups_model_len(s: Seq<Group>)
    ensures
        #[trigger] groups_model(s).len() == s.len(),
    decreases s.len(),
{
    if s.len() > 0 {
        lemma_groups_model_len(s.drop_last());
    }
}

/// The group-sequence view maps each element to its own view.
pub broadcast proof fn lemma_groups_model_index(s: Seq<Group>, i: int)
    requires
        0 <= i < s.len(),
    ensures
        #[trigger] groups_model(s)[i] == group_model(s[i]),
    decreases s.len(),
{
    lemma_groups_model_len(s);
    if i < s.len() - 1 {
        lemma_groups_model_index(s.drop_last(), i);
    }
}

/// The number of nodes of a group tree: the group itself plus its
/// descendant groups.
pub open spec fn gm_size(g: GroupModel) -> nat
    decreases g, 1int,
{
    1 + gm_size_seq(g.groups)
}

/// The total number of nodes of a sequence of group trees.
pub open spec fn gm_size_seq(s: Seq<GroupModel>) -> nat
    decreases s, 0int,
{
    if s.len() == 0 {
        0
    } else {
        gm_size(s[0]) + gm_size_seq(s.drop_first())
    }
}

/// Appending a group adds its size to the size of the sequence.
pub proof fn lemma_gm_size_seq_push(s: Seq<GroupModel>, g: GroupModel)
    ensures
        gm_size_seq(s.push(g)) == gm_size_seq(s) + gm_size(g),
    decreases s.len(),
{
    reveal_with_fuel(gm_size_seq, 2);
    if s.len() == 0 {
        assert(s.push(g)[0] == g);
        assert(s.push(g).drop_first() =~= Seq::<GroupModel>::empty());
    } else {
        assert(s.push(g)[0] == s[0]);
        assert(s.push(g).drop_first() =~= s.drop_first().push(g));
        lemma_gm_size_seq_push(s.drop_first(), g);
    }
}

/// Every tree of a sequence is at most as large as the whole sequence.
pub proof fn lemma_gm_size_seq_element(s: Seq<GroupModel>, i: int)
    requires
        0 <= i < s.len(),
    ensures
        gm_size(s[i]) <= gm_size_seq(s),
    decreases s.len(),
{
    if i > 0 {
        lemma_gm_size_seq_element(s.drop_first(), i - 1);
        assert(s.drop_first()[i - 1] == s[i]);
    }
}

/// The total size of a concatenation is the sum of the parts.
pub proof fn lemma_gm_size_seq_concat(a: Seq<GroupModel>, b: Seq<GroupModel>)
    ensures
        gm_size_seq(a + b) == gm_size_seq(a) + gm_size_seq(b),
    decreases a.len(),
{
    if a.len() == 0 {
        assert(a + b =~= b);
    } else {
        assert((a + b)[0] == a[0]);
        assert((a + b).drop_first() =~= a.drop_first() + b);
        lemma_gm_size_seq_concat(a.drop_first(), b);
    }
}

/// Splitting off the last element splits the total size.
pub proof fn lemma_gm_size_seq_drop_last(s: Seq<GroupModel>)
    requires
        s.len() > 0,
    ensures
        gm_size_seq(s) == gm_size_seq(s.drop_last()) + gm_size(s.last()),
{
    assert(s.drop_last().push(s.last()) =~= s);
    lemma_gm_size_seq_push(s.drop_last(), s.last());
}

/// The view of a nonempty sequence splits off its first element.
pub proof fn lemma_groups_model_split_first(s: Seq<Group>)
    requires
        s.len() > 0,
    ensures
        groups_model(s) == seq![group_model(s[0])] + groups_model(s.drop_first()),
{
    lemma_groups_model_len(s);
    lemma_groups_model_len(s.drop_first());
    let rhs = seq![group_model(s[0])] + groups_model(s.drop_first());
    assert forall|i: int| 0 <= i < groups_model(s).len() implies groups_model(s)[i] == rhs[i] by {
        lemma_groups_model_index(s, i);
        if i > 0 {
            lemma_groups_model_index(s.drop_first(), i - 1);
            assert(s.drop_first()[i - 1] == s[i]);
        }
    }
    assert(groups_model(s) =~= rhs);
}

/// The view of a concatenation is the concatenation of the views.
pub proof fn lemma_groups_model_concat(a: Seq<Group>, b: Seq<Group>)
    ensures
        groups_model(a + b) == groups_model(a) + groups_model(b),
{
    lemma_groups_model_len(a);
    lemma_groups_model_len(b);
    lemma_groups_model_len(a + b);
    let rhs = groups_model(a) + groups_model(b);
    assert forall|i: int| 0 <= i < groups_model(a + b).len() implies groups_model(a + b)[i]
        == rhs[i] by {
        lemma_groups_model_index(a + b, i);
        if i < a.len() {
            lemma_groups_model_index(a, i);
            assert((a + b)[i] == a[i]);
        } else {
            lemma_groups_model_index(b, i - a.len());
            assert((a + b)[i] == b[i - a.len()]);
        }
    }
    assert(groups_model(a + b) =~= rhs);
}

/// The view of all but the last element is the view without its last.
pub proof fn lemma_groups_model_drop_last(s: Seq<Group>)
    requires
        s.len() > 0,
    ensures
        groups_model(s.drop_last()) == groups_model(s).drop_last(),
{
    lemma_groups_model_len(s);
    lemma_groups_model_len(s.drop_last());
    assert forall|i: int| 0 <= i < groups_model(s.drop_last()).len() implies groups_model(
        s.drop_last(),
    )[i] == groups_model(s).drop_last()[i] by {
        lemma_groups_model_index(s.drop_last(), i);
        lemma_groups_model_index(s, i);
        assert(s.drop_last()[i] == s[i]);
    }
    assert(groups_model(s.drop_last()) =~= groups_model(s).drop_last());
}

impl GroupModel {
    /// A group is empty when it has neither child groups nor child tasks.
    pub open spec fn is_empty(self) -> bool {
        self.groups.len() == 0 && self.tasks.len() == 0
    }
}

/// Appending a task extends the task-sequence view by that task's view.
pub proof fn lemma_tasks_model_push(s: Seq<Task>, t: Task)
    ensures
        tasks_model(s.push(t)) == tasks_model(s).push(t@),
{
    assert(tasks_model(s.push(t)) =~= tasks_model(s).push(t@));
}

/// Clones an environment-entry list exactly.
pub(crate) fn clone_env(env: &Vec<(String, String)>) -> (r: Vec<(String, String)>)
    ensures
        r@ == env@,
{
    let mut r: Vec<(String, String)> = Vec::new();
    let mut i: usize = 0;
    while i < env.len()
        invariant
            i <= env.len(),
            r@ == env@.subrange(0, i as int),
        decreases env.len() - i,
    {
        let n = env[i].0.clone();
        let v = env[i].1.clone();
        r.push((n, v));
        proof {
            assert(r@ =~= env@.subrange(0, i + 1));
        }
        i = i + 1;
    }
    proof {
        assert(env@.subrange(0, env@.len() as int) =~= env@);
    }
    r
}

impl Clone for Task {
    /// A cloned task has the same model as the original.
    fn clone(&self) -> (t: Self)
        ensures
            t@ == self@,
    {
        let t = Task {
            name: self.name.clone(),
            key: self.key,
            cmd: self.cmd.clone(),
            confirm: self.confirm,
            clear: self.clear,
            working_dir: match &self.working_dir {
                Option::Some(d) => Option::Some(d.clone()),
                Option::None => Option::None,
            },
            env: clone_env(&self.env),
            clear_env: self.clear_env,
        };
        proof {
            assert(t@ =~= self@);
        }
        t
    }
}

impl Clone for Group {
    /// A cloned group has the same model as the original, children included.
    fn clone(&self) -> (g: Self)
        ensures
            g@ == self@,
        decreases *self,
    {
        let mut groups: Vec<Group> = Vec::new();
        let mut i: usize = 0;
        while i < self.groups.len()
            invariant
                i <= self.groups.len(),
                groups_model(groups@) == groups_model(self.groups@.subrange(0, i as int)),
            decreases self.groups.len() - i,
        {
            let child = self.groups[i].clone();
            proof {
                lemma_groups_model_push(groups@, child);
                lemma_groups_model_push(
                    self.groups@.subrange(0, i as int),
                    self.groups@[i as int],
                );
                assert(self.groups@.subrange(0, i + 1) =~= self.groups@.subrange(
                    0,
                    i as int,
                ).push(self.groups@[i as int]));
            }
            groups.push(child);
            i = i + 1;
        }
        let mut tasks: Vec<Task> = Vec::new();
        let mut j: usize = 0;
        while j < self.tasks.len()
            invariant
                j <= self.tasks.len(),
                tasks_model(tasks@) == tasks_model(self.tasks@.subrange(0, j as int)),
            decreases self.tasks.len() - j,
        {
            let t = self.tasks[j].clone();
            proof {
                lemma_tasks_model_push(tasks@, t);
                lemma_tasks_model_push(
                    self.tasks@.subrange(0, j as int),
                    self.tasks@[j as int],
                );
                assert(self.tasks@.subrange(0, j + 1) =~= self.tasks@.subrange(
                    0,
                    j as int,
                ).push(self.tasks@[j as int]));
            }
            tasks.push(t);
            j = j + 1;
        }
        let g = Group { name: self.name.clone(), key: self.key, groups, tasks };
        proof {
            assert(self.groups@.subrange(0, self.groups@.len() as int) =~= self.groups@);
            assert(self.tasks@.subrange(0, self.tasks@.len() as int) =~= self.tasks@);
            assert(g@ =~= self@);
        }
        g
    }
}

/// Appending a group extends the group-sequence view by that group's view.
pub proof fn lemma_groups_model_push(s: Seq<Group>, g: Group)
    ensures
        groups_model(s.push(g)) == groups_model(s).push(group_model(g)),
{
    assert(s.push(g).drop_last() =~= s);
    assert(s.push(g).last() == g);
}

impl Group {
    /// True iff this group has neither child groups nor child tasks.
    pub fn is_empty(&self) -> (r: bool)
        ensures
            r == self@.is_empty(),
    {
        proof {
            lemma_groups_model_len(self.groups@);
        }
        self.tasks.len() == 0 && self.groups.len() == 0
    }
}

} // verus!
