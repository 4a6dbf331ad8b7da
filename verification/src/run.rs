//! The execution controller's decisions and the process-spawn plan.
//!
//! Running a task is wired up outside the library; everything the
//! controller decides — whether to confirm, what to do next, which
//! command line, directory and environment the child gets — is computed
//! and specified here.

use vstd::prelude::*;

use crate::model::{Task, env_model};
use crate::nav::KeyInput;

verus! {

/// What the user chose at the confirmation prompt.
pub enum NextAction {
    /// Carry on: back to the menu in loop mode, else leave the program.
    Continue,
    /// Leave the program.
    Exit,
    /// Back to the menu to select another task.
    SelectTask,
    /// Run the same task once more.
    RepeatTask,
}

/// Where the controller goes after a run.
pub enum Flow {
    /// Back to the selection menu.
    SelectAgain,
    /// Run the same task again.
    RepeatTask,
    /// Leave the program.
    ExitProgram,
}

/// The confirmation prompt is shown iff the run failed, or the task asks
/// for it, or the global flag asks for it.
pub fn should_confirm(success: bool, task_confirm: bool, global_confirm: bool) -> (r: bool)
    ensures
        r == (!success || task_confirm || global_confirm),
{
    !success || task_confirm || global_confirm
}

/// Reads one prompt key: Enter carries on, `q` or Esc leaves, `r`
/// repeats, `s` reselects; any other key is ignored and the prompt keeps
/// waiting.
pub fn confirm_decision(key: KeyInput) -> (r: Option<NextAction>)
    ensures
        match key {
            KeyInput::Enter => r matches Option::Some(NextAction::Continue),
            KeyInput::Esc => r matches Option::Some(NextAction::Exit),
            KeyInput::Character(ch, _) => if ch == 'q' {
                r matches Option::Some(NextAction::Exit)
            } else if ch == 'r' {
                r matches Option::Some(NextAction::RepeatTask)
            } else if ch == 's' {
                r matches Option::Some(NextAction::SelectTask)
            } else {
                r is None
            },
            _ => r is None,
        },
{
    match key {
        KeyInput::Enter => Option::Some(NextAction::Continue),
        KeyInput::Esc => Option::Some(NextAction::Exit),
        KeyInput::Character(ch, _) => {
            if ch == 'q' {
                Option::Some(NextAction::Exit)
            } else if ch == 'r' {
                Option::Some(NextAction::RepeatTask)
            } else if ch == 's' {
                Option::Some(NextAction::SelectTask)
            } else {
                Option::None
            }
        },
        _ => Option::None,
    }
}

/// Turns the prompt's choice into the controller's next move: carrying
/// on means reselection in loop mode and leaving otherwise; leaving
/// always leaves; repeat and reselect do what they say.
pub fn next_flow(action: NextAction, loop_mode: bool) -> (f: Flow)
    ensures
        match action {
            NextAction::Continue => if loop_mode {
                f matches Flow::SelectAgain
            } else {
                f matches Flow::ExitProgram
            },
            NextAction::Exit => f matches Flow::ExitProgram,
            NextAction::RepeatTask => f matches Flow::RepeatTask,
            NextAction::SelectTask => f matches Flow::SelectAgain,
        },
{
    match action {
        NextAction::Continue => if loop_mode {
            Flow::SelectAgain
        } else {
            Flow::ExitProgram
        },
        NextAction::Exit => Flow::ExitProgram,
        NextAction::RepeatTask => Flow::RepeatTask,
        NextAction::SelectTask => Flow::SelectAgain,
    }
}

/// After a run without a prompt: back to the menu in loop mode, else
/// leave the program.
pub fn flow_without_confirm(loop_mode: bool) -> (f: Flow)
    ensures
        loop_mode ==> f matches Flow::SelectAgain,
        !loop_mode ==> f matches Flow::ExitProgram,
{
    if loop_mode {
        Flow::SelectAgain
    } else {
        Flow::ExitProgram
    }
}

/// The one-line status summary of a finished run.
pub open spec fn status_line_model(name: Seq<char>, success: bool, status: Seq<char>) -> Seq<
    char,
> {
    if success {
        "Task "@ + name + " completed"@
    } else {
        "Task "@ + name + " failed ("@ + status + ")"@
    }
}

/// Builds the status summary: "Task `<name>` completed" on success,
/// "Task `<name>` failed (`<status>`)" otherwise.
pub fn format_status_line(name: &str, success: bool, status: &str) -> (r: String)
    ensures
        r@ == status_line_model(name@, success, status@),
{
    let mut out = "Task ".to_owned();
    out.append(name);
    if success {
        out.append(" completed");
    } else {
        out.append(" failed (");
        out.append(status);
        out.append(")");
    }
    out
}

/// Everything the process runner needs to spawn one task.
pub struct SpawnPlan {
    /// The program to start: always the shell.
    pub program: String,
    /// The shell's arguments: `-c` and the exec-wrapped command line.
    pub args: Vec<String>,
    /// The child's working directory.
    pub working_dir: String,
    /// Whether the child starts from an empty environment.
    pub clear_env: bool,
    /// The extra environment entries laid over the child's environment.
    pub env: Vec<(String, String)>,
}

/// Lays out the spawn of a task: the shell replaces itself with the
/// command (`sh -c "exec <cmd>"`), the working directory is the task's
/// resolved one or the caller's current directory, and the task's
/// environment entries ride along.
pub fn plan_spawn(task: &Task, current_dir: &str) -> (p: SpawnPlan)
    ensures
        p.program@ == "sh"@,
        p.args@.len() == 2,
        p.args@[0]@ == "-c"@,
        p.args@[1]@ == "exec "@ + task.cmd@,
        p.working_dir@ == (match task@.working_dir {
            Option::Some(w) => w,
            Option::None => current_dir@,
        }),
        p.clear_env == task.clear_env,
        env_model(p.env@) == task@.env,
{
    let mut cmdline = "exec ".to_owned();
    cmdline.append(task.cmd.as_str());
    let mut args: Vec<String> = Vec::new();
    args.push("-c".to_owned());
    args.push(cmdline);
    let working_dir = match &task.working_dir {
        Option::Some(w) => w.clone(),
        Option::None => current_dir.to_owned(),
    };
    SpawnPlan {
        program: "sh".to_owned(),
        args,
        working_dir,
        clear_env: task.clear_env,
        env: crate::model::clone_env(&task.env),
    }
}

/// One environment entry set into a list: an existing name keeps its
/// place and takes the new value, a fresh name goes to the end.
pub open spec fn env_set(
    acc: Seq<(Seq<char>, Seq<char>)>,
    name: Seq<char>,
    val: Seq<char>,
) -> Seq<(Seq<char>, Seq<char>)>
    decreases acc.len(),
{
    if acc.len() == 0 {
        seq![(name, val)]
    } else if acc[0].0 == name {
        seq![(acc[0].0, val)] + acc.drop_first()
    } else {
        seq![acc[0]] + env_set(acc.drop_first(), name, val)
    }
}

/// A list of entries laid over a base list, one after the other.
pub open spec fn env_apply(
    acc: Seq<(Seq<char>, Seq<char>)>,
    overrides: Seq<(Seq<char>, Seq<char>)>,
) -> Seq<(Seq<char>, Seq<char>)>
    decreases overrides.len(),
{
    if overrides.len() == 0 {
        acc
    } else {
        env_apply(env_set(acc, overrides[0].0, overrides[0].1), overrides.drop_first())
    }
}

/// The child's environment entries: the inherited ones unless the task
/// clears them, with the task's own entries set over them.
pub open spec fn child_env_model(
    clear_env: bool,
    inherited: Seq<(Seq<char>, Seq<char>)>,
    overrides: Seq<(Seq<char>, Seq<char>)>,
) -> Seq<(Seq<char>, Seq<char>)> {
    env_apply(
        if clear_env {
            Seq::empty()
        } else {
            inherited
        },
        overrides,
    )
}

/// Setting a name that is already present updates it in place.
proof fn lemma_env_set_found(acc: Seq<(Seq<char>, Seq<char>)>, name: Seq<char>, val: Seq<char>, j: int)
    requires
        0 <= j < acc.len(),
        acc[j].0 == name,
        forall|k: int| 0 <= k < j ==> acc[k].0 != name,
    ensures
        env_set(acc, name, val) == acc.update(j, (acc[j].0, val)),
    decreases j,
{
    if j == 0 {
        assert(env_set(acc, name, val) =~= acc.update(0, (acc[0].0, val)));
    } else {
        assert(acc.drop_first()[j - 1] == acc[j]);
        lemma_env_set_found(acc.drop_first(), name, val, j - 1);
        assert(env_set(acc, name, val) =~= acc.update(j, (acc[j].0, val)));
    }
}

/// Setting a fresh name appends it.
proof fn lemma_env_set_missing(acc: Seq<(Seq<char>, Seq<char>)>, name: Seq<char>, val: Seq<char>)
    requires
        forall|k: int| 0 <= k < acc.len() ==> acc[k].0 != name,
    ensures
        env_set(acc, name, val) == acc.push((name, val)),
    decreases acc.len(),
{
    if acc.len() == 0 {
        assert(env_set(acc, name, val) =~= acc.push((name, val)));
    } else {
        lemma_env_set_missing(acc.drop_first(), name, val);
        assert(env_set(acc, name, val) =~= acc.push((name, val)));
    }
}

/// Sets one entry into the list, as [`env_set`] describes.
fn env_set_exec(acc: &mut Vec<(String, String)>, name: String, val: String)
    ensures
        env_model(final(acc)@) == env_set(env_model(old(acc)@), name@, val@),
{
    let mut i: usize = 0;
    while i < acc.len()
        invariant
            i <= acc@.len(),
            *acc == *old(acc),
            forall|k: int| 0 <= k < i ==> env_model(acc@)[k].0 != name@,
        decreases acc@.len() - i,
    {
        if acc[i].0 == name {
            let old_pair = acc.remove(i);
            acc.insert(i, (old_pair.0, val));
            proof {
                lemma_env_set_found(env_model(old(acc)@), name@, val@, i as int);
                assert(acc@ =~= old(acc)@.update(i as int, acc@[i as int]));
                assert(env_model(acc@) =~= env_set(env_model(old(acc)@), name@, val@));
            }
            return ;
        }
        i = i + 1;
    }
    proof {
        lemma_env_set_missing(env_model(acc@), name@, val@);
    }
    let ghost nm = name@;
    let ghost vm = val@;
    acc.push((name, val));
    proof {
        assert(env_model(acc@) =~= env_model(old(acc)@).push((nm, vm)));
    }
}

/// Builds the child's environment entries: exactly the task's own when
/// the environment is cleared, the inherited ones with the task's set
/// over them otherwise.
pub fn child_env(
    clear_env: bool,
    inherited: Vec<(String, String)>,
    overrides: &Vec<(String, String)>,
) -> (r: Vec<(String, String)>)
    ensures
        env_model(r@) == child_env_model(
            clear_env,
            env_model(inherited@),
            env_model(overrides@),
        ),
{
    let ghost target = child_env_model(clear_env, env_model(inherited@), env_model(overrides@));
    let ghost full = env_model(overrides@);
    let mut acc = if clear_env {
        Vec::new()
    } else {
        inherited
    };
    proof {
        if clear_env {
            assert(env_model(acc@) =~= Seq::<(Seq<char>, Seq<char>)>::empty());
        }
        assert(full.subrange(0, full.len() as int) =~= full);
    }
    let mut i: usize = 0;
    while i < overrides.len()
        invariant
            i <= overrides@.len(),
            full == env_model(overrides@),
            env_apply(env_model(acc@), full.subrange(i as int, full.len() as int)) == target,
        decreases overrides@.len() - i,
    {
        let ghost remaining = full.subrange(i as int, full.len() as int);
        let n = overrides[i].0.clone();
        let v = overrides[i].1.clone();
        proof {
            assert(remaining[0] == full[i as int]);
            assert(remaining.drop_first() =~= full.subrange(i + 1, full.len() as int));
        }
        env_set_exec(&mut acc, n, v);
        i = i + 1;
    }
    proof {
        assert(full.subrange(full.len() as int, full.len() as int)
            =~= Seq::<(Seq<char>, Seq<char>)>::empty());
    }
    acc
}

/// With a cleared environment and pairwise-distinct entry names, the
/// child's environment is exactly the task's own entries: nothing
/// inherited survives.
pub proof fn lemma_env_isolation(
    inherited: Seq<(Seq<char>, Seq<char>)>,
    overrides: Seq<(Seq<char>, Seq<char>)>,
)
    requires
        forall|i: int, j: int|
            0 <= i < j < overrides.len() ==> overrides[i].0 != overrides[j].0,
    ensures
        child_env_model(true, inherited, overrides) == overrides,
{
    lemma_env_apply_fresh(Seq::empty(), overrides);
    assert(Seq::<(Seq<char>, Seq<char>)>::empty() + overrides =~= overrides);
}

/// Laying pairwise-fresh entries over a list appends them in order.
proof fn lemma_env_apply_fresh(
    acc: Seq<(Seq<char>, Seq<char>)>,
    overrides: Seq<(Seq<char>, Seq<char>)>,
)
    requires
        forall|i: int, j: int|
            0 <= i < j < overrides.len() ==> overrides[i].0 != overrides[j].0,
        forall|i: int, k: int|
            0 <= i < overrides.len() && 0 <= k < acc.len() ==> acc[k].0 != overrides[i].0,
    ensures
        env_apply(acc, overrides) == acc + overrides,
    decreases overrides.len(),
{
    if overrides.len() == 0 {
        assert(acc + overrides =~= acc);
    } else {
        let first = overrides[0];
        assert forall|k: int| 0 <= k < acc.len() implies acc[k].0 != first.0 by {}
        lemma_env_set_missing(acc, first.0, first.1);
        let acc1 = acc.push(first);
        let rest = overrides.drop_first();
        assert forall|i: int, k: int|
            0 <= i < rest.len() && 0 <= k < acc1.len() implies acc1[k].0 != rest[i].0 by {
            assert(rest[i] == overrides[i + 1]);
            if k < acc.len() {
                assert(acc1[k] == acc[k]);
            } else {
                assert(acc1[k] == overrides[0]);
            }
        }
        assert forall|i: int, j: int| 0 <= i < j < rest.len() implies rest[i].0 != rest[j].0 by {
            assert(rest[i] == overrides[i + 1]);
            assert(rest[j] == overrides[j + 1]);
        }
        lemma_env_apply_fresh(acc1, rest);
        assert(acc1 + rest =~= acc + overrides);
    }
}

} // verus!
