//! Plain-string path arithmetic and the configuration search path.
//!
//! Paths are modelled as character sequences. Joining follows the usual
//! rule that an absolute right-hand side replaces the base; the parent of
//! a path is everything before its last separator.

use vstd::prelude::*;

use crate::model::{Group, GroupModel, Task, TaskModel};
use crate::model::{gm_size, gm_size_seq, group_model, groups_model, tasks_model};
use crate::model::{
    lemma_gm_size_seq_element, lemma_groups_model_push, lemma_tasks_model_push,
};

verus! {

broadcast use crate::model::lemma_groups_model_len, crate::model::lemma_groups_model_index;

/// True iff the path starts with a separator.
pub open spec fn is_absolute_model(p: Seq<char>) -> bool {
    p.len() > 0 && p[0] == '/'
}

/// Joining a base directory and a path: an absolute path replaces the
/// base, an empty base disappears, and exactly one separator is kept
/// between the parts.
pub open spec fn path_join_model(base: Seq<char>, rel: Seq<char>) -> Seq<char> {
    if is_absolute_model(rel) {
        rel
    } else if base.len() == 0 {
        rel
    } else if base.last() == '/' {
        base + rel
    } else {
        base + seq!['/'] + rel
    }
}

/// The position of the last separator, or -1 when there is none.
pub open spec fn last_slash(p: Seq<char>) -> int
    decreases p.len(),
{
    if p.len() == 0 {
        -1
    } else if p.last() == '/' {
        p.len() - 1
    } else {
        last_slash(p.drop_last())
    }
}

/// The last separator lies inside the path, when there is one.
pub proof fn lemma_last_slash_range(p: Seq<char>)
    ensures
        -1 <= last_slash(p) < p.len(),
    decreases p.len(),
{
    if p.len() > 0 && p.last() != '/' {
        lemma_last_slash_range(p.drop_last());
    }
}

/// The parent directory: everything before the last separator. The root
/// and a path without any separator have no parent directory other than
/// the conventional ones: the root has none, a bare name's parent is the
/// empty path.
pub open spec fn path_parent_model(p: Seq<char>) -> Option<Seq<char>> {
    if p.len() == 0 {
        Option::None
    } else if p.len() == 1 && p[0] == '/' {
        Option::None
    } else {
        let i = last_slash(p);
        if i == -1 {
            Option::Some(Seq::empty())
        } else if i == 0 {
            Option::Some(seq!['/'])
        } else {
            Option::Some(p.subrange(0, i))
        }
    }
}

/// A parent path is strictly shorter than its child.
pub proof fn lemma_parent_shorter(p: Seq<char>)
    requires
        path_parent_model(p) is Some,
    ensures
        path_parent_model(p)->Some_0.len() < p.len(),
{
    lemma_last_slash_range(p);
    if p.len() == 1 {
        reveal_with_fuel(last_slash, 2);
        assert(p.drop_last() =~= Seq::<char>::empty());
    }
}

/// View of an optional owned string.
pub open spec fn opt_str_view(o: Option<String>) -> Option<Seq<char>> {
    match o {
        Option::Some(s) => Option::Some(s@),
        Option::None => Option::None,
    }
}

/// View of a list of owned strings.
pub open spec fn strings_model(s: Seq<String>) -> Seq<Seq<char>> {
    s.map_values(|x: String| x@)
}

/// Appending a string extends the view by that string's characters.
pub proof fn lemma_strings_model_push(s: Seq<String>, x: String)
    ensures
        strings_model(s.push(x)) == strings_model(s).push(x@),
{
    assert(strings_model(s.push(x)) =~= strings_model(s).push(x@));
}

/// Joins a base directory and a path.
pub fn path_join(base: &str, rel: &str) -> (r: String)
    ensures
        r@ == path_join_model(base@, rel@),
{
    let rlen = rel.unicode_len();
    if rlen > 0 && rel.get_char(0) == '/' {
        return rel.to_owned();
    }
    let blen = base.unicode_len();
    if blen == 0 {
        return rel.to_owned();
    }
    let mut out = base.to_owned();
    if base.get_char(blen - 1) != '/' {
        out.append("/");
        proof {
            reveal_strlit("/");
            assert("/"@ =~= seq!['/']);
        }
    }
    out.append(rel);
    proof {
        if base@.last() == '/' {
            assert(out@ == base@ + rel@);
        } else {
            assert(out@ == base@ + seq!['/'] + rel@);
        }
    }
    out
}

/// The parent directory of a path, as [`path_parent_model`] gives it.
pub fn path_parent(p: &str) -> (r: Option<String>)
    ensures
        opt_str_view(r) == path_parent_model(p@),
{
    let n = p.unicode_len();
    if n == 0 {
        return Option::None;
    }
    if n == 1 && p.get_char(0) == '/' {
        return Option::None;
    }
    proof {
        assert(p@.subrange(0, n as int) =~= p@);
    }
    let mut j = n;
    while j > 0
        invariant
            j <= n,
            n == p@.len(),
            n > 0,
            !(n == 1 && p@[0] == '/'),
            last_slash(p@) == last_slash(p@.subrange(0, j as int)),
        decreases j,
    {
        if p.get_char(j - 1) == '/' {
            proof {
                let pre = p@.subrange(0, j as int);
                assert(pre.last() == p@[j - 1]);
                assert(last_slash(p@) == j - 1);
            }
            if j - 1 == 0 {
                let root = "/".to_owned();
                proof {
                    reveal_strlit("/");
                    assert(root@ =~= seq!['/']);
                }
                return Option::Some(root);
            }
            let parent = p.substring_char(0, j - 1);
            return Option::Some(parent.to_owned());
        }
        proof {
            let pre = p@.subrange(0, j as int);
            assert(pre.last() == p@[j - 1]);
            assert(pre.drop_last() =~= p@.subrange(0, j - 1));
        }
        j = j - 1;
    }
    proof {
        assert(p@.subrange(0, 0) =~= Seq::<char>::empty());
        assert(last_slash(p@) == -1);
    }
    Option::Some(String::new())
}

/// The chain of directories from the start up to, and excluding, the
/// home directory: the start itself, then parent after parent. A chain
/// that never reaches home ends at the directory without a parent.
pub open spec fn walk_chain_model(start: Seq<char>, home: Seq<char>) -> Seq<Seq<char>>
    decreases start.len(),
        via walk_chain_dec
{
    if start == home {
        Seq::empty()
    } else {
        seq![start] + match path_parent_model(start) {
            Option::Some(d) => walk_chain_model(d, home),
            Option::None => Seq::empty(),
        }
    }
}

#[via_fn]
proof fn walk_chain_dec(start: Seq<char>, home: Seq<char>) {
    if start != home && path_parent_model(start) is Some {
        lemma_parent_shorter(start);
    }
}

/// Walks from the start directory towards the root, stopping as soon as
/// the home directory is reached; home itself is never collected.
pub fn walk_dirs(start: &str, home: &str) -> (r: Vec<String>)
    ensures
        strings_model(r@) == walk_chain_model(start@, home@),
{
    let home_s = home.to_owned();
    let mut out: Vec<String> = Vec::new();
    let mut cur = start.to_owned();
    loop
        invariant_except_break
            strings_model(out@) + walk_chain_model(cur@, home@) == walk_chain_model(
                start@,
                home@,
            ),
        invariant
            home_s@ == home@,
        ensures
            strings_model(out@) == walk_chain_model(start@, home@),
        decreases cur@.len(),
    {
        if cur == home_s {
            proof {
                assert(walk_chain_model(cur@, home@) =~= Seq::<Seq<char>>::empty());
                assert(strings_model(out@) + Seq::<Seq<char>>::empty() =~= strings_model(out@));
            }
            break ;
        }
        let ghost cv = cur@;
        let ghost prev = out@;
        let parent = path_parent(cur.as_str());
        proof {
            lemma_strings_model_push(prev, cur);
        }
        out.push(cur);
        match parent {
            Option::None => {
                proof {
                    assert(walk_chain_model(cv, home@) =~= seq![cv]);
                    assert(strings_model(prev).push(cv) =~= strings_model(prev) + seq![cv]);
                    assert(strings_model(out@) == walk_chain_model(start@, home@));
                }
                break ;
            },
            Option::Some(d) => {
                proof {
                    lemma_parent_shorter(cv);
                    assert(walk_chain_model(cv, home@) == seq![cv] + walk_chain_model(
                        d@,
                        home@,
                    ));
                    assert(strings_model(prev).push(cv) + walk_chain_model(d@, home@)
                        =~= strings_model(prev) + (seq![cv] + walk_chain_model(d@, home@)));
                }
                cur = d;
            },
        }
    }
    out
}

/// No directory of the walk is the home directory.
pub proof fn lemma_walk_excludes_home(start: Seq<char>, home: Seq<char>)
    ensures
        forall|i: int|
            0 <= i < walk_chain_model(start, home).len() ==> walk_chain_model(start, home)[i]
                != home,
    decreases start.len(),
{
    if start != home {
        let w = walk_chain_model(start, home);
        match path_parent_model(start) {
            Option::Some(d) => {
                lemma_parent_shorter(start);
                lemma_walk_excludes_home(d, home);
                assert forall|i: int| 0 <= i < w.len() implies w[i] != home by {
                    if i == 0 {
                        assert(w[i] == start);
                    } else {
                        assert(w[i] == walk_chain_model(d, home)[i - 1]);
                    }
                }
            },
            Option::None => {
                assert forall|i: int| 0 <= i < w.len() implies w[i] != home by {
                    assert(w[i] == start);
                }
            },
        }
    }
}

/// The home directory stands exactly once in the search path: as the
/// tier appended after the walk, and never inside the walk itself, even
/// though the walk stops exactly at the home directory.
pub proof fn lemma_home_tier_once(start: Seq<char>, home: Seq<char>)
    ensures
        ({
            let tiers = walk_chain_model(start, home).push(home);
            &&& tiers.last() == home
            &&& forall|i: int| 0 <= i < tiers.len() - 1 ==> tiers[i] != home
        }),
{
    lemma_walk_excludes_home(start, home);
}

/// The full, priority-ordered list of candidate configuration files:
/// one per directory of the upward walk, then the home tier, then the
/// per-user configuration tier.
pub open spec fn discovery_model(
    start: Seq<char>,
    home: Seq<char>,
    config_dir: Option<Seq<char>>,
    file: Seq<char>,
    app_dir: Seq<char>,
) -> Seq<Seq<char>> {
    walk_chain_model(start, home).map_values(|d: Seq<char>| path_join_model(d, file)) + seq![
        path_join_model(home, file),
    ] + match config_dir {
        Option::Some(c) => seq![path_join_model(path_join_model(c, app_dir), file)],
        Option::None => Seq::empty(),
    }
}

/// Builds the candidate configuration files, highest priority first.
pub fn discovery_list(
    start: &str,
    home: &str,
    config_dir: Option<String>,
    file_name: &str,
    app_dir: &str,
) -> (r: Vec<String>)
    ensures
        strings_model(r@) == discovery_model(
            start@,
            home@,
            opt_str_view(config_dir),
            file_name@,
            app_dir@,
        ),
{
    let walk = walk_dirs(start, home);
    let ghost chain = walk_chain_model(start@, home@);
    let mut out: Vec<String> = Vec::new();
    let mut i: usize = 0;
    while i < walk.len()
        invariant
            i <= walk@.len(),
            strings_model(walk@) == chain,
            strings_model(out@).len() == i,
            forall|k: int|
                0 <= k < i ==> strings_model(out@)[k] == path_join_model(
                    chain[k],
                    file_name@,
                ),
        decreases walk@.len() - i,
    {
        let joined = path_join(walk[i].as_str(), file_name);
        proof {
            lemma_strings_model_push(out@, joined);
        }
        out.push(joined);
        i = i + 1;
    }
    proof {
        assert(strings_model(out@) =~= chain.map_values(
            |d: Seq<char>| path_join_model(d, file_name@),
        ));
    }
    let ghost walk_part = strings_model(out@);
    let home_joined = path_join(home, file_name);
    proof {
        lemma_strings_model_push(out@, home_joined);
    }
    out.push(home_joined);
    match config_dir {
        Option::Some(c) => {
            let app = path_join(c.as_str(), app_dir);
            let cfg_joined = path_join(app.as_str(), file_name);
            proof {
                lemma_strings_model_push(out@, cfg_joined);
            }
            out.push(cfg_joined);
            proof {
                assert(strings_model(out@) =~= walk_part + seq![
                    path_join_model(home@, file_name@),
                ] + seq![path_join_model(path_join_model(c@, app_dir@), file_name@)]);
            }
        },
        Option::None => {
            proof {
                assert(strings_model(out@) =~= walk_part + seq![
                    path_join_model(home@, file_name@),
                ] + Seq::<Seq<char>>::empty());
            }
        },
    }
    out
}

/// A task after load-time resolution: a declared working directory is
/// re-anchored at the directory of the file that declared it.
pub open spec fn resolve_task_model(t: TaskModel, dir: Seq<char>) -> TaskModel {
    TaskModel {
        working_dir: match t.working_dir {
            Option::Some(w) => Option::Some(path_join_model(dir, w)),
            Option::None => Option::None,
        },
        ..t
    }
}

/// Load-time resolution over a sequence of tasks.
pub open spec fn resolve_tasks_model(s: Seq<TaskModel>, dir: Seq<char>) -> Seq<TaskModel> {
    s.map_values(|t: TaskModel| resolve_task_model(t, dir))
}

/// Load-time resolution over a whole tree.
pub open spec fn resolve_group_model(g: GroupModel, dir: Seq<char>) -> GroupModel
    decreases g, 1int,
{
    GroupModel {
        name: g.name,
        key: g.key,
        groups: resolve_groups_model(g.groups, dir),
        tasks: resolve_tasks_model(g.tasks, dir),
    }
}

/// Load-time resolution over a sequence of trees.
pub open spec fn resolve_groups_model(s: Seq<GroupModel>, dir: Seq<char>) -> Seq<GroupModel>
    decreases s, 0int,
{
    if s.len() == 0 {
        Seq::empty()
    } else {
        resolve_groups_model(s.drop_last(), dir).push(resolve_group_model(s.last(), dir))
    }
}

/// Appending a tree extends the resolved sequence by the resolved tree.
pub proof fn lemma_resolve_groups_push(s: Seq<GroupModel>, g: GroupModel, dir: Seq<char>)
    ensures
        resolve_groups_model(s.push(g), dir) == resolve_groups_model(s, dir).push(
            resolve_group_model(g, dir),
        ),
{
    assert(s.push(g).drop_last() =~= s);
    assert(s.push(g).last() == g);
}

/// Re-anchors one task's declared working directory at the given
/// directory; everything else is kept.
pub fn resolve_task(t: &Task, dir: &str) -> (out: Task)
    ensures
        out@ == resolve_task_model(t@, dir@),
{
    let mut out = t.clone();
    match &t.working_dir {
        Option::Some(w) => {
            out.working_dir = Option::Some(path_join(dir, w.as_str()));
        },
        Option::None => {},
    }
    proof {
        assert(out@ =~= resolve_task_model(t@, dir@));
    }
    out
}

/// Re-anchors every declared working directory of the tree at the given
/// directory: the directory containing the file the tree was read from.
pub fn resolve_working_dirs(g: &Group, dir: &str) -> (out: Group)
    ensures
        out@ == resolve_group_model(g@, dir@),
    decreases gm_size(g@),
{
    let mut groups: Vec<Group> = Vec::new();
    let mut i: usize = 0;
    while i < g.groups.len()
        invariant
            i <= g.groups@.len(),
            groups_model(groups@) == resolve_groups_model(
                groups_model(g.groups@.subrange(0, i as int)),
                dir@,
            ),
        decreases g.groups@.len() - i,
    {
        proof {
            lemma_gm_size_seq_element(groups_model(g.groups@), i as int);
            assert(gm_size(g.groups@[i as int]@) <= gm_size_seq(groups_model(g.groups@)));
        }
        let child = resolve_working_dirs(&g.groups[i], dir);
        proof {
            lemma_groups_model_push(groups@, child);
            let pre = groups_model(g.groups@.subrange(0, i as int));
            assert(g.groups@.subrange(0, i + 1) =~= g.groups@.subrange(0, i as int).push(
                g.groups@[i as int],
            ));
            crate::model::lemma_groups_model_push(
                g.groups@.subrange(0, i as int),
                g.groups@[i as int],
            );
            lemma_resolve_groups_push(pre, g.groups@[i as int]@, dir@);
        }
        groups.push(child);
        i = i + 1;
    }
    let mut tasks: Vec<Task> = Vec::new();
    let mut j: usize = 0;
    while j < g.tasks.len()
        invariant
            j <= g.tasks@.len(),
            tasks_model(tasks@) == resolve_tasks_model(
                tasks_model(g.tasks@.subrange(0, j as int)),
                dir@,
            ),
        decreases g.tasks@.len() - j,
    {
        let t = resolve_task(&g.tasks[j], dir);
        proof {
            lemma_tasks_model_push(tasks@, t);
            assert(g.tasks@.subrange(0, j + 1) =~= g.tasks@.subrange(0, j as int).push(
                g.tasks@[j as int],
            ));
            assert(tasks_model(tasks@).push(t@) =~= resolve_tasks_model(
                tasks_model(g.tasks@.subrange(0, j + 1)),
                dir@,
            ));
        }
        tasks.push(t);
        j = j + 1;
    }
    let out = Group { name: g.name.clone(), key: g.key, groups, tasks };
    proof {
        assert(g.groups@.subrange(0, g.groups@.len() as int) =~= g.groups@);
        assert(g.tasks@.subrange(0, g.tasks@.len() as int) =~= g.tasks@);
        assert(out@ =~= resolve_group_model(g@, dir@));
    }
    out
}

} // verus!
