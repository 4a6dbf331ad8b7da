use ttr::merge::merge_groups;
use ttr::model::{Group, Task};

fn task(name: &str, key: char, cmd: &str) -> Task {
    Task {
        name: name.to_string(),
        key,
        cmd: cmd.to_string(),
        confirm: false,
        clear: false,
        working_dir: None,
        env: Vec::new(),
        clear_env: false,
    }
}

fn group(name: &str, key: char, groups: Vec<Group>, tasks: Vec<Task>) -> Group {
    Group { name: name.to_string(), key, groups, tasks }
}

fn root(groups: Vec<Group>, tasks: Vec<Task>) -> Group {
    group("ROOT", '_', groups, tasks)
}

#[test]
fn check_iteration() {
    let mut g = group(
        "name",
        'c',
        vec![
            group("foo", 'f', vec![], vec![task("bar", 'b', "--")]),
            group("boo", 'u', vec![], vec![task("boo", 'o', "--")]),
        ],
        vec![],
    );
    let mut it = g.iter_mut();
    let mut names: Vec<String> = Vec::new();
    while let Some(t) = it.next() {
        names.push(t.name);
    }
    assert_eq!(vec!["boo", "bar"], names);
}

#[test]
fn iteration_of_empty_group_yields_nothing() {
    let mut g = group("empty", 'e', vec![], vec![]);
    let mut it = g.iter_mut();
    assert!(it.next().is_none());
}

#[test]
fn is_empty_looks_at_both_kinds_of_children() {
    assert!(group("g", 'g', vec![], vec![]).is_empty());
    assert!(!group("g", 'g', vec![], vec![task("t", 't', "true")]).is_empty());
    assert!(!group("g", 'g', vec![group("h", 'h', vec![], vec![])], vec![]).is_empty());
}

#[test]
fn merge_of_no_sources_is_the_empty_group() {
    let merged = merge_groups(vec![]);
    assert!(merged.is_empty());
    assert_eq!("", merged.name);
}

#[test]
fn merge_of_one_source_is_returned_unchanged() {
    let merged = merge_groups(vec![root(
        vec![group("foo", 'f', vec![], vec![])],
        vec![task("bar", 'b', "true")],
    )]);
    assert_eq!("ROOT", merged.name);
    assert_eq!('_', merged.key);
    assert_eq!(1, merged.groups.len());
    assert_eq!(1, merged.tasks.len());
    assert_eq!("bar", merged.tasks[0].name);
}

#[test]
fn duplicate_task_key_keeps_the_higher_priority_source() {
    let high = root(vec![], vec![task("from high", 'b', "echo high")]);
    let low = root(vec![], vec![task("from low", 'b', "echo low")]);
    let merged = merge_groups(vec![high, low]);
    assert_eq!(1, merged.tasks.len());
    assert_eq!("from high", merged.tasks[0].name);
    assert_eq!("echo high", merged.tasks[0].cmd);
}

#[test]
fn group_key_shadows_task_key() {
    let high = root(vec![group("menu", 'x', vec![], vec![])], vec![]);
    let low = root(vec![], vec![task("hidden", 'x', "true")]);
    let merged = merge_groups(vec![high, low]);
    assert_eq!(0, merged.tasks.len());
    assert_eq!(1, merged.groups.len());
    assert_eq!('x', merged.groups[0].key);
}

#[test]
fn task_survives_a_group_key_registered_only_later() {
    // The colliding group arrives from a source processed after the
    // task's source: the task was already claimed and stays.
    let high = root(vec![], vec![task("early", 'x', "true")]);
    let low = root(vec![group("late", 'x', vec![], vec![])], vec![]);
    let merged = merge_groups(vec![high, low]);
    assert_eq!(1, merged.tasks.len());
    assert_eq!("early", merged.tasks[0].name);
    assert_eq!(1, merged.groups.len());
    assert_eq!('x', merged.groups[0].key);
}

#[test]
fn same_key_subgroups_are_merged_recursively() {
    let high = root(
        vec![group("build", 'g', vec![], vec![task("fast", 'f', "make fast")])],
        vec![],
    );
    let low = root(
        vec![group("build", 'g', vec![], vec![
            task("fast", 'f', "make slow"),
            task("other", 'o', "make other"),
        ])],
        vec![],
    );
    let merged = merge_groups(vec![high, low]);
    assert_eq!(1, merged.groups.len());
    let build = &merged.groups[0];
    assert_eq!("build", build.name);
    assert_eq!(2, build.tasks.len());
    assert_eq!("fast", build.tasks[0].name);
    assert_eq!("make fast", build.tasks[0].cmd);
    assert_eq!("other", build.tasks[1].name);
}

#[test]
fn sources_of_a_different_identity_are_discarded() {
    let a = root(vec![], vec![task("kept", 'k', "true")]);
    let stray = group("other", 'z', vec![], vec![task("dropped", 'd', "true")]);
    let b = root(vec![], vec![task("kept too", 't', "true")]);
    let merged = merge_groups(vec![a, stray, b]);
    assert_eq!(2, merged.tasks.len());
    assert_eq!("kept", merged.tasks[0].name);
    assert_eq!("kept too", merged.tasks[1].name);
}
