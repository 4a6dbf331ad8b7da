use ttr::grid::{draw_items, grid_cell_index, grid_columns, grid_rows, truncate_name};
use ttr::merge::merge_groups;
use ttr::model::{Group, Task};
use ttr::nav::{KeyInput, NavError, NavOutcome, Navigator};
use ttr::run::{
    child_env, confirm_decision, flow_without_confirm, format_status_line, next_flow,
    plan_spawn, should_confirm, Flow, NextAction,
};

fn task(name: &str, key: char, cmd: &str) -> Task {
    Task {
        name: name.to_string(),
        key,
        cmd: cmd.to_string(),
        confirm: false,
        clear: false,
        working_dir: None,
        env: Vec::new(),
        clear_env: false,
    }
}

fn group(name: &str, key: char, groups: Vec<Group>, tasks: Vec<Task>) -> Group {
    Group { name: name.to_string(), key, groups, tasks }
}

fn pressed(ch: char) -> KeyInput {
    KeyInput::Character(ch, false)
}

#[test]
fn pushing_a_group_and_going_back_restores_the_stack() {
    let root = group("ROOT", '_', vec![group("foo", 'f', vec![], vec![])], vec![]);
    let mut nav = Navigator::new(root);
    assert_eq!(1, nav.depth());

    match nav.step(pressed('f')) {
        NavOutcome::Continue(None) => {},
        _ => panic!("expected a silent push"),
    }
    assert_eq!(2, nav.depth());
    let crumbs = nav.breadcrumbs();
    assert_eq!(1, crumbs.len());
    assert_eq!("foo", crumbs[0]);

    match nav.step(KeyInput::Backspace) {
        NavOutcome::Continue(None) => {},
        _ => panic!("expected a silent pop"),
    }
    assert_eq!(1, nav.depth());

    match nav.step(KeyInput::Backspace) {
        NavOutcome::Continue(Some(NavError::AtRoot)) => {},
        _ => panic!("expected the root error"),
    }
    assert_eq!(1, nav.depth());
}

#[test]
fn navigation_errors_and_quit() {
    let root = group("ROOT", '_', vec![], vec![task("bar", 'b', "true")]);
    let mut nav = Navigator::new(root);
    match nav.step(pressed(' ')) {
        NavOutcome::Continue(Some(NavError::Whitespace)) => {},
        _ => panic!("expected the whitespace error"),
    }
    match nav.step(pressed('z')) {
        NavOutcome::Continue(Some(NavError::NoMatch('z'))) => {},
        _ => panic!("expected the no-match error"),
    }
    match nav.step(KeyInput::Character('b', true)) {
        NavOutcome::Continue(Some(NavError::NotCharacter)) => {},
        _ => panic!("expected the character-key error"),
    }
    match nav.step(KeyInput::Enter) {
        NavOutcome::Continue(Some(NavError::NotCharacter)) => {},
        _ => panic!("expected the character-key error"),
    }
    match nav.step(pressed('q')) {
        NavOutcome::Quit => {},
        _ => panic!("expected quit"),
    }
}

#[test]
fn selecting_a_task_returns_it() {
    let root = group("ROOT", '_', vec![], vec![task("bar", 'b', "echo hi")]);
    let mut nav = Navigator::new(root);
    match nav.step(pressed('b')) {
        NavOutcome::Selected(t) => {
            assert_eq!("bar", t.name);
            assert_eq!("echo hi", t.cmd);
        },
        _ => panic!("expected a selection"),
    }
}

#[test]
fn end_to_end_select_run_and_confirm() {
    // Group f ("foo") holds task b ("bar", succeeds) and task o ("boo",
    // fails); default flags everywhere.
    let source = group(
        "ROOT",
        '_',
        vec![group("foo", 'f', vec![], vec![
            task("bar", 'b', "true"),
            task("boo", 'o', "false"),
        ])],
        vec![],
    );
    let merged = merge_groups(vec![source]);

    let mut nav = Navigator::new(merged.clone());
    assert!(matches!(nav.step(pressed('f')), NavOutcome::Continue(None)));
    let bar = match nav.step(pressed('b')) {
        NavOutcome::Selected(t) => t,
        _ => panic!("expected bar"),
    };
    let plan = plan_spawn(&bar, "/cwd");
    assert_eq!("sh", plan.program);
    assert_eq!(vec!["-c".to_string(), "exec true".to_string()], plan.args);
    assert_eq!("/cwd", plan.working_dir);
    // `true` exits successfully: no confirmation with default flags,
    // and without loop mode the program ends.
    assert!(!should_confirm(true, bar.confirm, false));
    assert!(matches!(flow_without_confirm(false), Flow::ExitProgram));

    let mut nav = Navigator::new(merged);
    assert!(matches!(nav.step(pressed('f')), NavOutcome::Continue(None)));
    let boo = match nav.step(pressed('o')) {
        NavOutcome::Selected(t) => t,
        _ => panic!("expected boo"),
    };
    assert_eq!("exec false", plan_spawn(&boo, "/cwd").args[1]);
    // `false` fails: the confirmation prompt appears, and each prompt
    // key produces its documented transition.
    assert!(should_confirm(false, boo.confirm, false));
    assert!(matches!(confirm_decision(pressed('r')), Some(NextAction::RepeatTask)));
    assert!(matches!(
        next_flow(NextAction::RepeatTask, false),
        Flow::RepeatTask
    ));
    assert!(matches!(confirm_decision(pressed('s')), Some(NextAction::SelectTask)));
    assert!(matches!(
        next_flow(NextAction::SelectTask, false),
        Flow::SelectAgain
    ));
    assert!(matches!(confirm_decision(KeyInput::Enter), Some(NextAction::Continue)));
    assert!(matches!(next_flow(NextAction::Continue, false), Flow::ExitProgram));
    assert!(matches!(next_flow(NextAction::Continue, true), Flow::SelectAgain));
    assert!(matches!(confirm_decision(pressed('q')), Some(NextAction::Exit)));
    assert!(matches!(confirm_decision(KeyInput::Esc), Some(NextAction::Exit)));
    assert!(matches!(next_flow(NextAction::Exit, true), Flow::ExitProgram));
    assert!(confirm_decision(pressed('x')).is_none());
}

#[test]
fn confirmation_policy_follows_task_and_global_flags() {
    assert!(should_confirm(false, false, false));
    assert!(should_confirm(true, true, false));
    assert!(should_confirm(true, false, true));
    assert!(!should_confirm(true, false, false));
}

#[test]
fn status_line_reports_both_outcomes() {
    assert_eq!("Task bar completed", format_status_line("bar", true, ""));
    assert_eq!(
        "Task bar failed (exit status: 1)",
        format_status_line("bar", false, "exit status: 1")
    );
}

#[test]
fn cleared_environment_holds_only_the_tasks_entries() {
    let inherited = vec![("GLOBAL_VAR_234".to_string(), "global".to_string())];
    let overrides = vec![("FOO".to_string(), "bar".to_string())];
    let env = child_env(true, inherited, &overrides);
    assert_eq!(vec![("FOO".to_string(), "bar".to_string())], env);
}

#[test]
fn inherited_environment_is_kept_and_overridden() {
    let inherited = vec![
        ("GLOBAL_VAR_123".to_string(), "present".to_string()),
        ("FOO".to_string(), "old".to_string()),
    ];
    let overrides = vec![("FOO".to_string(), "bar".to_string())];
    let env = child_env(false, inherited, &overrides);
    assert_eq!(
        vec![
            ("GLOBAL_VAR_123".to_string(), "present".to_string()),
            ("FOO".to_string(), "bar".to_string()),
        ],
        env
    );
}

#[test]
fn spawn_plan_carries_the_tasks_environment() {
    let mut t = task("bar", 'b', "env");
    t.env.push(("FOO".to_string(), "bar".to_string()));
    t.clear_env = true;
    t.working_dir = Some("/already".to_string());
    let plan = plan_spawn(&t, "/cwd");
    assert!(plan.clear_env);
    assert_eq!(vec![("FOO".to_string(), "bar".to_string())], plan.env);
    assert_eq!("/already", plan.working_dir);
}

#[test]
fn grid_geometry_follows_the_sizing_rule() {
    assert_eq!(3, grid_columns(80));
    assert_eq!(1, grid_columns(30));
    assert_eq!(1, grid_columns(10));
    assert_eq!(3, grid_rows(7, 3));
    assert_eq!(2, grid_rows(6, 3));
    assert_eq!(0, grid_rows(0, 3));
    assert_eq!(Some(0), grid_cell_index(0, 0, 3, 7));
    assert_eq!(Some(5), grid_cell_index(2, 1, 3, 7));
    assert_eq!(None, grid_cell_index(2, 2, 3, 7));
}

#[test]
fn long_names_are_cut_with_an_ellipsis() {
    assert_eq!("short", truncate_name("short"));
    assert_eq!("exactly12chr", truncate_name("exactly12chr"));
    assert_eq!("quite a lon…", truncate_name("quite a long name"));
}

#[test]
fn menu_lists_groups_before_tasks() {
    let g = group(
        "ROOT",
        '_',
        vec![group("alpha", 'a', vec![], vec![])],
        vec![task("beta", 'b', "true")],
    );
    let items = draw_items(&g);
    assert_eq!(2, items.len());
    assert_eq!('a', items[0].key());
    assert_eq!("alpha", items[0].name());
    assert_eq!('b', items[1].key());
    assert_eq!("beta", items[1].name());
}
