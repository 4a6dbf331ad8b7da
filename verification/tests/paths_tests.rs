use ttr::model::{Group, Task};
use ttr::paths::{discovery_list, path_join, path_parent, resolve_working_dirs, walk_dirs};

fn task_with_dir(name: &str, key: char, dir: Option<&str>) -> Task {
    Task {
        name: name.to_string(),
        key,
        cmd: "true".to_string(),
        confirm: false,
        clear: false,
        working_dir: dir.map(|d| d.to_string()),
        env: Vec::new(),
        clear_env: false,
    }
}

#[test]
fn join_appends_a_relative_path() {
    assert_eq!("/project/sub", path_join("/project", "sub"));
    assert_eq!("/project/sub", path_join("/project/", "sub"));
    assert_eq!("a/b", path_join("a", "b"));
}

#[test]
fn join_lets_an_absolute_path_replace_the_base() {
    assert_eq!("/elsewhere", path_join("/project", "/elsewhere"));
}

#[test]
fn join_with_an_empty_base_keeps_the_path() {
    assert_eq!("sub", path_join("", "sub"));
}

#[test]
fn parent_walks_one_directory_up() {
    assert_eq!(Some("/a/b".to_string()), path_parent("/a/b/c"));
    assert_eq!(Some("/".to_string()), path_parent("/a"));
    assert_eq!(None, path_parent("/"));
    assert_eq!(None, path_parent(""));
    assert_eq!(Some("".to_string()), path_parent("name"));
}

#[test]
fn walk_stops_before_home() {
    let dirs = walk_dirs("/home/user/code/proj", "/home/user");
    assert_eq!(vec!["/home/user/code/proj".to_string(), "/home/user/code".to_string()], dirs);
}

#[test]
fn walk_from_home_itself_is_empty() {
    let dirs = walk_dirs("/home/user", "/home/user");
    assert!(dirs.is_empty());
}

#[test]
fn walk_without_reaching_home_ends_at_the_root() {
    let dirs = walk_dirs("/srv/app", "/home/user");
    assert_eq!(
        vec!["/srv/app".to_string(), "/srv".to_string(), "/".to_string()],
        dirs
    );
}

#[test]
fn home_config_appears_exactly_once() {
    let candidates = discovery_list(
        "/home/user/code/proj",
        "/home/user",
        Some("/home/user/.config".to_string()),
        ".ttr.yaml",
        "ttr",
    );
    assert_eq!(
        vec![
            "/home/user/code/proj/.ttr.yaml".to_string(),
            "/home/user/code/.ttr.yaml".to_string(),
            "/home/user/.ttr.yaml".to_string(),
            "/home/user/.config/ttr/.ttr.yaml".to_string(),
        ],
        candidates
    );
    let home_config = "/home/user/.ttr.yaml";
    let occurrences = candidates.iter().filter(|c| c.as_str() == home_config).count();
    assert_eq!(1, occurrences);
}

#[test]
fn discovery_without_a_config_dir_has_two_tiers() {
    let candidates = discovery_list("/home/user", "/home/user", None, ".ttr.yaml", "ttr");
    assert_eq!(vec!["/home/user/.ttr.yaml".to_string()], candidates);
}

#[test]
fn working_dir_resolves_against_the_config_files_directory() {
    let g = Group {
        name: "ROOT".to_string(),
        key: '_',
        groups: vec![Group {
            name: "inner".to_string(),
            key: 'i',
            groups: vec![],
            tasks: vec![task_with_dir("deep", 'd', Some("deeper"))],
        }],
        tasks: vec![
            task_with_dir("rel", 'r', Some("sub")),
            task_with_dir("abs", 'a', Some("/already/there")),
            task_with_dir("none", 'n', None),
        ],
    };
    let resolved = resolve_working_dirs(&g, "/project");
    assert_eq!(Some("/project/sub".to_string()), resolved.tasks[0].working_dir);
    assert_eq!(Some("/already/there".to_string()), resolved.tasks[1].working_dir);
    assert_eq!(None, resolved.tasks[2].working_dir);
    assert_eq!(
        Some("/project/deeper".to_string()),
        resolved.groups[0].tasks[0].working_dir
    );
}
