use care::engine::{
    apply_dispatch, apply_index_op, build_universe, check_action, draft_plan, require_clean,
    require_no_drift, ApplyDispatch, CheckAction, DraftAction, EngineError, IndexOp, Script,
    Status,
};
use care::paths::{contains_slash, parent_dir, split_effector_path};
use care::{ignore_err_not_found, IoErrorKind};

fn script(paths: Vec<(&str, &str)>, ignores: Vec<&str>) -> Script {
    Script {
        shadow_dir: "shadow".to_string(),
        paths: paths
            .into_iter()
            .map(|(p, c)| (p.to_string(), c.as_bytes().to_vec()))
            .collect(),
        ignores: ignores.into_iter().map(|s| s.to_string()).collect(),
        effectors: vec![],
    }
}

fn strings(v: Vec<&str>) -> Vec<String> {
    v.into_iter().map(|s| s.to_string()).collect()
}

#[test]
fn draft_writes_and_deletes() {
    let s = script(vec![("fs/a", "new"), ("fs/b", "hi")], vec![]);
    let plan = draft_plan(&s, &strings(vec!["fs/a"])).unwrap();
    assert_eq!(plan.len(), 2);
    match &plan[0] {
        DraftAction::Write { path, contents } => {
            assert_eq!(path, "fs/a");
            assert_eq!(contents, b"new");
        },
        _ => panic!("expected a write"),
    }
    match &plan[1] {
        DraftAction::Write { path, contents } => {
            assert_eq!(path, "fs/b");
            assert_eq!(contents, b"hi");
        },
        _ => panic!("expected a write"),
    }
}

#[test]
fn draft_removes_stray() {
    let s = script(vec![("fs/x", "k")], vec![]);
    let plan = draft_plan(&s, &strings(vec!["fs/x", "fs/y"])).unwrap();
    assert_eq!(plan.len(), 2);
    match &plan[0] {
        DraftAction::Write { path, .. } => assert_eq!(path, "fs/x"),
        _ => panic!("expected a write"),
    }
    match &plan[1] {
        DraftAction::Remove { path } => assert_eq!(path, "fs/y"),
        _ => panic!("expected a remove"),
    }
}

#[test]
fn draft_rejects_ignored_script_path() {
    let s = script(vec![("ig/a", "x")], vec!["ig/"]);
    match draft_plan(&s, &strings(vec![])) {
        Err(EngineError::IgnoredPath { path }) => assert_eq!(path, "ig/a"),
        _ => panic!("expected an ignored-path error"),
    }
}

#[test]
fn universe_is_sorted_union_minus_ignored() {
    let s = script(vec![("c/z", "1")], vec!["b/"]);
    let u = build_universe(&strings(vec!["b/x", "a/y", "c/z"]), &s).unwrap();
    let mut got: Vec<String> = vec![];
    for i in 0..u.len() {
        got.push(u.get(i).to_string());
    }
    assert_eq!(got, vec!["a/y".to_string(), "c/z".to_string()]);
}

#[test]
fn case_collision_guard() {
    let s = script(vec![("fs/README", "x")], vec![]);
    match build_universe(&strings(vec!["fs/Readme"]), &s) {
        Err(EngineError::CaseMismatch { git_path, script_path }) => {
            assert_eq!(git_path, "fs/Readme");
            assert_eq!(script_path, "fs/README");
        },
        _ => panic!("expected a case-mismatch error"),
    }
    // the same spelling is no collision
    let s2 = script(vec![("fs/Readme", "x")], vec![]);
    assert!(build_universe(&strings(vec!["fs/Readme"]), &s2).is_ok());
    // unrelated names do not fold together
    let s3 = script(vec![("fs/b", "x")], vec![]);
    let u = build_universe(&strings(vec!["fs/a"]), &s3).unwrap();
    assert_eq!(u.len(), 2);
}

#[test]
fn check_verdicts_and_actions() {
    assert!(require_clean(true).is_ok());
    assert!(matches!(require_clean(false), Err(EngineError::DirtyRepo)));
    assert!(require_no_drift(true).is_ok());
    assert!(matches!(require_no_drift(false), Err(EngineError::Drift)));
    assert_eq!(check_action(true), CheckAction::Gather);
    assert_eq!(check_action(false), CheckAction::DeleteShadowFile);
}

#[test]
fn apply_stages_each_file() {
    let s = script(vec![], vec!["skip/"]);
    assert_eq!(apply_dispatch("fs/a", &s), ApplyDispatch::Affect);
    assert_eq!(apply_dispatch("skip/x", &s), ApplyDispatch::Skip);
    assert_eq!(apply_index_op("fs/a", Status::New).unwrap(), IndexOp::Add);
    assert_eq!(apply_index_op("fs/b", Status::Modified).unwrap(), IndexOp::Add);
    assert_eq!(apply_index_op("fs/c", Status::Deleted).unwrap(), IndexOp::Remove);
    match apply_index_op("fs/odd", Status::Other) {
        Err(EngineError::UnsupportedStatus { path }) => assert_eq!(path, "fs/odd"),
        _ => panic!("expected an unsupported-status error"),
    }
}

#[test]
fn path_splitting() {
    let (prefix, sub) = split_effector_path("foo/bar/baz");
    assert_eq!(prefix, "foo");
    assert_eq!(sub, "bar/baz");
    assert_eq!(format!("{}/{}", prefix, sub), "foo/bar/baz");
    assert!(contains_slash("a/b"));
    assert!(!contains_slash("nope"));
}

#[test]
fn parent_directories() {
    assert_eq!(parent_dir("a/b/c"), Some("a/b"));
    assert_eq!(parent_dir("fs/a"), Some("fs"));
    assert_eq!(parent_dir("plain"), None);
}

#[test]
fn not_found_deletions_are_fine() {
    assert_eq!(ignore_err_not_found(IoErrorKind::NotFound), Ok(()));
    assert_eq!(ignore_err_not_found(IoErrorKind::Other), Err(IoErrorKind::Other));
}
