use horde::repo::{
    add_worktree, git_failure, git_reply, is_agent_worktree, list_worktrees, main_root,
    plan_worktree, probe, remove_worktree, sanitise, worktree_for, worktree_path, Cache, Placement,
    Repo, RepoError,
};

#[test]
fn a_name_that_would_not_survive_a_path_is_reshaped() {
    assert_eq!(sanitise("Code Reader"), Some("Code-Reader".into()));
    assert_eq!(sanitise("../escape"), Some("escape".into()));
    assert_eq!(sanitise("///"), None);
}

const PROJECT: &str = "/home/me/proj";

const LISTING: &str = "worktree /home/me/proj\nHEAD aaaa\nbranch refs/heads/main\n\n\
    worktree /home/me/proj-worktrees/kenny\nHEAD bbbb\nbranch refs/heads/horde/kenny\n\n\
    worktree /home/me/mine\nHEAD cccc\nbranch refs/heads/feature\n\n";

#[test]
fn listing_finds_hordes_worktrees_and_ignores_your_own() {
    let listed = list_worktrees(PROJECT, Some(PROJECT), Ok(LISTING), &vec![true]);
    let all = listed.clone().unwrap();
    let names: Vec<&str> = all.iter().map(|w| w.name.as_str()).collect();
    assert_eq!(names, vec!["kenny"]);
    assert_eq!(all[0].branch, "horde/kenny");
    assert!(all[0].dirty);
    assert_eq!(worktree_for(&listed, "kenny").unwrap().path, "/home/me/proj-worktrees/kenny");
    assert!(matches!(worktree_for(&listed, "stan"), Err(RepoError::NoSuch(_))));
}

#[test]
fn a_worktree_sits_beside_the_project_named_after_it() {
    let p = worktree_path("/home/me/proj", "kenny");
    assert!(p.starts_with("/home/me/"), "{p}");
    assert!(p.ends_with("kenny"), "{p}");
    assert!(!p.starts_with("/home/me/proj/"), "not inside the repository: {p}");
}

#[test]
fn a_tree_is_hordes_by_its_branch_and_by_being_a_linked_worktree() {
    assert!(is_agent_worktree("horde/kenny", true));
    assert!(!is_agent_worktree("horde/kenny", false));
    assert!(!is_agent_worktree("feature", true));
}

#[test]
fn adding_the_same_worktree_twice_resumes_it() {
    let plan = plan_worktree("/home/me/proj", "kenny", None, Some("/home/me/proj")).unwrap();
    assert_eq!(plan.branch, "horde/kenny");
    match add_worktree(&plan, Some(LISTING), true, true).unwrap() {
        Placement::Existing(p) => assert_eq!(p, "/home/me/proj-worktrees/kenny"),
        other => panic!("{other:?}"),
    }
    match add_worktree(&plan, Some("worktree /home/me/proj\n"), false, false).unwrap() {
        Placement::Create { args, .. } => assert!(args.contains(&"worktree".to_string())),
        other => panic!("{other:?}"),
    }
}

#[test]
fn a_worktree_needs_a_repository_and_a_usable_name() {
    assert!(matches!(
        plan_worktree("/tmp", "kenny", None, None),
        Err(RepoError::NotARepository(_))
    ));
    assert!(matches!(
        plan_worktree("/tmp", "///", None, Some("/tmp")),
        Err(RepoError::Unusable(_)) | Err(RepoError::NotAName(_))
    ));
}

#[test]
fn removing_names_the_tree_and_forces_only_when_asked() {
    let trees = list_worktrees(PROJECT, Some(PROJECT), Ok(LISTING), &vec![false]);
    let soft = remove_worktree(&trees, "kenny", false).unwrap();
    assert_eq!(soft.path, "/home/me/proj-worktrees/kenny");
    assert!(!soft.args.contains(&"--force".to_string()));
    let hard = remove_worktree(&trees, "kenny", true).unwrap();
    assert!(hard.args.contains(&"--force".to_string()));
    assert!(remove_worktree(&trees, "stan", true).is_err());
}

#[test]
fn there_is_no_list_outside_a_repository_or_where_git_fails() {
    let none = list_worktrees("/tmp", None, Ok(LISTING), &Vec::new());
    assert_eq!(none, Err(RepoError::NotARepository("/tmp".into())));
    let broken = list_worktrees("/tmp", Some("/tmp"), Err("git worktree failed"), &Vec::new());
    assert_eq!(broken.clone().unwrap_err().message(), "git worktree failed");
    // And then there is none to be found or removed either.
    let sought = worktree_for(&none, "kenny").unwrap_err();
    assert_eq!(sought.message(), "/tmp is not in a git repository");
    let removed = remove_worktree(&broken, "kenny", true).unwrap_err();
    assert_eq!(removed, RepoError::Git("git worktree failed".into()));
    assert!(matches!(worktree_for(&none, "//"), Err(RepoError::NotAName(_))));
    let empty = list_worktrees("/tmp", Some("/tmp"), Ok(""), &Vec::new());
    assert_eq!(empty, Ok(Vec::new()), "a repository without any is no failure");
}

#[test]
fn what_git_says_is_read_only_when_it_worked() {
    assert_eq!(git_reply(true, "main\n").as_deref(), Some("main"));
    assert_eq!(git_reply(false, "main\n"), None);
    assert!(git_failure("status", "fatal: not a repo\n").contains("fatal: not a repo"));
    assert_eq!(main_root(None), None);
}

#[test]
fn a_repository_is_asked_about_again_only_once_it_is_stale() {
    let mut c = Cache::default();
    assert!(c.needs("/p", 1_000));
    let r = Repo { root: "/p".into(), branch: "main".into(), dirty: false };
    assert_eq!(c.get("/p", 1_000, Some(r.clone())).unwrap().branch, "main");
    assert!(!c.needs("/p", 2_000));
    assert!(c.needs("/p", 7_000));
    assert_eq!(c.peek("/p").unwrap().branch, "main");
    c.retain(&["/elsewhere".to_string()]);
    assert!(c.peek("/p").is_none());
    assert!(probe(None, true).is_none());
}

#[test]
fn a_directory_is_the_same_however_it_is_written() {
    let mut c = Cache::default();
    let r = Repo { root: "/a".into(), branch: "main".into(), dirty: true };
    c.get("/a/", 1_000, Some(r));
    assert!(!c.needs("/a", 2_000), "asked about already");
    assert_eq!(c.peek("/a/.").unwrap().branch, "main");
    c.retain(&["//a".to_string()]);
    assert!(c.peek("/a").is_some(), "and still wanted");
    assert!(c.peek("/ab").is_none());
}
