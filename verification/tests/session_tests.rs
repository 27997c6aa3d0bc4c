use gitcode_jupyter_tool::notebook::HubExperience;
use gitcode_jupyter_tool::session::{
    configured_session_ids, default_session_spec, parse_session_id, session_sort_key, ExperienceDefaults,
    NotebookSpec, SessionError, SessionTable,
};

fn defaults() -> ExperienceDefaults {
    ExperienceDefaults {
        repo_url: "https://gitcode.com/u/r".to_string(),
        ttl: "60".to_string(),
        disk_size: "20Gi".to_string(),
        notebook_path: "nb.ipynb".to_string(),
        scan_file_path: "scan.txt".to_string(),
        gitcode_user: "me".to_string(),
    }
}

fn spec_for(id: &str, index: usize) -> NotebookSpec {
    NotebookSpec {
        session_id: id.to_string(),
        experience_index: index,
        repo_url: format!("repo{index}"),
        ttl: "90".to_string(),
        disk_size: "30Gi".to_string(),
        notebook_path: format!("path{index}"),
        scan_file_path: format!("scan{index}"),
        gitcode_user: "someone".to_string(),
    }
}

fn hub(index: usize) -> HubExperience {
    HubExperience {
        repo_url: format!("hubrepo{index}"),
        ttl: "120".to_string(),
        disk_size: "40Gi".to_string(),
        notebook_path: format!("hubpath{index}"),
        scan_file_path: format!("hubscan{index}"),
    }
}

fn ids(v: &[&str]) -> Vec<String> {
    v.iter().map(|s| s.to_string()).collect()
}

#[test]
fn session_ids_are_experience_indexes() {
    assert!(matches!(parse_session_id("3"), Ok(3)));
    assert!(matches!(parse_session_id("x"), Err(SessionError::BadSessionId(_))));
    assert_eq!(session_sort_key("7"), (7, "7".to_string()));
    assert_eq!(session_sort_key("abc"), (usize::MAX, "abc".to_string()));
    assert_eq!(configured_session_ids("1, 2;2\t3", 0), ids(&["1", "2", "3"]));
    assert_eq!(configured_session_ids("  ", 4), ids(&["4"]));
}

#[test]
fn commands_get_the_session_used_longest_ago() {
    let mut t = SessionTable::new();
    let conf = ids(&["0", "1", "2"]);
    let a = t.acquire_session_id(None, false, 0, &conf, 100, "t1").ok().unwrap();
    assert_eq!(a, "0");
    let b = t.acquire_session_id(None, false, 0, &conf, 200, "t2").ok().unwrap();
    assert_eq!(b, "1");
    let c = t.acquire_session_id(None, false, 0, &conf, 300, "t3").ok().unwrap();
    assert_eq!(c, "2");
    let d = t.acquire_session_id(None, false, 0, &conf, 400, "t4").ok().unwrap();
    assert_eq!(d, "0");
    let e = t.entry("0");
    assert_eq!(e.last_used, Some(400));
    assert_eq!(e.experience_index, Some(0));
    assert_eq!(e.heavy, Some(false));
    assert!(matches!(
        t.acquire_session_id(Some("zz"), false, 0, &conf, 500, "t"),
        Err(SessionError::BadSessionId(_))
    ));
    assert!(matches!(
        t.acquire_session_id(None, false, 0, &ids(&["x"]), 500, "t"),
        Ok(_)
    ));
    let mut empty = SessionTable::new();
    assert!(matches!(empty.acquire_session_id(None, false, 0, &ids(&["x"]), 1, "t"), Err(SessionError::NoSessions)));
}

#[test]
fn heavy_commands_never_share_a_session() {
    let mut t = SessionTable::new();
    let conf = ids(&["0", "1"]);
    let a = t.acquire_session_id(None, true, 10_000_000, &conf, 100, "aa").ok().unwrap();
    assert_eq!(a, "0");
    assert!(t.is_heavy_at("0", 100));
    assert_eq!(t.entry("0").heavy_owner.as_deref(), Some("pending-aa"));
    assert_eq!(t.entry("0").heavy_until, Some(10_000_100));
    let b = t.acquire_session_id(None, true, 0, &conf, 200, "bb").ok().unwrap();
    assert_eq!(b, "1");
    assert_eq!(t.entry("1").heavy_until, Some(1_000_200));
    assert!(matches!(t.acquire_session_id(None, true, 0, &conf, 300, "cc"), Err(SessionError::NoFreeSession)));
    match t.acquire_session_id(Some("0"), true, 0, &conf, 300, "cc") {
        Err(SessionError::AlreadyHeavy(id)) => assert_eq!(id, "0"),
        _ => panic!(),
    }
    assert_eq!(t.acquire_session_id(None, false, 0, &conf, 300, "dd").ok().unwrap(), "0");
    // The light command's mark runs out; a heavy one may take session 1 again.
    assert_eq!(t.acquire_session_id(None, true, 0, &conf, 2_000_000, "ee").ok().unwrap(), "1");
}

#[test]
fn heavy_marks_are_released_only_by_their_owner() {
    let mut t = SessionTable::new();
    let owner = t.mark_auto_heavy("2", 5_000_000, 10, "x1").ok().unwrap();
    assert_eq!(owner, "auto-x1");
    t.release_auto_heavy("2", "someone-else", 20);
    assert!(t.is_heavy_at("2", 20));
    t.release_auto_heavy("2", "auto-x1", 30);
    assert!(!t.is_heavy_at("2", 30));
    assert_eq!(t.entry("2").time, Some(30));
    let m = t.set_manual_heavy("2", true, 40).ok().unwrap();
    assert_eq!(m.heavy_owner.as_deref(), Some("manual"));
    assert!(matches!(t.mark_auto_heavy("2", 1, 50, "y"), Err(SessionError::AlreadyHeavy(_))));
    t.set_manual_heavy("2", false, 60).ok().unwrap();
    assert!(!t.is_heavy_at("2", 60));
    assert!(matches!(t.set_manual_heavy("q", true, 1), Err(SessionError::BadSessionId(_))));
}

#[test]
fn session_records_and_listing() {
    let mut t = SessionTable::new();
    t.mark_auto_heavy("1", 5_000_000, 10, "x").ok().unwrap();
    t.record_session_ok(&spec_for("1", 1), vec![("href".to_string(), "h".to_string())], 20);
    let e = t.entry("1");
    assert_eq!(e.ok, Some(true));
    assert_eq!(e.heavy_owner.as_deref(), Some("auto-x"));
    assert_eq!(e.details.len(), 6);
    assert_eq!(e.details[0], ("repo_url".to_string(), "repo1".to_string()));
    assert_eq!(e.details[5], ("href".to_string(), "h".to_string()));
    assert!(t.any_ok());
    t.record_session_failure("1", "probe failed", 30);
    assert_eq!(t.entry("1").ok, Some(false));
    assert_eq!(t.entry("1").reason.as_deref(), Some("probe failed"));
    assert!(!t.any_ok());
    t.mark_configured(&ids(&["10", "2", "1"]), 40);
    let list = t.listing();
    let names: Vec<String> = list.iter().map(|s| s.id.clone()).collect();
    assert_eq!(names, ids(&["1", "2", "10"]));
    assert_eq!(list[1].configured, Some(true));
    assert_eq!(list[1].ok, Some(false));
    assert_eq!(list[1].heavy, Some(false));
}

#[test]
fn default_spec_takes_the_daemon_settings() {
    let s = default_session_spec("4", 4, &defaults());
    assert_eq!(s.session_id, "4");
    assert_eq!(s.experience_index, 4);
    assert_eq!(s.repo_url, "https://gitcode.com/u/r");
    assert_eq!(s.ttl, "60");
    assert_eq!(s.disk_size, "20Gi");
    assert_eq!(s.gitcode_user, "me");
}

#[test]
fn recorded_spec_is_read_back() {
    let mut t = SessionTable::new();
    assert!(t.session_spec_from_state("2", 2, &defaults()).is_none());
    t.record_session_ok(&spec_for("2", 2), vec![("repo_url".to_string(), "other".to_string())], 5);
    let s = t.session_spec_from_state("2", 2, &defaults()).unwrap();
    assert_eq!(s.repo_url, "repo2");
    assert_eq!(s.ttl, "90");
    assert_eq!(s.disk_size, "30Gi");
    assert_eq!(s.notebook_path, "path2");
    assert_eq!(s.scan_file_path, "scan2");
    assert_eq!(s.gitcode_user, "me");
}

#[test]
fn session_spec_prefers_the_hub() {
    let t = SessionTable::new();
    let listed: Result<Vec<HubExperience>, String> = Ok(vec![hub(0), hub(1)]);
    let s = t.session_spec("1", 0, &defaults(), &listed).ok().unwrap();
    assert_eq!(s.repo_url, "hubrepo1");
    assert_eq!(s.ttl, "120");
    assert_eq!(s.notebook_path, "hubpath1");
    assert_eq!(s.gitcode_user, "me");
    assert!(matches!(t.session_spec("x", 0, &defaults(), &listed), Err(SessionError::BadSessionId(_))));
}

#[test]
fn session_spec_falls_back() {
    let mut t = SessionTable::new();
    let listed: Result<Vec<HubExperience>, String> = Ok(vec![hub(0)]);
    let failed: Result<Vec<HubExperience>, String> = Err("hub down".to_string());
    let s = t.session_spec("3", 3, &defaults(), &listed).ok().unwrap();
    assert_eq!(s.repo_url, "https://gitcode.com/u/r");
    let s = t.session_spec("3", 3, &defaults(), &failed).ok().unwrap();
    assert_eq!(s.notebook_path, "nb.ipynb");
    assert!(matches!(t.session_spec("5", 3, &defaults(), &listed), Err(SessionError::ExperienceUnavailable(5))));
    match t.session_spec("5", 3, &defaults(), &failed) {
        Err(SessionError::ExperienceLookupFailed(5, msg)) => assert_eq!(msg, "hub down"),
        _ => panic!("expected a lookup failure"),
    }
    t.record_session_ok(&spec_for("5", 5), Vec::new(), 1);
    let s = t.session_spec("5", 3, &defaults(), &failed).ok().unwrap();
    assert_eq!(s.repo_url, "repo5");
    let s = t.session_spec("5", 3, &defaults(), &listed).ok().unwrap();
    assert_eq!(s.scan_file_path, "scan5");
}

#[test]
fn previous_lab_urls_need_the_notebook_host() {
    let mut t = SessionTable::new();
    assert_eq!(t.previous_lab_urls("1"), None);
    let lab = "https://aihub-run.gitcode.com/learning/7/nb/lab";
    t.record_session_ok(&spec_for("1", 1), vec![("href".to_string(), lab.to_string())], 5);
    assert_eq!(t.previous_lab_urls("1"), Some((lab.to_string(), String::new())));
    t.record_session_ok(
        &spec_for("2", 2),
        vec![("href".to_string(), "https://example.com/lab".to_string()), ("target_url".to_string(), "x".to_string())],
        5,
    );
    assert_eq!(t.previous_lab_urls("2"), None);
}
