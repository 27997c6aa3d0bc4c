use gitcode_jupyter_tool::notebook::{
    backend_restarted, insert_url, is_notebook_href, is_ready, lab_url, notebook_from_insert,
    notebook_from_lab_url, parse_hub_experiences, probe_output, status_url, target_url,
    terminal_cookie_url, terminal_url, terminal_websocket_url, terminals_url, InsertReply,
    NotebookError, provision_after, provision_next, provision_start, ProvisionAction,
    after_failed_attempt, attempt_skips_previous, replacement_failure, AttemptStep,
};

#[test]
fn insert_answers_describe_a_notebook() {
    let reply = InsertReply {
        notebook_id: Some("abc-def-notebook12-x9z".to_string()),
        provisioning_status: Some("READY".to_string()),
    };
    let nb = notebook_from_insert(&reply, "/quick_start/cann_basics/", "user name").ok().unwrap();
    assert_eq!(nb.notebook_id, "abc-def-notebook12-x9z");
    assert_eq!(nb.learning_id, "abc-def");
    assert_eq!(nb.notebook_name, "notebook12");
    assert_eq!(nb.provisioning_status, "READY");
    assert_eq!(nb.base_url, "https://aihub-run.gitcode.com/learning/abc-def/notebook12");
    assert_eq!(
        nb.lab_url,
        "https://aihub-run.gitcode.com/learning/abc-def/notebook12/lab/tree/quick_start/cann_basics"
    );
    assert_eq!(
        nb.target_url,
        "https://ai.gitcode.com/user/user%20name/notebookcann/lab?cannNotebookId=abc-def-notebook12-x9z"
    );
}

#[test]
fn insert_answers_that_name_no_notebook_are_refused() {
    let none = InsertReply { notebook_id: None, provisioning_status: None };
    assert!(matches!(notebook_from_insert(&none, "", "u"), Err(NotebookError::MissingId)));
    let odd = InsertReply { notebook_id: Some("plain".to_string()), provisioning_status: None };
    match notebook_from_insert(&odd, "", "u") {
        Err(NotebookError::UnexpectedId(id)) => assert_eq!(id, "plain"),
        _ => panic!(),
    }
    let bare = InsertReply { notebook_id: Some("l-notebook1-s".to_string()), provisioning_status: None };
    let nb = notebook_from_insert(&bare, "///", "u").ok().unwrap();
    assert_eq!(nb.lab_url, "https://aihub-run.gitcode.com/learning/l/notebook1/lab");
    assert_eq!(nb.provisioning_status, "");
}

#[test]
fn saved_lab_urls_describe_a_ready_notebook() {
    let href = "https://aihub-run.gitcode.com/learning/L1/notebook3/lab/tree/x";
    let nb = notebook_from_lab_url(href, "https://ai.gitcode.com/user/u/notebookcann/lab?a=1&cannNotebookId=L1-notebook3-q").ok().unwrap();
    assert_eq!(nb.learning_id, "L1");
    assert_eq!(nb.notebook_name, "notebook3");
    assert_eq!(nb.notebook_id, "L1-notebook3-q");
    assert_eq!(nb.base_url, "https://aihub-run.gitcode.com/learning/L1/notebook3");
    assert_eq!(nb.provisioning_status, "READY");
    assert_eq!(nb.lab_url, href);
    let fallback = notebook_from_lab_url("http://h:8080/learning/L/notebook7", "").ok().unwrap();
    assert_eq!(fallback.notebook_id, "L-notebook7");
    assert_eq!(fallback.base_url, "http://h/learning/L/notebook7");
    match notebook_from_lab_url("https://aihub-run.gitcode.com/other/path", "") {
        Err(NotebookError::NotNotebookUrl(h)) => assert_eq!(h, "https://aihub-run.gitcode.com/other/path"),
        _ => panic!(),
    }
    assert!(matches!(notebook_from_lab_url("not a url", ""), Err(NotebookError::NotNotebookUrl(_))));
    assert!(is_notebook_href(href));
    assert!(!is_notebook_href("https://gitcode.com/x"));
}

#[test]
fn notebook_service_urls() {
    assert_eq!(
        insert_url("https://gitcode.com/r.git", "120", "40Gi", "a b", "x/y.ipynb"),
        "https://web-api.gitcode.com/aihub/api/v1/notebookcann/insert?repoUrl=https%3A%2F%2Fgitcode.com%2Fr.git&ttl=120&diskSize=40Gi&path=a%20b&scanFilePath=x%2Fy.ipynb&__s=aihub"
    );
    assert_eq!(status_url("B"), "B/api/status");
    assert_eq!(terminals_url("B"), "B/api/terminals");
    assert_eq!(terminal_url("B", "1 2"), "B/api/terminals/1%202");
    assert_eq!(
        terminal_websocket_url("L", "notebook1", "t/1"),
        "wss://aihub-run.gitcode.com/learning/L/notebook1/terminals/websocket/t%2F1"
    );
    assert_eq!(terminal_cookie_url("B", "t1"), "B/terminals/websocket/t1");
    assert_eq!(lab_url("B", "/x/"), "B/lab/tree/x");
    assert_eq!(target_url("ü", "a&b"), "https://ai.gitcode.com/user/%C3%BC/notebookcann/lab?cannNotebookId=a%26b");
}

#[test]
fn notebook_reports() {
    assert!(is_ready(""));
    assert!(is_ready("READY"));
    assert!(!is_ready("PENDING"));
    assert!(backend_restarted("t1", "t2"));
    assert!(!backend_restarted("", "t2"));
    assert!(!backend_restarted("t1", "t1"));
    assert_eq!(
        probe_output("nb", &vec![("kernels".to_string(), "1".to_string()), ("started".to_string(), "s".to_string())]),
        "notebook_id=nb\nkernels=1\nstarted=s"
    );
    assert_eq!(probe_output("nb", &Vec::new()), "notebook_id=nb");
}

#[test]
fn hub_pages_offer_each_experience_once() {
    let body = r#"
      <a href="https://ai.gitcode.com/user/u/notebookcann?repoUrl=R1&amp;path=P1&amp;scanFilePath=S1">one</a>
      <a href='https://ai.gitcode.com/user/u/notebookcann?repoUrl=R1&path=P1&scanFilePath=S1&ttl=60'>dup</a>
      <a href="https://ai.gitcode.com/user/v/notebookcann?repoUrl=R2&path=P2&scanFilePath=S2&ttl=30&diskSize=10Gi">two</a>
      <a href="https://ai.gitcode.com/user/v/notebookcann?repoUrl=R3&path=P3">incomplete</a>
    "#;
    let ex = parse_hub_experiences(body);
    assert_eq!(ex.len(), 2);
    assert_eq!(ex[0].repo_url, "R1");
    assert_eq!(ex[0].ttl, "120");
    assert_eq!(ex[0].disk_size, "40Gi");
    assert_eq!(ex[0].notebook_path, "P1");
    assert_eq!(ex[0].scan_file_path, "S1");
    assert_eq!(ex[1].repo_url, "R2");
    assert_eq!(ex[1].ttl, "30");
    assert_eq!(ex[1].disk_size, "10Gi");
    assert!(parse_hub_experiences("nothing here").is_empty());
}

#[test]
fn notebook_search_probes_the_saved_notebook_once() {
    let s = provision_start(false, false);
    assert_eq!(provision_next(&s, true), ProvisionAction::ProbePrevious);
    assert_eq!(provision_next(&s, false), ProvisionAction::Provision);
    let (s, give_up) = provision_after(&s, true, "insert failed", true, 10, 20);
    assert!(!give_up);
    assert!(s.previous_dead && !s.force_extract);
    assert_eq!(provision_next(&s, true), ProvisionAction::Provision);
    let (s, give_up) = provision_after(&s, false, "auth expired", true, 20, 20);
    assert!(give_up);
    assert!(s.force_extract);
    let (s2, _) = provision_after(&provision_start(false, true), false, "auth expired", false, 0, 1);
    assert!(s2.previous_dead && !s2.force_extract);
    assert!(s.previous_dead);
}

#[test]
fn commands_get_one_retry_on_a_new_notebook() {
    assert!(!attempt_skips_previous(0));
    assert!(attempt_skips_previous(1));
    assert_eq!(after_failed_attempt(0), AttemptStep::Retry);
    assert_eq!(after_failed_attempt(1), AttemptStep::GiveUp);
    assert_eq!(replacement_failure("upload", "boom"), "upload failed after notebook replacement: boom");
}
