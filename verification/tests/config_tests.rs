use gitcode_jupyter_tool::config::{
    account_auth_cache, account_chrome_profile, account_path, account_state_file, cdp_list_url,
    default_api_url, default_auth_cache, default_config_dir, env_string, env_u16, expand_tilde,
    join_path, list_accounts, ordered_ports, pair_file_contents, pair_from_text, path_from_env, pick_port,
    port_file_contents, endpoint_pair_candidates, endpoint_step, endpoint_after_write, api_url_override,
    stream_url_override, EndpointStep,
    port_from_text, validate_account_name, AccountFile, AccountNameError, Env,
};

fn env(vars: &[(&str, &str)]) -> Env {
    Env::new(vars.iter().map(|(k, v)| (k.to_string(), v.to_string())).collect())
}

#[test]
fn account_names_are_trimmed_and_checked() {
    assert_eq!(validate_account_name("  work-1 "), Ok("work-1".to_string()));
    assert_eq!(validate_account_name("a.b_c"), Ok("a.b_c".to_string()));
    assert_eq!(validate_account_name(""), Err(AccountNameError::Invalid));
    assert_eq!(validate_account_name(".."), Err(AccountNameError::Invalid));
    assert_eq!(validate_account_name(&"x".repeat(65)), Err(AccountNameError::Invalid));
    assert_eq!(validate_account_name(&"x".repeat(64)), Ok("x".repeat(64)));
    assert_eq!(validate_account_name("a b"), Err(AccountNameError::BadCharacters));
    assert_eq!(validate_account_name("ü"), Err(AccountNameError::BadCharacters));
}

#[test]
fn tilde_is_the_home_directory() {
    assert_eq!(expand_tilde("~", "/home/u"), "/home/u");
    assert_eq!(expand_tilde("~/x/y", "/home/u"), "/home/u/x/y");
    assert_eq!(expand_tilde("/abs", "/home/u"), "/abs");
    assert_eq!(expand_tilde("~other", "/home/u"), "~other");
    assert_eq!(join_path("/a/", "b"), "/a/b");
    assert_eq!(join_path("/a", "/b"), "/b");
}

#[test]
fn account_files_live_under_the_config_and_cache_dirs() {
    assert_eq!(account_auth_cache("default", "/c"), Ok("/c/auth.json".to_string()));
    assert_eq!(account_auth_cache("work", "/c"), Ok("/c/accounts/work.json".to_string()));
    assert_eq!(account_state_file("default", "/c"), Ok("/c/state.json".to_string()));
    assert_eq!(account_state_file("work", "/c"), Ok("/c/accounts/work/state.json".to_string()));
    assert_eq!(
        account_chrome_profile("work", "/k"),
        Ok("/k/accounts/work/chrome-profile".to_string())
    );
    assert_eq!(account_auth_cache("bad name", "/c"), Err(AccountNameError::BadCharacters));
}

#[test]
fn config_dir_follows_the_environment() {
    assert_eq!(default_config_dir(&env(&[]), "/h"), "/h/.config/gitcode-jupyter-tool");
    assert_eq!(
        default_config_dir(&env(&[("XDG_CONFIG_HOME", "/x")]), "/h"),
        "/x/gitcode-jupyter-tool"
    );
    assert_eq!(default_config_dir(&env(&[("JUD_CONFIG_DIR", "/j")]), "/h"), "/j");
    assert_eq!(
        default_auth_cache(&env(&[("JUD_ACCOUNT", "work")]), "/h"),
        "/h/.config/gitcode-jupyter-tool/accounts/work.json"
    );
}

#[test]
fn ordered_ports_visit_every_port_once() {
    let ports = ordered_ports(61000, 61009, "acct");
    assert_eq!(ports.len(), 10);
    let mut sorted = ports.clone();
    sorted.sort();
    assert_eq!(sorted, (61000..=61009).collect::<Vec<u16>>());
    let start = ports[0];
    for (i, p) in ports.iter().enumerate() {
        assert_eq!(*p, 61000 + ((start - 61000) as usize + i) as u16 % 10);
    }
}

#[test]
fn port_files_are_read_within_their_pool() {
    assert_eq!(port_from_text(" 61005\n", 61000, 61199), Some(61005));
    assert_eq!(port_from_text("70000", 61000, 61199), None);
    assert_eq!(port_from_text("60999", 61000, 61199), None);
    assert_eq!(pair_from_text("61010 61011\n", 61000, 61199), Some((61010, 61011)));
    assert_eq!(pair_from_text("61010 61010", 61000, 61199), None);
    assert_eq!(pair_from_text("61010", 61000, 61199), None);
}

#[test]
fn environment_values_fall_back_in_order() {
    let e = env(&[("A", ""), ("B", "two"), ("N", "x12"), ("M", "+42")]);
    assert_eq!(env_string(&e, &["A", "B"], "d"), "two");
    assert_eq!(env_string(&e, &["Z"], "d"), "d");
    assert_eq!(env_u16(&e, &["N", "M"], 7), 42);
    assert_eq!(env_u16(&e, &["N"], 7), 7);
    assert_eq!(default_api_url(&env(&[])), "http://127.0.0.1:61000");
    assert_eq!(default_api_url(&env(&[("JUD_API_URL", "http://h:1")])), "http://h:1");
    assert_eq!(default_api_url(&env(&[("GJTD_API_URL", "http://h:1")])), "http://127.0.0.1:61000");
}

#[test]
fn accounts_are_listed_sorted_and_once() {
    let names = vec![
        "work.json".to_string(),
        "default.json".to_string(),
        "bad name.json".to_string(),
        "notes.txt".to_string(),
        "alpha.json".to_string(),
        "work.json".to_string(),
    ];
    assert_eq!(list_accounts(&names), vec!["alpha", "default", "work"]);
    assert_eq!(list_accounts(&Vec::new()), vec!["default"]);
}

#[test]
fn daemon_files_prefer_the_default_accounts_variable() {
    let e = env(&[("JUD_AUTH_CACHE", "~/a.json")]);
    assert_eq!(account_path(AccountFile::AuthCache, None, "default", &e, "/h"), "/h/a.json");
    assert_eq!(
        account_path(AccountFile::AuthCache, None, "work", &e, "/h"),
        "/h/.config/gitcode-jupyter-tool/accounts/work.json"
    );
    assert_eq!(
        account_path(AccountFile::StateFile, Some("~/s.json"), "default", &e, "/h"),
        "/h/s.json"
    );
    assert_eq!(
        account_path(AccountFile::ChromeProfile, None, "default", &env(&[]), "/h"),
        "/h/.cache/gitcode-jupyter-tool/chrome-profile"
    );
}

#[test]
fn devtools_list_and_ports_have_defaults() {
    assert_eq!(cdp_list_url(None, &env(&[]), 61800), "http://127.0.0.1:61800/json");
    assert_eq!(cdp_list_url(None, &env(&[("JUD_CDP_LIST_URL", "http://x/json")]), 1), "http://x/json");
    assert_eq!(cdp_list_url(Some("http://y/json"), &env(&[]), 1), "http://y/json");
    assert_eq!(pick_port(Some(1), Some(2), 3), 1);
    assert_eq!(pick_port(None, Some(2), 3), 2);
    assert_eq!(pick_port(None, None, 3), 3);
    assert_eq!(
        path_from_env(&env(&[("GJTD_STATE_FILE", "~/st")]), &["JUD_STATE_FILE", "GJTD_STATE_FILE"], "/d", "/h"),
        "/h/st"
    );
}

#[test]
fn accounts_do_not_share_files() {
    let names = ["default", "work", "work.json", "a"];
    for a in names {
        for b in names {
            if a == b {
                continue;
            }
            assert_ne!(account_auth_cache(a, "/c").ok(), account_auth_cache(b, "/c").ok());
            assert_ne!(account_state_file(a, "/c").ok(), account_state_file(b, "/c").ok());
            assert_ne!(account_chrome_profile(a, "/k").ok(), account_chrome_profile(b, "/k").ok());
        }
    }
}

#[test]
fn port_files_read_back_what_was_written() {
    assert_eq!(port_file_contents(61805), "61805\n");
    assert_eq!(port_from_text(&port_file_contents(61805), 61800, 61999), Some(61805));
    assert_eq!(pair_file_contents(61000, 61001), "61000 61001\n");
    assert_eq!(pair_from_text(&pair_file_contents(61000, 61001), 61000, 61199), Some((61000, 61001)));
    assert_eq!(port_from_text(&port_file_contents(7), 61800, 61999), None);
}

#[test]
fn endpoint_candidates_are_distinct_pool_ports_and_stable() {
    let pairs = endpoint_pair_candidates("work");
    assert!(!pairs.is_empty());
    for (api, stream) in &pairs {
        assert_ne!(api, stream);
        assert!((61000..=61199).contains(api) && (61000..=61199).contains(stream));
        assert_eq!(api.abs_diff(*stream), 1);
    }
    assert_eq!(pairs, endpoint_pair_candidates("work"));
    let a = ordered_ports(61000, 61199, "work");
    assert_eq!(a, ordered_ports(61000, 61199, "work"));
    for w in a.windows(2) {
        assert_eq!(w[1], if w[0] == 61199 { 61000 } else { w[0] + 1 });
    }
}

#[test]
fn endpoint_files_are_read_first_and_persist() {
    assert!(matches!(endpoint_step(None), EndpointStep::Choose));
    assert!(matches!(endpoint_step(Some("junk")), EndpointStep::Choose));
    assert!(matches!(endpoint_step(Some("61000 61000\n")), EndpointStep::Choose));
    let written = pair_file_contents(61010, 61011);
    assert!(matches!(endpoint_step(Some(&written)), EndpointStep::Use(61010, 61011)));
    assert_eq!(endpoint_after_write(Some("61020 61021\n"), (61010, 61011)), (61020, 61021));
    assert_eq!(endpoint_after_write(None, (61010, 61011)), (61010, 61011));
}

#[test]
fn explicit_urls_win_when_not_empty() {
    assert_eq!(api_url_override(&env(&[("JUD_API_URL", "http://h:1")])), Some("http://h:1".to_string()));
    assert_eq!(api_url_override(&env(&[("JUD_API_URL", "")])), None);
    assert_eq!(stream_url_override(&env(&[("JUD_STREAM_URL", "tcp://h:2")])), Some("tcp://h:2".to_string()));
    assert_eq!(stream_url_override(&env(&[])), None);
}
