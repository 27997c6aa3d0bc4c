use gitcode_jupyter_tool::cookies::{
    cookie_expired_at, cookies_from_cdp_at, domain_matches, is_gitcode_domain,
    parse_set_cookie_at, parse_set_cookie_headers_at, xsrf_token_for, AuthError, CdpCookie,
    Cookie, CookieAuth,
};

const NOW: i64 = 1_700_000_000_000_000;

fn cookie(name: &str, value: &str, domain: &str, path: &str, expires: Option<i64>) -> Cookie {
    Cookie {
        name: name.to_string(),
        value: value.to_string(),
        domain: domain.to_string(),
        path: path.to_string(),
        expires,
        secure: true,
        http_only: false,
        same_site: None,
    }
}

fn keys(auth: &CookieAuth) -> Vec<(String, String, String, String)> {
    let mut k: Vec<_> = auth
        .cookies
        .iter()
        .map(|c| (c.domain.clone(), c.path.clone(), c.name.clone(), c.value.clone()))
        .collect();
    k.sort();
    k
}

#[test]
fn gitcode_domains_are_recognised() {
    assert!(is_gitcode_domain(".GitCode.com"));
    assert!(is_gitcode_domain("ai.gitcode.com"));
    assert!(!is_gitcode_domain("notgitcode.com"));
    assert!(!is_gitcode_domain("gitcode.com.evil"));
}

#[test]
fn cookie_domains_match_hosts() {
    assert!(domain_matches(".gitcode.com", "ai.gitcode.com"));
    assert!(domain_matches(".gitcode.com", "gitcode.com"));
    assert!(domain_matches("AI.gitcode.com", "ai.GITCODE.com"));
    assert!(!domain_matches("gitcode.com", "ai.gitcode.com"));
    assert!(!domain_matches(".gitcode.com", "xgitcode.com"));
}

#[test]
fn cookie_expiry_respects_the_margin() {
    let c = cookie("a", "b", "gitcode.com", "/", Some(NOW + 10));
    assert!(!cookie_expired_at(&c, 0, NOW));
    assert!(cookie_expired_at(&c, 10, NOW));
    assert!(!cookie_expired_at(&cookie("a", "b", "g", "/", Some(-1)), 0, NOW));
    assert!(!cookie_expired_at(&cookie("a", "b", "g", "/", None), 0, NOW));
}

#[test]
fn set_cookie_headers_are_parsed() {
    let c = parse_set_cookie_at(
        "https://ai.gitcode.com/x",
        "sid=abc; Path=/api; Max-Age=60; Secure; HttpOnly; SameSite=Lax",
        NOW,
    )
    .unwrap();
    assert_eq!(c.name, "sid");
    assert_eq!(c.value, "abc");
    assert_eq!(c.domain, "ai.gitcode.com");
    assert_eq!(c.path, "/api");
    assert_eq!(c.expires, Some(NOW + 60_000_000));
    assert!(c.secure && c.http_only);
    assert_eq!(c.same_site.as_deref(), Some("Lax"));

    let d = parse_set_cookie_at("https://gitcode.com/", "t=1; Domain=.gitcode.com; Path=", NOW).unwrap();
    assert_eq!(d.domain, ".gitcode.com");
    assert_eq!(d.path, "/");
    assert_eq!(d.expires, Some(-1_000_000));
    assert!(!d.secure);

    let e = parse_set_cookie_at(
        "https://gitcode.com/",
        "t=1; Expires=Wed, 21 Oct 2015 07:28:00 GMT",
        NOW,
    )
    .unwrap();
    assert_eq!(e.expires, Some(1_445_412_480_000_000));

    assert!(parse_set_cookie_at("https://gitcode.com/", "=x", NOW).is_none());
    assert!(parse_set_cookie_at("https://gitcode.com/", "novalue", NOW).is_none());
    assert!(parse_set_cookie_at("not a url", "a=b", NOW).is_none());
    let all = parse_set_cookie_headers_at(
        "https://gitcode.com/",
        &vec!["a=1".to_string(), "bad".to_string(), "b=2".to_string()],
        NOW,
    );
    assert_eq!(all.iter().map(|c| c.name.as_str()).collect::<Vec<_>>(), vec!["a", "b"]);
}

#[test]
fn received_cookies_replace_and_expire_by_key() {
    let mut auth = CookieAuth {
        cookies: vec![
            cookie("a", "old", "gitcode.com", "/", None),
            cookie("b", "keep", "gitcode.com", "/", None),
            cookie("c", "drop", "gitcode.com", "/", None),
        ],
        source: "cache".to_string(),
    };
    auth.update_at(
        vec![
            cookie("a", "new", "gitcode.com", "/", Some(NOW + 1_000_000)),
            cookie("c", "gone", "gitcode.com", "/", Some(NOW - 1)),
            cookie("x", "foreign", "example.com", "/", None),
            cookie("d", "added", ".gitcode.com", "/p", None),
        ],
        NOW,
    );
    assert_eq!(
        keys(&auth),
        vec![
            (".gitcode.com".to_string(), "/p".to_string(), "d".to_string(), "added".to_string()),
            ("gitcode.com".to_string(), "/".to_string(), "a".to_string(), "new".to_string()),
            ("gitcode.com".to_string(), "/".to_string(), "b".to_string(), "keep".to_string()),
        ]
    );
    assert_eq!(auth.source, "cache");
}

#[test]
fn cookie_header_puts_longest_paths_first() {
    let auth = CookieAuth {
        cookies: vec![
            cookie("root", "1", ".gitcode.com", "/", None),
            cookie("deep", "2", ".gitcode.com", "/learning/x", None),
            cookie("other", "3", "example.com", "/", None),
            cookie("old", "4", ".gitcode.com", "/", Some(NOW - 5)),
            cookie("elsewhere", "5", ".gitcode.com", "/api", None),
        ],
        source: "t".to_string(),
    };
    assert_eq!(
        auth.cookie_header_at("https://aihub-run.gitcode.com/learning/x/notebook1/lab", NOW),
        "deep=2; root=1"
    );
    assert_eq!(auth.cookie_header_at("not a url", NOW), "");
    assert_eq!(
        xsrf_token_for(
            &vec![cookie("_xsrf", "tok", "aihub-run.gitcode.com", "/", None)],
            "aihub-run.gitcode.com"
        ),
        "tok"
    );
    assert_eq!(xsrf_token_for(&vec![cookie("_xsrf", "tok", "x.com", "/", None)], "y.com"), "");
}

#[test]
fn login_needs_both_tokens() {
    let live = vec![
        cookie("GITCODE_ACCESS_TOKEN", "a", ".gitcode.com", "/", None),
        cookie("GITCODE_REFRESH_TOKEN", "r", ".gitcode.com", "/", Some(NOW + 600_000_000)),
    ];
    let auth = CookieAuth { cookies: live.clone(), source: "t".to_string() };
    assert!(auth.valid_at(0, NOW));
    assert!(!auth.valid_at(600_000_000, NOW));
    let half = CookieAuth { cookies: vec![live[0].clone()], source: "t".to_string() };
    assert!(!half.valid_at(0, NOW));
    assert_eq!(auth.redacted_names(), vec!["GITCODE_ACCESS_TOKEN", "GITCODE_REFRESH_TOKEN"]);
    assert!(matches!(CookieAuth::from_cache_data(Vec::new(), "x".to_string()), Err(AuthError::NoCookies)));
    let loaded = CookieAuth::from_cache_data(
        vec![cookie("", "v", "g", "/", None), cookie("n", "v", "g", "/", None)],
        "x".to_string(),
    )
    .ok()
    .unwrap();
    assert_eq!(loaded.cookies.len(), 1);
}

fn cdp(name: &str, value: &str, domain: Option<&str>) -> CdpCookie {
    CdpCookie {
        name: Some(name.to_string()),
        value: Some(value.to_string()),
        domain: domain.map(|d| d.to_string()),
        path: None,
        expires: None,
        secure: None,
        http_only: None,
        same_site: None,
    }
}

#[test]
fn browser_cookies_make_a_login_only_when_valid() {
    let ok = cookies_from_cdp_at(
        vec![
            cdp("GITCODE_ACCESS_TOKEN", "a", Some(".gitcode.com")),
            cdp("GITCODE_REFRESH_TOKEN", "r", Some("gitcode.com")),
            cdp("other", "o", Some("example.com")),
            cdp("", "empty", Some("gitcode.com")),
        ],
        NOW,
    )
    .ok()
    .unwrap();
    assert_eq!(ok.cookies.len(), 2);
    assert_eq!(ok.source, "chrome-cdp");
    assert_eq!(ok.cookies[0].path, "/");
    assert!(ok.cookies[0].secure);
    assert!(matches!(
        cookies_from_cdp_at(vec![cdp("GITCODE_ACCESS_TOKEN", "a", Some("gitcode.com"))], NOW),
        Err(AuthError::NotLoggedIn)
    ));
}

#[test]
fn header_keeps_stored_order_for_equal_paths() {
    let auth = CookieAuth {
        cookies: vec![
            cookie("z", "1", ".gitcode.com", "/a", None),
            cookie("short", "2", ".gitcode.com", "/", None),
            cookie("y", "3", ".gitcode.com", "/b", None),
            cookie("x", "4", ".gitcode.com", "/a", None),
            cookie("long", "5", ".gitcode.com", "/a/b", None),
        ],
        source: "t".to_string(),
    };
    assert_eq!(auth.cookie_header_at("https://gitcode.com/a/b/c", NOW), "long=5; z=1; x=4; short=2");
}

#[test]
fn reloaded_login_keeps_its_cookies() {
    let cookies = vec![
        cookie("a", "1", ".gitcode.com", "/", None),
        cookie("", "1", ".gitcode.com", "/", None),
        cookie("b", "", ".gitcode.com", "/", None),
        cookie("c", "3", ".gitcode.com", "/", None),
    ];
    let first = CookieAuth::from_cache_data(cookies, "cache".to_string()).ok().unwrap();
    let again = CookieAuth::from_cache_data(first.cookies.clone(), first.source.clone()).ok().unwrap();
    let names = |a: &CookieAuth| a.cookies.iter().map(|c| (c.name.clone(), c.value.clone())).collect::<Vec<_>>();
    assert_eq!(names(&again), names(&first));
    assert_eq!(names(&first), vec![("a".to_string(), "1".to_string()), ("c".to_string(), "3".to_string())]);
    assert_eq!(again.source, "cache");
    assert_eq!(first.cookies.len(), 2);
}
