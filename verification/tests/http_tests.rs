use gitcode_jupyter_tool::http::{check_status, request_headers, response_body, Method, ResponseBody};
use std::collections::BTreeMap;

fn as_map(h: Vec<(String, String)>) -> BTreeMap<String, String> {
    let n = h.len();
    let m: BTreeMap<String, String> = h.into_iter().collect();
    assert_eq!(m.len(), n);
    m
}

#[test]
fn request_headers_combine_login_and_caller() {
    let extras = vec![
        ("Origin".to_string(), "https://ai.gitcode.com".to_string()),
        ("Referer".to_string(), "https://ai.gitcode.com/".to_string()),
        ("ACCEPT".to_string(), "text/html".to_string()),
    ];
    let h = as_map(request_headers(Method::Get, "a=1", "tok", &extras, false));
    assert_eq!(h.get("user-agent").unwrap(), "Mozilla/5.0 gitcode-jupyter-tool");
    assert_eq!(h.get("accept").unwrap(), "text/html");
    assert_eq!(h.get("cookie").unwrap(), "a=1");
    assert_eq!(h.get("origin").unwrap(), "https://ai.gitcode.com");
    assert!(h.get("x-xsrftoken").is_none());
    assert!(h.get("content-type").is_none());
    assert_eq!(h.len(), 5);

    let p = as_map(request_headers(Method::Post, "", "tok", &Vec::new(), true));
    assert_eq!(p.get("x-xsrftoken").unwrap(), "tok");
    assert_eq!(p.get("content-type").unwrap(), "application/json");
    assert!(p.get("cookie").is_none());

    let own = vec![("Content-Type".to_string(), "text/plain".to_string())];
    let q = as_map(request_headers(Method::Delete, "", "", &own, true));
    assert_eq!(q.get("content-type").unwrap(), "text/plain");
    assert!(q.get("x-xsrftoken").is_none());
}

#[test]
fn answer_statuses_are_classified() {
    assert_eq!(check_status(200, "u", "b"), Ok(()));
    assert_eq!(check_status(204, "u", ""), Ok(()));
    assert_eq!(
        check_status(403, "https://x", "nope"),
        Err("authenticated request rejected with HTTP 403: https://x".to_string())
    );
    assert_eq!(check_status(500, "https://x", "boom"), Err("HTTP 500: https://x: boom".to_string()));
    let long = "é".repeat(1500);
    let e = check_status(404, "u", &long).unwrap_err();
    assert_eq!(e, format!("HTTP 404: u: {}", "é".repeat(1000)));
    assert!(check_status(302, "u", "").is_err());
}

#[test]
fn answer_bodies_are_encoded_or_read() {
    match response_body(&b"hello world~".to_vec(), false) {
        ResponseBody::Encoded(s) => assert_eq!(s, "aGVsbG8gd29ybGR+"),
        _ => panic!(),
    }
    match response_body(&vec![0xff, 0x00], false) {
        ResponseBody::Encoded(s) => assert_eq!(s, "/wA="),
        _ => panic!(),
    }
    assert!(matches!(response_body(&Vec::new(), true), ResponseBody::Null));
    assert!(matches!(response_body(&b"{}".to_vec(), true), ResponseBody::Json));
    match response_body(&Vec::new(), false) {
        ResponseBody::Encoded(s) => assert_eq!(s, ""),
        _ => panic!(),
    }
}
