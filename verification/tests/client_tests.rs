use overleaf_mcp::client::{LoginReply, LoginStep, OverleafClient, Page, Verdict};
use overleaf_mcp::config::{server_instructions, OverleafConfig, OverleafCredentials};
use overleaf_mcp::error::OverleafError;
use overleaf_mcp::json::JsonArg;
use overleaf_mcp::project::{EntityKind, UploadResponse};

fn by_password() -> OverleafClient {
    let credentials = OverleafCredentials::Password {
        account: "me@example.com".to_string(),
        password: "SECRET-REDACTED".to_string(),
    };
    OverleafClient::new(OverleafConfig { endpoint: "https://o.example//".to_string(), credentials })
        .ok()
        .unwrap()
}

fn by_cookie(raw: &str) -> OverleafClient {
    let credentials = OverleafCredentials::SessionCookie(raw.to_string());
    OverleafClient::new(OverleafConfig { endpoint: "https://o.example".to_string(), credentials })
        .ok()
        .unwrap()
}

fn page(status: u16, path: &str, body: &str) -> Page {
    Page {
        status,
        url: format!("https://o.example{path}"),
        path: path.to_string(),
        body: body.to_string(),
    }
}

const TOKEN_PAGE: &str = "<meta name=\"ol-csrfToken\" content=\"\"><meta name=\"ol-csrfToken\" content=\"tok-1\"> name=\"ol-csrfToken\" content=\"tok-2\"";

#[test]
fn the_base_address_has_no_slash_at_its_end() {
    assert_eq!(by_password().endpoint(), "https://o.example");
    assert_eq!(by_cookie("x").endpoint(), "https://o.example");
}

#[test]
fn the_first_token_of_a_page_is_found() {
    let client = by_password();
    assert_eq!(client.page_csrf("/p", &page(200, "/p", TOKEN_PAGE)).unwrap(), "tok-1");
    let lines = "name=\"ol-csrfToken\" content=\"a\nb\"";
    assert_eq!(client.page_csrf("/p", &page(200, "/p", lines)).unwrap(), "a\nb");
    for body in ["", "name=\"ol-csrfToken\" content=\"open", "NAME=\"ol-csrfToken\" content=\"x\""] {
        assert_eq!(
            client.page_csrf("/p", &page(200, "/p", body)).unwrap_err().message(),
            "authentication failed: no CSRF token found on /p"
        );
    }
}

#[test]
fn the_token_is_what_the_regular_expression_finds() {
    let re = regex::Regex::new("name=\"ol-csrfToken\" content=\"([^\"]+)\"").unwrap();
    let client = by_password();
    let lead = "name=\"ol-csrfToken\" content=\"";
    for body in [
        TOKEN_PAGE.to_string(),
        format!("{lead}{lead}x\""),
        format!("{lead}\"{lead}é\""),
        format!("x{lead}a"),
        format!("{lead}a\"{lead}b\""),
    ] {
        let expected = re.captures(&body).map(|c| c[1].to_string());
        assert_eq!(client.page_csrf("/p", &page(200, "/p", &body)).ok(), expected);
    }
}

#[test]
fn answers_are_judged_by_status() {
    assert!(OverleafClient::ok_status(204, "u", "").is_ok());
    let long = "x".repeat(600);
    match OverleafClient::ok_status(404, "http://u", &long).unwrap_err() {
        OverleafError::Status { status, url, body } => {
            assert_eq!((status, url.as_str(), body.len()), (404, "http://u", 500));
        }
        other => panic!("{other:?}"),
    }
    assert_eq!(
        OverleafClient::ok_status(500, "http://u", "boom").unwrap_err().message(),
        "unexpected status 500 for http://u: boom"
    );
    assert!(!OverleafClient::is_success(199) && !OverleafClient::is_success(300));
}

#[test]
fn stale_sessions_lead_to_one_login() {
    assert!(OverleafClient::needs_reauth(401, "/x"));
    assert!(OverleafClient::needs_reauth(403, "/x"));
    assert!(OverleafClient::needs_reauth(200, "/login"));
    assert!(!OverleafClient::needs_reauth(200, "/login2"));
    assert_eq!(OverleafClient::judge(0, 401, "/x"), Verdict::Relogin);
    assert_eq!(OverleafClient::judge(1, 401, "/x"), Verdict::Reject);
    assert_eq!(OverleafClient::judge(1, 200, "/login"), Verdict::Accept);
    assert_eq!(OverleafClient::judge(0, 200, "/x"), Verdict::Accept);
}

#[test]
fn cookies_come_from_the_credentials() {
    let client = by_cookie(" a=1; ;b=2 ;");
    assert_eq!(client.cookies(), ["a=1; Path=/; Secure", "b=2; Path=/; Secure"]);
    assert!(by_password().cookies().is_empty());
}

#[test]
fn login_by_cookie_only_checks_the_session() {
    let mut client = by_cookie("a=1");
    assert_eq!(client.login_start(), "/project");
    assert!(matches!(client.login(&page(200, "/project", TOKEN_PAGE)), Ok(LoginStep::Done)));
    assert_eq!(client.csrf_token(), Some("tok-1".to_string()));
    assert_eq!(
        client.login(&page(200, "/login", TOKEN_PAGE)).unwrap_err().message(),
        "authentication failed: session cookie rejected or expired — refresh OVERLEAF_COOKIE from a logged-in browser"
    );
    assert_eq!(
        client.login(&page(200, "/project", "")).unwrap_err().message(),
        "authentication failed: no CSRF token on /project page"
    );
    assert!(client.login(&page(502, "/project", "")).is_err());
    assert_eq!(client.csrf_token(), Some("tok-1".to_string()));
}

#[test]
fn login_by_password_submits_the_token() {
    let mut client = by_password();
    assert_eq!(client.login_start(), "/login");
    match client.login(&page(200, "/login", TOKEN_PAGE)).unwrap() {
        LoginStep::Submit { csrf, email, password } => {
            assert_eq!((csrf.as_str(), email.as_str()), ("tok-1", "me@example.com"));
            assert_eq!(password, "SECRET-REDACTED");
        }
        other => panic!("{other:?}"),
    }
    assert_eq!(client.csrf_token(), None);
    assert_eq!(client.session_page(&page(200, "/project", TOKEN_PAGE)).unwrap(), "tok-1");
    assert_eq!(client.csrf_token(), Some("tok-1".to_string()));
    assert_eq!(
        client.session_page(&page(200, "/project", "")).unwrap_err().message(),
        "authentication failed: no CSRF token found on /project"
    );
}

fn reply(status: u16, text: &str, kind: Option<&str>, body: &str) -> LoginReply {
    LoginReply {
        status,
        status_text: text.to_string(),
        content_type: kind.map(str::to_string),
        body: body.to_string(),
    }
}

#[test]
fn login_answers_are_understood() {
    let json = Some("application/json; charset=utf-8");
    let good = reply(200, "200 OK", json, "{\"redir\":\"/project\"}");
    assert!(OverleafClient::login_answered(&good).is_ok());
    assert!(OverleafClient::login_answered(&reply(200, "200 OK", Some("text/html"), "x")).is_ok());
    assert!(OverleafClient::login_answered(&reply(200, "200 OK", None, "x")).is_ok());
    let bad = reply(401, "401 Unauthorized", json, &"e".repeat(400));
    assert_eq!(
        OverleafClient::login_answered(&bad).unwrap_err().message(),
        format!("authentication failed: login failed (401 Unauthorized): {}", "e".repeat(300))
    );
    let odd = reply(200, "200 OK", json, "{ \"message\" : 1 }");
    assert_eq!(
        OverleafClient::login_answered(&odd).unwrap_err().message(),
        "authentication failed: login rejected: {\"message\":1}"
    );
    let broken = reply(200, "200 OK", json, "<html>");
    assert!(OverleafClient::login_answered(&broken).unwrap_err().message().starts_with("json error: "));
    assert!(OverleafClient::login_json(JsonArg::read("[\"redir\"]")).is_err());
}

#[test]
fn sessions_are_named_by_the_handshake() {
    assert_eq!(OverleafClient::rt_handshake("abc:60:60:x").unwrap(), "abc");
    assert_eq!(
        OverleafClient::rt_handshake(":60").unwrap_err().message(),
        "realtime protocol error: bad socket.io handshake response: :60"
    );
}

#[test]
fn addresses_of_the_web_interface() {
    assert_eq!(OverleafClient::rt_handshake_path("p", 12), "/socket.io/1/?projectId=p&t=12");
    assert_eq!(OverleafClient::rt_polling_path("s", 0), "/socket.io/1/xhr-polling/s?t=0");
    assert_eq!(OverleafClient::download_doc_path("p", "d"), "/Project/p/doc/d/download");
    assert_eq!(OverleafClient::download_file_path("p", "f"), "/Project/p/file/f");
    assert_eq!(OverleafClient::create_doc_path("p"), "/project/p/doc");
    assert_eq!(OverleafClient::create_folder_path("p"), "/project/p/folder");
    assert_eq!(
        OverleafClient::delete_entity_path("p", EntityKind::File, "e"),
        "/project/p/file/e"
    );
    assert_eq!(
        OverleafClient::rename_entity_path("p", EntityKind::Doc, "e"),
        "/project/p/doc/e/rename"
    );
    assert_eq!(
        OverleafClient::move_entity_path("p", EntityKind::Folder, "e"),
        "/project/p/folder/e/move"
    );
    assert_eq!(OverleafClient::upload_file_path("p", "f"), "/Project/p/upload?folder_id=f");
    assert_eq!(OverleafClient::flush_history_path("p"), "/project/p/flush");
    assert_eq!(
        OverleafClient::history_updates_path("p", Some(-7), 25),
        "/project/p/updates?min_count=25&before=-7"
    );
    assert_eq!(
        OverleafClient::history_updates_path("p", None, 25),
        "/project/p/updates?min_count=25"
    );
    assert_eq!(OverleafClient::history_labels_path("p"), "/project/p/labels");
    assert_eq!(OverleafClient::compile_path("p"), "/project/p/compile?auto_compile=false");
    assert_eq!(OverleafClient::download_output_path("/o", None), "/o");
    assert_eq!(OverleafClient::download_output_path("/o", Some("c")), "/o?clsiserverid=c");
    assert_eq!(OverleafClient::download_output_path("/o?a=1", Some("c")), "/o?a=1&clsiserverid=c");
}

#[test]
fn sizes_and_uploads() {
    assert_eq!(OverleafClient::file_size(Some("123")), Some(123));
    assert_eq!(OverleafClient::file_size(Some("x")), None);
    assert_eq!(OverleafClient::file_size(None), None);
    let answer = |success| UploadResponse { success, entity_id: None, entity_type: None };
    assert!(OverleafClient::upload_file("a.png", answer(true)).is_ok());
    assert_eq!(
        OverleafClient::upload_file("a.png", answer(false)).unwrap_err().message(),
        "edit rejected: upload of a.png rejected by server"
    );
}

#[test]
fn credentials_are_chosen() {
    let some = |s: &str| Some(s.to_string());
    match OverleafCredentials::choose_from(some("c=1"), some("a"), None).unwrap() {
        OverleafCredentials::SessionCookie(cookie) => assert_eq!(cookie, "c=1"),
        other => panic!("{other:?}"),
    }
    match OverleafCredentials::choose_from(None, some("a"), some("SECRET-REDACTED")).unwrap() {
        OverleafCredentials::Password { account, .. } => assert_eq!(account, "a"),
        other => panic!("{other:?}"),
    }
    assert_eq!(
        OverleafCredentials::choose_from(None, some("a"), None).unwrap_err(),
        "credentials missing: set OVERLEAF_ACCOUNT and OVERLEAF_PASSWORD, or OVERLEAF_COOKIE for CAPTCHA-gated servers"
    );
}

#[test]
fn instructions_name_the_project() {
    assert_eq!(
        server_instructions("Paper", "p1", false),
        "This server is restricted to the Overleaf project 'Paper' (id p1). Every tool call operates on that project, so omit the `project` parameter; naming any other project is denied."
    );
    assert_eq!(
        server_instructions("Paper", "p1", true),
        "The default Overleaf project is 'Paper' (id p1): tool calls that omit the `project` parameter operate on it. Other accessible projects may still be named explicitly."
    );
}

#[test]
fn errors_have_messages() {
    let text = "x".to_string();
    for (error, message) in [
        (OverleafError::Http(text.clone()), "http request failed: x"),
        (OverleafError::Auth(text.clone()), "authentication failed: x"),
        (OverleafError::NotFound(text.clone()), "not found: x"),
        (OverleafError::Protocol(text.clone()), "realtime protocol error: x"),
        (OverleafError::OutOfSync(text.clone()), "document out of sync: x"),
        (OverleafError::Edit(text.clone()), "edit rejected: x"),
        (OverleafError::Denied(text.clone()), "access denied: x"),
        (OverleafError::Io(text.clone()), "io error: x"),
        (OverleafError::Json(text.clone()), "json error: x"),
        (OverleafError::Timeout(text), "timed out: x"),
    ] {
        assert_eq!(error.message(), message);
    }
}
