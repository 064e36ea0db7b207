//! The web interface of an Overleaf server: where requests go and what their
//! answers mean.
use vstd::prelude::*;

use crate::config::{without_slashes, OverleafConfig, OverleafCredentials};
use crate::error::{concat, unit_result, ErrorView, OverleafError, Result};
use crate::json::{field_of, json_in, ArgView, JsonArg};
use crate::matcher::{csrf_in, csrf_pattern, Matcher};
use crate::number::{decimal, parse_unsigned, push_decimal, push_signed, signed_decimal, unsigned_in};
use crate::pieces::{
    cut_at_the_separator, cut_once, head_of, no_separator_to_cut_at, split, split_on,
    texts_are_split_piece_by_piece,
};
use crate::project::{kind_word, EntityKind, UploadResponse};
use crate::text::{
    begins_with, characters_are_taken_from_the_start, clone_opt, contains_char, contains_text,
    first_chars, has_text, opt_str, opt_text, same_text, taken, texts, trim, trimmed,
};

verus! {

// --- answers -------------------------------------------------------------

/// Whether a status means success.
pub open spec fn success(status: u16) -> bool {
    200 <= status < 300
}

/// The error for an answer with another status. It holds at most the first 500
/// characters of the body.
pub open spec fn status_failure(status: u16, url: Seq<char>, body: Seq<char>) -> ErrorView {
    ErrorView::Status { status, url, body: taken(body, 500) }
}

/// Whether an answer means that the session, or the CSRF token, went stale:
/// access was refused, or the request ended on the login page.
pub open spec fn stale(status: u16, path: Seq<char>) -> bool {
    status == 401 || status == 403 || path == "/login"@
}

/// What to do with an answer.
#[derive(Debug, Clone, Copy, PartialEq, Eq, Structural)]
pub enum Verdict {
    /// Log in again and repeat the request.
    Relogin,
    /// Take the answer.
    Accept,
    /// Report the status as an error.
    Reject,
}

/// What to do with an answer. Only the first attempt leads to a new login.
pub open spec fn verdict_on(attempt: u32, status: u16, path: Seq<char>) -> Verdict {
    if attempt == 0 && stale(status, path) {
        Verdict::Relogin
    } else if success(status) {
        Verdict::Accept
    } else {
        Verdict::Reject
    }
}

/// A request is sent at most twice.
pub proof fn second_attempt_is_final(status: u16, path: Seq<char>, attempt: u32)
    requires
        attempt > 0,
    ensures
        verdict_on(attempt, status, path) != Verdict::Relogin,
{
}

/// An answer to a request for a page.
#[derive(Debug)]
pub struct Page {
    pub status: u16,
    /// The address that the request ended on.
    pub url: String,
    /// The path of that address.
    pub path: String,
    pub body: String,
}

/// The error for a page that could not be had.
pub open spec fn page_failure(page: Page) -> ErrorView {
    status_failure(page.status, page.url@, page.body@)
}

/// The CSRF token of a page, or the error for a page without one.
pub open spec fn page_token(page: Page, missing: ErrorView) -> core::result::Result<
    Seq<char>,
    ErrorView,
> {
    if !success(page.status) {
        Err(page_failure(page))
    } else {
        match csrf_in(page.body@) {
            Some(token) => Ok(token),
            None => Err(missing),
        }
    }
}

/// The error for a page of the server without a CSRF token.
pub open spec fn no_token_on(path: Seq<char>) -> ErrorView {
    ErrorView::Auth("no CSRF token found on "@ + path)
}

/// The answer to a login.
#[derive(Debug)]
pub struct LoginReply {
    pub status: u16,
    /// The status with its name, such as `401 Unauthorized`.
    pub status_text: String,
    pub content_type: Option<String>,
    pub body: String,
}

/// Whether an answer says that it holds JSON.
pub open spec fn says_json(reply: LoginReply) -> bool {
    match reply.content_type {
        Some(kind) => has_text(kind@, "json"@),
        None => false,
    }
}

/// What a JSON answer to a login means: it must name the page to go to.
pub open spec fn login_json_verdict(
    parsed: core::result::Result<ArgView, Seq<char>>,
) -> core::result::Result<(), ErrorView> {
    match parsed {
        Err(e) => Err(ErrorView::Json(e)),
        Ok(value) => if field_of(value.body, "redir"@) is None {
            Err(ErrorView::Auth("login rejected: "@ + value.text))
        } else {
            Ok(())
        },
    }
}

/// What the answer to a login means.
pub open spec fn login_verdict(reply: LoginReply) -> core::result::Result<(), ErrorView> {
    if !success(reply.status) {
        Err(
            ErrorView::Auth(
                "login failed ("@ + reply.status_text@ + "): "@ + taken(reply.body@, 300),
            ),
        )
    } else if says_json(reply) {
        login_json_verdict(json_in(reply.body@))
    } else {
        Ok(())
    }
}

/// The error for cookies that the server does not take.
pub open spec fn cookie_rejected() -> ErrorView {
    ErrorView::Auth(
        "session cookie rejected or expired — refresh OVERLEAF_COOKIE from a logged-in browser"@,
    )
}

/// The name of the session that a handshake opens.
pub open spec fn session_name(answer: Seq<char>) -> core::result::Result<Seq<char>, ErrorView> {
    let sid = head_of(answer, ':');
    if sid.len() == 0 {
        Err(ErrorView::Protocol("bad socket.io handshake response: "@ + answer))
    } else {
        Ok(sid)
    }
}

// --- the client ----------------------------------------------------------

/// What a client of the web interface knows: whom it talks to, and the CSRF
/// token of its session.
pub struct OverleafClient {
    pub cfg: OverleafConfig,
    pub base: String,
    pub csrf: Option<String>,
    pub csrf_re: Matcher,
}

/// What a login needs next.
#[derive(Debug)]
pub enum LoginStep {
    /// The login is complete.
    Done,
    /// Submit these to the login page.
    Submit { csrf: String, email: String, password: String },
}

/// What a login needs next, as plain values.
pub enum LoginStepView {
    Done,
    Submit { csrf: Seq<char>, email: Seq<char>, password: Seq<char> },
}

impl View for LoginStep {
    type V = LoginStepView;

    open spec fn view(&self) -> LoginStepView {
        match *self {
            LoginStep::Done => LoginStepView::Done,
            LoginStep::Submit { csrf, email, password } => LoginStepView::Submit {
                csrf: csrf@,
                email: email@,
                password: password@,
            },
        }
    }
}

impl OverleafClient {
    /// Whether the client reads CSRF tokens as it should.
    pub open spec fn ready(self) -> bool {
        self.csrf_re.pattern() == csrf_pattern() && !self.csrf_re.ignores_case()
    }
}

/// The non-empty pieces between semicolons, without white space around them.
pub open spec fn cookie_pairs(parts: Seq<Seq<char>>) -> Seq<Seq<char>>
    decreases parts.len(),
{
    if parts.len() == 0 {
        Seq::empty()
    } else {
        let before = cookie_pairs(parts.drop_last());
        let pair = trimmed(parts.last());
        if pair.len() == 0 {
            before
        } else {
            before.push(pair + "; Path=/; Secure"@)
        }
    }
}

/// The cookies that the credentials bring along.
pub open spec fn cookies_of(raw: Seq<char>) -> Seq<Seq<char>> {
    cookie_pairs(split_on(raw, ';'))
}

/// The page that a login begins with.
pub open spec fn login_page(credentials: OverleafCredentials) -> Seq<char> {
    match credentials {
        OverleafCredentials::SessionCookie(_) => "/project"@,
        OverleafCredentials::Password { .. } => "/login"@,
    }
}

/// What the first page of a login means. Cookies are only checked: there is
/// nothing to log in to. With a password, the token of the page is submitted.
pub open spec fn login_begun(credentials: OverleafCredentials, page: Page) -> core::result::Result<
    (Option<Seq<char>>, LoginStepView),
    ErrorView,
> {
    match credentials {
        OverleafCredentials::SessionCookie(_) => if page.path@ == "/login"@ {
            Err(cookie_rejected())
        } else {
            match page_token(page, ErrorView::Auth("no CSRF token on /project page"@)) {
                Ok(token) => Ok((Some(token), LoginStepView::Done)),
                Err(e) => Err(e),
            }
        },
        OverleafCredentials::Password { account, password } => match page_token(
            page,
            no_token_on("/login"@),
        ) {
            Ok(token) => Ok(
                (
                    None,
                    LoginStepView::Submit { csrf: token, email: account@, password: password@ },
                ),
            ),
            Err(e) => Err(e),
        },
    }
}

impl OverleafClient {
    /// A client that has not logged in yet.
    pub fn new(cfg: OverleafConfig) -> (client: Result<Self>)
        ensures
            match client {
                Ok(c) => {
                    &&& c.cfg == cfg
                    &&& c.base@ == without_slashes(cfg.endpoint@)
                    &&& c.csrf is None
                    &&& c.ready()
                },
                Err(_) => false,
            },
    {
        let base = cfg.base();
        match Matcher::compile("name=\"ol-csrfToken\" content=\"([^\"]+)\"", false) {
            Ok(csrf_re) => Ok(OverleafClient { cfg, base, csrf: None, csrf_re }),
            Err(e) => Err(OverleafError::Protocol(concat("csrf regex: ", e.as_str()))),
        }
    }

    /// The address of the server, without a slash at its end.
    pub fn endpoint(&self) -> (url: &str)
        ensures
            url@ == self.base@,
    {
        self.base.as_str()
    }

    /// Whether an answer means that the session went stale.
    pub fn needs_reauth(status: u16, path: &str) -> (yes: bool)
        ensures
            yes == stale(status, path@),
    {
        status == 401 || status == 403 || same_text(path, "/login")
    }

    /// Whether a status means success.
    pub fn is_success(status: u16) -> (yes: bool)
        ensures
            yes == success(status),
    {
        200 <= status && status < 300
    }

    /// What to do with an answer.
    pub fn judge(attempt: u32, status: u16, path: &str) -> (verdict: Verdict)
        ensures
            verdict == verdict_on(attempt, status, path@),
    {
        if attempt == 0 && Self::needs_reauth(status, path) {
            Verdict::Relogin
        } else if Self::is_success(status) {
            Verdict::Accept
        } else {
            Verdict::Reject
        }
    }

    /// Takes an answer by its status.
    pub fn ok_status(status: u16, url: &str, body: &str) -> (res: Result<()>)
        ensures
            unit_result(res) == (if success(status) {
                Ok(())
            } else {
                Err(status_failure(status, url@, body@))
            }),
    {
        if Self::is_success(status) {
            return Ok(());
        }
        Err(
            OverleafError::Status { status, url: url.to_owned(), body: first_chars(body, 500) },
        )
    }

    /// The cookies to begin with.
    pub fn cookies(&self) -> (cookies: Vec<String>)
        ensures
            texts(cookies@) == (match self.cfg.credentials {
                OverleafCredentials::SessionCookie(raw) => cookies_of(raw@),
                OverleafCredentials::Password { .. } => Seq::empty(),
            }),
    {
        let mut cookies: Vec<String> = Vec::new();
        assert(texts(cookies@) =~= Seq::<Seq<char>>::empty());
        if let OverleafCredentials::SessionCookie(raw) = &self.cfg.credentials {
            let parts = split(raw.as_str(), ';');
            let ghost all = texts(parts@);
            let mut i: usize = 0;
            assert(all.take(0) =~= Seq::<Seq<char>>::empty());
            while i < parts.len()
                invariant
                    i <= parts@.len(),
                    all == texts(parts@),
                    texts(cookies@) == cookie_pairs(all.take(i as int)),
                decreases parts@.len() - i,
            {
                assert(all.take(i + 1).drop_last() =~= all.take(i as int));
                let ghost before = texts(cookies@);
                let pair = trim(parts[i].as_str());
                if !pair.as_str().is_empty() {
                    let cookie = concat(pair.as_str(), "; Path=/; Secure");
                    cookies.push(cookie);
                    assert(texts(cookies@) =~= before.push(cookie@));
                }
                i += 1;
            }
            assert(all.take(parts@.len() as int) =~= all);
        }
        cookies
    }

    fn token_of(&self, page: &Page, missing: OverleafError) -> (token: Result<String>)
        requires
            self.ready(),
        ensures
            page_token(*page, missing@) == (match token {
                Ok(t) => Ok(t@),
                Err(e) => Err(e@),
            }),
    {
        match Self::ok_status(page.status, page.url.as_str(), page.body.as_str()) {
            Ok(_) => match self.csrf_re.first_group(page.body.as_str()) {
                Some(token) => Ok(token),
                None => Err(missing),
            },
            Err(e) => Err(e),
        }
    }

    /// The CSRF token of the page at `path`.
    pub fn page_csrf(&self, path: &str, page: &Page) -> (token: Result<String>)
        requires
            self.ready(),
        ensures
            page_token(*page, no_token_on(path@)) == (match token {
                Ok(t) => Ok(t@),
                Err(e) => Err(e@),
            }),
    {
        self.token_of(page, OverleafError::Auth(concat("no CSRF token found on ", path)))
    }

    /// The page that a login begins with.
    pub fn login_start(&self) -> (path: &'static str)
        ensures
            path@ == login_page(self.cfg.credentials),
    {
        match &self.cfg.credentials {
            OverleafCredentials::SessionCookie(_) => "/project",
            OverleafCredentials::Password { .. } => "/login",
        }
    }

    /// Takes in the first page of a login.
    pub fn login(&mut self, page: &Page) -> (step: Result<LoginStep>)
        requires
            old(self).ready(),
        ensures
            final(self).ready(),
            final(self).cfg == old(self).cfg,
            final(self).base == old(self).base,
            match login_begun(old(self).cfg.credentials, *page) {
                Ok((token, next)) => {
                    &&& step matches Ok(s) && s@ == next
                    &&& opt_text(final(self).csrf) == (if token is Some {
                        token
                    } else {
                        opt_text(old(self).csrf)
                    })
                },
                Err(e) => {
                    &&& step matches Err(x) && x@ == e
                    &&& final(self).csrf == old(self).csrf
                },
            },
    {
        let (email, password) = match &self.cfg.credentials {
            OverleafCredentials::SessionCookie(_) => {
                if same_text(page.path.as_str(), "/login") {
                    return Err(
                        OverleafError::Auth(
                            "session cookie rejected or expired — refresh OVERLEAF_COOKIE from a logged-in browser".to_owned(),
                        ),
                    );
                }
                let missing = OverleafError::Auth("no CSRF token on /project page".to_owned());
                match self.token_of(page, missing) {
                    Ok(token) => {
                        self.csrf = Some(token);
                        return Ok(LoginStep::Done);
                    },
                    Err(e) => {
                        return Err(e);
                    },
                }
            },
            OverleafCredentials::Password { account, password } => (
                account.clone(),
                password.clone(),
            ),
        };
        match self.page_csrf("/login", page) {
            Ok(csrf) => Ok(LoginStep::Submit { csrf, email, password }),
            Err(e) => Err(e),
        }
    }

    /// What a JSON answer to a login means.
    pub fn login_json(parsed: core::result::Result<JsonArg, String>) -> (res: Result<()>)
        ensures
            unit_result(res) == login_json_verdict(
                match parsed {
                    Ok(value) => Ok(value@),
                    Err(e) => Err(e@),
                },
            ),
    {
        match parsed {
            Err(e) => Err(OverleafError::Json(e)),
            Ok(value) => match value.body.get("redir") {
                None => Err(
                    OverleafError::Auth(concat("login rejected: ", value.text.as_str())),
                ),
                Some(_) => Ok(()),
            },
        }
    }

    /// What the answer to a login means. After a success the token of the new
    /// session has to be fetched from `/project`.
    pub fn login_answered(reply: &LoginReply) -> (res: Result<()>)
        ensures
            unit_result(res) == login_verdict(*reply),
    {
        if !Self::is_success(reply.status) {
            let mut text = concat("login failed (", reply.status_text.as_str());
            text.append("): ");
            text.append(first_chars(reply.body.as_str(), 300).as_str());
            return Err(OverleafError::Auth(text));
        }
        let json = match &reply.content_type {
            Some(kind) => contains_text(kind.as_str(), "json"),
            None => false,
        };
        if json {
            return Self::login_json(JsonArg::read(reply.body.as_str()));
        }
        Ok(())
    }

    /// Takes in the page that holds the token of the session.
    pub fn session_page(&mut self, page: &Page) -> (token: Result<String>)
        requires
            old(self).ready(),
        ensures
            final(self).ready(),
            final(self).cfg == old(self).cfg,
            final(self).base == old(self).base,
            match page_token(*page, no_token_on("/project"@)) {
                Ok(t) => {
                    &&& token matches Ok(x) && x@ == t
                    &&& opt_text(final(self).csrf) == Some(t)
                },
                Err(e) => {
                    &&& token matches Err(x) && x@ == e
                    &&& final(self).csrf == old(self).csrf
                },
            },
    {
        match self.page_csrf("/project", page) {
            Ok(token) => {
                self.csrf = Some(token.clone());
                Ok(token)
            },
            Err(e) => Err(e),
        }
    }

    /// The token of the session, where it is known; otherwise `/project` has to
    /// be fetched.
    pub fn csrf_token(&self) -> (token: Option<String>)
        ensures
            opt_text(token) == opt_text(self.csrf),
    {
        clone_opt(&self.csrf)
    }
}

// --- addresses -----------------------------------------------------------

/// The path of the handshake for a project's session.
pub open spec fn handshake_path(project: Seq<char>, now_ms: u64) -> Seq<char> {
    "/socket.io/1/?projectId="@ + project + "&t="@ + decimal(now_ms as nat)
}

/// The path for polls of a session and messages to it.
pub open spec fn polling_path(sid: Seq<char>, now_ms: u64) -> Seq<char> {
    "/socket.io/1/xhr-polling/"@ + sid + "?t="@ + decimal(now_ms as nat)
}

/// The path of an entity in a project.
pub open spec fn entity_path(project: Seq<char>, kind: EntityKind, id: Seq<char>) -> Seq<char> {
    "/project/"@ + project + "/"@ + kind_word(kind) + "/"@ + id
}

/// The path of a list of updates.
pub open spec fn updates_path(
    project: Seq<char>,
    before: Option<i64>,
    min_count: usize,
) -> Seq<char> {
    let path = "/project/"@ + project + "/updates?min_count="@ + decimal(min_count as nat);
    match before {
        Some(before) => path + "&before="@ + signed_decimal(before as int),
        None => path,
    }
}

/// The path of a file that a compile put out.
pub open spec fn output_path(url: Seq<char>, clsi: Option<Seq<char>>) -> Seq<char> {
    match clsi {
        Some(id) => url + (if url.contains('?') {
            "&"@
        } else {
            "?"@
        }) + "clsiserverid="@ + id,
        None => url,
    }
}

/// `a` followed by `b` and `c`.
fn three(a: &str, b: &str, c: &str) -> (out: String)
    ensures
        out@ == a@ + b@ + c@,
{
    let mut out = concat(a, b);
    out.append(c);
    out
}

impl OverleafClient {
    /// The path of the handshake for a project's session.
    pub fn rt_handshake_path(project_id: &str, now_ms: u64) -> (path: String)
        ensures
            path@ == handshake_path(project_id@, now_ms),
    {
        let mut path = three("/socket.io/1/?projectId=", project_id, "&t=");
        push_decimal(&mut path, now_ms);
        path
    }

    /// The name of the session that a handshake opens.
    pub fn rt_handshake(answer: &str) -> (sid: Result<String>)
        ensures
            session_name(answer@) == (match sid {
                Ok(s) => Ok(s@),
                Err(e) => Err(e@),
            }),
    {
        let sid = cut_once(answer, ':').0;
        if sid.as_str().is_empty() {
            return Err(
                OverleafError::Protocol(concat("bad socket.io handshake response: ", answer)),
            );
        }
        Ok(sid)
    }

    /// The path for polls of a session and messages to it.
    pub fn rt_polling_path(sid: &str, now_ms: u64) -> (path: String)
        ensures
            path@ == polling_path(sid@, now_ms),
    {
        let mut path = three("/socket.io/1/xhr-polling/", sid, "?t=");
        push_decimal(&mut path, now_ms);
        path
    }

    /// The path of a doc's text.
    pub fn download_doc_path(project_id: &str, doc_id: &str) -> (path: String)
        ensures
            path@ == "/Project/"@ + project_id@ + "/doc/"@ + doc_id@ + "/download"@,
    {
        let mut path = three("/Project/", project_id, "/doc/");
        path.append(doc_id);
        path.append("/download");
        path
    }

    /// The path of a file's bytes.
    pub fn download_file_path(project_id: &str, file_id: &str) -> (path: String)
        ensures
            path@ == "/Project/"@ + project_id@ + "/file/"@ + file_id@,
    {
        let mut path = three("/Project/", project_id, "/file/");
        path.append(file_id);
        path
    }

    /// The size that a header gives.
    pub fn file_size(content_length: Option<&str>) -> (size: Option<u64>)
        ensures
            size == (match opt_str(content_length) {
                Some(text) => unsigned_in(text),
                None => None,
            }),
    {
        match content_length {
            Some(text) => parse_unsigned(text),
            None => None,
        }
    }

    /// The path for new docs of a project.
    pub fn create_doc_path(project_id: &str) -> (path: String)
        ensures
            path@ == "/project/"@ + project_id@ + "/doc"@,
    {
        three("/project/", project_id, "/doc")
    }

    /// The path for new folders of a project.
    pub fn create_folder_path(project_id: &str) -> (path: String)
        ensures
            path@ == "/project/"@ + project_id@ + "/folder"@,
    {
        three("/project/", project_id, "/folder")
    }

    /// The path of an entity, under which it can be deleted.
    pub fn delete_entity_path(project_id: &str, kind: EntityKind, entity_id: &str) -> (path: String)
        ensures
            path@ == entity_path(project_id@, kind, entity_id@),
    {
        let mut path = three("/project/", project_id, "/");
        path.append(kind.route_segment());
        path.append("/");
        path.append(entity_id);
        path
    }

    /// The path for renaming an entity.
    pub fn rename_entity_path(project_id: &str, kind: EntityKind, entity_id: &str) -> (path: String)
        ensures
            path@ == entity_path(project_id@, kind, entity_id@) + "/rename"@,
    {
        let mut path = Self::delete_entity_path(project_id, kind, entity_id);
        path.append("/rename");
        path
    }

    /// The path for moving an entity.
    pub fn move_entity_path(project_id: &str, kind: EntityKind, entity_id: &str) -> (path: String)
        ensures
            path@ == entity_path(project_id@, kind, entity_id@) + "/move"@,
    {
        let mut path = Self::delete_entity_path(project_id, kind, entity_id);
        path.append("/move");
        path
    }

    /// The path for uploads into a folder.
    pub fn upload_file_path(project_id: &str, folder_id: &str) -> (path: String)
        ensures
            path@ == "/Project/"@ + project_id@ + "/upload?folder_id="@ + folder_id@,
    {
        let mut path = three("/Project/", project_id, "/upload?folder_id=");
        path.append(folder_id);
        path
    }

    /// What the answer to an upload means.
    pub fn upload_file(name: &str, answer: UploadResponse) -> (res: Result<UploadResponse>)
        ensures
            match res {
                Ok(taken) => answer.success && taken == answer,
                Err(e) => !answer.success && e@ == ErrorView::Edit(
                    "upload of "@ + name@ + " rejected by server"@,
                ),
            },
    {
        if !answer.success {
            return Err(OverleafError::Edit(three("upload of ", name, " rejected by server")));
        }
        Ok(answer)
    }

    /// The path that brings pending edits into the history.
    pub fn flush_history_path(project_id: &str) -> (path: String)
        ensures
            path@ == "/project/"@ + project_id@ + "/flush"@,
    {
        three("/project/", project_id, "/flush")
    }

    /// The path of the updates in a project's history.
    pub fn history_updates_path(
        project_id: &str,
        before: Option<i64>,
        min_count: usize,
    ) -> (path: String)
        ensures
            path@ == updates_path(project_id@, before, min_count),
    {
        let mut path = three("/project/", project_id, "/updates?min_count=");
        push_decimal(&mut path, min_count as u64);
        if let Some(before) = before {
            path.append("&before=");
            push_signed(&mut path, before);
        }
        path
    }

    /// The path of a project's labels.
    pub fn history_labels_path(project_id: &str) -> (path: String)
        ensures
            path@ == "/project/"@ + project_id@ + "/labels"@,
    {
        three("/project/", project_id, "/labels")
    }

    /// The path that starts a compile.
    pub fn compile_path(project_id: &str) -> (path: String)
        ensures
            path@ == "/project/"@ + project_id@ + "/compile?auto_compile=false"@,
    {
        three("/project/", project_id, "/compile?auto_compile=false")
    }

    /// The path of a file that a compile put out, with the id of the server
    /// that compiled it, where there is one.
    pub fn download_output_path(url_path: &str, clsi_server_id: Option<&str>) -> (path: String)
        ensures
            path@ == output_path(url_path@, opt_str(clsi_server_id)),
    {
        let mut path = url_path.to_owned();
        if let Some(clsi) = clsi_server_id {
            if contains_char(url_path, '?') {
                path.append("&");
            } else {
                path.append("?");
            }
            path.append("clsiserverid=");
            path.append(clsi);
        }
        path
    }
}

/// An answer is taken when its status begins with a two, and it is reported
/// otherwise. Only a first answer that refuses access, or that ended on the
/// login page, leads to a new login.
pub proof fn answers_are_taken_by_their_status(status: u16, path: Seq<char>, attempt: u32)
    ensures
        success(status) <==> status / 100 == 2,
        verdict_on(0, 401, path) == Verdict::Relogin,
        verdict_on(0, 403, path) == Verdict::Relogin,
        verdict_on(0, status, "/login"@) == Verdict::Relogin,
        path != "/login"@ && status != 401 && status != 403 || attempt > 0 ==> verdict_on(
            attempt,
            status,
            path,
        ) == if status / 100 == 2 {
            Verdict::Accept
        } else {
            Verdict::Reject
        },
{
}

/// The error for a status keeps it, the address and the beginning of the body:
/// all of a short one, else five hundred characters.
pub proof fn failure_keeps_what_the_server_said(status: u16, url: Seq<char>, body: Seq<char>)
    ensures
        status_failure(status, url, body) matches ErrorView::Status { status: s, url: u, body: b }
            && s == status && u == url && begins_with(body, b) && (b.len() == 500 || b == body
            && b.len() < 500),
{
    characters_are_taken_from_the_start(body, 500);
}

/// A token comes only from a page that the server gave, and it is the one on
/// that page.
pub proof fn token_comes_from_the_page(page: Page, missing: ErrorView)
    ensures
        page.status / 100 == 2 ==> page_token(page, missing) == match csrf_in(page.body@) {
            Some(token) => Ok::<Seq<char>, ErrorView>(token),
            None => Err(missing),
        },
        page.status / 100 != 2 ==> (page_token(page, missing) matches Err(
            ErrorView::Status { status, .. },
        ) && status == page.status),
{
}

/// With a password, the token of the login page goes to the server together
/// with account and password as they are set. With a cookie, nothing is
/// submitted, and ending on the login page means that the cookie is not taken.
pub proof fn login_submits_what_is_set(
    credentials: OverleafCredentials,
    page: Page,
    token: Seq<char>,
)
    requires
        page.status / 100 == 2,
        csrf_in(page.body@) == Some(token),
    ensures
        credentials matches OverleafCredentials::Password { account, password } ==> login_begun(
            credentials,
            page,
        ) == Ok::<(Option<Seq<char>>, LoginStepView), ErrorView>(
            (
                None,
                LoginStepView::Submit { csrf: token, email: account@, password: password@ },
            ),
        ),
        credentials is SessionCookie && page.path@ != "/login"@ ==> login_begun(credentials, page)
            == Ok::<(Option<Seq<char>>, LoginStepView), ErrorView>(
            (Some(token), LoginStepView::Done),
        ),
        credentials is SessionCookie && page.path@ == "/login"@ ==> login_begun(credentials, page)
            matches Err(ErrorView::Auth(_)),
{
}

/// A login is complete when the server took it: a JSON answer has to name the
/// page to go to, and no failure is ever taken for a login.
pub proof fn login_is_complete_when_taken(reply: LoginReply)
    ensures
        reply.status / 100 != 2 ==> login_verdict(reply) matches Err(ErrorView::Auth(_)),
        reply.status / 100 == 2 && reply.content_type is None ==> login_verdict(reply) is Ok,
        reply.status / 100 == 2 && (reply.content_type matches Some(kind) && has_text(
            kind@,
            "json"@,
        )) ==> (login_verdict(reply) is Ok <==> (json_in(reply.body@) matches Ok(value)
            && field_of(value.body, "redir"@) is Some)),
{
}

proof fn lemma_cookies_of_parts(a: Seq<Seq<char>>, b: Seq<Seq<char>>)
    ensures
        cookie_pairs(a + b) == cookie_pairs(a) + cookie_pairs(b),
    decreases b.len(),
{
    if b.len() == 0 {
        assert(a + b =~= a);
        assert(cookie_pairs(a) + cookie_pairs(b) =~= cookie_pairs(a));
    } else {
        lemma_cookies_of_parts(a, b.drop_last());
        assert((a + b).drop_last() =~= a + b.drop_last());
        assert((a + b).last() == b.last());
        assert(cookie_pairs(a + b) =~= cookie_pairs(a) + cookie_pairs(b));
    }
}

/// Semicolons stand between cookies: the cookies on both sides of one are those
/// of the two parts. A part without a semicolon is one cookie, without the
/// white space around it, or none where it is blank.
pub proof fn cookies_stand_between_semicolons(a: Seq<char>, b: Seq<char>)
    ensures
        cookies_of(a + seq![';'] + b) == cookies_of(a) + cookies_of(b),
        !a.contains(';') && trimmed(a).len() == 0 ==> cookies_of(a).len() == 0,
        !a.contains(';') && trimmed(a).len() > 0 ==> cookies_of(a) == seq![
            trimmed(a) + "; Path=/; Secure"@,
        ],
{
    texts_are_split_piece_by_piece(a, b, ';');
    lemma_cookies_of_parts(split_on(a, ';'), split_on(b, ';'));
    if !a.contains(';') {
        assert(split_on(a, ';') =~= seq![a]);
        assert(seq![a].drop_last() =~= Seq::<Seq<char>>::empty());
        assert(seq![a].last() == a);
        assert(cookie_pairs(Seq::<Seq<char>>::empty()) == Seq::<Seq<char>>::empty());
        if trimmed(a).len() > 0 {
            assert(cookies_of(a) =~= seq![trimmed(a) + "; Path=/; Secure"@]);
        }
    }
}

/// The name of a session is what the answer holds before its first colon.
pub proof fn session_is_named_before_the_colon(sid: Seq<char>, rest: Seq<char>)
    requires
        !sid.contains(':'),
    ensures
        sid.len() > 0 ==> session_name(sid + seq![':'] + rest) == Ok::<Seq<char>, ErrorView>(sid),
        sid.len() > 0 ==> session_name(sid) == Ok::<Seq<char>, ErrorView>(sid),
        session_name(seq![':'] + rest) matches Err(ErrorView::Protocol(_)),
        session_name(Seq::empty()) matches Err(ErrorView::Protocol(_)),
{
    let none = Seq::<char>::empty();
    cut_at_the_separator(sid, ':', rest);
    cut_at_the_separator(none, ':', rest);
    assert(none + seq![':'] + rest =~= seq![':'] + rest);
    no_separator_to_cut_at(sid, ':');
    no_separator_to_cut_at(none, ':');
}

/// An output is asked for at its own address, with the id of its server as one
/// more parameter: the first where the address has none.
pub proof fn output_address_is_extended(url: Seq<char>, id: Seq<char>)
    ensures
        output_path(url, None) == url,
        url.contains('?') ==> output_path(url, Some(id)) == url + seq!['&'] + "clsiserverid="@ + id,
        !url.contains('?') ==> output_path(url, Some(id)) == url + seq!['?'] + "clsiserverid="@
            + id,
{
    reveal_strlit("&");
    reveal_strlit("?");
    assert("&"@ =~= seq!['&']);
    assert("?"@ =~= seq!['?']);
}

/// An address holds what it is for as it was given: no two entities of a
/// project, and no two projects, share one, as long as their ids have no
/// slashes.
pub proof fn addresses_hold_the_ids(
    project: Seq<char>,
    kind: EntityKind,
    id: Seq<char>,
    now_ms: u64,
    count: usize,
    before: i64,
)
    ensures
        entity_path(project, kind, id) == "/project/"@ + project + seq!['/'] + kind_word(kind)
            + seq!['/'] + id,
        ({
            let path = handshake_path(project, now_ms);
            let n = "/socket.io/1/?projectId="@.len() as int;
            &&& path.subrange(n, n + project.len()) == project
            &&& path.skip(n + project.len() + 3) == decimal(now_ms as nat)
        }),
        ({
            let path = polling_path(project, now_ms);
            let n = "/socket.io/1/xhr-polling/"@.len() as int;
            &&& path.subrange(n, n + project.len()) == project
            &&& path.skip(n + project.len() + 3) == decimal(now_ms as nat)
        }),
        ({
            let path = updates_path(project, None, count);
            let n = "/project/"@.len() as int;
            let m = n + project.len() + "/updates?min_count="@.len();
            &&& path.subrange(n, n + project.len()) == project
            &&& path.skip(m) == decimal(count as nat)
            &&& updates_path(project, Some(before), count) == path + "&before="@ + signed_decimal(
                before as int,
            )
        }),
{
    reveal_strlit("/");
    assert("/"@ =~= seq!['/']);
    reveal_strlit("&t=");
    reveal_strlit("?t=");
    let n = "/socket.io/1/?projectId="@.len() as int;
    let path = handshake_path(project, now_ms);
    assert(path.subrange(n, n + project.len()) =~= project);
    assert(path.skip(n + project.len() + 3) =~= decimal(now_ms as nat));
    let n = "/socket.io/1/xhr-polling/"@.len() as int;
    let path = polling_path(project, now_ms);
    assert(path.subrange(n, n + project.len()) =~= project);
    assert(path.skip(n + project.len() + 3) =~= decimal(now_ms as nat));
    let n = "/project/"@.len() as int;
    let m = n + project.len() + "/updates?min_count="@.len();
    let path = updates_path(project, None, count);
    assert(path.subrange(n, n + project.len()) =~= project);
    assert(path.skip(m) =~= decimal(count as nat));
}

/// With a password, a login begins on the login page; with a cookie, on a page
/// that only those who are logged in see.
pub proof fn login_begins_where_it_can_be_told(
    account: String,
    password: String,
    cookie: String,
)
    ensures
        login_page(OverleafCredentials::Password { account, password }) == "/login"@,
        login_page(OverleafCredentials::SessionCookie(cookie)) == "/project"@,
{
}

} // verus!
