//! Settings of the server.
use vstd::prelude::*;

use crate::error::concat;
use crate::text::{chars_of, opt_text, string_of};

verus! {

/// How to authenticate against an Overleaf server. A self-hosted server takes
/// a password; a server whose login is guarded by a CAPTCHA only takes cookies
/// of a browser session.
#[derive(Debug)]
pub enum OverleafCredentials {
    Password { account: String, password: String },
    /// The content of a cookie header; several cookies are separated by `;`.
    SessionCookie(String),
}

/// Credentials as plain values.
pub enum CredentialsView {
    Password { account: Seq<char>, password: Seq<char> },
    SessionCookie(Seq<char>),
}

impl View for OverleafCredentials {
    type V = CredentialsView;

    open spec fn view(&self) -> CredentialsView {
        match *self {
            OverleafCredentials::Password { account, password } => CredentialsView::Password {
                account: account@,
                password: password@,
            },
            OverleafCredentials::SessionCookie(cookie) => CredentialsView::SessionCookie(cookie@),
        }
    }
}

/// The message for missing credentials.
pub open spec fn credentials_missing() -> Seq<char> {
    "credentials missing: set OVERLEAF_ACCOUNT and OVERLEAF_PASSWORD, or OVERLEAF_COOKIE for CAPTCHA-gated servers"@
}

/// The credentials that the settings ask for: a cookie wins over account and
/// password, which are needed both.
pub open spec fn chosen_credentials(
    cookie: Option<Seq<char>>,
    account: Option<Seq<char>>,
    password: Option<Seq<char>>,
) -> core::result::Result<CredentialsView, Seq<char>> {
    match (cookie, account, password) {
        (Some(cookie), _, _) => Ok(CredentialsView::SessionCookie(cookie)),
        (None, Some(account), Some(password)) => Ok(CredentialsView::Password { account, password }),
        _ => Err(credentials_missing()),
    }
}

impl OverleafCredentials {
    /// Chooses the credentials from the settings.
    pub fn choose_from(
        cookie: Option<String>,
        account: Option<String>,
        password: Option<String>,
    ) -> (chosen: core::result::Result<OverleafCredentials, String>)
        ensures
            chosen_credentials(opt_text(cookie), opt_text(account), opt_text(password)) == (
            match chosen {
                Ok(c) => Ok(c@),
                Err(e) => Err(e@),
            }),
    {
        match (cookie, account, password) {
            (Some(cookie), _, _) => Ok(OverleafCredentials::SessionCookie(cookie)),
            (None, Some(account), Some(password)) => Ok(
                OverleafCredentials::Password { account, password },
            ),
            _ => Err(
                "credentials missing: set OVERLEAF_ACCOUNT and OVERLEAF_PASSWORD, or OVERLEAF_COOKIE for CAPTCHA-gated servers".to_owned(),
            ),
        }
    }
}

/// Which server to talk to, and as whom.
#[derive(Debug)]
pub struct OverleafConfig {
    pub endpoint: String,
    pub credentials: OverleafCredentials,
}

/// `text` without the slashes at its end.
pub open spec fn without_slashes(text: Seq<char>) -> Seq<char>
    decreases text.len(),
{
    if text.len() > 0 && text.last() == '/' {
        without_slashes(text.drop_last())
    } else {
        text
    }
}

/// Only slashes are taken off, and none is left at the end.
pub proof fn only_slashes_go(text: Seq<char>)
    ensures
        without_slashes(text).len() <= text.len(),
        without_slashes(text) == text.take(without_slashes(text).len() as int),
        without_slashes(text).len() > 0 ==> without_slashes(text).last() != '/',
        forall|i: int| without_slashes(text).len() <= i < text.len() ==> text[i] == '/',
    decreases text.len(),
{
    if text.len() > 0 && text.last() == '/' {
        let short = text.drop_last();
        only_slashes_go(short);
        let n = without_slashes(text).len() as int;
        assert(short.take(n) =~= text.take(n));
        assert forall|i: int| n <= i < text.len() implies text[i] == '/' by {
            if i < short.len() {
                assert(short[i] == text[i]);
            }
        }
    } else {
        assert(text.take(text.len() as int) =~= text);
    }
}

impl OverleafConfig {
    /// The base URL without a slash at its end, so that paths can be appended
    /// as they are.
    pub fn base(&self) -> (url: String)
        ensures
            url@ == without_slashes(self.endpoint@),
    {
        let t = chars_of(self.endpoint.as_str());
        let mut to: usize = t.len();
        assert(t@.take(to as int) =~= t@);
        while to > 0 && t[to - 1] == '/'
            invariant
                to <= t@.len(),
                without_slashes(t@.take(to as int)) == without_slashes(t@),
            decreases to,
        {
            assert(t@.take(to as int).drop_last() =~= t@.take(to - 1));
            to -= 1;
        }
        assert(t@.subrange(0, to as int) =~= t@.take(to as int));
        string_of(t.as_slice(), 0, to)
    }
}

/// Timeouts and retries of the realtime connections.
#[derive(Debug, Clone, Copy)]
pub struct RealtimeSettings {
    pub connect_timeout_secs: u64,
    pub op_timeout_secs: u64,
    pub poll_timeout_secs: u64,
    pub edit_retries: u32,
}

/// What the server tells its clients about the project that it works on.
pub open spec fn instructions_for(
    name: Seq<char>,
    id: Seq<char>,
    allow_all_projects: bool,
) -> Seq<char> {
    if allow_all_projects {
        "The default Overleaf project is '"@ + name + "' (id "@ + id
            + "): tool calls that omit the `project` parameter operate on it. Other accessible projects may still be named explicitly."@
    } else {
        "This server is restricted to the Overleaf project '"@ + name + "' (id "@ + id
            + "). Every tool call operates on that project, so omit the `project` parameter; naming any other project is denied."@
    }
}

/// What the server tells its clients about the project that it works on.
pub fn server_instructions(name: &str, id: &str, allow_all_projects: bool) -> (text: String)
    ensures
        text@ == instructions_for(name@, id@, allow_all_projects),
{
    if allow_all_projects {
        let mut text = concat("The default Overleaf project is '", name);
        text.append("' (id ");
        text.append(id);
        text.append("): tool calls that omit the `project` parameter operate on it. Other accessible projects may still be named explicitly.");
        text
    } else {
        let mut text = concat("This server is restricted to the Overleaf project '", name);
        text.append("' (id ");
        text.append(id);
        text.append("). Every tool call operates on that project, so omit the `project` parameter; naming any other project is denied.");
        text
    }
}

/// A cookie is used whenever there is one, whatever else is set; without it
/// account and password are used as they are, and neither goes without the
/// other.
pub proof fn cookie_wins_over_the_password(
    cookie: Seq<char>,
    account: Option<Seq<char>>,
    password: Option<Seq<char>>,
)
    ensures
        chosen_credentials(Some(cookie), account, password) == Ok::<CredentialsView, Seq<char>>(
            CredentialsView::SessionCookie(cookie),
        ),
        chosen_credentials(None, account, password) is Ok <==> account is Some && password is Some,
        account is Some && password is Some ==> chosen_credentials(None, account, password) == Ok::<
            CredentialsView,
            Seq<char>,
        >(CredentialsView::Password { account: account->0, password: password->0 }),
{
}

/// Whatever address is set, slashes at its end make no difference.
pub proof fn slashes_at_the_end_make_no_difference(text: Seq<char>)
    ensures
        without_slashes(text + seq!['/']) == without_slashes(text),
        without_slashes(without_slashes(text)) == without_slashes(text),
        !text.contains('/') ==> without_slashes(text) == text,
    decreases text.len(),
{
    assert((text + seq!['/']).drop_last() =~= text);
    only_slashes_go(text);
    if !text.contains('/') && text.len() > 0 {
        assert(text[text.len() - 1] == text.last());
    }
}

/// The instructions name the project and its id, and differ between a server
/// that is restricted to it and one that is not.
pub proof fn instructions_name_the_project(name: Seq<char>, id: Seq<char>, all: bool)
    ensures
        ({
            let text = instructions_for(name, id, all);
            let n = if all {
                "The default Overleaf project is '"@.len() as int
            } else {
                "This server is restricted to the Overleaf project '"@.len() as int
            };
            &&& text.subrange(n, n + name.len()) == name
            &&& text.subrange(n + name.len() + 6, n + name.len() + 6 + id.len()) == id
        }),
        instructions_for(name, id, true)[0] == 'T' && instructions_for(name, id, true)[2] == 'e',
        instructions_for(name, id, false)[0] == 'T' && instructions_for(name, id, false)[2] == 'i',
{
    reveal_strlit("' (id ");
    reveal_strlit("The default Overleaf project is '");
    reveal_strlit("This server is restricted to the Overleaf project '");
    let text = instructions_for(name, id, all);
    let n = if all {
        "The default Overleaf project is '"@.len() as int
    } else {
        "This server is restricted to the Overleaf project '"@.len() as int
    };
    assert(text.subrange(n, n + name.len()) =~= name);
    assert(text.subrange(n + name.len() + 6, n + name.len() + 6 + id.len()) =~= id);
}

} // verus!
