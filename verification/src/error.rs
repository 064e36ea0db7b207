//! What can go wrong.
use vstd::prelude::*;

use crate::number::{decimal, push_decimal};

verus! {

/// An error of the server. Failures of the HTTP client, of the file system
/// and of the JSON layer are kept as the text that those layers report.
#[derive(Debug)]
pub enum OverleafError {
    Http(String),
    Status { status: u16, url: String, body: String },
    Auth(String),
    NotFound(String),
    Protocol(String),
    OutOfSync(String),
    Edit(String),
    Denied(String),
    Io(String),
    Json(String),
    Timeout(String),
}

/// The result of an operation of the server.
pub type Result<T> = std::result::Result<T, OverleafError>;

/// An error as its kind and its texts.
pub enum ErrorView {
    Http(Seq<char>),
    Status { status: u16, url: Seq<char>, body: Seq<char> },
    Auth(Seq<char>),
    NotFound(Seq<char>),
    Protocol(Seq<char>),
    OutOfSync(Seq<char>),
    Edit(Seq<char>),
    Denied(Seq<char>),
    Io(Seq<char>),
    Json(Seq<char>),
    Timeout(Seq<char>),
}

impl View for OverleafError {
    type V = ErrorView;

    open spec fn view(&self) -> ErrorView {
        match *self {
            OverleafError::Http(m) => ErrorView::Http(m@),
            OverleafError::Status { status, url, body } => ErrorView::Status {
                status,
                url: url@,
                body: body@,
            },
            OverleafError::Auth(m) => ErrorView::Auth(m@),
            OverleafError::NotFound(m) => ErrorView::NotFound(m@),
            OverleafError::Protocol(m) => ErrorView::Protocol(m@),
            OverleafError::OutOfSync(m) => ErrorView::OutOfSync(m@),
            OverleafError::Edit(m) => ErrorView::Edit(m@),
            OverleafError::Denied(m) => ErrorView::Denied(m@),
            OverleafError::Io(m) => ErrorView::Io(m@),
            OverleafError::Json(m) => ErrorView::Json(m@),
            OverleafError::Timeout(m) => ErrorView::Timeout(m@),
        }
    }
}

/// A result of type `Result<String>` as its texts.
pub open spec fn text_result(result: Result<String>) -> std::result::Result<Seq<char>, ErrorView> {
    match result {
        Ok(t) => Ok(t@),
        Err(e) => Err(e@),
    }
}

/// A result without a value as its error.
pub open spec fn unit_result(result: Result<()>) -> std::result::Result<(), ErrorView> {
    match result {
        Ok(_) => Ok(()),
        Err(e) => Err(e@),
    }
}

/// The message of an error.
pub open spec fn error_message(error: ErrorView) -> Seq<char> {
    match error {
        ErrorView::Http(m) => "http request failed: "@ + m,
        ErrorView::Status { status, url, body } => "unexpected status "@ + decimal(status as nat)
            + " for "@ + url + ": "@ + body,
        ErrorView::Auth(m) => "authentication failed: "@ + m,
        ErrorView::NotFound(m) => "not found: "@ + m,
        ErrorView::Protocol(m) => "realtime protocol error: "@ + m,
        ErrorView::OutOfSync(m) => "document out of sync: "@ + m,
        ErrorView::Edit(m) => "edit rejected: "@ + m,
        ErrorView::Denied(m) => "access denied: "@ + m,
        ErrorView::Io(m) => "io error: "@ + m,
        ErrorView::Json(m) => "json error: "@ + m,
        ErrorView::Timeout(m) => "timed out: "@ + m,
    }
}

/// `head` followed by `tail`.
pub(crate) fn concat(head: &str, tail: &str) -> (out: String)
    ensures
        out@ == head@ + tail@,
{
    let mut out = head.to_owned();
    out.append(tail);
    out
}

impl OverleafError {
    /// The message of this error.
    pub fn message(&self) -> (out: String)
        ensures
            out@ == error_message(self@),
    {
        match self {
            OverleafError::Http(m) => concat("http request failed: ", m.as_str()),
            OverleafError::Status { status, url, body } => {
                let mut out = "unexpected status ".to_owned();
                push_decimal(&mut out, *status as u64);
                out.append(" for ");
                out.append(url.as_str());
                out.append(": ");
                out.append(body.as_str());
                out
            },
            OverleafError::Auth(m) => concat("authentication failed: ", m.as_str()),
            OverleafError::NotFound(m) => concat("not found: ", m.as_str()),
            OverleafError::Protocol(m) => concat("realtime protocol error: ", m.as_str()),
            OverleafError::OutOfSync(m) => concat("document out of sync: ", m.as_str()),
            OverleafError::Edit(m) => concat("edit rejected: ", m.as_str()),
            OverleafError::Denied(m) => concat("access denied: ", m.as_str()),
            OverleafError::Io(m) => concat("io error: ", m.as_str()),
            OverleafError::Json(m) => concat("json error: ", m.as_str()),
            OverleafError::Timeout(m) => concat("timed out: ", m.as_str()),
        }
    }
}

/// A message says what kind of error it is and then, word for word, what went
/// wrong.
pub proof fn messages_end_with_what_went_wrong(what: Seq<char>)
    ensures
        error_message(ErrorView::Http(what)) == error_message(ErrorView::Http(Seq::empty())) + what,
        error_message(ErrorView::Auth(what)) == error_message(ErrorView::Auth(Seq::empty())) + what,
        error_message(ErrorView::NotFound(what)) == error_message(
            ErrorView::NotFound(Seq::empty()),
        ) + what,
        error_message(ErrorView::Protocol(what)) == error_message(
            ErrorView::Protocol(Seq::empty()),
        ) + what,
        error_message(ErrorView::OutOfSync(what)) == error_message(
            ErrorView::OutOfSync(Seq::empty()),
        ) + what,
        error_message(ErrorView::Edit(what)) == error_message(ErrorView::Edit(Seq::empty())) + what,
        error_message(ErrorView::Denied(what)) == error_message(ErrorView::Denied(Seq::empty()))
            + what,
        error_message(ErrorView::Io(what)) == error_message(ErrorView::Io(Seq::empty())) + what,
        error_message(ErrorView::Json(what)) == error_message(ErrorView::Json(Seq::empty())) + what,
        error_message(ErrorView::Timeout(what)) == error_message(ErrorView::Timeout(Seq::empty()))
            + what,
{
    let none = Seq::<char>::empty();
    assert("http request failed: "@ + none =~= "http request failed: "@);
    assert("authentication failed: "@ + none =~= "authentication failed: "@);
    assert("not found: "@ + none =~= "not found: "@);
    assert("realtime protocol error: "@ + none =~= "realtime protocol error: "@);
    assert("document out of sync: "@ + none =~= "document out of sync: "@);
    assert("edit rejected: "@ + none =~= "edit rejected: "@);
    assert("access denied: "@ + none =~= "access denied: "@);
    assert("io error: "@ + none =~= "io error: "@);
    assert("json error: "@ + none =~= "json error: "@);
    assert("timed out: "@ + none =~= "timed out: "@);
}

/// The message for a status holds it in decimal, the address and the body, each
/// unchanged.
pub proof fn status_message_holds_status_address_and_body(
    status: u16,
    url: Seq<char>,
    body: Seq<char>,
)
    ensures
        ({
            let text = error_message(ErrorView::Status { status, url, body });
            let n = "unexpected status "@.len() as int;
            let digits = decimal(status as nat);
            &&& text.subrange(n, n + digits.len()) == digits
            &&& text.subrange(n + digits.len() + 5, n + digits.len() + 5 + url.len()) == url
            &&& text.skip(text.len() - body.len()) == body
            &&& text.len() == n + digits.len() + 5 + url.len() + 2 + body.len()
        }),
{
    reveal_strlit(" for ");
    reveal_strlit(": ");
    let text = error_message(ErrorView::Status { status, url, body });
    let n = "unexpected status "@.len() as int;
    let digits = decimal(status as nat);
    assert(text.subrange(n, n + digits.len()) =~= digits);
    assert(text.subrange(n + digits.len() + 5, n + digits.len() + 5 + url.len()) =~= url);
    assert(text.skip(text.len() - body.len()) =~= body);
}

} // verus!
