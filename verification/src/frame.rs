//! The frames of the realtime transport (socket.io 0.9 over long polling).
use vstd::prelude::*;

use crate::error::{concat, ErrorView, OverleafError, Result};
use crate::json::{arg_views, json_in, json_list_in, ArgView, JsonArg};
use crate::number::{
    decimal, decimal_denotes, digits_value, is_digit, parse_unsigned, push_decimal, read_digits,
    unsigned_in, unsigned_reads_back,
};
use crate::pieces::{cut_at_the_separator, cut_once, head_of, no_separator_to_cut_at, tail_of};
use crate::text::{chars_of, same_text, string_of, texts};

verus! {

/// The character around the lengths of a batch.
pub const BATCH_SEP: char = '\u{fffd}';

/// An event with its arguments.
#[derive(Debug)]
pub struct EventPayload {
    pub name: String,
    pub args: Vec<JsonArg>,
}

/// An event as plain values.
pub struct PayloadView {
    pub name: Seq<char>,
    pub args: Seq<ArgView>,
}

impl View for EventPayload {
    type V = PayloadView;

    open spec fn view(&self) -> PayloadView {
        PayloadView { name: self.name@, args: arg_views(self.args@) }
    }
}

/// One frame. On the wire it is `type:id:endpoint:data`; endpoints are not
/// used, so that slot stays empty in both directions.
#[derive(Debug)]
pub enum Frame {
    Disconnect,
    Connect,
    Heartbeat,
    Message(String),
    JsonMsg(JsonArg),
    Event(EventPayload),
    Ack { id: u64, args: Vec<JsonArg> },
    ProtoError { reason: String },
    Noop,
}

/// A frame as plain values.
pub enum FrameView {
    Disconnect,
    Connect,
    Heartbeat,
    Message(Seq<char>),
    JsonMsg(ArgView),
    Event(PayloadView),
    Ack { id: u64, args: Seq<ArgView> },
    ProtoError { reason: Seq<char> },
    Noop,
}

impl View for Frame {
    type V = FrameView;

    open spec fn view(&self) -> FrameView {
        match *self {
            Frame::Disconnect => FrameView::Disconnect,
            Frame::Connect => FrameView::Connect,
            Frame::Heartbeat => FrameView::Heartbeat,
            Frame::Message(data) => FrameView::Message(data@),
            Frame::JsonMsg(arg) => FrameView::JsonMsg(arg@),
            Frame::Event(payload) => FrameView::Event(payload@),
            Frame::Ack { id, args } => FrameView::Ack { id, args: arg_views(args@) },
            Frame::ProtoError { reason } => FrameView::ProtoError { reason: reason@ },
            Frame::Noop => FrameView::Noop,
        }
    }
}

/// A frame, or the error in its place, as plain values.
pub open spec fn frame_result(res: Result<Frame>) -> core::result::Result<FrameView, ErrorView> {
    match res {
        Ok(frame) => Ok(frame@),
        Err(e) => Err(e@),
    }
}

// --- batches -------------------------------------------------------------

/// How many digits a text begins with.
pub open spec fn digit_run(text: Seq<char>) -> nat
    decreases text.len(),
{
    if text.len() == 0 || !is_digit(text[0]) {
        0
    } else {
        1 + digit_run(text.drop_first())
    }
}

/// The frames of a batch `\u{fffd}LEN\u{fffd}FRAME...`, as far as it is well
/// formed. A length counts characters; one that reaches beyond the end means
/// the rest of the text.
pub open spec fn batched(text: Seq<char>) -> Seq<Seq<char>>
    decreases text.len(),
{
    if text.len() == 0 || text[0] != BATCH_SEP {
        Seq::empty()
    } else {
        let run = digit_run(text.skip(1)) as int;
        if run == 0 || run + 1 >= text.len() || text[run + 1] != BATCH_SEP {
            Seq::empty()
        } else {
            let body = text.skip(run + 2);
            let len = digits_value(text.subrange(1, run + 1)) as int;
            let end = if len < body.len() {
                len
            } else {
                body.len() as int
            };
            seq![body.take(end)] + batched(body.skip(end))
        }
    }
}

/// The frames of a poll response: a batch, or one frame alone.
pub open spec fn frames_in(raw: Seq<char>) -> Seq<Seq<char>> {
    if raw.len() > 0 && raw[0] == BATCH_SEP {
        batched(raw)
    } else if raw.len() == 0 {
        Seq::empty()
    } else {
        seq![raw]
    }
}

/// A batch that holds the given frames.
pub open spec fn as_batch(frames: Seq<Seq<char>>) -> Seq<char>
    decreases frames.len(),
{
    if frames.len() == 0 {
        Seq::empty()
    } else {
        seq![BATCH_SEP] + decimal(frames[0].len()) + seq![BATCH_SEP] + frames[0] + as_batch(
            frames.drop_first(),
        )
    }
}

proof fn lemma_digit_run(text: Seq<char>, run: int)
    requires
        0 <= run <= text.len(),
        forall|i: int| 0 <= i < run ==> is_digit(#[trigger] text[i]),
        run < text.len() ==> !is_digit(text[run]),
    ensures
        digit_run(text) == run,
    decreases run,
{
    if run > 0 {
        let rest = text.drop_first();
        assert(is_digit(text[0]));
        assert forall|i: int| 0 <= i < run - 1 implies is_digit(#[trigger] rest[i]) by {
            assert(is_digit(text[i + 1]));
        }
        lemma_digit_run(rest, run - 1);
    }
}

/// Taking a batch apart gives the frames that were put into it, whatever
/// characters they hold.
pub proof fn batch_gives_its_frames_back(frames: Seq<Seq<char>>)
    ensures
        batched(as_batch(frames)) == frames,
        frames.len() > 0 ==> frames_in(as_batch(frames)) == frames,
    decreases frames.len(),
{
    let text = as_batch(frames);
    if frames.len() == 0 {
        assert(batched(text) =~= frames);
    } else {
        let first = frames[0];
        let rest = frames.drop_first();
        let digits = decimal(first.len());
        let run = digits.len() as int;
        batch_gives_its_frames_back(rest);
        decimal_denotes(first.len());
        let after = text.skip(1);
        assert forall|i: int| 0 <= i < run implies is_digit(#[trigger] after[i]) by {
            assert(after[i] == digits[i]);
        }
        assert(after[run] == BATCH_SEP);
        assert(!is_digit(BATCH_SEP));
        lemma_digit_run(after, run);
        assert(text[run + 1] == BATCH_SEP);
        assert(text.subrange(1, run + 1) =~= digits);
        let body = text.skip(run + 2);
        let len = first.len() as int;
        assert(body =~= first + as_batch(rest));
        assert(body.take(len) =~= first);
        assert(body.skip(len) =~= as_batch(rest));
        if len == body.len() {
            assert(body.skip(body.len() as int) =~= as_batch(rest));
        }
        assert(batched(text) =~= seq![first] + rest);
        assert(seq![first] + rest =~= frames);
    }
}

impl Frame {
    /// Takes a poll response apart into the texts of its frames.
    pub fn split_batch(raw: &str) -> (frames: Vec<String>)
        ensures
            texts(frames@) == frames_in(raw@),
    {
        let chars = chars_of(raw);
        let n: usize = chars.len();
        let mut frames: Vec<String> = Vec::new();
        assert(texts(frames@) =~= Seq::<Seq<char>>::empty());
        if n == 0 {
            return frames;
        }
        if chars[0] != BATCH_SEP {
            frames.push(raw.to_owned());
            assert(texts(frames@) =~= seq![raw@]);
            return frames;
        }
        let ghost text = chars@;
        let mut idx: usize = 0;
        assert(text.skip(0) =~= text);
        assert(texts(frames@) + batched(text) =~= batched(text));
        while idx < n
            invariant_except_break
                texts(frames@) + batched(text.skip(idx as int)) == batched(text),
            invariant
                idx <= n,
                n == text.len(),
                text == chars@,
            ensures
                texts(frames@) == batched(text),
            decreases n - idx,
        {
            let ghost rest = text.skip(idx as int);
            assert(rest[0] == text[idx as int]);
            if chars[idx] != BATCH_SEP {
                assert(texts(frames@) =~= batched(text));
                break;
            }
            let from: usize = idx + 1;
            let mut to: usize = from;
            while to < n && '0' <= chars[to] && chars[to] <= '9'
                invariant
                    from <= to <= n,
                    n == text.len(),
                    text == chars@,
                    forall|i: int| from <= i < to ==> is_digit(#[trigger] text[i]),
                decreases n - to,
            {
                to += 1;
            }
            let ghost run = to - from;
            proof {
                let after = rest.skip(1);
                assert forall|i: int| 0 <= i < run implies is_digit(#[trigger] after[i]) by {
                    assert(after[i] == text[from + i]);
                }
                assert(run < after.len() ==> after[run] == text[to as int]);
                lemma_digit_run(after, run);
            }
            if to == from || to >= n || chars[to] != BATCH_SEP {
                assert(texts(frames@) =~= batched(text));
                break;
            }
            assert(rest.subrange(1, run + 1) =~= text.subrange(from as int, to as int));
            let start: usize = to + 1;
            let left: usize = n - start;
            let len: usize = match read_digits(chars.as_slice(), from, to) {
                Some(value) => if value < left as u64 {
                    value as usize
                } else {
                    left
                },
                None => left,
            };
            let end: usize = start + len;
            let ghost body = rest.skip(run + 2);
            assert(body =~= text.skip(start as int));
            let ghost before = texts(frames@);
            let frame = string_of(chars.as_slice(), start, end);
            assert(body.take(len as int) =~= frame@);
            assert(body.skip(len as int) =~= text.skip(end as int));
            frames.push(frame);
            assert(texts(frames@) =~= before + seq![frame@]);
            assert(batched(rest) == seq![frame@] + batched(text.skip(end as int)));
            assert(texts(frames@) + batched(text.skip(end as int)) =~= before + batched(rest));
            idx = end;
            if idx == n {
                assert(batched(text.skip(end as int)) =~= Seq::<Seq<char>>::empty());
                assert(texts(frames@) =~= batched(text));
            }
        }
        frames
    }
}

// --- single frames -------------------------------------------------------

/// What a frame's text says before its JSON is read.
#[derive(Debug)]
pub enum RawFrame {
    Disconnect,
    Connect,
    Heartbeat,
    Message(String),
    JsonMsg(String),
    Event(String),
    Ack { id: String, args: Option<String> },
    ProtoError(String),
    Noop,
    Unknown(String),
}

/// What a frame's text says before its JSON is read, as plain values.
pub enum FormView {
    Disconnect,
    Connect,
    Heartbeat,
    Message(Seq<char>),
    JsonMsg(Seq<char>),
    Event(Seq<char>),
    Ack { id: Seq<char>, args: Option<Seq<char>> },
    ProtoError(Seq<char>),
    Noop,
    Unknown(Seq<char>),
}

impl View for RawFrame {
    type V = FormView;

    open spec fn view(&self) -> FormView {
        match *self {
            RawFrame::Disconnect => FormView::Disconnect,
            RawFrame::Connect => FormView::Connect,
            RawFrame::Heartbeat => FormView::Heartbeat,
            RawFrame::Message(data) => FormView::Message(data@),
            RawFrame::JsonMsg(data) => FormView::JsonMsg(data@),
            RawFrame::Event(data) => FormView::Event(data@),
            RawFrame::Ack { id, args } => FormView::Ack {
                id: id@,
                args: match args {
                    Some(json) => Some(json@),
                    None => None,
                },
            },
            RawFrame::ProtoError(data) => FormView::ProtoError(data@),
            RawFrame::Noop => FormView::Noop,
            RawFrame::Unknown(kind) => FormView::Unknown(kind@),
        }
    }
}

/// What stands behind the first colon; nothing where there is none.
pub open spec fn behind_colon(text: Seq<char>) -> Seq<char> {
    match tail_of(text, ':') {
        Some(rest) => rest,
        None => Seq::empty(),
    }
}

/// The data of a frame: what stands behind its third colon.
pub open spec fn frame_data(raw: Seq<char>) -> Seq<char> {
    behind_colon(behind_colon(behind_colon(raw)))
}

/// What a frame's text says before its JSON is read. The data of an ack is
/// `<id>` or `<id>+<json array>`.
pub open spec fn frame_form(raw: Seq<char>) -> FormView {
    let kind = head_of(raw, ':');
    let data = frame_data(raw);
    if kind == "0"@ {
        FormView::Disconnect
    } else if kind == "1"@ {
        FormView::Connect
    } else if kind == "2"@ {
        FormView::Heartbeat
    } else if kind == "3"@ {
        FormView::Message(data)
    } else if kind == "4"@ {
        FormView::JsonMsg(data)
    } else if kind == "5"@ {
        FormView::Event(data)
    } else if kind == "6"@ {
        FormView::Ack { id: head_of(data, '+'), args: tail_of(data, '+') }
    } else if kind == "7"@ {
        FormView::ProtoError(data)
    } else if kind == "8"@ {
        FormView::Noop
    } else {
        FormView::Unknown(kind)
    }
}

/// The ack frame for an id and the arguments that were read.
pub open spec fn ack_frame(
    raw: Seq<char>,
    id: Seq<char>,
    args: core::result::Result<Seq<ArgView>, Seq<char>>,
) -> core::result::Result<FrameView, ErrorView> {
    match args {
        Err(e) => Err(ErrorView::Json(e)),
        Ok(args) => match unsigned_in(id) {
            Some(id) => Ok(FrameView::Ack { id, args }),
            None => Err(ErrorView::Protocol("bad ack id in frame: "@ + raw)),
        },
    }
}

/// The frame for a message whose JSON was read.
pub open spec fn message_frame(
    parsed: core::result::Result<ArgView, Seq<char>>,
) -> core::result::Result<FrameView, ErrorView> {
    match parsed {
        Ok(arg) => Ok(FrameView::JsonMsg(arg)),
        Err(e) => Err(ErrorView::Json(e)),
    }
}

/// The frame that a text stands for, where it is no event.
pub open spec fn plain_frame(raw: Seq<char>) -> core::result::Result<FrameView, ErrorView> {
    match frame_form(raw) {
        FormView::Disconnect => Ok(FrameView::Disconnect),
        FormView::Connect => Ok(FrameView::Connect),
        FormView::Heartbeat => Ok(FrameView::Heartbeat),
        FormView::Message(data) => Ok(FrameView::Message(data)),
        FormView::JsonMsg(data) => message_frame(json_in(data)),
        FormView::Ack { id, args: Some(json) } => ack_frame(raw, id, json_list_in(json)),
        FormView::Ack { id, args: None } => ack_frame(raw, id, Ok(Seq::empty())),
        FormView::ProtoError(data) => Ok(FrameView::ProtoError { reason: data }),
        FormView::Noop => Ok(FrameView::Noop),
        FormView::Unknown(kind) => Err(
            ErrorView::Protocol("unknown frame type "@ + kind + ": "@ + raw),
        ),
        FormView::Event(_) => arbitrary(),
    }
}

/// The event frame for what was read of its data.
pub open spec fn event_frame(
    decoded: core::result::Result<EventPayload, String>,
) -> core::result::Result<FrameView, ErrorView> {
    match decoded {
        Ok(payload) => Ok(FrameView::Event(payload@)),
        Err(e) => Err(ErrorView::Json(e@)),
    }
}

fn behind(text: &str) -> (rest: String)
    ensures
        rest@ == behind_colon(text@),
{
    match cut_once(text, ':').1 {
        Some(rest) => rest,
        None => {
            let rest = String::new();
            assert(rest@ =~= Seq::<char>::empty());
            rest
        },
    }
}

impl Frame {
    /// Takes the text of a frame apart, up to its JSON.
    pub fn form(raw: &str) -> (form: RawFrame)
        ensures
            form@ == frame_form(raw@),
    {
        let kind = cut_once(raw, ':').0;
        let kind = kind.as_str();
        let data = behind(behind(behind(raw).as_str()).as_str());
        if same_text(kind, "0") {
            RawFrame::Disconnect
        } else if same_text(kind, "1") {
            RawFrame::Connect
        } else if same_text(kind, "2") {
            RawFrame::Heartbeat
        } else if same_text(kind, "3") {
            RawFrame::Message(data)
        } else if same_text(kind, "4") {
            RawFrame::JsonMsg(data)
        } else if same_text(kind, "5") {
            RawFrame::Event(data)
        } else if same_text(kind, "6") {
            let (id, args) = cut_once(data.as_str(), '+');
            RawFrame::Ack { id, args }
        } else if same_text(kind, "7") {
            RawFrame::ProtoError(data)
        } else if same_text(kind, "8") {
            RawFrame::Noop
        } else {
            RawFrame::Unknown(kind.to_owned())
        }
    }

    /// The ack frame for an id and the arguments that were read.
    pub fn ack(
        raw: &str,
        id: &str,
        args: core::result::Result<Vec<JsonArg>, String>,
    ) -> (frame: Result<Frame>)
        ensures
            frame_result(frame) == ack_frame(
                raw@,
                id@,
                match args {
                    Ok(list) => Ok(arg_views(list@)),
                    Err(e) => Err(e@),
                },
            ),
    {
        match args {
            Err(e) => Err(OverleafError::Json(e)),
            Ok(args) => match parse_unsigned(id) {
                Some(id) => Ok(Frame::Ack { id, args }),
                None => Err(OverleafError::Protocol(concat("bad ack id in frame: ", raw))),
            },
        }
    }

    /// The frame for a message whose JSON was read.
    pub fn json_message(parsed: core::result::Result<JsonArg, String>) -> (frame: Result<Frame>)
        ensures
            frame_result(frame) == message_frame(
                match parsed {
                    Ok(arg) => Ok(arg@),
                    Err(e) => Err(e@),
                },
            ),
    {
        match parsed {
            Ok(arg) => Ok(Frame::JsonMsg(arg)),
            Err(e) => Err(OverleafError::Json(e)),
        }
    }

    /// The event frame for what was read of its data.
    pub fn event(decoded: core::result::Result<EventPayload, String>) -> (frame: Result<Frame>)
        ensures
            frame_result(frame) == event_frame(decoded),
    {
        match decoded {
            Ok(payload) => Ok(Frame::Event(payload)),
            Err(e) => Err(OverleafError::Json(e)),
        }
    }

    /// Reads a frame. `decode` reads the data of an event.
    pub fn parse<F>(raw: &str, decode: F) -> (frame: Result<Frame>) where
        F: Fn(&str) -> core::result::Result<EventPayload, String>,

        requires
            forall|data: &str| call_requires(decode, (data,)),
        ensures
            match frame_form(raw@) {
                FormView::Event(data) => exists|text: &str, decoded|
                    {
                        &&& text@ == data
                        &&& #[trigger] call_ensures(decode, (text,), decoded)
                        &&& frame_result(frame) == event_frame(decoded)
                    },
                _ => frame_result(frame) == plain_frame(raw@),
            },
    {
        match Frame::form(raw) {
            RawFrame::Disconnect => Ok(Frame::Disconnect),
            RawFrame::Connect => Ok(Frame::Connect),
            RawFrame::Heartbeat => Ok(Frame::Heartbeat),
            RawFrame::Message(data) => Ok(Frame::Message(data)),
            RawFrame::JsonMsg(data) => Frame::json_message(JsonArg::read(data.as_str())),
            RawFrame::Event(data) => Frame::event(decode(data.as_str())),
            RawFrame::Ack { id, args: Some(json) } => Frame::ack(
                raw,
                id.as_str(),
                JsonArg::read_list(json.as_str()),
            ),
            RawFrame::Ack { id, args: None } => {
                let none: Vec<JsonArg> = Vec::new();
                assert(arg_views(none@) =~= Seq::<ArgView>::empty());
                Frame::ack(raw, id.as_str(), Ok(none))
            },
            RawFrame::ProtoError(reason) => Ok(Frame::ProtoError { reason }),
            RawFrame::Noop => Ok(Frame::Noop),
            RawFrame::Unknown(kind) => {
                let mut text = "unknown frame type ".to_owned();
                text.append(kind.as_str());
                text.append(": ");
                text.append(raw);
                Err(OverleafError::Protocol(text))
            },
        }
    }
}

// --- events to the server ------------------------------------------------

/// The text of an event frame; an id asks for an ack with data.
pub open spec fn encoded_event(json: Seq<char>, ack_id: Option<u64>) -> Seq<char> {
    match ack_id {
        Some(id) => "5:"@ + decimal(id as nat) + "+::"@ + json,
        None => "5:::"@ + json,
    }
}

impl Frame {
    /// The text of an event frame for the JSON text of an event; `ack_id` asks
    /// for an ack with data.
    pub fn encode_event(json: &str, ack_id: Option<u64>) -> (text: String)
        ensures
            text@ == encoded_event(json@, ack_id),
    {
        match ack_id {
            Some(id) => {
                let mut text = "5:".to_owned();
                push_decimal(&mut text, id);
                text.append("+::");
                text.append(json);
                text
            },
            None => concat("5:::", json),
        }
    }
}

/// An encoded event reads as an event frame that holds exactly its JSON text.
pub proof fn encoded_event_reads_as_event(json: Seq<char>, ack_id: Option<u64>)
    ensures
        frame_form(encoded_event(json, ack_id)) == FormView::Event(json),
{
    reveal_strlit("5:");
    reveal_strlit("+::");
    reveal_strlit("5:::");
    reveal_strlit("0");
    reveal_strlit("1");
    reveal_strlit("2");
    reveal_strlit("3");
    reveal_strlit("4");
    reveal_strlit("5");
    let raw = encoded_event(json, ack_id);
    let id = match ack_id {
        Some(id) => decimal(id as nat) + seq!['+'],
        None => Seq::empty(),
    };
    let kind = seq!['5'];
    assert(kind =~= "5"@);
    assert(kind[0] != "0"@[0] && kind[0] != "1"@[0] && kind[0] != "2"@[0] && kind[0] != "3"@[0]
        && kind[0] != "4"@[0]);
    let none = Seq::<char>::empty();
    let third = none + seq![':'] + json;
    let second = id + seq![':'] + third;
    assert(raw =~= kind + seq![':'] + second);
    assert(!id.contains(':')) by {
        match ack_id {
            Some(n) => {
                decimal_denotes(n as nat);
                if id.contains(':') {
                    let k = id.index_of(':');
                    assert(is_digit(decimal(n as nat)[k]));
                }
            },
            None => {},
        }
    }
    assert(!kind.contains(':'));
    cut_at_the_separator(kind, ':', second);
    cut_at_the_separator(id, ':', third);
    cut_at_the_separator(none, ':', json);
}

/// A frame is a digit that says what it is, an id, an endpoint and its data,
/// with colons between them. Neither the id nor the endpoint bears on what is
/// read, and colons in the data belong to it.
pub proof fn frames_are_told_apart_by_their_digit(
    kind: char,
    id: Seq<char>,
    endpoint: Seq<char>,
    data: Seq<char>,
)
    requires
        !id.contains(':'),
        !endpoint.contains(':'),
        kind != ':',
    ensures
        ({
            let form = frame_form(
                seq![kind, ':'] + id + seq![':'] + endpoint + seq![':'] + data,
            );
            &&& kind == '0' ==> form == FormView::Disconnect
            &&& kind == '1' ==> form == FormView::Connect
            &&& kind == '2' ==> form == FormView::Heartbeat
            &&& kind == '3' ==> form == FormView::Message(data)
            &&& kind == '4' ==> form == FormView::JsonMsg(data)
            &&& kind == '5' ==> form == FormView::Event(data)
            &&& kind == '6' ==> form is Ack
            &&& kind == '7' ==> form == FormView::ProtoError(data)
            &&& kind == '8' ==> form == FormView::Noop
            &&& !('0' <= kind <= '8') ==> form == FormView::Unknown(seq![kind])
        }),
{
    let third = endpoint + seq![':'] + data;
    let second = id + seq![':'] + third;
    let raw = seq![kind, ':'] + id + seq![':'] + endpoint + seq![':'] + data;
    assert(raw =~= seq![kind] + seq![':'] + second);
    cut_at_the_separator(seq![kind], ':', second);
    cut_at_the_separator(id, ':', third);
    cut_at_the_separator(endpoint, ':', data);
    lemma_kinds_are_digits(kind);
}

proof fn lemma_kinds_are_digits(kind: char)
    ensures
        seq![kind] == "0"@ <==> kind == '0',
        seq![kind] == "1"@ <==> kind == '1',
        seq![kind] == "2"@ <==> kind == '2',
        seq![kind] == "3"@ <==> kind == '3',
        seq![kind] == "4"@ <==> kind == '4',
        seq![kind] == "5"@ <==> kind == '5',
        seq![kind] == "6"@ <==> kind == '6',
        seq![kind] == "7"@ <==> kind == '7',
        seq![kind] == "8"@ <==> kind == '8',
{
    reveal_strlit("0");
    reveal_strlit("1");
    reveal_strlit("2");
    reveal_strlit("3");
    reveal_strlit("4");
    reveal_strlit("5");
    reveal_strlit("6");
    reveal_strlit("7");
    reveal_strlit("8");
    assert("0"@ =~= seq!['0']);
    assert("1"@ =~= seq!['1']);
    assert("2"@ =~= seq!['2']);
    assert("3"@ =~= seq!['3']);
    assert("4"@ =~= seq!['4']);
    assert("5"@ =~= seq!['5']);
    assert("6"@ =~= seq!['6']);
    assert("7"@ =~= seq!['7']);
    assert("8"@ =~= seq!['8']);
    let one = seq![kind];
    assert(one[0] == kind);
    assert(seq!['0'][0] == '0' && seq!['1'][0] == '1' && seq!['2'][0] == '2');
    assert(seq!['3'][0] == '3' && seq!['4'][0] == '4' && seq!['5'][0] == '5');
    assert(seq!['6'][0] == '6' && seq!['7'][0] == '7' && seq!['8'][0] == '8');
}

/// An ack names the number of the message that it answers. What stands behind
/// a plus sign are its arguments; without one it has none.
pub proof fn acks_name_the_message_they_answer(n: u64, json: Seq<char>)
    ensures
        frame_form(seq!['6', ':', ':', ':'] + decimal(n as nat) + seq!['+'] + json) == (
        FormView::Ack { id: decimal(n as nat), args: Some(json) }),
        plain_frame(seq!['6', ':', ':', ':'] + decimal(n as nat)) == Ok::<FrameView, ErrorView>(
            FrameView::Ack { id: n, args: Seq::empty() },
        ),
        json_list_in(json) matches Ok(args) ==> plain_frame(
            seq!['6', ':', ':', ':'] + decimal(n as nat) + seq!['+'] + json,
        ) == Ok::<FrameView, ErrorView>(FrameView::Ack { id: n, args }),
{
    let none = Seq::<char>::empty();
    let id = decimal(n as nat);
    let data = id + seq!['+'] + json;
    decimal_denotes(n as nat);
    unsigned_reads_back(n);
    assert(!id.contains('+')) by {
        if id.contains('+') {
            assert(is_digit(id[id.index_of('+')]));
        }
    }
    lemma_kinds_are_digits('6');
    assert(seq!['6', ':', ':', ':'] + id + seq!['+'] + json =~= seq!['6'] + seq![':'] + (none
        + seq![':'] + (none + seq![':'] + data)));
    assert(seq!['6', ':', ':', ':'] + id =~= seq!['6'] + seq![':'] + (none + seq![':'] + (none
        + seq![':'] + id)));
    cut_at_the_separator(none, ':', data);
    cut_at_the_separator(none, ':', none + seq![':'] + data);
    cut_at_the_separator(seq!['6'], ':', none + seq![':'] + (none + seq![':'] + data));
    cut_at_the_separator(none, ':', id);
    cut_at_the_separator(none, ':', none + seq![':'] + id);
    cut_at_the_separator(seq!['6'], ':', none + seq![':'] + (none + seq![':'] + id));
    cut_at_the_separator(id, '+', json);
    no_separator_to_cut_at(id, '+');
}

/// An event that asks for an ack carries its number and a plus sign in the
/// place of the id; one that does not leaves that place empty.
pub proof fn encoded_event_asks_for_its_ack(json: Seq<char>, id: u64)
    ensures
        encoded_event(json, Some(id)) == seq!['5', ':'] + decimal(id as nat) + seq!['+', ':', ':']
            + json,
        encoded_event(json, None) == seq!['5', ':', ':', ':'] + json,
        head_of(behind_colon(encoded_event(json, Some(id))), ':') == decimal(id as nat).push('+'),
        head_of(behind_colon(encoded_event(json, None)), ':').len() == 0,
{
    reveal_strlit("5:");
    reveal_strlit("+::");
    reveal_strlit("5:::");
    assert("5:"@ =~= seq!['5', ':']);
    assert("+::"@ =~= seq!['+', ':', ':']);
    assert("5:::"@ =~= seq!['5', ':', ':', ':']);
    let none = Seq::<char>::empty();
    let marked = decimal(id as nat).push('+');
    decimal_denotes(id as nat);
    assert(!marked.contains(':')) by {
        if marked.contains(':') {
            assert(is_digit(decimal(id as nat)[marked.index_of(':')]));
        }
    }
    assert(encoded_event(json, Some(id)) =~= seq!['5'] + seq![':'] + (marked + seq![':'] + (none
        + seq![':'] + json)));
    assert(encoded_event(json, None) =~= seq!['5'] + seq![':'] + (none + seq![':'] + (none
        + seq![':'] + json)));
    cut_at_the_separator(seq!['5'], ':', marked + seq![':'] + (none + seq![':'] + json));
    cut_at_the_separator(marked, ':', none + seq![':'] + json);
    cut_at_the_separator(seq!['5'], ':', none + seq![':'] + (none + seq![':'] + json));
    cut_at_the_separator(none, ':', none + seq![':'] + json);
}

/// A response that does not begin with the mark of a batch is one frame, and an
/// empty one none. In a batch, a length counts characters, and one that reaches
/// beyond the end means all that is left.
pub proof fn response_is_a_batch_or_a_frame(raw: Seq<char>, len: nat, body: Seq<char>)
    requires
        len >= body.len(),
    ensures
        raw.len() == 0 ==> frames_in(raw).len() == 0,
        raw.len() > 0 && raw[0] != BATCH_SEP ==> frames_in(raw) == seq![raw],
        frames_in(seq![BATCH_SEP] + decimal(len) + seq![BATCH_SEP] + body) == seq![body],
{
    let text = seq![BATCH_SEP] + decimal(len) + seq![BATCH_SEP] + body;
    let run = decimal(len).len() as int;
    decimal_denotes(len);
    assert forall|i: int| 0 <= i < run implies is_digit(#[trigger] text.skip(1)[i]) by {
        assert(text.skip(1)[i] == decimal(len)[i]);
    }
    assert(text.skip(1)[run] == BATCH_SEP);
    lemma_digit_run(text.skip(1), run);
    assert(text.subrange(1, run + 1) =~= decimal(len));
    assert(text.skip(run + 2) =~= body);
    assert(body.take(body.len() as int) =~= body);
    assert(body.skip(body.len() as int) =~= Seq::<char>::empty());
    assert(batched(Seq::<char>::empty()) =~= Seq::<Seq<char>>::empty());
    assert(seq![body] + Seq::<Seq<char>>::empty() =~= seq![body]);
}

/// Every form of a frame is read as what it is, with its data as it is. Only
/// JSON that cannot be read, a bad id and an unknown digit are errors.
pub proof fn frames_are_read_as_what_they_are(raw: Seq<char>)
    ensures
        match frame_form(raw) {
            FormView::Disconnect => plain_frame(raw) == Ok::<FrameView, ErrorView>(
                FrameView::Disconnect,
            ),
            FormView::Connect => plain_frame(raw) == Ok::<FrameView, ErrorView>(
                FrameView::Connect,
            ),
            FormView::Heartbeat => plain_frame(raw) == Ok::<FrameView, ErrorView>(
                FrameView::Heartbeat,
            ),
            FormView::Message(data) => plain_frame(raw) == Ok::<FrameView, ErrorView>(
                FrameView::Message(data),
            ),
            FormView::JsonMsg(data) => plain_frame(raw) == match json_in(data) {
                Ok(arg) => Ok::<FrameView, ErrorView>(FrameView::JsonMsg(arg)),
                Err(e) => Err(ErrorView::Json(e)),
            },
            FormView::ProtoError(data) => plain_frame(raw) == Ok::<FrameView, ErrorView>(
                FrameView::ProtoError { reason: data },
            ),
            FormView::Noop => plain_frame(raw) == Ok::<FrameView, ErrorView>(FrameView::Noop),
            FormView::Ack { id, args: None } => unsigned_in(id) is None ==> (plain_frame(raw)
                matches Err(ErrorView::Protocol(_))),
            FormView::Ack { id, args: Some(json) } => match json_list_in(json) {
                Err(e) => plain_frame(raw) == Err::<FrameView, ErrorView>(ErrorView::Json(e)),
                Ok(_) => unsigned_in(id) is None ==> (plain_frame(raw) matches Err(
                    ErrorView::Protocol(_),
                )),
            },
            FormView::Unknown(_) => plain_frame(raw) matches Err(ErrorView::Protocol(_)),
            FormView::Event(_) => true,
        },
{
}

/// An event is what was read of it, and one that cannot be read is an error.
pub proof fn events_are_what_was_read_of_them(payload: EventPayload, problem: String)
    ensures
        event_frame(Ok(payload)) == Ok::<FrameView, ErrorView>(FrameView::Event(payload@)),
        event_frame(Err(problem)) == Err::<FrameView, ErrorView>(ErrorView::Json(problem@)),
{
}

} // verus!
