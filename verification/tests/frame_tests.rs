use overleaf_mcp::frame::{EventPayload, Frame, RawFrame};
use overleaf_mcp::json::{Json, JsonArg};

fn no_event(_data: &str) -> Result<EventPayload, String> {
    Err("unexpected event".to_string())
}

fn named(data: &str) -> Result<EventPayload, String> {
    Ok(EventPayload { name: data.to_string(), args: vec![] })
}

fn batch(frames: &[&str]) -> String {
    frames.iter().map(|f| format!("\u{fffd}{}\u{fffd}{f}", f.chars().count())).collect()
}

#[test]
fn a_batch_gives_its_frames_back() {
    let frames = ["2::", "5:::{\"name\":\"é😀\"}", "", "a\u{fffd}3\u{fffd}b"];
    assert_eq!(Frame::split_batch(&batch(&frames)), frames);
}

#[test]
fn bodies_that_are_no_batch() {
    assert_eq!(Frame::split_batch(""), Vec::<String>::new());
    assert_eq!(Frame::split_batch("1::"), ["1::"]);
}

#[test]
fn malformed_batches_end_early() {
    assert_eq!(Frame::split_batch("\u{fffd}3\u{fffd}2::junk"), ["2::"]);
    assert_eq!(Frame::split_batch("\u{fffd}x"), Vec::<String>::new());
    assert_eq!(Frame::split_batch("\u{fffd}\u{fffd}abc"), Vec::<String>::new());
    assert_eq!(Frame::split_batch("\u{fffd}9\u{fffd}abc"), ["abc"]);
    assert_eq!(Frame::split_batch("\u{fffd}12"), Vec::<String>::new());
    assert_eq!(
        Frame::split_batch("\u{fffd}99999999999999999999999999\u{fffd}abc"),
        ["abc"]
    );
}

#[test]
fn frames_are_told_apart() {
    assert!(matches!(Frame::parse("0::", no_event), Ok(Frame::Disconnect)));
    assert!(matches!(Frame::parse("1::", no_event), Ok(Frame::Connect)));
    assert!(matches!(Frame::parse("2::", no_event), Ok(Frame::Heartbeat)));
    assert!(matches!(Frame::parse("8::", no_event), Ok(Frame::Noop)));
    match Frame::parse("3:::a:b", no_event) {
        Ok(Frame::Message(data)) => assert_eq!(data, "a:b"),
        other => panic!("{other:?}"),
    }
    match Frame::parse("7:::+0", no_event) {
        Ok(Frame::ProtoError { reason }) => assert_eq!(reason, "+0"),
        other => panic!("{other:?}"),
    }
}

#[test]
fn json_messages_are_parsed() {
    match Frame::parse("4:::{ \"a\" : [1, null] }", no_event) {
        Ok(Frame::JsonMsg(arg)) => {
            assert_eq!(arg.text, "{\"a\":[1,null]}");
            assert!(arg.body.get("a").unwrap().as_array().unwrap()[1].is_null());
        }
        other => panic!("{other:?}"),
    }
    let error = Frame::parse("4:::{", no_event).unwrap_err().message();
    let expected = serde_json::from_str::<serde_json::Value>("{").unwrap_err().to_string();
    assert_eq!(error, format!("json error: {expected}"));
}

#[test]
fn acks_carry_an_id_and_arguments() {
    match Frame::parse("6:::12", no_event) {
        Ok(Frame::Ack { id, args }) => assert_eq!((id, args.len()), (12, 0)),
        other => panic!("{other:?}"),
    }
    match Frame::parse("6:::7+[null,\"x\",{\"k\":2}]", no_event) {
        Ok(Frame::Ack { id, args }) => {
            assert_eq!(id, 7);
            let texts: Vec<&str> = args.iter().map(|a| a.text.as_str()).collect();
            assert_eq!(texts, ["null", "\"x\"", "{\"k\":2}"]);
            assert_eq!(args[1].body.as_str(), Some("x".to_string()));
        }
        other => panic!("{other:?}"),
    }
}

#[test]
fn bad_acks_are_refused() {
    assert_eq!(
        Frame::parse("6:::x+[]", no_event).unwrap_err().message(),
        "realtime protocol error: bad ack id in frame: 6:::x+[]"
    );
    let bad_list = Frame::parse("6:::x+{}", no_event).unwrap_err().message();
    assert!(bad_list.starts_with("json error: "));
    assert!(Frame::ack("6:::x", "x", Ok(vec![])).is_err());
    assert!(matches!(Frame::ack("6:::3", "3", Ok(vec![])), Ok(Frame::Ack { id: 3, .. })));
    assert_eq!(
        Frame::ack("r", "3", Err("bad".to_string())).unwrap_err().message(),
        "json error: bad"
    );
}

#[test]
fn unknown_frames_are_refused() {
    assert_eq!(
        Frame::parse("9::x:y", no_event).unwrap_err().message(),
        "realtime protocol error: unknown frame type 9: 9::x:y"
    );
    assert_eq!(
        Frame::parse("", no_event).unwrap_err().message(),
        "realtime protocol error: unknown frame type : "
    );
}

#[test]
fn encoded_events_reach_the_decoder_unchanged() {
    assert_eq!(Frame::encode_event("{\"a\":\":\"}", Some(4)), "5:4+::{\"a\":\":\"}");
    assert_eq!(Frame::encode_event("{}", None), "5:::{}");
    for ack in [None, Some(0), Some(u64::MAX)] {
        let raw = Frame::encode_event("{\"x\":\"a:b+c\"}", ack);
        match Frame::form(&raw) {
            RawFrame::Event(data) => assert_eq!(data, "{\"x\":\"a:b+c\"}"),
            other => panic!("{other:?}"),
        }
        match Frame::parse(&raw, named) {
            Ok(Frame::Event(payload)) => assert_eq!(payload.name, "{\"x\":\"a:b+c\"}"),
            other => panic!("{other:?}"),
        }
    }
    assert_eq!(
        Frame::parse("5:::x", no_event).unwrap_err().message(),
        "json error: unexpected event"
    );
}

#[test]
fn json_values_are_read_by_kind() {
    let arg = JsonArg::read("{\"s\":\"t\",\"n\":-5,\"f\":1.5,\"b\":true,\"z\":null,\"a\":[]}").unwrap();
    let body = &arg.body;
    assert_eq!(body.get_str("s"), Some("t".to_string()));
    assert_eq!(body.get_str("n"), None);
    assert_eq!(body.get("n").unwrap().as_i64(), Some(-5));
    assert_eq!(body.get("f").unwrap().as_i64(), None);
    assert!(matches!(body.get("f"), Some(Json::Number)));
    assert!(matches!(body.get("b"), Some(Json::Bool(true))));
    assert!(body.get("z").unwrap().is_null());
    assert_eq!(body.get("a").unwrap().as_array().unwrap().len(), 0);
    assert!(body.get("missing").is_none());
    assert!(body.as_array().is_none() && body.as_str().is_none());
    let big = JsonArg::read("18446744073709551615").unwrap();
    assert_eq!(big.body.as_i64(), None);
    assert_eq!(big.text, "18446744073709551615");
    assert!(JsonArg::read_list("{}").is_err());
}

#[test]
fn read_messages_become_frames() {
    let arg = JsonArg { text: "null".to_string(), body: Json::Null };
    match Frame::json_message(Ok(arg)) {
        Ok(Frame::JsonMsg(arg)) => assert_eq!(arg.text, "null"),
        other => panic!("{other:?}"),
    }
    let error = Frame::json_message(Err("no JSON".to_string())).unwrap_err();
    assert_eq!(error.message(), "json error: no JSON");
}
