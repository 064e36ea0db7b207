use overleaf_mcp::edits::{full_replace_edits, plan_edit, plan_overwrite};
use overleaf_mcp::error::OverleafError;
use overleaf_mcp::ot::OtComponent;
use overleaf_mcp::shadow::DocShadow;

fn shadow(content: &str) -> DocShadow {
    DocShadow::joined(content.to_string(), 3)
}

fn after(content: &str, ops: &Vec<OtComponent>) -> Option<String> {
    let mut doc = shadow(content);
    if doc.replay(ops) {
        Some(doc.content)
    } else {
        None
    }
}

fn message(result: Result<(), OverleafError>) -> String {
    result.unwrap_err().message()
}

#[test]
fn components_hold_one_change() {
    let ins = OtComponent::insert(4, "x".to_string());
    assert_eq!((ins.p, ins.i.as_deref(), ins.d.as_deref()), (4, Some("x"), None));
    let del = OtComponent::delete(0, "y".to_string());
    assert_eq!((del.p, del.i.as_deref(), del.d.as_deref()), (0, None, Some("y")));
    assert!(del.c.is_none() && del.t.is_none());
}

#[test]
fn positions_count_utf16_units() {
    assert_eq!(OtComponent::utf16_len("aé😀"), 4);
    assert_eq!(OtComponent::utf16_of_byte("a😀b", 5), 3);
    assert_eq!(OtComponent::byte_of_utf16("a😀b", 3), Some(5));
    assert_eq!(OtComponent::byte_of_utf16("a😀b", 2), None);
    assert_eq!(OtComponent::byte_of_utf16("a😀b", 4), Some(6));
    assert_eq!(OtComponent::byte_of_utf16("a😀b", 5), None);
    assert_eq!(OtComponent::byte_of_utf16("", 0), Some(0));
}

#[test]
fn script_positions_follow_the_running_text() {
    let edits = [(0, 1, "xyz".to_string()), (3, 5, String::new()), (6, 6, "!".to_string())];
    let ops = OtComponent::replace_script("abcdefg", &edits);
    let shown: Vec<(u64, Option<&str>, Option<&str>)> =
        ops.iter().map(|o| (o.p, o.d.as_deref(), o.i.as_deref())).collect();
    assert_eq!(
        shown,
        [
            (0, Some("a"), None),
            (0, None, Some("xyz")),
            (5, Some("de"), None),
            (6, None, Some("!"))
        ]
    );
    assert_eq!(after("abcdefg", &ops), Some("xyzbcf!g".to_string()));
}

#[test]
fn script_handles_wide_characters() {
    let edits = [(0, 4, "é".to_string()), (5, 9, "b".to_string())];
    let ops = OtComponent::replace_script("😀a😀", &edits);
    assert_eq!(after("😀a😀", &ops), Some("éab".to_string()));
}

#[test]
fn components_that_do_not_fit_are_refused() {
    let mut doc = shadow("abc");
    assert_eq!(
        message(doc.apply_component(&OtComponent::insert(4, "x".to_string()))),
        "document out of sync: insert position 4 out of range"
    );
    assert_eq!(
        message(doc.apply_component(&OtComponent::delete(9, "x".to_string()))),
        "document out of sync: delete position 9 out of range"
    );
    assert_eq!(
        message(doc.apply_component(&OtComponent::delete(2, "cd".to_string()))),
        "document out of sync: delete end for position 2 out of range"
    );
    assert_eq!(
        message(doc.apply_component(&OtComponent::delete(0, "x".to_string()))),
        "document out of sync: deleted text does not match shadow content"
    );
    assert_eq!(doc.content, "abc");
}

#[test]
fn comments_change_nothing() {
    let mut doc = shadow("abc");
    let comment = OtComponent {
        p: 99,
        i: None,
        d: Some("zzz".to_string()),
        c: Some("b".to_string()),
        t: Some("thread".to_string()),
    };
    assert!(doc.apply_component(&comment).is_ok());
    assert_eq!(doc.content, "abc");
}

#[test]
fn replay_stops_at_the_first_misfit() {
    let mut doc = shadow("abc");
    let ops = vec![
        OtComponent::insert(0, "1".to_string()),
        OtComponent::delete(0, "x".to_string()),
        OtComponent::insert(0, "2".to_string()),
    ];
    assert!(!doc.replay(&ops));
    assert_eq!(doc.content, "1abc");
}

#[test]
fn wire_lines_are_decoded() {
    assert_eq!(DocShadow::decode_wire_line("plain"), "plain");
    assert_eq!(DocShadow::decode_wire_line("\u{c3}\u{a9}"), "é");
    assert_eq!(DocShadow::decode_wire_line("\u{c3}"), "\u{c3}");
    assert_eq!(DocShadow::decode_wire_line("é\u{100}"), "é\u{100}");
    let line = "naïve — 😀";
    let encoded: String = line.bytes().map(char::from).collect();
    assert_eq!(DocShadow::decode_wire_line(&encoded), line);
}

#[test]
fn overwrite_is_one_compact_replacement() {
    assert_eq!(full_replace_edits("same", "same"), []);
    assert_eq!(full_replace_edits("abcdef", "abXef"), [(2, 4, "X".to_string())]);
    assert_eq!(full_replace_edits("aaa", "aa"), [(2, 3, String::new())]);
    assert_eq!(full_replace_edits("é", "è"), [(0, 2, "è".to_string())]);
    for (from, to) in [("", "x"), ("abc", ""), ("a😀b", "a😁b"), ("x\ny", "x\nz\ny"), ("q", "q")] {
        let ops = plan_overwrite(from, to);
        assert_eq!(after(from, &ops), Some(to.to_string()));
        assert_eq!(ops.is_empty(), from == to);
    }
}

#[test]
fn single_replacement_is_planned() {
    let plan = plan_edit("one two three", "/a.tex", "two", "2", false).unwrap();
    assert_eq!((plan.match_count, plan.first_offset), (1, 4));
    assert_eq!(after("one two three", &plan.ops), Some("one 2 three".to_string()));
}

#[test]
fn all_occurrences_are_replaced_when_asked() {
    let plan = plan_edit("aXbXcX", "/a.tex", "X", "😀", true).unwrap();
    assert_eq!((plan.match_count, plan.first_offset), (3, 1));
    assert_eq!(after("aXbXcX", &plan.ops), Some("a😀b😀c😀".to_string()));
    let plan = plan_edit("aaaa", "/a.tex", "aa", "a", true).unwrap();
    assert_eq!(plan.match_count, 2);
    assert_eq!(after("aaaa", &plan.ops), Some("aa".to_string()));
}

#[test]
fn replacement_without_a_unique_match_is_refused() {
    assert_eq!(
        plan_edit("abc", "/a.tex", "x", "y", false).err().unwrap().message(),
        "edit rejected: old_string not found in the current content of /a.tex; the doc may have changed — call read_file again"
    );
    assert_eq!(
        plan_edit("xx", "/a.tex", "x", "y", false).err().unwrap().message(),
        "edit rejected: old_string appears 2 times in /a.tex; add surrounding context to make it unique or set replace_all"
    );
}

#[test]
fn offsets_lead_back_to_each_other() {
    let text = "aé😀z";
    for (byte, _) in text.char_indices().chain([(text.len(), ' ')]) {
        let unit = OtComponent::utf16_of_byte(text, byte);
        assert_eq!(OtComponent::byte_of_utf16(text, unit), Some(byte));
    }
}
