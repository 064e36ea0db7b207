//! The in-memory mirror of a joined document.
use vstd::prelude::*;
use vstd::utf8::{
    decode_utf8, encode_utf8, encode_utf8_decode_utf8, encode_utf8_valid_utf8,
    is_ascii_chars_encode_utf8, valid_utf8,
};

use crate::error::{ErrorView, OverleafError, Result};
use crate::number::{decimal, push_decimal};
use crate::ot::{
    component_views, deletion, done_text, end_char, first_char, insertion, lemma_last_edit,
    lemma_place, old_text, place, positions_fit, reach, replacement_ops, script, script_place,
    spliced, valid_edits, ComponentView, EditView, OtComponent,
};
use crate::text::{chars_of, code_of, same_text};
use crate::units::{
    byte_len, char_of_unit, cut, encode_utf16, lemma_char_of_byte, lemma_char_of_unit,
    lemma_offset_bounds, lemma_offsets_grow, lemma_utf16_concat, lemma_utf16_within_utf8,
    offsets_count_utf16_code_units, on_unit, slice, unit_at, utf16_encodes_piece_by_piece,
    utf16_size,
};

verus! {

// --- lines on the wire ---------------------------------------------------

/// `String::from_utf8`: a string for exactly the byte sequences that are valid
/// UTF-8, and then the text that they encode.
#[verifier::external_body]
pub(crate) fn string_from_utf8(bytes: Vec<u8>) -> (text: Option<String>)
    ensures
        match text {
            Some(t) => valid_utf8(bytes@) && t@ == decode_utf8(bytes@),
            None => !valid_utf8(bytes@),
        },
{
    String::from_utf8(bytes).ok()
}

/// The bytes whose values are the code points of `text`.
pub open spec fn code_bytes(text: Seq<char>) -> Seq<u8> {
    Seq::new(text.len(), |i: int| text[i] as u8)
}

/// Whether every code point of `text` fits in a byte.
pub open spec fn byte_valued(text: Seq<char>) -> bool {
    forall|i: int| 0 <= i < text.len() ==> (#[trigger] text[i]) as u32 <= 0xFF
}

/// What a line on the wire stands for: its code points are the bytes of the
/// line in UTF-8. A line that is not of that form stands for itself.
pub open spec fn wire_decoded(raw: Seq<char>) -> Seq<char> {
    if byte_valued(raw) && valid_utf8(code_bytes(raw)) {
        decode_utf8(code_bytes(raw))
    } else {
        raw
    }
}

/// The form in which a line travels: one code point for each byte of its
/// UTF-8 encoding.
pub open spec fn wire_encoded(line: Seq<char>) -> Seq<char> {
    Seq::new(encode_utf8(line).len(), |i: int| encode_utf8(line)[i] as char)
}

/// Decoding gives back every line that was put on the wire.
pub proof fn wire_decoding_undoes_encoding(line: Seq<char>)
    ensures
        wire_decoded(wire_encoded(line)) == line,
{
    let bytes = encode_utf8(line);
    encode_utf8_valid_utf8(line);
    encode_utf8_decode_utf8(line);
    assert(code_bytes(wire_encoded(line)) =~= bytes);
}

/// A line of ASCII characters stands for itself.
pub proof fn wire_decoding_keeps_ascii(raw: Seq<char>)
    requires
        vstd::utf8::is_ascii_chars(raw),
    ensures
        wire_decoded(raw) == raw,
{
    is_ascii_chars_encode_utf8(raw);
    assert(code_bytes(raw) =~= encode_utf8(raw));
    encode_utf8_valid_utf8(raw);
    encode_utf8_decode_utf8(raw);
}

// --- the shadow ----------------------------------------------------------

/// A mirror of one document. `content` tracks the server as long as `dirty` is
/// false; a divergence that cannot be reconstructed here sets `dirty`, and the
/// next reader fetches the document again. `in_flight` is the ticket of the
/// edit that waits for its confirmation, and `raced` tells that a remote
/// operation arrived meanwhile. A document that is `read_only` is of a kind that
/// can be read but not edited.
#[derive(Debug)]
pub struct DocShadow {
    pub content: String,
    pub version: i64,
    pub dirty: bool,
    pub raced: bool,
    pub in_flight: Option<u64>,
    pub read_only: bool,
}

/// A shadow as plain values.
pub struct ShadowView {
    pub content: Seq<char>,
    pub version: int,
    pub dirty: bool,
    pub raced: bool,
    pub in_flight: Option<u64>,
    pub read_only: bool,
}

impl View for DocShadow {
    type V = ShadowView;

    open spec fn view(&self) -> ShadowView {
        ShadowView {
            content: self.content@,
            version: self.version as int,
            dirty: self.dirty,
            raced: self.raced,
            in_flight: self.in_flight,
            read_only: self.read_only,
        }
    }
}

/// What `comp` makes of a document, or the error when it does not fit.
pub open spec fn applied(content: Seq<char>, comp: ComponentView) -> std::result::Result<
    Seq<char>,
    ErrorView,
> {
    match (comp.c, comp.i, comp.d) {
        (Some(_), _, _) => Ok(content),
        (None, Some(text), _) => if on_unit(content, comp.p) {
            let at = char_of_unit(content, comp.p);
            Ok(content.take(at) + text + content.skip(at))
        } else {
            Err(
                ErrorView::OutOfSync(
                    "insert position "@ + decimal(comp.p as nat) + " out of range"@,
                ),
            )
        },
        (None, None, Some(text)) => if !on_unit(content, comp.p) {
            Err(
                ErrorView::OutOfSync(
                    "delete position "@ + decimal(comp.p as nat) + " out of range"@,
                ),
            )
        } else if !on_unit(content, comp.p + utf16_size(text)) {
            Err(
                ErrorView::OutOfSync(
                    "delete end for position "@ + decimal(comp.p as nat) + " out of range"@,
                ),
            )
        } else {
            let from = char_of_unit(content, comp.p);
            let to = char_of_unit(content, comp.p + utf16_size(text));
            if content.subrange(from, to) == text {
                Ok(content.take(from) + content.skip(to))
            } else {
                Err(ErrorView::OutOfSync("deleted text does not match shadow content"@))
            }
        },
        (None, None, None) => Ok(content),
    }
}

/// How far a list of components got.
pub struct Replay {
    /// The document as the last component that fitted left it.
    pub content: Seq<char>,
    /// Whether all of them fitted.
    pub complete: bool,
}

/// Applies components one after another, each on the result of those before
/// it, up to the first one that does not fit.
pub open spec fn replayed(content: Seq<char>, ops: Seq<ComponentView>) -> Replay
    decreases ops.len(),
{
    if ops.len() == 0 {
        Replay { content, complete: true }
    } else {
        let before = replayed(content, ops.drop_last());
        if !before.complete {
            before
        } else {
            match applied(before.content, ops.last()) {
                Ok(after) => Replay { content: after, complete: true },
                Err(_) => Replay { content: before.content, complete: false },
            }
        }
    }
}

proof fn lemma_replayed_concat(content: Seq<char>, a: Seq<ComponentView>, b: Seq<ComponentView>)
    requires
        replayed(content, a).complete,
    ensures
        replayed(content, a + b) == replayed(replayed(content, a).content, b),
    decreases b.len(),
{
    if b.len() == 0 {
        assert(a + b =~= a);
    } else {
        lemma_replayed_concat(content, a, b.drop_last());
        assert((a + b).drop_last() =~= a + b.drop_last());
    }
}

/// Components that turn `head + old + tail` into `head + new + tail`.
proof fn lemma_replacement(head: Seq<char>, old: Seq<char>, new: Seq<char>, tail: Seq<char>)
    ensures
        replayed(head + old + tail, replacement_ops(utf16_size(head) as int, old, new)) == (Replay {
            content: head + new + tail,
            complete: true,
        }),
{
    let p = utf16_size(head) as int;
    let start = head + old + tail;
    let ops = replacement_ops(p, old, new);
    let first: Seq<ComponentView> = if old.len() > 0 {
        seq![deletion(p, old)]
    } else {
        Seq::empty()
    };
    let second: Seq<ComponentView> = if new.len() > 0 {
        seq![insertion(p, new)]
    } else {
        Seq::empty()
    };
    let middle = head + tail;
    assert(replayed(start, first) == (Replay { content: middle, complete: true })) by {
        if old.len() > 0 {
            let h = head.len() as int;
            let e = h + old.len();
            assert(start.take(h) =~= head);
            assert(start.take(e) =~= head + old);
            lemma_utf16_concat(head, old);
            lemma_char_of_unit(start, h);
            lemma_char_of_unit(start, e);
            assert(start.subrange(h, e) =~= old);
            assert(start.take(h) + start.skip(e) =~= middle);
            assert(first.drop_last() =~= Seq::<ComponentView>::empty());
            assert(replayed(start, first.drop_last()) == (Replay {
                content: start,
                complete: true,
            }));
        } else {
            assert(start =~= middle);
        }
    }
    assert(replayed(middle, second) == (Replay { content: head + new + tail, complete: true })) by {
        if new.len() > 0 {
            let h = head.len() as int;
            assert(middle.take(h) =~= head);
            assert(middle.skip(h) =~= tail);
            lemma_char_of_unit(middle, h);
            assert(second.drop_last() =~= Seq::<ComponentView>::empty());
            assert(replayed(middle, second.drop_last()) == (Replay {
                content: middle,
                complete: true,
            }));
        } else {
            assert(head + new + tail =~= middle);
        }
    }
    lemma_replayed_concat(start, first, second);
}

/// An insertion puts its text between the code units before its position and
/// those behind it. It fits exactly where that position does not lie behind the
/// end or within a character.
pub proof fn insertion_acts_on_code_units(content: Seq<char>, p: int, text: Seq<char>)
    ensures
        match applied(content, insertion(p, text)) {
            Ok(after) => {
                &&& 0 <= p <= encode_utf16(content).len()
                &&& encode_utf16(after) == encode_utf16(content).take(p) + encode_utf16(text)
                    + encode_utf16(content).skip(p)
            },
            Err(_) => true,
        },
        applied(content, insertion(p, text)) is Ok <==> exists|k: int|
            0 <= k <= content.len() && (#[trigger] encode_utf16(content.take(k))).len() == p,
{
    if on_unit(content, p) {
        let k = char_of_unit(content, p);
        let after = content.take(k) + text + content.skip(k);
        offsets_count_utf16_code_units(content, k);
        assert(content.take(k) + content.skip(k) =~= content);
        utf16_encodes_piece_by_piece(content.take(k), content.skip(k));
        utf16_encodes_piece_by_piece(content.take(k) + text, content.skip(k));
        utf16_encodes_piece_by_piece(content.take(k), text);
        assert(encode_utf16(content).skip(p) =~= encode_utf16(content.skip(k)));
        assert(encode_utf16(content.take(k)).len() == p);
        assert(encode_utf16(after) =~= encode_utf16(content).take(p) + encode_utf16(text)
            + encode_utf16(content).skip(p));
    }
    if exists|k: int|
        0 <= k <= content.len() && (#[trigger] encode_utf16(content.take(k))).len() == p {
        let k = choose|k: int|
            0 <= k <= content.len() && (#[trigger] encode_utf16(content.take(k))).len() == p;
        offsets_count_utf16_code_units(content, k);
        assert(unit_at(content, k) == p);
    }
}

/// A deletion takes its text out between the code units before its position and
/// those behind the text. It fits exactly where the text stands there.
pub proof fn deletion_acts_on_code_units(content: Seq<char>, p: int, text: Seq<char>)
    ensures
        match applied(content, deletion(p, text)) {
            Ok(after) => {
                &&& 0 <= p <= encode_utf16(after).len()
                &&& encode_utf16(content) == encode_utf16(after).take(p) + encode_utf16(text)
                    + encode_utf16(after).skip(p)
            },
            Err(_) => true,
        },
        applied(content, deletion(p, text)) is Ok <==> exists|k: int|
            {
                &&& 0 <= k <= content.len()
                &&& (#[trigger] encode_utf16(content.take(k))).len() == p
                &&& k + text.len() <= content.len()
                &&& content.subrange(k, k + text.len()) == text
            },
{
    let q = p + utf16_size(text);
    if applied(content, deletion(p, text)) is Ok {
        let from = char_of_unit(content, p);
        let to = char_of_unit(content, q);
        let after = content.take(from) + content.skip(to);
        if to < from {
            lemma_offsets_grow(content, to, from);
        }
        offsets_count_utf16_code_units(content, from);
        assert(content.take(from) + text + content.skip(to) =~= content);
        utf16_encodes_piece_by_piece(content.take(from) + text, content.skip(to));
        utf16_encodes_piece_by_piece(content.take(from), text);
        utf16_encodes_piece_by_piece(content.take(from), content.skip(to));
        assert(encode_utf16(after).take(p) =~= encode_utf16(content.take(from)));
        assert(encode_utf16(after).skip(p) =~= encode_utf16(content.skip(to)));
        assert(encode_utf16(content) =~= encode_utf16(after).take(p) + encode_utf16(text)
            + encode_utf16(after).skip(p));
        assert(encode_utf16(content.take(from)).len() == p);
    }
    if exists|k: int|
        {
            &&& 0 <= k <= content.len()
            &&& (#[trigger] encode_utf16(content.take(k))).len() == p
            &&& k + text.len() <= content.len()
            &&& content.subrange(k, k + text.len()) == text
        } {
        let k = choose|k: int|
            {
                &&& 0 <= k <= content.len()
                &&& (#[trigger] encode_utf16(content.take(k))).len() == p
                &&& k + text.len() <= content.len()
                &&& content.subrange(k, k + text.len()) == text
            };
        let e = k + text.len();
        offsets_count_utf16_code_units(content, k);
        lemma_char_of_unit(content, k);
        lemma_char_of_unit(content, e);
        assert(content.take(e) =~= content.take(k) + text);
        lemma_utf16_concat(content.take(k), text);
        assert(unit_at(content, e) == q);
    }
}

/// A comment changes nothing. Components are replayed one after another: a list
/// fits when each fits what those before it made, and at the first that does not
/// fit the replay ends with what was made so far.
pub proof fn components_are_replayed_in_order(
    content: Seq<char>,
    ops: Seq<ComponentView>,
    next: ComponentView,
)
    ensures
        next.c is Some ==> applied(content, next) == Ok::<Seq<char>, ErrorView>(content),
        next.i is None && next.d is None ==> applied(content, next) == Ok::<Seq<char>, ErrorView>(
            content,
        ),
        replayed(content, Seq::empty()) == (Replay { content, complete: true }),
        !replayed(content, ops).complete ==> replayed(content, ops.push(next)) == replayed(
            content,
            ops,
        ),
        replayed(content, ops).complete ==> match applied(replayed(content, ops).content, next) {
            Ok(after) => replayed(content, ops.push(next)) == (Replay {
                content: after,
                complete: true,
            }),
            Err(_) => replayed(content, ops.push(next)) == (Replay {
                content: replayed(content, ops).content,
                complete: false,
            }),
        },
{
    assert(ops.push(next).drop_last() =~= ops);
}

/// Replaying the operation that was built for a list of replacements makes
/// exactly those replacements, as long as its positions fit in 64 bits.
pub proof fn script_makes_the_replacements(content: Seq<char>, edits: Seq<EditView>)
    requires
        valid_edits(content, edits),
        positions_fit(content, edits),
    ensures
        replayed(content, script(content, edits)) == (Replay {
            content: spliced(content, edits),
            complete: true,
        }),
    decreases edits.len(),
{
    if edits.len() == 0 {
        assert(spliced(content, edits) =~= content);
    } else {
        let before = edits.drop_last();
        let e = edits.last();
        lemma_last_edit(content, edits);
        assert forall|n: int| 0 <= n < before.len() implies #[trigger] script_place(
            content,
            before,
            n,
        ) <= u64::MAX by {
            assert(before.take(n) =~= edits.take(n));
            assert(script_place(content, edits, n) <= u64::MAX);
        }
        assert(edits.take(edits.len() - 1) =~= before);
        assert(script_place(content, edits, edits.len() - 1) <= u64::MAX);
        script_makes_the_replacements(content, before);
        assert(before.push(e) =~= edits);
        lemma_place(content, before, e);
        let r = reach(content, before);
        let f = first_char(content, e);
        let t = end_char(content, e);
        let head = done_text(content, before) + content.subrange(r, f);
        let tail = content.skip(t);
        assert(spliced(content, before) =~= head + old_text(content, e) + tail);
        lemma_replacement(head, old_text(content, e), e.text, tail);
        lemma_replayed_concat(
            content,
            script(content, before),
            replacement_ops(place(content, before, e), old_text(content, e), e.text),
        );
        assert(spliced(content, edits) =~= head + e.text + tail);
    }
}

fn range_error(head: &str, p: u64) -> (error: OverleafError)
    ensures
        error@ == ErrorView::OutOfSync(head@ + decimal(p as nat) + " out of range"@),
{
    let mut text = head.to_owned();
    push_decimal(&mut text, p);
    text.append(" out of range");
    OverleafError::OutOfSync(text)
}

impl DocShadow {
    /// A shadow of a freshly joined document.
    pub fn joined(content: String, version: i64) -> (shadow: Self)
        ensures
            shadow@ == (ShadowView {
                content: content@,
                version: version as int,
                dirty: false,
                raced: false,
                in_flight: None,
                read_only: false,
            }),
    {
        DocShadow {
            content,
            version,
            dirty: false,
            raced: false,
            in_flight: None,
            read_only: false,
        }
    }

    /// Decodes a line of a joined document.
    pub fn decode_wire_line(raw: &str) -> (line: String)
        ensures
            line@ == wire_decoded(raw@),
    {
        if raw.is_ascii() {
            proof {
                wire_decoding_keeps_ascii(raw@);
            }
            return raw.to_owned();
        }
        let t = chars_of(raw);
        let mut bytes: Vec<u8> = Vec::new();
        let mut i: usize = 0;
        while i < t.len()
            invariant
                i <= t@.len(),
                t@ == raw@,
                bytes@ == code_bytes(raw@.take(i as int)),
                byte_valued(raw@.take(i as int)),
            decreases t@.len() - i,
        {
            let code = code_of(t[i]);
            if code > 0xFF {
                return raw.to_owned();
            }
            let ghost before = bytes@;
            bytes.push(code as u8);
            assert(raw@.take(i + 1) =~= raw@.take(i as int).push(raw@[i as int]));
            assert(code as u8 == raw@[i as int] as u8);
            assert(bytes@ =~= code_bytes(raw@.take(i + 1)));
            i += 1;
        }
        assert(raw@.take(raw@.len() as int) =~= raw@);
        match string_from_utf8(bytes) {
            Some(line) => line,
            None => raw.to_owned(),
        }
    }

    /// Applies one component to the content. When it does not fit, the
    /// content stays as it is.
    pub fn apply_component(&mut self, comp: &OtComponent) -> (result: Result<()>)
        ensures
            match applied(old(self)@.content, comp@) {
                Ok(content) => result is Ok && final(self)@ == (ShadowView {
                    content,
                    ..old(self)@
                }),
                Err(error) => {
                    &&& result matches Err(e) && e@ == error
                    &&& final(self)@ == old(self)@
                },
            },
    {
        let ghost content = self.content@;
        if comp.c.is_some() {
            return Ok(());
        }
        if let Some(text) = &comp.i {
            let at = match OtComponent::byte_of_utf16(self.content.as_str(), comp.p) {
                Some(at) => at,
                None => {
                    return Err(range_error("insert position ", comp.p));
                },
            };
            proof {
                lemma_char_of_byte(content, char_of_unit(content, comp.p as int));
            }
            let (head, tail) = cut(self.content.as_str(), at);
            let mut now = head.to_owned();
            now.append(text.as_str());
            now.append(tail);
            self.content = now;
        } else if let Some(text) = &comp.d {
            let start = match OtComponent::byte_of_utf16(self.content.as_str(), comp.p) {
                Some(start) => start,
                None => {
                    return Err(range_error("delete position ", comp.p));
                },
            };
            let size = OtComponent::utf16_len(text.as_str());
            let found = match comp.p.checked_add(size) {
                Some(units) => OtComponent::byte_of_utf16(self.content.as_str(), units),
                None => None,
            };
            let bytes: usize = byte_len(self.content.as_str());
            proof {
                let end = comp.p + utf16_size(text@);
                if end > u64::MAX && on_unit(content, end) {
                    lemma_offset_bounds(content, char_of_unit(content, end));
                    lemma_utf16_within_utf8(content);
                }
            }
            let end = match found {
                Some(end) => end,
                None => {
                    return Err(range_error("delete end for position ", comp.p));
                },
            };
            proof {
                let from = char_of_unit(content, comp.p as int);
                let to = char_of_unit(content, comp.p + utf16_size(text@));
                lemma_char_of_byte(content, from);
                lemma_char_of_byte(content, to);
                if to < from {
                    lemma_offsets_grow(content, to, from);
                } else {
                    lemma_offsets_grow(content, from, to);
                }
            }
            let old = slice(self.content.as_str(), start, end);
            if !same_text(old, text.as_str()) {
                return Err(
                    OverleafError::OutOfSync(
                        "deleted text does not match shadow content".to_owned(),
                    ),
                );
            }
            let (head, _) = cut(self.content.as_str(), start);
            let (_, tail) = cut(self.content.as_str(), end);
            let mut now = head.to_owned();
            now.append(tail);
            self.content = now;
        }
        Ok(())
    }

    /// Applies components one after another, up to the first one that does
    /// not fit, and tells whether all of them fitted.
    pub fn replay(&mut self, ops: &Vec<OtComponent>) -> (complete: bool)
        ensures
            complete == replayed(old(self)@.content, component_views(ops@)).complete,
            final(self)@ == (ShadowView {
                content: replayed(old(self)@.content, component_views(ops@)).content,
                ..old(self)@
            }),
    {
        let ghost before = self@;
        let ghost views = component_views(ops@);
        let mut i: usize = 0;
        assert(views.take(0) =~= Seq::<ComponentView>::empty());
        while i < ops.len()
            invariant
                i <= ops@.len(),
                views == component_views(ops@),
                replayed(before.content, views.take(i as int)) == (Replay {
                    content: self@.content,
                    complete: true,
                }),
                self@ == (ShadowView { content: self@.content, ..before }),
                before == old(self)@,
            decreases ops@.len() - i,
        {
            assert(views.take(i + 1).drop_last() =~= views.take(i as int));
            assert(views.take(i + 1).last() == ops@[i as int]@);
            if self.apply_component(&ops[i]).is_err() {
                proof {
                    lemma_replay_stops(before.content, views, i + 1);
                }
                return false;
            }
            i += 1;
        }
        assert(views.take(ops@.len() as int) =~= views);
        true
    }
}

/// Once a component did not fit, those after it change nothing.
proof fn lemma_replay_stops(content: Seq<char>, ops: Seq<ComponentView>, n: int)
    requires
        0 <= n <= ops.len(),
        !replayed(content, ops.take(n)).complete,
    ensures
        replayed(content, ops) == replayed(content, ops.take(n)),
    decreases ops.len() - n,
{
    if n == ops.len() {
        assert(ops.take(n) =~= ops);
    } else {
        assert(ops.take(n + 1).drop_last() =~= ops.take(n));
        lemma_replay_stops(content, ops, n + 1);
    }
}

/// A line that is no encoding is left as it is: one with a character whose code
/// point does not fit in a byte, and one whose bytes are not valid UTF-8.
pub proof fn other_lines_stand_for_themselves(raw: Seq<char>, i: int)
    ensures
        0 <= i < raw.len() && raw[i] as u32 > 0xFF ==> wire_decoded(raw) == raw,
        !valid_utf8(Seq::new(raw.len(), |k: int| raw[k] as u8)) ==> wire_decoded(raw) == raw,
{
    assert(code_bytes(raw) =~= Seq::new(raw.len(), |k: int| raw[k] as u8));
}

} // verus!
