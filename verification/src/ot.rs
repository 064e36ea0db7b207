//! Operational-transformation components of the `sharejs` text type.
use vstd::prelude::*;
use vstd::utf8::encode_utf8;

use crate::text::{chars_of, clone_opt, opt_text};
use crate::units::{
    byte_at, byte_len, byte_of_unit, char_bytes, char_of_byte, char_of_unit, char_units, cut,
    lemma_char_of_byte, lemma_char_of_unit, lemma_offset_bounds, lemma_offsets_grow,
    lemma_single_sizes, lemma_utf16_concat, lemma_utf16_within_utf8, lemma_utf8_concat, on_boundary, on_unit, slice, unit_at, utf16_size,
    utf8_size,
};

verus! {

/// One component of a text operation. The position `p` counts UTF-16 code
/// units of the document. A component inserts `i` or deletes `d`; a comment
/// (`c`, with its thread `t`) never changes the text.
#[derive(Debug)]
pub struct OtComponent {
    pub p: u64,
    pub i: Option<String>,
    pub d: Option<String>,
    pub c: Option<String>,
    pub t: Option<String>,
}

/// A component as its position and its texts.
pub struct ComponentView {
    pub p: int,
    pub i: Option<Seq<char>>,
    pub d: Option<Seq<char>>,
    pub c: Option<Seq<char>>,
    pub t: Option<Seq<char>>,
}

impl View for OtComponent {
    type V = ComponentView;

    open spec fn view(&self) -> ComponentView {
        ComponentView {
            p: self.p as int,
            i: opt_text(self.i),
            d: opt_text(self.d),
            c: opt_text(self.c),
            t: opt_text(self.t),
        }
    }
}

impl OtComponent {
    /// A component that inserts `text` at `p`.
    pub fn insert(p: u64, text: String) -> (comp: Self)
        ensures
            comp@ == insertion(p as int, text@),
    {
        OtComponent { p, i: Some(text), d: None, c: None, t: None }
    }

    /// A component that deletes `text` at `p`.
    pub fn delete(p: u64, text: String) -> (comp: Self)
        ensures
            comp@ == deletion(p as int, text@),
    {
        OtComponent { p, i: None, d: Some(text), c: None, t: None }
    }

    /// The length of `text` in UTF-16 code units.
    pub fn utf16_len(text: &str) -> (units: u64)
        ensures
            units == utf16_size(text@),
            units <= usize::MAX,
    {
        let t = chars_of(text);
        let total: usize = byte_len(text);
        let mut units: u64 = 0;
        let mut i: usize = 0;
        proof {
            lemma_offset_bounds(text@, 0);
            lemma_utf16_within_utf8(text@);
        }
        while i < t.len()
            invariant
                i <= t@.len(),
                t@ == text@,
                total == utf8_size(text@),
                units == unit_at(text@, i as int),
            decreases t@.len() - i,
        {
            proof {
                lemma_offsets_grow(text@, i as int, i + 1);
                lemma_offset_bounds(text@, i + 1);
                lemma_single_sizes(text@[i as int]);
                assert(text@.subrange(i as int, i + 1) =~= seq![text@[i as int]]);
            }
            units += char_units(t[i]);
            i += 1;
        }
        assert(text@.take(text@.len() as int) =~= text@);
        units
    }

    /// The length of `text[..byte]` in UTF-16 code units.
    pub fn utf16_of_byte(text: &str, byte: usize) -> (units: u64)
        requires
            on_boundary(text@, byte as int),
        ensures
            units == unit_at(text@, char_of_byte(text@, byte as int)),
            units <= usize::MAX,
    {
        let (head, _) = cut(text, byte);
        Self::utf16_len(head)
    }

    /// The byte offset for a UTF-16 offset; `None` when it is out of range or
    /// falls inside a surrogate pair.
    pub fn byte_of_utf16(text: &str, units: u64) -> (byte: Option<usize>)
        ensures
            match byte {
                Some(b) => byte_of_unit(text@, units as int) == Some(b as nat),
                None => byte_of_unit(text@, units as int) is None,
            },
    {
        let t = chars_of(text);
        let total: usize = byte_len(text);
        let mut seen: u64 = 0;
        let mut byte: usize = 0;
        let mut i: usize = 0;
        proof {
            lemma_offset_bounds(text@, 0);
            lemma_utf16_within_utf8(text@);
        }
        while i < t.len()
            invariant
                i <= t@.len(),
                t@ == text@,
                total == utf8_size(text@),
                seen == unit_at(text@, i as int),
                byte == byte_at(text@, i as int),
                seen <= byte,
                forall|k: int| 0 <= k < i ==> #[trigger] unit_at(text@, k) < units,
            decreases t@.len() - i,
        {
            if seen == units {
                proof {
                    lemma_char_of_unit(text@, i as int);
                }
                return Some(byte);
            }
            if seen > units {
                proof {
                    lemma_no_such_unit(text@, units as int, i as int);
                }
                return None;
            }
            proof {
                lemma_offsets_grow(text@, i as int, i + 1);
                lemma_offset_bounds(text@, i + 1);
                lemma_single_sizes(text@[i as int]);
                assert(text@.subrange(i as int, i + 1) =~= seq![text@[i as int]]);
            }
            seen += char_units(t[i]);
            byte += char_bytes(t[i]);
            i += 1;
        }
        if seen == units {
            proof {
                lemma_char_of_unit(text@, i as int);
            }
            Some(byte)
        } else {
            proof {
                if seen > units {
                    lemma_no_such_unit(text@, units as int, i as int);
                } else if on_unit(text@, units as int) {
                    lemma_offset_bounds(text@, char_of_unit(text@, units as int));
                    lemma_offset_bounds(text@, i as int);
                }
            }
            None
        }
    }

    /// Builds the operation that replaces the given byte ranges of `content`
    /// (ascending, non-overlapping) with the paired texts. The components are
    /// applied one after another, each on the result of those before it, so
    /// every position is moved by the change of length so far.
    pub fn replace_script(content: &str, edits: &[(usize, usize, String)]) -> (ops: Vec<
        OtComponent,
    >)
        requires
            valid_edits(content@, edit_views(edits@)),
        ensures
            component_views(ops@) == script(content@, edit_views(edits@)),
    {
        let ghost views = edit_views(edits@);
        let mut ops: Vec<OtComponent> = Vec::new();
        let mut inserted: u128 = 0;
        let mut deleted: u128 = 0;
        let mut n: usize = 0;
        assert(views.take(0) =~= Seq::<EditView>::empty());
        assert(component_views(ops@) =~= Seq::<ComponentView>::empty());
        while n < edits.len()
            invariant
                n <= edits@.len(),
                views == edit_views(edits@),
                valid_edits(content@, views),
                component_views(ops@) == script(content@, views.take(n as int)),
                inserted - deleted == shift(content@, views.take(n as int)),
                inserted <= n * 0xffff_ffff_ffff_ffff,
                deleted <= n * 0xffff_ffff_ffff_ffff,
            decreases edits@.len() - n,
        {
            let ghost e = views[n as int];
            let ghost init = views.take(n as int);
            proof {
                lemma_take_valid(content@, views, n as int);
                lemma_take_valid(content@, views, n + 1);
                assert(views.take(n + 1).drop_last() =~= init);
                assert(views.take(n + 1).last() == e);
                lemma_place(content@, init, e);
            }
            let start = edits[n].0;
            let end = edits[n].1;
            let replacement = edits[n].2.as_str();
            let old = slice(content, start, end);
            let base = Self::utf16_of_byte(content, start);
            let moved: u128 = base as u128 + inserted - deleted;
            let p: u64 = if moved > u64::MAX as u128 {
                u64::MAX
            } else {
                moved as u64
            };
            let ghost before = component_views(ops@);
            if !old.is_empty() {
                ops.push(OtComponent::delete(p, old.to_owned()));
                assert(component_views(ops@) =~= before.push(deletion(p as int, old@)));
            }
            let ghost between = component_views(ops@);
            if !replacement.is_empty() {
                ops.push(OtComponent::insert(p, replacement.to_owned()));
                assert(component_views(ops@) =~= between.push(insertion(p as int, replacement@)));
            }
            assert(component_views(ops@) =~= before + replacement_ops(p as int, old@, replacement@));
            inserted = inserted + Self::utf16_len(replacement) as u128;
            deleted = deleted + Self::utf16_len(old) as u128;
            n += 1;
        }
        assert(views.take(edits@.len() as int) =~= views);
        ops
    }
}

proof fn lemma_no_such_unit(text: Seq<char>, units: int, i: int)
    requires
        0 <= i <= text.len(),
        unit_at(text, i) > units,
        forall|k: int| 0 <= k < i ==> #[trigger] unit_at(text, k) < units,
    ensures
        !on_unit(text, units),
{
    if on_unit(text, units) {
        let k = char_of_unit(text, units);
        if i < k {
            lemma_offsets_grow(text, i, k);
        }
    }
}

/// The components of an operation, each as its position and texts.
pub open spec fn component_views(ops: Seq<OtComponent>) -> Seq<ComponentView> {
    Seq::new(ops.len(), |i: int| ops[i]@)
}

// --- replacing ranges ----------------------------------------------------

/// A range of bytes and the text to put in its place.
pub struct EditView {
    pub start: int,
    pub end: int,
    pub text: Seq<char>,
}

/// A list of replacements as offsets and texts.
pub open spec fn edit_views(edits: Seq<(usize, usize, String)>) -> Seq<EditView> {
    Seq::new(
        edits.len(),
        |i: int| EditView { start: edits[i].0 as int, end: edits[i].1 as int, text: edits[i].2@ },
    )
}

/// Whether the ranges lie within `content`, on character boundaries, in
/// ascending order and without overlap.
pub open spec fn valid_edits(content: Seq<char>, edits: Seq<EditView>) -> bool {
    &&& forall|i: int|
        0 <= i < edits.len() ==> {
            &&& (#[trigger] edits[i]).start <= edits[i].end
            &&& on_boundary(content, edits[i].start)
            &&& on_boundary(content, edits[i].end)
        }
    &&& forall|i: int, j: int|
        0 <= i < j < edits.len() ==> (#[trigger] edits[i]).end <= (#[trigger] edits[j]).start
}

/// The index of the first character of a range.
pub open spec fn first_char(content: Seq<char>, e: EditView) -> int {
    char_of_byte(content, e.start)
}

/// The index of the first character after a range.
pub open spec fn end_char(content: Seq<char>, e: EditView) -> int {
    char_of_byte(content, e.end)
}

/// The text in a range.
pub open spec fn old_text(content: Seq<char>, e: EditView) -> Seq<char> {
    content.subrange(first_char(content, e), end_char(content, e))
}

/// The change of length, in code units, that the replacements make.
pub open spec fn shift(content: Seq<char>, edits: Seq<EditView>) -> int
    decreases edits.len(),
{
    if edits.len() == 0 {
        0
    } else {
        shift(content, edits.drop_last()) + utf16_size(edits.last().text) - utf16_size(
            old_text(content, edits.last()),
        )
    }
}

/// Where a range starts once the replacements `before` it are made.
pub open spec fn place(content: Seq<char>, before: Seq<EditView>, e: EditView) -> int {
    unit_at(content, first_char(content, e)) + shift(content, before)
}

/// A place as the 64-bit position of a component.
pub open spec fn position(place: int) -> int {
    if place > u64::MAX {
        u64::MAX as int
    } else {
        place
    }
}

/// Where range `n` starts once those before it are replaced.
pub open spec fn script_place(content: Seq<char>, edits: Seq<EditView>, n: int) -> int {
    place(content, edits.take(n), edits[n])
}

/// Whether every position of the operation fits in 64 bits.
pub open spec fn positions_fit(content: Seq<char>, edits: Seq<EditView>) -> bool {
    forall|n: int| 0 <= n < edits.len() ==> #[trigger] script_place(content, edits, n) <= u64::MAX
}

/// The components that put `new` in the place of `old` at `p`.
pub open spec fn replacement_ops(p: int, old: Seq<char>, new: Seq<char>) -> Seq<ComponentView> {
    (if old.len() > 0 {
        seq![deletion(p, old)]
    } else {
        Seq::empty()
    }) + (if new.len() > 0 {
        seq![insertion(p, new)]
    } else {
        Seq::empty()
    })
}

/// The operation that makes the replacements one after another.
pub open spec fn script(content: Seq<char>, edits: Seq<EditView>) -> Seq<ComponentView>
    decreases edits.len(),
{
    if edits.len() == 0 {
        Seq::empty()
    } else {
        let before = edits.drop_last();
        let e = edits.last();
        script(content, before) + replacement_ops(
            position(place(content, before, e)),
            old_text(content, e),
            e.text,
        )
    }
}

/// The index of the first character that the replacements leave untouched for
/// good.
pub open spec fn reach(content: Seq<char>, edits: Seq<EditView>) -> int {
    if edits.len() == 0 {
        0
    } else {
        end_char(content, edits.last())
    }
}

/// The new text up to the end of the last replacement.
pub open spec fn done_text(content: Seq<char>, edits: Seq<EditView>) -> Seq<char>
    decreases edits.len(),
{
    if edits.len() == 0 {
        Seq::empty()
    } else {
        done_text(content, edits.drop_last()) + content.subrange(
            reach(content, edits.drop_last()),
            first_char(content, edits.last()),
        ) + edits.last().text
    }
}

/// `content` with every range replaced by its text.
pub open spec fn spliced(content: Seq<char>, edits: Seq<EditView>) -> Seq<char> {
    done_text(content, edits) + content.skip(reach(content, edits))
}

/// Splicing in bytes: one replacement keeps the bytes before its range and those
/// behind it. Of several, each is the same as if those before it were not there
/// yet, because the ranges come in order.
pub proof fn ranges_are_replaced_in_the_bytes(content: Seq<char>, edits: Seq<EditView>)
    requires
        valid_edits(content, edits),
        edits.len() > 0,
    ensures
        spliced(content, Seq::empty()) == content,
        encode_utf8(spliced(content, seq![edits.last()])) == encode_utf8(content).take(
            edits.last().start,
        ) + encode_utf8(edits.last().text) + encode_utf8(content).skip(edits.last().end),
        valid_edits(spliced(content, seq![edits.last()]), edits.drop_last()),
        spliced(content, edits) == spliced(
            spliced(content, seq![edits.last()]),
            edits.drop_last(),
        ),
{
    let e = edits.last();
    let before = edits.drop_last();
    let one = seq![e];
    lemma_last_edit(content, edits);
    let f = first_char(content, e);
    let t = end_char(content, e);
    assert(one.drop_last() =~= Seq::<EditView>::empty());
    assert(done_text(content, one.drop_last()) =~= Seq::<char>::empty());
    assert(spliced(content, Seq::empty()) =~= content);
    let after = spliced(content, one);
    assert(after =~= content.take(f) + e.text + content.skip(t));
    lemma_utf8_concat(content.take(f) + e.text, content.skip(t));
    lemma_utf8_concat(content.take(f), e.text);
    assert(content.take(f) + content.skip(f) =~= content);
    assert(content.take(t) + content.skip(t) =~= content);
    lemma_utf8_concat(content.take(f), content.skip(f));
    lemma_utf8_concat(content.take(t), content.skip(t));
    assert(encode_utf8(content).take(e.start) =~= encode_utf8(content.take(f)));
    assert(encode_utf8(content).skip(e.end) =~= encode_utf8(content.skip(t)));
    assert(after.take(f) =~= content.take(f));
    lemma_shared_start(content, after, before, f);
    let r = reach(content, before);
    assert(spliced(content, edits) =~= done_text(content, before) + content.subrange(r, f) + e.text
        + content.skip(t));
    assert(after.skip(r) =~= content.subrange(r, f) + e.text + content.skip(t));
    assert(spliced(after, before) =~= spliced(content, edits));
}

proof fn lemma_shared_start(a: Seq<char>, b: Seq<char>, edits: Seq<EditView>, k: int)
    requires
        valid_edits(a, edits),
        0 <= k <= a.len(),
        k <= b.len(),
        a.take(k) == b.take(k),
        0 <= reach(a, edits) <= k,
    ensures
        valid_edits(b, edits),
        done_text(b, edits) == done_text(a, edits),
        reach(b, edits) == reach(a, edits),
    decreases edits.len(),
{
    if edits.len() > 0 {
        let before = edits.drop_last();
        let e = edits.last();
        lemma_last_edit(a, edits);
        lemma_shared_start(a, b, before, k);
        let f = first_char(a, e);
        let t = end_char(a, e);
        assert(a.take(f) =~= a.take(k).take(f));
        assert(b.take(f) =~= b.take(k).take(f));
        assert(a.take(t) =~= a.take(k).take(t));
        assert(b.take(t) =~= b.take(k).take(t));
        assert(byte_at(b, f) == e.start);
        assert(byte_at(b, t) == e.end);
        lemma_char_of_byte(b, f);
        lemma_char_of_byte(b, t);
        let r = reach(a, before);
        assert(a.subrange(r, f) =~= a.take(k).subrange(r, f));
        assert(b.subrange(r, f) =~= b.take(k).subrange(r, f));
        assert forall|i: int| 0 <= i < edits.len() implies {
            &&& (#[trigger] edits[i]).start <= edits[i].end
            &&& on_boundary(b, edits[i].start)
            &&& on_boundary(b, edits[i].end)
        } by {
            if i < before.len() {
                assert(edits[i] == before[i]);
            }
        }
    }
}

proof fn lemma_take_valid(content: Seq<char>, edits: Seq<EditView>, n: int)
    requires
        valid_edits(content, edits),
        0 <= n <= edits.len(),
    ensures
        valid_edits(content, edits.take(n)),
{
    assert forall|i: int| 0 <= i < n implies edits.take(n)[i] == edits[i] by {}
}

proof fn lemma_ordered_chars(content: Seq<char>, a: int, b: int)
    requires
        on_boundary(content, a),
        on_boundary(content, b),
        a <= b,
    ensures
        0 <= char_of_byte(content, a) <= char_of_byte(content, b) <= content.len(),
{
    let i = char_of_byte(content, a);
    let j = char_of_byte(content, b);
    if j < i {
        lemma_offsets_grow(content, j, i);
    }
}

/// The indices of a valid list of ranges are in order.
pub(crate) proof fn lemma_last_edit(content: Seq<char>, edits: Seq<EditView>)
    requires
        valid_edits(content, edits),
        edits.len() > 0,
    ensures
        valid_edits(content, edits.drop_last()),
        0 <= reach(content, edits.drop_last()) <= first_char(content, edits.last()) <= end_char(
            content,
            edits.last(),
        ) <= content.len(),
{
    let e = edits.last();
    let before = edits.drop_last();
    assert(edits[edits.len() - 1] == e);
    lemma_ordered_chars(content, e.start, e.end);
    assert forall|i: int| 0 <= i < before.len() implies before[i] == edits[i] by {}
    if before.len() > 0 {
        assert(before.last() == edits[edits.len() - 2]);
        lemma_ordered_chars(content, before.last().end, e.start);
    }
}

/// A range starts, after the replacements before it, right behind the new text
/// of those and the untouched text in between.
pub(crate) proof fn lemma_place(content: Seq<char>, before: Seq<EditView>, e: EditView)
    requires
        valid_edits(content, before.push(e)),
    ensures
        place(content, before, e) == utf16_size(
            done_text(content, before) + content.subrange(
                reach(content, before),
                first_char(content, e),
            ),
        ),
        place(content, before, e) >= 0,
{
    let edits = before.push(e);
    assert(edits.drop_last() =~= before);
    lemma_last_edit(content, edits);
    lemma_shift(content, before);
    let r = reach(content, before);
    let f = first_char(content, e);
    lemma_offsets_grow(content, r, f);
    lemma_utf16_concat(done_text(content, before), content.subrange(r, f));
}

proof fn lemma_shift(content: Seq<char>, edits: Seq<EditView>)
    requires
        valid_edits(content, edits),
    ensures
        0 <= reach(content, edits) <= content.len(),
        unit_at(content, reach(content, edits)) + shift(content, edits) == utf16_size(
            done_text(content, edits),
        ),
    decreases edits.len(),
{
    if edits.len() == 0 {
        lemma_offset_bounds(content, 0);
    } else {
        let before = edits.drop_last();
        let e = edits.last();
        lemma_last_edit(content, edits);
        lemma_shift(content, before);
        let r = reach(content, before);
        let f = first_char(content, e);
        let t = end_char(content, e);
        lemma_offsets_grow(content, r, f);
        lemma_offsets_grow(content, f, t);
        let gap = content.subrange(r, f);
        lemma_utf16_concat(done_text(content, before), gap);
        lemma_utf16_concat(done_text(content, before) + gap, e.text);
    }
}

impl Clone for OtComponent {
    fn clone(&self) -> (copy: Self)
        ensures
            copy@ == self@,
    {
        OtComponent {
            p: self.p,
            i: clone_opt(&self.i),
            d: clone_opt(&self.d),
            c: clone_opt(&self.c),
            t: clone_opt(&self.t),
        }
    }
}

/// The insertion of `text` at `p`.
pub open spec fn insertion(p: int, text: Seq<char>) -> ComponentView {
    ComponentView { p, i: Some(text), d: None, c: None, t: None }
}

/// The deletion of `text` at `p`.
pub open spec fn deletion(p: int, text: Seq<char>) -> ComponentView {
    ComponentView { p, i: None, d: Some(text), c: None, t: None }
}

// --- updates -------------------------------------------------------------

/// An operation on a document at version `v`, as it is sent to the server.
#[derive(Debug)]
pub struct OtUpdate {
    pub doc: String,
    pub op: Vec<OtComponent>,
    pub v: i64,
}

/// An operation for the server, as plain values.
pub struct UpdateView {
    pub doc: Seq<char>,
    pub op: Seq<ComponentView>,
    pub v: int,
}

impl View for OtUpdate {
    type V = UpdateView;

    open spec fn view(&self) -> UpdateView {
        UpdateView { doc: self.doc@, op: component_views(self.op@), v: self.v as int }
    }
}

/// Who made an update.
#[derive(Debug)]
pub struct UpdateMeta {
    pub source: Option<String>,
    pub user_id: Option<String>,
}

/// An update that the server applied. One's own operation comes back as a
/// short confirmation without `op`; that of another client comes in full.
#[derive(Debug)]
pub struct AppliedOtUpdate {
    pub doc: String,
    pub v: i64,
    pub op: Option<Vec<OtComponent>>,
    pub meta: Option<UpdateMeta>,
}

/// What an applied update says of its document.
pub struct AppliedView {
    pub doc: Seq<char>,
    pub v: int,
    pub op: Option<Seq<ComponentView>>,
}

impl View for AppliedOtUpdate {
    type V = AppliedView;

    open spec fn view(&self) -> AppliedView {
        AppliedView {
            doc: self.doc@,
            v: self.v as int,
            op: match self.op {
                Some(ops) => Some(component_views(ops@)),
                None => None,
            },
        }
    }
}

/// A copy of a list of components.
pub fn clone_ops(ops: &Vec<OtComponent>) -> (copy: Vec<OtComponent>)
    ensures
        component_views(copy@) == component_views(ops@),
{
    let mut copy: Vec<OtComponent> = Vec::new();
    let mut i: usize = 0;
    while i < ops.len()
        invariant
            i <= ops@.len(),
            copy@.len() == i,
            forall|j: int| 0 <= j < i ==> (#[trigger] copy@[j])@ == ops@[j]@,
        decreases ops@.len() - i,
    {
        copy.push(ops[i].clone());
        i += 1;
    }
    assert(component_views(copy@) =~= component_views(ops@));
    copy
}

/// A replacement first takes out what is to go and then puts in what is to come,
/// both at the same place. Nothing is sent for a part that is empty.
pub proof fn replacement_deletes_before_it_inserts(p: int, old: Seq<char>, new: Seq<char>)
    ensures
        replacement_ops(p, old, new).len() == (if old.len() > 0 {
            1int
        } else {
            0
        }) + (if new.len() > 0 {
            1int
        } else {
            0
        }),
        old.len() > 0 ==> {
            let first = replacement_ops(p, old, new)[0];
            first.p == p && first.d == Some(old) && first.i is None
        },
        new.len() > 0 ==> {
            let last = replacement_ops(p, old, new).last();
            last.p == p && last.i == Some(new) && last.d is None
        },
{
}

} // verus!
