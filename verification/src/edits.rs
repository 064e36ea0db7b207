//! From a wanted change of a document to the operation that makes it.
use vstd::prelude::*;
use vstd::utf8::encode_utf8;

use crate::error::{ErrorView, OverleafError, Result};
use crate::number::{decimal, push_decimal};
use crate::ot::{
    component_views, deletion, done_text, edit_views, insertion, old_text, reach, replacement_ops,
    script, script_place, shift, spliced, valid_edits, ComponentView, EditView, OtComponent,
};
use crate::pieces::{joined, joined_from_the_front};
use crate::shadow::{replayed, script_makes_the_replacements, Replay};
use crate::text::{
    chars_of, has_text, occurs_at, pattern_stands_between_the_rest, same_chars, stands_at, string_of,
};
use crate::units::{
    byte_at, byte_offset, encode_utf16, lemma_char_of_byte, lemma_offset_bounds,
    lemma_offsets_grow, offsets_count_utf16_code_units, on_boundary, utf16_size,
};

verus! {

// --- what two sequences share --------------------------------------------

/// The length of the longest common prefix.
pub open spec fn common_prefix<T>(a: Seq<T>, b: Seq<T>) -> nat
    decreases a.len(),
{
    if a.len() > 0 && b.len() > 0 && a.first() == b.first() {
        common_prefix(a.drop_first(), b.drop_first()) + 1
    } else {
        0
    }
}

/// The length of the longest common suffix.
pub open spec fn common_suffix<T>(a: Seq<T>, b: Seq<T>) -> nat
    decreases a.len(),
{
    if a.len() > 0 && b.len() > 0 && a.last() == b.last() {
        common_suffix(a.drop_last(), b.drop_last()) + 1
    } else {
        0
    }
}

/// The common prefix is common, and nothing longer is.
pub proof fn common_prefix_is_longest<T>(a: Seq<T>, b: Seq<T>)
    ensures
        common_prefix(a, b) <= a.len(),
        common_prefix(a, b) <= b.len(),
        a.take(common_prefix(a, b) as int) == b.take(common_prefix(a, b) as int),
        common_prefix(a, b) < a.len() && common_prefix(a, b) < b.len() ==> a[common_prefix(
            a,
            b,
        ) as int] != b[common_prefix(a, b) as int],
    decreases a.len(),
{
    if a.len() > 0 && b.len() > 0 && a.first() == b.first() {
        common_prefix_is_longest(a.drop_first(), b.drop_first());
        let k = common_prefix(a, b) as int;
        assert forall|i: int| 0 <= i < k implies a.take(k)[i] == b.take(k)[i] by {
            if i > 0 {
                assert(a.drop_first().take(k - 1)[i - 1] == b.drop_first().take(k - 1)[i - 1]);
            }
        }
        assert(a.take(k) =~= b.take(k));
    } else {
        assert(a.take(0) =~= b.take(0));
    }
}

/// The common suffix is common, and nothing longer is.
pub proof fn common_suffix_is_longest<T>(a: Seq<T>, b: Seq<T>)
    ensures
        common_suffix(a, b) <= a.len(),
        common_suffix(a, b) <= b.len(),
        a.skip(a.len() - common_suffix(a, b)) == b.skip(b.len() - common_suffix(a, b)),
        common_suffix(a, b) < a.len() && common_suffix(a, b) < b.len() ==> a[a.len() - 1
            - common_suffix(a, b)] != b[b.len() - 1 - common_suffix(a, b)],
    decreases a.len(),
{
    if a.len() > 0 && b.len() > 0 && a.last() == b.last() {
        common_suffix_is_longest(a.drop_last(), b.drop_last());
        let k = common_suffix(a, b) as int;
        let x = a.drop_last().skip(a.len() - k);
        let y = b.drop_last().skip(b.len() - k);
        assert(x == y);
        assert(a.skip(a.len() - k) =~= x.push(a.last()));
        assert(b.skip(b.len() - k) =~= y.push(b.last()));
    } else {
        assert(a.skip(a.len() as int) =~= b.skip(b.len() as int));
    }
}

/// The length of the longest common prefix of two character slices.
fn shared_head(a: &[char], b: &[char]) -> (k: usize)
    ensures
        k == common_prefix(a@, b@),
{
    let mut k: usize = 0;
    assert(a@.skip(0) =~= a@);
    assert(b@.skip(0) =~= b@);
    while k < a.len() && k < b.len() && a[k] == b[k]
        invariant
            k <= a@.len(),
            k <= b@.len(),
            common_prefix(a@, b@) == k + common_prefix(a@.skip(k as int), b@.skip(k as int)),
        decreases a@.len() - k,
    {
        assert(a@.skip(k as int).drop_first() =~= a@.skip(k + 1));
        assert(b@.skip(k as int).drop_first() =~= b@.skip(k + 1));
        k += 1;
    }
    k
}

/// The length of the longest common suffix of `a[from..]` and `b[from..]`.
fn shared_tail(a: &[char], b: &[char], from: usize) -> (m: usize)
    requires
        from <= a@.len(),
        from <= b@.len(),
    ensures
        m == common_suffix(a@.skip(from as int), b@.skip(from as int)),
        m <= a@.len() - from,
        m <= b@.len() - from,
{
    let ghost x = a@.skip(from as int);
    let ghost y = b@.skip(from as int);
    let n: usize = a.len() - from;
    let l: usize = b.len() - from;
    let mut m: usize = 0;
    assert(x.take(x.len() as int) =~= x);
    assert(y.take(y.len() as int) =~= y);
    while m < n && m < l && a[a.len() - 1 - m] == b[b.len() - 1 - m]
        invariant
            m <= n,
            m <= l,
            from + n == a@.len(),
            from + l == b@.len(),
            x == a@.skip(from as int),
            y == b@.skip(from as int),
            common_suffix(x, y) == m + common_suffix(x.take(n - m), y.take(l - m)),
        decreases n - m,
    {
        assert(x.take(n - m).last() == a@[a@.len() - 1 - m]);
        assert(y.take(l - m).last() == b@[b@.len() - 1 - m]);
        assert(x.take(n - m).drop_last() =~= x.take(n - m - 1));
        assert(y.take(l - m).drop_last() =~= y.take(l - m - 1));
        m += 1;
    }
    assert(m < n && m < l ==> x.take(n - m).last() == a@[a@.len() - 1 - m]);
    assert(m < n && m < l ==> y.take(l - m).last() == b@[b@.len() - 1 - m]);
    m
}

// --- overwriting ---------------------------------------------------------

/// The replacement that turns `current` into `target`: none when they are the
/// same, otherwise the stretch between their longest common prefix and the
/// longest common suffix of what follows it.
pub open spec fn overwrite(current: Seq<char>, target: Seq<char>) -> Seq<EditView> {
    if current == target {
        Seq::empty()
    } else {
        let head = common_prefix(current, target) as int;
        let tail = common_suffix(current.skip(head), target.skip(head)) as int;
        seq![
            EditView {
                start: byte_at(current, head) as int,
                end: byte_at(current, current.len() - tail) as int,
                text: target.subrange(head, target.len() - tail),
            },
        ]
    }
}

/// The replacement of an overwrite is in order and turns `current` into
/// `target`.
pub proof fn overwrite_gives_the_target(current: Seq<char>, target: Seq<char>)
    ensures
        valid_edits(current, overwrite(current, target)),
        spliced(current, overwrite(current, target)) == target,
{
    let edits = overwrite(current, target);
    if current == target {
        assert(spliced(current, edits) =~= target);
    } else {
        let head = common_prefix(current, target) as int;
        common_prefix_is_longest(current, target);
        let x = current.skip(head);
        let y = target.skip(head);
        let tail = common_suffix(x, y) as int;
        common_suffix_is_longest(x, y);
        let to = current.len() - tail;
        lemma_char_of_byte(current, head);
        lemma_char_of_byte(current, to);
        lemma_offsets_grow(current, head, to);
        assert(edits.drop_last() =~= Seq::<EditView>::empty());
        assert(done_text(current, edits.drop_last()) =~= Seq::<char>::empty());
        assert(done_text(current, edits) =~= current.take(head) + target.subrange(
            head,
            target.len() - tail,
        ));
        assert(current.skip(to) =~= x.skip(x.len() - tail));
        assert(target.skip(target.len() - tail) =~= y.skip(y.len() - tail));
        assert(current.take(head) == target.take(head));
        assert(spliced(current, edits) =~= target.take(head) + target.subrange(
            head,
            target.len() - tail,
        ) + target.skip(target.len() - tail));
        assert(spliced(current, edits) =~= target);
    }
}

/// The replacement that turns `current` into `target`, as byte offsets.
pub fn full_replace_edits(current: &str, target: &str) -> (edits: Vec<(usize, usize, String)>)
    ensures
        edit_views(edits@) == overwrite(current@, target@),
{
    let a = chars_of(current);
    let b = chars_of(target);
    if same_chars(a.as_slice(), b.as_slice()) {
        let edits: Vec<(usize, usize, String)> = Vec::new();
        assert(edit_views(edits@) =~= Seq::<EditView>::empty());
        return edits;
    }
    let head = shared_head(a.as_slice(), b.as_slice());
    proof {
        common_prefix_is_longest(current@, target@);
    }
    let tail = shared_tail(a.as_slice(), b.as_slice(), head);
    let start = byte_offset(current, a.as_slice(), head);
    let end = byte_offset(current, a.as_slice(), a.len() - tail);
    let text = string_of(b.as_slice(), head, b.len() - tail);
    let mut edits: Vec<(usize, usize, String)> = Vec::new();
    edits.push((start, end, text));
    assert(edit_views(edits@) =~= overwrite(current@, target@));
    edits
}

/// The operation that turns `current` into `target`.
pub open spec fn overwrite_ops(current: Seq<char>, target: Seq<char>) -> Seq<ComponentView> {
    script(current, overwrite(current, target))
}

/// The operation that turns `current` into `target`.
pub fn plan_overwrite(current: &str, target: &str) -> (ops: Vec<OtComponent>)
    ensures
        component_views(ops@) == overwrite_ops(current@, target@),
{
    let edits = full_replace_edits(current, target);
    proof {
        overwrite_gives_the_target(current@, target@);
    }
    OtComponent::replace_script(current, edits.as_slice())
}

/// Replaying the operation of an overwrite gives the target, and the operation
/// is empty exactly when there is nothing to change.
pub proof fn overwrite_ops_give_the_target(current: Seq<char>, target: Seq<char>)
    requires
        utf16_size(current) <= u64::MAX,
    ensures
        replayed(current, overwrite_ops(current, target)) == (Replay {
            content: target,
            complete: true,
        }),
        overwrite_ops(current, target).len() == 0 <==> current == target,
{
    let edits = overwrite(current, target);
    overwrite_gives_the_target(current, target);
    assert forall|n: int| 0 <= n < edits.len() implies #[trigger] script_place(current, edits, n)
        <= u64::MAX by {
        assert(edits.take(0) =~= Seq::<EditView>::empty());
        common_prefix_is_longest(current, target);
        let head = common_prefix(current, target) as int;
        lemma_char_of_byte(current, head);
        lemma_offset_bounds(current, head);
    }
    script_makes_the_replacements(current, edits);
}

// --- replacing a string --------------------------------------------------

/// The positions of the occurrences of `pattern` from `from` on, each search
/// going on behind the occurrence before it.
pub open spec fn match_starts(text: Seq<char>, pattern: Seq<char>, from: int) -> Seq<int>
    decreases text.len() - from,
{
    if pattern.len() == 0 || from + pattern.len() > text.len() {
        Seq::empty()
    } else if occurs_at(text, pattern, from) {
        seq![from] + match_starts(text, pattern, from + pattern.len())
    } else {
        match_starts(text, pattern, from + 1)
    }
}

/// `text` from `from` on with every occurrence of `pattern` replaced.
pub open spec fn with_replaced(
    text: Seq<char>,
    pattern: Seq<char>,
    new: Seq<char>,
    from: int,
) -> Seq<char>
    decreases text.len() - from,
{
    if pattern.len() == 0 || from + pattern.len() > text.len() {
        text.skip(from)
    } else if occurs_at(text, pattern, from) {
        new + with_replaced(text, pattern, new, from + pattern.len())
    } else {
        seq![text[from]] + with_replaced(text, pattern, new, from + 1)
    }
}

/// The replacements of the occurrences at `starts`.
pub open spec fn match_edits(
    text: Seq<char>,
    pattern: Seq<char>,
    new: Seq<char>,
    starts: Seq<int>,
) -> Seq<EditView> {
    Seq::new(
        starts.len(),
        |i: int|
            EditView {
                start: byte_at(text, starts[i]) as int,
                end: byte_at(text, starts[i] + pattern.len()) as int,
                text: new,
            },
    )
}

/// Whether `starts` are places of `pattern` in ascending order, without
/// overlap, none before `from`.
pub open spec fn apart(text: Seq<char>, pattern: Seq<char>, starts: Seq<int>, from: int) -> bool {
    &&& forall|i: int|
        0 <= i < starts.len() ==> from <= #[trigger] starts[i] && occurs_at(text, pattern, starts[i])
    &&& forall|i: int, j: int|
        0 <= i < j < starts.len() ==> #[trigger] starts[i] + pattern.len() <= #[trigger] starts[j]
}

/// The occurrences that a search finds do not overlap.
pub proof fn matches_are_apart(text: Seq<char>, pattern: Seq<char>, from: int)
    requires
        0 <= from,
    ensures
        apart(text, pattern, match_starts(text, pattern, from), from),
    decreases text.len() - from,
{
    if pattern.len() == 0 || from + pattern.len() > text.len() {
    } else if occurs_at(text, pattern, from) {
        let next = from + pattern.len();
        matches_are_apart(text, pattern, next);
        let rest = match_starts(text, pattern, next);
        let all = match_starts(text, pattern, from);
        assert forall|i: int| 0 <= i < all.len() implies from <= #[trigger] all[i] && occurs_at(
            text,
            pattern,
            all[i],
        ) by {
            if i > 0 {
                assert(all[i] == rest[i - 1]);
            }
        }
        assert forall|i: int, j: int| 0 <= i < j < all.len() implies #[trigger] all[i]
            + pattern.len() <= #[trigger] all[j] by {
            assert(all[j] == rest[j - 1]);
            if i > 0 {
                assert(all[i] == rest[i - 1]);
            }
        }
    } else {
        matches_are_apart(text, pattern, from + 1);
    }
}

/// The text has an occurrence at all exactly when the search finds one.
pub proof fn search_misses_nothing(text: Seq<char>, pattern: Seq<char>, from: int, at: int)
    requires
        0 <= from <= at,
        pattern.len() > 0,
        occurs_at(text, pattern, at),
    ensures
        match_starts(text, pattern, from).len() > 0,
        match_starts(text, pattern, from)[0] <= at,
    decreases at - from,
{
    if !occurs_at(text, pattern, from) {
        search_misses_nothing(text, pattern, from + 1, at);
    }
}

proof fn lemma_match_edits_valid(
    text: Seq<char>,
    pattern: Seq<char>,
    new: Seq<char>,
    starts: Seq<int>,
)
    requires
        apart(text, pattern, starts, 0),
    ensures
        valid_edits(text, match_edits(text, pattern, new, starts)),
{
    let edits = match_edits(text, pattern, new, starts);
    assert forall|i: int| 0 <= i < edits.len() implies (#[trigger] edits[i]).start <= edits[i].end
        && on_boundary(text, edits[i].start) && on_boundary(text, edits[i].end) by {
        let k = starts[i];
        lemma_char_of_byte(text, k);
        lemma_char_of_byte(text, k + pattern.len());
        lemma_offsets_grow(text, k, k + pattern.len());
    }
    assert forall|i: int, j: int| 0 <= i < j < edits.len() implies (#[trigger] edits[i]).end <= (
    #[trigger] edits[j]).start by {
        assert(starts[i] + pattern.len() <= starts[j]);
        lemma_offsets_grow(text, starts[i] + pattern.len(), starts[j]);
    }
}

/// Splicing the replacements of `starts[..n]`, then going on from where they
/// reach, is replacing as one goes.
#[verifier::spinoff_prover]
proof fn lemma_splice_matches(
    text: Seq<char>,
    pattern: Seq<char>,
    new: Seq<char>,
    done: Seq<int>,
    from: int,
)
    requires
        pattern.len() > 0,
        0 <= from <= text.len(),
        apart(text, pattern, done, 0),
        done.len() > 0 ==> done.last() + pattern.len() <= from,
    ensures
        spliced(text, match_edits(text, pattern, new, done + match_starts(text, pattern, from)))
            == done_text(text, match_edits(text, pattern, new, done)) + text.subrange(
            reach(text, match_edits(text, pattern, new, done)),
            from,
        ) + with_replaced(text, pattern, new, from),
        0 <= reach(text, match_edits(text, pattern, new, done)) <= from,
    decreases text.len() - from,
{
    let edits = match_edits(text, pattern, new, done);
    if done.len() > 0 {
        lemma_char_of_byte(text, done.last() + pattern.len());
    }
    let r = reach(text, edits);
    if from + pattern.len() > text.len() {
        assert(done + match_starts(text, pattern, from) =~= done);
        assert(text.skip(r) =~= text.subrange(r, from) + text.skip(from));
        assert(spliced(text, edits) =~= done_text(text, edits) + text.subrange(r, from)
            + text.skip(from));
    } else if occurs_at(text, pattern, from) {
        let more = done.push(from);
        let next = from + pattern.len();
        assert(apart(text, pattern, more, 0));
        lemma_splice_matches(text, pattern, new, more, next);
        assert(done + match_starts(text, pattern, from) =~= more + match_starts(
            text,
            pattern,
            next,
        ));
        let wider = match_edits(text, pattern, new, more);
        assert(wider.drop_last() =~= edits);
        lemma_char_of_byte(text, from);
        lemma_char_of_byte(text, next);
        let tail = with_replaced(text, pattern, new, next);
        let head = done_text(text, edits) + text.subrange(r, from);
        assert(reach(text, wider) == next);
        assert(done_text(text, wider) =~= head + new);
        assert(head + new + text.subrange(next, next) =~= head + new);
        assert(head + new + tail =~= head + (new + tail));
    } else {
        lemma_splice_matches(text, pattern, new, done, from + 1);
        let tail = with_replaced(text, pattern, new, from + 1);
        let head = done_text(text, edits);
        let gap = text.subrange(r, from);
        let one = seq![text[from]];
        assert(text.subrange(r, from + 1) =~= gap + one);
        assert(head + (gap + one) + tail =~= head + gap + (one + tail));
    }
}

/// The replacements of all occurrences of a string are in order, and they make
/// the text with every occurrence replaced.
pub proof fn match_edits_replace_all(text: Seq<char>, pattern: Seq<char>, new: Seq<char>)
    requires
        pattern.len() > 0,
    ensures
        valid_edits(text, match_edits(text, pattern, new, match_starts(text, pattern, 0))),
        spliced(text, match_edits(text, pattern, new, match_starts(text, pattern, 0)))
            == with_replaced(text, pattern, new, 0),
{
    let none = Seq::<int>::empty();
    let starts = match_starts(text, pattern, 0);
    matches_are_apart(text, pattern, 0);
    lemma_match_edits_valid(text, pattern, new, starts);
    lemma_splice_matches(text, pattern, new, none, 0);
    assert(none + starts =~= starts);
    assert(match_edits(text, pattern, new, none) =~= Seq::<EditView>::empty());
    assert(done_text(text, match_edits(text, pattern, new, none)) =~= Seq::<char>::empty());
    assert(Seq::<char>::empty() + text.subrange(0, 0) + with_replaced(text, pattern, new, 0)
        =~= with_replaced(text, pattern, new, 0));
}

/// A planned replacement of a string in a document.
pub struct EditPlan {
    /// The operation to submit.
    pub ops: Vec<OtComponent>,
    /// How many occurrences it replaces.
    pub match_count: usize,
    /// The byte offset of the first of them.
    pub first_offset: usize,
}

/// A plan as plain values.
pub struct PlanView {
    pub ops: Seq<ComponentView>,
    pub match_count: int,
    pub first_offset: int,
}

impl View for EditPlan {
    type V = PlanView;

    open spec fn view(&self) -> PlanView {
        PlanView {
            ops: component_views(self.ops@),
            match_count: self.match_count as int,
            first_offset: self.first_offset as int,
        }
    }
}

/// A planning result as plain values.
pub open spec fn plan_result(result: Result<EditPlan>) -> std::result::Result<PlanView, ErrorView> {
    match result {
        Ok(plan) => Ok(plan@),
        Err(e) => Err(e@),
    }
}

/// The operation that replaces the occurrences of `old`.
pub open spec fn replacement_script(content: Seq<char>, old: Seq<char>, new: Seq<char>) -> Seq<
    ComponentView,
> {
    script(content, match_edits(content, old, new, match_starts(content, old, 0)))
}

/// What replacing `old` by `new` in a document comes to: it must occur, and
/// only once unless all occurrences are to be replaced.
pub open spec fn edit_plan(
    content: Seq<char>,
    path: Seq<char>,
    old: Seq<char>,
    new: Seq<char>,
    replace_all: bool,
) -> std::result::Result<PlanView, ErrorView> {
    let starts = match_starts(content, old, 0);
    if starts.len() == 0 {
        Err(
            ErrorView::Edit(
                "old_string not found in the current content of "@ + path
                    + "; the doc may have changed — call read_file again"@,
            ),
        )
    } else if starts.len() > 1 && !replace_all {
        Err(
            ErrorView::Edit(
                "old_string appears "@ + decimal(starts.len()) + " times in "@ + path
                    + "; add surrounding context to make it unique or set replace_all"@,
            ),
        )
    } else {
        Ok(
            PlanView {
                ops: replacement_script(content, old, new),
                match_count: starts.len() as int,
                first_offset: byte_at(content, starts[0]) as int,
            },
        )
    }
}

/// The positions of the occurrences of `pattern` in `text`.
fn find_matches(text: &[char], pattern: &[char]) -> (starts: Vec<usize>)
    requires
        pattern@.len() > 0,
    ensures
        starts@.len() == match_starts(text@, pattern@, 0).len(),
        forall|i: int|
            0 <= i < starts@.len() ==> #[trigger] starts@[i] == match_starts(text@, pattern@, 0)[i],
{
    let mut starts: Vec<usize> = Vec::new();
    let mut from: usize = 0;
    let n: usize = text.len();
    let len: usize = pattern.len();
    let ghost all = match_starts(text@, pattern@, 0);
    while from <= n && len <= n - from
        invariant
            n == text@.len(),
            len == pattern@.len(),
            len > 0,
            from <= n,
            all == Seq::new(starts@.len(), |i: int| starts@[i] as int) + match_starts(
                text@,
                pattern@,
                from as int,
            ),
        decreases n - from,
    {
        let ghost found = Seq::new(starts@.len(), |i: int| starts@[i] as int);
        if stands_at(text, pattern, from) {
            starts.push(from);
            assert(all =~= Seq::new(starts@.len(), |i: int| starts@[i] as int) + match_starts(
                text@,
                pattern@,
                from + len,
            ));
            from += len;
        } else {
            from += 1;
        }
    }
    assert(all =~= Seq::new(starts@.len(), |i: int| starts@[i] as int));
    starts
}

/// Plans the replacement of `old` by `new` in the current content of a
/// document.
pub fn plan_edit(content: &str, path: &str, old: &str, new: &str, replace_all: bool) -> (plan: Result<
    EditPlan,
>)
    requires
        old@.len() > 0,
    ensures
        plan_result(plan) == edit_plan(content@, path@, old@, new@, replace_all),
{
    let t = chars_of(content);
    let p = chars_of(old);
    let starts = find_matches(t.as_slice(), p.as_slice());
    let ghost places = match_starts(content@, old@, 0);
    if starts.len() == 0 {
        let mut text = "old_string not found in the current content of ".to_owned();
        text.append(path);
        text.append("; the doc may have changed — call read_file again");
        return Err(OverleafError::Edit(text));
    }
    if starts.len() > 1 && !replace_all {
        let mut text = "old_string appears ".to_owned();
        push_decimal(&mut text, starts.len() as u64);
        text.append(" times in ");
        text.append(path);
        text.append("; add surrounding context to make it unique or set replace_all");
        return Err(OverleafError::Edit(text));
    }
    proof {
        matches_are_apart(content@, old@, 0);
        match_edits_replace_all(content@, old@, new@);
    }
    let n: usize = t.len();
    let mut edits: Vec<(usize, usize, String)> = Vec::new();
    let mut i: usize = 0;
    while i < starts.len()
        invariant
            i <= starts@.len(),
            n == t@.len(),
            t@ == content@,
            p@ == old@,
            places == match_starts(content@, old@, 0),
            starts@.len() == places.len(),
            forall|j: int| 0 <= j < starts@.len() ==> #[trigger] starts@[j] == places[j],
            apart(content@, old@, places, 0),
            edits@.len() == i,
            forall|j: int|
                0 <= j < i ==> {
                    &&& (#[trigger] edits@[j]).0 == byte_at(content@, places[j])
                    &&& edits@[j].1 == byte_at(content@, places[j] + old@.len())
                    &&& edits@[j].2@ == new@
                },
        decreases starts@.len() - i,
    {
        let from = starts[i];
        assert(occurs_at(content@, old@, places[i as int]));
        let start = byte_offset(content, t.as_slice(), from);
        let end = byte_offset(content, t.as_slice(), from + p.len());
        edits.push((start, end, new.to_owned()));
        i += 1;
    }
    assert(edit_views(edits@) =~= match_edits(content@, old@, new@, places));
    let first_offset = edits[0].0;
    let ops = OtComponent::replace_script(content, edits.as_slice());
    Ok(EditPlan { ops, match_count: starts.len(), first_offset })
}

proof fn lemma_match_shift(
    content: Seq<char>,
    old: Seq<char>,
    new: Seq<char>,
    starts: Seq<int>,
    n: int,
)
    requires
        0 <= n <= starts.len(),
    ensures
        shift(content, match_edits(content, old, new, starts).take(n)) <= n * utf16_size(new),
    decreases n,
{
    let edits = match_edits(content, old, new, starts);
    if n == 0 {
        assert(edits.take(0) =~= Seq::<EditView>::empty());
        assert(0 * utf16_size(new) == 0) by (nonlinear_arith);
    } else {
        lemma_match_shift(content, old, new, starts, n - 1);
        assert(edits.take(n).drop_last() =~= edits.take(n - 1));
        assert(n * utf16_size(new) == (n - 1) * utf16_size(new) + utf16_size(new))
            by (nonlinear_arith);
    }
}

/// Replaying the operation of a planned edit replaces every occurrence of the
/// string, and nothing else, as long as its positions fit in 64 bits.
pub proof fn planned_edit_replaces_the_string(content: Seq<char>, old: Seq<char>, new: Seq<char>)
    requires
        old.len() > 0,
        utf16_size(content) + match_starts(content, old, 0).len() * utf16_size(new) <= u64::MAX,
    ensures
        replayed(content, replacement_script(content, old, new)) == (Replay {
            content: with_replaced(content, old, new, 0),
            complete: true,
        }),
{
    let starts = match_starts(content, old, 0);
    let edits = match_edits(content, old, new, starts);
    match_edits_replace_all(content, old, new);
    matches_are_apart(content, old, 0);
    assert forall|n: int| 0 <= n < edits.len() implies #[trigger] script_place(content, edits, n)
        <= u64::MAX by {
        lemma_match_shift(content, old, new, starts, n);
        assert(n * utf16_size(new) <= starts.len() * utf16_size(new)) by (nonlinear_arith)
            requires
                0 <= n <= starts.len(),
        ;
        assert(occurs_at(content, old, starts[n]));
        lemma_char_of_byte(content, starts[n]);
        lemma_offset_bounds(content, starts[n]);
    }
    script_makes_the_replacements(
        content,
        match_edits(content, old, new, match_starts(content, old, 0)),
    );
}

/// Whether `pieces` are what is left of a text when it is cut at a pattern, from
/// the left: with the pattern between them they make up the text, and where the
/// pattern stands behind a piece, it does not stand any earlier.
pub open spec fn cut_at(text: Seq<char>, pattern: Seq<char>, pieces: Seq<Seq<char>>) -> bool {
    &&& pieces.len() > 0
    &&& joined(pieces, pattern) == text
    &&& forall|i: int, at: int|
        0 <= i < pieces.len() - 1 && #[trigger] occurs_at(pieces[i] + pattern, pattern, at)
            ==> at == pieces[i].len()
    &&& forall|at: int| !occurs_at(pieces.last(), pattern, at)
}

proof fn lemma_occurs_within(a: Seq<char>, b: Seq<char>, pattern: Seq<char>, at: int)
    requires
        0 <= at,
        at + pattern.len() <= a.len(),
    ensures
        occurs_at(a + b, pattern, at) == occurs_at(a, pattern, at),
{
    assert((a + b).subrange(at, at + pattern.len()) =~= a.subrange(at, at + pattern.len()));
}

proof fn lemma_occurs_behind(a: Seq<char>, b: Seq<char>, pattern: Seq<char>, at: int)
    requires
        0 <= at,
    ensures
        occurs_at(a + b, pattern, a.len() + at) == occurs_at(b, pattern, at),
{
    if at + pattern.len() <= b.len() {
        assert((a + b).subrange(a.len() + at, a.len() + at + pattern.len()) =~= b.subrange(
            at,
            at + pattern.len(),
        ));
    }
}

/// Cuts `text` from `from` on.
proof fn lemma_cut(text: Seq<char>, pattern: Seq<char>, new: Seq<char>, from: int) -> (pieces: Seq<
    Seq<char>,
>)
    requires
        pattern.len() > 0,
        0 <= from <= text.len(),
    ensures
        cut_at(text.skip(from), pattern, pieces),
        joined(pieces, new) == with_replaced(text, pattern, new, from),
        pieces.len() == match_starts(text, pattern, from).len() + 1,
        pieces.len() > 1 ==> match_starts(text, pattern, from)[0] == from + pieces[0].len(),
    decreases text.len() - from,
{
    let rest = text.skip(from);
    if from + pattern.len() > text.len() {
        seq![rest]
    } else if occurs_at(text, pattern, from) {
        let next = from + pattern.len();
        let behind = lemma_cut(text, pattern, new, next);
        let none = Seq::<char>::empty();
        let pieces = seq![none] + behind;
        joined_from_the_front(none, behind, pattern);
        joined_from_the_front(none, behind, new);
        assert(rest =~= pattern + text.skip(next));
        assert(none + pattern + joined(behind, pattern) =~= rest);
        assert(none + new + joined(behind, new) =~= with_replaced(text, pattern, new, from));
        assert forall|i: int, at: int|
            0 <= i < pieces.len() - 1 && #[trigger] occurs_at(
                pieces[i] + pattern,
                pattern,
                at,
            ) implies at == pieces[i].len() by {
            if i > 0 {
                assert(pieces[i] == behind[i - 1]);
            }
        }
        assert(pieces.last() == behind.last());
        pieces
    } else {
        let behind = lemma_cut(text, pattern, new, from + 1);
        let c = seq![text[from]];
        let first = c + behind[0];
        let pieces = behind.update(0, first);
        let tail = behind.drop_first();
        assert(rest =~= c + text.skip(from + 1));
        assert(behind =~= seq![behind[0]] + tail);
        assert(pieces =~= seq![first] + tail);
        if tail.len() > 0 {
            joined_from_the_front(behind[0], tail, pattern);
            joined_from_the_front(first, tail, pattern);
            joined_from_the_front(behind[0], tail, new);
            joined_from_the_front(first, tail, new);
        }
        assert(joined(pieces, pattern) =~= c + joined(behind, pattern));
        assert(joined(pieces, new) =~= c + joined(behind, new));
        assert forall|at: int| 0 <= at implies occurs_at(rest, pattern, at) == #[trigger] occurs_at(
            text,
            pattern,
            from + at,
        ) by {
            assert(text.take(from) + rest =~= text);
            lemma_occurs_behind(text.take(from), rest, pattern, at);
        }
        assert(!occurs_at(rest, pattern, 0)) by {
            assert(occurs_at(rest, pattern, 0) == occurs_at(text, pattern, from + 0));
        }
        assert forall|i: int, at: int|
            0 <= i < pieces.len() - 1 && #[trigger] occurs_at(
                pieces[i] + pattern,
                pattern,
                at,
            ) implies at == pieces[i].len() by {
            if i > 0 {
                assert(pieces[i] == behind[i]);
            } else {
                assert(first + pattern =~= c + (behind[0] + pattern));
                if at == 0 {
                    let more = joined(tail, pattern);
                    assert(rest =~= (first + pattern) + more);
                    lemma_occurs_within(first + pattern, more, pattern, 0);
                } else {
                    lemma_occurs_behind(c, behind[0] + pattern, pattern, at - 1);
                    assert(occurs_at(behind[0] + pattern, pattern, at - 1));
                }
            }
        }
        assert forall|at: int| !occurs_at(pieces.last(), pattern, at) by {
            if pieces.len() > 1 {
                assert(pieces.last() == behind.last());
            } else {
                assert(pieces.last() == first);
                assert(joined(behind, pattern) == behind[0]);
                assert(first =~= rest);
                if at > 0 {
                    lemma_occurs_behind(c, behind[0], pattern, at - 1);
                    assert(behind.last() == behind[0]);
                    assert(!occurs_at(behind[0], pattern, at - 1));
                }
            }
        }
        pieces
    }
}

/// What replacing a string by another comes to, said of the text alone: the
/// pieces of the text between the occurrences of the string stay as they are,
/// and the new string stands between them.
pub proof fn replacing_keeps_the_pieces(text: Seq<char>, old: Seq<char>, new: Seq<char>)
    requires
        old.len() > 0,
    ensures
        exists|pieces: Seq<Seq<char>>| #[trigger]
            cut_at(text, old, pieces) && with_replaced(text, old, new, 0) == joined(pieces, new)
                && pieces.len() == match_starts(text, old, 0).len() + 1,
{
    let pieces = lemma_cut(text, old, new, 0);
    assert(text.skip(0) =~= text);
    assert(cut_at(text, old, pieces));
}

/// Where a plan is made, its operation turns the document into the pieces
/// between the occurrences of the old string with the new string, as it was
/// given, between them, as long as all positions fit in 64 bits. The plan tells
/// how many occurrences there are, and how many bytes stand before the first.
/// It is made exactly when the old string occurs, and occurs once or is to be
/// replaced everywhere.
pub proof fn plan_does_what_was_asked(
    content: Seq<char>,
    path: Seq<char>,
    old: Seq<char>,
    new: Seq<char>,
    replace_all: bool,
)
    requires
        old.len() > 0,
    ensures
        exists|pieces: Seq<Seq<char>>|
            {
                &&& #[trigger] cut_at(content, old, pieces)
                &&& match edit_plan(content, path, old, new, replace_all) {
                    Ok(plan) => {
                        &&& pieces.len() == 2 || pieces.len() > 2 && replace_all
                        &&& plan.match_count == pieces.len() - 1
                        &&& plan.first_offset == encode_utf8(pieces[0]).len()
                        &&& encode_utf16(content).len() + plan.match_count * encode_utf16(new).len()
                            <= u64::MAX ==> replayed(content, plan.ops) == (Replay {
                            content: joined(pieces, new),
                            complete: true,
                        })
                    },
                    Err(_) => pieces.len() == 1 || pieces.len() > 2 && !replace_all,
                }
            },
        match edit_plan(content, path, old, new, replace_all) {
            Ok(plan) => encode_utf16(content).len() + plan.match_count * encode_utf16(new).len()
                <= u64::MAX ==> replayed(content, plan.ops) == (Replay {
                content: with_replaced(content, old, new, 0),
                complete: true,
            }),
            Err(_) => true,
        },
{
    let pieces = lemma_cut(content, old, new, 0);
    let starts = match_starts(content, old, 0);
    assert(content.skip(0) =~= content);
    assert(cut_at(content, old, pieces));
    offsets_count_utf16_code_units(content, 0);
    offsets_count_utf16_code_units(new, 0);
    if let Ok(plan) = edit_plan(content, path, old, new, replace_all) {
        assert(content.take(starts[0]) =~= pieces[0]) by {
            let tail = pieces.drop_first();
            assert(pieces =~= seq![pieces[0]] + tail);
            joined_from_the_front(pieces[0], tail, old);
        }
        if encode_utf16(content).len() + plan.match_count * encode_utf16(new).len() <= u64::MAX {
            planned_edit_replaces_the_string(content, old, new);
        }
    }
}

/// Whether one text becomes the other by putting `new` in the place of `old`,
/// and no shorter change does at that place: `old` and `new` differ in their
/// first and in their last characters.
pub open spec fn least_change(
    current: Seq<char>,
    target: Seq<char>,
    head: Seq<char>,
    old: Seq<char>,
    new: Seq<char>,
    tail: Seq<char>,
) -> bool {
    &&& current == head + old + tail
    &&& target == head + new + tail
    &&& old.len() > 0 && new.len() > 0 ==> old[0] != new[0] && old.last() != new.last()
}

/// The operation of an overwrite touches no more than it has to: it takes out
/// and puts in one stretch of text each, in one place, and the two differ in
/// their first and in their last characters.
pub proof fn overwrite_touches_only_what_differs(current: Seq<char>, target: Seq<char>)
    requires
        current != target,
        encode_utf16(current).len() <= u64::MAX,
    ensures
        exists|head: Seq<char>, old: Seq<char>, new: Seq<char>, tail: Seq<char>|
            {
                &&& #[trigger] least_change(current, target, head, old, new, tail)
                &&& overwrite_ops(current, target) == (if old.len() > 0 {
                    seq![deletion(encode_utf16(head).len() as int, old)]
                } else {
                    Seq::empty()
                }) + (if new.len() > 0 {
                    seq![insertion(encode_utf16(head).len() as int, new)]
                } else {
                    Seq::empty()
                })
            },
{
    let h = common_prefix(current, target) as int;
    common_prefix_is_longest(current, target);
    let t = common_suffix(current.skip(h), target.skip(h)) as int;
    common_suffix_is_longest(current.skip(h), target.skip(h));
    let head = current.take(h);
    let old = current.subrange(h, current.len() - t);
    let new = target.subrange(h, target.len() - t);
    let tail = current.skip(current.len() - t);
    lemma_least_change(current, target, h, t);
    assert(least_change(current, target, head, old, new, tail));
    let edits = overwrite(current, target);
    let e = edits[0];
    lemma_char_of_byte(current, h);
    lemma_char_of_byte(current, current.len() - t);
    lemma_offset_bounds(current, h);
    offsets_count_utf16_code_units(current, h);
    assert(edits.drop_last() =~= Seq::<EditView>::empty());
    assert(script(current, edits.drop_last()) =~= Seq::<ComponentView>::empty());
    assert(old_text(current, e) == old);
    assert(e.text == new);
    assert(overwrite_ops(current, target) =~= replacement_ops(
        encode_utf16(head).len() as int,
        old,
        new,
    ));
}

proof fn lemma_least_change(current: Seq<char>, target: Seq<char>, h: int, t: int)
    requires
        0 <= h <= current.len(),
        h <= target.len(),
        current.take(h) == target.take(h),
        h < current.len() && h < target.len() ==> current[h] != target[h],
        0 <= t <= current.len() - h,
        t <= target.len() - h,
        current.skip(h).skip(current.len() - h - t) == target.skip(h).skip(target.len() - h - t),
        t < current.len() - h && t < target.len() - h ==> current.skip(h)[current.len() - h - 1 - t]
            != target.skip(h)[target.len() - h - 1 - t],
    ensures
        least_change(
            current,
            target,
            current.take(h),
            current.subrange(h, current.len() - t),
            target.subrange(h, target.len() - t),
            current.skip(current.len() - t),
        ),
{
    let tail = current.skip(current.len() - t);
    assert(current.skip(h).skip(current.len() - h - t) =~= tail);
    assert(target.skip(h).skip(target.len() - h - t) =~= target.skip(target.len() - t));
    assert(current =~= current.take(h) + current.subrange(h, current.len() - t) + tail);
    assert(target =~= target.take(h) + target.subrange(h, target.len() - t) + target.skip(
        target.len() - t,
    ));
}

/// An edit that cannot be made is refused with the file's path, and with how
/// often the string occurs where it occurs too often.
pub proof fn refused_edit_names_the_file(
    content: Seq<char>,
    path: Seq<char>,
    old: Seq<char>,
    new: Seq<char>,
)
    ensures
        edit_plan(content, path, old, new, false) matches Err(e) ==> (e matches ErrorView::Edit(
            text,
        ) && has_text(text, path) && (match_starts(content, old, 0).len() > 1 ==> has_text(
            text,
            decimal(match_starts(content, old, 0).len()),
        ))),
        edit_plan(content, path, old, new, true) matches Err(e) ==> (e matches ErrorView::Edit(
            text,
        ) && has_text(text, path)),
{
    let starts = match_starts(content, old, 0);
    let n = decimal(starts.len());
    let missing = "old_string not found in the current content of "@;
    pattern_stands_between_the_rest(
        missing,
        path,
        "; the doc may have changed — call read_file again"@,
        0,
    );
    let many = "old_string appears "@;
    let end = "; add surrounding context to make it unique or set replace_all"@;
    pattern_stands_between_the_rest(many + n + " times in "@, path, end, 0);
    pattern_stands_between_the_rest(many, n, " times in "@ + path + end, 0);
    assert(many + n + (" times in "@ + path + end) =~= many + n + " times in "@ + path + end);
}

} // verus!
