//! The history of a project.
use vstd::prelude::*;

use crate::error::concat;
use crate::json::{text_field, field_of, ArgView, JsonArg, JsonView, Json};
use crate::number::{decimal, push_decimal, push_signed, signed_decimal};
use crate::log::lemma_has_text_within;
use crate::pieces::{join, joined, lists_are_joined_piece_by_piece};
use crate::text::{begins_with, has_text, opt_text, pattern_stands_between_the_rest, texts};

verus! {

// --- what the server reports ---------------------------------------------

/// A page of a project's history.
#[derive(Debug)]
pub struct UpdatesResponse {
    pub updates: Vec<HistoryUpdate>,
    pub next_before_timestamp: Option<i64>,
}

/// A batch of updates in a history.
#[derive(Debug)]
pub struct HistoryUpdate {
    pub from_v: i64,
    pub to_v: i64,
    pub meta: Option<HistoryUpdateMeta>,
    pub labels: Vec<HistoryLabel>,
    pub pathnames: Vec<String>,
    /// Structural operations, whose shape varies.
    pub project_ops: Vec<JsonArg>,
}

/// When and by whom a batch of updates was made.
#[derive(Debug)]
pub struct HistoryUpdateMeta {
    pub users: Vec<HistoryUser>,
    pub start_ts: Option<i64>,
    pub end_ts: Option<i64>,
}

/// A user in a history. An anonymous one has neither a name nor an address.
#[derive(Debug)]
pub struct HistoryUser {
    pub first_name: Option<String>,
    pub last_name: Option<String>,
    pub email: Option<String>,
}

/// A label on a version.
#[derive(Debug)]
pub struct HistoryLabel {
    pub id: String,
    pub comment: String,
    pub version: i64,
    pub created_at: Option<String>,
    pub user_id: Option<String>,
}

// --- users ---------------------------------------------------------------

/// The parts of a name that are known.
pub open spec fn name_parts(user: HistoryUser) -> Seq<Seq<char>> {
    match (opt_text(user.first_name), opt_text(user.last_name)) {
        (Some(first), Some(last)) => seq![first, last],
        (Some(first), None) => seq![first],
        (None, Some(last)) => seq![last],
        (None, None) => Seq::empty(),
    }
}

/// How a user is shown: by name, else by address, else as unknown.
pub open spec fn user_text(user: HistoryUser) -> Seq<char> {
    let name = joined(name_parts(user), " "@);
    if name.len() > 0 {
        name
    } else {
        match opt_text(user.email) {
            Some(email) => email,
            None => "unknown"@,
        }
    }
}

impl HistoryUser {
    /// How this user is shown.
    pub fn display(&self) -> (text: String)
        ensures
            text@ == user_text(*self),
    {
        let mut parts: Vec<String> = Vec::new();
        if let Some(first) = &self.first_name {
            parts.push(first.clone());
        }
        if let Some(last) = &self.last_name {
            parts.push(last.clone());
        }
        assert(texts(parts@) =~= name_parts(*self));
        let name = join(&parts, " ");
        if !name.as_str().is_empty() {
            return name;
        }
        match &self.email {
            Some(email) => email.clone(),
            None => "unknown".to_owned(),
        }
    }
}

/// The users of a batch, as shown.
pub open spec fn user_texts(users: Seq<HistoryUser>) -> Seq<Seq<char>> {
    Seq::new(users.len(), |i: int| user_text(users[i]))
}

/// By whom a batch was made.
pub open spec fn authors(meta: Option<HistoryUpdateMeta>) -> Seq<char> {
    let named = match meta {
        Some(meta) => joined(user_texts(meta.users@), ", "@),
        None => Seq::empty(),
    };
    if named.len() > 0 {
        named
    } else {
        "unknown"@
    }
}

fn authors_of(meta: &Option<HistoryUpdateMeta>) -> (text: String)
    ensures
        text@ == authors(*meta),
{
    if let Some(meta) = meta {
        let mut shown: Vec<String> = Vec::new();
        let mut i: usize = 0;
        while i < meta.users.len()
            invariant
                i <= meta.users@.len(),
                shown@.len() == i,
                forall|j: int|
                    0 <= j < i ==> (#[trigger] shown@[j])@ == user_text(meta.users@[j]),
            decreases meta.users@.len() - i,
        {
            shown.push(meta.users[i].display());
            i += 1;
        }
        assert(texts(shown@) =~= user_texts(meta.users@));
        let named = join(&shown, ", ");
        if !named.as_str().is_empty() {
            return named;
        }
    }
    "unknown".to_owned()
}

// --- times ---------------------------------------------------------------

/// How times are shown.
pub open spec fn time_format() -> Seq<char> {
    "%Y-%m-%d %H:%M UTC"@
}

/// What `chrono` makes of a time in milliseconds since 1970, in UTC, with a
/// format; nothing for a time that it cannot represent.
pub uninterp spec fn utc_text(ms: int, format: Seq<char>) -> Option<Seq<char>>;

/// `chrono::DateTime::<Utc>::from_timestamp_millis` and the text that `format`
/// gives of it, which is named `utc_text`. A format that is not valid would
/// panic, so only the one in use is let in.
#[verifier::external_body]
fn utc_time(ms: i64, format: &str) -> (text: Option<String>)
    requires
        format@ == time_format(),
    ensures
        opt_text(text) == utc_text(ms as int, format@),
{
    chrono::DateTime::<chrono::Utc>::from_timestamp_millis(ms).map(
        |time| time.format(format).to_string(),
    )
}

/// How a time that `chrono` may have rendered is shown.
pub open spec fn shown_time(rendered: Option<Seq<char>>) -> Seq<char> {
    match rendered {
        Some(text) => text,
        None => "unknown time"@,
    }
}

/// The text that `chrono` makes of an optional time.
pub open spec fn rendered_time(ms: Option<i64>) -> Option<Seq<char>> {
    match ms {
        Some(ms) => utc_text(ms as int, time_format()),
        None => None,
    }
}

/// The text of a time, where there is one to show.
fn render_time(ms: Option<i64>) -> (text: Option<String>)
    ensures
        opt_text(text) == rendered_time(ms),
{
    match ms {
        Some(ms) => utc_time(ms, "%Y-%m-%d %H:%M UTC"),
        None => None,
    }
}

/// How a time is shown.
pub fn format_ts(ms: Option<i64>) -> (text: String)
    ensures
        text@ == shown_time(rendered_time(ms)),
{
    time_or_unknown(render_time(ms))
}

/// How a time that may have been rendered is shown.
pub fn time_or_unknown(rendered: Option<String>) -> (text: String)
    ensures
        text@ == shown_time(opt_text(rendered)),
{
    match rendered {
        Some(text) => text,
        None => "unknown time".to_owned(),
    }
}

// --- structural operations -----------------------------------------------

/// The path in a part of an operation.
pub open spec fn op_path(op: JsonView, part: Seq<char>) -> Option<Seq<char>> {
    match field_of(op, part) {
        Some(body) => text_field(body, "pathname"@),
        None => None,
    }
}

/// The path that a rename leads to.
pub open spec fn renamed_to(op: JsonView) -> Seq<char> {
    match field_of(op, "rename"@) {
        Some(body) => match text_field(body, "newPathname"@) {
            Some(path) => path,
            None => "?"@,
        },
        None => "?"@,
    }
}

/// How a structural operation is shown; one of another shape as it came.
pub open spec fn op_text(op: ArgView) -> Seq<char> {
    if op_path(op.body, "add"@) is Some {
        "added "@ + op_path(op.body, "add"@)->0
    } else if op_path(op.body, "remove"@) is Some {
        "removed "@ + op_path(op.body, "remove"@)->0
    } else if op_path(op.body, "rename"@) is Some {
        "renamed "@ + op_path(op.body, "rename"@)->0 + " -> "@ + renamed_to(op.body)
    } else {
        op.text
    }
}

fn path_of_part(op: &Json, part: &str) -> (path: Option<String>)
    ensures
        opt_text(path) == op_path(op@, part@),
{
    match op.get(part) {
        Some(body) => body.get_str("pathname"),
        None => None,
    }
}

/// How a structural operation is shown.
pub fn describe_op(op: &JsonArg) -> (text: String)
    ensures
        text@ == op_text(op@),
{
    if let Some(path) = path_of_part(&op.body, "add") {
        return concat("added ", path.as_str());
    }
    if let Some(path) = path_of_part(&op.body, "remove") {
        return concat("removed ", path.as_str());
    }
    if let Some(path) = path_of_part(&op.body, "rename") {
        let target = match op.body.get("rename") {
            Some(body) => match body.get_str("newPathname") {
                Some(path) => path,
                None => "?".to_owned(),
            },
            None => "?".to_owned(),
        };
        let mut text = concat("renamed ", path.as_str());
        text.append(" -> ");
        text.append(target.as_str());
        return text;
    }
    op.text.clone()
}

// --- the report ----------------------------------------------------------

/// The structural operations of a batch, one to a line.
pub open spec fn op_lines(ops: Seq<JsonArg>) -> Seq<char>
    decreases ops.len(),
{
    if ops.len() == 0 {
        Seq::empty()
    } else {
        op_lines(ops.drop_last()) + "    "@ + op_text(ops.last()@) + "\n"@
    }
}

/// The labels of a batch, one to a line.
pub open spec fn batch_label_lines(labels: Seq<HistoryLabel>) -> Seq<char>
    decreases labels.len(),
{
    if labels.len() == 0 {
        Seq::empty()
    } else {
        batch_label_lines(labels.drop_last()) + "    label at v"@ + signed_decimal(
            labels.last().version as int,
        ) + ": \""@ + labels.last().comment@ + "\"\n"@
    }
}

/// When a batch ended.
pub open spec fn end_of(update: HistoryUpdate) -> Option<i64> {
    match update.meta {
        Some(meta) => meta.end_ts,
        None => None,
    }
}

/// A batch of updates, with its time as `when`.
pub open spec fn update_text(update: HistoryUpdate, when: Seq<char>) -> Seq<char> {
    "v"@ + signed_decimal(update.from_v as int) + " -> v"@ + signed_decimal(update.to_v as int)
        + "  "@ + when + "  by "@ + authors(update.meta) + "\n"@ + (
    if update.pathnames@.len() == 0 {
        Seq::empty()
    } else {
        "    edited: "@ + joined(texts(update.pathnames@), ", "@) + "\n"@
    }) + op_lines(update.project_ops@) + batch_label_lines(update.labels@)
}

/// The batches of a page, each with its time.
pub open spec fn update_lines(updates: Seq<HistoryUpdate>, times: Seq<Seq<char>>) -> Seq<char>
    decreases updates.len(),
{
    if updates.len() == 0 {
        Seq::empty()
    } else {
        update_lines(updates.drop_last(), times) + update_text(
            updates.last(),
            times[updates.len() - 1],
        )
    }
}

/// The labels of a project, one to a line.
pub open spec fn label_lines(labels: Seq<HistoryLabel>) -> Seq<char>
    decreases labels.len(),
{
    if labels.len() == 0 {
        Seq::empty()
    } else {
        label_lines(labels.drop_last()) + "  v"@ + signed_decimal(labels.last().version as int)
            + "  \""@ + labels.last().comment@ + "\"  ("@ + (match opt_text(
            labels.last().created_at,
        ) {
            Some(time) => time,
            None => "unknown time"@,
        }) + ")\n"@
    }
}

/// The labels of a project.
pub open spec fn labels_text(labels: Seq<HistoryLabel>) -> Seq<char> {
    if labels.len() == 0 {
        "  (none)\n"@
    } else {
        label_lines(labels)
    }
}

/// How to get the page before this one.
pub open spec fn older_text(next: Option<i64>) -> Seq<char> {
    match next {
        Some(next) => "\nOlder history available: call get_history with before="@ + signed_decimal(
            next as int,
        ) + ".\n"@,
        None => Seq::empty(),
    }
}

/// The report on a page of a project's history, with the time of each batch.
pub open spec fn history_text(
    project: Seq<char>,
    page: UpdatesResponse,
    times: Seq<Seq<char>>,
    labels: Seq<HistoryLabel>,
) -> Seq<char> {
    "History of "@ + project + " ("@ + decimal(page.updates@.len())
        + " update batch(es), newest first):\n"@ + update_lines(page.updates@, times)
        + "\nLabels:\n"@ + labels_text(labels) + older_text(page.next_before_timestamp)
}

/// The times of the batches of a page.
pub open spec fn batch_times(updates: Seq<HistoryUpdate>) -> Seq<Seq<char>> {
    Seq::new(updates.len(), |i: int| shown_time(rendered_time(end_of(updates[i]))))
}

fn push_ops(out: &mut String, ops: &Vec<JsonArg>)
    ensures
        final(out)@ == old(out)@ + op_lines(ops@),
{
    let ghost before = out@;
    let mut i: usize = 0;
    assert(ops@.take(0) =~= Seq::<JsonArg>::empty());
    assert(before + op_lines(ops@.take(0)) =~= before);
    while i < ops.len()
        invariant
            i <= ops@.len(),
            out@ == before + op_lines(ops@.take(i as int)),
        decreases ops@.len() - i,
    {
        assert(ops@.take(i + 1).drop_last() =~= ops@.take(i as int));
        out.append("    ");
        out.append(describe_op(&ops[i]).as_str());
        out.append("\n");
        assert(out@ =~= before + op_lines(ops@.take(i + 1)));
        i += 1;
    }
    assert(ops@.take(ops@.len() as int) =~= ops@);
}

fn push_batch_labels(out: &mut String, labels: &Vec<HistoryLabel>)
    ensures
        final(out)@ == old(out)@ + batch_label_lines(labels@),
{
    let ghost before = out@;
    let mut i: usize = 0;
    assert(labels@.take(0) =~= Seq::<HistoryLabel>::empty());
    assert(before + batch_label_lines(labels@.take(0)) =~= before);
    while i < labels.len()
        invariant
            i <= labels@.len(),
            out@ == before + batch_label_lines(labels@.take(i as int)),
        decreases labels@.len() - i,
    {
        assert(labels@.take(i + 1).drop_last() =~= labels@.take(i as int));
        out.append("    label at v");
        push_signed(out, labels[i].version);
        out.append(": \"");
        out.append(labels[i].comment.as_str());
        out.append("\"\n");
        assert(out@ =~= before + batch_label_lines(labels@.take(i + 1)));
        i += 1;
    }
    assert(labels@.take(labels@.len() as int) =~= labels@);
}

fn push_labels(out: &mut String, labels: &Vec<HistoryLabel>)
    ensures
        final(out)@ == old(out)@ + labels_text(labels@),
{
    if labels.len() == 0 {
        out.append("  (none)\n");
        return;
    }
    let ghost before = out@;
    let mut i: usize = 0;
    assert(labels@.take(0) =~= Seq::<HistoryLabel>::empty());
    assert(before + label_lines(labels@.take(0)) =~= before);
    while i < labels.len()
        invariant
            i <= labels@.len(),
            out@ == before + label_lines(labels@.take(i as int)),
        decreases labels@.len() - i,
    {
        assert(labels@.take(i + 1).drop_last() =~= labels@.take(i as int));
        let label = &labels[i];
        out.append("  v");
        push_signed(out, label.version);
        out.append("  \"");
        out.append(label.comment.as_str());
        out.append("\"  (");
        match &label.created_at {
            Some(time) => out.append(time.as_str()),
            None => out.append("unknown time"),
        }
        out.append(")\n");
        assert(out@ =~= before + label_lines(labels@.take(i + 1)));
        i += 1;
    }
    assert(labels@.take(labels@.len() as int) =~= labels@);
}

fn push_update(out: &mut String, update: &HistoryUpdate, when: &str)
    ensures
        final(out)@ == old(out)@ + update_text(*update, when@),
{
    let ghost before = out@;
    out.append("v");
    push_signed(out, update.from_v);
    out.append(" -> v");
    push_signed(out, update.to_v);
    out.append("  ");
    out.append(when);
    out.append("  by ");
    out.append(authors_of(&update.meta).as_str());
    out.append("\n");
    let ghost head = "v"@ + signed_decimal(update.from_v as int) + " -> v"@ + signed_decimal(
        update.to_v as int,
    ) + "  "@ + when@ + "  by "@ + authors(update.meta) + "\n"@;
    assert(out@ =~= before + head);
    let ghost edited = if update.pathnames@.len() == 0 {
        Seq::<char>::empty()
    } else {
        "    edited: "@ + joined(texts(update.pathnames@), ", "@) + "\n"@
    };
    if update.pathnames.len() > 0 {
        out.append("    edited: ");
        out.append(join(&update.pathnames, ", ").as_str());
        out.append("\n");
    }
    assert(out@ =~= before + (head + edited));
    push_ops(out, &update.project_ops);
    push_batch_labels(out, &update.labels);
    assert(out@ =~= before + (head + edited + op_lines(update.project_ops@) + batch_label_lines(
        update.labels@,
    )));
}

/// The report on a page of a project's history, with the time of each batch as
/// it is to be shown.
pub fn render_history(
    project: &str,
    page: &UpdatesResponse,
    times: &Vec<String>,
    labels: &Vec<HistoryLabel>,
) -> (text: String)
    requires
        times@.len() == page.updates@.len(),
    ensures
        text@ == history_text(project@, *page, texts(times@), labels@),
{
    let mut out = concat("History of ", project);
    out.append(" (");
    push_decimal(&mut out, page.updates.len() as u64);
    out.append(" update batch(es), newest first):\n");
    let ghost head = out@;
    let ghost shown = texts(times@);
    let ghost all = page.updates@;
    let mut i: usize = 0;
    assert(all.take(0) =~= Seq::<HistoryUpdate>::empty());
    assert(head + update_lines(all.take(0), shown) =~= head);
    while i < page.updates.len()
        invariant
            i <= page.updates@.len(),
            times@.len() == page.updates@.len(),
            all == page.updates@,
            shown == texts(times@),
            out@ == head + update_lines(all.take(i as int), shown),
        decreases page.updates@.len() - i,
    {
        assert(all.take(i + 1).drop_last() =~= all.take(i as int));
        push_update(&mut out, &page.updates[i], times[i].as_str());
        assert(out@ =~= head + update_lines(all.take(i + 1), shown));
        i += 1;
    }
    assert(all.take(all.len() as int) =~= all);
    out.append("\nLabels:\n");
    push_labels(&mut out, labels);
    let ghost body = out@;
    if let Some(next) = page.next_before_timestamp {
        out.append("\nOlder history available: call get_history with before=");
        push_signed(&mut out, next);
        out.append(".\n");
    }
    assert(out@ =~= body + older_text(page.next_before_timestamp));
    out
}

/// The report on a page of a project's history.
pub fn get_history(project: &str, page: &UpdatesResponse, labels: &Vec<HistoryLabel>) -> (text:
    String)
    ensures
        text@ == history_text(project@, *page, batch_times(page.updates@), labels@),
{
    let mut times: Vec<String> = Vec::new();
    let mut i: usize = 0;
    while i < page.updates.len()
        invariant
            i <= page.updates@.len(),
            times@.len() == i,
            forall|j: int|
                0 <= j < i ==> (#[trigger] times@[j])@ == shown_time(
                    rendered_time(end_of(page.updates@[j])),
                ),
        decreases page.updates@.len() - i,
    {
        let end = match &page.updates[i].meta {
            Some(meta) => meta.end_ts,
            None => None,
        };
        times.push(format_ts(end));
        i += 1;
    }
    assert(texts(times@) =~= batch_times(page.updates@));
    render_history(project, page, &times, labels)
}

/// The text for a label that was created.
pub fn label_created(label: &HistoryLabel) -> (text: String)
    ensures
        text@ == "Created label \""@ + label.comment@ + "\" at history version "@ + signed_decimal(
            label.version as int,
        ) + " (id "@ + label.id@ + ")."@,
{
    let mut text = concat("Created label \"", label.comment.as_str());
    text.append("\" at history version ");
    push_signed(&mut text, label.version);
    text.append(" (id ");
    text.append(label.id.as_str());
    text.append(").");
    text
}

/// A user is shown by first and last name with a space between them, by the one
/// that is known, else by the address, and else as unknown.
pub proof fn users_are_shown_by_name(user: HistoryUser)
    ensures
        user.first_name is Some && user.last_name is Some ==> user_text(user)
            == user.first_name->0@ + seq![' '] + user.last_name->0@,
        user.first_name is Some && user.last_name is None && user.first_name->0@.len() > 0
            ==> user_text(user) == user.first_name->0@,
        user.first_name is None && user.last_name is Some && user.last_name->0@.len() > 0
            ==> user_text(user) == user.last_name->0@,
        user.first_name is None && user.last_name is None && user.email is Some ==> user_text(user)
            == user.email->0@,
        user.first_name is None && user.last_name is None && user.email is None ==> user_text(user)
            == "unknown"@,
{
    reveal_strlit(" ");
    assert(" "@ =~= seq![' ']);
    let none = Seq::<char>::empty();
    if user.first_name is Some && user.last_name is Some {
        let first = user.first_name->0@;
        let last = user.last_name->0@;
        lists_are_joined_piece_by_piece(seq![first], seq![last], first, " "@);
        lists_are_joined_piece_by_piece(seq![first], seq![last], last, " "@);
        assert(seq![first] + seq![last] =~= name_parts(user));
    } else if user.first_name is Some {
        lists_are_joined_piece_by_piece(Seq::empty(), Seq::empty(), user.first_name->0@, " "@);
    } else if user.last_name is Some {
        lists_are_joined_piece_by_piece(Seq::empty(), Seq::empty(), user.last_name->0@, " "@);
    } else {
        lists_are_joined_piece_by_piece(Seq::empty(), Seq::empty(), none, " "@);
    }
}

/// A batch names all of its users, in order, and a batch without any is by
/// someone unknown.
pub proof fn batches_name_their_users(meta: HistoryUpdateMeta)
    ensures
        authors(None) == "unknown"@,
        meta.users@.len() == 0 ==> authors(Some(meta)) == "unknown"@,
        meta.users@.len() == 1 && user_text(meta.users@[0]).len() > 0 ==> authors(Some(meta))
            == user_text(meta.users@[0]),
        meta.users@.len() == 2 ==> authors(Some(meta)) == user_text(meta.users@[0]) + seq![',', ' ']
            + user_text(meta.users@[1]),
        meta.users@.len() >= 2 ==> authors(Some(meta)) == joined(
            Seq::new(meta.users@.len(), |i: int| user_text(meta.users@[i])),
            seq![',', ' '],
        ),
{
    reveal_strlit(", ");
    assert(", "@ =~= seq![',', ' ']);
    let shown = user_texts(meta.users@);
    if shown.len() == 2 {
        lists_are_joined_piece_by_piece(seq![shown[0]], seq![shown[1]], shown[0], ", "@);
        lists_are_joined_piece_by_piece(seq![shown[0]], seq![shown[1]], shown[1], ", "@);
        assert(seq![shown[0]] + seq![shown[1]] =~= shown);
    }
    if shown.len() >= 2 {
        assert(joined(shown, ", "@).len() >= ", "@.len());
        assert(shown =~= Seq::new(meta.users@.len(), |i: int| user_text(meta.users@[i])));
    }
}

/// What happened to a file is told by the part that names its path: that it was
/// added, removed, or renamed and to what. Anything else is told as it came.
pub proof fn operations_are_told_by_their_part(op: ArgView, path: Seq<char>)
    ensures
        op_path(op.body, "add"@) == Some(path) ==> op_text(op) == "added "@ + path,
        op_path(op.body, "add"@) is None && op_path(op.body, "remove"@) == Some(path) ==> op_text(
            op,
        ) == "removed "@ + path,
        op_path(op.body, "add"@) is None && op_path(op.body, "remove"@) is None && op_path(
            op.body,
            "rename"@,
        ) == Some(path) ==> op_text(op) == "renamed "@ + path + " -> "@ + (match text_field(
            field_of(op.body, "rename"@)->0,
            "newPathname"@,
        ) {
            Some(new) => new,
            None => "?"@,
        }),
        op_path(op.body, "add"@) is None && op_path(op.body, "remove"@) is None && op_path(
            op.body,
            "rename"@,
        ) is None ==> op_text(op) == op.text,
{
}

/// The report goes batch by batch, in the order in which the server gives them,
/// and leaves none out.
pub proof fn every_batch_is_reported(
    updates: Seq<HistoryUpdate>,
    times: Seq<Seq<char>>,
    i: int,
)
    requires
        0 <= i < updates.len(),
    ensures
        begins_with(
            update_lines(updates, times),
            update_lines(updates.take(i), times) + update_text(updates[i], times[i]),
        ),
        i == updates.len() - 1 ==> update_lines(updates, times) == update_lines(
            updates.take(i),
            times,
        ) + update_text(updates[i], times[i]),
    decreases updates.len(),
{
    let all = update_lines(updates, times);
    let wanted = update_lines(updates.take(i), times) + update_text(updates[i], times[i]);
    if i == updates.len() - 1 {
        assert(updates.take(i) =~= updates.drop_last());
        assert(all.subrange(0, all.len() as int) =~= all);
    } else {
        let short = updates.drop_last();
        every_batch_is_reported(short, times, i);
        assert(short.take(i) =~= updates.take(i));
        let before = update_lines(short, times);
        assert(all.subrange(0, wanted.len() as int) =~= before.subrange(0, wanted.len() as int));
    }
}

/// A batch is told with the versions that it leads from and to, its time and
/// its users; then with the files that were edited in it, and with each of its
/// structural operations and labels.
pub proof fn batch_is_told_in_full(update: HistoryUpdate, when: Seq<char>, i: int)
    ensures
        ({
            let text = update_text(update, when);
            &&& begins_with(
                text,
                seq!['v'] + signed_decimal(update.from_v as int) + " -> v"@ + signed_decimal(
                    update.to_v as int,
                ) + "  "@ + when + "  by "@ + authors(update.meta) + seq!['\n'],
            )
            &&& update.pathnames@.len() > 0 ==> has_text(
                text,
                joined(texts(update.pathnames@), ", "@),
            )
            &&& 0 <= i < update.project_ops@.len() ==> has_text(
                text,
                op_text(update.project_ops@[i]@) + "\n"@,
            )
            &&& 0 <= i < update.labels@.len() ==> has_text(
                text,
                "label at v"@ + signed_decimal(update.labels@[i].version as int) + ": \""@
                    + update.labels@[i].comment@ + "\"\n"@,
            )
        }),
{
    reveal_strlit("v");
    reveal_strlit("\n");
    assert("v"@ =~= seq!['v']);
    assert("\n"@ =~= seq!['\n']);
    let none = Seq::<char>::empty();
    let head = "v"@ + signed_decimal(update.from_v as int) + " -> v"@ + signed_decimal(
        update.to_v as int,
    ) + "  "@ + when + "  by "@ + authors(update.meta) + "\n"@;
    let paths = joined(texts(update.pathnames@), ", "@);
    let edited = if update.pathnames@.len() == 0 {
        none
    } else {
        "    edited: "@ + paths + "\n"@
    };
    let ops = op_lines(update.project_ops@);
    let labels = batch_label_lines(update.labels@);
    let text = update_text(update, when);
    assert(text == head + edited + ops + labels);
    assert(text.subrange(0, head.len() as int) =~= head);
    if update.pathnames@.len() > 0 {
        pattern_stands_between_the_rest("    edited: "@, paths, "\n"@, 0);
        lemma_has_text_within(head, edited, ops + labels, paths);
        assert(head + edited + (ops + labels) =~= text);
    }
    if 0 <= i < update.project_ops@.len() {
        lemma_op_is_told(update.project_ops@, i);
        lemma_has_text_within(
            head + edited,
            ops,
            labels,
            op_text(update.project_ops@[i]@) + "\n"@,
        );
    }
    if 0 <= i < update.labels@.len() {
        lemma_batch_label_is_told(update.labels@, i);
        let wanted = "label at v"@ + signed_decimal(update.labels@[i].version as int) + ": \""@
            + update.labels@[i].comment@ + "\"\n"@;
        lemma_has_text_within(head + edited + ops, labels, none, wanted);
        assert(head + edited + ops + labels + none =~= text);
    }
}

proof fn lemma_row_behind(before: Seq<char>, pad: Seq<char>, a: Seq<char>, b: Seq<char>)
    ensures
        has_text(before + pad + a + b, a + b),
{
    let none = Seq::<char>::empty();
    pattern_stands_between_the_rest(before + pad, a + b, none, 0);
    assert(before + pad + (a + b) + none =~= before + pad + a + b);
}

proof fn lemma_row_before(
    before: Seq<char>,
    pad: Seq<char>,
    a: Seq<char>,
    b: Seq<char>,
    pattern: Seq<char>,
)
    requires
        has_text(before, pattern),
    ensures
        has_text(before + pad + a + b, pattern),
{
    let none = Seq::<char>::empty();
    lemma_has_text_within(none, before, pad + a + b, pattern);
    assert(none + before + (pad + a + b) =~= before + pad + a + b);
}

proof fn lemma_op_is_told(ops: Seq<JsonArg>, i: int)
    requires
        0 <= i < ops.len(),
    ensures
        has_text(op_lines(ops), op_text(ops[i]@) + "\n"@),
    decreases ops.len(),
{
    let before = op_lines(ops.drop_last());
    let shown = op_text(ops.last()@);
    if i == ops.len() - 1 {
        lemma_row_behind(before, "    "@, shown, "\n"@);
    } else {
        lemma_op_is_told(ops.drop_last(), i);
        assert(ops.drop_last()[i] == ops[i]);
        lemma_row_before(before, "    "@, shown, "\n"@, op_text(ops[i]@) + "\n"@);
    }
}

proof fn lemma_batch_label_is_told(labels: Seq<HistoryLabel>, i: int)
    requires
        0 <= i < labels.len(),
    ensures
        has_text(
            batch_label_lines(labels),
            "label at v"@ + signed_decimal(labels[i].version as int) + ": \""@
                + labels[i].comment@ + "\"\n"@,
        ),
    decreases labels.len(),
{
    reveal_strlit("    label at v");
    reveal_strlit("label at v");
    let none = Seq::<char>::empty();
    let pad = seq![' ', ' ', ' ', ' '];
    assert("    label at v"@ =~= pad + "label at v"@);
    let before = batch_label_lines(labels.drop_last());
    let row = "label at v"@ + signed_decimal(labels.last().version as int) + ": \""@
        + labels.last().comment@ + "\"\n"@;
    assert(batch_label_lines(labels) =~= before + pad + row);
    if i == labels.len() - 1 {
        pattern_stands_between_the_rest(before + pad, row, none, 0);
        assert(before + pad + row + none =~= batch_label_lines(labels));
    } else {
        lemma_batch_label_is_told(labels.drop_last(), i);
        assert(labels.drop_last()[i] == labels[i]);
        let wanted = "label at v"@ + signed_decimal(labels[i].version as int) + ": \""@
            + labels[i].comment@ + "\"\n"@;
        lemma_has_text_within(none, before, pad + row, wanted);
        assert(none + before + (pad + row) =~= batch_label_lines(labels));
    }
}

/// Every label of a project has a row with its version, its comment as it is,
/// and its time, or a note that the time is not known.
pub proof fn every_label_is_listed(labels: Seq<HistoryLabel>, i: int)
    requires
        0 <= i < labels.len(),
    ensures
        begins_with(
            labels_text(labels),
            label_lines(labels.take(i)) + "  v"@ + signed_decimal(labels[i].version as int)
                + "  \""@ + labels[i].comment@ + "\"  ("@ + (match opt_text(labels[i].created_at) {
                Some(time) => time,
                None => "unknown time"@,
            }) + ")\n"@,
        ),
    decreases labels.len(),
{
    let all = label_lines(labels);
    let wanted = label_lines(labels.take(i)) + "  v"@ + signed_decimal(labels[i].version as int)
        + "  \""@ + labels[i].comment@ + "\"  ("@ + (match opt_text(labels[i].created_at) {
        Some(time) => time,
        None => "unknown time"@,
    }) + ")\n"@;
    if i == labels.len() - 1 {
        assert(labels.take(i) =~= labels.drop_last());
        assert(all == wanted);
        assert(all.subrange(0, all.len() as int) =~= all);
    } else {
        let short = labels.drop_last();
        every_label_is_listed(short, i);
        assert(short.take(i) =~= labels.take(i));
        assert(all.subrange(0, wanted.len() as int) =~= label_lines(short).subrange(
            0,
            wanted.len() as int,
        ));
    }
}

/// The report is about the project that was asked for, tells how many batches
/// it has, then the batches, then the labels, and how to go on where there is
/// more.
pub proof fn report_goes_on_where_there_is_more(
    project: Seq<char>,
    page: UpdatesResponse,
    times: Seq<Seq<char>>,
    labels: Seq<HistoryLabel>,
)
    ensures
        ({
            let text = history_text(project, page, times, labels);
            let head = "History of "@ + project + " ("@ + decimal(page.updates@.len())
                + " update batch(es), newest first):\n"@;
            let body = head + update_lines(page.updates@, times) + "\nLabels:\n"@ + labels_text(
                labels,
            );
            &&& begins_with(text, body)
            &&& page.next_before_timestamp is None ==> text == body
            &&& page.next_before_timestamp matches Some(next) ==> has_text(
                text,
                "before="@ + signed_decimal(next as int),
            )
        }),
{
    let text = history_text(project, page, times, labels);
    let head = "History of "@ + project + " ("@ + decimal(page.updates@.len())
        + " update batch(es), newest first):\n"@;
    let body = head + update_lines(page.updates@, times) + "\nLabels:\n"@ + labels_text(labels);
    assert(text == body + older_text(page.next_before_timestamp));
    assert(text.subrange(0, body.len() as int) =~= body);
    if let Some(next) = page.next_before_timestamp {
        let lead = "\nOlder history available: call get_history with before="@;
        reveal_strlit("\nOlder history available: call get_history with before=");
        reveal_strlit("before=");
        let n = lead.len() - "before="@.len();
        assert(lead =~= lead.take(n) + "before="@);
        let wanted = "before="@ + signed_decimal(next as int);
        pattern_stands_between_the_rest(body + lead.take(n), wanted, ".\n"@, 0);
        assert(text =~= body + lead.take(n) + wanted + ".\n"@);
    } else {
        assert(text =~= body);
    }
}

/// A batch is dated by when it ended, in UTC. Without such a time, or with one
/// that cannot be rendered, the time is not known.
pub proof fn batches_are_dated_by_their_end(updates: Seq<HistoryUpdate>, i: int)
    requires
        0 <= i < updates.len(),
    ensures
        batch_times(updates).len() == updates.len(),
        updates[i].meta is None ==> batch_times(updates)[i] == "unknown time"@,
        updates[i].meta is Some && updates[i].meta->0.end_ts is None ==> batch_times(updates)[i]
            == "unknown time"@,
        updates[i].meta is Some && updates[i].meta->0.end_ts is Some ==> batch_times(updates)[i]
            == match utc_text(updates[i].meta->0.end_ts->0 as int, "%Y-%m-%d %H:%M UTC"@) {
            Some(text) => text,
            None => "unknown time"@,
        },
{
}

} // verus!
