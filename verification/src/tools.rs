//! What the tools decide and report. Each tool is cut where the server has to
//! be asked: what comes before decides what to ask for, what comes after takes
//! the answer in and reports.
use vstd::prelude::*;

use crate::compile::{
    compile_text, limited_text, log_view, opt_source, output_names, output_source, rate_limited,
    CompileResponse, OutputSource, ResponseView, SourceView,
};
use crate::edits::{match_starts, with_replaced};
use crate::error::{concat, text_result, unit_result, ErrorView, OverleafError, Result};
use crate::log::{lemma_has_text_within, lossy_text, text_from_bytes};
use crate::number::{decimal, push_decimal, push_signed, signed_decimal};
use crate::pieces::{count_before, count_of, join, split_counts_separators};
use crate::project::{
    entry_list, entry_views, kind_word, kinds_have_words_of_their_own, normalized, path_names, plain_name, project_views,
    slash_path, slash_path_keeps_plain_names, EntityKind, EntryView, ProjectInfo, ProjectTree, ProjectView, TreeView, UploadResponse,
};
use crate::render::{
    bmp_check, changed_line_range, count_lines, drift, line_count, numbered, outside_bmp_is_found,
    reject_non_bmp, render_numbered,
};
use crate::session::{EditOutcome, OutcomeView};
use crate::stamps::stamps_under;
use crate::text::{
    begins_with, chars_of, contains_char, has_text, occurs_at, opt_text,
    pattern_stands_between_the_rest, same_text, starts_with, texts, trim, trimmed,
    trimmed_is_the_inner_stretch, white_space,
};
use crate::units::{
    byte_at, byte_len, char_of_byte, cut, lemma_char_of_byte, lemma_offset_bounds, on_boundary,
    utf8_size,
};
use crate::workspace::{
    restricted, CompileRecord, Located, LocatedView, RecordView, Workspace, WorkspaceView,
};

verus! {

// --- common to several tools ---------------------------------------------

/// The error for a path with nothing on it.
pub open spec fn nothing_there(loc: LocatedView) -> ErrorView {
    ErrorView::NotFound(loc.path + " in project "@ + loc.project.name)
}

/// The entity that a tool is to act on.
pub open spec fn target_of(loc: LocatedView) -> core::result::Result<
    (Seq<char>, EntityKind),
    ErrorView,
> {
    match loc.entity {
        Some(entity) => Ok(entity),
        None => Err(nothing_there(loc)),
    }
}

/// An entity, or the error in its place, as plain values.
pub open spec fn entity_result(res: Result<(String, EntityKind)>) -> core::result::Result<
    (Seq<char>, EntityKind),
    ErrorView,
> {
    match res {
        Ok((id, kind)) => Ok((id@, kind)),
        Err(e) => Err(e@),
    }
}

/// The state with a file remembered as read.
pub open spec fn with_read(ws: WorkspaceView, loc: LocatedView, content: Seq<char>) -> WorkspaceView {
    WorkspaceView { reads: ws.reads.insert((loc.project.id, loc.path), content), ..ws }
}

/// The state without what was read at or below a path.
pub open spec fn without_reads(ws: WorkspaceView, loc: LocatedView) -> WorkspaceView {
    WorkspaceView {
        reads: ws.reads.remove_keys(stamps_under(loc.project.id, loc.path)),
        ..ws
    }
}

/// The content of a file as it was read last.
pub open spec fn last_read(ws: WorkspaceView, loc: LocatedView) -> Option<Seq<char>> {
    if ws.reads.contains_key((loc.project.id, loc.path)) {
        Some(ws.reads[(loc.project.id, loc.path)])
    } else {
        None
    }
}

/// The folder and name that a file path gives; none for the root folder.
pub open spec fn file_place(path: Seq<char>) -> Option<(Seq<char>, Seq<char>)> {
    let names = path_names(path);
    if names.len() == 0 {
        None
    } else {
        Some((slash_path(names.drop_last()), names.last()))
    }
}

/// The folder and name for a new file.
pub open spec fn new_place(loc: LocatedView) -> core::result::Result<
    (Seq<char>, Seq<char>),
    ErrorView,
> {
    match file_place(loc.path) {
        Some(place) => Ok(place),
        None => Err(ErrorView::Edit(loc.path + " is not a valid file path"@)),
    }
}

/// A folder and name, or the error in their place, as plain values.
pub open spec fn place_result(res: Result<(String, String)>) -> core::result::Result<
    (Seq<char>, Seq<char>),
    ErrorView,
> {
    match res {
        Ok((folder, name)) => Ok((folder@, name@)),
        Err(e) => Err(e@),
    }
}

impl Located {
    fn nothing(&self) -> (e: OverleafError)
        ensures
            e@ == nothing_there(self@),
    {
        let mut text = concat(self.path.as_str(), " in project ");
        text.append(self.project.name.as_str());
        OverleafError::NotFound(text)
    }

    /// The entity that a tool is to act on.
    pub fn target(&self) -> (res: Result<(String, EntityKind)>)
        ensures
            entity_result(res) == target_of(self@),
    {
        match &self.entity {
            Some((id, kind)) => Ok((id.clone(), *kind)),
            None => Err(self.nothing()),
        }
    }

    /// The folder and name for a new file.
    pub fn place(&self) -> (res: Result<(String, String)>)
        ensures
            place_result(res) == new_place(self@),
    {
        let mut names = ProjectTree::split_path(self.path.as_str());
        let ghost all = texts(names@);
        match names.pop() {
            None => Err(
                OverleafError::Edit(concat(self.path.as_str(), " is not a valid file path")),
            ),
            Some(name) => {
                assert(texts(names@) =~= all.drop_last());
                let mut folder = "/".to_owned();
                folder.append(join(&names, "/").as_str());
                Ok((folder, name))
            },
        }
    }
}

// --- projects and files --------------------------------------------------

/// How an account can access a project.
pub open spec fn access_text(project: ProjectView) -> Seq<char> {
    match project.access_level {
        Some(level) => level,
        None => "member"@,
    }
}

/// A project in a list.
pub open spec fn project_line(project: ProjectView) -> Seq<char> {
    project.id + "  "@ + project.name + " ("@ + access_text(project) + ")\n"@
}

/// Projects, one to a line.
pub open spec fn project_lines(projects: Seq<ProjectView>) -> Seq<char>
    decreases projects.len(),
{
    if projects.len() == 0 {
        Seq::empty()
    } else {
        project_lines(projects.drop_last()) + project_line(projects.last())
    }
}

/// What a restricted server says of its projects.
pub open spec fn restricted_text(project: ProjectView) -> Seq<char> {
    "This server is restricted to a single project:\n"@ + project_line(project)
        + "Omit the `project` parameter in tool calls; other projects are not accessible.\n"@
}

/// The list of projects.
pub open spec fn projects_text(endpoint: Seq<char>, projects: Seq<ProjectView>) -> Seq<char> {
    decimal(projects.len()) + " projects on "@ + endpoint + ":\n"@ + project_lines(projects)
}

fn push_project(out: &mut String, project: &ProjectInfo)
    ensures
        final(out)@ == old(out)@ + project_line(project@),
{
    let ghost before = out@;
    out.append(project.id.as_str());
    out.append("  ");
    out.append(project.name.as_str());
    out.append(" (");
    match &project.access_level {
        Some(level) => out.append(level.as_str()),
        None => out.append("member"),
    }
    out.append(")\n");
    assert(out@ =~= before + project_line(project@));
}

/// The mark of the root document in a list of files.
pub open spec fn root_mark(tree: TreeView, entry: EntryView) -> Seq<char> {
    if entry.kind == EntityKind::Doc && tree.root_doc_id == Some(entry.id) {
        " [root document]"@
    } else {
        Seq::empty()
    }
}

/// The entities of a project, one to a line.
pub open spec fn entry_lines(tree: TreeView, entries: Seq<EntryView>) -> Seq<char>
    decreases entries.len(),
{
    if entries.len() == 0 {
        Seq::empty()
    } else {
        let entry = entries.last();
        entry_lines(tree, entries.drop_last()) + entry.path + " ("@ + kind_word(entry.kind) + ")"@
            + root_mark(tree, entry) + "\n"@
    }
}

/// The list of a project's files.
pub open spec fn files_text(tree: TreeView) -> Seq<char> {
    "Project "@ + tree.project_name + " ("@ + tree.project_id + "), compiler: "@ + (
    match tree.compiler {
        Some(compiler) => compiler,
        None => "unknown"@,
    }) + "\n"@ + entry_lines(tree, entry_list(tree.nodes))
}

impl Workspace {
    /// The list of projects, where it can be given without asking the server.
    pub fn list_projects(&self) -> (text: Option<String>)
        ensures
            opt_text(text) == (if restricted(self@) {
                Some(restricted_text(self@.pinned->0))
            } else {
                None
            }),
    {
        match &self.pinned {
            Some(pinned) if !self.settings.allow_all_projects => {
                let mut text = "This server is restricted to a single project:\n".to_owned();
                push_project(&mut text, pinned);
                text.append(
                    "Omit the `project` parameter in tool calls; other projects are not accessible.\n",
                );
                Some(text)
            },
            _ => None,
        }
    }

    /// Takes in the projects that were listed anew, and lists them.
    pub fn projects_listed(&mut self, fresh: Vec<ProjectInfo>) -> (text: String)
        ensures
            text@ == projects_text(old(self)@.endpoint, project_views(fresh@)),
            final(self)@ == (WorkspaceView { projects: project_views(fresh@), ..old(self)@ }),
    {
        let ghost all = project_views(fresh@);
        let mut text = String::new();
        push_decimal(&mut text, fresh.len() as u64);
        assert(text@ =~= decimal(all.len()));
        text.append(" projects on ");
        text.append(self.endpoint.as_str());
        text.append(":\n");
        let ghost head = text@;
        let mut i: usize = 0;
        assert(all.take(0) =~= Seq::<ProjectView>::empty());
        assert(head + project_lines(all.take(0)) =~= head);
        while i < fresh.len()
            invariant
                i <= fresh@.len(),
                all == project_views(fresh@),
                text@ == head + project_lines(all.take(i as int)),
            decreases fresh@.len() - i,
        {
            assert(all.take(i + 1).drop_last() =~= all.take(i as int));
            assert(all.take(i + 1).last() == fresh@[i as int]@);
            push_project(&mut text, &fresh[i]);
            assert(text@ =~= head + project_lines(all.take(i + 1)));
            i += 1;
        }
        assert(all.take(fresh@.len() as int) =~= all);
        self.projects = fresh;
        text
    }
}

/// The list of a project's files.
pub fn list_files(tree: &ProjectTree) -> (text: String)
    ensures
        text@ == files_text(tree@),
{
    let mut text = concat("Project ", tree.project_name.as_str());
    text.append(" (");
    text.append(tree.project_id.as_str());
    text.append("), compiler: ");
    match &tree.compiler {
        Some(compiler) => text.append(compiler.as_str()),
        None => text.append("unknown"),
    }
    text.append("\n");
    let ghost head = text@;
    let entries = tree.entries();
    let ghost all = entry_views(entries@);
    let mut i: usize = 0;
    assert(all.take(0) =~= Seq::<EntryView>::empty());
    assert(head + entry_lines(tree@, all.take(0)) =~= head);
    while i < entries.len()
        invariant
            i <= entries@.len(),
            all == entry_views(entries@),
            text@ == head + entry_lines(tree@, all.take(i as int)),
        decreases entries@.len() - i,
    {
        assert(all.take(i + 1).drop_last() =~= all.take(i as int));
        let entry = &entries[i];
        let ghost shown = all[i as int];
        let root = match &tree.root_doc_id {
            Some(root) => entry.1 == EntityKind::Doc && same_text(root.as_str(), entry.2.as_str()),
            None => false,
        };
        let ghost before = text@;
        text.append(entry.0.as_str());
        text.append(" (");
        text.append(entry.1.describe());
        text.append(")");
        if root {
            text.append(" [root document]");
        }
        text.append("\n");
        assert(text@ =~= before + (shown.path + " ("@ + kind_word(shown.kind) + ")"@ + root_mark(
            tree@,
            shown,
        ) + "\n"@));
        assert(text@ =~= head + entry_lines(tree@, all.take(i + 1)));
        i += 1;
    }
    assert(all.take(entries@.len() as int) =~= all);
    text
}

// --- reading -------------------------------------------------------------

/// What reading a path comes to.
#[derive(Debug)]
pub enum ReadPlan {
    /// The doc has to be read.
    Doc(String),
    /// All is said.
    Said(String),
}

/// What reading a path comes to, as plain values.
pub enum ReadPlanView {
    Doc(Seq<char>),
    Said(Seq<char>),
}

/// A plan, or the error in its place, as plain values.
pub open spec fn read_result(res: Result<ReadPlan>) -> core::result::Result<
    ReadPlanView,
    ErrorView,
> {
    match res {
        Ok(ReadPlan::Doc(id)) => Ok(ReadPlanView::Doc(id@)),
        Ok(ReadPlan::Said(text)) => Ok(ReadPlanView::Said(text@)),
        Err(e) => Err(e@),
    }
}

/// What reading a path comes to.
pub open spec fn reading(loc: LocatedView) -> core::result::Result<ReadPlanView, ErrorView> {
    match loc.entity {
        Some((id, EntityKind::Doc)) => Ok(ReadPlanView::Doc(id)),
        Some((_, EntityKind::File)) => Ok(
            ReadPlanView::Said(
                loc.path + " is a binary file; use download_file to save it locally."@,
            ),
        ),
        Some((_, EntityKind::Folder)) => Err(
            ErrorView::Edit(loc.path + " is a folder; use list_files"@),
        ),
        None => Err(nothing_there(loc)),
    }
}

/// The first line to show.
pub open spec fn offset_or_one(offset: Option<usize>) -> nat {
    match offset {
        Some(offset) => offset as nat,
        None => 1,
    }
}

/// A doc as it is shown.
pub open spec fn read_text(
    path: Seq<char>,
    content: Seq<char>,
    version: int,
    offset: Option<usize>,
    limit: Option<usize>,
) -> Seq<char> {
    path + " (doc, version "@ + signed_decimal(version) + ", "@ + decimal(line_count(content))
        + " lines)\n"@ + numbered(content, offset_or_one(offset), limit)
}

impl Located {
    /// What reading this path comes to.
    pub fn read_plan(&self) -> (plan: Result<ReadPlan>)
        ensures
            read_result(plan) == reading(self@),
    {
        match &self.entity {
            Some((id, EntityKind::Doc)) => Ok(ReadPlan::Doc(id.clone())),
            Some((_, EntityKind::File)) => Ok(
                ReadPlan::Said(
                    concat(
                        self.path.as_str(),
                        " is a binary file; use download_file to save it locally.",
                    ),
                ),
            ),
            Some((_, EntityKind::Folder)) => Err(
                OverleafError::Edit(concat(self.path.as_str(), " is a folder; use list_files")),
            ),
            None => Err(self.nothing()),
        }
    }
}

impl Workspace {
    /// Takes in a doc that was read, and shows it.
    pub fn read_file(
        &mut self,
        loc: &Located,
        content: &str,
        version: i64,
        offset: Option<usize>,
        limit: Option<usize>,
    ) -> (text: String)
        ensures
            text@ == read_text(loc@.path, content@, version as int, offset, limit),
            final(self)@ == with_read(old(self)@, loc@, content@),
    {
        self.reads.stamp_read(loc.project.id.as_str(), loc.path.as_str(), content);
        let first: usize = match offset {
            Some(offset) => offset,
            None => 1,
        };
        let (body, total) = render_numbered(content, first, limit);
        let mut text = concat(loc.path.as_str(), " (doc, version ");
        push_signed(&mut text, version);
        text.append(", ");
        push_decimal(&mut text, total as u64);
        text.append(" lines)\n");
        text.append(body.as_str());
        text
    }
}

/// What looking at a path comes to.
#[derive(Debug)]
pub enum StatPlan {
    /// The doc has to be read.
    Doc(String),
    /// The size of the file has to be asked for.
    File(String),
    /// All is said.
    Said(String),
}

/// What looking at a path comes to, as plain values.
pub enum StatPlanView {
    Doc(Seq<char>),
    File(Seq<char>),
    Said(Seq<char>),
}

/// A plan, or the error in its place, as plain values.
pub open spec fn stat_result(res: Result<StatPlan>) -> core::result::Result<
    StatPlanView,
    ErrorView,
> {
    match res {
        Ok(StatPlan::Doc(id)) => Ok(StatPlanView::Doc(id@)),
        Ok(StatPlan::File(id)) => Ok(StatPlanView::File(id@)),
        Ok(StatPlan::Said(text)) => Ok(StatPlanView::Said(text@)),
        Err(e) => Err(e@),
    }
}

/// What the paths below a folder begin with.
pub open spec fn below_prefix(path: Seq<char>) -> Seq<char> {
    if path == "/"@ {
        "/"@
    } else {
        path + "/"@
    }
}

/// How many entities of a kind have a path that begins with a prefix.
pub open spec fn count_below(entries: Seq<EntryView>, prefix: Seq<char>, kind: EntityKind) -> nat
    decreases entries.len(),
{
    if entries.len() == 0 {
        0
    } else {
        count_below(entries.drop_last(), prefix, kind) + if entries.last().kind == kind
            && begins_with(entries.last().path, prefix) {
            1nat
        } else {
            0nat
        }
    }
}

/// What is said of a folder.
pub open spec fn folder_text(loc: LocatedView) -> Seq<char> {
    let entries = entry_list(loc.tree.nodes);
    let prefix = below_prefix(loc.path);
    loc.path + ": folder containing "@ + decimal(count_below(entries, prefix, EntityKind::Doc))
        + " doc(s), "@ + decimal(count_below(entries, prefix, EntityKind::File))
        + " binary file(s), "@ + decimal(count_below(entries, prefix, EntityKind::Folder))
        + " subfolder(s)"@
}

/// What looking at a path comes to. The root folder stands for the whole
/// project.
pub open spec fn statting(loc: LocatedView) -> core::result::Result<StatPlanView, ErrorView> {
    if loc.path == "/"@ {
        Ok(StatPlanView::Said(folder_text(loc)))
    } else {
        match loc.entity {
            Some((id, EntityKind::Doc)) => Ok(StatPlanView::Doc(id)),
            Some((id, EntityKind::File)) => Ok(StatPlanView::File(id)),
            Some((_, EntityKind::Folder)) => Ok(StatPlanView::Said(folder_text(loc))),
            None => Err(nothing_there(loc)),
        }
    }
}

/// What is said of a doc.
pub open spec fn doc_text(path: Seq<char>, content: Seq<char>, version: int) -> Seq<char> {
    path + ": doc, version "@ + signed_decimal(version) + ", "@ + decimal(line_count(content))
        + " lines, "@ + decimal(utf8_size(content)) + " bytes"@
}

/// What is said of a binary file.
pub open spec fn binary_text(path: Seq<char>, size: Option<u64>) -> Seq<char> {
    path + ": binary file, "@ + (match size {
        Some(size) => decimal(size as nat) + " bytes"@,
        None => "size unknown"@,
    })
}

impl Located {
    fn describe_folder(&self) -> (text: String)
        ensures
            text@ == folder_text(self@),
    {
        let prefix = if same_text(self.path.as_str(), "/") {
            "/".to_owned()
        } else {
            concat(self.path.as_str(), "/")
        };
        let entries = self.tree.entries();
        let ghost all = entry_views(entries@);
        let ghost start = below_prefix(self@.path);
        let mut docs: usize = 0;
        let mut files: usize = 0;
        let mut folders: usize = 0;
        let mut i: usize = 0;
        assert(all.take(0) =~= Seq::<EntryView>::empty());
        while i < entries.len()
            invariant
                i <= entries@.len(),
                all == entry_views(entries@),
                prefix@ == start,
                docs == count_below(all.take(i as int), start, EntityKind::Doc),
                files == count_below(all.take(i as int), start, EntityKind::File),
                folders == count_below(all.take(i as int), start, EntityKind::Folder),
                docs <= i,
                files <= i,
                folders <= i,
            decreases entries@.len() - i,
        {
            assert(all.take(i + 1).drop_last() =~= all.take(i as int));
            if starts_with(entries[i].0.as_str(), prefix.as_str()) {
                match entries[i].1 {
                    EntityKind::Doc => {
                        docs += 1;
                    },
                    EntityKind::File => {
                        files += 1;
                    },
                    EntityKind::Folder => {
                        folders += 1;
                    },
                }
            }
            i += 1;
        }
        assert(all.take(entries@.len() as int) =~= all);
        let mut text = concat(self.path.as_str(), ": folder containing ");
        push_decimal(&mut text, docs as u64);
        text.append(" doc(s), ");
        push_decimal(&mut text, files as u64);
        text.append(" binary file(s), ");
        push_decimal(&mut text, folders as u64);
        text.append(" subfolder(s)");
        text
    }

    /// What looking at this path comes to. This does not count as reading.
    pub fn stat_plan(&self) -> (plan: Result<StatPlan>)
        ensures
            stat_result(plan) == statting(self@),
    {
        if same_text(self.path.as_str(), "/") {
            return Ok(StatPlan::Said(self.describe_folder()));
        }
        match &self.entity {
            Some((id, EntityKind::Doc)) => Ok(StatPlan::Doc(id.clone())),
            Some((id, EntityKind::File)) => Ok(StatPlan::File(id.clone())),
            Some((_, EntityKind::Folder)) => Ok(StatPlan::Said(self.describe_folder())),
            None => Err(self.nothing()),
        }
    }

    /// What is said of a doc.
    pub fn stat_doc(&self, content: &str, version: i64) -> (text: String)
        ensures
            text@ == doc_text(self@.path, content@, version as int),
    {
        let mut text = concat(self.path.as_str(), ": doc, version ");
        push_signed(&mut text, version);
        text.append(", ");
        push_decimal(&mut text, count_lines(content) as u64);
        text.append(" lines, ");
        push_decimal(&mut text, byte_len(content) as u64);
        text.append(" bytes");
        text
    }

    /// What is said of a binary file.
    pub fn stat_binary(&self, size: Option<u64>) -> (text: String)
        ensures
            text@ == binary_text(self@.path, size),
    {
        let mut text = concat(self.path.as_str(), ": binary file, ");
        let ghost head = text@;
        match size {
            Some(size) => {
                push_decimal(&mut text, size);
                text.append(" bytes");
            },
            None => {
                text.append("size unknown");
            },
        }
        assert(text@ =~= binary_text(self@.path, size));
        text
    }
}

// --- editing -------------------------------------------------------------

/// Whether a replacement can be asked for at all.
pub open spec fn edit_check(old: Seq<char>, new: Seq<char>) -> core::result::Result<(), ErrorView> {
    if old.len() == 0 {
        Err(ErrorView::Edit("old_string must not be empty"@))
    } else if old == new {
        Err(ErrorView::Edit("old_string and new_string are identical"@))
    } else {
        bmp_check(new, "new_string"@)
    }
}

/// The doc to edit, with its content as it was read last. A file has to be read
/// before it is edited.
pub open spec fn edit_target(ws: WorkspaceView, loc: LocatedView) -> core::result::Result<
    (Seq<char>, Seq<char>),
    ErrorView,
> {
    match loc.entity {
        None => Err(nothing_there(loc)),
        Some((id, EntityKind::Doc)) => match last_read(ws, loc) {
            Some(content) => Ok((id, content)),
            None => Err(
                ErrorView::Edit(
                    loc.path + " has not been read in this session; call read_file first"@,
                ),
            ),
        },
        Some((_, kind)) => Err(
            ErrorView::Edit(loc.path + " is a "@ + kind_word(kind) + ", not an editable doc"@),
        ),
    }
}

/// A number as a machine integer; the largest one where it does not fit.
pub open spec fn clipped(n: nat) -> usize {
    if n <= usize::MAX {
        n as usize
    } else {
        usize::MAX
    }
}

/// The place to show after an edit: the offset of the first replacement, or the
/// end of a shorter text.
pub open spec fn shown_offset(content: Seq<char>, first_offset: nat) -> nat {
    if first_offset < utf8_size(content) {
        first_offset
    } else {
        utf8_size(content)
    }
}

/// The number of line ends before the first replacement.
pub open spec fn lines_before(content: Seq<char>, first_offset: nat) -> nat {
    count_of(
        content.take(char_of_byte(content, shown_offset(content, first_offset) as int)),
        '\n',
    )
}

/// The lines around an edit: three before it, as many as the new text has, and
/// some behind.
pub open spec fn snippet(content: Seq<char>, first_offset: nat, new: Seq<char>) -> Seq<char> {
    let before = lines_before(content, first_offset);
    numbered(
        content,
        if before >= 3 {
            (before - 2) as nat
        } else {
            1
        },
        Some(clipped(count_of(new, '\n') + 7)),
    )
}

/// A range of lines as it is shown.
pub open spec fn range_text(from: int, to: int) -> Seq<char> {
    if to > from {
        "s "@ + decimal(from as nat) + "-"@ + decimal(to as nat)
    } else {
        " "@ + decimal(from as nat)
    }
}

/// The note on what others changed since the last reading.
pub open spec fn drift_text(path: Seq<char>, range: Option<(int, int)>) -> Seq<char> {
    match range {
        None => Seq::empty(),
        Some((from, to)) => "\nNote: other collaborators edited "@ + path
            + " since your last read (around line"@ + range_text(from, to)
            + " of the current content). Your edit was applied, but call read_file to see their changes before editing further.\n"@,
    }
}

/// The report on an edit.
pub open spec fn edited_text(
    path: Seq<char>,
    outcome: OutcomeView,
    match_count: nat,
    first_offset: nat,
    new: Seq<char>,
    range: Option<(int, int)>,
) -> Seq<char> {
    "Replaced "@ + decimal(match_count) + " occurrence(s) in "@ + path + " (now version "@
        + signed_decimal(outcome.version) + ").\n"@ + snippet(outcome.content, first_offset, new)
        + drift_text(path, range)
}

/// The state after an edit: the file counts as read only when nobody else had
/// changed it since the last reading.
pub open spec fn after_edit(
    ws: WorkspaceView,
    loc: LocatedView,
    read: Seq<char>,
    found: Seq<char>,
    content: Seq<char>,
) -> WorkspaceView {
    if read == found {
        with_read(ws, loc, content)
    } else {
        ws
    }
}

/// An edit of a doc that others changed leaves the last reading as it was, so
/// that the next edit notes the change again.
pub proof fn changes_by_others_stay_noted(
    ws: WorkspaceView,
    loc: LocatedView,
    read: Seq<char>,
    found: Seq<char>,
    content: Seq<char>,
)
    requires
        last_read(ws, loc) == Some(read),
        read != found,
    ensures
        last_read(after_edit(ws, loc, read, found, content), loc) == Some(read),
        drift(read, found) is Some,
{
}

/// The first replacement begins at the same place before and after an edit, so
/// that the report always finds its place.
pub proof fn first_replacement_keeps_its_place(content: Seq<char>, old: Seq<char>, new: Seq<char>)
    requires
        old.len() > 0,
        match_starts(content, old, 0).len() > 0,
    ensures
        ({
            let after = with_replaced(content, old, new, 0);
            let start = match_starts(content, old, 0)[0];
            let offset = byte_at(content, start);
            &&& 0 <= start <= content.len()
            &&& start <= after.len()
            &&& after.take(start) == content.take(start)
            &&& on_boundary(after, offset as int)
            &&& on_boundary(after, shown_offset(after, offset) as int)
        }),
{
    lemma_prefix_stays(content, old, new, 0);
    let after = with_replaced(content, old, new, 0);
    let start = match_starts(content, old, 0)[0];
    let offset = byte_at(content, start);
    assert(content.skip(0) =~= content);
    assert(after.take(start) =~= content.take(start));
    assert(byte_at(after, start) == offset);
    assert(byte_at(after, after.len() as int) == utf8_size(after)) by {
        assert(after.take(after.len() as int) =~= after);
    }
}

proof fn lemma_prefix_stays(content: Seq<char>, old: Seq<char>, new: Seq<char>, from: int)
    requires
        old.len() > 0,
        0 <= from <= content.len(),
        match_starts(content, old, from).len() > 0,
    ensures
        from <= match_starts(content, old, from)[0] <= content.len(),
        ({
            let start = match_starts(content, old, from)[0];
            let after = with_replaced(content, old, new, from);
            &&& start - from <= after.len()
            &&& after.take(start - from) == content.subrange(from, start)
        }),
    decreases content.len() - from,
{
    if from + old.len() <= content.len() && !occurs_at(content, old, from) {
        lemma_prefix_stays(content, old, new, from + 1);
        let start = match_starts(content, old, from)[0];
        let after = with_replaced(content, old, new, from);
        let rest = with_replaced(content, old, new, from + 1);
        assert(after.take(start - from) =~= seq![content[from]] + rest.take(start - from - 1));
        assert(content.subrange(from, start) =~= seq![content[from]] + content.subrange(
            from + 1,
            start,
        ));
    } else {
        let after = with_replaced(content, old, new, from);
        assert(after.take(0) =~= content.subrange(from, from));
    }
}

/// A doc with its content, or the error in their place, as plain values.
pub open spec fn edit_target_result(res: Result<(String, String)>) -> core::result::Result<
    (Seq<char>, Seq<char>),
    ErrorView,
> {
    match res {
        Ok((id, content)) => Ok((id@, content@)),
        Err(e) => Err(e@),
    }
}

/// Tells whether a replacement can be asked for at all.
pub fn check_edit(old_string: &str, new_string: &str) -> (res: Result<()>)
    ensures
        unit_result(res) == edit_check(old_string@, new_string@),
{
    if old_string.is_empty() {
        return Err(OverleafError::Edit("old_string must not be empty".to_owned()));
    }
    if same_text(old_string, new_string) {
        return Err(OverleafError::Edit("old_string and new_string are identical".to_owned()));
    }
    reject_non_bmp(new_string, "new_string")
}

fn newlines_in(text: &str) -> (n: usize)
    ensures
        n == count_of(text@, '\n'),
{
    let t = chars_of(text);
    let len: usize = t.len();
    assert(t@.take(len as int) =~= t@);
    count_before(t.as_slice(), len, '\n')
}

fn push_drift(out: &mut String, path: &str, range: Option<(usize, usize)>)
    ensures
        final(out)@ == old(out)@ + drift_text(
            path@,
            match range {
                Some(r) => Some((r.0 as int, r.1 as int)),
                None => None,
            },
        ),
{
    let ghost before = out@;
    match range {
        None => {
            assert(before + Seq::<char>::empty() =~= before);
        },
        Some((from, to)) => {
            out.append("\nNote: other collaborators edited ");
            out.append(path);
            out.append(" since your last read (around line");
            let ghost head = out@;
            if to > from {
                out.append("s ");
                push_decimal(out, from as u64);
                out.append("-");
                push_decimal(out, to as u64);
            } else {
                out.append(" ");
                push_decimal(out, from as u64);
            }
            assert(out@ =~= head + range_text(from as int, to as int));
            out.append(
                " of the current content). Your edit was applied, but call read_file to see their changes before editing further.\n",
            );
            assert(out@ =~= before + drift_text(path@, Some((from as int, to as int))));
        },
    }
}

impl Workspace {
    fn last_read_of(&self, loc: &Located) -> (content: Option<String>)
        ensures
            opt_text(content) == last_read(self@, loc@),
    {
        self.reads.read_stamp(loc.project.id.as_str(), loc.path.as_str())
    }

    fn remember(&mut self, loc: &Located, content: &str)
        ensures
            final(self)@ == with_read(old(self)@, loc@, content@),
    {
        self.reads.stamp_read(loc.project.id.as_str(), loc.path.as_str(), content);
    }

    /// The doc to edit, with its content as it was read last.
    pub fn edit_target(&self, loc: &Located) -> (res: Result<(String, String)>)
        ensures
            edit_target_result(res) == edit_target(self@, loc@),
    {
        match &loc.entity {
            None => Err(loc.nothing()),
            Some((id, EntityKind::Doc)) => match self.last_read_of(loc) {
                Some(content) => Ok((id.clone(), content)),
                None => Err(
                    OverleafError::Edit(
                        concat(
                            loc.path.as_str(),
                            " has not been read in this session; call read_file first",
                        ),
                    ),
                ),
            },
            Some((_, kind)) => {
                let mut text = concat(loc.path.as_str(), " is a ");
                text.append(kind.describe());
                text.append(", not an editable doc");
                Err(OverleafError::Edit(text))
            },
        }
    }

    /// Takes in a confirmed edit, and reports it. `last_read` is the content as
    /// it was read before the edit, `found` the content that the edit was made
    /// for.
    pub fn edit_file(
        &mut self,
        loc: &Located,
        last_read: &str,
        found: &str,
        outcome: &EditOutcome,
        match_count: usize,
        first_offset: usize,
        new_string: &str,
    ) -> (text: String)
        requires
            on_boundary(
                outcome@.content,
                shown_offset(outcome@.content, first_offset as nat) as int,
            ),
        ensures
            text@ == edited_text(
                loc@.path,
                outcome@,
                match_count as nat,
                first_offset as nat,
                new_string@,
                drift(last_read@, found@),
            ),
            final(self)@ == after_edit(
                old(self)@,
                loc@,
                last_read@,
                found@,
                outcome@.content,
            ),
    {
        let range = changed_line_range(last_read, found);
        if range.is_none() {
            self.remember(loc, outcome.content.as_str());
        }
        let content = outcome.content.as_str();
        let size: usize = byte_len(content);
        let offset: usize = if first_offset < size {
            first_offset
        } else {
            size
        };
        let (head, _) = cut(content, offset);
        let before: usize = newlines_in(head);
        let from: usize = if before >= 3 {
            before - 2
        } else {
            1
        };
        let span: usize = newlines_in(new_string);
        let limit: usize = if span <= usize::MAX - 7 {
            span + 7
        } else {
            usize::MAX
        };
        let (body, _) = render_numbered(content, from, Some(limit));
        let mut text = "Replaced ".to_owned();
        push_decimal(&mut text, match_count as u64);
        text.append(" occurrence(s) in ");
        text.append(loc.path.as_str());
        text.append(" (now version ");
        push_signed(&mut text, outcome.version);
        text.append(").\n");
        text.append(body.as_str());
        push_drift(&mut text, loc.path.as_str(), range);
        text
    }
}

// --- writing -------------------------------------------------------------

/// What writing to a path comes to.
#[derive(Debug)]
pub enum WritePlan {
    /// The doc has to be read and overwritten.
    Overwrite(String),
    /// The doc has to be created.
    Create { folder: String, name: String },
}

/// What writing to a path comes to, as plain values.
pub enum WritePlanView {
    Overwrite(Seq<char>),
    Create { folder: Seq<char>, name: Seq<char> },
}

/// A plan, or the error in its place, as plain values.
pub open spec fn write_result(res: Result<WritePlan>) -> core::result::Result<
    WritePlanView,
    ErrorView,
> {
    match res {
        Ok(WritePlan::Overwrite(id)) => Ok(WritePlanView::Overwrite(id@)),
        Ok(WritePlan::Create { folder, name }) => Ok(
            WritePlanView::Create { folder: folder@, name: name@ },
        ),
        Err(e) => Err(e@),
    }
}

/// What writing to a path comes to.
pub open spec fn writing(loc: LocatedView) -> core::result::Result<WritePlanView, ErrorView> {
    match loc.entity {
        Some((id, EntityKind::Doc)) => Ok(WritePlanView::Overwrite(id)),
        Some((_, kind)) => Err(
            ErrorView::Edit(
                loc.path + " is a "@ + kind_word(kind)
                    + "; write_file only handles docs (use upload_file for binary assets)"@,
            ),
        ),
        None => match new_place(loc) {
            Ok((folder, name)) => Ok(WritePlanView::Create { folder, name }),
            Err(e) => Err(e),
        },
    }
}

/// Whether a doc may be overwritten: it was read since its last change.
pub open spec fn overwrite_check(
    ws: WorkspaceView,
    loc: LocatedView,
    current: Seq<char>,
) -> core::result::Result<(), ErrorView> {
    if last_read(ws, loc) == Some(current) {
        Ok(())
    } else {
        Err(
            ErrorView::Edit(
                loc.path
                    + " was not read since its last change; call read_file first and merge your changes"@,
            ),
        )
    }
}

/// The number of lines and the version of a doc that was written.
pub open spec fn written_text(outcome: OutcomeView) -> Seq<char> {
    " ("@ + decimal(line_count(outcome.content)) + " lines, version "@ + signed_decimal(
        outcome.version,
    ) + ")."@
}

/// The report on an overwritten doc.
pub open spec fn overwritten_text(path: Seq<char>, outcome: OutcomeView) -> Seq<char> {
    if outcome.changed {
        "Overwrote "@ + path + written_text(outcome)
    } else {
        path + " already had this content."@
    }
}

/// A doc may be overwritten right after it was read, and not after it changed
/// since.
pub proof fn overwriting_takes_a_fresh_reading(
    ws: WorkspaceView,
    loc: LocatedView,
    read: Seq<char>,
    current: Seq<char>,
)
    ensures
        overwrite_check(with_read(ws, loc, read), loc, current) is Ok <==> read == current,
{
}

/// After what was read below a path is forgotten, nothing there can be
/// overwritten or edited before it is read again.
pub proof fn forgotten_files_have_to_be_read_again(
    ws: WorkspaceView,
    loc: LocatedView,
    current: Seq<char>,
)
    ensures
        last_read(without_reads(ws, loc), loc) is None,
        overwrite_check(without_reads(ws, loc), loc, current) is Err,
        edit_target(without_reads(ws, loc), loc) is Err,
{
}

impl Located {
    /// What writing to this path comes to.
    pub fn write_plan(&self) -> (plan: Result<WritePlan>)
        ensures
            write_result(plan) == writing(self@),
    {
        match &self.entity {
            Some((id, EntityKind::Doc)) => Ok(WritePlan::Overwrite(id.clone())),
            Some((_, kind)) => {
                let mut text = concat(self.path.as_str(), " is a ");
                text.append(kind.describe());
                text.append("; write_file only handles docs (use upload_file for binary assets)");
                Err(OverleafError::Edit(text))
            },
            None => match self.place() {
                Ok((folder, name)) => Ok(WritePlan::Create { folder, name }),
                Err(e) => Err(e),
            },
        }
    }
}

/// Tells whether a content can be written at all.
pub fn check_write(content: &str) -> (res: Result<()>)
    ensures
        unit_result(res) == bmp_check(content@, "content"@),
{
    reject_non_bmp(content, "content")
}

fn push_written(out: &mut String, outcome: &EditOutcome)
    ensures
        final(out)@ == old(out)@ + written_text(outcome@),
{
    let ghost before = out@;
    out.append(" (");
    push_decimal(out, count_lines(outcome.content.as_str()) as u64);
    out.append(" lines, version ");
    push_signed(out, outcome.version);
    out.append(").");
    assert(out@ =~= before + written_text(outcome@));
}

impl Workspace {
    /// Tells whether a doc may be overwritten.
    pub fn check_overwrite(&self, loc: &Located, current: &str) -> (res: Result<()>)
        ensures
            unit_result(res) == overwrite_check(self@, loc@, current@),
    {
        let fresh = match self.last_read_of(loc) {
            Some(read) => same_text(read.as_str(), current),
            None => false,
        };
        if fresh {
            return Ok(());
        }
        Err(
            OverleafError::Edit(
                concat(
                    loc.path.as_str(),
                    " was not read since its last change; call read_file first and merge your changes",
                ),
            ),
        )
    }

    /// Takes in an overwritten doc, and reports it.
    pub fn write_file(&mut self, loc: &Located, outcome: &EditOutcome) -> (text: String)
        ensures
            text@ == overwritten_text(loc@.path, outcome@),
            final(self)@ == with_read(old(self)@, loc@, outcome@.content),
    {
        self.remember(loc, outcome.content.as_str());
        if outcome.changed {
            let mut text = concat("Overwrote ", loc.path.as_str());
            push_written(&mut text, outcome);
            text
        } else {
            concat(loc.path.as_str(), " already had this content.")
        }
    }

    /// Takes in a doc that was created and filled, and reports it.
    pub fn write_new_file(&mut self, loc: &Located, outcome: &EditOutcome) -> (text: String)
        ensures
            text@ == "Created "@ + loc@.path + written_text(outcome@),
            final(self)@ == with_read(old(self)@, loc@, outcome@.content),
    {
        self.remember(loc, outcome.content.as_str());
        let mut text = concat("Created ", loc.path.as_str());
        push_written(&mut text, outcome);
        text
    }
}

// --- managing files ------------------------------------------------------

/// The name that an entity may be given: a plain name without slashes.
pub open spec fn new_name_check(name: Seq<char>) -> core::result::Result<Seq<char>, ErrorView> {
    if name.contains('/') || trimmed(name).len() == 0 {
        Err(ErrorView::Edit("new_name must be a plain name without slashes"@))
    } else {
        Ok(trimmed(name))
    }
}

/// Tells whether an entity may be given a name, and gives it without white
/// space around it.
pub fn check_new_name(new_name: &str) -> (res: Result<String>)
    ensures
        text_result(res) == new_name_check(new_name@),
{
    let name = trim(new_name);
    if contains_char(new_name, '/') || name.as_str().is_empty() {
        return Err(
            OverleafError::Edit("new_name must be a plain name without slashes".to_owned()),
        );
    }
    Ok(name)
}

/// The kind of entity that an upload made.
pub open spec fn uploaded_kind(answer: UploadResponse) -> EntityKind {
    match opt_text(answer.entity_type) {
        Some(kind) => if kind == "doc"@ {
            EntityKind::Doc
        } else if kind == "folder"@ {
            EntityKind::Folder
        } else {
            EntityKind::File
        },
        None => EntityKind::File,
    }
}

/// The kind of entity that an upload made.
pub fn kind_of_upload(answer: &UploadResponse) -> (kind: EntityKind)
    ensures
        kind == uploaded_kind(*answer),
{
    match &answer.entity_type {
        Some(kind) => if same_text(kind.as_str(), "doc") {
            EntityKind::Doc
        } else if same_text(kind.as_str(), "folder") {
            EntityKind::Folder
        } else {
            EntityKind::File
        },
        None => EntityKind::File,
    }
}

/// What can be saved locally: docs and files.
pub open spec fn download_target(loc: LocatedView) -> core::result::Result<
    (Seq<char>, EntityKind),
    ErrorView,
> {
    match loc.entity {
        None => Err(nothing_there(loc)),
        Some((_, EntityKind::Folder)) => Err(
            ErrorView::Edit(loc.path + " is a folder; download files individually"@),
        ),
        Some(entity) => Ok(entity),
    }
}

/// The report on something that was saved locally.
pub open spec fn saved_text(what: Seq<char>, size: nat, local_path: Seq<char>) -> Seq<char> {
    "Saved "@ + what + " ("@ + decimal(size) + " bytes) to "@ + local_path + "."@
}

/// The report on something that was saved locally.
pub fn report_saved(what: &str, size: usize, local_path: &str) -> (text: String)
    ensures
        text@ == saved_text(what@, size as nat, local_path@),
{
    let mut text = concat("Saved ", what);
    text.append(" (");
    push_decimal(&mut text, size as u64);
    text.append(" bytes) to ");
    text.append(local_path);
    text.append(".");
    text
}

impl Located {
    /// What can be saved locally.
    pub fn download_file(&self) -> (res: Result<(String, EntityKind)>)
        ensures
            entity_result(res) == download_target(self@),
    {
        match &self.entity {
            None => Err(self.nothing()),
            Some((_, EntityKind::Folder)) => Err(
                OverleafError::Edit(
                    concat(self.path.as_str(), " is a folder; download files individually"),
                ),
            ),
            Some((id, kind)) => Ok((id.clone(), *kind)),
        }
    }

    /// The report on a folder that exists now.
    pub fn create_folder(&self, folder_id: &str) -> (text: String)
        ensures
            text@ == "Folder "@ + self@.path + " ready (id "@ + folder_id@ + ")."@,
    {
        let mut text = concat("Folder ", self.path.as_str());
        text.append(" ready (id ");
        text.append(folder_id);
        text.append(").");
        text
    }
}

impl Workspace {
    fn forget(&mut self, loc: &Located)
        ensures
            final(self)@ == without_reads(old(self)@, loc@),
    {
        self.reads.drop_stamps_under(loc.project.id.as_str(), loc.path.as_str());
    }

    /// Takes in that an entity was deleted, and reports it.
    pub fn delete_entity(&mut self, loc: &Located, kind: EntityKind) -> (text: String)
        ensures
            text@ == "Deleted "@ + kind_word(kind) + " "@ + loc@.path + "."@,
            final(self)@ == without_reads(old(self)@, loc@),
    {
        self.forget(loc);
        let mut text = concat("Deleted ", kind.describe());
        text.append(" ");
        text.append(loc.path.as_str());
        text.append(".");
        text
    }

    /// Takes in that an entity was renamed, and reports it.
    pub fn rename_entity(&mut self, loc: &Located, kind: EntityKind, new_name: &str) -> (text:
        String)
        ensures
            text@ == "Renamed "@ + kind_word(kind) + " "@ + loc@.path + " to "@ + new_name@ + "."@,
            final(self)@ == without_reads(old(self)@, loc@),
    {
        self.forget(loc);
        let mut text = concat("Renamed ", kind.describe());
        text.append(" ");
        text.append(loc.path.as_str());
        text.append(" to ");
        text.append(new_name);
        text.append(".");
        text
    }

    /// Takes in that an entity was moved, and reports it.
    pub fn move_entity(&mut self, loc: &Located, kind: EntityKind, target_folder: &str) -> (text:
        String)
        ensures
            text@ == "Moved "@ + kind_word(kind) + " "@ + loc@.path + " into "@ + normalized(
                target_folder@,
            ) + "."@,
            final(self)@ == without_reads(old(self)@, loc@),
    {
        self.forget(loc);
        let mut text = concat("Moved ", kind.describe());
        text.append(" ");
        text.append(loc.path.as_str());
        text.append(" into ");
        text.append(ProjectTree::normalize_path(target_folder).as_str());
        text.append(".");
        text
    }

    /// Takes in that a file was uploaded, and reports it.
    pub fn upload_file(&mut self, loc: &Located, size: usize, kind: EntityKind) -> (text: String)
        ensures
            text@ == "Uploaded "@ + decimal(size as nat) + " bytes to "@ + loc@.path + " as a "@
                + kind_word(kind) + "."@,
            final(self)@ == without_reads(old(self)@, loc@),
    {
        self.forget(loc);
        let mut text = "Uploaded ".to_owned();
        push_decimal(&mut text, size as u64);
        text.append(" bytes to ");
        text.append(loc.path.as_str());
        text.append(" as a ");
        text.append(kind.describe());
        text.append(".");
        text
    }
}

// --- labels --------------------------------------------------------------

/// The comment that a label may have.
pub open spec fn comment_check(comment: Seq<char>) -> core::result::Result<Seq<char>, ErrorView> {
    if trimmed(comment).len() == 0 {
        Err(ErrorView::Edit("label comment must not be empty"@))
    } else {
        Ok(trimmed(comment))
    }
}

/// Tells whether a label may have a comment, and gives it without white space
/// around it.
pub fn check_comment(comment: &str) -> (res: Result<String>)
    ensures
        text_result(res) == comment_check(comment@),
{
    let text = trim(comment);
    if text.as_str().is_empty() {
        return Err(OverleafError::Edit("label comment must not be empty".to_owned()));
    }
    Ok(text)
}

// --- compiling -----------------------------------------------------------

/// The state with the record of a compile.
pub open spec fn with_compile(ws: WorkspaceView, id: Seq<char>, record: RecordView) -> WorkspaceView {
    WorkspaceView { compiles: ws.compiles.insert(id, record), ..ws }
}

/// The log of a compile as text, or why it could not be had.
pub open spec fn decoded_log(
    log: Option<core::result::Result<Vec<u8>, OverleafError>>,
) -> Option<core::result::Result<Seq<char>, ErrorView>> {
    match log {
        Some(Ok(bytes)) => Some(Ok(lossy_text(bytes@))),
        Some(Err(e)) => Some(Err(e@)),
        None => None,
    }
}

/// What is recorded of a compile.
pub open spec fn compile_record(
    response: ResponseView,
    log: Option<core::result::Result<Seq<char>, ErrorView>>,
) -> RecordView {
    RecordView {
        response,
        log: match log {
            Some(Ok(text)) => Some(text),
            _ => None,
        },
    }
}

/// The report on a compile. One that the server refused is only reported.
pub open spec fn compiled_text(
    project: Seq<char>,
    response: ResponseView,
    log: Option<core::result::Result<Seq<char>, ErrorView>>,
) -> Seq<char> {
    if rate_limited(response) {
        limited_text(project)
    } else {
        compile_text(project, response, log)
    }
}

/// The state after a compile. One that the server refused leaves the record of
/// the last compile as it was.
pub open spec fn compiled(
    ws: WorkspaceView,
    id: Seq<char>,
    response: ResponseView,
    log: Option<core::result::Result<Seq<char>, ErrorView>>,
) -> WorkspaceView {
    if rate_limited(response) {
        ws
    } else {
        with_compile(ws, id, compile_record(response, log))
    }
}

/// What a compile came to.
#[derive(Debug)]
pub enum CompilePlan {
    /// The server refused to compile so soon again.
    Refused,
    /// The log has to be got from here.
    FetchLog(OutputSource),
    /// There is no log.
    NoLog,
}

/// What a compile came to, as plain values.
pub enum CompilePlanView {
    Refused,
    FetchLog(SourceView),
    NoLog,
}

impl View for CompilePlan {
    type V = CompilePlanView;

    open spec fn view(&self) -> CompilePlanView {
        match *self {
            CompilePlan::Refused => CompilePlanView::Refused,
            CompilePlan::FetchLog(source) => CompilePlanView::FetchLog(source@),
            CompilePlan::NoLog => CompilePlanView::NoLog,
        }
    }
}

/// What a compile came to.
pub open spec fn compile_plan(response: ResponseView) -> CompilePlanView {
    if rate_limited(response) {
        CompilePlanView::Refused
    } else {
        match wanted_log(response) {
            Some(source) => CompilePlanView::FetchLog(source),
            None => CompilePlanView::NoLog,
        }
    }
}

impl CompileResponse {
    /// What this compile came to.
    pub fn plan(&self) -> (plan: CompilePlan)
        ensures
            plan@ == compile_plan(self@),
    {
        if self.is_refused() {
            return CompilePlan::Refused;
        }
        match self.source_of("output.log") {
            Some(source) => CompilePlan::FetchLog(source),
            None => CompilePlan::NoLog,
        }
    }
}

/// Where to get the log of a compile that was not refused.
pub open spec fn wanted_log(response: ResponseView) -> Option<SourceView> {
    output_source(response, "output.log"@)
}

/// The error for a project that was not compiled yet.
pub open spec fn not_compiled() -> ErrorView {
    ErrorView::Edit("no compile result for this project yet; run compile first"@)
}

/// Where the log of the last compile still has to be got, if anywhere.
pub open spec fn log_source(ws: WorkspaceView, id: Seq<char>) -> core::result::Result<
    Option<SourceView>,
    ErrorView,
> {
    if !ws.compiles.contains_key(id) {
        Err(not_compiled())
    } else if ws.compiles[id].log is Some {
        Ok(None)
    } else {
        match wanted_log(ws.compiles[id].response) {
            Some(source) => Ok(Some(source)),
            None => Err(ErrorView::NotFound("output.log in the last compile"@)),
        }
    }
}

/// The state with the log of the last compile.
pub open spec fn with_log(ws: WorkspaceView, id: Seq<char>, log: Seq<char>) -> WorkspaceView {
    if ws.compiles.contains_key(id) {
        WorkspaceView {
            compiles: ws.compiles.insert(
                id,
                RecordView { log: Some(log), ..ws.compiles[id] },
            ),
            ..ws
        }
    } else {
        ws
    }
}

/// The log of the last compile as it is shown.
pub open spec fn log_page(
    project: Seq<char>,
    status: Seq<char>,
    log: Seq<char>,
    offset: Option<usize>,
    limit: Option<usize>,
) -> Seq<char> {
    "output.log of last compile of "@ + project + " (status "@ + status + ", "@ + decimal(
        line_count(log),
    ) + " lines total)\n"@ + numbered(
        log,
        offset_or_one(offset),
        Some(
            match limit {
                Some(limit) => limit,
                None => 200,
            },
        ),
    )
}

/// A page of the log of the last compile.
pub open spec fn log_shown(
    ws: WorkspaceView,
    project: ProjectView,
    offset: Option<usize>,
    limit: Option<usize>,
) -> core::result::Result<Seq<char>, ErrorView> {
    if !ws.compiles.contains_key(project.id) {
        Err(not_compiled())
    } else {
        let record = ws.compiles[project.id];
        Ok(
            log_page(
                project.name,
                record.response.status,
                match record.log {
                    Some(log) => log,
                    None => Seq::empty(),
                },
                offset,
                limit,
            ),
        )
    }
}

/// Where to get a file of the last compile.
pub open spec fn output_target(ws: WorkspaceView, id: Seq<char>, file: Seq<char>) -> core::result::Result<
    SourceView,
    ErrorView,
> {
    if !ws.compiles.contains_key(id) {
        Err(not_compiled())
    } else {
        let response = ws.compiles[id].response;
        match output_source(response, file) {
            Some(source) => Ok(source),
            None => Err(
                ErrorView::NotFound(
                    file + " in the last compile (available: "@ + output_names(
                        response.output_files,
                    ) + ")"@,
                ),
            ),
        }
    }
}

/// A place, or the error instead, as plain values.
pub open spec fn source_result(res: Result<OutputSource>) -> core::result::Result<
    SourceView,
    ErrorView,
> {
    match res {
        Ok(source) => Ok(source@),
        Err(e) => Err(e@),
    }
}

/// An optional place, or the error instead, as plain values.
pub open spec fn opt_source_result(res: Result<Option<OutputSource>>) -> core::result::Result<
    Option<SourceView>,
    ErrorView,
> {
    match res {
        Ok(source) => Ok(opt_source(source)),
        Err(e) => Err(e@),
    }
}

/// A log that was fetched with a compile is served from memory from then on.
pub proof fn fetched_log_is_kept(
    ws: WorkspaceView,
    id: Seq<char>,
    response: ResponseView,
    log: Seq<char>,
)
    requires
        !rate_limited(response),
    ensures
        log_source(compiled(ws, id, response, Some(Ok(log))), id) == Ok::<
            Option<SourceView>,
            ErrorView,
        >(None),
        compiled(ws, id, response, Some(Ok(log))).compiles[id].log == Some(log),
{
}

/// A compile that the server refused leaves the outputs of the last one
/// reachable.
pub proof fn refused_compile_keeps_the_last_outputs(
    ws: WorkspaceView,
    id: Seq<char>,
    response: ResponseView,
    log: Option<core::result::Result<Seq<char>, ErrorView>>,
    file: Seq<char>,
)
    requires
        rate_limited(response),
    ensures
        output_target(compiled(ws, id, response, log), id, file) == output_target(ws, id, file),
        log_source(compiled(ws, id, response, log), id) == log_source(ws, id),
{
}

impl Workspace {
    /// Takes in a compile with its log as text, and reports it.
    pub fn compile_with_log(
        &mut self,
        project: &ProjectInfo,
        response: CompileResponse,
        log: Option<core::result::Result<String, OverleafError>>,
    ) -> (text: String)
        ensures
            text@ == compiled_text(project@.name, response@, log_view(log)),
            final(self)@ == compiled(old(self)@, project@.id, response@, log_view(log)),
    {
        if let Some(text) = response.refusal(project.name.as_str()) {
            return text;
        }
        let text = response.report(project.name.as_str(), &log);
        let kept = match log {
            Some(Ok(log)) => Some(log),
            _ => None,
        };
        self.compiles.insert(project.id.clone(), CompileRecord { response, log: kept });
        text
    }

    /// Takes in a compile with its log, and reports it.
    pub fn compile(
        &mut self,
        project: &ProjectInfo,
        response: CompileResponse,
        log: Option<core::result::Result<Vec<u8>, OverleafError>>,
    ) -> (text: String)
        ensures
            text@ == compiled_text(project@.name, response@, decoded_log(log)),
            final(self)@ == compiled(old(self)@, project@.id, response@, decoded_log(log)),
    {
        let log = match log {
            Some(Ok(bytes)) => Some(Ok(text_from_bytes(&bytes))),
            Some(Err(e)) => Some(Err(e)),
            None => None,
        };
        self.compile_with_log(project, response, log)
    }

    /// Where the log of the last compile still has to be got, if anywhere.
    pub fn log_source(&self, project_id: &str) -> (res: Result<Option<OutputSource>>)
        ensures
            opt_source_result(res) == log_source(self@, project_id@),
    {
        match self.compiles.get(project_id) {
            None => Err(
                OverleafError::Edit(
                    "no compile result for this project yet; run compile first".to_owned(),
                ),
            ),
            Some(record) => {
                if record.log.is_some() {
                    return Ok(None);
                }
                match record.response.source_of("output.log") {
                    Some(source) => Ok(Some(source)),
                    None => Err(
                        OverleafError::NotFound("output.log in the last compile".to_owned()),
                    ),
                }
            },
        }
    }

    /// Takes in the log of the last compile.
    pub fn log_fetched(&mut self, project_id: &str, bytes: &Vec<u8>)
        ensures
            final(self)@ == with_log(old(self)@, project_id@, lossy_text(bytes@)),
    {
        self.log_read(project_id, text_from_bytes(bytes));
    }

    /// Takes in the log of the last compile, as text.
    pub fn log_read(&mut self, project_id: &str, log: String)
        ensures
            final(self)@ == with_log(old(self)@, project_id@, log@),
    {
        let ghost before = self@;
        match self.compiles.remove(project_id) {
            Some(record) => {
                self.compiles.insert(
                    project_id.to_owned(),
                    CompileRecord { response: record.response, log: Some(log) },
                );
                assert(self.compiles@ =~= with_log(before, project_id@, log@).compiles);
            },
            None => {
                assert(self.compiles@ =~= before.compiles);
            },
        }
    }

    /// A page of the log of the last compile.
    pub fn read_log(
        &self,
        project: &ProjectInfo,
        offset: Option<usize>,
        limit: Option<usize>,
    ) -> (res: Result<String>)
        ensures
            text_result(res) == log_shown(self@, project@, offset, limit),
    {
        match self.compiles.get(project.id.as_str()) {
            None => Err(
                OverleafError::Edit(
                    "no compile result for this project yet; run compile first".to_owned(),
                ),
            ),
            Some(record) => {
                let log = match &record.log {
                    Some(log) => log.clone(),
                    None => {
                        let none = String::new();
                        assert(none@ =~= Seq::<char>::empty());
                        none
                    },
                };
                let first: usize = match offset {
                    Some(offset) => offset,
                    None => 1,
                };
                let most: usize = match limit {
                    Some(limit) => limit,
                    None => 200,
                };
                let (body, total) = render_numbered(log.as_str(), first, Some(most));
                let mut text = concat("output.log of last compile of ", project.name.as_str());
                text.append(" (status ");
                text.append(record.response.status.as_str());
                text.append(", ");
                push_decimal(&mut text, total as u64);
                text.append(" lines total)\n");
                text.append(body.as_str());
                Ok(text)
            },
        }
    }

    /// Where to get a file of the last compile.
    pub fn download_output(&self, project_id: &str, file: &str) -> (res: Result<OutputSource>)
        ensures
            source_result(res) == output_target(self@, project_id@, file@),
    {
        match self.compiles.get(project_id) {
            None => Err(
                OverleafError::Edit(
                    "no compile result for this project yet; run compile first".to_owned(),
                ),
            ),
            Some(record) => match record.response.source_of(file) {
                Some(source) => Ok(source),
                None => {
                    let mut text = concat(file, " in the last compile (available: ");
                    text.append(record.response.names().as_str());
                    text.append(")");
                    Err(OverleafError::NotFound(text))
                },
            },
        }
    }
}

// --- what the reports say ------------------------------------------------

/// Every project has a row in the list, in the order of the list, with its id,
/// its name and how it can be accessed.
pub proof fn every_project_is_listed(projects: Seq<ProjectView>, i: int)
    requires
        0 <= i < projects.len(),
    ensures
        begins_with(
            project_lines(projects),
            project_lines(projects.take(i)) + (projects[i].id + seq![' ', ' '] + projects[i].name
                + seq![' ', '('] + (match projects[i].access_level {
                Some(level) => level,
                None => "member"@,
            }) + seq![')', '\n']),
        ),
    decreases projects.len(),
{
    reveal_strlit("  ");
    reveal_strlit(" (");
    reveal_strlit(")\n");
    assert("  "@ =~= seq![' ', ' ']);
    assert(" ("@ =~= seq![' ', '(']);
    assert(")\n"@ =~= seq![')', '\n']);
    let all = project_lines(projects);
    let wanted = project_lines(projects.take(i)) + project_line(projects[i]);
    if i == projects.len() - 1 {
        assert(projects.take(i) =~= projects.drop_last());
        assert(all == wanted);
        assert(all.subrange(0, all.len() as int) =~= all);
    } else {
        let short = projects.drop_last();
        every_project_is_listed(short, i);
        assert(short.take(i) =~= projects.take(i));
        let before = project_lines(short);
        assert(all.subrange(0, wanted.len() as int) =~= before.subrange(0, wanted.len() as int));
    }
}

/// Every entity has a row in the list of files, in the order of the list, with
/// its path and what it is. The root document, and nothing else, is marked.
pub proof fn every_entity_is_listed(tree: TreeView, entries: Seq<EntryView>, i: int)
    requires
        0 <= i < entries.len(),
    ensures
        begins_with(
            entry_lines(tree, entries),
            entry_lines(tree, entries.take(i)) + entries[i].path + seq![' ', '('] + (match entries[i].kind {
                EntityKind::Doc => "doc"@,
                EntityKind::File => "file"@,
                EntityKind::Folder => "folder"@,
            }) + seq![')'] + (if entries[i].kind == EntityKind::Doc && tree.root_doc_id == Some(
                entries[i].id,
            ) {
                " [root document]"@
            } else {
                Seq::empty()
            }) + seq!['\n'],
        ),
    decreases entries.len(),
{
    reveal_strlit(" (");
    reveal_strlit(")");
    reveal_strlit("\n");
    assert(" ("@ =~= seq![' ', '(']);
    assert(")"@ =~= seq![')']);
    assert("\n"@ =~= seq!['\n']);
    let all = entry_lines(tree, entries);
    let wanted = entry_lines(tree, entries.take(i)) + entries[i].path + " ("@ + kind_word(
        entries[i].kind,
    ) + ")"@ + root_mark(tree, entries[i]) + "\n"@;
    if i == entries.len() - 1 {
        assert(entries.take(i) =~= entries.drop_last());
        assert(all == wanted);
        assert(all.subrange(0, all.len() as int) =~= all);
    } else {
        let short = entries.drop_last();
        every_entity_is_listed(tree, short, i);
        assert(short.take(i) =~= entries.take(i));
        let before = entry_lines(tree, short);
        assert(all.subrange(0, wanted.len() as int) =~= before.subrange(0, wanted.len() as int));
    }
}

/// A doc is shown with its path, version and number of lines, and then its
/// lines, from the first one on where no other is asked for.
pub proof fn docs_are_shown_line_by_line(
    path: Seq<char>,
    content: Seq<char>,
    version: int,
    offset: usize,
    limit: Option<usize>,
)
    ensures
        read_text(path, content, version, None, limit) == read_text(
            path,
            content,
            version,
            Some(1),
            limit,
        ),
        ({
            let text = read_text(path, content, version, Some(offset), limit);
            let rows = numbered(content, offset as nat, limit);
            let head = path + " (doc, version "@ + signed_decimal(version) + seq![',', ' ']
                + decimal((1 + count_of(content, '\n')) as nat);
            &&& begins_with(text, head)
            &&& text.skip(text.len() - rows.len()) == rows
            &&& !has_text(text.subrange(head.len() as int, text.len() - rows.len() - 1), "\n"@)
        }),
{
    reveal_strlit(", ");
    reveal_strlit("\n");
    reveal_strlit(" lines)\n");
    assert(", "@ =~= seq![',', ' ']);
    split_counts_separators(content, '\n');
    let text = read_text(path, content, version, Some(offset), limit);
    let rows = numbered(content, offset as nat, limit);
    let head = path + " (doc, version "@ + signed_decimal(version) + ", "@ + decimal(
        line_count(content),
    );
    assert(text == head + " lines)\n"@ + rows);
    assert(text.subrange(0, head.len() as int) =~= head);
    assert(text.skip(text.len() - rows.len()) =~= rows);
    let between = text.subrange(head.len() as int, text.len() - rows.len() - 1);
    assert(between =~= " lines)\n"@.take(7));
    if has_text(between, "\n"@) {
        let at = choose|at: int| occurs_at(between, "\n"@, at);
        assert(between.subrange(at, at + 1)[0] == between[at]);
        assert("\n"@[0] == '\n');
    }
}

/// What is said of a doc: its path, its version, how many lines it has, and how
/// many bytes its text takes.
pub proof fn docs_are_measured_in_lines_and_bytes(
    path: Seq<char>,
    content: Seq<char>,
    version: int,
    size: u64,
)
    ensures
        doc_text(path, content, version) == path + ": doc, version "@ + signed_decimal(version)
            + seq![',', ' '] + decimal((1 + count_of(content, '\n')) as nat) + " lines, "@ + decimal(
            vstd::utf8::encode_utf8(content).len(),
        ) + " bytes"@,
        binary_text(path, Some(size)) == path + ": binary file, "@ + decimal(size as nat)
            + " bytes"@,
        begins_with(binary_text(path, None), path),
{
    reveal_strlit(", ");
    assert(", "@ =~= seq![',', ' ']);
    split_counts_separators(content, '\n');
    assert(binary_text(path, Some(size)) =~= path + ": binary file, "@ + decimal(size as nat)
        + " bytes"@);
    let text = binary_text(path, None);
    assert(text.subrange(0, path.len() as int) =~= path);
}

/// Entities are counted one by one: each that is of the kind and whose path
/// begins with the prefix, and no other.
pub proof fn entities_below_are_counted(
    a: Seq<EntryView>,
    b: Seq<EntryView>,
    e: EntryView,
    prefix: Seq<char>,
    kind: EntityKind,
)
    ensures
        count_below(a + b, prefix, kind) == count_below(a, prefix, kind) + count_below(
            b,
            prefix,
            kind,
        ),
        count_below(seq![e], prefix, kind) == if e.kind == kind && begins_with(e.path, prefix) {
            1nat
        } else {
            0nat
        },
    decreases b.len(),
{
    if b.len() == 0 {
        assert(a + b =~= a);
    } else {
        entities_below_are_counted(a, b.drop_last(), e, prefix, kind);
        assert((a + b).drop_last() =~= a + b.drop_last());
        assert((a + b).last() == b.last());
    }
    assert(seq![e].drop_last() =~= Seq::<EntryView>::empty());
    assert(count_below(seq![e].drop_last(), prefix, kind) == 0);
    assert(seq![e].last() == e);
}

/// Everything in the project lies below the root folder; below any other folder
/// lies what begins with its path and a slash.
pub proof fn folders_count_what_lies_below(path: Seq<char>, rest: Seq<char>)
    ensures
        begins_with(seq!['/'] + rest, below_prefix(seq!['/'])),
        path != seq!['/'] ==> below_prefix(path) == path + seq!['/'],
        path != seq!['/'] ==> begins_with(path + seq!['/'] + rest, below_prefix(path)),
        path != seq!['/'] ==> !begins_with(path, below_prefix(path)),
{
    reveal_strlit("/");
    assert("/"@ =~= seq!['/']);
    pattern_stands_between_the_rest(Seq::empty(), seq!['/'], rest, 0);
    pattern_stands_between_the_rest(Seq::empty(), path + seq!['/'], rest, 0);
}

/// A file lies in the folder with all of its names but the last, under the
/// last one. The root folder is no file.
pub proof fn files_have_a_folder_and_a_name(names: Seq<Seq<char>>, name: Seq<char>)
    requires
        forall|i: int| 0 <= i < names.len() ==> plain_name(#[trigger] names[i]),
        plain_name(name),
    ensures
        file_place(slash_path(names.push(name))) == Some((slash_path(names), name)),
        file_place(slash_path(Seq::empty())) is None,
{
    let all = names.push(name);
    assert forall|i: int| 0 <= i < all.len() implies plain_name(#[trigger] all[i]) by {
        if i < names.len() {
            assert(all[i] == names[i]);
        }
    }
    slash_path_keeps_plain_names(all);
    slash_path_keeps_plain_names(Seq::empty());
    assert(all.drop_last() =~= names);
    assert(all.last() == name);
}

/// A new name is taken without the white space around it. It is never blank
/// and has no slash, and only such names are refused.
pub proof fn new_names_are_plain(name: Seq<char>)
    ensures
        new_name_check(name) is Err <==> name.contains('/') || (forall|i: int|
            0 <= i < name.len() ==> white_space(#[trigger] name[i])),
        new_name_check(name) matches Ok(taken) ==> taken == trimmed(name) && taken.len() > 0
            && !taken.contains('/'),
        comment_check(name) is Err <==> (forall|i: int|
            0 <= i < name.len() ==> white_space(#[trigger] name[i])),
        comment_check(name) matches Ok(taken) ==> taken == trimmed(name) && taken.len() > 0,
{
    trimmed_is_the_inner_stretch(name);
    let (from, to) = choose|from: int, to: int|
        {
            &&& 0 <= from <= to <= name.len()
            &&& trimmed(name) == #[trigger] name.subrange(from, to)
            &&& forall|i: int| 0 <= i < from || to <= i < name.len() ==> white_space(name[i])
            &&& from < to ==> !white_space(name[from]) && !white_space(name[to - 1])
        };
    if from < to {
        assert(!white_space(name[from]));
    }
    let inner = name.subrange(from, to);
    if inner.contains('/') {
        let k = inner.index_of('/');
        assert(name[from + k] == '/');
    }
}

/// A replacement is refused when there is nothing to look for, when it would
/// change nothing, or when a document cannot store the new text, and only then.
pub proof fn pointless_edits_are_refused(old: Seq<char>, new: Seq<char>)
    ensures
        edit_check(old, new) is Ok <==> old.len() > 0 && old != new && (forall|i: int|
            0 <= i < new.len() ==> (#[trigger] new[i]) as u32 <= 0xFFFF),
{
    outside_bmp_is_found(new);
}

/// What a tool does goes by what lies at the path. Docs are read, looked at,
/// edited and overwritten under their id; files are only looked at and saved;
/// nothing is done to a folder, and where nothing lies a doc can be made.
pub proof fn tools_go_by_what_lies_at_the_path(ws: WorkspaceView, loc: LocatedView, id: Seq<char>)
    ensures
        loc.entity == Some((id, EntityKind::Doc)) ==> {
            &&& reading(loc) == Ok::<ReadPlanView, ErrorView>(ReadPlanView::Doc(id))
            &&& writing(loc) == Ok::<WritePlanView, ErrorView>(WritePlanView::Overwrite(id))
            &&& loc.path != "/"@ ==> statting(loc) == Ok::<StatPlanView, ErrorView>(
                StatPlanView::Doc(id),
            )
            &&& download_target(loc) == Ok::<(Seq<char>, EntityKind), ErrorView>(
                (id, EntityKind::Doc),
            )
            &&& edit_target(ws, loc) is Ok <==> last_read(ws, loc) is Some
            &&& edit_target(ws, loc) matches Ok((doc, read)) ==> doc == id && last_read(ws, loc)
                == Some(read)
        },
        loc.entity == Some((id, EntityKind::File)) ==> {
            &&& reading(loc) matches Ok(ReadPlanView::Said(_))
            &&& writing(loc) matches Err(ErrorView::Edit(_))
            &&& loc.path != "/"@ ==> statting(loc) == Ok::<StatPlanView, ErrorView>(
                StatPlanView::File(id),
            )
            &&& download_target(loc) == Ok::<(Seq<char>, EntityKind), ErrorView>(
                (id, EntityKind::File),
            )
            &&& edit_target(ws, loc) matches Err(ErrorView::Edit(_))
        },
        loc.entity == Some((id, EntityKind::Folder)) ==> {
            &&& reading(loc) matches Err(ErrorView::Edit(_))
            &&& writing(loc) matches Err(ErrorView::Edit(_))
            &&& statting(loc) == Ok::<StatPlanView, ErrorView>(
                StatPlanView::Said(folder_text(loc)),
            )
            &&& download_target(loc) matches Err(ErrorView::Edit(_))
            &&& edit_target(ws, loc) matches Err(ErrorView::Edit(_))
        },
        loc.entity is None ==> {
            &&& reading(loc) matches Err(ErrorView::NotFound(_))
            &&& file_place(loc.path) matches Some((folder, name)) ==> writing(loc) == Ok::<
                WritePlanView,
                ErrorView,
            >(WritePlanView::Create { folder, name })
            &&& file_place(loc.path) is None ==> (writing(loc) matches Err(ErrorView::Edit(_)))
            &&& loc.path != "/"@ ==> (statting(loc) matches Err(ErrorView::NotFound(_)))
            &&& download_target(loc) matches Err(ErrorView::NotFound(_))
            &&& edit_target(ws, loc) matches Err(ErrorView::NotFound(_))
        },
{
}

/// What was read of a file is remembered for that file alone, and replaces what
/// was read of it before.
pub proof fn readings_are_kept_apart(
    ws: WorkspaceView,
    loc: LocatedView,
    other: LocatedView,
    content: Seq<char>,
)
    ensures
        last_read(with_read(ws, loc, content), loc) == Some(content),
        other.project.id != loc.project.id || other.path != loc.path ==> last_read(
            with_read(ws, loc, content),
            other,
        ) == last_read(ws, other),
        with_read(ws, loc, content).compiles == ws.compiles,
        other.project.id != loc.project.id ==> last_read(without_reads(ws, loc), other)
            == last_read(ws, other),
{
}

/// The report on an edit shows the lines around the first replacement: it begins
/// three lines above the line that the replacement begins on, or with the first
/// line, and goes on for as many lines as the new text breaks into and six more.
pub proof fn report_shows_the_lines_around_the_edit(content: Seq<char>, k: int, new: Seq<char>)
    requires
        0 <= k <= content.len(),
        count_of(new, '\n') + 7 <= usize::MAX,
    ensures
        ({
            let line = 1 + count_of(content.take(k), '\n') as int;
            snippet(content, byte_at(content, k), new) == numbered(
                content,
                if line > 3 {
                    (line - 3) as nat
                } else {
                    1
                },
                Some((count_of(new, '\n') + 7) as usize),
            )
        }),
{
    lemma_char_of_byte(content, k);
    let offset = byte_at(content, k);
    assert(content.take(content.len() as int) =~= content);
    assert(byte_at(content, content.len() as int) == utf8_size(content));
    lemma_char_of_byte(content, content.len() as int);
    lemma_offset_bounds(content, k);
}

/// The report on an edit says how many places were replaced, in which file, and
/// at which version the doc now is; then it shows the lines around the edit, and
/// last it notes what others changed, where they changed something.
pub proof fn edits_are_reported_in_full(
    path: Seq<char>,
    outcome: OutcomeView,
    count: nat,
    offset: nat,
    new: Seq<char>,
    from: int,
    to: int,
)
    requires
        0 < from <= to,
    ensures
        ({
            let head = "Replaced "@ + decimal(count) + " occurrence(s) in "@ + path
                + " (now version "@ + signed_decimal(outcome.version) + ").\n"@;
            let shown = snippet(outcome.content, offset, new);
            &&& edited_text(path, outcome, count, offset, new, None) == head + shown
            &&& begins_with(
                edited_text(path, outcome, count, offset, new, Some((from, to))),
                head + shown,
            )
            &&& has_text(edited_text(path, outcome, count, offset, new, Some((from, to))), path)
        }),
        has_text(drift_text(path, Some((from, to))), path),
        has_text(drift_text(path, Some((from, to))), range_text(from, to)),
        from == to ==> range_text(from, to) == seq![' '] + decimal(from as nat),
        from < to ==> range_text(from, to) == seq!['s', ' '] + decimal(from as nat) + seq!['-']
            + decimal(to as nat),
{
    reveal_strlit(" ");
    reveal_strlit("s ");
    reveal_strlit("-");
    assert(" "@ =~= seq![' ']);
    assert("s "@ =~= seq!['s', ' ']);
    assert("-"@ =~= seq!['-']);
    let none = Seq::<char>::empty();
    let head = "Replaced "@ + decimal(count) + " occurrence(s) in "@ + path + " (now version "@
        + signed_decimal(outcome.version) + ").\n"@;
    let shown = snippet(outcome.content, offset, new);
    assert(head + shown + none =~= head + shown);
    let range = range_text(from, to);
    let lead = "\nNote: other collaborators edited "@;
    let mid = " since your last read (around line"@;
    let tail =
        " of the current content). Your edit was applied, but call read_file to see their changes before editing further.\n"@;
    let note = lead + path + mid + range + tail;
    assert(drift_text(path, Some((from, to))) == note);
    let text = head + shown + note;
    assert(text.subrange(0, (head + shown).len() as int) =~= head + shown);
    pattern_stands_between_the_rest(lead, path, mid + range + tail, 0);
    assert(lead + path + (mid + range + tail) =~= note);
    pattern_stands_between_the_rest(lead + path + mid, range, tail, 0);
    lemma_has_text_within(head + shown, note, none, path);
    assert(head + shown + note + none =~= text);
}

/// A log is shown like a doc, two hundred lines from the first one on where
/// nothing else is asked for.
pub proof fn logs_are_shown_line_by_line(
    project: Seq<char>,
    status: Seq<char>,
    log: Seq<char>,
    offset: Option<usize>,
    limit: Option<usize>,
)
    ensures
        log_page(project, status, log, None, limit) == log_page(
            project,
            status,
            log,
            Some(1),
            limit,
        ),
        log_page(project, status, log, offset, None) == log_page(
            project,
            status,
            log,
            offset,
            Some(200),
        ),
        log_page(project, status, log, Some(1), Some(200)) == "output.log of last compile of "@
            + project + " (status "@ + status + seq![',', ' '] + decimal(
            (1 + count_of(log, '\n')) as nat,
        ) + " lines total)\n"@ + numbered(log, 1, Some(200)),
        offset is Some && limit is Some ==> ({
            let text = log_page(project, status, log, offset, limit);
            let rows = numbered(log, offset->0 as nat, limit);
            text.len() >= rows.len() && text.skip(text.len() - rows.len()) == rows
        }),
{
    reveal_strlit(", ");
    assert(", "@ =~= seq![',', ' ']);
    split_counts_separators(log, '\n');
    if offset is Some && limit is Some {
        let text = log_page(project, status, log, offset, limit);
        let rows = numbered(log, offset->0 as nat, limit);
        assert(text.skip(text.len() - rows.len()) =~= rows);
    }
}

/// Outputs are taken from the last compile of the project, the log too, and
/// without a compile there are none. A compile of one project says nothing of
/// another.
pub proof fn outputs_come_from_the_last_compile(
    ws: WorkspaceView,
    id: Seq<char>,
    other: Seq<char>,
    record: RecordView,
    file: Seq<char>,
    log: Seq<char>,
)
    ensures
        !ws.compiles.contains_key(id) ==> output_target(ws, id, file) is Err && log_source(ws, id)
            is Err,
        output_target(with_compile(ws, id, record), id, file) is Ok <==> output_source(
            record.response,
            file,
        ) is Some,
        output_target(with_compile(ws, id, record), id, file) matches Ok(source) ==> Some(source)
            == output_source(record.response, file),
        record.log is None ==> log_source(with_compile(ws, id, record), id) == match output_source(
            record.response,
            "output.log"@,
        ) {
            Some(source) => Ok::<Option<SourceView>, ErrorView>(Some(source)),
            None => Err(ErrorView::NotFound("output.log in the last compile"@)),
        },
        record.log is Some ==> log_source(with_compile(ws, id, record), id) == Ok::<
            Option<SourceView>,
            ErrorView,
        >(None),
        other != id ==> output_target(with_compile(ws, id, record), other, file) == output_target(
            ws,
            other,
            file,
        ) && log_source(with_compile(ws, id, record), other) == log_source(ws, other),
        ws.compiles.contains_key(id) ==> with_log(ws, id, log).compiles[id] == (RecordView {
            log: Some(log),
            ..ws.compiles[id]
        }),
{
}

/// A compile that the server refused is only reported, with the project that it
/// was for. Any other is followed by its log, where it has one.
pub proof fn refused_compile_is_only_reported(
    project: Seq<char>,
    response: ResponseView,
    log: Option<core::result::Result<Seq<char>, ErrorView>>,
)
    ensures
        response.status == "too-recently-compiled"@ ==> {
            &&& compile_plan(response) == CompilePlanView::Refused
            &&& begins_with(compiled_text(project, response, log), "Compile of "@ + project)
            &&& compiled_text(project, response, log) == compiled_text(project, response, None)
        },
        response.status != "too-recently-compiled"@ ==> {
            &&& compile_plan(response) == match output_source(response, "output.log"@) {
                Some(source) => CompilePlanView::FetchLog(source),
                None => CompilePlanView::NoLog,
            }
            &&& compiled_text(project, response, log) == compile_text(project, response, log)
        },
{
    let text = limited_text(project);
    let head = "Compile of "@ + project;
    assert(text.subrange(0, head.len() as int) =~= head);
}

/// The lists begin with what they are lists of: the number of projects and the
/// server, or the project with its id and compiler; and then come their rows.
pub proof fn lists_begin_with_what_they_are_of(
    endpoint: Seq<char>,
    projects: Seq<ProjectView>,
    tree: TreeView,
    project: ProjectView,
)
    ensures
        projects_text(endpoint, projects) == decimal(projects.len()) + " projects on "@ + endpoint
            + seq![':', '\n'] + project_lines(projects),
        ({
            let text = files_text(tree);
            let rows = entry_lines(tree, entry_list(tree.nodes));
            let head = "Project "@ + tree.project_name + seq![' ', '('] + tree.project_id
                + "), compiler: "@ + (match tree.compiler {
                Some(compiler) => compiler,
                None => "unknown"@,
            }) + seq!['\n'];
            text == head + rows
        }),
        has_text(restricted_text(project), project.id + seq![' ', ' '] + project.name),
{
    reveal_strlit(":\n");
    reveal_strlit("\n");
    reveal_strlit(" (");
    reveal_strlit("  ");
    assert(":\n"@ =~= seq![':', '\n']);
    assert("\n"@ =~= seq!['\n']);
    assert(" ("@ =~= seq![' ', '(']);
    assert("  "@ =~= seq![' ', ' ']);
    let lead = "This server is restricted to a single project:\n"@;
    let end = "Omit the `project` parameter in tool calls; other projects are not accessible.\n"@;
    let shown = project.id + "  "@ + project.name;
    let rest = " ("@ + access_text(project) + ")\n"@;
    assert(project_line(project) =~= shown + rest);
    pattern_stands_between_the_rest(lead, shown, rest + end, 0);
    assert(lead + shown + (rest + end) =~= restricted_text(project));
}

/// What was written or saved is reported with where it went and how much it is;
/// a doc that already had the content is reported as that.
pub proof fn writing_is_reported_with_its_size(
    path: Seq<char>,
    outcome: OutcomeView,
    what: Seq<char>,
    size: nat,
    local_path: Seq<char>,
)
    ensures
        outcome.changed ==> overwritten_text(path, outcome) == "Overwrote "@ + path + seq![' ', '(']
            + decimal((1 + count_of(outcome.content, '\n')) as nat) + " lines, version "@
            + signed_decimal(outcome.version) + seq![')', '.'],
        !outcome.changed ==> overwritten_text(path, outcome) == path
            + " already had this content."@,
        saved_text(what, size, local_path) == "Saved "@ + what + seq![' ', '('] + decimal(size)
            + " bytes) to "@ + local_path + seq!['.'],
{
    reveal_strlit(" (");
    reveal_strlit(").");
    reveal_strlit(".");
    assert(" ("@ =~= seq![' ', '(']);
    assert(")."@ =~= seq![')', '.']);
    assert("."@ =~= seq!['.']);
    split_counts_separators(outcome.content, '\n');
    if outcome.changed {
        assert(overwritten_text(path, outcome) =~= "Overwrote "@ + path + seq![' ', '('] + decimal(
            (1 + count_of(outcome.content, '\n')) as nat,
        ) + " lines, version "@ + signed_decimal(outcome.version) + seq![')', '.']);
    }
}

/// What is said of a folder: how many docs, files and folders lie below it, in
/// this order.
pub proof fn folders_are_described_by_what_they_hold(loc: LocatedView)
    ensures
        ({
            let entries = entry_list(loc.tree.nodes);
            let prefix = below_prefix(loc.path);
            folder_text(loc) == loc.path + ": folder containing "@ + decimal(
                count_below(entries, prefix, EntityKind::Doc),
            ) + " doc(s), "@ + decimal(count_below(entries, prefix, EntityKind::File))
                + " binary file(s), "@ + decimal(count_below(entries, prefix, EntityKind::Folder))
                + " subfolder(s)"@
        }),
{
}

/// An upload makes a doc or a folder only where the server says so, and a file
/// otherwise.
pub proof fn uploads_are_files_unless_said_otherwise(answer: UploadResponse)
    ensures
        uploaded_kind(answer) == EntityKind::Doc <==> opt_text(answer.entity_type) == Some(
            seq!['d', 'o', 'c'],
        ),
        uploaded_kind(answer) == EntityKind::Folder <==> opt_text(answer.entity_type) == Some(
            seq!['f', 'o', 'l', 'd', 'e', 'r'],
        ),
{
    kinds_have_words_of_their_own();
    reveal_strlit("doc");
    reveal_strlit("folder");
    assert("doc"@ =~= seq!['d', 'o', 'c']);
    assert("folder"@ =~= seq!['f', 'o', 'l', 'd', 'e', 'r']);
    assert(seq!['d', 'o', 'c'][0] == 'd');
    assert(seq!['f', 'o', 'l', 'd', 'e', 'r'][0] == 'f');
}

/// The log that is shown is the one on record for the project, under its name
/// and with the status of its last compile.
pub proof fn shown_log_is_the_one_on_record(
    ws: WorkspaceView,
    project: ProjectView,
    log: Seq<char>,
    offset: Option<usize>,
    limit: Option<usize>,
)
    requires
        ws.compiles.contains_key(project.id),
    ensures
        log_shown(with_log(ws, project.id, log), project, offset, limit) == Ok::<
            Seq<char>,
            ErrorView,
        >(log_page(project.name, ws.compiles[project.id].response.status, log, offset, limit)),
{
}

/// What is not there is reported by its path and the name of the project.
pub proof fn missing_paths_are_named(loc: LocatedView)
    ensures
        loc.entity is None ==> (target_of(loc) matches Err(ErrorView::NotFound(text)) && begins_with(
            text,
            loc.path,
        ) && text.skip(text.len() - loc.project.name.len()) == loc.project.name),
        loc.entity matches Some(entity) ==> target_of(loc) == Ok::<
            (Seq<char>, EntityKind),
            ErrorView,
        >(entity),
{
    let text = loc.path + " in project "@ + loc.project.name;
    assert(text.subrange(0, loc.path.len() as int) =~= loc.path);
    assert(text.skip(text.len() - loc.project.name.len()) =~= loc.project.name);
}

} // verus!
