//! The state behind the tools: which project a call is about, what was read,
//! and what was compiled.
use vstd::prelude::*;

use crate::compile::{CompileResponse, ResponseView};
use crate::config::RealtimeSettings;
use crate::error::{concat, ErrorView, OverleafError, Result};
use crate::project::{
    entity_at, lookup_finds_what_lies_there, normalized, normalizing_twice_is_normalizing_once,
    opt_entity, path_in, project_views,
    EntityKind, ProjectInfo, ProjectTree, ProjectView, TreeView,
};
use crate::stamps::ReadStamps;
use crate::table::Table;
use crate::text::{chars_of, opt_str, opt_text, same_text, trim, trimmed};

verus! {

// --- the state -----------------------------------------------------------

/// Settings of the tools.
#[derive(Debug)]
pub struct WorkspaceSettings {
    /// The project (name or id) for calls that name none. Without
    /// `allow_all_projects` all others are denied.
    pub default_project: Option<String>,
    pub allow_all_projects: bool,
    pub realtime: RealtimeSettings,
    pub search_max_matches: usize,
}

/// The last compile of a project, kept so that its outputs can be fetched and
/// its log can be paged through later.
pub struct CompileRecord {
    pub response: CompileResponse,
    pub log: Option<String>,
}

/// The last compile of a project, as plain values.
pub struct RecordView {
    pub response: ResponseView,
    pub log: Option<Seq<char>>,
}

impl View for CompileRecord {
    type V = RecordView;

    open spec fn view(&self) -> RecordView {
        RecordView { response: self.response@, log: opt_text(self.log) }
    }
}

/// The state that all tools share. A restart begins with an empty one, which
/// also means that every file has to be read again before it is edited.
pub struct Workspace {
    pub endpoint: String,
    pub settings: WorkspaceSettings,
    /// The project that calls are about when they name none.
    pub pinned: Option<ProjectInfo>,
    /// The projects as they were listed last.
    pub projects: Vec<ProjectInfo>,
    /// The files that were read, or cleanly edited, by project and path.
    pub reads: ReadStamps,
    /// The last compile of each project.
    pub compiles: Table<CompileRecord>,
}

/// What is known of the files that were read.
pub type Reads = Map<(Seq<char>, Seq<char>), Seq<char>>;

/// The state as plain values.
pub struct WorkspaceView {
    pub endpoint: Seq<char>,
    pub default_project: Option<Seq<char>>,
    pub allow_all_projects: bool,
    pub realtime: RealtimeSettings,
    pub search_max_matches: nat,
    pub pinned: Option<ProjectView>,
    pub projects: Seq<ProjectView>,
    pub reads: Reads,
    pub compiles: Map<Seq<char>, RecordView>,
}

/// An optional project as plain values.
pub open spec fn opt_project(project: Option<ProjectInfo>) -> Option<ProjectView> {
    match project {
        Some(project) => Some(project@),
        None => None,
    }
}

impl View for Workspace {
    type V = WorkspaceView;

    open spec fn view(&self) -> WorkspaceView {
        WorkspaceView {
            endpoint: self.endpoint@,
            default_project: opt_text(self.settings.default_project),
            allow_all_projects: self.settings.allow_all_projects,
            realtime: self.settings.realtime,
            search_max_matches: self.settings.search_max_matches as nat,
            pinned: opt_project(self.pinned),
            projects: project_views(self.projects@),
            reads: self.reads@,
            compiles: self.compiles@,
        }
    }
}

// --- finding a project ---------------------------------------------------

/// A letter of ASCII in lower case; any other character as it is.
pub open spec fn ascii_lower(c: char) -> char {
    if 'A' <= c <= 'Z' {
        (c as int + 32) as char
    } else {
        c
    }
}

/// Whether two texts differ at most in the case of ASCII letters.
pub open spec fn alike(a: Seq<char>, b: Seq<char>) -> bool {
    &&& a.len() == b.len()
    &&& forall|i: int| 0 <= i < a.len() ==> ascii_lower(#[trigger] a[i]) == ascii_lower(b[i])
}

fn lower(c: char) -> (out: char)
    ensures
        out == ascii_lower(c),
{
    if 'A' <= c && c <= 'Z' {
        let code: u8 = c as u8;
        let small: u8 = code + 32;
        small as char
    } else {
        c
    }
}

/// Tells whether two texts differ at most in the case of ASCII letters.
pub fn same_but_case(a: &str, b: &str) -> (yes: bool)
    ensures
        yes == alike(a@, b@),
{
    let x = chars_of(a);
    let y = chars_of(b);
    if x.len() != y.len() {
        return false;
    }
    let mut i: usize = 0;
    while i < x.len()
        invariant
            i <= x@.len(),
            x@.len() == y@.len(),
            x@ == a@,
            y@ == b@,
            forall|j: int| 0 <= j < i ==> ascii_lower(#[trigger] x@[j]) == ascii_lower(y@[j]),
        decreases x@.len() - i,
    {
        if lower(x[i]) != lower(y[i]) {
            assert(ascii_lower(a@[i as int]) != ascii_lower(b@[i as int]));
            return false;
        }
        i += 1;
    }
    true
}

/// The first project with an id, from a place on.
pub open spec fn with_id(projects: Seq<ProjectView>, id: Seq<char>, from: int) -> Option<
    ProjectView,
>
    decreases projects.len() - from,
{
    if from < 0 || from >= projects.len() {
        None
    } else if projects[from].id == id {
        Some(projects[from])
    } else {
        with_id(projects, id, from + 1)
    }
}

/// The first project with a name, from a place on.
pub open spec fn with_title(projects: Seq<ProjectView>, name: Seq<char>, from: int) -> Option<
    ProjectView,
>
    decreases projects.len() - from,
{
    if from < 0 || from >= projects.len() {
        None
    } else if projects[from].name == name {
        Some(projects[from])
    } else {
        with_title(projects, name, from + 1)
    }
}

/// The projects whose name is `name` but for the case of its letters.
pub open spec fn titled_alike(projects: Seq<ProjectView>, name: Seq<char>) -> Seq<ProjectView>
    decreases projects.len(),
{
    if projects.len() == 0 {
        Seq::empty()
    } else {
        let before = titled_alike(projects.drop_last(), name);
        if alike(projects.last().name, name) {
            before.push(projects.last())
        } else {
            before
        }
    }
}

/// The project that is meant by an id or a name. The case of letters is
/// disregarded only where that leaves a single project.
pub open spec fn matching(projects: Seq<ProjectView>, wanted: Seq<char>) -> Option<ProjectView> {
    if with_id(projects, wanted, 0) is Some {
        with_id(projects, wanted, 0)
    } else if with_title(projects, wanted, 0) is Some {
        with_title(projects, wanted, 0)
    } else if titled_alike(projects, wanted).len() == 1 {
        Some(titled_alike(projects, wanted)[0])
    } else {
        None
    }
}

fn find_id(projects: &Vec<ProjectInfo>, id: &str) -> (hit: Option<ProjectInfo>)
    ensures
        opt_project(hit) == with_id(project_views(projects@), id@, 0),
{
    let ghost all = project_views(projects@);
    let mut i: usize = 0;
    while i < projects.len()
        invariant
            i <= projects@.len(),
            all == project_views(projects@),
            with_id(all, id@, i as int) == with_id(all, id@, 0),
        decreases projects@.len() - i,
    {
        assert(all[i as int] == projects@[i as int]@);
        if same_text(projects[i].id.as_str(), id) {
            return Some(projects[i].clone());
        }
        i += 1;
    }
    None
}

fn find_title(projects: &Vec<ProjectInfo>, name: &str) -> (hit: Option<ProjectInfo>)
    ensures
        opt_project(hit) == with_title(project_views(projects@), name@, 0),
{
    let ghost all = project_views(projects@);
    let mut i: usize = 0;
    while i < projects.len()
        invariant
            i <= projects@.len(),
            all == project_views(projects@),
            with_title(all, name@, i as int) == with_title(all, name@, 0),
        decreases projects@.len() - i,
    {
        assert(all[i as int] == projects@[i as int]@);
        if same_text(projects[i].name.as_str(), name) {
            return Some(projects[i].clone());
        }
        i += 1;
    }
    None
}

fn find_alike(projects: &Vec<ProjectInfo>, name: &str) -> (hits: Vec<ProjectInfo>)
    ensures
        project_views(hits@) == titled_alike(project_views(projects@), name@),
{
    let ghost all = project_views(projects@);
    let mut hits: Vec<ProjectInfo> = Vec::new();
    let mut i: usize = 0;
    assert(all.take(0) =~= Seq::<ProjectView>::empty());
    assert(project_views(hits@) =~= Seq::<ProjectView>::empty());
    while i < projects.len()
        invariant
            i <= projects@.len(),
            all == project_views(projects@),
            project_views(hits@) == titled_alike(all.take(i as int), name@),
        decreases projects@.len() - i,
    {
        assert(all.take(i + 1).drop_last() =~= all.take(i as int));
        assert(all.take(i + 1).last() == projects@[i as int]@);
        let ghost before = project_views(hits@);
        if same_but_case(projects[i].name.as_str(), name) {
            let hit = projects[i].clone();
            hits.push(hit);
            assert(project_views(hits@) =~= before.push(hit@));
        }
        i += 1;
    }
    assert(all.take(projects@.len() as int) =~= all);
    hits
}

/// The project that is meant by an id or a name.
pub fn match_project(projects: &Vec<ProjectInfo>, wanted: &str) -> (hit: Option<ProjectInfo>)
    ensures
        opt_project(hit) == matching(project_views(projects@), wanted@),
{
    if let Some(hit) = find_id(projects, wanted) {
        return Some(hit);
    }
    if let Some(hit) = find_title(projects, wanted) {
        return Some(hit);
    }
    let mut hits = find_alike(projects, wanted);
    if hits.len() == 1 {
        let ghost all = project_views(hits@);
        assert(hits@[0]@ == all[0]);
        hits.pop()
    } else {
        None
    }
}

// --- which project a call is about ---------------------------------------

/// The project that a call names, without white space around it; an empty name
/// counts as none.
pub open spec fn asked_for(wanted: Option<Seq<char>>) -> Option<Seq<char>> {
    match wanted {
        Some(wanted) => if trimmed(wanted).len() == 0 {
            None
        } else {
            Some(trimmed(wanted))
        },
        None => None,
    }
}

/// What is known of the project that a call is about.
pub enum Resolution {
    Found(ProjectInfo),
    /// No such project is known; the projects have to be listed anew.
    Refresh(String),
    Fail(OverleafError),
}

/// What is known of the project that a call is about, as plain values.
pub enum ResolutionView {
    Found(ProjectView),
    Refresh(Seq<char>),
    Fail(ErrorView),
}

impl View for Resolution {
    type V = ResolutionView;

    open spec fn view(&self) -> ResolutionView {
        match *self {
            Resolution::Found(project) => ResolutionView::Found(project@),
            Resolution::Refresh(wanted) => ResolutionView::Refresh(wanted@),
            Resolution::Fail(e) => ResolutionView::Fail(e@),
        }
    }
}

/// The error for a project other than the one that the server is restricted to.
pub open spec fn denied(pinned: ProjectView, wanted: Seq<char>) -> ErrorView {
    ErrorView::Denied(
        "this server only has access to project '"@ + pinned.name + "' ("@ + pinned.id + "); `"@
            + wanted + "` is not permitted — omit the `project` parameter"@,
    )
}

/// The error for a call that names no project where there is no default.
pub open spec fn no_project() -> ErrorView {
    ErrorView::Edit(
        "no project given and the server has no default; pass `project` (see list_projects)"@,
    )
}

/// Whether calls may only be about the pinned project.
pub open spec fn restricted(ws: WorkspaceView) -> bool {
    ws.pinned is Some && !ws.allow_all_projects
}

/// Which project a call is about, as far as it is known.
pub open spec fn resolved(ws: WorkspaceView, wanted: Option<Seq<char>>) -> ResolutionView {
    match (ws.pinned, asked_for(wanted)) {
        (Some(pinned), None) => ResolutionView::Found(pinned),
        (None, None) => ResolutionView::Fail(no_project()),
        (pinned, Some(wanted)) => if restricted(ws) {
            if wanted == pinned->0.id || alike(wanted, pinned->0.name) {
                ResolutionView::Found(pinned->0)
            } else {
                ResolutionView::Fail(denied(pinned->0, wanted))
            }
        } else {
            match matching(ws.projects, wanted) {
                Some(project) => ResolutionView::Found(project),
                None => ResolutionView::Refresh(wanted),
            }
        },
    }
}

/// A project, or the error in its place, as plain values.
pub open spec fn project_result(res: Result<ProjectInfo>) -> core::result::Result<
    ProjectView,
    ErrorView,
> {
    match res {
        Ok(project) => Ok(project@),
        Err(e) => Err(e@),
    }
}

/// The project that is meant, once the projects were listed anew.
pub open spec fn refreshed(projects: Seq<ProjectView>, wanted: Seq<char>) -> core::result::Result<
    ProjectView,
    ErrorView,
> {
    match matching(projects, wanted) {
        Some(project) => Ok(project),
        None => Err(ErrorView::NotFound("project `"@ + wanted + "` (try list_projects)"@)),
    }
}

/// A restricted server never acts on any project but its own, whatever a call
/// names, and never looks for others.
pub proof fn restricted_server_keeps_to_its_project(
    ws: WorkspaceView,
    wanted: Option<Seq<char>>,
)
    requires
        restricted(ws),
    ensures
        resolved(ws, wanted) matches ResolutionView::Found(project) ==> Some(project) == ws.pinned,
        !(resolved(ws, wanted) is Refresh),
        asked_for(wanted) is None ==> resolved(ws, wanted) == ResolutionView::Found(ws.pinned->0),
{
}

/// The project to pin: the default project, where one is set. It must exist.
pub open spec fn pinned_by(
    default_project: Option<Seq<char>>,
    projects: Seq<ProjectView>,
) -> core::result::Result<Option<ProjectView>, ErrorView> {
    match asked_for(default_project) {
        None => Ok(None),
        Some(wanted) => match matching(projects, wanted) {
            Some(project) => Ok(Some(project)),
            None => Err(
                ErrorView::NotFound(
                    "pinned project `"@ + wanted + "` was not found on the server"@,
                ),
            ),
        },
    }
}

fn asked(wanted: Option<&str>) -> (name: Option<String>)
    ensures
        opt_text(name) == asked_for(opt_str(wanted)),
{
    match wanted {
        Some(wanted) => {
            let name = trim(wanted);
            if name.as_str().is_empty() {
                None
            } else {
                Some(name)
            }
        },
        None => None,
    }
}

impl Workspace {
    /// The state to begin with, once the projects were listed.
    pub fn connect(
        endpoint: String,
        settings: WorkspaceSettings,
        projects: Vec<ProjectInfo>,
    ) -> (ws: Result<Self>)
        ensures
            match pinned_by(opt_text(settings.default_project), project_views(projects@)) {
                Ok(pinned) => ws matches Ok(w) && w@ == (WorkspaceView {
                    endpoint: endpoint@,
                    default_project: opt_text(settings.default_project),
                    allow_all_projects: settings.allow_all_projects,
                    realtime: settings.realtime,
                    search_max_matches: settings.search_max_matches as nat,
                    pinned,
                    projects: project_views(projects@),
                    reads: Map::empty(),
                    compiles: Map::empty(),
                }) && w.settings == settings,
                Err(e) => ws matches Err(x) && x@ == e,
            },
    {
        let wanted = match &settings.default_project {
            Some(wanted) => asked(Some(wanted.as_str())),
            None => None,
        };
        let pinned = match wanted {
            None => None,
            Some(wanted) => match match_project(&projects, wanted.as_str()) {
                Some(hit) => Some(hit),
                None => {
                    let mut text = concat("pinned project `", wanted.as_str());
                    text.append("` was not found on the server");
                    return Err(OverleafError::NotFound(text));
                },
            },
        };
        Ok(
            Workspace {
                endpoint,
                settings,
                pinned,
                projects,
                reads: ReadStamps::new(),
                compiles: Table::new(),
            },
        )
    }

    /// The project that calls are about when they name none.
    pub fn pinned_project(&self) -> (project: Option<&ProjectInfo>)
        ensures
            match project {
                Some(p) => self@.pinned == Some(p@),
                None => self@.pinned is None,
            },
    {
        match &self.pinned {
            Some(project) => Some(project),
            None => None,
        }
    }

    /// Which project a call is about, as far as it is known.
    pub fn resolve_project(&self, wanted: Option<&str>) -> (resolution: Resolution)
        ensures
            resolution@ == resolved(self@, opt_str(wanted)),
    {
        let wanted = match asked(wanted) {
            Some(wanted) => wanted,
            None => {
                return match &self.pinned {
                    Some(pinned) => Resolution::Found(pinned.clone()),
                    None => Resolution::Fail(
                        OverleafError::Edit(
                            "no project given and the server has no default; pass `project` (see list_projects)".to_owned(),
                        ),
                    ),
                };
            },
        };
        if let Some(pinned) = &self.pinned {
            if !self.settings.allow_all_projects {
                if same_text(wanted.as_str(), pinned.id.as_str()) || same_but_case(
                    wanted.as_str(),
                    pinned.name.as_str(),
                ) {
                    return Resolution::Found(pinned.clone());
                }
                let mut text = concat(
                    "this server only has access to project '",
                    pinned.name.as_str(),
                );
                text.append("' (");
                text.append(pinned.id.as_str());
                text.append("); `");
                text.append(wanted.as_str());
                text.append("` is not permitted — omit the `project` parameter");
                return Resolution::Fail(OverleafError::Denied(text));
            }
        }
        match match_project(&self.projects, wanted.as_str()) {
            Some(hit) => Resolution::Found(hit),
            None => Resolution::Refresh(wanted),
        }
    }

    /// Takes in the projects that were listed anew, and finds the one that is
    /// meant.
    pub fn resolve_refreshed(
        &mut self,
        wanted: &str,
        fresh: Vec<ProjectInfo>,
    ) -> (project: Result<ProjectInfo>)
        ensures
            project_result(project) == refreshed(project_views(fresh@), wanted@),
            final(self)@ == (WorkspaceView { projects: project_views(fresh@), ..old(self)@ }),
    {
        self.projects = fresh;
        match match_project(&self.projects, wanted) {
            Some(hit) => Ok(hit),
            None => {
                let mut text = concat("project `", wanted);
                text.append("` (try list_projects)");
                Err(OverleafError::NotFound(text))
            },
        }
    }

    /// Whether a session that failed to give its tree should be replaced: when
    /// it lost track of the tree.
    pub fn should_reopen(error: &OverleafError) -> (yes: bool)
        ensures
            yes == (error@ is OutOfSync),
    {
        match error {
            OverleafError::OutOfSync(_) => true,
            _ => false,
        }
    }
}

// --- what a path leads to ------------------------------------------------

/// A path in a project, with what is there.
pub struct Located {
    pub project: ProjectInfo,
    pub tree: ProjectTree,
    /// The path in the form `/a/b/c`.
    pub path: String,
    pub entity: Option<(String, EntityKind)>,
}

/// A path in a project with what is there, as plain values.
pub struct LocatedView {
    pub project: ProjectView,
    pub tree: TreeView,
    pub path: Seq<char>,
    pub entity: Option<(Seq<char>, EntityKind)>,
}

impl View for Located {
    type V = LocatedView;

    open spec fn view(&self) -> LocatedView {
        LocatedView {
            project: self.project@,
            tree: self.tree@,
            path: self.path@,
            entity: opt_entity(self.entity),
        }
    }
}

/// What a path of a project leads to.
pub open spec fn located(project: ProjectView, tree: TreeView, path: Seq<char>) -> LocatedView {
    LocatedView {
        project,
        tree,
        path: normalized(path),
        entity: entity_at(tree.nodes, normalized(path)),
    }
}

impl Located {
    /// Finds out what a path of a project leads to.
    pub fn locate(project: ProjectInfo, tree: ProjectTree, path: &str) -> (loc: Self)
        ensures
            loc@ == located(project@, tree@, path@),
    {
        let path_text = ProjectTree::normalize_path(path);
        proof {
            normalizing_twice_is_normalizing_once(path@);
        }
        let entity = tree.lookup(path_text.as_str());
        Located { project, tree, path: path_text, entity }
    }
}

/// The case of the letters from A to Z is disregarded, and nothing else: two
/// characters count as one only where they are equal or the two cases of one of
/// these letters.
pub proof fn only_the_case_of_letters_is_disregarded(a: Seq<char>, b: Seq<char>, c: char, d: char)
    ensures
        alike(a, a),
        alike(a, b) ==> alike(b, a),
        ascii_lower(c) == ascii_lower(d) <==> c == d || 'A' <= c <= 'Z' && d as u32 == c as u32 + 32
            || 'A' <= d <= 'Z' && c as u32 == d as u32 + 32,
        alike(a, b) ==> a.len() == b.len(),
        alike(seq![c], seq![d]) <==> ascii_lower(c) == ascii_lower(d),
        alike(a, b) && ascii_lower(c) == ascii_lower(d) ==> alike(a.push(c), b.push(d)),
{
    assert(seq![c][0] == c);
    assert(seq![d][0] == d);
    assert(a.push(c).len() == a.len() + 1);
    vstd::utf8::char_u32_cast(c, c as u32);
    vstd::utf8::char_u32_cast(d, d as u32);
}

proof fn lemma_first_with_id(projects: Seq<ProjectView>, wanted: Seq<char>, from: int, i: int)
    requires
        0 <= from <= i <= projects.len(),
        forall|j: int| from <= j < i ==> (#[trigger] projects[j]).id != wanted,
        i < projects.len() ==> projects[i].id == wanted,
    ensures
        with_id(projects, wanted, from) == if i < projects.len() {
            Some(projects[i])
        } else {
            None
        },
    decreases i - from,
{
    if from < i {
        assert(projects[from].id != wanted);
        lemma_first_with_id(projects, wanted, from + 1, i);
    }
}

proof fn lemma_first_with_title(projects: Seq<ProjectView>, wanted: Seq<char>, from: int, i: int)
    requires
        0 <= from <= i <= projects.len(),
        forall|j: int| from <= j < i ==> (#[trigger] projects[j]).name != wanted,
        i < projects.len() ==> projects[i].name == wanted,
    ensures
        with_title(projects, wanted, from) == if i < projects.len() {
            Some(projects[i])
        } else {
            None
        },
    decreases i - from,
{
    if from < i {
        assert(projects[from].name != wanted);
        lemma_first_with_title(projects, wanted, from + 1, i);
    }
}

/// An id comes first: the project with it is meant, though others may be called
/// so.
pub proof fn ids_come_first(projects: Seq<ProjectView>, wanted: Seq<char>, i: int)
    requires
        0 <= i < projects.len(),
        projects[i].id == wanted,
        forall|j: int| 0 <= j < i ==> (#[trigger] projects[j]).id != wanted,
    ensures
        matching(projects, wanted) == Some(projects[i]),
{
    lemma_first_with_id(projects, wanted, 0, i);
}

/// Where no project has it for its id, the first project of just that name is
/// meant.
pub proof fn exact_names_come_second(projects: Seq<ProjectView>, wanted: Seq<char>, i: int)
    requires
        0 <= i < projects.len(),
        forall|j: int| 0 <= j < projects.len() ==> (#[trigger] projects[j]).id != wanted,
        projects[i].name == wanted,
        forall|j: int| 0 <= j < i ==> (#[trigger] projects[j]).name != wanted,
    ensures
        matching(projects, wanted) == Some(projects[i]),
{
    lemma_first_with_id(projects, wanted, 0, projects.len() as int);
    lemma_first_with_title(projects, wanted, 0, i);
}

proof fn lemma_titled_alike(projects: Seq<ProjectView>, wanted: Seq<char>, i: int, j: int)
    ensures
        titled_alike(projects, wanted).len() <= projects.len(),
        (forall|k: int| 0 <= k < projects.len() ==> !alike((#[trigger] projects[k]).name, wanted))
            ==> titled_alike(projects, wanted).len() == 0,
        0 <= i < projects.len() && alike(projects[i].name, wanted) ==> titled_alike(
            projects,
            wanted,
        ).len() >= 1,
        0 <= i < j < projects.len() && alike(projects[i].name, wanted) && alike(
            projects[j].name,
            wanted,
        ) ==> titled_alike(projects, wanted).len() >= 2,
        0 <= i < projects.len() && alike(projects[i].name, wanted) && (forall|k: int|
            0 <= k < projects.len() && k != i ==> !alike((#[trigger] projects[k]).name, wanted))
            ==> titled_alike(projects, wanted) == seq![projects[i]],
    decreases projects.len(),
{
    if projects.len() > 0 {
        let short = projects.drop_last();
        lemma_titled_alike(short, wanted, i, j);
        let last = projects.len() - 1;
        assert(projects[last] == projects.last());
        assert forall|k: int| 0 <= k < short.len() implies short[k] == #[trigger] projects[k] by {}
        if 0 <= i < j && j == last && alike(projects[i].name, wanted) {
            assert(short[i] == projects[i]);
        }
        if 0 <= i < projects.len() && alike(projects[i].name, wanted) && (forall|k: int|
            0 <= k < projects.len() && k != i ==> !alike((#[trigger] projects[k]).name, wanted)) {
            if i == last {
                assert forall|k: int| 0 <= k < short.len() implies !alike(
                    (#[trigger] short[k]).name,
                    wanted,
                ) by {
                    assert(projects[k] == short[k]);
                }
                assert(titled_alike(projects, wanted) =~= seq![projects[i]]);
            } else {
                assert forall|k: int| 0 <= k < short.len() && k != i implies !alike(
                    (#[trigger] short[k]).name,
                    wanted,
                ) by {
                    assert(projects[k] == short[k]);
                }
                assert(!alike(projects[last].name, wanted));
            }
        }
        if forall|k: int| 0 <= k < projects.len() ==> !alike((#[trigger] projects[k]).name, wanted) {
            assert forall|k: int| 0 <= k < short.len() implies !alike(
                (#[trigger] short[k]).name,
                wanted,
            ) by {
                assert(projects[k] == short[k]);
            }
            assert(!alike(projects[last].name, wanted));
        }
    }
}

/// Where neither an id nor a name fits, a name that differs only in the case of
/// its letters does, unless two projects have such a name; without one, no
/// project is meant.
pub proof fn ambiguous_names_mean_no_project(
    projects: Seq<ProjectView>,
    wanted: Seq<char>,
    i: int,
    j: int,
)
    requires
        forall|k: int|
            0 <= k < projects.len() ==> (#[trigger] projects[k]).id != wanted && projects[k].name
                != wanted,
    ensures
        (forall|k: int| 0 <= k < projects.len() ==> !alike((#[trigger] projects[k]).name, wanted))
            ==> matching(projects, wanted) is None,
        0 <= i < j < projects.len() && alike(projects[i].name, wanted) && alike(
            projects[j].name,
            wanted,
        ) ==> matching(projects, wanted) is None,
        0 <= i < projects.len() && alike(projects[i].name, wanted) && (forall|k: int|
            0 <= k < projects.len() && k != i ==> !alike((#[trigger] projects[k]).name, wanted))
            ==> matching(projects, wanted) == Some(projects[i]),
{
    lemma_first_with_id(projects, wanted, 0, projects.len() as int);
    lemma_first_with_title(projects, wanted, 0, projects.len() as int);
    lemma_titled_alike(projects, wanted, i, j);
}

/// A call that names no project, or only white space, is about the default
/// project; without one it fails. On a server that is not restricted, a call
/// that names a project is about the one that is meant among those known, and
/// the projects are listed anew only where none is.
pub proof fn calls_are_about_the_project_they_name(
    ws: WorkspaceView,
    blank: Seq<char>,
    wanted: Seq<char>,
)
    requires
        trimmed(blank).len() == 0,
        trimmed(wanted).len() > 0,
    ensures
        resolved(ws, Some(blank)) == resolved(ws, None),
        ws.pinned matches Some(project) ==> resolved(ws, None) == ResolutionView::Found(project),
        ws.pinned is None ==> resolved(ws, None) matches ResolutionView::Fail(ErrorView::Edit(_)),
        ws.pinned is None || ws.allow_all_projects ==> resolved(ws, Some(wanted)) == match matching(
            ws.projects,
            trimmed(wanted),
        ) {
            Some(project) => ResolutionView::Found(project),
            None => ResolutionView::Refresh(trimmed(wanted)),
        },
        ws.pinned is Some && !ws.allow_all_projects ==> (resolved(ws, Some(wanted)) is Found
            <==> trimmed(wanted) == ws.pinned->0.id || alike(trimmed(wanted), ws.pinned->0.name)),
        ws.pinned is Some && !ws.allow_all_projects && !(resolved(ws, Some(wanted)) is Found)
            ==> resolved(ws, Some(wanted)) matches ResolutionView::Fail(ErrorView::Denied(_)),
{
}

/// The default project has to exist: the one that is meant by it is pinned, and
/// a server without a default, or with a blank one, pins none. A project that is
/// named is looked for once more among the projects as they are now.
pub proof fn default_project_has_to_exist(projects: Seq<ProjectView>, wanted: Seq<char>)
    ensures
        pinned_by(None, projects) == Ok::<Option<ProjectView>, ErrorView>(None),
        trimmed(wanted).len() == 0 ==> pinned_by(Some(wanted), projects) == Ok::<
            Option<ProjectView>,
            ErrorView,
        >(None),
        trimmed(wanted).len() > 0 ==> match matching(projects, trimmed(wanted)) {
            Some(project) => pinned_by(Some(wanted), projects) == Ok::<
                Option<ProjectView>,
                ErrorView,
            >(Some(project)),
            None => pinned_by(Some(wanted), projects) matches Err(ErrorView::NotFound(_)),
        },
        match matching(projects, wanted) {
            Some(project) => refreshed(projects, wanted) == Ok::<ProjectView, ErrorView>(project),
            None => refreshed(projects, wanted) matches Err(ErrorView::NotFound(_)),
        },
{
}

/// A path is looked up as it is meant, not as it is written, in the tree that
/// was given, and what is found there is kept with the project.
pub proof fn paths_are_looked_up_in_the_tree(
    project: ProjectView,
    tree: TreeView,
    path: Seq<char>,
)
    requires
        tree.nodes.dom().finite(),
    ensures
        located(project, tree, path) == located(project, tree, normalized(path)),
        located(project, tree, path).project == project,
        located(project, tree, path).tree == tree,
        located(project, tree, path).entity matches Some((id, kind)) ==> tree.nodes.contains_key(id)
            && path_in(tree.nodes, id) == Some(located(project, tree, path).path)
            && tree.nodes[id].kind == kind,
{
    normalizing_twice_is_normalizing_once(path);
    lookup_finds_what_lies_there(tree.nodes, normalized(path), path);
}

} // verus!
