//! The arguments of the tools.
use vstd::prelude::*;

use crate::text::opt_text;

verus! {

/// Arguments of `list_projects`.
#[derive(Debug)]
pub struct ListProjectsArgs {}

/// Arguments of `list_files`. Here and below, `project` is the name or id of a
/// project.
#[derive(Debug)]
pub struct ListFilesArgs {
    pub project: Option<String>,
}

/// Arguments of `read_file`.
#[derive(Debug)]
pub struct ReadFileArgs {
    pub project: Option<String>,
    pub path: String,
    /// The line to begin with, from 1 on.
    pub offset: Option<usize>,
    /// How many lines to show at most.
    pub limit: Option<usize>,
}

/// Arguments of `stat_file`.
#[derive(Debug)]
pub struct StatFileArgs {
    pub project: Option<String>,
    pub path: String,
}

/// Arguments of `edit_file`.
#[derive(Debug)]
pub struct EditFileArgs {
    pub project: Option<String>,
    pub path: String,
    /// The text to replace.
    pub old_string: String,
    /// The text to put in its place.
    pub new_string: String,
    /// Whether to replace every occurrence.
    pub replace_all: Option<bool>,
}

/// Arguments of `write_file`.
#[derive(Debug)]
pub struct WriteFileArgs {
    pub project: Option<String>,
    pub path: String,
    pub content: String,
}

/// Arguments of `search`.
#[derive(Debug)]
pub struct SearchArgs {
    pub project: Option<String>,
    /// A regular expression, matched line by line.
    pub pattern: String,
    /// The doc or folder to search.
    pub path: Option<String>,
    pub case_insensitive: Option<bool>,
}

/// Arguments of `create_folder`.
#[derive(Debug)]
pub struct CreateFolderArgs {
    pub project: Option<String>,
    pub path: String,
}

/// Arguments of `delete_entity`.
#[derive(Debug)]
pub struct DeleteEntityArgs {
    pub project: Option<String>,
    pub path: String,
}

/// Arguments of `rename_entity`.
#[derive(Debug)]
pub struct RenameEntityArgs {
    pub project: Option<String>,
    pub path: String,
    pub new_name: String,
}

/// Arguments of `move_entity`.
#[derive(Debug)]
pub struct MoveEntityArgs {
    pub project: Option<String>,
    pub path: String,
    pub target_folder: String,
}

/// Arguments of `upload_file`.
#[derive(Debug)]
pub struct UploadFileArgs {
    pub project: Option<String>,
    pub local_path: String,
    pub project_path: String,
}

/// Arguments of `download_file`.
#[derive(Debug)]
pub struct DownloadFileArgs {
    pub project: Option<String>,
    pub path: String,
    pub local_path: String,
}

/// Arguments of `get_history`.
#[derive(Debug)]
pub struct GetHistoryArgs {
    pub project: Option<String>,
    /// The time to go back from.
    pub before: Option<i64>,
}

/// Arguments of `label_version`.
#[derive(Debug)]
pub struct LabelVersionArgs {
    pub project: Option<String>,
    pub version: i64,
    pub comment: String,
}

/// Arguments of `compile`.
#[derive(Debug)]
pub struct CompileArgs {
    pub project: Option<String>,
}

/// Arguments of `read_log`.
#[derive(Debug)]
pub struct ReadLogArgs {
    pub project: Option<String>,
    /// The line to begin with, from 1 on.
    pub offset: Option<usize>,
    /// How many lines to show at most.
    pub limit: Option<usize>,
}

/// Arguments of `download_output`.
#[derive(Debug)]
pub struct DownloadOutputArgs {
    pub project: Option<String>,
    pub file: Option<String>,
    pub local_path: String,
}

impl EditFileArgs {
    /// Whether to replace every occurrence; only a single one by default.
    pub fn replaces_all(&self) -> (yes: bool)
        ensures
            yes == (self.replace_all == Some(true)),
    {
        match self.replace_all {
            Some(yes) => yes,
            None => false,
        }
    }
}

impl SearchArgs {
    /// Whether to disregard the case of letters; by default it counts.
    pub fn ignores_case(&self) -> (yes: bool)
        ensures
            yes == (self.case_insensitive == Some(true)),
    {
        match self.case_insensitive {
            Some(yes) => yes,
            None => false,
        }
    }
}

impl GetHistoryArgs {
    /// Whether pending edits are to be brought into the history first: they can
    /// only show on its newest page.
    pub fn flushes_first(&self) -> (yes: bool)
        ensures
            yes == (self.before is None),
    {
        self.before.is_none()
    }
}

impl DownloadOutputArgs {
    /// The file to get; by default `output.pdf`.
    pub fn wanted_file(&self) -> (file: String)
        ensures
            file@ == (match opt_text(self.file) {
                Some(file) => file,
                None => "output.pdf"@,
            }),
    {
        match &self.file {
            Some(file) => file.clone(),
            None => "output.pdf".to_owned(),
        }
    }
}

} // verus!
