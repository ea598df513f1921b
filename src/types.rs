//! The records of the persisted dataset and the results handed back to callers.
use vstd::prelude::*;
use crate::text::str_eq;

verus! {

/// The name carried by the synthetic node that marks the top of a project's tree.
pub open spec fn root_sentinel() -> Seq<char> {
    "__PROJECT_ROOT__"@
}

/// A project: its identifier, display name, root node and owning client.
#[derive(Clone, Debug)]
pub struct Project {
    pub id: String,
    pub name: String,
    pub root_id: Option<String>,
    pub client_id: Option<String>,
}

/// One file or folder of a project's virtual tree.
///
/// `file_path` is the node's location relative to the project directory, with
/// `/` as separator; `node_type` is `"file"` or `"folder"`.
#[derive(Clone, Debug)]
pub struct Node {
    pub id: String,
    pub name: String,
    pub node_type: String,
    pub extension: Option<String>,
    pub parent_id: Option<String>,
    pub project_id: String,
    pub hidden: Option<bool>,
    pub file_path: Option<String>,
    pub size: Option<u64>,
    pub modified: Option<i64>,
    pub is_binary: Option<bool>,
}

/// The display color of a client.
#[derive(Clone, Debug)]
pub struct ClientColor {
    pub name: String,
    pub value: String,
    pub bg: String,
    pub dark: String,
}

/// A client grouping several projects.
#[derive(Clone, Debug)]
pub struct Client {
    pub id: String,
    pub name: String,
    pub projects: Vec<String>,
    pub color: Option<ClientColor>,
}

/// The whole persisted dataset, read and written as one unit.
#[derive(Clone, Debug)]
pub struct ProjectData {
    pub projects: Vec<Project>,
    pub nodes: Vec<Node>,
    pub clients: Vec<Client>,
}

/// Metadata of a file on disk together with its classification.
#[derive(Clone, Debug)]
pub struct FileStats {
    pub size: u64,
    pub modified: i64,
    pub created: i64,
    pub is_binary: bool,
    pub file_type: String,
}

/// What an import placed in a project directory.
#[derive(Clone, Debug)]
pub struct ImportResult {
    pub node_id: String,
    pub name: String,
    pub node_type: String,
    pub extension: Option<String>,
    pub size: u64,
    pub is_binary: bool,
    pub file_path: Option<String>,
}

/// The outcome of running a script.
#[derive(Clone, Debug)]
pub struct ExecutionResult {
    pub success: bool,
    pub stdout: String,
    pub stderr: String,
    pub exit_code: Option<i32>,
    pub duration_ms: u64,
}

/// A copy of an optional string.
pub fn copy_opt_string(s: &Option<String>) -> (r: Option<String>)
    ensures
        r == *s,
{
    match s {
        Some(v) => Some(v.clone()),
        None => None,
    }
}

impl ProjectData {
    /// The dataset of a store that does not exist yet.
    pub fn empty() -> (r: ProjectData)
        ensures
            r.projects@.len() == 0,
            r.nodes@.len() == 0,
            r.clients@.len() == 0,
    {
        ProjectData { projects: Vec::new(), nodes: Vec::new(), clients: Vec::new() }
    }
}

impl Node {
    /// The node marks the top of its project's tree.
    pub open spec fn is_root_marker(&self) -> bool {
        self.hidden == Some(true) || self.name@ == root_sentinel()
    }

    /// The node's parent reference; empty when it has none.
    pub open spec fn parent_ref(&self) -> Seq<char> {
        match self.parent_id {
            Some(p) => p@,
            None => Seq::empty(),
        }
    }

    /// Whether the node marks the top of its project's tree.
    pub fn marks_root(&self) -> (r: bool)
        ensures
            r == self.is_root_marker(),
    {
        let hidden = match self.hidden {
            Some(h) => h,
            None => false,
        };
        hidden || str_eq(self.name.as_str(), "__PROJECT_ROOT__")
    }

    /// A field-for-field copy.
    pub fn duplicate(&self) -> (r: Node)
        ensures
            r == *self,
    {
        Node {
            id: self.id.clone(),
            name: self.name.clone(),
            node_type: self.node_type.clone(),
            extension: copy_opt_string(&self.extension),
            parent_id: copy_opt_string(&self.parent_id),
            project_id: self.project_id.clone(),
            hidden: self.hidden,
            file_path: copy_opt_string(&self.file_path),
            size: self.size,
            modified: self.modified,
            is_binary: self.is_binary,
        }
    }
}

} // verus!
