//! Where the tree of a run comes from, and what can go wrong getting it.
use vstd::prelude::*;

use crate::config::{BackendKind, Win32Config};
use crate::text::push_str;

verus! {

/// Why no tree could be loaded. `path` holds the path as it is quoted in messages;
/// `detail` the underlying error's message.
#[derive(Debug)]
pub enum BackendError {
    MissingInput,
    ReadFailure { path: String, detail: String },
    ParseFailure { path: String, detail: String },
    WindowsAutomation { detail: String },
    WindowsTargetNotFound { selectors: String },
}

/// What to load: a JSON snapshot at a path, or the live Windows tree.
pub enum TreeSource {
    File(String),
    Win32(Win32Config),
}

/// Decides where the tree comes from; the file backend needs an input path.
pub fn tree_source(backend: BackendKind, input: &Option<String>, win32: &Win32Config) -> (r: Result<
    TreeSource,
    BackendError,
>)
    ensures
        match r {
            Ok(TreeSource::File(p)) => backend == BackendKind::File && *input == Some(p),
            Ok(TreeSource::Win32(w)) => backend == BackendKind::Win32 && w.root == win32.root
                && w.process_id == win32.process_id && w.window_title == win32.window_title
                && w.top_level_only == win32.top_level_only,
            Err(e) => backend == BackendKind::File && input is None && e is MissingInput,
        },
{
    match backend {
        BackendKind::File => match input {
            Some(p) => Ok(TreeSource::File(p.clone())),
            None => Err(BackendError::MissingInput),
        },
        BackendKind::Win32 => {
            let title = match &win32.window_title {
                Some(t) => Some(t.clone()),
                None => None,
            };
            Ok(
                TreeSource::Win32(
                    Win32Config {
                        root: win32.root,
                        process_id: win32.process_id,
                        window_title: title,
                        top_level_only: win32.top_level_only,
                    },
                ),
            )
        },
    }
}

impl BackendError {
    /// The error message.
    pub fn message(&self) -> (r: String)
        ensures
            r@ == match self {
                BackendError::MissingInput => "missing input for file backend"@,
                BackendError::ReadFailure { path, .. } => "failed to read UI tree from "@ + path@,
                BackendError::ParseFailure { path, .. } => "failed to parse UI tree from "@ + path@,
                BackendError::WindowsAutomation { detail } => "failed to capture Windows UI Automation tree: "@ + detail@,
                BackendError::WindowsTargetNotFound { selectors } => "no Windows UI element matched the provided selectors: "@ + selectors@,
            },
    {
        let mut out = String::new();
        match self {
            BackendError::MissingInput => push_str(&mut out, "missing input for file backend"),
            BackendError::ReadFailure { path, .. } => {
                push_str(&mut out, "failed to read UI tree from ");
                push_str(&mut out, path.as_str());
            },
            BackendError::ParseFailure { path, .. } => {
                push_str(&mut out, "failed to parse UI tree from ");
                push_str(&mut out, path.as_str());
            },
            BackendError::WindowsAutomation { detail } => {
                push_str(&mut out, "failed to capture Windows UI Automation tree: ");
                push_str(&mut out, detail.as_str());
            },
            BackendError::WindowsTargetNotFound { selectors } => {
                push_str(&mut out, "no Windows UI element matched the provided selectors: ");
                push_str(&mut out, selectors.as_str());
            },
        }
        out
    }
}

} // verus!
