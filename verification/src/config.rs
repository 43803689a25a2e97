//! What one capture needs: where the tree comes from, how it is filtered and shown.
use vstd::prelude::*;

use crate::attributes::AttributeConfig;
use crate::filter::FilterConfig;
use crate::xpath::XPath;

verus! {

/// Where a UI tree comes from.
#[derive(PartialEq, Eq, Structural, Clone, Copy, Debug)]
pub enum BackendKind {
    /// A JSON snapshot on disk.
    File,
    /// The live Windows UI Automation tree.
    Win32,
}

/// The element a Windows capture starts from.
#[derive(PartialEq, Eq, Structural, Clone, Copy, Debug)]
pub enum Win32Root {
    Desktop,
    Focused,
}

impl Default for Win32Root {
    fn default() -> (r: Self)
        ensures
            r == Win32Root::Desktop,
    {
        Win32Root::Desktop
    }
}

/// Which Windows element to capture.
#[derive(Debug)]
pub struct Win32Config {
    pub root: Win32Root,
    pub process_id: Option<u32>,
    /// Lower-case text that the element's lower-cased name must contain.
    pub window_title: Option<String>,
    /// Only search the direct children of the root.
    pub top_level_only: bool,
}

impl Default for Win32Config {
    fn default() -> (r: Self)
        ensures
            r.root == Win32Root::Desktop,
            r.process_id is None,
            r.window_title is None,
            !r.top_level_only,
    {
        Win32Config {
            root: Win32Root::Desktop,
            process_id: None,
            window_title: None,
            top_level_only: false,
        }
    }
}

/// A full capture configuration.
#[derive(Debug)]
pub struct AppConfig {
    pub backend: BackendKind,
    /// Path of the JSON snapshot, for the file backend.
    pub input: Option<String>,
    pub filter: FilterConfig,
    pub attributes: AttributeConfig,
    /// Selects the subtree(s) to keep before filtering.
    pub xpath: Option<XPath>,
    pub win32: Win32Config,
}

} // verus!
