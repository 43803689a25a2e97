//! The builder-style capture configuration that the Python binding exposes, and its
//! validation into a full capture configuration.
use vstd::prelude::*;

use crate::attributes::{normalize_keys, strings_view, AttributeConfig, AttributeSet};
use crate::config::{AppConfig, BackendKind, Win32Config, Win32Root};
use crate::filter::FilterConfig;
use crate::keyed::pairs_view;
use crate::model::{clone_opt_string, opt_view};
use crate::text::{
    ascii_lower_seq, lowercase, str_eq, to_ascii_lowercase, to_lowercase, trim, trim_str,
};
use crate::xpath::{error_text, parse_xpath_spec, XPath, XPathErrorView};

verus! {

/// A capture configuration built step by step. Every builder returns a new
/// configuration and leaves the receiver as it was.
#[derive(Debug)]
pub struct SpyConfig {
    pub backend: BackendKind,
    pub input: Option<String>,
    pub max_depth: Option<usize>,
    pub include_ancestors: bool,
    /// Lower-cased, trimmed, non-empty.
    pub filter_name: Option<String>,
    /// Lower-cased, trimmed, non-empty.
    pub filter_role: Option<String>,
    pub filter_attrs: Vec<(String, String)>,
    pub attribute_set: AttributeSet,
    pub attribute_keys: Vec<String>,
    /// Trimmed, non-empty.
    pub xpath: Option<String>,
    pub win32_root: Win32Root,
    pub win32_process_id: Option<u32>,
    pub win32_window_title: Option<String>,
    pub win32_top_level_only: bool,
}

pub struct SpyConfigView {
    pub backend: BackendKind,
    pub input: Option<Seq<char>>,
    pub max_depth: Option<usize>,
    pub include_ancestors: bool,
    pub filter_name: Option<Seq<char>>,
    pub filter_role: Option<Seq<char>>,
    pub filter_attrs: Seq<(Seq<char>, Seq<char>)>,
    pub attribute_set: AttributeSet,
    pub attribute_keys: Seq<Seq<char>>,
    pub xpath: Option<Seq<char>>,
    pub win32_root: Win32Root,
    pub win32_process_id: Option<u32>,
    pub win32_window_title: Option<Seq<char>>,
    pub win32_top_level_only: bool,
}

impl View for SpyConfig {
    type V = SpyConfigView;

    open spec fn view(&self) -> SpyConfigView {
        SpyConfigView {
            backend: self.backend,
            input: opt_view(self.input),
            max_depth: self.max_depth,
            include_ancestors: self.include_ancestors,
            filter_name: opt_view(self.filter_name),
            filter_role: opt_view(self.filter_role),
            filter_attrs: pairs_view(self.filter_attrs@),
            attribute_set: self.attribute_set,
            attribute_keys: strings_view(self.attribute_keys@),
            xpath: opt_view(self.xpath),
            win32_root: self.win32_root,
            win32_process_id: self.win32_process_id,
            win32_window_title: opt_view(self.win32_window_title),
            win32_top_level_only: self.win32_top_level_only,
        }
    }
}

/// The configuration that `SpyConfig::default` gives.
pub open spec fn default_view() -> SpyConfigView {
    SpyConfigView {
        backend: BackendKind::File,
        input: None,
        max_depth: None,
        include_ancestors: true,
        filter_name: None,
        filter_role: None,
        filter_attrs: Seq::empty(),
        attribute_set: AttributeSet::Essential,
        attribute_keys: Seq::empty(),
        xpath: None,
        win32_root: Win32Root::Desktop,
        win32_process_id: None,
        win32_window_title: None,
        win32_top_level_only: false,
    }
}

/// A name filter as stored: `None` for blank text, otherwise the trimmed text
/// lower-cased.
pub open spec fn normalized_filter(raw: Seq<char>) -> Option<Seq<char>> {
    if trim(raw).len() == 0 {
        None
    } else {
        Some(lowercase(trim(raw)))
    }
}

impl Default for SpyConfig {
    fn default() -> (r: Self)
        ensures
            r@ == default_view(),
    {
        let r = SpyConfig {
            backend: BackendKind::File,
            input: None,
            max_depth: None,
            include_ancestors: true,
            filter_name: None,
            filter_role: None,
            filter_attrs: Vec::new(),
            attribute_set: AttributeSet::Essential,
            attribute_keys: Vec::new(),
            xpath: None,
            win32_root: Win32Root::Desktop,
            win32_process_id: None,
            win32_window_title: None,
            win32_top_level_only: false,
        };
        assert(pairs_view(r.filter_attrs@) =~= Seq::<(Seq<char>, Seq<char>)>::empty());
        assert(strings_view(r.attribute_keys@) =~= Seq::<Seq<char>>::empty());
        r
    }
}

pub(crate) fn clone_strings(v: &Vec<String>) -> (r: Vec<String>)
    ensures
        r@ == v@,
{
    let mut out: Vec<String> = Vec::new();
    let mut i: usize = 0;
    while i < v.len()
        invariant
            i <= v.len(),
            out@ == v@.take(i as int),
        decreases v.len() - i,
    {
        out.push(v[i].clone());
        assert(out@ =~= v@.take(i + 1));
        i = i + 1;
    }
    assert(v@.take(v.len() as int) =~= v@);
    out
}

fn clone_pairs(v: &Vec<(String, String)>) -> (r: Vec<(String, String)>)
    ensures
        r@ == v@,
{
    let mut out: Vec<(String, String)> = Vec::new();
    let mut i: usize = 0;
    while i < v.len()
        invariant
            i <= v.len(),
            out@ == v@.take(i as int),
        decreases v.len() - i,
    {
        out.push((v[i].0.clone(), v[i].1.clone()));
        assert(out@ =~= v@.take(i + 1));
        i = i + 1;
    }
    assert(v@.take(v.len() as int) =~= v@);
    out
}

/// The backend a name stands for, compared up to ASCII case. The Windows backend is
/// named only where it is available (in Windows builds).
pub open spec fn backend_named(name: Seq<char>, win32_available: bool) -> Option<BackendKind> {
    if ascii_lower_seq(name) == "file"@ {
        Some(BackendKind::File)
    } else if win32_available && ascii_lower_seq(name) == "win32"@ {
        Some(BackendKind::Win32)
    } else {
        None
    }
}

/// The attribute set a name stands for, compared up to ASCII case.
pub open spec fn attribute_set_named(name: Seq<char>) -> Option<AttributeSet> {
    if ascii_lower_seq(name) == "none"@ {
        Some(AttributeSet::Nothing)
    } else if ascii_lower_seq(name) == "essential"@ {
        Some(AttributeSet::Essential)
    } else if ascii_lower_seq(name) == "full"@ {
        Some(AttributeSet::Full)
    } else {
        None
    }
}

/// The Windows root a name stands for, compared up to ASCII case.
pub open spec fn root_named(name: Seq<char>) -> Option<Win32Root> {
    if ascii_lower_seq(name) == "desktop"@ {
        Some(Win32Root::Desktop)
    } else if ascii_lower_seq(name) == "focused"@ {
        Some(Win32Root::Focused)
    } else {
        None
    }
}

/// `"file"` or (where the Windows backend is available) `"win32"`, compared up to
/// ASCII case.
pub fn parse_backend(input: &str, win32_available: bool) -> (r: Result<BackendKind, String>)
    ensures
        match r {
            Ok(b) => backend_named(input@, win32_available) == Some(b),
            Err(m) => backend_named(input@, win32_available) is None && m@
                == "supported backends are 'file' and 'win32'"@,
        },
{
    let lowered = to_ascii_lowercase(input);
    if str_eq(lowered.as_str(), "file") {
        Ok(BackendKind::File)
    } else if win32_available && str_eq(lowered.as_str(), "win32") {
        Ok(BackendKind::Win32)
    } else {
        Err(String::from_str("supported backends are 'file' and 'win32'"))
    }
}

/// `"none"`, `"essential"` or `"full"`, compared up to ASCII case.
pub fn parse_attribute_set(input: &str) -> (r: Result<AttributeSet, String>)
    ensures
        match r {
            Ok(s) => attribute_set_named(input@) == Some(s),
            Err(m) => attribute_set_named(input@) is None && m@
                == "attribute set must be 'none', 'essential', or 'full'"@,
        },
{
    let lowered = to_ascii_lowercase(input);
    if str_eq(lowered.as_str(), "none") {
        Ok(AttributeSet::Nothing)
    } else if str_eq(lowered.as_str(), "essential") {
        Ok(AttributeSet::Essential)
    } else if str_eq(lowered.as_str(), "full") {
        Ok(AttributeSet::Full)
    } else {
        Err(String::from_str("attribute set must be 'none', 'essential', or 'full'"))
    }
}

/// `"desktop"` or `"focused"`, compared up to ASCII case.
pub fn parse_win32_root(input: &str) -> (r: Result<Win32Root, String>)
    ensures
        match r {
            Ok(w) => root_named(input@) == Some(w),
            Err(m) => root_named(input@) is None && m@
                == "win32 root must be 'desktop' or 'focused'"@,
        },
{
    let lowered = to_ascii_lowercase(input);
    if str_eq(lowered.as_str(), "desktop") {
        Ok(Win32Root::Desktop)
    } else if str_eq(lowered.as_str(), "focused") {
        Ok(Win32Root::Focused)
    } else {
        Err(String::from_str("win32 root must be 'desktop' or 'focused'"))
    }
}

/// Whether the backend is the Windows one, which exists only where it is available.
pub fn is_win32_backend(backend: &BackendKind, win32_available: bool) -> (r: bool)
    ensures
        r == (win32_available && *backend == BackendKind::Win32),
{
    win32_available && *backend == BackendKind::Win32
}

/// Trims, then lower-cases a non-empty result.
fn normalize_filter(raw: &str) -> (r: Option<String>)
    ensures
        opt_view(r) == normalized_filter(raw@),
{
    let trimmed = trim_str(raw);
    if trimmed.as_str().is_empty() {
        None
    } else {
        Some(to_lowercase(trimmed.as_str()))
    }
}

impl SpyConfig {
    /// The default configuration: file backend, ancestors kept, essential attributes.
    pub fn new() -> (r: Self)
        ensures
            r@ == default_view(),
    {
        SpyConfig::default()
    }

    /// A copy of the configuration.
    pub fn clone_config(&self) -> (r: Self)
        ensures
            r@ == self@,
    {
        SpyConfig {
            backend: self.backend,
            input: clone_opt_string(&self.input),
            max_depth: self.max_depth,
            include_ancestors: self.include_ancestors,
            filter_name: clone_opt_string(&self.filter_name),
            filter_role: clone_opt_string(&self.filter_role),
            filter_attrs: clone_pairs(&self.filter_attrs),
            attribute_set: self.attribute_set,
            attribute_keys: clone_strings(&self.attribute_keys),
            xpath: clone_opt_string(&self.xpath),
            win32_root: self.win32_root,
            win32_process_id: self.win32_process_id,
            win32_window_title: clone_opt_string(&self.win32_window_title),
            win32_top_level_only: self.win32_top_level_only,
        }
    }

    /// The default configuration with the named backend; `win32_available` tells
    /// whether this is a Windows build.
    pub fn backend(backend: &str, win32_available: bool) -> (r: Result<Self, String>)
        ensures
            match r {
                Ok(c) => backend_named(backend@, win32_available) == Some(c@.backend) && c@
                    == (SpyConfigView { backend: c@.backend, ..default_view() }),
                Err(m) => backend_named(backend@, win32_available) is None && m@
                    == "supported backends are 'file' and 'win32'"@,
            },
    {
        let b = parse_backend(backend, win32_available)?;
        let mut cfg = SpyConfig::default();
        cfg.backend = b;
        Ok(cfg)
    }
}

impl SpyConfig {
    /// A copy with the named backend; `win32_available` tells whether this is a
    /// Windows build.
    pub fn with_backend(&self, backend: &str, win32_available: bool) -> (r: Result<Self, String>)
        ensures
            match r {
                Ok(c) => backend_named(backend@, win32_available) == Some(c@.backend) && c@
                    == (SpyConfigView { backend: c@.backend, ..self@ }),
                Err(m) => backend_named(backend@, win32_available) is None && m@
                    == "supported backends are 'file' and 'win32'"@,
            },
    {
        let b = parse_backend(backend, win32_available)?;
        let mut cfg = self.clone_config();
        cfg.backend = b;
        Ok(cfg)
    }

    /// A copy that reads the snapshot at `path` (kept as given); a blank path is refused.
    pub fn with_input(&self, path: &str) -> (r: Result<Self, String>)
        ensures
            match r {
                Ok(c) => trim(path@).len() > 0 && c@ == (SpyConfigView {
                    input: Some(path@),
                    ..self@
                }),
                Err(m) => trim(path@).len() == 0 && m@ == "input path cannot be empty"@,
            },
    {
        let trimmed = trim_str(path);
        if trimmed.as_str().is_empty() {
            return Err(String::from_str("input path cannot be empty"));
        }
        let mut cfg = self.clone_config();
        cfg.input = Some(String::from_str(path));
        Ok(cfg)
    }

    /// A copy with the given depth limit.
    pub fn with_max_depth(&self, depth: Option<usize>) -> (r: Self)
        ensures
            r@ == (SpyConfigView { max_depth: depth, ..self@ }),
    {
        let mut cfg = self.clone_config();
        cfg.max_depth = depth;
        cfg
    }

    /// A copy that keeps (or lifts out) the ancestors of matching nodes.
    pub fn include_ancestors(&self, keep: bool) -> (r: Self)
        ensures
            r@ == (SpyConfigView { include_ancestors: keep, ..self@ }),
    {
        let mut cfg = self.clone_config();
        cfg.include_ancestors = keep;
        cfg
    }

    /// A copy with a name filter: the trimmed text lower-cased, none for blank text.
    pub fn with_name_filter(&self, name: &str) -> (r: Self)
        ensures
            r@ == (SpyConfigView { filter_name: normalized_filter(name@), ..self@ }),
    {
        let mut cfg = self.clone_config();
        cfg.filter_name = normalize_filter(name);
        cfg
    }

    /// A copy with a role filter: the trimmed text lower-cased, none for blank text.
    pub fn with_role_filter(&self, role: &str) -> (r: Self)
        ensures
            r@ == (SpyConfigView { filter_role: normalized_filter(role@), ..self@ }),
    {
        let mut cfg = self.clone_config();
        cfg.filter_role = normalize_filter(role);
        cfg
    }

    /// A copy with one more attribute filter, key and value trimmed; both must be
    /// non-blank.
    pub fn add_attribute_filter(&self, key: &str, value: &str) -> (r: Result<Self, String>)
        ensures
            match r {
                Ok(c) => trim(key@).len() > 0 && trim(value@).len() > 0 && c@ == (SpyConfigView {
                    filter_attrs: self@.filter_attrs.push((trim(key@), trim(value@))),
                    ..self@
                }),
                Err(m) => (trim(key@).len() == 0 || trim(value@).len() == 0) && m@
                    == "attribute filters require non-empty key and value"@,
            },
    {
        let k = trim_str(key);
        let v = trim_str(value);
        if k.as_str().is_empty() || v.as_str().is_empty() {
            return Err(String::from_str("attribute filters require non-empty key and value"));
        }
        let mut cfg = self.clone_config();
        let ghost before = pairs_view(cfg.filter_attrs@);
        cfg.filter_attrs.push((k, v));
        assert(pairs_view(cfg.filter_attrs@) =~= before.push((trim(key@), trim(value@))));
        Ok(cfg)
    }

    /// A copy without attribute filters.
    pub fn clear_attribute_filters(&self) -> (r: Self)
        ensures
            r@ == (SpyConfigView { filter_attrs: Seq::empty(), ..self@ }),
    {
        let mut cfg = self.clone_config();
        cfg.filter_attrs = Vec::new();
        assert(pairs_view(cfg.filter_attrs@) =~= Seq::<(Seq<char>, Seq<char>)>::empty());
        cfg
    }

    /// A copy with the named attribute set.
    pub fn with_attribute_set(&self, set: &str) -> (r: Result<Self, String>)
        ensures
            match r {
                Ok(c) => attribute_set_named(set@) == Some(c@.attribute_set) && c@
                    == (SpyConfigView { attribute_set: c@.attribute_set, ..self@ }),
                Err(m) => attribute_set_named(set@) is None && m@
                    == "attribute set must be 'none', 'essential', or 'full'"@,
            },
    {
        let s = parse_attribute_set(set)?;
        let mut cfg = self.clone_config();
        cfg.attribute_set = s;
        Ok(cfg)
    }

    /// A copy with one more attribute key to show (trimmed; blank keys are ignored).
    pub fn add_attribute_key(&self, key: &str) -> (r: Self)
        ensures
            r@ == (SpyConfigView {
                attribute_keys: if trim(key@).len() > 0 {
                    self@.attribute_keys.push(trim(key@))
                } else {
                    self@.attribute_keys
                },
                ..self@
            }),
    {
        let mut cfg = self.clone_config();
        let k = trim_str(key);
        if !k.as_str().is_empty() {
            let ghost before = strings_view(cfg.attribute_keys@);
            cfg.attribute_keys.push(k);
            assert(strings_view(cfg.attribute_keys@) =~= before.push(trim(key@)));
        }
        cfg
    }

    /// A copy without extra attribute keys.
    pub fn clear_attribute_keys(&self) -> (r: Self)
        ensures
            r@ == (SpyConfigView { attribute_keys: Seq::empty(), ..self@ }),
    {
        let mut cfg = self.clone_config();
        cfg.attribute_keys = Vec::new();
        assert(strings_view(cfg.attribute_keys@) =~= Seq::<Seq<char>>::empty());
        cfg
    }

    /// A copy with the XPath expression trimmed; blank text removes it.
    pub fn with_xpath(&self, xpath: &str) -> (r: Self)
        ensures
            r@ == (SpyConfigView {
                xpath: if trim(xpath@).len() == 0 {
                    None
                } else {
                    Some(trim(xpath@))
                },
                ..self@
            }),
    {
        let mut cfg = self.clone_config();
        let t = trim_str(xpath);
        if t.as_str().is_empty() {
            cfg.xpath = None;
        } else {
            cfg.xpath = Some(t);
        }
        cfg
    }

    /// A copy that looks for an element of this process.
    pub fn with_process_id(&self, process_id: Option<u32>) -> (r: Self)
        ensures
            r@ == (SpyConfigView { win32_process_id: process_id, ..self@ }),
    {
        let mut cfg = self.clone_config();
        cfg.win32_process_id = process_id;
        cfg
    }

    /// A copy that looks for an element whose name contains this title.
    pub fn with_window_title(&self, title: Option<&str>) -> (r: Self)
        ensures
            r@ == (SpyConfigView {
                win32_window_title: match title {
                    Some(t) => Some(t@),
                    None => None,
                },
                ..self@
            }),
    {
        let mut cfg = self.clone_config();
        cfg.win32_window_title = match title {
            Some(t) => Some(String::from_str(t)),
            None => None,
        };
        cfg
    }

    /// A copy that searches only the direct children of the root.
    pub fn with_top_level_only(&self, top_level_only: bool) -> (r: Self)
        ensures
            r@ == (SpyConfigView { win32_top_level_only: top_level_only, ..self@ }),
    {
        let mut cfg = self.clone_config();
        cfg.win32_top_level_only = top_level_only;
        cfg
    }

    /// A copy with the named Windows root.
    pub fn with_root(&self, root: &str) -> (r: Result<Self, String>)
        ensures
            match r {
                Ok(c) => root_named(root@) == Some(c@.win32_root) && c@ == (SpyConfigView {
                    win32_root: c@.win32_root,
                    ..self@
                }),
                Err(m) => root_named(root@) is None && m@
                    == "win32 root must be 'desktop' or 'focused'"@,
            },
    {
        let w = parse_win32_root(root)?;
        let mut cfg = self.clone_config();
        cfg.win32_root = w;
        Ok(cfg)
    }
}

/// The window title a capture searches for: trimmed and lower-cased, none when that
/// leaves nothing.
pub open spec fn core_window_title(t: Option<Seq<char>>) -> Option<Seq<char>> {
    match t {
        Some(v) => if lowercase(trim(v)).len() == 0 {
            None
        } else {
            Some(lowercase(trim(v)))
        },
        None => None,
    }
}

/// The attribute filters as a capture uses them: values lower-cased.
pub open spec fn lowered_filters(s: Seq<(Seq<char>, Seq<char>)>) -> Seq<(Seq<char>, Seq<char>)> {
    s.map_values(|p: (Seq<char>, Seq<char>)| (p.0, lowercase(p.1)))
}

/// A file backend without an input path is refused.
pub open spec fn lacks_input(c: SpyConfigView) -> bool {
    c.backend == BackendKind::File && c.input is None
}

/// Everything of a capture configuration that does not depend on the XPath.
pub open spec fn core_matches(c: SpyConfigView, a: AppConfig) -> bool {
    &&& a.backend == c.backend
    &&& opt_view(a.input) == c.input
    &&& a.filter.max_depth == c.max_depth
    &&& a.filter.include_ancestors == c.include_ancestors
    &&& opt_view(a.filter.name_substring) == c.filter_name
    &&& opt_view(a.filter.role) == c.filter_role
    &&& pairs_view(a.filter.attr_equals@) == lowered_filters(c.filter_attrs)
    &&& a.attributes.set == c.attribute_set
    &&& strings_view(a.attributes.additional@) == normalize_keys(c.attribute_keys)
    &&& a.win32.root == c.win32_root
    &&& a.win32.process_id == c.win32_process_id
    &&& opt_view(a.win32.window_title) == core_window_title(c.win32_window_title)
    &&& a.win32.top_level_only == c.win32_top_level_only
}

impl SpyConfig {
    /// The full capture configuration. Fails when the file backend has no input path,
    /// or with the parse error's message when the XPath does not parse.
    pub fn to_core_config(&self) -> (r: Result<AppConfig, String>)
        ensures
            match r {
                Ok(a) => {
                    &&& !lacks_input(self@)
                    &&& core_matches(self@, a)
                    &&& match self@.xpath {
                        None => a.xpath is None,
                        Some(x) => a.xpath matches Some(p) && parse_xpath_spec(x) == Ok::<
                            Seq<crate::xpath::SegmentView>,
                            XPathErrorView,
                        >(p@),
                    }
                },
                Err(m) => if lacks_input(self@) {
                    m@ == "file backend requires an input path via with_input()"@
                } else {
                    self@.xpath matches Some(x) && parse_xpath_spec(x) matches Err(e) && m@
                        == error_text(e)
                },
            },
    {
        if self.backend == BackendKind::File && self.input.is_none() {
            return Err(String::from_str("file backend requires an input path via with_input()"));
        }
        let filter = FilterConfig::new(
            self.max_depth,
            self.include_ancestors,
            clone_opt_string(&self.filter_name),
            clone_opt_string(&self.filter_role),
            clone_pairs(&self.filter_attrs),
        );
        assert(pairs_view(filter.attr_equals@) =~= lowered_filters(self@.filter_attrs));
        let attributes = AttributeConfig::new(self.attribute_set, clone_strings(&self.attribute_keys));
        let xpath = match &self.xpath {
            Some(expr) => match XPath::parse(expr.as_str()) {
                Ok(x) => Some(x),
                Err(e) => {
                    return Err(e.message());
                },
            },
            None => None,
        };
        let window_title = match &self.win32_window_title {
            Some(t) => {
                let trimmed = trim_str(t.as_str());
                let lowered = to_lowercase(trimmed.as_str());
                if lowered.as_str().is_empty() {
                    None
                } else {
                    Some(lowered)
                }
            },
            None => None,
        };
        let win32 = Win32Config {
            root: self.win32_root,
            process_id: self.win32_process_id,
            window_title,
            top_level_only: self.win32_top_level_only,
        };
        Ok(
            AppConfig {
                backend: self.backend,
                input: clone_opt_string(&self.input),
                filter,
                attributes,
                xpath,
                win32,
            },
        )
    }
}

} // verus!
