//! The command line of the spy tool and its validation into a configuration.
use vstd::prelude::*;

use crate::attributes::{normalize_keys, strings_view, AttributeConfig, AttributeSet};
use crate::config::{BackendKind, Win32Config, Win32Root};
use crate::filter::FilterConfig;
use crate::xpath::{error_text, parse_xpath_spec, SegmentView, XPath, XPathErrorView, XPathParseError};
use crate::text::{
    chars_of, lowercase, push_str, split_once, split_once_chars, string_of, to_lowercase, trim,
    trim_chars, trim_str,
};

verus! {

/// How the result is printed.
#[derive(PartialEq, Eq, Structural, Clone, Copy, Debug)]
pub enum OutputFormat {
    Tree,
    Json,
}

/// Options that only the Windows backend takes.
pub struct Win32CliOptions {
    pub root: Win32Root,
    pub process_id: Option<u32>,
    pub window_title: Option<String>,
    pub top_level_only: bool,
}

impl Default for Win32CliOptions {
    fn default() -> (r: Self)
        ensures
            r.root == Win32Root::Desktop,
            r.process_id is None,
            r.window_title is None,
            !r.top_level_only,
    {
        Win32CliOptions {
            root: Win32Root::Desktop,
            process_id: None,
            window_title: None,
            top_level_only: false,
        }
    }
}

/// The command line, as parsed.
pub struct Cli {
    pub backend: BackendKind,
    pub input: Option<String>,
    pub format: OutputFormat,
    pub max_depth: Option<usize>,
    pub filter_name: Option<String>,
    pub filter_role: Option<String>,
    pub filter_attrs: Vec<String>,
    pub include_ancestors: bool,
    pub no_include_ancestors: bool,
    pub show_attributes: bool,
    /// The attribute bundle that labels show (`--attribute-set`).
    pub attribute_set: AttributeSet,
    /// Extra attribute keys that labels show (`--attribute KEY`, repeatable).
    pub attributes: Vec<String>,
    /// The subtree(s) to show (`--xpath`).
    pub xpath: Option<String>,
    pub win32: Win32CliOptions,
}

/// Why a command line was refused.
#[derive(Debug)]
pub enum ArgsError {
    MissingInput,
    InvalidAttributeFilter(String),
    ConflictingAncestorFlags,
    Win32OptionsWithoutBackend,
    InvalidXPath(XPathParseError),
}

pub enum ArgsErrorView {
    MissingInput,
    InvalidAttributeFilter(Seq<char>),
    ConflictingAncestorFlags,
    Win32OptionsWithoutBackend,
    InvalidXPath(XPathErrorView),
}

impl View for ArgsError {
    type V = ArgsErrorView;

    open spec fn view(&self) -> ArgsErrorView {
        match self {
            ArgsError::MissingInput => ArgsErrorView::MissingInput,
            ArgsError::InvalidAttributeFilter(s) => ArgsErrorView::InvalidAttributeFilter(s@),
            ArgsError::ConflictingAncestorFlags => ArgsErrorView::ConflictingAncestorFlags,
            ArgsError::Win32OptionsWithoutBackend => ArgsErrorView::Win32OptionsWithoutBackend,
            ArgsError::InvalidXPath(e) => ArgsErrorView::InvalidXPath(e@),
        }
    }
}

/// The validated configuration of one run.
#[derive(Debug)]
pub struct AppConfig {
    pub backend: BackendKind,
    pub input: Option<String>,
    pub format: OutputFormat,
    pub filter: FilterConfig,
    pub show_attributes: bool,
    /// The attribute set and extra keys that labels show.
    pub attributes: AttributeConfig,
    /// Selects the subtree(s) to show before filtering.
    pub xpath: Option<XPath>,
    pub win32: Win32Config,
}

// ---------------------------------------------------------------------------
// Specification
// ---------------------------------------------------------------------------

/// An optional text trimmed and lower-cased; `None` when nothing is left.
pub open spec fn normalized_opt(o: Option<String>) -> Option<Seq<char>> {
    match o {
        Some(v) => {
            let t = lowercase(trim(v@));
            if t.len() == 0 {
                None
            } else {
                Some(t)
            }
        },
        None => None,
    }
}

pub open spec fn opt_seq(o: Option<String>) -> Option<Seq<char>> {
    match o {
        Some(v) => Some(v@),
        None => None,
    }
}

/// `key=value` with both sides trimmed and non-empty.
pub open spec fn parse_attr_spec(raw: Seq<char>) -> Option<(Seq<char>, Seq<char>)> {
    match split_once(raw, '=') {
        None => None,
        Some((k, v)) => {
            let key = trim(k);
            let value = trim(v);
            if key.len() == 0 || value.len() == 0 {
                None
            } else {
                Some((key, value))
            }
        },
    }
}

/// Index of the first attribute filter that does not parse.
pub open spec fn first_bad_attr(raws: Seq<String>) -> Option<int>
    decreases raws.len(),
{
    if raws.len() == 0 {
        None
    } else if parse_attr_spec(raws[0]@) is None {
        Some(0)
    } else {
        match first_bad_attr(raws.drop_first()) {
            Some(i) => Some(i + 1),
            None => None,
        }
    }
}

impl Win32CliOptions {
    /// Some Windows-only option is set.
    pub open spec fn has_win32_args_spec(&self) -> bool {
        ||| self.process_id is Some
        ||| normalized_opt(self.window_title) is Some
        ||| self.top_level_only
        ||| self.root != Win32Root::Desktop
    }
}

impl Cli {
    /// The error that `build_config` answers with, if any, in the order it checks.
    pub open spec fn config_error(&self) -> Option<ArgsErrorView> {
        if first_bad_attr(self.filter_attrs@) is Some {
            Some(
                ArgsErrorView::InvalidAttributeFilter(
                    self.filter_attrs@[first_bad_attr(self.filter_attrs@)->0]@,
                ),
            )
        } else if self.include_ancestors && self.no_include_ancestors {
            Some(ArgsErrorView::ConflictingAncestorFlags)
        } else if self.backend == BackendKind::File && self.input is None {
            Some(ArgsErrorView::MissingInput)
        } else if self.backend != BackendKind::Win32 && self.win32.has_win32_args_spec() {
            Some(ArgsErrorView::Win32OptionsWithoutBackend)
        } else if self.xpath matches Some(x) && parse_xpath_spec(x@) is Err {
            Some(ArgsErrorView::InvalidXPath(parse_xpath_spec(self.xpath->0@)->Err_0))
        } else {
            None
        }
    }
}

// ---------------------------------------------------------------------------
// Execution
// ---------------------------------------------------------------------------

/// Parses a `key=value` attribute filter; both sides are trimmed and must be non-empty.
pub fn parse_attr(raw: &str) -> (r: Result<(String, String), ArgsError>)
    ensures
        match r {
            Ok((k, v)) => parse_attr_spec(raw@) == Some((k@, v@)),
            Err(e) => parse_attr_spec(raw@) is None && e@ == ArgsErrorView::InvalidAttributeFilter(
                raw@,
            ),
        },
{
    let cs = chars_of(raw);
    match split_once_chars(&cs, '=') {
        None => Err(ArgsError::InvalidAttributeFilter(string_of(&cs))),
        Some((k, v)) => {
            let key = trim_chars(&k);
            let value = trim_chars(&v);
            if key.len() == 0 || value.len() == 0 {
                return Err(ArgsError::InvalidAttributeFilter(string_of(&cs)));
            }
            Ok((string_of(&key), string_of(&value)))
        },
    }
}

/// An optional text trimmed and lower-cased, `None` when nothing is left.
fn normalize_opt(o: &Option<String>) -> (r: Option<String>)
    ensures
        opt_seq(r) == normalized_opt(*o),
{
    match o {
        Some(v) => {
            let t = trim_str(v.as_str());
            let l = to_lowercase(t.as_str());
            if l.as_str().is_empty() {
                None
            } else {
                Some(l)
            }
        },
        None => None,
    }
}

impl Win32CliOptions {
    /// The window title trimmed and lower-cased, `None` when blank.
    pub fn normalized_window_title(&self) -> (r: Option<String>)
        ensures
            opt_seq(r) == normalized_opt(self.window_title),
    {
        normalize_opt(&self.window_title)
    }

    /// Whether any Windows-only option is set.
    pub fn has_win32_args(&self) -> (r: bool)
        ensures
            r == self.has_win32_args_spec(),
    {
        self.process_id.is_some() || self.normalized_window_title().is_some()
            || self.top_level_only || self.root != Win32Root::Desktop
    }
}

impl ArgsError {
    /// The error message.
    pub fn message(&self) -> (r: String)
        ensures
            r@ == match self@ {
                ArgsErrorView::MissingInput => "missing --input for file backend"@,
                ArgsErrorView::InvalidAttributeFilter(s) => "invalid attribute filter '"@ + s
                    + "', expected key=value"@,
                ArgsErrorView::ConflictingAncestorFlags => "--include-ancestors and --no-include-ancestors cannot be used together"@,
                ArgsErrorView::Win32OptionsWithoutBackend => "win32-specific options require --backend win32"@,
                ArgsErrorView::InvalidXPath(e) => error_text(e),
            },
    {
        let mut out = String::new();
        match self {
            ArgsError::MissingInput => push_str(&mut out, "missing --input for file backend"),
            ArgsError::InvalidAttributeFilter(s) => {
                push_str(&mut out, "invalid attribute filter '");
                push_str(&mut out, s.as_str());
                push_str(&mut out, "', expected key=value");
            },
            ArgsError::ConflictingAncestorFlags => push_str(
                &mut out,
                "--include-ancestors and --no-include-ancestors cannot be used together",
            ),
            ArgsError::Win32OptionsWithoutBackend => push_str(
                &mut out,
                "win32-specific options require --backend win32",
            ),
            ArgsError::InvalidXPath(e) => {
                let m = e.message();
                push_str(&mut out, m.as_str());
            },
        }
        out
    }
}

impl Cli {
    /// Validates the command line into a configuration. Errors, in the order checked:
    /// the first malformed `--filter-attr`, both ancestor flags, the file backend
    /// without `--input`, Windows-only options without the Windows backend, an
    /// `--xpath` that does not parse.
    pub fn build_config(&self) -> (r: Result<AppConfig, ArgsError>)
        ensures
            match r {
                Err(e) => self.config_error() == Some(e@),
                Ok(c) => {
                    &&& self.config_error() is None
                    &&& c.backend == self.backend
                    &&& c.input == self.input
                    &&& c.format == self.format
                    &&& c.show_attributes == self.show_attributes
                    &&& c.attributes.set == self.attribute_set
                    &&& strings_view(c.attributes.additional@) == normalize_keys(
                        strings_view(self.attributes@),
                    )
                    &&& match self.xpath {
                        None => c.xpath is None,
                        Some(x) => c.xpath matches Some(p) && parse_xpath_spec(x@) == Ok::<
                            Seq<SegmentView>,
                            XPathErrorView,
                        >(p@),
                    }
                    &&& c.filter.max_depth == self.max_depth
                    &&& c.filter.include_ancestors == !self.no_include_ancestors
                    &&& opt_seq(c.filter.name_substring) == normalized_opt(self.filter_name)
                    &&& opt_seq(c.filter.role) == normalized_opt(self.filter_role)
                    &&& c.filter.attr_equals@.len() == self.filter_attrs@.len()
                    &&& forall|i: int|
                        0 <= i < self.filter_attrs@.len() ==> {
                            let p = parse_attr_spec((#[trigger] self.filter_attrs@[i])@)->0;
                            c.filter.attr_equals@[i].0@ == p.0 && c.filter.attr_equals@[i].1@
                                == lowercase(p.1)
                        }
                    &&& if self.backend == BackendKind::Win32 {
                        &&& c.win32.root == self.win32.root
                        &&& c.win32.process_id == self.win32.process_id
                        &&& opt_seq(c.win32.window_title) == normalized_opt(
                            self.win32.window_title,
                        )
                        &&& c.win32.top_level_only == self.win32.top_level_only
                    } else {
                        &&& c.win32.root == Win32Root::Desktop
                        &&& c.win32.process_id is None
                        &&& c.win32.window_title is None
                        &&& !c.win32.top_level_only
                    }
                },
            },
    {
        let mut attr_pairs: Vec<(String, String)> = Vec::new();
        let mut i: usize = 0;
        proof {
            lemma_first_bad_attr(self.filter_attrs@);
        }
        while i < self.filter_attrs.len()
            invariant
                i <= self.filter_attrs.len(),
                attr_pairs@.len() == i,
                forall|k: int|
                    0 <= k < i ==> parse_attr_spec((#[trigger] self.filter_attrs@[k])@) == Some(
                        (attr_pairs@[k].0@, attr_pairs@[k].1@),
                    ),
                first_bad_attr(self.filter_attrs@) is None || first_bad_attr(
                    self.filter_attrs@,
                )->0 >= i,
            decreases self.filter_attrs.len() - i,
        {
            proof {
                lemma_first_bad_attr(self.filter_attrs@);
            }
            match parse_attr(self.filter_attrs[i].as_str()) {
                Ok(pair) => {
                    attr_pairs.push(pair);
                },
                Err(e) => {
                    proof {
                        lemma_first_bad_attr_at(self.filter_attrs@, i as int);
                    }
                    return Err(e);
                },
            }
            i = i + 1;
        }
        proof {
            lemma_first_bad_attr(self.filter_attrs@);
            if first_bad_attr(self.filter_attrs@) is Some {
                let j = first_bad_attr(self.filter_attrs@)->0;
                assert(parse_attr_spec(self.filter_attrs@[j]@) is Some);
            }
        }
        let name_filter = normalize_opt(&self.filter_name);
        let role_filter = normalize_opt(&self.filter_role);
        let include_ancestors = match (self.include_ancestors, self.no_include_ancestors) {
            (true, true) => return Err(ArgsError::ConflictingAncestorFlags),
            (true, false) => true,
            (false, true) => false,
            (false, false) => true,
        };
        let ghost pairs = attr_pairs@;
        let filter = FilterConfig::new(
            self.max_depth,
            include_ancestors,
            name_filter,
            role_filter,
            attr_pairs,
        );
        if self.backend == BackendKind::File && self.input.is_none() {
            return Err(ArgsError::MissingInput);
        }
        if self.backend != BackendKind::Win32 && self.win32.has_win32_args() {
            return Err(ArgsError::Win32OptionsWithoutBackend);
        }
        let win32 = if self.backend == BackendKind::Win32 {
            Win32Config {
                root: self.win32.root,
                process_id: self.win32.process_id,
                window_title: self.win32.normalized_window_title(),
                top_level_only: self.win32.top_level_only,
            }
        } else {
            Win32Config {
                root: Win32Root::Desktop,
                process_id: None,
                window_title: None,
                top_level_only: false,
            }
        };
        let xpath = match &self.xpath {
            Some(expr) => match XPath::parse(expr.as_str()) {
                Ok(x) => Some(x),
                Err(e) => {
                    return Err(ArgsError::InvalidXPath(e));
                },
            },
            None => None,
        };
        let attributes = AttributeConfig::new(
            self.attribute_set,
            crate::py_config::clone_strings(&self.attributes),
        );
        let input = match &self.input {
            Some(p) => Some(p.clone()),
            None => None,
        };
        Ok(
            AppConfig {
                backend: self.backend,
                input,
                format: self.format,
                filter,
                show_attributes: self.show_attributes,
                attributes,
                xpath,
                win32,
            },
        )
    }
}

proof fn lemma_first_bad_attr(raws: Seq<String>)
    ensures
        match first_bad_attr(raws) {
            Some(i) => 0 <= i < raws.len() && parse_attr_spec(raws[i]@) is None && forall|k: int|
                0 <= k < i ==> parse_attr_spec((#[trigger] raws[k])@) is Some,
            None => forall|k: int| 0 <= k < raws.len() ==> parse_attr_spec((#[trigger] raws[k])@) is Some,
        },
    decreases raws.len(),
{
    if raws.len() > 0 {
        let t = raws.drop_first();
        lemma_first_bad_attr(t);
        if parse_attr_spec(raws[0]@) is Some {
            match first_bad_attr(t) {
                Some(i) => {
                    assert(raws[i + 1] == t[i]);
                    assert forall|k: int| 0 <= k < i + 1 implies parse_attr_spec(
                        (#[trigger] raws[k])@,
                    ) is Some by {
                        if k > 0 {
                            assert(raws[k] == t[k - 1]);
                        }
                    }
                },
                None => {
                    assert forall|k: int| 0 <= k < raws.len() implies parse_attr_spec(
                        (#[trigger] raws[k])@,
                    ) is Some by {
                        if k > 0 {
                            assert(raws[k] == t[k - 1]);
                        }
                    }
                },
            }
        }
    }
}

proof fn lemma_first_bad_attr_at(raws: Seq<String>, i: int)
    requires
        0 <= i < raws.len(),
        parse_attr_spec(raws[i]@) is None,
        forall|k: int| 0 <= k < i ==> parse_attr_spec((#[trigger] raws[k])@) is Some,
    ensures
        first_bad_attr(raws) == Some(i),
{
    lemma_first_bad_attr(raws);
    match first_bad_attr(raws) {
        Some(j) => {
            if j < i {
                assert(parse_attr_spec(raws[j]@) is Some);
            } else if j > i {
                assert(parse_attr_spec(raws[i]@) is Some);
            }
        },
        None => {
            assert(parse_attr_spec(raws[i]@) is Some);
        },
    }
}

} // verus!
