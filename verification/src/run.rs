//! One run of the spy tool on a loaded tree: narrow it by the path, filter, then render.
use vstd::prelude::*;

use crate::args::{AppConfig, OutputFormat};
use crate::attributes::{AttributeConfig, AttributeSet, strings_view};
use crate::capture::{narrow_tree, narrowed_by, xpath_view};
use crate::filter::{filter_tree, filtered};
use crate::model::UiNode;
use crate::output::{format_tree, join_lines, tree_lines};

verus! {

/// What a run prints: nothing (the path or the filter left nothing), the text tree, or
/// the filtered tree to print as JSON.
pub enum RunOutput {
    Nothing,
    Text(String),
    Json(UiNode),
}

/// The attributes a text tree shows: every attribute with `--show-attributes`,
/// otherwise the chosen attribute set.
pub open spec fn shown_set(show_attributes: bool, set: AttributeSet) -> AttributeSet {
    if show_attributes {
        AttributeSet::Full
    } else {
        set
    }
}

/// The tree a run shows: the loaded tree narrowed by the path, then filtered.
pub open spec fn run_tree(config: AppConfig, tree: crate::model::NodeView) -> Option<
    crate::model::NodeView,
> {
    match narrowed_by(tree, xpath_view(config.xpath)) {
        None => None,
        Some(t) => filtered(t, config.filter),
    }
}

/// Narrows the loaded tree by the configured path, filters it, and renders it in the
/// chosen format, its labels showing the chosen attributes and extra keys.
pub fn run(config: &AppConfig, tree: &UiNode) -> (r: RunOutput)
    ensures
        match run_tree(*config, tree@) {
            None => r is Nothing,
            Some(f) => match config.format {
                OutputFormat::Tree => r matches RunOutput::Text(s) && s@ == join_lines(
                    tree_lines(
                        f,
                        shown_set(config.show_attributes, config.attributes.set),
                        strings_view(config.attributes.additional@),
                    ),
                ),
                OutputFormat::Json => r matches RunOutput::Json(n) && n@ == f,
            },
        },
{
    let narrowed = match narrow_tree(tree, &config.xpath) {
        None => {
            return RunOutput::Nothing;
        },
        Some(t) => t,
    };
    match filter_tree(&narrowed, &config.filter) {
        None => RunOutput::Nothing,
        Some(f) => match config.format {
            OutputFormat::Tree => {
                if config.show_attributes {
                    let attrs = AttributeConfig {
                        set: AttributeSet::Full,
                        additional: crate::py_config::clone_strings(&config.attributes.additional),
                    };
                    RunOutput::Text(format_tree(&f, &attrs))
                } else {
                    RunOutput::Text(format_tree(&f, &config.attributes))
                }
            },
            OutputFormat::Json => RunOutput::Json(f),
        },
    }
}

} // verus!
