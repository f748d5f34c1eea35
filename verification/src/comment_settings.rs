//! The `code_comments` settings: their content as users write it, and the
//! resolved values.

use vstd::prelude::*;
#[allow(unused_imports)]
use crate::text;

verus! {

/// Settings for the inline code-comments feature.
#[derive(Debug)]
pub struct CodeCommentsSettingsContent {
    /// Whether inline code comments are enabled.
    ///
    /// Default: true
    pub enabled: Option<bool>,
    /// Whether comment cards are drawn in editors.
    ///
    /// Default: true
    pub show_in_editor: Option<bool>,
    /// Configuration for syncing comments with a remote review provider.
    pub sync: Option<CommentSyncSettingsContent>,
}

/// Configuration for the pluggable remote comment-sync layer.
#[derive(Debug)]
pub struct CommentSyncSettingsContent {
    /// Whether remote comment sync is enabled.
    ///
    /// Default: false
    pub enabled: Option<bool>,
    /// Which sync provider to use. Built-in providers are `"github"` and
    /// `"custom"`; any provider registered by another crate or extension can
    /// also be named here.
    ///
    /// Default: "github"
    pub provider: Option<String>,
    /// The remote review unit (a pull-request / merge-request / change id).
    /// Use `"auto"` to detect it from the current branch.
    ///
    /// Default: "auto"
    pub review_unit: Option<String>,
    /// Pull remote comments automatically when a repository is opened.
    ///
    /// Default: true
    pub auto_pull_on_open: Option<bool>,
    /// Configuration for the `"custom"` provider.
    pub custom: Option<CustomCommentSyncSettingsContent>,
}

/// Configuration for the command-driven `"custom"` sync provider, letting a
/// team point comment sync at any internal review system without writing Rust.
#[derive(Debug)]
pub struct CustomCommentSyncSettingsContent {
    /// Command (program followed by arguments) that prints the remote review
    /// unit id on stdout. Run in the repository root.
    pub detect_command: Option<Vec<String>>,
    /// Command that prints the remote comments as a JSON array on stdout.
    pub fetch_command: Option<Vec<String>>,
    /// Command that receives one comment as JSON and creates it remotely,
    /// printing the new remote id on stdout.
    pub push_command: Option<Vec<String>>,
}

impl Default for CodeCommentsSettingsContent {
    fn default() -> (r: Self)
        ensures
            r == (CodeCommentsSettingsContent { enabled: None, show_in_editor: None, sync: None }),
    {
        CodeCommentsSettingsContent { enabled: None, show_in_editor: None, sync: None }
    }
}

impl Default for CommentSyncSettingsContent {
    fn default() -> (r: Self)
        ensures
            r == (CommentSyncSettingsContent {
                enabled: None,
                provider: None,
                review_unit: None,
                auto_pull_on_open: None,
                custom: None,
            }),
    {
        CommentSyncSettingsContent {
            enabled: None,
            provider: None,
            review_unit: None,
            auto_pull_on_open: None,
            custom: None,
        }
    }
}

impl Default for CustomCommentSyncSettingsContent {
    fn default() -> (r: Self)
        ensures
            r == (CustomCommentSyncSettingsContent {
                detect_command: None,
                fetch_command: None,
                push_command: None,
            }),
    {
        CustomCommentSyncSettingsContent {
            detect_command: None,
            fetch_command: None,
            push_command: None,
        }
    }
}

/// Resolved `code_comments` settings.
#[derive(Clone, Debug)]
pub struct CodeCommentsSettings {
    pub enabled: bool,
    pub show_in_editor: bool,
    pub sync: CommentSyncSettings,
}

/// Resolved remote-sync settings.
#[derive(Clone, Debug)]
pub struct CommentSyncSettings {
    pub enabled: bool,
    /// Name of the sync provider to resolve against the `CommentSyncRegistry`,
    /// or `"custom"` for the command-driven provider.
    pub provider: String,
    /// Explicit review unit id, or `"auto"` to detect it.
    pub review_unit: String,
    pub auto_pull_on_open: bool,
    pub custom_detect_command: Vec<String>,
    pub custom_fetch_command: Vec<String>,
    pub custom_push_command: Vec<String>,
}

/// A flag that was set, or else its default.
pub open spec fn flag_or(flag: Option<bool>, default: bool) -> bool {
    match flag {
        Some(value) => value,
        None => default,
    }
}

/// A text that was set, or else its default.
pub open spec fn text_or(value: Option<String>, default: Seq<char>) -> Seq<char> {
    match value {
        Some(value) => value@,
        None => default,
    }
}

/// A command that was set, or else an empty one.
pub open spec fn words_or_none(words: Option<Vec<String>>) -> Seq<Seq<char>> {
    match words {
        Some(words) => text::texts(words@),
        None => Seq::empty(),
    }
}

/// Whether settings are what a content resolves to: each value is the one that
/// was written, or its default where none was.
pub open spec fn resolves_to(
    content: Option<CodeCommentsSettingsContent>,
    settings: CodeCommentsSettings,
) -> bool {
    let top = match content {
        Some(content) => content,
        None => CodeCommentsSettingsContent { enabled: None, show_in_editor: None, sync: None },
    };
    let sync = match top.sync {
        Some(sync) => sync,
        None => CommentSyncSettingsContent {
            enabled: None,
            provider: None,
            review_unit: None,
            auto_pull_on_open: None,
            custom: None,
        },
    };
    let custom = match sync.custom {
        Some(custom) => custom,
        None => CustomCommentSyncSettingsContent {
            detect_command: None,
            fetch_command: None,
            push_command: None,
        },
    };
    &&& settings.enabled == flag_or(top.enabled, true)
    &&& settings.show_in_editor == flag_or(top.show_in_editor, true)
    &&& settings.sync.enabled == flag_or(sync.enabled, false)
    &&& settings.sync.provider@ == text_or(sync.provider, "github"@)
    &&& settings.sync.review_unit@ == text_or(sync.review_unit, "auto"@)
    &&& settings.sync.auto_pull_on_open == flag_or(sync.auto_pull_on_open, true)
    &&& text::texts(settings.sync.custom_detect_command@) == words_or_none(custom.detect_command)
    &&& text::texts(settings.sync.custom_fetch_command@) == words_or_none(custom.fetch_command)
    &&& text::texts(settings.sync.custom_push_command@) == words_or_none(custom.push_command)
}

fn flag(value: Option<bool>, default: bool) -> (r: bool)
    ensures
        r == flag_or(value, default),
{
    match value {
        Some(value) => value,
        None => default,
    }
}

fn word(value: Option<String>, default: &str) -> (r: String)
    ensures
        r@ == text_or(value, default@),
{
    match value {
        Some(value) => value,
        None => default.to_owned(),
    }
}

fn words(value: Option<Vec<String>>) -> (r: Vec<String>)
    ensures
        text::texts(r@) == words_or_none(value),
{
    match value {
        Some(value) => value,
        None => {
            let none: Vec<String> = Vec::new();
            proof {
                assert(text::texts(none@) =~= Seq::empty());
            }
            none
        },
    }
}

impl CodeCommentsSettings {
    /// Resolves the settings that a user wrote.
    pub fn from_settings(content: Option<CodeCommentsSettingsContent>) -> (r: Self)
        ensures
            resolves_to(content, r),
    {
        let content = match content {
            Some(content) => content,
            None => CodeCommentsSettingsContent::default(),
        };
        let sync = match content.sync {
            Some(sync) => sync,
            None => CommentSyncSettingsContent::default(),
        };
        let custom = match sync.custom {
            Some(custom) => custom,
            None => CustomCommentSyncSettingsContent::default(),
        };
        CodeCommentsSettings {
            enabled: flag(content.enabled, true),
            show_in_editor: flag(content.show_in_editor, true),
            sync: CommentSyncSettings {
                enabled: flag(sync.enabled, false),
                provider: word(sync.provider, "github"),
                review_unit: word(sync.review_unit, "auto"),
                auto_pull_on_open: flag(sync.auto_pull_on_open, true),
                custom_detect_command: words(custom.detect_command),
                custom_fetch_command: words(custom.fetch_command),
                custom_push_command: words(custom.push_command),
            },
        }
    }
}

} // verus!
