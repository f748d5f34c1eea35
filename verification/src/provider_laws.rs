//! What the sync providers are asked and what is made of their answers: no
//! word of a comment is lost on the way.

use vstd::prelude::*;
#[allow(unused_imports)]
use crate::comment_settings;
#[allow(unused_imports)]
use crate::comment_settings::{CodeCommentsSettings, CodeCommentsSettingsContent};
#[allow(unused_imports)]
use crate::comment_sync::OutgoingCommentView;
#[allow(unused_imports)]
use crate::sync_custom;
#[allow(unused_imports)]
use crate::sync_custom::CustomSyncError;
#[allow(unused_imports)]
use crate::sync_github;
#[allow(unused_imports)]
use crate::sync_github::{GhComment, PushStepView};
#[allow(unused_imports)]
use crate::text;

verus! {

/// A GitHub comment is taken over as it is: body, path and login character for
/// character, and its number and that of the comment it replies to in decimal.
pub proof fn lemma_github_comment_is_verbatim(comment: GhComment)
    ensures
        ({
            let remote = sync_github::neutral(comment);
            &&& remote.body == comment.body@
            &&& remote.path == comment.path@
            &&& remote.author_login == comment.user.login@
            &&& remote.remote_id == text::signed_decimal(comment.id as int)
            &&& comment.in_reply_to_id is None ==> remote.parent_remote_id is None
            &&& comment.in_reply_to_id matches Some(id) ==> remote.parent_remote_id == Some(
                text::signed_decimal(id as int),
            )
            &&& remote.row == sync_github::row_of(comment.line, comment.original_line)
        }),
{
}

/// A GitHub line, counted from one, is the row above it; the original line
/// stands in for a line that is gone, and the first row for both.
pub proof fn lemma_github_row(line: u32, other: Option<u32>)
    ensures
        line > 0 ==> sync_github::row_of(Some(line), other) == line - 1,
        line > 0 ==> sync_github::row_of(None, Some(line)) == line - 1,
        sync_github::row_of(Some(0), other) == 0,
        sync_github::row_of(None, Some(0)) == 0,
        sync_github::row_of(None, None) == 0,
{
}

/// A command's output names the review unit that it prints, without whitespace
/// around it; blank output names none.
pub proof fn lemma_printed_unit(output: Seq<char>)
    ensures
        text::trimmed(output) == Seq::<char>::empty() ==> sync_github::unit_in(output) is None,
        text::trimmed(output) != Seq::<char>::empty() ==> sync_github::unit_in(output) == Some(
            text::trimmed(output),
        ),
{
    if text::trimmed(output).len() == 0 {
        assert(text::trimmed(output) =~= Seq::<char>::empty());
    }
}

/// Whether an option with its value is among the arguments of a command: the
/// value stands right behind the option.
pub open spec fn has_option(words: Seq<Seq<char>>, option: Seq<char>, value: Seq<char>) -> bool {
    exists|k: int|
        0 <= k < words.len() - 1 && #[trigger] words[k] == option && words[k + 1] == value
}

/// A new root comment is posted to the comments of the pull request, with its
/// body character for character, its path, the line that its row is counted
/// from one, and the head commit.
pub proof fn lemma_github_root_is_verbatim(
    nwo: Seq<char>,
    unit: Seq<char>,
    commit: Seq<char>,
    comment: OutgoingCommentView,
)
    ensures
        ({
            let words = sync_github::root_words(nwo, unit, commit, comment);
            &&& words.len() == 16
            &&& words[0] == "api"@
            &&& has_option(words, "--method"@, "POST"@)
            &&& words[3] == "repos/"@ + nwo + "/pulls/"@ + unit + "/comments"@
            &&& has_option(words, "-f"@, "body="@ + comment.body)
            &&& has_option(words, "-f"@, "path="@ + comment.path)
            &&& has_option(words, "-F"@, "line="@ + text::decimal((comment.row + 1) as nat))
            &&& has_option(words, "-f"@, "commit_id="@ + text::trimmed(commit))
            &&& has_option(words, "-f"@, "side=RIGHT"@)
            &&& has_option(words, "--jq"@, ".id"@)
        }),
{
    let words = sync_github::root_words(nwo, unit, commit, comment);
    assert(words[1] == "--method"@);
    assert(words[4] == "-f"@);
    assert(words[6] == "-f"@);
    assert(words[8] == "-f"@);
    assert(words[10] == "-F"@);
    assert(words[12] == "-f"@);
    assert(words[14] == "--jq"@);
}

/// A reply is posted to the replies of its parent, with its body character for
/// character.
pub proof fn lemma_github_reply_is_verbatim(
    nwo: Seq<char>,
    unit: Seq<char>,
    parent: Seq<char>,
    body: Seq<char>,
)
    ensures
        ({
            let words = sync_github::reply_words(nwo, unit, parent, body);
            &&& words.len() == 8
            &&& words[0] == "api"@
            &&& has_option(words, "--method"@, "POST"@)
            &&& words[3] == "repos/"@ + nwo + "/pulls/"@ + unit + "/comments"@ + "/"@ + parent
                + "/replies"@
            &&& has_option(words, "-f"@, "body="@ + body)
            &&& has_option(words, "--jq"@, ".id"@)
        }),
{
    let words = sync_github::reply_words(nwo, unit, parent, body);
    assert(words[1] == "--method"@);
    assert(words[4] == "-f"@);
    assert(words[6] == "--jq"@);
}

/// The commands that ask GitHub: for the pull request of the branch, for the
/// repository, for the head commit, and for every page of the comments.
pub proof fn lemma_github_questions(nwo: Seq<char>, unit: Seq<char>)
    ensures
        sync_github::detect_words() == seq![
            "pr"@,
            "view"@,
            "--json"@,
            "number"@,
            "--jq"@,
            ".number"@,
        ],
        sync_github::owner_words() == seq![
            "repo"@,
            "view"@,
            "--json"@,
            "nameWithOwner"@,
            "--jq"@,
            ".nameWithOwner"@,
        ],
        has_option(sync_github::commit_words(unit), "view"@, unit),
        has_option(sync_github::commit_words(unit), "--json"@, "headRefOid"@),
        has_option(sync_github::commit_words(unit), "--jq"@, ".headRefOid"@),
        sync_github::commit_words(unit)[0] == "pr"@ && sync_github::commit_words(unit).len() == 7,
        sync_github::fetch_words(nwo, unit) == seq![
            "api"@,
            "--paginate"@,
            "repos/"@ + nwo + "/pulls/"@ + unit + "/comments"@,
        ],
{
    let words = sync_github::commit_words(unit);
    assert(words[1] == "view"@);
    assert(words[3] == "--json"@);
    assert(words[5] == "--jq"@);
}

/// How a comment is created on GitHub. First the repository is named. A reply
/// is then created at once; a root comment only after the head commit has been
/// named. What the creating command prints is the comment's identifier, and
/// then nothing is left to run.
pub proof fn lemma_github_push(
    output: Seq<char>,
    unit: Seq<char>,
    comment: OutgoingCommentView,
    nwo: Seq<char>,
    args: Seq<Seq<char>>,
    id: Seq<char>,
)
    ensures
        comment.parent_remote_id matches Some(parent) ==> sync_github::after_push_step(
            PushStepView::NameOwner,
            output,
            unit,
            comment,
        ) == (PushStepView::Create {
            args: sync_github::reply_words(text::trimmed(output), unit, parent, comment.body),
        }),
        comment.parent_remote_id is None ==> sync_github::after_push_step(
            PushStepView::NameOwner,
            output,
            unit,
            comment,
        ) == (PushStepView::NameCommit { nwo: text::trimmed(output) }),
        sync_github::after_push_step(PushStepView::NameCommit { nwo }, output, unit, comment) == (
        PushStepView::Create { args: sync_github::root_words(nwo, unit, output, comment) }),
        sync_github::after_push_step(PushStepView::Create { args }, output, unit, comment) == (
        PushStepView::Done { remote_id: text::trimmed(output) }),
        sync_github::after_push_step(PushStepView::Done { remote_id: id }, output, unit, comment)
            == (PushStepView::Done { remote_id: id }),
        sync_github::push_words(PushStepView::NameOwner, unit) == Some(sync_github::owner_words()),
        sync_github::push_words(PushStepView::NameCommit { nwo }, unit) == Some(
            sync_github::commit_words(unit),
        ),
        sync_github::push_words(PushStepView::Create { args }, unit) == Some(args),
        sync_github::push_words(PushStepView::Done { remote_id: id }, unit) is None,
{
}

/// A failed command is reported with what was run and what it complained of.
pub proof fn lemma_failures(
    args: Seq<Seq<char>>,
    program: Seq<char>,
    stderr: Seq<char>,
    error: CustomSyncError,
)
    ensures
        sync_github::gh_failure(args, stderr) == "`gh "@ + text::joined(args, " "@)
            + "` failed: "@ + text::trimmed(stderr),
        sync_custom::command_failure(program, stderr) == "custom sync command `"@ + program
            + "` failed: "@ + text::trimmed(stderr),
        error == CustomSyncError::NoFetchCommand ==> sync_custom::error_text(error)
            == "code_comments: `custom` provider has no fetch_command configured"@,
        error == CustomSyncError::NoPushCommand ==> sync_custom::error_text(error)
            == "code_comments: `custom` provider has no push_command configured"@,
        error == CustomSyncError::EmptyCommand ==> sync_custom::error_text(error)
            == "code_comments: empty custom sync command"@,
{
}

/// What the user wrote holds, and what the user did not write has its default:
/// comments are enabled and drawn, sync is not enabled, the provider is GitHub
/// and the review unit detected, and remote comments are pulled on opening.
pub proof fn lemma_settings_hold(
    content: CodeCommentsSettingsContent,
    settings: CodeCommentsSettings,
)
    requires
        comment_settings::resolves_to(Some(content), settings),
    ensures
        settings.enabled == (content.enabled matches Some(value) ==> value),
        settings.show_in_editor == (content.show_in_editor matches Some(value) ==> value),
        content.sync is None ==> !settings.sync.enabled && settings.sync.auto_pull_on_open
            && settings.sync.provider@ == "github"@ && settings.sync.review_unit@ == "auto"@
            && settings.sync.custom_detect_command@.len() == 0
            && settings.sync.custom_fetch_command@.len() == 0
            && settings.sync.custom_push_command@.len() == 0,
        content.sync matches Some(sync) ==> {
            &&& settings.sync.enabled == (sync.enabled == Some(true))
            &&& settings.sync.auto_pull_on_open == (sync.auto_pull_on_open matches Some(value)
                ==> value)
            &&& settings.sync.provider@ == (match sync.provider {
                Some(name) => name@,
                None => "github"@,
            })
            &&& settings.sync.review_unit@ == (match sync.review_unit {
                Some(unit) => unit@,
                None => "auto"@,
            })
            &&& sync.custom matches Some(custom) ==> {
                &&& custom.detect_command matches Some(words) ==> text::texts(
                    settings.sync.custom_detect_command@,
                ) == text::texts(words@)
                &&& custom.fetch_command matches Some(words) ==> text::texts(
                    settings.sync.custom_fetch_command@,
                ) == text::texts(words@)
                &&& custom.push_command matches Some(words) ==> text::texts(
                    settings.sync.custom_push_command@,
                ) == text::texts(words@)
                &&& custom.detect_command is None ==> settings.sync.custom_detect_command@.len()
                    == 0
                &&& custom.fetch_command is None ==> settings.sync.custom_fetch_command@.len() == 0
                &&& custom.push_command is None ==> settings.sync.custom_push_command@.len() == 0
            }
            &&& sync.custom is None ==> settings.sync.custom_detect_command@.len() == 0
                && settings.sync.custom_fetch_command@.len() == 0
                && settings.sync.custom_push_command@.len() == 0
        },
{
    let a = text::texts(settings.sync.custom_detect_command@);
    let b = text::texts(settings.sync.custom_fetch_command@);
    let c = text::texts(settings.sync.custom_push_command@);
    assert(a.len() == settings.sync.custom_detect_command@.len());
    assert(b.len() == settings.sync.custom_fetch_command@.len());
    assert(c.len() == settings.sync.custom_push_command@.len());
}

/// Settings that the user did not write at all are those of an empty content.
pub proof fn lemma_no_settings(settings: CodeCommentsSettings)
    ensures
        comment_settings::resolves_to(None, settings) <==> comment_settings::resolves_to(
            Some(
                CodeCommentsSettingsContent { enabled: None, show_in_editor: None, sync: None },
            ),
            settings,
        ),
{
}

} // verus!
