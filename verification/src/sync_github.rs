//! Built-in GitHub sync provider, backed by the `gh` CLI so it reuses the
//! user's existing `gh` authentication and repository detection.
//!
//! The provider says which `gh` command to run next and what to make of its
//! output; running it is left to the caller.

use vstd::prelude::*;
use vstd::string::*;
use crate::comment_sync::{
    OutgoingComment, OutgoingCommentView, RemoteComment, RemoteCommentView, ReviewUnit,
};
#[allow(unused_imports)]
use crate::text;

verus! {

pub struct GitHubSyncProvider;

/// One GitHub pull-request review comment as returned by the REST API.
pub struct GhComment {
    pub id: i64,
    pub in_reply_to_id: Option<i64>,
    pub path: String,
    pub line: Option<u32>,
    pub original_line: Option<u32>,
    pub body: String,
    pub user: GhUser,
}

pub struct GhUser {
    pub login: String,
}

/// The zero-based row of a comment: its line, else its original line, else
/// the first line. Lines are counted from one.
pub open spec fn row_of(line: Option<u32>, original_line: Option<u32>) -> u32 {
    let shown = match (line, original_line) {
        (Some(line), _) => line,
        (None, Some(line)) => line,
        (None, None) => 1u32,
    };
    if shown == 0 {
        0
    } else {
        (shown - 1) as u32
    }
}

/// The provider-neutral form of a review comment.
pub open spec fn neutral(comment: GhComment) -> RemoteCommentView {
    RemoteCommentView {
        remote_id: text::signed_decimal(comment.id as int),
        parent_remote_id: match comment.in_reply_to_id {
            Some(id) => Some(text::signed_decimal(id as int)),
            None => None,
        },
        path: comment.path@,
        row: row_of(comment.line, comment.original_line),
        body: comment.body@,
        author_login: comment.user.login@,
    }
}

/// Turns a review comment into its provider-neutral form.
pub fn to_remote_comment(comment: GhComment) -> (r: RemoteComment)
    ensures
        r@ == neutral(comment),
{
    let shown: u32 = match comment.line {
        Some(line) => line,
        None => match comment.original_line {
            Some(line) => line,
            None => 1,
        },
    };
    let row: u32 = if shown == 0 {
        0
    } else {
        shown - 1
    };
    RemoteComment {
        remote_id: text::i64_to_decimal(comment.id),
        parent_remote_id: match comment.in_reply_to_id {
            Some(id) => Some(text::i64_to_decimal(id)),
            None => None,
        },
        path: comment.path,
        row,
        body: comment.body,
        author_login: comment.user.login,
    }
}

/// Turns review comments into their provider-neutral form, in order.
pub fn to_remote_comments(comments: Vec<GhComment>) -> (r: Vec<RemoteComment>)
    ensures
        r.len() == comments.len(),
        forall|i: int| 0 <= i < r.len() ==> (#[trigger] r@[i])@ == neutral(comments@[i]),
{
    let ghost all = comments@;
    let mut out: Vec<RemoteComment> = Vec::new();
    for comment in it: comments
        invariant
            it.seq() == all,
            out.len() == it.index(),
            forall|i: int| 0 <= i < it.index() ==> (#[trigger] out@[i])@ == neutral(all[i]),
    {
        out.push(to_remote_comment(comment));
    }
    out
}

/// The identifier of a fetched comment reads back as the number that GitHub
/// gave it, and so does that of the comment it replies to.
pub proof fn lemma_remote_ids_are_numbers(comment: GhComment)
    ensures
        text::i64_value(neutral(comment).remote_id) == Some(comment.id),
        comment.in_reply_to_id matches Some(id) ==> text::i64_value(
            neutral(comment).parent_remote_id->0,
        ) == Some(id),
{
    text::lemma_i64_decimal_round_trip(comment.id);
    match comment.in_reply_to_id {
        Some(id) => {
            text::lemma_i64_decimal_round_trip(id);
        },
        None => {},
    }
}

/// How the review unit is found.
pub enum DetectStep {
    /// It is known.
    Known(ReviewUnit),
    /// It takes a command to find it.
    Run(Vec<String>),
}

/// The review unit that a command's output names, if it names one.
pub open spec fn unit_in(output: Seq<char>) -> Option<Seq<char>> {
    if text::trimmed(output).len() == 0 {
        None
    } else {
        Some(text::trimmed(output))
    }
}

/// The review unit that a command's output names, if it names one.
pub fn unit_from_output(output: &str) -> (r: Option<ReviewUnit>)
    ensures
        match r {
            Some(unit) => unit_in(output@) == Some(unit@),
            None => unit_in(output@) is None,
        },
{
    let id = text::trim(output);
    if id.as_str().unicode_len() == 0 {
        None
    } else {
        Some(ReviewUnit { id })
    }
}

/// The path of a pull request's comments in the REST API.
pub open spec fn comments_path(nwo: Seq<char>, unit: Seq<char>) -> Seq<char> {
    "repos/"@ + nwo + "/pulls/"@ + unit + "/comments"@
}

/// The arguments that resolve the pull request of the current branch.
pub open spec fn detect_words() -> Seq<Seq<char>> {
    seq!["pr"@, "view"@, "--json"@, "number"@, "--jq"@, ".number"@]
}

/// The arguments that name the repository and its owner.
pub open spec fn owner_words() -> Seq<Seq<char>> {
    seq!["repo"@, "view"@, "--json"@, "nameWithOwner"@, "--jq"@, ".nameWithOwner"@]
}

/// The arguments that fetch every comment of a pull request.
pub open spec fn fetch_words(nwo: Seq<char>, unit: Seq<char>) -> Seq<Seq<char>> {
    seq!["api"@, "--paginate"@, comments_path(nwo, unit)]
}

/// The arguments that name the head commit of a pull request.
pub open spec fn commit_words(unit: Seq<char>) -> Seq<Seq<char>> {
    seq!["pr"@, "view"@, unit, "--json"@, "headRefOid"@, "--jq"@, ".headRefOid"@]
}

/// The arguments that create a reply.
pub open spec fn reply_words(
    nwo: Seq<char>,
    unit: Seq<char>,
    parent: Seq<char>,
    body: Seq<char>,
) -> Seq<Seq<char>> {
    seq![
        "api"@,
        "--method"@,
        "POST"@,
        comments_path(nwo, unit) + "/"@ + parent + "/replies"@,
        "-f"@,
        "body="@ + body,
        "--jq"@,
        ".id"@,
    ]
}

/// The arguments that create a root comment, pinned to a commit.
pub open spec fn root_words(
    nwo: Seq<char>,
    unit: Seq<char>,
    commit: Seq<char>,
    comment: OutgoingCommentView,
) -> Seq<Seq<char>> {
    seq![
        "api"@,
        "--method"@,
        "POST"@,
        comments_path(nwo, unit),
        "-f"@,
        "body="@ + comment.body,
        "-f"@,
        "commit_id="@ + text::trimmed(commit),
        "-f"@,
        "path="@ + comment.path,
        "-F"@,
        "line="@ + text::decimal((comment.row + 1) as nat),
        "-f"@,
        "side=RIGHT"@,
        "--jq"@,
        ".id"@,
    ]
}

fn push_word(args: &mut Vec<String>, word: &str)
    ensures
        text::texts(final(args)@) == text::texts(old(args)@).push(word@),
{
    let owned = word.to_owned();
    proof {
        assert(text::texts(args@.push(owned)) =~= text::texts(args@).push(word@));
    }
    args.push(owned);
}

fn with_prefix(prefix: &str, rest: &str) -> (r: String)
    ensures
        r@ == prefix@ + rest@,
{
    let mut out = prefix.to_owned();
    out.append(rest);
    out
}

fn comments_url(nwo: &str, unit: &ReviewUnit) -> (r: String)
    ensures
        r@ == comments_path(nwo@, unit@),
{
    let mut out = "repos/".to_owned();
    out.append(nwo);
    out.append("/pulls/");
    out.append(unit.id.as_str());
    out.append("/comments");
    out
}

fn no_words() -> (r: Vec<String>)
    ensures
        text::texts(r@) == Seq::<Seq<char>>::empty(),
{
    let r: Vec<String> = Vec::new();
    proof {
        assert(text::texts(r@) =~= Seq::empty());
    }
    r
}

/// Where the creation of a comment stands.
pub enum PushStep {
    /// The repository and its owner have to be named.
    NameOwner,
    /// The commit has to be named that a new root comment is pinned to.
    NameCommit { nwo: String },
    /// The comment has to be created.
    Create { args: Vec<String> },
    /// The comment was created under this identifier.
    Done { remote_id: String },
}

/// The mathematical value of a [`PushStep`].
#[verifier::ext_equal]
pub enum PushStepView {
    NameOwner,
    NameCommit { nwo: Seq<char> },
    Create { args: Seq<Seq<char>> },
    Done { remote_id: Seq<char> },
}

impl View for PushStep {
    type V = PushStepView;

    open spec fn view(&self) -> PushStepView {
        match self {
            PushStep::NameOwner => PushStepView::NameOwner,
            PushStep::NameCommit { nwo } => PushStepView::NameCommit { nwo: nwo@ },
            PushStep::Create { args } => PushStepView::Create { args: text::texts(args@) },
            PushStep::Done { remote_id } => PushStepView::Done { remote_id: remote_id@ },
        }
    }
}

/// The arguments that a step runs `gh` with; none when the comment has been
/// created.
pub open spec fn push_words(step: PushStepView, unit: Seq<char>) -> Option<Seq<Seq<char>>> {
    match step {
        PushStepView::NameOwner => Some(owner_words()),
        PushStepView::NameCommit { .. } => Some(commit_words(unit)),
        PushStepView::Create { args } => Some(args),
        PushStepView::Done { .. } => None,
    }
}

/// The step that follows when a step's command printed `output`. A reply is
/// created at once; a root comment needs the head commit first.
pub open spec fn after_push_step(
    step: PushStepView,
    output: Seq<char>,
    unit: Seq<char>,
    comment: OutgoingCommentView,
) -> PushStepView {
    match step {
        PushStepView::NameOwner => match comment.parent_remote_id {
            Some(parent) => PushStepView::Create {
                args: reply_words(text::trimmed(output), unit, parent, comment.body),
            },
            None => PushStepView::NameCommit { nwo: text::trimmed(output) },
        },
        PushStepView::NameCommit { nwo } => PushStepView::Create {
            args: root_words(nwo, unit, output, comment),
        },
        PushStepView::Create { .. } => PushStepView::Done { remote_id: text::trimmed(output) },
        PushStepView::Done { .. } => step,
    }
}

impl GitHubSyncProvider {
    /// The provider's name.
    pub fn name(&self) -> (r: &'static str)
        ensures
            r@ == "github"@,
    {
        "github"
    }

    /// How to find the review unit: the configured one, or the pull request
    /// of the current branch.
    pub fn detect_review_unit(&self, configured: Option<&str>) -> (r: DetectStep)
        ensures
            match configured {
                Some(id) => r matches DetectStep::Known(unit) && unit@ == id@,
                None => r matches DetectStep::Run(args) && text::texts(args@) == detect_words(),
            },
    {
        match configured {
            Some(id) => DetectStep::Known(ReviewUnit { id: id.to_owned() }),
            None => {
                let mut args = no_words();
                push_word(&mut args, "pr");
                push_word(&mut args, "view");
                push_word(&mut args, "--json");
                push_word(&mut args, "number");
                push_word(&mut args, "--jq");
                push_word(&mut args, ".number");
                proof {
                    assert(text::texts(args@) =~= detect_words());
                }
                DetectStep::Run(args)
            },
        }
    }

    /// The review unit that the detecting command found: none when the
    /// command failed or printed nothing.
    pub fn detected(&self, output: Option<&str>) -> (r: Option<ReviewUnit>)
        ensures
            match output {
                Some(output) => match r {
                    Some(unit) => unit_in(output@) == Some(unit@),
                    None => unit_in(output@) is None,
                },
                None => r is None,
            },
    {
        match output {
            Some(output) => unit_from_output(output),
            None => None,
        }
    }

    /// The arguments that name the repository and its owner.
    pub fn name_with_owner_args(&self) -> (r: Vec<String>)
        ensures
            text::texts(r@) == owner_words(),
    {
        let mut args = no_words();
        push_word(&mut args, "repo");
        push_word(&mut args, "view");
        push_word(&mut args, "--json");
        push_word(&mut args, "nameWithOwner");
        push_word(&mut args, "--jq");
        push_word(&mut args, ".nameWithOwner");
        proof {
            assert(text::texts(args@) =~= owner_words());
        }
        args
    }

    /// The arguments that fetch every comment of the review unit, given what
    /// the owner command printed.
    pub fn fetch_args(&self, owner_output: &str, unit: &ReviewUnit) -> (r: Vec<String>)
        ensures
            text::texts(r@) == fetch_words(text::trimmed(owner_output@), unit@),
    {
        let nwo = text::trim(owner_output);
        let mut args = no_words();
        push_word(&mut args, "api");
        push_word(&mut args, "--paginate");
        push_word(&mut args, comments_url(nwo.as_str(), unit).as_str());
        proof {
            assert(text::texts(args@) =~= fetch_words(text::trimmed(owner_output@), unit@));
        }
        args
    }

    /// The first step of creating a comment.
    pub fn begin_push(&self) -> (r: PushStep)
        ensures
            r@ == PushStepView::NameOwner,
    {
        PushStep::NameOwner
    }

    /// The arguments to run `gh` with in a step; `None` when the comment has
    /// been created.
    pub fn push_args(&self, step: &PushStep, unit: &ReviewUnit) -> (r: Option<Vec<String>>)
        ensures
            match r {
                Some(args) => push_words(step@, unit@) == Some(text::texts(args@)),
                None => push_words(step@, unit@) is None,
            },
    {
        match step {
            PushStep::NameOwner => Some(self.name_with_owner_args()),
            PushStep::NameCommit { .. } => {
                let mut args = no_words();
                push_word(&mut args, "pr");
                push_word(&mut args, "view");
                push_word(&mut args, unit.id.as_str());
                push_word(&mut args, "--json");
                push_word(&mut args, "headRefOid");
                push_word(&mut args, "--jq");
                push_word(&mut args, ".headRefOid");
                proof {
                    assert(text::texts(args@) =~= commit_words(unit@));
                }
                Some(args)
            },
            PushStep::Create { args } => Some(text::clone_words(args)),
            PushStep::Done { .. } => None,
        }
    }

    /// The step that follows when a step's command printed `output`.
    pub fn advance_push(
        &self,
        step: PushStep,
        output: &str,
        unit: &ReviewUnit,
        comment: &OutgoingComment,
    ) -> (r: PushStep)
        requires
            step@ is NameCommit ==> comment.row < u32::MAX,
        ensures
            r@ == after_push_step(step@, output@, unit@, comment@),
    {
        match step {
            PushStep::NameOwner => {
                let nwo = text::trim(output);
                match &comment.parent_remote_id {
                    Some(parent) => {
                        let mut url = comments_url(nwo.as_str(), unit);
                        url.append("/");
                        url.append(parent.as_str());
                        url.append("/replies");
                        let mut args = no_words();
                        push_word(&mut args, "api");
                        push_word(&mut args, "--method");
                        push_word(&mut args, "POST");
                        push_word(&mut args, url.as_str());
                        push_word(&mut args, "-f");
                        push_word(&mut args, with_prefix("body=", comment.body.as_str()).as_str());
                        push_word(&mut args, "--jq");
                        push_word(&mut args, ".id");
                        proof {
                            assert(text::texts(args@) =~= reply_words(
                                text::trimmed(output@),
                                unit@,
                                parent@,
                                comment@.body,
                            ));
                        }
                        PushStep::Create { args }
                    },
                    None => PushStep::NameCommit { nwo },
                }
            },
            PushStep::NameCommit { nwo } => {
                let commit = text::trim(output);
                let line = text::u64_to_decimal(comment.row as u64 + 1);
                let mut args = no_words();
                push_word(&mut args, "api");
                push_word(&mut args, "--method");
                push_word(&mut args, "POST");
                push_word(&mut args, comments_url(nwo.as_str(), unit).as_str());
                push_word(&mut args, "-f");
                push_word(&mut args, with_prefix("body=", comment.body.as_str()).as_str());
                push_word(&mut args, "-f");
                push_word(&mut args, with_prefix("commit_id=", commit.as_str()).as_str());
                push_word(&mut args, "-f");
                push_word(&mut args, with_prefix("path=", comment.path.as_str()).as_str());
                push_word(&mut args, "-F");
                push_word(&mut args, with_prefix("line=", line.as_str()).as_str());
                push_word(&mut args, "-f");
                push_word(&mut args, "side=RIGHT");
                push_word(&mut args, "--jq");
                push_word(&mut args, ".id");
                proof {
                    assert(text::texts(args@) =~= root_words(nwo@, unit@, output@, comment@));
                }
                PushStep::Create { args }
            },
            PushStep::Create { .. } => PushStep::Done { remote_id: text::trim(output) },
            PushStep::Done { remote_id } => PushStep::Done { remote_id },
        }
    }
}

/// What a failed `gh` command is reported as.
pub open spec fn gh_failure(args: Seq<Seq<char>>, stderr: Seq<char>) -> Seq<char> {
    "`gh "@ + text::joined(args, " "@) + "` failed: "@ + text::trimmed(stderr)
}

/// What a failed `gh` command is reported as.
pub fn gh_failure_message(args: &Vec<String>, stderr: &str) -> (r: String)
    ensures
        r@ == gh_failure(text::texts(args@), stderr@),
{
    let mut out = "`gh ".to_owned();
    out.append(text::join(args, " ").as_str());
    out.append("` failed: ");
    out.append(text::trim(stderr).as_str());
    out
}

} // verus!
