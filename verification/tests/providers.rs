use code_comments::comment::ChangeId;
use code_comments::comment_settings::{
    CodeCommentsSettings, CodeCommentsSettingsContent, CommentSyncSettingsContent,
    CustomCommentSyncSettingsContent,
};
use code_comments::comment_store::WorkspaceId;
use code_comments::comment_sync::{OutgoingComment, ReviewUnit};
use code_comments::registry::{
    change_tracker, comment_store, detected_change, plan_detection, ChangeDetection,
    ChangeTracker, CurrentChangeChanged, WorkspaceTable,
};
use code_comments::sync_custom::{
    command_failure_message, command_line, CustomCommandSyncProvider, CustomDetectStep,
    CustomSyncError,
};
use code_comments::sync_github::{
    gh_failure_message, to_remote_comment, to_remote_comments, DetectStep, GhComment, GhUser,
    GitHubSyncProvider, PushStep,
};

fn words(list: &[&str]) -> Vec<String> {
    list.iter().map(|w| w.to_string()).collect()
}

fn unit(id: &str) -> ReviewUnit {
    ReviewUnit { id: id.to_string() }
}

fn gh(id: i64, reply_to: Option<i64>, line: Option<u32>, original: Option<u32>) -> GhComment {
    GhComment {
        id,
        in_reply_to_id: reply_to,
        path: "src/a.rs".to_string(),
        line,
        original_line: original,
        body: "b".to_string(),
        user: GhUser { login: "kim".to_string() },
    }
}

fn outgoing(parent: Option<&str>) -> OutgoingComment {
    OutgoingComment {
        parent_remote_id: parent.map(|p| p.to_string()),
        path: "src/a.rs".to_string(),
        row: 41,
        body: "text".to_string(),
    }
}

#[test]
fn github_comments_become_neutral() {
    let c = to_remote_comment(gh(12, Some(-3), Some(8), Some(2)));
    assert_eq!(c.remote_id, "12");
    assert_eq!(c.parent_remote_id.as_deref(), Some("-3"));
    assert_eq!((c.path.as_str(), c.row, c.body.as_str()), ("src/a.rs", 7, "b"));
    assert_eq!(c.author_login, "kim");
    let rows: Vec<u32> = to_remote_comments(vec![
        gh(1, None, None, Some(2)),
        gh(2, None, None, None),
        gh(3, None, Some(0), Some(9)),
    ])
    .iter()
    .map(|c| c.row)
    .collect();
    assert_eq!(rows, vec![1, 0, 0]);
    assert_eq!(to_remote_comment(gh(1, None, None, None)).parent_remote_id, None);
}

#[test]
fn github_detects_the_pull_request() {
    let provider = GitHubSyncProvider;
    assert_eq!(provider.name(), "github");
    match provider.detect_review_unit(Some("17")) {
        DetectStep::Known(unit) => assert_eq!(unit.id, "17"),
        DetectStep::Run(_) => panic!("configured"),
    }
    match provider.detect_review_unit(None) {
        DetectStep::Run(args) => assert_eq!(
            args,
            words(&["pr", "view", "--json", "number", "--jq", ".number"])
        ),
        DetectStep::Known(_) => panic!("not configured"),
    }
    assert_eq!(provider.detected(Some(" 17\n")).unwrap().id, "17");
    assert!(provider.detected(Some(" \n")).is_none());
    assert!(provider.detected(None).is_none());
}

#[test]
fn github_fetches_all_pages() {
    let provider = GitHubSyncProvider;
    assert_eq!(
        provider.name_with_owner_args(),
        words(&["repo", "view", "--json", "nameWithOwner", "--jq", ".nameWithOwner"])
    );
    assert_eq!(
        provider.fetch_args("zed/zed\n", &unit("17")),
        words(&["api", "--paginate", "repos/zed/zed/pulls/17/comments"])
    );
}

#[test]
fn github_pushes_a_root_comment_pinned_to_the_head_commit() {
    let provider = GitHubSyncProvider;
    let comment = outgoing(None);
    let step = provider.begin_push();
    assert_eq!(
        provider.push_args(&step, &unit("17")).unwrap(),
        provider.name_with_owner_args()
    );
    let step = provider.advance_push(step, "zed/zed\n", &unit("17"), &comment);
    assert_eq!(
        provider.push_args(&step, &unit("17")).unwrap(),
        words(&["pr", "view", "17", "--json", "headRefOid", "--jq", ".headRefOid"])
    );
    let step = provider.advance_push(step, "abc123\n", &unit("17"), &comment);
    assert_eq!(
        provider.push_args(&step, &unit("17")).unwrap(),
        words(&[
            "api", "--method", "POST", "repos/zed/zed/pulls/17/comments", "-f", "body=text", "-f",
            "commit_id=abc123", "-f", "path=src/a.rs", "-F", "line=42", "-f", "side=RIGHT",
            "--jq", ".id",
        ])
    );
    let step = provider.advance_push(step, " 99\n", &unit("17"), &comment);
    assert!(matches!(&step, PushStep::Done { remote_id } if remote_id == "99"));
    assert!(provider.push_args(&step, &unit("17")).is_none());
    let step = provider.advance_push(step, "again", &unit("17"), &comment);
    assert!(matches!(&step, PushStep::Done { remote_id } if remote_id == "99"));
}

#[test]
fn github_pushes_a_reply_at_once() {
    let provider = GitHubSyncProvider;
    let step = provider.advance_push(
        provider.begin_push(),
        "zed/zed",
        &unit("17"),
        &outgoing(Some("55")),
    );
    assert_eq!(
        provider.push_args(&step, &unit("17")).unwrap(),
        words(&[
            "api", "--method", "POST", "repos/zed/zed/pulls/17/comments/55/replies", "-f",
            "body=text", "--jq", ".id",
        ])
    );
}

#[test]
fn failures_are_reported() {
    assert_eq!(
        gh_failure_message(&words(&["pr", "view"]), "  not found\n"),
        "`gh pr view` failed: not found"
    );
    assert_eq!(
        command_failure_message("sync", "boom\n"),
        "custom sync command `sync` failed: boom"
    );
}

#[test]
fn custom_commands_are_run_as_configured() {
    let provider = CustomCommandSyncProvider::new(
        words(&["detect", "-x"]),
        words(&["fetch"]),
        words(&["push", "--json"]),
    );
    assert_eq!(provider.name(), "custom");
    assert!(matches!(
        provider.detect_review_unit(Some("17")),
        CustomDetectStep::Known(unit) if unit.id == "17"
    ));
    assert!(matches!(
        provider.detect_review_unit(None),
        CustomDetectStep::Run(command) if command == words(&["detect", "-x"])
    ));
    assert_eq!(provider.detected(" 4 ").unwrap().id, "4");
    assert!(provider.detected("\n").is_none());
    assert_eq!(provider.fetch(&unit("17")).unwrap(), words(&["fetch", "17"]));
    assert_eq!(provider.push(&unit("17")).unwrap(), words(&["push", "--json", "17"]));
    assert_eq!(provider.pushed(" 8\n"), "8");
}

#[test]
fn missing_custom_commands() {
    let provider = CustomCommandSyncProvider::new(Vec::new(), Vec::new(), Vec::new());
    assert!(matches!(provider.detect_review_unit(None), CustomDetectStep::Nothing));
    assert_eq!(provider.fetch(&unit("1")), Err(CustomSyncError::NoFetchCommand));
    assert_eq!(provider.push(&unit("1")), Err(CustomSyncError::NoPushCommand));
    assert_eq!(
        CustomSyncError::NoFetchCommand.message(),
        "code_comments: `custom` provider has no fetch_command configured"
    );
    assert_eq!(
        CustomSyncError::NoPushCommand.message(),
        "code_comments: `custom` provider has no push_command configured"
    );
    assert_eq!(
        CustomSyncError::EmptyCommand.message(),
        "code_comments: empty custom sync command"
    );
}

#[test]
fn command_lines() {
    let line = command_line(&words(&["push", "--json", "17"]), Some("{}".to_string()));
    let line = line.ok().unwrap();
    assert_eq!(line.program, "push");
    assert_eq!(line.args, words(&["--json", "17", "{}"]));
    let line = command_line(&words(&["fetch"]), None).ok().unwrap();
    assert!(line.args.is_empty());
    assert_eq!(
        command_line(&Vec::new(), Some("{}".to_string())).err(),
        Some(CustomSyncError::EmptyCommand)
    );
}

#[test]
fn settings_have_defaults() {
    for content in [
        None,
        Some(CodeCommentsSettingsContent::default()),
        Some(CodeCommentsSettingsContent {
            sync: Some(CommentSyncSettingsContent {
                custom: Some(CustomCommentSyncSettingsContent::default()),
                ..CommentSyncSettingsContent::default()
            }),
            ..CodeCommentsSettingsContent::default()
        }),
    ] {
        let s = CodeCommentsSettings::from_settings(content);
        assert!(s.enabled && s.show_in_editor && !s.sync.enabled && s.sync.auto_pull_on_open);
        assert_eq!((s.sync.provider.as_str(), s.sync.review_unit.as_str()), ("github", "auto"));
        assert!(s.sync.custom_detect_command.is_empty());
        assert!(s.sync.custom_fetch_command.is_empty());
        assert!(s.sync.custom_push_command.is_empty());
    }
}

#[test]
fn settings_that_were_written_win() {
    let s = CodeCommentsSettings::from_settings(Some(CodeCommentsSettingsContent {
        enabled: Some(false),
        show_in_editor: Some(false),
        sync: Some(CommentSyncSettingsContent {
            enabled: Some(true),
            provider: Some("custom".to_string()),
            review_unit: Some("17".to_string()),
            auto_pull_on_open: Some(false),
            custom: Some(CustomCommentSyncSettingsContent {
                detect_command: Some(words(&["d"])),
                fetch_command: Some(words(&["f", "x"])),
                push_command: None,
            }),
        }),
    }));
    assert!(!s.enabled && !s.show_in_editor && s.sync.enabled && !s.sync.auto_pull_on_open);
    assert_eq!((s.sync.provider.as_str(), s.sync.review_unit.as_str()), ("custom", "17"));
    assert_eq!(s.sync.custom_detect_command, words(&["d"]));
    assert_eq!(s.sync.custom_fetch_command, words(&["f", "x"]));
    assert!(s.sync.custom_push_command.is_empty());
}

#[test]
fn the_tracker_tells_when_the_change_moves() {
    let mut tracker = ChangeTracker::new();
    assert!(tracker.current_change_id().is_none());
    let change = |id: &str| Some(ChangeId(id.to_string()));
    assert_eq!(tracker.set_current_change_id(None), None);
    assert_eq!(tracker.set_current_change_id(change("1")), Some(CurrentChangeChanged));
    assert_eq!(tracker.set_current_change_id(change("1")), None);
    assert_eq!(tracker.current_change_id().unwrap().0, "1");
    assert_eq!(tracker.set_current_change_id(change("2")), Some(CurrentChangeChanged));
    assert_eq!(tracker.set_current_change_id(None), Some(CurrentChangeChanged));
}

#[test]
fn change_detection() {
    assert_eq!(plan_detection(false, true), ChangeDetection::Clear);
    assert_eq!(plan_detection(false, false), ChangeDetection::Clear);
    assert_eq!(plan_detection(true, false), ChangeDetection::Leave);
    assert_eq!(plan_detection(true, true), ChangeDetection::Ask);
    assert!(detected_change(Err(())).is_none());
    assert!(detected_change(Ok(None)).is_none());
    assert_eq!(detected_change(Ok(Some(ChangeId("1".to_string())))).unwrap().0, "1");
}

#[test]
fn each_workspace_has_one_store_and_one_tracker() {
    let mut stores: WorkspaceTable<String> = WorkspaceTable::new();
    let create = |id: WorkspaceId| format!("store {}", id.0);
    assert_eq!(comment_store(&mut stores, None, create), None);
    assert_eq!(
        comment_store(&mut stores, Some(WorkspaceId(1)), create),
        Some(&"store 1".to_string())
    );
    assert_eq!(
        comment_store(&mut stores, Some(WorkspaceId(1)), |_| "another".to_string()),
        Some(&"store 1".to_string())
    );
    assert_eq!(
        comment_store(&mut stores, Some(WorkspaceId(2)), create),
        Some(&"store 2".to_string())
    );
    let mut trackers: WorkspaceTable<u32> = WorkspaceTable::new();
    assert_eq!(change_tracker(&mut trackers, Some(WorkspaceId(1)), |_| 5), Some(&5));
    assert_eq!(change_tracker(&mut trackers, Some(WorkspaceId(1)), |_| 6), Some(&5));
    assert_eq!(change_tracker(&mut trackers, None, |_| 6), None);
}
