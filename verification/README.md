# code_comments

Persistent, nested inline code comments for an editor: threads of comments
anchored to lines of files, written by the user, by an agent or on a remote
review system.

- `src/` is the library, verified with Verus. It holds the comment model
  (`comment`, `thread`, `tree`, `ids`, `clock`), the per-workspace store
  (`comment_store`, `store_laws`), the persisted rows (`persistence`), what is
  sent to the agent (`agent_integration`), what is shown (`comment_card`,
  `inline_comments`), remote sync (`comment_sync`, `sync_laws`,
  `sync_github`, `sync_custom`), per-workspace state (`registry`) and the settings
  (`comment_settings`).
- `tests/` runs the library.
- `app/` is the editor integration around the library: user interface,
  database, agent panel and providers.
