//! What the mathematical values of the model are: of every field its own
//! value, and of every list one value for each of its elements, in order. And
//! what identifiers, numbers and dates promise.

use vstd::prelude::*;
#[allow(unused_imports)]
use crate::clock;
#[allow(unused_imports)]
use crate::comment;
#[allow(unused_imports)]
use crate::comment::{
    ChangeId, CommentAnchor, CommentAuthor, CommentAuthorView, CommentKind, CommentNode,
    CommentStatus, RelPath,
};
#[allow(unused_imports)]
use crate::comment_card;
#[allow(unused_imports)]
use crate::comment_card::{CardContent, CardFooter, CompactStrip, Composer, NodeCard, RootActions};
#[allow(unused_imports)]
use crate::comment_card::{CardContentView, CardFooterView};
#[allow(unused_imports)]
use crate::comment_store;
#[allow(unused_imports)]
use crate::comment_store::FileThreads;
#[allow(unused_imports)]
use crate::comment_sync;
#[allow(unused_imports)]
use crate::comment_sync::{
    FetchedComment, FreshThread, OutgoingComment, QueuedComment, RemoteComment, ReviewUnit,
    SyncStep, SyncStepView,
};
#[allow(unused_imports)]
use crate::ids;
#[allow(unused_imports)]
use crate::inline_comments;
#[allow(unused_imports)]
use crate::inline_comments::BufferText;
#[allow(unused_imports)]
use crate::persistence;
#[allow(unused_imports)]
use crate::persistence::{DbCommentRow, DbConversationRow, LoadedConversation};
#[allow(unused_imports)]
use crate::sync_github::{PushStep, PushStepView};
#[allow(unused_imports)]
use crate::text;
#[allow(unused_imports)]
use crate::thread;
#[allow(unused_imports)]
use crate::thread::CommentThread;

verus! {

/// The value of a comment is that of its fields.
pub proof fn lemma_node_value(node: CommentNode, author: CommentAuthor)
    ensures
        node@.id == node.id,
        node@.parent_id == node.parent_id,
        node@.author == node.author@,
        node@.body == node.body@,
        node@.kind == node.kind,
        node@.created_at == node.created_at,
        node@.remote_id == node.remote_id,
        author@ == (match author {
            CommentAuthor::User => CommentAuthorView::User,
            CommentAuthor::Agent => CommentAuthorView::Agent,
            CommentAuthor::Remote { login } => CommentAuthorView::Remote { login: login@ },
        }),
{
}

/// The value of a thread is that of its fields.
pub proof fn lemma_thread_value(thread: CommentThread, anchor: CommentAnchor)
    ensures
        thread@.id == thread.id,
        thread@.change_id == (match thread.change_id {
            Some(change) => Some(change.0@),
            None => None,
        }),
        thread@.file == thread.file.0@,
        thread@.anchor == thread.anchor@,
        thread@.kind == thread.kind,
        thread@.status == thread.status,
        thread@.collapsed == thread.collapsed,
        thread@.nodes.len() == thread.nodes@.len(),
        forall|i: int|
            0 <= i < thread.nodes@.len() ==> #[trigger] thread@.nodes[i] == thread.nodes@[i]@,
        anchor@.start_row == anchor.start_row,
        anchor@.start_column == anchor.start_column,
        anchor@.end_row == anchor.end_row,
        anchor@.end_column == anchor.end_column,
        anchor@.fingerprint == anchor.fingerprint@,
{
}

/// The values of lists have one for each element, in order.
pub proof fn lemma_list_values(
    nodes: Seq<CommentNode>,
    node_refs: Seq<&CommentNode>,
    threads: Seq<CommentThread>,
    thread_refs: Seq<&CommentThread>,
    files: Seq<FileThreads>,
    words: Seq<String>,
    i: int,
)
    ensures
        thread::node_views(nodes).len() == nodes.len(),
        0 <= i < nodes.len() ==> thread::node_views(nodes)[i] == nodes[i]@,
        thread::node_ref_views(node_refs).len() == node_refs.len(),
        0 <= i < node_refs.len() ==> thread::node_ref_views(node_refs)[i] == node_refs[i]@,
        thread::thread_views(threads).len() == threads.len(),
        0 <= i < threads.len() ==> thread::thread_views(threads)[i] == threads[i]@,
        thread::thread_ref_views(thread_refs).len() == thread_refs.len(),
        0 <= i < thread_refs.len() ==> thread::thread_ref_views(thread_refs)[i] == thread_refs[i]@,
        comment_store::file_views(files).len() == files.len(),
        0 <= i < files.len() ==> comment_store::file_views(files)[i].file == files[i].file.0@,
        0 <= i < files.len() ==> comment_store::file_views(files)[i].threads
            == thread::thread_views(files[i].threads@),
        text::texts(words).len() == words.len(),
        0 <= i < words.len() ==> text::texts(words)[i] == words[i]@,
{
}

/// The values of what is exchanged with the remote are those of its fields.
pub proof fn lemma_exchange_values(
    remote: RemoteComment,
    outgoing: OutgoingComment,
    queued: QueuedComment,
    fetched: FetchedComment,
    unit: ReviewUnit,
    fresh: FreshThread,
)
    ensures
        remote@.remote_id == remote.remote_id@,
        remote@.parent_remote_id == (match remote.parent_remote_id {
            Some(id) => Some(id@),
            None => None,
        }),
        remote@.path == remote.path@,
        remote@.row == remote.row,
        remote@.body == remote.body@,
        remote@.author_login == remote.author_login@,
        outgoing@.parent_remote_id == (match outgoing.parent_remote_id {
            Some(id) => Some(id@),
            None => None,
        }),
        outgoing@.path == outgoing.path@,
        outgoing@.row == outgoing.row,
        outgoing@.body == outgoing.body@,
        queued@.thread_id == queued.thread_id,
        queued@.comment_id == queued.comment_id,
        queued@.comment == queued.comment@,
        fetched@.comment == fetched.comment@,
        fetched@.file == (match fetched.file {
            Some(path) => Some(path.0@),
            None => None,
        }),
        unit@ == unit.id@,
        fresh@.id == fresh.id && fresh@.root == fresh.root && fresh@.replies == fresh.replies@,
{
}

/// The values of lists of what is exchanged with the remote have one for each
/// element, in order.
pub proof fn lemma_exchange_list_values(
    queue: Seq<QueuedComment>,
    fetched: Seq<FetchedComment>,
    fresh: Seq<FreshThread>,
    buffers: Seq<BufferText>,
    cards: Seq<NodeCard>,
    i: int,
)
    ensures
        comment_sync::queued_views(queue).len() == queue.len(),
        0 <= i < queue.len() ==> comment_sync::queued_views(queue)[i] == queue[i]@,
        comment_sync::fetched_views(fetched).len() == fetched.len(),
        0 <= i < fetched.len() ==> comment_sync::fetched_views(fetched)[i] == fetched[i]@,
        comment_sync::fresh_views(fresh).len() == fresh.len(),
        0 <= i < fresh.len() ==> comment_sync::fresh_views(fresh)[i] == fresh[i]@,
        inline_comments::buffer_views(buffers).len() == buffers.len(),
        0 <= i < buffers.len() ==> inline_comments::buffer_views(buffers)[i].lines == text::texts(
            buffers[i].lines@,
        ),
        0 <= i < buffers.len() ==> inline_comments::buffer_views(buffers)[i].file == (
        match buffers[i].file {
            Some(path) => Some(path.0@),
            None => None,
        }),
        comment_card::card_views(cards).len() == cards.len(),
        0 <= i < cards.len() ==> comment_card::card_views(cards)[i] == cards[i]@,
{
}

/// The values of the steps of a sync, and of creating a comment, are those of
/// their fields.
pub proof fn lemma_step_values(step: SyncStep, push: PushStep)
    ensures
        step@ == (match step {
            SyncStep::Detect { configured } => SyncStepView::Detect {
                configured: match configured {
                    Some(unit) => Some(unit@),
                    None => None,
                },
            },
            SyncStep::Fetch { unit } => SyncStepView::Fetch { unit: unit.id@ },
            SyncStep::Push { unit, queue, next } => SyncStepView::Push {
                unit: unit.id@,
                queue: comment_sync::queued_views(queue@),
                next: next as nat,
            },
            SyncStep::Done => SyncStepView::Done,
            SyncStep::Failed => SyncStepView::Failed,
        }),
        push@ == (match push {
            PushStep::NameOwner => PushStepView::NameOwner,
            PushStep::NameCommit { nwo } => PushStepView::NameCommit { nwo: nwo@ },
            PushStep::Create { args } => PushStepView::Create { args: text::texts(args@) },
            PushStep::Done { remote_id } => PushStepView::Done { remote_id: remote_id@ },
        }),
{
}

/// The value of what a card shows is that of its fields.
pub proof fn lemma_card_values(
    card: NodeCard,
    composer: Composer,
    actions: RootActions,
    strip: CompactStrip,
    footer: CardFooter,
    content: CardContent,
)
    ensures
        card@.node_id == card.node_id,
        card@.depth == card.depth,
        card@.chevron == card.chevron,
        card@.author == card.author@,
        card@.kind_label == card.kind_label@,
        card@.kind_color == card.kind_color,
        card@.kind_in_header == card.kind_in_header,
        card@.resolved_badge == card.resolved_badge,
        card@.outdated_badge == card.outdated_badge,
        card@.body == card.body@,
        card@.show_send_to_agent == card.show_send_to_agent,
        card@.tinted == card.tinted,
        card@.hidden_label == (match card.hidden_label {
            Some(label) => Some(label@),
            None => None,
        }),
        card.root_actions is Some <==> card@.root_actions is Some,
        card.root_actions matches Some(a) ==> card@.root_actions == Some(a@),
        card.composer is Some <==> card@.composer is Some,
        card.composer matches Some(c) ==> card@.composer == Some(c@),
        composer@.parent == composer.parent,
        composer@.submit_label == composer.submit_label@,
        composer@.show_cancel == composer.show_cancel,
        actions@.collapse_label == actions.collapse_label@,
        actions@.resolve_label == actions.resolve_label@,
        strip@.summary == strip.summary@,
        strip@.color == strip.color,
        strip@.show_reopen == strip.show_reopen,
        footer@ == (match footer {
            CardFooter::ReplyButton => CardFooterView::ReplyButton,
            CardFooter::Input(input) => CardFooterView::Input(input@),
            CardFooter::Nothing => CardFooterView::Nothing,
        }),
        content@ == (match content {
            CardContent::Nothing => CardContentView::Nothing,
            CardContent::Strip(s) => CardContentView::Strip(s@),
            CardContent::FirstComment(input) => CardContentView::FirstComment(input@),
            CardContent::Comments { cards, footer: f } => CardContentView::Comments {
                cards: comment_card::card_views(cards@),
                footer: f@,
            },
        }),
{
}

/// The value of a row is that of its columns.
pub proof fn lemma_row_values(
    row: DbConversationRow,
    comment_row: DbCommentRow,
    loaded: LoadedConversation,
)
    ensures
        row@.conversation_id == row.conversation_id@,
        row@.path == row.path@,
        row@.start_row == row.start_row,
        row@.start_column == row.start_column,
        row@.end_row == row.end_row,
        row@.end_column == row.end_column,
        row@.fingerprint == row.fingerprint@,
        row@.kind == row.kind,
        row@.status == row.status,
        row@.collapsed == row.collapsed,
        comment_row@.conversation_id == comment_row.conversation_id@,
        comment_row@.comment_id == comment_row.comment_id@,
        comment_row@.in_reply_to == (match comment_row.in_reply_to {
            Some(id) => Some(id@),
            None => None,
        }),
        comment_row@.author_kind == comment_row.author_kind,
        comment_row@.author_login == (match comment_row.author_login {
            Some(login) => Some(login@),
            None => None,
        }),
        comment_row@.body == comment_row.body@,
        comment_row@.created_at == comment_row.created_at,
        comment_row@.remote_id == comment_row.remote_id,
        comment_row@.kind == comment_row.kind,
        loaded@.row == loaded.row@,
        loaded@.file == (match loaded.file {
            Some(path) => Some(path.0@),
            None => None,
        }),
{
}

/// The values of lists of rows have one for each row, in order.
pub proof fn lemma_row_list_values(
    rows: Seq<DbConversationRow>,
    comment_rows: Seq<DbCommentRow>,
    loaded: Seq<LoadedConversation>,
    i: int,
)
    ensures
        persistence::conversation_row_views(rows).len() == rows.len(),
        0 <= i < rows.len() ==> persistence::conversation_row_views(rows)[i] == rows[i]@,
        persistence::comment_row_views(comment_rows).len() == comment_rows.len(),
        0 <= i < comment_rows.len() ==> persistence::comment_row_views(comment_rows)[i]
            == comment_rows[i]@,
        persistence::loaded_views(loaded).len() == loaded.len(),
        0 <= i < loaded.len() ==> persistence::loaded_views(loaded)[i] == loaded[i]@,
{
}

/// The kinds, states and authors have numbers of their own, under which they
/// have always been persisted; unknown numbers stand for the plain ones.
pub proof fn lemma_persisted_numbers(number: i64, login: Option<Seq<char>>)
    ensures
        comment::kind_number(CommentKind::Comment) == 0,
        comment::kind_number(CommentKind::Question) == 1,
        comment::kind_number(CommentKind::Task) == 2,
        comment::kind_of_number(number) == (if number == 1 {
            CommentKind::Question
        } else if number == 2 {
            CommentKind::Task
        } else {
            CommentKind::Comment
        }),
        comment::status_number(CommentStatus::Open) == 0,
        comment::status_number(CommentStatus::Resolved) == 1,
        comment::status_of_number(number) == CommentStatus::Resolved <==> number == 1,
        number == 1 ==> comment::author_of_columns(number, login) is Agent,
        number == 2 ==> comment::author_of_columns(number, login) == (CommentAuthorView::Remote {
            login: match login {
                Some(text) => text,
                None => Seq::empty(),
            },
        }),
        number != 1 && number != 2 ==> comment::author_of_columns(number, login) is User,
{
}

/// A date is the seconds since the epoch, as long as they fit, and zero before
/// it.
pub proof fn lemma_dates(seconds: u64)
    ensures
        clock::timestamp_of(None) == 0,
        seconds <= i64::MAX ==> clock::timestamp_of(Some(seconds)) == seconds,
        seconds > i64::MAX ==> clock::timestamp_of(Some(seconds)) == seconds
            - 0x1_0000_0000_0000_0000,
{
}

/// An identifier's text: 36 characters, hyphens behind the digits 8, 12, 16
/// and 20, and the 32 hexadecimal digits of the value, the highest first, in
/// lower case.
pub proof fn lemma_identifier_text(value: u128, i: int)
    requires
        0 <= i < 36,
    ensures
        ({
            let shown = ids::hyphenated(value);
            let before: int = if i > 23 {
                4
            } else if i > 18 {
                3
            } else if i > 13 {
                2
            } else if i > 8 {
                1
            } else {
                0
            };
            let digit = (value >> ((4 * (31 - (i - before))) as u128)) & 0xf;
            &&& shown.len() == 36
            &&& i == 8 || i == 13 || i == 18 || i == 23 ==> shown[i] == '-'
            &&& i != 8 && i != 13 && i != 18 && i != 23 ==> shown[i] == (if digit < 10 {
                (48 + digit) as char
            } else {
                (87 + digit) as char
            })
        }),
{
}

/// The same identifier is read from its hyphenated text, from that in braces,
/// and from that behind `urn:uuid:`.
pub proof fn lemma_identifier_forms(shown: Seq<char>, value: u128)
    requires
        shown.len() == 36,
        ids::parsed_uuid(shown) == Some(value),
    ensures
        ids::parsed_uuid(seq!['{'] + shown + seq!['}']) == Some(value),
        ids::parsed_uuid("urn:uuid:"@ + shown) == Some(value),
{
    let braced = seq!['{'] + shown + seq!['}'];
    let urn = "urn:uuid:"@ + shown;
    lemma_is_its_text(shown, value);
    assert(braced.subrange(1, 37) =~= shown);
    assert(ids::is_uuid_text(braced, value));
    ids::lemma_parsed_uuid(braced, value);
    reveal_strlit("urn:uuid:");
    assert(urn.skip(9) =~= shown);
    assert(urn.take(9).map_values(|c: char| ids::ascii_lower(c)) =~= "urn:uuid:"@);
    assert(ids::is_uuid_text(urn, value));
    ids::lemma_parsed_uuid(urn, value);
}

/// The same identifier is read from its digits alone.
pub proof fn lemma_identifier_without_hyphens(shown: Seq<char>, value: u128)
    requires
        shown.len() == 36,
        ids::parsed_uuid(shown) == Some(value),
    ensures
        ids::parsed_uuid(
            shown.subrange(0, 8) + shown.subrange(9, 13) + shown.subrange(14, 18) + shown.subrange(
                19,
                23,
            ) + shown.subrange(24, 36),
        ) == Some(value),
{
    let bare = shown.subrange(0, 8) + shown.subrange(9, 13) + shown.subrange(14, 18)
        + shown.subrange(19, 23) + shown.subrange(24, 36);
    lemma_is_its_text(shown, value);
    assert(bare =~= ids::uuid_digits(shown)->0);
    assert(ids::is_uuid_text(bare, value));
    ids::lemma_parsed_uuid(bare, value);
}

/// Whether two texts are the same but for letters in upper case in the second.
pub open spec fn same_but_for_case(lower: Seq<char>, upper: Seq<char>) -> bool {
    &&& lower.len() == upper.len()
    &&& forall|i: int|
        0 <= i < lower.len() ==> #[trigger] upper[i] == lower[i] || ('a' <= lower[i] <= 'z'
            && upper[i] as u32 == lower[i] as u32 - 32)
}

/// The same identifier is read in every form with letters in upper case.
pub proof fn lemma_identifier_in_upper_case(lower: Seq<char>, upper: Seq<char>, value: u128)
    requires
        ids::parsed_uuid(lower) == Some(value),
        same_but_for_case(lower, upper),
    ensures
        ids::parsed_uuid(upper) == Some(value),
{
    lemma_is_its_text(lower, value);
    reveal_strlit("urn:uuid:");
    if lower.len() == 45 {
        let start = lower.take(9).map_values(|c: char| ids::ascii_lower(c));
        let other = upper.take(9).map_values(|c: char| ids::ascii_lower(c));
        assert forall|i: int| 0 <= i < 9 implies other[i] == start[i] by {
            assert(upper[i] == upper[i]);
        }
        assert(other =~= start);
    }
    let digits = ids::uuid_digits(lower)->0;
    let others = ids::uuid_digits(upper)->0;
    assert(ids::uuid_digits(upper) is Some);
    assert forall|k: int| 0 <= k < 32 implies ids::hex_value(#[trigger] others[k]) == Some(
        ids::hex_digit_at(value, k),
    ) by {
        let at: int = if lower.len() == 32 {
            k
        } else if lower.len() == 36 {
            ids::digit_place(k)
        } else if lower.len() == 38 {
            ids::digit_place(k) + 1
        } else {
            ids::digit_place(k) + 9
        };
        assert(digits[k] == lower[at]);
        assert(others[k] == upper[at]);
        lemma_digit_in_upper_case(lower[at], upper[at]);
        assert(ids::hex_value(digits[k]) == Some(ids::hex_digit_at(value, k)));
    }
    assert(ids::is_uuid_text(upper, value));
    ids::lemma_parsed_uuid(upper, value);
}

proof fn lemma_digit_in_upper_case(lower: char, upper: char)
    requires
        upper == lower || ('a' <= lower <= 'z' && upper as u32 == lower as u32 - 32),
        ids::hex_value(lower) is Some,
    ensures
        ids::hex_value(upper) == ids::hex_value(lower),
{
    if upper != lower {
        assert(lower as u32 == lower as u128);
        assert(upper as u32 == upper as u128);
        assert('A' <= upper <= 'F');
        assert(upper as u128 - 55 == lower as u128 - 87);
    }
}

proof fn lemma_is_its_text(shown: Seq<char>, value: u128)
    requires
        ids::parsed_uuid(shown) == Some(value),
    ensures
        ids::is_uuid_text(shown, value),
{
    let chosen = choose|v: u128| ids::is_uuid_text(shown, v);
    assert(ids::is_uuid_text(shown, chosen));
}

/// A text that is no identifier: one of a wrong length, or a hyphenated one
/// without its hyphens.
pub proof fn lemma_no_identifier(shown: Seq<char>)
    ensures
        shown.len() != 32 && shown.len() != 36 && shown.len() != 38 && shown.len() != 45
            ==> ids::parsed_uuid(shown) is None,
        shown.len() == 36 && (shown[8] != '-' || shown[13] != '-' || shown[18] != '-' || shown[23]
            != '-') ==> ids::parsed_uuid(shown) is None,
        shown.len() == 38 && (shown[0] != '{' || shown[37] != '}') ==> ids::parsed_uuid(shown)
            is None,
{
}

/// A random identifier has version 4 and the variant of its kind.
pub proof fn lemma_random_identifier(value: u128)
    ensures
        ids::is_random_uuid(value) <==> ids::hex_digit_at(value, 12) == 4 && (value >> 62u128) & 0x3
            == 2,
{
}

} // verus!
