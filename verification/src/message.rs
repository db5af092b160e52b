//! One classified chat message and its helper queries.

use vstd::prelude::*;

use crate::calendar::{LogDate, Timestamp};
use crate::classify::{chat_shape, ts_of, ts_valid, valid_sender};
use crate::text::{
    contains_sub, find_first, find_sub, has_sub, lemma_split_round_trip, matches_at,
};

verus! {

/// One classified chat, trade-chat, global-chat or tell line.
pub struct Message {
    /// 1-based position of the originating line over the lifetime of the log.
    pub id: usize,
    /// Time of day from the line's leading `[HH:MM:SS]` marker.
    pub timestamp: Timestamp,
    /// The full original line, verbatim.
    pub contents: String,
    /// The participant name captured from the line.
    pub sender: String,
    /// Date carried forward from the most recent date separator, if any.
    pub date: Option<LogDate>,
}

/// Mathematical image of a `Message`.
#[verifier::ext_equal]
pub struct MessageView {
    pub id: nat,
    pub timestamp: Timestamp,
    pub contents: Seq<char>,
    pub sender: Seq<char>,
    pub date: Option<LogDate>,
}

impl View for Message {
    type V = MessageView;

    open spec fn view(&self) -> MessageView {
        MessageView {
            id: self.id as nat,
            timestamp: self.timestamp,
            contents: self.contents@,
            sender: self.sender@,
            date: self.date,
        }
    }
}

/// What classification guarantees of every message it creates: the contents
/// are a chat-shaped line whose timestamp the message carries, and the
/// sender is a valid sender name sitting right after the timestamp.
pub open spec fn msg_wf(m: MessageView) -> bool {
    &&& chat_shape(m.contents)
    &&& ts_valid(m.contents)
    &&& m.timestamp == ts_of(m.contents)
    &&& m.timestamp.valid()
    &&& valid_sender(m.sender)
    &&& matches_at(m.contents, 11, m.sender)
    &&& m.id >= 1
}

/// Views of a sequence of messages.
pub open spec fn msg_views(s: Seq<Message>) -> Seq<MessageView> {
    s.map_values(|m: Message| m@)
}

/// Ids strictly increase along the sequence.
pub open spec fn msgs_sorted(s: Seq<MessageView>) -> bool {
    forall|i: int, j: int| 0 <= i < j < s.len() ==> s[i].id < s[j].id
}

/// Every message is well formed with an id in `[1, total]`, in strictly
/// increasing id order.
pub open spec fn msgs_wf(s: Seq<MessageView>, total: nat) -> bool {
    &&& forall|i: int|
        0 <= i < s.len() ==> msg_wf(#[trigger] s[i]) && 1 <= s[i].id && s[i].id <= total
    &&& msgs_sorted(s)
}

/// No id occurs in both sequences.
pub open spec fn disjoint_ids(a: Seq<MessageView>, b: Seq<MessageView>) -> bool {
    forall|i: int, j: int|
        0 <= i < a.len() && 0 <= j < b.len() ==> #[trigger] a[i].id != #[trigger] b[j].id
}

impl Message {
    pub fn new(contents: String, sender: String, timestamp: Timestamp, id: usize) -> (r: Self)
        ensures
            r@ == (MessageView {
                id: id as nat,
                timestamp,
                contents: contents@,
                sender: sender@,
                date: None,
            }),
    {
        Message { id, contents, sender, timestamp, date: None }
    }

    /// Span `[start, end)` of the first occurrence of the sender inside the
    /// contents.
    pub fn sender_indexes(&self) -> (r: (usize, usize))
        requires
            msg_wf(self@),
        ensures
            find_first(self@.contents, self@.sender) == Some(r.0 as int),
            matches_at(self@.contents, r.0 as int, self@.sender),
            r.1 == r.0 + self@.sender.len(),
            forall|j: int| 0 <= j < r.0 ==> !matches_at(self@.contents, j, self@.sender),
    {
        let s_len = self.sender.as_str().unicode_len();
        // Bounds the contents length by usize, so the span end fits.
        let _c_len = self.contents.as_str().unicode_len();
        match find_sub(self.contents.as_str(), self.sender.as_str()) {
            Some(start) => (start, start + s_len),
            None => {
                proof {
                    assert(has_sub(self@.contents, self@.sender));
                    assert(false);
                }
                (0, 0)
            },
        }
    }

    /// The leading `[HH:MM:SS]` marker of the contents: everything up to and
    /// including the first `]`.
    pub fn timestamp_from_message(&self) -> (r: &str)
        requires
            msg_wf(self@),
        ensures
            r@ == self@.contents.subrange(0, 10),
    {
        self.contents.as_str().substring_char(0, 10)
    }

    /// The contents with everything up to the end of the sender's first
    /// occurrence removed.
    pub fn contents_without_sender(&self) -> (r: String)
        requires
            msg_wf(self@),
        ensures
            match find_first(self@.contents, self@.sender) {
                Some(a) => r@ == self@.contents.skip(a + self@.sender.len() as int),
                None => false,
            },
    {
        let c_len = self.contents.as_str().unicode_len();
        let (_, end) = self.sender_indexes();
        self.contents.as_str().substring_char(end, c_len).to_owned()
    }

    /// Whether the sender looks like an NPC name: players cannot have
    /// whitespace in their names, NPCs can.  A valid sender holds at most a
    /// single internal space, so this is exactly whether a space occurs.
    pub fn is_sender_npc(&self) -> (r: bool)
        requires
            msg_wf(self@),
        ensures
            r == has_sub(self@.sender, " "@),
            r == exists|i: int| 0 <= i < self@.sender.len() && self@.sender[i] == ' ',
    {
        let r = contains_sub(self.sender.as_str(), " ");
        proof {
            reveal_strlit(" ");
            if r {
                let i = choose|i: int| matches_at(self@.sender, i, " "@);
                assert(self@.sender.subrange(i, i + 1)[0] == ' ');
                assert(self@.sender[i] == ' ');
            } else {
                if exists|i: int| 0 <= i < self@.sender.len() && self@.sender[i] == ' ' {
                    let i = choose|i: int|
                        0 <= i < self@.sender.len() && self@.sender[i] == ' ';
                    assert(self@.sender.subrange(i, i + 1) =~= " "@);
                    assert(matches_at(self@.sender, i, " "@));
                }
            }
        }
        r
    }
}

impl Clone for Message {
    fn clone(&self) -> (r: Self)
        ensures
            r == *self,
    {
        Message {
            id: self.id,
            timestamp: self.timestamp,
            contents: self.contents.clone(),
            sender: self.sender.clone(),
            date: self.date,
        }
    }
}

/// The sender of a well-formed message is a substring of its contents, and
/// splitting the contents at the sender's span reassembles the original
/// text.
pub proof fn lemma_sender_in_contents(m: MessageView)
    requires
        msg_wf(m),
    ensures
        has_sub(m.contents, m.sender),
        m.contents == m.contents.take(11) + m.sender + m.contents.skip(11 + m.sender.len() as int),
{
    lemma_split_round_trip(m.contents, m.sender, 11);
}

/// The same reassembly holds at any span where the sender occurs, in
/// particular at the first one that `Message::sender_indexes` returns.
pub proof fn lemma_sender_span_round_trip(m: MessageView, a: int)
    requires
        matches_at(m.contents, a, m.sender),
    ensures
        m.contents == m.contents.take(a) + m.sender + m.contents.skip(a + m.sender.len() as int),
{
    lemma_split_round_trip(m.contents, m.sender, a);
}

} // verus!
