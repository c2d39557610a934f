//! The activity evaluator: given a channel's recent history (newest first),
//! finds the most recent qualifying message and decides whether the channel
//! is fresh or stale against the sixty-day threshold.

use crate::model::{Message, MessageView, Timestamp, STALENESS_SECONDS};
use vstd::prelude::*;

verus! {

/// The index of the most recent qualifying message: the first entry of the
/// newest-first history that is not from a webhook/bot relay.  `None` when
/// the history is empty or holds only relayed messages.
pub open spec fn spec_qualifying_index(msgs: Seq<MessageView>) -> Option<int>
    decreases msgs.len(),
{
    if msgs.len() == 0 {
        None
    } else if !msgs[0].from_relay {
        Some(0)
    } else {
        match spec_qualifying_index(msgs.drop_first()) {
            Some(i) => Some(i + 1),
            None => None,
        }
    }
}

/// The qualifying index is exactly the first non-relay position.
pub proof fn lemma_qualifying_index_props(msgs: Seq<MessageView>)
    ensures
        match spec_qualifying_index(msgs) {
            Some(i) => 0 <= i < msgs.len() && !msgs[i].from_relay && forall|j: int|
                0 <= j < i ==> msgs[j].from_relay,
            None => forall|j: int| 0 <= j < msgs.len() ==> msgs[j].from_relay,
        },
    decreases msgs.len(),
{
    if msgs.len() > 0 && msgs[0].from_relay {
        let rest = msgs.drop_first();
        lemma_qualifying_index_props(rest);
        match spec_qualifying_index(rest) {
            Some(i) => {
                assert(rest[i] == msgs[i + 1]);
                assert forall|j: int| 0 <= j < i + 1 implies msgs[j].from_relay by {
                    if j > 0 {
                        assert(rest[j - 1] == msgs[j]);
                    }
                }
            },
            None => {
                assert forall|j: int| 0 <= j < msgs.len() implies msgs[j].from_relay by {
                    if j > 0 {
                        assert(rest[j - 1] == msgs[j]);
                    }
                }
            },
        }
    }
}

/// Conversely, a first non-relay position determines the qualifying index.
pub proof fn lemma_qualifying_index_at(msgs: Seq<MessageView>, i: int)
    requires
        0 <= i < msgs.len(),
        !msgs[i].from_relay,
        forall|j: int| 0 <= j < i ==> msgs[j].from_relay,
    ensures
        spec_qualifying_index(msgs) == Some(i),
    decreases i,
{
    if i > 0 {
        lemma_qualifying_index_at(msgs.drop_first(), i - 1);
    }
}

pub proof fn lemma_qualifying_index_none(msgs: Seq<MessageView>)
    requires
        forall|j: int| 0 <= j < msgs.len() ==> msgs[j].from_relay,
    ensures
        spec_qualifying_index(msgs) is None,
    decreases msgs.len(),
{
    if msgs.len() > 0 {
        lemma_qualifying_index_none(msgs.drop_first());
    }
}

/// Whether a message is recent enough, at time `now`, to count the channel
/// as active: its effective instant is strictly less than the staleness
/// threshold ago.
pub open spec fn is_fresh(m: MessageView, now: i64) -> bool {
    (now as int) - (m.effective().secs as int) < STALENESS_SECONDS as int
}

/// The evaluator's verdict for a whole history: fresh exactly when a
/// qualifying message exists and it is recent; a channel with no qualifying
/// message is stale unconditionally.
pub open spec fn spec_channel_fresh(msgs: Seq<MessageView>, now: i64) -> bool {
    match spec_qualifying_index(msgs) {
        Some(i) => is_fresh(msgs[i], now),
        None => false,
    }
}

/// The instant a message counts as activity (edit time when edited,
/// creation time otherwise).
pub fn effective_time(m: &Message) -> (t: Timestamp)
    ensures
        t == m.deep_view().effective(),
{
    match m.edited {
        Some(t) => t,
        None => m.created,
    }
}

/// Whether `m` is recent enough at time `now`.
pub fn message_is_fresh(m: &Message, now: i64) -> (r: bool)
    ensures
        r == is_fresh(m.deep_view(), now),
{
    let eff = effective_time(m);
    (now as i128) - (eff.secs as i128) < STALENESS_SECONDS as i128
}

/// The index of the most recent qualifying message of a history, newest
/// first.
pub fn qualifying_index(msgs: &Vec<Message>) -> (r: Option<usize>)
    ensures
        match r {
            Some(i) => i < msgs@.len() && spec_qualifying_index(msgs.deep_view()) == Some(
                i as int,
            ),
            None => spec_qualifying_index(msgs.deep_view()) is None,
        },
{
    let n = msgs.len();
    let mut i: usize = 0;
    while i < n
        invariant
            0 <= i <= n,
            n == msgs@.len(),
            forall|j: int| 0 <= j < i ==> msgs.deep_view()[j].from_relay,
        decreases n - i,
    {
        if !msgs[i].from_relay {
            proof {
                assert(msgs.deep_view()[i as int] == msgs@[i as int].deep_view());
                lemma_qualifying_index_at(msgs.deep_view(), i as int);
            }
            return Some(i);
        }
        proof {
            assert(msgs.deep_view()[i as int] == msgs@[i as int].deep_view());
        }
        i = i + 1;
    }
    proof {
        lemma_qualifying_index_none(msgs.deep_view());
    }
    None
}

/// The evaluator: whether the channel's history makes it fresh at `now`.
pub fn channel_is_fresh(msgs: &Vec<Message>, now: i64) -> (r: bool)
    ensures
        r == spec_channel_fresh(msgs.deep_view(), now),
{
    match qualifying_index(msgs) {
        Some(i) => {
            proof {
                assert(msgs.deep_view()[i as int] == msgs@[i as int].deep_view());
            }
            message_is_fresh(&msgs[i], now)
        },
        None => false,
    }
}

} // verus!
