//! The data model: plain-value snapshots of channels and messages, the
//! compiled-in category configuration, and the mutations a reconciliation
//! pass can emit.

use vstd::prelude::*;

verus! {

/// A channel is considered stale once its most recent qualifying activity is
/// at least this many seconds old (sixty days).
pub const STALENESS_SECONDS: i64 = 60 * 86400;

/// An instant, as seconds since the Unix epoch together with the UTC offset
/// (in seconds) of the clock that reported it.  Two timestamps denote the
/// same instant exactly when their `secs` agree; the offset is presentation
/// data carried through persistence.
#[derive(Clone, Copy, PartialEq, Eq, Structural, Debug)]
pub struct Timestamp {
    pub secs: i64,
    pub utc_offset_secs: i32,
}

impl DeepView for Timestamp {
    type V = Timestamp;

    open spec fn deep_view(&self) -> Timestamp {
        *self
    }
}

/// One message of a channel's recent history, reduced to the facts the
/// engine reads.  `author_has_capability` is the platform's answer to
/// whether the author holds the moderation capability required for the
/// archive command on this channel.
pub struct Message {
    pub id: u64,
    /// True when the message originates from an automated webhook or bot
    /// relay; such messages never qualify as activity.
    pub from_relay: bool,
    pub created: Timestamp,
    pub edited: Option<Timestamp>,
    pub content: Vec<u8>,
    pub author_has_capability: bool,
}

#[verifier::ext_equal]
pub ghost struct MessageView {
    pub id: u64,
    pub from_relay: bool,
    pub created: Timestamp,
    pub edited: Option<Timestamp>,
    pub content: Seq<u8>,
    pub author_has_capability: bool,
}

impl DeepView for Message {
    type V = MessageView;

    open spec fn deep_view(&self) -> MessageView {
        MessageView {
            id: self.id,
            from_relay: self.from_relay,
            created: self.created,
            edited: self.edited,
            content: self.content.deep_view(),
            author_has_capability: self.author_has_capability,
        }
    }
}

impl MessageView {
    /// The instant a message counts as activity: its edit time when it was
    /// edited (an edit is fresh activity), otherwise its creation time.
    pub open spec fn effective(self) -> Timestamp {
        match self.edited {
            Some(t) => t,
            None => self.created,
        }
    }
}

/// A channel as the platform reports it: identity, display name (as the
/// platform's byte encoding of the name), current category and position,
/// and its recent messages, newest first.  `messages` is `None` when the
/// per-channel history fetch failed this pass; such a channel is left in
/// place for the pass.
pub struct Channel {
    pub id: u64,
    pub name: Vec<u8>,
    pub category: Option<u64>,
    pub position: u64,
    pub messages: Option<Vec<Message>>,
}

#[verifier::ext_equal]
pub ghost struct ChannelView {
    pub id: u64,
    pub name: Seq<u8>,
    pub category: Option<u64>,
    pub position: u64,
    pub messages: Option<Seq<MessageView>>,
}

impl DeepView for Channel {
    type V = ChannelView;

    open spec fn deep_view(&self) -> ChannelView {
        ChannelView {
            id: self.id,
            name: self.name.deep_view(),
            category: self.category,
            position: self.position,
            messages: self.messages.deep_view(),
        }
    }
}

/// One active category: channels whose name is lexicographically below
/// `name_bound` (when present) fall in it.  Ranges are consulted in order;
/// the final range of a well-formed configuration has no bound, so every
/// name finds a home.
pub struct ActiveRange {
    pub category_id: u64,
    pub name_bound: Option<Vec<u8>>,
}

#[verifier::ext_equal]
pub ghost struct ActiveRangeView {
    pub category_id: u64,
    pub name_bound: Option<Seq<u8>>,
}

impl DeepView for ActiveRange {
    type V = ActiveRangeView;

    open spec fn deep_view(&self) -> ActiveRangeView {
        ActiveRangeView {
            category_id: self.category_id,
            name_bound: self.name_bound.deep_view(),
        }
    }
}

/// The fixed, process-wide partition: the active categories with their name
/// ranges, the single inactive category, and the sticky channel that is
/// never reclassified and always sorted first.
pub struct Config {
    pub active_ranges: Vec<ActiveRange>,
    pub inactive_category: u64,
    pub sticky_channel: u64,
}

#[verifier::ext_equal]
pub ghost struct ConfigView {
    pub active_ranges: Seq<ActiveRangeView>,
    pub inactive_category: u64,
    pub sticky_channel: u64,
}

impl DeepView for Config {
    type V = ConfigView;

    open spec fn deep_view(&self) -> ConfigView {
        ConfigView {
            active_ranges: self.active_ranges.deep_view(),
            inactive_category: self.inactive_category,
            sticky_channel: self.sticky_channel,
        }
    }
}

impl ConfigView {
    /// A usable configuration names at least one active category and its
    /// last range is unbounded, so that every channel name is covered.
    pub open spec fn wf(self) -> bool {
        &&& self.active_ranges.len() > 0
        &&& self.active_ranges.last().name_bound is None
    }

    pub open spec fn is_active_category(self, cat: u64) -> bool {
        exists|i: int|
            0 <= i < self.active_ranges.len() && self.active_ranges[i].category_id == cat
    }

    /// The categories the engine manages: every active category and the
    /// inactive one.  Channels elsewhere are never touched.
    pub open spec fn is_managed_category(self, cat: u64) -> bool {
        cat == self.inactive_category || self.is_active_category(cat)
    }
}

/// A combined category-and-position edit for one channel: the single
/// mutation the platform is asked to perform so a move is never visible as
/// two separate hops.
#[derive(Clone, Copy, PartialEq, Eq, Structural, Debug)]
pub struct Edit {
    pub channel_id: u64,
    pub category: u64,
    pub position: u64,
}

impl DeepView for Edit {
    type V = Edit;

    open spec fn deep_view(&self) -> Edit {
        *self
    }
}

/// An instruction to delete an honoured archive-command message.
#[derive(Clone, Copy, PartialEq, Eq, Structural, Debug)]
pub struct Deletion {
    pub channel_id: u64,
    pub message_id: u64,
}

impl DeepView for Deletion {
    type V = Deletion;

    open spec fn deep_view(&self) -> Deletion {
        *self
    }
}

} // verus!
