//! The classification resolver: honours archive commands found in a
//! channel's history, then merges the activity verdict with the override
//! table to pick the channel's target category.
//!
//! Precedence: a stale channel is always inactive; a fresh channel whose
//! qualifying message is strictly newer than its override supersedes the
//! override (it is removed and the channel is active); a fresh channel with
//! a standing override is inactive; otherwise it is active.

use crate::activity::{
    channel_is_fresh, qualifying_index, spec_channel_fresh, spec_qualifying_index,
};
use crate::model::{Channel, ChannelView, Config, ConfigView, Deletion, MessageView};
use crate::store::{
    has_override, is_current_entry, remove_id, stored_time, OverrideEntry, OverrideStore,
};
use crate::text::{bytes_lt, is_trigger, is_trigger_content, lex_lt};
use vstd::prelude::*;

verus! {

/// What resolving one channel produces: the channel's target category
/// (`None` when the channel is not managed this pass), the override table
/// afterwards, a deletion instruction for an honoured command, and whether
/// the table was mutated (which obliges the caller to persist it).
#[verifier::ext_equal]
pub ghost struct ResolveOutcome {
    pub target: Option<u64>,
    pub store: Seq<OverrideEntry>,
    pub deletion: Option<Deletion>,
    pub changed: bool,
}

/// The active category a name falls in: the first range whose bound the
/// name is below, or the first unbounded range.  `fallback` is returned only
/// when no range accepts, which a well-formed configuration rules out.
pub open spec fn spec_range_category(
    ranges: Seq<crate::model::ActiveRangeView>,
    name: Seq<u8>,
    fallback: u64,
) -> u64
    decreases ranges.len(),
{
    if ranges.len() == 0 {
        fallback
    } else {
        match ranges[0].name_bound {
            None => ranges[0].category_id,
            Some(b) => if lex_lt(name, b) {
                ranges[0].category_id
            } else {
                spec_range_category(ranges.drop_first(), name, fallback)
            },
        }
    }
}

/// The active category a channel of this name belongs to.
pub open spec fn spec_active_category_for(cfg: ConfigView, name: Seq<u8>) -> u64 {
    spec_range_category(cfg.active_ranges, name, cfg.inactive_category)
}

/// Under a well-formed configuration, every name lands in an active
/// category.
pub proof fn lemma_active_category_is_active(cfg: ConfigView, name: Seq<u8>)
    requires
        cfg.wf(),
    ensures
        cfg.is_active_category(spec_active_category_for(cfg, name)),
{
    lemma_range_category_hits(cfg.active_ranges, name, cfg.inactive_category);
}

proof fn lemma_range_category_hits(
    ranges: Seq<crate::model::ActiveRangeView>,
    name: Seq<u8>,
    fallback: u64,
)
    requires
        ranges.len() > 0,
        ranges.last().name_bound is None,
    ensures
        exists|i: int|
            0 <= i < ranges.len() && #[trigger] ranges[i].category_id == spec_range_category(
                ranges,
                name,
                fallback,
            ),
    decreases ranges.len(),
{
    match ranges[0].name_bound {
        None => {
            assert(ranges[0].category_id == spec_range_category(ranges, name, fallback));
        },
        Some(b) => {
            if lex_lt(name, b) {
                assert(ranges[0].category_id == spec_range_category(ranges, name, fallback));
            } else {
                let rest = ranges.drop_first();
                assert(rest.last() == ranges.last());
                lemma_range_category_hits(rest, name, fallback);
                let i = choose|i: int|
                    0 <= i < rest.len() && #[trigger] rest[i].category_id == spec_range_category(
                        rest,
                        name,
                        fallback,
                    );
                assert(ranges[i + 1].category_id == spec_range_category(ranges, name, fallback));
            }
        },
    }
}

/// The command step: if the qualifying message is the archive trigger, its
/// author holds the capability, and the pair (channel, instant) is not
/// already the stored entry, the table's entry for the channel is replaced
/// and the message is ordered deleted.  Returns the table afterwards and the
/// deletion, if any.
pub open spec fn spec_apply_command(
    channel_id: u64,
    msgs: Seq<MessageView>,
    store: Seq<OverrideEntry>,
) -> (Seq<OverrideEntry>, Option<Deletion>) {
    match spec_qualifying_index(msgs) {
        None => (store, None),
        Some(qi) => {
            let m = msgs[qi];
            if is_trigger(m.content) && m.author_has_capability && !is_current_entry(
                store,
                channel_id,
                m.effective().secs,
            ) {
                (
                    remove_id(store, channel_id).push(
                        OverrideEntry { channel_id, time: m.effective() },
                    ),
                    Some(Deletion { channel_id, message_id: m.id }),
                )
            } else {
                (store, None)
            }
        },
    }
}

/// Resolving one channel at time `now`: an unmanaged channel is left alone;
/// the sticky channel keeps its category untouched; a channel whose history
/// fetch failed keeps its category for this pass; otherwise the archive
/// command is honoured first and the category decided by precedence
/// (stale wins, then supersession, then a standing override, then active).
pub open spec fn spec_resolve_channel(
    cfg: ConfigView,
    ch: ChannelView,
    store: Seq<OverrideEntry>,
    now: i64,
) -> ResolveOutcome {
    match ch.category {
        None => ResolveOutcome { target: None, store, deletion: None, changed: false },
        Some(cur) => {
            if !cfg.is_managed_category(cur) {
                ResolveOutcome { target: None, store, deletion: None, changed: false }
            } else if ch.id == cfg.sticky_channel {
                ResolveOutcome { target: Some(cur), store, deletion: None, changed: false }
            } else {
                match ch.messages {
                    None => ResolveOutcome {
                        target: Some(cur),
                        store,
                        deletion: None,
                        changed: false,
                    },
                    Some(msgs) => {
                        let cmd = spec_apply_command(ch.id, msgs, store);
                        let store1 = cmd.0;
                        let deletion = cmd.1;
                        let fired = deletion is Some;
                        if !spec_channel_fresh(msgs, now) {
                            ResolveOutcome {
                                target: Some(cfg.inactive_category),
                                store: store1,
                                deletion,
                                changed: fired,
                            }
                        } else {
                            let qi = spec_qualifying_index(msgs)->Some_0;
                            let m = msgs[qi];
                            if has_override(store1, ch.id) && m.created.secs > stored_time(
                                store1,
                                ch.id,
                            ).secs {
                                ResolveOutcome {
                                    target: Some(spec_active_category_for(cfg, ch.name)),
                                    store: remove_id(store1, ch.id),
                                    deletion,
                                    changed: true,
                                }
                            } else if has_override(store1, ch.id) {
                                ResolveOutcome {
                                    target: Some(cfg.inactive_category),
                                    store: store1,
                                    deletion,
                                    changed: fired,
                                }
                            } else {
                                ResolveOutcome {
                                    target: Some(spec_active_category_for(cfg, ch.name)),
                                    store: store1,
                                    deletion,
                                    changed: fired,
                                }
                            }
                        }
                    },
                }
            }
        },
    }
}

/// Whether `cat` is one of the configured active categories.
pub fn is_active_category(cfg: &Config, cat: u64) -> (r: bool)
    ensures
        r == cfg.deep_view().is_active_category(cat),
{
    let n = cfg.active_ranges.len();
    let mut i: usize = 0;
    while i < n
        invariant
            0 <= i <= n,
            n == cfg.active_ranges@.len(),
            forall|j: int| 0 <= j < i ==> cfg.deep_view().active_ranges[j].category_id != cat,
        decreases n - i,
    {
        if cfg.active_ranges[i].category_id == cat {
            proof {
                assert(cfg.deep_view().active_ranges[i as int].category_id == cat);
            }
            return true;
        }
        proof {
            assert(cfg.deep_view().active_ranges[i as int]
                == cfg.active_ranges@[i as int].deep_view());
        }
        i = i + 1;
    }
    false
}

/// Whether `cat` is managed: active or the inactive category.
pub fn is_managed_category(cfg: &Config, cat: u64) -> (r: bool)
    ensures
        r == cfg.deep_view().is_managed_category(cat),
{
    cat == cfg.inactive_category || is_active_category(cfg, cat)
}

/// The active category a channel of this name belongs to.
pub fn active_category_for(cfg: &Config, name: &Vec<u8>) -> (r: u64)
    requires
        cfg.deep_view().wf(),
    ensures
        r == spec_active_category_for(cfg.deep_view(), name@),
{
    let n = cfg.active_ranges.len();
    let ghost ranges = cfg.deep_view().active_ranges;
    let mut i: usize = 0;
    proof {
        assert(ranges.skip(0) =~= ranges);
    }
    while i < n
        invariant
            0 <= i <= n,
            n == cfg.active_ranges@.len(),
            ranges == cfg.deep_view().active_ranges,
            ranges.len() == n,
            ranges.last().name_bound is None,
            spec_range_category(ranges, name@, cfg.deep_view().inactive_category)
                == spec_range_category(
                ranges.skip(i as int),
                name@,
                cfg.deep_view().inactive_category,
            ),
            cfg.deep_view().inactive_category == cfg.inactive_category,
            forall|j: int| 0 <= j < i ==> ranges[j].name_bound is Some,
        decreases n - i,
    {
        proof {
            assert(ranges[i as int] == cfg.active_ranges@[i as int].deep_view());
            assert(ranges.skip(i as int)[0] == ranges[i as int]);
        }
        match &cfg.active_ranges[i].name_bound {
            None => {
                return cfg.active_ranges[i].category_id;
            },
            Some(b) => {
                proof {
                    assert(ranges[i as int].name_bound->Some_0 =~= b@);
                }
                if bytes_lt(name, b) {
                    return cfg.active_ranges[i].category_id;
                }
            },
        }
        proof {
            assert(ranges.skip(i as int).drop_first() =~= ranges.skip(i as int + 1));
        }
        i = i + 1;
    }
    proof {
        assert(ranges[n - 1] == ranges.last());
        assert(false);
    }
    cfg.inactive_category
}

/// Resolves one channel: mutates the override table per the archive command
/// and supersession rules and returns the target category, the deletion to
/// perform, and whether the table changed.
pub fn resolve_channel(
    cfg: &Config,
    ch: &Channel,
    store: &mut OverrideStore,
    now: i64,
) -> (r: (Option<u64>, Option<Deletion>, bool))
    requires
        cfg.deep_view().wf(),
        old(store).wf(),
    ensures
        final(store).wf(),
        ({
            let o = spec_resolve_channel(cfg.deep_view(), ch.deep_view(), old(store)@, now);
            final(store)@ == o.store && r.0 == o.target && r.1 == o.deletion && r.2 == o.changed
        }),
{
    let cur = match ch.category {
        None => {
            return (None, None, false);
        },
        Some(c) => c,
    };
    if !is_managed_category(cfg, cur) {
        return (None, None, false);
    }
    if ch.id == cfg.sticky_channel {
        return (Some(cur), None, false);
    }
    let msgs = match &ch.messages {
        None => {
            return (Some(cur), None, false);
        },
        Some(m) => m,
    };
    let ghost msgs_v = ch.deep_view().messages->Some_0;
    proof {
        assert(msgs_v == msgs.deep_view());
    }
    // The command step.
    let mut deletion: Option<Deletion> = None;
    let mut fired = false;
    let qi = qualifying_index(msgs);
    if let Some(i) = qi {
        proof {
            assert(msgs.deep_view()[i as int] == msgs@[i as int].deep_view());
            assert(msgs@[i as int].content.deep_view() =~= msgs@[i as int].content@);
        }
        let m = &msgs[i];
        if is_trigger_content(&m.content) && m.author_has_capability {
            let eff = crate::activity::effective_time(m);
            if !store.contains_instant(ch.id, eff.secs) {
                store.replace(ch.id, eff);
                deletion = Some(Deletion { channel_id: ch.id, message_id: m.id });
                fired = true;
            }
        }
    }
    proof {
        let cmd = spec_apply_command(ch.id, msgs_v, old(store)@);
        assert(store@ == cmd.0 && deletion == cmd.1 && fired == (cmd.1 is Some));
    }
    // The category decision.
    let fresh = channel_is_fresh(msgs, now);
    if !fresh {
        return (Some(cfg.inactive_category), deletion, fired);
    }
    let i = match qi {
        Some(i) => i,
        None => {
            // A fresh verdict implies a qualifying message exists.
            proof {
                assert(false);
            }
            return (None, None, false);
        },
    };
    proof {
        assert(msgs.deep_view()[i as int] == msgs@[i as int].deep_view());
    }
    let created_secs = msgs[i].created.secs;
    let standing = store.lookup(ch.id);
    match standing {
        Some(t) => {
            if created_secs > t.secs {
                store.remove(ch.id);
                proof {
                    assert(ch.name.deep_view() =~= ch.name@);
                }
                let target = active_category_for(cfg, &ch.name);
                return (Some(target), deletion, true);
            }
            (Some(cfg.inactive_category), deletion, fired)
        },
        None => {
            proof {
                assert(ch.name.deep_view() =~= ch.name@);
            }
            let target = active_category_for(cfg, &ch.name);
            (Some(target), deletion, fired)
        },
    }
}

} // verus!
