//! The laws the engine obeys, stated once over the specification functions
//! and proved for every input: replace semantics of the override table,
//! supersession of an override by newer activity, the dominance of
//! staleness, and the sticky channel's invariants.

use crate::activity::{is_fresh, spec_channel_fresh, spec_qualifying_index};
use crate::model::{ChannelView, ConfigView, MessageView, Timestamp};
use crate::plan::{
    is_earlier_peer, lemma_count_before_bound, lemma_rank_strictly_monotone, spec_count_before,
    spec_edit_for, spec_edits_upto, spec_planned_position, sticky_targeted,
};
use crate::reconcile::{
    lemma_resolve_upto_index, lemma_resolve_upto_len, spec_resolve_upto, spec_run_pass,
};
use crate::resolve::{
    lemma_active_category_is_active, spec_active_category_for, spec_apply_command,
    spec_resolve_channel,
};
use crate::store::{
    entry_secs, has_override, is_current_entry, lemma_entry_secs_props,
    lemma_entry_secs_remove_self, lemma_entry_secs_replace, lemma_remove_id, remove_id,
    stored_time, unique_ids, OverrideEntry,
};
use vstd::prelude::*;

verus! {

/// A message whose effective instant is no earlier than its creation: edits
/// happen after a message is posted.
pub open spec fn message_wf(m: MessageView) -> bool {
    m.effective().secs >= m.created.secs
}

pub open spec fn history_wf(msgs: Seq<MessageView>) -> bool {
    forall|k: int| 0 <= k < msgs.len() ==> message_wf(#[trigger] msgs[k])
}

/// No two snapshot entries describe the same channel.
pub open spec fn distinct_channel_ids(chans: Seq<ChannelView>) -> bool {
    forall|i: int, j: int| 0 <= i < j < chans.len() ==> chans[i].id != chans[j].id
}

/// What a platform snapshot always satisfies: channels are distinct, small
/// enough to index, and edit instants do not precede creation.
pub open spec fn snapshot_wf(chans: Seq<ChannelView>) -> bool {
    &&& chans.len() < 0x1_0000_0000_0000_0000
    &&& distinct_channel_ids(chans)
    &&& forall|i: int|
        0 <= i < chans.len() ==> match (#[trigger] chans[i]).messages {
            Some(m) => history_wf(m),
            None => true,
        }
}

/// Law: after two successive archive overrides for one channel, the table
/// holds exactly one entry for that channel, and it bears the second
/// command's instant.
pub proof fn lemma_override_replace_semantics(
    s0: Seq<OverrideEntry>,
    id: u64,
    t1: Timestamp,
    t2: Timestamp,
)
    requires
        unique_ids(s0),
    ensures
        ({
            let s1 = remove_id(s0, id).push(OverrideEntry { channel_id: id, time: t1 });
            let s2 = remove_id(s1, id).push(OverrideEntry { channel_id: id, time: t2 });
            &&& unique_ids(s2)
            &&& has_override(s2, id)
            &&& forall|k: int|
                0 <= k < s2.len() && s2[k].channel_id == id ==> #[trigger] s2[k].time == t2
            &&& forall|k: int, l: int|
                0 <= k < s2.len() && 0 <= l < s2.len() && #[trigger] s2[k].channel_id == id
                    && #[trigger] s2[l].channel_id == id ==> k == l
        }),
{
    lemma_entry_secs_replace(s0, id, t1);
    let s1 = remove_id(s0, id).push(OverrideEntry { channel_id: id, time: t1 });
    lemma_entry_secs_replace(s1, id, t2);
    let base = remove_id(s1, id);
    lemma_remove_id(s1, id);
    let s2 = base.push(OverrideEntry { channel_id: id, time: t2 });
    assert(s2[s2.len() - 1].channel_id == id);
    assert forall|k: int|
        0 <= k < s2.len() && s2[k].channel_id == id implies #[trigger] s2[k].time == t2 by {
        if k < s2.len() - 1 {
            assert(base[k].channel_id != id);
        }
    }
    assert forall|k: int, l: int|
        0 <= k < s2.len() && 0 <= l < s2.len() && #[trigger] s2[k].channel_id == id
            && #[trigger] s2[l].channel_id == id implies k == l by {
        if k < l {
            assert(s2[k].channel_id != s2[l].channel_id);
        }
        if l < k {
            assert(s2[l].channel_id != s2[k].channel_id);
        }
    }
}

/// Law: an override recorded at one instant is superseded by a later
/// qualifying message — the channel's target is its active category and the
/// override entry is removed.  The message must still be fresh (staleness
/// always wins) and must not itself be an archive command the pass honours
/// (honouring it re-pins the channel first).
pub proof fn lemma_supersession(
    cfg: ConfigView,
    ch: ChannelView,
    store: Seq<OverrideEntry>,
    now: i64,
)
    requires
        cfg.wf(),
        unique_ids(store),
        ch.category is Some,
        cfg.is_managed_category(ch.category->Some_0),
        ch.id != cfg.sticky_channel,
        ch.messages is Some,
        spec_qualifying_index(ch.messages->Some_0) is Some,
        ({
            let msgs = ch.messages->Some_0;
            let m = msgs[spec_qualifying_index(msgs)->Some_0];
            &&& is_fresh(m, now)
            &&& has_override(store, ch.id)
            &&& m.created.secs > stored_time(store, ch.id).secs
            &&& spec_apply_command(ch.id, msgs, store).1 is None
        }),
    ensures
        ({
            let o = spec_resolve_channel(cfg, ch, store, now);
            &&& o.target == Some(spec_active_category_for(cfg, ch.name))
            &&& cfg.is_active_category(o.target->Some_0)
            &&& !has_override(o.store, ch.id)
            &&& o.changed
        }),
{
    let msgs = ch.messages->Some_0;
    let cmd = spec_apply_command(ch.id, msgs, store);
    assert(cmd.0 == store);
    assert(spec_channel_fresh(msgs, now));
    lemma_entry_secs_remove_self(store, ch.id);
    lemma_active_category_is_active(cfg, ch.name);
}

/// Law: a stale channel is classified inactive whatever the override table
/// holds — staleness dominates every other rule.
pub proof fn lemma_staleness_dominates(
    cfg: ConfigView,
    ch: ChannelView,
    store: Seq<OverrideEntry>,
    now: i64,
)
    requires
        ch.category is Some,
        cfg.is_managed_category(ch.category->Some_0),
        ch.id != cfg.sticky_channel,
        ch.messages is Some,
        !spec_channel_fresh(ch.messages->Some_0, now),
    ensures
        spec_resolve_channel(cfg, ch, store, now).target == Some(cfg.inactive_category),
{
}

/// Law, first half: the sticky channel is never reclassified — its
/// resolution keeps its category and touches nothing.
pub proof fn lemma_sticky_never_reclassified(
    cfg: ConfigView,
    ch: ChannelView,
    store: Seq<OverrideEntry>,
    now: i64,
)
    requires
        ch.id == cfg.sticky_channel,
        ch.category is Some,
        cfg.is_managed_category(ch.category->Some_0),
    ensures
        ({
            let o = spec_resolve_channel(cfg, ch, store, now);
            &&& o.target == ch.category
            &&& o.store == store
            &&& o.deletion is None
            &&& !o.changed
        }),
{
}

/// Law, second half: whatever the targets, the sticky channel's planned
/// position is 0.
pub proof fn lemma_sticky_position_zero(
    cfg: ConfigView,
    chans: Seq<ChannelView>,
    targets: Seq<Option<u64>>,
    i: int,
)
    requires
        0 <= i < chans.len(),
        chans[i].id == cfg.sticky_channel,
    ensures
        spec_planned_position(cfg, chans, targets, i) == 0,
{
}

/// Law: in every pass, the sticky channel (standing in a managed category)
/// keeps its category, its planned position is 0, and any edit the pass
/// emits for it moves it to position 0 of that same category.
pub proof fn lemma_sticky_invariant(
    cfg: ConfigView,
    chans: Seq<ChannelView>,
    store0: Seq<OverrideEntry>,
    now: i64,
    i: int,
)
    requires
        0 <= i < chans.len(),
        chans[i].id == cfg.sticky_channel,
        chans[i].category is Some,
        cfg.is_managed_category(chans[i].category->Some_0),
    ensures
        ({
            let p = spec_run_pass(cfg, chans, store0, now);
            &&& p.targets[i] == chans[i].category
            &&& spec_planned_position(cfg, chans, p.targets, i) == 0
            &&& match spec_edit_for(cfg, chans, p.targets, i) {
                Some(e) => e.channel_id == chans[i].id && e.category == chans[i].category->Some_0
                    && e.position == 0,
                None => true,
            }
        }),
{
    let n = chans.len() as int;
    lemma_resolve_upto_len(cfg, chans, store0, now, n);
    lemma_resolve_upto_index(cfg, chans, store0, now, n, i);
    let held = spec_resolve_upto(cfg, chans, store0, now, i).store;
    lemma_sticky_never_reclassified(cfg, chans[i], held, now);
}

/// The snapshot as the platform shows it after a pass's edits are applied:
/// every managed channel sits in its target category at its planned
/// position; names, ids and histories are untouched.
pub open spec fn spec_after_pass(
    cfg: ConfigView,
    chans: Seq<ChannelView>,
    targets: Seq<Option<u64>>,
) -> Seq<ChannelView> {
    Seq::new(
        chans.len(),
        |i: int|
            match targets[i] {
                None => chans[i],
                Some(cat) => ChannelView {
                    id: chans[i].id,
                    name: chans[i].name,
                    category: Some(cat),
                    position: spec_planned_position(cfg, chans, targets, i) as u64,
                    messages: chans[i].messages,
                },
            },
    )
}

/// The command step mutates at most its own channel's entry.
proof fn lemma_command_frame(c: u64, msgs: Seq<MessageView>, store: Seq<OverrideEntry>)
    requires
        unique_ids(store),
    ensures
        ({
            let s1 = spec_apply_command(c, msgs, store).0;
            &&& unique_ids(s1)
            &&& forall|id: u64| id != c ==> entry_secs(s1, id) == entry_secs(store, id)
        }),
{
    let cmd = spec_apply_command(c, msgs, store);
    if cmd.1 is Some {
        let qi = spec_qualifying_index(msgs)->Some_0;
        let m = msgs[qi];
        lemma_entry_secs_replace(store, c, m.effective());
    }
}

/// Resolving one channel mutates at most that channel's entry and keeps the
/// table well-formed.
proof fn lemma_resolve_frame(
    cfg: ConfigView,
    ch: ChannelView,
    store: Seq<OverrideEntry>,
    now: i64,
)
    requires
        unique_ids(store),
    ensures
        ({
            let o = spec_resolve_channel(cfg, ch, store, now);
            &&& unique_ids(o.store)
            &&& forall|id: u64| id != ch.id ==> entry_secs(o.store, id) == entry_secs(store, id)
        }),
{
    match ch.messages {
        None => {},
        Some(msgs) => {
            lemma_command_frame(ch.id, msgs, store);
            let s1 = spec_apply_command(ch.id, msgs, store).0;
            lemma_entry_secs_remove_self(s1, ch.id);
        },
    }
}

/// The fold keeps the table well-formed.
proof fn lemma_fold_wf(
    cfg: ConfigView,
    chans: Seq<ChannelView>,
    store0: Seq<OverrideEntry>,
    now: i64,
    n: int,
)
    requires
        unique_ids(store0),
        0 <= n <= chans.len(),
    ensures
        unique_ids(spec_resolve_upto(cfg, chans, store0, now, n).store),
    decreases n,
{
    if n > 0 {
        lemma_fold_wf(cfg, chans, store0, now, n - 1);
        lemma_resolve_frame(
            cfg,
            chans[n - 1],
            spec_resolve_upto(cfg, chans, store0, now, n - 1).store,
            now,
        );
    }
}

/// Channels resolved after position `i` never touch the entry of a channel
/// id that none of them carries.
proof fn lemma_fold_preserves_entry(
    cfg: ConfigView,
    chans: Seq<ChannelView>,
    store0: Seq<OverrideEntry>,
    now: i64,
    i: int,
    n: int,
    id: u64,
)
    requires
        unique_ids(store0),
        0 <= i <= n <= chans.len(),
        forall|j: int| i <= j < n ==> (#[trigger] chans[j]).id != id,
    ensures
        entry_secs(spec_resolve_upto(cfg, chans, store0, now, n).store, id) == entry_secs(
            spec_resolve_upto(cfg, chans, store0, now, i).store,
            id,
        ),
    decreases n,
{
    if n > i {
        lemma_fold_preserves_entry(cfg, chans, store0, now, i, n - 1, id);
        lemma_fold_wf(cfg, chans, store0, now, n - 1);
        lemma_resolve_frame(
            cfg,
            chans[n - 1],
            spec_resolve_upto(cfg, chans, store0, now, n - 1).store,
            now,
        );
    }
}

/// The fold's deletion list only grows.
proof fn lemma_fold_deletions_monotone(
    cfg: ConfigView,
    chans: Seq<ChannelView>,
    store0: Seq<OverrideEntry>,
    now: i64,
    m: int,
    n: int,
)
    requires
        0 <= m <= n <= chans.len(),
    ensures
        spec_resolve_upto(cfg, chans, store0, now, n).deletions.len() >= spec_resolve_upto(
            cfg,
            chans,
            store0,
            now,
            m,
        ).deletions.len(),
    decreases n,
{
    if n > m {
        lemma_fold_deletions_monotone(cfg, chans, store0, now, m, n - 1);
    }
}

/// A pass that emits no deletion honoured no archive command anywhere.
proof fn lemma_fold_no_deletion_at(
    cfg: ConfigView,
    chans: Seq<ChannelView>,
    store0: Seq<OverrideEntry>,
    now: i64,
    j: int,
)
    requires
        0 <= j < chans.len(),
        spec_resolve_upto(cfg, chans, store0, now, chans.len() as int).deletions.len() == 0,
    ensures
        spec_resolve_channel(
            cfg,
            chans[j],
            spec_resolve_upto(cfg, chans, store0, now, j).store,
            now,
        ).deletion is None,
{
    lemma_fold_deletions_monotone(cfg, chans, store0, now, j + 1, chans.len() as int);
    let o = spec_resolve_channel(
        cfg,
        chans[j],
        spec_resolve_upto(cfg, chans, store0, now, j).store,
        now,
    );
    if o.deletion is Some {
        assert(spec_resolve_upto(cfg, chans, store0, now, j + 1).deletions.len() > 0);
    }
}

/// Re-resolving a channel against the pass's final table — the channel now
/// sitting in its target category — decides the same target and changes
/// nothing.  `held` is the table the channel was resolved against the first
/// time; `fin` is the table the pass ended with, which agrees with the
/// first resolution's outcome on this channel's entry.
proof fn lemma_resolve_stable(
    cfg: ConfigView,
    ch: ChannelView,
    ch2: ChannelView,
    held: Seq<OverrideEntry>,
    fin: Seq<OverrideEntry>,
    now: i64,
)
    requires
        cfg.wf(),
        unique_ids(held),
        unique_ids(fin),
        ch2.id == ch.id,
        ch2.name == ch.name,
        ch2.messages == ch.messages,
        match ch.messages {
            Some(m) => history_wf(m),
            None => true,
        },
        ({
            let o1 = spec_resolve_channel(cfg, ch, held, now);
            &&& o1.deletion is None
            &&& entry_secs(fin, ch.id) == entry_secs(o1.store, ch.id)
            &&& ch2.category == (match o1.target {
                Some(t) => Some(t),
                None => ch.category,
            })
        }),
    ensures
        ({
            let o1 = spec_resolve_channel(cfg, ch, held, now);
            let o2 = spec_resolve_channel(cfg, ch2, fin, now);
            &&& o2.target == o1.target
            &&& o2.store == fin
            &&& o2.deletion is None
            &&& !o2.changed
        }),
{
    let o1 = spec_resolve_channel(cfg, ch, held, now);
    let c = ch.id;
    match ch.category {
        None => {},
        Some(cur) => {
            if !cfg.is_managed_category(cur) {
            } else if c == cfg.sticky_channel {
            } else {
                match ch.messages {
                    None => {},
                    Some(msgs) => {
                        // The first pass honoured no command, so its command
                        // step left the table alone.
                        let cmd1 = spec_apply_command(c, msgs, held);
                        assert(cmd1.1 is None);
                        assert(cmd1.0 == held);
                        lemma_entry_secs_props(held, c);
                        lemma_entry_secs_props(fin, c);
                        // The second command step does not fire either.
                        let cmd2 = spec_apply_command(c, msgs, fin);
                        match spec_qualifying_index(msgs) {
                            None => {
                                assert(cmd2.1 is None);
                            },
                            Some(qi) => {
                                crate::activity::lemma_qualifying_index_props(msgs);
                                let m = msgs[qi];
                                assert(message_wf(m));
                                if crate::text::is_trigger(m.content)
                                    && m.author_has_capability {
                                    // It did not fire the first time, so the
                                    // stored entry already was this instant.
                                    assert(is_current_entry(held, c, m.effective().secs));
                                    assert(entry_secs(held, c) == Some(m.effective().secs));
                                    if !spec_channel_fresh(msgs, now) {
                                        assert(o1.store == held);
                                        assert(entry_secs(fin, c) == Some(m.effective().secs));
                                    } else {
                                        // Fresh: supersession would need a
                                        // creation instant after the stored
                                        // one, impossible here since the
                                        // stored instant is this message's
                                        // own effective instant.
                                        assert(stored_time(held, c).secs == m.effective().secs);
                                        assert(!(m.created.secs > stored_time(held, c).secs));
                                        assert(o1.store == held);
                                        assert(entry_secs(fin, c) == Some(m.effective().secs));
                                    }
                                    assert(is_current_entry(fin, c, m.effective().secs));
                                    assert(cmd2.1 is None);
                                } else {
                                    assert(cmd2.1 is None);
                                }
                            },
                        }
                        assert(cmd2.0 == fin);
                        // The category decision repeats itself.
                        if !spec_channel_fresh(msgs, now) {
                            assert(o1.target == Some(cfg.inactive_category));
                            assert(ch2.category == Some(cfg.inactive_category));
                        } else {
                            let qi = spec_qualifying_index(msgs)->Some_0;
                            crate::activity::lemma_qualifying_index_props(msgs);
                            let m = msgs[qi];
                            assert(message_wf(m));
                            if has_override(held, c) && m.created.secs > stored_time(
                                held,
                                c,
                            ).secs {
                                // Superseded: the entry went away and stays
                                // away, so both passes pick the active
                                // category.
                                lemma_entry_secs_remove_self(held, c);
                                assert(entry_secs(fin, c) is None);
                                assert(!has_override(fin, c));
                                let t = spec_active_category_for(cfg, ch.name);
                                lemma_active_category_is_active(cfg, ch.name);
                                assert(cfg.is_managed_category(t));
                            } else if has_override(held, c) {
                                // The override stands in both tables with
                                // the same instant.
                                assert(o1.store == held);
                                assert(entry_secs(fin, c) == entry_secs(held, c));
                                assert(has_override(fin, c));
                                assert(stored_time(fin, c).secs == stored_time(held, c).secs);
                                assert(!(m.created.secs > stored_time(fin, c).secs));
                                assert(o1.target == Some(cfg.inactive_category));
                            } else {
                                assert(o1.store == held);
                                assert(entry_secs(fin, c) is None);
                                assert(!has_override(fin, c));
                                let t = spec_active_category_for(cfg, ch.name);
                                lemma_active_category_is_active(cfg, ch.name);
                                assert(cfg.is_managed_category(t));
                            }
                        }
                    },
                }
            }
        },
    }
}

/// Re-running the fold after the pass's edits: every prefix decides the
/// same targets and leaves the final table untouched.
proof fn lemma_second_fold(
    cfg: ConfigView,
    chans: Seq<ChannelView>,
    store0: Seq<OverrideEntry>,
    now: i64,
    n: int,
)
    requires
        cfg.wf(),
        unique_ids(store0),
        snapshot_wf(chans),
        0 <= n <= chans.len(),
        spec_resolve_upto(cfg, chans, store0, now, chans.len() as int).deletions.len() == 0,
    ensures
        ({
            let f1 = spec_resolve_upto(cfg, chans, store0, now, chans.len() as int);
            let chans2 = spec_after_pass(cfg, chans, f1.targets);
            let f2 = spec_resolve_upto(cfg, chans2, f1.store, now, n);
            &&& f2.store == f1.store
            &&& f2.deletions.len() == 0
            &&& !f2.changed
            &&& f2.targets == f1.targets.take(n)
        }),
    decreases n,
{
    let len = chans.len() as int;
    let f1 = spec_resolve_upto(cfg, chans, store0, now, len);
    let chans2 = spec_after_pass(cfg, chans, f1.targets);
    lemma_resolve_upto_len(cfg, chans, store0, now, len);
    if n == 0 {
        assert(spec_resolve_upto(cfg, chans2, f1.store, now, 0).targets =~= f1.targets.take(0));
    } else {
        lemma_second_fold(cfg, chans, store0, now, n - 1);
        let j = n - 1;
        let f1j = spec_resolve_upto(cfg, chans, store0, now, j);
        let o1 = spec_resolve_channel(cfg, chans[j], f1j.store, now);
        lemma_fold_wf(cfg, chans, store0, now, j);
        lemma_fold_wf(cfg, chans, store0, now, len);
        lemma_fold_no_deletion_at(cfg, chans, store0, now, j);
        lemma_resolve_frame(cfg, chans[j], f1j.store, now);
        assert(spec_resolve_upto(cfg, chans, store0, now, j + 1).store == o1.store);
        assert forall|jj: int| j + 1 <= jj < len implies (#[trigger] chans[jj]).id
            != chans[j].id by {
            assert(chans[j].id != chans[jj].id);
        }
        lemma_fold_preserves_entry(cfg, chans, store0, now, j + 1, len, chans[j].id);
        assert(entry_secs(f1.store, chans[j].id) == entry_secs(o1.store, chans[j].id));
        lemma_resolve_upto_index(cfg, chans, store0, now, len, j);
        assert(f1.targets[j] == o1.target);
        let ch2 = chans2[j];
        assert(ch2.id == chans[j].id && ch2.name == chans[j].name && ch2.messages == chans[
            j
        ].messages);
        assert(ch2.category == (match o1.target {
            Some(t) => Some(t),
            None => chans[j].category,
        }));
        lemma_resolve_stable(cfg, chans[j], ch2, f1j.store, f1.store, now);
        let f2p = spec_resolve_upto(cfg, chans2, f1.store, now, j);
        let o2 = spec_resolve_channel(cfg, chans2[j], f2p.store, now);
        let f2 = spec_resolve_upto(cfg, chans2, f1.store, now, n);
        assert(f2.targets =~= f1.targets.take(n));
        assert(f2.deletions =~= f2p.deletions);
    }
}

/// Whether a channel is an earlier peer of another is unchanged by the
/// pass's own edits: ids, names and targets are untouched, and where a name
/// tie falls to the current positions, the planned ranks repeat the order
/// those positions gave (ranks are strictly monotone in the sort key).
proof fn lemma_peer_after(
    cfg: ConfigView,
    chans: Seq<ChannelView>,
    targets: Seq<Option<u64>>,
    i: int,
    k: int,
)
    requires
        chans.len() < 0x1_0000_0000_0000_0000,
        0 <= i < chans.len(),
        0 <= k < chans.len(),
        chans[i].id != cfg.sticky_channel,
    ensures
        is_earlier_peer(cfg, spec_after_pass(cfg, chans, targets), targets, i, k)
            == is_earlier_peer(cfg, chans, targets, i, k),
{
    let chans2 = spec_after_pass(cfg, chans, targets);
    let n = chans.len() as int;
    if chans[k].id == cfg.sticky_channel || targets[k] != targets[i] {
        // Not a peer either way.
    } else if k == i {
        crate::text::lemma_lex_lt_irreflexive(chans[i].name);
    } else if chans[k].name == chans[i].name {
        // The tie case: both sides compare positions, then snapshot order.
        crate::text::lemma_lex_lt_irreflexive(chans[i].name);
        match targets[i] {
            None => {
                // Neither channel was touched, so the keys are identical.
            },
            Some(cat) => {
                // Both now sit at their planned ranks, which repeat the
                // order the old keys gave.
                lemma_count_before_bound(cfg, chans, targets, i, n);
                lemma_count_before_bound(cfg, chans, targets, k, n);
                assert(chans2[i].position == spec_planned_position(
                    cfg,
                    chans,
                    targets,
                    i,
                ) as u64);
                assert(chans2[k].position == spec_planned_position(
                    cfg,
                    chans,
                    targets,
                    k,
                ) as u64);
                if is_earlier_peer(cfg, chans, targets, i, k) {
                    lemma_rank_strictly_monotone(cfg, chans, targets, k, i);
                } else {
                    // With equal names the keys are total, so the other
                    // order holds and the ranks repeat it.
                    assert(is_earlier_peer(cfg, chans, targets, k, i));
                    lemma_rank_strictly_monotone(cfg, chans, targets, i, k);
                }
            },
        }
    } else {
        // Distinct names: the name order alone decides, on both sides.
    }
}

/// Counting earlier peers gives the same tally over two snapshots whose
/// peer relation agrees pointwise.
proof fn lemma_count_pointwise(
    cfg: ConfigView,
    a: Seq<ChannelView>,
    b: Seq<ChannelView>,
    targets: Seq<Option<u64>>,
    i: int,
    upto: int,
)
    requires
        forall|k: int|
            0 <= k < upto ==> is_earlier_peer(cfg, a, targets, i, k) == is_earlier_peer(
                cfg,
                b,
                targets,
                i,
                k,
            ),
    ensures
        spec_count_before(cfg, a, targets, i, upto) == spec_count_before(cfg, b, targets, i, upto),
    decreases upto,
{
    if upto > 0 {
        lemma_count_pointwise(cfg, a, b, targets, i, upto - 1);
    }
}

/// The pass's own edits do not move anything in the plan: every planned
/// position comes out the same when re-planned over the edited snapshot.
proof fn lemma_planned_after(
    cfg: ConfigView,
    chans: Seq<ChannelView>,
    targets: Seq<Option<u64>>,
    i: int,
)
    requires
        chans.len() < 0x1_0000_0000_0000_0000,
        0 <= i < chans.len(),
    ensures
        spec_planned_position(cfg, spec_after_pass(cfg, chans, targets), targets, i)
            == spec_planned_position(cfg, chans, targets, i),
{
    let chans2 = spec_after_pass(cfg, chans, targets);
    let n = chans.len() as int;
    if chans[i].id == cfg.sticky_channel {
        assert(chans2[i].id == cfg.sticky_channel);
    } else {
        assert forall|k: int|
            0 <= k < n implies is_earlier_peer(cfg, chans2, targets, i, k) == is_earlier_peer(
            cfg,
            chans,
            targets,
            i,
            k,
        ) by {
            lemma_peer_after(cfg, chans, targets, i, k);
        }
        lemma_count_pointwise(cfg, chans2, chans, targets, i, n);
        match targets[i] {
            None => {
                lemma_sticky_targeted_same(cfg, chans2, chans, targets, targets[i]->Some_0);
            },
            Some(cat) => {
                lemma_sticky_targeted_same(cfg, chans2, chans, targets, cat);
            },
        }
    }
}

proof fn lemma_sticky_targeted_same(
    cfg: ConfigView,
    a: Seq<ChannelView>,
    b: Seq<ChannelView>,
    targets: Seq<Option<u64>>,
    cat: u64,
)
    requires
        a.len() == b.len(),
        forall|k: int|
            0 <= k < a.len() ==> (#[trigger] a[k]).id == b[k].id && a[k].name == b[k].name,
    ensures
        sticky_targeted(cfg, a, targets, cat) == sticky_targeted(cfg, b, targets, cat),
{
    if sticky_targeted(cfg, a, targets, cat) {
        let j = choose|j: int|
            #![trigger targets[j]]
            0 <= j < a.len() && a[j].id == cfg.sticky_channel && targets[j] == Some(cat);
        assert(b[j].id == cfg.sticky_channel && targets[j] == Some(cat));
    }
    if sticky_targeted(cfg, b, targets, cat) {
        let j = choose|j: int|
            #![trigger targets[j]]
            0 <= j < b.len() && b[j].id == cfg.sticky_channel && targets[j] == Some(cat);
        assert(a[j].id == cfg.sticky_channel && targets[j] == Some(cat));
    }
}

/// With every channel already in place, nothing is emitted.
proof fn lemma_edits_empty(
    cfg: ConfigView,
    chans: Seq<ChannelView>,
    targets: Seq<Option<u64>>,
    n: int,
)
    requires
        n <= chans.len(),
        forall|j: int| 0 <= j < n ==> spec_edit_for(cfg, chans, targets, j) is None,
    ensures
        spec_edits_upto(cfg, chans, targets, n).len() == 0,
    decreases n,
{
    if n > 0 {
        lemma_edits_empty(cfg, chans, targets, n - 1);
    }
}

/// Law: a pass is idempotent.  After a pass that honours no archive command
/// (it orders no deletion), applying its edits and re-running at the same
/// instant with no new messages emits no edit, orders no deletion, and
/// leaves the override table byte-for-byte alone.  (A pass that deletes a
/// trigger message changes the history the next pass reads, so the law is
/// stated for deletion-free passes.)
pub proof fn lemma_pass_idempotent(
    cfg: ConfigView,
    chans: Seq<ChannelView>,
    store0: Seq<OverrideEntry>,
    now: i64,
)
    requires
        cfg.wf(),
        unique_ids(store0),
        snapshot_wf(chans),
        spec_run_pass(cfg, chans, store0, now).deletions.len() == 0,
    ensures
        ({
            let first = spec_run_pass(cfg, chans, store0, now);
            let chans2 = spec_after_pass(cfg, chans, first.targets);
            let second = spec_run_pass(cfg, chans2, first.store, now);
            &&& second.edits.len() == 0
            &&& second.deletions.len() == 0
            &&& !second.changed
            &&& second.store == first.store
        }),
{
    let len = chans.len() as int;
    let f1 = spec_resolve_upto(cfg, chans, store0, now, len);
    let chans2 = spec_after_pass(cfg, chans, f1.targets);
    lemma_resolve_upto_len(cfg, chans, store0, now, len);
    lemma_second_fold(cfg, chans, store0, now, len);
    let f2 = spec_resolve_upto(cfg, chans2, f1.store, now, len);
    assert(f2.targets =~= f1.targets);
    // Every channel already sits where the plan puts it, so no edit comes.
    assert forall|j: int|
        0 <= j < len implies spec_edit_for(cfg, chans2, f2.targets, j) is None by {
        match f2.targets[j] {
            None => {},
            Some(cat) => {
                lemma_planned_after(cfg, chans, f1.targets, j);
                let pos = spec_planned_position(cfg, chans, f1.targets, j);
                lemma_count_before_bound(cfg, chans, f1.targets, j, len);
                assert(0 <= pos < 0x1_0000_0000_0000_0000);
                assert(chans2[j].category == Some(cat));
                assert(chans2[j].position == pos as u64);
                assert(chans2[j].position as int == pos);
            },
        }
    }
    lemma_edits_empty(cfg, chans2, f2.targets, len);
}

} // verus!
