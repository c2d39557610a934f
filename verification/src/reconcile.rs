//! The reconciliation driver: one pass over a snapshot of the guild.  Each
//! managed channel is resolved in snapshot order (mutating the override
//! table), every channel is then assigned its planned position, and the pass
//! returns the minimal set of combined category-and-position edits, the
//! trigger messages to delete, and whether the override table must be
//! persisted.
//!
//! The caller fetches the snapshot, holds the table's mutation lock for the
//! whole pass, applies the returned mutations, and persists the table.

use crate::model::{Channel, ChannelView, Config, ConfigView, Deletion, Edit};
use crate::plan::{plan_edits, spec_plan_edits};
use crate::resolve::{resolve_channel, spec_resolve_channel};
use crate::store::{OverrideEntry, OverrideStore};
use vstd::prelude::*;

verus! {

/// The state of the resolution fold after some prefix of the snapshot: each
/// resolved channel's target, the override table so far, the deletions so
/// far, and whether the table has changed.
#[verifier::ext_equal]
pub ghost struct ResolveFold {
    pub targets: Seq<Option<u64>>,
    pub store: Seq<OverrideEntry>,
    pub deletions: Seq<Deletion>,
    pub changed: bool,
}

/// Resolving the first `n` channels in snapshot order, threading the
/// override table through.
pub open spec fn spec_resolve_upto(
    cfg: ConfigView,
    chans: Seq<ChannelView>,
    store0: Seq<OverrideEntry>,
    now: i64,
    n: int,
) -> ResolveFold
    decreases n,
{
    if n <= 0 {
        ResolveFold {
            targets: Seq::empty(),
            store: store0,
            deletions: Seq::empty(),
            changed: false,
        }
    } else {
        let prev = spec_resolve_upto(cfg, chans, store0, now, n - 1);
        let o = spec_resolve_channel(cfg, chans[n - 1], prev.store, now);
        ResolveFold {
            targets: prev.targets.push(o.target),
            store: o.store,
            deletions: prev.deletions + match o.deletion {
                Some(d) => seq![d],
                None => Seq::empty(),
            },
            changed: prev.changed || o.changed,
        }
    }
}

/// The resolution fold over the whole snapshot.
pub open spec fn spec_resolve_all(
    cfg: ConfigView,
    chans: Seq<ChannelView>,
    store0: Seq<OverrideEntry>,
    now: i64,
) -> ResolveFold {
    spec_resolve_upto(cfg, chans, store0, now, chans.len() as int)
}

/// The fold records one target per resolved channel.
pub proof fn lemma_resolve_upto_len(
    cfg: ConfigView,
    chans: Seq<ChannelView>,
    store0: Seq<OverrideEntry>,
    now: i64,
    n: int,
)
    requires
        0 <= n <= chans.len(),
    ensures
        spec_resolve_upto(cfg, chans, store0, now, n).targets.len() == n,
    decreases n,
{
    if n > 0 {
        lemma_resolve_upto_len(cfg, chans, store0, now, n - 1);
    }
}

/// A channel's recorded target is its resolution against the table as it
/// stood when the fold reached it.
pub proof fn lemma_resolve_upto_index(
    cfg: ConfigView,
    chans: Seq<ChannelView>,
    store0: Seq<OverrideEntry>,
    now: i64,
    n: int,
    j: int,
)
    requires
        0 <= j < n <= chans.len(),
    ensures
        spec_resolve_upto(cfg, chans, store0, now, n).targets[j] == spec_resolve_channel(
            cfg,
            chans[j],
            spec_resolve_upto(cfg, chans, store0, now, j).store,
            now,
        ).target,
    decreases n,
{
    lemma_resolve_upto_len(cfg, chans, store0, now, n - 1);
    if j < n - 1 {
        lemma_resolve_upto_index(cfg, chans, store0, now, n - 1, j);
    }
}

/// Everything one pass decides.
#[verifier::ext_equal]
pub ghost struct PassView {
    pub targets: Seq<Option<u64>>,
    pub edits: Seq<Edit>,
    pub deletions: Seq<Deletion>,
    pub store: Seq<OverrideEntry>,
    pub changed: bool,
}

/// One whole pass: resolve every channel, then plan positions against the
/// resulting targets and diff them against the snapshot.
pub open spec fn spec_run_pass(
    cfg: ConfigView,
    chans: Seq<ChannelView>,
    store0: Seq<OverrideEntry>,
    now: i64,
) -> PassView {
    let f = spec_resolve_all(cfg, chans, store0, now);
    PassView {
        targets: f.targets,
        edits: spec_plan_edits(cfg, chans, f.targets),
        deletions: f.deletions,
        store: f.store,
        changed: f.changed,
    }
}

/// The mutations one pass asks the platform to perform, and whether the
/// override table must be persisted afterwards.
pub struct PassOutcome {
    pub edits: Vec<Edit>,
    pub deletions: Vec<Deletion>,
    pub store_changed: bool,
}

/// Runs one reconciliation pass at time `now` over a snapshot of the guild's
/// channels, mutating the override table in place.
pub fn run_pass(
    cfg: &Config,
    snapshot: &Vec<Channel>,
    store: &mut OverrideStore,
    now: i64,
) -> (out: PassOutcome)
    requires
        cfg.deep_view().wf(),
        old(store).wf(),
    ensures
        final(store).wf(),
        ({
            let p = spec_run_pass(cfg.deep_view(), snapshot.deep_view(), old(store)@, now);
            final(store)@ == p.store && out.edits@ == p.edits && out.deletions@ == p.deletions
                && out.store_changed == p.changed
        }),
{
    let n = snapshot.len();
    let mut targets: Vec<Option<u64>> = Vec::new();
    let mut deletions: Vec<Deletion> = Vec::new();
    let mut changed = false;
    let mut i: usize = 0;
    while i < n
        invariant
            0 <= i <= n,
            n == snapshot@.len(),
            targets@.len() == i,
            cfg.deep_view().wf(),
            store.wf(),
            ({
                let f = spec_resolve_upto(
                    cfg.deep_view(),
                    snapshot.deep_view(),
                    old(store)@,
                    now,
                    i as int,
                );
                targets@ == f.targets && store@ == f.store && deletions@ == f.deletions
                    && changed == f.changed
            }),
        decreases n - i,
    {
        proof {
            assert(snapshot.deep_view()[i as int] == snapshot@[i as int].deep_view());
        }
        let ghost store_before = store@;
        let (target, deletion, ch_changed) = resolve_channel(cfg, &snapshot[i], store, now);
        targets.push(target);
        if let Some(d) = deletion {
            deletions.push(d);
        }
        if ch_changed {
            changed = true;
        }
        proof {
            let f_prev = spec_resolve_upto(
                cfg.deep_view(),
                snapshot.deep_view(),
                old(store)@,
                now,
                i as int,
            );
            let o = spec_resolve_channel(
                cfg.deep_view(),
                snapshot.deep_view()[i as int],
                f_prev.store,
                now,
            );
            let f = spec_resolve_upto(
                cfg.deep_view(),
                snapshot.deep_view(),
                old(store)@,
                now,
                i as int + 1,
            );
            assert(f.targets == f_prev.targets.push(o.target));
            match o.deletion {
                Some(d) => {
                    assert(deletions@ =~= f.deletions);
                },
                None => {
                    assert(deletions@ =~= f.deletions);
                },
            }
        }
        i = i + 1;
    }
    proof {
        assert(snapshot.deep_view().len() == n as int);
    }
    let edits = plan_edits(cfg, snapshot, &targets);
    PassOutcome { edits, deletions, store_changed: changed }
}

/// Relies on std::time::SystemTime::now for the system clock reading, taken
/// as signed seconds since the Unix epoch; nothing is assumed about the
/// value.  The read cannot unwind: a clock before the epoch comes back as
/// the negated distance to it, and one outside the signed-seconds range is
/// clamped.
#[verifier::external_body]
fn current_unix_seconds() -> (t: i64) {
    match std::time::SystemTime::now().duration_since(std::time::UNIX_EPOCH) {
        Ok(since) => i64::try_from(since.as_secs()).unwrap_or(i64::MAX),
        Err(before) => i64::try_from(before.duration().as_secs()).map_or(i64::MIN, |s| -s),
    }
}

/// Runs one pass at the current wall-clock time.  The sampled time is
/// returned with the outcome, which equals the pass run at exactly that
/// time.
pub fn run_pass_at_current_time(
    cfg: &Config,
    snapshot: &Vec<Channel>,
    store: &mut OverrideStore,
) -> (r: (i64, PassOutcome))
    requires
        cfg.deep_view().wf(),
        old(store).wf(),
    ensures
        final(store).wf(),
        ({
            let p = spec_run_pass(cfg.deep_view(), snapshot.deep_view(), old(store)@, r.0);
            final(store)@ == p.store && r.1.edits@ == p.edits && r.1.deletions@ == p.deletions
                && r.1.store_changed == p.changed
        }),
{
    let now = current_unix_seconds();
    let out = run_pass(cfg, snapshot, store, now);
    (now, out)
}

} // verus!
