//! The position planner: inside each target category, channels are assigned
//! zero-based indices in ascending name order (ordinal comparison), ties
//! broken by the channel's current position and then by snapshot order, so
//! identically-named channels are never reordered relative to each other
//! across passes.  The sticky channel, when the category holds it, takes
//! index 0 and every other member shifts by one.
//!
//! A member's index is computed directly as the number of its peers that
//! sort before it, so the assignment needs no explicit sort.

use crate::model::{Channel, ChannelView, Config, ConfigView, Edit};
use crate::text::{bytes_eq, bytes_lt, lex_lt};
use vstd::prelude::*;

verus! {

/// The sort key order: name first; ties in name are broken by the channel's
/// current position (so a settled order stays settled across passes) and
/// then by snapshot order.
pub open spec fn key_lt(
    name_a: Seq<u8>,
    pos_a: u64,
    ia: int,
    name_b: Seq<u8>,
    pos_b: u64,
    ib: int,
) -> bool {
    ||| lex_lt(name_a, name_b)
    ||| (name_a == name_b && (pos_a < pos_b || (pos_a == pos_b && ia < ib)))
}

/// The key order is transitive.
pub proof fn lemma_key_lt_transitive(
    name_a: Seq<u8>,
    pos_a: u64,
    ia: int,
    name_b: Seq<u8>,
    pos_b: u64,
    ib: int,
    name_c: Seq<u8>,
    pos_c: u64,
    ic: int,
)
    requires
        key_lt(name_a, pos_a, ia, name_b, pos_b, ib),
        key_lt(name_b, pos_b, ib, name_c, pos_c, ic),
    ensures
        key_lt(name_a, pos_a, ia, name_c, pos_c, ic),
{
    if lex_lt(name_a, name_b) && lex_lt(name_b, name_c) {
        crate::text::lemma_lex_lt_transitive(name_a, name_b, name_c);
    }
}

/// Whether the channel at `j` is a non-sticky member of the same target
/// category as the channel at `i` and sorts strictly before it.
pub open spec fn is_earlier_peer(
    cfg: ConfigView,
    chans: Seq<ChannelView>,
    targets: Seq<Option<u64>>,
    i: int,
    j: int,
) -> bool {
    &&& targets[j] == targets[i]
    &&& chans[j].id != cfg.sticky_channel
    &&& key_lt(chans[j].name, chans[j].position, j, chans[i].name, chans[i].position, i)
}

/// The number of earlier peers of `i` among the first `upto` channels.
pub open spec fn spec_count_before(
    cfg: ConfigView,
    chans: Seq<ChannelView>,
    targets: Seq<Option<u64>>,
    i: int,
    upto: int,
) -> int
    decreases upto,
{
    if upto <= 0 {
        0
    } else {
        spec_count_before(cfg, chans, targets, i, upto - 1) + if is_earlier_peer(
            cfg,
            chans,
            targets,
            i,
            upto - 1,
        ) {
            1int
        } else {
            0int
        }
    }
}

/// Whether the sticky channel's target category is `cat`.
pub open spec fn sticky_targeted(
    cfg: ConfigView,
    chans: Seq<ChannelView>,
    targets: Seq<Option<u64>>,
    cat: u64,
) -> bool {
    exists|j: int|
        #![trigger targets[j]]
        0 <= j < chans.len() && chans[j].id == cfg.sticky_channel && targets[j] == Some(cat)
}

/// The planned index of the channel at `i` within its target category: 0
/// for the sticky channel, otherwise its rank among non-sticky members,
/// shifted by one when the sticky channel shares the category.
pub open spec fn spec_planned_position(
    cfg: ConfigView,
    chans: Seq<ChannelView>,
    targets: Seq<Option<u64>>,
    i: int,
) -> int
    recommends
        0 <= i < chans.len(),
        targets[i] is Some,
{
    if chans[i].id == cfg.sticky_channel {
        0
    } else {
        spec_count_before(cfg, chans, targets, i, chans.len() as int) + if sticky_targeted(
            cfg,
            chans,
            targets,
            targets[i]->Some_0,
        ) {
            1int
        } else {
            0int
        }
    }
}

/// The edit the pass emits for the channel at `i`: the combined
/// category-and-position mutation when either differs from the platform's
/// current state, nothing when the channel is already in place (or is not
/// managed this pass).
pub open spec fn spec_edit_for(
    cfg: ConfigView,
    chans: Seq<ChannelView>,
    targets: Seq<Option<u64>>,
    i: int,
) -> Option<Edit>
    recommends
        0 <= i < chans.len(),
{
    match targets[i] {
        None => None,
        Some(cat) => {
            let pos = spec_planned_position(cfg, chans, targets, i);
            if chans[i].category != Some(cat) || chans[i].position as int != pos {
                Some(Edit { channel_id: chans[i].id, category: cat, position: pos as u64 })
            } else {
                None
            }
        },
    }
}

/// The edits for the first `n` channels, in snapshot order.
pub open spec fn spec_edits_upto(
    cfg: ConfigView,
    chans: Seq<ChannelView>,
    targets: Seq<Option<u64>>,
    n: int,
) -> Seq<Edit>
    decreases n,
{
    if n <= 0 {
        Seq::empty()
    } else {
        spec_edits_upto(cfg, chans, targets, n - 1) + match spec_edit_for(
            cfg,
            chans,
            targets,
            n - 1,
        ) {
            Some(e) => seq![e],
            None => Seq::empty(),
        }
    }
}

/// Every edit the pass emits for this snapshot and these targets.
pub open spec fn spec_plan_edits(
    cfg: ConfigView,
    chans: Seq<ChannelView>,
    targets: Seq<Option<u64>>,
) -> Seq<Edit> {
    spec_edits_upto(cfg, chans, targets, chans.len() as int)
}

/// An earlier-peer count over `upto` channels never reaches `upto`, since a
/// channel is no peer of itself.
pub proof fn lemma_count_before_bound(
    cfg: ConfigView,
    chans: Seq<ChannelView>,
    targets: Seq<Option<u64>>,
    i: int,
    upto: int,
)
    ensures
        0 <= spec_count_before(cfg, chans, targets, i, upto),
        upto >= 0 ==> spec_count_before(cfg, chans, targets, i, upto) <= upto,
        0 <= i < upto ==> spec_count_before(cfg, chans, targets, i, upto) < upto,
    decreases upto,
{
    if upto > 0 {
        lemma_count_before_bound(cfg, chans, targets, i, upto - 1);
        crate::text::lemma_lex_lt_irreflexive(chans[i].name);
        assert(!is_earlier_peer(cfg, chans, targets, i, i));
    }
}

/// A channel whose earlier peers are all earlier peers of another counts no
/// more of them.
proof fn lemma_count_le(
    cfg: ConfigView,
    chans: Seq<ChannelView>,
    targets: Seq<Option<u64>>,
    j: int,
    i: int,
    upto: int,
)
    requires
        forall|k: int|
            0 <= k < upto ==> (is_earlier_peer(cfg, chans, targets, j, k) ==> is_earlier_peer(
                cfg,
                chans,
                targets,
                i,
                k,
            )),
    ensures
        spec_count_before(cfg, chans, targets, j, upto) <= spec_count_before(
            cfg,
            chans,
            targets,
            i,
            upto,
        ),
    decreases upto,
{
    if upto > 0 {
        lemma_count_le(cfg, chans, targets, j, i, upto - 1);
    }
}

/// ... and strictly fewer when some channel is an earlier peer of the second
/// alone.
proof fn lemma_count_lt(
    cfg: ConfigView,
    chans: Seq<ChannelView>,
    targets: Seq<Option<u64>>,
    j: int,
    i: int,
    upto: int,
    m: int,
)
    requires
        forall|k: int|
            0 <= k < upto ==> (is_earlier_peer(cfg, chans, targets, j, k) ==> is_earlier_peer(
                cfg,
                chans,
                targets,
                i,
                k,
            )),
        0 <= m < upto,
        !is_earlier_peer(cfg, chans, targets, j, m),
        is_earlier_peer(cfg, chans, targets, i, m),
    ensures
        spec_count_before(cfg, chans, targets, j, upto) < spec_count_before(
            cfg,
            chans,
            targets,
            i,
            upto,
        ),
    decreases upto,
{
    if m == upto - 1 {
        lemma_count_le(cfg, chans, targets, j, i, upto - 1);
    } else {
        lemma_count_lt(cfg, chans, targets, j, i, upto - 1, m);
    }
}

/// Ranks respect the sort order: of two non-sticky members of one category,
/// the one that sorts earlier is planned strictly closer to the front.  In
/// particular members get pairwise distinct indices.
pub proof fn lemma_rank_strictly_monotone(
    cfg: ConfigView,
    chans: Seq<ChannelView>,
    targets: Seq<Option<u64>>,
    j: int,
    i: int,
)
    requires
        0 <= j < chans.len(),
        0 <= i < chans.len(),
        chans[i].id != cfg.sticky_channel,
        targets[i] is Some,
        is_earlier_peer(cfg, chans, targets, i, j),
    ensures
        spec_planned_position(cfg, chans, targets, j) < spec_planned_position(
            cfg,
            chans,
            targets,
            i,
        ),
{
    let n = chans.len() as int;
    assert forall|k: int|
        0 <= k < n && is_earlier_peer(cfg, chans, targets, j, k) implies is_earlier_peer(
        cfg,
        chans,
        targets,
        i,
        k,
    ) by {
        lemma_key_lt_transitive(
            chans[k].name,
            chans[k].position,
            k,
            chans[j].name,
            chans[j].position,
            j,
            chans[i].name,
            chans[i].position,
            i,
        );
    }
    crate::text::lemma_lex_lt_irreflexive(chans[j].name);
    assert(!is_earlier_peer(cfg, chans, targets, j, j));
    lemma_count_lt(cfg, chans, targets, j, i, n, j);
    assert(targets[j] == targets[i]);
}

/// Exec counterpart of `is_earlier_peer`.
fn earlier_peer(
    cfg: &Config,
    chans: &Vec<Channel>,
    targets: &Vec<Option<u64>>,
    i: usize,
    j: usize,
) -> (r: bool)
    requires
        chans@.len() == targets@.len(),
        i < chans@.len(),
        j < chans@.len(),
    ensures
        r == is_earlier_peer(cfg.deep_view(), chans.deep_view(), targets@, i as int, j as int),
{
    proof {
        assert(chans.deep_view()[i as int] == chans@[i as int].deep_view());
        assert(chans.deep_view()[j as int] == chans@[j as int].deep_view());
        assert(chans@[i as int].name.deep_view() =~= chans@[i as int].name@);
        assert(chans@[j as int].name.deep_view() =~= chans@[j as int].name@);
    }
    let same_target = match (targets[j], targets[i]) {
        (Some(a), Some(b)) => a == b,
        (None, None) => true,
        _ => false,
    };
    if !same_target {
        return false;
    }
    if chans[j].id == cfg.sticky_channel {
        return false;
    }
    if bytes_lt(&chans[j].name, &chans[i].name) {
        return true;
    }
    if !bytes_eq(&chans[j].name, &chans[i].name) {
        return false;
    }
    if chans[j].position != chans[i].position {
        return chans[j].position < chans[i].position;
    }
    j < i
}

/// The planned index of channel `i` within its target category.
pub fn planned_position(
    cfg: &Config,
    chans: &Vec<Channel>,
    targets: &Vec<Option<u64>>,
    i: usize,
    cat: u64,
) -> (pos: usize)
    requires
        chans@.len() == targets@.len(),
        i < chans@.len(),
        targets@[i as int] == Some(cat),
    ensures
        pos == spec_planned_position(cfg.deep_view(), chans.deep_view(), targets@, i as int),
        pos <= chans@.len(),
{
    let n = chans.len();
    proof {
        assert(chans.deep_view()[i as int] == chans@[i as int].deep_view());
    }
    if chans[i].id == cfg.sticky_channel {
        return 0;
    }
    let mut count: usize = 0;
    let mut j: usize = 0;
    while j < n
        invariant
            0 <= j <= n,
            n == chans@.len(),
            chans@.len() == targets@.len(),
            i < n,
            count == spec_count_before(
                cfg.deep_view(),
                chans.deep_view(),
                targets@,
                i as int,
                j as int,
            ),
            count <= j,
        decreases n - j,
    {
        if earlier_peer(cfg, chans, targets, i, j) {
            count = count + 1;
        }
        j = j + 1;
    }
    proof {
        lemma_count_before_bound(
            cfg.deep_view(),
            chans.deep_view(),
            targets@,
            i as int,
            n as int,
        );
    }
    // Shift by one when the sticky channel shares the target category.
    let mut k: usize = 0;
    let mut sticky_here = false;
    while k < n
        invariant
            0 <= k <= n,
            n == chans@.len(),
            chans@.len() == targets@.len(),
            sticky_here == exists|j: int|
                #![trigger targets@[j]]
                0 <= j < k && chans.deep_view()[j].id == cfg.deep_view().sticky_channel
                    && targets@[j] == Some(cat),
        decreases n - k,
    {
        proof {
            assert(chans.deep_view()[k as int] == chans@[k as int].deep_view());
        }
        let t_matches = match targets[k] {
            Some(c) => c == cat,
            None => false,
        };
        if chans[k].id == cfg.sticky_channel && t_matches {
            sticky_here = true;
            proof {
                assert(chans.deep_view()[k as int].id == cfg.deep_view().sticky_channel
                    && targets@[k as int] == Some(cat));
            }
        }
        k = k + 1;
    }
    proof {
        assert(sticky_here == sticky_targeted(cfg.deep_view(), chans.deep_view(), targets@, cat));
    }
    if sticky_here {
        count + 1
    } else {
        count
    }
}

/// The edit for channel `i`, if its current category or position differs
/// from the plan.
pub fn edit_for(
    cfg: &Config,
    chans: &Vec<Channel>,
    targets: &Vec<Option<u64>>,
    i: usize,
) -> (r: Option<Edit>)
    requires
        chans@.len() == targets@.len(),
        i < chans@.len(),
    ensures
        r == spec_edit_for(cfg.deep_view(), chans.deep_view(), targets@, i as int),
{
    let cat = match targets[i] {
        None => {
            return None;
        },
        Some(c) => c,
    };
    let pos = planned_position(cfg, chans, targets, i, cat);
    proof {
        assert(chans.deep_view()[i as int] == chans@[i as int].deep_view());
    }
    let cur_matches = match chans[i].category {
        Some(c) => c == cat,
        None => false,
    };
    if !cur_matches || chans[i].position != pos as u64 {
        Some(Edit { channel_id: chans[i].id, category: cat, position: pos as u64 })
    } else {
        None
    }
}

/// All edits for the snapshot, given each channel's target category.
pub fn plan_edits(cfg: &Config, chans: &Vec<Channel>, targets: &Vec<Option<u64>>) -> (r: Vec<
    Edit,
>)
    requires
        chans@.len() == targets@.len(),
    ensures
        r@ == spec_plan_edits(cfg.deep_view(), chans.deep_view(), targets@),
{
    let n = chans.len();
    let mut out: Vec<Edit> = Vec::new();
    let mut i: usize = 0;
    while i < n
        invariant
            0 <= i <= n,
            n == chans@.len(),
            chans@.len() == targets@.len(),
            out@ == spec_edits_upto(cfg.deep_view(), chans.deep_view(), targets@, i as int),
        decreases n - i,
    {
        match edit_for(cfg, chans, targets, i) {
            Some(e) => {
                out.push(e);
                proof {
                    assert(out@ =~= spec_edits_upto(
                        cfg.deep_view(),
                        chans.deep_view(),
                        targets@,
                        i as int + 1,
                    ));
                }
            },
            None => {
                proof {
                    assert(out@ =~= spec_edits_upto(
                        cfg.deep_view(),
                        chans.deep_view(),
                        targets@,
                        i as int + 1,
                    ));
                }
            },
        }
        i = i + 1;
    }
    out
}

} // verus!
