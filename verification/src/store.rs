//! The override store: the in-memory table of moderator-issued archive
//! overrides, at most one entry per channel.  Mutations follow replace
//! semantics: recording an override for a channel first drops any entry that
//! channel already has.

use crate::model::Timestamp;
use vstd::prelude::*;

verus! {

/// One override record: the instant a moderator command was honoured for a
/// channel.
#[derive(Clone, Copy, PartialEq, Eq, Structural, Debug)]
pub struct OverrideEntry {
    pub channel_id: u64,
    pub time: Timestamp,
}

impl DeepView for OverrideEntry {
    type V = OverrideEntry;

    open spec fn deep_view(&self) -> OverrideEntry {
        *self
    }
}

/// No two entries name the same channel.
pub open spec fn unique_ids(s: Seq<OverrideEntry>) -> bool {
    forall|i: int, j: int|
        0 <= i < j < s.len() ==> s[i].channel_id != s[j].channel_id
}

/// Whether some entry names `id`.
pub open spec fn has_override(s: Seq<OverrideEntry>, id: u64) -> bool {
    exists|i: int| 0 <= i < s.len() && s[i].channel_id == id
}

/// The instant stored for `id`; meaningful when an entry for `id` exists and
/// ids are unique.
pub open spec fn stored_time(s: Seq<OverrideEntry>, id: u64) -> Timestamp
    recommends
        has_override(s, id),
{
    s[choose|i: int| 0 <= i < s.len() && s[i].channel_id == id].time
}

/// Whether the stored entry for `id` denotes the instant `secs`.  Two
/// timestamps are the same instant when their seconds agree; the UTC offset
/// does not distinguish entries.
pub open spec fn is_current_entry(s: Seq<OverrideEntry>, id: u64, secs: i64) -> bool {
    exists|i: int| 0 <= i < s.len() && s[i].channel_id == id && s[i].time.secs == secs
}

/// `s` with every entry for `id` removed, other entries kept in order.
pub open spec fn remove_id(s: Seq<OverrideEntry>, id: u64) -> Seq<OverrideEntry>
    decreases s.len(),
{
    if s.len() == 0 {
        Seq::empty()
    } else if s.last().channel_id == id {
        remove_id(s.drop_last(), id)
    } else {
        remove_id(s.drop_last(), id).push(s.last())
    }
}

pub proof fn lemma_remove_id(s: Seq<OverrideEntry>, id: u64)
    ensures
        forall|k: int|
            0 <= k < remove_id(s, id).len() ==> remove_id(s, id)[k].channel_id != id,
        forall|e: OverrideEntry|
            #[trigger] remove_id(s, id).contains(e) <==> (s.contains(e) && e.channel_id != id),
        remove_id(s, id).len() <= s.len(),
        unique_ids(s) ==> unique_ids(remove_id(s, id)),
        !has_override(s, id) ==> remove_id(s, id) == s,
    decreases s.len(),
{
    if s.len() > 0 {
        lemma_remove_id(s.drop_last(), id);
        let r = remove_id(s, id);
        let rp = remove_id(s.drop_last(), id);
        assert forall|e: OverrideEntry| #[trigger] r.contains(e) implies s.contains(e)
            && e.channel_id != id by {
            if s.last().channel_id != id && e == s.last() {
                assert(s[s.len() - 1] == e);
            } else {
                assert(rp.contains(e));
                let k = choose|k: int| 0 <= k < rp.len() && rp[k] == e;
                assert(s.drop_last().contains(e));
                let m = choose|m: int| 0 <= m < s.drop_last().len() && s.drop_last()[m] == e;
                assert(s[m] == e);
            }
        }
        assert forall|e: OverrideEntry|
            s.contains(e) && e.channel_id != id implies #[trigger] r.contains(e) by {
            let m = choose|m: int| 0 <= m < s.len() && s[m] == e;
            if m < s.len() - 1 {
                assert(s.drop_last()[m] == e);
                assert(s.drop_last().contains(e));
                assert(rp.contains(e));
                let k = choose|k: int| 0 <= k < rp.len() && rp[k] == e;
                if s.last().channel_id == id {
                    assert(r[k] == e);
                } else {
                    assert(r[k] == e);
                }
            } else {
                assert(e == s.last());
                assert(r[r.len() - 1] == e);
            }
        }
        if unique_ids(s) {
            assert(unique_ids(s.drop_last())) by {
                assert forall|i: int, j: int|
                    0 <= i < j < s.drop_last().len() implies s.drop_last()[i].channel_id
                    != s.drop_last()[j].channel_id by {
                    assert(s[i] == s.drop_last()[i]);
                    assert(s[j] == s.drop_last()[j]);
                }
            }
            if s.last().channel_id != id {
                assert forall|i: int, j: int|
                    0 <= i < j < r.len() implies r[i].channel_id != r[j].channel_id by {
                    if j < r.len() - 1 {
                        assert(rp[i] == r[i] && rp[j] == r[j]);
                    } else {
                        assert(r[j] == s.last());
                        assert(rp.contains(rp[i]));
                        assert(s.drop_last().contains(r[i]));
                        let m = choose|m: int|
                            0 <= m < s.drop_last().len() && s.drop_last()[m] == r[i];
                        assert(s[m] == r[i]);
                        assert(s[m].channel_id != s[s.len() - 1].channel_id);
                    }
                }
            }
        }
        if !has_override(s, id) {
            assert(!has_override(s.drop_last(), id)) by {
                if has_override(s.drop_last(), id) {
                    let k = choose|k: int|
                        0 <= k < s.drop_last().len() && s.drop_last()[k].channel_id == id;
                    assert(s[k].channel_id == id);
                }
            }
            assert(s.last().channel_id != id) by {
                if s.last().channel_id == id {
                    assert(s[s.len() - 1].channel_id == id);
                }
            }
            assert(r =~= s);
        }
    }
}

/// With unique ids, the stored instant for `id` is the one at any index that
/// names `id`.
pub proof fn lemma_stored_time_is(s: Seq<OverrideEntry>, id: u64, i: int)
    requires
        unique_ids(s),
        0 <= i < s.len(),
        s[i].channel_id == id,
    ensures
        has_override(s, id),
        stored_time(s, id) == s[i].time,
{
    assert(has_override(s, id));
    let j = choose|j: int| 0 <= j < s.len() && s[j].channel_id == id;
    if i != j {
        if i < j {
            assert(s[i].channel_id != s[j].channel_id);
        } else {
            assert(s[j].channel_id != s[i].channel_id);
        }
    }
}

/// The instant (in seconds) stored for `id`, or `None` without an entry:
/// everything the classification of a channel reads from the table.
pub open spec fn entry_secs(s: Seq<OverrideEntry>, id: u64) -> Option<i64> {
    if has_override(s, id) {
        Some(stored_time(s, id).secs)
    } else {
        None
    }
}

/// With unique ids, the current-entry test is exactly a test on
/// `entry_secs`.
pub proof fn lemma_entry_secs_props(s: Seq<OverrideEntry>, id: u64)
    requires
        unique_ids(s),
    ensures
        forall|secs: i64| is_current_entry(s, id, secs) == (entry_secs(s, id) == Some(secs)),
{
    assert forall|secs: i64|
        is_current_entry(s, id, secs) == (entry_secs(s, id) == Some(secs)) by {
        if is_current_entry(s, id, secs) {
            let k = choose|k: int|
                0 <= k < s.len() && s[k].channel_id == id && s[k].time.secs == secs;
            lemma_stored_time_is(s, id, k);
        }
        if entry_secs(s, id) == Some(secs) {
            let k = choose|k: int| 0 <= k < s.len() && s[k].channel_id == id;
            lemma_stored_time_is(s, id, k);
            assert(s[k].time.secs == secs);
        }
    }
}

/// Removing one channel's entry does not disturb what is stored for any
/// other channel.
pub proof fn lemma_entry_secs_remove(s: Seq<OverrideEntry>, c: u64, id: u64)
    requires
        unique_ids(s),
        id != c,
    ensures
        entry_secs(remove_id(s, c), id) == entry_secs(s, id),
{
    lemma_remove_id(s, c);
    let r = remove_id(s, c);
    if has_override(r, id) {
        let k = choose|k: int| 0 <= k < r.len() && r[k].channel_id == id;
        assert(r.contains(r[k]));
        assert(s.contains(r[k]));
        let m = choose|m: int| 0 <= m < s.len() && s[m] == r[k];
        lemma_stored_time_is(s, id, m);
        lemma_stored_time_is(r, id, k);
    }
    if has_override(s, id) {
        let m = choose|m: int| 0 <= m < s.len() && s[m].channel_id == id;
        assert(s.contains(s[m]));
        assert(r.contains(s[m]));
        let k = choose|k: int| 0 <= k < r.len() && r[k] == s[m];
        lemma_stored_time_is(s, id, m);
        lemma_stored_time_is(r, id, k);
    }
}

/// Replace semantics, observed through `entry_secs`: the channel ends with
/// exactly the new instant and every other channel is untouched.
pub proof fn lemma_entry_secs_replace(s: Seq<OverrideEntry>, c: u64, t: Timestamp)
    requires
        unique_ids(s),
    ensures
        ({
            let r = remove_id(s, c).push(OverrideEntry { channel_id: c, time: t });
            &&& unique_ids(r)
            &&& entry_secs(r, c) == Some(t.secs)
            &&& forall|id: u64| id != c ==> entry_secs(r, id) == entry_secs(s, id)
        }),
{
    lemma_remove_id(s, c);
    let base = remove_id(s, c);
    let e = OverrideEntry { channel_id: c, time: t };
    let r = base.push(e);
    assert forall|i: int, j: int|
        0 <= i < j < r.len() implies r[i].channel_id != r[j].channel_id by {
        if j < r.len() - 1 {
            assert(r[i] == base[i] && r[j] == base[j]);
        } else {
            assert(r[i] == base[i]);
        }
    }
    assert(r[r.len() - 1].channel_id == c);
    lemma_stored_time_is(r, c, r.len() - 1);
    assert forall|id: u64| id != c implies entry_secs(r, id) == entry_secs(s, id) by {
        lemma_entry_secs_remove(s, c, id);
        if has_override(r, id) {
            let k = choose|k: int| 0 <= k < r.len() && r[k].channel_id == id;
            assert(k < r.len() - 1);
            assert(base[k].channel_id == id);
            lemma_stored_time_is(base, id, k);
            lemma_stored_time_is(r, id, k);
        }
        if has_override(base, id) {
            let k = choose|k: int| 0 <= k < base.len() && base[k].channel_id == id;
            assert(r[k].channel_id == id);
            lemma_stored_time_is(base, id, k);
            lemma_stored_time_is(r, id, k);
        }
    }
}

/// Removal, observed through `entry_secs`: the channel ends without an
/// entry and every other channel is untouched.
pub proof fn lemma_entry_secs_remove_self(s: Seq<OverrideEntry>, c: u64)
    requires
        unique_ids(s),
    ensures
        unique_ids(remove_id(s, c)),
        entry_secs(remove_id(s, c), c) is None,
        forall|id: u64| id != c ==> entry_secs(remove_id(s, c), id) == entry_secs(s, id),
{
    lemma_remove_id(s, c);
    if has_override(remove_id(s, c), c) {
        let k = choose|k: int|
            0 <= k < remove_id(s, c).len() && remove_id(s, c)[k].channel_id == c;
    }
    assert forall|id: u64| id != c implies entry_secs(remove_id(s, c), id) == entry_secs(
        s,
        id,
    ) by {
        lemma_entry_secs_remove(s, c, id);
    }
}

/// The durable override table.  Its view is the entry sequence in file
/// order; a well-formed store has at most one entry per channel.
pub struct OverrideStore {
    entries: Vec<OverrideEntry>,
}

impl View for OverrideStore {
    type V = Seq<OverrideEntry>;

    closed spec fn view(&self) -> Seq<OverrideEntry> {
        self.entries@
    }
}

impl OverrideStore {
    pub open spec fn wf(self) -> bool {
        unique_ids(self@)
    }

    /// An empty store: what a fresh process starts from when no usable
    /// persisted file exists.
    pub fn new() -> (r: Self)
        ensures
            r@ == Seq::<OverrideEntry>::empty(),
            r.wf(),
    {
        OverrideStore { entries: Vec::new() }
    }

    /// Builds a store directly from entries already known to have unique
    /// channel ids.
    pub fn from_entries(entries: Vec<OverrideEntry>) -> (r: Self)
        requires
            unique_ids(entries@),
        ensures
            r@ == entries@,
            r.wf(),
    {
        OverrideStore { entries }
    }

    pub fn len(&self) -> (n: usize)
        ensures
            n == self@.len(),
    {
        self.entries.len()
    }

    /// The entries in file order, for encoding and inspection.
    pub fn entries(&self) -> (r: &Vec<OverrideEntry>)
        ensures
            r@ == self@,
    {
        &self.entries
    }

    /// Whether `entry` is in the table, any field differing counting as
    /// absent.
    pub fn contains(&self, entry: &OverrideEntry) -> (r: bool)
        ensures
            r == self@.contains(*entry),
    {
        let n = self.entries.len();
        let mut i: usize = 0;
        while i < n
            invariant
                0 <= i <= n,
                n == self@.len(),
                self@ == self.entries@,
                forall|j: int| 0 <= j < i ==> self@[j] != *entry,
            decreases n - i,
        {
            if self.entries[i].channel_id == entry.channel_id
                && self.entries[i].time.secs == entry.time.secs
                && self.entries[i].time.utc_offset_secs == entry.time.utc_offset_secs {
                assert(self@[i as int] == *entry);
                return true;
            }
            i = i + 1;
        }
        false
    }

    /// Whether the table's entry for `channel_id` denotes the instant
    /// `secs`: the test that makes a repeated identical archive command a
    /// no-op.
    pub fn contains_instant(&self, channel_id: u64, secs: i64) -> (r: bool)
        ensures
            r == is_current_entry(self@, channel_id, secs),
    {
        let n = self.entries.len();
        let mut i: usize = 0;
        while i < n
            invariant
                0 <= i <= n,
                n == self@.len(),
                self@ == self.entries@,
                forall|j: int|
                    0 <= j < i ==> !(self@[j].channel_id == channel_id && self@[j].time.secs
                        == secs),
            decreases n - i,
        {
            if self.entries[i].channel_id == channel_id && self.entries[i].time.secs == secs {
                return true;
            }
            i = i + 1;
        }
        false
    }

    /// The index of the entry for `channel_id`, if one exists (the first, in
    /// file order).
    pub fn position_of(&self, channel_id: u64) -> (r: Option<usize>)
        ensures
            match r {
                Some(i) => i < self@.len() && self@[i as int].channel_id == channel_id
                    && forall|j: int| 0 <= j < i ==> self@[j].channel_id != channel_id,
                None => !has_override(self@, channel_id),
            },
    {
        let n = self.entries.len();
        let mut i: usize = 0;
        while i < n
            invariant
                0 <= i <= n,
                n == self@.len(),
                self@ == self.entries@,
                forall|j: int| 0 <= j < i ==> self@[j].channel_id != channel_id,
            decreases n - i,
        {
            if self.entries[i].channel_id == channel_id {
                return Some(i);
            }
            i = i + 1;
        }
        None
    }

    /// The stored instant for `channel_id`, if any.
    pub fn lookup(&self, channel_id: u64) -> (r: Option<Timestamp>)
        requires
            self.wf(),
        ensures
            match r {
                Some(t) => has_override(self@, channel_id) && stored_time(self@, channel_id)
                    == t,
                None => !has_override(self@, channel_id),
            },
    {
        match self.position_of(channel_id) {
            Some(i) => {
                proof {
                    lemma_stored_time_is(self@, channel_id, i as int);
                }
                Some(self.entries[i].time)
            },
            None => None,
        }
    }

    /// Replace semantics: drops any entry for `channel_id`, then appends
    /// `(channel_id, time)`, so the channel ends with exactly this entry.
    pub fn replace(&mut self, channel_id: u64, time: Timestamp)
        requires
            old(self).wf(),
        ensures
            final(self).wf(),
            final(self)@ == remove_id(old(self)@, channel_id).push(
                OverrideEntry { channel_id, time },
            ),
    {
        let removed = self.remove(channel_id);
        proof {
            lemma_remove_id(old(self)@, channel_id);
        }
        self.entries.push(OverrideEntry { channel_id, time });
        proof {
            let s = self@;
            assert forall|i: int, j: int|
                0 <= i < j < s.len() implies s[i].channel_id != s[j].channel_id by {
                if j == s.len() - 1 {
                    assert(s[i] == remove_id(old(self)@, channel_id)[i]);
                }
            }
        }
    }

    /// Removes the entry for `channel_id` if present; reports whether a
    /// removal occurred.
    pub fn remove(&mut self, channel_id: u64) -> (changed: bool)
        requires
            old(self).wf(),
        ensures
            final(self).wf(),
            final(self)@ == remove_id(old(self)@, channel_id),
            changed == has_override(old(self)@, channel_id),
    {
        let ghost s0 = self.entries@;
        let n = self.entries.len();
        let mut kept: Vec<OverrideEntry> = Vec::new();
        let mut found = false;
        let mut i: usize = 0;
        assert(s0.take(0) =~= Seq::<OverrideEntry>::empty());
        while i < n
            invariant
                0 <= i <= n,
                n == s0.len(),
                self.entries@ == s0,
                kept@ == remove_id(s0.take(i as int), channel_id),
                found == has_override(s0.take(i as int), channel_id),
            decreases n - i,
        {
            let e = self.entries[i];
            proof {
                assert(s0.take(i as int + 1).drop_last() =~= s0.take(i as int));
                assert(s0.take(i as int + 1).last() == s0[i as int]);
                if e.channel_id == channel_id {
                    assert(s0.take(i as int + 1)[i as int].channel_id == channel_id);
                    assert(has_override(s0.take(i as int + 1), channel_id));
                } else {
                    if has_override(s0.take(i as int + 1), channel_id) {
                        let k = choose|k: int|
                            0 <= k < i + 1 && #[trigger] s0.take(i as int + 1)[k].channel_id
                                == channel_id;
                        if k < i {
                            assert(s0.take(i as int)[k].channel_id == channel_id);
                        }
                        assert(has_override(s0.take(i as int), channel_id)
                            == has_override(s0.take(i as int + 1), channel_id));
                    }
                }
            }
            if e.channel_id == channel_id {
                found = true;
            } else {
                kept.push(e);
            }
            i = i + 1;
        }
        proof {
            assert(s0.take(n as int) =~= s0);
            lemma_remove_id(s0, channel_id);
        }
        self.entries = kept;
        found
    }
}

} // verus!
