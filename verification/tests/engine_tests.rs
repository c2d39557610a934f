use channel_lifecycle::activity::qualifying_index;
use channel_lifecycle::model::{
    ActiveRange, Channel, Config, Deletion, Edit, Message, Timestamp, STALENESS_SECONDS,
};
use channel_lifecycle::reconcile::run_pass;
use channel_lifecycle::resolve::active_category_for;
use channel_lifecycle::store::{OverrideEntry, OverrideStore};
use channel_lifecycle::text::{bytes_lt, is_trigger_content};

const DAY: i64 = 86400;
const NOW: i64 = 1_700_000_000;
const ACTIVE: u64 = 100;
const INACTIVE: u64 = 200;
const STICKY: u64 = 1;

fn cfg() -> Config {
    Config {
        active_ranges: vec![ActiveRange { category_id: ACTIVE, name_bound: None }],
        inactive_category: INACTIVE,
        sticky_channel: STICKY,
    }
}

fn msg_at(id: u64, created_secs: i64, content: &str, capability: bool) -> Message {
    Message {
        id,
        from_relay: false,
        created: Timestamp { secs: created_secs, utc_offset_secs: 0 },
        edited: None,
        content: content.as_bytes().to_vec(),
        author_has_capability: capability,
    }
}

fn msg_age_days(id: u64, age_days: i64, content: &str, capability: bool) -> Message {
    msg_at(id, NOW - age_days * DAY, content, capability)
}

fn chan(id: u64, name: &str, category: u64, position: u64, messages: Vec<Message>) -> Channel {
    Channel {
        id,
        name: name.as_bytes().to_vec(),
        category: Some(category),
        position,
        messages: Some(messages),
    }
}

fn apply_edits(snapshot: &mut Vec<Channel>, edits: &[Edit]) {
    for e in edits {
        for c in snapshot.iter_mut() {
            if c.id == e.channel_id {
                c.category = Some(e.category);
                c.position = e.position;
            }
        }
    }
}

#[test]
fn a_pass_over_an_empty_snapshot_does_nothing_at_any_time() {
    let mut store = OverrideStore::new();
    let (_now, out) =
        channel_lifecycle::reconcile::run_pass_at_current_time(&cfg(), &Vec::new(), &mut store);
    assert!(out.edits.is_empty());
    assert!(out.deletions.is_empty());
    assert!(!out.store_changed);
    assert_eq!(store.len(), 0);
}

#[test]
fn sixty_days_is_the_staleness_threshold() {
    assert_eq!(STALENESS_SECONDS, 60 * DAY);
}

#[test]
fn the_threshold_is_strict() {
    // Exactly sixty days old is already stale; one second younger is fresh.
    let on_the_line = vec![chan(2, "general", ACTIVE, 0, vec![msg_at(920, NOW - 60 * DAY, "hi", false)])];
    let mut store = OverrideStore::new();
    let out = run_pass(&cfg(), &on_the_line, &mut store, NOW);
    assert_eq!(
        out.edits,
        vec![Edit { channel_id: 2, category: INACTIVE, position: 0 }],
    );
    let just_inside = vec![chan(2, "general", ACTIVE, 0, vec![msg_at(921, NOW - 60 * DAY + 1, "hi", false)])];
    let out2 = run_pass(&cfg(), &just_inside, &mut store, NOW);
    assert!(out2.edits.is_empty());
}

#[test]
fn stale_channel_moves_to_inactive_at_alphabetical_index() {
    // "announcements" is sticky in the active category; "general" has had
    // no qualifying message for 61 days and must land in the inactive
    // category between "alpha" and "zulu".
    let mut snapshot = vec![
        Channel {
            id: STICKY,
            name: b"announcements".to_vec(),
            category: Some(ACTIVE),
            position: 0,
            messages: None,
        },
        chan(2, "general", ACTIVE, 1, vec![msg_age_days(90, 61, "hello", false)]),
        chan(3, "alpha", INACTIVE, 0, vec![msg_age_days(91, 100, "old", false)]),
        chan(4, "zulu", INACTIVE, 2, vec![msg_age_days(92, 100, "old", false)]),
    ];
    let mut store = OverrideStore::new();
    let out = run_pass(&cfg(), &snapshot, &mut store, NOW);
    assert_eq!(
        out.edits,
        vec![Edit { channel_id: 2, category: INACTIVE, position: 1 }],
    );
    assert!(out.deletions.is_empty());
    assert!(!out.store_changed);
    // And the pass is idempotent: after the edits are applied, a second run
    // at the same instant emits nothing.
    apply_edits(&mut snapshot, &out.edits);
    let again = run_pass(&cfg(), &snapshot, &mut store, NOW);
    assert!(again.edits.is_empty());
    assert!(again.deletions.is_empty());
    assert!(!again.store_changed);
}

#[test]
fn archive_command_records_override_deletes_message_and_takes_effect() {
    // A moderator posts the trigger in a fresh, active channel.
    let snapshot = vec![chan(5, "help", ACTIVE, 0, vec![msg_age_days(900, 1, "!archive", true)])];
    let mut store = OverrideStore::new();
    let out = run_pass(&cfg(), &snapshot, &mut store, NOW);
    assert_eq!(
        store.entries().as_slice(),
        &[OverrideEntry { channel_id: 5, time: Timestamp { secs: NOW - DAY, utc_offset_secs: 0 } }],
    );
    assert_eq!(out.deletions, vec![Deletion { channel_id: 5, message_id: 900 }]);
    assert!(out.store_changed);
    // The override takes effect in the very pass that records it.
    assert_eq!(
        out.edits,
        vec![Edit { channel_id: 5, category: INACTIVE, position: 0 }],
    );
}

#[test]
fn repeated_archive_command_is_a_no_op() {
    let snapshot = vec![chan(5, "help", ACTIVE, 0, vec![msg_age_days(900, 1, "!archive", true)])];
    let mut store = OverrideStore::new();
    store.replace(5, Timestamp { secs: NOW - DAY, utc_offset_secs: 0 });
    let out = run_pass(&cfg(), &snapshot, &mut store, NOW);
    assert!(out.deletions.is_empty());
    assert!(!out.store_changed);
    assert_eq!(store.len(), 1);
    // The standing override still holds the fresh channel inactive.
    assert_eq!(
        out.edits,
        vec![Edit { channel_id: 5, category: INACTIVE, position: 0 }],
    );
}

#[test]
fn two_archive_commands_leave_one_entry_with_the_second_instant() {
    let cfg = cfg();
    let mut store = OverrideStore::new();
    let first = vec![chan(5, "help", ACTIVE, 0, vec![msg_age_days(900, 2, "!archive", true)])];
    run_pass(&cfg, &first, &mut store, NOW);
    let second = vec![chan(5, "help", ACTIVE, 0, vec![msg_age_days(901, 1, "!archive", true)])];
    let out = run_pass(&cfg, &second, &mut store, NOW);
    assert_eq!(
        store.entries().as_slice(),
        &[OverrideEntry { channel_id: 5, time: Timestamp { secs: NOW - DAY, utc_offset_secs: 0 } }],
    );
    assert_eq!(out.deletions, vec![Deletion { channel_id: 5, message_id: 901 }]);
}

#[test]
fn later_message_supersedes_override_and_unarchives() {
    // An override stands, then ordinary conversation arrives after it.
    let mut store = OverrideStore::new();
    store.replace(2, Timestamp { secs: NOW - 10 * DAY, utc_offset_secs: 0 });
    let snapshot = vec![chan(2, "general", INACTIVE, 0, vec![msg_age_days(903, 1, "hi", false)])];
    let out = run_pass(&cfg(), &snapshot, &mut store, NOW);
    assert_eq!(store.len(), 0);
    assert!(out.store_changed);
    assert_eq!(
        out.edits,
        vec![Edit { channel_id: 2, category: ACTIVE, position: 0 }],
    );
}

#[test]
fn staleness_wins_over_everything() {
    // Sixty-one days of silence force the inactive category whatever the
    // override table holds.
    let mut with_override = OverrideStore::new();
    with_override.replace(2, Timestamp { secs: NOW - 80 * DAY, utc_offset_secs: 0 });
    let snapshot = vec![chan(2, "general", ACTIVE, 0, vec![msg_age_days(904, 61, "hi", false)])];
    let out = run_pass(&cfg(), &snapshot, &mut with_override, NOW);
    assert_eq!(
        out.edits,
        vec![Edit { channel_id: 2, category: INACTIVE, position: 0 }],
    );
    // Without any override the verdict is the same.
    let mut empty = OverrideStore::new();
    let out2 = run_pass(&cfg(), &snapshot, &mut empty, NOW);
    assert_eq!(
        out2.edits,
        vec![Edit { channel_id: 2, category: INACTIVE, position: 0 }],
    );
}

#[test]
fn sticky_channel_is_pinned_to_the_front_and_never_reclassified() {
    // The sticky channel sits mid-category with a stale history; it must be
    // moved to position 0 of its own category, not reclassified.
    let snapshot = vec![
        chan(2, "alpha", ACTIVE, 0, vec![msg_age_days(905, 1, "hi", false)]),
        Channel {
            id: STICKY,
            name: b"zeta".to_vec(),
            category: Some(ACTIVE),
            position: 1,
            messages: Some(vec![msg_age_days(906, 100, "old", false)]),
        },
    ];
    let mut store = OverrideStore::new();
    let out = run_pass(&cfg(), &snapshot, &mut store, NOW);
    assert_eq!(
        out.edits,
        vec![
            Edit { channel_id: 2, category: ACTIVE, position: 1 },
            Edit { channel_id: STICKY, category: ACTIVE, position: 0 },
        ],
    );
}

#[test]
fn webhook_messages_never_qualify() {
    // The newest message is from a relay; the next human message is 61 days
    // old, so the channel is stale.
    let relay = Message {
        id: 907,
        from_relay: true,
        created: Timestamp { secs: NOW - 100, utc_offset_secs: 0 },
        edited: None,
        content: b"automated".to_vec(),
        author_has_capability: false,
    };
    let human = msg_age_days(908, 61, "hello", false);
    let msgs = vec![relay, human];
    assert_eq!(qualifying_index(&msgs), Some(1));
    let snapshot = vec![Channel {
        id: 2,
        name: b"general".to_vec(),
        category: Some(ACTIVE),
        position: 0,
        messages: Some(msgs),
    }];
    let mut store = OverrideStore::new();
    let out = run_pass(&cfg(), &snapshot, &mut store, NOW);
    assert_eq!(
        out.edits,
        vec![Edit { channel_id: 2, category: INACTIVE, position: 0 }],
    );
}

#[test]
fn an_edit_counts_as_fresh_activity() {
    let mut old_but_edited = msg_age_days(909, 100, "hello", false);
    old_but_edited.edited = Some(Timestamp { secs: NOW - DAY, utc_offset_secs: 0 });
    let snapshot = vec![chan(2, "general", ACTIVE, 0, vec![old_but_edited])];
    let mut store = OverrideStore::new();
    let out = run_pass(&cfg(), &snapshot, &mut store, NOW);
    assert!(out.edits.is_empty());
}

#[test]
fn empty_history_is_stale() {
    let snapshot = vec![chan(2, "general", ACTIVE, 0, vec![])];
    let mut store = OverrideStore::new();
    let out = run_pass(&cfg(), &snapshot, &mut store, NOW);
    assert_eq!(
        out.edits,
        vec![Edit { channel_id: 2, category: INACTIVE, position: 0 }],
    );
}

#[test]
fn failed_history_fetch_skips_reclassification_but_keeps_sorting() {
    let snapshot = vec![
        chan(2, "alpha", ACTIVE, 0, vec![msg_age_days(910, 1, "hi", false)]),
        Channel {
            id: 3,
            name: b"beta".to_vec(),
            category: Some(ACTIVE),
            position: 5,
            messages: None,
        },
    ];
    let mut store = OverrideStore::new();
    let out = run_pass(&cfg(), &snapshot, &mut store, NOW);
    assert_eq!(
        out.edits,
        vec![Edit { channel_id: 3, category: ACTIVE, position: 1 }],
    );
}

#[test]
fn unmanaged_channels_are_left_alone() {
    let outside = chan(9, "outside", 999, 3, vec![msg_age_days(911, 61, "old", false)]);
    let mut uncategorised = chan(10, "floating", ACTIVE, 0, vec![]);
    uncategorised.category = None;
    let snapshot = vec![outside, uncategorised];
    let mut store = OverrideStore::new();
    let out = run_pass(&cfg(), &snapshot, &mut store, NOW);
    assert!(out.edits.is_empty());
    assert!(out.deletions.is_empty());
    assert!(!out.store_changed);
}

#[test]
fn name_ranges_split_the_active_partition() {
    let split = Config {
        active_ranges: vec![
            ActiveRange { category_id: 100, name_bound: Some(b"n".to_vec()) },
            ActiveRange { category_id: 101, name_bound: None },
        ],
        inactive_category: INACTIVE,
        sticky_channel: STICKY,
    };
    assert_eq!(active_category_for(&split, &b"apple".to_vec()), 100);
    assert_eq!(active_category_for(&split, &b"mzzz".to_vec()), 100);
    assert_eq!(active_category_for(&split, &b"n".to_vec()), 101);
    assert_eq!(active_category_for(&split, &b"nova".to_vec()), 101);
    // A fresh channel in the wrong active range is moved to the right one.
    let snapshot = vec![chan(2, "nova", 100, 0, vec![msg_age_days(912, 1, "hi", false)])];
    let mut store = OverrideStore::new();
    let out = run_pass(&split, &snapshot, &mut store, NOW);
    assert_eq!(
        out.edits,
        vec![Edit { channel_id: 2, category: 101, position: 0 }],
    );
}

#[test]
fn trigger_detection_trims_unicode_whitespace() {
    assert!(is_trigger_content(&b"!archive".to_vec()));
    assert!(is_trigger_content(&b"  !archive  ".to_vec()));
    assert!(is_trigger_content(&b"\t!archive\r\n".to_vec()));
    // The full Unicode whitespace set is trimmed, as str::trim would.
    assert!(is_trigger_content(&"\u{a0}!archive\u{a0}".as_bytes().to_vec()));
    assert!(is_trigger_content(&"\u{2003}!archive\u{200a}".as_bytes().to_vec()));
    assert!(is_trigger_content(&"\u{3000}\u{1680}!archive\u{2028}".as_bytes().to_vec()));
    assert_eq!("\u{a0}!archive\u{2003}".trim(), "!archive");
    assert!(!is_trigger_content(&"\u{e9}!archive".as_bytes().to_vec()));
    assert!(!is_trigger_content(&b"!archive now".to_vec()));
    assert!(!is_trigger_content(&b"!Archive".to_vec()));
    assert!(!is_trigger_content(&b"archive".to_vec()));
    assert!(!is_trigger_content(&b"".to_vec()));
    assert!(!is_trigger_content(&"\u{a0} \u{3000}".as_bytes().to_vec()));
}

#[test]
fn command_without_capability_is_ignored() {
    let snapshot = vec![chan(5, "help", ACTIVE, 0, vec![msg_age_days(913, 1, "!archive", false)])];
    let mut store = OverrideStore::new();
    let out = run_pass(&cfg(), &snapshot, &mut store, NOW);
    assert!(out.deletions.is_empty());
    assert!(!out.store_changed);
    assert!(out.edits.is_empty());
}

#[test]
fn name_order_is_ordinal() {
    assert!(bytes_lt(&b"a".to_vec(), &b"b".to_vec()));
    assert!(bytes_lt(&b"".to_vec(), &b"a".to_vec()));
    assert!(bytes_lt(&b"a".to_vec(), &b"ab".to_vec()));
    assert!(!bytes_lt(&b"b".to_vec(), &b"a".to_vec()));
    assert!(!bytes_lt(&b"a".to_vec(), &b"a".to_vec()));
    // Upper case sorts before lower case, as in ordinal string order.
    assert!(bytes_lt(&b"Z".to_vec(), &b"a".to_vec()));
}

#[test]
fn identically_named_channels_keep_their_position_order() {
    // Ties in name are broken by current position, so a settled pair stays
    // settled even when the snapshot happens to list them the other way
    // round.
    let snapshot = vec![
        chan(3, "twin", ACTIVE, 1, vec![msg_age_days(914, 1, "hi", false)]),
        chan(2, "twin", ACTIVE, 0, vec![msg_age_days(915, 1, "hi", false)]),
    ];
    let mut store = OverrideStore::new();
    let out = run_pass(&cfg(), &snapshot, &mut store, NOW);
    assert!(out.edits.is_empty());
}

#[test]
fn identically_named_channels_compact_without_swapping() {
    // Positions with gaps are compacted to 0-based ranks, still in the order
    // the prior positions gave.
    let mut snapshot = vec![
        chan(3, "twin", ACTIVE, 5, vec![msg_age_days(916, 1, "hi", false)]),
        chan(2, "twin", ACTIVE, 2, vec![msg_age_days(917, 1, "hi", false)]),
    ];
    let mut store = OverrideStore::new();
    let out = run_pass(&cfg(), &snapshot, &mut store, NOW);
    assert_eq!(
        out.edits,
        vec![
            Edit { channel_id: 3, category: ACTIVE, position: 1 },
            Edit { channel_id: 2, category: ACTIVE, position: 0 },
        ],
    );
    apply_edits(&mut snapshot, &out.edits);
    let again = run_pass(&cfg(), &snapshot, &mut store, NOW);
    assert!(again.edits.is_empty());
}
