//! Decisions of the early-warning monitor: its settings, the reconnection
//! back-off, which feed messages are alerts, which alerts are skipped, and
//! the memory of alerts already pushed.
use vstd::prelude::*;
use vstd::string::*;
use crate::civil_time::{datetime_epoch_seconds, datetime_fits, parse_datetime_epoch_seconds};
use crate::text::{is_blank, same_text, trim};

verus! {

// ------------------------------------------------------------------
// Settings
// ------------------------------------------------------------------

/// The monitor's settings, with the configuration's floors applied.
#[derive(Debug, Clone, Copy, PartialEq, Eq)]
pub struct MonitorSettings {
    /// Pushes handled at once; at least 1.
    pub max_concurrent: usize,
    /// First reconnection delay; at least 1 second.
    pub reconnect_min_seconds: u64,
    /// Longest reconnection delay; at least the first one.
    pub reconnect_max_seconds: u64,
    /// Whether a later report of an alert already pushed is pushed again.
    pub push_updates: bool,
    /// Reports needed between two pushes of one alert; at least 1.
    pub update_min_report_gap: u32,
    pub ignore_training: bool,
    pub ignore_cancel: bool,
    /// Alerts older than this are skipped; 0 or less turns the check off.
    pub stale_origin_seconds: i64,
    /// How long an alert is remembered; at least one minute.
    pub dedup_keep_seconds: u64,
}

/// `max(v, 1)`.
pub open spec fn at_least_one(v: int) -> int {
    if v < 1 {
        1
    } else {
        v
    }
}

/// The settings made from the configured values: every count and delay
/// raised to its floor of 1 (the remembering time is in whole minutes).
pub fn settings_from_config(
    max_concurrent_notifications: usize,
    reconnect_min_seconds: u64,
    reconnect_max_seconds: u64,
    push_updates: bool,
    update_min_report_gap: u32,
    ignore_training: bool,
    ignore_cancel: bool,
    stale_origin_seconds: i64,
    dedup_keep_minutes: u64,
) -> (r: MonitorSettings)
    requires
        at_least_one(dedup_keep_minutes as int) * 60 <= u64::MAX,
    ensures
        r.max_concurrent == at_least_one(max_concurrent_notifications as int),
        r.reconnect_min_seconds == at_least_one(reconnect_min_seconds as int),
        r.reconnect_max_seconds == (if reconnect_max_seconds >= at_least_one(
            reconnect_min_seconds as int,
        ) {
            reconnect_max_seconds as int
        } else {
            at_least_one(reconnect_min_seconds as int)
        }),
        r.push_updates == push_updates,
        r.update_min_report_gap == at_least_one(update_min_report_gap as int),
        r.ignore_training == ignore_training,
        r.ignore_cancel == ignore_cancel,
        r.stale_origin_seconds == stale_origin_seconds,
        r.dedup_keep_seconds == at_least_one(dedup_keep_minutes as int) * 60,
{
    let reconnect_min = if reconnect_min_seconds < 1 {
        1
    } else {
        reconnect_min_seconds
    };
    MonitorSettings {
        max_concurrent: if max_concurrent_notifications < 1 {
            1
        } else {
            max_concurrent_notifications
        },
        reconnect_min_seconds: reconnect_min,
        reconnect_max_seconds: if reconnect_max_seconds >= reconnect_min {
            reconnect_max_seconds
        } else {
            reconnect_min
        },
        push_updates,
        update_min_report_gap: if update_min_report_gap < 1 {
            1
        } else {
            update_min_report_gap
        },
        ignore_training,
        ignore_cancel,
        stale_origin_seconds,
        dedup_keep_seconds: (if dedup_keep_minutes < 1 {
            1
        } else {
            dedup_keep_minutes
        }) * 60,
    }
}

// ------------------------------------------------------------------
// Reconnection back-off
// ------------------------------------------------------------------

/// The reconnection loop's state: the delay before the next attempt and
/// the number of failed sessions in a row.
#[derive(Debug, Clone, Copy, PartialEq, Eq)]
pub struct Reconnect {
    pub delay_seconds: u64,
    pub consecutive_errors: u64,
}

impl Reconnect {
    /// The state before the first connection.
    pub fn new(settings: &MonitorSettings) -> (r: Reconnect)
        ensures
            r.delay_seconds == settings.reconnect_min_seconds,
            r.consecutive_errors == 0,
    {
        Reconnect { delay_seconds: settings.reconnect_min_seconds, consecutive_errors: 0 }
    }

    /// After a session ends (cleanly or with an error): the seconds to wait
    /// before reconnecting. A clean end resets the delay to the first one
    /// and the error count to 0; an error counts one more. The next delay
    /// doubles, up to the longest one.
    pub fn after_session(&mut self, settings: &MonitorSettings, ended_cleanly: bool) -> (wait: u64)
        requires
            ended_cleanly || old(self).consecutive_errors < u64::MAX,
            (if ended_cleanly {
                settings.reconnect_min_seconds
            } else {
                old(self).delay_seconds
            }) <= u64::MAX / 2,
        ensures
            wait == (if ended_cleanly {
                settings.reconnect_min_seconds
            } else {
                old(self).delay_seconds
            }),
            final(self).consecutive_errors == (if ended_cleanly {
                0
            } else {
                old(self).consecutive_errors + 1
            }),
            final(self).delay_seconds == (if wait * 2 <= settings.reconnect_max_seconds {
                wait * 2
            } else {
                settings.reconnect_max_seconds as int
            }),
    {
        if ended_cleanly {
            self.delay_seconds = settings.reconnect_min_seconds;
            self.consecutive_errors = 0;
        } else {
            self.consecutive_errors = self.consecutive_errors + 1;
        }
        let wait = self.delay_seconds;
        let doubled = wait * 2;
        self.delay_seconds = if doubled <= settings.reconnect_max_seconds {
            doubled
        } else {
            settings.reconnect_max_seconds
        };
        wait
    }
}

// ------------------------------------------------------------------
// Feed messages
// ------------------------------------------------------------------

/// What to do with a feed message of a given type.
#[derive(Debug, Clone, Copy, PartialEq, Eq)]
pub enum MessageAction {
    Heartbeat,
    Pong,
    /// Earthquake lists (`jma_eqlist`, `cenc_eqlist`) are not alerts.
    ListIgnored,
    /// Any other type is read as an early-warning alert.
    Alert,
}

/// The action for a message type.
pub open spec fn message_action(t: Seq<char>) -> MessageAction {
    if t == "heartbeat"@ {
        MessageAction::Heartbeat
    } else if t == "pong"@ {
        MessageAction::Pong
    } else if t == "jma_eqlist"@ || t == "cenc_eqlist"@ {
        MessageAction::ListIgnored
    } else {
        MessageAction::Alert
    }
}

/// The action for a feed message of type `message_type`.
pub fn classify_message_type(message_type: &str) -> (r: MessageAction)
    ensures
        r == message_action(message_type@),
{
    if same_text(message_type, "heartbeat") {
        MessageAction::Heartbeat
    } else if same_text(message_type, "pong") {
        MessageAction::Pong
    } else if same_text(message_type, "jma_eqlist") || same_text(message_type, "cenc_eqlist") {
        MessageAction::ListIgnored
    } else {
        MessageAction::Alert
    }
}

// ------------------------------------------------------------------
// Alert identity and origin time
// ------------------------------------------------------------------

/// The key that names an alert: source and event id, or, without an
/// event id, the source and the caller's rendering of its place, magnitude
/// and origin time.
pub open spec fn event_key(source: Seq<char>, event_id: Seq<char>, fallback: Seq<char>) -> Seq<char> {
    if trim(event_id).len() > 0 {
        source + seq![':'] + event_id
    } else {
        source + seq![':'] + fallback
    }
}

/// The key of an alert (see `event_key`); `fallback` is the text that
/// stands for the alert when its event id is blank.
pub fn earthquake_key(source_type: &str, event_id: &str, fallback: &str) -> (r: String)
    ensures
        r@ == event_key(source_type@, event_id@, fallback@),
{
    let mut key = String::from_str(source_type);
    proof {
        reveal_strlit(":");
    }
    key.append(":");
    if !is_blank(event_id) {
        key.append(event_id);
    } else {
        key.append(fallback);
    }
    key
}

/// Offset from UTC of the origin times of a source: JMA reports in Japan
/// time, the other sources in China time.
pub open spec fn source_offset(source: Seq<char>) -> int {
    if source == "jma_eew"@ {
        32400int
    } else {
        28800int
    }
}

/// The offset of a source's origin times (see `source_offset`).
pub fn source_offset_seconds(source_type: &str) -> (r: i64)
    ensures
        r == source_offset(source_type@),
{
    if same_text(source_type, "jma_eew") {
        9 * 3600
    } else {
        8 * 3600
    }
}

/// Epoch seconds of an alert's origin time; `None` when it does not read
/// as a date-time.
pub fn parse_origin_epoch_seconds(source_type: &str, origin_time: &str) -> (r: Option<i64>)
    requires
        datetime_fits(origin_time@, source_offset(source_type@)),
    ensures
        match r {
            Some(v) => datetime_epoch_seconds(origin_time@, source_offset(source_type@)) == Some(
                v as int,
            ),
            None => datetime_epoch_seconds(origin_time@, source_offset(source_type@)) is None,
        },
{
    let offset = source_offset_seconds(source_type);
    parse_datetime_epoch_seconds(origin_time, offset)
}

/// `SystemTime::now()` as whole seconds since the Unix epoch, `None` when
/// the clock reads before the epoch. Nothing is stated of the value: it is
/// the clock's.
#[verifier::external_body]
fn unix_now_seconds() -> (r: Option<u64>) {
    match std::time::SystemTime::now().duration_since(std::time::UNIX_EPOCH) {
        Ok(elapsed) => Some(elapsed.as_secs()),
        Err(_) => None,
    }
}

/// Age of an alert at clock time `now`: `now` less its origin time; `None`
/// when the origin time does not read, or the difference leaves `i64`.
pub fn origin_age_at(now: i64, source_type: &str, origin_time: &str) -> (r: Option<i64>)
    requires
        datetime_fits(origin_time@, source_offset(source_type@)),
    ensures
        match datetime_epoch_seconds(origin_time@, source_offset(source_type@)) {
            Some(origin) => if i64::MIN <= now - origin <= i64::MAX {
                r == Some((now - origin) as i64)
            } else {
                r is None
            },
            None => r is None,
        },
{
    let origin = match parse_origin_epoch_seconds(source_type, origin_time) {
        Some(v) => v,
        None => return None,
    };
    now.checked_sub(origin)
}

/// Age of an alert now (see `origin_age_at`); `None` also when the clock
/// reads before the epoch. Which age comes back depends on the clock: the
/// contract states that it is the origin's distance from some `i64` reading.
pub fn origin_age_seconds(source_type: &str, origin_time: &str) -> (r: Option<i64>)
    requires
        datetime_fits(origin_time@, source_offset(source_type@)),
    ensures
        r is Some ==> datetime_epoch_seconds(origin_time@, source_offset(source_type@)) is Some,
        r matches Some(age) ==> i64::MIN <= age + datetime_epoch_seconds(
            origin_time@,
            source_offset(source_type@),
        ).unwrap() <= i64::MAX,
{
    let now = match unix_now_seconds() {
        Some(secs) => secs as i64,
        None => return None,
    };
    origin_age_at(now, source_type, origin_time)
}

/// Seconds from clock time `now` until a wave that needs `travel_seconds`
/// from the origin arrives: the origin time plus the travel time less
/// `now`; the travel time itself when the origin time does not read or
/// there is no clock reading. (The sum is computed exactly; the caller
/// keeps it within `i64`.)
pub fn seconds_until_arrival_at(
    now: Option<i64>,
    source_type: &str,
    origin_time: &str,
    travel_seconds: i64,
) -> (r: i64)
    requires
        datetime_fits(origin_time@, source_offset(source_type@)),
        datetime_epoch_seconds(origin_time@, source_offset(source_type@)) matches Some(origin)
            ==> (now matches Some(t) ==> i64::MIN <= origin + travel_seconds <= i64::MAX && i64::MIN
            <= origin + travel_seconds - t <= i64::MAX),
    ensures
        r == match datetime_epoch_seconds(origin_time@, source_offset(source_type@)) {
            Some(origin) => match now {
                Some(t) => origin + travel_seconds - t,
                None => travel_seconds as int,
            },
            None => travel_seconds as int,
        },
{
    match parse_origin_epoch_seconds(source_type, origin_time) {
        Some(origin) => match now {
            Some(t) => origin + travel_seconds - t,
            None => travel_seconds,
        },
        None => travel_seconds,
    }
}

// ------------------------------------------------------------------
// Skipping alerts
// ------------------------------------------------------------------

/// The parts of an alert that the skip decision reads.
#[derive(Debug, Clone, Copy, PartialEq, Eq)]
pub struct AlertFlags {
    pub report_num: u32,
    pub final_report: bool,
    pub cancel: bool,
    pub training: bool,
}

/// Why an alert is not pushed.
#[derive(Debug, Clone, Copy, PartialEq, Eq)]
pub enum SkipReason {
    Training,
    Cancel,
    StaleOrigin,
    Duplicate,
}

/// A report of an alert already pushed as report `previous` is pushed
/// again only when it is a later report and either it is final or a
/// cancellation, or updates are pushed and enough reports have passed.
pub open spec fn is_duplicate(settings: MonitorSettings, flags: AlertFlags, previous: u32) -> bool {
    let is_update = flags.report_num > previous;
    let gap = if flags.report_num > previous {
        flags.report_num - previous
    } else {
        0
    };
    let bypass_gap = is_update && (flags.final_report || flags.cancel);
    !is_update || (!bypass_gap && (!settings.push_updates || gap < settings.update_min_report_gap))
}

/// Training alerts and cancellations may be ignored by the settings; an
/// alert whose age exceeds the stale limit (when the limit is on and the
/// age is known) is skipped; then an alert remembered as already pushed is
/// skipped unless its report is a new enough update.
pub open spec fn skip_decision(
    settings: MonitorSettings,
    flags: AlertFlags,
    age: Option<int>,
    previous: Option<u32>,
) -> Option<SkipReason> {
    if flags.training && settings.ignore_training {
        Some(SkipReason::Training)
    } else if flags.cancel && settings.ignore_cancel {
        Some(SkipReason::Cancel)
    } else if settings.stale_origin_seconds > 0 && (age matches Some(a) && a
        > settings.stale_origin_seconds) {
        Some(SkipReason::StaleOrigin)
    } else {
        match previous {
            Some(p) => if is_duplicate(settings, flags, p) {
                Some(SkipReason::Duplicate)
            } else {
                None
            },
            None => None,
        }
    }
}

/// Whether the remembered report `previous` makes this alert a duplicate.
pub fn duplicate_of(settings: &MonitorSettings, flags: &AlertFlags, previous: u32) -> (r: bool)
    ensures
        r == is_duplicate(*settings, *flags, previous),
{
    let is_update = flags.report_num > previous;
    let gap = flags.report_num.saturating_sub(previous);
    let bypass_gap = is_update && (flags.final_report || flags.cancel);
    !is_update || (!bypass_gap && (!settings.push_updates || gap < settings.update_min_report_gap))
}

// ------------------------------------------------------------------
// Memory of pushed alerts
// ------------------------------------------------------------------

/// An alert pushed at time `at_nanos` (on the caller's monotonic clock),
/// as report `report_num`.
#[derive(Debug)]
pub struct SeenEvent {
    pub key: String,
    pub report_num: u32,
    pub at_nanos: u128,
}

/// Pushed alerts by key, at most one entry per key.
pub struct SeenEvents {
    entries: Vec<SeenEvent>,
}

/// Report number and time remembered for a key.
pub type Remembered = (u32, u128);

/// The map of a list of entries.
pub open spec fn entries_map(s: Seq<SeenEvent>) -> Map<Seq<char>, Remembered>
    decreases s.len(),
{
    if s.len() == 0 {
        Map::empty()
    } else {
        entries_map(s.drop_last()).insert(s.last().key@, (s.last().report_num, s.last().at_nanos))
    }
}

/// No key occurs twice.
pub open spec fn keys_distinct(s: Seq<SeenEvent>) -> bool {
    forall|i: int, j: int| 0 <= i < j < s.len() ==> s[i].key@ != s[j].key@
}

/// An entry remembered at `at` is still kept at `now` when at most `keep`
/// nanoseconds have passed (an `at` after `now` counts as no time passed).
pub open spec fn still_fresh(at: u128, now: u128, keep: int) -> bool {
    (if now >= at {
        now - at
    } else {
        0
    }) <= keep
}

/// The entries of `m` still kept at `now`.
pub open spec fn pruned(m: Map<Seq<char>, Remembered>, now: u128, keep: int) -> Map<
    Seq<char>,
    Remembered,
> {
    Map::new(|k: Seq<char>| m.contains_key(k) && still_fresh(m[k].1, now, keep), |k: Seq<char>| m[k])
}

/// Remembering time in nanoseconds.
pub open spec fn keep_nanos(settings: MonitorSettings) -> int {
    settings.dedup_keep_seconds * 1_000_000_000
}

proof fn lemma_entries_map_has(s: Seq<SeenEvent>, i: int)
    requires
        keys_distinct(s),
        0 <= i < s.len(),
    ensures
        entries_map(s).contains_key(s[i].key@),
        entries_map(s)[s[i].key@] == (s[i].report_num, s[i].at_nanos),
    decreases s.len(),
{
    if i < s.len() - 1 {
        lemma_entries_map_has(s.drop_last(), i);
    }
}

proof fn lemma_entries_map_lacks(s: Seq<SeenEvent>, k: Seq<char>)
    requires
        forall|i: int| 0 <= i < s.len() ==> (#[trigger] s[i]).key@ != k,
    ensures
        !entries_map(s).contains_key(k),
    decreases s.len(),
{
    if s.len() > 0 {
        lemma_entries_map_lacks(s.drop_last(), k);
    }
}

proof fn lemma_entries_map_domain(s: Seq<SeenEvent>, k: Seq<char>)
    requires
        entries_map(s).contains_key(k),
    ensures
        exists|i: int| 0 <= i < s.len() && (#[trigger] s[i]).key@ == k,
    decreases s.len(),
{
    if s.len() > 0 && s.last().key@ != k {
        lemma_entries_map_domain(s.drop_last(), k);
        let i = choose|i: int| 0 <= i < s.drop_last().len() && (#[trigger] s.drop_last()[i]).key@ == k;
        assert(s[i] == s.drop_last()[i]);
    }
}

/// Two entry lists with distinct keys have one map when every key of one
/// carries the same value in the other.
proof fn lemma_entries_map_equal(
    s: Seq<SeenEvent>,
    m: Map<Seq<char>, Remembered>,
)
    requires
        keys_distinct(s),
        forall|i: int|
            0 <= i < s.len() ==> m.contains_key((#[trigger] s[i]).key@) && m[s[i].key@] == (
                s[i].report_num,
                s[i].at_nanos,
            ),
        forall|k: Seq<char>| #[trigger] m.contains_key(k) ==> exists|i: int|
            0 <= i < s.len() && (#[trigger] s[i]).key@ == k,
    ensures
        entries_map(s) == m,
{
    assert forall|k: Seq<char>| #[trigger] entries_map(s).contains_key(k) == m.contains_key(k) by {
        if entries_map(s).contains_key(k) {
            lemma_entries_map_domain(s, k);
            let i = choose|i: int| 0 <= i < s.len() && (#[trigger] s[i]).key@ == k;
            lemma_entries_map_has(s, i);
        }
        if m.contains_key(k) {
            let i = choose|i: int| 0 <= i < s.len() && (#[trigger] s[i]).key@ == k;
            lemma_entries_map_has(s, i);
        }
    }
    assert forall|k: Seq<char>| #[trigger] entries_map(s).contains_key(k) implies entries_map(s)[k]
        == m[k] by {
        lemma_entries_map_domain(s, k);
        let i = choose|i: int| 0 <= i < s.len() && (#[trigger] s[i]).key@ == k;
        lemma_entries_map_has(s, i);
    }
    assert(entries_map(s) =~= m);
}

impl SeenEvents {
    #[verifier::type_invariant]
    spec fn inv(self) -> bool {
        keys_distinct(self.entries@)
    }

    /// The remembered alerts: report number and time by key.
    pub closed spec fn view(&self) -> Map<Seq<char>, Remembered> {
        entries_map(self.entries@)
    }

    /// Nothing remembered.
    pub fn new() -> (r: SeenEvents)
        ensures
            r.view() == Map::<Seq<char>, Remembered>::empty(),
    {
        SeenEvents { entries: Vec::new() }
    }

    /// Number of remembered alerts.
    pub fn len(&self) -> (n: usize)
        ensures
            n == self.view().len(),
    {
        proof {
            use_type_invariant(self);
            lemma_entries_map_len(self.entries@);
        }
        self.entries.len()
    }

    /// Forgets the alerts remembered longer than `keep_seconds` before `now`.
    pub fn prune(&mut self, now_nanos: u128, keep_seconds: u64)
        ensures
            final(self).view() == pruned(old(self).view(), now_nanos, keep_seconds * 1_000_000_000),
    {
        proof {
            use_type_invariant(&*self);
        }
        let keep: u128 = keep_seconds as u128 * 1_000_000_000;
        let ghost old_entries = self.entries@;
        let ghost target = pruned(entries_map(old_entries), now_nanos, keep as int);
        let mut kept: Vec<SeenEvent> = Vec::new();
        let mut i: usize = 0;
        while i < self.entries.len()
            invariant
                self.entries@ == old_entries,
                keys_distinct(old_entries),
                i <= old_entries.len(),
                keys_distinct(kept@),
                forall|j: int|
                    #![trigger kept@[j]]
                    0 <= j < kept@.len() ==> exists|m: int|
                        0 <= m < i && (#[trigger] old_entries[m]) == kept@[j] && still_fresh(
                            old_entries[m].at_nanos,
                            now_nanos,
                            keep as int,
                        ),
                forall|m: int|
                    #![trigger old_entries[m]]
                    0 <= m < i && still_fresh(old_entries[m].at_nanos, now_nanos, keep as int)
                        ==> exists|j: int| 0 <= j < kept@.len() && kept@[j] == #[trigger] old_entries[m],
            decreases old_entries.len() - i,
        {
            let e = &self.entries[i];
            let elapsed = if now_nanos >= e.at_nanos {
                now_nanos - e.at_nanos
            } else {
                0
            };
            if elapsed <= keep {
                let ghost before = kept@;
                kept.push(SeenEvent { key: e.key.clone(), report_num: e.report_num, at_nanos: e.at_nanos });
                proof {
                    assert(kept@.last() == old_entries[i as int]);
                    assert forall|a: int, b: int| 0 <= a < b < kept@.len() implies kept@[a].key@
                        != kept@[b].key@ by {
                        if b == kept@.len() - 1 {
                            let m = choose|m: int|
                                0 <= m < i && (#[trigger] old_entries[m]) == kept@[a] && still_fresh(
                                    old_entries[m].at_nanos,
                                    now_nanos,
                                    keep as int,
                                );
                            assert(old_entries[m].key@ != old_entries[i as int].key@);
                        } else {
                            assert(kept@[a] == before[a] && kept@[b] == before[b]);
                        }
                    }
                    assert forall|j: int| #![trigger kept@[j]] 0 <= j < kept@.len() implies exists|m: int|
                        0 <= m < i + 1 && (#[trigger] old_entries[m]) == kept@[j] && still_fresh(
                            old_entries[m].at_nanos,
                            now_nanos,
                            keep as int,
                        ) by {
                        if j == kept@.len() - 1 {
                            assert(old_entries[i as int] == kept@[j]);
                        } else {
                            assert(kept@[j] == before[j]);
                        }
                    }
                    assert forall|m: int|
                        #![trigger old_entries[m]]
                        0 <= m < i + 1 && still_fresh(old_entries[m].at_nanos, now_nanos, keep as int)
                            implies exists|j: int|
                        0 <= j < kept@.len() && kept@[j] == #[trigger] old_entries[m] by {
                        if m == i {
                            assert(kept@[kept@.len() - 1] == old_entries[m]);
                        } else {
                            let j = choose|j: int| 0 <= j < before.len() && before[j] == #[trigger] old_entries[m];
                            assert(kept@[j] == before[j]);
                        }
                    }
                }
            }
            i = i + 1;
        }
        proof {
            let m0 = entries_map(old_entries);
            assert forall|j: int| 0 <= j < kept@.len() implies target.contains_key(
                (#[trigger] kept@[j]).key@,
            ) && target[kept@[j].key@] == (kept@[j].report_num, kept@[j].at_nanos) by {
                let m = choose|m: int|
                    0 <= m < old_entries.len() && (#[trigger] old_entries[m]) == kept@[j] && still_fresh(
                        old_entries[m].at_nanos,
                        now_nanos,
                        keep as int,
                    );
                lemma_entries_map_has(old_entries, m);
            }
            assert forall|k: Seq<char>| #[trigger] target.contains_key(k) implies exists|j: int|
                0 <= j < kept@.len() && (#[trigger] kept@[j]).key@ == k by {
                lemma_entries_map_domain(old_entries, k);
                let m = choose|m: int| 0 <= m < old_entries.len() && (#[trigger] old_entries[m]).key@ == k;
                lemma_entries_map_has(old_entries, m);
                let j = choose|j: int| 0 <= j < kept@.len() && kept@[j] == #[trigger] old_entries[m];
                assert(kept@[j].key@ == k);
            }
            lemma_entries_map_equal(kept@, target);
        }
        self.entries = kept;
    }

    /// The report number remembered for `key`.
    pub fn previous_report(&self, key: &str) -> (r: Option<u32>)
        ensures
            r == (if self.view().contains_key(key@) {
                Some(self.view()[key@].0)
            } else {
                None::<u32>
            }),
    {
        proof {
            use_type_invariant(self);
        }
        let mut i: usize = 0;
        while i < self.entries.len()
            invariant
                i <= self.entries@.len(),
                keys_distinct(self.entries@),
                forall|j: int| 0 <= j < i ==> (#[trigger] self.entries@[j]).key@ != key@,
            decreases self.entries@.len() - i,
        {
            if same_text(self.entries[i].key.as_str(), key) {
                proof {
                    lemma_entries_map_has(self.entries@, i as int);
                }
                return Some(self.entries[i].report_num);
            }
            i = i + 1;
        }
        proof {
            lemma_entries_map_lacks(self.entries@, key@);
        }
        None
    }

    /// Remembers `key` as pushed as report `report_num` at `now_nanos`,
    /// replacing what was remembered for it.
    pub fn mark(&mut self, key: String, report_num: u32, now_nanos: u128)
        ensures
            final(self).view() == old(self).view().insert(key@, (report_num, now_nanos)),
    {
        proof {
            use_type_invariant(&*self);
        }
        let ghost old_entries = self.entries@;
        let ghost target = entries_map(old_entries).insert(key@, (report_num, now_nanos));
        let mut i: usize = 0;
        while i < self.entries.len()
            invariant
                self.entries@ == old_entries,
                i <= old_entries.len(),
                keys_distinct(old_entries),
                forall|j: int| 0 <= j < i ==> (#[trigger] old_entries[j]).key@ != key@,
            ensures
                self.entries@ == old_entries,
                i <= old_entries.len(),
                forall|j: int| 0 <= j < i ==> (#[trigger] old_entries[j]).key@ != key@,
                i < old_entries.len() ==> old_entries[i as int].key@ == key@,
            decreases old_entries.len() - i,
        {
            if same_text(self.entries[i].key.as_str(), key.as_str()) {
                break;
            }
            i = i + 1;
        }
        let entry = SeenEvent { key, report_num, at_nanos: now_nanos };
        let mut entries = Vec::new();
        std::mem::swap(&mut entries, &mut self.entries);
        if i < entries.len() {
            entries.set(i, entry);
        } else {
            entries.push(entry);
        }
        proof {
            let s = entries@;
            assert forall|a: int, b: int| 0 <= a < b < s.len() implies s[a].key@ != s[b].key@ by {
                if a != i && b != i {
                    assert(s[a] == old_entries[a] && s[b] == old_entries[b]);
                } else if a == i {
                    assert(s[b] == old_entries[b]);
                    if i < old_entries.len() {
                        assert(old_entries[i as int].key@ == s[a].key@);
                    }
                } else {
                    assert(s[a] == old_entries[a]);
                    if i < old_entries.len() {
                        assert(old_entries[i as int].key@ == s[b].key@);
                    }
                }
            }
            assert forall|j: int| 0 <= j < s.len() implies target.contains_key((#[trigger] s[j]).key@)
                && target[s[j].key@] == (s[j].report_num, s[j].at_nanos) by {
                if j != i {
                    assert(s[j] == old_entries[j]);
                    lemma_entries_map_has(old_entries, j);
                    if i < old_entries.len() {
                        assert(old_entries[i as int].key@ == key@);
                    }
                }
            }
            assert forall|k: Seq<char>| #[trigger] target.contains_key(k) implies exists|j: int|
                0 <= j < s.len() && (#[trigger] s[j]).key@ == k by {
                if k == key@ {
                    assert(s[i as int].key@ == k);
                } else {
                    lemma_entries_map_domain(old_entries, k);
                    let m = choose|m: int| 0 <= m < old_entries.len() && (#[trigger] old_entries[m]).key@ == k;
                    if i < old_entries.len() {
                        assert(m != i);
                    }
                    assert(s[m] == old_entries[m]);
                }
            }
            lemma_entries_map_equal(s, target);
        }
        self.entries = entries;
    }
}

proof fn lemma_entries_map_len(s: Seq<SeenEvent>)
    requires
        keys_distinct(s),
    ensures
        entries_map(s).len() == s.len(),
        entries_map(s).dom().finite(),
    decreases s.len(),
{
    if s.len() > 0 {
        let p = s.drop_last();
        lemma_entries_map_len(p);
        assert forall|i: int| 0 <= i < p.len() implies (#[trigger] p[i]).key@ != s.last().key@ by {
            assert(p[i] == s[i]);
        }
        lemma_entries_map_lacks(p, s.last().key@);
    }
}

/// Whether an alert is skipped, and the memory after the check: training
/// alerts, cancellations and stale alerts are decided before the memory is
/// looked at (and leave it as it was); otherwise entries older than the
/// remembering time are forgotten first and the alert's key is looked up.
/// `age` is the alert's age (see `origin_age_seconds`), `None` when unknown.
pub fn should_skip_event(
    seen: &mut SeenEvents,
    settings: &MonitorSettings,
    flags: &AlertFlags,
    key: &str,
    age: Option<i64>,
    now_nanos: u128,
) -> (r: Option<SkipReason>)
    ensures
        ({
            let early = skip_decision(*settings, *flags, age_int(age), None);
            let after = pruned(old(seen).view(), now_nanos, keep_nanos(*settings));
            if early is Some {
                &&& r == early
                &&& final(seen).view() == old(seen).view()
            } else {
                &&& final(seen).view() == after
                &&& r == skip_decision(
                    *settings,
                    *flags,
                    age_int(age),
                    if after.contains_key(key@) {
                        Some(after[key@].0)
                    } else {
                        None
                    },
                )
            }
        }),
{
    if flags.training && settings.ignore_training {
        return Some(SkipReason::Training);
    }
    if flags.cancel && settings.ignore_cancel {
        return Some(SkipReason::Cancel);
    }
    if settings.stale_origin_seconds > 0 {
        if let Some(a) = age {
            if a > settings.stale_origin_seconds {
                return Some(SkipReason::StaleOrigin);
            }
        }
    }
    seen.prune(now_nanos, settings.dedup_keep_seconds);
    match seen.previous_report(key) {
        Some(previous) => if duplicate_of(settings, flags, previous) {
            Some(SkipReason::Duplicate)
        } else {
            None
        },
        None => None,
    }
}

/// An optional `i64` as an optional integer.
pub open spec fn age_int(age: Option<i64>) -> Option<int> {
    match age {
        Some(a) => Some(a as int),
        None => None,
    }
}

/// Remembering an alert and then looking its key up gives the report just
/// remembered.
pub proof fn lemma_mark_then_lookup(
    m: Map<Seq<char>, Remembered>,
    key: Seq<char>,
    report_num: u32,
    now: u128,
)
    ensures
        m.insert(key, (report_num, now)).contains_key(key),
        m.insert(key, (report_num, now))[key].0 == report_num,
{
}

/// An alert remembered at `now` is not forgotten by a prune at `now`.
pub proof fn lemma_fresh_mark_survives_prune(
    m: Map<Seq<char>, Remembered>,
    key: Seq<char>,
    report_num: u32,
    now: u128,
    keep: int,
)
    requires
        keep >= 0,
    ensures
        pruned(m.insert(key, (report_num, now)), now, keep).contains_key(key),
        pruned(m.insert(key, (report_num, now)), now, keep)[key].0 == report_num,
{
}

/// Right after an alert is pushed and remembered, the same report is a
/// duplicate.
pub proof fn lemma_same_report_is_duplicate(settings: MonitorSettings, flags: AlertFlags)
    ensures
        is_duplicate(settings, flags, flags.report_num),
{
}

/// A feed message is anything but an alert only for the four control and
/// list types: `heartbeat`, `pong`, `jma_eqlist` and `cenc_eqlist`; every
/// other type, every early-warning source among them, is an alert.
pub proof fn lemma_only_control_types_are_not_alerts(t: Seq<char>)
    ensures
        message_action(t) != MessageAction::Alert ==> (t == "heartbeat"@ || t == "pong"@ || t
            == "jma_eqlist"@ || t == "cenc_eqlist"@),
        t == "heartbeat"@ ==> message_action(t) == MessageAction::Heartbeat,
        t == "pong"@ ==> message_action(t) == MessageAction::Pong,
        (t == "jma_eqlist"@ || t == "cenc_eqlist"@) ==> message_action(t) == MessageAction::ListIgnored,
{
    reveal_strlit("heartbeat");
    reveal_strlit("pong");
    reveal_strlit("jma_eqlist");
    reveal_strlit("cenc_eqlist");
    assert("heartbeat"@.len() == 9 && "pong"@.len() == 4);
    assert("jma_eqlist"@.len() == 10 && "cenc_eqlist"@.len() == 11);
}

/// Each reason to skip an alert holds only under its own setting and
/// fact: a training alert only when training alerts are ignored, a
/// cancellation only when cancellations are ignored, a stale alert only
/// when the stale limit is on and its known age exceeds it, a duplicate only
/// when a report of it is remembered and the new one is not a pushable
/// update. An alert that none of these applies to is pushed.
pub proof fn lemma_skip_reasons(
    settings: MonitorSettings,
    flags: AlertFlags,
    age: Option<int>,
    previous: Option<u32>,
)
    ensures
        skip_decision(settings, flags, age, previous) == Some(SkipReason::Training) ==> flags.training
            && settings.ignore_training,
        skip_decision(settings, flags, age, previous) == Some(SkipReason::Cancel) ==> flags.cancel
            && settings.ignore_cancel,
        skip_decision(settings, flags, age, previous) == Some(SkipReason::StaleOrigin) ==> settings.stale_origin_seconds
            > 0 && (age matches Some(a) && a > settings.stale_origin_seconds),
        skip_decision(settings, flags, age, previous) == Some(SkipReason::Duplicate) ==> (previous matches Some(
            p,
        ) && (flags.report_num <= p || (!flags.final_report && !flags.cancel && (!settings.push_updates
            || flags.report_num - p < settings.update_min_report_gap)))),
        !(flags.training && settings.ignore_training) && !(flags.cancel && settings.ignore_cancel)
            && !(settings.stale_origin_seconds > 0 && (age matches Some(a) && a
            > settings.stale_origin_seconds)) && (previous matches Some(p) ==> flags.report_num > p
            && (flags.final_report || flags.cancel || (settings.push_updates && flags.report_num - p
            >= settings.update_min_report_gap))) ==> skip_decision(settings, flags, age, previous) is None,
        flags.training && settings.ignore_training ==> skip_decision(settings, flags, age, previous)
            == Some(SkipReason::Training),
{
}

} // verus!
