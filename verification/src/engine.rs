//! The schedule engine: the high-level API over any ordered key-value
//! backend.  It writes and reads monthly schedules and per-tournament
//! timed records through the key codec and the payload codec, replicates
//! a tournament across every month it touches, and aggregates statistics.

use vstd::prelude::*;

use crate::calendar::{date_plus, end_month, next_month, parse_date, parsed_date, MAX_DATE_YEAR};
use crate::codec::{decode_event, encode_event, event_encoding};
use crate::error::StoreError;
use crate::key::{
    generate_tournament_id, lemma_pad6_order, monthly_key, monthly_scan_range, spec_monthly_key,
    spec_monthly_scan_end, spec_monthly_scan_start, spec_tournament_id, spec_tournament_key,
    spec_tournament_scan_end, spec_tournament_scan_start, tournament_key, tournament_scan_range,
};
use crate::store::{
    is_key_listing, is_range_snapshot, lemma_map_values_permutation,
    lemma_range_snapshot_permutation, pairs_view, KeyValueStore,
};
use crate::text::{
    find_char, find_char_in, lemma_lex_irrefl, lemma_lex_trans, lex_le, lex_lt, parse_u32_range,
    push_pad2, push_pad4, spec_pad2, spec_pad4, spec_pad6, spec_parse_u32, str_eq, str_lt,
};
use crate::{MonthlySchedule, RaceEvent, RaceEventView};

verus! {

// ---------------------------------------------------------------------------
// Year-month tags.
// ---------------------------------------------------------------------------

/// What parsing a "YYYY-MM" tag yields: the tag must be exactly two
/// hyphen-separated numbers, the month between 1 and 12, and the combined
/// code must fit a `u32`.
pub open spec fn spec_parse_year_month(s: Seq<char>) -> Option<u32> {
    let i = find_char(s, '-', 0);
    if i == s.len() || find_char(s, '-', i + 1) != s.len() {
        None
    } else {
        match (spec_parse_u32(s.take(i)), spec_parse_u32(s.skip(i + 1))) {
            (Some(y), Some(m)) => {
                if 1 <= m <= 12 && y * 100 + m <= u32::MAX {
                    Some((y * 100 + m) as u32)
                } else {
                    None
                }
            },
            _ => None,
        }
    }
}

/// Parses a "YYYY-MM" tag into its numeric month code, as
/// `spec_parse_year_month` says; anything else is `InvalidValue`.
pub fn parse_year_month(year_month: &str) -> (r: Result<u32, StoreError>)
    ensures
        match spec_parse_year_month(year_month@) {
            Some(v) => r matches Ok(w) && w == v,
            None => r matches Err(e) && e is InvalidValue,
        },
{
    let s = year_month;
    let n = s.unicode_len();
    let i = find_char_in(s, '-', 0);
    proof {
        crate::text::lemma_find_char(s@, '-', 0);
    }
    if i == n {
        return Err(StoreError::InvalidValue);
    }
    let j = find_char_in(s, '-', i + 1);
    proof {
        crate::text::lemma_find_char(s@, '-', i + 1);
    }
    if j != n {
        return Err(StoreError::InvalidValue);
    }
    proof {
        assert(s@.subrange(0, i as int) =~= s@.take(i as int));
        assert(s@.subrange(i + 1, n as int) =~= s@.skip(i + 1));
    }
    let year = match parse_u32_range(s, 0, i) {
        Some(y) => y,
        None => return Err(StoreError::InvalidValue),
    };
    let month = match parse_u32_range(s, i + 1, n) {
        Some(m) => m,
        None => return Err(StoreError::InvalidValue),
    };
    if month < 1 || month > 12 {
        return Err(StoreError::InvalidValue);
    }
    if year > (u32::MAX - 12) / 100 {
        return Err(StoreError::InvalidValue);
    }
    Ok(year * 100 + month)
}

/// The "YYYY-MM" tag of a numeric month code.
pub open spec fn spec_format_year_month(ym: u32) -> Seq<char> {
    spec_pad4((ym / 100) as nat) + seq!['-'] + spec_pad2((ym % 100) as nat)
}

/// Renders a numeric month code as its "YYYY-MM" tag.
pub fn format_year_month(year_month: u32) -> (r: String)
    ensures
        r@ == spec_format_year_month(year_month),
{
    let mut s = String::new();
    push_pad4(&mut s, year_month / 100);
    crate::text::push_char(&mut s, '-');
    push_pad2(&mut s, year_month % 100);
    proof {
        assert(s@ =~= spec_format_year_month(year_month));
    }
    s
}

// ---------------------------------------------------------------------------
// The engine.
// ---------------------------------------------------------------------------

/// The monthly-view entries that writing the first `n` events of a
/// schedule adds, in order; a later event with the same identifier wins.
pub open spec fn schedule_entries(
    m0: Map<Seq<char>, Seq<char>>,
    ym: u32,
    events: Seq<RaceEvent>,
    n: int,
) -> Map<Seq<char>, Seq<char>>
    decreases n,
{
    if n <= 0 {
        m0
    } else {
        schedule_entries(m0, ym, events, n - 1).insert(
            spec_monthly_key(
                ym,
                spec_tournament_id(events[n - 1].venue_name@, events[n - 1].event_name@),
            ),
            event_encoding(events[n - 1]@),
        )
    }
}

/// The monthly-view entries that registering a tournament adds: one per
/// month, `count` months starting at `(y, mo)`, all with the same payload.
pub open spec fn register_entries(
    m0: Map<Seq<char>, Seq<char>>,
    y: int,
    mo: int,
    count: nat,
    gid: Seq<char>,
    enc: Seq<char>,
) -> Map<Seq<char>, Seq<char>>
    decreases count,
{
    if count == 0 {
        m0
    } else {
        register_entries(
            m0.insert(spec_monthly_key((y * 100 + mo) as u32, gid), enc),
            next_month(y, mo).0,
            next_month(y, mo).1,
            (count - 1) as nat,
            gid,
            enc,
        )
    }
}

/// The year and month `k` months after `(y, mo)`.
pub open spec fn month_at(y: int, mo: int, k: nat) -> (int, int)
    decreases k,
{
    if k == 0 {
        (y, mo)
    } else {
        let t = next_month(y, mo);
        month_at(t.0, t.1, (k - 1) as nat)
    }
}

/// The month code `k` months after `(y, mo)`.
pub open spec fn month_code_at(y: int, mo: int, k: nat) -> int {
    month_at(y, mo, k).0 * 100 + month_at(y, mo, k).1
}

/// Counting one more month is one more step.
proof fn lemma_month_at_step(y: int, mo: int, k: nat)
    ensures
        month_at(y, mo, (k + 1) as nat).0 == next_month(month_at(y, mo, k).0, month_at(y, mo, k).1).0,
        month_at(y, mo, (k + 1) as nat).1 == next_month(month_at(y, mo, k).0, month_at(y, mo, k).1).1,
    decreases k,
{
    let t = next_month(y, mo);
    if k == 0 {
        assert(month_at(y, mo, 1).0 == month_at(t.0, t.1, 0).0);
        assert(month_at(y, mo, 1).1 == month_at(t.0, t.1, 0).1);
    } else {
        lemma_month_at_step(t.0, t.1, (k - 1) as nat);
    }
}

/// Months stay in range; the year climbs at most one per month.
proof fn lemma_month_at_wf(y: int, mo: int, k: nat)
    requires
        1 <= mo <= 12,
    ensures
        1 <= month_at(y, mo, k).1 <= 12,
        y <= month_at(y, mo, k).0 <= y + k,
    decreases k,
{
    if k > 0 {
        let t = next_month(y, mo);
        lemma_month_at_wf(t.0, t.1, (k - 1) as nat);
    }
}

/// Month codes strictly increase with the month count.
proof fn lemma_month_code_at_increases(y: int, mo: int, k1: nat, k2: nat)
    requires
        1 <= mo <= 12,
        k1 < k2,
    ensures
        month_code_at(y, mo, k1) < month_code_at(y, mo, k2),
    decreases k2 - k1,
{
    lemma_month_at_wf(y, mo, k1);
    lemma_month_at_step(y, mo, k1);
    if k1 + 1 < k2 {
        lemma_month_code_at_increases(y, mo, (k1 + 1) as nat, k2);
    }
}

/// The entries of `k + 1` months are the entries of the first `k` months
/// plus the last month's.
proof fn lemma_register_entries_snoc(
    m0: Map<Seq<char>, Seq<char>>,
    y: int,
    mo: int,
    k: nat,
    gid: Seq<char>,
    enc: Seq<char>,
)
    ensures
        register_entries(m0, y, mo, (k + 1) as nat, gid, enc) == register_entries(
            m0,
            y,
            mo,
            k,
            gid,
            enc,
        ).insert(spec_monthly_key(month_code_at(y, mo, k) as u32, gid), enc),
    decreases k,
{
    let t = next_month(y, mo);
    let m1 = m0.insert(spec_monthly_key((y * 100 + mo) as u32, gid), enc);
    if k == 0 {
        assert(month_code_at(y, mo, 0) == y * 100 + mo);
        assert(register_entries(m0, y, mo, 1, gid, enc) == register_entries(
            m1,
            t.0,
            t.1,
            0,
            gid,
            enc,
        ));
    } else {
        lemma_register_entries_snoc(m1, t.0, t.1, (k - 1) as nat, gid, enc);
        assert(month_code_at(y, mo, k) == month_code_at(t.0, t.1, (k - 1) as nat));
    }
}

/// Distinct six-digit month codes give distinct monthly keys.
proof fn lemma_monthly_key_distinct(c1: u32, c2: u32, gid: Seq<char>)
    requires
        c1 < c2 < 1000000,
    ensures
        spec_monthly_key(c1, gid) != spec_monthly_key(c2, gid),
{
    lemma_pad6_order(c1 as nat, c2 as nat);
    if spec_monthly_key(c1, gid) == spec_monthly_key(c2, gid) {
        assert forall|j: int| 0 <= j < 6 implies spec_pad6(c1 as nat)[j] == spec_pad6(
            c2 as nat,
        )[j] by {
            assert(spec_monthly_key(c1, gid)[1 + j] == spec_pad6(c1 as nat)[j]);
            assert(spec_monthly_key(c2, gid)[1 + j] == spec_pad6(c2 as nat)[j]);
        }
        assert(spec_pad6(c1 as nat) =~= spec_pad6(c2 as nat));
        lemma_lex_irrefl(spec_pad6(c1 as nat));
        assert(false);
    }
}

/// Whether `key` is one of the monthly keys that a span of `count`
/// months starting at `(y, mo)` writes for `gid`.
pub open spec fn is_span_key(key: Seq<char>, y: int, mo: int, count: nat, gid: Seq<char>) -> bool {
    exists|k: nat|
        k < count && key == spec_monthly_key(#[trigger] month_code_at(y, mo, k) as u32, gid)
}

/// The last month's key of a span differs from every earlier one.
proof fn lemma_span_last_key_fresh(y: int, mo: int, prev: nat, gid: Seq<char>)
    requires
        1 <= mo <= 12,
        0 <= y,
        y + prev + 1 <= 9999,
    ensures
        forall|k: nat|
            k < prev ==> spec_monthly_key(#[trigger] month_code_at(y, mo, k) as u32, gid)
                != spec_monthly_key(month_code_at(y, mo, prev) as u32, gid),
{
    lemma_month_at_wf(y, mo, prev);
    assert forall|k: nat|
        k < prev implies spec_monthly_key(#[trigger] month_code_at(y, mo, k) as u32, gid)
        != spec_monthly_key(month_code_at(y, mo, prev) as u32, gid) by {
        lemma_month_code_at_increases(y, mo, k, prev);
        lemma_month_at_wf(y, mo, k);
        lemma_monthly_key_distinct(
            month_code_at(y, mo, k) as u32,
            month_code_at(y, mo, prev) as u32,
            gid,
        );
    }
}

/// Every month of the span holds the payload.
proof fn lemma_register_entries_contains(
    m0: Map<Seq<char>, Seq<char>>,
    y: int,
    mo: int,
    count: nat,
    gid: Seq<char>,
    enc: Seq<char>,
)
    requires
        1 <= mo <= 12,
        0 <= y,
        y + count <= 9999,
    ensures
        forall|k: nat|
            k < count ==> register_entries(m0, y, mo, count, gid, enc).contains_key(
                spec_monthly_key(#[trigger] month_code_at(y, mo, k) as u32, gid),
            ) && register_entries(m0, y, mo, count, gid, enc)[spec_monthly_key(
                month_code_at(y, mo, k) as u32,
                gid,
            )] == enc,
    decreases count,
{
    if count > 0 {
        let prev = (count - 1) as nat;
        lemma_register_entries_contains(m0, y, mo, prev, gid, enc);
        lemma_register_entries_snoc(m0, y, mo, prev, gid, enc);
        lemma_span_last_key_fresh(y, mo, prev, gid);
        let last = spec_monthly_key(month_code_at(y, mo, prev) as u32, gid);
        let cur = register_entries(m0, y, mo, count, gid, enc);
        let before = register_entries(m0, y, mo, prev, gid, enc);
        assert(cur == before.insert(last, enc));
        assert forall|k: nat|
            k < count implies cur.contains_key(
            spec_monthly_key(#[trigger] month_code_at(y, mo, k) as u32, gid),
        ) && cur[spec_monthly_key(month_code_at(y, mo, k) as u32, gid)] == enc by {
            if k < prev {
                assert(before.contains_key(spec_monthly_key(month_code_at(y, mo, k) as u32, gid)));
                assert(spec_monthly_key(month_code_at(y, mo, k) as u32, gid) != last);
            }
        }
    }
}

/// Keys outside the span keep their old binding.
proof fn lemma_register_entries_frame(
    m0: Map<Seq<char>, Seq<char>>,
    y: int,
    mo: int,
    count: nat,
    gid: Seq<char>,
    enc: Seq<char>,
)
    requires
        1 <= mo <= 12,
        0 <= y,
        y + count <= 9999,
    ensures
        forall|key: Seq<char>|
            #![trigger is_span_key(key, y, mo, count, gid)]
            !is_span_key(key, y, mo, count, gid) ==> register_entries(
                m0,
                y,
                mo,
                count,
                gid,
                enc,
            ).contains_key(key) == m0.contains_key(key) && (m0.contains_key(key)
                ==> register_entries(m0, y, mo, count, gid, enc)[key] == m0[key]),
    decreases count,
{
    if count > 0 {
        let prev = (count - 1) as nat;
        lemma_register_entries_frame(m0, y, mo, prev, gid, enc);
        lemma_register_entries_snoc(m0, y, mo, prev, gid, enc);
        let last = spec_monthly_key(month_code_at(y, mo, prev) as u32, gid);
        let cur = register_entries(m0, y, mo, count, gid, enc);
        let before = register_entries(m0, y, mo, prev, gid, enc);
        assert(cur == before.insert(last, enc));
        assert forall|key: Seq<char>|
            #![trigger is_span_key(key, y, mo, count, gid)]
            !is_span_key(key, y, mo, count, gid) implies cur.contains_key(key)
            == m0.contains_key(key) && (m0.contains_key(key) ==> cur[key] == m0[key]) by {
            assert(key != last) by {
                if key == last {
                    assert(is_span_key(key, y, mo, count, gid));
                }
            }
            assert(!is_span_key(key, y, mo, prev, gid)) by {
                if is_span_key(key, y, mo, prev, gid) {
                    let k = choose|k: nat|
                        k < prev && key == spec_monthly_key(
                            #[trigger] month_code_at(y, mo, k) as u32,
                            gid,
                        );
                    assert(is_span_key(key, y, mo, count, gid));
                }
            }
            assert(cur.contains_key(key) == before.contains_key(key));
            assert(before.contains_key(key) ==> cur[key] == before[key]);
            assert(before.contains_key(key) == m0.contains_key(key));
            assert(m0.contains_key(key) ==> before[key] == m0[key]);
        }
    }
}

/// Registering a tournament writes the identical payload under every
/// month of its span and touches nothing else: within the six-digit key
/// domain the span's month keys are pairwise distinct, each maps to the
/// payload, and every other key keeps its old binding.
pub proof fn lemma_register_entries_effect(
    m0: Map<Seq<char>, Seq<char>>,
    y: int,
    mo: int,
    count: nat,
    gid: Seq<char>,
    enc: Seq<char>,
)
    requires
        1 <= mo <= 12,
        0 <= y,
        y + count <= 9999,
    ensures
        forall|k: nat|
            k < count ==> register_entries(m0, y, mo, count, gid, enc).contains_key(
                spec_monthly_key(#[trigger] month_code_at(y, mo, k) as u32, gid),
            ) && register_entries(m0, y, mo, count, gid, enc)[spec_monthly_key(
                month_code_at(y, mo, k) as u32,
                gid,
            )] == enc,
        forall|key: Seq<char>|
            #![trigger is_span_key(key, y, mo, count, gid)]
            !is_span_key(key, y, mo, count, gid) ==> register_entries(
                m0,
                y,
                mo,
                count,
                gid,
                enc,
            ).contains_key(key) == m0.contains_key(key) && (m0.contains_key(key)
                ==> register_entries(m0, y, mo, count, gid, enc)[key] == m0[key]),
{
    lemma_register_entries_contains(m0, y, mo, count, gid, enc);
    lemma_register_entries_frame(m0, y, mo, count, gid, enc);
}

/// Whether `cur` is `m0` with some prefix of the schedule's entries
/// written: the state a failed multi-event write leaves behind, there
/// being no rollback.
pub open spec fn is_schedule_prefix(
    cur: Map<Seq<char>, Seq<char>>,
    m0: Map<Seq<char>, Seq<char>>,
    ym: u32,
    events: Seq<RaceEvent>,
) -> bool {
    exists|i: int| 0 <= i <= events.len() && cur == schedule_entries(m0, ym, events, i)
}

/// Whether `cur` is `m0` with the first months of a span written: the
/// state a failed multi-month registration leaves behind, there being no
/// rollback.
pub open spec fn is_register_prefix(
    cur: Map<Seq<char>, Seq<char>>,
    m0: Map<Seq<char>, Seq<char>>,
    y: int,
    mo: int,
    count: nat,
    gid: Seq<char>,
    enc: Seq<char>,
) -> bool {
    exists|j: nat| j <= count && cur == register_entries(m0, y, mo, j, gid, enc)
}

/// The encodings of a sequence of events, element for element.
pub open spec fn event_encodings(events: Seq<RaceEvent>) -> Seq<Seq<char>> {
    events.map_values(|e: RaceEvent| event_encoding(e@))
}

/// The values of a sequence of pairs, element for element.
pub open spec fn pair_values(pairs: Seq<(Seq<char>, Seq<char>)>) -> Seq<Seq<char>> {
    pairs.map_values(|p: (Seq<char>, Seq<char>)| p.1)
}

/// Events in ascending start-date order.
pub open spec fn sorted_by_start_date(events: Seq<RaceEvent>) -> bool {
    forall|i: int, j: int|
        0 <= i <= j < events.len() ==> lex_le(events[i].start_date@, events[j].start_date@)
}

/// Pairs in ascending key order.
pub open spec fn sorted_pairs_by_key(pairs: Seq<(String, String)>) -> bool {
    forall|i: int, j: int| 0 <= i <= j < pairs.len() ==> lex_le(pairs[i].0@, pairs[j].0@)
}

/// How a returned monthly schedule relates to the store: some snapshot of
/// the month's range holds, value for value, the encodings of the
/// returned events.
pub open spec fn is_monthly_view(
    events: Seq<RaceEvent>,
    pairs: Seq<(Seq<char>, Seq<char>)>,
    m: Map<Seq<char>, Seq<char>>,
    ym: u32,
) -> bool {
    &&& is_range_snapshot(pairs, m, spec_monthly_scan_start(ym), spec_monthly_scan_end(ym))
    &&& event_encodings(events).to_multiset() == pair_values(pairs).to_multiset()
}

/// Everything a returned monthly schedule promises: the formatted tag,
/// ascending start dates, and a range snapshot carrying the events.
pub open spec fn monthly_schedule_ok(
    sched: MonthlySchedule,
    m: Map<Seq<char>, Seq<char>>,
    ym: u32,
) -> bool {
    &&& sched.year_month@ == spec_format_year_month(ym)
    &&& sorted_by_start_date(sched.events@)
    &&& exists|pairs: Seq<(Seq<char>, Seq<char>)>| is_monthly_view(sched.events@, pairs, m, ym)
}

/// How returned tournament records relate to the store: they are the
/// values of the tournament's range, in ascending key order, which is
/// ascending timestamp order.
pub open spec fn is_tournament_records(
    values: Seq<String>,
    pairs: Seq<(Seq<char>, Seq<char>)>,
    m: Map<Seq<char>, Seq<char>>,
    gid: Seq<char>,
) -> bool {
    &&& is_range_snapshot(pairs, m, spec_tournament_scan_start(gid), spec_tournament_scan_end(gid))
    &&& values.len() == pairs.len()
    &&& forall|i: int| 0 <= i < pairs.len() ==> (#[trigger] values[i])@ == pairs[i].1
    &&& forall|i: int, j: int| 0 <= i <= j < pairs.len() ==> lex_le(pairs[i].0, pairs[j].0)
}

/// Everything a returned record listing promises: some key-sorted range
/// snapshot whose values it holds.
pub open spec fn tournament_records_ok(
    values: Seq<String>,
    m: Map<Seq<char>, Seq<char>>,
    gid: Seq<char>,
) -> bool {
    exists|pairs: Seq<(Seq<char>, Seq<char>)>| is_tournament_records(values, pairs, m, gid)
}

/// Whether `k` is a monthly-view key: it starts with the monthly tag.
pub open spec fn is_monthly_key(k: Seq<char>) -> bool {
    k.len() > 0 && k[0] == 'M'
}

/// Whether `k` is a tournament-data key: it starts with the tournament tag.
pub open spec fn is_tournament_data_key(k: Seq<char>) -> bool {
    k.len() > 0 && k[0] == 'T'
}

/// The NUL-delimited second segment of a key: the tournament identifier
/// of a well-formed monthly key; `None` when the key has no separator.
pub open spec fn key_group(k: Seq<char>) -> Option<Seq<char>> {
    let i = find_char(k, '\0', 0);
    if i == k.len() {
        None
    } else {
        Some(k.subrange(i + 1, find_char(k, '\0', i + 1)))
    }
}

/// The monthly-view keys of the store.
pub open spec fn monthly_key_set(m: Map<Seq<char>, Seq<char>>) -> Set<Seq<char>> {
    m.dom().filter(|k: Seq<char>| is_monthly_key(k))
}

/// The tournament-data keys of the store.
pub open spec fn tournament_key_set(m: Map<Seq<char>, Seq<char>>) -> Set<Seq<char>> {
    m.dom().filter(|k: Seq<char>| is_tournament_data_key(k))
}

/// The identifiers that the monthly view names.  A tournament that only
/// ever wrote timed records is not in it: the count derived from this set
/// is a monthly-view approximation, not a census of all tournaments.
pub open spec fn monthly_group_set(m: Map<Seq<char>, Seq<char>>) -> Set<Seq<char>> {
    Set::new(
        |g: Seq<char>|
            exists|k: Seq<char>| m.contains_key(k) && is_monthly_key(k) && key_group(k) == Some(g),
    )
}

/// What the statistics triple reports of the store contents: the number
/// of monthly-view entries, of distinct identifiers the monthly view
/// names, and of tournament-data entries.
pub open spec fn statistics_ok(st: (usize, usize, usize), m: Map<Seq<char>, Seq<char>>) -> bool {
    &&& st.0 == monthly_key_set(m).len()
    &&& st.1 == monthly_group_set(m).len()
    &&& st.2 == tournament_key_set(m).len()
}

/// The views of the monthly keys among the first `i` listed keys.
pub open spec fn monthly_keys_of(ks: Seq<String>, i: int) -> Seq<Seq<char>>
    decreases i,
{
    if i <= 0 {
        Seq::empty()
    } else if is_monthly_key(ks[i - 1]@) {
        monthly_keys_of(ks, i - 1).push(ks[i - 1]@)
    } else {
        monthly_keys_of(ks, i - 1)
    }
}

/// The views of the tournament-data keys among the first `i` listed keys.
pub open spec fn tournament_keys_of(ks: Seq<String>, i: int) -> Seq<Seq<char>>
    decreases i,
{
    if i <= 0 {
        Seq::empty()
    } else if is_tournament_data_key(ks[i - 1]@) {
        tournament_keys_of(ks, i - 1).push(ks[i - 1]@)
    } else {
        tournament_keys_of(ks, i - 1)
    }
}

/// The distinct identifiers named by the monthly keys among the first
/// `i` listed keys, in order of first appearance.
pub open spec fn groups_of(ks: Seq<String>, i: int) -> Seq<Seq<char>>
    decreases i,
{
    if i <= 0 {
        Seq::empty()
    } else {
        let prev = groups_of(ks, i - 1);
        if is_monthly_key(ks[i - 1]@) {
            match key_group(ks[i - 1]@) {
                Some(g) => if prev.contains(g) {
                    prev
                } else {
                    prev.push(g)
                },
                None => prev,
            }
        } else {
            prev
        }
    }
}

/// Over a listing with distinct keys, `monthly_keys_of` repeats nothing
/// and holds exactly the monthly keys of the prefix.
proof fn lemma_monthly_keys_of(ksv: Seq<String>, i: int)
    requires
        0 <= i <= ksv.len(),
        forall|a: int, b: int| 0 <= a < b < ksv.len() ==> ksv[a]@ != ksv[b]@,
    ensures
        monthly_keys_of(ksv, i).no_duplicates(),
        monthly_keys_of(ksv, i).len() <= i,
        forall|g: Seq<char>|
            #[trigger] monthly_keys_of(ksv, i).contains(g) <==> exists|j: int|
                0 <= j < i && (#[trigger] ksv[j])@ == g && is_monthly_key(g),
    decreases i,
{
    if i > 0 {
        lemma_monthly_keys_of(ksv, i - 1);
        let prev = monthly_keys_of(ksv, i - 1);
        let cur = monthly_keys_of(ksv, i);
        let kv = ksv[i - 1]@;
        if is_monthly_key(kv) {
            assert(!prev.contains(kv)) by {
                if prev.contains(kv) {
                    let j = choose|j: int| 0 <= j < i - 1 && (#[trigger] ksv[j])@ == kv
                        && is_monthly_key(kv);
                    assert(ksv[j]@ != ksv[i - 1]@);
                }
            }
            assert forall|a: int, b: int|
                0 <= a < cur.len() && 0 <= b < cur.len() && a != b implies cur[a] != cur[b] by {
                if a < prev.len() && b < prev.len() {
                    assert(cur[a] == prev[a] && cur[b] == prev[b]);
                } else if a < prev.len() {
                    assert(cur[a] == prev[a] && cur[b] == kv);
                    assert(prev.contains(prev[a]));
                } else {
                    assert(cur[b] == prev[b] && cur[a] == kv);
                    assert(prev.contains(prev[b]));
                }
            }
            assert forall|g: Seq<char>| #[trigger] cur.contains(g) implies exists|j: int|
                0 <= j < i && (#[trigger] ksv[j])@ == g && is_monthly_key(g) by {
                let t = choose|t: int| 0 <= t < cur.len() && cur[t] == g;
                if t < prev.len() {
                    assert(prev[t] == g);
                    assert(prev.contains(g));
                } else {
                    assert(ksv[i - 1]@ == g);
                }
            }
            assert forall|g: Seq<char>|
                (exists|j: int| 0 <= j < i && (#[trigger] ksv[j])@ == g && is_monthly_key(
                    g,
                )) implies #[trigger] cur.contains(g) by {
                let j = choose|j: int| 0 <= j < i && (#[trigger] ksv[j])@ == g && is_monthly_key(g);
                if j < i - 1 {
                    assert(prev.contains(g));
                    let t = choose|t: int| 0 <= t < prev.len() && prev[t] == g;
                    assert(cur[t] == g);
                } else {
                    assert(cur[cur.len() - 1] == g);
                }
            }
        } else {
            assert forall|g: Seq<char>|
                (exists|j: int| 0 <= j < i && (#[trigger] ksv[j])@ == g && is_monthly_key(
                    g,
                )) implies #[trigger] cur.contains(g) by {
                let j = choose|j: int| 0 <= j < i && (#[trigger] ksv[j])@ == g && is_monthly_key(g);
                assert(j != i - 1);
            }
        }
    }
}

/// Over a listing with distinct keys, `tournament_keys_of` repeats
/// nothing and holds exactly the tournament-data keys of the prefix.
proof fn lemma_tournament_keys_of(ksv: Seq<String>, i: int)
    requires
        0 <= i <= ksv.len(),
        forall|a: int, b: int| 0 <= a < b < ksv.len() ==> ksv[a]@ != ksv[b]@,
    ensures
        tournament_keys_of(ksv, i).no_duplicates(),
        tournament_keys_of(ksv, i).len() <= i,
        forall|g: Seq<char>|
            #[trigger] tournament_keys_of(ksv, i).contains(g) <==> exists|j: int|
                0 <= j < i && (#[trigger] ksv[j])@ == g && is_tournament_data_key(g),
    decreases i,
{
    if i > 0 {
        lemma_tournament_keys_of(ksv, i - 1);
        let prev = tournament_keys_of(ksv, i - 1);
        let cur = tournament_keys_of(ksv, i);
        let kv = ksv[i - 1]@;
        if is_tournament_data_key(kv) {
            assert(!prev.contains(kv)) by {
                if prev.contains(kv) {
                    let j = choose|j: int| 0 <= j < i - 1 && (#[trigger] ksv[j])@ == kv
                        && is_tournament_data_key(kv);
                    assert(ksv[j]@ != ksv[i - 1]@);
                }
            }
            assert forall|a: int, b: int|
                0 <= a < cur.len() && 0 <= b < cur.len() && a != b implies cur[a] != cur[b] by {
                if a < prev.len() && b < prev.len() {
                    assert(cur[a] == prev[a] && cur[b] == prev[b]);
                } else if a < prev.len() {
                    assert(cur[a] == prev[a] && cur[b] == kv);
                    assert(prev.contains(prev[a]));
                } else {
                    assert(cur[b] == prev[b] && cur[a] == kv);
                    assert(prev.contains(prev[b]));
                }
            }
            assert forall|g: Seq<char>| #[trigger] cur.contains(g) implies exists|j: int|
                0 <= j < i && (#[trigger] ksv[j])@ == g && is_tournament_data_key(g) by {
                let t = choose|t: int| 0 <= t < cur.len() && cur[t] == g;
                if t < prev.len() {
                    assert(prev[t] == g);
                    assert(prev.contains(g));
                } else {
                    assert(ksv[i - 1]@ == g);
                }
            }
            assert forall|g: Seq<char>|
                (exists|j: int| 0 <= j < i && (#[trigger] ksv[j])@ == g && is_tournament_data_key(
                    g,
                )) implies #[trigger] cur.contains(g) by {
                let j = choose|j: int| 0 <= j < i && (#[trigger] ksv[j])@ == g
                    && is_tournament_data_key(g);
                if j < i - 1 {
                    assert(prev.contains(g));
                    let t = choose|t: int| 0 <= t < prev.len() && prev[t] == g;
                    assert(cur[t] == g);
                } else {
                    assert(cur[cur.len() - 1] == g);
                }
            }
        } else {
            assert forall|g: Seq<char>|
                (exists|j: int| 0 <= j < i && (#[trigger] ksv[j])@ == g && is_tournament_data_key(
                    g,
                )) implies #[trigger] cur.contains(g) by {
                let j = choose|j: int| 0 <= j < i && (#[trigger] ksv[j])@ == g
                    && is_tournament_data_key(g);
                assert(j != i - 1);
            }
        }
    }
}

/// `groups_of` repeats nothing and holds exactly the identifiers that
/// the monthly keys of the prefix name.
proof fn lemma_groups_of(ksv: Seq<String>, i: int)
    requires
        0 <= i <= ksv.len(),
    ensures
        groups_of(ksv, i).no_duplicates(),
        forall|g: Seq<char>|
            #[trigger] groups_of(ksv, i).contains(g) <==> exists|j: int|
                0 <= j < i && is_monthly_key((#[trigger] ksv[j])@) && key_group(ksv[j]@) == Some(g),
    decreases i,
{
    if i > 0 {
        lemma_groups_of(ksv, i - 1);
        let prev = groups_of(ksv, i - 1);
        let cur = groups_of(ksv, i);
        let kv = ksv[i - 1]@;
        if is_monthly_key(kv) && key_group(kv) is Some && !prev.contains(
            key_group(kv).unwrap(),
        ) {
            let g0 = key_group(kv).unwrap();
            assert(cur == prev.push(g0));
            assert forall|a: int, b: int|
                0 <= a < cur.len() && 0 <= b < cur.len() && a != b implies cur[a] != cur[b] by {
                if a < prev.len() && b < prev.len() {
                    assert(cur[a] == prev[a] && cur[b] == prev[b]);
                } else if a < prev.len() {
                    assert(cur[a] == prev[a] && cur[b] == g0);
                    assert(prev.contains(prev[a]));
                } else {
                    assert(cur[b] == prev[b] && cur[a] == g0);
                    assert(prev.contains(prev[b]));
                }
            }
            assert forall|g: Seq<char>| #[trigger] cur.contains(g) implies exists|j: int|
                0 <= j < i && is_monthly_key((#[trigger] ksv[j])@) && key_group(ksv[j]@) == Some(
                g,
            ) by {
                let t = choose|t: int| 0 <= t < cur.len() && cur[t] == g;
                if t < prev.len() {
                    assert(prev[t] == g);
                    assert(prev.contains(g));
                } else {
                    assert(is_monthly_key(ksv[i - 1]@) && key_group(ksv[i - 1]@) == Some(g));
                }
            }
            assert forall|g: Seq<char>|
                (exists|j: int|
                    0 <= j < i && is_monthly_key((#[trigger] ksv[j])@) && key_group(ksv[j]@)
                        == Some(g)) implies #[trigger] cur.contains(g) by {
                let j = choose|j: int|
                    0 <= j < i && is_monthly_key((#[trigger] ksv[j])@) && key_group(ksv[j]@)
                        == Some(g);
                if j < i - 1 {
                    assert(prev.contains(g));
                    let t = choose|t: int| 0 <= t < prev.len() && prev[t] == g;
                    assert(cur[t] == g);
                } else {
                    assert(g == g0);
                    assert(cur[cur.len() - 1] == g);
                }
            }
        } else {
            assert(cur == prev);
            assert forall|g: Seq<char>|
                (exists|j: int|
                    0 <= j < i && is_monthly_key((#[trigger] ksv[j])@) && key_group(ksv[j]@)
                        == Some(g)) implies #[trigger] cur.contains(g) by {
                let j = choose|j: int|
                    0 <= j < i && is_monthly_key((#[trigger] ksv[j])@) && key_group(ksv[j]@)
                        == Some(g);
                if j == i - 1 {
                    assert(prev.contains(g));
                }
            }
        }
    }
}

/// The three listings count exactly what the statistics report.
proof fn lemma_statistics_counts(ksv: Seq<String>, m: Map<Seq<char>, Seq<char>>)
    requires
        is_key_listing(ksv, m),
    ensures
        monthly_keys_of(ksv, ksv.len() as int).len() == monthly_key_set(m).len(),
        tournament_keys_of(ksv, ksv.len() as int).len() == tournament_key_set(m).len(),
        groups_of(ksv, ksv.len() as int).len() == monthly_group_set(m).len(),
{
    let n = ksv.len() as int;
    lemma_monthly_keys_of(ksv, n);
    lemma_tournament_keys_of(ksv, n);
    lemma_groups_of(ksv, n);
    let gm = monthly_keys_of(ksv, n);
    let gt = tournament_keys_of(ksv, n);
    let gs = groups_of(ksv, n);
    assert forall|g: Seq<char>| monthly_key_set(m).contains(g) implies gm.to_set().contains(g) by {
        let j = choose|j: int| 0 <= j < ksv.len() && (#[trigger] ksv[j])@ == g;
        assert(gm.contains(g));
    }
    assert forall|g: Seq<char>| gm.to_set().contains(g) implies monthly_key_set(m).contains(g) by {
        assert(gm.contains(g));
        let j = choose|j: int| 0 <= j < n && (#[trigger] ksv[j])@ == g && is_monthly_key(g);
        assert(m.contains_key(ksv[j]@));
    }
    assert(monthly_key_set(m) =~= gm.to_set());
    gm.unique_seq_to_set();
    assert forall|g: Seq<char>| tournament_key_set(m).contains(g) implies gt.to_set().contains(
        g,
    ) by {
        let j = choose|j: int| 0 <= j < ksv.len() && (#[trigger] ksv[j])@ == g;
        assert(gt.contains(g));
    }
    assert forall|g: Seq<char>| gt.to_set().contains(g) implies tournament_key_set(m).contains(
        g,
    ) by {
        assert(gt.contains(g));
        let j = choose|j: int| 0 <= j < n && (#[trigger] ksv[j])@ == g && is_tournament_data_key(
            g,
        );
        assert(m.contains_key(ksv[j]@));
    }
    assert(tournament_key_set(m) =~= gt.to_set());
    gt.unique_seq_to_set();
    assert forall|g: Seq<char>| monthly_group_set(m).contains(g) implies gs.to_set().contains(
        g,
    ) by {
        let k = choose|k: Seq<char>|
            m.contains_key(k) && is_monthly_key(k) && key_group(k) == Some(g);
        let j = choose|j: int| 0 <= j < ksv.len() && (#[trigger] ksv[j])@ == k;
        assert(gs.contains(g));
    }
    assert forall|g: Seq<char>| gs.to_set().contains(g) implies monthly_group_set(m).contains(
        g,
    ) by {
        assert(gs.contains(g));
        let j = choose|j: int|
            0 <= j < n && is_monthly_key((#[trigger] ksv[j])@) && key_group(ksv[j]@) == Some(g);
        assert(m.contains_key(ksv[j]@));
    }
    assert(monthly_group_set(m) =~= gs.to_set());
    gs.unique_seq_to_set();
}

/// Sorts events by start date, ascending; a permutation of the input.
fn sort_events_by_date(v: Vec<RaceEvent>) -> (r: Vec<RaceEvent>)
    ensures
        r@.to_multiset() == v@.to_multiset(),
        sorted_by_start_date(r@),
{
    broadcast use vstd::seq_lib::group_to_multiset_ensures;

    let mut rest = v;
    let mut out: Vec<RaceEvent> = Vec::new();
    proof {
        assert(out@.to_multiset().add(rest@.to_multiset()) =~= v@.to_multiset());
    }
    while rest.len() > 0
        invariant
            out@.to_multiset().add(rest@.to_multiset()) == v@.to_multiset(),
            sorted_by_start_date(out@),
            forall|t: int, u: int|
                0 <= t < out@.len() && 0 <= u < rest@.len() ==> lex_le(
                    (#[trigger] out@[t]).start_date@,
                    (#[trigger] rest@[u]).start_date@,
                ),
        decreases rest@.len(),
    {
        let mut min_i: usize = 0;
        let mut j: usize = 1;
        proof {
            lemma_lex_irrefl(rest@[0].start_date@);
        }
        while j < rest.len()
            invariant
                rest@.len() > 0,
                min_i < j <= rest@.len(),
                forall|t: int|
                    0 <= t < j ==> lex_le(
                        rest@[min_i as int].start_date@,
                        (#[trigger] rest@[t]).start_date@,
                    ),
            decreases rest@.len() - j,
        {
            if str_lt(rest[j].start_date.as_str(), rest[min_i].start_date.as_str()) {
                proof {
                    assert forall|t: int| 0 <= t < j + 1 implies lex_le(
                        rest@[j as int].start_date@,
                        (#[trigger] rest@[t]).start_date@,
                    ) by {
                        if t < j {
                            if lex_lt(rest@[t].start_date@, rest@[j as int].start_date@) {
                                lemma_lex_trans(
                                    rest@[t].start_date@,
                                    rest@[j as int].start_date@,
                                    rest@[min_i as int].start_date@,
                                );
                            }
                        } else {
                            lemma_lex_irrefl(rest@[j as int].start_date@);
                        }
                    }
                }
                min_i = j;
            }
            j = j + 1;
        }
        let ghost rest0 = rest@;
        let ghost out0 = out@;
        let x = rest.remove(min_i);
        out.push(x);
        proof {
            rest0.to_multiset_ensures();
            out0.to_multiset_ensures();
            assert(rest0[min_i as int] == x);
            assert(rest0.contains(x));
            assert(rest@ =~= rest0.remove(min_i as int));
            assert(rest0.remove(min_i as int).to_multiset() =~= rest0.to_multiset().remove(x));
            assert(rest@.to_multiset() == rest0.to_multiset().remove(x));
            assert(out@ =~= out0.push(x));
            assert(out0.push(x).to_multiset() =~= out0.to_multiset().insert(x));
            assert(out@.to_multiset() == out0.to_multiset().insert(x));
            assert(out@.to_multiset().add(rest@.to_multiset()) =~= out0.to_multiset().add(
                rest0.to_multiset(),
            ));
            assert forall|t: int, u: int|
                0 <= t < out@.len() && 0 <= u < rest@.len() implies lex_le(
                (#[trigger] out@[t]).start_date@,
                (#[trigger] rest@[u]).start_date@,
            ) by {
                let u0 = if u < min_i {
                    u
                } else {
                    u + 1
                };
                assert(rest@[u] == rest0[u0]);
                if t < out0.len() {
                    assert(out@[t] == out0[t]);
                } else {
                    assert(out@[t] == x);
                }
            }
            assert forall|t: int, u: int| 0 <= t <= u < out@.len() implies lex_le(
                (#[trigger] out@[t]).start_date@,
                (#[trigger] out@[u]).start_date@,
            ) by {
                if u == out@.len() - 1 {
                    if t < u {
                        assert(out@[t] == out0[t]);
                        assert(lex_le(out0[t].start_date@, rest0[min_i as int].start_date@));
                    } else {
                        lemma_lex_irrefl(out@[u].start_date@);
                    }
                }
            }
        }
    }
    out
}

/// Sorts key-value pairs by key, ascending; a permutation of the input.
fn sort_pairs_by_key(v: Vec<(String, String)>) -> (r: Vec<(String, String)>)
    ensures
        r@.to_multiset() == v@.to_multiset(),
        sorted_pairs_by_key(r@),
{
    broadcast use vstd::seq_lib::group_to_multiset_ensures;

    let mut rest = v;
    let mut out: Vec<(String, String)> = Vec::new();
    proof {
        assert(out@.to_multiset().add(rest@.to_multiset()) =~= v@.to_multiset());
    }
    while rest.len() > 0
        invariant
            out@.to_multiset().add(rest@.to_multiset()) == v@.to_multiset(),
            sorted_pairs_by_key(out@),
            forall|t: int, u: int|
                0 <= t < out@.len() && 0 <= u < rest@.len() ==> lex_le(
                    (#[trigger] out@[t]).0@,
                    (#[trigger] rest@[u]).0@,
                ),
        decreases rest@.len(),
    {
        let mut min_i: usize = 0;
        let mut j: usize = 1;
        proof {
            lemma_lex_irrefl(rest@[0].0@);
        }
        while j < rest.len()
            invariant
                rest@.len() > 0,
                min_i < j <= rest@.len(),
                forall|t: int|
                    0 <= t < j ==> lex_le(rest@[min_i as int].0@, (#[trigger] rest@[t]).0@),
            decreases rest@.len() - j,
        {
            if str_lt(rest[j].0.as_str(), rest[min_i].0.as_str()) {
                proof {
                    assert forall|t: int| 0 <= t < j + 1 implies lex_le(
                        rest@[j as int].0@,
                        (#[trigger] rest@[t]).0@,
                    ) by {
                        if t < j {
                            if lex_lt(rest@[t].0@, rest@[j as int].0@) {
                                lemma_lex_trans(
                                    rest@[t].0@,
                                    rest@[j as int].0@,
                                    rest@[min_i as int].0@,
                                );
                            }
                        } else {
                            lemma_lex_irrefl(rest@[j as int].0@);
                        }
                    }
                }
                min_i = j;
            }
            j = j + 1;
        }
        let ghost rest0 = rest@;
        let ghost out0 = out@;
        let x = rest.remove(min_i);
        out.push(x);
        proof {
            rest0.to_multiset_ensures();
            out0.to_multiset_ensures();
            assert(rest0[min_i as int] == x);
            assert(rest0.contains(x));
            assert(rest@ =~= rest0.remove(min_i as int));
            assert(rest0.remove(min_i as int).to_multiset() =~= rest0.to_multiset().remove(x));
            assert(rest@.to_multiset() == rest0.to_multiset().remove(x));
            assert(out@ =~= out0.push(x));
            assert(out0.push(x).to_multiset() =~= out0.to_multiset().insert(x));
            assert(out@.to_multiset() == out0.to_multiset().insert(x));
            assert(out@.to_multiset().add(rest@.to_multiset()) =~= out0.to_multiset().add(
                rest0.to_multiset(),
            ));
            assert forall|t: int, u: int|
                0 <= t < out@.len() && 0 <= u < rest@.len() implies lex_le(
                (#[trigger] out@[t]).0@,
                (#[trigger] rest@[u]).0@,
            ) by {
                let u0 = if u < min_i {
                    u
                } else {
                    u + 1
                };
                assert(rest@[u] == rest0[u0]);
                if t < out0.len() {
                    assert(out@[t] == out0[t]);
                } else {
                    assert(out@[t] == x);
                }
            }
            assert forall|t: int, u: int| 0 <= t <= u < out@.len() implies lex_le(
                (#[trigger] out@[t]).0@,
                (#[trigger] out@[u]).0@,
            ) by {
                if u == out@.len() - 1 {
                    if t < u {
                        assert(out@[t] == out0[t]);
                        assert(lex_le(out0[t].0@, rest0[min_i as int].0@));
                    } else {
                        lemma_lex_irrefl(out@[u].0@);
                    }
                }
            }
        }
    }
    out
}

/// A permutation of pairs is a permutation of their views.
proof fn lemma_pairs_view_permutation(a: Seq<(String, String)>, b: Seq<(String, String)>)
    requires
        a.to_multiset() == b.to_multiset(),
    ensures
        pairs_view(a).to_multiset() == pairs_view(b).to_multiset(),
{
    let f = |p: (String, String)| (p.0@, p.1@);
    lemma_map_values_permutation(a, b, f);
    assert(pairs_view(a) =~= a.map_values(f));
    assert(pairs_view(b) =~= b.map_values(f));
}

/// A permutation of events is a permutation of their encodings.
proof fn lemma_event_encodings_permutation(a: Seq<RaceEvent>, b: Seq<RaceEvent>)
    requires
        a.to_multiset() == b.to_multiset(),
    ensures
        event_encodings(a).to_multiset() == event_encodings(b).to_multiset(),
{
    let f = |e: RaceEvent| event_encoding(e@);
    lemma_map_values_permutation(a, b, f);
    assert(event_encodings(a) =~= a.map_values(f));
    assert(event_encodings(b) =~= b.map_values(f));
}

/// Whether `v` is the encoding of some event.
pub open spec fn value_decodable(v: Seq<char>) -> bool {
    exists|ev: RaceEventView| v == event_encoding(ev)
}

/// Whether every scanned value is the encoding of some event.
pub open spec fn all_values_decodable(pairs: Seq<(String, String)>) -> bool {
    forall|i: int| 0 <= i < pairs.len() ==> value_decodable((#[trigger] pairs[i]).1@)
}

/// Turns one month's scanned entries into its schedule: decodes every
/// value, sorts the events by start date ascending, and tags the result
/// with the formatted year-month.  It succeeds exactly when every value
/// decodes; the first value that does not is reported instead.
pub fn assemble_monthly_schedule(pairs: Vec<(String, String)>, year_month: u32) -> (r: Result<
    MonthlySchedule,
    StoreError,
>)
    ensures
        r is Ok <==> all_values_decodable(pairs@),
        r matches Err(e) ==> e is SerializationError,
        r matches Ok(sched) ==> {
            &&& sched.year_month@ == spec_format_year_month(year_month)
            &&& sorted_by_start_date(sched.events@)
            &&& event_encodings(sched.events@).to_multiset() == pair_values(
                pairs_view(pairs@),
            ).to_multiset()
        },
{
    let ghost pv = pairs_view(pairs@);
    let n = pairs.len();
    let mut events: Vec<RaceEvent> = Vec::new();
    let mut i: usize = 0;
    while i < n
        invariant
            i <= n,
            n == pairs@.len(),
            pv == pairs_view(pairs@),
            events@.len() == i,
            forall|t: int| 0 <= t < i ==> event_encoding((#[trigger] events@[t])@) == pv[t].1,
        decreases n - i,
    {
        let e = match decode_event(pairs[i].1.as_str()) {
            Ok(e) => e,
            Err(err) => {
                proof {
                    assert(!value_decodable(pairs@[i as int].1@));
                    assert(!all_values_decodable(pairs@));
                }
                return Err(err);
            },
        };
        events.push(e);
        proof {
            assert(pv[i as int].1 == pairs@[i as int].1@);
        }
        i = i + 1;
    }
    let ghost evs0 = events@;
    proof {
        assert(event_encodings(evs0) =~= pair_values(pv));
        assert forall|t: int| 0 <= t < pairs@.len() implies value_decodable(
            (#[trigger] pairs@[t]).1@,
        ) by {
            assert(event_encoding(evs0[t]@) == pv[t].1);
            assert(pairs@[t].1@ == event_encoding(evs0[t]@));
        }
        assert(all_values_decodable(pairs@));
    }
    let sorted = sort_events_by_date(events);
    proof {
        lemma_event_encodings_permutation(sorted@, evs0);
    }
    let tag = format_year_month(year_month);
    let result = MonthlySchedule { year_month: tag, events: sorted };
    proof {
        assert(result.year_month@ == spec_format_year_month(year_month));
        assert(result.events@ == sorted@);
    }
    Ok(result)
}

/// The engine over a chosen backend.
pub struct BoatRaceEngine<K: KeyValueStore> {
    store: K,
}

impl<K: KeyValueStore> BoatRaceEngine<K> {
    /// The backend the engine holds.
    pub closed spec fn spec_store(&self) -> K {
        self.store
    }

    /// The engine is usable when its backend is well formed.
    pub open spec fn inv(&self) -> bool {
        self.spec_store().inv()
    }

    /// The stored contents.
    pub open spec fn model(&self) -> Map<Seq<char>, Seq<char>> {
        self.spec_store().model()
    }

    /// Wraps a backend.
    pub fn new(store: K) -> (r: BoatRaceEngine<K>)
        ensures
            r.spec_store() == store,
    {
        BoatRaceEngine { store }
    }

    /// A reference to the backend.
    pub fn store(&self) -> (r: &K)
        ensures
            *r == self.spec_store(),
    {
        &self.store
    }

    /// Writes every event of a schedule under the schedule's month: one
    /// entry per event, keyed by the month code and the event's derived
    /// tournament identifier.  There is no rollback: a write that fails
    /// midway leaves a prefix of the events stored, and rerunning it
    /// overwrites the same keys with the same payloads.
    pub fn put_monthly_schedule(&mut self, schedule: &MonthlySchedule) -> (r: Result<
        (),
        StoreError,
    >)
        requires
            old(self).inv(),
        ensures
            final(self).inv(),
            spec_parse_year_month(schedule.year_month@) is None ==> (r matches Err(e)
                && e is InvalidValue && final(self).model() == old(self).model()),
            r is Ok ==> (spec_parse_year_month(schedule.year_month@) matches Some(ym)
                && final(self).model() == schedule_entries(
                old(self).model(),
                ym,
                schedule.events@,
                schedule.events@.len() as int,
            )),
            (spec_parse_year_month(schedule.year_month@) is Some && schedule.events@.len() == 0)
                ==> r is Ok,
            r matches Err(e) ==> e is InvalidValue || e is IoError || e is SerializationError,
            (r matches Err(e) && e is InvalidValue) ==> spec_parse_year_month(
                schedule.year_month@,
            ) is None,
            r is Err ==> (spec_parse_year_month(schedule.year_month@) matches Some(ym2)
                ==> is_schedule_prefix(
                final(self).model(),
                old(self).model(),
                ym2,
                schedule.events@,
            )),
    {
        let ym = match parse_year_month(schedule.year_month.as_str()) {
            Ok(v) => v,
            Err(e) => {
                return Err(e);
            },
        };
        let ghost m0 = self.model();
        let n = schedule.events.len();
        let mut i: usize = 0;
        while i < n
            invariant
                i <= n,
                n == schedule.events@.len(),
                self.inv(),
                spec_parse_year_month(schedule.year_month@) == Some(ym),
                m0 == old(self).model(),
                self.model() == schedule_entries(m0, ym, schedule.events@, i as int),
            decreases n - i,
        {
            let event = &schedule.events[i];
            let tournament_id = generate_tournament_id(
                event.venue_name.as_str(),
                event.event_name.as_str(),
            );
            let key = monthly_key(ym, tournament_id.as_str());
            let value = encode_event(event);
            match self.store.put(key, value) {
                Ok(()) => {},
                Err(e) => {
                    proof {
                        assert(self.model() == schedule_entries(m0, ym, schedule.events@, i as int)
                            || self.model() == schedule_entries(
                            m0,
                            ym,
                            schedule.events@,
                            i + 1,
                        ));
                        assert(is_schedule_prefix(self.model(), m0, ym, schedule.events@));
                    }
                    return Err(e);
                },
            }
            i = i + 1;
        }
        Ok(())
    }

    /// Reads the schedule of a month: scans the month's key range,
    /// decodes every value as an event, and returns the events sorted by
    /// start date ascending (the scan itself promises no order), tagged
    /// with the formatted year-month.
    pub fn get_monthly_schedule(&self, year_month: u32) -> (r: Result<MonthlySchedule, StoreError>)
        requires
            self.inv(),
            year_month < u32::MAX,
        ensures
            r matches Ok(sched) ==> monthly_schedule_ok(sched, self.model(), year_month),
            r matches Err(e) ==> e is IoError || e is SerializationError,
    {
        let (start, end) = monthly_scan_range(year_month);
        let pairs = match self.store.scan(start.as_str(), end.as_str()) {
            Ok(p) => p,
            Err(e) => {
                return Err(e);
            },
        };
        let ghost pv = pairs_view(pairs@);
        let result = match assemble_monthly_schedule(pairs, year_month) {
            Ok(sched) => sched,
            Err(e) => {
                return Err(e);
            },
        };
        proof {
            assert(is_monthly_view(result.events@, pv, self.model(), year_month));
            assert(monthly_schedule_ok(result, self.model(), year_month));
        }
        Ok(result)
    }

    /// Reads every timed record of a tournament, as opaque encoded
    /// values, sorted by key ascending: within one tournament's range the
    /// key order is the timestamp order, so the records come back
    /// chronologically even though the scan promises no order.
    pub fn get_tournament_races(&self, tournament_id: &str) -> (r: Result<Vec<String>, StoreError>)
        requires
            self.inv(),
        ensures
            r matches Ok(vs) ==> tournament_records_ok(vs@, self.model(), tournament_id@),
            r matches Err(e) ==> e is IoError || e is SerializationError,
    {
        let (start, end) = tournament_scan_range(tournament_id);
        let pairs = match self.store.scan(start.as_str(), end.as_str()) {
            Ok(p) => p,
            Err(e) => {
                return Err(e);
            },
        };
        let ghost pv0 = pairs_view(pairs@);
        let sorted = sort_pairs_by_key(pairs);
        let ghost pv = pairs_view(sorted@);
        proof {
            lemma_pairs_view_permutation(sorted@, pairs@);
            lemma_range_snapshot_permutation(
                pv0,
                pv,
                self.model(),
                spec_tournament_scan_start(tournament_id@),
                spec_tournament_scan_end(tournament_id@),
            );
        }
        let n = sorted.len();
        let mut out: Vec<String> = Vec::new();
        let mut i: usize = 0;
        while i < n
            invariant
                i <= n,
                n == sorted@.len(),
                pv == pairs_view(sorted@),
                out@.len() == i,
                forall|t: int| 0 <= t < i ==> (#[trigger] out@[t])@ == pv[t].1,
            decreases n - i,
        {
            out.push(sorted[i].1.clone());
            proof {
                assert(pv[i as int].1 == sorted@[i as int].1@);
            }
            i = i + 1;
        }
        proof {
            assert forall|a: int, b: int| 0 <= a <= b < pv.len() implies lex_le(
                (#[trigger] pv[a]).0,
                (#[trigger] pv[b]).0,
            ) by {
                assert(pv[a].0 == sorted@[a].0@ && pv[b].0 == sorted@[b].0@);
            }
            assert(is_tournament_records(out@, pv, self.model(), tournament_id@));
            assert(tournament_records_ok(out@, self.model(), tournament_id@));
        }
        Ok(out)
    }

    /// Stores one timed record for a tournament, keyed by its identifier
    /// and timestamp.  The payload is an opaque encoded value.
    pub fn put_race_data(&mut self, tournament_id: &str, timestamp: u64, value: &str) -> (r:
        Result<(), StoreError>)
        requires
            old(self).inv(),
        ensures
            final(self).inv(),
            r is Ok ==> final(self).model() == old(self).model().insert(
                spec_tournament_key(tournament_id@, timestamp),
                value@,
            ),
            r matches Err(e) ==> e is IoError || e is SerializationError,
    {
        let key = tournament_key(tournament_id, timestamp);
        self.store.put(key, String::from_str(value))
    }

    /// Reads the timed record stored for a tournament at a timestamp;
    /// `NotFound` when the store has none.
    pub fn get_race_data(&self, tournament_id: &str, timestamp: u64) -> (r: Result<
        String,
        StoreError,
    >)
        requires
            self.inv(),
        ensures
            r matches Ok(v) ==> self.model().contains_key(
                spec_tournament_key(tournament_id@, timestamp),
            ) && self.model()[spec_tournament_key(tournament_id@, timestamp)] == v@,
            (r matches Err(e) && e is NotFound) ==> !self.model().contains_key(
                spec_tournament_key(tournament_id@, timestamp),
            ),
            r matches Err(e) ==> e is NotFound || e is IoError || e is SerializationError,
    {
        let key = tournament_key(tournament_id, timestamp);
        match self.store.get(key.as_str()) {
            Ok(Some(v)) => Ok(v),
            Ok(None) => Err(StoreError::NotFound),
            Err(e) => Err(e),
        }
    }

    /// Counts the store's contents: the monthly-view entries, the
    /// distinct tournament identifiers that the monthly view names, and
    /// the tournament-data entries.
    pub fn get_statistics(&self) -> (r: Result<(usize, usize, usize), StoreError>)
        requires
            self.inv(),
        ensures
            r matches Ok(st) ==> statistics_ok(st, self.model()),
            r matches Err(e) ==> e is IoError || e is SerializationError,
    {
        let ks = match self.store.keys() {
            Ok(k) => k,
            Err(e) => {
                return Err(e);
            },
        };
        let ghost m = self.model();
        let n = ks.len();
        let mut monthly: usize = 0;
        let mut tournament: usize = 0;
        let mut groups: Vec<String> = Vec::new();
        let mut i: usize = 0;
        while i < n
            invariant
                i <= n,
                n == ks@.len(),
                is_key_listing(ks@, m),
                monthly <= i,
                tournament <= i,
                monthly == monthly_keys_of(ks@, i as int).len(),
                tournament == tournament_keys_of(ks@, i as int).len(),
                groups@.map_values(|s: String| s@) == groups_of(ks@, i as int),
            decreases n - i,
        {
            let ghost kv = ks@[i as int]@;
            let ghost groups0 = groups@;
            let klen = ks[i].as_str().unicode_len();
            if klen > 0 {
                let c0 = ks[i].as_str().get_char(0);
                if c0 == 'M' {
                    proof {
                        assert(is_monthly_key(kv));
                        assert(monthly_keys_of(ks@, i + 1) == monthly_keys_of(ks@, i as int).push(
                            kv,
                        ));
                        assert(tournament_keys_of(ks@, i + 1) == tournament_keys_of(
                            ks@,
                            i as int,
                        ));
                    }
                    monthly = monthly + 1;
                    let p1 = find_char_in(ks[i].as_str(), '\0', 0);
                    proof {
                        crate::text::lemma_find_char(kv, '\0', 0);
                    }
                    if p1 < klen {
                        let p2 = find_char_in(ks[i].as_str(), '\0', p1 + 1);
                        proof {
                            crate::text::lemma_find_char(kv, '\0', p1 + 1);
                        }
                        let seg = ks[i].as_str().substring_char(p1 + 1, p2);
                        proof {
                            assert(key_group(kv) == Some(seg@));
                        }
                        let glen = groups.len();
                        let mut found = false;
                        let mut t: usize = 0;
                        while t < glen
                            invariant
                                t <= glen,
                                glen == groups@.len(),
                                found <==> exists|u: int|
                                    0 <= u < t && (#[trigger] groups@[u])@ == seg@,
                            decreases glen - t,
                        {
                            if str_eq(groups[t].as_str(), seg) {
                                found = true;
                            }
                            t = t + 1;
                        }
                        proof {
                            let gview = groups0.map_values(|s: String| s@);
                            if found {
                                let u = choose|u: int|
                                    0 <= u < groups0.len() && (#[trigger] groups0[u])@ == seg@;
                                assert(gview[u] == seg@);
                                assert(gview.contains(seg@));
                            } else {
                                assert(!gview.contains(seg@)) by {
                                    if gview.contains(seg@) {
                                        let u = choose|u: int|
                                            0 <= u < gview.len() && gview[u] == seg@;
                                        assert(groups0[u]@ == seg@);
                                    }
                                }
                            }
                        }
                        if !found {
                            groups.push(String::from_str(seg));
                            proof {
                                assert(groups@.map_values(|s: String| s@) =~= groups_of(
                                    ks@,
                                    i + 1,
                                ));
                            }
                        } else {
                            proof {
                                assert(groups@.map_values(|s: String| s@) =~= groups_of(
                                    ks@,
                                    i + 1,
                                ));
                            }
                        }
                    } else {
                        proof {
                            assert(key_group(kv) is None);
                            assert(groups@.map_values(|s: String| s@) =~= groups_of(ks@, i + 1));
                        }
                    }
                } else if c0 == 'T' {
                    proof {
                        assert(is_tournament_data_key(kv));
                        assert(!is_monthly_key(kv));
                        assert(tournament_keys_of(ks@, i + 1) == tournament_keys_of(
                            ks@,
                            i as int,
                        ).push(kv));
                        assert(groups@.map_values(|s: String| s@) =~= groups_of(ks@, i + 1));
                    }
                    tournament = tournament + 1;
                } else {
                    proof {
                        assert(!is_monthly_key(kv) && !is_tournament_data_key(kv));
                        assert(groups@.map_values(|s: String| s@) =~= groups_of(ks@, i + 1));
                    }
                }
            } else {
                proof {
                    assert(!is_monthly_key(kv) && !is_tournament_data_key(kv));
                    assert(groups@.map_values(|s: String| s@) =~= groups_of(ks@, i + 1));
                }
            }
            i = i + 1;
        }
        let ngroups = groups.len();
        proof {
            lemma_statistics_counts(ks@, m);
            assert(groups@.map_values(|s: String| s@).len() == groups@.len());
            assert(statistics_ok((monthly, ngroups, tournament), m));
        }
        Ok((monthly, ngroups, tournament))
    }

    /// Registers a tournament under every month it touches: from its
    /// start month through the month its last day falls in, one entry per
    /// month, each carrying the same full payload.  An unparseable start
    /// date, or an end past the supported calendar range, is
    /// `InvalidValue`.  There is no rollback: a registration that fails
    /// midway leaves a prefix of the months written, and rerunning it
    /// overwrites the same keys with the same payload.
    #[verifier::rlimit(50)]
    pub fn register_tournament_to_months(&mut self, tournament: &RaceEvent) -> (r: Result<
        (),
        StoreError,
    >)
        requires
            old(self).inv(),
        ensures
            final(self).inv(),
            parsed_date(tournament.start_date@) is None ==> (r matches Err(e) && e is InvalidValue
                && final(self).model() == old(self).model()),
            r is Ok ==> (parsed_date(tournament.start_date@) matches Some(pd) && (
            if tournament.duration_days == 0 {
                final(self).model() == old(self).model()
            } else {
                {
                    let end = date_plus(
                        pd.0 as int,
                        pd.1 as int,
                        pd.2 as int,
                        (tournament.duration_days - 1) as nat,
                    );
                    &&& pd.0 >= 0
                    &&& end.0 <= MAX_DATE_YEAR
                    &&& final(self).model() == register_entries(
                        old(self).model(),
                        pd.0 as int,
                        pd.1 as int,
                        ((end.0 - pd.0) * 12 + end.1 - pd.1 + 1) as nat,
                        spec_tournament_id(tournament.venue_name@, tournament.event_name@),
                        event_encoding(tournament@),
                    )
                }
            })),
            (parsed_date(tournament.start_date@) matches Some(pd) && pd.0 < 0) ==> (r matches Err(
                e,
            ) && e is InvalidValue && final(self).model() == old(self).model()),
            (parsed_date(tournament.start_date@) matches Some(pd) && pd.0 >= 0
                && tournament.duration_days >= 1 && date_plus(
                pd.0 as int,
                pd.1 as int,
                pd.2 as int,
                (tournament.duration_days - 1) as nat,
            ).0 > MAX_DATE_YEAR) ==> (r matches Err(e) && e is InvalidValue && final(self).model()
                == old(self).model()),
            r matches Err(e) ==> e is InvalidValue || e is IoError || e is SerializationError,
            (r matches Err(e) && e is InvalidValue) ==> match parsed_date(
                tournament.start_date@,
            ) {
                None => true,
                Some(pd) => pd.0 < 0 || (tournament.duration_days >= 1 && date_plus(
                    pd.0 as int,
                    pd.1 as int,
                    pd.2 as int,
                    (tournament.duration_days - 1) as nat,
                ).0 > MAX_DATE_YEAR),
            },
            r is Err ==> (parsed_date(tournament.start_date@) matches Some(pd) ==> ((pd.0 >= 0
                && tournament.duration_days >= 1 && date_plus(
                pd.0 as int,
                pd.1 as int,
                pd.2 as int,
                (tournament.duration_days - 1) as nat,
            ).0 <= MAX_DATE_YEAR) ==> is_register_prefix(
                final(self).model(),
                old(self).model(),
                pd.0 as int,
                pd.1 as int,
                ((date_plus(
                    pd.0 as int,
                    pd.1 as int,
                    pd.2 as int,
                    (tournament.duration_days - 1) as nat,
                ).0 - pd.0) * 12 + date_plus(
                    pd.0 as int,
                    pd.1 as int,
                    pd.2 as int,
                    (tournament.duration_days - 1) as nat,
                ).1 - pd.1 + 1) as nat,
                spec_tournament_id(tournament.venue_name@, tournament.event_name@),
                event_encoding(tournament@),
            ))),
    {
        let pd = parse_date(tournament.start_date.as_str());
        let (y0, m0, d0) = match pd {
            Some(x) => x,
            None => {
                return Err(StoreError::InvalidValue);
            },
        };
        if y0 < 0 {
            return Err(StoreError::InvalidValue);
        }
        if tournament.duration_days == 0 {
            return Ok(());
        }
        let em = end_month(y0, m0, d0, tournament.duration_days - 1);
        let (ye, me) = match em {
            Some(x) => x,
            None => {
                return Err(StoreError::InvalidValue);
            },
        };
        proof {
            crate::calendar::lemma_date_plus_months_le(
                y0 as int,
                m0 as int,
                d0 as int,
                (tournament.duration_days - 1) as nat,
            );
            crate::calendar::lemma_date_plus_wf(
                y0 as int,
                m0 as int,
                d0 as int,
                (tournament.duration_days - 1) as nat,
            );
        }
        let count_wide: i64 = (ye as i64 - y0 as i64) * 12 + (me as i64 - m0 as i64) + 1;
        let count: u32 = count_wide as u32;
        proof {
            assert(1 <= count_wide <= 0x400000);
            assert(count == count_wide);
        }
        let tournament_id = generate_tournament_id(
            tournament.venue_name.as_str(),
            tournament.event_name.as_str(),
        );
        let enc = encode_event(tournament);
        let ghost orig = self.model();
        let ghost gid = spec_tournament_id(tournament.venue_name@, tournament.event_name@);
        let mut y = y0;
        let mut m = m0;
        let mut k: u32 = 0;
        while k < count
            invariant
                self.inv(),
                k <= count,
                0 <= y0 <= y,
                1 <= m <= 12,
                1 <= me <= 12,
                (ye - y) * 12 + (me - m) + 1 == count - k,
                ye <= MAX_DATE_YEAR,
                parsed_date(tournament.start_date@) == Some((y0, m0, d0)),
                tournament.duration_days >= 1,
                ye as int == date_plus(
                    y0 as int,
                    m0 as int,
                    d0 as int,
                    (tournament.duration_days - 1) as nat,
                ).0,
                me as int == date_plus(
                    y0 as int,
                    m0 as int,
                    d0 as int,
                    (tournament.duration_days - 1) as nat,
                ).1,
                count == (ye - y0) * 12 + (me - m0) + 1,
                1 <= m0 <= 12,
                orig == old(self).model(),
                gid == spec_tournament_id(tournament.venue_name@, tournament.event_name@),
                tournament_id@ == gid,
                enc@ == event_encoding(tournament@),
                y as int == month_at(y0 as int, m0 as int, k as nat).0,
                m as int == month_at(y0 as int, m0 as int, k as nat).1,
                self.model() == register_entries(orig, y0 as int, m0 as int, k as nat, gid, enc@),
            decreases count - k,
        {
            proof {
                assert(y <= ye);
            }
            let code: u32 = (y as u32) * 100 + m;
            let key = monthly_key(code, tournament_id.as_str());
            let value = enc.clone();
            proof {
                lemma_register_entries_snoc(orig, y0 as int, m0 as int, k as nat, gid, enc@);
                assert(month_code_at(y0 as int, m0 as int, k as nat) == (y as int) * 100 + (
                m as int));
                assert(spec_monthly_key(code, gid) == spec_monthly_key(
                    month_code_at(y0 as int, m0 as int, k as nat) as u32,
                    gid,
                ));
            }
            match self.store.put(key, value) {
                Ok(()) => {},
                Err(e) => {
                    proof {
                        assert(self.model() == register_entries(
                            orig,
                            y0 as int,
                            m0 as int,
                            k as nat,
                            gid,
                            enc@,
                        ) || self.model() == register_entries(
                            orig,
                            y0 as int,
                            m0 as int,
                            (k + 1) as nat,
                            gid,
                            enc@,
                        ));
                        assert(is_register_prefix(
                            self.model(),
                            orig,
                            y0 as int,
                            m0 as int,
                            count as nat,
                            gid,
                            enc@,
                        ));
                    }
                    return Err(e);
                },
            }
            proof {
                lemma_month_at_step(y0 as int, m0 as int, k as nat);
            }
            if m == 12 {
                y = y + 1;
                m = 1;
            } else {
                m = m + 1;
            }
            k = k + 1;
        }
        Ok(())
    }
}

} // verus!
