//! The key codec: how records are mapped into the flat key space.
//!
//! Two key families share one ordered namespace:
//! - monthly view:  `M` + six-digit year-month + NUL + tournament id;
//! - tournament data: `T` + tournament id + NUL + sixteen hex digits of a
//!   timestamp.
//!
//! The fixed-width, zero-padded number encodings make lexicographic key
//! order agree with numeric order, so both views are served by plain range
//! scans.

use vstd::prelude::*;
use vstd::utf8::encode_utf8;

use crate::text::{
    digit_char, hex_char, lemma_digit_char_val, lemma_lex_append, lemma_lex_at, lemma_lex_prefix,
    lemma_lex_prefix_le, lex_le, lex_lt, push_hex16, push_pad6, spec_hex16, spec_pad6,
};

verus! {

// ---------------------------------------------------------------------------
// Key shapes.
// ---------------------------------------------------------------------------

/// The monthly-view key for `tournament_id` under the month `year_month`.
pub open spec fn spec_monthly_key(year_month: u32, tournament_id: Seq<char>) -> Seq<char> {
    seq!['M'] + spec_pad6(year_month as nat) + seq!['\0'] + tournament_id
}

/// The tournament-data key for `tournament_id` at `timestamp`.
pub open spec fn spec_tournament_key(tournament_id: Seq<char>, timestamp: u64) -> Seq<char> {
    seq!['T'] + tournament_id + seq!['\0'] + spec_hex16(timestamp)
}

/// The lower bound of the monthly scan range.
pub open spec fn spec_monthly_scan_start(year_month: u32) -> Seq<char> {
    seq!['M'] + spec_pad6(year_month as nat)
}

/// The upper bound of the monthly scan range: the tag of the next month
/// code, which bounds the range from above without naming a real key.
pub open spec fn spec_monthly_scan_end(year_month: u32) -> Seq<char>
    recommends
        year_month < u32::MAX,
{
    seq!['M'] + spec_pad6((year_month + 1) as nat)
}

/// The lower bound of the tournament scan range.
pub open spec fn spec_tournament_scan_start(tournament_id: Seq<char>) -> Seq<char> {
    seq!['T'] + tournament_id + seq!['\0']
}

/// The upper bound of the tournament scan range: the separator raised by
/// one, which follows every key of the tournament and precedes every key
/// of any other.
pub open spec fn spec_tournament_scan_end(tournament_id: Seq<char>) -> Seq<char> {
    seq!['T'] + tournament_id + seq!['\u{1}']
}

/// Builds the monthly-view key `M<year_month, six digits><NUL><tournament_id>`.
pub fn monthly_key(year_month: u32, tournament_id: &str) -> (r: String)
    ensures
        r@ == spec_monthly_key(year_month, tournament_id@),
        r@.len() > 0,
{
    let mut s = String::new();
    crate::text::push_char(&mut s, 'M');
    push_pad6(&mut s, year_month);
    crate::text::push_char(&mut s, '\0');
    s.append(tournament_id);
    proof {
        assert(s@ =~= spec_monthly_key(year_month, tournament_id@));
    }
    s
}

/// Builds the tournament-data key `T<tournament_id><NUL><timestamp, 16 hex digits>`.
pub fn tournament_key(tournament_id: &str, timestamp: u64) -> (r: String)
    ensures
        r@ == spec_tournament_key(tournament_id@, timestamp),
        r@.len() > 0,
{
    let mut s = String::new();
    crate::text::push_char(&mut s, 'T');
    s.append(tournament_id);
    crate::text::push_char(&mut s, '\0');
    push_hex16(&mut s, timestamp);
    proof {
        assert(s@ =~= spec_tournament_key(tournament_id@, timestamp));
    }
    s
}

/// The half-open scan range that covers exactly the monthly-view keys of
/// `year_month`.
pub fn monthly_scan_range(year_month: u32) -> (r: (String, String))
    requires
        year_month < u32::MAX,
    ensures
        r.0@ == spec_monthly_scan_start(year_month),
        r.1@ == spec_monthly_scan_end(year_month),
        r.0@.len() > 0,
        r.1@.len() > 0,
{
    let mut start = String::new();
    crate::text::push_char(&mut start, 'M');
    push_pad6(&mut start, year_month);
    let mut end = String::new();
    crate::text::push_char(&mut end, 'M');
    push_pad6(&mut end, year_month + 1);
    proof {
        assert(start@ =~= spec_monthly_scan_start(year_month));
        assert(end@ =~= spec_monthly_scan_end(year_month));
    }
    (start, end)
}

/// The half-open scan range that covers exactly the tournament-data keys
/// of `tournament_id`.
pub fn tournament_scan_range(tournament_id: &str) -> (r: (String, String))
    ensures
        r.0@ == spec_tournament_scan_start(tournament_id@),
        r.1@ == spec_tournament_scan_end(tournament_id@),
        r.0@.len() > 0,
        r.1@.len() > 0,
{
    let mut start = String::new();
    crate::text::push_char(&mut start, 'T');
    start.append(tournament_id);
    crate::text::push_char(&mut start, '\0');
    let mut end = String::new();
    crate::text::push_char(&mut end, 'T');
    end.append(tournament_id);
    crate::text::push_char(&mut end, '\u{1}');
    proof {
        assert(start@ =~= spec_tournament_scan_start(tournament_id@));
        assert(end@ =~= spec_tournament_scan_end(tournament_id@));
    }
    (start, end)
}

// ---------------------------------------------------------------------------
// Tournament identifiers.
// ---------------------------------------------------------------------------

/// Whether `c` survives the ASCII filter: letters, digits and spaces.
pub open spec fn id_keeps(c: char) -> bool {
    (97 <= c as u32 <= 122) || (65 <= c as u32 <= 90) || (48 <= c as u32 <= 57) || c == ' '
}

/// What a kept character contributes: letters fold to lower case, a
/// space becomes an underscore.
pub open spec fn id_norm(c: char) -> char
    recommends
        id_keeps(c),
{
    if c == ' ' {
        '_'
    } else if 65 <= c as u32 <= 90 {
        ((c as u32 + 32) as u8) as char
    } else {
        c
    }
}

/// The ASCII-retained fragment of a name: kept characters, normalized, in
/// order; everything else dropped.
pub open spec fn ascii_fragment(s: Seq<char>) -> Seq<char>
    decreases s.len(),
{
    if s.len() == 0 {
        Seq::empty()
    } else if id_keeps(s.last()) {
        ascii_fragment(s.drop_last()).push(id_norm(s.last()))
    } else {
        ascii_fragment(s.drop_last())
    }
}

/// The length in bytes of a string with these characters, as `str::len`
/// reports it.
pub open spec fn spec_byte_len(s: Seq<char>) -> nat {
    encode_utf8(s).len() as usize as nat
}

/// One half of an identifier: the ASCII fragment when it has more than two
/// characters, else the domain word followed by the name's length in
/// bytes.  The byte count makes the fallback reproducible across
/// encodings.
pub open spec fn spec_id_part(s: Seq<char>, fallback: Seq<char>) -> Seq<char> {
    if ascii_fragment(s).len() > 2 {
        ascii_fragment(s)
    } else {
        fallback + crate::text::spec_dec_digits(spec_byte_len(s))
    }
}

/// Collapses every run of underscores to a single one and drops them at
/// both ends: an underscore is emitted only between two kept characters.
pub open spec fn squash_rec(s: Seq<char>, started: bool, pending: bool) -> Seq<char>
    decreases s.len(),
{
    if s.len() == 0 {
        Seq::empty()
    } else if s[0] == '_' {
        squash_rec(s.drop_first(), started, true)
    } else if started && pending {
        seq!['_', s[0]] + squash_rec(s.drop_first(), true, false)
    } else {
        seq![s[0]] + squash_rec(s.drop_first(), true, false)
    }
}

/// `squash_rec` from its initial state.
pub open spec fn spec_squash(s: Seq<char>) -> Seq<char> {
    squash_rec(s, false, false)
}

/// The tournament identifier derived from a venue name and an event name.
pub open spec fn spec_tournament_id(venue_name: Seq<char>, event_name: Seq<char>) -> Seq<char> {
    spec_squash(
        spec_id_part(venue_name, ("venue_")@) + seq!['_'] + spec_id_part(event_name, ("event_")@),
    )
}

/// Builds the ASCII-retained fragment of `s`.
fn ascii_fragment_of(s: &str) -> (r: String)
    ensures
        r@ == ascii_fragment(s@),
{
    let n = s.unicode_len();
    let mut r = String::new();
    let mut i: usize = 0;
    while i < n
        invariant
            i <= n,
            n == s@.len(),
            r@ == ascii_fragment(s@.take(i as int)),
        decreases n - i,
    {
        let c = s.get_char(i);
        let cv = c as u32;
        proof {
            assert(s@.take(i + 1).drop_last() =~= s@.take(i as int));
            assert(s@.take(i + 1).last() == s@[i as int]);
        }
        if 97 <= cv && cv <= 122 {
            crate::text::push_char(&mut r, c);
        } else if 65 <= cv && cv <= 90 {
            crate::text::push_char(&mut r, ((c as u8) + 32) as char);
        } else if 48 <= cv && cv <= 57 {
            crate::text::push_char(&mut r, c);
        } else if c == ' ' {
            crate::text::push_char(&mut r, '_');
        }
        i = i + 1;
    }
    proof {
        assert(s@.take(n as int) =~= s@);
    }
    r
}

/// Builds one identifier half from a name and its fallback domain word.
fn id_part(s: &str, fallback: &str) -> (r: String)
    ensures
        r@ == spec_id_part(s@, fallback@),
{
    let frag = ascii_fragment_of(s);
    if frag.unicode_len() > 2 {
        frag
    } else {
        let mut r = String::from_str(fallback);
        crate::text::push_dec(&mut r, s.len() as u64);
        r
    }
}

/// Collapses and trims underscores, as `spec_squash` says.
fn squash(s: &str) -> (r: String)
    ensures
        r@ == spec_squash(s@),
{
    let n = s.unicode_len();
    let mut r = String::new();
    let mut pending = false;
    let mut started = false;
    let mut i: usize = 0;
    proof {
        assert(s@.skip(0) =~= s@);
    }
    while i < n
        invariant
            i <= n,
            n == s@.len(),
            spec_squash(s@) == r@ + squash_rec(s@.skip(i as int), started, pending),
        decreases n - i,
    {
        let c = s.get_char(i);
        proof {
            assert(s@.skip(i as int).drop_first() =~= s@.skip(i + 1));
            assert(s@.skip(i as int)[0] == s@[i as int]);
        }
        if c == '_' {
            pending = true;
        } else {
            let ghost tail = squash_rec(s@.skip(i + 1), true, false);
            if started && pending {
                crate::text::push_char(&mut r, '_');
                crate::text::push_char(&mut r, c);
                proof {
                    assert(spec_squash(s@) =~= r@ + tail);
                }
            } else {
                crate::text::push_char(&mut r, c);
                proof {
                    assert(spec_squash(s@) =~= r@ + tail);
                }
            }
            started = true;
            pending = false;
        }
        i = i + 1;
    }
    proof {
        assert(s@.skip(n as int) =~= Seq::<char>::empty());
        assert(r@ + Seq::<char>::empty() =~= r@);
    }
    r
}

/// Derives the tournament identifier for a venue/event name pair: the two
/// ASCII-retained fragments (or their byte-length fallbacks), joined by an
/// underscore, with underscore runs collapsed and ends trimmed.
pub fn generate_tournament_id(venue_name: &str, event_name: &str) -> (r: String)
    ensures
        r@ == spec_tournament_id(venue_name@, event_name@),
{
    let vp = id_part(venue_name, "venue_");
    let ep = id_part(event_name, "event_");
    let mut combined = vp;
    combined.append("_");
    combined.append(ep.as_str());
    proof {
        reveal_strlit("_");
        assert(combined@ =~= spec_id_part(venue_name@, ("venue_")@) + seq!['_'] + spec_id_part(
            event_name@,
            ("event_")@,
        ));
    }
    squash(combined.as_str())
}

// ---------------------------------------------------------------------------
// Order laws of the key encodings.
// ---------------------------------------------------------------------------

/// Distinct decimal digits order their characters the same way.
proof fn lemma_digit_lt(d: nat, e: nat)
    requires
        d < e < 10,
    ensures
        digit_char(d) != digit_char(e),
        (digit_char(d) as u32) < (digit_char(e) as u32),
{
    lemma_digit_char_val(d);
    lemma_digit_char_val(e);
}

/// Splitting off the last digit of `x / c` (with `c * 10` the next larger
/// power of ten).
proof fn lemma_digit_split(x: nat, c: nat)
    requires
        0 < c,
    ensures
        x / c == (x / (c * 10)) * 10 + x / c % 10,
{
    vstd::arithmetic::div_mod::lemma_div_denominator(x as int, c as int, 10);
    vstd::arithmetic::div_mod::lemma_fundamental_div_mod((x / c) as int, 10);
}

/// Six-digit zero padding turns numeric order into lexicographic order.
pub proof fn lemma_pad6_order(m: nat, n: nat)
    requires
        m < n < 1000000,
    ensures
        lex_lt(spec_pad6(m), spec_pad6(n)),
{
    let a = spec_pad6(m);
    let b = spec_pad6(n);
    vstd::arithmetic::div_mod::lemma_div_is_ordered(m as int, n as int, 100000);
    vstd::arithmetic::div_mod::lemma_div_is_ordered(m as int, n as int, 10000);
    vstd::arithmetic::div_mod::lemma_div_is_ordered(m as int, n as int, 1000);
    vstd::arithmetic::div_mod::lemma_div_is_ordered(m as int, n as int, 100);
    vstd::arithmetic::div_mod::lemma_div_is_ordered(m as int, n as int, 10);
    lemma_digit_split(m, 10000);
    lemma_digit_split(n, 10000);
    lemma_digit_split(m, 1000);
    lemma_digit_split(n, 1000);
    lemma_digit_split(m, 100);
    lemma_digit_split(n, 100);
    lemma_digit_split(m, 10);
    lemma_digit_split(n, 10);
    lemma_digit_split(m, 1);
    lemma_digit_split(n, 1);
    if m / 100000 != n / 100000 {
        lemma_digit_lt(m / 100000, n / 100000);
        lemma_lex_at(a, b, 0);
    } else if m / 10000 % 10 != n / 10000 % 10 {
        lemma_digit_lt(m / 10000 % 10, n / 10000 % 10);
        lemma_lex_at(a, b, 1);
    } else if m / 1000 % 10 != n / 1000 % 10 {
        lemma_digit_lt(m / 1000 % 10, n / 1000 % 10);
        lemma_lex_at(a, b, 2);
    } else if m / 100 % 10 != n / 100 % 10 {
        lemma_digit_lt(m / 100 % 10, n / 100 % 10);
        lemma_lex_at(a, b, 3);
    } else if m / 10 % 10 != n / 10 % 10 {
        lemma_digit_lt(m / 10 % 10, n / 10 % 10);
        lemma_lex_at(a, b, 4);
    } else {
        assert(m % 10 < n % 10);
        lemma_digit_lt(m % 10, n % 10);
        lemma_lex_at(a, b, 5);
    }
}

/// Distinct hexadecimal digits order their characters the same way.
proof fn lemma_hex_digit_lt(d: nat, e: nat)
    requires
        d < e < 16,
    ensures
        hex_char(d) != hex_char(e),
        (hex_char(d) as u32) < (hex_char(e) as u32),
{
    if d < 10 {
        lemma_digit_char_val(d);
    }
    if e < 10 {
        lemma_digit_char_val(e);
    }
}

/// Splitting off a hexadecimal digit of `x / c` (with `c * 16` the next
/// larger power of sixteen).
proof fn lemma_hex_split(x: nat, c: nat)
    requires
        0 < c,
    ensures
        x / c == (x / (c * 16)) * 16 + x / c % 16,
{
    vstd::arithmetic::div_mod::lemma_div_denominator(x as int, c as int, 16);
    vstd::arithmetic::div_mod::lemma_fundamental_div_mod((x / c) as int, 16);
}

/// Sixteen-digit zero-padded hexadecimal turns numeric order into
/// lexicographic order: the invariant that lets timestamp-suffixed keys
/// sort chronologically.
#[verifier::rlimit(100)]
#[verifier::spinoff_prover]
pub proof fn lemma_hex16_order(m: u64, n: u64)
    requires
        m < n,
    ensures
        lex_lt(spec_hex16(m), spec_hex16(n)),
{
    let a = spec_hex16(m);
    let b = spec_hex16(n);
    vstd::arithmetic::div_mod::lemma_div_is_ordered(m as int, n as int, 0x1000000000000000);
    vstd::arithmetic::div_mod::lemma_div_is_ordered(m as int, n as int, 0x100000000000000);
    vstd::arithmetic::div_mod::lemma_div_is_ordered(m as int, n as int, 0x10000000000000);
    vstd::arithmetic::div_mod::lemma_div_is_ordered(m as int, n as int, 0x1000000000000);
    vstd::arithmetic::div_mod::lemma_div_is_ordered(m as int, n as int, 0x100000000000);
    vstd::arithmetic::div_mod::lemma_div_is_ordered(m as int, n as int, 0x10000000000);
    vstd::arithmetic::div_mod::lemma_div_is_ordered(m as int, n as int, 0x1000000000);
    vstd::arithmetic::div_mod::lemma_div_is_ordered(m as int, n as int, 0x100000000);
    vstd::arithmetic::div_mod::lemma_div_is_ordered(m as int, n as int, 0x10000000);
    vstd::arithmetic::div_mod::lemma_div_is_ordered(m as int, n as int, 0x1000000);
    vstd::arithmetic::div_mod::lemma_div_is_ordered(m as int, n as int, 0x100000);
    vstd::arithmetic::div_mod::lemma_div_is_ordered(m as int, n as int, 0x10000);
    vstd::arithmetic::div_mod::lemma_div_is_ordered(m as int, n as int, 0x1000);
    vstd::arithmetic::div_mod::lemma_div_is_ordered(m as int, n as int, 0x100);
    vstd::arithmetic::div_mod::lemma_div_is_ordered(m as int, n as int, 0x10);
    lemma_hex_split(m as nat, 0x1000000000000000);
    lemma_hex_split(n as nat, 0x1000000000000000);
    lemma_hex_split(m as nat, 0x100000000000000);
    lemma_hex_split(n as nat, 0x100000000000000);
    lemma_hex_split(m as nat, 0x10000000000000);
    lemma_hex_split(n as nat, 0x10000000000000);
    lemma_hex_split(m as nat, 0x1000000000000);
    lemma_hex_split(n as nat, 0x1000000000000);
    lemma_hex_split(m as nat, 0x100000000000);
    lemma_hex_split(n as nat, 0x100000000000);
    lemma_hex_split(m as nat, 0x10000000000);
    lemma_hex_split(n as nat, 0x10000000000);
    lemma_hex_split(m as nat, 0x1000000000);
    lemma_hex_split(n as nat, 0x1000000000);
    lemma_hex_split(m as nat, 0x100000000);
    lemma_hex_split(n as nat, 0x100000000);
    lemma_hex_split(m as nat, 0x10000000);
    lemma_hex_split(n as nat, 0x10000000);
    lemma_hex_split(m as nat, 0x1000000);
    lemma_hex_split(n as nat, 0x1000000);
    lemma_hex_split(m as nat, 0x100000);
    lemma_hex_split(n as nat, 0x100000);
    lemma_hex_split(m as nat, 0x10000);
    lemma_hex_split(n as nat, 0x10000);
    lemma_hex_split(m as nat, 0x1000);
    lemma_hex_split(n as nat, 0x1000);
    lemma_hex_split(m as nat, 0x100);
    lemma_hex_split(n as nat, 0x100);
    lemma_hex_split(m as nat, 0x10);
    lemma_hex_split(n as nat, 0x10);
    lemma_hex_split(m as nat, 0x1);
    lemma_hex_split(n as nat, 0x1);
    if m as nat / 0x1000000000000000 % 16 != n as nat / 0x1000000000000000 % 16 {
        lemma_hex_digit_lt(m as nat / 0x1000000000000000 % 16, n as nat / 0x1000000000000000 % 16);
        lemma_lex_at(a, b, 0);
    } else if m as nat / 0x100000000000000 % 16 != n as nat / 0x100000000000000 % 16 {
        lemma_hex_digit_lt(m as nat / 0x100000000000000 % 16, n as nat / 0x100000000000000 % 16);
        lemma_lex_at(a, b, 1);
    } else if m as nat / 0x10000000000000 % 16 != n as nat / 0x10000000000000 % 16 {
        lemma_hex_digit_lt(m as nat / 0x10000000000000 % 16, n as nat / 0x10000000000000 % 16);
        lemma_lex_at(a, b, 2);
    } else if m as nat / 0x1000000000000 % 16 != n as nat / 0x1000000000000 % 16 {
        lemma_hex_digit_lt(m as nat / 0x1000000000000 % 16, n as nat / 0x1000000000000 % 16);
        lemma_lex_at(a, b, 3);
    } else if m as nat / 0x100000000000 % 16 != n as nat / 0x100000000000 % 16 {
        lemma_hex_digit_lt(m as nat / 0x100000000000 % 16, n as nat / 0x100000000000 % 16);
        lemma_lex_at(a, b, 4);
    } else if m as nat / 0x10000000000 % 16 != n as nat / 0x10000000000 % 16 {
        lemma_hex_digit_lt(m as nat / 0x10000000000 % 16, n as nat / 0x10000000000 % 16);
        lemma_lex_at(a, b, 5);
    } else if m as nat / 0x1000000000 % 16 != n as nat / 0x1000000000 % 16 {
        lemma_hex_digit_lt(m as nat / 0x1000000000 % 16, n as nat / 0x1000000000 % 16);
        lemma_lex_at(a, b, 6);
    } else if m as nat / 0x100000000 % 16 != n as nat / 0x100000000 % 16 {
        lemma_hex_digit_lt(m as nat / 0x100000000 % 16, n as nat / 0x100000000 % 16);
        lemma_lex_at(a, b, 7);
    } else if m as nat / 0x10000000 % 16 != n as nat / 0x10000000 % 16 {
        lemma_hex_digit_lt(m as nat / 0x10000000 % 16, n as nat / 0x10000000 % 16);
        lemma_lex_at(a, b, 8);
    } else if m as nat / 0x1000000 % 16 != n as nat / 0x1000000 % 16 {
        lemma_hex_digit_lt(m as nat / 0x1000000 % 16, n as nat / 0x1000000 % 16);
        lemma_lex_at(a, b, 9);
    } else if m as nat / 0x100000 % 16 != n as nat / 0x100000 % 16 {
        lemma_hex_digit_lt(m as nat / 0x100000 % 16, n as nat / 0x100000 % 16);
        lemma_lex_at(a, b, 10);
    } else if m as nat / 0x10000 % 16 != n as nat / 0x10000 % 16 {
        lemma_hex_digit_lt(m as nat / 0x10000 % 16, n as nat / 0x10000 % 16);
        lemma_lex_at(a, b, 11);
    } else if m as nat / 0x1000 % 16 != n as nat / 0x1000 % 16 {
        lemma_hex_digit_lt(m as nat / 0x1000 % 16, n as nat / 0x1000 % 16);
        lemma_lex_at(a, b, 12);
    } else if m as nat / 0x100 % 16 != n as nat / 0x100 % 16 {
        lemma_hex_digit_lt(m as nat / 0x100 % 16, n as nat / 0x100 % 16);
        lemma_lex_at(a, b, 13);
    } else if m as nat / 0x10 % 16 != n as nat / 0x10 % 16 {
        lemma_hex_digit_lt(m as nat / 0x10 % 16, n as nat / 0x10 % 16);
        lemma_lex_at(a, b, 14);
    } else {
        assert(m as nat % 16 < n as nat % 16);
        lemma_hex_digit_lt(m as nat % 16, n as nat % 16);
        lemma_lex_at(a, b, 15);
    }
}

/// The tournament scan range brackets every timed record of its
/// tournament: the lower bound is a prefix of each key, and the upper
/// bound raises the separator, so it follows all of them without being a
/// real key itself.
pub proof fn lemma_tournament_range_brackets(tournament_id: Seq<char>, timestamp: u64)
    ensures
        lex_le(
            spec_tournament_scan_start(tournament_id),
            spec_tournament_key(tournament_id, timestamp),
        ),
        lex_lt(
            spec_tournament_key(tournament_id, timestamp),
            spec_tournament_scan_end(tournament_id),
        ),
{
    let start = spec_tournament_scan_start(tournament_id);
    let key = spec_tournament_key(tournament_id, timestamp);
    let end = spec_tournament_scan_end(tournament_id);
    assert(start =~= key.take(start.len() as int));
    lemma_lex_prefix_le(key, start.len() as int);
    assert(lex_lt(seq!['\0'] + spec_hex16(timestamp), seq!['\u{1}'])) by {
        assert((seq!['\0'] + spec_hex16(timestamp))[0] == '\0');
        lemma_lex_at(seq!['\0'] + spec_hex16(timestamp), seq!['\u{1}'], 0);
    }
    lemma_lex_prefix(
        seq!['T'] + tournament_id,
        seq!['\0'] + spec_hex16(timestamp),
        seq!['\u{1}'],
    );
    assert((seq!['T'] + tournament_id) + (seq!['\0'] + spec_hex16(timestamp)) =~= key);
    assert((seq!['T'] + tournament_id) + seq!['\u{1}'] =~= end);
}

/// Timestamp order is key order within one tournament's records.
pub proof fn lemma_tournament_key_order(tournament_id: Seq<char>, t1: u64, t2: u64)
    requires
        t1 < t2,
    ensures
        lex_lt(
            spec_tournament_key(tournament_id, t1),
            spec_tournament_key(tournament_id, t2),
        ),
{
    lemma_hex16_order(t1, t2);
    lemma_lex_prefix(seq!['T'] + tournament_id + seq!['\0'], spec_hex16(t1), spec_hex16(t2));
    assert((seq!['T'] + tournament_id + seq!['\0']) + spec_hex16(t1) =~= spec_tournament_key(
        tournament_id,
        t1,
    ));
    assert((seq!['T'] + tournament_id + seq!['\0']) + spec_hex16(t2) =~= spec_tournament_key(
        tournament_id,
        t2,
    ));
}

/// The monthly scan range of a six-digit month code brackets every
/// monthly-view key of that month and of no later one: the upper bound is
/// a tag one past the month, never a real key, yet sortably greater than
/// all of the month's keys.
pub proof fn lemma_monthly_range_brackets(year_month: u32, tournament_id: Seq<char>)
    requires
        year_month < 999999,
    ensures
        lex_le(spec_monthly_scan_start(year_month), spec_monthly_key(year_month, tournament_id)),
        lex_lt(spec_monthly_key(year_month, tournament_id), spec_monthly_scan_end(year_month)),
{
    let start = spec_monthly_scan_start(year_month);
    let key = spec_monthly_key(year_month, tournament_id);
    let end = spec_monthly_scan_end(year_month);
    assert(start =~= key.take(start.len() as int));
    lemma_lex_prefix_le(key, start.len() as int);
    lemma_pad6_order(year_month as nat, (year_month + 1) as nat);
    lemma_lex_append(
        spec_pad6(year_month as nat),
        spec_pad6((year_month + 1) as nat),
        seq!['\0'] + tournament_id,
        Seq::<char>::empty(),
    );
    lemma_lex_prefix(
        seq!['M'],
        spec_pad6(year_month as nat) + (seq!['\0'] + tournament_id),
        spec_pad6((year_month + 1) as nat) + Seq::<char>::empty(),
    );
    assert(seq!['M'] + (spec_pad6(year_month as nat) + (seq!['\0'] + tournament_id)) =~= key);
    assert(seq!['M'] + (spec_pad6((year_month + 1) as nat) + Seq::<char>::empty()) =~= end);
}

} // verus!
