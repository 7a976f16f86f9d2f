//! Character-level utilities shared by the key codec, the store and the
//! engine: lexicographic order on strings, decimal and hexadecimal
//! rendering, and decimal parsing.

use vstd::prelude::*;

verus! {

// ---------------------------------------------------------------------------
// Lexicographic order on character sequences.
//
// Characters are compared by their scalar value, which orders strings the
// same way as a byte-wise comparison of their UTF-8 encodings.
// ---------------------------------------------------------------------------

/// Strict lexicographic order, comparing from position `i` on; the first
/// `i` characters are already known equal by the caller.
pub open spec fn lex_lt_from(a: Seq<char>, b: Seq<char>, i: int) -> bool
    decreases b.len() - i,
{
    if i >= b.len() {
        false
    } else if i >= a.len() {
        true
    } else if a[i] != b[i] {
        (a[i] as u32) < (b[i] as u32)
    } else {
        lex_lt_from(a, b, i + 1)
    }
}

/// Strict lexicographic order on character sequences.
pub open spec fn lex_lt(a: Seq<char>, b: Seq<char>) -> bool {
    lex_lt_from(a, b, 0)
}

/// Non-strict lexicographic order on character sequences.
pub open spec fn lex_le(a: Seq<char>, b: Seq<char>) -> bool {
    !lex_lt(b, a)
}

/// `lex_lt_from` is transitive.
pub proof fn lemma_lex_trans_from(a: Seq<char>, b: Seq<char>, c: Seq<char>, i: int)
    requires
        0 <= i,
        lex_lt_from(a, b, i),
        lex_lt_from(b, c, i),
    ensures
        lex_lt_from(a, c, i),
    decreases c.len() - i,
{
    if i < a.len() && i < b.len() && i < c.len() && a[i] == b[i] && b[i] == c[i] {
        lemma_lex_trans_from(a, b, c, i + 1);
    }
}

/// Transitivity of `lex_lt`, stated on whole sequences.
pub proof fn lemma_lex_trans(a: Seq<char>, b: Seq<char>, c: Seq<char>)
    requires
        lex_lt(a, b),
        lex_lt(b, c),
    ensures
        lex_lt(a, c),
{
    lemma_lex_trans_from(a, b, c, 0);
}

/// Stepping past a common prefix does not change the comparison.
pub proof fn lemma_lex_advance(a: Seq<char>, b: Seq<char>, k: int)
    requires
        0 <= k <= a.len(),
        k <= b.len(),
        forall|j: int| 0 <= j < k ==> a[j] == b[j],
    ensures
        lex_lt(a, b) == lex_lt_from(a, b, k),
    decreases k,
{
    if k > 0 {
        lemma_lex_advance(a, b, k - 1);
        assert(lex_lt_from(a, b, k - 1) == lex_lt_from(a, b, k));
    }
}

/// Comparison from position `p.len() + i` ignores a shared prefix `p`.
pub proof fn lemma_lex_shift(p: Seq<char>, a: Seq<char>, b: Seq<char>, i: int)
    requires
        0 <= i,
    ensures
        lex_lt_from(p + a, p + b, p.len() + i) == lex_lt_from(a, b, i),
    decreases b.len() - i,
{
    if i < b.len() && i < a.len() && a[i] == b[i] {
        lemma_lex_shift(p, a, b, i + 1);
    }
}

/// Prepending a common prefix does not change the comparison.
pub proof fn lemma_lex_prefix(p: Seq<char>, a: Seq<char>, b: Seq<char>)
    ensures
        lex_lt(p + a, p + b) == lex_lt(a, b),
{
    lemma_lex_advance(p + a, p + b, p.len() as int);
    lemma_lex_shift(p, a, b, 0);
}

/// A sequence never precedes one of its own prefixes.
pub proof fn lemma_lex_prefix_le(a: Seq<char>, k: int)
    requires
        0 <= k <= a.len(),
    ensures
        lex_le(a.take(k), a),
{
    lemma_lex_advance(a, a.take(k), k);
    assert(!lex_lt_from(a, a.take(k), k));
}

/// A strict comparison decided at a character survives appending on both
/// sides, provided the smaller sequence is at least as long as the larger
/// one (so the decision cannot have come from running out of characters).
pub proof fn lemma_lex_append_from(u: Seq<char>, v: Seq<char>, x: Seq<char>, y: Seq<char>, i: int)
    requires
        0 <= i,
        v.len() <= u.len(),
        lex_lt_from(u, v, i),
    ensures
        lex_lt_from(u + x, v + y, i),
    decreases v.len() - i,
{
    if i < v.len() && i < u.len() && u[i] == v[i] {
        lemma_lex_append_from(u, v, x, y, i + 1);
    }
}

/// As `lemma_lex_append_from`, for whole sequences.
pub proof fn lemma_lex_append(u: Seq<char>, v: Seq<char>, x: Seq<char>, y: Seq<char>)
    requires
        v.len() <= u.len(),
        lex_lt(u, v),
    ensures
        lex_lt(u + x, v + y),
{
    lemma_lex_append_from(u, v, x, y, 0);
}

/// A comparison decided at position `k`, after a common prefix.
pub proof fn lemma_lex_at(a: Seq<char>, b: Seq<char>, k: int)
    requires
        0 <= k < a.len(),
        k < b.len(),
        forall|j: int| 0 <= j < k ==> a[j] == b[j],
        a[k] != b[k],
        (a[k] as u32) < (b[k] as u32),
    ensures
        lex_lt(a, b),
{
    lemma_lex_advance(a, b, k);
}

/// The scalar value of a decimal digit character.
pub proof fn lemma_digit_char_val(d: nat)
    requires
        d < 10,
    ensures
        digit_char(d) as u32 == 48 + d,
{
}

/// Decides `lex_lt(a@, b@)`.
pub fn str_lt(a: &str, b: &str) -> (r: bool)
    ensures
        r == lex_lt(a@, b@),
{
    let alen = a.unicode_len();
    let blen = b.unicode_len();
    let mut i: usize = 0;
    loop
        invariant
            i <= alen,
            i <= blen,
            alen == a@.len(),
            blen == b@.len(),
            forall|j: int| 0 <= j < i ==> a@[j] == b@[j],
            lex_lt(a@, b@) == lex_lt_from(a@, b@, i as int),
        decreases blen - i,
    {
        if i >= blen {
            return false;
        }
        if i >= alen {
            return true;
        }
        let ca = a.get_char(i);
        let cb = b.get_char(i);
        if ca != cb {
            return (ca as u32) < (cb as u32);
        }
        i = i + 1;
    }
}

/// Decides `lex_le(a@, b@)`.
pub fn str_le(a: &str, b: &str) -> (r: bool)
    ensures
        r == lex_le(a@, b@),
{
    !str_lt(b, a)
}

/// Decides whether two strings hold the same characters.
pub fn str_eq(a: &str, b: &str) -> (r: bool)
    ensures
        r == (a@ == b@),
{
    let alen = a.unicode_len();
    let blen = b.unicode_len();
    if alen != blen {
        return false;
    }
    let mut i: usize = 0;
    while i < alen
        invariant
            i <= alen,
            alen == a@.len(),
            alen == blen,
            blen == b@.len(),
            forall|j: int| 0 <= j < i ==> a@[j] == b@[j],
        decreases alen - i,
    {
        if a.get_char(i) != b.get_char(i) {
            assert(a@[i as int] != b@[i as int]);
            return false;
        }
        i = i + 1;
    }
    proof {
        assert(a@ =~= b@);
    }
    true
}

/// `lex_lt` is irreflexive, from any position.
pub proof fn lemma_lex_irrefl_from(a: Seq<char>, i: int)
    requires
        0 <= i,
    ensures
        !lex_lt_from(a, a, i),
    decreases a.len() - i,
{
    if i < a.len() {
        lemma_lex_irrefl_from(a, i + 1);
    }
}

/// `lex_lt` is irreflexive.
pub proof fn lemma_lex_irrefl(a: Seq<char>)
    ensures
        !lex_lt(a, a),
{
    lemma_lex_irrefl_from(a, 0);
}

// ---------------------------------------------------------------------------
// Finding a character.
// ---------------------------------------------------------------------------

/// The first position at or after `from` holding `c`, or the length if
/// there is none.
pub open spec fn find_char(s: Seq<char>, c: char, from: int) -> int
    recommends
        0 <= from <= s.len(),
    decreases s.len() - from,
{
    if from >= s.len() {
        s.len() as int
    } else if s[from] == c {
        from
    } else {
        find_char(s, c, from + 1)
    }
}

/// `find_char` stays between `from` and the length, and what it points at.
pub proof fn lemma_find_char(s: Seq<char>, c: char, from: int)
    requires
        0 <= from <= s.len(),
    ensures
        from <= find_char(s, c, from) <= s.len(),
        find_char(s, c, from) < s.len() ==> s[find_char(s, c, from)] == c,
        forall|j: int| from <= j < find_char(s, c, from) ==> s[j] != c,
    decreases s.len() - from,
{
    if from < s.len() && s[from] != c {
        lemma_find_char(s, c, from + 1);
    }
}

/// Computes `find_char(s@, c, from)`.
pub fn find_char_in(s: &str, c: char, from: usize) -> (r: usize)
    requires
        from <= s@.len(),
    ensures
        r == find_char(s@, c, from as int),
{
    let n = s.unicode_len();
    let mut i: usize = from;
    while i < n
        invariant
            from <= i <= n,
            n == s@.len(),
            find_char(s@, c, from as int) == find_char(s@, c, i as int),
        decreases n - i,
    {
        if s.get_char(i) == c {
            return i;
        }
        i = i + 1;
    }
    n
}

// ---------------------------------------------------------------------------
// Rendering numbers as characters.
// ---------------------------------------------------------------------------

/// The character for a single decimal digit.
pub open spec fn digit_char(d: nat) -> char
    recommends
        d < 10,
{
    ((d + 48) as u8) as char
}

/// The character for a single hexadecimal digit, lower case.
pub open spec fn hex_char(d: nat) -> char
    recommends
        d < 16,
{
    if d < 10 {
        digit_char(d)
    } else {
        ((d + 87) as u8) as char
    }
}

/// The decimal digits of `n`, most significant first, no leading zeros
/// (a single zero for `n == 0`).
pub open spec fn spec_dec_digits(n: nat) -> Seq<char>
    decreases n,
{
    if n < 10 {
        seq![digit_char(n)]
    } else {
        spec_dec_digits(n / 10).push(digit_char(n % 10))
    }
}

/// `n` in decimal, padded with zeros to at least six digits; numbers of
/// seven or more digits keep their natural width.
pub open spec fn spec_pad6(n: nat) -> Seq<char> {
    if n < 1000000 {
        seq![
            digit_char(n / 100000),
            digit_char(n / 10000 % 10),
            digit_char(n / 1000 % 10),
            digit_char(n / 100 % 10),
            digit_char(n / 10 % 10),
            digit_char(n % 10),
        ]
    } else {
        spec_dec_digits(n)
    }
}

/// `n` in decimal, padded with zeros to at least four digits.
pub open spec fn spec_pad4(n: nat) -> Seq<char> {
    if n < 10000 {
        seq![
            digit_char(n / 1000),
            digit_char(n / 100 % 10),
            digit_char(n / 10 % 10),
            digit_char(n % 10),
        ]
    } else {
        spec_dec_digits(n)
    }
}

/// `n` in decimal, padded with zeros to two digits.
pub open spec fn spec_pad2(n: nat) -> Seq<char>
    recommends
        n < 100,
{
    seq![digit_char(n / 10 % 10), digit_char(n % 10)]
}

/// `n` as exactly sixteen lower-case hexadecimal digits, zero padded,
/// most significant first.
pub open spec fn spec_hex16(n: u64) -> Seq<char> {
    seq![
        hex_char((n / 0x1000000000000000) as nat % 16),
        hex_char((n / 0x100000000000000) as nat % 16),
        hex_char((n / 0x10000000000000) as nat % 16),
        hex_char((n / 0x1000000000000) as nat % 16),
        hex_char((n / 0x100000000000) as nat % 16),
        hex_char((n / 0x10000000000) as nat % 16),
        hex_char((n / 0x1000000000) as nat % 16),
        hex_char((n / 0x100000000) as nat % 16),
        hex_char((n / 0x10000000) as nat % 16),
        hex_char((n / 0x1000000) as nat % 16),
        hex_char((n / 0x100000) as nat % 16),
        hex_char((n / 0x10000) as nat % 16),
        hex_char((n / 0x1000) as nat % 16),
        hex_char((n / 0x100) as nat % 16),
        hex_char((n / 0x10) as nat % 16),
        hex_char(n as nat % 16),
    ]
}

/// Appends one character to a string.
///
/// Relies on `String::push` from std: it appends the given character to
/// the end of the string.
#[verifier::external_body]
pub(crate) fn push_char(s: &mut String, c: char)
    ensures
        final(s)@ == old(s)@.push(c),
{
    s.push(c);
}

/// Appends the decimal digit `d` as a character.
fn push_digit(s: &mut String, d: u64)
    requires
        d < 10,
    ensures
        final(s)@ == old(s)@.push(digit_char(d as nat)),
{
    push_char(s, (d as u8 + 48) as char);
}

/// Appends the hexadecimal digit `d` as a lower-case character.
fn push_hex_digit(s: &mut String, d: u64)
    requires
        d < 16,
    ensures
        final(s)@ == old(s)@.push(hex_char(d as nat)),
{
    if d < 10 {
        push_char(s, (d as u8 + 48) as char);
    } else {
        push_char(s, (d as u8 + 87) as char);
    }
}

/// Appends `n` in decimal without padding.
pub fn push_dec(s: &mut String, n: u64)
    ensures
        final(s)@ == old(s)@ + spec_dec_digits(n as nat),
    decreases n,
{
    if n < 10 {
        push_digit(s, n);
        assert(old(s)@.push(digit_char(n as nat)) =~= old(s)@ + spec_dec_digits(n as nat));
    } else {
        push_dec(s, n / 10);
        push_digit(s, n % 10);
        assert(old(s)@ + spec_dec_digits((n / 10) as nat).push(digit_char((n % 10) as nat))
            =~= old(s)@ + spec_dec_digits(n as nat));
    }
}

/// Appends `n` in decimal, zero padded to at least six digits.
pub fn push_pad6(s: &mut String, n: u32)
    ensures
        final(s)@ == old(s)@ + spec_pad6(n as nat),
{
    if n < 1000000 {
        push_digit(s, (n / 100000) as u64);
        push_digit(s, (n / 10000 % 10) as u64);
        push_digit(s, (n / 1000 % 10) as u64);
        push_digit(s, (n / 100 % 10) as u64);
        push_digit(s, (n / 10 % 10) as u64);
        push_digit(s, (n % 10) as u64);
        assert(final(s)@ =~= old(s)@ + spec_pad6(n as nat));
    } else {
        push_dec(s, n as u64);
    }
}

/// Appends `n` in decimal, zero padded to at least four digits.
pub fn push_pad4(s: &mut String, n: u32)
    ensures
        final(s)@ == old(s)@ + spec_pad4(n as nat),
{
    if n < 10000 {
        push_digit(s, (n / 1000) as u64);
        push_digit(s, (n / 100 % 10) as u64);
        push_digit(s, (n / 10 % 10) as u64);
        push_digit(s, (n % 10) as u64);
        assert(final(s)@ =~= old(s)@ + spec_pad4(n as nat));
    } else {
        push_dec(s, n as u64);
    }
}

/// Appends `n` in decimal, zero padded to two digits.
pub fn push_pad2(s: &mut String, n: u32)
    requires
        n < 100,
    ensures
        final(s)@ == old(s)@ + spec_pad2(n as nat),
{
    push_digit(s, (n / 10 % 10) as u64);
    push_digit(s, (n % 10) as u64);
    assert(final(s)@ =~= old(s)@ + spec_pad2(n as nat));
}

/// Appends `n` as exactly sixteen lower-case hexadecimal digits.
#[verifier::rlimit(50)]
pub fn push_hex16(s: &mut String, n: u64)
    ensures
        final(s)@ == old(s)@ + spec_hex16(n),
{
    push_hex_digit(s, n / 0x1000000000000000 % 16);
    push_hex_digit(s, n / 0x100000000000000 % 16);
    push_hex_digit(s, n / 0x10000000000000 % 16);
    push_hex_digit(s, n / 0x1000000000000 % 16);
    push_hex_digit(s, n / 0x100000000000 % 16);
    push_hex_digit(s, n / 0x10000000000 % 16);
    push_hex_digit(s, n / 0x1000000000 % 16);
    push_hex_digit(s, n / 0x100000000 % 16);
    push_hex_digit(s, n / 0x10000000 % 16);
    push_hex_digit(s, n / 0x1000000 % 16);
    push_hex_digit(s, n / 0x100000 % 16);
    push_hex_digit(s, n / 0x10000 % 16);
    push_hex_digit(s, n / 0x1000 % 16);
    push_hex_digit(s, n / 0x100 % 16);
    push_hex_digit(s, n / 0x10 % 16);
    push_hex_digit(s, n % 16);
    assert(final(s)@ =~= old(s)@ + spec_hex16(n));
}

// ---------------------------------------------------------------------------
// Parsing decimal numbers.
// ---------------------------------------------------------------------------

/// Whether `c` is a decimal digit.
pub open spec fn is_digit(c: char) -> bool {
    48 <= c as u32 <= 57
}

/// The value of a decimal digit character.
pub open spec fn digit_val(c: char) -> nat
    recommends
        is_digit(c),
{
    (c as u32 - 48) as nat
}

/// Whether every character of `s` is a decimal digit.
pub open spec fn all_digits(s: Seq<char>) -> bool {
    forall|i: int| 0 <= i < s.len() ==> is_digit(#[trigger] s[i])
}

/// The value of a sequence of decimal digits, most significant first.
pub open spec fn digits_val(s: Seq<char>) -> nat
    decreases s.len(),
{
    if s.len() == 0 {
        0
    } else {
        digits_val(s.drop_last()) * 10 + digit_val(s.last())
    }
}

/// What `str::parse::<u32>` accepts: an optional leading `+`, then one or
/// more decimal digits, with a value that fits in a `u32`.
pub open spec fn spec_parse_u32(s: Seq<char>) -> Option<u32> {
    let body = if s.len() > 0 && s[0] == '+' {
        s.drop_first()
    } else {
        s
    };
    if body.len() > 0 && all_digits(body) && digits_val(body) <= u32::MAX {
        Some(digits_val(body) as u32)
    } else {
        None
    }
}

/// A longer digit prefix never has a smaller value.
proof fn lemma_digits_val_prefix_le(s: Seq<char>, i: int)
    requires
        0 <= i <= s.len(),
    ensures
        digits_val(s.take(i)) <= digits_val(s),
    decreases s.len() - i,
{
    if i < s.len() {
        lemma_digits_val_prefix_le(s, i + 1);
        assert(s.take(i + 1).drop_last() =~= s.take(i));
        assert(digits_val(s.take(i)) <= digits_val(s.take(i + 1)));
    } else {
        assert(s.take(i) =~= s);
    }
}

/// Parses the digit run `s@[from..to]` as a `u32`; mirrors what
/// `str::parse::<u32>` does after the optional sign.
fn parse_digits(s: &str, from: usize, to: usize) -> (r: Option<u32>)
    requires
        from <= to <= s@.len(),
    ensures
        ({
            let body = s@.subrange(from as int, to as int);
            match r {
                Some(v) => body.len() > 0 && all_digits(body) && digits_val(body) == v,
                None => !(body.len() > 0 && all_digits(body) && digits_val(body) <= u32::MAX),
            }
        }),
{
    let ghost body = s@.subrange(from as int, to as int);
    if from == to {
        return None;
    }
    let mut acc: u64 = 0;
    let mut i: usize = from;
    while i < to
        invariant
            from <= i <= to <= s@.len(),
            body == s@.subrange(from as int, to as int),
            all_digits(body.take(i - from)),
            acc == digits_val(body.take(i - from)),
            acc <= u32::MAX,
        decreases to - i,
    {
        let c = s.get_char(i);
        let cv = c as u32;
        if cv < 48 || cv > 57 {
            assert(body[i - from] == c);
            assert(!is_digit(body[i - from]));
            return None;
        }
        proof {
            assert(body.take(i - from + 1).drop_last() =~= body.take(i - from));
            assert(body.take(i - from + 1).last() == body[i - from]);
            assert(body[i - from] == c);
        }
        acc = acc * 10 + (cv - 48) as u64;
        if acc > u32::MAX as u64 {
            proof {
                lemma_digits_val_prefix_le(body, i + 1 - from);
            }
            return None;
        }
        i = i + 1;
    }
    assert(body.take(to - from) =~= body);
    Some(acc as u32)
}

/// Parses `s@[from..to]` as `str::parse::<u32>` would: an optional leading
/// `+`, then decimal digits.
pub fn parse_u32_range(s: &str, from: usize, to: usize) -> (r: Option<u32>)
    requires
        from <= to <= s@.len(),
    ensures
        r == spec_parse_u32(s@.subrange(from as int, to as int)),
{
    let ghost part = s@.subrange(from as int, to as int);
    if from < to && s.get_char(from) == '+' {
        assert(part[0] == '+');
        let r = parse_digits(s, from + 1, to);
        proof {
            assert(part.drop_first() =~= s@.subrange(from + 1, to as int));
        }
        r
    } else {
        assert(!(part.len() > 0 && part[0] == '+'));
        parse_digits(s, from, to)
    }
}

} // verus!
