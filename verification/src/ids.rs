//! Identifiers: a counter mixed with the clock.
use crate::text;
use crate::text::push_hex;
use vstd::prelude::*;

verus! {

/// Multiplier that spreads consecutive counter values over the whole word.
pub const SPREAD: u64 = 0x9E37_79B9_7F4A_7C15;

/// `SystemTime::now().duration_since(UNIX_EPOCH)`: the time since the epoch as
/// whole seconds and nanoseconds, or `None` where the clock stands before the
/// epoch. Claimed is only that the nanoseconds are less than a second.
#[verifier::external_body]
fn since_epoch() -> (reading: Option<(u64, u32)>)
    ensures
        reading matches Some(t) ==> t.1 < 1_000_000_000,
{
    let now = std::time::SystemTime::now().duration_since(std::time::UNIX_EPOCH);
    now.ok().map(|d| (d.as_secs(), d.subsec_nanos()))
}

/// Whether the machine's clock may give a reading.
pub closed spec fn clock_gives(reading: Option<(u64, u32)>) -> bool {
    call_ensures(since_epoch, (), reading)
}

/// A clock reading in nanoseconds, modulo the word; zero before the epoch.
pub open spec fn nanos_of(reading: Option<(u64, u32)>) -> u64 {
    match reading {
        Some(t) => ((t.0 * 1_000_000_000 + t.1) % 0x1_0000_0000_0000_0000) as u64,
        None => 0,
    }
}

/// A clock reading in nanoseconds, modulo the word; zero before the epoch.
pub fn nanos(reading: Option<(u64, u32)>) -> (n: u64)
    ensures
        n == nanos_of(reading),
{
    match reading {
        Some((secs, frac)) => {
            let total: u128 = secs as u128 * 1_000_000_000 + frac as u128;
            (total % 0x1_0000_0000_0000_0000) as u64
        },
        None => 0,
    }
}

/// A clock reading in seconds; zero before the epoch.
pub open spec fn seconds_of(reading: Option<(u64, u32)>) -> i64 {
    match reading {
        Some(t) => t.0 as i64,
        None => 0,
    }
}

/// A clock reading in seconds; zero before the epoch.
pub fn seconds(reading: Option<(u64, u32)>) -> (s: i64)
    ensures
        s == seconds_of(reading),
{
    match reading {
        Some((secs, _)) => #[verifier::truncate] (secs as i64),
        None => 0,
    }
}

/// Seconds since the epoch, by the machine's clock.
pub fn now_seconds() -> (s: i64)
    ensures
        exists|reading: Option<(u64, u32)>| #[trigger]
            clock_gives(reading) && s == seconds_of(reading),
{
    let reading = since_epoch();
    assert(clock_gives(reading));
    seconds(reading)
}

/// The hexadecimal part of identifier number `n`, made when the clock read
/// `base` nanoseconds.
pub open spec fn tail_of(base: u64, n: u64) -> Seq<char> {
    text::hex_digits((base ^ vstd::wrapping::u64_specs::wrapping_mul(n, SPREAD)) as nat, 16)
        + text::hex_digits(n as nat, 8)
}

/// Identifier number `n`, made when the clock read `base` nanoseconds.
pub fn id_text(prefix: &str, base: u64, n: u64) -> (id: String)
    ensures
        id@ == prefix@ + tail_of(base, n),
{
    let mut id = prefix.to_owned();
    push_hex(&mut id, base ^ n.wrapping_mul(SPREAD), 16);
    push_hex(&mut id, n, 8);
    assert(id@ =~= prefix@ + tail_of(base, n));
    id
}

/// Numbers identifiers. One of these serves one process.
#[derive(Debug)]
pub struct IdSource {
    next: u64,
}

impl View for IdSource {
    type V = u64;

    closed spec fn view(&self) -> u64 {
        self.next
    }
}

impl IdSource {
    /// A source whose first identifier has number zero.
    pub fn new() -> (s: Self)
        ensures
            s@ == 0,
    {
        IdSource { next: 0 }
    }

    /// A source whose first identifier has number `next`.
    pub fn starting_at(next: u64) -> (s: Self)
        ensures
            s@ == next,
    {
        IdSource { next }
    }

    /// The next identifier.
    pub fn make(&mut self, prefix: &str) -> (id: String)
        ensures
            exists|reading: Option<(u64, u32)>| #[trigger]
                clock_gives(reading) && id@ == prefix@ + tail_of(nanos_of(reading), old(self)@),
            final(self)@ == vstd::wrapping::u64_specs::wrapping_add(old(self)@, 1),
    {
        let n: u64 = self.next;
        self.next = n.wrapping_add(1);
        let reading = since_epoch();
        assert(clock_gives(reading));
        id_text(prefix, nanos(reading), n)
    }
}

/// Sixteen to the power of `width`.
pub open spec fn hex_span(width: nat) -> nat
    decreases width,
{
    if width == 0 {
        1
    } else {
        16 * hex_span((width - 1) as nat)
    }
}

proof fn lemma_hex_len(n: nat, width: nat)
    ensures
        text::hex_digits(n, width).len() == width,
    decreases width,
{
    if width > 0 {
        lemma_hex_len(n / 16, (width - 1) as nat);
    }
}

proof fn lemma_hex_injective(a: nat, b: nat, width: nat)
    requires
        text::hex_digits(a, width) == text::hex_digits(b, width),
    ensures
        a % hex_span(width) == b % hex_span(width),
        hex_span(width) > 0,
    decreases width,
{
    if width > 0 {
        let w = (width - 1) as nat;
        let x = text::hex_digits(a / 16, w);
        let y = text::hex_digits(b / 16, w);
        let dx = text::digit_char((a % 16) as int);
        let dy = text::digit_char((b % 16) as int);
        assert(x.push(dx).drop_last() =~= x);
        assert(y.push(dy).drop_last() =~= y);
        assert(x.push(dx).last() == dx);
        assert(y.push(dy).last() == dy);
        lemma_hex_injective(a / 16, b / 16, w);
        let s = hex_span(w);
        vstd::arithmetic::div_mod::lemma_mod_breakdown(a as int, 16, s as int);
        vstd::arithmetic::div_mod::lemma_mod_breakdown(b as int, 16, s as int);
    }
}

/// Two identifiers of one source differ, whatever the clock read, as long as
/// fewer than 2^32 identifiers lie between them.
pub proof fn law_ids_do_not_repeat(prefix: Seq<char>, b1: u64, n1: u64, b2: u64, n2: u64)
    requires
        n1 < n2,
        n2 - n1 < 0x1_0000_0000,
    ensures
        prefix + tail_of(b1, n1) != prefix + tail_of(b2, n2),
{
    let x = prefix + tail_of(b1, n1);
    let y = prefix + tail_of(b2, n2);
    let h1 = (b1 ^ vstd::wrapping::u64_specs::wrapping_mul(n1, SPREAD)) as nat;
    let h2 = (b2 ^ vstd::wrapping::u64_specs::wrapping_mul(n2, SPREAD)) as nat;
    lemma_hex_len(h1, 16);
    lemma_hex_len(h2, 16);
    lemma_hex_len(n1 as nat, 8);
    lemma_hex_len(n2 as nat, 8);
    if x == y {
        let at = prefix.len() + 16;
        assert(x.skip(at as int) =~= text::hex_digits(n1 as nat, 8));
        assert(y.skip(at as int) =~= text::hex_digits(n2 as nat, 8));
        lemma_hex_injective(n1 as nat, n2 as nat, 8);
        assert(hex_span(8) == 0x1_0000_0000) by {
            reveal_with_fuel(hex_span, 9);
        }
        assert(n1 as nat % 0x1_0000_0000 == n2 as nat % 0x1_0000_0000);
    }
}

/// A reading in nanoseconds holds the seconds and the rest of the reading, as
/// long as the word holds it.
pub proof fn law_nanoseconds_hold_the_seconds(secs: u64, frac: u32)
    requires
        secs < 18_446_744_073,
        frac < 1_000_000_000,
    ensures
        nanos_of(Some((secs, frac))) / 1_000_000_000 == seconds_of(Some((secs, frac))),
        nanos_of(Some((secs, frac))) % 1_000_000_000 == frac,
{
    let total = secs * 1_000_000_000 + frac;
    assert(total < 0x1_0000_0000_0000_0000);
    assert(total % 0x1_0000_0000_0000_0000 == total);
}

/// An identifier is its prefix and twenty-four characters, and its last eight
/// read back as its number while that fits them, whatever the clock read.
pub proof fn law_ids_end_in_their_number(prefix: Seq<char>, base: u64, n: u64)
    ensures
        (prefix + tail_of(base, n)).len() == prefix.len() + 24,
        (prefix + tail_of(base, n)).take(prefix.len() as int) == prefix,
        n < 0x1_0000_0000 ==> text::hex_number(
            (prefix + tail_of(base, n)).skip(prefix.len() as int + 16),
        ) == n,
{
    let h = (base ^ vstd::wrapping::u64_specs::wrapping_mul(n, SPREAD)) as nat;
    lemma_hex_len(h, 16);
    lemma_hex_len(n as nat, 8);
    let x = prefix + tail_of(base, n);
    assert(x.take(prefix.len() as int) =~= prefix);
    assert(x.skip(prefix.len() as int + 16) =~= text::hex_digits(n as nat, 8));
    if n < 0x1_0000_0000 {
        assert(vstd::arithmetic::power::pow(16, 8) == 0x1_0000_0000) by {
            reveal(vstd::arithmetic::power::pow);
            reveal_with_fuel(vstd::arithmetic::power::pow, 9);
        }
        text::law_hex_reads_back(n as nat, 8);
    }
}

} // verus!
