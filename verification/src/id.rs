//! Identifiers and their keys.
//!
//! An identifier is a 128-bit number: its high 48 bits are a timestamp in
//! milliseconds, its low 80 bits order the identifiers of one millisecond. Its
//! key is its 16 bytes, the most significant first.

use vstd::prelude::*;
use vstd::string::*;
use chrono::{Datelike, TimeZone};
use crate::error::Error;

verus! {

/// The number of identifiers of one millisecond: 2 to the power 80.
pub open spec fn suffix_span() -> int {
    0x1_0000_0000_0000_0000_0000int
}

/// `256` to the power `n`.
pub open spec fn pow256(n: nat) -> nat
    decreases n,
{
    if n == 0 {
        1
    } else {
        256 * pow256((n - 1) as nat)
    }
}

/// The number that a byte string denotes, the most significant byte first.
pub open spec fn be_value(s: Seq<u8>) -> nat
    decreases s.len(),
{
    if s.len() == 0 {
        0
    } else {
        be_value(s.drop_last()) * 256 + s.last() as nat
    }
}

/// The `n` low bytes of `x`, the most significant first.
pub open spec fn be_bytes(x: nat, n: nat) -> Seq<u8>
    decreases n,
{
    if n == 0 {
        Seq::empty()
    } else {
        be_bytes(x / 256, (n - 1) as nat).push((x % 256) as u8)
    }
}

/// The key of an identifier.
pub open spec fn key_of(id: u128) -> Seq<u8> {
    be_bytes(id as nat, 16)
}

/// The order of byte strings of one length: at the first byte that differs,
/// `a` has the smaller one.
pub open spec fn bytes_lt(a: Seq<u8>, b: Seq<u8>) -> bool {
    exists|i: int|
        0 <= i < a.len() && i < b.len() && a.subrange(0, i) == b.subrange(0, i) && a[i] < b[i]
}

/// The timestamp of an identifier, in milliseconds.
pub open spec fn time_of(id: u128) -> int {
    id as int / suffix_span()
}

/// The least identifier of the millisecond of `id`.
pub open spec fn floor_of(id: u128) -> int {
    time_of(id) * suffix_span()
}

/// The greatest identifier of the millisecond of `id`.
pub open spec fn ceiling_of(id: u128) -> int {
    time_of(id) * suffix_span() + suffix_span() - 1
}

/// The powers of 256 that the keys need: of the ten bytes after the time, of
/// the six bytes of the time, and of all sixteen.
pub proof fn lemma_pow256_16()
    ensures
        pow256(16) == 0x1_0000_0000_0000_0000_0000_0000_0000_0000int,
        pow256(10) == suffix_span(),
        pow256(6) == 0x1_0000_0000_0000int,
{
    reveal_with_fuel(pow256, 17);
}

/// A byte string of length `n` denotes a number below `256` to the `n`.
pub proof fn lemma_be_value_bound(s: Seq<u8>)
    ensures
        be_value(s) < pow256(s.len()),
    decreases s.len(),
{
    if s.len() > 0 {
        lemma_be_value_bound(s.drop_last());
    }
}

/// Decoding undoes encoding.
pub proof fn lemma_be_value_of_bytes(x: nat, n: nat)
    ensures
        be_bytes(x, n).len() == n,
        be_value(be_bytes(x, n)) == x % pow256(n),
    decreases n,
{
    if n > 0 {
        let m = (n - 1) as nat;
        lemma_be_value_of_bytes(x / 256, m);
        let s = be_bytes(x, n);
        assert(s.drop_last() =~= be_bytes(x / 256, m));
        let p = pow256(m);
        let q = x / 256;
        assert(p > 0) by {
            lemma_pow256_positive(m);
        }
        vstd::arithmetic::div_mod::lemma_mod_breakdown(x as int, 256, p as int);
        assert(256 * (q % p) == (q % p) * 256);
    }
}

/// A power of 256 is positive.
pub proof fn lemma_pow256_positive(n: nat)
    ensures
        pow256(n) > 0,
    decreases n,
{
    if n > 0 {
        lemma_pow256_positive((n - 1) as nat);
    }
}

/// Encoding undoes decoding.
pub proof fn lemma_bytes_of_be_value(s: Seq<u8>)
    ensures
        be_bytes(be_value(s), s.len()) == s,
    decreases s.len(),
{
    if s.len() > 0 {
        lemma_bytes_of_be_value(s.drop_last());
        let x = be_value(s);
        assert(x / 256 == be_value(s.drop_last()));
        assert(x % 256 == s.last() as nat);
        assert(be_bytes(x, s.len()) =~= s);
    } else {
        assert(be_bytes(be_value(s), 0) =~= s);
    }
}

/// Among numbers below `256` to the `n`, the smaller one has the smaller
/// `n`-byte string.
pub proof fn lemma_be_bytes_order(a: nat, b: nat, n: nat)
    requires
        a < b,
        b < pow256(n),
    ensures
        bytes_lt(be_bytes(a, n), be_bytes(b, n)),
    decreases n,
{
    if n == 0 {
    } else {
        let m = (n - 1) as nat;
        let sa = be_bytes(a, n);
        let sb = be_bytes(b, n);
        lemma_be_value_of_bytes(a, n);
        lemma_be_value_of_bytes(b, n);
        lemma_be_value_of_bytes(a / 256, m);
        lemma_be_value_of_bytes(b / 256, m);
        if a / 256 < b / 256 {
            assert(b / 256 < pow256(m));
            lemma_be_bytes_order(a / 256, b / 256, m);
            let pa = be_bytes(a / 256, m);
            let pb = be_bytes(b / 256, m);
            let i = choose|i: int|
                0 <= i < pa.len() && i < pb.len() && pa.subrange(0, i) == pb.subrange(0, i)
                    && pa[i] < pb[i];
            assert(sa.subrange(0, i) =~= pa.subrange(0, i));
            assert(sb.subrange(0, i) =~= pb.subrange(0, i));
            assert(sa[i] == pa[i]);
            assert(sb[i] == pb[i]);
        } else {
            assert(a / 256 == b / 256);
            assert(a % 256 < b % 256);
            let i = m as int;
            assert(sa.subrange(0, i) =~= be_bytes(a / 256, m));
            assert(sb.subrange(0, i) =~= be_bytes(b / 256, m));
            assert(sa[i] < sb[i]);
        }
    }
}

/// The order of identifiers is the order of their keys: of two identifiers
/// the smaller one has the smaller key, byte by byte.
pub proof fn lemma_key_order(a: u128, b: u128)
    requires
        a < b,
    ensures
        key_of(a).len() == 16,
        key_of(b).len() == 16,
        bytes_lt(key_of(a), key_of(b)),
        !bytes_lt(key_of(b), key_of(a)),
{
    lemma_pow256_16();
    lemma_be_value_of_bytes(a as nat, 16);
    lemma_be_value_of_bytes(b as nat, 16);
    lemma_be_bytes_order(a as nat, b as nat, 16);
    if bytes_lt(key_of(b), key_of(a)) {
        let sa = key_of(a);
        let sb = key_of(b);
        let i = choose|i: int|
            0 <= i < sa.len() && i < sb.len() && sa.subrange(0, i) == sb.subrange(0, i) && sa[i]
                < sb[i];
        let j = choose|j: int|
            0 <= j < sb.len() && j < sa.len() && sb.subrange(0, j) == sa.subrange(0, j) && sb[j]
                < sa[j];
        if i < j {
            assert(sb.subrange(0, j)[i] == sa.subrange(0, j)[i]);
        } else if j < i {
            assert(sa.subrange(0, i)[j] == sb.subrange(0, i)[j]);
        }
    }
}

/// Every identifier of one millisecond lies between the floor and the ceiling
/// of any identifier of that millisecond, and no other identifier does.
pub proof fn lemma_floor_ceiling_bound(at: u128, id: u128)
    ensures
        time_of(id) == time_of(at) <==> floor_of(at) <= id <= ceiling_of(at),
        floor_of(at) <= at <= ceiling_of(at),
        0 <= floor_of(at),
        ceiling_of(at) <= u128::MAX,
{
}

/// The bytes of a number are its high bytes followed by its low bytes.
pub proof fn lemma_be_bytes_split(x: nat, n: nat, m: nat)
    ensures
        be_bytes(x, n + m) == be_bytes(x / pow256(m), n) + be_bytes(x, m),
    decreases m,
{
    if m == 0 {
        assert(pow256(0) == 1);
        assert(x / 1 == x);
        assert(be_bytes(x, n) + be_bytes(x, 0) =~= be_bytes(x, n));
    } else {
        let k = (m - 1) as nat;
        let last = (x % 256) as u8;
        lemma_be_bytes_split(x / 256, n, k);
        lemma_pow256_positive(k);
        vstd::arithmetic::div_mod::lemma_div_denominator(x as int, 256, pow256(k) as int);
        assert(pow256(m) == 256 * pow256(k));
        assert((x / 256) / pow256(k) == x / pow256(m));
        assert((n + m - 1) as nat == n + k);
        assert(be_bytes(x, n + m) == be_bytes(x / 256, n + k).push(last));
        assert(be_bytes(x, m) == be_bytes(x / 256, k).push(last));
        assert((be_bytes(x / pow256(m), n) + be_bytes(x / 256, k)).push(last) =~= be_bytes(
            x / pow256(m),
            n,
        ) + be_bytes(x / 256, k).push(last));
    }
}

/// The low bytes of the least and of the greatest number with given high
/// bytes: all zero, and all `0xFF`.
pub proof fn lemma_low_bytes(t: nat, m: nat)
    ensures
        be_bytes(t * pow256(m), m) == Seq::new(m, |i: int| 0u8),
        be_bytes((t * pow256(m) + pow256(m) - 1) as nat, m) == Seq::new(m, |i: int| 255u8),
    decreases m,
{
    if m == 0 {
        assert(be_bytes(t * pow256(m), m) =~= Seq::new(m, |i: int| 0u8));
        assert(be_bytes((t * pow256(m) + pow256(m) - 1) as nat, m) =~= Seq::new(
            m,
            |i: int| 255u8,
        ));
    } else {
        let k = (m - 1) as nat;
        let p = pow256(k);
        lemma_pow256_positive(k);
        lemma_low_bytes(t, k);
        let lo = t * pow256(m);
        let hi = (t * pow256(m) + pow256(m) - 1) as nat;
        assert(t * (256 * p) == 256 * (t * p)) by (nonlinear_arith);
        assert(lo == 256 * (t * p));
        assert(hi == 256 * (t * p + p - 1) + 255);
        assert(lo / 256 == t * p && lo % 256 == 0);
        assert(hi / 256 == t * p + p - 1 && hi % 256 == 255);
        assert(be_bytes(lo, m) =~= Seq::new(m, |i: int| 0u8));
        assert(be_bytes(hi, m) =~= Seq::new(m, |i: int| 255u8));
    }
}

/// The floor and the ceiling of an identifier are of its millisecond.
pub proof fn lemma_bounds_keep_time(id: u128)
    ensures
        floor_of(id) / suffix_span() == time_of(id),
        ceiling_of(id) / suffix_span() == time_of(id),
{
}

/// The floor and the ceiling in bytes: the six bytes of the time are kept;
/// the ten bytes that follow are zero in the floor and `0xFF` in the ceiling.
pub proof fn lemma_floor_ceiling_keys(id: u128)
    ensures
        0 <= floor_of(id) <= ceiling_of(id) <= u128::MAX,
        key_of(floor_of(id) as u128) == key_of(id).subrange(0, 6) + Seq::new(10, |i: int| 0u8),
        key_of(ceiling_of(id) as u128) == key_of(id).subrange(0, 6) + Seq::new(
            10,
            |i: int| 255u8,
        ),
{
    lemma_floor_ceiling_bound(id, id);
    lemma_pow256_16();
    let t = time_of(id) as nat;
    let lo = floor_of(id) as nat;
    let hi = ceiling_of(id) as nat;
    lemma_be_bytes_split(id as nat, 6, 10);
    lemma_be_bytes_split(lo, 6, 10);
    lemma_be_bytes_split(hi, 6, 10);
    lemma_low_bytes(t, 10);
    lemma_be_value_of_bytes(id as nat / pow256(10), 6);
    assert(key_of(id).subrange(0, 6) =~= be_bytes(t, 6));
    lemma_bounds_keep_time(id);
}

/// Reads an identifier from its key.
pub fn slice_be_to_u128(slice: &[u8]) -> (r: Result<u128, Error>)
    ensures
        slice@.len() == 16 ==> r == Ok::<u128, Error>(be_value(slice@) as u128) && key_of(
            be_value(slice@) as u128,
        ) == slice@,
        slice@.len() != 16 ==> r == Err::<u128, Error>(
            Error::InvalidLengthBytesForUlid(slice@.len() as usize),
        ),
{
    if slice.len() != 16 {
        return Err(Error::InvalidLengthBytesForUlid(slice.len()));
    }
    let mut acc: u128 = 0;
    let mut i: usize = 0;
    while i < 16
        invariant
            i <= 16,
            slice@.len() == 16,
            acc == be_value(slice@.subrange(0, i as int)),
        decreases 16 - i,
    {
        proof {
            let head = slice@.subrange(0, i as int);
            let next = slice@.subrange(0, i + 1);
            assert(next.drop_last() =~= head);
            lemma_be_value_bound(head);
            lemma_be_value_bound(next);
            lemma_pow256_16();
            lemma_pow256_monotonic((i + 1) as nat, 16);
        }
        acc = acc * 256 + slice[i] as u128;
        i = i + 1;
    }
    proof {
        assert(slice@.subrange(0, 16) =~= slice@);
        lemma_bytes_of_be_value(slice@);
        lemma_be_value_bound(slice@);
        lemma_pow256_16();
    }
    Ok(acc)
}

/// The powers of 256 rise with the exponent.
pub proof fn lemma_pow256_monotonic(i: nat, j: nat)
    requires
        i <= j,
    ensures
        pow256(i) <= pow256(j),
    decreases j,
{
    if i < j {
        lemma_pow256_monotonic(i, (j - 1) as nat);
    }
}

/// The key of an identifier: its 16 bytes, the most significant first.
pub fn u128_to_key(id: u128) -> (r: Vec<u8>)
    ensures
        r@ == key_of(id),
        r@.len() == 16,
        be_value(r@) == id,
{
    let mut digits: Vec<u8> = Vec::new();
    let mut i: usize = 0;
    while i < 16
        invariant
            i <= 16,
            digits@.len() == i,
        decreases 16 - i,
    {
        digits.push(0);
        i = i + 1;
    }
    let mut rest: u128 = id;
    let mut n: usize = 0;
    while n < 16
        invariant
            n <= 16,
            digits@.len() == 16,
            forall|k: nat|
                #![trigger be_bytes(rest as nat, k)]
                be_bytes(rest as nat, k) + digits@.subrange(16 - n, 16) == be_bytes(
                    id as nat,
                    k + n as nat,
                ),
        decreases 16 - n,
    {
        let ghost before = digits@;
        let ghost old_rest = rest;
        digits[16 - n - 1] = (rest % 256) as u8;
        rest = rest / 256;
        n = n + 1;
        proof {
            assert forall|k: nat|
                #![trigger be_bytes(rest as nat, k)]
                be_bytes(rest as nat, k) + digits@.subrange(16 - n, 16) == be_bytes(
                    id as nat,
                    k + n as nat,
                ) by {
                let tail_before = before.subrange(16 - (n - 1), 16);
                let tail = digits@.subrange(16 - n, 16);
                assert(tail =~= seq![(old_rest % 256) as u8] + tail_before);
                assert(be_bytes(old_rest as nat, k + 1) == be_bytes(rest as nat, k).push(
                    (old_rest % 256) as u8,
                ));
                assert(be_bytes(rest as nat, k) + tail =~= be_bytes(old_rest as nat, k + 1)
                    + tail_before);
                assert(be_bytes(old_rest as nat, k + 1) + tail_before == be_bytes(
                    id as nat,
                    k + 1 + (n - 1) as nat,
                ));
            }
        }
    }
    proof {
        assert(be_bytes(rest as nat, 0) + digits@.subrange(0, 16) == be_bytes(id as nat, 16));
        assert(be_bytes(rest as nat, 0) + digits@.subrange(0, 16) =~= digits@);
        lemma_be_value_of_bytes(id as nat, 16);
        lemma_pow256_16();
    }
    digits
}

/// The least identifier of the millisecond of `input`: the six bytes of the
/// time kept, the ten that follow set to zero.
pub fn ulid_floor(input: u128) -> (r: u128)
    ensures
        r == floor_of(input),
        key_of(r) == key_of(input).subrange(0, 6) + Seq::new(10, |i: int| 0u8),
{
    proof {
        lemma_floor_ceiling_keys(input);
    }
    input - input % 0x1_0000_0000_0000_0000_0000u128
}

/// The greatest identifier of the millisecond of `input`: the six bytes of the
/// time kept, the ten that follow set to `0xFF`.
pub fn ulid_ceiling(input: u128) -> (r: u128)
    ensures
        r == ceiling_of(input),
        key_of(r) == key_of(input).subrange(0, 6) + Seq::new(10, |i: int| 255u8),
{
    proof {
        lemma_floor_ceiling_keys(input);
    }
    input - input % 0x1_0000_0000_0000_0000_0000u128 + 0xFFFF_FFFF_FFFF_FFFF_FFFFu128
}

/// The timestamp of an identifier, in milliseconds.
pub fn timestamp_ms(id: u128) -> (r: u64)
    ensures
        r == time_of(id),
        r < 0x1_0000_0000_0000u64,
{
    (id / 0x1_0000_0000_0000_0000_0000u128) as u64
}

/// The number of milliseconds in a day.
pub const DAY_MS: u64 = 86_400_000;

/// The number that the proleptic Gregorian calendar gives to 1 January 1970,
/// where 1 January of the year 1 is day 1.
pub const EPOCH_DAY: i32 = 719_163;

/// The first number of milliseconds that the 48 bits of an identifier's time
/// cannot hold.
pub const TIME_SPAN: u64 = 0x1_0000_0000_0000;

/// The day of an identifier's timestamp in UTC, counted as the proleptic
/// Gregorian calendar counts from the year 1.
pub open spec fn day_of(id: u128) -> int {
    time_of(id) / (DAY_MS as int) + EPOCH_DAY
}

/// A point in time: the milliseconds since 1 January 1970 UTC, as many as
/// the 48 bits of an identifier's time can hold.
#[derive(Clone, Copy, Debug)]
pub struct Timestamp {
    millis: u64,
}

impl View for Timestamp {
    type V = int;

    closed spec fn view(&self) -> int {
        self.millis as int
    }
}

impl Timestamp {
    /// Every time that a program holds fits the 48 bits.
    #[verifier::type_invariant]
    spec fn inv(self) -> bool {
        self.millis < TIME_SPAN
    }

    /// The time is one that an identifier can hold. Every `Timestamp` that
    /// a program holds is.
    pub open spec fn wf(&self) -> bool {
        0 <= self@ < TIME_SPAN
    }

    /// The point in time `millis` milliseconds after 1 January 1970 UTC, if
    /// an identifier can hold it.
    pub fn from_millis(millis: u64) -> (r: Option<Timestamp>)
        ensures
            r is Some <==> millis < TIME_SPAN,
            r matches Some(t) ==> t@ == millis && t.wf(),
    {
        if millis < TIME_SPAN {
            Some(Timestamp { millis })
        } else {
            None
        }
    }

    /// The point in time that an identifier holds for `millis` milliseconds
    /// after 1 January 1970 UTC: the milliseconds are wrapped into the 48
    /// bits, so that a time before 1970 or past the 48 bits gives the time
    /// that an identifier made then would show.
    pub fn from_millis_wrapped(millis: i64) -> (r: Timestamp)
        ensures
            r@ == millis as int % (TIME_SPAN as int),
            r.wf(),
    {
        let span: u64 = TIME_SPAN;
        let wrapped: u64 = if millis >= 0 {
            (millis as u64) % span
        } else {
            let below: u64 = (-(millis + 1)) as u64;
            span - 1 - below % span
        };
        Timestamp { millis: wrapped }
    }

    /// The milliseconds since 1 January 1970 UTC.
    pub fn millis(&self) -> (r: u64)
        ensures
            r == self@,
            self.wf(),
    {
        proof {
            use_type_invariant(self);
        }
        self.millis
    }

    /// The timestamp of an identifier.
    pub fn of_id(id: u128) -> (r: Timestamp)
        ensures
            r@ == time_of(id),
            r.wf(),
    {
        Timestamp { millis: timestamp_ms(id) }
    }

    /// The least key bound of this millisecond: the floor of an identifier
    /// made at this time.
    pub fn floor(&self) -> (r: u128)
        ensures
            r == self@ * suffix_span(),
    {
        ulid_floor(from_datetime(self))
    }

    /// The greatest key bound of this millisecond: the ceiling of an
    /// identifier made at this time.
    pub fn ceiling(&self) -> (r: u128)
        ensures
            r == self@ * suffix_span() + suffix_span() - 1,
    {
        ulid_ceiling(from_datetime(self))
    }
}

/// `ulid::Ulid::from_datetime` on the time that
/// `chrono::TimeZone::timestamp_millis_opt` makes of the milliseconds: an
/// identifier whose high 48 bits are the milliseconds and whose low 80 bits
/// are random. Every number of milliseconds below 2 to the 48 is a date
/// before the year 10890, which chrono can hold.
#[verifier::external_body]
fn ulid_at(millis: u64) -> (id: u128)
    requires
        millis < TIME_SPAN,
    ensures
        time_of(id) == millis,
{
    u128::from(ulid::Ulid::from_datetime(chrono::Utc.timestamp_millis_opt(millis as i64).unwrap()))
}

/// A new identifier of a given time: its high 48 bits are the milliseconds
/// of the time, its low 80 bits are left to chance.
pub fn from_datetime(t: &Timestamp) -> (id: u128)
    ensures
        time_of(id) == t@,
        floor_of(id) == t@ * suffix_span(),
        ceiling_of(id) == t@ * suffix_span() + suffix_span() - 1,
{
    ulid_at(t.millis())
}

/// `ulid::Ulid::datetime`, then chrono's `naive_local`, `date` and
/// `num_days_from_ce`: the day of the identifier's timestamp in UTC. Chrono
/// finds the date of a timestamp by dividing its seconds by 86 400 and
/// adding the day number of 1 January 1970.
#[verifier::external_body]
pub(crate) fn ulid_day(id: u128) -> (day: i32)
    ensures
        day == day_of(id),
{
    ulid::Ulid(id).datetime().naive_local().date().num_days_from_ce()
}

/// `ulid::Generator::new`: a generator that has made no identifier yet.
#[verifier::external_body]
fn generator_new() -> (g: ulid::Generator) {
    ulid::Generator::new()
}

/// `ulid::Generator::generate`: a new identifier for the present time, or the
/// refusal to make one. The result depends on the clock and on chance.
#[verifier::external_body]
fn generator_generate(g: &mut ulid::Generator) -> (r: Result<u128, ulid::MonotonicError>) {
    match g.generate() {
        Ok(id) => Ok(u128::from(id)),
        Err(e) => Err(e),
    }
}

/// The text of a `ulid::MonotonicError`, as its `Display` writes it.
#[verifier::external_body]
fn monotonic_error_text(e: &ulid::MonotonicError) -> (r: String) {
    e.to_string()
}

/// What an identifier that is not larger than the last one is told.
pub open spec fn stale_text() -> Seq<char> {
    "the identifier is not larger than the last one"@
}

/// A source of identifiers that hands them out in strictly rising order.
pub struct IdGenerator {
    inner: ulid::Generator,
    last: u128,
}

impl IdGenerator {
    /// The last identifier handed out, or zero before the first.
    pub closed spec fn last(&self) -> u128 {
        self.last
    }

    /// A source that has handed out nothing.
    pub fn new() -> (r: IdGenerator)
        ensures
            r.last() == 0,
    {
        IdGenerator { inner: generator_new(), last: 0 }
    }

    /// Hands out `candidate` if it is larger than every identifier handed
    /// out before, and refuses it otherwise.
    pub fn accept(&mut self, candidate: u128) -> (r: Result<u128, Error>)
        ensures
            candidate > old(self).last() ==> r == Ok::<u128, Error>(candidate)
                && final(self).last() == candidate,
            candidate <= old(self).last() ==> {
                &&& final(self).last() == old(self).last()
                &&& r matches Err(Error::Ulid(t))
                &&& t@ == stale_text()
            },
    {
        if candidate > self.last {
            self.last = candidate;
            Ok(candidate)
        } else {
            Err(Error::Ulid(String::from_str("the identifier is not larger than the last one")))
        }
    }

    /// A new identifier for the present time, larger than every identifier
    /// that this source handed out before. Where the generator refuses, or
    /// what it made does not rise, nothing changes.
    pub fn generate(&mut self) -> (r: Result<u128, Error>)
        ensures
            r matches Ok(id) ==> id > old(self).last() && final(self).last() == id,
            r matches Err(e) ==> e is Ulid && final(self).last() == old(self).last(),
    {
        match generator_generate(&mut self.inner) {
            Ok(id) => self.accept(id),
            Err(e) => Err(Error::Ulid(monotonic_error_text(&e))),
        }
    }
}

} // verus!
