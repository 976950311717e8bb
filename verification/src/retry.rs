//! How long a failed step waits before it is tried again.

use vstd::prelude::*;

verus! {

pub const RETRY_INITIAL_SECS: u64 = 3;

pub const RETRY_MAX_SECS: u64 = 300;

pub const RETRY_JITTER_MAX_SECS: u64 = 5;

/// The delay before the attempt after `failures` failures: three seconds,
/// doubled with each further failure, and never more than five minutes.
pub open spec fn backoff_secs(failures: nat) -> nat
    decreases failures,
{
    if failures <= 1 {
        RETRY_INITIAL_SECS as nat
    } else if 2 * backoff_secs((failures - 1) as nat) < RETRY_MAX_SECS {
        2 * backoff_secs((failures - 1) as nat)
    } else {
        RETRY_MAX_SECS as nat
    }
}

/// The delays stay between the first and the longest one.
pub proof fn backoff_is_bounded(failures: nat)
    ensures
        RETRY_INITIAL_SECS <= backoff_secs(failures) <= RETRY_MAX_SECS,
    decreases failures,
{
    if failures > 1 {
        backoff_is_bounded((failures - 1) as nat);
    }
}

/// A further failure never shortens the delay.
pub proof fn backoff_never_shrinks(fewer: nat, more: nat)
    requires
        fewer <= more,
    ensures
        backoff_secs(fewer) <= backoff_secs(more),
    decreases more,
{
    if fewer < more {
        backoff_never_shrinks(fewer, (more - 1) as nat);
        backoff_is_bounded((more - 1) as nat);
    }
}

/// From the eighth failure on the delay is the longest one.
proof fn lemma_backoff_saturates(failures: nat)
    requires
        failures >= 8,
    ensures
        backoff_secs(failures) == RETRY_MAX_SECS,
    decreases failures,
{
    lemma_backoff_start();
    if failures > 8 {
        lemma_backoff_saturates((failures - 1) as nat);
    }
}

proof fn lemma_backoff_start()
    ensures
        backoff_secs(0) == 3,
        backoff_secs(1) == 3,
        backoff_secs(2) == 6,
        backoff_secs(3) == 12,
        backoff_secs(4) == 24,
        backoff_secs(5) == 48,
        backoff_secs(6) == 96,
        backoff_secs(7) == 192,
        backoff_secs(8) == 300,
{
    reveal_with_fuel(backoff_secs, 10);
}

fn doubled(exponent: u32) -> (r: u64)
    requires
        exponent <= 63,
    ensures
        r == backoff_secs((exponent + 1) as nat),
{
    proof {
        lemma_backoff_start();
        if exponent >= 7 {
            lemma_backoff_saturates((exponent + 1) as nat);
        }
        assert(3u64 << 0u32 == 3 && 3u64 << 1u32 == 6 && 3u64 << 2u32 == 12 && 3u64 << 3u32 == 24
            && 3u64 << 4u32 == 48 && 3u64 << 5u32 == 96 && 3u64 << 6u32 == 192) by (bit_vector);
        assert(7 <= exponent <= 63 ==> 3u64 << exponent >= 300) by (bit_vector);
    }
    let shifted = RETRY_INITIAL_SECS << exponent;
    if shifted < RETRY_MAX_SECS {
        shifted
    } else {
        RETRY_MAX_SECS
    }
}

/// Capped exponential backoff for work that has one attempt in flight.
pub fn unjittered_retry_delay_secs(failures: u32) -> (r: u64)
    ensures
        r == backoff_secs(failures as nat),
        RETRY_INITIAL_SECS <= r <= RETRY_MAX_SECS,
{
    proof {
        backoff_is_bounded(failures as nat);
        lemma_backoff_start();
        if failures > 64 {
            lemma_backoff_saturates(failures as nat);
            lemma_backoff_saturates(64);
        }
    }
    let steps: u32 = if failures == 0 {
        0
    } else {
        failures - 1
    };
    doubled(if steps < 63 {
        steps
    } else {
        63
    })
}

/// One more step of the jitter hash.
pub open spec fn fnv_step(hash: u64, byte: u8) -> u64 {
    (((hash ^ (byte as u64)) as int * 0x100000001b3) % 0x1_0000_0000_0000_0000) as u64
}

/// The 64-bit FNV-1a hash of a run of bytes, from a given state on.
pub open spec fn fnv1a(hash: u64, bytes: Seq<u8>) -> u64
    decreases bytes.len(),
{
    if bytes.len() == 0 {
        hash
    } else {
        fnv_step(fnv1a(hash, bytes.drop_last()), bytes.last())
    }
}

/// The eight bytes of a number, the highest first.
pub open spec fn be_bytes(n: u64) -> Seq<u8> {
    Seq::new(8, |i: int| ((n >> ((8 * (7 - i)) as u64)) & 0xff) as u8)
}

/// The bytes that spread one publish lane's attempts.
pub open spec fn jitter_bytes(intent_id: u64, relay: Seq<u8>, ordinal: u64) -> Seq<u8> {
    be_bytes(intent_id) + relay + be_bytes(ordinal)
}

pub const FNV_OFFSET: u64 = 0xcbf29ce484222325;

pub const FNV_PRIME: u64 = 0x100000001b3;

fn hash_bytes(hash: u64, bytes: &[u8]) -> (r: u64)
    ensures
        r == fnv1a(hash, bytes@),
{
    let mut h: u64 = hash;
    let mut i: usize = 0;
    assert(bytes@.take(0) =~= Seq::<u8>::empty());
    while i < bytes.len()
        invariant
            i <= bytes@.len(),
            h == fnv1a(hash, bytes@.take(i as int)),
        decreases bytes@.len() - i,
    {
        proof {
            assert(bytes@.take(i + 1).drop_last() =~= bytes@.take(i as int));
            assert(bytes@.take(i + 1).last() == bytes@[i as int]);
        }
        h = (h ^ (bytes[i] as u64)).wrapping_mul(FNV_PRIME);
        i = i + 1;
    }
    assert(bytes@.take(i as int) =~= bytes@);
    h
}

fn hash_number(hash: u64, n: u64) -> (r: u64)
    ensures
        r == fnv1a(hash, be_bytes(n)),
{
    let mut h: u64 = hash;
    let mut i: u64 = 0;
    assert(be_bytes(n).take(0) =~= Seq::<u8>::empty());
    while i < 8
        invariant
            i <= 8,
            h == fnv1a(hash, be_bytes(n).take(i as int)),
        decreases 8 - i,
    {
        proof {
            let b = be_bytes(n);
            assert(b.take(i + 1).drop_last() =~= b.take(i as int));
            assert(b.take(i + 1).last() == b[i as int]);
        }
        let shift: u64 = 8 * (7 - i);
        let low: u64 = (n >> shift) & 0xff;
        assert(low <= 0xff) by (bit_vector)
            requires
                low == (n >> shift) & 0xff,
        ;
        let byte: u8 = low as u8;
        h = (h ^ (byte as u64)).wrapping_mul(FNV_PRIME);
        i = i + 1;
    }
    assert(be_bytes(n).take(8) =~= be_bytes(n));
    h
}

proof fn lemma_fnv_concat(hash: u64, a: Seq<u8>, b: Seq<u8>)
    ensures
        fnv1a(hash, a + b) == fnv1a(fnv1a(hash, a), b),
    decreases b.len(),
{
    if b.len() == 0 {
        assert(a + b =~= a);
    } else {
        assert((a + b).drop_last() =~= a + b.drop_last());
        assert((a + b).last() == b.last());
        lemma_fnv_concat(hash, a, b.drop_last());
    }
}

/// The delay before one publish lane's next attempt: the capped backoff, and
/// up to four seconds of jitter that every process computes alike.
pub fn retry_delay_secs(intent_id: u64, relay: &[u8], ordinal: u64) -> (r: u64)
    ensures
        r == backoff_secs(ordinal as nat) + fnv1a(
            FNV_OFFSET,
            jitter_bytes(intent_id, relay@, ordinal),
        ) % RETRY_JITTER_MAX_SECS,
        RETRY_INITIAL_SECS <= r < RETRY_MAX_SECS + RETRY_JITTER_MAX_SECS,
{
    proof {
        backoff_is_bounded(ordinal as nat);
        lemma_backoff_start();
        if ordinal > 64 {
            lemma_backoff_saturates(ordinal as nat);
            lemma_backoff_saturates(64);
        }
        lemma_fnv_concat(FNV_OFFSET, be_bytes(intent_id), relay@);
        lemma_fnv_concat(FNV_OFFSET, be_bytes(intent_id) + relay@, be_bytes(ordinal));
    }
    let steps: u64 = if ordinal == 0 {
        0
    } else {
        ordinal - 1
    };
    let base = doubled(if steps < 63 {
        steps as u32
    } else {
        63
    });
    let mut hash: u64 = hash_number(FNV_OFFSET, intent_id);
    hash = hash_bytes(hash, relay);
    hash = hash_number(hash, ordinal);
    base + hash % RETRY_JITTER_MAX_SECS
}

/// A first failure waits three seconds, every further one twice as long as the one
/// before, and none longer than five minutes.
pub proof fn each_failure_doubles_the_delay(failures: nat)
    ensures
        backoff_secs(0) == 3,
        backoff_secs(1) == 3,
        failures >= 1 && 2 * backoff_secs(failures) <= 300 ==> backoff_secs(failures + 1) == 2 * backoff_secs(
            failures,
        ),
        failures >= 1 && 2 * backoff_secs(failures) > 300 ==> backoff_secs(failures + 1) == 300,
        backoff_secs(failures) <= 300,
{
    lemma_backoff_start();
    backoff_is_bounded(failures);
}

/// The bytes of a number, the highest first, give the number back.
pub proof fn bytes_give_the_number_back(n: u64)
    ensures
        be_bytes(n).len() == 8,
        n == be_bytes(n)[0] * 0x100_0000_0000_0000 + be_bytes(n)[1] * 0x1_0000_0000_0000 + be_bytes(n)[2]
            * 0x100_0000_0000 + be_bytes(n)[3] * 0x1_0000_0000 + be_bytes(n)[4] * 0x100_0000 + be_bytes(n)[5]
            * 0x1_0000 + be_bytes(n)[6] * 0x100 + be_bytes(n)[7],
{
    let a = ((n >> 56u64) & 0xff) as u8;
    let b = ((n >> 48u64) & 0xff) as u8;
    let c = ((n >> 40u64) & 0xff) as u8;
    let d = ((n >> 32u64) & 0xff) as u8;
    let e = ((n >> 24u64) & 0xff) as u8;
    let f = ((n >> 16u64) & 0xff) as u8;
    let g = ((n >> 8u64) & 0xff) as u8;
    let h = ((n >> 0u64) & 0xff) as u8;
    assert(n == (a as u64) * 0x100_0000_0000_0000 + (b as u64) * 0x1_0000_0000_0000 + (c as u64)
        * 0x100_0000_0000 + (d as u64) * 0x1_0000_0000 + (e as u64) * 0x100_0000 + (f as u64) * 0x1_0000 + (
    g as u64) * 0x100 + (h as u64)) by (bit_vector)
        requires
            a == ((n >> 56u64) & 0xff) as u8,
            b == ((n >> 48u64) & 0xff) as u8,
            c == ((n >> 40u64) & 0xff) as u8,
            d == ((n >> 32u64) & 0xff) as u8,
            e == ((n >> 24u64) & 0xff) as u8,
            f == ((n >> 16u64) & 0xff) as u8,
            g == ((n >> 8u64) & 0xff) as u8,
            h == ((n >> 0u64) & 0xff) as u8,
    ;
    let q = be_bytes(n);
    assert(q[0] == a && q[1] == b && q[2] == c && q[3] == d && q[4] == e && q[5] == f && q[6] == g && q[7]
        == h);
}

/// The jitter of a lane goes by its intent, the address of its relay and the number of
/// the attempt, one after the other and all of each.
pub proof fn jitter_goes_by_the_whole_lane(intent_id: u64, relay: Seq<u8>, ordinal: u64)
    ensures
        ({
            let q = jitter_bytes(intent_id, relay, ordinal);
            &&& q.len() == 16 + relay.len()
            &&& q.take(8) == be_bytes(intent_id)
            &&& q.subrange(8, 8 + relay.len() as int) == relay
            &&& q.skip(8 + relay.len() as int) == be_bytes(ordinal)
        }),
{
    let q = jitter_bytes(intent_id, relay, ordinal);
    assert(q.take(8) =~= be_bytes(intent_id));
    assert(q.subrange(8, 8 + relay.len() as int) =~= relay);
    assert(q.skip(8 + relay.len() as int) =~= be_bytes(ordinal));
}

/// The hash takes one byte after the other: of nothing it is where it starts, and one
/// byte more is mixed in and spread by the prime, within 64 bits.
pub proof fn hash_takes_byte_after_byte(hash: u64, bytes: Seq<u8>, byte: u8)
    ensures
        fnv1a(hash, Seq::empty()) == hash,
        fnv1a(hash, bytes.push(byte)) == ((fnv1a(hash, bytes) ^ (byte as u64)) * 0x100000001b3)
            % 0x1_0000_0000_0000_0000,
        FNV_OFFSET == 0xcbf29ce484222325,
{
    assert(bytes.push(byte).drop_last() =~= bytes);
}

} // verus!
