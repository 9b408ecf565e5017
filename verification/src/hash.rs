//! A 64-bit multiplicative string hash, used as the deduplication key of
//! stored texts.
use vstd::prelude::*;
use vstd::arithmetic::div_mod::*;

verus! {

/// Initial state of the hash.
pub const START: u64 = 5431;
/// Multiplier applied after every byte.
pub const MULT: u64 = 847209285431;
/// Left shift applied to the state before every byte.
pub const SHIFT: u64 = 5;

/// 2^64, the modulus of all hash arithmetic.
pub open spec fn modulus() -> nat {
    0x1_0000_0000_0000_0000
}

/// One round of the hash: the state `h` absorbs byte `b`,
/// giving `(33 * h * MULT + b) mod 2^64`.
pub open spec fn hash_step(h: u64, b: u8) -> u64 {
    ((33 * h * MULT + b) % (modulus() as int)) as u64
}

/// The state after absorbing every byte of `bytes`, starting from `START`.
pub open spec fn hash_state(bytes: Seq<u8>) -> u64
    decreases bytes.len(),
{
    if bytes.len() == 0 {
        START
    } else {
        hash_step(hash_state(bytes.drop_last()), bytes.last())
    }
}

/// The final mixing: `(2 * h * MULT) mod 2^64`.
pub open spec fn hash_finish(h: u64) -> u64 {
    ((2 * h * MULT) % (modulus() as int)) as u64
}

/// The hash of a byte string.
pub open spec fn hash_bytes(bytes: Seq<u8>) -> u64 {
    hash_finish(hash_state(bytes))
}

/// The hash of a text: the hash of its UTF-8 encoding.
pub open spec fn spec_hash(text: Seq<char>) -> u64 {
    hash_bytes(vstd::utf8::encode_utf8(text))
}

/// The wrapping operations of one round compute `hash_step`.
proof fn lemma_round(h: u64, b: u8)
    ensures
        vstd::wrapping::u64_specs::wrapping_add(
            vstd::wrapping::u64_specs::wrapping_mul(
                vstd::wrapping::u64_specs::wrapping_add(h << 5u64, h),
                MULT,
            ),
            b as u64,
        ) == hash_step(h, b),
{
    let m: int = modulus() as int;
    let s: u64 = h << 5u64;
    assert((h << 5u64) == ((h * 32) % 0x1_0000_0000_0000_0000) as u64) by (bit_vector);
    let a: u64 = vstd::wrapping::u64_specs::wrapping_add(s, h);
    assert(a == ((33 * h) % m) as u64) by {
        lemma_add_mod_noop(h * 32, h as int, m);
        lemma_small_mod(h as nat, m as nat);
        lemma_mod_bound(h * 32, m);
        if s + h > u64::MAX {
            lemma_mod_self_0(m);
            lemma_add_mod_noop(s + h - m, m, m);
            lemma_small_mod((s + h - m) as nat, m as nat);
        } else {
            lemma_small_mod((s + h) as nat, m as nat);
        }
    }
    let p: u64 = vstd::wrapping::u64_specs::wrapping_mul(a, MULT);
    assert(p == ((33 * h * MULT) % m) as u64) by {
        lemma_mul_mod_noop_left(33 * h, MULT as int, m);
    }
    let r: u64 = vstd::wrapping::u64_specs::wrapping_add(p, b as u64);
    assert(r == ((33 * h * MULT + b) % m) as u64) by {
        lemma_add_mod_noop(33 * h * MULT, b as int, m);
        lemma_small_mod(b as nat, m as nat);
        lemma_mod_bound(33 * h * MULT, m);
        if p + b > u64::MAX {
            lemma_mod_self_0(m);
            lemma_add_mod_noop(p + b - m, m, m);
            lemma_small_mod((p + b - m) as nat, m as nat);
        } else {
            lemma_small_mod((p + b) as nat, m as nat);
        }
    }
}

/// The wrapping operations of the final mixing compute `hash_finish`.
proof fn lemma_finish(h: u64)
    ensures
        vstd::wrapping::u64_specs::wrapping_mul(
            vstd::wrapping::u64_specs::wrapping_add(h, h),
            MULT,
        ) == hash_finish(h),
{
    let m: int = modulus() as int;
    let a: u64 = vstd::wrapping::u64_specs::wrapping_add(h, h);
    assert(a == ((2 * h) % m) as u64) by {
        if h + h > u64::MAX {
            lemma_mod_self_0(m);
            lemma_add_mod_noop(h + h - m, m, m);
            lemma_small_mod((h + h - m) as nat, m as nat);
        } else {
            lemma_small_mod((h + h) as nat, m as nat);
        }
    }
    lemma_mul_mod_noop_left(2 * h, MULT as int, m);
}

/// Hashes `text` byte by byte over its UTF-8 encoding.
pub fn hash(text: &str) -> (digest: u64)
    ensures
        digest == spec_hash(text@),
{
    let bytes: &[u8] = text.as_bytes();
    let n: usize = bytes.len();
    let mut state: u64 = START;
    let mut i: usize = 0;
    while i < n
        invariant
            n == bytes@.len(),
            bytes@ == vstd::utf8::encode_utf8(text@),
            i <= n,
            state == hash_state(bytes@.take(i as int)),
        decreases n - i,
    {
        let byte: u8 = bytes[i];
        proof {
            lemma_round(state, byte);
            assert(bytes@.take(i + 1).drop_last() =~= bytes@.take(i as int));
        }
        state = (state << SHIFT).wrapping_add(state).wrapping_mul(MULT).wrapping_add(byte as u64);
        i = i + 1;
    }
    proof {
        lemma_finish(state);
        assert(bytes@.take(n as int) =~= bytes@);
    }
    state.wrapping_add(state).wrapping_mul(MULT)
}

/// A round keeps two states apart in their low byte: the low byte of the
/// multiplier `33 * MULT` is odd, so a round is one-to-one on low bytes.
proof fn lemma_step_keeps_low_byte_apart(x: u64, y: u64, b: u8)
    requires
        x % 256 != y % 256,
    ensures
        hash_step(x, b) % 256 != hash_step(y, b) % 256,
{
    assert(x % 256 != y % 256 ==> ((33 * x * 847209285431u64 + b) % 0x1_0000_0000_0000_0000) as u64
        % 256 != ((33 * y * 847209285431u64 + b) % 0x1_0000_0000_0000_0000) as u64 % 256)
        by (bit_vector);
}

/// From one state, two different bytes give states with different low bytes.
proof fn lemma_step_separates_bytes(x: u64, b: u8, c: u8)
    requires
        b != c,
    ensures
        hash_step(x, b) % 256 != hash_step(x, c) % 256,
{
    assert(b != c ==> ((33 * x * 847209285431u64 + b) % 0x1_0000_0000_0000_0000) as u64 % 256
        != ((33 * x * 847209285431u64 + c) % 0x1_0000_0000_0000_0000) as u64 % 256)
        by (bit_vector);
}

/// The final mixing keeps states with different low bytes apart.
proof fn lemma_finish_keeps_low_byte_apart(x: u64, y: u64)
    requires
        x % 256 != y % 256,
    ensures
        hash_finish(x) != hash_finish(y),
{
    assert(x % 256 != y % 256 ==> ((2 * x * 847209285431u64) % 0x1_0000_0000_0000_0000) as u64
        != ((2 * y * 847209285431u64) % 0x1_0000_0000_0000_0000) as u64) by (bit_vector);
}

/// Two byte strings that differ only at index `i` have states with
/// different low bytes after every prefix longer than `i`.
proof fn lemma_states_apart(x: Seq<u8>, y: Seq<u8>, i: int, k: int)
    requires
        x.len() == y.len(),
        0 <= i < k <= x.len(),
        x[i] != y[i],
        forall|j: int| 0 <= j < x.len() && j != i ==> x[j] == y[j],
    ensures
        hash_state(x.take(k)) % 256 != hash_state(y.take(k)) % 256,
    decreases k,
{
    assert(x.take(k).drop_last() =~= x.take(k - 1));
    assert(y.take(k).drop_last() =~= y.take(k - 1));
    if k == i + 1 {
        assert(x.take(i) =~= y.take(i));
        lemma_step_separates_bytes(hash_state(x.take(i)), x[i], y[i]);
    } else {
        lemma_states_apart(x, y, i, k - 1);
        lemma_step_keeps_low_byte_apart(
            hash_state(x.take(k - 1)),
            hash_state(y.take(k - 1)),
            x[k - 1],
        );
    }
}

/// Changing one byte of a byte string changes its hash: two byte strings
/// of equal length that differ at exactly one index hash differently.
pub proof fn law_one_byte_change_changes_hash_bytes(x: Seq<u8>, y: Seq<u8>, i: int)
    requires
        x.len() == y.len(),
        0 <= i < x.len(),
        x[i] != y[i],
        forall|j: int| 0 <= j < x.len() && j != i ==> x[j] == y[j],
    ensures
        hash_bytes(x) != hash_bytes(y),
{
    lemma_states_apart(x, y, i, x.len() as int);
    assert(x.take(x.len() as int) =~= x);
    assert(y.take(y.len() as int) =~= y);
    lemma_finish_keeps_low_byte_apart(hash_state(x), hash_state(y));
}

/// Changing one byte of a text changes its hash: two texts whose UTF-8
/// encodings have equal length and differ at exactly one index hash
/// differently under `hash`.
pub proof fn law_one_byte_change_changes_hash(a: Seq<char>, b: Seq<char>, i: int)
    requires
        vstd::utf8::encode_utf8(a).len() == vstd::utf8::encode_utf8(b).len(),
        0 <= i < vstd::utf8::encode_utf8(a).len(),
        vstd::utf8::encode_utf8(a)[i] != vstd::utf8::encode_utf8(b)[i],
        forall|j: int|
            0 <= j < vstd::utf8::encode_utf8(a).len() && j != i ==> vstd::utf8::encode_utf8(a)[j]
                == vstd::utf8::encode_utf8(b)[j],
    ensures
        spec_hash(a) != spec_hash(b),
{
    law_one_byte_change_changes_hash_bytes(vstd::utf8::encode_utf8(a), vstd::utf8::encode_utf8(b), i);
}

} // verus!
