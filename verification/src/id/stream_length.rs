use vstd::prelude::*;
use vstd::relations::injective_on;
use vstd::set_lib::{lemma_int_range, lemma_len_subset, lemma_map_size, set_int_range};
use crate::id::shortcut_generator::{draw, mix, stream, wadd, wmul, GAMMA, MAX_STEPS};

verus! {

/// The generator state after `k` steps from `s`.
pub open spec fn nth(s: u64, k: nat) -> u64
    decreases k,
{
    if k == 0 {
        s
    } else {
        wadd(nth(s, (k - 1) as nat), GAMMA)
    }
}

/// Step `k` from `s` draws a byte of 248 or more, which yields no character.
pub open spec fn rejected(s: u64, k: nat) -> bool {
    draw(nth(s, k)) >= 248
}

/// How many of the first `n` steps from `s` yield no character.
pub open spec fn rejections(s: u64, n: nat) -> nat
    decreases n,
{
    if n == 0 {
        0
    } else {
        rejections(s, (n - 1) as nat) + if rejected(s, (n - 1) as nat) { 1nat } else { 0nat }
    }
}

/// The steps among the first `n` from `s` that yield no character.
pub open spec fn rejected_steps(s: u64, n: nat) -> Set<int> {
    Set::new(|k: int| 0 <= k < n && rejected(s, k as nat))
}

/// SplitMix64's output function is one to one: each of its steps can be
/// undone (the multipliers are odd, with inverses modulo 2^64).
pub proof fn lemma_mix_injective(x: u64, y: u64)
    requires
        mix(x) == mix(y),
    ensures
        x == y,
{
    let a = x ^ (x >> 30u64);
    let b = y ^ (y >> 30u64);
    assert(a ^ (a >> 30u64) ^ (a >> 60u64) == x) by (bit_vector)
        requires
            a == x ^ (x >> 30u64);
    assert(b ^ (b >> 30u64) ^ (b >> 60u64) == y) by (bit_vector)
        requires
            b == y ^ (y >> 30u64);
    let a1 = wmul(a, 0xBF58_476D_1CE4_E5B9u64);
    let b1 = wmul(b, 0xBF58_476D_1CE4_E5B9u64);
    assert(wmul(a1, 0x96DE_1B17_3F11_9089u64) == a) by (bit_vector)
        requires
            a1 == wmul(a, 0xBF58_476D_1CE4_E5B9u64);
    assert(wmul(b1, 0x96DE_1B17_3F11_9089u64) == b) by (bit_vector)
        requires
            b1 == wmul(b, 0xBF58_476D_1CE4_E5B9u64);
    let a2 = a1 ^ (a1 >> 27u64);
    let b2 = b1 ^ (b1 >> 27u64);
    assert(a2 ^ (a2 >> 27u64) ^ (a2 >> 54u64) == a1) by (bit_vector)
        requires
            a2 == a1 ^ (a1 >> 27u64);
    assert(b2 ^ (b2 >> 27u64) ^ (b2 >> 54u64) == b1) by (bit_vector)
        requires
            b2 == b1 ^ (b1 >> 27u64);
    let a3 = wmul(a2, 0x94D0_49BB_1331_11EBu64);
    let b3 = wmul(b2, 0x94D0_49BB_1331_11EBu64);
    assert(wmul(a3, 0x3196_42B2_D24D_8EC3u64) == a2) by (bit_vector)
        requires
            a3 == wmul(a2, 0x94D0_49BB_1331_11EBu64);
    assert(wmul(b3, 0x3196_42B2_D24D_8EC3u64) == b2) by (bit_vector)
        requires
            b3 == wmul(b2, 0x94D0_49BB_1331_11EBu64);
    let a4 = a3 ^ (a3 >> 31u64);
    let b4 = b3 ^ (b3 >> 31u64);
    assert(a4 ^ (a4 >> 31u64) ^ (a4 >> 62u64) == a3) by (bit_vector)
        requires
            a4 == a3 ^ (a3 >> 31u64);
    assert(b4 ^ (b4 >> 31u64) ^ (b4 >> 62u64) == b3) by (bit_vector)
        requires
            b4 == b3 ^ (b3 >> 31u64);
    assert(mix(x) == a4);
    assert(mix(y) == b4);
}

/// After `k < 2^64` steps the state is `s + k * GAMMA` modulo 2^64.
proof fn lemma_nth_closed(s: u64, k: nat)
    requires
        k <= u64::MAX,
    ensures
        nth(s, k) == wadd(s, wmul(k as u64, GAMMA)),
    decreases k,
{
    if k == 0 {
        assert(wadd(s, wmul(0u64, GAMMA)) == s) by (bit_vector);
    } else {
        lemma_nth_closed(s, (k - 1) as nat);
        let j = (k - 1) as u64;
        assert(wadd(wadd(s, wmul(j, GAMMA)), GAMMA) == wadd(s, wmul((j + 1) as u64, GAMMA))) by (bit_vector)
            requires
                j < 0xFFFF_FFFF_FFFF_FFFFu64;
    }
}

/// Distinct step counts below 2^64 reach distinct states (GAMMA is odd).
proof fn lemma_nth_injective(s: u64, a: nat, b: nat)
    requires
        a <= u64::MAX,
        b <= u64::MAX,
        nth(s, a) == nth(s, b),
    ensures
        a == b,
{
    lemma_nth_closed(s, a);
    lemma_nth_closed(s, b);
    let x = a as u64;
    let y = b as u64;
    let gx = wmul(x, GAMMA);
    let gy = wmul(y, GAMMA);
    assert(gx == gy) by (bit_vector)
        requires
            wadd(s, gx) == wadd(s, gy);
    assert(wmul(gx, 0xF1DE_83E1_9937_733Du64) == x) by (bit_vector)
        requires
            gx == wmul(x, GAMMA);
    assert(wmul(gy, 0xF1DE_83E1_9937_733Du64) == y) by (bit_vector)
        requires
            gy == wmul(y, GAMMA);
}

/// Stepping once, then `k` times, is stepping `k + 1` times.
proof fn lemma_nth_shift(s: u64, k: nat)
    ensures
        nth(wadd(s, GAMMA), k) == nth(s, k + 1),
    decreases k,
{
    if k > 0 {
        lemma_nth_shift(s, (k - 1) as nat);
        assert(nth(wadd(s, GAMMA), k) == wadd(nth(wadd(s, GAMMA), (k - 1) as nat), GAMMA));
        assert(nth(s, k + 1) == wadd(nth(s, k), GAMMA));
    } else {
        assert(nth(s, 0) == s);
        assert(nth(s, 1) == wadd(nth(s, 0), GAMMA));
    }
}

proof fn lemma_rejections_shift(s: u64, n: nat)
    ensures
        rejections(wadd(s, GAMMA), n) + (if rejected(s, 0) { 1nat } else { 0nat }) == rejections(s, n + 1),
    decreases n,
{
    if n > 0 {
        lemma_rejections_shift(s, (n - 1) as nat);
        lemma_nth_shift(s, (n - 1) as nat);
        assert(rejected(wadd(s, GAMMA), (n - 1) as nat) == rejected(s, n));
        assert(rejections(s, n + 1) == rejections(s, n) + if rejected(s, n) { 1nat } else { 0nat });
    } else {
        assert(rejections(s, 1) == rejections(s, 0) + if rejected(s, 0) { 1nat } else { 0nat });
    }
}

/// A stream cut short used up all its steps: each gave a character or was
/// rejected.
proof fn lemma_short_stream(s: u64, need: nat, steps: nat)
    ensures
        stream(s, need, steps).len() < need ==> stream(s, need, steps).len() + rejections(s, steps) == steps,
    decreases steps,
{
    if need > 0 && steps > 0 {
        let next = wadd(s, GAMMA);
        lemma_rejections_shift(s, (steps - 1) as nat);
        if draw(s) < 248 {
            lemma_short_stream(next, (need - 1) as nat, (steps - 1) as nat);
        } else {
            lemma_short_stream(next, need, (steps - 1) as nat);
        }
    }
}

proof fn lemma_rejections_set(s: u64, n: nat)
    ensures
        rejected_steps(s, n).finite(),
        rejected_steps(s, n).len() == rejections(s, n),
    decreases n,
{
    if n == 0 {
        assert(rejected_steps(s, n) =~= Set::<int>::empty());
    } else {
        let m = (n - 1) as nat;
        lemma_rejections_set(s, m);
        if rejected(s, m) {
            assert(rejected_steps(s, n) =~= rejected_steps(s, m).insert(m as int));
        } else {
            assert(rejected_steps(s, n) =~= rejected_steps(s, m));
        }
    }
}

/// Where a rejected draw's output lands among the 2^59 outputs whose low byte
/// is 248 or more.
pub open spec fn rejected_slot(x: u64) -> int {
    (x >> 8u64) * 8 + (x & 0xFFu64) - 248
}

/// Fewer than 2^59 + 1 of any 2^64 - 1 steps are rejected: the steps reach
/// distinct states, `mix` sends them to distinct outputs, and only 2^59
/// outputs have a low byte of 248 or more.
pub proof fn lemma_few_rejections(s: u64, n: nat)
    requires
        n <= u64::MAX,
    ensures
        rejections(s, n) <= 0x800_0000_0000_0000,
{
    lemma_rejections_set(s, n);
    let r = rejected_steps(s, n);
    let h = |k: int| rejected_slot(mix(nth(s, (k + 1) as nat)));
    assert forall|k: int| #[trigger] r.contains(k) implies 0 <= h(k) < 0x800_0000_0000_0000 && (mix(nth(s, (k + 1) as nat)) & 0xFFu64) >= 248 by {
        let x = mix(nth(s, (k + 1) as nat));
        assert(draw(nth(s, k as nat)) >= 248);
        assert((x & 0xFFu64) >= 248 ==> 0 <= (x >> 8u64) * 8 + (x & 0xFFu64) - 248 < 0x800_0000_0000_0000) by (bit_vector);
        assert(((x & 0xFFu64) as u8) >= 248 ==> (x & 0xFFu64) >= 248) by (bit_vector);
    }
    assert forall|a: int, b: int| r.contains(a) && r.contains(b) && #[trigger] h(a) == #[trigger] h(b) implies a == b by {
        let x = mix(nth(s, (a + 1) as nat));
        let y = mix(nth(s, (b + 1) as nat));
        assert(x == y) by (bit_vector)
            requires
                (x & 0xFFu64) >= 248,
                (y & 0xFFu64) >= 248,
                (x >> 8u64) * 8 + (x & 0xFFu64) - 248 == (y >> 8u64) * 8 + (y & 0xFFu64) - 248;
        lemma_mix_injective(nth(s, (a + 1) as nat), nth(s, (b + 1) as nat));
        lemma_nth_injective(s, (a + 1) as nat, (b + 1) as nat);
    }
    assert(injective_on(h, r));
    lemma_map_size(r, r.map(h), h);
    lemma_int_range(0, 0x800_0000_0000_0000);
    assert(r.map(h).subset_of(set_int_range(0, 0x800_0000_0000_0000)));
    lemma_len_subset(r.map(h), set_int_range(0, 0x800_0000_0000_0000));
}

/// Within the step bound a stream always gives every character asked of it
/// (at most 255): so the bound is never what ends a code.
pub proof fn lemma_stream_full(s: u64, need: nat)
    requires
        need <= 255,
    ensures
        stream(s, need, MAX_STEPS as nat).len() == need,
{
    crate::id::shortcut_generator::lemma_stream_shape(s, need, MAX_STEPS as nat);
    lemma_short_stream(s, need, MAX_STEPS as nat);
    lemma_few_rejections(s, MAX_STEPS as nat);
}

} // verus!
