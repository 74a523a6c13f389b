use vstd::prelude::*;

verus! {

/// The constant mixed into the id before the stream starts.
pub const SALT: u64 = 0xD6E8_FEB8_6659_FD93;

/// The SplitMix64 increment.
pub const GAMMA: u64 = 0x9E37_79B9_7F4A_7C15;

/// Bound on the number of generator steps one call may take; it is never
/// reached (see `stream_length::lemma_stream_full`).
pub const MAX_STEPS: u64 = 0xFFFF_FFFF_FFFF_FFFF;

/// `a + b` modulo 2^64.
pub open spec fn wadd(a: u64, b: u64) -> u64 {
    ((a as int + b as int) % 0x1_0000_0000_0000_0000) as u64
}

/// `a * b` modulo 2^64.
pub open spec fn wmul(a: u64, b: u64) -> u64 {
    ((a as int * b as int) % 0x1_0000_0000_0000_0000) as u64
}

/// The SplitMix64 output function applied to a state.
pub open spec fn mix(s: u64) -> u64 {
    let z1 = wmul(s ^ (s >> 30u64), 0xBF58_476D_1CE4_E5B9u64);
    let z2 = wmul(z1 ^ (z1 >> 27u64), 0x94D0_49BB_1331_11EBu64);
    z2 ^ (z2 >> 31u64)
}

/// The low byte of the output drawn at the state reached after one step.
pub open spec fn draw(state: u64) -> u8 {
    (mix(wadd(state, GAMMA)) & 0xFFu64) as u8
}

/// The `i`-th character of "0-9A-Za-z".
pub open spec fn alphabet(i: int) -> char {
    if i < 10 {
        (48 + i) as char
    } else if i < 36 {
        (65 + i - 10) as char
    } else {
        (97 + i - 36) as char
    }
}

/// Characters produced from `state` on: each step draws a byte; a byte below
/// 248 yields `alphabet(byte % 62)`, larger bytes are skipped. Stops after
/// `need` characters or `steps` steps.
pub open spec fn stream(state: u64, need: nat, steps: nat) -> Seq<char>
    decreases steps,
{
    if need == 0 || steps == 0 {
        Seq::empty()
    } else {
        let next = wadd(state, GAMMA);
        let b = draw(state);
        if b < 248 {
            seq![alphabet((b % 62) as int)] + stream(next, (need - 1) as nat, (steps - 1) as nat)
        } else {
            stream(next, need, (steps - 1) as nat)
        }
    }
}

/// The code that `create(id, length)` returns.
pub open spec fn shortcut(id: u64, length: u8) -> Seq<char> {
    stream(id ^ SALT, length as nat, MAX_STEPS as nat)
}

/// Whether `c` is an ASCII digit or letter.
pub open spec fn is_alphanumeric(c: char) -> bool {
    ('0' <= c <= '9') || ('A' <= c <= 'Z') || ('a' <= c <= 'z')
}

fn alphabet_char(idx: u8) -> (c: char)
    requires
        idx < 62,
    ensures
        c == alphabet(idx as int),
{
    if idx < 10 {
        (48u8 + idx) as char
    } else if idx < 36 {
        (65u8 + idx - 10) as char
    } else {
        (97u8 + idx - 36) as char
    }
}

proof fn lemma_stream_step(state: u64, need: nat, steps: nat)
    requires
        need > 0,
        steps > 0,
    ensures
        stream(state, need, steps) == (if draw(state) < 248 {
            seq![alphabet((draw(state) % 62) as int)] + stream(wadd(state, GAMMA), (need - 1) as nat, (steps - 1) as nat)
        } else {
            stream(wadd(state, GAMMA), need, (steps - 1) as nat)
        }),
{
}

/// Derives a short code of `length` characters from `id` with a salted
/// SplitMix64 stream, keeping only bytes below 248 so that each character is
/// uniform over the 62 digits and letters.
pub fn create(id: u64, length: u8) -> (out: String)
    ensures
        out@ == shortcut(id, length),
        out@.len() == length,
        forall|i: int| 0 <= i < out@.len() ==> is_alphanumeric(#[trigger] out@[i]),
{
    proof {
        lemma_shortcut_shape(id, length, length);
    }
    let target_len = length as usize;
    let mut out = crate::text::string_with_capacity(target_len);
    let mut count: usize = 0;
    let mut state: u64 = id ^ SALT;
    let mut steps: u64 = 0;
    while count < target_len && steps < MAX_STEPS
        invariant
            count <= target_len,
            target_len == length,
            out@.len() == count,
            out@ + stream(state, (target_len - count) as nat, (MAX_STEPS - steps) as nat)
                == shortcut(id, length),
        decreases MAX_STEPS - steps,
    {
        proof {
            lemma_stream_step(state, (target_len - count) as nat, (MAX_STEPS - steps) as nat);
        }
        let ghost old_out = out@;
        let ghost old_state = state;
        state = state.wrapping_add(GAMMA);
        let mut z = state;
        z = (z ^ (z >> 30)).wrapping_mul(0xBF58_476D_1CE4_E5B9);
        z = (z ^ (z >> 27)).wrapping_mul(0x94D0_49BB_1331_11EB);
        z ^= z >> 31;
        let byte = (z & 0xFF) as u8;
        assert(byte == draw(old_state));
        if byte < 248 {
            let idx = byte % 62;
            crate::text::string_push(&mut out, alphabet_char(idx));
            count = count + 1;
            assert(out@ == old_out + seq![alphabet((draw(old_state) % 62) as int)]);
        }
        steps = steps + 1;
    }
    out
}

pub(crate) proof fn lemma_stream_shape(state: u64, need: nat, steps: nat)
    ensures
        stream(state, need, steps).len() <= need,
        forall|i: int| 0 <= i < stream(state, need, steps).len() ==> is_alphanumeric(#[trigger] stream(state, need, steps)[i]),
    decreases steps,
{
    if need > 0 && steps > 0 {
        let next = wadd(state, GAMMA);
        let b = draw(state);
        if b < 248 {
            lemma_stream_shape(next, (need - 1) as nat, (steps - 1) as nat);
            let c = alphabet((b % 62) as int);
            assert(is_alphanumeric(c));
            let rest = stream(next, (need - 1) as nat, (steps - 1) as nat);
            assert forall|i: int| 0 <= i < stream(state, need, steps).len() implies is_alphanumeric(#[trigger] stream(state, need, steps)[i]) by {
                if i > 0 {
                    assert(stream(state, need, steps)[i] == rest[i - 1]);
                }
            }
        } else {
            lemma_stream_shape(next, need, (steps - 1) as nat);
        }
    }
}

#[verifier::spinoff_prover]
proof fn lemma_stream_prefix(state: u64, n: nat, m: nat, steps: nat)
    requires
        n <= m,
    ensures
        stream(state, n, steps).len() <= stream(state, m, steps).len(),
        stream(state, n, steps) == stream(state, m, steps).subrange(0, stream(state, n, steps).len() as int),
    decreases steps,
{
    if n > 0 && steps > 0 {
        let next = wadd(state, GAMMA);
        let b = draw(state);
        if b < 248 {
            lemma_stream_prefix(next, (n - 1) as nat, (m - 1) as nat, (steps - 1) as nat);
            let c = seq![alphabet((b % 62) as int)];
            let x = stream(next, (n - 1) as nat, (steps - 1) as nat);
            let y = stream(next, (m - 1) as nat, (steps - 1) as nat);
            assert(stream(state, n, steps) == c + x);
            assert(stream(state, m, steps) == c + y);
            assert(c + x =~= (c + y).subrange(0, (c + x).len() as int));
        } else {
            lemma_stream_prefix(next, n, m, (steps - 1) as nat);
            assert(stream(state, n, steps) == stream(next, n, (steps - 1) as nat));
            assert(stream(state, m, steps) == stream(next, m, (steps - 1) as nat));
        }
    } else if steps > 0 {
        assert(stream(state, n, steps) =~= stream(state, m, steps).subrange(0, 0));
    }
}

/// A short code has exactly the length asked for and is made of ASCII digits
/// and letters only; a shorter code of the same id is a prefix of a longer
/// one.
pub proof fn lemma_shortcut_shape(id: u64, length: u8, longer: u8)
    requires
        length <= longer,
    ensures
        shortcut(id, length).len() == length,
        forall|i: int| 0 <= i < shortcut(id, length).len() ==> is_alphanumeric(#[trigger] shortcut(id, length)[i]),
        shortcut(id, length) == shortcut(id, longer).subrange(0, length as int),
{
    lemma_stream_shape(id ^ SALT, length as nat, MAX_STEPS as nat);
    lemma_stream_prefix(id ^ SALT, length as nat, longer as nat, MAX_STEPS as nat);
    crate::id::stream_length::lemma_stream_full(id ^ SALT, length as nat);
}

} // verus!
