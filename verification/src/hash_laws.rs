//! What the hash is, and what the columns of the rain pick by it.

use crate::hash::column_hash;
use crate::hash::hash_words;
use crate::rain_frame::stream_bridge;
use crate::rain_frame::stream_gap;
use crate::rain_frame::stream_glyph;
use crate::rain_frame::stream_length;
use crate::rain_frame::total_lead;
use vstd::arithmetic::div_mod::lemma_mod_multiples_vanish;
use vstd::arithmetic::div_mod::lemma_mul_mod_noop_left;
use vstd::arithmetic::div_mod::lemma_small_mod;
use vstd::prelude::*;

verus! {

/// One step of FNV-1a on 32 bits: the word is mixed in, and the product with the prime
/// wraps around.
pub open spec fn fnv_step(h: nat, v: u32) -> nat {
    (((h as u32) ^ v) as nat * 16777619) % 4294967296
}

/// FNV-1a of three words.
pub open spec fn fnv(a: u32, b: u32, c: u32) -> nat {
    fnv_step(fnv_step(fnv_step(2166136261, a), b), c)
}

/// The hash of three words is their FNV-1a hash.
pub proof fn lemma_hash_is_fnv(a: u32, b: u32, c: u32)
    ensures
        hash_words(seq![a, b, c]) == fnv(a, b, c),
{
    assert(seq![a, b, c].drop_last() =~= seq![a, b]);
    assert(seq![a, b].drop_last() =~= seq![a]);
    assert(seq![a].drop_last() =~= Seq::<u32>::empty());
    reveal_with_fuel(hash_words, 4);
}

/// A round loses nothing: it can be undone.
proof fn lemma_round_is_undone(h: u32)
    ensures
        (((h * 16777619) % 4294967296) * 899433627) % 4294967296 == h,
{
    let m: int = 4294967296;
    let x = h * 16777619;
    lemma_mul_mod_noop_left(x, 899433627, m);
    // The two factors are inverses: their product is one more than a multiple.
    let k: int = 3513497;
    assert(16777619 * 899433627 == k * m + 1);
    assert(x * 899433627 == (h * k) * m + h) by (nonlinear_arith)
        requires
            x == h * 16777619,
            16777619 * 899433627 == k * m + 1,
    ;
    lemma_mod_multiples_vanish(h * k, h as int, m);
    assert(m * (h * k) + h == (h * k) * m + h) by (nonlinear_arith);
    lemma_small_mod(h as nat, m as nat);
}

/// Rounds of different words, or from different hashes, come to different hashes.
proof fn lemma_rounds_differ(g: u32, h: u32, v: u32, w: u32)
    requires
        g ^ v != h ^ w,
    ensures
        fnv_step(g as nat, v) != fnv_step(h as nat, w),
{
    lemma_round_is_undone(g ^ v);
    lemma_round_is_undone(h ^ w);
}

/// The hash depends on each of its words: with the other two kept, different words have
/// different hashes.
pub proof fn lemma_hash_tells_words_apart(a: u32, b: u32, c: u32, other: u32)
    ensures
        other != a ==> hash_words(seq![a, b, c]) != hash_words(seq![other, b, c]),
        other != b ==> hash_words(seq![a, b, c]) != hash_words(seq![a, other, c]),
        other != c ==> hash_words(seq![a, b, c]) != hash_words(seq![a, b, other]),
{
    lemma_hash_is_fnv(a, b, c);
    lemma_hash_is_fnv(other, b, c);
    lemma_hash_is_fnv(a, other, c);
    lemma_hash_is_fnv(a, b, other);
    let start: u32 = 2166136261;
    let ha = fnv_step(start as nat, a) as u32;
    let ho = fnv_step(start as nat, other) as u32;
    let hb = fnv_step(ha as nat, b) as u32;
    let hob = fnv_step(ho as nat, b) as u32;
    let hao = fnv_step(ha as nat, other) as u32;
    if other != a {
        assert(start ^ a != start ^ other) by (bit_vector)
            requires
                other != a,
        ;
        lemma_rounds_differ(start, start, a, other);
        assert(ha ^ b != ho ^ b) by (bit_vector)
            requires
                ha != ho,
        ;
        lemma_rounds_differ(ha, ho, b, b);
        assert(hb ^ c != hob ^ c) by (bit_vector)
            requires
                hb != hob,
        ;
        lemma_rounds_differ(hb, hob, c, c);
    }
    if other != b {
        assert(ha ^ b != ha ^ other) by (bit_vector)
            requires
                other != b,
        ;
        lemma_rounds_differ(ha, ha, b, other);
        assert(hb ^ c != hao ^ c) by (bit_vector)
            requires
                hb != hao,
        ;
        lemma_rounds_differ(hb, hao, c, c);
    }
    if other != c {
        assert(hb ^ c != hb ^ other) by (bit_vector)
            requires
                other != c,
        ;
        lemma_rounds_differ(hb, hb, c, other);
    }
}

/// The low word of a column's number.
proof fn lemma_low_word(c: usize)
    ensures
        c as u32 == c as nat % 0x1_0000_0000,
{
    let w = c as u64;
    assert(w as u32 == w % 0x1_0000_0000) by (bit_vector);
    assert(c as u32 == w as u32) by (bit_vector)
        requires
            w == c,
    ;
}

/// What a column picks, by its number: a stream of three cells and up to nine more, a gap
/// of one or two, a bridge of one or two, and a head-start of up to 999 thousandths of the
/// largest. Each is by a hash of its own, and all wrap around with the number at 2^32.
pub proof fn lemma_column_picks(c: usize)
    ensures
        ({
            let n = (c as nat % 0x1_0000_0000) as u32;
            &&& stream_length(c) == 3 + fnv(n, 1, 0) % 10
            &&& stream_gap(c) == 1 + fnv(n, 2, 0) % 2
            &&& stream_bridge(c) == 1 + fnv(n, 5, 0) % 2
            &&& column_hash(c, 3) % 1000 == fnv(n, 3, 0) % 1000
            &&& total_lead(c) == (3 + fnv(n, 1, 0) % 10) + (1 + fnv(n, 2, 0) % 2) + (1 + fnv(
                n,
                5,
                0,
            ) % 2) + 2
        }),
{
    let n = (c as nat % 0x1_0000_0000) as u32;
    lemma_low_word(c);
    lemma_hash_is_fnv(n, 1, 0);
    lemma_hash_is_fnv(n, 2, 0);
    lemma_hash_is_fnv(n, 3, 0);
    lemma_hash_is_fnv(n, 5, 0);
}

/// The glyph that is up in a cell of the stream is one of the palette, picked by a hash of
/// the column, the row and the time.
pub proof fn lemma_stream_glyph(c: usize, row: int, quantum: u32, palette_len: usize)
    requires
        0 <= row <= u32::MAX,
        palette_len > 0,
    ensures
        stream_glyph(c, row, quantum, palette_len) < palette_len,
        stream_glyph(c, row, quantum, palette_len) == fnv(
            (c as nat % 0x1_0000_0000) as u32,
            row as u32,
            quantum,
        ) % (palette_len as nat),
{
    let n = (c as nat % 0x1_0000_0000) as u32;
    lemma_low_word(c);
    lemma_hash_is_fnv(n, row as u32, quantum);
}

} // verus!
