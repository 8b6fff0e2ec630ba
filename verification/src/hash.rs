//! The hash that gives each column of the rain its own lengths.

use vstd::prelude::*;

verus! {

/// What the hash starts from.
pub const HASH_BASIS: u32 = 0x811c_9dc5;

/// What each round of the hash multiplies by.
pub const HASH_PRIME: u32 = 0x0100_0193;

/// One round of the hash.
pub open spec fn hash_round(h: u32, v: u32) -> u32 {
    (((h ^ v) * HASH_PRIME) % 0x1_0000_0000) as u32
}

/// The hash of a sequence of words: a round for each, first to last.
pub open spec fn hash_words(words: Seq<u32>) -> u32
    decreases words.len(),
{
    if words.len() == 0 {
        HASH_BASIS
    } else {
        hash_round(hash_words(words.drop_last()), words.last())
    }
}

/// Cheap deterministic 3-input hash (FNV-1a flavoured). Used to give each column
/// an independent stream length / gap / phase without pulling in an RNG (keeps
/// the effect reproducible frame-to-frame).
pub fn hash3(a: u32, b: u32, c: u32) -> (h: u32)
    ensures
        h == hash_words(seq![a, b, c]),
{
    let words: [u32; 3] = [a, b, c];
    let mut h: u32 = HASH_BASIS;
    let mut i: usize = 0;
    while i < 3
        invariant
            i <= 3,
            words@ == seq![a, b, c],
            h == hash_words(seq![a, b, c].take(i as int)),
        decreases 3 - i,
    {
        assert(seq![a, b, c].take(i + 1).drop_last() =~= seq![a, b, c].take(i as int));
        h = (h ^ words[i]).wrapping_mul(HASH_PRIME);
        i = i + 1;
    }
    assert(seq![a, b, c].take(3) =~= seq![a, b, c]);
    h
}

/// The hash of a column under one of its salts.
pub open spec fn column_hash(c: usize, salt: u32) -> u32 {
    hash_words(seq![c as u32, salt, 0])
}

/// Vertical gap (in cells) between the bottom of a column's matrix stream and
/// the top of the still-falling outgoing text. Kept small so the dissolving and
/// incoming screens flow into one another. Each column picks 1 or 2.
pub fn bridge_for(c: usize) -> (bridge: i32)
    ensures
        bridge == 1 + column_hash(c, 5) % 2,
        bridge == 1 || bridge == 2,
{
    1 + (hash3(
        #[verifier::truncate]
        (c as u32),
        5,
        0,
    ) % 2) as i32
}

} // verus!
