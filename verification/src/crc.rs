//! The Ogg page checksum: a 32-bit cyclic redundancy check with polynomial
//! 0x04c11db7, applied most-significant-bit first, with zero initial value
//! and no final inversion.
//!
//! The specification is the bit-level definition; the executable code runs
//! byte-at-a-time over a 256-entry table and is proved to match it. The
//! module also proves that flipping any single byte of the input changes
//! the checksum.

use vstd::prelude::*;

verus! {

/// One shift step of the checksum register: shift left, folding the bit
/// that falls out back in through the polynomial.
pub open spec fn crc_step(r: u32) -> u32 {
    if r & 0x8000_0000u32 != 0 {
        (r << 1u32) ^ 0x04c1_1db7u32
    } else {
        r << 1u32
    }
}

/// `n` shift steps.
pub open spec fn crc_steps(r: u32, n: nat) -> u32
    decreases n,
{
    if n == 0 {
        r
    } else {
        crc_steps(crc_step(r), (n - 1) as nat)
    }
}

/// The table entry for index `i`: the byte `i`, placed at the top of the
/// register, fed through eight shift steps.
pub open spec fn crc_entry(i: u32) -> u32 {
    crc_steps(i << 24u32, 8)
}

/// The register after absorbing one input byte.
pub open spec fn crc_byte(cur: u32, b: u8) -> u32 {
    (cur << 8u32) ^ crc_entry((b as u32) ^ (cur >> 24u32))
}

/// The register after absorbing the byte sequence `s`, starting from `cur`.
pub open spec fn crc_update(cur: u32, s: Seq<u8>) -> u32
    decreases s.len(),
{
    if s.len() == 0 {
        cur
    } else {
        crc_update(crc_byte(cur, s[0]), s.drop_first())
    }
}

/// `t` is the 256-entry lookup table of the checksum.
pub open spec fn is_crc_table(t: Seq<u32>) -> bool {
    &&& t.len() == 256
    &&& forall|i: int| 0 <= i < 256 ==> t[i] == crc_entry(i as u32)
}

/// Computes the table entry for index `idx` from the polynomial.
pub fn get_tbl_elem(idx: u32) -> (r: u32)
    requires
        idx < 256,
    ensures
        r == crc_entry(idx),
{
    let mut r: u32 = idx << 24u32;
    let mut i: usize = 0;
    while i < 8
        invariant
            i <= 8,
            crc_entry(idx) == crc_steps(r, (8 - i) as nat),
        decreases 8 - i,
    {
        r = if r & 0x8000_0000u32 != 0 {
            (r << 1u32) ^ 0x04c1_1db7u32
        } else {
            r << 1u32
        };
        i = i + 1;
    }
    r
}

/// Builds the full 256-entry lookup table.
pub fn lookup_array() -> (r: Vec<u32>)
    ensures
        is_crc_table(r@),
{
    let mut v: Vec<u32> = Vec::new();
    let mut i: usize = 0;
    while i < 256
        invariant
            i <= 256,
            v@.len() == i,
            forall|j: int| 0 <= j < i ==> v@[j] == crc_entry(j as u32),
        decreases 256 - i,
    {
        v.push(get_tbl_elem(i as u32));
        i = i + 1;
    }
    v
}

/// Absorbs `array` into the running checksum `cur`, one table lookup per
/// byte.
pub fn vorbis_crc32_update(cur: u32, table: &Vec<u32>, array: &[u8]) -> (r: u32)
    requires
        is_crc_table(table@),
    ensures
        r == crc_update(cur, array@),
{
    let mut ret: u32 = cur;
    let mut i: usize = 0;
    proof {
        assert(array@.skip(0) =~= array@);
    }
    while i < array.len()
        invariant
            is_crc_table(table@),
            i <= array@.len(),
            crc_update(cur, array@) == crc_update(ret, array@.skip(i as int)),
        decreases array@.len() - i,
    {
        let av: u8 = array[i];
        let top: u32 = ret >> 24u32;
        let t_idx: u32 = (av as u32) ^ top;
        proof {
            assert((av as u32) ^ (ret >> 24u32) < 256) by (bit_vector);
            assert(array@.skip(i as int)[0] == array@[i as int]);
            assert(array@.skip(i as int).drop_first() =~= array@.skip(i as int + 1));
        }
        ret = (ret << 8u32) ^ table[t_idx as usize];
        i = i + 1;
    }
    proof {
        assert(array@.skip(array@.len() as int) =~= Seq::<u8>::empty());
    }
    ret
}

/// Absorbing a concatenation equals absorbing the parts in order.
pub proof fn lemma_crc_update_concat(cur: u32, a: Seq<u8>, b: Seq<u8>)
    ensures
        crc_update(cur, a + b) == crc_update(crc_update(cur, a), b),
    decreases a.len(),
{
    if a.len() == 0 {
        assert(a + b =~= b);
    } else {
        assert((a + b)[0] == a[0]);
        assert((a + b).drop_first() =~= a.drop_first() + b);
        lemma_crc_update_concat(crc_byte(cur, a[0]), a.drop_first(), b);
    }
}

/// Absorbing one byte is injective in the register state.
proof fn lemma_crc_byte_inj_state(c1: u32, c2: u32, b: u8)
    requires
        c1 != c2,
    ensures
        crc_byte(c1, b) != crc_byte(c2, b),
{
    assert(c1 != c2 ==> crc_byte(c1, b) != crc_byte(c2, b)) by (bit_vector);
}

/// Absorbing one byte is injective in the byte.
proof fn lemma_crc_byte_inj_byte(c: u32, b1: u8, b2: u8)
    requires
        b1 != b2,
    ensures
        crc_byte(c, b1) != crc_byte(c, b2),
{
    assert(b1 != b2 ==> crc_byte(c, b1) != crc_byte(c, b2)) by (bit_vector);
}

/// Two distinct register states stay distinct under any common suffix.
proof fn lemma_crc_update_inj_state(c1: u32, c2: u32, s: Seq<u8>)
    requires
        c1 != c2,
    ensures
        crc_update(c1, s) != crc_update(c2, s),
    decreases s.len(),
{
    if s.len() != 0 {
        lemma_crc_byte_inj_state(c1, c2, s[0]);
        lemma_crc_update_inj_state(crc_byte(c1, s[0]), crc_byte(c2, s[0]), s.drop_first());
    }
}

/// Flipping any single byte of the input changes the checksum.
pub proof fn lemma_crc_flip(cur: u32, s1: Seq<u8>, s2: Seq<u8>, i: int)
    requires
        s1.len() == s2.len(),
        0 <= i < s1.len(),
        s1[i] != s2[i],
        forall|j: int| 0 <= j < s1.len() && j != i ==> s1[j] == s2[j],
    ensures
        crc_update(cur, s1) != crc_update(cur, s2),
    decreases i,
{
    if i == 0 {
        lemma_crc_byte_inj_byte(cur, s1[0], s2[0]);
        assert(s1.drop_first() =~= s2.drop_first());
        lemma_crc_update_inj_state(crc_byte(cur, s1[0]), crc_byte(cur, s2[0]), s1.drop_first());
    } else {
        lemma_crc_flip(crc_byte(cur, s1[0]), s1.drop_first(), s2.drop_first(), i - 1);
    }
}

/// Flipping a single byte anywhere after a common prefix — for an Ogg page,
/// in its payload — changes the checksum.
pub proof fn lemma_crc_flip_in_suffix(
    cur: u32,
    head: Seq<u8>,
    pay1: Seq<u8>,
    pay2: Seq<u8>,
    i: int,
)
    requires
        pay1.len() == pay2.len(),
        0 <= i < pay1.len(),
        pay1[i] != pay2[i],
        forall|j: int| 0 <= j < pay1.len() && j != i ==> pay1[j] == pay2[j],
    ensures
        crc_update(cur, head + pay1) != crc_update(cur, head + pay2),
{
    let s1 = head + pay1;
    let s2 = head + pay2;
    let k = head.len() as int + i;
    assert(s1[k] == pay1[i]);
    assert(s2[k] == pay2[i]);
    assert forall|j: int| 0 <= j < s1.len() && j != k implies s1[j] == s2[j] by {
        if j >= head.len() {
            assert(s1[j] == pay1[j - head.len()]);
            assert(s2[j] == pay2[j - head.len()]);
        }
    }
    lemma_crc_flip(cur, s1, s2, k);
}

} // verus!
