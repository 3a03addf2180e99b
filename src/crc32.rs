use vstd::prelude::*;

verus! {

/// Reflected CRC-32 polynomial.
pub const CRC32_POLY: u32 = 0xEDB88320;

/// One bit of the shift register: the low bit of `ch` is fed in.
pub open spec fn crc_bit(crc: u32, ch: u8) -> u32 {
    if ((ch as u32 ^ crc) & 1u32) != 0u32 {
        (crc >> 1u32) ^ CRC32_POLY
    } else {
        crc >> 1u32
    }
}

/// The register after feeding the `k` low bits of `ch`, least significant first.
pub open spec fn crc_bits(crc: u32, ch: u8, k: nat) -> u32
    decreases k,
{
    if k == 0 {
        crc
    } else {
        crc_bits(crc_bit(crc, ch), ch >> 1u8, (k - 1) as nat)
    }
}

/// The register after feeding every byte of `data`, starting from all ones.
pub open spec fn crc_register(data: Seq<u8>) -> u32
    decreases data.len(),
{
    if data.len() == 0 {
        0xFFFF_FFFFu32
    } else {
        crc_bits(crc_register(data.drop_last()), data.last(), 8)
    }
}

/// The CRC-32 of `data`: the final register, inverted.
pub open spec fn crc32_spec(data: Seq<u8>) -> u32 {
    !crc_register(data)
}

/// Bit-at-a-time CRC-32 of `data`.
pub fn crc32(data: &[u8]) -> (r: u32)
    ensures
        r == crc32_spec(data@),
{
    let mut crc: u32 = 0xFFFF_FFFF;
    let mut i: usize = 0;
    while i < data.len()
        invariant
            i <= data@.len(),
            crc == crc_register(data@.subrange(0, i as int)),
        decreases data@.len() - i,
    {
        let c = data[i];
        let mut ch: u8 = c;
        let mut j: usize = 0;
        let ghost start = crc;
        while j < 8
            invariant
                j <= 8,
                crc_bits(start, c, 8) == crc_bits(crc, ch, (8 - j) as nat),
            decreases 8 - j,
        {
            let b = (ch as u32 ^ crc) & 1;
            crc = crc >> 1;
            if b != 0 {
                crc = crc ^ CRC32_POLY;
            }
            ch = ch >> 1;
            j += 1;
        }
        assert(data@.subrange(0, i + 1).drop_last() =~= data@.subrange(0, i as int));
        i += 1;
    }
    assert(data@.subrange(0, data@.len() as int) =~= data@);
    !crc
}

/// Equal inputs give equal checksums: the checksum depends on the bytes alone.
pub proof fn lemma_crc32_deterministic(a: Seq<u8>, b: Seq<u8>)
    requires
        a =~= b,
    ensures
        crc32_spec(a) == crc32_spec(b),
{
}

proof fn lemma_bit_linear(r1: u32, x1: u8, r2: u32, x2: u8)
    ensures
        crc_bit(r1, x1) ^ crc_bit(r2, x2) == crc_bit(r1 ^ r2, x1 ^ x2),
{
    assert((if ((x1 as u32 ^ r1) & 1u32) != 0u32 {
        (r1 >> 1u32) ^ 0xEDB88320u32
    } else {
        r1 >> 1u32
    }) ^ (if ((x2 as u32 ^ r2) & 1u32) != 0u32 {
        (r2 >> 1u32) ^ 0xEDB88320u32
    } else {
        r2 >> 1u32
    }) == (if (((x1 ^ x2) as u32 ^ (r1 ^ r2)) & 1u32) != 0u32 {
        ((r1 ^ r2) >> 1u32) ^ 0xEDB88320u32
    } else {
        (r1 ^ r2) >> 1u32
    })) by (bit_vector);
}

/// The register update is linear: the difference of two runs is the run on
/// the differences.
proof fn lemma_bits_linear(r1: u32, x1: u8, r2: u32, x2: u8, k: nat)
    ensures
        crc_bits(r1, x1, k) ^ crc_bits(r2, x2, k) == crc_bits(r1 ^ r2, x1 ^ x2, k),
    decreases k,
{
    if k > 0 {
        lemma_bit_linear(r1, x1, r2, x2);
        assert((x1 >> 1u8) ^ (x2 >> 1u8) == (x1 ^ x2) >> 1u8) by (bit_vector);
        lemma_bits_linear(crc_bit(r1, x1), x1 >> 1u8, crc_bit(r2, x2), x2 >> 1u8, (k - 1) as nat);
    }
}

/// A nonzero register fed zeros stays nonzero, and a zero register fed a
/// single set bit among the `k` bits still to come becomes nonzero.
proof fn lemma_bits_nonzero(r: u32, x: u8, k: nat, j: u8)
    requires
        k <= 8,
        (r != 0 && x == 0) || (r == 0 && (j as nat) < k && x == 1u8 << j),
    ensures
        crc_bits(r, x, k) != 0,
    decreases k,
{
    if k > 0 {
        if r != 0 {
            assert((if ((0u8 as u32 ^ r) & 1u32) != 0u32 {
                (r >> 1u32) ^ 0xEDB88320u32
            } else {
                r >> 1u32
            }) != 0u32) by (bit_vector)
                requires
                    r != 0u32,
            ;
            assert((0u8 >> 1u8) == 0u8) by (bit_vector);
            lemma_bits_nonzero(crc_bit(r, x), x >> 1u8, (k - 1) as nat, j);
        } else if j == 0 {
            assert(((x as u32 ^ 0u32) & 1u32) != 0u32 && ((0u32 >> 1u32) ^ 0xEDB88320u32)
                != 0u32 && x >> 1u8 == 0u8) by (bit_vector)
                requires
                    x == 1u8 << 0u8,
            ;
            lemma_bits_nonzero(crc_bit(r, x), x >> 1u8, (k - 1) as nat, j);
        } else {
            let i = (j - 1) as u8;
            assert(((x as u32 ^ 0u32) & 1u32) == 0u32 && 0u32 >> 1u32 == 0u32 && x >> 1u8 == 1u8
                << i) by (bit_vector)
                requires
                    x == 1u8 << j,
                    1u8 <= j < 8u8,
                    i == j - 1u8,
            ;
            lemma_bits_nonzero(crc_bit(r, x), x >> 1u8, (k - 1) as nat, i);
        }
    }
}

proof fn lemma_registers_differ(a: Seq<u8>, b: Seq<u8>, k: int, j: u8, n: int)
    requires
        a.len() == b.len(),
        0 <= k < n <= a.len(),
        j < 8,
        b[k] == a[k] ^ (1u8 << j),
        forall|i: int| 0 <= i < a.len() && i != k ==> a[i] == b[i],
    ensures
        crc_register(a.subrange(0, n)) ^ crc_register(b.subrange(0, n)) != 0,
    decreases n,
{
    let an = a.subrange(0, n);
    let bn = b.subrange(0, n);
    assert(an.drop_last() =~= a.subrange(0, n - 1));
    assert(bn.drop_last() =~= b.subrange(0, n - 1));
    let ra = crc_register(a.subrange(0, n - 1));
    let rb = crc_register(b.subrange(0, n - 1));
    lemma_bits_linear(ra, a[n - 1], rb, b[n - 1], 8);
    if n == k + 1 {
        assert(a.subrange(0, k) =~= b.subrange(0, k));
        let x = a[k];
        let d = a[k] ^ b[k];
        assert(d == 1u8 << j) by (bit_vector)
            requires
                d == x ^ (x ^ (1u8 << j)),
        ;
        assert(ra ^ rb == 0u32) by (bit_vector)
            requires
                ra == rb,
        ;
        lemma_bits_nonzero(0u32, d, 8, j);
    } else {
        lemma_registers_differ(a, b, k, j, n - 1);
        let c = a[n - 1];
        assert(c ^ c == 0u8) by (bit_vector);
        lemma_bits_nonzero(ra ^ rb, 0u8, 8, 0);
    }
}

/// Flipping any single bit of the input always changes the checksum.
pub proof fn lemma_crc32_single_bit_flip(a: Seq<u8>, b: Seq<u8>, k: int, j: u8)
    requires
        a.len() == b.len(),
        0 <= k < a.len(),
        j < 8,
        b[k] == a[k] ^ (1u8 << j),
        forall|i: int| 0 <= i < a.len() && i != k ==> a[i] == b[i],
    ensures
        crc32_spec(a) != crc32_spec(b),
{
    lemma_registers_differ(a, b, k, j, a.len() as int);
    assert(a.subrange(0, a.len() as int) =~= a);
    assert(b.subrange(0, b.len() as int) =~= b);
    let ra = crc_register(a);
    let rb = crc_register(b);
    assert(!ra != !rb) by (bit_vector)
        requires
            ra ^ rb != 0u32,
    ;
}

} // verus!
