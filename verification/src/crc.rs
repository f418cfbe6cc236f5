//! CRC-32 (IEEE 802.3, reflected, polynomial 0xEDB88320) of firmware images.
use vstd::prelude::*;

verus! {

/// One bit of the reflected CRC shift register.
pub open spec fn crc_bit_step(c: u32) -> u32 {
    if c & 1 != 0 {
        (c >> 1u32) ^ 0xEDB8_8320
    } else {
        c >> 1u32
    }
}

/// `k` bit steps from register value `c`.
pub open spec fn crc_bit_steps(c: u32, k: nat) -> u32
    decreases k,
{
    if k == 0 {
        c
    } else {
        crc_bit_step(crc_bit_steps(c, (k - 1) as nat))
    }
}

/// The register after taking in byte `b`.
pub open spec fn crc_update(c: u32, b: u8) -> u32 {
    crc_bit_steps(c ^ (b as u32), 8)
}

/// The register after taking in every byte of `s`, starting from `c`.
pub open spec fn crc_fold(c: u32, s: Seq<u8>) -> u32
    decreases s.len(),
{
    if s.len() == 0 {
        c
    } else {
        crc_update(crc_fold(c, s.drop_last()), s.last())
    }
}

/// CRC-32 of `s`: the register starts all ones and is inverted at the end.
pub open spec fn crc32_spec(s: Seq<u8>) -> u32 {
    !crc_fold(0xFFFF_FFFF, s)
}

/// CRC-32 (IEEE) of `data`, as the firmware checks it after an update.
pub fn crc32_ieee(data: &[u8]) -> (crc: u32)
    ensures
        crc == crc32_spec(data@),
{
    let mut crc: u32 = 0xFFFF_FFFF;
    let n = data.len();
    let mut i: usize = 0;
    while i < n
        invariant
            n == data@.len(),
            i <= n,
            crc == crc_fold(0xFFFF_FFFF, data@.take(i as int)),
        decreases n - i,
    {
        let byte = data[i];
        crc = crc ^ (byte as u32);
        let ghost start = crc;
        let mut k: usize = 0;
        while k < 8
            invariant
                k <= 8,
                crc == crc_bit_steps(start, k as nat),
            decreases 8 - k,
        {
            crc = if crc & 1 != 0 { (crc >> 1u32) ^ 0xEDB8_8320 } else { crc >> 1u32 };
            k = k + 1;
        }
        assert(data@.take(i + 1).drop_last() =~= data@.take(i as int));
        i = i + 1;
    }
    assert(data@.take(n as int) =~= data@);
    !crc
}

} // verus!
