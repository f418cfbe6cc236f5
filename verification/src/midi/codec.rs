//! 8-to-7 bit payload codec used inside SysEx frames.
//!
//! Every group of (at most) 7 input bytes becomes one leading byte that
//! collects the high bits of the group (bit `j` of the leading byte is the
//! high bit of byte `j`), followed by the group's bytes with their high bit
//! cleared. The last group may be shorter than 7 bytes.
use vstd::prelude::*;

verus! {

/// Bit `j` (counted from the least significant bit) of `x` is set.
pub open spec fn bit_set(x: u8, j: int) -> bool {
    x & (1u8 << (j as u8)) != 0
}

/// The byte `b` has its high bit set.
pub open spec fn high_bit(b: u8) -> bool {
    b & 0x80 != 0
}

/// Leading byte of an encoded group: bit `j` holds the high bit of `chunk[j]`.
pub open spec fn msb_byte(chunk: Seq<u8>) -> u8
    decreases chunk.len(),
{
    if chunk.len() == 0 {
        0
    } else {
        let a = msb_byte(chunk.drop_last());
        if high_bit(chunk.last()) {
            a | (1u8 << ((chunk.len() - 1) as u8))
        } else {
            a
        }
    }
}

/// The bytes of `chunk` with their high bit cleared.
pub open spec fn low7(chunk: Seq<u8>) -> Seq<u8> {
    chunk.map_values(|b: u8| b & 0x7f)
}

/// One encoded group: the leading byte, then the low 7 bits of each byte.
pub open spec fn enc_block(chunk: Seq<u8>) -> Seq<u8> {
    seq![msb_byte(chunk)] + low7(chunk)
}

/// Size of the group that starts a sequence of `n` remaining bytes.
pub open spec fn group_len(n: int) -> int {
    if n < 7 { n } else { 7 }
}

/// The 7-bit encoding of `s`, group by group from the front.
pub open spec fn encode_spec(s: Seq<u8>) -> Seq<u8>
    decreases s.len(),
{
    if s.len() == 0 {
        seq![]
    } else {
        let k = group_len(s.len() as int);
        enc_block(s.take(k)) + encode_spec(s.skip(k))
    }
}

/// One decoded group: each data byte gets back the high bit recorded in `msb`.
pub open spec fn dec_block(msb: u8, data: Seq<u8>) -> Seq<u8> {
    Seq::new(
        data.len(),
        |j: int| data[j] | (if bit_set(msb, j) { 0x80u8 } else { 0u8 }),
    )
}

/// Size of the encoded group that starts a sequence of `n` remaining bytes.
pub open spec fn enc_group_len(n: int) -> int {
    if n < 8 { n } else { 8 }
}

/// The decoding of `s`: a leading byte, then up to 7 data bytes, repeated.
pub open spec fn decode_spec(s: Seq<u8>) -> Seq<u8>
    decreases s.len(),
{
    if s.len() == 0 {
        seq![]
    } else {
        let k = enc_group_len(s.len() as int);
        dec_block(s[0], s.subrange(1, k)) + decode_spec(s.skip(k))
    }
}

/// Every byte of `s` is at most 0x7F.
pub open spec fn seven_bit_safe(s: Seq<u8>) -> bool {
    forall|i: int| 0 <= i < s.len() ==> #[trigger] s[i] <= 0x7f
}

proof fn lemma_or_bit(a: u8, n: u8, j: u8)
    requires
        n < 8,
        j < 8,
    ensures
        ((a | (1u8 << n)) & (1u8 << j) != 0) == (j == n || a & (1u8 << j) != 0),
{
    assert(((a | (1u8 << n)) & (1u8 << j) != 0) == (j == n || a & (1u8 << j) != 0))
        by (bit_vector)
        requires
            n < 8,
            j < 8,
    ;
}

/// The leading byte records exactly the high bits of its group, and no others.
proof fn lemma_msb_byte(c: Seq<u8>)
    requires
        c.len() <= 7,
    ensures
        forall|j: int| 0 <= j < c.len() ==> bit_set(msb_byte(c), j) == high_bit(#[trigger] c[j]),
        forall|j: int| c.len() <= j < 8 ==> !#[trigger] bit_set(msb_byte(c), j),
        msb_byte(c) <= 0x7f,
    decreases c.len(),
{
    if c.len() == 0 {
        assert forall|j: int| 0 <= j < 8 implies !#[trigger] bit_set(msb_byte(c), j) by {
            let jj = j as u8;
            assert(0u8 & (1u8 << jj) == 0) by (bit_vector);
        }
    } else {
        let p = c.drop_last();
        lemma_msb_byte(p);
        let a = msb_byte(p);
        let n = (c.len() - 1) as u8;
        if high_bit(c.last()) {
            assert forall|j: int| 0 <= j < 8 implies #[trigger] bit_set(msb_byte(c), j) == (j == n
                || bit_set(a, j)) by {
                lemma_or_bit(a, n, j as u8);
            }
            assert forall|j: int| 0 <= j < c.len() implies bit_set(msb_byte(c), j) == high_bit(
                #[trigger] c[j],
            ) by {
                if j < n {
                    assert(c[j] == p[j]);
                }
            }
        } else {
            assert forall|j: int| 0 <= j < c.len() implies bit_set(msb_byte(c), j) == high_bit(
                #[trigger] c[j],
            ) by {
                if j < n {
                    assert(c[j] == p[j]);
                }
            }
        }
        let m = msb_byte(c);
        assert(!bit_set(m, 7));
        assert(m & (1u8 << 7u8) == 0 ==> m <= 0x7f) by (bit_vector);
    }
}

/// Length of the encoding: one leading byte per started group of 7.
pub proof fn lemma_encode_len(s: Seq<u8>)
    ensures
        encode_spec(s).len() == s.len() + (s.len() + 6) / 7,
    decreases s.len(),
{
    if s.len() > 0 {
        let k = group_len(s.len() as int);
        lemma_encode_len(s.skip(k));
    }
}

/// Every byte of an encoding has its high bit clear.
pub proof fn lemma_encode_seven_bit_safe(s: Seq<u8>)
    ensures
        seven_bit_safe(encode_spec(s)),
    decreases s.len(),
{
    if s.len() > 0 {
        let k = group_len(s.len() as int);
        let c = s.take(k);
        lemma_encode_seven_bit_safe(s.skip(k));
        lemma_msb_byte(c);
        let e = encode_spec(s);
        let b = enc_block(c);
        let r = encode_spec(s.skip(k));
        assert(e == b + r);
        assert forall|i: int| 0 <= i < e.len() implies #[trigger] e[i] <= 0x7f by {
            if i == 0 {
            } else if i < b.len() {
                let x = c[i - 1];
                assert(x & 0x7f <= 0x7f) by (bit_vector);
            } else {
                assert(e[i] == r[i - b.len()]);
            }
        }
    }
}

/// Decoding an encoding gives back the bytes that were encoded.
pub proof fn lemma_decode_encode(s: Seq<u8>)
    ensures
        decode_spec(encode_spec(s)) == s,
    decreases s.len(),
{
    if s.len() > 0 {
        let k = group_len(s.len() as int);
        let c = s.take(k);
        let rest = s.skip(k);
        lemma_decode_encode(rest);
        lemma_msb_byte(c);
        lemma_encode_len(rest);
        let e = encode_spec(s);
        let r = encode_spec(rest);
        assert(e == enc_block(c) + r);
        assert(enc_group_len(e.len() as int) == k + 1);
        assert(e[0] == msb_byte(c));
        assert(e.subrange(1, k + 1) =~= low7(c));
        assert(e.skip(k + 1) =~= r);
        assert(dec_block(msb_byte(c), low7(c)) =~= c) by {
            assert forall|j: int| 0 <= j < c.len() implies #[trigger] dec_block(
                msb_byte(c),
                low7(c),
            )[j] == c[j] by {
                let x = c[j];
                assert(x & 0x80 != 0 ==> (x & 0x7f) | 0x80 == x) by (bit_vector);
                assert(x & 0x80 == 0 ==> (x & 0x7f) | 0 == x) by (bit_vector);
            }
        }
        assert(s =~= c + rest);
    }
}

/// Bits `n` and above of `m` are clear: a leading byte that announces no
/// high bit beyond its `n` data bytes.
pub open spec fn msb_fits(m: u8, n: int) -> bool {
    forall|j: int| n <= j < 8 ==> !#[trigger] bit_set(m, j)
}

/// `y` is a well-formed encoding: group by group, a leading byte and 1 to 7
/// data bytes (7 in every group but the last), all bytes 7-bit, and no bit
/// of a leading byte set beyond the data bytes of its group.
pub open spec fn well_formed_encoding(y: Seq<u8>) -> bool
    decreases y.len(),
{
    if y.len() == 0 {
        true
    } else {
        let k = enc_group_len(y.len() as int);
        &&& k >= 2
        &&& seven_bit_safe(y.take(k))
        &&& msb_fits(y[0], k - 1)
        &&& well_formed_encoding(y.skip(k))
    }
}

/// Two bytes with the same eight bits are equal.
proof fn lemma_bits_eq(x: u8, y: u8)
    requires
        forall|j: int| 0 <= j < 8 ==> #[trigger] bit_set(x, j) == bit_set(y, j),
    ensures
        x == y,
{
    assert(bit_set(x, 0) == bit_set(y, 0));
    assert(bit_set(x, 1) == bit_set(y, 1));
    assert(bit_set(x, 2) == bit_set(y, 2));
    assert(bit_set(x, 3) == bit_set(y, 3));
    assert(bit_set(x, 4) == bit_set(y, 4));
    assert(bit_set(x, 5) == bit_set(y, 5));
    assert(bit_set(x, 6) == bit_set(y, 6));
    assert(bit_set(x, 7) == bit_set(y, 7));
    assert(x == y) by (bit_vector)
        requires
            (x & (1u8 << 0u8) != 0) == (y & (1u8 << 0u8) != 0),
            (x & (1u8 << 1u8) != 0) == (y & (1u8 << 1u8) != 0),
            (x & (1u8 << 2u8) != 0) == (y & (1u8 << 2u8) != 0),
            (x & (1u8 << 3u8) != 0) == (y & (1u8 << 3u8) != 0),
            (x & (1u8 << 4u8) != 0) == (y & (1u8 << 4u8) != 0),
            (x & (1u8 << 5u8) != 0) == (y & (1u8 << 5u8) != 0),
            (x & (1u8 << 6u8) != 0) == (y & (1u8 << 6u8) != 0),
            (x & (1u8 << 7u8) != 0) == (y & (1u8 << 7u8) != 0),
    ;
}

/// Every encoding is well formed.
pub proof fn lemma_encode_well_formed(s: Seq<u8>)
    ensures
        well_formed_encoding(encode_spec(s)),
    decreases s.len(),
{
    if s.len() > 0 {
        let k = group_len(s.len() as int);
        let c = s.take(k);
        let rest = s.skip(k);
        lemma_encode_well_formed(rest);
        lemma_msb_byte(c);
        lemma_encode_len(rest);
        lemma_encode_seven_bit_safe(s);
        let e = encode_spec(s);
        assert(e == enc_block(c) + encode_spec(rest));
        assert(enc_group_len(e.len() as int) == k + 1);
        assert(e[0] == msb_byte(c));
        assert(e.skip(k + 1) =~= encode_spec(rest));
        assert forall|i: int| 0 <= i < e.take(k + 1).len() implies #[trigger] e.take(k + 1)[i]
            <= 0x7f by {
            assert(e[i] <= 0x7f);
        }
    }
}

/// Encoding the decoding of a well-formed encoding gives it back.
pub proof fn lemma_encode_decode(y: Seq<u8>)
    requires
        well_formed_encoding(y),
    ensures
        encode_spec(decode_spec(y)) == y,
    decreases y.len(),
{
    if y.len() > 0 {
        let k = enc_group_len(y.len() as int);
        let m = y[0];
        let d = y.subrange(1, k);
        let rest = y.skip(k);
        let c = dec_block(m, d);
        lemma_encode_decode(rest);
        assert forall|j: int| 0 <= j < d.len() implies #[trigger] d[j] <= 0x7f by {
            assert(y.take(k)[j + 1] == d[j]);
        }
        assert(decode_spec(y) == c + decode_spec(rest));
        let s = c + decode_spec(rest);
        if rest.len() > 0 {
            let k2 = enc_group_len(rest.len() as int);
            assert(decode_spec(rest).len() >= k2 - 1);
            assert(k == 8);
        }
        let g = group_len(s.len() as int);
        assert(g == c.len());
        assert(s.take(g) =~= c);
        assert(s.skip(g) =~= decode_spec(rest));
        assert(encode_spec(s) == enc_block(c) + encode_spec(decode_spec(rest)));
        assert(low7(c) =~= d) by {
            assert forall|j: int| 0 <= j < d.len() implies #[trigger] low7(c)[j] == d[j] by {
                let x = d[j];
                assert(x <= 0x7f ==> (x | 0x80) & 0x7f == x && (x | 0) & 0x7f == x) by (bit_vector);
            }
        }
        lemma_msb_byte(c);
        assert forall|j: int| 0 <= j < 8 implies #[trigger] bit_set(msb_byte(c), j) == bit_set(
            m,
            j,
        ) by {
            if j < c.len() {
                let x = d[j];
                assert(x <= 0x7f ==> (x | 0x80) & 0x80 != 0 && (x | 0) & 0x80 == 0) by (bit_vector);
                assert(high_bit(c[j]) == bit_set(m, j));
            }
        }
        lemma_bits_eq(msb_byte(c), m);
        assert(enc_block(c) =~= y.take(k));
        assert(y =~= y.take(k) + rest);
    }
}

/// On well-formed encodings the two directions are inverse: every encoding
/// is well formed, and a well-formed encoding is the encoding of its
/// decoding.
pub proof fn lemma_codec_inverse(s: Seq<u8>, y: Seq<u8>)
    ensures
        well_formed_encoding(encode_spec(s)),
        decode_spec(encode_spec(s)) == s,
        well_formed_encoding(y) ==> encode_spec(decode_spec(y)) == y,
{
    lemma_encode_well_formed(s);
    lemma_decode_encode(s);
    if well_formed_encoding(y) {
        lemma_encode_decode(y);
    }
}

/// 8-to-7 bit encode: every 7 input bytes become 8 output bytes, the high
/// bits of each group collected into its leading byte.
pub fn encode_7bit(input: &[u8]) -> (out: Vec<u8>)
    ensures
        out@ == encode_spec(input@),
        seven_bit_safe(out@),
        out@.len() == input@.len() + (input@.len() + 6) / 7,
        decode_spec(out@) == input@,
        well_formed_encoding(out@),
{
    let mut out: Vec<u8> = Vec::new();
    let n = input.len();
    let mut i: usize = 0;
    assert(input@.skip(0) =~= input@);
    while i < n
        invariant
            n == input@.len(),
            i <= n,
            encode_spec(input@) == out@ + encode_spec(input@.skip(i as int)),
        decreases n - i,
    {
        let chunk: usize = if n - i < 7 { n - i } else { 7 };
        let ghost start = out@;
        proof {
            let t = input@.skip(i as int);
            assert(t.take(chunk as int) =~= input@.subrange(i as int, (i + chunk) as int));
            assert(t.skip(chunk as int) =~= input@.skip((i + chunk) as int));
        }
        let mut msb: u8 = 0;
        let mut j: usize = 0;
        while j < chunk
            invariant
                n == input@.len(),
                chunk <= 7,
                i + chunk <= n,
                j <= chunk,
                msb == msb_byte(input@.subrange(i as int, (i + j) as int)),
            decreases chunk - j,
        {
            let ghost sub = input@.subrange(i as int, (i + j + 1) as int);
            assert(sub.drop_last() =~= input@.subrange(i as int, (i + j) as int));
            if input[i + j] & 0x80 != 0 {
                msb = msb | (1u8 << (j as u8));
            }
            j = j + 1;
        }
        out.push(msb);
        let mut j: usize = 0;
        while j < chunk
            invariant
                n == input@.len(),
                chunk <= 7,
                i + chunk <= n,
                j <= chunk,
                out@ == start + seq![msb] + low7(input@.subrange(i as int, (i + j) as int)),
            decreases chunk - j,
        {
            out.push(input[i + j] & 0x7f);
            j = j + 1;
            assert(low7(input@.subrange(i as int, (i + j) as int)) =~= low7(
                input@.subrange(i as int, (i + j - 1) as int),
            ).push(input@[(i + j - 1) as int] & 0x7f));
        }
        assert(out@ =~= start + enc_block(input@.subrange(i as int, (i + chunk) as int)));
        i = i + chunk;
    }
    assert(input@.skip(n as int) =~= Seq::<u8>::empty());
    assert(out@ =~= encode_spec(input@));
    proof {
        lemma_encode_seven_bit_safe(input@);
        lemma_encode_len(input@);
        lemma_decode_encode(input@);
        lemma_encode_well_formed(input@);
    }
    out
}

/// 7-to-8 bit decode: the inverse of [`encode_7bit`]. A trailing leading
/// byte with no data bytes after it decodes to nothing.
pub fn decode_7bit(input: &[u8]) -> (out: Vec<u8>)
    ensures
        out@ == decode_spec(input@),
        well_formed_encoding(input@) ==> encode_spec(out@) == input@,
{
    let mut out: Vec<u8> = Vec::new();
    let n = input.len();
    let mut i: usize = 0;
    assert(input@.skip(0) =~= input@);
    while i < n
        invariant
            n == input@.len(),
            i <= n,
            decode_spec(input@) == out@ + decode_spec(input@.skip(i as int)),
        decreases n - i,
    {
        let start = i;
        let ghost before = out@;
        let msb = input[i];
        i = i + 1;
        let end: usize = if n - i < 7 { n } else { i + 7 };
        proof {
            let t = input@.skip(start as int);
            let k = enc_group_len(t.len() as int);
            assert(k == end - start);
            assert(t[0] == msb);
            assert(t.subrange(1, k) =~= input@.subrange(start + 1, end as int));
            assert(t.skip(k) =~= input@.skip(end as int));
        }
        let mut j: u8 = 0;
        while i < end
            invariant
                n == input@.len(),
                start < i <= end <= n,
                end - start <= 8,
                j == i - start - 1,
                msb == input@[start as int],
                out@ == before + dec_block(msb, input@.subrange(start + 1, i as int)),
            decreases end - i,
        {
            let hi: u8 = if msb & (1u8 << j) != 0 { 0x80 } else { 0x00 };
            out.push(input[i] | hi);
            i = i + 1;
            j = j + 1;
            assert(dec_block(msb, input@.subrange(start + 1, i as int)) =~= dec_block(
                msb,
                input@.subrange(start + 1, i - 1),
            ).push(input@[i - 1] | hi));
        }
    }
    assert(input@.skip(n as int) =~= Seq::<u8>::empty());
    assert(out@ =~= decode_spec(input@));
    proof {
        if well_formed_encoding(input@) {
            lemma_encode_decode(input@);
        }
    }
    out
}

} // verus!
