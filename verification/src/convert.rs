//! Byte-level codecs: little-endian decoding of raw sample bytes, big-endian
//! encoding with the unsigned-to-signed clamp that FITS requires, and the
//! byte-unshuffling transform that undoes pre-compression interleaving.

use vstd::prelude::*;

verus! {

/// Largest value an unsigned 16-bit sample may keep when re-encoded as a
/// signed 16-bit FITS sample.
pub const I16_MAX_AS_U16: u16 = 0x7fff;

/// Largest value an unsigned 32-bit sample may keep when re-encoded as a
/// signed 32-bit FITS sample.
pub const I32_MAX_AS_U32: u32 = 0x7fff_ffff;

/// Clamp an unsigned 16-bit value down to the signed 16-bit maximum.
pub open spec fn clamp_u16(v: u16) -> u16 {
    if v > I16_MAX_AS_U16 {
        I16_MAX_AS_U16
    } else {
        v
    }
}

/// Clamp an unsigned 32-bit value down to the signed 32-bit maximum.
pub open spec fn clamp_u32(v: u32) -> u32 {
    if v > I32_MAX_AS_U32 {
        I32_MAX_AS_U32
    } else {
        v
    }
}

/// The two big-endian bytes of a 16-bit value.
pub open spec fn be_bytes_u16(v: u16) -> Seq<u8> {
    seq![(v / 0x100) as u8, (v % 0x100) as u8]
}

/// The four big-endian bytes of a 32-bit value.
pub open spec fn be_bytes_u32(v: u32) -> Seq<u8> {
    seq![
        (v / 0x100_0000) as u8,
        ((v / 0x1_0000) % 0x100) as u8,
        ((v / 0x100) % 0x100) as u8,
        (v % 0x100) as u8,
    ]
}

/// The 16-bit value stored little-endian at element `i` of a byte run.
pub open spec fn le_u16_at(b: Seq<u8>, i: int) -> u16 {
    (b[2 * i] + 0x100 * b[2 * i + 1]) as u16
}

/// The 32-bit value stored little-endian at element `i` of a byte run.
pub open spec fn le_u32_at(b: Seq<u8>, i: int) -> u32 {
    (b[4 * i] + 0x100 * b[4 * i + 1] + 0x1_0000 * b[4 * i + 2] + 0x100_0000 * b[4 * i
        + 3]) as u32
}

/// Reinterpret a byte run as consecutive signed bytes; trailing bytes cannot
/// occur since every byte is one sample.
pub fn u8_to_i8(vector: &[u8]) -> (r: Vec<i8>)
    ensures
        r@.len() == vector@.len(),
        forall|i: int| 0 <= i < r@.len() ==> r@[i] == vector@[i] as i8,
{
    let mut values: Vec<i8> = Vec::new();
    let mut idx: usize = 0;
    while idx < vector.len()
        invariant
            idx <= vector@.len(),
            values@.len() == idx,
            forall|i: int| 0 <= i < idx ==> values@[i] == vector@[i] as i8,
        decreases vector@.len() - idx,
    {
        values.push(vector[idx] as i8);
        idx = idx + 1;
    }
    values
}

/// Decode a byte run as consecutive little-endian 16-bit values; trailing
/// bytes that do not fill a whole value are dropped.
pub fn u8_to_v_u16(vector: &[u8]) -> (r: Vec<u16>)
    ensures
        r@.len() == vector@.len() / 2,
        forall|i: int| 0 <= i < r@.len() ==> r@[i] == le_u16_at(vector@, i),
{
    let n: usize = vector.len() / 2;
    let mut values: Vec<u16> = Vec::new();
    let mut idx: usize = 0;
    while idx < n
        invariant
            n == vector@.len() / 2,
            idx <= n,
            2 * n <= vector@.len(),
            2 * n <= usize::MAX,
            values@.len() == idx,
            forall|i: int| 0 <= i < idx ==> values@[i] == le_u16_at(vector@, i),
        decreases n - idx,
    {
        let lo = vector[2 * idx];
        let hi = vector[2 * idx + 1];
        values.push(lo as u16 + 0x100 * (hi as u16));
        idx = idx + 1;
    }
    values
}

/// Decode a byte run as consecutive little-endian 32-bit values; trailing
/// bytes that do not fill a whole value are dropped.
pub fn u8_to_v_u32(vector: &[u8]) -> (r: Vec<u32>)
    ensures
        r@.len() == vector@.len() / 4,
        forall|i: int| 0 <= i < r@.len() ==> r@[i] == le_u32_at(vector@, i),
{
    let n: usize = vector.len() / 4;
    let mut values: Vec<u32> = Vec::new();
    let mut idx: usize = 0;
    while idx < n
        invariant
            n == vector@.len() / 4,
            idx <= n,
            4 * n <= vector@.len(),
            4 * n <= usize::MAX,
            values@.len() == idx,
            forall|i: int| 0 <= i < idx ==> values@[i] == le_u32_at(vector@, i),
        decreases n - idx,
    {
        let b0 = vector[4 * idx];
        let b1 = vector[4 * idx + 1];
        let b2 = vector[4 * idx + 2];
        let b3 = vector[4 * idx + 3];
        values.push(
            b0 as u32 + 0x100 * (b1 as u32) + 0x1_0000 * (b2 as u32) + 0x100_0000 * (b3 as u32),
        );
        idx = idx + 1;
    }
    values
}

/// From u16 to i16 to big-endian bytes: each unsigned value is clamped to the
/// signed 16-bit maximum and then written as two big-endian bytes.
pub fn u16_to_i16_to_v_u8_be(v: &[u16]) -> (r: Vec<u8>)
    ensures
        r@.len() == 2 * v@.len(),
        forall|i: int|
            0 <= i < v@.len() ==> r@[2 * i] == be_bytes_u16(clamp_u16(v@[i]))[0] && r@[2 * i + 1]
                == be_bytes_u16(clamp_u16(v@[i]))[1],
{
    let mut result: Vec<u8> = Vec::new();
    let mut idx: usize = 0;
    while idx < v.len()
        invariant
            idx <= v@.len(),
            result@.len() == 2 * idx,
            forall|i: int|
                0 <= i < idx ==> result@[2 * i] == be_bytes_u16(clamp_u16(v@[i]))[0] && result@[2
                    * i + 1] == be_bytes_u16(clamp_u16(v@[i]))[1],
        decreases v@.len() - idx,
    {
        let mut v_u = v[idx];
        if v_u > I16_MAX_AS_U16 {
            v_u = I16_MAX_AS_U16;
        }
        result.push((v_u / 0x100) as u8);
        result.push((v_u % 0x100) as u8);
        idx = idx + 1;
    }
    result
}

/// From u32 to i32 to big-endian bytes: each unsigned value is clamped to the
/// signed 32-bit maximum and then written as four big-endian bytes.
pub fn u32_to_i32_to_v_u8_be(v: &[u32]) -> (r: Vec<u8>)
    ensures
        r@.len() == 4 * v@.len(),
        forall|i: int, j: int|
            0 <= i < v@.len() && 0 <= j < 4 ==> r@[4 * i + j] == be_bytes_u32(clamp_u32(v@[i]))[j],
{
    let mut result: Vec<u8> = Vec::new();
    let mut idx: usize = 0;
    while idx < v.len()
        invariant
            idx <= v@.len(),
            result@.len() == 4 * idx,
            forall|i: int, j: int|
                0 <= i < idx && 0 <= j < 4 ==> result@[4 * i + j] == be_bytes_u32(
                    clamp_u32(v@[i]),
                )[j],
        decreases v@.len() - idx,
    {
        let mut v_u = v[idx];
        if v_u > I32_MAX_AS_U32 {
            v_u = I32_MAX_AS_U32;
        }
        result.push((v_u / 0x100_0000) as u8);
        result.push(((v_u / 0x1_0000) % 0x100) as u8);
        result.push(((v_u / 0x100) % 0x100) as u8);
        result.push((v_u % 0x100) as u8);
        idx = idx + 1;
    }
    result
}

/// Reverse the byte order inside each `width`-byte chunk of a buffer,
/// turning little-endian fixed-width values into big-endian ones (and the
/// other way round); trailing bytes that do not fill a chunk are dropped.
pub fn swap_chunk_endianness(vector: &[u8], width: usize) -> (r: Vec<u8>)
    requires
        1 <= width,
    ensures
        r@.len() == width * (vector@.len() as int / width as int),
        forall|i: int, j: int|
            0 <= i < vector@.len() as int / width as int && 0 <= j < width ==> #[trigger] r@[i
                * width + j] == vector@[i * width + (width - 1 - j)],
{
    let n: usize = vector.len() / width;
    proof {
        assert(width * n <= vector@.len()) by (nonlinear_arith)
            requires
                n == vector@.len() as int / width as int,
                1 <= width,
                0 <= vector@.len(),
        ;
    }
    let mut result: Vec<u8> = Vec::new();
    let mut idx: usize = 0;
    while idx < n
        invariant
            1 <= width,
            n == vector@.len() as int / width as int,
            idx <= n,
            width * n <= vector@.len(),
            vector@.len() <= usize::MAX,
            result@.len() == width * idx,
            forall|i: int, j: int|
                0 <= i < idx && 0 <= j < width ==> #[trigger] result@[i * width + j] == vector@[i
                    * width + (width - 1 - j)],
        decreases n - idx,
    {
        let mut j: usize = 0;
        while j < width
            invariant
                1 <= width,
                n == vector@.len() as int / width as int,
                idx < n,
                width * n <= vector@.len(),
                vector@.len() <= usize::MAX,
                j <= width,
                result@.len() == width * idx + j,
                forall|i: int, jj: int|
                    0 <= i < idx && 0 <= jj < width ==> #[trigger] result@[i * width + jj]
                        == vector@[i * width + (width - 1 - jj)],
                forall|jj: int|
                    0 <= jj < j ==> #[trigger] result@[idx * width + jj] == vector@[idx * width + (
                    width - 1 - jj)],
            decreases width - j,
        {
            proof {
                assert(idx * width + (width - 1 - j) < n * width) by (nonlinear_arith)
                    requires
                        idx < n,
                        0 <= j < width,
                ;
                assert(width * n <= vector@.len());
                assert(n * width == width * n) by (nonlinear_arith);
            }
            let b = vector[idx * width + (width - 1 - j)];
            result.push(b);
            j = j + 1;
            proof {
                assert forall|i: int, jj: int| 0 <= i < idx && 0 <= jj < width implies #[trigger] result@[
                    i * width + jj] == vector@[i * width + (width - 1 - jj)] by {
                    assert(i * width + jj < width * idx) by (nonlinear_arith)
                        requires
                            0 <= i < idx,
                            0 <= jj < width,
                    ;
                }
            }
        }
        idx = idx + 1;
        proof {
            assert(width * idx == width * (idx - 1) + width) by (nonlinear_arith);
            assert forall|i: int, jj: int| 0 <= i < idx && 0 <= jj < width implies #[trigger] result@[
                i * width + jj] == vector@[i * width + (width - 1 - jj)] by {
                if i == idx - 1 {
                    assert(i * width == width * (idx - 1)) by (nonlinear_arith)
                        requires
                            i == idx - 1,
                    ;
                }
            }
        }
    }
    result
}

/// The byte-shuffled image of a buffer: for `n` samples of `width` bytes,
/// all the samples' first bytes come first, then all the second bytes, and
/// so on.
pub open spec fn shuffle_seq(s: Seq<u8>, width: int) -> Seq<u8>
    recommends
        1 <= width,
        s.len() as int % width == 0,
{
    let n = s.len() as int / width;
    Seq::new(s.len(), |k: int| s[(k % n) * width + k / n])
}

/// The inverse transform: byte `j` of sample `i` is read back from position
/// `j * n + i` of the shuffled buffer.
pub open spec fn unshuffle_seq(s: Seq<u8>, width: int) -> Seq<u8>
    recommends
        1 <= width,
        s.len() as int % width == 0,
{
    let n = s.len() as int / width;
    Seq::new(s.len(), |k: int| s[(k % width) * n + k / width])
}

/// Undo the byte-shuffling transform applied before compression: the input
/// stores all samples' byte 0 first, then all samples' byte 1, and so on;
/// the output restores each sample's bytes to contiguous order.
pub fn unshuffle(array: &[u8], byte_size: usize) -> (r: Vec<u8>)
    requires
        1 <= byte_size,
        array@.len() as int % byte_size as int == 0,
    ensures
        r@.len() == array@.len(),
        r@ == unshuffle_seq(array@, byte_size as int),
{
    let array_size: usize = array.len();
    let n_items: usize = array_size / byte_size;
    proof {
        assert(byte_size * n_items == array_size) by (nonlinear_arith)
            requires
                n_items == array_size as int / byte_size as int,
                array_size as int % byte_size as int == 0,
                1 <= byte_size,
        ;
    }
    let mut unshuffled: Vec<u8> = Vec::new();
    let mut i: usize = 0;
    while i < n_items
        invariant
            1 <= byte_size,
            n_items == array_size as int / byte_size as int,
            array_size == array@.len(),
            array_size as int % byte_size as int == 0,
            byte_size * n_items == array_size,
            array_size <= usize::MAX,
            i <= n_items,
            unshuffled@.len() == byte_size * i,
            forall|k: int|
                0 <= k < byte_size * i ==> unshuffled@[k] == array@[(k % byte_size as int) * n_items
                    + k / byte_size as int],
        decreases n_items - i,
    {
        let mut j: usize = 0;
        while j < byte_size
            invariant
                1 <= byte_size,
                n_items == array_size as int / byte_size as int,
                array_size == array@.len(),
                byte_size * n_items == array_size,
                i < n_items,
                j <= byte_size,
                unshuffled@.len() == byte_size * i + j,
                forall|k: int|
                    0 <= k < byte_size * i + j ==> unshuffled@[k] == array@[(k % byte_size as int)
                        * n_items + k / byte_size as int],
            decreases byte_size - j,
        {
            proof {
                assert(j * n_items + i < byte_size * n_items) by (nonlinear_arith)
                    requires
                        i < n_items,
                        0 <= j < byte_size,
                ;
                assert((byte_size * i + j) % byte_size as int == j && (byte_size * i + j)
                    / byte_size as int == i) by (nonlinear_arith)
                    requires
                        0 <= i,
                        0 <= j < byte_size,
                ;
            }
            let b = array[j * n_items + i];
            unshuffled.push(b);
            j = j + 1;
        }
        i = i + 1;
        proof {
            assert(byte_size * i == byte_size * (i - 1) + byte_size) by (nonlinear_arith);
        }
    }
    proof {
        assert(unshuffled@ =~= unshuffle_seq(array@, byte_size as int));
    }
    unshuffled
}

/// Unshuffling inverts shuffling: any buffer that was byte-shuffled with a
/// given sample width is restored exactly by the unshuffle transform.
pub proof fn lemma_unshuffle_inverts_shuffle(s: Seq<u8>, width: int)
    requires
        1 <= width,
        s.len() as int % width == 0,
    ensures
        unshuffle_seq(shuffle_seq(s, width), width) == s,
{
    let n = s.len() as int / width;
    let sh = shuffle_seq(s, width);
    assert(width * n == s.len()) by (nonlinear_arith)
        requires
            n == s.len() as int / width,
            s.len() as int % width == 0,
            1 <= width,
    ;
    assert forall|k: int| 0 <= k < s.len() implies unshuffle_seq(sh, width)[k] == s[k] by {
        let j = k % width;
        let i = k / width;
        assert(0 <= j < width && 0 <= i && k == i * width + j) by (nonlinear_arith)
            requires
                0 <= k,
                1 <= width,
                j == k % width,
                i == k / width,
        ;
        assert(i < n) by (nonlinear_arith)
            requires
                k < width * n,
                k == i * width + j,
                0 <= j < width,
                0 <= i,
                0 < n,
        ;
        let m = j * n + i;
        assert(0 <= m < width * n) by (nonlinear_arith)
            requires
                m == j * n + i,
                0 <= j < width,
                0 <= i < n,
        ;
        assert(m < s.len());
        assert(sh.len() == s.len());
        assert((k % width) * (sh.len() as int / width) + k / width == m);
        assert(unshuffle_seq(sh, width)[k] == sh[m]);
        assert(m % n == i && m / n == j) by (nonlinear_arith)
            requires
                m == j * n + i,
                0 <= i < n,
                0 <= j,
        ;
        assert((m % (s.len() as int / width)) * width + m / (s.len() as int / width) == i * width
            + j);
        assert(sh[m] == s[i * width + j]);
    }
    assert(unshuffle_seq(shuffle_seq(s, width), width) =~= s);
}

/// The 16-bit value stored big-endian at element `i` of a byte run.
pub open spec fn be_u16_at(b: Seq<u8>, i: int) -> u16 {
    (0x100 * b[2 * i] + b[2 * i + 1]) as u16
}

/// The 32-bit value stored big-endian at element `i` of a byte run.
pub open spec fn be_u32_at(b: Seq<u8>, i: int) -> u32 {
    (0x100_0000 * b[4 * i] + 0x1_0000 * b[4 * i + 1] + 0x100 * b[4 * i + 2] + b[4 * i
        + 3]) as u32
}

/// Round-trip law for 16-bit samples: decoding the emitted big-endian
/// bytes recovers the clamped value, and recovers the original value
/// exactly whenever it lies in the non-clamped range.
pub proof fn lemma_u16_encode_be_round_trip(v: u16)
    ensures
        be_u16_at(be_bytes_u16(clamp_u16(v)), 0) == clamp_u16(v),
        v <= I16_MAX_AS_U16 ==> be_u16_at(be_bytes_u16(clamp_u16(v)), 0) == v,
{
    let c = clamp_u16(v);
    assert(0x100 * (c / 0x100) + c % 0x100 == c) by (nonlinear_arith);
}

/// Round-trip law for 32-bit samples: decoding the emitted big-endian
/// bytes recovers the clamped value, and recovers the original value
/// exactly whenever it lies in the non-clamped range.
pub proof fn lemma_u32_encode_be_round_trip(v: u32)
    ensures
        be_u32_at(be_bytes_u32(clamp_u32(v)), 0) == clamp_u32(v),
        v <= I32_MAX_AS_U32 ==> be_u32_at(be_bytes_u32(clamp_u32(v)), 0) == v,
{
    let c = clamp_u32(v);
    assert(0x100_0000 * (c / 0x100_0000) + 0x1_0000 * ((c / 0x1_0000) % 0x100) + 0x100 * ((c
        / 0x100) % 0x100) + c % 0x100 == c) by (nonlinear_arith);
}

/// The big-endian encoding of a run of clamped 16-bit samples, as a whole
/// byte sequence.
pub open spec fn enc_u16_clamped(v: Seq<u16>) -> Seq<u8> {
    Seq::new(2 * v.len(), |k: int| be_bytes_u16(clamp_u16(v[k / 2]))[k % 2])
}

/// The big-endian encoding of a run of clamped 32-bit samples, as a whole
/// byte sequence.
pub open spec fn enc_u32_clamped(v: Seq<u32>) -> Seq<u8> {
    Seq::new(4 * v.len(), |k: int| be_bytes_u32(clamp_u32(v[k / 4]))[k % 4])
}

/// The per-chunk byte reversal of a buffer, as a whole byte sequence.
pub open spec fn swapped_chunks(b: Seq<u8>, width: int) -> Seq<u8>
    recommends
        1 <= width,
{
    Seq::new((width * (b.len() as int / width)) as nat, |k: int| b[(k / width) * width + (width - 1
        - k % width)])
}

/// The clamped big-endian encoder emits exactly the sample-wise encoding.
pub proof fn lemma_u16_encoding_shape(v: Seq<u16>, r: Seq<u8>)
    requires
        r.len() == 2 * v.len(),
        forall|i: int|
            0 <= i < v.len() ==> r[2 * i] == be_bytes_u16(clamp_u16(v[i]))[0] && r[2 * i + 1]
                == be_bytes_u16(clamp_u16(v[i]))[1],
    ensures
        r == enc_u16_clamped(v),
{
    assert forall|k: int| 0 <= k < r.len() implies r[k] == enc_u16_clamped(v)[k] by {
        let i = k / 2;
        assert(k == 2 * i + k % 2 && 0 <= k % 2 < 2 && 0 <= i < v.len());
        if k % 2 == 0 {
            assert(r[2 * i] == be_bytes_u16(clamp_u16(v[i]))[0]);
        } else {
            assert(r[2 * i + 1] == be_bytes_u16(clamp_u16(v[i]))[1]);
        }
    }
    assert(r =~= enc_u16_clamped(v));
}

/// The clamped big-endian encoder emits exactly the sample-wise encoding.
pub proof fn lemma_u32_encoding_shape(v: Seq<u32>, r: Seq<u8>)
    requires
        r.len() == 4 * v.len(),
        forall|i: int, j: int|
            0 <= i < v.len() && 0 <= j < 4 ==> r[4 * i + j] == be_bytes_u32(clamp_u32(v[i]))[j],
    ensures
        r == enc_u32_clamped(v),
{
    assert forall|k: int| 0 <= k < r.len() implies r[k] == enc_u32_clamped(v)[k] by {
        let i = k / 4;
        assert(k == 4 * i + k % 4 && 0 <= k % 4 < 4 && 0 <= i < v.len());
        assert(r[4 * i + (k % 4)] == be_bytes_u32(clamp_u32(v[i]))[k % 4]);
    }
    assert(r =~= enc_u32_clamped(v));
}

/// The chunk-endianness swap emits exactly the chunk-wise reversal.
pub proof fn lemma_swap_chunks_shape(b: Seq<u8>, width: int, r: Seq<u8>)
    requires
        1 <= width,
        r.len() == width * (b.len() as int / width),
        forall|i: int, j: int|
            0 <= i < b.len() as int / width && 0 <= j < width ==> #[trigger] r[i * width + j] == b[
                i * width + (width - 1 - j)],
    ensures
        r == swapped_chunks(b, width),
{
    assert forall|k: int| 0 <= k < r.len() implies r[k] == swapped_chunks(b, width)[k] by {
        let i = k / width;
        let j = k % width;
        assert(k == i * width + j && 0 <= j < width && 0 <= i) by (nonlinear_arith)
            requires
                i == k / width,
                j == k % width,
                0 <= k,
                1 <= width,
        ;
        assert(i < b.len() as int / width) by (nonlinear_arith)
            requires
                k < width * (b.len() as int / width),
                k == i * width + j,
                0 <= j < width,
                0 <= i,
                1 <= width,
        ;
        assert(r[i * width + j] == b[i * width + (width - 1 - j)]);
    }
    assert(r =~= swapped_chunks(b, width));
}

/// Sequence round-trip law: for 16-bit samples in the non-clamped range,
/// reading the encoder's big-endian output back recovers every sample
/// exactly; only the deliberate clamp path loses information.
pub proof fn lemma_u16_seq_round_trip(v: Seq<u16>, r: Seq<u8>)
    requires
        r == enc_u16_clamped(v),
        forall|i: int| 0 <= i < v.len() ==> #[trigger] v[i] <= I16_MAX_AS_U16,
    ensures
        r.len() == 2 * v.len(),
        forall|i: int| 0 <= i < v.len() ==> be_u16_at(r, i) == v[i],
{
    assert forall|i: int| 0 <= i < v.len() implies be_u16_at(r, i) == v[i] by {
        assert(r[2 * i] == be_bytes_u16(clamp_u16(v[(2 * i) / 2]))[(2 * i) % 2]);
        assert(r[2 * i + 1] == be_bytes_u16(clamp_u16(v[(2 * i + 1) / 2]))[(2 * i + 1) % 2]);
        assert((2 * i) / 2 == i && (2 * i) % 2 == 0 && (2 * i + 1) / 2 == i && (2 * i + 1) % 2
            == 1);
        lemma_u16_encode_be_round_trip(v[i]);
    }
}

/// Sequence round-trip law: for 32-bit samples in the non-clamped range,
/// reading the encoder's big-endian output back recovers every sample
/// exactly; only the deliberate clamp path loses information.
pub proof fn lemma_u32_seq_round_trip(v: Seq<u32>, r: Seq<u8>)
    requires
        r == enc_u32_clamped(v),
        forall|i: int| 0 <= i < v.len() ==> #[trigger] v[i] <= I32_MAX_AS_U32,
    ensures
        r.len() == 4 * v.len(),
        forall|i: int| 0 <= i < v.len() ==> be_u32_at(r, i) == v[i],
{
    assert forall|i: int| 0 <= i < v.len() implies be_u32_at(r, i) == v[i] by {
        assert(r[4 * i] == be_bytes_u32(clamp_u32(v[(4 * i) / 4]))[(4 * i) % 4]);
        assert(r[4 * i + 1] == be_bytes_u32(clamp_u32(v[(4 * i + 1) / 4]))[(4 * i + 1) % 4]);
        assert(r[4 * i + 2] == be_bytes_u32(clamp_u32(v[(4 * i + 2) / 4]))[(4 * i + 2) % 4]);
        assert(r[4 * i + 3] == be_bytes_u32(clamp_u32(v[(4 * i + 3) / 4]))[(4 * i + 3) % 4]);
        assert((4 * i) / 4 == i && (4 * i) % 4 == 0);
        assert((4 * i + 1) / 4 == i && (4 * i + 1) % 4 == 1);
        assert((4 * i + 2) / 4 == i && (4 * i + 2) % 4 == 2);
        assert((4 * i + 3) / 4 == i && (4 * i + 3) % 4 == 3);
        lemma_u32_encode_be_round_trip(v[i]);
    }
}

/// Round-trip law for raw fixed-width samples: reversing the bytes of each
/// chunk twice restores the buffer, so the floating-point path loses no
/// bit of any sample.
pub proof fn lemma_swap_chunks_involutive(b: Seq<u8>, width: int)
    requires
        1 <= width,
        b.len() as int % width == 0,
    ensures
        swapped_chunks(swapped_chunks(b, width), width) == b,
{
    let n = b.len() as int / width;
    assert(width * n == b.len()) by (nonlinear_arith)
        requires
            n == b.len() as int / width,
            b.len() as int % width == 0,
            1 <= width,
    ;
    let s1 = swapped_chunks(b, width);
    assert(s1.len() == b.len());
    assert forall|k: int| 0 <= k < b.len() implies swapped_chunks(s1, width)[k] == b[k] by {
        let i = k / width;
        let j = k % width;
        assert(k == i * width + j && 0 <= j < width && 0 <= i < n) by (nonlinear_arith)
            requires
                i == k / width,
                j == k % width,
                0 <= k < width * n,
                1 <= width,
        ;
        let m = i * width + (width - 1 - j);
        assert(m / width == i && m % width == width - 1 - j) by (nonlinear_arith)
            requires
                m == i * width + (width - 1 - j),
                0 <= j < width,
                0 <= i,
                1 <= width,
        ;
        assert(0 <= m < b.len()) by (nonlinear_arith)
            requires
                m == i * width + (width - 1 - j),
                0 <= j < width,
                0 <= i < n,
                1 <= width,
                b.len() == width * n,
        ;
        assert(swapped_chunks(s1, width)[k] == s1[m]);
        assert(s1[m] == b[i * width + (width - 1 - (width - 1 - j))]);
    }
    assert(swapped_chunks(swapped_chunks(b, width), width) =~= b);
}

} // verus!
