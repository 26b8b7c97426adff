use vstd::prelude::*;

verus! {

/// Bytes of bitmap storage that track one segment.
pub const SEGMENT_BYTES: u16 = 8192;

/// Byte positions in one segment.
pub const IHEX_SEGMENT_BYTES: u32 = 0x10000;

/// The single-bit mask of MSB-first bit index `k` within a bitmap byte.
pub open spec fn bit_of(k: u8) -> u8 {
    0x80u8 >> k
}

/// Whether tracked position `p` is marked in `map`: bit `p % 8` (MSB first)
/// of byte `p / 8`.
pub open spec fn is_marked(map: Seq<u8>, p: int) -> bool {
    map[p / 8] & bit_of((p % 8) as u8) != 0
}

/// End of the part of a run that lies inside the segment: a run is cut at the
/// segment's end.
pub open spec fn run_end(start: int, len: int) -> int {
    if start + len > 0x10000 {
        0x10000
    } else {
        start + len
    }
}

/// Length of the part of a run that overruns the segment's end; marking
/// redirects it to the segment's first positions.
pub open spec fn wrapped_len(start: int, len: int) -> int {
    if start + len > 0x10000 {
        start + len - 0x10000
    } else {
        0
    }
}

/// Whether marking the run of `len` positions from `start` covers position `p`.
pub open spec fn fill_covers(start: int, len: int, p: int) -> bool {
    start <= p < run_end(start, len) || 0 <= p < wrapped_len(start, len)
}

/// `after` is `before` with the run of `len` positions from `start` marked,
/// and no other position changed.
pub open spec fn fill_result(before: Seq<u8>, after: Seq<u8>, start: int, len: int) -> bool {
    &&& after.len() == before.len()
    &&& forall|p: int|
        0 <= p < 0x10000 ==> #[trigger] is_marked(after, p) == (is_marked(before, p)
            || fill_covers(start, len, p))
}

/// Whether some position of the run from `start`, cut at the segment's end,
/// is marked.
pub open spec fn any_marked(map: Seq<u8>, start: int, len: int) -> bool {
    exists|p: int| start <= p < run_end(start, len) && #[trigger] is_marked(map, p)
}

proof fn lemma_set_bit(x: u8, j: u8, k: u8)
    requires
        j < 8,
        k < 8,
    ensures
        ((x | bit_of(j)) & bit_of(k) != 0) == ((x & bit_of(k) != 0) || j == k),
{
    assert(j < 8 && k < 8 ==> ((x | (0x80u8 >> j)) & (0x80u8 >> k) != 0) == ((x & (0x80u8 >> k)
        != 0) || j == k)) by (bit_vector);
}

proof fn lemma_or_bits(x: u8, m: u8, k: u8)
    ensures
        ((x | m) & bit_of(k) != 0) == ((x & bit_of(k) != 0) || (m & bit_of(k) != 0)),
{
    assert(((x | m) & (0x80u8 >> k) != 0) == ((x & (0x80u8 >> k) != 0) || (m & (0x80u8 >> k)
        != 0))) by (bit_vector);
}

proof fn lemma_full_byte(k: u8)
    requires
        k < 8,
    ensures
        0xFFu8 & bit_of(k) != 0,
{
    assert(k < 8 ==> 0xFFu8 & (0x80u8 >> k) != 0) by (bit_vector);
}

/// A byte masked by `m` is nonzero exactly when some bit is set in both.
proof fn lemma_masked_bits(x: u8, m: u8)
    ensures
        (x & m != 0) == (exists|k: u8|
            k < 8 && #[trigger] (x & bit_of(k)) != 0 && m & bit_of(k) != 0),
{
    let b = x & m;
    assert(b == x & m ==> (b != 0 <==> (b & 0x80 != 0 || b & 0x40 != 0 || b & 0x20 != 0 || b
        & 0x10 != 0 || b & 0x08 != 0 || b & 0x04 != 0 || b & 0x02 != 0 || b & 0x01 != 0)))
        by (bit_vector);
    assert forall|k: u8| k < 8 implies ((x & bit_of(k)) != 0 && m & bit_of(k) != 0) == ((x & m)
        & bit_of(k) != 0) by {
        assert(((x & (0x80u8 >> k)) != 0 && m & (0x80u8 >> k) != 0) == ((x & m) & (0x80u8 >> k)
            != 0)) by (bit_vector);
    }
    assert(bit_of(0) == 0x80 && bit_of(1) == 0x40 && bit_of(2) == 0x20 && bit_of(3) == 0x10)
        by (bit_vector);
    assert(bit_of(4) == 0x08 && bit_of(5) == 0x04 && bit_of(6) == 0x02 && bit_of(7) == 0x01)
        by (bit_vector);
}

/// Splits a tracked position into its bitmap byte and MSB-first bit index.
pub fn ibyte_to_mapbyte(ibyte: u16) -> (r: (usize, u8))
    ensures
        r.0 == ibyte / 8,
        r.1 == ibyte % 8,
{
    ((ibyte / 8) as usize, (ibyte % 8) as u8)
}

/// Single-bit mask for MSB-first bit index `num`.
fn bit_msk(num: u8) -> (r: u8)
    requires
        num < 8,
    ensures
        r == bit_of(num),
{
    0b10000000 >> num
}

/// Mask with the low `bits` bits set; saturates at eight.
pub fn start_mask(bits: u8) -> (r: u8)
    ensures
        forall|k: u8| k < 8 ==> (#[trigger] (r & bit_of(k)) != 0) == (k + bits >= 8),
{
    if bits >= 8 {
        proof {
            assert forall|k: u8| k < 8 implies (#[trigger] (0xFFu8 & bit_of(k)) != 0) by {
                lemma_full_byte(k);
            }
        }
        0xFF
    } else {
        assert(bits < 8 ==> 1u16 <= (1u16 << bits)) by (bit_vector);
        let msk: u16 = (1 << bits) - 1;
        assert(msk & 0xFF <= 0xFF) by (bit_vector);
        let r = (msk & 0xFF) as u8;
        proof {
            assert forall|k: u8| k < 8 implies (#[trigger] (r & bit_of(k)) != 0) == (k + bits >= 8)
            by {
                assert(bits < 8 && k < 8 && msk == ((1u16 << bits) - 1) as u16 && r == (msk
                    & 0xFF) as u8 ==> ((r & (0x80u8 >> k)) != 0) == (k + bits >= 8))
                    by (bit_vector);
            }
        }
        r
    }
}


/// Mask with the high `bits` bits set; saturates at eight.
pub fn end_mask(bits: u8) -> (r: u8)
    ensures
        forall|k: u8| k < 8 ==> (#[trigger] (r & bit_of(k)) != 0) == (k < bits),
{
    if bits > 8 {
        proof {
            assert forall|k: u8| k < 8 implies (#[trigger] (0xFFu8 & bit_of(k)) != 0) by {
                lemma_full_byte(k);
            }
        }
        0xFF
    } else {
        assert(((0xFFu16) << ((8 - bits) as u8)) & 0xFF <= 0xFF) by (bit_vector);
        let r = (((0xFF as u16) << (8 - bits)) & 0xFF) as u8;
        proof {
            assert forall|k: u8| k < 8 implies (#[trigger] (r & bit_of(k)) != 0) == (k < bits) by {
                assert(bits <= 8 && k < 8 && r == (((0xFFu16) << ((8 - bits) as u8)) & 0xFF) as u8
                    ==> ((r & (0x80u8 >> k)) != 0) == (k < bits)) by (bit_vector);
            }
        }
        r
    }
}

/// Splits the run of `len` positions from `start` into a leading partial
/// byte (in bits), a count of whole bytes, and a trailing partial byte (in bits).
pub fn get_pad_counts(start: u16, len: u16) -> (r: (u16, u16, u16))
    ensures
        r.0 == vstd::math::min(8 - start % 8, len as int) % 8,
        r.1 == (len - r.0) / 8,
        r.2 == len - r.0 - 8 * r.1,
        r.0 + 8 * r.1 + r.2 == len,
        r.0 < 8,
        r.2 < 8,
{
    // The lower 8 byte boundary
    let start_align = (start / 8) * 8;
    // If unaligned compute how many bits of padding there are. If aligned it's 0
    let seg_bits_leading = (8 - (start - start_align)).min(len) % 8;
    let seg_full_bytes = (len - seg_bits_leading) / 8;
    let seg_bits_ending = len - seg_bits_leading - (seg_full_bytes * 8);
    (seg_bits_leading, seg_full_bytes, seg_bits_ending)
}

/// Marks the `len` positions from `start`, a run that stays inside the segment.
fn fill_run(map: &mut Vec<u8>, start: u16, len: u16)
    requires
        old(map)@.len() == SEGMENT_BYTES,
        start + len <= 0x10000,
    ensures
        final(map)@.len() == SEGMENT_BYTES,
        forall|p: int|
            0 <= p < 0x10000 ==> #[trigger] is_marked(final(map)@, p) == (is_marked(
                old(map)@,
                p,
            ) || (start <= p < start + len)),
{
    let (bits_leading, bytes_full, bits_ending) = get_pad_counts(start, len);
    let start_offset: usize = if bits_leading == 0 {
        0
    } else {
        1
    };
    let (target_byte, target_bit) = ibyte_to_mapbyte(start);
    assert(target_bit + bits_leading <= 8);
    assert(bytes_full > 0 || bits_ending > 0 ==> 8 * (target_byte + start_offset) == start
        + bits_leading);
    assert(bytes_full == 0 && bits_ending == 0 ==> bits_leading == len);

    /* Leading bits need not reach the byte boundary: a run may sit inside one byte */
    let mut i: u16 = 0;
    while i < bits_leading
        invariant
            i <= bits_leading,
            target_bit + bits_leading <= 8,
            target_byte == start / 8,
            target_bit == start % 8,
            map@.len() == SEGMENT_BYTES,
            forall|p: int|
                0 <= p < 0x10000 ==> #[trigger] is_marked(map@, p) == (is_marked(old(map)@, p) || (
                start <= p < start + i)),
        decreases bits_leading - i,
    {
        let ghost before = map@;
        let msk = bit_msk(i as u8 + target_bit);
        let b = map[target_byte] | msk;
        map.set(target_byte, b);
        proof {
            assert forall|p: int| 0 <= p < 0x10000 implies #[trigger] is_marked(map@, p) == (
            is_marked(old(map)@, p) || (start <= p < start + i + 1)) by {
                if p / 8 == target_byte {
                    lemma_set_bit(before[target_byte as int], (i as u8 + target_bit) as u8, (p
                        % 8) as u8);
                    assert((p % 8) as u8 == (i as u8 + target_bit) as u8 <==> p == start + i);
                }
                assert(is_marked(before, p) == (is_marked(old(map)@, p) || (start <= p < start
                    + i)));
            }
        }
        i = i + 1;
    }

    /* Whole bytes */
    let mut i: u16 = 0;
    while i < bytes_full
        invariant
            i <= bytes_full,
            bits_leading + 8 * bytes_full + bits_ending == len,
            start + len <= 0x10000,
            bytes_full > 0 ==> 8 * (target_byte + start_offset) == start + bits_leading,
            map@.len() == SEGMENT_BYTES,
            forall|p: int|
                0 <= p < 0x10000 ==> #[trigger] is_marked(map@, p) == (is_marked(old(map)@, p) || (
                start <= p < start + bits_leading + 8 * i)),
        decreases bytes_full - i,
    {
        let ghost before = map@;
        let idx = target_byte + start_offset + (i as usize);
        map.set(idx, 0xFF);
        proof {
            assert forall|p: int| 0 <= p < 0x10000 implies #[trigger] is_marked(map@, p) == (
            is_marked(old(map)@, p) || (start <= p < start + bits_leading + 8 * (i + 1))) by {
                if p / 8 == idx {
                    lemma_full_byte((p % 8) as u8);
                }
                assert(is_marked(before, p) == (is_marked(old(map)@, p) || (start <= p < start
                    + bits_leading + 8 * i)));
            }
        }
        i = i + 1;
    }

    /* Trailing bits */
    if bits_ending != 0 {
        let ghost before = map@;
        let idx = target_byte + start_offset + (bytes_full as usize);
        let msk = end_mask(bits_ending as u8);
        let b = map[idx] | msk;
        map.set(idx, b);
        proof {
            assert forall|p: int| 0 <= p < 0x10000 implies #[trigger] is_marked(map@, p) == (
            is_marked(old(map)@, p) || (start <= p < start + len)) by {
                if p / 8 == idx {
                    lemma_or_bits(before[idx as int], msk, (p % 8) as u8);
                    assert(msk & bit_of((p % 8) as u8) != 0 <==> (p % 8) < bits_ending);
                }
                assert(is_marked(before, p) == (is_marked(old(map)@, p) || (start <= p < start
                    + bits_leading + 8 * bytes_full)));
            }
        }
    }
}

/// Marks the `len` positions from `start` in one segment's bitmap. A run that
/// overruns the segment's end goes on from the segment's first position.
pub fn fill_bytes(map: &mut Vec<u8>, start: u16, len: u16)
    requires
        old(map)@.len() == SEGMENT_BYTES,
    ensures
        fill_result(old(map)@, final(map)@, start as int, len as int),
{
    /* Writes across a 64kb boundary wrap to the beginning of the same segment */
    let end: u32 = start as u32 + len as u32;
    let remainder: u16 = if end > IHEX_SEGMENT_BYTES {
        (end - IHEX_SEGMENT_BYTES) as u16
    } else {
        0
    };
    let in_segment = len - remainder;
    fill_run(map, start, in_segment);
    if remainder > 0 {
        fill_run(map, 0, remainder);
    }
}

/// Whether any of the `len` positions from `start` is marked. A run that
/// overruns the segment's end is checked only up to that end.
pub fn is_seg_range_set(segment: &Vec<u8>, start: u16, len: u16) -> (r: bool)
    requires
        segment@.len() == SEGMENT_BYTES,
    ensures
        r == any_marked(segment@, start as int, len as int),
{
    // Convert the ihex byte range to bit ranges on the segment map
    let end: u32 = start as u32 + len as u32;
    let remainder: u16 = if end > IHEX_SEGMENT_BYTES {
        (end - IHEX_SEGMENT_BYTES) as u16
    } else {
        0
    };
    let in_segment = len - remainder;
    assert(start + in_segment == run_end(start as int, len as int));
    let (bits_leading, bytes_full, bits_ending) = get_pad_counts(start, in_segment);
    let start_offset: usize = if bits_leading == 0 {
        0
    } else {
        1
    };
    let (target_byte, target_bit) = ibyte_to_mapbyte(start);
    assert(target_bit + bits_leading <= 8);
    assert(bytes_full > 0 || bits_ending > 0 ==> 8 * (target_byte + start_offset) == start
        + bits_leading);
    assert(bytes_full == 0 && bits_ending == 0 ==> bits_leading == in_segment);

    let mut i: u16 = 0;
    while i < bits_leading
        invariant
            i <= bits_leading,
            target_bit + bits_leading <= 8,
            target_byte == start / 8,
            target_bit == start % 8,
            start + in_segment <= 0x10000,
            start + in_segment == run_end(start as int, len as int),
            segment@.len() == SEGMENT_BYTES,
            bits_leading <= in_segment,
            forall|p: int| start <= p < start + i ==> !#[trigger] is_marked(segment@, p),
        decreases bits_leading - i,
    {
        if segment[target_byte] & bit_msk(i as u8 + target_bit) != 0 {
            assert(is_marked(segment@, start + i));
            return true;
        }
        assert(is_marked(segment@, start + i) == false);
        i = i + 1;
    }

    let mut i: u16 = 0;
    while i < bytes_full
        invariant
            i <= bytes_full,
            bits_leading + 8 * bytes_full + bits_ending == in_segment,
            start + in_segment <= 0x10000,
            start + in_segment == run_end(start as int, len as int),
            segment@.len() == SEGMENT_BYTES,
            bytes_full > 0 ==> 8 * (target_byte + start_offset) == start + bits_leading,
            forall|p: int| start <= p < start + bits_leading + 8 * i ==> !#[trigger] is_marked(segment@, p),
        decreases bytes_full - i,
    {
        let idx = target_byte + start_offset + i as usize;
        let b = segment[idx];
        proof {
            lemma_masked_bits(b, 0xFF);
            assert(b & 0xFF == b) by (bit_vector);
        }
        if b != 0 {
            let ghost k = choose|k: u8| k < 8 && #[trigger] (b & bit_of(k)) != 0 && 0xFFu8 & bit_of(k) != 0;
            assert(is_marked(segment@, 8 * idx + k));
            return true;
        }
        assert forall|p: int| start <= p < start + bits_leading + 8 * (i + 1) implies !#[trigger] is_marked(segment@, p) by {
            if p / 8 == idx {
                assert(!(b & bit_of((p % 8) as u8) != 0 && 0xFFu8 & bit_of((p % 8) as u8) != 0));
                lemma_full_byte((p % 8) as u8);
            }
        }
        i = i + 1;
    }

    if bits_ending > 0 {
        let idx = target_byte + start_offset + bytes_full as usize;
        let msk = end_mask(bits_ending as u8);
        let b = segment[idx];
        proof {
            lemma_masked_bits(b, msk);
        }
        if b & msk != 0 {
            let ghost k = choose|k: u8| k < 8 && #[trigger] (b & bit_of(k)) != 0 && msk & bit_of(k) != 0;
            assert(is_marked(segment@, 8 * idx + k));
            return true;
        }
        assert forall|p: int| start <= p < start + in_segment implies !#[trigger] is_marked(segment@, p) by {
            if p / 8 == idx {
                assert(!(b & bit_of((p % 8) as u8) != 0 && msk & bit_of((p % 8) as u8) != 0));
            }
        }
    }
    false
}

/// Two bytes with the same eight bits are equal.
proof fn lemma_byte_from_bits(x: u8, y: u8)
    requires
        forall|k: u8| k < 8 ==> (#[trigger] (x & bit_of(k)) != 0) == (y & bit_of(k) != 0),
    ensures
        x == y,
{
    assert((x & bit_of(0)) != 0 <==> (y & bit_of(0)) != 0);
    assert((x & bit_of(1)) != 0 <==> (y & bit_of(1)) != 0);
    assert((x & bit_of(2)) != 0 <==> (y & bit_of(2)) != 0);
    assert((x & bit_of(3)) != 0 <==> (y & bit_of(3)) != 0);
    assert((x & bit_of(4)) != 0 <==> (y & bit_of(4)) != 0);
    assert((x & bit_of(5)) != 0 <==> (y & bit_of(5)) != 0);
    assert((x & bit_of(6)) != 0 <==> (y & bit_of(6)) != 0);
    assert((x & bit_of(7)) != 0 <==> (y & bit_of(7)) != 0);
    assert(bit_of(0) == 0x80 && bit_of(1) == 0x40 && bit_of(2) == 0x20 && bit_of(3) == 0x10)
        by (bit_vector);
    assert(bit_of(4) == 0x08 && bit_of(5) == 0x04 && bit_of(6) == 0x02 && bit_of(7) == 0x01)
        by (bit_vector);
    assert(((x & 0x80 != 0) <==> (y & 0x80 != 0)) && ((x & 0x40 != 0) <==> (y & 0x40 != 0)) && ((x
        & 0x20 != 0) <==> (y & 0x20 != 0)) && ((x & 0x10 != 0) <==> (y & 0x10 != 0)) && ((x & 0x08
        != 0) <==> (y & 0x08 != 0)) && ((x & 0x04 != 0) <==> (y & 0x04 != 0)) && ((x & 0x02 != 0)
        <==> (y & 0x02 != 0)) && ((x & 0x01 != 0) <==> (y & 0x01 != 0)) ==> x == y)
        by (bit_vector);
}

/// Marking a run a second time leaves the bitmap as the first marking left it.
pub proof fn lemma_fill_idempotent(m0: Seq<u8>, m1: Seq<u8>, m2: Seq<u8>, start: u16, len: u16)
    requires
        m0.len() == SEGMENT_BYTES,
        fill_result(m0, m1, start as int, len as int),
        fill_result(m1, m2, start as int, len as int),
    ensures
        m2 == m1,
{
    assert forall|i: int| 0 <= i < m1.len() implies m2[i] == m1[i] by {
        assert forall|k: u8| k < 8 implies (#[trigger] (m2[i] & bit_of(k)) != 0) == (m1[i]
            & bit_of(k) != 0) by {
            let p = 8 * i + k;
            assert(p / 8 == i && p % 8 == k);
            assert(is_marked(m2, p) == (is_marked(m1, p) || fill_covers(start as int, len as int, p)));
            assert(is_marked(m1, p) == (is_marked(m0, p) || fill_covers(start as int, len as int, p)));
        }
        lemma_byte_from_bits(m2[i], m1[i]);
    }
    assert(m2 =~= m1);
}

/// Marking never clears a position that was already marked.
pub proof fn lemma_fill_monotone(m0: Seq<u8>, m1: Seq<u8>, start: u16, len: u16, p: int)
    requires
        fill_result(m0, m1, start as int, len as int),
        0 <= p < 0x10000,
        is_marked(m0, p),
    ensures
        is_marked(m1, p),
{
}

/// After a run of at least one position is marked, querying the same run
/// finds a marked position.
pub proof fn lemma_fill_then_query(m0: Seq<u8>, m1: Seq<u8>, start: u16, len: u16)
    requires
        fill_result(m0, m1, start as int, len as int),
        len > 0,
    ensures
        any_marked(m1, start as int, len as int),
{
    assert(is_marked(m1, start as int));
}

/// Marking a run changes no position outside the run (with its wrapped part).
pub proof fn lemma_fill_disjoint(m0: Seq<u8>, m1: Seq<u8>, start: u16, len: u16, p: int)
    requires
        fill_result(m0, m1, start as int, len as int),
        0 <= p < 0x10000,
        !fill_covers(start as int, len as int, p),
    ensures
        is_marked(m1, p) == is_marked(m0, p),
{
}

} // verus!
