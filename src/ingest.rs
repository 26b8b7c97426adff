use vstd::prelude::*;
use std::collections::HashMap;
use crate::bitmap::{SEGMENT_BYTES, fill_bytes, fill_result, fill_covers, is_marked, bit_of};

verus! {

broadcast use vstd::std_specs::hash::group_hash_axioms;

/// One record of an Intel HEX file, as far as tracking written positions reads it.
pub enum HexRecord {
    /// Bytes written from `offset` within the current segment.
    Data { offset: u16, value: Vec<u8> },
    /// Sets the segment base: bits 4 to 19 of a 20-bit address.
    ExtendedSegmentAddress(u16),
    /// Sets the upper 16 bits of a 32-bit address.
    ExtendedLinearAddress(u16),
    /// A well-formed record that moves no address and writes nothing.
    Other,
    /// A line that could not be read as a record; it is skipped.
    Unreadable,
}

/// The records that an Intel HEX text holds, line by line.
pub uninterp spec fn hex_records(text: Seq<char>) -> Seq<HexRecord>;

/// Relies on `ihex::Reader`: reads the text into records, one per non-empty
/// line, stopping after an end-of-file record or the first unreadable line.
#[verifier::external_body]
fn read_records(text: &str) -> (r: Vec<HexRecord>)
    ensures
        r@ == hex_records(text@),
{
    ihex::Reader::new(text).map(|rec| match rec {
        Ok(ihex::Record::Data { offset, value }) => HexRecord::Data { offset, value },
        Ok(ihex::Record::ExtendedSegmentAddress(a)) => HexRecord::ExtendedSegmentAddress(a),
        Ok(ihex::Record::ExtendedLinearAddress(a)) => HexRecord::ExtendedLinearAddress(a),
        Ok(ihex::Record::EndOfFile) => HexRecord::Other,
        Ok(ihex::Record::StartSegmentAddress { .. }) => HexRecord::Other,
        Ok(ihex::Record::StartLinearAddress(_)) => HexRecord::Other,
        Err(_) => HexRecord::Unreadable,
    }).collect()
}

/// The address registers that data records are placed by. At most one of
/// them is nonzero: setting one clears the other.
#[derive(Clone, Copy, Debug, PartialEq, Eq, Structural)]
pub struct AddressState {
    /// Extended segment address.
    pub esx: u16,
    /// Extended linear address.
    pub ela: u16,
}

/// The registers before any record.
pub open spec fn initial_state() -> AddressState {
    AddressState { esx: 0, ela: 0 }
}

/// The registers after `rec`.
pub open spec fn next_state(st: AddressState, rec: HexRecord) -> AddressState {
    match rec {
        HexRecord::ExtendedSegmentAddress(a) => AddressState { esx: a, ela: 0 },
        HexRecord::ExtendedLinearAddress(a) => AddressState { esx: 0, ela: a },
        _ => st,
    }
}

/// The segment that a data record lands in: bits 16 to 19 of the 20-bit
/// segmented address, or else the linear address's upper half.
pub open spec fn page_of(st: AddressState) -> int {
    if st.esx != 0 {
        st.esx as int / 0x1000
    } else {
        st.ela as int
    }
}

/// Where a data record at `offset` starts within its segment: the low
/// 16 bits of the segmented address.
pub open spec fn start_of(st: AddressState, offset: u16) -> int {
    (offset + 16 * st.esx) % 0x10000
}

/// How many positions a data record of `n` bytes marks.
pub open spec fn data_len(n: int) -> int {
    n % 0x10000
}

/// The registers in force when record `j` of `recs` is read.
pub open spec fn state_before(recs: Seq<HexRecord>, j: int) -> AddressState
    decreases j,
{
    if j <= 0 {
        initial_state()
    } else {
        next_state(state_before(recs, j - 1), recs[j - 1])
    }
}

/// Whether record `j` is a data record that lands in segment `g`.
pub open spec fn lands_in(recs: Seq<HexRecord>, j: int, g: int) -> bool {
    match recs[j] {
        HexRecord::Data { offset, value } => page_of(state_before(recs, j)) == g,
        _ => false,
    }
}

/// Whether record `j` is a data record that marks position `p` of segment `g`.
pub open spec fn marks(recs: Seq<HexRecord>, j: int, g: int, p: int) -> bool {
    match recs[j] {
        HexRecord::Data { offset, value } => {
            &&& page_of(state_before(recs, j)) == g
            &&& fill_covers(start_of(state_before(recs, j), offset), data_len(value@.len() as int), p)
        },
        _ => false,
    }
}

/// Applies one record to the registers.
pub fn next_address_state(st: AddressState, rec: &HexRecord) -> (r: AddressState)
    ensures
        r == next_state(st, *rec),
{
    match rec {
        HexRecord::ExtendedSegmentAddress(a) => AddressState { esx: *a, ela: 0 },
        HexRecord::ExtendedLinearAddress(a) => AddressState { esx: 0, ela: *a },
        _ => st,
    }
}

/// The segment and start offset that a data record at `offset` lands on.
pub fn data_target(st: AddressState, offset: u16) -> (r: (u16, u16))
    ensures
        r.0 == page_of(st),
        r.1 == start_of(st, offset),
{
    /* Segmented addresses can reach into later segments */
    let esx = st.esx;
    let page = if esx != 0 {
        assert((esx & 0xF000u16) >> 12u16 == esx / 0x1000) by (bit_vector);
        (esx & 0xF000) >> 12
    } else {
        st.ela
    };
    let start = ((offset as u32 + 16 * st.esx as u32) % 0x10000) as u16;
    (page, start)
}

/// A bitmap in which no position is marked.
pub open spec fn blank_segment() -> Seq<u8> {
    Seq::new(SEGMENT_BYTES as nat, |i: int| 0u8)
}

/// Segment bitmaps by segment index, each allocated on its first use.
pub struct SegmentMap {
    segments: HashMap<u16, Vec<u8>>,
    highest: Option<u16>,
}

impl SegmentMap {
    /// The bitmap of each segment that has one.
    pub closed spec fn view(&self) -> Map<u16, Seq<u8>> {
        self.segments@.map_values(|v: Vec<u8>| v@)
    }

    /// Every bitmap has the segment size, and `highest` is the largest index.
    pub closed spec fn wf(&self) -> bool {
        &&& forall|g: u16| #[trigger] self.segments@.contains_key(g) ==> self.segments@[g]@.len()
            == SEGMENT_BYTES
        &&& match self.highest {
            None => self.segments@.is_empty(),
            Some(h) => self.segments@.contains_key(h) && forall|g: u16|
                #[trigger] self.segments@.contains_key(g) ==> g <= h,
        }
    }

    /// A map without any segment.
    pub fn new() -> (r: SegmentMap)
        ensures
            r.wf(),
            r@ == Map::<u16, Seq<u8>>::empty(),
    {
        let r = SegmentMap { segments: HashMap::new(), highest: None };
        assert(r@ =~= Map::<u16, Seq<u8>>::empty());
        r
    }

    /// Marks the `len` positions from `start` in segment `page`, allocating
    /// its bitmap, with no position marked, if it has none yet.
    pub fn fill(&mut self, page: u16, start: u16, len: u16)
        requires
            old(self).wf(),
        ensures
            final(self).wf(),
            final(self)@.dom() == old(self)@.dom().insert(page),
            forall|g: u16| g != page && #[trigger] old(self)@.contains_key(g) ==> final(self)@[g] == old(self)@[g],
            fill_result(
                if old(self)@.contains_key(page) { old(self)@[page] } else { blank_segment() },
                final(self)@[page],
                start as int,
                len as int,
            ),
    {
        let mut seg = match self.segments.remove(&page) {
            Some(s) => s,
            None => vec![0u8; SEGMENT_BYTES as usize],
        };
        assert(seg@ == (if old(self)@.contains_key(page) { old(self)@[page] } else { blank_segment() }));
        fill_bytes(&mut seg, start, len);
        self.segments.insert(page, seg);
        self.highest = match self.highest {
            Some(h) => if h < page { Some(page) } else { Some(h) },
            None => Some(page),
        };
        assert(self@.dom() =~= old(self)@.dom().insert(page));
    }

    /// The bitmap of segment `page`, if it has one.
    pub fn segment(&self, page: u16) -> (r: Option<&Vec<u8>>)
        requires
            self.wf(),
        ensures
            match r {
                Some(v) => self@.contains_key(page) && v@ == self@[page] && v@.len() == SEGMENT_BYTES,
                None => !self@.contains_key(page),
            },
    {
        self.segments.get(&page)
    }

    /// The largest index of a segment that has a bitmap.
    pub fn highest(&self) -> (r: Option<u16>)
        requires
            self.wf(),
        ensures
            match r {
                None => self@.is_empty(),
                Some(h) => self@.contains_key(h) && forall|g: u16| #[trigger] self@.contains_key(g) ==> g <= h,
            },
    {
        self.highest
    }
}

proof fn lemma_blank_unmarked(p: int)
    requires
        0 <= p < 0x10000,
    ensures
        !is_marked(blank_segment(), p),
{
    let k = (p % 8) as u8;
    assert(0u8 & (0x80u8 >> k) == 0) by (bit_vector);
}

/// Tracks the positions that the data records of `recs` write, placing each
/// by the address registers in force when it is read.
pub fn apply_records(recs: &Vec<HexRecord>) -> (r: SegmentMap)
    ensures
        r.wf(),
        forall|g: u16|
            #[trigger] r@.contains_key(g) <==> exists|j: int|
                0 <= j < recs@.len() && lands_in(recs@, j, g as int),
        forall|g: u16, p: int|
            r@.contains_key(g) && 0 <= p < 0x10000 ==> (#[trigger] is_marked(r@[g], p) <==> exists|
                j: int,
            | 0 <= j < recs@.len() && marks(recs@, j, g as int, p)),
{
    let mut map = SegmentMap::new();
    let mut st = AddressState { esx: 0, ela: 0 };
    let mut i: usize = 0;
    while i < recs.len()
        invariant
            map.wf(),
            i <= recs@.len(),
            st == state_before(recs@, i as int),
            forall|g: u16|
                #[trigger] map@.contains_key(g) <==> exists|j: int|
                    0 <= j < i && lands_in(recs@, j, g as int),
            forall|g: u16, p: int|
                map@.contains_key(g) && 0 <= p < 0x10000 ==> (#[trigger] is_marked(map@[g], p)
                    <==> exists|j: int| 0 <= j < i && marks(recs@, j, g as int, p)),
        decreases recs@.len() - i,
    {
        let ghost before = map@;
        match &recs[i] {
            HexRecord::Data { offset, value } => {
                let (page, start) = data_target(st, *offset);
                let len = (value.len() % 0x10000) as u16;
                map.fill(page, start, len);
                proof {
                    assert(lands_in(recs@, i as int, page as int));
                    assert forall|g: u16| #[trigger] map@.contains_key(g) <==> exists|j: int|
                        0 <= j < i + 1 && lands_in(recs@, j, g as int) by {
                        if g != page {
                            if exists|j: int| 0 <= j < i + 1 && lands_in(recs@, j, g as int) {
                                let j = choose|j: int| 0 <= j < i + 1 && lands_in(recs@, j, g as int);
                                assert(j != i);
                            }
                        }
                    }
                    assert forall|g: u16, p: int| map@.contains_key(g) && 0 <= p < 0x10000 implies (
                    #[trigger] is_marked(map@[g], p) <==> exists|j: int|
                        0 <= j < i + 1 && marks(recs@, j, g as int, p)) by {
                        if exists|j: int| 0 <= j < i + 1 && marks(recs@, j, g as int, p) {
                            let j = choose|j: int| 0 <= j < i + 1 && marks(recs@, j, g as int, p);
                            if j < i {
                                assert(lands_in(recs@, j, g as int));
                            }
                        }
                        assert(marks(recs@, i as int, g as int, p) == (g == page && fill_covers(
                            start as int,
                            len as int,
                            p,
                        )));
                        if g != page {
                            assert(before.contains_key(g));
                            assert(map@[g] == before[g]);
                            assert(is_marked(before[g], p) <==> exists|j: int|
                                0 <= j < i && marks(recs@, j, g as int, p));
                        } else if before.contains_key(g) {
                            assert(is_marked(before[g], p) <==> exists|j: int|
                                0 <= j < i && marks(recs@, j, g as int, p));
                            assert(is_marked(map@[g], p) == (is_marked(before[g], p) || fill_covers(
                                start as int,
                                len as int,
                                p,
                            )));
                        } else {
                            lemma_blank_unmarked(p);
                            assert forall|j: int| 0 <= j < i implies !marks(recs@, j, g as int, p) by {
                                if marks(recs@, j, g as int, p) {
                                    assert(lands_in(recs@, j, g as int));
                                }
                            }
                        }
                    }
                }
            },
            _ => {
                proof {
                    assert forall|g: u16| #[trigger] map@.contains_key(g) <==> exists|j: int|
                        0 <= j < i + 1 && lands_in(recs@, j, g as int) by {
                        if exists|j: int| 0 <= j < i + 1 && lands_in(recs@, j, g as int) {
                            let j = choose|j: int| 0 <= j < i + 1 && lands_in(recs@, j, g as int);
                            assert(j != i);
                        }
                    }
                    assert forall|g: u16, p: int| map@.contains_key(g) && 0 <= p < 0x10000 implies (
                    #[trigger] is_marked(map@[g], p) <==> exists|j: int|
                        0 <= j < i + 1 && marks(recs@, j, g as int, p)) by {
                        if exists|j: int| 0 <= j < i + 1 && marks(recs@, j, g as int, p) {
                            let j = choose|j: int| 0 <= j < i + 1 && marks(recs@, j, g as int, p);
                            assert(j != i);
                        }
                    }
                }
            },
        }
        st = next_address_state(st, &recs[i]);
        i = i + 1;
    }
    map
}

/// Reads an Intel HEX text and tracks the positions that its data records write.
pub fn ingest_hex(text: &str) -> (r: SegmentMap)
    ensures
        r.wf(),
        forall|g: u16|
            #[trigger] r@.contains_key(g) <==> exists|j: int|
                0 <= j < hex_records(text@).len() && lands_in(hex_records(text@), j, g as int),
        forall|g: u16, p: int|
            r@.contains_key(g) && 0 <= p < 0x10000 ==> (#[trigger] is_marked(r@[g], p) <==> exists|
                j: int,
            | 0 <= j < hex_records(text@).len() && marks(hex_records(text@), j, g as int, p)),
{
    let recs = read_records(text);
    apply_records(&recs)
}

} // verus!
