use vstd::prelude::*;
use crate::bitmap::{SEGMENT_BYTES, IHEX_SEGMENT_BYTES, any_marked, is_seg_range_set};

verus! {

/// Drawn for a span with no marked position.
pub const CHR_BLANK: char = '\u{2591}';

/// Drawn for a span with a marked position.
pub const CHR_DATA: char = '\u{2593}';

/// First position that character `chr` of line `line_num` stands for.
pub open spec fn span_start(bytes_per_line: int, width: int, line_num: int, chr: int) -> int {
    bytes_per_line * line_num + chr * (bytes_per_line / width)
}

/// How many positions character `chr` stands for: an equal share of the
/// line, the last character taking what is left over.
pub open spec fn span_len(bytes_per_line: int, width: int, chr: int) -> int {
    bytes_per_line / width + if chr == width - 1 {
        bytes_per_line % width
    } else {
        0
    }
}

/// Whether a line of `bytes_per_line` positions, drawn in `width`
/// characters, has a line number `line_num` that fits in one segment.
pub open spec fn line_fits(bytes_per_line: int, width: int, line_num: int) -> bool {
    &&& 0 < width
    &&& 0 < bytes_per_line
    &&& line_num < 0x10000int / bytes_per_line
}

proof fn lemma_span_fits(bytes_per_line: int, width: int, line_num: int, chr: int)
    requires
        line_fits(bytes_per_line, width, line_num),
        bytes_per_line <= 0xFFFF,
        0 <= line_num,
        0 <= chr < width,
    ensures
        0 <= span_start(bytes_per_line, width, line_num, chr),
        span_start(bytes_per_line, width, line_num, chr) + span_len(bytes_per_line, width, chr)
            <= bytes_per_line * (line_num + 1),
        bytes_per_line * (line_num + 1) <= 0x10000,
        span_len(bytes_per_line, width, chr) <= bytes_per_line,
        span_start(bytes_per_line, width, line_num, chr) < 0x10000,
        0 <= bytes_per_line * line_num <= span_start(bytes_per_line, width, line_num, chr),
        0 <= chr * (bytes_per_line / width) <= span_start(bytes_per_line, width, line_num, chr),
{
    let q = bytes_per_line / width;
    let m = bytes_per_line % width;
    assert(bytes_per_line == q * width + m && 0 <= m < width && 0 <= q) by (nonlinear_arith)
        requires
            q == bytes_per_line / width,
            m == bytes_per_line % width,
            0 < width,
            0 < bytes_per_line,
    ;
    assert(chr * q <= (width - 1) * q) by (nonlinear_arith)
        requires
            0 <= chr < width,
            0 <= q,
    ;
    assert(0 <= chr * q) by (nonlinear_arith)
        requires
            0 <= chr,
            0 <= q,
    ;
    assert(bytes_per_line * (line_num + 1) <= 0x10000) by (nonlinear_arith)
        requires
            0 < bytes_per_line,
            0 <= line_num < 0x10000int / bytes_per_line,
    ;
    assert(0 <= bytes_per_line * line_num) by (nonlinear_arith)
        requires
            0 < bytes_per_line,
            0 <= line_num,
    ;
    assert(bytes_per_line * (line_num + 1) == bytes_per_line * line_num + bytes_per_line)
        by (nonlinear_arith);
    assert((width - 1) * q + q == width * q) by (nonlinear_arith);
    assert(q == 0 ==> chr * q == 0) by (nonlinear_arith);
}

/// The first position and the length of the span that character `chr` of
/// line `line_num` stands for.
pub fn char_span(bytes_per_line: u16, width_symbols: u16, line_num: u16, chr: u16) -> (r: (u16, u16))
    requires
        line_fits(bytes_per_line as int, width_symbols as int, line_num as int),
        chr < width_symbols,
    ensures
        r.0 == span_start(bytes_per_line as int, width_symbols as int, line_num as int, chr as int),
        r.1 == span_len(bytes_per_line as int, width_symbols as int, chr as int),
{
    proof {
        lemma_span_fits(bytes_per_line as int, width_symbols as int, line_num as int, chr as int);
    }
    let bytes_per_char = bytes_per_line / width_symbols;
    let bytes_per_char_rem = bytes_per_line % width_symbols;
    // The requested number of bytes plus the remainder at the end if asked for a nondivisible combination
    let is_last = chr == width_symbols - 1;
    let num_bytes = bytes_per_char + if is_last {
        bytes_per_char_rem
    } else {
        0
    };
    // The offset in the segment
    let start = bytes_per_line * line_num + chr * bytes_per_char;
    (start, num_bytes)
}

/// One line of the picture of a segment: for each character, whether any
/// position of its span is marked.
pub fn segment_line(segment: &Vec<u8>, bytes_per_line: u16, width_symbols: u16, line_num: u16) -> (r: Vec<bool>)
    requires
        segment@.len() == SEGMENT_BYTES,
        line_fits(bytes_per_line as int, width_symbols as int, line_num as int),
    ensures
        r@.len() == width_symbols,
        forall|c: int|
            0 <= c < width_symbols ==> #[trigger] r@[c] == any_marked(
                segment@,
                span_start(bytes_per_line as int, width_symbols as int, line_num as int, c),
                span_len(bytes_per_line as int, width_symbols as int, c),
            ),
{
    let mut line_data: Vec<bool> = Vec::new();
    let mut chr: u16 = 0;
    while chr < width_symbols
        invariant
            segment@.len() == SEGMENT_BYTES,
            line_fits(bytes_per_line as int, width_symbols as int, line_num as int),
            chr <= width_symbols,
            line_data@.len() == chr,
            forall|c: int|
                0 <= c < chr ==> #[trigger] line_data@[c] == any_marked(
                    segment@,
                    span_start(bytes_per_line as int, width_symbols as int, line_num as int, c),
                    span_len(bytes_per_line as int, width_symbols as int, c),
                ),
        decreases width_symbols - chr,
    {
        let (start, num_bytes) = char_span(bytes_per_line, width_symbols, line_num, chr);
        let res = is_seg_range_set(segment, start, num_bytes);
        line_data.push(res);
        chr = chr + 1;
    }
    line_data
}

/// The address printed beside line `i`: lines follow each other by
/// `line_size`, and the first one is moved on by `initial_offset`.
pub fn line_address(i: u32, line_size: u16, initial_offset: u16) -> (r: u32)
    requires
        i * line_size + initial_offset <= u32::MAX,
    ensures
        r == i * line_size + if i == 0 {
            initial_offset as int
        } else {
            0
        },
{
    assert(0 <= i * line_size) by (nonlinear_arith);
    i * line_size as u32 + (if i == 0 {
        initial_offset as u32
    } else {
        0
    })
}

/// The layout of the picture: the last address tracked by segments up to
/// `last_seg`, the lines that one segment fills, and the lines in all.
pub fn map_geometry(last_seg: u16, bytes_per_line: u16) -> (r: (u32, u32, u32))
    requires
        last_seg < 0xFFFF,
        bytes_per_line > 0,
    ensures
        r.0 == (last_seg + 1) * 0x10000 - 1,
        r.1 == 0x10000int / (bytes_per_line as int),
        r.2 == (last_seg + 1) * 0x10000 / (bytes_per_line as int),
{
    assert(SEGMENT_BYTES as u32 == 8192);
    assert((last_seg as u32 + 1) * 8192 * 8 <= 0xFFFF0000) by (nonlinear_arith)
        requires
            last_seg < 0xFFFF,
    ;
    let max_addr: u32 = (last_seg as u32 + 1) * (SEGMENT_BYTES as u32) * 8 - 1;
    let lines_per_seg = IHEX_SEGMENT_BYTES / bytes_per_line as u32;
    let lines_total = (max_addr + 1) / bytes_per_line as u32;
    (max_addr, lines_per_seg, lines_total)
}

/// The characters that draw one line of spans.
pub fn line_glyphs(line: &Vec<bool>) -> (r: Vec<char>)
    ensures
        r@.len() == line@.len(),
        forall|i: int|
            0 <= i < line@.len() ==> #[trigger] r@[i] == if line@[i] {
                CHR_DATA
            } else {
                CHR_BLANK
            },
{
    let mut glyphs: Vec<char> = Vec::new();
    let mut i: usize = 0;
    while i < line.len()
        invariant
            i <= line@.len(),
            glyphs@.len() == i,
            forall|j: int|
                0 <= j < i ==> #[trigger] glyphs@[j] == if line@[j] {
                    CHR_DATA
                } else {
                    CHR_BLANK
                },
        decreases line@.len() - i,
    {
        glyphs.push(if line[i] {
            CHR_DATA
        } else {
            CHR_BLANK
        });
        i = i + 1;
    }
    glyphs
}

} // verus!
