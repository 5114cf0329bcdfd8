//! Apple StyleWriter printing: raster encoding and the decisions of a print
//! session.

use crate::wire::{
    be32, law_bytes_count_by_their_place, le16, put_be32, put_bytes, put_le16, repeat, slice_bytes, str_eq, utf8,
};
use crate::text::{lossy_text, lossy_utf8, trim_text, trimmed};
use vstd::prelude::*;

verus! {

/// Native printable width of the Color StyleWriter 2200, in pixels.
pub const SW2200_PRINT_WIDTH: usize = 2919;

/// Bytes in one printable row: `SW2200_PRINT_WIDTH` bits, rounded up.
pub const SW2200_PRINT_ROWBYTES: usize = 365;

/// A band's compressed data stays strictly below this many bytes; the printer
/// stalls on larger blocks.
pub const MAX_BATCH_BYTES: usize = 0x2000;

/// A band covers at most this many scanlines.
pub const MAX_BAND_ROWS: usize = 400;

/// Longest black or white run that one code byte holds.
pub const MAX_RUN: u8 = 0x3E;

/// Longest literal block that one length byte announces.
pub const MAX_BLOCK: u8 = 0x3E;

/// Shortest run that is worth a code byte of its own.
pub const RUN_THRESH: u8 = 0x01;

/// Eight white pixels.
pub const DATA_WHITE: u8 = 0x00;

/// Eight black pixels.
pub const DATA_BLACK: u8 = 0xFF;

/// Code of a white run; the low six bits hold its length.
pub const MASK_RUNWHT: u8 = 0x80;

/// Code of a black run; the low six bits hold its length.
pub const MASK_RUNBLK: u8 = 0xC0;

/// Stateless encoder of StyleWriter raster blocks.
pub struct StyleWriterEncoder;

/// One raster band covering scanlines `top..=bottom`.
#[derive(Debug, Clone)]
pub struct RasterBatch {
    pub top: u16,
    pub bottom: u16,
    /// Concatenated run-length-encoded plane data for every row in the band.
    pub data: Vec<u8>,
}

// ── Scanline code ────────────────────────────────────────────────────────────

/// Whether a byte is all white or all black, and so can open a run.
pub open spec fn is_solid(b: u8) -> bool {
    b == DATA_WHITE || b == DATA_BLACK
}

/// End of the literal block that starts at `s`, looking on from `i`: the first
/// solid byte, the end of the line, or a full block.
pub open spec fn literal_end(src: Seq<u8>, s: int, i: int) -> int
    decreases src.len() - i,
{
    if i >= src.len() || is_solid(src[i]) || i - s >= MAX_BLOCK {
        i
    } else {
        literal_end(src, s, i + 1)
    }
}

/// End of the run that starts at `b`, looking on from `i`: the first byte that
/// differs, the end of the line, or a full run.
pub open spec fn run_end(src: Seq<u8>, b: int, i: int) -> int
    decreases src.len() - i,
{
    if i >= src.len() || src[i] != src[b] || i - b >= MAX_RUN {
        i
    } else {
        run_end(src, b, i + 1)
    }
}

/// White runs that cover `n` bytes, as few as possible, longest first.
pub open spec fn white_fill(n: int) -> Seq<u8>
    decreases n,
{
    if n <= 0 {
        Seq::<u8>::empty()
    } else if n > MAX_RUN {
        seq![(MASK_RUNWHT + MAX_RUN) as u8] + white_fill(n - MAX_RUN)
    } else {
        seq![(MASK_RUNWHT + n) as u8]
    }
}

/// A literal block: its length and its bytes; nothing where it is empty.
pub open spec fn literal_code(src: Seq<u8>, s: int, b: int) -> Seq<u8> {
    if b > s {
        seq![(b - s) as u8] + src.subrange(s, b)
    } else {
        Seq::<u8>::empty()
    }
}

proof fn lemma_literal_end_bounds(src: Seq<u8>, s: int, i: int)
    requires
        0 <= s <= i <= src.len(),
        i - s <= MAX_BLOCK,
    ensures
        i <= literal_end(src, s, i) <= src.len(),
        literal_end(src, s, i) - s <= MAX_BLOCK,
        literal_end(src, s, i) == s ==> s >= src.len() || is_solid(src[s]),
    decreases src.len() - i,
{
    if !(i >= src.len() || is_solid(src[i]) || i - s >= MAX_BLOCK) {
        lemma_literal_end_bounds(src, s, i + 1);
    }
}

proof fn lemma_run_end_bounds(src: Seq<u8>, b: int, i: int)
    requires
        0 <= b <= i <= src.len(),
        i - b <= MAX_RUN,
    ensures
        i <= run_end(src, b, i) <= src.len(),
        run_end(src, b, i) - b <= MAX_RUN,
        b < src.len() ==> run_end(src, b, b) > b,
    decreases src.len() - i,
{
    if !(i >= src.len() || src[i] != src[b] || i - b >= MAX_RUN) {
        lemma_run_end_bounds(src, b, i + 1);
    }
    if b < src.len() {
        lemma_run_end_at_least(src, b, b + 1);
    }
}

proof fn lemma_run_end_at_least(src: Seq<u8>, b: int, i: int)
    ensures
        run_end(src, b, i) >= i,
    decreases src.len() - i,
{
    if !(i >= src.len() || src[i] != src[b] || i - b >= MAX_RUN) {
        lemma_run_end_at_least(src, b, i + 1);
    }
}

proof fn lemma_run_end_same(src: Seq<u8>, b: int, i: int, k: int)
    requires
        0 <= b <= i <= src.len(),
        forall|j: int| b <= j < i ==> src[j] == src[b],
        b <= k < run_end(src, b, i),
    ensures
        src[k] == src[b],
    decreases src.len() - i,
{
    if !(i >= src.len() || src[i] != src[b] || i - b >= MAX_RUN) {
        lemma_run_end_same(src, b, i + 1, k);
    }
}

/// The code of a line from byte `s` on, padded with white to `width` bytes.
///
/// Solid bytes are coded as runs and everything between them as literal
/// blocks. A white run that reaches the end of the line is left to the
/// padding.
pub open spec fn line_code(src: Seq<u8>, width: int, s: int) -> Seq<u8>
    decreases src.len() - s,
    via line_code_terminates
{
    if s < 0 || s >= src.len() {
        white_fill(width - s)
    } else {
        let b = literal_end(src, s, s);
        if b < src.len() && is_solid(src[b]) {
            let e = run_end(src, b, b);
            if src[b] == DATA_BLACK {
                literal_code(src, s, b) + seq![(MASK_RUNBLK + (e - b)) as u8] + line_code(src, width, e)
            } else if e < src.len() {
                literal_code(src, s, b) + seq![(MASK_RUNWHT + (e - b)) as u8] + line_code(src, width, e)
            } else {
                literal_code(src, s, b) + white_fill(width - b)
            }
        } else {
            literal_code(src, s, b) + line_code(src, width, b)
        }
    }
}

#[via_fn]
proof fn line_code_terminates(src: Seq<u8>, width: int, s: int) {
    if 0 <= s < src.len() {
        let b = literal_end(src, s, s);
        lemma_literal_end_bounds(src, s, s);
        lemma_run_end_bounds(src, b, b);
    }
}

/// Whether every byte of a line is white.
pub open spec fn is_blank(src: Seq<u8>) -> bool {
    forall|i: int| 0 <= i < src.len() ==> src[i] == DATA_WHITE
}

/// The code of one scanline: a lone white code with length zero for a blank
/// line where that shortcut is allowed, else the line's blocks and runs.
pub open spec fn scanline_code(src: Seq<u8>, width: int, allow_blank_shortcut: bool) -> Seq<u8> {
    if allow_blank_shortcut && is_blank(src) {
        seq![MASK_RUNWHT]
    } else {
        line_code(src, width, 0)
    }
}

impl StyleWriterEncoder {
    /// The bounding-box header that precedes each raster block: the tag `c`
    /// for colour or `R` for monochrome, then left, top, right and bottom,
    /// little-endian.
    pub fn encode_rect(top: u16, left: u16, bottom: u16, right: u16, is_color: bool) -> (buf: Vec<u8>)
        ensures
            buf@ == seq![if is_color { 0x63u8 } else { 0x52u8 }] + le16(left) + le16(top) + le16(right)
                + le16(bottom),
    {
        let mut buf: Vec<u8> = Vec::new();
        if is_color {
            buf.push(0x63);
        } else {
            buf.push(0x52);
        }
        put_le16(&mut buf, left);
        put_le16(&mut buf, top);
        put_le16(&mut buf, right);
        put_le16(&mut buf, bottom);
        assert(buf@ =~= seq![if is_color { 0x63u8 } else { 0x52u8 }] + le16(left) + le16(top) + le16(right)
            + le16(bottom));
        buf
    }

    /// Frames an encoded block: the tag `G`, the block's length as a
    /// little-endian 16-bit number, the block and a null terminator.
    pub fn wrap_raster_chunk(encoded_data: &[u8]) -> (buf: Vec<u8>)
        requires
            encoded_data@.len() <= u16::MAX,
        ensures
            buf@ == seq![0x47u8] + le16(encoded_data@.len() as u16) + encoded_data@ + seq![0u8],
    {
        let size: u16 = encoded_data.len() as u16;
        let mut buf: Vec<u8> = Vec::new();
        buf.push(0x47);
        put_le16(&mut buf, size);
        put_bytes(&mut buf, encoded_data);
        buf.push(0x00);
        assert(buf@ =~= seq![0x47u8] + le16(encoded_data@.len() as u16) + encoded_data@ + seq![0u8]);
        buf
    }

    /// Encodes one raw bitmap scanline, padding it with white to
    /// `print_width_bytes`.
    ///
    /// `allow_blank_shortcut` permits the single-byte code of an entirely
    /// blank line.
    pub fn encode_scanline(src: &[u8], print_width_bytes: usize, allow_blank_shortcut: bool) -> (dst: Vec<u8>)
        ensures
            dst@ == scanline_code(src@, print_width_bytes as int, allow_blank_shortcut),
    {
        let mut dst: Vec<u8> = Vec::new();
        if allow_blank_shortcut && all_white(src) {
            dst.push(MASK_RUNWHT);
            assert(dst@ =~= seq![MASK_RUNWHT]);
            return dst;
        }
        let mut s: usize = 0;
        let mut fill_from: usize = 0;
        let mut done = src.len() == 0;
        let ghost whole = line_code(src@, print_width_bytes as int, 0);
        while !done
            invariant
                s <= src@.len(),
                !done ==> s < src@.len(),
                whole == line_code(src@, print_width_bytes as int, 0),
                !done ==> whole == dst@ + line_code(src@, print_width_bytes as int, s as int),
                done ==> whole == dst@ + white_fill(print_width_bytes - fill_from),
            decreases (if done { 0int } else { 1 + src@.len() - s }),
        {
            let ghost before = dst@;
            proof {
                lemma_literal_end_bounds(src@, s as int, s as int);
            }
            let mut b: usize = s;
            while b < src.len() && src[b] != DATA_WHITE && src[b] != DATA_BLACK && b - s < MAX_BLOCK as usize
                invariant
                    s <= b <= src@.len(),
                    literal_end(src@, s as int, b as int) == literal_end(src@, s as int, s as int),
                decreases src@.len() - b,
            {
                b += 1;
            }
            if b != s {
                dst.push((b - s) as u8);
                let block = slice_bytes(src, s, b);
                put_bytes(&mut dst, &block);
            }
            assert(dst@ =~= before + literal_code(src@, s as int, b as int));
            let ghost mid = dst@;
            if b < src.len() && (src[b] == DATA_WHITE || src[b] == DATA_BLACK) {
                proof {
                    lemma_run_end_bounds(src@, b as int, b as int);
                }
                let mut e: usize = b;
                while e < src.len() && src[e] == src[b] && e - b < MAX_RUN as usize
                    invariant
                        b <= e <= src@.len(),
                        b < src@.len(),
                        run_end(src@, b as int, e as int) == run_end(src@, b as int, b as int),
                    decreases src@.len() - e,
                {
                    e += 1;
                }
                if src[b] == DATA_BLACK {
                    dst.push(MASK_RUNBLK + (e - b) as u8);
                    assert(dst@ =~= mid + seq![(MASK_RUNBLK + (e - b)) as u8]);
                    assert(whole =~= dst@ + line_code(src@, print_width_bytes as int, e as int));
                    s = e;
                    fill_from = e;
                    done = s >= src.len();
                } else if e < src.len() {
                    dst.push(MASK_RUNWHT + (e - b) as u8);
                    assert(dst@ =~= mid + seq![(MASK_RUNWHT + (e - b)) as u8]);
                    assert(whole =~= dst@ + line_code(src@, print_width_bytes as int, e as int));
                    s = e;
                } else {
                    assert(whole =~= dst@ + white_fill(print_width_bytes - b));
                    fill_from = b;
                    done = true;
                }
            } else {
                assert(whole =~= dst@ + line_code(src@, print_width_bytes as int, b as int));
                s = b;
                fill_from = b;
                done = s >= src.len();
            }
        }
        push_white_fill(&mut dst, fill_from, print_width_bytes);
        dst
    }
}

/// Whether every byte of `src` is white.
fn all_white(src: &[u8]) -> (r: bool)
    ensures
        r == is_blank(src@),
{
    let mut i: usize = 0;
    while i < src.len()
        invariant
            i <= src@.len(),
            forall|k: int| 0 <= k < i ==> src@[k] == DATA_WHITE,
        decreases src@.len() - i,
    {
        if src[i] != DATA_WHITE {
            return false;
        }
        i += 1;
    }
    true
}

/// Appends white runs for the bytes from `from` up to `width`.
fn push_white_fill(dst: &mut Vec<u8>, from: usize, width: usize)
    ensures
        final(dst)@ == old(dst)@ + white_fill(width - from),
{
    let mut s: usize = from;
    let ghost all = old(dst)@ + white_fill(width - from);
    assert(dst@ + white_fill(width - s) =~= all);
    while s < width
        invariant
            all == dst@ + white_fill(width - s),
            s >= width ==> white_fill(width - s) == Seq::<u8>::empty(),
        decreases width - s,
    {
        let ghost before = dst@;
        let left: usize = width - s;
        let run_len: usize = if left > MAX_RUN as usize { MAX_RUN as usize } else { left };
        dst.push(MASK_RUNWHT + run_len as u8);
        s += run_len;
        assert(dst@ =~= before + seq![(MASK_RUNWHT + run_len) as u8]);
        assert(all =~= dst@ + white_fill(width - s));
    }
    assert(all =~= dst@);
}

// ── Rows and bands ───────────────────────────────────────────────────────────

/// The planes of a row as byte sequences.
pub open spec fn planes_of(planes: Seq<Vec<u8>>) -> Seq<Seq<u8>> {
    Seq::new(planes.len(), |i: int| planes[i]@)
}

/// The rows of a page as byte sequences.
pub open spec fn rows_of(rows: Seq<Vec<Vec<u8>>>) -> Seq<Seq<Seq<u8>>> {
    Seq::new(rows.len(), |i: int| planes_of(rows[i]@))
}

/// Bytewise exclusive or, as long as the shorter of the two.
pub open spec fn xor_bytes(a: Seq<u8>, b: Seq<u8>) -> Seq<u8> {
    Seq::new(if a.len() <= b.len() { a.len() } else { b.len() }, |i: int| a[i] ^ b[i])
}

/// The code of plane `i` of a row: the plane itself, or its difference from
/// the same plane of the row before. The blank shortcut is not used on the
/// fourth plane of a colour row.
pub open spec fn plane_code(planes: Seq<Seq<u8>>, last: Seq<Seq<u8>>, use_delta: bool, mono: bool, i: int) -> Seq<u8> {
    scanline_code(
        if use_delta {
            xor_bytes(planes[i], last[i])
        } else {
            planes[i]
        },
        SW2200_PRINT_ROWBYTES as int,
        mono || i != 3,
    )
}

/// The codes of the first `n` planes of a row.
pub open spec fn row_code(planes: Seq<Seq<u8>>, last: Seq<Seq<u8>>, use_delta: bool, mono: bool, n: nat) -> Seq<u8>
    decreases n,
{
    if n == 0 {
        Seq::<u8>::empty()
    } else {
        row_code(planes, last, use_delta, mono, (n - 1) as nat) + plane_code(planes, last, use_delta, mono, n - 1)
    }
}

/// The code of row `i` of a page on its own.
pub open spec fn absolute_row(rows: Seq<Seq<Seq<u8>>>, mono: bool, i: int) -> Seq<u8> {
    row_code(rows[i], Seq::empty(), false, mono, rows[i].len())
}

/// The code of row `i` of a page as its difference from the row before.
pub open spec fn delta_row(rows: Seq<Seq<Seq<u8>>>, mono: bool, i: int) -> Seq<u8> {
    row_code(rows[i], rows[i - 1], true, mono, rows[i].len())
}

/// The code of the band of rows `a..=b`: its first row on its own, each other
/// row as a difference.
pub open spec fn band_code(rows: Seq<Seq<Seq<u8>>>, mono: bool, a: int, b: int) -> Seq<u8>
    decreases b - a,
{
    if b <= a {
        absolute_row(rows, mono, a)
    } else {
        band_code(rows, mono, a, b - 1) + delta_row(rows, mono, b)
    }
}

/// Whether the rows `a..=b` fit in one band.
pub open spec fn band_fits(rows: Seq<Seq<Seq<u8>>>, mono: bool, a: int, b: int) -> bool {
    band_code(rows, mono, a, b).len() < MAX_BATCH_BYTES && b - a + 1 <= MAX_BAND_ROWS
}

/// The last row of the band that starts at `a` and holds the rows up to `b`:
/// rows join it as long as it fits.
pub open spec fn band_end(rows: Seq<Seq<Seq<u8>>>, mono: bool, a: int, b: int) -> int
    decreases rows.len() - b,
{
    if b + 1 < rows.len() && band_fits(rows, mono, a, b + 1) {
        band_end(rows, mono, a, b + 1)
    } else {
        b
    }
}

/// What a raster band holds.
pub struct Band {
    pub top: u16,
    pub bottom: u16,
    pub data: Seq<u8>,
}

/// The bands of a page from row `a` on, each as tall as it can be.
pub open spec fn bands_from(rows: Seq<Seq<Seq<u8>>>, mono: bool, a: int) -> Seq<Band>
    decreases rows.len() - a,
    via bands_from_terminates
{
    if a >= rows.len() {
        Seq::<Band>::empty()
    } else {
        let e = band_end(rows, mono, a, a);
        seq![(Band { top: a as u16, bottom: e as u16, data: band_code(rows, mono, a, e) })] + bands_from(
            rows,
            mono,
            e + 1,
        )
    }
}

#[via_fn]
proof fn bands_from_terminates(rows: Seq<Seq<Seq<u8>>>, mono: bool, a: int) {
    lemma_band_end_bounds(rows, mono, a, a);
}

proof fn lemma_band_end_bounds(rows: Seq<Seq<Seq<u8>>>, mono: bool, a: int, b: int)
    ensures
        band_end(rows, mono, a, b) >= b,
        b < rows.len() ==> band_end(rows, mono, a, b) < rows.len(),
        band_end(rows, mono, a, b) > b ==> band_fits(rows, mono, a, band_end(rows, mono, a, b)),
    decreases rows.len() - b,
{
    if b + 1 < rows.len() && band_fits(rows, mono, a, b + 1) {
        lemma_band_end_bounds(rows, mono, a, b + 1);
    }
}

/// The bands of a batch list.
pub open spec fn bands_of(batches: Seq<RasterBatch>) -> Seq<Band> {
    Seq::new(
        batches.len(),
        |i: int| (Band { top: batches[i].top, bottom: batches[i].bottom, data: batches[i].data@ }),
    )
}

/// Whether a page can be encoded: the first row has planes, and no row has
/// more planes than the row above it.
pub open spec fn page_ok(rows: Seq<Seq<Seq<u8>>>) -> bool {
    &&& rows.len() > 0 ==> rows[0].len() > 0
    &&& forall|i: int, j: int|
        #![trigger rows[i], rows[j]]
        0 <= i && j == i + 1 && j < rows.len() ==> rows[j].len() <= rows[i].len()
}

/// Encodes the planes of one row, one after the other. With `use_delta` each
/// plane is first xored with the same plane of the row before.
pub fn encode_row(planes: &[Vec<u8>], last: &[Vec<u8>], use_delta: bool, mono: bool) -> (out: Vec<u8>)
    requires
        use_delta ==> planes@.len() <= last@.len(),
    ensures
        out@ == row_code(planes_of(planes@), planes_of(last@), use_delta, mono, planes@.len()),
{
    let mut out: Vec<u8> = Vec::new();
    let mut i: usize = 0;
    while i < planes.len()
        invariant
            i <= planes@.len(),
            use_delta ==> planes@.len() <= last@.len(),
            out@ == row_code(planes_of(planes@), planes_of(last@), use_delta, mono, i as nat),
        decreases planes@.len() - i,
    {
        let allow_shortcut = mono || i != 3;
        if use_delta {
            let delta = xor_planes(&planes[i], &last[i]);
            let enc = StyleWriterEncoder::encode_scanline(&delta, SW2200_PRINT_ROWBYTES, allow_shortcut);
            put_bytes(&mut out, &enc);
        } else {
            let enc = StyleWriterEncoder::encode_scanline(&planes[i], SW2200_PRINT_ROWBYTES, allow_shortcut);
            put_bytes(&mut out, &enc);
        }
        i += 1;
    }
    out
}

/// Bytewise exclusive or of two planes.
fn xor_planes(a: &Vec<u8>, b: &Vec<u8>) -> (r: Vec<u8>)
    ensures
        r@ == xor_bytes(a@, b@),
{
    let mut r: Vec<u8> = Vec::new();
    let mut i: usize = 0;
    while i < a.len() && i < b.len()
        invariant
            i <= a@.len(),
            i <= b@.len(),
            r@ == xor_bytes(a@, b@).subrange(0, i as int),
        decreases a@.len() - i,
    {
        r.push(a[i] ^ b[i]);
        i += 1;
        assert(r@ =~= xor_bytes(a@, b@).subrange(0, i as int));
    }
    assert(r@ =~= xor_bytes(a@, b@));
    r
}

proof fn lemma_row_code_ignores_last(planes: Seq<Seq<u8>>, l1: Seq<Seq<u8>>, l2: Seq<Seq<u8>>, mono: bool, n: nat)
    ensures
        row_code(planes, l1, false, mono, n) == row_code(planes, l2, false, mono, n),
    decreases n,
{
    if n > 0 {
        lemma_row_code_ignores_last(planes, l1, l2, mono, (n - 1) as nat);
    }
}

/// Encodes a whole page of raw planar scanlines into raster bands.
///
/// `rows` holds one entry per scanline: four planes for colour, one for
/// monochrome. The first row of every band is coded on its own and the others
/// as differences; a band takes rows as long as it stays below
/// [`MAX_BATCH_BYTES`] and within [`MAX_BAND_ROWS`].
pub fn encode_page_batches(rows: &[Vec<Vec<u8>>], mono: bool) -> (batches: Vec<RasterBatch>)
    requires
        page_ok(rows_of(rows@)),
    ensures
        bands_of(batches@) == bands_from(rows_of(rows@), mono, 0),
{
    let mut batches: Vec<RasterBatch> = Vec::new();
    let ghost page = rows_of(rows@);
    if rows.len() == 0 {
        assert(bands_of(batches@) =~= bands_from(page, mono, 0));
        return batches;
    }
    let mut start: usize = 0;
    let mut i: usize = 1;
    let mut data = encode_row(&rows[0], &rows[0], false, mono);
    proof {
        assert(page[0] == planes_of(rows@[0]@));
        lemma_row_code_ignores_last(page[0], page[0], Seq::empty(), mono, page[0].len());
        assert(bands_of(batches@) + bands_from(page, mono, 0) =~= bands_from(page, mono, 0));
    }
    while i < rows.len()
        invariant
            page == rows_of(rows@),
            page_ok(page),
            start < i <= rows@.len(),
            data@ == band_code(page, mono, start as int, i - 1),
            band_end(page, mono, start as int, start as int) == band_end(page, mono, start as int, i - 1),
            bands_from(page, mono, 0) == bands_of(batches@) + bands_from(page, mono, start as int),
        decreases rows@.len() - i,
    {
        proof {
            assert(page[i as int] == planes_of(rows@[i as int]@));
            assert(page[i - 1] == planes_of(rows@[i - 1]@));
            assert(page[i as int].len() <= page[i - 1].len());
        }
        let row_enc = encode_row(&rows[i], &rows[i - 1], true, mono);
        assert(row_enc@ == delta_row(page, mono, i as int));
        assert(band_code(page, mono, start as int, i as int) == data@ + row_enc@);
        let over_compressed = data.len() >= MAX_BATCH_BYTES || row_enc.len() >= MAX_BATCH_BYTES - data.len();
        let over_rows = i - start >= MAX_BAND_ROWS;
        if over_compressed || over_rows {
            let ghost done = batches@;
            let batch = RasterBatch { top: start as u16, bottom: (i - 1) as u16, data };
            let ghost band = Band { top: start as u16, bottom: (i - 1) as u16, data: batch.data@ };
            batches.push(batch);
            proof {
                assert(band_end(page, mono, start as int, i - 1) == i - 1);
                assert(bands_of(batches@) =~= bands_of(done).push(band));
                assert(bands_from(page, mono, start as int) == seq![band] + bands_from(page, mono, i as int));
                assert(bands_from(page, mono, 0) =~= bands_of(batches@) + bands_from(page, mono, i as int));
            }
            start = i;
            data = encode_row(&rows[i], &rows[i - 1], false, mono);
            proof {
                lemma_row_code_ignores_last(page[i as int], page[i - 1], Seq::empty(), mono, page[i as int].len());
            }
        } else {
            put_bytes(&mut data, &row_enc);
        }
        i += 1;
    }
    let ghost done = batches@;
    let batch = RasterBatch { top: start as u16, bottom: (i - 1) as u16, data };
    let ghost band = Band { top: start as u16, bottom: (i - 1) as u16, data: batch.data@ };
    batches.push(batch);
    proof {
        assert(bands_of(batches@) =~= bands_of(done).push(band));
        assert(bands_from(page, mono, i as int) == Seq::<Band>::empty());
        assert(bands_from(page, mono, start as int) == seq![band] + bands_from(page, mono, i as int));
        assert(bands_from(page, mono, 0) =~= bands_of(batches@));
    }
    batches
}

// ── Chunky pixels ────────────────────────────────────────────────────────────

/// Byte `i` of a line, zero past its end.
pub open spec fn byte_or_zero(line: Seq<u8>, i: int) -> u8 {
    if 0 <= i < line.len() {
        line[i]
    } else {
        0
    }
}

/// The two pixels of a chunky byte in the plane whose nibble bit weighs `w`,
/// the pixel of the high nibble first.
pub open spec fn pixel_pair(b: u8, w: u8) -> int {
    ((b / 16) / w) % 2 * 2 + ((b % 16) / w) % 2
}

/// The planar byte of the eight pixels that start at chunky byte `4 * j`.
pub open spec fn planar_byte(chunky: Seq<u8>, w: u8, j: int) -> u8 {
    (pixel_pair(byte_or_zero(chunky, 4 * j), w) * 64 + pixel_pair(byte_or_zero(chunky, 4 * j + 1), w) * 16
        + pixel_pair(byte_or_zero(chunky, 4 * j + 2), w) * 4 + pixel_pair(byte_or_zero(chunky, 4 * j + 3), w)) as u8
}

/// One plane of a chunky line: one byte for every four chunky bytes, the last
/// of them possibly incomplete.
pub open spec fn planar_line(chunky: Seq<u8>, w: u8) -> Seq<u8> {
    Seq::new(((chunky.len() + 3) / 4) as nat, |j: int| planar_byte(chunky, w, j))
}

fn pixel_pair_of(b: u8, w: u8) -> (r: u8)
    requires
        w > 0,
    ensures
        r == pixel_pair(b, w),
        r < 4,
{
    let hi: u8 = ((b / 16) / w) % 2;
    let lo: u8 = ((b % 16) / w) % 2;
    hi * 2 + lo
}

fn byte_at(line: &[u8], base: usize, i: usize) -> (b: u8)
    requires
        i < 4,
        base < line@.len(),
    ensures
        b == byte_or_zero(line@, base + i),
{
    if i < line.len() - base {
        line[base + i]
    } else {
        0
    }
}

fn extract_plane(chunky: &[u8], w: u8) -> (plane: Vec<u8>)
    requires
        w > 0,
    ensures
        plane@ == planar_line(chunky@, w),
{
    let mut plane: Vec<u8> = Vec::new();
    let mut at: usize = 0;
    let mut more = chunky.len() > 0;
    assert(plane@ =~= planar_line(chunky@, w).subrange(0, 0));
    while more
        invariant
            w > 0,
            more ==> at == 4 * plane@.len() && at < chunky@.len(),
            plane@.len() <= planar_line(chunky@, w).len(),
            plane@ == planar_line(chunky@, w).subrange(0, plane@.len() as int),
            !more ==> plane@.len() == planar_line(chunky@, w).len(),
        decreases (if more { chunky@.len() - at + 1 } else { 0 }),
    {
        let ghost j = plane@.len() as int;
        let p0: u8 = pixel_pair_of(byte_at(chunky, at, 0), w);
        let p1: u8 = pixel_pair_of(byte_at(chunky, at, 1), w);
        let p2: u8 = pixel_pair_of(byte_at(chunky, at, 2), w);
        let p3: u8 = pixel_pair_of(byte_at(chunky, at, 3), w);
        plane.push(p0 * 64 + p1 * 16 + p2 * 4 + p3);
        assert(plane@ =~= planar_line(chunky@, w).subrange(0, j + 1));
        if chunky.len() - at > 4 {
            at += 4;
        } else {
            more = false;
        }
    }
    assert(plane@ =~= planar_line(chunky@, w));
    plane
}

/// Unpacks one chunky scanline (four bits per pixel: 8 cyan, 4 magenta,
/// 2 yellow, 1 black) into its four planes. `planar_input_len` is the expected
/// length of a plane and has no influence on the result.
pub fn chunky_to_planes(chunky: &[u8], planar_input_len: usize) -> (planes: [Vec<u8>; 4])
    ensures
        planes@[0]@ == planar_line(chunky@, 8),
        planes@[1]@ == planar_line(chunky@, 4),
        planes@[2]@ == planar_line(chunky@, 2),
        planes@[3]@ == planar_line(chunky@, 1),
{
    [extract_plane(chunky, 8), extract_plane(chunky, 4), extract_plane(chunky, 2), extract_plane(chunky, 1)]
}

/// Unpacks the black bit of one chunky scanline into a single plane.
/// `planar_input_len` is the expected length of the plane and has no influence
/// on the result.
pub fn chunky_to_mono_plane(chunky: &[u8], planar_input_len: usize) -> (plane: Vec<u8>)
    ensures
        plane@ == planar_line(chunky@, 1),
{
    extract_plane(chunky, 1)
}

// ── What the printer makes of the codes ──────────────────────────────────────

/// The line of `width` bytes that the printer reads from the front of `enc`,
/// and what is left of `enc`. A white code with length zero fills the rest of
/// the line.
pub open spec fn decode_line(enc: Seq<u8>, width: int) -> (Seq<u8>, Seq<u8>)
    decreases enc.len(),
{
    if width <= 0 || enc.len() == 0 {
        (Seq::<u8>::empty(), enc)
    } else {
        let t = enc[0];
        if t == MASK_RUNWHT {
            (repeat(DATA_WHITE, width as nat), enc.skip(1))
        } else if t < MASK_RUNWHT {
            if enc.len() < 1 + t {
                (Seq::<u8>::empty(), enc)
            } else {
                let (line, rest) = decode_line(enc.skip(1 + t as int), width - t);
                (enc.subrange(1, 1 + t) + line, rest)
            }
        } else if t < MASK_RUNBLK {
            let n = t - MASK_RUNWHT;
            let (line, rest) = decode_line(enc.skip(1), width - n);
            (repeat(DATA_WHITE, n as nat) + line, rest)
        } else {
            let n = t - MASK_RUNBLK;
            let (line, rest) = decode_line(enc.skip(1), width - n);
            (repeat(DATA_BLACK, n as nat) + line, rest)
        }
    }
}

/// A plane padded with white to the printable width.
pub open spec fn padded(plane: Seq<u8>, width: int) -> Seq<u8> {
    plane + repeat(DATA_WHITE, (width - plane.len()) as nat)
}

proof fn lemma_decode_white_fill(n: int, tail: Seq<u8>)
    requires
        n >= 0,
    ensures
        decode_line(white_fill(n) + tail, n) == (repeat(DATA_WHITE, n as nat), tail),
    decreases n,
{
    let enc = white_fill(n) + tail;
    if n == 0 {
        assert(enc =~= tail);
        assert(repeat(DATA_WHITE, 0) =~= Seq::<u8>::empty());
    } else if n > MAX_RUN {
        lemma_decode_white_fill(n - MAX_RUN, tail);
        assert(enc.skip(1) =~= white_fill(n - MAX_RUN) + tail);
        assert(repeat(DATA_WHITE, MAX_RUN as nat) + repeat(DATA_WHITE, (n - MAX_RUN) as nat) =~= repeat(
            DATA_WHITE,
            n as nat,
        ));
    } else {
        assert(enc[0] == MASK_RUNWHT + n);
        assert(enc.skip(1) =~= tail);
        assert(decode_line(tail, 0) == (Seq::<u8>::empty(), tail));
        assert(repeat(DATA_WHITE, n as nat) + Seq::<u8>::empty() =~= repeat(DATA_WHITE, n as nat));
    }
}

proof fn lemma_decode_literal(src: Seq<u8>, s: int, b: int, more: Seq<u8>, width: int)
    requires
        0 <= s <= b <= src.len(),
        b - s <= MAX_BLOCK,
        b - s <= width,
    ensures
        decode_line(literal_code(src, s, b) + more, width) == (
            src.subrange(s, b) + decode_line(more, width - (b - s)).0,
            decode_line(more, width - (b - s)).1,
        ),
{
    let enc = literal_code(src, s, b) + more;
    if b > s {
        assert(enc[0] == b - s);
        assert(enc.skip(1 + (b - s)) =~= more);
        assert(enc.subrange(1, 1 + (b - s)) =~= src.subrange(s, b));
    } else {
        assert(enc =~= more);
        assert(src.subrange(s, b) + decode_line(more, width).0 =~= decode_line(more, width).0);
    }
}

#[verifier::rlimit(50)]
proof fn lemma_decode_line_code(src: Seq<u8>, width: int, s: int, tail: Seq<u8>)
    requires
        0 <= s <= src.len() <= width,
    ensures
        decode_line(line_code(src, width, s) + tail, width - s) == (
            padded(src, width).subrange(s, width),
            tail,
        ),
    decreases src.len() - s,
{
    let line = padded(src, width);
    if s >= src.len() {
        lemma_decode_white_fill(width - s, tail);
        assert(line.subrange(s, width) =~= repeat(DATA_WHITE, (width - s) as nat));
    } else {
        let b = literal_end(src, s, s);
        lemma_literal_end_bounds(src, s, s);
        if b < src.len() && is_solid(src[b]) {
            let e = run_end(src, b, b);
            lemma_run_end_bounds(src, b, b);
            assert forall|k: int| b <= k < e implies src[k] == src[b] by {
                lemma_run_end_same(src, b, b, k);
            }
            let run = repeat(src[b], (e - b) as nat);
            assert(run =~= src.subrange(b, e));
            if src[b] == DATA_BLACK || e < src.len() {
                let mask = if src[b] == DATA_BLACK { MASK_RUNBLK } else { MASK_RUNWHT };
                let rest = line_code(src, width, e) + tail;
                let more = seq![(mask + (e - b)) as u8] + rest;
                lemma_decode_line_code(src, width, e, tail);
                assert(more.skip(1) =~= rest);
                assert(decode_line(more, width - b) == (run + decode_line(rest, width - e).0, tail));
                lemma_decode_literal(src, s, b, more, width - s);
                assert(line_code(src, width, s) + tail =~= literal_code(src, s, b) + more);
                assert(src.subrange(s, b) + (run + line.subrange(e, width)) =~= line.subrange(s, width));
            } else {
                let more = white_fill(width - b) + tail;
                lemma_decode_white_fill(width - b, tail);
                lemma_decode_literal(src, s, b, more, width - s);
                assert(line_code(src, width, s) + tail =~= literal_code(src, s, b) + more);
                assert(src.subrange(s, b) + repeat(DATA_WHITE, (width - b) as nat) =~= line.subrange(s, width));
            }
        } else {
            let more = line_code(src, width, b) + tail;
            lemma_decode_line_code(src, width, b, tail);
            lemma_decode_literal(src, s, b, more, width - s);
            assert(line_code(src, width, s) + tail =~= literal_code(src, s, b) + more);
            assert(src.subrange(s, b) + line.subrange(b, width) =~= line.subrange(s, width));
        }
    }
}

/// The printer reads back from a scanline's code the scanline, padded with
/// white to the printable width, and goes on right behind the code.
pub proof fn law_scanline_reads_back(src: Seq<u8>, width: int, allow_blank_shortcut: bool, tail: Seq<u8>)
    requires
        src.len() <= width,
        0 < width,
    ensures
        decode_line(scanline_code(src, width, allow_blank_shortcut) + tail, width) == (padded(src, width), tail),
{
    if allow_blank_shortcut && is_blank(src) {
        let enc = seq![MASK_RUNWHT] + tail;
        assert(enc.skip(1) =~= tail);
        assert(padded(src, width) =~= repeat(DATA_WHITE, width as nat));
    } else {
        lemma_decode_line_code(src, width, 0, tail);
        assert(padded(src, width).subrange(0, width) =~= padded(src, width));
    }
}

/// The `n` planes that the printer reads from the front of `enc`, and what is
/// left of `enc`.
pub open spec fn decode_planes(enc: Seq<u8>, n: nat) -> (Seq<Seq<u8>>, Seq<u8>)
    decreases n,
{
    if n == 0 {
        (Seq::<Seq<u8>>::empty(), enc)
    } else {
        let (plane, rest) = decode_line(enc, SW2200_PRINT_ROWBYTES as int);
        let (planes, after) = decode_planes(rest, (n - 1) as nat);
        (seq![plane] + planes, after)
    }
}

/// Plane by plane exclusive or of two rows.
pub open spec fn xor_rows(a: Seq<Seq<u8>>, b: Seq<Seq<u8>>) -> Seq<Seq<u8>> {
    Seq::new(a.len(), |i: int| xor_bytes(a[i], b[i]))
}

/// The rows that the printer prints from a band's data: `count` rows of
/// `planes` planes each, every row xored with the one printed before it.
pub open spec fn printed_rows(enc: Seq<u8>, planes: nat, count: nat, before: Option<Seq<Seq<u8>>>) -> Seq<Seq<Seq<u8>>>
    decreases count,
{
    if count == 0 {
        Seq::<Seq<Seq<u8>>>::empty()
    } else {
        let (read, rest) = decode_planes(enc, planes);
        let row = match before {
            Some(b) => xor_rows(read, b),
            None => read,
        };
        seq![row] + printed_rows(rest, planes, (count - 1) as nat, Some(row))
    }
}

/// A page as the encoder documents it: every row has the same number of
/// planes, and all planes have the same length, at most the printable width.
pub open spec fn page_regular(rows: Seq<Seq<Seq<u8>>>, planes: nat, len: nat) -> bool {
    &&& 0 < planes
    &&& len <= SW2200_PRINT_ROWBYTES
    &&& forall|i: int| 0 <= i < rows.len() ==> (#[trigger] rows[i]).len() == planes
    &&& forall|i: int, p: int|
        #![trigger rows[i][p]]
        0 <= i < rows.len() && 0 <= p < planes ==> rows[i][p].len() == len
}

/// The rows `a..=b` of a page, padded with white to the printable width.
pub open spec fn padded_rows(rows: Seq<Seq<Seq<u8>>>, a: int, b: int) -> Seq<Seq<Seq<u8>>> {
    Seq::new((b - a + 1) as nat, |i: int| padded_row(rows[a + i]))
}

/// A row, padded with white to the printable width.
pub open spec fn padded_row(row: Seq<Seq<u8>>) -> Seq<Seq<u8>> {
    Seq::new(row.len(), |p: int| padded(row[p], SW2200_PRINT_ROWBYTES as int))
}

/// The planes of row `i` as they are coded from plane `p` on.
spec fn row_tail_code(planes: Seq<Seq<u8>>, last: Seq<Seq<u8>>, use_delta: bool, mono: bool, p: int) -> Seq<u8>
    decreases planes.len() - p,
{
    if p >= planes.len() {
        Seq::<u8>::empty()
    } else {
        plane_code(planes, last, use_delta, mono, p) + row_tail_code(planes, last, use_delta, mono, p + 1)
    }
}

proof fn lemma_row_code_splits(planes: Seq<Seq<u8>>, last: Seq<Seq<u8>>, use_delta: bool, mono: bool, n: nat)
    requires
        n <= planes.len(),
    ensures
        row_code(planes, last, use_delta, mono, planes.len()) == row_code(planes, last, use_delta, mono, n)
            + row_tail_code(planes, last, use_delta, mono, n as int),
    decreases planes.len() - n,
{
    if n < planes.len() {
        lemma_row_code_splits(planes, last, use_delta, mono, n + 1);
        assert(row_code(planes, last, use_delta, mono, n + 1) + row_tail_code(
            planes,
            last,
            use_delta,
            mono,
            (n + 1) as int,
        ) =~= row_code(planes, last, use_delta, mono, n) + row_tail_code(planes, last, use_delta, mono, n as int));
    } else {
        assert(row_code(planes, last, use_delta, mono, n) + Seq::<u8>::empty() =~= row_code(
            planes,
            last,
            use_delta,
            mono,
            n,
        ));
    }
}

/// The plane that is coded: the plane itself or its difference.
spec fn coded_plane(planes: Seq<Seq<u8>>, last: Seq<Seq<u8>>, use_delta: bool, p: int) -> Seq<u8> {
    if use_delta {
        xor_bytes(planes[p], last[p])
    } else {
        planes[p]
    }
}

proof fn lemma_decode_row_tail(planes: Seq<Seq<u8>>, last: Seq<Seq<u8>>, use_delta: bool, mono: bool, p: int, tail: Seq<u8>)
    requires
        0 <= p <= planes.len(),
        forall|q: int| 0 <= q < planes.len() ==> (#[trigger] planes[q]).len() <= SW2200_PRINT_ROWBYTES,
    ensures
        decode_planes(row_tail_code(planes, last, use_delta, mono, p) + tail, (planes.len() - p) as nat) == (
            Seq::new(
                (planes.len() - p) as nat,
                |k: int| padded(coded_plane(planes, last, use_delta, p + k), SW2200_PRINT_ROWBYTES as int),
            ),
            tail,
        ),
    decreases planes.len() - p,
{
    let width = SW2200_PRINT_ROWBYTES as int;
    let want = Seq::new(
        (planes.len() - p) as nat,
        |k: int| padded(coded_plane(planes, last, use_delta, p + k), width),
    );
    let enc = row_tail_code(planes, last, use_delta, mono, p) + tail;
    if p >= planes.len() {
        assert(enc =~= tail);
        assert(want =~= Seq::<Seq<u8>>::empty());
    } else {
        let more = row_tail_code(planes, last, use_delta, mono, p + 1) + tail;
        lemma_decode_row_tail(planes, last, use_delta, mono, p + 1, tail);
        let coded = coded_plane(planes, last, use_delta, p);
        assert(planes[p].len() <= width);
        law_scanline_reads_back(coded, width, mono || p != 3, more);
        assert(enc =~= plane_code(planes, last, use_delta, mono, p) + more);
        assert((planes.len() - p - 1) as nat == (planes.len() - (p + 1)) as nat);
        let after = Seq::new(
            (planes.len() - (p + 1)) as nat,
            |k: int| padded(coded_plane(planes, last, use_delta, p + 1 + k), width),
        );
        assert(seq![padded(coded, width)] + after =~= want);
    }
}

/// The rows `i..=b` as they are coded as differences.
spec fn delta_rows_code(rows: Seq<Seq<Seq<u8>>>, mono: bool, i: int, b: int) -> Seq<u8>
    decreases b - i + 1,
{
    if i > b {
        Seq::<u8>::empty()
    } else {
        delta_row(rows, mono, i) + delta_rows_code(rows, mono, i + 1, b)
    }
}

proof fn lemma_delta_rows_snoc(rows: Seq<Seq<Seq<u8>>>, mono: bool, i: int, b: int)
    requires
        i <= b,
    ensures
        delta_rows_code(rows, mono, i, b) == delta_rows_code(rows, mono, i, b - 1) + delta_row(rows, mono, b),
    decreases b - i,
{
    if i < b {
        lemma_delta_rows_snoc(rows, mono, i + 1, b);
        assert(delta_rows_code(rows, mono, i, b) =~= delta_rows_code(rows, mono, i, b - 1) + delta_row(
            rows,
            mono,
            b,
        ));
    } else {
        assert(delta_rows_code(rows, mono, i + 1, b) == Seq::<u8>::empty());
        assert(delta_rows_code(rows, mono, i, b) =~= delta_row(rows, mono, b));
        assert(delta_rows_code(rows, mono, i, b - 1) =~= Seq::<u8>::empty());
    }
}

proof fn lemma_band_code_splits(rows: Seq<Seq<Seq<u8>>>, mono: bool, a: int, b: int)
    requires
        a <= b,
    ensures
        band_code(rows, mono, a, b) == absolute_row(rows, mono, a) + delta_rows_code(rows, mono, a + 1, b),
    decreases b - a,
{
    if a < b {
        lemma_band_code_splits(rows, mono, a, b - 1);
        lemma_delta_rows_snoc(rows, mono, a + 1, b);
        assert(band_code(rows, mono, a, b) =~= absolute_row(rows, mono, a) + delta_rows_code(rows, mono, a + 1, b));
    } else {
        assert(band_code(rows, mono, a, b) =~= absolute_row(rows, mono, a) + delta_rows_code(rows, mono, a + 1, b));
    }
}

proof fn lemma_xor_undoes(x: u8, y: u8)
    ensures
        (x ^ y) ^ y == x,
        0u8 ^ 0u8 == 0u8,
{
    assert((x ^ y) ^ y == x) by (bit_vector);
    assert(0u8 ^ 0u8 == 0u8) by (bit_vector);
}

proof fn lemma_padded_delta(cur: Seq<u8>, last: Seq<u8>, width: int)
    requires
        cur.len() == last.len(),
        cur.len() <= width,
    ensures
        xor_bytes(padded(xor_bytes(cur, last), width), padded(last, width)) == padded(cur, width),
{
    let got = xor_bytes(padded(xor_bytes(cur, last), width), padded(last, width));
    assert forall|i: int| 0 <= i < width implies got[i] == padded(cur, width)[i] by {
        if i < cur.len() {
            lemma_xor_undoes(cur[i], last[i]);
        } else {
            lemma_xor_undoes(0, 0);
        }
    }
    assert(got =~= padded(cur, width));
}

proof fn lemma_print_delta_rows(rows: Seq<Seq<Seq<u8>>>, planes: nat, len: nat, mono: bool, i: int, b: int)
    requires
        page_regular(rows, planes, len),
        1 <= i <= b + 1,
        b < rows.len(),
    ensures
        printed_rows(
            delta_rows_code(rows, mono, i, b),
            planes,
            (b - i + 1) as nat,
            Some(padded_row(rows[i - 1])),
        ) == padded_rows(rows, i, b),
    decreases b - i + 1,
{
    let enc = delta_rows_code(rows, mono, i, b);
    if i > b {
        assert(padded_rows(rows, i, b) =~= Seq::<Seq<Seq<u8>>>::empty());
    } else {
        let width = SW2200_PRINT_ROWBYTES as int;
        let more = delta_rows_code(rows, mono, i + 1, b);
        let row = rows[i];
        let last = rows[i - 1];
        assert(row.len() == planes && last.len() == planes);
        assert forall|q: int| 0 <= q < row.len() implies (#[trigger] row[q]).len() <= width by {
            assert(rows[i][q].len() == len);
        }
        lemma_row_code_splits(row, last, true, mono, 0);
        lemma_decode_row_tail(row, last, true, mono, 0, more);
        assert(delta_row(rows, mono, i) =~= row_tail_code(row, last, true, mono, 0));
        let read = decode_planes(enc, planes).0;
        assert(decode_planes(enc, planes).1 == more);
        assert(xor_rows(read, padded_row(last)) =~= padded_row(row)) by {
            assert forall|p: int| 0 <= p < planes implies xor_bytes(#[trigger] read[p], padded_row(last)[p])
                == padded_row(row)[p] by {
                assert(rows[i][p].len() == len);
                assert(rows[i - 1][p].len() == len);
                lemma_padded_delta(row[p], last[p], width);
            }
        }
        lemma_print_delta_rows(rows, planes, len, mono, i + 1, b);
        assert((b - i + 1 - 1) as nat == (b - (i + 1) + 1) as nat);
        assert(seq![padded_row(row)] + padded_rows(rows, i + 1, b) =~= padded_rows(rows, i, b));
    }
}

/// The printer prints from a band's data exactly the rows of the band, padded
/// with white to the printable width.
pub proof fn law_band_prints_its_rows(rows: Seq<Seq<Seq<u8>>>, planes: nat, len: nat, mono: bool, a: int, b: int)
    requires
        page_regular(rows, planes, len),
        0 <= a <= b < rows.len(),
    ensures
        printed_rows(band_code(rows, mono, a, b), planes, (b - a + 1) as nat, None) == padded_rows(rows, a, b),
{
    let width = SW2200_PRINT_ROWBYTES as int;
    let enc = band_code(rows, mono, a, b);
    let more = delta_rows_code(rows, mono, a + 1, b);
    let row = rows[a];
    assert(row.len() == planes);
    assert forall|q: int| 0 <= q < row.len() implies (#[trigger] row[q]).len() <= width by {
        assert(rows[a][q].len() == len);
    }
    lemma_band_code_splits(rows, mono, a, b);
    lemma_row_code_splits(row, Seq::empty(), false, mono, 0);
    lemma_decode_row_tail(row, Seq::empty(), false, mono, 0, more);
    assert(absolute_row(rows, mono, a) =~= row_tail_code(row, Seq::empty(), false, mono, 0));
    assert(decode_planes(enc, planes).0 =~= padded_row(row));
    lemma_print_delta_rows(rows, planes, len, mono, a + 1, b);
    assert((b - a + 1 - 1) as nat == (b - (a + 1) + 1) as nat);
    assert(seq![padded_row(row)] + padded_rows(rows, a + 1, b) =~= padded_rows(rows, a, b));
}

proof fn lemma_white_fill_len(n: int)
    ensures
        white_fill(n).len() <= (if n > 0 { n } else { 0 }),
    decreases n,
{
    if n > MAX_RUN {
        lemma_white_fill_len(n - MAX_RUN);
    }
}

proof fn lemma_line_code_len(src: Seq<u8>, width: int, s: int)
    requires
        0 <= s <= src.len() <= width,
    ensures
        line_code(src, width, s).len() <= 2 * (width - s),
    decreases src.len() - s,
{
    lemma_white_fill_len(width - s);
    if s < src.len() {
        let b = literal_end(src, s, s);
        lemma_literal_end_bounds(src, s, s);
        lemma_white_fill_len(width - b);
        if b < src.len() && is_solid(src[b]) {
            let e = run_end(src, b, b);
            lemma_run_end_bounds(src, b, b);
            if src[b] == DATA_BLACK || e < src.len() {
                lemma_line_code_len(src, width, e);
            }
        } else {
            lemma_line_code_len(src, width, b);
        }
    }
}

proof fn lemma_row_code_len(planes: Seq<Seq<u8>>, last: Seq<Seq<u8>>, use_delta: bool, mono: bool, n: nat)
    requires
        n <= planes.len(),
        forall|q: int| 0 <= q < planes.len() ==> (#[trigger] planes[q]).len() <= SW2200_PRINT_ROWBYTES,
    ensures
        row_code(planes, last, use_delta, mono, n).len() <= 730 * n,
    decreases n,
{
    if n > 0 {
        lemma_row_code_len(planes, last, use_delta, mono, (n - 1) as nat);
        let coded = coded_plane(planes, last, use_delta, n - 1);
        assert(planes[n - 1].len() <= SW2200_PRINT_ROWBYTES);
        lemma_line_code_len(coded, SW2200_PRINT_ROWBYTES as int, 0);
    }
}

/// The bands of a page of one to four planes per row, and no more rows than
/// fit a 16-bit row number, tile the page from row `a` on without gap or
/// overlap; each stays strictly below the printer's buffer and within the row
/// limit.
pub proof fn law_bands_tile_within_limits(rows: Seq<Seq<Seq<u8>>>, planes: nat, len: nat, mono: bool, a: int)
    requires
        page_regular(rows, planes, len),
        planes <= 4,
        0 <= a < rows.len() <= 0x1_0000,
    ensures
        ({
            let bands = bands_from(rows, mono, a);
            &&& bands.len() > 0
            &&& bands[0].top == a
            &&& bands.last().bottom == rows.len() - 1
            &&& forall|k: int, m: int|
                #![trigger bands[k], bands[m]]
                0 <= k && m == k + 1 && m < bands.len() ==> bands[m].top == bands[k].bottom + 1
            &&& forall|k: int|
                0 <= k < bands.len() ==> {
                    &&& (#[trigger] bands[k]).top <= bands[k].bottom
                    &&& bands[k].bottom - bands[k].top + 1 <= MAX_BAND_ROWS
                    &&& bands[k].data.len() < MAX_BATCH_BYTES
                    &&& bands[k].data == band_code(rows, mono, bands[k].top as int, bands[k].bottom as int)
                }
        }),
    decreases rows.len() - a,
{
    let bands = bands_from(rows, mono, a);
    let e = band_end(rows, mono, a, a);
    lemma_band_end_bounds(rows, mono, a, a);
    let rest = bands_from(rows, mono, e + 1);
    let first = Band { top: a as u16, bottom: e as u16, data: band_code(rows, mono, a, e) };
    assert(bands == seq![first] + rest);
    if e == a {
        let row = rows[a];
        assert(row.len() == planes);
        assert forall|q: int| 0 <= q < row.len() implies (#[trigger] row[q]).len() <= SW2200_PRINT_ROWBYTES by {
            assert(rows[a][q].len() == len);
        }
        lemma_row_code_len(row, Seq::empty(), false, mono, row.len());
    }
    if e + 1 < rows.len() {
        law_bands_tile_within_limits(rows, planes, len, mono, e + 1);
        assert(bands.last() == rest.last());
        assert forall|k: int, m: int|
            #![trigger bands[k], bands[m]]
            0 <= k && m == k + 1 && m < bands.len() implies bands[m].top == bands[k].bottom + 1 by {
            if k > 0 {
                assert(bands[k] == rest[k - 1] && bands[m] == rest[m - 1]);
            } else {
                assert(bands[m] == rest[0]);
            }
        }
        assert forall|k: int| 0 <= k < bands.len() implies {
            &&& (#[trigger] bands[k]).top <= bands[k].bottom
            &&& bands[k].bottom - bands[k].top + 1 <= MAX_BAND_ROWS
            &&& bands[k].data.len() < MAX_BATCH_BYTES
            &&& bands[k].data == band_code(rows, mono, bands[k].top as int, bands[k].bottom as int)
        } by {
            if k > 0 {
                assert(bands[k] == rest[k - 1]);
            }
        }
    } else {
        assert(rest =~= Seq::<Band>::empty());
    }
}

// ── Print session ────────────────────────────────────────────────────────────

/// Status `B` bits that are all set when the printer is idle.
pub const SW2200_IDLE_MASK: u8 = 0xA0;

/// Milliseconds that the paper mechanism takes to settle.
pub const MECHANISM_SETTLE_MILLIS: u64 = 3000;

/// Longest identity string that is read.
pub const MAX_IDENTITY_BYTES: usize = 32;

/// The printer answered the print request with a busy result: another host
/// holds the print connection.
#[derive(Debug, Clone, Copy, PartialEq, Eq, Structural)]
pub struct PrinterBusy(pub u16);

/// Print quality, mapped onto the mode string sent at page start.
#[derive(Debug, Clone, Copy, PartialEq, Eq, Structural)]
pub enum PrintQuality {
    Normal,
    Best,
}

impl Default for PrintQuality {
    fn default() -> (r: Self)
        ensures
            r == PrintQuality::Normal,
    {
        PrintQuality::Normal
    }
}

/// Identity of the attached printer.
#[derive(Debug, Clone)]
pub struct StyleWriterInfo {
    /// Reply to the `?` identify command ("IJ10", "SW", "SW3", "CS", ...).
    pub identity: String,
    /// Submodel of the CS family (1, 2, 4 or 5); `None` for other printers.
    pub submodel: Option<u8>,
    /// Whether a colour ink cartridge is installed.
    pub color_cartridge: bool,
}

/// The model name that an identity and a submodel stand for.
pub open spec fn model_name_of(identity: Seq<char>, submodel: Option<u8>) -> Seq<char> {
    if identity == "SW"@ {
        "Apple StyleWriter II"@
    } else if identity == "SW3"@ {
        "Apple StyleWriter 1200"@
    } else if identity == "CS"@ {
        if submodel == Some(1u8) {
            "Apple Color StyleWriter 2400"@
        } else if submodel == Some(2u8) {
            "Apple Color StyleWriter 2200"@
        } else if submodel == Some(4u8) {
            "Apple Color StyleWriter 1500"@
        } else if submodel == Some(5u8) {
            "Apple Color StyleWriter 2500"@
        } else {
            "Apple Color StyleWriter"@
        }
    } else {
        "Apple StyleWriter"@
    }
}

impl StyleWriterInfo {
    /// Human-readable model name.
    pub fn model_name(&self) -> (name: &'static str)
        ensures
            name@ == model_name_of(self.identity@, self.submodel),
    {
        let id = self.identity.as_str();
        if str_eq(id, "SW") {
            "Apple StyleWriter II"
        } else if str_eq(id, "SW3") {
            "Apple StyleWriter 1200"
        } else if str_eq(id, "CS") {
            match self.submodel {
                Some(1) => "Apple Color StyleWriter 2400",
                Some(2) => "Apple Color StyleWriter 2200",
                Some(4) => "Apple Color StyleWriter 1500",
                Some(5) => "Apple Color StyleWriter 2500",
                _ => "Apple Color StyleWriter",
            }
        } else {
            "Apple StyleWriter"
        }
    }

    /// Only printers of the CS family print colour, and only with a colour
    /// cartridge installed.
    pub fn color_capable(&self) -> (r: bool)
        ensures
            r == (self.identity@ == "CS"@ && self.color_cartridge),
    {
        str_eq(self.identity.as_str(), "CS") && self.color_cartridge
    }
}

/// Payload of the print request: the number of our data socket as a 32-bit
/// number, then the user name as a counted string of at most 64 bytes in a
/// zero-filled field of 66.
pub open spec fn print_request(socket_num: u8, name: Seq<u8>) -> Seq<u8> {
    let kept = if name.len() > 64 {
        name.subrange(0, 64)
    } else {
        name
    };
    be32(socket_num as u32) + seq![kept.len() as u8] + kept + repeat(0, (65 - kept.len()) as nat)
}

/// Builds the payload of the print request attention message.
pub fn build_print_request(socket_num: u8, username: &str) -> (payload: Vec<u8>)
    ensures
        payload@ == print_request(socket_num, utf8(username@)),
        payload@.len() == 70,
{
    let mut payload: Vec<u8> = Vec::new();
    put_be32(&mut payload, socket_num as u32);
    let name = username.as_bytes();
    let name_len: usize = if name.len() > 64 { 64 } else { name.len() };
    payload.push(name_len as u8);
    let kept = slice_bytes(name, 0, name_len);
    put_bytes(&mut payload, &kept);
    let ghost head = payload@;
    proof {
        if name@.len() <= 64 {
            assert(kept@ =~= name@);
        }
        assert(head =~= be32(socket_num as u32) + seq![kept@.len() as u8] + kept@);
    }
    while payload.len() < 70
        invariant
            head.len() <= payload@.len() <= 70,
            payload@ == head + repeat(0, (payload@.len() - head.len()) as nat),
        decreases 70 - payload@.len(),
    {
        let ghost n = (payload@.len() - head.len()) as nat;
        payload.push(0);
        assert(repeat(0, n).push(0) =~= repeat(0, n + 1));
        assert(payload@ =~= head + repeat(0, n + 1));
    }
    payload
}

/// What the printer's answer to the print request means.
#[derive(Debug, Clone, Copy, PartialEq, Eq, Structural)]
pub enum PrintRequestAnswer {
    /// Close the control connection and accept the reverse connection.
    Accepted,
    /// The request was rejected outright.
    Rejected,
    /// Another host holds the printer.
    Busy(PrinterBusy),
}

/// Interprets the two-byte result of a print request.
pub fn print_request_answer(result: u16) -> (r: PrintRequestAnswer)
    ensures
        r == if result == 0 {
            PrintRequestAnswer::Accepted
        } else if result == 0xFFFF {
            PrintRequestAnswer::Rejected
        } else {
            PrintRequestAnswer::Busy(PrinterBusy(result))
        },
{
    match result {
        0 => PrintRequestAnswer::Accepted,
        0xFFFF => PrintRequestAnswer::Rejected,
        _ => PrintRequestAnswer::Busy(PrinterBusy(result)),
    }
}

/// Outcome of waiting for one byte from the printer.
#[derive(Debug, Clone, Copy, PartialEq, Eq, Structural)]
pub enum Reply {
    /// Nothing has been asked yet, or the wait timed out.
    Silent,
    /// The byte that came.
    Byte(u8),
    /// The connection failed.
    Failed,
}

/// What to do next while polling a status.
#[derive(Debug, Clone, Copy, PartialEq, Eq, Structural)]
pub enum PollStep {
    /// Discard stale input, send the query and wait for a byte.
    Ask,
    /// The status, or `None` where polling has to be given up.
    Done(Option<u8>),
}

/// The next step of a status poll, given what came of the last query.
pub fn poll_status(reply: Reply, deadline_passed: bool) -> (step: PollStep)
    ensures
        step == match reply {
            Reply::Byte(b) => PollStep::Done(Some(b)),
            Reply::Failed => PollStep::Done(None),
            Reply::Silent => if deadline_passed {
                PollStep::Done(None)
            } else {
                PollStep::Ask
            },
        },
{
    match reply {
        Reply::Byte(b) => PollStep::Done(Some(b)),
        Reply::Failed => PollStep::Done(None),
        Reply::Silent => if deadline_passed {
            PollStep::Done(None)
        } else {
            PollStep::Ask
        },
    }
}

/// The bytes of a status query.
pub fn status_query(query: u8) -> (bytes: Vec<u8>)
    ensures
        bytes@ == seq![0xFFu8, 0xFFu8, 0xFFu8, query],
{
    let mut bytes: Vec<u8> = Vec::new();
    bytes.push(0xFF);
    bytes.push(0xFF);
    bytes.push(0xFF);
    bytes.push(query);
    assert(bytes@ =~= seq![0xFFu8, 0xFFu8, 0xFFu8, query]);
    bytes
}

/// What to do next while waiting for the printer to become idle.
#[derive(Debug, Clone, Copy, PartialEq, Eq, Structural)]
pub enum WaitStep {
    /// The printer is idle.
    Ready,
    /// Out of paper: send the `S` retry, wait five seconds, poll again.
    RetryPaper,
    /// Still busy: wait a fifth of a second, poll again.
    Busy,
    /// Gave up; the last three statuses `1`, `2` and `B` that were read.
    NotReady(u8, u8, u8),
    /// Gave up without ever getting all three statuses.
    NoReply,
}

/// Progress of a wait for the idle state: the last full set of statuses.
#[derive(Debug, Clone, Copy, PartialEq, Eq)]
pub struct WaitReady {
    pub last: Option<(u8, u8, u8)>,
}

/// Whether status `B` reports an idle printer.
pub open spec fn is_idle(cb: u8) -> bool {
    cb & SW2200_IDLE_MASK == SW2200_IDLE_MASK
}

impl WaitReady {
    /// A wait that has not read any status yet.
    pub fn new() -> (r: Self)
        ensures
            r.last == None::<(u8, u8, u8)>,
    {
        WaitReady { last: None }
    }

    /// Takes in one round of the statuses `1`, `2` and `B`, each absent where
    /// polling it was given up.
    pub fn wait_ready(&mut self, c1: Option<u8>, c2: Option<u8>, cb: Option<u8>) -> (step: WaitStep)
        ensures
            match (c1, c2, cb) {
                (Some(s1), Some(s2), Some(sb)) => {
                    &&& final(self).last == Some((s1, s2, sb))
                    &&& step == if s2 == 0x04 {
                        WaitStep::RetryPaper
                    } else if is_idle(sb) {
                        WaitStep::Ready
                    } else {
                        WaitStep::Busy
                    }
                },
                _ => {
                    &&& final(self).last == old(self).last
                    &&& step == match old(self).last {
                        Some(l) => WaitStep::NotReady(l.0, l.1, l.2),
                        None => WaitStep::NoReply,
                    }
                },
            },
    {
        match (c1, c2, cb) {
            (Some(s1), Some(s2), Some(sb)) => {
                self.last = Some((s1, s2, sb));
                if s2 == 0x04 {
                    WaitStep::RetryPaper
                } else if sb & SW2200_IDLE_MASK == SW2200_IDLE_MASK {
                    WaitStep::Ready
                } else {
                    WaitStep::Busy
                }
            },
            _ => match self.last {
                Some(l) => WaitStep::NotReady(l.0, l.1, l.2),
                None => WaitStep::NoReply,
            },
        }
    }
}

/// The light check between bands: whether status `2` says that the printer is
/// out of paper, so that the `S` retry has to be sent and the check repeated.
pub fn check_paper(c2: Option<u8>) -> (retry: bool)
    ensures
        retry == (c2 == Some(0x04u8)),
{
    match c2 {
        Some(s2) => s2 == 0x04,
        None => false,
    }
}

/// What to do next while reading the printer's identity string.
#[derive(Debug, Clone, Copy, PartialEq, Eq, Structural)]
pub enum IdentityStep {
    /// Wait for another byte.
    More,
    /// The string is complete.
    Complete,
    /// The connection failed.
    Failed,
    /// The printer did not answer at all.
    NoReply,
}

/// The identity string as far as it has been read.
#[derive(Debug)]
pub struct IdentityReader {
    pub bytes: Vec<u8>,
}

impl IdentityReader {
    /// An empty identity.
    pub fn new() -> (r: Self)
        ensures
            r.bytes@ == Seq::<u8>::empty(),
    {
        IdentityReader { bytes: Vec::new() }
    }

    /// Takes in what came of waiting for the next byte. The string ends at a
    /// carriage return, after [`MAX_IDENTITY_BYTES`], or when the printer
    /// falls silent behind at least one byte.
    pub fn take(&mut self, reply: Reply) -> (step: IdentityStep)
        ensures
            match reply {
                Reply::Byte(b) => {
                    &&& b != 0x0D && old(self).bytes@.len() < MAX_IDENTITY_BYTES ==> step == IdentityStep::More
                        && final(self).bytes@ == old(self).bytes@.push(b)
                    &&& !(b != 0x0D && old(self).bytes@.len() < MAX_IDENTITY_BYTES) ==> step
                        == IdentityStep::Complete && final(self).bytes@ == old(self).bytes@
                },
                Reply::Failed => step == IdentityStep::Failed && final(self).bytes@ == old(self).bytes@,
                Reply::Silent => final(self).bytes@ == old(self).bytes@ && step == if old(self).bytes@.len() > 0 {
                    IdentityStep::Complete
                } else {
                    IdentityStep::NoReply
                },
            },
    {
        match reply {
            Reply::Byte(b) => {
                if b != 0x0D && self.bytes.len() < MAX_IDENTITY_BYTES {
                    self.bytes.push(b);
                    IdentityStep::More
                } else {
                    IdentityStep::Complete
                }
            },
            Reply::Failed => IdentityStep::Failed,
            Reply::Silent => if self.bytes.len() > 0 {
                IdentityStep::Complete
            } else {
                IdentityStep::NoReply
            },
        }
    }
}

/// The printer did not answer the cartridge query.
#[derive(Debug, Clone, Copy, PartialEq, Eq, Structural)]
pub struct NoCartridgeReply;

/// The identity of a printer out of the bytes that it has sent: the text
/// without the white space at its ends.
pub fn identity_text(bytes: &[u8]) -> (identity: String)
    ensures
        identity@ == trimmed(lossy_utf8(bytes@)),
{
    let text = lossy_text(bytes);
    trim_text(text.as_str())
}

/// Whether a printer of this identity answers the submodel and cartridge
/// queries: only the CS family does.
pub fn answers_cs_queries(identity: &str) -> (r: bool)
    ensures
        r == (identity@ == "CS"@),
{
    str_eq(identity, "CS")
}

/// Assembles what the identify queries gave. `submodel` and `cartridge` are
/// the answers to the `p` and `H` queries and are only looked at for printers
/// of the CS family, where the cartridge answer is indispensable.
pub fn query_info(identity: String, submodel: Option<u8>, cartridge: Option<u8>) -> (r: Result<
    StyleWriterInfo,
    NoCartridgeReply,
>)
    ensures
        identity@ == "CS"@ && cartridge is None <==> r is Err,
        r matches Ok(info) ==> {
            &&& info.identity@ == identity@
            &&& info.submodel == if identity@ == "CS"@ {
                submodel
            } else {
                None
            }
            &&& info.color_cartridge == (identity@ == "CS"@ && cartridge.unwrap() & 0x80 != 0)
        },
{
    if str_eq(identity.as_str(), "CS") {
        match cartridge {
            Some(h) => Ok(StyleWriterInfo { identity, submodel, color_cartridge: h & 0x80 != 0 }),
            None => Err(NoCartridgeReply),
        }
    } else {
        Ok(StyleWriterInfo { identity, submodel: None, color_cartridge: false })
    }
}

/// Why a page cannot be started.
#[derive(Debug, Clone, Copy, PartialEq, Eq, Structural)]
pub enum SetupError {
    /// A colour page, and the cartridge query went unanswered.
    NoCartridgeReply,
    /// A colour page, and the cartridge status says that a black cartridge is
    /// installed.
    BlackCartridge(u8),
}

/// The mode string of a page: colour, monochrome best or monochrome normal.
pub open spec fn mode_string(color: bool, quality: PrintQuality) -> Seq<u8> {
    if color {
        seq![0x6Du8, 0x32, 0x73, 0x41, 0x48]
    } else if quality == PrintQuality::Best {
        seq![0x6Du8, 0x32, 0x73, 0x5A, 0x41, 0x48]
    } else {
        seq![0x6Du8, 0x32, 0x6E, 0x5A, 0x41, 0x48]
    }
}

/// Decides whether a page can be started, given the answer to the cartridge
/// query, and with which mode string. Monochrome pages print with any
/// cartridge; a colour page needs a colour cartridge.
pub fn setup(color: bool, quality: PrintQuality, cartridge: Option<u8>) -> (r: Result<Vec<u8>, SetupError>)
    ensures
        match r {
            Ok(mode) => mode@ == mode_string(color, quality) && (color ==> cartridge is Some && cartridge.unwrap()
                & 0x80 != 0),
            Err(SetupError::NoCartridgeReply) => color && cartridge is None,
            Err(SetupError::BlackCartridge(h)) => color && cartridge == Some(h) && h & 0x80 == 0,
        },
{
    if color {
        match cartridge {
            None => {
                return Err(SetupError::NoCartridgeReply);
            },
            Some(h) => {
                if h & 0x80 == 0 {
                    return Err(SetupError::BlackCartridge(h));
                }
            },
        }
    }
    let mode: Vec<u8> = if color {
        vec![0x6D, 0x32, 0x73, 0x41, 0x48]
    } else {
        match quality {
            PrintQuality::Best => vec![0x6D, 0x32, 0x73, 0x5A, 0x41, 0x48],
            PrintQuality::Normal => vec![0x6D, 0x32, 0x6E, 0x5A, 0x41, 0x48],
        }
    };
    assert(mode@ =~= mode_string(color, quality));
    Ok(mode)
}

/// What follows once the printer is idle.
#[derive(Debug)]
pub enum BufferStep {
    /// Send this attention message, and wait at most so many milliseconds for
    /// so many bytes, which are ignored.
    Ask { code: u16, data: Vec<u8>, bytes: usize, millis: u64 },
    /// Nothing more.
    Done,
}

/// The attention message that asks whether the printer's buffer is ready.
pub const BUFFER_READY_CODE: u16 = 0x0006;

/// How often that is asked.
pub const BUFFER_QUERIES: usize = 2;

/// Milliseconds to wait for the answer.
pub const BUFFER_READY_MILLIS: u64 = 3000;

/// The queries that follow once the printer is idle. A missing answer does no
/// harm, but another query is not stacked on it.
#[derive(Debug, Clone, Copy, PartialEq, Eq, Structural)]
pub struct BufferQueries {
    pub asked: usize,
}

impl BufferQueries {
    /// No query has been sent.
    pub fn new() -> (q: Self)
        ensures
            q.asked == 0,
    {
        BufferQueries { asked: 0 }
    }

    /// Says what to do next; `silent` tells whether the last query has gone
    /// unanswered.
    pub fn next(&mut self, silent: bool) -> (step: BufferStep)
        ensures
            if old(self).asked < BUFFER_QUERIES && !(silent && old(self).asked > 0) {
                &&& final(self).asked == old(self).asked + 1
                &&& step matches BufferStep::Ask { code, data, bytes, millis } && code == BUFFER_READY_CODE && data@
                    == seq![0u8] && bytes == 2 && millis == BUFFER_READY_MILLIS
            } else {
                final(self).asked == old(self).asked && step is Done
            },
    {
        if self.asked < BUFFER_QUERIES && !(silent && self.asked > 0) {
            self.asked = self.asked + 1;
            let data: Vec<u8> = vec![0];
            assert(data@ =~= seq![0u8]);
            BufferStep::Ask { code: BUFFER_READY_CODE, data, bytes: 2, millis: BUFFER_READY_MILLIS }
        } else {
            BufferStep::Done
        }
    }
}

/// Where the start of a page is.
#[derive(Debug, Clone, Copy, PartialEq, Eq, Structural)]
pub enum PageStage {
    /// Nothing has been sent.
    Fresh,
    Reset,
    BusyAsked,
    CartridgeAsked,
    ModeSent,
    FeedSent,
    Settled,
    Started,
}

/// What starts a page next.
#[derive(Debug)]
pub enum PageStep {
    /// Write the bytes and flush.
    Send(Vec<u8>),
    /// Ask for a status; the answer is handed to the next step.
    Ask(u8),
    /// Let the mechanism settle for so many milliseconds.
    Settle(u64),
    /// Wait until the printer is ready; where it does not get ready, stop.
    WaitReady,
    /// The page has been started.
    Done,
}

/// What a step stands for.
pub enum PageAct {
    Send(Seq<u8>),
    Ask(u8),
    Settle(u64),
    WaitReady,
    Done,
}

impl View for PageStep {
    type V = PageAct;

    open spec fn view(&self) -> PageAct {
        match *self {
            PageStep::Send(b) => PageAct::Send(b@),
            PageStep::Ask(q) => PageAct::Ask(q),
            PageStep::Settle(ms) => PageAct::Settle(ms),
            PageStep::WaitReady => PageAct::WaitReady,
            PageStep::Done => PageAct::Done,
        }
    }
}

/// The next step of the start of a page, and where that leads: reset, ask
/// whether the printer is busy and which cartridge it has, send the mode, feed a
/// page, let it settle, wait until the printer is ready.
pub open spec fn page_step(stage: PageStage, color: bool, quality: PrintQuality) -> (PageStage, PageAct) {
    match stage {
        PageStage::Fresh => (PageStage::Reset, PageAct::Send(seq![0x44u8])),
        PageStage::Reset => (PageStage::BusyAsked, PageAct::Ask(0x42)),
        PageStage::BusyAsked => (PageStage::CartridgeAsked, PageAct::Ask(0x48)),
        PageStage::CartridgeAsked => (PageStage::ModeSent, PageAct::Send(mode_string(color, quality))),
        PageStage::ModeSent => (PageStage::FeedSent, PageAct::Send(seq![0x4Cu8])),
        PageStage::FeedSent => (PageStage::Settled, PageAct::Settle(MECHANISM_SETTLE_MILLIS)),
        PageStage::Settled => (PageStage::Started, PageAct::WaitReady),
        PageStage::Started => (PageStage::Started, PageAct::Done),
    }
}

/// Why the cartridge does not do for a page, if it does not.
pub open spec fn cartridge_refused(color: bool, cartridge: Option<u8>) -> Option<SetupError> {
    if !color {
        None
    } else {
        match cartridge {
            None => Some(SetupError::NoCartridgeReply),
            Some(h) => if h & 0x80 == 0 {
                Some(SetupError::BlackCartridge(h))
            } else {
                None
            },
        }
    }
}

/// The start of a page.
#[derive(Debug, Clone, Copy)]
pub struct PageStart {
    pub color: bool,
    pub quality: PrintQuality,
    pub stage: PageStage,
}

impl PageStart {
    /// A page that has not been started.
    pub fn new(color: bool, quality: PrintQuality) -> (p: Self)
        ensures
            p == (PageStart { color, quality, stage: PageStage::Fresh }),
    {
        PageStart { color, quality, stage: PageStage::Fresh }
    }

    /// Says what has to be done next; `answer` is the status that was asked for,
    /// where that was the last step and the printer has answered. A colour page
    /// is refused on a cartridge that does not do, before anything of it is sent.
    pub fn next(&mut self, answer: Option<u8>) -> (r: Result<PageStep, SetupError>)
        ensures
            final(self).color == old(self).color,
            final(self).quality == old(self).quality,
            match cartridge_refused(old(self).color, answer) {
                Some(e) if old(self).stage == PageStage::CartridgeAsked => r == Err::<PageStep, SetupError>(e)
                    && final(self).stage == old(self).stage,
                _ => r matches Ok(step) && (final(self).stage, step@) == page_step(
                    old(self).stage,
                    old(self).color,
                    old(self).quality,
                ),
            },
    {
        match self.stage {
            PageStage::Fresh => {
                self.stage = PageStage::Reset;
                let reset: Vec<u8> = vec![0x44];
                assert(reset@ =~= seq![0x44u8]);
                Ok(PageStep::Send(reset))
            },
            PageStage::Reset => {
                self.stage = PageStage::BusyAsked;
                Ok(PageStep::Ask(0x42))
            },
            PageStage::BusyAsked => {
                self.stage = PageStage::CartridgeAsked;
                Ok(PageStep::Ask(0x48))
            },
            PageStage::CartridgeAsked => match setup(self.color, self.quality, answer) {
                Ok(mode) => {
                    self.stage = PageStage::ModeSent;
                    Ok(PageStep::Send(mode))
                },
                Err(e) => Err(e),
            },
            PageStage::ModeSent => {
                self.stage = PageStage::FeedSent;
                let feed: Vec<u8> = vec![0x4C];
                assert(feed@ =~= seq![0x4Cu8]);
                Ok(PageStep::Send(feed))
            },
            PageStage::FeedSent => {
                self.stage = PageStage::Settled;
                Ok(PageStep::Settle(MECHANISM_SETTLE_MILLIS))
            },
            PageStage::Settled => {
                self.stage = PageStage::Started;
                Ok(PageStep::WaitReady)
            },
            PageStage::Started => Ok(PageStep::Done),
        }
    }
}

/// The bytes of one band, header and raster block, for the rows
/// `top..=bottom`; `None` where the block is too large for the printer.
pub fn write_batch(top: u16, bottom: u16, encoded_planes: &[u8], color: bool) -> (r: Option<Vec<u8>>)
    ensures
        r is Some <==> encoded_planes@.len() < MAX_BATCH_BYTES,
        r matches Some(bytes) ==> bytes@ == seq![if color { 0x63u8 } else { 0x52u8 }] + le16(0) + le16(top)
            + le16(SW2200_PRINT_WIDTH as u16) + le16(bottom) + (seq![0x47u8] + le16(encoded_planes@.len() as u16)
            + encoded_planes@ + seq![0u8]),
{
    if encoded_planes.len() >= MAX_BATCH_BYTES {
        return None;
    }
    let mut bytes = StyleWriterEncoder::encode_rect(top, 0, bottom, SW2200_PRINT_WIDTH as u16, color);
    let block = StyleWriterEncoder::wrap_raster_chunk(encoded_planes);
    put_bytes(&mut bytes, &block);
    Some(bytes)
}

/// One action of the sequence that ends a session.
#[derive(Debug)]
pub enum SessionAction {
    /// Wait until the printer is idle; where it does not become idle, stop
    /// with an error if `required`, else go on.
    WaitIdle { required: bool },
    /// Write the bytes and flush.
    Send(Vec<u8>),
    /// Write the bytes and end the message.
    SendMessage(Vec<u8>),
    /// Let the mechanism settle for so many milliseconds.
    Settle(u64),
    /// Send an attention message.
    Attention { code: u16, data: Vec<u8> },
    /// Wait at most so many milliseconds for so many bytes, and ignore them.
    Swallow { bytes: usize, millis: u64 },
    /// Close the connection.
    Close,
}

/// What a session action stands for.
pub enum Act {
    WaitIdle(bool),
    Send(Seq<u8>),
    SendMessage(Seq<u8>),
    Settle(u64),
    Attention(u16, Seq<u8>),
    Swallow(usize, u64),
    Close,
}

impl View for SessionAction {
    type V = Act;

    open spec fn view(&self) -> Act {
        match *self {
            SessionAction::WaitIdle { required } => Act::WaitIdle(required),
            SessionAction::Send(b) => Act::Send(b@),
            SessionAction::SendMessage(b) => Act::SendMessage(b@),
            SessionAction::Settle(ms) => Act::Settle(ms),
            SessionAction::Attention { code, data } => Act::Attention(code, data@),
            SessionAction::Swallow { bytes, millis } => Act::Swallow(bytes, millis),
            SessionAction::Close => Act::Close,
        }
    }
}

/// The actions of a list.
pub open spec fn acts(actions: Seq<SessionAction>) -> Seq<Act> {
    Seq::new(actions.len(), |i: int| actions[i]@)
}

/// The teardown: a null byte, eject and reset, the closing attention, its
/// answer swallowed, close.
pub open spec fn teardown_acts() -> Seq<Act> {
    seq![
        Act::Send(seq![0u8]),
        Act::Send(seq![0xFFu8, 0xFFu8, 0xFFu8, 0x49u8]),
        Act::Attention(0x0012, seq![0u8]),
        Act::Swallow(2, 5000),
        Act::Close,
    ]
}

/// The end of a page: once the last band has drained, form feed, let the
/// engine settle, eject, tear down.
pub open spec fn finish_acts() -> Seq<Act> {
    seq![
        Act::WaitIdle(true),
        Act::SendMessage(seq![0x0Cu8]),
        Act::Settle(MECHANISM_SETTLE_MILLIS),
        Act::WaitIdle(false),
        Act::Send(seq![0x45u8, 0x6Cu8]),
    ] + teardown_acts()
}

fn push_action(actions: &mut Vec<SessionAction>, a: SessionAction)
    ensures
        acts(final(actions)@) == acts(old(actions)@).push(a@),
{
    actions.push(a);
    assert(acts(actions@) =~= acts(old(actions)@).push(a@));
}

fn push_teardown(actions: &mut Vec<SessionAction>)
    ensures
        acts(final(actions)@) == acts(old(actions)@) + teardown_acts(),
{
    let zero: Vec<u8> = vec![0];
    let reset = status_query(0x49);
    let data: Vec<u8> = vec![0];
    assert(zero@ =~= seq![0u8]);
    assert(data@ =~= seq![0u8]);
    push_action(actions, SessionAction::Send(zero));
    push_action(actions, SessionAction::Send(reset));
    push_action(actions, SessionAction::Attention { code: 0x0012, data });
    push_action(actions, SessionAction::Swallow { bytes: 2, millis: 5000 });
    push_action(actions, SessionAction::Close);
    assert(acts(actions@) =~= acts(old(actions)@) + teardown_acts());
}

/// The actions that abort a page and end the session.
pub fn abort() -> (actions: Vec<SessionAction>)
    ensures
        acts(actions@) == teardown_acts(),
{
    let mut actions: Vec<SessionAction> = Vec::new();
    push_teardown(&mut actions);
    assert(acts(actions@) =~= teardown_acts());
    actions
}

/// The actions that finish a page and end the session.
pub fn finish() -> (actions: Vec<SessionAction>)
    ensures
        acts(actions@) == finish_acts(),
{
    let mut actions: Vec<SessionAction> = Vec::new();
    let feed: Vec<u8> = vec![0x0C];
    let eject: Vec<u8> = vec![0x45, 0x6C];
    assert(feed@ =~= seq![0x0Cu8]);
    assert(eject@ =~= seq![0x45u8, 0x6Cu8]);
    push_action(&mut actions, SessionAction::WaitIdle { required: true });
    push_action(&mut actions, SessionAction::SendMessage(feed));
    push_action(&mut actions, SessionAction::Settle(MECHANISM_SETTLE_MILLIS));
    push_action(&mut actions, SessionAction::WaitIdle { required: false });
    push_action(&mut actions, SessionAction::Send(eject));
    push_teardown(&mut actions);
    assert(acts(actions@) =~= finish_acts());
    actions
}

// ── What the printer is told ─────────────────────────────────────────────────

/// How the printer reads a line: 0x80 alone fills the line with white; a smaller
/// number is followed by so many bytes as they are; up to 0xBF it counts white
/// bytes from 0x80 on, and from 0xC0 on black ones.
pub proof fn law_printer_reads_codes(enc: Seq<u8>, width: int)
    requires
        enc.len() > 0,
        width > 0,
    ensures
        enc[0] == 0x80 ==> decode_line(enc, width).0 == Seq::new(width as nat, |i: int| 0u8) && decode_line(enc, width).1
            == enc.skip(1),
        enc[0] < 0x80 && enc.len() >= 1 + enc[0] ==> decode_line(enc, width).0 == enc.subrange(1, 1 + enc[0]) + decode_line(
            enc.skip(1 + enc[0] as int),
            width - enc[0],
        ).0,
        0x80 < enc[0] < 0xC0 ==> decode_line(enc, width).0 == Seq::new((enc[0] - 0x80) as nat, |i: int| 0u8) + decode_line(
            enc.skip(1),
            width - (enc[0] - 0x80),
        ).0,
        enc[0] >= 0xC0 ==> decode_line(enc, width).0 == Seq::new((enc[0] - 0xC0) as nat, |i: int| 0xFFu8) + decode_line(
            enc.skip(1),
            width - (enc[0] - 0xC0),
        ).0,
{
    if enc[0] == 0x80 {
        assert(decode_line(enc, width).0 =~= Seq::new(width as nat, |i: int| 0u8));
    } else if 0x80 < enc[0] < 0xC0 {
        let n = enc[0] - 0x80;
        assert(repeat(0, n as nat) =~= Seq::new(n as nat, |i: int| 0u8));
    } else if enc[0] >= 0xC0 {
        let n = enc[0] - 0xC0;
        assert(repeat(0xFF, n as nat) =~= Seq::new(n as nat, |i: int| 0xFFu8));
    }
}

/// White and black bytes are counted, and all others are sent as they are; no code
/// stands for more than 62 bytes.
pub proof fn law_codes_are_for_at_most_62(src: Seq<u8>, b: int, i: int)
    requires
        0 <= b <= i <= src.len(),
        i - b <= 62,
        b < src.len(),
    ensures
        ({
            let e = literal_end(src, b, i);
            &&& i <= e <= src.len()
            &&& e - b <= 62
            &&& forall|k: int| i <= k < e ==> #[trigger] src[k] != 0 && src[k] != 0xFF
            &&& e - b == 62 || e == src.len() || src[e] == 0 || src[e] == 0xFF
        }),
        ({
            let e = run_end(src, b, i);
            &&& i <= e <= src.len()
            &&& e - b <= 62
            &&& forall|k: int| i <= k < e ==> #[trigger] src[k] == src[b]
            &&& e - b == 62 || e == src.len() || src[e] != src[b]
        }),
    decreases src.len() - i,
{
    if i < src.len() && i - b < 62 {
        law_codes_are_for_at_most_62(src, b, i + 1);
    }
}

/// White behind a line is told in codes of at most 62 bytes, and where the line is
/// full nothing is told.
pub proof fn law_white_behind_a_line(n: int)
    ensures
        n <= 0 ==> white_fill(n).len() == 0,
        0 < n <= 62 ==> white_fill(n) == seq![(0x80 + n) as u8],
        n > 62 ==> white_fill(n) == seq![0xBEu8] + white_fill(n - 62),
        n >= 0 ==> white_fill(n).len() == (n + 61) / 62,
    decreases n,
{
    if n > 62 {
        law_white_behind_a_line(n - 62);
    }
}

/// A line of white is told by one byte where that is allowed.
pub proof fn law_blank_line_is_one_byte(src: Seq<u8>, width: int)
    ensures
        (forall|k: int| 0 <= k < src.len() ==> #[trigger] src[k] == 0) ==> scanline_code(src, width, true) == seq![0x80u8],
        (exists|k: int| 0 <= k < src.len() && #[trigger] src[k] != 0) ==> scanline_code(src, width, true) == scanline_code(
            src,
            width,
            false,
        ),
{
}

/// A line differs from the one before it where their bytes differ, and putting the
/// difference on the one before gives the line.
pub proof fn law_differences_undo(a: Seq<u8>, b: Seq<u8>)
    requires
        a.len() == b.len(),
    ensures
        xor_bytes(a, b).len() == a.len(),
        xor_bytes(xor_bytes(a, b), b) == a,
        forall|k: int| 0 <= k < a.len() && a[k] == b[k] ==> #[trigger] xor_bytes(a, b)[k] == 0,
{
    assert forall|k: int| 0 <= k < a.len() implies #[trigger] xor_bytes(xor_bytes(a, b), b)[k] == a[k] by {
        let x = a[k];
        let y = b[k];
        assert((x ^ y) ^ y == x) by (bit_vector);
    }
    assert(xor_bytes(xor_bytes(a, b), b) =~= a);
    assert forall|k: int| 0 <= k < a.len() && a[k] == b[k] implies #[trigger] xor_bytes(a, b)[k] == 0 by {
        let x = a[k];
        assert(x ^ x == 0) by (bit_vector);
    }
}

/// A band holds at most 400 rows and fewer than 8192 bytes.
pub proof fn law_bands_have_limits(rows: Seq<Seq<Seq<u8>>>, mono: bool, a: int, b: int)
    ensures
        band_fits(rows, mono, a, b) <==> band_code(rows, mono, a, b).len() < 8192 && b < a + 400,
{
}

/// A band goes on as long as it fits: every row up to its end does, and the one
/// behind does not, or there is none.
pub proof fn law_bands_are_filled(rows: Seq<Seq<Seq<u8>>>, mono: bool, a: int, b: int)
    requires
        0 <= a <= b < rows.len(),
    ensures
        ({
            let e = band_end(rows, mono, a, b);
            &&& b <= e < rows.len()
            &&& forall|k: int| b < k <= e ==> #[trigger] band_fits(rows, mono, a, k)
            &&& e + 1 == rows.len() || !band_fits(rows, mono, a, e + 1)
        }),
    decreases rows.len() - b,
{
    if b + 1 < rows.len() && band_fits(rows, mono, a, b + 1) {
        law_bands_are_filled(rows, mono, a, b + 1);
    }
}

/// The rows of a band: the first one as it is, each other one as its difference
/// from the one before.
pub proof fn law_band_starts_over(rows: Seq<Seq<Seq<u8>>>, mono: bool, a: int, b: int)
    requires
        a <= b,
    ensures
        band_code(rows, mono, a, a) == row_code(rows[a], Seq::empty(), false, mono, rows[a].len()),
        a < b ==> band_code(rows, mono, a, b) == band_code(rows, mono, a, b - 1) + row_code(
            rows[b],
            rows[b - 1],
            true,
            mono,
            rows[b].len(),
        ),
{
}

/// The four bits of a pixel: two pixels stand in each byte, the first one in its
/// high half; beyond the line all bits are clear.
pub open spec fn pixel(chunky: Seq<u8>, p: int) -> int {
    let b = if 0 <= p / 2 < chunky.len() {
        chunky[p / 2] as int
    } else {
        0
    };
    if p % 2 == 0 {
        b / 16
    } else {
        b % 16
    }
}

proof fn lemma_planar_bits(chunky: Seq<u8>, w: u8, j: int)
    requires
        w == 1 || w == 2 || w == 4 || w == 8,
        0 <= j,
    ensures
        ({
            let b = planar_byte(chunky, w, j) as int;
            &&& (b / 128) % 2 == (pixel(chunky, 8 * j) / w as int) % 2
            &&& (b / 64) % 2 == (pixel(chunky, 8 * j + 1) / w as int) % 2
            &&& (b / 32) % 2 == (pixel(chunky, 8 * j + 2) / w as int) % 2
            &&& (b / 16) % 2 == (pixel(chunky, 8 * j + 3) / w as int) % 2
            &&& (b / 8) % 2 == (pixel(chunky, 8 * j + 4) / w as int) % 2
            &&& (b / 4) % 2 == (pixel(chunky, 8 * j + 5) / w as int) % 2
            &&& (b / 2) % 2 == (pixel(chunky, 8 * j + 6) / w as int) % 2
            &&& b % 2 == (pixel(chunky, 8 * j + 7) / w as int) % 2
        }),
{
    lemma_pixel_pair(byte_or_zero(chunky, 4 * j), w);
    lemma_pixel_pair(byte_or_zero(chunky, 4 * j + 1), w);
    lemma_pixel_pair(byte_or_zero(chunky, 4 * j + 2), w);
    lemma_pixel_pair(byte_or_zero(chunky, 4 * j + 3), w);
    lemma_four_pairs(
        pixel_pair(byte_or_zero(chunky, 4 * j), w),
        pixel_pair(byte_or_zero(chunky, 4 * j + 1), w),
        pixel_pair(byte_or_zero(chunky, 4 * j + 2), w),
        pixel_pair(byte_or_zero(chunky, 4 * j + 3), w),
    );
    lemma_pixels_of(chunky, 4 * j);
    lemma_pixels_of(chunky, 4 * j + 1);
    lemma_pixels_of(chunky, 4 * j + 2);
    lemma_pixels_of(chunky, 4 * j + 3);
}

proof fn lemma_pixels_of(chunky: Seq<u8>, i: int)
    requires
        0 <= i,
    ensures
        pixel(chunky, 2 * i) == byte_or_zero(chunky, i) / 16,
        pixel(chunky, 2 * i + 1) == byte_or_zero(chunky, i) % 16,
{
    assert((2 * i) / 2 == i && (2 * i + 1) / 2 == i);
}

proof fn lemma_pixel_pair(b: u8, w: u8)
    requires
        w == 1 || w == 2 || w == 4 || w == 8,
    ensures
        0 <= pixel_pair(b, w) < 4,
        pixel_pair(b, w) / 2 == ((b as int / 16) / w as int) % 2,
        pixel_pair(b, w) % 2 == ((b as int % 16) / w as int) % 2,
{
}

proof fn lemma_four_pairs(p: int, q: int, r: int, s: int)
    requires
        0 <= p < 4,
        0 <= q < 4,
        0 <= r < 4,
        0 <= s < 4,
    ensures
        ({
            let b = p * 64 + q * 16 + r * 4 + s;
            &&& 0 <= b < 256
            &&& (b / 128) % 2 == p / 2 && (b / 64) % 2 == p % 2
            &&& (b / 32) % 2 == q / 2 && (b / 16) % 2 == q % 2
            &&& (b / 8) % 2 == r / 2 && (b / 4) % 2 == r % 2
            &&& (b / 2) % 2 == s / 2 && b % 2 == s % 2
        }),
{
}

/// Each plane holds one bit of every pixel, the first pixel of a byte in its
/// highest bit.
pub proof fn law_planes_hold_one_bit_of_each_pixel(chunky: Seq<u8>, w: u8, j: int)
    requires
        w == 1 || w == 2 || w == 4 || w == 8,
        0 <= j < planar_line(chunky, w).len(),
    ensures
        planar_line(chunky, w).len() == (chunky.len() + 3) / 4,
        ({
            let b = planar_line(chunky, w)[j] as int;
            &&& (b / 128) % 2 == (pixel(chunky, 8 * j) / w as int) % 2
            &&& (b / 64) % 2 == (pixel(chunky, 8 * j + 1) / w as int) % 2
            &&& (b / 32) % 2 == (pixel(chunky, 8 * j + 2) / w as int) % 2
            &&& (b / 16) % 2 == (pixel(chunky, 8 * j + 3) / w as int) % 2
            &&& (b / 8) % 2 == (pixel(chunky, 8 * j + 4) / w as int) % 2
            &&& (b / 4) % 2 == (pixel(chunky, 8 * j + 5) / w as int) % 2
            &&& (b / 2) % 2 == (pixel(chunky, 8 * j + 6) / w as int) % 2
            &&& b % 2 == (pixel(chunky, 8 * j + 7) / w as int) % 2
        }),
{
    lemma_planar_bits(chunky, w, j);
}

/// A request to print is 70 bytes long: the socket as a number of four bytes, the
/// length of the user's name, the first 64 bytes of it, and zeros.
pub proof fn law_print_request_names_the_user(socket_num: u8, name: Seq<u8>)
    ensures
        ({
            let r = print_request(socket_num, name);
            let n = if name.len() <= 64 {
                name.len() as int
            } else {
                64
            };
            &&& r.len() == 70
            &&& r[0] == 0 && r[1] == 0 && r[2] == 0 && r[3] == socket_num
            &&& r[4] == n
            &&& r.subrange(5, 5 + n) == name.take(n)
            &&& forall|k: int| 5 + n <= k < 70 ==> #[trigger] r[k] == 0
        }),
{
    let r = print_request(socket_num, name);
    let n = if name.len() <= 64 {
        name.len() as int
    } else {
        64
    };
    law_bytes_count_by_their_place(0, socket_num as u32);
    assert(r.subrange(5, 5 + n) =~= name.take(n));
}

/// The printer is idle exactly where both of its bits 0x80 and 0x20 are set.
pub proof fn law_idle_is_two_bits(cb: u8)
    ensures
        is_idle(cb) <==> cb >= 128 && (cb / 32) % 2 == 1,
{
    assert((cb & 0xA0 == 0xA0) == (cb >= 128 && (cb / 32) % 2 == 1)) by (bit_vector);
}

/// How a page is to be printed is told by letters: `m2sAH` in colour, `m2sZAH` in
/// the best quality of black, and `m2nZAH` in any other.
pub proof fn law_mode_is_told_by_letters(quality: PrintQuality)
    ensures
        mode_string(true, quality) == seq!['m' as u8, '2' as u8, 's' as u8, 'A' as u8, 'H' as u8],
        quality == PrintQuality::Best ==> mode_string(false, quality) == seq![
            'm' as u8,
            '2' as u8,
            's' as u8,
            'Z' as u8,
            'A' as u8,
            'H' as u8,
        ],
        quality != PrintQuality::Best ==> mode_string(false, quality) == seq![
            'm' as u8,
            '2' as u8,
            'n' as u8,
            'Z' as u8,
            'A' as u8,
            'H' as u8,
        ],
{
}

/// A page starts in one order: the printer is reset, asked whether it is busy and
/// which cartridge it has, told the mode, and told to feed; it gets three seconds
/// to settle, and is waited for.
pub proof fn law_page_starts_in_order(color: bool, quality: PrintQuality)
    ensures
        page_step(PageStage::Fresh, color, quality) == (PageStage::Reset, PageAct::Send(seq!['D' as u8])),
        page_step(PageStage::Reset, color, quality) == (PageStage::BusyAsked, PageAct::Ask('B' as u8)),
        page_step(PageStage::BusyAsked, color, quality) == (PageStage::CartridgeAsked, PageAct::Ask('H' as u8)),
        page_step(PageStage::CartridgeAsked, color, quality) == (
            PageStage::ModeSent,
            PageAct::Send(mode_string(color, quality)),
        ),
        page_step(PageStage::ModeSent, color, quality) == (PageStage::FeedSent, PageAct::Send(seq!['L' as u8])),
        page_step(PageStage::FeedSent, color, quality) == (PageStage::Settled, PageAct::Settle(3000)),
        page_step(PageStage::Settled, color, quality) == (PageStage::Started, PageAct::WaitReady),
        page_step(PageStage::Started, color, quality) == (PageStage::Started, PageAct::Done),
{
}

/// Only a page in colour asks for a cartridge: it is refused without an answer, and
/// where the answer is below 128.
pub proof fn law_colour_needs_its_cartridge(h: u8)
    ensures
        cartridge_refused(false, None) is None,
        cartridge_refused(false, Some(h)) is None,
        cartridge_refused(true, None) == Some(SetupError::NoCartridgeReply),
        h < 128 ==> cartridge_refused(true, Some(h)) == Some(SetupError::BlackCartridge(h)),
        h >= 128 ==> cartridge_refused(true, Some(h)) is None,
{
    assert((h & 0x80 == 0) == (h < 128)) by (bit_vector);
}

/// A session ends in one order: a null, the reset that is asked for by status
/// queries, the attention that ends the job, its answer, and the close; a page that
/// is finished is ejected before.
pub proof fn law_session_ends_in_order()
    ensures
        ({
            let t = teardown_acts();
            &&& t.len() == 5
            &&& t[0] == Act::Send(seq![0u8])
            &&& t[1] == Act::Send(seq![0xFFu8, 0xFFu8, 0xFFu8, 'I' as u8])
            &&& t[2] == Act::Attention(0x0012, seq![0u8])
            &&& t[3] == Act::Swallow(2, 5000)
            &&& t[4] == Act::Close
        }),
        ({
            let f = finish_acts();
            &&& f.len() == 10
            &&& f[0] == Act::WaitIdle(true)
            &&& f[1] == Act::SendMessage(seq![0x0Cu8])
            &&& f[2] == Act::Settle(3000)
            &&& f[3] == Act::WaitIdle(false)
            &&& f[4] == Act::Send(seq!['E' as u8, 'l' as u8])
            &&& f.skip(5) == teardown_acts()
        }),
{
    assert(finish_acts().skip(5) =~= teardown_acts());
}

/// Printers are told apart by what they answer: their identity, and the colour
/// models by their number.
pub proof fn law_printers_have_their_names(submodel: Option<u8>)
    ensures
        model_name_of("SW"@, submodel) == "Apple StyleWriter II"@,
        model_name_of("SW3"@, submodel) == "Apple StyleWriter 1200"@,
        model_name_of("CS"@, Some(1)) == "Apple Color StyleWriter 2400"@,
        model_name_of("CS"@, Some(2)) == "Apple Color StyleWriter 2200"@,
        model_name_of("CS"@, Some(4)) == "Apple Color StyleWriter 1500"@,
        model_name_of("CS"@, Some(5)) == "Apple Color StyleWriter 2500"@,
        submodel is None || submodel == Some(0u8) || submodel == Some(3u8) || submodel->0 > 5 ==> model_name_of(
            "CS"@,
            submodel,
        ) == "Apple Color StyleWriter"@,
        forall|identity: Seq<char>|
            #![trigger model_name_of(identity, submodel)]
            identity != "SW"@ && identity != "SW3"@ && identity != "CS"@ ==> model_name_of(identity, submodel)
                == "Apple StyleWriter"@,
{
    reveal_strlit("SW");
    reveal_strlit("SW3");
    reveal_strlit("CS");
    assert("SW"@[0] == 'S' && "CS"@[0] == 'C' && "SW3"@.len() == 3 && "SW"@.len() == 2 && "CS"@.len() == 2);
}

/// Each plane of a row is told on its own, 365 bytes wide: as its difference from
/// the row before, or as it is. A blank one is told in short, but for the black of
/// a page in colour.
pub proof fn law_planes_are_told_in_turn(planes: Seq<Seq<u8>>, last: Seq<Seq<u8>>, mono: bool, i: int)
    requires
        0 <= i,
    ensures
        plane_code(planes, last, false, mono, i) == scanline_code(planes[i], 365, mono || i != 3),
        plane_code(planes, last, true, mono, i) == scanline_code(xor_bytes(planes[i], last[i]), 365, mono || i != 3),
        row_code(planes, last, true, mono, (i + 1) as nat) == row_code(planes, last, true, mono, i as nat) + plane_code(
            planes,
            last,
            true,
            mono,
            i,
        ),
        row_code(planes, last, false, mono, (i + 1) as nat) == row_code(planes, last, false, mono, i as nat) + plane_code(
            planes,
            last,
            false,
            mono,
            i,
        ),
        row_code(planes, last, mono, mono, 0).len() == 0,
{
}

/// How the printer reads a row: plane after plane; the first row of a band as it
/// is, and each other one laid over the row before.
pub proof fn law_printer_reads_rows(enc: Seq<u8>, planes: nat, count: nat, before: Seq<Seq<u8>>, p: int, k: int)
    requires
        0 < planes,
        0 < count,
        0 <= p < planes,
    ensures
        decode_planes(enc, planes).0.len() == planes,
        decode_planes(enc, planes).0[0] == decode_line(enc, 365).0,
        printed_rows(enc, planes, count, None)[0] == decode_planes(enc, planes).0,
        0 <= k < decode_planes(enc, planes).0[p].len() && k < before[p].len() ==> printed_rows(
            enc,
            planes,
            count,
            Some(before),
        )[0][p][k] == decode_planes(enc, planes).0[p][k] ^ before[p][k],
        printed_rows(enc, planes, count, None).len() == count,
{
    lemma_plane_count(enc, planes);
    lemma_printed_count(enc, planes, count, None);
}

proof fn lemma_plane_count(enc: Seq<u8>, n: nat)
    ensures
        decode_planes(enc, n).0.len() == n,
    decreases n,
{
    if n > 0 {
        let (plane, rest) = decode_line(enc, SW2200_PRINT_ROWBYTES as int);
        lemma_plane_count(rest, (n - 1) as nat);
    }
}

proof fn lemma_printed_count(enc: Seq<u8>, planes: nat, count: nat, before: Option<Seq<Seq<u8>>>)
    ensures
        printed_rows(enc, planes, count, before).len() == count,
    decreases count,
{
    if count > 0 {
        let (read, rest) = decode_planes(enc, planes);
        let row = match before {
            Some(b) => xor_rows(read, b),
            None => read,
        };
        lemma_printed_count(rest, planes, (count - 1) as nat, Some(row));
    }
}

/// What a session does is told by what its actions hold.
pub proof fn law_actions_are_their_fields(a: SessionAction, s: PageStep, batches: Seq<RasterBatch>, i: int)
    ensures
        match a {
            SessionAction::WaitIdle { required } => a@ == Act::WaitIdle(required),
            SessionAction::Send(b) => a@ == Act::Send(b@),
            SessionAction::SendMessage(b) => a@ == Act::SendMessage(b@),
            SessionAction::Settle(ms) => a@ == Act::Settle(ms),
            SessionAction::Attention { code, data } => a@ == Act::Attention(code, data@),
            SessionAction::Swallow { bytes, millis } => a@ == Act::Swallow(bytes, millis),
            SessionAction::Close => a@ == Act::Close,
        },
        match s {
            PageStep::Send(b) => s@ == PageAct::Send(b@),
            PageStep::Ask(q) => s@ == PageAct::Ask(q),
            PageStep::Settle(ms) => s@ == PageAct::Settle(ms),
            PageStep::WaitReady => s@ == PageAct::WaitReady,
            PageStep::Done => s@ == PageAct::Done,
        },
        bands_of(batches).len() == batches.len(),
        0 <= i < batches.len() ==> bands_of(batches)[i].top == batches[i].top && bands_of(batches)[i].bottom
            == batches[i].bottom && bands_of(batches)[i].data == batches[i].data@,
{
}

/// Actions are told in order.
pub proof fn law_actions_are_told_in_order(actions: Seq<SessionAction>, i: int)
    ensures
        acts(actions).len() == actions.len(),
        0 <= i < actions.len() ==> acts(actions)[i] == actions[i]@,
{
}

/// The printer's measures fit together: its lines have 2919 pixels, which take 365
/// bytes; it is given three seconds to settle and is asked twice whether it is
/// ready.
pub proof fn law_printer_has_its_measures()
    ensures
        SW2200_PRINT_WIDTH == 2919,
        SW2200_PRINT_ROWBYTES == (SW2200_PRINT_WIDTH + 7) / 8,
        MAX_BATCH_BYTES == 8192,
        MAX_BAND_ROWS == 400,
        MECHANISM_SETTLE_MILLIS == 3000,
        MAX_IDENTITY_BYTES == 32,
        BUFFER_READY_CODE == 6,
        BUFFER_QUERIES == 2,
        BUFFER_READY_MILLIS == 3000,
{
}

/// How a line is coded: from its first byte on, a run of black or white by its
/// count, white at the end of the line as white to the end of the width, and
/// anything else as it is, up to the next run.
pub proof fn law_line_is_coded_run_by_run(src: Seq<u8>, width: int, s: int)
    requires
        0 <= s < src.len(),
    ensures
        ({
            let e = run_end(src, s, s);
            let b = literal_end(src, s, s);
            &&& src[s] == 0xFF ==> line_code(src, width, s) == seq![(0xC0 + (e - s)) as u8] + line_code(src, width, e)
            &&& src[s] == 0 && e < src.len() ==> line_code(src, width, s) == seq![(0x80 + (e - s)) as u8] + line_code(
                src,
                width,
                e,
            )
            &&& src[s] == 0 && e >= src.len() ==> line_code(src, width, s) == white_fill(width - s)
            &&& src[s] != 0 && src[s] != 0xFF ==> line_code(src, width, s) == seq![(b - s) as u8] + src.subrange(s, b)
                + line_code(src, width, b)
        }),
        line_code(src, width, src.len() as int) == white_fill(width - src.len()),
{
    law_codes_are_for_at_most_62(src, s, s);
    let b = literal_end(src, s, s);
    let nothing = Seq::<u8>::empty();
    if src[s] == 0xFF || src[s] == 0 {
        assert(b == s);
        let e = run_end(src, s, s);
        let run = seq![if src[s] == 0xFF { (0xC0 + (e - s)) as u8 } else { (0x80 + (e - s)) as u8 }];
        assert(nothing + run + line_code(src, width, e) =~= run + line_code(src, width, e));
        assert(nothing + white_fill(width - s) =~= white_fill(width - s));
    } else {
        assert(b > s);
        let piece = seq![(b - s) as u8] + src.subrange(s, b);
        if b < src.len() && (src[b] == 0 || src[b] == 0xFF) {
            assert(literal_end(src, b, b) == b);
            let e = run_end(src, b, b);
            let run = seq![if src[b] == 0xFF { (0xC0 + (e - b)) as u8 } else { (0x80 + (e - b)) as u8 }];
            let rest = line_code(src, width, e);
            assert(piece + run + rest =~= piece + (run + rest));
            assert(nothing + run + rest =~= run + rest);
            assert(nothing + white_fill(width - b) =~= white_fill(width - b));
        }
    }
}

} // verus!
