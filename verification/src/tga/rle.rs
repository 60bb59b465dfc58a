//! The run-length encoded pixel stream: packets of up to 128 pixels, each
//! either a literal run or one pixel and a repeat count.
use crate::tga::TGAImage;
use vstd::arithmetic::mul::{lemma_mul_inequality, lemma_mul_is_distributive_add_other_way};
use vstd::prelude::*;

verus! {

/// No packet holds more pixels than this.
pub const MAX_CHUNK_LENGTH: u64 = 128;

/// The bytes of pixel `i` in a buffer of `bpp`-byte pixels.
pub open spec fn pixel_at(data: Seq<u8>, bpp: int, i: int) -> Seq<u8> {
    data.subrange(i * bpp, i * bpp + bpp)
}

/// Pixels `i` and `i + 1` hold the same bytes.
pub open spec fn same_as_next(data: Seq<u8>, bpp: int, i: int) -> bool {
    pixel_at(data, bpp, i) == pixel_at(data, bpp, i + 1)
}

/// The most pixels the run that starts at `start` may hold: what is left
/// of the `n` pixels, at most 128.
pub open spec fn run_cap(n: int, start: int) -> int {
    if n - start < MAX_CHUNK_LENGTH as int {
        n - start
    } else {
        MAX_CHUNK_LENGTH as int
    }
}

/// The run that starts at `start` is a literal one: its first two pixels
/// differ, or it is the last pixel.
pub open spec fn run_is_raw(data: Seq<u8>, bpp: int, n: int, start: int) -> bool {
    run_cap(n, start) < 2 || !same_as_next(data, bpp, start)
}

/// Length of a literal run that holds `len` pixels so far. It grows until
/// its last pixel equals the one after it, which ends the run one pixel
/// earlier so that the equal pair opens the next run, or until `cap`.
pub open spec fn raw_scan(data: Seq<u8>, bpp: int, start: int, len: int, cap: int) -> int
    decreases cap - len,
{
    if len >= cap {
        len
    } else if len >= 2 && same_as_next(data, bpp, start + len - 1) {
        len - 1
    } else {
        raw_scan(data, bpp, start, len + 1, cap)
    }
}

/// Length of a repeat run that holds `len` pixels so far. It grows while
/// the pixel after its last one is the same, up to `cap`.
pub open spec fn repeat_scan(data: Seq<u8>, bpp: int, start: int, len: int, cap: int) -> int
    decreases cap - len,
{
    if len < cap && same_as_next(data, bpp, start + len - 1) {
        repeat_scan(data, bpp, start, len + 1, cap)
    } else {
        len
    }
}

/// Number of pixels in the run that starts at pixel `start`.
pub open spec fn run_len(data: Seq<u8>, bpp: int, n: int, start: int) -> int {
    if run_is_raw(data, bpp, n, start) {
        raw_scan(data, bpp, start, 1, run_cap(n, start))
    } else {
        repeat_scan(data, bpp, start, 2, run_cap(n, start))
    }
}

/// The packet for the run that starts at pixel `start`: a literal run is
/// its length less one and then its pixels, a repeat run is its length
/// plus 127 and then its pixel once.
pub open spec fn packet(data: Seq<u8>, bpp: int, n: int, start: int) -> Seq<u8> {
    let len = run_len(data, bpp, n, start);
    if run_is_raw(data, bpp, n, start) {
        seq![(len - 1) as u8] + data.subrange(start * bpp, (start + len) * bpp)
    } else {
        seq![(len + 127) as u8] + pixel_at(data, bpp, start)
    }
}

/// The packets for pixels `start..n`, in order.
pub open spec fn rle_encode(data: Seq<u8>, bpp: int, n: int, start: int) -> Seq<u8>
    decreases n - start,
{
    if start >= n {
        Seq::empty()
    } else {
        proof {
            lemma_run_len_bounds(data, bpp, n, start);
        }
        packet(data, bpp, n, start) + rle_encode(
            data,
            bpp,
            n,
            start + run_len(data, bpp, n, start),
        )
    }
}

/// `count` copies of `pixel`, one after the other.
pub open spec fn repeated(pixel: Seq<u8>, count: int) -> Seq<u8>
    decreases count,
{
    if count <= 0 {
        Seq::empty()
    } else {
        repeated(pixel, count - 1) + pixel
    }
}

/// Number of pixels that the packet at the start of `stream` stands for:
/// the low seven bits of its first byte, plus one.
pub open spec fn packet_count(stream: Seq<u8>) -> int {
    stream[0] % 128 + 1
}

/// The packet at the start of `stream` is a repeat packet: the top bit
/// of its first byte is set.
pub open spec fn packet_repeats(stream: Seq<u8>) -> bool {
    stream[0] >= 128
}

/// Number of bytes of the packet at the start of `stream`, its first
/// byte included.
pub open spec fn packet_size(stream: Seq<u8>, bpp: int) -> int {
    if packet_repeats(stream) {
        1 + bpp
    } else {
        1 + packet_count(stream) * bpp
    }
}

/// The pixel bytes that the packet at the start of `stream` stands for.
pub open spec fn packet_pixels(stream: Seq<u8>, bpp: int) -> Seq<u8> {
    if packet_repeats(stream) {
        repeated(stream.subrange(1, 1 + bpp), packet_count(stream))
    } else {
        stream.subrange(1, 1 + packet_count(stream) * bpp)
    }
}

/// The pixel bytes that the packets at the start of `stream` stand for,
/// read until at least `pixels` pixels are there; `None` when the stream
/// ends first. A packet is read whole, so the last one may bring more
/// pixels than were asked for.
pub open spec fn rle_decode(stream: Seq<u8>, bpp: int, pixels: int) -> Option<Seq<u8>>
    decreases pixels,
{
    if pixels <= 0 {
        Some(Seq::empty())
    } else if stream.len() == 0 || stream.len() < packet_size(stream, bpp) {
        None
    } else if pixels <= packet_count(stream) {
        Some(packet_pixels(stream, bpp))
    } else {
        match rle_decode(
            stream.skip(packet_size(stream, bpp)),
            bpp,
            pixels - packet_count(stream),
        ) {
            Some(rest) => Some(packet_pixels(stream, bpp) + rest),
            None => None,
        }
    }
}

proof fn lemma_raw_scan_bounds(data: Seq<u8>, bpp: int, start: int, len: int, cap: int)
    requires
        1 <= len <= cap,
    ensures
        1 <= raw_scan(data, bpp, start, len, cap) <= cap,
    decreases cap - len,
{
    if len < cap && !(len >= 2 && same_as_next(data, bpp, start + len - 1)) {
        lemma_raw_scan_bounds(data, bpp, start, len + 1, cap);
    }
}

proof fn lemma_repeat_scan_bounds(data: Seq<u8>, bpp: int, start: int, len: int, cap: int)
    requires
        1 <= len <= cap,
    ensures
        len <= repeat_scan(data, bpp, start, len, cap) <= cap,
    decreases cap - len,
{
    if len < cap && same_as_next(data, bpp, start + len - 1) {
        lemma_repeat_scan_bounds(data, bpp, start, len + 1, cap);
    }
}

/// Every run holds at least one pixel, at most 128, and none past the
/// last; a repeat run holds at least two.
pub proof fn lemma_run_len_bounds(data: Seq<u8>, bpp: int, n: int, start: int)
    requires
        start < n,
    ensures
        1 <= run_len(data, bpp, n, start) <= run_cap(n, start),
        run_cap(n, start) <= 128,
        start + run_len(data, bpp, n, start) <= n,
        !run_is_raw(data, bpp, n, start) ==> 2 <= run_len(data, bpp, n, start),
{
    let cap = run_cap(n, start);
    if run_is_raw(data, bpp, n, start) {
        lemma_raw_scan_bounds(data, bpp, start, 1, cap);
    } else {
        lemma_repeat_scan_bounds(data, bpp, start, 2, cap);
    }
}

/// All pixels of a repeat scan equal the first.
proof fn lemma_repeat_scan_same(data: Seq<u8>, bpp: int, start: int, len: int, cap: int)
    requires
        1 <= len <= cap,
        forall|i: int|
            start <= i < start + len ==> #[trigger] pixel_at(data, bpp, i) == pixel_at(
                data,
                bpp,
                start,
            ),
    ensures
        forall|i: int|
            start <= i < start + repeat_scan(data, bpp, start, len, cap) ==> #[trigger] pixel_at(
                data,
                bpp,
                i,
            ) == pixel_at(data, bpp, start),
    decreases cap - len,
{
    if len < cap && same_as_next(data, bpp, start + len - 1) {
        assert(pixel_at(data, bpp, start + len - 1) == pixel_at(data, bpp, start));
        assert(start + len - 1 + 1 == start + len);
        lemma_repeat_scan_same(data, bpp, start, len + 1, cap);
    }
}

/// Two neighbouring ranges of a sequence, joined, are the range over both.
proof fn lemma_subrange_join(s: Seq<u8>, a: int, b: int, c: int)
    requires
        0 <= a <= b <= c <= s.len(),
    ensures
        s.subrange(a, b) + s.subrange(b, c) == s.subrange(a, c),
{
    assert(s.subrange(a, b) + s.subrange(b, c) =~= s.subrange(a, c));
}

/// `count` copies of the pixel at `start` are the bytes of `count` pixels
/// from `start` on, when all of those equal the first.
proof fn lemma_repeated_is_range(data: Seq<u8>, bpp: int, start: int, count: int)
    requires
        0 <= bpp,
        0 <= start,
        0 <= count,
        (start + count) * bpp <= data.len(),
        forall|i: int|
            start <= i < start + count ==> #[trigger] pixel_at(data, bpp, i) == pixel_at(
                data,
                bpp,
                start,
            ),
    ensures
        repeated(pixel_at(data, bpp, start), count) == data.subrange(
            start * bpp,
            (start + count) * bpp,
        ),
    decreases count,
{
    let from = start * bpp;
    assert(0 <= from) by (nonlinear_arith)
        requires
            0 <= start,
            0 <= bpp,
            from == start * bpp,
    ;
    if count == 0 {
        assert(data.subrange(from, from) =~= Seq::<u8>::empty());
    } else {
        let last = start + count - 1;
        let mid = last * bpp;
        let to = (start + count) * bpp;
        assert(to == mid + bpp && from <= mid) by (nonlinear_arith)
            requires
                to == (start + count) * bpp,
                mid == last * bpp,
                from == start * bpp,
                last == start + count - 1,
                1 <= count,
                0 <= bpp,
        ;
        lemma_repeated_is_range(data, bpp, start, count - 1);
        assert(pixel_at(data, bpp, last) == pixel_at(data, bpp, start));
        assert(pixel_at(data, bpp, last) == data.subrange(mid, to));
        lemma_subrange_join(data, from, mid, to);
    }
}

/// Decoding what the encoder wrote for pixels `start..n` gives those
/// pixels back, whatever follows the packets in the stream.
pub proof fn lemma_rle_round_trip(data: Seq<u8>, bpp: int, n: int, start: int, tail: Seq<u8>)
    requires
        0 <= bpp,
        0 <= start <= n,
        n * bpp <= data.len(),
    ensures
        rle_decode(rle_encode(data, bpp, n, start) + tail, bpp, n - start) == Some(
            data.subrange(start * bpp, n * bpp),
        ),
    decreases n - start,
{
    if start >= n {
        assert(data.subrange(start * bpp, n * bpp) =~= Seq::<u8>::empty());
    } else {
        lemma_run_len_bounds(data, bpp, n, start);
        let len = run_len(data, bpp, n, start);
        let next = start + len;
        let rest = rle_encode(data, bpp, n, next);
        let stream = rle_encode(data, bpp, n, start) + tail;
        lemma_rle_round_trip(data, bpp, n, next, tail);
        lemma_mul_is_distributive_add_other_way(bpp, start, len);
        assert(next * bpp <= n * bpp) by {
            lemma_mul_inequality(next, n, bpp);
        }
        assert(0 <= start * bpp && 0 <= len * bpp) by (nonlinear_arith)
            requires
                0 <= start,
                0 <= len,
                0 <= bpp,
        ;
        let run = data.subrange(start * bpp, next * bpp);
        assert(run + data.subrange(next * bpp, n * bpp) =~= data.subrange(start * bpp, n * bpp));
        if next == n {
            assert(data.subrange(next * bpp, n * bpp) =~= Seq::<u8>::empty());
            assert(run =~= data.subrange(start * bpp, n * bpp));
        }
        if run_is_raw(data, bpp, n, start) {
            let head = (len - 1) as u8;
            assert(head % 128 + 1 == len && head < 128);
            assert(stream =~= seq![head] + run + (rest + tail));
            assert(stream[0] == head);
            assert(packet_size(stream, bpp) == 1 + len * bpp);
            assert(stream.subrange(1, 1 + len * bpp) =~= run);
            assert(stream.skip(1 + len * bpp) =~= rest + tail);
            assert(packet_pixels(stream, bpp) == run);
        } else {
            let head = (len + 127) as u8;
            assert(head % 128 + 1 == len && head >= 128);
            let pixel = pixel_at(data, bpp, start);
            assert(start * bpp + bpp <= next * bpp) by (nonlinear_arith)
                requires
                    next * bpp == start * bpp + len * bpp,
                    1 <= len,
                    0 <= bpp,
            ;
            assert(pixel.len() == bpp);
            assert(stream =~= seq![head] + pixel + (rest + tail));
            assert(stream[0] == head);
            assert(packet_size(stream, bpp) == 1 + bpp);
            assert(stream.subrange(1, 1 + bpp) =~= pixel);
            assert(stream.skip(1 + bpp) =~= rest + tail);
            assert(pixel_at(data, bpp, start + 1) == pixel);
            lemma_repeat_scan_same(data, bpp, start, 2, run_cap(n, start));
            lemma_repeated_is_range(data, bpp, start, len);
            assert(packet_pixels(stream, bpp) == run);
        }
    }
}

/// `count` copies of a pixel take `count` times its bytes.
proof fn lemma_repeated_len(pixel: Seq<u8>, count: int)
    requires
        0 <= count,
    ensures
        repeated(pixel, count).len() == count * pixel.len(),
    decreases count,
{
    if count > 0 {
        lemma_repeated_len(pixel, count - 1);
        lemma_mul_is_distributive_add_other_way(pixel.len() as int, count - 1, 1);
    } else {
        assert(0 * pixel.len() == 0);
    }
}

/// What is decoded holds at least the pixels that were asked for.
pub proof fn lemma_rle_decode_len(stream: Seq<u8>, bpp: int, pixels: int)
    requires
        0 <= bpp,
        rle_decode(stream, bpp, pixels) is Some,
    ensures
        pixels >= 0 ==> rle_decode(stream, bpp, pixels)->0.len() >= pixels * bpp,
    decreases pixels,
{
    if pixels > 0 {
        let count = packet_count(stream);
        let here = packet_pixels(stream, bpp);
        assert(0 <= count * bpp) by (nonlinear_arith)
            requires
                0 <= count,
                0 <= bpp,
        ;
        if packet_repeats(stream) {
            lemma_repeated_len(stream.subrange(1, 1 + bpp), count);
        }
        assert(here.len() == count * bpp);
        if pixels <= count {
            lemma_mul_inequality(pixels, count, bpp);
        } else {
            lemma_rle_decode_len(stream.skip(packet_size(stream, bpp)), bpp, pixels - count);
            lemma_mul_is_distributive_add_other_way(bpp, pixels - count, count);
        }
    } else {
        assert(0 * bpp == 0);
    }
}

/// Appends `data[from..to]` to `out`.
pub(crate) fn push_range(out: &mut Vec<u8>, data: &[u8], from: usize, to: usize)
    requires
        from <= to <= data@.len(),
    ensures
        final(out)@ == old(out)@ + data@.subrange(from as int, to as int),
{
    let mut i: usize = from;
    while i < to
        invariant
            from <= i <= to <= data@.len(),
            out@ == old(out)@ + data@.subrange(from as int, i as int),
        decreases to - i,
    {
        out.push(data[i]);
        i += 1;
        assert(out@ =~= old(out)@ + data@.subrange(from as int, i as int));
    }
    assert(out@ =~= old(out)@ + data@.subrange(from as int, to as int));
}

/// Whether the `bpp` bytes at `at` equal the `bpp` bytes after them.
fn same_pixels(data: &[u8], at: usize, bpp: usize) -> (same: bool)
    requires
        at + 2 * bpp <= data@.len(),
    ensures
        same == (data@.subrange(at as int, at + bpp) == data@.subrange(at + bpp, at + 2 * bpp)),
{
    let mut t: usize = 0;
    while t < bpp
        invariant
            t <= bpp,
            at + 2 * bpp <= data.len(),
            forall|k: int| at <= k < at + t ==> #[trigger] data@[k] == data@[k + bpp],
        decreases bpp - t,
    {
        if data[at + t] != data[at + t + bpp] {
            assert(data@.subrange(at as int, at + bpp)[t as int] != data@.subrange(
                at + bpp,
                at + 2 * bpp,
            )[t as int]);
            return false;
        }
        t += 1;
    }
    let ghost first = data@.subrange(at as int, at + bpp);
    let ghost second = data@.subrange(at + bpp, at + 2 * bpp);
    assert forall|k: int| 0 <= k < bpp implies first[k] == second[k] by {
        assert(data@[at + k] == data@[at + k + bpp]);
    }
    assert(first =~= second);
    true
}

impl TGAImage {
    /// Appends the run-length encoded pixels to `out`, scanning them from
    /// the first row to the last and from left to right.
    pub fn unload_rle_data(&self, out: &mut Vec<u8>)
        ensures
            final(out)@ == old(out)@ + rle_encode(
                self@.data,
                self@.bpp,
                self@.width * self@.height,
                0,
            ),
    {
        proof {
            use_type_invariant(self);
        }
        let ghost data = self@.data;
        let ghost gbpp = self@.bpp;
        let bpp: usize = self.bpp as usize;
        let w: u64 = self.w as u64;
        let h: u64 = self.h as u64;
        assert(w * h <= 0x8000_0000 * 0x8000_0000) by (nonlinear_arith)
            requires
                w < 0x8000_0000,
                h < 0x8000_0000,
        ;
        let npixels: u64 = w * h;
        let ghost n = npixels as int;
        let mut curpix: u64 = 0;
        while curpix < npixels
            invariant
                curpix <= npixels,
                n == npixels,
                bpp == gbpp,
                gbpp == self@.bpp,
                data == self@.data,
                data == self.data@,
                n * gbpp <= self.data.len(),
                out@ + rle_encode(data, gbpp, n, curpix as int) == old(out)@ + rle_encode(
                    data,
                    gbpp,
                    n,
                    0,
                ),
            decreases npixels - curpix,
        {
            let ghost start = curpix as int;
            let ghost cap = run_cap(n, start);
            proof {
                lemma_run_len_bounds(data, gbpp, n, start);
                assert(start * gbpp <= n * gbpp) by {
                    lemma_mul_inequality(start, n, gbpp);
                }
                assert(0 <= start * gbpp) by (nonlinear_arith)
                    requires
                        0 <= start,
                        0 <= gbpp,
                ;
            }
            let chunkstart: usize = if bpp == 0 {
                assert(start * gbpp == 0) by (nonlinear_arith)
                    requires
                        gbpp == 0,
                ;
                0
            } else {
                assert(start <= start * gbpp) by (nonlinear_arith)
                    requires
                        0 <= start,
                        1 <= gbpp,
                ;
                curpix as usize * bpp
            };
            let mut curbyte: usize = chunkstart;
            let mut run_length: u64 = 1;
            let mut raw: bool = true;
            while curpix + run_length < npixels && run_length < MAX_CHUNK_LENGTH
                invariant_except_break
                    run_length >= 2 ==> raw == run_is_raw(data, gbpp, n, start),
                    run_length == 1 ==> raw,
                    run_len(data, gbpp, n, start) == (if run_length == 1 {
                        run_len(data, gbpp, n, start)
                    } else if raw {
                        raw_scan(data, gbpp, start, run_length as int, cap)
                    } else {
                        repeat_scan(data, gbpp, start, run_length as int, cap)
                    }),
                    curbyte == (start + run_length - 1) * gbpp,
                invariant
                    1 <= run_length <= cap <= 128,
                    start == curpix,
                    cap == run_cap(n, start),
                    curpix < npixels,
                    n == npixels,
                    bpp == gbpp,
                    data == self.data@,
                    n * gbpp <= self.data.len(),
                    chunkstart == start * gbpp,
                ensures
                    raw == run_is_raw(data, gbpp, n, start),
                    run_length == run_len(data, gbpp, n, start),
                decreases MAX_CHUNK_LENGTH - run_length,
            {
                let ghost last = start + run_length - 1;
                proof {
                    lemma_mul_is_distributive_add_other_way(gbpp, last, 1);
                    lemma_mul_is_distributive_add_other_way(gbpp, last, 2);
                    assert((last + 2) * gbpp <= n * gbpp) by {
                        lemma_mul_inequality(last + 2, n, gbpp);
                    }
                }
                let succ_eq: bool = same_pixels(self.data.as_slice(), curbyte, bpp);
                assert(succ_eq == same_as_next(data, gbpp, last));
                curbyte += bpp;
                if run_length == 1 {
                    raw = !succ_eq;
                }
                if raw && succ_eq {
                    run_length -= 1;
                    break ;
                }
                if !raw && !succ_eq {
                    break ;
                }
                run_length += 1;
            }
            proof {
                lemma_mul_is_distributive_add_other_way(gbpp, start, run_length as int);
                assert((start + run_length) * gbpp <= n * gbpp) by {
                    lemma_mul_inequality(start + run_length, n, gbpp);
                }
                assert(0 <= run_length * gbpp) by (nonlinear_arith)
                    requires
                        0 <= run_length,
                        0 <= gbpp,
                ;
                assert(start * gbpp + gbpp <= (start + run_length) * gbpp) by (nonlinear_arith)
                    requires
                        (start + run_length) * gbpp == start * gbpp + run_length * gbpp,
                        1 <= run_length,
                        0 <= gbpp,
                ;
            }
            let ghost before = out@;
            if raw {
                out.push((run_length - 1) as u8);
                assert(run_length * bpp <= 128 * 255) by (nonlinear_arith)
                    requires
                        run_length <= 128,
                        bpp <= 255,
                ;
                let nbytes: usize = run_length as usize * bpp;
                push_range(out, self.data.as_slice(), chunkstart, chunkstart + nbytes);
            } else {
                out.push((run_length + 127) as u8);
                push_range(out, self.data.as_slice(), chunkstart, chunkstart + bpp);
            }
            assert(out@ =~= before + packet(data, gbpp, n, start));
            assert(before + rle_encode(data, gbpp, n, start) =~= out@ + rle_encode(
                data,
                gbpp,
                n,
                start + run_length,
            ));
            curpix += run_length;
        }
        assert(rle_encode(data, gbpp, n, n) =~= Seq::<u8>::empty());
        assert(out@ =~= old(out)@ + rle_encode(data, gbpp, n, 0));
    }

    /// Reads run-length encoded packets from the start of `stream` until at
    /// least `pixels` pixels of `bpp` bytes are there. `None` when the
    /// stream ends before that.
    pub fn load_rle_data(stream: &[u8], pixels: u64, bpp: u8) -> (r: Option<Vec<u8>>)
        ensures
            r is Some <==> rle_decode(stream@, bpp as int, pixels as int) is Some,
            r is Some ==> r->0@ == rle_decode(stream@, bpp as int, pixels as int)->0,
    {
        let pixel_size: usize = bpp as usize;
        let stream_len: usize = stream.len();
        let mut data: Vec<u8> = Vec::new();
        let mut pos: usize = 0;
        let mut remaining: u64 = pixels;
        let ghost whole = rle_decode(stream@, bpp as int, pixels as int);
        assert(stream@.skip(0) =~= stream@);
        while remaining > 0
            invariant
                pos <= stream_len,
                stream_len == stream@.len(),
                pixel_size == bpp,
                whole == rle_decode(stream@, bpp as int, pixels as int),
                whole == match rle_decode(stream@.skip(pos as int), bpp as int, remaining as int) {
                    Some(rest) => Some(data@ + rest),
                    None => None,
                },
            decreases remaining,
        {
            let ghost here = stream@.skip(pos as int);
            if pos >= stream_len {
                assert(here.len() == 0);
                return None;
            }
            let chunk_header: u8 = stream[pos];
            assert(here[0] == chunk_header);
            pos += 1;
            let low: u8 = chunk_header & 0x7F;
            let high: u8 = chunk_header & 0x80;
            assert(low == chunk_header % 128 && (high != 0) == (chunk_header >= 128))
                by (bit_vector)
                requires
                    low == chunk_header & 0x7F,
                    high == chunk_header & 0x80,
            ;
            let count: u64 = low as u64 + 1;
            assert(count == packet_count(here));
            let ghost sofar = data@;
            if high != 0 {
                assert(packet_size(here, bpp as int) == 1 + bpp);
                if stream_len - pos < pixel_size {
                    return None;
                }
                let ghost pixel = here.subrange(1, 1 + bpp);
                assert(pixel =~= stream@.subrange(pos as int, pos + pixel_size));
                let mut done: u64 = 0;
                while done < count
                    invariant
                        done <= count,
                        pos + pixel_size <= stream_len,
                        stream_len == stream@.len(),
                        pixel == stream@.subrange(pos as int, pos + pixel_size),
                        data@ == sofar + repeated(pixel, done as int),
                    decreases count - done,
                {
                    push_range(&mut data, stream, pos, pos + pixel_size);
                    done += 1;
                    assert(data@ =~= sofar + repeated(pixel, done as int));
                }
                pos += pixel_size;
                assert(here.skip(1 + bpp) =~= stream@.skip(pos as int));
            } else {
                assert(count * pixel_size <= 128 * 255) by (nonlinear_arith)
                    requires
                        count <= 128,
                        pixel_size <= 255,
                ;
                let nbytes: usize = count as usize * pixel_size;
                assert(packet_size(here, bpp as int) == 1 + nbytes);
                if stream_len - pos < nbytes {
                    return None;
                }
                push_range(&mut data, stream, pos, pos + nbytes);
                assert(here.subrange(1, 1 + count * bpp) =~= stream@.subrange(
                    pos as int,
                    pos + nbytes,
                ));
                pos += nbytes;
                assert(here.skip(1 + count * bpp) =~= stream@.skip(pos as int));
            }
            assert(data@ == sofar + packet_pixels(here, bpp as int));
            assert(stream@.skip(pos as int) == here.skip(packet_size(here, bpp as int)));
            let ghost need = remaining as int;
            remaining = if count >= remaining {
                0
            } else {
                remaining - count
            };
            proof {
                let after = stream@.skip(pos as int);
                if need <= count {
                    assert(whole == Some(sofar + packet_pixels(here, bpp as int)));
                    assert(data@ + Seq::<u8>::empty() =~= data@);
                } else {
                    match rle_decode(after, bpp as int, remaining as int) {
                        Some(rest) => {
                            assert(sofar + (packet_pixels(here, bpp as int) + rest) =~= data@
                                + rest);
                        },
                        None => {},
                    }
                }
            }
        }
        assert(data@ + Seq::<u8>::empty() =~= data@);
        Some(data)
    }
}

} // verus!
