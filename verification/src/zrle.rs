//! The ZRLE decoder: a bit reader over the inflated record, CPIXEL
//! compaction, palette and run-length subencodings, dispatched per 64 by 64
//! tile in row-major order.
use crate::error::Error;
use crate::protocol::PixelFormat;
use crate::rect::Rect;
use crate::zlib;
use vstd::arithmetic::div_mod::{lemma_fundamental_div_mod, lemma_fundamental_div_mod_converse, lemma_mod_bound};
use vstd::prelude::*;

verus! {

/// The `count` bits of `b` starting `start` bits below the most significant
/// end, right-aligned.
pub open spec fn bits_of(b: u8, start: int, count: int) -> u8 {
    (b >> ((8 - start - count) as u8)) & (((1u16 << (count as u16)) - 1) as u8)
}

/// Reads bits most-significant-first out of a byte buffer, one octet at a
/// time; byte reads are only legal on octet boundaries.
pub struct BitReader {
    pub data: Vec<u8>,
    pub pos: usize,
    pub buffer: u8,
    pub position: usize,
}

impl BitReader {
    pub open spec fn wf(&self) -> bool {
        self.pos <= self.data@.len() && self.position <= 8
    }

    pub fn new(data: Vec<u8>) -> (r: BitReader)
        ensures
            r.data == data,
            r.pos == 0,
            r.buffer == 0,
            r.position == 8,
            r.wf(),
    {
        BitReader { data, pos: 0, buffer: 0, position: 8 }
    }

    /// The buffer, aligned: give the data back.
    pub fn into_inner(self) -> (r: Result<Vec<u8>, Error>)
        ensures
            match r {
                Ok(d) => self.position == 8 && d == self.data,
                Err(e) => self.position != 8 && e is Unexpected,
            },
    {
        if self.position == 8 {
            Ok(self.data)
        } else {
            Err(Error::Unexpected("leftover ZRLE bit data"))
        }
    }

    /// Whether every byte of the buffer has been consumed.
    pub fn fully_consumed(&self) -> (r: bool)
        ensures
            r == (self.pos == self.data@.len()),
    {
        self.pos == self.data.len()
    }

    /// Whether the reader stands on an octet boundary.
    pub fn aligned(&self) -> (r: bool)
        ensures
            r == (self.position == 8),
    {
        self.position == 8
    }

    /// Read `count` bits, most significant first, from within one octet; a
    /// read that would straddle two octets is an error.
    pub fn read_bits(&mut self, count: usize) -> (r: Result<u8, Error>)
        requires
            1 <= count <= 8,
            old(self).wf(),
        ensures
            final(self).wf(),
            final(self).data == old(self).data,
            match r {
                Ok(v) => ({
                    let loaded = old(self).position == 8;
                    let buf = if loaded {
                        old(self).data@[old(self).pos as int]
                    } else {
                        old(self).buffer
                    };
                    let base = if loaded {
                        0int
                    } else {
                        old(self).position as int
                    };
                    &&& (loaded ==> old(self).pos < old(self).data@.len())
                    &&& final(self).pos == if loaded {
                        old(self).pos + 1
                    } else {
                        old(self).pos as int
                    }
                    &&& final(self).buffer == buf
                    &&& base + count <= 8
                    &&& final(self).position == base + count
                    &&& v == bits_of(buf, base, count as int)
                }),
                Err(e) => ({
                    if old(self).position == 8 && old(self).pos == old(self).data@.len() {
                        e is Io && *final(self) == *old(self)
                    } else {
                        let base = if old(self).position == 8 {
                            0int
                        } else {
                            old(self).position as int
                        };
                        base + count > 8 && e is Unexpected
                    }
                }),
            },
    {
        if self.position == 8 {
            if self.pos == self.data.len() {
                return Err(Error::Io("unexpected end of ZRLE data".to_string()));
            }
            self.buffer = self.data[self.pos];
            self.pos = self.pos + 1;
            self.position = 0;
        }
        if self.position + count <= 8 {
            let shift = 8 - (count + self.position);
            proof {
                let c = count as u16;
                assert(c <= 8 ==> (1u16 << c) >= 1) by (bit_vector);
            }
            let mask = ((1u16 << (count as u16)) - 1) as u8;
            let result = (self.buffer >> (shift as u8)) & mask;
            self.position = self.position + count;
            Ok(result)
        } else {
            Err(Error::Unexpected("unaligned ZRLE bit read"))
        }
    }

    /// Read one bit.
    pub fn read_bit(&mut self) -> (r: Result<bool, Error>)
        requires
            old(self).wf(),
        ensures
            final(self).wf(),
            final(self).data == old(self).data,
            match r {
                Ok(v) => ({
                    let loaded = old(self).position == 8;
                    let buf = if loaded {
                        old(self).data@[old(self).pos as int]
                    } else {
                        old(self).buffer
                    };
                    let base = if loaded {
                        0int
                    } else {
                        old(self).position as int
                    };
                    &&& (loaded ==> old(self).pos < old(self).data@.len())
                    &&& final(self).pos == if loaded {
                        old(self).pos + 1
                    } else {
                        old(self).pos as int
                    }
                    &&& final(self).buffer == buf
                    &&& base + 1 <= 8
                    &&& final(self).position == base + 1
                    &&& v == (bits_of(buf, base, 1) != 0)
                }),
                Err(e) => e is Io || e is Unexpected,
            },
    {
        match self.read_bits(1) {
            Ok(v) => Ok(v != 0),
            Err(e) => Err(e),
        }
    }

    /// Advance to the next octet boundary.
    pub fn align(&mut self)
        ensures
            final(self).position == 8,
            final(self).data == old(self).data,
            final(self).pos == old(self).pos,
            final(self).buffer == old(self).buffer,
    {
        self.position = 8;
    }

    /// Read `n` whole bytes; only legal on an octet boundary.
    pub fn read_bytes(&mut self, n: usize) -> (r: Result<Vec<u8>, Error>)
        requires
            old(self).wf(),
        ensures
            final(self).wf(),
            final(self).data == old(self).data,
            final(self).buffer == old(self).buffer,
            final(self).position == old(self).position,
            match r {
                Ok(v) => old(self).position == 8 && old(self).pos + n <= old(self).data@.len()
                    && final(self).pos == old(self).pos + n && v@ == old(self).data@.subrange(
                    old(self).pos as int,
                    old(self).pos + n,
                ),
                Err(e) => final(self).pos == old(self).pos && ((old(self).position != 8
                    && e is Unexpected) || (old(self).position == 8 && old(self).pos + n > old(self).data@.len() && e is Io)),
            },
    {
        if self.position != 8 {
            return Err(Error::Unexpected("unaligned ZRLE byte read"));
        }
        if self.data.len() - self.pos < n {
            return Err(Error::Io("unexpected end of ZRLE data".to_string()));
        }
        let mut v: Vec<u8> = Vec::new();
        let start = self.pos;
        let mut j: usize = 0;
        while j < n
            invariant
                j <= n,
                start + n <= self.data@.len(),
                self.data@.len() <= usize::MAX,
                self.pos == start + j,
                self.position == 8,
                self.buffer == old(self).buffer,
                self.data == old(self).data,
                v@ =~= self.data@.subrange(start as int, start + j),
            decreases n - j,
        {
            v.push(self.data[self.pos]);
            self.pos = self.pos + 1;
            proof {
                assert(v@ =~= self.data@.subrange(start as int, start + j + 1));
            }
            j += 1;
        }
        Ok(v)
    }

    /// Read one whole byte; only legal on an octet boundary.
    pub fn read_byte(&mut self) -> (r: Result<u8, Error>)
        requires
            old(self).wf(),
        ensures
            final(self).wf(),
            final(self).data == old(self).data,
            final(self).buffer == old(self).buffer,
            final(self).position == old(self).position,
            match r {
                Ok(v) => old(self).position == 8 && old(self).pos < old(self).data@.len() && final(self).pos == old(self).pos + 1 && v == old(self).data@[old(self).pos as int],
                Err(e) => final(self).pos == old(self).pos && ((old(self).position != 8
                    && e is Unexpected) || (old(self).position == 8 && old(self).pos == old(self).data@.len() && e is Io)),
            },
    {
        if self.position != 8 {
            return Err(Error::Unexpected("unaligned ZRLE byte read"));
        }
        if self.pos == self.data.len() {
            return Err(Error::Io("unexpected end of ZRLE data".to_string()));
        }
        let b = self.data[self.pos];
        self.pos = self.pos + 1;
        Ok(b)
    }
}

// ---------------------------------------------------------------------------
// Run lengths.

/// The summed run-length parts starting at `pos`: bytes of value 255 keep the
/// run going, the first other byte ends it.
pub open spec fn run_sum(data: Seq<u8>, pos: int) -> int
    decreases data.len() - pos,
{
    if pos < 0 || pos >= data.len() {
        0
    } else if data[pos] == 255 {
        255 + run_sum(data, pos + 1)
    } else {
        data[pos] as int
    }
}

/// The position just after the run-length encoding starting at `pos`.
pub open spec fn run_end(data: Seq<u8>, pos: int) -> int
    decreases data.len() - pos,
{
    if pos < 0 || pos >= data.len() {
        pos
    } else if data[pos] == 255 {
        run_end(data, pos + 1)
    } else {
        pos + 1
    }
}

/// Whether a run-length encoding starting at `pos` ends (with a byte other
/// than 255) before the data runs out.
pub open spec fn run_terminated(data: Seq<u8>, pos: int) -> bool
    decreases data.len() - pos,
{
    if pos < 0 || pos >= data.len() {
        false
    } else if data[pos] == 255 {
        run_terminated(data, pos + 1)
    } else {
        true
    }
}

proof fn lemma_run_end_bounds(data: Seq<u8>, pos: int)
    requires
        0 <= pos <= data.len(),
    ensures
        pos <= run_end(data, pos) <= data.len(),
        0 <= run_sum(data, pos) <= 255 * (run_end(data, pos) - pos),
    decreases data.len() - pos,
{
    if pos < data.len() && data[pos] == 255 {
        lemma_run_end_bounds(data, pos + 1);
    }
}

/// Read a run length: one is added to the sum of the parts.
fn read_run_length(br: &mut BitReader) -> (r: Result<u64, Error>)
    requires
        old(br).wf(),
        old(br).position == 8,
        old(br).data@.len() <= 0x10000000000000,
    ensures
        final(br).wf(),
        final(br).data == old(br).data,
        final(br).position == 8,
        match r {
            Ok(n) => run_terminated(old(br).data@, old(br).pos as int) && n == 1 + run_sum(
                old(br).data@,
                old(br).pos as int,
            ) && final(br).pos == run_end(old(br).data@, old(br).pos as int) && 1 <= n <= 1 + 255
                * old(br).data@.len(),
            Err(e) => e is Io && !run_terminated(old(br).data@, old(br).pos as int),
        },
{
    let ghost data = old(br).data@;
    let ghost pos0 = old(br).pos as int;
    proof {
        lemma_run_end_bounds(data, pos0);
    }
    let mut part = match br.read_byte() {
        Ok(b) => b,
        Err(e) => {
            proof {
                assert(!run_terminated(data, pos0));
            }
            return Err(e);
        },
    };
    let mut total: u64 = 1 + part as u64;
    proof {
        assert(run_sum(data, pos0) == if data[pos0] == 255 {
            255 + run_sum(data, pos0 + 1)
        } else {
            data[pos0] as int
        });
        assert(run_end(data, pos0) == if data[pos0] == 255 {
            run_end(data, pos0 + 1)
        } else {
            pos0 + 1
        });
        assert(run_terminated(data, pos0) == if data[pos0] == 255 {
            run_terminated(data, pos0 + 1)
        } else {
            true
        });
    }
    while part == 255
        invariant
            br.wf(),
            br.data == old(br).data,
            br.data@ == data,
            br.position == 8,
            data.len() <= 0x10000000000000,
            0 <= pos0,
            pos0 == old(br).pos,
            pos0 < br.pos <= data.len(),
            part == data[br.pos - 1],
            total <= 1 + 255 * (br.pos - pos0),
            (part == 255) ==> 1 + run_sum(data, pos0) == total + run_sum(data, br.pos as int)
                && run_end(data, pos0) == run_end(data, br.pos as int) && run_terminated(
                data,
                pos0,
            ) == run_terminated(data, br.pos as int),
            (part != 255) ==> total == 1 + run_sum(data, pos0) && run_end(data, pos0) == br.pos
                && run_terminated(data, pos0),
        decreases data.len() - br.pos,
    {
        let ghost cur = br.pos as int;
        part = match br.read_byte() {
            Ok(b) => b,
            Err(e) => {
                proof {
                    assert(br.pos == cur);
                    assert(cur == data.len() as int);
                    assert(!run_terminated(data, cur));
                    assert(part == 255);
                    assert(run_terminated(data, pos0) == run_terminated(data, cur));
                    assert(e is Io);
                }
                return Err(e);
            },
        };
        proof {
            assert(run_sum(data, cur) == if data[cur] == 255 {
                255 + run_sum(data, cur + 1)
            } else {
                data[cur] as int
            });
            assert(run_end(data, cur) == if data[cur] == 255 {
                run_end(data, cur + 1)
            } else {
                cur + 1
            });
            assert(run_terminated(data, cur) == if data[cur] == 255 {
                run_terminated(data, cur + 1)
            } else {
                true
            });
        }
        proof {
            let d1 = br.pos - 1 - pos0;
            assert(0 <= d1);
            assert(d1 <= 0x10000000000000);
            assert(total <= 1 + 255 * d1);
            assert(total + part <= 1 + 255 * (d1 + 1) && total + part <= 0xFFFFFFFFFFFFFFFF)
                by (nonlinear_arith)
                requires
                    total <= 1 + 255 * d1,
                    part <= 255,
                    0 <= d1 <= 0x10000000000000,
            ;
        }
        total = total + part as u64;
    }
    proof {
        lemma_run_end_bounds(data, pos0);
    }
    Ok(total)
}

// ---------------------------------------------------------------------------
// CPIXEL handling.

/// The `bpp` output bytes for one compacted pixel read as `raw`: a leading
/// pad byte when the low end of the mask is clear, zero filled at the end.
pub open spec fn cpixel_of(raw: Seq<u8>, pad_pixel: bool, bpp: int) -> Seq<u8> {
    let padded = if pad_pixel {
        seq![0u8] + raw
    } else {
        raw
    };
    (padded + seq![0u8, 0u8, 0u8, 0u8]).subrange(0, bpp)
}

/// Read one CPIXEL: `compressed_bpp` bytes from the stream, widened to the
/// `bpp` native bytes.
fn read_cpixel(br: &mut BitReader, pad_pixel: bool, compressed_bpp: usize, bpp: usize) -> (r:
    Result<Vec<u8>, Error>)
    requires
        old(br).wf(),
        old(br).position == 8,
        compressed_bpp <= 4,
        bpp <= 4,
        pad_pixel ==> compressed_bpp == 3,
    ensures
        final(br).wf(),
        final(br).data == old(br).data,
        match r {
            Ok(v) => final(br).position == 8 && old(br).pos + compressed_bpp <= old(
                br,
            ).data@.len() && final(br).pos == old(br).pos + compressed_bpp && v@ == cpixel_of(
                old(br).data@.subrange(old(br).pos as int, old(br).pos + compressed_bpp),
                pad_pixel,
                bpp as int,
            ) && v@.len() == bpp,
            Err(e) => (e is Io || e is Unexpected) && old(br).pos + compressed_bpp > old(
                br,
            ).data@.len() && *final(br) == *old(br),
        },
{
    let raw = match br.read_bytes(compressed_bpp) {
        Ok(v) => v,
        Err(e) => {
            return Err(e);
        },
    };
    let mut buf: Vec<u8> = Vec::new();
    if pad_pixel {
        buf.push(0);
    }
    let mut i: usize = 0;
    while i < raw.len()
        invariant
            i <= raw@.len(),
            buf@ =~= (if pad_pixel {
                seq![0u8] + raw@.subrange(0, i as int)
            } else {
                raw@.subrange(0, i as int)
            }),
        decreases raw@.len() - i,
    {
        buf.push(raw[i]);
        proof {
            assert(buf@ =~= (if pad_pixel {
                seq![0u8] + raw@.subrange(0, i + 1 as int)
            } else {
                raw@.subrange(0, i + 1 as int)
            }));
        }
        i += 1;
    }
    proof {
        assert(raw@.subrange(0, raw@.len() as int) =~= raw@);
    }
    buf.push(0);
    buf.push(0);
    buf.push(0);
    buf.push(0);
    buf.truncate(bpp);
    proof {
        let padded = if pad_pixel {
            seq![0u8] + raw@
        } else {
            raw@
        };
        assert(padded + seq![0u8, 0u8, 0u8, 0u8] =~= padded.push(0u8).push(0u8).push(0u8).push(
            0u8,
        ));
        assert(buf@ =~= cpixel_of(raw@, pad_pixel, bpp as int));
    }
    Ok(buf)
}

/// Append palette entry `index` (of `bpp` bytes) to `pixels`; false when the
/// index points past the palette.
fn copy_indexed(palette: &Vec<u8>, pixels: &mut Vec<u8>, bpp: usize, index: u8) -> (r: bool)
    requires
        bpp <= 4,
    ensures
        r == ((index as int) * bpp + bpp <= palette@.len()),
        r ==> final(pixels)@ == old(pixels)@ + palette@.subrange(
            (index as int) * bpp,
            (index as int) * bpp + bpp,
        ),
        !r ==> final(pixels)@ == old(pixels)@,
{
    proof {
        assert((index as int) * bpp <= 255 * 4) by (nonlinear_arith)
            requires
                index <= 255,
                0 <= bpp <= 4,
        ;
    }
    let start = (index as usize) * bpp;
    if palette.len() < bpp || start > palette.len() - bpp {
        return false;
    }
    let mut j: usize = 0;
    while j < bpp
        invariant
            j <= bpp,
            start + bpp <= palette@.len(),
            palette@.len() <= usize::MAX,
            pixels@ =~= old(pixels)@ + palette@.subrange(start as int, start + j),
        decreases bpp - j,
    {
        pixels.push(palette[start + j]);
        proof {
            assert(pixels@ =~= old(pixels)@ + palette@.subrange(start as int, start + j + 1));
        }
        j += 1;
    }
    true
}


// ---------------------------------------------------------------------------
// Tile decoding.

/// `s` repeated `n` times.
pub open spec fn seq_repeat(s: Seq<u8>, n: int) -> Seq<u8>
    decreases n,
{
    if n <= 0 {
        Seq::empty()
    } else {
        s + seq_repeat(s, n - 1)
    }
}

pub proof fn lemma_seq_repeat_snoc(s: Seq<u8>, n: int)
    requires
        n >= 0,
    ensures
        seq_repeat(s, n + 1) == seq_repeat(s, n) + s,
    decreases n,
{
    if n == 0 {
        assert(seq_repeat(s, 0) =~= Seq::<u8>::empty());
        assert(seq_repeat(s, 1) =~= s);
        assert(seq_repeat(s, 0) + s =~= s);
    } else {
        lemma_seq_repeat_snoc(s, n - 1);
        assert(seq_repeat(s, n + 1) == s + seq_repeat(s, n));
        assert(seq_repeat(s, n) == seq_repeat(s, n - 1) + s);
        assert(s + (seq_repeat(s, n - 1) + s) =~= (s + seq_repeat(s, n - 1)) + s);
        assert(s + seq_repeat(s, n - 1) == seq_repeat(s, n));
    }
}

pub proof fn lemma_seq_repeat_len(s: Seq<u8>, n: int)
    requires
        n >= 0,
    ensures
        seq_repeat(s, n).len() == n * s.len(),
    decreases n,
{
    if n == 0 {
        assert(seq_repeat(s, 0).len() == 0);
        assert(0 * s.len() == 0) by (nonlinear_arith);
    } else {
        lemma_seq_repeat_len(s, n - 1);
        assert(seq_repeat(s, n) == s + seq_repeat(s, n - 1));
        assert(n * s.len() == (n - 1) * s.len() + s.len()) by (nonlinear_arith);
    }
}

// ---------------------------------------------------------------------------
// The tile grammar of the inflated stream, as one spec decoder: every clause
// below mirrors one production of the subencoding format. `None` means the
// grammar rejects (the data ends early, a palette index is out of range, or
// the subencoding byte names no production).

/// `n` CPIXELs starting at `q`: their expanded bytes and the end position.
pub open spec fn spec_read_cpixels(
    data: Seq<u8>,
    q: int,
    n: int,
    pad_pixel: bool,
    cbpp: int,
    bpp: int,
) -> Option<(Seq<u8>, int)>
    decreases n,
{
    if n <= 0 {
        Some((Seq::empty(), q))
    } else if q + cbpp <= data.len() {
        match spec_read_cpixels(data, q + cbpp, n - 1, pad_pixel, cbpp, bpp) {
            Some((rest, end)) => Some(
                (cpixel_of(data.subrange(q, q + cbpp), pad_pixel, bpp) + rest, end),
            ),
            None => None,
        }
    } else {
        None
    }
}

/// How many bytes one bit-packed row of `w` indices occupies.
pub open spec fn spec_row_bytes(w: int, bpi: int) -> int {
    (w * bpi + 7) / 8
}

/// Index `j` of a bit-packed row starting at byte `q`: `bpi` bits, most
/// significant first, never straddling an octet since `bpi` divides 8.
pub open spec fn spec_row_index(data: Seq<u8>, q: int, bpi: int, j: int) -> u8 {
    bits_of(data[q + (j * bpi) / 8], (j * bpi) % 8, bpi)
}

/// The palette bytes of indices `j..w` of one packed row.
pub open spec fn spec_packed_row(
    data: Seq<u8>,
    q: int,
    w: int,
    bpi: int,
    palette: Seq<u8>,
    bpp: int,
    j: int,
) -> Option<Seq<u8>>
    decreases w - j,
{
    if j >= w {
        Some(Seq::empty())
    } else {
        let idx = spec_row_index(data, q, bpi, j) as int;
        if idx * bpp + bpp <= palette.len() {
            match spec_packed_row(data, q, w, bpi, palette, bpp, j + 1) {
                Some(rest) => Some(palette.subrange(idx * bpp, idx * bpp + bpp) + rest),
                None => None,
            }
        } else {
            None
        }
    }
}

/// `h` packed rows, each re-aligned to a byte boundary.
pub open spec fn spec_packed_rows(
    data: Seq<u8>,
    q: int,
    w: int,
    h: int,
    bpi: int,
    palette: Seq<u8>,
    bpp: int,
) -> Option<(Seq<u8>, int)>
    decreases h,
{
    if h <= 0 {
        Some((Seq::empty(), q))
    } else if q + spec_row_bytes(w, bpi) <= data.len() {
        match spec_packed_row(data, q, w, bpi, palette, bpp, 0) {
            Some(row) => match spec_packed_rows(
                data,
                q + spec_row_bytes(w, bpi),
                w,
                h - 1,
                bpi,
                palette,
                bpp,
            ) {
                Some((rest, end)) => Some((row + rest, end)),
                None => None,
            },
            None => None,
        }
    } else {
        None
    }
}

/// True-colour runs: CPIXEL then run length, until `remaining` pixels are
/// covered (the last run may overshoot).
pub open spec fn spec_tc_rle(
    data: Seq<u8>,
    q: int,
    remaining: int,
    pad_pixel: bool,
    cbpp: int,
    bpp: int,
) -> Option<(Seq<u8>, int)>
    decreases remaining,
{
    if remaining <= 0 {
        Some((Seq::empty(), q))
    } else if q + cbpp <= data.len() && run_terminated(data, q + cbpp) {
        let px = cpixel_of(data.subrange(q, q + cbpp), pad_pixel, bpp);
        let s = run_sum(data, q + cbpp);
        let n = 1 + if s >= 0 {
            s
        } else {
            0
        };
        let rem2 = if remaining - n >= 0 {
            remaining - n
        } else {
            0
        };
        match spec_tc_rle(data, run_end(data, q + cbpp), rem2, pad_pixel, cbpp, bpp) {
            Some((rest, end)) => Some((seq_repeat(px, n) + rest, end)),
            None => None,
        }
    } else {
        None
    }
}

/// Indexed runs: one byte holds the run bit and the palette index; a set run
/// bit is followed by a run length.
pub open spec fn spec_indexed_rle(
    data: Seq<u8>,
    q: int,
    remaining: int,
    palette: Seq<u8>,
    bpp: int,
) -> Option<(Seq<u8>, int)>
    decreases remaining,
{
    if remaining <= 0 {
        Some((Seq::empty(), q))
    } else if q < data.len() {
        let b = data[q];
        let idx = (b & 0x7f) as int;
        if idx * bpp + bpp <= palette.len() {
            if b >= 128 {
                if run_terminated(data, q + 1) {
                    let s = run_sum(data, q + 1);
                    let n = 1 + if s >= 0 {
                        s
                    } else {
                        0
                    };
                    let rem2 = if remaining - n >= 0 {
                        remaining - n
                    } else {
                        0
                    };
                    match spec_indexed_rle(data, run_end(data, q + 1), rem2, palette, bpp) {
                        Some((rest, end)) => Some(
                            (seq_repeat(palette.subrange(idx * bpp, idx * bpp + bpp), n) + rest,
                            end),
                        ),
                        None => None,
                    }
                } else {
                    None
                }
            } else {
                match spec_indexed_rle(data, q + 1, remaining - 1, palette, bpp) {
                    Some((rest, end)) => Some(
                        (palette.subrange(idx * bpp, idx * bpp + bpp) + rest, end),
                    ),
                    None => None,
                }
            }
        } else {
            None
        }
    } else {
        None
    }
}

/// One tile of `w` by `h` pixels decoded from the inflated stream at `pos`:
/// the subencoding byte (run bit and palette size), the palette CPIXELs,
/// then the body its production prescribes; the result is the native pixel
/// bytes and the position just past the tile.
pub open spec fn spec_decode_tile(
    data: Seq<u8>,
    pos: int,
    w: int,
    h: int,
    bpp: int,
    cbpp: int,
    pad_pixel: bool,
) -> Option<(Seq<u8>, int)> {
    if 0 <= pos < data.len() {
        let sub = data[pos];
        let is_rle = sub >= 128;
        let psize = (sub & 0x7f) as int;
        match spec_read_cpixels(data, pos + 1, psize, pad_pixel, cbpp, bpp) {
            Some((palette, q)) => {
                if !is_rle && psize == 0 {
                    spec_read_cpixels(data, q, w * h, pad_pixel, cbpp, bpp)
                } else if !is_rle && psize == 1 {
                    Some((seq_repeat(palette.subrange(0, bpp), w * h), q))
                } else if !is_rle && 2 <= psize <= 16 {
                    let bpi: int = if psize == 2 {
                        1
                    } else if psize <= 4 {
                        2
                    } else {
                        4
                    };
                    spec_packed_rows(data, q, w, h, bpi, palette, bpp)
                } else if is_rle && psize == 0 {
                    spec_tc_rle(data, q, w * h, pad_pixel, cbpp, bpp)
                } else if is_rle && psize >= 2 {
                    spec_indexed_rle(data, q, w * h, palette, bpp)
                } else {
                    None
                }
            },
            None => None,
        }
    } else {
        None
    }
}

/// Append the bytes of `piece` to `pixels`.
fn append_bytes(pixels: &mut Vec<u8>, piece: &Vec<u8>)
    ensures
        final(pixels)@ == old(pixels)@ + piece@,
{
    let mut j: usize = 0;
    while j < piece.len()
        invariant
            j <= piece@.len(),
            pixels@ =~= old(pixels)@ + piece@.subrange(0, j as int),
        decreases piece@.len() - j,
    {
        pixels.push(piece[j]);
        proof {
            assert(pixels@ =~= old(pixels)@ + piece@.subrange(0, j + 1 as int));
        }
        j += 1;
    }
    proof {
        assert(piece@.subrange(0, piece@.len() as int) =~= piece@);
    }
}

/// Decode the body of one tile of `w` by `h` pixels into native-format
/// bytes: a subencoding byte, then palette entries, then raw, filled,
/// bit-packed indexed or run-length pixels. The pixels and the end position
/// are exactly what the tile grammar prescribes, and the call fails exactly
/// when the grammar rejects.
pub fn decode_tile(
    br: &mut BitReader,
    w: usize,
    h: usize,
    bpp: usize,
    compressed_bpp: usize,
    pad_pixel: bool,
    palette: &mut Vec<u8>,
) -> (r: Result<Vec<u8>, Error>)
    requires
        old(br).wf(),
        old(br).position == 8,
        1 <= w <= 64,
        1 <= h <= 64,
        bpp <= 4,
        compressed_bpp <= 4,
        pad_pixel ==> compressed_bpp == 3,
        old(br).data@.len() <= 0x10000000000000,
    ensures
        final(br).wf(),
        final(br).data == old(br).data,
        match r {
            Ok(p) => spec_decode_tile(
                old(br).data@,
                old(br).pos as int,
                w as int,
                h as int,
                bpp as int,
                compressed_bpp as int,
                pad_pixel,
            ) == Some((p@, final(br).pos as int)) && final(br).position == 8 && p@.len() >= w * h
                * bpp,
            Err(_) => spec_decode_tile(
                old(br).data@,
                old(br).pos as int,
                w as int,
                h as int,
                bpp as int,
                compressed_bpp as int,
                pad_pixel,
            ) is None,
        },
{
    let ghost data = old(br).data@;
    let ghost pos0 = old(br).pos as int;
    proof {
        assert(w * h <= 64 * 64) by (nonlinear_arith)
            requires
                1 <= w <= 64,
                1 <= h <= 64,
        ;
    }
    let pixel_count = w * h;
    let sub = match br.read_byte() {
        Ok(b) => b,
        Err(e) => {
            return Err(e);
        },
    };
    let is_rle = sub >= 128;
    let palette_size = sub & 0x7f;
    proof {
        assert(sub & 0x7f <= 127) by (bit_vector);
    }
    palette.truncate(0);
    let psize = palette_size as usize;
    let ghost palette_start = pos0 + 1;
    let mut pi: usize = 0;
    while pi < psize
        invariant
            pi <= psize <= 127,
            br.wf(),
            br.position == 8,
            br.data == old(br).data,
            data == old(br).data@,
            data.len() <= 0x10000000000000,
            pos0 == old(br).pos,
            0 <= pos0 < data.len(),
            data[pos0] == sub,
            is_rle == (sub >= 128),
            psize as int == (sub & 0x7f) as int,
            palette_start == pos0 + 1,
            bpp <= 4,
            compressed_bpp <= 4,
            pad_pixel ==> compressed_bpp == 3,
            palette@.len() == pi * bpp,
            spec_read_cpixels(
                data,
                palette_start,
                psize as int,
                pad_pixel,
                compressed_bpp as int,
                bpp as int,
            ) == (match spec_read_cpixels(
                data,
                br.pos as int,
                psize - pi,
                pad_pixel,
                compressed_bpp as int,
                bpp as int,
            ) {
                Some((rest, end)) => Some((palette@ + rest, end)),
                None => None::<(Seq<u8>, int)>,
            }),
        decreases psize - pi,
    {
        let ghost q = br.pos as int;
        let cp = match read_cpixel(br, pad_pixel, compressed_bpp, bpp) {
            Ok(v) => v,
            Err(e) => {
                proof {
                    assert(spec_read_cpixels(
                        data,
                        q,
                        psize - pi,
                        pad_pixel,
                        compressed_bpp as int,
                        bpp as int,
                    ) is None);
                    assert(spec_decode_tile(
                        data,
                        pos0,
                        w as int,
                        h as int,
                        bpp as int,
                        compressed_bpp as int,
                        pad_pixel,
                    ) is None);
                }
                return Err(e);
            },
        };
        let ghost palette_before = palette@;
        append_bytes(palette, &cp);
        proof {
            assert((pi + 1) * bpp == pi * bpp + bpp) by (nonlinear_arith);
            assert(spec_read_cpixels(
                data,
                q,
                psize - pi,
                pad_pixel,
                compressed_bpp as int,
                bpp as int,
            ) == (match spec_read_cpixels(
                data,
                q + compressed_bpp,
                psize - pi - 1,
                pad_pixel,
                compressed_bpp as int,
                bpp as int,
            ) {
                Some((rest, end)) => Some(
                    (cpixel_of(data.subrange(q, q + compressed_bpp), pad_pixel, bpp as int) + rest,
                    end),
                ),
                None => None::<(Seq<u8>, int)>,
            }));
            if let Some((rest2, _)) = spec_read_cpixels(
                data,
                q + compressed_bpp,
                psize - pi - 1,
                pad_pixel,
                compressed_bpp as int,
                bpp as int,
            ) {
                assert((palette_before + (cp@ + rest2)) =~= (palette@ + rest2));
            }
        }
        pi += 1;
    }
    proof {
        assert(spec_read_cpixels(
            data,
            br.pos as int,
            0,
            pad_pixel,
            compressed_bpp as int,
            bpp as int,
        ) == Some((Seq::<u8>::empty(), br.pos as int)));
        assert(palette@ + Seq::<u8>::empty() =~= palette@);
        assert(spec_read_cpixels(
            data,
            palette_start,
            psize as int,
            pad_pixel,
            compressed_bpp as int,
            bpp as int,
        ) == Some((palette@, br.pos as int)));
    }
    let ghost body_start = br.pos as int;
    let ghost tile_spec = spec_decode_tile(
        data,
        pos0,
        w as int,
        h as int,
        bpp as int,
        compressed_bpp as int,
        pad_pixel,
    );
    proof {
        assert(data[pos0] == sub);
        assert((sub >= 128) == is_rle);
        assert(((sub & 0x7f) as int) == psize as int);
    }
    let mut pixels: Vec<u8> = Vec::new();
    if !is_rle && palette_size == 0 {
        // Raw true-colour pixels.
        let mut k: usize = 0;
        proof {
            assert(tile_spec == spec_read_cpixels(
                data,
                body_start,
                pixel_count as int,
                pad_pixel,
                compressed_bpp as int,
                bpp as int,
            ));
        }
        while k < pixel_count
            invariant
                k <= pixel_count,
                pixel_count == w * h,
                br.wf(),
                br.position == 8,
                br.data == old(br).data,
                data == old(br).data@,
                data.len() <= 0x10000000000000,
                bpp <= 4,
                compressed_bpp <= 4,
                pad_pixel ==> compressed_bpp == 3,
                pos0 == old(br).pos,
                tile_spec == spec_decode_tile(
                    data,
                    pos0,
                    w as int,
                    h as int,
                    bpp as int,
                    compressed_bpp as int,
                    pad_pixel,
                ),
                tile_spec == spec_read_cpixels(
                    data,
                    body_start,
                    pixel_count as int,
                    pad_pixel,
                    compressed_bpp as int,
                    bpp as int,
                ),
                pixels@.len() == k * bpp,
                spec_read_cpixels(
                    data,
                    body_start,
                    pixel_count as int,
                    pad_pixel,
                    compressed_bpp as int,
                    bpp as int,
                ) == (match spec_read_cpixels(
                    data,
                    br.pos as int,
                    pixel_count - k,
                    pad_pixel,
                    compressed_bpp as int,
                    bpp as int,
                ) {
                    Some((rest, end)) => Some((pixels@ + rest, end)),
                    None => None::<(Seq<u8>, int)>,
                }),
            decreases pixel_count - k,
        {
            let ghost q = br.pos as int;
            let cp = match read_cpixel(br, pad_pixel, compressed_bpp, bpp) {
                Ok(v) => v,
                Err(e) => {
                    proof {
                        assert(spec_read_cpixels(
                            data,
                            q,
                            pixel_count - k,
                            pad_pixel,
                            compressed_bpp as int,
                            bpp as int,
                        ) is None);
                        assert(tile_spec is None);
                    }
                    return Err(e);
                },
            };
            let ghost pixels_before = pixels@;
            append_bytes(&mut pixels, &cp);
            proof {
                assert((k + 1) * bpp == k * bpp + bpp) by (nonlinear_arith);
                if let Some((rest2, _)) = spec_read_cpixels(
                    data,
                    q + compressed_bpp,
                    pixel_count - k - 1,
                    pad_pixel,
                    compressed_bpp as int,
                    bpp as int,
                ) {
                    assert((pixels_before + (cp@ + rest2)) =~= (pixels@ + rest2));
                }
            }
            k += 1;
        }
        proof {
            assert(spec_read_cpixels(
                data,
                br.pos as int,
                0,
                pad_pixel,
                compressed_bpp as int,
                bpp as int,
            ) == Some((Seq::<u8>::empty(), br.pos as int)));
            assert(pixels@ + Seq::<u8>::empty() =~= pixels@);
            assert(tile_spec == Some((pixels@, br.pos as int)));
        }
        Ok(pixels)
    } else if !is_rle && palette_size == 1 {
        // Single-colour fill.
        proof {
            assert(palette@.len() == bpp) by (nonlinear_arith)
                requires
                    palette@.len() == psize * bpp,
                    psize == 1,
            ;
        }
        let ghost slice = palette@.subrange(0, bpp as int);
        proof {
            assert(tile_spec == Some((seq_repeat(slice, (w * h) as int), body_start)));
        }
        let mut k: usize = 0;
        while k < pixel_count
            invariant
                k <= pixel_count,
                pixel_count == w * h,
                bpp <= 4,
                palette@.len() == bpp,
                slice == palette@.subrange(0, bpp as int),
                br.wf(),
                br.position == 8,
                br.data == old(br).data,
                br.pos == body_start,
                pos0 == old(br).pos,
                tile_spec == spec_decode_tile(
                    data,
                    pos0,
                    w as int,
                    h as int,
                    bpp as int,
                    compressed_bpp as int,
                    pad_pixel,
                ),
                tile_spec == Some((seq_repeat(slice, (w * h) as int), body_start)),
                pixels@.len() == k * bpp,
                pixels@ == seq_repeat(slice, k as int),
            decreases pixel_count - k,
        {
            if !copy_indexed(palette, &mut pixels, bpp, 0) {
                proof {
                    assert(false);
                }
                return Err(Error::Unexpected("ZRLE palette index"));
            }
            proof {
                assert((k + 1) * bpp == k * bpp + bpp) by (nonlinear_arith);
                lemma_seq_repeat_snoc(slice, k as int);
            }
            k += 1;
        }
        proof {
            assert(tile_spec == Some((pixels@, br.pos as int)));
        }
        Ok(pixels)
    } else if !is_rle && 2 <= palette_size && palette_size <= 16 {
        // Bit-packed indexed pixels: whole row bytes, indices taken most
        // significant first, so each row starts on a fresh byte and the
        // unused low bits of its last byte are dead.
        let bits_per_index: usize = if palette_size == 2 {
            1
        } else if palette_size <= 4 {
            2
        } else {
            4
        };
        let per_byte = 8 / bits_per_index;
        proof {
            if bits_per_index == 1 {
                assert(per_byte == 8);
            } else if bits_per_index == 2 {
                assert(per_byte == 4);
            } else {
                assert(per_byte == 2);
            }
            assert(per_byte * bits_per_index == 8);
            assert(w * bits_per_index + 7 <= 64 * 4 + 7) by (nonlinear_arith)
                requires
                    w <= 64,
                    bits_per_index <= 4,
            ;
        }
        let row_bytes = (w * bits_per_index + 7) / 8;
        proof {
            assert(row_bytes == spec_row_bytes(w as int, bits_per_index as int));
        }
        proof {
            assert(tile_spec == spec_packed_rows(
                data,
                body_start,
                w as int,
                h as int,
                bits_per_index as int,
                palette@,
                bpp as int,
            ));
        }
        let mut row: usize = 0;
        while row < h
            invariant
                row <= h,
                1 <= w <= 64,
                1 <= h <= 64,
                1 <= bits_per_index <= 4,
                per_byte == 8usize / bits_per_index,
                per_byte * bits_per_index == 8,
                row_bytes == spec_row_bytes(w as int, bits_per_index as int),
                row_bytes <= 32,
                br.wf(),
                br.position == 8,
                br.data == old(br).data,
                data == old(br).data@,
                bpp <= 4,
                pos0 == old(br).pos,
                tile_spec == spec_decode_tile(
                    data,
                    pos0,
                    w as int,
                    h as int,
                    bpp as int,
                    compressed_bpp as int,
                    pad_pixel,
                ),
                tile_spec == spec_packed_rows(
                    data,
                    body_start,
                    w as int,
                    h as int,
                    bits_per_index as int,
                    palette@,
                    bpp as int,
                ),
                pixels@.len() == row * (w * bpp),
                spec_packed_rows(
                    data,
                    body_start,
                    w as int,
                    h as int,
                    bits_per_index as int,
                    palette@,
                    bpp as int,
                ) == (match spec_packed_rows(
                    data,
                    br.pos as int,
                    w as int,
                    h - row,
                    bits_per_index as int,
                    palette@,
                    bpp as int,
                ) {
                    Some((rest, end)) => Some((pixels@ + rest, end)),
                    None => None::<(Seq<u8>, int)>,
                }),
            decreases h - row,
        {
            let ghost q_row = br.pos as int;
            let row_data = match br.read_bytes(row_bytes) {
                Ok(v) => v,
                Err(e) => {
                    proof {
                        assert(spec_packed_rows(
                            data,
                            q_row,
                            w as int,
                            h - row,
                            bits_per_index as int,
                            palette@,
                            bpp as int,
                        ) is None);
                        assert(tile_spec is None);
                    }
                    return Err(e);
                },
            };
            let ghost row_base = pixels@.len() as int;
            let mut j: usize = 0;
            while j < w
                invariant
                    j <= w,
                    1 <= w <= 64,
                    1 <= h <= 64,
                    row < h,
                    1 <= bits_per_index <= 4,
                    per_byte == 8usize / bits_per_index,
                    per_byte * bits_per_index == 8,
                    row_bytes == spec_row_bytes(w as int, bits_per_index as int),
                    row_data@ == data.subrange(q_row, q_row + row_bytes),
                    row_data@.len() == row_bytes,
                    bpp <= 4,
                    row_base == pixels@.len() - j * bpp,
                    0 <= row_base,
                    pixels@.subrange(0, row_base).len() == row * (w * bpp),
                    br.wf(),
                    br.position == 8,
                    br.data == old(br).data,
                    data == old(br).data@,
                    br.pos == q_row + row_bytes,
                    q_row + row_bytes <= data.len(),
                    0 <= q_row,
                pos0 == old(br).pos,
                tile_spec == spec_decode_tile(
                    data,
                    pos0,
                    w as int,
                    h as int,
                    bpp as int,
                    compressed_bpp as int,
                    pad_pixel,
                ),
                    tile_spec == spec_packed_rows(
                        data,
                        body_start,
                        w as int,
                        h as int,
                        bits_per_index as int,
                        palette@,
                        bpp as int,
                    ),
                    spec_packed_rows(
                        data,
                        body_start,
                        w as int,
                        h as int,
                        bits_per_index as int,
                        palette@,
                        bpp as int,
                    ) == (match spec_packed_rows(
                        data,
                        q_row,
                        w as int,
                        h - row,
                        bits_per_index as int,
                        palette@,
                        bpp as int,
                    ) {
                        Some((rest, end)) => Some((pixels@.subrange(0, row_base) + rest, end)),
                        None => None::<(Seq<u8>, int)>,
                    }),
                    (match spec_packed_row(
                        data,
                        q_row,
                        w as int,
                        bits_per_index as int,
                        palette@,
                        bpp as int,
                        j as int,
                    ) {
                        Some(rest) => spec_packed_row(
                            data,
                            q_row,
                            w as int,
                            bits_per_index as int,
                            palette@,
                            bpp as int,
                            0,
                        ) == Some(pixels@.subrange(row_base, pixels@.len() as int) + rest),
                        None => spec_packed_row(
                            data,
                            q_row,
                            w as int,
                            bits_per_index as int,
                            palette@,
                            bpp as int,
                            0,
                        ) is None,
                    }),
                decreases w - j,
            {
                let byte_index = j / per_byte;
                let sub_index = j % per_byte;
                proof {
                    lemma_fundamental_div_mod(j as int, per_byte as int);
                    lemma_mod_bound(j as int, per_byte as int);
                    assert(j == per_byte * byte_index + sub_index && sub_index < per_byte);
                    assert(j * bits_per_index == byte_index * 8 + sub_index * bits_per_index)
                        by (nonlinear_arith)
                        requires
                            j == per_byte * byte_index + sub_index,
                            per_byte * bits_per_index == 8,
                    ;
                    assert(sub_index * bits_per_index < 8 && (sub_index + 1) * bits_per_index
                        <= 8) by (nonlinear_arith)
                        requires
                            sub_index < per_byte,
                            per_byte * bits_per_index == 8,
                            1 <= bits_per_index,
                    ;
                    lemma_fundamental_div_mod_converse(
                        (j * bits_per_index) as int,
                        8,
                        byte_index as int,
                        (sub_index * bits_per_index) as int,
                    );
                    assert(j * bits_per_index < w * bits_per_index) by (nonlinear_arith)
                        requires
                            j < w,
                            1 <= bits_per_index,
                    ;
                    assert(byte_index < row_bytes);
                }
                let shift = 8 - (sub_index + 1) * bits_per_index;
                proof {
                    let c = bits_per_index as u16;
                    assert(c <= 8 ==> (1u16 << c) >= 1 && (1u16 << c) <= 256) by (bit_vector);
                    assert((sub_index + 1) * bits_per_index >= 1) by (nonlinear_arith)
                        requires
                            sub_index >= 0,
                            bits_per_index >= 1,
                    ;
                    assert(shift < 8);
                }
                let mask = ((1u16 << (bits_per_index as u16)) - 1) as u8;
                let index = (row_data[byte_index] >> (shift as u8)) & mask;
                proof {
                    assert(row_data@[byte_index as int] == data[q_row + byte_index]);
                    assert(byte_index as int == (j * bits_per_index) as int / 8);
                    assert(sub_index * bits_per_index == (j * bits_per_index) as int % 8);
                    assert((sub_index + 1) * bits_per_index == sub_index * bits_per_index
                        + bits_per_index) by (nonlinear_arith);
                    assert(shift as int == 8 - ((j * bits_per_index) as int % 8)
                        - bits_per_index);
                    assert(index == bits_of(
                        data[q_row + byte_index],
                        sub_index * bits_per_index,
                        bits_per_index as int,
                    ));
                    assert(index == spec_row_index(
                        data,
                        q_row,
                        bits_per_index as int,
                        j as int,
                    ));
                }
                let ghost pixels_before = pixels@;
                if !copy_indexed(palette, &mut pixels, bpp, index) {
                    proof {
                        assert(spec_packed_row(
                            data,
                            q_row,
                            w as int,
                            bits_per_index as int,
                            palette@,
                            bpp as int,
                            j as int,
                        ) is None);
                        assert(tile_spec is None);
                    }
                    return Err(Error::Unexpected("ZRLE palette index"));
                }
                proof {
                    assert((j + 1) * bpp == j * bpp + bpp) by (nonlinear_arith);
                    let idx = index as int;
                    let piece = palette@.subrange(idx * bpp, idx * bpp + bpp);
                    if let Some(rest2) = spec_packed_row(
                        data,
                        q_row,
                        w as int,
                        bits_per_index as int,
                        palette@,
                        bpp as int,
                        j + 1,
                    ) {
                        assert(pixels@.subrange(row_base, pixels@.len() as int)
                            =~= pixels_before.subrange(row_base, pixels_before.len() as int)
                            + piece);
                        assert((pixels_before.subrange(row_base, pixels_before.len() as int) + (
                        piece + rest2)) =~= (pixels@.subrange(row_base, pixels@.len() as int)
                            + rest2));
                    }
                }
                j += 1;
            }
            proof {
                assert(spec_packed_row(
                    data,
                    q_row,
                    w as int,
                    bits_per_index as int,
                    palette@,
                    bpp as int,
                    w as int,
                ) == Some(Seq::<u8>::empty()));
                let row_pix = pixels@.subrange(row_base, pixels@.len() as int);
                assert(row_pix + Seq::<u8>::empty() =~= row_pix);
                assert(spec_packed_row(
                    data,
                    q_row,
                    w as int,
                    bits_per_index as int,
                    palette@,
                    bpp as int,
                    0,
                ) == Some(row_pix));
                assert(pixels@.subrange(0, row_base) + row_pix =~= pixels@);
                assert((row + 1) * (w * bpp) == row * (w * bpp) + w * bpp) by (nonlinear_arith);
                assert(pixels@.len() - row_base == w * bpp) by (nonlinear_arith)
                    requires
                        row_base == pixels@.len() - w * bpp,
                ;
                if let Some((rest3, _)) = spec_packed_rows(
                    data,
                    q_row + row_bytes,
                    w as int,
                    h - row - 1,
                    bits_per_index as int,
                    palette@,
                    bpp as int,
                ) {
                    assert((pixels@.subrange(0, row_base) + (row_pix + rest3)) =~= (pixels@
                        + rest3));
                }
            }
            row += 1;
        }
        proof {
            assert(spec_packed_rows(
                data,
                br.pos as int,
                w as int,
                0,
                bits_per_index as int,
                palette@,
                bpp as int,
            ) == Some((Seq::<u8>::empty(), br.pos as int)));
            assert(pixels@ + Seq::<u8>::empty() =~= pixels@);
            assert(tile_spec == Some((pixels@, br.pos as int)));
            assert(pixels@.len() == h * (w * bpp));
            assert(pixels@.len() >= w * h * bpp) by (nonlinear_arith)
                requires
                    pixels@.len() == h * (w * bpp),
            ;
        }
        Ok(pixels)
    } else if is_rle && palette_size == 0 {
        // True-colour runs.
        proof {
            assert(tile_spec == spec_tc_rle(
                data,
                body_start,
                pixel_count as int,
                pad_pixel,
                compressed_bpp as int,
                bpp as int,
            ));
        }
        let mut remaining: u64 = pixel_count as u64;
        while remaining > 0
            invariant
                br.wf(),
                br.position == 8,
                br.data == old(br).data,
                data == old(br).data@,
                data.len() <= 0x10000000000000,
                bpp <= 4,
                compressed_bpp <= 4,
                pad_pixel ==> compressed_bpp == 3,
                remaining <= pixel_count,
                pixel_count == w * h,
                pixel_count <= 4096,
                pos0 == old(br).pos,
                tile_spec == spec_decode_tile(
                    data,
                    pos0,
                    w as int,
                    h as int,
                    bpp as int,
                    compressed_bpp as int,
                    pad_pixel,
                ),
                tile_spec == spec_tc_rle(
                    data,
                    body_start,
                    pixel_count as int,
                    pad_pixel,
                    compressed_bpp as int,
                    bpp as int,
                ),
                pixels@.len() >= (pixel_count - remaining) * bpp,
                spec_tc_rle(
                    data,
                    body_start,
                    pixel_count as int,
                    pad_pixel,
                    compressed_bpp as int,
                    bpp as int,
                ) == (match spec_tc_rle(
                    data,
                    br.pos as int,
                    remaining as int,
                    pad_pixel,
                    compressed_bpp as int,
                    bpp as int,
                ) {
                    Some((rest, end)) => Some((pixels@ + rest, end)),
                    None => None::<(Seq<u8>, int)>,
                }),
            decreases remaining,
        {
            let ghost q = br.pos as int;
            let cp = match read_cpixel(br, pad_pixel, compressed_bpp, bpp) {
                Ok(v) => v,
                Err(e) => {
                    proof {
                        assert(spec_tc_rle(
                            data,
                            q,
                            remaining as int,
                            pad_pixel,
                            compressed_bpp as int,
                            bpp as int,
                        ) is None);
                        assert(tile_spec is None);
                    }
                    return Err(e);
                },
            };
            let run = match read_run_length(br) {
                Ok(n) => n,
                Err(e) => {
                    proof {
                        assert(spec_tc_rle(
                            data,
                            q,
                            remaining as int,
                            pad_pixel,
                            compressed_bpp as int,
                            bpp as int,
                        ) is None);
                        assert(tile_spec is None);
                    }
                    return Err(e);
                },
            };
            proof {
                lemma_run_end_bounds(data, q + compressed_bpp);
            }
            let ghost base = pixels@.len();
            let ghost pixels_before = pixels@;
            let mut j: u64 = 0;
            while j < run
                invariant
                    j <= run,
                    cp@.len() == bpp,
                    pixels@.len() == base + j * bpp,
                    pixels@ == pixels_before + seq_repeat(cp@, j as int),
                    br.wf(),
                    br.position == 8,
                    br.data == old(br).data,
                decreases run - j,
            {
                append_bytes(&mut pixels, &cp);
                proof {
                    assert((j + 1) * bpp == j * bpp + bpp) by (nonlinear_arith);
                    lemma_seq_repeat_snoc(cp@, j as int);
                }
                j += 1;
            }
            let consumed_now = if run >= remaining {
                remaining
            } else {
                run
            };
            proof {
                assert(pixels@.len() >= (pixel_count - (remaining - consumed_now)) * bpp)
                    by (nonlinear_arith)
                    requires
                        pixels@.len() == base + run * bpp,
                        base >= (pixel_count - remaining) * bpp,
                        consumed_now <= run,
                        0 <= bpp,
                ;
                if let Some((rest2, _)) = spec_tc_rle(
                    data,
                    run_end(data, q + compressed_bpp),
                    remaining - consumed_now,
                    pad_pixel,
                    compressed_bpp as int,
                    bpp as int,
                ) {
                    assert((pixels_before + (seq_repeat(cp@, run as int) + rest2)) =~= (pixels@
                        + rest2));
                }
            }
            remaining = remaining - consumed_now;
        }
        proof {
            assert(spec_tc_rle(
                data,
                br.pos as int,
                0,
                pad_pixel,
                compressed_bpp as int,
                bpp as int,
            ) == Some((Seq::<u8>::empty(), br.pos as int)));
            assert(pixels@ + Seq::<u8>::empty() =~= pixels@);
            assert(tile_spec == Some((pixels@, br.pos as int)));
            assert(pixels@.len() >= pixel_count * bpp) by (nonlinear_arith)
                requires
                    pixels@.len() >= (pixel_count - 0) * bpp,
            ;
        }
        Ok(pixels)
    } else if is_rle && palette_size >= 2 {
        // Indexed runs.
        proof {
            assert(tile_spec == spec_indexed_rle(
                data,
                body_start,
                pixel_count as int,
                palette@,
                bpp as int,
            ));
        }
        let mut remaining: u64 = pixel_count as u64;
        while remaining > 0
            invariant
                br.wf(),
                br.position == 8,
                br.data == old(br).data,
                data == old(br).data@,
                data.len() <= 0x10000000000000,
                bpp <= 4,
                remaining <= pixel_count,
                pixel_count == w * h,
                pixel_count <= 4096,
                pos0 == old(br).pos,
                tile_spec == spec_decode_tile(
                    data,
                    pos0,
                    w as int,
                    h as int,
                    bpp as int,
                    compressed_bpp as int,
                    pad_pixel,
                ),
                tile_spec == spec_indexed_rle(
                    data,
                    body_start,
                    pixel_count as int,
                    palette@,
                    bpp as int,
                ),
                pixels@.len() >= (pixel_count - remaining) * bpp,
                spec_indexed_rle(
                    data,
                    body_start,
                    pixel_count as int,
                    palette@,
                    bpp as int,
                ) == (match spec_indexed_rle(
                    data,
                    br.pos as int,
                    remaining as int,
                    palette@,
                    bpp as int,
                ) {
                    Some((rest, end)) => Some((pixels@ + rest, end)),
                    None => None::<(Seq<u8>, int)>,
                }),
            decreases remaining,
        {
            let ghost q = br.pos as int;
            let item = match br.read_byte() {
                Ok(b) => b,
                Err(e) => {
                    proof {
                        assert(spec_indexed_rle(
                            data,
                            q,
                            remaining as int,
                            palette@,
                            bpp as int,
                        ) is None);
                        assert(tile_spec is None);
                    }
                    return Err(e);
                },
            };
            let longer_than_one = item >= 128;
            let index = item & 0x7f;
            let run = if longer_than_one {
                match read_run_length(br) {
                    Ok(n) => n,
                    Err(e) => {
                        proof {
                            assert(spec_indexed_rle(
                                data,
                                q,
                                remaining as int,
                                palette@,
                                bpp as int,
                            ) is None);
                            assert(tile_spec is None);
                        }
                        return Err(e);
                    },
                }
            } else {
                1u64
            };
            proof {
                if longer_than_one {
                    lemma_run_end_bounds(data, q + 1);
                }
            }
            let ghost base = pixels@.len();
            let ghost pixels_before = pixels@;
            let ghost slice = palette@.subrange(
                (index as int) * bpp,
                (index as int) * bpp + bpp,
            );
            let mut j: u64 = 0;
            while j < run
                invariant
                    j <= run,
                    bpp <= 4,
                    index == item & 0x7f,
                    slice == palette@.subrange((index as int) * bpp, (index as int) * bpp + bpp),
                    j > 0 ==> (index as int) * bpp + bpp <= palette@.len(),
                    pixels@.len() == base + j * bpp,
                    pixels@ == pixels_before + seq_repeat(slice, j as int),
                    br.wf(),
                    br.position == 8,
                    br.data == old(br).data,
                    data == old(br).data@,
                    q < data.len(),
                    data[q] == item,
                    remaining > 0,
                    pos0 == old(br).pos,
                    tile_spec == spec_decode_tile(
                        data,
                        pos0,
                        w as int,
                        h as int,
                        bpp as int,
                        compressed_bpp as int,
                        pad_pixel,
                    ),
                    tile_spec == spec_indexed_rle(
                        data,
                        body_start,
                        pixel_count as int,
                        palette@,
                        bpp as int,
                    ),
                    spec_indexed_rle(
                        data,
                        body_start,
                        pixel_count as int,
                        palette@,
                        bpp as int,
                    ) == (match spec_indexed_rle(
                        data,
                        q,
                        remaining as int,
                        palette@,
                        bpp as int,
                    ) {
                        Some((rest, end)) => Some((pixels_before + rest, end)),
                        None => None::<(Seq<u8>, int)>,
                    }),
                decreases run - j,
            {
                if !copy_indexed(palette, &mut pixels, bpp, index) {
                    proof {
                        assert((index as int) * bpp + bpp > palette@.len());
                        assert(((data[q] & 0x7f) as int) == index as int);
                        assert(spec_indexed_rle(
                            data,
                            q,
                            remaining as int,
                            palette@,
                            bpp as int,
                        ) is None);
                        assert(tile_spec is None);
                    }
                    return Err(Error::Unexpected("ZRLE palette index"));
                }
                proof {
                    assert((j + 1) * bpp == j * bpp + bpp) by (nonlinear_arith);
                    lemma_seq_repeat_snoc(slice, j as int);
                }
                j += 1;
            }
            let consumed_now = if run >= remaining {
                remaining
            } else {
                run
            };
            proof {
                assert(pixels@.len() >= (pixel_count - (remaining - consumed_now)) * bpp)
                    by (nonlinear_arith)
                    requires
                        pixels@.len() == base + run * bpp,
                        base >= (pixel_count - remaining) * bpp,
                        consumed_now <= run,
                        0 <= bpp,
                ;
                assert(((data[q] & 0x7f) as int) == index as int);
                assert((data[q] >= 128) == longer_than_one);
                if run > 0 {
                    assert((index as int) * bpp + bpp <= palette@.len());
                }
                let ghost next_q = if longer_than_one {
                    run_end(data, q + 1)
                } else {
                    q + 1
                };
                if let Some((rest2, _)) = spec_indexed_rle(
                    data,
                    next_q,
                    remaining - consumed_now,
                    palette@,
                    bpp as int,
                ) {
                    assert((pixels_before + (seq_repeat(slice, run as int) + rest2)) =~= (pixels@
                        + rest2));
                }
            }
            remaining = remaining - consumed_now;
        }
        proof {
            assert(spec_indexed_rle(data, br.pos as int, 0, palette@, bpp as int) == Some(
                (Seq::<u8>::empty(), br.pos as int),
            ));
            assert(pixels@ + Seq::<u8>::empty() =~= pixels@);
            assert(tile_spec == Some((pixels@, br.pos as int)));
            assert(pixels@.len() >= pixel_count * bpp) by (nonlinear_arith)
                requires
                    pixels@.len() >= (pixel_count - 0) * bpp,
            ;
        }
        Ok(pixels)
    } else {
        proof {
            assert(tile_spec is None);
        }
        Err(Error::Unexpected("ZRLE subencoding"))
    }
}

// ---------------------------------------------------------------------------
// The decoder.

/// The CPIXEL layout of a pixel format: 3-byte compact pixels exactly for
/// 32-bit true colour of depth at most 24 whose mask leaves the low or the
/// high byte clear, with the zero byte restored at the low end exactly when
/// the clear mask byte and the byte order disagree; every other format keeps
/// its native width.
pub open spec fn spec_cpixel_layout(f: PixelFormat) -> (int, bool) {
    let mask = ((f.red_max as u32) << f.red_shift) | ((f.green_max as u32) << f.green_shift) | ((
    f.blue_max as u32) << f.blue_shift);
    if f.bits_per_pixel == 32 && f.true_colour && f.depth <= 24 {
        if mask & 0x000000ff == 0 {
            (3, !f.big_endian)
        } else if mask & 0xff000000 == 0 {
            (3, f.big_endian)
        } else {
            (4, false)
        }
    } else {
        (f.bits_per_pixel as int / 8, false)
    }
}

/// Compute how many bytes one compact pixel occupies and where its pad byte
/// goes.
pub fn cpixel_layout(format: &PixelFormat) -> (r: (usize, bool))
    requires
        format.red_shift < 32,
        format.green_shift < 32,
        format.blue_shift < 32,
    ensures
        (r.0 as int, r.1) == spec_cpixel_layout(*format),
{
    let bpp = (format.bits_per_pixel / 8) as usize;
    let pixel_mask: u32 = ((format.red_max as u32) << format.red_shift) | ((
    format.green_max as u32) << format.green_shift) | ((format.blue_max as u32)
        << format.blue_shift);
    if format.bits_per_pixel == 32 && format.true_colour && format.depth <= 24 {
        if pixel_mask & 0x000000ff == 0 {
            (3usize, !format.big_endian)
        } else if pixel_mask & 0xff000000 == 0 {
            (3usize, format.big_endian)
        } else {
            (4usize, false)
        }
    } else {
        (bpp, false)
    }
}

/// How many 64-pixel tiles cover `extent` pixels.
pub open spec fn tile_count(extent: u16) -> int {
    ((extent + 63) / 64) as int
}

/// The extent of the tile at `index` along one axis.
pub open spec fn tile_size(extent: u16, index: int) -> int {
    if 64 * index + 64 <= extent {
        64
    } else {
        extent - 64 * index
    }
}

/// The rectangle of tile `k` of `rect`, in row-major order.
pub open spec fn spec_tile_rect(rect: Rect, k: int) -> Rect {
    let cols = tile_count(rect.width);
    let ti = k / cols;
    let tj = k % cols;
    Rect {
        left: (rect.left + 64 * tj) as u16,
        top: (rect.top + 64 * ti) as u16,
        width: tile_size(rect.width, tj) as u16,
        height: tile_size(rect.height, ti) as u16,
    }
}

/// The ZRLE decoder; its inflate state persists across rectangles because
/// the zlib stream is concatenative over the whole session.
pub struct Decoder {
    decompressor: flate2::Decompress,
}

impl Decoder {
    pub fn new() -> Decoder {
        Decoder { decompressor: zlib::inflate_new() }
    }

    /// Decode one ZRLE rectangle from its compressed record, yielding the
    /// 64 by 64 tiles of `rect` in row-major order, each with its pixels in
    /// native format.
    pub fn decode(&mut self, format: PixelFormat, rect: Rect, input: &Vec<u8>) -> (r: Result<
        Vec<(Rect, Vec<u8>)>,
        Error,
    >)
        requires
            format.bits_per_pixel == 8 || format.bits_per_pixel == 16 || format.bits_per_pixel
                == 32,
            format.red_shift < 32,
            format.green_shift < 32,
            format.blue_shift < 32,
            rect.left + rect.width <= 0xFFFF,
            rect.top + rect.height <= 0xFFFF,
        ensures
            match r {
                Ok(tiles) => {
                    &&& tiles@.len() == tile_count(rect.width) * tile_count(rect.height)
                    &&& forall|k: int|
                        0 <= k < tiles@.len() ==> (#[trigger] tiles@[k]).0 == spec_tile_rect(
                            rect,
                            k,
                        ) && tiles@[k].1@.len() >= spec_tile_rect(rect, k).spec_area() * (
                        format.bits_per_pixel / 8)
                },
                Err(_) => true,
            },
    {
        let bpp = (format.bits_per_pixel / 8) as usize;
        let (compressed_bpp, pad_pixel) = cpixel_layout(&format);
        let cols = (rect.width as usize + 63) / 64;
        let rows = (rect.height as usize + 63) / 64;
        proof {
            assert(rect.width * rect.height <= 0xffff * 0xffff) by (nonlinear_arith)
                requires
                    rect.width <= 0xffff,
                    rect.height <= 0xffff,
            ;
            assert(cols <= 1024 && rows <= 1024);
            assert(cols * rows <= 1024 * 1024) by (nonlinear_arith)
                requires
                    0 <= cols <= 1024,
                    0 <= rows <= 1024,
            ;
        }
        let area64 = (rect.width as u64) * (rect.height as u64);
        let tile_total = (cols as u64) * (rows as u64);
        proof {
            assert(area64 <= 0xffff * 0xffff);
            assert(tile_total <= 1024 * 1024);
        }
        let cap64: u64 = 5 * area64 + 600 * tile_total + 64;
        proof {
            assert(cap64 <= 0x10000000000000);
        }
        let cap: usize = if cap64 > (usize::MAX as u64) {
            usize::MAX
        } else {
            cap64 as usize
        };
        proof {
            assert(cap <= 0x10000000000000);
        }
        let data = match zlib::inflate_record(&mut self.decompressor, input, cap) {
            Ok(d) => d,
            Err(e) => {
                return Err(e);
            },
        };
        let mut br = BitReader::new(data);
        let mut palette: Vec<u8> = Vec::new();
        let mut tiles: Vec<(Rect, Vec<u8>)> = Vec::new();
        let mut ti: usize = 0;
        let mut y: usize = 0;
        while ti < rows
            invariant
                ti <= rows,
                y == 64 * ti,
                cols == tile_count(rect.width),
                rows == tile_count(rect.height),
                rect.left + rect.width <= 0xFFFF,
                rect.top + rect.height <= 0xFFFF,
                bpp == format.bits_per_pixel / 8,
                bpp <= 4,
                compressed_bpp <= 4,
                pad_pixel ==> compressed_bpp == 3,
                br.wf(),
                br.position == 8,
                br.data@.len() <= 0x10000000000000,
                tiles@.len() == ti * cols,
                forall|k: int|
                    0 <= k < tiles@.len() ==> (#[trigger] tiles@[k]).0 == spec_tile_rect(rect, k)
                        && tiles@[k].1@.len() >= spec_tile_rect(rect, k).spec_area() * (
                    format.bits_per_pixel / 8),
            decreases rows - ti,
        {
            proof {
                assert(64 * ti + 64 <= 64 * rows) by (nonlinear_arith)
                    requires
                        ti < rows,
                ;
                assert(64 * (rows - 1) < rect.height + 63);
            }
            let height = if rect.height as usize - y > 64 {
                64
            } else {
                rect.height as usize - y
            };
            let mut tj: usize = 0;
            let mut x: usize = 0;
            while tj < cols
                invariant
                    tj <= cols,
                    x == 64 * tj,
                    ti < rows,
                    y == 64 * ti,
                    height == tile_size(rect.height, ti as int),
                    1 <= height <= 64,
                    cols == tile_count(rect.width),
                    rows == tile_count(rect.height),
                    rect.left + rect.width <= 0xFFFF,
                    rect.top + rect.height <= 0xFFFF,
                    bpp == format.bits_per_pixel / 8,
                    bpp <= 4,
                    compressed_bpp <= 4,
                    pad_pixel ==> compressed_bpp == 3,
                    br.wf(),
                    br.position == 8,
                    br.data@.len() <= 0x10000000000000,
                    tiles@.len() == ti * cols + tj,
                    forall|k: int|
                        0 <= k < tiles@.len() ==> (#[trigger] tiles@[k]).0 == spec_tile_rect(
                            rect,
                            k,
                        ) && tiles@[k].1@.len() >= spec_tile_rect(rect, k).spec_area() * (
                        format.bits_per_pixel / 8),
                decreases cols - tj,
            {
                proof {
                    assert(64 * tj + 64 <= 64 * cols) by (nonlinear_arith)
                        requires
                            tj < cols,
                    ;
                    assert(64 * (cols - 1) < rect.width + 63);
                }
                let width = if rect.width as usize - x > 64 {
                    64
                } else {
                    rect.width as usize - x
                };
                let pixels = match decode_tile(
                    &mut br,
                    width,
                    height,
                    bpp,
                    compressed_bpp,
                    pad_pixel,
                    &mut palette,
                ) {
                    Ok(p) => p,
                    Err(e) => {
                        return Err(e);
                    },
                };
                let tile = Rect {
                    left: (rect.left as usize + x) as u16,
                    top: (rect.top as usize + y) as u16,
                    width: width as u16,
                    height: height as u16,
                };
                proof {
                    let k = tiles@.len() as int;
                    lemma_fundamental_div_mod_converse(
                        k,
                        cols as int,
                        ti as int,
                        tj as int,
                    );
                    assert(tile == spec_tile_rect(rect, k));
                    assert(tile.spec_area() == width * height);
                    assert(width * height * bpp == tile.spec_area() * bpp) by (nonlinear_arith)
                        requires
                            tile.spec_area() == width * height,
                    ;
                }
                tiles.push((tile, pixels));
                tj += 1;
                x += 64;
            }
            proof {
                assert(ti * cols + cols == (ti + 1) * cols) by (nonlinear_arith);
            }
            ti += 1;
            y += 64;
        }
        if !br.aligned() {
            return Err(Error::Unexpected("leftover ZRLE bit data"));
        }
        if !br.fully_consumed() {
            return Err(Error::Unexpected("leftover ZRLE byte data"));
        }
        proof {
            assert(tiles@.len() == rows * cols);
            assert(rows * cols == tile_count(rect.width) * tile_count(rect.height))
                by (nonlinear_arith)
                requires
                    rows == tile_count(rect.height),
                    cols == tile_count(rect.width),
            ;
        }
        Ok(tiles)
    }
}

} // verus!
