use einkvnc::error::Error;
use einkvnc::protocol::PixelFormat;
use einkvnc::rect::Rect;
use einkvnc::zrle::{cpixel_layout, decode_tile, BitReader, Decoder};
use flate2::{Compress, Compression, FlushCompress};

fn deflate(c: &mut Compress, data: &[u8]) -> Vec<u8> {
    let mut out = Vec::with_capacity(data.len() + 1024);
    c.compress_vec(data, &mut out, FlushCompress::Sync).unwrap();
    out
}

fn bgra_format() -> PixelFormat {
    PixelFormat {
        bits_per_pixel: 32,
        depth: 24,
        big_endian: false,
        true_colour: true,
        red_max: 255,
        green_max: 255,
        blue_max: 255,
        red_shift: 16,
        green_shift: 8,
        blue_shift: 0,
    }
}

fn gray_format() -> PixelFormat {
    PixelFormat {
        bits_per_pixel: 8,
        depth: 8,
        big_endian: false,
        true_colour: false,
        red_max: 0,
        green_max: 0,
        blue_max: 0,
        red_shift: 0,
        green_shift: 0,
        blue_shift: 0,
    }
}

/// The run-length tail for a run of `n` pixels: parts summing to `n - 1`.
fn run_bytes(n: usize) -> Vec<u8> {
    let mut v = Vec::new();
    let mut left = n - 1;
    while left >= 255 {
        v.push(255);
        left -= 255;
    }
    v.push(left as u8);
    v
}

#[test]
fn run_length_tails_have_expected_size() {
    assert_eq!(run_bytes(255), vec![254]);
    assert_eq!(run_bytes(256), vec![255, 0]);
    assert_eq!(run_bytes(510), vec![255, 254]);
    assert_eq!(run_bytes(511), vec![255, 255, 0]);
}

#[test]
fn single_colour_tile_fills_64_by_64() {
    // One tile, palette of one 3-byte compact pixel: with a little-endian
    // true-colour format whose high mask byte is clear, the three stream
    // bytes are the low three pixel bytes (blue, green, red) and the decoder
    // restores the zero top byte.
    let raw = vec![0x01, 0x33, 0x22, 0x11];
    let mut comp = Compress::new(Compression::default(), true);
    let record = deflate(&mut comp, &raw);
    let mut dec = Decoder::new();
    let rect = Rect { left: 0, top: 0, width: 64, height: 64 };
    let tiles = dec.decode(bgra_format(), rect, &record).unwrap();
    assert_eq!(tiles.len(), 1);
    assert_eq!(tiles[0].0, rect);
    let pixels = &tiles[0].1;
    assert_eq!(pixels.len(), 64 * 64 * 4);
    for p in pixels.chunks(4) {
        assert_eq!(p, &[0x33, 0x22, 0x11, 0x00]);
    }
}

#[test]
fn indexed_two_colour_tile_re_aligns_each_row() {
    // 4 by 2 tile, two palette entries, one bit per index, most significant
    // first; each row starts on a fresh byte, so the first row's four pad
    // bits are dead and the second row starts with bits 0100.
    let mut raw = vec![0x02];
    raw.extend_from_slice(&[1, 2, 3]); // palette entry 0
    raw.extend_from_slice(&[4, 5, 6]); // palette entry 1
    raw.push(0b1011_0100);
    raw.push(0b0100_0000);
    let mut comp = Compress::new(Compression::default(), true);
    let record = deflate(&mut comp, &raw);
    let mut dec = Decoder::new();
    let rect = Rect { left: 0, top: 0, width: 4, height: 2 };
    let tiles = dec.decode(bgra_format(), rect, &record).unwrap();
    assert_eq!(tiles.len(), 1);
    let p0 = [1u8, 2, 3, 0];
    let p1 = [4u8, 5, 6, 0];
    let expected: Vec<u8> = [p1, p0, p1, p1, p0, p1, p0, p0].concat();
    assert_eq!(tiles[0].1, expected);
}

/// Build the body of one tile in the given subencoding, with its expected
/// single-byte pixels, for the 8-bit format.
fn tile_body(kind: u8, w: usize, h: usize) -> (Vec<u8>, Vec<u8>) {
    let mut body = Vec::new();
    let mut expected = Vec::new();
    match kind {
        0 => {
            body.push(0);
            for i in 0..w * h {
                body.push((i % 251) as u8);
                expected.push((i % 251) as u8);
            }
        }
        1 => {
            body.push(1);
            body.push(0xAB);
            expected.extend(std::iter::repeat(0xAB).take(w * h));
        }
        2 | 4 | 16 => {
            let (psize, bpi) = match kind {
                2 => (2usize, 1usize),
                4 => (4, 2),
                _ => (16, 4),
            };
            body.push(kind);
            for e in 0..psize {
                body.push(0x40 + e as u8);
            }
            for y in 0..h {
                let mut acc: u16 = 0;
                let mut nbits = 0;
                for x in 0..w {
                    let idx = (x + y) % psize;
                    expected.push(0x40 + idx as u8);
                    acc = (acc << bpi) | idx as u16;
                    nbits += bpi;
                    if nbits == 8 {
                        body.push(acc as u8);
                        acc = 0;
                        nbits = 0;
                    }
                }
                if nbits > 0 {
                    // pad the row's last byte with ones: the decoder must
                    // ignore them when it re-aligns
                    let pad = 8 - nbits;
                    body.push((((acc << pad) | ((1 << pad) - 1)) & 0xFF) as u8);
                }
            }
        }
        128 => {
            body.push(128);
            body.push(0xCD);
            body.extend(run_bytes(w * h));
            expected.extend(std::iter::repeat(0xCD).take(w * h));
        }
        130 => {
            body.push(0x82);
            body.push(0x50);
            body.push(0x51);
            if w * h == 1 {
                body.push(0x01); // index 1, run of one
            } else {
                body.push(0x81); // index 1, longer than one
                body.extend(run_bytes(w * h));
            }
            expected.extend(std::iter::repeat(0x51).take(w * h));
        }
        _ => unreachable!(),
    }
    (body, expected)
}

#[test]
fn every_subencoding_at_every_boundary_size() {
    for kind in [0u8, 1, 2, 4, 16, 128, 130] {
        for (w, h) in [(1u16, 1u16), (1, 64), (64, 1), (64, 64), (65, 65)] {
            let rect = Rect { left: 3, top: 5, width: w, height: h };
            // tile grid in row-major order, mirroring the decoder's layout
            let mut raw = Vec::new();
            let mut expected_tiles = Vec::new();
            let mut y = 0usize;
            while y < h as usize {
                let th = (h as usize - y).min(64);
                let mut x = 0usize;
                while x < w as usize {
                    let tw = (w as usize - x).min(64);
                    let (body, expected) = tile_body(kind, tw, th);
                    raw.extend_from_slice(&body);
                    expected_tiles.push((
                        Rect {
                            left: 3 + x as u16,
                            top: 5 + y as u16,
                            width: tw as u16,
                            height: th as u16,
                        },
                        expected,
                    ));
                    x += tw;
                }
                y += th;
            }
            let mut comp = Compress::new(Compression::default(), true);
            let record = deflate(&mut comp, &raw);
            let mut dec = Decoder::new();
            let tiles = dec.decode(gray_format(), rect, &record).unwrap();
            assert_eq!(tiles.len(), expected_tiles.len(), "kind {kind} {w}x{h}");
            for (got, want) in tiles.iter().zip(expected_tiles.iter()) {
                assert_eq!(got.0, want.0, "kind {kind} {w}x{h}");
                assert_eq!(got.1, want.1, "kind {kind} {w}x{h}");
            }
        }
    }
}

#[test]
fn inflate_state_is_kept_across_records() {
    let mut comp = Compress::new(Compression::default(), true);
    let first = deflate(&mut comp, &[0x01, 0x07]);
    let second = deflate(&mut comp, &[0x01, 0x09]);
    let mut dec = Decoder::new();
    let rect = Rect { left: 0, top: 0, width: 2, height: 2 };
    let tiles = dec.decode(gray_format(), rect, &first).unwrap();
    assert_eq!(tiles[0].1, vec![7, 7, 7, 7]);
    let tiles = dec.decode(gray_format(), rect, &second).unwrap();
    assert_eq!(tiles[0].1, vec![9, 9, 9, 9]);

    // a fresh decoder cannot pick the stream up mid-way
    let mut other = Decoder::new();
    assert!(other.decode(gray_format(), rect, &second).is_err());
}

#[test]
fn runs_of_each_boundary_length_inside_one_tile() {
    let mut raw = vec![128u8];
    for (value, run) in [(10u8, 255usize), (20, 256), (30, 510), (40, 511), (50, 2564)] {
        raw.push(value);
        raw.extend(run_bytes(run));
    }
    let mut comp = Compress::new(Compression::default(), true);
    let record = deflate(&mut comp, &raw);
    let mut dec = Decoder::new();
    let rect = Rect { left: 0, top: 0, width: 64, height: 64 };
    let tiles = dec.decode(gray_format(), rect, &record).unwrap();
    let pixels = &tiles[0].1;
    assert_eq!(pixels.len(), 4096);
    let mut at = 0usize;
    for (value, run) in [(10u8, 255usize), (20, 256), (30, 510), (40, 511), (50, 2564)] {
        assert!(pixels[at..at + run].iter().all(|&b| b == value));
        at += run;
    }
}

#[test]
fn unknown_subencoding_is_rejected() {
    // palette-size 17 without the run bit: the 17 palette entries are read,
    // then the (plain, 17) combination is refused
    let mut raw = vec![17u8];
    raw.extend_from_slice(&[0u8; 17]);
    let mut comp = Compress::new(Compression::default(), true);
    let record = deflate(&mut comp, &raw);
    let mut dec = Decoder::new();
    let rect = Rect { left: 0, top: 0, width: 1, height: 1 };
    match dec.decode(gray_format(), rect, &record) {
        Err(Error::Unexpected(what)) => assert_eq!(what, "ZRLE subencoding"),
        other => panic!("expected a subencoding error, got {other:?}"),
    }
}

#[test]
fn bit_reader_is_msb_first_and_guards_alignment() {
    let mut br = BitReader::new(vec![0b1011_0100, 0xEE]);
    assert!(br.read_bit().unwrap());
    assert_eq!(br.read_bits(7).unwrap(), 0b011_0100);
    assert_eq!(br.read_byte().unwrap(), 0xEE);
    assert!(br.fully_consumed());

    let mut br = BitReader::new(vec![0xFF, 0xEE]);
    br.read_bit().unwrap();
    // byte reads off the octet boundary are refused
    assert!(br.read_byte().is_err());
    // and so are bit reads that would straddle two octets
    assert!(br.read_bits(8).is_err());
    br.align();
    assert_eq!(br.read_byte().unwrap(), 0xEE);
}

#[test]
fn decode_tile_follows_the_grammar_directly() {
    let f = gray_format();
    let (cbpp, pad) = cpixel_layout(&f);
    assert_eq!((cbpp, pad), (1, false));
    let (cbpp32, pad32) = cpixel_layout(&bgra_format());
    assert_eq!((cbpp32, pad32), (3, false));

    // two tiles back to back in one inflated buffer: a fill, then raw pixels
    let mut br = BitReader::new(vec![0x01, 0x5A, 0x00, 1, 2, 3, 4]);
    let mut palette = Vec::new();
    let first = decode_tile(&mut br, 2, 2, 1, cbpp, pad, &mut palette).unwrap();
    assert_eq!(first, vec![0x5A, 0x5A, 0x5A, 0x5A]);
    let second = decode_tile(&mut br, 2, 2, 1, cbpp, pad, &mut palette).unwrap();
    assert_eq!(second, vec![1, 2, 3, 4]);
    assert!(br.fully_consumed());

    // a truncated tile is rejected
    let mut br = BitReader::new(vec![0x00, 9]);
    assert!(decode_tile(&mut br, 2, 2, 1, cbpp, pad, &mut palette).is_err());
}
