//! The zlib inflate state used by ZRLE, behind trusted wrappers around
//! flate2. The stream is concatenative across rectangles, so the state lives
//! for the whole session and each record continues where the last stopped.
use crate::error::Error;
use vstd::prelude::*;

verus! {

#[verifier::external_type_specification]
#[verifier::external_body]
pub struct ExDecompress(flate2::Decompress);

/// Relies on flate2::Decompress::new: a fresh inflate state that expects a
/// zlib header.
#[verifier::external_body]
pub fn inflate_new() -> flate2::Decompress {
    flate2::Decompress::new(true)
}

/// Relies on flate2::Decompress::decompress_vec and total_in: inflates from
/// `input[offset..]` into the spare capacity of `out` (at least `room` bytes
/// are reserved first), appending to `out` and returning how many input bytes
/// the call consumed. What bytes come out depends on the inflate state, so
/// nothing is promised of them; even a failing call may first append the
/// bytes it inflated before the corruption, so on `Err` only the old prefix
/// is promised.
#[verifier::external_body]
fn inflate_step(
    d: &mut flate2::Decompress,
    input: &Vec<u8>,
    offset: usize,
    out: &mut Vec<u8>,
    room: usize,
) -> (r: Result<usize, Error>)
    requires
        offset <= input@.len(),
    ensures
        match r {
            Ok(consumed) => consumed <= input@.len() - offset && final(out)@.len() >= old(
                out,
            )@.len() && final(out)@.subrange(0, old(out)@.len() as int) == old(out)@,
            Err(e) => e is Io && final(out)@.len() >= old(out)@.len() && final(out)@.subrange(
                0,
                old(out)@.len() as int,
            ) == old(out)@,
        },
{
    let before_in = d.total_in();
    out.reserve(room);
    match d.decompress_vec(&input[offset..], out, flate2::FlushDecompress::None) {
        Ok(_) => Ok((d.total_in() - before_in) as usize),
        Err(_) => Err(Error::Io("corrupt ZRLE zlib stream".to_string())),
    }
}

/// Inflate one ZRLE record: feed `input` to the shared inflate state until it
/// is fully consumed and no more output comes, or until the output passes
/// `cap` bytes, which no well-formed record for its rectangle can reach.
pub fn inflate_record(d: &mut flate2::Decompress, input: &Vec<u8>, cap: usize) -> (r: Result<
    Vec<u8>,
    Error,
>)
    ensures
        match r {
            Ok(out) => out@.len() <= cap,
            Err(e) => e is Io || e is Unexpected,
        },
{
    let mut out: Vec<u8> = Vec::new();
    let mut consumed: usize = 0;
    let total = input.len();
    loop
        invariant
            total == input@.len(),
            total <= usize::MAX,
            consumed <= input@.len(),
            out@.len() <= cap,
        decreases (cap - out@.len()), (input@.len() - consumed),
    {
        let len_before = out.len();
        let avail = cap - len_before;
        let room = if avail < usize::MAX {
            avail + 1
        } else {
            avail
        };
        let step = match inflate_step(d, input, consumed, &mut out, room) {
            Ok(c) => c,
            Err(e) => {
                return Err(e);
            },
        };
        consumed += step;
        let grew = out.len() > len_before;
        if out.len() > cap {
            return Err(Error::Unexpected("leftover ZRLE byte data"));
        }
        if !grew && step == 0 {
            if consumed < input.len() {
                return Err(Error::Io("stalled ZRLE zlib stream".to_string()));
            }
            return Ok(out);
        }
    }
}

} // verus!
