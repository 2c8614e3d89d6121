//! The RFB wire codec over byte buffers. Every message type states its exact
//! encoding as a spec function (`wire`), its parse relation (`parses`), and
//! the executable reader and writer are proved against them; reading is also
//! proved complete, so decoding the encoding of any well-formed value
//! succeeds and reproduces its bytes.
use vstd::prelude::*;

verus! {

/// Why a read from a byte buffer did not produce a message.
#[derive(Debug, Clone, Copy, PartialEq, Eq)]
pub enum WireError {
    /// The buffer ends before the message does; reading more bytes may help.
    Incomplete,
    /// The bytes cannot begin any message of the expected type; the static
    /// text names what was being parsed.
    Invalid(&'static str),
}

// ---------------------------------------------------------------------------
// Big-endian primitives.

pub open spec fn be16(v: u16) -> Seq<u8> {
    seq![(v >> 8) as u8, v as u8]
}

pub open spec fn be32(v: u32) -> Seq<u8> {
    seq![(v >> 24) as u8, (v >> 16) as u8, (v >> 8) as u8, v as u8]
}

pub open spec fn be32i(v: i32) -> Seq<u8> {
    be32(v as u32)
}

/// `n` zero bytes of padding.
pub open spec fn pad(n: int) -> Seq<u8> {
    Seq::new(n as nat, |i: int| 0u8)
}

/// The big-endian 16-bit value at `bytes[q..q+2]`.
pub open spec fn be16_at(bytes: Seq<u8>, q: int) -> u16 {
    ((bytes[q] as u16) << 8) | (bytes[q + 1] as u16)
}

/// The big-endian 32-bit value at `bytes[q..q+4]`.
pub open spec fn be32_at(bytes: Seq<u8>, q: int) -> u32 {
    ((bytes[q] as u32) << 24) | ((bytes[q + 1] as u32) << 16) | ((bytes[q + 2] as u32) << 8) | (
    bytes[q + 3] as u32)
}

/// Reconstructing the 32-bit word at `q` gives back those bytes.
pub proof fn lemma_be32_at(bytes: Seq<u8>, q: int)
    requires
        0 <= q,
        q + 4 <= bytes.len(),
    ensures
        be32(be32_at(bytes, q)) == bytes.subrange(q, q + 4),
{
    let b0 = bytes[q];
    let b1 = bytes[q + 1];
    let b2 = bytes[q + 2];
    let b3 = bytes[q + 3];
    let w = ((b0 as u32) << 24) | ((b1 as u32) << 16) | ((b2 as u32) << 8) | (b3 as u32);
    assert((w >> 24) as u8 == b0 && (w >> 16) as u8 == b1 && (w >> 8) as u8 == b2 && w as u8 == b3)
        by (bit_vector)
        requires
            w == ((b0 as u32) << 24) | ((b1 as u32) << 16) | ((b2 as u32) << 8) | (b3 as u32),
    ;
    assert(be32(be32_at(bytes, q)) =~= bytes.subrange(q, q + 4));
}

fn read_u8(bytes: &Vec<u8>, pos: usize) -> (r: Result<(u8, usize), WireError>)
    requires
        pos <= bytes@.len(),
    ensures
        match r {
            Ok((v, p)) => p == pos + 1 && pos + 1 <= bytes@.len() && v == bytes@[pos as int],
            Err(e) => e is Incomplete && bytes@.len() < pos + 1,
        },
{
    if bytes.len() - pos >= 1 {
        Ok((bytes[pos], pos + 1))
    } else {
        Err(WireError::Incomplete)
    }
}

fn read_u16(bytes: &Vec<u8>, pos: usize) -> (r: Result<(u16, usize), WireError>)
    requires
        pos <= bytes@.len(),
    ensures
        match r {
            Ok((v, p)) => p == pos + 2 && pos + 2 <= bytes@.len() && be16(v) == bytes@.subrange(
                pos as int,
                pos + 2,
            ),
            Err(e) => e is Incomplete && bytes@.len() < pos + 2,
        },
{
    if bytes.len() - pos >= 2 {
        let hi = bytes[pos];
        let lo = bytes[pos + 1];
        let v = ((hi as u16) << 8) | (lo as u16);
        proof {
            assert((((hi as u16) << 8 | (lo as u16)) >> 8) as u8 == hi && (((hi as u16) << 8 | (
            lo as u16)) as u8) == lo) by (bit_vector);
            assert(be16(v) =~= bytes@.subrange(pos as int, pos + 2));
        }
        Ok((v, pos + 2))
    } else {
        Err(WireError::Incomplete)
    }
}

fn read_u32(bytes: &Vec<u8>, pos: usize) -> (r: Result<(u32, usize), WireError>)
    requires
        pos <= bytes@.len(),
    ensures
        match r {
            Ok((v, p)) => p == pos + 4 && pos + 4 <= bytes@.len() && be32(v) == bytes@.subrange(
                pos as int,
                pos + 4,
            ),
            Err(e) => e is Incomplete && bytes@.len() < pos + 4,
        },
{
    if bytes.len() - pos >= 4 {
        let b0 = bytes[pos];
        let b1 = bytes[pos + 1];
        let b2 = bytes[pos + 2];
        let b3 = bytes[pos + 3];
        let v = ((b0 as u32) << 24) | ((b1 as u32) << 16) | ((b2 as u32) << 8) | (b3 as u32);
        proof {
            let w = ((b0 as u32) << 24) | ((b1 as u32) << 16) | ((b2 as u32) << 8) | (b3 as u32);
            assert((w >> 24) as u8 == b0 && (w >> 16) as u8 == b1 && (w >> 8) as u8 == b2
                && w as u8 == b3) by (bit_vector)
                requires
                    w == ((b0 as u32) << 24) | ((b1 as u32) << 16) | ((b2 as u32) << 8) | (
                    b3 as u32),
            ;
            assert(be32(v) =~= bytes@.subrange(pos as int, pos + 4));
        }
        Ok((v, pos + 4))
    } else {
        Err(WireError::Incomplete)
    }
}

fn read_i32(bytes: &Vec<u8>, pos: usize) -> (r: Result<(i32, usize), WireError>)
    requires
        pos <= bytes@.len(),
    ensures
        match r {
            Ok((v, p)) => p == pos + 4 && pos + 4 <= bytes@.len() && be32i(v) == bytes@.subrange(
                pos as int,
                pos + 4,
            ),
            Err(e) => e is Incomplete && bytes@.len() < pos + 4,
        },
{
    match read_u32(bytes, pos) {
        Ok((v, p)) => {
            proof {
                assert((v as i32) as u32 == v) by (bit_vector);
            }
            Ok((v as i32, p))
        },
        Err(e) => Err(e),
    }
}

/// Read `n` raw bytes.
fn read_bytes(bytes: &Vec<u8>, pos: usize, n: usize) -> (r: Result<(Vec<u8>, usize), WireError>)
    requires
        pos <= bytes@.len(),
    ensures
        match r {
            Ok((v, p)) => p == pos + n && pos + n <= bytes@.len() && v@ == bytes@.subrange(
                pos as int,
                pos + n,
            ),
            Err(e) => e is Incomplete && bytes@.len() < pos + n,
        },
{
    if bytes.len() - pos >= n {
        let mut v: Vec<u8> = Vec::new();
        let mut j: usize = 0;
        while j < n
            invariant
                j <= n,
                pos + n <= bytes@.len(),
                bytes@.len() <= usize::MAX,
                v@ =~= bytes@.subrange(pos as int, pos + j),
            decreases n - j,
        {
            v.push(bytes[pos + j]);
            proof {
                assert(v@ =~= bytes@.subrange(pos as int, pos + j + 1));
            }
            j += 1;
        }
        Ok((v, pos + n))
    } else {
        Err(WireError::Incomplete)
    }
}

/// Consume `n` padding bytes, whatever they hold.
fn skip(bytes: &Vec<u8>, pos: usize, n: usize) -> (r: Result<usize, WireError>)
    requires
        pos <= bytes@.len(),
    ensures
        match r {
            Ok(p) => p == pos + n && pos + n <= bytes@.len(),
            Err(e) => e is Incomplete && bytes@.len() < pos + n,
        },
{
    if bytes.len() - pos >= n {
        Ok(pos + n)
    } else {
        Err(WireError::Incomplete)
    }
}

fn push_u8(out: &mut Vec<u8>, v: u8)
    ensures
        final(out)@ == old(out)@ + seq![v],
{
    out.push(v);
    proof {
        assert(out@ =~= old(out)@ + seq![v]);
    }
}

fn push_u16(out: &mut Vec<u8>, v: u16)
    ensures
        final(out)@ == old(out)@ + be16(v),
{
    out.push((v >> 8) as u8);
    out.push(v as u8);
    proof {
        assert(out@ =~= old(out)@ + be16(v));
    }
}

fn push_u32(out: &mut Vec<u8>, v: u32)
    ensures
        final(out)@ == old(out)@ + be32(v),
{
    out.push((v >> 24) as u8);
    out.push((v >> 16) as u8);
    out.push((v >> 8) as u8);
    out.push(v as u8);
    proof {
        assert(out@ =~= old(out)@ + be32(v));
    }
}

fn push_i32(out: &mut Vec<u8>, v: i32)
    ensures
        final(out)@ == old(out)@ + be32i(v),
{
    push_u32(out, v as u32);
}

fn push_pad(out: &mut Vec<u8>, n: usize)
    ensures
        final(out)@ == old(out)@ + pad(n as int),
{
    let mut j: usize = 0;
    while j < n
        invariant
            j <= n,
            out@ =~= old(out)@ + pad(j as int),
        decreases n - j,
    {
        out.push(0u8);
        proof {
            assert(out@ =~= old(out)@ + pad(j + 1 as int));
        }
        j += 1;
    }
}

/// Element-wise comparison of two byte vectors.
fn vec_eq(a: &Vec<u8>, b: &Vec<u8>) -> (r: bool)
    ensures
        r == (a@ == b@),
{
    if a.len() != b.len() {
        proof {
            assert(a@ != b@);
        }
        return false;
    }
    let mut i: usize = 0;
    while i < a.len()
        invariant
            i <= a@.len(),
            a@.len() == b@.len(),
            forall|j: int| 0 <= j < i ==> a@[j] == b@[j],
        decreases a@.len() - i,
    {
        if a[i] != b[i] {
            proof {
                assert(a@ != b@);
            }
            return false;
        }
        i += 1;
    }
    proof {
        assert(a@ =~= b@);
    }
    true
}

// ---------------------------------------------------------------------------
// The message trait.

/// A typed record of the protocol, readable from and writable to a byte
/// buffer.
pub trait Message: Sized {
    /// Encodable and in canonical form.
    spec fn wf(&self) -> bool;

    /// The exact byte encoding.
    spec fn wire(&self) -> Seq<u8>;

    /// The parse relation of the reader: at `pos` it may produce `v` ending
    /// at `p`. Pad bytes are ignored and boolean bytes are read as `!= 0`,
    /// so this can hold of byte ranges other than `v.wire()`.
    spec fn parses(bytes: Seq<u8>, pos: int, v: Self, p: int) -> bool;

    /// The buffer ends before the message does, so reading more bytes could
    /// help; the reader answers `Incomplete` exactly here, and `Invalid` on
    /// every other failure.
    spec fn incomplete(bytes: Seq<u8>, pos: int) -> bool;

    /// The discriminator every `Invalid` error of this type carries; `None`
    /// for a reader that never answers `Invalid`.
    spec fn invalid_text() -> Option<Seq<char>>;

    /// Append the encoding of `self` to `out`.
    fn write_to(&self, out: &mut Vec<u8>)
        requires
            self.wf(),
        ensures
            final(out)@ == old(out)@ + self.wire(),
    ;

    /// Parse one value from `bytes` starting at `pos`. Reading is also
    /// complete: wherever the bytes hold the encoding of a well-formed value,
    /// it succeeds, stops at the encoding's end, and returns a value with
    /// that same encoding.
    fn read_from(bytes: &Vec<u8>, pos: usize) -> (r: Result<(Self, usize), WireError>)
        requires
            pos <= bytes@.len(),
        ensures
            match r {
                Ok((v, p)) => Self::parses(bytes@, pos as int, v, p as int) && pos <= p && p
                    <= bytes@.len() && v.wf(),
                Err(e) => (e is Incomplete <==> Self::incomplete(bytes@, pos as int)) && (match e {
                    WireError::Invalid(s) => Self::invalid_text() == Some(s@),
                    _ => true,
                }),
            },
            forall|v: Self|
                ((#[trigger] v.wire()).len() + pos <= bytes@.len() && v.wf() && bytes@.subrange(
                    pos as int,
                    pos + v.wire().len(),
                ) == v.wire()) ==> match r {
                    Ok(vp) => vp.1 == pos + v.wire().len() && vp.0.wire() == v.wire(),
                    Err(_) => false,
                },
    ;
}

// ---------------------------------------------------------------------------
// Length-prefixed byte vectors (strings travel as Latin-1 bytes).

impl Message for Vec<u8> {
    open spec fn wf(&self) -> bool {
        self@.len() <= 0xFFFFFFFF
    }

    open spec fn incomplete(bytes: Seq<u8>, pos: int) -> bool {
        pos + 4 > bytes.len() || pos + 4 + be32_at(bytes, pos) > bytes.len()
    }

    open spec fn invalid_text() -> Option<Seq<char>> {
        Option::None
    }

    open spec fn wire(&self) -> Seq<u8> {
        be32(self@.len() as u32) + self@
    }

    open spec fn parses(bytes: Seq<u8>, pos: int, v: Self, p: int) -> bool {
        v.wf() && 0 <= pos && p == pos + v.wire().len() && p <= bytes.len() && bytes.subrange(
            pos,
            p,
        ) == v.wire()
    }

    fn write_to(&self, out: &mut Vec<u8>)
    {
        push_u32(out, self.len() as u32);
        let mut i: usize = 0;
        while i < self.len()
            invariant
                i <= self@.len(),
                self@.len() <= 0xFFFFFFFF,
                out@ =~= old(out)@ + be32(self@.len() as u32) + self@.subrange(0, i as int),
            decreases self@.len() - i,
        {
            out.push(self[i]);
            proof {
                assert(out@ =~= old(out)@ + be32(self@.len() as u32) + self@.subrange(
                    0,
                    i + 1 as int,
                ));
            }
            i += 1;
        }
        proof {
            assert(self@.subrange(0, self@.len() as int) =~= self@);
            assert(out@ =~= old(out)@ + self.wire());
        }
    }

    fn read_from(bytes: &Vec<u8>, pos: usize) -> (r: Result<(Self, usize), WireError>)
    {
        let (n32, p1) = match read_u32(bytes, pos) {
            Ok(x) => x,
            Err(e) => {
                proof {
                    assert(<Vec<u8> as Message>::incomplete(bytes@, pos as int));
                    assert forall|v: Vec<u8>| #![trigger v.wire()]
                        v.wire().len() + pos <= bytes@.len() && v.wf() && bytes@.subrange(
                            pos as int,
                            pos + v.wire().len(),
                        ) == v.wire() implies false by {
                        assert(bytes@.subrange(pos as int, pos + v.wire().len()).subrange(0, 4)
                            =~= be32(v@.len() as u32));
                        assert(bytes@.subrange(pos as int, pos + v.wire().len()).subrange(0, 4)
                            =~= bytes@.subrange(pos as int, pos + 4));
                    }
                }
                return Err(e);
            },
        };
        let n = n32 as usize;
        proof {
            lemma_be32_at(bytes@, pos as int);
            lemma_be32_inj();
            assert(be32(be32_at(bytes@, pos as int)) == bytes@.subrange(pos as int, pos + 4));
            assert(be32_at(bytes@, pos as int) == n32);
        }
        match read_bytes(bytes, p1, n) {
            Ok((data, p2)) => {
                proof {
                    lemma_be32_inj();
                    assert(data.wire() =~= bytes@.subrange(pos as int, p2 as int));
                    assert forall|v: Vec<u8>| #![trigger v.wire()]
                        v.wire().len() + pos <= bytes@.len() && v.wf() && bytes@.subrange(
                            pos as int,
                            pos + v.wire().len(),
                        ) == v.wire() implies (pos + v.wire().len() == p2
                        && v.wire() == data.wire()) by {
                        assert(bytes@.subrange(pos as int, pos + v.wire().len()).subrange(0, 4)
                            =~= be32(v@.len() as u32));
                        assert(bytes@.subrange(pos as int, pos + v.wire().len()).subrange(0, 4)
                            =~= bytes@.subrange(pos as int, pos + 4));
                        assert(be32(v@.len() as u32) == be32(n32));
                        assert(v@.len() as u32 == n32);
                        assert(v.wire() =~= bytes@.subrange(pos as int, p2 as int));
                    }
                }
                Ok((data, p2))
            },
            Err(e) => {
                proof {
                    lemma_be32_inj();
                    assert forall|v: Vec<u8>| #![trigger v.wire()]
                        v.wire().len() + pos <= bytes@.len() && v.wf() && bytes@.subrange(
                            pos as int,
                            pos + v.wire().len(),
                        ) == v.wire() implies false by {
                        assert(bytes@.subrange(pos as int, pos + v.wire().len()).subrange(0, 4)
                            =~= be32(v@.len() as u32));
                        assert(bytes@.subrange(pos as int, pos + v.wire().len()).subrange(0, 4)
                            =~= bytes@.subrange(pos as int, pos + 4));
                        assert(v@.len() as u32 == n32);
                    }
                }
                Err(e)
            },
        }
    }
}


// ---------------------------------------------------------------------------
// Protocol version.

/// The protocol version of the session.
#[derive(Debug, Clone, Copy, PartialEq, Eq, Structural)]
pub enum Version {
    Rfb33,
    Rfb37,
    Rfb38,
}

pub open spec fn version_33_bytes() -> Seq<u8> {
    seq![0x52u8, 0x46, 0x42, 0x20, 0x30, 0x30, 0x33, 0x2e, 0x30, 0x30, 0x33, 0x0a]
}

pub open spec fn version_37_bytes() -> Seq<u8> {
    seq![0x52u8, 0x46, 0x42, 0x20, 0x30, 0x30, 0x33, 0x2e, 0x30, 0x30, 0x37, 0x0a]
}

pub open spec fn version_38_bytes() -> Seq<u8> {
    seq![0x52u8, 0x46, 0x42, 0x20, 0x30, 0x30, 0x33, 0x2e, 0x30, 0x30, 0x38, 0x0a]
}

/// The version string Apple Remote Desktop sends; accepted as Rfb38.
pub open spec fn version_889_bytes() -> Seq<u8> {
    seq![0x52u8, 0x46, 0x42, 0x20, 0x30, 0x30, 0x33, 0x2e, 0x38, 0x38, 0x39, 0x0a]
}

fn version_33_vec() -> (r: Vec<u8>)
    ensures
        r@ == version_33_bytes(),
{
    let v: Vec<u8> = vec![0x52u8, 0x46, 0x42, 0x20, 0x30, 0x30, 0x33, 0x2e, 0x30, 0x30, 0x33, 0x0a];
    proof {
        assert(v@ =~= version_33_bytes());
    }
    v
}

fn version_37_vec() -> (r: Vec<u8>)
    ensures
        r@ == version_37_bytes(),
{
    let v: Vec<u8> = vec![0x52u8, 0x46, 0x42, 0x20, 0x30, 0x30, 0x33, 0x2e, 0x30, 0x30, 0x37, 0x0a];
    proof {
        assert(v@ =~= version_37_bytes());
    }
    v
}

fn version_38_vec() -> (r: Vec<u8>)
    ensures
        r@ == version_38_bytes(),
{
    let v: Vec<u8> = vec![0x52u8, 0x46, 0x42, 0x20, 0x30, 0x30, 0x33, 0x2e, 0x30, 0x30, 0x38, 0x0a];
    proof {
        assert(v@ =~= version_38_bytes());
    }
    v
}

fn version_889_vec() -> (r: Vec<u8>)
    ensures
        r@ == version_889_bytes(),
{
    let v: Vec<u8> = vec![0x52u8, 0x46, 0x42, 0x20, 0x30, 0x30, 0x33, 0x2e, 0x38, 0x38, 0x39, 0x0a];
    proof {
        assert(v@ =~= version_889_bytes());
    }
    v
}

impl Message for Version {
    open spec fn wf(&self) -> bool {
        true
    }

    open spec fn wire(&self) -> Seq<u8> {
        match self {
            Version::Rfb33 => version_33_bytes(),
            Version::Rfb37 => version_37_bytes(),
            Version::Rfb38 => version_38_bytes(),
        }
    }

    open spec fn parses(bytes: Seq<u8>, pos: int, v: Self, p: int) -> bool {
        let w = bytes.subrange(pos, pos + 12);
        0 <= pos && p == pos + 12 && p <= bytes.len() && ((w == version_33_bytes() && v is Rfb33)
            || (w == version_37_bytes() && v is Rfb37) || ((w == version_38_bytes() || w
            == version_889_bytes()) && v is Rfb38))
    }

    open spec fn incomplete(bytes: Seq<u8>, pos: int) -> bool {
        pos + 12 > bytes.len()
    }

    open spec fn invalid_text() -> Option<Seq<char>> {
        Some("protocol version"@)
    }

    fn write_to(&self, out: &mut Vec<u8>)
    {
        let bytes = match self {
            Version::Rfb33 => version_33_vec(),
            Version::Rfb37 => version_37_vec(),
            Version::Rfb38 => version_38_vec(),
        };
        let mut i: usize = 0;
        while i < bytes.len()
            invariant
                i <= bytes@.len(),
                out@ =~= old(out)@ + bytes@.subrange(0, i as int),
            decreases bytes@.len() - i,
        {
            out.push(bytes[i]);
            proof {
                assert(out@ =~= old(out)@ + bytes@.subrange(0, i + 1 as int));
            }
            i += 1;
        }
        proof {
            assert(bytes@.subrange(0, bytes@.len() as int) =~= bytes@);
        }
    }

    fn read_from(bytes: &Vec<u8>, pos: usize) -> (r: Result<(Self, usize), WireError>)
    {
        let (chunk, p) = match read_bytes(bytes, pos, 12) {
            Ok(x) => x,
            Err(e) => {
                return Err(e);
            },
        };
        let out = if vec_eq(&chunk, &version_33_vec()) {
            Ok((Version::Rfb33, p))
        } else if vec_eq(&chunk, &version_37_vec()) {
            Ok((Version::Rfb37, p))
        } else if vec_eq(&chunk, &version_38_vec()) {
            Ok((Version::Rfb38, p))
        } else if vec_eq(&chunk, &version_889_vec()) {
            Ok((Version::Rfb38, p))
        } else {
            Err(WireError::Invalid("protocol version"))
        };
        proof {
            assert(version_33_bytes()[10] == 0x33 && version_37_bytes()[10] == 0x37
                && version_38_bytes()[10] == 0x38 && version_889_bytes()[10] == 0x39);
            assert forall|v: Version| #![trigger v.wire()]
                v.wire().len() + pos <= bytes@.len() && v.wf() && bytes@.subrange(
                    pos as int,
                    pos + v.wire().len(),
                ) == v.wire() implies match out {
                Ok(vp) => vp.1 == pos + v.wire().len() && vp.0.wire() == v.wire(),
                Err(_) => false,
            } by {
                assert(v.wire().len() == 12);
                assert(chunk@ == v.wire());
            }
        }
        out
    }
}

// ---------------------------------------------------------------------------
// Security types.

/// A security type as the server offers it.
#[derive(Debug, Clone, Copy, PartialEq, Eq, Structural)]
pub enum SecurityType {
    Unknown(u8),
    Invalid,
    NoAuth,
    VncAuthentication,
    AppleRemoteDesktop,
}

pub open spec fn st_byte(st: SecurityType) -> u8 {
    match st {
        SecurityType::Invalid => 0u8,
        SecurityType::NoAuth => 1u8,
        SecurityType::VncAuthentication => 2u8,
        SecurityType::AppleRemoteDesktop => 30u8,
        SecurityType::Unknown(n) => n,
    }
}

pub open spec fn st_of_byte(b: u8) -> SecurityType {
    if b == 0 {
        SecurityType::Invalid
    } else if b == 1 {
        SecurityType::NoAuth
    } else if b == 2 {
        SecurityType::VncAuthentication
    } else if b == 30 {
        SecurityType::AppleRemoteDesktop
    } else {
        SecurityType::Unknown(b)
    }
}

impl Message for SecurityType {
    open spec fn wf(&self) -> bool {
        match self {
            SecurityType::Unknown(n) => *n != 0 && *n != 1 && *n != 2 && *n != 30,
            _ => true,
        }
    }

    open spec fn wire(&self) -> Seq<u8> {
        seq![st_byte(*self)]
    }

    open spec fn parses(bytes: Seq<u8>, pos: int, v: Self, p: int) -> bool {
        0 <= pos && p == pos + 1 && p <= bytes.len() && v == st_of_byte(bytes[pos])
    }

    open spec fn incomplete(bytes: Seq<u8>, pos: int) -> bool {
        pos + 1 > bytes.len()
    }

    open spec fn invalid_text() -> Option<Seq<char>> {
        Option::None
    }

    fn write_to(&self, out: &mut Vec<u8>)
    {
        let b: u8 = match self {
            SecurityType::Invalid => 0,
            SecurityType::NoAuth => 1,
            SecurityType::VncAuthentication => 2,
            SecurityType::AppleRemoteDesktop => 30,
            SecurityType::Unknown(n) => *n,
        };
        push_u8(out, b);
    }

    fn read_from(bytes: &Vec<u8>, pos: usize) -> (r: Result<(Self, usize), WireError>)
    {
        let (b, p) = match read_u8(bytes, pos) {
            Ok(x) => x,
            Err(e) => {
                return Err(e);
            },
        };
        let st = if b == 0 {
            SecurityType::Invalid
        } else if b == 1 {
            SecurityType::NoAuth
        } else if b == 2 {
            SecurityType::VncAuthentication
        } else if b == 30 {
            SecurityType::AppleRemoteDesktop
        } else {
            SecurityType::Unknown(b)
        };
        proof {
            assert forall|v: SecurityType| #![trigger v.wire()]
                v.wire().len() + pos <= bytes@.len() && v.wf() && bytes@.subrange(
                    pos as int,
                    pos + v.wire().len(),
                ) == v.wire() implies (pos + v.wire().len() == p && v.wire() == st.wire()) by {
                assert(v.wire()[0] == bytes@[pos as int]);
                assert(st_byte(v) == b);
                assert(st.wire() =~= v.wire());
            }
        }
        Ok((st, p))
    }
}

/// The list of security types the server offers.
#[derive(Debug)]
pub struct SecurityTypes(pub Vec<SecurityType>);

/// The bytes of a list of security types, one byte each.
pub open spec fn st_list_wire(l: Seq<SecurityType>) -> Seq<u8> {
    Seq::new(l.len(), |i: int| st_byte(l[i]))
}

impl Message for SecurityTypes {
    open spec fn wf(&self) -> bool {
        self.0@.len() <= 255 && forall|i: int| 0 <= i < self.0@.len() ==> (#[trigger] self.0@[i]).wf()
    }

    open spec fn wire(&self) -> Seq<u8> {
        seq![self.0@.len() as u8] + st_list_wire(self.0@)
    }

    open spec fn parses(bytes: Seq<u8>, pos: int, v: Self, p: int) -> bool {
        0 <= pos && pos + 1 <= bytes.len() && p == pos + 1 + bytes[pos] && p <= bytes.len()
            && v.0@.len() == bytes[pos] && forall|i: int|
            0 <= i < v.0@.len() ==> v.0@[i] == st_of_byte(bytes[pos + 1 + i])
    }

    open spec fn incomplete(bytes: Seq<u8>, pos: int) -> bool {
        pos + 1 > bytes.len() || pos + 1 + bytes[pos] > bytes.len()
    }

    open spec fn invalid_text() -> Option<Seq<char>> {
        Option::None
    }

    fn write_to(&self, out: &mut Vec<u8>)
    {
        push_u8(out, self.0.len() as u8);
        let mut i: usize = 0;
        while i < self.0.len()
            invariant
                i <= self.0@.len() <= 255,
                out@ =~= old(out)@ + seq![self.0@.len() as u8] + st_list_wire(
                    self.0@.subrange(0, i as int),
                ),
            decreases self.0@.len() - i,
        {
            let b: u8 = match self.0[i] {
                SecurityType::Invalid => 0,
                SecurityType::NoAuth => 1,
                SecurityType::VncAuthentication => 2,
                SecurityType::AppleRemoteDesktop => 30,
                SecurityType::Unknown(n) => n,
            };
            out.push(b);
            proof {
                assert(out@ =~= old(out)@ + seq![self.0@.len() as u8] + st_list_wire(
                    self.0@.subrange(0, i + 1 as int),
                ));
            }
            i += 1;
        }
        proof {
            assert(self.0@.subrange(0, self.0@.len() as int) =~= self.0@);
            assert(out@ =~= old(out)@ + self.wire());
        }
    }

    fn read_from(bytes: &Vec<u8>, pos: usize) -> (r: Result<(Self, usize), WireError>)
    {
        let (count, p1) = match read_u8(bytes, pos) {
            Ok(x) => x,
            Err(e) => {
                proof {
                    assert forall|v: SecurityTypes| #![trigger v.wire()]
                        v.wire().len() + pos <= bytes@.len() && v.wf() && bytes@.subrange(
                            pos as int,
                            pos + v.wire().len(),
                        ) == v.wire() implies false by {
                        assert(v.wire().len() >= 1);
                    }
                }
                return Err(e);
            },
        };
        let n = count as usize;
        if bytes.len() - p1 < n {
            proof {
                assert forall|v: SecurityTypes| #![trigger v.wire()]
                    v.wire().len() + pos <= bytes@.len() && v.wf() && bytes@.subrange(
                        pos as int,
                        pos + v.wire().len(),
                    ) == v.wire() implies false by {
                    assert(v.wire().len() == 1 + v.0@.len());
                    assert(v.wire()[0] == v.0@.len() as u8);
                    assert(bytes@[pos as int] == v.0@.len() as u8);
                    assert(v.0@.len() == count);
                }
            }
            return Err(WireError::Incomplete);
        }
        let mut list: Vec<SecurityType> = Vec::new();
        let mut i: usize = 0;
        while i < n
            invariant
                i <= n,
                p1 == pos + 1,
                pos + 1 + n <= bytes@.len(),
                bytes@.len() <= usize::MAX,
                list@.len() == i,
                forall|j: int| 0 <= j < i ==> list@[j] == st_of_byte(bytes@[p1 + j]),
            decreases n - i,
        {
            match SecurityType::read_from(bytes, p1 + i) {
                Ok((st, _)) => {
                    list.push(st);
                },
                Err(_) => {
                    proof {
                        let w = st_of_byte(bytes@[p1 + i]);
                        assert(w.wf());
                        assert(st_byte(w) == bytes@[p1 + i]);
                        assert(w.wire() =~= bytes@.subrange(p1 + i, p1 + i + 1));
                        assert(false);
                    }
                },
            };
            i += 1;
        }
        let result = SecurityTypes(list);
        proof {
            assert forall|v: SecurityTypes| #![trigger v.wire()]
                v.wire().len() + pos <= bytes@.len() && v.wf() && bytes@.subrange(
                    pos as int,
                    pos + v.wire().len(),
                ) == v.wire() implies (pos + v.wire().len() == pos + 1 + n && v.wire()
                == result.wire()) by {
                assert(v.wire().len() == 1 + v.0@.len());
                assert(v.wire()[0] == v.0@.len() as u8);
                assert(bytes@[pos as int] == v.0@.len() as u8);
                assert(v.0@.len() == count);
                assert forall|k: int| 0 <= k < v.wire().len() implies v.wire()[k]
                    == result.wire()[k] by {
                    if k >= 1 {
                        assert(v.wire()[k] == st_byte(v.0@[k - 1]));
                        assert(bytes@[pos + k] == st_byte(v.0@[k - 1]));
                        assert(result.0@[k - 1] == st_of_byte(bytes@[pos + k]));
                        assert(st_byte(st_of_byte(bytes@[pos + k])) == bytes@[pos + k]);
                    }
                }
                assert(v.wire() =~= result.wire());
            }
            assert(SecurityTypes::parses(bytes@, pos as int, result, (pos + 1 + n) as int));
        }
        Ok((result, p1 + n))
    }
}

// ---------------------------------------------------------------------------
// Security result.

/// Whether authentication succeeded.
#[derive(Debug, Clone, Copy, PartialEq, Eq, Structural)]
pub enum SecurityResult {
    Succeeded,
    Failed,
}

impl Message for SecurityResult {
    open spec fn wf(&self) -> bool {
        true
    }

    open spec fn wire(&self) -> Seq<u8> {
        match self {
            SecurityResult::Succeeded => be32(0),
            SecurityResult::Failed => be32(1),
        }
    }

    open spec fn parses(bytes: Seq<u8>, pos: int, v: Self, p: int) -> bool {
        let w = bytes.subrange(pos, pos + 4);
        0 <= pos && p == pos + 4 && p <= bytes.len() && ((w == be32(0) && v is Succeeded) || (w
            == be32(1) && v is Failed))
    }

    open spec fn incomplete(bytes: Seq<u8>, pos: int) -> bool {
        pos + 4 > bytes.len()
    }

    open spec fn invalid_text() -> Option<Seq<char>> {
        Some("security result"@)
    }

    fn write_to(&self, out: &mut Vec<u8>)
    {
        match self {
            SecurityResult::Succeeded => push_u32(out, 0),
            SecurityResult::Failed => push_u32(out, 1),
        }
    }

    fn read_from(bytes: &Vec<u8>, pos: usize) -> (r: Result<(Self, usize), WireError>)
    {
        let (word, p) = match read_u32(bytes, pos) {
            Ok(x) => x,
            Err(e) => {
                return Err(e);
            },
        };
        let out = if word == 0 {
            Ok((SecurityResult::Succeeded, p))
        } else if word == 1 {
            Ok((SecurityResult::Failed, p))
        } else {
            Err(WireError::Invalid("security result"))
        };
        proof {
            lemma_be32_inj();
            assert forall|v: SecurityResult| #![trigger v.wire()]
                v.wire().len() + pos <= bytes@.len() && v.wf() && bytes@.subrange(
                    pos as int,
                    pos + v.wire().len(),
                ) == v.wire() implies match out {
                Ok(vp) => vp.1 == pos + v.wire().len() && vp.0.wire() == v.wire(),
                Err(_) => false,
            } by {
                assert(v.wire().len() == 4);
                assert(bytes@.subrange(pos as int, pos + 4) == v.wire());
                if v is Succeeded {
                    assert(be32(word) == be32(0));
                    assert(word == 0);
                } else {
                    assert(be32(word) == be32(1));
                    assert(word == 1);
                }
            }
        }
        out
    }
}

// ---------------------------------------------------------------------------
// Client initialisation.

/// The one-byte shared-session flag the client sends after authentication.
#[derive(Debug, Clone, Copy, PartialEq, Eq, Structural)]
pub struct ClientInit {
    pub shared: bool,
}

impl Message for ClientInit {
    open spec fn wf(&self) -> bool {
        true
    }

    open spec fn wire(&self) -> Seq<u8> {
        seq![if self.shared { 1u8 } else { 0u8 }]
    }

    open spec fn parses(bytes: Seq<u8>, pos: int, v: Self, p: int) -> bool {
        0 <= pos && p == pos + 1 && p <= bytes.len() && v.shared == (bytes[pos] != 0)
    }

    open spec fn incomplete(bytes: Seq<u8>, pos: int) -> bool {
        pos + 1 > bytes.len()
    }

    open spec fn invalid_text() -> Option<Seq<char>> {
        Option::None
    }

    fn write_to(&self, out: &mut Vec<u8>)
    {
        push_u8(out, if self.shared { 1 } else { 0 });
    }

    fn read_from(bytes: &Vec<u8>, pos: usize) -> (r: Result<(Self, usize), WireError>)
    {
        let (b, p) = match read_u8(bytes, pos) {
            Ok(x) => x,
            Err(e) => {
                return Err(e);
            },
        };
        let v = ClientInit { shared: b != 0 };
        proof {
            assert forall|m: ClientInit| #![trigger m.wire()]
                m.wire().len() + pos <= bytes@.len() && m.wf() && bytes@.subrange(
                    pos as int,
                    pos + m.wire().len(),
                ) == m.wire() implies (pos + m.wire().len() == p && m.wire() == v.wire()) by {
                assert(m.wire()[0] == bytes@[pos as int]);
                assert(m.wire() =~= v.wire());
            }
        }
        Ok((v, p))
    }
}

// ---------------------------------------------------------------------------
// Encodings.

/// A framebuffer encoding named in the protocol.
#[derive(Debug, Clone, Copy, PartialEq, Eq, Structural)]
pub enum Encoding {
    Unknown(i32),
    Raw,
    CopyRect,
    Rre,
    Hextile,
    Zrle,
    Cursor,
    DesktopSize,
}

pub open spec fn enc_code(e: Encoding) -> i32 {
    match e {
        Encoding::Raw => 0i32,
        Encoding::CopyRect => 1i32,
        Encoding::Rre => 2i32,
        Encoding::Hextile => 5i32,
        Encoding::Zrle => 16i32,
        Encoding::Cursor => -239i32,
        Encoding::DesktopSize => -223i32,
        Encoding::Unknown(n) => n,
    }
}

pub open spec fn enc_of_code(n: i32) -> Encoding {
    if n == 0 {
        Encoding::Raw
    } else if n == 1 {
        Encoding::CopyRect
    } else if n == 2 {
        Encoding::Rre
    } else if n == 5 {
        Encoding::Hextile
    } else if n == 16 {
        Encoding::Zrle
    } else if n == -239 {
        Encoding::Cursor
    } else if n == -223 {
        Encoding::DesktopSize
    } else {
        Encoding::Unknown(n)
    }
}

impl Message for Encoding {
    open spec fn wf(&self) -> bool {
        match self {
            Encoding::Unknown(n) => *n != 0 && *n != 1 && *n != 2 && *n != 5 && *n != 16 && *n
                != -239 && *n != -223,
            _ => true,
        }
    }

    open spec fn wire(&self) -> Seq<u8> {
        be32i(enc_code(*self))
    }

    open spec fn parses(bytes: Seq<u8>, pos: int, v: Self, p: int) -> bool {
        0 <= pos && p == pos + 4 && p <= bytes.len() && bytes.subrange(pos, p) == be32i(enc_code(v))
            && v == enc_of_code(enc_code(v))
    }

    open spec fn incomplete(bytes: Seq<u8>, pos: int) -> bool {
        pos + 4 > bytes.len()
    }

    open spec fn invalid_text() -> Option<Seq<char>> {
        Option::None
    }

    fn write_to(&self, out: &mut Vec<u8>)
    {
        let code: i32 = match self {
            Encoding::Raw => 0,
            Encoding::CopyRect => 1,
            Encoding::Rre => 2,
            Encoding::Hextile => 5,
            Encoding::Zrle => 16,
            Encoding::Cursor => -239,
            Encoding::DesktopSize => -223,
            Encoding::Unknown(n) => *n,
        };
        push_i32(out, code);
    }

    fn read_from(bytes: &Vec<u8>, pos: usize) -> (r: Result<(Self, usize), WireError>)
    {
        let (code, p) = match read_i32(bytes, pos) {
            Ok(x) => x,
            Err(e) => {
                return Err(e);
            },
        };
        let enc = if code == 0 {
            Encoding::Raw
        } else if code == 1 {
            Encoding::CopyRect
        } else if code == 2 {
            Encoding::Rre
        } else if code == 5 {
            Encoding::Hextile
        } else if code == 16 {
            Encoding::Zrle
        } else if code == -239 {
            Encoding::Cursor
        } else if code == -223 {
            Encoding::DesktopSize
        } else {
            Encoding::Unknown(code)
        };
        proof {
            lemma_be32_inj();
            assert forall|v: Encoding| #![trigger v.wire()]
                v.wire().len() + pos <= bytes@.len() && v.wf() && bytes@.subrange(
                    pos as int,
                    pos + v.wire().len(),
                ) == v.wire() implies (pos + v.wire().len() == p && v.wire() == enc.wire()) by {
                assert(v.wire().len() == 4);
                assert(be32(enc_code(v) as u32) == be32(code as u32));
                assert(enc_code(v) as u32 == code as u32);
                let a = enc_code(v);
                assert((a as u32 == code as u32) ==> a == code) by (bit_vector);
                assert(enc_code(v) == code);
                assert(enc_code(enc) == code);
            }
            assert(enc == enc_of_code(enc_code(enc)));
        }
        Ok((enc, p))
    }
}

// ---------------------------------------------------------------------------
// Colours.

/// One entry of a colour map.
#[derive(Debug, Clone, Copy, PartialEq, Eq, Structural)]
pub struct Colour {
    pub red: u16,
    pub green: u16,
    pub blue: u16,
}

impl Message for Colour {
    open spec fn wf(&self) -> bool {
        true
    }

    open spec fn incomplete(bytes: Seq<u8>, pos: int) -> bool {
        pos + 6 > bytes.len()
    }

    open spec fn invalid_text() -> Option<Seq<char>> {
        Option::None
    }

    open spec fn wire(&self) -> Seq<u8> {
        be16(self.red) + be16(self.green) + be16(self.blue)
    }

    open spec fn parses(bytes: Seq<u8>, pos: int, v: Self, p: int) -> bool {
        0 <= pos && p == pos + 6 && p <= bytes.len() && bytes.subrange(pos, p) == v.wire()
    }

    fn write_to(&self, out: &mut Vec<u8>)
    {
        push_u16(out, self.red);
        push_u16(out, self.green);
        push_u16(out, self.blue);
        proof {
            assert(out@ =~= old(out)@ + self.wire());
        }
    }

    fn read_from(bytes: &Vec<u8>, pos: usize) -> (r: Result<(Self, usize), WireError>)
    {
        if bytes.len() - pos < 6 {
            proof {
                assert forall|v: Colour| #![trigger v.wire()]
                    v.wire().len() + pos <= bytes@.len() && v.wf() && bytes@.subrange(
                        pos as int,
                        pos + v.wire().len(),
                    ) == v.wire() implies false by {
                    assert(v.wire().len() == 6);
                }
            }
            return Err(WireError::Incomplete);
        }
        let (red, p1) = match read_u16(bytes, pos) {
            Ok(x) => x,
            Err(_) => {
                proof {
                    assert(false);
                }
                return Err(WireError::Incomplete);
            },
        };
        let (green, p2) = match read_u16(bytes, p1) {
            Ok(x) => x,
            Err(_) => {
                proof {
                    assert(false);
                }
                return Err(WireError::Incomplete);
            },
        };
        let (blue, p3) = match read_u16(bytes, p2) {
            Ok(x) => x,
            Err(_) => {
                proof {
                    assert(false);
                }
                return Err(WireError::Incomplete);
            },
        };
        let v = Colour { red, green, blue };
        proof {
            assert(v.wire() =~= bytes@.subrange(pos as int, p3 as int));
            assert forall|m: Colour| #![trigger m.wire()]
                m.wire().len() + pos <= bytes@.len() && m.wf() && bytes@.subrange(
                    pos as int,
                    pos + m.wire().len(),
                ) == m.wire() implies (pos + m.wire().len() == p3 && m.wire() == v.wire()) by {
                assert(m.wire().len() == 6);
            }
        }
        Ok((v, p3))
    }
}

// ---------------------------------------------------------------------------
// CopyRect payload.

/// The source position of a CopyRect rectangle.
#[derive(Debug, Clone, Copy, PartialEq, Eq, Structural)]
pub struct CopyRect {
    pub src_x_position: u16,
    pub src_y_position: u16,
}

impl Message for CopyRect {
    open spec fn wf(&self) -> bool {
        true
    }

    open spec fn incomplete(bytes: Seq<u8>, pos: int) -> bool {
        pos + 4 > bytes.len()
    }

    open spec fn invalid_text() -> Option<Seq<char>> {
        Option::None
    }

    open spec fn wire(&self) -> Seq<u8> {
        be16(self.src_x_position) + be16(self.src_y_position)
    }

    open spec fn parses(bytes: Seq<u8>, pos: int, v: Self, p: int) -> bool {
        0 <= pos && p == pos + 4 && p <= bytes.len() && bytes.subrange(pos, p) == v.wire()
    }

    fn write_to(&self, out: &mut Vec<u8>)
    {
        push_u16(out, self.src_x_position);
        push_u16(out, self.src_y_position);
        proof {
            assert(out@ =~= old(out)@ + self.wire());
        }
    }

    fn read_from(bytes: &Vec<u8>, pos: usize) -> (r: Result<(Self, usize), WireError>)
    {
        if bytes.len() - pos < 4 {
            proof {
                assert forall|v: CopyRect| #![trigger v.wire()]
                    v.wire().len() + pos <= bytes@.len() && v.wf() && bytes@.subrange(
                        pos as int,
                        pos + v.wire().len(),
                    ) == v.wire() implies false by {
                    assert(v.wire().len() == 4);
                }
            }
            return Err(WireError::Incomplete);
        }
        let (x, p1) = match read_u16(bytes, pos) {
            Ok(x) => x,
            Err(_) => {
                proof {
                    assert(false);
                }
                return Err(WireError::Incomplete);
            },
        };
        let (y, p2) = match read_u16(bytes, p1) {
            Ok(x) => x,
            Err(_) => {
                proof {
                    assert(false);
                }
                return Err(WireError::Incomplete);
            },
        };
        let v = CopyRect { src_x_position: x, src_y_position: y };
        proof {
            assert(v.wire() =~= bytes@.subrange(pos as int, p2 as int));
            assert forall|m: CopyRect| #![trigger m.wire()]
                m.wire().len() + pos <= bytes@.len() && m.wf() && bytes@.subrange(
                    pos as int,
                    pos + m.wire().len(),
                ) == m.wire() implies (pos + m.wire().len() == p2 && m.wire() == v.wire()) by {
                assert(m.wire().len() == 4);
            }
        }
        Ok((v, p2))
    }
}


// ---------------------------------------------------------------------------
// Pixel format.

pub open spec fn bool_byte(b: bool) -> u8 {
    if b {
        1u8
    } else {
        0u8
    }
}

/// The pixel format of the session, fixed after ServerInit.
#[derive(Debug, Clone, Copy, PartialEq, Eq, Structural)]
pub struct PixelFormat {
    pub bits_per_pixel: u8,
    pub depth: u8,
    pub big_endian: bool,
    pub true_colour: bool,
    pub red_max: u16,
    pub green_max: u16,
    pub blue_max: u16,
    pub red_shift: u8,
    pub green_shift: u8,
    pub blue_shift: u8,
}

impl Message for PixelFormat {
    open spec fn wf(&self) -> bool {
        true
    }

    open spec fn wire(&self) -> Seq<u8> {
        seq![
            self.bits_per_pixel,
            self.depth,
            bool_byte(self.big_endian),
            bool_byte(self.true_colour),
        ] + be16(self.red_max) + be16(self.green_max) + be16(self.blue_max) + seq![
            self.red_shift,
            self.green_shift,
            self.blue_shift,
        ] + pad(3)
    }

    open spec fn parses(bytes: Seq<u8>, pos: int, v: Self, p: int) -> bool {
        0 <= pos && p == pos + 16 && p <= bytes.len() && v.bits_per_pixel == bytes[pos] && v.depth
            == bytes[pos + 1] && v.big_endian == (bytes[pos + 2] != 0) && v.true_colour == (bytes[
            pos + 3] != 0) && be16(v.red_max) == bytes.subrange(pos + 4, pos + 6) && be16(
            v.green_max,
        ) == bytes.subrange(pos + 6, pos + 8) && be16(v.blue_max) == bytes.subrange(
            pos + 8,
            pos + 10,
        ) && v.red_shift == bytes[pos + 10] && v.green_shift == bytes[pos + 11] && v.blue_shift
            == bytes[pos + 12]
    }

    open spec fn incomplete(bytes: Seq<u8>, pos: int) -> bool {
        pos + 16 > bytes.len()
    }

    open spec fn invalid_text() -> Option<Seq<char>> {
        Option::None
    }

    fn write_to(&self, out: &mut Vec<u8>)
    {
        push_u8(out, self.bits_per_pixel);
        push_u8(out, self.depth);
        push_u8(out, if self.big_endian { 1 } else { 0 });
        push_u8(out, if self.true_colour { 1 } else { 0 });
        push_u16(out, self.red_max);
        push_u16(out, self.green_max);
        push_u16(out, self.blue_max);
        push_u8(out, self.red_shift);
        push_u8(out, self.green_shift);
        push_u8(out, self.blue_shift);
        push_pad(out, 3);
        proof {
            assert(out@ =~= old(out)@ + self.wire());
        }
    }

    fn read_from(bytes: &Vec<u8>, pos: usize) -> (r: Result<(Self, usize), WireError>)
    {
        if bytes.len() - pos < 16 {
            proof {
                assert forall|v: PixelFormat| #![trigger v.wire()]
                    v.wire().len() + pos <= bytes@.len() && v.wf() && bytes@.subrange(
                        pos as int,
                        pos + v.wire().len(),
                    ) == v.wire() implies false by {
                    assert(v.wire().len() == 16);
                }
            }
            return Err(WireError::Incomplete);
        }
        let bits_per_pixel = bytes[pos];
        let depth = bytes[pos + 1];
        let big_endian = bytes[pos + 2] != 0;
        let true_colour = bytes[pos + 3] != 0;
        let (red_max, _) = match read_u16(bytes, pos + 4) {
            Ok(x) => x,
            Err(_) => {
                proof {
                    assert(false);
                }
                return Err(WireError::Incomplete);
            },
        };
        let (green_max, _) = match read_u16(bytes, pos + 6) {
            Ok(x) => x,
            Err(_) => {
                proof {
                    assert(false);
                }
                return Err(WireError::Incomplete);
            },
        };
        let (blue_max, _) = match read_u16(bytes, pos + 8) {
            Ok(x) => x,
            Err(_) => {
                proof {
                    assert(false);
                }
                return Err(WireError::Incomplete);
            },
        };
        let red_shift = bytes[pos + 10];
        let green_shift = bytes[pos + 11];
        let blue_shift = bytes[pos + 12];
        let v = PixelFormat {
            bits_per_pixel,
            depth,
            big_endian,
            true_colour,
            red_max,
            green_max,
            blue_max,
            red_shift,
            green_shift,
            blue_shift,
        };
        proof {
            assert(PixelFormat::parses(bytes@, pos as int, v, pos + 16));
            assert forall|m: PixelFormat| #![trigger m.wire()]
                m.wire().len() + pos <= bytes@.len() && m.wf() && bytes@.subrange(
                    pos as int,
                    pos + m.wire().len(),
                ) == m.wire() implies (pos + m.wire().len() == pos + 16 && m.wire() == v.wire()) by {
                assert(m.wire().len() == 16);
                let w = bytes@.subrange(pos as int, pos + 16);
                assert forall|k: int| 0 <= k < 16 implies m.wire()[k] == bytes@[pos + k] by {
                    assert(m.wire()[k] == w[k]);
                }
                assert(m.wire().subrange(4, 6) =~= be16(m.red_max));
                assert(w.subrange(4, 6) =~= bytes@.subrange(pos + 4, pos + 6));
                assert(m.wire().subrange(6, 8) =~= be16(m.green_max));
                assert(w.subrange(6, 8) =~= bytes@.subrange(pos + 6, pos + 8));
                assert(m.wire().subrange(8, 10) =~= be16(m.blue_max));
                assert(w.subrange(8, 10) =~= bytes@.subrange(pos + 8, pos + 10));
                assert(be16(m.red_max) == bytes@.subrange(pos + 4, pos + 6));
                assert(be16(m.green_max) == bytes@.subrange(pos + 6, pos + 8));
                assert(be16(m.blue_max) == bytes@.subrange(pos + 8, pos + 10));
                lemma_be16_inj();
                assert(m.red_max == red_max && m.green_max == green_max && m.blue_max == blue_max);
                assert(m.wire() =~= v.wire());
            }
        }
        Ok((v, pos + 16))
    }
}

// ---------------------------------------------------------------------------
// Server initialisation.

/// What the server announces after the handshake: framebuffer size, pixel
/// format, and its name as Latin-1 bytes.
#[derive(Debug)]
pub struct ServerInit {
    pub framebuffer_width: u16,
    pub framebuffer_height: u16,
    pub pixel_format: PixelFormat,
    pub name: Vec<u8>,
}

impl Message for ServerInit {
    open spec fn wf(&self) -> bool {
        self.name.wf()
    }

    open spec fn wire(&self) -> Seq<u8> {
        be16(self.framebuffer_width) + be16(self.framebuffer_height) + self.pixel_format.wire()
            + self.name.wire()
    }

    open spec fn parses(bytes: Seq<u8>, pos: int, v: Self, p: int) -> bool {
        0 <= pos && pos + 4 <= bytes.len() && be16(v.framebuffer_width) == bytes.subrange(
            pos,
            pos + 2,
        ) && be16(v.framebuffer_height) == bytes.subrange(pos + 2, pos + 4)
            && PixelFormat::parses(bytes, pos + 4, v.pixel_format, pos + 20) && Vec::<u8>::parses(
            bytes,
            pos + 20,
            v.name,
            p,
        )
    }

    open spec fn incomplete(bytes: Seq<u8>, pos: int) -> bool {
        pos + 20 > bytes.len() || <Vec<u8> as Message>::incomplete(bytes, pos + 20)
    }

    open spec fn invalid_text() -> Option<Seq<char>> {
        Option::None
    }

    fn write_to(&self, out: &mut Vec<u8>)
    {
        push_u16(out, self.framebuffer_width);
        push_u16(out, self.framebuffer_height);
        self.pixel_format.write_to(out);
        self.name.write_to(out);
        proof {
            assert(out@ =~= old(out)@ + self.wire());
        }
    }

    fn read_from(bytes: &Vec<u8>, pos: usize) -> (r: Result<(Self, usize), WireError>)
    {
        let (width, p1) = match read_u16(bytes, pos) {
            Ok(x) => x,
            Err(e) => {
                proof {
                    assert forall|m: ServerInit| #![trigger m.wire()]
                        m.wire().len() + pos <= bytes@.len() && m.wf() && bytes@.subrange(
                            pos as int,
                            pos + m.wire().len(),
                        ) == m.wire() implies false by {
                        assert(m.wire().len() >= 24);
                    }
                }
                return Err(e);
            },
        };
        let (height, p2) = match read_u16(bytes, p1) {
            Ok(x) => x,
            Err(e) => {
                proof {
                    assert forall|m: ServerInit| #![trigger m.wire()]
                        m.wire().len() + pos <= bytes@.len() && m.wf() && bytes@.subrange(
                            pos as int,
                            pos + m.wire().len(),
                        ) == m.wire() implies false by {
                        assert(m.wire().len() >= 24);
                    }
                }
                return Err(e);
            },
        };
        let (pixel_format, p3) = match PixelFormat::read_from(bytes, p2) {
            Ok(x) => x,
            Err(e) => {
                proof {
                    assert forall|m: ServerInit| #![trigger m.wire()]
                        m.wire().len() + pos <= bytes@.len() && m.wf() && bytes@.subrange(
                            pos as int,
                            pos + m.wire().len(),
                        ) == m.wire() implies false by {
                        assert(m.wire().len() >= 24);
                        assert(m.wire().subrange(4, 20) =~= m.pixel_format.wire());
                        assert(bytes@.subrange(pos as int, pos + m.wire().len()).subrange(4, 20)
                            =~= bytes@.subrange(pos + 4, pos + 20));
                        assert(bytes@.subrange(pos + 4, pos + 20) == m.pixel_format.wire());
                    }
                }
                return Err(e);
            },
        };
        let (name, p4) = match Vec::<u8>::read_from(bytes, p3) {
            Ok(x) => x,
            Err(e) => {
                proof {
                    assert(p3 as int == pos + 20);
                    assert(e is Incomplete <==> <Vec<u8> as Message>::incomplete(
                        bytes@,
                        pos + 20,
                    ));
                    assert(e is Incomplete <==> ServerInit::incomplete(bytes@, pos as int));
                    assert forall|m: ServerInit| #![trigger m.wire()]
                        m.wire().len() + pos <= bytes@.len() && m.wf() && bytes@.subrange(
                            pos as int,
                            pos + m.wire().len(),
                        ) == m.wire() implies false by {
                        let nl = m.name.wire().len() as int;
                        assert(m.wire().len() == 20 + nl);
                        assert(m.wire().subrange(20, 20 + nl) =~= m.name.wire());
                        assert(bytes@.subrange(pos as int, pos + m.wire().len()).subrange(
                            20,
                            20 + nl,
                        ) =~= bytes@.subrange(pos + 20, pos + 20 + nl));
                        assert(bytes@.subrange(pos + 20, pos + 20 + nl) == m.name.wire());
                    }
                }
                return Err(e);
            },
        };
        let v = ServerInit { framebuffer_width: width, framebuffer_height: height, pixel_format, name };
        proof {
            assert forall|m: ServerInit| #![trigger m.wire()]
                m.wire().len() + pos <= bytes@.len() && m.wf() && bytes@.subrange(
                    pos as int,
                    pos + m.wire().len(),
                ) == m.wire() implies (pos + m.wire().len() == p4 && m.wire() == v.wire()) by {
                let nl = m.name.wire().len() as int;
                assert(m.wire().len() == 20 + nl);
                let w = bytes@.subrange(pos as int, pos + m.wire().len());
                assert(m.wire().subrange(0, 2) =~= be16(m.framebuffer_width));
                assert(w.subrange(0, 2) =~= bytes@.subrange(pos as int, pos + 2));
                assert(m.wire().subrange(2, 4) =~= be16(m.framebuffer_height));
                assert(w.subrange(2, 4) =~= bytes@.subrange(pos + 2, pos + 4));
                assert(m.wire().subrange(4, 20) =~= m.pixel_format.wire());
                assert(w.subrange(4, 20) =~= bytes@.subrange(pos + 4, pos + 20));
                assert(m.wire().subrange(20, 20 + nl) =~= m.name.wire());
                assert(w.subrange(20, 20 + nl) =~= bytes@.subrange(pos + 20, pos + 20 + nl));
                assert(bytes@.subrange(pos + 20, pos + 20 + nl) == m.name.wire());
                assert(pos + 20 + nl == p4 && m.name.wire() == name.wire());
                assert(m.pixel_format.wire() == pixel_format.wire());
                assert(be16(m.framebuffer_width) == bytes@.subrange(pos as int, pos + 2));
                assert(be16(m.framebuffer_height) == bytes@.subrange(pos + 2, pos + 4));
                assert(be16(width) == bytes@.subrange(pos as int, pos + 2));
                assert(be16(height) == bytes@.subrange(pos + 2, pos + 4));
                assert(m.wire() =~= v.wire());
            }
        }
        Ok((v, p4))
    }
}

// ---------------------------------------------------------------------------
// Rectangle headers.

/// The header of one rectangle inside a framebuffer update.
#[derive(Debug, Clone, Copy, PartialEq, Eq, Structural)]
pub struct Rectangle {
    pub x_position: u16,
    pub y_position: u16,
    pub width: u16,
    pub height: u16,
    pub encoding: Encoding,
}

impl Message for Rectangle {
    open spec fn wf(&self) -> bool {
        self.encoding.wf()
    }

    open spec fn wire(&self) -> Seq<u8> {
        be16(self.x_position) + be16(self.y_position) + be16(self.width) + be16(self.height)
            + self.encoding.wire()
    }

    open spec fn parses(bytes: Seq<u8>, pos: int, v: Self, p: int) -> bool {
        0 <= pos && p == pos + 12 && p <= bytes.len() && be16(v.x_position) == bytes.subrange(
            pos,
            pos + 2,
        ) && be16(v.y_position) == bytes.subrange(pos + 2, pos + 4) && be16(v.width)
            == bytes.subrange(pos + 4, pos + 6) && be16(v.height) == bytes.subrange(pos + 6, pos + 8)
            && Encoding::parses(bytes, pos + 8, v.encoding, pos + 12)
    }

    open spec fn incomplete(bytes: Seq<u8>, pos: int) -> bool {
        pos + 12 > bytes.len()
    }

    open spec fn invalid_text() -> Option<Seq<char>> {
        Option::None
    }

    fn write_to(&self, out: &mut Vec<u8>)
    {
        push_u16(out, self.x_position);
        push_u16(out, self.y_position);
        push_u16(out, self.width);
        push_u16(out, self.height);
        self.encoding.write_to(out);
        proof {
            assert(out@ =~= old(out)@ + self.wire());
        }
    }

    fn read_from(bytes: &Vec<u8>, pos: usize) -> (r: Result<(Self, usize), WireError>)
    {
        if bytes.len() - pos < 12 {
            proof {
                assert forall|m: Rectangle| #![trigger m.wire()]
                    m.wire().len() + pos <= bytes@.len() && m.wf() && bytes@.subrange(
                        pos as int,
                        pos + m.wire().len(),
                    ) == m.wire() implies false by {
                    assert(m.wire().len() == 12);
                }
            }
            return Err(WireError::Incomplete);
        }
        let (x, _) = match read_u16(bytes, pos) {
            Ok(v) => v,
            Err(_) => {
                proof {
                    assert(false);
                }
                return Err(WireError::Incomplete);
            },
        };
        let (y, _) = match read_u16(bytes, pos + 2) {
            Ok(v) => v,
            Err(_) => {
                proof {
                    assert(false);
                }
                return Err(WireError::Incomplete);
            },
        };
        let (w, _) = match read_u16(bytes, pos + 4) {
            Ok(v) => v,
            Err(_) => {
                proof {
                    assert(false);
                }
                return Err(WireError::Incomplete);
            },
        };
        let (h, _) = match read_u16(bytes, pos + 6) {
            Ok(v) => v,
            Err(_) => {
                proof {
                    assert(false);
                }
                return Err(WireError::Incomplete);
            },
        };
        let (encoding, p5) = match Encoding::read_from(bytes, pos + 8) {
            Ok(v) => v,
            Err(_) => {
                proof {
                    let wcode = ((bytes@[pos + 8] as u32) << 24) | ((bytes@[pos + 9] as u32) << 16)
                        | ((bytes@[pos + 10] as u32) << 8) | (bytes@[pos + 11] as u32);
                    let e = enc_of_code(wcode as i32);
                    assert(e.wf());
                    assert(enc_code(e) == wcode as i32);
                    lemma_word_bytes(bytes@, pos + 8);
                    assert(e.wire() == bytes@.subrange(pos + 8, pos + 12));
                    assert(false);
                }
                return Err(WireError::Incomplete);
            },
        };
        let v = Rectangle { x_position: x, y_position: y, width: w, height: h, encoding };
        proof {
            assert(Rectangle::parses(bytes@, pos as int, v, pos + 12));
            assert forall|m: Rectangle| #![trigger m.wire()]
                m.wire().len() + pos <= bytes@.len() && m.wf() && bytes@.subrange(
                    pos as int,
                    pos + m.wire().len(),
                ) == m.wire() implies (pos + m.wire().len() == p5 && m.wire() == v.wire()) by {
                assert(m.wire().len() == 12);
                let w2 = bytes@.subrange(pos as int, pos + 12);
                assert(m.wire().subrange(0, 2) =~= be16(m.x_position));
                assert(w2.subrange(0, 2) =~= bytes@.subrange(pos as int, pos + 2));
                assert(m.wire().subrange(2, 4) =~= be16(m.y_position));
                assert(w2.subrange(2, 4) =~= bytes@.subrange(pos + 2, pos + 4));
                assert(m.wire().subrange(4, 6) =~= be16(m.width));
                assert(w2.subrange(4, 6) =~= bytes@.subrange(pos + 4, pos + 6));
                assert(m.wire().subrange(6, 8) =~= be16(m.height));
                assert(w2.subrange(6, 8) =~= bytes@.subrange(pos + 6, pos + 8));
                assert(m.wire().subrange(8, 12) =~= m.encoding.wire());
                assert(w2.subrange(8, 12) =~= bytes@.subrange(pos + 8, pos + 12));
                assert(m.encoding.wire() == bytes@.subrange(pos + 8, pos + 12));
                assert(m.encoding.wire() == encoding.wire());
                assert(m.wire() =~= v.wire());
            }
        }
        Ok((v, p5))
    }
}

// ---------------------------------------------------------------------------
// Apple Remote Desktop handshake (read side only on a client).

/// The Diffie-Hellman parameters the server sends for Apple Remote Desktop
/// authentication.
#[derive(Debug)]
pub struct AppleAuthHandshake {
    pub generator: u16,
    pub prime: Vec<u8>,
    pub peer_key: Vec<u8>,
}

impl Message for AppleAuthHandshake {
    open spec fn wf(&self) -> bool {
        self.prime@.len() == self.peer_key@.len() && self.prime@.len() <= 0xFFFF
    }

    open spec fn wire(&self) -> Seq<u8> {
        be16(self.generator) + be16(self.prime@.len() as u16) + self.prime@ + self.peer_key@
    }

    open spec fn parses(bytes: Seq<u8>, pos: int, v: Self, p: int) -> bool {
        0 <= pos && pos + 4 <= bytes.len() && be16(v.generator) == bytes.subrange(pos, pos + 2)
            && be16(v.prime@.len() as u16) == bytes.subrange(pos + 2, pos + 4) && v.prime@.len()
            == v.peer_key@.len() && p == pos + 4 + 2 * v.prime@.len() && p <= bytes.len()
            && v.prime@ == bytes.subrange(pos + 4, pos + 4 + v.prime@.len() as int) && v.peer_key@
            == bytes.subrange(pos + 4 + v.prime@.len() as int, p)
    }

    open spec fn incomplete(bytes: Seq<u8>, pos: int) -> bool {
        pos + 4 > bytes.len() || pos + 4 + 2 * be16_at(bytes, pos + 2) > bytes.len()
    }

    open spec fn invalid_text() -> Option<Seq<char>> {
        Option::None
    }

    fn write_to(&self, out: &mut Vec<u8>)
    {
        push_u16(out, self.generator);
        push_u16(out, self.prime.len() as u16);
        let mut i: usize = 0;
        while i < self.prime.len()
            invariant
                i <= self.prime@.len(),
                out@ =~= old(out)@ + be16(self.generator) + be16(self.prime@.len() as u16)
                    + self.prime@.subrange(0, i as int),
            decreases self.prime@.len() - i,
        {
            out.push(self.prime[i]);
            proof {
                assert(out@ =~= old(out)@ + be16(self.generator) + be16(self.prime@.len() as u16)
                    + self.prime@.subrange(0, i + 1 as int));
            }
            i += 1;
        }
        proof {
            assert(self.prime@.subrange(0, self.prime@.len() as int) =~= self.prime@);
        }
        let mut j: usize = 0;
        while j < self.peer_key.len()
            invariant
                j <= self.peer_key@.len(),
                out@ =~= old(out)@ + be16(self.generator) + be16(self.prime@.len() as u16)
                    + self.prime@ + self.peer_key@.subrange(0, j as int),
            decreases self.peer_key@.len() - j,
        {
            out.push(self.peer_key[j]);
            proof {
                assert(out@ =~= old(out)@ + be16(self.generator) + be16(self.prime@.len() as u16)
                    + self.prime@ + self.peer_key@.subrange(0, j + 1 as int));
            }
            j += 1;
        }
        proof {
            assert(self.peer_key@.subrange(0, self.peer_key@.len() as int) =~= self.peer_key@);
            assert(out@ =~= old(out)@ + self.wire());
        }
    }

    fn read_from(bytes: &Vec<u8>, pos: usize) -> (r: Result<(Self, usize), WireError>)
    {
        let (generator, p1) = match read_u16(bytes, pos) {
            Ok(x) => x,
            Err(e) => {
                proof {
                    assert forall|m: AppleAuthHandshake| #![trigger m.wire()]
                        m.wire().len() + pos <= bytes@.len() && m.wf() && bytes@.subrange(
                            pos as int,
                            pos + m.wire().len(),
                        ) == m.wire() implies false by {
                        assert(m.wire().len() >= 4);
                    }
                }
                return Err(e);
            },
        };
        let (key_length, p2) = match read_u16(bytes, p1) {
            Ok(x) => x,
            Err(e) => {
                proof {
                    assert forall|m: AppleAuthHandshake| #![trigger m.wire()]
                        m.wire().len() + pos <= bytes@.len() && m.wf() && bytes@.subrange(
                            pos as int,
                            pos + m.wire().len(),
                        ) == m.wire() implies false by {
                        assert(m.wire().len() >= 4);
                    }
                }
                return Err(e);
            },
        };
        let kl = key_length as usize;
        proof {
            lemma_be16_inj();
            assert forall|m: AppleAuthHandshake| #![trigger m.wire()]
                m.wire().len() + pos <= bytes@.len() && m.wf() && bytes@.subrange(
                    pos as int,
                    pos + m.wire().len(),
                ) == m.wire() implies m.prime@.len() == kl && m.wire().len() == 4 + 2 * kl by {
                let w = bytes@.subrange(pos as int, pos + m.wire().len());
                assert(m.wire().subrange(2, 4) =~= be16(m.prime@.len() as u16));
                assert(w.subrange(2, 4) =~= bytes@.subrange(pos + 2, pos + 4));
                assert(be16(m.prime@.len() as u16) == be16(key_length));
                assert(m.prime@.len() as u16 == key_length);
            }
        }
        proof {
            lemma_half_bytes(bytes@, pos + 2);
            lemma_be16_inj();
            assert(be16(be16_at(bytes@, pos + 2)) == bytes@.subrange(pos + 2, pos + 4));
            assert(be16_at(bytes@, pos + 2) == key_length);
        }
        let (prime, p3) = match read_bytes(bytes, p2, kl) {
            Ok(x) => x,
            Err(e) => {
                proof {
                    assert(AppleAuthHandshake::incomplete(bytes@, pos as int));
                }
                return Err(e);
            },
        };
        let (peer_key, p4) = match read_bytes(bytes, p3, kl) {
            Ok(x) => x,
            Err(e) => {
                proof {
                    assert(AppleAuthHandshake::incomplete(bytes@, pos as int));
                }
                return Err(e);
            },
        };
        let v = AppleAuthHandshake { generator, prime, peer_key };
        proof {
            assert(AppleAuthHandshake::parses(bytes@, pos as int, v, p4 as int));
            assert forall|m: AppleAuthHandshake| #![trigger m.wire()]
                m.wire().len() + pos <= bytes@.len() && m.wf() && bytes@.subrange(
                    pos as int,
                    pos + m.wire().len(),
                ) == m.wire() implies (pos + m.wire().len() == p4 && m.wire() == v.wire()) by {
                assert(m.wire().len() == 4 + 2 * kl);
                let w = bytes@.subrange(pos as int, pos + m.wire().len());
                assert(m.wire().subrange(0, 2) =~= be16(m.generator));
                assert(w.subrange(0, 2) =~= bytes@.subrange(pos as int, pos + 2));
                assert(m.wire().subrange(2, 4) =~= be16(m.prime@.len() as u16));
                assert(w.subrange(2, 4) =~= bytes@.subrange(pos + 2, pos + 4));
                assert(m.wire().subrange(4, 4 + kl as int) =~= m.prime@);
                assert(w.subrange(4, 4 + kl as int) =~= bytes@.subrange(pos + 4, pos + 4 + kl));
                assert(m.wire().subrange(4 + kl as int, 4 + 2 * kl as int) =~= m.peer_key@);
                assert(w.subrange(4 + kl as int, 4 + 2 * kl as int) =~= bytes@.subrange(
                    pos + 4 + kl,
                    pos + 4 + 2 * kl,
                ));
                assert(m.wire() =~= v.wire());
            }
        }
        Ok((v, p4))
    }
}

/// The client's answer to the Apple Remote Desktop handshake: the encrypted
/// credential block followed by the client's public key. It is only ever
/// written; its encoding is not self-delimiting, so it has no reader.
pub struct AppleAuthResponse {
    pub ciphertext: Vec<u8>,
    pub pub_key: Vec<u8>,
}

impl AppleAuthResponse {
    pub open spec fn wf(&self) -> bool {
        self.ciphertext@.len() == 128
    }

    pub open spec fn wire(&self) -> Seq<u8> {
        self.ciphertext@ + self.pub_key@
    }

    /// Append the encoding of `self` to `out`.
    pub fn write_to(&self, out: &mut Vec<u8>)
        requires
            self.wf(),
        ensures
            final(out)@ == old(out)@ + self.wire(),
    {
        let mut i: usize = 0;
        while i < self.ciphertext.len()
            invariant
                i <= self.ciphertext@.len(),
                out@ =~= old(out)@ + self.ciphertext@.subrange(0, i as int),
            decreases self.ciphertext@.len() - i,
        {
            out.push(self.ciphertext[i]);
            proof {
                assert(out@ =~= old(out)@ + self.ciphertext@.subrange(0, i + 1 as int));
            }
            i += 1;
        }
        proof {
            assert(self.ciphertext@.subrange(0, self.ciphertext@.len() as int)
                =~= self.ciphertext@);
        }
        let mut j: usize = 0;
        while j < self.pub_key.len()
            invariant
                j <= self.pub_key@.len(),
                out@ =~= old(out)@ + self.ciphertext@ + self.pub_key@.subrange(0, j as int),
            decreases self.pub_key@.len() - j,
        {
            out.push(self.pub_key[j]);
            proof {
                assert(out@ =~= old(out)@ + self.ciphertext@ + self.pub_key@.subrange(
                    0,
                    j + 1 as int,
                ));
            }
            j += 1;
        }
        proof {
            assert(self.pub_key@.subrange(0, self.pub_key@.len() as int) =~= self.pub_key@);
            assert(out@ =~= old(out)@ + self.wire());
        }
    }
}

/// Reconstructing a 32-bit word from four bytes gives back those bytes.
pub proof fn lemma_word_bytes(bytes: Seq<u8>, q: int)
    requires
        0 <= q,
        q + 4 <= bytes.len(),
    ensures
        ({
            let w = ((bytes[q] as u32) << 24) | ((bytes[q + 1] as u32) << 16) | ((bytes[q
                + 2] as u32) << 8) | (bytes[q + 3] as u32);
            be32i(w as i32) == bytes.subrange(q, q + 4)
        }),
{
    let b0 = bytes[q];
    let b1 = bytes[q + 1];
    let b2 = bytes[q + 2];
    let b3 = bytes[q + 3];
    let w = ((b0 as u32) << 24) | ((b1 as u32) << 16) | ((b2 as u32) << 8) | (b3 as u32);
    assert((w as i32) as u32 == w && (w >> 24) as u8 == b0 && (w >> 16) as u8 == b1 && (w >> 8) as u8
        == b2 && w as u8 == b3) by (bit_vector)
        requires
            w == ((b0 as u32) << 24) | ((b1 as u32) << 16) | ((b2 as u32) << 8) | (b3 as u32),
    ;
    assert(be32i(w as i32) =~= bytes.subrange(q, q + 4));
}


// ---------------------------------------------------------------------------
// Client-to-server messages.

/// The bytes of a list of encodings, four bytes each.
pub open spec fn enc_list_wire(l: Seq<Encoding>) -> Seq<u8>
    decreases l.len(),
{
    if l.len() == 0 {
        Seq::empty()
    } else {
        enc_list_wire(l.drop_last()) + l.last().wire()
    }
}

pub proof fn lemma_enc_list_wire_len(l: Seq<Encoding>)
    ensures
        enc_list_wire(l).len() == 4 * l.len(),
    decreases l.len(),
{
    if l.len() > 0 {
        lemma_enc_list_wire_len(l.drop_last());
    }
}

pub proof fn lemma_enc_list_wire_index(l: Seq<Encoding>, i: int)
    requires
        0 <= i < l.len(),
    ensures
        enc_list_wire(l).subrange(4 * i, 4 * i + 4) == l[i].wire(),
    decreases l.len(),
{
    lemma_enc_list_wire_len(l);
    lemma_enc_list_wire_len(l.drop_last());
    if i == l.len() - 1 {
        assert(enc_list_wire(l).subrange(4 * i, 4 * i + 4) =~= l[i].wire());
    } else {
        lemma_enc_list_wire_index(l.drop_last(), i);
        assert(enc_list_wire(l).subrange(4 * i, 4 * i + 4) =~= enc_list_wire(
            l.drop_last(),
        ).subrange(4 * i, 4 * i + 4));
    }
}

/// A message from the client to the server.
#[derive(Debug)]
pub enum C2S {
    SetPixelFormat(PixelFormat),
    SetEncodings(Vec<Encoding>),
    FramebufferUpdateRequest {
        incremental: bool,
        x_position: u16,
        y_position: u16,
        width: u16,
        height: u16,
    },
    KeyEvent { down: bool, key: u32 },
    PointerEvent { button_mask: u8, x_position: u16, y_position: u16 },
    CutText(Vec<u8>),
}

fn c2s_read_set_pixel_format(bytes: &Vec<u8>, pos: usize) -> (r: Result<(C2S, usize), WireError>)
    requires
        pos + 1 <= bytes@.len(),
        bytes@[pos as int] == 0,
    ensures
        match r {
            Ok((v, p)) => C2S::parses(bytes@, pos as int, v, p as int) && pos <= p && p
                <= bytes@.len() && v.wf(),
            Err(e) => (e is Incomplete <==> C2S::incomplete(bytes@, pos as int)) && (match e {
                WireError::Invalid(s) => C2S::invalid_text() == Some(s@),
                _ => true,
            }),
        },
        forall|v: C2S|
            ((#[trigger] v.wire()).len() + pos <= bytes@.len() && v.wf() && bytes@.subrange(
                pos as int,
                pos + v.wire().len(),
            ) == v.wire()) ==> match r {
                Ok(vp) => vp.1 == pos + v.wire().len() && vp.0.wire() == v.wire(),
                Err(_) => false,
            },
{
    let blen = bytes.len();
    let p1 = pos + 1;
        let p2 = match skip(bytes, p1, 3) {
            Ok(x) => x,
            Err(e) => {
                proof {
                    assert forall|m: C2S| #![trigger m.wire()]
                        m.wire().len() + pos <= bytes@.len() && m.wf() && bytes@.subrange(
                            pos as int,
                            pos + m.wire().len(),
                        ) == m.wire() implies false by {
                        assert(m.wire()[0] == bytes@[pos as int]);
                        assert(m is SetPixelFormat);
                        assert(m.wire().len() == 20);
                    }
                }
                return Err(e);
            },
        };
        let (pf, p3) = match PixelFormat::read_from(bytes, p2) {
            Ok(x) => x,
            Err(e) => {
                proof {
                    assert forall|m: C2S| #![trigger m.wire()]
                        m.wire().len() + pos <= bytes@.len() && m.wf() && bytes@.subrange(
                            pos as int,
                            pos + m.wire().len(),
                        ) == m.wire() implies false by {
                        assert(m.wire()[0] == bytes@[pos as int]);
                        assert(m is SetPixelFormat);
                        assert(m.wire().len() == 20);
                        let mpf = m->SetPixelFormat_0;
                        assert(m.wire().subrange(4, 20) =~= mpf.wire());
                        assert(bytes@.subrange(pos as int, pos + 20).subrange(4, 20)
                            =~= bytes@.subrange(pos + 4, pos + 20));
                        assert(bytes@.subrange(pos + 4, pos + 20) == mpf.wire());
                    }
                    assert(e is Incomplete <==> pos + 20 > bytes@.len());
                    assert(e is Incomplete <==> C2S::incomplete(bytes@, pos as int));
                }
                return Err(e);
            },
        };
        let v = C2S::SetPixelFormat(pf);
        proof {
            assert forall|m: C2S| #![trigger m.wire()]
                m.wire().len() + pos <= bytes@.len() && m.wf() && bytes@.subrange(
                    pos as int,
                    pos + m.wire().len(),
                ) == m.wire() implies (pos + m.wire().len() == p3 && m.wire() == v.wire()) by {
                assert(m.wire()[0] == bytes@[pos as int]);
                assert(m is SetPixelFormat);
                assert(m.wire().len() == 20);
                let mpf = m->SetPixelFormat_0;
                assert(m.wire().subrange(4, 20) =~= mpf.wire());
                assert(bytes@.subrange(pos as int, pos + 20).subrange(4, 20)
                    =~= bytes@.subrange(pos + 4, pos + 20));
                assert(bytes@.subrange(pos + 4, pos + 20) == mpf.wire());
                assert(mpf.wire() == pf.wire());
                assert(m.wire() =~= v.wire());
            }
        }
        Ok((v, p3))
}

#[verifier::rlimit(100)]
fn c2s_read_set_encodings(bytes: &Vec<u8>, pos: usize) -> (r: Result<(C2S, usize), WireError>)
    requires
        pos + 1 <= bytes@.len(),
        bytes@[pos as int] == 2,
    ensures
        match r {
            Ok((v, p)) => C2S::parses(bytes@, pos as int, v, p as int) && pos <= p && p
                <= bytes@.len() && v.wf(),
            Err(e) => (e is Incomplete <==> C2S::incomplete(bytes@, pos as int)) && (match e {
                WireError::Invalid(s) => C2S::invalid_text() == Some(s@),
                _ => true,
            }),
        },
        forall|v: C2S|
            ((#[trigger] v.wire()).len() + pos <= bytes@.len() && v.wf() && bytes@.subrange(
                pos as int,
                pos + v.wire().len(),
            ) == v.wire()) ==> match r {
                Ok(vp) => vp.1 == pos + v.wire().len() && vp.0.wire() == v.wire(),
                Err(_) => false,
            },
{
    let blen = bytes.len();
    let p1 = pos + 1;
        let p2 = match skip(bytes, p1, 1) {
            Ok(x) => x,
            Err(e) => {
                proof {
                    assert forall|m: C2S| #![trigger m.wire()]
                        m.wire().len() + pos <= bytes@.len() && m.wf() && bytes@.subrange(
                            pos as int,
                            pos + m.wire().len(),
                        ) == m.wire() implies false by {
                        assert(m.wire()[0] == bytes@[pos as int]);
                        assert(m is SetEncodings);
                        lemma_enc_list_wire_len(m->SetEncodings_0@);
                        assert(m.wire().len() >= 4);
                    }
                }
                return Err(e);
            },
        };
        let (count, p3) = match read_u16(bytes, p2) {
            Ok(x) => x,
            Err(e) => {
                proof {
                    assert forall|m: C2S| #![trigger m.wire()]
                        m.wire().len() + pos <= bytes@.len() && m.wf() && bytes@.subrange(
                            pos as int,
                            pos + m.wire().len(),
                        ) == m.wire() implies false by {
                        assert(m.wire()[0] == bytes@[pos as int]);
                        assert(m is SetEncodings);
                        lemma_enc_list_wire_len(m->SetEncodings_0@);
                        assert(m.wire().len() >= 4);
                    }
                }
                return Err(e);
            },
        };
        let n = count as usize;
        let mut encodings: Vec<Encoding> = Vec::new();
        let mut i: usize = 0;
        let mut q: usize = p3;
        while i < n
            invariant
                i <= n,
                p3 == pos + 4,
                pos + 1 <= bytes@.len(),
                bytes@[pos as int] == 2,
                be16(count) == bytes@.subrange(pos + 2, pos + 4),
                n == count,
                q == pos + 4 + 4 * i,
                q <= bytes@.len(),
                bytes@.len() <= usize::MAX,
                encodings@.len() == i,
                enc_list_wire(encodings@) =~= bytes@.subrange(pos + 4, q as int),
                forall|j: int|
                    0 <= j < i ==> Encoding::parses(
                        bytes@,
                        pos + 4 + 4 * j,
                        #[trigger] encodings@[j],
                        pos + 8 + 4 * j,
                    ),
            decreases n - i,
        {
            match Encoding::read_from(bytes, q) {
                Ok((enc, q2)) => {
                    proof {
                        assert(enc.wire() == bytes@.subrange(q as int, q2 as int));
                        assert((encodings@.push(enc)).drop_last() =~= encodings@);
                        assert(enc_list_wire(encodings@.push(enc)) == enc_list_wire(encodings@)
                            + enc.wire());
                        assert(enc_list_wire(encodings@.push(enc)) =~= bytes@.subrange(
                            pos + 4,
                            q2 as int,
                        ));
                    }
                    encodings.push(enc);
                    q = q2;
                    i += 1;
                },
                Err(_) => {
                    proof {
                        let wcode = ((bytes@[q as int] as u32) << 24) | ((bytes@[q
                            + 1] as u32) << 16) | ((bytes@[q + 2] as u32) << 8) | (bytes@[q
                            + 3] as u32);
                        if q + 4 <= bytes@.len() {
                            let e = enc_of_code(wcode as i32);
                            assert(e.wf());
                            assert(enc_code(e) == wcode as i32);
                            lemma_word_bytes(bytes@, q as int);
                            assert(e.wire() == bytes@.subrange(q as int, q + 4));
                            assert(false);
                        }
                        assert(bytes@.len() < q + 4);
                        assert forall|m: C2S| #![trigger m.wire()]
                            m.wire().len() + pos <= bytes@.len() && m.wf() && bytes@.subrange(
                                pos as int,
                                pos + m.wire().len(),
                            ) == m.wire() implies false by {
                            let w = bytes@.subrange(pos as int, pos + m.wire().len());
                            assert(m.wire().len() >= 1);
                            assert(m.wire()[0] == w[0]);
                            assert(m.wire()[0] == bytes@[pos as int]);
                            assert(m is SetEncodings);
                            let l = m->SetEncodings_0@;
                            lemma_enc_list_wire_len(l);
                            assert(m.wire().subrange(2, 4) =~= be16(l.len() as u16));
                            assert(w.subrange(2, 4) =~= bytes@.subrange(pos + 2, pos + 4));
                            assert(be16(l.len() as u16) == be16(count));
                            lemma_be16_inj();
                            assert(l.len() as u16 == count);
                            assert(m.wire().len() == 4 + 4 * n);
                        }
                        lemma_half_bytes(bytes@, pos + 2);
                        lemma_be16_inj();
                        assert(be16(be16_at(bytes@, pos + 2)) == bytes@.subrange(pos + 2, pos + 4));
                        assert(be16_at(bytes@, pos + 2) == count);
                        assert(pos + 4 + 4 * count > bytes@.len());
                        assert(C2S::incomplete(bytes@, pos as int));
                    }
                    return Err(WireError::Incomplete);
                },
            };
        }
        let v = C2S::SetEncodings(encodings);
        proof {
            assert(encodings@.len() == n);
            assert(encodings@.len() as u16 == n as u16);
            assert(enc_list_wire(encodings@) =~= bytes@.subrange(pos + 4, q as int));
            assert(v.wire() =~= seq![2u8] + pad(1) + be16(n as u16) + bytes@.subrange(
                pos + 4,
                q as int,
            ));
            assert forall|m: C2S| #![trigger m.wire()]
                m.wire().len() + pos <= bytes@.len() && m.wf() && bytes@.subrange(
                    pos as int,
                    pos + m.wire().len(),
                ) == m.wire() implies (pos + m.wire().len() == q && m.wire() == v.wire()) by {
                assert(m.wire()[0] == bytes@[pos as int]);
                assert(m is SetEncodings);
                let l = m->SetEncodings_0@;
                lemma_enc_list_wire_len(l);
                let w = bytes@.subrange(pos as int, pos + m.wire().len());
                assert(m.wire().subrange(2, 4) =~= be16(l.len() as u16));
                assert(w.subrange(2, 4) =~= bytes@.subrange(pos + 2, pos + 4));
                assert(be16(l.len() as u16) == be16(count));
                lemma_be16_inj();
                assert(l.len() as u16 == count);
                assert(m.wire().len() == 4 + 4 * n);
                assert(be16(n as u16) == be16(count));
                assert forall|k: int| 0 <= k < m.wire().len() implies m.wire()[k] == v.wire()[k] by {
                    assert(m.wire()[k] == w[k]);
                    assert(m.wire()[k] == bytes@[pos + k]);
                    if k == 1 {
                        assert(m.wire()[1] == 0);
                        assert(v.wire()[1] == 0);
                    } else if 2 <= k < 4 {
                        let l = m->SetEncodings_0@;
                        assert(m.wire().subrange(2, 4) =~= be16(l.len() as u16));
                        assert(m.wire()[k] == be16(l.len() as u16)[k - 2]);
                        assert(v.wire()[k] == be16(n as u16)[k - 2]);
                    } else if k >= 4 {
                        assert(v.wire()[k] == bytes@.subrange(pos + 4, q as int)[k - 4]);
                    }
                }
                assert(m.wire() =~= v.wire());
            }
        }
        Ok((v, q))
}

fn c2s_read_update_request(bytes: &Vec<u8>, pos: usize) -> (r: Result<(C2S, usize), WireError>)
    requires
        pos + 1 <= bytes@.len(),
        bytes@[pos as int] == 3,
    ensures
        match r {
            Ok((v, p)) => C2S::parses(bytes@, pos as int, v, p as int) && pos <= p && p
                <= bytes@.len() && v.wf(),
            Err(e) => (e is Incomplete <==> C2S::incomplete(bytes@, pos as int)) && (match e {
                WireError::Invalid(s) => C2S::invalid_text() == Some(s@),
                _ => true,
            }),
        },
        forall|v: C2S|
            ((#[trigger] v.wire()).len() + pos <= bytes@.len() && v.wf() && bytes@.subrange(
                pos as int,
                pos + v.wire().len(),
            ) == v.wire()) ==> match r {
                Ok(vp) => vp.1 == pos + v.wire().len() && vp.0.wire() == v.wire(),
                Err(_) => false,
            },
{
    let blen = bytes.len();
    let p1 = pos + 1;
        if bytes.len() - p1 < 9 {
            proof {
                assert forall|m: C2S| #![trigger m.wire()]
                    m.wire().len() + pos <= bytes@.len() && m.wf() && bytes@.subrange(
                        pos as int,
                        pos + m.wire().len(),
                    ) == m.wire() implies false by {
                    assert(m.wire()[0] == bytes@[pos as int]);
                    assert(m is FramebufferUpdateRequest);
                    assert(m.wire().len() == 10);
                }
            }
            return Err(WireError::Incomplete);
        }
        let incremental = bytes[p1] != 0;
        let (x_position, _) = match read_u16(bytes, p1 + 1) {
            Ok(x) => x,
            Err(_) => { proof { assert(false); } return Err(WireError::Incomplete); },
        };
        let (y_position, _) = match read_u16(bytes, p1 + 3) {
            Ok(x) => x,
            Err(_) => { proof { assert(false); } return Err(WireError::Incomplete); },
        };
        let (width, _) = match read_u16(bytes, p1 + 5) {
            Ok(x) => x,
            Err(_) => { proof { assert(false); } return Err(WireError::Incomplete); },
        };
        let (height, p6) = match read_u16(bytes, p1 + 7) {
            Ok(x) => x,
            Err(_) => { proof { assert(false); } return Err(WireError::Incomplete); },
        };
        let v = C2S::FramebufferUpdateRequest { incremental, x_position, y_position, width, height };
        proof {
            assert forall|m: C2S| #![trigger m.wire()]
                m.wire().len() + pos <= bytes@.len() && m.wf() && bytes@.subrange(
                    pos as int,
                    pos + m.wire().len(),
                ) == m.wire() implies (pos + m.wire().len() == p6 && m.wire() == v.wire()) by {
                assert(m.wire()[0] == bytes@[pos as int]);
                assert(m is FramebufferUpdateRequest);
                assert(m.wire().len() == 10);
                let w = bytes@.subrange(pos as int, pos + 10);
                assert(m.wire()[1] == w[1]);
                assert(m.wire().subrange(2, 4) =~= be16(m->FramebufferUpdateRequest_x_position));
                assert(w.subrange(2, 4) =~= bytes@.subrange(pos + 2, pos + 4));
                assert(m.wire().subrange(4, 6) =~= be16(m->FramebufferUpdateRequest_y_position));
                assert(w.subrange(4, 6) =~= bytes@.subrange(pos + 4, pos + 6));
                assert(m.wire().subrange(6, 8) =~= be16(m->FramebufferUpdateRequest_width));
                assert(w.subrange(6, 8) =~= bytes@.subrange(pos + 6, pos + 8));
                assert(m.wire().subrange(8, 10) =~= be16(m->FramebufferUpdateRequest_height));
                assert(w.subrange(8, 10) =~= bytes@.subrange(pos + 8, pos + 10));
                assert(m.wire() =~= v.wire());
            }
        }
        Ok((v, p6))
}

fn c2s_read_key_event(bytes: &Vec<u8>, pos: usize) -> (r: Result<(C2S, usize), WireError>)
    requires
        pos + 1 <= bytes@.len(),
        bytes@[pos as int] == 4,
    ensures
        match r {
            Ok((v, p)) => C2S::parses(bytes@, pos as int, v, p as int) && pos <= p && p
                <= bytes@.len() && v.wf(),
            Err(e) => (e is Incomplete <==> C2S::incomplete(bytes@, pos as int)) && (match e {
                WireError::Invalid(s) => C2S::invalid_text() == Some(s@),
                _ => true,
            }),
        },
        forall|v: C2S|
            ((#[trigger] v.wire()).len() + pos <= bytes@.len() && v.wf() && bytes@.subrange(
                pos as int,
                pos + v.wire().len(),
            ) == v.wire()) ==> match r {
                Ok(vp) => vp.1 == pos + v.wire().len() && vp.0.wire() == v.wire(),
                Err(_) => false,
            },
{
    let blen = bytes.len();
    let p1 = pos + 1;
        if bytes.len() - p1 < 7 {
            proof {
                assert forall|m: C2S| #![trigger m.wire()]
                    m.wire().len() + pos <= bytes@.len() && m.wf() && bytes@.subrange(
                        pos as int,
                        pos + m.wire().len(),
                    ) == m.wire() implies false by {
                    assert(m.wire()[0] == bytes@[pos as int]);
                    assert(m is KeyEvent);
                    assert(m.wire().len() == 8);
                }
            }
            return Err(WireError::Incomplete);
        }
        let down = bytes[p1] != 0;
        let (key, p4) = match read_u32(bytes, p1 + 3) {
            Ok(x) => x,
            Err(_) => { proof { assert(false); } return Err(WireError::Incomplete); },
        };
        let v = C2S::KeyEvent { down, key };
        proof {
            lemma_be32_inj();
            assert forall|m: C2S| #![trigger m.wire()]
                m.wire().len() + pos <= bytes@.len() && m.wf() && bytes@.subrange(
                    pos as int,
                    pos + m.wire().len(),
                ) == m.wire() implies (pos + m.wire().len() == p4 && m.wire() == v.wire()) by {
                assert(m.wire()[0] == bytes@[pos as int]);
                assert(m is KeyEvent);
                assert(m.wire().len() == 8);
                let w = bytes@.subrange(pos as int, pos + 8);
                assert(m.wire()[1] == w[1]);
                assert(m.wire().subrange(4, 8) =~= be32(m->KeyEvent_key));
                assert(w.subrange(4, 8) =~= bytes@.subrange(pos + 4, pos + 8));
                assert(be32(m->KeyEvent_key) == be32(key));
                assert(m.wire() =~= v.wire());
            }
        }
        Ok((v, p4))
}

fn c2s_read_pointer_event(bytes: &Vec<u8>, pos: usize) -> (r: Result<(C2S, usize), WireError>)
    requires
        pos + 1 <= bytes@.len(),
        bytes@[pos as int] == 5,
    ensures
        match r {
            Ok((v, p)) => C2S::parses(bytes@, pos as int, v, p as int) && pos <= p && p
                <= bytes@.len() && v.wf(),
            Err(e) => (e is Incomplete <==> C2S::incomplete(bytes@, pos as int)) && (match e {
                WireError::Invalid(s) => C2S::invalid_text() == Some(s@),
                _ => true,
            }),
        },
        forall|v: C2S|
            ((#[trigger] v.wire()).len() + pos <= bytes@.len() && v.wf() && bytes@.subrange(
                pos as int,
                pos + v.wire().len(),
            ) == v.wire()) ==> match r {
                Ok(vp) => vp.1 == pos + v.wire().len() && vp.0.wire() == v.wire(),
                Err(_) => false,
            },
{
    let blen = bytes.len();
    let p1 = pos + 1;
        if bytes.len() - p1 < 5 {
            proof {
                assert forall|m: C2S| #![trigger m.wire()]
                    m.wire().len() + pos <= bytes@.len() && m.wf() && bytes@.subrange(
                        pos as int,
                        pos + m.wire().len(),
                    ) == m.wire() implies false by {
                    assert(m.wire()[0] == bytes@[pos as int]);
                    assert(m is PointerEvent);
                    assert(m.wire().len() == 6);
                }
            }
            return Err(WireError::Incomplete);
        }
        let button_mask = bytes[p1];
        let (x_position, _) = match read_u16(bytes, p1 + 1) {
            Ok(x) => x,
            Err(_) => { proof { assert(false); } return Err(WireError::Incomplete); },
        };
        let (y_position, p4) = match read_u16(bytes, p1 + 3) {
            Ok(x) => x,
            Err(_) => { proof { assert(false); } return Err(WireError::Incomplete); },
        };
        let v = C2S::PointerEvent { button_mask, x_position, y_position };
        proof {
            assert forall|m: C2S| #![trigger m.wire()]
                m.wire().len() + pos <= bytes@.len() && m.wf() && bytes@.subrange(
                    pos as int,
                    pos + m.wire().len(),
                ) == m.wire() implies (pos + m.wire().len() == p4 && m.wire() == v.wire()) by {
                assert(m.wire()[0] == bytes@[pos as int]);
                assert(m is PointerEvent);
                assert(m.wire().len() == 6);
                let w = bytes@.subrange(pos as int, pos + 6);
                assert(m.wire()[1] == w[1]);
                assert(m.wire().subrange(2, 4) =~= be16(m->PointerEvent_x_position));
                assert(w.subrange(2, 4) =~= bytes@.subrange(pos + 2, pos + 4));
                assert(m.wire().subrange(4, 6) =~= be16(m->PointerEvent_y_position));
                assert(w.subrange(4, 6) =~= bytes@.subrange(pos + 4, pos + 6));
                assert(m.wire() =~= v.wire());
            }
        }
        Ok((v, p4))
}

#[verifier::rlimit(100)]
fn c2s_read_cut_text(bytes: &Vec<u8>, pos: usize) -> (r: Result<(C2S, usize), WireError>)
    requires
        pos + 1 <= bytes@.len(),
        bytes@[pos as int] == 6,
    ensures
        match r {
            Ok((v, p)) => C2S::parses(bytes@, pos as int, v, p as int) && pos <= p && p
                <= bytes@.len() && v.wf(),
            Err(e) => (e is Incomplete <==> C2S::incomplete(bytes@, pos as int)) && (match e {
                WireError::Invalid(s) => C2S::invalid_text() == Some(s@),
                _ => true,
            }),
        },
        forall|v: C2S|
            ((#[trigger] v.wire()).len() + pos <= bytes@.len() && v.wf() && bytes@.subrange(
                pos as int,
                pos + v.wire().len(),
            ) == v.wire()) ==> match r {
                Ok(vp) => vp.1 == pos + v.wire().len() && vp.0.wire() == v.wire(),
                Err(_) => false,
            },
{
    let blen = bytes.len();
    let p1 = pos + 1;
        let p2 = match skip(bytes, p1, 3) {
            Ok(x) => x,
            Err(e) => {
                proof {
                    assert forall|m: C2S| #![trigger m.wire()]
                        m.wire().len() + pos <= bytes@.len() && m.wf() && bytes@.subrange(
                            pos as int,
                            pos + m.wire().len(),
                        ) == m.wire() implies false by {
                        assert(m.wire()[0] == bytes@[pos as int]);
                        assert(m is CutText);
                        assert(m.wire().len() >= 8);
                    }
                }
                return Err(e);
            },
        };
        let (text, p3) = match Vec::<u8>::read_from(bytes, p2) {
            Ok(x) => x,
            Err(e) => {
                proof {
                    assert forall|m: C2S| #![trigger m.wire()]
                        m.wire().len() + pos <= bytes@.len() && m.wf() && bytes@.subrange(
                            pos as int,
                            pos + m.wire().len(),
                        ) == m.wire() implies false by {
                        assert(m.wire()[0] == bytes@[pos as int]);
                        assert(m is CutText);
                        let t = m->CutText_0;
                        let tl = t.wire().len() as int;
                        assert(m.wire().len() == 4 + tl);
                        assert(m.wire().subrange(4, 4 + tl) =~= t.wire());
                        assert(bytes@.subrange(pos as int, pos + m.wire().len()).subrange(
                            4,
                            4 + tl,
                        ) =~= bytes@.subrange(pos + 4, pos + 4 + tl));
                        assert(bytes@.subrange(pos + 4, pos + 4 + tl) == t.wire());
                    }
                    assert(p2 as int == pos + 4);
                    assert(e is Incomplete <==> <Vec<u8> as Message>::incomplete(bytes@, pos + 4));
                    assert(e is Incomplete <==> C2S::incomplete(bytes@, pos as int));
                }
                return Err(e);
            },
        };
        let v = C2S::CutText(text);
        proof {
            assert forall|m: C2S| #![trigger m.wire()]
                m.wire().len() + pos <= bytes@.len() && m.wf() && bytes@.subrange(
                    pos as int,
                    pos + m.wire().len(),
                ) == m.wire() implies (pos + m.wire().len() == p3 && m.wire() == v.wire()) by {
                assert(m.wire()[0] == bytes@[pos as int]);
                assert(m is CutText);
                let t = m->CutText_0;
                let tl = t.wire().len() as int;
                assert(m.wire().len() == 4 + tl);
                let w = bytes@.subrange(pos as int, pos + m.wire().len());
                assert(m.wire().subrange(4, 4 + tl) =~= t.wire());
                assert(w.subrange(4, 4 + tl) =~= bytes@.subrange(pos + 4, pos + 4 + tl));
                assert(bytes@.subrange(pos + 4, pos + 4 + tl) == t.wire());
                assert(t.wire() == text.wire());
                assert(m.wire()[1] == w[1] && m.wire()[2] == w[2] && m.wire()[3] == w[3]);
                assert(m.wire() =~= v.wire());
            }
        }
        Ok((v, p3))
}

impl Message for C2S {
    open spec fn wf(&self) -> bool {
        match self {
            C2S::SetEncodings(l) => l@.len() <= 0xFFFF && forall|i: int|
                0 <= i < l@.len() ==> (#[trigger] l@[i]).wf(),
            C2S::CutText(t) => t.wf(),
            _ => true,
        }
    }

    open spec fn wire(&self) -> Seq<u8> {
        match self {
            C2S::SetPixelFormat(pf) => seq![0u8] + pad(3) + pf.wire(),
            C2S::SetEncodings(l) => seq![2u8] + pad(1) + be16(l@.len() as u16) + enc_list_wire(l@),
            C2S::FramebufferUpdateRequest { incremental, x_position, y_position, width, height } => seq![
                3u8,
                bool_byte(*incremental),
            ] + be16(*x_position) + be16(*y_position) + be16(*width) + be16(*height),
            C2S::KeyEvent { down, key } => seq![4u8, bool_byte(*down)] + pad(2) + be32(*key),
            C2S::PointerEvent { button_mask, x_position, y_position } => seq![5u8, *button_mask]
                + be16(*x_position) + be16(*y_position),
            C2S::CutText(t) => seq![6u8] + pad(3) + t.wire(),
        }
    }

    open spec fn parses(bytes: Seq<u8>, pos: int, v: Self, p: int) -> bool {
        0 <= pos && pos + 1 <= bytes.len() && match v {
            C2S::SetPixelFormat(pf) => bytes[pos] == 0 && PixelFormat::parses(bytes, pos + 4, pf, p),
            C2S::SetEncodings(l) => bytes[pos] == 2 && pos + 4 <= bytes.len() && be16(
                l@.len() as u16,
            ) == bytes.subrange(pos + 2, pos + 4) && p == pos + 4 + 4 * l@.len() && p <= bytes.len()
                && forall|i: int|
                0 <= i < l@.len() ==> Encoding::parses(
                    bytes,
                    pos + 4 + 4 * i,
                    #[trigger] l@[i],
                    pos + 8 + 4 * i,
                ),
            C2S::FramebufferUpdateRequest { incremental, x_position, y_position, width, height } => bytes[pos]
                == 3 && p == pos + 10 && p <= bytes.len() && incremental == (bytes[pos + 1] != 0)
                && be16(x_position) == bytes.subrange(pos + 2, pos + 4) && be16(y_position)
                == bytes.subrange(pos + 4, pos + 6) && be16(width) == bytes.subrange(pos + 6, pos + 8)
                && be16(height) == bytes.subrange(pos + 8, pos + 10),
            C2S::KeyEvent { down, key } => bytes[pos] == 4 && p == pos + 8 && p <= bytes.len()
                && down == (bytes[pos + 1] != 0) && be32(key) == bytes.subrange(pos + 4, pos + 8),
            C2S::PointerEvent { button_mask, x_position, y_position } => bytes[pos] == 5 && p == pos
                + 6 && p <= bytes.len() && button_mask == bytes[pos + 1] && be16(x_position)
                == bytes.subrange(pos + 2, pos + 4) && be16(y_position) == bytes.subrange(
                pos + 4,
                pos + 6,
            ),
            C2S::CutText(t) => bytes[pos] == 6 && Vec::<u8>::parses(bytes, pos + 4, t, p),
        }
    }

    open spec fn incomplete(bytes: Seq<u8>, pos: int) -> bool {
        pos + 1 > bytes.len() || (bytes[pos] == 0 && pos + 20 > bytes.len()) || (bytes[pos] == 2
            && (pos + 4 > bytes.len() || pos + 4 + 4 * be16_at(bytes, pos + 2) > bytes.len())) || (
        bytes[pos] == 3 && pos + 10 > bytes.len()) || (bytes[pos] == 4 && pos + 8 > bytes.len())
            || (bytes[pos] == 5 && pos + 6 > bytes.len()) || (bytes[pos] == 6 && <Vec<
        u8,
        > as Message>::incomplete(bytes, pos + 4))
    }

    open spec fn invalid_text() -> Option<Seq<char>> {
        Some("client to server message type"@)
    }

    fn write_to(&self, out: &mut Vec<u8>)
    {
        match self {
            C2S::SetPixelFormat(pf) => {
                push_u8(out, 0);
                push_pad(out, 3);
                pf.write_to(out);
                proof {
                    assert(out@ =~= old(out)@ + self.wire());
                }
            },
            C2S::SetEncodings(l) => {
                push_u8(out, 2);
                push_pad(out, 1);
                push_u16(out, l.len() as u16);
                let ghost header = old(out)@ + seq![2u8] + pad(1) + be16(l@.len() as u16);
                let mut i: usize = 0;
                while i < l.len()
                    invariant
                        i <= l@.len() <= 0xFFFF,
                        forall|j: int| 0 <= j < l@.len() ==> (#[trigger] l@[j]).wf(),
                        out@ =~= header + enc_list_wire(l@.subrange(0, i as int)),
                    decreases l@.len() - i,
                {
                    let enc = &l[i];
                    enc.write_to(out);
                    proof {
                        assert(l@.subrange(0, i + 1 as int).drop_last() =~= l@.subrange(
                            0,
                            i as int,
                        ));
                        assert(out@ =~= header + enc_list_wire(l@.subrange(0, i + 1 as int)));
                    }
                    i += 1;
                }
                proof {
                    assert(l@.subrange(0, l@.len() as int) =~= l@);
                    assert(out@ =~= old(out)@ + self.wire());
                }
            },
            C2S::FramebufferUpdateRequest { incremental, x_position, y_position, width, height } => {
                push_u8(out, 3);
                push_u8(out, if *incremental { 1 } else { 0 });
                push_u16(out, *x_position);
                push_u16(out, *y_position);
                push_u16(out, *width);
                push_u16(out, *height);
                proof {
                    assert(out@ =~= old(out)@ + self.wire());
                }
            },
            C2S::KeyEvent { down, key } => {
                push_u8(out, 4);
                push_u8(out, if *down { 1 } else { 0 });
                push_pad(out, 2);
                push_u32(out, *key);
                proof {
                    assert(out@ =~= old(out)@ + self.wire());
                }
            },
            C2S::PointerEvent { button_mask, x_position, y_position } => {
                push_u8(out, 5);
                push_u8(out, *button_mask);
                push_u16(out, *x_position);
                push_u16(out, *y_position);
                proof {
                    assert(out@ =~= old(out)@ + self.wire());
                }
            },
            C2S::CutText(t) => {
                push_u8(out, 6);
                push_pad(out, 3);
                t.write_to(out);
                proof {
                    assert(out@ =~= old(out)@ + self.wire());
                }
            },
        }
    }

    fn read_from(bytes: &Vec<u8>, pos: usize) -> (r: Result<(Self, usize), WireError>)
    {
        let (tag, p1) = match read_u8(bytes, pos) {
            Ok(x) => x,
            Err(e) => {
                proof {
                    assert forall|m: C2S| #![trigger m.wire()]
                        m.wire().len() + pos <= bytes@.len() && m.wf() && bytes@.subrange(
                            pos as int,
                            pos + m.wire().len(),
                        ) == m.wire() implies false by {
                        assert(m.wire().len() >= 1);
                    }
                }
                return Err(e);
            },
        };
        if tag == 0 {
            c2s_read_set_pixel_format(bytes, pos)
        } else if tag == 2 {
            c2s_read_set_encodings(bytes, pos)
        } else if tag == 3 {
            c2s_read_update_request(bytes, pos)
        } else if tag == 4 {
            c2s_read_key_event(bytes, pos)
        } else if tag == 5 {
            c2s_read_pointer_event(bytes, pos)
        } else if tag == 6 {
            c2s_read_cut_text(bytes, pos)
        } else {
            proof {
                assert forall|m: C2S| #![trigger m.wire()]
                    m.wire().len() + pos <= bytes@.len() && m.wf() && bytes@.subrange(
                        pos as int,
                        pos + m.wire().len(),
                    ) == m.wire() implies false by {
                    assert(m.wire()[0] == bytes@[pos as int]);
                }
            }
            Err(WireError::Invalid("client to server message type"))
        }
    }
}


// ---------------------------------------------------------------------------
// Server-to-client messages.

/// The bytes of a list of colours, six bytes each.
pub open spec fn colour_list_wire(l: Seq<Colour>) -> Seq<u8>
    decreases l.len(),
{
    if l.len() == 0 {
        Seq::empty()
    } else {
        colour_list_wire(l.drop_last()) + l.last().wire()
    }
}

pub proof fn lemma_colour_list_wire_len(l: Seq<Colour>)
    ensures
        colour_list_wire(l).len() == 6 * l.len(),
    decreases l.len(),
{
    if l.len() > 0 {
        lemma_colour_list_wire_len(l.drop_last());
    }
}

/// Reconstructing a 16-bit word from two bytes gives back those bytes.
pub proof fn lemma_half_bytes(bytes: Seq<u8>, q: int)
    requires
        0 <= q,
        q + 2 <= bytes.len(),
    ensures
        be16(((bytes[q] as u16) << 8) | (bytes[q + 1] as u16)) == bytes.subrange(q, q + 2),
{
    let b0 = bytes[q];
    let b1 = bytes[q + 1];
    let w = ((b0 as u16) << 8) | (b1 as u16);
    assert((w >> 8) as u8 == b0 && w as u8 == b1) by (bit_vector)
        requires
            w == ((b0 as u16) << 8) | (b1 as u16),
    ;
    assert(be16(w) =~= bytes.subrange(q, q + 2));
}

/// A message from the server to the client. A framebuffer update carries only
/// its rectangle count; the rectangles are read separately, each with its
/// encoding-specific payload.
#[derive(Debug)]
pub enum S2C {
    FramebufferUpdate { count: u16 },
    SetColourMapEntries { first_colour: u16, colours: Vec<Colour> },
    Bell,
    CutText(Vec<u8>),
}

fn s2c_read_update(bytes: &Vec<u8>, pos: usize) -> (r: Result<(S2C, usize), WireError>)
    requires
        pos + 1 <= bytes@.len(),
        bytes@[pos as int] == 0,
    ensures
        match r {
            Ok((v, p)) => S2C::parses(bytes@, pos as int, v, p as int) && pos <= p && p
                <= bytes@.len() && v.wf(),
            Err(e) => (e is Incomplete <==> S2C::incomplete(bytes@, pos as int)) && (match e {
                WireError::Invalid(s) => S2C::invalid_text() == Some(s@),
                _ => true,
            }),
        },
        forall|v: S2C|
            ((#[trigger] v.wire()).len() + pos <= bytes@.len() && v.wf() && bytes@.subrange(
                pos as int,
                pos + v.wire().len(),
            ) == v.wire()) ==> match r {
                Ok(vp) => vp.1 == pos + v.wire().len() && vp.0.wire() == v.wire(),
                Err(_) => false,
            },
{
    let blen = bytes.len();
    let p1 = pos + 1;
    if blen - p1 < 3 {
        proof {
            assert forall|m: S2C| #![trigger m.wire()]
                m.wire().len() + pos <= bytes@.len() && m.wf() && bytes@.subrange(
                    pos as int,
                    pos + m.wire().len(),
                ) == m.wire() implies false by {
                assert(m.wire().len() >= 1);
                assert(m.wire()[0] == bytes@[pos as int]);
                assert(m is FramebufferUpdate);
                assert(m.wire().len() == 4);
            }
        }
        return Err(WireError::Incomplete);
    }
    let (count, p2) = match read_u16(bytes, p1 + 1) {
        Ok(x) => x,
        Err(_) => {
            proof {
                assert(false);
            }
            return Err(WireError::Incomplete);
        },
    };
    let v = S2C::FramebufferUpdate { count };
    proof {
        lemma_be16_inj();
        assert forall|m: S2C| #![trigger m.wire()]
            m.wire().len() + pos <= bytes@.len() && m.wf() && bytes@.subrange(
                pos as int,
                pos + m.wire().len(),
            ) == m.wire() implies (pos + m.wire().len() == p2 && m.wire() == v.wire()) by {
            assert(m.wire().len() >= 1);
            assert(m.wire()[0] == bytes@[pos as int]);
            assert(m is FramebufferUpdate);
            assert(m.wire().len() == 4);
            let w = bytes@.subrange(pos as int, pos + 4);
            assert(m.wire().subrange(2, 4) =~= be16(m->FramebufferUpdate_count));
            assert(w.subrange(2, 4) =~= bytes@.subrange(pos + 2, pos + 4));
            assert(be16(m->FramebufferUpdate_count) == be16(count));
            assert(m.wire() =~= v.wire());
        }
    }
    Ok((v, p2))
}

#[verifier::rlimit(100)]
fn s2c_read_colour_map(bytes: &Vec<u8>, pos: usize) -> (r: Result<(S2C, usize), WireError>)
    requires
        pos + 1 <= bytes@.len(),
        bytes@[pos as int] == 1,
    ensures
        match r {
            Ok((v, p)) => S2C::parses(bytes@, pos as int, v, p as int) && pos <= p && p
                <= bytes@.len() && v.wf(),
            Err(e) => (e is Incomplete <==> S2C::incomplete(bytes@, pos as int)) && (match e {
                WireError::Invalid(s) => S2C::invalid_text() == Some(s@),
                _ => true,
            }),
        },
        forall|v: S2C|
            ((#[trigger] v.wire()).len() + pos <= bytes@.len() && v.wf() && bytes@.subrange(
                pos as int,
                pos + v.wire().len(),
            ) == v.wire()) ==> match r {
                Ok(vp) => vp.1 == pos + v.wire().len() && vp.0.wire() == v.wire(),
                Err(_) => false,
            },
{
    let blen = bytes.len();
    let p1 = pos + 1;
    if blen - p1 < 5 {
        proof {
            assert forall|m: S2C| #![trigger m.wire()]
                m.wire().len() + pos <= bytes@.len() && m.wf() && bytes@.subrange(
                    pos as int,
                    pos + m.wire().len(),
                ) == m.wire() implies false by {
                assert(m.wire().len() >= 1);
                assert(m.wire()[0] == bytes@[pos as int]);
                assert(m is SetColourMapEntries);
                lemma_colour_list_wire_len(m->SetColourMapEntries_colours@);
                assert(m.wire().len() >= 6);
            }
        }
        return Err(WireError::Incomplete);
    }
    let (first_colour, _) = match read_u16(bytes, p1 + 1) {
        Ok(x) => x,
        Err(_) => {
            proof {
                assert(false);
            }
            return Err(WireError::Incomplete);
        },
    };
    let (count, p3) = match read_u16(bytes, p1 + 3) {
        Ok(x) => x,
        Err(_) => {
            proof {
                assert(false);
            }
            return Err(WireError::Incomplete);
        },
    };
    let n = count as usize;
    let mut colours: Vec<Colour> = Vec::new();
    let mut i: usize = 0;
    let mut q: usize = p3;
    while i < n
        invariant
            i <= n,
            p3 == pos + 6,
            pos + 1 <= bytes@.len(),
            bytes@[pos as int] == 1,
            be16(first_colour) == bytes@.subrange(pos + 2, pos + 4),
            be16(count) == bytes@.subrange(pos + 4, pos + 6),
            n == count,
            q == pos + 6 + 6 * i,
            q <= bytes@.len(),
            bytes@.len() <= usize::MAX,
            colours@.len() == i,
            colour_list_wire(colours@) =~= bytes@.subrange(pos + 6, q as int),
            forall|j: int|
                0 <= j < i ==> Colour::parses(
                    bytes@,
                    pos + 6 + 6 * j,
                    #[trigger] colours@[j],
                    pos + 12 + 6 * j,
                ),
        decreases n - i,
    {
        match Colour::read_from(bytes, q) {
            Ok((c, q2)) => {
                proof {
                    assert(c.wire() == bytes@.subrange(q as int, q2 as int));
                    assert((colours@.push(c)).drop_last() =~= colours@);
                    assert(colour_list_wire(colours@.push(c)) == colour_list_wire(colours@)
                        + c.wire());
                    assert(colour_list_wire(colours@.push(c)) =~= bytes@.subrange(
                        pos + 6,
                        q2 as int,
                    ));
                }
                colours.push(c);
                q = q2;
                i += 1;
            },
            Err(_) => {
                proof {
                    if q + 6 <= bytes@.len() {
                        lemma_half_bytes(bytes@, q as int);
                        lemma_half_bytes(bytes@, q + 2);
                        lemma_half_bytes(bytes@, q + 4);
                        let c = Colour {
                            red: ((bytes@[q as int] as u16) << 8) | (bytes@[q + 1] as u16),
                            green: ((bytes@[q + 2] as u16) << 8) | (bytes@[q + 3] as u16),
                            blue: ((bytes@[q + 4] as u16) << 8) | (bytes@[q + 5] as u16),
                        };
                        assert(c.wire() =~= bytes@.subrange(q as int, q + 6));
                        assert(false);
                    }
                    assert(bytes@.len() < q + 6);
                    assert forall|m: S2C| #![trigger m.wire()]
                        m.wire().len() + pos <= bytes@.len() && m.wf() && bytes@.subrange(
                            pos as int,
                            pos + m.wire().len(),
                        ) == m.wire() implies false by {
                        let w = bytes@.subrange(pos as int, pos + m.wire().len());
                        assert(m.wire().len() >= 1);
                        assert(m.wire()[0] == w[0]);
                        assert(m.wire()[0] == bytes@[pos as int]);
                        assert(m is SetColourMapEntries);
                        let l = m->SetColourMapEntries_colours@;
                        lemma_colour_list_wire_len(l);
                        assert(m.wire().subrange(4, 6) =~= be16(l.len() as u16));
                        assert(w.subrange(4, 6) =~= bytes@.subrange(pos + 4, pos + 6));
                        assert(be16(l.len() as u16) == be16(count));
                        lemma_be16_inj();
                        assert(l.len() as u16 == count);
                        assert(m.wire().len() == 6 + 6 * n);
                    }
                    lemma_half_bytes(bytes@, pos + 4);
                    lemma_be16_inj();
                    assert(be16(be16_at(bytes@, pos + 4)) == bytes@.subrange(pos + 4, pos + 6));
                    assert(be16_at(bytes@, pos + 4) == count);
                    assert(pos + 6 + 6 * count > bytes@.len());
                    assert(S2C::incomplete(bytes@, pos as int));
                }
                return Err(WireError::Incomplete);
            },
        };
    }
    let v = S2C::SetColourMapEntries { first_colour, colours };
    proof {
        assert(colours@.len() == n);
        assert(colours@.len() as u16 == n as u16);
        assert(colour_list_wire(colours@) =~= bytes@.subrange(pos + 6, q as int));
        assert(v.wire() =~= seq![1u8] + pad(1) + be16(first_colour) + be16(n as u16)
            + bytes@.subrange(pos + 6, q as int));
        assert forall|m: S2C| #![trigger m.wire()]
            m.wire().len() + pos <= bytes@.len() && m.wf() && bytes@.subrange(
                pos as int,
                pos + m.wire().len(),
            ) == m.wire() implies (pos + m.wire().len() == q && m.wire() == v.wire()) by {
            let w = bytes@.subrange(pos as int, pos + m.wire().len());
            assert(m.wire().len() >= 1);
            assert(m.wire()[0] == w[0]);
            assert(m.wire()[0] == bytes@[pos as int]);
            assert(m is SetColourMapEntries);
            let l = m->SetColourMapEntries_colours@;
            lemma_colour_list_wire_len(l);
            assert(m.wire().subrange(4, 6) =~= be16(l.len() as u16));
            assert(w.subrange(4, 6) =~= bytes@.subrange(pos + 4, pos + 6));
            assert(be16(l.len() as u16) == be16(count));
            lemma_be16_inj();
            assert(l.len() as u16 == count);
            assert(m.wire().len() == 6 + 6 * n);
            assert forall|k: int| 0 <= k < m.wire().len() implies m.wire()[k] == v.wire()[k] by {
                assert(m.wire()[k] == w[k]);
                assert(m.wire()[k] == bytes@[pos + k]);
                if k == 1 {
                    assert(m.wire()[1] == 0);
                    assert(v.wire()[1] == 0);
                } else if 2 <= k < 4 {
                    assert(m.wire().subrange(2, 4) =~= be16(
                        m->SetColourMapEntries_first_colour,
                    ));
                    assert(m.wire()[k] == be16(m->SetColourMapEntries_first_colour)[k - 2]);
                    assert(w.subrange(2, 4) =~= bytes@.subrange(pos + 2, pos + 4));
                    assert(be16(m->SetColourMapEntries_first_colour) == be16(first_colour));
                    assert(v.wire()[k] == be16(first_colour)[k - 2]);
                } else if 4 <= k < 6 {
                    assert(m.wire()[k] == be16(l.len() as u16)[k - 4]);
                    assert(v.wire()[k] == be16(n as u16)[k - 4]);
                } else if k >= 6 {
                    assert(v.wire()[k] == bytes@.subrange(pos + 6, q as int)[k - 6]);
                }
            }
            assert(m.wire() =~= v.wire());
        }
    }
    Ok((v, q))
}

#[verifier::rlimit(100)]
fn s2c_read_cut_text(bytes: &Vec<u8>, pos: usize) -> (r: Result<(S2C, usize), WireError>)
    requires
        pos + 1 <= bytes@.len(),
        bytes@[pos as int] == 3,
    ensures
        match r {
            Ok((v, p)) => S2C::parses(bytes@, pos as int, v, p as int) && pos <= p && p
                <= bytes@.len() && v.wf(),
            Err(e) => (e is Incomplete <==> S2C::incomplete(bytes@, pos as int)) && (match e {
                WireError::Invalid(s) => S2C::invalid_text() == Some(s@),
                _ => true,
            }),
        },
        forall|v: S2C|
            ((#[trigger] v.wire()).len() + pos <= bytes@.len() && v.wf() && bytes@.subrange(
                pos as int,
                pos + v.wire().len(),
            ) == v.wire()) ==> match r {
                Ok(vp) => vp.1 == pos + v.wire().len() && vp.0.wire() == v.wire(),
                Err(_) => false,
            },
{
    let blen = bytes.len();
    let p1 = pos + 1;
    let p2 = match skip(bytes, p1, 3) {
        Ok(x) => x,
        Err(e) => {
            proof {
                assert forall|m: S2C| #![trigger m.wire()]
                    m.wire().len() + pos <= bytes@.len() && m.wf() && bytes@.subrange(
                        pos as int,
                        pos + m.wire().len(),
                    ) == m.wire() implies false by {
                    assert(m.wire().len() >= 1);
                    assert(m.wire()[0] == bytes@[pos as int]);
                    assert(m is CutText);
                    assert(m.wire().len() >= 8);
                }
            }
            return Err(e);
        },
    };
    let (text, p3) = match Vec::<u8>::read_from(bytes, p2) {
        Ok(x) => x,
        Err(e) => {
            proof {
                assert forall|m: S2C| #![trigger m.wire()]
                    m.wire().len() + pos <= bytes@.len() && m.wf() && bytes@.subrange(
                        pos as int,
                        pos + m.wire().len(),
                    ) == m.wire() implies false by {
                    assert(m.wire().len() >= 1);
                    assert(m.wire()[0] == bytes@[pos as int]);
                    assert(m is CutText);
                    let t = m->CutText_0;
                    let tl = t.wire().len() as int;
                    assert(m.wire().len() == 4 + tl);
                    assert(m.wire().subrange(4, 4 + tl) =~= t.wire());
                    assert(bytes@.subrange(pos as int, pos + m.wire().len()).subrange(4, 4 + tl)
                        =~= bytes@.subrange(pos + 4, pos + 4 + tl));
                    assert(bytes@.subrange(pos + 4, pos + 4 + tl) == t.wire());
                }
                assert(p2 as int == pos + 4);
                assert(e is Incomplete <==> <Vec<u8> as Message>::incomplete(bytes@, pos + 4));
                assert(e is Incomplete <==> S2C::incomplete(bytes@, pos as int));
            }
            return Err(e);
        },
    };
    let v = S2C::CutText(text);
    proof {
        assert forall|m: S2C| #![trigger m.wire()]
            m.wire().len() + pos <= bytes@.len() && m.wf() && bytes@.subrange(
                pos as int,
                pos + m.wire().len(),
            ) == m.wire() implies (pos + m.wire().len() == p3 && m.wire() == v.wire()) by {
            assert(m.wire().len() >= 1);
            assert(m.wire()[0] == bytes@[pos as int]);
            assert(m is CutText);
            let t = m->CutText_0;
            let tl = t.wire().len() as int;
            assert(m.wire().len() == 4 + tl);
            let w = bytes@.subrange(pos as int, pos + m.wire().len());
            assert(m.wire().subrange(4, 4 + tl) =~= t.wire());
            assert(w.subrange(4, 4 + tl) =~= bytes@.subrange(pos + 4, pos + 4 + tl));
            assert(bytes@.subrange(pos + 4, pos + 4 + tl) == t.wire());
            assert(t.wire() == text.wire());
            assert(m.wire()[1] == w[1] && m.wire()[2] == w[2] && m.wire()[3] == w[3]);
            assert(m.wire() =~= v.wire());
        }
    }
    Ok((v, p3))
}

impl Message for S2C {
    open spec fn wf(&self) -> bool {
        match self {
            S2C::SetColourMapEntries { first_colour, colours } => colours@.len() <= 0xFFFF,
            S2C::CutText(t) => t.wf(),
            _ => true,
        }
    }

    open spec fn wire(&self) -> Seq<u8> {
        match self {
            S2C::FramebufferUpdate { count } => seq![0u8] + pad(1) + be16(*count),
            S2C::SetColourMapEntries { first_colour, colours } => seq![1u8] + pad(1) + be16(
                *first_colour,
            ) + be16(colours@.len() as u16) + colour_list_wire(colours@),
            S2C::Bell => seq![2u8],
            S2C::CutText(t) => seq![3u8] + pad(3) + t.wire(),
        }
    }

    open spec fn parses(bytes: Seq<u8>, pos: int, v: Self, p: int) -> bool {
        0 <= pos && pos + 1 <= bytes.len() && match v {
            S2C::FramebufferUpdate { count } => bytes[pos] == 0 && p == pos + 4 && p <= bytes.len()
                && be16(count) == bytes.subrange(pos + 2, pos + 4),
            S2C::SetColourMapEntries { first_colour, colours } => bytes[pos] == 1 && pos + 6
                <= bytes.len() && be16(first_colour) == bytes.subrange(pos + 2, pos + 4) && be16(
                colours@.len() as u16,
            ) == bytes.subrange(pos + 4, pos + 6) && p == pos + 6 + 6 * colours@.len() && p
                <= bytes.len() && forall|i: int|
                0 <= i < colours@.len() ==> Colour::parses(
                    bytes,
                    pos + 6 + 6 * i,
                    #[trigger] colours@[i],
                    pos + 12 + 6 * i,
                ),
            S2C::Bell => bytes[pos] == 2 && p == pos + 1,
            S2C::CutText(t) => bytes[pos] == 3 && Vec::<u8>::parses(bytes, pos + 4, t, p),
        }
    }

    open spec fn incomplete(bytes: Seq<u8>, pos: int) -> bool {
        pos + 1 > bytes.len() || (bytes[pos] == 0 && pos + 4 > bytes.len()) || (bytes[pos] == 1 && (
        pos + 6 > bytes.len() || pos + 6 + 6 * be16_at(bytes, pos + 4) > bytes.len())) || (
        bytes[pos] == 3 && <Vec<u8> as Message>::incomplete(bytes, pos + 4))
    }

    open spec fn invalid_text() -> Option<Seq<char>> {
        Some("server to client message type"@)
    }

    fn write_to(&self, out: &mut Vec<u8>)
    {
        match self {
            S2C::FramebufferUpdate { count } => {
                push_u8(out, 0);
                push_pad(out, 1);
                push_u16(out, *count);
                proof {
                    assert(out@ =~= old(out)@ + self.wire());
                }
            },
            S2C::SetColourMapEntries { first_colour, colours } => {
                push_u8(out, 1);
                push_pad(out, 1);
                push_u16(out, *first_colour);
                push_u16(out, colours.len() as u16);
                let ghost header = old(out)@ + seq![1u8] + pad(1) + be16(*first_colour) + be16(
                    colours@.len() as u16,
                );
                let mut i: usize = 0;
                while i < colours.len()
                    invariant
                        i <= colours@.len(),
                        out@ =~= header + colour_list_wire(colours@.subrange(0, i as int)),
                    decreases colours@.len() - i,
                {
                    let c = &colours[i];
                    c.write_to(out);
                    proof {
                        assert(colours@.subrange(0, i + 1 as int).drop_last() =~= colours@.subrange(
                            0,
                            i as int,
                        ));
                        assert(out@ =~= header + colour_list_wire(
                            colours@.subrange(0, i + 1 as int),
                        ));
                    }
                    i += 1;
                }
                proof {
                    assert(colours@.subrange(0, colours@.len() as int) =~= colours@);
                    assert(out@ =~= old(out)@ + self.wire());
                }
            },
            S2C::Bell => {
                push_u8(out, 2);
                proof {
                    assert(out@ =~= old(out)@ + self.wire());
                }
            },
            S2C::CutText(t) => {
                push_u8(out, 3);
                push_pad(out, 3);
                t.write_to(out);
                proof {
                    assert(out@ =~= old(out)@ + self.wire());
                }
            },
        }
    }

    fn read_from(bytes: &Vec<u8>, pos: usize) -> (r: Result<(Self, usize), WireError>)
    {
        let (tag, p1) = match read_u8(bytes, pos) {
            Ok(x) => x,
            Err(e) => {
                proof {
                    assert forall|m: S2C| #![trigger m.wire()]
                        m.wire().len() + pos <= bytes@.len() && m.wf() && bytes@.subrange(
                            pos as int,
                            pos + m.wire().len(),
                        ) == m.wire() implies false by {
                        assert(m.wire().len() >= 1);
                    }
                }
                return Err(e);
            },
        };
        if tag == 0 {
            s2c_read_update(bytes, pos)
        } else if tag == 1 {
            s2c_read_colour_map(bytes, pos)
        } else if tag == 2 {
            let v = S2C::Bell;
            proof {
                assert forall|m: S2C| #![trigger m.wire()]
                    m.wire().len() + pos <= bytes@.len() && m.wf() && bytes@.subrange(
                        pos as int,
                        pos + m.wire().len(),
                    ) == m.wire() implies (pos + m.wire().len() == p1 && m.wire() == v.wire()) by {
                    assert(m.wire().len() >= 1);
                    assert(m.wire()[0] == bytes@[pos as int]);
                    assert(m is Bell);
                    assert(m.wire() =~= v.wire());
                }
            }
            Ok((v, p1))
        } else if tag == 3 {
            s2c_read_cut_text(bytes, pos)
        } else {
            proof {
                assert forall|m: S2C| #![trigger m.wire()]
                    m.wire().len() + pos <= bytes@.len() && m.wf() && bytes@.subrange(
                        pos as int,
                        pos + m.wire().len(),
                    ) == m.wire() implies false by {
                    assert(m.wire().len() >= 1);
                    assert(m.wire()[0] == bytes@[pos as int]);
                }
            }
            Err(WireError::Invalid("server to client message type"))
        }
    }
}


// ---------------------------------------------------------------------------
// Encoding is injective: together with the completeness clause of
// `read_from`, writing any well-formed message and reading the bytes back
// yields the original message. These are the round-trip laws of the codec.

/// Well-formed encodings with equal bytes are equal.
pub proof fn lemma_encoding_wire_injective(a: Encoding, b: Encoding)
    requires
        a.wf(),
        b.wf(),
        a.wire() == b.wire(),
    ensures
        a == b,
{
    lemma_be32_inj();
    assert(be32(enc_code(a) as u32) == be32(enc_code(b) as u32));
    let x = enc_code(a);
    let y = enc_code(b);
    assert((x as u32 == y as u32) ==> x == y) by (bit_vector);
    assert(a == enc_of_code(enc_code(a)));
    assert(b == enc_of_code(enc_code(b)));
}

/// Well-formed colours with equal bytes are equal.
pub proof fn lemma_colour_wire_injective(a: Colour, b: Colour)
    requires
        a.wire() == b.wire(),
    ensures
        a == b,
{
    lemma_be16_inj();
    assert(a.wire().subrange(0, 2) =~= be16(a.red));
    assert(a.wire().subrange(2, 4) =~= be16(a.green));
    assert(a.wire().subrange(4, 6) =~= be16(a.blue));
    assert(b.wire().subrange(0, 2) =~= be16(b.red));
    assert(b.wire().subrange(2, 4) =~= be16(b.green));
    assert(b.wire().subrange(4, 6) =~= be16(b.blue));
}

/// Well-formed pixel formats with equal bytes are equal.
#[verifier::rlimit(100)]
pub proof fn lemma_pixel_format_wire_injective(a: PixelFormat, b: PixelFormat)
    requires
        a.wire() == b.wire(),
    ensures
        a == b,
{
    lemma_be16_inj();
    assert(a.wire().subrange(0, 4) =~= seq![
        a.bits_per_pixel,
        a.depth,
        bool_byte(a.big_endian),
        bool_byte(a.true_colour),
    ]);
    assert(b.wire().subrange(0, 4) =~= seq![
        b.bits_per_pixel,
        b.depth,
        bool_byte(b.big_endian),
        bool_byte(b.true_colour),
    ]);
    assert(a.wire().subrange(10, 13) =~= seq![a.red_shift, a.green_shift, a.blue_shift]);
    assert(b.wire().subrange(10, 13) =~= seq![b.red_shift, b.green_shift, b.blue_shift]);
    assert(a.wire().subrange(0, 4) == b.wire().subrange(0, 4));
    assert(a.wire().subrange(10, 13) == b.wire().subrange(10, 13));
    assert(seq![a.bits_per_pixel, a.depth, bool_byte(a.big_endian), bool_byte(a.true_colour)][2]
        == seq![b.bits_per_pixel, b.depth, bool_byte(b.big_endian), bool_byte(b.true_colour)][2]);
    assert(bool_byte(a.big_endian) == bool_byte(b.big_endian));
    assert(bool_byte(a.true_colour) == bool_byte(b.true_colour));
    assert(a.wire().subrange(4, 6) =~= be16(a.red_max));
    assert(b.wire().subrange(4, 6) =~= be16(b.red_max));
    assert(a.wire().subrange(6, 8) =~= be16(a.green_max));
    assert(b.wire().subrange(6, 8) =~= be16(b.green_max));
    assert(a.wire().subrange(8, 10) =~= be16(a.blue_max));
    assert(b.wire().subrange(8, 10) =~= be16(b.blue_max));
    assert(be16(a.red_max) =~= be16(b.red_max));
    assert(be16(a.green_max) =~= be16(b.green_max));
    assert(be16(a.blue_max) =~= be16(b.blue_max));
    assert(a.wire()[0] == b.wire()[0] && a.wire()[1] == b.wire()[1] && a.wire()[2] == b.wire()[2]
        && a.wire()[3] == b.wire()[3] && a.wire()[10] == b.wire()[10] && a.wire()[11]
        == b.wire()[11] && a.wire()[12] == b.wire()[12]);
}

/// Equal-length encoding lists with equal bytes are element-wise equal.
pub proof fn lemma_enc_list_wire_injective(x: Seq<Encoding>, y: Seq<Encoding>)
    requires
        x.len() == y.len(),
        forall|i: int| 0 <= i < x.len() ==> (#[trigger] x[i]).wf(),
        forall|i: int| 0 <= i < y.len() ==> (#[trigger] y[i]).wf(),
        enc_list_wire(x) == enc_list_wire(y),
    ensures
        x == y,
    decreases x.len(),
{
    if x.len() == 0 {
        assert(x =~= y);
    } else {
        lemma_enc_list_wire_len(x.drop_last());
        lemma_enc_list_wire_len(y.drop_last());
        assert(enc_list_wire(x).subrange(0, 4 * (x.len() - 1)) =~= enc_list_wire(x.drop_last()));
        assert(enc_list_wire(y).subrange(0, 4 * (y.len() - 1)) =~= enc_list_wire(y.drop_last()));
        assert(enc_list_wire(x).subrange(4 * (x.len() - 1), 4 * x.len() as int) =~= x.last().wire());
        assert(enc_list_wire(y).subrange(4 * (y.len() - 1), 4 * y.len() as int) =~= y.last().wire());
        lemma_encoding_wire_injective(x.last(), y.last());
        assert forall|i: int| 0 <= i < x.drop_last().len() implies (#[trigger] x.drop_last()[i]).wf() by {
            assert(x.drop_last()[i] == x[i]);
        }
        assert forall|i: int| 0 <= i < y.drop_last().len() implies (#[trigger] y.drop_last()[i]).wf() by {
            assert(y.drop_last()[i] == y[i]);
        }
        lemma_enc_list_wire_injective(x.drop_last(), y.drop_last());
        assert forall|i: int| 0 <= i < x.len() implies x[i] == y[i] by {
            if i < x.len() - 1 {
                assert(x.drop_last()[i] == x[i]);
                assert(y.drop_last()[i] == y[i]);
            }
        }
        assert(x =~= y);
    }
}

/// Equal-length colour lists with equal bytes are element-wise equal.
pub proof fn lemma_colour_list_wire_injective(x: Seq<Colour>, y: Seq<Colour>)
    requires
        x.len() == y.len(),
        colour_list_wire(x) == colour_list_wire(y),
    ensures
        x == y,
    decreases x.len(),
{
    if x.len() == 0 {
        assert(x =~= y);
    } else {
        lemma_colour_list_wire_len(x.drop_last());
        lemma_colour_list_wire_len(y.drop_last());
        assert(colour_list_wire(x).subrange(0, 6 * (x.len() - 1)) =~= colour_list_wire(
            x.drop_last(),
        ));
        assert(colour_list_wire(y).subrange(0, 6 * (y.len() - 1)) =~= colour_list_wire(
            y.drop_last(),
        ));
        assert(colour_list_wire(x).subrange(6 * (x.len() - 1), 6 * x.len() as int) =~= x.last().wire());
        assert(colour_list_wire(y).subrange(6 * (y.len() - 1), 6 * y.len() as int) =~= y.last().wire());
        lemma_colour_wire_injective(x.last(), y.last());
        lemma_colour_list_wire_injective(x.drop_last(), y.drop_last());
        assert forall|i: int| 0 <= i < x.len() implies x[i] == y[i] by {
            if i < x.len() - 1 {
                assert(x.drop_last()[i] == x[i]);
                assert(y.drop_last()[i] == y[i]);
            }
        }
        assert(x =~= y);
    }
}


pub open spec fn c2s_tag(m: C2S) -> u8 {
    match m {
        C2S::SetPixelFormat(_) => 0u8,
        C2S::SetEncodings(_) => 2u8,
        C2S::FramebufferUpdateRequest { .. } => 3u8,
        C2S::KeyEvent { .. } => 4u8,
        C2S::PointerEvent { .. } => 5u8,
        C2S::CutText(_) => 6u8,
    }
}

pub proof fn lemma_c2s_tag(m: C2S)
    ensures
        m.wire().len() >= 1,
        m.wire()[0] == c2s_tag(m),
{
    match m {
        C2S::SetPixelFormat(_) => {
            assert(m.wire()[0] == 0u8);
        },
        C2S::SetEncodings(_) => {
            assert(m.wire()[0] == 2u8);
        },
        C2S::FramebufferUpdateRequest { .. } => {
            assert(m.wire()[0] == 3u8);
        },
        C2S::KeyEvent { .. } => {
            assert(m.wire()[0] == 4u8);
        },
        C2S::PointerEvent { .. } => {
            assert(m.wire()[0] == 5u8);
        },
        C2S::CutText(_) => {
            assert(m.wire()[0] == 6u8);
        },
    }
}

pub open spec fn s2c_tag(m: S2C) -> u8 {
    match m {
        S2C::FramebufferUpdate { .. } => 0u8,
        S2C::SetColourMapEntries { .. } => 1u8,
        S2C::Bell => 2u8,
        S2C::CutText(_) => 3u8,
    }
}

pub proof fn lemma_s2c_tag(m: S2C)
    ensures
        m.wire().len() >= 1,
        m.wire()[0] == s2c_tag(m),
{
    match m {
        S2C::FramebufferUpdate { .. } => {
            assert(m.wire()[0] == 0u8);
        },
        S2C::SetColourMapEntries { .. } => {
            assert(m.wire()[0] == 1u8);
        },
        S2C::Bell => {
            assert(m.wire()[0] == 2u8);
        },
        S2C::CutText(_) => {
            assert(m.wire()[0] == 3u8);
        },
    }
}

/// Message equality up to the view of the vectors a message carries.
pub open spec fn c2s_eqv(a: C2S, b: C2S) -> bool {
    match (a, b) {
        (C2S::SetPixelFormat(x), C2S::SetPixelFormat(y)) => x == y,
        (C2S::SetEncodings(x), C2S::SetEncodings(y)) => x@ == y@,
        (
            C2S::FramebufferUpdateRequest {
                incremental: i1,
                x_position: x1,
                y_position: y1,
                width: w1,
                height: h1,
            },
            C2S::FramebufferUpdateRequest {
                incremental: i2,
                x_position: x2,
                y_position: y2,
                width: w2,
                height: h2,
            },
        ) => i1 == i2 && x1 == x2 && y1 == y2 && w1 == w2 && h1 == h2,
        (C2S::KeyEvent { down: d1, key: k1 }, C2S::KeyEvent { down: d2, key: k2 }) => d1 == d2 && k1
            == k2,
        (
            C2S::PointerEvent { button_mask: b1, x_position: x1, y_position: y1 },
            C2S::PointerEvent { button_mask: b2, x_position: x2, y_position: y2 },
        ) => b1 == b2 && x1 == x2 && y1 == y2,
        (C2S::CutText(x), C2S::CutText(y)) => x@ == y@,
        _ => false,
    }
}

/// The round-trip law for client-to-server messages: together with the
/// completeness clause of `read_from`, encoding any well-formed message and
/// decoding the bytes reproduces the original message.
pub proof fn lemma_c2s_wire_injective(a: C2S, b: C2S)
    requires
        a.wf(),
        b.wf(),
        a.wire() == b.wire(),
    ensures
        c2s_eqv(a, b),
{
    lemma_be16_inj();
    lemma_be32_inj();
    lemma_c2s_tag(a);
    lemma_c2s_tag(b);
    assert(c2s_tag(a) == c2s_tag(b));
    match (a, b) {
        (C2S::SetPixelFormat(x), C2S::SetPixelFormat(y)) => {
            assert(a.wire().subrange(4, 20) =~= x.wire());
            assert(b.wire().subrange(4, 20) =~= y.wire());
            lemma_pixel_format_wire_injective(x, y);
        },
        (C2S::SetEncodings(x), C2S::SetEncodings(y)) => {
            lemma_enc_list_wire_len(x@);
            lemma_enc_list_wire_len(y@);
            assert(a.wire().subrange(2, 4) =~= be16(x@.len() as u16));
            assert(b.wire().subrange(2, 4) =~= be16(y@.len() as u16));
            assert(x@.len() as u16 == y@.len() as u16);
            assert(x@.len() == y@.len());
            assert(a.wire().subrange(4, a.wire().len() as int) =~= enc_list_wire(x@));
            assert(b.wire().subrange(4, b.wire().len() as int) =~= enc_list_wire(y@));
            lemma_enc_list_wire_injective(x@, y@);
        },
        (C2S::FramebufferUpdateRequest { .. }, C2S::FramebufferUpdateRequest { .. }) => {
            assert(a.wire().subrange(0, 2) =~= seq![
                3u8,
                bool_byte(a->FramebufferUpdateRequest_incremental),
            ]);
            assert(b.wire().subrange(0, 2) =~= seq![
                3u8,
                bool_byte(b->FramebufferUpdateRequest_incremental),
            ]);
            assert(a.wire().subrange(0, 2) == b.wire().subrange(0, 2));
            assert(bool_byte(a->FramebufferUpdateRequest_incremental) == bool_byte(
                b->FramebufferUpdateRequest_incremental,
            ));
            assert(a.wire().subrange(2, 4) =~= be16(a->FramebufferUpdateRequest_x_position));
            assert(b.wire().subrange(2, 4) =~= be16(b->FramebufferUpdateRequest_x_position));
            assert(a.wire().subrange(4, 6) =~= be16(a->FramebufferUpdateRequest_y_position));
            assert(b.wire().subrange(4, 6) =~= be16(b->FramebufferUpdateRequest_y_position));
            assert(a.wire().subrange(6, 8) =~= be16(a->FramebufferUpdateRequest_width));
            assert(b.wire().subrange(6, 8) =~= be16(b->FramebufferUpdateRequest_width));
            assert(a.wire().subrange(8, 10) =~= be16(a->FramebufferUpdateRequest_height));
            assert(b.wire().subrange(8, 10) =~= be16(b->FramebufferUpdateRequest_height));
        },
        (C2S::KeyEvent { .. }, C2S::KeyEvent { .. }) => {
            assert(a.wire().subrange(0, 2) =~= seq![4u8, bool_byte(a->KeyEvent_down)]);
            assert(b.wire().subrange(0, 2) =~= seq![4u8, bool_byte(b->KeyEvent_down)]);
            assert(a.wire().subrange(0, 2) == b.wire().subrange(0, 2));
            assert(bool_byte(a->KeyEvent_down) == bool_byte(b->KeyEvent_down));
            assert(a.wire().subrange(4, 8) =~= be32(a->KeyEvent_key));
            assert(b.wire().subrange(4, 8) =~= be32(b->KeyEvent_key));
        },
        (C2S::PointerEvent { .. }, C2S::PointerEvent { .. }) => {
            assert(a.wire().subrange(0, 2) =~= seq![5u8, a->PointerEvent_button_mask]);
            assert(b.wire().subrange(0, 2) =~= seq![5u8, b->PointerEvent_button_mask]);
            assert(a.wire().subrange(0, 2) == b.wire().subrange(0, 2));
            assert(a->PointerEvent_button_mask == b->PointerEvent_button_mask);
            assert(a.wire().subrange(2, 4) =~= be16(a->PointerEvent_x_position));
            assert(b.wire().subrange(2, 4) =~= be16(b->PointerEvent_x_position));
            assert(a.wire().subrange(4, 6) =~= be16(a->PointerEvent_y_position));
            assert(b.wire().subrange(4, 6) =~= be16(b->PointerEvent_y_position));
        },
        (C2S::CutText(x), C2S::CutText(y)) => {
            assert(a.wire().subrange(4, 8) =~= be32(x@.len() as u32));
            assert(b.wire().subrange(4, 8) =~= be32(y@.len() as u32));
            assert(x@.len() as u32 == y@.len() as u32);
            assert(x@.len() == y@.len());
            assert(a.wire().subrange(8, a.wire().len() as int) =~= x@);
            assert(b.wire().subrange(8, b.wire().len() as int) =~= y@);
        },
        _ => {
            assert(false);
        },
    }
}

/// Message equality up to the view of the vectors a message carries.
pub open spec fn s2c_eqv(a: S2C, b: S2C) -> bool {
    match (a, b) {
        (S2C::FramebufferUpdate { count: c1 }, S2C::FramebufferUpdate { count: c2 }) => c1 == c2,
        (
            S2C::SetColourMapEntries { first_colour: f1, colours: l1 },
            S2C::SetColourMapEntries { first_colour: f2, colours: l2 },
        ) => f1 == f2 && l1@ == l2@,
        (S2C::Bell, S2C::Bell) => true,
        (S2C::CutText(x), S2C::CutText(y)) => x@ == y@,
        _ => false,
    }
}

/// The round-trip law for server-to-client messages: together with the
/// completeness clause of `read_from`, encoding any well-formed message and
/// decoding the bytes reproduces the original message.
pub proof fn lemma_s2c_wire_injective(a: S2C, b: S2C)
    requires
        a.wf(),
        b.wf(),
        a.wire() == b.wire(),
    ensures
        s2c_eqv(a, b),
{
    lemma_be16_inj();
    lemma_be32_inj();
    lemma_s2c_tag(a);
    lemma_s2c_tag(b);
    assert(s2c_tag(a) == s2c_tag(b));
    match (a, b) {
        (S2C::FramebufferUpdate { count: c1 }, S2C::FramebufferUpdate { count: c2 }) => {
            assert(a.wire().subrange(2, 4) =~= be16(c1));
            assert(b.wire().subrange(2, 4) =~= be16(c2));
        },
        (
            S2C::SetColourMapEntries { first_colour: f1, colours: l1 },
            S2C::SetColourMapEntries { first_colour: f2, colours: l2 },
        ) => {
            lemma_colour_list_wire_len(l1@);
            lemma_colour_list_wire_len(l2@);
            assert(a.wire().subrange(2, 4) =~= be16(f1));
            assert(b.wire().subrange(2, 4) =~= be16(f2));
            assert(a.wire().subrange(4, 6) =~= be16(l1@.len() as u16));
            assert(b.wire().subrange(4, 6) =~= be16(l2@.len() as u16));
            assert(l1@.len() as u16 == l2@.len() as u16);
            assert(l1@.len() == l2@.len());
            assert(a.wire().subrange(6, a.wire().len() as int) =~= colour_list_wire(l1@));
            assert(b.wire().subrange(6, b.wire().len() as int) =~= colour_list_wire(l2@));
            lemma_colour_list_wire_injective(l1@, l2@);
        },
        (S2C::Bell, S2C::Bell) => {},
        (S2C::CutText(x), S2C::CutText(y)) => {
            assert(a.wire().subrange(4, 8) =~= be32(x@.len() as u32));
            assert(b.wire().subrange(4, 8) =~= be32(y@.len() as u32));
            assert(x@.len() as u32 == y@.len() as u32);
            assert(x@.len() == y@.len());
            assert(a.wire().subrange(8, a.wire().len() as int) =~= x@);
            assert(b.wire().subrange(8, b.wire().len() as int) =~= y@);
        },
        _ => {
            assert(false);
        },
    }
}

/// Distinct 16-bit values have distinct big-endian bytes, and conversely.
pub proof fn lemma_be16_inj()
    ensures
        forall|a: u16, b: u16| be16(a) == be16(b) ==> a == b,
{
    assert forall|a: u16, b: u16| be16(a) == be16(b) implies a == b by {
        assert(be16(a)[0] == be16(b)[0] && be16(a)[1] == be16(b)[1]);
        let (a0, b0) = ((a >> 8) as u8, (b >> 8) as u8);
        let (a1, b1) = (a as u8, b as u8);
        assert(a0 == b0 && a1 == b1 ==> a == b) by (bit_vector)
            requires
                a0 == (a >> 8) as u8 && a1 == a as u8 && b0 == (b >> 8) as u8 && b1 == b as u8,
        ;
    }
}

/// Distinct 32-bit values have distinct big-endian bytes, and conversely.
pub proof fn lemma_be32_inj()
    ensures
        forall|a: u32, b: u32| be32(a) == be32(b) ==> a == b,
{
    assert forall|a: u32, b: u32| be32(a) == be32(b) implies a == b by {
        assert(be32(a)[0] == be32(b)[0] && be32(a)[1] == be32(b)[1] && be32(a)[2] == be32(b)[2]
            && be32(a)[3] == be32(b)[3]);
        let (a0, b0) = ((a >> 24) as u8, (b >> 24) as u8);
        let (a1, b1) = ((a >> 16) as u8, (b >> 16) as u8);
        let (a2, b2) = ((a >> 8) as u8, (b >> 8) as u8);
        let (a3, b3) = (a as u8, b as u8);
        assert(a0 == b0 && a1 == b1 && a2 == b2 && a3 == b3 ==> a == b) by (bit_vector)
            requires
                a0 == (a >> 24) as u8 && a1 == (a >> 16) as u8 && a2 == (a >> 8) as u8 && a3 == a as u8
                    && b0 == (b >> 24) as u8 && b1 == (b >> 16) as u8 && b2 == (b >> 8) as u8 && b3
                    == b as u8,
        ;
    }
}

} // verus!
