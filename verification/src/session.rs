//! The session logic around the socket: the handshake as a state machine
//! over parsed messages, the password key transform, and the event pump's
//! decisions, which turn each server message and its payload into events.
//! The socket itself, the threads and the channel live outside the library.
use crate::des;
use crate::error::Error;
use crate::protocol::{
    AppleAuthResponse, ClientInit, Colour, CopyRect, Encoding, Message, PixelFormat, Rectangle,
    SecurityResult, SecurityType, ServerInit, Version,
};
use crate::rect::Rect;
use crate::zrle;
use crate::zrle::Decoder;
use vstd::prelude::*;

verus! {

/// An authentication method this client can execute.
#[derive(Debug, Clone, Copy, PartialEq, Eq, Structural)]
pub enum AuthMethod {
    NoAuth,
    Password,
    AppleRemoteDesktop,
}

/// The caller's choice of method, with its credentials; text is Latin-1
/// bytes.
#[derive(Debug)]
pub enum AuthChoice {
    NoAuth,
    Password([u8; 8]),
    AppleRemoteDesktop(Vec<u8>, Vec<u8>),
}

/// What the event pump hands to the frame loop.
#[derive(Debug)]
pub enum Event {
    Disconnected(Option<Error>),
    Resize(u16, u16),
    SetColourMap { first_colour: u16, colours: Vec<Colour> },
    PutPixels(Rect, Vec<u8>),
    CopyPixels { src: Rect, dst: Rect },
    EndOfFrame,
    SetCursor { size: (u16, u16), hotspot: (u16, u16), pixels: Vec<u8>, mask_bits: Vec<u8> },
    Clipboard(Vec<u8>),
    Bell,
}

// ---------------------------------------------------------------------------
// The RFB password key transform.

/// The bits of one byte in reverse order: DES ignores the low bit of every
/// key octet, so RFB reverses each byte of the password.
pub open spec fn spec_reverse_bits(b: u8) -> u8 {
    ((b & 0x01) << 7) | ((b & 0x02) << 5) | ((b & 0x04) << 3) | ((b & 0x08) << 1) | ((b & 0x10)
        >> 1) | ((b & 0x20) >> 3) | ((b & 0x40) >> 5) | ((b & 0x80) >> 7)
}

pub fn reverse_bits(b: u8) -> (r: u8)
    ensures
        r == spec_reverse_bits(b),
{
    ((b & 0x01) << 7) | ((b & 0x02) << 5) | ((b & 0x04) << 3) | ((b & 0x08) << 1) | ((b & 0x10)
        >> 1) | ((b & 0x20) >> 3) | ((b & 0x40) >> 5) | ((b & 0x80) >> 7)
}

/// Reversing the bits of a byte twice gives the byte back: the password key
/// transform is its own inverse.
pub proof fn lemma_reverse_bits_involutive(b: u8)
    ensures
        spec_reverse_bits(spec_reverse_bits(b)) == b,
{
    assert(spec_reverse_bits(spec_reverse_bits(b)) == b) by (bit_vector);
}

/// Every byte of the key, bit-reversed.
pub open spec fn spec_des_key_of(k: Seq<u8>) -> Seq<u8> {
    Seq::new(k.len(), |i: int| spec_reverse_bits(k[i]))
}

/// The transform is its own inverse on whole keys.
pub proof fn lemma_des_key_involutive(k: Seq<u8>)
    ensures
        spec_des_key_of(spec_des_key_of(k)) == k,
{
    assert forall|i: int| 0 <= i < k.len() implies spec_des_key_of(spec_des_key_of(k))[i] == k[i] by {
        lemma_reverse_bits_involutive(k[i]);
    }
    assert(spec_des_key_of(spec_des_key_of(k)) =~= k);
}

/// Reverse the bit order within every byte of the password key.
pub fn password_des_key(password_key: &des::Key) -> (r: des::Key)
    ensures
        r@ == spec_des_key_of(password_key@),
{
    let mut key: des::Key = [0u8; 8];
    let mut i: usize = 0;
    while i < 8
        invariant
            i <= 8,
            key@.len() == 8,
            password_key@.len() == 8,
            forall|j: int| 0 <= j < i ==> key@[j] == spec_reverse_bits(password_key@[j]),
        decreases 8 - i,
    {
        key[i] = reverse_bits(password_key[i]);
        i += 1;
    }
    proof {
        assert(key@ =~= spec_des_key_of(password_key@));
    }
    key
}

/// The 16-byte answer to a VNC authentication challenge: DES in ECB mode
/// over the two challenge blocks, under the bit-reversed password key.
pub fn challenge_response(password_key: &des::Key, challenge: &[u8]) -> (r: Vec<u8>)
    requires
        challenge@.len() == 16,
    ensures
        r@ == des::spec_encrypt(challenge@, spec_des_key_of(password_key@)),
{
    let key = password_des_key(password_key);
    des::encrypt(challenge, &key)
}

/// The 128-byte Apple Remote Desktop credential block: username in the
/// first 64 bytes, password in the second, both truncated or zero padded.
pub open spec fn spec_ard_credentials(u: Seq<u8>, p: Seq<u8>) -> Seq<u8> {
    Seq::new(
        128,
        |i: int|
            if i < 64 {
                if i < u.len() {
                    u[i]
                } else {
                    0u8
                }
            } else {
                if i - 64 < p.len() {
                    p[i - 64]
                } else {
                    0u8
                }
            },
    )
}

pub fn ard_credentials(username: &Vec<u8>, password: &Vec<u8>) -> (r: Vec<u8>)
    ensures
        r@ == spec_ard_credentials(username@, password@),
{
    let mut block: Vec<u8> = Vec::new();
    let mut i: usize = 0;
    while i < 64
        invariant
            i <= 64,
            block@.len() == i,
            forall|j: int|
                0 <= j < i ==> block@[j] == spec_ard_credentials(username@, password@)[j],
        decreases 64 - i,
    {
        if i < username.len() {
            block.push(username[i]);
        } else {
            block.push(0);
        }
        i += 1;
    }
    let mut k: usize = 0;
    while k < 64
        invariant
            k <= 64,
            block@.len() == 64 + k,
            forall|j: int|
                0 <= j < 64 + k ==> block@[j] == spec_ard_credentials(username@, password@)[j],
        decreases 64 - k,
    {
        if k < password.len() {
            block.push(password[k]);
        } else {
            block.push(0);
        }
        k += 1;
    }
    proof {
        assert(block@ =~= spec_ard_credentials(username@, password@));
    }
    block
}

// ---------------------------------------------------------------------------
// The handshake state machine.

/// Where the handshake stands; each phase names what must be read or sent
/// next.
#[derive(Debug, Clone, Copy, PartialEq, Eq, Structural)]
pub enum HandshakePhase {
    ExpectVersion,
    ExpectSecurity,
    ExpectChallenge,
    ExpectAppleHandshake,
    ExpectSecurityResult,
    ExpectFailReason,
    SendClientInit,
    ExpectServerInit,
    Done,
}

/// What the handshake learned from ServerInit.
#[derive(Debug)]
pub struct SessionInfo {
    pub width: u16,
    pub height: u16,
    pub format: PixelFormat,
    pub name: Vec<u8>,
}

/// The pixel formats the decoder accepts: whole-byte pixels and sane
/// channel shifts.
pub open spec fn format_supported(f: PixelFormat) -> bool {
    (f.bits_per_pixel == 8 || f.bits_per_pixel == 16 || f.bits_per_pixel == 32) && f.red_shift < 32
        && f.green_shift < 32 && f.blue_shift < 32
}

/// The client side of session setup, fed one parsed message at a time; each
/// step says what bytes to send back.
pub struct Handshake {
    pub phase: HandshakePhase,
    pub version: Version,
    pub shared: bool,
    pub key: Option<des::Key>,
}

/// The methods this client recognises, in the order the server offered
/// them.
pub open spec fn spec_auth_methods(l: Seq<SecurityType>) -> Seq<AuthMethod>
    decreases l.len(),
{
    if l.len() == 0 {
        Seq::empty()
    } else {
        spec_auth_methods(l.drop_last()) + (match l.last() {
            SecurityType::NoAuth => seq![AuthMethod::NoAuth],
            SecurityType::VncAuthentication => seq![AuthMethod::Password],
            SecurityType::AppleRemoteDesktop => seq![AuthMethod::AppleRemoteDesktop],
            _ => Seq::empty(),
        })
    }
}

/// Map the offered security types to the methods this client recognises.
pub fn auth_methods_of(types: &Vec<SecurityType>) -> (r: Vec<AuthMethod>)
    ensures
        r@ == spec_auth_methods(types@),
{
    let mut methods: Vec<AuthMethod> = Vec::new();
    let mut i: usize = 0;
    while i < types.len()
        invariant
            i <= types@.len(),
            methods@ == spec_auth_methods(types@.subrange(0, i as int)),
        decreases types@.len() - i,
    {
        match types[i] {
            SecurityType::NoAuth => methods.push(AuthMethod::NoAuth),
            SecurityType::VncAuthentication => methods.push(AuthMethod::Password),
            SecurityType::AppleRemoteDesktop => methods.push(AuthMethod::AppleRemoteDesktop),
            _ => (),
        }
        proof {
            assert(types@.subrange(0, i + 1 as int).drop_last() =~= types@.subrange(0, i as int));
            assert(types@.subrange(0, i + 1 as int).last() == types@[i as int]);
        }
        i += 1;
    }
    proof {
        assert(types@.subrange(0, types@.len() as int) =~= types@);
    }
    methods
}

/// For version 3.3 the server names exactly one security type; Invalid
/// means none are usable.
pub fn security_types_for_33(t: SecurityType) -> (r: Vec<SecurityType>)
    ensures
        r@ == if t is Invalid {
            Seq::<SecurityType>::empty()
        } else {
            seq![t]
        },
{
    let mut v: Vec<SecurityType> = Vec::new();
    if !(matches!(t, SecurityType::Invalid)) {
        v.push(t);
        proof {
            assert(v@ =~= seq![t]);
        }
    }
    v
}

impl Handshake {
    /// A challenge can only be pending once a password was chosen.
    pub open spec fn wf(&self) -> bool {
        self.phase is ExpectChallenge ==> self.key is Some
    }

    pub fn new(shared: bool) -> (r: Handshake)
        ensures
            r.phase is ExpectVersion,
            r.shared == shared,
            r.wf(),
    {
        Handshake { phase: HandshakePhase::ExpectVersion, version: Version::Rfb38, shared, key: None }
    }

    /// The server's version arrived: echo it back.
    pub fn on_version(&mut self, v: Version) -> (send: Vec<u8>)
        requires
            old(self).wf(),
            old(self).phase is ExpectVersion,
        ensures
            final(self).wf(),
            final(self).phase is ExpectSecurity,
            final(self).version == v,
            final(self).shared == old(self).shared,
            send@ == v.wire(),
    {
        self.version = v;
        self.phase = HandshakePhase::ExpectSecurity;
        let mut send: Vec<u8> = Vec::new();
        v.write_to(&mut send);
        send
    }

    /// The server offered no usable security type and supplied a reason.
    pub fn on_empty_security(&mut self, reason: Vec<u8>) -> (r: Error)
        requires
            old(self).wf(),
            old(self).phase is ExpectSecurity,
        ensures
            final(self).wf(),
            r is Server,
            r->Server_0@ == reason@,
    {
        Error::Server(reason)
    }

    /// The caller chose an authentication method (or none was available).
    /// For versions 3.7 and up the chosen type is echoed; no authentication
    /// on 3.3 or 3.7 skips the security result.
    pub fn on_auth_choice(&mut self, choice: Option<AuthChoice>) -> (r: Result<Vec<u8>, Error>)
        requires
            old(self).wf(),
            old(self).phase is ExpectSecurity,
        ensures
            final(self).wf(),
            final(self).version == old(self).version,
            final(self).shared == old(self).shared,
            match r {
                Ok(send) => match choice {
                    Option::None => false,
                    Option::Some(c) => {
                        &&& send@ == if old(self).version is Rfb33 {
                            Seq::<u8>::empty()
                        } else {
                            match c {
                                AuthChoice::NoAuth => SecurityType::NoAuth.wire(),
                                AuthChoice::Password(_) => SecurityType::VncAuthentication.wire(),
                                AuthChoice::AppleRemoteDesktop(_, _) =>
                                    SecurityType::AppleRemoteDesktop.wire(),
                            }
                        }
                        &&& final(self).phase == (match c {
                            AuthChoice::Password(_) => HandshakePhase::ExpectChallenge,
                            AuthChoice::AppleRemoteDesktop(_, _) =>
                                HandshakePhase::ExpectAppleHandshake,
                            AuthChoice::NoAuth => if old(self).version is Rfb38 {
                                HandshakePhase::ExpectSecurityResult
                            } else {
                                HandshakePhase::SendClientInit
                            },
                        })
                        &&& (c is Password ==> final(self).key == Option::Some(c->Password_0))
                    },
                },
                Err(e) => choice is None && e is AuthenticationUnavailable && final(self).phase
                    == old(self).phase,
            },
    {
        let c = match choice {
            Option::None => {
                return Err(Error::AuthenticationUnavailable);
            },
            Option::Some(c) => c,
        };
        let mut send: Vec<u8> = Vec::new();
        if !(matches!(self.version, Version::Rfb33)) {
            let st = match &c {
                AuthChoice::NoAuth => SecurityType::NoAuth,
                AuthChoice::Password(_) => SecurityType::VncAuthentication,
                AuthChoice::AppleRemoteDesktop(_, _) => SecurityType::AppleRemoteDesktop,
            };
            st.write_to(&mut send);
        }
        match c {
            AuthChoice::Password(k) => {
                self.key = Some(k);
                self.phase = HandshakePhase::ExpectChallenge;
            },
            AuthChoice::AppleRemoteDesktop(_, _) => {
                self.phase = HandshakePhase::ExpectAppleHandshake;
            },
            AuthChoice::NoAuth => {
                self.phase = if matches!(self.version, Version::Rfb38) {
                    HandshakePhase::ExpectSecurityResult
                } else {
                    HandshakePhase::SendClientInit
                };
            },
        }
        Ok(send)
    }

    /// The 16-byte challenge arrived: answer with its DES encryption under
    /// the bit-reversed password key.
    pub fn on_challenge(&mut self, challenge: &Vec<u8>) -> (send: Vec<u8>)
        requires
            old(self).wf(),
            old(self).phase is ExpectChallenge,
            challenge@.len() == 16,
        ensures
            final(self).wf(),
            final(self).phase is ExpectSecurityResult,
            final(self).version == old(self).version,
            final(self).shared == old(self).shared,
            send@ == des::spec_encrypt(
                challenge@,
                spec_des_key_of(old(self).key->Some_0@),
            ),
    {
        let key = self.key.as_ref().unwrap();
        let response = challenge_response(key, challenge.as_slice());
        self.phase = HandshakePhase::ExpectSecurityResult;
        response
    }

    /// The Apple Remote Desktop response (computed outside, from the
    /// Diffie-Hellman handshake) is sent as is.
    pub fn on_apple_response(&mut self, response: &AppleAuthResponse) -> (send: Vec<u8>)
        requires
            old(self).wf(),
            old(self).phase is ExpectAppleHandshake,
            response.wf(),
        ensures
            final(self).wf(),
            final(self).phase is ExpectSecurityResult,
            final(self).version == old(self).version,
            final(self).shared == old(self).shared,
            send@ == response.wire(),
    {
        let mut send: Vec<u8> = Vec::new();
        response.write_to(&mut send);
        self.phase = HandshakePhase::ExpectSecurityResult;
        send
    }

    /// The security result arrived. On failure, version 3.8 supplies a
    /// reason to read first; older versions fail with an empty reason.
    pub fn on_security_result(&mut self, sr: SecurityResult) -> (r: Result<bool, Error>)
        requires
            old(self).wf(),
            old(self).phase is ExpectSecurityResult,
        ensures
            final(self).wf(),
            final(self).version == old(self).version,
            final(self).shared == old(self).shared,
            match r {
                Ok(ok) => if sr is Succeeded {
                    ok && final(self).phase is SendClientInit
                } else {
                    !ok && old(self).version is Rfb38 && final(self).phase is ExpectFailReason
                },
                Err(e) => sr is Failed && !(old(self).version is Rfb38) && e
                    is AuthenticationFailure && e->AuthenticationFailure_0@ == Seq::<u8>::empty(),
            },
    {
        match sr {
            SecurityResult::Succeeded => {
                self.phase = HandshakePhase::SendClientInit;
                Ok(true)
            },
            SecurityResult::Failed => {
                if matches!(self.version, Version::Rfb38) {
                    self.phase = HandshakePhase::ExpectFailReason;
                    Ok(false)
                } else {
                    Err(Error::AuthenticationFailure(Vec::new()))
                }
            },
        }
    }

    /// The version 3.8 failure reason arrived.
    pub fn on_fail_reason(&mut self, reason: Vec<u8>) -> (r: Error)
        requires
            old(self).wf(),
            old(self).phase is ExpectFailReason,
        ensures
            final(self).wf(),
            r is AuthenticationFailure,
            r->AuthenticationFailure_0@ == reason@,
    {
        Error::AuthenticationFailure(reason)
    }

    /// Authentication is through: send ClientInit.
    pub fn client_init(&mut self) -> (send: Vec<u8>)
        requires
            old(self).wf(),
            old(self).phase is SendClientInit,
        ensures
            final(self).wf(),
            final(self).phase is ExpectServerInit,
            final(self).version == old(self).version,
            final(self).shared == old(self).shared,
            send@ == (ClientInit { shared: old(self).shared }).wire(),
    {
        self.phase = HandshakePhase::ExpectServerInit;
        let mut send: Vec<u8> = Vec::new();
        let ci = ClientInit { shared: self.shared };
        ci.write_to(&mut send);
        send
    }

    /// ServerInit arrived: the session is up if the pixel format is one the
    /// decoder accepts.
    pub fn on_server_init(&mut self, si: ServerInit) -> (r: Result<SessionInfo, Error>)
        requires
            old(self).wf(),
            old(self).phase is ExpectServerInit,
        ensures
            final(self).wf(),
            match r {
                Ok(info) => format_supported(si.pixel_format) && final(self).phase is Done
                    && info.width == si.framebuffer_width && info.height == si.framebuffer_height
                    && info.format == si.pixel_format && info.name@ == si.name@,
                Err(e) => !format_supported(si.pixel_format) && e is Unexpected,
            },
    {
        let f = &si.pixel_format;
        let ok = (f.bits_per_pixel == 8 || f.bits_per_pixel == 16 || f.bits_per_pixel == 32)
            && f.red_shift < 32 && f.green_shift < 32 && f.blue_shift < 32;
        if !ok {
            return Err(Error::Unexpected("pixel format"));
        }
        self.phase = HandshakePhase::Done;
        Ok(SessionInfo {
            width: si.framebuffer_width,
            height: si.framebuffer_height,
            format: si.pixel_format,
            name: si.name,
        })
    }
}

// ---------------------------------------------------------------------------
// The event pump's decisions.

/// How many payload bytes a rectangle needs before it can be decoded; a
/// ZRLE rectangle carries its own 32-bit length prefix instead.
#[derive(Debug, Clone, Copy, PartialEq, Eq, Structural)]
pub enum PayloadNeed {
    Bytes(u64),
    ZrleRecord,
}

pub open spec fn spec_bytes_per_pixel(f: PixelFormat) -> int {
    f.bits_per_pixel as int / 8
}

/// The payload that follows one rectangle header, by its encoding.
pub fn rect_payload_need(format: &PixelFormat, r: &Rectangle) -> (res: Result<PayloadNeed, Error>)
    ensures
        match res {
            Ok(need) => match r.encoding {
                Encoding::Raw => need == PayloadNeed::Bytes(
                    (r.width * r.height * spec_bytes_per_pixel(*format)) as u64,
                ),
                Encoding::CopyRect => need == PayloadNeed::Bytes(4),
                Encoding::Zrle => need == PayloadNeed::ZrleRecord,
                Encoding::Cursor => need == PayloadNeed::Bytes(
                    (r.width * r.height * spec_bytes_per_pixel(*format) + ((r.width + 7) / 8)
                        * r.height) as u64,
                ),
                Encoding::DesktopSize => need == PayloadNeed::Bytes(0),
                _ => false,
            },
            Err(e) => e is Unexpected && !(r.encoding is Raw) && !(r.encoding is CopyRect) && !(
            r.encoding is Zrle) && !(r.encoding is Cursor) && !(r.encoding is DesktopSize),
        },
{
    let bpp = (format.bits_per_pixel / 8) as u64;
    let w = r.width as u64;
    let h = r.height as u64;
    proof {
        assert(w * h <= 0xffff * 0xffff && w * h * bpp <= 0xffff * 0xffff * 32 && ((w + 7) / 8) * h
            <= 0x10000 * 0xffff) by (nonlinear_arith)
            requires
                w <= 0xffff,
                h <= 0xffff,
                bpp <= 32,
        ;
    }
    match r.encoding {
        Encoding::Raw => Ok(PayloadNeed::Bytes(w * h * bpp)),
        Encoding::CopyRect => Ok(PayloadNeed::Bytes(4)),
        Encoding::Zrle => Ok(PayloadNeed::ZrleRecord),
        Encoding::Cursor => Ok(PayloadNeed::Bytes(w * h * bpp + ((w + 7) / 8) * h)),
        Encoding::DesktopSize => Ok(PayloadNeed::Bytes(0)),
        _ => Err(Error::Unexpected("encoding")),
    }
}

pub open spec fn rect_of(r: Rectangle) -> Rect {
    Rect { left: r.x_position, top: r.y_position, width: r.width, height: r.height }
}

/// Turn one rectangle and its payload into events. No event produced here
/// is `EndOfFrame` or `Disconnected`. Success is owed wherever no outside
/// call decides: always for Raw and DesktopSize, and for CopyRect and Cursor
/// whenever the payload is long enough; only a ZRLE record's inflation can
/// refuse beyond the stated bounds check.
pub fn rect_events(format: &PixelFormat, r: &Rectangle, payload: Vec<u8>, zrle: &mut Decoder) -> (
    res: Result<Vec<Event>, Error>)
    requires
        format_supported(*format),
    ensures
        match r.encoding {
            Encoding::Raw => res is Ok,
            Encoding::DesktopSize => res is Ok,
            Encoding::CopyRect => (payload@.len() >= 4 ==> res is Ok) && (res is Err
                ==> payload@.len() < 4),
            Encoding::Cursor => ({
                let need = r.width * r.height * spec_bytes_per_pixel(*format);
                (need <= payload@.len() ==> res is Ok) && (res is Err ==> need > payload@.len())
            }),
            Encoding::Zrle => (r.x_position + r.width > 0xFFFF || r.y_position + r.height
                > 0xFFFF) ==> res is Err,
            _ => res is Err,
        },
        match res {
            Ok(events) => (forall|i: int|
                0 <= i < events@.len() ==> !((#[trigger] events@[i]) is EndOfFrame) && !(
                events@[i] is Disconnected)) && match r.encoding {
                Encoding::Raw => events@ == seq![Event::PutPixels(rect_of(*r), payload)],
                Encoding::CopyRect => events@.len() == 1 && (events@[0] matches Event::CopyPixels {
                    src,
                    dst,
                } && dst == rect_of(*r) && src.width == r.width && src.height == r.height
                    && crate::protocol::be16(src.left) == payload@.subrange(0, 2)
                    && crate::protocol::be16(src.top) == payload@.subrange(2, 4)),
                Encoding::Zrle => events@.len() == zrle::tile_count(r.width) * zrle::tile_count(
                    r.height,
                ) && forall|k: int|
                    0 <= k < events@.len() ==> ((#[trigger] events@[k]) matches Event::PutPixels(
                        tr,
                        _,
                    ) && tr == zrle::spec_tile_rect(rect_of(*r), k)),
                Encoding::Cursor => events@.len() == 1 && (events@[0] matches Event::SetCursor {
                    size,
                    hotspot,
                    pixels,
                    mask_bits,
                } && size == (r.width, r.height) && hotspot == (r.x_position, r.y_position)
                    && pixels@ + mask_bits@ == payload@),
                Encoding::DesktopSize => events@ == seq![Event::Resize(r.width, r.height)],
                _ => false,
            },
            Err(_) => true,
        },
{
    match r.encoding {
        Encoding::Raw => {
            let dst = Rect { left: r.x_position, top: r.y_position, width: r.width, height: r.height };
            let mut events: Vec<Event> = Vec::new();
            events.push(Event::PutPixels(dst, payload));
            proof {
                assert(events@ =~= seq![Event::PutPixels(rect_of(*r), payload)]);
            }
            Ok(events)
        },
        Encoding::CopyRect => {
            let (cr, _) = match CopyRect::read_from(&payload, 0) {
                Ok(x) => x,
                Err(_) => {
                    proof {
                        if payload@.len() >= 4 {
                            crate::protocol::lemma_half_bytes(payload@, 0);
                            crate::protocol::lemma_half_bytes(payload@, 2);
                            let c = CopyRect {
                                src_x_position: ((payload@[0] as u16) << 8) | (
                                payload@[1] as u16),
                                src_y_position: ((payload@[2] as u16) << 8) | (
                                payload@[3] as u16),
                            };
                            assert(c.wire() =~= payload@.subrange(0, 4));
                            assert(false);
                        }
                    }
                    return Err(Error::Unexpected("CopyRect payload"));
                },
            };
            let src = Rect {
                left: cr.src_x_position,
                top: cr.src_y_position,
                width: r.width,
                height: r.height,
            };
            let dst = Rect { left: r.x_position, top: r.y_position, width: r.width, height: r.height };
            let mut events: Vec<Event> = Vec::new();
            events.push(Event::CopyPixels { src, dst });
            proof {
                assert(cr.wire().subrange(0, 2) =~= crate::protocol::be16(cr.src_x_position));
                assert(cr.wire().subrange(2, 4) =~= crate::protocol::be16(cr.src_y_position));
                assert(payload@.subrange(0, 4).subrange(0, 2) =~= payload@.subrange(0, 2));
                assert(payload@.subrange(0, 4).subrange(2, 4) =~= payload@.subrange(2, 4));
            }
            Ok(events)
        },
        Encoding::Zrle => {
            if r.width as u32 + r.x_position as u32 > 0xFFFF || r.height as u32
                + r.y_position as u32 > 0xFFFF {
                return Err(Error::Unexpected("rectangle bounds"));
            }
            let dst = Rect { left: r.x_position, top: r.y_position, width: r.width, height: r.height };
            let tiles = match zrle.decode(*format, dst, &payload) {
                Ok(t) => t,
                Err(e) => {
                    return Err(e);
                },
            };
            let mut tiles = tiles;
            let mut events: Vec<Event> = Vec::new();
            let mut i: usize = 0;
            let n = tiles.len();
            let ghost tiles_view = tiles@;
            while i < n
                invariant
                    i <= n,
                    n == tiles_view.len(),
                    tiles@ == tiles_view.subrange(i as int, tiles_view.len() as int),
                    forall|k: int|
                        0 <= k < tiles_view.len() ==> (#[trigger] tiles_view[k]).0
                            == zrle::spec_tile_rect(rect_of(*r), k),
                    events@.len() == i,
                    forall|k: int|
                        0 <= k < i ==> ((#[trigger] events@[k]) matches Event::PutPixels(tr, _)
                            && tr == zrle::spec_tile_rect(rect_of(*r), k)),
                decreases n - i,
            {
                let ghost before = tiles@;
                let (tr, pixels) = tiles.remove(0);
                proof {
                    assert(before[0] == tiles_view[i as int]);
                    assert(tiles@ =~= tiles_view.subrange(i + 1 as int, tiles_view.len() as int));
                }
                events.push(Event::PutPixels(tr, pixels));
                i += 1;
            }
            Ok(events)
        },
        Encoding::Cursor => {
            let bpp = (format.bits_per_pixel / 8) as u64;
            let w = r.width as u64;
            let h = r.height as u64;
            proof {
                assert(w * h <= 0xffff * 0xffff && w * h * bpp <= 0xffff * 0xffff * 32)
                    by (nonlinear_arith)
                    requires
                        w <= 0xffff,
                        h <= 0xffff,
                        bpp <= 32,
                ;
            }
            let n1_64 = w * h * bpp;
            if n1_64 > payload.len() as u64 {
                return Err(Error::Unexpected("cursor payload"));
            }
            let n1 = n1_64 as usize;
            let mut pixels: Vec<u8> = Vec::new();
            let mut mask_bits: Vec<u8> = Vec::new();
            let mut i: usize = 0;
            while i < payload.len()
                invariant
                    n1 <= payload@.len(),
                    i <= payload@.len(),
                    i <= n1 ==> pixels@ =~= payload@.subrange(0, i as int) && mask_bits@.len()
                        == 0,
                    i > n1 ==> pixels@ =~= payload@.subrange(0, n1 as int) && mask_bits@
                        =~= payload@.subrange(n1 as int, i as int),
                decreases payload@.len() - i,
            {
                if i < n1 {
                    pixels.push(payload[i]);
                } else {
                    mask_bits.push(payload[i]);
                }
                i += 1;
            }
            proof {
                if payload@.len() <= n1 {
                    assert(pixels@ =~= payload@);
                    assert(pixels@ + mask_bits@ =~= payload@);
                } else {
                    assert(pixels@ + mask_bits@ =~= payload@);
                }
            }
            let mut events: Vec<Event> = Vec::new();
            events.push(
                Event::SetCursor {
                    size: (r.width, r.height),
                    hotspot: (r.x_position, r.y_position),
                    pixels,
                    mask_bits,
                },
            );
            Ok(events)
        },
        Encoding::DesktopSize => {
            let mut events: Vec<Event> = Vec::new();
            events.push(Event::Resize(r.width, r.height));
            proof {
                assert(events@ =~= seq![Event::Resize(r.width, r.height)]);
            }
            Ok(events)
        },
        _ => Err(Error::Unexpected("encoding")),
    }
}

/// The events of the per-rectangle lists, in order.
pub open spec fn spec_flatten_events(ls: Seq<Vec<Event>>) -> Seq<Event>
    decreases ls.len(),
{
    if ls.len() == 0 {
        Seq::empty()
    } else {
        ls[0]@ + spec_flatten_events(ls.subrange(1, ls.len() as int))
    }
}

/// Assemble the events of one framebuffer update: the per-rectangle events
/// in order, then exactly one `EndOfFrame`, which comes last. Every event of
/// the update precedes it, and none is emitted without the update that ends
/// here.
pub fn frame_events(lists: Vec<Vec<Event>>) -> (events: Vec<Event>)
    requires
        forall|i: int, j: int|
            0 <= i < lists@.len() && 0 <= j < lists@[i]@.len() ==> !((#[trigger] lists@[i]@[j])
                is EndOfFrame),
    ensures
        events@ == spec_flatten_events(lists@) + seq![Event::EndOfFrame],
        events@.len() >= 1,
        events@[events@.len() - 1] is EndOfFrame,
        forall|i: int| 0 <= i < events@.len() - 1 ==> !((#[trigger] events@[i]) is EndOfFrame),
{
    let ghost orig = lists@;
    let mut lists = lists;
    let lists_total = lists.len();
    let mut events: Vec<Event> = Vec::new();
    let mut i: usize = 0;
    while lists.len() > 0
        invariant
            orig.len() == lists_total,
            i <= orig.len(),
            i == orig.len() - lists@.len(),
            lists@ == orig.subrange(i as int, orig.len() as int),
            forall|a: int, b: int|
                0 <= a < orig.len() && 0 <= b < orig[a]@.len() ==> !((#[trigger] orig[a]@[b])
                    is EndOfFrame),
            events@ + spec_flatten_events(lists@) == spec_flatten_events(orig),
            forall|k: int| 0 <= k < events@.len() ==> !((#[trigger] events@[k]) is EndOfFrame),
        decreases lists@.len(),
    {
        let ghost before = lists@;
        let ghost events_before = events@;
        let mut inner = lists.remove(0);
        proof {
            assert(before[0] == orig[i as int]);
            assert(lists@ =~= orig.subrange(i + 1 as int, orig.len() as int));
            assert(spec_flatten_events(before) == before[0]@ + spec_flatten_events(lists@));
        }
        let ghost inner0 = inner@;
        let inner_total = inner.len();
        let mut j: usize = 0;
        while inner.len() > 0
            invariant
                inner0.len() == inner_total,
                j <= inner0.len(),
                j == inner0.len() - inner@.len(),
                inner@ == inner0.subrange(j as int, inner0.len() as int),
                forall|b: int| 0 <= b < inner0.len() ==> !((#[trigger] inner0[b]) is EndOfFrame),
                events@ =~= events_before + inner0.subrange(0, j as int),
                forall|k: int| 0 <= k < events_before.len() ==> !((#[trigger] events_before[k])
                    is EndOfFrame),
            decreases inner@.len(),
        {
            let ghost inner_before = inner@;
            let e = inner.remove(0);
            proof {
                assert(inner_before[0] == inner0[j as int]);
                assert(inner@ =~= inner0.subrange(j + 1 as int, inner0.len() as int));
                assert(events@.push(e) =~= events_before + inner0.subrange(0, j + 1 as int));
            }
            events.push(e);
            j += 1;
        }
        proof {
            assert(inner0.subrange(0, inner0.len() as int) =~= inner0);
            assert(events@ =~= events_before + inner0);
            assert(events@ + spec_flatten_events(lists@) =~= events_before + (inner0
                + spec_flatten_events(lists@)));
            assert(inner0 == orig[i as int]@);
        }
        i += 1;
    }
    proof {
        assert(lists@.len() == 0);
        assert(spec_flatten_events(lists@) =~= Seq::<Event>::empty());
        assert(events@ =~= spec_flatten_events(orig));
    }
    events.push(Event::EndOfFrame);
    proof {
        assert(events@ =~= spec_flatten_events(orig) + seq![Event::EndOfFrame]);
    }
    events
}

} // verus!
