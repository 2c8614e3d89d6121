use einkvnc::protocol::{
    ClientInit, Colour, CopyRect, Encoding, Message, PixelFormat, Rectangle, SecurityResult,
    SecurityType, SecurityTypes, ServerInit, Version, WireError, C2S, S2C,
};

fn wire_of<M: Message>(m: &M) -> Vec<u8> {
    let mut out = Vec::new();
    m.write_to(&mut out);
    out
}

fn test_format() -> PixelFormat {
    PixelFormat {
        bits_per_pixel: 32,
        depth: 24,
        big_endian: false,
        true_colour: true,
        red_max: 255,
        green_max: 255,
        blue_max: 255,
        red_shift: 16,
        green_shift: 8,
        blue_shift: 0,
    }
}

#[test]
fn version_round_trip() {
    for v in [Version::Rfb33, Version::Rfb37, Version::Rfb38] {
        let bytes = wire_of(&v);
        assert_eq!(bytes.len(), 12);
        let (back, p) = Version::read_from(&bytes, 0).unwrap();
        assert_eq!(back, v);
        assert_eq!(p, 12);
    }
    assert_eq!(wire_of(&Version::Rfb38), b"RFB 003.008\n".to_vec());
}

#[test]
fn version_apple_alias_is_rfb38() {
    let bytes = b"RFB 003.889\n".to_vec();
    let (v, _) = Version::read_from(&bytes, 0).unwrap();
    assert_eq!(v, Version::Rfb38);
}

#[test]
fn version_rejects_unknown_string() {
    let bytes = b"RFB 003.009\n".to_vec();
    assert_eq!(
        Version::read_from(&bytes, 0),
        Err(WireError::Invalid("protocol version"))
    );
}

#[test]
fn short_reads_are_incomplete() {
    let bytes = b"RFB 003.0".to_vec();
    assert_eq!(Version::read_from(&bytes, 0), Err(WireError::Incomplete));
    assert!(matches!(S2C::read_from(&Vec::new(), 0), Err(WireError::Incomplete)));
}

#[test]
fn security_types_round_trip() {
    let st = SecurityTypes(vec![
        SecurityType::NoAuth,
        SecurityType::VncAuthentication,
        SecurityType::AppleRemoteDesktop,
        SecurityType::Unknown(77),
    ]);
    let bytes = wire_of(&st);
    assert_eq!(bytes, vec![4, 1, 2, 30, 77]);
    let (back, p) = SecurityTypes::read_from(&bytes, 0).unwrap();
    assert_eq!(p, 5);
    assert_eq!(back.0, st.0);
}

#[test]
fn security_result_round_trip_and_rejection() {
    assert_eq!(wire_of(&SecurityResult::Succeeded), vec![0, 0, 0, 0]);
    assert_eq!(wire_of(&SecurityResult::Failed), vec![0, 0, 0, 1]);
    let (r, _) = SecurityResult::read_from(&vec![0, 0, 0, 1], 0).unwrap();
    assert_eq!(r, SecurityResult::Failed);
    assert_eq!(
        SecurityResult::read_from(&vec![0, 0, 0, 2], 0),
        Err(WireError::Invalid("security result"))
    );
}

#[test]
fn client_init_is_one_byte() {
    assert_eq!(wire_of(&ClientInit { shared: true }), vec![1]);
    assert_eq!(wire_of(&ClientInit { shared: false }), vec![0]);
    let (ci, _) = ClientInit::read_from(&vec![1], 0).unwrap();
    assert!(ci.shared);
}

#[test]
fn pixel_format_round_trip() {
    let pf = test_format();
    let bytes = wire_of(&pf);
    assert_eq!(bytes.len(), 16);
    let (back, p) = PixelFormat::read_from(&bytes, 0).unwrap();
    assert_eq!(p, 16);
    assert_eq!(back, pf);
}

#[test]
fn server_init_round_trip() {
    let si = ServerInit {
        framebuffer_width: 640,
        framebuffer_height: 480,
        pixel_format: test_format(),
        name: b"x".to_vec(),
    };
    let bytes = wire_of(&si);
    let (back, p) = ServerInit::read_from(&bytes, 0).unwrap();
    assert_eq!(p, bytes.len());
    assert_eq!(back.framebuffer_width, 640);
    assert_eq!(back.framebuffer_height, 480);
    assert_eq!(back.pixel_format, test_format());
    assert_eq!(back.name, b"x".to_vec());
}

#[test]
fn rectangle_and_encoding_round_trip() {
    let r = Rectangle {
        x_position: 1,
        y_position: 2,
        width: 3,
        height: 4,
        encoding: Encoding::Zrle,
    };
    let bytes = wire_of(&r);
    assert_eq!(bytes, vec![0, 1, 0, 2, 0, 3, 0, 4, 0, 0, 0, 16]);
    let (back, p) = Rectangle::read_from(&bytes, 0).unwrap();
    assert_eq!(p, 12);
    assert_eq!(back, r);

    for e in [
        Encoding::Raw,
        Encoding::CopyRect,
        Encoding::Rre,
        Encoding::Hextile,
        Encoding::Zrle,
        Encoding::Cursor,
        Encoding::DesktopSize,
        Encoding::Unknown(-1000),
    ] {
        let bytes = wire_of(&e);
        let (back, _) = Encoding::read_from(&bytes, 0).unwrap();
        assert_eq!(back, e);
    }
    assert_eq!(wire_of(&Encoding::Cursor), (-239i32).to_be_bytes().to_vec());
}

#[test]
fn copy_rect_and_colour_round_trip() {
    let cr = CopyRect { src_x_position: 7, src_y_position: 9 };
    let (back, _) = CopyRect::read_from(&wire_of(&cr), 0).unwrap();
    assert_eq!(back, cr);

    let c = Colour { red: 1, green: 2, blue: 3 };
    assert_eq!(wire_of(&c), vec![0, 1, 0, 2, 0, 3]);
    let (back, _) = Colour::read_from(&wire_of(&c), 0).unwrap();
    assert_eq!(back, c);
}

fn c2s_round_trip(m: C2S) {
    let bytes = wire_of(&m);
    let (back, p) = C2S::read_from(&bytes, 0).unwrap();
    assert_eq!(p, bytes.len());
    assert_eq!(wire_of(&back), bytes);
}

#[test]
fn c2s_every_variant_round_trips() {
    c2s_round_trip(C2S::SetPixelFormat(test_format()));
    c2s_round_trip(C2S::SetEncodings(vec![Encoding::CopyRect, Encoding::Zrle]));
    c2s_round_trip(C2S::FramebufferUpdateRequest {
        incremental: true,
        x_position: 0,
        y_position: 0,
        width: 640,
        height: 480,
    });
    c2s_round_trip(C2S::KeyEvent { down: true, key: 0xFF0D });
    c2s_round_trip(C2S::PointerEvent { button_mask: 5, x_position: 10, y_position: 20 });
    c2s_round_trip(C2S::CutText(b"hello".to_vec()));

    // the exact bytes of one variant
    let m = C2S::FramebufferUpdateRequest {
        incremental: false,
        x_position: 1,
        y_position: 2,
        width: 3,
        height: 4,
    };
    assert_eq!(wire_of(&m), vec![3, 0, 0, 1, 0, 2, 0, 3, 0, 4]);

    // a CutText message carries its type byte, three pad bytes and the text
    assert_eq!(
        wire_of(&C2S::CutText(b"ab".to_vec())),
        vec![6, 0, 0, 0, 0, 0, 0, 2, b'a', b'b']
    );

    match C2S::read_from(&vec![1, 0, 0, 0], 0) {
        Err(WireError::Invalid(what)) => assert_eq!(what, "client to server message type"),
        _ => panic!("expected an invalid message type"),
    }
}

fn s2c_round_trip(m: S2C) {
    let bytes = wire_of(&m);
    let (back, p) = S2C::read_from(&bytes, 0).unwrap();
    assert_eq!(p, bytes.len());
    assert_eq!(wire_of(&back), bytes);
}

#[test]
fn s2c_every_variant_round_trips() {
    s2c_round_trip(S2C::FramebufferUpdate { count: 3 });
    s2c_round_trip(S2C::SetColourMapEntries {
        first_colour: 1,
        colours: vec![
            Colour { red: 10, green: 20, blue: 30 },
            Colour { red: 40, green: 50, blue: 60 },
        ],
    });
    s2c_round_trip(S2C::Bell);
    s2c_round_trip(S2C::CutText(b"clip".to_vec()));

    assert_eq!(wire_of(&S2C::FramebufferUpdate { count: 2 }), vec![0, 0, 0, 2]);
    assert_eq!(wire_of(&S2C::Bell), vec![2]);
    match S2C::read_from(&vec![9], 0) {
        Err(WireError::Invalid(what)) => assert_eq!(what, "server to client message type"),
        _ => panic!("expected an invalid message type"),
    }
}

#[test]
fn byte_vector_round_trip() {
    let v: Vec<u8> = vec![1, 2, 3];
    let bytes = wire_of(&v);
    assert_eq!(bytes, vec![0, 0, 0, 3, 1, 2, 3]);
    let (back, p) = Vec::<u8>::read_from(&bytes, 0).unwrap();
    assert_eq!(back, v);
    assert_eq!(p, 7);
}
