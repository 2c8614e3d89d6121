use einkvnc::des;
use einkvnc::error::Error;
use einkvnc::protocol::{
    Message, Rectangle, SecurityResult, SecurityTypes, ServerInit, Version, Encoding, PixelFormat,
};
use einkvnc::session::{
    auth_methods_of, password_des_key, rect_events, rect_payload_need, frame_events, AuthChoice,
    AuthMethod, Event, Handshake, PayloadNeed,
};
use einkvnc::zrle::Decoder;

fn test_format() -> PixelFormat {
    PixelFormat {
        bits_per_pixel: 32,
        depth: 24,
        big_endian: false,
        true_colour: true,
        red_max: 255,
        green_max: 255,
        blue_max: 255,
        red_shift: 16,
        green_shift: 8,
        blue_shift: 0,
    }
}

#[test]
fn none_auth_handshake_reaches_session() {
    let mut hs = Handshake::new(true);

    // server: "RFB 003.008\n"; the client echoes it
    let bytes = b"RFB 003.008\n".to_vec();
    let (version, _) = Version::read_from(&bytes, 0).unwrap();
    let echo = hs.on_version(version);
    assert_eq!(echo, bytes);

    // server: one security type, None
    let (types, _) = SecurityTypes::read_from(&vec![1, 1], 0).unwrap();
    let methods = auth_methods_of(&types.0);
    assert_eq!(methods, vec![AuthMethod::NoAuth]);

    // client chooses None and echoes the type byte
    let send = hs.on_auth_choice(Some(AuthChoice::NoAuth)).unwrap();
    assert_eq!(send, vec![1]);

    // server: security result 0 (success)
    let (sr, _) = SecurityResult::read_from(&vec![0, 0, 0, 0], 0).unwrap();
    assert!(hs.on_security_result(sr).unwrap());

    // client: ClientInit with shared = true
    assert_eq!(hs.client_init(), vec![1]);

    // server: ServerInit 640x480 with name "x"
    let si = ServerInit {
        framebuffer_width: 640,
        framebuffer_height: 480,
        pixel_format: test_format(),
        name: b"x".to_vec(),
    };
    let mut si_bytes = Vec::new();
    si.write_to(&mut si_bytes);
    let (parsed, _) = ServerInit::read_from(&si_bytes, 0).unwrap();
    let info = hs.on_server_init(parsed).unwrap();
    assert_eq!((info.width, info.height), (640, 480));
    assert_eq!(info.name, b"x".to_vec());
    assert_eq!(info.format, test_format());
}

#[test]
fn password_auth_answers_challenge_with_des() {
    let mut hs = Handshake::new(true);
    let (version, _) = Version::read_from(&b"RFB 003.008\n".to_vec(), 0).unwrap();
    hs.on_version(version);

    let key = [b'p', b'a', b's', b's', 0, 0, 0, 0];
    let send = hs.on_auth_choice(Some(AuthChoice::Password(key))).unwrap();
    assert_eq!(send, vec![2]);

    let challenge: Vec<u8> = (0u8..16).collect();
    let response = hs.on_challenge(&challenge);
    assert_eq!(response.len(), 16);
    assert_ne!(response, challenge);
    // the response is DES over the two challenge blocks under the
    // bit-reversed password key
    let expected = des::encrypt(&challenge, &password_des_key(&key));
    assert_eq!(response, expected);
    assert_eq!(
        response,
        vec![
            0x5f, 0xb0, 0x2f, 0x4e, 0x6e, 0xc9, 0xfd, 0xa0, 0x6c, 0x41, 0xdf, 0x1f, 0x35, 0x01,
            0x51, 0x38,
        ]
    );
    // and decrypting it gives the challenge back
    assert_eq!(des::decrypt(&response, &password_des_key(&key)), challenge);
}

#[test]
fn authentication_failure_paths() {
    // no acceptable method
    let mut hs = Handshake::new(true);
    let (version, _) = Version::read_from(&b"RFB 003.007\n".to_vec(), 0).unwrap();
    hs.on_version(version);
    match hs.on_auth_choice(None) {
        Err(Error::AuthenticationUnavailable) => (),
        other => panic!("expected AuthenticationUnavailable, got {other:?}"),
    }

    // failed security result before version 3.8 carries an empty reason
    let mut hs = Handshake::new(true);
    let (version, _) = Version::read_from(&b"RFB 003.007\n".to_vec(), 0).unwrap();
    hs.on_version(version);
    hs.on_auth_choice(Some(AuthChoice::Password([0; 8]))).unwrap();
    hs.on_challenge(&vec![0; 16]);
    match hs.on_security_result(SecurityResult::Failed) {
        Err(Error::AuthenticationFailure(reason)) => assert!(reason.is_empty()),
        other => panic!("expected AuthenticationFailure, got {other:?}"),
    }

    // version 3.8 reads a reason first
    let mut hs = Handshake::new(true);
    let (version, _) = Version::read_from(&b"RFB 003.008\n".to_vec(), 0).unwrap();
    hs.on_version(version);
    hs.on_auth_choice(Some(AuthChoice::Password([0; 8]))).unwrap();
    hs.on_challenge(&vec![0; 16]);
    assert!(!hs.on_security_result(SecurityResult::Failed).unwrap());
    match hs.on_fail_reason(b"denied".to_vec()) {
        Error::AuthenticationFailure(reason) => assert_eq!(reason, b"denied".to_vec()),
        other => panic!("expected AuthenticationFailure, got {other:?}"),
    }

    // a server with no usable security types supplies a reason
    let mut hs = Handshake::new(true);
    let (version, _) = Version::read_from(&b"RFB 003.008\n".to_vec(), 0).unwrap();
    hs.on_version(version);
    match hs.on_empty_security(b"too many clients".to_vec()) {
        Error::Server(reason) => assert_eq!(reason, b"too many clients".to_vec()),
        other => panic!("expected Server, got {other:?}"),
    }
}

#[test]
fn payload_needs_follow_the_encoding() {
    let f = test_format();
    let r = Rectangle { x_position: 0, y_position: 0, width: 10, height: 4, encoding: Encoding::Raw };
    assert_eq!(rect_payload_need(&f, &r).unwrap(), PayloadNeed::Bytes(10 * 4 * 4));
    let r = Rectangle { encoding: Encoding::CopyRect, ..r };
    assert_eq!(rect_payload_need(&f, &r).unwrap(), PayloadNeed::Bytes(4));
    let r = Rectangle { encoding: Encoding::Zrle, ..r };
    assert_eq!(rect_payload_need(&f, &r).unwrap(), PayloadNeed::ZrleRecord);
    let r = Rectangle { encoding: Encoding::Cursor, ..r };
    assert_eq!(rect_payload_need(&f, &r).unwrap(), PayloadNeed::Bytes(10 * 4 * 4 + 2 * 4));
    let r = Rectangle { encoding: Encoding::DesktopSize, ..r };
    assert_eq!(rect_payload_need(&f, &r).unwrap(), PayloadNeed::Bytes(0));
    let r = Rectangle { encoding: Encoding::Hextile, ..r };
    match rect_payload_need(&f, &r) {
        Err(Error::Unexpected(what)) => assert_eq!(what, "encoding"),
        other => panic!("expected an encoding error, got {other:?}"),
    }
}

#[test]
fn update_events_end_with_exactly_one_end_of_frame() {
    let f = test_format();
    let mut zrle = Decoder::new();

    let raw_rect = Rectangle { x_position: 0, y_position: 0, width: 1, height: 1, encoding: Encoding::Raw };
    let raw_events = rect_events(&f, &raw_rect, vec![1, 2, 3, 4], &mut zrle).unwrap();

    let copy_rect = Rectangle { x_position: 8, y_position: 9, width: 2, height: 2, encoding: Encoding::CopyRect };
    let copy_events = rect_events(&f, &copy_rect, vec![0, 1, 0, 2], &mut zrle).unwrap();

    let resize_rect = Rectangle { x_position: 0, y_position: 0, width: 800, height: 600, encoding: Encoding::DesktopSize };
    let resize_events = rect_events(&f, &resize_rect, Vec::new(), &mut zrle).unwrap();

    let events = frame_events(vec![raw_events, copy_events, resize_events]);
    assert_eq!(events.len(), 4);
    assert!(matches!(events[0], Event::PutPixels(r, ref p) if r.width == 1 && p == &vec![1, 2, 3, 4]));
    assert!(matches!(events[1], Event::CopyPixels { src, dst }
        if src.left == 1 && src.top == 2 && dst.left == 8 && dst.top == 9));
    assert!(matches!(events[2], Event::Resize(800, 600)));
    // every event of the update precedes the single EndOfFrame
    assert!(matches!(events[3], Event::EndOfFrame));
    assert_eq!(
        events.iter().filter(|e| matches!(e, Event::EndOfFrame)).count(),
        1
    );
}

#[test]
fn cursor_payload_splits_into_pixels_and_mask() {
    let f = test_format();
    let mut zrle = Decoder::new();
    let r = Rectangle { x_position: 1, y_position: 2, width: 2, height: 1, encoding: Encoding::Cursor };
    // 2 * 1 * 4 pixel bytes, then ceil(2 / 8) * 1 = 1 mask byte
    let payload = vec![1, 2, 3, 4, 5, 6, 7, 8, 0xAA];
    let events = rect_events(&f, &r, payload, &mut zrle).unwrap();
    assert_eq!(events.len(), 1);
    match &events[0] {
        Event::SetCursor { size, hotspot, pixels, mask_bits } => {
            assert_eq!(*size, (2, 1));
            assert_eq!(*hotspot, (1, 2));
            assert_eq!(pixels, &vec![1, 2, 3, 4, 5, 6, 7, 8]);
            assert_eq!(mask_bits, &vec![0xAA]);
        }
        other => panic!("expected SetCursor, got {other:?}"),
    }
}
