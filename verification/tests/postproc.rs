use einkvnc::error::Error;
use einkvnc::postproc::PostProcBin;

/// The contrast curve as the session builds it, in 32-bit floats: below the
/// gray point a power curve, above it the inverse power, then the white
/// cutoff.
fn contrast_table(contrast_exp: f32, gray_point: f32, white_cutoff: u8) -> Vec<u8> {
    (0..=255u16)
        .map(|i| {
            let i = i as u8;
            if contrast_exp == 1.0 {
                i
            } else {
                let gray = gray_point;
                let rem_gray = 255.0 - gray;
                let inv_exponent = 1.0 / contrast_exp;
                let raw_color = i as f32;
                if raw_color < gray {
                    (gray * (raw_color / gray).powf(contrast_exp)) as u8
                } else if raw_color > gray {
                    (gray + rem_gray * ((raw_color - gray) / rem_gray).powf(inv_exponent)) as u8
                } else {
                    gray as u8
                }
            }
        })
        .map(|i| if i > white_cutoff { 255 } else { i })
        .collect()
}

#[test]
fn contrast_tables_are_monotonic_for_exponent_at_least_one() {
    for e in [1.0f32, 1.2, 1.5, 2.0, 3.0] {
        let bin = PostProcBin::from_table(contrast_table(e, 224.0, 255)).unwrap();
        assert!(bin.is_monotonic(), "exponent {e}");
    }
    for w in [0u8, 128, 254] {
        let bin = PostProcBin::from_table(contrast_table(1.5, 224.0, w)).unwrap();
        assert!(bin.is_monotonic(), "cutoff {w}");
    }
}

#[test]
fn identity_with_cutoff_matches_the_rule() {
    let bin = PostProcBin::identity_with_cutoff(200);
    assert!(bin.is_monotonic());
    for i in 0..=255usize {
        let expected = if i > 200 { 255 } else { i as u8 };
        assert_eq!(bin.data[i], expected);
    }
}

#[test]
fn a_decreasing_table_is_not_monotonic() {
    let mut table = vec![0u8; 256];
    table[10] = 9;
    table[11] = 3;
    let bin = PostProcBin::from_table(table).unwrap();
    assert!(!bin.is_monotonic());
}

#[test]
fn apply_samples_every_fourth_byte() {
    let bin = PostProcBin::identity_with_cutoff(100);
    // two whole pixels and one ragged tail byte
    let pixels = vec![10, 1, 2, 3, 200, 4, 5, 6, 30];
    let out = bin.apply(&pixels);
    assert_eq!(out, vec![10, 255, 30]);
    assert_eq!(bin.apply(&Vec::new()), Vec::<u8>::new());
}

#[test]
fn table_must_hold_exactly_256_entries() {
    match PostProcBin::from_table(vec![0u8; 255]) {
        Err(Error::Unexpected(what)) => assert_eq!(what, "post-processing table length"),
        other => panic!("expected a table length error, got {other:?}"),
    }
}
