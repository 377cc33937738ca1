use bruhs::{
    build, decode_ops, decode_rgb, pxdiff, vec_to_u32_ne, Bruh, BruhDelta, Bruhs, ByteCursor,
    DeltaConfig, FormatError, Frame, Rgb, TakeRef,
};

const BLACK: Rgb = Rgb { r: 0, g: 0, b: 0 };
const WHITE: Rgb = Rgb { r: 255, g: 255, b: 255 };
const RED: Rgb = Rgb { r: 255, g: 0, b: 0 };

fn frame(pixels: Vec<Rgb>) -> Bruh {
    Bruh { pixels }
}

fn header(w: u32, h: u32) -> Vec<u8> {
    let mut b = w.to_le_bytes().to_vec();
    b.extend(h.to_le_bytes());
    b
}

#[test]
fn single_changed_pixel_delta() {
    let base = frame(vec![BLACK, BLACK, BLACK, BLACK]);
    let target = frame(vec![BLACK, WHITE, BLACK, BLACK]);
    let f = build(&DeltaConfig::default(), 2, &base, &target);
    let ops = vec![BruhDelta::Skip(1), BruhDelta::Overwrite(WHITE), BruhDelta::Skip(2)];
    assert_eq!(f, Frame::Delta(ops.clone()));
    assert_eq!(base.apply(&ops), Ok(target));
}

#[test]
fn single_red_key_frame() {
    let reel = Bruhs { frames: vec![Frame::Key(frame(vec![RED]))], width: 1, height: 1 };
    let bytes = reel.encode();
    let mut expected = header(1, 1);
    expected.extend(b"kff0000");
    assert_eq!(bytes, expected);
    assert_eq!(Bruhs::decode(bytes), Ok(reel));
}

#[test]
fn truncated_stream_is_rejected() {
    let reel = Bruhs {
        frames: vec![
            Frame::Key(frame(vec![RED, BLACK])),
            Frame::Delta(vec![BruhDelta::Overwrite(WHITE), BruhDelta::Skip(1)]),
        ],
        width: 2,
        height: 1,
    };
    let bytes = reel.encode();
    let key_end = 8 + 1 + 12;
    for cut in 0..bytes.len() {
        if cut == key_end {
            continue;
        }
        let r = Bruhs::decode(bytes[..cut].to_vec());
        assert!(r.is_err(), "prefix of length {} was accepted", cut);
    }
    assert_eq!(Bruhs::decode(bytes[..5].to_vec()), Err(FormatError::Truncated));
    assert_eq!(Bruhs::decode(bytes[..15].to_vec()), Err(FormatError::Truncated));
    assert_eq!(Bruhs::decode(bytes[..key_end + 3].to_vec()), Err(FormatError::Truncated));
    assert_eq!(Bruhs::decode(bytes.clone()), Ok(reel));
}

#[test]
fn round_trip_of_mixed_reel() {
    let reel = Bruhs {
        frames: vec![
            Frame::Key(frame(vec![RED, BLACK, WHITE, Rgb { r: 1, g: 2, b: 171 }])),
            Frame::Delta(vec![BruhDelta::Skip(2), BruhDelta::Overwrite(RED), BruhDelta::Skip(1)]),
            Frame::Key(frame(vec![WHITE, WHITE, WHITE, WHITE])),
            Frame::Delta(vec![BruhDelta::Skip(4)]),
        ],
        width: 2,
        height: 2,
    };
    let bytes = reel.encode();
    assert_eq!(bytes.len(), 8 + 25 + 1 + 5 + 7 + 5 + 25 + 1 + 5);
    assert_eq!(Bruhs::decode(bytes.clone()).unwrap().encode(), bytes);
    assert_eq!(Bruhs::decode(bytes), Ok(reel));
}

#[test]
fn keyframe_ratio_boundary() {
    // ten pixels; the reference threshold is ninety percent, exclusive
    let base = frame(vec![BLACK; 10]);
    let mut nine = vec![WHITE; 9];
    nine.push(BLACK);
    let f = build(&DeltaConfig::default(), 5, &base, &frame(nine));
    assert!(matches!(f, Frame::Delta(_)));
    let f = build(&DeltaConfig::default(), 5, &base, &frame(vec![WHITE; 10]));
    assert_eq!(f, Frame::Key(frame(vec![WHITE; 10])));

    let half = DeltaConfig { keyframe_percent: 50, overwrite_distance: 30 };
    let mut four = vec![WHITE; 4];
    four.extend(vec![BLACK; 6]);
    let mut five = vec![WHITE; 5];
    five.extend(vec![BLACK; 5]);
    let mut six = vec![WHITE; 6];
    six.extend(vec![BLACK; 4]);
    assert!(matches!(build(&half, 5, &base, &frame(four)), Frame::Delta(_)));
    assert!(matches!(build(&half, 5, &base, &frame(five)), Frame::Delta(_)));
    assert!(matches!(build(&half, 5, &base, &frame(six)), Frame::Key(_)));
}

#[test]
fn skip_runs_split_at_row_seam() {
    let base = frame(vec![BLACK; 4]);
    let f = build(&DeltaConfig::default(), 2, &base, &base.clone());
    let ops = vec![BruhDelta::Skip(2), BruhDelta::Skip(2)];
    assert_eq!(f, Frame::Delta(ops.clone()));
    let reel = Bruhs { frames: vec![Frame::Key(base.clone()), Frame::Delta(ops)], width: 2, height: 2 };
    assert_eq!(Bruhs::decode(reel.encode()), Ok(reel));
}

#[test]
fn near_pixels_are_skipped_far_ones_overwritten() {
    let base = frame(vec![BLACK, BLACK, BLACK]);
    let near = Rgb { r: 30, g: 0, b: 0 };
    let far = Rgb { r: 31, g: 0, b: 0 };
    let keep = DeltaConfig { keyframe_percent: 100, overwrite_distance: 30 };
    let f = build(&keep, 3, &base, &frame(vec![near, far, near]));
    assert_eq!(f, Frame::Delta(vec![BruhDelta::Skip(1), BruhDelta::Overwrite(far), BruhDelta::Skip(1)]));
    let strict = DeltaConfig { keyframe_percent: 100, overwrite_distance: 0 };
    let f = build(&strict, 3, &base, &frame(vec![near, BLACK, far]));
    assert_eq!(
        f,
        Frame::Delta(vec![BruhDelta::Overwrite(near), BruhDelta::Skip(1), BruhDelta::Overwrite(far)])
    );
}

#[test]
fn distance_saturates_at_255() {
    assert_eq!(pxdiff(&BLACK, &WHITE), 255);
    assert_eq!(pxdiff(&WHITE, &BLACK), 255);
    assert_eq!(pxdiff(&Rgb { r: 255, g: 255, b: 0 }, &BLACK), 255);
    assert_eq!(pxdiff(&RED, &BLACK), 255);
    assert_eq!(pxdiff(&Rgb { r: 200, g: 0, b: 0 }, &Rgb { r: 0, g: 200, b: 0 }), 255);
}

#[test]
fn distance_exact_values() {
    assert_eq!(pxdiff(&BLACK, &Rgb { r: 3, g: 4, b: 0 }), 5);
    assert_eq!(pxdiff(&BLACK, &Rgb { r: 1, g: 1, b: 0 }), 1);
    assert_eq!(pxdiff(&Rgb { r: 10, g: 10, b: 10 }, &Rgb { r: 10, g: 10, b: 10 }), 0);
    assert_eq!(pxdiff(&Rgb { r: 100, g: 0, b: 0 }, &Rgb { r: 0, g: 100, b: 0 }), 141);
}

#[test]
fn deltify_and_reconstruct() {
    let a = frame(vec![BLACK, BLACK, BLACK, BLACK]);
    let b = frame(vec![BLACK, WHITE, Rgb { r: 5, g: 0, b: 0 }, BLACK]);
    let c = frame(vec![RED, RED, RED, RED]);
    let mut reel = Bruhs {
        frames: vec![Frame::Key(a.clone()), Frame::Key(b), Frame::Key(c.clone())],
        width: 2,
        height: 2,
    };
    reel.deltify();
    assert_eq!(reel.frames[0], Frame::Key(a.clone()));
    assert_eq!(
        reel.frames[1],
        Frame::Delta(vec![BruhDelta::Skip(1), BruhDelta::Overwrite(WHITE), BruhDelta::Skip(2)])
    );
    assert_eq!(reel.frames[2], Frame::Key(c.clone()));
    let shown = reel.reconstruct();
    assert_eq!(shown, vec![a, frame(vec![BLACK, WHITE, BLACK, BLACK]), c]);
    let bytes = reel.encode();
    assert_eq!(Bruhs::decode(bytes), Ok(reel));
}

#[test]
fn deltify_against_shown_frame() {
    // the third frame is diffed against what the second frame shows, not its source
    let a = frame(vec![BLACK, BLACK]);
    let b = frame(vec![Rgb { r: 20, g: 0, b: 0 }, BLACK]);
    let c = frame(vec![Rgb { r: 40, g: 0, b: 0 }, BLACK]);
    let mut reel = Bruhs {
        frames: vec![Frame::Key(a), Frame::Key(b), Frame::Key(c)],
        width: 2,
        height: 1,
    };
    reel.deltify_with(&DeltaConfig { keyframe_percent: 100, overwrite_distance: 30 });
    assert_eq!(reel.frames[1], Frame::Delta(vec![BruhDelta::Skip(2)]));
    assert_eq!(
        reel.frames[2],
        Frame::Delta(vec![BruhDelta::Overwrite(Rgb { r: 40, g: 0, b: 0 }), BruhDelta::Skip(1)])
    );
}

#[test]
fn apply_fails_when_ops_run_out() {
    let base = frame(vec![BLACK; 3]);
    assert_eq!(base.apply(&vec![BruhDelta::Skip(2)]), Err(FormatError::OpsExhausted));
    assert_eq!(base.apply(&vec![]), Err(FormatError::OpsExhausted));
    assert_eq!(
        base.apply(&vec![BruhDelta::Overwrite(RED), BruhDelta::Skip(5)]),
        Ok(frame(vec![RED, BLACK, BLACK]))
    );
}

#[test]
fn decode_errors() {
    let mut b = header(1, 1);
    b.push(b'x');
    assert_eq!(Bruhs::decode(b), Err(FormatError::UnknownTag(b'x')));
    let mut b = header(0, 3);
    b.extend(b"k");
    assert_eq!(Bruhs::decode(b), Err(FormatError::ZeroSize));
    assert_eq!(Bruhs::decode(header(1, 1)), Err(FormatError::NoFrames));
    let mut b = header(1, 1);
    b.extend(b"to000000");
    assert_eq!(Bruhs::decode(b), Err(FormatError::DeltaFirst));
    let mut b = header(1, 1);
    b.extend(b"kff0000ts");
    b.extend(0u32.to_le_bytes());
    assert_eq!(Bruhs::decode(b), Err(FormatError::EmptySkip));
    let mut b = header(1, 1);
    b.extend(b"kff0000ts");
    b.extend(2u32.to_le_bytes());
    assert_eq!(Bruhs::decode(b), Err(FormatError::Overrun));
    let mut b = header(1, 1);
    b.extend(b"kFF0000");
    assert_eq!(Bruhs::decode(b), Err(FormatError::BadHex));
    let mut b = header(1, 1);
    b.extend(b"kff0000tq");
    assert_eq!(Bruhs::decode(b), Err(FormatError::UnknownTag(b'q')));
}

#[test]
fn op_codec() {
    let ops = vec![BruhDelta::Skip(258), BruhDelta::Overwrite(Rgb { r: 0x12, g: 0xab, b: 0x0f })];
    let bytes = BruhDelta::encode(&ops, 16);
    assert_eq!(bytes, b"s\x02\x01\x00\x00o12ab0f".to_vec());
    let mut c = ByteCursor::new(bytes.clone());
    assert_eq!(BruhDelta::decode(&mut c), Ok((BruhDelta::Skip(258), 258)));
    assert_eq!(BruhDelta::decode(&mut c), Ok((ops[1], 1)));
    assert_eq!(BruhDelta::decode(&mut c), Err(FormatError::Truncated));
    let mut c = ByteCursor::new(bytes);
    assert_eq!(decode_ops(&mut c, 259), Ok(ops));
    assert_eq!(c.remaining(), 0);
}

#[test]
fn key_frame_codec() {
    let p = frame(vec![Rgb { r: 0, g: 15, b: 16 }, Rgb { r: 255, g: 160, b: 9 }]);
    let bytes = p.encode();
    assert_eq!(bytes, b"000f10ffa009".to_vec());
    let mut c = ByteCursor::new(bytes);
    assert_eq!(Bruh::decode(&mut c, 2), Ok(p));
    let mut c = ByteCursor::new(b"000f10ff".to_vec());
    assert_eq!(Bruh::decode(&mut c, 2), Err(FormatError::Truncated));
}

#[test]
fn gross_diff_counts_exact_changes() {
    let a = frame(vec![BLACK, WHITE, RED, Rgb { r: 1, g: 0, b: 0 }]);
    let b = frame(vec![BLACK, BLACK, RED, BLACK]);
    assert_eq!(a.diff(&b), 2);
    assert_eq!(a.diff(&a), 0);
}

#[test]
fn hex_color_parsing() {
    assert_eq!(decode_rgb(b"ff8000".to_vec()), Some(Rgb { r: 255, g: 128, b: 0 }));
    assert_eq!(decode_rgb(b"0a0b0c".to_vec()), Some(Rgb { r: 10, g: 11, b: 12 }));
    assert_eq!(decode_rgb(b"FF8000".to_vec()), None);
    assert_eq!(decode_rgb(b"ff80".to_vec()), None);
    assert_eq!(decode_rgb(b"ff80zz".to_vec()), None);
}

#[test]
fn little_endian_words() {
    assert_eq!(vec_to_u32_ne(&[1, 2, 3, 4]), 0x0403_0201);
    assert_eq!(vec_to_u32_ne(&[255, 255, 255, 255]), u32::MAX);
    assert_eq!(header(258, 1)[..4], [2, 1, 0, 0]);
}

#[test]
fn take_ref_stops_at_end() {
    let mut c = ByteCursor::new(vec![7, 8, 9]);
    assert_eq!(c.take_ref(2), vec![7, 8]);
    assert_eq!(c.take_ref(5), vec![9]);
    assert_eq!(c.take_ref(1), Vec::<u8>::new());
    assert_eq!(c.next(), None);
}

#[test]
fn force_key_returns_pixels() {
    let f = Frame::Key(frame(vec![RED]));
    assert_eq!(f.force_key(), &frame(vec![RED]));
}

#[test]
fn far_changes_replay_to_target() {
    let base = frame(vec![BLACK, RED, WHITE, BLACK, BLACK, RED]);
    let target = frame(vec![WHITE, RED, BLACK, BLACK, RED, RED]);
    let f = build(&DeltaConfig::default(), 3, &base, &target);
    match f {
        Frame::Delta(ops) => assert_eq!(base.apply(&ops), Ok(target)),
        Frame::Key(_) => panic!("expected a delta frame"),
    }
    let near = frame(vec![Rgb { r: 10, g: 0, b: 0 }, RED, WHITE, BLACK, BLACK, RED]);
    let f = build(&DeltaConfig::default(), 3, &base, &near);
    assert_eq!(f, Frame::Delta(vec![BruhDelta::Skip(3), BruhDelta::Skip(3)]));
}
