use dragon_curve::gif_stream::{encode_gif, FrameError, GifError};

const PAL: [(u8, u8, u8); 3] = [(0, 0, 0), (255, 0, 0), (0, 0, 255)];

#[test]
fn stream_without_frames() {
    let bytes = encode_gif(&[], &PAL, 300).unwrap();
    let mut expected: Vec<u8> = Vec::new();
    expected.extend_from_slice(b"GIF89a");
    expected.extend_from_slice(&[44, 1, 44, 1, 128 + 17, 0, 0]);
    expected.extend_from_slice(&[0, 0, 0, 255, 0, 0, 0, 0, 255, 0, 0, 0]);
    expected.extend_from_slice(&[0x21, 0xff, 11]);
    expected.extend_from_slice(b"NETSCAPE2.0");
    expected.extend_from_slice(&[3, 1, 0, 0, 0]);
    expected.push(0x3b);
    assert_eq!(bytes, expected);
}

#[test]
fn opening_for_every_palette_size() {
    for n in 0..=256usize {
        let pal: Vec<(u8, u8, u8)> = (0..n).map(|i| (i as u8, 200, 100)).collect();
        let bytes = encode_gif(&[], &pal, 2).unwrap();
        let mut bits: usize = 0;
        while (2usize << bits) < n {
            bits += 1;
        }
        assert_eq!(bytes[10] as usize, 128 + 17 * bits);
        let table = 3 * (2usize << bits);
        assert_eq!(bytes.len(), 13 + table + 19 + 1);
        for i in 0..n {
            assert_eq!(&bytes[13 + 3 * i..16 + 3 * i], &[i as u8, 200, 100]);
        }
        assert!(bytes[13 + 3 * n..13 + table].iter().all(|b| *b == 0));
    }
}

#[test]
fn frames_are_framed() {
    let empty = encode_gif(&[], &PAL, 2).unwrap();
    let one = encode_gif(&[vec![0, 1, 2, 1]], &PAL, 2).unwrap();
    let n = empty.len() - 1;
    assert_eq!(&one[..n], &empty[..n]);
    assert_eq!(&one[n..n + 8], &[0x21, 0xf9, 4, 5, 3, 0, 0, 0]);
    assert_eq!(&one[n + 8..n + 18], &[0x2c, 0, 0, 0, 0, 2, 0, 2, 0, 0]);
    assert_eq!(one[n + 18], 2);
    assert_eq!(one[one.len() - 2], 0);
    assert_eq!(one[one.len() - 1], 0x3b);
}

#[test]
fn further_frames_go_before_the_end() {
    let a = vec![0u8, 1, 2, 1];
    let b = vec![2u8, 2, 0, 1];
    let one = encode_gif(&[a.clone()], &PAL, 2).unwrap();
    let other = encode_gif(&[b.clone()], &PAL, 2).unwrap();
    let both = encode_gif(&[a, b], &PAL, 2).unwrap();
    let start = encode_gif(&[], &PAL, 2).unwrap().len() - 1;
    let mut expected = one[..one.len() - 1].to_vec();
    expected.extend_from_slice(&other[start..]);
    assert_eq!(both, expected);
}

#[test]
fn frames_can_be_decoded() {
    let frames: Vec<Vec<u8>> = vec![
        (0..64).map(|i| (i % 3) as u8).collect(),
        (0..64).map(|i| (i / 22) as u8).collect(),
        vec![1; 64],
    ];
    let bytes = encode_gif(&frames, &PAL, 8).unwrap();
    let mut decoder = gif::DecodeOptions::new().read_info(&bytes[..]).unwrap();
    assert_eq!((decoder.width(), decoder.height()), (8, 8));
    assert_eq!(decoder.repeat(), gif::Repeat::Infinite);
    assert_eq!(&decoder.global_palette().unwrap()[..9], &[0, 0, 0, 255, 0, 0, 0, 0, 255]);
    for expected in &frames {
        let frame = decoder.read_next_frame().unwrap().unwrap();
        assert_eq!(&frame.buffer[..], &expected[..]);
        assert_eq!(frame.delay, 3);
        assert_eq!(frame.transparent, Some(0));
        assert_eq!((frame.left, frame.top, frame.width, frame.height), (0, 0, 8, 8));
    }
    assert!(decoder.read_next_frame().unwrap().is_none());
}

#[test]
fn too_many_colours() {
    let pal = vec![(1u8, 2u8, 3u8); 257];
    assert!(matches!(encode_gif(&[], &pal, 1), Err(GifError::Opening(_))));
    assert!(matches!(encode_gif(&[vec![0]], &pal, 1), Err(GifError::Opening(_))));
}

#[test]
fn frames_need_a_palette() {
    let r = encode_gif(&[vec![0]], &[], 1);
    assert!(matches!(r, Err(GifError::Frame(FrameError::MissingPalette))));
    assert!(encode_gif(&[], &[], 1).is_ok());
}

#[test]
fn frames_without_pixels() {
    let bytes = encode_gif(&[vec![]], &PAL, 0).unwrap();
    assert_eq!(bytes[bytes.len() - 1], 0x3b);
}
