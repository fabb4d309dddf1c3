use qoi::{Channels, Pixel, QoiDecode, QoiEncode, QoiError, QoiHeader};

fn header_bytes(width: u32, height: u32, channels: u8, colour_space: u8) -> Vec<u8> {
    let mut v = b"qoif".to_vec();
    v.extend_from_slice(&width.to_be_bytes());
    v.extend_from_slice(&height.to_be_bytes());
    v.push(channels);
    v.push(colour_space);
    v
}

/// The operation bytes of a stream: what lies between header and footer.
fn ops_of(stream: &[u8]) -> &[u8] {
    &stream[14..stream.len() - 4]
}

fn rgba_image(pixels: &[(u8, u8, u8, u8)]) -> Vec<u8> {
    let mut raw = Vec::new();
    for p in pixels {
        raw.extend_from_slice(&[p.0, p.1, p.2, p.3]);
    }
    raw
}

/// A deterministic pseudo-random byte sequence.
fn noise(len: usize, seed: u32) -> Vec<u8> {
    let mut x = seed;
    let mut out = Vec::with_capacity(len);
    for _ in 0..len {
        x = x.wrapping_mul(1_664_525).wrapping_add(1_013_904_223);
        out.push((x >> 24) as u8);
    }
    out
}

#[test]
fn pixel_diff_wraps() {
    let mut pixel = Pixel::new(10, 10, 10, 10);
    pixel.modify_r(-13);
    pixel.modify_g(-13);
    pixel.modify_b(-13);
    pixel.modify_a(-13);
    assert_eq!(pixel, Pixel::new(253, 253, 253, 253));

    let mut pixel = Pixel::new(250, 250, 250, 250);
    pixel.modify_r(7);
    pixel.modify_g(7);
    pixel.modify_b(7);
    pixel.modify_a(7);
    assert_eq!(pixel, Pixel::new(1, 1, 1, 1));
}

#[test]
fn header_magic() {
    assert!(matches!(
        b"boif1234123412".qoi_decode_to_vec(None).unwrap_err(),
        QoiError::IncorrectHeaderMagic
    ));
}

#[test]
fn buffer_size_errors() {
    let mut buffer = Vec::new();
    buffer.resize(1024, 0);

    let error = b"qoif123412341".qoi_decode(None, &mut buffer).unwrap_err();
    assert!(matches!(error, QoiError::InputSmallerThanHeader));
}

#[test]
fn single_rgb_pixel_scenario() {
    let raw = vec![10u8, 20, 30];
    let encoded = raw.qoi_encode_to_vec(1, 1, Channels::Three, 0).unwrap();
    let mut expected = header_bytes(1, 1, 3, 0);
    expected.extend_from_slice(&[0xfe, 10, 20, 30]);
    expected.extend_from_slice(&[0, 0, 0, 0]);
    assert_eq!(encoded, expected);
    assert_eq!(encoded.qoi_decode_to_vec(None).unwrap(), raw);
}

#[test]
fn round_trip_rgba_noise() {
    let raw = noise(17 * 9 * 4, 7);
    let encoded = raw.qoi_encode_to_vec(17, 9, Channels::Four, 1).unwrap();
    assert_eq!(encoded.qoi_decode_to_vec(None).unwrap(), raw);
}

#[test]
fn round_trip_rgb_smooth() {
    let mut raw = Vec::new();
    for y in 0..12u32 {
        for x in 0..20u32 {
            raw.push((x * 3) as u8);
            raw.push((y * 5 + x) as u8);
            raw.push(if (x / 4) % 2 == 0 { 200 } else { 17 });
        }
    }
    let encoded = raw.qoi_encode_to_vec(20, 12, Channels::Three, 0).unwrap();
    assert!(encoded.len() < raw.len());
    assert_eq!(encoded.qoi_decode_to_vec(None).unwrap(), raw);
}

#[test]
fn round_trip_empty_image() {
    let raw: Vec<u8> = Vec::new();
    let encoded = raw.qoi_encode_to_vec(0, 0, Channels::Four, 0).unwrap();
    let mut expected = header_bytes(0, 0, 4, 0);
    expected.extend_from_slice(&[0, 0, 0, 0]);
    assert_eq!(encoded, expected);
    assert_eq!(encoded.qoi_decode_to_vec(None).unwrap(), raw);
}

#[test]
fn round_trip_repeats_and_cache_hits() {
    let a = (1, 2, 3, 255);
    let b = (200, 100, 50, 128);
    let mut pixels = vec![a; 40];
    pixels.extend_from_slice(&[b, a, b, a]);
    pixels.extend(vec![b; 9000]);
    let raw = rgba_image(&pixels);
    let encoded = raw.qoi_encode_to_vec(pixels.len() as u32, 1, Channels::Four, 0).unwrap();
    assert_eq!(encoded.qoi_decode_to_vec(None).unwrap(), raw);
}

#[test]
fn encoding_is_deterministic() {
    let raw = noise(31 * 4, 99);
    let first = raw.qoi_encode_to_vec(31, 1, Channels::Four, 0).unwrap();
    let second = raw.qoi_encode_to_vec(31, 1, Channels::Four, 0).unwrap();
    assert_eq!(first, second);
    let mut longer = raw.clone();
    longer.extend_from_slice(&[1, 2, 3, 4]);
    let third = longer.qoi_encode_to_vec(31, 1, Channels::Four, 0).unwrap();
    assert_eq!(first, third);
}

#[test]
fn run_of_thirty_two_is_one_short_run() {
    let mut pixels = vec![(0, 0, 0, 255); 32];
    pixels.push((0, 0, 1, 255));
    let raw = rgba_image(&pixels);
    let encoded = raw.qoi_encode_to_vec(33, 1, Channels::Four, 0).unwrap();
    assert_eq!(ops_of(&encoded)[0], 0b0100_0000 | 31);
    assert_eq!(ops_of(&encoded).len(), 2);
    assert_eq!(encoded.qoi_decode_to_vec(None).unwrap(), raw);
}

#[test]
fn run_of_thirty_three_is_one_long_run() {
    let raw = rgba_image(&vec![(0, 0, 0, 255); 33]);
    let encoded = raw.qoi_encode_to_vec(33, 1, Channels::Four, 0).unwrap();
    assert_eq!(ops_of(&encoded), &[0b0110_0000, 0]);
    assert_eq!(encoded.qoi_decode_to_vec(None).unwrap(), raw);
}

#[test]
fn longest_run_is_one_maximal_long_run() {
    let mut pixels = vec![(0, 0, 0, 255); 8224];
    pixels.push((0, 0, 1, 255));
    let raw = rgba_image(&pixels);
    let encoded = raw.qoi_encode_to_vec(8225, 1, Channels::Four, 0).unwrap();
    assert_eq!(&ops_of(&encoded)[0..2], &[0x7f, 0xff]);
    assert_eq!(ops_of(&encoded).len(), 3);
    assert_eq!(encoded.qoi_decode_to_vec(None).unwrap(), raw);
}

#[test]
fn run_past_the_cap_splits() {
    let raw = rgba_image(&vec![(0, 0, 0, 255); 8225]);
    let encoded = raw.qoi_encode_to_vec(8225, 1, Channels::Four, 0).unwrap();
    assert_eq!(ops_of(&encoded), &[0x7f, 0xff, 0x40]);
    assert_eq!(encoded.qoi_decode_to_vec(None).unwrap(), raw);
}

/// The operations written for `next` after the pixel (10, 10, 10, 255).
fn ops_after_base(next: (u8, u8, u8, u8)) -> Vec<u8> {
    let raw = rgba_image(&[(10, 10, 10, 255), next]);
    let encoded = raw.qoi_encode_to_vec(2, 1, Channels::Four, 0).unwrap();
    assert_eq!(encoded.qoi_decode_to_vec(None).unwrap(), raw);
    // The first pixel takes the three-byte delta from opaque black.
    let ops = ops_of(&encoded);
    assert_eq!(ops[0] & 0xf0, 0xe0);
    ops[3..].to_vec()
}

#[test]
fn small_delta_tier() {
    assert_eq!(ops_after_base((11, 8, 10, 255)), vec![0x80 | (3 << 4) | (0 << 2) | 2]);
}

#[test]
fn medium_delta_tier() {
    assert_eq!(ops_after_base((25, 10, 10, 255)), vec![0xc0 | 31, 0x88]);
}

#[test]
fn large_delta_tier() {
    assert_eq!(ops_after_base((10, 10, 10, 250)), vec![0xe8, 0x42, 0x0b]);
    assert_eq!(ops_after_base((25, 0, 0, 255)), vec![0xef, 0x98, 0xd0]);
}

#[test]
fn literal_colour_tier() {
    assert_eq!(ops_after_base((30, 10, 10, 255)), vec![0xf8, 30]);
    assert_eq!(ops_after_base((10, 10, 10, 200)), vec![0xf1, 200]);
    assert_eq!(ops_after_base((0, 200, 10, 1)), vec![0xfd, 0, 200, 1]);
}

#[test]
fn cache_index_is_preferred() {
    let raw = rgba_image(&[(10, 10, 10, 255), (11, 10, 10, 255), (10, 10, 10, 255)]);
    let encoded = raw.qoi_encode_to_vec(3, 1, Channels::Four, 0).unwrap();
    // (10, 10, 10, 255) has slot 53.
    assert_eq!(ops_of(&encoded)[4], 53);
    assert_eq!(encoded.qoi_decode_to_vec(None).unwrap(), raw);
}

#[test]
fn encode_reports_short_input() {
    let raw = vec![0u8; 11];
    let mut dest = vec![0u8; 100];
    let err = raw.qoi_encode(2, 2, Channels::Three, 0, &mut dest).unwrap_err();
    assert_eq!(err, QoiError::InputSize);
    let err = raw.qoi_encode_to_vec(2, 2, Channels::Three, 0).unwrap_err();
    assert_eq!(err, QoiError::InputSize);
}

#[test]
fn encode_reports_small_destination() {
    let raw = noise(16 * 4, 3);
    let mut dest = vec![0u8; 30];
    let err = raw.qoi_encode(16, 1, Channels::Four, 0, &mut dest).unwrap_err();
    assert_eq!(err, QoiError::OutputTooSmall);
    let mut tiny = vec![0u8; 10];
    let err = raw.qoi_encode(16, 1, Channels::Four, 0, &mut tiny).unwrap_err();
    assert_eq!(err, QoiError::OutputTooSmall);
}

#[test]
fn encode_into_buffer_returns_length() {
    let raw = vec![10u8, 20, 30];
    let mut dest = vec![0xaau8; 64];
    let n = raw.qoi_encode(1, 1, Channels::Three, 5, &mut dest).unwrap();
    assert_eq!(n, 22);
    assert_eq!(dest[13], 5);
    assert_eq!(&dest[14..22], &[0xfe, 10, 20, 30, 0, 0, 0, 0]);
    assert_eq!(dest[22], 0xaa);
    // Exactly enough room succeeds too.
    let mut exact = vec![0u8; 22];
    assert_eq!(raw.qoi_encode(1, 1, Channels::Three, 5, &mut exact), Ok(22));
    let mut short = vec![0u8; 21];
    assert_eq!(
        raw.qoi_encode(1, 1, Channels::Three, 5, &mut short),
        Err(QoiError::OutputTooSmall)
    );
}

#[test]
fn encode_to_vec_refuses_huge_images() {
    let raw = vec![0u8; 4];
    let err = raw.qoi_encode_to_vec(65536, 65536, Channels::Four, 0).unwrap_err();
    assert_eq!(err, QoiError::TooBig);
}

#[test]
fn decode_refuses_huge_images() {
    let mut stream = header_bytes(65536, 65536, 4, 0);
    stream.extend_from_slice(&[0, 0, 0, 0]);
    assert_eq!(stream.qoi_decode_to_vec(None).unwrap_err(), QoiError::TooBig);
}

#[test]
fn decode_reports_small_destination() {
    let raw = noise(4 * 3, 5);
    let encoded = raw.qoi_encode_to_vec(2, 2, Channels::Three, 0).unwrap();
    let mut dest = vec![0u8; 11];
    assert_eq!(encoded.qoi_decode(None, &mut dest), Err(QoiError::OutputTooSmall));
    let mut dest = vec![0u8; 15];
    assert_eq!(
        encoded.qoi_decode(Some(Channels::Four), &mut dest),
        Err(QoiError::OutputTooSmall)
    );
}

#[test]
fn decode_into_larger_buffer_leaves_the_rest() {
    let raw = vec![10u8, 20, 30, 40, 50, 60];
    let encoded = raw.qoi_encode_to_vec(2, 1, Channels::Three, 0).unwrap();
    let mut dest = vec![7u8; 10];
    encoded.qoi_decode(None, &mut dest).unwrap();
    assert_eq!(dest, vec![10, 20, 30, 40, 50, 60, 7, 7, 7, 7]);
}

#[test]
fn decode_reports_bad_channel_byte() {
    let mut stream = header_bytes(1, 1, 5, 0);
    stream.extend_from_slice(&[0, 0, 0, 0]);
    assert_eq!(stream.qoi_decode_to_vec(None).unwrap_err(), QoiError::Channels);
    assert_eq!(stream.load_qoi_header().unwrap_err(), QoiError::Channels);
}

#[test]
fn decode_with_other_channel_count() {
    let raw = vec![10u8, 20, 30, 40, 50, 60];
    let encoded = raw.qoi_encode_to_vec(2, 1, Channels::Three, 0).unwrap();
    let rgba = encoded.qoi_decode_to_vec(Some(Channels::Four)).unwrap();
    assert_eq!(rgba, vec![10, 20, 30, 255, 40, 50, 60, 255]);

    let raw = vec![1u8, 2, 3, 4, 5, 6, 7, 8];
    let encoded = raw.qoi_encode_to_vec(2, 1, Channels::Four, 0).unwrap();
    let rgb = encoded.qoi_decode_to_vec(Some(Channels::Three)).unwrap();
    assert_eq!(rgb, vec![1, 2, 3, 5, 6, 7]);
}

#[test]
fn decode_repeats_last_pixel_when_operations_run_out() {
    let mut stream = header_bytes(3, 1, 3, 0);
    stream.extend_from_slice(&[0xfe, 9, 8, 7]);
    stream.extend_from_slice(&[0, 0, 0, 0]);
    let out = stream.qoi_decode_to_vec(None).unwrap();
    assert_eq!(out, vec![9, 8, 7, 9, 8, 7, 9, 8, 7]);
}

#[test]
fn decode_without_operations_gives_opaque_black() {
    let mut stream = header_bytes(2, 1, 4, 0);
    stream.extend_from_slice(&[0, 0, 0, 0]);
    let out = stream.qoi_decode_to_vec(None).unwrap();
    assert_eq!(out, vec![0, 0, 0, 255, 0, 0, 0, 255]);
}

#[test]
fn load_header_reads_fields() {
    let stream = header_bytes(640, 480, 4, 1);
    let header = stream.load_qoi_header().unwrap();
    assert_eq!(header.width(), 640);
    assert_eq!(header.height(), 480);
    assert_eq!(header.channels(), Channels::Four);
    assert_eq!(header.colour_space(), 1);
    assert_eq!(header.raw_image_size(Channels::Four), 640 * 480 * 4);
    assert_eq!(header.raw_image_size(Channels::Three), 640 * 480 * 3);
}

#[test]
fn header_to_array_is_big_endian() {
    let header = QoiHeader::new(0x01020304, 0xa0b0c0d0, Channels::Three, 9);
    assert_eq!(
        header.to_array(),
        [b'q', b'o', b'i', b'f', 1, 2, 3, 4, 0xa0, 0xb0, 0xc0, 0xd0, 3, 9]
    );
    let back = QoiHeader::new_from_slice(&header.to_array()).unwrap();
    assert_eq!(back, header);
}

#[test]
fn header_errors() {
    assert_eq!(
        QoiHeader::new_from_slice(b"qoif").unwrap_err(),
        QoiError::InputSmallerThanHeader
    );
    assert_eq!(
        QoiHeader::new_from_slice(b"QOIF1234123434").unwrap_err(),
        QoiError::IncorrectHeaderMagic
    );
    assert_eq!(
        QoiHeader::new_from_slice(&header_bytes(1, 1, 2, 0)).unwrap_err(),
        QoiError::Channels
    );
}

#[test]
fn raw_image_size_saturates() {
    let header = QoiHeader::new(u32::MAX, u32::MAX, Channels::Four, 0);
    if usize::BITS == 64 {
        assert_eq!(header.raw_image_size(Channels::Four), usize::MAX);
    }
    let header = QoiHeader::new(3, 5, Channels::Three, 0);
    assert_eq!(header.raw_image_size(Channels::Four), 60);
}

#[test]
fn channels_from_byte() {
    assert_eq!(Channels::try_from(3u8), Ok(Channels::Three));
    assert_eq!(Channels::try_from(4u8), Ok(Channels::Four));
    assert_eq!(Channels::try_from(0u8), Err(QoiError::Channels));
    assert_eq!(Channels::Three.len(), 3);
    assert_eq!(Channels::Four.len(), 4);
}

#[test]
fn pixel_cache_index() {
    assert_eq!(Pixel::new(10, 10, 10, 255).cache_index(), 53);
    assert_eq!(Pixel::new(0, 0, 0, 0).cache_index(), 0);
    assert_eq!(Pixel::default(), Pixel::new(0, 0, 0, 0));
}

#[test]
fn error_messages() {
    assert_eq!(QoiError::OutputTooSmall.message(), "The output buffer is too small");
    assert_eq!(QoiError::TooBig.message(), "The image is too big");
    assert_eq!(
        QoiError::InputSmallerThanHeader.message(),
        "The input is too small to contain a header"
    );
}

#[test]
fn decode_refuses_stream_without_footer() {
    let header = header_bytes(1, 1, 3, 0);
    let mut dest = vec![0u8; 16];
    assert_eq!(header.qoi_decode(None, &mut dest), Err(QoiError::InputSize));
    assert_eq!(header.qoi_decode_to_vec(None).unwrap_err(), QoiError::InputSize);
    let mut three_more = header.clone();
    three_more.extend_from_slice(&[0, 0, 0]);
    assert_eq!(three_more.qoi_decode_to_vec(None).unwrap_err(), QoiError::InputSize);
    let mut full = three_more.clone();
    full.push(0);
    assert_eq!(full.qoi_decode_to_vec(None).unwrap(), vec![0, 0, 0]);
}

#[test]
fn encode_to_vec_fits_incompressible_rgb() {
    // Every pixel changes all three channels by more than the deltas allow.
    let mut raw = Vec::new();
    for i in 0..64u32 {
        let v = if i % 2 == 0 { (i * 3) as u8 } else { (i * 3 + 128) as u8 };
        raw.extend_from_slice(&[v, v.wrapping_add(100), v.wrapping_add(50)]);
    }
    let encoded = raw.qoi_encode_to_vec(64, 1, Channels::Three, 0).unwrap();
    assert!(encoded.len() <= 64 * 4 + 18);
    assert_eq!(encoded.qoi_decode_to_vec(None).unwrap(), raw);
}

#[test]
fn short_destination_reported_before_missing_footer() {
    let header = header_bytes(1, 1, 3, 0);
    let mut empty: Vec<u8> = Vec::new();
    assert_eq!(header.qoi_decode(None, &mut empty), Err(QoiError::OutputTooSmall));
    let mut room = vec![0u8; 3];
    assert_eq!(header.qoi_decode(None, &mut room), Err(QoiError::InputSize));
}
