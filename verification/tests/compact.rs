use parity_scale_codec::{Compact, Decode, Encode};
use scale_events::compact::{decode_compact, encode_compact, push_le, width_of};
use scale_events::error::EventsDecodingError;

fn boundary_values() -> Vec<u128> {
    let mut values: Vec<u128> = vec![0, 1, 2, 63, 64, 65, 255, 256, 16383, 16384, 16385];
    values.extend([(1 << 30) - 1, 1 << 30, (1 << 30) + 1]);
    values.extend([u32::MAX as u128 - 1, u32::MAX as u128, u32::MAX as u128 + 1]);
    values.extend([u64::MAX as u128 - 1, u64::MAX as u128, u64::MAX as u128 + 1]);
    for bytes in 4..16u32 {
        let edge: u128 = 1 << (8 * bytes);
        values.extend([edge - 1, edge, edge + 1]);
    }
    values.extend([u128::MAX - 1, u128::MAX]);
    values
}

#[test]
fn encodings_of_small_values_are_exact() {
    assert_eq!(encode_compact(0), vec![0x00]);
    assert_eq!(encode_compact(1), vec![0x04]);
    assert_eq!(encode_compact(42), vec![0xa8]);
    assert_eq!(encode_compact(63), vec![0xfc]);
    assert_eq!(encode_compact(64), vec![0x01, 0x01]);
    assert_eq!(encode_compact(69), vec![0x15, 0x01]);
    assert_eq!(encode_compact(16383), vec![0xfd, 0xff]);
    assert_eq!(encode_compact(16384), vec![0x02, 0x00, 0x01, 0x00]);
    assert_eq!(encode_compact((1 << 30) - 1), vec![0xfe, 0xff, 0xff, 0xff]);
    assert_eq!(encode_compact(1 << 30), vec![0x03, 0x00, 0x00, 0x00, 0x40]);
    assert_eq!(
        encode_compact(u32::MAX as u128),
        vec![0x03, 0xff, 0xff, 0xff, 0xff]
    );
    assert_eq!(
        encode_compact(1 << 32),
        vec![0x07, 0x00, 0x00, 0x00, 0x00, 0x01]
    );
    let mut widest = vec![0x33];
    widest.extend([0xff; 16]);
    assert_eq!(encode_compact(u128::MAX), widest);
}

#[test]
fn compact_round_trip_on_boundary_values() {
    for v in boundary_values() {
        let encoded = encode_compact(v);
        assert_eq!(decode_compact(&encoded), Ok((v, encoded.len())));
    }
}

#[test]
fn compact_round_trip_ignores_what_follows() {
    for v in boundary_values() {
        let mut input = encode_compact(v);
        let len = input.len();
        input.extend([0xde, 0xad, 0xbe, 0xef]);
        assert_eq!(decode_compact(&input), Ok((v, len)));
    }
}

#[test]
fn encoding_agrees_with_the_codec() {
    for v in boundary_values() {
        assert_eq!(encode_compact(v), Compact(v).encode());
    }
    for v in 0..70_000u128 {
        assert_eq!(encode_compact(v), Compact(v).encode());
    }
}

#[test]
fn encoding_takes_the_shortest_form() {
    for v in boundary_values() {
        let expected = if v < 1 << 6 {
            1
        } else if v < 1 << 14 {
            2
        } else if v < 1 << 30 {
            4
        } else {
            1 + (128 - v.leading_zeros() as usize + 7) / 8
        };
        assert_eq!(encode_compact(v).len(), expected);
    }
}

#[test]
fn decoding_agrees_with_the_codec_on_every_prefix_pair() {
    let tail: [u8; 17] = [
        0x00, 0x01, 0x80, 0xff, 0x00, 0x00, 0x7f, 0x00, 0x10, 0x00, 0x00, 0x00, 0x00, 0x00, 0x00,
        0x01, 0x00,
    ];
    for first in 0..=255u8 {
        for second in 0..=255u8 {
            let mut input = vec![first, second];
            input.extend(tail);
            let mut cursor = &input[..];
            let theirs = Compact::<u128>::decode(&mut cursor);
            let ours = decode_compact(&input);
            match (theirs, ours) {
                (Ok(Compact(v)), Ok((w, used))) => {
                    assert_eq!(v, w);
                    assert_eq!(used, input.len() - cursor.len());
                }
                (Err(_), Err(_)) => {}
                (theirs, ours) => panic!("{:?} {:?} on {:?}", theirs, ours, input),
            }
        }
    }
}

#[test]
fn decoding_agrees_with_the_codec_on_zero_padding() {
    for first in 0..=255u8 {
        for len in 1..20usize {
            let mut input = vec![0u8; len];
            input[0] = first;
            let mut cursor = &input[..];
            let theirs = Compact::<u128>::decode(&mut cursor).map(|c| c.0);
            let ours = decode_compact(&input).map(|r| r.0);
            assert_eq!(theirs.is_ok(), ours.is_ok());
            if let (Ok(v), Ok(w)) = (theirs, ours) {
                assert_eq!(v, w);
            }
        }
    }
}

#[test]
fn empty_input_is_the_end() {
    assert_eq!(decode_compact(&[]), Err(EventsDecodingError::UnexpectedEof));
}

#[test]
fn every_cut_encoding_is_the_end() {
    for v in boundary_values() {
        let encoded = encode_compact(v);
        for k in 0..encoded.len() {
            assert_eq!(
                decode_compact(&encoded[..k]),
                Err(EventsDecodingError::UnexpectedEof)
            );
        }
    }
}

#[test]
fn wider_forms_than_needed_are_refused() {
    // 0 in two bytes, 63 in two bytes, 64 in four bytes, 0 in the big form
    assert_eq!(
        decode_compact(&[0x01, 0x00]),
        Err(EventsDecodingError::NonCanonicalCompact)
    );
    assert_eq!(
        decode_compact(&[0xfd, 0x00]),
        Err(EventsDecodingError::NonCanonicalCompact)
    );
    assert_eq!(
        decode_compact(&[0x02, 0x01, 0x00, 0x00]),
        Err(EventsDecodingError::NonCanonicalCompact)
    );
    assert_eq!(
        decode_compact(&[0x03, 0xff, 0xff, 0xff, 0x3f]),
        Err(EventsDecodingError::NonCanonicalCompact)
    );
    assert_eq!(
        decode_compact(&[0x07, 0xff, 0xff, 0xff, 0xff, 0x00]),
        Err(EventsDecodingError::NonCanonicalCompact)
    );
}

#[test]
fn more_than_sixteen_bytes_are_refused() {
    let mut input = vec![0x37];
    input.extend([0xff; 17]);
    assert_eq!(
        decode_compact(&input),
        Err(EventsDecodingError::CompactTooWide)
    );
    assert_eq!(
        decode_compact(&[0xff]),
        Err(EventsDecodingError::CompactTooWide)
    );
}

#[test]
fn little_endian_helpers() {
    let mut out = vec![0xaa];
    push_le(&mut out, 0x0102_0304, 4);
    assert_eq!(out, vec![0xaa, 0x04, 0x03, 0x02, 0x01]);
    push_le(&mut out, 0x1234, 1);
    assert_eq!(out.last(), Some(&0x34));
    assert_eq!(width_of(0), 1);
    assert_eq!(width_of(255), 1);
    assert_eq!(width_of(256), 2);
    assert_eq!(width_of(u128::MAX), 16);
}
