use hqx::decode::{decode, decode6, hexbin, rle_expand};
use hqx::encode::{binhex, encode6};
use hqx::error::{CRCVerificationError, DecodeError, EncodeError};
use hqx::verify::{compute_crc, verify};
use hqx::{HQXConfig, HQX};

fn empty_config() -> HQXConfig {
    HQXConfig {
        name: None,
        file_type: None,
        author: None,
        flags: None,
        data: None,
        resource: None,
    }
}

#[test]
fn crc_of_empty_is_zero() {
    assert_eq!(compute_crc(&[]), 0);
}

#[test]
fn crc_is_deterministic() {
    let bytes = b"some bytes to checksum";
    let first = compute_crc(bytes);
    let second = compute_crc(bytes);
    assert_eq!(first, second);
}

#[test]
fn crc_flushed_matches_xmodem_check_value() {
    // feeding the two flush bytes after the message makes this register
    // layout agree with CRC-16/XMODEM, whose check value over "123456789"
    // is 0x31C3
    let mut bytes = b"123456789".to_vec();
    bytes.push(0);
    bytes.push(0);
    assert_eq!(compute_crc(&bytes), 0x31C3);
}

#[test]
fn rle_run_expands_to_full_length() {
    let packed = vec![0x41u8, 0x90, 0x04];
    let out = rle_expand(&packed).unwrap();
    assert_eq!(out, vec![0x41u8, 0x41, 0x41, 0x41]);
}

#[test]
fn rle_escape_yields_literal_marker() {
    let packed = vec![0x90u8, 0x00];
    let out = rle_expand(&packed).unwrap();
    assert_eq!(out, vec![0x90u8]);
}

#[test]
fn rle_count_of_one_adds_nothing() {
    let packed = vec![0x41u8, 0x90, 0x01];
    let out = rle_expand(&packed).unwrap();
    assert_eq!(out, vec![0x41u8]);
}

#[test]
fn rle_trailing_marker_is_an_error() {
    let packed = vec![0x41u8, 0x90];
    assert_eq!(
        rle_expand(&packed),
        Err(DecodeError::BadRunLengthEncoding)
    );
}

#[test]
fn alphabet_is_a_bijection_on_six_bit_values() {
    for v in 0u8..64 {
        let c = encode6(v);
        assert!(decode6(c) < 64, "character {c} must be in the alphabet");
        assert_eq!(decode6(c), v);
        assert!(c != b'\r' && c != b'\n' && c != 0xFF);
    }
}

#[test]
fn alphabet_matches_the_published_table() {
    let table = b"!\"#$%&'()*+,-012345689@ABCDEFGHIJKLMNPQRSTUVXYZ[`abcdefhijklmpqr";
    assert_eq!(table.len(), 64);
    for (i, c) in table.iter().enumerate() {
        assert_eq!(encode6(i as u8), *c);
        assert_eq!(decode6(*c), i as u8);
    }
}

#[test]
fn decoder_skips_cr_lf_and_sentinel() {
    // "5!" unpacks to the single byte 0x48; newlines and 0xFF in between
    // must not change the result
    let plain = decode(b"5!").unwrap();
    let noisy = decode(b"\r\n5\xFF\r!\n").unwrap();
    assert_eq!(plain.vec, noisy.vec);
}

#[test]
fn out_of_alphabet_byte_is_bad_format() {
    // 'o' is not one of the 64 alphabet characters
    assert_eq!(decode(b"No").unwrap_err(), DecodeError::BadFormat);
}

#[test]
fn stream_ending_mid_run_is_bad_rle() {
    // "N!" unpacks to the lone byte 0x90: a run marker with no count
    assert_eq!(decode(b"N!").unwrap_err(), DecodeError::BadRunLengthEncoding);
}

#[test]
fn empty_forks_still_occupy_four_crc_bytes() {
    let hqx = binhex(empty_config()).unwrap();
    // header of "Untitled.hqx" is 12 + 22 bytes, plus 2 + 2 placeholder CRCs
    assert_eq!(hqx.vec.len(), 12 + 22 + 4);
    assert_eq!(&hqx.vec[hqx.vec.len() - 4..], &[0u8, 0, 0, 0]);
    let view = hqx.borrow().unwrap();
    assert!(view.data_fork.is_none());
    assert!(view.resource_fork.is_none());
}

#[test]
fn container_round_trip_recovers_every_field() {
    let config = HQXConfig {
        name: Some(b"roundtrip.bin".to_vec()),
        file_type: Some(b"TEXT".to_vec()),
        author: Some(b"ttxt".to_vec()),
        flags: Some(vec![0x01, 0x80]),
        data: Some(b"data fork payload".to_vec()),
        resource: Some(b"resource fork payload".to_vec()),
    };
    let hqx = binhex(config).unwrap();
    let view = hqx.borrow().unwrap();
    assert_eq!(view.name, b"roundtrip.bin".to_vec());
    assert_eq!(view.file_type, b"TEXT".to_vec());
    assert_eq!(view.author, b"ttxt".to_vec());
    assert_eq!(view.flags, vec![0x01, 0x80]);
    assert_eq!(view.data_len, 17);
    assert_eq!(view.resource_len, 21);
    assert_eq!(view.data_fork.as_ref().unwrap().data, b"data fork payload".to_vec());
    assert_eq!(
        view.resource_fork.as_ref().unwrap().data,
        b"resource fork payload".to_vec()
    );
    assert_eq!(verify(&hqx), Ok(()));
}

#[test]
fn name_longer_than_255_bytes_is_rejected() {
    let config = HQXConfig {
        name: Some(vec![b'a'; 256]),
        ..empty_config()
    };
    assert_eq!(binhex(config).unwrap_err(), EncodeError::FileNameTooLong);
}

#[test]
fn bit_flip_in_data_fork_fails_verification() {
    let config = HQXConfig {
        data: Some(b"hello".to_vec()),
        ..empty_config()
    };
    let hqx = binhex(config).unwrap();
    let data_start = 12 + 22;
    for byte in 0..5 {
        for bit in 0..8 {
            let mut corrupted = hqx.vec.clone();
            corrupted[data_start + byte] ^= 1 << bit;
            let result = verify(&HQX::new(corrupted));
            assert_eq!(
                result,
                Err(DecodeError::CRCVerificationError(CRCVerificationError::Data))
            );
        }
    }
}

#[test]
fn bit_flip_in_resource_fork_fails_verification() {
    let config = HQXConfig {
        data: Some(b"hello".to_vec()),
        resource: Some(b"rsrc".to_vec()),
        ..empty_config()
    };
    let hqx = binhex(config).unwrap();
    let resource_start = 12 + 22 + 5 + 2;
    for byte in 0..4 {
        for bit in 0..8 {
            let mut corrupted = hqx.vec.clone();
            corrupted[resource_start + byte] ^= 1 << bit;
            let result = verify(&HQX::new(corrupted));
            assert_eq!(
                result,
                Err(DecodeError::CRCVerificationError(
                    CRCVerificationError::Resource
                ))
            );
        }
    }
}

#[test]
fn corrupted_header_fails_verification_as_header() {
    let config = HQXConfig {
        data: Some(b"hello".to_vec()),
        ..empty_config()
    };
    let hqx = binhex(config).unwrap();
    let mut corrupted = hqx.vec.clone();
    // a flag byte: parsing still succeeds, but the header CRC must not
    corrupted[12 + 10] ^= 0x01;
    assert_eq!(
        verify(&HQX::new(corrupted)),
        Err(DecodeError::CRCVerificationError(CRCVerificationError::Header))
    );
}

#[test]
fn truncated_container_is_bad_format() {
    let hqx = HQX::new(vec![5, b'a']);
    assert_eq!(verify(&hqx), Err(DecodeError::BadFormat));
    assert!(hqx.borrow().is_err());
}

#[test]
fn end_to_end_hello_round_trip() {
    let config = HQXConfig {
        data: Some(b"hello".to_vec()),
        ..empty_config()
    };
    let hqx = binhex(config).unwrap();
    let view = hqx.borrow().unwrap();
    let text = view.encode();

    let prelude = b"(This file must be converted with BinHex 4.0)\n\n:";
    assert_eq!(&text[..prelude.len()], prelude);
    assert_eq!(&text[text.len() - 3..], b":\r\n");
    for &c in &text[prelude.len()..text.len() - 3] {
        assert!(
            decode6(c) < 64 || c == b'\r' || c == b'\n',
            "byte {c} between the colons is neither alphabet nor CR/LF"
        );
    }

    let decoded = hexbin(&text, true).unwrap();
    let decoded_view = decoded.borrow().unwrap();
    assert_eq!(decoded_view.name, b"Untitled.hqx".to_vec());
    assert_eq!(decoded_view.data_fork.as_ref().unwrap().data, b"hello".to_vec());
    assert!(decoded_view.resource_fork.is_none());
}

#[test]
fn decode_without_verification_ignores_bad_crc() {
    let config = HQXConfig {
        data: Some(b"hello".to_vec()),
        ..empty_config()
    };
    let hqx = binhex(config).unwrap();
    let mut corrupted = hqx.vec.clone();
    corrupted[12 + 22] ^= 0x04;
    let text = HQX::new(corrupted).borrow().unwrap().encode();
    assert!(hexbin(&text, false).is_ok());
    assert_eq!(
        hexbin(&text, true).unwrap_err(),
        DecodeError::CRCVerificationError(CRCVerificationError::Data)
    );
}

#[test]
fn missing_marker_or_colons_is_bad_format() {
    assert_eq!(
        hexbin(b"no marker at all", true).unwrap_err(),
        DecodeError::BadFormat
    );
    assert_eq!(
        hexbin(b"(This file must be converted with BinHex 4.0)\n\nno colons", true).unwrap_err(),
        DecodeError::BadFormat
    );
    assert_eq!(
        hexbin(b"(This file must be converted with BinHex 4.0)\n\n:unterminated", true)
            .unwrap_err(),
        DecodeError::BadFormat
    );
}

#[test]
fn marker_bytes_in_payload_survive_the_text_round_trip() {
    let payload = vec![0x90u8, 0x41, 0x90, 0x90, 0x00];
    let config = HQXConfig {
        data: Some(payload.clone()),
        ..empty_config()
    };
    let hqx = binhex(config).unwrap();
    let text = hqx.borrow().unwrap().encode();
    let decoded = hexbin(&text, true).unwrap();
    assert_eq!(decoded.vec, hqx.vec);
    assert_eq!(
        decoded.borrow().unwrap().data_fork.unwrap().data,
        payload
    );
}

#[test]
fn every_container_length_survives_the_text_round_trip() {
    // container lengths cover all residues mod 3, so the trailing carry
    // flush is exercised in each packer state
    for extra in 0..6usize {
        let data: Vec<u8> = (0..5 + extra).map(|i| i as u8).collect();
        let config = HQXConfig {
            data: Some(data.clone()),
            resource: Some(b"xy".to_vec()),
            ..empty_config()
        };
        let hqx = binhex(config).unwrap();
        let text = hqx.borrow().unwrap().encode();
        let decoded = hexbin(&text, true).unwrap();
        assert_eq!(decoded.vec, hqx.vec);
        let view = decoded.borrow().unwrap();
        assert_eq!(view.data_fork.unwrap().data, data);
        assert_eq!(view.resource_fork.unwrap().data, b"xy".to_vec());
    }
}

#[test]
fn from_config_matches_binhex() {
    let by_fn = binhex(empty_config()).unwrap();
    let by_method = HQX::from_config(empty_config()).unwrap();
    assert_eq!(by_fn.vec, by_method.vec);
}

#[test]
fn size_helpers_match_the_layout() {
    assert_eq!(hqx::get_header_len(12), 34);
    assert_eq!(hqx::encode::len_to_encoded_len(30), 40);
    let with_data = HQXConfig {
        data: Some(vec![1, 2, 3]),
        ..empty_config()
    };
    assert_eq!(with_data.hqx_len(), 22 + 3);
    let with_name = HQXConfig {
        name: Some(b"ab".to_vec()),
        ..empty_config()
    };
    assert_eq!(with_name.hqx_len(), 2 + 22);
}

#[test]
fn line_wrapping_inserts_crlf_every_64_characters() {
    let config = HQXConfig {
        data: Some(vec![0xA5; 200]),
        ..empty_config()
    };
    let hqx = binhex(config).unwrap();
    let text = hqx.borrow().unwrap().encode();
    let prelude_len = b"(This file must be converted with BinHex 4.0)\n\n:".len();
    let body = &text[prelude_len..text.len() - 3];
    for (i, line) in body.split(|&c| c == b'\n').enumerate() {
        let line = line.strip_suffix(b"\r").unwrap_or(line);
        assert!(
            line.len() <= 64,
            "line {i} has {} characters, more than 64",
            line.len()
        );
    }
}
