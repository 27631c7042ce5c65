use dns_weekend::domain_name::{decode_name, encode_name};
use dns_weekend::errors::{DecodeError, EncodeError};

#[test]
fn decodes_name() {
    let buf: Vec<u8> = vec![3, 65, 66, 67, 2, 68, 69, 0];
    let mut pos: usize = 0;
    let result = decode_name(&buf, &mut pos);
    assert!(result.is_ok());
    assert_eq!(result.unwrap(), "ABC.DE");
    assert_eq!(pos, 8);
}

#[test]
fn decodes_compressed_name() {
    let buf: Vec<u8> = vec![3, 65, 66, 67, 0, 0, 0, 1, 65, 192, 0];
    let mut pos: usize = 7;
    let result = decode_name(&buf, &mut pos);
    assert!(result.is_ok());
    assert_eq!(result.unwrap(), "A.ABC");
    assert_eq!(pos, 11);
}

#[test]
fn does_not_handle_loops_in_domain_name_compression() {
    let buf: Vec<u8> = vec![192, 0];
    let mut pos: usize = 0;
    assert_eq!(decode_name(&buf, &mut pos), Err(DecodeError::BadPointer));
    assert_eq!(pos, 0);
}

#[test]
fn rejects_forward_pointer() {
    let buf: Vec<u8> = vec![0xC0, 0x02, 0];
    let mut pos: usize = 0;
    assert_eq!(decode_name(&buf, &mut pos), Err(DecodeError::BadPointer));
}

#[test]
fn rejects_pointer_cycle_through_a_label() {
    // At 11 a pointer to 5; at 5 a label of three bytes, then at 9 a pointer
    // back to 5: each pointer points back, but they go round a loop.
    let buf: Vec<u8> = vec![0, 0, 0, 0, 0, 3, 65, 66, 67, 0xC0, 5, 0xC0, 5];
    let mut pos: usize = 11;
    assert_eq!(decode_name(&buf, &mut pos), Err(DecodeError::TooManyJumps));
    assert_eq!(pos, 11);
}

#[test]
fn decodes_root_name() {
    let buf: Vec<u8> = vec![0];
    let mut pos: usize = 0;
    assert_eq!(decode_name(&buf, &mut pos), Ok(String::new()));
    assert_eq!(pos, 1);
}

#[test]
fn rejects_truncated_names() {
    let mut pos: usize = 0;
    assert_eq!(decode_name(&[], &mut pos), Err(DecodeError::Truncated));
    assert_eq!(decode_name(&[3, 65], &mut pos), Err(DecodeError::Truncated));
    assert_eq!(decode_name(&[1, 65], &mut pos), Err(DecodeError::Truncated));
    assert_eq!(decode_name(&[0xC0], &mut pos), Err(DecodeError::Truncated));
}

#[test]
fn rejects_reserved_length_prefix() {
    let mut pos: usize = 0;
    assert_eq!(decode_name(&[0x40, 0], &mut pos), Err(DecodeError::BadLabelLength));
    assert_eq!(decode_name(&[0x80, 0], &mut pos), Err(DecodeError::BadLabelLength));
}

#[test]
fn rejects_non_text_label() {
    let mut pos: usize = 0;
    assert_eq!(decode_name(&[1, 0xFF, 0], &mut pos), Err(DecodeError::InvalidText));
    assert_eq!(pos, 0);
}

#[test]
fn encodes_name_as_labels() {
    let mut out: Vec<u8> = vec![9];
    assert_eq!(encode_name(&"ABC.DE".to_string(), &mut out), Ok(()));
    assert_eq!(out, vec![9, 3, 65, 66, 67, 2, 68, 69, 0]);
}

#[test]
fn encodes_root_name() {
    let mut out: Vec<u8> = Vec::new();
    assert_eq!(encode_name(&String::new(), &mut out), Ok(()));
    assert_eq!(out, vec![0]);
}

#[test]
fn rejects_bad_labels() {
    let mut out: Vec<u8> = Vec::new();
    assert_eq!(encode_name(&"a".repeat(64), &mut out), Err(EncodeError::BadLabel));
    assert_eq!(encode_name(&"a..b".to_string(), &mut out), Err(EncodeError::BadLabel));
    assert_eq!(encode_name(&"a.".to_string(), &mut out), Err(EncodeError::BadLabel));
    assert!(out.is_empty());
    let mut ok: Vec<u8> = Vec::new();
    assert_eq!(encode_name(&"a".repeat(63), &mut ok), Ok(()));
    assert_eq!(ok.len(), 65);
}

#[test]
fn encoded_name_decodes_back() {
    let mut out: Vec<u8> = Vec::new();
    encode_name(&"www.example.com".to_string(), &mut out).unwrap();
    let mut pos: usize = 0;
    assert_eq!(decode_name(&out, &mut pos), Ok("www.example.com".to_string()));
    assert_eq!(pos, out.len());
}

#[test]
fn follows_pointer_into_the_same_name() {
    // A label of three bytes [1, 'a', 0], then a pointer at 4 back to offset 1.
    let buf: Vec<u8> = vec![3, 1, 97, 0, 0xC0, 0x01];
    let mut pos: usize = 0;
    assert_eq!(decode_name(&buf, &mut pos), Ok("\u{1}a\u{0}.a".to_string()));
    assert_eq!(pos, 6);
}

#[test]
fn follows_chain_of_backward_pointers() {
    // "com" at 0; "x" + pointer to 0 at 5; "www" + pointer to 5 at 9.
    let buf: Vec<u8> = vec![3, 99, 111, 109, 0, 1, 120, 0xC0, 0, 3, 119, 119, 119, 0xC0, 5];
    let mut pos: usize = 9;
    assert_eq!(decode_name(&buf, &mut pos), Ok("www.x.com".to_string()));
    assert_eq!(pos, 15);
}

#[test]
fn follows_pointer_that_lands_inside_a_label() {
    // Pointer at 4 to 0; at 0 a label, then at 2 a pointer to 1, which points
    // back and is followed; the byte at 1 is not a valid length octet.
    let buf: Vec<u8> = vec![1, 97, 0xC0, 1, 0xC0, 0];
    let mut pos: usize = 4;
    assert_eq!(decode_name(&buf, &mut pos), Err(DecodeError::BadLabelLength));
    assert_eq!(pos, 4);
}

#[test]
fn follows_pointer_met_after_a_jump() {
    // Pointer at 6 to 0; at 0 a label [1, 'a', 0], then at 4 a pointer to 1,
    // above the first target but below its own offset.
    let buf: Vec<u8> = vec![3, 1, 97, 0, 0xC0, 0x01, 0xC0, 0x00];
    let mut pos: usize = 6;
    assert_eq!(decode_name(&buf, &mut pos), Ok("\u{1}a\u{0}.a".to_string()));
    assert_eq!(pos, 8);
}
