//! Exact results of each opcode family, of each error, and of the laws on
//! concrete blocks.

use lzvn::{decode, decode_into, Error};

fn run(block: &[u8], cap: usize) -> (Result<usize, Error>, Vec<u8>) {
    let mut out = vec![0xAAu8; cap];
    let r = decode_into(block, &mut out);
    (r, out)
}

#[test]
fn end_of_stream_alone_decodes_to_nothing() {
    assert_eq!(run(&[0x06], 0).0, Ok(0));
    assert_eq!(run(&[0x06, 0xff, 0x70], 4).0, Ok(0));
}

#[test]
fn trailing_bytes_change_nothing() {
    let block = [0xe3, b'a', b'b', b'c', 0x06];
    let base = run(&block, 6);
    for tail in [&[][..], &[0x00], &[0x70, 0x71], &[0xe5, 1, 2], &[0x06, 0x06]] {
        let mut longer = block.to_vec();
        longer.extend_from_slice(tail);
        assert_eq!(run(&longer, 6), base);
    }
    assert_eq!(base.0, Ok(3));
    assert_eq!(&base.1[..3], b"abc");
}

#[test]
fn larger_buffer_gives_same_bytes_and_leaves_the_rest() {
    let block = [0xe5, b'h', b'e', b'l', b'l', b'o', 0x06];
    let (r, out) = run(&block, 9);
    assert_eq!(r, Ok(5));
    assert_eq!(&out[..5], b"hello");
    assert_eq!(&out[5..], &[0xAA; 4]);
}

#[test]
fn smaller_buffer_reports_its_size_and_bytes_written() {
    let block = [0xe2, b'h', b'e', 0xe3, b'l', b'l', b'o', 0x06];
    assert_eq!(run(&block, 5).0, Ok(5));
    let (r, out) = run(&block, 3);
    assert_eq!(
        r,
        Err(Error::OutputTooSmall {
            written: 2,
            capacity: 3
        })
    );
    assert_eq!(out, vec![b'h', b'e', 0xAA]);
}

#[test]
fn large_literal_counts_from_sixteen() {
    let mut block = vec![0xe0, 0x00];
    block.extend_from_slice(b"abcdefghijklmnop");
    block.push(0x06);
    let (r, out) = run(&block, 16);
    assert_eq!(r, Ok(16));
    assert_eq!(&out, b"abcdefghijklmnop");
    assert_eq!(run(&[0xe0], 16).0, Err(Error::TruncatedInput { position: 1 }));
}

#[test]
fn medium_distance_match() {
    // lit 0, match length 3, distance 16/4 = 4.
    let (r, out) = run(&[0xe4, b'a', b'b', b'c', b'd', 0xa0, 16, 0, 0x06], 7);
    assert_eq!(r, Ok(7));
    assert_eq!(&out, b"abcdabc");
    // lit 1 (bits 3..5 of 0xa8), match length 3, distance 2.
    let (r, out) = run(&[0xe2, b'a', b'b', 0xa8, 0x08, 0x00, b'c', 0x06], 6);
    assert_eq!(r, Ok(6));
    assert_eq!(&out, b"abcbcb");
    assert_eq!(run(&[0xa0, 0x10], 8).0, Err(Error::TruncatedInput { position: 2 }));
}

#[test]
fn small_and_previous_distance_matches() {
    // 0x40: one literal, match length 3, distance 0 * 256 + 2.
    // 0x46: one literal, match length 3, previous distance (2).
    let block = [0xe2, b'x', b'y', 0x40, 0x02, b'z', 0x46, b'w', 0x06];
    let (r, out) = run(&block, 10);
    assert_eq!(r, Ok(10));
    assert_eq!(&out, b"xyzyzywywy");
    assert_eq!(run(&[0x00], 8).0, Err(Error::TruncatedInput { position: 1 }));
}

#[test]
fn large_distance_is_little_endian() {
    let mut block = vec![0xe0, 0xf0];
    block.extend(std::iter::repeat(b'q').take(256));
    block.extend_from_slice(&[0x07, 0x00, 0x01, 0x06]); // distance 0x0100
    let (r, out) = run(&block, 259);
    assert_eq!(r, Ok(259));
    assert!(out.iter().all(|&b| b == b'q'));
    assert_eq!(run(&[0x07], 8).0, Err(Error::TruncatedInput { position: 1 }));
    assert_eq!(run(&[0x07, 0x01], 8).0, Err(Error::TruncatedInput { position: 2 }));
}

#[test]
fn large_and_small_matches_reuse_previous_distance() {
    // "a", match 3 at distance 1, match 16 at distance 1, match 2 at distance 1.
    let block = [0xe1, b'a', 0x00, 0x01, 0xf0, 0x00, 0xf2, 0x06];
    let (r, out) = run(&block, 22);
    assert_eq!(r, Ok(22));
    assert_eq!(out, vec![b'a'; 22]);
    assert_eq!(run(&[0xe1, b'a', 0x00, 0x01, 0xf0], 22).0, Err(Error::TruncatedInput { position: 5 }));
}

#[test]
fn reserved_opcodes_are_rejected_where_they_stand() {
    assert_eq!(
        run(&[0x0e, 0x0e, 0x1e], 8).0,
        Err(Error::InvalidOpcode {
            position: 2,
            opcode: 0x1e
        })
    );
    assert_eq!(
        run(&[0xd5, 0x00], 8).0,
        Err(Error::InvalidOpcode {
            position: 0,
            opcode: 0xd5
        })
    );
}

#[test]
fn match_beyond_output_start_is_rejected() {
    assert_eq!(
        run(&[0xe1, b'a', 0x00, 0x05, 0x06], 8).0,
        Err(Error::InvalidMatchDistance {
            distance: 5,
            available: 1
        })
    );
}

#[test]
fn literals_stay_written_when_the_match_after_them_fails() {
    let mut out = [9u8; 8];
    assert_eq!(
        decode_into(&[0x46, b'q'], &mut out),
        Err(Error::InvalidMatchDistance {
            distance: 0,
            available: 1
        })
    );
    assert_eq!(out, [b'q', 9, 9, 9, 9, 9, 9, 9]);
}

#[test]
fn truncation_reports_the_opcode_offset() {
    assert_eq!(
        run(&[0x0e, 0xe5, b'h'], 8).0,
        Err(Error::TruncatedInput { position: 1 })
    );
    assert_eq!(run(&[0x0e, 0x16], 8).0, Err(Error::TruncatedInput { position: 2 }));
}

#[test]
fn messages_read_as_displayed() {
    assert_eq!(
        Error::TruncatedInput { position: 1234 }.to_string(),
        "lzvn: input truncated at offset 1234"
    );
    assert_eq!(
        Error::OutputTooSmall {
            written: 1,
            capacity: 20
        }
        .to_string(),
        "lzvn: output buffer too small (1/20)"
    );
    assert_eq!(
        Error::InvalidOpcode {
            position: 0,
            opcode: 0x70
        }
        .to_string(),
        "lzvn: invalid opcode 0x70 at offset 0"
    );
    assert_eq!(
        Error::InvalidOpcode {
            position: 7,
            opcode: 0xde
        }
        .to_string(),
        "lzvn: invalid opcode 0xde at offset 7"
    );
    assert_eq!(
        Error::InvalidMatchDistance {
            distance: 0,
            available: 0
        }
        .to_string(),
        "lzvn: invalid match distance 0 (available 0)"
    );
}

#[test]
fn decode_allocates_and_trims() {
    let block = [0xe5, b'h', b'e', b'l', b'l', b'o', 0x06];
    assert_eq!(decode(&block, 9).unwrap(), b"hello".to_vec());
    assert_eq!(
        decode(&block, 3),
        Err(Error::OutputTooSmall {
            written: 0,
            capacity: 3
        })
    );
    assert_eq!(decode(&[], 0), Err(Error::TruncatedInput { position: 0 }));
}

#[test]
fn result_alias_names_decoding_results() {
    let r: lzvn::Result<usize> = decode_into(&[0x06], &mut []);
    assert_eq!(r, Ok(0));
}
