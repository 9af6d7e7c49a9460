//! The parts the reader is made of, on exact values.

use std::io::Write;

use vmdk::bytes::{read_u16, read_u32, read_u64};
use vmdk::content_id::{
    content_id_replacement, content_id_value, hex_bytes, locate_content_id, mixed_content_id,
    next_content_id, ContentIdField,
};
use vmdk::descriptor::Descriptor;
use vmdk::device::{BlockDevice, BlockRead, Bytes};
use vmdk::inflate::{check_inflated, inflate_grain};
use vmdk::text::{
    chars_of, eq_ignore_ascii_case, find_char, parse_decimal, push_decimal, push_text, same_text,
    string_of, take_word, trim, Trim,
};
use vmdk::walk::walk;
use vmdk::Error;

#[test]
fn every_error_says_what_happened() {
    let io = Error::from(std::io::Error::other("no such drive"));
    assert_eq!(io.message(), "io: no such drive");
    assert_eq!(io.source().unwrap().to_string(), "no such drive");
    assert_eq!(io.message_with("x"), "io: x");
    assert_eq!(
        Error::NotVmdk.message(),
        "not a VMDK image (magic mismatch)"
    );
    assert_eq!(Error::Corrupt("bad").message(), "corrupt VMDK: bad");
    assert_eq!(
        Error::Unsupported("vmfs").message(),
        "unsupported VMDK feature: vmfs"
    );
    let oob = Error::OutOfBounds {
        offset: 10,
        len: 0,
        size: u64::MAX,
    };
    assert_eq!(
        oob.message(),
        "read [10, 10+0) past virtual size 18446744073709551615"
    );
    assert_eq!(Error::ReadOnly.message(), "image was opened read-only");
    assert!(Error::ReadOnly.source().is_none());
}

#[test]
fn little_endian_numbers_read_back() {
    let b = [0x01, 0x02, 0x03, 0x04, 0x05, 0x06, 0x07, 0x08, 0x09];
    assert_eq!(read_u16(&b, 1), 0x0302);
    assert_eq!(read_u32(&b, 0), 0x0403_0201);
    assert_eq!(read_u64(&b, 1), 0x0908_0706_0504_0302);
}

#[test]
fn text_is_trimmed_searched_and_spelled() {
    let s = chars_of(" \t\"a b\"\r\u{2028}");
    assert_eq!(string_of(trim(&s, Trim::White)), "\"a b\"");
    assert_eq!(string_of(trim(trim(&s, Trim::White), Trim::Quote)), "a b");
    let padded = chars_of("\0 a\0 \0");
    assert_eq!(string_of(trim(&padded, Trim::Nul)), " a\0 ");
    assert_eq!(string_of(trim(&padded, Trim::WhiteOrNul)), "a");
    assert_eq!(find_char(&chars_of("a=b=c"), '='), 1);
    assert_eq!(find_char(&chars_of("abc"), '='), 3);
    assert!(same_text(&chars_of("CID"), "CID"));
    assert!(!same_text(&chars_of("CID"), "cid"));
    assert!(eq_ignore_ascii_case(&chars_of("sParse"), "SPARSE"));
    assert!(!eq_ignore_ascii_case(&chars_of("SPARS"), "SPARSE"));
    let mut text = String::from("n=");
    push_decimal(&mut text, 0);
    push_text(&mut text, ", ");
    push_decimal(&mut text, 18446744073709551615);
    assert_eq!(text, "n=0, 18446744073709551615");
}

#[test]
fn words_are_taken_one_by_one() {
    let s = chars_of("  RW\t2048 ");
    let (word, rest) = take_word(&s).unwrap();
    assert_eq!(string_of(word), "RW");
    let (word, rest) = take_word(rest).unwrap();
    assert_eq!(string_of(word), "2048");
    assert!(take_word(rest).is_none());
}

#[test]
fn decimals_are_digits_that_fit() {
    let parse = |s: &str| parse_decimal(&chars_of(s));
    assert_eq!(parse("2048"), Some(2048));
    assert_eq!(parse("+7"), Some(7));
    assert_eq!(parse("18446744073709551615"), Some(u64::MAX));
    assert_eq!(parse("18446744073709551616"), None);
    assert_eq!(parse(""), None);
    assert_eq!(parse("+"), None);
    assert_eq!(parse("-1"), None);
    assert_eq!(parse("1 "), None);
}

#[test]
fn an_identifier_is_located_on_its_own_line() {
    let region = b"parentCID=1\nCID=AbC\nrest\0\0\0\0\0";
    let f = locate_content_id(region).unwrap().unwrap();
    assert_eq!(
        f,
        ContentIdField {
            start: 16,
            len: 3,
            content_end: 24
        }
    );
    assert_eq!(content_id_value(region, f), 0xABC);
    assert_eq!(
        content_id_replacement(region, f, 0x0012_abcd),
        b"0012abcd\nrest".to_vec()
    );
    assert_eq!(hex_bytes(0xDEAD_BEEF), b"deadbeef".to_vec());
    assert_eq!(locate_content_id(b"parentCID=1\n"), Ok(None));
    assert_eq!(locate_content_id(b"x\rCID=1").is_err(), true);
}

#[test]
fn an_identifier_that_cannot_be_rewritten_is_refused() {
    let shape = Err("descriptor CID is not one to eight hex digits on its own line");
    assert_eq!(locate_content_id(b"CID=\n"), shape);
    assert_eq!(locate_content_id(b"CID=123456789\n"), shape);
    assert_eq!(locate_content_id(b"CID=12 \n"), shape);
    assert_eq!(locate_content_id(b"CID=xyz\n"), shape);
    let room = Err("descriptor CID is too short to widen and the descriptor region has no room");
    assert_eq!(locate_content_id(b"CID=12\nabcde\0\0\0\0\0"), room);
    assert!(locate_content_id(b"CID=12\nabcde\0\0\0\0\0\0").is_ok());
    assert!(locate_content_id(b"CID=12345678\nabcde").is_ok());
}

#[test]
fn the_next_identifier_is_another_one() {
    // 1 * 1664525 + 1013904223 = 1015568748
    assert_eq!(mixed_content_id(1, 0), 1015568748);
    assert_eq!(mixed_content_id(1, 3), 1015568748 ^ 3);
    // A mix that would give zero, the sentinel or the old value is moved
    // on.
    let mixed = 1u32.wrapping_mul(1_664_525).wrapping_add(1_013_904_223);
    assert_eq!(mixed_content_id(1, mixed), 2);
    assert_eq!(mixed_content_id(1, mixed ^ 1), 2);
    assert_eq!(mixed_content_id(1, !mixed), 2);
    for current in [0, 1, 0xFFFF_FFFE, 0xFFFF_FFFF] {
        let next = next_content_id(current);
        assert!(next != current && next != 0 && next != 0xFFFF_FFFF);
    }
}

/// A descriptor is read the same with another identifier, also where the
/// identifier is widened into the padding.
#[test]
fn a_descriptor_is_read_the_same_with_another_identifier() {
    let mut region = b"CID=1f\r\ncreateType=\"monolithicSparse\"\nRW 8 SPARSE \"a b\"\0\0\0\0\0\0\0\0".to_vec();
    let f = locate_content_id(&region).unwrap().unwrap();
    let new = content_id_replacement(&region, f, 0xCAFE);
    region[f.start..f.start + new.len()].copy_from_slice(&new);
    let text = String::from_utf8(region).unwrap();
    assert_eq!(
        text,
        "CID=0000cafe\r\ncreateType=\"monolithicSparse\"\nRW 8 SPARSE \"a b\"\0\0"
    );
    let d = Descriptor::parse(&text).unwrap();
    assert_eq!(d.create_type, "monolithicSparse");
    assert_eq!(d.extents.len(), 1);
    assert_eq!(d.extents[0].sectors, 8);
    assert_eq!(d.extents[0].filename, "a");
}

fn zlib(data: &[u8]) -> Vec<u8> {
    let mut e = flate2::write::ZlibEncoder::new(Vec::new(), flate2::Compression::default());
    e.write_all(data).unwrap();
    e.finish().unwrap()
}

#[test]
fn a_compressed_grain_inflates_to_its_bytes() {
    let data: Vec<u8> = (0..4096u32).map(|i| (i % 251) as u8).collect();
    assert_eq!(inflate_grain(&zlib(&data), 4096, 4096).unwrap(), data);
    // The disk's last grain may be short; the rest of it is zeros.
    let short = inflate_grain(&zlib(&data[..1000]), 4096, 1000).unwrap();
    assert_eq!(&short[..1000], &data[..1000]);
    assert!(short[1000..].iter().all(|&b| b == 0));
}

#[test]
fn a_compressed_grain_that_is_not_one_grain_is_refused() {
    let data = vec![7u8; 4096];
    let stream = zlib(&data);
    let says = |r: vmdk::Result<Vec<u8>>| r.unwrap_err().message();
    assert!(says(inflate_grain(b"not zlib", 4096, 4096)).contains("not a valid zlib stream"));
    assert!(says(inflate_grain(&stream[..stream.len() / 2], 4096, 4096))
        .contains("inflates past one grain, or its stream is truncated"));
    assert!(says(inflate_grain(&stream, 512, 512)).contains("inflates past one grain"));
    assert!(says(inflate_grain(&stream, 8192, 8192)).contains("inflates to less than one grain"));
    assert_eq!(
        check_inflated(Some((true, 2)), vec![1, 2, 3], 2).unwrap(),
        vec![1, 2, 3]
    );
    assert!(says(check_inflated(None, vec![], 0)).contains("not a valid zlib stream"));
    assert!(says(check_inflated(Some((false, 9)), vec![], 0)).contains("truncated"));
    assert!(says(check_inflated(Some((true, 1)), vec![1], 2)).contains("less than one grain"));
}

#[test]
fn bytes_in_memory_are_a_growing_device() {
    let mut dev = Bytes(vec![1, 2, 3]);
    let mut buf = [0u8; 2];
    dev.read_at(1, &mut buf).unwrap();
    assert_eq!(buf, [2, 3]);
    let short = dev.read_at(2, &mut buf).unwrap_err();
    assert_eq!(short.message(), "io: short read at 2: wanted 2 got 1");
    assert_eq!(
        short.source().unwrap().kind(),
        std::io::ErrorKind::UnexpectedEof
    );
    let past = dev.read_at(9, &mut buf).unwrap_err();
    assert_eq!(past.message(), "io: short read at 9: wanted 2 got 0");
    dev.write_at(5, &[9]).unwrap();
    assert_eq!(dev.0, vec![1, 2, 3, 0, 0, 9]);
    dev.write_at(0, &[]).unwrap();
    assert!(dev.write_at(u64::MAX, &[1]).is_err());
    dev.flush().unwrap();
    assert_eq!(dev.size_bytes(), 6);
    assert!(dev.is_writable());
}

#[test]
fn no_image_stops_a_walk() {
    walk(&[]);
    walk(b"KDMV");
    walk(b"# Disk DescriptorFile\ncreateType=\"monolithicFlat\"\n");
    let mut header = vec![0xFFu8; 4096];
    header[0..4].copy_from_slice(b"KDMV");
    header[4..8].copy_from_slice(&1u32.to_le_bytes());
    walk(&header);
    header[77..79].copy_from_slice(&[0, 0]);
    walk(&header);
}
