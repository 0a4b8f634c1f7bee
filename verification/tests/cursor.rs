//! Reading and writing single values.

use nbs::{NbsError, NbsParser, NbsWriter};

#[test]
fn reads_little_endian_numbers() {
    let bytes = [0x12, 0x34, 0x12, 0x04, 0x03, 0x02, 0x01, 0xFF, 0xFE, 0xFF];
    let mut parser = NbsParser::new(&bytes);
    assert_eq!(parser.read_u8(), Ok(0x12));
    assert_eq!(parser.read_u16(), Ok(0x1234));
    assert_eq!(parser.read_u32(), Ok(0x0102_0304));
    assert_eq!(parser.read_i8(), Ok(-1));
    assert_eq!(parser.read_i16(), Ok(-2));
    assert_eq!(parser.remaining(), 0);
}

#[test]
fn reads_the_largest_and_smallest_numbers() {
    let bytes = [0xFF, 0xFF, 0xFF, 0xFF, 0xFF, 0xFF, 0x7F, 0x80, 0xFF, 0x7F, 0x00, 0x80];
    let mut parser = NbsParser::new(&bytes);
    assert_eq!(parser.read_u32(), Ok(u32::MAX));
    assert_eq!(parser.read_u16(), Ok(u16::MAX));
    assert_eq!(parser.read_i8(), Ok(i8::MAX));
    assert_eq!(parser.read_i8(), Ok(i8::MIN));
    assert_eq!(parser.read_i16(), Ok(i16::MAX));
    assert_eq!(parser.read_i16(), Ok(i16::MIN));
}

#[test]
fn failed_read_leaves_the_position() {
    let bytes = [1, 2, 3];
    let mut parser = NbsParser::new(&bytes);
    assert_eq!(parser.read_u32(), Err(NbsError::UnexpectedEndOfData));
    assert_eq!(parser.remaining(), 3);
    assert_eq!(parser.read_u16(), Ok(0x0201));
    assert_eq!(parser.read_u16(), Err(NbsError::UnexpectedEndOfData));
    assert_eq!(parser.read_i16(), Err(NbsError::UnexpectedEndOfData));
    assert_eq!(parser.remaining(), 1);
    assert_eq!(parser.read_i8(), Ok(3));
    assert_eq!(parser.read_u8(), Err(NbsError::UnexpectedEndOfData));
    assert_eq!(parser.read_i8(), Err(NbsError::UnexpectedEndOfData));
    assert_eq!(parser.remaining(), 0);
}

#[test]
fn reads_a_byte_string() {
    let bytes = [3, 0, 0, 0, b'a', b'b', b'c', 0, 0, 0, 0, 7];
    let mut parser = NbsParser::new(&bytes);
    assert_eq!(parser.read_string(), Ok(b"abc".to_vec()));
    assert_eq!(parser.remaining(), 5);
    assert_eq!(parser.read_string(), Ok(Vec::new()));
    assert_eq!(parser.remaining(), 1);
    assert_eq!(parser.read_string(), Err(NbsError::UnexpectedEndOfData));
    assert_eq!(parser.remaining(), 1);
}

#[test]
fn byte_string_longer_than_the_buffer_is_refused() {
    let bytes = [4, 0, 0, 0, b'a', b'b', b'c'];
    let mut parser = NbsParser::new(&bytes);
    assert_eq!(parser.read_string(), Err(NbsError::UnexpectedEndOfData));
    assert_eq!(parser.remaining(), 7);

    let huge = [0xFF, 0xFF, 0xFF, 0xFF, 1, 2];
    let mut parser = NbsParser::new(&huge);
    assert_eq!(parser.read_string(), Err(NbsError::UnexpectedEndOfData));
    assert_eq!(parser.remaining(), 6);
}

#[test]
fn writes_little_endian_numbers() {
    let mut writer = NbsWriter::new();
    writer.write_u8(0x12);
    writer.write_u16(0x1234);
    writer.write_u32(0x0102_0304);
    writer.write_i8(-1);
    writer.write_i8(-100);
    writer.write_i8(100);
    writer.write_i16(-2);
    writer.write_i16(1200);
    assert_eq!(
        writer.as_bytes(),
        &[0x12, 0x34, 0x12, 0x04, 0x03, 0x02, 0x01, 0xFF, 156, 100, 0xFE, 0xFF, 0xB0, 0x04]
    );
}

#[test]
fn writes_flags_as_one_and_zero() {
    let mut writer = NbsWriter::new();
    writer.write_flag(true);
    writer.write_flag(false);
    assert_eq!(writer.as_bytes(), &[1, 0]);
}

#[test]
fn writes_a_byte_string_with_its_length() {
    let mut writer = NbsWriter::new();
    writer.write_string(b"abc");
    writer.write_string(b"");
    assert_eq!(writer.as_bytes(), &[3, 0, 0, 0, b'a', b'b', b'c', 0, 0, 0, 0]);

    let mut writer = NbsWriter::new();
    writer.write_string(&vec![7u8; 300]);
    assert_eq!(&writer.as_bytes()[0..4], &[0x2C, 0x01, 0, 0]);
    assert_eq!(writer.as_bytes().len(), 304);
}

#[test]
fn every_number_is_read_back() {
    let mut writer = NbsWriter::new();
    for value in [0u16, 1, 255, 256, 0x1234, 0xFFFE, 0xFFFF] {
        writer.write_u16(value);
    }
    for value in [0u32, 1, 0xFF, 0x100, 0xFFFF, 0x1_0000, 0xFF_FFFF, 0x100_0000, u32::MAX] {
        writer.write_u32(value);
    }
    for value in i8::MIN..=i8::MAX {
        writer.write_i8(value);
    }
    for value in [i16::MIN, -1200, -256, -255, -1, 0, 1, 255, 256, 1200, i16::MAX] {
        writer.write_i16(value);
    }
    let mut parser = NbsParser::new(writer.as_bytes());
    for value in [0u16, 1, 255, 256, 0x1234, 0xFFFE, 0xFFFF] {
        assert_eq!(parser.read_u16(), Ok(value));
    }
    for value in [0u32, 1, 0xFF, 0x100, 0xFFFF, 0x1_0000, 0xFF_FFFF, 0x100_0000, u32::MAX] {
        assert_eq!(parser.read_u32(), Ok(value));
    }
    for value in i8::MIN..=i8::MAX {
        assert_eq!(parser.read_i8(), Ok(value));
    }
    for value in [i16::MIN, -1200, -256, -255, -1, 0, 1, 255, 256, 1200, i16::MAX] {
        assert_eq!(parser.read_i16(), Ok(value));
    }
    assert_eq!(parser.remaining(), 0);
}

#[test]
fn bytes_that_are_no_text_are_kept() {
    let name: Vec<u8> = vec![0xFF, 0xFE, 0x00, 0xC3, 0x28, 0x80, b'\n'];
    assert!(String::from_utf8(name.clone()).is_err());
    let mut writer = NbsWriter::new();
    writer.write_string(&name);
    let mut parser = NbsParser::new(writer.as_bytes());
    assert_eq!(parser.read_string(), Ok(name));
}

#[test]
fn writer_starts_empty_and_keeps_what_was_written() {
    let mut writer = NbsWriter::new();
    assert_eq!(writer.as_bytes(), &[] as &[u8]);
    writer.write_u8(1);
    writer.write_u8(2);
    assert_eq!(writer.as_bytes(), &[1, 2]);
}

#[test]
fn cleared_writer_is_empty() {
    let mut writer = NbsWriter::new();
    writer.write_u16(7);
    writer.clear();
    assert_eq!(writer.as_bytes(), &[] as &[u8]);
    writer.write_u8(9);
    assert_eq!(writer.as_bytes(), &[9]);
}
