use file_compressor::bitreader::BitReader;
use file_compressor::bitwriter::BitWriter;
use file_compressor::error::Error;

#[test]
fn bits_come_back_with_zero_padding() {
    let bits = [true, false, true, true, false, false, true, false, true, true, true];
    let mut writer = BitWriter::new(Vec::new());
    for bit in bits {
        writer.write_bit(bit);
    }
    let bytes = writer.into_inner();
    assert_eq!(bytes, vec![0b1011_0010, 0b1110_0000]);

    let mut reader = BitReader::new(&bytes);
    for bit in bits {
        assert_eq!(reader.read_bit(), Ok(bit as u8));
    }
    for _ in 0..5 {
        assert_eq!(reader.read_bit(), Ok(0));
    }
    assert_eq!(reader.read_bit(), Err(Error::EndOfStream));
    assert_eq!(reader.read_bit(), Err(Error::EndOfStream));
}

#[test]
fn byte_goes_to_the_sink_only_when_full() {
    let mut writer = BitWriter::new(vec![0xAA]);
    for _ in 0..7 {
        writer.write_bit(true);
    }
    writer.flush();
    writer.flush();
    assert_eq!(writer.into_inner(), vec![0xAA, 0b1111_1110]);
}

#[test]
fn integers_are_big_endian() {
    let mut writer = BitWriter::new(Vec::new());
    writer.write_u8(0xA5);
    writer.write_u16(0x1234);
    writer.write_bit(true);
    writer.write_u8(0xFF);
    let bytes = writer.into_inner();
    assert_eq!(bytes, vec![0xA5, 0x12, 0x34, 0xFF, 0x80]);

    let mut reader = BitReader::new(&bytes);
    assert_eq!(reader.read_byte(), Ok(0xA5));
    assert_eq!(reader.read_u16(), Ok(0x1234));
    assert_eq!(reader.read_bit(), Ok(1));
    assert_eq!(reader.read_byte(), Ok(0xFF));
    assert_eq!(reader.read_u16(), Err(Error::EndOfStream));
    assert_eq!(reader.read_bit(), Err(Error::EndOfStream));
}

#[test]
fn short_reads_report_end_of_stream() {
    let bytes = [0x80u8];
    let mut reader = BitReader::new(&bytes);
    assert_eq!(reader.read_bit(), Ok(1));
    assert_eq!(reader.read_byte(), Err(Error::EndOfStream));
    assert_eq!(reader.read_bit(), Err(Error::EndOfStream));

    let empty: [u8; 0] = [];
    let mut reader = BitReader::new(&empty);
    assert_eq!(reader.read_bit(), Err(Error::EndOfStream));
    assert_eq!(reader.read_byte(), Err(Error::EndOfStream));
    assert_eq!(reader.read_u16(), Err(Error::EndOfStream));
}

#[test]
fn sixty_four_bit_words_are_big_endian() {
    let mut writer = BitWriter::new(Vec::new());
    writer.write_bit(false);
    writer.write_u64(0x0123_4567_89AB_CDEF);
    let bytes = writer.into_inner();
    assert_eq!(bytes, vec![0x00, 0x91, 0xA2, 0xB3, 0xC4, 0xD5, 0xE6, 0xF7, 0x80]);
    let mut reader = BitReader::new(&bytes);
    assert_eq!(reader.read_bit(), Ok(0));
    assert_eq!(reader.read_u64(), Ok(0x0123_4567_89AB_CDEF));
    assert_eq!(reader.read_u64(), Err(Error::EndOfStream));
    assert_eq!(reader.read_bit(), Err(Error::EndOfStream));
}
