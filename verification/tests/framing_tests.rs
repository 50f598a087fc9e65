use esp_loader::checksum::{checksum, CHECKSUM_SEED};
use esp_loader::framing::{
    decode, encode, frame_end, FramingError, END, ESC, ESC_END, ESC_ESC,
};
use esp_loader::packet::{
    command_frame, command_packet, parse_response, push_le16, push_le32, Command, ProtocolError,
    ResponseHeader,
};

#[test]
fn encode_plain_payload() {
    assert_eq!(encode(&[1, 2, 3]), vec![END, 1, 2, 3, END]);
}

#[test]
fn encode_empty_payload() {
    assert_eq!(encode(&[]), vec![END, END]);
}

#[test]
fn encode_escapes_reserved_bytes() {
    assert_eq!(
        encode(&[0x01, 0xC0, 0xDB, 0x02]),
        vec![END, 0x01, ESC, ESC_END, ESC, ESC_ESC, 0x02, END]
    );
}

#[test]
fn decode_unescapes() {
    let raw = [0xC0, 0x01, 0xDB, 0xDC, 0xDB, 0xDD, 0x03, 0xC0];
    assert_eq!(decode(&raw), Ok(vec![0x01, 0xC0, 0xDB, 0x03]));
}

#[test]
fn decode_takes_the_first_frame_only() {
    let raw = [0xC0, 0x01, 0x02, 0xC0, 0xC0, 0x09, 0xC0];
    assert_eq!(decode(&raw), Ok(vec![0x01, 0x02]));
}

#[test]
fn round_trip_of_every_byte_value() {
    let all: Vec<u8> = (0..=255u8).collect();
    assert_eq!(decode(&encode(&all)), Ok(all));
}

#[test]
fn round_trip_of_reserved_bytes() {
    let payload = vec![END, ESC, ESC_END, ESC_ESC, END, END, ESC, ESC];
    assert_eq!(decode(&encode(&payload)), Ok(payload));
}

#[test]
fn round_trip_of_empty_payload() {
    assert_eq!(decode(&encode(&[])), Ok(vec![]));
}

#[test]
fn round_trip_of_long_payload() {
    let payload: Vec<u8> = (0..5000u32).map(|i| (i % 251) as u8).collect();
    assert_eq!(decode(&encode(&payload)), Ok(payload));
}

#[test]
fn decode_rejects_bad_escape() {
    assert_eq!(decode(&[0xC0, 0x01, 0xDB, 0x01, 0xC0]), Err(FramingError::Malformed));
}

#[test]
fn decode_rejects_escaped_sentinel() {
    assert_eq!(decode(&[0xC0, 0x01, 0xDB, 0xC0]), Err(FramingError::Malformed));
}

#[test]
fn decode_rejects_unterminated_frame() {
    assert_eq!(decode(&[0xC0, 0x01, 0x02]), Err(FramingError::Truncated));
}

#[test]
fn decode_rejects_no_bytes() {
    assert_eq!(decode(&[]), Err(FramingError::Truncated));
}

#[test]
fn decode_rejects_a_lone_sentinel() {
    assert_eq!(decode(&[0xC0]), Err(FramingError::Truncated));
}

#[test]
fn decode_of_sentinels_alone_is_the_empty_payload() {
    assert_eq!(decode(&[0xC0, 0xC0]), Ok(vec![]));
    assert_eq!(decode(&[0xC0, 0xC0, 0xC0]), Ok(vec![]));
}

#[test]
fn decode_rejects_frame_that_ends_in_escape() {
    assert_eq!(decode(&[0xC0, 0x01, 0xDB]), Err(FramingError::Truncated));
}

#[test]
fn checksum_of_nothing_is_the_seed() {
    assert_eq!(checksum(&[], CHECKSUM_SEED), 0xEF);
}

#[test]
fn checksum_exact_value() {
    assert_eq!(checksum(&[0x01, 0x02, 0x04], 0xEF), 0xE8);
    assert_eq!(checksum(&[0xEF], 0xEF), 0x00);
    assert_eq!(checksum(&[0xFF, 0x0F], 0x00), 0xF0);
}

#[test]
fn checksum_ignores_order() {
    let a = [0x10, 0x22, 0x35, 0x47, 0x22];
    let b = [0x22, 0x47, 0x10, 0x22, 0x35];
    assert_eq!(checksum(&a, CHECKSUM_SEED), checksum(&b, CHECKSUM_SEED));
}

#[test]
fn checksum_ignores_zero_padding() {
    assert_eq!(checksum(&[7, 9, 0, 0], CHECKSUM_SEED), checksum(&[7, 9], CHECKSUM_SEED));
}

#[test]
fn opcodes() {
    assert_eq!(Command::FlashBegin.opcode(), 0x02);
    assert_eq!(Command::FlashData.opcode(), 0x03);
    assert_eq!(Command::FlashEnd.opcode(), 0x04);
    assert_eq!(Command::MemBegin.opcode(), 0x05);
    assert_eq!(Command::MemEnd.opcode(), 0x06);
    assert_eq!(Command::MemData.opcode(), 0x07);
    assert_eq!(Command::Sync.opcode(), 0x08);
    assert_eq!(Command::WriteReg.opcode(), 0x09);
    assert_eq!(Command::ReadReg.opcode(), 0x0a);
}

#[test]
fn little_endian_fields() {
    let mut out = vec![0xAA];
    push_le16(&mut out, 0x1234);
    push_le32(&mut out, 0x40100010);
    assert_eq!(out, vec![0xAA, 0x34, 0x12, 0x10, 0x00, 0x10, 0x40]);
    let mut wide = Vec::new();
    push_le32(&mut wide, 0xDEADBEEF);
    assert_eq!(wide, 0xDEADBEEFu32.to_le_bytes().to_vec());
}

#[test]
fn command_packet_layout() {
    let packet = command_packet(Command::MemData, &[9, 8, 7], 0x000000A5).unwrap();
    assert_eq!(packet, vec![0x00, 0x07, 0x03, 0x00, 0xA5, 0x00, 0x00, 0x00, 9, 8, 7]);
}

#[test]
fn command_packet_length_limit() {
    let longest = vec![0u8; 0xFFFF];
    let packet = command_packet(Command::MemData, &longest, 0).unwrap();
    assert_eq!(&packet[2..4], &[0xFF, 0xFF]);
    assert_eq!(packet.len(), 8 + 0xFFFF);
    let too_long = vec![0u8; 0x10000];
    assert_eq!(command_packet(Command::MemData, &too_long, 0), None);
    assert_eq!(command_frame(Command::MemData, &too_long, 0), None);
}

#[test]
fn command_frame_is_the_encoded_packet() {
    let frame = command_frame(Command::Sync, &[0xC0, 0x01], 0).unwrap();
    assert_eq!(
        frame,
        vec![0xC0, 0x00, 0x08, 0x02, 0x00, 0x00, 0x00, 0x00, 0x00, 0xDB, 0xDC, 0x01, 0xC0]
    );
    assert_eq!(
        decode(&frame),
        Ok(command_packet(Command::Sync, &[0xC0, 0x01], 0).unwrap())
    );
}

#[test]
fn parse_response_reads_every_field() {
    let frame = [0x01, 0x08, 0x02, 0x01, 0x78, 0x56, 0x34, 0x12, 0x01, 0x05];
    assert_eq!(
        parse_response(&frame),
        Some(ResponseHeader {
            direction: 1,
            opcode: 8,
            length: 0x0102,
            value: 0x12345678,
            status: 1,
            error: 5
        })
    );
}

#[test]
fn parse_response_of_bare_header() {
    let frame = [0x01, 0x05, 0x00, 0x00, 0xFF, 0xFF, 0xFF, 0xFF];
    assert_eq!(
        parse_response(&frame),
        Some(ResponseHeader {
            direction: 1,
            opcode: 5,
            length: 0,
            value: 0xFFFFFFFF,
            status: 0,
            error: 0
        })
    );
}

#[test]
fn parse_response_rejects_short_frames() {
    assert_eq!(parse_response(&[]), None);
    assert_eq!(parse_response(&[1, 5, 0, 0, 0, 0, 0]), None);
}

#[test]
fn header_check() {
    let ok = ResponseHeader { direction: 1, opcode: 5, length: 2, value: 0, status: 0, error: 9 };
    assert_eq!(ok.check(), Ok(()));
    let bad = ResponseHeader { direction: 1, opcode: 5, length: 2, value: 0, status: 1, error: 7 };
    assert_eq!(bad.check(), Err(ProtocolError::DeviceError(1, 7)));
}

#[test]
fn frame_end_finds_the_closing_sentinel() {
    assert_eq!(frame_end(&[]), None);
    assert_eq!(frame_end(&[0xC0]), None);
    assert_eq!(frame_end(&[0xC0, 0xC0, 0xC0]), None);
    assert_eq!(frame_end(&[0xC0, 0x01, 0x02]), None);
    assert_eq!(frame_end(&[0xC0, 0x01, 0x02, 0xC0]), Some(4));
    assert_eq!(frame_end(&[0x01, 0xC0, 0x02, 0xC0]), Some(2));
    assert_eq!(frame_end(&[0xC0, 0xC0, 0x01, 0xC0, 0xC0, 0x05, 0xC0]), Some(4));
    assert_eq!(frame_end(&encode(&[0xC0, 0xDB, 0x00])), Some(7));
}
