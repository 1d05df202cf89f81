//! Modbus messages tunnelled through CAN frames.

use wiretap::algorithms::crc16_modbus_checksum;
use wiretap::model::{FrameTunnel, TunnelProtocol};
use wiretap::tunnel::{Direction, ModbusTunnel, TunnelMessage, MAX_BUFFER};

fn tunnel(device_address: Option<u8>) -> ModbusTunnel {
    ModbusTunnel::new(&FrameTunnel {
        protocol: TunnelProtocol::ModbusRtu,
        device_address,
        notes: Vec::new(),
    })
}

fn hex(s: &str) -> Vec<u8> {
    (0..s.len())
        .step_by(2)
        .map(|i| u8::from_str_radix(&s[i..i + 2], 16).unwrap())
        .collect()
}

/// A message body plus the CRC the device would append.
fn with_crc(body: &str) -> Vec<u8> {
    let mut m = hex(body);
    m.extend(crc16_modbus_checksum(&m).to_le_bytes());
    m
}

/// Feed a message the way CAN carries it: split at 8-byte boundaries.
fn push_chunked(t: &mut ModbusTunnel, msg: &[u8]) -> Vec<TunnelMessage> {
    msg.chunks(8).flat_map(|c| t.push(c)).collect()
}

// The four exchanges observed on a Sungrow SBR's CAN 0x1E0.

#[test]
fn tunnel_decodes_read_input_request() {
    let mut t = tunnel(Some(1));
    let msgs = push_chunked(&mut t, &hex("01044DE20002C691"));
    assert_eq!(msgs.len(), 1);
    assert_eq!(msgs[0].direction, Direction::Request);
    assert_eq!(msgs[0].function, 0x04);
    assert_eq!(msgs[0].start_register, Some(0x4DE2));
    assert_eq!(msgs[0].quantity, Some(2));
    assert_eq!(msgs[0].frame_count, 1);
}

#[test]
fn tunnel_decodes_read_input_response_split_8_plus_1() {
    let mut t = tunnel(Some(1));
    push_chunked(&mut t, &hex("01044DE20002C691"));
    let msgs = push_chunked(&mut t, &hex("01040401F40000BB8A"));
    assert_eq!(msgs.len(), 1);
    assert_eq!(msgs[0].direction, Direction::Response);
    assert_eq!(msgs[0].registers, vec![500, 0]);
    // Inherited from the request it answers.
    assert_eq!(msgs[0].start_register, Some(0x4DE2));
    assert_eq!(msgs[0].frame_count, 2);
}

#[test]
fn tunnel_decodes_read_holding_response_split_8_plus_8_plus_1() {
    let mut t = tunnel(Some(1));
    let req = push_chunked(&mut t, &hex("01034DE200067292"));
    assert_eq!(req[0].quantity, Some(6));

    let msgs = push_chunked(&mut t, &hex("01030C01F40000012C000000C80000D570"));
    assert_eq!(msgs.len(), 1);
    assert_eq!(msgs[0].direction, Direction::Response);
    assert_eq!(msgs[0].registers, vec![500, 0, 300, 0, 200, 0]);
    assert_eq!(msgs[0].start_register, Some(0x4DE2));
    assert_eq!(msgs[0].frame_count, 3);
}

#[test]
fn tunnel_register_bytes_are_big_endian() {
    let mut t = tunnel(Some(1));
    push_chunked(&mut t, &hex("01044DE20002C691"));
    let msgs = push_chunked(&mut t, &hex("01040401F40000BB8A"));
    assert_eq!(msgs[0].register_bytes(), hex("01F40000"));
}

#[test]
fn tunnel_a_partial_message_yields_nothing_until_complete() {
    let mut t = tunnel(Some(1));
    assert!(t.push(&hex("01030C01F40000012C")).is_empty());
    assert!(t.push(&hex("000000C80000")).is_empty());
    assert_eq!(t.push(&hex("D570")).len(), 1);
}

#[test]
fn tunnel_resyncs_past_leading_junk() {
    let mut t = tunnel(Some(1));
    // A stray byte that is not the device address is skipped outright.
    let msgs = t.push(&hex("FF01044DE20002C691"));
    assert_eq!(msgs.len(), 1);
    assert_eq!(msgs[0].start_register, Some(0x4DE2));
}

#[test]
fn tunnel_resyncs_past_a_false_address_byte() {
    let mut t = tunnel(Some(1));
    // A leading 0x01 that starts nothing valid must be dropped, not left to
    // block the real message behind it.
    let msgs = t.push(&hex("0101044DE20002C691"));
    assert_eq!(msgs.len(), 1);
    assert_eq!(msgs[0].function, 0x04);
}

#[test]
fn tunnel_back_to_back_messages_in_one_push() {
    let mut t = tunnel(Some(1));
    let msgs = t.push(&hex("01044DE20002C69101040401F40000BB8A"));
    assert_eq!(msgs.len(), 2);
    assert_eq!(msgs[0].direction, Direction::Request);
    assert_eq!(msgs[1].direction, Direction::Response);
    assert_eq!(msgs[1].registers, vec![500, 0]);
}

#[test]
fn tunnel_decodes_exception_response() {
    let mut t = tunnel(Some(1));
    push_chunked(&mut t, &hex("01044DE20002C691"));
    // Illegal data address.
    let msgs = t.push(&with_crc("018402"));
    assert_eq!(msgs.len(), 1);
    assert_eq!(msgs[0].exception, Some(0x02));
    assert_eq!(msgs[0].direction, Direction::Response);
    // It answers the request, so it names the register that failed.
    assert_eq!(msgs[0].start_register, Some(0x4DE2));
}

#[test]
fn tunnel_write_single_pairs_request_then_response() {
    let mut t = tunnel(Some(1));
    let raw = with_crc("0106138800C8");
    let first = t.push(&raw);
    assert_eq!(first[0].direction, Direction::Request);
    assert_eq!(first[0].registers, vec![0xC8]);
    // The echo is byte-identical; only the outstanding request tells them
    // apart.
    let second = t.push(&raw);
    assert_eq!(second[0].direction, Direction::Response);
}

#[test]
fn tunnel_decodes_write_multiple_request_and_response() {
    let mut t = tunnel(Some(1));
    let msgs = push_chunked(&mut t, &with_crc("0110138800020400C801F4"));
    assert_eq!(msgs.len(), 1);
    assert_eq!(msgs[0].direction, Direction::Request);
    assert_eq!(msgs[0].registers, vec![0xC8, 0x01F4]);

    let msgs = t.push(&with_crc("011013880002"));
    assert_eq!(msgs[0].direction, Direction::Response);
    assert_eq!(msgs[0].start_register, Some(0x1388));
}

#[test]
fn tunnel_unconstrained_address_accepts_any_slave() {
    let mut t = tunnel(None);
    let msgs = t.push(&with_crc("2A044DE20002"));
    assert_eq!(msgs.len(), 1);
    assert_eq!(msgs[0].device_address, 42);
}

#[test]
fn tunnel_a_desynced_stream_does_not_grow_without_bound() {
    let mut t = tunnel(Some(1));
    // 0x01 0x07 is a valid address but an unhandled function, so nothing
    // ever completes.
    for _ in 0..500 {
        t.push(&hex("0107010101010101"));
    }
    assert!(t.buffered().len() <= MAX_BUFFER);
}

#[test]
fn tunnel_counts_only_frames_that_brought_bytes_of_the_message() {
    let mut t = tunnel(Some(1));
    assert!(t.push(&[0xFF]).is_empty());
    let msgs = t.push(&hex("01044DE20002C691"));
    assert_eq!(msgs.len(), 1);
    assert_eq!(msgs[0].frame_count, 1);
    // A message that starts behind another one in the same frame spans that frame
    // and the next.
    let mut two = hex("01044DE20002C691");
    two.extend(hex("01040401"));
    assert_eq!(t.push(&two)[0].frame_count, 1);
    let rest = t.push(&hex("F40000BB8A"));
    assert_eq!(rest[0].registers, vec![500, 0]);
    assert_eq!(rest[0].frame_count, 2);
}
