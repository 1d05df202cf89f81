//! Reassembling Modbus RTU messages.

use wiretap::algorithms::crc16_modbus_checksum;
use wiretap::model::{FrameTunnel, TunnelProtocol};
use wiretap::modbus_rtu_stream::{
    CrcPolicy, Direction, ModbusRtuMessage, ModbusRtuStream, MAX_BUFFER,
};

fn strict(device_address: Option<u8>) -> ModbusRtuStream {
    ModbusRtuStream::new(&FrameTunnel {
        protocol: TunnelProtocol::ModbusRtu,
        device_address,
        notes: Vec::new(),
    })
}

fn lenient(device_address: Option<u8>) -> ModbusRtuStream {
    ModbusRtuStream::with_crc_policy(device_address, CrcPolicy::Lenient)
}

fn hex(s: &str) -> Vec<u8> {
    (0..s.len())
        .step_by(2)
        .map(|i| u8::from_str_radix(&s[i..i + 2], 16).unwrap())
        .collect()
}

/// A message body plus the CRC the device would append.
fn with_crc(body: &str) -> Vec<u8> {
    let mut m = hex(body);
    m.extend(crc16_modbus_checksum(&m).to_le_bytes());
    m
}

/// A message body with a CRC that is definitely wrong.
fn with_bad_crc(body: &str) -> Vec<u8> {
    let mut m = with_crc(body);
    *m.last_mut().expect("crc appended") ^= 0xFF;
    m
}

/// Feed a message the way CAN carries it: split at 8-byte boundaries.
fn push_chunked(t: &mut ModbusRtuStream, msg: &[u8]) -> Vec<ModbusRtuMessage> {
    msg.chunks(8).flat_map(|c| t.push(c)).collect()
}

// The four exchanges observed on a Sungrow SBR's CAN 0x1E0.

#[test]
fn modbus_rtu_stream_decodes_read_input_request() {
    let mut t = strict(Some(1));
    let msgs = push_chunked(&mut t, &hex("01044DE20002C691"));
    assert_eq!(msgs.len(), 1);
    assert_eq!(msgs[0].direction, Direction::Request);
    assert_eq!(msgs[0].function, 0x04);
    assert_eq!(msgs[0].start_register, Some(0x4DE2));
    assert_eq!(msgs[0].quantity, Some(2));
    assert_eq!(msgs[0].frame_count, 1);
    assert!(msgs[0].crc_valid);
}

#[test]
fn modbus_rtu_stream_decodes_read_input_response_split_8_plus_1() {
    let mut t = strict(Some(1));
    push_chunked(&mut t, &hex("01044DE20002C691"));
    let msgs = push_chunked(&mut t, &hex("01040401F40000BB8A"));
    assert_eq!(msgs.len(), 1);
    assert_eq!(msgs[0].direction, Direction::Response);
    assert_eq!(msgs[0].registers, vec![500, 0]);
    // Inherited from the request it answers.
    assert_eq!(msgs[0].start_register, Some(0x4DE2));
    assert_eq!(msgs[0].frame_count, 2);
    assert!(msgs[0].crc_valid);
}

#[test]
fn modbus_rtu_stream_decodes_read_holding_response_split_8_plus_8_plus_1() {
    let mut t = strict(Some(1));
    let req = push_chunked(&mut t, &hex("01034DE200067292"));
    assert_eq!(req[0].quantity, Some(6));

    let msgs = push_chunked(&mut t, &hex("01030C01F40000012C000000C80000D570"));
    assert_eq!(msgs.len(), 1);
    assert_eq!(msgs[0].direction, Direction::Response);
    assert_eq!(msgs[0].registers, vec![500, 0, 300, 0, 200, 0]);
    assert_eq!(msgs[0].start_register, Some(0x4DE2));
    assert_eq!(msgs[0].frame_count, 3);
    assert!(msgs[0].crc_valid);
}

#[test]
fn modbus_rtu_stream_register_bytes_are_big_endian() {
    let mut t = strict(Some(1));
    push_chunked(&mut t, &hex("01044DE20002C691"));
    let msgs = push_chunked(&mut t, &hex("01040401F40000BB8A"));
    assert_eq!(msgs[0].register_bytes(), hex("01F40000"));
}

#[test]
fn modbus_rtu_stream_a_partial_message_yields_nothing_until_complete() {
    let mut t = strict(Some(1));
    assert!(t.push(&hex("01030C01F40000012C")).is_empty());
    assert!(t.push(&hex("000000C80000")).is_empty());
    assert_eq!(t.push(&hex("D570")).len(), 1);
}

#[test]
fn modbus_rtu_stream_resyncs_past_leading_junk() {
    let mut t = strict(Some(1));
    // A stray byte that is not the device address is skipped outright.
    let msgs = t.push(&hex("FF01044DE20002C691"));
    assert_eq!(msgs.len(), 1);
    assert_eq!(msgs[0].start_register, Some(0x4DE2));
}

#[test]
fn modbus_rtu_stream_resyncs_past_a_false_address_byte() {
    let mut t = strict(Some(1));
    // A leading 0x01 that starts nothing valid must be dropped, not left to
    // block the real message behind it.
    let msgs = t.push(&hex("0101044DE20002C691"));
    assert_eq!(msgs.len(), 1);
    assert_eq!(msgs[0].function, 0x04);
}

#[test]
fn modbus_rtu_stream_back_to_back_messages_in_one_push() {
    let mut t = strict(Some(1));
    let msgs = t.push(&hex("01044DE20002C69101040401F40000BB8A"));
    assert_eq!(msgs.len(), 2);
    assert_eq!(msgs[0].direction, Direction::Request);
    assert_eq!(msgs[1].direction, Direction::Response);
    assert_eq!(msgs[1].registers, vec![500, 0]);
}

#[test]
fn modbus_rtu_stream_decodes_exception_response() {
    let mut t = strict(Some(1));
    push_chunked(&mut t, &hex("01044DE20002C691"));
    // Illegal data address.
    let msgs = t.push(&with_crc("018402"));
    assert_eq!(msgs.len(), 1);
    assert_eq!(msgs[0].exception, Some(0x02));
    assert_eq!(msgs[0].direction, Direction::Response);
    // It answers the request, so it names the register that failed.
    assert_eq!(msgs[0].start_register, Some(0x4DE2));
}

#[test]
fn modbus_rtu_stream_write_single_pairs_request_then_response() {
    let mut t = strict(Some(1));
    let raw = with_crc("0106138800C8");
    let first = t.push(&raw);
    assert_eq!(first[0].direction, Direction::Request);
    assert_eq!(first[0].registers, vec![0xC8]);
    // The echo is byte-identical; only the outstanding request tells them
    // apart.
    let second = t.push(&raw);
    assert_eq!(second[0].direction, Direction::Response);
}

#[test]
fn modbus_rtu_stream_decodes_write_multiple_request_and_response() {
    let mut t = strict(Some(1));
    let msgs = push_chunked(&mut t, &with_crc("0110138800020400C801F4"));
    assert_eq!(msgs.len(), 1);
    assert_eq!(msgs[0].direction, Direction::Request);
    assert_eq!(msgs[0].registers, vec![0xC8, 0x01F4]);

    let msgs = t.push(&with_crc("011013880002"));
    assert_eq!(msgs[0].direction, Direction::Response);
    assert_eq!(msgs[0].start_register, Some(0x1388));
}

#[test]
fn modbus_rtu_stream_unconstrained_address_accepts_any_slave() {
    let mut t = strict(None);
    let msgs = t.push(&with_crc("2A044DE20002"));
    assert_eq!(msgs.len(), 1);
    assert_eq!(msgs[0].device_address, 42);
}

#[test]
fn modbus_rtu_stream_a_desynced_stream_does_not_grow_without_bound() {
    let mut t = strict(Some(1));
    // 0x01 0x07 is a valid address but an unhandled function, so nothing
    // ever completes.
    for _ in 0..500 {
        t.push(&hex("0107010101010101"));
    }
    assert!(t.buffered().len() <= MAX_BUFFER);
}

#[test]
fn for_address_matches_the_catalogue_constructor() {
    let stream = with_crc("01044DE20002");
    let declared = strict(Some(1)).push_bytes(&stream);
    let bare = ModbusRtuStream::for_address(Some(1)).push_bytes(&stream);
    assert_eq!(declared, bare);
    assert_eq!(declared.len(), 1);
}

// ---- Lenient CRC policy ----

#[test]
fn lenient_emits_the_bad_crc_message_strict_discards() {
    let bytes = with_bad_crc("01040401F40000");
    assert!(strict(Some(1)).push_bytes(&bytes).is_empty());

    let msgs = lenient(Some(1)).push_bytes(&bytes);
    assert_eq!(msgs.len(), 1);
    assert!(!msgs[0].crc_valid);
    // The boundary came from the length rules, so the block still decodes.
    assert_eq!(msgs[0].registers, vec![500, 0]);
}

#[test]
fn lenient_still_prefers_a_valid_crc_candidate() {
    // An 8-byte read request whose CRC is good sits inside the buffer at the
    // same head as a longer response candidate that is not valid. The valid
    // one must win outright rather than the guess consuming it.
    let mut t = lenient(Some(1));
    let msgs = t.push_bytes(&with_crc("01044DE20002"));
    assert_eq!(msgs.len(), 1);
    assert!(msgs[0].crc_valid);
    assert_eq!(msgs[0].start_register, Some(0x4DE2));
}

#[test]
fn lenient_waits_for_the_longest_candidate_before_guessing() {
    let mut t = lenient(Some(1));
    // Eight bytes of a 17-byte FC03 response. The 8-byte request candidate
    // fits, but the response candidate could still be completed, so nothing
    // may be emitted yet.
    assert!(t.push_bytes(&hex("01030C01F40000012C")).is_empty());
}

#[test]
fn lenient_recovers_after_a_bad_crc_message() {
    let mut t = lenient(Some(1));
    let mut stream = with_bad_crc("01044DE20002");
    stream.extend(with_crc("01040401F40000"));
    let msgs = t.push_bytes(&stream);
    assert_eq!(msgs.len(), 2);
    assert!(!msgs[0].crc_valid);
    assert!(msgs[1].crc_valid);
    assert_eq!(msgs[1].registers, vec![500, 0]);
}

#[test]
fn lenient_rejects_an_implausible_byte_count() {
    // An FC04 response claiming an odd byte count cannot be real: registers
    // are two bytes each. Without the plausibility gate this fabricates a
    // message.
    let mut t = lenient(Some(1));
    assert!(t.push_bytes(&with_bad_crc("01040301F400")).is_empty());
    // And a zero byte count.
    let mut t = lenient(Some(1));
    assert!(t.push_bytes(&with_bad_crc("010400")).is_empty());
}

#[test]
fn lenient_rejects_a_write_multiple_whose_count_contradicts_its_quantity() {
    // Claims two registers but carries six bytes, so the 15-byte request
    // reading contradicts itself and must never be emitted. (The shorter
    // response reading of the same head has nothing left to contradict; a
    // guess is a guess, and it is flagged as one.)
    let mut t = lenient(Some(1));
    let msgs = t.push_bytes(&with_bad_crc("0110138800020600C801F40000"));
    assert!(msgs.iter().all(|m| m.raw.len() != 15), "{msgs:?}");
    assert!(msgs.iter().all(|m| !m.crc_valid));
}

#[test]
fn lenient_drops_a_byte_when_no_candidate_exists() {
    // 0x07 is an unhandled function, so there is nothing to guess at; the
    // real message behind it must still be found.
    let mut t = lenient(Some(1));
    let mut stream = hex("0107");
    stream.extend(with_crc("01044DE20002"));
    let msgs = t.push_bytes(&stream);
    assert_eq!(msgs.len(), 1);
    assert!(msgs[0].crc_valid);
    assert_eq!(msgs[0].function, 0x04);
}

// ---- interpret: one already-framed message ----

/// Without a CRC to vouch for it, a candidate whose own header contradicts
/// itself is not a message. Five bytes opening like an address and a read
/// function code match the `5 + byte_count` response layout with a byte
/// count of zero — which no device sends.
#[test]
fn interpret_rejects_an_implausible_message_with_a_bad_crc() {
    let mut t = ModbusRtuStream::for_address(Some(1));
    assert!(t.interpret(&hex("0103006B00")).is_none());
}

/// A CRC that agrees still wins, whatever the length table makes of it.
#[test]
fn interpret_trusts_a_valid_crc_over_the_length_table() {
    let mut t = ModbusRtuStream::for_address(Some(1));
    let framed = with_crc("010300");
    assert!(t.interpret(&framed).is_some());
}

#[test]
fn interpret_reads_one_framed_request() {
    let mut t = ModbusRtuStream::for_address(Some(1));
    let msg = t.interpret(&hex("01044DE20002C691")).unwrap();
    assert_eq!(msg.direction, Direction::Request);
    assert_eq!(msg.start_register, Some(0x4DE2));
    assert_eq!(msg.quantity, Some(2));
    assert_eq!(msg.frame_count, 1);
    assert!(msg.crc_valid);
}

#[test]
fn interpret_pairs_a_response_with_the_preceding_request() {
    let mut t = ModbusRtuStream::for_address(Some(1));
    t.interpret(&hex("01044DE20002C691")).unwrap();
    let msg = t.interpret(&hex("01040401F40000BB8A")).unwrap();
    assert_eq!(msg.direction, Direction::Response);
    assert_eq!(msg.registers, vec![500, 0]);
    assert_eq!(msg.start_register, Some(0x4DE2));
}

#[test]
fn interpret_resolves_write_single_direction_from_the_outstanding_request() {
    let mut t = ModbusRtuStream::for_address(Some(1));
    let raw = with_crc("0106138800C8");
    assert_eq!(t.interpret(&raw).unwrap().direction, Direction::Request);
    assert_eq!(t.interpret(&raw).unwrap().direction, Direction::Response);
}

#[test]
fn interpret_rejects_a_length_no_candidate_explains() {
    let mut t = ModbusRtuStream::for_address(Some(1));
    assert!(t.interpret(&hex("01044DE2000200")).is_none());
    assert!(t.interpret(&hex("0104")).is_none());
    // Wrong slave.
    assert!(t.interpret(&hex("02044DE20002B441")).is_none());
}

#[test]
fn interpret_flags_a_bad_crc_rather_than_rejecting_it() {
    // The caller supplied the boundary, so the CRC is a verdict, not a gate
    // — in either policy.
    for mut t in [ModbusRtuStream::for_address(Some(1)), lenient(Some(1))] {
        let msg = t.interpret(&with_bad_crc("01044DE20002")).unwrap();
        assert!(!msg.crc_valid);
        assert_eq!(msg.start_register, Some(0x4DE2));
    }
}

#[test]
fn interpret_prefers_the_request_reading_when_lengths_collide() {
    // An FC01 response for 17..=24 coils packs into 3 bytes, making it 8
    // bytes long — exactly a request. Both paths must read it the same way.
    let raw = with_crc("010103010203");
    let framed = ModbusRtuStream::for_address(Some(1))
        .interpret(&raw)
        .unwrap()
        .direction;
    let streamed = ModbusRtuStream::for_address(Some(1)).push_bytes(&raw)[0].direction;
    assert_eq!(framed, streamed);
    assert_eq!(framed, Direction::Request);
}

#[test]
fn interpret_leaves_the_buffer_untouched() {
    let mut t = ModbusRtuStream::for_address(Some(1));
    // Half a message in the reassembly buffer.
    t.push_bytes(&hex("01030C01F40000012C"));
    let buffered = t.buffered().to_vec();
    t.interpret(&hex("01044DE20002C691")).unwrap();
    assert_eq!(t.buffered().to_vec(), buffered);
}

// ---- byte streams and end of stream ----

#[test]
fn push_bytes_reassembles_a_message_fed_one_byte_at_a_time() {
    let mut t = ModbusRtuStream::for_address(Some(1));
    let raw = hex("01030C01F40000012C000000C80000D570");
    let msgs: Vec<_> = raw.iter().flat_map(|b| t.push_bytes(&[*b])).collect();
    assert_eq!(msgs.len(), 1);
    assert_eq!(msgs[0].registers, vec![500, 0, 300, 0, 200, 0]);
    // 17 separate pushes, and still one message spanning no frames at all.
    assert_eq!(msgs[0].frame_count, 1);
}

#[test]
fn back_to_back_messages_fed_one_byte_at_a_time() {
    let mut t = ModbusRtuStream::for_address(Some(1));
    let mut stream = with_crc("01044DE20002");
    stream.extend(with_crc("01040401F40000"));
    let msgs: Vec<_> = stream.iter().flat_map(|b| t.push_bytes(&[*b])).collect();
    assert_eq!(msgs.len(), 2);
    assert_eq!(msgs[1].registers, vec![500, 0]);
    let (rest, residue) = t.finish();
    assert!(rest.is_empty());
    assert!(residue.is_empty());
}

#[test]
fn finish_emits_a_candidate_the_wait_for_longest_rule_withheld() {
    let mut t = lenient(Some(1));
    // A complete but CRC-invalid 8-byte read request whose third byte also
    // reads as a plausible `byte_count` of 4, so a 9-byte response candidate
    // might still arrive. Mid-stream that candidate earns the wait.
    assert!(t.push_bytes(&with_bad_crc("010304000002")).is_empty());
    // At end of stream it never will, so the guess is finally made.
    let (msgs, residue) = t.finish();
    assert_eq!(msgs.len(), 1);
    assert!(!msgs[0].crc_valid);
    assert_eq!(msgs[0].raw.len(), 8);
    assert!(residue.is_empty());
}

#[test]
fn finish_reports_a_truncated_message_whole() {
    let mut t = ModbusRtuStream::for_address(Some(1));
    // Nine bytes of a 17-byte response: not a message, and not noise either.
    let partial = hex("01030C01F40000012C00");
    t.push_bytes(&partial);
    let (msgs, residue) = t.finish();
    assert!(msgs.is_empty());
    assert_eq!(residue, partial);
    // And the buffer is now empty.
    assert!(t.buffered().is_empty());
}

#[test]
fn finish_recovers_a_message_then_reports_the_residue() {
    let mut t = ModbusRtuStream::for_address(Some(1));
    let mut stream = with_crc("01044DE20002");
    stream.extend(hex("010401"));
    let streamed = t.push_bytes(&stream);
    let (finished, residue) = t.finish();
    // The valid message came out as soon as its CRC closed; the trailing
    // three bytes are not a message and are handed back whole.
    assert_eq!(streamed.len(), 1);
    assert_eq!(streamed[0].start_register, Some(0x4DE2));
    assert!(finished.is_empty());
    assert_eq!(residue, hex("010401"));
}

#[test]
fn finish_is_idempotent() {
    let mut t = ModbusRtuStream::for_address(Some(1));
    t.push_bytes(&hex("01030C01F4"));
    let first = t.finish();
    assert!(!first.1.is_empty());
    assert_eq!(t.finish(), (Vec::new(), Vec::new()));
}

#[test]
fn interpret_counts_one_frame_whatever_is_buffered() {
    let mut t = ModbusRtuStream::for_address(Some(1));
    assert!(t.push(&hex("01030C01F4000001")).is_empty());
    assert!(t.push(&hex("2C000000")).is_empty());
    let msg = t.interpret(&hex("01044DE20002C691")).unwrap();
    assert_eq!(msg.direction, Direction::Request);
    assert_eq!(msg.start_register, Some(0x4DE2));
    assert_eq!(msg.quantity, Some(2));
    assert!(msg.crc_valid);
    assert_eq!(msg.frame_count, 1);
    // The buffered frames still count for the message they belong to.
    assert_eq!(t.push(&hex("C80000D570"))[0].frame_count, 3);
}

#[test]
fn only_frames_that_brought_bytes_of_a_message_count() {
    let mut t = ModbusRtuStream::for_address(Some(1));
    assert!(t.push(&[0xFF]).is_empty());
    assert!(t.push(&[0xFE, 0xFD]).is_empty());
    let msgs = t.push(&hex("01044DE20002C691"));
    assert_eq!(msgs[0].frame_count, 1);
    // Raw bytes that complete a message add no frame.
    let mut u = ModbusRtuStream::for_address(Some(1));
    assert!(u.push(&hex("01044D")).is_empty());
    assert!(u.push(&hex("E2")).is_empty());
    assert_eq!(u.push_bytes(&hex("0002C691"))[0].frame_count, 1);
}

#[test]
fn policies_agree_on_a_stream_of_correct_messages() {
    let messages = [
        with_crc("01044DE20002"),
        with_crc("01040401F40000"),
        with_crc("018302"),
        with_crc("0110000100020400010002"),
        with_crc("011000010002"),
    ];
    let stream: Vec<u8> = messages.concat();
    for size in 1..=stream.len() {
        let mut rigid = strict(Some(1));
        let mut calm = lenient(Some(1));
        let a: Vec<_> = stream.chunks(size).flat_map(|c| rigid.push(c)).collect();
        let b: Vec<_> = stream.chunks(size).flat_map(|c| calm.push(c)).collect();
        assert_eq!(a, b);
        assert!(a.iter().all(|m| m.crc_valid));
        let raws: Vec<_> = a.iter().map(|m| m.raw.clone()).collect();
        assert_eq!(raws, messages);
        assert!(rigid.buffered().is_empty() && calm.buffered().is_empty());
    }
}
