//! Round trips through the memory-value codec and a synthetic emulator
//! transcript, plus the decoder's failure modes.

use emutest::decoder::{ProtocolError, RunResult};
use emutest::emulator::MemoryData;

/// One register-dump field: a six-byte name prefix (free of `h`) and the
/// value in fixed-width hex (lowercase hex never contains `h`).
fn reg_field(v: u32) -> String {
    format!("NAMEX-{:08x}", v)
}

/// A register-dump line holding the given values as `h`-separated fields.
fn reg_line(vs: &[u32]) -> String {
    vs.iter().map(|v| reg_field(*v)).collect::<Vec<_>>().join("h")
}

/// A dump row: a 17-byte address prefix, then one 13-byte column per word
/// starting at `first_shift`, each showing the stored word byte-swapped as
/// the console does. Columns before `first_shift` are zero-filled.
fn dump_row(words: &[u32], first_shift: usize) -> String {
    let mut line = String::from("ADDR:0x000000000 ");
    assert_eq!(line.len(), 17);
    let mut cols: Vec<u32> = vec![0; first_shift];
    cols.extend_from_slice(words);
    for (i, w) in cols.iter().enumerate() {
        line += &format!("{:08x}", w.swap_bytes());
        if i + 1 < cols.len() {
            line += "     ";
        }
    }
    line
}

fn to_lines(v: Vec<String>) -> Vec<Vec<u8>> {
    v.into_iter().map(|s| s.into_bytes()).collect()
}

/// A transcript with `skip` acknowledgement lines, the two special-register
/// lines, eight register-dump lines, and the given dump sections.
fn transcript(skip: usize, regs: &[u32], dumps: Vec<Vec<String>>) -> Vec<Vec<u8>> {
    let mut lines: Vec<String> = Vec::new();
    for i in 0..skip {
        lines.push(format!("ack line {i}"));
    }
    lines.push("special register A".to_string());
    lines.push("special register B".to_string());
    lines.push(reg_line(regs));
    for _ in 0..7 {
        lines.push(String::new());
    }
    for rows in dumps {
        lines.push("header one".to_string());
        lines.push("header two".to_string());
        for row in rows {
            lines.push(row);
        }
    }
    to_lines(lines)
}

/// Encodes a value with the codec, feeds it through a synthetic transcript
/// at `addr`, decodes, and returns the observation.
fn round_trip(value: &MemoryData, addr: u32) -> MemoryData {
    let words = match value.words() {
        Ok(ws) => ws,
        Err(()) => panic!("value has no word image"),
    };
    let len = value.len_real();
    let first_shift = ((addr % 16) / 4) as usize;
    let rows_needed = ((len as u64 + 15) / 16) as usize;
    let mut rows = Vec::new();
    let per_first_row = 4 - first_shift;
    let mut taken = 0usize;
    for r in 0..rows_needed {
        let shift = if r == 0 { first_shift } else { 0 };
        let capacity = if r == 0 { per_first_row } else { 4 };
        let end = (taken + capacity).min(words.len());
        rows.push(dump_row(&words[taken..end], shift));
        taken = end;
    }
    let lines = transcript(0, &[], vec![rows]);
    let requests = vec![(addr, len)];
    let rr = RunResult::decode(&lines, 0, &requests).expect("decode");
    rr.get_mem(addr).expect("observation").clone()
}

#[test]
fn word_round_trips_at_word_alignment() {
    let got = round_trip(&MemoryData::Word(0xdead_beef), 0x1000);
    assert_eq!(got, MemoryData::Word(0xdead_beef));
}

#[test]
fn word_round_trips_at_second_column() {
    let got = round_trip(&MemoryData::Word(0x1234_5678), 0x1004);
    assert_eq!(got, MemoryData::Word(0x1234_5678));
}

#[test]
fn double_word_round_trips_at_eight_alignment() {
    let got = round_trip(&MemoryData::DoubleWord(0x0102_0304_0506_0708), 0x1008);
    assert_eq!(got, MemoryData::DoubleWord(0x0102_0304_0506_0708));
}

#[test]
fn bytes_round_trip_with_padding_cut_off() {
    let b = vec![1u8, 2, 3, 4, 5];
    let got = round_trip(&MemoryData::Bytes(b.clone()), 0x1000);
    assert_eq!(got, MemoryData::Bytes(b));
}

#[test]
fn bytes_round_trip_across_two_rows() {
    let b: Vec<u8> = (0..20).collect();
    let got = round_trip(&MemoryData::Bytes(b.clone()), 0x1000);
    assert_eq!(got, MemoryData::Bytes(b));
}

#[test]
fn text_reads_back_as_its_stored_word() {
    // A three-byte text takes four bytes with its NUL, so the decode of its
    // observation is the word those bytes form.
    let t = MemoryData::Text(b"abc".to_vec());
    let got = round_trip(&t, 0x1000);
    assert_eq!(got, MemoryData::Word(u32::from_le_bytes(*b"abc\0")));
}

#[test]
fn byte_is_read_at_its_offset_in_the_word() {
    // The dump word covering 0x1003 holds the byte in its highest lane.
    let stored = 0xab12_3456u32;
    let lines = transcript(0, &[], vec![vec![dump_row(&[stored], 0)]]);
    let requests = vec![(0x1003u32, 1u32)];
    let rr = RunResult::decode(&lines, 0, &requests).expect("decode");
    assert_eq!(rr.get_mem(0x1003), Some(&MemoryData::Byte(0xab)));
}

#[test]
fn half_word_is_read_from_the_low_half() {
    let stored = 0x1234_abcdu32;
    let lines = transcript(0, &[], vec![vec![dump_row(&[stored], 0)]]);
    let requests = vec![(0x1000u32, 2u32)];
    let rr = RunResult::decode(&lines, 0, &requests).expect("decode");
    assert_eq!(rr.get_mem(0x1000), Some(&MemoryData::HalfWord(0xabcd)));
}

#[test]
fn registers_are_assigned_in_field_order_from_one() {
    let lines = transcript(3, &[0x11, 0x22, 0x33], vec![]);
    let rr = RunResult::decode(&lines, 3, &vec![]).expect("decode");
    let r0 = emutest::emulator::GPRegister::new(0).unwrap();
    let r1 = emutest::emulator::GPRegister::new(1).unwrap();
    let r2 = emutest::emulator::GPRegister::new(2).unwrap();
    let r3 = emutest::emulator::GPRegister::new(3).unwrap();
    let r4 = emutest::emulator::GPRegister::new(4).unwrap();
    assert_eq!(rr.get_reg(&r0), 0);
    assert_eq!(rr.get_reg(&r1), 0x11);
    assert_eq!(rr.get_reg(&r2), 0x22);
    assert_eq!(rr.get_reg(&r3), 0x33);
    assert_eq!(rr.get_reg(&r4), 0);
}

#[test]
fn register_decoding_is_idempotent_on_the_same_slice() {
    let lines = transcript(0, &[7, 8, 9], vec![]);
    let first = RunResult::decode(&lines, 0, &vec![]).expect("decode");
    let second = RunResult::decode(&lines, 0, &vec![]).expect("decode");
    for n in 0..32u8 {
        let r = emutest::emulator::GPRegister::new(n).unwrap();
        assert_eq!(first.get_reg(&r), second.get_reg(&r));
    }
}

#[test]
fn truncated_transcript_is_a_protocol_error() {
    let lines = to_lines(vec!["only".to_string(), "two".to_string()]);
    assert_eq!(RunResult::decode(&lines, 0, &vec![]).unwrap_err(), ProtocolError::Truncated);
}

#[test]
fn short_register_field_is_a_protocol_error() {
    let mut lines = transcript(0, &[], vec![]);
    lines[2] = b"abc".to_vec();
    assert_eq!(RunResult::decode(&lines, 0, &vec![]).unwrap_err(), ProtocolError::RegisterField);
}

#[test]
fn non_hex_register_field_is_a_protocol_error() {
    let mut lines = transcript(0, &[], vec![]);
    lines[2] = b"NAMEX-zzzz".to_vec();
    assert_eq!(RunResult::decode(&lines, 0, &vec![]).unwrap_err(), ProtocolError::RegisterField);
}

#[test]
fn too_many_register_fields_is_a_protocol_error() {
    let vs: Vec<u32> = (0..32).collect();
    let lines = transcript(0, &vs, vec![]);
    assert_eq!(RunResult::decode(&lines, 0, &vec![]).unwrap_err(), ProtocolError::RegisterCount);
}

#[test]
fn dump_line_cut_inside_a_field_is_a_protocol_error() {
    let mut row = dump_row(&[5], 0);
    row.truncate(20);
    let lines = transcript(0, &[], vec![vec![row]]);
    let requests = vec![(0u32, 4u32)];
    assert_eq!(RunResult::decode(&lines, 0, &requests).unwrap_err(), ProtocolError::DumpLine);
}

#[test]
fn dump_line_ending_before_a_column_means_missing_data() {
    // The row ends cleanly after one word, but a double word needs two.
    let row = dump_row(&[5], 0);
    let lines = transcript(0, &[], vec![vec![row]]);
    let requests = vec![(0u32, 8u32)];
    assert_eq!(RunResult::decode(&lines, 0, &requests).unwrap_err(), ProtocolError::DumpData);
}

#[test]
fn missing_dump_rows_are_a_protocol_error() {
    let lines = transcript(0, &[], vec![]);
    let requests = vec![(0u32, 4u32)];
    assert_eq!(RunResult::decode(&lines, 0, &requests).unwrap_err(), ProtocolError::Truncated);
}

#[test]
fn stop_code_is_absent_after_decode() {
    let lines = transcript(0, &[], vec![]);
    let rr = RunResult::decode(&lines, 0, &vec![]).expect("decode");
    assert!(rr.get_stop_code().is_none());
}

#[test]
fn words_packs_bytes_little_endian_with_zero_padding() {
    let v = MemoryData::Bytes(vec![0x01, 0x02, 0x03, 0x04, 0x05]);
    assert_eq!(v.words().unwrap(), vec![0x0403_0201, 0x0000_0005]);
}

#[test]
fn words_splits_a_double_word_low_first() {
    let v = MemoryData::DoubleWord(0x1122_3344_5566_7788);
    assert_eq!(v.words().unwrap(), vec![0x5566_7788, 0x1122_3344]);
}

#[test]
fn words_appends_a_nul_to_text() {
    let v = MemoryData::Text(b"abcd".to_vec());
    assert_eq!(v.words().unwrap(), vec![u32::from_le_bytes(*b"abcd"), 0]);
}

#[test]
fn single_bytes_and_half_words_have_no_word_image() {
    assert_eq!(MemoryData::Byte(1).words(), Err(()));
    assert_eq!(MemoryData::HalfWord(1).words(), Err(()));
}

#[test]
fn len_real_is_the_canonical_byte_length() {
    assert_eq!(MemoryData::Byte(0).len_real(), 1);
    assert_eq!(MemoryData::HalfWord(0).len_real(), 2);
    assert_eq!(MemoryData::Word(0).len_real(), 4);
    assert_eq!(MemoryData::DoubleWord(0).len_real(), 8);
    assert_eq!(MemoryData::Bytes(vec![9; 11]).len_real(), 11);
    assert_eq!(MemoryData::Text(b"hello".to_vec()).len_real(), 6);
}
