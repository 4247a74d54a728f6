use roanix::bytes::{copy_range, get_u16, get_u32, get_u64, put_u16, put_u32, put_u64, put_zeros, same_bytes};
use roanix::fs::PollEvents;
use roanix::mem::{align_down, UserMemory, UserRange};
use roanix::num::{mul_capped, next_xorshift};
use roanix::syscall::{
    map_fs_error, map_memory_error, map_process_error, raw_result, read_user_i32, read_user_string,
    read_user_string_array, read_user_timespec, read_user_u64, syscall_not_implemented, Errno,
    Timespec,
};
use roanix::text::{is_utf8, mend_fault, put_decimal, put_padded, put_text};

fn memory(start: u64, bytes: &[u8]) -> UserMemory {
    UserMemory { start, bytes: bytes.to_vec() }
}

#[test]
fn integers_are_little_endian_and_read_back() {
    let mut bytes = Vec::new();
    put_u16(&mut bytes, 0x1234);
    put_u32(&mut bytes, 0xdead_beef);
    put_u64(&mut bytes, 0x0102_0304_0506_0708);
    assert_eq!(bytes[..6], [0x34, 0x12, 0xef, 0xbe, 0xad, 0xde]);
    assert_eq!(get_u16(&bytes, 0), 0x1234);
    assert_eq!(get_u32(&bytes, 2), 0xdead_beef);
    assert_eq!(get_u64(&bytes, 6), 0x0102_0304_0506_0708);
    put_zeros(&mut bytes, 3);
    assert_eq!(bytes.len(), 17);
    assert_eq!(copy_range(&bytes, 13, 17), vec![1, 0, 0, 0]);
    assert!(same_bytes(b"abc", b"abc"));
    assert!(!same_bytes(b"abc", b"abd"));
    assert!(!same_bytes(b"abc", b"ab"));
}

#[test]
fn arithmetic_helpers() {
    assert_eq!(mul_capped(6, 7), 42);
    assert_eq!(mul_capped(u64::MAX, 2), u64::MAX);
    assert_eq!(next_xorshift(1), 1_082_269_761);
}

#[test]
fn utf8_is_told_from_other_bytes() {
    assert!(is_utf8(b""));
    assert!(is_utf8("h\u{e9}llo".as_bytes()));
    assert!(!is_utf8(b"a\xffb"));
    assert!(!is_utf8(b"\xe2\x82"));
}

#[test]
fn faulty_text_is_mended() {
    let mut text = Vec::new();
    put_text(&mut text, b"a\xffb\xe2\x82");
    assert_eq!(text, "a\u{fffd}b\u{fffd}\u{fffd}".as_bytes());
    let mut whole = b"> ".to_vec();
    put_text(&mut whole, "gr\u{fc}n".as_bytes());
    assert_eq!(whole, "> gr\u{fc}n".as_bytes());
}

#[test]
fn one_fault_is_mended_at_a_time() {
    let mut text = Vec::new();
    assert_eq!(mend_fault(&mut text, b"ab\xffcd", Some((2, Some(1)))), 3);
    assert_eq!(text, "ab\u{fffd}".as_bytes());
    let mut rest = Vec::new();
    assert_eq!(mend_fault(&mut rest, b"cd", None), 2);
    assert_eq!(rest, b"cd");
}

#[test]
fn numbers_are_written_in_decimal() {
    let mut text = Vec::new();
    put_decimal(&mut text, 0);
    put_decimal(&mut text, 9_876_543_210);
    put_padded(&mut text, 7, 3, b'0');
    put_padded(&mut text, 12345, 3, b' ');
    assert_eq!(text, b"0987654321000712345");
}

#[test]
fn user_memory_is_checked() {
    let mut memory = memory(0x1000, &[1, 2, 3, 4]);
    assert_eq!(memory.read_user(0x1001, 2), Ok(vec![2, 3]));
    assert!(memory.read_user(0x1003, 2).is_err());
    assert!(memory.read_user(0xfff, 1).is_err());
    assert_eq!(memory.write_user(0x1002, &[9, 8]), Ok(()));
    assert_eq!(memory.bytes, vec![1, 2, 9, 8]);
    assert!(memory.write_user(0x1003, &[7, 7]).is_err());
    assert_eq!(memory.bytes, vec![1, 2, 9, 8]);
}

#[test]
fn addresses_are_ranged_and_aligned() {
    let range = UserRange { min: 0x1000, max: 0x2000 };
    assert!(range.contains(0x1000));
    assert!(!range.contains(0xfff));
    assert_eq!(align_down(0x1fff), 0x1000);
    assert_eq!(align_down(0x3000), 0x3000);
}

#[test]
fn user_values_are_read() {
    let mut bytes = b"hello\0".to_vec();
    bytes.extend_from_slice(&(-5i32).to_le_bytes());
    bytes.extend_from_slice(&77u64.to_le_bytes());
    let memory = memory(0x4000, &bytes);
    assert_eq!(read_user_string(&memory, 0x4000, 16), Ok("hello".to_string()));
    assert_eq!(read_user_string(&memory, 0x4000, 3), Err(Errno::NameTooLong));
    assert_eq!(read_user_i32(&memory, 0x4006), Ok(-5));
    assert_eq!(read_user_u64(&memory, 0x400a), Ok(77));
    assert_eq!(read_user_u64(&memory, 0x400b), Err(Errno::Fault));
}

#[test]
fn text_that_is_no_utf8_is_refused() {
    let memory = memory(0x4000, b"a\xff\0");
    assert_eq!(read_user_string(&memory, 0x4000, 16), Err(Errno::Invalid));
}

#[test]
fn user_time_spans_are_read() {
    let mut bytes = 3u64.to_le_bytes().to_vec();
    bytes.extend_from_slice(&500u64.to_le_bytes());
    bytes.extend_from_slice(&0u64.to_le_bytes());
    bytes.extend_from_slice(&1_000_000_000u64.to_le_bytes());
    let memory = memory(0x4000, &bytes);
    let span = read_user_timespec(&memory, 0x4000).unwrap();
    assert_eq!(span, Timespec { seconds: 3, nanoseconds: 500 });
    assert_eq!(span.as_nanos(), 3_000_000_500);
    assert_eq!(read_user_timespec(&memory, 0x4010), Err(Errno::Invalid));
    assert_eq!(Timespec { seconds: u64::MAX, nanoseconds: 1 }.as_nanos(), u64::MAX);
}

#[test]
fn user_string_arrays_end_with_a_null_pointer() {
    let mut bytes = Vec::new();
    bytes.extend_from_slice(&0x4018u64.to_le_bytes());
    bytes.extend_from_slice(&0x401bu64.to_le_bytes());
    bytes.extend_from_slice(&0u64.to_le_bytes());
    bytes.extend_from_slice(b"ls\0-l\0");
    let memory = memory(0x4000, &bytes);
    assert_eq!(
        read_user_string_array(&memory, 0x4000, 64),
        Ok(vec!["ls".to_string(), "-l".to_string()]),
    );
}

#[test]
fn errors_have_register_values() {
    assert_eq!(raw_result(Ok(42)), 42);
    assert_eq!(raw_result(Err(Errno::Invalid)), -22);
    assert_eq!(syscall_not_implemented(), -38);
    assert_eq!(Errno::TimedOut.as_raw(), 110);
    assert_eq!(map_fs_error(roanix::fs::Error::NotFound), Errno::NoEntry);
    assert_eq!(map_fs_error(roanix::fs::Error::WouldBlock), Errno::TryAgain);
    assert_eq!(map_memory_error(roanix::mem::Error::OutOfMemory), Errno::OutOfMemory);
    assert_eq!(map_memory_error(roanix::mem::Error::NotMapped), Errno::Fault);
    assert_eq!(map_process_error(roanix::proc::Error::UnsupportedElf), Errno::Invalid);
}

#[test]
fn poll_events_intersect() {
    let mut events = PollEvents::empty();
    assert!(events.is_empty());
    events.readable = true;
    events.writable = true;
    let mut wanted = PollEvents::empty();
    wanted.readable = true;
    wanted.hangup = true;
    let both = events.intersection(&wanted);
    assert!(both.readable && !both.writable && !both.hangup);
}

#[test]
fn writes_leave_other_memory_alone() {
    let mut memory = memory(0x1000, &[0; 12]);
    assert_eq!(memory.write_user(0x1004, b"wxyz"), Ok(()));
    assert_eq!(memory.read_user(0x1004, 4), Ok(b"wxyz".to_vec()));
    assert_eq!(memory.read_user(0x1000, 4), Ok(vec![0; 4]));
    assert_eq!(memory.read_user(0x1008, 4), Ok(vec![0; 4]));
}
