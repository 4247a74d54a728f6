use roanix::fs::{Error, PollEvents};
use roanix::sys::console;
use roanix::sys::debug::{
    self, append_kernel_message, disable_regular_sink_output, enable_regular_sink_output,
    log_end_offset, log_start_offset, read_log, split_messages, write_to_sinks, DebugState,
    LogReadError, LogRing,
};
use roanix::sys::event::{EventWaiter, Registration, WaitGroups};
use roanix::sys::klog::dev::{
    split_level_prefix, write_log, Encoding, ReadStep, Reader, KLOG_CLEAR, KLOG_GET_LEVEL,
    KLOG_GET_STATS, KLOG_SEEK_FIRST, KLOG_SET_LEVEL,
};
use roanix::sys::klog::packet::{
    clamp, Fetch, PacketBuffer, RecordData, Ring, FLAG_TRUNCATED, HEADER_SIZE, MESSAGE_LIMIT,
    PACKET_MAGIC, PAYLOAD_CAPACITY, RING_SLOTS,
};
use roanix::sys::klog::{
    append_userspace, arrival_event, clear, console_level, emergency, emit, enter_panic_mode,
    first_sequence, has_packets, init, is_enabled, log_record, may_wait, next_packet, next_sequence, origin, record_level,
    register_sink, render_fields, render_text, set_console_level, set_record_level, stats,
    subsystem_of, trim_source_path, unregister_sink, user_messages, Filter, Level, Log, NextPacket,
    Origin, ReadError, Style,
};
use roanix::sys::sync::WakeTarget;

fn place() -> Origin {
    Origin { timestamp_ns: 1_500_000_000, cpu: 2, thread: 7 }
}

fn record(message: &[u8]) -> RecordData<'_> {
    RecordData {
        level: 2,
        flags: 0,
        timestamp_ns: 1_500_000_000,
        cpu: 2,
        line: 12,
        thread: 7,
        subsystem: b"sys/clock",
        file: b"clock.rs",
        message,
    }
}

fn say(log: &mut Log, level: Level, message: &[u8]) -> Option<Vec<u8>> {
    let mut groups = WaitGroups::new();
    let (printed, woken) = emit(log, &mut groups, level, b"test", b"", 0, message, 0, place());
    assert_eq!(woken, vec![]);
    printed
}

fn note(state: &mut DebugState, path: Option<&[u8]>, line: Option<u32>, text: &[u8]) -> Option<Vec<u8>> {
    state.log(&mut WaitGroups::new(), Filter::Info, path, line, text, 0).0
}

#[test]
fn levels_convert() {
    for raw in 0..6 {
        assert_eq!(Level::from_raw(raw).as_raw(), raw);
    }
    assert_eq!(Level::from_log(Filter::Warn), Level::Warn);
    assert_eq!(Level::Emergency.to_filter(), Filter::Error);
    assert_eq!(Level::Trace.to_filter(), Filter::Trace);
}

#[test]
fn a_packet_frames_itself() {
    let mut ring = Ring::new();
    let mut buffer = PacketBuffer::new();
    assert_eq!(ring.append(&record(b"started")), 0);
    let size = HEADER_SIZE + 9 + 8 + 7;
    assert_eq!(ring.fetch(0, &mut buffer), Fetch::Ready(size));
    assert_eq!(buffer.bytes().len(), size);
    assert_eq!(buffer.bytes()[..4], PACKET_MAGIC.to_le_bytes());
    assert_eq!(buffer.bytes()[4..6], (size as u16).to_le_bytes());
    assert_eq!((buffer.header().sequence, buffer.header().thread), (0, 7));
    assert_eq!(buffer.subsystem(), b"sys/clock");
    assert_eq!(buffer.file(), b"clock.rs");
    assert_eq!(buffer.message(), b"started");
    assert_eq!(ring.fetch(1, &mut buffer), Fetch::Pending);
}

#[test]
fn long_messages_are_cut_at_a_character() {
    let mut ring = Ring::new();
    let mut buffer = PacketBuffer::new();
    let room = PAYLOAD_CAPACITY - 9 - 8;
    let mut text = vec![b'a'; room - 1];
    text.extend_from_slice("\u{e9}tail".as_bytes());
    ring.append(&record(&text));
    assert!(matches!(ring.fetch(0, &mut buffer), Fetch::Ready(_)));
    assert_eq!(buffer.message(), vec![b'a'; room - 1]);
    assert_eq!(buffer.header().flags & FLAG_TRUNCATED, FLAG_TRUNCATED);
    assert_eq!(ring.truncated(), 1);
    assert_eq!(clamp("\u{e9}".as_bytes(), 1), b"");
    assert_eq!(clamp(b"short", 9), b"short");
}

#[test]
fn recent_records_are_kept_and_old_ones_are_lost() {
    let mut ring = Ring::new();
    let mut buffer = PacketBuffer::new();
    for _ in 0..RING_SLOTS + 88 {
        ring.append(&record(b"m"));
    }
    assert_eq!(ring.next_sequence(), 600);
    assert_eq!(ring.first_sequence(), 88);
    assert!(matches!(ring.fetch(599, &mut buffer), Fetch::Ready(_)));
    assert!(matches!(ring.fetch(88, &mut buffer), Fetch::Ready(_)));
    assert_eq!(ring.fetch(10, &mut buffer), Fetch::Lost(88));
    let sequence = ring.reserve();
    assert_eq!(ring.fetch(sequence, &mut buffer), Fetch::Pending);
    ring.publish(sequence, &record(b"late"));
    assert!(matches!(ring.fetch(sequence, &mut buffer), Fetch::Ready(_)));
}

#[test]
fn lines_are_rendered() {
    let plain = Style { color: false, timestamp: true };
    assert_eq!(
        render_fields(&record(b"started"), plain, 512),
        b"[    1.500000] [!] (clock.rs:12) sys/clock: started\n",
    );
    assert_eq!(render_fields(&record(b"started"), plain, 9), b"[    1.50");
    let mut other = record(b"x\xffy");
    other.file = b"";
    other.subsystem = b"";
    other.flags = FLAG_TRUNCATED;
    let colored = Style { color: true, timestamp: false };
    assert_eq!(
        render_fields(&other, colored, 512),
        "[\u{1b}[1;33m!\u{1b}[0m] x\u{fffd}y...\n".as_bytes(),
    );
}

#[test]
fn packets_are_rendered_as_text() {
    let mut ring = Ring::new();
    let mut buffer = PacketBuffer::new();
    ring.append(&record(b"started"));
    assert!(matches!(ring.fetch(0, &mut buffer), Fetch::Ready(_)));
    assert_eq!(
        render_text(&buffer),
        b"[    1.500000] [!] (clock.rs:12) sys/clock: started\n",
    );
}

#[test]
fn tags_and_paths_are_shortened() {
    assert_eq!(subsystem_of(b"roanix::sys::clock"), b"sys/clock");
    assert_eq!(subsystem_of(b"other"), b"other");
    assert_eq!(trim_source_path(b"kernel/src/sys/clock.rs"), b"src/sys/clock.rs");
    assert_eq!(origin(5, Some((70_000, 3))), Origin { timestamp_ns: 5, cpu: 0xffff, thread: 3 });
    assert_eq!(origin(5, None), Origin { timestamp_ns: 5, cpu: 0, thread: 0 });
}

#[test]
fn the_console_stays_below_the_record_level() {
    let mut log = Log::new();
    assert_eq!((record_level(&log), console_level(&log)), (Level::Debug, Level::Info));
    assert_eq!(init(&log), Filter::Debug);
    assert!(is_enabled(&log, Filter::Debug));
    assert!(!is_enabled(&log, Filter::Trace));
    assert_eq!(set_record_level(&mut log, Level::Warn), Level::Debug);
    assert_eq!(console_level(&log), Level::Warn);
    assert_eq!(set_console_level(&mut log, Level::Trace), Level::Warn);
    assert!(console_level(&log).as_raw() <= record_level(&log).as_raw());
}

#[test]
fn readers_get_new_records() {
    let mut log = Log::new();
    let mut buffer = PacketBuffer::new();
    let mut cursor = 0;
    assert!(!has_packets(&log, cursor));
    assert_eq!(
        next_packet(&mut log, &mut cursor, &mut buffer, true, false),
        Err(ReadError::WouldBlock),
    );
    assert_eq!(next_packet(&mut log, &mut cursor, &mut buffer, false, false), Ok(NextPacket::Wait(0)));
    assert_eq!(may_wait(&mut log, &mut WaitGroups::new(), 0), (true, vec![]));
    assert_eq!(
        say(&mut log, Level::Info, b"hello"),
        Some("[\u{1b}[1;32m*\u{1b}[0m] test: hello\n".as_bytes().to_vec()),
    );
    assert_eq!(say(&mut log, Level::Debug, b"quiet"), None);
    assert_eq!(may_wait(&mut log, &mut WaitGroups::new(), 0), (false, vec![]));
    assert!(has_packets(&log, cursor));
    assert_eq!(next_packet(&mut log, &mut cursor, &mut buffer, true, false), Ok(NextPacket::Ready));
    assert_eq!((cursor, buffer.message()), (1, b"hello".to_vec()));
    assert_eq!(next_sequence(&log), 2);
}

#[test]
fn sleeping_readers_are_told_of_records() {
    let mut log = Log::new();
    let mut groups = WaitGroups::new();
    groups.begin(3, 9);
    let waiter = EventWaiter { thread: 3, index: 0 };
    let registered = arrival_event(&mut log).register_wait(&mut groups, waiter);
    assert_eq!(registered, Registration::Waiting);
    enter_panic_mode(&mut log);
    let (_, woken) = emit(&mut log, &mut groups, Level::Info, b"t", b"", 0, b"m", 0, place());
    assert_eq!(woken, vec![]);
    let mut log = Log::new();
    assert_eq!(
        arrival_event(&mut log).register_wait(&mut groups, waiter),
        Registration::Waiting,
    );
    let (_, woken) =
        append_userspace(&mut log, &mut groups, Level::Info, b"one\ntwo", place());
    assert_eq!(woken, vec![WakeTarget { thread: 3, park_seq: 9 }]);
    assert!(arrival_event(&mut log).is_signaled());
    assert_eq!(may_wait(&mut log, &mut groups, 2), (true, vec![]));
    assert!(!arrival_event(&mut log).is_signaled());
    groups.begin(3, 10);
    arrival_event(&mut log).register_wait(&mut groups, waiter);
    let woken = clear(&mut log, &mut groups);
    assert_eq!(woken, vec![WakeTarget { thread: 3, park_seq: 10 }]);
    let mut reader = Reader::open(&log);
    assert!(reader.poll_events(PollEvents { readable: true, ..PollEvents::empty() }));
    assert!(!reader.poll_events(PollEvents { writable: true, ..PollEvents::empty() }));
    groups.begin(3, 11);
    arrival_event(&mut log).reset();
    arrival_event(&mut log).register_wait(&mut groups, waiter);
    let (result, woken) = reader.ioctl(&mut log, &mut groups, KLOG_CLEAR, &mut Vec::new());
    assert_eq!((result, woken.len()), (Ok(0), 1));
    let mut state = DebugState::new();
    groups.begin(3, 12);
    state.arrival_event().register_wait(&mut groups, waiter);
    assert_eq!(append_kernel_message(&mut state, &mut groups, b"", 0).1, vec![]);
    let (_, woken) = state.log(&mut groups, Filter::Info, None, None, b"m", 0);
    assert_eq!(woken, vec![WakeTarget { thread: 3, park_seq: 12 }]);
    let end = log_end_offset(&state);
    assert!(matches!(read_log(&mut state, end, 10, false), Ok(None)));
    assert!(!state.arrival_event().is_signaled());
}

#[test]
fn facade_messages_are_recorded() {
    let mut log = Log::new();
    let mut groups = WaitGroups::new();
    let mut buffer = PacketBuffer::new();
    let mut cursor = 0;
    let long = vec![b'x'; 300];
    let target = b"roanix::sys::clock";
    let file = b"kernel/src/sys/clock.rs";
    log_record(&mut log, &mut groups, Filter::Trace, target, file, Some(7), &long, place());
    assert_eq!(next_sequence(&log), 0);
    log_record(&mut log, &mut groups, Filter::Debug, target, b"", None, &long, place());
    let next = next_packet(&mut log, &mut cursor, &mut buffer, true, false);
    assert_eq!(next, Ok(NextPacket::Ready));
    assert_eq!(buffer.message(), vec![b'x'; 256 - b"sys/clock".len()]);
    let (printed, _) =
        log_record(&mut log, &mut groups, Filter::Warn, target, file, Some(7), b"m", place());
    assert!(printed.is_some());
}

#[test]
fn clearing_hides_older_records_from_every_reader() {
    let mut log = Log::new();
    let mut buffer = PacketBuffer::new();
    for _ in 0..600 {
        say(&mut log, Level::Debug, b"old");
    }
    assert_eq!(first_sequence(&log), 88);
    clear(&mut log, &mut WaitGroups::new());
    assert_eq!((first_sequence(&log), next_sequence(&log)), (600, 600));
    for (start, end) in [(0, 600), (88, 600), (600, 600), (700, 700)] {
        let mut cursor = start;
        assert!(!has_packets(&log, cursor));
        assert_eq!(
            next_packet(&mut log, &mut cursor, &mut buffer, true, false),
            Err(ReadError::WouldBlock),
        );
        assert_eq!(cursor, end);
    }
    say(&mut log, Level::Debug, b"new");
    let mut cursor = 3;
    assert!(has_packets(&log, cursor));
    assert_eq!(next_packet(&mut log, &mut cursor, &mut buffer, true, false), Ok(NextPacket::Ready));
    assert_eq!((cursor, buffer.message()), (601, b"new".to_vec()));
}

#[test]
fn clearing_hides_older_records() {
    let mut log = Log::new();
    let mut buffer = PacketBuffer::new();
    let mut cursor = 0;
    say(&mut log, Level::Info, b"old");
    assert_eq!(clear(&mut log, &mut WaitGroups::new()), vec![]);
    say(&mut log, Level::Info, b"new");
    assert_eq!(first_sequence(&log), 1);
    assert_eq!(next_packet(&mut log, &mut cursor, &mut buffer, true, false), Ok(NextPacket::Ready));
    assert_eq!(buffer.message(), b"new");
    let figures = stats(&log);
    assert_eq!((figures.next_sequence, figures.first_sequence), (2, 1));
    assert_eq!((figures.record_level, figures.console_level), (4, 3));
}

#[test]
fn only_unread_records_count_as_overwritten() {
    let mut log = Log::new();
    let mut buffer = PacketBuffer::new();
    let mut cursor = 0;
    for _ in 0..600 {
        say(&mut log, Level::Debug, b"read");
        let next = next_packet(&mut log, &mut cursor, &mut buffer, true, false);
        assert_eq!(next, Ok(NextPacket::Ready));
    }
    let figures = stats(&log);
    assert_eq!((figures.next_sequence, figures.first_sequence), (600, 88));
    assert_eq!((figures.overwritten, figures.truncated), (0, 0));
    assert_eq!((figures.slots, figures.slot_payload), (512, 256));
    assert_eq!(figures.reserved, [0; 6]);
    for _ in 0..512 {
        say(&mut log, Level::Debug, b"unread");
    }
    assert_eq!(stats(&log).overwritten, 0);
    say(&mut log, Level::Debug, b"more");
    say(&mut log, Level::Debug, b"more");
    assert_eq!(stats(&log).overwritten, 2);
}

#[test]
fn levels_are_ordered_by_their_numbers() {
    assert!(Level::Emergency < Level::Error && Level::Error <= Level::Error);
    assert!(Level::Trace > Level::Debug && !(Level::Info < Level::Warn));
    for raw in 0..6 {
        assert_eq!(Level::from_raw(raw).as_raw(), raw);
    }
}

#[test]
fn reading_at_the_end_of_the_stream_gives_nothing() {
    let ring = LogRing::new();
    assert_eq!((ring.oldest_offset(), ring.end_offset()), (0, 0));
    assert_eq!(ring.read_into(0, 16), Vec::<u8>::new());
}

#[test]
fn user_text_is_complete() {
    let mut log = Log::new();
    assert_eq!(user_messages(b"a\nb\n"), vec![b"a".to_vec(), b"b".to_vec()]);
    let long = vec![b'x'; MESSAGE_LIMIT + 5];
    let pieces = user_messages(&long);
    assert_eq!(pieces.concat(), long);
    assert!(pieces.iter().all(|piece| piece.len() <= MESSAGE_LIMIT));
    let mut groups = WaitGroups::new();
    let (printed, woken) =
        append_userspace(&mut log, &mut groups, Level::Info, b"one\ntwo", place());
    assert_eq!((printed.len(), woken.len()), (2, 0));
    assert_eq!(next_sequence(&log), 2);
}

#[test]
fn a_panic_silences_ordinary_records() {
    let mut log = Log::new();
    enter_panic_mode(&mut log);
    assert_eq!(say(&mut log, Level::Info, b"hello"), None);
    assert_eq!(next_sequence(&log), 0);
    assert_eq!(emergency(&mut log, b"kernel panic", place()), b"kernel panic\n");
    assert_eq!(next_sequence(&log), 1);
}

#[test]
fn new_sinks_get_earlier_lines() {
    let mut log = Log::new();
    say(&mut log, Level::Info, b"hello");
    say(&mut log, Level::Debug, b"hidden");
    let replay = register_sink(&mut log, 11).unwrap();
    assert_eq!(replay.len(), 1);
    for sink in 0..7 {
        assert!(register_sink(&mut log, sink).is_some());
    }
    assert!(register_sink(&mut log, 99).is_none());
    assert!(unregister_sink(&mut log, 11));
    assert!(!unregister_sink(&mut log, 11));
}

fn control(reader: &mut Reader, log: &mut Log, request: u64, argument: &mut Vec<u8>) -> Result<u64, Error> {
    let (result, woken) = reader.ioctl(log, &mut WaitGroups::new(), request, argument);
    assert_eq!(woken, vec![]);
    result
}

#[test]
fn the_log_device_hands_out_packets_and_text() {
    let mut log = Log::new();
    let mut reader = Reader::open(&log);
    assert!(!reader.readable(&log, Encoding::Packets));
    say(&mut log, Level::Info, b"hello");
    let wanted = PollEvents { readable: true, ..PollEvents::empty() };
    assert!(reader.poll(&log, Encoding::Packets, wanted).readable);
    match reader.read_packets(&mut log, 0, 1000, true, false) {
        ReadStep::Copy(bytes, next) => {
            assert_eq!(bytes.len(), HEADER_SIZE + 4 + 5);
            reader.confirm_packets(next);
        },
        _ => panic!("no packet"),
    }
    assert!(matches!(reader.read_packets(&mut log, 49, 1000, true, false), ReadStep::Finish(Ok(49))));
    assert!(matches!(reader.read_packets(&mut log, 0, 1000, true, false), ReadStep::Finish(Err(_))));
    assert!(matches!(reader.read_packets(&mut log, 0, 1000, false, false), ReadStep::Wait(1)));
    let mut argument = Vec::new();
    assert!(control(&mut reader, &mut log, KLOG_SEEK_FIRST, &mut argument).is_ok());
    match reader.read_text(&mut log, 0, 10, true, false) {
        ReadStep::Copy(bytes, _) => {
            assert_eq!(bytes, b"[    1.500");
            reader.confirm_text(bytes.len());
        },
        _ => panic!("no text"),
    }
    assert!(reader.readable(&log, Encoding::Text));
}

#[test]
fn the_log_device_is_controlled() {
    let mut log = Log::new();
    let mut reader = Reader::open(&log);
    let mut argument = vec![2, 0, 0, 0];
    assert_eq!(control(&mut reader, &mut log, KLOG_SET_LEVEL, &mut argument), Ok(0));
    assert_eq!(record_level(&log), Level::Warn);
    let mut output = vec![0; 4];
    assert_eq!(control(&mut reader, &mut log, KLOG_GET_LEVEL, &mut output), Ok(0));
    assert_eq!(output, vec![2, 0, 0, 0]);
    let mut invalid = vec![6, 0, 0, 0];
    assert!(control(&mut reader, &mut log, KLOG_SET_LEVEL, &mut invalid).is_err());
    let mut figures = vec![0; 48];
    assert_eq!(control(&mut reader, &mut log, KLOG_GET_STATS, &mut figures), Ok(0));
    assert_eq!(control(&mut reader, &mut log, KLOG_CLEAR, &mut Vec::new()), Ok(0));
    assert!(control(&mut reader, &mut log, 0x1234, &mut Vec::new()).is_err());
}

#[test]
fn written_text_carries_its_level() {
    assert_eq!(split_level_prefix(b"<1>disk"), (Level::Error, b"disk".to_vec()));
    assert_eq!(split_level_prefix(b"<9>disk"), (Level::Info, b"<9>disk".to_vec()));
    assert_eq!(split_level_prefix(b"disk"), (Level::Info, b"disk".to_vec()));
    let mut log = Log::new();
    let mut groups = WaitGroups::new();
    let (count, printed, woken) =
        write_log(&mut log, &mut groups, b"<1>disk\n", place()).ok().unwrap();
    assert_eq!((count, printed.len(), woken.len()), (8, 1, 0));
}

#[test]
fn the_debug_stream_is_complete() {
    let mut state = DebugState::new();
    assert_eq!(debug::register(), Filter::Trace);
    let line = b"[\x1b[1;32m*\x1b[0m] \x1b[2m(a.rs:3)\x1b[0m hi".to_vec();
    assert!(note(&mut state, Some(b"a.rs"), Some(3), b"hi").is_some());
    assert_eq!(log_start_offset(&state), 0);
    let end = log_end_offset(&state);
    match read_log(&mut state, 0, 4096, true) {
        Ok(Some(bytes)) => {
            assert_eq!(bytes.len() as u64, end);
            assert_eq!(bytes[..line.len()], line[..]);
        },
        _ => panic!("no text"),
    }
    assert!(matches!(read_log(&mut state, end, 10, true), Err(LogReadError::WouldBlock)));
    assert!(matches!(read_log(&mut state, end, 10, false), Ok(None)));
    assert!(matches!(read_log(&mut state, end, 0, true), Ok(Some(bytes)) if bytes.is_empty()));
}

#[test]
fn a_full_debug_ring_drops_the_oldest() {
    let mut state = DebugState::new();
    for _ in 0..600 {
        note(&mut state, None, None, b"m");
    }
    assert!(log_start_offset(&state) > 0);
    assert!(matches!(read_log(&mut state, 0, 10, true), Err(LogReadError::Overrun)));
}

#[test]
fn debug_sinks_can_be_paused() {
    let mut state = DebugState::new();
    let mut groups = WaitGroups::new();
    let (printed, _) = append_kernel_message(&mut state, &mut groups, b"boot\nready", 0);
    assert_eq!(printed.len(), 2);
    assert_eq!(debug::register_sink(&mut state, 5).len(), 2);
    assert_eq!(write_to_sinks(&state), vec![5]);
    disable_regular_sink_output(&mut state);
    assert!(note(&mut state, None, None, b"m").is_none());
    enable_regular_sink_output(&mut state);
    assert!(note(&mut state, None, None, b"m").is_some());
    assert!(debug::unregister_sink(&mut state, 5));
    debug::enter_panic_mode(&mut state);
    assert!(note(&mut state, None, None, b"m").is_none());
    debug::clear_sinks(&mut state);
    assert_eq!(write_to_sinks(&state), vec![]);
    assert_eq!(split_messages(b"a\nb"), vec![b"a".to_vec(), b"b".to_vec()]);
}

#[test]
fn console_lines_are_formatted() {
    let mut ring = console::RingBuffer::new();
    let text = console::log(&mut ring, Filter::Error, None, None, b"bad");
    assert_eq!(text, b"[\x1b[1;31mE\x1b[0m] (???:0) bad\n");
    assert_eq!(
        console::format_line(Filter::Info, Some(b"a.rs"), Some(3), b"hi"),
        b"[\x1b[1;32m*\x1b[0m] (a.rs:3) hi\n",
    );
    ring.write_str(&[b'x'; 5000]);
    assert_eq!(console::register(), Filter::Info);
}
