use roanix::fs::{self, PollEvents};
use roanix::mem::UserMemory;
use roanix::proc::epoll::{
    decode_event, encode_events, epoll_wait_deadline, epoll_wait_step, user_event_size, Epoll,
    EpollStep, UserEpollEvent, EPOLLET, EPOLLONESHOT, EPOLL_CTL_ADD, EPOLL_CTL_DEL, EPOLL_CTL_MOD,
};
use roanix::proc::files::{file_readiness, Descriptor, DescriptorEntry, FileTable, MAX_FILES};
use roanix::proc::futex::{
    futex_may_block, futex_outcome, futex_wait_begin, futex_wait_end, syscall_futex_wake, FutexKey, FutexOutcome,
    FutexTable, INTERRUPT_EVENT,
};
use roanix::proc::inotify::{
    is_watching, next_cookie, notify, validate_mask, Inotify, InotifyRead, IN_IGNORED, IN_MASK_ADD,
    IN_Q_OVERFLOW, MAX_QUEUE_BYTES,
};
use roanix::proc::path::resolve_path;
use roanix::proc::pipe::{Direction, Pipe, PipeEnd, PipeError, PipeStep, PIPE_CAPACITY};
use roanix::proc::timerfd::{
    decode_itimerspec, encode_itimerspec, refresh, remaining_ns, timerfd_create_ok, TimerFd,
    TimerRead, TimerState, CLOCK_MONOTONIC, CLOCK_REALTIME, TFD_NONBLOCK, TFD_TIMER_ABSTIME,
    TFD_TIMER_CANCEL_ON_SET,
};
use roanix::proc::Error;
use roanix::sys::event::{EventWaiter, Registration, WaitGroups};
use roanix::sys::sync::WakeTarget;
use roanix::syscall::Errno;
use roanix::Arch;

fn resolved(cwd: &str, path: &str) -> String {
    String::from_utf8(resolve_path(cwd.as_bytes(), path.as_bytes())).unwrap()
}

fn file(number: usize) -> DescriptorEntry {
    DescriptorEntry { descriptor: Descriptor::File(number), close_on_exec: false }
}

fn reading() -> PollEvents {
    PollEvents { readable: true, ..PollEvents::empty() }
}

fn writing() -> PollEvents {
    PollEvents { writable: true, ..PollEvents::empty() }
}

#[test]
fn paths_are_resolved() {
    assert_eq!(resolved("/", ""), "/");
    assert_eq!(resolved("/home/user", "notes/./a"), "/home/user/notes/a");
    assert_eq!(resolved("/home/user", "../../../etc"), "/etc");
    assert_eq!(resolved("/home", "/bin//sh/"), "/bin/sh");
}

#[test]
fn a_resolved_path_is_stable() {
    let once = resolved("/srv", "a/../b//c");
    assert_eq!(once, "/srv/b/c");
    assert_eq!(resolved("/elsewhere", &once), once);
}

#[test]
fn a_pipe_is_first_in_first_out() {
    let mut groups = WaitGroups::new();
    let mut pipe = Pipe::new();
    let (reader, writer) = PipeEnd::pair();
    assert!(matches!(pipe.write(&writer, b"hello", &mut groups), Ok(PipeStep::Done(5, _))));
    assert!(matches!(pipe.write(&writer, b" you", &mut groups), Ok(PipeStep::Done(4, _))));
    match pipe.read(&reader, 7, &mut groups) {
        Ok(PipeStep::Done(data, _)) => assert_eq!(data, b"hello y"),
        _ => panic!("no data"),
    }
    assert!(pipe.poll(&reader, &reading()).readable);
    match pipe.read(&reader, 7, &mut groups) {
        Ok(PipeStep::Done(data, _)) => assert_eq!(data, b"ou"),
        _ => panic!("no data"),
    }
    assert!(!pipe.poll(&reader, &reading()).readable);
    assert!(pipe.poll(&writer, &writing()).writable);
}

#[test]
fn an_empty_pipe_makes_readers_wait() {
    let mut groups = WaitGroups::new();
    let mut pipe = Pipe::new();
    let (mut reader, writer) = PipeEnd::pair();
    assert!(matches!(pipe.read(&reader, 4, &mut groups), Ok(PipeStep::Sleep)));
    reader.set_nonblocking(true);
    assert!(reader.is_nonblocking());
    assert!(matches!(pipe.read(&reader, 4, &mut groups), Err(PipeError::TryAgain)));
    assert!(matches!(pipe.read(&writer, 4, &mut groups), Err(PipeError::BadDescriptor)));
    assert_eq!(pipe.close(Direction::Write, &mut groups), vec![]);
    assert!(matches!(pipe.read(&reader, 4, &mut groups), Ok(PipeStep::Done(data, _)) if data.is_empty()));
}

#[test]
fn a_full_pipe_takes_what_fits() {
    let mut groups = WaitGroups::new();
    let mut pipe = Pipe::new();
    let (_, writer) = PipeEnd::pair();
    let input = vec![1; PIPE_CAPACITY + 10];
    match pipe.write(&writer, &input, &mut groups) {
        Ok(PipeStep::Done(count, _)) => assert_eq!(count, PIPE_CAPACITY),
        _ => panic!("nothing written"),
    }
    assert!(matches!(pipe.write(&writer, b"x", &mut groups), Ok(PipeStep::Sleep)));
    pipe.close(Direction::Read, &mut groups);
    assert!(matches!(pipe.write(&writer, b"x", &mut groups), Err(PipeError::BrokenPipe)));
}

#[test]
fn descriptors_take_the_lowest_number() {
    let mut table = FileTable::new();
    assert!(matches!(table.install_descriptor(file(10), 0), Ok(0)));
    assert!(matches!(table.install_descriptor(file(11), 0), Ok(1)));
    assert!(matches!(table.install_descriptor(file(12), 5), Ok(5)));
    assert!(table.close_descriptor(0));
    assert!(!table.close_descriptor(0));
    assert!(matches!(table.duplicate_descriptor(5, 0, true), Ok(0)));
    assert_eq!(table.descriptor(0), Some(Descriptor::File(12)));
    assert_eq!(table.descriptor_close_on_exec(0), Some(true));
    assert_eq!(table.descriptor_close_on_exec(5), Some(false));
    assert!(matches!(table.duplicate_descriptor(9, 0, false), Err(Error::BadFileDescriptor)));
    assert!(matches!(table.duplicate_descriptor_to(1, 7, false), Ok(7)));
    assert_eq!(
        table.descriptors(&vec![1, 7, 3, -1]),
        vec![Some(Descriptor::File(11)), Some(Descriptor::File(11)), None, None],
    );
    assert!(table.contains_descriptor(Descriptor::File(11).key()));
    assert!(!table.contains_descriptor(Descriptor::Pipe(11).key()));
}

#[test]
fn exec_closes_marked_descriptors() {
    let mut table = FileTable::new();
    let _ = table.install_descriptor(file(1), 0);
    let _ = table.install_descriptor(file(2), 0);
    assert!(table.set_descriptor_close_on_exec(0, true));
    assert!(!table.set_descriptor_close_on_exec(3, true));
    let copy = table.duplicate();
    table.close_exec_descriptors();
    assert_eq!(table.descriptor(0), None);
    assert_eq!(table.descriptor(1), Some(Descriptor::File(2)));
    assert_eq!(copy.descriptor(0), Some(Descriptor::File(1)));
    table.clear();
    assert_eq!(table.descriptor(1), None);
}

#[test]
fn a_table_holds_a_limited_number_of_descriptors() {
    let mut table = FileTable::new();
    for _ in 0..MAX_FILES {
        assert!(table.install_descriptor(file(1), 0).is_ok());
    }
    assert!(matches!(table.install_descriptor(file(1), 0), Err(Error::TooManyFiles)));
}

#[test]
fn files_that_cannot_be_polled_report_an_error() {
    let failed = file_readiness(&Err(fs::Error::Io));
    assert!(failed.error);
    assert_eq!(file_readiness(&Ok(reading())), reading());
}

#[test]
fn a_futex_wake_is_exact_and_never_lost() {
    let mut groups = WaitGroups::new();
    let mut table = FutexTable::new();
    let memory = UserMemory { start: 0x1000, bytes: 5i32.to_le_bytes().to_vec() };
    let begin = |table: &mut FutexTable| futex_wait_begin(table, &memory, 9, 0x1000, 5, 0);
    let (first, timeout) = begin(&mut table).unwrap();
    let (second, _) = begin(&mut table).unwrap();
    let (third, _) = begin(&mut table).unwrap();
    assert!(timeout.is_none());
    let (woken, _) = table.wake(FutexKey { address_space: 9, address: 0x1000 }, 2, &mut groups);
    assert_eq!(woken, 2);
    assert_eq!(futex_wait_end(&mut table, first, FutexOutcome::TimedOut, &Ok(5), 5), Ok(0));
    assert_eq!(futex_wait_end(&mut table, second, FutexOutcome::Woken, &Ok(5), 5), Ok(0));
    assert_eq!(
        futex_wait_end(&mut table, third, FutexOutcome::TimedOut, &Ok(5), 5),
        Err(Errno::TimedOut),
    );
    assert_eq!(table.wake(FutexKey { address_space: 9, address: 0x1000 }, 9, &mut groups).0, 0);
}

#[test]
fn a_futex_wait_checks_its_word() {
    let mut table = FutexTable::new();
    let memory = UserMemory { start: 0x1000, bytes: 5i32.to_le_bytes().to_vec() };
    assert_eq!(futex_wait_begin(&mut table, &memory, 9, 0x1000, 6, 0), Err(Errno::TryAgain));
    assert_eq!(futex_wait_begin(&mut table, &memory, 9, 0x1002, 5, 0), Err(Errno::Invalid));
    assert_eq!(futex_wait_begin(&mut table, &memory, 9, 0x2000, 5, 0), Err(Errno::Fault));
    assert!(futex_may_block(&Ok(5), 5));
    assert!(!futex_may_block(&Ok(4), 5));
    assert!(!futex_may_block(&Err(Errno::Fault), 5));
    assert_eq!(futex_outcome(true, None), FutexOutcome::Interrupted);
    assert_eq!(futex_outcome(true, Some(0)), FutexOutcome::Interrupted);
    assert_eq!(futex_outcome(false, None), FutexOutcome::TimedOut);
    assert_eq!(futex_outcome(false, Some(INTERRUPT_EVENT)), FutexOutcome::Interrupted);
    assert_eq!(futex_outcome(false, Some(0)), FutexOutcome::Woken);
}

#[test]
fn a_futex_wake_signals_the_waiting_thread() {
    let mut groups = WaitGroups::new();
    let mut table = FutexTable::new();
    let memory = UserMemory { start: 0x1000, bytes: 5i32.to_le_bytes().to_vec() };
    let (id, _) = futex_wait_begin(&mut table, &memory, 9, 0x1000, 5, 0).unwrap();
    groups.begin(4, 11);
    let waiter = EventWaiter { thread: 4, index: 0 };
    let registered = table.event_mut(id).unwrap().register_wait(&mut groups, waiter);
    assert_eq!(registered, Registration::Waiting);
    let (count, targets) = syscall_futex_wake(&mut table, 9, 0x1000, 1, &mut groups).unwrap();
    assert_eq!((count, targets), (1, vec![WakeTarget { thread: 4, park_seq: 11 }]));
    assert!(syscall_futex_wake(&mut table, 9, 0x1001, 1, &mut groups).is_err());
    assert_eq!(table.futex_dequeue(id), (false, true));
}

fn holding(pipes: &[usize]) -> FileTable {
    let mut files = FileTable::new();
    for pipe in pipes {
        let descriptor = Descriptor::Pipe(*pipe);
        let _ = files.install_descriptor(DescriptorEntry { descriptor, close_on_exec: false }, 0);
    }
    files
}

fn watching(events: u32, data: u64) -> Option<UserEpollEvent> {
    Some(UserEpollEvent { events, data })
}

#[test]
fn an_epoll_set_holds_each_description_once() {
    let mut groups = WaitGroups::new();
    let mut epoll = Epoll::new();
    let pipe = Descriptor::Pipe(3);
    assert!(epoll.control(EPOLL_CTL_ADD, pipe, watching(1, 7), &mut groups).is_ok());
    assert_eq!(
        epoll.control(EPOLL_CTL_ADD, pipe, watching(1, 8), &mut groups),
        Err(Errno::Exists),
    );
    assert_eq!(epoll.control(EPOLL_CTL_MOD, pipe, None, &mut groups), Err(Errno::Fault));
    assert!(epoll.control(EPOLL_CTL_MOD, pipe, watching(4, 9), &mut groups).is_ok());
    assert_eq!(epoll.poll_requests(&holding(&[3])).len(), 1);
    assert!(epoll.control(EPOLL_CTL_DEL, pipe, None, &mut groups).is_ok());
    assert_eq!(epoll.control(EPOLL_CTL_DEL, pipe, None, &mut groups), Err(Errno::NoEntry));
    assert_eq!(epoll.control(9, pipe, None, &mut groups), Err(Errno::Invalid));
}

#[test]
fn a_oneshot_watch_reports_once() {
    let mut groups = WaitGroups::new();
    let mut epoll = Epoll::new();
    let pipe = Descriptor::Pipe(3);
    let _ = epoll.control(EPOLL_CTL_ADD, pipe, watching(1 | EPOLLONESHOT, 7), &mut groups);
    assert!(epoll.has_ready(&holding(&[3]), &vec![1]));
    assert_eq!(epoll.collect_ready(&holding(&[3]), &vec![1], 8), vec![UserEpollEvent { events: 1, data: 7 }]);
    assert_eq!(epoll.collect_ready(&holding(&[3]), &vec![1], 8), vec![]);
    assert!(!epoll.poll(&holding(&[3]), &reading(), &vec![1]).readable);
    let _ = epoll.control(EPOLL_CTL_MOD, pipe, watching(1 | EPOLLONESHOT, 8), &mut groups);
    assert_eq!(epoll.collect_ready(&holding(&[3]), &vec![1], 8), vec![UserEpollEvent { events: 1, data: 8 }]);
}

#[test]
fn an_edge_triggered_watch_reports_changes() {
    let mut groups = WaitGroups::new();
    let mut epoll = Epoll::new();
    let _ = epoll.control(EPOLL_CTL_ADD, Descriptor::Pipe(3), watching(1 | EPOLLET, 7), &mut groups);
    assert_eq!(epoll.collect_ready(&holding(&[3]), &vec![1], 8).len(), 1);
    assert_eq!(epoll.collect_ready(&holding(&[3]), &vec![1], 8).len(), 0);
    assert_eq!(epoll.collect_ready(&holding(&[3]), &vec![0], 8).len(), 0);
    assert_eq!(epoll.collect_ready(&holding(&[3]), &vec![1], 8).len(), 1);
}

#[test]
fn closed_descriptions_leave_an_epoll_set() {
    let mut groups = WaitGroups::new();
    let mut epoll = Epoll::new();
    let files = holding(&[3]);
    let _ = epoll.control(EPOLL_CTL_ADD, Descriptor::Pipe(3), watching(1, 7), &mut groups);
    let _ = epoll.control(EPOLL_CTL_ADD, Descriptor::Pipe(4), watching(1, 8), &mut groups);
    assert!(!epoll.has_ready(&files, &vec![0]));
    assert!(epoll.has_ready(&holding(&[3, 4]), &vec![0, 1]));
    assert_eq!(epoll.poll_requests(&files).len(), 1);
    assert_eq!(epoll.wait_descriptors(&files).len(), 1);
    assert_eq!(epoll.poll_requests(&holding(&[3, 4])).len(), 1);
    epoll.drop_closed(&files);
    assert_eq!(epoll.poll_requests(&files)[0].0, Descriptor::Pipe(3));
}

#[test]
fn a_fault_keeps_notifications() {
    let mut groups = WaitGroups::new();
    let mut instances = vec![Inotify::new(true), Inotify::new(true)];
    assert!(!is_watching(&instances));
    let _ = instances[1].add_watch(50, 0x6);
    assert!(is_watching(&instances));
    notify(&mut instances, 50, 0x2, 1, None, &mut groups);
    notify(&mut instances, 50, 0x4, 2, None, &mut groups);
    let inotify = &mut instances[1];
    let mut none = UserMemory { start: 0x4000, bytes: vec![0; 8] };
    assert_eq!(inotify.read_into(&mut none, 0x4000, 64), Err(Errno::Fault));
    assert_eq!(inotify.read_into(&mut none, 0x4000, 8), Err(Errno::Invalid));
    let mut one = UserMemory { start: 0x4000, bytes: vec![0; 20] };
    assert_eq!(inotify.read_into(&mut one, 0x4000, 64), Ok(Some(16)));
    assert_eq!(one.bytes[..9], [1, 0, 0, 0, 2, 0, 0, 0, 1]);
    assert_eq!(inotify.read_into(&mut one, 0x4000, 64), Ok(Some(16)));
    assert_eq!(one.bytes[4], 4);
    assert_eq!(inotify.read_into(&mut one, 0x4000, 64), Err(Errno::TryAgain));
    assert_eq!(Inotify::new(false).read_into(&mut one, 0x4000, 64), Ok(None));
}

#[test]
fn epoll_records_follow_the_architecture() {
    let event = UserEpollEvent { events: 0x11, data: 0x0102_0304_0506_0708 };
    assert_eq!(user_event_size(Arch::X86_64), 12);
    assert_eq!(user_event_size(Arch::Riscv64), 16);
    let packed = encode_events(Arch::X86_64, &vec![event]);
    assert_eq!(packed, vec![0x11, 0, 0, 0, 8, 7, 6, 5, 4, 3, 2, 1]);
    assert_eq!(decode_event(Arch::X86_64, &packed), event);
    let padded = encode_events(Arch::Riscv64, &vec![event]);
    assert_eq!(padded.len(), 16);
    assert_eq!(decode_event(Arch::Riscv64, &padded), event);
}

#[test]
fn epoll_waits_end_at_their_deadline() {
    assert_eq!(epoll_wait_deadline(0, 5, 100), Err(Errno::Invalid));
    assert_eq!(epoll_wait_deadline(4, -2, 100), Err(Errno::Invalid));
    assert_eq!(epoll_wait_deadline(4, -1, 100), Ok(None));
    assert_eq!(epoll_wait_deadline(4, 5, 100), Ok(Some(5_000_100)));
    assert_eq!(epoll_wait_step(0, Some(100), 50, true), EpollStep::TimedOut);
    assert_eq!(epoll_wait_step(5, Some(100), 100, true), EpollStep::TimedOut);
    assert_eq!(epoll_wait_step(5, Some(100), 40, true), EpollStep::WaitEventsFor(60));
    assert_eq!(epoll_wait_step(-1, None, 40, true), EpollStep::WaitEvents);
    assert_eq!(epoll_wait_step(-1, None, 40, false), EpollStep::SleepFor(1_000_000));
    assert_eq!(epoll_wait_step(5, Some(100), 40, false), EpollStep::SleepFor(60));
}

#[test]
fn an_object_is_watched_once() {
    let mut inotify = Inotify::new(true);
    assert_eq!(inotify.add_watch(50, 0x2), Ok(1));
    assert_eq!(inotify.add_watch(60, 0x4), Ok(2));
    assert_eq!(inotify.add_watch(50, 0x4 | IN_MASK_ADD), Ok(1));
    assert_eq!(inotify.add_watch(70, 0), Err(Errno::Invalid));
    assert!(!validate_mask(0));
    assert!(inotify.is_watching());
}

#[test]
fn events_reach_the_watcher_in_order() {
    let mut groups = WaitGroups::new();
    let mut instances = vec![Inotify::new(true)];
    assert_eq!(instances[0].add_watch(50, 0x6), Ok(1));
    assert_eq!(instances[0].read(64), Err(Errno::TryAgain));
    notify(&mut instances, 50, 0x2, 0, Some(b"log"), &mut groups);
    notify(&mut instances, 50, 0x4, 9, None, &mut groups);
    notify(&mut instances, 51, 0x2, 0, None, &mut groups);
    notify(&mut instances, 50, 0x1, 0, None, &mut groups);
    let inotify = &mut instances[0];
    assert!(inotify.poll(&reading()).readable);
    assert_eq!(inotify.read(8), Err(Errno::Invalid));
    assert_eq!(inotify.read(64), Ok(InotifyRead::Records(2)));
    let first = inotify.record(0);
    assert_eq!(first[..16], [1, 0, 0, 0, 2, 0, 0, 0, 0, 0, 0, 0, 4, 0, 0, 0]);
    assert_eq!(first[16..], *b"log\0");
    assert_eq!(inotify.record(1)[..12], [1, 0, 0, 0, 4, 0, 0, 0, 9, 0, 0, 0]);
    inotify.finish_read(2);
    assert_eq!(inotify.read(64), Err(Errno::TryAgain));
    assert!(inotify.remove_watch(1, &mut groups).is_ok());
    assert_eq!(inotify.remove_watch(1, &mut groups), Err(Errno::Invalid));
    assert_eq!(inotify.read(64), Ok(InotifyRead::Records(1)));
    assert_eq!(inotify.record(0)[4..8], IN_IGNORED.to_le_bytes());
}

#[test]
fn an_overflow_is_told_once() {
    let mut groups = WaitGroups::new();
    let mut inotify = Inotify::new(true);
    let _ = inotify.add_watch(50, 0x2);
    let name = vec![b'n'; 4000];
    for cookie in 0..(MAX_QUEUE_BYTES as u32 / 4000) + 20 {
        inotify.queue_for_key(50, 0x2, cookie, Some(&name), &mut groups);
    }
    let mut overflows = 0;
    while let Ok(InotifyRead::Records(count)) = inotify.read(usize::MAX) {
        for index in 0..count {
            if inotify.record(index)[4..8] == IN_Q_OVERFLOW.to_le_bytes() {
                overflows += 1;
            }
        }
        inotify.finish_read(count);
    }
    assert_eq!(overflows, 1);
}

#[test]
fn cookies_are_never_zero() {
    let mut counter = 1;
    assert_eq!(next_cookie(&mut counter), 1);
    assert_eq!(next_cookie(&mut counter), 2);
    let mut wrapping = u32::MAX;
    assert_eq!(next_cookie(&mut wrapping), u32::MAX);
    assert_ne!(next_cookie(&mut wrapping), 0);
}

#[test]
fn expirations_are_counted_once() {
    let mut state = TimerState { deadline_ns: 100, interval_ns: 50, expirations: 0 };
    refresh(&mut state, 99);
    assert_eq!(state.expirations, 0);
    assert_eq!(remaining_ns(&state, 40), 60);
    refresh(&mut state, 230);
    assert_eq!(state, TimerState { deadline_ns: 250, interval_ns: 50, expirations: 3 });
    refresh(&mut state, 230);
    assert_eq!(state.expirations, 3);
    let mut single = TimerState { deadline_ns: 100, interval_ns: 0, expirations: 0 };
    refresh(&mut single, 500);
    assert_eq!(single, TimerState { deadline_ns: 0, interval_ns: 0, expirations: 1 });
}

#[test]
fn timer_descriptors_are_read_and_rearmed() {
    let mut groups = WaitGroups::new();
    let mut timer = TimerFd::new(CLOCK_MONOTONIC, false);
    assert_eq!(timer.read(8, 10), Ok(TimerRead::Sleep));
    assert_eq!(timer.read(7, 10), Err(Errno::Invalid));
    let (previous, _) = timer.set_time(0, 0, 90, 10, &mut groups).unwrap();
    assert_eq!(previous, TimerState { deadline_ns: 0, interval_ns: 0, expirations: 0 });
    assert_eq!(timer.read(8, 40), Ok(TimerRead::SleepFor(60)));
    assert!(!timer.poll(&reading(), 40).readable);
    assert!(timer.poll(&reading(), 100).readable);
    assert_eq!(timer.read(8, 100), Ok(TimerRead::Expirations(1)));
    timer.confirm_read();
    timer.set_nonblocking(true, &mut groups);
    assert!(timer.is_nonblocking());
    assert_eq!(timer.read(8, 120), Err(Errno::TryAgain));
    assert!(timer.set_time(TFD_TIMER_ABSTIME, 5, 500, 120, &mut groups).is_ok());
    assert_eq!(timer.current_time(120).deadline_ns, 500);
    assert_eq!(timer.set_time(4, 0, 1, 120, &mut groups), Err(Errno::Invalid));
    assert_eq!(
        timer.set_time(TFD_TIMER_CANCEL_ON_SET, 0, 1, 120, &mut groups),
        Err(Errno::Invalid),
    );
}

#[test]
fn timer_settings_read_back() {
    let bytes = encode_itimerspec(1_500_000_000, 7);
    assert_eq!(bytes.len(), 32);
    assert_eq!(bytes[..9], [1, 0, 0, 0, 0, 0, 0, 0, 0]);
    assert_eq!(decode_itimerspec(&bytes), Ok((1_500_000_000, 7)));
    let mut late = bytes.clone();
    late[8..16].copy_from_slice(&1_000_000_000u64.to_le_bytes());
    assert_eq!(decode_itimerspec(&late), Err(Errno::Invalid));
    assert!(timerfd_create_ok(CLOCK_REALTIME, TFD_NONBLOCK));
    assert!(!timerfd_create_ok(5, 0));
    assert!(!timerfd_create_ok(CLOCK_REALTIME, 1));
}
