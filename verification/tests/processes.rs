use roanix::mem::{UserMemory, UserRange};
use roanix::proc::elf::{
    build_stack, check_alignment, load, load_interpreter, load_main, map_elf, parse_elf, read_file, LoadedElf,
    ReadStep, StackInput, INTERPRETER_BASE, PIE_BASE,
};
use roanix::proc::process::Process;
use roanix::proc::signal::{
    encode_signalfd_info, read_signal_frame, siginfo, signal_frame_addresses, stack_contains,
    Delivery, SignalAction, SignalFd, SignalInfo, SignalManager, SignalRead, SignalStack,
    UserContext, SIGCHLD, SIGCONT, SIGINT, SIGKILL, SIGNAL_FRAME_MAGIC, SIGRTMIN, SIGSTOP, SIGTSTP,
    SIGURG, SIG_BLOCK, SIG_SETMASK, SIG_UNBLOCK, SI_USER,
};
use roanix::proc::signal_syscall::{
    read_user_mask, syscall_signal_action, syscall_signal_altstack, syscall_signal_mask,
    syscall_signal_pending, syscall_signal_suspend, timed_wait_mask, validate_optional_signal,
    validate_signal, wait_for_matching_signal, write_user_signal_info, WaitStep,
};
use roanix::proc::syscall::{
    check_thread_name, process_result, report_thread_name, syscall_process_getpgid,
    syscall_process_getsid, syscall_process_setsid, syscall_process_wait, syscall_signal_fd,
    CallStep,
};
use roanix::proc::table::{PriorityWhich, ProcessTable, WaitOutcome};
use roanix::proc::{
    create_thread, encode_exit, exec_current, exit_current, exit_current_signal,
    exit_current_thread, exit_current_thread_if_process_exited, fork_current, init_input, may_exec,
    set_current_thread_pointer, spawn_init, Error, InitImage,
    UserStart,
};
use roanix::sys::event::WaitGroups;
use roanix::sys::sched::scheduler::{Scheduler, StackSlot};
use roanix::sys::sched::{bootstrap, start, Site};
use roanix::sys::sync::WakeTarget;
use roanix::syscall::Errno;
use roanix::Arch;

fn put_header(bytes: &mut Vec<u8>, machine: u16, image_type: u16, entry: u64, headers: u16) {
    bytes.extend_from_slice(b"\x7fELF\x02\x01\x01\0\0\0\0\0\0\0\0\0");
    bytes.extend_from_slice(&image_type.to_le_bytes());
    bytes.extend_from_slice(&machine.to_le_bytes());
    bytes.extend_from_slice(&1u32.to_le_bytes());
    bytes.extend_from_slice(&entry.to_le_bytes());
    bytes.extend_from_slice(&64u64.to_le_bytes());
    bytes.extend_from_slice(&0u64.to_le_bytes());
    bytes.extend_from_slice(&0u32.to_le_bytes());
    for field in [64u16, 56, headers, 64, 0, 0] {
        bytes.extend_from_slice(&field.to_le_bytes());
    }
}

fn put_segment(bytes: &mut Vec<u8>, kind: u32, flags: u32, fields: [u64; 6]) {
    bytes.extend_from_slice(&kind.to_le_bytes());
    bytes.extend_from_slice(&flags.to_le_bytes());
    for field in fields {
        bytes.extend_from_slice(&field.to_le_bytes());
    }
}

fn program(image_type: u16, base: u64) -> Vec<u8> {
    let mut bytes = Vec::new();
    put_header(&mut bytes, 62, image_type, base + 0xb0, 2);
    put_segment(&mut bytes, 1, 5, [0, base, base, 188, 0x2010, 0x1000]);
    put_segment(&mut bytes, 3, 4, [176, base + 176, base + 176, 12, 12, 1]);
    bytes.extend_from_slice(b"/lib/ld.elf\0");
    bytes
}

fn loaded() -> LoadedElf {
    LoadedElf {
        entry: 0x40_0000,
        bias: 0,
        program_headers: 0x40_0040,
        program_header_size: 56,
        program_header_count: 2,
    }
}

fn range() -> UserRange {
    UserRange { min: 0x1000, max: 0x7fff_ffff_f000 }
}

fn word(bytes: &[u8], at: usize) -> u64 {
    u64::from_le_bytes(bytes[at..at + 8].try_into().unwrap())
}

fn slot(i: u64) -> StackSlot {
    StackSlot { base: 0x100_0000 * (i + 1), frame_size: 256 }
}

fn site() -> Site {
    Site { cpu: Some(0), now_ns: 3000, in_interrupt: false, irqs_enabled: true }
}

fn scheduler() -> Scheduler {
    let stacks: Vec<StackSlot> = (0..3).map(slot).collect();
    let mut scheduler = bootstrap(None, 1, 1000, &stacks);
    start(&mut scheduler, 0, 2000);
    scheduler
}

fn info(signal: u8) -> SignalInfo {
    SignalInfo { signal, code: SI_USER, sender_pid: 4, sender_uid: 5, synchronous: false }
}

#[test]
fn a_program_image_is_parsed() {
    let spec = parse_elf(&program(2, 0x40_0000), Arch::X86_64).ok().unwrap();
    assert_eq!((spec.image_type, spec.entry), (2, 0x40_00b0));
    assert_eq!((spec.program_header_size, spec.program_header_count), (56, 2));
    assert_eq!(spec.program_header_offset, 64);
    assert_eq!(spec.interpreter.as_deref(), Some(&b"/lib/ld.elf"[..]));
    assert_eq!(spec.segments.len(), 1);
    assert_eq!(spec.segments[0].virtual_address, 0x40_0000);
    assert_eq!((spec.segments[0].file_size, spec.segments[0].memory_size), (188, 0x2010));
    assert_eq!(spec.segments[0].flags, 5);
}

#[test]
fn bad_images_are_refused() {
    assert!(matches!(parse_elf(b"junk", Arch::X86_64), Err(Error::InvalidElf(_))));
    assert!(matches!(parse_elf(&program(2, 0x40_0000), Arch::Riscv64), Err(Error::UnsupportedElf)));
    let mut truncated = program(2, 0x40_0000);
    truncated.truncate(180);
    assert!(matches!(parse_elf(&truncated, Arch::X86_64), Err(Error::InvalidElf(_))));
    let mut object = program(2, 0x40_0000);
    object[16] = 1;
    assert!(parse_elf(&object, Arch::X86_64).is_err());
}

#[test]
fn a_mapping_holds_its_segment() {
    let spec = parse_elf(&program(2, 0x40_0000), Arch::X86_64).ok().unwrap();
    let (loaded, mappings) = map_elf(&spec, 0x7000).ok().unwrap();
    assert_eq!((loaded.entry, loaded.bias), (0x40_00b0, 0));
    assert_eq!(loaded.program_headers, 0x40_0040);
    assert_eq!(mappings.len(), 1);
    assert_eq!((mappings[0].start, mappings[0].length), (0x40_0000, 0x3000));
    assert_eq!((mappings[0].file_start, mappings[0].file_end), (0, 188));
    assert!(mappings[0].protection.read && mappings[0].protection.execute);
    assert!(!mappings[0].protection.write);
}

#[test]
fn position_independent_images_are_moved() {
    let main = load_main(&program(3, 0), Arch::X86_64).ok().unwrap();
    assert_eq!((main.loaded.bias, main.loaded.entry), (PIE_BASE, PIE_BASE + 0xb0));
    assert_eq!(main.interpreter.as_deref(), Some(&b"/lib/ld.elf"[..]));
    let (interpreter, _) = load_interpreter(&program(3, 0), Arch::X86_64).ok().unwrap();
    assert_eq!(interpreter.bias, INTERPRETER_BASE);
}

#[test]
fn arguments_and_environment_are_on_the_stack() {
    let input = StackInput {
        executable: b"/bin/ls".to_vec(),
        arguments: vec![b"ls".to_vec(), b"-l".to_vec()],
        environment: vec![b"HOME=/".to_vec()],
        main: loaded(),
        interpreter_base: 0x4000_0000,
        random: [7; 16],
    };
    let image = build_stack(&input, &range()).ok().unwrap();
    assert_eq!(image.pointer % 16, 0);
    assert_eq!(image.pointer + image.bytes.len() as u64, image.base + image.length);
    assert_eq!(word(&image.bytes, 0), 2);
    for (place, text) in [(8, &b"ls\0"[..]), (16, b"-l\0"), (32, b"HOME=/\0")] {
        let offset = (word(&image.bytes, place) - image.pointer) as usize;
        assert_eq!(&image.bytes[offset..offset + text.len()], text);
    }
    assert_eq!(word(&image.bytes, 24), 0);
    assert_eq!(word(&image.bytes, 40), 0);
}

#[test]
fn a_program_starts_in_its_interpreter() {
    let input = init_input([3; 16]);
    assert_eq!(input.path, b"/sbin/init");
    assert_eq!(input.environment, vec![b"PATH=/usr/bin:/bin".to_vec(), b"HOME=/".to_vec()]);
    let interpreter = LoadedElf { entry: 0x4000_1000, bias: 0x4000_0000, ..loaded() };
    let program = load(input, &loaded(), Some(&interpreter), &range()).ok().unwrap();
    assert_eq!(program.entry, 0x4000_1000);
    let alone = load(init_input([3; 16]), &loaded(), None, &range()).ok().unwrap();
    assert_eq!(alone.entry, 0x40_0000);
}

#[test]
fn files_are_read_to_the_end() {
    assert!(matches!(read_file(10, 0, 4), Ok(ReadStep::More(4))));
    assert!(matches!(read_file(10, 4, 6), Ok(ReadStep::Done)));
    assert!(read_file(10, 4, 0).is_err());
}

#[test]
fn a_process_starts_with_defaults() {
    let mut process = Process::new_root(1, 0x9000);
    assert_eq!((process.pid(), process.session(), process.process_group()), (1, 1, 1));
    assert_eq!(process.cwd(), b"/");
    assert_eq!(process.umask(), 0o022);
    assert_eq!(process.set_umask(0o077), 0o022);
    assert_eq!(process.apply_umask(0o666), 0o600);
    assert_eq!(process.replace_address_space(0xa000), 0x9000);
    process.set_nice(7);
    assert_eq!(process.nice(), 7);
    assert!(process.set_cwd(b"tmp", &Ok(true)).is_ok());
    assert_eq!(process.cwd(), b"/tmp");
    assert_eq!(process.resolve_path(b"x"), b"/tmp/x");
    assert!(process.set_cwd(b"file", &Ok(false)).is_err());
    assert!(process.set_cwd(b"gone", &Err(roanix::fs::Error::NotFound)).is_err());
    assert_eq!(process.cwd(), b"/tmp");
}

#[test]
fn a_forked_process_inherits() {
    let mut parent = Process::new_root(1, 0x9000);
    assert!(matches!(parent.install_file(5, false), Ok(0)));
    parent.set_controlling_tty(44);
    let child = Process::fork_from(&parent, 2, 0xb000);
    assert_eq!((child.pid(), child.parent(), child.session()), (2, Some(1), 1));
    assert_eq!(child.controlling_tty_key(), Some(44));
    assert_eq!(child.descriptor(0), parent.descriptor(0));
    parent.clear_controlling_tty(45);
    assert!(parent.has_controlling_tty());
    parent.clear_controlling_tty(44);
    assert!(!parent.has_controlling_tty());
}

#[test]
fn a_session_is_made_by_no_group_leader() {
    let root = Process::new_root(1, 0x9000);
    let mut leader = Process::new_root(1, 0x9000);
    assert!(matches!(leader.create_session(), Err(Error::PermissionDenied)));
    let mut child = Process::fork_from(&root, 2, 0xb000);
    assert_eq!(syscall_process_setsid(&mut child), Ok(2));
    assert_eq!((child.session(), child.process_group()), (2, 2));
}

#[test]
fn pids_are_unique_and_children_are_reaped_once() {
    let mut groups = WaitGroups::new();
    let mut table = ProcessTable::new();
    let init = table.new_root(0x9000);
    assert!(matches!(table.wait_current(init, -1, false), Err(Error::NoChild)));
    let child = table.fork_from(init, 0xa000).unwrap();
    let other = table.fork_from(init, 0xb000).unwrap();
    assert!(init != child && child != other && init != other);
    assert!(matches!(table.wait_current(init, -1, true), Ok(WaitOutcome::Nothing)));
    assert!(matches!(table.wait_current(init, -1, false), Ok(WaitOutcome::Sleep)));
    exit_current(&mut table, child, 3, &mut groups);
    assert!(table.find(child).unwrap().is_exited());
    let reaped = table.wait_current(init, child as i64, false);
    assert!(matches!(reaped, Ok(WaitOutcome::Reaped(pid, 0x300)) if pid == child));
    assert!(table.find(child).is_none());
    assert!(matches!(table.wait_current(init, child as i64, false), Err(Error::NoChild)));
    exit_current_signal(&mut table, other, SIGKILL, &mut groups);
    assert!(matches!(table.wait_current(init, -1, false), Ok(WaitOutcome::Reaped(_, 9))));
}

#[test]
fn an_exiting_process_leaves_no_children() {
    let mut groups = WaitGroups::new();
    let mut table = ProcessTable::new();
    let init = table.new_root(0x9000);
    let parent = table.fork_from(init, 0xa000).unwrap();
    let child = table.fork_from(parent, 0xb000).unwrap();
    exit_current(&mut table, parent, 0, &mut groups);
    assert_eq!(table.find(child).unwrap().parent(), Some(init));
    assert_eq!(table.current_parent_pid(Some(child)), init);
    assert_eq!(table.current_parent_pid(Some(init)), 0);
}

#[test]
fn a_process_without_parent_disappears_with_its_last_thread() {
    let mut groups = WaitGroups::new();
    let mut table = ProcessTable::new();
    let init = table.new_root(0x9000);
    let child = table.fork_from(init, 0xa000).unwrap();
    let grandchild = table.fork_from(child, 0xb000).unwrap();
    table.find_mut(init).unwrap().register_thread();
    table.find_mut(child).unwrap().register_thread();
    exit_current(&mut table, init, 0, &mut groups);
    assert!(table.find(init).unwrap().is_exited());
    assert_eq!(table.find(child).unwrap().parent(), None);
    assert!(exit_current_thread_if_process_exited(&mut table, init));
    assert!(table.find(init).is_none());
    assert!(exit_current_thread(&mut table, child, &mut groups).is_some());
    assert!(table.find(child).is_none());
    assert_eq!(table.find(grandchild).unwrap().parent(), None);
}

#[test]
fn a_reaped_process_stays_for_its_own_threads() {
    let mut groups = WaitGroups::new();
    let mut table = ProcessTable::new();
    let init = table.new_root(0x9000);
    let child = table.fork_from(init, 0xa000).unwrap();
    for _ in 0..2 {
        table.find_mut(child).unwrap().register_thread();
    }
    exit_current(&mut table, child, 3, &mut groups);
    assert!(exit_current_thread_if_process_exited(&mut table, child));
    let reaped = table.wait_current(init, -1, false);
    assert!(matches!(reaped, Ok(WaitOutcome::Reaped(pid, 0x300)) if pid == child));
    assert!(table.find(child).is_none());
    assert!(table.find_own(child).unwrap().is_exited());
    assert!(matches!(table.get_process_group(Some(child), 0), Ok(group) if group == init));
    assert!(matches!(table.get_session(Some(child), 0), Ok(session) if session == init));
    assert!(matches!(table.get_session(Some(init), child), Err(Error::NoSuchProcess)));
    assert!(table.set_process_group(child, 0, 0).is_ok());
    assert!(matches!(table.get_process_group(Some(child), 0), Ok(group) if group == child));
    assert_eq!(table.current_parent_pid(Some(child)), init);
    assert!(matches!(table.wait_current(child, -1, false), Err(Error::NoChild)));
    assert!(matches!(
        table.kill(child, child as i64, 0, &mut groups),
        Err(Error::NoSuchProcess),
    ));
    assert!(table.kill(child, init as i64, 0, &mut groups).is_ok());
    assert!(exit_current_thread_if_process_exited(&mut table, child));
    assert!(table.find_own(child).is_none());
    assert!(matches!(table.get_process_group(Some(child), 0), Err(Error::InvalidArgument)));
}

#[test]
fn exit_codes_are_encoded() {
    assert_eq!(encode_exit(0), 0);
    assert_eq!(encode_exit(3), 0x300);
    assert_eq!(encode_exit(-1), 0xff00);
}

#[test]
fn a_signal_reaches_the_whole_group() {
    let mut groups = WaitGroups::new();
    let mut table = ProcessTable::new();
    let init = table.new_root(0x9000);
    let first = table.fork_from(init, 0xa000).unwrap();
    let second = table.fork_from(init, 0xb000).unwrap();
    assert!(table.set_process_group(init, first, 0).is_ok());
    assert!(table.set_process_group(init, second, first).is_ok());
    assert!(matches!(table.get_process_group(Some(init), second), Ok(group) if group == first));
    assert_eq!(syscall_process_getpgid(&table, Some(init), second), Ok(first as u64));
    assert_eq!(syscall_process_getsid(&table, Some(init), 0), Ok(init as u64));
    assert!(table.process_group_in_session(first, init));
    assert!(table.kill(init, -(first as i64), SIGINT as i32, &mut groups).is_ok());
    for pid in [first, second] {
        assert_eq!(table.find(pid).unwrap().signals().pending_mask(), 1 << 1);
    }
    assert_eq!(table.find(init).unwrap().signals().pending_mask(), 0);
    assert!(matches!(table.kill(init, 77, SIGINT as i32, &mut groups), Err(Error::NoSuchProcess)));
    assert!(matches!(table.kill(init, 1, 65, &mut groups), Err(Error::InvalidArgument)));
    assert!(table.kill(init, first as i64, 0, &mut groups).is_ok());
    table.send_kernel_process_group(first, SIGCONT, &mut groups);
    table.send_kernel(init, SIGURG, false, &mut groups);
    assert!(matches!(
        table.set_process_group(first, init, 0),
        Err(Error::NoSuchProcess),
    ));
}

#[test]
fn the_best_nice_value_counts() {
    let mut scheduler = scheduler();
    let mut table = ProcessTable::new();
    let init = table.new_root(0x9000);
    let child = table.fork_from(init, 0xa000).unwrap();
    let set = |table: &mut ProcessTable, scheduler: &mut Scheduler, who: usize, nice: i8| {
        table.set_priority(init, PriorityWhich::Process, who as u64, nice, scheduler).is_ok()
    };
    assert!(set(&mut table, &mut scheduler, child, 9));
    assert!(set(&mut table, &mut scheduler, init, 4));
    assert!(!set(&mut table, &mut scheduler, 99, 4));
    let best = table.get_priority(init, PriorityWhich::ProcessGroup, 0, &scheduler);
    assert!(matches!(best, Ok(4)));
    let one = table.get_priority(init, PriorityWhich::Process, child as u64, &scheduler);
    assert!(matches!(one, Ok(9)));
}

#[test]
fn threads_and_processes_are_spawned() {
    let mut scheduler = scheduler();
    let mut groups = WaitGroups::new();
    let mut table = ProcessTable::new();
    let image = Ok(InitImage { main: loaded(), interpreter: None });
    let begun = spawn_init(
        &mut table,
        &image,
        [3; 16],
        &range(),
        0x9000,
        &mut scheduler,
        &site(),
        &slot(5),
    );
    let init = begun.ok().unwrap();
    let pid = init.pid;
    assert_eq!(init.program.entry, 0x40_0000);
    assert_eq!(init.start, UserStart { entry: 0x40_0000, stack: init.program.stack.pointer });
    assert_eq!(table.find(pid).unwrap().thread_count(), 1);
    assert_eq!(table.find(pid).unwrap().address_space(), 0x9000);
    let failed = spawn_init(
        &mut table,
        &Err(Error::UnsupportedElf),
        [3; 16],
        &range(),
        0x9000,
        &mut scheduler,
        &site(),
        &slot(6),
    );
    assert!(matches!(failed, Err(Error::UnsupportedElf)));
    let (child, _) = fork_current(
        &mut table,
        Some(pid),
        &Ok(0xa000),
        0x11,
        &mut scheduler,
        &site(),
        &slot(7),
    )
    .ok()
    .unwrap();
    assert_eq!(table.find(child).unwrap().parent(), Some(pid));
    assert!(may_exec(&table, Some(child)).is_ok());
    let thread = create_thread(
        &mut table,
        Some(child),
        0x40_0000,
        0x50_0000,
        0x22,
        &range(),
        &mut scheduler,
        &site(),
        &slot(8),
    );
    let (_, begin, _) = thread.ok().unwrap();
    assert_eq!(begin, UserStart { entry: 0x40_0000, stack: 0x50_0000 });
    assert!(may_exec(&table, Some(child)).is_err());
    assert!(exit_current_thread(&mut table, child, &mut groups).is_none());
    assert!(!exit_current_thread_if_process_exited(&mut table, child));
    assert!(exit_current_thread(&mut table, child, &mut groups).is_some());
    assert!(table.find(child).unwrap().is_exited());
    let far = create_thread(
        &mut table,
        Some(pid),
        u64::MAX,
        0x50_0000,
        0,
        &range(),
        &mut scheduler,
        &site(),
        &slot(9),
    );
    assert!(matches!(far, Err(Error::InvalidArgument)));
}

#[test]
fn exec_keeps_unmarked_descriptors() {
    let scheduler = scheduler();
    let mut thread = scheduler.thread(1);
    let mut table = ProcessTable::new();
    let pid = table.new_root(0x9000);
    let process = table.find_mut(pid).unwrap();
    let _ = process.install_file(5, true);
    let _ = process.install_file(6, false);
    let program = load(init_input([3; 16]), &loaded(), None, &range()).ok().unwrap();
    let (space, begin) = exec_current(&mut table, pid, &program, 0xa000, &mut thread);
    assert_eq!(space, 0x9000);
    assert_eq!(begin, UserStart { entry: program.entry, stack: program.stack.pointer });
    let process = table.find(pid).unwrap();
    assert!(process.descriptor(0).is_none() && process.descriptor(1).is_some());
    assert_eq!(process.address_space(), 0xa000);
    assert!(set_current_thread_pointer(Some(&mut thread), 0x2000, &range()).is_ok());
    assert_eq!(thread.thread_pointer, 0x2000);
    assert!(set_current_thread_pointer(Some(&mut thread), u64::MAX, &range()).is_err());
}

#[test]
fn a_kill_is_never_blocked() {
    let mut manager = SignalManager::new();
    assert_eq!(manager.update_mask(SIG_SETMASK, u64::MAX), Ok(0));
    assert_eq!(manager.mask() & (1 << (SIGKILL - 1)), 0);
    assert_eq!(manager.mask() & (1 << (SIGSTOP - 1)), 0);
    assert!(manager.update_mask(SIG_UNBLOCK, 1).is_ok());
    assert_eq!(manager.mask() & 1, 0);
    assert!(manager.update_mask(SIG_BLOCK, 1).is_ok());
    assert_eq!(manager.mask() & 1, 1);
    assert_eq!(manager.update_mask(9, 0), Err(Errno::Invalid));
}

#[test]
fn standard_signals_coalesce_and_realtime_signals_queue() {
    let mut groups = WaitGroups::new();
    let mut manager = SignalManager::new();
    manager.restore_mask(u64::MAX);
    for _ in 0..2 {
        manager.enqueue(info(SIGINT), &mut groups);
        manager.enqueue(info(SIGRTMIN), &mut groups);
    }
    assert!(manager.has_matching(1 << (SIGINT - 1)));
    assert_eq!(manager.take_matching(1 << (SIGINT - 1)), Some(info(SIGINT)));
    assert_eq!(manager.take_matching(1 << (SIGINT - 1)), None);
    assert!(manager.take_matching(1 << (SIGRTMIN - 1)).is_some());
    assert!(manager.take_matching(1 << (SIGRTMIN - 1)).is_some());
    assert!(manager.take_matching(1 << (SIGRTMIN - 1)).is_none());
}

#[test]
fn stopping_and_continuing_cancel_each_other() {
    let mut groups = WaitGroups::new();
    let mut manager = SignalManager::new();
    manager.enqueue(info(SIGTSTP), &mut groups);
    manager.mark_stopped(WakeTarget { thread: 3, park_seq: 8 });
    let (_, resumed) = manager.enqueue(info(SIGCONT), &mut groups);
    assert_eq!(resumed, Some(WakeTarget { thread: 3, park_seq: 8 }));
    assert_eq!(manager.pending_mask() & (1 << (SIGTSTP - 1)), 0);
    manager.enqueue(info(SIGTSTP), &mut groups);
    assert_eq!(manager.pending_mask() & (1 << (SIGCONT - 1)), 0);
    for signal in [SIGCONT, SIGSTOP, SIGSTOP, SIGINT, SIGCONT, SIGCONT, SIGTSTP, SIGTSTP] {
        manager.enqueue(info(signal), &mut groups);
        let pending = manager.pending_mask();
        let stop = pending & (1 << (SIGSTOP - 1) | 1 << (SIGTSTP - 1)) != 0;
        assert!(!(stop && pending & (1 << (SIGCONT - 1)) != 0));
    }
}

fn context(arch: Arch) -> UserContext {
    UserContext {
        arch,
        range: range(),
        stack: 0x50_0000,
        registers: vec![0xab; 32],
    }
}

#[test]
fn a_handler_needs_its_frame() {
    let mut groups = WaitGroups::new();
    let mut manager = SignalManager::new();
    let user = context(Arch::X86_64);
    let action = SignalAction { handler: 0x40_0000, restorer: 0x41_0000, ..SignalAction::initial() };
    manager.set_action(SIGINT, action);
    manager.enqueue(info(SIGINT), &mut groups);
    let mut stack = UserMemory { start: 0x4f_0000, bytes: vec![0; 0x1_0000] };
    assert!(matches!(manager.deliver_on_return(false, &user, &mut stack), Delivery::Idle));
    match manager.deliver_on_return(true, &user, &mut stack) {
        Delivery::Enter(entry) => {
            let at = (entry.frame_address - stack.start) as usize;
            assert_eq!(stack.bytes[at..at + entry.frame.len()], entry.frame);
            let slot = (entry.return_slot.unwrap() - stack.start) as usize;
            assert_eq!(stack.bytes[slot..slot + 8], 0x41_0000u64.to_le_bytes());
        },
        _ => panic!("not entered"),
    }
    let mut other = SignalManager::new();
    other.set_action(SIGINT, action);
    other.enqueue(info(SIGINT), &mut groups);
    let mut none = UserMemory { start: 0x4f_0000, bytes: Vec::new() };
    assert!(matches!(other.deliver_on_return(true, &user, &mut none), Delivery::Exit(11)));
}

#[test]
fn signals_have_their_default_effect() {
    let mut groups = WaitGroups::new();
    let mut manager = SignalManager::new();
    assert!(matches!(manager.deliver_pending(&context(Arch::X86_64)), Delivery::Idle));
    manager.enqueue(info(SIGCHLD), &mut groups);
    assert!(matches!(manager.deliver_pending(&context(Arch::X86_64)), Delivery::Idle));
    manager.enqueue(info(SIGINT), &mut groups);
    assert!(matches!(manager.deliver_pending(&context(Arch::X86_64)), Delivery::Exit(SIGINT)));
    manager.enqueue(info(SIGTSTP), &mut groups);
    assert!(matches!(manager.deliver_pending(&context(Arch::X86_64)), Delivery::Stop));
    manager.set_action(SIGKILL, SignalAction { handler: 0x400, ..SignalAction::initial() });
    manager.enqueue(info(SIGKILL), &mut groups);
    assert!(matches!(manager.deliver_pending(&context(Arch::X86_64)), Delivery::Exit(SIGKILL)));
}

#[test]
fn a_handler_return_restores_the_registers() {
    let mut groups = WaitGroups::new();
    let mut manager = SignalManager::new();
    manager.restore_mask(1 << 5);
    let action = SignalAction { handler: 0x6000, flags: 0, restorer: 0x7000, mask: 1 << 7 };
    manager.set_action(SIGINT, action);
    manager.enqueue(info(SIGINT), &mut groups);
    let entry = match manager.deliver_pending(&context(Arch::X86_64)) {
        Delivery::Enter(entry) => entry,
        _ => panic!("no handler"),
    };
    assert_eq!((entry.handler, entry.restorer, entry.signal), (0x6000, 0x7000, SIGINT));
    assert_eq!(manager.mask(), 1 << 5 | 1 << 7 | 1 << 1);
    assert_eq!(word(&entry.frame, 0), SIGNAL_FRAME_MAGIC);
    let frame = read_signal_frame(&entry.frame, 32).ok().unwrap();
    assert_eq!((frame.old_mask, frame.saved.clone()), (1 << 5, vec![0xab; 32]));
    assert_eq!(manager.restore_signal_frame(frame, true), Ok(vec![0xab; 32]));
    assert_eq!(manager.mask(), 1 << 5);
    let mut forged = entry.frame.clone();
    forged[0] ^= 1;
    assert!(matches!(read_signal_frame(&forged, 32), Err(Errno::Fault)));
}

#[test]
fn signal_frames_lie_below_the_stack() {
    let small = UserRange { min: 0x1000, max: 0x2_0000 };
    assert_eq!(
        signal_frame_addresses(Arch::X86_64, &small, 0x8000, 176),
        Some((0x7ec0, 0x7eb8, Some(0x7eb8))),
    );
    assert_eq!(
        signal_frame_addresses(Arch::Riscv64, &small, 0x8000, 176),
        Some((0x7f40, 0x7f40, None)),
    );
    assert_eq!(signal_frame_addresses(Arch::Riscv64, &small, 0x1010, 176), None);
    assert!(stack_contains(SignalStack { pointer: 0x100, size: 0x10 }, 0x10f));
    assert!(!stack_contains(SignalStack { pointer: 0x100, size: 0x10 }, 0x110));
}

#[test]
fn signal_records_are_laid_out() {
    let record = siginfo(&info(SIGINT));
    assert_eq!(record.len(), 128);
    assert_eq!(record[..24], [2, 0, 0, 0, 0, 0, 0, 0, 0, 0, 0, 0, 0, 0, 0, 0, 4, 0, 0, 0, 5, 0, 0, 0]);
    let mut read = Vec::new();
    encode_signalfd_info(&mut read, &info(SIGINT));
    assert_eq!(read.len(), 128);
    assert_eq!(read[..20], [2, 0, 0, 0, 0, 0, 0, 0, 0, 0, 0, 0, 4, 0, 0, 0, 5, 0, 0, 0]);
}

#[test]
fn signal_descriptors_take_pending_signals() {
    let mut groups = WaitGroups::new();
    let mut manager = SignalManager::new();
    manager.restore_mask(u64::MAX);
    let mut fd = SignalFd::new(1 << 1, true);
    assert!(matches!(fd.read(Some(&mut manager), 128), Err(Errno::TryAgain)));
    assert!(matches!(fd.read(Some(&mut manager), 100), Err(Errno::Invalid)));
    manager.enqueue(info(SIGINT), &mut groups);
    match fd.read(Some(&mut manager), 300) {
        Ok(SignalRead::Data(data)) => assert_eq!((data.len(), data[0]), (128, SIGINT)),
        _ => panic!("no record"),
    }
    fd.set_nonblocking(false);
    assert!(!fd.is_nonblocking());
    assert!(matches!(fd.read(Some(&mut manager), 128), Ok(SignalRead::Sleep)));
    fd.update(1 << 3, true);
    assert_eq!(fd.mask, 1 << 3);
}

#[test]
fn signal_actions_read_back() {
    let mut manager = SignalManager::new();
    let mut memory = UserMemory { start: 0x4000, bytes: vec![0; 400] };
    let mut action = Vec::new();
    for field in [0x6000u64, 4, 0x7000, 0x20] {
        action.extend_from_slice(&field.to_le_bytes());
    }
    memory.bytes[..32].copy_from_slice(&action);
    let set = |manager: &mut SignalManager, memory: &mut UserMemory, signal, new, old| {
        syscall_signal_action(manager, memory, signal, new, old, &range())
    };
    assert_eq!(set(&mut manager, &mut memory, SIGINT as i32, 0x4000, 0), Ok(0));
    assert_eq!(set(&mut manager, &mut memory, SIGINT as i32, 0, 0x4000 + 160), Ok(0));
    assert_eq!(memory.bytes[160..192], action);
    assert_eq!(set(&mut manager, &mut memory, SIGKILL as i32, 0x4000, 0), Err(Errno::Invalid));
    assert_eq!(set(&mut manager, &mut memory, 65, 0x4000, 0), Err(Errno::Invalid));
    assert_eq!(set(&mut manager, &mut memory, SIGINT as i32, 0x9000, 0), Err(Errno::Fault));
}

#[test]
fn signal_masks_are_read_and_written() {
    let mut groups = WaitGroups::new();
    let mut manager = SignalManager::new();
    let mut memory = UserMemory { start: 0x4000, bytes: vec![0; 400] };
    memory.bytes[0] = 0x0f;
    assert_eq!(read_user_mask(&memory, 0x4000), Ok(0x0f));
    assert_eq!(timed_wait_mask(&memory, 0x4000), Ok(0x0f));
    assert_eq!(syscall_signal_mask(&mut manager, &mut memory, SIG_BLOCK, 0x4000, 0x4080), Ok(0));
    assert_eq!(manager.mask(), 0x0f);
    manager.enqueue(info(SIGINT), &mut groups);
    assert_eq!(syscall_signal_pending(&manager, &mut memory, 0x4080), Ok(0));
    assert_eq!(memory.bytes[0x80], 2);
    memory.bytes[0] = 0;
    assert_eq!(syscall_signal_suspend(&mut manager, &memory, 0x4000), Ok(()));
    assert_eq!(manager.mask(), 0);
    assert_eq!(manager.take_suspend_restore_mask(), Some(0x0f));
    assert_eq!(manager.take_suspend_restore_mask(), None);
}

#[test]
fn alternate_stacks_are_checked() {
    let mut manager = SignalManager::new();
    let mut memory = UserMemory { start: 0x4000, bytes: vec![0; 96] };
    memory.bytes[..8].copy_from_slice(&0x8000u64.to_le_bytes());
    memory.bytes[16..24].copy_from_slice(&4096u64.to_le_bytes());
    let set = |manager: &mut SignalManager, memory: &mut UserMemory, pointer| {
        syscall_signal_altstack(manager, memory, pointer, 0x4000, 0x4020, &range())
    };
    assert_eq!(set(&mut manager, &mut memory, 0x10), Ok(0));
    assert_eq!(manager.alt_stack(), Some(SignalStack { pointer: 0x8000, size: 4096 }));
    assert_eq!(memory.bytes[0x28], 2);
    assert_eq!(set(&mut manager, &mut memory, 0x8800), Err(Errno::Permission));
    memory.bytes[16..24].copy_from_slice(&100u64.to_le_bytes());
    assert_eq!(set(&mut manager, &mut memory, 0x10), Err(Errno::OutOfMemory));
    manager.replace_alt_stack(None);
    assert_eq!(manager.alt_stack(), None);
}

#[test]
fn signal_waits_time_out() {
    let mut groups = WaitGroups::new();
    let mut manager = SignalManager::new();
    manager.restore_mask(2);
    assert_eq!(wait_for_matching_signal(&mut manager, 2, None, 5), Ok(WaitStep::Sleep));
    assert_eq!(wait_for_matching_signal(&mut manager, 2, Some(9), 5), Ok(WaitStep::SleepFor(4)));
    assert_eq!(wait_for_matching_signal(&mut manager, 2, Some(5), 5), Err(Errno::TryAgain));
    manager.enqueue(info(SIGRTMIN), &mut groups);
    assert_eq!(wait_for_matching_signal(&mut manager, 2, None, 5), Err(Errno::Interrupted));
    assert!(manager.prepare_interrupt_wait());
    manager.enqueue(info(SIGINT), &mut groups);
    let mut memory = UserMemory { start: 0x4000, bytes: vec![0; 128] };
    match wait_for_matching_signal(&mut manager, 2, None, 5) {
        Ok(WaitStep::Ready(ready)) => {
            assert_eq!(write_user_signal_info(&mut memory, 0x4000, &ready), Ok(SIGINT as u64));
        },
        _ => panic!("no signal"),
    }
    assert_eq!(memory.bytes[0], SIGINT);
}

#[test]
fn signal_numbers_are_checked() {
    assert_eq!(validate_signal(64), Ok(64));
    assert_eq!(validate_signal(0), Err(Errno::Invalid));
    assert!(matches!(validate_optional_signal(0), Ok(None)));
    assert!(matches!(validate_optional_signal(65), Err(Error::InvalidArgument)));
}

#[test]
fn waiting_writes_the_status() {
    let mut groups = WaitGroups::new();
    let mut table = ProcessTable::new();
    let init = table.new_root(0x9000);
    let child = table.fork_from(init, 0xa000).unwrap();
    let mut memory = UserMemory { start: 0x4000, bytes: vec![0xff; 4] };
    let wait = |table: &mut ProcessTable, memory: &mut UserMemory, flags| {
        syscall_process_wait(table, memory, init, -1, 0x4000, flags)
    };
    assert_eq!(wait(&mut table, &mut memory, 0), Ok(CallStep::Sleep));
    assert_eq!(wait(&mut table, &mut memory, 1), Ok(CallStep::Done(0)));
    assert_eq!(wait(&mut table, &mut memory, 64), Err(Errno::Invalid));
    exit_current(&mut table, child, 7, &mut groups);
    assert_eq!(wait(&mut table, &mut memory, 0), Ok(CallStep::Done(child as u64)));
    assert_eq!(memory.bytes, vec![0, 7, 0, 0]);
    assert_eq!(wait(&mut table, &mut memory, 0), Err(Errno::NoChild));
    assert_eq!(process_result(Ok(5)), Ok(5));
    assert_eq!(process_result(Err(Error::NoSuchProcess)), Err(Errno::NoProcess));
}

#[test]
fn signal_descriptors_are_opened() {
    let mut process = Process::new_root(1, 0x9000);
    let mut memory = UserMemory { start: 0x4000, bytes: vec![0; 128] };
    memory.bytes[0] = 6;
    let (fd, signals) = syscall_signal_fd(&mut process, &memory, -1, 0x4000, 0o4000, 3).unwrap();
    assert_eq!((fd, signals.mask, signals.nonblocking), (0, 6, true));
    assert_eq!(syscall_signal_fd(&mut process, &memory, -1, 0x4000, 1, 3), Err(Errno::Invalid));
    assert_eq!(
        syscall_signal_fd(&mut process, &memory, 9, 0x4000, 0, 3),
        Err(Errno::BadFileDescriptor),
    );
}

#[test]
fn thread_names_are_bounded() {
    assert_eq!(check_thread_name(&Ok(b"worker".to_vec()), 15), Ok(()));
    assert_eq!(check_thread_name(&Ok(vec![b'a'; 16]), 15), Err(Errno::Range));
    let mut memory = UserMemory { start: 0x4000, bytes: vec![1; 8] };
    assert_eq!(report_thread_name(&mut memory, b"init", 0x4000, 8), Ok(0));
    assert_eq!(memory.bytes, b"init\0\x01\x01\x01");
    assert_eq!(report_thread_name(&mut memory, b"init", 0x4000, 4), Err(Errno::Range));
    assert_eq!(report_thread_name(&mut memory, b"init", 0x9000, 8), Err(Errno::Fault));
}

#[test]
fn blocked_signals_wait() {
    let mut groups = WaitGroups::new();
    let mut manager = SignalManager::new();
    manager.restore_mask(1 << (SIGINT - 1));
    manager.enqueue(info(SIGINT), &mut groups);
    assert!(matches!(manager.deliver_pending(&context(Arch::X86_64)), Delivery::Idle));
    assert_eq!(manager.pending_mask(), 1 << (SIGINT - 1));
    manager.restore_mask(0);
    assert!(matches!(manager.deliver_pending(&context(Arch::X86_64)), Delivery::Exit(SIGINT)));
}

#[test]
fn program_headers_must_be_aligned() {
    let mut bytes = program(2, 0x40_0000);
    assert!(check_alignment(&bytes, Arch::X86_64));
    bytes[32] += 1;
    assert!(!check_alignment(&bytes, Arch::X86_64));
    bytes[56] = 0;
    assert!(matches!(parse_elf(&bytes, Arch::X86_64), Err(Error::InvalidElf(_))));
}
