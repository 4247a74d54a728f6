use roanix::aligned::AlignedBytes;
use roanix::mem::UserMemory;
use roanix::sys::fbcon::{byte_of, pack_color, FbCon, FramebufferInfo, Mask, FG_RGB, FONT_BYTES};
use roanix::sys::fireworks::{
    burst_count, fp_to_int, heap_status, int_to_fp, launch_rocket, mul_fp, next_launch,
    pixel_lock_index, start, throw_particle, unit_vector, Canvas, Chance, HeapStats, Population,
    FP_ONE,
};
use roanix::sys::firmware::{
    acpi_rsdp, all_cpus_support_sstc, all_support_sstc, boot_module, checksum, cpu_supports_sstc,
    decode_frequency, dtb, dtb_length, dtb_source, survey_tree, timebase_frequency, validate_dtb,
    DtbSource, Goal, Module,
};
use roanix::sys::panic::{
    frame_line, frame_ptr_in_bounds, panic_line, perform_bt, shoot_down_other_cpus, PanicState,
    BACKTRACE_STACK_WINDOW,
};
use roanix::sys::random::{fill_bytes, mix_bytes, splitmix64, Generator};
use roanix::sys::sched_test::{
    lag_limits, migration_required_for, monitor, phase_end, schedule, should_block_sleep,
    SchedulerStressState, StressConfig, Violation, Watch, Worker, WorkerKind, XorShift64,
};
use roanix::sys::symbols::{
    check_sections, check_string, check_symbols, find_symbol, load_symbols, symbol_name,
    symbol_section,
};
use roanix::sys::{fbcon, fireworks};
use roanix::Arch;
fn screen() -> FramebufferInfo {
    FramebufferInfo {
        is_rgb: true,
        bpp: 32,
        width: 16,
        height: 32,
        pitch: 64,
        red: Mask { size: 8, shift: 16 },
        green: Mask { size: 8, shift: 8 },
        blue: Mask { size: 8, shift: 0 },
    }
}

fn font() -> Vec<u8> {
    let mut font = vec![0; FONT_BYTES];
    font[b'A' as usize * 16] = 0x80;
    font
}

#[test]
fn glyphs_are_drawn() {
    let mut console = FbCon::probe(screen()).unwrap();
    console.put_byte(&font(), b'A');
    assert_eq!(console.pixels()[..8], [0xe9, 0xde, 0xd8, 0, 0, 0, 0, 0]);
    assert_eq!(pack_color(FG_RGB, screen().red, screen().green, screen().blue), FG_RGB);
    assert_eq!(byte_of(0x11223344, 1), 0x33);
    assert!(FbCon::probe(FramebufferInfo { is_rgb: false, ..screen() }).is_none());
}

#[test]
fn escapes_are_invisible() {
    let mut plain = FbCon::probe(screen()).unwrap();
    let mut colored = FbCon::probe(screen()).unwrap();
    plain.write_record(&font(), b"A");
    assert_eq!(plain.pixels()[..4], [0xe9, 0xde, 0xd8, 0]);
    colored.write_record(&font(), b"\x1b[1;31mA\x1b[0m");
    assert_eq!(plain.pixels(), colored.pixels());
}

#[test]
fn scrolling_moves_rows() {
    let mut console = FbCon::probe(screen()).unwrap();
    console.put_byte(&font(), b'\n');
    console.put_byte(&font(), b'A');
    assert_eq!(console.pixels()[16 * 64..16 * 64 + 4], [0xe9, 0xde, 0xd8, 0]);
    console.put_byte(&font(), b'\n');
    assert_eq!(console.pixels()[..4], [0xe9, 0xde, 0xd8, 0]);
    assert_eq!(console.pixels()[16 * 64..16 * 64 + 4], [0, 0, 0, 0]);
    let mut registered = None;
    assert_eq!(fbcon::register(&mut registered, None), (false, false));
    assert!(fbcon::register(&mut registered, Some(screen())).0);
    assert!(registered.is_some());
}

#[test]
fn fixed_point_numbers() {
    assert_eq!(int_to_fp(3), 3 * FP_ONE);
    assert_eq!(fp_to_int(3 * FP_ONE + 100), 3);
    assert_eq!(mul_fp(2 * FP_ONE, 3 * FP_ONE), 6 * FP_ONE);
    assert_eq!(unit_vector(0), (FP_ONE, 0));
    assert_eq!(unit_vector(1024), (0, FP_ONE));
    assert_eq!(unit_vector(2048), (-FP_ONE, 0));
}

#[test]
fn flights_end() {
    let mut chance = Chance::new();
    let mut rocket = launch_rocket(320, 240, &mut chance);
    let mut steps = 0;
    while rocket.flight.is_flying() {
        rocket.advance();
        steps += 1;
        assert!(steps < 1000);
    }
    assert!((100..200).contains(&rocket.explosion_range));
    let (x, y) = rocket.flight.pixel();
    let mut other = Chance { state: chance.state };
    let mut particle = rocket.throw(&mut chance);
    assert_eq!(throw_particle(x, y, rocket.explosion_range, &mut other), particle);
    assert!(particle.is_flying());
    while particle.is_flying() {
        particle.advance();
    }
    let far = throw_particle(-523_000, 523_000, 199, &mut chance);
    assert_eq!(far.pixel(), (-523_000, 523_000));
    assert!((100..200).contains(&burst_count(&mut chance)));
    let (count, delay_ms) = next_launch(&mut chance);
    assert!((1..=2).contains(&count) && (2000..4000).contains(&delay_ms));
}

#[test]
fn the_population_is_limited() {
    let mut population = Population { active: 0, total: 0, peak: 0 };
    assert!(population.try_reserve(2));
    assert!(population.try_reserve(2));
    assert!(!population.try_reserve(2));
    population.leave();
    assert!(population.try_reserve(2));
    assert_eq!((population.active, population.total, population.peak), (2, 3, 2));
}

#[test]
fn pixels_are_apart() {
    let canvas = Canvas::probe(screen()).unwrap();
    let places: Vec<usize> =
        (0..4).flat_map(|y| (0..4).map(move |x| (x, y))).filter_map(|(x, y)| canvas.find_pixel(x, y)).collect();
    let mut sorted = places.clone();
    sorted.sort();
    sorted.dedup();
    assert_eq!(sorted.len(), 16);
    assert_eq!(canvas.find_pixel(-1, 0), None);
    assert_eq!(canvas.find_pixel(0, 1000), None);
    assert_eq!(pixel_lock_index(3, 2), 35);
    let mut started = false;
    let mut registered = None;
    let mut pixels = vec![0xee; 64 * 32];
    assert!(fireworks::register(&mut registered, Some(screen()), &mut pixels));
    assert!(pixels.iter().all(|byte| *byte == 0));
    pixels[0] = 1;
    assert!(fireworks::register(&mut registered, Some(screen()), &mut pixels));
    assert_eq!(pixels[0], 1);
    assert!(!fireworks::register(&mut None, None, &mut pixels));
    assert_eq!(start(&mut started, false), (false, false));
    assert_eq!(start(&mut started, true), (true, true));
    assert_eq!(start(&mut started, true), (true, false));
}

#[test]
fn a_pixel_is_set_alone() {
    let canvas = Canvas::probe(screen()).unwrap();
    let mut pixels = vec![0u8; 64 * 32];
    canvas.set_pixel(&mut pixels, 0x0403_0201, 2, 1);
    assert_eq!(pixels[72..76], [1, 2, 3, 4]);
    assert_eq!(pixels.iter().filter(|byte| **byte != 0).count(), 4);
    canvas.set_pixel(&mut pixels, 0xffff_ffff, -1, 0);
    canvas.set_pixel(&mut pixels, 0xffff_ffff, 16, 0);
    canvas.set_pixel(&mut pixels, 0xffff_ffff, 0, 32);
    assert_eq!(pixels.iter().filter(|byte| **byte != 0).count(), 4);
    canvas.clear_view(&mut pixels);
    assert!(pixels.iter().all(|byte| *byte == 0));
}

#[test]
fn a_burst_fills_the_sky() {
    let mut population = Population { active: 398, total: 400, peak: 399 };
    assert_eq!(population.burst(100, 400), 2);
    assert_eq!((population.active, population.total, population.peak), (400, 402, 400));
    assert_eq!(population.burst(100, 400), 0);
    population.join();
    assert_eq!((population.active, population.total, population.peak), (401, 403, 401));
}

#[test]
fn heap_status_is_in_kib() {
    let status = heap_status(HeapStats {
        slab_used_bytes: 3000,
        slab_free_bytes: 2047,
        large_bytes: 5000,
        free_pages: 7,
        slab_pages: 2,
        large_pages: 3,
        reserved_pages: 4,
        retired_pages: 5,
    });
    assert_eq!((status.used_kib, status.free_kib), (7, 1));
    assert_eq!((status.free_pages, status.slab_pages, status.large_pages), (7, 2, 3));
    assert_eq!(status.held_pages, 9);
}

#[test]
fn firmware_tables_are_checked() {
    let mut table = vec![0; 4096];
    table[..8].copy_from_slice(b"RSD PTR ");
    table[8] = 0u8.wrapping_sub(checksum(&table[..20]));
    assert_eq!(checksum(&table[..20]), 0);
    assert_eq!(acpi_rsdp(&table).map(|rsdp| rsdp.len()), Some(20));
    table[9] ^= 1;
    assert_eq!(acpi_rsdp(&table), None);
}

fn node(block: &mut Vec<u8>, name: &str) {
    block.extend_from_slice(&1u32.to_be_bytes());
    block.extend_from_slice(name.as_bytes());
    block.push(0);
    while block.len() % 4 != 0 {
        block.push(0);
    }
}

fn property(block: &mut Vec<u8>, strings: &mut Vec<u8>, name: &str, value: &[u8]) {
    block.extend_from_slice(&3u32.to_be_bytes());
    block.extend_from_slice(&(value.len() as u32).to_be_bytes());
    block.extend_from_slice(&(strings.len() as u32).to_be_bytes());
    strings.extend_from_slice(name.as_bytes());
    strings.push(0);
    block.extend_from_slice(value);
    while block.len() % 4 != 0 {
        block.push(0);
    }
}

fn tree(isa: &[u8]) -> Vec<u8> {
    let mut block = Vec::new();
    let mut strings = Vec::new();
    node(&mut block, "");
    property(&mut block, &mut strings, "#address-cells", &2u32.to_be_bytes());
    property(&mut block, &mut strings, "#size-cells", &2u32.to_be_bytes());
    node(&mut block, "cpus");
    property(&mut block, &mut strings, "#address-cells", &1u32.to_be_bytes());
    property(&mut block, &mut strings, "#size-cells", &0u32.to_be_bytes());
    property(&mut block, &mut strings, "timebase-frequency", &10_000_000u32.to_be_bytes());
    node(&mut block, "cpu@0");
    property(&mut block, &mut strings, "reg", &0u32.to_be_bytes());
    property(&mut block, &mut strings, "riscv,isa", isa);
    for _ in 0..3 {
        block.extend_from_slice(&2u32.to_be_bytes());
    }
    block.extend_from_slice(&9u32.to_be_bytes());
    framed(&block, &strings)
}

fn framed(block: &[u8], strings: &[u8]) -> Vec<u8> {
    let block_at = 56;
    let strings_at = block_at + block.len();
    let total = strings_at + strings.len();
    let mut bytes = Vec::new();
    for field in [
        0xd00d_feed,
        total,
        block_at,
        strings_at,
        40,
        17,
        16,
        0,
        strings.len(),
        block.len(),
    ] {
        bytes.extend_from_slice(&(field as u32).to_be_bytes());
    }
    bytes.extend_from_slice(&[0; 16]);
    bytes.extend_from_slice(block);
    bytes.extend_from_slice(strings);
    bytes
}

#[test]
fn a_frequency_is_read_without_what_follows() {
    let mut block = Vec::new();
    let mut strings = Vec::new();
    node(&mut block, "");
    property(&mut block, &mut strings, "/cpus", b"/cpus\0");
    for _ in 0..100 {
        node(&mut block, "bus");
    }
    for _ in 0..100 {
        block.extend_from_slice(&2u32.to_be_bytes());
    }
    let before = block.clone();
    node(&mut block, "cpus");
    property(&mut block, &mut strings, "timebase-frequency", &7u32.to_be_bytes());
    block.extend_from_slice(&[0, 0, 0, 3, 0xff]);
    let bytes = framed(&block, &strings);
    assert_eq!(survey_tree(&bytes, Goal::Processor(0)), None);
    assert_eq!(survey_tree(&bytes, Goal::Frequency), Some(true));
    assert_eq!(timebase_frequency(Some(&bytes)), Some(7));
    let mut block = before;
    block.extend_from_slice(&2u32.to_be_bytes());
    block.extend_from_slice(&9u32.to_be_bytes());
    assert_eq!(survey_tree(&framed(&block, &strings), Goal::Frequency), None);
    let mut block = Vec::new();
    node(&mut block, "");
    node(&mut block, "cpus");
    block.extend_from_slice(&2u32.to_be_bytes());
    block.extend_from_slice(&2u32.to_be_bytes());
    block.extend_from_slice(&9u32.to_be_bytes());
    let bytes = framed(&block, &strings);
    assert_eq!(survey_tree(&bytes, Goal::Frequency), Some(true));
    assert_eq!(timebase_frequency(Some(&bytes)), None);
}

#[test]
fn a_device_tree_is_read() {
    let bytes = tree(b"rv64imafdc_sstc\0");
    assert_eq!(dtb_length(&bytes), Some(bytes.len()));
    assert_eq!(survey_tree(&bytes, Goal::Processor(0)), Some(true));
    assert_eq!(timebase_frequency(Some(&bytes)), Some(10_000_000));
    assert_eq!(all_cpus_support_sstc(Some(&bytes)), Some(true));
    let plain = tree(b"rv64imafdc\0");
    assert_eq!(survey_tree(&plain, Goal::Processor(9)), Some(true));
    assert_eq!(all_cpus_support_sstc(Some(&plain)), Some(false));
    assert_eq!(timebase_frequency(None), None);
    assert_eq!(timebase_frequency(Some(b"no tree at all")), None);
    assert_eq!(all_cpus_support_sstc(Some(b"no tree at all")), None);
    assert_eq!(all_cpus_support_sstc(None), None);
}

fn processors(extensions: &[&[u8]], broken: bool) -> Vec<u8> {
    let mut block = Vec::new();
    let mut strings = Vec::new();
    node(&mut block, "");
    node(&mut block, "cpus");
    node(&mut block, "cpu-map");
    block.extend_from_slice(&2u32.to_be_bytes());
    for list in extensions {
        node(&mut block, "cpu@7");
        property(&mut block, &mut strings, "riscv,isa-extensions", list);
        block.extend_from_slice(&2u32.to_be_bytes());
    }
    if broken {
        block.extend_from_slice(&[0, 0, 0, 1, 0xff]);
    } else {
        block.extend_from_slice(&2u32.to_be_bytes());
        block.extend_from_slice(&2u32.to_be_bytes());
    }
    block.extend_from_slice(&9u32.to_be_bytes());
    framed(&block, &strings)
}

#[test]
fn processors_are_read_up_to_the_first_without_the_timer() {
    let all = processors(&[b"zba\0sstc\0", b"sstc\0"], false);
    assert_eq!(all_cpus_support_sstc(Some(&all)), Some(true));
    let second = processors(&[b"sstc\0", b"zba\0", b"sstc\0"], true);
    assert_eq!(all_cpus_support_sstc(Some(&second)), Some(false));
    assert_eq!(survey_tree(&second, Goal::Processor(2)), Some(true));
    assert_eq!(survey_tree(&second, Goal::Processor(3)), None);
    let none = processors(&[], false);
    assert_eq!(all_cpus_support_sstc(Some(&none)), Some(false));
    let unread = processors(&[b"sstc\0"], true);
    assert_eq!(all_cpus_support_sstc(Some(&unread)), None);
}

#[test]
fn a_found_tree_is_whole() {
    let bytes = tree(b"rv64imafdc\0");
    let mut longer = bytes.clone();
    longer.extend_from_slice(b"padding");
    assert_eq!(validate_dtb(&longer), Some(bytes.clone()));
    assert_eq!(validate_dtb(&bytes[..bytes.len() - 1]), None);
    assert_eq!(validate_dtb(b"no tree at all, and short"), None);
    let mut cut = bytes.clone();
    cut[60] = 7;
    assert_eq!(survey_tree(&cut, Goal::Frequency), None);
    let modules = vec![Module { tag: b"dtb".to_vec(), path: b"/a".to_vec(), bytes: Some(longer) }];
    assert!(boot_module(&modules, b"dtb").is_some());
    assert!(boot_module(&modules, b"initramfs").is_none());
    let mut source = DtbSource::Unknown;
    assert_eq!(dtb(&modules, None, &mut source), Some(bytes.clone()));
    assert_eq!(source, DtbSource::Module);
    let mut other = DtbSource::Unknown;
    assert_eq!(dtb(&Vec::new(), Some(bytes.clone()), &mut other), Some(bytes));
    assert_eq!(other, DtbSource::Firmware);
    assert_eq!(dtb(&Vec::new(), Some(b"no tree at all".to_vec()), &mut other), None);
    assert_eq!(other, DtbSource::Firmware);
    assert_eq!(dtb_source(DtbSource::Unknown), None);
}

#[test]
fn properties_are_decoded() {
    assert_eq!(decode_frequency(Some(vec![0, 0, 1, 0])), Some(256));
    assert_eq!(decode_frequency(Some(vec![0, 0, 0, 1, 0, 0, 0, 0])), Some(1 << 32));
    assert_eq!(decode_frequency(Some(vec![1])), None);
    assert_eq!(decode_frequency(None), None);
    assert!(cpu_supports_sstc(&Some(b"zba\0sstc\0".to_vec()), &None));
    assert!(!cpu_supports_sstc(&Some(b"zba\0".to_vec()), &None));
    assert!(!cpu_supports_sstc(&None, &None));
    let with = Some((None, Some(b"rv64_sstc\0".to_vec())));
    let without = Some((None, Some(b"rv64\0".to_vec())));
    assert_eq!(all_support_sstc(&with, 0), None);
    assert_eq!(all_support_sstc(&without, 1), Some(false));
    assert_eq!(all_support_sstc(&None, 0), Some(false));
    assert_eq!(all_support_sstc(&None, 2), Some(true));
}

fn section(bytes: &mut Vec<u8>, name: u32, kind: u32, place: [usize; 3], link: u32, align: usize) {
    bytes.extend_from_slice(&name.to_le_bytes());
    bytes.extend_from_slice(&kind.to_le_bytes());
    bytes.extend_from_slice(&[0; 16]);
    bytes.extend_from_slice(&place[0].to_le_bytes());
    bytes.extend_from_slice(&place[1].to_le_bytes());
    bytes.extend_from_slice(&link.to_le_bytes());
    bytes.extend_from_slice(&0u32.to_le_bytes());
    bytes.extend_from_slice(&align.to_le_bytes());
    bytes.extend_from_slice(&place[2].to_le_bytes());
}

fn kernel() -> AlignedBytes {
    let names = b"\0.symtab\0.strtab\0.shstrtab\0";
    let strings = b"\0_ZN6roanix4main17h0123456789abcdefE\0start\0";
    let mut bytes = b"\x7fELF\x02\x01\x01\0\0\0\0\0\0\0\0\0".to_vec();
    let symbols_at = 64;
    let strings_at = symbols_at + 72;
    let names_at = strings_at + strings.len();
    let sections_at = (names_at + names.len() + 7) / 8 * 8;
    bytes.extend_from_slice(&2u16.to_le_bytes());
    bytes.extend_from_slice(&62u16.to_le_bytes());
    bytes.extend_from_slice(&1u32.to_le_bytes());
    bytes.extend_from_slice(&[0; 16]);
    bytes.extend_from_slice(&sections_at.to_le_bytes());
    bytes.extend_from_slice(&0u32.to_le_bytes());
    for field in [64u16, 56, 0, 64, 4, 3] {
        bytes.extend_from_slice(&field.to_le_bytes());
    }
    for (name, value, size) in [(0u32, 0u64, 0u64), (1, 0x1000, 0x80), (37, 0x2000, 0x10)] {
        bytes.extend_from_slice(&name.to_le_bytes());
        bytes.extend_from_slice(&[0x12, 0, 1, 0]);
        bytes.extend_from_slice(&value.to_le_bytes());
        bytes.extend_from_slice(&size.to_le_bytes());
    }
    bytes.extend_from_slice(strings);
    bytes.extend_from_slice(names);
    bytes.resize(sections_at, 0);
    section(&mut bytes, 0, 0, [0, 0, 0], 0, 0);
    section(&mut bytes, 1, 2, [symbols_at, 72, 24], 2, 8);
    section(&mut bytes, 9, 3, [strings_at, strings.len(), 0], 0, 1);
    section(&mut bytes, 17, 3, [names_at, names.len(), 0], 0, 1);
    AlignedBytes::new(&bytes)
}

#[test]
fn symbols_are_found_and_demangled() {
    let kernel = kernel();
    assert!(check_sections(&kernel));
    assert_eq!(symbol_section(&kernel).map(|found| found.0), Some(1));
    assert!(check_symbols(&kernel));
    let symbols = load_symbols(&kernel).unwrap();
    assert_eq!(symbols.len(), 3);
    let main = find_symbol(&symbols, 0x1040).unwrap();
    assert_eq!((main.value, main.size), (0x1000, 0x80));
    assert!(find_symbol(&symbols, 0x1080).is_none());
    assert!(check_string(&kernel, main.name));
    assert_eq!(symbol_name(&kernel, main.name), Some(b"roanix::main".to_vec()));
    let start = find_symbol(&symbols, 0x2008).unwrap();
    assert!(check_string(&kernel, start.name));
    assert_eq!(symbol_name(&kernel, start.name), Some(b"start".to_vec()));
    assert!(!check_string(&kernel, 4000));
    assert!(!check_sections(&AlignedBytes::new(b"junk")));
    let bytes = kernel.as_slice();
    assert_eq!((&bytes[..4], bytes.as_ptr() as usize % 8), (&b"\x7fELF"[..], 0));
}

#[test]
fn a_backtrace_follows_the_frames() {
    let sp = 0x10_0000;
    let mut stack =
        UserMemory { start: sp, bytes: vec![0; BACKTRACE_STACK_WINDOW as usize + 8] };
    let mut put = |at: u64, value: u64| {
        let at = at as usize;
        stack.bytes[at..at + 8].copy_from_slice(&value.to_le_bytes());
    };
    put(0x100, sp + 0x200);
    put(0x108, 0x1111);
    put(0x200, 0);
    put(0x208, 0x2222);
    assert_eq!(perform_bt(Arch::X86_64, &stack, sp + 0x100, sp), Some(vec![0x1111, 0x2222]));
    assert_eq!(perform_bt(Arch::X86_64, &stack, sp - 8, sp), None);
    assert_eq!(perform_bt(Arch::Riscv64, &stack, sp + 0x110, sp), Some(vec![0x1111]));
    assert!(frame_ptr_in_bounds(sp + 16, sp));
    assert!(!frame_ptr_in_bounds(sp + BACKTRACE_STACK_WINDOW + 1, sp));
}

#[test]
fn panic_reports_are_bounded() {
    assert_eq!(panic_line(&[b'x'; 300]).len(), 256);
    assert_eq!(frame_line(3, 0xabc, None), b" 3: 0x0000000000000abc - <unknown>");
    let name = b"main".to_vec();
    assert_eq!(frame_line(12, 1, Some(&name)), b"12: 0x0000000000000001 - main");
}

#[test]
fn one_cpu_reports_a_panic() {
    let mut state = PanicState::new();
    assert!(!state.halt_if_panicking(1));
    assert!(state.enter(0));
    assert!(!state.enter(1));
    assert!(!state.halt_if_panicking(0));
    assert!(state.wait_for_other_cpus(2, 0));
    assert!(state.halt_if_panicking(1));
    assert!(!state.wait_for_other_cpus(2, 0));
    assert_eq!(shoot_down_other_cpus(1, 3), vec![0, 2]);
}

fn generator() -> Generator {
    let draws: Vec<(Option<u64>, u64)> = (0..8).map(|i| (Some(i), i * 3)).collect();
    Generator::seeded(5, &draws, 77)
}

#[test]
fn random_output_is_one_stream() {
    assert_eq!(splitmix64(0), 0xe220_a839_7b1d_cdaf);
    let whole = generator().fill(200);
    let mut parts = generator();
    let mut joined = parts.fill(10);
    joined.extend(parts.fill(0));
    joined.extend(parts.fill(100));
    joined.extend(parts.fill(90));
    assert_eq!(whole, joined);
    assert_ne!(whole[..64], whole[64..128]);
    let mut stirred = generator();
    mix_bytes(&mut stirred, b"entropy");
    assert_ne!(stirred.fill(64), whole[..64]);
    let mut served = generator();
    assert_eq!(fill_bytes(&mut served, 33, 1, Some(2)).len(), 33);
}

#[test]
fn a_stress_run_is_sized_by_the_machine() {
    let config = StressConfig::for_system(4);
    assert_eq!((config.hog_workers, config.interactive_workers, config.ithread_workers), (8, 4, 2));
    assert_eq!(config.total_workers, 14);
    assert_eq!(config.timeshare_workers().len(), 12);
    let mut queued = false;
    assert!(schedule(&mut queued, 4).is_some());
    assert!(schedule(&mut queued, 4).is_none());
}

#[test]
fn workers_plan_until_their_time_is_up() {
    let mut state = SchedulerStressState::new(StressConfig::for_system(2));
    let mut worker = Worker::new(1, WorkerKind::Hog, 1_000, 0);
    let plan = state.run_worker(&mut worker, 500, 1).unwrap();
    assert!(plan.spins > 0);
    state.touch_shared_mutex(1, plan.token, true);
    state.touch_shared_mutex(1, plan.token, false);
    state.record_progress(1);
    assert!(state.run_worker(&mut worker, 1_000, 1).is_none());
    let failed = state.finalize(Arch::X86_64);
    assert!(failed.contains(&Violation::Incomplete));
    assert!(!failed.contains(&Violation::LockAccounting));
}

#[test]
fn wake_lag_is_judged() {
    let limits = lag_limits(Arch::X86_64);
    assert!(limits.warn_ns < limits.fail_ns);
    let mut state = SchedulerStressState::new(StressConfig::for_system(1));
    state.record_lag(0, 100 + limits.fail_ns + 1, 100, limits);
    assert!(state.finalize(Arch::X86_64).contains(&Violation::WakeLag));
    assert!(!migration_required_for(Arch::X86_64, 1));
    assert!(should_block_sleep(1_000_000_000, 0, 1_000));
    assert!(!should_block_sleep(1_000, 900, 1_000));
}

#[test]
fn a_stress_run_is_watched() {
    let config = StressConfig::for_system(1);
    assert_eq!(monitor(&config, 0, 0, 10, 4, 4), Watch::Done);
    assert_eq!(monitor(&config, 0, 0, config.timeout_ns + 1, 1, 4), Watch::TimedOut);
    assert_eq!(monitor(&config, 0, 0, 2_000_000_000, 1, 4), Watch::Report);
    assert_eq!(monitor(&config, 0, 0, 10, 1, 4), Watch::Poll);
    assert_eq!(phase_end(5, 10), 15);
    assert_eq!(phase_end(u64::MAX, 10), u64::MAX);
    let mut rng = XorShift64::new(1);
    assert_eq!(rng.next_u64(), 1_082_269_761);
    assert!((5..=9).contains(&rng.in_range_inclusive(5, 9)));
}

#[test]
fn a_clean_run_passes() {
    let config = StressConfig::for_system(1);
    let mut state = SchedulerStressState::new(config);
    for id in 0..config.total_workers {
        let mut worker = Worker::new(id, WorkerKind::Hog, 1_000, 0);
        let plan = state.run_worker(&mut worker, 500, 0).unwrap();
        state.touch_shared_mutex(id, plan.token, true);
        state.record_progress(0);
        assert!(state.run_worker(&mut worker, 1_000, 0).is_none());
    }
    assert_eq!(state.finalize(Arch::X86_64), vec![]);
}
