//! Scheduler stress test: CPU-bound work, blocking wakeups and lock contention
//! on all CPUs, and the checks at its end.

use vstd::prelude::*;
use crate::num::{
    count_where, max_int, max_u64, min_int, min_usize, minus_or_zero, next_xorshift, xorshift,
};
use crate::Arch;

verus! {

/// Hog workers for each CPU.
pub const HOG_THREADS_PER_CPU: usize = 2;

/// Most hog workers.
pub const MAX_HOG_WORKERS: usize = 32;

/// Most interactive workers.
pub const MAX_INTERACTIVE_WORKERS: usize = 20;

/// Most interrupt-class workers.
pub const MAX_ITHREAD_WORKERS: usize = 2;

/// Length of the main phase.
pub const STRESS_DURATION_NS: u64 = 12_000_000_000;

/// Length of the interrupt-class phase.
pub const ITHREAD_PHASE_NS: u64 = 2_000_000_000;

/// Time after which the test has failed.
pub const TOTAL_TIMEOUT_NS: u64 = 120_000_000_000;

/// Time between two progress reports.
pub const WATCHDOG_LOG_NS: u64 = 1_000_000_000;

/// Workers do not block this close to their end.
pub const SLEEP_TAIL_GUARD_NS: u64 = 5_000_000;

/// Spreads iteration numbers over tokens.
pub const TOKEN_MIX: u64 = 0x9E37_79B9_7F4A_7C15;

/// What a worker does.
#[derive(Copy, Clone, Debug, PartialEq, Eq, Structural)]
pub enum WorkerKind {
    /// Spins, and sleeps now and then.
    Hog,
    /// Sleeps, and measures how late it wakes.
    Interactive,
    /// Spins at interrupt priority.
    Ithread,
}

impl WorkerKind {
    /// What its random numbers and tokens are mixed with.
    pub open spec fn bias(self) -> u64 {
        match self {
            WorkerKind::Hog => 0xA1A1_A1A1_A1A1_A1A1,
            WorkerKind::Interactive => 0xB2B2_B2B2_B2B2_B2B2,
            WorkerKind::Ithread => 0xC3C3_C3C3_C3C3_C3C3,
        }
    }

    /// Its name in reports.
    pub fn label(self) -> (label: &'static str)
        ensures
            label@ == match self {
                WorkerKind::Hog => "hog"@,
                WorkerKind::Interactive => "interactive"@,
                WorkerKind::Ithread => "ithread"@,
            },
    {
        match self {
            WorkerKind::Hog => "hog",
            WorkerKind::Interactive => "interactive",
            WorkerKind::Ithread => "ithread",
        }
    }

    /// What its random numbers and tokens are mixed with.
    pub fn seed_bias(self) -> (bias: u64)
        ensures
            bias == self.bias(),
    {
        match self {
            WorkerKind::Hog => 0xA1A1_A1A1_A1A1_A1A1,
            WorkerKind::Interactive => 0xB2B2_B2B2_B2B2_B2B2,
            WorkerKind::Ithread => 0xC3C3_C3C3_C3C3_C3C3,
        }
    }
}

/// How the test is laid out.
#[derive(Copy, Clone, Debug, PartialEq, Eq, Structural)]
pub struct StressConfig {
    /// CPUs that take part.
    pub cpu_count: usize,
    /// Hog workers.
    pub hog_workers: usize,
    /// Interactive workers.
    pub interactive_workers: usize,
    /// Interrupt-class workers.
    pub ithread_workers: usize,
    /// All workers.
    pub total_workers: usize,
    /// Length of the main phase.
    pub duration_ns: u64,
    /// Time after which the test has failed.
    pub timeout_ns: u64,
}

impl StressConfig {
    /// The layout for a number of CPUs.
    pub open spec fn sized(cpu_count: usize) -> StressConfig {
        let cpus = max_int(cpu_count as int, 1);
        let hogs = max_int(min_int(2 * cpus, 32), 2);
        let interactive = max_int(min_int(cpus, 20), 1);
        let ithreads = max_int(min_int((cpus + 1) / 2, 2), 1);
        StressConfig {
            cpu_count: cpus as usize,
            hog_workers: hogs as usize,
            interactive_workers: interactive as usize,
            ithread_workers: ithreads as usize,
            total_workers: (hogs + interactive + ithreads) as usize,
            duration_ns: STRESS_DURATION_NS,
            timeout_ns: TOTAL_TIMEOUT_NS,
        }
    }

    /// Lays the test out for a number of CPUs.
    pub fn for_system(cpu_count: usize) -> (cfg: Self)
        requires
            2 * cpu_count <= usize::MAX,
        ensures
            cfg == StressConfig::sized(cpu_count),
    {
        let cpu_count: usize = if cpu_count < 1 {
            1
        } else {
            cpu_count
        };
        let hog_workers: usize = min_usize(cpu_count * HOG_THREADS_PER_CPU, MAX_HOG_WORKERS);
        let interactive_workers: usize = min_usize(cpu_count, MAX_INTERACTIVE_WORKERS);
        let ithread_workers: usize = min_usize((cpu_count + 1) / 2, MAX_ITHREAD_WORKERS);
        StressConfig {
            cpu_count,
            hog_workers,
            interactive_workers,
            ithread_workers,
            total_workers: hog_workers + interactive_workers + ithread_workers,
            duration_ns: STRESS_DURATION_NS,
            timeout_ns: TOTAL_TIMEOUT_NS,
        }
    }

    /// The kind of a worker by its number.
    pub open spec fn kind_of(self, id: int) -> WorkerKind {
        if id < self.hog_workers {
            WorkerKind::Hog
        } else if id < self.hog_workers + self.interactive_workers {
            WorkerKind::Interactive
        } else {
            WorkerKind::Ithread
        }
    }

    /// The kinds of the workers of the main phase, by their numbers.
    pub fn timeshare_workers(&self) -> (kinds: Vec<WorkerKind>)
        requires
            self.hog_workers + self.interactive_workers <= usize::MAX,
        ensures
            kinds@.len() == self.hog_workers + self.interactive_workers,
            forall|i: int| 0 <= i < kinds@.len() ==> #[trigger] kinds@[i] == self.kind_of(i),
    {
        let mut kinds: Vec<WorkerKind> = Vec::new();
        let total: usize = self.hog_workers + self.interactive_workers;
        while kinds.len() < total
            invariant
                kinds@.len() <= total == self.hog_workers + self.interactive_workers,
                forall|i: int| 0 <= i < kinds@.len() ==> #[trigger] kinds@[i] == self.kind_of(i),
            decreases total - kinds@.len(),
        {
            if kinds.len() < self.hog_workers {
                kinds.push(WorkerKind::Hog);
            } else {
                kinds.push(WorkerKind::Interactive);
            }
        }
        kinds
    }
}

/// State that workers share under a lock.
#[derive(Copy, Clone, Debug, PartialEq, Eq, Structural)]
pub struct SharedState {
    /// Mix of all tokens.
    pub checksum: u64,
    /// How often the lock was taken.
    pub lock_ops: u64,
    /// How often another worker took it.
    pub handoffs: u64,
    /// Worker that took it last.
    pub last_owner: usize,
}

impl SharedState {
    /// State that nobody touched.
    pub open spec fn fresh() -> SharedState {
        SharedState { checksum: 0, lock_ops: 0, handoffs: 0, last_owner: usize::MAX }
    }

    /// The state after a worker put its token in.
    pub open spec fn touched(self, worker: usize, token: u64) -> SharedState {
        SharedState {
            checksum: (self.checksum << 7 | self.checksum >> 57) ^ token,
            lock_ops: self.lock_ops.wrapping_add(1),
            handoffs: if self.last_owner != worker {
                self.handoffs.wrapping_add(1)
            } else {
                self.handoffs
            },
            last_owner: worker,
        }
    }
}

/// Counters of the whole test.
#[derive(Copy, Clone, Debug, PartialEq, Eq, Structural)]
pub struct Counters {
    /// Iterations.
    pub progress: u64,
    /// Iterations on another CPU than the one before.
    pub migrations: u64,
    /// Times that the shared lock was taken.
    pub lock_ops: u64,
    /// Times that it was held by another.
    pub lock_misses: u64,
    /// Sleeps.
    pub sleep_ops: u64,
    /// Wakeups that came late.
    pub wake_lag_warn: u64,
    /// Wakeups that came too late.
    pub wake_lag_fail: u64,
    /// Latest wakeup.
    pub max_wake_lag_ns: u64,
}

/// The test as specifications see it.
#[verifier::ext_equal]
pub struct StressModel {
    /// Layout.
    pub cfg: StressConfig,
    /// Workers that finished.
    pub done: usize,
    /// Counters.
    pub counters: Counters,
    /// Iterations on each CPU.
    pub runs: Seq<u64>,
    /// Migrations to each CPU.
    pub incoming: Seq<u64>,
    /// State under the lock.
    pub shared: SharedState,
    /// Violations found.
    pub errors: usize,
}

/// A list with one more at a place, if it is in the list.
pub open spec fn bumped(list: Seq<u64>, at: int) -> Seq<u64> {
    if 0 <= at < list.len() {
        list.update(at, list[at].wrapping_add(1))
    } else {
        list
    }
}

impl StressModel {
    /// A test that has not begun.
    pub open spec fn fresh(cfg: StressConfig) -> StressModel {
        StressModel {
            cfg,
            done: 0,
            counters: no_counts(),
            runs: Seq::new(cfg.cpu_count as nat, |i: int| 0u64),
            incoming: Seq::new(cfg.cpu_count as nat, |i: int| 0u64),
            shared: SharedState::fresh(),
            errors: 0,
        }
    }

    /// Each CPU has its counters.
    pub open spec fn wf(self) -> bool {
        self.runs.len() == self.cfg.cpu_count && self.incoming.len() == self.cfg.cpu_count
    }

    /// The test after an iteration on a CPU.
    pub open spec fn progressed(self, cpu: usize) -> StressModel {
        StressModel {
            counters: Counters {
                progress: self.counters.progress.wrapping_add(1),
                ..self.counters
            },
            runs: bumped(self.runs, cpu as int),
            ..self
        }
    }

    /// The test after a worker came to another CPU.
    pub open spec fn migrated(self, cpu: usize) -> StressModel {
        StressModel {
            counters: Counters {
                migrations: self.counters.migrations.wrapping_add(1),
                ..self.counters
            },
            incoming: bumped(self.incoming, cpu as int),
            ..self
        }
    }

    /// The test after a try to put a token in.
    pub open spec fn tried(self, worker: usize, token: u64, locked: bool) -> StressModel {
        if locked {
            StressModel {
                shared: self.shared.touched(worker, token),
                counters: Counters {
                    lock_ops: self.counters.lock_ops.wrapping_add(1),
                    ..self.counters
                },
                ..self
            }
        } else {
            StressModel {
                counters: Counters {
                    lock_misses: self.counters.lock_misses.wrapping_add(1),
                    ..self.counters
                },
                ..self
            }
        }
    }

    /// The test after a wakeup that was `lag` late.
    pub open spec fn woken(self, lag: u64, limits: LagLimits) -> StressModel {
        StressModel {
            counters: Counters {
                max_wake_lag_ns: max_int(self.counters.max_wake_lag_ns as int, lag as int) as u64,
                wake_lag_warn: if lag > limits.warn_ns {
                    self.counters.wake_lag_warn.wrapping_add(1)
                } else {
                    self.counters.wake_lag_warn
                },
                wake_lag_fail: if lag > limits.fail_ns {
                    self.counters.wake_lag_fail.wrapping_add(1)
                } else {
                    self.counters.wake_lag_fail
                },
                ..self.counters
            },
            ..self
        }
    }

    /// How many CPUs did anything.
    pub open spec fn active(self) -> nat {
        count_where(self.runs.len(), ran(self.runs))
    }

    /// Whether a check at the end failed.
    pub open spec fn fails(self, check: Violation, arch: Arch) -> bool {
        match check {
            Violation::Incomplete => self.done != self.cfg.total_workers,
            Violation::LockAccounting => self.counters.lock_ops != self.shared.lock_ops,
            Violation::NotSpread => self.cfg.cpu_count > 1 && self.active() < 2,
            Violation::NoMigrations => self.cfg.cpu_count > 1 && needs_migrations(
                arch,
                self.cfg.cpu_count,
            ) && self.counters.migrations == 0,
            Violation::WakeLag => self.counters.wake_lag_fail != 0,
        }
    }

    /// The failed checks.
    pub open spec fn violations(self, arch: Arch) -> Seq<Violation> {
        all_checks().filter(|check: Violation| self.fails(check, arch))
    }
}

/// Which CPUs did anything.
pub open spec fn ran(runs: Seq<u64>) -> spec_fn(int) -> bool {
    |i: int| runs[i] != 0
}

/// A check at the end of the test.
#[derive(Copy, Clone, Debug, PartialEq, Eq, Structural)]
pub enum Violation {
    /// A worker did not finish.
    Incomplete,
    /// The lock was taken more or less often than counted.
    LockAccounting,
    /// The work did not spread over CPUs.
    NotSpread,
    /// No worker moved to another CPU.
    NoMigrations,
    /// A wakeup came too late.
    WakeLag,
}

/// The checks in their order.
pub open spec fn all_checks() -> Seq<Violation> {
    seq![
        Violation::Incomplete,
        Violation::LockAccounting,
        Violation::NotSpread,
        Violation::NoMigrations,
        Violation::WakeLag,
    ]
}

/// How late a wakeup may be.
#[derive(Copy, Clone, Debug, PartialEq, Eq, Structural)]
pub struct LagLimits {
    /// Later than this is reported.
    pub warn_ns: u64,
    /// Later than this fails.
    pub fail_ns: u64,
}

/// How late a wakeup may be on an architecture.
pub fn lag_limits(arch: Arch) -> (limits: LagLimits)
    ensures
        limits == match arch {
            Arch::X86_64 => LagLimits { warn_ns: 30_000_000, fail_ns: 250_000_000 },
            Arch::Riscv64 => LagLimits { warn_ns: 500_000_000, fail_ns: 2_500_000_000 },
        },
{
    match arch {
        Arch::X86_64 => LagLimits { warn_ns: 30_000_000, fail_ns: 250_000_000 },
        Arch::Riscv64 => LagLimits { warn_ns: 500_000_000, fail_ns: 2_500_000_000 },
    }
}

/// Whether workers must move between that many CPUs.
pub open spec fn needs_migrations(arch: Arch, cpu_count: usize) -> bool {
    match arch {
        Arch::Riscv64 => cpu_count >= 4,
        Arch::X86_64 => cpu_count > 1,
    }
}

/// Whether workers must move between that many CPUs.
pub fn migration_required_for(arch: Arch, cpu_count: usize) -> (required: bool)
    ensures
        required == needs_migrations(arch, cpu_count),
{
    match arch {
        Arch::Riscv64 => cpu_count >= 4,
        Arch::X86_64 => cpu_count > 1,
    }
}

/// Random numbers of a worker.
#[derive(Copy, Clone, Debug, PartialEq, Eq, Structural)]
pub struct XorShift64 {
    /// Last number.
    pub state: u64,
}

/// The number in a range that `draw` stands for.
pub open spec fn in_range(draw: u64, low: u64, high: u64) -> int {
    low + draw as int % (high - low + 1)
}

impl XorShift64 {
    /// Starts from a seed; zero counts as one.
    pub fn new(seed: u64) -> (rng: Self)
        ensures
            rng.state == max_int(seed as int, 1),
    {
        XorShift64 { state: max_u64(seed, 1) }
    }

    /// The next number.
    pub fn next_u64(&mut self) -> (next: u64)
        ensures
            next == xorshift(old(self).state),
            final(self).state == next,
    {
        self.state = next_xorshift(self.state);
        self.state
    }

    /// A number between two bounds.
    pub fn in_range_inclusive(&mut self, low: u64, high: u64) -> (value: u64)
        requires
            high as int - low < u64::MAX,
        ensures
            high <= low ==> value == low && *final(self) == *old(self),
            high > low ==> {
                &&& final(self).state == xorshift(old(self).state)
                &&& value == in_range(xorshift(old(self).state), low, high)
                &&& low <= value <= high
            },
    {
        if high <= low {
            return low;
        }
        let span: u64 = high - low + 1;
        let draw: u64 = self.next_u64();
        let offset: u64 = draw % span;
        assert(offset < span);
        low + offset
    }
}

/// The token that a worker puts in at an iteration.
pub open spec fn token_of(worker: usize, iter: u64, kind: WorkerKind) -> u64 {
    ((worker as u64) << 32) ^ iter.wrapping_mul(TOKEN_MIX) ^ kind.bias()
}

/// The seed of a worker's random numbers.
pub open spec fn seed_of(worker: usize, kind: WorkerKind, stop_ns: u64, cpu: usize) -> u64 {
    ((worker as u64).wrapping_add(1) << 32) ^ stop_ns ^ kind.bias() ^ (cpu as u64)
}

/// One worker.
#[derive(Copy, Clone, Debug, PartialEq, Eq, Structural)]
pub struct Worker {
    /// Its number.
    pub id: usize,
    /// What it does.
    pub kind: WorkerKind,
    /// When it stops.
    pub stop_ns: u64,
    /// Its random numbers.
    pub rng: XorShift64,
    /// Iterations so far.
    pub iter: u64,
    /// CPU of the last iteration.
    pub last_cpu: usize,
}

/// What a worker does in one iteration, in this order.
#[derive(Copy, Clone, Debug, PartialEq, Eq, Structural)]
pub struct Plan {
    /// Spins so often.
    pub spins: u64,
    /// Tries to put the token in before it sleeps.
    pub touch_first: bool,
    /// Sleeps so many microseconds.
    pub sleep_us: Option<u64>,
    /// Tries to put the token in after it slept.
    pub touch_last: bool,
    /// Spins so often again.
    pub extra_spins: u64,
    /// The token.
    pub token: u64,
}

impl Worker {
    /// A worker that starts on a CPU.
    pub fn new(id: usize, kind: WorkerKind, stop_ns: u64, cpu: usize) -> (worker: Self)
        ensures
            worker == (Worker {
                id,
                kind,
                stop_ns,
                rng: XorShift64 {
                    state: max_int(seed_of(id, kind, stop_ns, cpu) as int, 1) as u64,
                },
                iter: 0,
                last_cpu: cpu,
            }),
    {
        let seed: u64 = ((id as u64).wrapping_add(1) << 32) ^ stop_ns ^ kind.seed_bias()
            ^ cpu as u64;
        Worker { id, kind, stop_ns, rng: XorShift64::new(seed), iter: 0, last_cpu: cpu }
    }

    /// What it does next.
    pub open spec fn plan(self) -> Plan {
        let one = xorshift(self.rng.state);
        let two = xorshift(one);
        let token = token_of(self.id, self.iter, self.kind);
        match self.kind {
            WorkerKind::Hog => Plan {
                spins: in_range(one, 64, 1024) as u64,
                touch_first: self.iter % 4 == 0,
                sleep_us: if self.iter % 16 == 0 {
                    Some(in_range(two, 20, 200) as u64)
                } else {
                    None
                },
                touch_last: false,
                extra_spins: 0,
                token,
            },
            WorkerKind::Interactive => Plan {
                spins: 0,
                touch_first: false,
                sleep_us: Some(in_range(one, 200, 1_600) as u64),
                touch_last: true,
                extra_spins: 0,
                token,
            },
            WorkerKind::Ithread => Plan {
                spins: in_range(one, 32, 256) as u64,
                touch_first: true,
                sleep_us: None,
                touch_last: false,
                extra_spins: if self.iter % 32 == 0 {
                    in_range(two, 128, 512) as u64
                } else {
                    0
                },
                token,
            },
        }
    }

    /// Whether it draws two random numbers in an iteration.
    pub open spec fn draws_twice(self) -> bool {
        match self.kind {
            WorkerKind::Hog => self.iter % 16 == 0,
            WorkerKind::Interactive => false,
            WorkerKind::Ithread => self.iter % 32 == 0,
        }
    }

    /// The worker after an iteration on a CPU.
    pub open spec fn advanced(self, cpu: usize) -> Worker {
        Worker {
            rng: XorShift64 {
                state: if self.draws_twice() {
                    xorshift(xorshift(self.rng.state))
                } else {
                    xorshift(self.rng.state)
                },
            },
            iter: self.iter.wrapping_add(1),
            last_cpu: cpu,
            ..self
        }
    }

    fn make_plan(&mut self) -> (plan: Plan)
        ensures
            plan == old(self).plan(),
            *final(self) == (Worker { rng: old(self).advanced(0).rng, ..*old(self) }),
    {
        let token: u64 = ((self.id as u64) << 32) ^ self.iter.wrapping_mul(TOKEN_MIX)
            ^ self.kind.seed_bias();
        match self.kind {
            WorkerKind::Hog => {
                let spins: u64 = self.rng.in_range_inclusive(64, 1024);
                let sleep_us: Option<u64> = if self.iter % 16 == 0 {
                    Some(self.rng.in_range_inclusive(20, 200))
                } else {
                    None
                };
                Plan {
                    spins,
                    touch_first: self.iter % 4 == 0,
                    sleep_us,
                    touch_last: false,
                    extra_spins: 0,
                    token,
                }
            },
            WorkerKind::Interactive => {
                let us: u64 = self.rng.in_range_inclusive(200, 1_600);
                Plan {
                    spins: 0,
                    touch_first: false,
                    sleep_us: Some(us),
                    touch_last: true,
                    extra_spins: 0,
                    token,
                }
            },
            WorkerKind::Ithread => {
                let spins: u64 = self.rng.in_range_inclusive(32, 256);
                let extra_spins: u64 = if self.iter % 32 == 0 {
                    self.rng.in_range_inclusive(128, 512)
                } else {
                    0
                };
                Plan {
                    spins,
                    touch_first: true,
                    sleep_us: None,
                    touch_last: false,
                    extra_spins,
                    token,
                }
            },
        }
    }
}

/// The test after a worker's next step.
pub open spec fn run_model(
    test: StressModel,
    worker: Worker,
    now_ns: u64,
    cpu: usize,
) -> StressModel {
    if now_ns >= worker.stop_ns {
        StressModel { done: (test.done + 1) as usize, ..test }
    } else {
        let moved = if cpu != worker.last_cpu {
            test.migrated(cpu)
        } else {
            test
        };
        let ran = moved.progressed(cpu);
        if worker.plan().sleep_us.is_some() {
            StressModel {
                counters: Counters {
                    sleep_ops: ran.counters.sleep_ops.wrapping_add(1),
                    ..ran.counters
                },
                ..ran
            }
        } else {
            ran
        }
    }
}

/// State of the whole test.
pub struct SchedulerStressState {
    cfg: StressConfig,
    done: usize,
    counters: Counters,
    per_cpu_runs: Vec<u64>,
    per_cpu_migrations: Vec<u64>,
    shared: SharedState,
    errors: usize,
}

impl View for SchedulerStressState {
    type V = StressModel;

    closed spec fn view(&self) -> StressModel {
        StressModel {
            cfg: self.cfg,
            done: self.done,
            counters: self.counters,
            runs: self.per_cpu_runs@,
            incoming: self.per_cpu_migrations@,
            shared: self.shared,
            errors: self.errors,
        }
    }
}

/// Counters that start at zero.
pub open spec fn no_counts() -> Counters {
    Counters {
        progress: 0,
        migrations: 0,
        lock_ops: 0,
        lock_misses: 0,
        sleep_ops: 0,
        wake_lag_warn: 0,
        wake_lag_fail: 0,
        max_wake_lag_ns: 0,
    }
}

fn counters_for(len: usize) -> (counters: Vec<u64>)
    ensures
        counters@ == Seq::new(len as nat, |i: int| 0u64),
{
    let mut counters: Vec<u64> = Vec::new();
    while counters.len() < len
        invariant
            counters@.len() <= len,
            counters@ == Seq::new(counters@.len(), |i: int| 0u64),
        decreases len - counters@.len(),
    {
        counters.push(0);
        assert(counters@ =~= Seq::new(counters@.len(), |i: int| 0u64));
    }
    counters
}

fn bump(list: &mut Vec<u64>, at: usize)
    ensures
        final(list)@ == bumped(old(list)@, at as int),
{
    if at < list.len() {
        let value: u64 = list[at];
        list.set(at, value.wrapping_add(1));
    }
}

impl SchedulerStressState {
    /// A test that has not begun.
    pub fn new(cfg: StressConfig) -> (test: Self)
        ensures
            test@ == StressModel::fresh(cfg),
            test@.wf(),
    {
        SchedulerStressState {
            cfg,
            done: 0,
            counters: Counters {
                progress: 0,
                migrations: 0,
                lock_ops: 0,
                lock_misses: 0,
                sleep_ops: 0,
                wake_lag_warn: 0,
                wake_lag_fail: 0,
                max_wake_lag_ns: 0,
            },
            per_cpu_runs: counters_for(cfg.cpu_count),
            per_cpu_migrations: counters_for(cfg.cpu_count),
            shared: SharedState {
                checksum: 0,
                lock_ops: 0,
                handoffs: 0,
                last_owner: usize::MAX,
            },
            errors: 0,
        }
    }

    /// Counts an iteration on a CPU.
    pub fn record_progress(&mut self, cpu_id: usize)
        requires
            old(self)@.wf(),
        ensures
            final(self)@.wf(),
            final(self)@ == old(self)@.progressed(cpu_id),
    {
        self.counters.progress = self.counters.progress.wrapping_add(1);
        bump(&mut self.per_cpu_runs, cpu_id);
    }

    /// Returns how many workers have finished.
    pub fn done(&self) -> (done: usize)
        ensures
            done == self@.done,
    {
        self.done
    }

    /// Begins a worker's next iteration, and says what it does; a worker whose
    /// time is over has finished.
    pub fn run_worker(&mut self, worker: &mut Worker, now_ns: u64, cpu_id: usize) -> (plan: Option<
        Plan,
    >)
        requires
            old(self)@.wf(),
            old(self)@.done < usize::MAX,
        ensures
            final(self)@.wf(),
            final(self)@ == run_model(old(self)@, *old(worker), now_ns, cpu_id),
            now_ns >= old(worker).stop_ns ==> plan.is_none() && *final(worker) == *old(worker),
            now_ns < old(worker).stop_ns ==> plan == Some(old(worker).plan()) && *final(worker)
                == old(worker).advanced(cpu_id),
    {
        if now_ns >= worker.stop_ns {
            self.done = self.done + 1;
            return None;
        }
        if cpu_id != worker.last_cpu {
            self.counters.migrations = self.counters.migrations.wrapping_add(1);
            bump(&mut self.per_cpu_migrations, cpu_id);
            worker.last_cpu = cpu_id;
        }
        self.record_progress(cpu_id);
        let plan = worker.make_plan();
        worker.iter = worker.iter.wrapping_add(1);
        if plan.sleep_us.is_some() {
            self.counters.sleep_ops = self.counters.sleep_ops.wrapping_add(1);
        }
        assert(self@ =~= run_model(old(self)@, *old(worker), now_ns, cpu_id));
        Some(plan)
    }

    /// Puts a worker's token in, if it got the lock.
    pub fn touch_shared_mutex(&mut self, worker_id: usize, token: u64, locked: bool)
        requires
            old(self)@.wf(),
        ensures
            final(self)@.wf(),
            final(self)@ == old(self)@.tried(worker_id, token, locked),
    {
        if locked {
            self.shared.checksum = (self.shared.checksum << 7 | self.shared.checksum >> 57)
                ^ token;
            self.shared.lock_ops = self.shared.lock_ops.wrapping_add(1);
            if self.shared.last_owner != worker_id {
                self.shared.handoffs = self.shared.handoffs.wrapping_add(1);
                self.shared.last_owner = worker_id;
            }
            self.counters.lock_ops = self.counters.lock_ops.wrapping_add(1);
        } else {
            self.counters.lock_misses = self.counters.lock_misses.wrapping_add(1);
        }
    }

    /// Notes how late an interactive worker woke.
    pub fn record_lag(&mut self, before_ns: u64, after_ns: u64, requested_ns: u64, limits: LagLimits)
        requires
            old(self)@.wf(),
        ensures
            final(self)@.wf(),
            final(self)@ == old(self)@.woken(
                minus_or_zero(
                    minus_or_zero(after_ns as int, before_ns as int),
                    requested_ns as int,
                ) as u64,
                limits,
            ),
    {
        let lag_ns: u64 = after_ns.saturating_sub(before_ns).saturating_sub(requested_ns);
        self.counters.max_wake_lag_ns = max_u64(self.counters.max_wake_lag_ns, lag_ns);
        if lag_ns > limits.warn_ns {
            self.counters.wake_lag_warn = self.counters.wake_lag_warn.wrapping_add(1);
        }
        if lag_ns > limits.fail_ns {
            self.counters.wake_lag_fail = self.counters.wake_lag_fail.wrapping_add(1);
        }
    }

    fn active_cpus(&self) -> (active: usize)
        ensures
            active == self@.active(),
    {
        let mut active: usize = 0;
        let mut at: usize = 0;
        while at < self.per_cpu_runs.len()
            invariant
                at <= self.per_cpu_runs@.len(),
                active <= at,
                active == count_where(at as nat, ran(self.per_cpu_runs@)),
            decreases self.per_cpu_runs@.len() - at,
        {
            if self.per_cpu_runs[at] != 0 {
                active = active + 1;
            }
            at = at + 1;
        }
        active
    }

    /// Ends the test: the checks that failed, each counted as an error.
    pub fn finalize(&mut self, arch: Arch) -> (failed: Vec<Violation>)
        requires
            old(self)@.wf(),
            old(self)@.errors + 5 <= usize::MAX,
        ensures
            final(self)@.wf(),
            failed@ == old(self)@.violations(arch),
            final(self)@ == (StressModel {
                errors: (old(self)@.errors + failed@.len()) as usize,
                ..old(self)@
            }),
    {
        let ghost test = self@;
        let ghost fails = |check: Violation| test.fails(check, arch);
        let mut failed: Vec<Violation> = Vec::new();
        let active: usize = self.active_cpus();
        if self.done != self.cfg.total_workers {
            failed.push(Violation::Incomplete);
        }
        if self.counters.lock_ops != self.shared.lock_ops {
            failed.push(Violation::LockAccounting);
        }
        if self.cfg.cpu_count > 1 {
            if active < 2 {
                failed.push(Violation::NotSpread);
            }
            if migration_required_for(arch, self.cfg.cpu_count) && self.counters.migrations == 0 {
                failed.push(Violation::NoMigrations);
            }
        }
        if self.counters.wake_lag_fail != 0 {
            failed.push(Violation::WakeLag);
        }
        proof {
            let checks = all_checks();
            lemma_filter_push(checks, fails, 0);
            lemma_filter_push(checks, fails, 1);
            lemma_filter_push(checks, fails, 2);
            lemma_filter_push(checks, fails, 3);
            lemma_filter_push(checks, fails, 4);
            assert(checks.take(0).filter(fails) =~= Seq::empty()) by {
                reveal(Seq::filter);
            }
            assert(checks.take(5) =~= checks);
            assert(failed@ =~= checks.filter(fails));
            assert(failed@.len() <= 5);
        }
        self.errors = self.errors + failed.len();
        failed
    }
}

proof fn lemma_filter_push(checks: Seq<Violation>, p: spec_fn(Violation) -> bool, i: int)
    requires
        0 <= i < checks.len(),
    ensures
        checks.take(i + 1).filter(p) == if p(checks[i]) {
            checks.take(i).filter(p).push(checks[i])
        } else {
            checks.take(i).filter(p)
        },
{
    reveal(Seq::filter);
    assert(checks.take(i + 1).drop_last() =~= checks.take(i));
}

/// Queues the test once, laid out for the CPUs there are.
pub fn schedule(queued: &mut bool, cpu_count: usize) -> (test: Option<SchedulerStressState>)
    requires
        2 * cpu_count <= usize::MAX,
    ensures
        *final(queued),
        *old(queued) ==> test.is_none(),
        !*old(queued) ==> {
            &&& test matches Some(begun)
            &&& begun@.wf()
            &&& begun@ == StressModel::fresh(StressConfig::sized(cpu_count))
        },
{
    if *queued {
        return None;
    }
    *queued = true;
    Some(SchedulerStressState::new(StressConfig::for_system(cpu_count)))
}

/// Whether a worker sleeps rather than spins: not close to its end.
pub fn should_block_sleep(stop_ns: u64, now_ns: u64, requested_ns: u64) -> (block: bool)
    ensures
        block == (minus_or_zero(stop_ns as int, now_ns as int) > min_int(
            requested_ns + SLEEP_TAIL_GUARD_NS,
            u64::MAX as int,
        )),
{
    stop_ns.saturating_sub(now_ns) > requested_ns.saturating_add(SLEEP_TAIL_GUARD_NS)
}

/// What the coordinator does while workers run.
#[derive(Copy, Clone, Debug, PartialEq, Eq, Structural)]
pub enum Watch {
    /// All workers of the phase finished.
    Done,
    /// The test took too long.
    TimedOut,
    /// Reports progress, and goes on.
    Report,
    /// Goes on.
    Poll,
}

/// What the coordinator does next.
pub fn monitor(cfg: &StressConfig, start_ns: u64, last_log_ns: u64, now_ns: u64, done: usize, expected: usize) -> (watch: Watch)
    ensures
        watch == if done >= expected {
            Watch::Done
        } else if minus_or_zero(now_ns as int, start_ns as int) > cfg.timeout_ns {
            Watch::TimedOut
        } else if minus_or_zero(now_ns as int, last_log_ns as int) >= WATCHDOG_LOG_NS {
            Watch::Report
        } else {
            Watch::Poll
        },
{
    if done >= expected {
        return Watch::Done;
    }
    if now_ns.saturating_sub(start_ns) > cfg.timeout_ns {
        return Watch::TimedOut;
    }
    if now_ns.saturating_sub(last_log_ns) >= WATCHDOG_LOG_NS {
        return Watch::Report;
    }
    Watch::Poll
}

/// When a phase that begins at `now_ns` ends.
pub fn phase_end(now_ns: u64, duration_ns: u64) -> (stop_ns: u64)
    ensures
        stop_ns == min_int(now_ns + duration_ns, u64::MAX as int),
{
    now_ns.saturating_add(duration_ns)
}

/// Lock accounting agrees at every moment: each step of the test counts the
/// lock on both sides alike.
pub proof fn law_lock_accounting_agrees(
    test: StressModel,
    worker: Worker,
    token: u64,
    locked: bool,
    now_ns: u64,
    cpu: usize,
)
    requires
        test.counters.lock_ops == test.shared.lock_ops,
    ensures
        ({
            let tried = test.tried(worker.id, token, locked);
            let run = run_model(test, worker, now_ns, cpu);
            &&& tried.counters.lock_ops == tried.shared.lock_ops
            &&& run.counters.lock_ops == run.shared.lock_ops
        }),
{
}

/// A worker's plan is within its kind's limits.
pub proof fn law_plan_is_bounded(worker: Worker)
    ensures
        worker.plan().spins <= 1024,
        worker.plan().extra_spins <= 512,
        worker.plan().sleep_us matches Some(us) ==> 20 <= us <= 1_600,
        worker.kind == WorkerKind::Ithread ==> worker.plan().sleep_us.is_none(),
{
}

/// A run in which every worker finished on time, on several CPUs and with
/// sound accounting, has no violations.
pub proof fn law_clean_run_passes(test: StressModel, arch: Arch)
    requires
        test.done == test.cfg.total_workers,
        test.counters.lock_ops == test.shared.lock_ops,
        test.cfg.cpu_count > 1 ==> test.active() >= 2 && test.counters.migrations > 0,
        test.counters.wake_lag_fail == 0,
    ensures
        test.violations(arch) == Seq::<Violation>::empty(),
{
    let fails = |check: Violation| test.fails(check, arch);
    let checks = all_checks();
    lemma_filter_push(checks, fails, 0);
    lemma_filter_push(checks, fails, 1);
    lemma_filter_push(checks, fails, 2);
    lemma_filter_push(checks, fails, 3);
    lemma_filter_push(checks, fails, 4);
    assert(checks.take(0).filter(fails) =~= Seq::empty()) by {
        reveal(Seq::filter);
    }
    assert(checks.take(5) =~= checks);
}

} // verus!
