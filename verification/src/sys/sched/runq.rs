//! Priority run queue: one FIFO per bucket and a bitmap of occupied buckets.

use vstd::prelude::*;
use vstd::std_specs::bits::axiom_u64_trailing_zeros;
use crate::sys::thread::Thread;

verus! {

/// Number of run-queue buckets.
pub const BUCKETS: usize = 256;

/// Most threads examined per bucket when picking a migration candidate.
pub const RUNQ_CANDIDATE_SCAN: usize = 16;

/// Queued threads of every bucket, oldest first.
pub type Buckets = Seq<Seq<usize>>;

/// Number of threads in the first `n` buckets.
pub open spec fn queued_below(buckets: Buckets, n: nat) -> nat
    decreases n,
{
    if n == 0 {
        0
    } else {
        queued_below(buckets, (n - 1) as nat) + buckets[n - 1].len()
    }
}

/// Number of queued threads.
pub open spec fn queued_total(buckets: Buckets) -> nat {
    queued_below(buckets, buckets.len())
}

/// Least occupied bucket in `start..=end`.
pub open spec fn first_occupied(buckets: Buckets, start: int, end: int) -> Option<int>
    decreases end - start + 1,
{
    if start > end {
        None
    } else if buckets[start].len() > 0 {
        Some(start)
    } else {
        first_occupied(buckets, start + 1, end)
    }
}

/// Oldest thread of the least occupied bucket in `start..=end`.
pub open spec fn first_queued(buckets: Buckets, start: int, end: int) -> Option<usize> {
    match first_occupied(buckets, start, end) {
        Some(bucket) => Some(buckets[bucket][0]),
        None => None,
    }
}

/// Oldest thread among the first `limit` of `queue`, from position `at` on,
/// that `accept` admits.
pub open spec fn first_accepted_in(
    queue: Seq<usize>,
    at: int,
    limit: int,
    accept: spec_fn(usize) -> bool,
) -> Option<usize>
    decreases queue.len() - at,
{
    if at >= queue.len() || at >= limit {
        None
    } else if accept(queue[at]) {
        Some(queue[at])
    } else {
        first_accepted_in(queue, at + 1, limit, accept)
    }
}

/// First admitted thread in `start..=end`, looking at a bounded number of
/// threads per bucket.
pub open spec fn first_accepted(
    buckets: Buckets,
    start: int,
    end: int,
    accept: spec_fn(usize) -> bool,
) -> Option<usize>
    decreases end - start + 1,
{
    if start > end {
        None
    } else {
        match first_accepted_in(buckets[start], 0, RUNQ_CANDIDATE_SCAN as int, accept) {
            Some(thread) => Some(thread),
            None => first_accepted(buckets, start + 1, end, accept),
        }
    }
}

/// `buckets` with `thread` added to `bucket`.
pub open spec fn with_queued(
    buckets: Buckets,
    bucket: int,
    thread: usize,
    push_front: bool,
) -> Buckets {
    buckets.update(
        bucket,
        if push_front {
            seq![thread] + buckets[bucket]
        } else {
            buckets[bucket].push(thread)
        },
    )
}

/// `buckets` with the oldest entry of `thread` taken out of `bucket`.
pub open spec fn without_queued(buckets: Buckets, bucket: int, thread: usize) -> Buckets {
    buckets.update(bucket, buckets[bucket].remove_value(thread))
}

/// Whether bit `k` of `word` is set.
pub open spec fn word_bit(word: u64, k: u64) -> bool {
    (word >> k) & 1u64 == 1u64
}

proof fn lemma_set_bit(word: u64, s: u64, k: u64)
    by (bit_vector)
    requires
        s < 64,
        k < 64,
    ensures
        word_bit(word | (1u64 << s), k) == (k == s || word_bit(word, k)),
{
}

proof fn lemma_clear_bit(word: u64, s: u64, k: u64)
    by (bit_vector)
    requires
        s < 64,
        k < 64,
    ensures
        word_bit(word & !(1u64 << s), k) == (k != s && word_bit(word, k)),
{
}

proof fn lemma_mask_low(word: u64, s: u64, k: u64)
    by (bit_vector)
    requires
        s < 64,
        k < 64,
    ensures
        word_bit(word & (0xffff_ffff_ffff_ffffu64 << s), k) == (k >= s && word_bit(word, k)),
{
}

proof fn lemma_mask_high(word: u64, e: u64, k: u64)
    by (bit_vector)
    requires
        e < 63,
        k < 64,
    ensures
        (1u64 << ((e + 1) as u64)) >= 1,
        word_bit(word & (((1u64 << ((e + 1) as u64)) - 1) as u64), k) == (k <= e && word_bit(
            word,
            k,
        )),
{
}

proof fn lemma_zero_bits(k: u64)
    by (bit_vector)
    requires
        k < 64,
    ensures
        !word_bit(0, k),
{
}

/// Runnable threads of one CPU.
pub struct RunQueue {
    len: usize,
    bits: [u64; 4],
    queues: Vec<Vec<usize>>,
}

impl View for RunQueue {
    type V = Buckets;

    closed spec fn view(&self) -> Buckets {
        Seq::new(self.queues@.len(), |i: int| self.queues@[i]@)
    }
}

impl RunQueue {
    /// The bitmap marks exactly the occupied buckets and the length is the
    /// number of queued threads.
    pub closed spec fn wf(self) -> bool {
        &&& self.queues@.len() == BUCKETS
        &&& self.len == queued_total(self@)
        &&& forall|b: int|
            #![trigger self.queues@[b]]
            0 <= b < BUCKETS ==> word_bit(self.bits[b / 64], (b % 64) as u64) == (
            self.queues@[b]@.len() > 0)
    }

    /// A well-formed queue has one entry per bucket.
    pub proof fn lemma_wf(&self)
        requires
            self.wf(),
        ensures
            self@.len() == BUCKETS,
            queued_total(self@) <= usize::MAX,
    {
    }

    /// Creates an empty run queue.
    pub fn new() -> (queue: Self)
        ensures
            queue.wf(),
            queue@ == Seq::new(BUCKETS as nat, |i: int| Seq::<usize>::empty()),
    {
        let mut queues: Vec<Vec<usize>> = Vec::new();
        let mut index: usize = 0;
        while index < BUCKETS
            invariant
                index <= BUCKETS,
                queues@.len() == index,
                forall|i: int| 0 <= i < index ==> queues@[i]@ == Seq::<usize>::empty(),
            decreases BUCKETS - index,
        {
            queues.push(Vec::new());
            index = index + 1;
        }
        let queue = RunQueue { len: 0, bits: [0u64;4], queues };
        proof {
            lemma_total_empty(queue@, BUCKETS as nat);
            assert forall|b: int|
                #![trigger queue.queues@[b]]
                0 <= b < BUCKETS implies word_bit(queue.bits[b / 64], (b % 64) as u64) == (
            queue.queues@[b]@.len() > 0) by {
                lemma_zero_bits((b % 64) as u64);
            }
            assert(queue@ =~= Seq::new(BUCKETS as nat, |i: int| Seq::<usize>::empty()));
        }
        queue
    }

    /// Returns the number of queued threads.
    pub fn len(&self) -> (len: usize)
        requires
            self.wf(),
        ensures
            len == queued_total(self@),
    {
        self.len
    }

    /// Returns whether any thread is queued.
    pub fn has_runnable(&self) -> (some: bool)
        requires
            self.wf(),
        ensures
            some == (queued_total(self@) > 0),
    {
        self.len != 0
    }

    /// Adds `thread` to `bucket`.
    pub fn push(&mut self, bucket: u8, thread: usize, push_front: bool)
        requires
            old(self).wf(),
            queued_total(old(self)@) < usize::MAX,
        ensures
            final(self).wf(),
            final(self)@ == with_queued(old(self)@, bucket as int, thread, push_front),
    {
        let ghost before = self@;
        let index: usize = bucket as usize;
        let word: usize = index / 64;
        let shift: usize = index % 64;
        let ghost old_bits = self.bits@;
        let set: u64 = self.bits[word] | (1u64 << (shift as u64));
        self.bits[word] = set;
        if push_front {
            self.queues[index].insert(0, thread);
        } else {
            self.queues[index].push(thread);
        }
        self.len = self.len + 1;
        proof {
            let after = with_queued(before, bucket as int, thread, push_front);
            assert(self@ =~= after) by {
                assert forall|i: int| 0 <= i < BUCKETS implies #[trigger] self@[i] =~= after[i] by {}
            }
            lemma_total_update(before, bucket as int, after[bucket as int]);
            assert forall|b: int|
                #![trigger self.queues@[b]]
                0 <= b < BUCKETS implies word_bit(self.bits[b / 64], (b % 64) as u64) == (
            self.queues@[b]@.len() > 0) by {
                assert(before[b] == old(self).queues@[b]@);
                if b / 64 == word {
                    lemma_set_bit(old_bits[word as int], shift as u64, (b % 64) as u64);
                }
            }
        }
    }

    /// Takes `thread` out of `bucket` and returns whether that emptied it.
    pub fn remove(&mut self, bucket: u8, thread: usize) -> (emptied: bool)
        requires
            old(self).wf(),
            old(self)@[bucket as int].contains(thread),
        ensures
            final(self).wf(),
            final(self)@ == without_queued(old(self)@, bucket as int, thread),
            emptied == (final(self)@[bucket as int].len() == 0),
    {
        let ghost before = self@;
        let ghost old_bits = self.bits@;
        let index: usize = bucket as usize;
        let mut at: usize = 0;
        proof {
            before[bucket as int].index_of_first_ensures(thread);
        }
        let ghost first = before[bucket as int].index_of_first(thread)->0;
        while self.queues[index][at] != thread
            invariant
                index < self.queues@.len(),
                0 <= at <= first < self.queues@[index as int]@.len(),
                self.queues@[index as int]@[first] == thread,
                forall|j: int| 0 <= j < at ==> self.queues@[index as int]@[j] != thread,
            decreases first - at,
        {
            assert(at < first);
            assert(self.queues@[index as int].len() <= usize::MAX);
            at = at + 1;
        }
        let _ = self.queues[index].remove(at);
        proof {
            assert(at == first);
            let after = without_queued(before, bucket as int, thread);
            assert(self@ =~= after) by {
                assert forall|i: int| 0 <= i < BUCKETS implies #[trigger] self@[i] =~= after[i] by {}
            }
            lemma_total_update(before, bucket as int, after[bucket as int]);
        }
        self.len = self.len - 1;
        let emptied = self.queues[index].len() == 0;
        let word: usize = index / 64;
        let shift: usize = index % 64;
        if emptied {
            let cleared: u64 = self.bits[word] & !(1u64 << (shift as u64));
            self.bits[word] = cleared;
        }
        proof {
            let after = without_queued(before, bucket as int, thread);
            assert(self@ =~= after);
            assert forall|b: int|
                #![trigger self.queues@[b]]
                0 <= b < BUCKETS implies word_bit(self.bits[b / 64], (b % 64) as u64) == (
            self.queues@[b]@.len() > 0) by {
                assert(before[b] == old(self).queues@[b]@);
                if b / 64 == word && emptied {
                    lemma_clear_bit(old_bits[word as int], shift as u64, (b % 64) as u64);
                }
            }
        }
        emptied
    }

    /// Returns the oldest thread of the least occupied bucket in `start..=end`.
    pub fn first_in_range(&self, start: u8, end: u8) -> (thread: Option<usize>)
        requires
            self.wf(),
            start <= end,
        ensures
            thread == first_queued(self@, start as int, end as int),
    {
        match self.first_occupied_bucket(start, end) {
            Some(bucket) => {
                proof {
                    lemma_first_occupied(self@, start as int, end as int);
                }
                Some(self.queues[bucket as usize][0])
            },
            None => None,
        }
    }

    /// Finds the least occupied bucket in `start..=end` with at most four
    /// bitmap probes.
    pub fn first_occupied_bucket(&self, start: u8, end: u8) -> (bucket: Option<u8>)
        requires
            self.wf(),
            start <= end,
        ensures
            match bucket {
                Some(b) => first_occupied(self@, start as int, end as int) == Some(b as int),
                None => first_occupied(self@, start as int, end as int).is_none(),
            },
    {
        let first_word: usize = start as usize / 64;
        let last_word: usize = end as usize / 64;
        let mut word: usize = first_word;
        while word <= last_word
            invariant
                self.wf(),
                start <= end,
                first_word == start / 64,
                last_word == end / 64,
                first_word <= word <= last_word + 1,
                forall|b: int|
                    start <= b <= end && b < 64 * word ==> (#[trigger] self@[b]).len() == 0,
            decreases last_word + 1 - word,
        {
            let ghost raw = self.bits@[word as int];
            let mut occupied: u64 = self.bits[word];
            let start_bit: usize = start as usize % 64;
            let end_bit: usize = end as usize % 64;
            if word == first_word {
                occupied = occupied & (u64::MAX << (start_bit as u64));
            }
            let ghost low = occupied;
            if word == last_word {
                if end_bit != 63 {
                    proof {
                        lemma_mask_high(low, end_bit as u64, 0);
                    }
                    occupied = occupied & ((1u64 << (end_bit as u64 + 1)) - 1);
                }
            }
            proof {
                assert forall|k: u64| k < 64 implies #[trigger] word_bit(occupied, k) == (start
                    <= 64 * word + k <= end && self@[64 * word + k].len() > 0) by {
                    let b = 64 * word + k;
                    assert(0 <= b < BUCKETS);
                    assert(self.queues@[b]@ == self@[b]);
                    if word == first_word {
                        lemma_mask_low(raw, start_bit as u64, k);
                    }
                    if word == last_word && end_bit != 63 {
                        lemma_mask_high(low, end_bit as u64, k);
                    }
                }
                axiom_u64_trailing_zeros(occupied);
            }
            if occupied != 0 {
                let bucket: usize = word * 64 + occupied.trailing_zeros() as usize;
                proof {
                    let tz = occupied.trailing_zeros() as u64;
                    assert(word_bit(occupied, tz));
                    assert forall|b: int| start <= b < bucket implies (#[trigger] self@[b]).len()
                        == 0 by {
                        if b >= 64 * word {
                            let k = (b - 64 * word) as u64;
                            assert((occupied >> k) & 1u64 == 0u64);
                            assert(!word_bit(occupied, k));
                        }
                    }
                    lemma_first_occupied_is(self@, start as int, end as int, bucket as int);
                }
                return Some(bucket as u8);
            }
            proof {
                assert forall|b: int| start <= b <= end && b < 64 * (word + 1) implies (
                #[trigger] self@[b]).len() == 0 by {
                    if b >= 64 * word {
                        let k = (b - 64 * word) as u64;
                        lemma_zero_bits(k);
                        assert(!word_bit(occupied, k));
                    }
                }
            }
            word = word + 1;
        }
        proof {
            lemma_first_occupied_none(self@, start as int, end as int);
        }
        None
    }

    /// Returns the first thread in `start..=end` that another CPU may take.
    ///
    /// Threads that are `current` or still `unwinding` on their CPU stay, and
    /// each bucket is searched only to a bounded depth.
    pub fn first_in_range_if(
        &self,
        start: u8,
        end: u8,
        threads: &Vec<Thread>,
        current: Option<usize>,
        unwinding: Option<usize>,
    ) -> (thread: Option<usize>)
        requires
            self.wf(),
            start <= end,
            forall|b: int, i: int|
                #![trigger self@[b][i]]
                0 <= b < BUCKETS && 0 <= i < self@[b].len() ==> self@[b][i] < threads@.len(),
        ensures
            thread == first_accepted(
                self@,
                start as int,
                end as int,
                stealable(threads@, current, unwinding),
            ),
    {
        let ghost accept = stealable(threads@, current, unwinding);
        let mut cursor: usize = start as usize;
        let stop: usize = end as usize;
        while cursor <= stop
            invariant
                self.wf(),
                start <= cursor <= stop + 1,
                stop == end,
                accept == stealable(threads@, current, unwinding),
                forall|b: int, i: int|
                    #![trigger self@[b][i]]
                    0 <= b < BUCKETS && 0 <= i < self@[b].len() ==> self@[b][i] < threads@.len(),
                first_accepted(self@, start as int, end as int, accept) == first_accepted(
                    self@,
                    cursor as int,
                    end as int,
                    accept,
                ),
            decreases stop + 1 - cursor,
        {
            match self.first_occupied_bucket(cursor as u8, end) {
                None => {
                    proof {
                        lemma_first_occupied(self@, cursor as int, end as int);
                        lemma_no_accepted(self@, cursor as int, end as int + 1, end as int, accept);
                    }
                    return None;
                },
                Some(bucket) => {
                    let b: usize = bucket as usize;
                    proof {
                        lemma_first_occupied(self@, cursor as int, end as int);
                        lemma_no_accepted(self@, cursor as int, b as int, end as int, accept);
                    }
                    let mut at: usize = 0;
                    while at < self.queues[b].len() && at < RUNQ_CANDIDATE_SCAN
                        invariant
                            self.wf(),
                            b < BUCKETS,
                            b == bucket,
                            start <= b <= end,
                            accept == stealable(threads@, current, unwinding),
                            forall|b: int, i: int|
                                #![trigger self@[b][i]]
                                0 <= b < BUCKETS && 0 <= i < self@[b].len() ==> self@[b][i]
                                    < threads@.len(),
                            0 <= at <= RUNQ_CANDIDATE_SCAN,
                            first_accepted(self@, start as int, end as int, accept)
                                == first_accepted(self@, b as int, end as int, accept),
                            first_accepted_in(self@[b as int], 0, RUNQ_CANDIDATE_SCAN as int, accept)
                                == first_accepted_in(
                                self@[b as int],
                                at as int,
                                RUNQ_CANDIDATE_SCAN as int,
                                accept,
                            ),
                        decreases RUNQ_CANDIDATE_SCAN - at,
                    {
                        let candidate: usize = self.queues[b][at];
                        assert(self@[b as int][at as int] == candidate);
                        if may_steal(candidate, threads, current, unwinding) {
                            return Some(candidate);
                        }
                        at = at + 1;
                    }
                    cursor = b + 1;
                },
            }
        }
        None
    }
}

/// Whether a thread may be taken away from its CPU.
pub open spec fn stealable(
    threads: Seq<Thread>,
    current: Option<usize>,
    unwinding: Option<usize>,
) -> spec_fn(usize) -> bool {
    |t: usize| current != Some(t) && unwinding != Some(t) && threads[t as int].spec_can_migrate()
}

fn may_steal(
    candidate: usize,
    threads: &Vec<Thread>,
    current: Option<usize>,
    unwinding: Option<usize>,
) -> (free: bool)
    requires
        candidate < threads@.len(),
    ensures
        free == stealable(threads@, current, unwinding)(candidate),
{
    if let Some(running) = current {
        if running == candidate {
            return false;
        }
    }
    if let Some(leaving) = unwinding {
        if leaving == candidate {
            return false;
        }
    }
    threads[candidate].can_migrate()
}

/// Empty buckets hold nothing.
pub proof fn lemma_total_empty(buckets: Buckets, n: nat)
    requires
        n <= buckets.len(),
        forall|i: int| 0 <= i < n ==> (#[trigger] buckets[i]).len() == 0,
    ensures
        queued_below(buckets, n) == 0,
    decreases n,
{
    if n > 0 {
        lemma_total_empty(buckets, (n - 1) as nat);
    }
}

proof fn lemma_below_same(left: Buckets, right: Buckets, n: nat)
    requires
        forall|i: int| 0 <= i < n ==> left[i] == right[i],
    ensures
        queued_below(left, n) == queued_below(right, n),
    decreases n,
{
    if n > 0 {
        lemma_below_same(left, right, (n - 1) as nat);
    }
}

proof fn lemma_below_update(buckets: Buckets, at: int, queue: Seq<usize>, n: nat)
    requires
        0 <= at < n <= buckets.len(),
    ensures
        queued_below(buckets.update(at, queue), n) == queued_below(buckets, n) + queue.len()
            - buckets[at].len(),
    decreases n,
{
    if at == n - 1 {
        lemma_below_same(buckets.update(at, queue), buckets, (n - 1) as nat);
    } else {
        lemma_below_update(buckets, at, queue, (n - 1) as nat);
    }
}

/// Replacing one queue changes the number of queued threads by the difference
/// in length.
pub proof fn lemma_total_update(buckets: Buckets, at: int, queue: Seq<usize>)
    requires
        0 <= at < buckets.len(),
    ensures
        queued_total(buckets.update(at, queue)) == queued_total(buckets) + queue.len()
            - buckets[at].len(),
{
    lemma_below_update(buckets, at, queue, buckets.len());
}

/// Threads are queued exactly when some bucket is occupied.
pub proof fn lemma_total_positive(buckets: Buckets)
    ensures
        queued_total(buckets) > 0 <==> exists|b: int|
            0 <= b < buckets.len() && (#[trigger] buckets[b]).len() > 0,
{
    lemma_below_positive(buckets, buckets.len());
}

proof fn lemma_below_positive(buckets: Buckets, n: nat)
    requires
        n <= buckets.len(),
    ensures
        queued_below(buckets, n) > 0 <==> exists|b: int|
            0 <= b < n && (#[trigger] buckets[b]).len() > 0,
    decreases n,
{
    if n > 0 {
        lemma_below_positive(buckets, (n - 1) as nat);
        assert(buckets[n - 1].len() >= 0);
    }
}

/// The least occupied bucket is occupied, in range, and nothing before it is
/// occupied; there is none exactly when the whole range is empty.
pub proof fn lemma_first_occupied(buckets: Buckets, start: int, end: int)
    ensures
        match first_occupied(buckets, start, end) {
            Some(b) => start <= b <= end && buckets[b].len() > 0 && forall|i: int|
                start <= i < b ==> (#[trigger] buckets[i]).len() == 0,
            None => forall|i: int| start <= i <= end ==> (#[trigger] buckets[i]).len() == 0,
        },
    decreases end - start + 1,
{
    if start <= end && buckets[start].len() == 0 {
        lemma_first_occupied(buckets, start + 1, end);
    }
}

proof fn lemma_first_occupied_is(buckets: Buckets, start: int, end: int, b: int)
    requires
        start <= b <= end,
        buckets[b].len() > 0,
        forall|i: int| start <= i < b ==> (#[trigger] buckets[i]).len() == 0,
    ensures
        first_occupied(buckets, start, end) == Some(b),
    decreases end - start + 1,
{
    if start < b {
        assert(buckets[start].len() == 0);
        lemma_first_occupied_is(buckets, start + 1, end, b);
    }
}

proof fn lemma_first_occupied_none(buckets: Buckets, start: int, end: int)
    requires
        forall|i: int| start <= i <= end ==> (#[trigger] buckets[i]).len() == 0,
    ensures
        first_occupied(buckets, start, end).is_none(),
    decreases end - start + 1,
{
    if start <= end {
        assert(buckets[start].len() == 0);
        lemma_first_occupied_none(buckets, start + 1, end);
    }
}

proof fn lemma_no_accepted(
    buckets: Buckets,
    start: int,
    until: int,
    end: int,
    accept: spec_fn(usize) -> bool,
)
    requires
        start <= until <= end + 1,
        forall|i: int| start <= i < until ==> (#[trigger] buckets[i]).len() == 0,
    ensures
        first_accepted(buckets, start, end, accept) == first_accepted(buckets, until, end, accept),
    decreases until - start,
{
    if start < until {
        assert(buckets[start].len() == 0);
        lemma_no_accepted(buckets, start + 1, until, end, accept);
    }
}

/// A thread chosen for migration is queued in the range searched and admitted.
pub proof fn lemma_first_accepted(
    buckets: Buckets,
    start: int,
    end: int,
    accept: spec_fn(usize) -> bool,
)
    ensures
        match first_accepted(buckets, start, end, accept) {
            Some(t) => accept(t) && exists|b: int|
                start <= b <= end && (#[trigger] buckets[b]).contains(t),
            None => true,
        },
    decreases end - start + 1,
{
    if start <= end {
        lemma_first_accepted_in(buckets[start], 0, RUNQ_CANDIDATE_SCAN as int, accept);
        lemma_first_accepted(buckets, start + 1, end, accept);
    }
}

proof fn lemma_first_accepted_in(
    queue: Seq<usize>,
    at: int,
    limit: int,
    accept: spec_fn(usize) -> bool,
)
    requires
        at >= 0,
    ensures
        match first_accepted_in(queue, at, limit, accept) {
            Some(t) => accept(t) && queue.contains(t),
            None => true,
        },
    decreases queue.len() - at,
{
    if at < queue.len() && at < limit && !accept(queue[at]) {
        lemma_first_accepted_in(queue, at + 1, limit, accept);
    }
}

/// A thread queued and then taken out again leaves the queue as it was, for a
/// thread that was not queued there before.
pub proof fn law_queue_round_trip(
    buckets: Buckets,
    bucket: int,
    thread: usize,
    push_front: bool,
)
    requires
        0 <= bucket < buckets.len(),
        !buckets[bucket].contains(thread),
    ensures
        without_queued(with_queued(buckets, bucket, thread, push_front), bucket, thread) == buckets,
{
    let queue = buckets[bucket];
    let grown = with_queued(buckets, bucket, thread, push_front)[bucket];
    grown.index_of_first_ensures(thread);
    if push_front {
        assert(grown[0] == thread);
        assert(grown.remove_value(thread) =~= queue);
    } else {
        assert(grown[queue.len() as int] == thread);
        let first = grown.index_of_first(thread)->0;
        assert(first == queue.len()) by {
            if first < queue.len() {
                assert(queue[first] == thread);
            }
        }
        assert(grown.remove_value(thread) =~= queue);
    }
    assert(without_queued(with_queued(buckets, bucket, thread, push_front), bucket, thread)
        =~= buckets);
}

} // verus!
