//! Pseudorandom byte generator.

use vstd::prelude::*;
use crate::bytes::{put_u32, u32_bytes, u64_at};

verus! {

/// Bytes of one output block.
pub const BLOCK_SIZE: usize = 64;

/// The number with its bits rotated left.
pub open spec fn rotated(x: u32, n: u32) -> u32 {
    (x << n) | (x >> ((32 - n) as u32))
}

fn rotate(x: u32, n: u32) -> (y: u32)
    requires
        0 < n < 32,
    ensures
        y == rotated(x, n),
{
    (x << n) | (x >> (32 - n))
}

/// A mix of a number's bits.
pub open spec fn mixed(value: u64) -> u64 {
    let a = value.wrapping_add(0x9e37_79b9_7f4a_7c15);
    let b = (a ^ (a >> 30)).wrapping_mul(0xbf58_476d_1ce4_e5b9);
    let c = (b ^ (b >> 27)).wrapping_mul(0x94d0_49bb_1331_11eb);
    c ^ (c >> 31)
}

/// Mixes the bits of a number.
pub fn splitmix64(value: u64) -> (result: u64)
    ensures
        result == mixed(value),
{
    let a: u64 = value.wrapping_add(0x9e37_79b9_7f4a_7c15);
    let b: u64 = (a ^ (a >> 30)).wrapping_mul(0xbf58_476d_1ce4_e5b9);
    let c: u64 = (b ^ (b >> 27)).wrapping_mul(0x94d0_49bb_1331_11eb);
    c ^ (c >> 31)
}

/// Four words after a quarter round.
pub open spec fn quartered(a: u32, b: u32, c: u32, d: u32) -> (u32, u32, u32, u32) {
    let a1 = a.wrapping_add(b);
    let d1 = rotated(d ^ a1, 16);
    let c1 = c.wrapping_add(d1);
    let b1 = rotated(b ^ c1, 12);
    let a2 = a1.wrapping_add(b1);
    let d2 = rotated(d1 ^ a2, 8);
    let c2 = c1.wrapping_add(d2);
    let b2 = rotated(b1 ^ c2, 7);
    (a2, b2, c2, d2)
}

/// A state after a quarter round on four of its words.
pub open spec fn quarter(state: Seq<u32>, a: int, b: int, c: int, d: int) -> Seq<u32> {
    let (x, y, z, w) = quartered(state[a], state[b], state[c], state[d]);
    state.update(a, x).update(b, y).update(c, z).update(d, w)
}

/// A state after a round on its columns and one on its diagonals.
pub open spec fn double_round(s: Seq<u32>) -> Seq<u32> {
    let columns = quarter(
        quarter(quarter(quarter(s, 0, 4, 8, 12), 1, 5, 9, 13), 2, 6, 10, 14),
        3,
        7,
        11,
        15,
    );
    quarter(
        quarter(quarter(quarter(columns, 0, 5, 10, 15), 1, 6, 11, 12), 2, 7, 8, 13),
        3,
        4,
        9,
        14,
    )
}

/// A state after `n` double rounds.
pub open spec fn rounds(state: Seq<u32>, n: nat) -> Seq<u32>
    decreases n,
{
    if n == 0 {
        state
    } else {
        double_round(rounds(state, (n - 1) as nat))
    }
}

/// The bytes of the first `n` words of the sum of two states.
pub open spec fn sum_bytes(one: Seq<u32>, two: Seq<u32>, n: nat) -> Seq<u8>
    decreases n,
{
    if n == 0 {
        Seq::empty()
    } else {
        sum_bytes(one, two, (n - 1) as nat) + u32_bytes(one[n - 1].wrapping_add(two[n - 1]))
    }
}

fn quarter_round(state: &mut Vec<u32>, a: usize, b: usize, c: usize, d: usize)
    requires
        old(state)@.len() == 16,
        a < 16,
        b < 16,
        c < 16,
        d < 16,
    ensures
        final(state)@ == quarter(old(state)@, a as int, b as int, c as int, d as int),
        final(state)@.len() == 16,
{
    let a1: u32 = state[a].wrapping_add(state[b]);
    let d1: u32 = rotate(state[d] ^ a1, 16);
    let c1: u32 = state[c].wrapping_add(d1);
    let b1: u32 = rotate(state[b] ^ c1, 12);
    let a2: u32 = a1.wrapping_add(b1);
    let d2: u32 = rotate(d1 ^ a2, 8);
    let c2: u32 = c1.wrapping_add(d2);
    let b2: u32 = rotate(b1 ^ c2, 7);
    state.set(a, a2);
    state.set(b, b2);
    state.set(c, c2);
    state.set(d, d2);
}

fn run_double_round(state: &mut Vec<u32>)
    requires
        old(state)@.len() == 16,
    ensures
        final(state)@ == double_round(old(state)@),
        final(state)@.len() == 16,
{
    quarter_round(state, 0, 4, 8, 12);
    quarter_round(state, 1, 5, 9, 13);
    quarter_round(state, 2, 6, 10, 14);
    quarter_round(state, 3, 7, 11, 15);
    quarter_round(state, 0, 5, 10, 15);
    quarter_round(state, 1, 6, 11, 12);
    quarter_round(state, 2, 7, 8, 13);
    quarter_round(state, 3, 4, 9, 14);
}

/// The generator as specifications see it.
#[verifier::ext_equal]
pub struct GeneratorModel {
    /// Key words.
    pub key: Seq<u32>,
    /// Number of the next block.
    pub counter: u64,
    /// Nonce words.
    pub nonce: Seq<u32>,
    /// Output that is not used up.
    pub rest: Seq<u8>,
}

/// The key after `n` of its words took part in mixing, and the mixer.
pub open spec fn stirred(key: Seq<u32>, mixer: u64, n: nat) -> (Seq<u32>, u64)
    decreases n,
{
    if n == 0 {
        (key, mixer)
    } else {
        let (before, last) = stirred(key, mixer, (n - 1) as nat);
        let next = mixed(last ^ (before[n - 1] as u64) ^ ((n - 1) as u64));
        (before.update(n - 1, before[n - 1] ^ ((next ^ (next >> 32)) as u32)), next)
    }
}

impl GeneratorModel {
    /// Key and nonce have their sizes.
    pub open spec fn wf(self) -> bool {
        self.key.len() == 8 && self.nonce.len() == 2 && self.rest.len() <= BLOCK_SIZE
    }

    /// The state that the next block comes from.
    pub open spec fn input(self) -> Seq<u32> {
        seq![0x6170_7865u32, 0x3320_646e, 0x7962_2d32, 0x6b20_6574] + self.key + seq![
            self.counter as u32,
            (self.counter >> 32) as u32,
        ] + self.nonce
    }

    /// The next block.
    pub open spec fn block(self) -> Seq<u8> {
        sum_bytes(rounds(self.input(), 10), self.input(), 16)
    }

    /// The generator with a fresh block.
    pub open spec fn refilled(self) -> GeneratorModel {
        GeneratorModel { counter: self.counter.wrapping_add(1), rest: self.block(), ..self }
    }

    /// The generator with output to hand out.
    pub open spec fn stocked(self) -> GeneratorModel {
        if self.rest.len() == 0 {
            self.refilled()
        } else {
            self
        }
    }

    /// The next `n` bytes.
    pub open spec fn bytes(self, n: nat) -> Seq<u8>
        decreases n,
    {
        if n == 0 {
            Seq::empty()
        } else {
            let before = self.after((n - 1) as nat).stocked();
            self.bytes((n - 1) as nat).push(before.rest[0])
        }
    }

    /// The generator after `n` bytes.
    pub open spec fn after(self, n: nat) -> GeneratorModel
        decreases n,
    {
        if n == 0 {
            self
        } else {
            let before = self.after((n - 1) as nat).stocked();
            GeneratorModel { rest: before.rest.skip(1), ..before }
        }
    }

    /// The generator with a word mixed in; its stock is thrown away.
    pub open spec fn mixing(self, word: u64) -> GeneratorModel {
        let start = word ^ self.counter ^ (((self.nonce[0] as u64) << 32) | ((self.nonce[0] as u64)
            >> 32));
        let (key, mixer) = stirred(self.key, start, 8);
        GeneratorModel {
            key,
            nonce: seq![self.nonce[0] ^ (mixer as u32), self.nonce[1] ^ ((mixer >> 32) as u32)],
            counter: self.counter.wrapping_add(mixed(mixer)),
            rest: Seq::empty(),
        }
    }
}

/// Pseudorandom generator.
pub struct Generator {
    key: Vec<u32>,
    counter: u64,
    nonce: Vec<u32>,
    block: Vec<u8>,
    used: usize,
}

impl View for Generator {
    type V = GeneratorModel;

    closed spec fn view(&self) -> GeneratorModel {
        GeneratorModel {
            key: self.key@,
            counter: self.counter,
            nonce: self.nonce@,
            rest: self.block@.skip(self.used as int),
        }
    }
}

/// The running seed after `n` draws of entropy and time.
pub open spec fn seed_after(seed: u64, draws: Seq<(Option<u64>, u64)>, n: nat) -> u64
    decreases n,
{
    if n == 0 {
        seed
    } else {
        let last = seed_after(seed, draws, (n - 1) as nat);
        let (entropy, now) = draws[n - 1];
        mixed((match entropy {
            Some(word) => last ^ word,
            None => last,
        }) ^ now)
    }
}

proof fn lemma_sum_len(one: Seq<u32>, two: Seq<u32>, n: nat)
    ensures
        sum_bytes(one, two, n).len() == 4 * n,
    decreases n,
{
    if n > 0 {
        lemma_sum_len(one, two, (n - 1) as nat);
    }
}

impl Generator {
    /// Key and nonce have their sizes.
    pub closed spec fn wf(self) -> bool {
        self.key@.len() == 8 && self.nonce@.len() == 2 && self.block@.len() == BLOCK_SIZE
            && self.used <= BLOCK_SIZE
    }

    /// A sound generator has a sound model.
    pub proof fn lemma_wf(self)
        requires
            self.wf(),
        ensures
            self@.wf(),
    {
    }

    /// A generator from a seed, and one draw of entropy and time for each key
    /// word.
    pub fn seeded(seed: u64, draws: &Vec<(Option<u64>, u64)>, now: u64) -> (generator: Self)
        requires
            draws@.len() == 8,
        ensures
            generator.wf(),
            generator@.key == Seq::new(
                8,
                |i: int| seed_after(seed, draws@, (i + 1) as nat) as u32,
            ),
            ({
                let nonce_seed = mixed(seed_after(seed, draws@, 8) ^ now);
                &&& generator@.nonce == seq![nonce_seed as u32, (nonce_seed >> 32) as u32]
                &&& generator@.counter == mixed(nonce_seed)
            }),
            generator@.rest == Seq::<u8>::empty(),
    {
        let mut running: u64 = seed;
        let mut key: Vec<u32> = Vec::new();
        while key.len() < 8
            invariant
                key@.len() <= 8,
                draws@.len() == 8,
                running == seed_after(seed, draws@, key@.len()),
                key@ == Seq::new(
                    key@.len(),
                    |i: int| seed_after(seed, draws@, (i + 1) as nat) as u32,
                ),
            decreases 8 - key@.len(),
        {
            let (entropy, time) = draws[key.len()];
            if let Some(word) = entropy {
                running = running ^ word;
            }
            running = splitmix64(running ^ time);
            assert(running == seed_after(seed, draws@, key@.len() + 1));
            key.push(#[verifier::truncate] (running as u32));
            assert(key@ =~= Seq::new(
                key@.len(),
                |i: int| seed_after(seed, draws@, (i + 1) as nat) as u32,
            ));
        }
        let nonce_seed: u64 = splitmix64(running ^ now);
        let mut nonce: Vec<u32> = Vec::new();
        nonce.push(#[verifier::truncate] (nonce_seed as u32));
        nonce.push(#[verifier::truncate] ((nonce_seed >> 32) as u32));
        assert(nonce@ =~= seq![nonce_seed as u32, (nonce_seed >> 32) as u32]);
        let mut block: Vec<u8> = Vec::new();
        while block.len() < BLOCK_SIZE
            invariant
                block@.len() <= BLOCK_SIZE,
            decreases BLOCK_SIZE - block@.len(),
        {
            block.push(0);
        }
        let generator = Generator {
            key,
            counter: splitmix64(nonce_seed),
            nonce,
            block,
            used: BLOCK_SIZE,
        };
        assert(generator@.rest =~= Seq::empty());
        generator
    }

    /// Mixes a word into key, nonce and counter.
    pub fn mix_word(&mut self, word: u64)
        requires
            old(self).wf(),
        ensures
            final(self).wf(),
            final(self)@ == old(self)@.mixing(word),
    {
        let ghost before = *self;
        let first: u64 = self.nonce[0] as u64;
        let mut mixer: u64 = word ^ self.counter ^ ((first << 32) | (first >> 32));
        let ghost start = mixer;
        let mut at: usize = 0;
        while at < 8
            invariant
                at <= 8,
                self.wf(),
                *self == (Generator { key: self.key, ..before }),
                (self.key@, mixer) == stirred(before.key@, start, at as nat),
            decreases 8 - at,
        {
            let word: u32 = self.key[at];
            mixer = splitmix64(mixer ^ word as u64 ^ at as u64);
            let folded: u32 = #[verifier::truncate] ((mixer ^ (mixer >> 32)) as u32);
            self.key.set(at, word ^ folded);
            at = at + 1;
        }
        let low: u32 = #[verifier::truncate] (mixer as u32);
        let high: u32 = #[verifier::truncate] ((mixer >> 32) as u32);
        let one: u32 = self.nonce[0] ^ low;
        let two: u32 = self.nonce[1] ^ high;
        self.nonce.set(0, one);
        self.nonce.set(1, two);
        self.counter = self.counter.wrapping_add(splitmix64(mixer));
        self.used = BLOCK_SIZE;
        assert(self.nonce@ =~= seq![one, two]);
        assert(self@.rest =~= Seq::empty());
        assert(self@ =~= before@.mixing(word));
    }

    /// Mixes in the time, and entropy if there is any.
    pub fn stir_runtime(&mut self, timing: u64, entropy: Option<u64>)
        requires
            old(self).wf(),
        ensures
            final(self).wf(),
            final(self)@ == match entropy {
                Some(word) => old(self)@.mixing(timing).mixing(word),
                None => old(self)@.mixing(timing),
            },
    {
        self.mix_word(timing);
        if let Some(word) = entropy {
            self.mix_word(word);
        }
    }

    fn refill(&mut self)
        requires
            old(self).wf(),
        ensures
            final(self).wf(),
            final(self)@ == old(self)@.refilled(),
            final(self)@.rest.len() == BLOCK_SIZE,
    {
        let ghost before = self@;
        let mut state: Vec<u32> = Vec::new();
        state.push(0x6170_7865);
        state.push(0x3320_646e);
        state.push(0x7962_2d32);
        state.push(0x6b20_6574);
        let mut at: usize = 0;
        while at < 8
            invariant
                at <= 8,
                self.wf(),
                before == self@,
                state@ == seq![0x6170_7865u32, 0x3320_646e, 0x7962_2d32, 0x6b20_6574]
                    + self.key@.take(at as int),
            decreases 8 - at,
        {
            state.push(self.key[at]);
            at = at + 1;
            assert(state@ =~= seq![0x6170_7865u32, 0x3320_646e, 0x7962_2d32, 0x6b20_6574]
                + self.key@.take(at as int));
        }
        state.push(#[verifier::truncate] (self.counter as u32));
        state.push(#[verifier::truncate] ((self.counter >> 32) as u32));
        state.push(self.nonce[0]);
        state.push(self.nonce[1]);
        assert(state@ =~= before.input());
        let mut input: Vec<u32> = Vec::new();
        let mut copied: usize = 0;
        while copied < 16
            invariant
                copied <= 16,
                state@.len() == 16,
                input@ == state@.take(copied as int),
            decreases 16 - copied,
        {
            input.push(state[copied]);
            copied = copied + 1;
            assert(input@ =~= state@.take(copied as int));
        }
        assert(input@ =~= before.input());
        let mut round: usize = 0;
        while round < 10
            invariant
                round <= 10,
                state@.len() == 16,
                state@ == rounds(before.input(), round as nat),
            decreases 10 - round,
        {
            run_double_round(&mut state);
            round = round + 1;
        }
        let mut block: Vec<u8> = Vec::new();
        let mut word: usize = 0;
        while word < 16
            invariant
                word <= 16,
                state@.len() == 16,
                input@.len() == 16,
                block@ == sum_bytes(state@, input@, word as nat),
            decreases 16 - word,
        {
            put_u32(&mut block, state[word].wrapping_add(input[word]));
            word = word + 1;
        }
        proof {
            lemma_sum_len(state@, input@, 16);
        }
        self.block = block;
        self.counter = self.counter.wrapping_add(1);
        self.used = 0;
        assert(self@.rest =~= before.block());
        assert(self@ =~= before.refilled());
    }

    /// The next `count` bytes.
    pub fn fill(&mut self, count: usize) -> (output: Vec<u8>)
        requires
            old(self).wf(),
        ensures
            final(self).wf(),
            output@ == old(self)@.bytes(count as nat),
            final(self)@ == old(self)@.after(count as nat),
    {
        let mut output: Vec<u8> = Vec::new();
        while output.len() < count
            invariant
                output@.len() <= count,
                self.wf(),
                output@ == old(self)@.bytes(output@.len()),
                self@ == old(self)@.after(output@.len()),
            decreases count - output@.len(),
        {
            let ghost n = output@.len();
            let ghost here = self@;
            if self.used == BLOCK_SIZE {
                assert(self@.rest =~= Seq::empty());
                self.refill();
            }
            assert(self@ == here.stocked());
            assert(self@.rest[0] == self.block@[self.used as int]);
            let ghost stocked = self@;
            output.push(self.block[self.used]);
            self.used = self.used + 1;
            assert(self@.rest =~= stocked.rest.skip(1));
            assert(self@ =~= old(self)@.after(n + 1));
        }
        output
    }
}

/// Fills `count` bytes, after mixing in time and entropy; no bytes cost
/// nothing.
pub fn fill_bytes(generator: &mut Generator, count: usize, timing: u64, entropy: Option<u64>) -> (output:
    Vec<u8>)
    requires
        old(generator).wf(),
    ensures
        final(generator).wf(),
        count == 0 ==> output@ == Seq::<u8>::empty() && final(generator)@ == old(generator)@,
        count > 0 ==> {
            let stirred = match entropy {
                Some(word) => old(generator)@.mixing(timing).mixing(word),
                None => old(generator)@.mixing(timing),
            };
            output@ == stirred.bytes(count as nat) && final(generator)@ == stirred.after(
                count as nat,
            )
        },
{
    if count == 0 {
        return Vec::new();
    }
    generator.stir_runtime(timing, entropy);
    generator.fill(count)
}

/// The eight bytes at a place as a number, where missing bytes are zero.
pub open spec fn word_at(input: Seq<u8>, index: int) -> u64 {
    u64_at(Seq::new(8, |i: int| if 8 * index + i < input.len() {
        input[8 * index + i]
    } else {
        0u8
    }), 0)
}

/// The generator after `n` words of input were mixed in.
pub open spec fn mixed_in(model: GeneratorModel, input: Seq<u8>, n: nat) -> GeneratorModel
    decreases n,
{
    if n == 0 {
        model
    } else {
        mixed_in(model, input, (n - 1) as nat).mixing(word_at(input, n - 1) ^ ((n - 1) as u64))
    }
}

/// Mixes data into the generator.
pub fn mix_bytes(generator: &mut Generator, input: &[u8])
    requires
        old(generator).wf(),
    ensures
        final(generator).wf(),
        final(generator)@ == mixed_in(old(generator)@, input@, ((input@.len() + 7) / 8) as nat),
{
    let mut index: usize = 0;
    let mut at: usize = 0;
    assert(input@.len() == input.len());
    while at < input.len()
        invariant
            generator.wf(),
            input@.len() == input.len(),
            at <= input@.len(),
            at == 8 * index || (at == input@.len() && 8 * index - 8 < at <= 8 * index),
            index == (at + 7) / 8,
            generator@ == mixed_in(old(generator)@, input@, index as nat),
        decreases input@.len() - at,
    {
        let ghost place = index as int;
        let mut word: Vec<u8> = Vec::new();
        while word.len() < 8
            invariant
                word@.len() <= 8,
                at <= input@.len() <= usize::MAX,
                at == 8 * index,
                at < input@.len(),
                word@ == Seq::new(
                    word@.len(),
                    |i: int| if 8 * index + i < input@.len() {
                        input@[8 * index + i]
                    } else {
                        0u8
                    },
                ),
            decreases 8 - word@.len(),
        {
            let offset: usize = word.len();
            if offset < input.len() - at {
                word.push(input[at + offset]);
            } else {
                word.push(0);
            }
            assert(word@ =~= Seq::new(
                word@.len(),
                |i: int| if 8 * index + i < input@.len() {
                    input@[8 * index + i]
                } else {
                    0u8
                },
            ));
        }
        assert(word@ =~= Seq::new(
            8,
            |i: int| if 8 * index + i < input@.len() {
                input@[8 * index + i]
            } else {
                0u8
            },
        ));
        let value: u64 = crate::bytes::get_u64(&word, 0);
        generator.mix_word(value ^ index as u64);
        index = index + 1;
        at = if input.len() - at < 8 {
            input.len()
        } else {
            at + 8
        };
    }
}

/// Output is one stream: taking some bytes and then more gives the same bytes
/// as taking all at once.
pub proof fn law_output_is_one_stream(model: GeneratorModel, one: nat, two: nat)
    ensures
        model.bytes(one + two) == model.bytes(one) + model.after(one).bytes(two),
        model.after(one + two) == model.after(one).after(two),
    decreases two,
{
    if two == 0 {
        assert(model.bytes(one) + model.after(one).bytes(0) =~= model.bytes(one));
    } else {
        law_output_is_one_stream(model, one, (two - 1) as nat);
        assert(model.bytes(one + two) =~= model.bytes(one) + model.after(one).bytes(two));
    }
}

/// Each block has its own number, and mixing data in throws the stock away, so
/// that no output from before is handed out after it.
pub proof fn law_blocks_are_numbered(model: GeneratorModel, word: u64)
    ensures
        model.refilled().counter == model.counter.wrapping_add(1),
        model.refilled().counter != model.counter,
        model.mixing(word).rest == Seq::<u8>::empty(),
{
}

/// A block is made from the key, the counter and the nonce, behind the four
/// fixed words.
pub proof fn law_block_input_is_complete(model: GeneratorModel, i: int)
    requires
        model.wf(),
        0 <= i < 8,
    ensures
        model.input().len() == 16,
        model.input()[0] == 0x6170_7865 && model.input()[1] == 0x3320_646e && model.input()[2]
            == 0x7962_2d32 && model.input()[3] == 0x6b20_6574,
        model.input()[4 + i] == model.key[i],
        model.input()[12] == model.counter as u32,
        model.input()[13] == (model.counter >> 32) as u32,
        model.input()[14] == model.nonce[0] && model.input()[15] == model.nonce[1],
{
}

/// A block has 64 bytes and is used up before the next one is made; each is
/// used once.
pub proof fn law_block_is_used_up(model: GeneratorModel)
    ensures
        model.block().len() == 64,
        model.rest.len() > 0 ==> model.stocked() == model && model.bytes(1) == seq![model.rest[0]]
            && model.after(1).rest == model.rest.skip(1),
        model.rest.len() == 0 ==> model.stocked() == model.refilled() && model.bytes(1)
            == seq![model.block()[0]],
        model.refilled().key == model.key && model.refilled().nonce == model.nonce,
{
    lemma_sum_len(rounds(model.input(), 10), model.input(), 16);
    reveal_with_fuel(GeneratorModel::bytes, 2);
    reveal_with_fuel(GeneratorModel::after, 2);
    assert(model.bytes(0) =~= Seq::<u8>::empty());
    assert(model.bytes(1) =~= seq![model.stocked().rest[0]]);
}

/// A quarter round changes four words of a block and no others.
pub proof fn law_quarter_round_is_local(state: Seq<u32>, a: int, b: int, c: int, d: int, other: int)
    requires
        state.len() == 16,
        0 <= a < 16 && 0 <= b < 16 && 0 <= c < 16 && 0 <= d < 16,
        0 <= other < 16,
        other != a && other != b && other != c && other != d,
    ensures
        quarter(state, a, b, c, d).len() == 16,
        quarter(state, a, b, c, d)[other] == state[other],
{
}

} // verus!
