//! Framebuffer fireworks: a stress test with one thread for each rocket and
//! each particle of its explosion.

use vstd::prelude::*;
use crate::num::{min_int, min_usize};
use crate::sys::fbcon::{byte_of, pack_color, packed, pixel_byte, FramebufferInfo};

verus! {

/// Most columns of the viewport.
pub const VIEW_WIDTH: usize = 320;

/// Most rows of the viewport.
pub const VIEW_HEIGHT: usize = 240;

/// Time between two steps.
pub const INTERVAL_MS: u32 = 16;

/// One in fixed-point numbers.
pub const FP_ONE: i32 = 4096;

/// Most particles at a time.
pub const MAX_ACTIVE_PARTICLES: usize = 400;

/// Locks that pixels share.
pub const PIXEL_LOCK_COUNT: usize = 64;

/// The colors of rockets and particles.
pub open spec fn palette_rgb() -> Seq<u32> {
    seq![
        0xF94144u32,
        0xF3722C,
        0xF9C74F,
        0x90BE6D,
        0x43AA8B,
        0x577590,
        0x9B5DE5,
        0xF15BB5,
    ]
}

/// Random numbers of the fireworks.
#[derive(Copy, Clone, Debug, PartialEq, Eq, Structural)]
pub struct Chance {
    /// Last state.
    pub state: u32,
}

/// The state after `state`.
pub open spec fn stepped(state: u32) -> u32 {
    state.wrapping_mul(1103515245).wrapping_add(12345)
}

/// The number that a state stands for.
pub open spec fn tempered(x: u32) -> u32 {
    let a = x ^ (x >> 11);
    let b = a ^ ((a << 7) & 0x9d2c_5680);
    let c = b ^ ((b << 15) & 0xefc6_0000);
    c ^ (c >> 18)
}

/// The state after `n` draws.
pub open spec fn state_after(state: u32, n: nat) -> u32
    decreases n,
{
    if n == 0 {
        state
    } else {
        stepped(state_after(state, (n - 1) as nat))
    }
}

/// The `n`th draw.
pub open spec fn draw(state: u32, n: nat) -> u32 {
    tempered(state_after(state, n))
}

impl Chance {
    /// The generator at boot.
    pub fn new() -> (chance: Self)
        ensures
            chance.state == 0x5EED_C0DEu32,
    {
        Chance { state: 0x5EED_C0DE }
    }

    /// Draws a number.
    pub fn rand_u32(&mut self) -> (value: u32)
        ensures
            final(self).state == stepped(old(self).state),
            value == tempered(stepped(old(self).state)),
    {
        self.state = self.state.wrapping_mul(1103515245).wrapping_add(12345);
        temper(self.state)
    }
}

/// Turns a state into a number.
pub fn temper(x: u32) -> (value: u32)
    ensures
        value == tempered(x),
{
    let a: u32 = x ^ (x >> 11);
    let b: u32 = a ^ ((a << 7) & 0x9d2c_5680);
    let c: u32 = b ^ ((b << 15) & 0xefc6_0000);
    c ^ (c >> 18)
}

/// The quotient without its fraction.
pub open spec fn quotient(a: int, b: int) -> int {
    if a >= 0 {
        a / b
    } else {
        -((-a) / b)
    }
}

/// The product of two fixed-point numbers, rounded down.
pub open spec fn product_fp(lhs: int, rhs: int) -> int {
    (lhs * rhs) / 4096
}

/// Turns a whole number into a fixed-point number.
pub fn int_to_fp(value: i32) -> (fp: i32)
    requires
        -0x8_0000 <= value < 0x8_0000,
    ensures
        fp == value * 4096,
{
    value * FP_ONE
}

/// Turns a fixed-point number into a whole one, rounding down.
pub fn fp_to_int(value: i32) -> (whole: i32)
    ensures
        whole == value as int / 4096,
{
    if value >= 0 {
        value / FP_ONE
    } else {
        let rest: i64 = -(value as i64) + 4095;
        -((rest / 4096) as i32)
    }
}

/// Multiplies fixed-point numbers, rounding down.
pub fn mul_fp(lhs: i32, rhs: i32) -> (product: i32)
    requires
        i32::MIN <= product_fp(lhs as int, rhs as int) <= i32::MAX,
    ensures
        product == product_fp(lhs as int, rhs as int),
{
    assert(-0x4000_0000_0000_0000 <= lhs * rhs <= 0x4000_0000_0000_0000) by (nonlinear_arith)
        requires
            -0x8000_0000 <= lhs <= 0x7fff_ffff,
            -0x8000_0000 <= rhs <= 0x7fff_ffff,
    ;
    let whole: i64 = lhs as i64 * rhs as i64;
    if whole >= 0 {
        (whole / 4096) as i32
    } else {
        let rest: i64 = -whole + 4095;
        assert(-(rest / 4096) == whole as int / 4096);
        (-(rest / 4096)) as i32
    }
}

/// How far a velocity leads in one step.
pub fn scale_step(velocity_fp: i32) -> (step: i32)
    ensures
        step == quotient(velocity_fp * 16, 1000),
{
    if velocity_fp >= 0 {
        ((velocity_fp as i64 * 16) / 1000) as i32
    } else {
        -(((-(velocity_fp as i64) * 16) / 1000) as i32)
    }
}

/// How much gravity changes a velocity in one step.
pub fn scale_gravity(gravity: i32) -> (step: i32)
    requires
        -0x8_0000 <= gravity < 0x8_0000,
    ensures
        step == quotient(gravity * 4096 * 16, 1000),
{
    scale_step(int_to_fp(gravity))
}

/// A direction of unit length, in the norm of absolute sums.
pub open spec fn direction(angle: u32) -> (int, int) {
    let octant = (angle / 512) % 8;
    let along = (angle % 512) * 8;
    let rest = 4096 - along;
    if octant == 0 {
        (rest as int, along as int)
    } else if octant == 1 {
        (along as int, rest as int)
    } else if octant == 2 {
        (-along as int, rest as int)
    } else if octant == 3 {
        (-rest as int, along as int)
    } else if octant == 4 {
        (-rest as int, -along as int)
    } else if octant == 5 {
        (-along as int, -rest as int)
    } else if octant == 6 {
        (along as int, -rest as int)
    } else {
        (rest as int, -along as int)
    }
}

/// The direction of an angle, of which a full turn has 4096 parts.
pub fn unit_vector(angle: u32) -> (vector: (i32, i32))
    ensures
        vector.0 == direction(angle).0,
        vector.1 == direction(angle).1,
{
    let octant: u32 = (angle / 512) % 8;
    let along: i32 = ((angle % 512) * 8) as i32;
    let rest: i32 = FP_ONE - along;
    if octant == 0 {
        (rest, along)
    } else if octant == 1 {
        (along, rest)
    } else if octant == 2 {
        (-along, rest)
    } else if octant == 3 {
        (-rest, along)
    } else if octant == 4 {
        (-rest, -along)
    } else if octant == 5 {
        (-along, -rest)
    } else if octant == 6 {
        (along, -rest)
    } else {
        (rest, -along)
    }
}

/// A rocket or particle in flight.
#[derive(Copy, Clone, Debug, PartialEq, Eq, Structural)]
pub struct Flight {
    /// Horizontal place in fixed-point pixels.
    pub x: i32,
    /// Vertical place.
    pub y: i32,
    /// Horizontal velocity in fixed-point pixels per second.
    pub vel_x: i32,
    /// Vertical velocity.
    pub vel_y: i32,
    /// Time in flight.
    pub elapsed_ms: u32,
    /// When it ends.
    pub expire_ms: u32,
    /// Its color in the palette.
    pub color: usize,
}

impl Flight {
    /// It ends in time, and stays within bounds until then.
    pub open spec fn wf(self) -> bool {
        &&& self.elapsed_ms % 16 == 0
        &&& self.expire_ms <= 3000
        &&& self.elapsed_ms <= 3008
        &&& self.color < 8
        &&& -1_000_000 <= self.vel_x <= 1_000_000
        &&& -1_000_000 <= self.vel_y <= 1_000_000 + (self.elapsed_ms / 16) * 655
        &&& self.within(2_143_000_000)
    }

    /// Whether it started within `reach` of the origin, as far as its place shows.
    pub open spec fn within(self, reach: int) -> bool {
        let drift = (self.elapsed_ms / 16) * 20_000;
        &&& -reach - drift <= self.x <= reach + drift
        &&& -reach - drift <= self.y <= reach + drift
    }

    /// The flight after one step.
    pub open spec fn moved(self) -> Flight {
        Flight {
            x: (self.x + quotient(self.vel_x * 16, 1000)) as i32,
            y: (self.y + quotient(self.vel_y * 16, 1000)) as i32,
            vel_y: (self.vel_y + 655) as i32,
            elapsed_ms: (self.elapsed_ms + 16) as u32,
            ..self
        }
    }

    /// The pixel where it is.
    pub fn pixel(&self) -> (place: (i32, i32))
        ensures
            place.0 == self.x as int / 4096,
            place.1 == self.y as int / 4096,
    {
        (fp_to_int(self.x), fp_to_int(self.y))
    }

    /// Whether it is still in flight.
    pub fn is_flying(&self) -> (flying: bool)
        ensures
            flying == (self.elapsed_ms < self.expire_ms),
    {
        self.elapsed_ms < self.expire_ms
    }

    /// Moves by one step.
    pub fn advance(&mut self)
        requires
            old(self).wf(),
            old(self).elapsed_ms < old(self).expire_ms,
        ensures
            final(self).wf(),
            *final(self) == old(self).moved(),
    {
        self.elapsed_ms = self.elapsed_ms + INTERVAL_MS;
        self.x = self.x + scale_step(self.vel_x);
        self.y = self.y + scale_step(self.vel_y);
        self.vel_y = self.vel_y + scale_gravity(10);
    }
}

/// What two draws make of a number between minus one and one.
pub open spec fn signed_unit(one: u32, two: u32) -> int {
    if two % 2 == 0 {
        (one % 4096) as int
    } else {
        -((one % 4096) as int)
    }
}

fn rand_signed_unit_fp(chance: &mut Chance) -> (value: i32)
    ensures
        value == signed_unit(draw(old(chance).state, 1), draw(old(chance).state, 2)),
        final(chance).state == state_after(old(chance).state, 2),
        -4095 <= value <= 4095,
{
    proof {
        reveal_with_fuel(state_after, 3);
    }
    let value: i32 = (chance.rand_u32() % 4096) as i32;
    if chance.rand_u32() % 2 == 0 {
        value
    } else {
        -value
    }
}

/// A rocket, and how far its explosion reaches.
#[derive(Copy, Clone, Debug, PartialEq, Eq, Structural)]
pub struct Rocket {
    /// Its flight.
    pub flight: Flight,
    /// Reach of the explosion.
    pub explosion_range: i32,
}

impl Rocket {
    /// It ends within a second, near the viewport.
    pub open spec fn wf(self) -> bool {
        &&& self.flight.wf()
        &&& self.flight.expire_ms < 1000
        &&& self.flight.elapsed_ms <= 1008
        &&& self.flight.within(2_000_000)
        &&& 100 <= self.explosion_range < 200
    }

    /// Moves by one step.
    pub fn advance(&mut self)
        requires
            old(self).wf(),
            old(self).flight.elapsed_ms < old(self).flight.expire_ms,
        ensures
            final(self).wf(),
            *final(self) == (Rocket { flight: old(self).flight.moved(), ..*old(self) }),
    {
        self.flight.advance();
    }

    /// Throws a particle from the explosion where the rocket is.
    pub fn throw(&self, chance: &mut Chance) -> (particle: Flight)
        requires
            self.wf(),
        ensures
            particle == particle_of(
                (self.flight.x as int / 4096) as i32,
                (self.flight.y as int / 4096) as i32,
                self.explosion_range,
                old(chance).state,
            ),
            final(chance).state == state_after(old(chance).state, 4),
            particle.wf(),
    {
        let (x, y) = self.flight.pixel();
        throw_particle(x, y, self.explosion_range, chance)
    }
}

/// The rocket that the draws after `state` make.
pub open spec fn rocket_of(width: usize, height: usize, state: u32) -> Rocket {
    let offset = (width * 400) / 1024;
    Rocket {
        flight: Flight {
            x: ((width / 2) * 4096) as i32,
            y: ((height - 1) * 4096) as i32,
            vel_x: product_fp(offset * 4096, signed_unit(draw(state, 1), draw(state, 2))) as i32,
            vel_y: (-((100 + draw(state, 3) % 100) * 4096)) as i32,
            elapsed_ms: 0,
            expire_ms: (500 + draw(state, 6) % 500) as u32,
            color: (draw(state, 4) % 8) as usize,
        },
        explosion_range: (100 + draw(state, 5) % 100) as i32,
    }
}

/// Launches a rocket from the middle of the viewport's last row.
pub fn launch_rocket(width: usize, height: usize, chance: &mut Chance) -> (rocket: Rocket)
    requires
        0 < width <= VIEW_WIDTH,
        0 < height <= VIEW_HEIGHT,
    ensures
        rocket == rocket_of(width, height, old(chance).state),
        final(chance).state == state_after(old(chance).state, 6),
        rocket.wf(),
{
    let ghost start = chance.state;
    proof {
        reveal_with_fuel(state_after, 7);
    }
    let offset_x: i32 = (width as i32 * 400) / 1024;
    let unit: i32 = rand_signed_unit_fp(chance);
    let wide: i32 = int_to_fp(offset_x);
    assert(-512_000 <= product_fp(wide as int, unit as int) <= 512_000) by (nonlinear_arith)
        requires
            0 <= wide <= 512_000,
            -4095 <= unit <= 4095,
            product_fp(wide as int, unit as int) == (wide * unit) / 4096,
    ;
    let vel_x: i32 = mul_fp(wide, unit);
    let speed: i32 = 100 + (chance.rand_u32() % 100) as i32;
    let vel_y: i32 = -int_to_fp(speed);
    let color: usize = (chance.rand_u32() % 8) as usize;
    let explosion_range: i32 = 100 + (chance.rand_u32() % 100) as i32;
    let expire_ms: u32 = 500 + chance.rand_u32() % 500;
    Rocket {
        flight: Flight {
            x: int_to_fp((width / 2) as i32),
            y: int_to_fp(height as i32 - 1),
            vel_x,
            vel_y,
            elapsed_ms: 0,
            expire_ms,
            color,
        },
        explosion_range,
    }
}

/// What a draw makes of a number between a quarter and one.
pub open spec fn quarter_to_one(value: u32) -> int {
    1024 + (value & 3071) as int
}

/// The particle that the draws after `state` make.
pub open spec fn particle_of(x: i32, y: i32, range: i32, state: u32) -> Flight {
    let (dir_x, dir_y) = direction(draw(state, 2) % 4096);
    let speed = product_fp(range * 4096, quarter_to_one(draw(state, 3)));
    Flight {
        x: (x * 4096) as i32,
        y: (y * 4096) as i32,
        vel_x: product_fp(dir_x, speed) as i32,
        vel_y: product_fp(dir_y, speed) as i32,
        elapsed_ms: 0,
        expire_ms: (2000 + draw(state, 4) % 1000) as u32,
        color: (draw(state, 1) % 8) as usize,
    }
}

/// Throws a particle from an explosion at a pixel, at most as far away as leaves
/// room for its flight in fixed-point numbers.
pub fn throw_particle(x: i32, y: i32, explosion_range: i32, chance: &mut Chance) -> (particle: Flight)
    requires
        -523_000 <= x <= 523_000,
        -523_000 <= y <= 523_000,
        100 <= explosion_range < 200,
    ensures
        particle == particle_of(x, y, explosion_range, old(chance).state),
        final(chance).state == state_after(old(chance).state, 4),
        particle.wf(),
{
    proof {
        reveal_with_fuel(state_after, 5);
    }
    let color: usize = (chance.rand_u32() % 8) as usize;
    let angle: u32 = chance.rand_u32() % 4096;
    let (dir_x, dir_y) = unit_vector(angle);
    let value: u32 = chance.rand_u32();
    let masked: u32 = value & 3071;
    assert(masked <= 3071) by (bit_vector)
        requires
            masked == value & 3071,
    ;
    let unit: i32 = 1024 + masked as i32;
    let reach: i32 = int_to_fp(explosion_range);
    assert(0 <= product_fp(reach as int, unit as int) <= 815_104) by (nonlinear_arith)
        requires
            0 <= reach <= 815_104,
            0 <= unit <= 4095,
            product_fp(reach as int, unit as int) == (reach * unit) / 4096,
    ;
    let speed: i32 = mul_fp(reach, unit);
    assert(-815_104 <= product_fp(dir_x as int, speed as int) <= 815_104) by (nonlinear_arith)
        requires
            -4096 <= dir_x <= 4096,
            0 <= speed <= 815_104,
            product_fp(dir_x as int, speed as int) == (dir_x * speed) / 4096,
    ;
    assert(-815_104 <= product_fp(dir_y as int, speed as int) <= 815_104) by (nonlinear_arith)
        requires
            -4096 <= dir_y <= 4096,
            0 <= speed <= 815_104,
            product_fp(dir_y as int, speed as int) == (dir_y * speed) / 4096,
    ;
    let vel_x: i32 = mul_fp(dir_x, speed);
    let vel_y: i32 = mul_fp(dir_y, speed);
    let expire_ms: u32 = 2000 + chance.rand_u32() % 1000;
    Flight {
        x: int_to_fp(x),
        y: int_to_fp(y),
        vel_x,
        vel_y,
        elapsed_ms: 0,
        expire_ms,
        color,
    }
}

/// How many particles a rocket's explosion has.
pub fn burst_count(chance: &mut Chance) -> (count: usize)
    ensures
        count == 100 + draw(old(chance).state, 1) % 100,
        final(chance).state == state_after(old(chance).state, 1),
{
    proof {
        reveal_with_fuel(state_after, 2);
    }
    100 + (chance.rand_u32() % 100) as usize
}

/// What the launcher does next: how many rockets it launches, and how long it
/// then sleeps.
pub fn next_launch(chance: &mut Chance) -> (launch: (usize, u64))
    ensures
        launch.0 == 1 + draw(old(chance).state, 1) % 2,
        launch.1 == 2000 + draw(old(chance).state, 2) % 2000,
        final(chance).state == state_after(old(chance).state, 2),
{
    proof {
        reveal_with_fuel(state_after, 3);
    }
    let count: usize = 1 + (chance.rand_u32() % 2) as usize;
    let delay_ms: u64 = 2000 + (chance.rand_u32() % 2000) as u64;
    (count, delay_ms)
}

/// Counts of rockets or particles.
#[derive(Copy, Clone, Debug, PartialEq, Eq, Structural)]
pub struct Population {
    /// In flight now.
    pub active: usize,
    /// Ever.
    pub total: usize,
    /// Most at a time.
    pub peak: usize,
}

impl Population {
    /// The counts with one more in flight.
    pub open spec fn joined(self) -> Population {
        Population {
            active: (self.active + 1) as usize,
            total: self.total.wrapping_add(1),
            peak: if self.active + 1 > self.peak {
                (self.active + 1) as usize
            } else {
                self.peak
            },
        }
    }

    /// Counts one more in flight, if the limit allows it.
    pub fn try_reserve(&mut self, limit: usize) -> (reserved: bool)
        ensures
            reserved == (old(self).active < limit),
            reserved ==> *final(self) == old(self).joined(),
            !reserved ==> *final(self) == *old(self),
    {
        if self.active >= limit {
            return false;
        }
        self.active = self.active + 1;
        self.total = self.total.wrapping_add(1);
        if self.active > self.peak {
            self.peak = self.active;
        }
        true
    }

    /// The counts with `n` more in flight.
    pub open spec fn joined_times(self, n: nat) -> Population
        decreases n,
    {
        if n == 0 {
            self
        } else {
            self.joined_times((n - 1) as nat).joined()
        }
    }

    /// Counts one more in flight.
    pub fn join(&mut self)
        requires
            old(self).active < usize::MAX,
        ensures
            *final(self) == old(self).joined(),
    {
        self.try_reserve(usize::MAX);
    }

    /// Counts as many of `count` more in flight as the limit allows, and
    /// returns their number.
    pub fn burst(&mut self, count: usize, limit: usize) -> (reserved: usize)
        ensures
            reserved == if old(self).active >= limit {
                0
            } else {
                min_int(count as int, limit - old(self).active)
            },
            *final(self) == old(self).joined_times(reserved as nat),
    {
        let ghost before = *self;
        let mut reserved: usize = 0;
        while reserved < count
            invariant
                reserved <= count,
                *self == before.joined_times(reserved as nat),
                self.active == before.active + reserved,
                reserved > 0 ==> self.active <= limit,
            ensures
                *self == before.joined_times(reserved as nat),
                reserved == if before.active >= limit {
                    0
                } else {
                    min_int(count as int, limit - before.active)
                },
            decreases count - reserved,
        {
            if !self.try_reserve(limit) {
                break;
            }
            reserved = reserved + 1;
        }
        reserved
    }

    /// Counts one less in flight.
    pub fn leave(&mut self)
        requires
            old(self).active > 0,
        ensures
            *final(self) == (Population {
                active: (old(self).active - 1) as usize,
                ..*old(self)
            }),
    {
        self.active = self.active - 1;
    }
}

/// The viewport in a framebuffer.
pub struct Canvas {
    /// Bytes of a row.
    pub pitch: usize,
    /// Bytes of a pixel.
    pub bytes_per_pixel: usize,
    /// First column of the viewport.
    pub view_x: usize,
    /// Columns of the viewport.
    pub view_width: usize,
    /// Rows of the viewport.
    pub view_height: usize,
    /// Background pixel.
    pub bg: u32,
    /// Pixels of the palette.
    pub palette: Vec<u32>,
}

/// The pixels of the first `n` palette colors.
pub open spec fn palette_of(info: FramebufferInfo) -> Seq<u32> {
    Seq::new(8, |i: int| packed(palette_rgb()[i], info.red, info.green, info.blue))
}

impl Canvas {
    /// Whether this is the canvas in the upper right corner of a framebuffer.
    pub open spec fn is_on(self, info: FramebufferInfo) -> bool {
        &&& self.pitch == info.pitch
        &&& self.bytes_per_pixel == info.pixel_bytes()
        &&& self.view_width == if info.width < VIEW_WIDTH {
            info.width
        } else {
            VIEW_WIDTH
        }
        &&& self.view_height == if info.height < VIEW_HEIGHT {
            info.height
        } else {
            VIEW_HEIGHT
        }
        &&& self.view_x == info.width - self.view_width
        &&& self.bg == packed(0, info.red, info.green, info.blue)
        &&& self.palette@ == palette_of(info)
    }

    /// Where a pixel of the viewport begins in the framebuffer.
    pub open spec fn place(self, x: int, y: int) -> int {
        y * self.pitch + (self.view_x + x) * self.bytes_per_pixel
    }

    /// The viewport is not empty, and every pixel has a place.
    pub open spec fn wf(self) -> bool {
        &&& 0 < self.view_width <= VIEW_WIDTH
        &&& 0 < self.view_height <= VIEW_HEIGHT
        &&& 3 <= self.bytes_per_pixel <= 0x2000
        &&& self.palette@.len() == 8
        &&& self.place(self.view_width as int, self.view_height as int) <= usize::MAX
    }

    /// The viewport in the corner of a framebuffer, if that can show one.
    pub fn probe(info: FramebufferInfo) -> (canvas: Option<Self>)
        requires
            info.wf(),
            info.pitch * info.height + info.width * info.pixel_bytes() <= usize::MAX,
        ensures
            canvas.is_some() == (info.is_rgb && info.pixel_bytes() >= 3 && info.width > 0
                && info.height > 0),
            canvas matches Some(found) ==> found.wf() && found.is_on(info),
    {
        if !info.is_rgb {
            return None;
        }
        let bytes_per_pixel: usize = ((info.bpp as u32 + 7) / 8) as usize;
        if bytes_per_pixel < 3 || info.width == 0 || info.height == 0 {
            return None;
        }
        let view_width: usize = min_usize(info.width, VIEW_WIDTH);
        let view_height: usize = min_usize(info.height, VIEW_HEIGHT);
        let colors: Vec<u32> = vec![
            0xF94144u32,
            0xF3722C,
            0xF9C74F,
            0x90BE6D,
            0x43AA8B,
            0x577590,
            0x9B5DE5,
            0xF15BB5,
        ];
        assert(colors@ =~= palette_rgb());
        let mut palette: Vec<u32> = Vec::new();
        while palette.len() < 8
            invariant
                info.wf(),
                colors@ == palette_rgb(),
                palette@.len() <= 8,
                palette@ == palette_of(info).take(palette@.len() as int),
            decreases 8 - palette@.len(),
        {
            palette.push(pack_color(colors[palette.len()], info.red, info.green, info.blue));
            assert(palette@ =~= palette_of(info).take(palette@.len() as int));
        }
        assert(palette@ =~= palette_of(info));
        assert(view_height * info.pitch <= info.pitch * info.height) by (nonlinear_arith)
            requires
                view_height <= info.height,
                info.pitch >= 0,
        ;
        assert(info.width * bytes_per_pixel == (info.width - view_width + view_width)
            * bytes_per_pixel);
        Some(
            Canvas {
                pitch: info.pitch,
                bytes_per_pixel,
                view_x: info.width - view_width,
                view_width,
                view_height,
                bg: pack_color(0, info.red, info.green, info.blue),
                palette,
            },
        )
    }

    /// Whether the viewport lies inside a framebuffer of `len` bytes.
    pub open spec fn fits(self, len: nat) -> bool {
        self.place(self.view_width as int, self.view_height - 1) <= len
    }

    /// The bytes of a framebuffer with one pixel changed.
    pub open spec fn painted(self, pixels: Seq<u8>, color: u32, x: int, y: int) -> Seq<u8> {
        Seq::new(
            pixels.len(),
            |i: int|
                if self.place(x, y) <= i < self.place(x, y) + self.bytes_per_pixel {
                    pixel_byte(color, i - self.place(x, y))
                } else {
                    pixels[i]
                },
        )
    }

    /// The bytes of a framebuffer with the first `n` pixels of a row cleared.
    pub open spec fn row_cleared(self, pixels: Seq<u8>, y: int, n: nat) -> Seq<u8>
        decreases n,
    {
        if n == 0 {
            pixels
        } else {
            self.painted(self.row_cleared(pixels, y, (n - 1) as nat), self.bg, n - 1, y)
        }
    }

    /// The bytes of a framebuffer with the first `n` rows of the viewport
    /// cleared.
    pub open spec fn rows_cleared(self, pixels: Seq<u8>, n: nat) -> Seq<u8>
        decreases n,
    {
        if n == 0 {
            pixels
        } else {
            self.row_cleared(
                self.rows_cleared(pixels, (n - 1) as nat),
                n - 1,
                self.view_width as nat,
            )
        }
    }

    /// Whether a pixel of the viewport has a color.
    pub open spec fn shows(self, pixels: Seq<u8>, color: u32, x: int, y: int) -> bool {
        forall|k: int|
            0 <= k < self.bytes_per_pixel ==> #[trigger] pixels[self.place(x, y) + k]
                == pixel_byte(color, k)
    }

    proof fn lemma_pixel_fits(self, x: int, y: int, len: nat)
        requires
            self.wf(),
            self.fits(len),
            0 <= x < self.view_width,
            0 <= y < self.view_height,
        ensures
            0 <= self.place(x, y),
            self.place(x, y) + self.bytes_per_pixel <= len,
    {
        let pitch = self.pitch as int;
        let bytes = self.bytes_per_pixel as int;
        let last = self.view_height - 1;
        let left = self.view_x as int;
        self.lemma_place(x, y);
        lemma_before(left + x, left + self.view_width, bytes);
        assert(y * pitch <= last * pitch) by (nonlinear_arith)
            requires
                y <= last,
                0 <= pitch,
        ;
    }

    fn put_pixel_unchecked(&self, pixels: &mut Vec<u8>, x: usize, y: usize, color: u32)
        requires
            self.wf(),
            self.fits(old(pixels)@.len()),
            x < self.view_width,
            y < self.view_height,
        ensures
            final(pixels)@ == self.painted(old(pixels)@, color, x as int, y as int),
    {
        let ghost before = pixels@;
        proof {
            self.lemma_place(x as int, y as int);
            self.lemma_pixel_fits(x as int, y as int, before.len());
            assert(pixels.len() == before.len());
        }
        let column: usize = self.view_x + x;
        let offset: usize = y * self.pitch + column * self.bytes_per_pixel;
        let mut index: usize = 0;
        while index < self.bytes_per_pixel
            invariant
                index <= self.bytes_per_pixel,
                offset + self.bytes_per_pixel <= before.len() <= usize::MAX,
                pixels@.len() == before.len(),
                forall|i: int|
                    0 <= i < before.len() ==> #[trigger] pixels@[i] == if offset <= i < offset
                        + index {
                        pixel_byte(color, i - offset)
                    } else {
                        before[i]
                    },
            decreases self.bytes_per_pixel - index,
        {
            pixels.set(offset + index, byte_of(color, index));
            index = index + 1;
        }
        assert(pixels@ =~= self.painted(before, color, x as int, y as int));
    }

    /// Fills the viewport with the background.
    pub fn clear_view(&self, pixels: &mut Vec<u8>)
        requires
            self.wf(),
            self.fits(old(pixels)@.len()),
        ensures
            final(pixels)@ == self.rows_cleared(old(pixels)@, self.view_height as nat),
    {
        let ghost before = pixels@;
        let mut y: usize = 0;
        while y < self.view_height
            invariant
                self.wf(),
                y <= self.view_height,
                self.fits(pixels@.len()),
                pixels@ == self.rows_cleared(before, y as nat),
            decreases self.view_height - y,
        {
            let ghost above = pixels@;
            let mut x: usize = 0;
            while x < self.view_width
                invariant
                    self.wf(),
                    x <= self.view_width,
                    y < self.view_height,
                    self.fits(pixels@.len()),
                    pixels@ == self.row_cleared(above, y as int, x as nat),
                decreases self.view_width - x,
            {
                self.put_pixel_unchecked(pixels, x, y, self.bg);
                x = x + 1;
            }
            y = y + 1;
        }
    }

    /// Colors a pixel, if it is in the viewport.
    pub fn set_pixel(&self, pixels: &mut Vec<u8>, color: u32, x: i32, y: i32)
        requires
            self.wf(),
            self.fits(old(pixels)@.len()),
        ensures
            final(pixels)@ == if 0 <= x < self.view_width && 0 <= y < self.view_height {
                self.painted(old(pixels)@, color, x as int, y as int)
            } else {
                old(pixels)@
            },
    {
        if x < 0 || y < 0 {
            return;
        }
        let x: usize = x as usize;
        let y: usize = y as usize;
        if x >= self.view_width || y >= self.view_height {
            return;
        }
        self.put_pixel_unchecked(pixels, x, y, color);
    }

    /// Where a pixel begins in the framebuffer, if it is in the viewport.
    pub fn find_pixel(&self, x: i32, y: i32) -> (place: Option<usize>)
        requires
            self.wf(),
        ensures
            place == if 0 <= x < self.view_width && 0 <= y < self.view_height {
                Some(self.place(x as int, y as int) as usize)
            } else {
                None
            },
            place matches Some(at) ==> at == self.place(x as int, y as int),
    {
        if x < 0 || y < 0 {
            return None;
        }
        let x: usize = x as usize;
        let y: usize = y as usize;
        if x >= self.view_width || y >= self.view_height {
            return None;
        }
        proof {
            self.lemma_place(x as int, y as int);
        }
        let column: usize = self.view_x + x;
        Some(y * self.pitch + column * self.bytes_per_pixel)
    }

    proof fn lemma_place(self, x: int, y: int)
        requires
            self.wf(),
            0 <= x < self.view_width,
            0 <= y < self.view_height,
        ensures
            0 <= y * self.pitch <= usize::MAX,
            0 <= self.view_x + x <= (self.view_x + x) * self.bytes_per_pixel <= usize::MAX,
            0 <= self.place(x, y) <= usize::MAX,
    {
        let pitch = self.pitch as int;
        let bytes = self.bytes_per_pixel as int;
        let wide = self.view_width as int;
        let high = self.view_height as int;
        let left = self.view_x as int;
        assert(0 <= y * pitch <= high * pitch) by (nonlinear_arith)
            requires
                0 <= y < high,
                0 <= pitch,
        ;
        assert(0 <= left + x <= (left + x) * bytes <= (left + wide) * bytes) by (nonlinear_arith)
            requires
                0 <= x < wide,
                3 <= bytes,
                0 <= left,
        ;
    }

    /// A color of the palette.
    pub fn color(&self, index: usize) -> (pixel: u32)
        requires
            self.wf(),
            index < 8,
        ensures
            pixel == self.palette@[index as int],
    {
        self.palette[index]
    }
}

/// Which lock guards a pixel.
pub fn pixel_lock_index(x: usize, y: usize) -> (index: usize)
    ensures
        index == ((y << 4) ^ x) % 64,
        index < PIXEL_LOCK_COUNT,
{
    ((y << 4) ^ x) % PIXEL_LOCK_COUNT
}

/// Reserves the viewport and clears it, unless it is reserved; whether it is
/// reserved then.
pub fn register(
    canvas: &mut Option<Canvas>,
    info: Option<FramebufferInfo>,
    pixels: &mut Vec<u8>,
) -> (registered: bool)
    requires
        info matches Some(found) ==> {
            &&& found.wf()
            &&& found.width * found.pixel_bytes() <= found.pitch
            &&& found.pitch * found.height + found.width * found.pixel_bytes() <= usize::MAX
            &&& old(pixels)@.len() == found.pitch * found.height
        },
    ensures
        registered == final(canvas).is_some(),
        old(canvas).is_some() ==> *final(canvas) == *old(canvas) && final(pixels)@ == old(pixels)@,
        old(canvas).is_none() ==> registered == (info matches Some(found) && found.is_rgb
            && found.pixel_bytes() >= 3 && found.width > 0 && found.height > 0),
        old(canvas).is_none() && !registered ==> final(pixels)@ == old(pixels)@,
        old(canvas).is_none() && registered ==> {
            let view = final(canvas)->Some_0;
            &&& view.wf()
            &&& view.is_on(info->Some_0)
            &&& final(pixels)@ == view.rows_cleared(old(pixels)@, view.view_height as nat)
        },
{
    if canvas.is_some() {
        return true;
    }
    let found = match info {
        Some(found) => found,
        None => {
            return false;
        },
    };
    match Canvas::probe(found) {
        Some(view) => {
            proof {
                lemma_before_end(
                    view.view_height as int,
                    found.height as int,
                    found.pitch as int,
                );
            }
            view.clear_view(pixels);
            *canvas = Some(view);
            true
        },
        None => false,
    }
}

proof fn lemma_before_end(rows: int, height: int, pitch: int)
    by (nonlinear_arith)
    requires
        rows <= height,
        pitch >= 0,
    ensures
        (rows - 1) * pitch + pitch <= pitch * height,
{
}

/// Starts the fireworks once; whether they run then, and whether the launcher
/// has to be started.
pub fn start(started: &mut bool, registered: bool) -> (outcome: (bool, bool))
    ensures
        outcome.0 == registered,
        outcome.1 == (registered && !*old(started)),
        *final(started) == (*old(started) || registered),
{
    if !registered {
        return (false, false);
    }
    if *started {
        return (true, false);
    }
    *started = true;
    (true, true)
}

/// What the allocator holds.
#[derive(Copy, Clone, Debug, PartialEq, Eq, Structural)]
pub struct HeapStats {
    /// Bytes of slab objects in use.
    pub slab_used_bytes: usize,
    /// Bytes of slab objects that are free.
    pub slab_free_bytes: usize,
    /// Bytes of large allocations.
    pub large_bytes: usize,
    /// Pages that are free.
    pub free_pages: usize,
    /// Pages of slabs.
    pub slab_pages: usize,
    /// Pages of large allocations.
    pub large_pages: usize,
    /// Pages kept for later.
    pub reserved_pages: usize,
    /// Pages that are not used again.
    pub retired_pages: usize,
}

/// The memory part of a status line.
#[derive(Copy, Clone, Debug, PartialEq, Eq, Structural)]
pub struct HeapStatus {
    /// Memory in use, in KiB.
    pub used_kib: usize,
    /// Free slab memory, in KiB.
    pub free_kib: usize,
    /// Pages that are free.
    pub free_pages: usize,
    /// Pages of slabs.
    pub slab_pages: usize,
    /// Pages of large allocations.
    pub large_pages: usize,
    /// Pages that are reserved or retired.
    pub held_pages: usize,
}

/// Summarizes what the allocator holds.
pub fn heap_status(heap: HeapStats) -> (status: HeapStatus)
    requires
        heap.slab_used_bytes + heap.large_bytes <= usize::MAX,
        heap.reserved_pages + heap.retired_pages <= usize::MAX,
    ensures
        status == (HeapStatus {
            used_kib: ((heap.slab_used_bytes + heap.large_bytes) / 1024) as usize,
            free_kib: heap.slab_free_bytes / 1024,
            free_pages: heap.free_pages,
            slab_pages: heap.slab_pages,
            large_pages: heap.large_pages,
            held_pages: (heap.reserved_pages + heap.retired_pages) as usize,
        }),
{
    HeapStatus {
        used_kib: (heap.slab_used_bytes + heap.large_bytes) / 1024,
        free_kib: heap.slab_free_bytes / 1024,
        free_pages: heap.free_pages,
        slab_pages: heap.slab_pages,
        large_pages: heap.large_pages,
        held_pages: heap.reserved_pages + heap.retired_pages,
    }
}

/// A pixel in the viewport lies in its framebuffer, and in no other pixel.
pub proof fn law_pixels_are_apart(canvas: Canvas, x: int, y: int, u: int, v: int)
    requires
        canvas.wf(),
        (canvas.view_x + canvas.view_width) * canvas.bytes_per_pixel <= canvas.pitch,
        0 <= x < canvas.view_width,
        0 <= y < canvas.view_height,
        0 <= u < canvas.view_width,
        0 <= v < canvas.view_height,
        (x, y) != (u, v),
    ensures
        canvas.place(x, y) + canvas.bytes_per_pixel <= canvas.place(u, v) || canvas.place(u, v)
            + canvas.bytes_per_pixel <= canvas.place(x, y),
{
    let pitch = canvas.pitch as int;
    let bytes = canvas.bytes_per_pixel as int;
    let left = canvas.view_x as int;
    let wide = canvas.view_width as int;
    if y == v {
        if x < u {
            lemma_before(left + x, left + u, bytes);
        } else {
            lemma_before(left + u, left + x, bytes);
        }
    } else if y < v {
        lemma_before(left + x, left + wide, bytes);
        lemma_before(y, v, pitch);
        assert((left + u) * bytes >= 0) by (nonlinear_arith)
            requires
                left + u >= 0,
                bytes >= 0,
        ;
    } else {
        lemma_before(left + u, left + wide, bytes);
        lemma_before(v, y, pitch);
        assert((left + x) * bytes >= 0) by (nonlinear_arith)
            requires
                left + x >= 0,
                bytes >= 0,
        ;
    }
}

/// A cleared viewport shows the background everywhere.
pub proof fn law_cleared_view_is_blank(canvas: Canvas, pixels: Seq<u8>, x: int, y: int)
    requires
        canvas.wf(),
        canvas.fits(pixels.len()),
        (canvas.view_x + canvas.view_width) * canvas.bytes_per_pixel <= canvas.pitch,
        0 <= x < canvas.view_width,
        0 <= y < canvas.view_height,
    ensures
        canvas.shows(
            canvas.rows_cleared(pixels, canvas.view_height as nat),
            canvas.bg,
            x,
            y,
        ),
{
    lemma_rows_blank(canvas, pixels, canvas.view_height as nat, x, y);
}

/// Coloring a pixel leaves every other pixel of the viewport as it was.
pub proof fn law_pixel_is_set_alone(
    canvas: Canvas,
    pixels: Seq<u8>,
    color: u32,
    at: (int, int),
    other: (int, int),
    shown: u32,
)
    requires
        canvas.wf(),
        canvas.fits(pixels.len()),
        (canvas.view_x + canvas.view_width) * canvas.bytes_per_pixel <= canvas.pitch,
        0 <= at.0 < canvas.view_width,
        0 <= at.1 < canvas.view_height,
        0 <= other.0 < canvas.view_width,
        0 <= other.1 < canvas.view_height,
    ensures
        canvas.shows(canvas.painted(pixels, color, at.0, at.1), color, at.0, at.1),
        at != other && canvas.shows(pixels, shown, other.0, other.1) ==> canvas.shows(
            canvas.painted(pixels, color, at.0, at.1),
            shown,
            other.0,
            other.1,
        ),
{
    canvas.lemma_pixel_fits(at.0, at.1, pixels.len());
    canvas.lemma_pixel_fits(other.0, other.1, pixels.len());
    if at != other {
        law_pixels_are_apart(canvas, at.0, at.1, other.0, other.1);
    }
}

proof fn lemma_row_blank(canvas: Canvas, pixels: Seq<u8>, row: int, n: nat, x: int, y: int)
    requires
        canvas.wf(),
        canvas.fits(pixels.len()),
        (canvas.view_x + canvas.view_width) * canvas.bytes_per_pixel <= canvas.pitch,
        n <= canvas.view_width,
        0 <= row < canvas.view_height,
        0 <= x < canvas.view_width,
        0 <= y < canvas.view_height,
    ensures
        canvas.row_cleared(pixels, row, n).len() == pixels.len(),
        (y == row && x < n) || canvas.shows(pixels, canvas.bg, x, y) ==> canvas.shows(
            canvas.row_cleared(pixels, row, n),
            canvas.bg,
            x,
            y,
        ),
    decreases n,
{
    if n > 0 {
        let m = (n - 1) as nat;
        lemma_row_blank(canvas, pixels, row, m, x, y);
        law_pixel_is_set_alone(
            canvas,
            canvas.row_cleared(pixels, row, m),
            canvas.bg,
            (n - 1, row),
            (x, y),
            canvas.bg,
        );
    }
}

proof fn lemma_rows_blank(canvas: Canvas, pixels: Seq<u8>, n: nat, x: int, y: int)
    requires
        canvas.wf(),
        canvas.fits(pixels.len()),
        (canvas.view_x + canvas.view_width) * canvas.bytes_per_pixel <= canvas.pitch,
        n <= canvas.view_height,
        0 <= x < canvas.view_width,
        0 <= y < canvas.view_height,
    ensures
        canvas.rows_cleared(pixels, n).len() == pixels.len(),
        y < n ==> canvas.shows(canvas.rows_cleared(pixels, n), canvas.bg, x, y),
    decreases n,
{
    if n > 0 {
        let m = (n - 1) as nat;
        lemma_rows_blank(canvas, pixels, m, x, y);
        lemma_row_blank(
            canvas,
            canvas.rows_cleared(pixels, m),
            n - 1,
            canvas.view_width as nat,
            x,
            y,
        );
    }
}

proof fn lemma_before(a: int, b: int, unit: int)
    by (nonlinear_arith)
    requires
        a < b,
        unit >= 0,
    ensures
        a * unit + unit <= b * unit,
{
}

/// Every flight ends: each step brings it closer to its end, and it stays
/// within bounds.
pub proof fn law_flight_ends(flight: Flight)
    requires
        flight.wf(),
        flight.elapsed_ms < flight.expire_ms,
    ensures
        flight.moved().wf(),
        flight.moved().elapsed_ms == flight.elapsed_ms + 16,
        flight.moved().expire_ms == flight.expire_ms,
{
}

/// A flight moves by its speed in sixteen milliseconds, sideways evenly, and
/// falls ever faster.
pub proof fn law_flight_falls(flight: Flight)
    requires
        flight.wf(),
        flight.elapsed_ms < flight.expire_ms,
    ensures
        ({
            let after = flight.moved();
            &&& after.vel_x == flight.vel_x
            &&& after.vel_y == flight.vel_y + 655
            &&& after.elapsed_ms == flight.elapsed_ms + 16
            &&& flight.vel_x >= 0 ==> after.x >= flight.x && 1000 * (after.x - flight.x) <= 16
                * flight.vel_x < 1000 * (after.x - flight.x) + 1000
            &&& flight.vel_x <= 0 ==> after.x <= flight.x && 1000 * (flight.x - after.x) <= -16
                * flight.vel_x < 1000 * (flight.x - after.x) + 1000
            &&& flight.vel_y >= 0 ==> after.y >= flight.y
            &&& flight.vel_y <= 0 ==> after.y <= flight.y
            &&& after.color == flight.color && after.expire_ms == flight.expire_ms
        }),
{
}

/// A direction has one whole unit in the sum of its two parts, and opposite
/// angles have opposite directions.
pub proof fn law_direction_is_a_unit(angle: u32)
    requires
        angle < 2048,
    ensures
        ({
            let (x, y) = direction(angle);
            let (back_x, back_y) = direction((angle + 2048) as u32);
            &&& (if x >= 0 {
                x
            } else {
                -x
            }) + (if y >= 0 {
                y
            } else {
                -y
            }) == 4096
            &&& back_x == -x && back_y == -y
            &&& y >= 0
        }),
{
}

/// Counting one more flight counts it as active and in total, and the peak is
/// the most that were active at once.
pub proof fn law_population_is_counted(population: Population)
    requires
        population.active < usize::MAX,
        population.total < usize::MAX,
    ensures
        population.joined().active == population.active + 1,
        population.joined().total == population.total + 1,
        population.joined().peak >= population.joined().active,
        population.joined().peak >= population.peak,
        population.joined().peak == population.peak || population.joined().peak
            == population.joined().active,
{
}

} // verus!
