//! Ballistic trajectories of a point mass under constant acceleration, in
//! exact fixed-point arithmetic: distances in thousandths of a pixel,
//! times in microseconds.
//!
//! The closed-form position `pos(t) = start + (v + a*t)*t` and velocity
//! `vel(t) = v + a*t*2` are evaluated with floor division at each scaling
//! step, so every value the integrator produces is pinned down exactly.
//! (The doubled acceleration term in the velocity matches the discrete
//! stepping scheme, which sizes its time step from it to avoid skipping
//! pixels; it is deliberate, not the textbook derivative.)

use vstd::prelude::*;

verus! {

use crate::fixed::floor_div;

/// Longest simulated time of one trajectory anchor, in microseconds.
pub const TIME_LIMIT: i64 = 268_435_456;

/// Largest acceleration magnitude, in thousandths of a pixel per second
/// squared.
pub const ACC_LIMIT: i64 = 16_777_216;

/// Largest velocity magnitude a constructor accepts, in thousandths of a
/// pixel per second.
pub const VEL_LIMIT: i64 = 2_147_483_648;

/// Velocity magnitude a rebound saturates at.
pub const VEL_CAP: i64 = 17_179_869_184;

/// Start-position magnitude a rebound saturates at, in thousandths of a
/// pixel.
pub const POS_CAP: i64 = 17_592_186_044_416;

/// Largest magnitude the cached position can reach.
pub const CUR_CAP: i64 = 140_737_488_355_328;

/// Largest magnitude of any microsecond value the stepping scheme ever
/// evaluates the closed forms at.
pub const TIME_ABS: i64 = 1_500_000_000;

/// A 2D vector in thousandths of a pixel (or of a pixel per second).
#[derive(Debug, Clone, Copy, PartialEq, Eq, Structural)]
pub struct Vec2 {
    pub x: i64,
    pub y: i64,
}

/// Mathematical image of a [`Ballistics`] value.
#[verifier::ext_equal]
pub ghost struct BallisticsView {
    /// Anchor position, millipixels.
    pub start_pos: (int, int),
    /// Velocity at the anchor, millipixels per second.
    pub start_velocity: (int, int),
    /// Constant acceleration, millipixels per second squared.
    pub acceleration: (int, int),
    /// Cached position of the last completed step.
    pub cur_pos: (int, int),
    /// Simulation time of the cached position, microseconds since the
    /// anchor.
    pub last_updated: int,
    /// Time dilation in thousandths: simulated time per real time.
    pub time_scale: int,
    /// Velocity retained by a rebound, in thousandths.
    pub rebound_efficiency: int,
}

/// Position along one axis at microsecond `t`:
/// `s + ((v + a*t/1e6) * t) / 1e6`, with floor division.
pub open spec fn spec_axis_pos(s: int, v: int, a: int, t: int) -> int {
    s + ((v + (a * t) / 1_000_000) * t) / 1_000_000
}

/// Velocity along one axis at microsecond `t`: `v + 2*a*t/1e6`, with floor
/// division.
pub open spec fn spec_axis_vel(v: int, a: int, t: int) -> int {
    v + (2 * a * t) / 1_000_000
}

/// Clamp into `[-b, b]`.
pub open spec fn spec_clamp(n: int, b: int) -> int {
    if n < -b {
        -b
    } else if n > b {
        b
    } else {
        n
    }
}

/// The whole-pixel column or row of a millipixel coordinate, saturated
/// into `i32` range, saturating as a float-to-integer cast does.
pub open spec fn spec_pixel(m: int) -> int {
    let q = m / 1000;
    if q < -0x8000_0000 {
        -0x8000_0000
    } else if q > 0x7fff_ffff {
        0x7fff_ffff
    } else {
        q
    }
}

impl BallisticsView {
    /// Position at microsecond `t` since the anchor.
    pub open spec fn pos_at(self, t: int) -> (int, int) {
        (
            spec_axis_pos(self.start_pos.0, self.start_velocity.0, self.acceleration.0, t),
            spec_axis_pos(self.start_pos.1, self.start_velocity.1, self.acceleration.1, t),
        )
    }

    /// Velocity at microsecond `t` since the anchor.
    pub open spec fn vel_at(self, t: int) -> (int, int) {
        (
            spec_axis_vel(self.start_velocity.0, self.acceleration.0, t),
            spec_axis_vel(self.start_velocity.1, self.acceleration.1, t),
        )
    }

    /// The state after a rebound that reverses the given axes: the anchor
    /// moves to the position at the current simulation time, the velocity
    /// at that time is reversed along the violated axes and scaled by the
    /// rebound efficiency (saturating at the fixed-point caps), and the
    /// local clock restarts at zero.
    pub open spec fn rebounded(self, horizontal: bool, vertical: bool) -> BallisticsView {
        let p = self.pos_at(self.last_updated);
        let vel = self.vel_at(self.last_updated);
        let vx = if horizontal {
            -vel.0
        } else {
            vel.0
        };
        let vy = if vertical {
            -vel.1
        } else {
            vel.1
        };
        let np = (spec_clamp(p.0, POS_CAP as int), spec_clamp(p.1, POS_CAP as int));
        BallisticsView {
            start_pos: np,
            start_velocity: (
                spec_clamp((vx * self.rebound_efficiency) / 1000, VEL_CAP as int),
                spec_clamp((vy * self.rebound_efficiency) / 1000, VEL_CAP as int),
            ),
            cur_pos: np,
            last_updated: 0,
            ..self
        }
    }

    /// Well-formedness: every component within the fixed-point ranges the
    /// integrator is proved to stay inside.
    pub open spec fn wf(self) -> bool {
        &&& -POS_CAP <= self.start_pos.0 <= POS_CAP
        &&& -POS_CAP <= self.start_pos.1 <= POS_CAP
        &&& -VEL_CAP <= self.start_velocity.0 <= VEL_CAP
        &&& -VEL_CAP <= self.start_velocity.1 <= VEL_CAP
        &&& -ACC_LIMIT <= self.acceleration.0 <= ACC_LIMIT
        &&& -ACC_LIMIT <= self.acceleration.1 <= ACC_LIMIT
        &&& -CUR_CAP <= self.cur_pos.0 <= CUR_CAP
        &&& -CUR_CAP <= self.cur_pos.1 <= CUR_CAP
        &&& -500_000_000 <= self.last_updated <= 768_435_456
        &&& 0 <= self.time_scale <= 1_000_000
        &&& 0 <= self.rebound_efficiency <= 1000
    }
}

/// For a positive divisor, the floor quotient of a value within `[-b, b]`
/// lies within `[-(b/d) - 1, b/d]`.
pub proof fn lemma_div_range(n: int, d: int, b: int)
    requires
        0 < d,
        0 <= b,
        -b <= n <= b,
    ensures
        -(b / d) - 1 <= n / d <= b / d,
{
    vstd::arithmetic::div_mod::lemma_div_is_ordered(n, b, d);
    vstd::arithmetic::div_mod::lemma_div_is_ordered(-b, n, d);
    vstd::arithmetic::div_mod::lemma_fundamental_div_mod(b, d);
    if b % d == 0 {
        assert(-b == d * (-(b / d)) + 0) by (nonlinear_arith)
            requires
                b == d * (b / d) + b % d,
                b % d == 0,
        ;
        vstd::arithmetic::div_mod::lemma_fundamental_div_mod_converse(-b, d, -(b / d), 0);
    } else {
        assert(-b == d * (-(b / d) - 1) + (d - b % d)) by (nonlinear_arith)
            requires
                b == d * (b / d) + b % d,
        ;
        vstd::arithmetic::div_mod::lemma_fundamental_div_mod_converse(
            -b,
            d,
            -(b / d) - 1,
            d - b % d,
        );
    }
}

/// Bounds of the closed-form position and velocity for well-formed inputs:
/// the position stays within the cache range and the velocity within the
/// cap plus the largest possible acceleration contribution.
pub proof fn lemma_axis_bounds(s: int, v: int, a: int, t: int)
    requires
        -POS_CAP <= s <= POS_CAP,
        -VEL_CAP <= v <= VEL_CAP,
        -ACC_LIMIT <= a <= ACC_LIMIT,
        -TIME_ABS <= t <= TIME_ABS,
    ensures
        -CUR_CAP <= spec_axis_pos(s, v, a, t) <= CUR_CAP,
        -VEL_CAP - 52_000_000_001 <= spec_axis_vel(v, a, t) <= VEL_CAP + 52_000_000_001,
        -26_000_000_000_000_000 <= a * t <= 26_000_000_000_000_000,
        -65_000_000_000_000_000_000 <= (v + (a * t) / 1_000_000) * t
            <= 65_000_000_000_000_000_000,
        -52_000_000_000_000_000 <= 2 * a * t <= 52_000_000_000_000_000,
{
    let at = a * t;
    assert(-26_000_000_000_000_000 <= at <= 26_000_000_000_000_000) by (nonlinear_arith)
        requires
            at == a * t,
            -16_777_216 <= a <= 16_777_216,
            -1_500_000_000 <= t <= 1_500_000_000,
    ;
    lemma_div_range(at, 1_000_000, 26_000_000_000_000_000);
    assert(26_000_000_000_000_000int / 1_000_000 == 26_000_000_000);
    let vv = v + at / 1_000_000;
    assert(-43_200_000_000 <= vv <= 43_200_000_000);
    let vvt = vv * t;
    assert(-65_000_000_000_000_000_000 <= vvt <= 65_000_000_000_000_000_000) by (nonlinear_arith)
        requires
            vvt == vv * t,
            -43_200_000_000 <= vv <= 43_200_000_000,
            -1_500_000_000 <= t <= 1_500_000_000,
    ;
    lemma_div_range(vvt, 1_000_000, 65_000_000_000_000_000_000);
    assert(65_000_000_000_000_000_000int / 1_000_000 == 65_000_000_000_000);
    let at2 = 2 * a * t;
    assert(-52_000_000_000_000_000 <= at2 <= 52_000_000_000_000_000) by (nonlinear_arith)
        requires
            at2 == 2 * a * t,
            -16_777_216 <= a <= 16_777_216,
            -1_500_000_000 <= t <= 1_500_000_000,
    ;
    lemma_div_range(at2, 1_000_000, 52_000_000_000_000_000);
    assert(52_000_000_000_000_000int / 1_000_000 == 52_000_000_000);
}

/// Clamp a wide value into `[-b, b]` and narrow it.
fn clamp_mag(n: i128, b: i64) -> (r: i64)
    requires
        0 < b,
    ensures
        r as int == spec_clamp(n as int, b as int),
{
    if n < -(b as i128) {
        -b
    } else if n > b as i128 {
        b
    } else {
        n as i64
    }
}

/// Position along one axis at microsecond `t`, exactly as
/// `spec_axis_pos` states it.
fn axis_pos(s: i64, v: i64, a: i64, t: i64) -> (r: i64)
    requires
        -POS_CAP <= s <= POS_CAP,
        -VEL_CAP <= v <= VEL_CAP,
        -ACC_LIMIT <= a <= ACC_LIMIT,
        -TIME_ABS <= t <= TIME_ABS,
    ensures
        r as int == spec_axis_pos(s as int, v as int, a as int, t as int),
        -CUR_CAP <= r <= CUR_CAP,
{
    proof {
        lemma_axis_bounds(s as int, v as int, a as int, t as int);
    }
    let at: i128 = (a as i128) * (t as i128);
    let q1: i128 = floor_div(at, 1_000_000);
    let vv: i128 = (v as i128) + q1;
    let vvt: i128 = vv * (t as i128);
    let q2: i128 = floor_div(vvt, 1_000_000);
    ((s as i128) + q2) as i64
}

/// Velocity along one axis at microsecond `t`, exactly as
/// `spec_axis_vel` states it.
fn axis_vel(v: i64, a: i64, t: i64) -> (r: i64)
    requires
        -VEL_CAP <= v <= VEL_CAP,
        -ACC_LIMIT <= a <= ACC_LIMIT,
        -TIME_ABS <= t <= TIME_ABS,
    ensures
        r as int == spec_axis_vel(v as int, a as int, t as int),
        -VEL_CAP - 52_000_000_001 <= r <= VEL_CAP + 52_000_000_001,
{
    proof {
        lemma_axis_bounds(0, v as int, a as int, t as int);
    }
    let at2: i128 = 2 * (a as i128) * (t as i128);
    let q: i128 = floor_div(at2, 1_000_000);
    ((v as i128) + q) as i64
}

/// The saturated whole-pixel coordinate of a millipixel coordinate.
fn pixel_of(m: i64) -> (r: i32)
    ensures
        r as int == spec_pixel(m as int),
{
    let q: i128 = floor_div(m as i128, 1000);
    if q < -0x8000_0000 {
        -0x8000_0000
    } else if q > 0x7fff_ffff {
        0x7fff_ffff
    } else {
        q as i32
    }
}

/// One projectile or falling-body trajectory.
#[derive(Debug, Clone, Copy)]
pub struct Ballistics {
    start_pos: Vec2,
    start_velocity: Vec2,
    acceleration: Vec2,
    cur_pos: Vec2,
    last_updated: i64,
    time_scale: i64,
    rebound_efficiency: i64,
}

impl View for Ballistics {
    type V = BallisticsView;

    closed spec fn view(&self) -> BallisticsView {
        BallisticsView {
            start_pos: (self.start_pos.x as int, self.start_pos.y as int),
            start_velocity: (self.start_velocity.x as int, self.start_velocity.y as int),
            acceleration: (self.acceleration.x as int, self.acceleration.y as int),
            cur_pos: (self.cur_pos.x as int, self.cur_pos.y as int),
            last_updated: self.last_updated as int,
            time_scale: self.time_scale as int,
            rebound_efficiency: self.rebound_efficiency as int,
        }
    }
}

impl Ballistics {
    /// Builds a trajectory anchored at `start_pos` with the given initial
    /// velocity and constant acceleration; time scale and rebound
    /// efficiency start at one (a thousand thousandths).
    pub fn new(start_pos: Vec2, start_velocity: Vec2, acceleration: Vec2) -> (r: Ballistics)
        requires
            -POS_CAP <= start_pos.x <= POS_CAP,
            -POS_CAP <= start_pos.y <= POS_CAP,
            -VEL_LIMIT <= start_velocity.x <= VEL_LIMIT,
            -VEL_LIMIT <= start_velocity.y <= VEL_LIMIT,
            -ACC_LIMIT <= acceleration.x <= ACC_LIMIT,
            -ACC_LIMIT <= acceleration.y <= ACC_LIMIT,
        ensures
            r@ == (BallisticsView {
                start_pos: (start_pos.x as int, start_pos.y as int),
                start_velocity: (start_velocity.x as int, start_velocity.y as int),
                acceleration: (acceleration.x as int, acceleration.y as int),
                cur_pos: (start_pos.x as int, start_pos.y as int),
                last_updated: 0,
                time_scale: 1000,
                rebound_efficiency: 1000,
            }),
            r@.wf(),
    {
        Ballistics {
            start_pos,
            start_velocity,
            acceleration,
            cur_pos: start_pos,
            last_updated: 0,
            time_scale: 1000,
            rebound_efficiency: 1000,
        }
    }

    /// Builder: sets the time dilation (thousandths of simulated time per
    /// real time) and re-anchors the elapsed-time accounting at zero.
    pub fn time_scale(self, value: i64) -> (r: Ballistics)
        requires
            self@.wf(),
            0 <= value <= 1_000_000,
        ensures
            r@ == (BallisticsView { time_scale: value as int, last_updated: 0, ..self@ }),
            r@.wf(),
    {
        Ballistics { time_scale: value, last_updated: 0, ..self }
    }

    /// Builder: sets the fraction of velocity (in thousandths) kept by a
    /// rebound.
    pub fn rebound_efficiency(self, value: i64) -> (r: Ballistics)
        requires
            self@.wf(),
            0 <= value <= 1000,
        ensures
            r@ == (BallisticsView { rebound_efficiency: value as int, ..self@ }),
            r@.wf(),
    {
        Ballistics { rebound_efficiency: value, ..self }
    }

    /// The simulation time of the cached position, in microseconds since
    /// the anchor.
    pub fn last_updated(&self) -> (r: i64)
        ensures
            r as int == self@.last_updated,
    {
        self.last_updated
    }

    /// The cached position of the last completed step.
    pub fn cur_pos(&self) -> (r: Vec2)
        ensures
            r.x as int == self@.cur_pos.0,
            r.y as int == self@.cur_pos.1,
    {
        self.cur_pos
    }

    /// The exact position and velocity at the current simulation time.
    pub fn pos_and_velocity(&self) -> (r: (Vec2, Vec2))
        requires
            self@.wf(),
        ensures
            (r.0.x as int, r.0.y as int) == self@.pos_at(self@.last_updated),
            (r.1.x as int, r.1.y as int) == self@.vel_at(self@.last_updated),
    {
        let t = self.last_updated;
        let px = axis_pos(self.start_pos.x, self.start_velocity.x, self.acceleration.x, t);
        let py = axis_pos(self.start_pos.y, self.start_velocity.y, self.acceleration.y, t);
        let vx = axis_vel(self.start_velocity.x, self.acceleration.x, t);
        let vy = axis_vel(self.start_velocity.y, self.acceleration.y, t);
        (Vec2 { x: px, y: py }, Vec2 { x: vx, y: vy })
    }

    /// Re-anchors the trajectory at the current position with the velocity
    /// reversed along the violated axes and scaled by the rebound
    /// efficiency.
    fn apply_rebound(&mut self, horizontal: bool, vertical: bool)
        requires
            old(self)@.wf(),
        ensures
            final(self)@ == old(self)@.rebounded(horizontal, vertical),
            final(self)@.wf(),
    {
        let t = self.last_updated;
        let px = axis_pos(self.start_pos.x, self.start_velocity.x, self.acceleration.x, t);
        let py = axis_pos(self.start_pos.y, self.start_velocity.y, self.acceleration.y, t);
        let vx0 = axis_vel(self.start_velocity.x, self.acceleration.x, t);
        let vy0 = axis_vel(self.start_velocity.y, self.acceleration.y, t);
        let vx1: i64 = if horizontal {
            -vx0
        } else {
            vx0
        };
        let vy1: i64 = if vertical {
            -vy0
        } else {
            vy0
        };
        proof {
            let ghost eff = old(self)@.rebound_efficiency;
            assert(-70_000_000_000_000 <= vx1 as int * eff <= 70_000_000_000_000)
                by (nonlinear_arith)
                requires
                    -69_200_000_000 <= vx1 as int <= 69_200_000_000,
                    0 <= eff <= 1000,
            ;
            assert(-70_000_000_000_000 <= vy1 as int * eff <= 70_000_000_000_000)
                by (nonlinear_arith)
                requires
                    -69_200_000_000 <= vy1 as int <= 69_200_000_000,
                    0 <= eff <= 1000,
            ;
        }
        let vx2: i64 = clamp_mag(
            floor_div((vx1 as i128) * (self.rebound_efficiency as i128), 1000),
            VEL_CAP,
        );
        let vy2: i64 = clamp_mag(
            floor_div((vy1 as i128) * (self.rebound_efficiency as i128), 1000),
            VEL_CAP,
        );
        let npx: i64 = clamp_mag(px as i128, POS_CAP);
        let npy: i64 = clamp_mag(py as i128, POS_CAP);
        self.start_pos = Vec2 { x: npx, y: npy };
        self.start_velocity = Vec2 { x: vx2, y: vy2 };
        self.cur_pos = Vec2 { x: npx, y: npy };
        self.last_updated = 0;
    }
}

/// Absolute value.
pub open spec fn spec_abs(n: int) -> int {
    if n < 0 {
        -n
    } else {
        n
    }
}

/// The largest velocity component magnitude at the interval's start and
/// end, which sizes the adaptive time step.
pub open spec fn spec_max_speed(b: BallisticsView, start: int, end: int) -> int {
    let sv = b.vel_at(start);
    let ev = b.vel_at(end);
    let m1 = if spec_abs(sv.0) > spec_abs(sv.1) {
        spec_abs(sv.0)
    } else {
        spec_abs(sv.1)
    };
    let m2 = if spec_abs(ev.0) > spec_abs(ev.1) {
        spec_abs(ev.0)
    } else {
        spec_abs(ev.1)
    };
    if m1 > m2 {
        m1
    } else {
        m2
    }
}

/// The adaptive step: half a pixel of travel at the fastest sampled
/// velocity (`1 / (2 * max speed)` seconds, in microseconds), so no pixel
/// can be skipped; with no velocity at all, one step covers the whole
/// interval (clamped into the step range, which changes no output since
/// the position is then constant).
pub open spec fn spec_time_step(b: BallisticsView, start: int, end: int) -> int {
    let m = spec_max_speed(b, start, end);
    if m == 0 {
        let p: int = end - start;
        if p < 0 {
            0
        } else if p > 500_000_000 {
            500_000_000
        } else {
            p
        }
    } else {
        let q: int = 500_000_000int / m;
        if q < 1 {
            1
        } else {
            q
        }
    }
}

/// The simulated end time of a stepping run: the requested real end time
/// scaled by the trajectory's time dilation.
pub open spec fn spec_scaled_end(b: BallisticsView, end_time: int) -> int {
    (end_time * b.time_scale) / 1000
}

/// Mathematical image of a [`BallisticsPosIterator`].
#[verifier::ext_equal]
pub ghost struct StepView {
    /// The trajectory being stepped.
    pub ball: BallisticsView,
    /// Scaled simulation time the run ends at.
    pub end_time: int,
    /// Sampling interval, microseconds.
    pub time_step: int,
    /// Simulation time of the last accepted sample.
    pub last_time: int,
    /// Pixel of the last accepted sample.
    pub last_pos: (int, int),
    /// Rebound borders `(width, height)`, if any.
    pub borders: Option<(int, int)>,
    /// Remaining sample allowance of this run.
    pub fuel: nat,
}

impl StepView {
    /// Well-formedness of a stepping state: everything within the ranges
    /// the sampling loop is proved to stay inside.
    pub open spec fn wf(self) -> bool {
        &&& self.ball.wf()
        &&& -500_000_000 <= self.end_time <= 768_435_456
        &&& 0 <= self.time_step <= 500_000_000
        &&& -500_000_000 <= self.last_time <= 1_268_435_456
        &&& (self.last_time < 0 ==> self.end_time <= TIME_LIMIT)
        &&& self.fuel <= 50_000_000
    }
}

/// The simulation time of the sample taken by a pass that starts at
/// `next_time`: one step further, clamped to the end of the run.
pub open spec fn spec_sample_time(st: StepView, next_time: int) -> int {
    let nt = next_time + st.time_step;
    if st.end_time < nt {
        st.end_time
    } else {
        nt
    }
}

/// The pixel of that sample.
pub open spec fn spec_sample_pixel(st: StepView, next_time: int) -> (int, int) {
    let p = st.ball.pos_at(spec_sample_time(st, next_time));
    (spec_pixel(p.0), spec_pixel(p.1))
}

/// The stepping state after a rebound: the trajectory re-anchored by
/// `rebounded`, the corner-damping rule (a rebound straight after another
/// rebound zeroes the horizontal motion), and the remaining time budget
/// carried over into a clock that restarts at zero.
pub open spec fn spec_after_rebound(st: StepView, rp: bool, hit_h: bool, hit_v: bool) -> StepView {
    let b1 = st.ball.rebounded(hit_h, hit_v);
    let b2 = if rp {
        BallisticsView {
            start_velocity: (0, b1.start_velocity.1),
            acceleration: (0, b1.acceleration.1),
            ..b1
        }
    } else {
        b1
    };
    StepView { ball: b2, end_time: st.end_time - st.last_time, last_time: 0, ..st }
}

/// The outcome of pulling one position from the stepping loop, starting a
/// sampling pass at `next_time` with `rp` saying whether the previous
/// pass ended in a rebound.  One pass of the sampling loop: advance
/// the sample time, clamp it to the end, dedup repeated pixels, rebound at
/// the borders (with the corner-damping rule on back-to-back rebounds),
/// and otherwise accept the pixel; when time or the sample allowance runs
/// out, snap the trajectory to the exact end position.
pub open spec fn spec_next(st: StepView, rp: bool, next_time: int) -> (StepView, Option<(int, int)>)
    decreases st.fuel,
{
    if next_time > st.end_time || st.fuel == 0 {
        let p = st.ball.pos_at(st.end_time);
        (
            StepView {
                ball: BallisticsView { cur_pos: p, last_updated: st.end_time, ..st.ball },
                ..st
            },
            None,
        )
    } else {
        let st1 = StepView { fuel: (st.fuel - 1) as nat, ..st };
        let nt = next_time + st.time_step;
        let clamped = spec_sample_time(st, next_time);
        let p = st.ball.pos_at(clamped);
        let pix = spec_sample_pixel(st, next_time);
        if pix == st.last_pos {
            spec_next(st1, rp, nt)
        } else {
            let hit_h = match st.borders {
                Some(b) => pix.0 < 0 || pix.0 >= b.0,
                None => false,
            };
            let hit_v = match st.borders {
                Some(b) => pix.1 < 0 || pix.1 > b.1,
                None => false,
            };
            if hit_h || hit_v {
                spec_next(spec_after_rebound(st1, rp, hit_h, hit_v), true, 0)
            } else {
                (
                    StepView {
                        ball: BallisticsView {
                            cur_pos: p,
                            last_updated: clamped,
                            ..st.ball
                        },
                        last_time: nt,
                        last_pos: pix,
                        ..st1
                    },
                    Some(pix),
                )
            }
        }
    }
}

/// A finite, non-restartable walk of the integer pixels a trajectory
/// crosses up to an end time, with boundary rebound.  It owns the
/// trajectory while stepping, so there is at most one active stepper per
/// trajectory; `finish` hands the updated trajectory back.
pub struct BallisticsPosIterator {
    ball: Ballistics,
    end_time: i64,
    time_step: i64,
    last_time: i64,
    last_pos: (i32, i32),
    borders: Option<(i32, i32)>,
    fuel: u64,
}

impl View for BallisticsPosIterator {
    type V = StepView;

    closed spec fn view(&self) -> StepView {
        StepView {
            ball: self.ball@,
            end_time: self.end_time as int,
            time_step: self.time_step as int,
            last_time: self.last_time as int,
            last_pos: (self.last_pos.0 as int, self.last_pos.1 as int),
            borders: match self.borders {
                Some(b) => Some((b.0 as int, b.1 as int)),
                None => None,
            },
            fuel: self.fuel as nat,
        }
    }
}

impl Ballistics {
    /// Starts a pixel walk from the current simulation time up to
    /// `end_time` (real microseconds; it is scaled by the time dilation),
    /// rebounding at `borders = (width, height)` when given.  The walk
    /// owns the trajectory until `finish`.
    pub fn positions_iter(self, end_time: i64, borders: Option<(i32, i32)>) -> (r: BallisticsPosIterator)
        requires
            self@.wf(),
            0 <= end_time,
            0 <= spec_scaled_end(self@, end_time as int) <= TIME_LIMIT,
        ensures
            r@ == (StepView {
                ball: self@,
                end_time: spec_scaled_end(self@, end_time as int),
                time_step: spec_time_step(
                    self@,
                    self@.last_updated,
                    spec_scaled_end(self@, end_time as int),
                ),
                last_time: self@.last_updated,
                last_pos: (spec_pixel(self@.cur_pos.0), spec_pixel(self@.cur_pos.1)),
                borders: match borders {
                    Some(b) => Some((b.0 as int, b.1 as int)),
                    None => None,
                },
                fuel: 50_000_000,
            }),
            r@.wf(),
    {
        let scaled_wide: i128 = (end_time as i128) * (self.time_scale as i128);
        let scaled: i64 = floor_div(scaled_wide, 1000) as i64;
        let start_time: i64 = self.last_updated;
        let svx = axis_vel(self.start_velocity.x, self.acceleration.x, start_time);
        let svy = axis_vel(self.start_velocity.y, self.acceleration.y, start_time);
        let evx = axis_vel(self.start_velocity.x, self.acceleration.x, scaled);
        let evy = axis_vel(self.start_velocity.y, self.acceleration.y, scaled);
        let asvx: i64 = if svx < 0 {
            -svx
        } else {
            svx
        };
        let asvy: i64 = if svy < 0 {
            -svy
        } else {
            svy
        };
        let aevx: i64 = if evx < 0 {
            -evx
        } else {
            evx
        };
        let aevy: i64 = if evy < 0 {
            -evy
        } else {
            evy
        };
        let m1: i64 = if asvx > asvy {
            asvx
        } else {
            asvy
        };
        let m2: i64 = if aevx > aevy {
            aevx
        } else {
            aevy
        };
        let max_velocity: i64 = if m1 > m2 {
            m1
        } else {
            m2
        };
        let time_step: i64 = if max_velocity == 0 {
            let p: i64 = scaled - start_time;
            if p < 0 {
                0
            } else if p > 500_000_000 {
                500_000_000
            } else {
                p
            }
        } else {
            let q: i64 = floor_div(500_000_000, max_velocity as i128) as i64;
            if q < 1 {
                1
            } else {
                q
            }
        };
        let last_pos: (i32, i32) = (pixel_of(self.cur_pos.x), pixel_of(self.cur_pos.y));
        BallisticsPosIterator {
            ball: self,
            end_time: scaled,
            time_step,
            last_time: start_time,
            last_pos,
            borders,
            fuel: 50_000_000,
        }
    }
}

impl BallisticsPosIterator {
    /// Gives the trajectory back, with the state the walk persisted onto
    /// it.
    pub fn finish(self) -> (r: Ballistics)
        ensures
            r@ == self@.ball,
    {
        self.ball
    }

    /// The next pixel transition of the walk, or `None` once the time
    /// budget is exhausted (the trajectory is then snapped to the exact
    /// end position once).
    pub fn next(&mut self) -> (r: Option<(i32, i32)>)
        requires
            old(self)@.wf(),
        ensures
            final(self)@ == spec_next(old(self)@, false, old(self)@.last_time).0,
            (r is Some) == (spec_next(old(self)@, false, old(self)@.last_time).1 is Some),
            (r matches Some(p) ==> spec_next(old(self)@, false, old(self)@.last_time).1 == Some(
                (p.0 as int, p.1 as int),
            )),
            final(self)@.wf(),
    {
        let mut next_time: i64 = self.last_time;
        let mut rp: bool = false;
        while next_time <= self.end_time && self.fuel > 0
            invariant
                self@.wf(),
                -500_000_000 <= next_time <= 1_268_435_456,
                self@.last_time <= next_time,
                (next_time < 0 ==> self@.end_time <= TIME_LIMIT),
                spec_next(old(self)@, false, old(self)@.last_time) == spec_next(
                    self@,
                    rp,
                    next_time as int,
                ),
            decreases self.fuel,
        {
            let ghost pre = self@;
            let ghost pre_nt = next_time as int;
            let ghost pre_rp = rp;
            self.fuel = self.fuel - 1;
            next_time = next_time + self.time_step;
            let clamped: i64 = if self.end_time < next_time {
                self.end_time
            } else {
                next_time
            };
            let px = axis_pos(
                self.ball.start_pos.x,
                self.ball.start_velocity.x,
                self.ball.acceleration.x,
                clamped,
            );
            let py = axis_pos(
                self.ball.start_pos.y,
                self.ball.start_velocity.y,
                self.ball.acceleration.y,
                clamped,
            );
            let pix: (i32, i32) = (pixel_of(px), pixel_of(py));
            if pix.0 == self.last_pos.0 && pix.1 == self.last_pos.1 {
                proof {
                    assert(spec_next(pre, pre_rp, pre_nt) == spec_next(
                        self@,
                        rp,
                        next_time as int,
                    ));
                }
                continue ;
            }
            let mut hit_h: bool = false;
            let mut hit_v: bool = false;
            match self.borders {
                Some(b) => {
                    hit_h = pix.0 < 0 || pix.0 >= b.0;
                    hit_v = pix.1 < 0 || pix.1 > b.1;
                },
                None => {},
            }
            if hit_h || hit_v {
                self.ball.apply_rebound(hit_h, hit_v);
                if rp {
                    self.ball.start_velocity = Vec2 { x: 0, y: self.ball.start_velocity.y };
                    self.ball.acceleration = Vec2 { x: 0, y: self.ball.acceleration.y };
                }
                self.end_time = self.end_time - self.last_time;
                self.last_time = 0;
                next_time = 0;
                rp = true;
                proof {
                    assert(spec_next(pre, pre_rp, pre_nt) == spec_next(
                        self@,
                        rp,
                        next_time as int,
                    ));
                }
                continue ;
            }
            self.last_time = next_time;
            self.last_pos = pix;
            self.ball.last_updated = clamped;
            self.ball.cur_pos = Vec2 { x: px, y: py };
            proof {
                assert(spec_next(pre, pre_rp, pre_nt).0 =~= self@);
            }
            return Some(pix);
        }
        let fx = axis_pos(
            self.ball.start_pos.x,
            self.ball.start_velocity.x,
            self.ball.acceleration.x,
            self.end_time,
        );
        let fy = axis_pos(
            self.ball.start_pos.y,
            self.ball.start_velocity.y,
            self.ball.acceleration.y,
            self.end_time,
        );
        self.ball.cur_pos = Vec2 { x: fx, y: fy };
        self.ball.last_updated = self.end_time;
        proof {
            assert(spec_next(old(self)@, false, old(self)@.last_time).0 =~= self@);
        }
        None
    }
}

/// Every yielded position is a pixel transition: the walk never yields
/// the pixel it yielded last, and the state left behind remembers the
/// yielded pixel as the new deduplication anchor.
pub proof fn lemma_yield_is_transition(st: StepView, rp: bool, next_time: int)
    ensures
        (spec_next(st, rp, next_time).1 matches Some(p) ==> p != st.last_pos && spec_next(
            st,
            rp,
            next_time,
        ).0.last_pos == p),
    decreases st.fuel,
{
    if next_time > st.end_time || st.fuel == 0 {
    } else {
        let st1 = StepView { fuel: (st.fuel - 1) as nat, ..st };
        let nt = next_time + st.time_step;
        let pix = spec_sample_pixel(st, next_time);
        if pix == st.last_pos {
            lemma_yield_is_transition(st1, rp, nt);
        } else {
            let hit_h = match st.borders {
                Some(b) => pix.0 < 0 || pix.0 >= b.0,
                None => false,
            };
            let hit_v = match st.borders {
                Some(b) => pix.1 < 0 || pix.1 > b.1,
                None => false,
            };
            if hit_h || hit_v {
                let st2 = spec_after_rebound(st1, rp, hit_h, hit_v);
                assert(st2.last_pos == st.last_pos);
                lemma_yield_is_transition(st2, true, 0);
            }
        }
    }
}

/// On exhaustion the trajectory is snapped exactly once to the end of the
/// run: the cached position and its time equal the closed-form position
/// at the remaining time budget, so trailing sub-pixel progress is not
/// lost between calls.
pub proof fn lemma_exhaustion_exact(st: StepView, rp: bool, next_time: int)
    ensures
        (spec_next(st, rp, next_time).1 is None ==> {
            let fin = spec_next(st, rp, next_time).0;
            &&& fin.ball.cur_pos == fin.ball.pos_at(fin.end_time)
            &&& fin.ball.last_updated == fin.end_time
        }),
    decreases st.fuel,
{
    if next_time > st.end_time || st.fuel == 0 {
    } else {
        let st1 = StepView { fuel: (st.fuel - 1) as nat, ..st };
        let nt = next_time + st.time_step;
        let pix = spec_sample_pixel(st, next_time);
        if pix == st.last_pos {
            lemma_exhaustion_exact(st1, rp, nt);
        } else {
            let hit_h = match st.borders {
                Some(b) => pix.0 < 0 || pix.0 >= b.0,
                None => false,
            };
            let hit_v = match st.borders {
                Some(b) => pix.1 < 0 || pix.1 > b.1,
                None => false,
            };
            if hit_h || hit_v {
                lemma_exhaustion_exact(spec_after_rebound(st1, rp, hit_h, hit_v), true, 0);
            }
        }
    }
}

/// Rebound correctness: when the sampled transition leaves the borders,
/// the walk re-anchors the trajectory at the pre-transition position,
/// reverses the velocity along each violated axis scaled by the rebound
/// efficiency, and carries the remaining time budget over -- the new
/// budget plus the simulated time already walked equals the old budget,
/// and stepping restarts from time zero against the new anchor.
pub proof fn lemma_rebound_correctness(st: StepView, next_time: int)
    requires
        st.fuel > 0,
        next_time <= st.end_time,
        st.borders is Some,
        spec_sample_pixel(st, next_time) != st.last_pos,
        ({
            let pix = spec_sample_pixel(st, next_time);
            let b = st.borders->Some_0;
            pix.0 < 0 || pix.0 >= b.0 || pix.1 < 0 || pix.1 > b.1
        }),
    ensures
        ({
            let pix = spec_sample_pixel(st, next_time);
            let b = st.borders->Some_0;
            let hit_h = pix.0 < 0 || pix.0 >= b.0;
            let hit_v = pix.1 < 0 || pix.1 > b.1;
            let st1 = StepView { fuel: (st.fuel - 1) as nat, ..st };
            let after = spec_after_rebound(st1, false, hit_h, hit_v);
            let base = st.ball.pos_at(st.ball.last_updated);
            let vel = st.ball.vel_at(st.ball.last_updated);
            let eff = st.ball.rebound_efficiency;
            &&& spec_next(st, false, next_time) == spec_next(after, true, 0)
            &&& after.end_time + st.last_time == st.end_time
            &&& after.last_time == 0
            &&& after.ball.last_updated == 0
            &&& after.ball.start_pos == (
                spec_clamp(base.0, POS_CAP as int),
                spec_clamp(base.1, POS_CAP as int),
            )
            &&& after.ball.start_velocity.0 == spec_clamp(
                (if hit_h {
                    -vel.0
                } else {
                    vel.0
                }) * eff / 1000,
                VEL_CAP as int,
            )
            &&& after.ball.start_velocity.1 == spec_clamp(
                (if hit_v {
                    -vel.1
                } else {
                    vel.1
                }) * eff / 1000,
                VEL_CAP as int,
            )
        }),
{
}

/// A purely horizontal constant-velocity walk configuration: no
/// acceleration, a positive horizontal velocity within the step-sizing
/// range, no borders, the step sized from the velocity, and a start
/// position far from the pixel saturation range.
pub open spec fn const_vel_config(st: StepView) -> bool {
    &&& st.ball.acceleration == (0int, 0int)
    &&& st.ball.start_velocity.1 == 0
    &&& 0 < st.ball.start_velocity.0 <= 500_000_000
    &&& -0x100_0000_0000 <= st.ball.start_pos.0 <= 0x100_0000_0000
    &&& st.borders is None
    &&& st.time_step == 500_000_000int / st.ball.start_velocity.0
    &&& 0 <= st.end_time <= 768_435_456
}

/// Monotonicity and step bound of the constant-velocity position: moving
/// the sample time forward never moves the position backward, and a
/// forward move of `vm * dt <= bound` moves it by at most
/// `bound / 1e6 + 1` millipixels.
proof fn lemma_const_vel_pos_step(vm: int, t1: int, t2: int, bound: int)
    requires
        0 < vm,
        t1 <= t2,
        vm * (t2 - t1) <= bound,
        0 <= bound,
    ensures
        (vm * t1) / 1_000_000 <= (vm * t2) / 1_000_000,
        (vm * t2) / 1_000_000 - (vm * t1) / 1_000_000 <= bound / 1_000_000 + 1,
{
    assert(vm * t1 <= vm * t2 && vm * t2 <= vm * t1 + bound) by (nonlinear_arith)
        requires
            0 < vm,
            t1 <= t2,
            vm * (t2 - t1) <= bound,
    ;
    vstd::arithmetic::div_mod::lemma_div_is_ordered(vm * t1, vm * t2, 1_000_000);
    let c = bound / 1_000_000 + 1;
    vstd::arithmetic::div_mod::lemma_fundamental_div_mod(bound, 1_000_000);
    vstd::arithmetic::div_mod::lemma_mod_pos_bound(bound, 1_000_000);
    assert(bound <= c * 1_000_000) by (nonlinear_arith)
        requires
            bound == 1_000_000 * (bound / 1_000_000) + bound % 1_000_000,
            bound % 1_000_000 < 1_000_000,
            c == bound / 1_000_000 + 1,
    ;
    vstd::arithmetic::div_mod::lemma_hoist_over_denominator(vm * t1, c, 1_000_000nat);
    vstd::arithmetic::div_mod::lemma_div_is_ordered(
        vm * t2,
        vm * t1 + c * 1_000_000,
        1_000_000,
    );
}

/// In the constant-velocity configuration the sampled pixels are exact
/// (no saturation) and grow by at most one pixel per sampling step.
proof fn lemma_const_vel_pixel(s: int, m1: int, m2: int)
    requires
        -0x100_0000_0000 <= s <= 0x100_0000_0000,
        -650_000_000_000 <= m1 <= 650_000_000_000,
        m1 <= m2 <= m1 + 501,
    ensures
        spec_pixel(s + m1) == (s + m1) / 1000,
        spec_pixel(s + m2) == (s + m2) / 1000,
        (s + m1) / 1000 <= (s + m2) / 1000 <= (s + m1) / 1000 + 1,
{
    vstd::arithmetic::div_mod::lemma_div_is_ordered(-1_800_000_000_000, s + m1, 1000);
    vstd::arithmetic::div_mod::lemma_div_is_ordered(s + m1, 1_800_000_000_000, 1000);
    vstd::arithmetic::div_mod::lemma_div_is_ordered(-1_800_000_000_000, s + m2, 1000);
    vstd::arithmetic::div_mod::lemma_div_is_ordered(s + m2, 1_800_000_000_000, 1000);
    vstd::arithmetic::div_mod::lemma_div_is_ordered(s + m1, s + m2, 1000);
    vstd::arithmetic::div_mod::lemma_hoist_over_denominator(s + m1, 1, 1000nat);
    vstd::arithmetic::div_mod::lemma_div_is_ordered(s + m2, s + m1 + 1000, 1000);
}

/// The core of the constant-velocity law, by induction over the sampling
/// passes: each pull of the walk yields the pixel one to the right of the
/// last yielded one, exactly until the end position's pixel is reached;
/// after that the pull reports exhaustion.
/// The premises of the constant-velocity law for a walk state: the
/// deduplication anchor holds the pixel of the exact position at the
/// walk's clock (or at the end, once the clock has passed it), and the
/// sample allowance covers the remaining passes.
pub open spec fn const_vel_premises(st: StepView) -> bool {
    &&& st.wf()
    &&& const_vel_config(st)
    &&& st.last_pos.1 == spec_pixel(st.ball.start_pos.1)
    &&& (st.last_time <= st.end_time ==> st.last_pos.0 == spec_pixel(
        spec_axis_pos(st.ball.start_pos.0, st.ball.start_velocity.0, 0, st.last_time),
    ))
    &&& (st.last_time > st.end_time ==> st.last_pos.0 == spec_pixel(
        spec_axis_pos(st.ball.start_pos.0, st.ball.start_velocity.0, 0, st.end_time),
    ))
    &&& (st.last_time <= st.end_time ==> st.fuel > (st.end_time - st.last_time) / st.time_step
        + 1)
}

proof fn lemma_const_vel_next_rec(st: StepView, rp: bool, next_time: int)
    requires
        st.wf(),
        const_vel_config(st),
        -500_000_000 <= next_time <= 1_268_435_456,
        st.last_pos.1 == spec_pixel(st.ball.start_pos.1),
        next_time <= st.end_time ==> st.last_pos.0 == spec_pixel(
            spec_axis_pos(st.ball.start_pos.0, st.ball.start_velocity.0, 0, next_time),
        ),
        next_time > st.end_time ==> st.last_pos.0 == spec_pixel(
            spec_axis_pos(st.ball.start_pos.0, st.ball.start_velocity.0, 0, st.end_time),
        ),
        next_time <= st.end_time ==> st.fuel > (st.end_time - next_time) / st.time_step + 1,
        next_time < 0 ==> st.end_time <= TIME_LIMIT,
    ensures
        ({
            let target = spec_pixel(
                spec_axis_pos(st.ball.start_pos.0, st.ball.start_velocity.0, 0, st.end_time),
            );
            let r = spec_next(st, rp, next_time);
            &&& (target > st.last_pos.0 ==> r.1 == Some((st.last_pos.0 + 1, st.last_pos.1)))
            &&& (target <= st.last_pos.0 ==> r.1 is None)
            &&& (r.1 is Some ==> const_vel_premises(r.0))
        }),
    decreases st.fuel,
{
    let s = st.ball.start_pos.0;
    let vm = st.ball.start_velocity.0;
    let end = st.end_time;
    let step = st.time_step;
    let target = spec_pixel(spec_axis_pos(s, vm, 0, end));
    assert(step >= 1) by {
        vstd::arithmetic::div_mod::lemma_fundamental_div_mod(500_000_000, vm);
        vstd::arithmetic::div_mod::lemma_mod_pos_bound(500_000_000, vm);
        assert(step >= 1) by (nonlinear_arith)
            requires
                500_000_000int == vm * step + 500_000_000int % vm,
                500_000_000int % vm < vm,
                0 < vm <= 500_000_000,
        ;
    }
    if next_time > end || st.fuel == 0 {
        assert(next_time > end) by {
            if next_time <= end {
                vstd::arithmetic::div_mod::lemma_div_pos_is_pos(end - next_time, step);
            }
        }
    } else {
        let st1 = StepView { fuel: (st.fuel - 1) as nat, ..st };
        let nt = next_time + step;
        let clamped = spec_sample_time(st, next_time);
        assert(vm * (clamped - next_time) <= 500_000_000) by {
            vstd::arithmetic::div_mod::lemma_fundamental_div_mod(500_000_000, vm);
            vstd::arithmetic::div_mod::lemma_mod_pos_bound(500_000_000, vm);
            assert(vm * (clamped - next_time) <= 500_000_000) by (nonlinear_arith)
                requires
                    0 < vm,
                    next_time <= clamped <= next_time + step,
                    500_000_000int == vm * step + 500_000_000int % vm,
                    0 <= 500_000_000int % vm,
            ;
        }
        lemma_const_vel_pos_step(vm, next_time, clamped, 500_000_000);
        let m1 = (vm * next_time) / 1_000_000;
        let m2 = (vm * clamped) / 1_000_000;
        assert(-650_000_000_000 <= m1 <= 650_000_000_000) by {
            assert(-250_000_000_000_000_000 <= vm * next_time <= 640_000_000_000_000_000)
                by (nonlinear_arith)
                requires
                    0 < vm <= 500_000_000,
                    -500_000_000 <= next_time <= 1_268_435_456,
            ;
            lemma_div_range(vm * next_time, 1_000_000, 640_000_000_000_000_000);
            assert(640_000_000_000_000_000int / 1_000_000 == 640_000_000_000);
        }
        lemma_const_vel_pixel(s, m1, m2);
        assert(spec_axis_pos(s, vm, 0, next_time) == s + m1);
        assert(spec_axis_pos(s, vm, 0, clamped) == s + m2);
        let pix = spec_sample_pixel(st, next_time);
        assert(pix.1 == spec_pixel(st.ball.start_pos.1)) by {
            assert(spec_axis_pos(st.ball.start_pos.1, 0, 0, clamped) == st.ball.start_pos.1);
        }
        if pix == st.last_pos {
            if nt <= end {
                assert(st.last_pos.0 == spec_pixel(spec_axis_pos(s, vm, 0, nt)));
                vstd::arithmetic::div_mod::lemma_hoist_over_denominator(
                    end - nt,
                    1,
                    step as nat,
                );
                assert((end - nt) / step + 1 == (end - next_time) / step);
            }
            lemma_const_vel_next_rec(st1, rp, nt);
        } else {
            assert(pix.0 == st.last_pos.0 + 1);
            let m_end = (vm * end) / 1_000_000;
            assert(vm * (end - clamped) <= 900_000_000_000_000_000 && clamped <= end)
                by (nonlinear_arith)
                requires
                    0 < vm <= 500_000_000,
                    clamped <= end,
                    -500_000_000 <= end <= 1_268_435_456,
                    -500_000_000 <= clamped,
            ;
            lemma_const_vel_pos_step(vm, clamped, end, 900_000_000_000_000_000);
            assert(0 <= m_end <= 650_000_000_000) by {
                assert(0 <= vm * end <= 640_000_000_000_000_000) by (nonlinear_arith)
                    requires
                        0 < vm <= 500_000_000,
                        0 <= end <= 1_268_435_456,
                ;
                lemma_div_range(vm * end, 1_000_000, 640_000_000_000_000_000);
                assert(640_000_000_000_000_000int / 1_000_000 == 640_000_000_000);
                vstd::arithmetic::div_mod::lemma_div_pos_is_pos(vm * end, 1_000_000);
            }
            vstd::arithmetic::div_mod::lemma_div_is_ordered(s + m2, s + m_end, 1000);
            vstd::arithmetic::div_mod::lemma_div_is_ordered(-1_800_000_000_000, s + m_end, 1000);
            vstd::arithmetic::div_mod::lemma_div_is_ordered(s + m_end, 1_800_000_000_000, 1000);
            assert(spec_pixel(s + m_end) == (s + m_end) / 1000);
            assert(spec_axis_pos(s, vm, 0, end) == s + m_end);
            assert(target >= pix.0);
            // The accepted state satisfies the premises again, so the law
            // chains across pulls.
            lemma_axis_bounds(st.ball.start_pos.0, vm, 0, clamped);
            lemma_axis_bounds(st.ball.start_pos.1, 0, 0, clamped);
            if nt <= end {
                vstd::arithmetic::div_mod::lemma_hoist_over_denominator(
                    end - nt,
                    1,
                    step as nat,
                );
                assert((end - nt) / step + 1 == (end - next_time) / step);
            }
            assert(const_vel_premises(spec_next(st, rp, next_time).0));
        }
    }
}

/// Constant-velocity pixel walks are gapless and exact: with zero
/// acceleration and a purely horizontal velocity, each pull of the walk
/// yields the pixel one to the right of the last yielded one, until the
/// pixel of the exact end position is reached; the next pull then reports
/// exhaustion, snapping the trajectory to exactly the end position.
pub proof fn lemma_const_velocity_transitions(st: StepView)
    requires
        const_vel_premises(st),
    ensures
        ({
            let target = spec_pixel(
                spec_axis_pos(st.ball.start_pos.0, st.ball.start_velocity.0, 0, st.end_time),
            );
            let r = spec_next(st, false, st.last_time);
            &&& (target > st.last_pos.0 ==> r.1 == Some((st.last_pos.0 + 1, st.last_pos.1)))
            &&& (target <= st.last_pos.0 ==> r.1 is None)
            &&& (r.1 is Some ==> const_vel_premises(r.0))
        }),
{
    lemma_const_vel_next_rec(st, false, st.last_time);
}

} // verus!
