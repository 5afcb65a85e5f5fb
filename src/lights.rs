use vstd::prelude::*;

verus! {

/// An RGB color; a gray level has `r == g == b`.
#[derive(Clone, Copy, Debug, PartialEq, Eq, Structural)]
pub struct Pixel {
    pub r: u8,
    pub g: u8,
    pub b: u8,
}

impl Pixel {
    /// The gray level `v` on all three channels.
    pub fn gray(v: u8) -> (r: Pixel)
        ensures
            r == (Pixel { r: v, g: v, b: v }),
    {
        Pixel { r: v, g: v, b: v }
    }

    pub fn black() -> (r: Pixel)
        ensures
            r == (Pixel { r: 0, g: 0, b: 0 }),
    {
        Pixel::gray(0)
    }

    pub fn white() -> (r: Pixel)
        ensures
            r == (Pixel { r: 255, g: 255, b: 255 }),
    {
        Pixel::gray(255)
    }
}

/// Number of pixels on one tile, which a breathing frame fills.
pub const MATRIX_PIXELS: usize = 16;

enum BreathingDirection {
    Increasing,
    Decreasing,
}

/// A monochrome pulse: an intensity that climbs by a fixed step up to 255, then
/// falls by the same step down to 0, and so on.
pub struct BreathingLights {
    direction: BreathingDirection,
    value: u8,
    step: u8,
}

/// One tick of the pulse on the model `(rising, value)`: saturating moves, with
/// the direction flipping in the tick that reaches an extreme.
pub open spec fn breath_step(s: (bool, int), step: int) -> (bool, int) {
    if s.0 {
        let v = vstd::math::min(s.1 + step, 255);
        (v != 255, v)
    } else {
        let v = vstd::math::max(s.1 - step, 0);
        (v == 0, v)
    }
}

/// The model after `k` ticks from the start state (rising, at 0).
pub open spec fn breath_after(step: int, k: nat) -> (bool, int)
    decreases k,
{
    if k == 0 {
        (true, 0)
    } else {
        breath_step(breath_after(step, (k - 1) as nat), step)
    }
}

/// Ticks from 0 up to 255 (and from 255 down to 0): `ceil(255 / step)`.
pub open spec fn half_cycle(step: int) -> int {
    (255 + step - 1) / step
}

impl View for BreathingLights {
    type V = (bool, int);

    closed spec fn view(&self) -> (bool, int) {
        (self.direction is Increasing, self.value as int)
    }
}

impl BreathingLights {
    /// The step added or taken each tick.
    pub closed spec fn step_size(&self) -> int {
        self.step as int
    }

    /// A pulse at 0, rising, moving by `step` each tick.
    pub fn new(step: u8) -> (r: BreathingLights)
        ensures
            r@ == (true, 0int),
            r.step_size() == step,
    {
        BreathingLights { direction: BreathingDirection::Increasing, value: 0, step }
    }

    /// The current intensity.
    pub fn value(&self) -> (r: u8)
        ensures
            r == self@.1,
    {
        self.value
    }

    /// Advances the pulse by one tick.
    pub fn calculate_next_state(&mut self)
        ensures
            final(self)@ == breath_step(old(self)@, old(self).step_size()),
            final(self).step_size() == old(self).step_size(),
    {
        match self.direction {
            BreathingDirection::Increasing => {
                self.value = self.value.saturating_add(self.step);
                if self.value == 255 {
                    self.direction = BreathingDirection::Decreasing;
                }
            },
            BreathingDirection::Decreasing => {
                self.value = self.value.saturating_sub(self.step);
                if self.value == 0 {
                    self.direction = BreathingDirection::Increasing;
                }
            },
        }
    }

    /// Advances the pulse by one tick and returns the frame for one tile: the new
    /// intensity on all channels of its 16 pixels.
    pub fn show_next(&mut self) -> (r: Vec<Pixel>)
        ensures
            final(self)@ == breath_step(old(self)@, old(self).step_size()),
            final(self).step_size() == old(self).step_size(),
            r@ == Seq::new(
                MATRIX_PIXELS as nat,
                |i: int| Pixel { r: final(self)@.1 as u8, g: final(self)@.1 as u8, b: final(self)@.1 as u8 },
            ),
    {
        self.calculate_next_state();
        let p = Pixel::gray(self.value);
        let mut matrix: Vec<Pixel> = Vec::new();
        let mut i: usize = 0;
        while i < MATRIX_PIXELS
            invariant
                i <= MATRIX_PIXELS,
                matrix@ == Seq::new(i as nat, |j: int| p),
            decreases MATRIX_PIXELS - i,
        {
            matrix.push(p);
            i = i + 1;
            assert(matrix@ =~= Seq::new(i as nat, |j: int| p));
        }
        assert(matrix@ =~= Seq::new(
            MATRIX_PIXELS as nat,
            |i: int| Pixel { r: self@.1 as u8, g: self@.1 as u8, b: self@.1 as u8 },
        ));
        matrix
    }
}

proof fn lemma_half_cycle(step: int)
    requires
        0 < step <= 255,
    ensures
        1 <= half_cycle(step) <= 255,
        half_cycle(step) * step >= 255,
        (half_cycle(step) - 1) * step < 255,
{
    let q = (255 + step - 1) / step;
    let rem = (255 + step - 1) % step;
    assert(255 + step - 1 == q * step + rem && 0 <= rem < step) by (nonlinear_arith)
        requires
            step > 0,
            q == (255 + step - 1) / step,
            rem == (255 + step - 1) % step,
    ;
    assert(q * step >= 255) by (nonlinear_arith)
        requires
            255 + step - 1 == q * step + rem,
            rem < step,
    ;
    assert((q - 1) * step < 255) by (nonlinear_arith)
        requires
            255 + step - 1 == q * step + rem,
            rem >= 0,
    ;
    assert(q >= 1) by (nonlinear_arith)
        requires
            q * step >= 255,
            step > 0,
            step <= 255,
    ;
    assert(q <= 255) by (nonlinear_arith)
        requires
            (q - 1) * step < 255,
            step >= 1,
    ;
}

proof fn lemma_rising(step: int, k: nat)
    requires
        0 < step <= 255,
        k <= half_cycle(step),
    ensures
        breath_after(step, k) == (k < half_cycle(step), vstd::math::min(k * step, 255)),
    decreases k,
{
    lemma_half_cycle(step);
    let n = half_cycle(step);
    if k == 0 {
        assert(k * step == 0);
    } else {
        lemma_rising(step, (k - 1) as nat);
        let km = (k - 1) as int;
        assert(breath_after(step, k) == breath_step(breath_after(step, (k - 1) as nat), step));
        assert(km * step < 255) by (nonlinear_arith)
            requires
                km < n,
                (n - 1) * step < 255,
                step > 0,
        ;
        assert(km * step + step == k * step) by (nonlinear_arith)
            requires
                km == k - 1,
        ;
        assert(k * step >= 255 <==> k >= n) by (nonlinear_arith)
            requires
                n * step >= 255,
                (n - 1) * step < 255,
                step > 0,
        ;
    }
}

proof fn lemma_falling(step: int, j: nat)
    requires
        0 < step <= 255,
        j <= half_cycle(step),
    ensures
        breath_after(step, (half_cycle(step) + j) as nat) == (j == half_cycle(step), vstd::math::max(
            255 - j * step,
            0,
        )),
    decreases j,
{
    lemma_half_cycle(step);
    let n = half_cycle(step);
    if j == 0 {
        lemma_rising(step, n as nat);
        assert(j * step == 0);
        assert((n + j) as nat == n as nat);
    } else {
        lemma_falling(step, (j - 1) as nat);
        let jm = (j - 1) as int;
        assert(jm * step < 255) by (nonlinear_arith)
            requires
                jm < n,
                (n - 1) * step < 255,
                step > 0,
        ;
        assert(jm * step + step == j * step) by (nonlinear_arith)
            requires
                jm == j - 1,
        ;
        assert(j * step >= 255 <==> j >= n) by (nonlinear_arith)
            requires
                n * step >= 255,
                (n - 1) * step < 255,
                step > 0,
        ;
        assert((n + j) as nat - 1 == (n + jm) as nat);
        assert(breath_after(step, (n + j) as nat) == breath_step(breath_after(step, (n + jm) as nat), step));
    }
}

/// The pulse, started at 0 with a positive step, is a triangle wave: for the
/// first `ceil(255 / step)` ticks it rises (value `min(k * step, 255)`) and turns
/// to falling exactly in the tick that reaches 255; for as many ticks more it falls
/// (value `max(255 - j * step, 0)`) and turns to rising exactly in the tick that
/// reaches 0. After `2 * ceil(255 / step)` ticks it is back at its start state, and
/// its value stays within `0..=255` throughout.
pub proof fn lemma_breathing_cycle(step: int)
    requires
        0 < step <= 255,
    ensures
        forall|k: nat|
            k <= half_cycle(step) ==> #[trigger] breath_after(step, k) == (
                k < half_cycle(step),
                vstd::math::min(k * step, 255),
            ),
        forall|j: nat|
            j <= half_cycle(step) ==> #[trigger] breath_after(step, (half_cycle(step) + j) as nat)
                == (j == half_cycle(step), vstd::math::max(255 - j * step, 0)),
        breath_after(step, (2 * half_cycle(step)) as nat) == (true, 0int),
        forall|k: nat|
            k <= 2 * half_cycle(step) ==> 0 <= #[trigger] breath_after(step, k).1 <= 255,
{
    lemma_half_cycle(step);
    let n = half_cycle(step);
    assert forall|k: nat| k <= n implies #[trigger] breath_after(step, k) == (
        k < n,
        vstd::math::min(k * step, 255),
    ) by {
        lemma_rising(step, k);
    }
    assert forall|j: nat| j <= n implies #[trigger] breath_after(step, (n + j) as nat) == (
        j == n,
        vstd::math::max(255 - j * step, 0),
    ) by {
        lemma_falling(step, j);
    }
    lemma_falling(step, n as nat);
    assert(n * step >= 255);
    assert((2 * n) as nat == (n + n) as nat);
    assert forall|k: nat| k <= 2 * n implies 0 <= #[trigger] breath_after(step, k).1 <= 255 by {
        if k <= n {
            lemma_rising(step, k);
            assert(k * step >= 0) by (nonlinear_arith)
                requires
                    step > 0,
            ;
        } else {
            let j = (k - n) as nat;
            lemma_falling(step, j);
            assert((n + j) as nat == k);
            assert(j * step >= 0) by (nonlinear_arith)
                requires
                    step > 0,
            ;
        }
    }
}

} // verus!
