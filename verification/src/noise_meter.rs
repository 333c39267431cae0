//! The shared noise meter: how close the player is to being detected, the
//! shield currently soaking up incoming noise, and how hard the construct
//! being faced resists the player pulling noise back down.

use vstd::prelude::*;

verus! {

/// `value` held to `low..=high`.
pub open spec fn clamp_int(value: int, low: int, high: int) -> int {
    if value < low {
        low
    } else if value > high {
        high
    } else {
        value
    }
}

/// `numerator / denominator` rounded towards zero, the way integer division
/// behaves in executable code (spec `/` rounds towards negative infinity).
pub open spec fn div_towards_zero(numerator: int, denominator: int) -> int {
    if numerator >= 0 {
        numerator / denominator
    } else {
        -((-numerator) / denominator)
    }
}

/// What a change of `amount` is worth once detection resistance of `percent`
/// has had its say: only a reduction is blunted, and it is rounded towards
/// zero so it can shrink to nothing but never change sign.
pub open spec fn resisted_amount(amount: int, percent: int) -> int {
    if amount >= 0 || percent <= 0 {
        amount
    } else {
        div_towards_zero(amount * (100 - percent), 100)
    }
}

/// Noise after applying `amount` to a meter holding `noise` under `shield`,
/// capped at `max_noise` and resisting recovery by `percent`, and the shield
/// left behind, as a pair. Shield absorbs as much of a rise as it covers
/// first; a fall is never blocked by shield, only blunted by resistance.
pub open spec fn noise_added(noise: int, shield: int, max_noise: int, percent: int, amount: int) -> (int, int) {
    if amount > 0 {
        let blocked = if amount < shield { amount } else { shield };
        (clamp_int(noise + (amount - blocked), 0, max_noise), shield - blocked)
    } else {
        (clamp_int(noise + resisted_amount(amount, percent), 0, max_noise), shield)
    }
}

/// Noise plus the shield currently protecting it. Shield absorbs positive
/// noise before any of it reaches the meter; a reduction is never blocked by
/// shield, only blunted by detection resistance.
#[derive(Debug, Clone, Copy, PartialEq, Eq)]
pub struct NoiseLevel {
    noise: i32,
    max_noise: i32,
    resistance_percent: i32,
    shield: i32,
}

impl NoiseLevel {
    #[verifier::type_invariant]
    spec fn level_invariant(self) -> bool {
        &&& 0 <= self.max_noise
        &&& 0 <= self.noise <= self.max_noise
        &&& 0 <= self.resistance_percent <= 100
        &&& 0 <= self.shield
    }

    pub closed spec fn spec_noise(&self) -> int {
        self.noise as int
    }

    pub closed spec fn spec_max_noise(&self) -> int {
        self.max_noise as int
    }

    pub closed spec fn spec_resistance_percent(&self) -> int {
        self.resistance_percent as int
    }

    pub closed spec fn spec_shield(&self) -> int {
        self.shield as int
    }

    /// Noise after applying `amount` to this meter, and the shield left
    /// behind, as a pair.
    pub open spec fn after_add(&self, amount: int) -> (int, int) {
        noise_added(
            self.spec_noise(),
            self.spec_shield(),
            self.spec_max_noise(),
            self.spec_resistance_percent(),
            amount,
        )
    }

    /// A silent meter capped at `max_noise`, held at zero or above.
    pub fn new(max_noise: i32) -> (level: Self)
        ensures
            level.spec_noise() == 0,
            level.spec_max_noise() == if max_noise < 0 { 0 } else { max_noise as int },
            level.spec_resistance_percent() == 0,
            level.spec_shield() == 0,
    {
        let max_noise = if max_noise < 0 { 0 } else { max_noise };
        NoiseLevel { noise: 0, max_noise, resistance_percent: 0, shield: 0 }
    }

    pub fn noise(&self) -> (noise: i32)
        ensures
            noise == self.spec_noise(),
            0 <= noise <= self.spec_max_noise(),
    {
        proof { use_type_invariant(self); }
        self.noise
    }

    pub fn max_noise(&self) -> (max_noise: i32)
        ensures
            max_noise == self.spec_max_noise(),
            max_noise >= 0,
    {
        proof { use_type_invariant(self); }
        self.max_noise
    }

    pub fn resistance_percent(&self) -> (percent: i32)
        ensures
            percent == self.spec_resistance_percent(),
            0 <= percent <= 100,
    {
        proof { use_type_invariant(self); }
        self.resistance_percent
    }

    /// Sets how hard recovery is resisted, clamped to `0..=100`.
    pub fn set_resistance_percent(&mut self, percent: i32)
        ensures
            final(self).spec_resistance_percent() == clamp_int(percent as int, 0, 100),
            final(self).spec_noise() == old(self).spec_noise(),
            final(self).spec_max_noise() == old(self).spec_max_noise(),
            final(self).spec_shield() == old(self).spec_shield(),
    {
        proof { use_type_invariant(&*self); }
        let clamped = if percent < 0 {
            0
        } else if percent > 100 {
            100
        } else {
            percent
        };
        self.resistance_percent = clamped;
    }

    /// The reduction that actually lands once resistance is applied, worked
    /// out in `i64` so that neither the product nor the sign can go wrong.
    fn resisted(&self, amount: i32) -> (kept: i32)
        ensures
            kept == resisted_amount(amount as int, self.spec_resistance_percent()),
    {
        proof { use_type_invariant(self); }
        if amount >= 0 || self.resistance_percent <= 0 {
            return amount;
        }
        let kept_percent: i64 = 100 - self.resistance_percent as i64;
        let wide: i64 = amount as i64;
        assert(i32::MIN * 100 <= wide * kept_percent <= 0) by (nonlinear_arith)
            requires
                i32::MIN <= wide < 0,
                0 <= kept_percent <= 100,
        ;
        let product: i64 = wide * kept_percent;
        let quotient: i64 = product / 100;
        proof {
            let n = product as int;
            assert(quotient as int == div_towards_zero(n, 100)) by (nonlinear_arith)
                requires
                    n <= 0,
                    quotient as int == if n >= 0 { n / 100 } else { -((-n) / 100) },
            ;
        }
        quotient as i32
    }

    pub fn shield(&self) -> (shield: i32)
        ensures
            shield == self.spec_shield(),
            shield >= 0,
    {
        proof { use_type_invariant(self); }
        self.shield
    }

    /// Applies `amount` to noise, first spending shield to absorb as much of
    /// a positive `amount` as it can cover. Returns the actual signed change
    /// to noise itself, not counting what shield absorbed.
    pub fn add(&mut self, amount: i32) -> (change: i32)
        ensures
            final(self).spec_noise() == old(self).after_add(amount as int).0,
            final(self).spec_shield() == old(self).after_add(amount as int).1,
            final(self).spec_max_noise() == old(self).spec_max_noise(),
            final(self).spec_resistance_percent() == old(self).spec_resistance_percent(),
            change == final(self).spec_noise() - old(self).spec_noise(),
            0 <= final(self).spec_noise() <= final(self).spec_max_noise(),
            final(self).spec_shield() >= 0,
    {
        proof { use_type_invariant(&*self); }
        let before = self.noise;
        if amount > 0 {
            let blocked = if amount < self.shield { amount } else { self.shield };
            self.shield = self.shield - blocked;
            let remaining = amount - blocked;
            self.noise = clamped_sum(self.noise, remaining, self.max_noise);
        } else {
            let kept = self.resisted(amount);
            self.noise = clamped_sum(self.noise, kept, self.max_noise);
        }
        self.noise - before
    }

    /// Adds shield, e.g. from a played Block card. Shield has no cap of its
    /// own but never goes negative. Returns the actual amount added.
    pub fn add_shield(&mut self, amount: i32) -> (added: i32)
        ensures
            final(self).spec_shield() == clamp_int(
                old(self).spec_shield() + amount,
                0,
                i32::MAX as int,
            ),
            added == final(self).spec_shield() - old(self).spec_shield(),
            final(self).spec_noise() == old(self).spec_noise(),
            final(self).spec_max_noise() == old(self).spec_max_noise(),
            final(self).spec_resistance_percent() == old(self).spec_resistance_percent(),
    {
        proof { use_type_invariant(&*self); }
        let before = self.shield;
        let sum: i64 = self.shield as i64 + amount as i64;
        let new_shield: i32 = if sum < 0 {
            0
        } else if sum > i32::MAX as i64 {
            i32::MAX
        } else {
            sum as i32
        };
        self.shield = new_shield;
        self.shield - before
    }

    /// Wipes any shield left at the end of a turn. Returns how much was
    /// cleared.
    pub fn clear_shield(&mut self) -> (cleared: i32)
        ensures
            cleared == old(self).spec_shield(),
            final(self).spec_shield() == 0,
            final(self).spec_noise() == old(self).spec_noise(),
            final(self).spec_max_noise() == old(self).spec_max_noise(),
            final(self).spec_resistance_percent() == old(self).spec_resistance_percent(),
    {
        proof { use_type_invariant(&*self); }
        let cleared = self.shield;
        self.shield = 0;
        cleared
    }

    /// Detected: the meter has reached its cap.
    pub fn is_at_cap(&self) -> (at_cap: bool)
        ensures
            at_cap == (self.spec_noise() >= self.spec_max_noise()),
    {
        self.noise >= self.max_noise
    }
}

/// `base + amount` held to `0..=cap`, computed without overflow.
fn clamped_sum(base: i32, amount: i32, cap: i32) -> (sum: i32)
    requires
        0 <= cap,
    ensures
        sum == clamp_int(base + amount, 0, cap as int),
{
    let wide: i64 = base as i64 + amount as i64;
    if wide < 0 {
        0
    } else if wide > cap as i64 {
        cap
    } else {
        wide as i32
    }
}

/// Resistance only ever shrinks a recovery towards nothing: it never turns
/// it into a rise, and never makes it larger.
pub proof fn law_resistance_only_blunts(amount: int, percent: int)
    requires
        0 <= percent <= 100,
    ensures
        amount <= 0 ==> amount <= resisted_amount(amount, percent) <= 0,
        amount >= 0 ==> resisted_amount(amount, percent) == amount,
        percent == 0 ==> resisted_amount(amount, percent) == amount,
        percent == 100 && amount <= 0 ==> resisted_amount(amount, percent) == 0,
{
    if amount < 0 && percent > 0 {
        let product = amount * (100 - percent);
        assert(amount * 100 <= product <= 0) by (nonlinear_arith)
            requires
                amount < 0,
                0 < percent <= 100,
                product == amount * (100 - percent),
        ;
        assert(amount <= -((-product) / 100) <= 0) by (nonlinear_arith)
            requires
                amount * 100 <= product <= 0,
        ;
        if percent == 100 {
            assert(product == 0) by (nonlinear_arith)
                requires
                    product == amount * (100 - percent),
                    percent == 100,
            ;
        }
    }
}

/// Whatever is added, the meter stays in range: noise within `0..=max`,
/// shield never negative and never growing; a rise never lowers the meter, a
/// fall never raises it and never spends shield.
pub proof fn law_the_meter_stays_in_range(noise: int, shield: int, max_noise: int, percent: int, amount: int)
    requires
        0 <= noise <= max_noise,
        0 <= shield,
        0 <= percent <= 100,
    ensures
        0 <= noise_added(noise, shield, max_noise, percent, amount).0 <= max_noise,
        0 <= noise_added(noise, shield, max_noise, percent, amount).1 <= shield,
        amount >= 0 ==> noise_added(noise, shield, max_noise, percent, amount).0 >= noise,
        amount <= 0 ==> noise_added(noise, shield, max_noise, percent, amount).0 <= noise,
        amount <= 0 ==> noise_added(noise, shield, max_noise, percent, amount).1 == shield,
        amount > 0 ==> noise_added(noise, shield, max_noise, percent, amount).0 - noise + (shield
            - noise_added(noise, shield, max_noise, percent, amount).1) <= amount,
{
    law_resistance_only_blunts(amount, percent);
}

} // verus!
