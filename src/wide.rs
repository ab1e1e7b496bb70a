//! Multiply-then-divide on 128-bit balances through a 256-bit intermediate.
use vstd::arithmetic::div_mod::{
    lemma_div_denominator, lemma_div_is_ordered, lemma_fundamental_div_mod,
    lemma_fundamental_div_mod_converse,
};
use vstd::prelude::*;

verus! {

/// 2^128, the weight of the high limb.
pub open spec fn limb() -> int {
    u128::MAX as int + 1
}

/// Largest value a `Wide` may hold when used as a divisor.
pub open spec fn divisor_bound() -> int {
    limb() * 0x1_0000_0000_0000_0000
}

/// Floor of `x * y / z`.
pub open spec fn muldiv(x: int, y: int, z: int) -> int {
    x * y / z
}

/// `Some(v)` when `v` fits in 128 bits, `None` otherwise.
pub open spec fn fit(v: int) -> Option<u128> {
    if 0 <= v <= u128::MAX {
        Some(v as u128)
    } else {
        None
    }
}

/// An unsigned integer of two 128-bit limbs.
#[derive(Clone, Copy, Debug)]
pub struct Wide {
    pub hi: u128,
    pub lo: u128,
}

impl Wide {
    pub open spec fn value(self) -> int {
        self.hi as int * limb() + self.lo as int
    }

    pub fn from_u128(x: u128) -> (r: Wide)
        ensures
            r.value() == x,
    {
        Wide { hi: 0, lo: x }
    }

    pub fn add(self, o: Wide) -> (r: Wide)
        requires
            self.value() + o.value() < limb() * limb(),
        ensures
            r.value() == self.value() + o.value(),
    {
        let ghost l = limb();
        let ghost (h1, l1, h2, l2) = (self.hi as int, self.lo as int, o.hi as int, o.lo as int);
        proof {
            assert((h1 + h2) * l == h1 * l + h2 * l) by (nonlinear_arith);
            assert((h1 + h2 + 1) * l == h1 * l + h2 * l + l) by (nonlinear_arith);
            assert(h1 + h2 < l) by (nonlinear_arith)
                requires (h1 + h2) * l <= h1 * l + h2 * l + l1 + l2, h1 * l + l1 + h2 * l + l2 < l * l,
                    l > 0, l1 >= 0, l2 >= 0;
            if l1 + l2 >= l {
                assert(h1 + h2 + 1 < l) by (nonlinear_arith)
                    requires (h1 + h2 + 1) * l <= h1 * l + h2 * l + l1 + l2, h1 * l + l1 + h2 * l + l2 < l * l,
                        l > 0;
            }
        }
        if self.lo <= u128::MAX - o.lo {
            Wide { hi: self.hi + o.hi, lo: self.lo + o.lo }
        } else {
            Wide { hi: self.hi + o.hi + 1, lo: self.lo - (u128::MAX - o.lo) - 1 }
        }
    }

    pub fn sub(self, o: Wide) -> (r: Wide)
        requires
            self.value() >= o.value(),
        ensures
            r.value() == self.value() - o.value(),
    {
        proof {
            lemma_cmp(self, o);
            let l = limb();
            let (h1, h2) = (self.hi as int, o.hi as int);
            assert((h1 - h2) * l == h1 * l - h2 * l) by (nonlinear_arith);
            assert((h1 - h2 - 1) * l == h1 * l - h2 * l - l) by (nonlinear_arith);
        }
        if self.lo >= o.lo {
            Wide { hi: self.hi - o.hi, lo: self.lo - o.lo }
        } else {
            Wide { hi: self.hi - o.hi - 1, lo: u128::MAX - (o.lo - self.lo) + 1 }
        }
    }

    pub fn ge(&self, o: &Wide) -> (r: bool)
        ensures
            r == (self.value() >= o.value()),
    {
        proof {
            lemma_cmp(*self, *o);
        }
        self.hi > o.hi || (self.hi == o.hi && self.lo >= o.lo)
    }

    /// `x * k` for a small factor `k`.
    pub fn mul_small(x: u128, k: u128) -> (r: Wide)
        requires
            k <= 1000,
        ensures
            r.value() == x * k,
    {
        let mut acc = Wide { hi: 0, lo: 0 };
        let mut i: u128 = 0;
        while i < k
            invariant
                i <= k,
                k <= 1000,
                acc.value() == x * i,
            decreases k - i,
        {
            proof {
                assert(x * (i + 1) == x * i + x) by (nonlinear_arith);
                assert(x * (i + 1) <= x * 1000) by (nonlinear_arith)
                    requires i + 1 <= 1000, x >= 0;
            }
            acc = acc.add(Wide::from_u128(x));
            i = i + 1;
        }
        acc
    }
}

proof fn lemma_cmp(a: Wide, b: Wide)
    ensures
        a.hi > b.hi ==> a.value() > b.value(),
        a.hi < b.hi ==> a.value() < b.value(),
        a.hi == b.hi ==> (a.value() >= b.value() <==> a.lo >= b.lo),
{
    let l = limb();
    let (ah, al, bh, bl) = (a.hi as int, a.lo as int, b.hi as int, b.lo as int);
    assert(ah > bh ==> ah * l + al > bh * l + bl) by (nonlinear_arith)
        requires l > al >= 0, l > bl >= 0;
    assert(ah < bh ==> ah * l + al < bh * l + bl) by (nonlinear_arith)
        requires l > al >= 0, l > bl >= 0;
}

proof fn lemma_halve_pow(p: u128)
    requires
        p >= 2,
        p & ((p - 1) as u128) == 0,
    ensures
        (p / 2) * 2 == p,
        (p / 2) & (((p / 2) - 1) as u128) == 0,
{
    assert((p / 2) * 2 == p) by (bit_vector)
        requires p >= 2, p & ((p - 1) as u128) == 0;
    assert((p / 2) & (((p / 2) - 1) as u128) == 0) by (bit_vector)
        requires p >= 2, p & ((p - 1) as u128) == 0;
}

proof fn lemma_next_prefix(x: int, pow: int)
    requires
        x >= 0,
        pow > 0,
    ensures
        x / pow == 2 * (x / (2 * pow)) + (x / pow) % 2,
{
    lemma_div_denominator(x, pow, 2);
    assert(pow * 2 == 2 * pow);
    lemma_fundamental_div_mod(x / pow, 2);
}

/// `floor(x * y / z)` where `y < z`, or `None` when it exceeds `u128::MAX`.
pub fn mul_div_wide(x: u128, y: Wide, z: Wide) -> (r: Option<u128>)
    requires
        y.value() < z.value(),
        z.value() <= divisor_bound(),
    ensures
        r == fit(muldiv(x as int, y.value(), z.value())),
{
    let mut pow: u128 = 0x8000_0000_0000_0000_0000_0000_0000_0000;
    let mut q: u128 = 0;
    let mut r = Wide { hi: 0, lo: 0 };
    let ghost mut p: int = 0;
    let ghost yv = y.value();
    let ghost zv = z.value();
    assert(pow & ((pow - 1) as u128) == 0) by (bit_vector)
        requires pow == 0x8000_0000_0000_0000_0000_0000_0000_0000u128;
    assert(x as int / (2 * pow as int) == 0);
    while pow > 0
        invariant
            pow > 0 ==> p == x as int / (2 * pow as int),
            pow > 0 ==> pow & ((pow - 1) as u128) == 0,
            pow == 0 ==> p == x,
            0 <= p <= x,
            p * yv == q * zv + r.value(),
            0 <= r.value() < zv,
            yv == y.value(),
            zv == z.value(),
            0 <= yv < zv,
            zv <= divisor_bound(),
        decreases pow,
    {
        let bit = (x / pow) % 2;
        proof {
            lemma_next_prefix(x as int, pow as int);
            assert(x / pow <= x) by (nonlinear_arith)
                requires pow >= 1, x >= 0;
        }
        let mut nr = r.add(r);
        if bit == 1 {
            nr = nr.add(y);
        }
        let ghost by: int = if bit == 1 { yv } else { 0 };
        let mut c: u128 = 0;
        let ghost mut cz: int = 0;
        if nr.ge(&z) {
            nr = nr.sub(z);
            c = 1;
            proof {
                cz = zv;
            }
        }
        if nr.ge(&z) {
            nr = nr.sub(z);
            c = 2;
            proof {
                cz = 2 * zv;
            }
        }
        proof {
            assert(bit * yv == by) by (nonlinear_arith)
                requires (bit == 1 && by == yv) || (bit == 0 && by == 0);
            assert(c * zv == cz) by (nonlinear_arith)
                requires (c == 0 && cz == 0) || (c == 1 && cz == zv) || (c == 2 && cz == 2 * zv);
        }
        let ghost np: int = 2 * p + bit;
        proof {
            assert(np * yv == 2 * (p * yv) + bit * yv) by (nonlinear_arith)
                requires np == 2 * p + bit;
            assert(np * yv == (2 * q + c) * zv + nr.value()) by (nonlinear_arith)
                requires
                    np * yv == 2 * (p * yv) + bit * yv,
                    p * yv == q * zv + r.value(),
                    nr.value() + c * zv == 2 * r.value() + bit * yv,
            ;
        }
        if q > (u128::MAX - c) / 2 {
            proof {
                lemma_fundamental_div_mod_converse(np * yv, zv, 2 * q + c, nr.value());
                assert(np * yv <= x * yv) by (nonlinear_arith)
                    requires np <= x, yv >= 0;
                lemma_div_is_ordered(np * yv, x * yv, zv);
            }
            return None;
        }
        q = 2 * q + c;
        r = nr;
        proof {
            p = np;
        }
        if pow == 1 {
            assert(x as int / 1 == x);
            pow = 0;
        } else {
            proof {
                lemma_halve_pow(pow);
            }
            pow = pow / 2;
        }
    }
    proof {
        lemma_fundamental_div_mod_converse(x * yv, zv, q as int, r.value());
    }
    Some(q)
}

/// `floor(x * y / z)`, or `None` when the quotient exceeds `u128::MAX`.
pub fn mul_div(x: u128, y: u128, z: u128) -> (r: Option<u128>)
    requires
        z > 0,
    ensures
        r == fit(muldiv(x as int, y as int, z as int)),
{
    let qy = y / z;
    let ry = y % z;
    let ghost total: int = x * qy + (x * ry) / (z as int);
    proof {
        lemma_fundamental_div_mod(y as int, z as int);
        lemma_fundamental_div_mod(x * ry, z as int);
        assert(x * y == (x * qy + (x * ry) / (z as int)) * z + (x * ry) % (z as int))
            by (nonlinear_arith)
            requires
                y == z * qy + ry,
                x * ry == z * ((x * ry) / (z as int)) + (x * ry) % (z as int),
        ;
        lemma_fundamental_div_mod_converse(x * y, z as int, total, (x * ry) % (z as int));
        assert(0 <= (x * ry) / (z as int)) by (nonlinear_arith)
            requires x >= 0, ry >= 0, z > 0;
        assert(x * qy >= 0) by (nonlinear_arith)
            requires x >= 0, qy >= 0;
    }
    let base = match x.checked_mul(qy) {
        Some(b) => b,
        None => {
            return None;
        },
    };
    let rest = match mul_div_wide(x, Wide::from_u128(ry), Wide::from_u128(z)) {
        Some(v) => v,
        None => {
            return None;
        },
    };
    base.checked_add(rest)
}

} // verus!
