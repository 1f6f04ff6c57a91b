//! Fixed-point arithmetic for the physics core.
//!
//! Distances are held in thousandths of a pixel and times in microseconds,
//! so every kinematic quantity is an exact integer and the whole integrator
//! can be reasoned about without rounding ambiguity.

use vstd::prelude::*;

verus! {

use vstd::arithmetic::div_mod::{lemma_fundamental_div_mod, lemma_fundamental_div_mod_converse};

/// Thousandths of a pixel per pixel.
pub const MILLIS_PER_PIXEL: i64 = 1000;

/// Microseconds per second.
pub const MICROS_PER_SECOND: i64 = 1_000_000;

/// Floor division on wide integers, for a positive divisor.
///
/// Spec-level `/` on `int` is Euclidean division, which for a positive
/// divisor coincides with floor division; Rust's `/` on signed integers
/// truncates towards zero instead, so the negative case is spelled out.
pub fn floor_div(n: i128, d: i128) -> (q: i128)
    requires
        0 < d,
        -0x7fff_ffff_ffff_ffff_ffff_ffff_ffff_ffff <= n,
    ensures
        q == n as int / d as int,
{
    if n >= 0 {
        let nu = n as u128;
        let du = d as u128;
        let qu = nu / du;
        proof {
            assert(qu <= nu);
        }
        qu as i128
    } else {
        let m = (-n) as u128;
        let du = d as u128;
        let mq = m / du;
        let mr = m % du;
        proof {
            lemma_fundamental_div_mod(m as int, d as int);
            assert(mq <= m);
        }
        if mr == 0 {
            let q = -(mq as i128);
            proof {
                assert(n as int == (-(mq as int)) * (d as int) + 0) by (nonlinear_arith)
                    requires
                        m as int == d as int * (mq as int) + (mr as int),
                        mr == 0,
                        n as int == -(m as int),
                ;
                lemma_fundamental_div_mod_converse(n as int, d as int, -(mq as int), 0);
            }
            q
        } else {
            let q = -(mq as i128) - 1;
            proof {
                assert(n as int == (-(mq as int) - 1) * (d as int) + (d as int - mr as int))
                    by (nonlinear_arith)
                    requires
                        m as int == d as int * (mq as int) + (mr as int),
                        n as int == -(m as int),
                ;
                assert(0 <= (d as int - mr as int) && (d as int - mr as int) < d as int);
                lemma_fundamental_div_mod_converse(
                    n as int,
                    d as int,
                    -(mq as int) - 1,
                    d as int - mr as int,
                );
            }
            q
        }
    }
}

} // verus!
