//! Orientation angles, held in tenths of a degree, and their conversion to
//! the protocol's single-byte 0..=255 encoding.

use vstd::prelude::*;

use vstd::arithmetic::div_mod::lemma_fundamental_div_mod_converse;

verus! {

/// An angle in tenths of a degree, normalized into `[0, 3600)`.
pub open spec fn norm_tenths(t: int) -> int {
    ((t % 3600) + 3600) % 3600
}

/// The protocol byte for an angle: the normalized angle scaled by 256/360,
/// rounded down.
pub open spec fn angle_byte_spec(t: int) -> int {
    norm_tenths(t) * 256 / 3600
}

/// The byte encoding never exceeds 255.
pub proof fn lemma_angle_byte_range(t: int)
    ensures
        0 <= angle_byte_spec(t) <= 255,
{
    let n = norm_tenths(t);
    assert(0 <= n < 3600);
    assert(n * 256 <= 3599 * 256) by (nonlinear_arith)
        requires
            n <= 3599,
    ;
    assert(n * 256 >= 0) by (nonlinear_arith)
        requires
            n >= 0,
    ;
}

/// Adding a full turn does not change the encoded byte.
pub proof fn lemma_angle_byte_periodic(t: int)
    ensures
        angle_byte_spec(t + 3600) == angle_byte_spec(t),
{
    assert((t + 3600) % 3600 == t % 3600) by {
        vstd::arithmetic::div_mod::lemma_mod_add_multiples_vanish(t, 3600);
    }
}

/// The protocol byte for an angle given in tenths of a degree.
pub fn angle_byte(t: i32) -> (b: u8)
    ensures
        b as int == angle_byte_spec(t as int),
{
    let n: i32 = if t >= 0 {
        let m = t % 3600;
        proof {
            assert(((t as int) % 3600 + 3600) % 3600 == (t as int) % 3600);
        }
        m
    } else {
        let neg: i64 = -(t as i64);
        let p: i64 = neg % 3600;
        let q: i64 = neg / 3600;
        if p == 0 {
            proof {
                assert(t as int == 3600 * (-(q as int)) + 0);
                lemma_fundamental_div_mod_converse(t as int, 3600, -(q as int), 0);
                assert((t as int) % 3600 == 0);
            }
            0
        } else {
            let r: i64 = 3600 - p;
            proof {
                assert(neg as int == 3600 * (q as int) + (p as int));
                assert(t as int == 3600 * (-(q as int) - 1) + (r as int));
                lemma_fundamental_div_mod_converse(t as int, 3600, -(q as int) - 1, r as int);
                assert((t as int) % 3600 == r as int);
            }
            r as i32
        }
    };
    proof {
        assert(0 <= n < 3600);
        assert(n as int == norm_tenths(t as int));
        lemma_angle_byte_range(t as int);
        assert((n as int) * 256 == n * 256);
    }
    let scaled: i32 = n * 256;
    let b: i32 = scaled / 3600;
    b as u8
}

} // verus!
