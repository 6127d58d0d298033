//! Decimal rendering of counters, right-justified in a fixed-width field.

use vstd::prelude::*;
use vstd::arithmetic::div_mod::{lemma_div_is_strictly_smaller, lemma_fundamental_div_mod};

verus! {

/// The decimal digit bytes of `n`, most significant first, no padding.
pub open spec fn dec_rep(n: nat) -> Seq<u8>
    decreases n,
    via dec_rep_decreases
{
    if n < 10 {
        seq![(48 + n) as u8]
    } else {
        dec_rep(n / 10).push((48 + n % 10) as u8)
    }
}

#[via_fn]
proof fn dec_rep_decreases(n: nat) {
    if n >= 10 {
        lemma_div_is_strictly_smaller(n as int, 10);
    }
}

/// `k` space bytes.
pub open spec fn spaces(k: nat) -> Seq<u8> {
    Seq::new(k, |i: int| 32u8)
}

/// `d` padded on the left with spaces to at least `w` bytes.
pub open spec fn pad_left(d: Seq<u8>, w: nat) -> Seq<u8> {
    if d.len() >= w {
        d
    } else {
        spaces((w - d.len()) as nat) + d
    }
}

/// The decimal digits of `n`, right-justified in a field of width `w`.
pub open spec fn spec_padded(n: nat, w: nat) -> Seq<u8> {
    pad_left(dec_rep(n), w)
}

/// Render the decimal digits of `n`.
pub fn dec_digits(n: u128) -> (digits: Vec<u8>)
    ensures
        digits@ == dec_rep(n as nat),
        digits@.len() >= 1,
    decreases n,
{
    if n < 10 {
        let mut v: Vec<u8> = Vec::new();
        v.push(48 + n as u8);
        proof {
            assert(v@ =~= seq![(48 + n as nat) as u8]);
        }
        v
    } else {
        proof {
            lemma_div_is_strictly_smaller(n as int, 10);
        }
        let mut v = dec_digits(n / 10);
        v.push(48 + (n % 10) as u8);
        v
    }
}

/// A vector of `k` space bytes.
pub fn spaces_vec(k: usize) -> (v: Vec<u8>)
    ensures
        v@ == spaces(k as nat),
{
    let mut v: Vec<u8> = Vec::new();
    let mut i: usize = 0;
    while i < k
        invariant
            i <= k,
            v@.len() == i,
            forall|j: int| 0 <= j < i ==> v@[j] == 32u8,
        decreases k - i,
    {
        v.push(32);
        i = i + 1;
    }
    proof {
        assert(v@ =~= spaces(k as nat));
    }
    v
}

/// Render `n` right-justified in a field of `width` bytes.
pub fn padded_dec(n: u128, width: usize) -> (r: Vec<u8>)
    ensures
        r@ == spec_padded(n as nat, width as nat),
{
    let digits = dec_digits(n);
    if digits.len() >= width {
        digits
    } else {
        let pad: usize = width - digits.len();
        let mut r: Vec<u8> = Vec::new();
        let mut i: usize = 0;
        while i < pad
            invariant
                i <= pad,
                r@.len() == i,
                forall|j: int| 0 <= j < i ==> r@[j] == 32u8,
            decreases pad - i,
        {
            r.push(32);
            i = i + 1;
        }
        proof {
            assert(r@ =~= spaces(pad as nat));
        }
        let ghost sp = r@;
        crate::text::push_all(&mut r, &digits);
        proof {
            assert(r@ == sp + digits@);
        }
        r
    }
}

} // verus!
