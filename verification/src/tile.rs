//! Tile codec: the face value printed on a tile and the small code stored
//! for it in a cell of the board.

use vstd::prelude::*;
use vstd::arithmetic::power2::{
    lemma2_to64, lemma_pow2_pos, lemma_pow2_strictly_increases, pow2,
};
use vstd::bits::lemma_u32_shl_is_mul;
use vstd::std_specs::bits::{axiom_u32_trailing_zeros, u32_trailing_zeros};

verus! {

/// Largest code whose face value still fits in a `u32`.
pub const MAX_FACE_CODE: u64 = 33;

/// The face value of the tile stored as `code`: codes 0, 1 and 2 stand for
/// empty, 1 and 2; every later code doubles the one before it, from 3 on.
pub open spec fn face_of(code: nat) -> nat {
    if code < 3 {
        code
    } else {
        3 * pow2((code - 3) as nat)
    }
}

/// `v` is empty, 1, 2, or 3 doubled some number of times.
pub open spec fn is_face_value(v: nat) -> bool {
    exists|code: nat| face_of(code) == v
}

/// The code that stands for face value `v`.
pub open spec fn code_of(v: nat) -> nat {
    choose|code: nat| face_of(code) == v
}

/// A value that no tile can show.
#[derive(Clone, Copy, Debug, PartialEq, Eq, Structural)]
pub struct NotAFaceValue {
    /// The value that was refused.
    pub value: u32,
}

/// Larger codes show larger faces.
pub proof fn lemma_face_of_increases(a: nat, b: nat)
    requires
        a < b,
    ensures
        face_of(a) < face_of(b),
{
    lemma2_to64();
    if b >= 3 {
        lemma_pow2_pos((b - 3) as nat);
        if a >= 3 {
            lemma_pow2_strictly_increases((a - 3) as nat, (b - 3) as nat);
        }
    }
}

/// Two codes with the same face are the same code.
pub proof fn lemma_face_of_injective(a: nat, b: nat)
    requires
        face_of(a) == face_of(b),
    ensures
        a == b,
{
    if a < b {
        lemma_face_of_increases(a, b);
    }
    if b < a {
        lemma_face_of_increases(b, a);
    }
}

/// Decoding the code of a face value gives the face value back.
pub proof fn lemma_face_of_code_of(v: nat)
    requires
        is_face_value(v),
    ensures
        face_of(code_of(v)) == v,
{
}

/// Encoding the face of a code gives the code back.
pub proof fn lemma_code_of_face_of(code: nat)
    ensures
        is_face_value(face_of(code)),
        code_of(face_of(code)) == code,
{
    lemma_face_of_injective(code_of(face_of(code)), code);
}

/// A face that fits in a `u32` has a code of at most `MAX_FACE_CODE`.
pub proof fn lemma_code_of_bounded(code: nat)
    requires
        face_of(code) <= u32::MAX,
    ensures
        code <= MAX_FACE_CODE,
{
    if code > 33 {
        lemma2_to64();
        if code > 34 {
            lemma_face_of_increases(34, code);
        }
    }
}

proof fn lemma_trailing_zeros_of_bit(k: u32)
    requires
        k < 32,
    ensures
        u32_trailing_zeros(1u32 << k) == k,
{
    let i: u32 = 1u32 << k;
    let t: u32 = u32_trailing_zeros(i);
    axiom_u32_trailing_zeros(i);
    assert(i != 0) by (bit_vector)
        requires
            i == 1u32 << k,
            k < 32,
    ;
    assert(t == k) by (bit_vector)
        requires
            i == 1u32 << k,
            k < 32,
            t < 32,
            (i >> t) & 1u32 == 1u32,
    ;
}

/// The face value of the tile stored as `bit`.
pub fn bit_to_num(bit: u64) -> (num: u32)
    requires
        bit <= MAX_FACE_CODE,
    ensures
        num == face_of(bit as nat),
{
    if bit < 3 {
        bit as u32
    } else {
        let k: u32 = (bit - 3) as u32;
        proof {
            lemma2_to64();
            lemma_pow2_pos(k as nat);
            if k < 30 {
                lemma_pow2_strictly_increases(k as nat, 30);
            }
            lemma_u32_shl_is_mul(1u32, k);
        }
        (1u32 << k) * 3
    }
}

/// The code, as `Ok`, of a face value; `Err` for a value that no tile shows.
pub fn checked_num_to_bit(num: u32) -> (r: Result<u64, NotAFaceValue>)
    ensures
        is_face_value(num as nat) ==> r == Ok::<u64, NotAFaceValue>(code_of(num as nat) as u64)
            && code_of(num as nat) <= MAX_FACE_CODE,
        !is_face_value(num as nat) ==> r == Err::<u64, NotAFaceValue>(NotAFaceValue { value: num }),
{
    if num < 3 {
        proof {
            assert(face_of(num as nat) == num);
            lemma_code_of_face_of(num as nat);
        }
        return Ok(num as u64);
    }
    let q: u32 = num / 3;
    let k: u32 = q.trailing_zeros();
    proof {
        axiom_u32_trailing_zeros(q);
        lemma2_to64();
    }
    assert(k < 32);
    let p: u32 = 1u32 << k;
    proof {
        lemma_pow2_pos(k as nat);
        if k < 31 {
            lemma_pow2_strictly_increases(k as nat, 31);
        }
        lemma_u32_shl_is_mul(1u32, k);
        assert(p == pow2(k as nat));
    }
    if p == q && q * 3 == num {
        proof {
            assert(face_of((k + 3) as nat) == num);
            lemma_code_of_face_of((k + 3) as nat);
        }
        Ok(k as u64 + 3)
    } else {
        proof {
            if is_face_value(num as nat) {
                let c: nat = code_of(num as nat);
                lemma_code_of_bounded(c);
                assert(c >= 3);
                let j: u32 = (c - 3) as u32;
                lemma_pow2_pos(j as nat);
                if j < 31 {
                    lemma_pow2_strictly_increases(j as nat, 31);
                }
                lemma_u32_shl_is_mul(1u32, j);
                assert(q == 1u32 << j);
                lemma_trailing_zeros_of_bit(j);
                assert(false);
            }
        }
        Err(NotAFaceValue { value: num })
    }
}

/// The code of a face value.
pub fn num_to_bit(num: u32) -> (bit: u64)
    requires
        is_face_value(num as nat),
    ensures
        bit == code_of(num as nat),
        face_of(bit as nat) == num,
        bit <= MAX_FACE_CODE,
{
    if num < 3 {
        proof {
            assert(face_of(num as nat) == num);
            lemma_code_of_face_of(num as nat);
        }
        num as u64
    } else {
        let q: u32 = num / 3;
        proof {
            let c: nat = code_of(num as nat);
            lemma_code_of_bounded(c);
            lemma2_to64();
            let j: u32 = (c - 3) as u32;
            lemma_pow2_pos(j as nat);
            if j < 31 {
                lemma_pow2_strictly_increases(j as nat, 31);
            }
            lemma_u32_shl_is_mul(1u32, j);
            assert(q == 1u32 << j);
            lemma_trailing_zeros_of_bit(j);
        }
        q.trailing_zeros() as u64 + 3
    }
}

} // verus!
