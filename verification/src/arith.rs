//! Fixed-width 256-bit unsigned arithmetic on little-endian byte words:
//! truncating multiplication and logical right shift, the two operations
//! the dispatch hash is built from.
use vstd::prelude::*;
use vstd::arithmetic::power2::*;
use vstd::arithmetic::div_mod::*;

verus! {

/// Number of bytes in a 256-bit machine word.
pub const WORD_BYTES: usize = 32;

/// A byte sequence is a well-formed 256-bit word when it has exactly 32 bytes.
pub open spec fn wf_u256(s: Seq<u8>) -> bool {
    s.len() == WORD_BYTES
}

/// 2 to the power of 8 * k: the weight of byte position k.
pub open spec fn bpow(k: int) -> nat {
    pow2((8 * k) as nat)
}

/// Value of the first n bytes of s, read as a little-endian base-256 number.
pub open spec fn le_val(s: Seq<u8>, n: int) -> nat
    decreases n,
{
    if n <= 0 {
        0
    } else {
        le_val(s, n - 1) + (s[n - 1] as nat) * bpow(n - 1)
    }
}

/// The numeric value of a 256-bit word.
pub open spec fn u256_val(s: Seq<u8>) -> nat {
    le_val(s, 32)
}

pub proof fn lemma_bpow_pos(k: int)
    requires
        0 <= k,
    ensures
        bpow(k) >= 1,
{
    lemma_pow2_pos((8 * k) as nat);
}

pub proof fn lemma_bpow_step(k: int)
    requires
        0 <= k,
    ensures
        bpow(k + 1) == 256 * bpow(k),
{
    lemma_pow2_adds((8 * k) as nat, 8);
    lemma2_to64();
    assert(bpow(k + 1) == pow2((8 * k) as nat) * pow2(8));
}

pub proof fn lemma_bpow_adds(j: int, k: int)
    requires
        0 <= j,
        0 <= k,
    ensures
        bpow(j + k) == bpow(j) * bpow(k),
{
    lemma_pow2_adds((8 * j) as nat, (8 * k) as nat);
}

/// The first n bytes are worth less than bpow(n).
pub proof fn lemma_le_val_bound(s: Seq<u8>, n: int)
    requires
        0 <= n <= s.len(),
    ensures
        le_val(s, n) < bpow(n),
    decreases n,
{
    if n <= 0 {
        lemma2_to64();
        assert(bpow(0) == pow2(0));
    } else {
        lemma_le_val_bound(s, n - 1);
        lemma_bpow_step(n - 1);
        assert((s[n - 1] as nat) * bpow(n - 1) <= 255 * bpow(n - 1)) by (nonlinear_arith)
            requires
                (s[n - 1] as nat) <= 255,
                bpow(n - 1) >= 0,
        ;
    }
}

/// le_val only reads positions below n.
pub proof fn lemma_le_val_agree(s1: Seq<u8>, s2: Seq<u8>, n: int)
    requires
        0 <= n <= s1.len(),
        n <= s2.len(),
        forall|k: int| 0 <= k < n ==> s1[k] == s2[k],
    ensures
        le_val(s1, n) == le_val(s2, n),
    decreases n,
{
    if n > 0 {
        lemma_le_val_agree(s1, s2, n - 1);
    }
}

/// Writing byte v at position k changes the value by (v - old) * bpow(k).
pub proof fn lemma_le_val_update(s: Seq<u8>, n: int, k: int, v: u8)
    requires
        0 <= k < n <= s.len(),
    ensures
        le_val(s.update(k, v), n) + (s[k] as nat) * bpow(k) == le_val(s, n) + (v as nat) * bpow(k),
    decreases n,
{
    if k == n - 1 {
        lemma_le_val_agree(s.update(k, v), s, n - 1);
    } else {
        lemma_le_val_update(s, n - 1, k, v);
    }
}

/// Bytes above position m split off as a multiple of bpow(m).
pub proof fn lemma_le_val_split(s: Seq<u8>, m: int, n: int) -> (q: nat)
    requires
        0 <= m <= n <= s.len(),
    ensures
        le_val(s, n) == le_val(s, m) + bpow(m) * q,
    decreases n,
{
    if n == m {
        0
    } else {
        let q0 = lemma_le_val_split(s, m, n - 1);
        lemma_bpow_adds(m, n - 1 - m);
        assert((s[n - 1] as nat) * bpow(n - 1) == bpow(m) * ((s[n - 1] as nat) * bpow(n - 1 - m)))
            by (nonlinear_arith)
            requires
                bpow(n - 1) == bpow(m) * bpow(n - 1 - m),
        ;
        assert(bpow(m) * q0 + bpow(m) * ((s[n - 1] as nat) * bpow(n - 1 - m)) == bpow(m) * (q0
            + (s[n - 1] as nat) * bpow(n - 1 - m))) by (nonlinear_arith);
        q0 + (s[n - 1] as nat) * bpow(n - 1 - m)
    }
}

/// Zero bytes at positions m..n contribute nothing.
pub proof fn lemma_le_val_zero_above(s: Seq<u8>, m: int, n: int)
    requires
        0 <= m <= n <= s.len(),
        forall|k: int| m <= k < n ==> s[k] == 0u8,
    ensures
        le_val(s, n) == le_val(s, m),
    decreases n,
{
    if n > m {
        lemma_le_val_zero_above(s, m, n - 1);
    }
}

/// The low byte of a word is its value modulo 256.
pub proof fn lemma_byte0(s: Seq<u8>)
    requires
        wf_u256(s),
    ensures
        (s[0] as nat) == u256_val(s) % 256,
{
    let q = lemma_le_val_split(s, 1, 32);
    lemma2_to64();
    reveal_with_fuel(le_val, 3);
    assert(bpow(0) == 1 && bpow(1) == 256);
    assert((s[0] as nat) * bpow(0) == s[0] as nat) by (nonlinear_arith)
        requires
            bpow(0) == 1,
    ;
    assert(le_val(s, 1) == (s[0] as nat));
    assert(bpow(1) * q == q * 256) by (nonlinear_arith)
        requires
            bpow(1) == 256,
    ;
    lemma_fundamental_div_mod_converse_mod(u256_val(s) as int, 256, q as int, s[0] as int);
}

/// Converts a 32-bit selector to a 256-bit word (zero-extended, little endian).
pub fn u32_to_256(x: u32) -> (r: Vec<u8>)
    ensures
        wf_u256(r@),
        u256_val(r@) == x as nat,
{
    let mut r: Vec<u8> = Vec::new();
    r.push((x % 256) as u8);
    r.push(((x / 256) % 256) as u8);
    r.push(((x / 65536) % 256) as u8);
    r.push(((x / 16777216) % 256) as u8);
    let mut z: usize = 4;
    while z < 32
        invariant
            4 <= z <= 32,
            r@.len() == z,
            r@[0] == (x % 256) as u8,
            r@[1] == ((x / 256) % 256) as u8,
            r@[2] == ((x / 65536) % 256) as u8,
            r@[3] == ((x / 16777216) % 256) as u8,
            forall|k: int| 4 <= k < z ==> r@[k] == 0u8,
        decreases 32 - z,
    {
        r.push(0u8);
        z += 1;
    }
    proof {
        lemma_le_val_zero_above(r@, 4, 32);
        lemma2_to64();
        reveal_with_fuel(le_val, 6);
        assert(bpow(0) == 1 && bpow(1) == 0x100 && bpow(2) == 0x10000 && bpow(3) == 0x1000000);
        assert((r@[0] as nat) * bpow(0) == (r@[0] as nat) && (r@[1] as nat) * bpow(1) == (
        r@[1] as nat) * 0x100 && (r@[2] as nat) * bpow(2) == (r@[2] as nat) * 0x10000 && (
        r@[3] as nat) * bpow(3) == (r@[3] as nat) * 0x1000000) by (nonlinear_arith)
            requires
                bpow(0) == 1 && bpow(1) == 0x100 && bpow(2) == 0x10000 && bpow(3) == 0x1000000,
        ;
        lemma_fundamental_div_mod(x as int, 256);
        lemma_fundamental_div_mod(x as int / 256, 256);
        lemma_fundamental_div_mod(x as int / 65536, 256);
        lemma_div_denominator(x as int, 256, 256);
        lemma_div_denominator(x as int, 65536, 256);
        assert(x as int / 256 / 256 == x as int / 65536);
        assert(x as int / 65536 / 256 == x as int / 16777216);
        assert(x as int / 16777216 < 256) by {
            lemma_fundamental_div_mod(x as int, 16777216);
            assert(x as int / 16777216 >= 0) by {
                lemma_div_pos_is_pos(x as int, 16777216);
            }
        }
        lemma_small_mod((x as int / 16777216) as nat, 256);
        assert(le_val(r@, 4) == x as nat);
    }
    r
}

/// Truncating multiplication: the low 256 bits of the full product,
/// that is, multiplication modulo 2^256.
pub fn mul_256(a: &Vec<u8>, b: &Vec<u8>) -> (r: Vec<u8>)
    requires
        wf_u256(a@),
        wf_u256(b@),
    ensures
        wf_u256(r@),
        u256_val(r@) == (u256_val(a@) * u256_val(b@)) % pow2(256),
{
    let ghost m = pow2(256);
    proof {
        lemma_pow2_pos(256);
        assert(bpow(32) == m);
    }
    let mut result: Vec<u8> = Vec::new();
    let mut z: usize = 0;
    while z < 32
        invariant
            z <= 32,
            result@.len() == z,
            forall|k: int| 0 <= k < z ==> result@[k] == 0u8,
        decreases 32 - z,
    {
        result.push(0u8);
        z += 1;
    }
    proof {
        lemma_le_val_zero_above(result@, 0, 32);
        assert(u256_val(result@) == 0);
        lemma_mod_self_0(m as int);
        lemma_small_mod(0, m);
        assert(le_val(a@, 0) * u256_val(b@) == 0) by (nonlinear_arith)
            requires
                le_val(a@, 0) == 0,
        ;
    }
    let mut i: usize = 0;
    while i < 32
        invariant
            i <= 32,
            result@.len() == 32,
            a@.len() == 32,
            b@.len() == 32,
            m == pow2(256),
            m == bpow(32),
            m >= 1,
            u256_val(result@) == (le_val(a@, i as int) * u256_val(b@)) % m,
        decreases 32 - i,
    {
        let ghost res0 = result@;
        let ghost vb = u256_val(b@);
        let ghost ai_n = a@[i as int] as nat;
        proof {
            assert(le_val(b@, 0) == 0);
            assert(ai_n * le_val(b@, 0) * bpow(i as int) == 0) by (nonlinear_arith)
                requires
                    le_val(b@, 0) == 0,
            ;
        }
        let mut carry: u16 = 0;
        let mut j: usize = 0;
        while j < 32 - i
            invariant
                i < 32,
                j <= 32 - i,
                result@.len() == 32,
                a@.len() == 32,
                b@.len() == 32,
                carry <= 255,
                ai_n == a@[i as int] as nat,
                forall|k: int| i + j <= k < 32 ==> result@[k] == res0[k],
                le_val(result@, 32) + (carry as nat) * bpow(i + j) == le_val(res0, 32) + ai_n
                    * le_val(b@, j as int) * bpow(i as int),
            decreases 32 - i - j,
        {
            let ai: u16 = a[i] as u16;
            let bj: u16 = b[j] as u16;
            let ri: u16 = result[i + j] as u16;
            assert(ai * bj <= 65025) by (nonlinear_arith)
                requires
                    ai <= 255,
                    bj <= 255,
            ;
            let prod: u16 = ai * bj + ri + carry;
            let newbyte: u8 = (prod % 256) as u8;
            let newcarry: u16 = prod / 256;
            let ghost oldres = result@;
            let ghost oldcarry = carry as nat;
            result.set(i + j, newbyte);
            proof {
                let k = i + j;
                lemma_fundamental_div_mod(prod as int, 256);
                assert((newbyte as nat) + 256 * (newcarry as nat) == prod as nat);
                lemma_le_val_update(oldres, 32, k as int, newbyte);
                lemma_bpow_step(k as int);
                // value delta of this step, as exact integer arithmetic
                assert(le_val(result@, 32) + (newcarry as nat) * bpow(k + 1) == le_val(
                    oldres,
                    32,
                ) + oldcarry * bpow(k as int) + (ai as nat) * (bj as nat) * bpow(k as int))
                    by (nonlinear_arith)
                    requires
                        le_val(result@, 32) + (oldres[k as int] as nat) * bpow(k as int) == le_val(
                            oldres,
                            32,
                        ) + (newbyte as nat) * bpow(k as int),
                        (newbyte as nat) + 256 * (newcarry as nat) == (ai as nat) * (bj as nat) + (
                        oldres[k as int] as nat) + oldcarry,
                        bpow(k + 1) == 256 * bpow(k as int),
                ;
                // fold the step into the row invariant
                lemma_bpow_adds(i as int, j as int);
                assert(ai_n * le_val(b@, j as int) * bpow(i as int) + (ai as nat) * (bj as nat)
                    * bpow(k as int) == ai_n * le_val(b@, j + 1) * bpow(i as int))
                    by (nonlinear_arith)
                    requires
                        ai_n == ai as nat,
                        (bj as nat) == b@[j as int] as nat,
                        le_val(b@, j + 1) == le_val(b@, j as int) + (b@[j as int] as nat) * bpow(
                            j as int,
                        ),
                        bpow(k as int) == bpow(i as int) * bpow(j as int),
                        k == i + j,
                ;
            }
            carry = newcarry;
            j += 1;
        }
        proof {
            // drop the final carry and the high part of b: both are
            // multiples of 2^256, so the value mod 2^256 is unchanged
            let qb = lemma_le_val_split(b@, (32 - i) as int, 32);
            lemma_bpow_adds(i as int, (32 - i) as int);
            let x = (le_val(a@, i as int) * vb) as int;
            let y = (ai_n * vb * bpow(i as int)) as int;
            let drop = (ai_n * qb + carry as nat) as int;
            let mi = m as int;
            assert(le_val(result@, 32) == le_val(res0, 32) + y - drop * m) by (nonlinear_arith)
                requires
                    le_val(result@, 32) + (carry as nat) * bpow(32) == le_val(res0, 32) + ai_n
                        * le_val(b@, (32 - i) as int) * bpow(i as int),
                    vb == le_val(b@, (32 - i) as int) + bpow((32 - i) as int) * qb,
                    bpow(32) == bpow(i as int) * bpow((32 - i) as int),
                    m == bpow(32),
                    y == ai_n * vb * bpow(i as int),
                    drop == ai_n * qb + carry as nat,
            ;
            lemma_fundamental_div_mod(x, mi);
            lemma_le_val_bound(result@, 32);
            assert(le_val(a@, i + 1) * vb == x + y) by (nonlinear_arith)
                requires
                    le_val(a@, i + 1) == le_val(a@, i as int) + ai_n * bpow(i as int),
                    x == le_val(a@, i as int) * vb,
                    y == ai_n * vb * bpow(i as int),
            ;
            assert(x + y == (x / mi + drop) * mi + le_val(result@, 32)) by (nonlinear_arith)
                requires
                    x == mi * (x / mi) + x % mi,
                    le_val(res0, 32) == x % mi,
                    le_val(result@, 32) == le_val(res0, 32) + y - drop * mi,
            ;
            lemma_fundamental_div_mod_converse_mod(
                x + y,
                mi,
                x / mi + drop,
                le_val(result@, 32) as int,
            );
        }
        i += 1;
    }
    result
}

/// 2^b for a sub-byte shift amount.
fn small_pow2(b: u32) -> (r: u8)
    requires
        1 <= b <= 7,
    ensures
        r as nat == pow2(b as nat),
        r >= 2,
{
    proof {
        lemma2_to64();
    }
    if b == 1 {
        2
    } else if b == 2 {
        4
    } else if b == 3 {
        8
    } else if b == 4 {
        16
    } else if b == 5 {
        32
    } else if b == 6 {
        64
    } else {
        128
    }
}

/// Dropping the low m bytes divides the value by bpow(m).
proof fn lemma_byte_shift_prefix(v: Seq<u8>, t: Seq<u8>, m: int, k: int)
    requires
        v.len() == 32,
        t.len() == 32,
        0 <= m <= 32,
        0 <= k <= 32 - m,
        forall|x: int| 0 <= x < 32 ==> t[x] == (if x + m < 32 {
            v[x + m]
        } else {
            0u8
        }),
    ensures
        le_val(t, k) * bpow(m) + le_val(v, m) == le_val(v, k + m),
    decreases k,
{
    if k > 0 {
        lemma_byte_shift_prefix(v, t, m, k - 1);
        lemma_bpow_adds(k - 1, m);
        assert((le_val(t, k - 1) + (t[k - 1] as nat) * bpow(k - 1)) * bpow(m) == le_val(t, k - 1)
            * bpow(m) + (t[k - 1] as nat) * (bpow(k - 1) * bpow(m))) by (nonlinear_arith);
        assert(le_val(t, k) * bpow(m) + le_val(v, m) == le_val(v, k + m));
    } else {
        assert(le_val(t, 0) * bpow(m) == 0) by (nonlinear_arith);
    }
}

/// Logical right shift by up to 255 bits, zero-filling from the top:
/// division by 2^bits.
pub fn shr_256(val: &Vec<u8>, n: u32) -> (r: Vec<u8>)
    requires
        wf_u256(val@),
        n <= 255,
    ensures
        wf_u256(r@),
        u256_val(r@) == u256_val(val@) / pow2(n as nat),
{
    let byte_shift: usize = (n / 8) as usize;
    let bit_shift: u32 = n % 8;
    let mut t: Vec<u8> = Vec::new();
    let mut i: usize = 0;
    while i < 32
        invariant
            i <= 32,
            t@.len() == i,
            byte_shift == n as int / 8,
            byte_shift <= 31,
            val@.len() == 32,
            forall|k: int| 0 <= k < i ==> t@[k] == (if k + byte_shift < 32 {
                val@[k + byte_shift]
            } else {
                0u8
            }),
        decreases 32 - i,
    {
        if i + byte_shift < 32 {
            t.push(val[i + byte_shift]);
        } else {
            t.push(0u8);
        }
        i += 1;
    }
    proof {
        lemma_byte_shift_prefix(val@, t@, byte_shift as int, (32 - byte_shift) as int);
        lemma_le_val_zero_above(t@, (32 - byte_shift) as int, 32);
        lemma_le_val_bound(val@, byte_shift as int);
        lemma_bpow_pos(byte_shift as int);
        lemma_fundamental_div_mod_converse_div(
            u256_val(val@) as int,
            bpow(byte_shift as int) as int,
            u256_val(t@) as int,
            le_val(val@, byte_shift as int) as int,
        );
        assert(u256_val(t@) as int == u256_val(val@) as int / bpow(byte_shift as int) as int);
    }
    if bit_shift == 0 {
        proof {
            assert(8 * (n as int / 8) == n) by {
                lemma_fundamental_div_mod(n as int, 8);
            }
            assert(bpow(byte_shift as int) == pow2(n as nat));
        }
        t
    } else {
        let p: u8 = small_pow2(bit_shift);
        let q: u8 = small_pow2(8 - bit_shift);
        proof {
            lemma_pow2_adds(bit_shift as nat, (8 - bit_shift) as nat);
            lemma2_to64();
            assert((p as nat) * (q as nat) == 256);
        }
        let mut r: Vec<u8> = Vec::new();
        let mut i2: usize = 0;
        while i2 < 32
            invariant
                i2 <= 32,
                r@.len() == i2,
                t@.len() == 32,
                2 <= p <= 128,
                2 <= q <= 128,
                (p as nat) * (q as nat) == 256,
                p as nat == pow2(bit_shift as nat),
                q as nat == pow2((8 - bit_shift) as nat),
                1 <= bit_shift <= 7,
                forall|k: int| 0 <= k < i2 ==> (r@[k] as nat) == (t@[k] as nat) / (p as nat) + ((
                if k + 1 < 32 {
                    t@[k + 1]
                } else {
                    0u8
                } as nat) % (p as nat)) * (q as nat),
            decreases 32 - i2,
        {
            let hi: u8 = if i2 + 1 < 32 {
                t[i2 + 1]
            } else {
                0
            };
            let lo_part: u8 = t[i2] / p;
            assert((lo_part as nat) < (q as nat)) by (nonlinear_arith)
                requires
                    lo_part as nat == (t@[i2 as int] as nat) / (p as nat),
                    (t@[i2 as int] as nat) <= 255,
                    (p as nat) * (q as nat) == 256,
                    p >= 2,
                    q >= 2,
            ;
            let hi_part_m: u8 = hi % p;
            assert((hi_part_m as nat) * (q as nat) <= 256 - q as nat) by (nonlinear_arith)
                requires
                    hi_part_m as nat <= p as nat - 1,
                    (p as nat) * (q as nat) == 256,
                    q >= 2,
            ;
            r.push(lo_part + hi_part_m * q);
            i2 += 1;
        }
        proof {
            lemma_bit_shift_claim(t@, r@, bit_shift as nat, 32);
            lemma_pow2_pos(bit_shift as nat);
            lemma_le_val_bound(r@, 32);
            lemma_small_mod(0, pow2(bit_shift as nat));
            assert(byte_at(t@, 32) == 0);
            assert((byte_at(t@, 32) % pow2(bit_shift as nat)) * bpow(32) == 0) by (nonlinear_arith)
                requires
                    byte_at(t@, 32) % pow2(bit_shift as nat) == 0,
            ;
            lemma_mod_division_less_than_divisor(t@[0] as int, pow2(bit_shift as nat) as int);
            assert(u256_val(t@) as int == u256_val(r@) as int * pow2(bit_shift as nat) as int + ((
            t@[0] as nat) % pow2(bit_shift as nat)) as int);
            lemma_fundamental_div_mod_converse_div(
                u256_val(t@) as int,
                pow2(bit_shift as nat) as int,
                u256_val(r@) as int,
                ((t@[0] as nat) % pow2(bit_shift as nat)) as int,
            );
            lemma_div_denominator(
                u256_val(val@) as int,
                bpow(byte_shift as int) as int,
                pow2(bit_shift as nat) as int,
            );
            lemma_pow2_adds((8 * byte_shift) as nat, bit_shift as nat);
            assert(8 * (n as int / 8) + n as int % 8 == n) by {
                lemma_fundamental_div_mod(n as int, 8);
            }
            assert(bpow(byte_shift as int) * pow2(bit_shift as nat) == pow2(n as nat));
        }
        r
    }
}

/// The byte at position k of t, with zero above the top.
spec fn byte_at(t: Seq<u8>, k: int) -> nat {
    if 0 <= k < 32 {
        t[k] as nat
    } else {
        0
    }
}

/// Shifting every byte right by b bits, borrowing the low b bits of the
/// next byte, divides the whole value by 2^b.
proof fn lemma_bit_shift_claim(t: Seq<u8>, r: Seq<u8>, b: nat, k: int)
    requires
        t.len() == 32,
        r.len() == 32,
        1 <= b <= 7,
        0 <= k <= 32,
        forall|x: int| 0 <= x < 32 ==> (r[x] as nat) == (t[x] as nat) / pow2(b) + (byte_at(t, x + 1)
            % pow2(b)) * pow2((8 - b) as nat),
    ensures
        le_val(r, k) * pow2(b) + (t[0] as nat) % pow2(b) == le_val(t, k) + (byte_at(t, k) % pow2(b))
            * bpow(k),
    decreases k,
{
    lemma_pow2_pos(b);
    lemma_pow2_adds(b, (8 - b) as nat);
    lemma2_to64();
    if k == 0 {
        assert(bpow(0) == 1);
        assert(le_val(r, 0) * pow2(b) == 0) by (nonlinear_arith)
            requires
                le_val(r, 0) == 0,
        ;
        let v0 = byte_at(t, 0) % pow2(b);
        assert(v0 * bpow(0) == v0) by (nonlinear_arith)
            requires
                bpow(0) == 1,
        ;
    } else {
        lemma_bit_shift_claim(t, r, b, k - 1);
        lemma_bpow_step(k - 1);
        let p = pow2(b);
        let q = pow2((8 - b) as nat);
        let rk1 = r[k - 1] as nat;
        let tk1 = t[k - 1] as nat;
        let w = bpow(k - 1);
        let hk = byte_at(t, k) % p;
        let lo = tk1 % p;
        let dv = tk1 / p;
        lemma_fundamental_div_mod(tk1 as int, p as int);
        assert(rk1 * p == tk1 - lo + hk * 256) by (nonlinear_arith)
            requires
                rk1 == dv + hk * q,
                tk1 == p * dv + lo,
                p * q == 256,
        ;
        assert(le_val(r, k) * p == le_val(r, k - 1) * p + (rk1 * p) * w) by (nonlinear_arith)
            requires
                le_val(r, k) == le_val(r, k - 1) + rk1 * w,
        ;
        assert(le_val(r, k) * p + (t[0] as nat) % p == le_val(t, k) + hk * bpow(k))
            by (nonlinear_arith)
            requires
                le_val(r, k) * p == le_val(r, k - 1) * p + (rk1 * p) * w,
                rk1 * p == tk1 - lo + hk * 256,
                le_val(r, k - 1) * p + (t[0] as nat) % p == le_val(t, k - 1) + lo * w,
                le_val(t, k) == le_val(t, k - 1) + tk1 * w,
                bpow(k) == 256 * w,
        ;
    }
}

} // verus!
