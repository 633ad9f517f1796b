//! Little-endian bit packing of fixed-width unsigned fields.

use vstd::arithmetic::div_mod::*;
use vstd::arithmetic::mul::*;
use vstd::arithmetic::power2::*;
use vstd::bits::*;
use vstd::prelude::*;

verus! {

/// The number whose base-`2^width` digits, least significant first, are `digits`.
pub open spec fn numeral(digits: Seq<nat>, width: nat) -> nat
    decreases digits.len(),
{
    if digits.len() == 0 {
        0
    } else {
        let last = (digits.len() - 1) as nat;
        numeral(digits.drop_last(), width) + digits[last as int] * pow2(width * last)
    }
}

/// The bytes of `bytes` as base-256 digits.
pub open spec fn byte_digits(bytes: Seq<u8>) -> Seq<nat> {
    Seq::new(bytes.len(), |i: int| bytes[i] as nat)
}

/// The fields of `values` as digits.
pub open spec fn field_digits(values: Seq<u32>) -> Seq<nat> {
    Seq::new(values.len(), |i: int| values[i] as nat)
}

/// The little-endian number that `bytes` spells.
pub open spec fn le_value(bytes: Seq<u8>) -> nat {
    numeral(byte_digits(bytes), 8)
}

/// The `len` low bytes of `value`, least significant first.
pub open spec fn le_bytes(value: nat, len: nat) -> Seq<u8> {
    Seq::new(len, |k: int| ((value / pow2(8 * k as nat)) % 256) as u8)
}

/// How many bytes hold `n` fields of `width` bits.
pub open spec fn packed_len(n: nat, width: nat) -> nat {
    (n * width + 7) / 8
}

/// Every field fits in `width` bits.
pub open spec fn fields_fit(values: Seq<u32>, width: nat) -> bool {
    forall|i: int| 0 <= i < values.len() ==> (#[trigger] values[i] as nat) < pow2(width)
}

/// The packed form: field `i` occupies bits `i * width .. (i + 1) * width`.
pub open spec fn packed(values: Seq<u32>, width: nat) -> Seq<u8> {
    le_bytes(numeral(field_digits(values), width), packed_len(values.len(), width))
}

/// The field at bits `i * width .. (i + 1) * width` of `bytes`.
pub open spec fn field_at(bytes: Seq<u8>, i: nat, width: nat) -> nat {
    (le_value(bytes) / pow2(width * i)) % pow2(width)
}

/// The first `n` fields of `width` bits of `bytes`.
pub open spec fn unpacked(bytes: Seq<u8>, n: nat, width: nat) -> Seq<u32> {
    Seq::new(n, |i: int| field_at(bytes, i as nat, width) as u32)
}

pub proof fn lemma_numeral_push(digits: Seq<nat>, d: nat, width: nat)
    ensures
        numeral(digits.push(d), width) == numeral(digits, width) + d * pow2(width * digits.len()),
{
    assert(digits.push(d).drop_last() =~= digits);
}

pub proof fn lemma_numeral_bound(digits: Seq<nat>, width: nat)
    requires
        forall|i: int| 0 <= i < digits.len() ==> #[trigger] digits[i] < pow2(width),
    ensures
        numeral(digits, width) < pow2(width * digits.len()),
    decreases digits.len(),
{
    if digits.len() == 0 {
        lemma2_to64();
        assert(width * 0 == 0) by (nonlinear_arith);
    } else {
        let last = (digits.len() - 1) as nat;
        lemma_numeral_bound(digits.drop_last(), width);
        let low = numeral(digits.drop_last(), width);
        let d = digits[last as int];
        let p = pow2(width * last);
        lemma_pow2_adds(width * last, width);
        assert(width * last + width == width * digits.len()) by (nonlinear_arith)
            requires
                digits.len() == last + 1,
        ;
        assert(low + d * p < p * pow2(width)) by (nonlinear_arith)
            requires
                low < p,
                d + 1 <= pow2(width),
        ;
    }
}

pub proof fn lemma_numeral_split(digits: Seq<nat>, width: nat, m: nat)
    requires
        m <= digits.len(),
    ensures
        numeral(digits, width) == numeral(digits.take(m as int), width) + pow2(width * m) * numeral(
            digits.skip(m as int),
            width,
        ),
    decreases digits.len() - m,
{
    if m == digits.len() {
        assert(digits.take(m as int) =~= digits);
        assert(digits.skip(m as int) =~= Seq::<nat>::empty());
        assert(pow2(width * m) * 0 == 0) by (nonlinear_arith);
    } else {
        let n = (digits.len() - 1) as nat;
        let front = digits.drop_last();
        let d = digits[n as int];
        lemma_numeral_split(front, width, m);
        assert(front.take(m as int) =~= digits.take(m as int));
        assert(front.skip(m as int).push(d) =~= digits.skip(m as int));
        lemma_numeral_push(front.skip(m as int), d, width);
        let k = (n - m) as nat;
        lemma_pow2_adds(width * m, width * k);
        assert(width * m + width * k == width * n) by (nonlinear_arith)
            requires
                n == m + k,
        ;
        let high = numeral(front.skip(m as int), width);
        let pm = pow2(width * m);
        let pk = pow2(width * k);
        assert(pm * (high + d * pk) == pm * high + d * (pm * pk)) by (nonlinear_arith);
    }
}

/// Reading digit `k` back out of a numeral.
pub proof fn lemma_numeral_digit(digits: Seq<nat>, width: nat, k: nat)
    requires
        k < digits.len(),
        forall|i: int| 0 <= i < digits.len() ==> #[trigger] digits[i] < pow2(width),
    ensures
        (numeral(digits, width) / pow2(width * k)) % pow2(width) == digits[k as int],
{
    let low = digits.take(k as int);
    let rest = digits.skip(k as int);
    lemma_numeral_split(digits, width, k);
    lemma_numeral_bound(low, width);
    lemma_numeral_split(rest, width, 1);
    lemma_pow2_pos(width * k);
    lemma_pow2_pos(width);
    let one = rest.take(1);
    assert(one =~= Seq::<nat>::empty().push(digits[k as int]));
    lemma_numeral_push(Seq::<nat>::empty(), digits[k as int], width);
    lemma2_to64();
    assert(width * 0 == 0) by (nonlinear_arith);
    assert(width * 1 == width) by (nonlinear_arith);
    let p = pow2(width * k);
    let hi = numeral(rest.skip(1), width);
    let d = digits[k as int];
    assert(numeral(rest, width) == d + pow2(width) * hi);
    assert(pow2(width) * hi == hi * pow2(width)) by (nonlinear_arith);
    assert(p * numeral(rest, width) == numeral(rest, width) * p) by (nonlinear_arith);
    lemma_fundamental_div_mod_converse(
        numeral(digits, width) as int,
        p as int,
        numeral(rest, width) as int,
        numeral(low, width) as int,
    );
    lemma_fundamental_div_mod_converse(
        numeral(rest, width) as int,
        pow2(width) as int,
        hi as int,
        d as int,
    );
}

pub proof fn lemma_le_value_push(bytes: Seq<u8>, b: u8)
    ensures
        le_value(bytes.push(b)) == le_value(bytes) + b as nat * pow2(8 * bytes.len()),
{
    assert(byte_digits(bytes.push(b)) =~= byte_digits(bytes).push(b as nat));
    lemma_numeral_push(byte_digits(bytes), b as nat, 8);
}

pub proof fn lemma_fields_push(values: Seq<u32>, v: u32, width: nat)
    ensures
        numeral(field_digits(values.push(v)), width) == numeral(field_digits(values), width)
            + v as nat * pow2(width * values.len()),
{
    assert(field_digits(values.push(v)) =~= field_digits(values).push(v as nat));
    lemma_numeral_push(field_digits(values), v as nat, width);
}

/// Spelling the number that `bytes` spells gives `bytes` back.
pub proof fn lemma_le_bytes_of_value(bytes: Seq<u8>)
    ensures
        le_bytes(le_value(bytes), bytes.len()) == bytes,
{
    lemma2_to64();
    assert forall|k: int| 0 <= k < bytes.len() implies le_bytes(le_value(bytes), bytes.len())[k]
        == bytes[k] by {
        lemma_numeral_digit(byte_digits(bytes), 8, k as nat);
    }
    assert(le_bytes(le_value(bytes), bytes.len()) =~= bytes);
}

/// Spelling a number in enough bytes and reading it gives the number back.
pub proof fn lemma_le_value_of_bytes(value: nat, len: nat)
    requires
        value < pow2(8 * len),
    ensures
        le_value(le_bytes(value, len)) == value,
    decreases len,
{
    lemma2_to64();
    if len == 0 {
    } else {
        let n = (len - 1) as nat;
        let p = pow2(8 * n);
        lemma_pow2_pos(8 * n);
        lemma_pow2_adds(8 * n, 8);
        let low = value % p;
        let top = value / p;
        lemma_fundamental_div_mod(value as int, p as int);
        lemma_mod_bound(value as int, p as int);
        assert(top < 256) by (nonlinear_arith)
            requires
                value == p * top + low,
                value < p * 256,
                low >= 0,
                p > 0,
        ;
        lemma_le_value_of_bytes(low, n);
        assert forall|k: int| 0 <= k < n implies le_bytes(value, len)[k] == le_bytes(low, n)[k] by {
            // value = low + p * top, and 2^(8k) * 256 divides p
            let q = pow2(8 * k as nat);
            let r = pow2((8 * n - 8 * k) as nat);
            lemma_pow2_pos(8 * k as nat);
            lemma_pow2_adds(8 * k as nat, (8 * n - 8 * k) as nat);
            lemma_pow2_adds(8, (8 * n - 8 * k - 8) as nat);
            let s = pow2((8 * n - 8 * k - 8) as nat);
            assert(p == q * r && r == 256 * s);
            lemma_fundamental_div_mod(low as int, q as int);
            lemma_mod_bound(low as int, q as int);
            let lq = low / q;
            let lr = low % q;
            assert(value == q * (lq + r * top) + lr) by (nonlinear_arith)
                requires
                    value == p * top + low,
                    p == q * r,
                    low == q * lq + lr,
            ;
            assert(q * (lq + r * top) == (lq + r * top) * q) by (nonlinear_arith);
            lemma_fundamental_div_mod_converse(
                value as int,
                q as int,
                (lq + r * top) as int,
                lr as int,
            );
            assert((lq + r * top) % 256 == lq % 256) by {
                assert(lq + r * top == 256 * (s * top) + lq) by (nonlinear_arith)
                    requires
                        r == 256 * s,
                ;
                lemma_mod_multiples_vanish((s * top) as int, lq as int, 256);
            }
        }
        assert(le_bytes(value, len) =~= le_bytes(low, n).push(top as u8)) by {
            assert(top % 256 == top) by {
                lemma_small_mod(top, 256);
            }
        }
        lemma_le_value_push(le_bytes(low, n), top as u8);
        assert(p * top == top * p) by (nonlinear_arith);
    }
}

/// Fields of `width` bits survive packing and unpacking.
pub proof fn lemma_unpack_packed(values: Seq<u32>, width: nat)
    requires
        1 <= width <= 32,
        fields_fit(values, width),
    ensures
        unpacked(packed(values, width), values.len(), width) == values,
{
    let digits = field_digits(values);
    let n = values.len();
    lemma_numeral_bound(digits, width);
    let len = packed_len(n, width);
    assert(width * n == n * width) by (nonlinear_arith);
    assert(8 * len >= width * n);
    if 8 * len > width * n {
        lemma_pow2_strictly_increases(width * n, 8 * len);
    }
    lemma_le_value_of_bytes(numeral(digits, width), len);
    assert forall|i: int| 0 <= i < n implies unpacked(packed(values, width), n, width)[i]
        == values[i] by {
        lemma_numeral_digit(digits, width, i as nat);
    }
    assert(unpacked(packed(values, width), n, width) =~= values);
}

/// The bit width that `value` needs, at least one.
pub open spec fn bits_for_spec(value: u32) -> nat
    decreases value,
{
    if value < 2 {
        1
    } else {
        1 + bits_for_spec(value / 2)
    }
}

/// The width is the least positive one that `value` fits in.
pub proof fn lemma_bits_for(value: u32)
    ensures
        1 <= bits_for_spec(value) <= 32,
        (value as nat) < pow2(bits_for_spec(value)),
        bits_for_spec(value) > 1 ==> value >= pow2((bits_for_spec(value) - 1) as nat),
    decreases value,
{
    lemma2_to64();
    if value >= 2 {
        lemma_bits_for(value / 2);
        let w = bits_for_spec(value / 2);
        lemma_pow2_unfold(w + 1);
        lemma_pow2_unfold(w);
        if w >= 32 {
            assert(pow2(31) <= value / 2);
        }
    }
}

proof fn lemma_or_shift(acc: u64, v: u64, filled: u64)
    requires
        filled < 32,
        v < 0x1_0000_0000,
        acc < pow2(filled as nat),
    ensures
        acc | (v << filled) == acc + v * pow2(filled as nat),
        acc + v * pow2(filled as nat) < 0x8000_0000_0000_0000,
{
    lemma2_to64();
    lemma2_to64_rest();
    lemma_pow2_pos(filled as nat);
    if filled < 31 {
        lemma_pow2_strictly_increases(filled as nat, 31);
    }
    let p = pow2(filled as nat);
    assert(v * p <= 0xffff_ffff * 0x8000_0000) by (nonlinear_arith)
        requires
            v <= 0xffff_ffff,
            p <= 0x8000_0000,
    ;
    lemma_u64_shl_is_mul(1, filled);
    lemma_u64_shl_is_mul(v, filled);
    assert(acc | (v << filled) == acc + (v << filled)) by (bit_vector)
        requires
            filled < 32,
            v < 0x1_0000_0000,
            acc < 1u64 << filled,
    ;
}

/// Append `values` to `out`, each in `width` bits, low bits first.
pub fn pack_fixed(values: &[u32], width: usize, out: &mut Vec<u8>)
    requires
        1 <= width <= 32,
        fields_fit(values@, width as nat),
    ensures
        final(out)@ == old(out)@ + packed(values@, width as nat),
{
    let mut acc: u64 = 0;
    let mut filled: usize = 0;
    let mut i: usize = 0;
    let ghost start = out@;
    let ghost mut em: Seq<u8> = Seq::empty();
    let ghost w = width as nat;
    proof {
        lemma2_to64();
        assert(values@.take(0) =~= Seq::<u32>::empty());
        assert(0 * pow2(0) == 0) by (nonlinear_arith);
    }
    while i < values.len()
        invariant
            1 <= width <= 32,
            w == width,
            fields_fit(values@, w),
            i <= values.len(),
            filled < 8,
            acc < pow2(filled as nat),
            out@ == start + em,
            8 * em.len() + filled == w * i,
            le_value(em) + acc * pow2(8 * em.len()) == numeral(
                field_digits(values@.take(i as int)),
                w,
            ),
        decreases values.len() - i,
    {
        let v: u32 = values[i];
        proof {
            lemma_or_shift(acc, v as u64, filled as u64);
            assert(values@.take(i + 1) =~= values@.take(i as int).push(v));
            lemma_fields_push(values@.take(i as int), v, w);
            lemma_pow2_adds(filled as nat, 8 * em.len());
            let a = acc as int;
            let pf = pow2(filled as nat) as int;
            let pe = pow2(8 * em.len()) as int;
            assert((a + v * pf) * pe == a * pe + v * (pf * pe)) by (nonlinear_arith);
            lemma_pow2_adds(filled as nat, w);
            assert(a + v * pf < pf * pow2(w)) by (nonlinear_arith)
                requires
                    0 <= a < pf,
                    v + 1 <= pow2(w),
            ;
            assert(w * (i + 1) == w * i + w) by (nonlinear_arith);
        }
        acc = acc | ((v as u64) << filled);
        filled = filled + width;
        i = i + 1;
        while filled >= 8
            invariant
                filled < 40,
                acc < pow2(filled as nat),
                out@ == start + em,
                i <= values.len(),
                8 * em.len() + filled == w * i,
                le_value(em) + acc * pow2(8 * em.len()) == numeral(
                    field_digits(values@.take(i as int)),
                    w,
                ),
            decreases filled,
        {
            out.push((acc % 256) as u8);
            proof {
                let b = (acc % 256) as u8;
                lemma_le_value_push(em, b);
                lemma2_to64();
                lemma_pow2_adds(8, 8 * em.len());
                lemma_pow2_adds(8, (filled - 8) as nat);
                let pe = pow2(8 * em.len()) as int;
                let q = (acc / 256) as int;
                assert(acc == 256 * q + b);
                assert((256 * q + b) * pe == b * pe + q * (256 * pe)) by (nonlinear_arith);
                assert(start + em.push(b) =~= (start + em).push(b));
                assert(acc < 256 * pow2((filled - 8) as nat));
                assert(q < pow2((filled - 8) as nat));
                em = em.push(b);
            }
            acc = acc / 256;
            filled = filled - 8;
        }
    }
    if filled > 0 {
        out.push((acc % 256) as u8);
        proof {
            lemma2_to64();
            if filled < 8 {
                lemma_pow2_strictly_increases(filled as nat, 8);
            }
            let b = (acc % 256) as u8;
            lemma_le_value_push(em, b);
            assert(start + em.push(b) =~= (start + em).push(b));
            em = em.push(b);
        }
    } else {
        assert(acc * pow2(8 * em.len()) == 0) by (nonlinear_arith)
            requires
                acc == 0,
        ;
    }
    proof {
        assert(values@.take(values@.len() as int) =~= values@);
        assert(w * i == values@.len() * w) by (nonlinear_arith)
            requires
                i == values@.len(),
        ;
        lemma_le_bytes_of_value(em);
    }
}

proof fn lemma_unpack_step(bytes: Seq<u8>, at: nat, i: nat, w: nat, filled: nat, acc: nat)
    requires
        at <= bytes.len(),
        w <= filled,
        8 * at == filled + w * i,
        acc == le_value(bytes.take(at as int)) / pow2(w * i),
        acc < pow2(filled),
    ensures
        field_at(bytes, i, w) == acc % pow2(w),
        acc / pow2(w) == le_value(bytes.take(at as int)) / pow2(w * (i + 1)),
        acc / pow2(w) < pow2((filled - w) as nat),
{
    let digits = byte_digits(bytes);
    lemma_numeral_split(digits, 8, at);
    assert(digits.take(at as int) =~= byte_digits(bytes.take(at as int)));
    let l = le_value(bytes.take(at as int));
    let r = numeral(digits.skip(at as int), 8);
    let d = pow2(w * i);
    let pf = pow2(filled);
    let pw = pow2(w);
    let pr = pow2((filled - w) as nat);
    lemma_pow2_pos(w * i);
    lemma_pow2_pos(w);
    lemma_pow2_adds(w * i, filled);
    lemma_pow2_adds(w, (filled - w) as nat);
    lemma_pow2_adds(w * i, w);
    assert(w * (i + 1) == w * i + w) by (nonlinear_arith);
    assert(pow2(8 * at) * r == (pf * r) * d) by (nonlinear_arith)
        requires
            pow2(8 * at) == d * pf,
    ;
    lemma_hoist_over_denominator(l as int, (pf * r) as int, d);
    assert(pf * r == pw * (pr * r)) by (nonlinear_arith)
        requires
            pf == pw * pr,
    ;
    lemma_mod_multiples_vanish((pr * r) as int, acc as int, pw as int);
    lemma_div_denominator(l as int, d as int, pw as int);
    lemma_fundamental_div_mod(acc as int, pw as int);
    lemma_mod_bound(acc as int, pw as int);
    let q = acc / pw;
    let m = acc % pw;
    assert(q < pr) by (nonlinear_arith)
        requires
            acc == pw * q + m,
            m >= 0,
            acc < pw * pr,
            pw > 0,
    ;
}

/// The first `n` fields of `width` bits in `bytes`; `None` when `bytes` is too short for them.
pub fn unpack_fixed(bytes: &[u8], n: usize, width: usize) -> (fields: Option<Vec<u32>>)
    requires
        1 <= width <= 32,
    ensures
        fields is Some <==> n * width <= 8 * bytes.len(),
        fields matches Some(f) ==> f@ == unpacked(bytes@, n as nat, width as nat),
{
    let mut acc: u64 = 0;
    let mut filled: usize = 0;
    let mut at: usize = 0;
    let mut i: usize = 0;
    let mut fields: Vec<u32> = Vec::new();
    let ghost w = width as nat;
    proof {
        lemma2_to64();
        assert(bytes@.take(0) =~= Seq::<u8>::empty());
        assert(w * 0 == 0) by (nonlinear_arith);
        assert(0int / 1 == 0);
    }
    while i < n
        invariant
            1 <= width <= 32,
            w == width,
            i <= n,
            at <= bytes.len(),
            filled < 8,
            acc < pow2(filled as nat),
            8 * at == filled + w * i,
            acc == le_value(bytes@.take(at as int)) / pow2(w * i as nat),
            fields@ == unpacked(bytes@, i as nat, w),
        decreases n - i,
    {
        while filled < width
            invariant
                1 <= width <= 32,
                w == width,
                i < n,
                at <= bytes.len(),
                filled < 40,
                acc < pow2(filled as nat),
                filled < width || filled < width + 8,
                8 * at == filled + w * i,
                acc == le_value(bytes@.take(at as int)) / pow2(w * i as nat),
            decreases width + 8 - filled,
        {
            if at >= bytes.len() {
                proof {
                    assert(n * width >= (i + 1) * width) by (nonlinear_arith)
                        requires
                            n >= i + 1,
                            width >= 1,
                    ;
                    assert((i + 1) * width == w * i + w) by (nonlinear_arith)
                        requires
                            w == width,
                    ;
                }
                return None;
            }
            let b: u8 = bytes[at];
            proof {
                lemma_or_shift(acc, b as u64, filled as u64);
                assert(bytes@.take(at + 1) =~= bytes@.take(at as int).push(b));
                lemma_le_value_push(bytes@.take(at as int), b);
                let l = le_value(bytes@.take(at as int));
                let d = pow2(w * i as nat);
                lemma_pow2_pos(w * i as nat);
                lemma_pow2_adds(w * i as nat, filled as nat);
                let pf = pow2(filled as nat);
                assert(b as nat * pow2(8 * at as nat) == (b as nat * pf) * d) by (nonlinear_arith)
                    requires
                        pow2(8 * at as nat) == d * pf,
                ;
                lemma_hoist_over_denominator(l as int, (b as nat * pf) as int, d);
                lemma2_to64();
                lemma_pow2_adds(filled as nat, 8);
                assert(acc + b * pf < pf * 256) by (nonlinear_arith)
                    requires
                        acc < pf,
                        b <= 255,
                ;
            }
            acc = acc | ((b as u64) << filled);
            filled = filled + 8;
            at = at + 1;
        }
        proof {
            lemma_u64_pow2_no_overflow(w);
            lemma_u64_shl_is_mul(1, width as u64);
            lemma_u64_low_bits_mask_is_mod(acc, w);
            lemma_u64_shr_is_div(acc, width as u64);
            lemma_unpack_step(bytes@, at as nat, i as nat, w, filled as nat, acc as nat);
            lemma_pow2_pos(w);
            lemma2_to64();
            if w < 32 {
                lemma_pow2_strictly_increases(w, 32);
            }
            lemma_mod_bound(acc as int, pow2(w) as int);
        }
        let mask: u64 = (1u64 << width) - 1;
        assert(mask == low_bits_mask(w));
        let field: u32 = (acc & mask) as u32;
        fields.push(field);
        proof {
            assert(unpacked(bytes@, (i + 1) as nat, w) =~= unpacked(bytes@, i as nat, w).push(field));
            assert(w * (i + 1) == w * i + w) by (nonlinear_arith);
        }
        acc = acc >> width;
        filled = filled - width;
        i = i + 1;
    }
    proof {
        assert(n * width <= 8 * at) by (nonlinear_arith)
            requires
                8 * at == filled + w * n,
                w == width,
                filled >= 0,
        ;
    }
    Some(fields)
}

/// Bits needed for `value`; zero still takes one.
pub fn bits_for(value: u32) -> (width: usize)
    ensures
        width == bits_for_spec(value),
        1 <= width <= 32,
{
    proof {
        lemma_bits_for(value);
    }
    let mut rest: u32 = value;
    let mut width: usize = 1;
    while rest >= 2
        invariant
            width >= 1,
            width - 1 + bits_for_spec(rest) == bits_for_spec(value),
            bits_for_spec(value) <= 32,
        decreases rest,
    {
        proof {
            lemma_bits_for(rest / 2);
        }
        rest = rest / 2;
        width = width + 1;
    }
    width
}

/// The `len` low bytes of `value`, most significant first.
pub open spec fn be_bytes(value: nat, len: nat) -> Seq<u8> {
    le_bytes(value, len).reverse()
}

/// The number that `bytes` spells, most significant first.
pub open spec fn be_value(bytes: Seq<u8>) -> nat {
    le_value(bytes.reverse())
}

/// Peeling the lowest byte off a little-endian number.
pub proof fn lemma_le_value_first(bytes: Seq<u8>)
    requires
        bytes.len() > 0,
    ensures
        le_value(bytes) == bytes[0] as nat + 256 * le_value(bytes.skip(1)),
{
    let digits = byte_digits(bytes);
    lemma_numeral_split(digits, 8, 1);
    assert(digits.skip(1) =~= byte_digits(bytes.skip(1)));
    assert(digits.take(1) =~= Seq::<nat>::empty().push(bytes[0] as nat));
    lemma_numeral_push(Seq::<nat>::empty(), bytes[0] as nat, 8);
    lemma2_to64();
    let empty = Seq::<nat>::empty();
    assert(8 * empty.len() == 0);
    assert(bytes[0] as nat * pow2(0) == bytes[0] as nat) by (nonlinear_arith)
        requires
            pow2(0) == 1,
    ;
}

pub proof fn lemma_le_value_bound(bytes: Seq<u8>)
    ensures
        le_value(bytes) < pow2(8 * bytes.len()),
{
    lemma2_to64();
    lemma_numeral_bound(byte_digits(bytes), 8);
}

/// An eight-byte number, written and read back, is itself, in either byte order.
pub proof fn lemma_u64_bytes(value: u64)
    ensures
        le_value(le_bytes(value as nat, 8)) == value,
        be_value(be_bytes(value as nat, 8)) == value,
        le_bytes(value as nat, 8).len() == 8,
        be_bytes(value as nat, 8).len() == 8,
{
    lemma2_to64();
    lemma_le_value_of_bytes(value as nat, 8);
    assert(be_bytes(value as nat, 8).reverse() =~= le_bytes(value as nat, 8));
}

/// The eight bytes of `value`, least significant first.
pub fn u64_bytes(value: u64) -> (bytes: Vec<u8>)
    ensures
        bytes@ == le_bytes(value as nat, 8),
{
    let mut bytes: Vec<u8> = Vec::new();
    let mut rest: u64 = value;
    let mut i: usize = 0;
    proof {
        lemma2_to64();
        assert(8 * i as nat == 0);
        assert(value as nat / 1 == value);
    }
    while i < 8
        invariant
            i <= 8,
            rest == value as nat / pow2(8 * i as nat),
            bytes@ == le_bytes(value as nat, i as nat),
        decreases 8 - i,
    {
        bytes.push((rest % 256) as u8);
        proof {
            lemma2_to64();
            lemma_pow2_pos(8 * i as nat);
            lemma_pow2_adds(8 * i as nat, 8);
            lemma_div_denominator(value as int, pow2(8 * i as nat) as int, 256);
            assert(le_bytes(value as nat, (i + 1) as nat) =~= le_bytes(value as nat, i as nat).push(
                (rest % 256) as u8,
            ));
        }
        rest = rest / 256;
        i = i + 1;
    }
    bytes
}

/// Append `value`, least significant byte first.
pub fn put_u64_le(out: &mut Vec<u8>, value: u64)
    ensures
        final(out)@ == old(out)@ + le_bytes(value as nat, 8),
{
    let mut bytes = u64_bytes(value);
    out.append(&mut bytes);
}

/// Append `value`, most significant byte first.
pub fn put_u64_be(out: &mut Vec<u8>, value: u64)
    ensures
        final(out)@ == old(out)@ + be_bytes(value as nat, 8),
{
    let bytes = u64_bytes(value);
    let ghost start = out@;
    let mut i: usize = 0;
    assert(start + be_bytes(value as nat, 8).take(0) =~= out@);
    while i < 8
        invariant
            i <= 8,
            bytes@ == le_bytes(value as nat, 8),
            out@ == start + be_bytes(value as nat, 8).take(i as int),
        decreases 8 - i,
    {
        out.push(bytes[7 - i]);
        assert(out@ =~= start + be_bytes(value as nat, 8).take(i + 1));
        i = i + 1;
    }
    assert(be_bytes(value as nat, 8).take(8) =~= be_bytes(value as nat, 8));
}

/// The little-endian number at `at`.
pub fn read_u64_le(bytes: &[u8], at: usize) -> (value: u64)
    requires
        at + 8 <= bytes.len(),
    ensures
        value == le_value(bytes@.subrange(at as int, at + 8)),
{
    let ghost field = bytes@.subrange(at as int, at + 8);
    let mut value: u64 = 0;
    let mut left: usize = 8;
    proof {
        lemma2_to64();
        assert(field.skip(8) =~= Seq::<u8>::empty());
    }
    while left > 0
        invariant
            left <= 8,
            at + 8 <= bytes.len(),
            field == bytes@.subrange(at as int, at + 8),
            value == le_value(field.skip(left as int)),
        decreases left,
    {
        left = left - 1;
        proof {
            let rest = field.skip(left as int);
            lemma_le_value_first(rest);
            assert(rest.skip(1) =~= field.skip(left + 1));
            lemma_le_value_bound(rest);
            lemma2_to64();
            lemma2_to64_rest();
            if left > 0 {
                lemma_pow2_strictly_increases((8 * (8 - left)) as nat, 64);
            }
        }
        value = value * 256 + bytes[at + left] as u64;
    }
    assert(field.skip(0) =~= field);
    value
}

/// The big-endian number at `at`.
pub fn read_u64_be(bytes: &[u8], at: usize) -> (value: u64)
    requires
        at + 8 <= bytes.len(),
    ensures
        value == be_value(bytes@.subrange(at as int, at + 8)),
{
    let ghost field = bytes@.subrange(at as int, at + 8);
    let ghost back = field.reverse();
    let mut value: u64 = 0;
    let mut i: usize = 0;
    proof {
        lemma2_to64();
        assert(back.skip(8) =~= Seq::<u8>::empty());
    }
    while i < 8
        invariant
            i <= 8,
            at + 8 <= bytes.len(),
            field == bytes@.subrange(at as int, at + 8),
            back == field.reverse(),
            value == le_value(back.skip(8 - i)),
        decreases 8 - i,
    {
        proof {
            let rest = back.skip(7 - i);
            lemma_le_value_first(rest);
            assert(rest.skip(1) =~= back.skip(8 - i));
            lemma_le_value_bound(rest);
            lemma2_to64();
            lemma2_to64_rest();
            if i < 7 {
                lemma_pow2_strictly_increases((8 * (i + 1)) as nat, 64);
            }
            assert(rest[0] == bytes@[at + i]);
        }
        value = value * 256 + bytes[at + i] as u64;
        i = i + 1;
    }
    assert(back.skip(0) =~= back);
    value
}

/// The 32 bytes at `at`.
pub fn read_hash(bytes: &[u8], at: usize) -> (hash: [u8; 32])
    requires
        at + 32 <= bytes.len(),
    ensures
        hash@ == bytes@.subrange(at as int, at + 32),
{
    let mut hash: [u8; 32] = [0u8; 32];
    let mut i: usize = 0;
    while i < 32
        invariant
            i <= 32,
            at + 32 <= bytes.len(),
            forall|k: int| 0 <= k < i ==> hash@[k] == bytes@[at + k],
        decreases 32 - i,
    {
        hash[i] = bytes[at + i];
        i = i + 1;
    }
    assert(hash@ =~= bytes@.subrange(at as int, at + 32));
    hash
}

} // verus!
