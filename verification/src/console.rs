//! Number formatting for the bare-metal serial console.
use vstd::prelude::*;

verus! {

pub open spec fn pow_base(base: int, n: nat) -> int
    decreases n,
{
    if n == 0 { 1 } else { base * pow_base(base, (n - 1) as nat) }
}

/// The number that the digit values `s` (most significant first) spell in `base`.
pub open spec fn digits_value(s: Seq<int>, base: int) -> int
    decreases s.len(),
{
    if s.len() == 0 { 0 } else { digits_value(s.drop_last(), base) * base + s.last() }
}

/// The value of a decimal digit character.
pub open spec fn dec_digit(c: u8) -> int {
    c - 48
}

/// The value of a lowercase hexadecimal digit character.
pub open spec fn hex_digit(c: u8) -> int {
    if 48 <= c <= 57 { c - 48 } else { c - 97 + 10 }
}

pub open spec fn is_dec_char(c: u8) -> bool {
    48 <= c <= 57
}

pub open spec fn is_hex_char(c: u8) -> bool {
    48 <= c <= 57 || 97 <= c <= 102
}

pub proof fn lemma_digits_nonneg(s: Seq<int>, base: int)
    requires
        base >= 0,
        forall|i: int| 0 <= i < s.len() ==> #[trigger] s[i] >= 0,
    ensures
        digits_value(s, base) >= 0,
    decreases s.len(),
{
    if s.len() > 0 {
        lemma_digits_nonneg(s.drop_last(), base);
        assert(digits_value(s.drop_last(), base) * base >= 0) by (nonlinear_arith)
            requires
                digits_value(s.drop_last(), base) >= 0,
                base >= 0,
        ;
    }
}

pub proof fn lemma_prepend_value(d: int, s: Seq<int>, base: int)
    ensures
        digits_value(seq![d].add(s), base) == d * pow_base(base, s.len()) + digits_value(s, base),
    decreases s.len(),
{
    if s.len() == 0 {
        let t = seq![d].add(s);
        assert(t.drop_last() =~= Seq::<int>::empty());
        assert(t.last() == d);
        assert(digits_value(t, base) == digits_value(t.drop_last(), base) * base + t.last());
        assert(digits_value(t.drop_last(), base) == 0);
        assert(pow_base(base, 0) == 1);
        assert(0 * base == 0);
    } else {
        let t = seq![d].add(s);
        assert(t.drop_last() =~= seq![d].add(s.drop_last()));
        assert(t.last() == s.last());
        lemma_prepend_value(d, s.drop_last(), base);
        let p = pow_base(base, (s.len() - 1) as nat);
        assert(pow_base(base, s.len()) == base * p);
        assert(digits_value(t, base) == digits_value(t.drop_last(), base) * base + t.last());
        assert(digits_value(s, base) == digits_value(s.drop_last(), base) * base + s.last());
        assert(d * p * base == d * (base * p)) by (nonlinear_arith);
        let dv = digits_value(s.drop_last(), base);
        assert((d * p + dv) * base == d * p * base + dv * base) by (nonlinear_arith);
        assert(digits_value(t.drop_last(), base) == d * p + dv);
        assert(digits_value(t, base) == (d * p + dv) * base + s.last());
    }
}

/// The ASCII decimal digits of `value`, most significant first, without leading zeros
/// ("0" for zero).
pub fn decimal_digits(value: u32) -> (r: Vec<u8>)
    ensures
        r@.len() >= 1,
        forall|i: int| 0 <= i < r@.len() ==> is_dec_char(#[trigger] r@[i]),
        digits_value(r@.map_values(|c: u8| dec_digit(c)), 10) == value,
        value != 0 ==> r@[0] != 48u8,
        value == 0 ==> r@ == seq![48u8],
{
    let mut out: Vec<u8> = Vec::new();
    if value == 0 {
        out.push(48u8);
        let ghost m = out@.map_values(|c: u8| dec_digit(c));
        assert(m.drop_last() =~= Seq::<int>::empty());
        assert(m.last() == 0);
        assert(digits_value(m.drop_last(), 10) == 0);
        assert(digits_value(m, 10) == digits_value(m.drop_last(), 10) * 10 + m.last());
        assert(out@ =~= seq![48u8]);
        return out;
    }
    let mut v = value;
    while v != 0
        invariant
            value == v * pow_base(10, out@.len()) + digits_value(out@.map_values(|c: u8| dec_digit(c)), 10),
            forall|i: int| 0 <= i < out@.len() ==> is_dec_char(#[trigger] out@[i]),
            out@.len() > 0 ==> out@[0] != 48u8 || v != 0,
            v == 0 ==> out@.len() > 0,
            value != 0,
        decreases v,
    {
        let d = (v % 10) as u8;
        let ghost old_out = out@;
        let ghost q = (v / 10) as int;
        out.insert(0, 48u8 + d);
        proof {
            let m = out@.map_values(|c: u8| dec_digit(c));
            let om = old_out.map_values(|c: u8| dec_digit(c));
            assert(m =~= seq![d as int].add(om));
            lemma_prepend_value(d as int, om, 10);
            let p = pow_base(10, old_out.len());
            assert(value == (10 * q + d) * p + digits_value(om, 10));
            assert((10 * q + d) * p == q * (10 * p) + d * p) by (nonlinear_arith);
            assert(pow_base(10, out@.len()) == 10 * p);
            if q == 0 {
                assert(d != 0);
            }
        }
        v = v / 10;
    }
    out
}

/// "0x" followed by the 16 lowercase hexadecimal digits of `value`.
pub fn hex_digits(value: u64) -> (r: Vec<u8>)
    ensures
        r@.len() == 18,
        r@[0] == 48u8 && r@[1] == 120u8,
        forall|i: int| 2 <= i < 18 ==> is_hex_char(#[trigger] r@[i]),
        digits_value(r@.subrange(2, 18).map_values(|c: u8| hex_digit(c)), 16) == value,
{
    let mut nibbles: Vec<u8> = Vec::new();
    let mut v = value;
    let mut i: usize = 0;
    while i < 16
        invariant
            i <= 16,
            nibbles@.len() == i,
            value == v * pow_base(16, nibbles@.len()) + digits_value(nibbles@.map_values(|c: u8| hex_digit(c)), 16),
            forall|k: int| 0 <= k < nibbles@.len() ==> is_hex_char(#[trigger] nibbles@[k]),
        decreases 16 - i,
    {
        assert(v & 0xf == v % 16 && v >> 4 == v / 16 && v & 0xf < 16) by (bit_vector);
        let d = (v & 0xf) as u8;
        let ch = if d < 10 { 48u8 + d } else { 97u8 + (d - 10) };
        let ghost old_n = nibbles@;
        let ghost q = (v / 16) as int;
        nibbles.insert(0, ch);
        proof {
            let m = nibbles@.map_values(|c: u8| hex_digit(c));
            let om = old_n.map_values(|c: u8| hex_digit(c));
            assert(hex_digit(ch) == d);
            assert(m =~= seq![d as int].add(om));
            lemma_prepend_value(d as int, om, 16);
            let p = pow_base(16, old_n.len());
            assert(value == (16 * q + d) * p + digits_value(om, 16));
            assert((16 * q + d) * p == q * (16 * p) + d * p) by (nonlinear_arith);
        }
        v = v >> 4;
        i = i + 1;
    }
    proof {
        let nm = nibbles@.map_values(|c: u8| hex_digit(c));
        assert forall|j: int| 0 <= j < nm.len() implies #[trigger] nm[j] >= 0 by {
            assert(is_hex_char(nibbles@[j]));
        }
        lemma_digits_nonneg(nm, 16);
        let p = pow_base(16, 16);
        reveal_with_fuel(pow_base, 17);
        assert(p == 0x1_0000_0000_0000_0000);
        assert(v == 0) by (nonlinear_arith)
            requires
                value == v * p + digits_value(nibbles@.map_values(|c: u8| hex_digit(c)), 16),
                p == 0x1_0000_0000_0000_0000,
                value <= u64::MAX,
                digits_value(nibbles@.map_values(|c: u8| hex_digit(c)), 16) >= 0,
        ;
    }
    let mut out: Vec<u8> = Vec::new();
    out.push(48u8);
    out.push(120u8);
    let mut k: usize = 0;
    while k < 16
        invariant
            k <= 16,
            nibbles@.len() == 16,
            out@.len() == k + 2,
            out@[0] == 48u8 && out@[1] == 120u8,
            forall|j: int| 0 <= j < k ==> #[trigger] out@[j + 2] == nibbles@[j],
            forall|j: int| 0 <= j < 16 ==> is_hex_char(#[trigger] nibbles@[j]),
        decreases 16 - k,
    {
        out.push(nibbles[k]);
        k = k + 1;
    }
    assert(out@.subrange(2, 18) =~= nibbles@);
    assert forall|i: int| 2 <= i < 18 implies is_hex_char(#[trigger] out@[i]) by {
        assert(out@[(i - 2) + 2] == nibbles@[i - 2]);
    }
    out
}

} // verus!
