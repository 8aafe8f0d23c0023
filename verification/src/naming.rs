//! Zero-padded decimal numbers, as `format!("{:0width$}", n)` writes them.
use vstd::prelude::*;

verus! {

/// The decimal digit for `d` (below 10).
pub open spec fn digit_char(d: int) -> char {
    ('0' as int + d) as char
}

/// The decimal digits of `n`, most significant first, without leading
/// zeros (`0` for zero).
pub open spec fn decimal(n: nat) -> Seq<char>
    decreases n,
{
    if n < 10 {
        seq![digit_char(n as int)]
    } else {
        decimal(n / 10).push(digit_char((n % 10) as int))
    }
}

/// The decimal digits of `n`, padded on the left with `0` to at least
/// `width` characters.
pub open spec fn zero_padded(n: nat, width: nat) -> Seq<char> {
    let d = decimal(n);
    if d.len() < width {
        Seq::new((width - d.len()) as nat, |i: int| '0') + d
    } else {
        d
    }
}

/// The number that a string of decimal digits stands for.
pub open spec fn decimal_value(s: Seq<char>) -> int
    decreases s.len(),
{
    if s.len() == 0 {
        0
    } else {
        decimal_value(s.drop_last()) * 10 + (s.last() as int - '0' as int)
    }
}

fn digit_of(d: usize) -> (res: char)
    requires
        d < 10,
    ensures
        res == digit_char(d as int),
{
    let b: u8 = d as u8;
    (b + 48) as char
}

fn decimal_digits(n: usize) -> (res: Vec<char>)
    ensures
        res@ == decimal(n as nat),
    decreases n,
{
    if n < 10 {
        let mut v: Vec<char> = Vec::new();
        v.push(digit_of(n));
        assert(v@ =~= seq![digit_char(n as int)]);
        v
    } else {
        let mut v = decimal_digits(n / 10);
        v.push(digit_of(n % 10));
        v
    }
}

/// `n` in decimal, padded on the left with `0` to `width` characters.
pub fn zero_pad(n: usize, width: usize) -> (res: String)
    ensures
        res@ == zero_padded(n as nat, width as nat),
{
    let digits = decimal_digits(n);
    let mut out: Vec<char> = Vec::new();
    if digits.len() < width {
        let pad = width - digits.len();
        let mut i: usize = 0;
        while i < pad
            invariant
                i <= pad,
                out@ == Seq::new(i as nat, |j: int| '0'),
            decreases pad - i,
        {
            out.push('0');
            i = i + 1;
            assert(out@ =~= Seq::new(i as nat, |j: int| '0'));
        }
    }
    let mut k: usize = 0;
    let ghost zeros = out@;
    while k < digits.len()
        invariant
            k <= digits@.len(),
            out@ == zeros + digits@.take(k as int),
        decreases digits@.len() - k,
    {
        out.push(digits[k]);
        k = k + 1;
        assert(out@ =~= zeros + digits@.take(k as int));
    }
    assert(digits@.take(digits@.len() as int) =~= digits@);
    proof {
        if digits@.len() >= width {
            assert(zeros =~= Seq::<char>::empty());
        }
        assert(out@ =~= zero_padded(n as nat, width as nat));
    }
    crate::text::string_of(out.as_slice())
}

/// Decimal digits read back as their number.
pub proof fn lemma_decimal_value(n: nat)
    ensures
        decimal_value(decimal(n)) == n,
        decimal(n).len() >= 1,
        forall|i: int| 0 <= i < decimal(n).len() ==> '0' <= #[trigger] decimal(n)[i] <= '9',
    decreases n,
{
    if n >= 10 {
        lemma_decimal_value(n / 10);
        let d = decimal(n);
        assert(d.drop_last() =~= decimal(n / 10));
        assert(d.last() == digit_char((n % 10) as int));
        assert(digit_char((n % 10) as int) as int == '0' as int + (n % 10));
        assert(n == (n / 10) * 10 + n % 10);
        assert(decimal_value(d) == decimal_value(d.drop_last()) * 10 + (d.last() as int - '0' as int));
        assert(decimal_value(d) == n);
        assert forall|i: int| 0 <= i < d.len() implies '0' <= #[trigger] d[i] <= '9' by {
            if i < d.len() - 1 {
                assert(d[i] == decimal(n / 10)[i]);
            }
        }
    } else {
        assert(decimal(n).drop_last() =~= Seq::<char>::empty());
        assert(digit_char(n as int) as int == '0' as int + n);
        let d = decimal(n);
        assert(decimal_value(d.drop_last()) == 0);
        assert(decimal_value(d) == n);
    }
}

proof fn lemma_leading_zeros(z: nat, s: Seq<char>)
    ensures
        decimal_value(Seq::new(z, |i: int| '0') + s) == decimal_value(s),
    decreases s.len(),
{
    let zs = Seq::new(z, |i: int| '0');
    if s.len() == 0 {
        assert(zs + s =~= zs);
        lemma_zeros_value(z);
    } else {
        lemma_leading_zeros(z, s.drop_last());
        assert((zs + s).drop_last() =~= zs + s.drop_last());
    }
}

proof fn lemma_zeros_value(z: nat)
    ensures
        decimal_value(Seq::new(z, |i: int| '0')) == 0,
    decreases z,
{
    if z > 0 {
        lemma_zeros_value((z - 1) as nat);
        assert(Seq::new(z, |i: int| '0').drop_last() =~= Seq::new((z - 1) as nat, |i: int| '0'));
    }
}

/// A zero-padded number reads back as that number.
pub proof fn lemma_zero_padded_value(n: nat, width: nat)
    ensures
        decimal_value(zero_padded(n, width)) == n,
{
    lemma_decimal_value(n);
    let d = decimal(n);
    if d.len() < width {
        lemma_leading_zeros((width - d.len()) as nat, d);
    }
}

/// Distinct numbers are written differently.
pub proof fn lemma_zero_padded_injective(n: nat, m: nat, width: nat)
    requires
        n != m,
    ensures
        zero_padded(n, width) != zero_padded(m, width),
{
    lemma_zero_padded_value(n, width);
    lemma_zero_padded_value(m, width);
}

/// Every character of a zero-padded number is a decimal digit.
pub proof fn lemma_zero_padded_digits(n: nat, width: nat)
    ensures
        forall|i: int| 0 <= i < zero_padded(n, width).len() ==> '0' <= #[trigger] zero_padded(n, width)[i] <= '9',
{
    lemma_decimal_value(n);
    let d = decimal(n);
    if d.len() < width {
        let z = Seq::new((width - d.len()) as nat, |i: int| '0');
        assert forall|i: int| 0 <= i < zero_padded(n, width).len() implies '0' <= #[trigger] zero_padded(n, width)[i] <= '9' by {
            if i >= z.len() {
                assert(zero_padded(n, width)[i] == d[i - z.len()]);
            }
        }
    }
}

} // verus!
