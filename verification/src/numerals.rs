//! Numbers written out in digits.
use vstd::prelude::*;

verus! {

/// The digit of value `d`: `0` to `9`, then `a` to `f`.
pub open spec fn digit(d: nat) -> char {
    if d < 10 {
        (48 + d) as char
    } else {
        (87 + d) as char
    }
}

/// `n` in base `base`, most significant digit first, without leading zeros.
pub open spec fn digits(n: nat, base: nat) -> Seq<char>
    decreases n,
{
    if base < 2 || n < base {
        seq![digit(n)]
    } else {
        proof {
            assert(n / base < n) by (nonlinear_arith)
                requires
                    2 <= base <= n,
            ;
        }
        digits(n / base, base).push(digit(n % base))
    }
}

/// Two numbers with the same digits are equal.
pub proof fn digits_injective(a: nat, b: nat, base: nat)
    requires
        2 <= base <= 16,
        digits(a, base) == digits(b, base),
    ensures
        a == b,
    decreases a,
{
    if a < base && b < base {
        assert(digits(a, base)[0] == digit(a));
        assert(digits(b, base)[0] == digit(b));
    } else if a < base {
        lemma_digits_nonempty(b / base, base);
        assert(digits(b, base).len() >= 2);
    } else if b < base {
        lemma_digits_nonempty(a / base, base);
        assert(digits(a, base).len() >= 2);
    } else {
        assert(digits(a, base).drop_last() =~= digits(a / base, base));
        assert(digits(b, base).drop_last() =~= digits(b / base, base));
        assert(a / base < a) by (nonlinear_arith)
            requires
                2 <= base <= a,
        ;
        digits_injective(a / base, b / base, base);
        assert(digits(a, base).last() == digit(a % base));
        assert(digits(b, base).last() == digit(b % base));
        vstd::arithmetic::div_mod::lemma_mod_bound(a as int, base as int);
        vstd::arithmetic::div_mod::lemma_mod_bound(b as int, base as int);
        assert(a % base == b % base);
        vstd::arithmetic::div_mod::lemma_fundamental_div_mod(a as int, base as int);
        vstd::arithmetic::div_mod::lemma_fundamental_div_mod(b as int, base as int);
    }
}

proof fn lemma_digits_nonempty(n: nat, base: nat)
    ensures
        digits(n, base).len() >= 1,
{
}

/// `n` in decimal.
pub open spec fn decimal(n: nat) -> Seq<char> {
    digits(n, 10)
}

/// `0x` and `n` in lower-case hexadecimal, with zeros in front up to four
/// digits.
pub open spec fn hex_id(n: nat) -> Seq<char> {
    let shown = digits(n, 16);
    let zeros: Seq<char> = if shown.len() < 4 {
        Seq::new((4 - shown.len()) as nat, |i: int| '0')
    } else {
        Seq::empty()
    };
    "0x"@ + zeros + shown
}

fn digit_char(d: u32) -> (c: char)
    requires
        d < 16,
    ensures
        c == digit(d as nat),
{
    if d < 10 {
        (48 + d as u8) as char
    } else {
        (87 + d as u8) as char
    }
}

/// The digits of `n` in base `base`.
fn write_digits(n: u128, base: u128) -> (s: String)
    requires
        2 <= base <= 16,
    ensures
        s@ == digits(n as nat, base as nat),
    decreases n,
{
    if n < base {
        let mut s = String::new();
        s.push(digit_char(n as u32));
        assert(s@ =~= seq![digit(n as nat)]);
        s
    } else {
        assert(n / base < n) by (nonlinear_arith)
            requires
                2 <= base <= n,
        ;
        let mut s = write_digits(n / base, base);
        s.push(digit_char((n % base) as u32));
        s
    }
}

/// `n` in decimal.
pub fn to_decimal(n: u128) -> (s: String)
    ensures
        s@ == decimal(n as nat),
{
    write_digits(n, 10)
}

/// `n` as a hexadecimal identifier of at least four digits, such as `0x10de`.
pub fn to_hex_id(n: u32) -> (s: String)
    ensures
        s@ == hex_id(n as nat),
{
    let shown = write_digits(n as u128, 16);
    let len: usize = shown.as_str().unicode_len();
    let mut s = "0x".to_owned();
    let mut i: usize = len;
    while i < 4
        invariant
            len == shown@.len(),
            len <= i,
            i <= 4 || i == len,
            s@ == "0x"@ + Seq::new((i - len) as nat, |j: int| '0'),
        decreases 4 - i,
    {
        proof {
            let before = Seq::new((i - len) as nat, |j: int| '0');
            assert(Seq::new((i + 1 - len) as nat, |j: int| '0') =~= before.push('0'));
            assert("0x"@ + before.push('0') =~= ("0x"@ + before).push('0'));
        }
        s.push('0');
        i += 1;
    }
    s.append(shown.as_str());
    s
}

// ---------------------------------------------------------------------------
// Laws
// ---------------------------------------------------------------------------

/// Ten times a number and a digit is written as the number with the digit
/// behind it, and a number below ten as its digit.
pub proof fn decimal_grows_by_a_digit(n: nat, d: nat)
    requires
        d < 10,
    ensures
        decimal(d) == seq![(48 + d) as char],
        n > 0 ==> decimal(10 * n + d) == decimal(n).push((48 + d) as char),
{
    assert((10 * n + d) / 10 == n);
    assert((10 * n + d) % 10 == d);
}

/// An identifier is `0x` and four digits, from the highest half byte to the
/// lowest, where these suffice; beyond, each further half byte adds a digit.
pub proof fn hex_id_shows_half_bytes(a: nat, b: nat, c: nat, d: nat, n: nat)
    requires
        a < 16,
        b < 16,
        c < 16,
        d < 16,
        n >= 0x1000,
    ensures
        hex_id(0x1000 * a + 0x100 * b + 0x10 * c + d) == seq![
            '0',
            'x',
            if a < 10 { (48 + a) as char } else { (87 + a) as char },
            if b < 10 { (48 + b) as char } else { (87 + b) as char },
            if c < 10 { (48 + c) as char } else { (87 + c) as char },
            if d < 10 { (48 + d) as char } else { (87 + d) as char },
        ],
        hex_id(16 * n + d) == hex_id(n).push(
            if d < 10 { (48 + d) as char } else { (87 + d) as char },
        ),
{
    reveal_strlit("0x");
    reveal_with_fuel(digits, 5);
    let m = 0x1000 * a + 0x100 * b + 0x10 * c + d;
    let m1 = 0x100 * a + 0x10 * b + c;
    let m2 = 0x10 * a + b;
    assert(m / 16 == m1 && m % 16 == d);
    assert(m1 / 16 == m2 && m1 % 16 == c);
    assert(m2 / 16 == a && m2 % 16 == b);
    assert(hex_id(m) =~= seq!['0', 'x', digit(a), digit(b), digit(c), digit(d)]);
    assert((16 * n + d) / 16 == n && (16 * n + d) % 16 == d);
    lemma_four_digits(n);
    assert(hex_id(16 * n + d) =~= hex_id(n).push(digit(d)));
}

proof fn lemma_four_digits(n: nat)
    requires
        n >= 0x1000,
    ensures
        digits(n, 16).len() >= 4,
{
    reveal_with_fuel(digits, 5);
    assert(n / 16 >= 0x100);
    assert((n / 16) / 16 >= 0x10);
    assert(((n / 16) / 16) / 16 >= 1);
}

} // verus!
