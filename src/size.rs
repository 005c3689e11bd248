//! Sizes in bytes as short human-readable text.
use vstd::prelude::*;

verus! {

/// The decimal digit for `d` (below ten).
pub open spec fn digit_char(d: int) -> char {
    if d == 0 {
        '0'
    } else if d == 1 {
        '1'
    } else if d == 2 {
        '2'
    } else if d == 3 {
        '3'
    } else if d == 4 {
        '4'
    } else if d == 5 {
        '5'
    } else if d == 6 {
        '6'
    } else if d == 7 {
        '7'
    } else if d == 8 {
        '8'
    } else {
        '9'
    }
}

/// `n` in decimal, without leading zeros.
pub open spec fn decimal(n: nat) -> Seq<char>
    decreases n,
{
    if n < 10 {
        seq![digit_char(n as int)]
    } else {
        decimal(n / 10).push(digit_char((n % 10) as int))
    }
}

/// `num / unit` rounded to the nearest integer, ties to the even one.
pub open spec fn rounded_ratio(num: nat, unit: nat) -> nat {
    let q = num / unit;
    let r = num % unit;
    if 2 * r > unit || (2 * r == unit && q % 2 == 1) {
        q + 1
    } else {
        q
    }
}

/// `num / unit` with three decimals, followed by `suffix`.
pub open spec fn scaled_text(num: nat, unit: nat, suffix: Seq<char>) -> Seq<char> {
    let t = rounded_ratio(num * 1000, unit);
    decimal(t / 1000) + seq![
        '.',
        digit_char((t / 100 % 10) as int),
        digit_char((t / 10 % 10) as int),
        digit_char((t % 10) as int),
    ] + suffix
}

/// `num` bytes as text: in mebibytes or kibibytes with three decimals from
/// those units on, else in bytes.
pub open spec fn size_text(num: nat) -> Seq<char> {
    if num >= 1048576 {
        scaled_text(num, 1048576, " МБ"@)
    } else if num >= 1024 {
        scaled_text(num, 1024, " КБ"@)
    } else {
        decimal(num) + " Б"@
    }
}

fn digit_text(d: u64) -> (r: &'static str)
    requires
        d < 10,
    ensures
        r@ == seq![digit_char(d as int)],
{
    let r = match d {
        0 => "0",
        1 => "1",
        2 => "2",
        3 => "3",
        4 => "4",
        5 => "5",
        6 => "6",
        7 => "7",
        8 => "8",
        _ => "9",
    };
    proof {
        reveal_strlit("0");
        reveal_strlit("1");
        reveal_strlit("2");
        reveal_strlit("3");
        reveal_strlit("4");
        reveal_strlit("5");
        reveal_strlit("6");
        reveal_strlit("7");
        reveal_strlit("8");
        reveal_strlit("9");
    }
    r
}

fn push_decimal(s: &mut String, n: u64)
    ensures
        final(s)@ == old(s)@ + decimal(n as nat),
    decreases n,
{
    if n >= 10 {
        push_decimal(s, n / 10);
    }
    s.append(digit_text(n % 10));
    proof {
        if n >= 10 {
            assert(decimal(n as nat) == decimal((n / 10) as nat).push(digit_char((n % 10) as int)));
        }
    }
    assert(s@ =~= old(s)@ + decimal(n as nat));
}

/// Rounding `n * 1000 / u` splits into the whole units of `n` and the
/// rounded thousandths of what is left.
proof fn lemma_rounded_parts(n: int, u: int, whole: int, rest: int, q: int, r: int)
    requires
        u >= 1024,
        n >= 0,
        whole == n / u,
        rest == n % u,
        q == (rest * 1000) / u,
        r == (rest * 1000) % u,
    ensures
        n == u * whole + rest,
        0 <= q < 1000,
        0 <= r < u,
        rounded_ratio((n * 1000) as nat, u as nat) == whole * 1000 + (if 2 * r > u || (2 * r == u
            && q % 2 == 1) {
            q + 1
        } else {
            q
        }),
{
    vstd::arithmetic::div_mod::lemma_fundamental_div_mod(n, u);
    vstd::arithmetic::div_mod::lemma_fundamental_div_mod(rest * 1000, u);
    assert(0 <= rest < u);
    assert(0 <= r < u);
    assert(0 <= q < 1000) by (nonlinear_arith)
        requires
            rest * 1000 == u * q + r,
            0 <= rest < u,
            0 <= r < u,
    ;
    assert(n * 1000 == u * (whole * 1000 + q) + r) by (nonlinear_arith)
        requires
            n == u * whole + rest,
            rest * 1000 == u * q + r,
    ;
    vstd::arithmetic::div_mod::lemma_fundamental_div_mod_converse(n * 1000, u, whole * 1000 + q, r);
    assert((whole * 1000 + q) % 2 == q % 2);
}

/// `num / unit` rounded to thousandths, as whole units and thousandths.
fn scaled_parts(num: u64, unit: u64) -> (r: (u64, u64))
    requires
        1024 <= unit <= 1048576,
    ensures
        r.1 < 1000,
        rounded_ratio(num as nat * 1000, unit as nat) == r.0 * 1000 + r.1,
{
    let whole = num / unit;
    let rest = num % unit;
    proof {
        lemma_rounded_parts(
            num as int,
            unit as int,
            whole as int,
            rest as int,
            (rest * 1000) as int / unit as int,
            (rest * 1000) as int % unit as int,
        );
        assert(whole < 0x40_0000_0000_0000) by (nonlinear_arith)
            requires
                num == unit * whole + rest,
                unit >= 1024,
                rest >= 0,
                num <= u64::MAX,
        ;
    }
    let scaled = rest * 1000;
    let q = scaled / unit;
    let r = scaled % unit;
    let up = 2 * r > unit || (2 * r == unit && q % 2 == 1);
    let frac = if up {
        q + 1
    } else {
        q
    };
    if frac == 1000 {
        (whole + 1, 0)
    } else {
        (whole, frac)
    }
}

/// Appends `num / unit`, rounded to three decimals, and `suffix`.
fn push_scaled(s: &mut String, num: u64, unit: u64, suffix: &str)
    requires
        1024 <= unit <= 1048576,
    ensures
        final(s)@ == old(s)@ + scaled_text(num as nat, unit as nat, suffix@),
{
    let (int_part, frac) = scaled_parts(num, unit);
    let ghost t = rounded_ratio(num as nat * 1000, unit as nat);
    assert(t / 1000 == int_part && t % 1000 == frac);
    assert(t / 100 % 10 == frac / 100);
    assert(t / 10 % 10 == frac / 10 % 10);
    push_decimal(s, int_part);
    s.append(".");
    s.append(digit_text(frac / 100));
    s.append(digit_text(frac / 10 % 10));
    s.append(digit_text(frac % 10));
    s.append(suffix);
    proof {
        reveal_strlit(".");
    }
    assert(s@ =~= old(s)@ + scaled_text(num as nat, unit as nat, suffix@));
}

/// `num` bytes as short text for the user: in mebibytes or kibibytes with
/// three decimals from those units on, else in bytes.
pub fn get_z(num: usize) -> (r: String)
    ensures
        r@ == size_text(num as nat),
{
    let mut s = String::new();
    let n = num as u64;
    if n >= 1048576 {
        push_scaled(&mut s, n, 1048576, " МБ");
    } else if n >= 1024 {
        push_scaled(&mut s, n, 1024, " КБ");
    } else {
        push_decimal(&mut s, n);
        s.append(" Б");
    }
    assert(s@ =~= size_text(num as nat));
    s
}

} // verus!
