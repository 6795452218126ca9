//! Lower-case hexadecimal digits, written and read back.
use vstd::arithmetic::div_mod::lemma_breakdown;
use vstd::arithmetic::power::pow;
use vstd::prelude::*;

verus! {

/// The lower-case hexadecimal digit of `d`, for `d` below 16.
pub open spec fn hex_char(d: nat) -> char {
    if d < 10 {
        ('0' as u32 + d) as char
    } else {
        ('a' as u32 + (d - 10)) as char
    }
}

pub open spec fn is_hex(c: char) -> bool {
    ('0' <= c && c <= '9') || ('a' <= c && c <= 'f')
}

/// The value of a lower-case hexadecimal digit.
pub open spec fn hex_value_of(c: char) -> nat {
    if '0' <= c && c <= '9' {
        (c as u32 - '0' as u32) as nat
    } else {
        (c as u32 - 'a' as u32 + 10) as nat
    }
}

pub open spec fn all_hex(s: Seq<char>) -> bool {
    forall|i: int| 0 <= i < s.len() ==> is_hex(#[trigger] s[i])
}

/// The last `n` hexadecimal digits of `v`, most significant first.
pub open spec fn hex_digits(v: nat, n: nat) -> Seq<char>
    decreases n,
{
    if n == 0 {
        seq![]
    } else {
        hex_digits(v / 16, (n - 1) as nat).push(hex_char(v % 16))
    }
}

/// The value of a string of hexadecimal digits, most significant first.
pub open spec fn hex_value(s: Seq<char>) -> nat
    decreases s.len(),
{
    if s.len() == 0 {
        0
    } else {
        hex_value(s.drop_last()) * 16 + hex_value_of(s.last())
    }
}

proof fn lemma_hex_char(d: nat)
    requires
        d < 16,
    ensures
        is_hex(hex_char(d)),
        hex_value_of(hex_char(d)) == d,
{
}

/// Reading back the digits that [`hex_digits`] writes gives the value they
/// stand for.
pub proof fn lemma_hex_round_trip(v: nat, n: nat)
    ensures
        hex_digits(v, n).len() == n,
        all_hex(hex_digits(v, n)),
        hex_value(hex_digits(v, n)) == v % (pow(16, n) as nat),
    decreases n,
{
    reveal(pow);
    if n == 0 {
    } else {
        lemma_hex_round_trip(v / 16, (n - 1) as nat);
        lemma_hex_char(v % 16);
        let s = hex_digits(v, n);
        assert(s.drop_last() =~= hex_digits(v / 16, (n - 1) as nat));
        vstd::arithmetic::power::lemma_pow_positive(16, (n - 1) as nat);
        lemma_breakdown(v as int, 16, pow(16, (n - 1) as nat));
        assert(pow(16, n) == 16 * pow(16, (n - 1) as nat));
    }
}

/// A string of hexadecimal digits is worth less than 16 to the power of its length.
pub proof fn lemma_hex_value_bound(s: Seq<char>)
    requires
        all_hex(s),
    ensures
        hex_value(s) < pow(16, s.len()),
    decreases s.len(),
{
    reveal(pow);
    if s.len() > 0 {
        lemma_hex_value_bound(s.drop_last());
        let a = hex_value(s.drop_last()) as int;
        let p = pow(16, (s.len() - 1) as nat);
        let d = hex_value_of(s.last()) as int;
        assert(is_hex(s.last()));
        assert(a * 16 + d < p * 16) by (nonlinear_arith)
            requires
                a < p,
                0 <= d < 16,
        ;
    }
}

/// 16 to the 32nd power is the count of 128-bit numbers.
pub proof fn lemma_pow16_32()
    ensures
        pow(16, 32) == 0x1_0000_0000_0000_0000_0000_0000_0000_0000int,
{
    reveal_with_fuel(pow, 33);
}

/// 16 squared.
pub proof fn lemma_pow16_2()
    ensures
        pow(16, 2) == 256,
{
    reveal_with_fuel(pow, 3);
}

/// The digit `d` as a one-character string.
fn hex_str(d: u128) -> (r: &'static str)
    requires
        d < 16,
    ensures
        r@ == seq![hex_char(d as nat)],
{
    proof {
        reveal_strlit("0");
        reveal_strlit("1");
        reveal_strlit("2");
        reveal_strlit("3");
        reveal_strlit("4");
        reveal_strlit("5");
        reveal_strlit("6");
        reveal_strlit("7");
        reveal_strlit("8");
        reveal_strlit("9");
        reveal_strlit("a");
        reveal_strlit("b");
        reveal_strlit("c");
        reveal_strlit("d");
        reveal_strlit("e");
        reveal_strlit("f");
    }
    if d == 0 {
        "0"
    } else if d == 1 {
        "1"
    } else if d == 2 {
        "2"
    } else if d == 3 {
        "3"
    } else if d == 4 {
        "4"
    } else if d == 5 {
        "5"
    } else if d == 6 {
        "6"
    } else if d == 7 {
        "7"
    } else if d == 8 {
        "8"
    } else if d == 9 {
        "9"
    } else if d == 10 {
        "a"
    } else if d == 11 {
        "b"
    } else if d == 12 {
        "c"
    } else if d == 13 {
        "d"
    } else if d == 14 {
        "e"
    } else {
        "f"
    }
}

/// Appends the last `n` hexadecimal digits of `v` to `out`.
pub fn push_hex(out: &mut String, v: u128, n: u32)
    ensures
        final(out)@ == old(out)@ + hex_digits(v as nat, n as nat),
    decreases n,
{
    if n > 0 {
        push_hex(out, v / 16, n - 1);
        out.append(hex_str(v % 16));
        assert(final(out)@ =~= old(out)@ + hex_digits(v as nat, n as nat));
    } else {
        assert(final(out)@ =~= old(out)@ + hex_digits(v as nat, n as nat));
    }
}

/// Reads the hexadecimal digits that `s` holds from `from` up to `to`,
/// where all of them are digits.
pub fn read_hex(s: &str, from: usize, to: usize) -> (r: Option<u128>)
    requires
        from <= to <= s@.len(),
        to - from <= 32,
    ensures
        all_hex(s@.subrange(from as int, to as int)) <==> r is Some,
        r matches Some(v) ==> v == hex_value(s@.subrange(from as int, to as int)),
{
    let ghost whole = s@.subrange(from as int, to as int);
    let mut v: u128 = 0;
    let mut j: usize = from;
    while j < to
        invariant
            from <= j <= to <= s@.len(),
            to - from <= 32,
            whole == s@.subrange(from as int, to as int),
            all_hex(whole.take(j - from)),
            v == hex_value(whole.take(j - from)),
        decreases to - j,
    {
        let c = s.get_char(j);
        let ghost i = j - from;
        assert(c == whole[i]);
        if !(('0' <= c && c <= '9') || ('a' <= c && c <= 'f')) {
            assert(!is_hex(whole[i]));
            return None;
        }
        let d: u128 = if '0' <= c && c <= '9' {
            (c as u32 - '0' as u32) as u128
        } else {
            (c as u32 - 'a' as u32 + 10) as u128
        };
        let ghost t = whole.take(i + 1);
        assert(t.drop_last() =~= whole.take(i));
        assert(t.last() == c);
        proof {
            lemma_hex_value_bound(t);
            vstd::arithmetic::power::lemma_pow_increases(16, t.len(), 32);
            lemma_pow16_32();
        }
        v = v * 16 + d;
        j = j + 1;
    }
    assert(whole.take(j - from) =~= whole);
    Some(v)
}

} // verus!
