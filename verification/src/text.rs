//! Rendering of numbers and byte lists as text.
use vstd::prelude::*;

verus! {

/// The character of digit `d` (below 16) in lower-case hexadecimal.
pub open spec fn digit_char(d: int) -> char {
    if d == 0 { '0' } else if d == 1 { '1' } else if d == 2 { '2' } else if d == 3 { '3' } else if d == 4 { '4' }
    else if d == 5 { '5' } else if d == 6 { '6' } else if d == 7 { '7' } else if d == 8 { '8' } else if d == 9 { '9' }
    else if d == 10 { 'a' } else if d == 11 { 'b' } else if d == 12 { 'c' } else if d == 13 { 'd' } else if d == 14 { 'e' }
    else { 'f' }
}

/// `n` written in base `b` (2 to 16), most significant digit first, without leading zeros.
pub open spec fn digits(n: nat, b: nat) -> Seq<char>
    decreases n,
{
    if b < 2 || n < b {
        seq![digit_char(n as int)]
    } else {
        proof {
            assert(n / b < n) by (nonlinear_arith)
                requires
                    b >= 2,
                    n >= b,
            ;
        }
        digits(n / b, b).push(digit_char((n % b) as int))
    }
}

/// `s` padded on the left with `c` to at least `w` characters.
pub open spec fn pad_left(s: Seq<char>, w: nat, c: char) -> Seq<char> {
    if s.len() >= w {
        s
    } else {
        Seq::new((w - s.len()) as nat, |i: int| c) + s
    }
}

/// `n` as Rust's `{:#010x}` writes it: `0x` and at least eight hexadecimal digits.
pub open spec fn hex10(n: nat) -> Seq<char> {
    seq!['0', 'x'] + pad_left(digits(n, 16), 8, '0')
}

/// The text of one digit.
fn digit_str(d: u64) -> (s: &'static str)
    requires
        d < 16,
    ensures
        s@ == seq![digit_char(d as int)],
{
    proof {
        reveal_strlit("0");
        reveal_strlit("1");
        reveal_strlit("2");
        reveal_strlit("3");
        reveal_strlit("4");
        reveal_strlit("5");
        reveal_strlit("6");
        reveal_strlit("7");
        reveal_strlit("8");
        reveal_strlit("9");
        reveal_strlit("a");
        reveal_strlit("b");
        reveal_strlit("c");
        reveal_strlit("d");
        reveal_strlit("e");
        reveal_strlit("f");
    }
    let s = if d == 0 { "0" } else if d == 1 { "1" } else if d == 2 { "2" } else if d == 3 { "3" } else if d == 4 { "4" }
    else if d == 5 { "5" } else if d == 6 { "6" } else if d == 7 { "7" } else if d == 8 { "8" } else if d == 9 { "9" }
    else if d == 10 { "a" } else if d == 11 { "b" } else if d == 12 { "c" } else if d == 13 { "d" } else if d == 14 { "e" }
    else { "f" };
    assert(s@ =~= seq![digit_char(d as int)]);
    s
}

/// Appends `n` written in base `b` to `out`.
pub fn push_digits(out: &mut String, n: u64, b: u64)
    requires
        2 <= b <= 16,
    ensures
        final(out)@ == old(out)@ + digits(n as nat, b as nat),
    decreases n,
{
    if n < b {
        out.append(digit_str(n));
    } else {
        assert(n / b < n) by (nonlinear_arith)
            requires
                b >= 2,
                n >= b,
        ;
        push_digits(out, n / b, b);
        out.append(digit_str(n % b));
        assert(digits(n as nat, b as nat) == digits((n / b) as nat, b as nat).push(digit_char((n % b) as int)));
        assert(old(out)@ + digits((n / b) as nat, b as nat) + seq![digit_char((n % b) as int)] =~= old(out)@ + digits(
            n as nat,
            b as nat,
        ));
    }
}

/// `n` in decimal.
pub fn decimal(n: u64) -> (s: String)
    ensures
        s@ == digits(n as nat, 10),
{
    let mut s = String::new();
    push_digits(&mut s, n, 10);
    assert(Seq::<char>::empty() + digits(n as nat, 10) =~= digits(n as nat, 10));
    s
}

/// Appends `c` to `out` `k` times.
fn push_repeated(out: &mut String, c: &str, k: usize)
    requires
        c@.len() == 1,
    ensures
        final(out)@ == old(out)@ + Seq::new(k as nat, |i: int| c@[0]),
{
    let mut i: usize = 0;
    while i < k
        invariant
            i <= k,
            c@.len() == 1,
            out@ == old(out)@ + Seq::new(i as nat, |j: int| c@[0]),
        decreases k - i,
    {
        out.append(c);
        i = i + 1;
        assert(out@ =~= old(out)@ + Seq::new(i as nat, |j: int| c@[0]));
    }
}

/// Appends `s` padded on the left with `c` to `w` characters.
pub fn push_padded(out: &mut String, s: &str, w: usize, c: &str)
    requires
        c@.len() == 1,
    ensures
        final(out)@ == old(out)@ + pad_left(s@, w as nat, c@[0]),
{
    let n = s.unicode_len();
    if n < w {
        push_repeated(out, c, w - n);
    } else {
        assert(old(out)@ + Seq::<char>::empty() =~= old(out)@);
    }
    out.append(s);
    assert(final(out)@ =~= old(out)@ + pad_left(s@, w as nat, c@[0]));
}

/// `n` as Rust's `{:#010x}` writes it.
pub fn hex10_string(n: u64) -> (s: String)
    ensures
        s@ == hex10(n as nat),
{
    proof {
        reveal_strlit("0x");
        reveal_strlit("0");
    }
    let mut digits_s = String::new();
    push_digits(&mut digits_s, n, 16);
    assert(digits_s@ =~= digits(n as nat, 16));
    let mut s = String::from_str("0x");
    push_padded(&mut s, digits_s.as_str(), 8, "0");
    assert(s@ =~= hex10(n as nat));
    s
}

/// `s` padded on the right with `c` to at least `w` characters.
pub open spec fn pad_right(s: Seq<char>, w: nat, c: char) -> Seq<char> {
    if s.len() >= w {
        s
    } else {
        s + Seq::new((w - s.len()) as nat, |i: int| c)
    }
}

/// Appends `s` padded on the right with `c` to `w` characters.
pub fn push_padded_right(out: &mut String, s: &str, w: usize, c: &str)
    requires
        c@.len() == 1,
    ensures
        final(out)@ == old(out)@ + pad_right(s@, w as nat, c@[0]),
{
    out.append(s);
    let n = s.unicode_len();
    let ghost mid = out@;
    if n < w {
        push_repeated(out, c, w - n);
    } else {
        assert(mid + Seq::<char>::empty() =~= mid);
    }
    assert(final(out)@ =~= old(out)@ + pad_right(s@, w as nat, c@[0]));
}

/// `n` as Rust's `{:#018x}` writes it: `0x` and at least sixteen hexadecimal digits.
pub open spec fn hex18(n: nat) -> Seq<char> {
    seq!['0', 'x'] + pad_left(digits(n, 16), 16, '0')
}

/// `n` as Rust's `{:#018x}` writes it.
pub fn hex18_string(n: u64) -> (s: String)
    ensures
        s@ == hex18(n as nat),
{
    proof {
        reveal_strlit("0x");
        reveal_strlit("0");
    }
    let mut digits_s = String::new();
    push_digits(&mut digits_s, n, 16);
    assert(digits_s@ =~= digits(n as nat, 16));
    let mut s = String::from_str("0x");
    push_padded(&mut s, digits_s.as_str(), 16, "0");
    assert(s@ =~= hex18(n as nat));
    s
}

} // verus!
