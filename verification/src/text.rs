//! Numbers as text.

use vstd::arithmetic::power::pow;
use vstd::prelude::*;

verus! {

/// The character of a digit, up to the hexadecimal ones.
pub open spec fn digit(d: int) -> char
    recommends
        0 <= d < 16,
{
    if d < 10 {
        (48 + d) as u8 as char
    } else {
        (87 + d) as u8 as char
    }
}

fn digit_char(d: u64) -> (r: char)
    requires
        d < 16,
    ensures
        r == digit(d as int),
{
    if d < 10 {
        (48 + d as u8) as char
    } else {
        (87 + d as u8) as char
    }
}

/// A number in decimal, without leading zeros.
pub open spec fn decimal(n: nat) -> Seq<char>
    decreases n,
{
    if n < 10 {
        seq![digit(n as int)]
    } else {
        decimal(n / 10).push(digit((n % 10) as int))
    }
}

/// Writes a number in decimal.
pub fn decimal_string(n: u64) -> (r: String)
    ensures
        r@ == decimal(n as nat),
    decreases n,
{
    let mut r = if n < 10 {
        String::new()
    } else {
        decimal_string(n / 10)
    };
    r.push(digit_char(n % 10));
    assert(n < 10 ==> r@ =~= decimal(n as nat));
    r
}

/// The last `width` hexadecimal digits of a number, with leading zeros.
pub open spec fn hexadecimal(n: nat, width: nat) -> Seq<char>
    decreases width,
{
    if width == 0 {
        Seq::empty()
    } else {
        hexadecimal(n / 16, (width - 1) as nat).push(digit((n % 16) as int))
    }
}

/// Writes the last `width` hexadecimal digits of a number.
pub fn hexadecimal_string(n: u64, width: u64) -> (r: String)
    ensures
        r@ == hexadecimal(n as nat, width as nat),
    decreases width,
{
    if width == 0 {
        String::new()
    } else {
        let mut r = hexadecimal_string(n / 16, width - 1);
        r.push(digit_char(n % 16));
        r
    }
}

/// As many digits are written as are asked for.
pub proof fn lemma_hexadecimal_len(n: nat, width: nat)
    ensures
        hexadecimal(n, width).len() == width,
    decreases width,
{
    if width > 0 {
        lemma_hexadecimal_len(n / 16, (width - 1) as nat);
    }
}

/// Numbers of no more than `width` digits are written differently.
pub proof fn hexadecimal_tells_apart(a: nat, b: nat, width: nat)
    requires
        a < pow(16, width),
        b < pow(16, width),
        a != b,
    ensures
        hexadecimal(a, width) != hexadecimal(b, width),
    decreases width,
{
    reveal(pow);
    if width > 0 {
        let x = hexadecimal(a, width);
        let y = hexadecimal(b, width);
        let shorter = (width - 1) as nat;
        assert(pow(16, width) == 16 * pow(16, shorter));
        if x == y {
            assert(x.last() == y.last());
            assert(a % 16 == b % 16);
            assert(x.drop_last() =~= hexadecimal(a / 16, shorter));
            assert(y.drop_last() =~= hexadecimal(b / 16, shorter));
            if a / 16 != b / 16 {
                hexadecimal_tells_apart(a / 16, b / 16, shorter);
            }
        }
    }
}

/// Sixteen digits are enough for every number of the machine.
pub proof fn lemma_sixteen_digits()
    ensures
        u64::MAX < pow(16, 16),
{
    reveal(pow);
    reveal_with_fuel(pow, 17);
}

/// Digits in groups of three, counted from the right, with a comma between
/// two groups.
pub open spec fn grouped(digits: Seq<char>) -> Seq<char>
    decreases digits.len(),
{
    if digits.len() <= 3 {
        digits
    } else {
        grouped(digits.take(digits.len() - 3)).push(',') + digits.skip(digits.len() - 3)
    }
}

/// The first `n` of `digits`, each with a comma before it where the number of
/// digits from it to the end, `len` in all, is a multiple of three.
spec fn with_commas(digits: Seq<char>, n: int, len: int) -> Seq<char>
    decreases n,
{
    if n <= 0 {
        Seq::empty()
    } else if n > 1 && (len - (n - 1)) % 3 == 0 {
        with_commas(digits, n - 1, len).push(',').push(digits[n - 1])
    } else {
        with_commas(digits, n - 1, len).push(digits[n - 1])
    }
}

proof fn lemma_with_commas_shift(a: Seq<char>, b: Seq<char>, n: int, len: int)
    requires
        n <= a.len(),
        n <= b.len(),
        forall|i: int| 0 <= i < n ==> a[i] == b[i],
    ensures
        with_commas(a, n, len) == with_commas(b, n, len - 3),
    decreases n,
{
    if n > 0 {
        lemma_with_commas_shift(a, b, n - 1, len);
    }
}

proof fn lemma_with_commas(digits: Seq<char>)
    ensures
        with_commas(digits, digits.len() as int, digits.len() as int) == grouped(digits),
    decreases digits.len(),
{
    let n = digits.len() as int;
    if n <= 3 {
        reveal_with_fuel(with_commas, 4);
        assert(with_commas(digits, n, n) =~= digits);
    } else {
        let front = digits.take(n - 3);
        lemma_with_commas(front);
        lemma_with_commas_shift(digits, front, n - 3, n);
        assert(with_commas(digits, n - 2, n) == with_commas(digits, n - 3, n).push(',').push(
            digits[n - 3],
        ));
        assert(with_commas(digits, n - 1, n) == with_commas(digits, n - 2, n).push(digits[n - 2]));
        assert(with_commas(digits, n, n) == with_commas(digits, n - 1, n).push(digits[n - 1]));
        assert(with_commas(digits, n, n) =~= grouped(front).push(',') + digits.skip(n - 3));
    }
}

/// Writes a number in decimal with a comma between groups of three digits.
pub fn format_num(n: u64) -> (r: String)
    ensures
        r@ == grouped(decimal(n as nat)),
{
    let s = decimal_string(n);
    let len = s.as_str().unicode_len();
    let mut r = String::new();
    let mut i: usize = 0;
    for c in it: s.as_str().chars()
        invariant
            i == it.index(),
            it.seq() == s@,
            len == s@.len(),
            r@ == with_commas(s@, i as int, len as int),
    {
        if i > 0 && (len - i) % 3 == 0 {
            r.push(',');
        }
        r.push(c);
        i += 1;
    }
    proof {
        lemma_with_commas(s@);
    }
    r
}

/// Grouping adds nothing but commas: without them the digits are left.
pub proof fn grouping_adds_only_commas(digits: Seq<char>)
    requires
        !digits.contains(','),
    ensures
        grouped(digits).filter(|c: char| c != ',') == digits,
    decreases digits.len(),
{
    let keep = |c: char| c != ',';
    reveal(Seq::filter);
    if digits.len() > 3 {
        let front = digits.take(digits.len() - 3);
        let back = digits.skip(digits.len() - 3);
        assert forall|i: int| 0 <= i < front.len() implies front[i] != ',' by {
            assert(digits.contains(digits[i]));
        }
        grouping_adds_only_commas(front);
        assert forall|i: int| 0 <= i < back.len() implies keep(#[trigger] back[i]) by {
            assert(digits.contains(digits[digits.len() - 3 + i]));
        }
        let g = grouped(front).push(',');
        assert(g.drop_last() =~= grouped(front));
        assert(g.filter(keep) == front);
        lemma_filter_all(back, keep);
        Seq::<char>::filter_distributes_over_add(g, back, keep);
        assert(front + back =~= digits);
    } else {
        assert forall|i: int| 0 <= i < digits.len() implies keep(#[trigger] digits[i]) by {
            assert(digits.contains(digits[i]));
        }
        lemma_filter_all(digits, keep);
    }
}

proof fn lemma_filter_all(s: Seq<char>, keep: spec_fn(char) -> bool)
    requires
        forall|i: int| 0 <= i < s.len() ==> keep(#[trigger] s[i]),
    ensures
        s.filter(keep) == s,
    decreases s.len(),
{
    reveal(Seq::filter);
    if s.len() > 0 {
        lemma_filter_all(s.drop_last(), keep);
        assert(s.drop_last().push(s.last()) =~= s);
    } else {
        assert(s.filter(keep) =~= s);
    }
}

/// The number that a digit stands for, up to the hexadecimal ones.
pub open spec fn digit_value(c: char) -> int {
    if '0' <= c <= '9' {
        c as u32 - '0' as u32
    } else {
        c as u32 - 'a' as u32 + 10
    }
}

/// The number that digits stand for.
pub open spec fn value_of(digits: Seq<char>, base: int) -> int
    decreases digits.len(),
{
    if digits.len() == 0 {
        0
    } else {
        value_of(digits.drop_last(), base) * base + digit_value(digits.last())
    }
}

proof fn lemma_digit(d: int)
    requires
        0 <= d < 16,
    ensures
        digit_value(digit(d)) == d,
        d < 10 ==> '0' <= digit(d) <= '9',
        d >= 10 ==> 'a' <= digit(d) <= 'f',
{
}

/// A number in decimal is written in digits, of which the first is no zero unless
/// it is the only one, and reads as the number again.
pub proof fn decimals_read_as_their_number(n: nat)
    ensures
        decimal(n).len() > 0,
        value_of(decimal(n), 10) == n,
        forall|i: int| 0 <= i < decimal(n).len() ==> '0' <= #[trigger] decimal(n)[i] <= '9',
        n > 0 ==> decimal(n)[0] != '0',
        decimal(n).len() == 1 <==> n < 10,
    decreases n,
{
    let last = (n % 10) as int;
    lemma_digit(last);
    if n < 10 {
        reveal_with_fuel(value_of, 2);
        assert(decimal(n).drop_last() =~= Seq::<char>::empty());
    } else {
        decimals_read_as_their_number(n / 10);
        assert(decimal(n).drop_last() =~= decimal(n / 10));
        assert(decimal(n)[0] == decimal(n / 10)[0]);
        assert forall|i: int| 0 <= i < decimal(n).len() implies '0' <= #[trigger] decimal(
            n,
        )[i] <= '9' by {
            if i < decimal(n).len() - 1 {
                assert(decimal(n)[i] == decimal(n / 10)[i]);
            }
        }
    }
}

/// Hexadecimal digits read as the number again, where they are enough.
pub proof fn hexadecimals_read_as_their_number(n: nat, width: nat)
    requires
        n < pow(16, width),
    ensures
        hexadecimal(n, width).len() == width,
        value_of(hexadecimal(n, width), 16) == n,
        forall|i: int|
            0 <= i < width ==> '0' <= #[trigger] hexadecimal(n, width)[i] <= '9' || 'a'
                <= hexadecimal(n, width)[i] <= 'f',
    decreases width,
{
    reveal(pow);
    if width > 0 {
        let shorter = (width - 1) as nat;
        assert(pow(16, width) == 16 * pow(16, shorter));
        lemma_digit((n % 16) as int);
        hexadecimals_read_as_their_number(n / 16, shorter);
        let text = hexadecimal(n, width);
        assert(text.drop_last() =~= hexadecimal(n / 16, shorter));
        assert forall|i: int| 0 <= i < width implies '0' <= #[trigger] text[i] <= '9' || 'a'
            <= text[i] <= 'f' by {
            if i < width - 1 {
                assert(text[i] == hexadecimal(n / 16, shorter)[i]);
            }
        }
    }
}

/// Counted from the end, every fourth place of grouped digits holds a comma and no
/// other does; the first place holds none.
pub proof fn commas_stand_at_every_fourth_place(digits: Seq<char>)
    requires
        digits.len() > 0,
        !digits.contains(','),
    ensures
        ({
            let text = grouped(digits);
            &&& text.len() == digits.len() + (digits.len() - 1) / 3
            &&& forall|i: int|
                0 <= i < text.len() ==> (#[trigger] text[i] == ',' <==> (text.len() - i) % 4 == 0)
            &&& text[0] == digits[0]
        }),
    decreases digits.len(),
{
    let text = grouped(digits);
    assert forall|i: int| 0 <= i < digits.len() implies digits[i] != ',' by {
        assert(digits.contains(digits[i]));
    }
    if digits.len() > 3 {
        let front = digits.take(digits.len() - 3);
        assert(!front.contains(',')) by {
            if front.contains(',') {
                let k = choose|k: int| 0 <= k < front.len() && front[k] == ',';
                assert(digits[k] == ',');
            }
        }
        commas_stand_at_every_fourth_place(front);
        let head = grouped(front);
        assert(text.len() == head.len() + 4);
        assert forall|i: int| 0 <= i < text.len() implies (#[trigger] text[i] == ',' <==> (
        text.len() - i) % 4 == 0) by {
            if i < head.len() {
                assert(text[i] == head[i]);
            } else if i > head.len() {
                assert(text[i] == digits[digits.len() - 3 + (i - head.len() - 1)]);
            }
        }
        assert(text[0] == head[0]);
    }
}

} // verus!
