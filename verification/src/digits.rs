use vstd::prelude::*;

verus! {

/// The character standing for one decimal digit.
pub open spec fn digit_char(d: int) -> char {
    if d == 0 {
        '0'
    } else if d == 1 {
        '1'
    } else if d == 2 {
        '2'
    } else if d == 3 {
        '3'
    } else if d == 4 {
        '4'
    } else if d == 5 {
        '5'
    } else if d == 6 {
        '6'
    } else if d == 7 {
        '7'
    } else if d == 8 {
        '8'
    } else {
        '9'
    }
}

pub open spec fn is_digit_char(c: char) -> bool {
    c == '0' || c == '1' || c == '2' || c == '3' || c == '4' || c == '5' || c == '6' || c == '7'
        || c == '8' || c == '9'
}

pub open spec fn digit_value(c: char) -> nat {
    if c == '0' {
        0
    } else if c == '1' {
        1
    } else if c == '2' {
        2
    } else if c == '3' {
        3
    } else if c == '4' {
        4
    } else if c == '5' {
        5
    } else if c == '6' {
        6
    } else if c == '7' {
        7
    } else if c == '8' {
        8
    } else {
        9
    }
}

/// The decimal digits of `n`, most significant first, without leading zeros.
pub open spec fn dec_digits(n: nat) -> Seq<char>
    decreases n,
{
    if n < 10 {
        seq![digit_char(n as int)]
    } else {
        dec_digits(n / 10).push(digit_char((n % 10) as int))
    }
}

/// How many decimal digits stand in `s` from position `i` on.
pub open spec fn digit_run_len(s: Seq<char>, i: int) -> int
    decreases s.len() - i,
{
    if 0 <= i < s.len() && is_digit_char(s[i]) {
        1 + digit_run_len(s, i + 1)
    } else {
        0
    }
}

/// The number the digits `s[i..j]` denote, most significant first.
pub open spec fn digits_value(s: Seq<char>, i: int, j: int) -> nat
    decreases j - i,
{
    if j <= i {
        0
    } else {
        digits_value(s, i, j - 1) * 10 + digit_value(s[j - 1])
    }
}

/// Reading a number at position `i`: the whole digit run from `i` on, if
/// there is one and its value fits an unsigned 64-bit integer; the position
/// after the run comes with it.
pub open spec fn spec_parse_u64(s: Seq<char>, i: int) -> Option<(u64, int)> {
    let k = digit_run_len(s, i);
    if k == 0 {
        None
    } else if digits_value(s, i, i + k) > u64::MAX {
        None
    } else {
        Some((digits_value(s, i, i + k) as u64, i + k))
    }
}

pub proof fn lemma_digit_run_len_bounds(s: Seq<char>, i: int)
    requires
        0 <= i <= s.len(),
    ensures
        0 <= digit_run_len(s, i) <= s.len() - i,
    decreases s.len() - i,
{
    if i < s.len() && is_digit_char(s[i]) {
        lemma_digit_run_len_bounds(s, i + 1);
    }
}

/// The digit run from `i` ends exactly at the first non-digit position.
pub proof fn lemma_digit_run_len_exact(s: Seq<char>, i: int, j: int)
    requires
        0 <= i <= j <= s.len(),
        forall|k: int| i <= k < j ==> is_digit_char(s[k]),
        j == s.len() || !is_digit_char(s[j]),
    ensures
        digit_run_len(s, i) == j - i,
    decreases j - i,
{
    if i < j {
        lemma_digit_run_len_exact(s, i + 1, j);
    }
}

/// The digit run from `i` covers every digit prefix.
pub proof fn lemma_digit_run_len_at_least(s: Seq<char>, i: int, j: int)
    requires
        0 <= i <= j <= s.len(),
        forall|k: int| i <= k < j ==> is_digit_char(s[k]),
    ensures
        digit_run_len(s, i) >= j - i,
    decreases j - i,
{
    if i < j {
        assert(is_digit_char(s[i]));
        lemma_digit_run_len_at_least(s, i + 1, j);
    } else {
        lemma_digit_run_len_bounds(s, i);
    }
}

/// Reading more digits never shrinks the value.
pub proof fn lemma_digits_value_monotonic(s: Seq<char>, i: int, j: int, k: int)
    requires
        i <= j <= k,
    ensures
        digits_value(s, i, j) <= digits_value(s, i, k),
    decreases k - j,
{
    if j < k {
        lemma_digits_value_monotonic(s, i, j, k - 1);
        assert(digits_value(s, i, k) == digits_value(s, i, k - 1) * 10 + digit_value(s[k - 1]));
        assert(digits_value(s, i, k - 1) * 10 >= digits_value(s, i, k - 1));
    }
}

/// The value of a digit range depends on the characters in it alone.
pub proof fn lemma_digits_value_congruent(s: Seq<char>, t: Seq<char>, si: int, ti: int, len: int)
    requires
        len >= 0,
        forall|k: int| 0 <= k < len ==> s[si + k] == #[trigger] t[ti + k],
    ensures
        digits_value(s, si, si + len) == digits_value(t, ti, ti + len),
    decreases len,
{
    if len > 0 {
        lemma_digits_value_congruent(s, t, si, ti, len - 1);
        assert(s[si + (len - 1)] == t[ti + (len - 1)]);
    }
}

/// The decimal digits of `n` are digits, start with no leading zero, and
/// denote `n`.
pub proof fn lemma_dec_digits_props(n: nat)
    ensures
        dec_digits(n).len() >= 1,
        forall|k: int| 0 <= k < dec_digits(n).len() ==> is_digit_char(#[trigger] dec_digits(n)[k]),
        digits_value(dec_digits(n), 0, dec_digits(n).len() as int) == n,
    decreases n,
{
    if n < 10 {
        let ds = dec_digits(n);
        assert(ds == seq![digit_char(n as int)]);
        assert(digits_value(ds, 0, 1) == digits_value(ds, 0, 0) * 10 + digit_value(ds[0]));
    } else {
        lemma_dec_digits_props(n / 10);
        let prev = dec_digits(n / 10);
        let ds = dec_digits(n);
        assert(ds == prev.push(digit_char((n % 10) as int)));
        let plen = prev.len() as int;
        assert(forall|k: int| 0 <= k < plen ==> ds[k] == prev[k]);
        lemma_digits_value_congruent(ds, prev, 0, 0, plen);
        assert(digits_value(ds, 0, plen + 1) == digits_value(ds, 0, plen) * 10 + digit_value(
            ds[plen],
        ));
        assert(digit_value(ds[plen]) == n % 10);
        vstd::arithmetic::div_mod::lemma_fundamental_div_mod(n as int, 10);
    }
}

/// Reading a number where the decimal digits of `n` stand, with no digit
/// right after them, yields `n` and ends right after them.
pub proof fn lemma_parse_u64_of_dec_digits(s: Seq<char>, i: int, n: u64)
    requires
        0 <= i,
        i + dec_digits(n as nat).len() <= s.len(),
        forall|k: int|
            0 <= k < dec_digits(n as nat).len() ==> s[i + k] == dec_digits(n as nat)[k],
        i + dec_digits(n as nat).len() == s.len() || !is_digit_char(
            s[i + dec_digits(n as nat).len()],
        ),
    ensures
        spec_parse_u64(s, i) == Some((n, i + dec_digits(n as nat).len())),
{
    let ds = dec_digits(n as nat);
    let l = ds.len() as int;
    lemma_dec_digits_props(n as nat);
    assert forall|k: int| i <= k < i + l implies is_digit_char(s[k]) by {
        let k0 = k - i;
        assert(s[i + k0] == ds[k0]);
        assert(is_digit_char(ds[k0]));
    }
    lemma_digit_run_len_exact(s, i, i + l);
    lemma_digits_value_congruent(s, ds, i, 0, l);
}

/// A character holding one decimal digit, as text.
fn digit_to_str(d: u64) -> (r: &'static str)
    requires
        d < 10,
    ensures
        r@ == seq![digit_char(d as int)],
{
    proof {
        reveal_strlit("0");
        reveal_strlit("1");
        reveal_strlit("2");
        reveal_strlit("3");
        reveal_strlit("4");
        reveal_strlit("5");
        reveal_strlit("6");
        reveal_strlit("7");
        reveal_strlit("8");
        reveal_strlit("9");
    }
    let r = match d {
        0 => "0",
        1 => "1",
        2 => "2",
        3 => "3",
        4 => "4",
        5 => "5",
        6 => "6",
        7 => "7",
        8 => "8",
        _ => "9",
    };
    assert(r@ =~= seq![digit_char(d as int)]);
    r
}

/// Writes `n` in decimal, most significant digit first.
pub fn u64_to_string(n: u64) -> (r: String)
    ensures
        r@ == dec_digits(n as nat),
    decreases n,
{
    if n < 10 {
        String::from_str(digit_to_str(n))
    } else {
        let mut s = u64_to_string(n / 10);
        s.append(digit_to_str(n % 10));
        assert(s@ =~= dec_digits(n as nat));
        s
    }
}

fn is_digit(c: char) -> (b: bool)
    ensures
        b == is_digit_char(c),
{
    c == '0' || c == '1' || c == '2' || c == '3' || c == '4' || c == '5' || c == '6' || c == '7'
        || c == '8' || c == '9'
}

fn digit_of(c: char) -> (d: u64)
    requires
        is_digit_char(c),
    ensures
        d == digit_value(c),
{
    if c == '0' {
        0
    } else if c == '1' {
        1
    } else if c == '2' {
        2
    } else if c == '3' {
        3
    } else if c == '4' {
        4
    } else if c == '5' {
        5
    } else if c == '6' {
        6
    } else if c == '7' {
        7
    } else if c == '8' {
        8
    } else {
        9
    }
}

/// Reads a number at position `i`, as `spec_parse_u64` describes it.
pub fn parse_u64_at(s: &Vec<char>, i: usize) -> (r: Option<(u64, usize)>)
    requires
        i <= s@.len(),
    ensures
        match r {
            Some(p) => spec_parse_u64(s@, i as int) == Some((p.0, p.1 as int)) && i < p.1
                <= s@.len(),
            None => spec_parse_u64(s@, i as int) is None,
        },
{
    let mut j: usize = i;
    let mut acc: u64 = 0;
    while j < s.len() && is_digit(s[j])
        invariant
            i <= j <= s@.len(),
            forall|k: int| i <= k < j ==> is_digit_char(s@[k]),
            acc == digits_value(s@, i as int, j as int),
        decreases s@.len() - j,
    {
        let d = digit_of(s[j]);
        let next: u128 = acc as u128 * 10 + d as u128;
        if next > u64::MAX as u128 {
            proof {
                assert(digits_value(s@, i as int, j + 1int) == digits_value(
                    s@,
                    i as int,
                    j as int,
                ) * 10 + digit_value(s@[j as int]));
                assert(forall|k: int| i <= k < j + 1 ==> is_digit_char(s@[k]));
                lemma_digit_run_len_at_least(s@, i as int, j + 1int);
                lemma_digit_run_len_bounds(s@, i as int);
                let rl = digit_run_len(s@, i as int);
                lemma_digits_value_monotonic(s@, i as int, j + 1int, i + rl);
            }
            return None;
        }
        acc = next as u64;
        j += 1;
    }
    proof {
        lemma_digit_run_len_exact(s@, i as int, j as int);
    }
    if j == i {
        None
    } else {
        Some((acc, j))
    }
}

} // verus!
