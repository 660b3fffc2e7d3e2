//! Decimal digit text: what a digit string is worth, how an integer is written,
//! and the two digit-string steps that rounding needs.

use std::cmp::Ordering;
use vstd::prelude::*;

verus! {

/// `10^n`.
pub open spec fn pow10(n: nat) -> nat
    decreases n,
{
    if n == 0 {
        1
    } else {
        10 * pow10((n - 1) as nat)
    }
}

/// Whether a character is one of `0` to `9`.
pub open spec fn is_digit(c: char) -> bool {
    '0' <= c && c <= '9'
}

/// Whether every character is a decimal digit.
pub open spec fn all_digits(s: Seq<char>) -> bool {
    forall|i: int| 0 <= i < s.len() ==> is_digit(#[trigger] s[i])
}

/// What a digit is worth.
pub open spec fn digit_value(c: char) -> nat {
    (c as int - '0' as int) as nat
}

/// What a digit string is worth, most significant digit first.
pub open spec fn value(s: Seq<char>) -> nat
    decreases s.len(),
{
    if s.len() == 0 {
        0
    } else {
        value(s.drop_last()) * 10 + digit_value(s.last())
    }
}

/// The character of a digit below ten.
pub open spec fn digit_char(d: nat) -> char {
    ('0' as int + d) as char
}

/// An integer in decimal, without leading zeros; zero is `0`.
pub open spec fn decimal_text(n: nat) -> Seq<char>
    decreases n,
{
    if n < 10 {
        seq![digit_char(n)]
    } else {
        decimal_text(n / 10).push(digit_char(n % 10))
    }
}

/// A signed integer in decimal, with a leading `-` where it is negative.
pub open spec fn integer_text(n: int) -> Seq<char> {
    if n < 0 {
        seq!['-'] + decimal_text((-n) as nat)
    } else {
        decimal_text(n as nat)
    }
}

/// How many decimal digits an integer has; zero has none.
pub open spec fn digit_count(n: nat) -> nat
    decreases n,
{
    if n == 0 {
        0
    } else {
        1 + digit_count(n / 10)
    }
}

/// A run of `n` zeros.
pub open spec fn zeros(n: nat) -> Seq<char> {
    Seq::new(n, |i: int| '0')
}

/// `std::string::String::push` appends one character at the end.
pub assume_specification[ String::push ](s: &mut String, c: char)
    ensures
        final(s)@ == old(s)@.push(c),
;

/// The characters of a string.
pub fn chars_of(s: &str) -> (v: Vec<char>)
    ensures
        v@ == s@,
{
    let mut v: Vec<char> = Vec::new();
    for c in it: s.chars()
        invariant
            it.seq() == s@,
            v@ == s@.take(it.index() as int),
    {
        assert(s@.take(it.index() as int + 1) == s@.take(it.index() as int).push(c));
        v.push(c);
    }
    assert(s@.take(s@.len() as int) == s@);
    v
}

/// The string of the given characters.
pub fn string_of(v: &Vec<char>) -> (s: String)
    ensures
        s@ == v@,
{
    let mut s: String = String::new();
    let mut i: usize = 0;
    while i < v.len()
        invariant
            i <= v@.len(),
            s@ == v@.take(i as int),
        decreases v@.len() - i,
    {
        assert(v@.take(i as int + 1) == v@.take(i as int).push(v@[i as int]));
        s.push(v[i]);
        i = i + 1;
    }
    assert(v@.take(v@.len() as int) == v@);
    s
}

/// How the first discarded character and those after it stand to `5000...0`.
pub open spec fn half_order(dropped: Seq<char>) -> int {
    if dropped.len() == 0 || '5' > dropped[0] {
        -1
    } else if dropped[0] > '5' {
        1
    } else if exists|i: int| 1 <= i < dropped.len() && dropped[i] != '0' {
        1
    } else {
        0
    }
}

/// Compare a discarded digit string against one half of a unit in its last
/// kept place, that is against `5000...0` of the same width.
pub fn compare_to_half(dropped: &str) -> (order: Ordering)
    ensures
        order == Ordering::Less <==> half_order(dropped@) < 0,
        order == Ordering::Equal <==> half_order(dropped@) == 0,
        order == Ordering::Greater <==> half_order(dropped@) > 0,
        all_digits(dropped@) ==> {
            &&& order == Ordering::Less <==> 2 * value(dropped@) < pow10(dropped@.len())
            &&& order == Ordering::Equal <==> 2 * value(dropped@) == pow10(dropped@.len())
            &&& order == Ordering::Greater <==> 2 * value(dropped@) > pow10(dropped@.len())
        },
{
    proof {
        if all_digits(dropped@) {
            lemma_half_order(dropped@);
        }
    }
    let digits = chars_of(dropped);
    if digits.len() == 0 {
        return Ordering::Less;
    }
    if digits[0] > '5' {
        return Ordering::Greater;
    }
    if '5' > digits[0] {
        return Ordering::Less;
    }
    let mut i: usize = 1;
    while i < digits.len()
        invariant
            1 <= i <= digits@.len(),
            digits@ == dropped@,
            digits@[0] == '5',
            forall|j: int| 1 <= j < i ==> digits@[j] == '0',
            all_digits(dropped@) ==> half_order(dropped@) == (if 2 * value(dropped@) < pow10(
                dropped@.len(),
            ) {
                -1int
            } else if 2 * value(dropped@) == pow10(dropped@.len()) {
                0
            } else {
                1
            }),
        decreases digits@.len() - i,
    {
        if digits[i] != '0' {
            return Ordering::Greater;
        }
        i = i + 1;
    }
    Ordering::Equal
}

/// Add one to a decimal digit string. The string can be wider than any machine
/// integer, so the carry is done on the text.
pub fn increment(digits: &str) -> (out: String)
    requires
        all_digits(digits@),
    ensures
        all_digits(out@),
        value(out@) == value(digits@) + 1,
        out@.len() == digits@.len() || out@.len() == digits@.len() + 1,
        out@.len() > digits@.len() <==> value(digits@) + 1 == pow10(digits@.len()),
{
    let mut out = chars_of(digits);
    let mut i: usize = out.len();
    proof {
        lemma_value_bound(digits@);
    }
    while i > 0
        invariant
            i <= out@.len(),
            out@.len() == digits@.len(),
            all_digits(digits@),
            all_digits(out@),
            forall|j: int| 0 <= j < i ==> out@[j] == digits@[j],
            forall|j: int| i <= j < out@.len() ==> out@[j] == '0' && digits@[j] == '9',
        decreases i,
    {
        i = i - 1;
        if out[i] == '9' {
            out.set(i, '0');
        } else {
            let bumped = next_digit(out[i]);
            out.set(i, bumped);
            proof {
                assert(digits@.take(i as int) =~= out@.take(i as int));
                lemma_carry(digits@, out@, i as int);
                lemma_value_bound(out@);
            }
            return string_of(&out);
        }
    }
    let mut carried: String = String::new();
    carried.push('1');
    let mut k: usize = 0;
    while k < out.len()
        invariant
            k <= out@.len(),
            carried@ == seq!['1'] + out@.take(k as int),
        decreases out@.len() - k,
    {
        carried.push(out[k]);
        assert(out@.take(k as int + 1) == out@.take(k as int).push(out@[k as int]));
        k = k + 1;
    }
    proof {
        assert(carried@ =~= seq!['1'] + zeros(out@.len()));
        assert(digits@ =~= Seq::new(out@.len(), |j: int| '9'));
        lemma_all_nines(out@.len());
        lemma_split_value(carried@, 1);
        assert(carried@.take(1) =~= seq!['1']);
        assert(carried@.skip(1) =~= zeros(out@.len()));
        lemma_value_zeros(out@.len());
        assert(value(seq!['1']) == 1) by {
            reveal_with_fuel(value, 2);
        }
        assert(1 * pow10(out@.len()) == pow10(out@.len())) by (nonlinear_arith);
    }
    carried
}

/// The digit after a digit below nine.
fn next_digit(c: char) -> (d: char)
    requires
        is_digit(c),
        c != '9',
    ensures
        is_digit(d),
        digit_value(d) == digit_value(c) + 1,
{
    match c {
        '0' => '1',
        '1' => '2',
        '2' => '3',
        '3' => '4',
        '4' => '5',
        '5' => '6',
        '6' => '7',
        '7' => '8',
        _ => '9',
    }
}

/// The character of a digit.
fn digit_of(d: u128) -> (c: char)
    requires
        d < 10,
    ensures
        c == digit_char(d as nat),
{
    match d {
        0 => '0',
        1 => '1',
        2 => '2',
        3 => '3',
        4 => '4',
        5 => '5',
        6 => '6',
        7 => '7',
        8 => '8',
        _ => '9',
    }
}

/// An unsigned integer in decimal.
fn decimal_string(n: u128) -> (s: String)
    ensures
        s@ == decimal_text(n as nat),
    decreases n,
{
    let mut s: String = if n < 10 {
        String::new()
    } else {
        decimal_string(n / 10)
    };
    s.push(digit_of(n % 10));
    assert(s@ =~= decimal_text(n as nat));
    s
}

/// A signed integer in decimal.
pub fn integer_string(n: i128) -> (s: String)
    ensures
        s@ == integer_text(n as int),
{
    if n < 0 {
        let magnitude: u128 = (-(n + 1)) as u128 + 1;
        let mut s: String = String::new();
        s.push('-');
        let digits = decimal_string(magnitude);
        s.append(digits.as_str());
        s
    } else {
        decimal_string(n as u128)
    }
}

/// A string of `n` zeros.
pub fn zero_string(n: usize) -> (s: String)
    ensures
        s@ == zeros(n as nat),
{
    let mut s: String = String::new();
    let mut i: usize = 0;
    while i < n
        invariant
            i <= n,
            s@ == zeros(i as nat),
        decreases n - i,
    {
        s.push('0');
        i = i + 1;
        assert(s@ =~= zeros(i as nat));
    }
    s
}

/// A power of ten is positive, and a higher power is larger.
pub proof fn lemma_pow10_monotonic(a: nat, b: nat)
    requires
        a <= b,
    ensures
        1 <= pow10(a) <= pow10(b),
        a < b ==> 10 * pow10(a) <= pow10(b),
    decreases b,
{
    if a < b {
        lemma_pow10_monotonic(a, (b - 1) as nat);
    } else if a > 0 {
        lemma_pow10_monotonic((a - 1) as nat, (a - 1) as nat);
    }
}

/// Powers of ten multiply by adding exponents.
pub proof fn lemma_pow10_add(a: nat, b: nat)
    ensures
        pow10(a + b) == pow10(a) * pow10(b),
    decreases a,
{
    if a > 0 {
        lemma_pow10_add((a - 1) as nat, b);
        let p = pow10((a - 1) as nat);
        let q = pow10(b);
        assert((a - 1) as nat + b == (a + b - 1) as nat);
        assert(10 * (p * q) == (10 * p) * q) by (nonlinear_arith);
    } else {
        assert(pow10(0) == 1);
        assert(1 * pow10(b) == pow10(b)) by (nonlinear_arith);
    }
}

/// A digit string of length `n` is worth less than `10^n`.
pub proof fn lemma_value_bound(s: Seq<char>)
    requires
        all_digits(s),
    ensures
        value(s) < pow10(s.len()),
    decreases s.len(),
{
    if s.len() > 0 {
        lemma_value_bound(s.drop_last());
    }
}

/// Cutting a digit string in two splits its value by a power of ten.
pub proof fn lemma_split_value(s: Seq<char>, k: int)
    requires
        0 <= k <= s.len(),
    ensures
        value(s) == value(s.take(k)) * pow10((s.len() - k) as nat) + value(s.skip(k)),
    decreases s.len() - k,
{
    if k == s.len() {
        assert(s.take(k) =~= s);
        assert(s.skip(k) =~= Seq::<char>::empty());
        assert(pow10(0) == 1);
        assert(value(s) * 1 == value(s)) by (nonlinear_arith);
    } else {
        lemma_split_value(s.drop_last(), k);
        assert(s.drop_last().take(k) =~= s.take(k));
        assert(s.drop_last().skip(k) =~= s.skip(k).drop_last());
        assert(s.skip(k).last() == s.last());
        let a = value(s.take(k));
        let p = pow10((s.len() - 1 - k) as nat);
        assert((a * p) * 10 == a * (10 * p)) by (nonlinear_arith);
    }
}

/// The text of an integer is worth that integer, and has as many characters as
/// the integer has digits, except that zero is written with one.
pub proof fn lemma_decimal_text(n: nat)
    ensures
        all_digits(decimal_text(n)),
        value(decimal_text(n)) == n,
        decimal_text(n).len() == (if n == 0 {
            1
        } else {
            digit_count(n)
        }),
        n > 0 ==> decimal_text(n)[0] != '0',
    decreases n,
{
    if n < 10 {
        reveal_with_fuel(value, 2);
        reveal_with_fuel(digit_count, 2);
        assert(decimal_text(n).drop_last() =~= Seq::<char>::empty());
    } else {
        lemma_decimal_text(n / 10);
        assert(decimal_text(n).drop_last() =~= decimal_text(n / 10));
        assert(decimal_text(n).last() == digit_char(n % 10));
    }
}

/// An integer with `k` digits lies between `10^(k-1)` and `10^k`.
pub proof fn lemma_digit_count_bounds(n: nat)
    ensures
        n < pow10(digit_count(n)),
        n > 0 ==> digit_count(n) > 0 && pow10((digit_count(n) - 1) as nat) <= n,
    decreases n,
{
    if n > 0 {
        lemma_digit_count_bounds(n / 10);
    }
}

/// The bounds of a power of ten fix the number of digits.
pub proof fn lemma_digit_count_is(n: nat, k: nat)
    requires
        k > 0 ==> pow10((k - 1) as nat) <= n,
        n < pow10(k),
    ensures
        digit_count(n) == k,
{
    let c = digit_count(n);
    lemma_digit_count_bounds(n);
    if c < k {
        lemma_pow10_monotonic(c, (k - 1) as nat);
    }
    if k < c {
        lemma_pow10_monotonic(k, (c - 1) as nat);
    }
}

/// A number below `10^k` has at most `k` digits, and one at or above it has more.
pub proof fn lemma_digit_count_at_most(n: nat, k: nat)
    ensures
        digit_count(n) <= k <==> n < pow10(k),
{
    let c = digit_count(n);
    lemma_digit_count_bounds(n);
    if c <= k {
        lemma_pow10_monotonic(c, k);
    } else {
        lemma_pow10_monotonic(k, (c - 1) as nat);
    }
}

/// Multiplying by `10^k` appends `k` digits.
pub proof fn lemma_digit_count_scale_up(n: nat, k: nat)
    requires
        n > 0,
    ensures
        digit_count(n * pow10(k)) == digit_count(n) + k,
        n * pow10(k) > 0,
{
    let c = digit_count(n);
    let p = pow10(k);
    lemma_digit_count_bounds(n);
    lemma_pow10_add((c - 1) as nat, k);
    lemma_pow10_add(c, k);
    lemma_pow10_monotonic(k, k);
    let low = pow10((c - 1) as nat);
    let high = pow10(c);
    assert(low * p <= n * p && n * p < high * p && n * p > 0) by (nonlinear_arith)
        requires
            low <= n,
            n < high,
            p >= 1,
            n > 0,
    ;
    assert((c - 1) as nat + k == (c + k - 1) as nat);
    lemma_digit_count_is(n * p, c + k);
}

/// Dividing by `10^k` drops `k` digits.
pub proof fn lemma_digit_count_scale_down(n: nat, k: nat)
    ensures
        digit_count(n / pow10(k)) == (if digit_count(n) > k {
            (digit_count(n) - k) as nat
        } else {
            0
        }),
        digit_count(n) <= k ==> n / pow10(k) == 0,
{
    let c = digit_count(n);
    let p = pow10(k);
    lemma_digit_count_bounds(n);
    lemma_pow10_monotonic(k, k);
    if c <= k {
        lemma_pow10_monotonic(c, k);
        assert(n / p == 0) by (nonlinear_arith)
            requires
                0 <= n < p,
        ;
    } else {
        let r = (c - k) as nat;
        lemma_pow10_add(r, k);
        lemma_pow10_add((r - 1) as nat, k);
        assert((r - 1) as nat + k == (c - 1) as nat);
        let low = pow10((r - 1) as nat);
        let high = pow10(r);
        assert(low <= n / p && n / p < high) by (nonlinear_arith)
            requires
                low * p <= n,
                n < high * p,
                p >= 1,
        ;
        lemma_digit_count_is(n / p, r);
    }
}

/// Zeros are worth nothing.
pub proof fn lemma_value_zeros(n: nat)
    ensures
        value(zeros(n)) == 0,
    decreases n,
{
    if n > 0 {
        lemma_value_zeros((n - 1) as nat);
        assert(zeros(n).drop_last() =~= zeros((n - 1) as nat));
    }
}

/// A run of `n` nines is worth one less than `10^n`.
proof fn lemma_all_nines(n: nat)
    ensures
        value(Seq::new(n, |j: int| '9')) + 1 == pow10(n),
    decreases n,
{
    let s = Seq::new(n, |j: int| '9');
    if n > 0 {
        lemma_all_nines((n - 1) as nat);
        assert(s.drop_last() =~= Seq::new((n - 1) as nat, |j: int| '9'));
    }
}

/// Bumping digit `i` and clearing the nines after it adds one.
proof fn lemma_carry(a: Seq<char>, b: Seq<char>, i: int)
    requires
        all_digits(a),
        all_digits(b),
        a.len() == b.len(),
        0 <= i < a.len(),
        a.take(i) == b.take(i),
        digit_value(b[i]) == digit_value(a[i]) + 1,
        forall|j: int| i < j < a.len() ==> a[j] == '9' && b[j] == '0',
    ensures
        value(b) == value(a) + 1,
{
    let n = (a.len() - i - 1) as nat;
    lemma_split_value(a, i + 1);
    lemma_split_value(b, i + 1);
    assert(a.skip(i + 1) =~= Seq::new(n, |j: int| '9'));
    assert(b.skip(i + 1) =~= zeros(n));
    lemma_all_nines(n);
    lemma_value_zeros(n);
    assert(a.take(i + 1).drop_last() =~= a.take(i));
    assert(b.take(i + 1).drop_last() =~= b.take(i));
    let x = value(a.take(i + 1));
    assert(value(b.take(i + 1)) == x + 1);
    assert((x + 1) * pow10(n) == x * pow10(n) + pow10(n)) by (nonlinear_arith);
}

/// The first digit and the sticky rest decide how twice the value stands to a power of ten.
proof fn lemma_half_order(s: Seq<char>)
    requires
        all_digits(s),
    ensures
        half_order(s) == (if 2 * value(s) < pow10(s.len()) {
            -1int
        } else if 2 * value(s) == pow10(s.len()) {
            0
        } else {
            1
        }),
{
    if s.len() > 0 {
        let n = (s.len() - 1) as nat;
        lemma_split_value(s, 1);
        assert(s.take(1).drop_last() =~= Seq::<char>::empty());
        assert(value(s.take(1)) == digit_value(s[0])) by {
            reveal_with_fuel(value, 2);
        }
        lemma_value_bound(s.skip(1));
        let d = digit_value(s[0]);
        let p = pow10(n);
        assert(pow10(s.len()) == 10 * p);
        if d < 5 {
            assert(d * p <= 4 * p) by (nonlinear_arith)
                requires
                    d <= 4,
            ;
        } else if d > 5 {
            assert(d * p >= 6 * p) by (nonlinear_arith)
                requires
                    d >= 6,
            ;
        } else {
            assert(d * p == 5 * p);
            if exists|i: int| 1 <= i < s.len() && s[i] != '0' {
                let i = choose|i: int| 1 <= i < s.len() && s[i] != '0';
                lemma_value_positive(s.skip(1), i - 1);
            } else {
                assert(s.skip(1) =~= zeros(n));
                lemma_value_zeros(n);
            }
        }
    }
}

/// A digit string with a digit other than zero is worth something.
proof fn lemma_value_positive(s: Seq<char>, i: int)
    requires
        all_digits(s),
        0 <= i < s.len(),
        s[i] != '0',
    ensures
        value(s) > 0,
    decreases s.len(),
{
    if i < s.len() - 1 {
        lemma_value_positive(s.drop_last(), i);
    }
}

} // verus!
