//! Decimal text: the JSON number grammar that positions and bond orders
//! satisfy, and verified decimal formatting and parsing of indices.
use vstd::prelude::*;
use vstd::string::*;

verus! {

pub open spec fn is_digit(c: char) -> bool {
    '0' <= c && c <= '9'
}

/// The characters that can occur in a JSON number.
pub open spec fn num_char(c: char) -> bool {
    is_digit(c) || c == '-' || c == '+' || c == '.' || c == 'e' || c == 'E'
}

/// Index just after the run of decimal digits that starts at `i`.
pub open spec fn digits_end(s: Seq<char>, i: int) -> int
    decreases s.len() - i,
{
    if i < 0 || i >= s.len() || !is_digit(s[i]) {
        i
    } else {
        digits_end(s, i + 1)
    }
}

pub proof fn lemma_digits_end(s: Seq<char>, i: int)
    requires
        0 <= i <= s.len(),
    ensures
        i <= digits_end(s, i) <= s.len(),
        forall|k: int| i <= k < digits_end(s, i) ==> is_digit(s[k]),
        digits_end(s, i) < s.len() ==> !is_digit(s[digits_end(s, i)]),
    decreases s.len() - i,
{
    if i < s.len() && is_digit(s[i]) {
        lemma_digits_end(s, i + 1);
    }
}

/// A digit run that starts at `i` ends where the text stops being digits:
/// `digits_end` looks only at the characters of the run itself.
pub proof fn lemma_digits_end_run(s: Seq<char>, i: int, j: int)
    requires
        0 <= i <= j <= s.len(),
        forall|k: int| i <= k < j ==> is_digit(s[k]),
        j < s.len() ==> !is_digit(s[j]),
    ensures
        digits_end(s, i) == j,
    decreases j - i,
{
    if i < j {
        assert(is_digit(s[i]));
        lemma_digits_end_run(s, i + 1, j);
    }
}

/// Accepts the optional exponent part followed by the end of the text.
pub open spec fn exp_ok(s: Seq<char>, i: int) -> bool {
    if i == s.len() {
        true
    } else if 0 <= i < s.len() && (s[i] == 'e' || s[i] == 'E') {
        let k = if i + 1 < s.len() && (s[i + 1] == '+' || s[i + 1] == '-') {
            i + 2
        } else {
            i + 1
        };
        digits_end(s, k) > k && digits_end(s, k) == s.len()
    } else {
        false
    }
}

/// Accepts the optional fraction part, then the optional exponent part,
/// followed by the end of the text.
pub open spec fn frac_exp_ok(s: Seq<char>, i: int) -> bool {
    if 0 <= i < s.len() && s[i] == '.' {
        let j = digits_end(s, i + 1);
        j > i + 1 && exp_ok(s, j)
    } else {
        exp_ok(s, i)
    }
}

/// The JSON number grammar: an optional minus sign, an integer part without
/// a leading zero, an optional fraction and an optional exponent.
pub open spec fn is_json_number(s: Seq<char>) -> bool {
    let i: int = if s.len() > 0 && s[0] == '-' {
        1
    } else {
        0
    };
    let j = digits_end(s, i);
    j > i && (j == i + 1 || s[i] != '0') && frac_exp_ok(s, j)
}

proof fn lemma_exp_chars(s: Seq<char>, i: int)
    requires
        0 <= i <= s.len(),
        exp_ok(s, i),
    ensures
        forall|k: int| i <= k < s.len() ==> num_char(s[k]),
{
    if i < s.len() {
        let start = if i + 1 < s.len() && (s[i + 1] == '+' || s[i + 1] == '-') {
            i + 2
        } else {
            i + 1
        };
        lemma_digits_end(s, start);
    }
}

proof fn lemma_frac_exp_chars(s: Seq<char>, i: int)
    requires
        0 <= i <= s.len(),
        frac_exp_ok(s, i),
    ensures
        forall|k: int| i <= k < s.len() ==> num_char(s[k]),
{
    if i < s.len() && s[i] == '.' {
        let j = digits_end(s, i + 1);
        lemma_digits_end(s, i + 1);
        lemma_exp_chars(s, j);
    } else {
        lemma_exp_chars(s, i);
    }
}

/// Every character of a JSON number is from the small number alphabet, so
/// a number ends wherever a character outside that alphabet follows.
pub proof fn lemma_number_chars(s: Seq<char>)
    requires
        is_json_number(s),
    ensures
        s.len() > 0,
        forall|k: int| 0 <= k < s.len() ==> num_char(s[k]),
{
    let i: int = if s.len() > 0 && s[0] == '-' {
        1
    } else {
        0
    };
    let j = digits_end(s, i);
    lemma_digits_end(s, i);
    lemma_frac_exp_chars(s, j);
}

/// Relies on std's `String::push`: appends the one character `c`.
#[verifier::external_body]
pub fn push_char(s: &mut String, c: char)
    ensures
        final(s)@ == old(s)@.push(c),
{
    s.push(c);
}

/// Index just after the digit run at `i`, computed over the text.
pub fn digits_end_exec(s: &str, i: usize) -> (r: usize)
    requires
        i <= s@.len(),
    ensures
        r == digits_end(s@, i as int),
        i <= r <= s@.len(),
{
    let n = s.unicode_len();
    let mut j = i;
    loop
        invariant
            i <= j <= n,
            n == s@.len(),
            digits_end(s@, i as int) == digits_end(s@, j as int),
        ensures
            digits_end(s@, j as int) == j,
        decreases n - j,
    {
        if j == n {
            assert(digits_end(s@, j as int) == j);
            break ;
        }
        let c = s.get_char(j);
        if !('0' <= c && c <= '9') {
            assert(!is_digit(s@[j as int]));
            assert(digits_end(s@, j as int) == j);
            break ;
        }
        assert(is_digit(s@[j as int]));
        assert(digits_end(s@, j as int) == digits_end(s@, j + 1));
        j = j + 1;
    }
    j
}

/// Decides the JSON number grammar over a text.
pub fn check_json_number(s: &str) -> (r: bool)
    ensures
        r == is_json_number(s@),
{
    let n = s.unicode_len();
    let start: usize = if n > 0 && s.get_char(0) == '-' {
        1
    } else {
        0
    };
    let j = digits_end_exec(s, start);
    if j == start {
        return false;
    }
    if !(j == start + 1 || s.get_char(start) != '0') {
        return false;
    }
    let mut p = j;
    if p < n && s.get_char(p) == '.' {
        let q = digits_end_exec(s, p + 1);
        if q == p + 1 {
            return false;
        }
        p = q;
        assert(frac_exp_ok(s@, j as int) == exp_ok(s@, p as int));
    }
    if p == n {
        return true;
    }
    let c = s.get_char(p);
    if c != 'e' && c != 'E' {
        return false;
    }
    let k: usize = if p + 1 < n && (s.get_char(p + 1) == '+' || s.get_char(p + 1) == '-') {
        p + 2
    } else {
        p + 1
    };
    let q2 = digits_end_exec(s, k);
    q2 > k && q2 == n
}

pub open spec fn digit_char(d: nat) -> char {
    if d == 0 {
        '0'
    } else if d == 1 {
        '1'
    } else if d == 2 {
        '2'
    } else if d == 3 {
        '3'
    } else if d == 4 {
        '4'
    } else if d == 5 {
        '5'
    } else if d == 6 {
        '6'
    } else if d == 7 {
        '7'
    } else if d == 8 {
        '8'
    } else {
        '9'
    }
}

pub open spec fn char_digit(c: char) -> nat {
    if c == '0' {
        0
    } else if c == '1' {
        1
    } else if c == '2' {
        2
    } else if c == '3' {
        3
    } else if c == '4' {
        4
    } else if c == '5' {
        5
    } else if c == '6' {
        6
    } else if c == '7' {
        7
    } else if c == '8' {
        8
    } else {
        9
    }
}

/// The decimal writing of `n`, most significant digit first.
pub open spec fn dec_of(n: nat) -> Seq<char>
    decreases n,
{
    if n < 10 {
        seq![digit_char(n)]
    } else {
        dec_of(n / 10).push(digit_char(n % 10))
    }
}

/// The value of a digit text, read most significant digit first.
pub open spec fn val_of(s: Seq<char>) -> nat
    decreases s.len(),
{
    if s.len() == 0 {
        0
    } else {
        val_of(s.drop_last()) * 10 + char_digit(s.last())
    }
}

pub proof fn lemma_dec_of_digits(n: nat)
    ensures
        dec_of(n).len() > 0,
        forall|k: int| 0 <= k < dec_of(n).len() ==> is_digit(dec_of(n)[k]),
        n >= 1 ==> dec_of(n)[0] != '0',
        n == 0 ==> dec_of(n) == seq!['0'],
    decreases n,
{
    if n >= 10 {
        assert(n / 10 >= 1) by (nonlinear_arith)
            requires
                n >= 10,
        ;
        lemma_dec_of_digits(n / 10);
        assert(dec_of(n)[0] == dec_of(n / 10)[0]);
    }
}

/// Reading the decimal writing of `n` gives `n` back.
pub proof fn lemma_val_of_dec(n: nat)
    ensures
        val_of(dec_of(n)) == n,
    decreases n,
{
    if n < 10 {
        assert(dec_of(n).drop_last() =~= Seq::<char>::empty());
        assert(char_digit(digit_char(n)) == n);
    } else {
        lemma_val_of_dec(n / 10);
        assert(dec_of(n).drop_last() =~= dec_of(n / 10));
        assert(dec_of(n).last() == digit_char(n % 10));
        assert(char_digit(digit_char(n % 10)) == n % 10);
        assert(val_of(dec_of(n)) == val_of(dec_of(n).drop_last()) * 10 + char_digit(
            dec_of(n).last(),
        ));
        vstd::arithmetic::div_mod::lemma_fundamental_div_mod(n as int, 10);
    }
}

/// The decimal writing of `n`.
pub fn format_usize(n: usize) -> (r: String)
    ensures
        r@ == dec_of(n as nat),
{
    let mut digits: Vec<char> = Vec::new();
    let mut cur = n;
    loop
        invariant_except_break
            dec_of(n as nat) == dec_of(cur as nat) + digits@.reverse(),
        ensures
            dec_of(n as nat) == digits@.reverse(),
        decreases cur,
    {
        let d = cur % 10;
        let c: char = if d == 0 {
            '0'
        } else if d == 1 {
            '1'
        } else if d == 2 {
            '2'
        } else if d == 3 {
            '3'
        } else if d == 4 {
            '4'
        } else if d == 5 {
            '5'
        } else if d == 6 {
            '6'
        } else if d == 7 {
            '7'
        } else if d == 8 {
            '8'
        } else {
            '9'
        };
        assert(c == digit_char((cur % 10) as nat));
        let ghost prev = digits@;
        digits.push(c);
        assert(digits@.reverse() =~= seq![c] + prev.reverse());
        if cur < 10 {
            assert(dec_of(cur as nat) == seq![c]);
            assert(dec_of(n as nat) =~= digits@.reverse());
            break ;
        }
        assert(dec_of(cur as nat) =~= dec_of((cur / 10) as nat) + seq![c]);
        assert(dec_of((cur / 10) as nat) + digits@.reverse() =~= dec_of(cur as nat) + prev.reverse());
        cur = cur / 10;
    }
    let mut out = String::new();
    let mut k = digits.len();
    loop
        invariant
            0 <= k <= digits.len(),
            out@ =~= digits@.reverse().take(digits@.len() - k),
        ensures
            out@ =~= digits@.reverse(),
        decreases k,
    {
        if k == 0 {
            assert(digits@.reverse().take(digits@.len() - 0) =~= digits@.reverse());
            break ;
        }
        k = k - 1;
        push_char(&mut out, digits[k]);
        proof {
            assert(digits@.reverse().take(digits@.len() - k) =~= digits@.reverse().take(
                digits@.len() - (k + 1)).push(digits@[k as int]));
        }
    }
    proof {
        assert(out@ =~= digits@.reverse());
    }
    out
}

/// A digit text read left to right never shrinks in value as it extends.
proof fn lemma_val_of_prefix(s: Seq<char>, t: int)
    requires
        0 <= t <= s.len(),
    ensures
        val_of(s.take(t)) <= val_of(s),
    decreases s.len() - t,
{
    if t < s.len() {
        lemma_val_of_prefix(s, t + 1);
        assert(s.take(t + 1).drop_last() =~= s.take(t));
        assert(val_of(s.take(t + 1)) == val_of(s.take(t)) * 10 + char_digit(s.take(t + 1).last()));
    } else {
        assert(s.take(t) =~= s);
    }
}

/// Reads the digit run that starts at `i` as a `usize`. Fails only when the
/// run is empty or its value does not fit.
pub fn parse_usize_at(s: &str, i: usize) -> (r: Option<(usize, usize)>)
    requires
        i <= s@.len(),
    ensures
        r matches Some((v, j)) ==> {
            &&& i < j <= s@.len()
            &&& j == digits_end(s@, i as int)
            &&& v == val_of(s@.subrange(i as int, j as int))
        },
        ({
            let j = digits_end(s@, i as int);
            j > i && val_of(s@.subrange(i as int, j as int)) <= usize::MAX ==> (r matches Some(
                (v, jj),
            ) && v == val_of(s@.subrange(i as int, j as int)) && jj == j)
        }),
{
    let j = digits_end_exec(s, i);
    if j == i {
        return None;
    }
    proof {
        lemma_digits_end(s@, i as int);
    }
    let mut v: usize = 0;
    let mut p = i;
    let ghost run = s@.subrange(i as int, j as int);
    loop
        invariant
            i <= p <= j <= s@.len(),
            j == digits_end(s@, i as int),
            forall|k: int| i <= k < j ==> is_digit(s@[k]),
            run == s@.subrange(i as int, j as int),
            v == val_of(run.take(p - i)),
        ensures
            v == val_of(run),
        decreases j - p,
    {
        if p == j {
            assert(run.take(p - i) =~= run);
            break ;
        }
        let c = s.get_char(p);
        let d: usize = if c == '0' {
            0
        } else if c == '1' {
            1
        } else if c == '2' {
            2
        } else if c == '3' {
            3
        } else if c == '4' {
            4
        } else if c == '5' {
            5
        } else if c == '6' {
            6
        } else if c == '7' {
            7
        } else if c == '8' {
            8
        } else {
            9
        };
        assert(d == char_digit(s@[p as int]));
        if v > (usize::MAX - d) / 10 {
            proof {
                lemma_val_of_prefix(run, p + 1 - i);
                assert(run.take(p + 1 - i).drop_last() =~= run.take(p - i));
                assert(val_of(run.take(p + 1 - i)) == v * 10 + d);
                assert(v * 10 + d > usize::MAX) by (nonlinear_arith)
                    requires
                        v > (usize::MAX - d) / 10,
                        d <= 9,
                ;
            }
            return None;
        }
        assert(v * 10 + d <= usize::MAX) by (nonlinear_arith)
            requires
                v <= (usize::MAX - d) / 10,
                d <= 9,
        ;
        let ghost oldv = v;
        v = v * 10 + d;
        proof {
            assert(run.take(p + 1 - i).drop_last() =~= run.take(p - i));
            assert(run.take(p + 1 - i).last() == s@[p as int]);
            assert(v == val_of(run.take(p + 1 - i)));
        }
        p = p + 1;
    }
    proof {
        assert(run.take(j - i) =~= run);
    }
    Some((v, j))
}

} // verus!
