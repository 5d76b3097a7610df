//! Characters and decimal numerals, shared by the scoring engine (names,
//! descriptions) and the ledger codec (the persisted record format).

use vstd::prelude::*;
use vstd::string::StrSliceExecFns;
use vstd::string::StringExecFns;
use vstd::arithmetic::power::pow;

verus! {

/// The sixteen hash symbols, in ascending alphabet order.
pub open spec fn hex_chars() -> Seq<char> {
    seq!['0', '1', '2', '3', '4', '5', '6', '7', '8', '9', 'a', 'b', 'c', 'd', 'e', 'f']
}

/// Relies on `String::push`: appends one character.
#[verifier::external_body]
pub fn push_char(s: &mut String, c: char)
    ensures
        final(s)@ == old(s)@ + seq![c],
{
    s.push(c);
}

/// The characters of a string, as a vector.
pub fn str_to_chars(s: &str) -> (v: Vec<char>)
    ensures
        v@ == s@,
{
    let n = s.unicode_len();
    let mut v: Vec<char> = Vec::new();
    let mut i: usize = 0;
    while i < n
        invariant
            i <= n,
            n == s@.len(),
            v@ == s@.take(i as int),
        decreases n - i,
    {
        v.push(s.get_char(i));
        proof {
            assert(v@ =~= s@.take(i + 1));
        }
        i = i + 1;
    }
    proof {
        assert(s@.take(n as int) =~= s@);
    }
    v
}

/// A string holding the given characters.
pub fn chars_to_string(v: &Vec<char>) -> (r: String)
    ensures
        r@ == v@,
{
    let mut r = String::new();
    let mut i: usize = 0;
    while i < v.len()
        invariant
            i <= v@.len(),
            r@ == v@.take(i as int),
        decreases v@.len() - i,
    {
        push_char(&mut r, v[i]);
        proof {
            assert(r@ =~= v@.take(i + 1));
        }
        i = i + 1;
    }
    proof {
        assert(v@.take(v@.len() as int) =~= v@);
    }
    r
}

/// The symbol for a value below sixteen.
pub fn digit_to_char(d: usize) -> (c: char)
    requires
        d < 16,
    ensures
        c == hex_chars()[d as int],
{
    let table = "0123456789abcdef";
    proof {
        reveal_strlit("0123456789abcdef");
        assert(table@ =~= hex_chars());
    }
    table.get_char(d)
}

/// Whether a character is a decimal digit.
pub open spec fn is_dec_digit(c: char) -> bool {
    '0' <= c && c <= '9'
}

/// The value of a decimal digit.
pub open spec fn digit_val(c: char) -> int {
    c as int - '0' as int
}

/// The canonical decimal numeral of a natural number: no sign, no
/// leading zeroes (`0` itself is the single digit `0`).
pub open spec fn dec_of(n: nat) -> Seq<char>
    decreases n,
{
    if n < 10 {
        seq![hex_chars()[n as int]]
    } else {
        dec_of(n / 10) + seq![hex_chars()[(n % 10) as int]]
    }
}

/// The canonical decimal numeral of an integer: a `-` sign for the
/// negative ones.
pub open spec fn dec_int_of(n: int) -> Seq<char> {
    if n < 0 {
        seq!['-'] + dec_of((-n) as nat)
    } else {
        dec_of(n as nat)
    }
}

/// Every character of a numeral is a digit, and its first is `0` only for
/// the numeral of zero.
pub proof fn lemma_dec_of_shape(n: nat)
    ensures
        dec_of(n).len() > 0,
        forall|i: int| 0 <= i < dec_of(n).len() ==> is_dec_digit(#[trigger] dec_of(n)[i]),
        n > 0 ==> dec_of(n)[0] != '0',
        digit_val(dec_of(n)[0]) >= 0,
    decreases n,
{
    if n >= 10 {
        lemma_dec_of_shape(n / 10);
    }
}

/// The value of a digit string, most significant digit first.
pub open spec fn dec_val(ds: Seq<char>) -> nat
    decreases ds.len(),
{
    if ds.len() == 0 {
        0
    } else {
        dec_val(ds.drop_last()) * 10 + (if digit_val(ds.last()) >= 0 {
            digit_val(ds.last()) as nat
        } else {
            0
        })
    }
}

/// The digit symbols carry their own values.
pub proof fn lemma_hex_digit_val(d: int)
    requires
        0 <= d < 10,
    ensures
        digit_val(hex_chars()[d]) == d,
        is_dec_digit(hex_chars()[d]),
{
    if d == 0 {
        assert(hex_chars()[0] == '0');
    } else if d == 1 {
        assert(hex_chars()[1] == '1');
    } else if d == 2 {
        assert(hex_chars()[2] == '2');
    } else if d == 3 {
        assert(hex_chars()[3] == '3');
    } else if d == 4 {
        assert(hex_chars()[4] == '4');
    } else if d == 5 {
        assert(hex_chars()[5] == '5');
    } else if d == 6 {
        assert(hex_chars()[6] == '6');
    } else if d == 7 {
        assert(hex_chars()[7] == '7');
    } else if d == 8 {
        assert(hex_chars()[8] == '8');
    } else {
        assert(hex_chars()[9] == '9');
    }
}

/// Reading back the canonical numeral of `n` yields `n`.
pub proof fn lemma_dec_val_of(n: nat)
    ensures
        dec_val(dec_of(n)) == n,
    decreases n,
{
    assert(dec_val(Seq::<char>::empty()) == 0);
    if n < 10 {
        lemma_hex_digit_val(n as int);
        assert(dec_of(n) =~= seq![hex_chars()[n as int]]);
        assert(dec_of(n).drop_last() =~= Seq::<char>::empty());
        assert(dec_of(n).last() == hex_chars()[n as int]);
        assert(dec_val(dec_of(n)) == 0 * 10 + n);
    } else {
        lemma_dec_val_of(n / 10);
        lemma_hex_digit_val((n % 10) as int);
        assert(dec_of(n).drop_last() =~= dec_of(n / 10));
        assert(dec_of(n).last() == hex_chars()[(n % 10) as int]);
        assert(dec_val(dec_of(n)) == dec_val(dec_of(n / 10)) * 10 + n % 10);
        assert((n / 10) * 10 + n % 10 == n);
    }
}

/// A canonical numeral of `k` digits names a value of at least `10^(k-1)`.
pub proof fn lemma_dec_val_lower(ds: Seq<char>)
    requires
        ds.len() > 0,
        forall|i: int| 0 <= i < ds.len() ==> is_dec_digit(#[trigger] ds[i]),
        ds[0] != '0',
    ensures
        dec_val(ds) >= pow(10, (ds.len() - 1) as nat),
    decreases ds.len(),
{
    if ds.len() == 1 {
        assert(pow(10, 0) == 1) by {
            vstd::arithmetic::power::lemma_pow0(10);
        }
    } else {
        let t = ds.drop_last();
        lemma_dec_val_lower(t);
        assert(pow(10, (ds.len() - 1) as nat) == pow(10, (t.len() - 1) as nat) * 10) by {
            vstd::arithmetic::power::lemma_pow1(10);
            vstd::arithmetic::power::lemma_pow_adds(10, (t.len() - 1) as nat, 1);
        }
        vstd::arithmetic::mul::lemma_mul_inequality(
            pow(10, (t.len() - 1) as nat),
            dec_val(t) as int,
            10,
        );
    }
}

/// The canonical decimal string of a machine word.
pub fn u64_to_string(n: u64) -> (r: String)
    ensures
        r@ == dec_of(n as nat),
    decreases n,
{
    if n < 10 {
        let mut r = String::new();
        push_char(&mut r, digit_to_char(n as usize));
        proof {
            assert(r@ =~= dec_of(n as nat));
        }
        r
    } else {
        let mut r = u64_to_string(n / 10);
        push_char(&mut r, digit_to_char((n % 10) as usize));
        r
    }
}

/// How many decimal digits the text begins with.
pub open spec fn span_digits(t: Seq<char>) -> int
    decreases t.len(),
{
    if t.len() == 0 || !is_dec_digit(t[0]) {
        0
    } else {
        1 + span_digits(t.drop_first())
    }
}

/// Reads a canonical decimal numeral off the front of the text: at least
/// one digit, no leading zero (but `0` itself), greedily.
pub open spec fn dec_nat(t: Seq<char>) -> Option<(nat, Seq<char>)> {
    let k = span_digits(t);
    if k == 0 {
        None
    } else if t[0] == '0' && k > 1 {
        None
    } else {
        Some((dec_val(t.take(k)), t.skip(k)))
    }
}

/// Reads a canonical signed decimal numeral in the range of `i64` off the
/// front of the text.
pub open spec fn dec_i64_front(t: Seq<char>) -> Option<(i64, Seq<char>)> {
    if t.len() > 0 && t[0] == '-' {
        match dec_nat(t.drop_first()) {
            Some((n, rest)) => if 1 <= n && n <= i64::MAX as nat + 1 {
                Some(((0 - n as int) as i64, rest))
            } else {
                None
            },
            None => None,
        }
    } else {
        match dec_nat(t) {
            Some((n, rest)) => if n <= i64::MAX as nat {
                Some((n as i64, rest))
            } else {
                None
            },
            None => None,
        }
    }
}

proof fn lemma_span_at(t: Seq<char>, m: int)
    requires
        0 <= m <= t.len(),
        forall|k: int| 0 <= k < m ==> is_dec_digit(#[trigger] t[k]),
        m < t.len() ==> !is_dec_digit(t[m]),
    ensures
        span_digits(t) == m,
    decreases m,
{
    if m > 0 {
        let u = t.drop_first();
        assert(forall|k: int| 0 <= k < m - 1 ==> #[trigger] u[k] == t[k + 1]);
        lemma_span_at(u, m - 1);
    }
}

/// Reading back the canonical numeral of `n`, with anything not starting
/// in a digit behind it, yields `n` and the rest.
pub proof fn lemma_dec_nat_of(n: nat, rest: Seq<char>)
    requires
        rest.len() == 0 || !is_dec_digit(rest[0]),
    ensures
        dec_nat(dec_of(n) + rest) == Some((n, rest)),
{
    let ds = dec_of(n);
    lemma_dec_of_shape(n);
    let t = ds + rest;
    assert(forall|k: int| 0 <= k < ds.len() ==> #[trigger] t[k] == ds[k]);
    lemma_span_at(t, ds.len() as int);
    assert(t.take(ds.len() as int) =~= ds);
    assert(t.skip(ds.len() as int) =~= rest);
    lemma_dec_val_of(n);
    if n == 0 {
        assert(ds.len() == 1);
    }
}

/// Reading back the canonical numeral of a signed machine word.
pub proof fn lemma_dec_i64_of(n: i64, rest: Seq<char>)
    requires
        rest.len() == 0 || !is_dec_digit(rest[0]),
    ensures
        dec_i64_front(dec_int_of(n as int) + rest) == Some((n, rest)),
{
    let t = dec_int_of(n as int) + rest;
    if n < 0 {
        let m = (0 - n as int) as nat;
        assert(t[0] == '-');
        assert(t.drop_first() =~= dec_of(m) + rest);
        lemma_dec_nat_of(m, rest);
    } else {
        assert(t =~= dec_of(n as nat) + rest);
        lemma_dec_nat_of(n as nat, rest);
        lemma_dec_of_shape(n as nat);
        assert(is_dec_digit(t[0]));
    }
}

/// Reads a decimal digit run at `i`, as a machine word where it fits.
pub fn parse_nat_at(v: &Vec<char>, i: usize) -> (r: Option<(u64, usize)>)
    requires
        i <= v@.len(),
    ensures
        match r {
            Some(p) => i < p.1 <= v@.len() && dec_nat(v@.skip(i as int)) == Some(
                (p.0 as nat, v@.skip(p.1 as int)),
            ),
            None => dec_nat(v@.skip(i as int)) is None || (dec_nat(v@.skip(i as int)) matches Some(
                q,
            ) && q.0 > u64::MAX),
        },
{
    let n = v.len();
    let ghost t = v@.skip(i as int);
    let mut j: usize = i;
    while j < n && '0' <= v[j] && v[j] <= '9'
        invariant
            i <= j <= n,
            n == v@.len(),
            t == v@.skip(i as int),
            forall|k: int| 0 <= k < j - i ==> is_dec_digit(#[trigger] t[k]),
        decreases n - j,
    {
        proof {
            assert(t[j - i] == v@[j as int]);
        }
        j = j + 1;
    }
    proof {
        assert(j < n ==> t[j - i] == v@[j as int]);
        lemma_span_at(t, j - i);
    }
    let k = j - i;
    if k == 0 {
        return None;
    }
    if v[i] == '0' && k > 1 {
        proof {
            assert(t[0] == v@[i as int]);
        }
        return None;
    }
    proof {
        assert(t[0] == v@[i as int]);
        assert(t.take(k as int).drop_last() == t.take(k - 1)) by {
            assert(t.take(k as int).drop_last() =~= t.take(k - 1));
        }
    }
    if k > 20 {
        proof {
            let ds = t.take(k as int);
            assert(forall|x: int| 0 <= x < ds.len() ==> is_dec_digit(#[trigger] ds[x]));
            assert(ds[0] == t[0]);
            lemma_dec_val_lower(ds);
            vstd::arithmetic::power::lemma_pow_increases(10, 20, (k - 1) as nat);
            assert(pow(10, 20) == 100000000000000000000) by {
                reveal_with_fuel(pow, 21);
            }
        }
        return None;
    }
    let mut acc: u128 = 0;
    let mut m: usize = i;
    proof {
        vstd::arithmetic::power::lemma_pow0(10);
        assert(t.take(0) =~= Seq::<char>::empty());
        assert(dec_val(Seq::<char>::empty()) == 0);
    }
    while m < j
        invariant
            i <= m <= j <= n,
            n == v@.len(),
            j - i == k,
            k <= 20,
            t == v@.skip(i as int),
            forall|x: int| 0 <= x < k ==> is_dec_digit(#[trigger] t[x]),
            acc == dec_val(t.take(m - i)),
            acc < pow(10, (m - i) as nat),
        decreases j - m,
    {
        proof {
            assert(t[m - i] == v@[m as int]);
            assert(t.take(m - i + 1).drop_last() =~= t.take(m - i));
            assert(t.take(m - i + 1).last() == t[m - i]);
            assert(pow(10, (m - i + 1) as nat) == pow(10, (m - i) as nat) * 10) by {
                vstd::arithmetic::power::lemma_pow1(10);
                vstd::arithmetic::power::lemma_pow_adds(10, (m - i) as nat, 1);
            }
            vstd::arithmetic::power::lemma_pow_increases(10, (m - i + 1) as nat, 20);
            assert(pow(10, 20) == 100000000000000000000) by {
                reveal_with_fuel(pow, 21);
            }
        }
        let d = (v[m] as u32 - '0' as u32) as u128;
        acc = acc * 10 + d;
        m = m + 1;
    }
    proof {
        assert(t.take(k as int) == t.take(j - i));
    }
    if acc > u64::MAX as u128 {
        None
    } else {
        Some((acc as u64, j))
    }
}

/// Reads a canonical signed decimal at `i`, in the range of `i64`.
pub fn parse_i64_at(v: &Vec<char>, i: usize) -> (r: Option<(i64, usize)>)
    requires
        i <= v@.len(),
    ensures
        match r {
            Some(p) => i < p.1 <= v@.len() && dec_i64_front(v@.skip(i as int)) == Some(
                (p.0, v@.skip(p.1 as int)),
            ),
            None => dec_i64_front(v@.skip(i as int)) is None,
        },
{
    let ghost t = v@.skip(i as int);
    if i < v.len() && v[i] == '-' {
        proof {
            assert(t[0] == v@[i as int]);
            assert(t.drop_first() =~= v@.skip(i + 1));
        }
        match parse_nat_at(v, i + 1) {
            Some(p) => {
                if 1 <= p.0 && p.0 <= 9223372036854775808u64 {
                    let x: i64 = if p.0 == 9223372036854775808u64 {
                        i64::MIN
                    } else {
                        -(p.0 as i64)
                    };
                    Some((x, p.1))
                } else {
                    None
                }
            },
            None => None,
        }
    } else {
        proof {
            if t.len() > 0 {
                assert(t[0] == v@[i as int]);
            }
        }
        match parse_nat_at(v, i) {
            Some(p) => {
                if p.0 <= 9223372036854775807u64 {
                    Some((p.0 as i64, p.1))
                } else {
                    None
                }
            },
            None => None,
        }
    }
}

/// The canonical decimal string of a signed machine word.
pub fn i64_to_string(n: i64) -> (r: String)
    ensures
        r@ == dec_int_of(n as int),
{
    if n >= 0 {
        u64_to_string(n as u64)
    } else {
        let m: u64 = ((-(n + 1)) as u64) + 1;
        let mut r = String::new();
        push_char(&mut r, '-');
        let digits = u64_to_string(m);
        r.append(digits.as_str());
        proof {
            assert(m as nat == (-(n as int)) as nat);
            assert(r@ =~= dec_int_of(n as int));
        }
        r
    }
}

} // verus!
