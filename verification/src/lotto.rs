//! The pattern-scoring engine: detectors for repeated symbols, flushes and
//! straights over a hexadecimal commit hash, with exact rarity arithmetic.
//!
//! Each detector reports, for a hash it matches, a name, a description, an
//! exact occurrence probability (as a ratio of unbounded naturals), a point
//! value (the ceiling of one hundred over the probability) and the matched
//! positions.

use vstd::prelude::*;
use vstd::string::StrSliceExecFns;
use vstd::string::StringExecFns;
use vstd::arithmetic::power::pow;
use crate::bignat::{
    Natural, nat_mul, nat_binomial, nat_pow, binom, perms_spec, points_of, ratio_points,
};
use crate::text::{hex_chars, dec_of, u64_to_string, digit_to_char, push_char, str_to_chars};
use crate::{is_hex_symbol, valid_hash};

verus! {

/// How often a symbol occurs in a hash.
pub open spec fn count_in(h: Seq<char>, c: char) -> nat
    decreases h.len(),
{
    if h.len() == 0 {
        0
    } else {
        count_in(h.drop_last(), c) + if h.last() == c {
            1nat
        } else {
            0nat
        }
    }
}

/// The repeated-symbol groups of a hash: each symbol of the alphabet that
/// occurs at least twice, with its count, in ascending symbol order.
pub open spec fn groups_from(h: Seq<char>, i: int) -> Seq<(char, usize)>
    decreases 16 - i,
{
    if i < 0 || i >= 16 {
        Seq::empty()
    } else {
        let c = hex_chars()[i];
        let rest = groups_from(h, i + 1);
        if count_in(h, c) >= 2 {
            seq![(c, count_in(h, c) as usize)] + rest
        } else {
            rest
        }
    }
}

pub open spec fn nok_groups(h: Seq<char>) -> Seq<(char, usize)> {
    groups_from(h, 0)
}

/// Whether the repeated-symbol detector matches: some symbol repeats.
pub open spec fn nok_matches(h: Seq<char>) -> bool {
    nok_groups(h).len() > 0
}

/// The alphabet rank of a hash symbol: the digits stand at ranks zero to
/// nine, the letters at ten to fifteen.
pub open spec fn rank(c: char) -> int {
    if c <= '9' {
        c as int - '0' as int
    } else {
        c as int - 'a' as int + 10
    }
}

/// Every entry of the alphabet is a hash symbol standing at its own rank.
pub proof fn lemma_hex_ranks()
    ensures
        forall|i: int| 0 <= i < 16 ==> rank(#[trigger] hex_chars()[i]) == i,
        forall|i: int| 0 <= i < 16 ==> is_hex_symbol(#[trigger] hex_chars()[i]),
{
    assert forall|i: int| 0 <= i < 16 implies rank(#[trigger] hex_chars()[i]) == i
        && is_hex_symbol(hex_chars()[i]) by {
        if i < 8 {
            if i < 4 {
                if i == 0 {
                    assert(hex_chars()[0] == '0');
                } else if i == 1 {
                    assert(hex_chars()[1] == '1');
                } else if i == 2 {
                    assert(hex_chars()[2] == '2');
                } else {
                    assert(hex_chars()[3] == '3');
                }
            } else {
                if i == 4 {
                    assert(hex_chars()[4] == '4');
                } else if i == 5 {
                    assert(hex_chars()[5] == '5');
                } else if i == 6 {
                    assert(hex_chars()[6] == '6');
                } else {
                    assert(hex_chars()[7] == '7');
                }
            }
        } else {
            if i < 12 {
                if i == 8 {
                    assert(hex_chars()[8] == '8');
                } else if i == 9 {
                    assert(hex_chars()[9] == '9');
                } else if i == 10 {
                    assert(hex_chars()[10] == 'a');
                } else {
                    assert(hex_chars()[11] == 'b');
                }
            } else {
                if i == 12 {
                    assert(hex_chars()[12] == 'c');
                } else if i == 13 {
                    assert(hex_chars()[13] == 'd');
                } else if i == 14 {
                    assert(hex_chars()[14] == 'e');
                } else {
                    assert(hex_chars()[15] == 'f');
                }
            }
        }
    }
}

/// A hash symbol is the alphabet entry at its rank.
pub proof fn lemma_rank_at(c: char)
    requires
        is_hex_symbol(c),
    ensures
        0 <= rank(c) < 16,
        hex_chars()[rank(c)] == c,
        forall|i: int| 0 <= i < 16 && #[trigger] hex_chars()[i] == c ==> i == rank(c),
{
    lemma_hex_ranks();
    let d = hex_chars()[rank(c)];
    assert(rank(d) == rank(c));
    if c <= '9' && d <= '9' {
        assert(c as int == d as int);
        assert(c == d) by {
            vstd::utf8::char_u32_cast(c, c as u32);
            vstd::utf8::char_u32_cast(d, d as u32);
        }
    } else if c > '9' && d > '9' {
        assert(c as int == d as int);
        assert(c == d) by {
            vstd::utf8::char_u32_cast(c, c as u32);
            vstd::utf8::char_u32_cast(d, d as u32);
        }
    }
}

/// The total of all sixteen symbol counts, from alphabet position `i` on.
spec fn total_from(h: Seq<char>, i: int) -> nat
    decreases 16 - i,
{
    if i < 0 || i >= 16 {
        0
    } else {
        count_in(h, hex_chars()[i]) + total_from(h, i + 1)
    }
}

proof fn lemma_total_step(h: Seq<char>, i: int)
    requires
        h.len() > 0,
        is_hex_symbol(h.last()),
        0 <= i <= 16,
    ensures
        total_from(h, i) == total_from(h.drop_last(), i) + if i <= rank(h.last()) {
            1int
        } else {
            0int
        },
    decreases 16 - i,
{
    lemma_rank_at(h.last());
    if i < 16 {
        lemma_total_step(h, i + 1);
    }
}

proof fn lemma_total_empty(h: Seq<char>, i: int)
    requires
        h.len() == 0,
        0 <= i <= 16,
    ensures
        total_from(h, i) == 0,
    decreases 16 - i,
{
    if i < 16 {
        lemma_total_empty(h, i + 1);
    }
}

proof fn lemma_total_is_len(h: Seq<char>)
    requires
        forall|i: int| 0 <= i < h.len() ==> is_hex_symbol(#[trigger] h[i]),
    ensures
        total_from(h, 0) == h.len(),
    decreases h.len(),
{
    if h.len() == 0 {
        lemma_total_empty(h, 0);
    } else {
        assert(forall|i: int| 0 <= i < h.drop_last().len()
            ==> is_hex_symbol(#[trigger] h.drop_last()[i]));
        lemma_total_is_len(h.drop_last());
        lemma_total_step(h, 0);
        lemma_rank_at(h.last());
    }
}

/// The sum of the counts of the repeated-symbol groups.
pub open spec fn sum_counts(g: Seq<(char, usize)>) -> nat
    decreases g.len(),
{
    if g.len() == 0 {
        0
    } else {
        sum_counts(g.drop_last()) + g.last().1 as nat
    }
}

proof fn lemma_groups_le_total(h: Seq<char>, i: int)
    requires
        0 <= i <= 16,
    ensures
        sum_counts(groups_from(h, i)) <= total_from(h, i),
    decreases 16 - i,
{
    if i < 16 {
        lemma_groups_le_total(h, i + 1);
        let c = hex_chars()[i];
        let rest = groups_from(h, i + 1);
        if count_in(h, c) >= 2 {
            let g = seq![(c, count_in(h, c) as usize)] + rest;
            lemma_sum_counts_cons((c, count_in(h, c) as usize), rest);
        }
    }
}

proof fn lemma_sum_counts_cons(p: (char, usize), rest: Seq<(char, usize)>)
    ensures
        sum_counts(seq![p] + rest) == p.1 + sum_counts(rest),
    decreases rest.len(),
{
    let g = seq![p] + rest;
    assert(sum_counts(Seq::<(char, usize)>::empty()) == 0);
    if rest.len() == 0 {
        assert(g.drop_last() =~= Seq::<(char, usize)>::empty());
        assert(g.last() == p);
        assert(sum_counts(g) == sum_counts(g.drop_last()) + p.1);
        assert(sum_counts(rest) == 0);
    } else {
        assert(g.drop_last() =~= seq![p] + rest.drop_last());
        assert(g.last() == rest.last());
        lemma_sum_counts_cons(p, rest.drop_last());
        assert(sum_counts(g) == sum_counts(g.drop_last()) + rest.last().1);
        assert(sum_counts(rest) == sum_counts(rest.drop_last()) + rest.last().1);
    }
}

/// The repeated groups never count more symbols than the hash holds.
pub proof fn lemma_sum_counts_le_len(h: Seq<char>)
    requires
        forall|i: int| 0 <= i < h.len() ==> is_hex_symbol(#[trigger] h[i]),
    ensures
        sum_counts(nok_groups(h)) <= h.len(),
{
    lemma_groups_le_total(h, 0);
    lemma_total_is_len(h);
}

/// How often a symbol of the hash occurs, by counting.
fn count_occurrences(v: &Vec<char>, c: char) -> (r: usize)
    ensures
        r as nat == count_in(v@, c),
{
    let mut r: usize = 0;
    let mut i: usize = 0;
    while i < v.len()
        invariant
            i <= v@.len(),
            r as nat == count_in(v@.take(i as int), c),
            r <= i,
        decreases v@.len() - i,
    {
        proof {
            assert(v@.take(i + 1).drop_last() =~= v@.take(i as int));
            assert(v@.take(i + 1).last() == v@[i as int]);
        }
        if v[i] == c {
            r = r + 1;
        }
        i = i + 1;
    }
    proof {
        assert(v@.take(v@.len() as int) =~= v@);
    }
    r
}

/// A power as a natural number.
pub open spec fn pow_nat(b: nat, e: nat) -> nat {
    pow(b as int, e) as nat
}

/// The name the repeated-symbol detector reports, by the priority order of
/// its naming policy.
pub open spec fn nok_name(h: Seq<char>) -> Seq<char> {
    let g = nok_groups(h);
    if g.len() == 1 {
        dec_of(g[0].1 as nat) + (" of a kind")@
    } else if forall|i: int| 0 <= i < g.len() ==> (#[trigger] g[i]).1 == 2 {
        dec_of(g.len()) + (" pairs!")@
    } else if forall|i: int| 0 <= i < g.len() ==> (#[trigger] g[i]).1 == g[0].1 {
        dec_of(g.len()) + (" x ")@ + dec_of(g[0].1 as nat) + (" of a kind!")@
    } else {
        ("FULL HOUSE!!")@
    }
}

/// One repeated group, described as `<count> <symbol>s`.
pub open spec fn group_text(p: (char, usize)) -> Seq<char> {
    dec_of(p.1 as nat) + seq![' ', p.0, 's']
}

/// All repeated groups, comma-joined in ascending symbol order.
pub open spec fn groups_text(g: Seq<(char, usize)>) -> Seq<char>
    decreases g.len(),
{
    if g.len() == 0 {
        Seq::empty()
    } else if g.len() == 1 {
        group_text(g[0])
    } else {
        groups_text(g.drop_last()) + (", ")@ + group_text(g.last())
    }
}

/// The description the repeated-symbol detector reports.
pub open spec fn nok_description(h: Seq<char>) -> Seq<char> {
    groups_text(nok_groups(h))
}

/// The product, over the repeated groups, of the ways to choose that
/// group's positions among the hash's.
pub open spec fn prod_binom(len: nat, g: Seq<(char, usize)>) -> nat
    decreases g.len(),
{
    if g.len() == 0 {
        1
    } else {
        prod_binom(len, g.drop_last()) * binom(len, g.last().1 as nat)
    }
}

/// The numerator of the repeated-symbol probability: the position choices
/// for every repeated group, times free choices among the other fifteen
/// symbol values for each remaining position.
pub open spec fn nok_numerator(h: Seq<char>) -> nat {
    prod_binom(h.len(), nok_groups(h)) * pow_nat(15, (h.len() - sum_counts(nok_groups(h))) as nat)
}

/// The point value of the repeated-symbol match: the probability is
/// `nok_numerator / 16^len`.
pub open spec fn nok_points(h: Seq<char>) -> u64 {
    points_of(nok_numerator(h), pow_nat(16, h.len()))
}

/// The positions at which a symbol occurs, in ascending order.
pub open spec fn occ_positions(h: Seq<char>, c: char) -> Seq<usize>
    decreases h.len(),
{
    if h.len() == 0 {
        Seq::empty()
    } else {
        occ_positions(h.drop_last(), c) + if h.last() == c {
            seq![(h.len() - 1) as usize]
        } else {
            Seq::empty()
        }
    }
}

/// The repeated-symbol detector ("N of a kind", pairs, full house).
pub struct NOfAKind {
    commit: String,
    values: Vec<(char, usize)>,
}

impl NOfAKind {
    /// The hash this match was found in.
    pub closed spec fn hash_view(&self) -> Seq<char> {
        self.commit@
    }

    /// A well-formed match: the groups are those of the hash, and there is
    /// at least one.
    pub closed spec fn wf(&self) -> bool {
        &&& valid_hash(self.commit@)
        &&& self.values@ == nok_groups(self.commit@)
        &&& self.values@.len() > 0
    }

    /// Examines a hash for repeated symbols; a match is reported exactly
    /// when some symbol occurs more than once.
    pub fn new(commit: &str) -> (r: Option<NOfAKind>)
        requires
            valid_hash(commit@),
        ensures
            r is Some <==> nok_matches(commit@),
            r is Some ==> r.unwrap().wf() && r.unwrap().hash_view() == commit@,
    {
        let chars = str_to_chars(commit);
        let mut values: Vec<(char, usize)> = Vec::new();
        let mut d: usize = 0;
        while d < 16
            invariant
                d <= 16,
                chars@ == commit@,
                values@ + groups_from(commit@, d as int) == nok_groups(commit@),
            decreases 16 - d,
        {
            let c = digit_to_char(d);
            let cnt = count_occurrences(&chars, c);
            if cnt >= 2 {
                values.push((c, cnt));
                proof {
                    assert((values@.drop_last() + seq![(c, cnt)]) + groups_from(commit@, d + 1)
                        =~= values@.drop_last() + (seq![(c, cnt)] + groups_from(commit@, d + 1)));
                    assert(values@.drop_last().push((c, cnt)) =~= values@.drop_last() + seq![(c, cnt)]);
                }
            } else {
                proof {
                    assert(values@ + groups_from(commit@, d + 1)
                        =~= values@ + groups_from(commit@, d as int));
                }
            }
            d = d + 1;
        }
        proof {
            assert(groups_from(commit@, 16) =~= Seq::<(char, usize)>::empty());
            assert(values@ + Seq::<(char, usize)>::empty() =~= values@);
        }
        if values.len() == 0 {
            None
        } else {
            Some(NOfAKind { commit: commit.to_owned(), values })
        }
    }

    /// The match's name, by the priority order of the naming policy.
    pub fn name(&self) -> (r: String)
        requires
            self.wf(),
        ensures
            r@ == nok_name(self.hash_view()),
    {
        if self.values.len() == 1 {
            let mut r = u64_to_string(self.values[0].1 as u64);
            r.append(" of a kind");
            proof {
                assert(r@ =~= nok_name(self.commit@));
            }
            r
        } else if all_counts_are(&self.values, 2) {
            let mut r = u64_to_string(self.values.len() as u64);
            r.append(" pairs!");
            proof {
                assert(r@ =~= nok_name(self.commit@));
            }
            r
        } else if all_counts_are(&self.values, self.values[0].1) {
            let mut r = u64_to_string(self.values.len() as u64);
            r.append(" x ");
            let c = u64_to_string(self.values[0].1 as u64);
            r.append(c.as_str());
            r.append(" of a kind!");
            proof {
                assert(r@ =~= nok_name(self.commit@));
            }
            r
        } else {
            String::from_str("FULL HOUSE!!")
        }
    }

    /// The match's description: each repeated group as `<count> <symbol>s`,
    /// comma-joined, groups in ascending symbol order.
    pub fn description(&self) -> (r: String)
        requires
            self.wf(),
        ensures
            r@ == nok_description(self.hash_view()),
    {
        let mut r = group_string(self.values[0]);
        proof {
            assert(self.values@.take(1)[0] == self.values@[0]);
            assert(r@ =~= groups_text(self.values@.take(1)));
        }
        let mut i: usize = 1;
        while i < self.values.len()
            invariant
                1 <= i <= self.values@.len(),
                r@ == groups_text(self.values@.take(i as int)),
            decreases self.values@.len() - i,
        {
            r.append(", ");
            let g = group_string(self.values[i]);
            r.append(g.as_str());
            proof {
                let t = self.values@.take(i + 1);
                assert(t.drop_last() =~= self.values@.take(i as int));
                assert(t.last() == self.values@[i as int]);
                assert(r@ =~= groups_text(t));
            }
            i = i + 1;
        }
        proof {
            assert(self.values@.take(self.values@.len() as int) =~= self.values@);
        }
        r
    }

    /// The exact probability of this pattern, as numerator and denominator.
    pub fn probability(&self) -> (r: (Natural, Natural))
        requires
            self.wf(),
        ensures
            r.0@ == nok_numerator(self.hash_view()),
            r.1@ == pow_nat(16, self.hash_view().len()),
    {
        let len = self.commit.as_str().unicode_len();
        let mut prod = Natural::from_u64(1);
        let mut sum: usize = 0;
        let mut i: usize = 0;
        proof {
            lemma_sum_counts_le_len(self.commit@);
        }
        while i < self.values.len()
            invariant
                i <= self.values@.len(),
                self.wf(),
                len == self.commit@.len(),
                prod@ == prod_binom(len as nat, self.values@.take(i as int)),
                sum as nat == sum_counts(self.values@.take(i as int)),
                sum_counts(self.values@) <= len,
            decreases self.values@.len() - i,
        {
            proof {
                lemma_sum_counts_prefix(self.values@, i + 1);
                assert(self.values@.take(i + 1).drop_last() =~= self.values@.take(i as int));
                assert(self.values@.take(i + 1).last() == self.values@[i as int]);
            }
            let cnt = self.values[i].1;
            let b = nat_binomial(len as u64, cnt as u64);
            prod = nat_mul(&prod, &b);
            sum = sum + cnt;
            i = i + 1;
        }
        proof {
            assert(self.values@.take(self.values@.len() as int) =~= self.values@);
            vstd::arithmetic::power::lemma_pow_positive(15, (len - sum) as nat);
            vstd::arithmetic::power::lemma_pow_positive(16, len as nat);
        }
        let fifteen = nat_pow(15, len - sum);
        let num = nat_mul(&prod, &fifteen);
        let den = nat_pow(16, len);
        (num, den)
    }

    /// The match's point value: the ceiling of one hundred over its
    /// probability.
    pub fn points(&self) -> (r: u64)
        requires
            self.wf(),
        ensures
            r == nok_points(self.hash_view()),
    {
        let p = self.probability();
        ratio_points(&p.0, &p.1)
    }

    /// For each repeated group, in ascending symbol order, every position
    /// at which its symbol occurs.
    pub fn positions(&self) -> (r: Vec<Vec<usize>>)
        requires
            self.wf(),
        ensures
            r@.len() == nok_groups(self.hash_view()).len(),
            forall|gi: int| 0 <= gi < r@.len() ==> (#[trigger] r@[gi])@ == occ_positions(
                self.hash_view(),
                nok_groups(self.hash_view())[gi].0,
            ),
    {
        let chars = str_to_chars(self.commit.as_str());
        let mut r: Vec<Vec<usize>> = Vec::new();
        let mut gi: usize = 0;
        while gi < self.values.len()
            invariant
                gi <= self.values@.len(),
                self.wf(),
                chars@ == self.commit@,
                r@.len() == gi,
                forall|j: int| 0 <= j < gi ==> (#[trigger] r@[j])@ == occ_positions(
                    self.commit@,
                    self.values@[j].0,
                ),
            decreases self.values@.len() - gi,
        {
            let p = scan_positions(&chars, self.values[gi].0);
            r.push(p);
            gi = gi + 1;
        }
        r
    }
}

/// Whether every repeated group has exactly the given count.
fn all_counts_are(v: &Vec<(char, usize)>, k: usize) -> (r: bool)
    ensures
        r == (forall|i: int| 0 <= i < v@.len() ==> (#[trigger] v@[i]).1 == k),
{
    let mut i: usize = 0;
    while i < v.len()
        invariant
            i <= v@.len(),
            forall|j: int| 0 <= j < i ==> (#[trigger] v@[j]).1 == k,
        decreases v@.len() - i,
    {
        if v[i].1 != k {
            return false;
        }
        i = i + 1;
    }
    true
}

/// One repeated group as text: `<count> <symbol>s`.
fn group_string(p: (char, usize)) -> (r: String)
    ensures
        r@ == group_text(p),
{
    let mut r = u64_to_string(p.1 as u64);
    push_char(&mut r, ' ');
    push_char(&mut r, p.0);
    push_char(&mut r, 's');
    proof {
        assert(r@ =~= group_text(p));
    }
    r
}

/// A prefix of the groups never counts more than all of them.
proof fn lemma_sum_counts_prefix(g: Seq<(char, usize)>, i: int)
    requires
        0 <= i <= g.len(),
    ensures
        sum_counts(g.take(i)) <= sum_counts(g),
    decreases g.len() - i,
{
    if i == g.len() {
        assert(g.take(i) =~= g);
    } else {
        lemma_sum_counts_prefix(g, i + 1);
        assert(g.take(i + 1).drop_last() =~= g.take(i));
        assert(sum_counts(g.take(i + 1)) == sum_counts(g.take(i)) + g.take(i + 1).last().1);
    }
}

/// A letter symbol of the hash alphabet.
pub open spec fn is_hex_letter(c: char) -> bool {
    'a' <= c && c <= 'f'
}

/// Whether every symbol of the hash is a letter.
pub open spec fn all_letters(h: Seq<char>) -> bool {
    forall|i: int| 0 <= i < h.len() ==> is_hex_letter(#[trigger] h[i])
}

/// Whether every symbol of the hash is a digit.
pub open spec fn all_digits(h: Seq<char>) -> bool {
    forall|i: int| 0 <= i < h.len() ==> crate::text::is_dec_digit(#[trigger] h[i])
}

/// Whether the flush detector matches: one symbol class throughout.
pub open spec fn flush_matches(h: Seq<char>) -> bool {
    all_letters(h) || all_digits(h)
}

/// The numerator of the flush probability: ten letter symbols, or six
/// digit symbols, chosen independently at every position.
pub open spec fn flush_numerator(h: Seq<char>) -> nat {
    if all_letters(h) {
        pow_nat(10, h.len())
    } else {
        pow_nat(6, h.len())
    }
}

/// The point value of the flush match: the probability is
/// `flush_numerator / 16^len`.
pub open spec fn flush_points(h: Seq<char>) -> u64 {
    points_of(flush_numerator(h), pow_nat(16, h.len()))
}

/// The flush description names the symbol class.
pub open spec fn flush_description(h: Seq<char>) -> Seq<char> {
    if all_letters(h) {
        ("all letters")@
    } else {
        ("all numbers")@
    }
}

/// Every position of the hash, in order.
pub open spec fn all_indices(len: nat) -> Seq<usize> {
    Seq::new(len, |i: int| i as usize)
}

fn all_in_letters(v: &Vec<char>) -> (r: bool)
    ensures
        r == all_letters(v@),
{
    let mut i: usize = 0;
    while i < v.len()
        invariant
            i <= v@.len(),
            forall|j: int| 0 <= j < i ==> is_hex_letter(#[trigger] v@[j]),
        decreases v@.len() - i,
    {
        let c = v[i];
        if !('a' <= c && c <= 'f') {
            return false;
        }
        i = i + 1;
    }
    true
}

fn all_in_digits(v: &Vec<char>) -> (r: bool)
    ensures
        r == all_digits(v@),
{
    let mut i: usize = 0;
    while i < v.len()
        invariant
            i <= v@.len(),
            forall|j: int| 0 <= j < i ==> crate::text::is_dec_digit(#[trigger] v@[j]),
        decreases v@.len() - i,
    {
        let c = v[i];
        if !('0' <= c && c <= '9') {
            return false;
        }
        i = i + 1;
    }
    true
}

/// The flush detector: a hash of one symbol class only.
pub struct Flush {
    commit: String,
    letters: bool,
}

impl Flush {
    /// The hash this match was found in.
    pub closed spec fn hash_view(&self) -> Seq<char> {
        self.commit@
    }

    /// A well-formed match: the hash is a flush, and the class flag says
    /// which kind.
    pub closed spec fn wf(&self) -> bool {
        &&& valid_hash(self.commit@)
        &&& flush_matches(self.commit@)
        &&& self.letters == all_letters(self.commit@)
    }

    /// Examines a hash for a flush; a match is reported exactly when every
    /// symbol is a letter, or every symbol is a digit.
    pub fn new(commit: &str) -> (r: Option<Flush>)
        requires
            valid_hash(commit@),
        ensures
            r is Some <==> flush_matches(commit@),
            r is Some ==> r.unwrap().wf() && r.unwrap().hash_view() == commit@,
    {
        let chars = str_to_chars(commit);
        if all_in_letters(&chars) {
            Some(Flush { commit: commit.to_owned(), letters: true })
        } else if all_in_digits(&chars) {
            Some(Flush { commit: commit.to_owned(), letters: false })
        } else {
            None
        }
    }

    /// The match's name.
    pub fn name(&self) -> (r: String)
        ensures
            r@ == ("Flush")@,
    {
        String::from_str("Flush")
    }

    /// The match's description: the symbol class.
    pub fn description(&self) -> (r: String)
        requires
            self.wf(),
        ensures
            r@ == flush_description(self.hash_view()),
    {
        if self.letters {
            String::from_str("all letters")
        } else {
            String::from_str("all numbers")
        }
    }

    /// The exact probability of this pattern, as numerator and denominator.
    pub fn probability(&self) -> (r: (Natural, Natural))
        requires
            self.wf(),
        ensures
            r.0@ == flush_numerator(self.hash_view()),
            r.1@ == pow_nat(16, self.hash_view().len()),
    {
        let len = self.commit.as_str().unicode_len();
        proof {
            vstd::arithmetic::power::lemma_pow_positive(10, len as nat);
            vstd::arithmetic::power::lemma_pow_positive(6, len as nat);
            vstd::arithmetic::power::lemma_pow_positive(16, len as nat);
        }
        let num = if self.letters {
            nat_pow(10, len)
        } else {
            nat_pow(6, len)
        };
        let den = nat_pow(16, len);
        (num, den)
    }

    /// The match's point value.
    pub fn points(&self) -> (r: u64)
        requires
            self.wf(),
        ensures
            r == flush_points(self.hash_view()),
    {
        let p = self.probability();
        ratio_points(&p.0, &p.1)
    }

    /// A single list holding every position of the hash.
    pub fn positions(&self) -> (r: Vec<Vec<usize>>)
        requires
            self.wf(),
        ensures
            r@.len() == 1,
            r@[0]@ == all_indices(self.hash_view().len()),
    {
        let len = self.commit.as_str().unicode_len();
        let mut p: Vec<usize> = Vec::new();
        let mut i: usize = 0;
        while i < len
            invariant
                i <= len,
                p@ =~= all_indices(i as nat),
            decreases len - i,
        {
            p.push(i);
            proof {
                assert(p@ =~= all_indices((i + 1) as nat));
            }
            i = i + 1;
        }
        let mut r: Vec<Vec<usize>> = Vec::new();
        r.push(p);
        r
    }
}

/// A straight must cover at least this many consecutive ranks.
pub const MIN_STRAIGHT: usize = 4;

/// Sorted insertion of a symbol, before the first symbol not below it.
pub open spec fn insert_char(c: char, s: Seq<char>) -> Seq<char>
    decreases s.len(),
{
    if s.len() == 0 {
        seq![c]
    } else if c <= s[0] {
        seq![c] + s
    } else {
        seq![s[0]] + insert_char(c, s.drop_first())
    }
}

/// The hash's symbols in ascending order, by insertion.
pub open spec fn sort_chars(s: Seq<char>) -> Seq<char>
    decreases s.len(),
{
    if s.len() == 0 {
        Seq::empty()
    } else {
        insert_char(s.last(), sort_chars(s.drop_last()))
    }
}

proof fn lemma_count_cons(c: char, t: Seq<char>, x: char)
    ensures
        count_in(seq![c] + t, x) == count_in(t, x) + if x == c {
            1nat
        } else {
            0nat
        },
    decreases t.len(),
{
    let g = seq![c] + t;
    assert(count_in(Seq::<char>::empty(), x) == 0);
    if t.len() == 0 {
        assert(g.drop_last() =~= Seq::<char>::empty());
        assert(g.last() == c);
        assert(count_in(g, x) == count_in(g.drop_last(), x) + if g.last() == x {
            1nat
        } else {
            0nat
        });
    } else {
        assert(g.drop_last() =~= seq![c] + t.drop_last());
        assert(g.last() == t.last());
        lemma_count_cons(c, t.drop_last(), x);
        assert(count_in(g, x) == count_in(g.drop_last(), x) + if g.last() == x {
            1nat
        } else {
            0nat
        });
        assert(count_in(t, x) == count_in(t.drop_last(), x) + if t.last() == x {
            1nat
        } else {
            0nat
        });
    }
}

proof fn lemma_insert_count(c: char, s: Seq<char>, x: char)
    ensures
        count_in(insert_char(c, s), x) == count_in(s, x) + if x == c {
            1nat
        } else {
            0nat
        },
        insert_char(c, s).len() == s.len() + 1,
    decreases s.len(),
{
    if s.len() == 0 {
        lemma_count_cons(c, Seq::empty(), x);
        assert(insert_char(c, s) =~= seq![c] + Seq::<char>::empty());
    } else if c <= s[0] {
        lemma_count_cons(c, s, x);
    } else {
        lemma_insert_count(c, s.drop_first(), x);
        lemma_count_cons(s[0], insert_char(c, s.drop_first()), x);
        lemma_count_cons(s[0], s.drop_first(), x);
        assert(s =~= seq![s[0]] + s.drop_first());
    }
}

/// Sorting keeps every symbol count, and the length.
pub proof fn lemma_sort_count(s: Seq<char>, x: char)
    ensures
        count_in(sort_chars(s), x) == count_in(s, x),
        sort_chars(s).len() == s.len(),
    decreases s.len(),
{
    if s.len() > 0 {
        lemma_sort_count(s.drop_last(), x);
        lemma_insert_count(s.last(), sort_chars(s.drop_last()), x);
    }
}

/// A symbol occurs exactly when its count is positive.
pub proof fn lemma_count_contains(s: Seq<char>, x: char)
    ensures
        count_in(s, x) > 0 <==> s.contains(x),
    decreases s.len(),
{
    if s.len() > 0 {
        lemma_count_contains(s.drop_last(), x);
        if count_in(s, x) > 0 {
            if s.last() == x {
                assert(s[s.len() - 1] == x);
            } else {
                let i = choose|i: int| 0 <= i < s.drop_last().len() && s.drop_last()[i] == x;
                assert(s[i] == x);
            }
        }
        if s.contains(x) {
            let i = choose|i: int| 0 <= i < s.len() && s[i] == x;
            if i < s.len() - 1 {
                assert(s.drop_last()[i] == x);
            }
        }
    }
}

/// Every symbol of the sorted hash is a symbol of the hash, and a hash
/// symbol at that.
proof fn lemma_sorted_elems(s: Seq<char>)
    requires
        forall|i: int| 0 <= i < s.len() ==> is_hex_symbol(#[trigger] s[i]),
    ensures
        forall|i: int| 0 <= i < sort_chars(s).len() ==> s.contains(#[trigger] sort_chars(s)[i])
            && is_hex_symbol(sort_chars(s)[i]),
{
    assert forall|i: int| 0 <= i < sort_chars(s).len() implies s.contains(
        #[trigger] sort_chars(s)[i],
    ) && is_hex_symbol(sort_chars(s)[i]) by {
        let x = sort_chars(s)[i];
        assert(sort_chars(s).contains(x));
        lemma_count_contains(sort_chars(s), x);
        lemma_sort_count(s, x);
        lemma_count_contains(s, x);
        let j = choose|j: int| 0 <= j < s.len() && s[j] == x;
        assert(is_hex_symbol(s[j]));
    }
}

/// The run scan: walks the sorted symbols, growing the current run while
/// ranks stay strictly consecutive, and keeps the first longest run.
pub open spec fn run_scan(s: Seq<char>, i: int, last: char, cur: Seq<char>, best: Seq<char>)
    -> Seq<char>
    decreases s.len() - i,
{
    if i < 0 || i >= s.len() {
        if cur.len() > best.len() {
            cur
        } else {
            best
        }
    } else {
        let c = s[i];
        if rank(c) == rank(last) + 1 {
            run_scan(s, i + 1, c, cur.push(c), best)
        } else if cur.len() > best.len() {
            run_scan(s, i + 1, c, seq![c], cur)
        } else {
            run_scan(s, i + 1, c, seq![c], best)
        }
    }
}

/// The longest run of consecutive ranks in a hash, ties going to the run
/// found first.
pub open spec fn straight_run(h: Seq<char>) -> Seq<char> {
    let s = sort_chars(h);
    if s.len() == 0 {
        Seq::empty()
    } else {
        run_scan(s, 1, s[0], seq![s[0]], Seq::empty())
    }
}

/// Whether the straight detector matches.
pub open spec fn straight_matches(h: Seq<char>) -> bool {
    straight_run(h).len() >= MIN_STRAIGHT
}

/// The run the scan keeps is made of symbols of the sorted hash, has
/// strictly consecutive ranks, and is no longer than the sorted hash.
proof fn lemma_run_scan_props(s: Seq<char>, i: int, last: char, cur: Seq<char>, best: Seq<char>)
    requires
        1 <= i <= s.len(),
        forall|x: char| cur.contains(x) ==> s.contains(x),
        forall|x: char| best.contains(x) ==> s.contains(x),
        cur.len() >= 1,
        cur.len() <= i,
        best.len() <= i,
        cur.last() == last,
        forall|k: int| 0 <= k < cur.len() ==> rank(#[trigger] cur[k]) == rank(cur[0]) + k,
        forall|k: int| 0 <= k < best.len() ==> rank(#[trigger] best[k]) == rank(best[0]) + k,
    ensures
        run_scan(s, i, last, cur, best).len() >= 1,
        run_scan(s, i, last, cur, best).len() <= s.len(),
        forall|x: char| #[trigger] run_scan(s, i, last, cur, best).contains(x) ==> s.contains(x),
        forall|k: int| 0 <= k < run_scan(s, i, last, cur, best).len()
            ==> rank(#[trigger] run_scan(s, i, last, cur, best)[k])
                == rank(run_scan(s, i, last, cur, best)[0]) + k,
    decreases s.len() - i,
{
    if i >= s.len() {
    } else {
        let c = s[i];
        assert(s.contains(c));
        if rank(c) == rank(last) + 1 {
            assert(forall|x: char| #[trigger] cur.push(c).contains(x) ==> cur.contains(x) || x == c);
            assert(rank(cur[cur.len() - 1]) == rank(cur[0]) + cur.len() - 1);
            assert forall|k: int| 0 <= k < cur.push(c).len() implies rank(
                #[trigger] cur.push(c)[k],
            ) == rank(cur.push(c)[0]) + k by {
                if k < cur.len() {
                    assert(cur.push(c)[k] == cur[k]);
                } else {
                    assert(cur.push(c)[k] == c);
                }
            }
            lemma_run_scan_props(s, i + 1, c, cur.push(c), best);
        } else {
            assert(forall|x: char| #[trigger] seq![c].contains(x) ==> x == c);
            if cur.len() > best.len() {
                lemma_run_scan_props(s, i + 1, c, seq![c], cur);
            } else {
                lemma_run_scan_props(s, i + 1, c, seq![c], best);
            }
        }
    }
}

/// Facts about the longest run of a hash: its symbols occur in the hash,
/// and there are at most sixteen of them, one per rank, at most as many as
/// the hash has symbols.
pub proof fn lemma_straight_run_props(h: Seq<char>)
    requires
        valid_hash(h),
    ensures
        straight_run(h).len() >= 1,
        straight_run(h).len() <= h.len(),
        straight_run(h).len() <= 16,
        forall|k: int| 0 <= k < straight_run(h).len() ==> h.contains(
            #[trigger] straight_run(h)[k],
        ),
{
    let s = sort_chars(h);
    lemma_sort_count(h, h[0]);
    lemma_sorted_elems(h);
    let run = straight_run(h);
    assert(seq![s[0]].contains(s[0]) ==> s.contains(s[0]));
    assert forall|x: char| seq![s[0]].contains(x) implies s.contains(x) by {
        assert(x == s[0]);
        assert(s[0] == s[0int]);
    }
    lemma_run_scan_props(s, 1, s[0], seq![s[0]], Seq::empty());
    assert forall|k: int| 0 <= k < run.len() implies h.contains(#[trigger] run[k]) by {
        assert(run.contains(run[k]));
        let x = run[k];
        assert(s.contains(x));
        lemma_count_contains(s, x);
        lemma_sort_count(h, x);
        lemma_count_contains(h, x);
    }
    if run.len() > 16 {
        let lo = run[0];
        let hi = run[16];
        assert(run.contains(lo) && run.contains(hi));
        assert(s.contains(lo) && s.contains(hi));
        let i = choose|i: int| 0 <= i < s.len() && s[i] == lo;
        let j = choose|j: int| 0 <= j < s.len() && s[j] == hi;
        assert(is_hex_symbol(lo) && is_hex_symbol(hi));
        assert(rank(hi) == rank(lo) + 16);
        lemma_rank_at(lo);
        lemma_rank_at(hi);
    }
}

/// The first position at which a symbol occurs.
pub open spec fn first_occ(h: Seq<char>, c: char) -> int
    decreases h.len(),
{
    if h.len() == 0 {
        0
    } else if h[0] == c {
        0
    } else {
        1 + first_occ(h.drop_first(), c)
    }
}

proof fn lemma_first_occ(h: Seq<char>, c: char)
    requires
        h.contains(c),
    ensures
        0 <= first_occ(h, c) < h.len(),
        h[first_occ(h, c)] == c,
        forall|k: int| 0 <= k < first_occ(h, c) ==> h[k] != c,
    decreases h.len(),
{
    if h[0] != c {
        let t = h.drop_first();
        let i = choose|i: int| 0 <= i < h.len() && h[i] == c;
        assert(t[i - 1] == c);
        assert(t.contains(c));
        lemma_first_occ(t, c);
        assert forall|k: int| 0 <= k < first_occ(h, c) implies h[k] != c by {
            if k > 0 {
                assert(t[k - 1] != c);
            }
        }
    }
}

/// The first position of a symbol, by scanning.
fn find_first(v: &Vec<char>, c: char) -> (r: usize)
    requires
        v@.contains(c),
    ensures
        r as int == first_occ(v@, c),
{
    proof {
        lemma_first_occ(v@, c);
    }
    let n = v.len();
    let mut i: usize = 0;
    while v[i] != c
        invariant
            n == v@.len(),
            0 <= i <= first_occ(v@, c) < n,
            v@[first_occ(v@, c)] == c,
            forall|k: int| 0 <= k < first_occ(v@, c) ==> v@[k] != c,
        decreases v@.len() - i,
    {
        i = i + 1;
    }
    i
}

/// The positions list of a straight: for each run symbol, in run order,
/// the first position of that symbol in the unsorted hash.
pub open spec fn straight_positions(h: Seq<char>) -> Seq<usize> {
    Seq::new(straight_run(h).len(), |k: int| first_occ(h, straight_run(h)[k]) as usize)
}

/// The numerator of the straight probability: the placements of the run's
/// symbols among the hash's positions, free choices for the rest, and the
/// possible starting ranks.
pub open spec fn straight_numerator(h: Seq<char>) -> nat {
    let run = straight_run(h);
    perms_spec(h.len(), run.len()) * pow_nat(16, (h.len() - run.len()) as nat) * (
    (16 - run.len()) as nat)
}

/// The point value of the straight match: the probability is
/// `straight_numerator / 16^len`.
pub open spec fn straight_points(h: Seq<char>) -> u64 {
    points_of(straight_numerator(h), pow_nat(16, h.len()))
}

/// The straight's name: a full straight covers the whole hash.
pub open spec fn straight_name(h: Seq<char>) -> Seq<char> {
    if straight_run(h).len() == h.len() {
        ("Straight")@
    } else {
        ("Partial straight")@
    }
}

proof fn lemma_insert_char_at(c: char, s: Seq<char>, j: int)
    requires
        0 <= j <= s.len(),
        forall|k: int| 0 <= k < j ==> s[k] < c,
        j < s.len() ==> c <= s[j],
    ensures
        insert_char(c, s) == s.take(j) + seq![c] + s.skip(j),
    decreases j,
{
    if s.len() == 0 {
        assert(insert_char(c, s) =~= s.take(0) + seq![c] + s.skip(0));
    } else if j == 0 {
        assert(insert_char(c, s) == seq![c] + s);
        assert(seq![c] + s =~= s.take(0) + seq![c] + s.skip(0));
    } else {
        let t = s.drop_first();
        assert(forall|k: int| 0 <= k < j - 1 ==> #[trigger] t[k] == s[k + 1] && t[k] < c);
        lemma_insert_char_at(c, t, j - 1);
        assert(insert_char(c, s) == seq![s[0]] + insert_char(c, t));
        assert(seq![s[0]] + (t.take(j - 1) + seq![c] + t.skip(j - 1)) =~= s.take(j) + seq![c]
            + s.skip(j));
    }
}

/// Sorted insertion into a vector, by scanning for the place.
fn insert_sorted(out: &mut Vec<char>, c: char)
    ensures
        final(out)@ == insert_char(c, old(out)@),
{
    let mut j: usize = 0;
    while j < out.len() && out[j] < c
        invariant
            j <= out@.len(),
            out@ == old(out)@,
            forall|k: int| 0 <= k < j ==> out@[k] < c,
        decreases out@.len() - j,
    {
        j = j + 1;
    }
    proof {
        lemma_insert_char_at(c, out@, j as int);
    }
    out.insert(j, c);
    proof {
        assert(old(out)@.insert(j as int, c) =~= old(out)@.take(j as int) + seq![c] + old(
            out,
        )@.skip(j as int));
    }
}

/// The hash's symbols in ascending order.
fn sort_hash(v: &Vec<char>) -> (r: Vec<char>)
    ensures
        r@ == sort_chars(v@),
{
    let mut out: Vec<char> = Vec::new();
    let mut i: usize = 0;
    while i < v.len()
        invariant
            i <= v@.len(),
            out@ == sort_chars(v@.take(i as int)),
        decreases v@.len() - i,
    {
        proof {
            assert(v@.take(i + 1).drop_last() =~= v@.take(i as int));
            assert(v@.take(i + 1).last() == v@[i as int]);
        }
        insert_sorted(&mut out, v[i]);
        i = i + 1;
    }
    proof {
        assert(v@.take(v@.len() as int) =~= v@);
    }
    out
}

/// The straight detector: a long enough run of consecutive ranks.
pub struct Straight {
    commit: String,
    run: String,
}

impl Straight {
    /// The hash this match was found in.
    pub closed spec fn hash_view(&self) -> Seq<char> {
        self.commit@
    }

    /// A well-formed match: the run is the hash's longest, and long enough.
    pub closed spec fn wf(&self) -> bool {
        &&& valid_hash(self.commit@)
        &&& self.run@ == straight_run(self.commit@)
        &&& self.run@.len() >= MIN_STRAIGHT
    }

    /// The alphabet rank of a hash symbol.
    pub fn to_int(c: char) -> (r: u16)
        requires
            is_hex_symbol(c),
        ensures
            r as int == rank(c),
            r < 16,
    {
        if c <= '9' {
            (c as u32 - '0' as u32) as u16
        } else {
            ((c as u32 - 'a' as u32) + 10) as u16
        }
    }

    /// Examines a hash for a straight; a match is reported exactly when
    /// the longest run of consecutive ranks reaches the minimum length.
    pub fn new(commit: &str) -> (r: Option<Straight>)
        requires
            valid_hash(commit@),
        ensures
            r is Some <==> straight_matches(commit@),
            r is Some ==> r.unwrap().wf() && r.unwrap().hash_view() == commit@,
    {
        let chars = str_to_chars(commit);
        let sorted = sort_hash(&chars);
        proof {
            lemma_sort_count(commit@, '0');
            lemma_sorted_elems(commit@);
        }
        let mut last = sorted[0];
        let mut cur: Vec<char> = Vec::new();
        cur.push(last);
        let mut best: Vec<char> = Vec::new();
        let ghost goal = run_scan(sorted@, 1, sorted@[0], seq![sorted@[0]], Seq::empty());
        proof {
            assert(cur@ =~= seq![sorted@[0]]);
            assert(best@ =~= Seq::<char>::empty());
        }
        let mut i: usize = 1;
        while i < sorted.len()
            invariant
                1 <= i <= sorted@.len(),
                sorted@ == sort_chars(commit@),
                forall|k: int| 0 <= k < sorted@.len() ==> is_hex_symbol(#[trigger] sorted@[k]),
                last == sorted@[i - 1],
                run_scan(sorted@, i as int, last, cur@, best@) == goal,
            decreases sorted@.len() - i,
        {
            let c = sorted[i];
            if Straight::to_int(c) == Straight::to_int(last) + 1 {
                cur.push(c);
            } else if cur.len() > best.len() {
                best = cur;
                cur = Vec::new();
                cur.push(c);
                proof {
                    assert(cur@ =~= seq![sorted@[i as int]]);
                }
            } else {
                cur = Vec::new();
                cur.push(c);
                proof {
                    assert(cur@ =~= seq![sorted@[i as int]]);
                }
            }
            last = c;
            i = i + 1;
        }
        let run_vec = if cur.len() > best.len() {
            cur
        } else {
            best
        };
        proof {
            assert(goal == straight_run(commit@));
            assert(run_vec@ == straight_run(commit@));
        }
        if run_vec.len() >= MIN_STRAIGHT {
            let run = crate::text::chars_to_string(&run_vec);
            Some(Straight { commit: commit.to_owned(), run })
        } else {
            None
        }
    }

    /// The match's name: a full straight covers the whole hash.
    pub fn name(&self) -> (r: String)
        requires
            self.wf(),
        ensures
            r@ == straight_name(self.hash_view()),
    {
        if self.run.as_str().unicode_len() == self.commit.as_str().unicode_len() {
            String::from_str("Straight")
        } else {
            String::from_str("Partial straight")
        }
    }

    /// The match's description: the run's symbols in increasing rank order.
    pub fn description(&self) -> (r: String)
        requires
            self.wf(),
        ensures
            r@ == straight_run(self.hash_view()),
    {
        self.run.clone()
    }

    /// The exact probability of this pattern, as numerator and denominator.
    pub fn probability(&self) -> (r: (Natural, Natural))
        requires
            self.wf(),
        ensures
            r.0@ == straight_numerator(self.hash_view()),
            r.1@ == pow_nat(16, self.hash_view().len()),
    {
        proof {
            lemma_straight_run_props(self.commit@);
        }
        let len = self.commit.as_str().unicode_len();
        let runlen = self.run.as_str().unicode_len();
        proof {
            vstd::arithmetic::power::lemma_pow_positive(16, (len - runlen) as nat);
            vstd::arithmetic::power::lemma_pow_positive(16, len as nat);
        }
        let p = crate::bignat::permutations(len as u64, runlen as u64);
        let f = nat_pow(16, len - runlen);
        let starts = Natural::from_u64((16 - runlen) as u64);
        let num = nat_mul(&nat_mul(&p, &f), &starts);
        let den = nat_pow(16, len);
        (num, den)
    }

    /// The match's point value.
    pub fn points(&self) -> (r: u64)
        requires
            self.wf(),
        ensures
            r == straight_points(self.hash_view()),
    {
        let p = self.probability();
        ratio_points(&p.0, &p.1)
    }

    /// A single list holding, for each run symbol in run order, the first
    /// position of that symbol in the hash.
    pub fn positions(&self) -> (r: Vec<Vec<usize>>)
        requires
            self.wf(),
        ensures
            r@.len() == 1,
            r@[0]@ == straight_positions(self.hash_view()),
    {
        proof {
            lemma_straight_run_props(self.commit@);
        }
        let chars = str_to_chars(self.commit.as_str());
        let runchars = str_to_chars(self.run.as_str());
        let mut p: Vec<usize> = Vec::new();
        let mut k: usize = 0;
        while k < runchars.len()
            invariant
                k <= runchars@.len(),
                self.wf(),
                chars@ == self.commit@,
                runchars@ == straight_run(self.commit@),
                forall|j: int| 0 <= j < runchars@.len() ==> self.commit@.contains(
                    #[trigger] runchars@[j],
                ),
                p@.len() == k,
                forall|j: int| 0 <= j < k ==> p@[j] == first_occ(
                    self.commit@,
                    runchars@[j],
                ) as usize,
            decreases runchars@.len() - k,
        {
            proof {
                lemma_first_occ(self.commit@, runchars@[k as int]);
            }
            let idx = find_first(&chars, runchars[k]);
            p.push(idx);
            k = k + 1;
        }
        proof {
            assert(p@ =~= straight_positions(self.commit@));
        }
        let mut r: Vec<Vec<usize>> = Vec::new();
        r.push(p);
        r
    }
}

/// Which detector a match came from. The rule set is closed: these three.
pub enum RuleKind {
    Repeated,
    Flush,
    Straight,
}

/// One detector's match.
pub enum RuleMatch {
    Kind(NOfAKind),
    Flush(Flush),
    Straight(Straight),
}

impl RuleMatch {
    /// The detector this match came from.
    pub open spec fn kind(&self) -> RuleKind {
        match self {
            RuleMatch::Kind(_) => RuleKind::Repeated,
            RuleMatch::Flush(_) => RuleKind::Flush,
            RuleMatch::Straight(_) => RuleKind::Straight,
        }
    }

    /// The hash this match was found in.
    pub open spec fn hash_view(&self) -> Seq<char> {
        match self {
            RuleMatch::Kind(m) => m.hash_view(),
            RuleMatch::Flush(m) => m.hash_view(),
            RuleMatch::Straight(m) => m.hash_view(),
        }
    }

    /// A well-formed match of its detector.
    pub open spec fn wf(&self) -> bool {
        match self {
            RuleMatch::Kind(m) => m.wf(),
            RuleMatch::Flush(m) => m.wf(),
            RuleMatch::Straight(m) => m.wf(),
        }
    }

    /// The match's name.
    pub fn name(&self) -> (r: String)
        requires
            self.wf(),
        ensures
            r@ == kind_name(self.kind(), self.hash_view()),
    {
        match self {
            RuleMatch::Kind(m) => m.name(),
            RuleMatch::Flush(m) => m.name(),
            RuleMatch::Straight(m) => m.name(),
        }
    }

    /// The match's description.
    pub fn description(&self) -> (r: String)
        requires
            self.wf(),
        ensures
            r@ == kind_description(self.kind(), self.hash_view()),
    {
        match self {
            RuleMatch::Kind(m) => m.description(),
            RuleMatch::Flush(m) => m.description(),
            RuleMatch::Straight(m) => m.description(),
        }
    }

    /// The match's point value.
    pub fn points(&self) -> (r: u64)
        requires
            self.wf(),
        ensures
            r == kind_points(self.kind(), self.hash_view()),
    {
        match self {
            RuleMatch::Kind(m) => m.points(),
            RuleMatch::Flush(m) => m.points(),
            RuleMatch::Straight(m) => m.points(),
        }
    }

    /// The match's position lists.
    pub fn positions(&self) -> (r: Vec<Vec<usize>>)
        requires
            self.wf(),
        ensures
            r@.map_values(|v: Vec<usize>| v@) == kind_positions(self.kind(), self.hash_view()),
    {
        let r = match self {
            RuleMatch::Kind(m) => m.positions(),
            RuleMatch::Flush(m) => m.positions(),
            RuleMatch::Straight(m) => m.positions(),
        };
        proof {
            assert(r@.map_values(|v: Vec<usize>| v@) =~= kind_positions(
                self.kind(),
                self.hash_view(),
            ));
        }
        r
    }
}

/// The name a detector's match carries.
pub open spec fn kind_name(k: RuleKind, h: Seq<char>) -> Seq<char> {
    match k {
        RuleKind::Repeated => nok_name(h),
        RuleKind::Flush => ("Flush")@,
        RuleKind::Straight => straight_name(h),
    }
}

/// The description a detector's match carries.
pub open spec fn kind_description(k: RuleKind, h: Seq<char>) -> Seq<char> {
    match k {
        RuleKind::Repeated => nok_description(h),
        RuleKind::Flush => flush_description(h),
        RuleKind::Straight => straight_run(h),
    }
}

/// The point value a detector's match carries.
pub open spec fn kind_points(k: RuleKind, h: Seq<char>) -> u64 {
    match k {
        RuleKind::Repeated => nok_points(h),
        RuleKind::Flush => flush_points(h),
        RuleKind::Straight => straight_points(h),
    }
}

/// The position lists a detector's match carries.
pub open spec fn kind_positions(k: RuleKind, h: Seq<char>) -> Seq<Seq<usize>> {
    match k {
        RuleKind::Repeated => Seq::new(
            nok_groups(h).len(),
            |gi: int| occ_positions(h, nok_groups(h)[gi].0),
        ),
        RuleKind::Flush => seq![all_indices(h.len())],
        RuleKind::Straight => seq![straight_positions(h)],
    }
}

/// The detectors that match a hash, in evaluation order.
pub open spec fn match_kinds(h: Seq<char>) -> Seq<RuleKind> {
    (if nok_matches(h) {
        seq![RuleKind::Repeated]
    } else {
        Seq::empty()
    }) + (if flush_matches(h) {
        seq![RuleKind::Flush]
    } else {
        Seq::empty()
    }) + (if straight_matches(h) {
        seq![RuleKind::Straight]
    } else {
        Seq::empty()
    })
}

/// Insertion of a match behind every match with at least its points:
/// descending order, stable on ties.
pub open spec fn insert_desc(s: Seq<RuleKind>, x: RuleKind, h: Seq<char>) -> Seq<RuleKind>
    decreases s.len(),
{
    if s.len() == 0 {
        seq![x]
    } else if kind_points(x, h) > kind_points(s[0], h) {
        seq![x] + s
    } else {
        seq![s[0]] + insert_desc(s.drop_first(), x, h)
    }
}

/// Stable sort of the matched detectors, descending by points.
pub open spec fn sort_desc(s: Seq<RuleKind>, h: Seq<char>) -> Seq<RuleKind>
    decreases s.len(),
{
    if s.len() == 0 {
        Seq::empty()
    } else {
        insert_desc(sort_desc(s.drop_last(), h), s.last(), h)
    }
}

/// The matched detectors, ranked descending by points, evaluation order
/// kept on ties.
pub open spec fn ranked_kinds(h: Seq<char>) -> Seq<RuleKind> {
    sort_desc(match_kinds(h), h)
}

proof fn lemma_insert_desc_at(s: Seq<RuleKind>, x: RuleKind, h: Seq<char>, j: int)
    requires
        0 <= j <= s.len(),
        forall|k: int| 0 <= k < j ==> !(kind_points(x, h) > kind_points(#[trigger] s[k], h)),
        j < s.len() ==> kind_points(x, h) > kind_points(s[j], h),
    ensures
        insert_desc(s, x, h) == s.take(j) + seq![x] + s.skip(j),
    decreases j,
{
    if s.len() == 0 {
        assert(insert_desc(s, x, h) =~= s.take(0) + seq![x] + s.skip(0));
    } else if j == 0 {
        if kind_points(x, h) > kind_points(s[0], h) {
            assert(seq![x] + s =~= s.take(0) + seq![x] + s.skip(0));
        }
    } else {
        let t = s.drop_first();
        assert(forall|k: int| 0 <= k < j - 1 ==> #[trigger] t[k] == s[k + 1]);
        lemma_insert_desc_at(t, x, h, j - 1);
        assert(insert_desc(s, x, h) == seq![s[0]] + insert_desc(t, x, h));
        assert(seq![s[0]] + (t.take(j - 1) + seq![x] + t.skip(j - 1)) =~= s.take(j) + seq![x]
            + s.skip(j));
    }
}

/// Places one match into an already ranked list, behind equal points.
fn insert_ranked(rules: &mut Vec<RuleMatch>, m: RuleMatch)
    requires
        m.wf(),
        forall|i: int| 0 <= i < old(rules)@.len() ==> (#[trigger] old(rules)@[i]).wf()
            && old(rules)@[i].hash_view() == m.hash_view(),
    ensures
        final(rules)@.map_values(|e: RuleMatch| e.kind()) == insert_desc(
            old(rules)@.map_values(|e: RuleMatch| e.kind()),
            m.kind(),
            m.hash_view(),
        ),
        forall|i: int| 0 <= i < final(rules)@.len() ==> (#[trigger] final(rules)@[i]).wf()
            && final(rules)@[i].hash_view() == m.hash_view(),
{
    let px = m.points();
    let mut j: usize = 0;
    while j < rules.len() && !(px > rules[j].points())
        invariant
            j <= rules@.len(),
            rules@ == old(rules)@,
            px == kind_points(m.kind(), m.hash_view()),
            m.wf(),
            forall|i: int| 0 <= i < rules@.len() ==> (#[trigger] rules@[i]).wf()
                && rules@[i].hash_view() == m.hash_view(),
            forall|k: int| 0 <= k < j ==> !(kind_points(m.kind(), m.hash_view()) > kind_points(
                (#[trigger] rules@[k]).kind(),
                m.hash_view(),
            )),
        decreases rules@.len() - j,
    {
        j = j + 1;
    }
    proof {
        let ks = rules@.map_values(|e: RuleMatch| e.kind());
        assert(forall|k: int| 0 <= k < ks.len() ==> #[trigger] ks[k] == rules@[k].kind());
        lemma_insert_desc_at(ks, m.kind(), m.hash_view(), j as int);
    }
    rules.insert(j, m);
    proof {
        let ks = old(rules)@.map_values(|e: RuleMatch| e.kind());
        assert(rules@.map_values(|e: RuleMatch| e.kind()) =~= ks.take(j as int) + seq![m.kind()]
            + ks.skip(j as int));
        assert(forall|i: int| 0 <= i < rules@.len() ==> (#[trigger] rules@[i]).wf()
            && rules@[i].hash_view() == m.hash_view());
    }
}

/// The full scoring result for one hash: every detector's match, ranked
/// descending by points.
pub struct LottoResult {
    pub hash: String,
    pub rules: Vec<RuleMatch>,
}

impl LottoResult {
    /// A well-formed result: the matches are exactly the matching
    /// detectors for the hash, ranked.
    pub open spec fn wf(&self) -> bool {
        &&& valid_hash(self.hash@)
        &&& forall|i: int| 0 <= i < self.rules@.len() ==> (#[trigger] self.rules@[i]).wf()
            && self.rules@[i].hash_view() == self.hash@
        &&& self.rules@.map_values(|e: RuleMatch| e.kind()) == ranked_kinds(self.hash@)
    }

    /// Runs every detector over the hash and ranks the matches descending
    /// by points, stable in evaluation order on ties.
    pub fn new(hash: &str) -> (r: LottoResult)
        requires
            valid_hash(hash@),
        ensures
            r.wf(),
            r.hash@ == hash@,
    {
        let mut matches: Vec<RuleMatch> = Vec::new();
        if let Some(m) = NOfAKind::new(hash) {
            matches.push(RuleMatch::Kind(m));
        }
        if let Some(m) = Flush::new(hash) {
            matches.push(RuleMatch::Flush(m));
        }
        if let Some(m) = Straight::new(hash) {
            matches.push(RuleMatch::Straight(m));
        }
        proof {
            assert(matches@.map_values(|e: RuleMatch| e.kind()) =~= match_kinds(hash@));
        }
        let ghost all = matches@;
        let mut rules: Vec<RuleMatch> = Vec::new();
        let ghost ks = all.map_values(|e: RuleMatch| e.kind());
        proof {
            assert(rules@.map_values(|e: RuleMatch| e.kind()) =~= sort_desc(
                ks.take(0),
                hash@,
            ));
        }
        let mut taken: usize = 0;
        while matches.len() > 0
            invariant
                all.len() <= 3,
                taken + matches@.len() == all.len(),
                matches@ =~= all.skip(taken as int),
                forall|i: int| 0 <= i < all.len() ==> (#[trigger] all[i]).wf()
                    && all[i].hash_view() == hash@,
                ks == all.map_values(|e: RuleMatch| e.kind()),
                rules@.map_values(|e: RuleMatch| e.kind()) == sort_desc(
                    ks.take(taken as int),
                    hash@,
                ),
                forall|i: int| 0 <= i < rules@.len() ==> (#[trigger] rules@[i]).wf()
                    && rules@[i].hash_view() == hash@,
            decreases matches@.len(),
        {
            let m = matches.remove(0);
            proof {
                assert(m == all[taken as int]);
                assert(matches@ =~= all.skip(taken + 1));
            }
            if rules.len() == 0 {
                proof {
                    assert(m.hash_view() == hash@);
                }
                insert_ranked(&mut rules, m);
            } else {
                insert_ranked(&mut rules, m);
            }
            proof {
                assert(ks.take(taken + 1).drop_last() =~= ks.take(taken as int));
                assert(ks.take(taken + 1).last() == ks[taken as int]);
            }
            taken = taken + 1;
        }
        proof {
            assert(ks.take(all.len() as int) =~= ks);
        }
        LottoResult { hash: hash.to_owned(), rules }
    }

    /// The sum of all matches' points, held to the range of `u64`.
    pub fn total_points(&self) -> (r: u64)
        requires
            self.wf(),
        ensures
            r == total_points_spec(self.hash@),
    {
        let mut acc: u64 = 0;
        let mut i: usize = 0;
        let ghost ranked = ranked_kinds(self.hash@);
        proof {
            assert(ranked.skip(0) =~= ranked);
        }
        while i < self.rules.len()
            invariant
                i <= self.rules@.len(),
                self.wf(),
                ranked == ranked_kinds(self.hash@),
                ranked.len() == self.rules@.len(),
                sum_points_from(ranked.skip(i as int), self.hash@, acc) == total_points_spec(
                    self.hash@,
                ),
            decreases self.rules@.len() - i,
        {
            proof {
                assert(self.rules@.map_values(|e: RuleMatch| e.kind())[i as int]
                    == self.rules@[i as int].kind());
                assert(ranked.skip(i as int)[0] == ranked[i as int]);
                assert(ranked.skip(i as int).drop_first() =~= ranked.skip(i + 1));
            }
            let p = self.rules[i].points();
            acc = if acc > u64::MAX - p {
                u64::MAX
            } else {
                acc + p
            };
            i = i + 1;
        }
        proof {
            assert(ranked.skip(ranked.len() as int) =~= Seq::<RuleKind>::empty());
        }
        acc
    }
}

proof fn lemma_count_zero(h: Seq<char>, c: char)
    requires
        forall|k: int| 0 <= k < h.len() ==> h[k] != c,
    ensures
        count_in(h, c) == 0,
    decreases h.len(),
{
    if h.len() > 0 {
        lemma_count_zero(h.drop_last(), c);
    }
}

proof fn lemma_count_distinct(h: Seq<char>, c: char)
    requires
        forall|i: int, j: int| 0 <= i < j < h.len() ==> h[i] != h[j],
    ensures
        count_in(h, c) <= 1,
    decreases h.len(),
{
    if h.len() > 0 {
        let t = h.drop_last();
        assert(forall|i: int, j: int| 0 <= i < j < t.len() ==> t[i] != t[j]);
        lemma_count_distinct(t, c);
        if h.last() == c {
            assert(forall|k: int| 0 <= k < t.len() ==> t[k] != c);
            lemma_count_zero(t, c);
        }
    }
}

proof fn lemma_groups_empty(h: Seq<char>, i: int)
    requires
        0 <= i <= 16,
        forall|c: char| count_in(h, c) <= 1,
    ensures
        groups_from(h, i).len() == 0,
    decreases 16 - i,
{
    if i < 16 {
        lemma_groups_empty(h, i + 1);
    }
}

/// A hash whose symbols are pairwise distinct has no repeated-symbol
/// match.
pub proof fn lemma_distinct_symbols_no_match(h: Seq<char>)
    requires
        forall|i: int, j: int| 0 <= i < j < h.len() ==> h[i] != h[j],
    ensures
        !nok_matches(h),
{
    assert forall|c: char| count_in(h, c) <= 1 by {
        lemma_count_distinct(h, c);
    }
    lemma_groups_empty(h, 0);
}

/// Scoring is a pure function of the hash: two well-formed results for
/// the same hash carry the same matches, in the same order, with the same
/// points and the same total.
pub proof fn lemma_scoring_idempotent(a: &LottoResult, b: &LottoResult)
    requires
        a.wf(),
        b.wf(),
        a.hash@ == b.hash@,
    ensures
        a.rules@.len() == b.rules@.len(),
        a.rules@.map_values(|e: RuleMatch| e.kind()) == b.rules@.map_values(
            |e: RuleMatch| e.kind(),
        ),
        forall|i: int| 0 <= i < a.rules@.len() ==> kind_points(
            (#[trigger] a.rules@[i]).kind(),
            a.hash@,
        ) == kind_points(b.rules@[i].kind(), b.hash@),
        total_points_spec(a.hash@) == total_points_spec(b.hash@),
{
    assert(a.rules@.map_values(|e: RuleMatch| e.kind()).len() == a.rules@.len());
    assert(b.rules@.map_values(|e: RuleMatch| e.kind()).len() == b.rules@.len());
    assert forall|i: int| 0 <= i < a.rules@.len() implies kind_points(
        (#[trigger] a.rules@[i]).kind(),
        a.hash@,
    ) == kind_points(b.rules@[i].kind(), b.hash@) by {
        assert(a.rules@.map_values(|e: RuleMatch| e.kind())[i] == a.rules@[i].kind());
        assert(b.rules@.map_values(|e: RuleMatch| e.kind())[i] == b.rules@[i].kind());
    }
}

/// Saturating addition of point values.
pub open spec fn sat_add(a: u64, b: u64) -> u64 {
    if a + b > u64::MAX {
        u64::MAX
    } else {
        (a + b) as u64
    }
}

/// The points of the ranked matches, summed left to right with
/// saturation.
pub open spec fn sum_points_from(ks: Seq<RuleKind>, h: Seq<char>, acc: u64) -> u64
    decreases ks.len(),
{
    if ks.len() == 0 {
        acc
    } else {
        sum_points_from(ks.drop_first(), h, sat_add(acc, kind_points(ks[0], h)))
    }
}

/// The total score of a hash.
pub open spec fn total_points_spec(h: Seq<char>) -> u64 {
    sum_points_from(ranked_kinds(h), h, 0)
}

/// The positions at which a symbol occurs, by scanning.
fn scan_positions(v: &Vec<char>, c: char) -> (p: Vec<usize>)
    ensures
        p@ == occ_positions(v@, c),
{
    let mut p: Vec<usize> = Vec::new();
    let mut i: usize = 0;
    while i < v.len()
        invariant
            i <= v@.len(),
            p@ == occ_positions(v@.take(i as int), c),
        decreases v@.len() - i,
    {
        proof {
            assert(v@.take(i + 1).drop_last() =~= v@.take(i as int));
            assert(v@.take(i + 1).last() == v@[i as int]);
        }
        if v[i] == c {
            p.push(i);
            proof {
                assert(p@ =~= occ_positions(v@.take(i as int), c) + seq![i as usize]);
                assert(occ_positions(v@.take(i + 1), c)
                    =~= occ_positions(v@.take(i as int), c) + seq![i as usize]);
            }
        } else {
            proof {
                assert(occ_positions(v@.take(i + 1), c) =~= occ_positions(v@.take(i as int), c));
            }
        }
        i = i + 1;
    }
    proof {
        assert(v@.take(v@.len() as int) =~= v@);
    }
    p
}

} // verus!
