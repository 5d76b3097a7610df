//! The high-score ledger: score records, the persisted record format, and
//! filtered, ranked retrieval.
//!
//! The backing store's whole content is modelled here as text: a record
//! set is written as one serialized array (`encode_scores`) and read back
//! (`decode_scores`); appending is a read-modify-write of that text. The
//! locking and the file itself are outside work and stay with the caller,
//! which hands the text in and out around each operation.

use vstd::prelude::*;
use vstd::string::StrSliceExecFns;
use vstd::string::StringExecFns;
use crate::errors::LottoError;
use crate::git::Commit;
use crate::lotto::{LottoResult, RuleMatch, kind_name, ranked_kinds, total_points_spec};
use crate::text::{
    dec_i64_front, dec_int_of, dec_nat, dec_of, i64_to_string, parse_i64_at, parse_nat_at,
    push_char, str_to_chars, u64_to_string, lemma_dec_nat_of, lemma_dec_i64_of,
};

verus! {

/// One persisted score: repository identity, short commit hash, total
/// points, timestamp, and the names of the matched rules.
#[derive(Debug, Clone)]
pub struct ScoreInfo {
    pub repo: String,
    pub commit: String,
    pub score: u64,
    pub date: i64,
    pub rules: Vec<String>,
}

/// The mathematical content of a score record.
pub struct ScoreView {
    pub repo: Seq<char>,
    pub commit: Seq<char>,
    pub score: u64,
    pub date: i64,
    pub rules: Seq<Seq<char>>,
}

impl View for ScoreInfo {
    type V = ScoreView;

    open spec fn view(&self) -> ScoreView {
        ScoreView {
            repo: self.repo@,
            commit: self.commit@,
            score: self.score,
            date: self.date,
            rules: self.rules@.map_values(|s: String| s@),
        }
    }
}

impl ScoreInfo {
    /// Snapshots a scoring result against a commit's identity: the
    /// repository and short hash, the total points, the timestamp read
    /// from the commit's decimal date, and the ranked rule names.
    pub fn new(result: &LottoResult, commit: &Commit) -> (r: ScoreInfo)
        requires
            result.wf(),
            exists|n: i64| commit.date@ == dec_int_of(n as int),
        ensures
            r.repo@ == commit.repo@,
            r.commit@ == commit.hash@,
            r.score == total_points_spec(result.hash@),
            dec_int_of(r.date as int) == commit.date@,
            r@.rules == Seq::new(
                ranked_kinds(result.hash@).len(),
                |i: int| kind_name(ranked_kinds(result.hash@)[i], result.hash@),
            ),
    {
        let ghost n0: i64 = choose|n: i64| commit.date@ == dec_int_of(n as int);
        let date_chars = str_to_chars(commit.date.as_str());
        proof {
            lemma_dec_i64_of(n0, Seq::empty());
            assert(dec_int_of(n0 as int) + Seq::<char>::empty() =~= commit.date@);
            assert(date_chars@.skip(0) =~= date_chars@);
        }
        let parsed = parse_i64_at(&date_chars, 0);
        let date: i64 = match parsed {
            Some(p) => p.0,
            None => 0,
        };
        proof {
            assert(parsed is Some);
        }
        let mut rules: Vec<String> = Vec::new();
        let mut i: usize = 0;
        let ghost ranked = ranked_kinds(result.hash@);
        while i < result.rules.len()
            invariant
                i <= result.rules@.len(),
                result.wf(),
                ranked == ranked_kinds(result.hash@),
                ranked.len() == result.rules@.len(),
                rules@.len() == i,
                forall|j: int| 0 <= j < i ==> (#[trigger] rules@[j])@ == kind_name(
                    ranked[j],
                    result.hash@,
                ),
            decreases result.rules@.len() - i,
        {
            proof {
                assert(result.rules@.map_values(|e: RuleMatch| e.kind())[i as int]
                    == result.rules@[i as int].kind());
            }
            let name = result.rules[i].name();
            rules.push(name);
            i = i + 1;
        }
        let r = ScoreInfo {
            repo: commit.repo.clone(),
            commit: commit.hash.clone(),
            score: result.total_points(),
            date,
            rules,
        };
        proof {
            assert(r@.rules =~= Seq::new(
                ranked_kinds(result.hash@).len(),
                |i: int| kind_name(ranked_kinds(result.hash@)[i], result.hash@),
            ));
        }
        r
    }
}

/// One escaped character of a stored string: quotes and backslashes take
/// a backslash, every other character is written as it is.
pub open spec fn esc_char(c: char) -> Seq<char> {
    if c == '"' {
        seq!['\\', '"']
    } else if c == '\\' {
        seq!['\\', '\\']
    } else {
        seq![c]
    }
}

/// A string's characters, escaped.
pub open spec fn esc_str(s: Seq<char>) -> Seq<char>
    decreases s.len(),
{
    if s.len() == 0 {
        Seq::empty()
    } else {
        esc_char(s[0]) + esc_str(s.drop_first())
    }
}

/// A stored string: escaped, between quotes.
pub open spec fn enc_str(s: Seq<char>) -> Seq<char> {
    seq!['"'] + esc_str(s) + seq!['"']
}

pub open spec fn key_repo() -> Seq<char> {
    seq!['{', '"', 'r', 'e', 'p', 'o', '"', ':']
}

pub open spec fn key_commit() -> Seq<char> {
    seq![',', '"', 'c', 'o', 'm', 'm', 'i', 't', '"', ':']
}

pub open spec fn key_score() -> Seq<char> {
    seq![',', '"', 's', 'c', 'o', 'r', 'e', '"', ':']
}

pub open spec fn key_date() -> Seq<char> {
    seq![',', '"', 'd', 'a', 't', 'e', '"', ':']
}

pub open spec fn key_rules() -> Seq<char> {
    seq![',', '"', 'r', 'u', 'l', 'e', 's', '"', ':', '[']
}

/// The rule names of a record, comma-joined.
pub open spec fn enc_str_list(rs: Seq<Seq<char>>) -> Seq<char>
    decreases rs.len(),
{
    if rs.len() == 0 {
        Seq::empty()
    } else if rs.len() == 1 {
        enc_str(rs[0])
    } else {
        enc_str_list(rs.drop_last()) + seq![','] + enc_str(rs.last())
    }
}

/// One stored record: an object with the five fields, in this order.
pub open spec fn enc_record(r: ScoreView) -> Seq<char> {
    key_repo() + enc_str(r.repo) + key_commit() + enc_str(r.commit) + key_score() + dec_of(
        r.score as nat,
    ) + key_date() + dec_int_of(r.date as int) + key_rules() + enc_str_list(r.rules) + seq![
        ']',
        '}',
    ]
}

/// The stored records, comma-joined.
pub open spec fn enc_record_list(rs: Seq<ScoreView>) -> Seq<char>
    decreases rs.len(),
{
    if rs.len() == 0 {
        Seq::empty()
    } else if rs.len() == 1 {
        enc_record(rs[0])
    } else {
        enc_record_list(rs.drop_last()) + seq![','] + enc_record(rs.last())
    }
}

/// The whole backing store: one serialized array of records.
pub open spec fn enc_records(rs: Seq<ScoreView>) -> Seq<char> {
    seq!['['] + enc_record_list(rs) + seq![']']
}

/// Escaping distributes over concatenation.
proof fn lemma_esc_append(a: Seq<char>, b: Seq<char>)
    ensures
        esc_str(a + b) == esc_str(a) + esc_str(b),
    decreases a.len(),
{
    if a.len() == 0 {
        assert(a + b =~= b);
        assert(esc_str(a) + esc_str(b) =~= esc_str(b));
    } else {
        assert((a + b).drop_first() =~= a.drop_first() + b);
        assert((a + b)[0] == a[0]);
        lemma_esc_append(a.drop_first(), b);
        assert(esc_char(a[0]) + (esc_str(a.drop_first()) + esc_str(b)) =~= (esc_char(a[0])
            + esc_str(a.drop_first())) + esc_str(b));
        assert(esc_str(a + b) == esc_char(a[0]) + esc_str(a.drop_first() + b));
    }
}

/// Writes a string in its stored form.
fn append_enc_str(out: &mut String, s: &str)
    ensures
        final(out)@ == old(out)@ + enc_str(s@),
{
    push_char(out, '"');
    let n = s.unicode_len();
    let mut i: usize = 0;
    while i < n
        invariant
            i <= n,
            n == s@.len(),
            out@ == old(out)@ + seq!['"'] + esc_str(s@.take(i as int)),
        decreases n - i,
    {
        let c = s.get_char(i);
        if c == '"' {
            push_char(out, '\\');
            push_char(out, '"');
        } else if c == '\\' {
            push_char(out, '\\');
            push_char(out, '\\');
        } else {
            push_char(out, c);
        }
        proof {
            assert(s@.take(i + 1) =~= s@.take(i as int) + seq![s@[i as int]]);
            lemma_esc_append(s@.take(i as int), seq![s@[i as int]]);
            assert(seq![s@[i as int]].drop_first() =~= Seq::<char>::empty());
            assert(seq![s@[i as int]][0] == s@[i as int]);
            assert(esc_str(Seq::<char>::empty()) == Seq::<char>::empty());
            assert(esc_str(seq![s@[i as int]]) == esc_char(s@[i as int]) + esc_str(
                Seq::<char>::empty(),
            ));
            assert(esc_str(seq![s@[i as int]]) =~= esc_char(s@[i as int]));
            assert(out@ =~= old(out)@ + seq!['"'] + esc_str(s@.take(i + 1)));
        }
        i = i + 1;
    }
    push_char(out, '"');
    proof {
        assert(s@.take(n as int) =~= s@);
        assert(out@ =~= old(out)@ + enc_str(s@));
    }
}

/// Writes one record in its stored form.
fn append_record(out: &mut String, r: &ScoreInfo)
    ensures
        final(out)@ == old(out)@ + enc_record(r@),
{
    out.append("{\"repo\":");
    proof {
        reveal_strlit("{\"repo\":");
        assert(("{\"repo\":")@ =~= key_repo());
    }
    append_enc_str(out, r.repo.as_str());
    out.append(",\"commit\":");
    proof {
        reveal_strlit(",\"commit\":");
        assert((",\"commit\":")@ =~= key_commit());
    }
    append_enc_str(out, r.commit.as_str());
    out.append(",\"score\":");
    proof {
        reveal_strlit(",\"score\":");
        assert((",\"score\":")@ =~= key_score());
    }
    let score_text = u64_to_string(r.score);
    out.append(score_text.as_str());
    out.append(",\"date\":");
    proof {
        reveal_strlit(",\"date\":");
        assert((",\"date\":")@ =~= key_date());
    }
    let date_text = i64_to_string(r.date);
    out.append(date_text.as_str());
    out.append(",\"rules\":[");
    proof {
        reveal_strlit(",\"rules\":[");
        assert((",\"rules\":[")@ =~= key_rules());
    }
    let ghost head = old(out)@ + enc_record(r@).take(
        enc_record(r@).len() - enc_str_list(r@.rules).len() - 2,
    );
    let ghost names = r@.rules;
    proof {
        assert(out@ + enc_str_list(names.take(0)) =~= out@);
    }
    let ghost mark = out@;
    let mut i: usize = 0;
    while i < r.rules.len()
        invariant
            i <= r.rules@.len(),
            names == r@.rules,
            names.len() == r.rules@.len(),
            forall|j: int| 0 <= j < names.len() ==> #[trigger] names[j] == r.rules@[j]@,
            out@ == mark + enc_str_list(names.take(i as int)),
        decreases r.rules@.len() - i,
    {
        if i > 0 {
            push_char(out, ',');
        }
        append_enc_str(out, r.rules[i].as_str());
        proof {
            assert(names.take(i + 1).drop_last() =~= names.take(i as int));
            assert(names.take(i + 1).last() == names[i as int]);
            if i == 0 {
                assert(names.take(1).len() == 1);
                assert(out@ =~= mark + enc_str_list(names.take(1)));
            } else {
                assert(out@ =~= mark + enc_str_list(names.take(i + 1)));
            }
        }
        i = i + 1;
    }
    push_char(out, ']');
    push_char(out, '}');
    proof {
        assert(names.take(names.len() as int) =~= names);
        assert(out@ =~= old(out)@ + enc_record(r@));
    }
}

/// The whole record set, as the text of the backing store.
pub fn encode_scores(records: &Vec<ScoreInfo>) -> (r: String)
    ensures
        r@ == enc_records(records@.map_values(|x: ScoreInfo| x@)),
{
    let ghost views = records@.map_values(|x: ScoreInfo| x@);
    let mut out = String::new();
    push_char(&mut out, '[');
    proof {
        assert(out@ + enc_record_list(views.take(0)) =~= out@);
    }
    let ghost mark = out@;
    let mut i: usize = 0;
    while i < records.len()
        invariant
            i <= records@.len(),
            views == records@.map_values(|x: ScoreInfo| x@),
            views.len() == records@.len(),
            out@ == mark + enc_record_list(views.take(i as int)),
            mark == seq!['['],
        decreases records@.len() - i,
    {
        if i > 0 {
            push_char(&mut out, ',');
        }
        append_record(&mut out, &records[i]);
        proof {
            assert(views[i as int] == records@[i as int]@);
            assert(views.take(i + 1).drop_last() =~= views.take(i as int));
            assert(views.take(i + 1).last() == views[i as int]);
            if i == 0 {
                assert(views.take(1).len() == 1);
                assert(out@ =~= mark + enc_record_list(views.take(1)));
            } else {
                assert(out@ =~= mark + enc_record_list(views.take(i + 1)));
            }
        }
        i = i + 1;
    }
    push_char(&mut out, ']');
    proof {
        assert(views.take(views.len() as int) =~= views);
        assert(out@ =~= enc_records(views));
    }
    out
}

/// Reads a fixed text off the front.
pub open spec fn dec_prefix(t: Seq<char>, p: Seq<char>) -> Option<Seq<char>> {
    if p.len() <= t.len() && t.take(p.len() as int) == p {
        Some(t.skip(p.len() as int))
    } else {
        None
    }
}

/// Reads the escaped characters of a stored string up to its closing
/// quote. Only the two canonical escapes are accepted.
pub open spec fn dec_chars(t: Seq<char>) -> Option<(Seq<char>, Seq<char>)>
    decreases t.len(),
{
    if t.len() == 0 {
        None
    } else if t[0] == '"' {
        Some((Seq::empty(), t.drop_first()))
    } else if t[0] == '\\' {
        if t.len() >= 2 && (t[1] == '"' || t[1] == '\\') {
            match dec_chars(t.skip(2)) {
                Some(p) => Some((seq![t[1]] + p.0, p.1)),
                None => None,
            }
        } else {
            None
        }
    } else {
        match dec_chars(t.drop_first()) {
            Some(p) => Some((seq![t[0]] + p.0, p.1)),
            None => None,
        }
    }
}

/// Reads a stored string off the front.
pub open spec fn dec_str(t: Seq<char>) -> Option<(Seq<char>, Seq<char>)> {
    if t.len() > 0 && t[0] == '"' {
        dec_chars(t.drop_first())
    } else {
        None
    }
}

/// Reads one or more stored strings, comma-separated, up to the `]` that
/// closes their list.
pub open spec fn dec_str_items(t: Seq<char>) -> Option<(Seq<Seq<char>>, Seq<char>)>
    decreases t.len(),
{
    match dec_str(t) {
        Some(p) => if p.1.len() == 0 {
            None
        } else if p.1[0] == ']' {
            Some((seq![p.0], p.1.drop_first()))
        } else if p.1[0] == ',' && p.1.drop_first().len() < t.len() {
            match dec_str_items(p.1.drop_first()) {
                Some(q) => Some((seq![p.0] + q.0, q.1)),
                None => None,
            }
        } else {
            None
        },
        None => None,
    }
}

/// Reads a possibly empty stored string list, `]` included.
pub open spec fn dec_str_list(t: Seq<char>) -> Option<(Seq<Seq<char>>, Seq<char>)> {
    if t.len() > 0 && t[0] == ']' {
        Some((Seq::empty(), t.drop_first()))
    } else {
        dec_str_items(t)
    }
}

/// Reads one stored record off the front.
pub open spec fn dec_record(t: Seq<char>) -> Option<(ScoreView, Seq<char>)> {
    match dec_prefix(t, key_repo()) {
        None => None,
        Some(t1) => match dec_str(t1) {
            None => None,
            Some(p_repo) => match dec_prefix(p_repo.1, key_commit()) {
                None => None,
                Some(t2) => match dec_str(t2) {
                    None => None,
                    Some(p_commit) => match dec_prefix(p_commit.1, key_score()) {
                        None => None,
                        Some(t3) => match dec_nat(t3) {
                            None => None,
                            Some(p_score) => if p_score.0 > u64::MAX {
                                None
                            } else {
                                match dec_prefix(p_score.1, key_date()) {
                                    None => None,
                                    Some(t4) => match dec_i64_front(t4) {
                                        None => None,
                                        Some(p_date) => match dec_prefix(p_date.1, key_rules()) {
                                            None => None,
                                            Some(t5) => match dec_str_list(t5) {
                                                None => None,
                                                Some(p_rules) => match dec_prefix(
                                                    p_rules.1,
                                                    seq!['}'],
                                                ) {
                                                    None => None,
                                                    Some(t6) => Some(
                                                        (
                                                            ScoreView {
                                                                repo: p_repo.0,
                                                                commit: p_commit.0,
                                                                score: p_score.0 as u64,
                                                                date: p_date.0,
                                                                rules: p_rules.0,
                                                            },
                                                            t6,
                                                        ),
                                                    ),
                                                },
                                            },
                                        },
                                    },
                                }
                            },
                        },
                    },
                },
            },
        },
    }
}

/// Reads one or more stored records, comma-separated, up to the `]` that
/// closes the store.
pub open spec fn dec_record_items(t: Seq<char>) -> Option<(Seq<ScoreView>, Seq<char>)>
    decreases t.len(),
{
    match dec_record(t) {
        Some(p) => if p.1.len() == 0 {
            None
        } else if p.1[0] == ']' {
            Some((seq![p.0], p.1.drop_first()))
        } else if p.1[0] == ',' && p.1.drop_first().len() < t.len() {
            match dec_record_items(p.1.drop_first()) {
                Some(q) => Some((seq![p.0] + q.0, q.1)),
                None => None,
            }
        } else {
            None
        },
        None => None,
    }
}

/// Reads the whole backing store. Text of length zero is the bootstrap
/// case of a freshly created store and holds no records; anything else
/// must be one whole serialized array.
pub open spec fn dec_store(t: Seq<char>) -> Option<Seq<ScoreView>> {
    if t.len() == 0 {
        Some(Seq::empty())
    } else if t[0] == '[' {
        let t1 = t.drop_first();
        if t1.len() > 0 && t1[0] == ']' {
            if t1.drop_first().len() == 0 {
                Some(Seq::empty())
            } else {
                None
            }
        } else {
            match dec_record_items(t1) {
                Some(p) => if p.1.len() == 0 {
                    Some(p.0)
                } else {
                    None
                },
                None => None,
            }
        }
    } else {
        None
    }
}

/// Matches a fixed text at `i`, by comparing.
fn p_prefix(v: &Vec<char>, i: usize, key: &Vec<char>) -> (r: Option<usize>)
    requires
        i <= v@.len(),
    ensures
        match r {
            Some(j) => i <= j <= v@.len() && dec_prefix(v@.skip(i as int), key@) == Some(
                v@.skip(j as int),
            ),
            None => dec_prefix(v@.skip(i as int), key@) is None,
        },
{
    let n = v.len();
    let m = key.len();
    if n - i < m {
        return None;
    }
    let mut k: usize = 0;
    while k < m
        invariant
            k <= m,
            i + m <= n,
            n == v@.len(),
            m == key@.len(),
            forall|x: int| 0 <= x < k ==> v@[i + x] == key@[x],
        decreases m - k,
    {
        if v[i + k] != key[k] {
            proof {
                assert(v@.skip(i as int).take(m as int)[k as int] == v@[i + k]);
            }
            return None;
        }
        k = k + 1;
    }
    proof {
        assert(v@.skip(i as int).take(m as int) =~= key@);
        assert(v@.skip(i as int).skip(m as int) =~= v@.skip(i + m));
    }
    Some(i + m)
}

/// Reads a stored string at `i`, by scanning to its closing quote.
fn p_string(v: &Vec<char>, i: usize) -> (r: Option<(String, usize)>)
    requires
        i <= v@.len(),
    ensures
        match r {
            Some(p) => i < p.1 <= v@.len() && dec_str(v@.skip(i as int)) == Some(
                (p.0@, v@.skip(p.1 as int)),
            ),
            None => dec_str(v@.skip(i as int)) is None,
        },
{
    let n = v.len();
    if i >= n || v[i] != '"' {
        proof {
            if i < n {
                assert(v@.skip(i as int)[0] == v@[i as int]);
            }
        }
        return None;
    }
    proof {
        assert(v@.skip(i as int)[0] == v@[i as int]);
        assert(v@.skip(i as int).drop_first() =~= v@.skip(i + 1));
    }
    let mut out = String::new();
    let mut p: usize = i + 1;
    while p < n
        invariant
            i + 1 <= p <= n,
            i < n == v@.len(),
            v@[i as int] == '"',
            dec_chars(v@.skip(p as int)) is Some ==> dec_chars(v@.skip(i + 1)) == Some(
                (
                    out@ + dec_chars(v@.skip(p as int)).unwrap().0,
                    dec_chars(v@.skip(p as int)).unwrap().1,
                ),
            ),
            dec_chars(v@.skip(p as int)) is None ==> dec_chars(v@.skip(i + 1)) is None,
        decreases n - p,
    {
        let ghost t = v@.skip(p as int);
        proof {
            assert(t[0] == v@[p as int]);
            assert(v@.skip(i as int)[0] == v@[i as int]);
            assert(v@.skip(i as int).drop_first() =~= v@.skip(i + 1));
        }
        let c = v[p];
        if c == '"' {
            proof {
                assert(t.drop_first() =~= v@.skip(p + 1));
                assert(out@ + Seq::<char>::empty() =~= out@);
            }
            return Some((out, p + 1));
        } else if c == '\\' {
            if p + 1 < n {
                proof {
                    assert(t[1] == v@[p + 1]);
                }
                let d = v[p + 1];
                if d == '"' || d == '\\' {
                    push_char(&mut out, d);
                    proof {
                        assert(t.skip(2) =~= v@.skip(p + 2));
                        if dec_chars(v@.skip(p + 2)) is Some {
                            let q0 = dec_chars(v@.skip(p + 2)).unwrap().0;
                            assert(out@ + q0 =~= (out@.drop_last() + (seq![d] + q0)));
                        }
                    }
                    p = p + 2;
                } else {
                    proof {
                        assert(dec_chars(t) is None);
                    }
                    return None;
                }
            } else {
                proof {
                    assert(t.len() == 1);
                    assert(dec_chars(t) is None);
                }
                return None;
            }
        } else {
            push_char(&mut out, c);
            proof {
                assert(t.drop_first() =~= v@.skip(p + 1));
                if dec_chars(v@.skip(p + 1)) is Some {
                    let q0 = dec_chars(v@.skip(p + 1)).unwrap().0;
                    assert(out@ + q0 =~= (out@.drop_last() + (seq![c] + q0)));
                }
            }
            p = p + 1;
        }
    }
    proof {
        assert(v@.skip(n as int).len() == 0);
        assert(v@.skip(i as int)[0] == v@[i as int]);
        assert(v@.skip(i as int).drop_first() =~= v@.skip(i + 1));
    }
    None
}

/// Reads the stored string list at `i`, `]` included.
fn p_str_list(v: &Vec<char>, i: usize) -> (r: Option<(Vec<String>, usize)>)
    requires
        i <= v@.len(),
    ensures
        match r {
            Some(p) => i < p.1 <= v@.len() && dec_str_list(v@.skip(i as int)) == Some(
                (p.0@.map_values(|s: String| s@), v@.skip(p.1 as int)),
            ),
            None => dec_str_list(v@.skip(i as int)) is None,
        },
{
    let n = v.len();
    if i < n && v[i] == ']' {
        proof {
            assert(v@.skip(i as int)[0] == v@[i as int]);
            assert(v@.skip(i as int).drop_first() =~= v@.skip(i + 1));
        }
        let out: Vec<String> = Vec::new();
        proof {
            assert(out@.map_values(|s: String| s@) =~= Seq::<Seq<char>>::empty());
        }
        return Some((out, i + 1));
    }
    proof {
        if i < n {
            assert(v@.skip(i as int)[0] == v@[i as int]);
        }
    }
    p_str_items(v, i)
}

/// Reads one or more stored strings at `i`, up to their closing `]`.
fn p_str_items(v: &Vec<char>, i: usize) -> (r: Option<(Vec<String>, usize)>)
    requires
        i <= v@.len(),
    ensures
        match r {
            Some(p) => i < p.1 <= v@.len() && dec_str_items(v@.skip(i as int)) == Some(
                (p.0@.map_values(|s: String| s@), v@.skip(p.1 as int)),
            ),
            None => dec_str_items(v@.skip(i as int)) is None,
        },
    decreases v@.len() - i,
{
    let n = v.len();
    match p_string(v, i) {
        None => None,
        Some(sv) => {
            let (s, j) = sv;
            if j < n {
                proof {
                    assert(v@.skip(j as int)[0] == v@[j as int]);
                }
                let c = v[j];
                if c == ']' {
                    proof {
                        assert(v@.skip(j as int).drop_first() =~= v@.skip(j + 1));
                    }
                    let mut out: Vec<String> = Vec::new();
                    out.push(s);
                    proof {
                        assert(out@.map_values(|x: String| x@) =~= seq![out@[0]@]);
                    }
                    Some((out, j + 1))
                } else if c == ',' {
                    proof {
                        assert(v@.skip(j as int).drop_first() =~= v@.skip(j + 1));
                    }
                    match p_str_items(v, j + 1) {
                        None => None,
                        Some(q) => {
                            let (mut items, k) = q;
                            let ghost w = items@.map_values(|x: String| x@);
                            items.insert(0, s);
                            proof {
                                assert(items@.map_values(|x: String| x@) =~= seq![s@] + w);
                            }
                            Some((items, k))
                        },
                    }
                } else {
                    None
                }
            } else {
                proof {
                    assert(v@.skip(j as int).len() == 0);
                }
                None
            }
        },
    }
}

/// Reads one stored record at `i`.
#[verifier::rlimit(100)]
fn p_record(v: &Vec<char>, i: usize) -> (r: Option<(ScoreInfo, usize)>)
    requires
        i <= v@.len(),
    ensures
        match r {
            Some(p) => i < p.1 <= v@.len() && dec_record(v@.skip(i as int)) == Some(
                (p.0@, v@.skip(p.1 as int)),
            ),
            None => dec_record(v@.skip(i as int)) is None,
        },
{
    let k_repo = str_to_chars("{\"repo\":");
    proof {
        reveal_strlit("{\"repo\":");
        assert(k_repo@ =~= key_repo());
    }
    let j1 = match p_prefix(v, i, &k_repo) {
        Some(j) => j,
        None => {
            return None;
        },
    };
    let pr = match p_string(v, j1) {
        Some(p) => p,
        None => {
            return None;
        },
    };
    let (repo, j2) = pr;
    let k_commit = str_to_chars(",\"commit\":");
    proof {
        reveal_strlit(",\"commit\":");
        assert(k_commit@ =~= key_commit());
    }
    let j3 = match p_prefix(v, j2, &k_commit) {
        Some(j) => j,
        None => {
            return None;
        },
    };
    let pc = match p_string(v, j3) {
        Some(p) => p,
        None => {
            return None;
        },
    };
    let (commit, j4) = pc;
    let k_score = str_to_chars(",\"score\":");
    proof {
        reveal_strlit(",\"score\":");
        assert(k_score@ =~= key_score());
    }
    let j5 = match p_prefix(v, j4, &k_score) {
        Some(j) => j,
        None => {
            return None;
        },
    };
    let ps = match parse_nat_at(v, j5) {
        Some(p) => p,
        None => {
            return None;
        },
    };
    let (score, j6) = ps;
    let k_date = str_to_chars(",\"date\":");
    proof {
        reveal_strlit(",\"date\":");
        assert(k_date@ =~= key_date());
    }
    let j7 = match p_prefix(v, j6, &k_date) {
        Some(j) => j,
        None => {
            return None;
        },
    };
    let pd = match parse_i64_at(v, j7) {
        Some(p) => p,
        None => {
            return None;
        },
    };
    let (date, j8) = pd;
    let k_rules = str_to_chars(",\"rules\":[");
    proof {
        reveal_strlit(",\"rules\":[");
        assert(k_rules@ =~= key_rules());
    }
    let j9 = match p_prefix(v, j8, &k_rules) {
        Some(j) => j,
        None => {
            return None;
        },
    };
    let pl = match p_str_list(v, j9) {
        Some(p) => p,
        None => {
            return None;
        },
    };
    let (rules, j10) = pl;
    if j10 < v.len() {
        proof {
            assert(v@.skip(j10 as int)[0] == v@[j10 as int]);
        }
        let c = v[j10];
        if c == '}' {
            proof {
                assert(v@.skip(j10 as int).take(1) =~= seq!['}']);
                assert(v@.skip(j10 as int).skip(1) =~= v@.skip(j10 + 1));
            }
            let r = ScoreInfo { repo, commit, score, date, rules };
            proof {
                assert(dec_record(v@.skip(i as int)).unwrap().0 == r@);
            }
            Some((r, j10 + 1))
        } else {
            proof {
                if 1 <= v@.skip(j10 as int).len() {
                    assert(v@.skip(j10 as int).take(1)[0] == v@[j10 as int]);
                    assert(v@.skip(j10 as int).take(1) != seq!['}']) by {
                        if v@.skip(j10 as int).take(1) == seq!['}'] {
                            assert(v@.skip(j10 as int).take(1)[0] == '}');
                        }
                    }
                }
            }
            None
        }
    } else {
        proof {
            assert(v@.skip(j10 as int).len() == 0);
        }
        None
    }
}

/// Reads one or more stored records at `i`, up to the closing `]`.
fn p_record_items(v: &Vec<char>, i: usize) -> (r: Option<(Vec<ScoreInfo>, usize)>)
    requires
        i <= v@.len(),
    ensures
        match r {
            Some(p) => i < p.1 <= v@.len() && dec_record_items(v@.skip(i as int)) == Some(
                (p.0@.map_values(|x: ScoreInfo| x@), v@.skip(p.1 as int)),
            ),
            None => dec_record_items(v@.skip(i as int)) is None,
        },
    decreases v@.len() - i,
{
    let n = v.len();
    match p_record(v, i) {
        None => None,
        Some(sv) => {
            let (rec, j) = sv;
            if j < n {
                proof {
                    assert(v@.skip(j as int)[0] == v@[j as int]);
                }
                let c = v[j];
                if c == ']' {
                    proof {
                        assert(v@.skip(j as int).drop_first() =~= v@.skip(j + 1));
                    }
                    let mut out: Vec<ScoreInfo> = Vec::new();
                    out.push(rec);
                    proof {
                        assert(out@.map_values(|x: ScoreInfo| x@) =~= seq![out@[0]@]);
                    }
                    Some((out, j + 1))
                } else if c == ',' {
                    proof {
                        assert(v@.skip(j as int).drop_first() =~= v@.skip(j + 1));
                    }
                    match p_record_items(v, j + 1) {
                        None => None,
                        Some(q) => {
                            let (mut items, k) = q;
                            let ghost w = items@.map_values(|x: ScoreInfo| x@);
                            items.insert(0, rec);
                            proof {
                                assert(items@.map_values(|x: ScoreInfo| x@) =~= seq![rec@] + w);
                            }
                            Some((items, k))
                        },
                    }
                } else {
                    None
                }
            } else {
                proof {
                    assert(v@.skip(j as int).len() == 0);
                }
                None
            }
        },
    }
}

/// Reads a whole backing store's text back into its record set. Text of
/// length zero is the bootstrap case of a freshly created store and holds
/// no records; any other text that is not exactly one serialized record
/// array is malformed, a hard failure.
pub fn decode_scores(store: &str) -> (r: Result<Vec<ScoreInfo>, LottoError>)
    ensures
        match r {
            Ok(v) => dec_store(store@) == Some(v@.map_values(|x: ScoreInfo| x@)),
            Err(e) => dec_store(store@) is None && e == LottoError::ApplicationDirError,
        },
{
    let v = str_to_chars(store);
    let n = v.len();
    if n == 0 {
        let out: Vec<ScoreInfo> = Vec::new();
        proof {
            assert(out@.map_values(|x: ScoreInfo| x@) =~= Seq::<ScoreView>::empty());
        }
        return Ok(out);
    }
    if v[0] != '[' {
        return Err(LottoError::ApplicationDirError);
    }
    proof {
        assert(store@.drop_first() =~= v@.skip(1));
    }
    if n >= 2 && v[1] == ']' {
        proof {
            assert(v@.skip(1)[0] == v@[1]);
            assert(v@.skip(1).drop_first() =~= v@.skip(2));
        }
        if n == 2 {
            let out: Vec<ScoreInfo> = Vec::new();
            proof {
                assert(out@.map_values(|x: ScoreInfo| x@) =~= Seq::<ScoreView>::empty());
            }
            return Ok(out);
        } else {
            return Err(LottoError::ApplicationDirError);
        }
    }
    proof {
        if n >= 2 {
            assert(v@.skip(1)[0] == v@[1]);
        }
    }
    match p_record_items(&v, 1) {
        None => Err(LottoError::ApplicationDirError),
        Some(p) => {
            let (recs, j) = p;
            if j == n {
                proof {
                    assert(v@.skip(j as int).len() == 0);
                }
                Ok(recs)
            } else {
                Err(LottoError::ApplicationDirError)
            }
        },
    }
}

proof fn lemma_dec_prefix_rt(p: Seq<char>, rest: Seq<char>)
    ensures
        dec_prefix(p + rest, p) == Some(rest),
{
    assert((p + rest).take(p.len() as int) =~= p);
    assert((p + rest).skip(p.len() as int) =~= rest);
}

proof fn lemma_dec_chars_rt(s: Seq<char>, rest: Seq<char>)
    ensures
        dec_chars(esc_str(s) + seq!['"'] + rest) == Some((s, rest)),
    decreases s.len(),
{
    let t = esc_str(s) + seq!['"'] + rest;
    if s.len() == 0 {
        assert(t =~= seq!['"'] + rest);
        assert(t[0] == '"');
        assert(t.drop_first() =~= rest);
        assert(dec_chars(t).unwrap().0 =~= s);
    } else {
        let c = s[0];
        let s1 = s.drop_first();
        lemma_dec_chars_rt(s1, rest);
        assert(esc_str(s) == esc_char(c) + esc_str(s1));
        if c == '"' {
            assert(t =~= seq!['\\', '"'] + (esc_str(s1) + seq!['"'] + rest));
            assert(t[0] == '\\' && t[1] == '"');
            assert(t.skip(2) =~= esc_str(s1) + seq!['"'] + rest);
            assert(seq![t[1]] + s1 =~= s);
        } else if c == '\\' {
            assert(t =~= seq!['\\', '\\'] + (esc_str(s1) + seq!['"'] + rest));
            assert(t[0] == '\\' && t[1] == '\\');
            assert(t.skip(2) =~= esc_str(s1) + seq!['"'] + rest);
            assert(seq![t[1]] + s1 =~= s);
        } else {
            assert(t =~= seq![c] + (esc_str(s1) + seq!['"'] + rest));
            assert(t[0] == c);
            assert(t.drop_first() =~= esc_str(s1) + seq!['"'] + rest);
            assert(seq![t[0]] + s1 =~= s);
        }
    }
}

proof fn lemma_dec_str_rt(s: Seq<char>, rest: Seq<char>)
    ensures
        dec_str(enc_str(s) + rest) == Some((s, rest)),
        (enc_str(s) + rest).len() >= 2 + rest.len(),
{
    let t = enc_str(s) + rest;
    assert(t[0] == '"');
    assert(t.drop_first() =~= esc_str(s) + seq!['"'] + rest);
    lemma_dec_chars_rt(s, rest);
}

proof fn lemma_enc_str_list_cons(rs: Seq<Seq<char>>)
    requires
        rs.len() >= 2,
    ensures
        enc_str_list(rs) == enc_str(rs[0]) + seq![','] + enc_str_list(rs.drop_first()),
    decreases rs.len(),
{
    if rs.len() == 2 {
        assert(rs.drop_last() =~= seq![rs[0]]);
        assert(rs.drop_first() =~= seq![rs[1]]);
        assert(enc_str_list(seq![rs[0]]) == enc_str(seq![rs[0]][0]));
        assert(enc_str_list(seq![rs[1]]) == enc_str(seq![rs[1]][0]));
        assert(enc_str_list(rs) =~= enc_str(rs[0]) + seq![','] + enc_str_list(rs.drop_first()));
    } else {
        lemma_enc_str_list_cons(rs.drop_last());
        assert(rs.drop_last()[0] == rs[0]);
        assert(rs.drop_last().drop_first() =~= rs.drop_first().drop_last());
        assert(rs.drop_first().last() == rs.last());
        assert(rs.drop_first().len() >= 2);
        assert(enc_str_list(rs) == enc_str_list(rs.drop_last()) + seq![','] + enc_str(rs.last()));
        assert(enc_str_list(rs.drop_first()) == enc_str_list(rs.drop_first().drop_last())
            + seq![','] + enc_str(rs.drop_first().last()));
        assert((enc_str(rs[0]) + seq![','] + enc_str_list(rs.drop_first().drop_last())) + seq![',']
            + enc_str(rs.last()) =~= enc_str(rs[0]) + seq![','] + (enc_str_list(
            rs.drop_first().drop_last(),
        ) + seq![','] + enc_str(rs.last())));
    }
}

proof fn lemma_dec_str_items_rt(vs: Seq<Seq<char>>, rest: Seq<char>)
    requires
        vs.len() >= 1,
    ensures
        dec_str_items(enc_str_list(vs) + seq![']'] + rest) == Some((vs, rest)),
    decreases vs.len(),
{
    let t = enc_str_list(vs) + seq![']'] + rest;
    if vs.len() == 1 {
        assert(enc_str_list(vs) == enc_str(vs[0]));
        assert(t =~= enc_str(vs[0]) + (seq![']'] + rest));
        lemma_dec_str_rt(vs[0], seq![']'] + rest);
        assert((seq![']'] + rest)[0] == ']');
        assert((seq![']'] + rest).drop_first() =~= rest);
        assert(seq![vs[0]] =~= vs);
    } else {
        lemma_enc_str_list_cons(vs);
        let tail = vs.drop_first();
        let t1 = seq![','] + (enc_str_list(tail) + seq![']'] + rest);
        assert(t =~= enc_str(vs[0]) + t1);
        lemma_dec_str_rt(vs[0], t1);
        assert(t1[0] == ',');
        assert(t1.drop_first() =~= enc_str_list(tail) + seq![']'] + rest);
        lemma_dec_str_items_rt(tail, rest);
        assert(seq![vs[0]] + tail =~= vs);
    }
}

proof fn lemma_enc_record_list_cons(rs: Seq<ScoreView>)
    requires
        rs.len() >= 2,
    ensures
        enc_record_list(rs) == enc_record(rs[0]) + seq![','] + enc_record_list(rs.drop_first()),
    decreases rs.len(),
{
    if rs.len() == 2 {
        assert(rs.drop_last() =~= seq![rs[0]]);
        assert(rs.drop_first() =~= seq![rs[1]]);
        assert(enc_record_list(seq![rs[0]]) == enc_record(seq![rs[0]][0]));
        assert(enc_record_list(seq![rs[1]]) == enc_record(seq![rs[1]][0]));
        assert(enc_record_list(rs) =~= enc_record(rs[0]) + seq![','] + enc_record_list(
            rs.drop_first(),
        ));
    } else {
        lemma_enc_record_list_cons(rs.drop_last());
        assert(rs.drop_last()[0] == rs[0]);
        assert(rs.drop_last().drop_first() =~= rs.drop_first().drop_last());
        assert(rs.drop_first().last() == rs.last());
        assert(rs.drop_first().len() >= 2);
        assert(enc_record_list(rs) == enc_record_list(rs.drop_last()) + seq![','] + enc_record(
            rs.last(),
        ));
        assert(enc_record_list(rs.drop_first()) == enc_record_list(rs.drop_first().drop_last())
            + seq![','] + enc_record(rs.drop_first().last()));
        assert((enc_record(rs[0]) + seq![','] + enc_record_list(rs.drop_first().drop_last()))
            + seq![','] + enc_record(rs.last()) =~= enc_record(rs[0]) + seq![','] + (
        enc_record_list(rs.drop_first().drop_last()) + seq![','] + enc_record(rs.last())));
    }
}

#[verifier::rlimit(100)]
proof fn lemma_dec_record_rt(r: ScoreView, rest: Seq<char>)
    ensures
        dec_record(enc_record(r) + rest) == Some((r, rest)),
        (enc_record(r) + rest).len() >= 1 + rest.len(),
{
    let t = enc_record(r) + rest;
    let after_rules = seq!['}'] + rest;
    let t5 = enc_str_list(r.rules) + seq![']'] + after_rules;
    let t4 = dec_int_of(r.date as int) + (key_rules() + t5);
    let t3 = dec_of(r.score as nat) + (key_date() + t4);
    let t2 = enc_str(r.commit) + (key_score() + t3);
    let t1 = enc_str(r.repo) + (key_commit() + t2);
    assert(t =~= key_repo() + t1);
    lemma_dec_prefix_rt(key_repo(), t1);
    lemma_dec_str_rt(r.repo, key_commit() + t2);
    assert((key_commit() + t2).take(key_commit().len() as int) =~= key_commit());
    lemma_dec_prefix_rt(key_commit(), t2);
    lemma_dec_str_rt(r.commit, key_score() + t3);
    lemma_dec_prefix_rt(key_score(), t3);
    assert((key_date() + t4)[0] == ',');
    lemma_dec_nat_of(r.score as nat, key_date() + t4);
    lemma_dec_prefix_rt(key_date(), t4);
    assert((key_rules() + t5)[0] == ',');
    lemma_dec_i64_of(r.date, key_rules() + t5);
    lemma_dec_prefix_rt(key_rules(), t5);
    if r.rules.len() == 0 {
        assert(enc_str_list(r.rules) =~= Seq::<char>::empty());
        assert(t5 =~= seq![']'] + after_rules);
        assert(t5[0] == ']');
        assert(t5.drop_first() =~= after_rules);
        assert(dec_str_list(t5) == Some((Seq::<Seq<char>>::empty(), after_rules)));
        assert(dec_str_list(t5).unwrap().0 =~= r.rules);
    } else {
        if r.rules.len() == 1 {
            assert(enc_str_list(r.rules) == enc_str(r.rules[0]));
            assert(t5[0] == '"');
        } else {
            lemma_enc_str_list_cons(r.rules);
            assert(t5[0] == '"');
        }
        lemma_dec_str_items_rt(r.rules, after_rules);
        assert(dec_str_list(t5) == dec_str_items(t5));
    }
    assert(after_rules =~= seq!['}'] + rest);
    lemma_dec_prefix_rt(seq!['}'], rest);
    assert(dec_record(t).unwrap().0 == r);
    assert(dec_record(t).unwrap().1 == rest);
}

#[verifier::rlimit(100)]
proof fn lemma_dec_record_items_rt(rs: Seq<ScoreView>, rest: Seq<char>)
    requires
        rs.len() >= 1,
    ensures
        dec_record_items(enc_record_list(rs) + seq![']'] + rest) == Some((rs, rest)),
    decreases rs.len(),
{
    let t = enc_record_list(rs) + seq![']'] + rest;
    if rs.len() == 1 {
        assert(enc_record_list(rs) == enc_record(rs[0]));
        assert(t =~= enc_record(rs[0]) + (seq![']'] + rest));
        lemma_dec_record_rt(rs[0], seq![']'] + rest);
        assert((seq![']'] + rest)[0] == ']');
        assert((seq![']'] + rest).drop_first() =~= rest);
        assert(seq![rs[0]] =~= rs);
    } else {
        lemma_enc_record_list_cons(rs);
        let tail = rs.drop_first();
        let t1 = seq![','] + (enc_record_list(tail) + seq![']'] + rest);
        assert(t =~= enc_record(rs[0]) + t1);
        lemma_dec_record_rt(rs[0], t1);
        assert(t1[0] == ',');
        assert(t1.drop_first() =~= enc_record_list(tail) + seq![']'] + rest);
        lemma_dec_record_items_rt(tail, rest);
        assert(seq![rs[0]] + tail =~= rs);
    }
}

/// Decoding reads back exactly what encoding wrote: the round trip of the
/// backing store.
pub proof fn lemma_store_round_trip(rs: Seq<ScoreView>)
    ensures
        dec_store(enc_records(rs)) == Some(rs),
{
    let t = enc_records(rs);
    assert(t[0] == '[');
    let t1 = t.drop_first();
    assert(t1 =~= enc_record_list(rs) + seq![']']);
    if rs.len() == 0 {
        assert(enc_record_list(rs) =~= Seq::<char>::empty());
        assert(t1 =~= seq![']']);
        assert(t1[0] == ']');
        assert(t1.drop_first() =~= Seq::<char>::empty());
        assert(dec_store(t).unwrap() =~= rs);
    } else {
        if rs.len() == 1 {
            assert(enc_record_list(rs) == enc_record(rs[0]));
        } else {
            lemma_enc_record_list_cons(rs);
        }
        assert(t1[0] == '{');
        assert(t1 =~= enc_record_list(rs) + seq![']'] + Seq::<char>::empty());
        lemma_dec_record_items_rt(rs, Seq::empty());
    }
}

/// Sorted insertion of a record behind every record with at least its
/// score: descending order, stable on ties.
pub open spec fn insert_score_desc(s: Seq<ScoreView>, x: ScoreView) -> Seq<ScoreView>
    decreases s.len(),
{
    if s.len() == 0 {
        seq![x]
    } else if x.score > s[0].score {
        seq![x] + s
    } else {
        seq![s[0]] + insert_score_desc(s.drop_first(), x)
    }
}

/// Stable sort of records, descending by score, read order kept on ties.
pub open spec fn sort_scores_desc(s: Seq<ScoreView>) -> Seq<ScoreView>
    decreases s.len(),
{
    if s.len() == 0 {
        Seq::empty()
    } else {
        insert_score_desc(sort_scores_desc(s.drop_last()), s.last())
    }
}

/// Whether a record's canonical repository key passes the filter.
pub open spec fn key_passes(key: Seq<char>, f: Option<Seq<char>>) -> bool {
    f is None || key == f.unwrap()
}

/// The records whose canonical keys pass the filter, in their read order.
pub open spec fn filter_by(rs: Seq<ScoreView>, keys: Seq<Seq<char>>, f: Option<Seq<char>>)
    -> Seq<ScoreView>
    decreases rs.len(),
{
    if rs.len() == 0 {
        Seq::empty()
    } else {
        let rest = filter_by(rs.drop_last(), keys.drop_last(), f);
        let k = if keys.len() >= rs.len() {
            keys[rs.len() - 1]
        } else {
            Seq::empty()
        };
        if key_passes(k, f) {
            rest + seq![rs.last()]
        } else {
            rest
        }
    }
}

proof fn lemma_insert_score_at(s: Seq<ScoreView>, x: ScoreView, j: int)
    requires
        0 <= j <= s.len(),
        forall|k: int| 0 <= k < j ==> !(x.score > (#[trigger] s[k]).score),
        j < s.len() ==> x.score > s[j].score,
    ensures
        insert_score_desc(s, x) == s.take(j) + seq![x] + s.skip(j),
    decreases j,
{
    if s.len() == 0 {
        assert(insert_score_desc(s, x) =~= s.take(0) + seq![x] + s.skip(0));
    } else if j == 0 {
        if x.score > s[0].score {
            assert(seq![x] + s =~= s.take(0) + seq![x] + s.skip(0));
        }
    } else {
        let t = s.drop_first();
        assert(forall|k: int| 0 <= k < j - 1 ==> #[trigger] t[k] == s[k + 1]);
        lemma_insert_score_at(t, x, j - 1);
        assert(insert_score_desc(s, x) == seq![s[0]] + insert_score_desc(t, x));
        assert(seq![s[0]] + (t.take(j - 1) + seq![x] + t.skip(j - 1)) =~= s.take(j) + seq![x]
            + s.skip(j));
    }
}

/// Places one record into an already ranked list, behind equal scores.
fn insert_by_score(out: &mut Vec<ScoreInfo>, x: ScoreInfo)
    ensures
        final(out)@.map_values(|e: ScoreInfo| e@) == insert_score_desc(
            old(out)@.map_values(|e: ScoreInfo| e@),
            x@,
        ),
{
    let mut j: usize = 0;
    while j < out.len() && !(x.score > out[j].score)
        invariant
            j <= out@.len(),
            out@ == old(out)@,
            forall|k: int| 0 <= k < j ==> !(x@.score > (#[trigger] out@[k])@.score),
        decreases out@.len() - j,
    {
        j = j + 1;
    }
    proof {
        let ks = out@.map_values(|e: ScoreInfo| e@);
        assert(forall|k: int| 0 <= k < ks.len() ==> #[trigger] ks[k] == out@[k]@);
        lemma_insert_score_at(ks, x@, j as int);
    }
    out.insert(j, x);
    proof {
        let ks = old(out)@.map_values(|e: ScoreInfo| e@);
        assert(out@.map_values(|e: ScoreInfo| e@) =~= ks.take(j as int) + seq![x@] + ks.skip(
            j as int,
        ));
    }
}

/// The records ranked by score, descending, stable on equal scores.
pub fn sort_scores(records: Vec<ScoreInfo>) -> (r: Vec<ScoreInfo>)
    ensures
        r@.map_values(|e: ScoreInfo| e@) == sort_scores_desc(
            records@.map_values(|e: ScoreInfo| e@),
        ),
{
    let mut rest = records;
    let n0 = rest.len();
    let ghost all = rest@.map_values(|e: ScoreInfo| e@);
    let mut out: Vec<ScoreInfo> = Vec::new();
    let mut taken: usize = 0;
    proof {
        assert(out@.map_values(|e: ScoreInfo| e@) =~= sort_scores_desc(all.take(0)));
    }
    while rest.len() > 0
        invariant
            all.len() == n0,
            taken + rest@.len() == n0,
            rest@.map_values(|e: ScoreInfo| e@) =~= all.skip(taken as int),
            out@.map_values(|e: ScoreInfo| e@) == sort_scores_desc(all.take(taken as int)),
        decreases rest@.len(),
    {
        let ghost prev = rest@;
        let x = rest.remove(0);
        proof {
            assert(prev.map_values(|e: ScoreInfo| e@)[0] == prev[0]@);
            assert(x@ == all[taken as int]);
            assert forall|k: int| 0 <= k < rest@.len() implies #[trigger] all.skip(taken + 1)[k]
                == rest@.map_values(|e: ScoreInfo| e@)[k] by {
                assert(rest@[k] == prev[k + 1]);
                assert(rest@.map_values(|e: ScoreInfo| e@)[k] == rest@[k]@);
                assert(prev.map_values(|e: ScoreInfo| e@)[k + 1] == prev[k + 1]@);
            }
            assert(rest@.map_values(|e: ScoreInfo| e@) =~= all.skip(taken + 1));
            assert(all.take(taken + 1).drop_last() =~= all.take(taken as int));
            assert(all.take(taken + 1).last() == all[taken as int]);
        }
        insert_by_score(&mut out, x);
        taken = taken + 1;
    }
    proof {
        assert(all.take(n0 as int) =~= all);
    }
    out
}

/// The records whose canonical repository key passes the filter, ranked
/// by score descending, stable on ties in read order. `canon` holds, for
/// each record in turn, the canonical form of its repository path; the
/// filter, where given, is already canonical.
pub fn query_scores(records: Vec<ScoreInfo>, canon: &Vec<String>, filter: Option<&String>) -> (r:
    Vec<ScoreInfo>)
    requires
        canon@.len() == records@.len(),
    ensures
        r@.map_values(|e: ScoreInfo| e@) == sort_scores_desc(
            filter_by(
                records@.map_values(|e: ScoreInfo| e@),
                canon@.map_values(|s: String| s@),
                match filter {
                    Some(f) => Some(f@),
                    None => None,
                },
            ),
        ),
{
    let ghost all = records@.map_values(|e: ScoreInfo| e@);
    let ghost keys = canon@.map_values(|s: String| s@);
    let ghost fv: Option<Seq<char>> = match filter {
        Some(f) => Some(f@),
        None => None,
    };
    let mut rest = records;
    let n0 = rest.len();
    let mut kept: Vec<ScoreInfo> = Vec::new();
    let mut taken: usize = 0;
    proof {
        assert(kept@.map_values(|e: ScoreInfo| e@) =~= filter_by(all.take(0), keys.take(0), fv));
    }
    while rest.len() > 0
        invariant
            all.len() == n0,
            keys.len() == n0,
            taken + rest@.len() == n0,
            taken <= n0 == canon@.len(),
            keys == canon@.map_values(|s: String| s@),
            fv == match filter {
                Some(f) => Some(f@),
                None => None,
            },
            rest@.map_values(|e: ScoreInfo| e@) =~= all.skip(taken as int),
            kept@.map_values(|e: ScoreInfo| e@) == filter_by(
                all.take(taken as int),
                keys.take(taken as int),
                fv,
            ),
        decreases rest@.len(),
    {
        let ghost prev = rest@;
        let x = rest.remove(0);
        proof {
            assert(prev.map_values(|e: ScoreInfo| e@)[0] == prev[0]@);
            assert(x@ == all[taken as int]);
            assert forall|k: int| 0 <= k < rest@.len() implies #[trigger] all.skip(taken + 1)[k]
                == rest@.map_values(|e: ScoreInfo| e@)[k] by {
                assert(rest@[k] == prev[k + 1]);
                assert(rest@.map_values(|e: ScoreInfo| e@)[k] == rest@[k]@);
                assert(prev.map_values(|e: ScoreInfo| e@)[k + 1] == prev[k + 1]@);
            }
            assert(rest@.map_values(|e: ScoreInfo| e@) =~= all.skip(taken + 1));
            assert(all.take(taken + 1).drop_last() =~= all.take(taken as int));
            assert(keys.take(taken + 1).drop_last() =~= keys.take(taken as int));
            assert(all.take(taken + 1).last() == all[taken as int]);
            assert(keys.take(taken + 1)[taken as int] == keys[taken as int]);
            assert(keys[taken as int] == canon@[taken as int]@);
        }
        let keep: bool = match filter {
            Some(f) => canon[taken] == *f,
            None => true,
        };
        if keep {
            kept.push(x);
            proof {
                assert(kept@.map_values(|e: ScoreInfo| e@) =~= filter_by(
                    all.take(taken as int),
                    keys.take(taken as int),
                    fv,
                ) + seq![all[taken as int]]);
            }
        }
        taken = taken + 1;
    }
    proof {
        assert(all.take(n0 as int) =~= all);
        assert(keys.take(n0 as int) =~= keys);
    }
    sort_scores(kept)
}

/// One append to the backing store's text: reads the full record set,
/// adds the record at the end, and writes the whole store anew. A store
/// that does not decode is a hard failure and is left untouched.
pub fn append_scores(store: &str, record: ScoreInfo) -> (r: Result<String, LottoError>)
    ensures
        match r {
            Ok(out) => dec_store(store@) is Some && out@ == enc_records(
                dec_store(store@).unwrap() + seq![record@],
            ),
            Err(e) => dec_store(store@) is None && e == LottoError::ApplicationDirError,
        },
{
    let mut recs = match decode_scores(store) {
        Ok(v) => v,
        Err(e) => {
            return Err(e);
        },
    };
    let ghost before = recs@.map_values(|x: ScoreInfo| x@);
    recs.push(record);
    proof {
        assert(recs@.map_values(|x: ScoreInfo| x@) =~= before + seq![record@]);
    }
    Ok(encode_scores(&recs))
}

/// How often a record occurs among records.
pub open spec fn count_rec(s: Seq<ScoreView>, x: ScoreView) -> nat
    decreases s.len(),
{
    if s.len() == 0 {
        0
    } else {
        count_rec(s.drop_last(), x) + if s.last() == x {
            1nat
        } else {
            0nat
        }
    }
}

proof fn lemma_count_rec_cons(c: ScoreView, t: Seq<ScoreView>, x: ScoreView)
    ensures
        count_rec(seq![c] + t, x) == count_rec(t, x) + if x == c {
            1nat
        } else {
            0nat
        },
    decreases t.len(),
{
    let g = seq![c] + t;
    assert(count_rec(Seq::<ScoreView>::empty(), x) == 0);
    if t.len() == 0 {
        assert(g.drop_last() =~= Seq::<ScoreView>::empty());
        assert(g.last() == c);
        assert(count_rec(g, x) == count_rec(g.drop_last(), x) + if g.last() == x {
            1nat
        } else {
            0nat
        });
    } else {
        assert(g.drop_last() =~= seq![c] + t.drop_last());
        assert(g.last() == t.last());
        lemma_count_rec_cons(c, t.drop_last(), x);
        assert(count_rec(g, x) == count_rec(g.drop_last(), x) + if g.last() == x {
            1nat
        } else {
            0nat
        });
        assert(count_rec(t, x) == count_rec(t.drop_last(), x) + if t.last() == x {
            1nat
        } else {
            0nat
        });
    }
}

proof fn lemma_insert_score_count(s: Seq<ScoreView>, y: ScoreView, x: ScoreView)
    ensures
        count_rec(insert_score_desc(s, y), x) == count_rec(s, x) + if x == y {
            1nat
        } else {
            0nat
        },
        insert_score_desc(s, y).len() == s.len() + 1,
    decreases s.len(),
{
    if s.len() == 0 {
        lemma_count_rec_cons(y, Seq::empty(), x);
        assert(insert_score_desc(s, y) =~= seq![y] + Seq::<ScoreView>::empty());
    } else if y.score > s[0].score {
        lemma_count_rec_cons(y, s, x);
    } else {
        lemma_insert_score_count(s.drop_first(), y, x);
        lemma_count_rec_cons(s[0], insert_score_desc(s.drop_first(), y), x);
        lemma_count_rec_cons(s[0], s.drop_first(), x);
        assert(s =~= seq![s[0]] + s.drop_first());
    }
}

/// Ranking records is a permutation: every record comes out exactly as
/// often as it went in, and none is lost.
pub proof fn lemma_sort_scores_permutes(s: Seq<ScoreView>, x: ScoreView)
    ensures
        count_rec(sort_scores_desc(s), x) == count_rec(s, x),
        sort_scores_desc(s).len() == s.len(),
    decreases s.len(),
{
    if s.len() > 0 {
        lemma_sort_scores_permutes(s.drop_last(), x);
        lemma_insert_score_count(sort_scores_desc(s.drop_last()), s.last(), x);
    }
}

/// Descending score order.
pub open spec fn sorted_desc(s: Seq<ScoreView>) -> bool {
    forall|i: int, j: int| 0 <= i <= j < s.len() ==> (#[trigger] s[i]).score >= (
    #[trigger] s[j]).score
}

proof fn lemma_insert_score_elems(s: Seq<ScoreView>, x: ScoreView)
    ensures
        forall|k: int| 0 <= k < insert_score_desc(s, x).len() ==> insert_score_desc(s, x)[k] == x
            || s.contains(#[trigger] insert_score_desc(s, x)[k]),
    decreases s.len(),
{
    let r = insert_score_desc(s, x);
    if s.len() == 0 {
    } else if x.score > s[0].score {
        assert forall|k: int| 0 <= k < r.len() implies r[k] == x || s.contains(#[trigger] r[k]) by {
            if k > 0 {
                assert(r[k] == s[k - 1]);
            }
        }
    } else {
        let t = s.drop_first();
        lemma_insert_score_elems(t, x);
        assert forall|k: int| 0 <= k < r.len() implies r[k] == x || s.contains(#[trigger] r[k]) by {
            if k == 0 {
                assert(r[0] == s[0]);
                assert(s[0] == s[0int]);
            } else {
                assert(r[k] == insert_score_desc(t, x)[k - 1]);
                if insert_score_desc(t, x)[k - 1] != x {
                    let j = choose|j: int| 0 <= j < t.len() && t[j] == insert_score_desc(t, x)[k
                        - 1];
                    assert(s[j + 1] == insert_score_desc(t, x)[k - 1]);
                }
            }
        }
    }
}

proof fn lemma_insert_score_sorted(s: Seq<ScoreView>, x: ScoreView)
    requires
        sorted_desc(s),
    ensures
        sorted_desc(insert_score_desc(s, x)),
    decreases s.len(),
{
    let r = insert_score_desc(s, x);
    if s.len() == 0 {
    } else if x.score > s[0].score {
        assert forall|i: int, j: int| 0 <= i <= j < r.len() implies (#[trigger] r[i]).score >= (
        #[trigger] r[j]).score by {
            if i > 0 {
                assert(r[i] == s[i - 1] && r[j] == s[j - 1]);
            } else if j > 0 {
                assert(r[j] == s[j - 1]);
                assert(s[0].score >= s[j - 1].score);
            }
        }
    } else {
        let t = s.drop_first();
        assert(forall|i: int, j: int| 0 <= i <= j < t.len() ==> (#[trigger] t[i]).score >= (
        #[trigger] t[j]).score);
        lemma_insert_score_sorted(t, x);
        lemma_insert_score_elems(t, x);
        assert forall|i: int, j: int| 0 <= i <= j < r.len() implies (#[trigger] r[i]).score >= (
        #[trigger] r[j]).score by {
            if i == 0 && j > 0 {
                assert(r[j] == insert_score_desc(t, x)[j - 1]);
                if insert_score_desc(t, x)[j - 1] == x {
                    assert(r[0].score >= x.score);
                } else {
                    let w = choose|w: int| 0 <= w < t.len() && t[w] == insert_score_desc(t, x)[j
                        - 1];
                    assert(s[0].score >= s[w + 1].score);
                }
            } else if i > 0 {
                assert(r[i] == insert_score_desc(t, x)[i - 1]);
                assert(r[j] == insert_score_desc(t, x)[j - 1]);
            }
        }
    }
}

/// The ranked records come out in descending score order.
pub proof fn lemma_sort_scores_sorted(s: Seq<ScoreView>)
    ensures
        sorted_desc(sort_scores_desc(s)),
    decreases s.len(),
{
    if s.len() > 0 {
        lemma_sort_scores_sorted(s.drop_last());
        lemma_insert_score_sorted(sort_scores_desc(s.drop_last()), s.last());
    }
}

/// An absent filter keeps every record, in its read order.
pub proof fn lemma_filter_none_keeps_all(rs: Seq<ScoreView>, keys: Seq<Seq<char>>)
    requires
        keys.len() == rs.len(),
    ensures
        filter_by(rs, keys, None) == rs,
    decreases rs.len(),
{
    if rs.len() > 0 {
        lemma_filter_none_keeps_all(rs.drop_last(), keys.drop_last());
        assert(filter_by(rs, keys, None) =~= rs);
    }
}

/// A filtered query returns only records whose canonical key is the
/// filter's: each one stands in the store at a position with that key.
pub proof fn lemma_filter_only_matching(rs: Seq<ScoreView>, keys: Seq<Seq<char>>, k: Seq<char>)
    requires
        keys.len() == rs.len(),
    ensures
        forall|i: int| 0 <= i < filter_by(rs, keys, Some(k)).len() ==> exists|j: int|
            0 <= j < rs.len() && #[trigger] filter_by(rs, keys, Some(k))[i] == rs[j] && keys[j]
                == k,
    decreases rs.len(),
{
    if rs.len() > 0 {
        let f = filter_by(rs, keys, Some(k));
        let rest = filter_by(rs.drop_last(), keys.drop_last(), Some(k));
        lemma_filter_only_matching(rs.drop_last(), keys.drop_last(), k);
        assert forall|i: int| 0 <= i < f.len() implies exists|j: int| 0 <= j < rs.len()
            && #[trigger] f[i] == rs[j] && keys[j] == k by {
            if i < rest.len() {
                assert(rest[i] == f[i]);
                let j = choose|j: int| 0 <= j < rs.drop_last().len() && rest[i] == rs.drop_last()[j]
                    && keys.drop_last()[j] == k;
                assert(f[i] == rs[j] && keys[j] == k);
            } else {
                assert(f[i] == rs.last() && keys[rs.len() - 1] == k);
                assert(f[i] == rs[rs.len() - 1]);
            }
        }
    }
}

/// Querying a freshly created, empty backing store yields no records and
/// no error: text of length zero decodes to the empty record set.
pub proof fn lemma_bootstrap_empty_store()
    ensures
        dec_store(Seq::<char>::empty()) == Some(Seq::<ScoreView>::empty()),
{
}

/// Two appends in a row never lose a record: the store written by the
/// first decodes in full for the second, and the store written by the
/// second holds both new records along with everything older.
pub proof fn lemma_two_appends_keep_both(rs: Seq<ScoreView>, a: ScoreView, b: ScoreView)
    ensures
        dec_store(enc_records(rs + seq![a])) == Some(rs + seq![a]),
        dec_store(enc_records((rs + seq![a]) + seq![b])) == Some((rs + seq![a]) + seq![b]),
        ((rs + seq![a]) + seq![b]).contains(a),
        ((rs + seq![a]) + seq![b]).contains(b),
{
    lemma_store_round_trip(rs + seq![a]);
    lemma_store_round_trip((rs + seq![a]) + seq![b]);
    let both = (rs + seq![a]) + seq![b];
    assert(both[rs.len() as int] == a);
    assert(both[rs.len() as int + 1] == b);
}

/// The full ledger round trip: a store written from any record set reads
/// back as exactly that set, an absent filter drops nothing, and ranking
/// is a score-descending permutation.
pub proof fn lemma_ledger_round_trip(rs: Seq<ScoreView>, keys: Seq<Seq<char>>, x: ScoreView)
    requires
        keys.len() == rs.len(),
    ensures
        dec_store(enc_records(rs)) == Some(rs),
        filter_by(rs, keys, None) == rs,
        count_rec(sort_scores_desc(rs), x) == count_rec(rs, x),
        sort_scores_desc(rs).len() == rs.len(),
        sorted_desc(sort_scores_desc(rs)),
{
    lemma_store_round_trip(rs);
    lemma_filter_none_keeps_all(rs, keys);
    lemma_sort_scores_permutes(rs, x);
    lemma_sort_scores_sorted(rs);
}

/// What a high-score store does: keep every score, hand back the ranked
/// ones. The library's text-level operations supply the logic; an
/// implementation adds the backing file and its locks.
pub trait HighScores {
    fn save(&mut self, result: ScoreInfo) -> Result<(), LottoError>;

    fn load(&mut self, repo: Option<&String>) -> Result<Vec<ScoreInfo>, LottoError>;
}

} // verus!
