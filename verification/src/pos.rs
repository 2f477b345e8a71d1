//! Position lists: comma-separated, 1-based indices and `N-M` ranges,
//! parsed into zero-based half-open ranges.

use vstd::prelude::*;
use crate::textfmt::dec_digits;

verus! {

/// A half-open zero-based range of positions, `start < end`.
#[derive(Clone, Copy, PartialEq, Eq, Structural, Debug)]
pub struct PosRange {
    pub start: usize,
    pub end: usize,
}

/// Which unit a position list selects in a line.
#[derive(Debug)]
pub enum Extract {
    Fields(Vec<PosRange>),
    Bytes(Vec<PosRange>),
    Chars(Vec<PosRange>),
}

/// Decimal digit test.
pub open spec fn is_digit(c: char) -> bool {
    48 <= c as u32 && c as u32 <= 57
}

/// Numeric value of one decimal digit character.
pub open spec fn digit_val(c: char) -> nat {
    (c as u32 - 48) as nat
}

/// Every character is a decimal digit.
pub open spec fn all_digits(s: Seq<char>) -> bool {
    forall|i: int| 0 <= i < s.len() ==> is_digit(#[trigger] s[i])
}

/// Value of an all-digit sequence read in decimal.
pub open spec fn dec_value(s: Seq<char>) -> nat
    decreases s.len(),
{
    if s.len() == 0 {
        0
    } else {
        dec_value(s.drop_last()) * 10 + digit_val(s.last())
    }
}

/// A token accepted as a single 1-based index: digits only (no sign),
/// non-zero, and within the machine's range.
pub open spec fn index_ok(s: Seq<char>) -> bool {
    s.len() > 0 && all_digits(s) && dec_value(s) >= 1 && dec_value(s) <= usize::MAX as nat
}

/// The message for a token that is not a legal list value.
pub open spec fn illegal_msg(tok: Seq<char>) -> Seq<char> {
    "illegal list value: \""@ + tok + "\""@
}

/// The message for a reversed range, over the 1-based endpoints.
pub open spec fn range_msg(lo: nat, hi: nat) -> Seq<char> {
    "First number in range ("@ + dec_digits(lo) + ") must be lower than second number ("@
        + dec_digits(hi) + ")"@
}

/// Index of the first occurrence of `c` in `s`, or `s.len()` when absent.
pub open spec fn find_sep(s: Seq<char>, c: char) -> int
    decreases s.len(),
{
    if s.len() == 0 {
        0
    } else if s[0] == c {
        0
    } else {
        1 + find_sep(s.skip(1), c)
    }
}

pub proof fn lemma_find_sep_props(s: Seq<char>, c: char)
    ensures
        0 <= find_sep(s, c) <= s.len(),
        forall|i: int| 0 <= i < find_sep(s, c) ==> s[i] != c,
        find_sep(s, c) < s.len() ==> s[find_sep(s, c)] == c,
    decreases s.len(),
{
    if s.len() == 0 {
    } else if s[0] == c {
    } else {
        lemma_find_sep_props(s.skip(1), c);
        assert forall|i: int| 0 <= i < find_sep(s, c) implies s[i] != c by {
            if i > 0 {
                assert(s.skip(1)[i - 1] == s[i]);
            }
        }
        if find_sep(s, c) < s.len() {
            assert(s.skip(1)[find_sep(s, c) - 1] == s[find_sep(s, c)]);
        }
    }
}

/// A token of the shape `digits-digits` with both sides non-empty.
pub open spec fn range_shape(t: Seq<char>) -> bool {
    let k = find_sep(t, '-');
    0 < k && k + 1 < t.len() && all_digits(t.take(k)) && all_digits(t.skip(k + 1))
}

/// What one comma-separated token means: a range, or the error it raises.
pub open spec fn token_parse(t: Seq<char>) -> Result<PosRange, Seq<char>> {
    if index_ok(t) {
        Ok(PosRange { start: (dec_value(t) - 1) as usize, end: dec_value(t) as usize })
    } else if range_shape(t) {
        let a = t.take(find_sep(t, '-'));
        let b = t.skip(find_sep(t, '-') + 1);
        if !index_ok(a) {
            Err(illegal_msg(a))
        } else if !index_ok(b) {
            Err(illegal_msg(b))
        } else if dec_value(a) >= dec_value(b) {
            Err(range_msg(dec_value(a), dec_value(b)))
        } else {
            Ok(PosRange { start: (dec_value(a) - 1) as usize, end: dec_value(b) as usize })
        }
    } else {
        Err(illegal_msg(t))
    }
}

/// The comma-separated tokens of `s`; an empty string holds one empty token.
pub open spec fn split_tokens(s: Seq<char>) -> Seq<Seq<char>>
    decreases s.len(),
{
    let k = find_sep(s, ',');
    if k < 0 || k >= s.len() {
        seq![s]
    } else {
        seq![s.take(k)] + split_tokens(s.skip(k + 1))
    }
}

/// Meaning of a whole token list: the ranges in input order, or the first
/// error raised.
pub open spec fn tokens_parse(ts: Seq<Seq<char>>) -> Result<Seq<PosRange>, Seq<char>>
    decreases ts.len(),
{
    if ts.len() == 0 {
        Ok(Seq::empty())
    } else {
        match token_parse(ts[0]) {
            Err(e) => Err(e),
            Ok(r) => match tokens_parse(ts.skip(1)) {
                Err(e) => Err(e),
                Ok(rest) => Ok(seq![r] + rest),
            },
        }
    }
}

/// Meaning of a position-list string: the ranges in input order, never
/// normalized, sorted, or deduplicated; or the first error raised.
pub open spec fn parse_pos_spec(s: Seq<char>) -> Result<Seq<PosRange>, Seq<char>> {
    tokens_parse(split_tokens(s))
}

/// No parsed range is empty: a single index `n` is the range from `n` to
/// `n + 1`, and a pair is accepted only in ascending order.
pub proof fn lemma_parse_pos_ranges_nonempty(s: Seq<char>)
    ensures
        parse_pos_spec(s) is Ok ==> forall|i: int|
            0 <= i < parse_pos_spec(s)->Ok_0.len()
                ==> (#[trigger] parse_pos_spec(s)->Ok_0[i]).start
                    < parse_pos_spec(s)->Ok_0[i].end,
{
    lemma_tokens_ranges_nonempty(split_tokens(s));
}

proof fn lemma_tokens_ranges_nonempty(ts: Seq<Seq<char>>)
    ensures
        tokens_parse(ts) is Ok ==> forall|i: int|
            0 <= i < tokens_parse(ts)->Ok_0.len()
                ==> (#[trigger] tokens_parse(ts)->Ok_0[i]).start < tokens_parse(ts)->Ok_0[i].end,
    decreases ts.len(),
{
    if ts.len() > 0 && tokens_parse(ts) is Ok {
        lemma_tokens_ranges_nonempty(ts.skip(1));
        let head = token_parse(ts[0])->Ok_0;
        let rest = tokens_parse(ts.skip(1))->Ok_0;
        assert(head.start < head.end);
        assert forall|i: int| 0 <= i < tokens_parse(ts)->Ok_0.len() implies
            (#[trigger] tokens_parse(ts)->Ok_0[i]).start < tokens_parse(ts)->Ok_0[i].end by {
            if i == 0 {
                assert(tokens_parse(ts)->Ok_0[0] == head);
            } else {
                assert(tokens_parse(ts)->Ok_0[i] == rest[i - 1]);
            }
        }
    }
}

/// An all-digit prefix never exceeds the value of the whole sequence.
proof fn lemma_dec_value_monotone(s: Seq<char>, i: int)
    requires
        0 <= i <= s.len(),
    ensures
        dec_value(s.take(i)) <= dec_value(s),
    decreases s.len() - i,
{
    if i < s.len() {
        assert(s.take(i + 1).drop_last() =~= s.take(i));
        assert(dec_value(s.take(i + 1))
            == dec_value(s.take(i)) * 10 + digit_val(s.take(i + 1).last()));
        lemma_dec_value_monotone(s, i + 1);
    } else {
        assert(s.take(i) =~= s);
    }
}

/// Index of the first occurrence of `c` in `s`, or the length when absent.
pub fn find_char(s: &str, c: char) -> (k: usize)
    ensures
        k == find_sep(s@, c),
{
    let n = s.unicode_len();
    let mut i: usize = 0;
    while i < n
        invariant
            n == s@.len(),
            i <= n,
            forall|j: int| 0 <= j < i ==> s@[j] != c,
        decreases n - i,
    {
        if s.get_char(i) == c {
            proof {
                lemma_find_sep_props(s@, c);
                let f = find_sep(s@, c);
                if f < i {
                    assert(s@[f] != c);
                }
                if f > i {
                    assert(s@[i as int] != c);
                }
            }
            return i;
        }
        i = i + 1;
    }
    proof {
        lemma_find_sep_props(s@, c);
        let f = find_sep(s@, c);
        if f < n {
            assert(s@[f] != c);
        }
    }
    n
}

/// Whether every character of `s` is a decimal digit.
pub fn all_digits_exec(s: &str) -> (r: bool)
    ensures
        r == all_digits(s@),
{
    let n = s.unicode_len();
    let mut i: usize = 0;
    while i < n
        invariant
            n == s@.len(),
            i <= n,
            forall|j: int| 0 <= j < i ==> is_digit(#[trigger] s@[j]),
        decreases n - i,
    {
        let cv = s.get_char(i) as u32;
        if cv < 48 || cv > 57 {
            assert(!is_digit(s@[i as int]));
            return false;
        }
        i = i + 1;
    }
    true
}

/// Parse a 1-based index token to its zero-based value.
///
/// Accepts exactly the unsigned decimal tokens (no sign, so a leading `+`
/// is rejected) whose value is non-zero and fits the machine; everything
/// else is an illegal list value.
pub fn parse_index(input: &str) -> (r: Result<usize, String>)
    ensures
        r is Ok <==> index_ok(input@),
        r is Ok ==> r->Ok_0 == dec_value(input@) - 1,
        r is Err ==> r->Err_0@ == illegal_msg(input@),
{
    let n = input.unicode_len();
    if n == 0 {
        return Err(illegal_value_err(input));
    }
    let mut i: usize = 0;
    let mut v: u128 = 0;
    while i < n
        invariant
            n == input@.len(),
            n > 0,
            i <= n,
            all_digits(input@.take(i as int)),
            v as nat == dec_value(input@.take(i as int)),
            v <= usize::MAX as u128,
        decreases n - i,
    {
        let c = input.get_char(i);
        let cv = c as u32;
        if cv < 48 || cv > 57 {
            proof {
                assert(!is_digit(input@[i as int]));
                assert(!all_digits(input@));
            }
            return Err(illegal_value_err(input));
        }
        let d: u128 = (cv - 48) as u128;
        proof {
            assert(input@.take(i + 1).drop_last() =~= input@.take(i as int));
            assert(input@.take(i + 1).last() == input@[i as int]);
            assert(dec_value(input@.take(i + 1)) == (v as nat) * 10 + (d as nat));
        }
        let limit: u128 = (usize::MAX as u128 - d) / 10;
        proof {
            vstd::arithmetic::div_mod::lemma_fundamental_div_mod(
                usize::MAX as int - d as int, 10);
            vstd::arithmetic::div_mod::lemma_mod_division_less_than_divisor(
                usize::MAX as int - d as int, 10);
        }
        if v > limit {
            proof {
                assert((v as int) * 10 + d as int > usize::MAX as int);
                lemma_dec_value_monotone(input@, i + 1);
                assert(dec_value(input@) > usize::MAX as nat);
            }
            return Err(illegal_value_err(input));
        }
        proof {
            assert((v as int) * 10 + d as int <= usize::MAX as int);
        }
        v = v * 10 + d;
        i = i + 1;
        assert(all_digits(input@.take(i as int)));
    }
    proof {
        assert(input@.take(n as int) =~= input@);
    }
    if v == 0 {
        proof {
            assert(!index_ok(input@));
        }
        return Err(illegal_value_err(input));
    }
    Ok((v as usize) - 1)
}

/// Build the illegal-list-value message for `input`.
fn illegal_value_err(input: &str) -> (e: String)
    ensures
        e@ == illegal_msg(input@),
{
    let mut e = "illegal list value: \"".to_owned();
    e.append(input);
    e.append("\"");
    proof {
        assert(e@ =~= illegal_msg(input@));
    }
    e
}

/// Parse one comma-separated token: a single index or an `N-M` range.
fn parse_token(t: &str) -> (r: Result<PosRange, String>)
    ensures
        r is Ok <==> token_parse(t@) is Ok,
        r is Ok ==> r->Ok_0 == token_parse(t@)->Ok_0,
        r is Err ==> r->Err_0@ == token_parse(t@)->Err_0,
{
    match parse_index(t) {
        Ok(v) => Ok(PosRange { start: v, end: v + 1 }),
        Err(e) => {
            let n = t.unicode_len();
            let k = find_char(t, '-');
            proof {
                lemma_find_sep_props(t@, '-');
            }
            if k == 0 || k >= n || k + 1 >= n {
                assert(!range_shape(t@));
                return Err(e);
            }
            let a = t.substring_char(0, k);
            let b = t.substring_char(k + 1, n);
            proof {
                assert(a@ =~= t@.take(k as int));
                assert(b@ =~= t@.skip(k + 1));
            }
            if !all_digits_exec(a) || !all_digits_exec(b) {
                assert(!range_shape(t@));
                return Err(e);
            }
            assert(range_shape(t@));
            match parse_index(a) {
                Err(ea) => Err(ea),
                Ok(va) => match parse_index(b) {
                    Err(eb) => Err(eb),
                    Ok(vb) => {
                        if va >= vb {
                            let mut m = "First number in range (".to_owned();
                            let sa = crate::textfmt::to_decimal((va as u64) + 1);
                            m.append(sa.as_str());
                            m.append(") must be lower than second number (");
                            let sb = crate::textfmt::to_decimal((vb as u64) + 1);
                            m.append(sb.as_str());
                            m.append(")");
                            proof {
                                assert(m@ =~= range_msg(dec_value(a@), dec_value(b@)));
                            }
                            Err(m)
                        } else {
                            Ok(PosRange { start: va, end: vb + 1 })
                        }
                    },
                },
            }
        },
    }
}

/// Parse a position list such as `1,3-5,7`.
///
/// Returns the ranges in input order, never normalized, sorted, or
/// deduplicated; or the first error the list raises.
pub fn parse_pos(range: &str) -> (r: Result<Vec<PosRange>, String>)
    ensures
        r is Ok <==> parse_pos_spec(range@) is Ok,
        r is Ok ==> r->Ok_0@ == parse_pos_spec(range@)->Ok_0,
        r is Err ==> r->Err_0@ == parse_pos_spec(range@)->Err_0,
    decreases range@.len(),
{
    let n = range.unicode_len();
    let k = find_char(range, ',');
    proof {
        lemma_find_sep_props(range@, ',');
    }
    if k >= n {
        proof {
            let ts = split_tokens(range@);
            assert(ts =~= seq![range@]);
            assert(ts[0] == range@);
            assert(ts.skip(1) =~= Seq::<Seq<char>>::empty());
            assert(tokens_parse(ts.skip(1)) == Ok::<Seq<PosRange>, Seq<char>>(Seq::empty()));
        }
        match parse_token(range) {
            Err(e) => Err(e),
            Ok(pr) => {
                let mut out: Vec<PosRange> = Vec::new();
                out.push(pr);
                proof {
                    assert(parse_pos_spec(range@)->Ok_0
                        =~= seq![token_parse(range@)->Ok_0] + Seq::<PosRange>::empty());
                    assert(out@ =~= parse_pos_spec(range@)->Ok_0);
                }
                Ok(out)
            },
        }
    } else {
        let tok = range.substring_char(0, k);
        let rest = range.substring_char(k + 1, n);
        proof {
            assert(tok@ =~= range@.take(k as int));
            assert(rest@ =~= range@.skip(k + 1));
            let ts = split_tokens(range@);
            assert(ts =~= seq![tok@] + split_tokens(rest@));
            assert(ts[0] == tok@);
            assert(ts.skip(1) =~= split_tokens(rest@));
        }
        match parse_token(tok) {
            Err(e) => Err(e),
            Ok(pr) => match parse_pos(rest) {
                Err(e) => Err(e),
                Ok(mut out) => {
                    out.insert(0, pr);
                    proof {
                        assert(parse_pos_spec(range@)->Ok_0
                            =~= seq![pr] + parse_pos_spec(rest@)->Ok_0);
                        assert(out@ =~= parse_pos_spec(range@)->Ok_0);
                    }
                    Ok(out)
                },
            },
        }
    }
}

} // verus!
