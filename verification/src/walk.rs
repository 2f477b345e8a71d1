//! File-discovery rules: the type and name filters of the walker, and the
//! path bookkeeping of the fortune store.

use vstd::prelude::*;
use crate::comm::lex_less;
use crate::pattern::{CompiledPattern, pattern_matches, regex_match};
use crate::pos::find_sep;

verus! {

/// The kind of a directory entry.
#[derive(Clone, Copy, PartialEq, Eq, Structural, Debug)]
pub enum EntryType {
    Dir,
    File,
    Link,
}

/// Parse the type flag of the walker: `d`, `f` or `l`.
pub fn entry_type_from_flag(s: &str) -> (r: Option<EntryType>)
    ensures
        s@ == "d"@ ==> r == Some(EntryType::Dir),
        s@ == "f"@ ==> r == Some(EntryType::File),
        s@ == "l"@ ==> r == Some(EntryType::Link),
        s@ != "d"@ && s@ != "f"@ && s@ != "l"@ ==> r is None,
{
    proof {
        reveal_strlit("d");
        reveal_strlit("f");
        reveal_strlit("l");
    }
    let n = s.unicode_len();
    if n != 1 {
        return None;
    }
    let c = s.get_char(0);
    proof {
        if c == 'd' {
            assert(s@ =~= "d"@);
        }
        if c == 'f' {
            assert(s@ =~= "f"@);
        }
        if c == 'l' {
            assert(s@ =~= "l"@);
        }
    }
    match c {
        'd' => Some(EntryType::Dir),
        'f' => Some(EntryType::File),
        'l' => Some(EntryType::Link),
        _ => None,
    }
}

/// Whether an entry of this type passes the type filter: an empty filter
/// accepts every type.
pub open spec fn type_accepted(types: Seq<EntryType>, t: EntryType) -> bool {
    types.len() == 0 || types.contains(t)
}

/// Whether a basename passes the name filter: an empty filter accepts
/// every name, otherwise some pattern must match it.
pub open spec fn name_accepted(patterns: Seq<(Seq<char>, bool)>, name: Seq<char>) -> bool {
    patterns.len() == 0 || exists|i: int|
        0 <= i < patterns.len() && regex_match(patterns[i].0, patterns[i].1, name)
}

/// The pattern view of a compiled pattern list.
pub open spec fn patterns_view(ps: Seq<CompiledPattern>) -> Seq<(Seq<char>, bool)> {
    ps.map_values(|p: CompiledPattern| (p.src_spec(), p.ci_spec()))
}

/// Whether the walker emits an entry: its type must be in the type set
/// (or none given) and its basename must match some pattern (or none
/// given).
pub fn keep_entry(types: &Vec<EntryType>, patterns: &Vec<CompiledPattern>, t: EntryType,
    name: &str) -> (r: bool)
    ensures
        r == (type_accepted(types@, t) && name_accepted(patterns_view(patterns@), name@)),
{
    let mut type_ok = types.len() == 0;
    let mut i: usize = 0;
    while i < types.len()
        invariant
            i <= types@.len(),
            type_ok == (types@.len() == 0 || exists|j: int| 0 <= j < i && types@[j] == t),
        decreases types@.len() - i,
    {
        if types[i] == t {
            type_ok = true;
        }
        i = i + 1;
    }
    proof {
        if type_ok && types@.len() > 0 {
            let j = choose|j: int| 0 <= j < types@.len() && types@[j] == t;
            assert(types@.contains(t));
        }
        if !type_ok {
            assert(forall|j: int| 0 <= j < types@.len() ==> types@[j] != t);
            if types@.contains(t) {
                let j = choose|j: int| 0 <= j < types@.len() && types@[j] == t;
            }
        }
    }
    if !type_ok {
        return false;
    }
    let ghost pv = patterns_view(patterns@);
    let mut name_ok = patterns.len() == 0;
    let mut k: usize = 0;
    while k < patterns.len()
        invariant
            k <= patterns@.len(),
            pv == patterns_view(patterns@),
            name_ok == (patterns@.len() == 0 || exists|j: int|
                0 <= j < k && regex_match(pv[j].0, pv[j].1, name@)),
        decreases patterns@.len() - k,
    {
        proof {
            assert(pv[k as int] == (patterns@[k as int].src_spec(), patterns@[k as int].ci_spec()));
        }
        if pattern_matches(&patterns[k], name) {
            name_ok = true;
        }
        k = k + 1;
    }
    name_ok
}

/// Whether a path names a file with the `dat` extension: its basename —
/// what follows the last slash — ends in `.dat` with a non-empty stem.
pub open spec fn is_dat_spec(path: Seq<char>) -> bool {
    let b = basename_spec(path);
    b.len() > 4 && b.subrange(b.len() - 4, b.len() as int) == ".dat"@
}

/// The basename of a path: what follows its last slash.
pub open spec fn basename_spec(path: Seq<char>) -> Seq<char>
    decreases path.len(),
{
    let k = find_sep(path, '/');
    if k < 0 || k >= path.len() {
        path
    } else {
        basename_spec(path.skip(k + 1))
    }
}

/// Test a path for the `dat` extension the fortune store skips.
pub fn is_dat_path(path: &str) -> (r: bool)
    ensures
        r == is_dat_spec(path@),
    decreases path@.len(),
{
    let n = path.unicode_len();
    let k = crate::pos::find_char(path, '/');
    proof {
        crate::pos::lemma_find_sep_props(path@, '/');
    }
    if k < n {
        let rest = path.substring_char(k + 1, n);
        proof {
            assert(rest@ =~= path@.skip(k + 1));
        }
        is_dat_path(rest)
    } else {
        proof {
            assert(basename_spec(path@) == path@);
            reveal_strlit(".dat");
        }
        if n <= 4 {
            return false;
        }
        let tail = path.substring_char(n - 4, n);
        proof {
            assert(tail@ =~= path@.subrange(n - 4, n as int));
        }
        let dot = tail.get_char(0) == '.';
        let d = tail.get_char(1) == 'd';
        let a = tail.get_char(2) == 'a';
        let t = tail.get_char(3) == 't';
        let r = dot && d && a && t;
        proof {
            if r {
                assert(tail@ =~= ".dat"@);
            } else {
                assert(tail@ != ".dat"@);
            }
        }
        r
    }
}

/// Strictly ascending in the byte-wise line order.
pub open spec fn sorted_unique(ls: Seq<Seq<char>>) -> bool {
    forall|i: int| 0 <= i < ls.len() - 1 ==> lex_less(#[trigger] ls[i], ls[i + 1])
}

/// Sort the collected paths and drop duplicates: the result is strictly
/// ascending and holds exactly the distinct values of the input.
#[verifier::rlimit(100)]
pub fn unique_sorted(paths: &Vec<String>) -> (r: Vec<String>)
    ensures
        sorted_unique(r.deep_view()),
        forall|x: Seq<char>| r.deep_view().contains(x) <==> paths.deep_view().contains(x),
{
    let ghost full = paths.deep_view();
    let mut out: Vec<String> = Vec::new();
    let mut i: usize = 0;
    proof {
        assert(out.deep_view() =~= Seq::<Seq<char>>::empty());
    }
    while i < paths.len()
        invariant
            i <= paths@.len(),
            full == paths.deep_view(),
            sorted_unique(out.deep_view()),
            forall|x: Seq<char>| out.deep_view().contains(x) <==> full.take(i as int).contains(x),
        decreases paths@.len() - i,
    {
        proof {
            assert(paths@[i as int]@ == full[i as int]);
        }
        insert_unique(&mut out, &paths[i]);
        i = i + 1;
        proof {
            assert forall|x: Seq<char>| out.deep_view().contains(x)
                <==> full.take(i as int).contains(x) by {
                assert(full.take(i as int).drop_last() =~= full.take(i - 1));
                assert(full.take(i as int).last() == full[i - 1]);
                if full.take(i as int).contains(x) {
                    let j = choose|j: int| 0 <= j < i && full.take(i as int)[j] == x;
                    if j < i - 1 {
                        assert(full.take(i - 1)[j] == x);
                        assert(full.take(i - 1).contains(x));
                    }
                }
                if full.take(i - 1).contains(x) {
                    let j = choose|j: int| 0 <= j < i - 1 && #[trigger] full.take(i - 1)[j] == x;
                    assert(full.take(i as int)[j] == x);
                }
            }
        }
    }
    proof {
        assert(full.take(paths@.len() as int) =~= full);
    }
    out
}

/// Insert one path into a strictly ascending list, unless it is already
/// there.
#[verifier::rlimit(100)]
fn insert_unique(out: &mut Vec<String>, p: &String)
    requires
        sorted_unique(old(out).deep_view()),
    ensures
        sorted_unique(final(out).deep_view()),
        forall|x: Seq<char>| final(out).deep_view().contains(x)
            <==> old(out).deep_view().contains(x) || x == p@,
{
    let ghost before = out.deep_view();
    let mut k: usize = 0;
    while k < out.len()
        invariant
            k <= out@.len(),
            before == out.deep_view(),
            before == old(out).deep_view(),
            sorted_unique(before),
            forall|j: int| 0 <= j < k ==> lex_less(#[trigger] before[j], p@),
        decreases out@.len() - k,
    {
        proof {
            assert(out@[k as int]@ == before[k as int]);
        }
        let c = crate::comm::cmp_lines(out[k].as_str(), p.as_str());
        if c == 0 {
            proof {
                assert(before.contains(p@)) by {
                    assert(before[k as int] == p@);
                }
                assert forall|x: Seq<char>| before.contains(x)
                    <==> before.contains(x) || x == p@ by {
                    if x == p@ {
                        assert(before[k as int] == x);
                    }
                }
            }
            return;
        }
        if c > 0 {
            // every earlier element is below p, this one is above: insert here
            let ghost prev = out.deep_view();
            let ghost sprev = out@;
            let cloned = p.clone();
            let ghost cv = cloned@;
            out.insert(k, cloned);
            proof {
                assert(cv == p@);
                assert(out.deep_view().len() == prev.len() + 1);
                assert(out.deep_view()[k as int] == p@);
                assert forall|j: int| 0 <= j < k implies
                    #[trigger] out.deep_view()[j] == prev[j] by {
                    assert(out@[j] == sprev[j]);
                }
                assert forall|j: int| k < j < out.deep_view().len() implies
                    #[trigger] out.deep_view()[j] == prev[j - 1] by {
                    assert(out@[j - 1 + 1] == sprev[j - 1]);
                }
                assert(sorted_unique(out.deep_view())) by {
                    let now = out.deep_view();
                    assert forall|j: int| 0 <= j < now.len() - 1 implies
                        lex_less(#[trigger] now[j], now[j + 1]) by {
                        if j < k as int - 1 {
                            assert(now[j] == prev[j]);
                            assert(now[j + 1] == prev[j + 1]);
                        } else if j == k as int - 1 {
                            assert(now[j] == prev[j]);
                            assert(now[j + 1] == p@);
                        } else if j == k as int {
                            assert(now[j] == p@);
                            assert(now[j + 1] == prev[j]);
                        } else {
                            assert(now[j] == prev[j - 1]);
                            assert(now[j + 1] == prev[j]);
                        }
                    }
                }
                assert forall|x: Seq<char>| out.deep_view().contains(x)
                    <==> prev.contains(x) || x == p@ by {
                    let now = out.deep_view();
                    if now.contains(x) {
                        let j = choose|j: int| 0 <= j < now.len() && now[j] == x;
                        if j < k as int {
                            assert(prev[j] == x);
                            assert(prev.contains(x));
                        } else if j > k as int {
                            assert(prev[j - 1] == x);
                            assert(prev.contains(x));
                        }
                    }
                    if prev.contains(x) {
                        let j = choose|j: int| 0 <= j < prev.len() && prev[j] == x;
                        if j < k as int {
                            assert(now[j] == x);
                        } else {
                            assert(now[j + 1] == x);
                        }
                    }
                    if x == p@ {
                        assert(now[k as int] == x);
                    }
                }
            }
            return;
        }
        k = k + 1;
    }
    // p is above everything present: append it
    let ghost prev = out.deep_view();
    out.push(p.clone());
    proof {
        assert(out@.len() == prev.len() + 1);
        assert(out.deep_view() =~= prev.push(p@));
        let now = out.deep_view();
        assert forall|j: int| 0 <= j < now.len() - 1 implies
            lex_less(#[trigger] now[j], now[j + 1]) by {
            assert(now[j] == prev[j]);
            if j + 1 < prev.len() {
                assert(now[j + 1] == prev[j + 1]);
            } else {
                assert(now[j + 1] == p@);
            }
        }
        assert forall|x: Seq<char>| now.contains(x) <==> prev.contains(x) || x == p@ by {
            if now.contains(x) {
                let j = choose|j: int| 0 <= j < now.len() && now[j] == x;
                if j < prev.len() {
                    assert(prev.contains(x));
                }
            }
            if prev.contains(x) {
                let j = choose|j: int| 0 <= j < prev.len() && prev[j] == x;
                assert(now[j] == x);
            }
            if x == p@ {
                assert(now[prev.len() as int] == x);
            }
        }
    }
}

} // verus!
