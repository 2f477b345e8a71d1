//! The line model shared by the tools: splitting a text into lines with
//! terminators kept or stripped, and cat-style enumeration of lines.

use vstd::prelude::*;
use crate::pos::{find_sep, lemma_find_sep_props};
use crate::textfmt::{dec_digits, pad_left_spec, pad_left, to_decimal, trim_of, trim_end_str};

verus! {

/// The lines of `s`, split after every newline, terminators kept; a final
/// fragment without a newline is a line of its own.
pub open spec fn split_keep(s: Seq<char>) -> Seq<Seq<char>>
    decreases s.len(),
{
    if s.len() == 0 {
        Seq::empty()
    } else {
        let k = find_sep(s, '\n');
        if k < 0 || k >= s.len() {
            seq![s]
        } else {
            seq![s.take(k + 1)] + split_keep(s.skip(k + 1))
        }
    }
}

/// A line with its terminator removed: a trailing newline goes, and a
/// carriage return directly before that newline goes with it.
pub open spec fn strip_line(l: Seq<char>) -> Seq<char> {
    if l.len() > 0 && l.last() == '\n' {
        let l2 = l.drop_last();
        if l2.len() > 0 && l2.last() == '\r' {
            l2.drop_last()
        } else {
            l2
        }
    } else {
        l
    }
}

/// Each line with its terminator stripped.
pub open spec fn map_strip(ls: Seq<Seq<char>>) -> Seq<Seq<char>> {
    ls.map_values(|l: Seq<char>| strip_line(l))
}

/// The lines of `s` with terminators stripped.
pub open spec fn split_stripped(s: Seq<char>) -> Seq<Seq<char>> {
    map_strip(split_keep(s))
}

/// Split `text` into lines, keeping the terminators.
pub fn split_lines(text: &str) -> (r: Vec<String>)
    ensures
        r.deep_view() == split_keep(text@),
    decreases text@.len(),
{
    let n = text.unicode_len();
    if n == 0 {
        let out: Vec<String> = Vec::new();
        proof {
            assert(out.deep_view() =~= split_keep(text@));
        }
        return out;
    }
    let k = crate::pos::find_char(text, '\n');
    proof {
        lemma_find_sep_props(text@, '\n');
    }
    if k >= n {
        let mut out: Vec<String> = Vec::new();
        out.push(text.to_owned());
        proof {
            assert(out.deep_view() =~= split_keep(text@));
        }
        out
    } else {
        let head = text.substring_char(0, k + 1);
        let rest = text.substring_char(k + 1, n);
        proof {
            assert(head@ =~= text@.take(k + 1));
            assert(rest@ =~= text@.skip(k + 1));
        }
        let mut out = split_lines(rest);
        out.insert(0, head.to_owned());
        proof {
            assert(out.deep_view() =~= split_keep(text@));
        }
        out
    }
}

/// Strip the line terminator from one line.
pub fn strip_terminator(line: &str) -> (r: String)
    ensures
        r@ == strip_line(line@),
{
    let n = line.unicode_len();
    if n > 0 && line.get_char(n - 1) == '\n' {
        if n > 1 && line.get_char(n - 2) == '\r' {
            let r = line.substring_char(0, n - 2);
            proof {
                assert(r@ =~= strip_line(line@));
            }
            r.to_owned()
        } else {
            let r = line.substring_char(0, n - 1);
            proof {
                assert(r@ =~= strip_line(line@));
            }
            r.to_owned()
        }
    } else {
        line.to_owned()
    }
}

/// Split `text` into lines with the terminators stripped.
pub fn split_lines_stripped(text: &str) -> (r: Vec<String>)
    ensures
        r.deep_view() == split_stripped(text@),
{
    let kept = split_lines(text);
    let ghost m = map_strip(kept.deep_view());
    let mut out: Vec<String> = Vec::new();
    let mut i: usize = 0;
    while i < kept.len()
        invariant
            i <= kept.len(),
            kept.deep_view() == split_keep(text@),
            m == map_strip(kept.deep_view()),
            out.deep_view() =~= m.take(i as int),
        decreases kept.len() - i,
    {
        proof {
            assert(kept@[i as int]@ == kept.deep_view()[i as int]);
            assert(m[i as int] == strip_line(kept.deep_view()[i as int]));
        }
        let s = strip_terminator(kept[i].as_str());
        let ghost sv = s@;
        let ghost prev = out.deep_view();
        out.push(s);
        proof {
            assert(sv == m[i as int]);
            assert(prev =~= m.take(i as int));
            assert(prev.len() == i);
            assert(out@.len() == prev.len() + 1);
            assert forall|j: int| 0 <= j < i + 1 implies
                out.deep_view()[j] == m.take(i + 1)[j] by {
                if j < i {
                    assert(out.deep_view()[j] == prev[j]);
                    assert(prev[j] == m.take(i as int)[j]);
                } else {
                    assert(out@[j]@ == sv);
                }
            }
            assert(out.deep_view() =~= m.take(i + 1));
        }
        i = i + 1;
    }
    proof {
        assert(m.take(kept.len() as int) =~= m);
        assert(split_stripped(text@) == m);
    }
    out
}

/// What cat without numbering writes for the text `s`: every line the
/// reader yields, echoed verbatim, terminators and all.
pub open spec fn cat_plain(s: Seq<char>) -> Seq<char> {
    split_keep(s).flatten()
}

/// Splitting a text into kept lines loses nothing: the lines concatenate
/// back to the text.
pub proof fn lemma_split_keep_flatten(s: Seq<char>)
    ensures
        split_keep(s).flatten() == s,
    decreases s.len(),
{
    if s.len() == 0 {
        assert(split_keep(s).flatten() =~= s);
    } else {
        let k = find_sep(s, '\n');
        lemma_find_sep_props(s, '\n');
        if k >= s.len() {
            assert(split_keep(s) =~= seq![s]);
            assert(seq![s].first() == s);
            assert(seq![s].drop_first() =~= Seq::<Seq<char>>::empty());
            assert(Seq::<Seq<char>>::empty().flatten() =~= Seq::<char>::empty());
            assert(seq![s].flatten() == s + Seq::<Seq<char>>::empty().flatten());
            assert(split_keep(s).flatten() =~= s);
        } else {
            let chunks = split_keep(s);
            assert(chunks == seq![s.take(k + 1)] + split_keep(s.skip(k + 1)));
            assert(chunks.first() == s.take(k + 1));
            assert(chunks.drop_first() =~= split_keep(s.skip(k + 1)));
            lemma_split_keep_flatten(s.skip(k + 1));
            assert(chunks.flatten() == s.take(k + 1) + split_keep(s.skip(k + 1)).flatten());
            assert(s.take(k + 1) + s.skip(k + 1) =~= s);
        }
    }
}

/// cat is byte-exact: echoing the kept lines reproduces the input, so a
/// second pass through cat changes nothing.
pub proof fn lemma_cat_idempotent(s: Seq<char>)
    ensures
        cat_plain(s) == s,
        cat_plain(cat_plain(s)) == cat_plain(s),
{
    lemma_split_keep_flatten(s);
}

/// A line whose trimmed form is empty.
pub open spec fn is_blank(l: Seq<char>) -> bool {
    trim_of(l).len() == 0
}

/// A cat output line numbered `n`: the count right-aligned in six columns,
/// a tab, then the line.
pub open spec fn numbered_line(n: nat, l: Seq<char>) -> Seq<char> {
    pad_left_spec(dec_digits(n), 6) + "\t"@ + l
}

/// Lines as cat emits them, terminators kept: each line verbatim, with
/// the count prefixed when `number_all`, or when `number_nonblank` and
/// the line is not blank. The counter starts at `c` lines already
/// numbered and is global across files.
pub open spec fn cat_out(lines: Seq<Seq<char>>, number_all: bool, number_nonblank: bool, c: nat) -> Seq<Seq<char>>
    decreases lines.len(),
{
    if lines.len() == 0 {
        Seq::empty()
    } else if number_all || (number_nonblank && !is_blank(lines[0])) {
        seq![numbered_line(c + 1, lines[0])] + cat_out(lines.skip(1), number_all, number_nonblank, c + 1)
    } else {
        seq![lines[0]] + cat_out(lines.skip(1), number_all, number_nonblank, c)
    }
}

/// How many lines cat has numbered after these lines.
pub open spec fn cat_count(lines: Seq<Seq<char>>, number_all: bool, number_nonblank: bool, c: nat) -> nat
    decreases lines.len(),
{
    if lines.len() == 0 {
        c
    } else if number_all || (number_nonblank && !is_blank(lines[0])) {
        cat_count(lines.skip(1), number_all, number_nonblank, c + 1)
    } else {
        cat_count(lines.skip(1), number_all, number_nonblank, c)
    }
}

/// Enumerate `lines` as cat does, continuing the numbering at `start`:
/// every line is kept verbatim, terminator included, behind its optional
/// number prefix. Returns the output lines and the new numbering state.
pub fn cat_lines(lines: &Vec<String>, number_all: bool, number_nonblank: bool, start: u64)
    -> (r: (Vec<String>, u64))
    requires
        start + lines@.len() <= u64::MAX,
    ensures
        r.0.deep_view() == cat_out(lines.deep_view(), number_all, number_nonblank, start as nat),
        r.1 as nat == cat_count(lines.deep_view(), number_all, number_nonblank, start as nat),
{
    let ghost full = lines.deep_view();
    let mut out: Vec<String> = Vec::new();
    let mut count: u64 = start;
    let mut i: usize = 0;
    proof {
        assert(full.skip(0) =~= full);
        assert(out.deep_view() =~= Seq::<Seq<char>>::empty());
        assert(out.deep_view() + cat_out(full, number_all, number_nonblank, start as nat)
            =~= cat_out(full, number_all, number_nonblank, start as nat));
    }
    while i < lines.len()
        invariant
            i <= lines.len(),
            full == lines.deep_view(),
            start <= count,
            count - start <= i,
            count + (lines@.len() - i) <= u64::MAX,
            cat_out(full, number_all, number_nonblank, start as nat)
                =~= out.deep_view() + cat_out(full.skip(i as int), number_all, number_nonblank, count as nat),
            cat_count(full, number_all, number_nonblank, start as nat)
                == cat_count(full.skip(i as int), number_all, number_nonblank, count as nat),
        decreases lines.len() - i,
    {
        proof {
            assert(full.skip(i as int)[0] == full[i as int]);
            assert(full.skip(i as int).skip(1) =~= full.skip(i + 1));
        }
        let line = &lines[i];
        let numbered = if number_all {
            true
        } else if number_nonblank {
            let t = trim_end_str(line.as_str());
            !(t.unicode_len() == 0)
        } else {
            false
        };
        proof {
            assert(numbered == (number_all || (number_nonblank && !is_blank(full[i as int]))));
        }
        if numbered {
            let mut s = pad_left(to_decimal(count + 1).as_str(), 6);
            s.append("\t");
            s.append(line.as_str());
            proof {
                assert(s@ =~= numbered_line((count + 1) as nat, full[i as int]));
            }
            out.push(s);
            count = count + 1;
        } else {
            out.push(line.clone());
        }
        i = i + 1;
        proof {
            assert(cat_out(full, number_all, number_nonblank, start as nat)
                =~= out.deep_view() + cat_out(full.skip(i as int), number_all, number_nonblank, count as nat));
        }
    }
    proof {
        assert(full.skip(lines@.len() as int) =~= Seq::<Seq<char>>::empty());
        assert(cat_out(full, number_all, number_nonblank, start as nat) =~= out.deep_view());
    }
    (out, count)
}

} // verus!
