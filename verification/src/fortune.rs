//! Fortune databases: parse `%`-delimited blocks, filter by pattern, and
//! pick one at random — reproducibly when a seed is given.

use vstd::prelude::*;
use rand::SeedableRng;
use rand::seq::SliceRandom;
use crate::pattern::{CompiledPattern, pattern_matches, regex_match};
use crate::textfmt::join_spec;

verus! {

/// One fortune: the basename of the file it came from and its text.
#[derive(Debug)]
pub struct Fortune {
    pub source: String,
    pub text: String,
}

/// One input file: the basename shown in headers and its lines, already
/// stripped of terminators.
pub struct FortuneFile {
    pub name: String,
    pub lines: Vec<String>,
}

/// The texts of the fortunes in one file, read with an open block `buf`:
/// a line holding `%` alone closes a non-empty block into one text (its
/// lines joined by newlines); empty blocks are discarded, and the final
/// unterminated block is dropped.
pub open spec fn blocks_from(lines: Seq<Seq<char>>, buf: Seq<Seq<char>>) -> Seq<Seq<char>>
    decreases lines.len(),
{
    if lines.len() == 0 {
        Seq::empty()
    } else if lines[0] == "%"@ {
        if buf.len() > 0 {
            seq![join_spec(buf, "\n"@)] + blocks_from(lines.skip(1), Seq::empty())
        } else {
            blocks_from(lines.skip(1), buf)
        }
    } else {
        blocks_from(lines.skip(1), buf.push(lines[0]))
    }
}

/// Each block text paired with its file's name.
pub open spec fn tag_texts(name: Seq<char>, texts: Seq<Seq<char>>) -> Seq<(Seq<char>, Seq<char>)> {
    texts.map_values(|t: Seq<char>| (name, t))
}

/// The fortunes of a file list: every file parsed on its own, so no open
/// block runs from one file into the next; results in file order.
pub open spec fn fortunes_spec(files: Seq<(Seq<char>, Seq<Seq<char>>)>)
    -> Seq<(Seq<char>, Seq<char>)>
    decreases files.len(),
{
    if files.len() == 0 {
        Seq::empty()
    } else {
        tag_texts(files[0].0, blocks_from(files[0].1, Seq::empty()))
            + fortunes_spec(files.skip(1))
    }
}

/// The view of a fortune list: source and text pairs.
pub open spec fn fortunes_view(fs: Seq<Fortune>) -> Seq<(Seq<char>, Seq<char>)> {
    fs.map_values(|f: Fortune| (f.source@, f.text@))
}

/// The view of a file list.
pub open spec fn files_view(fs: Seq<FortuneFile>) -> Seq<(Seq<char>, Seq<Seq<char>>)> {
    fs.map_values(|f: FortuneFile| (f.name@, f.lines.deep_view()))
}

/// Tagging distributes over prepending one text.
proof fn lemma_tag_texts_step(name: Seq<char>, t: Seq<char>, rest: Seq<Seq<char>>)
    ensures
        tag_texts(name, seq![t] + rest) =~= seq![(name, t)] + tag_texts(name, rest),
{
    assert((seq![t] + rest)[0] == t);
    assert forall|j: int| 0 <= j < rest.len() implies (seq![t] + rest)[j + 1] == rest[j] by {
    }
}

/// Parse the fortunes of the given files, in order: each file is a list
/// of blocks of lines closed by a line holding `%` alone; empty blocks
/// are discarded, and an unterminated trailing block yields no fortune
/// and does not carry into the next file.
pub fn read_fortunes(files: &Vec<FortuneFile>) -> (r: Vec<Fortune>)
    ensures
        fortunes_view(r@) == fortunes_spec(files_view(files@)),
{
    let ghost goal = fortunes_spec(files_view(files@));
    let mut out: Vec<Fortune> = Vec::new();
    let mut fi: usize = 0;
    proof {
        assert(files_view(files@).skip(0) =~= files_view(files@));
        assert(fortunes_view(out@) =~= Seq::<(Seq<char>, Seq<char>)>::empty());
        assert(fortunes_view(out@) + fortunes_spec(files_view(files@)) =~= goal);
    }
    while fi < files.len()
        invariant
            fi <= files@.len(),
            goal == fortunes_spec(files_view(files@)),
            goal =~= fortunes_view(out@) + fortunes_spec(files_view(files@).skip(fi as int)),
        decreases files@.len() - fi,
    {
        let ghost fv = files_view(files@);
        let file = &files[fi];
        let ghost lines_v = file.lines.deep_view();
        let ghost name_v = files@[fi as int].name@;
        proof {
            assert(fv.skip(fi as int)[0] == fv[fi as int]);
            assert(fv.skip(fi as int).skip(1) =~= fv.skip(fi + 1));
            assert(fv[fi as int] == (name_v, lines_v));
            assert(fortunes_spec(fv.skip(fi as int))
                == tag_texts(name_v, blocks_from(lines_v, Seq::empty()))
                    + fortunes_spec(fv.skip(fi + 1)));
        }
        let ghost entry = fortunes_view(out@);
        let mut buffer: Vec<String> = Vec::new();
        let mut li: usize = 0;
        proof {
            assert(lines_v.skip(0) =~= lines_v);
            assert(buffer.deep_view() =~= Seq::<Seq<char>>::empty());
        }
        while li < file.lines.len()
            invariant
                li <= lines_v.len(),
                lines_v == file.lines.deep_view(),
                file == files@[fi as int],
                fi < files@.len(),
                name_v == files@[fi as int].name@,
                entry + tag_texts(name_v, blocks_from(lines_v, Seq::empty()))
                    =~= fortunes_view(out@) + tag_texts(
                        name_v, blocks_from(lines_v.skip(li as int), buffer.deep_view())),
            decreases lines_v.len() - li,
        {
            proof {
                reveal_strlit("%");
                assert(file.lines@[li as int]@ == lines_v[li as int]);
                assert(lines_v.skip(li as int)[0] == lines_v[li as int]);
                assert(lines_v.skip(li as int).skip(1) =~= lines_v.skip(li + 1));
            }
            let line = &file.lines[li];
            if line.as_str().unicode_len() == 1 && line.as_str().get_char(0) == '%' {
                proof {
                    assert(lines_v[li as int] =~= "%"@);
                }
                if buffer.len() > 0 {
                    proof {
                        assert(blocks_from(lines_v.skip(li as int), buffer.deep_view())
                            == seq![join_spec(buffer.deep_view(), "\n"@)]
                                + blocks_from(lines_v.skip(li + 1), Seq::empty()));
                        lemma_tag_texts_step(name_v, join_spec(buffer.deep_view(), "\n"@),
                            blocks_from(lines_v.skip(li + 1), Seq::empty()));
                    }
                    let text = crate::textfmt::join_strings(&buffer, "\n");
                    let ghost tv = text@;
                    let f = Fortune { source: file.name.clone(), text };
                    let ghost prev = fortunes_view(out@);
                    out.push(f);
                    buffer = Vec::new();
                    proof {
                        assert(out@.len() == prev.len() + 1);
                        assert(fortunes_view(out@) =~= prev.push((name_v, tv)));
                        assert(buffer.deep_view() =~= Seq::<Seq<char>>::empty());
                    }
                } else {
                    proof {
                        assert(buffer.deep_view().len() == 0);
                    }
                }
            } else {
                proof {
                    assert(lines_v[li as int] != "%"@);
                }
                let ghost bprev = buffer.deep_view();
                buffer.push(line.clone());
                proof {
                    assert(buffer@.len() == bprev.len() + 1);
                    assert(buffer.deep_view() =~= bprev.push(lines_v[li as int]));
                }
            }
            li = li + 1;
            proof {
                assert(entry + tag_texts(name_v, blocks_from(lines_v, Seq::empty()))
                    =~= fortunes_view(out@) + tag_texts(
                        name_v, blocks_from(lines_v.skip(li as int), buffer.deep_view())));
            }
        }
        proof {
            assert(lines_v.skip(lines_v.len() as int) =~= Seq::<Seq<char>>::empty());
            assert(tag_texts(name_v,
                blocks_from(Seq::<Seq<char>>::empty(), buffer.deep_view()))
                =~= Seq::<(Seq<char>, Seq<char>)>::empty());
            assert(fortunes_view(out@)
                =~= entry + tag_texts(name_v, blocks_from(lines_v, Seq::empty())));
        }
        fi = fi + 1;
        proof {
            assert(goal =~= fortunes_view(out@) + fortunes_spec(files_view(files@).skip(fi as int)));
        }
    }
    proof {
        assert(files_view(files@).skip(files@.len() as int)
            =~= Seq::<(Seq<char>, Seq<Seq<char>>)>::empty());
        assert(fortunes_view(out@) + Seq::<(Seq<char>, Seq<char>)>::empty()
            =~= fortunes_view(out@));
    }
    out
}

/// What the seeded generator picks from `n` choices: a function of the
/// seed and the count alone.
pub uninterp spec fn seeded_pick(seed: u64, n: int) -> int;

/// Relies on rand's `SliceRandom::choose` with a `StdRng` seeded from
/// `seed`: a non-empty slice yields the element at an index drawn from
/// the generator and the length alone, and the index is in range.
#[verifier::external_body]
fn choose_seeded(fortunes: &Vec<Fortune>, seed: u64) -> (r: Option<String>)
    ensures
        r is Some <==> fortunes@.len() > 0,
        r is Some ==> 0 <= seeded_pick(seed, fortunes@.len() as int) < fortunes@.len(),
        r is Some ==> r->0@ == fortunes@[seeded_pick(seed, fortunes@.len() as int)].text@,
{
    let mut rng = rand::rngs::StdRng::seed_from_u64(seed);
    fortunes.as_slice().choose(&mut rng).map(|f| f.text.clone())
}

/// Relies on rand's `SliceRandom::choose` with the thread generator: a
/// non-empty slice yields the text of one of its elements.
#[verifier::external_body]
fn choose_random(fortunes: &Vec<Fortune>) -> (r: Option<String>)
    ensures
        r is Some <==> fortunes@.len() > 0,
        r is Some ==> exists|i: int|
            0 <= i < fortunes@.len() && r->0@ == fortunes@[i].text@,
{
    let mut rng = rand::thread_rng();
    fortunes.as_slice().choose(&mut rng).map(|f| f.text.clone())
}

/// Pick one fortune's text uniformly at random: with a seed the choice is
/// a function of the seed and the count, so it reproduces across runs.
/// An empty list yields nothing.
pub fn pick_fortune(fortunes: &Vec<Fortune>, seed: Option<u64>) -> (r: Option<String>)
    ensures
        r is Some <==> fortunes@.len() > 0,
        fortunes@.len() > 0 && seed is Some ==> r->0@
            == fortunes@[seeded_pick(seed->0, fortunes@.len() as int)].text@,
        fortunes@.len() > 0 ==> exists|i: int|
            0 <= i < fortunes@.len() && r->0@ == fortunes@[i].text@,
{
    match seed {
        Option::Some(s) => {
            let r = choose_seeded(fortunes, s);
            proof {
                if fortunes@.len() > 0 {
                    let i = seeded_pick(s, fortunes@.len() as int);
                    assert(0 <= i < fortunes@.len() && r->0@ == fortunes@[i].text@);
                }
            }
            r
        },
        Option::None => choose_random(fortunes),
    }
}

/// The fortunes whose text the pattern matches, in order.
pub open spec fn matching_view(fs: Seq<(Seq<char>, Seq<char>)>, src: Seq<char>, ci: bool)
    -> Seq<(Seq<char>, Seq<char>)> {
    fs.filter(|p: (Seq<char>, Seq<char>)| regex_match(src, ci, p.1))
}

/// Keep exactly the fortunes whose text the pattern matches, in order.
pub fn matching_fortunes(fortunes: &Vec<Fortune>, pattern: &CompiledPattern) -> (r: Vec<Fortune>)
    ensures
        fortunes_view(r@) == matching_view(
            fortunes_view(fortunes@), pattern.src_spec(), pattern.ci_spec()),
{
    let ghost fv = fortunes_view(fortunes@);
    let ghost pred = |p: (Seq<char>, Seq<char>)|
        regex_match(pattern.src_spec(), pattern.ci_spec(), p.1);
    let mut out: Vec<Fortune> = Vec::new();
    let mut i: usize = 0;
    proof {
        reveal(Seq::filter);
        assert(fv.take(0) =~= Seq::<(Seq<char>, Seq<char>)>::empty());
        assert(fortunes_view(out@) =~= Seq::<(Seq<char>, Seq<char>)>::empty());
        assert(Seq::<(Seq<char>, Seq<char>)>::empty().filter(pred)
            =~= Seq::<(Seq<char>, Seq<char>)>::empty());
    }
    while i < fortunes.len()
        invariant
            i <= fortunes@.len(),
            fv == fortunes_view(fortunes@),
            pred == (|p: (Seq<char>, Seq<char>)|
                regex_match(pattern.src_spec(), pattern.ci_spec(), p.1)),
            fortunes_view(out@) == fv.take(i as int).filter(pred),
        decreases fortunes@.len() - i,
    {
        proof {
            reveal(Seq::filter);
            assert(fv[i as int] == (fortunes@[i as int].source@, fortunes@[i as int].text@));
            assert(fv.take(i + 1).drop_last() =~= fv.take(i as int));
            assert(fv.take(i + 1).last() == fv[i as int]);
        }
        let f = &fortunes[i];
        if pattern_matches(pattern, f.text.as_str()) {
            let ghost prev = fortunes_view(out@);
            let kept = Fortune { source: f.source.clone(), text: f.text.clone() };
            out.push(kept);
            proof {
                assert(out@.len() == prev.len() + 1);
                assert(fortunes_view(out@) =~= prev.push(fv[i as int]));
                assert(fv.take(i + 1).filter(pred)
                    =~= fv.take(i as int).filter(pred).push(fv[i as int]));
            }
        } else {
            proof {
                assert(fv.take(i + 1).filter(pred) =~= fv.take(i as int).filter(pred));
            }
        }
        i = i + 1;
    }
    proof {
        reveal(Seq::filter);
        assert(fv.take(fortunes@.len() as int) =~= fv);
        assert(matching_view(fv, pattern.src_spec(), pattern.ci_spec()) == fv.filter(pred));
    }
    out
}

/// The sources of the pattern-matching fortunes, one header for each
/// change of source.
pub open spec fn header_sources(fs: Seq<(Seq<char>, Seq<char>)>, src: Seq<char>, ci: bool,
    prev: Option<Seq<char>>) -> Seq<Seq<char>>
    decreases fs.len(),
{
    if fs.len() == 0 {
        Seq::empty()
    } else if regex_match(src, ci, fs[0].1) {
        if prev is Some && prev->0 == fs[0].0 {
            header_sources(fs.skip(1), src, ci, prev)
        } else {
            seq![fs[0].0] + header_sources(fs.skip(1), src, ci, Some(fs[0].0))
        }
    } else {
        header_sources(fs.skip(1), src, ci, prev)
    }
}

/// The source headers a pattern search prints: the source of each
/// matching fortune, once for every run of consecutive matches from the
/// same source.
pub fn match_sources(fortunes: &Vec<Fortune>, pattern: &CompiledPattern) -> (r: Vec<String>)
    ensures
        r.deep_view() == header_sources(fortunes_view(fortunes@), pattern.src_spec(),
            pattern.ci_spec(), Option::None),
{
    let ghost fv = fortunes_view(fortunes@);
    let ghost src = pattern.src_spec();
    let ghost ci = pattern.ci_spec();
    let mut out: Vec<String> = Vec::new();
    let mut prev: Option<String> = None;
    let mut i: usize = 0;
    proof {
        assert(fv.skip(0) =~= fv);
        assert(out.deep_view() =~= Seq::<Seq<char>>::empty());
        assert(out.deep_view() + header_sources(fv, src, ci, Option::None)
            =~= header_sources(fv, src, ci, Option::None));
    }
    while i < fortunes.len()
        invariant
            i <= fortunes@.len(),
            fv == fortunes_view(fortunes@),
            src == pattern.src_spec(),
            ci == pattern.ci_spec(),
            header_sources(fv, src, ci, Option::None)
                =~= out.deep_view() + header_sources(fv.skip(i as int), src, ci,
                    match prev {
                        Option::Some(p) => Option::Some(p@),
                        Option::None => Option::None,
                    }),
        decreases fortunes@.len() - i,
    {
        proof {
            assert(fv.skip(i as int)[0] == fv[i as int]);
            assert(fv.skip(i as int).skip(1) =~= fv.skip(i + 1));
            assert(fv[i as int] == (fortunes@[i as int].source@, fortunes@[i as int].text@));
        }
        let ghost prevv = match &prev {
            Option::Some(p) => Option::Some(p@),
            Option::None => Option::<Seq<char>>::None,
        };
        let f = &fortunes[i];
        if pattern_matches(pattern, f.text.as_str()) {
            proof {
                assert(regex_match(src, ci, fv.skip(i as int)[0].1));
            }
            let same = match &prev {
                Option::Some(p) => *p == f.source,
                Option::None => false,
            };
            proof {
                assert(same == (prevv is Some && prevv->0 == fv[i as int].0));
            }
            if !same {
                proof {
                    assert(header_sources(fv.skip(i as int), src, ci, prevv)
                        == seq![fv[i as int].0]
                            + header_sources(fv.skip(i + 1), src, ci, Option::Some(fv[i as int].0)));
                }
                let ghost dprev = out.deep_view();
                out.push(f.source.clone());
                prev = Some(f.source.clone());
                proof {
                    assert(out@.len() == dprev.len() + 1);
                    assert(out.deep_view() =~= dprev.push(fv[i as int].0));
                }
            } else {
                proof {
                    assert(header_sources(fv.skip(i as int), src, ci, prevv)
                        == header_sources(fv.skip(i + 1), src, ci, prevv));
                }
            }
        } else {
            proof {
                assert(!regex_match(src, ci, fv.skip(i as int)[0].1));
                assert(header_sources(fv.skip(i as int), src, ci, prevv)
                    == header_sources(fv.skip(i + 1), src, ci, prevv));
            }
        }
        i = i + 1;
        proof {
            assert(header_sources(fv, src, ci, Option::None)
                =~= out.deep_view() + header_sources(fv.skip(i as int), src, ci,
                    match prev {
                        Option::Some(p) => Option::Some(p@),
                        Option::None => Option::None,
                    }));
        }
    }
    proof {
        assert(fv.skip(fortunes@.len() as int) =~= Seq::<(Seq<char>, Seq<char>)>::empty());
        assert(out.deep_view() + Seq::<Seq<char>>::empty() =~= out.deep_view());
    }
    out
}

} // verus!
