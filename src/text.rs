//! Splitting text into lines and fields.
use vstd::prelude::*;

use vstd::std_specs::iter::IteratorSpec;

verus! {

/// The characters of the string, in order.
pub(crate) fn chars_of(s: &str) -> (r: Vec<char>)
    ensures
        r@ == s@,
{
    broadcast use vstd::string::axiom_spec_iter;

    let mut it = s.chars();
    let mut out: Vec<char> = Vec::new();
    loop
        invariant
            out@ + it.remaining() == s@,
        ensures
            out@ == s@,
        decreases s@.len() - out@.len(),
    {
        let ghost before = it.remaining();
        match it.next() {
            Some(c) => {
                out.push(c);
                proof {
                    assert(before =~= seq![c] + it.remaining());
                }
            },
            None => {
                proof {
                    assert(out@ =~= s@);
                }
                break ;
            },
        }
    }
    out
}

/// Relies on `FromIterator<char>` for `String`: the string made of exactly these characters.
#[verifier::external_body]
pub(crate) fn string_of(cs: &[char]) -> (r: String)
    ensures
        r@ == cs@,
{
    cs.iter().collect()
}

/// The pieces of `s` between occurrences of `sep`, empty pieces included:
/// `n` separators give `n + 1` pieces.
pub open spec fn pieces(s: Seq<char>, sep: char) -> Seq<Seq<char>>
    decreases s.len(),
{
    if s.len() == 0 {
        seq![Seq::empty()]
    } else {
        let prev = pieces(s.drop_last(), sep);
        if s.last() == sep {
            prev.push(Seq::empty())
        } else {
            prev.update(prev.len() - 1, prev.last().push(s.last()))
        }
    }
}

/// `ps` without its empty members, order kept.
pub open spec fn non_empty(ps: Seq<Seq<char>>) -> Seq<Seq<char>>
    decreases ps.len(),
{
    if ps.len() == 0 {
        ps
    } else if ps.last().len() == 0 {
        non_empty(ps.drop_last())
    } else {
        non_empty(ps.drop_last()).push(ps.last())
    }
}

/// What `split` returns: the pieces of `s`, without the empty ones when `strip` holds.
pub open spec fn split_view(s: Seq<char>, sep: char, strip: bool) -> Seq<Seq<char>> {
    if strip {
        non_empty(pieces(s, sep))
    } else {
        pieces(s, sep)
    }
}

/// The lines of a text: it is cut at each `'\n'`; empty lines are kept.
pub open spec fn lines_of(s: Seq<char>) -> Seq<Seq<char>> {
    split_view(s, '\n', false)
}

/// The fields of a line: it is cut at each space; empty fields are dropped.
pub open spec fn fields_of(s: Seq<char>) -> Seq<Seq<char>> {
    split_view(s, ' ', true)
}

pub open spec fn views(v: Seq<String>) -> Seq<Seq<char>> {
    v.map_values(|p: String| p@)
}

pub proof fn lemma_pieces_len(s: Seq<char>, sep: char)
    ensures
        pieces(s, sep).len() >= 1,
        pieces(s, sep).len() <= s.len() + 1,
    decreases s.len(),
{
    if s.len() > 0 {
        lemma_pieces_len(s.drop_last(), sep);
    }
}

/// Cuts `text` at each `sep`. With `strip`, empty pieces are left out.
pub fn split(text: &str, sep: char, strip: bool) -> (r: Vec<String>)
    ensures
        views(r@) == split_view(text@, sep, strip),
{
    let cs = chars_of(text);
    let mut done: Vec<String> = Vec::new();
    let mut current: Vec<char> = Vec::new();
    let mut i: usize = 0;
    proof {
        assert(cs@.take(0) =~= Seq::<char>::empty());
        assert(views(done@) =~= Seq::<Seq<char>>::empty());
    }
    while i < cs.len()
        invariant
            i <= cs.len(),
            cs@ == text@,
            pieces(cs@.take(i as int), sep).last() == current@,
            views(done@) == if strip {
                non_empty(pieces(cs@.take(i as int), sep).drop_last())
            } else {
                pieces(cs@.take(i as int), sep).drop_last()
            },
        decreases cs.len() - i,
    {
        let ghost before = pieces(cs@.take(i as int), sep);
        proof {
            lemma_pieces_len(cs@.take(i as int), sep);
            assert(cs@.take(i + 1).drop_last() =~= cs@.take(i as int));
        }
        let c = cs[i];
        if c == sep {
            if !strip || current.len() > 0 {
                let piece = string_of(current.as_slice());
                let ghost prev = done@;
                done.push(piece);
                proof {
                    assert(views(done@) =~= views(prev).push(piece@));
                }
            }
            current = Vec::new();
            proof {
                let after = pieces(cs@.take(i + 1), sep);
                assert(after == before.push(Seq::empty()));
                assert(after.drop_last() =~= before);
                assert(before =~= before.drop_last().push(before.last()));
            }
        } else {
            current.push(c);
            proof {
                let after = pieces(cs@.take(i + 1), sep);
                assert(after.drop_last() =~= before.drop_last());
            }
        }
        i += 1;
    }
    proof {
        assert(cs@.take(i as int) =~= cs@);
        lemma_pieces_len(cs@, sep);
    }
    let ghost all = pieces(cs@, sep);
    if !strip || current.len() > 0 {
        let piece = string_of(current.as_slice());
        let ghost prev = done@;
        done.push(piece);
        proof {
            assert(views(done@) =~= views(prev).push(piece@));
        }
    }
    proof {
        assert(all =~= all.drop_last().push(all.last()));
    }
    done
}

} // verus!
