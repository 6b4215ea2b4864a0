//! Text helpers for keys: prefixes and splitting on a separator.

use crate::coerce::chars_of;
use vstd::prelude::*;
use vstd::string::*;

verus! {

/// `p` is a prefix of `s`.
pub open spec fn has_prefix(s: Seq<char>, p: Seq<char>) -> bool {
    p.len() <= s.len() && s.subrange(0, p.len() as int) == p
}

/// `sep` occurs in `s` at position `i`.
pub open spec fn occurs_at(s: Seq<char>, sep: Seq<char>, i: int) -> bool {
    0 <= i && i + sep.len() <= s.len() && s.subrange(i, i + sep.len()) == sep
}

/// `i` is the leftmost position where `sep` occurs in `s`.
pub open spec fn first_occurrence(s: Seq<char>, sep: Seq<char>, i: int) -> bool {
    occurs_at(s, sep, i) && forall|j: int| 0 <= j < i ==> !#[trigger] occurs_at(s, sep, j)
}

/// The pieces of `s` between the occurrences of `sep`, found left to right
/// without overlap. An empty separator leaves `s` whole.
pub open spec fn split_spec(s: Seq<char>, sep: Seq<char>) -> Seq<Seq<char>>
    decreases s.len(),
{
    let i = choose|i: int| first_occurrence(s, sep, i);
    if sep.len() > 0 && first_occurrence(s, sep, i) {
        seq![s.subrange(0, i)] + split_spec(s.subrange(i + sep.len(), s.len() as int), sep)
    } else {
        seq![s]
    }
}

/// Whether `s` starts with `p`.
pub fn starts_with(s: &str, p: &str) -> (r: bool)
    ensures
        r == has_prefix(s@, p@),
{
    let cs = chars_of(s);
    let ps = chars_of(p);
    if ps.len() > cs.len() {
        return false;
    }
    let mut i: usize = 0;
    while i < ps.len()
        invariant
            cs@ == s@,
            ps@ == p@,
            ps.len() <= cs.len(),
            i <= ps.len(),
            forall|j: int| 0 <= j < i ==> cs@[j] == ps@[j],
        decreases ps.len() - i,
    {
        if cs[i] != ps[i] {
            assert(cs@.subrange(0, ps.len() as int)[i as int] != ps@[i as int]);
            return false;
        }
        i = i + 1;
    }
    assert(cs@.subrange(0, ps.len() as int) =~= ps@);
    true
}

/// Whether `ps` occurs in `cs` at position `i`.
fn matches_at(cs: &Vec<char>, ps: &Vec<char>, i: usize) -> (r: bool)
    ensures
        r == occurs_at(cs@, ps@, i as int),
{
    if i > cs.len() || ps.len() > cs.len() - i {
        return false;
    }
    let mut j: usize = 0;
    while j < ps.len()
        invariant
            i + ps.len() <= cs.len(),
            j <= ps.len(),
            forall|k: int| 0 <= k < j ==> cs@[i + k] == ps@[k],
        decreases ps.len() - j,
    {
        if cs[i + j] != ps[j] {
            assert(cs@.subrange(i as int, i + ps.len())[j as int] != ps@[j as int]);
            return false;
        }
        j = j + 1;
    }
    assert(cs@.subrange(i as int, i + ps.len()) =~= ps@);
    true
}

/// The leftmost occurrence of `ps` in `cs` at or after `start`.
fn find_from(cs: &Vec<char>, ps: &Vec<char>, start: usize) -> (r: Option<usize>)
    requires
        start <= cs.len(),
    ensures
        match r {
            Some(i) => start <= i && occurs_at(cs@, ps@, i as int) && forall|j: int|
                start <= j < i ==> !#[trigger] occurs_at(cs@, ps@, j),
            None => forall|j: int| start <= j ==> !#[trigger] occurs_at(cs@, ps@, j),
        },
{
    let mut i = start;
    while i < cs.len()
        invariant
            start <= i <= cs.len(),
            forall|j: int| start <= j < i ==> !#[trigger] occurs_at(cs@, ps@, j),
        decreases cs.len() - i,
    {
        if matches_at(cs, ps, i) {
            return Some(i);
        }
        i = i + 1;
    }
    if matches_at(cs, ps, i) {
        return Some(i);
    }
    None
}

/// Where `i` is a leftmost occurrence, it is the one `split_spec` picks.
proof fn lemma_first_occurrence(s: Seq<char>, sep: Seq<char>, i: int)
    requires
        first_occurrence(s, sep, i),
    ensures
        (choose|x: int| first_occurrence(s, sep, x)) == i,
{
    let x = choose|x: int| first_occurrence(s, sep, x);
    assert(first_occurrence(s, sep, x));
    if x < i {
        assert(!occurs_at(s, sep, x));
    } else if i < x {
        assert(!occurs_at(s, sep, i));
    }
}

/// Occurrences in a suffix are occurrences in the whole, shifted.
proof fn lemma_occurs_shift(s: Seq<char>, sep: Seq<char>, start: int, j: int)
    requires
        0 <= start <= s.len(),
    ensures
        occurs_at(s.subrange(start, s.len() as int), sep, j) <==> (0 <= j && occurs_at(
            s,
            sep,
            start + j,
        )),
{
    let t = s.subrange(start, s.len() as int);
    if 0 <= j && j + sep.len() <= t.len() {
        assert(t.subrange(j, j + sep.len()) =~= s.subrange(start + j, start + j + sep.len()));
    }
}

/// The pieces of `s` between the occurrences of `sep` (see `split_spec`).
pub fn split_on(s: &str, sep: &str) -> (r: Vec<String>)
    ensures
        r@.map_values(|x: String| x@) == split_spec(s@, sep@),
{
    let cs = chars_of(s);
    let ps = chars_of(sep);
    let n = cs.len();
    let mut out: Vec<String> = Vec::new();
    if ps.len() == 0 {
        out.push(String::from_str(s));
        assert(out@.map_values(|x: String| x@) =~= seq![s@]);
        return out;
    }
    let mut start: usize = 0;
    assert(cs@.subrange(0, n as int) =~= cs@);
    loop
        invariant
            cs@ == s@,
            ps@ == sep@,
            n == cs.len(),
            ps.len() > 0,
            start <= n,
            out@.map_values(|x: String| x@) + split_spec(cs@.subrange(start as int, n as int), ps@)
                == split_spec(cs@, ps@),
        decreases n - start,
    {
        let ghost t = cs@.subrange(start as int, n as int);
        let ghost before = out@.map_values(|x: String| x@);
        match find_from(&cs, &ps, start) {
            Some(i) => {
                proof {
                    lemma_occurs_shift(cs@, ps@, start as int, i - start);
                    assert forall|j: int| 0 <= j < i - start implies !#[trigger] occurs_at(
                        t,
                        ps@,
                        j,
                    ) by {
                        lemma_occurs_shift(cs@, ps@, start as int, j);
                    }
                    assert(first_occurrence(t, ps@, i - start));
                    lemma_first_occurrence(t, ps@, i - start);
                    assert(t.subrange(0, i - start) =~= cs@.subrange(start as int, i as int));
                    assert(t.subrange(i - start + ps@.len(), t.len() as int) =~= cs@.subrange(
                        i + ps@.len(),
                        n as int,
                    ));
                }
                let piece = String::from_str(s.substring_char(start, i));
                out.push(piece);
                assert(out@.map_values(|x: String| x@) =~= before.push(
                    cs@.subrange(start as int, i as int),
                ));
                assert(split_spec(t, ps@) == seq![cs@.subrange(start as int, i as int)]
                    + split_spec(cs@.subrange(i + ps@.len(), n as int), ps@));
                assert(out@.map_values(|x: String| x@) + split_spec(
                    cs@.subrange(i + ps@.len(), n as int),
                    ps@,
                ) =~= before + split_spec(t, ps@));
                start = i + ps.len();
            },
            None => {
                proof {
                    let x = choose|x: int| first_occurrence(t, ps@, x);
                    if first_occurrence(t, ps@, x) {
                        lemma_occurs_shift(cs@, ps@, start as int, x);
                    }
                }
                let piece = String::from_str(s.substring_char(start, n));
                out.push(piece);
                assert(out@.map_values(|x: String| x@) =~= before + split_spec(t, ps@));
                return out;
            },
        }
    }
}

} // verus!
