//! Episode ranges: texts such as `1-5,8` read into episode numbers, and
//! episode numbers written back as such a text.

use vstd::prelude::*;
use number_range::{Number, NumberRange, NumberRangeOptions};

verus! {

/// One comma-separated piece of a range text.
#[derive(Debug, Clone, Copy, PartialEq, Eq, Structural)]
pub enum Piece {
    /// One episode number.
    Single(usize),
    /// `Span(start, step, end)`: from `start` up to `end` by `step`.
    Span(usize, usize, usize),
}

/// The pieces that number_range reads from `text`, with `sep` between a
/// range's ends; None when it refuses the text.
pub uninterp spec fn range_pieces(text: Seq<char>, sep: char) -> Option<Seq<Piece>>;

/// Relies on `NumberRangeOptions::parse` of number_range for `usize`, with
/// `sep` as range separator: the pieces depend on the text alone.
#[verifier::external_body]
fn parse_pieces(text: &str, sep: char) -> (r: Option<Vec<Piece>>)
    ensures
        match r {
            Some(v) => range_pieces(text@, sep) == Some(v@),
            None => range_pieces(text@, sep) is None,
        },
{
    match NumberRangeOptions::<usize>::default().with_range_sep(sep).parse(text) {
        Ok(nr) => Some(
            nr.numbers.iter().map(
                |n| match n {
                    Number::Single(v) => Piece::Single(*v),
                    Number::Range(s, i, e) => Piece::Span(*s, *i, *e),
                },
            ).collect(),
        ),
        Err(_) => None,
    }
}

/// The range text that number_range writes for `nums`, runs that go up by
/// `step` joined with `sep`.
pub uninterp spec fn range_text(nums: Seq<usize>, sep: char, step: usize) -> Seq<char>;

/// Relies on `NumberRange::from_vec` of number_range and its `Display`: the
/// text depends on the numbers alone. `from_vec` adds `step` to the numbers,
/// hence the bound.
#[verifier::external_body]
fn format_range(nums: &Vec<usize>, sep: char, step: usize) -> (r: String)
    requires
        forall|i: int| 0 <= i < nums.len() ==> nums[i] + step <= usize::MAX,
    ensures
        r@ == range_text(nums@, sep, step),
{
    NumberRange::<usize>::from_options(NumberRangeOptions::new().with_range_sep(sep)).from_vec(
        nums.clone(),
        Some(step),
    ).to_string()
}

/// The numbers from `start` up to `end` by `step`.
pub open spec fn span_values(start: int, step: int, end: int) -> Seq<int>
    decreases
            (if start <= end {
                end - start + 1
            } else {
                0
            }),
{
    if step > 0 && start <= end {
        seq![start] + span_values(start + step, step, end)
    } else {
        Seq::empty()
    }
}

pub open spec fn piece_values(p: Piece) -> Seq<int> {
    match p {
        Piece::Single(v) => seq![v as int],
        Piece::Span(s, i, e) => span_values(s as int, i as int, e as int),
    }
}

/// The episode numbers that `ps` stands for, in order.
pub open spec fn pieces_values(ps: Seq<Piece>) -> Seq<int>
    decreases ps.len(),
{
    if ps.len() == 0 {
        Seq::empty()
    } else {
        pieces_values(ps.drop_last()) + piece_values(ps.last())
    }
}

pub open spec fn ints(v: Seq<usize>) -> Seq<int> {
    v.map_values(|x: usize| x as int)
}

pub open spec fn usizes(v: Seq<int>) -> Seq<usize> {
    v.map_values(|x: int| x as usize)
}

/// The episode numbers of a watched text; None when it is not a range text.
pub open spec fn watched_spec(text: Seq<char>) -> Option<Seq<int>> {
    match range_pieces(text, '-') {
        Some(ps) => Some(pieces_values(ps)),
        None => None,
    }
}

/// The episode numbers that `pieces` stand for, in order.
pub fn expand(pieces: &Vec<Piece>) -> (r: Vec<usize>)
    ensures
        ints(r@) == pieces_values(pieces@),
{
    let mut out: Vec<usize> = Vec::new();
    let mut k: usize = 0;
    while k < pieces.len()
        invariant
            k <= pieces.len(),
            ints(out@) == pieces_values(pieces@.subrange(0, k as int)),
        decreases pieces.len() - k,
    {
        let ghost before = ints(out@);
        let ghost done = pieces@.subrange(0, k + 1);
        assert(done.drop_last() =~= pieces@.subrange(0, k as int));
        match pieces[k] {
            Piece::Single(v) => {
                out.push(v);
                assert(ints(out@) =~= before + seq![v as int]);
            },
            Piece::Span(s, step, e) => {
                if step > 0 && s <= e {
                    let mut cur: usize = s;
                    loop
                        invariant_except_break
                            s <= cur <= e,
                            ints(out@) + span_values(cur as int, step as int, e as int) == before
                                + span_values(s as int, step as int, e as int),
                        invariant
                            step > 0,
                        ensures
                            ints(out@) == before + span_values(s as int, step as int, e as int),
                        decreases e - cur,
                    {
                        let ghost prev = ints(out@);
                        out.push(cur);
                        assert(ints(out@) =~= prev + seq![cur as int]);
                        assert(span_values(cur as int, step as int, e as int) == seq![cur as int]
                            + span_values(cur + step, step as int, e as int));
                        if e - cur < step {
                            assert(span_values(cur + step, step as int, e as int) =~= Seq::<
                                int,
                            >::empty());
                            assert(ints(out@) =~= before + span_values(
                                s as int,
                                step as int,
                                e as int,
                            ));
                            break ;
                        }
                        assert(ints(out@) + span_values(cur + step, step as int, e as int)
                            =~= prev + span_values(cur as int, step as int, e as int));
                        cur = cur + step;
                    }
                } else {
                    assert(span_values(s as int, step as int, e as int) =~= Seq::<int>::empty());
                    assert(ints(out@) =~= before + Seq::<int>::empty());
                }
            },
        }
        assert(done.last() == pieces@[k as int]);
        assert(ints(out@) == pieces_values(done));
        k = k + 1;
    }
    assert(pieces@.subrange(0, pieces@.len() as int) =~= pieces@);
    out
}

/// The episode numbers of a watched text such as `1-5,8`, in order; None
/// when it is not a range text.
pub fn watched_values(text: &str) -> (r: Option<Vec<usize>>)
    ensures
        match watched_spec(text@) {
            Some(vs) => r is Some && ints(r->0@) == vs,
            None => r is None,
        },
{
    match parse_pieces(text, '-') {
        Some(pieces) => Some(expand(&pieces)),
        None => None,
    }
}

/// Whether `text` is a range text that names at least one episode.
pub open spec fn names_episode(text: Seq<char>) -> bool {
    watched_spec(text) is Some && watched_spec(text)->0.len() > 0
}

/// The last episode of a watched text that names one.
pub fn last_watched(text: &str) -> (r: usize)
    requires
        names_episode(text@),
    ensures
        r as int == watched_spec(text@)->0.last(),
{
    match watched_values(text) {
        Some(vs) => vs[vs.len() - 1],
        None => 0,
    }
}

/// The last episode of a watched text; None when it is not a range text or
/// names no episode.
pub fn try_last_watched(text: &str) -> (r: Option<usize>)
    ensures
        names_episode(text@) ==> r is Some && r->0 as int == watched_spec(text@)->0.last(),
        !names_episode(text@) ==> r is None,
{
    match watched_values(text) {
        Some(vs) => {
            if vs.len() > 0 {
                Some(last_watched(text))
            } else {
                None
            }
        },
        None => None,
    }
}

/// The episode after the last of `values`, and `values` with it appended;
/// None when `values` is empty or its last number has no successor.
pub fn advance(values: Vec<usize>) -> (r: Option<(usize, Vec<usize>)>)
    ensures
        r is Some <==> values@.len() > 0 && values@.last() < usize::MAX,
        r is Some ==> (r->0).0 == values@.last() + 1 && (r->0).1@ == values@.push((r->0).0),
{
    if values.len() == 0 {
        return None;
    }
    let last = values[values.len() - 1];
    if last == usize::MAX {
        return None;
    }
    let next = last + 1;
    let mut out = values;
    out.push(next);
    Some((next, out))
}

/// Whether the episodes `vs` can take one more: they name an episode, and
/// the next one and each of them has a successor.
pub open spec fn can_advance(vs: Seq<int>) -> bool {
    &&& vs.len() > 0
    &&& vs.last() + 1 < usize::MAX
    &&& forall|j: int| 0 <= j < vs.len() ==> #[trigger] vs[j] < usize::MAX
}

/// Whether the episodes of `text` can take one more.
pub open spec fn advanceable(text: Seq<char>) -> bool {
    watched_spec(text) is Some && can_advance(watched_spec(text)->0)
}

/// The episode after the last one of a watched text, and the watched text
/// with it added, for a text whose episodes can take one more.
pub fn watch_next(text: &str) -> (r: (usize, String))
    requires
        advanceable(text@),
    ensures
        r.0 == watched_spec(text@)->0.last() + 1,
        r.1@ == range_text(
            usizes(watched_spec(text@)->0.push(watched_spec(text@)->0.last() + 1)),
            '-',
            1,
        ),
{
    let values = match watched_values(text) {
        Some(v) => v,
        None => Vec::new(),
    };
    let ghost vs = ints(values@);
    let (next, all) = match advance(values) {
        Some(p) => p,
        None => (0, Vec::new()),
    };
    proof {
        assert forall|i: int| 0 <= i < all@.len() implies all@[i] + 1usize <= usize::MAX by {
            if i < vs.len() {
                assert(vs[i] == all@[i] as int);
            }
        }
        assert(usizes(vs.push(vs.last() + 1)) =~= all@);
    }
    let text = format_range(&all, '-', 1);
    (next, text)
}

/// The episode after the last one of a watched text, and the watched text
/// with it added. None when the text is not a range text, names no
/// episode, or its numbers come too close to `usize::MAX`.
pub fn try_watch_next(text: &str) -> (r: Option<(usize, String)>)
    ensures
        advanceable(text@) ==> r is Some && (r->0).0 == watched_spec(text@)->0.last() + 1
            && (r->0).1@ == range_text(
            usizes(watched_spec(text@)->0.push(watched_spec(text@)->0.last() + 1)),
            '-',
            1,
        ),
        !advanceable(text@) ==> r is None,
{
    let values = match watched_values(text) {
        Some(v) => v,
        None => {
            return None;
        },
    };
    let ghost vs = ints(values@);
    if values.len() == 0 || values[values.len() - 1] >= usize::MAX - 1 {
        return None;
    }
    let mut j: usize = 0;
    while j < values.len()
        invariant
            j <= values.len(),
            vs == ints(values@),
            watched_spec(text@) == Some(vs),
            forall|i: int| 0 <= i < j ==> #[trigger] values@[i] < usize::MAX,
        decreases values.len() - j,
    {
        if values[j] == usize::MAX {
            assert(vs[j as int] == usize::MAX);
            assert(!can_advance(vs));
            return None;
        }
        j = j + 1;
    }
    assert(can_advance(vs)) by {
        assert forall|i: int| 0 <= i < vs.len() implies #[trigger] vs[i] < usize::MAX by {
            assert(vs[i] == values@[i] as int);
        }
    }
    Some(watch_next(text))
}

} // verus!
