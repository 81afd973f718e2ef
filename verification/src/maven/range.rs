//! The Maven version-range grammar, on the bytes of the range text.
//!
//! A range is one or more intervals separated by commas, such as
//! `[1.0,2.0)`, `(,1.0]`, `[1.5]` or `(,1.0],[1.2,)`. Spaces and tabs may
//! stand inside the brackets around each comma and before a closing bracket.
//!
//! Where a version starts and ends is not decided here. The caller hands in,
//! for every byte offset of the text, where a version that starts there ends;
//! an offset with no entry, a `None` entry, or an entry before its offset or
//! past the end of the text means that no version starts there. A parsed
//! version is reported as its byte span in the text.
use vstd::prelude::*;

use crate::range::{Direction, Edge, Interval};

verus! {

/// Byte span `(start, end)` of a version inside the range text.
pub type VersionSpan = (usize, usize);

/// The lower and the upper bound of one interval of a range; a missing bound
/// leaves that side unbounded.
pub type IntervalPair = (Option<Interval<VersionSpan>>, Option<Interval<VersionSpan>>);

pub const SPACE: u8 = 0x20;

pub const TAB: u8 = 0x09;

pub const LEFT_PAREN: u8 = 0x28;

pub const RIGHT_PAREN: u8 = 0x29;

pub const LEFT_BRACKET: u8 = 0x5b;

pub const RIGHT_BRACKET: u8 = 0x5d;

pub const COMMA: u8 = 0x2c;

pub open spec fn is_space(b: u8) -> bool {
    b == SPACE || b == TAB
}

pub open spec fn byte_at(s: Seq<u8>, p: int, b: u8) -> bool {
    0 <= p < s.len() && s[p] == b
}

/// The offset after the run of spaces and tabs that starts at `p`.
pub open spec fn spec_skip_spaces(s: Seq<u8>, p: int) -> int
    decreases s.len() - p,
{
    if 0 <= p < s.len() && is_space(s[p]) {
        spec_skip_spaces(s, p + 1)
    } else {
        p
    }
}

/// The byte `b` at `p`, then spaces.
pub open spec fn spec_char_then_spaces(s: Seq<u8>, p: int, b: u8) -> Option<int> {
    if byte_at(s, p, b) {
        Some(spec_skip_spaces(s, p + 1))
    } else {
        None
    }
}

/// Spaces, then the byte `b`.
pub open spec fn spec_spaces_then_char(s: Seq<u8>, p: int, b: u8) -> Option<int> {
    let q = spec_skip_spaces(s, p);
    if byte_at(s, q, b) {
        Some(q + 1)
    } else {
        None
    }
}

/// `(` or `[`, each followed by spaces.
pub open spec fn spec_left_edge(s: Seq<u8>, p: int) -> Option<(int, Edge)> {
    match spec_char_then_spaces(s, p, LEFT_PAREN) {
        Some(q) => Some((q, Edge::Open)),
        None => match spec_char_then_spaces(s, p, LEFT_BRACKET) {
            Some(q) => Some((q, Edge::Closed)),
            None => None,
        },
    }
}

/// `)` or `]`, each after spaces.
pub open spec fn spec_right_edge(s: Seq<u8>, p: int) -> Option<(int, Edge)> {
    match spec_spaces_then_char(s, p, RIGHT_PAREN) {
        Some(q) => Some((q, Edge::Open)),
        None => match spec_spaces_then_char(s, p, RIGHT_BRACKET) {
            Some(q) => Some((q, Edge::Closed)),
            None => None,
        },
    }
}

/// A left edge is the ordered choice of `(` and `[`: open exactly where `(`
/// with its spaces is read, closed exactly where `[` with its spaces is read,
/// and nothing where neither is.
pub proof fn lemma_left_edge_is_choice(s: Seq<u8>, p: int)
    ensures
        forall|r: int|
            spec_left_edge(s, p) == Some((r, Edge::Open)) <==> spec_char_then_spaces(
                s,
                p,
                LEFT_PAREN,
            ) == Some(r),
        forall|r: int|
            spec_left_edge(s, p) == Some((r, Edge::Closed)) <==> spec_char_then_spaces(
                s,
                p,
                LEFT_BRACKET,
            ) == Some(r),
        spec_left_edge(s, p) is None <==> spec_char_then_spaces(s, p, LEFT_PAREN) is None
            && spec_char_then_spaces(s, p, LEFT_BRACKET) is None,
{
}

/// A right edge is the ordered choice of `)` and `]`, each after spaces.
pub proof fn lemma_right_edge_is_choice(s: Seq<u8>, p: int)
    ensures
        forall|r: int|
            spec_right_edge(s, p) == Some((r, Edge::Open)) <==> spec_spaces_then_char(
                s,
                p,
                RIGHT_PAREN,
            ) == Some(r),
        forall|r: int|
            spec_right_edge(s, p) == Some((r, Edge::Closed)) <==> spec_spaces_then_char(
                s,
                p,
                RIGHT_BRACKET,
            ) == Some(r),
        spec_right_edge(s, p) is None <==> spec_spaces_then_char(s, p, RIGHT_PAREN) is None
            && spec_spaces_then_char(s, p, RIGHT_BRACKET) is None,
{
}

/// A comma with spaces on either side.
pub open spec fn spec_delimiter(s: Seq<u8>, p: int) -> Option<int> {
    match spec_spaces_then_char(s, p, COMMA) {
        Some(q) => Some(spec_skip_spaces(s, q)),
        None => None,
    }
}

/// Where the version that starts at `p` ends: the table's entry for `p`,
/// where it has one that lies between `p` and the end of the text.
pub open spec fn spec_version_end(s: Seq<u8>, ends: Seq<Option<usize>>, p: int) -> Option<int> {
    if 0 <= p < ends.len() {
        match ends[p] {
            Some(e) => if p <= e <= s.len() {
                Some(e as int)
            } else {
                None
            },
            None => None,
        }
    } else {
        None
    }
}

pub open spec fn span(start: int, end: int) -> VersionSpan {
    (start as usize, end as usize)
}

pub open spec fn upper_bound(v: VersionSpan, e: Edge) -> Interval<VersionSpan> {
    Interval::spec_new(v, e, Direction::Left)
}

pub open spec fn lower_bound(v: VersionSpan, e: Edge) -> Interval<VersionSpan> {
    Interval::spec_new(v, e, Direction::Right)
}

/// `(,v)` or `(,v]`: no lower bound.
pub open spec fn spec_left_unbounded_interval(
    s: Seq<u8>,
    ends: Seq<Option<usize>>,
    p: int,
) -> Option<(int, IntervalPair)> {
    match spec_char_then_spaces(s, p, LEFT_PAREN) {
        None => None,
        Some(q1) => match spec_delimiter(s, q1) {
            None => None,
            Some(q2) => match spec_version_end(s, ends, q2) {
                None => None,
                Some(q3) => match spec_right_edge(s, q3) {
                    None => None,
                    Some((q4, e)) => Some((q4, (None, Some(upper_bound(span(q2, q3), e))))),
                },
            },
        },
    }
}

/// What follows `[v`: `]` for the single version `v`; or a comma, an optional
/// version and a right edge. Gives the end, the upper version and its edge.
pub open spec fn spec_after_closed_lower(
    s: Seq<u8>,
    ends: Seq<Option<usize>>,
    q1: int,
    q2: int,
) -> Option<(int, Option<VersionSpan>, Edge)> {
    match spec_delimiter(s, q2) {
        Some(q3) => {
            let (q4, upper) = match spec_version_end(s, ends, q3) {
                Some(q4) => (q4, Some(span(q3, q4))),
                None => (q3, None),
            };
            match spec_right_edge(s, q4) {
                Some((q5, e)) => Some((q5, upper, e)),
                None => None,
            }
        },
        None => match spec_spaces_then_char(s, q2, RIGHT_BRACKET) {
            Some(q3) => Some((q3, Some(span(q1, q2)), Edge::Closed)),
            None => None,
        },
    }
}

/// What follows `(v`: a comma, then `)`, or a version and a right edge.
pub open spec fn spec_after_open_lower(s: Seq<u8>, ends: Seq<Option<usize>>, q2: int) -> Option<
    (int, Option<VersionSpan>, Edge),
> {
    match spec_delimiter(s, q2) {
        None => None,
        Some(q3) => match spec_spaces_then_char(s, q3, RIGHT_PAREN) {
            Some(q4) => Some((q4, None, Edge::Open)),
            None => match spec_version_end(s, ends, q3) {
                None => None,
                Some(q4) => match spec_right_edge(s, q4) {
                    Some((q5, e)) => Some((q5, Some(span(q3, q4)), e)),
                    None => None,
                },
            },
        },
    }
}

/// `[v]`, or a left edge and a version, a comma, and what may follow.
pub open spec fn spec_left_bounded_interval(
    s: Seq<u8>,
    ends: Seq<Option<usize>>,
    p: int,
) -> Option<(int, IntervalPair)> {
    match spec_left_edge(s, p) {
        None => None,
        Some((q1, left)) => match spec_version_end(s, ends, q1) {
            None => None,
            Some(q2) => {
                let rest = if left == Edge::Closed {
                    spec_after_closed_lower(s, ends, q1, q2)
                } else {
                    spec_after_open_lower(s, ends, q2)
                };
                match rest {
                    None => None,
                    Some((end, upper, e)) => {
                        let lower = lower_bound(span(q1, q2), left);
                        let upper = match upper {
                            Some(v) => Some(upper_bound(v, e)),
                            None => None,
                        };
                        Some((end, (Some(lower), upper)))
                    },
                }
            },
        },
    }
}

/// One interval: the unbounded-below form first, else the bounded-below form.
pub open spec fn spec_interval(s: Seq<u8>, ends: Seq<Option<usize>>, p: int) -> Option<
    (int, IntervalPair),
> {
    match spec_left_unbounded_interval(s, ends, p) {
        Some(r) => Some(r),
        None => spec_left_bounded_interval(s, ends, p),
    }
}

/// The intervals that follow, each after a comma, from `p` on. A comma that is
/// not followed by an interval is left unread.
pub open spec fn spec_more_intervals(s: Seq<u8>, ends: Seq<Option<usize>>, p: int) -> (
    int,
    Seq<IntervalPair>,
)
    decreases s.len() - p,
    when 0 <= p <= s.len()
{
    match spec_delimiter(s, p) {
        None => (p, Seq::empty()),
        Some(q) => match spec_interval(s, ends, q) {
            None => (p, Seq::empty()),
            Some((r, pair)) => {
                proof {
                    lemma_delimiter_advances(s, p);
                    lemma_interval_advances(s, ends, q);
                }
                let (e, rest) = spec_more_intervals(s, ends, r);
                (e, seq![pair] + rest)
            },
        },
    }
}

/// A range from `p`: one interval, then more, each after a comma. Gives the
/// offset where the range ends and its intervals in order.
pub open spec fn spec_range_from(s: Seq<u8>, ends: Seq<Option<usize>>, p: int) -> Option<
    (int, Seq<IntervalPair>),
> {
    match spec_interval(s, ends, p) {
        None => None,
        Some((r, pair)) => {
            let (e, rest) = spec_more_intervals(s, ends, r);
            Some((e, seq![pair] + rest))
        },
    }
}

/// A run of spaces ends inside the text.
pub proof fn lemma_skip_spaces_bounds(s: Seq<u8>, p: int)
    requires
        0 <= p <= s.len(),
    ensures
        p <= spec_skip_spaces(s, p) <= s.len(),
    decreases s.len() - p,
{
    if p < s.len() && is_space(s[p]) {
        lemma_skip_spaces_bounds(s, p + 1);
    }
}

/// A comma with its spaces takes at least one byte and ends inside the text.
pub proof fn lemma_delimiter_advances(s: Seq<u8>, p: int)
    requires
        0 <= p <= s.len(),
    ensures
        spec_delimiter(s, p) matches Some(q) ==> p < q <= s.len(),
{
    lemma_skip_spaces_bounds(s, p);
    let q = spec_skip_spaces(s, p);
    if byte_at(s, q, COMMA) {
        lemma_skip_spaces_bounds(s, q + 1);
    }
}

/// A right edge takes at least one byte and ends inside the text.
pub proof fn lemma_right_edge_advances(s: Seq<u8>, p: int)
    requires
        0 <= p <= s.len(),
    ensures
        spec_right_edge(s, p) matches Some((q, _)) ==> p < q <= s.len(),
{
    lemma_skip_spaces_bounds(s, p);
}

/// An interval takes at least one byte and ends inside the text.
pub proof fn lemma_interval_advances(s: Seq<u8>, ends: Seq<Option<usize>>, p: int)
    requires
        0 <= p <= s.len(),
    ensures
        spec_interval(s, ends, p) matches Some((q, _)) ==> p < q <= s.len(),
{
    if byte_at(s, p, LEFT_PAREN) || byte_at(s, p, LEFT_BRACKET) {
        let q1 = spec_skip_spaces(s, p + 1);
        lemma_skip_spaces_bounds(s, p + 1);
        lemma_delimiter_advances(s, q1);
        if let Some(q2) = spec_delimiter(s, q1) {
            if let Some(q3) = spec_version_end(s, ends, q2) {
                lemma_right_edge_advances(s, q3);
            }
        }
        if let Some(q2) = spec_version_end(s, ends, q1) {
            lemma_delimiter_advances(s, q2);
            lemma_skip_spaces_bounds(s, q2);
            if let Some(q3) = spec_delimiter(s, q2) {
                lemma_skip_spaces_bounds(s, q3);
                if let Some(q4) = spec_version_end(s, ends, q3) {
                    lemma_right_edge_advances(s, q4);
                } else {
                    lemma_right_edge_advances(s, q3);
                }
            }
        }
    }
}

/// A parsed interval has at least one bound; its lower bound admits versions
/// to the right of its position and its upper bound those to the left.
pub open spec fn faces_inward(pair: IntervalPair) -> bool {
    &&& pair.0 is Some || pair.1 is Some
    &&& pair.0 matches Some(lower) ==> lower.bound_direction() == Direction::Right
    &&& pair.1 matches Some(upper) ==> upper.bound_direction() == Direction::Left
}

/// Each bound of the interval stands at a version that the table declares:
/// its span runs from an offset to where the version starting there ends.
pub open spec fn bounds_are_versions(s: Seq<u8>, ends: Seq<Option<usize>>, pair: IntervalPair) -> bool {
    &&& pair.0 matches Some(lower) ==> spec_version_end(s, ends, lower.position().0 as int) == Some(
        lower.position().1 as int,
    )
    &&& pair.1 matches Some(upper) ==> spec_version_end(s, ends, upper.position().0 as int) == Some(
        upper.position().1 as int,
    )
}

/// The bounds the grammar builds stand where and face as they were made.
proof fn lemma_bound_parts()
    ensures
        forall|v: VersionSpan, e: Edge|
            #![trigger upper_bound(v, e)]
            upper_bound(v, e).position() == v && upper_bound(v, e).bound_direction()
                == Direction::Left,
        forall|v: VersionSpan, e: Edge|
            #![trigger lower_bound(v, e)]
            lower_bound(v, e).position() == v && lower_bound(v, e).bound_direction()
                == Direction::Right,
{
    assert forall|v: VersionSpan, e: Edge|
        upper_bound(v, e).position() == v && upper_bound(v, e).bound_direction() == Direction::Left
            && lower_bound(v, e).position() == v && lower_bound(v, e).bound_direction()
            == Direction::Right by {
        Interval::<VersionSpan>::lemma_spec_new_parts(v, e, Direction::Left);
        Interval::<VersionSpan>::lemma_spec_new_parts(v, e, Direction::Right);
    }
}

/// Every interval the grammar reads faces inward, and its bounds stand at
/// versions that the table declares.
pub proof fn lemma_interval_faces_inward(s: Seq<u8>, ends: Seq<Option<usize>>, p: int)
    requires
        0 <= p <= s.len(),
    ensures
        spec_interval(s, ends, p) matches Some((_, pair)) ==> faces_inward(pair)
            && bounds_are_versions(s, ends, pair),
{
    lemma_bound_parts();
    lemma_interval_advances(s, ends, p);
    if byte_at(s, p, LEFT_PAREN) || byte_at(s, p, LEFT_BRACKET) {
        let q1 = spec_skip_spaces(s, p + 1);
        lemma_skip_spaces_bounds(s, p + 1);
        lemma_delimiter_advances(s, q1);
        if let Some(q2) = spec_version_end(s, ends, q1) {
            lemma_delimiter_advances(s, q2);
        }
    }
}

/// The intervals read after the first all face inward with their bounds at
/// declared versions, and reading stops between `p` and the end of the text.
pub proof fn lemma_more_intervals_shape(s: Seq<u8>, ends: Seq<Option<usize>>, p: int)
    requires
        0 <= p <= s.len(),
    ensures
        p <= spec_more_intervals(s, ends, p).0 <= s.len(),
        forall|i: int|
            0 <= i < spec_more_intervals(s, ends, p).1.len() ==> faces_inward(
                #[trigger] spec_more_intervals(s, ends, p).1[i],
            ) && bounds_are_versions(s, ends, spec_more_intervals(s, ends, p).1[i]),
    decreases s.len() - p,
{
    if let Some(q) = spec_delimiter(s, p) {
        lemma_delimiter_advances(s, p);
        if let Some((r, pair)) = spec_interval(s, ends, q) {
            lemma_interval_advances(s, ends, q);
            lemma_interval_faces_inward(s, ends, q);
            lemma_more_intervals_shape(s, ends, r);
            let rest = spec_more_intervals(s, ends, r).1;
            assert forall|i: int| 0 <= i < (seq![pair] + rest).len() implies faces_inward(
                #[trigger] (seq![pair] + rest)[i],
            ) && bounds_are_versions(s, ends, (seq![pair] + rest)[i]) by {
                if i > 0 {
                    assert((seq![pair] + rest)[i] == rest[i - 1]);
                }
            }
        }
    }
}

/// A range read from the start of the text ends inside the text, holds at
/// least one interval, and each of its intervals faces inward with its bounds
/// at versions that the table declares.
pub proof fn lemma_range_shape(s: Seq<u8>, ends: Seq<Option<usize>>)
    ensures
        spec_range_from(s, ends, 0) matches Some((e, pairs)) ==> {
            &&& 0 < e <= s.len()
            &&& pairs.len() >= 1
            &&& forall|i: int|
                0 <= i < pairs.len() ==> faces_inward(#[trigger] pairs[i]) && bounds_are_versions(
                    s,
                    ends,
                    pairs[i],
                )
        },
{
    if let Some((r, pair)) = spec_interval(s, ends, 0) {
        lemma_interval_advances(s, ends, 0);
        lemma_interval_faces_inward(s, ends, 0);
        lemma_more_intervals_shape(s, ends, r);
        let rest = spec_more_intervals(s, ends, r).1;
        assert forall|i: int| 0 <= i < (seq![pair] + rest).len() implies faces_inward(
            #[trigger] (seq![pair] + rest)[i],
        ) && bounds_are_versions(s, ends, (seq![pair] + rest)[i]) by {
            if i > 0 {
                assert((seq![pair] + rest)[i] == rest[i - 1]);
            }
        }
    }
}

/// The bytes from `a` up to `b` are spaces or tabs, and `b` ends that run.
pub open spec fn spaces_to(s: Seq<u8>, a: int, b: int) -> bool {
    &&& 0 <= a <= b <= s.len()
    &&& forall|i: int| a <= i < b ==> is_space(#[trigger] s[i])
    &&& (b < s.len() ==> !is_space(s[b]))
}

/// The table declares a version from `a` to `b` inside the text.
pub open spec fn declares(s: Seq<u8>, ends: Seq<Option<usize>>, a: int, b: int) -> bool {
    &&& 0 <= a < ends.len()
    &&& ends[a] matches Some(e) && e == b
    &&& a <= b <= s.len()
}

/// A closing bracket: `)` or `]`.
pub open spec fn is_closing(c: u8) -> bool {
    c == RIGHT_PAREN || c == RIGHT_BRACKET
}

/// `)` leaves its bound open, `]` closed.
pub open spec fn closing_edge(c: u8) -> Edge {
    if c == RIGHT_PAREN {
        Edge::Open
    } else {
        Edge::Closed
    }
}

/// A run of spaces that ends at `b` is skipped to `b`.
pub proof fn lemma_spaces_to_skip(s: Seq<u8>, a: int, b: int)
    requires
        spaces_to(s, a, b),
    ensures
        spec_skip_spaces(s, a) == b,
    decreases b - a,
{
    if a < b {
        assert(is_space(s[a]));
        lemma_spaces_to_skip(s, a + 1, b);
    }
}

/// A comma with spaces around it is read up to the end of the spaces after
/// it; where the first byte after the spaces is not a comma, nothing is read.
pub proof fn lemma_delimiter_reads_comma(s: Seq<u8>, p: int, c: int, q: int)
    requires
        spaces_to(s, p, c),
    ensures
        c < s.len() && s[c] == COMMA && spaces_to(s, c + 1, q) ==> spec_delimiter(s, p) == Some(q),
        !(c < s.len() && s[c] == COMMA) ==> spec_delimiter(s, p) is None,
{
    lemma_spaces_to_skip(s, p, c);
    if c < s.len() && s[c] == COMMA && spaces_to(s, c + 1, q) {
        lemma_spaces_to_skip(s, c + 1, q);
    }
}

/// `( , v )` or `( , v ]` at `p`: `(` at `p`, spaces up to a comma at `a`,
/// spaces up to a version from `b` to `c`, spaces up to a closing bracket at `d`.
pub open spec fn unbounded_below_at(
    s: Seq<u8>,
    ends: Seq<Option<usize>>,
    p: int,
    a: int,
    b: int,
    c: int,
    d: int,
) -> bool {
    &&& byte_at(s, p, LEFT_PAREN)
    &&& spaces_to(s, p + 1, a)
    &&& byte_at(s, a, COMMA)
    &&& spaces_to(s, a + 1, b)
    &&& declares(s, ends, b, c)
    &&& spaces_to(s, c, d)
    &&& d < s.len() && is_closing(s[d])
}

/// `[ v ]` at `p`: `[` at `p`, spaces up to a version from `a` to `b`, spaces
/// up to `]` at `c`.
pub open spec fn single_version_at(
    s: Seq<u8>,
    ends: Seq<Option<usize>>,
    p: int,
    a: int,
    b: int,
    c: int,
) -> bool {
    &&& byte_at(s, p, LEFT_BRACKET)
    &&& spaces_to(s, p + 1, a)
    &&& declares(s, ends, a, b)
    &&& spaces_to(s, b, c)
    &&& byte_at(s, c, RIGHT_BRACKET)
}

/// A left bracket `open` at `p`, spaces up to a version from `a` to `b`,
/// spaces up to a comma at `c`, spaces up to `d`.
pub open spec fn lower_and_comma_at(
    s: Seq<u8>,
    ends: Seq<Option<usize>>,
    open: u8,
    p: int,
    a: int,
    b: int,
    c: int,
    d: int,
) -> bool {
    &&& byte_at(s, p, open)
    &&& spaces_to(s, p + 1, a)
    &&& declares(s, ends, a, b)
    &&& spaces_to(s, b, c)
    &&& byte_at(s, c, COMMA)
    &&& spaces_to(s, c + 1, d)
}

/// `[ v , w )` or `[ v , w ]` at `p`, with `w` from `d` to `e` and the closing
/// bracket at `f` after spaces.
pub open spec fn closed_below_bounded_above_at(
    s: Seq<u8>,
    ends: Seq<Option<usize>>,
    p: int,
    a: int,
    b: int,
    c: int,
    d: int,
    e: int,
    f: int,
) -> bool {
    &&& lower_and_comma_at(s, ends, LEFT_BRACKET, p, a, b, c, d)
    &&& declares(s, ends, d, e)
    &&& spaces_to(s, e, f)
    &&& f < s.len() && is_closing(s[f])
}

/// `[ v , )` or `[ v , ]` at `p`, with no version at `d` and the closing
/// bracket there.
pub open spec fn closed_below_unbounded_above_at(
    s: Seq<u8>,
    ends: Seq<Option<usize>>,
    p: int,
    a: int,
    b: int,
    c: int,
    d: int,
) -> bool {
    &&& lower_and_comma_at(s, ends, LEFT_BRACKET, p, a, b, c, d)
    &&& spec_version_end(s, ends, d) is None
    &&& d < s.len() && is_closing(s[d])
}

/// `( v , )` at `p`, with the version not starting at a comma.
pub open spec fn open_below_unbounded_above_at(
    s: Seq<u8>,
    ends: Seq<Option<usize>>,
    p: int,
    a: int,
    b: int,
    c: int,
    d: int,
) -> bool {
    &&& lower_and_comma_at(s, ends, LEFT_PAREN, p, a, b, c, d)
    &&& !byte_at(s, a, COMMA)
    &&& byte_at(s, d, RIGHT_PAREN)
}

/// `( v , w )` or `( v , w ]` at `p`, with `v` not starting at a comma, `w`
/// from `d` to `e` and the closing bracket at `f` after spaces.
pub open spec fn open_below_bounded_above_at(
    s: Seq<u8>,
    ends: Seq<Option<usize>>,
    p: int,
    a: int,
    b: int,
    c: int,
    d: int,
    e: int,
    f: int,
) -> bool {
    &&& lower_and_comma_at(s, ends, LEFT_PAREN, p, a, b, c, d)
    &&& !byte_at(s, a, COMMA)
    &&& !byte_at(s, d, RIGHT_PAREN)
    &&& declares(s, ends, d, e)
    &&& spaces_to(s, e, f)
    &&& f < s.len() && is_closing(s[f])
}

/// At an offset that holds neither `(` nor `[`, no interval is read.
pub proof fn lemma_interval_needs_left_bracket(s: Seq<u8>, ends: Seq<Option<usize>>, p: int)
    requires
        !byte_at(s, p, LEFT_PAREN),
        !byte_at(s, p, LEFT_BRACKET),
    ensures
        spec_interval(s, ends, p) is None,
{
}

/// `( , v )` and `( , v ]`: no lower bound, and an upper bound at `v` whose
/// edge the closing bracket gives.
pub proof fn lemma_interval_unbounded_below(
    s: Seq<u8>,
    ends: Seq<Option<usize>>,
    p: int,
    a: int,
    b: int,
    c: int,
    d: int,
)
    requires
        unbounded_below_at(s, ends, p, a, b, c, d),
    ensures
        spec_interval(s, ends, p) == Some(
            (
                d + 1,
                (None::<Interval<VersionSpan>>, Some(upper_bound(span(b, c), closing_edge(s[d])))),
            ),
        ),
{
    lemma_spaces_to_skip(s, p + 1, a);
    lemma_delimiter_reads_comma(s, a, a, b);
    lemma_spaces_to_skip(s, c, d);
}

/// `[ v ]`: both bounds closed at `v`.
pub proof fn lemma_interval_single_version(
    s: Seq<u8>,
    ends: Seq<Option<usize>>,
    p: int,
    a: int,
    b: int,
    c: int,
)
    requires
        single_version_at(s, ends, p, a, b, c),
    ensures
        spec_interval(s, ends, p) == Some(
            (
                c + 1,
                (
                    Some(lower_bound(span(a, b), Edge::Closed)),
                    Some(upper_bound(span(a, b), Edge::Closed)),
                ),
            ),
        ),
{
    lemma_spaces_to_skip(s, p + 1, a);
    lemma_delimiter_reads_comma(s, b, c, c);
    lemma_spaces_to_skip(s, b, c);
}

/// `[ v , w )` and `[ v , w ]`: a closed lower bound at `v` and an upper bound
/// at `w` whose edge the closing bracket gives.
pub proof fn lemma_interval_closed_below_bounded_above(
    s: Seq<u8>,
    ends: Seq<Option<usize>>,
    p: int,
    a: int,
    b: int,
    c: int,
    d: int,
    e: int,
    f: int,
)
    requires
        closed_below_bounded_above_at(s, ends, p, a, b, c, d, e, f),
    ensures
        spec_interval(s, ends, p) == Some(
            (
                f + 1,
                (
                    Some(lower_bound(span(a, b), Edge::Closed)),
                    Some(upper_bound(span(d, e), closing_edge(s[f]))),
                ),
            ),
        ),
{
    lemma_spaces_to_skip(s, p + 1, a);
    lemma_delimiter_reads_comma(s, b, c, d);
    lemma_spaces_to_skip(s, e, f);
}

/// `[ v , )` and `[ v , ]`, with no version after the comma: a closed lower
/// bound at `v` and no upper bound.
pub proof fn lemma_interval_closed_below_unbounded_above(
    s: Seq<u8>,
    ends: Seq<Option<usize>>,
    p: int,
    a: int,
    b: int,
    c: int,
    d: int,
)
    requires
        closed_below_unbounded_above_at(s, ends, p, a, b, c, d),
    ensures
        spec_interval(s, ends, p) == Some(
            (d + 1, (Some(lower_bound(span(a, b), Edge::Closed)), None::<Interval<VersionSpan>>)),
        ),
{
    lemma_spaces_to_skip(s, p + 1, a);
    lemma_delimiter_reads_comma(s, b, c, d);
    lemma_spaces_to_skip(s, d, d);
}

/// `( v , )`: an open lower bound at `v` and no upper bound, at any offset of
/// the text.
pub proof fn lemma_interval_open_below_unbounded_above(
    s: Seq<u8>,
    ends: Seq<Option<usize>>,
    p: int,
    a: int,
    b: int,
    c: int,
    d: int,
)
    requires
        open_below_unbounded_above_at(s, ends, p, a, b, c, d),
    ensures
        spec_interval(s, ends, p) == Some(
            (d + 1, (Some(lower_bound(span(a, b), Edge::Open)), None::<Interval<VersionSpan>>)),
        ),
{
    lemma_spaces_to_skip(s, p + 1, a);
    lemma_delimiter_reads_comma(s, a, a, a);
    lemma_delimiter_reads_comma(s, b, c, d);
    lemma_spaces_to_skip(s, d, d);
}

/// `( v , w )` and `( v , w ]`: an open lower bound at `v` and an upper bound at
/// `w` whose edge the closing bracket gives.
pub proof fn lemma_interval_open_below_bounded_above(
    s: Seq<u8>,
    ends: Seq<Option<usize>>,
    p: int,
    a: int,
    b: int,
    c: int,
    d: int,
    e: int,
    f: int,
)
    requires
        open_below_bounded_above_at(s, ends, p, a, b, c, d, e, f),
    ensures
        spec_interval(s, ends, p) == Some(
            (
                f + 1,
                (
                    Some(lower_bound(span(a, b), Edge::Open)),
                    Some(upper_bound(span(d, e), closing_edge(s[f]))),
                ),
            ),
        ),
{
    lemma_spaces_to_skip(s, p + 1, a);
    lemma_delimiter_reads_comma(s, a, a, a);
    lemma_delimiter_reads_comma(s, b, c, d);
    lemma_spaces_to_skip(s, d, d);
    lemma_spaces_to_skip(s, e, f);
}

/// The run of spaces from `a` ends where `spec_skip_spaces` stops.
pub proof fn lemma_skip_spaces_is_run(s: Seq<u8>, a: int)
    requires
        0 <= a <= s.len(),
    ensures
        spaces_to(s, a, spec_skip_spaces(s, a)),
    decreases s.len() - a,
{
    if a < s.len() && is_space(s[a]) {
        lemma_skip_spaces_is_run(s, a + 1);
    }
}

/// Where the table declares no version starting at a comma, every interval
/// that is read has one of the six forms above, and is what that form gives.
pub proof fn lemma_interval_reads_only_these_forms(s: Seq<u8>, ends: Seq<Option<usize>>, p: int)
    requires
        0 <= p <= s.len(),
        forall|i: int| byte_at(s, i, COMMA) ==> #[trigger] spec_version_end(s, ends, i) is None,
    ensures
        spec_interval(s, ends, p) matches Some((q, pair)) ==> {
            ||| exists|a: int, b: int, c: int, d: int|
                #[trigger] unbounded_below_at(s, ends, p, a, b, c, d) && q == d + 1 && pair == (
                None::<Interval<VersionSpan>>,
                Some(upper_bound(span(b, c), closing_edge(s[d]))),
            )
            ||| exists|a: int, b: int, c: int|
                #[trigger] single_version_at(s, ends, p, a, b, c) && q == c + 1 && pair == (
                Some(lower_bound(span(a, b), Edge::Closed)),
                Some(upper_bound(span(a, b), Edge::Closed)),
            )
            ||| exists|a: int, b: int, c: int, d: int, e: int, f: int|
                #[trigger] closed_below_bounded_above_at(s, ends, p, a, b, c, d, e, f) && q == f + 1
                    && pair == (
                    Some(lower_bound(span(a, b), Edge::Closed)),
                    Some(upper_bound(span(d, e), closing_edge(s[f]))),
                )
            ||| exists|a: int, b: int, c: int, d: int|
                #[trigger] closed_below_unbounded_above_at(s, ends, p, a, b, c, d) && q == d + 1
                    && pair == (
                    Some(lower_bound(span(a, b), Edge::Closed)),
                    None::<Interval<VersionSpan>>,
                )
            ||| exists|a: int, b: int, c: int, d: int|
                #[trigger] open_below_unbounded_above_at(s, ends, p, a, b, c, d) && q == d + 1
                    && pair == (
                    Some(lower_bound(span(a, b), Edge::Open)),
                    None::<Interval<VersionSpan>>,
                )
            ||| exists|a: int, b: int, c: int, d: int, e: int, f: int|
                #[trigger] open_below_bounded_above_at(s, ends, p, a, b, c, d, e, f) && q == f + 1
                    && pair == (
                    Some(lower_bound(span(a, b), Edge::Open)),
                    Some(upper_bound(span(d, e), closing_edge(s[f]))),
                )
        },
{
    if spec_interval(s, ends, p) is None {
        return;
    }
    if p >= s.len() {
        return;
    }
    let a = spec_skip_spaces(s, p + 1);
    lemma_skip_spaces_bounds(s, p + 1);
    lemma_skip_spaces_is_run(s, p + 1);
    if byte_at(s, p, LEFT_PAREN) && byte_at(s, a, COMMA) {
        let b = spec_skip_spaces(s, a + 1);
        lemma_skip_spaces_bounds(s, a + 1);
        lemma_skip_spaces_is_run(s, a + 1);
        lemma_delimiter_reads_comma(s, a, a, b);
        assert(spec_version_end(s, ends, a) is None);
        let c = spec_version_end(s, ends, b).unwrap();
        let d = spec_skip_spaces(s, c);
        lemma_skip_spaces_bounds(s, c);
        lemma_skip_spaces_is_run(s, c);
        assert(unbounded_below_at(s, ends, p, a, b, c, d));
        lemma_interval_unbounded_below(s, ends, p, a, b, c, d);
        return;
    }
    let b = spec_version_end(s, ends, a).unwrap();
    let c = spec_skip_spaces(s, b);
    lemma_skip_spaces_bounds(s, b);
    lemma_skip_spaces_is_run(s, b);
    if byte_at(s, c, COMMA) {
        let d = spec_skip_spaces(s, c + 1);
        lemma_skip_spaces_bounds(s, c + 1);
        lemma_skip_spaces_is_run(s, c + 1);
        lemma_delimiter_reads_comma(s, b, c, d);
        if byte_at(s, p, LEFT_BRACKET) {
            if let Some(e) = spec_version_end(s, ends, d) {
                let f = spec_skip_spaces(s, e);
                lemma_skip_spaces_bounds(s, e);
                lemma_skip_spaces_is_run(s, e);
                assert(closed_below_bounded_above_at(s, ends, p, a, b, c, d, e, f));
                lemma_interval_closed_below_bounded_above(s, ends, p, a, b, c, d, e, f);
            } else {
                lemma_skip_spaces_is_run(s, d);
                lemma_spaces_to_skip(s, d, d);
                assert(closed_below_unbounded_above_at(s, ends, p, a, b, c, d));
                lemma_interval_closed_below_unbounded_above(s, ends, p, a, b, c, d);
            }
        } else {
            lemma_delimiter_reads_comma(s, a, a, a);
            lemma_spaces_to_skip(s, d, d);
            if byte_at(s, d, RIGHT_PAREN) {
                assert(open_below_unbounded_above_at(s, ends, p, a, b, c, d));
                lemma_interval_open_below_unbounded_above(s, ends, p, a, b, c, d);
            } else {
                let e = spec_version_end(s, ends, d).unwrap();
                let f = spec_skip_spaces(s, e);
                lemma_skip_spaces_bounds(s, e);
                lemma_skip_spaces_is_run(s, e);
                assert(open_below_bounded_above_at(s, ends, p, a, b, c, d, e, f));
                lemma_interval_open_below_bounded_above(s, ends, p, a, b, c, d, e, f);
            }
        }
    } else {
        lemma_delimiter_reads_comma(s, b, c, c);
        assert(single_version_at(s, ends, p, a, b, c));
        lemma_interval_single_version(s, ends, p, a, b, c);
    }
}

/// A range starts where an interval can be read, and only there.
pub proof fn lemma_range_starts_with_interval(s: Seq<u8>, ends: Seq<Option<usize>>, p: int)
    ensures
        spec_range_from(s, ends, p) is None <==> spec_interval(s, ends, p) is None,
{
}

/// A range is its first interval, read at its start, followed either by
/// nothing, or by a comma and the range that starts after that comma: every
/// interval of a range is what `interval` reads at its own offset, whichever
/// bracket closed the interval before it.
pub proof fn lemma_range_is_interval_then_range(s: Seq<u8>, ends: Seq<Option<usize>>, p: int)
    requires
        0 <= p <= s.len(),
    ensures
        spec_range_from(s, ends, p) matches Some((e, pairs)) ==> {
            &&& spec_interval(s, ends, p) matches Some((r, first))
            &&& pairs[0] == first
            &&& pairs.len() == 1 ==> e == r
            &&& pairs.len() > 1 ==> (spec_delimiter(s, r) matches Some(q) && spec_range_from(
                s,
                ends,
                q,
            ) == Some((e, pairs.skip(1))))
        },
{
    if let Some((r, first)) = spec_interval(s, ends, p) {
        lemma_interval_advances(s, ends, p);
        let (e, rest) = spec_more_intervals(s, ends, r);
        if let Some(q) = spec_delimiter(s, r) {
            lemma_delimiter_advances(s, r);
            if let Some((r2, second)) = spec_interval(s, ends, q) {
                lemma_interval_advances(s, ends, q);
                assert((seq![first] + rest).skip(1) =~= rest);
            }
        }
    }
}

/// A range does not stop while a comma and another interval follow it: where
/// it ends, either no comma comes next or no interval follows the comma.
pub proof fn lemma_range_reads_every_interval(s: Seq<u8>, ends: Seq<Option<usize>>, p: int)
    requires
        0 <= p <= s.len(),
    ensures
        spec_range_from(s, ends, p) matches Some((e, _)) ==> !(spec_delimiter(s, e) matches Some(
            q,
        ) && spec_interval(s, ends, q) is Some),
{
    if let Some((r, _)) = spec_interval(s, ends, p) {
        lemma_interval_advances(s, ends, p);
        lemma_more_intervals_stop(s, ends, r);
    }
}

/// Reading more intervals stops only where no comma and interval follow.
pub proof fn lemma_more_intervals_stop(s: Seq<u8>, ends: Seq<Option<usize>>, p: int)
    requires
        0 <= p <= s.len(),
    ensures
        ({
            let e = spec_more_intervals(s, ends, p).0;
            !(spec_delimiter(s, e) matches Some(q) && spec_interval(s, ends, q) is Some)
        }),
    decreases s.len() - p,
{
    if let Some(q) = spec_delimiter(s, p) {
        lemma_delimiter_advances(s, p);
        if let Some((r, _)) = spec_interval(s, ends, q) {
            lemma_interval_advances(s, ends, q);
            lemma_more_intervals_stop(s, ends, r);
        }
    }
}

/// An offset found by an executable parser, as the integer the grammar speaks of.
pub open spec fn at(o: Option<usize>) -> Option<int> {
    match o {
        Some(q) => Some(q as int),
        None => None,
    }
}

pub open spec fn at_edge(o: Option<(usize, Edge)>) -> Option<(int, Edge)> {
    match o {
        Some((q, e)) => Some((q as int, e)),
        None => None,
    }
}

pub open spec fn at_pair(o: Option<(usize, IntervalPair)>) -> Option<(int, IntervalPair)> {
    match o {
        Some((q, pair)) => Some((q as int, pair)),
        None => None,
    }
}

pub open spec fn at_upper(o: Option<(usize, Option<VersionSpan>, Edge)>) -> Option<
    (int, Option<VersionSpan>, Edge),
> {
    match o {
        Some((q, v, e)) => Some((q as int, v, e)),
        None => None,
    }
}

fn is_space_byte(b: u8) -> (r: bool)
    ensures
        r == is_space(b),
{
    b == SPACE || b == TAB
}

fn has_byte(s: &[u8], p: usize, b: u8) -> (r: bool)
    ensures
        r == byte_at(s@, p as int, b),
{
    p < s.len() && s[p] == b
}

fn skip_spaces(s: &[u8], p: usize) -> (r: usize)
    requires
        p <= s.len(),
    ensures
        r == spec_skip_spaces(s@, p as int),
{
    let mut q = p;
    while q < s.len() && is_space_byte(s[q])
        invariant
            p <= q <= s.len(),
            spec_skip_spaces(s@, q as int) == spec_skip_spaces(s@, p as int),
        decreases s.len() - q,
    {
        q = q + 1;
    }
    q
}

fn char_then_spaces(s: &[u8], p: usize, b: u8) -> (r: Option<usize>)
    requires
        p <= s.len(),
    ensures
        at(r) == spec_char_then_spaces(s@, p as int, b),
        r matches Some(q) ==> p < q <= s.len(),
{
    if has_byte(s, p, b) {
        proof {
            lemma_skip_spaces_bounds(s@, p + 1);
        }
        Some(skip_spaces(s, p + 1))
    } else {
        None
    }
}

fn spaces_then_char(s: &[u8], p: usize, b: u8) -> (r: Option<usize>)
    requires
        p <= s.len(),
    ensures
        at(r) == spec_spaces_then_char(s@, p as int, b),
        r matches Some(q) ==> p < q <= s.len(),
{
    proof {
        lemma_skip_spaces_bounds(s@, p as int);
    }
    let q = skip_spaces(s, p);
    if has_byte(s, q, b) {
        Some(q + 1)
    } else {
        None
    }
}

fn left_edge(s: &[u8], p: usize) -> (r: Option<(usize, Edge)>)
    requires
        p <= s.len(),
    ensures
        at_edge(r) == spec_left_edge(s@, p as int),
        r matches Some((q, _)) ==> p < q <= s.len(),
{
    match char_then_spaces(s, p, LEFT_PAREN) {
        Some(q) => Some((q, Edge::Open)),
        None => match char_then_spaces(s, p, LEFT_BRACKET) {
            Some(q) => Some((q, Edge::Closed)),
            None => None,
        },
    }
}

fn right_edge(s: &[u8], p: usize) -> (r: Option<(usize, Edge)>)
    requires
        p <= s.len(),
    ensures
        at_edge(r) == spec_right_edge(s@, p as int),
        r matches Some((q, _)) ==> p < q <= s.len(),
{
    match spaces_then_char(s, p, RIGHT_PAREN) {
        Some(q) => Some((q, Edge::Open)),
        None => match spaces_then_char(s, p, RIGHT_BRACKET) {
            Some(q) => Some((q, Edge::Closed)),
            None => None,
        },
    }
}

fn delimiter(s: &[u8], p: usize) -> (r: Option<usize>)
    requires
        p <= s.len(),
    ensures
        at(r) == spec_delimiter(s@, p as int),
        r matches Some(q) ==> p < q <= s.len(),
{
    match spaces_then_char(s, p, COMMA) {
        Some(q) => {
            proof {
                lemma_skip_spaces_bounds(s@, q as int);
            }
            Some(skip_spaces(s, q))
        },
        None => None,
    }
}

fn version_end(s: &[u8], ends: &[Option<usize>], p: usize) -> (r: Option<usize>)
    requires
        p <= s.len(),
    ensures
        at(r) == spec_version_end(s@, ends@, p as int),
        r matches Some(q) ==> p <= q <= s.len(),
{
    if p < ends.len() {
        match ends[p] {
            Some(e) => if p <= e && e <= s.len() {
                Some(e)
            } else {
                None
            },
            None => None,
        }
    } else {
        None
    }
}

fn left_unbounded_interval(s: &[u8], ends: &[Option<usize>], p: usize) -> (r: Option<
    (usize, IntervalPair),
>)
    requires
        p <= s.len(),
    ensures
        at_pair(r) == spec_left_unbounded_interval(s@, ends@, p as int),
{
    let q1 = match char_then_spaces(s, p, LEFT_PAREN) {
        Some(q) => q,
        None => return None,
    };
    let q2 = match delimiter(s, q1) {
        Some(q) => q,
        None => return None,
    };
    let q3 = match version_end(s, ends, q2) {
        Some(q) => q,
        None => return None,
    };
    match right_edge(s, q3) {
        Some((q4, e)) => Some((q4, (None, Some(Interval::new((q2, q3), e, Direction::Left))))),
        None => None,
    }
}

fn after_closed_lower(s: &[u8], ends: &[Option<usize>], q1: usize, q2: usize) -> (r: Option<
    (usize, Option<VersionSpan>, Edge),
>)
    requires
        q1 <= q2 <= s.len(),
    ensures
        at_upper(r) == spec_after_closed_lower(s@, ends@, q1 as int, q2 as int),
{
    match delimiter(s, q2) {
        Some(q3) => {
            let (q4, upper) = match version_end(s, ends, q3) {
                Some(q4) => (q4, Some((q3, q4))),
                None => (q3, None),
            };
            match right_edge(s, q4) {
                Some((q5, e)) => Some((q5, upper, e)),
                None => None,
            }
        },
        None => match spaces_then_char(s, q2, RIGHT_BRACKET) {
            Some(q3) => Some((q3, Some((q1, q2)), Edge::Closed)),
            None => None,
        },
    }
}

fn after_open_lower(s: &[u8], ends: &[Option<usize>], q2: usize) -> (r: Option<
    (usize, Option<VersionSpan>, Edge),
>)
    requires
        q2 <= s.len(),
    ensures
        at_upper(r) == spec_after_open_lower(s@, ends@, q2 as int),
{
    let q3 = match delimiter(s, q2) {
        Some(q) => q,
        None => return None,
    };
    match spaces_then_char(s, q3, RIGHT_PAREN) {
        Some(q4) => Some((q4, None, Edge::Open)),
        None => {
            let q4 = match version_end(s, ends, q3) {
                Some(q) => q,
                None => return None,
            };
            match right_edge(s, q4) {
                Some((q5, e)) => Some((q5, Some((q3, q4)), e)),
                None => None,
            }
        },
    }
}

fn left_bounded_interval(s: &[u8], ends: &[Option<usize>], p: usize) -> (r: Option<
    (usize, IntervalPair),
>)
    requires
        p <= s.len(),
    ensures
        at_pair(r) == spec_left_bounded_interval(s@, ends@, p as int),
{
    let (q1, left) = match left_edge(s, p) {
        Some(x) => x,
        None => return None,
    };
    let q2 = match version_end(s, ends, q1) {
        Some(q) => q,
        None => return None,
    };
    let rest = if left == Edge::Closed {
        after_closed_lower(s, ends, q1, q2)
    } else {
        after_open_lower(s, ends, q2)
    };
    match rest {
        None => None,
        Some((end, upper, e)) => {
            let lower = Interval::new((q1, q2), left, Direction::Right);
            let upper = match upper {
                Some(v) => Some(Interval::new(v, e, Direction::Left)),
                None => None,
            };
            Some((end, (Some(lower), upper)))
        },
    }
}

/// Parses one interval at offset `p` of `s`, given in `version_ends` where the
/// version that starts at each offset ends. Gives the offset after the
/// interval and its bounds.
pub fn interval(s: &[u8], version_ends: &[Option<usize>], p: usize) -> (r: Option<
    (usize, IntervalPair),
>)
    ensures
        at_pair(r) == spec_interval(s@, version_ends@, p as int),
        r matches Some((q, _)) ==> p < q <= s.len(),
{
    if p > s.len() {
        return None;
    }
    proof {
        lemma_interval_advances(s@, version_ends@, p as int);
    }
    match left_unbounded_interval(s, version_ends, p) {
        Some(r) => Some(r),
        None => left_bounded_interval(s, version_ends, p),
    }
}

/// Parses a range at the start of `s`: one or more intervals separated by
/// commas. Gives the offset where the range ends and its intervals in order;
/// `None` when no interval starts the text. `version_ends[i]` tells where the
/// version that starts at offset `i` ends, or that none starts there.
pub fn range(s: &[u8], version_ends: &[Option<usize>]) -> (r: Option<(usize, Vec<IntervalPair>)>)
    ensures
        match spec_range_from(s@, version_ends@, 0) {
            None => r is None,
            Some((e, pairs)) => r matches Some((n, v)) && n == e && v@ == pairs,
        },
        r matches Some((n, v)) ==> 0 < n <= s.len() && v.len() >= 1,
        r matches Some((n, v)) ==> spec_interval(s@, version_ends@, 0) matches Some((_, first))
            && v@[0] == first,
        r matches Some((n, _)) ==> !(spec_delimiter(s@, n as int) matches Some(q) && spec_interval(
            s@,
            version_ends@,
            q,
        ) is Some),
{
    proof {
        lemma_range_shape(s@, version_ends@);
        lemma_range_is_interval_then_range(s@, version_ends@, 0);
        lemma_range_reads_every_interval(s@, version_ends@, 0);
    }
    let (first_end, first) = match interval(s, version_ends, 0) {
        Some(x) => x,
        None => return None,
    };
    let mut pairs: Vec<IntervalPair> = Vec::new();
    pairs.push(first);
    let mut p = first_end;
    loop
        invariant
            first_end <= p <= s.len(),
            spec_interval(s@, version_ends@, 0) == Some((first_end as int, pairs@[0])),
            pairs@.len() >= 1,
            ({
                let (e, rest) = spec_more_intervals(s@, version_ends@, first_end as int);
                let (e2, rest2) = spec_more_intervals(s@, version_ends@, p as int);
                e == e2 && rest == pairs@.skip(1) + rest2
            }),
        ensures
            spec_more_intervals(s@, version_ends@, p as int) == (p as int, Seq::<IntervalPair>::empty()),
        decreases s.len() - p,
    {
        let q = match delimiter(s, p) {
            Some(q) => q,
            None => break,
        };
        let (next_end, pair) = match interval(s, version_ends, q) {
            Some(x) => x,
            None => break,
        };
        proof {
            let (e2, rest2) = spec_more_intervals(s@, version_ends@, next_end as int);
            assert(spec_more_intervals(s@, version_ends@, p as int) == (e2, seq![pair] + rest2));
            assert(pairs@.skip(1) + (seq![pair] + rest2) == pairs@.push(pair).skip(1) + rest2);
        }
        pairs.push(pair);
        p = next_end;
    }
    proof {
        assert(seq![pairs@[0]] + pairs@.skip(1) =~= pairs@);
    }
    Some((p, pairs))
}

} // verus!
