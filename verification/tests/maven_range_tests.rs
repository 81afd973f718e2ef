use maven_range::maven::range::{interval, range, IntervalPair};
use maven_range::range::{Direction, Edge, Interval};

use winnow::ascii::space0;
use winnow::combinator::{alt, opt, separated1};
use winnow::token::take_while;
use winnow::{IResult, Parser};

// The range grammar written with winnow's combinators, rule for rule, with a
// simple version token standing in for a Maven version. Bounds are reported as
// (version text, edge, direction).

type Bound<'a> = (&'a str, Edge, Direction);
type RefPair<'a> = (Option<Bound<'a>>, Option<Bound<'a>>);

fn version(input: &str) -> IResult<&str, &str> {
    take_while(1.., |c: char| c.is_ascii_alphanumeric() || c == '.' || c == '-').parse_next(input)
}

fn left_open_edge_char(input: &str) -> IResult<&str, char> {
    let (input, _) = ('(', space0).parse_next(input)?;
    Ok((input, '('))
}

fn left_open_edge(input: &str) -> IResult<&str, Edge> {
    left_open_edge_char.map(|_| Edge::Open).parse_next(input)
}

fn left_closed_edge_char(input: &str) -> IResult<&str, char> {
    let (input, _) = ('[', space0).parse_next(input)?;
    Ok((input, '['))
}

fn left_closed_edge(input: &str) -> IResult<&str, Edge> {
    left_closed_edge_char.map(|_| Edge::Closed).parse_next(input)
}

fn left_edge(input: &str) -> IResult<&str, Edge> {
    alt((left_open_edge, left_closed_edge)).parse_next(input)
}

fn right_open_edge_char(input: &str) -> IResult<&str, char> {
    let (input, _) = (space0, ')').parse_next(input)?;
    Ok((input, ')'))
}

fn right_open_edge(input: &str) -> IResult<&str, Edge> {
    right_open_edge_char.map(|_| Edge::Open).parse_next(input)
}

fn right_closed_edge_char(input: &str) -> IResult<&str, char> {
    let (input, _) = (space0, ']').parse_next(input)?;
    Ok((input, ']'))
}

fn right_closed_edge(input: &str) -> IResult<&str, Edge> {
    right_closed_edge_char.map(|_| Edge::Closed).parse_next(input)
}

fn right_edge(input: &str) -> IResult<&str, Edge> {
    alt((right_open_edge, right_closed_edge)).parse_next(input)
}

fn delimiter(input: &str) -> IResult<&str, char> {
    let (input, _) = (space0, ',', space0).parse_next(input)?;
    Ok((input, ','))
}

fn left_unbounded_interval(input: &str) -> IResult<&str, RefPair<'_>> {
    (left_open_edge, delimiter, version, right_edge)
        .map(|(_, _, v, e)| (None, Some((v, e, Direction::Left))))
        .parse_next(input)
}

fn left_bounded_interval(input: &str) -> IResult<&str, RefPair<'_>> {
    let (input, (left_edge, left_version)) = (left_edge, version).parse_next(input)?;
    let (input, (right_version, right_edge)) = if left_edge == Edge::Closed {
        let (input, c) = alt((delimiter, right_closed_edge_char)).parse_next(input)?;
        if c == ']' {
            (input, (Some(left_version), Edge::Closed))
        } else {
            (opt(version), right_edge).parse_next(input)?
        }
    } else {
        let (input, _) = delimiter.parse_next(input)?;
        alt((
            right_open_edge.map(|_| (None, Edge::Open)),
            (version, right_edge).map(|(v, e)| (Some(v), e)),
        ))
        .parse_next(input)?
    };
    let left = Some((left_version, left_edge, Direction::Right));
    let right = right_version.map(|v| (v, right_edge, Direction::Left));
    Ok((input, (left, right)))
}

fn ref_interval(input: &str) -> IResult<&str, RefPair<'_>> {
    alt((left_unbounded_interval, left_bounded_interval)).parse_next(input)
}

fn ref_range(input: &str) -> IResult<&str, Vec<RefPair<'_>>> {
    separated1(ref_interval, delimiter).parse_next(input)
}

fn offset_in(base: &str, part: &str) -> usize {
    part.as_ptr() as usize - base.as_ptr() as usize
}

fn to_pair(base: &str, pair: &RefPair<'_>) -> IntervalPair {
    let bound = |b: &Option<Bound<'_>>| {
        b.map(|(v, e, d)| {
            let start = offset_in(base, v);
            Interval::new((start, start + v.len()), e, d)
        })
    };
    (bound(&pair.0), bound(&pair.1))
}

/// Where the version token that starts at each offset ends.
fn version_ends(text: &str) -> Vec<Option<usize>> {
    (0..=text.len())
        .map(|i| {
            if !text.is_char_boundary(i) {
                return None;
            }
            match version(&text[i..]) {
                Ok((rest, _)) => Some(text.len() - rest.len()),
                Err(_) => None,
            }
        })
        .collect()
}

fn expected(text: &str) -> Option<(usize, Vec<IntervalPair>)> {
    match ref_range(text) {
        Ok((rest, pairs)) => Some((
            text.len() - rest.len(),
            pairs.iter().map(|p| to_pair(text, p)).collect(),
        )),
        Err(_) => None,
    }
}

fn parse(text: &str) -> Option<(usize, Vec<IntervalPair>)> {
    range(text.as_bytes(), &version_ends(text))
}

fn lower(start: usize, end: usize, e: Edge) -> Option<Interval<(usize, usize)>> {
    Some(Interval::new((start, end), e, Direction::Right))
}

fn upper(start: usize, end: usize, e: Edge) -> Option<Interval<(usize, usize)>> {
    Some(Interval::new((start, end), e, Direction::Left))
}

#[test]
fn closed_open_interval() {
    assert_eq!(
        parse("[1.0,2.0)"),
        Some((9, vec![(lower(1, 4, Edge::Closed), upper(5, 8, Edge::Open))]))
    );
}

#[test]
fn unbounded_below() {
    assert_eq!(parse("(,1.0]"), Some((6, vec![(None, upper(2, 5, Edge::Closed))])));
}

#[test]
fn exact_version() {
    assert_eq!(
        parse("[1.5]"),
        Some((5, vec![(lower(1, 4, Edge::Closed), upper(1, 4, Edge::Closed))]))
    );
}

#[test]
fn unbounded_above() {
    assert_eq!(parse("[1.0,)"), Some((6, vec![(lower(1, 4, Edge::Closed), None)])));
    assert_eq!(parse("(1.0,)"), Some((6, vec![(lower(1, 4, Edge::Open), None)])));
    assert_eq!(parse("[1.0,]"), Some((6, vec![(lower(1, 4, Edge::Closed), None)])));
}

#[test]
fn open_lower_needs_version_or_paren() {
    assert_eq!(parse("(1.0,]"), None);
}

#[test]
fn several_intervals() {
    assert_eq!(
        parse("(,1.0],[1.2,)"),
        Some((
            13,
            vec![
                (None, upper(2, 5, Edge::Closed)),
                (lower(8, 11, Edge::Closed), None),
            ]
        ))
    );
}

#[test]
fn spaces_inside_brackets() {
    assert_eq!(
        parse("[ 1.0 , 2.0 ]"),
        Some((13, vec![(lower(2, 5, Edge::Closed), upper(8, 11, Edge::Closed))]))
    );
    assert_eq!(
        parse("[\t1.0\t]"),
        Some((7, vec![(lower(2, 5, Edge::Closed), upper(2, 5, Edge::Closed))]))
    );
}

#[test]
fn trailing_comma_is_left_unread() {
    assert_eq!(
        parse("[1.0], "),
        Some((5, vec![(lower(1, 4, Edge::Closed), upper(1, 4, Edge::Closed))]))
    );
    assert_eq!(
        parse("[1.0],x"),
        Some((5, vec![(lower(1, 4, Edge::Closed), upper(1, 4, Edge::Closed))]))
    );
}

#[test]
fn not_a_range() {
    assert_eq!(parse(""), None);
    assert_eq!(parse("1.0"), None);
    assert_eq!(parse(" [1.0]"), None);
    assert_eq!(parse("[1.0"), None);
    assert_eq!(parse("(,)"), None);
    assert_eq!(parse("[,1.0]"), None);
}

#[test]
fn interval_at_an_offset() {
    let text = "xx[1,2]";
    let ends = version_ends(text);
    assert_eq!(
        interval(text.as_bytes(), &ends, 2),
        Some((7, (lower(3, 4, Edge::Closed), upper(5, 6, Edge::Closed))))
    );
    assert_eq!(interval(text.as_bytes(), &ends, 0), None);
    assert_eq!(interval(text.as_bytes(), &ends, 8), None);
}

#[test]
fn version_ends_are_taken_as_given() {
    // A table that declares a version only at offset 1, ending at 2.
    let text = "[ab]";
    let ends = vec![None, Some(2), None, None, None];
    assert_eq!(range(text.as_bytes(), &ends), None);
    let ends = vec![None, Some(3), None, None, None];
    assert_eq!(
        range(text.as_bytes(), &ends),
        Some((4, vec![(lower(1, 3, Edge::Closed), upper(1, 3, Edge::Closed))]))
    );
}

#[test]
fn entries_outside_the_text_declare_no_version() {
    let text = "[ab]";
    // Pointing before its own offset, past the end, or missing altogether.
    assert_eq!(range(text.as_bytes(), &vec![None, Some(0), None, None, None]), None);
    assert_eq!(range(text.as_bytes(), &vec![None, Some(9), None, None, None]), None);
    assert_eq!(range(text.as_bytes(), &vec![None]), None);
    // A table longer than the text is read only where the text has offsets.
    assert_eq!(
        range(text.as_bytes(), &vec![None, Some(3), None, None, None, Some(1), Some(2)]),
        Some((4, vec![(lower(1, 3, Edge::Closed), upper(1, 3, Edge::Closed))]))
    );
}

#[test]
fn agrees_with_the_combinator_grammar_on_samples() {
    let samples = [
        "[1.0,2.0)",
        "(,1.0]",
        "[1.5]",
        "(,1.0],[1.2,)",
        "[1.0,)",
        "(1.0,)",
        "(1.0,2.0]",
        "[ 1.0 , 2.0 ]",
        "[1.0 ]",
        "(1.0,]",
        "[1.0",
        "",
        "abc",
        "[1.0],",
        "[1.0],[",
        "[1.0],(,2.0)",
        "[1.0,2.0],x",
        "\t[1.0]",
        "[\t1.0\t,\t2.0\t)",
        "(,)",
        "[,1.0]",
        "( , 1.0 ]",
        "[1.0,2.0],[3.0,4.0],(,5]",
        "[1.0]   ,   [2.0]",
        "[1-alpha,2-beta)",
        "[é1,2]",
    ];
    for text in samples {
        assert_eq!(parse(text), expected(text), "on {:?}", text);
    }
}

#[test]
fn agrees_with_the_combinator_grammar_on_all_short_texts() {
    let alphabet = ['[', '(', ']', ')', ',', ' ', '1', '.'];
    let mut text = String::new();
    let mut count = 0usize;
    for len in 0..=6u32 {
        let total = alphabet.len().pow(len);
        for mut n in 0..total {
            text.clear();
            for _ in 0..len {
                text.push(alphabet[n % alphabet.len()]);
                n /= alphabet.len();
            }
            assert_eq!(parse(&text), expected(&text), "on {:?}", text);
            count += 1;
        }
    }
    assert!(count > 0);
}

#[test]
fn agrees_with_the_combinator_grammar_on_longer_texts() {
    let alphabet = ['[', '(', ']', ')', ',', ' ', '\t', '1', '2', '.', 'a'];
    let mut seed: u64 = 0x2545_f491_4f6c_dd1d;
    let mut text = String::new();
    for _ in 0..20000 {
        text.clear();
        seed = seed.wrapping_mul(6364136223846793005).wrapping_add(1442695040888963407);
        let len = (seed >> 59) as usize + 4;
        for _ in 0..len {
            seed = seed.wrapping_mul(6364136223846793005).wrapping_add(1442695040888963407);
            text.push(alphabet[(seed >> 33) as usize % alphabet.len()]);
        }
        assert_eq!(parse(&text), expected(&text), "on {:?}", text);
    }
}
