use crate::scores::{with_score, ScoreTable};
use crate::text::{
    chars_of, joined, join_words, lines, lines_of, parse_u32, parsed_u32, remove_commas,
    split_on_spaces, split_spaces, string_from_chars, without_commas,
};
use vstd::prelude::*;

verus! {

/// The words of `ws` that are among `names`, in order.
pub open spec fn known_words(ws: Seq<Seq<char>>, names: Seq<Seq<char>>) -> Seq<Seq<char>>
    decreases ws.len(),
{
    if ws.len() == 0 {
        Seq::empty()
    } else {
        let prev = known_words(ws.drop_last(), names);
        if names.contains(ws.last()) {
            prev.push(ws.last())
        } else {
            prev
        }
    }
}

/// The name of a captured name text: its words (the pieces between spaces)
/// that are character names, joined with single spaces.
pub open spec fn captured_name(name_text: Seq<char>, names: Seq<Seq<char>>) -> Seq<char> {
    joined(known_words(split_spaces(name_text), names))
}

/// The score of a captured score text: the text without commas, read as a
/// score; `None` when that fails.
pub open spec fn captured_score(score_text: Seq<char>) -> Option<u32> {
    parsed_u32(without_commas(score_text))
}

/// Whether `name` is one of `names`.
fn is_known(name: &String, names: &Vec<String>) -> (b: bool)
    ensures
        b == names@.map_values(|n: String| n@).contains(name@),
{
    let ghost all = names@.map_values(|n: String| n@);
    let mut i: usize = 0;
    while i < names.len()
        invariant
            i <= names.len(),
            all == names@.map_values(|n: String| n@),
            forall|j: int| 0 <= j < i ==> all[j] != name@,
        decreases names.len() - i,
    {
        if names[i] == *name {
            assert(all[i as int] == name@);
            return true;
        }
        i = i + 1;
    }
    proof {
        if all.contains(name@) {
            let j = choose|j: int| 0 <= j < all.len() && all[j] == name@;
        }
    }
    false
}

/// The name and score of a captured name text and score text; `None` when
/// the score text cannot be read as a score.
pub fn name_and_score(name_text: &str, score_text: &str, horse_names: &Vec<String>) -> (r: Option<
    (String, u32),
>)
    ensures
        match r {
            Some((name, score)) => name@ == captured_name(
                name_text@,
                horse_names@.map_values(|n: String| n@),
            ) && captured_score(score_text@) == Some(score),
            None => captured_score(score_text@) is None,
        },
{
    let score = parse_u32(&remove_commas(&chars_of(score_text)));
    let score = match score {
        Some(s) => s,
        None => return None,
    };
    let ghost names = horse_names@.map_values(|n: String| n@);
    let pieces = split_on_spaces(&chars_of(name_text));
    let ghost ps = pieces@.map_values(|p: Vec<char>| p@);
    let mut words: Vec<Vec<char>> = Vec::new();
    let mut i: usize = 0;
    assert(ps.take(0) == Seq::<Seq<char>>::empty());
    while i < pieces.len()
        invariant
            i <= pieces.len(),
            ps == pieces@.map_values(|p: Vec<char>| p@),
            names == horse_names@.map_values(|n: String| n@),
            words@.map_values(|w: Vec<char>| w@) == known_words(ps.take(i as int), names),
        decreases pieces.len() - i,
    {
        assert(ps.take(i + 1).drop_last() == ps.take(i as int));
        assert(ps.take(i + 1).last() == pieces@[i as int]@);
        let word = string_from_chars(&pieces[i]);
        if is_known(&word, horse_names) {
            let ghost before = words@;
            let copy = chars_of(word.as_str());
            words.push(copy);
            assert(words@.map_values(|w: Vec<char>| w@) == before.map_values(|w: Vec<char>| w@).push(
                pieces@[i as int]@,
            ));
        }
        i = i + 1;
    }
    assert(ps.take(pieces.len() as int) == ps);
    let name = string_from_chars(&join_words(&words));
    Some((name, score))
}

/// Why reading the lines of a screenshot stopped.
#[derive(Clone, Copy, Debug, PartialEq, Eq, Structural)]
pub enum TessParseError {
    /// The pattern is no regular expression.
    InvalidPattern,
    /// A line matched the pattern but a capture group that the scores need
    /// took no part in the match.
    MissingCaptureGroup,
}

/// Capture groups 1 and 2 of the first match of the regular expression
/// `pattern` in `line`: `None` when `pattern` does not compile, `Some(None)`
/// when it does not match, and otherwise the text of each group, `None` for a
/// group that took no part in the match.
pub uninterp spec fn regex_groups(pattern: Seq<char>, line: Seq<char>) -> Option<
    Option<(Option<Seq<char>>, Option<Seq<char>>)>,
>;

/// The characters of an optional text.
pub open spec fn text_view(t: Option<String>) -> Option<Seq<char>> {
    match t {
        Some(s) => Some(s@),
        None => None,
    }
}

/// The characters of what `capture_groups` returns.
pub open spec fn groups_view(g: Option<Option<(Option<String>, Option<String>)>>) -> Option<
    Option<(Option<Seq<char>>, Option<Seq<char>>)>,
> {
    match g {
        None => None,
        Some(None) => Some(None),
        Some(Some((a, b))) => Some(Some((text_view(a), text_view(b)))),
    }
}

/// Capture groups 1 and 2 of the first match of `pattern` in `line` (see
/// `regex_groups`).
///
/// Trusted: compiles `pattern` with `regex::Regex::new` (default options)
/// and calls `Regex::captures`, `Captures::get` and `Match::as_str`. What
/// they return depends on the pattern and the line alone; the contract
/// names it `regex_groups` and claims nothing more of it.
#[verifier::external_body]
fn capture_groups(pattern: &str, line: &str) -> (r: Option<Option<(Option<String>, Option<String>)>>)
    ensures
        groups_view(r) == regex_groups(pattern@, line@),
{
    let reg = match regex::Regex::new(pattern) { Ok(reg) => reg, Err(_) => return None };
    let caps = match reg.captures(line) { Some(caps) => caps, None => return Some(None) };
    let name = match caps.get(1) { Some(m) => Some(m.as_str().to_string()), None => None };
    let score = match caps.get(2) { Some(m) => Some(m.as_str().to_string()), None => None };
    Some(Some((name, score)))
}

/// What one line whose capture groups are `g` does to the table `t`, and
/// the error it stops the reading with, if any: a line the pattern does not
/// match changes nothing; a matching line with both groups adds its score
/// after those of its name (see `captured_name`), unless its score text is
/// no score; a matching line without both groups is an error, and so is a
/// pattern that does not compile.
pub open spec fn line_step(
    t: Map<Seq<char>, Seq<u32>>,
    g: Option<Option<(Option<Seq<char>>, Option<Seq<char>>)>>,
    names: Seq<Seq<char>>,
) -> (Map<Seq<char>, Seq<u32>>, Option<TessParseError>) {
    match g {
        None => (t, Some(TessParseError::InvalidPattern)),
        Some(None) => (t, None),
        Some(Some((Some(name_text), Some(score_text)))) => match captured_score(score_text) {
            Some(score) => (with_score(t, captured_name(name_text, names), score), None),
            None => (t, None),
        },
        Some(Some(_)) => (t, Some(TessParseError::MissingCaptureGroup)),
    }
}

/// The table after reading the lines `ls` in order with `pattern`, starting
/// from `t`, and the error that stopped the reading, if any; no line after
/// an error is read.
pub open spec fn lines_read(
    t: Map<Seq<char>, Seq<u32>>,
    pattern: Seq<char>,
    ls: Seq<Seq<char>>,
    names: Seq<Seq<char>>,
) -> (Map<Seq<char>, Seq<u32>>, Option<TessParseError>)
    decreases ls.len(),
{
    if ls.len() == 0 {
        (t, None)
    } else {
        let prev = lines_read(t, pattern, ls.drop_last(), names);
        if prev.1 is Some {
            prev
        } else {
            line_step(prev.0, regex_groups(pattern, ls.last()), names)
        }
    }
}

/// `Ok` when there is no error, else the error.
pub open spec fn as_result(e: Option<TessParseError>) -> Result<(), TessParseError> {
    match e {
        None => Ok(()),
        Some(e) => Err(e),
    }
}

/// Once the reading has stopped with an error, later lines change nothing.
proof fn lemma_error_persists(
    t: Map<Seq<char>, Seq<u32>>,
    pattern: Seq<char>,
    ls: Seq<Seq<char>>,
    k: int,
    names: Seq<Seq<char>>,
)
    requires
        0 <= k <= ls.len(),
        lines_read(t, pattern, ls.take(k), names).1 is Some,
    ensures
        lines_read(t, pattern, ls, names) == lines_read(t, pattern, ls.take(k), names),
    decreases ls.len(),
{
    if k == ls.len() {
        assert(ls.take(k) == ls);
    } else {
        assert(ls.drop_last().take(k) == ls.take(k));
        lemma_error_persists(t, pattern, ls.drop_last(), k, names);
    }
}

/// Applies one line's capture groups `groups` (as `capture_groups` returns
/// them) to the table `scores`, as `line_step` says.
pub fn add_line(
    groups: Option<Option<(Option<String>, Option<String>)>>,
    horse_names: &Vec<String>,
    scores: &mut ScoreTable,
) -> (r: Result<(), TessParseError>)
    ensures
        final(scores).view() == line_step(
            old(scores).view(),
            groups_view(groups),
            horse_names@.map_values(|n: String| n@),
        ).0,
        r == as_result(
            line_step(
                old(scores).view(),
                groups_view(groups),
                horse_names@.map_values(|n: String| n@),
            ).1,
        ),
{
    match groups {
        None => Err(TessParseError::InvalidPattern),
        Some(None) => Ok(()),
        Some(Some((Some(name_text), Some(score_text)))) => {
            match name_and_score(name_text.as_str(), score_text.as_str(), horse_names) {
                Some((name, score)) => {
                    scores.push_score(name, score);
                },
                None => {},
            }
            Ok(())
        },
        Some(Some(_)) => Err(TessParseError::MissingCaptureGroup),
    }
}

/// Reads the scores of one screenshot from the text that Tesseract read
/// there, line by line, with the regular expression `pattern` capturing a
/// line's name text (group 1) and score text (group 2); see `line_step` for
/// what each line does. The first error stops the reading, with the table
/// as the lines before it left it.
pub fn parse_orc_data(
    ocr_result: String,
    horse_names: &Vec<String>,
    pattern: &str,
    scores: &mut ScoreTable,
) -> (r: Result<(), TessParseError>)
    ensures
        final(scores).view() == lines_read(
            old(scores).view(),
            pattern@,
            lines_of(ocr_result@),
            horse_names@.map_values(|n: String| n@),
        ).0,
        r == as_result(
            lines_read(
                old(scores).view(),
                pattern@,
                lines_of(ocr_result@),
                horse_names@.map_values(|n: String| n@),
            ).1,
        ),
{
    let all = lines(ocr_result.as_str());
    let ghost ls = all@.map_values(|l: Vec<char>| l@);
    let ghost start = scores.view();
    let ghost names = horse_names@.map_values(|n: String| n@);
    assert(ls.take(0) == Seq::<Seq<char>>::empty());
    let mut i: usize = 0;
    while i < all.len()
        invariant
            i <= all.len(),
            ls == all@.map_values(|l: Vec<char>| l@),
            ls == lines_of(ocr_result@),
            start == old(scores).view(),
            names == horse_names@.map_values(|n: String| n@),
            scores.view() == lines_read(start, pattern@, ls.take(i as int), names).0,
            lines_read(start, pattern@, ls.take(i as int), names).1 is None,
        decreases all.len() - i,
    {
        let line = string_from_chars(&all[i]);
        let groups = capture_groups(pattern, line.as_str());
        assert(ls.take(i + 1).drop_last() == ls.take(i as int));
        assert(ls.take(i + 1).last() == line@);
        let step = add_line(groups, horse_names, scores);
        match step {
            Ok(()) => {},
            Err(e) => {
                proof {
                    lemma_error_persists(start, pattern@, ls, i + 1, names);
                }
                return Err(e);
            },
        }
        i = i + 1;
    }
    assert(ls.take(all.len() as int) == ls);
    Ok(())
}

} // verus!
