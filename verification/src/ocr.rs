use crate::scores::ScoreMap;
use crate::tess::text_view;
use crate::text::{
    all_digits, chars_of, decimal_value, digits_value, is_digit, remove_mvp, string_from_chars,
    trim, trimmed, without_mvp,
};
use ocrs::{ImageSource, OcrEngine, OcrInput, TextLine};
use rten_imageproc::RotatedRect;
use vstd::prelude::*;

verus! {

/// Lines the recognition engine reads that are shorter than this, in bytes,
/// are dropped.
pub const MIN_OCR_LENGTH: usize = 3;

/// The number of bytes of the UTF-8 encoding of `s`, as `str::len`
/// reports it.
pub open spec fn byte_len(s: Seq<char>) -> nat {
    (vstd::utf8::encode_utf8(s).len() as usize) as nat
}

/// The lines of `lines` that are at least `MIN_OCR_LENGTH` bytes long.
pub open spec fn long_lines(lines: Seq<Seq<char>>) -> Seq<Seq<char>>
    decreases lines.len(),
{
    if lines.len() == 0 {
        Seq::empty()
    } else {
        let prev = long_lines(lines.drop_last());
        if byte_len(lines.last()) >= MIN_OCR_LENGTH {
            prev.push(lines.last())
        } else {
            prev
        }
    }
}

/// The recognised lines that are long enough to hold a name or a score, in
/// order.
pub fn filter_ocr_lines(lines: Vec<String>) -> (r: Vec<String>)
    ensures
        r@.map_values(|l: String| l@) == long_lines(lines@.map_values(|l: String| l@)),
{
    let ghost all = lines@.map_values(|l: String| l@);
    let mut r: Vec<String> = Vec::new();
    let mut i: usize = 0;
    assert(all.take(0) == Seq::<Seq<char>>::empty());
    while i < lines.len()
        invariant
            i <= lines.len(),
            all == lines@.map_values(|l: String| l@),
            r@.map_values(|l: String| l@) == long_lines(all.take(i as int)),
        decreases lines.len() - i,
    {
        let line = &lines[i];
        assert(all.take(i + 1).drop_last() == all.take(i as int));
        assert(all.take(i + 1).last() == line@);
        let n = line.as_str().len();
        assert(n == byte_len(line@));
        let ghost before = r@;
        if n >= MIN_OCR_LENGTH {
            r.push(line.clone());
            assert(r@.map_values(|l: String| l@) =~= before.map_values(|l: String| l@).push(line@));
            assert(long_lines(all.take(i + 1)) == long_lines(all.take(i as int)).push(line@));
        } else {
            assert(long_lines(all.take(i + 1)) == long_lines(all.take(i as int)));
        }
        i = i + 1;
    }
    assert(all.take(lines.len() as int) == all);
    r
}

/// An engine that finds and reads text in images.
#[verifier::external_type_specification]
#[verifier::external_body]
pub struct ExOcrEngine(OcrEngine);

/// Image pixels handed to the engine.
#[verifier::external_type_specification]
#[verifier::external_body]
pub struct ExImageSource<'a>(ImageSource<'a>);

/// An image prepared for the engine.
#[verifier::external_type_specification]
#[verifier::external_body]
pub struct ExOcrInput(OcrInput);

/// The region of a word or line of text in an image.
#[verifier::external_type_specification]
#[verifier::external_body]
pub struct ExRotatedRect(RotatedRect);

/// A line of text that the engine read.
#[verifier::external_type_specification]
#[verifier::external_body]
pub struct ExTextLine(TextLine);

/// Whether `len` bytes are the pixels, row by row, of a `width` by `height`
/// image with one (grey), three (RGB) or four (RGBA) bytes per pixel.
pub open spec fn fits_pixels(len: int, width: int, height: int) -> bool {
    let n = width * height;
    n > 0 && (len == n || len == 3 * n || len == 4 * n)
}

/// The pixels `bytes` of an image of the given size, or `None` when their
/// number does not fit the size.
///
/// Trusted: calls `ocrs::ImageSource::from_bytes`; its error is turned into
/// `None`. Its source computes `width * height` in `u32`, refuses a zero
/// product, and accepts exactly the lengths that are one, three or four
/// times the product; that is what the contract states.
#[verifier::external_body]
fn image_source<'a>(bytes: &'a [u8], width: u32, height: u32) -> (r: Option<ImageSource<'a>>)
    requires
        width * height <= u32::MAX,
    ensures
        r is Some <==> fits_pixels(bytes@.len() as int, width as int, height as int),
{
    ImageSource::from_bytes(bytes, (width, height)).ok()
}

/// The image prepared for the engine.
///
/// Trusted: calls `ocrs::OcrEngine::prepare_input`, whose source always
/// returns `Ok` for an image source that `from_bytes` made; the contract
/// states that it returns `Some`.
#[verifier::external_body]
fn prepare_input(engine: &OcrEngine, source: ImageSource) -> (r: Option<OcrInput>)
    ensures
        r is Some,
{
    engine.prepare_input(source).ok()
}

/// The regions of the words that the engine finds, or `None` when that
/// fails.
///
/// Trusted: calls `ocrs::OcrEngine::detect_words`; its error is turned into
/// `None`. The result depends on the models the engine was loaded with, so
/// nothing is claimed of it.
#[verifier::external_body]
fn detect_words(engine: &OcrEngine, input: &OcrInput) -> Option<Vec<RotatedRect>> {
    engine.detect_words(input).ok()
}

/// The words grouped into lines, none of them empty.
///
/// Trusted: calls `ocrs::OcrEngine::find_text_lines`. Its source starts each
/// line with a word and only adds words to it, so every line it returns holds
/// at least one word; which words go together is not claimed.
#[verifier::external_body]
fn find_text_lines(engine: &OcrEngine, input: &OcrInput, words: &Vec<RotatedRect>) -> (r: Vec<
    Vec<RotatedRect>,
>)
    ensures
        forall|i: int| 0 <= i < r.len() ==> (#[trigger] r@[i]).len() > 0,
{
    engine.find_text_lines(input, words)
}

/// The text of each line, `None` for a line read as empty; `None` as a
/// whole when reading fails.
///
/// Trusted: calls `ocrs::OcrEngine::recognize_text`; its error is turned
/// into `None`. Its source panics on a line without words, hence the
/// precondition. The result depends on the models the engine was loaded
/// with, so nothing is claimed of it.
#[verifier::external_body]
fn recognize_text(engine: &OcrEngine, input: &OcrInput, lines: &Vec<Vec<RotatedRect>>) -> Option<
    Vec<Option<TextLine>>,
>
    requires
        forall|i: int| 0 <= i < lines.len() ==> (#[trigger] lines@[i]).len() > 0,
{
    engine.recognize_text(input, lines).ok()
}

/// The characters of a line that the engine read.
///
/// Trusted: formats the line with its `Display` impl from ocrs; nothing is
/// claimed of the result.
#[verifier::external_body]
fn line_string(line: &TextLine) -> String {
    format!("{}", line)
}

/// The step at which reading the text of an image failed.
#[derive(Clone, Copy, Debug, PartialEq, Eq, Structural)]
pub enum OcrFailure {
    /// The pixels do not fit the image size.
    ImageSource,
    /// The words could not be found.
    DetectWords,
    /// The lines could not be read.
    RecognizeText,
}

/// The lines of text that the engine reads in an image of the given size,
/// of at least `MIN_OCR_LENGTH` bytes each, in the order the engine gives
/// them. It fails with `OcrFailure::ImageSource` exactly when `bytes` are not
/// the pixels of such an image (see `fits_pixels`); the other failures come
/// from the engine.
pub fn ocr_image(engine: &OcrEngine, bytes: &[u8], width: u32, height: u32) -> (r: Result<
    Vec<String>,
    OcrFailure,
>)
    requires
        width * height <= u32::MAX,
    ensures
        r == Err::<Vec<String>, OcrFailure>(OcrFailure::ImageSource) <==> !fits_pixels(
            bytes@.len() as int,
            width as int,
            height as int,
        ),
        r matches Ok(lines) ==> forall|i: int|
            0 <= i < lines.len() ==> byte_len(#[trigger] lines@[i]@) >= MIN_OCR_LENGTH,
{
    let source = match image_source(bytes, width, height) {
        Some(s) => s,
        None => return Err(OcrFailure::ImageSource),
    };
    let input = prepare_input(engine, source).unwrap();
    let words = match detect_words(engine, &input) {
        Some(w) => w,
        None => return Err(OcrFailure::DetectWords),
    };
    let line_rects = find_text_lines(engine, &input, &words);
    let line_texts = match recognize_text(engine, &input, &line_rects) {
        Some(t) => t,
        None => return Err(OcrFailure::RecognizeText),
    };
    let mut recognised: Vec<Option<String>> = Vec::new();
    let mut i: usize = 0;
    while i < line_texts.len()
        invariant
            i <= line_texts.len(),
            recognised.len() == i,
        decreases line_texts.len() - i,
    {
        match &line_texts[i] {
            Some(line) => recognised.push(Some(line_string(line))),
            None => recognised.push(None),
        }
        i = i + 1;
    }
    let kept = recognised_texts(recognised);
    proof {
        lemma_long_lines(read_texts(texts_view(recognised@)));
        assert forall|i: int| 0 <= i < kept.len() implies byte_len(#[trigger] kept@[i]@) >= MIN_OCR_LENGTH by {
            assert(kept@.map_values(|l: String| l@)[i] == kept@[i]@);
        }
    }
    Ok(kept)
}

/// The characters of each recognised line, `None` for a line read as empty.
pub open spec fn texts_view(v: Seq<Option<String>>) -> Seq<Option<Seq<char>>> {
    v.map_values(|o: Option<String>| text_view(o))
}

/// The lines that were read, in order, leaving out those read as empty.
pub open spec fn read_texts(ls: Seq<Option<Seq<char>>>) -> Seq<Seq<char>>
    decreases ls.len(),
{
    if ls.len() == 0 {
        Seq::empty()
    } else {
        let prev = read_texts(ls.drop_last());
        match ls.last() {
            Some(t) => prev.push(t),
            None => prev,
        }
    }
}

/// The text the engine recognised in each line (`None` where it read
/// nothing), reduced to the lines it read that are at least
/// `MIN_OCR_LENGTH` bytes long, in order.
pub fn recognised_texts(lines: Vec<Option<String>>) -> (r: Vec<String>)
    ensures
        r@.map_values(|l: String| l@) == long_lines(read_texts(texts_view(lines@))),
{
    let ghost all = texts_view(lines@);
    let mut texts: Vec<String> = Vec::new();
    let mut i: usize = 0;
    assert(all.take(0) == Seq::<Option<Seq<char>>>::empty());
    while i < lines.len()
        invariant
            i <= lines.len(),
            all == texts_view(lines@),
            texts@.map_values(|l: String| l@) == read_texts(all.take(i as int)),
        decreases lines.len() - i,
    {
        assert(all.take(i + 1).drop_last() == all.take(i as int));
        assert(all.take(i + 1).last() == text_view(lines@[i as int]));
        let ghost before = texts@;
        match &lines[i] {
            Some(t) => {
                texts.push(t.clone());
                assert(texts@.map_values(|l: String| l@) =~= before.map_values(|l: String| l@).push(t@));
            },
            None => {},
        }
        i = i + 1;
    }
    assert(all.take(lines.len() as int) == all);
    filter_ocr_lines(texts)
}

/// Whether a recognised line is kept: it was read, and it is at least
/// `MIN_OCR_LENGTH` bytes long.
pub open spec fn kept_line(o: Option<Seq<char>>) -> Option<Seq<char>> {
    match o {
        Some(t) => if byte_len(t) >= MIN_OCR_LENGTH {
            Some(t)
        } else {
            None
        },
        None => None,
    }
}

/// The lines kept of what the engine recognised are exactly the recognised
/// lines of at least `MIN_OCR_LENGTH` bytes, each once, in the order the
/// engine gave them: no such line is dropped and no other is added.
pub proof fn law_recognised_texts(ls: Seq<Option<Seq<char>>>)
    ensures
        long_lines(read_texts(ls)) == ls.filter_map(|o: Option<Seq<char>>| kept_line(o)),
        forall|j: int|
            0 <= j < ls.len() && (#[trigger] ls[j]) is Some && byte_len(ls[j]->0) >= MIN_OCR_LENGTH
                ==> long_lines(read_texts(ls)).contains(ls[j]->0),
    decreases ls.len(),
{
    let f = |o: Option<Seq<char>>| kept_line(o);
    if ls.len() > 0 {
        let rest = ls.drop_last();
        law_recognised_texts(rest);
        let prev = long_lines(read_texts(rest));
        match ls.last() {
            Some(t) => {
                assert(read_texts(ls) == read_texts(rest).push(t));
                assert(read_texts(ls).drop_last() == read_texts(rest));
                assert(read_texts(ls).last() == t);
                if byte_len(t) >= MIN_OCR_LENGTH {
                    assert(long_lines(read_texts(ls)) == prev.push(t));
                    assert(prev + seq![t] =~= prev.push(t));
                    assert(prev.push(t)[prev.len() as int] == t);
                } else {
                    assert(long_lines(read_texts(ls)) == prev);
                }
            },
            None => {},
        }
        assert forall|j: int|
            0 <= j < ls.len() && (#[trigger] ls[j]) is Some && byte_len(ls[j]->0) >= MIN_OCR_LENGTH
                implies long_lines(read_texts(ls)).contains(ls[j]->0) by {
            if j < rest.len() {
                assert(rest[j] == ls[j]);
                let t = ls[j]->0;
                assert(prev.contains(t));
                let q = choose|q: int| 0 <= q < prev.len() && prev[q] == t;
                if ls.last() matches Some(u) && byte_len(u) >= MIN_OCR_LENGTH {
                    assert(long_lines(read_texts(ls))[q] == t);
                }
            }
        }
    }
}

/// The long lines are all at least `MIN_OCR_LENGTH` bytes long.
proof fn lemma_long_lines(lines: Seq<Seq<char>>)
    ensures
        forall|i: int|
            0 <= i < long_lines(lines).len() ==> byte_len(#[trigger] long_lines(lines)[i]) >= MIN_OCR_LENGTH,
    decreases lines.len(),
{
    if lines.len() > 0 {
        lemma_long_lines(lines.drop_last());
        let prev = long_lines(lines.drop_last());
        assert forall|i: int| 0 <= i < long_lines(lines).len() implies byte_len(#[trigger] long_lines(lines)[i])
            >= MIN_OCR_LENGTH by {
            if i < prev.len() {
                assert(long_lines(lines)[i] == prev[i]);
            }
        }
    }
}

/// The minimum number of insertions, deletions and substitutions of
/// characters that turn `a` into `b`.
pub open spec fn edit_distance(a: Seq<char>, b: Seq<char>) -> nat
    decreases a.len() + b.len(),
{
    if a.len() == 0 {
        b.len()
    } else if b.len() == 0 {
        a.len()
    } else {
        let substitute = edit_distance(a.drop_first(), b.drop_first()) + if a[0] == b[0] {
            0nat
        } else {
            1nat
        };
        let delete = edit_distance(a.drop_first(), b) + 1;
        let insert = edit_distance(a, b.drop_first()) + 1;
        if substitute <= delete && substitute <= insert {
            substitute
        } else if delete <= insert {
            delete
        } else {
            insert
        }
    }
}

/// The Levenshtein distance between `a` and `b`.
///
/// Trusted: calls `strsim::levenshtein`, documented as the minimum number of
/// insertions, deletions and substitutions required to change one string
/// into the other; it counts characters (`char`s), which is what the
/// contract claims.
#[verifier::external_body]
fn levenshtein(a: &str, b: &str) -> (d: usize)
    ensures
        d == edit_distance(a@, b@),
{
    strsim::levenshtein(a, b)
}

/// What one recognised line holds, read from the left: the text (all
/// characters other than digits and commas) and the digits. Commas are
/// skipped; a character other than a digit that follows more than three
/// digits ends the line's score and the reading.
pub open spec fn scan_line(l: Seq<char>, text: Seq<char>, digits: Seq<char>) -> (Seq<char>, Seq<char>)
    decreases l.len(),
{
    if l.len() == 0 {
        (text, digits)
    } else {
        let c = l[0];
        if c == ',' {
            scan_line(l.drop_first(), text, digits)
        } else if is_digit(c) {
            scan_line(l.drop_first(), text, digits.push(c))
        } else if digits.len() > 3 {
            (text, digits)
        } else {
            scan_line(l.drop_first(), text.push(c), digits)
        }
    }
}

/// The digits of a line are digits.
proof fn lemma_scan_digits(l: Seq<char>, text: Seq<char>, digits: Seq<char>)
    requires
        all_digits(digits),
    ensures
        all_digits(scan_line(l, text, digits).1),
    decreases l.len(),
{
    if l.len() > 0 {
        let c = l[0];
        if c == ',' {
            lemma_scan_digits(l.drop_first(), text, digits);
        } else if is_digit(c) {
            assert(all_digits(digits.push(c))) by {
                assert forall|i: int| 0 <= i < digits.push(c).len() implies is_digit(#[trigger] digits.push(c)[i]) by {
                    if i < digits.len() {
                        assert(digits.push(c)[i] == digits[i]);
                    }
                }
            }
            lemma_scan_digits(l.drop_first(), text, digits.push(c));
        } else if digits.len() <= 3 {
            lemma_scan_digits(l.drop_first(), text.push(c), digits);
        }
    }
}

/// The text of a line, without `MVP` and without surrounding whitespace.
pub open spec fn line_text(l: Seq<char>) -> Seq<char> {
    trimmed(without_mvp(scan_line(l, Seq::empty(), Seq::empty()).0))
}

/// The digits of a line.
pub open spec fn line_digits(l: Seq<char>) -> Seq<char> {
    scan_line(l, Seq::empty(), Seq::empty()).1
}

/// Whether a line holds a name: its text is longer than 3 bytes.
pub open spec fn holds_name(l: Seq<char>) -> bool {
    byte_len(line_text(l)) > 3
}

/// Whether a line holds a score: it has more than 3 digits.
pub open spec fn holds_score(l: Seq<char>) -> bool {
    line_digits(l).len() > 3
}

/// Whether every score that the lines hold fits in a score.
pub open spec fn scores_fit(lines: Seq<Seq<char>>) -> bool {
    forall|i: int|
        0 <= i < lines.len() && holds_score(#[trigger] lines[i]) ==> decimal_value(line_digits(lines[i]))
            <= u32::MAX
}

/// The names read from the lines, in order.
pub open spec fn names_read(lines: Seq<Seq<char>>) -> Seq<Seq<char>>
    decreases lines.len(),
{
    if lines.len() == 0 {
        Seq::empty()
    } else {
        let prev = names_read(lines.drop_last());
        if holds_name(lines.last()) {
            prev.push(line_text(lines.last()))
        } else {
            prev
        }
    }
}

/// The scores read from the lines, in order.
pub open spec fn scores_read(lines: Seq<Seq<char>>) -> Seq<int>
    decreases lines.len(),
{
    if lines.len() == 0 {
        Seq::empty()
    } else {
        let prev = scores_read(lines.drop_last());
        if holds_score(lines.last()) {
            prev.push(decimal_value(line_digits(lines.last())))
        } else {
            prev
        }
    }
}

/// The name used when no character's name is closer than 1000 edits.
pub open spec fn default_name() -> Seq<char> {
    seq!['M', 'a', 'm', 'b', 'o']
}

/// The character name among `names` closest to `text` and its distance,
/// starting from `best` at distance `best_distance`: a name replaces the
/// best so far only when strictly closer, so the first of equally close
/// names wins.
pub open spec fn closest_from(
    names: Seq<Seq<char>>,
    text: Seq<char>,
    best: Seq<char>,
    best_distance: nat,
) -> (Seq<char>, nat)
    decreases names.len(),
{
    if names.len() == 0 {
        (best, best_distance)
    } else {
        let d = edit_distance(names[0], text);
        if d < best_distance {
            closest_from(names.drop_first(), text, names[0], d)
        } else {
            closest_from(names.drop_first(), text, best, best_distance)
        }
    }
}

/// The character name closest to `text`, and its distance.
pub open spec fn closest_name(names: Seq<Seq<char>>, text: Seq<char>) -> (Seq<char>, nat) {
    closest_from(names, text, default_name(), 1000)
}


/// The text and digits of the line `l`, as `scan_line` reads them.
fn scan(l: &Vec<char>) -> (r: (Vec<char>, Vec<char>))
    ensures
        (r.0@, r.1@) == scan_line(l@, Seq::empty(), Seq::empty()),
{
    let mut text: Vec<char> = Vec::new();
    let mut digits: Vec<char> = Vec::new();
    let mut i: usize = 0;
    assert(l@.skip(0) == l@);
    while i < l.len()
        invariant
            i <= l.len(),
            scan_line(l@, Seq::empty(), Seq::empty()) == scan_line(l@.skip(i as int), text@, digits@),
        decreases l.len() - i,
    {
        let c = l[i];
        let ghost rest = l@.skip(i as int);
        assert(rest[0] == c);
        assert(rest.drop_first() == l@.skip(i + 1));
        if c == ',' {
        } else if '0' <= c && c <= '9' {
            digits.push(c);
        } else if digits.len() > 3 {
            return (text, digits);
        } else {
            text.push(c);
        }
        i = i + 1;
    }
    (text, digits)
}

/// The text and the digits of a recognised line: the text without `MVP` and
/// surrounding whitespace.
pub fn read_line(line: &String) -> (r: (String, Vec<char>))
    ensures
        r.0@ == line_text(line@),
        r.1@ == line_digits(line@),
{
    let chars = chars_of(line.as_str());
    let (text, digits) = scan(&chars);
    let text = trim(&remove_mvp(&text));
    (string_from_chars(&text), digits)
}

/// The character name closest to `text` and its distance.
pub fn closest(uma_names: &Vec<String>, text: &String) -> (r: (String, usize))
    ensures
        (r.0@, r.1 as nat) == closest_name(uma_names@.map_values(|n: String| n@), text@),
{
    let ghost names = uma_names@.map_values(|n: String| n@);
    let mut best: Option<usize> = None;
    let mut lowest: usize = 1000;
    let mut i: usize = 0;
    assert(names.skip(0) == names);
    while i < uma_names.len()
        invariant
            i <= uma_names.len(),
            names == uma_names@.map_values(|n: String| n@),
            lowest <= 1000,
            match best {
                Some(b) => b < i && closest_name(names, text@) == closest_from(
                    names.skip(i as int),
                    text@,
                    names[b as int],
                    lowest as nat,
                ),
                None => closest_name(names, text@) == closest_from(
                    names.skip(i as int),
                    text@,
                    default_name(),
                    lowest as nat,
                ),
            },
        decreases uma_names.len() - i,
    {
        let d = levenshtein(uma_names[i].as_str(), text.as_str());
        let ghost rest = names.skip(i as int);
        assert(rest[0] == names[i as int]);
        assert(rest.drop_first() == names.skip(i + 1));
        if d < lowest {
            best = Some(i);
            lowest = d;
        }
        i = i + 1;
    }
    assert(names.skip(i as int).len() == 0);
    match best {
        Some(b) => (uma_names[b].clone(), lowest),
        None => {
            let name = "Mambo".to_string();
            proof {
                reveal_strlit("Mambo");
                assert(name@ == default_name());
            }
            (name, lowest)
        },
    }
}


/// Whether name `i` comes before name `j` when the names are ordered by
/// distance, equally distant names keeping the order in which they were read.
pub open spec fn precedes(ds: Seq<int>, i: int, j: int) -> bool {
    ds[i] < ds[j] || (ds[i] == ds[j] && i < j)
}

/// The number of names among the first `n` that come before name `j`.
pub open spec fn count_preceding(ds: Seq<int>, j: int, n: int) -> nat
    decreases n,
{
    if n <= 0 {
        0
    } else {
        count_preceding(ds, j, n - 1) + if precedes(ds, n - 1, j) {
            1nat
        } else {
            0nat
        }
    }
}

/// The place of name `j` when the names are ordered by distance.
pub open spec fn rank(ds: Seq<int>, j: int) -> nat {
    count_preceding(ds, j, ds.len() as int)
}

/// The names among the first `n` whose place by distance is below `k`, that
/// is the `k` closest names, in the order in which they were read.
pub open spec fn kept(ds: Seq<int>, k: nat, n: int) -> Seq<int>
    decreases n,
{
    if n <= 0 {
        Seq::empty()
    } else {
        let prev = kept(ds, k, n - 1);
        if rank(ds, n - 1) < k {
            prev.push(n - 1)
        } else {
            prev
        }
    }
}

proof fn lemma_count_preceding_monotonic(ds: Seq<int>, i: int, j: int, n: int)
    requires
        0 <= i < ds.len(),
        0 <= j < ds.len(),
        n <= ds.len(),
        precedes(ds, i, j),
    ensures
        count_preceding(ds, i, n) + (if 0 <= i < n {
            1int
        } else {
            0int
        }) <= count_preceding(ds, j, n),
    decreases n,
{
    if n > 0 {
        lemma_count_preceding_monotonic(ds, i, j, n - 1);
    }
}

proof fn lemma_count_preceding_bound(ds: Seq<int>, j: int, n: int)
    requires
        0 <= n,
    ensures
        count_preceding(ds, j, n) <= n,
    decreases n,
{
    if n > 0 {
        lemma_count_preceding_bound(ds, j, n - 1);
    }
}

/// Names in different places by distance: the ranks of distinct names
/// differ.
proof fn lemma_rank_injective(ds: Seq<int>, i: int, j: int)
    requires
        0 <= i < ds.len(),
        0 <= j < ds.len(),
        i != j,
    ensures
        rank(ds, i) != rank(ds, j),
{
    if precedes(ds, i, j) {
        lemma_count_preceding_monotonic(ds, i, j, ds.len() as int);
    } else {
        lemma_count_preceding_monotonic(ds, j, i, ds.len() as int);
    }
}

proof fn lemma_kept_increasing(ds: Seq<int>, k: nat, n: int)
    requires
        n <= ds.len(),
    ensures
        forall|p: int, q: int|
            0 <= p < q < kept(ds, k, n).len() ==> kept(ds, k, n)[p] < kept(ds, k, n)[q],
        forall|p: int|
            0 <= p < kept(ds, k, n).len() ==> 0 <= #[trigger] kept(ds, k, n)[p] < n && rank(
                ds,
                kept(ds, k, n)[p],
            ) < k,
    decreases n,
{
    if n > 0 {
        lemma_kept_increasing(ds, k, n - 1);
        let prev = kept(ds, k, n - 1);
        let cur = kept(ds, k, n);
        if rank(ds, n - 1) < k {
            assert(cur == prev.push(n - 1));
            assert forall|p: int| 0 <= p < cur.len() implies 0 <= #[trigger] cur[p] < n && rank(ds, cur[p]) < k by {
                if p < prev.len() {
                    assert(cur[p] == prev[p]);
                }
            }
            assert forall|p: int, q: int| 0 <= p < q < cur.len() implies cur[p] < cur[q] by {
                assert(cur[p] == prev[p]);
                if q < prev.len() {
                    assert(cur[q] == prev[q]);
                }
            }
        } else {
            assert(cur == prev);
        }
    }
}

/// At most `k` names are kept: the `k` closest.
proof fn lemma_kept_len(ds: Seq<int>, k: nat, n: int)
    requires
        0 <= n <= ds.len(),
    ensures
        kept(ds, k, n).len() <= k,
{
    let s = kept(ds, k, n);
    lemma_kept_increasing(ds, k, n);
    assert(s.no_duplicates()) by {
        assert forall|p: int, q: int| 0 <= p < s.len() && 0 <= q < s.len() && p != q implies s[p]
            != s[q] by {
            if p < q {
                assert(s[p] < s[q]);
            } else {
                assert(s[q] < s[p]);
            }
        }
    }
    s.unique_seq_to_set();
    let x = s.to_set();
    let f = |j: int| rank(ds, j) as int;
    let y = vstd::set_lib::set_int_range(0, k as int);
    vstd::set_lib::lemma_int_range(0, k as int);
    assert(vstd::relations::injective_on(f, x)) by {
        assert forall|a: int, b: int| x.contains(a) && x.contains(b) && #[trigger] f(a) == #[trigger] f(b) implies a == b by {
            if a != b {
                let pa = choose|p: int| 0 <= p < s.len() && s[p] == a;
                let pb = choose|p: int| 0 <= p < s.len() && s[p] == b;
                lemma_rank_injective(ds, a, b);
            }
        }
    }
    vstd::seq_lib::seq_to_set_is_finite(s);
    vstd::set_lib::lemma_map_size(x, x.map(f), f);
    assert(x.map(f).subset_of(y)) by {
        assert forall|r: int| x.map(f).contains(r) implies y.contains(r) by {
            let a = choose|a: int| x.contains(a) && f(a) == r;
            let pa = choose|p: int| 0 <= p < s.len() && s[p] == a;
        }
    }
    vstd::set_lib::lemma_len_subset(x.map(f), y);
}


/// A name among the first `n` whose place by distance is below `k` is kept.
proof fn lemma_kept_contains(ds: Seq<int>, k: nat, n: int, i: int)
    requires
        0 <= i < n <= ds.len(),
        rank(ds, i) < k,
    ensures
        kept(ds, k, n).contains(i),
    decreases n,
{
    if i == n - 1 {
        assert(kept(ds, k, n).last() == i);
    } else {
        lemma_kept_contains(ds, k, n - 1, i);
        let prev = kept(ds, k, n - 1);
        let j = choose|j: int| 0 <= j < prev.len() && prev[j] == i;
        if rank(ds, n - 1) < k {
            assert(kept(ds, k, n)[j] == i);
        }
    }
}

/// The kept names are the closest: a name that was read but not kept is at
/// least as far from every character name as each kept name, and of two
/// equally distant names, the one read later is left out first.
pub proof fn law_closest_kept(ds: Seq<int>, k: nat, n: int)
    requires
        0 <= n <= ds.len(),
    ensures
        forall|p: int, i: int|
            0 <= p < kept(ds, k, n).len() && 0 <= i < n && !kept(ds, k, n).contains(i) ==> ds[#[trigger] kept(
                ds,
                k,
                n,
            )[p]] <= #[trigger] ds[i],
        forall|p: int, i: int|
            0 <= p < kept(ds, k, n).len() && 0 <= i < #[trigger] kept(ds, k, n)[p] && #[trigger] ds[i]
                == ds[kept(ds, k, n)[p]] ==> kept(ds, k, n).contains(i),
{
    let s = kept(ds, k, n);
    lemma_kept_increasing(ds, k, n);
    assert forall|p: int, i: int|
        0 <= p < s.len() && 0 <= i < n && !s.contains(i) implies ds[#[trigger] s[p]] <= #[trigger] ds[i] by {
        let j = s[p];
        if ds[i] < ds[j] {
            lemma_count_preceding_monotonic(ds, i, j, ds.len() as int);
            if rank(ds, i) < k {
                lemma_kept_contains(ds, k, n, i);
            }
        }
    }
    assert forall|p: int, i: int|
        0 <= p < s.len() && 0 <= i < #[trigger] s[p] && #[trigger] ds[i] == ds[s[p]] implies s.contains(i) by {
        let j = s[p];
        lemma_count_preceding_monotonic(ds, i, j, ds.len() as int);
        lemma_kept_contains(ds, k, n, i);
    }
}

/// The names kept for the scores of a screenshot are the closest names
/// read: no name left out is closer to a character name than a kept one,
/// and of equally close names the ones read first are kept.
pub proof fn law_kept_names_closest(lines: Seq<Seq<char>>, umas: Seq<Seq<char>>)
    ensures
        ({
            let ds = distances(lines, umas);
            let sel = kept_names(lines, umas);
            &&& forall|p: int, i: int|
                0 <= p < sel.len() && 0 <= i < ds.len() && !sel.contains(i) ==> ds[#[trigger] sel[p]]
                    <= #[trigger] ds[i]
            &&& forall|p: int, i: int|
                0 <= p < sel.len() && 0 <= i < #[trigger] sel[p] && #[trigger] ds[i] == ds[sel[p]]
                    ==> sel.contains(i)
        }),
{
    law_closest_kept(
        distances(lines, umas),
        scores_read(lines).len(),
        names_read(lines).len() as int,
    );
}

/// The scores given to the kept names `sel`, in order: the `p`-th kept name
/// gets the `p`-th score read, a later score of the same name replacing an
/// earlier one.
pub open spec fn assigned(names: Seq<Seq<char>>, sel: Seq<int>, scores: Seq<int>) -> Map<
    Seq<char>,
    u32,
>
    decreases sel.len(),
{
    if sel.len() == 0 {
        Map::empty()
    } else {
        assigned(names, sel.drop_last(), scores).insert(
            names[sel.last()],
            scores[sel.len() - 1] as u32,
        )
    }
}

/// The character name chosen for each name read.
pub open spec fn corrected_names(lines: Seq<Seq<char>>, umas: Seq<Seq<char>>) -> Seq<Seq<char>> {
    names_read(lines).map_values(|t: Seq<char>| closest_name(umas, t).0)
}

/// The distance of each name read to the character name chosen for it.
pub open spec fn distances(lines: Seq<Seq<char>>, umas: Seq<Seq<char>>) -> Seq<int> {
    names_read(lines).map_values(|t: Seq<char>| closest_name(umas, t).1 as int)
}

/// The names kept for the scores read: as many of the closest names as
/// there are scores, in the order in which they were read.
pub open spec fn kept_names(lines: Seq<Seq<char>>, umas: Seq<Seq<char>>) -> Seq<int> {
    kept(distances(lines, umas), scores_read(lines).len(), names_read(lines).len() as int)
}

/// The score of each character read from the lines of one screenshot.
pub open spec fn parsed_scores(lines: Seq<Seq<char>>, umas: Seq<Seq<char>>) -> Map<Seq<char>, u32> {
    assigned(corrected_names(lines, umas), kept_names(lines, umas), scores_read(lines))
}

/// The kept names that were not read exactly as a character name: the name
/// as read, the name chosen, and their distance.
pub open spec fn corrections_of(
    texts: Seq<Seq<char>>,
    names: Seq<Seq<char>>,
    ds: Seq<int>,
    sel: Seq<int>,
) -> Seq<(Seq<char>, Seq<char>, int)>
    decreases sel.len(),
{
    if sel.len() == 0 {
        Seq::empty()
    } else {
        let prev = corrections_of(texts, names, ds, sel.drop_last());
        let j = sel.last();
        if texts[j] != names[j] {
            prev.push((texts[j], names[j], ds[j]))
        } else {
            prev
        }
    }
}

/// The corrections made to the names kept from one screenshot.
pub open spec fn parsed_corrections(lines: Seq<Seq<char>>, umas: Seq<Seq<char>>) -> Seq<
    (Seq<char>, Seq<char>, int),
> {
    corrections_of(
        names_read(lines),
        corrected_names(lines, umas),
        distances(lines, umas),
        kept_names(lines, umas),
    )
}

/// A name read from a screenshot that was changed to the closest character
/// name.
pub struct NameCorrection {
    pub ocr_name: String,
    pub corrected_name: String,
    pub distance: usize,
}

/// What one screenshot holds: the score of each character, and the names
/// that had to be corrected.
pub struct ParsedScreenshot {
    pub scores: ScoreMap,
    pub corrections: Vec<NameCorrection>,
}

/// The view of a correction.
pub open spec fn correction_view(c: NameCorrection) -> (Seq<char>, Seq<char>, int) {
    (c.ocr_name@, c.corrected_name@, c.distance as int)
}

/// The place by distance of name `j`.
fn rank_of(ds: &Vec<usize>, j: usize) -> (r: usize)
    requires
        j < ds.len(),
    ensures
        r == rank(ds@.map_values(|d: usize| d as int), j as int),
{
    let ghost dsi = ds@.map_values(|d: usize| d as int);
    let mut count: usize = 0;
    let mut i: usize = 0;
    while i < ds.len()
        invariant
            i <= ds.len(),
            j < ds.len(),
            dsi == ds@.map_values(|d: usize| d as int),
            count == count_preceding(dsi, j as int, i as int),
            count <= i,
        decreases ds.len() - i,
    {
        if ds[i] < ds[j] || (ds[i] == ds[j] && i < j) {
            count = count + 1;
        }
        i = i + 1;
    }
    count
}

/// Whether every score that the lines hold fits in a score.
pub fn line_scores_fit(ocr_result: &Vec<String>) -> (b: bool)
    ensures
        b == scores_fit(ocr_result@.map_values(|l: String| l@)),
{
    let ghost lines = ocr_result@.map_values(|l: String| l@);
    let mut i: usize = 0;
    while i < ocr_result.len()
        invariant
            i <= ocr_result.len(),
            lines == ocr_result@.map_values(|l: String| l@),
            forall|q: int|
                0 <= q < i && holds_score(#[trigger] lines[q]) ==> decimal_value(line_digits(lines[q]))
                    <= u32::MAX,
        decreases ocr_result.len() - i,
    {
        let (_text, digits) = read_line(&ocr_result[i]);
        if digits.len() > 3 {
            proof {
                lemma_scan_digits(lines[i as int], Seq::empty(), Seq::empty());
            }
            if digits_value(digits.as_slice()).is_none() {
                return false;
            }
        }
        i = i + 1;
    }
    true
}


/// Reads the scores of one Team Trials screenshot from the lines that the
/// recognition engine read there.
///
/// Results often look like "Mayano Top Gun" followed by "47,131 pts i";
/// the names may all come before the scores, be interrupted by an MVP text,
/// or carry epithets. Each line's text (more than 3 bytes once `MVP` and
/// surrounding whitespace are removed) is a name, which is replaced by the
/// closest character name; each run of more than 3 digits is a score. As
/// many names as there are scores are kept, the closest ones, and the `p`-th
/// kept name, in reading order, gets the `p`-th score.
pub fn parse_orc_data(ocr_result: Vec<String>, uma_names: &Vec<String>) -> (r: ParsedScreenshot)
    requires
        scores_fit(ocr_result@.map_values(|l: String| l@)),
    ensures
        r.scores.view() == parsed_scores(
            ocr_result@.map_values(|l: String| l@),
            uma_names@.map_values(|n: String| n@),
        ),
        r.corrections@.map_values(|c: NameCorrection| correction_view(c)) == parsed_corrections(
            ocr_result@.map_values(|l: String| l@),
            uma_names@.map_values(|n: String| n@),
        ),
{
    let ghost lines = ocr_result@.map_values(|l: String| l@);
    let ghost umas = uma_names@.map_values(|n: String| n@);
    let mut texts: Vec<String> = Vec::new();
    let mut corrected: Vec<String> = Vec::new();
    let mut ds: Vec<usize> = Vec::new();
    let mut scores: Vec<u32> = Vec::new();
    let mut i: usize = 0;
    assert(lines.take(0) == Seq::<Seq<char>>::empty());
    while i < ocr_result.len()
        invariant
            i <= ocr_result.len(),
            lines == ocr_result@.map_values(|l: String| l@),
            umas == uma_names@.map_values(|n: String| n@),
            scores_fit(lines),
            texts@.map_values(|t: String| t@) == names_read(lines.take(i as int)),
            corrected@.map_values(|t: String| t@) == corrected_names(lines.take(i as int), umas),
            ds@.map_values(|d: usize| d as int) == distances(lines.take(i as int), umas),
            scores@.map_values(|v: u32| v as int) == scores_read(lines.take(i as int)),
        decreases ocr_result.len() - i,
    {
        let ghost l = lines[i as int];
        let ghost prefix = lines.take(i as int);
        assert(lines.take(i + 1).drop_last() == prefix);
        assert(lines.take(i + 1).last() == l);
        let (text, digits) = read_line(&ocr_result[i]);
        let ghost texts0 = texts@;
        let ghost corrected0 = corrected@;
        let ghost ds0 = ds@;
        let ghost scores0 = scores@;
        if text.as_str().len() > 3 {
            let (name, distance) = closest(uma_names, &text);
            texts.push(text);
            corrected.push(name);
            ds.push(distance);
            proof {
                let t = line_text(l);
                assert(names_read(lines.take(i + 1)) == names_read(prefix).push(t));
                assert(texts@.map_values(|t: String| t@) =~= texts0.map_values(|t: String| t@).push(t));
                assert(corrected@.map_values(|t: String| t@) =~= corrected0.map_values(|t: String| t@).push(
                    closest_name(umas, t).0,
                ));
                assert(corrected_names(lines.take(i + 1), umas) =~= corrected_names(prefix, umas).push(
                    closest_name(umas, t).0,
                ));
                assert(ds@.map_values(|d: usize| d as int) =~= ds0.map_values(|d: usize| d as int).push(
                    closest_name(umas, t).1 as int,
                ));
                assert(distances(lines.take(i + 1), umas) =~= distances(prefix, umas).push(
                    closest_name(umas, t).1 as int,
                ));
            }
        } else {
            proof {
                assert(names_read(lines.take(i + 1)) == names_read(prefix));
            }
        }
        if digits.len() > 3 {
            proof {
                lemma_scan_digits(l, Seq::empty(), Seq::empty());
                assert(holds_score(lines[i as int]));
            }
            match digits_value(digits.as_slice()) {
                Some(v) => {
                    scores.push(v);
                    proof {
                        assert(scores_read(lines.take(i + 1)) == scores_read(prefix).push(
                            decimal_value(line_digits(l)),
                        ));
                        assert(scores@.map_values(|v: u32| v as int) =~= scores0.map_values(|v: u32| v as int).push(
                            v as int,
                        ));
                    }
                },
                None => {
                    assert(false);
                },
            }
        } else {
            assert(scores_read(lines.take(i + 1)) == scores_read(prefix));
        }
        i = i + 1;
    }
    assert(lines.take(ocr_result.len() as int) == lines);
    let ghost texts_v = names_read(lines);
    let ghost names_v = corrected_names(lines, umas);
    let ghost dsi = distances(lines, umas);
    let ghost scores_v = scores_read(lines);
    let n = texts.len();
    let k = scores.len();
    assert(texts@.map_values(|t: String| t@).len() == n);
    assert(dsi.len() == n);
    let mut res = ScoreMap::new();
    let mut corrections: Vec<NameCorrection> = Vec::new();
    let mut count: usize = 0;
    let mut j: usize = 0;
    assert(assigned(names_v, kept(dsi, k as nat, 0), scores_v) =~= Map::<Seq<char>, u32>::empty());
    while j < n
        invariant
            j <= n,
            n == texts.len(),
            n == corrected.len(),
            n == ds.len(),
            k == scores.len(),
            texts@.map_values(|t: String| t@) == texts_v,
            corrected@.map_values(|t: String| t@) == names_v,
            ds@.map_values(|d: usize| d as int) == dsi,
            scores@.map_values(|v: u32| v as int) == scores_v,
            count == kept(dsi, k as nat, j as int).len(),
            res.view() == assigned(names_v, kept(dsi, k as nat, j as int), scores_v),
            corrections@.map_values(|c: NameCorrection| correction_view(c)) == corrections_of(
                texts_v,
                names_v,
                dsi,
                kept(dsi, k as nat, j as int),
            ),
        decreases n - j,
    {
        let place = rank_of(&ds, j);
        if place < k {
            proof {
                lemma_kept_len(dsi, k as nat, j + 1);
                assert(kept(dsi, k as nat, j + 1) == kept(dsi, k as nat, j as int).push(j as int));
            }
            let ghost sel = kept(dsi, k as nat, j as int);
            let ghost sel2 = sel.push(j as int);
            proof {
                assert(sel2.drop_last() == sel);
                assert(sel2.last() == j as int);
                assert(assigned(names_v, sel2, scores_v) == assigned(names_v, sel, scores_v).insert(
                    names_v[j as int],
                    scores_v[count as int] as u32,
                ));
                assert(texts_v[j as int] == texts@[j as int]@);
                assert(names_v[j as int] == corrected@[j as int]@);
                assert(corrections_of(texts_v, names_v, dsi, sel2) == (if texts_v[j as int] != names_v[j as int] {
                    corrections_of(texts_v, names_v, dsi, sel).push((texts_v[j as int], names_v[j as int], dsi[j as int]))
                } else {
                    corrections_of(texts_v, names_v, dsi, sel)
                }));
            }
            let score = scores[count];
            let name = corrected[j].clone();
            assert(name@ == names_v[j as int]);
            assert(score as int == scores_v[count as int]);
            res.insert(name, score);
            if texts[j] != corrected[j] {
                let ghost before = corrections@;
                corrections.push(
                    NameCorrection {
                        ocr_name: texts[j].clone(),
                        corrected_name: corrected[j].clone(),
                        distance: ds[j],
                    },
                );
                assert(corrections@.map_values(|c: NameCorrection| correction_view(c)) =~= before.map_values(
                    |c: NameCorrection| correction_view(c),
                ).push((texts_v[j as int], names_v[j as int], dsi[j as int])));
            }
            count = count + 1;
        } else {
            assert(kept(dsi, k as nat, j + 1) == kept(dsi, k as nat, j as int));
        }
        j = j + 1;
    }
    ParsedScreenshot { scores: res, corrections }
}


proof fn lemma_closest_from(names: Seq<Seq<char>>, text: Seq<char>, best: Seq<char>, best_distance: nat)
    ensures
        closest_from(names, text, best, best_distance).1 <= best_distance,
        forall|i: int|
            0 <= i < names.len() ==> closest_from(names, text, best, best_distance).1
                <= edit_distance(#[trigger] names[i], text),
        closest_from(names, text, best, best_distance) == (best, best_distance) || exists|i: int|
            0 <= i < names.len() && closest_from(names, text, best, best_distance) == (
                #[trigger] names[i],
                edit_distance(names[i], text),
            ),
    decreases names.len(),
{
    if names.len() > 0 {
        let d = edit_distance(names[0], text);
        let rest = names.drop_first();
        if d < best_distance {
            lemma_closest_from(rest, text, names[0], d);
        } else {
            lemma_closest_from(rest, text, best, best_distance);
        }
        let r = closest_from(names, text, best, best_distance);
        assert forall|i: int| 0 <= i < names.len() implies r.1 <= edit_distance(#[trigger] names[i], text) by {
            if i > 0 {
                assert(names[i] == rest[i - 1]);
            }
        }
        if r != (best, best_distance) {
            if r == (names[0], d) {
            } else {
                let q = choose|q: int| 0 <= q < rest.len() && r == (#[trigger] rest[q], edit_distance(rest[q], text));
                assert(names[q + 1] == rest[q]);
            }
        }
    }
}

/// The name chosen for a text is at least as close as every character name,
/// and is either a character name at its distance or, when none is closer
/// than 1000 edits, the default name.
pub proof fn law_closest_name(umas: Seq<Seq<char>>, text: Seq<char>)
    ensures
        closest_name(umas, text).1 <= 1000,
        forall|i: int|
            0 <= i < umas.len() ==> closest_name(umas, text).1 <= edit_distance(#[trigger] umas[i], text),
        closest_name(umas, text) == (default_name(), 1000nat) || exists|i: int|
            0 <= i < umas.len() && closest_name(umas, text) == (
                #[trigger] umas[i],
                edit_distance(umas[i], text),
            ),
{
    lemma_closest_from(umas, text, default_name(), 1000);
}

proof fn lemma_assigned(names: Seq<Seq<char>>, sel: Seq<int>, scores: Seq<int>)
    ensures
        forall|k: Seq<char>|
            #[trigger] assigned(names, sel, scores).contains_key(k) ==> exists|p: int|
                0 <= p < sel.len() && k == names[#[trigger] sel[p]] && assigned(names, sel, scores)[k]
                    == scores[p] as u32,
    decreases sel.len(),
{
    if sel.len() > 0 {
        let prev = sel.drop_last();
        lemma_assigned(names, prev, scores);
        assert forall|k: Seq<char>| #[trigger] assigned(names, sel, scores).contains_key(k) implies exists|p: int|
            0 <= p < sel.len() && k == names[#[trigger] sel[p]] && assigned(names, sel, scores)[k]
                == scores[p] as u32 by {
            let last = sel.len() - 1;
            if k == names[sel[last]] {
                assert(sel[last] == sel.last());
            } else {
                let p = choose|p: int|
                    0 <= p < prev.len() && k == names[#[trigger] prev[p]] && assigned(names, prev, scores)[k]
                        == scores[p] as u32;
                assert(sel[p] == prev[p]);
            }
        }
    }
}

/// Every name given a score is a character name or the default name, and
/// every score given is one of the scores read from the screenshot.
pub proof fn law_parsed_scores(lines: Seq<Seq<char>>, umas: Seq<Seq<char>>)
    ensures
        forall|k: Seq<char>|
            #[trigger] parsed_scores(lines, umas).contains_key(k) ==> (k == default_name()
                || umas.contains(k)) && exists|p: int|
                0 <= p < scores_read(lines).len() && parsed_scores(lines, umas)[k] == #[trigger] scores_read(
                    lines,
                )[p] as u32,
{
    let texts = names_read(lines);
    let names = corrected_names(lines, umas);
    let ds = distances(lines, umas);
    let k = scores_read(lines).len();
    let sel = kept_names(lines, umas);
    lemma_assigned(names, sel, scores_read(lines));
    lemma_kept_increasing(ds, k, texts.len() as int);
    lemma_kept_len(ds, k, texts.len() as int);
    assert forall|key: Seq<char>| #[trigger] parsed_scores(lines, umas).contains_key(key) implies (key
        == default_name() || umas.contains(key)) && exists|p: int|
        0 <= p < scores_read(lines).len() && parsed_scores(lines, umas)[key] == #[trigger] scores_read(
            lines,
        )[p] as u32 by {
        let p = choose|p: int|
            0 <= p < sel.len() && key == names[#[trigger] sel[p]] && assigned(names, sel, scores_read(lines))[key]
                == scores_read(lines)[p] as u32;
        let j = sel[p];
        assert(0 <= j < texts.len());
        law_closest_name(umas, texts[j]);
        if closest_name(umas, texts[j]) != (default_name(), 1000nat) {
            let i = choose|i: int|
                0 <= i < umas.len() && closest_name(umas, texts[j]) == (
                    #[trigger] umas[i],
                    edit_distance(umas[i], texts[j]),
                );
            assert(umas[i] == key);
        }
        assert(p < scores_read(lines).len());
    }
}

/// No more names are kept than there are scores read, or names read.
pub proof fn law_kept_names(lines: Seq<Seq<char>>, umas: Seq<Seq<char>>)
    ensures
        kept_names(lines, umas).len() <= scores_read(lines).len(),
        kept_names(lines, umas).len() <= names_read(lines).len(),
{
    let ds = distances(lines, umas);
    let n = names_read(lines).len() as int;
    lemma_kept_len(ds, scores_read(lines).len(), n);
    lemma_kept_increasing(ds, scores_read(lines).len(), n);
    lemma_kept_at_most(ds, scores_read(lines).len(), n);
}

proof fn lemma_kept_at_most(ds: Seq<int>, k: nat, n: int)
    requires
        0 <= n,
    ensures
        kept(ds, k, n).len() <= n,
    decreases n,
{
    if n > 0 {
        lemma_kept_at_most(ds, k, n - 1);
    }
}

} // verus!
