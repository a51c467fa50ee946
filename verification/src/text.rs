use vstd::prelude::*;

verus! {

/// The characters of `s`, in order.
pub fn chars_of(s: &str) -> (v: Vec<char>)
    ensures
        v@ == s@,
{
    let mut v: Vec<char> = Vec::new();
    for c in iter: s.chars()
        invariant
            v@ == iter.seq().take(iter.index() as int),
    {
        v.push(c);
    }
    v
}


/// The string of the characters `v`.
///
/// Trusted: collects the characters with std's `FromIterator<&char>` for
/// `String`, which appends each character in turn; the contract claims the
/// string holds exactly those characters.
#[verifier::external_body]
pub(crate) fn string_from_chars(v: &Vec<char>) -> (s: String)
    ensures
        s@ == v@,
{
    v.iter().collect::<String>()
}

/// Whether `c` has the Unicode `White_Space` property, which is what std's
/// `char::is_whitespace` tests: tab, line feed, vertical tab, form feed,
/// carriage return, space, next line, no-break space, ogham space mark, the
/// spaces from en quad to hair space, line and paragraph separator, narrow
/// no-break space, medium mathematical space and ideographic space.
pub open spec fn unicode_white_space(c: char) -> bool {
    let u = c as u32;
    ||| 0x09 <= u <= 0x0D
    ||| u == 0x20
    ||| u == 0x85
    ||| u == 0xA0
    ||| u == 0x1680
    ||| 0x2000 <= u <= 0x200A
    ||| u == 0x2028
    ||| u == 0x2029
    ||| u == 0x202F
    ||| u == 0x205F
    ||| u == 0x3000
}

/// Whether `c` is whitespace, as `char::is_whitespace` tells.
pub fn is_whitespace(c: char) -> (b: bool)
    ensures
        b == unicode_white_space(c),
{
    let u = c as u32;
    (0x09 <= u && u <= 0x0D) || u == 0x20 || u == 0x85 || u == 0xA0 || u == 0x1680 || (0x2000
        <= u && u <= 0x200A) || u == 0x2028 || u == 0x2029 || u == 0x202F || u == 0x205F || u
        == 0x3000
}

/// Whether `c` is one of the ASCII digits `0` to `9`.
pub open spec fn is_digit(c: char) -> bool {
    '0' <= c <= '9'
}

/// `s` without its leading whitespace.
pub open spec fn trim_start(s: Seq<char>) -> Seq<char>
    decreases s.len(),
{
    if s.len() > 0 && unicode_white_space(s[0]) {
        trim_start(s.drop_first())
    } else {
        s
    }
}

/// `s` without its trailing whitespace.
pub open spec fn trim_end(s: Seq<char>) -> Seq<char>
    decreases s.len(),
{
    if s.len() > 0 && unicode_white_space(s.last()) {
        trim_end(s.drop_last())
    } else {
        s
    }
}

/// `s` without leading and trailing whitespace.
pub open spec fn trimmed(s: Seq<char>) -> Seq<char> {
    trim_end(trim_start(s))
}

/// The characters of `v` without leading and trailing whitespace.
pub fn trim(v: &Vec<char>) -> (r: Vec<char>)
    ensures
        r@ == trimmed(v@),
{
    let mut start: usize = 0;
    assert(v@.skip(0) == v@);
    while start < v.len() && is_whitespace(v[start])
        invariant
            start <= v.len(),
            trim_start(v@) == trim_start(v@.skip(start as int)),
        decreases v.len() - start,
    {
        assert(v@.skip(start as int).drop_first() == v@.skip(start + 1));
        start = start + 1;
    }
    let ghost rest = v@.skip(start as int);
    assert(trim_start(v@) == rest);
    let mut end: usize = v.len();
    assert(rest.take(rest.len() as int) == rest);
    while end > start && is_whitespace(v[end - 1])
        invariant
            start <= end <= v.len(),
            rest == v@.skip(start as int),
            trim_end(rest) == trim_end(rest.take(end - start)),
        decreases end,
    {
        assert(rest.take(end - start).drop_last() == rest.take(end - 1 - start));
        end = end - 1;
    }
    let mut r: Vec<char> = Vec::new();
    let mut i: usize = start;
    while i < end
        invariant
            start <= i <= end <= v.len(),
            r@ == v@.subrange(start as int, i as int),
        decreases end - i,
    {
        r.push(v[i]);
        i = i + 1;
    }
    assert(r@ == rest.take(end - start));
    r
}

/// `s` with every occurrence of `MVP` removed, the occurrences found from
/// the left without overlapping.
pub open spec fn without_mvp(s: Seq<char>) -> Seq<char>
    decreases s.len(),
{
    if s.len() == 0 {
        s
    } else if s.len() >= 3 && s[0] == 'M' && s[1] == 'V' && s[2] == 'P' {
        without_mvp(s.skip(3))
    } else {
        seq![s[0]] + without_mvp(s.skip(1))
    }
}

/// The characters of `v` with every `MVP` removed.
pub fn remove_mvp(v: &Vec<char>) -> (r: Vec<char>)
    ensures
        r@ == without_mvp(v@),
{
    let mut r: Vec<char> = Vec::new();
    let mut i: usize = 0;
    assert(v@.skip(0) == v@);
    while i < v.len()
        invariant
            i <= v.len(),
            r@ + without_mvp(v@.skip(i as int)) == without_mvp(v@),
        decreases v.len() - i,
    {
        let ghost rest = v@.skip(i as int);
        if v.len() - i >= 3 && v[i] == 'M' && v[i + 1] == 'V' && v[i + 2] == 'P' {
            assert(rest.skip(3) == v@.skip(i + 3));
            i = i + 3;
        } else {
            assert(rest.skip(1) == v@.skip(i + 1));
            let c = v[i];
            r.push(c);
            assert(r@ + without_mvp(v@.skip(i + 1)) == (r@.drop_last() + seq![c]) + without_mvp(
                v@.skip(i + 1),
            ));
            i = i + 1;
        }
    }
    assert(v@.skip(i as int).len() == 0);
    r
}

/// The number written in decimal by the digits `s`.
pub open spec fn decimal_value(s: Seq<char>) -> int
    decreases s.len(),
{
    if s.len() == 0 {
        0
    } else {
        10 * decimal_value(s.drop_last()) + (s.last() as int - '0' as int)
    }
}

/// Whether every character of `s` is a digit.
pub open spec fn all_digits(s: Seq<char>) -> bool {
    forall|i: int| 0 <= i < s.len() ==> is_digit(#[trigger] s[i])
}

/// A longer run of digits never has a smaller value.
proof fn lemma_decimal_prefix(s: Seq<char>, i: int)
    requires
        all_digits(s),
        0 <= i <= s.len(),
    ensures
        0 <= decimal_value(s.take(i)) <= decimal_value(s),
    decreases s.len(),
{
    if s.len() > 0 {
        if i == s.len() {
            assert(s.take(i) == s);
            lemma_decimal_prefix(s.drop_last(), s.len() - 1);
            assert(s.drop_last().take(s.len() - 1) == s.drop_last());
        } else {
            lemma_decimal_prefix(s.drop_last(), i);
            assert(s.drop_last().take(i) == s.take(i));
        }
        assert(is_digit(s[s.len() - 1]));
    }
}

/// The value of the digits `v`, or `None` when it exceeds the largest score.
pub fn digits_value(v: &[char]) -> (r: Option<u32>)
    requires
        all_digits(v@),
    ensures
        match r {
            Some(n) => n == decimal_value(v@),
            None => decimal_value(v@) > u32::MAX,
        },
{
    let mut value: u32 = 0;
    let mut i: usize = 0;
    assert(v@.take(0) == Seq::<char>::empty());
    while i < v.len()
        invariant
            i <= v.len(),
            all_digits(v@),
            value == decimal_value(v@.take(i as int)),
        decreases v.len() - i,
    {
        assert(v@.take(i + 1).drop_last() == v@.take(i as int));
        assert(is_digit(v@[i as int]));
        let d = (v[i] as u32) - ('0' as u32);
        if value > 429496729 || (value == 429496729 && d > 5) {
            proof {
                lemma_decimal_prefix(v@, i + 1);
            }
            return None;
        }
        value = value * 10 + d;
        i = i + 1;
    }
    assert(v@.take(v.len() as int) == v@);
    Some(value)
}

/// What std's `u32::from_str` gives for `s`: an optional `+` followed by at
/// least one digit, with a value that fits; `None` otherwise.
pub open spec fn parsed_u32(s: Seq<char>) -> Option<u32> {
    let d = if s.len() > 0 && s[0] == '+' {
        s.drop_first()
    } else {
        s
    };
    if d.len() > 0 && all_digits(d) && decimal_value(d) <= u32::MAX {
        Some(decimal_value(d) as u32)
    } else {
        None
    }
}

/// Reads `v` as a score written in decimal, as std's `u32::from_str` does.
pub fn parse_u32(v: &Vec<char>) -> (r: Option<u32>)
    ensures
        r == parsed_u32(v@),
{
    let start: usize = if v.len() > 0 && v[0] == '+' {
        1
    } else {
        0
    };
    let ghost d = if v@.len() > 0 && v@[0] == '+' {
        v@.drop_first()
    } else {
        v@
    };
    assert(d == v@.skip(start as int));
    if start >= v.len() {
        assert(d.len() == 0);
        return None;
    }
    let mut i: usize = start;
    while i < v.len()
        invariant
            start <= i <= v.len(),
            d == v@.skip(start as int),
            d == (if v@.len() > 0 && v@[0] == '+' {
                v@.drop_first()
            } else {
                v@
            }),
            forall|j: int| start <= j < i ==> is_digit(#[trigger] v@[j]),
        decreases v.len() - i,
    {
        if !('0' <= v[i] && v[i] <= '9') {
            assert(d[i - start] == v@[i as int]);
            assert(!is_digit(d[i - start]));
            assert(!all_digits(d));
            assert(parsed_u32(v@) == None::<u32>);
            return None;
        }
        i = i + 1;
    }
    let digits = slice_from(v, start);
    assert(digits@ == d);
    assert(all_digits(d)) by {
        assert forall|j: int| 0 <= j < d.len() implies is_digit(#[trigger] d[j]) by {
            assert(d[j] == v@[j + start]);
        }
    }
    digits_value(&digits)
}

/// The characters of `v` from position `start` on.
fn slice_from(v: &Vec<char>, start: usize) -> (r: Vec<char>)
    requires
        start <= v.len(),
    ensures
        r@ == v@.skip(start as int),
{
    let mut r: Vec<char> = Vec::new();
    let mut i = start;
    while i < v.len()
        invariant
            start <= i <= v.len(),
            r@ == v@.subrange(start as int, i as int),
        decreases v.len() - i,
    {
        r.push(v[i]);
        i = i + 1;
    }
    r
}


/// `l` without one trailing carriage return.
pub open spec fn strip_cr(l: Seq<char>) -> Seq<char> {
    if l.len() > 0 && l.last() == '\r' {
        l.drop_last()
    } else {
        l
    }
}

/// The lines of `s` after the partial line `cur`: a line feed ends a line,
/// together with a carriage return just before it; a last line without a
/// line feed counts when it is not empty.
pub open spec fn lines_from(s: Seq<char>, cur: Seq<char>) -> Seq<Seq<char>>
    decreases s.len(),
{
    if s.len() == 0 {
        if cur.len() == 0 {
            Seq::empty()
        } else {
            seq![cur]
        }
    } else if s[0] == '\n' {
        seq![strip_cr(cur)] + lines_from(s.drop_first(), Seq::empty())
    } else {
        lines_from(s.drop_first(), cur.push(s[0]))
    }
}

/// The lines of `s`, as std's `str::lines` gives them.
pub open spec fn lines_of(s: Seq<char>) -> Seq<Seq<char>> {
    lines_from(s, Seq::empty())
}

/// The characters of `cur` without one trailing carriage return.
fn without_cr(cur: Vec<char>) -> (r: Vec<char>)
    ensures
        r@ == strip_cr(cur@),
{
    let mut cur = cur;
    if cur.len() > 0 && cur[cur.len() - 1] == '\r' {
        cur.pop();
    }
    cur
}

/// The lines of `text`, as std's `str::lines` gives them.
pub fn lines(text: &str) -> (r: Vec<Vec<char>>)
    ensures
        r@.map_values(|l: Vec<char>| l@) == lines_of(text@),
{
    let chars = chars_of(text);
    let mut r: Vec<Vec<char>> = Vec::new();
    let mut cur: Vec<char> = Vec::new();
    let mut i: usize = 0;
    assert(chars@.skip(0) == chars@);
    while i < chars.len()
        invariant
            i <= chars.len(),
            r@.map_values(|l: Vec<char>| l@) + lines_from(chars@.skip(i as int), cur@) == lines_of(
                text@,
            ),
        decreases chars.len() - i,
    {
        let c = chars[i];
        let ghost rest = chars@.skip(i as int);
        assert(rest[0] == c);
        assert(rest.drop_first() == chars@.skip(i + 1));
        if c == '\n' {
            let ghost before = r@;
            let line = without_cr(cur);
            r.push(line);
            cur = Vec::new();
            assert(r@.map_values(|l: Vec<char>| l@) == before.map_values(|l: Vec<char>| l@).push(
                line@,
            ));
            assert(before.map_values(|l: Vec<char>| l@).push(line@) + lines_from(
                chars@.skip(i + 1),
                Seq::empty(),
            ) == before.map_values(|l: Vec<char>| l@) + (seq![line@] + lines_from(
                chars@.skip(i + 1),
                Seq::empty(),
            )));
        } else {
            cur.push(c);
        }
        i = i + 1;
    }
    if cur.len() > 0 {
        let ghost before = r@;
        r.push(cur);
        assert(r@.map_values(|l: Vec<char>| l@) == before.map_values(|l: Vec<char>| l@).push(
            cur@,
        ));
    }
    assert(chars@.skip(i as int).len() == 0);
    r
}

/// The pieces of `s` between spaces, after the partial piece `cur`.
pub open spec fn pieces_from(s: Seq<char>, cur: Seq<char>) -> Seq<Seq<char>>
    decreases s.len(),
{
    if s.len() == 0 {
        seq![cur]
    } else if s[0] == ' ' {
        seq![cur] + pieces_from(s.drop_first(), Seq::empty())
    } else {
        pieces_from(s.drop_first(), cur.push(s[0]))
    }
}

/// The pieces of `s` between spaces, empty ones included, as std's
/// `str::split(' ')` gives them.
pub open spec fn split_spaces(s: Seq<char>) -> Seq<Seq<char>> {
    pieces_from(s, Seq::empty())
}

/// The pieces of `v` between spaces.
pub fn split_on_spaces(v: &Vec<char>) -> (r: Vec<Vec<char>>)
    ensures
        r@.map_values(|p: Vec<char>| p@) == split_spaces(v@),
{
    let mut r: Vec<Vec<char>> = Vec::new();
    let mut cur: Vec<char> = Vec::new();
    let mut i: usize = 0;
    assert(v@.skip(0) == v@);
    while i < v.len()
        invariant
            i <= v.len(),
            r@.map_values(|p: Vec<char>| p@) + pieces_from(v@.skip(i as int), cur@) == split_spaces(
                v@,
            ),
        decreases v.len() - i,
    {
        let c = v[i];
        let ghost rest = v@.skip(i as int);
        assert(rest[0] == c);
        assert(rest.drop_first() == v@.skip(i + 1));
        if c == ' ' {
            let ghost before = r@;
            let ghost piece = cur@;
            r.push(cur);
            cur = Vec::new();
            assert(r@.map_values(|p: Vec<char>| p@) == before.map_values(|p: Vec<char>| p@).push(
                piece,
            ));
            assert(before.map_values(|p: Vec<char>| p@).push(piece) + pieces_from(
                v@.skip(i + 1),
                Seq::empty(),
            ) == before.map_values(|p: Vec<char>| p@) + (seq![piece] + pieces_from(
                v@.skip(i + 1),
                Seq::empty(),
            )));
        } else {
            cur.push(c);
        }
        i = i + 1;
    }
    let ghost before = r@;
    let ghost piece = cur@;
    r.push(cur);
    assert(r@.map_values(|p: Vec<char>| p@) == before.map_values(|p: Vec<char>| p@).push(piece));
    assert(v@.skip(i as int).len() == 0);
    r
}

/// The words `ws` joined with single spaces, as std's `join(" ")` does.
pub open spec fn joined(ws: Seq<Seq<char>>) -> Seq<char>
    decreases ws.len(),
{
    if ws.len() == 0 {
        Seq::empty()
    } else if ws.len() == 1 {
        ws[0]
    } else {
        joined(ws.drop_last()) + seq![' '] + ws.last()
    }
}

/// The words `ws` joined with single spaces.
pub fn join_words(ws: &Vec<Vec<char>>) -> (r: Vec<char>)
    ensures
        r@ == joined(ws@.map_values(|w: Vec<char>| w@)),
{
    let ghost all = ws@.map_values(|w: Vec<char>| w@);
    let mut r: Vec<char> = Vec::new();
    let mut i: usize = 0;
    assert(all.take(0) == Seq::<Seq<char>>::empty());
    while i < ws.len()
        invariant
            i <= ws.len(),
            all == ws@.map_values(|w: Vec<char>| w@),
            r@ == joined(all.take(i as int)),
        decreases ws.len() - i,
    {
        assert(all.take(i + 1).drop_last() == all.take(i as int));
        assert(all.take(i + 1).last() == ws@[i as int]@);
        let ghost before = r@;
        if i > 0 {
            r.push(' ');
        }
        let w = &ws[i];
        let mut j: usize = 0;
        let ghost start = r@;
        while j < w.len()
            invariant
                j <= w.len(),
                r@ == start + w@.take(j as int),
            decreases w.len() - j,
        {
            r.push(w[j]);
            assert(w@.take(j + 1) == w@.take(j as int).push(w@[j as int]));
            j = j + 1;
        }
        assert(w@.take(w.len() as int) == w@);
        if i == 0 {
            assert(all.take(1).len() == 1);
            assert(r@ == all.take(1)[0]);
        }
        i = i + 1;
    }
    assert(all.take(ws.len() as int) == all);
    r
}

/// `s` without its commas.
pub open spec fn without_commas(s: Seq<char>) -> Seq<char>
    decreases s.len(),
{
    if s.len() == 0 {
        s
    } else if s.last() == ',' {
        without_commas(s.drop_last())
    } else {
        without_commas(s.drop_last()).push(s.last())
    }
}

/// The characters of `v` without commas.
pub fn remove_commas(v: &Vec<char>) -> (r: Vec<char>)
    ensures
        r@ == without_commas(v@),
{
    let mut r: Vec<char> = Vec::new();
    let mut i: usize = 0;
    assert(v@.take(0) == Seq::<char>::empty());
    while i < v.len()
        invariant
            i <= v.len(),
            r@ == without_commas(v@.take(i as int)),
        decreases v.len() - i,
    {
        assert(v@.take(i + 1).drop_last() == v@.take(i as int));
        assert(v@.take(i + 1).last() == v@[i as int]);
        if v[i] != ',' {
            r.push(v[i]);
        }
        i = i + 1;
    }
    assert(v@.take(v.len() as int) == v@);
    r
}


/// The digit character for `d`, from 0 to 9.
pub open spec fn digit_char(d: int) -> char {
    (d + '0' as int) as char
}

/// The decimal digits of `n`, without leading zeros.
pub open spec fn decimal_digits(n: nat) -> Seq<char>
    decreases n,
{
    if n < 10 {
        seq![digit_char(n as int)]
    } else {
        decimal_digits(n / 10).push(digit_char((n % 10) as int))
    }
}

/// `n` written in decimal with at least two characters, as `{:02}` does:
/// a leading zero for a single digit, a minus sign before the digits of a
/// negative number.
pub open spec fn two_digits(n: int) -> Seq<char> {
    if n < 0 {
        seq!['-'] + decimal_digits((-n) as nat)
    } else if n < 10 {
        seq!['0', digit_char(n)]
    } else {
        decimal_digits(n as nat)
    }
}

/// Appends the decimal digits of `n` to `out`.
fn push_decimal(out: &mut Vec<char>, n: u64)
    ensures
        final(out)@ == old(out)@ + decimal_digits(n as nat),
    decreases n,
{
    if n >= 10 {
        push_decimal(out, n / 10);
    }
    let c = match n % 10 {
        0 => '0',
        1 => '1',
        2 => '2',
        3 => '3',
        4 => '4',
        5 => '5',
        6 => '6',
        7 => '7',
        8 => '8',
        _ => '9',
    };
    out.push(c);
    proof {
        assert(c == digit_char((n % 10) as int));
    }
}

/// Appends `n` written as `{:02}` writes it.
fn push_two_digits(out: &mut Vec<char>, n: i64)
    ensures
        final(out)@ == old(out)@ + two_digits(n as int),
{
    if n < 0 {
        out.push('-');
        let m = (0u64.wrapping_sub(n as u64)) as u64;
        assert(m == -n) by (bit_vector)
            requires
                n < 0,
                m == (0u64.wrapping_sub(n as u64)),
        ;
        push_decimal(out, m);
        assert(out@ == old(out)@ + (seq!['-'] + decimal_digits(m as nat)));
    } else {
        if n < 10 {
            out.push('0');
        }
        push_decimal(out, n as u64);
        if n < 10 {
            assert(decimal_digits(n as nat) == seq![digit_char(n as int)]);
            assert(out@ == old(out)@ + seq!['0', digit_char(n as int)]);
        }
    }
}

/// The name of the backup of the scores file last changed at the given
/// time: `YYYY-MM-DD HHMMSS`, each part written as `{:02}` writes it.
pub open spec fn backup_name(year: i32, month: u32, day: u32, hour: u32, minute: u32, second: u32) -> Seq<
    char,
> {
    two_digits(year as int) + seq!['-'] + two_digits(month as int) + seq!['-'] + two_digits(
        day as int,
    ) + seq![' '] + two_digits(hour as int) + two_digits(minute as int) + two_digits(second as int)
}

/// The name of the backup of the scores file last changed at the given
/// time.
pub fn backup_file_name(year: i32, month: u32, day: u32, hour: u32, minute: u32, second: u32) -> (s:
    String)
    ensures
        s@ == backup_name(year, month, day, hour, minute, second),
{
    let mut out: Vec<char> = Vec::new();
    push_two_digits(&mut out, year as i64);
    out.push('-');
    push_two_digits(&mut out, month as i64);
    out.push('-');
    push_two_digits(&mut out, day as i64);
    out.push(' ');
    push_two_digits(&mut out, hour as i64);
    push_two_digits(&mut out, minute as i64);
    push_two_digits(&mut out, second as i64);
    assert(out@ =~= backup_name(year, month, day, hour, minute, second));
    string_from_chars(&out)
}

} // verus!
