//! Path expressions: positional addresses such as
//! `/project/target[1]/groups/group[2]/files/file[3]`.
//!
//! A path is a sequence of segments. Each segment names a tag and a 1-based
//! index that counts only the siblings with that tag. In text form the
//! segments are separated by `/`; the index stands in square brackets behind
//! the tag. A segment without brackets has index 1, and a segment remembers
//! whether its index is written, so that its text can be given back as it
//! was.

use vstd::prelude::*;
use vstd::string::*;
use crate::error::DocError;
use crate::text::chars_of;

verus! {

/// One step of a path: the `index`-th child with tag `tag`. `indexed` says
/// whether the text of the segment writes the index.
#[derive(Clone, Debug, PartialEq, Eq)]
pub struct Segment {
    pub tag: String,
    pub index: usize,
    pub indexed: bool,
}

/// The mathematical value of a segment.
pub struct SegmentModel {
    pub tag: Seq<char>,
    pub index: nat,
    pub indexed: bool,
}

impl View for Segment {
    type V = SegmentModel;

    open spec fn view(&self) -> SegmentModel {
        SegmentModel { tag: self.tag@, index: self.index as nat, indexed: self.indexed }
    }
}

/// A positional address: segments from the document root downwards.
#[derive(Clone, Debug, PartialEq, Eq)]
pub struct PathExpr {
    pub segments: Vec<Segment>,
}

impl View for PathExpr {
    type V = Seq<SegmentModel>;

    open spec fn view(&self) -> Seq<SegmentModel> {
        Seq::new(self.segments@.len(), |i: int| self.segments@[i]@)
    }
}

/// The least position in `[from, to)` at which `s` holds `c`, or `to` if
/// there is none.
pub open spec fn first_index(s: Seq<char>, c: char, from: int, to: int) -> int
    decreases to - from,
{
    if from >= to {
        to
    } else if s[from] == c {
        from
    } else {
        first_index(s, c, from + 1, to)
    }
}

/// Whether a character is a decimal digit.
pub open spec fn is_digit(c: char) -> bool {
    c == '0' || c == '1' || c == '2' || c == '3' || c == '4' || c == '5' || c == '6' || c == '7'
        || c == '8' || c == '9'
}

/// The number that a decimal digit denotes; 0 for other characters.
pub open spec fn digit_value(c: char) -> nat {
    if c == '1' {
        1
    } else if c == '2' {
        2
    } else if c == '3' {
        3
    } else if c == '4' {
        4
    } else if c == '5' {
        5
    } else if c == '6' {
        6
    } else if c == '7' {
        7
    } else if c == '8' {
        8
    } else if c == '9' {
        9
    } else {
        0
    }
}

/// The decimal digit for a number below ten.
pub open spec fn digit_char(d: nat) -> char {
    if d == 1 {
        '1'
    } else if d == 2 {
        '2'
    } else if d == 3 {
        '3'
    } else if d == 4 {
        '4'
    } else if d == 5 {
        '5'
    } else if d == 6 {
        '6'
    } else if d == 7 {
        '7'
    } else if d == 8 {
        '8'
    } else if d == 9 {
        '9'
    } else {
        '0'
    }
}

/// Whether every character is a decimal digit.
pub open spec fn all_digits(s: Seq<char>) -> bool {
    forall|i: int| 0 <= i < s.len() ==> is_digit(#[trigger] s[i])
}

/// The number that a run of decimal digits denotes.
pub open spec fn decimal_value(s: Seq<char>) -> nat
    decreases s.len(),
{
    if s.len() == 0 {
        0
    } else {
        10 * decimal_value(s.drop_last()) + digit_value(s.last())
    }
}

/// The decimal numeral of `n`, without leading zeros.
pub open spec fn decimal_digits(n: nat) -> Seq<char>
    decreases n,
{
    if n < 10 {
        seq![digit_char(n)]
    } else {
        decimal_digits(n / 10).push(digit_char(n % 10))
    }
}

/// What one piece of text between two separators denotes: a tag alone stands
/// for index 1, not written; `tag[digits]` for the index that the digits
/// give, written, which must be at least 1 and fit the machine. Anything else
/// denotes nothing.
pub open spec fn parse_segment(piece: Seq<char>) -> Option<SegmentModel> {
    let k = first_index(piece, '[', 0, piece.len() as int);
    if k == piece.len() {
        if piece.len() > 0 {
            Some(SegmentModel { tag: piece, index: 1, indexed: false })
        } else {
            None
        }
    } else {
        let digits = piece.subrange(k + 1, piece.len() - 1);
        if 0 < k && k + 1 < piece.len() - 1 && piece.last() == ']' && all_digits(digits) && 1
            <= decimal_value(digits) <= usize::MAX {
            Some(SegmentModel { tag: piece.take(k), index: decimal_value(digits), indexed: true })
        } else {
            None
        }
    }
}

/// The first index lies in its range, holds the character where it lies
/// before the end, and no earlier position holds the character.
pub proof fn lemma_first_index_bounds(s: Seq<char>, c: char, from: int, to: int)
    requires
        from <= to,
    ensures
        from <= first_index(s, c, from, to) <= to,
        first_index(s, c, from, to) < to ==> s[first_index(s, c, from, to)] == c,
        forall|i: int| from <= i < first_index(s, c, from, to) ==> s[i] != c,
    decreases to - from,
{
    if from < to && s[from] != c {
        lemma_first_index_bounds(s, c, from + 1, to);
    }
}

/// What the text from position `from` on denotes: empty pieces are passed
/// over, and every other piece must denote a segment.
pub open spec fn parse_from(s: Seq<char>, from: int) -> Option<Seq<SegmentModel>>
    decreases s.len() - from,
{
    if from < 0 || from >= s.len() {
        Some(Seq::empty())
    } else if s[from] == '/' {
        parse_from(s, from + 1)
    } else {
        let end = first_index(s, '/', from + 1, s.len() as int);
        proof {
            lemma_first_index_bounds(s, '/', from + 1, s.len() as int);
        }
        match parse_segment(s.subrange(from, end)) {
            None => None,
            Some(seg) => match parse_from(s, end) {
                None => None,
                Some(rest) => Some(seq![seg] + rest),
            },
        }
    }
}

/// The path that a text denotes, if it denotes one.
pub open spec fn parse_path(s: Seq<char>) -> Option<Seq<SegmentModel>> {
    parse_from(s, 0)
}

/// The text of one segment: a separator, the tag and, where the segment
/// writes it, the index in brackets.
pub open spec fn format_segment(seg: SegmentModel) -> Seq<char> {
    if !seg.indexed {
        seq!['/'] + seg.tag
    } else {
        seq!['/'] + seg.tag + seq!['['] + decimal_digits(seg.index) + seq![']']
    }
}

/// The text of a path.
pub open spec fn format_path(e: Seq<SegmentModel>) -> Seq<char>
    decreases e.len(),
{
    if e.len() == 0 {
        Seq::empty()
    } else {
        format_segment(e[0]) + format_path(e.drop_first())
    }
}

/// A tag that can stand in a path text: not empty, and free of `/` and `[`.
pub open spec fn valid_tag(t: Seq<char>) -> bool {
    &&& t.len() > 0
    &&& forall|i: int| 0 <= i < t.len() ==> #[trigger] t[i] != '/' && t[i] != '['
}

/// A segment that can stand in a path text: a valid tag, an index that is
/// at least 1 and fits the machine, and index 1 where it is not written.
pub open spec fn valid_segment(seg: SegmentModel) -> bool {
    &&& valid_tag(seg.tag)
    &&& 1 <= seg.index <= usize::MAX
    &&& !seg.indexed ==> seg.index == 1
}

/// A path of which every segment can stand in a path text.
pub open spec fn valid_path(e: Seq<SegmentModel>) -> bool {
    forall|i: int| 0 <= i < e.len() ==> valid_segment(#[trigger] e[i])
}

/// Whether the path addresses a group: it ends in `groups` then `group`.
pub open spec fn is_group_position(e: Seq<SegmentModel>) -> bool {
    &&& e.len() >= 2
    &&& e[e.len() - 2].tag == "groups"@
    &&& e[e.len() - 1].tag == "group"@
}

/// Whether the path addresses a file: it ends in `files` then `file`.
pub open spec fn is_file_position(e: Seq<SegmentModel>) -> bool {
    &&& e.len() >= 2
    &&& e[e.len() - 2].tag == "files"@
    &&& e[e.len() - 1].tag == "file"@
}

/// The digits of a numeral are digits, and they denote the number.
pub proof fn lemma_decimal_round_trip(n: nat)
    ensures
        decimal_digits(n).len() >= 1,
        all_digits(decimal_digits(n)),
        decimal_value(decimal_digits(n)) == n,
    decreases n,
{
    if n < 10 {
        let d = decimal_digits(n);
        assert(d.drop_last() =~= Seq::<char>::empty());
        assert(decimal_value(d.drop_last()) == 0);
    } else {
        lemma_decimal_round_trip(n / 10);
        let d = decimal_digits(n);
        let front = decimal_digits(n / 10);
        assert(d.drop_last() =~= front);
        assert forall|i: int| 0 <= i < d.len() implies is_digit(#[trigger] d[i]) by {
            if i < front.len() {
                assert(d[i] == front[i]);
            }
        }
    }
}

/// A position is the first index where it holds the character, or is the
/// end, and nothing before it does.
proof fn lemma_first_index_is(s: Seq<char>, c: char, from: int, to: int, m: int)
    requires
        0 <= from <= m <= to <= s.len(),
        forall|i: int| from <= i < m ==> s[i] != c,
        m < to ==> s[m] == c,
    ensures
        first_index(s, c, from, to) == m,
    decreases m - from,
{
    if from < m {
        lemma_first_index_is(s, c, from + 1, to, m);
    }
}

/// The text of a segment without its leading separator.
pub open spec fn segment_piece(seg: SegmentModel) -> Seq<char> {
    if !seg.indexed {
        seg.tag
    } else {
        seg.tag + seq!['['] + decimal_digits(seg.index) + seq![']']
    }
}

/// The text of a valid segment is its piece behind one separator, and
/// the piece holds no separator.
proof fn lemma_piece_has_no_separator(seg: SegmentModel)
    requires
        valid_segment(seg),
    ensures
        segment_piece(seg).len() > 0,
        forall|i: int| 0 <= i < segment_piece(seg).len() ==> segment_piece(seg)[i] != '/',
        format_segment(seg) == seq!['/'] + segment_piece(seg),
{
    let piece = segment_piece(seg);
    if seg.indexed {
        lemma_decimal_round_trip(seg.index);
        let digits = decimal_digits(seg.index);
        let t = seg.tag.len() as int;
        assert forall|i: int| 0 <= i < piece.len() implies piece[i] != '/' by {
            if i < t {
                assert(piece[i] == seg.tag[i]);
            } else if i == t {
            } else if i < t + 1 + digits.len() {
                assert(piece[i] == digits[i - t - 1]);
                assert(is_digit(digits[i - t - 1]));
            } else {
            }
        }
        assert(format_segment(seg) =~= seq!['/'] + piece);
    } else {
        assert forall|i: int| 0 <= i < piece.len() implies piece[i] != '/' by {
            assert(piece[i] == seg.tag[i]);
        }
    }
}

/// Reading the text of a valid segment gives the segment back.
pub proof fn lemma_segment_round_trip(seg: SegmentModel)
    requires
        valid_segment(seg),
    ensures
        parse_segment(segment_piece(seg)) == Some(seg),
{
    let piece = segment_piece(seg);
    let t = seg.tag.len() as int;
    if !seg.indexed {
        assert forall|i: int| 0 <= i < t implies piece[i] != '[' by {
            assert(piece[i] == seg.tag[i]);
        }
        lemma_first_index_is(piece, '[', 0, t, t);
    } else {
        lemma_decimal_round_trip(seg.index);
        let digits = decimal_digits(seg.index);
        assert forall|i: int| 0 <= i < t implies piece[i] != '[' by {
            assert(piece[i] == seg.tag[i]);
        }
        assert(piece[t] == '[');
        lemma_first_index_is(piece, '[', 0, piece.len() as int, t);
        assert(piece.subrange(t + 1, piece.len() - 1) =~= digits);
        assert(piece.take(t) =~= seg.tag);
        assert(piece.last() == ']');
    }
}

/// Reading the text of a valid path gives the path back, wherever in a
/// text it starts.
proof fn lemma_path_round_trip_from(before: Seq<char>, e: Seq<SegmentModel>)
    requires
        valid_path(e),
    ensures
        parse_from(before + format_path(e), before.len() as int) == Some(e),
    decreases e.len(),
{
    let s = before + format_path(e);
    let at = before.len() as int;
    if e.len() == 0 {
        assert(parse_from(s, at) =~= Some(e));
    } else {
        let seg = e[0];
        let rest = e.drop_first();
        let piece = segment_piece(seg);
        let tail = format_path(rest);
        assert(valid_segment(seg));
        assert(valid_path(rest)) by {
            assert forall|i: int| 0 <= i < rest.len() implies valid_segment(#[trigger] rest[i]) by {
                assert(rest[i] == e[i + 1]);
            }
        }
        lemma_piece_has_no_separator(seg);
        let end = at + 1 + piece.len();
        assert(s =~= before + seq!['/'] + piece + tail);
        assert(s[at] == '/');
        assert(s[at + 1] == piece[0]);
        assert forall|i: int| at + 1 <= i < end implies s[i] != '/' by {
            assert(s[i] == piece[i - at - 1]);
        }
        if rest.len() > 0 {
            lemma_piece_has_no_separator(rest[0]);
            assert(tail[0] == '/');
            assert(s[end] == '/');
        } else {
            assert(tail.len() == 0);
        }
        lemma_first_index_is(s, '/', at + 2, s.len() as int, end);
        assert(s.subrange(at + 1, end) =~= piece);
        lemma_segment_round_trip(seg);
        let done = before + format_segment(seg);
        lemma_path_round_trip_from(done, rest);
        assert(done + tail =~= s);
        assert(done.len() == end);
        assert(seq![seg] + rest =~= e);
        assert(parse_from(s, end) == Some(rest));
        assert(parse_from(s, at + 1) == Some(e));
        assert(parse_from(s, at) == parse_from(s, at + 1));
    }
}

/// Reading the text of a valid path gives the path back.
pub proof fn lemma_path_round_trip(e: Seq<SegmentModel>)
    requires
        valid_path(e),
    ensures
        parse_path(format_path(e)) == Some(e),
{
    lemma_path_round_trip_from(Seq::empty(), e);
    assert(Seq::<char>::empty() + format_path(e) =~= format_path(e));
}

/// The first position in `[from, to)` that holds `c`, or `to`.
fn find_char(s: &Vec<char>, c: char, from: usize, to: usize) -> (r: usize)
    requires
        from <= to <= s@.len(),
    ensures
        r == first_index(s@, c, from as int, to as int),
        from <= r <= to,
{
    let mut i = from;
    while i < to
        invariant
            from <= i <= to <= s@.len(),
            first_index(s@, c, from as int, to as int) == first_index(s@, c, i as int, to as int),
        decreases to - i,
    {
        if s[i] == c {
            return i;
        }
        i += 1;
    }
    i
}

/// The number that a decimal digit denotes.
fn digit_of(c: char) -> (r: Option<usize>)
    ensures
        r is Some <==> is_digit(c),
        r matches Some(d) ==> d == digit_value(c) && d <= 9,
{
    if c == '0' {
        Some(0)
    } else if c == '1' {
        Some(1)
    } else if c == '2' {
        Some(2)
    } else if c == '3' {
        Some(3)
    } else if c == '4' {
        Some(4)
    } else if c == '5' {
        Some(5)
    } else if c == '6' {
        Some(6)
    } else if c == '7' {
        Some(7)
    } else if c == '8' {
        Some(8)
    } else if c == '9' {
        Some(9)
    } else {
        None
    }
}

/// A run of digits denotes at least what each of its prefixes denotes.
proof fn lemma_decimal_value_grows(s: Seq<char>, n: int)
    requires
        0 <= n <= s.len(),
    ensures
        decimal_value(s.take(n)) <= decimal_value(s),
    decreases s.len() - n,
{
    if n < s.len() {
        lemma_decimal_value_grows(s, n + 1);
        assert(s.take(n + 1).drop_last() =~= s.take(n));
    } else {
        assert(s.take(n) =~= s);
    }
}

/// Reads the digits in `[from, to)` as a number. `None` when a character is
/// no digit or the number does not fit.
fn read_number(s: &Vec<char>, from: usize, to: usize) -> (r: Option<usize>)
    requires
        from <= to <= s@.len(),
    ensures
        r is Some <==> all_digits(s@.subrange(from as int, to as int)) && decimal_value(
            s@.subrange(from as int, to as int),
        ) <= usize::MAX,
        r matches Some(v) ==> v == decimal_value(s@.subrange(from as int, to as int)),
{
    let ghost digits = s@.subrange(from as int, to as int);
    let mut acc: usize = 0;
    let mut i = from;
    assert(digits.take(0) =~= Seq::<char>::empty());
    while i < to
        invariant
            from <= i <= to <= s@.len(),
            digits == s@.subrange(from as int, to as int),
            all_digits(digits.take(i - from)),
            acc == decimal_value(digits.take(i - from)),
        decreases to - i,
    {
        let ghost before = digits.take(i - from);
        let ghost after = digits.take(i - from + 1);
        assert(after.drop_last() =~= before);
        assert(after.last() == s@[i as int]);
        match digit_of(s[i]) {
            None => {
                assert(!is_digit(digits[i - from]));
                return None;
            },
            Some(d) => {
                if acc > (usize::MAX - d) / 10 {
                    proof {
                        lemma_decimal_value_grows(digits, i - from + 1);
                    }
                    return None;
                }
                acc = acc * 10 + d;
                assert forall|j: int| 0 <= j < after.len() implies is_digit(#[trigger] after[j]) by {
                    if j < before.len() {
                        assert(after[j] == before[j]);
                    }
                }
            },
        }
        i += 1;
    }
    assert(digits.take(to - from) =~= digits);
    Some(acc)
}

/// The first index within a piece is the first index within the text,
/// counted from the start of the piece.
proof fn lemma_first_index_shift(s: Seq<char>, c: char, from: int, to: int, at: int)
    requires
        0 <= from <= at <= to <= s.len(),
    ensures
        first_index(s.subrange(from, to), c, at - from, to - from) == first_index(s, c, at, to)
            - from,
    decreases to - at,
{
    if at < to {
        lemma_first_index_shift(s, c, from, to, at + 1);
    }
}

/// Parses the piece in `[from, to)`.
fn parse_piece(text: &str, s: &Vec<char>, from: usize, to: usize) -> (r: Option<Segment>)
    requires
        s@ == text@,
        from < to <= s@.len(),
    ensures
        r is Some <==> parse_segment(s@.subrange(from as int, to as int)) is Some,
        r matches Some(seg) ==> Some(seg@) == parse_segment(s@.subrange(from as int, to as int)),
{
    let ghost piece = s@.subrange(from as int, to as int);
    let k = find_char(s, '[', from, to);
    proof {
        lemma_first_index_shift(s@, '[', from as int, to as int, from as int);
    }
    if k == to {
        let tag = String::from_str(text.substring_char(from, to));
        return Some(Segment { tag, index: 1, indexed: false });
    }
    if k == from || k + 1 >= to - 1 || s[to - 1] != ']' {
        return None;
    }
    assert(piece.subrange(k - from + 1, piece.len() - 1) =~= s@.subrange(k + 1, to - 1));
    match read_number(s, k + 1, to - 1) {
        None => None,
        Some(index) => {
            if index == 0 {
                return None;
            }
            let tag = String::from_str(text.substring_char(from, k));
            assert(piece.take(k - from) =~= s@.subrange(from as int, k as int));
            Some(Segment { tag, index, indexed: true })
        },
    }
}

/// Parses a path text. Fails with `MalformedPath` exactly when the text
/// denotes no path.
pub fn parse(text: &str) -> (r: Result<PathExpr, DocError>)
    ensures
        match r {
            Ok(expr) => parse_path(text@) == Some(expr@),
            Err(e) => e == DocError::MalformedPath && parse_path(text@) is None,
        },
{
    let s = chars_of(text);
    let n = s.len();
    let mut segments: Vec<Segment> = Vec::new();
    let mut i: usize = 0;
    let ghost mut done: Seq<SegmentModel> = Seq::empty();
    while i < n
        invariant
            s@ == text@,
            n == s@.len(),
            i <= n,
            done == Seq::new(segments@.len(), |j: int| segments@[j]@),
            parse_path(s@) == match parse_from(s@, i as int) {
                None => None::<Seq<SegmentModel>>,
                Some(rest) => Some(done + rest),
            },
        decreases n - i,
    {
        if s[i] == '/' {
            i += 1;
        } else {
            let end = find_char(&s, '/', i + 1, n);
            match parse_piece(text, &s, i, end) {
                None => {
                    return Err(DocError::MalformedPath);
                },
                Some(seg) => {
                    proof {
                        let rest_after = parse_from(s@, end as int);
                        if rest_after is Some {
                            assert(done + (seq![seg@] + rest_after->0) =~= done.push(seg@)
                                + rest_after->0);
                        }
                        done = done.push(seg@);
                    }
                    segments.push(seg);
                    assert(done =~= Seq::new(segments@.len(), |j: int| segments@[j]@));
                    i = end;
                },
            }
        }
    }
    assert(done + Seq::<SegmentModel>::empty() =~= done);
    Ok(PathExpr { segments })
}

/// The decimal digit for a number below ten, as a text.
fn digit_text(d: usize) -> (r: &'static str)
    requires
        d <= 9,
    ensures
        r@ == seq![digit_char(d as nat)],
{
    proof {
        reveal_strlit("0");
        reveal_strlit("1");
        reveal_strlit("2");
        reveal_strlit("3");
        reveal_strlit("4");
        reveal_strlit("5");
        reveal_strlit("6");
        reveal_strlit("7");
        reveal_strlit("8");
        reveal_strlit("9");
    }
    let r = if d == 0 {
        "0"
    } else if d == 1 {
        "1"
    } else if d == 2 {
        "2"
    } else if d == 3 {
        "3"
    } else if d == 4 {
        "4"
    } else if d == 5 {
        "5"
    } else if d == 6 {
        "6"
    } else if d == 7 {
        "7"
    } else if d == 8 {
        "8"
    } else {
        "9"
    };
    assert(r@ =~= seq![digit_char(d as nat)]);
    r
}

/// The decimal numeral of `n`.
pub fn format_number(n: usize) -> (r: String)
    ensures
        r@ == decimal_digits(n as nat),
{
    let mut out = String::from_str(digit_text(n % 10));
    let mut rest = n / 10;
    while rest > 0
        invariant
            decimal_digits(n as nat) == if rest > 0 {
                decimal_digits(rest as nat) + out@
            } else {
                out@
            },
        decreases rest,
    {
        let ghost before = out@;
        out = String::from_str(digit_text(rest % 10)).concat(out.as_str());
        proof {
            if rest >= 10 {
                assert(decimal_digits(rest as nat) + before =~= decimal_digits((rest / 10) as nat)
                    + out@);
            } else {
                assert(decimal_digits(rest as nat) + before =~= out@);
            }
        }
        rest = rest / 10;
    }
    out
}

/// The numeral that follows the numeral in the first `n` characters of a
/// text of digits.
fn successor(text: &str, chars: &Vec<char>, n: usize) -> (r: String)
    requires
        chars@ == text@,
        n <= chars@.len(),
        all_digits(chars@.take(n as int)),
    ensures
        all_digits(r@),
        r@.len() >= 1,
        decimal_value(r@) == decimal_value(chars@.take(n as int)) + 1,
    decreases n,
{
    let ghost s = chars@.take(n as int);
    if n == 0 {
        proof {
            reveal_strlit("1");
            assert("1"@.drop_last() =~= Seq::<char>::empty());
            assert(decimal_value("1"@.drop_last()) == 0);
        }
        return String::from_str("1");
    }
    proof {
        assert(s.drop_last() =~= chars@.take(n - 1));
        assert(s.last() == chars@[n - 1]);
        assert(is_digit(s[n - 1]));
        assert forall|j: int| 0 <= j < n - 1 implies is_digit(
            #[trigger] chars@.take(n - 1)[j],
        ) by {
            assert(chars@.take(n - 1)[j] == s[j]);
        }
    }
    let d = match digit_of(chars[n - 1]) {
        Some(d) => d,
        None => 9,
    };
    if d < 9 {
        let mut out = String::from_str(text.substring_char(0, n - 1));
        let ghost front = out@;
        out.append(digit_text(d + 1));
        proof {
            assert(front =~= chars@.take(n - 1));
            assert(out@.drop_last() =~= front);
            assert(out@.last() == digit_char((d + 1) as nat));
            assert forall|j: int| 0 <= j < out@.len() implies is_digit(#[trigger] out@[j]) by {
                if j < front.len() {
                    assert(out@[j] == front[j]);
                }
            }
        }
        out
    } else {
        let mut out = successor(text, chars, n - 1);
        let ghost front = out@;
        proof {
            reveal_strlit("0");
        }
        out.append("0");
        proof {
            assert(out@.drop_last() =~= front);
            assert(out@.last() == '0');
            assert forall|j: int| 0 <= j < out@.len() implies is_digit(#[trigger] out@[j]) by {
                if j < front.len() {
                    assert(out@[j] == front[j]);
                }
            }
        }
        out
    }
}

/// The numeral of the number after the one that `text` denotes. The number
/// is not bounded by the machine.
pub fn next_numeral(text: &str) -> (r: String)
    requires
        all_digits(text@),
    ensures
        all_digits(r@),
        r@.len() >= 1,
        decimal_value(r@) == decimal_value(text@) + 1,
{
    let chars = chars_of(text);
    assert(chars@.take(chars@.len() as int) =~= text@);
    successor(text, &chars, chars.len())
}

impl PathExpr {
    /// The path with no segments.
    pub fn new() -> (r: PathExpr)
        ensures
            r@ == Seq::<SegmentModel>::empty(),
    {
        let r = PathExpr { segments: Vec::new() };
        assert(r@ =~= Seq::<SegmentModel>::empty());
        r
    }

    /// The number of segments.
    pub fn len(&self) -> (n: usize)
        ensures
            n == self@.len(),
    {
        self.segments.len()
    }

    /// Appends the segment `tag[index]`, with its index written.
    pub fn push(&mut self, tag: &str, index: usize)
        ensures
            final(self)@ == old(self)@.push(
                SegmentModel { tag: tag@, index: index as nat, indexed: true },
            ),
    {
        self.segments.push(Segment { tag: String::from_str(tag), index, indexed: true });
        assert(self@ =~= old(self)@.push(
            SegmentModel { tag: tag@, index: index as nat, indexed: true },
        ));
    }

    /// Appends the segment `tag`, which stands for index 1 and writes none.
    pub fn push_plain(&mut self, tag: &str)
        ensures
            final(self)@ == old(self)@.push(SegmentModel { tag: tag@, index: 1, indexed: false }),
    {
        self.segments.push(Segment { tag: String::from_str(tag), index: 1, indexed: false });
        assert(self@ =~= old(self)@.push(SegmentModel { tag: tag@, index: 1, indexed: false }));
    }

    /// A copy of this path.
    pub fn copy(&self) -> (r: PathExpr)
        ensures
            r@ == self@,
    {
        let mut segments: Vec<Segment> = Vec::new();
        let mut i: usize = 0;
        while i < self.segments.len()
            invariant
                i <= self.segments@.len(),
                segments@.len() == i,
                forall|j: int| 0 <= j < i ==> segments@[j]@ == self.segments@[j]@,
            decreases self.segments@.len() - i,
        {
            let seg = &self.segments[i];
            segments.push(Segment { tag: seg.tag.clone(), index: seg.index, indexed: seg.indexed });
            i += 1;
        }
        let r = PathExpr { segments };
        assert(r@ =~= self@);
        r
    }

    /// A copy of this path with the segment `tag[index]` appended, its index
    /// written.
    pub fn child(&self, tag: &str, index: usize) -> (r: PathExpr)
        ensures
            r@ == self@.push(SegmentModel { tag: tag@, index: index as nat, indexed: true }),
    {
        let mut r = self.copy();
        r.push(tag, index);
        r
    }

    /// A copy of this path with the segment `tag` appended, which stands for
    /// index 1 and writes none.
    pub fn child_plain(&self, tag: &str) -> (r: PathExpr)
        ensures
            r@ == self@.push(SegmentModel { tag: tag@, index: 1, indexed: false }),
    {
        let mut r = self.copy();
        r.push_plain(tag);
        r
    }

    /// The text of this path.
    pub fn format(&self) -> (r: String)
        ensures
            r@ == format_path(self@),
    {
        let mut out = String::new();
        let mut i: usize = 0;
        assert(self@.skip(0) =~= self@);
        while i < self.segments.len()
            invariant
                i <= self.segments@.len(),
                format_path(self@) == out@ + format_path(self@.skip(i as int)),
            decreases self.segments@.len() - i,
        {
            let ghost before = out@;
            let ghost rest = self@.skip(i as int);
            let seg = &self.segments[i];
            assert(rest[0] == seg@);
            assert(rest.drop_first() =~= self@.skip(i + 1));
            proof {
                reveal_strlit("/");
                reveal_strlit("[");
                reveal_strlit("]");
            }
            out.append("/");
            out.append(seg.tag.as_str());
            if seg.indexed {
                out.append("[");
                let digits = format_number(seg.index);
                out.append(digits.as_str());
                out.append("]");
            }
            assert(out@ =~= before + format_segment(seg@));
            assert(before + (format_segment(seg@) + format_path(rest.drop_first())) =~= out@
                + format_path(self@.skip(i + 1)));
            i += 1;
        }
        assert(out@ + Seq::<char>::empty() =~= out@);
        out
    }

    /// Whether the path addresses a group.
    pub fn is_group_position(&self) -> (r: bool)
        ensures
            r == is_group_position(self@),
    {
        let n = self.segments.len();
        n >= 2 && crate::text::same_text(self.segments[n - 2].tag.as_str(), "groups")
            && crate::text::same_text(self.segments[n - 1].tag.as_str(), "group")
    }

    /// Whether the path addresses a file.
    pub fn is_file_position(&self) -> (r: bool)
        ensures
            r == is_file_position(self@),
    {
        let n = self.segments.len();
        n >= 2 && crate::text::same_text(self.segments[n - 2].tag.as_str(), "files")
            && crate::text::same_text(self.segments[n - 1].tag.as_str(), "file")
    }
}

} // verus!
