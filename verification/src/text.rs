//! Character-level building blocks for the tab-separated text that the
//! pipeline reads: lines, fields, words and decimal numbers.
//!
//! Every function works on a text given as its sequence of characters, and
//! every contract is stated over that sequence.

use vstd::prelude::*;
use vstd::std_specs::iter::IteratorSpec;

verus! {

/// `String::push` appends one character to the end of the string.
pub assume_specification[ String::push ](s: &mut String, c: char)
    ensures
        final(s)@ == old(s)@.push(c),
;

/// The view of each row of `v`.
pub open spec fn rows(v: Seq<Vec<char>>) -> Seq<Seq<char>> {
    Seq::new(v.len(), |i: int| v[i]@)
}

/// White space as Unicode defines it (the property `White_Space`).
pub open spec fn is_space(c: char) -> bool {
    let u = c as u32;
    ||| 0x09 <= u <= 0x0D
    ||| u == 0x20
    ||| u == 0x85
    ||| u == 0xA0
    ||| u == 0x1680
    ||| 0x2000 <= u <= 0x200A
    ||| u == 0x2028
    ||| u == 0x2029
    ||| u == 0x202F
    ||| u == 0x205F
    ||| u == 0x3000
}

/// Whether every character of `s` is white space (so also when `s` is empty).
pub open spec fn is_blank(s: Seq<char>) -> bool {
    forall|i: int| 0 <= i < s.len() ==> is_space(#[trigger] s[i])
}

/// The fields of `s[start..]` between occurrences of `sep`, when there is no
/// `sep` in `s[start..i]`.
pub open spec fn split_from(s: Seq<char>, sep: char, start: int, i: int) -> Seq<Seq<char>>
    recommends
        0 <= start <= i <= s.len(),
    decreases s.len() - i,
{
    if i >= s.len() {
        seq![s.subrange(start, s.len() as int)]
    } else if s[i] == sep {
        seq![s.subrange(start, i)] + split_from(s, sep, i + 1, i + 1)
    } else {
        split_from(s, sep, start, i + 1)
    }
}

/// The fields of `s` between occurrences of `sep`: always at least one field,
/// and one more for every separator.
pub open spec fn split(s: Seq<char>, sep: char) -> Seq<Seq<char>> {
    split_from(s, sep, 0, 0)
}

/// Whether `c` does not occur in `t`.
pub open spec fn free_of(t: Seq<char>, c: char) -> bool {
    forall|x: int| 0 <= x < t.len() ==> t[x] != c
}

/// Whether no white space occurs in `t`.
pub open spec fn free_of_space(t: Seq<char>) -> bool {
    forall|x: int| 0 <= x < t.len() ==> !is_space(t[x])
}

/// The fields put together again, with `sep` between them.
pub open spec fn join(fields: Seq<Seq<char>>, sep: char) -> Seq<char>
    decreases fields.len(),
{
    if fields.len() == 0 {
        Seq::empty()
    } else if fields.len() == 1 {
        fields[0]
    } else {
        fields[0] + seq![sep] + join(fields.drop_first(), sep)
    }
}

/// `s` without one carriage return at its end, if it has one.
pub open spec fn strip_cr(s: Seq<char>) -> Seq<char> {
    if s.len() > 0 && s.last() == '\r' {
        s.drop_last()
    } else {
        s
    }
}

/// The lines of `s[start..]`, when there is no line feed in `s[start..i]`.
pub open spec fn lines_from(s: Seq<char>, start: int, i: int) -> Seq<Seq<char>>
    recommends
        0 <= start <= i <= s.len(),
    decreases s.len() - i,
{
    if i >= s.len() {
        if start >= s.len() {
            Seq::empty()
        } else {
            seq![s.subrange(start, s.len() as int)]
        }
    } else if s[i] == '\n' {
        seq![strip_cr(s.subrange(start, i))] + lines_from(s, i + 1, i + 1)
    } else {
        lines_from(s, start, i + 1)
    }
}

/// The lines of `s`: a line ends at a line feed, which is left out together
/// with a carriage return just before it; what follows the last line feed is
/// a line too unless it is empty.
pub open spec fn lines(s: Seq<char>) -> Seq<Seq<char>> {
    lines_from(s, 0, 0)
}

/// The words of `s[i..]`, together with the word that began at `start` and
/// has not ended before `i`; `start` is negative when there is no such word.
pub open spec fn words_from(s: Seq<char>, start: int, i: int) -> Seq<Seq<char>>
    recommends
        start <= i <= s.len(),
        0 <= i,
    decreases s.len() - i,
{
    if i >= s.len() {
        if start >= 0 {
            seq![s.subrange(start, s.len() as int)]
        } else {
            Seq::empty()
        }
    } else if is_space(s[i]) {
        if start >= 0 {
            seq![s.subrange(start, i)] + words_from(s, -1, i + 1)
        } else {
            words_from(s, -1, i + 1)
        }
    } else {
        words_from(
            s,
            if start >= 0 {
                start
            } else {
                i
            },
            i + 1,
        )
    }
}

/// The words of `s`: the longest runs of characters that are not white space.
pub open spec fn words(s: Seq<char>) -> Seq<Seq<char>> {
    words_from(s, -1, 0)
}

/// The first position at or after `i` that holds no white space, or the
/// length.
pub open spec fn skip_space(s: Seq<char>, i: int) -> int
    decreases s.len() - i,
{
    if i >= s.len() {
        s.len() as int
    } else if !is_space(s[i]) {
        i
    } else {
        skip_space(s, i + 1)
    }
}

/// The end of `s[from..j]` once the white space at its end is taken off.
pub open spec fn trim_end(s: Seq<char>, from: int, j: int) -> int
    decreases j,
{
    if j <= from || j <= 0 || j > s.len() {
        from
    } else if !is_space(s[j - 1]) {
        j
    } else {
        trim_end(s, from, j - 1)
    }
}

/// `s` without the white space at its two ends.
pub open spec fn trim(s: Seq<char>) -> Seq<char> {
    let from = skip_space(s, 0);
    s.subrange(from, trim_end(s, from, s.len() as int))
}

/// Whether `c` is one of the ten decimal digits.
pub open spec fn is_digit(c: char) -> bool {
    '0' <= c <= '9'
}

/// The value of a decimal digit.
pub open spec fn digit_value(c: char) -> nat {
    (c as u32 - '0' as u32) as nat
}

/// The number that a sequence of decimal digits writes; 0 for the empty one.
pub open spec fn digits_value(s: Seq<char>) -> nat
    decreases s.len(),
{
    if s.len() == 0 {
        0
    } else {
        digits_value(s.drop_last()) * 10 + digit_value(s.last())
    }
}

/// Whether `s` holds decimal digits only.
pub open spec fn all_digits(s: Seq<char>) -> bool {
    forall|i: int| 0 <= i < s.len() ==> is_digit(#[trigger] s[i])
}

/// The number that `s` writes, if it is an unsigned decimal number of at most
/// `max`: one or more digits, with an optional `+` in front.
pub open spec fn parse_unsigned(s: Seq<char>, max: nat) -> Option<nat> {
    let body = if s.len() > 0 && s[0] == '+' {
        s.drop_first()
    } else {
        s
    };
    if body.len() > 0 && all_digits(body) && digits_value(body) <= max {
        Some(digits_value(body))
    } else {
        None
    }
}

/// The number that `s` writes, if it is a signed decimal number between `min`
/// and `max`: one or more digits, with an optional `+` or `-` in front.
pub open spec fn parse_signed(s: Seq<char>, min: int, max: int) -> Option<int> {
    let negative = s.len() > 0 && s[0] == '-';
    let body = if s.len() > 0 && (s[0] == '+' || s[0] == '-') {
        s.drop_first()
    } else {
        s
    };
    let value = if negative {
        -(digits_value(body) as int)
    } else {
        digits_value(body) as int
    };
    if body.len() > 0 && all_digits(body) && min <= value <= max {
        Some(value)
    } else {
        None
    }
}

/// The characters of `s`, in order.
pub fn chars_of(s: &str) -> (v: Vec<char>)
    ensures
        v@ == s@,
{
    let mut v: Vec<char> = Vec::new();
    for c in it: s.chars()
        invariant
            v@ == it.seq().take(it.index() as int),
            it.seq() == s@,
    {
        v.push(c);
    }
    v
}

/// The string made of the characters of `v`.
pub fn string_of(v: &Vec<char>) -> (s: String)
    ensures
        s@ == v@,
{
    let mut s = String::new();
    let mut i: usize = 0;
    while i < v.len()
        invariant
            i <= v.len(),
            s@ == v@.take(i as int),
        decreases v.len() - i,
    {
        s.push(v[i]);
        i += 1;
    }
    s
}

/// A copy of `v[from..to]`.
pub fn copy_range(v: &Vec<char>, from: usize, to: usize) -> (r: Vec<char>)
    requires
        from <= to <= v.len(),
    ensures
        r@ == v@.subrange(from as int, to as int),
{
    let mut r: Vec<char> = Vec::new();
    let mut i: usize = from;
    while i < to
        invariant
            from <= i <= to <= v.len(),
            r@ == v@.subrange(from as int, i as int),
        decreases to - i,
    {
        r.push(v[i]);
        i += 1;
    }
    r
}

/// Whether `c` is white space.
pub fn char_is_space(c: char) -> (r: bool)
    ensures
        r == is_space(c),
{
    let u: u32 = c as u32;
    (0x09 <= u && u <= 0x0D) || u == 0x20 || u == 0x85 || u == 0xA0 || u == 0x1680 || (0x2000 <= u
        && u <= 0x200A) || u == 0x2028 || u == 0x2029 || u == 0x202F || u == 0x205F || u == 0x3000
}

/// The fields of `v` between occurrences of `sep`.
pub fn split_fields(v: &Vec<char>, sep: char) -> (r: Vec<Vec<char>>)
    ensures
        rows(r@) == split(v@, sep),
        r.len() >= 1,
{
    let mut r: Vec<Vec<char>> = Vec::new();
    let mut start: usize = 0;
    let mut i: usize = 0;
    while i < v.len()
        invariant
            start <= i <= v.len(),
            split(v@, sep) == rows(r@) + split_from(v@, sep, start as int, i as int),
        decreases v.len() - i,
    {
        if v[i] == sep {
            let field = copy_range(v, start, i);
            let ghost before = rows(r@);
            r.push(field);
            assert(rows(r@) =~= before + seq![v@.subrange(start as int, i as int)]);
            start = i + 1;
        }
        i += 1;
    }
    let field = copy_range(v, start, i);
    let ghost before = rows(r@);
    r.push(field);
    assert(rows(r@) =~= before + seq![v@.subrange(start as int, v.len() as int)]);
    r
}

/// The lines of `v`.
pub fn split_lines(v: &Vec<char>) -> (r: Vec<Vec<char>>)
    ensures
        rows(r@) == lines(v@),
{
    let mut r: Vec<Vec<char>> = Vec::new();
    let mut start: usize = 0;
    let mut i: usize = 0;
    while i < v.len()
        invariant
            start <= i <= v.len(),
            lines(v@) == rows(r@) + lines_from(v@, start as int, i as int),
        decreases v.len() - i,
    {
        if v[i] == '\n' {
            let stop: usize = if i > start && v[i - 1] == '\r' {
                i - 1
            } else {
                i
            };
            let line = copy_range(v, start, stop);
            let ghost before = rows(r@);
            r.push(line);
            assert(line@ =~= strip_cr(v@.subrange(start as int, i as int)));
            assert(rows(r@) =~= before + seq![line@]);
            start = i + 1;
        }
        i += 1;
    }
    if start < v.len() {
        let line = copy_range(v, start, i);
        let ghost before = rows(r@);
        r.push(line);
        assert(rows(r@) =~= before + seq![v@.subrange(start as int, v.len() as int)]);
    } else {
        assert(rows(r@) + Seq::<Seq<char>>::empty() =~= rows(r@));
    }
    r
}

/// The words of `v`.
pub fn split_words(v: &Vec<char>) -> (r: Vec<Vec<char>>)
    ensures
        rows(r@) == words(v@),
{
    let mut r: Vec<Vec<char>> = Vec::new();
    let mut start: usize = 0;
    let mut inside: bool = false;
    let mut i: usize = 0;
    while i < v.len()
        invariant
            i <= v.len(),
            inside ==> start < i,
            words(v@) == rows(r@) + words_from(
                v@,
                if inside {
                    start as int
                } else {
                    -1
                },
                i as int,
            ),
        decreases v.len() - i,
    {
        if char_is_space(v[i]) {
            if inside {
                let word = copy_range(v, start, i);
                let ghost before = rows(r@);
                r.push(word);
                assert(rows(r@) =~= before + seq![v@.subrange(start as int, i as int)]);
                inside = false;
            }
        } else if !inside {
            start = i;
            inside = true;
        }
        i += 1;
    }
    if inside {
        let word = copy_range(v, start, i);
        let ghost before = rows(r@);
        r.push(word);
        assert(rows(r@) =~= before + seq![v@.subrange(start as int, v.len() as int)]);
    } else {
        assert(rows(r@) + Seq::<Seq<char>>::empty() =~= rows(r@));
    }
    r
}

/// Whether `v` holds white space only.
pub fn blank(v: &Vec<char>) -> (r: bool)
    ensures
        r == is_blank(v@),
{
    let mut i: usize = 0;
    while i < v.len()
        invariant
            i <= v.len(),
            forall|k: int| 0 <= k < i ==> is_space(#[trigger] v@[k]),
        decreases v.len() - i,
    {
        if !char_is_space(v[i]) {
            return false;
        }
        i += 1;
    }
    true
}

/// `v` without the white space at its two ends.
pub fn trimmed(v: &Vec<char>) -> (r: Vec<char>)
    ensures
        r@ == trim(v@),
{
    let mut from: usize = 0;
    while from < v.len() && char_is_space(v[from])
        invariant
            from <= v.len(),
            skip_space(v@, 0) == skip_space(v@, from as int),
        decreases v.len() - from,
    {
        from += 1;
    }
    let mut to: usize = v.len();
    while to > from && char_is_space(v[to - 1])
        invariant
            from <= to <= v.len(),
            trim_end(v@, from as int, v.len() as int) == trim_end(v@, from as int, to as int),
        decreases to,
    {
        to -= 1;
    }
    copy_range(v, from, to)
}

/// The number that `v[from..]` writes in decimal digits, if it is made of one
/// or more digits and is at most `max`.
fn parse_digits(v: &Vec<char>, from: usize, max: u64) -> (r: Option<u64>)
    requires
        from <= v.len(),
    ensures
        r == (if v@.skip(from as int).len() > 0 && all_digits(v@.skip(from as int))
            && digits_value(v@.skip(from as int)) <= max {
            Some(digits_value(v@.skip(from as int)) as u64)
        } else {
            None
        }),
{
    let ghost body = v@.skip(from as int);
    if from >= v.len() {
        return None;
    }
    let mut acc: u64 = 0;
    let mut i: usize = from;
    while i < v.len()
        invariant
            from <= i <= v.len(),
            body == v@.skip(from as int),
            all_digits(body.take(i - from)),
            acc == digits_value(body.take(i - from)),
            acc <= max,
        decreases v.len() - i,
    {
        let c = v[i];
        assert(body[i - from] == c);
        if c < '0' || c > '9' {
            return None;
        }
        let d: u64 = (c as u32 - '0' as u32) as u64;
        proof {
            assert(body.take(i - from + 1).drop_last() =~= body.take(i - from));
            assert(body.take(i - from + 1).last() == c);
            lemma_digits_value_grows(body, i - from + 1);
            assert forall|k: int| 0 <= k < i - from + 1 implies is_digit(
                #[trigger] body.take(i - from + 1)[k],
            ) by {
                if k < i - from {
                    assert(body.take(i - from)[k] == body[k]);
                }
            }
        }
        if d > max || acc > (max - d) / 10 {
            assert(digits_value(body.take(i - from + 1)) > max) by (nonlinear_arith)
                requires
                    digits_value(body.take(i - from + 1)) == acc * 10 + d,
                    d > max || acc > (max - d) / 10,
            ;
            return None;
        }
        assert(acc * 10 + d <= max) by (nonlinear_arith)
            requires
                acc <= (max - d) / 10,
                d <= max,
        ;
        acc = acc * 10 + d;
        i += 1;
    }
    assert(body.take(i - from) =~= body);
    Some(acc)
}

/// The number that `v` writes, if it is an unsigned decimal number of at most
/// `max`.
pub fn parse_unsigned_max(v: &Vec<char>, max: u64) -> (r: Option<u64>)
    ensures
        r == match parse_unsigned(v@, max as nat) {
            Some(n) => Some(n as u64),
            None => None,
        },
{
    let from: usize = if v.len() > 0 && v[0] == '+' {
        1
    } else {
        0
    };
    assert(v@.skip(0) =~= v@);
    assert(v@.skip(1) =~= v@.drop_first()) by {
        if v@.len() > 0 {
        }
    }
    parse_digits(v, from, max)
}

/// The number that `v` writes, if it is a signed decimal number of 32 bits.
pub fn parse_i32(v: &Vec<char>) -> (r: Option<i32>)
    ensures
        r == match parse_signed(v@, i32::MIN as int, i32::MAX as int) {
            Some(n) => Some(n as i32),
            None => None,
        },
{
    let negative = v.len() > 0 && v[0] == '-';
    let from: usize = if v.len() > 0 && (v[0] == '+' || v[0] == '-') {
        1
    } else {
        0
    };
    assert(v@.skip(0) =~= v@);
    assert(v@.len() > 0 ==> v@.skip(1) =~= v@.drop_first());
    let max: u64 = if negative {
        0x8000_0000
    } else {
        0x7FFF_FFFF
    };
    match parse_digits(v, from, max) {
        Some(n) => {
            if negative {
                Some((-(n as i64)) as i32)
            } else {
                Some(n as i32)
            }
        },
        None => None,
    }
}

/// Whether `a` and `b` hold the same characters.
pub fn same_chars(a: &Vec<char>, b: &Vec<char>) -> (r: bool)
    ensures
        r == (a@ == b@),
{
    if a.len() != b.len() {
        return false;
    }
    let mut i: usize = 0;
    while i < a.len()
        invariant
            i <= a.len() == b.len(),
            a@.take(i as int) == b@.take(i as int),
        decreases a.len() - i,
    {
        if a[i] != b[i] {
            return false;
        }
        assert(a@.take(i + 1) =~= a@.take(i as int).push(a@[i as int]));
        assert(b@.take(i + 1) =~= b@.take(i as int).push(b@[i as int]));
        i += 1;
    }
    assert(a@.take(i as int) =~= a@);
    assert(b@.take(i as int) =~= b@);
    true
}

/// Whether `a` and `b` are the same text.
pub fn str_eq(a: &str, b: &str) -> (r: bool)
    ensures
        r == (a@ == b@),
{
    same_chars(&chars_of(a), &chars_of(b))
}

/// A copy of each string of `v`.
pub fn copy_strings(v: &Vec<String>) -> (r: Vec<String>)
    ensures
        r.len() == v.len(),
        forall|i: int| 0 <= i < v.len() ==> (#[trigger] r[i])@ == v[i]@,
{
    let mut r: Vec<String> = Vec::new();
    let mut i: usize = 0;
    while i < v.len()
        invariant
            i <= v.len(),
            r.len() == i,
            forall|k: int| 0 <= k < i ==> (#[trigger] r[k])@ == v[k]@,
        decreases v.len() - i,
    {
        r.push(v[i].clone());
        i += 1;
    }
    r
}

/// The fields of a text from `start` on hold no separator and give the text
/// back when they are joined.
proof fn lemma_split_from_joins(s: Seq<char>, sep: char, start: int, i: int)
    requires
        0 <= start <= i <= s.len(),
        forall|k: int| start <= k < i ==> s[k] != sep,
    ensures
        split_from(s, sep, start, i).len() >= 1,
        join(split_from(s, sep, start, i), sep) == s.subrange(start, s.len() as int),
        forall|k: int|
            0 <= k < split_from(s, sep, start, i).len() ==> free_of(
                #[trigger] split_from(s, sep, start, i)[k],
                sep,
            ),
    decreases s.len() - i,
{
    let fields = split_from(s, sep, start, i);
    if i >= s.len() {
        let field = s.subrange(start, s.len() as int);
        assert(fields =~= seq![field]);
        assert forall|x: int| 0 <= x < field.len() implies field[x] != sep by {
            assert(field[x] == s[start + x]);
        }
    } else if s[i] == sep {
        lemma_split_from_joins(s, sep, i + 1, i + 1);
        let rest = split_from(s, sep, i + 1, i + 1);
        assert(fields =~= seq![s.subrange(start, i)] + rest);
        assert(fields.drop_first() =~= rest);
        assert(join(fields, sep) =~= s.subrange(start, s.len() as int));
        assert forall|k: int| 0 <= k < fields.len() implies free_of(#[trigger] fields[k], sep) by {
            if k > 0 {
                assert(fields[k] == rest[k - 1]);
            } else {
                assert forall|x: int| 0 <= x < fields[0].len() implies fields[0][x] != sep by {
                    assert(fields[0][x] == s[start + x]);
                }
            }
        }
    } else {
        lemma_split_from_joins(s, sep, start, i + 1);
    }
}

/// Splitting loses nothing and leaves no separator: the fields of a text
/// hold no separator, and joined with the separator they give the text back.
pub proof fn lemma_split_joins(s: Seq<char>, sep: char)
    ensures
        split(s, sep).len() >= 1,
        join(split(s, sep), sep) == s,
        forall|k: int| 0 <= k < split(s, sep).len() ==> free_of(#[trigger] split(s, sep)[k], sep),
{
    lemma_split_from_joins(s, sep, 0, 0);
    assert(s.subrange(0, s.len() as int) =~= s);
}

/// The words of a text from `i` on are not empty and hold no white space.
proof fn lemma_words_from_are_words(s: Seq<char>, start: int, i: int)
    requires
        0 <= i <= s.len(),
        start < i,
        start >= 0 ==> forall|k: int| start <= k < i ==> !is_space(s[k]),
    ensures
        forall|k: int|
            0 <= k < words_from(s, start, i).len() ==> (#[trigger] words_from(s, start, i)[k]).len()
                > 0,
        forall|k: int|
            0 <= k < words_from(s, start, i).len() ==> free_of_space(
                #[trigger] words_from(s, start, i)[k],
            ),
    decreases s.len() - i,
{
    let ws = words_from(s, start, i);
    if i >= s.len() {
        if start >= 0 {
            let word = s.subrange(start, s.len() as int);
            assert(ws =~= seq![word]);
            assert forall|x: int| 0 <= x < word.len() implies !is_space(word[x]) by {
                assert(word[x] == s[start + x]);
            }
        }
    } else if is_space(s[i]) {
        lemma_words_from_are_words(s, -1, i + 1);
        let rest = words_from(s, -1, i + 1);
        if start >= 0 {
            let word = s.subrange(start, i);
            assert(ws =~= seq![word] + rest);
            assert forall|x: int| 0 <= x < word.len() implies !is_space(word[x]) by {
                assert(word[x] == s[start + x]);
            }
            assert forall|k: int| 0 <= k < ws.len() implies (#[trigger] ws[k]).len() > 0 by {
                if k > 0 {
                    assert(ws[k] == rest[k - 1]);
                }
            }
            assert forall|k: int| 0 <= k < ws.len() implies free_of_space(#[trigger] ws[k]) by {
                if k > 0 {
                    assert(ws[k] == rest[k - 1]);
                }
            }
        }
    } else {
        let begun = if start >= 0 {
            start
        } else {
            i
        };
        lemma_words_from_are_words(s, begun, i + 1);
        assert(ws == words_from(s, begun, i + 1));
    }
    assert(forall|k: int| 0 <= k < ws.len() ==> (#[trigger] ws[k]).len() > 0);
    assert(forall|k: int| 0 <= k < ws.len() ==> free_of_space(#[trigger] ws[k]));
}

/// The words of a text are not empty and hold no white space.
pub proof fn lemma_words_are_words(s: Seq<char>)
    ensures
        forall|k: int| 0 <= k < words(s).len() ==> (#[trigger] words(s)[k]).len() > 0,
        forall|k: int| 0 <= k < words(s).len() ==> free_of_space(#[trigger] words(s)[k]),
{
    lemma_words_from_are_words(s, -1, 0);
}

/// The lines of a text from `start` on hold no line feed.
proof fn lemma_lines_from_hold_no_feed(s: Seq<char>, start: int, i: int)
    requires
        0 <= start <= i <= s.len(),
        forall|k: int| start <= k < i ==> s[k] != '\n',
    ensures
        forall|k: int|
            0 <= k < lines_from(s, start, i).len() ==> free_of(
                #[trigger] lines_from(s, start, i)[k],
                '\n',
            ),
    decreases s.len() - i,
{
    let ls = lines_from(s, start, i);
    if i >= s.len() {
        if start < s.len() {
            let line = s.subrange(start, s.len() as int);
            assert(ls =~= seq![line]);
            assert forall|x: int| 0 <= x < line.len() implies line[x] != '\n' by {
                assert(line[x] == s[start + x]);
            }
        }
    } else if s[i] == '\n' {
        lemma_lines_from_hold_no_feed(s, i + 1, i + 1);
        let rest = lines_from(s, i + 1, i + 1);
        assert(ls =~= seq![strip_cr(s.subrange(start, i))] + rest);
        assert forall|k: int| 0 <= k < ls.len() implies free_of(#[trigger] ls[k], '\n') by {
            if k > 0 {
                assert(ls[k] == rest[k - 1]);
            } else {
                let whole = s.subrange(start, i);
                assert(ls[0] == strip_cr(whole));
                assert forall|x: int| 0 <= x < ls[0].len() implies ls[0][x] != '\n' by {
                    assert(ls[0][x] == whole[x]);
                    assert(whole[x] == s[start + x]);
                }
            }
        }
    } else {
        lemma_lines_from_hold_no_feed(s, start, i + 1);
        assert(ls == lines_from(s, start, i + 1));
    }
    assert(forall|k: int| 0 <= k < ls.len() ==> free_of(#[trigger] ls[k], '\n'));
}

/// No line of a text holds a line feed.
pub proof fn lemma_lines_hold_no_feed(s: Seq<char>)
    ensures
        forall|k: int| 0 <= k < lines(s).len() ==> free_of(#[trigger] lines(s)[k], '\n'),
{
    lemma_lines_from_hold_no_feed(s, 0, 0);
}

/// The lines of a text that follows another are found in it as they are in
/// the text alone.
proof fn lemma_lines_from_shift(t: Seq<char>, x: Seq<char>, start: int, i: int)
    requires
        0 <= start <= i <= x.len(),
    ensures
        lines_from(t + x, t.len() + start, t.len() + i) == lines_from(x, start, i),
    decreases x.len() - i,
{
    let tx = t + x;
    if i >= x.len() {
        if start < x.len() {
            assert(tx.subrange(t.len() + start, tx.len() as int) =~= x.subrange(
                start,
                x.len() as int,
            ));
        }
    } else {
        assert(tx[t.len() + i] == x[i]);
        if x[i] == '\n' {
            assert(tx.subrange(t.len() + start, t.len() + i) =~= x.subrange(start, i));
            lemma_lines_from_shift(t, x, i + 1, i + 1);
        } else {
            lemma_lines_from_shift(t, x, start, i + 1);
        }
    }
}

/// The lines of a text that ends with a line feed stay the same when more
/// text follows, and the lines of what follows come after them.
proof fn lemma_lines_from_prefix(t: Seq<char>, x: Seq<char>, start: int, i: int)
    requires
        0 <= start <= i <= t.len(),
        t.len() == 0 || t.last() == '\n',
        forall|k: int| start <= k < i ==> t[k] != '\n',
    ensures
        lines_from(t + x, start, i) == lines_from(t, start, i) + lines(x),
    decreases t.len() - i,
{
    let tx = t + x;
    if i >= t.len() {
        assert(start == t.len()) by {
            if start < t.len() {
                assert(t[t.len() - 1] != '\n');
            }
        }
        lemma_lines_from_shift(t, x, 0, 0);
        assert(lines_from(t, start, i) + lines(x) =~= lines(x));
    } else {
        assert(tx[i] == t[i]);
        if t[i] == '\n' {
            assert(tx.subrange(start, i) =~= t.subrange(start, i));
            lemma_lines_from_prefix(t, x, i + 1, i + 1);
            assert(seq![strip_cr(t.subrange(start, i))] + (lines_from(t, i + 1, i + 1) + lines(x))
                =~= (seq![strip_cr(t.subrange(start, i))] + lines_from(t, i + 1, i + 1)) + lines(
                x,
            ));
        } else {
            lemma_lines_from_prefix(t, x, start, i + 1);
        }
    }
}

/// After a text that is empty or ends with a line feed, the lines of what
/// follows come after the lines of the text.
pub proof fn lemma_lines_concat(t: Seq<char>, x: Seq<char>)
    requires
        t.len() == 0 || t.last() == '\n',
    ensures
        lines(t + x) == lines(t) + lines(x),
{
    lemma_lines_from_prefix(t, x, 0, 0);
}

/// A text without a line feed, followed by one, is scanned as one line.
proof fn lemma_lines_from_one(l: Seq<char>, i: int)
    requires
        0 <= i <= l.len(),
        free_of(l, '\n'),
    ensures
        lines_from(l + seq!['\n'], 0, i) == seq![strip_cr(l)],
    decreases l.len() - i,
{
    let x = l + seq!['\n'];
    if i < l.len() {
        assert(x[i] == l[i]);
        lemma_lines_from_one(l, i + 1);
    } else {
        assert(x[i] == '\n');
        assert(x.subrange(0, i) =~= l);
        assert(lines_from(x, i + 1, i + 1) =~= Seq::<Seq<char>>::empty());
        assert(seq![strip_cr(l)] + Seq::<Seq<char>>::empty() =~= seq![strip_cr(l)]);
    }
}

/// A text without a line feed, followed by one, is one line.
pub proof fn lemma_lines_one(l: Seq<char>)
    requires
        free_of(l, '\n'),
    ensures
        lines(l + seq!['\n']) == seq![strip_cr(l)],
{
    lemma_lines_from_one(l, 0);
}

/// One more line after a text that ends with a line feed is one more line
/// of the text.
pub proof fn lemma_lines_grow(t: Seq<char>, l: Seq<char>)
    requires
        t.len() > 0,
        t.last() == '\n',
        free_of(l, '\n'),
    ensures
        lines(t + (l + seq!['\n'])) == lines(t).push(strip_cr(l)),
        (t + (l + seq!['\n'])).len() > 0,
        (t + (l + seq!['\n'])).last() == '\n',
{
    lemma_lines_concat(t, l + seq!['\n']);
    lemma_lines_one(l);
    assert(lines(t) + seq![strip_cr(l)] =~= lines(t).push(strip_cr(l)));
}

/// Where the first separator at or after `start` stands at `k`, the first
/// field from `start` on ends there and the other fields follow.
pub proof fn lemma_split_from_next(s: Seq<char>, sep: char, start: int, i: int, k: int)
    requires
        0 <= start <= i <= k < s.len(),
        s[k] == sep,
        forall|j: int| start <= j < k ==> s[j] != sep,
    ensures
        split_from(s, sep, start, i) == seq![s.subrange(start, k)] + split_from(
            s,
            sep,
            k + 1,
            k + 1,
        ),
    decreases k - i,
{
    if i < k {
        lemma_split_from_next(s, sep, start, i + 1, k);
    }
}

/// Digits written after a number multiply it by ten for each.
pub proof fn lemma_digits_value_grows(s: Seq<char>, n: int)
    requires
        0 <= n <= s.len(),
    ensures
        digits_value(s.take(n)) <= digits_value(s),
    decreases s.len() - n,
{
    if n < s.len() {
        lemma_digits_value_grows(s, n + 1);
        assert(s.take(n + 1).drop_last() =~= s.take(n));
    } else {
        assert(s.take(n) =~= s);
    }
}

} // verus!
