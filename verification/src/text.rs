//! Text as sequences of characters: trimming, splitting, joining, numbers.

use vstd::prelude::*;

verus! {

/// A character with the Unicode `White_Space` property.
pub open spec fn is_space(c: char) -> bool {
    ||| '\u{9}' <= c <= '\u{d}'
    ||| c == ' ' || c == '\u{85}' || c == '\u{a0}' || c == '\u{1680}'
    ||| '\u{2000}' <= c <= '\u{200a}'
    ||| c == '\u{2028}' || c == '\u{2029}' || c == '\u{202f}' || c == '\u{205f}' || c == '\u{3000}'
}

/// The characters of each vector.
pub open spec fn pieces(parts: Seq<Vec<char>>) -> Seq<Seq<char>> {
    parts.map_values(|part: Vec<char>| part@)
}

/// The characters of each string.
pub open spec fn texts(parts: Seq<String>) -> Seq<Seq<char>> {
    parts.map_values(|part: String| part@)
}

/// A text that is there or not.
pub open spec fn maybe(text: Option<String>) -> Option<Seq<char>> {
    match text {
        Some(text) => Some(text@),
        None => None,
    }
}

/// `s` without its leading white space.
pub open spec fn trim_start(s: Seq<char>) -> Seq<char>
    decreases s.len(),
{
    if s.len() > 0 && is_space(s[0]) {
        trim_start(s.skip(1))
    } else {
        s
    }
}

/// `s` without its trailing white space.
pub open spec fn trim_end(s: Seq<char>) -> Seq<char>
    decreases s.len(),
{
    if s.len() > 0 && is_space(s.last()) {
        trim_end(s.drop_last())
    } else {
        s
    }
}

/// `s` without white space at either end.
pub open spec fn trim(s: Seq<char>) -> Seq<char> {
    trim_end(trim_start(s))
}

/// The stretches of `s` between the occurrences of `mark`, empty ones included.
pub open spec fn split(s: Seq<char>, mark: char) -> Seq<Seq<char>>
    decreases s.len(),
{
    if s.len() == 0 {
        seq![Seq::<char>::empty()]
    } else {
        let before = split(s.drop_last(), mark);
        if s.last() == mark {
            before.push(Seq::<char>::empty())
        } else {
            before.drop_last().push(before.last().push(s.last()))
        }
    }
}

/// The maximal stretches of `s` that hold no white space.
pub open spec fn words(s: Seq<char>) -> Seq<Seq<char>>
    decreases s.len(),
{
    if s.len() == 0 {
        Seq::<Seq<char>>::empty()
    } else {
        let before = words(s.drop_last());
        if is_space(s.last()) {
            before
        } else if s.len() == 1 || is_space(s[s.len() - 2]) {
            before.push(seq![s.last()])
        } else {
            before.drop_last().push(before.last().push(s.last()))
        }
    }
}

/// A line as read before its line feed: a carriage return at its end is part of the line ending.
pub open spec fn without_return(s: Seq<char>) -> Seq<char> {
    if s.len() > 0 && s.last() == '\r' {
        s.drop_last()
    } else {
        s
    }
}

/// The lines of `s`: each ends at a line feed, the last one perhaps at the end of the text.
pub open spec fn lines(s: Seq<char>) -> Seq<Seq<char>> {
    let parts = split(s, '\n');
    let ended = parts.drop_last().map_values(|part: Seq<char>| without_return(part));
    if parts.last().len() == 0 {
        ended
    } else {
        ended.push(parts.last())
    }
}

/// The parts one after another, with `mark` between neighbours.
pub open spec fn join(parts: Seq<Seq<char>>, mark: Seq<char>) -> Seq<char>
    decreases parts.len(),
{
    if parts.len() == 0 {
        Seq::<char>::empty()
    } else if parts.len() == 1 {
        parts[0]
    } else {
        join(parts.drop_last(), mark) + mark + parts.last()
    }
}

/// Whether `c` is a white space character.
pub fn white_space(c: char) -> (r: bool)
    ensures
        r == is_space(c),
{
    ('\u{9}' <= c && c <= '\u{d}') || c == ' ' || c == '\u{85}' || c == '\u{a0}' || c == '\u{1680}'
        || ('\u{2000}' <= c && c <= '\u{200a}') || c == '\u{2028}' || c == '\u{2029}' || c
        == '\u{202f}' || c == '\u{205f}' || c == '\u{3000}'
}

/// The characters of a string.
pub fn chars_of(s: &str) -> (r: Vec<char>)
    ensures
        r@ == s@,
{
    let mut out: Vec<char> = Vec::new();
    for c in it: s.chars()
        invariant
            it.seq() == s@,
            out@ == it.seq().take(it.index() as int),
    {
        out.push(c);
    }
    out
}

/// `String::push` adds one character at the end.
pub assume_specification[ String::push ](s: &mut String, c: char)
    ensures
        final(s)@ == old(s)@.push(c),
;

/// The string with the given characters.
pub fn text_of(chars: &Vec<char>) -> (r: String)
    ensures
        r@ == chars@,
{
    let mut out = String::new();
    let mut i: usize = 0;
    while i < chars.len()
        invariant
            i <= chars@.len(),
            out@ == chars@.take(i as int),
        decreases chars@.len() - i,
    {
        out.push(chars[i]);
        i += 1;
        assert(chars@.take(i as int).drop_last() =~= chars@.take(i - 1));
    }
    assert(chars@.take(i as int) =~= chars@);
    out
}

/// The characters from `from` up to `to`.
pub fn part_of(chars: &Vec<char>, from: usize, to: usize) -> (r: Vec<char>)
    requires
        from <= to <= chars@.len(),
    ensures
        r@ == chars@.subrange(from as int, to as int),
{
    let mut out: Vec<char> = Vec::new();
    let mut i: usize = from;
    while i < to
        invariant
            from <= i <= to <= chars@.len(),
            out@ == chars@.subrange(from as int, i as int),
        decreases to - i,
    {
        out.push(chars[i]);
        i += 1;
        assert(chars@.subrange(from as int, i as int) =~= chars@.subrange(
            from as int,
            i - 1,
        ).push(chars@[i - 1]));
    }
    out
}

/// Adds the characters of `more` at the end of `out`.
pub fn append_chars(out: &mut Vec<char>, more: &Vec<char>)
    ensures
        final(out)@ == old(out)@ + more@,
{
    let mut i: usize = 0;
    while i < more.len()
        invariant
            i <= more@.len(),
            out@ == old(out)@ + more@.take(i as int),
        decreases more@.len() - i,
    {
        out.push(more[i]);
        i += 1;
        assert(old(out)@ + more@.take(i as int) =~= (old(out)@ + more@.take(i - 1)).push(
            more@[i - 1],
        ));
    }
    assert(more@.take(i as int) =~= more@);
}

/// Adds the characters of a string at the end of `out`.
pub fn append_text(out: &mut Vec<char>, more: &str)
    ensures
        final(out)@ == old(out)@ + more@,
{
    let chars = chars_of(more);
    append_chars(out, &chars);
}

/// `s` without white space at either end.
pub fn trimmed(s: &Vec<char>) -> (r: Vec<char>)
    ensures
        r@ == trim(s@),
{
    let mut from: usize = 0;
    assert(s@.skip(0) =~= s@);
    while from < s.len() && white_space(s[from])
        invariant
            from <= s@.len(),
            trim_start(s@.skip(from as int)) == trim_start(s@),
        decreases s@.len() - from,
    {
        assert(s@.skip(from as int).skip(1) =~= s@.skip(from + 1));
        from += 1;
    }
    assert(trim_start(s@) == s@.skip(from as int));
    let mut to: usize = s.len();
    assert(s@.subrange(from as int, to as int) =~= s@.skip(from as int));
    while from < to && white_space(s[to - 1])
        invariant
            from <= to <= s@.len(),
            trim_end(s@.subrange(from as int, to as int)) == trim_end(s@.skip(from as int)),
        decreases to - from,
    {
        assert(s@.subrange(from as int, to as int).drop_last() =~= s@.subrange(
            from as int,
            to - 1,
        ));
        to -= 1;
    }
    part_of(s, from, to)
}

/// The stretches of `s` between the occurrences of `mark`.
pub fn split_at_char(s: &Vec<char>, mark: char) -> (r: Vec<Vec<char>>)
    ensures
        pieces(r@) == split(s@, mark),
        r@.len() >= 1,
{
    let mut out: Vec<Vec<char>> = Vec::new();
    let mut current: Vec<char> = Vec::new();
    let mut i: usize = 0;
    assert(pieces(out@).push(current@) =~= split(s@.take(0), mark));
    while i < s.len()
        invariant
            i <= s@.len(),
            pieces(out@).push(current@) == split(s@.take(i as int), mark),
        decreases s@.len() - i,
    {
        assert(s@.take(i + 1).drop_last() =~= s@.take(i as int));
        if s[i] == mark {
            let ghost done = out@;
            out.push(current);
            assert(pieces(out@) =~= pieces(done).push(current@));
            current = Vec::new();
        } else {
            let ghost before = current@;
            current.push(s[i]);
            assert(pieces(out@).push(before).drop_last() =~= pieces(out@));
        }
        i += 1;
    }
    assert(s@.take(i as int) =~= s@);
    let ghost done = out@;
    out.push(current);
    assert(pieces(out@) =~= pieces(done).push(current@));
    out
}

/// The words of `s`.
pub fn words_of(s: &Vec<char>) -> (r: Vec<Vec<char>>)
    ensures
        pieces(r@) == words(s@),
{
    let mut out: Vec<Vec<char>> = Vec::new();
    let mut current: Vec<char> = Vec::new();
    let mut i: usize = 0;
    while i < s.len()
        invariant
            i <= s@.len(),
            current@.len() == 0 <==> (i == 0 || is_space(s@[i - 1])),
            words(s@.take(i as int)) == if current@.len() == 0 {
                pieces(out@)
            } else {
                pieces(out@).push(current@)
            },
        decreases s@.len() - i,
    {
        let ghost upto = s@.take(i + 1);
        assert(upto.drop_last() =~= s@.take(i as int));
        if white_space(s[i]) {
            if current.len() > 0 {
                let ghost done = out@;
                out.push(current);
                assert(pieces(out@) =~= pieces(done).push(current@));
                current = Vec::new();
            }
        } else {
            let ghost before = current@;
            current.push(s[i]);
            assert(pieces(out@).push(before).drop_last() =~= pieces(out@));
            assert(before.len() == 0 ==> current@ =~= seq![s@[i as int]]);
        }
        i += 1;
    }
    assert(s@.take(i as int) =~= s@);
    if current.len() > 0 {
        let ghost done = out@;
        out.push(current);
        assert(pieces(out@) =~= pieces(done).push(current@));
    }
    out
}

/// The lines of `s`.
pub fn lines_of(s: &Vec<char>) -> (r: Vec<Vec<char>>)
    ensures
        pieces(r@) == lines(s@),
{
    let parts = split_at_char(s, '\n');
    let mut out: Vec<Vec<char>> = Vec::new();
    let mut i: usize = 0;
    let ghost ended = pieces(parts@).drop_last().map_values(
        |part: Seq<char>| without_return(part),
    );
    while i < parts.len() - 1
        invariant
            1 <= parts@.len(),
            i < parts@.len(),
            ended == pieces(parts@).drop_last().map_values(
                |part: Seq<char>| without_return(part),
            ),
            pieces(out@) == ended.take(i as int),
        decreases parts@.len() - i,
    {
        let part = &parts[i];
        let keep = if part.len() > 0 && part[part.len() - 1] == '\r' {
            part.len() - 1
        } else {
            part.len()
        };
        let line = part_of(part, 0, keep);
        assert(line@ =~= without_return(part@));
        assert(ended[i as int] == line@);
        let ghost done = out@;
        out.push(line);
        i += 1;
        assert(pieces(out@) =~= pieces(done).push(line@));
        assert(pieces(out@) =~= ended.take(i as int));
    }
    assert(ended.take(i as int) =~= ended);
    if parts[i].len() > 0 {
        let line = part_of(&parts[i], 0, parts[i].len());
        assert(line@ =~= parts@[i as int]@);
        let ghost done = out@;
        out.push(line);
        assert(pieces(out@) =~= pieces(done).push(line@));
    }
    out
}

/// The character of a decimal digit.
pub open spec fn digit(d: nat) -> char {
    (48 + d) as char
}

/// `n` in decimal.
pub open spec fn decimal(n: nat) -> Seq<char>
    decreases n,
{
    if n < 10 {
        seq![digit(n)]
    } else {
        decimal(n / 10).push(digit(n % 10))
    }
}

/// Whether `c` is one of `0` to `9`.
pub open spec fn is_digit(c: char) -> bool {
    '0' <= c <= '9'
}

/// The number that a sequence of digits stands for.
pub open spec fn digits_value(s: Seq<char>) -> nat
    decreases s.len(),
{
    if s.len() == 0 {
        0
    } else {
        digits_value(s.drop_last()) * 10 + (s.last() as nat - 48) as nat
    }
}

/// The digits of a number that may begin with a plus sign.
pub open spec fn unsigned_part(s: Seq<char>) -> Seq<char> {
    if s.len() > 0 && s[0] == '+' {
        s.skip(1)
    } else {
        s
    }
}

/// The unsigned number below 2^64 that `s` denotes, if it denotes one.
pub open spec fn number(s: Seq<char>) -> Option<nat> {
    let digits = unsigned_part(s);
    if digits.len() > 0 && (forall|i: int| 0 <= i < digits.len() ==> is_digit(digits[i]))
        && digits_value(digits) <= u64::MAX {
        Some(digits_value(digits))
    } else {
        None
    }
}

/// `a` comes before `b` in the order of their characters.
pub open spec fn precedes(a: Seq<char>, b: Seq<char>) -> bool
    decreases a.len(),
{
    if b.len() == 0 {
        false
    } else if a.len() == 0 {
        true
    } else if a[0] == b[0] {
        precedes(a.skip(1), b.skip(1))
    } else {
        a[0] < b[0]
    }
}

/// `n` in decimal, as characters.
fn decimal_chars(n: u64) -> (r: Vec<char>)
    ensures
        r@ == decimal(n as nat),
    decreases n,
{
    let last = (48u8 + (n % 10) as u8) as char;
    if n < 10 {
        let mut out: Vec<char> = Vec::new();
        out.push(last);
        out
    } else {
        let mut out = decimal_chars(n / 10);
        out.push(last);
        out
    }
}

/// `n` in decimal.
pub fn decimal_text(n: u64) -> (r: String)
    ensures
        r@ == decimal(n as nat),
{
    let chars = decimal_chars(n);
    text_of(&chars)
}

proof fn lemma_digits_value_grows(s: Seq<char>, n: int)
    requires
        0 <= n <= s.len(),
        forall|i: int| 0 <= i < s.len() ==> is_digit(s[i]),
    ensures
        digits_value(s.take(n)) <= digits_value(s),
    decreases s.len() - n,
{
    if n < s.len() {
        lemma_digits_value_grows(s, n + 1);
        assert(s.take(n + 1).drop_last() =~= s.take(n));
    } else {
        assert(s.take(n) =~= s);
    }
}

/// Reads an unsigned number.
pub fn parse_number(s: &Vec<char>) -> (r: Option<u64>)
    ensures
        match r {
            Some(n) => number(s@) == Some(n as nat),
            None => number(s@) is None,
        },
{
    let from: usize = if s.len() > 0 && s[0] == '+' {
        1
    } else {
        0
    };
    let ghost digits = unsigned_part(s@);
    assert(digits =~= s@.skip(from as int));
    if from == s.len() {
        return None;
    }
    let mut value: u64 = 0;
    let mut i: usize = from;
    while i < s.len()
        invariant
            from <= i <= s@.len(),
            digits == s@.skip(from as int),
            digits == unsigned_part(s@),
            forall|k: int| 0 <= k < i - from ==> is_digit(digits[k]),
            value == digits_value(digits.take(i - from)),
        decreases s@.len() - i,
    {
        let c = s[i];
        assert(c == digits[i - from]);
        if !('0' <= c && c <= '9') {
            return None;
        }
        let d: u64 = (c as u64) - 48;
        assert(digits.take(i - from + 1).drop_last() =~= digits.take(i - from));
        if value > (u64::MAX - d) / 10 {
            proof {
                if forall|k: int| 0 <= k < digits.len() ==> is_digit(digits[k]) {
                    lemma_digits_value_grows(digits, i - from + 1);
                }
            }
            return None;
        }
        value = value * 10 + d;
        i += 1;
    }
    assert(digits.take(i - from) =~= digits);
    Some(value)
}

/// Whether two strings hold the same characters.
pub fn same_text(a: &str, b: &str) -> (r: bool)
    ensures
        r == (a@ == b@),
{
    let x = chars_of(a);
    let y = chars_of(b);
    same_chars(&x, &y)
}

/// Whether two character sequences are equal.
pub fn same_chars(a: &Vec<char>, b: &Vec<char>) -> (r: bool)
    ensures
        r == (a@ == b@),
{
    if a.len() != b.len() {
        return false;
    }
    let mut i: usize = 0;
    while i < a.len()
        invariant
            i <= a@.len(),
            a@.len() == b@.len(),
            a@.take(i as int) == b@.take(i as int),
        decreases a@.len() - i,
    {
        if a[i] != b[i] {
            return false;
        }
        i += 1;
        assert(a@.take(i as int) =~= a@.take(i - 1).push(a@[i - 1]));
        assert(b@.take(i as int) =~= b@.take(i - 1).push(b@[i - 1]));
    }
    assert(a@.take(i as int) =~= a@);
    assert(b@.take(i as int) =~= b@);
    true
}

/// Whether `a` comes before `b` in the order of their characters.
pub fn text_precedes(a: &str, b: &str) -> (r: bool)
    ensures
        r == precedes(a@, b@),
{
    let x = chars_of(a);
    let y = chars_of(b);
    let mut i: usize = 0;
    assert(x@.skip(0) =~= x@);
    assert(y@.skip(0) =~= y@);
    while i < x.len() && i < y.len() && x[i] == y[i]
        invariant
            i <= x@.len(),
            i <= y@.len(),
            x@ == a@,
            y@ == b@,
            precedes(x@.skip(i as int), y@.skip(i as int)) == precedes(a@, b@),
        decreases x@.len() - i,
    {
        assert(x@.skip(i as int).skip(1) =~= x@.skip(i + 1));
        assert(y@.skip(i as int).skip(1) =~= y@.skip(i + 1));
        i += 1;
    }
    i < y.len() && (i == x.len() || x[i] < y[i])
}

/// No text precedes itself.
pub proof fn precedes_is_irreflexive(a: Seq<char>)
    ensures
        !precedes(a, a),
    decreases a.len(),
{
    if a.len() > 0 {
        precedes_is_irreflexive(a.skip(1));
    }
}

/// The order of texts is transitive.
pub proof fn precedes_is_transitive(a: Seq<char>, b: Seq<char>, c: Seq<char>)
    requires
        precedes(a, b),
        precedes(b, c),
    ensures
        precedes(a, c),
    decreases a.len(),
{
    if a.len() > 0 && b.len() > 0 && c.len() > 0 && a[0] == b[0] && b[0] == c[0] {
        precedes_is_transitive(a.skip(1), b.skip(1), c.skip(1));
    }
}

/// Of two different texts one precedes the other.
pub proof fn precedes_is_total(a: Seq<char>, b: Seq<char>)
    requires
        a != b,
    ensures
        precedes(a, b) || precedes(b, a),
    decreases a.len(),
{
    if a.len() > 0 && b.len() > 0 && a[0] == b[0] {
        if a.skip(1) == b.skip(1) {
            assert(a =~= seq![a[0]] + a.skip(1));
            assert(b =~= seq![b[0]] + b.skip(1));
        }
        precedes_is_total(a.skip(1), b.skip(1));
    } else if a.len() == 0 && b.len() == 0 {
        assert(a =~= b);
    }
}

/// The parts one after another, with `mark` between neighbours.
pub fn joined(parts: &Vec<Vec<char>>, mark: &str) -> (r: Vec<char>)
    ensures
        r@ == join(pieces(parts@), mark@),
{
    let mut out: Vec<char> = Vec::new();
    let ghost all = pieces(parts@);
    let mut i: usize = 0;
    while i < parts.len()
        invariant
            i <= parts@.len(),
            all == pieces(parts@),
            out@ == join(all.take(i as int), mark@),
        decreases parts@.len() - i,
    {
        assert(all.take(i + 1).drop_last() =~= all.take(i as int));
        assert(all.take(i + 1).last() == parts@[i as int]@);
        if i > 0 {
            append_text(&mut out, mark);
        }
        append_chars(&mut out, &parts[i]);
        assert(i == 0 ==> out@ =~= parts@[0]@);
        i += 1;
    }
    assert(all.take(i as int) =~= all);
    out
}

/// `s` begins with `prefix`.
pub open spec fn starts_with(s: Seq<char>, prefix: Seq<char>) -> bool {
    prefix.len() <= s.len() && s.take(prefix.len() as int) == prefix
}

/// Whether `s` begins with `prefix`.
pub fn begins_with(s: &Vec<char>, prefix: &str) -> (r: bool)
    ensures
        r == starts_with(s@, prefix@),
{
    let wanted = chars_of(prefix);
    if wanted.len() > s.len() {
        return false;
    }
    let mut i: usize = 0;
    while i < wanted.len()
        invariant
            i <= wanted@.len() <= s@.len(),
            wanted@ == prefix@,
            s@.take(i as int) == wanted@.take(i as int),
        decreases wanted@.len() - i,
    {
        if s[i] != wanted[i] {
            assert(s@.take(wanted@.len() as int)[i as int] == s@[i as int]);
            return false;
        }
        i += 1;
        assert(s@.take(i as int) =~= s@.take(i - 1).push(s@[i - 1]));
        assert(wanted@.take(i as int) =~= wanted@.take(i - 1).push(wanted@[i - 1]));
    }
    assert(wanted@.take(i as int) =~= wanted@);
    true
}

/// The ASCII letter `c` in lower case; any other character as it is.
pub open spec fn lower_char(c: char) -> char {
    if 'A' <= c <= 'Z' {
        (c as u32 + 32) as char
    } else {
        c
    }
}

/// `s` with its ASCII letters in lower case.
pub open spec fn lower(s: Seq<char>) -> Seq<char> {
    s.map_values(|c: char| lower_char(c))
}

/// The ASCII letter `c` in lower case.
pub fn to_lower_char(c: char) -> (r: char)
    ensures
        r == lower_char(c),
{
    if 'A' <= c && c <= 'Z' {
        (c as u8 + 32) as char
    } else {
        c
    }
}

/// `s` with its ASCII letters in lower case.
pub fn to_lower(s: &Vec<char>) -> (r: Vec<char>)
    ensures
        r@ == lower(s@),
{
    let mut out: Vec<char> = Vec::new();
    let mut i: usize = 0;
    while i < s.len()
        invariant
            i <= s@.len(),
            out@.len() == i,
            forall|k: int| 0 <= k < i ==> #[trigger] out@[k] == lower_char(s@[k]),
        decreases s@.len() - i,
    {
        out.push(to_lower_char(s[i]));
        i += 1;
    }
    assert(out@ =~= lower(s@));
    out
}

/// Digits with a comma before each group of three from the end.
pub open spec fn grouped(digits: Seq<char>) -> Seq<char>
    decreases digits.len(),
{
    if digits.len() <= 3 {
        digits
    } else {
        let n = digits.len() - 3;
        grouped(digits.take(n)).push(',') + digits.skip(n)
    }
}

/// `number` in decimal with its thousands set apart by commas.
pub fn group(number: u64) -> (r: String)
    ensures
        r@ == grouped(decimal(number as nat)),
{
    let digits = decimal_chars(number);
    let out = grouped_prefix(&digits, digits.len());
    assert(digits@.take(digits@.len() as int) =~= digits@);
    text_of(&out)
}

fn grouped_prefix(digits: &Vec<char>, len: usize) -> (r: Vec<char>)
    requires
        len <= digits@.len(),
    ensures
        r@ == grouped(digits@.take(len as int)),
    decreases len,
{
    if len <= 3 {
        let out = part_of(digits, 0, len);
        assert(out@ =~= digits@.take(len as int));
        return out;
    }
    let mut out = grouped_prefix(digits, len - 3);
    let last = part_of(digits, len - 3, len);
    out.push(',');
    append_chars(&mut out, &last);
    assert(digits@.take(len as int).take(len - 3) =~= digits@.take(len - 3));
    assert(digits@.take(len as int).skip(len - 3) =~= last@);
    out
}

/// What stands before and after the first `mark`.
pub open spec fn split_once(s: Seq<char>, mark: char) -> Option<(Seq<char>, Seq<char>)> {
    if s.contains(mark) {
        let i = s.index_of_first(mark).unwrap();
        Some((s.take(i), s.skip(i + 1)))
    } else {
        None
    }
}

/// What stands before and after the first `mark`.
pub fn split_once_at(s: &Vec<char>, mark: char) -> (r: Option<(Vec<char>, Vec<char>)>)
    ensures
        match r {
            Some((before, after)) => split_once(s@, mark) == Some((before@, after@)),
            None => split_once(s@, mark) is None,
        },
{
    let mut i: usize = 0;
    while i < s.len() && s[i] != mark
        invariant
            i <= s@.len(),
            forall|k: int| 0 <= k < i ==> s@[k] != mark,
        decreases s@.len() - i,
    {
        i += 1;
    }
    if i == s.len() {
        assert(!s@.contains(mark));
        return None;
    }
    proof {
        assert(s@.contains(mark)) by {
            assert(s@[i as int] == mark);
        }
        s@.index_of_first_ensures(mark);
        let first = s@.index_of_first(mark).unwrap();
        assert(first == i) by {
            if first < i {
                assert(s@[first] != mark);
            }
        }
    }
    let before = part_of(s, 0, i);
    let after = part_of(s, i + 1, s.len());
    assert(before@ =~= s@.take(i as int));
    assert(after@ =~= s@.skip(i + 1));
    Some((before, after))
}

proof fn lemma_trim_start(s: Seq<char>)
    ensures
        trim_start(s).len() == 0 || !is_space(trim_start(s)[0]),
    decreases s.len(),
{
    if s.len() > 0 && is_space(s[0]) {
        lemma_trim_start(s.skip(1));
    }
}

proof fn lemma_trim_end(s: Seq<char>)
    ensures
        trim_end(s).len() == 0 || !is_space(trim_end(s).last()),
        trim_end(s).len() > 0 ==> trim_end(s)[0] == s[0],
        trim_end(s).len() <= s.len(),
    decreases s.len(),
{
    if s.len() > 0 && is_space(s.last()) {
        lemma_trim_end(s.drop_last());
    }
}

/// What is trimmed needs no more trimming.
pub proof fn trim_is_idempotent(s: Seq<char>)
    ensures
        trim(trim(s)) == trim(s),
{
    lemma_trim_start(s);
    lemma_trim_end(trim_start(s));
}

/// Two texts one after another.
pub fn concat2(a: &str, b: &str) -> (r: String)
    ensures
        r@ == a@ + b@,
{
    let mut out = chars_of(a);
    append_text(&mut out, b);
    text_of(&out)
}

/// Three texts one after another.
pub fn concat3(a: &str, b: &str, c: &str) -> (r: String)
    ensures
        r@ == a@ + b@ + c@,
{
    let mut out = chars_of(a);
    append_text(&mut out, b);
    append_text(&mut out, c);
    text_of(&out)
}

/// Four texts one after another.
pub fn concat4(a: &str, b: &str, c: &str, d: &str) -> (r: String)
    ensures
        r@ == a@ + b@ + c@ + d@,
{
    let mut out = chars_of(a);
    append_text(&mut out, b);
    append_text(&mut out, c);
    append_text(&mut out, d);
    text_of(&out)
}

/// `s` with blanks before it up to a width.
pub open spec fn padded(s: Seq<char>, width: nat) -> Seq<char> {
    if s.len() >= width {
        s
    } else {
        Seq::new((width - s.len()) as nat, |i: int| ' ') + s
    }
}

/// `s` with blanks before it up to a width.
pub fn pad_left(s: &str, width: usize) -> (r: String)
    ensures
        r@ == padded(s@, width as nat),
{
    let chars = chars_of(s);
    let mut out: Vec<char> = Vec::new();
    if chars.len() < width {
        let count: usize = width - chars.len();
        while out.len() < count
            invariant
                out@.len() <= count,
                forall|k: int| 0 <= k < out@.len() ==> out@[k] == ' ',
            decreases count - out@.len(),
        {
            out.push(' ');
        }
        assert(out@ =~= Seq::new((width - chars@.len()) as nat, |i: int| ' '));
    }
    append_chars(&mut out, &chars);
    assert(out@ =~= padded(s@, width as nat));
    text_of(&out)
}

/// Joining what was split gives the text back, and no piece holds the mark.
pub proof fn joining_undoes_splitting(s: Seq<char>, mark: char)
    ensures
        split(s, mark).len() >= 1,
        join(split(s, mark), seq![mark]) == s,
        forall|i: int|
            0 <= i < split(s, mark).len() ==> !(#[trigger] split(s, mark)[i]).contains(mark),
    decreases s.len(),
{
    let all = split(s, mark);
    if s.len() > 0 {
        let rest = s.drop_last();
        joining_undoes_splitting(rest, mark);
        let before = split(rest, mark);
        assert(s =~= rest.push(s.last()));
        if s.last() == mark {
            assert(all.drop_last() =~= before);
            assert(join(all, seq![mark]) =~= s);
        } else {
            assert(all.drop_last() =~= before.drop_last());
            assert(join(all, seq![mark]) =~= s);
        }
        assert forall|i: int| 0 <= i < all.len() implies !(#[trigger] all[i]).contains(mark) by {
            if i < before.len() {
                assert(!before[i].contains(mark));
            }
            if i == all.len() - 1 && s.last() != mark {
                let last = before.last();
                assert(all[i] == last.push(s.last()));
                if all[i].contains(mark) {
                    let k = choose|k: int| 0 <= k < all[i].len() && all[i][k] == mark;
                    assert(last[k] == mark);
                }
            }
        }
    } else {
        assert(join(all, seq![mark]) =~= s);
    }
}

/// Two texts with the mark between them have the pieces of the first, then those of the second.
pub proof fn splitting_goes_by_the_marks(a: Seq<char>, b: Seq<char>, mark: char)
    ensures
        split(a + seq![mark] + b, mark) == split(a, mark) + split(b, mark),
    decreases b.len(),
{
    let whole = a + seq![mark] + b;
    if b.len() == 0 {
        assert(whole.drop_last() =~= a);
        assert(split(whole, mark) =~= split(a, mark) + split(b, mark));
    } else {
        assert(whole.drop_last() =~= a + seq![mark] + b.drop_last());
        splitting_goes_by_the_marks(a, b.drop_last(), mark);
        joining_undoes_splitting(b.drop_last(), mark);
        assert(split(whole, mark) =~= split(a, mark) + split(b, mark));
    }
}

/// Parts followed by more parts are joined like the two joined lists, with the mark between
/// them.
pub proof fn joining_goes_by_the_parts(
    parts: Seq<Seq<char>>,
    more: Seq<Seq<char>>,
    mark: Seq<char>,
)
    requires
        parts.len() > 0,
        more.len() > 0,
    ensures
        join(parts + more, mark) == join(parts, mark) + mark + join(more, mark),
    decreases more.len(),
{
    if more.len() == 1 {
        assert((parts + more).drop_last() =~= parts);
    } else {
        assert((parts + more).drop_last() =~= parts + more.drop_last());
        joining_goes_by_the_parts(parts, more.drop_last(), mark);
        assert(join(parts + more, mark) =~= join(parts, mark) + mark + join(more, mark));
    }
}

/// A piece of a text holds characters of that text only.
pub proof fn pieces_hold_what_was_split(s: Seq<char>, mark: char, i: int, c: char)
    requires
        0 <= i < split(s, mark).len(),
        split(s, mark)[i].contains(c),
    ensures
        s.contains(c),
    decreases s.len(),
{
    if s.len() == 0 {
        assert(split(s, mark)[i] =~= Seq::<char>::empty());
    } else {
        let rest = s.drop_last();
        let before = split(rest, mark);
        let piece = split(s, mark)[i];
        joining_undoes_splitting(rest, mark);
        let k = choose|k: int| 0 <= k < piece.len() && piece[k] == c;
        if i == split(s, mark).len() - 1 && (s.last() == mark || k == piece.len() - 1) {
            assert(s[s.len() - 1] == c);
        } else {
            assert(before[i][k] == c);
            assert(before[i].contains(c));
            pieces_hold_what_was_split(rest, mark, i, c);
            let at = choose|at: int| 0 <= at < rest.len() && rest[at] == c;
            assert(s[at] == c);
        }
    }
}

proof fn lemma_trim_start_holds(s: Seq<char>, c: char)
    requires
        trim_start(s).contains(c),
    ensures
        s.contains(c),
    decreases s.len(),
{
    if s.len() > 0 && is_space(s[0]) {
        lemma_trim_start_holds(s.skip(1), c);
        let at = choose|at: int| 0 <= at < s.skip(1).len() && s.skip(1)[at] == c;
        assert(s[at + 1] == c);
    }
}

proof fn lemma_trim_end_holds(s: Seq<char>, c: char)
    requires
        trim_end(s).contains(c),
    ensures
        s.contains(c),
    decreases s.len(),
{
    if s.len() > 0 && is_space(s.last()) {
        lemma_trim_end_holds(s.drop_last(), c);
        let at = choose|at: int| 0 <= at < s.drop_last().len() && s.drop_last()[at] == c;
        assert(s[at] == c);
    }
}

/// A trimmed text holds characters of that text only.
pub proof fn trimming_only_takes_away(s: Seq<char>, c: char)
    requires
        trim(s).contains(c),
    ensures
        s.contains(c),
{
    lemma_trim_end_holds(trim_start(s), c);
    lemma_trim_start_holds(s, c);
}

/// The white space characters are those of Unicode.
pub proof fn white_space_is_that_of_unicode(c: char)
    ensures
        is_space(c) <==> {
            let n = c as int;
            ||| 0x9 <= n <= 0xd
            ||| n == 0x20 || n == 0x85 || n == 0xa0 || n == 0x1680
            ||| 0x2000 <= n <= 0x200a
            ||| n == 0x2028 || n == 0x2029 || n == 0x202f || n == 0x205f || n == 0x3000
        },
{
}

proof fn lemma_trim_start_part(s: Seq<char>) -> (i: int)
    ensures
        0 <= i <= s.len(),
        trim_start(s) == s.skip(i),
        forall|k: int| 0 <= k < i ==> is_space(#[trigger] s[k]),
        i < s.len() ==> !is_space(s[i]),
    decreases s.len(),
{
    if s.len() > 0 && is_space(s[0]) {
        let rest = s.skip(1);
        let i = lemma_trim_start_part(rest);
        assert(rest.skip(i) =~= s.skip(i + 1));
        assert forall|k: int| 0 <= k < i + 1 implies is_space(#[trigger] s[k]) by {
            if k > 0 {
                assert(is_space(rest[k - 1]));
            }
        }
        if i + 1 < s.len() {
            assert(rest[i] == s[i + 1]);
        }
        i + 1
    } else {
        assert(s.skip(0) =~= s);
        0
    }
}

proof fn lemma_trim_end_part(s: Seq<char>) -> (j: int)
    ensures
        0 <= j <= s.len(),
        trim_end(s) == s.take(j),
        forall|k: int| j <= k < s.len() ==> is_space(#[trigger] s[k]),
        j > 0 ==> !is_space(s[j - 1]),
    decreases s.len(),
{
    if s.len() > 0 && is_space(s.last()) {
        let rest = s.drop_last();
        let j = lemma_trim_end_part(rest);
        assert(rest.take(j) =~= s.take(j));
        assert forall|k: int| j <= k < s.len() implies is_space(#[trigger] s[k]) by {
            if k < rest.len() {
                assert(is_space(rest[k]));
            }
        }
        j
    } else {
        assert(s.take(s.len() as int) =~= s);
        s.len() as int
    }
}

/// Trimming takes away white space at both ends and nothing else, and all that stands there. So
/// nothing is left exactly of a text that is white space throughout.
pub proof fn trimming_takes_the_white_space_at_both_ends(s: Seq<char>)
    ensures
        exists|i: int, j: int|
            0 <= i <= j <= s.len() && trim(s) == #[trigger] s.subrange(i, j) && (forall|k: int|
                0 <= k < i || j <= k < s.len() ==> is_space(#[trigger] s[k])),
        trim(s).len() > 0 ==> !is_space(trim(s)[0]) && !is_space(trim(s).last()),
        trim(s).len() == 0 <==> (forall|k: int| 0 <= k < s.len() ==> is_space(#[trigger] s[k])),
        exists|i: int|
            0 <= i <= s.len() && trim_start(s) == #[trigger] s.skip(i) && (forall|k: int|
                0 <= k < i ==> is_space(#[trigger] s[k])),
        trim_start(s).len() > 0 ==> !is_space(trim_start(s)[0]),
{
    let i = lemma_trim_start_part(s);
    let rest = s.skip(i);
    let n = lemma_trim_end_part(rest);
    let j = i + n;
    assert(rest.take(n) =~= s.subrange(i, j));
    assert forall|k: int| 0 <= k < i || j <= k < s.len() implies is_space(#[trigger] s[k]) by {
        if k >= j {
            assert(rest[k - i] == s[k]);
        }
    }
    if n > 0 {
        assert(rest[n - 1] == s[j - 1]);
        if i < s.len() {
            assert(rest[0] == s[i]);
        }
        assert(!is_space(s[i]));
    }
}

/// Numbers below ten are one digit; in any other the last digit stands behind the tenth part.
pub proof fn decimals_grow_by_digits(n: nat, d: nat)
    requires
        d < 10,
    ensures
        decimal(d) == seq![(0x30 + d) as char],
        n > 0 ==> decimal(10 * n + d) == decimal(n).push((0x30 + d) as char),
{
    assert((10 * n + d) / 10 == n && (10 * n + d) % 10 == d) by (nonlinear_arith)
        requires
            d < 10,
    ;
}

proof fn lemma_decimal_reads_back(n: nat)
    ensures
        decimal(n).len() > 0,
        forall|i: int| 0 <= i < decimal(n).len() ==> is_digit(#[trigger] decimal(n)[i]),
        digits_value(decimal(n)) == n,
    decreases n,
{
    let all = decimal(n);
    if n < 10 {
        assert(all.drop_last() =~= Seq::<char>::empty());
        assert(digits_value(Seq::<char>::empty()) == 0);
        assert(all.last() == digit(n));
    } else {
        lemma_decimal_reads_back(n / 10);
        assert(all.drop_last() =~= decimal(n / 10));
        assert(all.last() == digit(n % 10));
        assert(n / 10 * 10 + n % 10 == n);
        assert forall|i: int| 0 <= i < all.len() implies is_digit(#[trigger] all[i]) by {
            if i < all.len() - 1 {
                assert(is_digit(decimal(n / 10)[i]));
            }
        }
    }
}

/// A number that is written in decimal reads back, also with a plus sign before it, as long as it
/// is below 2^64. One more digit makes a number ten times as large, and adds that digit. What
/// holds anything but digits, or none, is no number.
pub proof fn numbers_read_back(n: nat, s: Seq<char>, d: nat)
    requires
        d < 10,
    ensures
        n <= 0xffff_ffff_ffff_ffff ==> number(decimal(n)) == Some(n) && number(
            seq!['+'] + decimal(n),
        ) == Some(n),
        n > 0xffff_ffff_ffff_ffff ==> number(decimal(n)) is None,
        number(s) matches Some(value) ==> (10 * value + d <= 0xffff_ffff_ffff_ffff ==> number(
            s.push((0x30 + d) as char),
        ) == Some((10 * value + d) as nat)),
        number(s) is Some ==> s.len() > 0 && forall|i: int|
            0 <= i < s.len() ==> ('0' <= #[trigger] s[i] <= '9' || (i == 0 && s[0] == '+'
                && s.len() > 1)),
{
    lemma_decimal_reads_back(n);
    let all = decimal(n);
    assert(is_digit(all[0]));
    assert((seq!['+'] + all).skip(1) =~= all);
    let more = s.push((0x30 + d) as char);
    if number(s) is Some {
        let digits = unsigned_part(s);
        assert(unsigned_part(more) =~= digits.push((0x30 + d) as char));
        assert(digits.push((0x30 + d) as char).drop_last() =~= digits);
        assert forall|i: int| 0 <= i < s.len() implies ('0' <= #[trigger] s[i] <= '9' || (i == 0
            && s[0] == '+' && s.len() > 1)) by {
            if s[0] == '+' {
                if i > 0 {
                    assert(is_digit(digits[i - 1]));
                }
            } else {
                assert(is_digit(digits[i]));
            }
        }
    }
}

/// A decimal number is made of digits.
pub proof fn numbers_are_digits(n: nat)
    ensures
        decimal(n).len() > 0,
        forall|i: int| 0 <= i < decimal(n).len() ==> '0' <= #[trigger] decimal(n)[i] <= '9',
{
    lemma_decimal_reads_back(n);
    assert forall|i: int| 0 <= i < decimal(n).len() implies '0' <= #[trigger] decimal(n)[i]
        <= '9' by {
        assert(is_digit(decimal(n)[i]));
    }
}

/// White space around a text is taken away, and the text itself stays.
pub proof fn surrounding_white_space_does_not_matter(
    before: Seq<char>,
    inner: Seq<char>,
    after: Seq<char>,
)
    requires
        inner.len() > 0,
        !is_space(inner[0]),
        !is_space(inner.last()),
        forall|k: int| 0 <= k < before.len() ==> is_space(#[trigger] before[k]),
        forall|k: int| 0 <= k < after.len() ==> is_space(#[trigger] after[k]),
    ensures
        trim(before + inner + after) == inner,
{
    let s = before + inner + after;
    let i = lemma_trim_start_part(s);
    assert(i == before.len()) by {
        assert(s[before.len() as int] == inner[0]);
        if i < before.len() {
            assert(s[i] == before[i]);
        }
        if i > before.len() {
            assert(is_space(s[before.len() as int]));
        }
    }
    let rest = s.skip(i);
    let j = lemma_trim_end_part(rest);
    assert(j == inner.len()) by {
        assert(rest[inner.len() - 1] == inner.last());
        if j > inner.len() {
            assert(rest[j - 1] == after[j - 1 - inner.len()]);
        }
        if j < inner.len() {
            assert(is_space(rest[inner.len() - 1]));
        }
    }
    assert(rest.take(j) =~= inner);
}

/// A text of one word is that word; white space between two texts keeps their words apart, and
/// there are no other words.
pub proof fn white_space_parts_the_words(a: Seq<char>, c: char, b: Seq<char>)
    requires
        is_space(c),
    ensures
        words(Seq::<char>::empty()) == Seq::<Seq<char>>::empty(),
        words(a + seq![c] + b) == words(a) + words(b),
        a.len() > 0 && (forall|k: int| 0 <= k < a.len() ==> !is_space(#[trigger] a[k])) ==> words(a)
            == seq![a],
    decreases b.len(),
{
    let whole = a + seq![c] + b;
    if b.len() == 0 {
        assert(whole.drop_last() =~= a);
        assert(words(whole) =~= words(a) + words(b));
    } else {
        assert(whole.drop_last() =~= a + seq![c] + b.drop_last());
        white_space_parts_the_words(a, c, b.drop_last());
        if b.len() == 1 {
            assert(whole[whole.len() - 2] == c);
            assert(words(b.drop_last()) =~= Seq::<Seq<char>>::empty());
        } else {
            assert(whole[whole.len() - 2] == b[b.len() - 2]);
            if !is_space(b.last()) && !is_space(b[b.len() - 2]) {
                lemma_word_at_end(b.drop_last());
            }
        }
        assert(words(whole) =~= words(a) + words(b));
    }
    if a.len() > 0 && (forall|k: int| 0 <= k < a.len() ==> !is_space(#[trigger] a[k])) {
        lemma_one_word(a);
    }
}

proof fn lemma_word_at_end(s: Seq<char>)
    requires
        s.len() > 0,
        !is_space(s.last()),
    ensures
        words(s).len() > 0,
{
}

proof fn lemma_one_word(s: Seq<char>)
    requires
        s.len() > 0,
        forall|k: int| 0 <= k < s.len() ==> !is_space(#[trigger] s[k]),
    ensures
        words(s) == seq![s],
    decreases s.len(),
{
    let before = s.drop_last();
    assert(!is_space(s[s.len() - 1]));
    if s.len() == 1 {
        assert(words(before) =~= Seq::<Seq<char>>::empty());
        assert(s =~= seq![s.last()]);
        assert(words(s) =~= seq![s]);
    } else {
        assert forall|k: int| 0 <= k < before.len() implies !is_space(#[trigger] before[k]) by {
            assert(before[k] == s[k]);
        }
        lemma_one_word(before);
        assert(!is_space(s[s.len() - 2]));
        assert(before.push(s.last()) =~= s);
        assert(words(s) =~= seq![s]);
    }
}

/// Text is cut into lines at its line feeds. A carriage return before a line feed belongs to the
/// line ending, one elsewhere does not. What stands behind the last line feed is a line too,
/// unless that is nothing.
pub proof fn line_feeds_end_the_lines(a: Seq<char>, b: Seq<char>)
    requires
        !a.contains('\n'),
    ensures
        lines(a) == if a.len() == 0 {
            Seq::<Seq<char>>::empty()
        } else {
            seq![a]
        },
        lines(a + seq!['\n'] + b) == seq![
            if a.len() > 0 && a.last() == '\r' {
                a.drop_last()
            } else {
                a
            },
        ] + lines(b),
{
    lemma_one_piece(a, '\n');
    splitting_goes_by_the_marks(a, b, '\n');
    joining_undoes_splitting(b, '\n');
    let whole = a + seq!['\n'] + b;
    let parts = split(b, '\n');
    assert(split(whole, '\n') =~= seq![a] + parts);
    assert((seq![a] + parts).drop_last() =~= seq![a] + parts.drop_last());
    let ended = parts.drop_last().map_values(|part: Seq<char>| without_return(part));
    assert((seq![a] + parts.drop_last()).map_values(|part: Seq<char>| without_return(part))
        =~= seq![without_return(a)] + ended);
    assert((seq![a] + parts).last() == parts.last());
    assert(lines(whole) =~= seq![without_return(a)] + lines(b));
    assert(seq![a].drop_last().map_values(|part: Seq<char>| without_return(part)) =~= Seq::<
        Seq<char>,
    >::empty());
    assert(lines(a) =~= if a.len() == 0 {
        Seq::<Seq<char>>::empty()
    } else {
        seq![a]
    });
}

proof fn lemma_one_piece(s: Seq<char>, mark: char)
    requires
        !s.contains(mark),
    ensures
        split(s, mark) == seq![s],
    decreases s.len(),
{
    if s.len() == 0 {
        assert(s =~= Seq::<char>::empty());
    } else {
        let before = s.drop_last();
        assert(s[s.len() - 1] != mark);
        if before.contains(mark) {
            let k = choose|k: int| 0 <= k < before.len() && before[k] == mark;
            assert(s[k] == mark);
        }
        lemma_one_piece(before, mark);
        assert(before.push(s.last()) =~= s);
        assert(split(s, mark) =~= seq![s]);
    }
}

/// A text without the mark is one piece, and one part is joined to itself.
pub proof fn single_pieces_stay_as_they_are(s: Seq<char>, mark: char, between: Seq<char>)
    ensures
        !s.contains(mark) ==> split(s, mark) == seq![s],
        join(Seq::<Seq<char>>::empty(), between) == Seq::<char>::empty(),
        join(seq![s], between) == s,
{
    if !s.contains(mark) {
        lemma_one_piece(s, mark);
    }
}

/// What stands before the first mark and behind it, where there is one.
pub proof fn splitting_once_cuts_at_the_first_mark(s: Seq<char>, mark: char)
    ensures
        split_once(s, mark) is Some <==> s.contains(mark),
        split_once(s, mark) matches Some((before, after)) ==> s == before + seq![mark] + after
            && !before.contains(mark),
{
    if s.contains(mark) {
        s.index_of_first_ensures(mark);
        let i = s.index_of_first(mark).unwrap();
        assert(s =~= s.take(i) + seq![mark] + s.skip(i + 1));
        if s.take(i).contains(mark) {
            let k = choose|k: int| 0 <= k < s.take(i).len() && s.take(i)[k] == mark;
            assert(s[k] == mark);
        }
    }
}

/// The first character in which two texts differ decides their order; a text stands before any
/// that goes on behind it.
pub proof fn the_first_difference_decides_the_order(
    common: Seq<char>,
    a: char,
    b: char,
    x: Seq<char>,
    y: Seq<char>,
)
    ensures
        a != b ==> (precedes(common + seq![a] + x, common + seq![b] + y) <==> a < b),
        precedes(common, common + seq![a] + x),
        !precedes(common + seq![a] + x, common),
    decreases common.len(),
{
    let p = common + seq![a] + x;
    let q = common + seq![b] + y;
    if common.len() > 0 {
        let rest = common.skip(1);
        the_first_difference_decides_the_order(rest, a, b, x, y);
        assert(p.skip(1) =~= rest + seq![a] + x);
        assert(q.skip(1) =~= rest + seq![b] + y);
        assert(p[0] == common[0] && q[0] == common[0]);
    } else {
        assert(p[0] == a);
        assert(q[0] == b);
    }
}

/// Only capital letters change in lower case, each to its small letter.
pub proof fn only_capital_letters_change_in_lower_case(s: Seq<char>, i: int)
    requires
        0 <= i < s.len(),
    ensures
        lower(s).len() == s.len(),
        'A' <= s[i] <= 'Z' ==> lower(s)[i] as int == s[i] as int + 0x20,
        !('A' <= s[i] <= 'Z') ==> lower(s)[i] == s[i],
{
}

/// Up to three digits stand as they are; three more follow behind a comma.
pub proof fn commas_part_groups_of_three(digits: Seq<char>, more: Seq<char>)
    requires
        more.len() == 3,
    ensures
        digits.len() <= 3 ==> grouped(digits) == digits,
        digits.len() > 0 ==> grouped(digits + more) == grouped(digits) + seq![','] + more,
{
    assert((digits + more).take(digits.len() as int) =~= digits);
    assert((digits + more).skip(digits.len() as int) =~= more);
    if digits.len() > 0 {
        assert(grouped(digits + more) =~= grouped(digits) + seq![','] + more);
    }
}

/// A padded text ends with the text, and has blanks before it up to the width.
pub proof fn padding_puts_blanks_before(s: Seq<char>, width: nat)
    ensures
        padded(s, width).len() == if s.len() >= width {
            s.len()
        } else {
            width
        },
        padded(s, width).skip(padded(s, width).len() - s.len()) == s,
        forall|i: int| 0 <= i < padded(s, width).len() - s.len() ==> padded(s, width)[i] == ' ',
{
    assert(padded(s, width).skip(padded(s, width).len() - s.len()) =~= s);
}

/// A text starts with another exactly if it is that one with something, or nothing, behind it.
pub proof fn a_start_is_followed_by_the_rest(s: Seq<char>, prefix: Seq<char>, rest: Seq<char>)
    ensures
        starts_with(prefix + rest, prefix),
        starts_with(s, prefix) ==> s == prefix + s.skip(prefix.len() as int),
{
    assert((prefix + rest).take(prefix.len() as int) =~= prefix);
    if starts_with(s, prefix) {
        assert(s =~= prefix + s.skip(prefix.len() as int));
    }
}

} // verus!
