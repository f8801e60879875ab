//! Text as sequences of characters: trimming, splitting, searching, ordering and
//! decimal numbers, each with a model over `Seq<char>`.
use vstd::prelude::*;
use vstd::slice::slice_subrange;
use vstd::utf8::{encode_scalar, encode_utf8};

verus! {

/// `String::push` appends the given character to the end of the string.
pub assume_specification[ String::push ](s: &mut String, c: char)
    ensures
        final(s)@ == old(s)@.push(c),
;

// ---------------------------------------------------------------------------
// Models
// ---------------------------------------------------------------------------
/// The characters that have Unicode's `White_Space` property.
pub open spec fn is_white_space(c: char) -> bool {
    ||| '\u{9}' <= c <= '\u{d}'
    ||| c == '\u{20}'
    ||| c == '\u{85}'
    ||| c == '\u{a0}'
    ||| c == '\u{1680}'
    ||| '\u{2000}' <= c <= '\u{200a}'
    ||| c == '\u{2028}'
    ||| c == '\u{2029}'
    ||| c == '\u{202f}'
    ||| c == '\u{205f}'
    ||| c == '\u{3000}'
}

/// `s` without its leading white space.
pub open spec fn trim_start(s: Seq<char>) -> Seq<char>
    decreases s.len(),
{
    if s.len() > 0 && is_white_space(s[0]) {
        trim_start(s.drop_first())
    } else {
        s
    }
}

/// `s` without its trailing white space.
pub open spec fn trim_end(s: Seq<char>) -> Seq<char>
    decreases s.len(),
{
    if s.len() > 0 && is_white_space(s.last()) {
        trim_end(s.drop_last())
    } else {
        s
    }
}

/// `s` without its leading and trailing white space.
pub open spec fn trimmed(s: Seq<char>) -> Seq<char> {
    trim_end(trim_start(s))
}

/// `s` without the copies of `c` that it begins with.
pub open spec fn strip_start(s: Seq<char>, c: char) -> Seq<char>
    decreases s.len(),
{
    if s.len() > 0 && s[0] == c {
        strip_start(s.drop_first(), c)
    } else {
        s
    }
}

/// `s` without the copies of `c` that it ends with.
pub open spec fn strip_end(s: Seq<char>, c: char) -> Seq<char>
    decreases s.len(),
{
    if s.len() > 0 && s.last() == c {
        strip_end(s.drop_last(), c)
    } else {
        s
    }
}

/// `s` without the copies of `c` that it begins and ends with.
pub open spec fn stripped(s: Seq<char>, c: char) -> Seq<char> {
    strip_end(strip_start(s, c), c)
}

/// The ASCII lower case of one character; other characters stand for themselves.
pub open spec fn lower_char(c: char) -> char {
    if 'A' <= c <= 'Z' {
        (c as u32 + 32) as char
    } else {
        c
    }
}

/// `s` with its ASCII letters in lower case.
pub open spec fn lowered(s: Seq<char>) -> Seq<char> {
    Seq::new(s.len(), |i: int| lower_char(s[i]))
}

/// The ASCII upper case of one character; other characters stand for themselves.
pub open spec fn upper_char(c: char) -> char {
    if 'a' <= c <= 'z' {
        (c as u32 - 32) as char
    } else {
        c
    }
}

/// `s` with its ASCII letters in upper case.
pub open spec fn raised(s: Seq<char>) -> Seq<char> {
    Seq::new(s.len(), |i: int| upper_char(s[i]))
}

/// `t` stands at position `i` of `s`.
pub open spec fn stands_at(s: Seq<char>, t: Seq<char>, i: int) -> bool {
    &&& 0 <= i
    &&& i + t.len() <= s.len()
    &&& s.subrange(i, i + t.len()) == t
}

/// `t` occurs somewhere in `s`.
pub open spec fn occurs_in(t: Seq<char>, s: Seq<char>) -> bool {
    exists|i: int| stands_at(s, t, i)
}

/// The position of the first `c` in `s`, or the length of `s` if there is none.
pub open spec fn find_char(s: Seq<char>, c: char) -> nat
    decreases s.len(),
{
    if s.len() == 0 || s[0] == c {
        0
    } else {
        1 + find_char(s.drop_first(), c)
    }
}

/// How often `c` occurs in `s`.
pub open spec fn count_char(s: Seq<char>, c: char) -> nat
    decreases s.len(),
{
    if s.len() == 0 {
        0
    } else {
        count_char(s.drop_first(), c) + if s[0] == c {
            1nat
        } else {
            0nat
        }
    }
}

/// The pieces of `s` between the occurrences of `sep`.
pub open spec fn split_at_each(s: Seq<char>, sep: char) -> Seq<Seq<char>>
    decreases s.len(),
    via split_at_each_decreases
{
    let i = find_char(s, sep) as int;
    if i >= s.len() {
        seq![s]
    } else {
        seq![s.take(i)] + split_at_each(s.skip(i + 1), sep)
    }
}

#[via_fn]
proof fn split_at_each_decreases(s: Seq<char>, sep: char) {
}

/// `line` without a carriage return at its end.
pub open spec fn without_cr(line: Seq<char>) -> Seq<char> {
    if line.len() > 0 && line.last() == '\r' {
        line.drop_last()
    } else {
        line
    }
}

/// The lines of `s`: each ends with a line feed, or a carriage return and a line feed,
/// neither of which belongs to the line; the line feed of the last line is optional.
pub open spec fn lines_of(s: Seq<char>) -> Seq<Seq<char>>
    decreases s.len(),
{
    let i = find_char(s, '\n') as int;
    if s.len() == 0 {
        seq![]
    } else if i >= s.len() {
        seq![s]
    } else {
        seq![without_cr(s.take(i))] + lines_of(s.skip(i + 1))
    }
}

/// How many characters `s` begins with that are not white space.
pub open spec fn word_len(s: Seq<char>) -> nat
    decreases s.len(),
{
    if s.len() == 0 || is_white_space(s[0]) {
        0
    } else {
        1 + word_len(s.drop_first())
    }
}

/// The words of `s`: its pieces between runs of white space.
pub open spec fn words_of(s: Seq<char>) -> Seq<Seq<char>>
    decreases s.len(),
    via words_of_decreases
{
    let rest = trim_start(s);
    if rest.len() == 0 {
        seq![]
    } else {
        let n = word_len(rest) as int;
        seq![rest.take(n)] + words_of(rest.skip(n))
    }
}

#[via_fn]
proof fn words_of_decreases(s: Seq<char>) {
    lemma_trim_start(s);
    lemma_word_len(trim_start(s));
}

/// A decimal digit.
pub open spec fn is_digit(c: char) -> bool {
    '0' <= c <= '9'
}

/// Every character of `s` is a decimal digit.
pub open spec fn all_digits(s: Seq<char>) -> bool {
    forall|i: int| 0 <= i < s.len() ==> is_digit(#[trigger] s[i])
}

/// The number that a sequence of decimal digits stands for.
pub open spec fn numeral(s: Seq<char>) -> nat
    decreases s.len(),
{
    if s.len() == 0 {
        0
    } else {
        (numeral(s.drop_last()) * 10 + (s.last() as u32 - '0' as u32)) as nat
    }
}

/// `s` without a plus sign in front of something.
pub open spec fn unsigned_digits(s: Seq<char>) -> Seq<char> {
    if s.len() > 1 && s[0] == '+' {
        s.drop_first()
    } else {
        s
    }
}

/// The number written in `s`: decimal digits, at least one, behind an optional plus
/// sign, and no more than `max`.
pub open spec fn number_in(s: Seq<char>, max: nat) -> Option<nat> {
    let digits = unsigned_digits(s);
    if digits.len() > 0 && all_digits(digits) && numeral(digits) <= max {
        Some(numeral(digits))
    } else {
        None
    }
}

/// The decimal digit for `n < 10`.
pub open spec fn digit_char(n: nat) -> char {
    ('0' as u32 + n) as char
}

/// `n` in decimal, without leading zeros.
pub open spec fn decimal(n: nat) -> Seq<char>
    decreases n,
{
    if n < 10 {
        seq![digit_char(n)]
    } else {
        decimal(n / 10).push(digit_char(n % 10))
    }
}

/// `a` comes before `b` in the order of their code points.
pub open spec fn before(a: Seq<char>, b: Seq<char>) -> bool
    decreases a.len(),
{
    if b.len() == 0 {
        false
    } else if a.len() == 0 {
        true
    } else if a[0] == b[0] {
        before(a.drop_first(), b.drop_first())
    } else {
        a[0] < b[0]
    }
}

/// How many bytes a character takes in UTF-8.
pub open spec fn utf8_width(c: char) -> nat {
    if c as u32 <= 0x7f {
        1
    } else if c as u32 <= 0x7ff {
        2
    } else if c as u32 <= 0xffff {
        3
    } else {
        4
    }
}

/// How many bytes `s` takes in UTF-8.
pub open spec fn utf8_len(s: Seq<char>) -> nat {
    encode_utf8(s).len()
}

/// The end of `s` that takes `n` bytes in UTF-8, if `n` bytes before its end a
/// character begins.
pub open spec fn utf8_tail(s: Seq<char>, n: int) -> Option<Seq<char>>
    decreases s.len(),
{
    if n == 0 {
        Some(Seq::empty())
    } else if s.len() == 0 || n < utf8_width(s.last()) {
        None
    } else {
        match utf8_tail(s.drop_last(), n - utf8_width(s.last())) {
            Some(tail) => Some(tail.push(s.last())),
            None => None,
        }
    }
}

/// The contents of several pieces of text.
pub open spec fn texts(pieces: Seq<&[char]>) -> Seq<Seq<char>> {
    Seq::new(pieces.len(), |i: int| pieces[i]@)
}

/// The contents of several strings.
pub open spec fn strs(s: Seq<&str>) -> Seq<Seq<char>> {
    Seq::new(s.len(), |i: int| s[i]@)
}

/// The contents of several owned strings.
pub open spec fn string_texts(s: Seq<String>) -> Seq<Seq<char>> {
    Seq::new(s.len(), |i: int| s[i]@)
}

/// The contents of an optional string.
pub open spec fn opt_text(s: Option<String>) -> Option<Seq<char>> {
    match s {
        Some(s) => Some(s@),
        None => None,
    }
}

/// The contents of an optional string slice.
pub open spec fn opt_str(s: Option<&str>) -> Option<Seq<char>> {
    match s {
        Some(s) => Some(s@),
        None => None,
    }
}

// ---------------------------------------------------------------------------
// Facts about the models
// ---------------------------------------------------------------------------
proof fn lemma_trim_start(s: Seq<char>)
    ensures
        trim_start(s).len() <= s.len(),
        trim_start(s) == s.skip(s.len() - trim_start(s).len()),
        trim_start(s).len() > 0 ==> !is_white_space(trim_start(s)[0]),
    decreases s.len(),
{
    if s.len() > 0 && is_white_space(s[0]) {
        lemma_trim_start(s.drop_first());
        let n = trim_start(s).len();
        assert(s.drop_first().skip(s.len() - 1 - n) =~= s.skip(s.len() - n));
    } else {
        assert(s.skip(0) =~= s);
    }
}

proof fn lemma_trim_end(s: Seq<char>)
    ensures
        trim_end(s).len() <= s.len(),
        trim_end(s) == s.take(trim_end(s).len() as int),
        trim_end(s).len() > 0 ==> !is_white_space(trim_end(s).last()),
    decreases s.len(),
{
    if s.len() > 0 && is_white_space(s.last()) {
        lemma_trim_end(s.drop_last());
        let n = trim_end(s).len() as int;
        assert(s.drop_last().take(n) =~= s.take(n));
    } else {
        assert(s.take(s.len() as int) =~= s);
    }
}

/// What `trimmed` gives neither begins nor ends with white space.
pub proof fn trimmed_has_no_outer_white_space(s: Seq<char>)
    ensures
        trimmed(s).len() > 0 ==> !is_white_space(trimmed(s)[0]),
        trimmed(s).len() > 0 ==> !is_white_space(trimmed(s).last()),
        trimmed(trimmed(s)) == trimmed(s),
{
    lemma_trim_start(s);
    lemma_trim_end(trim_start(s));
}

/// What `trimmed` gives stands somewhere in `s`.
pub proof fn trimmed_is_a_part(s: Seq<char>)
    ensures
        occurs_in(trimmed(s), s),
{
    let t = trim_start(s);
    lemma_trim_start(s);
    lemma_trim_end(t);
    let k = s.len() - t.len();
    assert(s.subrange(k, k + trimmed(s).len()) =~= trimmed(s));
    assert(stands_at(s, trimmed(s), k));
}

/// Only letters have cases, and a letter is no white space.
proof fn lemma_case(c: char)
    ensures
        is_white_space(lower_char(c)) == is_white_space(c),
        is_white_space(upper_char(c)) == is_white_space(c),
        lower_char(lower_char(c)) == lower_char(c),
        lower_char(upper_char(c)) == lower_char(c),
{
}

proof fn lemma_trim_lowered(s: Seq<char>)
    ensures
        trim_start(lowered(s)) == lowered(trim_start(s)),
        trim_end(lowered(s)) == lowered(trim_end(s)),
    decreases s.len(),
{
    if s.len() > 0 {
        lemma_case(s[0]);
        lemma_case(s.last());
        lemma_trim_lowered(s.drop_first());
        lemma_trim_lowered(s.drop_last());
        assert(lowered(s).drop_first() =~= lowered(s.drop_first()));
        assert(lowered(s).drop_last() =~= lowered(s.drop_last()));
    }
}

proof fn lemma_trim_raised(s: Seq<char>)
    ensures
        trim_start(raised(s)) == raised(trim_start(s)),
        trim_end(raised(s)) == raised(trim_end(s)),
    decreases s.len(),
{
    if s.len() > 0 {
        lemma_case(s[0]);
        lemma_case(s.last());
        lemma_trim_raised(s.drop_first());
        lemma_trim_raised(s.drop_last());
        assert(raised(s).drop_first() =~= raised(s.drop_first()));
        assert(raised(s).drop_last() =~= raised(s.drop_last()));
    }
}

/// The lower case of a text is the same whatever case the text is in, and it makes no difference
/// whether a text is trimmed before its case is changed or after.
pub proof fn cases_differ_in_nothing_else(s: Seq<char>)
    ensures
        lowered(lowered(s)) == lowered(s),
        lowered(raised(s)) == lowered(s),
        trimmed(lowered(s)) == lowered(trimmed(s)),
        trimmed(raised(s)) == raised(trimmed(s)),
{
    assert forall|i: int| 0 <= i < s.len() implies lower_char(#[trigger] lower_char(s[i]))
        == lower_char(s[i]) && lower_char(upper_char(s[i])) == lower_char(s[i]) by {
        lemma_case(s[i]);
    }
    assert(lowered(lowered(s)) =~= lowered(s));
    assert(lowered(raised(s)) =~= lowered(s));
    lemma_trim_lowered(s);
    lemma_trim_lowered(trim_start(s));
    lemma_trim_raised(s);
    lemma_trim_raised(trim_start(s));
}

proof fn lemma_word_len(s: Seq<char>)
    ensures
        word_len(s) <= s.len(),
        s.len() > 0 && !is_white_space(s[0]) ==> word_len(s) > 0,
    decreases s.len(),
{
    if s.len() > 0 && !is_white_space(s[0]) {
        lemma_word_len(s.drop_first());
    }
}

// ---------------------------------------------------------------------------
// Strings and characters
// ---------------------------------------------------------------------------
/// The characters of a string, in order.
pub fn to_chars(s: &str) -> (chars: Vec<char>)
    ensures
        chars@ == s@,
{
    let mut chars: Vec<char> = Vec::new();
    for c in it: s.chars()
        invariant
            it.seq() == s@,
            chars@ == s@.take(it.index()),
    {
        chars.push(c);
        assert(s@.take(it.index() + 1) =~= s@.take(it.index()).push(c));
    }
    assert(s@.take(s@.len() as int) =~= s@);
    chars
}

/// The string made of the given characters.
pub fn from_chars(chars: &[char]) -> (s: String)
    ensures
        s@ == chars@,
{
    let mut s = String::new();
    push_chars(&mut s, chars);
    assert(Seq::<char>::empty() + chars@ =~= chars@);
    s
}

/// Appends the given characters to a string.
pub fn push_chars(s: &mut String, chars: &[char])
    ensures
        final(s)@ == old(s)@ + chars@,
{
    let mut i: usize = 0;
    assert(old(s)@ + chars@.take(0) =~= old(s)@);
    while i < chars.len()
        invariant
            i <= chars.len(),
            s@ == old(s)@ + chars@.take(i as int),
        decreases chars.len() - i,
    {
        s.push(chars[i]);
        i += 1;
        assert(old(s)@ + chars@.take(i as int) =~= (old(s)@ + chars@.take(i - 1)).push(
            chars@[i - 1],
        ));
    }
    assert(chars@.take(chars@.len() as int) =~= chars@);
}

/// Whether two pieces of text are the same.
pub fn same(a: &[char], b: &[char]) -> (r: bool)
    ensures
        r == (a@ == b@),
{
    if a.len() != b.len() {
        return false;
    }
    let mut i: usize = 0;
    while i < a.len()
        invariant
            i <= a.len() == b.len(),
            forall|j: int| 0 <= j < i ==> a@[j] == b@[j],
        decreases a.len() - i,
    {
        if a[i] != b[i] {
            return false;
        }
        i += 1;
    }
    assert(a@ =~= b@);
    true
}

/// Whether a character is white space.
pub fn white_space(c: char) -> (r: bool)
    ensures
        r == is_white_space(c),
{
    ('\u{9}' <= c && c <= '\u{d}') || c == '\u{20}' || c == '\u{85}' || c == '\u{a0}' || c
        == '\u{1680}' || ('\u{2000}' <= c && c <= '\u{200a}') || c == '\u{2028}' || c == '\u{2029}'
        || c == '\u{202f}' || c == '\u{205f}' || c == '\u{3000}'
}

// ---------------------------------------------------------------------------
// Trimming
// ---------------------------------------------------------------------------
fn skip_white_space<'a>(s: &'a [char]) -> (r: &'a [char])
    ensures
        r@ == trim_start(s@),
{
    let mut i: usize = 0;
    assert(s@.skip(0) =~= s@);
    while i < s.len() && white_space(s[i])
        invariant
            i <= s.len(),
            trim_start(s@.skip(i as int)) == trim_start(s@),
        decreases s.len() - i,
    {
        assert(s@.skip(i as int).drop_first() =~= s@.skip(i + 1));
        i += 1;
    }
    slice_subrange(s, i, s.len())
}

/// A piece of text without the white space around it.
pub fn trim<'a>(s: &'a [char]) -> (r: &'a [char])
    ensures
        r@ == trimmed(s@),
{
    let t = skip_white_space(s);
    let mut n: usize = t.len();
    assert(t@.take(n as int) =~= t@);
    while n > 0 && white_space(t[n - 1])
        invariant
            n <= t.len(),
            trim_end(t@.take(n as int)) == trim_end(t@),
        decreases n,
    {
        assert(t@.take(n as int).drop_last() =~= t@.take(n - 1));
        n -= 1;
    }
    slice_subrange(t, 0, n)
}

/// A piece of text without the copies of `c` around it.
pub fn strip<'a>(s: &'a [char], c: char) -> (r: &'a [char])
    ensures
        r@ == stripped(s@, c),
{
    let mut i: usize = 0;
    assert(s@.skip(0) =~= s@);
    while i < s.len() && s[i] == c
        invariant
            i <= s.len(),
            strip_start(s@.skip(i as int), c) == strip_start(s@, c),
        decreases s.len() - i,
    {
        assert(s@.skip(i as int).drop_first() =~= s@.skip(i + 1));
        i += 1;
    }
    let t = slice_subrange(s, i, s.len());
    let mut n: usize = t.len();
    assert(t@.take(n as int) =~= t@);
    while n > 0 && t[n - 1] == c
        invariant
            n <= t.len(),
            strip_end(t@.take(n as int), c) == strip_end(t@, c),
        decreases n,
    {
        assert(t@.take(n as int).drop_last() =~= t@.take(n - 1));
        n -= 1;
    }
    slice_subrange(t, 0, n)
}

// ---------------------------------------------------------------------------
// Case and searching
// ---------------------------------------------------------------------------
fn lower(c: char) -> (r: char)
    ensures
        r == lower_char(c),
{
    if 'A' <= c && c <= 'Z' {
        (c as u8 + 32) as char
    } else {
        c
    }
}

/// A piece of text with its ASCII letters in lower case.
pub fn to_lower(s: &[char]) -> (r: Vec<char>)
    ensures
        r@ == lowered(s@),
{
    let mut r: Vec<char> = Vec::new();
    let mut i: usize = 0;
    while i < s.len()
        invariant
            i <= s.len(),
            r@.len() == i,
            forall|j: int| 0 <= j < i ==> r@[j] == lower_char(s@[j]),
        decreases s.len() - i,
    {
        r.push(lower(s[i]));
        i += 1;
    }
    assert(r@ =~= lowered(s@));
    r
}

/// Whether `t` occurs somewhere in `s`.
pub fn contains(s: &[char], t: &[char]) -> (r: bool)
    ensures
        r == occurs_in(t@, s@),
{
    if t.len() > s.len() {
        return false;
    }
    let last: usize = s.len() - t.len();
    let mut i: usize = 0;
    loop
        invariant
            last == s.len() - t.len(),
            i <= last,
            forall|j: int| 0 <= j < i ==> !stands_at(s@, t@, j),
        decreases last - i,
    {
        if same(slice_subrange(s, i, i + t.len()), t) {
            assert(stands_at(s@, t@, i as int));
            return true;
        }
        if i == last {
            return false;
        }
        i += 1;
    }
}

/// The position of the first `c` in `s`, or the length of `s` if there is none.
pub fn position_of(s: &[char], c: char) -> (r: usize)
    ensures
        r == find_char(s@, c),
        r <= s@.len(),
{
    let mut i: usize = 0;
    assert(s@.skip(0) =~= s@);
    while i < s.len() && s[i] != c
        invariant
            i <= s.len(),
            find_char(s@, c) == i + find_char(s@.skip(i as int), c),
        decreases s.len() - i,
    {
        assert(s@.skip(i as int).drop_first() =~= s@.skip(i + 1));
        i += 1;
    }
    i
}

// ---------------------------------------------------------------------------
// Splitting
// ---------------------------------------------------------------------------
/// The pieces of `s` between the occurrences of `sep`.
pub fn split<'a>(s: &'a [char], sep: char) -> (r: Vec<&'a [char]>)
    ensures
        texts(r@) == split_at_each(s@, sep),
{
    let mut r: Vec<&'a [char]> = Vec::new();
    let mut rest: &'a [char] = s;
    assert(texts(r@) + split_at_each(rest@, sep) =~= split_at_each(s@, sep));
    loop
        invariant
            texts(r@) + split_at_each(rest@, sep) == split_at_each(s@, sep),
        decreases rest.len(),
    {
        let i: usize = position_of(rest, sep);
        let ghost before_push = r@;
        if i >= rest.len() {
            r.push(rest);
            assert(texts(r@) =~= texts(before_push) + seq![rest@]);
            return r;
        }
        let piece = slice_subrange(rest, 0, i);
        r.push(piece);
        let ghost old_rest = rest@;
        rest = slice_subrange(rest, i + 1, rest.len());
        assert(piece@ =~= old_rest.take(i as int));
        assert(rest@ =~= old_rest.skip(i + 1));
        assert(texts(r@) =~= texts(before_push) + seq![piece@]);
        assert(texts(r@) + split_at_each(rest@, sep) =~= texts(before_push) + (seq![piece@]
            + split_at_each(rest@, sep)));
    }
}

/// The lines of `s`.
pub fn lines<'a>(s: &'a [char]) -> (r: Vec<&'a [char]>)
    ensures
        texts(r@) == lines_of(s@),
{
    let mut r: Vec<&'a [char]> = Vec::new();
    let mut rest: &'a [char] = s;
    assert(texts(r@) + lines_of(rest@) =~= lines_of(s@));
    while rest.len() > 0
        invariant
            texts(r@) + lines_of(rest@) == lines_of(s@),
        decreases rest.len(),
    {
        let i: usize = position_of(rest, '\n');
        let ghost before_push = r@;
        if i >= rest.len() {
            r.push(rest);
            assert(texts(r@) =~= texts(before_push) + seq![rest@]);
            return r;
        }
        let n: usize = if i > 0 && rest[i - 1] == '\r' {
            i - 1
        } else {
            i
        };
        let line = slice_subrange(rest, 0, n);
        r.push(line);
        let ghost old_rest = rest@;
        rest = slice_subrange(rest, i + 1, rest.len());
        assert(line@ =~= without_cr(old_rest.take(i as int)));
        assert(rest@ =~= old_rest.skip(i + 1));
        assert(texts(r@) =~= texts(before_push) + seq![line@]);
        assert(texts(r@) + lines_of(rest@) =~= texts(before_push) + (seq![line@] + lines_of(
            rest@,
        )));
    }
    assert(texts(r@) + lines_of(rest@) =~= texts(r@));
    r
}

/// The words of `s`.
pub fn words<'a>(s: &'a [char]) -> (r: Vec<&'a [char]>)
    ensures
        texts(r@) == words_of(s@),
{
    let mut r: Vec<&'a [char]> = Vec::new();
    let mut rest: &'a [char] = s;
    assert(texts(r@) + words_of(rest@) =~= words_of(s@));
    loop
        invariant
            texts(r@) + words_of(rest@) == words_of(s@),
        decreases rest.len(),
    {
        let t = skip_white_space(rest);
        proof {
            lemma_trim_start(rest@);
        }
        let ghost before_push = r@;
        if t.len() == 0 {
            assert(texts(r@) + words_of(rest@) =~= texts(r@));
            return r;
        }
        let mut n: usize = 0;
        assert(t@.skip(0) =~= t@);
        while n < t.len() && !white_space(t[n])
            invariant
                n <= t.len(),
                word_len(t@) == n + word_len(t@.skip(n as int)),
            decreases t.len() - n,
        {
            assert(t@.skip(n as int).drop_first() =~= t@.skip(n + 1));
            n += 1;
        }
        proof {
            lemma_word_len(t@);
        }
        let word = slice_subrange(t, 0, n);
        r.push(word);
        rest = slice_subrange(t, n, t.len());
        assert(word@ =~= t@.take(n as int));
        assert(rest@ =~= t@.skip(n as int));
        assert(texts(r@) =~= texts(before_push) + seq![word@]);
        assert(texts(r@) + words_of(rest@) =~= texts(before_push) + (seq![word@] + words_of(
            rest@,
        )));
    }
}

/// A separator is found behind what it separates.
pub proof fn lemma_find_joined(a: Seq<char>, sep: char, b: Seq<char>)
    requires
        !a.contains(sep),
    ensures
        find_char(a.push(sep) + b, sep) == a.len(),
        find_char(a, sep) == a.len(),
    decreases a.len(),
{
    let s = a.push(sep) + b;
    if a.len() > 0 {
        assert(a.contains(a[0]));
        let rest = a.drop_first();
        assert(!rest.contains(sep)) by {
            if rest.contains(sep) {
                let k = choose|k: int| 0 <= k < rest.len() && rest[k] == sep;
                assert(a[k + 1] == sep);
            }
        }
        lemma_find_joined(rest, sep, b);
        assert(s.drop_first() =~= rest.push(sep) + b);
    }
}

/// Splitting takes apart what a separator has joined.
pub proof fn split_undoes_joining(a: Seq<char>, sep: char, b: Seq<char>)
    requires
        !a.contains(sep),
    ensures
        split_at_each(a.push(sep) + b, sep) == seq![a] + split_at_each(b, sep),
        split_at_each(a, sep) == seq![a],
{
    let s = a.push(sep) + b;
    lemma_find_joined(a, sep, b);
    assert(s.take(a.len() as int) =~= a);
    assert(s.skip(a.len() as int + 1) =~= b);
}

proof fn lemma_find_char(s: Seq<char>, c: char)
    ensures
        find_char(s, c) <= s.len(),
        find_char(s, c) < s.len() ==> s[find_char(s, c) as int] == c,
        !s.take(find_char(s, c) as int).contains(c),
        count_char(s, c) == if find_char(s, c) < s.len() {
            1 + count_char(s.skip(find_char(s, c) as int + 1), c)
        } else {
            0
        },
    decreases s.len(),
{
    let n = find_char(s, c) as int;
    if s.len() > 0 && s[0] != c {
        let rest = s.drop_first();
        lemma_find_char(rest, c);
        assert(!s.take(n).contains(c)) by {
            if s.take(n).contains(c) {
                let k = choose|k: int| 0 <= k < s.take(n).len() && s.take(n)[k] == c;
                assert(rest.take(n - 1)[k - 1] == c);
            }
        }
        if n < s.len() {
            assert(rest.skip(n) =~= s.skip(n + 1));
        }
    } else if s.len() > 0 {
        assert(s.skip(1) =~= s.drop_first());
    }
}

/// There is one piece more than there are separators, and no piece holds one. The first piece is
/// what stands before the first separator, and the others are those of what stands behind it.
pub proof fn split_pieces_hold_no_separator(s: Seq<char>, sep: char)
    ensures
        split_at_each(s, sep).len() == 1 + count_char(s, sep),
        split_at_each(s, sep)[0] == s.take(find_char(s, sep) as int),
        find_char(s, sep) <= s.len(),
        forall|i: int|
            0 <= i < split_at_each(s, sep).len() ==> !(#[trigger] split_at_each(s, sep)[i]).contains(
                sep,
            ),
        split_at_each(s, sep).len() == 1 ==> split_at_each(s, sep)[0] == s,
        split_at_each(s, sep).len() > 1 ==> {
            let rest = s.skip(find_char(s, sep) as int + 1);
            &&& s == s.take(find_char(s, sep) as int).push(sep) + rest
            &&& split_at_each(s, sep).drop_first() == split_at_each(rest, sep)
        },
    decreases s.len(),
{
    lemma_find_char(s, sep);
    let n = find_char(s, sep) as int;
    if n < s.len() {
        let rest = s.skip(n + 1);
        split_pieces_hold_no_separator(rest, sep);
        let pieces = split_at_each(s, sep);
        assert(pieces.drop_first() =~= split_at_each(rest, sep));
        assert(s =~= s.take(n).push(sep) + rest);
        assert forall|i: int| 0 <= i < pieces.len() implies !(#[trigger] pieces[i]).contains(
            sep,
        ) by {
            if i > 0 {
                assert(pieces[i] == split_at_each(rest, sep)[i - 1]);
            }
        }
    } else {
        assert(s.take(n) =~= s);
    }
}

// ---------------------------------------------------------------------------
// Numbers
// ---------------------------------------------------------------------------
proof fn lemma_numeral_grows(s: Seq<char>, n: int)
    requires
        0 <= n <= s.len(),
        all_digits(s),
    ensures
        numeral(s.take(n)) <= numeral(s),
    decreases s.len(),
{
    if n == s.len() {
        assert(s.take(n) =~= s);
    } else {
        assert(s.drop_last().take(n) =~= s.take(n));
        assert(is_digit(s.last()));
        assert forall|i: int| 0 <= i < s.drop_last().len() implies is_digit(
            #[trigger] s.drop_last()[i],
        ) by {
            assert(is_digit(s[i]));
        }
        lemma_numeral_grows(s.drop_last(), n);
    }
}

/// The number written in `s`, if there is one and it is no more than `max`.
pub fn parse_number(s: &[char], max: u64) -> (r: Option<u64>)
    ensures
        match r {
            Some(n) => number_in(s@, max as nat) == Some(n as nat),
            None => number_in(s@, max as nat) is None,
        },
{
    let digits = if s.len() > 1 && s[0] == '+' {
        slice_subrange(s, 1, s.len())
    } else {
        s
    };
    assert(digits@ =~= unsigned_digits(s@));
    if digits.len() == 0 {
        return None;
    }
    let mut n: u64 = 0;
    let mut i: usize = 0;
    while i < digits.len()
        invariant
            i <= digits.len(),
            digits@ == unsigned_digits(s@),
            n == numeral(digits@.take(i as int)),
            n <= max,
            forall|j: int| 0 <= j < i ==> is_digit(#[trigger] digits@[j]),
        decreases digits.len() - i,
    {
        let c = digits[i];
        if c < '0' || c > '9' {
            assert(!is_digit(digits@[i as int]));
            return None;
        }
        let d: u64 = (c as u8 - '0' as u8) as u64;
        assert(digits@.take(i + 1).drop_last() =~= digits@.take(i as int));
        assert(numeral(digits@.take(i + 1)) == n * 10 + d);
        if n > (u64::MAX - d) / 10 || n * 10 + d > max {
            proof {
                if all_digits(digits@) {
                    lemma_numeral_grows(digits@, i + 1);
                }
            }
            return None;
        }
        n = n * 10 + d;
        i += 1;
    }
    assert(digits@.take(i as int) =~= digits@);
    Some(n)
}

/// `n` in decimal.
pub fn to_decimal(n: usize) -> (r: Vec<char>)
    ensures
        r@ == decimal(n as nat),
    decreases n,
{
    let mut r: Vec<char> = if n < 10 {
        Vec::new()
    } else {
        to_decimal(n / 10)
    };
    r.push(('0' as u8 + (n % 10) as u8) as char);
    assert(n < 10 ==> r@ =~= seq![digit_char(n as nat)]);
    r
}

proof fn lemma_decimal(n: nat)
    ensures
        decimal(n).len() > 0,
        all_digits(decimal(n)),
        numeral(decimal(n)) == n,
    decreases n,
{
    reveal_with_fuel(numeral, 2);
    if n < 10 {
        assert(decimal(n).drop_last() =~= Seq::<char>::empty());
        assert(decimal(n).last() == digit_char(n));
    } else {
        lemma_decimal(n / 10);
        assert(decimal(n).drop_last() =~= decimal(n / 10));
        assert forall|i: int| 0 <= i < decimal(n).len() implies is_digit(
            #[trigger] decimal(n)[i],
        ) by {
            if i < decimal(n / 10).len() {
                assert(is_digit(decimal(n / 10)[i]));
            }
        }
    }
}

/// Reading a number back from its decimal form gives the number.
pub proof fn decimal_reads_back(n: nat, max: nat)
    requires
        n <= max,
    ensures
        number_in(decimal(n), max) == Some(n),
{
    lemma_decimal(n);
    assert(is_digit(decimal(n)[0]));
}

// ---------------------------------------------------------------------------
// Order
// ---------------------------------------------------------------------------
/// Whether `a` comes before `b` in the order of their code points.
pub fn comes_before(a: &[char], b: &[char]) -> (r: bool)
    ensures
        r == before(a@, b@),
{
    let mut i: usize = 0;
    assert(a@.skip(0) =~= a@);
    assert(b@.skip(0) =~= b@);
    while i < a.len() && i < b.len() && a[i] == b[i]
        invariant
            i <= a.len(),
            i <= b.len(),
            before(a@.skip(i as int), b@.skip(i as int)) == before(a@, b@),
        decreases a.len() - i,
    {
        assert(a@.skip(i as int).drop_first() =~= a@.skip(i + 1));
        assert(b@.skip(i as int).drop_first() =~= b@.skip(i + 1));
        i += 1;
    }
    if i >= b.len() {
        false
    } else if i >= a.len() {
        true
    } else {
        a[i] < b[i]
    }
}

/// The order of text is a strict total order.
pub proof fn before_is_a_total_order(a: Seq<char>, b: Seq<char>, c: Seq<char>)
    ensures
        !before(a, a),
        before(a, b) ==> !before(b, a),
        before(a, b) || before(b, a) || a == b,
        before(a, b) && before(b, c) ==> before(a, c),
    decreases a.len(),
{
    if a.len() > 0 && b.len() > 0 && c.len() > 0 {
        before_is_a_total_order(a.drop_first(), b.drop_first(), c.drop_first());
    } else if a.len() > 0 && b.len() > 0 {
        before_is_a_total_order(a.drop_first(), b.drop_first(), c);
    } else if a.len() > 0 {
        before_is_a_total_order(a.drop_first(), b, c);
    }
    if a.len() > 0 && b.len() > 0 && a[0] == b[0] && a.drop_first() == b.drop_first() {
        assert(a =~= seq![a[0]] + a.drop_first());
        assert(b =~= seq![b[0]] + b.drop_first());
    }
    if a.len() == 0 && b.len() == 0 {
        assert(a =~= b);
    }
}

// ---------------------------------------------------------------------------
// Lengths in bytes
// ---------------------------------------------------------------------------
fn char_width(c: char) -> (r: usize)
    ensures
        r == utf8_width(c),
{
    let u: u32 = c as u32;
    if u <= 0x7f {
        1
    } else if u <= 0x7ff {
        2
    } else if u <= 0xffff {
        3
    } else {
        4
    }
}

proof fn lemma_scalar_width(c: char)
    ensures
        encode_scalar(c as u32).len() == utf8_width(c),
{
}

proof fn lemma_utf8_len_skip(s: Seq<char>, i: int)
    requires
        0 <= i < s.len(),
    ensures
        utf8_len(s.skip(i)) == utf8_width(s[i]) + utf8_len(s.skip(i + 1)),
{
    assert(s.skip(i).drop_first() =~= s.skip(i + 1));
    assert(s.skip(i)[0] == s[i]);
    lemma_scalar_width(s[i]);
}

proof fn lemma_utf8_len_push(s: Seq<char>, c: char)
    ensures
        utf8_len(s.push(c)) == utf8_len(s) + utf8_width(c),
    decreases s.len(),
{
    let t = s.push(c);
    if s.len() == 0 {
        assert(t.skip(0) =~= t);
        assert(t.skip(1) =~= s);
        lemma_utf8_len_skip(t, 0);
    } else {
        lemma_utf8_len_push(s.drop_first(), c);
        lemma_utf8_len_skip(t, 0);
        lemma_utf8_len_skip(s, 0);
        assert(t.skip(0) =~= t);
        assert(s.skip(0) =~= s);
        assert(s.skip(1) =~= s.drop_first());
        assert(t.skip(1) =~= s.drop_first().push(c));
    }
}

/// Whether `s` takes more than `limit` bytes in UTF-8.
pub fn longer_than(s: &[char], limit: usize) -> (r: bool)
    ensures
        r == (utf8_len(s@) > limit),
{
    let mut left: usize = limit;
    let mut i: usize = 0;
    assert(s@.skip(0) =~= s@);
    while i < s.len()
        invariant
            i <= s.len(),
            left <= limit,
            utf8_len(s@) == (limit - left) + utf8_len(s@.skip(i as int)),
        decreases s.len() - i,
    {
        let w: usize = char_width(s[i]);
        proof {
            lemma_utf8_len_skip(s@, i as int);
        }
        if w > left {
            return true;
        }
        left = left - w;
        i += 1;
    }
    assert(s@.skip(i as int) =~= Seq::<char>::empty());
    false
}

/// The end of `s` that takes `n` bytes in UTF-8, if a character begins there.
pub fn tail_of_bytes<'a>(s: &'a [char], n: usize) -> (r: Option<&'a [char]>)
    ensures
        match r {
            Some(tail) => utf8_tail(s@, n as int) == Some(tail@),
            None => utf8_tail(s@, n as int) is None,
        },
{
    let mut left: usize = n;
    let mut i: usize = s.len();
    assert(s@.take(i as int) =~= s@);
    assert(s@.skip(i as int) =~= Seq::<char>::empty());
    while left > 0
        invariant
            i <= s.len(),
            match utf8_tail(s@.take(i as int), left as int) {
                Some(t) => utf8_tail(s@, n as int) == Some(t + s@.skip(i as int)),
                None => utf8_tail(s@, n as int) is None,
            },
        decreases i,
    {
        if i == 0 {
            return None;
        }
        let w: usize = char_width(s[i - 1]);
        assert(s@.take(i as int).drop_last() =~= s@.take(i - 1));
        assert(s@.take(i as int).last() == s@[i - 1]);
        if w > left {
            return None;
        }
        left = left - w;
        i -= 1;
        proof {
            if let Some(t) = utf8_tail(s@.take(i as int), left as int) {
                assert(t.push(s@[i as int]) + s@.skip(i + 1) =~= t + s@.skip(i as int));
            }
        }
    }
    assert(Seq::<char>::empty() + s@.skip(i as int) =~= s@.skip(i as int));
    Some(slice_subrange(s, i, s.len()))
}

/// `utf8_tail` gives an end of `s`, and that end takes `n` bytes.
pub proof fn utf8_tail_is_a_suffix(s: Seq<char>, n: int)
    requires
        0 <= n,
    ensures
        match utf8_tail(s, n) {
            Some(tail) => {
                &&& tail.len() <= s.len()
                &&& tail == s.skip(s.len() - tail.len())
                &&& utf8_len(tail) == n
            },
            None => forall|k: int| 0 <= k <= s.len() ==> utf8_len(#[trigger] s.skip(k)) != n,
        },
    decreases s.len(),
{
    assert(s.skip(s.len() as int) =~= Seq::<char>::empty());
    if n == 0 {
    } else if s.len() == 0 {
        assert forall|k: int| 0 <= k <= s.len() implies utf8_len(#[trigger] s.skip(k)) != n by {
            assert(s.skip(k) =~= Seq::<char>::empty());
        }
    } else {
        let front = s.drop_last();
        let w = utf8_width(s.last()) as int;
        assert forall|k: int| 0 <= k < s.len() implies utf8_len(#[trigger] s.skip(k)) == utf8_len(
            front.skip(k),
        ) + w by {
            assert(s.skip(k) =~= front.skip(k).push(s.last()));
            lemma_utf8_len_push(front.skip(k), s.last());
        }
        if w <= n {
            utf8_tail_is_a_suffix(front, n - w);
            if let Some(t) = utf8_tail(front, n - w) {
                assert(t.push(s.last()) =~= s.skip(s.len() - t.len() - 1));
                lemma_utf8_len_push(t, s.last());
            }
        }
    }
}

/// In ASCII every character takes one byte.
pub proof fn ascii_takes_one_byte_each(s: Seq<char>, n: int)
    requires
        0 <= n <= s.len(),
        forall|i: int| 0 <= i < s.len() ==> (#[trigger] s[i]) as u32 <= 0x7f,
    ensures
        utf8_len(s) == s.len(),
        utf8_tail(s, n) == Some(s.skip(s.len() - n)),
    decreases s.len(),
{
    if s.len() > 0 {
        let front = s.drop_last();
        assert forall|i: int| 0 <= i < front.len() implies (#[trigger] front[i]) as u32 <= 0x7f by {
            assert(front[i] == s[i]);
        }
        if n > 0 {
            ascii_takes_one_byte_each(front, n - 1);
            assert(front.skip(front.len() - (n - 1)).push(s.last()) =~= s.skip(s.len() - n));
        } else {
            ascii_takes_one_byte_each(front, 0);
            assert(s.skip(s.len() as int) =~= Seq::<char>::empty());
        }
        lemma_utf8_len_push(front, s.last());
        assert(front.push(s.last()) =~= s);
    } else {
        assert(s.skip(0) =~= Seq::<char>::empty());
    }
}

// ---------------------------------------------------------------------------
// Paths
// ---------------------------------------------------------------------------
/// `base` with `rest`, a relative path, below it.
pub open spec fn joined_path(base: Seq<char>, rest: Seq<char>) -> Seq<char> {
    if base.len() == 0 || base.last() == '/' {
        base + rest
    } else {
        base.push('/') + rest
    }
}

/// `base` with `rest`, a relative path, below it.
pub fn join_path(base: &str, rest: &str) -> (r: String)
    ensures
        r@ == joined_path(base@, rest@),
{
    let chars = to_chars(base);
    let mut r = from_chars(chars.as_slice());
    if chars.len() > 0 && chars[chars.len() - 1] != '/' {
        r.push('/');
    }
    let tail = to_chars(rest);
    push_chars(&mut r, tail.as_slice());
    r
}

// ---------------------------------------------------------------------------
// Laws
// ---------------------------------------------------------------------------
/// The views of optional and of several texts are the views of the texts.
pub proof fn views_show_the_texts(
    optional: Option<String>,
    optional_slice: Option<&str>,
    strings: Seq<String>,
    slices: Seq<&str>,
    pieces: Seq<&[char]>,
)
    ensures
        opt_text(optional) is Some <==> optional is Some,
        optional matches Some(s) ==> opt_text(optional) == Some(s@),
        opt_str(optional_slice) is Some <==> optional_slice is Some,
        optional_slice matches Some(s) ==> opt_str(optional_slice) == Some(s@),
        string_texts(strings).len() == strings.len(),
        forall|i: int| 0 <= i < strings.len() ==> string_texts(strings)[i] == (#[trigger] strings[i])@,
        strs(slices).len() == slices.len(),
        forall|i: int| 0 <= i < slices.len() ==> strs(slices)[i] == (#[trigger] slices[i])@,
        texts(pieces).len() == pieces.len(),
        forall|i: int| 0 <= i < pieces.len() ==> texts(pieces)[i] == (#[trigger] pieces[i])@,
{
}

/// Trimming takes nothing but white space, and leaves none at the ends: whatever white space
/// stands around a text that neither begins nor ends with any, trimming gives that text.
pub proof fn trimming_takes_all_outer_white_space(a: Seq<char>, s: Seq<char>, b: Seq<char>)
    requires
        forall|i: int| 0 <= i < a.len() ==> is_white_space(#[trigger] a[i]),
        forall|i: int| 0 <= i < b.len() ==> is_white_space(#[trigger] b[i]),
        s.len() > 0 ==> !is_white_space(s[0]) && !is_white_space(s.last()),
    ensures
        trimmed(a + s + b) == s,
        trimmed(a + b) == Seq::<char>::empty(),
{
    lemma_trim_start_of(a, s + b);
    assert(a + s + b =~= a + (s + b));
    lemma_trim_start_of(a, b);
    lemma_trim_start_of(b, Seq::empty());
    assert(b + Seq::<char>::empty() =~= b);
    lemma_trim_end_of(s, b);
    if s.len() > 0 {
        assert((s + b)[0] == s[0]);
        assert(trim_start(a + s + b) == s + b);
    } else {
        assert(s + b =~= b);
        assert(s =~= Seq::<char>::empty());
    }
}

proof fn lemma_trim_start_of(a: Seq<char>, s: Seq<char>)
    requires
        forall|i: int| 0 <= i < a.len() ==> is_white_space(#[trigger] a[i]),
    ensures
        trim_start(a + s) == trim_start(s),
    decreases a.len(),
{
    if a.len() > 0 {
        assert((a + s).drop_first() =~= a.drop_first() + s);
        assert((a + s)[0] == a[0]);
        lemma_trim_start_of(a.drop_first(), s);
    } else {
        assert(a + s =~= s);
    }
}

proof fn lemma_trim_end_of(s: Seq<char>, b: Seq<char>)
    requires
        forall|i: int| 0 <= i < b.len() ==> is_white_space(#[trigger] b[i]),
    ensures
        trim_end(s + b) == trim_end(s),
    decreases b.len(),
{
    if b.len() > 0 {
        assert((s + b).drop_last() =~= s + b.drop_last());
        assert((s + b).last() == b.last());
        lemma_trim_end_of(s, b.drop_last());
    } else {
        assert(s + b =~= s);
    }
}

/// Whatever copies of a character stand around a text that neither begins nor ends with it,
/// stripping gives that text.
pub proof fn stripping_takes_all_outer_copies(a: Seq<char>, s: Seq<char>, b: Seq<char>, c: char)
    requires
        forall|i: int| 0 <= i < a.len() ==> #[trigger] a[i] == c,
        forall|i: int| 0 <= i < b.len() ==> #[trigger] b[i] == c,
        s.len() > 0 ==> s[0] != c && s.last() != c,
    ensures
        stripped(a + s + b, c) == s,
{
    lemma_strip_start_of(a, s + b, c);
    assert(a + s + b =~= a + (s + b));
    lemma_strip_start_of(b, Seq::empty(), c);
    assert(b + Seq::<char>::empty() =~= b);
    lemma_strip_end_of(s, b, c);
    if s.len() > 0 {
        assert((s + b)[0] == s[0]);
        assert(strip_start(a + s + b, c) == s + b);
    } else {
        assert(s + b =~= b);
        assert(s =~= Seq::<char>::empty());
    }
}

proof fn lemma_strip_start_of(a: Seq<char>, s: Seq<char>, c: char)
    requires
        forall|i: int| 0 <= i < a.len() ==> #[trigger] a[i] == c,
    ensures
        strip_start(a + s, c) == strip_start(s, c),
    decreases a.len(),
{
    if a.len() > 0 {
        assert((a + s).drop_first() =~= a.drop_first() + s);
        assert((a + s)[0] == a[0]);
        lemma_strip_start_of(a.drop_first(), s, c);
    } else {
        assert(a + s =~= s);
    }
}

proof fn lemma_strip_end_of(s: Seq<char>, b: Seq<char>, c: char)
    requires
        forall|i: int| 0 <= i < b.len() ==> #[trigger] b[i] == c,
    ensures
        strip_end(s + b, c) == strip_end(s, c),
    decreases b.len(),
{
    if b.len() > 0 {
        assert((s + b).drop_last() =~= s + b.drop_last());
        assert((s + b).last() == b.last());
        lemma_strip_end_of(s, b.drop_last(), c);
    } else {
        assert(s + b =~= s);
    }
}

/// Lower case replaces each capital letter of ASCII by the letter that stands 32 places behind it,
/// and changes nothing else.
pub proof fn lower_case_changes_capital_letters_only(s: Seq<char>)
    ensures
        lowered(s).len() == s.len(),
        forall|i: int|
            0 <= i < s.len() ==> {
                let c = (#[trigger] s[i]) as u32;
                lowered(s)[i] as u32 == if 65 <= c <= 90 {
                    c + 32
                } else {
                    c as int
                }
            },
{
    assert forall|i: int| 0 <= i < s.len() implies ({
        let c = (#[trigger] s[i]) as u32;
        lowered(s)[i] as u32 == if 65 <= c <= 90 {
            c + 32
        } else {
            c as int
        }
    }) by {
        lemma_lower_code(s[i]);
    }
}

proof fn lemma_lower_code(c: char)
    ensures
        lower_char(c) as u32 == if 65 <= c as u32 <= 90 {
            c as u32 + 32
        } else {
            c as u32 as int
        },
{
}

/// A text occurs in another exactly where the other is something, the text and something.
pub proof fn occurrences_split_the_text(t: Seq<char>, s: Seq<char>)
    ensures
        occurs_in(t, s) <==> exists|a: Seq<char>, b: Seq<char>| s == #[trigger] (a + t + b),
{
    if occurs_in(t, s) {
        let i = choose|i: int| stands_at(s, t, i);
        assert(s =~= s.take(i) + t + s.skip(i + t.len()));
    }
    if exists|a: Seq<char>, b: Seq<char>| s == #[trigger] (a + t + b) {
        let (a, b) = choose|a: Seq<char>, b: Seq<char>| s == #[trigger] (a + t + b);
        assert(s.subrange(a.len() as int, (a.len() + t.len()) as int) =~= t);
        assert(stands_at(s, t, a.len() as int));
    }
}

/// What is found is the first occurrence; where there is none, all of the text is passed.
pub proof fn finding_stops_at_the_first(s: Seq<char>, c: char)
    ensures
        find_char(s, c) <= s.len(),
        find_char(s, c) < s.len() ==> s[find_char(s, c) as int] == c,
        forall|i: int| 0 <= i < find_char(s, c) ==> #[trigger] s[i] != c,
{
    lemma_find_char(s, c);
    let n = find_char(s, c) as int;
    assert forall|i: int| 0 <= i < n implies #[trigger] s[i] != c by {
        assert(s.take(n)[i] == s[i]);
        if s[i] == c {
            assert(s.take(n).contains(c));
        }
    }
}

/// A line ends at a line feed, which a carriage return may precede; what follows are the other
/// lines. What stands behind the last line feed is a line unless it is empty.
pub proof fn lines_end_at_line_feeds(line: Seq<char>, rest: Seq<char>)
    requires
        !line.contains('\n'),
    ensures
        line.len() == 0 || line.last() != '\r' ==> lines_of(line.push('\n') + rest) == seq![line]
            + lines_of(rest),
        lines_of(line.push('\r').push('\n') + rest) == seq![line] + lines_of(rest),
        lines_of(line) == if line.len() == 0 {
            Seq::<Seq<char>>::empty()
        } else {
            seq![line]
        },
{
    let long = line.push('\r');
    assert(!long.contains('\n')) by {
        if long.contains('\n') {
            let k = choose|k: int| 0 <= k < long.len() && long[k] == '\n';
            assert(line[k] == '\n');
        }
    }
    lemma_find_joined(line, '\n', rest);
    lemma_find_joined(long, '\n', rest);
    let s = line.push('\n') + rest;
    assert(s.take(line.len() as int) =~= line);
    assert(s.skip(line.len() as int + 1) =~= rest);
    let t = long.push('\n') + rest;
    assert(t.take(long.len() as int) =~= long);
    assert(t.skip(long.len() as int + 1) =~= rest);
    assert(long.drop_last() =~= line);
}

/// A word is what stands between white space; white space alone has no words.
pub proof fn words_stand_between_white_space(a: Seq<char>, word: Seq<char>, rest: Seq<char>)
    requires
        forall|i: int| 0 <= i < a.len() ==> is_white_space(#[trigger] a[i]),
        forall|i: int| 0 <= i < word.len() ==> !is_white_space(#[trigger] word[i]),
        word.len() > 0,
        rest.len() > 0 ==> is_white_space(rest[0]),
    ensures
        words_of(a + word + rest) == seq![word] + words_of(rest),
        words_of(a) == Seq::<Seq<char>>::empty(),
{
    let s = word + rest;
    assert(a + word + rest =~= a + s);
    lemma_trim_start_of(a, s);
    assert(s[0] == word[0]);
    lemma_word_len_of(word, rest);
    assert(s.take(word.len() as int) =~= word);
    assert(s.skip(word.len() as int) =~= rest);
    assert(a + Seq::<char>::empty() =~= a);
    lemma_trim_start_of(a, Seq::empty());
}

proof fn lemma_word_len_of(word: Seq<char>, rest: Seq<char>)
    requires
        forall|i: int| 0 <= i < word.len() ==> !is_white_space(#[trigger] word[i]),
        rest.len() > 0 ==> is_white_space(rest[0]),
    ensures
        word_len(word + rest) == word.len(),
    decreases word.len(),
{
    let s = word + rest;
    if word.len() > 0 {
        assert(s[0] == word[0]);
        assert(s.drop_first() =~= word.drop_first() + rest);
        lemma_word_len_of(word.drop_first(), rest);
    } else {
        assert(s =~= rest);
    }
}

/// The value of decimal digits, where each counts ten times as much as the one behind it.
pub open spec fn digits_value(digits: Seq<char>) -> int {
    digits.fold_left(0int, |value: int, digit: char| 10 * value + (digit as u32 - 48))
}

/// A number is written as decimal digits, at least one, and a plus sign may stand in front; it is
/// read wherever it is no more than allowed. Nothing else is a number.
pub proof fn numbers_are_digits(digits: Seq<char>, other: Seq<char>, max: nat)
    requires
        digits.len() > 0,
        forall|i: int| 0 <= i < digits.len() ==> 48 <= (#[trigger] digits[i]) as u32 <= 57,
    ensures
        number_in(digits, max) == if digits_value(digits) <= max {
            Some(digits_value(digits) as nat)
        } else {
            None
        },
        number_in(seq!['+'] + digits, max) == number_in(digits, max),
        number_in(other, max) is Some ==> exists|d: Seq<char>|
            d.len() > 0 && (other == d || other == seq!['+'] + d) && forall|i: int|
                0 <= i < d.len() ==> 48 <= (#[trigger] d[i]) as u32 <= 57,
{
    lemma_digits_value(digits);
    assert(digits[0] != '+');
    assert((seq!['+'] + digits).drop_first() =~= digits);
    if number_in(other, max) is Some {
        let d = unsigned_digits(other);
        assert(d != other ==> other =~= seq!['+'] + d);
        assert forall|i: int| 0 <= i < d.len() implies 48 <= (#[trigger] d[i]) as u32 <= 57 by {
            assert(is_digit(d[i]));
        }
    }
}

proof fn lemma_digits_value(digits: Seq<char>)
    requires
        forall|i: int| 0 <= i < digits.len() ==> 48 <= (#[trigger] digits[i]) as u32 <= 57,
    ensures
        numeral(digits) == digits_value(digits),
        all_digits(digits),
    decreases digits.len(),
{
    assert forall|i: int| 0 <= i < digits.len() implies is_digit(#[trigger] digits[i]) by {
        lemma_digit_code(digits[i]);
    }
    if digits.len() > 0 {
        lemma_digits_value(digits.drop_last());
    }
}

proof fn lemma_digit_code(c: char)
    requires
        48 <= c as u32 <= 57,
    ensures
        is_digit(c),
{
}

/// A number in decimal has no zero in front, unless it is 0, and its digits have its value.
pub proof fn decimals_have_no_zero_in_front(n: nat)
    ensures
        decimal(n).len() > 0,
        forall|i: int| 0 <= i < decimal(n).len() ==> 48 <= (#[trigger] decimal(n)[i]) as u32 <= 57,
        digits_value(decimal(n)) == n,
        n > 0 ==> decimal(n)[0] != '0',
    decreases n,
{
    lemma_decimal(n);
    assert forall|i: int| 0 <= i < decimal(n).len() implies 48 <= (#[trigger] decimal(n)[i]) as u32
        <= 57 by {
        assert(is_digit(decimal(n)[i]));
    }
    lemma_digits_value(decimal(n));
    if n >= 10 {
        decimals_have_no_zero_in_front(n / 10);
        assert(decimal(n)[0] == decimal(n / 10)[0]);
    }
}

/// One text comes before another exactly where it is a part of the other's beginning, or where at
/// the first place in which they differ it has the smaller character.
pub proof fn order_is_decided_at_the_first_difference(a: Seq<char>, b: Seq<char>)
    ensures
        before(a, b) <==> exists|k: int|
            0 <= k < b.len() && k <= a.len() && #[trigger] a.take(k) == b.take(k) && (k == a.len()
                || a[k] < b[k]),
    decreases a.len(),
{
    if b.len() > 0 && a.len() > 0 && a[0] == b[0] {
        let x = a.drop_first();
        let y = b.drop_first();
        order_is_decided_at_the_first_difference(x, y);
        if before(a, b) {
            let k = choose|k: int|
                0 <= k < y.len() && k <= x.len() && #[trigger] x.take(k) == y.take(k) && (k
                    == x.len() || x[k] < y[k]);
            assert(a.take(k + 1) =~= b.take(k + 1)) by {
                assert forall|i: int| 0 <= i < k + 1 implies a[i] == b[i] by {
                    if i > 0 {
                        assert(x.take(k)[i - 1] == y.take(k)[i - 1]);
                    }
                }
            }
        }
        if exists|k: int|
            0 <= k < b.len() && k <= a.len() && #[trigger] a.take(k) == b.take(k) && (k == a.len()
                || a[k] < b[k]) {
            let k = choose|k: int|
                0 <= k < b.len() && k <= a.len() && #[trigger] a.take(k) == b.take(k) && (k
                    == a.len() || a[k] < b[k]);
            assert(k > 0);
            assert(x.take(k - 1) =~= y.take(k - 1)) by {
                assert forall|i: int| 0 <= i < k - 1 implies x[i] == y[i] by {
                    assert(a.take(k)[i + 1] == b.take(k)[i + 1]);
                }
            }
        }
    } else if b.len() > 0 {
        assert(a.take(0) =~= b.take(0));
        if exists|k: int|
            0 <= k < b.len() && k <= a.len() && #[trigger] a.take(k) == b.take(k) && (k == a.len()
                || a[k] < b[k]) {
            let k = choose|k: int|
                0 <= k < b.len() && k <= a.len() && #[trigger] a.take(k) == b.take(k) && (k
                    == a.len() || a[k] < b[k]);
            if k > 0 {
                assert(a.take(k)[0] == b.take(k)[0]);
            }
        }
    }
}

/// A path below another has exactly one slash between them, unless nothing stands in front.
pub proof fn paths_join_at_a_slash(base: Seq<char>, rest: Seq<char>)
    ensures
        joined_path(Seq::empty(), rest) == rest,
        joined_path(base.push('/'), rest) == base.push('/') + rest,
        base.len() > 0 && base.last() != '/' ==> joined_path(base, rest) == base + seq!['/'] + rest,
{
    assert(Seq::<char>::empty() + rest =~= rest);
    assert(base.push('/') =~= base + seq!['/']);
}

/// The size of a text in UTF-8 is the number of its bytes, and cutting gives an end of so many
/// bytes wherever a character begins there.
pub proof fn sizes_are_bytes(s: Seq<char>, k: int)
    requires
        0 <= k <= s.len(),
    ensures
        utf8_len(s) == encode_utf8(s).len(),
        utf8_tail(s, encode_utf8(s.skip(k)).len() as int) == Some(s.skip(k)),
{
    let n = encode_utf8(s.skip(k)).len() as int;
    utf8_tail_is_a_suffix(s, n);
    if let Some(tail) = utf8_tail(s, n) {
        let j = s.len() - tail.len();
        lemma_shorter_ends_are_smaller(s, j, k);
    } else {
        assert(utf8_len(s.skip(k)) != n);
    }
}

proof fn lemma_shorter_ends_are_smaller(s: Seq<char>, j: int, k: int)
    requires
        0 <= j <= s.len(),
        0 <= k <= s.len(),
        utf8_len(s.skip(j)) == utf8_len(s.skip(k)),
    ensures
        j == k,
{
    if j < k {
        lemma_size_falls(s, j, k);
    } else if k < j {
        lemma_size_falls(s, k, j);
    }
}

proof fn lemma_size_falls(s: Seq<char>, j: int, k: int)
    requires
        0 <= j < k <= s.len(),
    ensures
        utf8_len(s.skip(j)) > utf8_len(s.skip(k)),
    decreases k - j,
{
    lemma_utf8_len_skip(s, j);
    if j + 1 < k {
        lemma_size_falls(s, j + 1, k);
    }
}

} // verus!
