//! Text as sequences of characters: the vocabulary of the contracts of this
//! crate, and the small operations on strings that the other modules share.

use vstd::prelude::*;

verus! {

/// `String::push` of the standard library appends one character to the end of
/// the string.
pub assume_specification[ String::push ](s: &mut String, c: char)
    ensures
        final(s)@ == old(s)@.push(c),
;

/// What `str::to_lowercase` of the standard library makes of a text.
pub uninterp spec fn lowercase(s: Seq<char>) -> Seq<char>;

/// `str::to_lowercase` of the standard library. The result is a function of the
/// text alone, called `lowercase`; on ASCII text it only turns `A` to `Z` into
/// `a` to `z`. What it does to other letters follows the tables of Unicode and
/// is left unsaid.
#[verifier::external_body]
pub(crate) fn to_lowercase(s: &str) -> (r: String)
    ensures
        r@ == lowercase(s@),
        all_ascii(s@) ==> r@ == ascii_lowercase(s@),
{
    s.to_lowercase()
}

/// Every character is an ASCII character.
pub open spec fn all_ascii(s: Seq<char>) -> bool {
    forall|i: int| 0 <= i < s.len() ==> #[trigger] s[i] <= '\u{7f}'
}

/// `A` to `Z` becomes `a` to `z`, everything else stays.
pub open spec fn ascii_lower(c: char) -> char {
    if 'A' <= c <= 'Z' {
        ((c as u8) + 32) as u8 as char
    } else {
        c
    }
}

/// `ascii_lower` of every character.
pub open spec fn ascii_lowercase(s: Seq<char>) -> Seq<char> {
    s.map_values(|c: char| ascii_lower(c))
}

/// A letter `A` to `Z` or `a` to `z`.
pub open spec fn ascii_letter(c: char) -> bool {
    'A' <= c <= 'Z' || 'a' <= c <= 'z'
}

/// A digit `0` to `9`.
pub open spec fn ascii_digit(c: char) -> bool {
    '0' <= c <= '9'
}

/// A digit of a number in base sixteen, in either case.
pub open spec fn hex_digit(c: char) -> bool {
    ascii_digit(c) || 'a' <= c <= 'f' || 'A' <= c <= 'F'
}

/// The control characters of Unicode: the general category Cc.
pub open spec fn control(c: char) -> bool {
    c <= '\u{1f}' || '\u{7f}' <= c <= '\u{9f}'
}

/// The characters that Unicode gives the property White_Space.
pub open spec fn white_space(c: char) -> bool {
    ||| '\u{9}' <= c <= '\u{d}'
    ||| c == ' '
    ||| c == '\u{85}'
    ||| c == '\u{a0}'
    ||| c == '\u{1680}'
    ||| '\u{2000}' <= c <= '\u{200a}'
    ||| c == '\u{2028}'
    ||| c == '\u{2029}'
    ||| c == '\u{202f}'
    ||| c == '\u{205f}'
    ||| c == '\u{3000}'
}

/// `part` stands in `whole` at position `at`.
pub open spec fn stands_at(whole: Seq<char>, part: Seq<char>, at: int) -> bool {
    &&& 0 <= at
    &&& at + part.len() <= whole.len()
    &&& whole.subrange(at, at + part.len()) == part
}

/// `part` stands somewhere in `whole`.
pub open spec fn contains_text(whole: Seq<char>, part: Seq<char>) -> bool {
    exists|at: int| stands_at(whole, part, at)
}

/// `whole` begins with `part`.
pub open spec fn begins_with(whole: Seq<char>, part: Seq<char>) -> bool {
    stands_at(whole, part, 0)
}

/// How often `c` stands in the text.
pub open spec fn count_char(s: Seq<char>, c: char) -> nat
    decreases s.len(),
{
    if s.len() == 0 {
        0
    } else {
        count_char(s.drop_last(), c) + if s.last() == c {
            1nat
        } else {
            0
        }
    }
}

/// At how many positions below `to` `part` stands in `whole`.
pub open spec fn count_below(whole: Seq<char>, part: Seq<char>, to: nat) -> nat
    decreases to,
{
    if to == 0 {
        0
    } else {
        count_below(whole, part, (to - 1) as nat) + if stands_at(whole, part, to - 1) {
            1nat
        } else {
            0
        }
    }
}

/// How often `part` stands in `whole`.
pub open spec fn count_text(whole: Seq<char>, part: Seq<char>) -> nat {
    count_below(whole, part, whole.len())
}

/// The text without the white space it begins with.
pub open spec fn trimmed_start(s: Seq<char>) -> Seq<char>
    decreases s.len(),
{
    if s.len() > 0 && white_space(s.first()) {
        trimmed_start(s.drop_first())
    } else {
        s
    }
}

/// The text without the white space it ends with.
pub open spec fn trimmed_end(s: Seq<char>) -> Seq<char>
    decreases s.len(),
{
    if s.len() > 0 && white_space(s.last()) {
        trimmed_end(s.drop_last())
    } else {
        s
    }
}

/// The text without the white space around it.
pub open spec fn trimmed(s: Seq<char>) -> Seq<char> {
    trimmed_end(trimmed_start(s))
}

/// The parts one after the other, with `separator` between neighbours.
pub open spec fn joined(parts: Seq<Seq<char>>, separator: Seq<char>) -> Seq<char>
    decreases parts.len(),
{
    if parts.len() == 0 {
        Seq::empty()
    } else if parts.len() == 1 {
        parts.last()
    } else {
        joined(parts.drop_last(), separator) + separator + parts.last()
    }
}

/// The contents of a list of strings.
pub open spec fn texts(strings: Seq<String>) -> Seq<Seq<char>> {
    Seq::new(strings.len(), |i: int| strings[i]@)
}

/// The contents of a list of literals.
pub open spec fn literals(strings: Seq<&'static str>) -> Seq<Seq<char>> {
    Seq::new(strings.len(), |i: int| strings[i]@)
}

/// The content of an optional string.
pub open spec fn optional_text(s: Option<String>) -> Option<Seq<char>> {
    match s {
        Some(s) => Some(s@),
        None => None,
    }
}

/// The character of a decimal digit.
pub open spec fn digit_char(d: nat) -> char {
    (d + 48) as u8 as char
}

/// A number in decimal notation, without leading zeros.
pub open spec fn decimal(n: nat) -> Seq<char>
    decreases n,
{
    if n < 10 {
        seq![digit_char(n)]
    } else {
        decimal(n / 10).push(digit_char(n % 10))
    }
}

/// A number in decimal notation, with a zero before it where it has one digit.
pub open spec fn two_digits(n: nat) -> Seq<char> {
    if n < 10 {
        seq!['0'] + decimal(n)
    } else {
        decimal(n)
    }
}

/// The characters of a string.
pub fn chars_of(s: &str) -> (r: Vec<char>)
    ensures
        r@ == s@,
{
    let mut out: Vec<char> = Vec::new();
    for c in it: s.chars()
        invariant
            it.seq() == s@,
            out@ == s@.take(it.index() as int),
    {
        out.push(c);
        assert(s@.take(it.index() + 1) =~= s@.take(it.index() as int).push(c));
    }
    assert(s@.take(s@.len() as int) =~= s@);
    out
}

/// The string of the characters from `from` up to `to`.
pub fn string_of(chars: &Vec<char>, from: usize, to: usize) -> (r: String)
    requires
        from <= to <= chars@.len(),
    ensures
        r@ == chars@.subrange(from as int, to as int),
{
    let mut out = String::new();
    for i in from..to
        invariant
            from <= to <= chars@.len(),
            out@ == chars@.subrange(from as int, i as int),
    {
        out.push(chars[i]);
        assert(chars@.subrange(from as int, i + 1) =~= chars@.subrange(from as int, i as int).push(
            chars@[i as int],
        ));
    }
    out
}

/// A copy of an optional string.
pub fn clone_optional(s: &Option<String>) -> (r: Option<String>)
    ensures
        optional_text(r) == optional_text(*s),
{
    match s {
        Some(s) => Some(s.clone()),
        None => None,
    }
}

/// Whether two strings hold the same characters.
pub fn same_text(a: &str, b: &str) -> (r: bool)
    ensures
        r == (a@ == b@),
{
    let a_chars = chars_of(a);
    let b_chars = chars_of(b);
    if a_chars.len() != b_chars.len() {
        return false;
    }
    for i in 0..a_chars.len()
        invariant
            a_chars@ == a@,
            b_chars@ == b@,
            a@.len() == b@.len(),
            forall|j: int| 0 <= j < i ==> a@[j] == b@[j],
    {
        if a_chars[i] != b_chars[i] {
            return false;
        }
    }
    assert(a@ =~= b@);
    true
}

/// Whether `part` stands in `whole` at position `at`.
fn is_at(whole: &Vec<char>, part: &Vec<char>, at: usize) -> (r: bool)
    requires
        at + part@.len() <= whole@.len(),
    ensures
        r == stands_at(whole@, part@, at as int),
{
    let end: usize = whole.len();
    for i in 0..part.len()
        invariant
            at + part@.len() <= whole@.len() == end,
            forall|j: int| 0 <= j < i ==> whole@[at + j] == part@[j],
    {
        if whole[at + i] != part[i] {
            assert(whole@.subrange(at as int, at + part@.len())[i as int] != part@[i as int]);
            return false;
        }
    }
    assert(whole@.subrange(at as int, at + part@.len()) =~= part@);
    true
}

/// Whether `part` stands somewhere in `whole`.
pub fn contains(whole: &Vec<char>, part: &Vec<char>) -> (r: bool)
    ensures
        r == contains_text(whole@, part@),
{
    if part.len() > whole.len() {
        return false;
    }
    let last: usize = whole.len() - part.len();
    let mut at: usize = 0;
    while at <= last
        invariant
            last + part@.len() == whole@.len(),
            at <= last + 1,
            forall|i: int| 0 <= i < at ==> !stands_at(whole@, part@, i),
        decreases last + 1 - at,
    {
        if is_at(whole, part, at) {
            return true;
        }
        if at == last {
            return false;
        }
        at = at + 1;
    }
    false
}

/// `count_char`.
pub fn count_of(chars: &Vec<char>, c: char) -> (r: usize)
    ensures
        r == count_char(chars@, c),
        r <= chars@.len(),
{
    let mut count: usize = 0;
    for i in 0..chars.len()
        invariant
            count <= i,
            count == count_char(chars@.take(i as int), c),
    {
        assert(chars@.take(i + 1).drop_last() =~= chars@.take(i as int));
        if chars[i] == c {
            count = count + 1;
        }
    }
    assert(chars@.take(chars@.len() as int) =~= chars@);
    count
}

/// `count_text`.
pub fn count_of_text(whole: &Vec<char>, part: &Vec<char>) -> (r: usize)
    ensures
        r == count_text(whole@, part@),
        r <= whole@.len(),
{
    let end: usize = whole.len();
    let mut count: usize = 0;
    for at in 0..end
        invariant
            end == whole@.len(),
            count <= at,
            count == count_below(whole@, part@, at as nat),
    {
        if part.len() <= end - at && is_at(whole, part, at) {
            count = count + 1;
        }
    }
    count
}

/// Whether `whole` begins with `part`.
pub fn starts_with(whole: &Vec<char>, part: &str) -> (r: bool)
    ensures
        r == begins_with(whole@, part@),
{
    let part = chars_of(part);
    if part.len() > whole.len() {
        return false;
    }
    is_at(whole, &part, 0)
}

/// `ascii_lower`.
pub fn to_ascii_lower(c: char) -> (r: char)
    ensures
        r == ascii_lower(c),
{
    if 'A' <= c && c <= 'Z' {
        ((c as u8) + 32) as char
    } else {
        c
    }
}

/// `ascii_lowercase`, of a list of characters.
pub fn lower_chars(chars: &Vec<char>) -> (r: Vec<char>)
    ensures
        r@ == ascii_lowercase(chars@),
{
    let mut out: Vec<char> = Vec::new();
    for i in 0..chars.len()
        invariant
            out@.len() == i,
            forall|j: int| 0 <= j < i ==> out@[j] == ascii_lower(chars@[j]),
    {
        out.push(to_ascii_lower(chars[i]));
    }
    assert(out@ =~= ascii_lowercase(chars@));
    out
}

/// Whether two strings are the same but for the case of ASCII letters.
pub fn same_ignoring_ascii_case(a: &str, b: &str) -> (r: bool)
    ensures
        r == (ascii_lowercase(a@) == ascii_lowercase(b@)),
{
    let a_chars = chars_of(a);
    let b_chars = chars_of(b);
    if a_chars.len() != b_chars.len() {
        assert(ascii_lowercase(a@).len() != ascii_lowercase(b@).len());
        return false;
    }
    for i in 0..a_chars.len()
        invariant
            a_chars@ == a@,
            b_chars@ == b@,
            a@.len() == b@.len(),
            forall|j: int| 0 <= j < i ==> ascii_lower(a@[j]) == ascii_lower(b@[j]),
    {
        if to_ascii_lower(a_chars[i]) != to_ascii_lower(b_chars[i]) {
            assert(ascii_lowercase(a@)[i as int] != ascii_lowercase(b@)[i as int]);
            return false;
        }
    }
    assert(ascii_lowercase(a@) =~= ascii_lowercase(b@));
    true
}

/// `control`.
pub fn is_control(c: char) -> (r: bool)
    ensures
        r == control(c),
{
    c <= '\u{1f}' || ('\u{7f}' <= c && c <= '\u{9f}')
}

/// `white_space`.
pub fn is_white_space(c: char) -> (r: bool)
    ensures
        r == white_space(c),
{
    ('\u{9}' <= c && c <= '\u{d}') || c == ' ' || c == '\u{85}' || c == '\u{a0}' || c == '\u{1680}'
        || ('\u{2000}' <= c && c <= '\u{200a}') || c == '\u{2028}' || c == '\u{2029}' || c
        == '\u{202f}' || c == '\u{205f}' || c == '\u{3000}'
}

/// The position at which the white space that the text begins with ends.
pub fn trim_start(chars: &Vec<char>) -> (from: usize)
    ensures
        from <= chars@.len(),
        chars@.skip(from as int) == trimmed_start(chars@),
        from < chars@.len() ==> !white_space(chars@[from as int]),
{
    let mut from: usize = 0;
    assert(chars@.skip(0) =~= chars@);
    while from < chars.len() && is_white_space(chars[from])
        invariant
            from <= chars@.len(),
            trimmed_start(chars@.skip(from as int)) == trimmed_start(chars@),
        decreases chars@.len() - from,
    {
        assert(chars@.skip(from as int).drop_first() =~= chars@.skip(from + 1));
        from = from + 1;
    }
    from
}

/// `trimmed`, as a string.
pub fn trim(chars: &Vec<char>) -> (r: String)
    ensures
        r@ == trimmed(chars@),
{
    let from = trim_start(chars);
    let mut to: usize = chars.len();
    let ghost kept = trimmed_start(chars@);
    assert(chars@.subrange(from as int, to as int) =~= kept);
    while to > from && is_white_space(chars[to - 1])
        invariant
            from <= to <= chars@.len(),
            trimmed_end(chars@.subrange(from as int, to as int)) == trimmed_end(kept),
        decreases to,
    {
        assert(chars@.subrange(from as int, to as int).drop_last() =~= chars@.subrange(
            from as int,
            to - 1,
        ));
        to = to - 1;
    }
    string_of(chars, from, to)
}

/// `joined`, of a list of strings.
pub fn join(parts: &Vec<String>, separator: &str) -> (r: String)
    ensures
        r@ == joined(texts(parts@), separator@),
{
    let mut out = String::new();
    for i in 0..parts.len()
        invariant
            out@ == joined(texts(parts@).take(i as int), separator@),
    {
        if i > 0 {
            out.append(separator);
        }
        out.append(parts[i].as_str());
        proof {
            let now = texts(parts@).take(i + 1);
            assert(now.drop_last() =~= texts(parts@).take(i as int));
            assert(now.last() == parts@[i as int]@);
            if i == 0 {
                assert(out@ =~= now.last());
            }
        }
    }
    assert(texts(parts@).take(parts@.len() as int) =~= texts(parts@));
    out
}

/// Appends a number in decimal notation.
pub fn push_decimal(out: &mut String, n: u64)
    ensures
        final(out)@ == old(out)@ + decimal(n as nat),
    decreases n,
{
    if n >= 10 {
        push_decimal(out, n / 10);
    }
    out.push(((n % 10) as u8 + 48) as char);
    assert(out@ =~= old(out)@ + decimal(n as nat));
}

/// Appends a number in decimal notation, with a zero before a single digit.
pub fn push_two_digits(out: &mut String, n: u64)
    ensures
        final(out)@ == old(out)@ + two_digits(n as nat),
{
    if n < 10 {
        out.push('0');
    }
    push_decimal(out, n);
    assert(out@ =~= old(out)@ + two_digits(n as nat));
}

proof fn lemma_trimmed_start(s: Seq<char>)
    ensures
        exists|from: int|
            0 <= from <= s.len() && trimmed_start(s) == #[trigger] s.subrange(
                from,
                s.len() as int,
            ),
        trimmed_start(s).len() > 0 ==> !white_space(trimmed_start(s).first()),
    decreases s.len(),
{
    if s.len() > 0 && white_space(s.first()) {
        let tail = s.drop_first();
        lemma_trimmed_start(tail);
        let from = choose|from: int|
            0 <= from <= tail.len() && trimmed_start(tail) == #[trigger] tail.subrange(
                from,
                tail.len() as int,
            );
        assert(tail.subrange(from, tail.len() as int) =~= s.subrange(from + 1, s.len() as int));
    } else {
        assert(s.subrange(0, s.len() as int) =~= s);
    }
}

proof fn lemma_trimmed_end(s: Seq<char>)
    ensures
        exists|to: int| 0 <= to <= s.len() && trimmed_end(s) == #[trigger] s.subrange(0, to),
        trimmed_end(s).len() > 0 ==> !white_space(trimmed_end(s).last()),
    decreases s.len(),
{
    if s.len() > 0 && white_space(s.last()) {
        let front = s.drop_last();
        lemma_trimmed_end(front);
        let to = choose|to: int|
            0 <= to <= front.len() && trimmed_end(front) == #[trigger] front.subrange(0, to);
        assert(front.subrange(0, to) =~= s.subrange(0, to));
    } else {
        assert(s.subrange(0, s.len() as int) =~= s);
    }
}

/// Trimming takes nothing but white space, takes all of it at both ends, and
/// leaves a text alone that has none there.
pub proof fn lemma_trimmed(s: Seq<char>)
    ensures
        forall|i: int| 0 <= i < trimmed(s).len() ==> s.contains(#[trigger] trimmed(s)[i]),
        trimmed(s).len() > 0 ==> !white_space(trimmed(s).first()) && !white_space(
            trimmed(s).last(),
        ),
        s.len() == 0 || (!white_space(s.first()) && !white_space(s.last())) ==> trimmed(s) == s,
{
    let start = trimmed_start(s);
    lemma_trimmed_start(s);
    lemma_trimmed_end(start);
    let from = choose|from: int|
        0 <= from <= s.len() && start == #[trigger] s.subrange(from, s.len() as int);
    let to = choose|to: int| 0 <= to <= start.len() && trimmed(s) == #[trigger] start.subrange(0, to);
    assert forall|i: int| 0 <= i < trimmed(s).len() implies s.contains(#[trigger] trimmed(s)[i]) by {
        assert(trimmed(s)[i] == s[from + i]);
    }
    if trimmed(s).len() > 0 {
        assert(trimmed(s).first() == start.first());
    }
}

/// The number that a text of decimal digits stands for, the last digit counting
/// once.
pub open spec fn number_written(digits: Seq<char>) -> int
    decreases digits.len(),
{
    if digits.len() == 0 {
        0
    } else {
        number_written(digits.drop_last()) * 10 + (digits.last() as int - 48)
    }
}

/// A number can be read back from its decimal notation, which is made of digits
/// and has no zero at its front but for the number zero.
pub proof fn law_a_number_is_read_back(n: nat)
    ensures
        number_written(decimal(n)) == n,
        decimal(n).len() > 0,
        decimal(n).len() == 1 <==> n < 10,
        forall|i: int| 0 <= i < decimal(n).len() ==> 48 <= (#[trigger] decimal(n)[i]) as int <= 57,
        n > 0 ==> decimal(n)[0] as int > 48,
    decreases n,
{
    let last = n % 10;
    assert(digit_char(last) as int == 48 + last);
    if n < 10 {
        assert(decimal(n).drop_last() =~= Seq::<char>::empty());
        assert(number_written(Seq::<char>::empty()) == 0);
        assert(decimal(n).last() == digit_char(n));
    } else {
        let front = decimal(n / 10);
        law_a_number_is_read_back(n / 10);
        assert(decimal(n).drop_last() =~= front);
        assert(decimal(n).last() == digit_char(last));
        assert forall|i: int| 0 <= i < decimal(n).len() implies 48 <= (
        #[trigger] decimal(n)[i]) as int <= 57 by {
            if i < front.len() {
                assert(decimal(n)[i] == front[i]);
            }
        }
        assert(decimal(n)[0] == front[0]);
    }
}

/// A number below a hundred is written in two digits, the tens and then the ones.
/// A larger one takes as many as it needs.
pub proof fn law_two_digits_are_tens_and_ones(n: nat)
    ensures
        n < 100 ==> two_digits(n).len() == 2 && two_digits(n)[0] as int == 48 + n / 10
            && two_digits(n)[1] as int == 48 + n % 10,
        number_written(two_digits(n)) == n,
        n >= 100 ==> two_digits(n).len() > 2 && two_digits(n)[0] as int > 48,
{
    law_a_number_is_read_back(n);
    reveal_with_fuel(decimal, 3);
    reveal_with_fuel(number_written, 3);
    if n < 10 {
        assert(two_digits(n) =~= seq!['0', digit_char(n)]);
        assert(two_digits(n).drop_last() =~= seq!['0']);
        assert(seq!['0'].drop_last() =~= Seq::<char>::empty());
        assert(digit_char(n) as int == 48 + n);
    } else if n < 100 {
        assert(decimal(n) =~= seq![digit_char(n / 10), digit_char(n % 10)]);
        assert(digit_char(n / 10) as int == 48 + n / 10);
        assert(digit_char(n % 10) as int == 48 + n % 10);
    } else {
        law_a_number_is_read_back(n / 10);
    }
}

/// Joining parts in two batches, and then those, is joining all of them: between
/// two neighbours stands one separator, and there is none at the ends.
pub proof fn law_joining_puts_separators_between(
    a: Seq<Seq<char>>,
    b: Seq<Seq<char>>,
    part: Seq<char>,
    separator: Seq<char>,
)
    ensures
        joined(Seq::empty(), separator) == Seq::<char>::empty(),
        joined(seq![part], separator) == part,
        a.len() > 0 && b.len() > 0 ==> joined(a + b, separator) == joined(a, separator) + separator
            + joined(b, separator),
    decreases b.len(),
{
    assert(seq![part].last() == part);
    if a.len() > 0 && b.len() > 0 {
        let front = b.drop_last();
        assert((a + b).drop_last() =~= a + front);
        assert((a + b).last() == b.last());
        law_joining_puts_separators_between(a, front, part, separator);
        if b.len() == 1 {
            assert(a + front =~= a);
        } else {
            assert(joined(a, separator) + separator + joined(front, separator) + separator
                + b.last() =~= joined(a, separator) + separator + (joined(front, separator)
                + separator + b.last()));
        }
    }
}

/// Lower case moves the 26 capital letters of ASCII by 32, character by character,
/// and leaves everything else alone.
pub proof fn law_ascii_lower_case_moves_capitals(s: Seq<char>, i: int)
    requires
        0 <= i < s.len(),
    ensures
        ascii_lowercase(s).len() == s.len(),
        65 <= s[i] as int <= 90 ==> ascii_lowercase(s)[i] as int == s[i] as int + 32,
        !(65 <= s[i] as int <= 90) ==> ascii_lowercase(s)[i] == s[i],
{
}

/// The codes of the blanks, tabs and line ends of Unicode.
pub open spec fn blanks() -> Seq<int> {
    seq![
        0x9,
        0xa,
        0xb,
        0xc,
        0xd,
        0x20,
        0x85,
        0xa0,
        0x1680,
        0x2000,
        0x2001,
        0x2002,
        0x2003,
        0x2004,
        0x2005,
        0x2006,
        0x2007,
        0x2008,
        0x2009,
        0x200a,
        0x2028,
        0x2029,
        0x202f,
        0x205f,
        0x3000,
    ]
}

/// Every character of the text is a blank, a tab or a line end.
pub open spec fn blank(s: Seq<char>) -> bool {
    forall|i: int| 0 <= i < s.len() ==> blanks().contains(#[trigger] s[i] as int)
}

/// White space is the blanks, tabs and line ends of Unicode, and nothing else.
pub proof fn law_white_space_is_that_of_unicode(c: char)
    ensures
        white_space(c) <==> blanks().contains(c as int),
{
    let all = blanks();
    let code = c as int;
    if white_space(c) {
        let at = if code <= 0xd {
            code - 0x9
        } else if code == 0x20 {
            5
        } else if code == 0x85 {
            6
        } else if code == 0xa0 {
            7
        } else if code == 0x1680 {
            8
        } else if code <= 0x200a {
            code - 0x2000 + 9
        } else if code == 0x2028 {
            20
        } else if code == 0x2029 {
            21
        } else if code == 0x202f {
            22
        } else if code == 0x205f {
            23
        } else {
            24
        };
        assert(all[at] == code);
    }
    if all.contains(code) {
        let at = choose|at: int| 0 <= at < all.len() && all[at] == code;
        assert(white_space(c));
    }
}

/// The control characters are those below the blank and the 33 from DEL on.
pub proof fn law_controls_are_two_ranges(c: char)
    ensures
        control(c) <==> 0 <= (c as int) < 32 || 127 <= (c as int) < 160,
{
}

/// A part stands somewhere in a text where the text is something, the part and
/// something more.
pub proof fn law_a_part_stands_between_the_rest(whole: Seq<char>, part: Seq<char>)
    ensures
        contains_text(whole, part) <==> exists|before: Seq<char>, after: Seq<char>|
            whole == #[trigger] (before + part + after),
        begins_with(whole, part) <==> exists|after: Seq<char>| whole == #[trigger] (part + after),
{
    if contains_text(whole, part) {
        let at = choose|at: int| stands_at(whole, part, at);
        let before = whole.take(at);
        let after = whole.skip(at + part.len());
        assert(whole =~= before + part + after) by {
            assert(whole.subrange(at, at + part.len()) == part);
            assert(whole =~= whole.take(at) + whole.subrange(at, at + part.len()) + after);
        }
    }
    if exists|before: Seq<char>, after: Seq<char>| whole == #[trigger] (before + part + after) {
        let (before, after) = choose|before: Seq<char>, after: Seq<char>|
            whole == #[trigger] (before + part + after);
        assert(whole.subrange(before.len() as int, (before.len() + part.len()) as int) =~= part);
        assert(stands_at(whole, part, before.len() as int));
    }
    if begins_with(whole, part) {
        assert(whole =~= whole.subrange(0, part.len() as int) + whole.skip(part.len() as int));
        assert(whole == part + whole.skip(part.len() as int));
    }
    if exists|after: Seq<char>| whole == #[trigger] (part + after) {
        let after = choose|after: Seq<char>| whole == #[trigger] (part + after);
        assert(whole.subrange(0, part.len() as int) =~= part);
    }
}

proof fn lemma_trimmed_start_of(s: Seq<char>, before: Seq<char>)
    requires
        forall|i: int| 0 <= i < before.len() ==> white_space(#[trigger] before[i]),
    ensures
        trimmed_start(before + s) == trimmed_start(s),
    decreases before.len(),
{
    if before.len() > 0 {
        let rest = before.drop_first();
        assert forall|i: int| 0 <= i < rest.len() implies white_space(#[trigger] rest[i]) by {
            assert(rest[i] == before[i + 1]);
        }
        assert((before + s).drop_first() =~= rest + s);
        assert((before + s).first() == before[0]);
        lemma_trimmed_start_of(s, rest);
    } else {
        assert(before + s =~= s);
    }
}

proof fn lemma_trimmed_end_of(s: Seq<char>, after: Seq<char>)
    requires
        forall|i: int| 0 <= i < after.len() ==> white_space(#[trigger] after[i]),
    ensures
        trimmed_end(s + after) == trimmed_end(s),
    decreases after.len(),
{
    if after.len() > 0 {
        let rest = after.drop_last();
        assert forall|i: int| 0 <= i < rest.len() implies white_space(#[trigger] rest[i]) by {
            assert(rest[i] == after[i]);
        }
        assert((s + after).drop_last() =~= s + rest);
        assert((s + after).last() == after[after.len() - 1]);
        lemma_trimmed_end_of(s, rest);
    } else {
        assert(s + after =~= s);
    }
}

/// Whatever white space stands around a text that neither begins nor ends with
/// any, trimming gives that text.
pub proof fn law_trimming_takes_what_is_around(
    before: Seq<char>,
    s: Seq<char>,
    after: Seq<char>,
)
    requires
        forall|i: int| 0 <= i < before.len() ==> white_space(#[trigger] before[i]),
        forall|i: int| 0 <= i < after.len() ==> white_space(#[trigger] after[i]),
        s.len() > 0 ==> !white_space(s.first()) && !white_space(s.last()),
    ensures
        trimmed(before + s + after) == s,
{
    assert(before + s + after =~= before + (s + after));
    lemma_trimmed_start_of(s + after, before);
    if s.len() > 0 {
        assert((s + after).first() == s.first());
        assert(trimmed_start(s + after) == s + after);
        lemma_trimmed_end_of(s, after);
    } else {
        assert(s + after =~= after);
        assert(after + s =~= after);
        lemma_trimmed_start_of(s, after);
        assert(trimmed_start(after) == s);
        assert(trimmed_end(s) == s);
    }
}

/// The white space that a text begins with does not count, and whatever follows it
/// is kept.
pub proof fn law_only_leading_blanks_are_taken(s: Seq<char>, before: Seq<char>, rest: Seq<char>)
    ensures
        exists|n: int|
            0 <= n <= s.len() && blank(#[trigger] s.take(n)) && trimmed_start(s) == s.skip(n) && (n
                < s.len() ==> !blanks().contains(s[n] as int)),
        blank(before) && (rest.len() > 0 ==> !blanks().contains(rest[0] as int)) ==> trimmed_start(
            before + rest,
        ) == rest,
    decreases s.len(),
{
    if s.len() > 0 && white_space(s.first()) {
        let tail = s.drop_first();
        law_only_leading_blanks_are_taken(tail, before, rest);
        let n = choose|n: int|
            0 <= n <= tail.len() && blank(#[trigger] tail.take(n)) && trimmed_start(tail)
                == tail.skip(n) && (n < tail.len() ==> !blanks().contains(tail[n] as int));
        let more = s.take(n + 1);
        assert forall|i: int| 0 <= i < more.len() implies blanks().contains(
            #[trigger] more[i] as int,
        ) by {
            if i == 0 {
                law_white_space_is_that_of_unicode(s.first());
            } else {
                assert(more[i] == tail.take(n)[i - 1]);
            }
        }
        assert(blank(more));
        assert(tail.skip(n) =~= s.skip(n + 1));
        assert(n < tail.len() ==> tail[n] == s[n + 1]);
    } else {
        assert(blank(s.take(0)));
        assert(s.skip(0) =~= s);
        if s.len() > 0 {
            law_white_space_is_that_of_unicode(s[0]);
        }
    }
    if blank(before) && (rest.len() > 0 ==> !blanks().contains(rest[0] as int)) {
        assert forall|i: int| 0 <= i < before.len() implies white_space(#[trigger] before[i]) by {
            law_white_space_is_that_of_unicode(before[i]);
        }
        lemma_trimmed_start_of(rest, before);
        if rest.len() > 0 {
            law_white_space_is_that_of_unicode(rest[0]);
        }
    }
}

/// Characters are counted one by one, and a part is found somewhere in a text where it
/// is counted at least once.
pub proof fn law_counting_finds_every_place(
    a: Seq<char>,
    b: Seq<char>,
    c: char,
    d: char,
    part: Seq<char>,
)
    ensures
        count_char(a + b, c) == count_char(a, c) + count_char(b, c),
        count_char(seq![d], c) == (if d == c {
            1nat
        } else {
            0
        }),
        part.len() > 0 ==> (count_text(a, part) > 0 <==> contains_text(a, part)),
        count_text(a, part) <= a.len(),
    decreases b.len(),
{
    reveal_with_fuel(count_char, 2);
    assert(seq![d].drop_last() =~= Seq::<char>::empty());
    assert(seq![d].last() == d);
    if b.len() > 0 {
        law_counting_finds_every_place(a, b.drop_last(), c, d, part);
        assert((a + b).drop_last() =~= a + b.drop_last());
        assert((a + b).last() == b.last());
    } else {
        assert(a + b =~= a);
    }
    lemma_count_below(a, part, a.len());
    if part.len() > 0 && contains_text(a, part) {
        let at = choose|at: int| stands_at(a, part, at);
        assert(at < a.len());
    }
}

proof fn lemma_count_below(whole: Seq<char>, part: Seq<char>, to: nat)
    ensures
        count_below(whole, part, to) <= to,
        count_below(whole, part, to) > 0 <==> exists|at: int|
            0 <= at < to && stands_at(whole, part, at),
    decreases to,
{
    if to > 0 {
        lemma_count_below(whole, part, (to - 1) as nat);
        if stands_at(whole, part, to - 1) {
            assert(0 <= to - 1 < to);
        }
    }
}

} // verus!
