//! Text primitives: searching, splitting, trimming and joining strings, with the meaning of each
//! operation stated over sequences of characters.

use vstd::prelude::*;

verus! {

/// `String::push` appends one character to the end of the string.
pub assume_specification[ String::push ](s: &mut String, c: char)
    ensures
        final(s)@ == old(s)@.push(c),
;

/// Whether `needle` occurs in `hay` starting at position `at`.
pub open spec fn matches_at<T>(hay: Seq<T>, at: int, needle: Seq<T>) -> bool {
    &&& 0 <= at
    &&& at + needle.len() <= hay.len()
    &&& hay.subrange(at, at + needle.len()) == needle
}

/// Whether `needle` occurs anywhere in `hay`.
pub open spec fn occurs<T>(hay: Seq<T>, needle: Seq<T>) -> bool {
    exists|at: int| matches_at(hay, at, needle)
}

/// Whether `text` begins with `prefix`.
pub open spec fn begins_with<T>(text: Seq<T>, prefix: Seq<T>) -> bool {
    matches_at(text, 0, prefix)
}

/// Whether `text` ends with `suffix`.
pub open spec fn ends_with<T>(text: Seq<T>, suffix: Seq<T>) -> bool {
    matches_at(text, text.len() - suffix.len(), suffix)
}

/// The characters of Unicode's `White_Space` property.
pub open spec fn white_space(c: char) -> bool {
    let n = c as u32;
    ||| 0x9 <= n <= 0xD
    ||| n == 0x20
    ||| n == 0x85
    ||| n == 0xA0
    ||| n == 0x1680
    ||| 0x2000 <= n <= 0x200A
    ||| n == 0x2028
    ||| n == 0x2029
    ||| n == 0x202F
    ||| n == 0x205F
    ||| n == 0x3000
}

/// `text` without its leading white space.
pub open spec fn trimmed_start(text: Seq<char>) -> Seq<char>
    decreases text.len(),
{
    if text.len() > 0 && white_space(text[0]) {
        trimmed_start(text.skip(1))
    } else {
        text
    }
}

/// `text` without its trailing white space.
pub open spec fn trimmed_end(text: Seq<char>) -> Seq<char>
    decreases text.len(),
{
    if text.len() > 0 && white_space(text.last()) {
        trimmed_end(text.drop_last())
    } else {
        text
    }
}

/// `text` without the white space around it.
pub open spec fn trimmed(text: Seq<char>) -> Seq<char> {
    trimmed_end(trimmed_start(text))
}

/// The position of the first `c` in `text`, or the length of `text` where there is none.
pub open spec fn first_of(text: Seq<char>, c: char) -> int
    decreases text.len(),
{
    if text.len() == 0 {
        0
    } else if text[0] == c {
        0
    } else {
        1 + first_of(text.skip(1), c)
    }
}

/// An ASCII upper-case letter as its lower-case one; any other character as it is.
pub open spec fn lowered(c: char) -> char {
    if 'A' <= c <= 'Z' {
        ((c as u32 + 32) as u32) as char
    } else {
        c
    }
}

/// The decimal digits of `n`, most significant first, without leading zeros.
pub open spec fn digits(n: nat) -> Seq<char>
    decreases n,
{
    if n < 10 {
        seq![digit(n as int)]
    } else {
        digits(n / 10).push(digit((n % 10) as int))
    }
}

/// The character of one decimal digit.
pub open spec fn digit(d: int) -> char {
    if d == 0 {
        '0'
    } else if d == 1 {
        '1'
    } else if d == 2 {
        '2'
    } else if d == 3 {
        '3'
    } else if d == 4 {
        '4'
    } else if d == 5 {
        '5'
    } else if d == 6 {
        '6'
    } else if d == 7 {
        '7'
    } else if d == 8 {
        '8'
    } else {
        '9'
    }
}

/// Whether `c` is an ASCII decimal digit.
pub open spec fn is_digit(c: char) -> bool {
    '0' <= c <= '9'
}

/// The number that a run of digits writes.
pub open spec fn number_of(text: Seq<char>) -> nat
    decreases text.len(),
{
    if text.len() == 0 {
        0
    } else {
        number_of(text.drop_last()) * 10 + digit_value(text.last())
    }
}

/// The value of one digit character.
pub open spec fn digit_value(c: char) -> nat {
    if is_digit(c) {
        (c as u32 - '0' as u32) as nat
    } else {
        0
    }
}

/// Whether every character of `text` is a digit.
pub open spec fn all_digits(text: Seq<char>) -> bool {
    forall|i: int| 0 <= i < text.len() ==> is_digit(#[trigger] text[i])
}

/// The decimal writing of an integer: a minus sign where it is negative, then the digits.
pub open spec fn decimal(n: int) -> Seq<char> {
    if n < 0 {
        seq!['-'] + digits((-n) as nat)
    } else {
        digits(n as nat)
    }
}

/// The integer that `text` writes: an optional sign and at least one digit.
pub open spec fn integer_of(text: Seq<char>) -> Option<int> {
    if text.len() > 0 && (text[0] == '-' || text[0] == '+') {
        if text.len() > 1 && all_digits(text.skip(1)) {
            if text[0] == '-' {
                Some(-(number_of(text.skip(1)) as int))
            } else {
                Some(number_of(text.skip(1)) as int)
            }
        } else {
            None
        }
    } else if text.len() > 0 && all_digits(text) {
        Some(number_of(text) as int)
    } else {
        None
    }
}

/// `parts` one after the other, with `sep` between neighbours.
pub open spec fn joined(parts: Seq<Seq<char>>, sep: Seq<char>) -> Seq<char>
    decreases parts.len(),
{
    if parts.len() == 0 {
        Seq::empty()
    } else if parts.len() == 1 {
        parts[0]
    } else {
        joined(parts.drop_last(), sep) + sep + parts.last()
    }
}

/// The texts of a list of strings.
pub open spec fn texts(list: Seq<String>) -> Seq<Seq<char>> {
    list.map_values(|s: String| s@)
}

/// The characters of a string.
pub fn chars_of(s: &str) -> (r: Vec<char>)
    ensures
        r@ == s@,
{
    let mut out: Vec<char> = Vec::new();
    for c in it: s.chars()
        invariant
            out@ == it.seq().take(it.index()),
            it.seq() == s@,
    {
        out.push(c);
    }
    proof {
        assert(s@.take(s@.len() as int) =~= s@);
    }
    out
}

/// The string of the characters `from..to`.
pub fn string_of(chars: &[char], from: usize, to: usize) -> (r: String)
    requires
        from <= to <= chars@.len(),
    ensures
        r@ == chars@.subrange(from as int, to as int),
{
    let mut out: String = String::new();
    let mut i: usize = from;
    while i < to
        invariant
            from <= i <= to <= chars@.len(),
            out@ == chars@.subrange(from as int, i as int),
        decreases to - i,
    {
        out.push(chars[i]);
        proof {
            assert(chars@.subrange(from as int, i + 1) =~= chars@.subrange(
                from as int,
                i as int,
            ).push(chars@[i as int]));
        }
        i = i + 1;
    }
    out
}

/// Whether two texts hold the same characters.
pub fn same_text(a: &str, b: &str) -> (r: bool)
    ensures
        r == (a@ == b@),
{
    let x: String = a.to_owned();
    let y: String = b.to_owned();
    x == y
}

/// Whether `needle` stands in `hay` at `at`.
pub fn char_match(hay: &[char], at: usize, needle: &[char]) -> (r: bool)
    requires
        at <= hay@.len(),
    ensures
        r == matches_at(hay@, at as int, needle@),
{
    let end: usize = hay.len();
    if needle.len() > end - at {
        return false;
    }
    let mut k: usize = 0;
    while k < needle.len()
        invariant
            end == hay@.len(),
            at + needle@.len() <= end,
            k <= needle@.len(),
            forall|j: int| 0 <= j < k ==> hay@[at + j] == needle@[j],
        decreases needle@.len() - k,
    {
        if hay[at + k] != needle[k] {
            proof {
                assert(hay@.subrange(at as int, at + needle@.len())[k as int] == hay@[at + k]);
            }
            return false;
        }
        k = k + 1;
    }
    proof {
        assert(hay@.subrange(at as int, at + needle@.len()) =~= needle@);
    }
    true
}

/// Whether the Unicode white-space property holds of `c`.
pub fn is_white_space(c: char) -> (r: bool)
    ensures
        r == white_space(c),
{
    let n: u32 = c as u32;
    (0x9 <= n && n <= 0xD) || n == 0x20 || n == 0x85 || n == 0xA0 || n == 0x1680 || (0x2000 <= n
        && n <= 0x200A) || n == 0x2028 || n == 0x2029 || n == 0x202F || n == 0x205F || n == 0x3000
}

/// Where the text begins once its leading white space is skipped.
pub fn skip_space(chars: &[char]) -> (r: usize)
    ensures
        r <= chars@.len(),
        chars@.skip(r as int) == trimmed_start(chars@),
{
    let mut i: usize = 0;
    proof {
        assert(chars@.skip(0) =~= chars@);
    }
    while i < chars.len() && is_white_space(chars[i])
        invariant
            i <= chars@.len(),
            trimmed_start(chars@.skip(i as int)) == trimmed_start(chars@),
        decreases chars@.len() - i,
    {
        proof {
            assert(chars@.skip(i as int).skip(1) =~= chars@.skip(i + 1));
        }
        i = i + 1;
    }
    i
}

/// Where the text of `chars[from..]` ends once its trailing white space is dropped.
pub fn drop_space(chars: &[char], from: usize) -> (r: usize)
    requires
        from <= chars@.len(),
    ensures
        from <= r <= chars@.len(),
        chars@.subrange(from as int, r as int) == trimmed_end(chars@.skip(from as int)),
{
    let mut i: usize = chars.len();
    proof {
        assert(chars@.subrange(from as int, i as int) =~= chars@.skip(from as int));
    }
    while from < i && is_white_space(chars[i - 1])
        invariant
            from <= i <= chars@.len(),
            trimmed_end(chars@.subrange(from as int, i as int)) == trimmed_end(
                chars@.skip(from as int),
            ),
        decreases i,
    {
        proof {
            assert(chars@.subrange(from as int, i as int).drop_last() =~= chars@.subrange(
                from as int,
                i - 1,
            ));
        }
        i = i - 1;
    }
    i
}

/// The text without the white space around it.
pub fn trim(s: &str) -> (r: String)
    ensures
        r@ == trimmed(s@),
{
    let chars: Vec<char> = chars_of(s);
    let from: usize = skip_space(&chars);
    let to: usize = drop_space(&chars, from);
    string_of(&chars, from, to)
}

/// The position of the first `c` at or after `from`, or the length where there is none.
pub fn find_char(chars: &[char], from: usize, c: char) -> (r: usize)
    requires
        from <= chars@.len(),
    ensures
        from <= r <= chars@.len(),
        r == from + first_of(chars@.skip(from as int), c),
{
    let mut i: usize = from;
    while i < chars.len() && chars[i] != c
        invariant
            from <= i <= chars@.len(),
            from + first_of(chars@.skip(from as int), c) == i + first_of(chars@.skip(i as int), c),
        decreases chars@.len() - i,
    {
        proof {
            assert(chars@.skip(i as int).skip(1) =~= chars@.skip(i + 1));
        }
        i = i + 1;
    }
    i
}

/// What the first position of a character is, said directly.
pub proof fn lemma_first_of(text: Seq<char>, c: char)
    ensures
        0 <= first_of(text, c) <= text.len(),
        first_of(text, c) < text.len() ==> text[first_of(text, c)] == c,
        forall|i: int| 0 <= i < first_of(text, c) ==> #[trigger] text[i] != c,
    decreases text.len(),
{
    if text.len() > 0 && text[0] != c {
        lemma_first_of(text.skip(1), c);
        assert forall|i: int| 0 <= i < first_of(text, c) implies #[trigger] text[i] != c by {
            if i > 0 {
                assert(text.skip(1)[i - 1] == text[i]);
            }
        }
    }
}

/// Whether the text begins with `prefix`.
pub fn has_prefix(s: &str, prefix: &str) -> (r: bool)
    ensures
        r == begins_with(s@, prefix@),
{
    let hay: Vec<char> = chars_of(s);
    let needle: Vec<char> = chars_of(prefix);
    char_match(&hay, 0, &needle)
}

/// Whether the text ends with `suffix`.
pub fn has_suffix(s: &str, suffix: &str) -> (r: bool)
    ensures
        r == ends_with(s@, suffix@),
{
    let hay: Vec<char> = chars_of(s);
    let needle: Vec<char> = chars_of(suffix);
    if needle.len() > hay.len() {
        return false;
    }
    char_match(&hay, hay.len() - needle.len(), &needle)
}

/// Whether `needle` occurs in the text.
pub fn has_text(s: &str, needle: &str) -> (r: bool)
    ensures
        r == occurs(s@, needle@),
{
    let hay: Vec<char> = chars_of(s);
    let pat: Vec<char> = chars_of(needle);
    let mut i: usize = 0;
    while i <= hay.len()
        invariant
            i <= hay@.len() + 1,
            hay@ == s@,
            pat@ == needle@,
            forall|j: int| 0 <= j < i ==> !matches_at(s@, j, needle@),
        decreases hay@.len() + 1 - i,
    {
        if char_match(&hay, i, &pat) {
            return true;
        }
        if i == hay.len() {
            return false;
        }
        i = i + 1;
    }
    false
}

/// One ASCII letter in lower case.
pub fn to_lower(c: char) -> (r: char)
    ensures
        r == lowered(c),
{
    if 'A' <= c && c <= 'Z' {
        let n: u8 = c as u8;
        (n + 32) as char
    } else {
        c
    }
}

/// The character of a decimal digit.
pub fn digit_char(d: u8) -> (r: char)
    requires
        d < 10,
    ensures
        r == digit(d as int),
{
    let n: u8 = 48 + d;
    n as char
}

/// The decimal digits of a natural number.
pub fn digits_of(n: u128) -> (r: String)
    ensures
        r@ == digits(n as nat),
    decreases n,
{
    if n < 10 {
        let mut out: String = String::new();
        out.push(digit_char(n as u8));
        proof {
            assert(out@ =~= digits(n as nat));
        }
        out
    } else {
        let mut out: String = digits_of(n / 10);
        out.push(digit_char((n % 10) as u8));
        out
    }
}

/// The decimal writing of an integer.
pub fn decimal_of(n: i64) -> (r: String)
    ensures
        r@ == decimal(n as int),
{
    if n < 0 {
        let m: u128 = (-(n as i128)) as u128;
        let mut out: String = String::new();
        out.push('-');
        let tail: String = digits_of(m);
        out.append(tail.as_str());
        proof {
            assert(out@ =~= decimal(n as int));
        }
        out
    } else {
        digits_of(n as u128)
    }
}

/// Every digit character has its own value.
pub proof fn lemma_digit(d: int)
    requires
        0 <= d < 10,
    ensures
        is_digit(digit(d)),
        digit_value(digit(d)) == d,
{
}

/// Reading the digits of a number gives the number back.
pub proof fn lemma_digits_read_back(n: nat)
    ensures
        digits(n).len() > 0,
        all_digits(digits(n)),
        number_of(digits(n)) == n,
    decreases n,
{
    if n < 10 {
        lemma_digit(n as int);
        assert(digits(n).drop_last() =~= Seq::<char>::empty());
        assert(digits(n).last() == digit(n as int));
        assert(number_of(Seq::<char>::empty()) == 0);
    } else {
        lemma_digits_read_back(n / 10);
        lemma_digit((n % 10) as int);
        assert(digits(n).drop_last() =~= digits(n / 10));
        assert forall|i: int| 0 <= i < digits(n).len() implies is_digit(#[trigger] digits(n)[i]) by {
            if i < digits(n).len() - 1 {
                assert(digits(n)[i] == digits(n / 10)[i]);
            }
        }
    }
}

/// Reading the decimal writing of an integer gives the integer back.
pub proof fn lemma_decimal_reads_back(n: int)
    ensures
        integer_of(decimal(n)) == Some(n),
{
    if n < 0 {
        lemma_digits_read_back((-n) as nat);
        assert(decimal(n).skip(1) =~= digits((-n) as nat));
    } else {
        lemma_digits_read_back(n as nat);
        assert(is_digit(decimal(n)[0]));
    }
}

/// A longer run of digits writes at least as large a number.
proof fn lemma_number_grows(text: Seq<char>, k: int)
    requires
        0 <= k <= text.len(),
    ensures
        number_of(text.take(k)) <= number_of(text),
    decreases text.len() - k,
{
    if k < text.len() {
        lemma_number_grows(text, k + 1);
        assert(text.take(k + 1).drop_last() =~= text.take(k));
    } else {
        assert(text.take(k) =~= text);
    }
}

/// The number that the digits `chars[from..]` write, where there is at least one, all of them are
/// digits, and the number is at most `limit`.
pub fn read_digits(chars: &[char], from: usize, to: usize, limit: u64) -> (r: Option<u64>)
    requires
        from <= to <= chars@.len(),
    ensures
        r == (if from < to && all_digits(chars@.subrange(from as int, to as int)) && number_of(
            chars@.subrange(from as int, to as int),
        ) <= limit {
            Some(number_of(chars@.subrange(from as int, to as int)) as u64)
        } else {
            None
        }),
{
    if from == to {
        return None;
    }
    let ghost text = chars@.subrange(from as int, to as int);
    let mut i: usize = from;
    let mut n: u64 = 0;
    while i < to
        invariant
            from <= i <= to <= chars@.len(),
            text == chars@.subrange(from as int, to as int),
            all_digits(text.take(i - from)),
            n == number_of(text.take(i - from)),
            n <= limit,
        decreases to - i,
    {
        let c: char = chars[i];
        proof {
            assert(text[i - from] == c);
            assert(text.take(i - from + 1).drop_last() =~= text.take(i - from));
            assert(text.take(i - from + 1).last() == c);
            lemma_number_grows(text, i - from + 1);
        }
        if !('0' <= c && c <= '9') {
            return None;
        }
        let d: u64 = (c as u32 - 48) as u64;
        if n > (u64::MAX - d) / 10 || n * 10 + d > limit {
            return None;
        }
        n = n * 10 + d;
        proof {
            assert forall|j: int| 0 <= j < text.take(i - from + 1).len() implies is_digit(
                #[trigger] text.take(i - from + 1)[j],
            ) by {
                if j < i - from {
                    assert(text.take(i - from)[j] == text.take(i - from + 1)[j]);
                }
            }
        }
        i = i + 1;
    }
    proof {
        assert(text.take(to - from) =~= text);
    }
    Some(n)
}

/// The signed 64-bit integer that the text writes: an optional sign, then digits alone.
pub fn parse_integer(s: &str) -> (r: Option<i64>)
    ensures
        match integer_of(s@) {
            Some(n) => if i64::MIN <= n <= i64::MAX {
                r == Some(n as i64)
            } else {
                r is None
            },
            None => r is None,
        },
{
    let chars: Vec<char> = chars_of(s);
    if chars.len() == 0 {
        return None;
    }
    if chars[0] == '-' {
        proof {
            assert(chars@.subrange(1, chars@.len() as int) =~= s@.skip(1));
        }
        match read_digits(&chars, 1, chars.len(), 0x8000_0000_0000_0000u64) {
            Some(m) => Some((-(m as i128)) as i64),
            None => None,
        }
    } else if chars[0] == '+' {
        proof {
            assert(chars@.subrange(1, chars@.len() as int) =~= s@.skip(1));
        }
        match read_digits(&chars, 1, chars.len(), 0x7fff_ffff_ffff_ffffu64) {
            Some(m) => Some(m as i64),
            None => None,
        }
    } else {
        proof {
            assert(chars@.subrange(0, chars@.len() as int) =~= s@);
        }
        match read_digits(&chars, 0, chars.len(), 0x7fff_ffff_ffff_ffffu64) {
            Some(m) => Some(m as i64),
            None => None,
        }
    }
}

/// The parts one after the other, with `sep` between neighbours.
pub fn join(parts: &Vec<String>, sep: &str) -> (r: String)
    ensures
        r@ == joined(texts(parts@), sep@),
{
    let mut out: String = String::new();
    let mut i: usize = 0;
    let ghost all = texts(parts@);
    proof {
        assert(all.take(0) =~= Seq::<Seq<char>>::empty());
    }
    while i < parts.len()
        invariant
            i <= parts@.len(),
            all == texts(parts@),
            out@ == joined(all.take(i as int), sep@),
        decreases parts@.len() - i,
    {
        proof {
            assert(all.take(i + 1).drop_last() =~= all.take(i as int));
            assert(all.take(i + 1).last() == parts@[i as int]@);
        }
        if i > 0 {
            out.append(sep);
        }
        out.append(parts[i].as_str());
        proof {
            if i == 0 {
                assert(out@ =~= parts@[0]@);
            }
        }
        i = i + 1;
    }
    proof {
        assert(all.take(parts@.len() as int) =~= all);
    }
    out
}

/// Whether `a` comes before `b` in the order of their characters.
pub open spec fn comes_before(a: Seq<char>, b: Seq<char>) -> bool
    decreases a.len(),
{
    if b.len() == 0 {
        false
    } else if a.len() == 0 {
        true
    } else if a[0] != b[0] {
        a[0] < b[0]
    } else {
        comes_before(a.skip(1), b.skip(1))
    }
}

/// Whether a list is in strict order, so that nothing occurs twice.
pub open spec fn strictly_ordered(list: Seq<Seq<char>>) -> bool {
    forall|i: int, j: int|
        0 <= i < j < list.len() ==> comes_before(#[trigger] list[i], #[trigger] list[j])
}

/// The order is total: of two different texts one comes before the other, and never both.
pub proof fn lemma_order_is_total(a: Seq<char>, b: Seq<char>)
    ensures
        a != b ==> comes_before(a, b) || comes_before(b, a),
        !(comes_before(a, b) && comes_before(b, a)),
        !comes_before(a, a),
    decreases a.len(),
{
    if a.len() > 0 && b.len() > 0 {
        lemma_order_is_total(a.skip(1), b.skip(1));
        if a[0] == b[0] && a.skip(1) == b.skip(1) {
            assert(a =~= seq![a[0]] + a.skip(1));
            assert(b =~= seq![b[0]] + b.skip(1));
        }
    } else if a.len() == 0 && b.len() == 0 {
        assert(a =~= b);
    }
    if a.len() > 0 {
        lemma_order_is_total(a.skip(1), a.skip(1));
    }
}

/// Texts are in the order of the first characters in which they differ, and a text comes before one
/// that it begins.
pub proof fn lemma_order_by_difference(a: Seq<char>, b: Seq<char>, i: int)
    requires
        0 <= i <= a.len(),
        i < b.len(),
        forall|k: int| 0 <= k < i ==> a[k] == b[k],
        i < a.len() ==> a[i] < b[i],
    ensures
        comes_before(a, b),
        !comes_before(b, a),
    decreases i,
{
    if i > 0 {
        assert forall|k: int| 0 <= k < i - 1 implies a.skip(1)[k] == b.skip(1)[k] by {
            assert(a[k + 1] == b[k + 1]);
        }
        assert(a[0] == b[0]);
        lemma_order_by_difference(a.skip(1), b.skip(1), i - 1);
    }
}

/// The order is transitive.
pub proof fn lemma_order_is_transitive(a: Seq<char>, b: Seq<char>, c: Seq<char>)
    requires
        comes_before(a, b),
        comes_before(b, c),
    ensures
        comes_before(a, c),
    decreases a.len(),
{
    if a.len() > 0 && b.len() > 0 && c.len() > 0 && a[0] == b[0] && b[0] == c[0] {
        lemma_order_is_transitive(a.skip(1), b.skip(1), c.skip(1));
    }
}

/// Whether `a` comes before `b` in the order of their characters.
pub fn text_before(a: &str, b: &str) -> (r: bool)
    ensures
        r == comes_before(a@, b@),
{
    let x: Vec<char> = chars_of(a);
    let y: Vec<char> = chars_of(b);
    let mut i: usize = 0;
    proof {
        assert(x@.skip(0) =~= x@);
        assert(y@.skip(0) =~= y@);
    }
    while i < x.len() && i < y.len() && x[i] == y[i]
        invariant
            i <= x@.len(),
            i <= y@.len(),
            comes_before(x@.skip(i as int), y@.skip(i as int)) == comes_before(x@, y@),
        decreases x@.len() - i,
    {
        proof {
            assert(x@.skip(i as int).skip(1) =~= x@.skip(i + 1));
            assert(y@.skip(i as int).skip(1) =~= y@.skip(i + 1));
        }
        i = i + 1;
    }
    if i >= y.len() {
        false
    } else if i >= x.len() {
        true
    } else {
        x[i] < y[i]
    }
}

/// Puts a text into a list in strict order, unless it is there already.
pub fn insert_in_order(list: &mut Vec<String>, s: &str)
    requires
        strictly_ordered(texts(old(list)@)),
    ensures
        strictly_ordered(texts(final(list)@)),
        forall|t: Seq<char>|
            texts(final(list)@).contains(t) <==> texts(old(list)@).contains(t) || t == s@,
{
    let ghost before = list@;
    let ghost named = texts(before);
    let mut at: usize = 0;
    while at < list.len() && text_before(list[at].as_str(), s)
        invariant
            list@ == before,
            at <= before.len(),
            forall|i: int| 0 <= i < at ==> comes_before((#[trigger] before[i])@, s@),
        decreases before.len() - at,
    {
        at = at + 1;
    }
    if at < list.len() && same_text(list[at].as_str(), s) {
        proof {
            assert(named[at as int] == s@);
        }
        return ;
    }
    list.insert(at, s.to_owned());
    proof {
        let after = texts(list@);
        assert(list@ == before.insert(at as int, list@[at as int]));
        assert forall|i: int, j: int| 0 <= i < j < after.len() implies comes_before(
            #[trigger] after[i],
            #[trigger] after[j],
        ) by {
            if j < at {
                assert(after[i] == named[i] && after[j] == named[j]);
            } else if i < at && j == at {
                assert(after[i] == before[i]@);
            } else if i < at {
                assert(after[i] == named[i] && after[j] == named[j - 1]);
            } else if i == at {
                assert(after[j] == named[j - 1]);
                lemma_order_is_total(named[at as int], s@);
                if j - 1 > at {
                    assert(comes_before(named[at as int], named[j - 1]));
                    lemma_order_is_transitive(s@, named[at as int], named[j - 1]);
                }
            } else {
                assert(after[i] == named[i - 1] && after[j] == named[j - 1]);
            }
        }
        assert forall|t: Seq<char>| after.contains(t) <==> named.contains(t) || t == s@ by {
            if named.contains(t) {
                let k = choose|k: int| 0 <= k < named.len() && named[k] == t;
                if k < at {
                    assert(after[k] == t);
                } else {
                    assert(after[k + 1] == t);
                }
            }
            if t == s@ {
                assert(after[at as int] == t);
            }
            if after.contains(t) {
                let k = choose|k: int| 0 <= k < after.len() && after[k] == t;
                if k < at {
                    assert(named[k] == t);
                } else if k > at {
                    assert(named[k - 1] == t);
                }
            }
        }
    }
}

/// Whether a text is nothing but white space.
pub open spec fn blank(t: Seq<char>) -> bool {
    forall|i: int| 0 <= i < t.len() ==> white_space(#[trigger] t[i])
}

/// Blanks, tabs and line ends are white space; letters, digits and punctuation are not.
pub proof fn lemma_white_space(c: char)
    ensures
        c == ' ' || c == '\t' || c == '\n' || c == '\r' ==> white_space(c),
        '!' <= c <= '~' ==> !white_space(c),
{
}

/// Leading white space goes, whatever follows it stays.
proof fn lemma_trimmed_start_is(a: Seq<char>, t: Seq<char>)
    requires
        blank(a),
        t.len() > 0 ==> !white_space(t[0]),
    ensures
        trimmed_start(a + t) == t,
    decreases a.len(),
{
    if a.len() > 0 {
        assert(white_space(a[0]));
        assert((a + t).skip(1) =~= a.skip(1) + t);
        assert forall|i: int| 0 <= i < a.skip(1).len() implies white_space(
            #[trigger] a.skip(1)[i],
        ) by {
            assert(white_space(a[i + 1]));
        }
        lemma_trimmed_start_is(a.skip(1), t);
    } else {
        assert(a + t =~= t);
    }
}

/// Trailing white space goes, whatever stands in front of it stays.
proof fn lemma_trimmed_end_is(t: Seq<char>, b: Seq<char>)
    requires
        blank(b),
        t.len() > 0 ==> !white_space(t.last()),
    ensures
        trimmed_end(t + b) == t,
    decreases b.len(),
{
    if b.len() > 0 {
        assert(white_space(b[b.len() - 1]));
        assert((t + b).drop_last() =~= t + b.drop_last());
        assert forall|i: int| 0 <= i < b.drop_last().len() implies white_space(
            #[trigger] b.drop_last()[i],
        ) by {
            assert(white_space(b[i]));
        }
        lemma_trimmed_end_is(t, b.drop_last());
    } else {
        assert(t + b =~= t);
    }
}

/// White space alone is trimmed away.
proof fn lemma_blank_is_trimmed(t: Seq<char>)
    requires
        blank(t),
    ensures
        trimmed_start(t) == Seq::<char>::empty(),
        trimmed(t) == Seq::<char>::empty(),
{
    assert(t + Seq::<char>::empty() =~= t);
    lemma_trimmed_start_is(t, Seq::empty());
}

/// Trimming takes the white space around a text and nothing of the text.
pub proof fn lemma_trimmed_is(a: Seq<char>, t: Seq<char>, b: Seq<char>)
    requires
        blank(a),
        blank(b),
        t.len() > 0 ==> !white_space(t[0]) && !white_space(t.last()),
    ensures
        trimmed(a + t + b) == t,
{
    if t.len() > 0 {
        assert(a + t + b =~= a + (t + b));
        lemma_trimmed_start_is(a, t + b);
        lemma_trimmed_end_is(t, b);
    } else {
        assert forall|i: int| 0 <= i < (a + t + b).len() implies white_space(
            #[trigger] (a + t + b)[i],
        ) by {
            if i < a.len() {
                assert(white_space(a[i]));
            } else {
                assert(white_space(b[i - a.len()]));
            }
        }
        lemma_blank_is_trimmed(a + t + b);
        assert(t =~= Seq::empty());
    }
}

/// Leading white space is all that is taken in front.
pub proof fn lemma_trimmed_start_is_a_tail(t: Seq<char>)
    ensures
        trimmed_start(t).len() <= t.len(),
        trimmed_start(t) == t.skip(t.len() - trimmed_start(t).len()),
        trimmed_start(t).len() > 0 ==> !white_space(trimmed_start(t)[0]),
        blank(t.take(t.len() - trimmed_start(t).len())),
    decreases t.len(),
{
    if t.len() > 0 && white_space(t[0]) {
        lemma_trimmed_start_is_a_tail(t.skip(1));
        let n = t.len() - trimmed_start(t).len();
        assert(t.skip(1).skip(n - 1) =~= t.skip(n));
        assert forall|i: int| 0 <= i < t.take(n).len() implies white_space(
            #[trigger] t.take(n)[i],
        ) by {
            if i > 0 {
                assert(t.skip(1).take(n - 1)[i - 1] == t[i]);
            }
        }
    } else {
        assert(t.skip(0) =~= t);
    }
}

/// Digits are read by their places: appending one multiplies by ten and adds it.
pub proof fn lemma_number_by_places(front: Seq<char>, c: char)
    ensures
        number_of(front.push(c)) == 10 * number_of(front) + digit_value(c),
        digit_value('0') == 0 && digit_value('1') == 1 && digit_value('2') == 2,
        digit_value('3') == 3 && digit_value('4') == 4 && digit_value('5') == 5,
        digit_value('6') == 6 && digit_value('7') == 7 && digit_value('8') == 8,
        digit_value('9') == 9,
        number_of(Seq::<char>::empty()) == 0,
{
    assert(front.push(c).drop_last() =~= front);
}

/// A number is written without leading zeros, and a sign stands in front of its digits.
pub proof fn lemma_writing_of_numbers(n: nat, digits_only: Seq<char>)
    ensures
        digits(n).len() > 1 ==> digits(n)[0] != '0',
        n > 0 ==> digits(n)[0] != '0',
        digits_only.len() > 0 && all_digits(digits_only) ==> {
            &&& integer_of(digits_only) == Some(number_of(digits_only) as int)
            &&& integer_of(seq!['+'] + digits_only) == Some(number_of(digits_only) as int)
            &&& integer_of(seq!['-'] + digits_only) == Some(-(number_of(digits_only) as int))
        },
    decreases n,
{
    if n >= 10 {
        lemma_writing_of_numbers(n / 10, digits_only);
        lemma_digits_read_back(n / 10);
        assert(digits(n)[0] == digits(n / 10)[0]);
    }
    if digits_only.len() > 0 && all_digits(digits_only) {
        assert(is_digit(digits_only[0]));
        assert((seq!['+'] + digits_only).skip(1) =~= digits_only);
        assert((seq!['-'] + digits_only).skip(1) =~= digits_only);
    }
}

/// Joining puts the separator between neighbours and nowhere else.
pub proof fn lemma_joined_by_parts(parts: Seq<Seq<char>>, last: Seq<char>, sep: Seq<char>)
    ensures
        joined(Seq::<Seq<char>>::empty(), sep) == Seq::<char>::empty(),
        joined(seq![last], sep) == last,
        parts.len() > 0 ==> joined(parts.push(last), sep) == joined(parts, sep) + sep + last,
{
    assert(parts.push(last).drop_last() =~= parts);
}

/// Only ASCII capitals have another lower case.
pub proof fn lemma_lowered(c: char)
    ensures
        !('A' <= c <= 'Z') ==> lowered(c) == c,
        'A' <= c <= 'Z' ==> 'a' <= lowered(c) <= 'z' && lowered(c) as u32 - 'a' as u32 == c as u32
            - 'A' as u32,
{
}

/// The white space beyond ASCII: the two controls of Latin-1, and the spaces and separators of
/// Unicode, but no joiner and no mark that has merely no width.
pub proof fn lemma_white_space_beyond_ascii(c: char)
    ensures
        c as u32 > 0x7E ==> (white_space(c) <==> c as u32 == 0x85 || c as u32 == 0xA0 || c as u32
            == 0x1680 || 0x2000 <= c as u32 <= 0x200A || c as u32 == 0x2028 || c as u32 == 0x2029
            || c as u32 == 0x202F || c as u32 == 0x205F || c as u32 == 0x3000),
        c as u32 == 0x200B || c as u32 == 0xFEFF ==> !white_space(c),
        c as u32 == 0xB || c as u32 == 0xC ==> white_space(c),
{
}

} // verus!
