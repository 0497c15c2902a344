//! The text that the solvers read and print: trimming and splitting input
//! lines, reading integers, and writing characters and integers in decimal.
use vstd::prelude::*;
use vstd::string::*;

verus! {

/// Appends one character to a `String`.
///
/// Trusted: calls `String::push`, which std documents as appending the given
/// `char` to the end of the string; the contract says exactly that of the
/// string's characters.
#[verifier::external_body]
pub(crate) fn push_char(s: &mut String, c: char)
    ensures
        final(s)@ == old(s)@.push(c),
{
    s.push(c);
}

/// The character that writes the decimal digit `d`.
pub open spec fn digit_char(d: int) -> char {
    if d == 0 {
        '0'
    } else if d == 1 {
        '1'
    } else if d == 2 {
        '2'
    } else if d == 3 {
        '3'
    } else if d == 4 {
        '4'
    } else if d == 5 {
        '5'
    } else if d == 6 {
        '6'
    } else if d == 7 {
        '7'
    } else if d == 8 {
        '8'
    } else {
        '9'
    }
}

/// The decimal writing of a natural number, most significant digit first,
/// without leading zeros (zero is written `0`).
pub open spec fn decimal(n: nat) -> Seq<char>
    decreases n,
{
    if n < 10 {
        seq![digit_char(n as int)]
    } else {
        decimal(n / 10).push(digit_char((n % 10) as int))
    }
}

/// The decimal writing of an integer: a minus sign before the digits of a
/// negative number.
pub open spec fn signed_decimal(i: int) -> Seq<char> {
    if i < 0 {
        seq!['-'] + decimal((-i) as nat)
    } else {
        decimal(i as nat)
    }
}

/// `n` copies of the character `c`.
pub open spec fn repeat_char(c: char, n: nat) -> Seq<char> {
    Seq::new(n, |i: int| c)
}

fn digit(d: u64) -> (c: char)
    requires
        d < 10,
    ensures
        c == digit_char(d as int),
{
    if d == 0 {
        '0'
    } else if d == 1 {
        '1'
    } else if d == 2 {
        '2'
    } else if d == 3 {
        '3'
    } else if d == 4 {
        '4'
    } else if d == 5 {
        '5'
    } else if d == 6 {
        '6'
    } else if d == 7 {
        '7'
    } else if d == 8 {
        '8'
    } else {
        '9'
    }
}

/// Appends the decimal writing of `n` to `s`.
pub fn append_decimal(s: &mut String, n: u64)
    ensures
        final(s)@ == old(s)@ + decimal(n as nat),
    decreases n,
{
    if n >= 10 {
        append_decimal(s, n / 10);
    }
    push_char(s, digit(n % 10));
    assert(final(s)@ == old(s)@ + decimal(n as nat));
}

/// Appends the decimal writing of `i`, with a minus sign when it is negative.
pub fn append_signed(s: &mut String, i: i64)
    ensures
        final(s)@ == old(s)@ + signed_decimal(i as int),
{
    if i < 0 {
        push_char(s, '-');
        let magnitude: u64 = if i == i64::MIN {
            9223372036854775808u64
        } else {
            (-i) as u64
        };
        append_decimal(s, magnitude);
        assert(final(s)@ == old(s)@ + signed_decimal(i as int));
    } else {
        append_decimal(s, i as u64);
    }
}

/// Appends `n` copies of `c` to `s`.
pub fn append_repeated(s: &mut String, c: char, n: usize)
    ensures
        final(s)@ == old(s)@ + repeat_char(c, n as nat),
{
    let ghost start = s@;
    let mut k: usize = 0;
    while k < n
        invariant
            k <= n,
            s@ == start + repeat_char(c, k as nat),
        decreases n - k,
    {
        push_char(s, c);
        k = k + 1;
        assert(s@ =~= start + repeat_char(c, k as nat));
    }
}

/// Appends the characters of `t` to `s`.
pub fn append_str(s: &mut String, t: &str)
    ensures
        final(s)@ == old(s)@ + t@,
{
    s.append(t);
}

/// The decimal writing of `i` as a new string.
pub fn signed_text(i: i64) -> (r: String)
    ensures
        r@ == signed_decimal(i as int),
{
    let mut s = String::new();
    append_signed(&mut s, i);
    assert(s@ =~= signed_decimal(i as int));
    s
}

/// The decimal writing of `n` as a new string.
pub fn decimal_text(n: u64) -> (r: String)
    ensures
        r@ == decimal(n as nat),
{
    let mut s = String::new();
    append_decimal(&mut s, n);
    assert(s@ =~= decimal(n as nat));
    s
}

/// How a boolean is written.
pub open spec fn bool_text(b: bool) -> Seq<char> {
    if b {
        "true"@
    } else {
        "false"@
    }
}

/// The writing of `b` as a new string.
pub fn bool_string(b: bool) -> (s: String)
    ensures
        s@ == bool_text(b),
{
    if b {
        String::from_str("true")
    } else {
        String::from_str("false")
    }
}

/// The characters with the Unicode `White_Space` property, which `str::trim`
/// removes.
pub open spec fn is_white_space(c: char) -> bool {
    ||| '\u{9}' <= c <= '\u{d}'
    ||| c == ' '
    ||| c == '\u{85}'
    ||| c == '\u{a0}'
    ||| c == '\u{1680}'
    ||| '\u{2000}' <= c <= '\u{200a}'
    ||| c == '\u{2028}'
    ||| c == '\u{2029}'
    ||| c == '\u{202f}'
    ||| c == '\u{205f}'
    ||| c == '\u{3000}'
}

/// The number of white-space characters at the start of `s`.
pub open spec fn leading_white(s: Seq<char>) -> nat
    decreases s.len(),
{
    if s.len() == 0 || !is_white_space(s[0]) {
        0
    } else {
        1 + leading_white(s.drop_first())
    }
}

/// The number of white-space characters at the end of `s`.
pub open spec fn trailing_white(s: Seq<char>) -> nat
    decreases s.len(),
{
    if s.len() == 0 || !is_white_space(s.last()) {
        0
    } else {
        1 + trailing_white(s.drop_last())
    }
}

/// `s` without its trailing white space.
pub open spec fn trimmed_end(s: Seq<char>) -> Seq<char> {
    s.subrange(0, s.len() - trailing_white(s))
}

/// `s` without its leading and trailing white space.
pub open spec fn trimmed(s: Seq<char>) -> Seq<char> {
    trimmed_end(s.subrange(leading_white(s) as int, s.len() as int))
}

proof fn lemma_leading_white_bound(s: Seq<char>)
    ensures
        leading_white(s) <= s.len(),
        forall|i: int| 0 <= i < leading_white(s) ==> is_white_space(#[trigger] s[i]),
        leading_white(s) < s.len() ==> !is_white_space(s[leading_white(s) as int]),
    decreases s.len(),
{
    if s.len() > 0 && is_white_space(s[0]) {
        lemma_leading_white_bound(s.drop_first());
        assert forall|i: int| 0 <= i < leading_white(s) implies is_white_space(#[trigger] s[i]) by {
            if i > 0 {
                assert(s[i] == s.drop_first()[i - 1]);
            }
        }
    }
}

proof fn lemma_trailing_white_bound(s: Seq<char>)
    ensures
        trailing_white(s) <= s.len(),
        forall|i: int| s.len() - trailing_white(s) <= i < s.len() ==> is_white_space(#[trigger] s[i]),
        trailing_white(s) < s.len() ==> !is_white_space(s[s.len() - trailing_white(s) - 1]),
    decreases s.len(),
{
    if s.len() > 0 && is_white_space(s.last()) {
        lemma_trailing_white_bound(s.drop_last());
        assert forall|i: int| s.len() - trailing_white(s) <= i < s.len() implies is_white_space(#[trigger] s[i]) by {
            if i < s.len() - 1 {
                assert(s[i] == s.drop_last()[i]);
            }
        }
    }
}

/// Whether `c` is white space, as `char::is_whitespace` says.
fn white_space(c: char) -> (r: bool)
    ensures
        r == is_white_space(c),
{
    ('\u{9}' <= c && c <= '\u{d}') || c == ' ' || c == '\u{85}' || c == '\u{a0}' || c == '\u{1680}'
        || ('\u{2000}' <= c && c <= '\u{200a}') || c == '\u{2028}' || c == '\u{2029}' || c == '\u{202f}'
        || c == '\u{205f}' || c == '\u{3000}'
}

/// The characters of `s` from `from` up to `to`, as a new string.
fn copy_range(s: &str, from: usize, to: usize) -> (r: String)
    requires
        from <= to <= s@.len(),
    ensures
        r@ == s@.subrange(from as int, to as int),
{
    let mut r = String::new();
    let mut i = from;
    while i < to
        invariant
            from <= i <= to,
            to <= s@.len(),
            r@ == s@.subrange(from as int, i as int),
        decreases to - i,
    {
        push_char(&mut r, s.get_char(i));
        i = i + 1;
        assert(r@ =~= s@.subrange(from as int, i as int));
    }
    r
}

/// `s` without its leading and trailing white space, as `str::trim` gives it.
pub fn trim(s: &str) -> (r: String)
    ensures
        r@ == trimmed(s@),
{
    let n = s.unicode_len();
    let mut a: usize = 0;
    while a < n && white_space(s.get_char(a))
        invariant
            n == s@.len(),
            a <= n,
            forall|i: int| 0 <= i < a ==> is_white_space(#[trigger] s@[i]),
        decreases n - a,
    {
        a = a + 1;
    }
    let mut b: usize = n;
    while b > a && white_space(s.get_char(b - 1))
        invariant
            n == s@.len(),
            a <= b <= n,
            forall|i: int| b <= i < n ==> is_white_space(#[trigger] s@[i]),
        decreases b - a,
    {
        b = b - 1;
    }
    proof {
        lemma_leading_white_bound(s@);
        let la = leading_white(s@);
        if la < a {
            assert(is_white_space(s@[la as int]));
        }
        if a < la {
            assert(is_white_space(s@[a as int]));
        }
        assert(la == a);
        let rest = s@.subrange(a as int, n as int);
        lemma_trailing_white_bound(rest);
        let tw = trailing_white(rest);
        let e = rest.len() - tw;
        if a < b {
            assert(!is_white_space(s@[b - 1]));
            assert(!is_white_space(rest[b - 1 - a]));
        }
        if e + a < b {
            assert(is_white_space(rest[b - 1 - a]));
        }
        if b < e + a {
            assert(!is_white_space(rest[e - 1]));
            assert(is_white_space(s@[e + a - 1]));
        }
        assert(e + a == b);
        assert(trimmed(s@) =~= s@.subrange(a as int, b as int));
    }
    copy_range(s, a, b)
}

/// `s` without its trailing white space, as `str::trim_end` gives it.
pub fn trim_end(s: &str) -> (r: String)
    ensures
        r@ == trimmed_end(s@),
{
    let n = s.unicode_len();
    let mut b: usize = n;
    while b > 0 && white_space(s.get_char(b - 1))
        invariant
            n == s@.len(),
            b <= n,
            forall|i: int| b <= i < n ==> is_white_space(#[trigger] s@[i]),
        decreases b,
    {
        b = b - 1;
    }
    proof {
        lemma_trailing_white_bound(s@);
        let e = s@.len() - trailing_white(s@);
        if e < b {
            assert(is_white_space(s@[b - 1]));
        }
        if b < e {
            assert(!is_white_space(s@[e - 1]));
            assert(is_white_space(s@[e - 1]));
        }
    }
    copy_range(s, 0, b)
}

/// The number of line feeds at the start of `s`.
pub open spec fn leading_newlines(s: Seq<char>) -> nat
    decreases s.len(),
{
    if s.len() == 0 || s[0] != '\n' {
        0
    } else {
        1 + leading_newlines(s.drop_first())
    }
}

/// The number of line feeds at the end of `s`.
pub open spec fn trailing_newlines(s: Seq<char>) -> nat
    decreases s.len(),
{
    if s.len() == 0 || s.last() != '\n' {
        0
    } else {
        1 + trailing_newlines(s.drop_last())
    }
}

/// `s` without the line feeds at its start and at its end.
pub open spec fn without_newlines(s: Seq<char>) -> Seq<char> {
    let rest = s.subrange(leading_newlines(s) as int, s.len() as int);
    rest.subrange(0, rest.len() - trailing_newlines(rest))
}

proof fn lemma_leading_newlines_bound(s: Seq<char>)
    ensures
        leading_newlines(s) <= s.len(),
        forall|i: int| 0 <= i < leading_newlines(s) ==> #[trigger] s[i] == '\n',
        leading_newlines(s) < s.len() ==> s[leading_newlines(s) as int] != '\n',
    decreases s.len(),
{
    if s.len() > 0 && s[0] == '\n' {
        lemma_leading_newlines_bound(s.drop_first());
        assert forall|i: int| 0 <= i < leading_newlines(s) implies #[trigger] s[i] == '\n' by {
            if i > 0 {
                assert(s[i] == s.drop_first()[i - 1]);
            }
        }
    }
}

proof fn lemma_trailing_newlines_bound(s: Seq<char>)
    ensures
        trailing_newlines(s) <= s.len(),
        forall|i: int| s.len() - trailing_newlines(s) <= i < s.len() ==> #[trigger] s[i] == '\n',
        trailing_newlines(s) < s.len() ==> s[s.len() - trailing_newlines(s) - 1] != '\n',
    decreases s.len(),
{
    if s.len() > 0 && s.last() == '\n' {
        lemma_trailing_newlines_bound(s.drop_last());
        assert forall|i: int| s.len() - trailing_newlines(s) <= i < s.len() implies #[trigger] s[i] == '\n' by {
            if i < s.len() - 1 {
                assert(s[i] == s.drop_last()[i]);
            }
        }
    }
}

/// `s` without the line feeds at its start and at its end, as
/// `str::trim_matches('\n')` gives it.
pub fn strip_newlines(s: &str) -> (r: String)
    ensures
        r@ == without_newlines(s@),
{
    let n = s.unicode_len();
    let mut a: usize = 0;
    while a < n && s.get_char(a) == '\n'
        invariant
            n == s@.len(),
            a <= n,
            forall|i: int| 0 <= i < a ==> #[trigger] s@[i] == '\n',
        decreases n - a,
    {
        a = a + 1;
    }
    let mut b: usize = n;
    while b > a && s.get_char(b - 1) == '\n'
        invariant
            n == s@.len(),
            a <= b <= n,
            forall|i: int| b <= i < n ==> #[trigger] s@[i] == '\n',
        decreases b - a,
    {
        b = b - 1;
    }
    proof {
        lemma_leading_newlines_bound(s@);
        let la = leading_newlines(s@);
        if la < a {
            assert(s@[la as int] == '\n');
        }
        if a < la {
            assert(s@[a as int] == '\n');
        }
        assert(la == a);
        let rest = s@.subrange(a as int, n as int);
        lemma_trailing_newlines_bound(rest);
        let e = rest.len() - trailing_newlines(rest);
        if a < b {
            assert(s@[b - 1] != '\n');
            assert(rest[b - 1 - a] != '\n');
        }
        if e + a < b {
            assert(rest[b - 1 - a] == '\n');
        }
        if b < e + a {
            assert(rest[e - 1] != '\n');
            assert(s@[e + a - 1] == '\n');
        }
        assert(e + a == b);
        assert(without_newlines(s@) =~= s@.subrange(a as int, b as int));
    }
    copy_range(s, a, b)
}

/// The pieces of `s` between single spaces, as `str::split(" ")` gives them:
/// two spaces in a row give an empty piece between them.
pub open spec fn split_spaces(s: Seq<char>) -> Seq<Seq<char>>
    decreases s.len(),
{
    if s.len() == 0 {
        seq![Seq::empty()]
    } else {
        let pieces = split_spaces(s.drop_last());
        if s.last() == ' ' {
            pieces.push(Seq::empty())
        } else {
            pieces.update(pieces.len() - 1, pieces.last().push(s.last()))
        }
    }
}

proof fn lemma_split_nonempty(s: Seq<char>)
    ensures
        split_spaces(s).len() >= 1,
    decreases s.len(),
{
    if s.len() > 0 {
        lemma_split_nonempty(s.drop_last());
    }
}

/// The pieces of `line` between single spaces.
pub fn split_on_space(line: &str) -> (r: Vec<String>)
    ensures
        r@.map_values(|t: String| t@) == split_spaces(line@),
{
    let n = line.unicode_len();
    let mut pieces: Vec<String> = Vec::new();
    let mut current = String::new();
    let mut i: usize = 0;
    while i < n
        invariant
            n == line@.len(),
            i <= n,
            pieces@.map_values(|t: String| t@).push(current@) == split_spaces(line@.subrange(0, i as int)),
        decreases n - i,
    {
        let c = line.get_char(i);
        let ghost before = line@.subrange(0, i as int);
        proof {
            lemma_split_nonempty(before);
            assert(line@.subrange(0, i + 1).drop_last() =~= before);
        }
        if c == ' ' {
            let ghost old_pieces = pieces@;
            let ghost cur_before = current@;
            pieces.push(current);
            current = String::new();
            assert(pieces@.map_values(|t: String| t@) =~= old_pieces.map_values(|t: String| t@).push(cur_before));
        } else {
            push_char(&mut current, c);
        }
        i = i + 1;
        assert(pieces@.map_values(|t: String| t@).push(current@) =~= split_spaces(line@.subrange(0, i as int)));
    }
    assert(line@.subrange(0, n as int) =~= line@);
    let ghost old_pieces = pieces@;
    pieces.push(current);
    assert(pieces@.map_values(|t: String| t@) =~= old_pieces.map_values(|t: String| t@).push(current@));
    pieces
}

/// The value of a sequence of ASCII digits.
pub open spec fn digits_value(s: Seq<char>) -> int
    decreases s.len(),
{
    if s.len() == 0 {
        0
    } else {
        digits_value(s.drop_last()) * 10 + (s.last() as int - '0' as int)
    }
}

/// Every character is an ASCII digit.
pub open spec fn all_digits(s: Seq<char>) -> bool {
    forall|i: int| 0 <= i < s.len() ==> '0' <= #[trigger] s[i] <= '9'
}

/// What `i32::from_str` gives for `s`: an optional `+` or `-`, then one or
/// more ASCII digits, whose value with its sign must fit in an `i32`.
pub open spec fn parsed_i32(s: Seq<char>) -> Option<i32> {
    let negative = s.len() > 0 && s[0] == '-';
    let digits = if s.len() > 0 && (s[0] == '-' || s[0] == '+') {
        s.drop_first()
    } else {
        s
    };
    let v = if negative {
        -digits_value(digits)
    } else {
        digits_value(digits)
    };
    if digits.len() > 0 && all_digits(digits) && i32::MIN <= v <= i32::MAX {
        Some(v as i32)
    } else {
        None
    }
}

proof fn lemma_digits_value_grows(s: Seq<char>, k: int)
    requires
        all_digits(s),
        0 <= k <= s.len(),
    ensures
        0 <= digits_value(s.subrange(0, k)) <= digits_value(s),
    decreases s.len() - k,
{
    if k < s.len() {
        lemma_digits_value_grows(s, k + 1);
        assert(s.subrange(0, k + 1).drop_last() =~= s.subrange(0, k));
        assert('0' <= s[k] <= '9');
    } else {
        assert(s.subrange(0, k) =~= s);
        lemma_digits_value_nonneg(s);
    }
}

proof fn lemma_digits_value_nonneg(s: Seq<char>)
    requires
        all_digits(s),
    ensures
        0 <= digits_value(s),
    decreases s.len(),
{
    if s.len() > 0 {
        assert(all_digits(s.drop_last()));
        lemma_digits_value_nonneg(s.drop_last());
        assert('0' <= s.last() <= '9');
    }
}

/// The number written in `s`, as `i32::from_str` reads it: `None` when `s`
/// is not an optional sign followed by ASCII digits, or when the number does
/// not fit in an `i32`.
pub fn parse_i32(s: &str) -> (r: Option<i32>)
    ensures
        r == parsed_i32(s@),
{
    let n = s.unicode_len();
    let mut start: usize = 0;
    let mut negative = false;
    if n > 0 {
        let c = s.get_char(0);
        if c == '-' {
            negative = true;
            start = 1;
        } else if c == '+' {
            start = 1;
        }
    }
    let ghost digits = if s@.len() > 0 && (s@[0] == '-' || s@[0] == '+') {
        s@.drop_first()
    } else {
        s@
    };
    assert(digits =~= s@.subrange(start as int, n as int));
    if start == n {
        return None;
    }
    let mut value: i64 = 0;
    let mut i: usize = start;
    while i < n
        invariant
            n == s@.len(),
            start <= i <= n,
            start < n,
            digits == s@.subrange(start as int, n as int),
            digits == (if s@.len() > 0 && (s@[0] == '-' || s@[0] == '+') {
                s@.drop_first()
            } else {
                s@
            }),
            all_digits(s@.subrange(start as int, i as int)),
            value as int == digits_value(s@.subrange(start as int, i as int)),
            0 <= value <= 0x8000_0000,
        decreases n - i,
    {
        let c = s.get_char(i);
        if c < '0' || c > '9' {
            proof {
                assert(digits[i - start] == c);
                assert(!all_digits(digits));
            }
            return None;
        }
        let d: i64 = (c as u32 - '0' as u32) as i64;
        let ghost prefix = s@.subrange(start as int, i + 1);
        assert(prefix.drop_last() =~= s@.subrange(start as int, i as int));
        value = value * 10 + d;
        i = i + 1;
        assert(all_digits(s@.subrange(start as int, i as int)));
        if value > 0x8000_0000 {
            proof {
                let k = i - start;
                assert(digits.subrange(0, k as int) =~= s@.subrange(start as int, i as int));
                lemma_all_digits_or_none(digits, k as int, value as int);
            }
            return None;
        }
    }
    proof {
        assert(s@.subrange(start as int, n as int) =~= digits);
    }
    if negative {
        Some((-value) as i32)
    } else if value <= 0x7fff_ffff {
        Some(value as i32)
    } else {
        None
    }
}

/// When a prefix of digits already exceeds `i32::MAX + 1`, the whole input
/// cannot be read as an `i32`, whether it is all digits or not.
proof fn lemma_all_digits_or_none(digits: Seq<char>, k: int, v: int)
    requires
        0 < k <= digits.len(),
        all_digits(digits.subrange(0, k)),
        v == digits_value(digits.subrange(0, k)),
        v > 0x8000_0000,
    ensures
        all_digits(digits) ==> digits_value(digits) > 0x8000_0000,
{
    if all_digits(digits) {
        lemma_digits_value_grows(digits, k);
    }
}

/// The decimal writing of a natural number is made of digits, and reading
/// those digits gives the number back.
proof fn lemma_decimal_digits(n: nat)
    ensures
        decimal(n).len() > 0,
        all_digits(decimal(n)),
        digits_value(decimal(n)) == n,
    decreases n,
{
    if n >= 10 {
        lemma_decimal_digits(n / 10);
    }
    let d = (n % 10) as int;
    let s = decimal(n);
    let front = if n < 10 {
        Seq::<char>::empty()
    } else {
        decimal(n / 10)
    };
    assert(s == front.push(digit_char(d))) by {
        if n < 10 {
            assert(seq![digit_char(n as int)] =~= Seq::<char>::empty().push(digit_char(d)));
        }
    }
    assert(s.drop_last() =~= front);
    assert(s.last() == digit_char(d));
    assert(digit_char(d) as int - '0' as int == d && '0' <= digit_char(d) <= '9');
    assert(digits_value(front) * 10 + d == n) by {
        vstd::arithmetic::div_mod::lemma_fundamental_div_mod(n as int, 10);
    }
    assert(digits_value(s) == digits_value(front) * 10 + d);
    assert forall|i: int| 0 <= i < s.len() implies '0' <= #[trigger] s[i] <= '9' by {
        if i < front.len() {
            assert(s[i] == front[i]);
        }
    }
}

/// Reading back what `signed_text` writes gives the number: the writing of
/// any `i32` reads as that `i32`.
pub proof fn lemma_read_back_signed(v: i32)
    ensures
        parsed_i32(signed_decimal(v as int)) == Some(v),
{
    if v < 0 {
        let digits = decimal((-v) as nat);
        lemma_decimal_digits((-v) as nat);
        let s = seq!['-'] + digits;
        assert(s[0] == '-');
        assert(s.drop_first() =~= digits);
    } else {
        let digits = decimal(v as nat);
        lemma_decimal_digits(v as nat);
        assert('0' <= digits[0] <= '9');
    }
}

/// An input field read as a number: the field without its surrounding white
/// space, read as an `i32`.
pub fn read_i32(field: &str) -> (r: Option<i32>)
    ensures
        r == parsed_i32(trimmed(field@)),
{
    let t = trim(field);
    parse_i32(t.as_str())
}

} // verus!
