//! Text, as the rest of the library sees it: characters and their Unicode
//! properties, comparing, trimming, and decimal numbers.

use vstd::prelude::*;

verus! {

/// The code points with the Unicode property `White_Space`.
pub open spec fn white_space(c: char) -> bool {
    let n = c as u32;
    ||| 0x9 <= n <= 0xd
    ||| n == 0x20
    ||| n == 0x85
    ||| n == 0xa0
    ||| n == 0x1680
    ||| 0x2000 <= n <= 0x200a
    ||| n == 0x2028
    ||| n == 0x2029
    ||| n == 0x202f
    ||| n == 0x205f
    ||| n == 0x3000
}

/// The code points of the Unicode general category `Cc`.
pub open spec fn control(c: char) -> bool {
    let n = c as u32;
    n <= 0x1f || 0x7f <= n <= 0x9f
}

/// `c` is one of the 128 ASCII characters.
pub open spec fn ascii(c: char) -> bool {
    c as u32 <= 0x7f
}

pub open spec fn ascii_upper(c: char) -> bool {
    'A' <= c <= 'Z'
}

pub open spec fn ascii_lower(c: char) -> bool {
    'a' <= c <= 'z'
}

pub open spec fn ascii_digit(c: char) -> bool {
    '0' <= c <= '9'
}

/// An ASCII character with `A` to `Z` moved to `a` to `z`.
pub open spec fn ascii_lowered(c: char) -> char {
    if ascii_upper(c) {
        (c as u32 + 32) as char
    } else {
        c
    }
}

/// What `char::is_alphanumeric` answers.
pub uninterp spec fn alphanumeric(c: char) -> bool;

/// What `char::is_lowercase` answers.
pub uninterp spec fn lowercase(c: char) -> bool;

/// What `char::is_uppercase` answers.
pub uninterp spec fn uppercase(c: char) -> bool;

/// The characters that `char::to_lowercase` yields.
pub uninterp spec fn lowered_char(c: char) -> Seq<char>;

/// The text that `str::to_lowercase` returns.
pub uninterp spec fn lowered_text(s: Seq<char>) -> Seq<char>;

/// Part of a word: a letter or a digit.
pub open spec fn word_char(c: char) -> bool {
    if ascii(c) {
        ascii_upper(c) || ascii_lower(c) || ascii_digit(c)
    } else {
        alphanumeric(c)
    }
}

/// A lowercase letter.
pub open spec fn lower_letter(c: char) -> bool {
    if ascii(c) {
        ascii_lower(c)
    } else {
        lowercase(c)
    }
}

/// An uppercase letter.
pub open spec fn upper_letter(c: char) -> bool {
    if ascii(c) {
        ascii_upper(c)
    } else {
        uppercase(c)
    }
}

/// The lowercase form of one character, which may be more than one.
pub open spec fn folded_char(c: char) -> Seq<char> {
    if ascii(c) {
        seq![ascii_lowered(c)]
    } else {
        lowered_char(c)
    }
}

/// Nothing but ASCII characters.
pub open spec fn ascii_text(s: Seq<char>) -> bool {
    forall|i: int| 0 <= i < s.len() ==> ascii(#[trigger] s[i])
}

/// The lowercase form of a text.
pub open spec fn folded_text(s: Seq<char>) -> Seq<char> {
    if ascii_text(s) {
        s.map_values(|c: char| ascii_lowered(c))
    } else {
        lowered_text(s)
    }
}

/// `char::is_whitespace`: the characters with the property `White_Space`.
pub assume_specification[ char::is_whitespace ](c: char) -> (r: bool)
    ensures
        r == white_space(c),
;

/// `char::is_control`: the characters of the general category `Cc`.
pub assume_specification[ char::is_control ](c: char) -> (r: bool)
    ensures
        r == control(c),
;

/// `char::is_alphanumeric`, by name; among ASCII characters these are the
/// letters and the digits.
pub assume_specification[ char::is_alphanumeric ](c: char) -> (r: bool)
    ensures
        r == alphanumeric(c),
        ascii(c) ==> r == (ascii_upper(c) || ascii_lower(c) || ascii_digit(c)),
;

/// `char::is_lowercase`, by name; among ASCII characters these are `a` to `z`.
pub assume_specification[ char::is_lowercase ](c: char) -> (r: bool)
    ensures
        r == lowercase(c),
        ascii(c) ==> r == ascii_lower(c),
;

/// `char::is_uppercase`, by name; among ASCII characters these are `A` to `Z`.
pub assume_specification[ char::is_uppercase ](c: char) -> (r: bool)
    ensures
        r == uppercase(c),
        ascii(c) ==> r == ascii_upper(c),
;

/// `char::to_lowercase`, by name; an ASCII character has exactly one lowercase
/// character, its own.
#[verifier::external_body]
pub(crate) fn lower_char(c: char) -> (r: String)
    ensures
        r@ == lowered_char(c),
        ascii(c) ==> r@ == seq![ascii_lowered(c)],
{
    c.to_lowercase().to_string()
}

/// `str::to_lowercase`, by name; ASCII text has each of its letters lowered.
pub assume_specification[ str::to_lowercase ](s: &str) -> (r: String)
    ensures
        r@ == lowered_text(s@),
        ascii_text(s@) ==> r@ == s@.map_values(|c: char| ascii_lowered(c)),
;

/// `String::push`: one character more at the end.
pub assume_specification[ String::push ](s: &mut String, c: char)
    ensures
        final(s)@ == old(s)@.push(c),
;

/// `String::pop`: the last character leaves, where there is one.
pub assume_specification[ String::pop ](s: &mut String) -> (r: Option<char>)
    ensures
        old(s)@.len() == 0 ==> r is None && final(s)@ == old(s)@,
        old(s)@.len() > 0 ==> r == Some(old(s)@.last()) && final(s)@ == old(s)@.drop_last(),
;

/// `==` on `str`: the same characters in the same order.
pub assume_specification[ <str as PartialEq<str>>::eq ](a: &str, b: &str) -> (r: bool)
    ensures
        r == (a@ == b@),
;

/// Whether two texts are the same.
pub fn same(a: &str, b: &str) -> (r: bool)
    ensures
        r == (a@ == b@),
{
    *a == *b
}

/// `s` without the white space at its start.
pub open spec fn trimmed_start(s: Seq<char>) -> Seq<char>
    decreases s.len(),
{
    if s.len() > 0 && white_space(s.first()) {
        trimmed_start(s.drop_first())
    } else {
        s
    }
}

/// `s` without the white space at its end.
pub open spec fn trimmed_end(s: Seq<char>) -> Seq<char>
    decreases s.len(),
{
    if s.len() > 0 && white_space(s.last()) {
        trimmed_end(s.drop_last())
    } else {
        s
    }
}

/// `s` without the white space at either end.
pub open spec fn trimmed(s: Seq<char>) -> Seq<char> {
    trimmed_end(trimmed_start(s))
}

/// Nothing but white space.
pub open spec fn blank(s: Seq<char>) -> bool {
    forall|i: int| 0 <= i < s.len() ==> white_space(#[trigger] s[i])
}

/// `str::trim`: the text without the white space at either end.
pub assume_specification[ str::trim ](s: &str) -> (r: &str)
    ensures
        r@ == trimmed(s@),
;

proof fn lemma_trimmed_start_blank(s: Seq<char>)
    ensures
        trimmed_start(s).len() == 0 <==> blank(s),
        trimmed_start(s).len() > 0 ==> !white_space(trimmed_start(s).first()),
    decreases s.len(),
{
    if s.len() > 0 && white_space(s.first()) {
        let rest = s.drop_first();
        lemma_trimmed_start_blank(rest);
        if blank(rest) {
            assert forall|i: int| 0 <= i < s.len() implies white_space(#[trigger] s[i]) by {
                if i > 0 {
                    assert(s[i] == rest[i - 1]);
                }
            }
        }
        if blank(s) {
            assert forall|i: int| 0 <= i < rest.len() implies white_space(#[trigger] rest[i]) by {
                assert(rest[i] == s[i + 1]);
            }
        }
    } else if s.len() > 0 {
        assert(!white_space(s[0]));
    }
}

proof fn lemma_trimmed_end_keeps_first(s: Seq<char>)
    requires
        s.len() > 0,
        !white_space(s.first()),
    ensures
        trimmed_end(s).len() > 0,
        trimmed_end(s).first() == s.first(),
    decreases s.len(),
{
    if white_space(s.last()) {
        assert(s.drop_last().first() == s.first());
        lemma_trimmed_end_keeps_first(s.drop_last());
    }
}

/// Trimming leaves nothing exactly when there was nothing but white space.
proof fn lemma_trimmed_blank(s: Seq<char>)
    ensures
        trimmed(s).len() == 0 <==> blank(s),
{
    lemma_trimmed_start_blank(s);
    if trimmed_start(s).len() > 0 {
        lemma_trimmed_end_keeps_first(trimmed_start(s));
    }
}

/// The characters of `s`, one by one.
pub fn chars_of(s: &str) -> (out: Vec<char>)
    ensures
        out@ == s@,
{
    let mut out: Vec<char> = Vec::new();
    for c in it: s.chars()
        invariant
            it.seq() == s@,
            out@ == s@.take(it.index()),
    {
        out.push(c);
        assert(s@.take(it.index() + 1) == s@.take(it.index()).push(c));
    }
    assert(s@.take(s@.len() as int) == s@);
    out
}

/// What is left of `s` behind `prefix`, where it starts with it.
pub open spec fn stripped(s: Seq<char>, prefix: Seq<char>) -> Option<Seq<char>> {
    if prefix.len() <= s.len() && s.take(prefix.len() as int) == prefix {
        Some(s.skip(prefix.len() as int))
    } else {
        None
    }
}

/// What is left of `s` behind `prefix`, where it starts with it.
pub fn strip(s: &str, prefix: &str) -> (r: Option<String>)
    ensures
        option_view(r) == stripped(s@, prefix@),
{
    let chars: Vec<char> = chars_of(s);
    let head: Vec<char> = chars_of(prefix);
    if head.len() > chars.len() {
        return None;
    }
    let mut i: usize = 0;
    while i < head.len()
        invariant
            chars@ == s@,
            head@ == prefix@,
            i <= head@.len() <= chars@.len(),
            s@.take(i as int) == prefix@.take(i as int),
        decreases head.len() - i,
    {
        if chars[i] != head[i] {
            assert(s@.take(prefix@.len() as int)[i as int] != prefix@[i as int]);
            return None;
        }
        assert(s@.take(i + 1) == s@.take(i as int).push(s@[i as int]));
        assert(prefix@.take(i + 1) == prefix@.take(i as int).push(prefix@[i as int]));
        i += 1;
    }
    assert(prefix@.take(i as int) == prefix@);
    let mut rest = String::new();
    while i < chars.len()
        invariant
            chars@ == s@,
            prefix@.len() <= i <= chars@.len(),
            rest@ == s@.subrange(prefix@.len() as int, i as int),
        decreases chars.len() - i,
    {
        rest.push(chars[i]);
        i += 1;
        assert(rest@ =~= s@.subrange(prefix@.len() as int, i as int));
    }
    assert(rest@ =~= s@.skip(prefix@.len() as int));
    Some(rest)
}

/// What an optional string holds.
pub open spec fn option_view(o: Option<String>) -> Option<Seq<char>> {
    match o {
        Some(s) => Some(s@),
        None => None,
    }
}

/// What an optional string slice holds.
pub open spec fn option_str_view(o: Option<&str>) -> Option<Seq<char>> {
    match o {
        Some(s) => Some(s@),
        None => None,
    }
}

/// A copy of an optional string.
pub fn copy_option(o: &Option<String>) -> (r: Option<String>)
    ensures
        option_view(r) == option_view(*o),
        r is Some <==> o is Some,
        o matches Some(s) ==> (r->0)@ == s@,
{
    match o {
        Some(s) => Some(s.clone()),
        None => None,
    }
}

/// An optional string slice as a string.
pub fn own_option(o: Option<&str>) -> (r: Option<String>)
    ensures
        option_view(r) == option_str_view(o),
        r is Some <==> o is Some,
        o matches Some(s) ==> (r->0)@ == s@,
{
    match o {
        Some(s) => Some(s.to_owned()),
        None => None,
    }
}

/// An optional string as a string slice.
pub fn borrow_option(o: &Option<String>) -> (r: Option<&str>)
    ensures
        option_str_view(r) == option_view(*o),
        r is Some <==> o is Some,
        o matches Some(s) ==> (r->0)@ == s@,
{
    match o {
        Some(s) => Some(s.as_str()),
        None => None,
    }
}

/// Whether two optional texts are the same.
pub fn same_option(a: Option<&str>, b: Option<&str>) -> (r: bool)
    ensures
        r == (option_str_view(a) == option_str_view(b)),
        r <==> match (a, b) {
            (Some(x), Some(y)) => x@ == y@,
            _ => a is None && b is None,
        },
{
    match (a, b) {
        (Some(x), Some(y)) => same(x, y),
        (None, None) => true,
        _ => false,
    }
}

/// The character that writes the digit `d`.
pub open spec fn digit_char(d: nat) -> char {
    (48 + d) as char
}

/// `n` in decimal, without leading zeros.
pub open spec fn decimal(n: nat) -> Seq<char>
    decreases n,
{
    if n < 10 {
        seq![digit_char(n)]
    } else {
        decimal(n / 10).push(digit_char(n % 10))
    }
}

/// `n` in decimal.
pub fn decimal_text(n: u64) -> (out: String)
    ensures
        out@ == decimal(n as nat),
    decreases n,
{
    let d: u8 = (n % 10) as u8;
    let mut out = if n < 10 {
        String::new()
    } else {
        decimal_text(n / 10)
    };
    out.push((48 + d) as char);
    assert(out@ =~= decimal(n as nat));
    out
}

/// The number that decimal digits write.
pub open spec fn digits_value(s: Seq<char>) -> nat
    decreases s.len(),
{
    if s.len() == 0 {
        0
    } else {
        digits_value(s.drop_last()) * 10 + (s.last() as int - '0' as int) as nat
    }
}

/// Nothing but decimal digits.
pub open spec fn all_digits(s: Seq<char>) -> bool {
    forall|i: int| 0 <= i < s.len() ==> ascii_digit(#[trigger] s[i])
}

/// `s` without the plus sign it may start with.
pub open spec fn unsigned(s: Seq<char>) -> Seq<char> {
    if s.len() > 0 && s[0] == '+' {
        s.skip(1)
    } else {
        s
    }
}

/// The whole number that `s` writes: decimal digits, with or without a plus sign
/// in front.
pub open spec fn number_in(s: Seq<char>) -> Option<nat> {
    if unsigned(s).len() > 0 && all_digits(unsigned(s)) {
        Some(digits_value(unsigned(s)))
    } else {
        None
    }
}

proof fn lemma_digits_grow(s: Seq<char>, i: int)
    requires
        0 <= i <= s.len(),
    ensures
        digits_value(s.take(i)) <= digits_value(s),
    decreases s.len() - i,
{
    if i < s.len() {
        lemma_digits_grow(s, i + 1);
        assert(s.take(i + 1).drop_last() == s.take(i));
    } else {
        assert(s.take(i) == s);
    }
}

/// The whole number that `s` writes, where it fits.
pub fn parse_number(s: &str) -> (r: Option<u64>)
    ensures
        r matches Some(n) ==> number_in(s@) == Some(n as nat),
        r is None ==> number_in(s@) is None || number_in(s@)->0 > u64::MAX,
{
    let chars: Vec<char> = chars_of(s);
    let start: usize = if chars.len() > 0 && chars[0] == '+' {
        1
    } else {
        0
    };
    let ghost digits = unsigned(s@);
    assert(digits =~= s@.skip(start as int));
    if chars.len() == start {
        return None;
    }
    let mut value: u64 = 0;
    let mut i: usize = start;
    while i < chars.len()
        invariant
            chars@ == s@,
            start <= i <= chars@.len(),
            digits == s@.skip(start as int),
            digits == unsigned(s@),
            digits.len() > 0,
            forall|k: int| 0 <= k < i - start ==> ascii_digit(#[trigger] digits[k]),
            value == digits_value(digits.take(i - start)),
        decreases chars.len() - i,
    {
        let c: char = chars[i];
        assert(digits[i - start] == c);
        if c < '0' || c > '9' {
            assert(!all_digits(digits));
            return None;
        }
        let d: u64 = (c as u32 - 48) as u64;
        let ghost longer = digits.take(i - start + 1);
        proof {
            assert(longer.drop_last() == digits.take(i - start));
            assert(longer.last() == c);
            lemma_digits_grow(digits, i - start + 1);
        }
        if value > (u64::MAX - d) / 10 {
            assert(digits_value(longer) > u64::MAX);
            return None;
        }
        value = value * 10 + d;
        i += 1;
    }
    assert(digits.take(i - start) == digits);
    Some(value)
}

/// The whole number that `s` writes, where it fits into an index.
pub fn parse_index(s: &str) -> (r: Option<usize>)
    ensures
        r matches Some(n) ==> number_in(s@) == Some(n as nat),
        r is None ==> number_in(s@) is None || number_in(s@)->0 > usize::MAX,
{
    match parse_number(s) {
        Some(n) => if n <= usize::MAX as u64 {
            Some(n as usize)
        } else {
            None
        },
        None => None,
    }
}

/// What is written in decimal is read as the number it was.
pub proof fn law_decimal_is_read_back(n: nat)
    ensures
        number_in(decimal(n)) == Some(n),
{
    lemma_decimal_digits(n);
    assert(ascii_digit(decimal(n)[0]));
}

/// A number in decimal has no padding to trim.
pub(crate) proof fn lemma_decimal_untrimmed(n: nat)
    ensures
        trimmed(decimal(n)) == decimal(n),
{
    lemma_decimal_digits(n);
    let s = decimal(n);
    assert(ascii_digit(s[0]));
    assert(ascii_digit(s[s.len() - 1]));
}

pub(crate) proof fn lemma_decimal_digits(n: nat)
    ensures
        decimal(n).len() > 0,
        all_digits(decimal(n)),
        digits_value(decimal(n)) == n,
    decreases n,
{
    if n < 10 {
        let s = seq![digit_char(n)];
        assert(s.drop_last() == Seq::<char>::empty());
        assert(digits_value(Seq::<char>::empty()) == 0);
    } else {
        lemma_decimal_digits(n / 10);
        let s = decimal(n);
        assert(s.drop_last() == decimal(n / 10));
        assert forall|i: int| 0 <= i < s.len() implies ascii_digit(#[trigger] s[i]) by {
            if i < s.len() - 1 {
                assert(s[i] == decimal(n / 10)[i]);
            }
        }
    }
}

/// Whether `s` holds nothing but white space.
pub fn is_blank(s: &str) -> (r: bool)
    ensures
        r == blank(s@),
{
    proof {
        lemma_trimmed_blank(s@);
    }
    s.trim().is_empty()
}

/// Whether text is blank is a matter of each of its characters: none is blank,
/// one is where it is white space, and two texts are blank together where each
/// is.
pub proof fn law_blank_goes_by_character(a: Seq<char>, b: Seq<char>, c: char)
    ensures
        blank(Seq::empty()),
        blank(seq![c]) <==> white_space(c),
        blank(a + b) <==> blank(a) && blank(b),
        a.contains(c) && !white_space(c) ==> !blank(a),
{
    let one = seq![c];
    if blank(one) {
        assert(white_space(one[0]));
    }
    let both = a + b;
    if blank(both) {
        assert forall|i: int| 0 <= i < a.len() implies white_space(#[trigger] a[i]) by {
            assert(both[i] == a[i]);
        }
        assert forall|i: int| 0 <= i < b.len() implies white_space(#[trigger] b[i]) by {
            assert(both[a.len() + i] == b[i]);
        }
    }
}

proof fn lemma_trimmed_start_cut(s: Seq<char>)
    ensures
        exists|k: int|
            0 <= k <= s.len() && blank(#[trigger] s.take(k)) && s.skip(k) == trimmed_start(s),
    decreases s.len(),
{
    if s.len() > 0 && white_space(s.first()) {
        let rest = s.drop_first();
        lemma_trimmed_start_cut(rest);
        let k = choose|k: int|
            0 <= k <= rest.len() && blank(#[trigger] rest.take(k)) && rest.skip(k)
                == trimmed_start(rest);
        assert forall|i: int| 0 <= i < k + 1 implies white_space(#[trigger] s.take(k + 1)[i]) by {
            if i > 0 {
                assert(s.take(k + 1)[i] == rest.take(k)[i - 1]);
            }
        }
        assert(blank(s.take(k + 1)));
        assert(s.skip(k + 1) =~= rest.skip(k));
    } else {
        assert(blank(s.take(0)));
        assert(s.skip(0) =~= s);
    }
}

proof fn lemma_trimmed_end_cut(s: Seq<char>)
    ensures
        exists|k: int|
            0 <= k <= s.len() && blank(#[trigger] s.skip(k)) && s.take(k) == trimmed_end(s),
        trimmed_end(s).len() > 0 ==> !white_space(trimmed_end(s).last()),
    decreases s.len(),
{
    if s.len() > 0 && white_space(s.last()) {
        let before = s.drop_last();
        lemma_trimmed_end_cut(before);
        let k = choose|k: int|
            0 <= k <= before.len() && blank(#[trigger] before.skip(k)) && before.take(k)
                == trimmed_end(before);
        assert forall|i: int| 0 <= i < s.skip(k).len() implies white_space(
            #[trigger] s.skip(k)[i],
        ) by {
            if i < before.skip(k).len() {
                assert(s.skip(k)[i] == before.skip(k)[i]);
            }
        }
        assert(blank(s.skip(k)));
        assert(s.take(k) =~= before.take(k));
    } else {
        assert(blank(s.skip(s.len() as int)));
        assert(s.take(s.len() as int) =~= s);
    }
}

/// Trimming takes white space off both ends and nothing else: what is left is a
/// piece of the text, with only white space around it and none at its own ends.
pub proof fn law_trimming_takes_white_space_only(s: Seq<char>)
    ensures
        exists|i: int, j: int|
            0 <= i <= j <= s.len() && #[trigger] s.subrange(i, j) == trimmed(s) && blank(s.take(i))
                && blank(s.skip(j)),
        trimmed(s).len() > 0 ==> !white_space(trimmed(s)[0]) && !white_space(trimmed(s).last()),
        trimmed(s).len() == 0 <==> blank(s),
{
    lemma_trimmed_blank(s);
    lemma_trimmed_start_blank(s);
    lemma_trimmed_start_cut(s);
    let i = choose|i: int|
        0 <= i <= s.len() && blank(#[trigger] s.take(i)) && s.skip(i) == trimmed_start(s);
    let t = trimmed_start(s);
    lemma_trimmed_end_cut(t);
    let k = choose|k: int| 0 <= k <= t.len() && blank(#[trigger] t.skip(k)) && t.take(k)
        == trimmed_end(t);
    assert(s.subrange(i, i + k) =~= trimmed(s));
    assert(s.skip(i + k) =~= t.skip(k));
    if t.len() > 0 {
        lemma_trimmed_end_keeps_first(t);
    }
}

/// A number is read digit by digit, from the left: one more digit makes it ten
/// times what it was and that digit more. A plus sign in front changes nothing,
/// and anything else in between makes it no number.
pub proof fn law_number_is_read_digit_by_digit(s: Seq<char>, d: nat, i: int)
    requires
        d < 10,
    ensures
        number_in(seq![(48 + d) as char]) == Some(d),
        number_in(s) matches Some(n) ==> number_in(s.push((48 + d) as char)) == Some(10 * n + d),
        number_in(Seq::empty()) is None,
        number_in(seq!['+']) is None,
        s.len() > 0 && s[0] != '+' ==> number_in(seq!['+'] + s) == number_in(s),
        0 <= i < s.len() && !('0' <= s[i] <= '9') && (i > 0 || s[i] != '+') ==> number_in(s) is None,
{
    let c = (48 + d) as char;
    let one = seq![c];
    assert(one.drop_last() =~= Seq::<char>::empty());
    assert(digits_value(Seq::<char>::empty()) == 0);
    assert(all_digits(one));
    if let Some(n) = number_in(s) {
        let u = unsigned(s);
        let longer = s.push(c);
        assert(unsigned(longer) =~= u.push(c));
        assert(u.push(c).drop_last() =~= u);
        assert forall|k: int| 0 <= k < u.push(c).len() implies ascii_digit(
            #[trigger] u.push(c)[k],
        ) by {
            if k < u.len() {
                assert(ascii_digit(u[k]));
            }
        }
    }
    assert(unsigned(seq!['+']) =~= Seq::<char>::empty());
    if s.len() > 0 && s[0] != '+' {
        assert(unsigned(seq!['+'] + s) =~= s);
    }
    if 0 <= i < s.len() && !('0' <= s[i] <= '9') && (i > 0 || s[i] != '+') {
        if s[0] == '+' {
            assert(unsigned(s)[i - 1] == s[i]);
        } else {
            assert(unsigned(s)[i] == s[i]);
        }
    }
}

/// A number is written with digits alone, and with none in front that says
/// nothing.
pub proof fn law_decimal_has_no_padding(n: nat)
    ensures
        decimal(n).len() > 0,
        forall|i: int| 0 <= i < decimal(n).len() ==> '0' <= #[trigger] decimal(n)[i] <= '9',
        decimal(n)[0] == '0' ==> n == 0 && decimal(n).len() == 1,
    decreases n,
{
    lemma_decimal_digits(n);
    assert forall|i: int| 0 <= i < decimal(n).len() implies '0' <= #[trigger] decimal(n)[i]
        <= '9' by {
        assert(ascii_digit(decimal(n)[i]));
    }
    if n >= 10 {
        law_decimal_has_no_padding(n / 10);
        assert(decimal(n)[0] == decimal(n / 10)[0]);
    }
}

/// A prefix and what is left behind it make up the text.
pub proof fn law_prefix_and_rest_make_up_the_text(s: Seq<char>, prefix: Seq<char>, rest: Seq<char>)
    ensures
        stripped(s, prefix) == Some(rest) <==> s == prefix + rest,
{
    if s == prefix + rest {
        assert(s.take(prefix.len() as int) =~= prefix);
        assert(s.skip(prefix.len() as int) =~= rest);
    }
    if stripped(s, prefix) == Some(rest) {
        assert(s =~= prefix + rest);
    }
}

} // verus!
