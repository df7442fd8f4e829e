//! Text as sequences of characters: comparison, trimming, ASCII case, decimal numbers.
use vstd::prelude::*;

verus! {

/// `prefix` stands at the front of `s`.
pub open spec fn is_prefix(prefix: Seq<char>, s: Seq<char>) -> bool {
    prefix.len() <= s.len() && s.subrange(0, prefix.len() as int) == prefix
}

/// `suffix` stands at the end of `s`.
pub open spec fn is_suffix(suffix: Seq<char>, s: Seq<char>) -> bool {
    suffix.len() <= s.len() && s.subrange(s.len() - suffix.len(), s.len() as int) == suffix
}

/// `part` stands in `s` at `at`.
pub open spec fn occurs_at(part: Seq<char>, s: Seq<char>, at: int) -> bool {
    0 <= at && at + part.len() <= s.len() && s.subrange(at, at + part.len()) == part
}

/// `part` stands somewhere in `s`.
pub open spec fn occurs_in(part: Seq<char>, s: Seq<char>) -> bool {
    exists|at: int| #[trigger] occurs_at(part, s, at)
}

/// The characters with Unicode's White_Space property.
pub open spec fn is_whitespace(c: char) -> bool {
    let code = c as u32;
    ||| 0x09 <= code <= 0x0d
    ||| code == 0x20
    ||| code == 0x85
    ||| code == 0xa0
    ||| code == 0x1680
    ||| 0x2000 <= code <= 0x200a
    ||| code == 0x2028
    ||| code == 0x2029
    ||| code == 0x202f
    ||| code == 0x205f
    ||| code == 0x3000
}

/// `s` without the whitespace at its front.
pub open spec fn trimmed_start(s: Seq<char>) -> Seq<char>
    decreases s.len(),
{
    if s.len() > 0 && is_whitespace(s.first()) {
        trimmed_start(s.drop_first())
    } else {
        s
    }
}

/// `s` without the whitespace at its end.
pub open spec fn trimmed_end(s: Seq<char>) -> Seq<char>
    decreases s.len(),
{
    if s.len() > 0 && is_whitespace(s.last()) {
        trimmed_end(s.drop_last())
    } else {
        s
    }
}

/// `s` without the whitespace at either end.
pub open spec fn trimmed(s: Seq<char>) -> Seq<char> {
    trimmed_end(trimmed_start(s))
}

/// An ASCII capital letter as its small letter; every other character as it is.
pub open spec fn ascii_lower_char(c: char) -> char {
    if 0x41 <= c as u32 <= 0x5a {
        ((c as u32 + 0x20) as u8) as char
    } else {
        c
    }
}

pub open spec fn ascii_lower(s: Seq<char>) -> Seq<char> {
    Seq::new(s.len(), |i: int| ascii_lower_char(s[i]))
}

/// `s` with every `from` written as `to`.
pub open spec fn char_replaced(s: Seq<char>, from: char, to: char) -> Seq<char> {
    Seq::new(s.len(), |i: int| if s[i] == from { to } else { s[i] })
}

pub open spec fn digit_char(digit: int) -> char {
    ((0x30 + digit) as u8) as char
}

/// The decimal digits of `n`, without leading zeros.
pub open spec fn decimal_nat(n: nat) -> Seq<char>
    decreases n,
{
    if n < 10 {
        seq![digit_char(n as int)]
    } else {
        decimal_nat(n / 10).push(digit_char((n % 10) as int))
    }
}

/// The decimal form of `n`, with a minus sign where it is negative.
pub open spec fn decimal(n: int) -> Seq<char> {
    if n < 0 {
        seq!['-'] + decimal_nat((-n) as nat)
    } else {
        decimal_nat(n as nat)
    }
}

/// The view of an optional text.
pub open spec fn text_opt(value: Option<String>) -> Option<Seq<char>> {
    match value {
        Some(text) => Some(text@),
        None => None,
    }
}

/// The view of an optional borrowed text.
pub open spec fn str_opt(value: Option<&str>) -> Option<Seq<char>> {
    match value {
        Some(text) => Some(text@),
        None => None,
    }
}

/// `String::push`: the character is appended to the text.
#[verifier::external_body]
pub(crate) fn push_char(text: &mut String, c: char)
    ensures
        final(text)@ == old(text)@.push(c),
{
    text.push(c)
}

pub fn same_text(a: &str, b: &str) -> (r: bool)
    ensures
        r == (a@ == b@),
{
    a.to_owned() == b.to_owned()
}

pub fn same_text_opt(a: &Option<String>, b: &Option<String>) -> (r: bool)
    ensures
        r == (text_opt(*a) == text_opt(*b)),
{
    match (a, b) {
        (Some(a), Some(b)) => same_text(a.as_str(), b.as_str()),
        (None, None) => true,
        _ => false,
    }
}

/// The characters of `s`, one after another.
pub fn chars_of(s: &str) -> (r: Vec<char>)
    ensures
        r@ == s@,
{
    let mut r: Vec<char> = Vec::new();
    for c in iter: s.chars()
        invariant
            r@ == iter.seq().subrange(0, iter.index()),
            iter.seq() == s@,
    {
        proof {
            assert(iter.seq().subrange(0, iter.index() + 1) =~= iter.seq().subrange(
                0,
                iter.index(),
            ).push(c));
        }
        r.push(c);
    }
    assert(s@.subrange(0, s@.len() as int) =~= s@);
    r
}

/// The characters from `from` up to `to` as a text.
pub fn text_between(chars: &Vec<char>, from: usize, to: usize) -> (r: String)
    requires
        from <= to <= chars.len(),
    ensures
        r@ == chars@.subrange(from as int, to as int),
{
    let mut r = String::new();
    let mut i: usize = from;
    while i < to
        invariant
            from <= i <= to <= chars.len(),
            r@ == chars@.subrange(from as int, i as int),
        decreases to - i,
    {
        assert(chars@.subrange(from as int, i + 1) =~= chars@.subrange(from as int, i as int).push(
            chars@[i as int],
        ));
        push_char(&mut r, chars[i]);
        i += 1;
    }
    r
}

/// Two texts, one behind the other.
pub fn joined(a: &str, b: &str) -> (r: String)
    ensures
        r@ == a@ + b@,
{
    let mut r = a.to_owned();
    r.append(b);
    r
}

pub fn starts_with(s: &str, prefix: &str) -> (r: bool)
    ensures
        r == is_prefix(prefix@, s@),
{
    let chars = chars_of(s);
    let wanted = chars_of(prefix);
    if wanted.len() > chars.len() {
        return false;
    }
    chars_match(&chars, &wanted, 0)
}

pub fn ends_with(s: &str, suffix: &str) -> (r: bool)
    ensures
        r == is_suffix(suffix@, s@),
{
    let chars = chars_of(s);
    let wanted = chars_of(suffix);
    if wanted.len() > chars.len() {
        return false;
    }
    let at: usize = chars.len() - wanted.len();
    chars_match(&chars, &wanted, at)
}

pub fn contains(s: &str, part: &str) -> (r: bool)
    ensures
        r == occurs_in(part@, s@),
{
    let chars = chars_of(s);
    let wanted = chars_of(part);
    if wanted.len() > chars.len() {
        return false;
    }
    let last: usize = chars.len() - wanted.len();
    let mut at: usize = 0;
    loop
        invariant
            at <= last,
            last == chars.len() - wanted.len(),
            chars@ == s@,
            wanted@ == part@,
            forall|k: int| 0 <= k < at ==> !#[trigger] occurs_at(part@, s@, k),
        decreases last - at,
    {
        if chars_match(&chars, &wanted, at) {
            assert(occurs_at(part@, s@, at as int));
            return true;
        }
        if at == last {
            return false;
        }
        at += 1;
    }
}

fn chars_match(chars: &Vec<char>, wanted: &Vec<char>, at: usize) -> (r: bool)
    requires
        at + wanted.len() <= chars.len(),
    ensures
        r == occurs_at(wanted@, chars@, at as int),
        at == 0 ==> r == is_prefix(wanted@, chars@),
        at == chars.len() - wanted.len() ==> r == is_suffix(wanted@, chars@),
{
    let mut i: usize = 0;
    while i < wanted.len()
        invariant
            i <= wanted.len(),
            at + wanted.len() <= chars.len(),
            forall|k: int| 0 <= k < i ==> chars@[at + k] == #[trigger] wanted@[k],
        decreases wanted.len() - i,
    {
        if chars[at + i] != wanted[i] {
            assert(chars@.subrange(at as int, at + wanted@.len())[i as int] != wanted@[i as int]);
            return false;
        }
        i += 1;
    }
    assert(chars@.subrange(at as int, at + wanted@.len()) =~= wanted@);
    true
}

pub fn char_is_whitespace(c: char) -> (r: bool)
    ensures
        r == is_whitespace(c),
{
    let code: u32 = c as u32;
    (0x09 <= code && code <= 0x0d) || code == 0x20 || code == 0x85 || code == 0xa0 || code == 0x1680
        || (0x2000 <= code && code <= 0x200a) || code == 0x2028 || code == 0x2029 || code == 0x202f
        || code == 0x205f || code == 0x3000
}

proof fn lemma_trimmed_start_skips(s: Seq<char>, from: int)
    requires
        0 <= from <= s.len(),
        forall|k: int| 0 <= k < from ==> is_whitespace(#[trigger] s[k]),
    ensures
        trimmed_start(s) == trimmed_start(s.subrange(from, s.len() as int)),
    decreases from,
{
    if from == 0 {
        assert(s.subrange(0, s.len() as int) =~= s);
    } else {
        assert(is_whitespace(s[0]));
        lemma_trimmed_start_skips(s.drop_first(), from - 1);
        assert(s.drop_first().subrange(from - 1, s.len() - 1) =~= s.subrange(from, s.len() as int));
    }
}

proof fn lemma_trimmed_end_skips(s: Seq<char>, to: int)
    requires
        0 <= to <= s.len(),
        forall|k: int| to <= k < s.len() ==> is_whitespace(#[trigger] s[k]),
    ensures
        trimmed_end(s) == trimmed_end(s.subrange(0, to)),
    decreases s.len() - to,
{
    if to == s.len() {
        assert(s.subrange(0, s.len() as int) =~= s);
    } else {
        assert(is_whitespace(s[s.len() - 1]));
        lemma_trimmed_end_skips(s.drop_last(), to);
        assert(s.drop_last().subrange(0, to) =~= s.subrange(0, to));
    }
}

pub fn trim_end(s: &str) -> (r: String)
    ensures
        r@ == trimmed_end(s@),
{
    let chars = chars_of(s);
    let mut to: usize = chars.len();
    while to > 0 && char_is_whitespace(chars[to - 1])
        invariant
            to <= chars.len(),
            chars@ == s@,
            forall|k: int| to <= k < chars.len() ==> is_whitespace(#[trigger] s@[k]),
        decreases to,
    {
        to -= 1;
    }
    proof {
        lemma_trimmed_end_skips(s@, to as int);
    }
    text_between(&chars, 0, to)
}

pub fn trim(s: &str) -> (r: String)
    ensures
        r@ == trimmed(s@),
{
    let chars = chars_of(s);
    let mut from: usize = 0;
    while from < chars.len() && char_is_whitespace(chars[from])
        invariant
            from <= chars.len(),
            chars@ == s@,
            forall|k: int| 0 <= k < from ==> is_whitespace(#[trigger] s@[k]),
        decreases chars.len() - from,
    {
        from += 1;
    }
    let ghost front = s@.subrange(from as int, s@.len() as int);
    proof {
        lemma_trimmed_start_skips(s@, from as int);
        if front.len() > 0 {
            assert(front.first() == s@[from as int]);
        }
        assert(trimmed_start(s@) == front);
    }
    let mut to: usize = chars.len();
    while to > from && char_is_whitespace(chars[to - 1])
        invariant
            from <= to <= chars.len(),
            chars@ == s@,
            front == s@.subrange(from as int, s@.len() as int),
            forall|k: int| to - from <= k < front.len() ==> is_whitespace(#[trigger] front[k]),
        decreases to,
    {
        assert(front[to - from - 1] == s@[to - 1]);
        to -= 1;
    }
    proof {
        lemma_trimmed_end_skips(front, to - from);
        assert(front.subrange(0, to - from) =~= s@.subrange(from as int, to as int));
        if to > from {
            assert(s@.subrange(from as int, to as int).last() == s@[to - 1]);
        }
    }
    text_between(&chars, from, to)
}

pub fn ascii_lowercase(s: &str) -> (r: String)
    ensures
        r@ == ascii_lower(s@),
{
    let chars = chars_of(s);
    let mut r = String::new();
    let mut i: usize = 0;
    while i < chars.len()
        invariant
            i <= chars.len(),
            chars@ == s@,
            r@ == ascii_lower(s@).subrange(0, i as int),
        decreases chars.len() - i,
    {
        let c = chars[i];
        let code: u32 = c as u32;
        let lower = if 0x41 <= code && code <= 0x5a {
            ((code + 0x20) as u8) as char
        } else {
            c
        };
        push_char(&mut r, lower);
        i += 1;
        assert(ascii_lower(s@).subrange(0, i as int) =~= ascii_lower(s@).subrange(0, i - 1).push(
            lower,
        ));
    }
    assert(ascii_lower(s@).subrange(0, s@.len() as int) =~= ascii_lower(s@));
    r
}

pub fn replace_char(s: &str, from: char, to: char) -> (r: String)
    ensures
        r@ == char_replaced(s@, from, to),
{
    let chars = chars_of(s);
    let mut r = String::new();
    let mut i: usize = 0;
    while i < chars.len()
        invariant
            i <= chars.len(),
            chars@ == s@,
            r@ == char_replaced(s@, from, to).subrange(0, i as int),
        decreases chars.len() - i,
    {
        let c = if chars[i] == from {
            to
        } else {
            chars[i]
        };
        push_char(&mut r, c);
        i += 1;
        assert(char_replaced(s@, from, to).subrange(0, i as int) =~= char_replaced(
            s@,
            from,
            to,
        ).subrange(0, i - 1).push(c));
    }
    assert(char_replaced(s@, from, to).subrange(0, s@.len() as int) =~= char_replaced(s@, from, to));
    r
}

/// The decimal form of a number that is not negative.
pub fn decimal_digits(n: u128) -> (r: String)
    ensures
        r@ == decimal_nat(n as nat),
    decreases n,
{
    let digit = ((0x30 + n % 10) as u8) as char;
    if n < 10 {
        let mut r = String::new();
        push_char(&mut r, digit);
        assert(r@ =~= decimal_nat(n as nat));
        r
    } else {
        let mut r = decimal_digits(n / 10);
        push_char(&mut r, digit);
        r
    }
}

/// The decimal form of `n`.
pub fn decimal_wide(n: i128) -> (r: String)
    ensures
        r@ == decimal(n as int),
{
    if n < 0 {
        let magnitude: u128 = (-(n + 1)) as u128 + 1;
        let mut r = String::new();
        push_char(&mut r, '-');
        let digits = decimal_digits(magnitude);
        r.append(digits.as_str());
        assert(r@ =~= seq!['-'] + decimal_nat(magnitude as nat));
        r
    } else {
        decimal_digits(n as u128)
    }
}

/// The decimal form of `n`.
pub fn decimal_text(n: i64) -> (r: String)
    ensures
        r@ == decimal(n as int),
{
    decimal_wide(n as i128)
}

// ---------------------------------------------------------------------------
// Lines, words and numbers
// ---------------------------------------------------------------------------

/// How many characters at the front do not satisfy `stop`.
pub open spec fn run_length(s: Seq<char>, stop: spec_fn(char) -> bool) -> nat
    decreases s.len(),
{
    if s.len() == 0 || stop(s.first()) {
        0
    } else {
        1 + run_length(s.drop_first(), stop)
    }
}

/// The run that ends at `n`, and not before.
pub proof fn lemma_run_length(s: Seq<char>, stop: spec_fn(char) -> bool, n: int)
    requires
        0 <= n <= s.len(),
        forall|k: int| 0 <= k < n ==> !stop(#[trigger] s[k]),
        n == s.len() || stop(s[n]),
    ensures
        run_length(s, stop) == n,
    decreases n,
{
    if n > 0 {
        assert(!stop(s[0]));
        let rest = s.drop_first();
        assert forall|k: int| 0 <= k < n - 1 implies !stop(#[trigger] rest[k]) by {
            assert(rest[k] == s[k + 1]);
        }
        lemma_run_length(rest, stop, n - 1);
    }
}

pub proof fn lemma_run_length_bound(s: Seq<char>, stop: spec_fn(char) -> bool)
    ensures
        run_length(s, stop) <= s.len(),
    decreases s.len(),
{
    if s.len() > 0 && !stop(s.first()) {
        lemma_run_length_bound(s.drop_first(), stop);
    }
}

pub open spec fn is_line_feed() -> spec_fn(char) -> bool {
    |c: char| c == '\n'
}

/// The first line, without the line feed that ends it and a carriage return before that.
pub open spec fn first_line(s: Seq<char>) -> Seq<char> {
    let end = run_length(s, is_line_feed()) as int;
    if end < s.len() && end > 0 && s[end - 1] == '\r' {
        s.subrange(0, end - 1)
    } else {
        s.subrange(0, end)
    }
}

pub open spec fn is_space() -> spec_fn(char) -> bool {
    |c: char| is_whitespace(c)
}

/// The first word: what stands between the leading whitespace and the next one.
pub open spec fn first_word(s: Seq<char>) -> Seq<char> {
    let front = trimmed_start(s);
    front.subrange(0, run_length(front, is_space()) as int)
}

pub open spec fn is_digit(c: char) -> bool {
    0x30 <= c as u32 <= 0x39
}

/// The number that some decimal digits are; nothing where there are none or others.
pub open spec fn digits_value(s: Seq<char>) -> Option<nat>
    decreases s.len(),
{
    if s.len() == 0 {
        None
    } else if !is_digit(s.last()) {
        None
    } else {
        let digit = (s.last() as u32 - 0x30) as nat;
        if s.len() == 1 {
            Some(digit)
        } else {
            match digits_value(s.drop_last()) {
                Some(front) => Some(front * 10 + digit),
                None => None,
            }
        }
    }
}

/// The decimal form of a number is made of digits, and reads as the number.
pub proof fn lemma_decimal_digits(n: nat)
    ensures
        decimal_nat(n).len() > 0,
        forall|k: int| 0 <= k < decimal_nat(n).len() ==> is_digit(#[trigger] decimal_nat(n)[k]),
        digits_value(decimal_nat(n)) == Some(n),
    decreases n,
{
    let digit = n % 10;
    let c = digit_char(digit as int);
    assert(c as u32 == 0x30 + digit);
    if n >= 10 {
        lemma_decimal_digits(n / 10);
        let front = decimal_nat(n / 10);
        assert(decimal_nat(n).drop_last() =~= front);
        assert forall|k: int| 0 <= k < decimal_nat(n).len() implies is_digit(
            #[trigger] decimal_nat(n)[k],
        ) by {
            if k < front.len() {
                assert(decimal_nat(n)[k] == front[k]);
            }
        }
    }
}

/// The number below `limit` that a decimal numeral is, with or without a plus sign.
pub open spec fn numeral_value(s: Seq<char>, limit: nat) -> Option<nat> {
    let digits = if s.len() > 0 && s.first() == '+' {
        s.drop_first()
    } else {
        s
    };
    match digits_value(digits) {
        Some(value) => if value < limit {
            Some(value)
        } else {
            None
        },
        None => None,
    }
}

/// Where the line that starts at `from` ends.
pub fn line_feed_at(chars: &Vec<char>, from: usize) -> (r: usize)
    requires
        from <= chars.len(),
    ensures
        from <= r <= chars.len(),
        run_length(chars@.subrange(from as int, chars.len() as int), is_line_feed()) == r - from,
        r < chars.len() ==> chars@[r as int] == '\n',
{
    let ghost rest = chars@.subrange(from as int, chars.len() as int);
    let mut i: usize = from;
    while i < chars.len() && chars[i] != '\n'
        invariant
            from <= i <= chars.len(),
            rest == chars@.subrange(from as int, chars.len() as int),
            forall|k: int| 0 <= k < i - from ==> !is_line_feed()(#[trigger] rest[k]),
        decreases chars.len() - i,
    {
        i += 1;
    }
    proof {
        lemma_run_length(rest, is_line_feed(), i - from);
    }
    i
}

/// The first line of a text; nothing where the text is empty.
pub fn first_line_of(text: &str) -> (r: Option<String>)
    ensures
        match r {
            Some(line) => text@.len() > 0 && line@ == first_line(text@),
            None => text@.len() == 0,
        },
{
    let chars = chars_of(text);
    if chars.len() == 0 {
        return None;
    }
    assert(chars@.subrange(0, chars.len() as int) =~= chars@);
    let end: usize = line_feed_at(&chars, 0);
    if end < chars.len() && end > 0 && chars[end - 1] == '\r' {
        Some(text_between(&chars, 0, end - 1))
    } else {
        Some(text_between(&chars, 0, end))
    }
}

/// The first word of a part of a text.
fn word_of(chars: &Vec<char>, from: usize, to: usize) -> (r: Vec<char>)
    requires
        from <= to <= chars.len(),
    ensures
        r@ == first_word(chars@.subrange(from as int, to as int)),
{
    let ghost s = chars@.subrange(from as int, to as int);
    let mut start: usize = from;
    while start < to && char_is_whitespace(chars[start])
        invariant
            from <= start <= to <= chars.len(),
            s == chars@.subrange(from as int, to as int),
            forall|k: int| 0 <= k < start - from ==> is_whitespace(#[trigger] s[k]),
        decreases to - start,
    {
        assert(s[start - from] == chars@[start as int]);
        start += 1;
    }
    let ghost front = s.subrange(start - from, s.len() as int);
    proof {
        lemma_trimmed_start_skips(s, start - from);
        if front.len() > 0 {
            assert(front.first() == chars@[start as int]);
        }
        assert(trimmed_start(s) == front);
    }
    let mut r: Vec<char> = Vec::new();
    let mut i: usize = start;
    assert(r@ =~= front.subrange(0, 0));
    while i < to && !char_is_whitespace(chars[i])
        invariant
            from <= start <= i <= to <= chars.len(),
            s == chars@.subrange(from as int, to as int),
            front == s.subrange(start - from, s.len() as int),
            r@ == front.subrange(0, i - start),
            forall|k: int| 0 <= k < i - start ==> !is_space()(#[trigger] front[k]),
        decreases to - i,
    {
        assert(front[i - start] == chars@[i as int]);
        r.push(chars[i]);
        i += 1;
        assert(front.subrange(0, i - start) =~= front.subrange(0, i - start - 1).push(
            front[i - start - 1],
        ));
    }
    proof {
        if i < to {
            assert(front[i - start] == chars@[i as int]);
        }
        lemma_run_length(front, is_space(), i - start);
    }
    r
}

/// The `u32` that a numeral is.
fn numeral_u32(chars: &Vec<char>) -> (r: Option<u32>)
    ensures
        match r {
            Some(value) => numeral_value(chars@, 0x1_0000_0000) == Some(value as nat),
            None => numeral_value(chars@, 0x1_0000_0000) is None,
        },
{
    let from: usize = if chars.len() > 0 && chars[0] == '+' {
        1
    } else {
        0
    };
    let ghost digits = if chars@.len() > 0 && chars@.first() == '+' {
        chars@.drop_first()
    } else {
        chars@
    };
    assert(digits =~= chars@.subrange(from as int, chars.len() as int));
    if from == chars.len() {
        return None;
    }
    let mut value: u64 = 0;
    let mut overflow = false;
    let mut i: usize = from;
    while i < chars.len()
        invariant
            from <= i <= chars.len(),
            from < chars.len(),
            digits == chars@.subrange(from as int, chars.len() as int),
            digits == (if chars@.len() > 0 && chars@.first() == '+' {
                chars@.drop_first()
            } else {
                chars@
            }),
            value < 0x1_0000_0000,
            i == from ==> !overflow && value == 0,
            i > from ==> digits_value(digits.take(i - from)) is Some,
            i > from && !overflow ==> digits_value(digits.take(i - from)) == Some(value as nat),
            i > from && overflow ==> digits_value(digits.take(i - from))->0 >= 0x1_0000_0000,
        decreases chars.len() - i,
    {
        let code: u32 = chars[i] as u32;
        let ghost front = digits.take(i - from);
        let ghost next = digits.take(i - from + 1);
        assert(next.drop_last() =~= front);
        assert(next.last() == chars@[i as int]);
        if code < 0x30 || code > 0x39 {
            proof {
                lemma_bad_digit(digits, i - from);
            }
            return None;
        }
        let digit: u64 = (code - 0x30) as u64;
        if !overflow {
            let wide: u64 = value * 10 + digit;
            if wide >= 0x1_0000_0000 {
                overflow = true;
            } else {
                value = wide;
            }
        }
        i += 1;
    }
    assert(digits.take(digits.len() as int) =~= digits);
    if overflow {
        None
    } else {
        Some(value as u32)
    }
}

proof fn lemma_bad_digit(s: Seq<char>, at: int)
    requires
        0 <= at < s.len(),
        !is_digit(s[at]),
    ensures
        digits_value(s) is None,
    decreases s.len(),
{
    if at < s.len() - 1 {
        lemma_bad_digit(s.drop_last(), at);
    }
}

/// The number behind the key at the front of the first line that has one.
pub open spec fn keyed_number(s: Seq<char>, key: Seq<char>) -> Option<nat>
    decreases s.len(),
{
    if s.len() == 0 {
        None
    } else {
        let end = run_length(s, is_line_feed()) as int;
        let line = s.subrange(0, end);
        let found = if is_prefix(key, line) {
            numeral_value(
                first_word(line.subrange(key.len() as int, line.len() as int)),
                0x1_0000_0000,
            )
        } else {
            None
        };
        match found {
            Some(value) => Some(value),
            None => if 0 <= end < s.len() {
                keyed_number(s.subrange(end + 1, s.len() as int), key)
            } else {
                None
            },
        }
    }
}

/// Reads the number behind the key at the front of the first line that has one.
pub fn read_keyed_number(text: &str, key: &str) -> (r: Option<u32>)
    ensures
        match r {
            Some(value) => keyed_number(text@, key@) == Some(value as nat),
            None => keyed_number(text@, key@) is None,
        },
{
    let chars = chars_of(text);
    let wanted = chars_of(key);
    let mut from: usize = 0;
    assert(chars@.subrange(0, chars.len() as int) =~= chars@);
    while from < chars.len()
        invariant
            from <= chars.len(),
            chars@ == text@,
            wanted@ == key@,
            keyed_number(text@, key@) == keyed_number(
                chars@.subrange(from as int, chars.len() as int),
                key@,
            ),
        decreases chars.len() - from,
    {
        let ghost rest = chars@.subrange(from as int, chars.len() as int);
        let end: usize = line_feed_at(&chars, from);
        let ghost line = rest.subrange(0, end - from);
        assert(line =~= chars@.subrange(from as int, end as int));
        let found = if wanted.len() <= end - from && chars_match(&chars, &wanted, from) {
            assert(line.subrange(0, wanted@.len() as int) =~= chars@.subrange(
                from as int,
                from + wanted@.len(),
            ));
            assert(line.subrange(wanted@.len() as int, line.len() as int) =~= chars@.subrange(
                from + wanted@.len(),
                end as int,
            ));
            let word = word_of(&chars, from + wanted.len(), end);
            numeral_u32(&word)
        } else {
            assert(!is_prefix(key@, line)) by {
                if is_prefix(key@, line) {
                    assert(chars@.subrange(from as int, from + wanted@.len()) =~= line.subrange(
                        0,
                        wanted@.len() as int,
                    ));
                }
            }
            None
        };
        if let Some(value) = found {
            return Some(value);
        }
        if end == chars.len() {
            return None;
        }
        assert(rest.subrange(end - from + 1, rest.len() as int) =~= chars@.subrange(
            end + 1,
            chars.len() as int,
        ));
        from = end + 1;
    }
    None
}

// ---------------------------------------------------------------------------
// The order of texts
// ---------------------------------------------------------------------------

/// `a` stands before `b` in the order of their characters.
pub open spec fn precedes(a: Seq<char>, b: Seq<char>) -> bool
    decreases a.len(),
{
    if b.len() == 0 {
        false
    } else if a.len() == 0 {
        true
    } else if a[0] != b[0] {
        (a[0] as int) < (b[0] as int)
    } else {
        precedes(a.drop_first(), b.drop_first())
    }
}

proof fn lemma_precedes_total(a: Seq<char>, b: Seq<char>)
    ensures
        precedes(a, b) ==> !precedes(b, a),
        !precedes(a, b) && !precedes(b, a) ==> a == b,
    decreases a.len(),
{
    if a.len() > 0 && b.len() > 0 {
        lemma_precedes_total(a.drop_first(), b.drop_first());
        if a[0] == b[0] && a.drop_first() == b.drop_first() {
            assert(a =~= seq![a[0]] + a.drop_first());
            assert(b =~= seq![b[0]] + b.drop_first());
        }
    } else if a.len() == 0 && b.len() == 0 {
        assert(a =~= b);
    }
}

proof fn lemma_precedes_transitive(a: Seq<char>, b: Seq<char>, c: Seq<char>)
    requires
        precedes(a, b),
        precedes(b, c),
    ensures
        precedes(a, c),
    decreases a.len(),
{
    if a.len() > 0 && a[0] == b[0] && b[0] == c[0] {
        lemma_precedes_transitive(a.drop_first(), b.drop_first(), c.drop_first());
    }
}

/// Texts are in a total order: of two that differ, one precedes the other.
pub proof fn lemma_precedes_is_order(a: Seq<char>, b: Seq<char>, c: Seq<char>)
    ensures
        precedes(a, b) ==> !precedes(b, a),
        precedes(a, b) && precedes(b, c) ==> precedes(a, c),
        !precedes(a, b) && !precedes(b, c) ==> !precedes(a, c),
        !precedes(a, b) && !precedes(b, a) ==> a == b,
{
    lemma_precedes_total(a, b);
    lemma_precedes_total(b, c);
    lemma_precedes_total(a, c);
    if precedes(a, b) && precedes(b, c) {
        lemma_precedes_transitive(a, b, c);
    }
    if !precedes(a, b) && !precedes(b, c) && precedes(a, c) && precedes(c, b) {
        lemma_precedes_transitive(a, c, b);
    }
}

pub fn comes_before(a: &str, b: &str) -> (r: bool)
    ensures
        r == precedes(a@, b@),
{
    let left = chars_of(a);
    let right = chars_of(b);
    let mut i: usize = 0;
    assert(left@.skip(0) =~= left@);
    assert(right@.skip(0) =~= right@);
    while i < left.len() && i < right.len()
        invariant
            i <= left.len(),
            i <= right.len(),
            left@ == a@,
            right@ == b@,
            precedes(a@, b@) == precedes(left@.skip(i as int), right@.skip(i as int)),
        decreases left.len() - i,
    {
        assert(left@.skip(i as int)[0] == left@[i as int]);
        assert(right@.skip(i as int)[0] == right@[i as int]);
        let x: char = left[i];
        let y: char = right[i];
        if x != y {
            return x < y;
        }
        assert(left@.skip(i as int).drop_first() =~= left@.skip(i + 1));
        assert(right@.skip(i as int).drop_first() =~= right@.skip(i + 1));
        i += 1;
    }
    i < right.len()
}

/// Trimming cuts whitespace from the front and nothing else: what is left ends the text and
/// begins with no whitespace.
pub proof fn lemma_trimmed_start_cuts_whitespace(s: Seq<char>)
    ensures
        ({
            let cut = s.len() - trimmed_start(s).len();
            &&& 0 <= cut <= s.len()
            &&& trimmed_start(s) == s.subrange(cut, s.len() as int)
            &&& forall|i: int| 0 <= i < cut ==> is_whitespace(#[trigger] s[i])
            &&& cut < s.len() ==> !is_whitespace(s[cut])
        }),
    decreases s.len(),
{
    if s.len() > 0 && is_whitespace(s.first()) {
        let rest = s.drop_first();
        lemma_trimmed_start_cuts_whitespace(rest);
        let cut = s.len() - trimmed_start(s).len();
        assert(trimmed_start(s) =~= s.subrange(cut, s.len() as int));
        assert forall|i: int| 0 <= i < cut implies is_whitespace(#[trigger] s[i]) by {
            if i > 0 {
                assert(rest[i - 1] == s[i]);
            }
        }
        if cut < s.len() {
            assert(rest[cut - 1] == s[cut]);
        }
    } else {
        assert(s =~= s.subrange(0, s.len() as int));
    }
}

/// Trimming cuts whitespace from the end and nothing else: what is left begins the text and
/// ends with no whitespace.
pub proof fn lemma_trimmed_end_cuts_whitespace(s: Seq<char>)
    ensures
        ({
            let end = trimmed_end(s).len() as int;
            &&& end <= s.len()
            &&& trimmed_end(s) == s.subrange(0, end)
            &&& forall|i: int| end <= i < s.len() ==> is_whitespace(#[trigger] s[i])
            &&& end > 0 ==> !is_whitespace(s[end - 1])
        }),
    decreases s.len(),
{
    if s.len() > 0 && is_whitespace(s.last()) {
        let rest = s.drop_last();
        lemma_trimmed_end_cuts_whitespace(rest);
        let end = trimmed_end(s).len() as int;
        assert(trimmed_end(s) =~= s.subrange(0, end));
        assert forall|i: int| end <= i < s.len() implies is_whitespace(#[trigger] s[i]) by {
            if i < rest.len() {
                assert(rest[i] == s[i]);
            }
        }
        if end > 0 {
            assert(rest[end - 1] == s[end - 1]);
        }
    } else {
        assert(s =~= s.subrange(0, s.len() as int));
    }
}

/// A trimmed text is a part of the text with only whitespace before and behind it, and has
/// none at either end.
pub proof fn lemma_trimmed_cuts_whitespace(s: Seq<char>)
    ensures
        ({
            let cut = s.len() - trimmed_start(s).len();
            let end = cut + trimmed(s).len();
            &&& 0 <= cut <= end <= s.len()
            &&& trimmed(s) == s.subrange(cut, end)
            &&& forall|i: int| 0 <= i < s.len() && (i < cut || end <= i) ==> is_whitespace(
                #[trigger] s[i],
            )
            &&& cut < end ==> !is_whitespace(s[cut]) && !is_whitespace(s[end - 1])
        }),
{
    lemma_trimmed_start_cuts_whitespace(s);
    let front = trimmed_start(s);
    lemma_trimmed_end_cuts_whitespace(front);
    let cut = s.len() - front.len();
    let end = cut + trimmed(s).len();
    assert(trimmed(s) =~= s.subrange(cut, end));
    assert forall|i: int| 0 <= i < s.len() && (i < cut || end <= i) implies is_whitespace(
        #[trigger] s[i],
    ) by {
        if i >= end {
            assert(front[i - cut] == s[i]);
        }
    }
    if cut < end {
        assert(front[end - cut - 1] == s[end - 1]);
    }
}

/// Small letters stand for the capitals of the ASCII alphabet, and all else stands for itself.
pub proof fn lemma_lower_case_keeps_all_but_capitals(s: Seq<char>)
    ensures
        ascii_lower(s).len() == s.len(),
        forall|i: int|
            0 <= i < s.len() ==> {
                let c = s[i];
                let small = #[trigger] ascii_lower(s)[i];
                &&& 65 <= c as u32 <= 90 ==> small as u32 == c as u32 + 32
                &&& !(65 <= c as u32 <= 90) ==> small == c
            },
{
    assert forall|i: int| 0 <= i < s.len() implies {
        let c = s[i];
        let small = #[trigger] ascii_lower(s)[i];
        &&& 65 <= c as u32 <= 90 ==> small as u32 == c as u32 + 32
        &&& !(65 <= c as u32 <= 90) ==> small == c
    } by {
        assert(ascii_lower(s)[i] == ascii_lower_char(s[i]));
    }
}

/// A run stops at the first character that it is to stop at, or at the end.
pub proof fn lemma_run_stops_at_the_first(s: Seq<char>, stop: spec_fn(char) -> bool)
    ensures
        run_length(s, stop) <= s.len(),
        forall|i: int| 0 <= i < run_length(s, stop) ==> !stop(#[trigger] s[i]),
        run_length(s, stop) < s.len() ==> stop(s[run_length(s, stop) as int]),
    decreases s.len(),
{
    if s.len() > 0 && !stop(s.first()) {
        let rest = s.drop_first();
        lemma_run_stops_at_the_first(rest, stop);
        assert forall|i: int| 0 <= i < run_length(s, stop) implies !stop(#[trigger] s[i]) by {
            if i > 0 {
                assert(rest[i - 1] == s[i]);
            }
        }
    }
}

} // verus!
