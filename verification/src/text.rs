//! Text as sequences of characters: the string operations every other module is built from.
use vstd::prelude::*;

verus! {

/// `String::push` appends one character to the end of the string.
pub assume_specification[ String::push ](text: &mut String, c: char)
    ensures
        final(text)@ == old(text)@.push(c),
;

/// The characters of `text`.
pub fn chars(text: &str) -> (r: Vec<char>)
    ensures
        r@ == text@,
{
    let mut all: Vec<char> = Vec::new();
    for c in it: text.chars()
        invariant
            it.seq() == text@,
            all@ == text@.take(it.index() as int),
    {
        all.push(c);
        proof {
            assert(text@.take(it.index() + 1) =~= text@.take(it.index() as int).push(c));
        }
    }
    proof {
        assert(text@.take(text@.len() as int) =~= text@);
    }
    all
}

/// The string of the characters from `from` up to `to`.
pub fn string(all: &Vec<char>, from: usize, to: usize) -> (r: String)
    requires
        from <= to <= all@.len(),
    ensures
        r@ == all@.subrange(from as int, to as int),
{
    let mut text = String::new();
    let mut i: usize = from;
    while i < to
        invariant
            from <= i <= to <= all@.len(),
            text@ == all@.subrange(from as int, i as int),
        decreases to - i,
    {
        text.push(all[i]);
        i = i + 1;
        proof {
            assert(all@.subrange(from as int, i as int) =~= all@.subrange(
                from as int,
                i - 1,
            ).push(all@[i - 1]));
        }
    }
    text
}

/// Whether the two texts hold the same characters.
pub fn same(a: &str, b: &str) -> (r: bool)
    ensures
        r == (a@ == b@),
{
    let left = a.as_bytes();
    let right = b.as_bytes();
    proof {
        vstd::utf8::encode_utf8_decode_utf8(a@);
        vstd::utf8::encode_utf8_decode_utf8(b@);
    }
    if left.len() != right.len() {
        return false;
    }
    let mut i: usize = 0;
    while i < left.len()
        invariant
            i <= left@.len() == right@.len(),
            left@ == vstd::utf8::encode_utf8(a@),
            right@ == vstd::utf8::encode_utf8(b@),
            forall|k: int| 0 <= k < i ==> left@[k] == right@[k],
        decreases left@.len() - i,
    {
        if left[i] != right[i] {
            return false;
        }
        i = i + 1;
    }
    proof {
        assert(left@ =~= right@);
    }
    true
}

/// `a` followed by `b`.
pub fn joined(a: &str, b: &str) -> (r: String)
    ensures
        r@ == a@ + b@,
{
    let mut text = a.to_owned();
    text.append(b);
    text
}

/// A decimal digit.
pub open spec fn is_digit(c: char) -> bool {
    '0' <= c <= '9'
}

/// Nothing but decimal digits.
pub open spec fn all_digits(s: Seq<char>) -> bool {
    forall|i: int| 0 <= i < s.len() ==> is_digit(#[trigger] s[i])
}

/// The decimal digit of `d`, for `d` below ten.
pub open spec fn digit(d: nat) -> char {
    (48 + d) as char
}

/// The number a run of decimal digits stands for; no digits stand for zero.
pub open spec fn number(s: Seq<char>) -> nat
    decreases s.len(),
{
    if s.len() == 0 {
        0
    } else {
        number(s.drop_last()) * 10 + (s.last() as nat - 48) as nat
    }
}

/// The decimal digits of `n` without leading zeros.
pub open spec fn decimal(n: nat) -> Seq<char>
    decreases n,
{
    if n < 10 {
        seq![digit(n)]
    } else {
        decimal(n / 10).push(digit(n % 10))
    }
}

/// Writing a number in decimal and reading it back gives the number.
pub proof fn decimal_reads_back(n: nat)
    ensures
        all_digits(decimal(n)),
        decimal(n).len() > 0,
        number(decimal(n)) == n,
    decreases n,
{
    if n < 10 {
        assert(decimal(n).drop_last() =~= Seq::empty());
        assert(number(decimal(n).drop_last()) == 0);
    } else {
        decimal_reads_back(n / 10);
        let s = decimal(n / 10);
        assert(s.push(digit(n % 10)).drop_last() =~= s);
    }
}

/// More digits never make a smaller number.
pub proof fn number_grows(s: Seq<char>, n: int)
    requires
        all_digits(s),
        0 <= n <= s.len(),
    ensures
        number(s.take(n)) <= number(s),
    decreases s.len(),
{
    if n == s.len() {
        assert(s.take(n) =~= s);
    } else {
        assert(s.take(n) =~= s.drop_last().take(n));
        number_grows(s.drop_last(), n);
    }
}

/// The decimal digits of `n`.
pub fn decimal_text(n: u64) -> (r: String)
    ensures
        r@ == decimal(n as nat),
    decreases n,
{
    let mut text = if n < 10 {
        String::new()
    } else {
        decimal_text(n / 10)
    };
    let d: u8 = 48 + (n % 10) as u8;
    text.push(d as char);
    proof {
        if n < 10 {
            assert(text@ =~= seq![digit(n as nat)]);
        }
    }
    text
}

/// Whether `c` is one of `0` to `9`.
pub fn digit_char(c: char) -> (r: bool)
    ensures
        r == is_digit(c),
{
    '0' <= c && c <= '9'
}

/// The value of the digits from `from` up to `to`, unless it is beyond `u64`.
pub fn parse_number(all: &Vec<char>, from: usize, to: usize) -> (r: Option<u64>)
    requires
        from <= to <= all@.len(),
        all_digits(all@.subrange(from as int, to as int)),
    ensures
        match r {
            Some(n) => n == number(all@.subrange(from as int, to as int)),
            None => number(all@.subrange(from as int, to as int)) > u64::MAX,
        },
{
    let ghost digits = all@.subrange(from as int, to as int);
    let mut n: u64 = 0;
    let mut i: usize = from;
    while i < to
        invariant
            from <= i <= to <= all@.len(),
            digits == all@.subrange(from as int, to as int),
            all_digits(digits),
            n == number(digits.take(i - from)),
        decreases to - i,
    {
        let ghost k: int = i - from;
        proof {
            assert(all@[i as int] == digits[k]);
            assert(digits.take(k + 1).drop_last() =~= digits.take(k));
            assert(digits.take(k + 1).last() == digits[k]);
            number_grows(digits, k + 1);
        }
        let d: u64 = all[i] as u64 - 48;
        match n.checked_mul(10) {
            Some(tens) => match tens.checked_add(d) {
                Some(sum) => {
                    n = sum;
                },
                None => {
                    return None;
                },
            },
            None => {
                return None;
            },
        }
        i = i + 1;
    }
    proof {
        assert(digits.take(digits.len() as int) =~= digits);
    }
    Some(n)
}

/// The position of the first `c` in `s`; the length of `s` where there is none.
pub open spec fn first_of(s: Seq<char>, c: char) -> int
    decreases s.len(),
{
    if s.len() == 0 {
        0
    } else if s[0] == c {
        0
    } else {
        1 + first_of(s.skip(1), c)
    }
}

/// `first_of` is the one position before which `c` does not occur and where it does.
pub proof fn first_of_is(s: Seq<char>, c: char, n: int)
    requires
        0 <= n <= s.len(),
        forall|i: int| 0 <= i < n ==> s[i] != c,
        n < s.len() ==> s[n] == c,
    ensures
        first_of(s, c) == n,
    decreases s.len(),
{
    if s.len() > 0 && s[0] != c {
        assert forall|i: int| 0 <= i < n - 1 implies s.skip(1)[i] != c by {
            assert(s.skip(1)[i] == s[i + 1]);
        }
        first_of_is(s.skip(1), c, n - 1);
    }
}

/// The parts of `s` between occurrences of `c`: one more than there are occurrences.
pub open spec fn parts(s: Seq<char>, c: char) -> Seq<Seq<char>>
    decreases s.len(),
{
    let n = first_of(s, c);
    if 0 <= n < s.len() {
        seq![s.take(n)] + parts(s.skip(n + 1), c)
    } else {
        seq![s]
    }
}

/// A part without `c` that is added behind a `c` is the last part.
pub proof fn parts_go_on(s: Seq<char>, c: char, last: Seq<char>)
    requires
        forall|i: int| 0 <= i < last.len() ==> last[i] != c,
    ensures
        parts(s + seq![c] + last, c) == parts(s, c).push(last),
    decreases s.len(),
{
    let n = first_of(s, c);
    let all = s + seq![c] + last;
    first_of_bounds(s, c);
    if n < s.len() {
        let rest = s.skip(n + 1);
        assert forall|i: int| 0 <= i < n implies all[i] != c by {
            assert(all[i] == s[i]);
        }
        first_of_is(all, c, n);
        assert(all.skip(n + 1) =~= rest + seq![c] + last);
        assert(all.take(n) =~= s.take(n));
        parts_go_on(rest, c, last);
        assert(parts(all, c) =~= parts(s, c).push(last));
    } else {
        assert forall|i: int| 0 <= i < s.len() implies all[i] != c by {
            assert(all[i] == s[i]);
        }
        first_of_is(all, c, s.len() as int);
        assert(all.take(s.len() as int) =~= s);
        assert(all.skip(s.len() as int + 1) =~= last);
        first_of_is(last, c, last.len() as int);
        assert(parts(last, c) =~= seq![last]);
        assert(parts(all, c) == seq![all.take(s.len() as int)] + parts(
            all.skip(s.len() as int + 1),
            c,
        ));
        assert(parts(all, c) =~= seq![s, last]);
        assert(parts(s, c).push(last) =~= seq![s, last]);
    }
}

/// `first_of` is the length of the characters before the first `c`.
pub proof fn first_of_bounds(s: Seq<char>, c: char)
    ensures
        0 <= first_of(s, c) <= s.len(),
        first_of(s, c) < s.len() ==> s[first_of(s, c)] == c,
        forall|i: int| 0 <= i < first_of(s, c) ==> s[i] != c,
    decreases s.len(),
{
    if s.len() > 0 && s[0] != c {
        first_of_bounds(s.skip(1), c);
        assert forall|i: int| 0 <= i < first_of(s, c) implies s[i] != c by {
            if i > 0 {
                assert(s[i] == s.skip(1)[i - 1]);
            }
        }
    }
}

/// There is always a part.
pub proof fn parts_are_some(s: Seq<char>, c: char)
    ensures
        parts(s, c).len() > 0,
{
}

/// No part holds `c`.
pub proof fn parts_are_free(s: Seq<char>, c: char, k: int)
    requires
        0 <= k < parts(s, c).len(),
    ensures
        forall|i: int| 0 <= i < parts(s, c)[k].len() ==> parts(s, c)[k][i] != c,
    decreases s.len(),
{
    let n = first_of(s, c);
    first_of_bounds(s, c);
    if n < s.len() && k > 0 {
        parts_are_free(s.skip(n + 1), c, k - 1);
        assert(parts(s, c)[k] == parts(s.skip(n + 1), c)[k - 1]);
    }
}

/// Where `c` first occurs at or after `from`; the length where it does not.
pub fn find_char(all: &Vec<char>, from: usize, c: char) -> (r: usize)
    requires
        from <= all@.len(),
    ensures
        from <= r <= all@.len(),
        r - from == first_of(all@.skip(from as int), c),
        r < all@.len() ==> all@[r as int] == c,
        forall|i: int| from <= i < r ==> all@[i] != c,
{
    let mut i: usize = from;
    while i < all.len() && all[i] != c
        invariant
            from <= i <= all@.len(),
            forall|k: int| from <= k < i ==> all@[k] != c,
        decreases all@.len() - i,
    {
        i = i + 1;
    }
    proof {
        first_of_is(all@.skip(from as int), c, i - from);
    }
    i
}

/// The views of a list of strings.
pub open spec fn views(list: Seq<String>) -> Seq<Seq<char>> {
    list.map_values(|t: String| t@)
}

/// The parts of `text` between occurrences of `c`.
pub fn split(text: &str, c: char) -> (r: Vec<String>)
    ensures
        views(r@) == parts(text@, c),
{
    let all = chars(text);
    let mut list: Vec<String> = Vec::new();
    let mut from: usize = 0;
    proof {
        assert(all@.skip(0) =~= text@);
        assert(views(list@) + parts(text@, c) =~= parts(text@, c));
    }
    loop
        invariant
            from <= all@.len(),
            all@ == text@,
            views(list@) + parts(all@.skip(from as int), c) == parts(text@, c),
        decreases all@.len() - from,
    {
        let to = find_char(&all, from, c);
        let ghost rest = all@.skip(from as int);
        let ghost before = list@;
        proof {
            assert(rest.take(to - from) =~= all@.subrange(from as int, to as int));
            assert(to < all@.len() ==> rest.skip(to - from + 1) =~= all@.skip(to + 1));
        }
        list.push(string(&all, from, to));
        proof {
            assert(views(list@) =~= views(before).push(rest.take(to - from)));
        }
        if to == all.len() {
            proof {
                assert(rest.take(to - from) =~= rest);
                assert(views(list@) =~= views(before) + seq![rest]);
            }
            return list;
        }
        proof {
            assert(views(list@) + parts(all@.skip(to + 1), c) =~= views(before) + (seq![
                rest.take(to - from),
            ] + parts(all@.skip(to + 1), c)));
        }
        from = to + 1;
    }
}

/// Characters with the Unicode property White_Space.
pub open spec fn is_white_space(c: char) -> bool {
    ||| '\u{9}' <= c <= '\u{d}'
    ||| c == ' '
    ||| c == '\u{85}'
    ||| c == '\u{a0}'
    ||| c == '\u{1680}'
    ||| '\u{2000}' <= c <= '\u{200a}'
    ||| c == '\u{2028}'
    ||| c == '\u{2029}'
    ||| c == '\u{202f}'
    ||| c == '\u{205f}'
    ||| c == '\u{3000}'
}

/// Whether `c` has the Unicode property White_Space.
pub fn white_space(c: char) -> (r: bool)
    ensures
        r == is_white_space(c),
{
    ('\u{9}' <= c && c <= '\u{d}') || c == ' ' || c == '\u{85}' || c == '\u{a0}' || c == '\u{1680}'
        || ('\u{2000}' <= c && c <= '\u{200a}') || c == '\u{2028}' || c == '\u{2029}' || c
        == '\u{202f}' || c == '\u{205f}' || c == '\u{3000}'
}

/// `s` without white space at its start.
pub open spec fn trimmed_start(s: Seq<char>) -> Seq<char>
    decreases s.len(),
{
    if s.len() > 0 && is_white_space(s[0]) {
        trimmed_start(s.skip(1))
    } else {
        s
    }
}

/// `s` without white space at its end.
pub open spec fn trimmed_end(s: Seq<char>) -> Seq<char>
    decreases s.len(),
{
    if s.len() > 0 && is_white_space(s.last()) {
        trimmed_end(s.drop_last())
    } else {
        s
    }
}

/// `s` without white space at either end.
pub open spec fn trimmed(s: Seq<char>) -> Seq<char> {
    trimmed_end(trimmed_start(s))
}

/// Where the characters from `from` up to `to` end without white space at their end.
pub fn trim_end(all: &Vec<char>, from: usize, to: usize) -> (r: usize)
    requires
        from <= to <= all@.len(),
    ensures
        from <= r <= to,
        all@.subrange(from as int, r as int) == trimmed_end(
            all@.subrange(from as int, to as int),
        ),
{
    let mut end: usize = to;
    while end > from && white_space(all[end - 1])
        invariant
            from <= end <= to <= all@.len(),
            trimmed_end(all@.subrange(from as int, end as int)) == trimmed_end(
                all@.subrange(from as int, to as int),
            ),
        decreases end - from,
    {
        assert(all@.subrange(from as int, end as int).drop_last() =~= all@.subrange(
            from as int,
            end - 1,
        ));
        end = end - 1;
    }
    end
}

/// Where the characters from `from` up to `to` lie without white space at either end.
pub fn trim(all: &Vec<char>, from: usize, to: usize) -> (r: (usize, usize))
    requires
        from <= to <= all@.len(),
    ensures
        from <= r.0 <= r.1 <= to,
        all@.subrange(r.0 as int, r.1 as int) == trimmed(all@.subrange(from as int, to as int)),
{
    let mut start: usize = from;
    while start < to && white_space(all[start])
        invariant
            from <= start <= to <= all@.len(),
            trimmed_start(all@.subrange(start as int, to as int)) == trimmed_start(
                all@.subrange(from as int, to as int),
            ),
        decreases to - start,
    {
        assert(all@.subrange(start as int, to as int).skip(1) =~= all@.subrange(
            start + 1,
            to as int,
        ));
        start = start + 1;
    }
    (start, trim_end(all, start, to))
}

/// Code point order, character by character; a prefix comes first.
pub open spec fn sorts_before(a: Seq<char>, b: Seq<char>) -> bool
    decreases a.len(),
{
    if b.len() == 0 {
        false
    } else if a.len() == 0 {
        true
    } else if a[0] != b[0] {
        a[0] < b[0]
    } else {
        sorts_before(a.skip(1), b.skip(1))
    }
}

/// Two texts are in one order or the other, unless they are the same.
pub proof fn sorts_before_total(a: Seq<char>, b: Seq<char>)
    ensures
        a == b || sorts_before(a, b) || sorts_before(b, a),
        !(sorts_before(a, b) && sorts_before(b, a)),
        a == b ==> !sorts_before(a, b),
    decreases a.len(),
{
    if a.len() > 0 && b.len() > 0 && a[0] == b[0] {
        sorts_before_total(a.skip(1), b.skip(1));
        if a.skip(1) == b.skip(1) {
            assert(a =~= seq![a[0]] + a.skip(1));
            assert(b =~= seq![b[0]] + b.skip(1));
        }
    } else if a.len() == 0 && b.len() == 0 {
        assert(a =~= b);
    }
}

/// Code point order is transitive.
pub proof fn sorts_before_transitive(a: Seq<char>, b: Seq<char>, c: Seq<char>)
    requires
        sorts_before(a, b),
        sorts_before(b, c),
    ensures
        sorts_before(a, c),
    decreases a.len(),
{
    if a.len() > 0 && a[0] == b[0] && b[0] == c[0] {
        sorts_before_transitive(a.skip(1), b.skip(1), c.skip(1));
    }
}

proof fn sorts_before_at(a: Seq<char>, b: Seq<char>, n: int)
    requires
        0 <= n <= a.len(),
        n <= b.len(),
        forall|i: int| 0 <= i < n ==> a[i] == b[i],
    ensures
        sorts_before(a, b) == sorts_before(a.skip(n), b.skip(n)),
    decreases n,
{
    if n == 0 {
        assert(a.skip(0) =~= a && b.skip(0) =~= b);
    } else {
        sorts_before_at(a.skip(1), b.skip(1), n - 1);
        assert(a.skip(1).skip(n - 1) =~= a.skip(n));
        assert(b.skip(1).skip(n - 1) =~= b.skip(n));
    }
}

/// Whether `a` comes before `b` in code point order.
pub fn comes_before(a: &Vec<char>, b: &Vec<char>) -> (r: bool)
    ensures
        r == sorts_before(a@, b@),
{
    let mut i: usize = 0;
    while i < a.len() && i < b.len() && a[i] == b[i]
        invariant
            i <= a@.len(),
            i <= b@.len(),
            forall|k: int| 0 <= k < i ==> a@[k] == b@[k],
        decreases a@.len() - i,
    {
        i = i + 1;
    }
    proof {
        sorts_before_at(a@, b@, i as int);
    }
    if i == b.len() {
        false
    } else if i == a.len() {
        true
    } else {
        a[i] < b[i]
    }
}

/// `needle` occurs in `s` at position `k`.
pub open spec fn occurs_at(s: Seq<char>, needle: Seq<char>, k: int) -> bool {
    0 <= k && k + needle.len() <= s.len() && s.subrange(k, k + needle.len()) == needle
}

/// `needle` occurs in `s`.
pub open spec fn occurs(s: Seq<char>, needle: Seq<char>) -> bool {
    exists|k: int| occurs_at(s, needle, k)
}

/// Whether `needle` occurs in `all` at position `k`.
pub fn found_at(all: &Vec<char>, needle: &Vec<char>, k: usize) -> (r: bool)
    requires
        k <= all@.len(),
    ensures
        r == occurs_at(all@, needle@, k as int),
{
    let size: usize = all.len();
    if needle.len() > size - k {
        return false;
    }
    let mut i: usize = 0;
    while i < needle.len()
        invariant
            i <= needle@.len(),
            k + needle@.len() <= all@.len() == size,
            forall|j: int| 0 <= j < i ==> all@[k + j] == needle@[j],
        decreases needle@.len() - i,
    {
        if all[k + i] != needle[i] {
            proof {
                let part = all@.subrange(k as int, k + needle@.len());
                assert(part[i as int] == all@[k + i]);
            }
            return false;
        }
        i = i + 1;
    }
    assert(all@.subrange(k as int, k + needle@.len()) =~= needle@);
    true
}

/// Whether `needle` occurs in `all`.
pub fn contains(all: &Vec<char>, needle: &Vec<char>) -> (r: bool)
    ensures
        r == occurs(all@, needle@),
{
    let mut k: usize = 0;
    while k < all.len()
        invariant
            k <= all@.len(),
            forall|j: int| 0 <= j < k ==> !occurs_at(all@, needle@, j),
        decreases all@.len() - k,
    {
        if found_at(all, needle, k) {
            return true;
        }
        k = k + 1;
    }
    found_at(all, needle, k)
}

/// ASCII capitals as small letters; any other character as it is.
pub open spec fn small(c: char) -> char {
    if 'A' <= c <= 'Z' {
        (c as u32 + 32) as char
    } else {
        c
    }
}

/// `s` in lower case, as Unicode has it.
pub uninterp spec fn lowercase(s: Seq<char>) -> Seq<char>;

/// `str::to_lowercase` gives the Unicode lower case of the text, which depends on the text
/// alone. Of ASCII it maps the capitals to small letters and keeps the rest.
pub assume_specification[ str::to_lowercase ](text: &str) -> (r: String)
    ensures
        r@ == lowercase(text@),
        vstd::utf8::is_ascii_chars(text@) ==> r@ == text@.map_values(|c: char| small(c)),
;

/// `s` in lower case: letter by letter where it is ASCII, else as Unicode has it.
pub open spec fn folded(s: Seq<char>) -> Seq<char> {
    if vstd::utf8::is_ascii_chars(s) {
        s.map_values(|c: char| small(c))
    } else {
        lowercase(s)
    }
}

/// The characters of `text` with ASCII capitals as small letters.
pub fn small_letters(text: &str) -> (r: Vec<char>)
    ensures
        r@ == text@.map_values(|c: char| small(c)),
{
    let mut all = chars(text);
    let mut i: usize = 0;
    while i < all.len()
        invariant
            i <= all@.len() == text@.len(),
            forall|k: int| 0 <= k < i ==> all@[k] == small(text@[k]),
            forall|k: int| i <= k < all@.len() ==> all@[k] == text@[k],
        decreases all@.len() - i,
    {
        let c = all[i];
        if 'A' <= c && c <= 'Z' {
            let lower: u8 = c as u8 + 32;
            all[i] = lower as char;
        }
        i = i + 1;
    }
    assert(all@ =~= text@.map_values(|c: char| small(c)));
    all
}

/// The characters of `text` in lower case.
pub fn fold(text: &str) -> (r: Vec<char>)
    ensures
        r@ == folded(text@),
{
    if text.is_ascii() {
        small_letters(text)
    } else {
        chars(text.to_lowercase().as_str())
    }
}

/// What reading an unsigned number from digits, the first `n` of them read, gives: the
/// number, or the first thing wrong with them.
pub open spec fn digits_read(s: Seq<char>, n: int) -> Result<nat, crate::error::Error>
    decreases n,
{
    if n <= 0 {
        Ok(0)
    } else {
        match digits_read(s, n - 1) {
            Err(error) => Err(error),
            Ok(high) => if !is_digit(s[n - 1]) {
                Err(crate::error::Error::NumberDigit)
            } else if high * 10 + (s[n - 1] as nat - 48) > u64::MAX {
                Err(crate::error::Error::NumberTooLarge)
            } else {
                Ok((high * 10 + (s[n - 1] as nat - 48)) as nat)
            },
        }
    }
}

/// What reading a text as an unsigned number gives: digits after an optional plus sign.
pub open spec fn unsigned_of(s: Seq<char>) -> Result<nat, crate::error::Error> {
    if s.len() == 0 {
        Err(crate::error::Error::NumberEmpty)
    } else if s == seq!['+'] {
        Err(crate::error::Error::NumberDigit)
    } else if s[0] == '+' {
        digits_read(s.skip(1), s.len() - 1)
    } else {
        digits_read(s, s.len() as int)
    }
}

proof fn digits_stop(s: Seq<char>, k: int, n: int)
    requires
        0 <= k <= n,
        digits_read(s, k) is Err,
    ensures
        digits_read(s, n) == digits_read(s, k),
    decreases n - k,
{
    if k < n {
        digits_stop(s, k, n - 1);
    }
}

/// Read a text as an unsigned number.
pub fn parse_unsigned(text: &str) -> (r: Result<u64, crate::error::Error>)
    ensures
        match r {
            Ok(n) => unsigned_of(text@) == Ok::<nat, crate::error::Error>(n as nat),
            Err(error) => unsigned_of(text@) == Err::<nat, crate::error::Error>(error),
        },
{
    let all = chars(text);
    if all.len() == 0 {
        return Err(crate::error::Error::NumberEmpty);
    }
    let from: usize = if all[0] == '+' {
        1
    } else {
        0
    };
    if from == 1 && all.len() == 1 {
        assert(text@ =~= seq!['+']);
        return Err(crate::error::Error::NumberDigit);
    }
    let ghost digits = all@.skip(from as int);
    proof {
        if from == 0 {
            assert(digits =~= text@);
        } else {
            assert(text@ != seq!['+']);
        }
    }
    let mut n: u64 = 0;
    let mut i: usize = from;
    while i < all.len()
        invariant
            from <= i <= all@.len(),
            digits == all@.skip(from as int),
            unsigned_of(text@) == digits_read(digits, digits.len() as int),
            digits_read(digits, i - from) == Ok::<nat, crate::error::Error>(n as nat),
        decreases all@.len() - i,
    {
        let c = all[i];
        assert(digits[i - from] == c);
        if !digit_char(c) {
            proof {
                digits_stop(digits, i - from + 1, digits.len() as int);
            }
            return Err(crate::error::Error::NumberDigit);
        }
        let d: u64 = c as u64 - 48;
        let next: Option<u64> = match n.checked_mul(10) {
            Some(tens) => tens.checked_add(d),
            None => None,
        };
        match next {
            Some(sum) => {
                n = sum;
            },
            None => {
                proof {
                    digits_stop(digits, i - from + 1, digits.len() as int);
                }
                return Err(crate::error::Error::NumberTooLarge);
            },
        }
        i = i + 1;
    }
    Ok(n)
}

/// `s` ends with `end`.
pub open spec fn ends_with(s: Seq<char>, end: Seq<char>) -> bool {
    occurs_at(s, end, s.len() - end.len())
}

/// Whether `text` ends with `end`.
pub fn has_end(text: &str, end: &str) -> (r: bool)
    ensures
        r == ends_with(text@, end@),
{
    let all = chars(text);
    let needle = chars(end);
    needle.len() <= all.len() && found_at(&all, &needle, all.len() - needle.len())
}

/// Whether `text` starts with `start`.
pub fn has_start(text: &str, start: &str) -> (r: bool)
    ensures
        r == occurs_at(text@, start@, 0),
{
    found_at(&chars(text), &chars(start), 0)
}

} // verus!
