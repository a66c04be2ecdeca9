//! Text that is written into a cell reads back.
use crate::ods_patch::{attribute_char, attribute_text};
use crate::xlsx::{escaped, escaped_char, literal, looks_escaped};
use vstd::prelude::*;

verus! {

/// `s` starts with `start`.
pub open spec fn starts(s: Seq<char>, start: Seq<char>) -> bool {
    s.len() >= start.len() && s.take(start.len() as int) == start
}

/// What an XML reader makes of the references that stand for single characters.
pub open spec fn resolved(s: Seq<char>) -> Seq<char>
    decreases s.len(),
{
    if s.len() == 0 {
        Seq::empty()
    } else if starts(s, seq!['&', 'a', 'm', 'p', ';']) {
        seq!['&'] + resolved(s.skip(5))
    } else if starts(s, seq!['&', 'l', 't', ';']) {
        seq!['<'] + resolved(s.skip(4))
    } else if starts(s, seq!['&', 'g', 't', ';']) {
        seq!['>'] + resolved(s.skip(4))
    } else if starts(s, seq!['&', 'q', 'u', 'o', 't', ';']) {
        seq!['"'] + resolved(s.skip(6))
    } else if starts(s, seq!['&', '#', '1', '3', ';']) {
        seq!['\r'] + resolved(s.skip(5))
    } else if starts(s, seq!['&', '#', '1', '0', ';']) {
        seq!['\n'] + resolved(s.skip(5))
    } else if starts(s, seq!['&', '#', '9', ';']) {
        seq!['\t'] + resolved(s.skip(4))
    } else {
        seq![s[0]] + resolved(s.skip(1))
    }
}

/// What each reference holds.
proof fn references()
    ensures
        "&amp;"@ == seq!['&', 'a', 'm', 'p', ';'],
        "&lt;"@ == seq!['&', 'l', 't', ';'],
        "&gt;"@ == seq!['&', 'g', 't', ';'],
        "&quot;"@ == seq!['&', 'q', 'u', 'o', 't', ';'],
        "&#13;"@ == seq!['&', '#', '1', '3', ';'],
        "&#10;"@ == seq!['&', '#', '1', '0', ';'],
        "&#9;"@ == seq!['&', '#', '9', ';'],
{
    reveal_strlit("&amp;");
    reveal_strlit("&lt;");
    reveal_strlit("&gt;");
    reveal_strlit("&quot;");
    reveal_strlit("&#13;");
    reveal_strlit("&#10;");
    reveal_strlit("&#9;");
    assert("&amp;"@ =~= seq!['&', 'a', 'm', 'p', ';']);
    assert("&lt;"@ =~= seq!['&', 'l', 't', ';']);
    assert("&gt;"@ =~= seq!['&', 'g', 't', ';']);
    assert("&quot;"@ =~= seq!['&', 'q', 'u', 'o', 't', ';']);
    assert("&#13;"@ =~= seq!['&', '#', '1', '3', ';']);
    assert("&#10;"@ =~= seq!['&', '#', '1', '0', ';']);
    assert("&#9;"@ =~= seq!['&', '#', '9', ';']);
}

/// Two texts that start alike have the same first characters.
proof fn starts_alike(s: Seq<char>, start: Seq<char>, i: int)
    requires
        starts(s, start),
        0 <= i < start.len(),
    ensures
        s[i] == start[i],
{
    assert(s.take(start.len() as int)[i] == s[i]);
}

/// What is before a text starts it.
proof fn prefix_starts(start: Seq<char>, rest: Seq<char>)
    ensures
        starts(start + rest, start),
        (start + rest).skip(start.len() as int) == rest,
{
    assert((start + rest).take(start.len() as int) =~= start);
    assert((start + rest).skip(start.len() as int) =~= rest);
}

/// A text that does not start with `&` starts with no reference.
proof fn plain_char(c: char, rest: Seq<char>)
    requires
        c != '&',
    ensures
        resolved(seq![c] + rest) == seq![c] + resolved(rest),
{
    references();
    let s = seq![c] + rest;
    assert(s[0] == c);
    if starts(s, "&amp;"@) {
        starts_alike(s, "&amp;"@, 0);
    }
    if starts(s, "&lt;"@) {
        starts_alike(s, "&lt;"@, 0);
    }
    if starts(s, "&gt;"@) {
        starts_alike(s, "&gt;"@, 0);
    }
    if starts(s, "&quot;"@) {
        starts_alike(s, "&quot;"@, 0);
    }
    if starts(s, "&#13;"@) {
        starts_alike(s, "&#13;"@, 0);
    }
    if starts(s, "&#10;"@) {
        starts_alike(s, "&#10;"@, 0);
    }
    if starts(s, "&#9;"@) {
        starts_alike(s, "&#9;"@, 0);
    }
    assert(s.skip(1) =~= rest);
}

/// A reference stands for its character.
proof fn reference_resolves(start: Seq<char>, c: char, rest: Seq<char>)
    requires
        ({
            ||| start == "&amp;"@ && c == '&'
            ||| start == "&lt;"@ && c == '<'
            ||| start == "&gt;"@ && c == '>'
            ||| start == "&quot;"@ && c == '"'
            ||| start == "&#13;"@ && c == '\r'
            ||| start == "&#10;"@ && c == '\n'
            ||| start == "&#9;"@ && c == '\t'
        }),
    ensures
        resolved(start + rest) == seq![c] + resolved(rest),
{
    references();
    let s = start + rest;
    prefix_starts(start, rest);
    assert(s[1] == start[1]);
    assert(s[2] == start[2]);
    assert(s[3] == start[3]);
    if starts(s, "&amp;"@) {
        starts_alike(s, "&amp;"@, 1);
    }
    if starts(s, "&lt;"@) {
        starts_alike(s, "&lt;"@, 1);
    }
    if starts(s, "&gt;"@) {
        starts_alike(s, "&gt;"@, 1);
    }
    if starts(s, "&quot;"@) {
        starts_alike(s, "&quot;"@, 1);
    }
    if starts(s, "&#13;"@) {
        starts_alike(s, "&#13;"@, 1);
        starts_alike(s, "&#13;"@, 2);
        starts_alike(s, "&#13;"@, 3);
    }
    if starts(s, "&#10;"@) {
        starts_alike(s, "&#10;"@, 1);
        starts_alike(s, "&#10;"@, 2);
        starts_alike(s, "&#10;"@, 3);
    }
}

proof fn escaped_char_resolves(c: char, rest: Seq<char>)
    ensures
        resolved(escaped_char(c) + rest) == seq![c] + resolved(rest),
{
    if c == '&' || c == '<' || c == '>' || c == '"' || c == '\r' {
        reference_resolves(escaped_char(c), c, rest);
    } else {
        plain_char(c, rest);
    }
}

proof fn attribute_char_resolves(c: char, rest: Seq<char>)
    ensures
        resolved(attribute_char(c) + rest) == seq![c] + resolved(rest),
{
    if c == '\n' || c == '\t' {
        reference_resolves(attribute_char(c), c, rest);
    } else {
        escaped_char_resolves(c, rest);
    }
}

proof fn escaped_then(s: Seq<char>, rest: Seq<char>)
    ensures
        resolved(escaped(s) + rest) == s + resolved(rest),
    decreases s.len(),
{
    if s.len() == 0 {
        assert(escaped(s) + rest =~= rest);
        assert(s + resolved(rest) =~= resolved(rest));
    } else {
        let tail = escaped_char(s.last()) + rest;
        assert(escaped(s) + rest =~= escaped(s.drop_last()) + tail);
        escaped_then(s.drop_last(), tail);
        escaped_char_resolves(s.last(), rest);
        assert(s.drop_last() + (seq![s.last()] + resolved(rest)) =~= s + resolved(rest));
    }
}

proof fn attribute_then(s: Seq<char>, rest: Seq<char>)
    ensures
        resolved(attribute_text(s) + rest) == s + resolved(rest),
    decreases s.len(),
{
    if s.len() == 0 {
        assert(attribute_text(s) + rest =~= rest);
        assert(s + resolved(rest) =~= resolved(rest));
    } else {
        let tail = attribute_char(s.last()) + rest;
        assert(attribute_text(s) + rest =~= attribute_text(s.drop_last()) + tail);
        attribute_then(s.drop_last(), tail);
        attribute_char_resolves(s.last(), rest);
        assert(s.drop_last() + (seq![s.last()] + resolved(rest)) =~= s + resolved(rest));
    }
}

/// Escaped text reads back.
pub proof fn escaped_text_reads_back(s: Seq<char>)
    ensures
        resolved(escaped(s)) == s,
{
    escaped_then(s, Seq::empty());
    assert(escaped(s) + Seq::<char>::empty() =~= escaped(s));
    assert(s + resolved(Seq::empty()) =~= s);
}

/// The string value of an ODS cell reads back.
pub proof fn string_value_reads_back(s: Seq<char>)
    ensures
        resolved(attribute_text(s)) == s,
{
    attribute_then(s, Seq::empty());
    assert(attribute_text(s) + Seq::<char>::empty() =~= attribute_text(s));
    assert(s + resolved(Seq::empty()) =~= s);
}

/// The value of a hexadecimal digit.
pub open spec fn hex_value(c: char) -> int {
    if '0' <= c <= '9' {
        c as int - 48
    } else if 'a' <= c <= 'f' {
        c as int - 87
    } else {
        c as int - 55
    }
}

/// What a reader of inline text makes of its escapes, such as `_x000D_`.
pub open spec fn unescaped(s: Seq<char>) -> Seq<char>
    decreases s.len(),
{
    if s.len() == 0 {
        Seq::empty()
    } else if looks_escaped(s, 0) {
        let code = hex_value(s[2]) * 4096 + hex_value(s[3]) * 256 + hex_value(s[4]) * 16
            + hex_value(s[5]);
        seq![code as char] + unescaped(s.skip(7))
    } else {
        seq![s[0]] + unescaped(s.skip(1))
    }
}

/// The characters from `i` on as inline text.
spec fn literal_from(s: Seq<char>, i: int) -> Seq<char>
    decreases s.len() - i,
{
    if i >= s.len() {
        Seq::empty()
    } else {
        (if looks_escaped(s, i) {
            "_x005F_"@
        } else {
            seq![s[i]]
        }) + literal_from(s, i + 1)
    }
}

proof fn literal_joins(s: Seq<char>, n: int)
    requires
        0 <= n <= s.len(),
    ensures
        literal(s, n) + literal_from(s, n) == literal(s, s.len() as int),
    decreases s.len() - n,
{
    if n == s.len() {
        assert(literal(s, n) + Seq::<char>::empty() =~= literal(s, n));
    } else {
        literal_joins(s, n + 1);
        let piece = if looks_escaped(s, n) {
            "_x005F_"@
        } else {
            seq![s[n]]
        };
        assert(literal(s, n) + (piece + literal_from(s, n + 1)) =~= literal(s, n + 1)
            + literal_from(s, n + 1));
    }
}

/// Inline text starts with the same character as the text.
proof fn literal_starts(s: Seq<char>, i: int)
    requires
        0 <= i < s.len(),
    ensures
        literal_from(s, i).len() > 0,
        literal_from(s, i)[0] == s[i],
        s[i] != '_' ==> literal_from(s, i) == seq![s[i]] + literal_from(s, i + 1),
{
    reveal_strlit("_x005F_");
}

/// Inline text that looks escaped where the text does not would be the text itself.
proof fn literal_does_not_look_escaped(s: Seq<char>, i: int)
    requires
        0 <= i < s.len(),
        !looks_escaped(s, i),
    ensures
        !looks_escaped(literal_from(s, i), 0),
{
    let t = literal_from(s, i);
    assert(t == seq![s[i]] + literal_from(s, i + 1));
    if looks_escaped(t, 0) {
        let a = literal_from(s, i + 1);
        assert(t[1] == a[0]);
        assert(i + 1 < s.len());
        literal_starts(s, i + 1);
        let b = literal_from(s, i + 2);
        assert(a == seq![s[i + 1]] + b);
        assert(t[2] == b[0]);
        assert(i + 2 < s.len());
        literal_starts(s, i + 2);
        let c = literal_from(s, i + 3);
        assert(b == seq![s[i + 2]] + c);
        assert(t[3] == c[0]);
        assert(i + 3 < s.len());
        literal_starts(s, i + 3);
        let d = literal_from(s, i + 4);
        assert(c == seq![s[i + 3]] + d);
        assert(t[4] == d[0]);
        assert(i + 4 < s.len());
        literal_starts(s, i + 4);
        let e = literal_from(s, i + 5);
        assert(d == seq![s[i + 4]] + e);
        assert(t[5] == e[0]);
        assert(i + 5 < s.len());
        literal_starts(s, i + 5);
        let f = literal_from(s, i + 6);
        assert(e == seq![s[i + 5]] + f);
        assert(t[6] == f[0]);
        assert(i + 6 < s.len());
        literal_starts(s, i + 6);
        assert(looks_escaped(s, i));
    }
}

proof fn literal_unescapes(s: Seq<char>, i: int)
    requires
        0 <= i <= s.len(),
    ensures
        unescaped(literal_from(s, i)) == s.skip(i),
    decreases s.len() - i,
{
    let t = literal_from(s, i);
    if i < s.len() {
        let rest = literal_from(s, i + 1);
        literal_unescapes(s, i + 1);
        assert(s.skip(i) =~= seq![s[i]] + s.skip(i + 1));
        if looks_escaped(s, i) {
            reveal_strlit("_x005F_");
            assert(t.skip(7) =~= rest);
            assert(t[0] == '_' && t[1] == 'x' && t[2] == '0' && t[3] == '0' && t[4] == '5' && t[5]
                == 'F' && t[6] == '_');
            assert(looks_escaped(t, 0));
            assert(hex_value('F') == 15 && hex_value('5') == 5 && hex_value('0') == 0);
        } else {
            literal_does_not_look_escaped(s, i);
            assert(t.skip(1) =~= rest);
        }
    } else {
        assert(s.skip(i) =~= Seq::empty());
    }
}

/// Text in an XLSX cell reads back, also where it looks like an escape.
pub proof fn inline_text_reads_back(s: Seq<char>)
    ensures
        unescaped(resolved(escaped(literal(s, s.len() as int)))) == s,
{
    escaped_text_reads_back(literal(s, s.len() as int));
    literal_joins(s, 0);
    assert(literal(s, 0) + literal_from(s, 0) =~= literal_from(s, 0));
    literal_unescapes(s, 0);
    assert(s.skip(0) =~= s);
}

} // verus!
