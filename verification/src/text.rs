//! Character-level helpers on strings: conversion to characters, the
//! lexicographic order on character sequences, and lower-casing.

use vstd::prelude::*;
use vstd::utf8::is_ascii_chars;

verus! {

broadcast use vstd::string::group_string_axioms;

/// The characters of `s`, in order.
pub fn chars_of(s: &str) -> (r: Vec<char>)
    ensures
        r@ == s@,
{
    let mut r: Vec<char> = Vec::new();
    for c in it: s.chars()
        invariant
            r@ == it.seq().take(it.index()),
    {
        r.push(c);
    }
    r
}


/// Lexicographic order on character sequences, comparing characters by code point.
/// A proper prefix comes before the longer sequence.
pub open spec fn seq_lt(a: Seq<char>, b: Seq<char>) -> bool
    decreases a.len(),
{
    if a.len() == 0 {
        b.len() > 0
    } else if b.len() == 0 {
        false
    } else if a[0] != b[0] {
        a[0] < b[0]
    } else {
        seq_lt(a.drop_first(), b.drop_first())
    }
}

/// No sequence comes before itself.
pub proof fn lemma_seq_lt_irreflexive(a: Seq<char>)
    ensures
        !seq_lt(a, a),
    decreases a.len(),
{
    if a.len() > 0 {
        lemma_seq_lt_irreflexive(a.drop_first());
    }
}

/// The order is transitive.
pub proof fn lemma_seq_lt_transitive(a: Seq<char>, b: Seq<char>, c: Seq<char>)
    requires
        seq_lt(a, b),
        seq_lt(b, c),
    ensures
        seq_lt(a, c),
    decreases a.len(),
{
    if a.len() > 0 && b.len() > 0 && c.len() > 0 {
        if a[0] == b[0] && b[0] == c[0] {
            lemma_seq_lt_transitive(a.drop_first(), b.drop_first(), c.drop_first());
        }
    }
}

/// Two different sequences are ordered one way or the other, never both.
pub proof fn lemma_seq_lt_total(a: Seq<char>, b: Seq<char>)
    ensures
        a != b ==> (seq_lt(a, b) || seq_lt(b, a)),
        !(seq_lt(a, b) && seq_lt(b, a)),
    decreases a.len(),
{
    if a.len() > 0 && b.len() > 0 {
        if a[0] == b[0] {
            lemma_seq_lt_total(a.drop_first(), b.drop_first());
            if a != b {
                assert(a.drop_first() != b.drop_first()) by {
                    if a.drop_first() == b.drop_first() {
                        assert(a =~= seq![a[0]] + a.drop_first());
                        assert(b =~= seq![b[0]] + b.drop_first());
                    }
                };
            }
        }
    } else if a.len() == 0 && b.len() == 0 {
        assert(a =~= b);
    }
}

/// Whether `a` comes strictly before `b` in the lexicographic order of characters.
pub fn chars_lt(a: &Vec<char>, b: &Vec<char>) -> (r: bool)
    ensures
        r == seq_lt(a@, b@),
{
    let mut i: usize = 0;
    assert(a@.skip(0) =~= a@);
    assert(b@.skip(0) =~= b@);
    while i < a.len() && i < b.len()
        invariant
            i <= a.len(),
            i <= b.len(),
            seq_lt(a@, b@) == seq_lt(a@.skip(i as int), b@.skip(i as int)),
        decreases a.len() - i,
    {
        if a[i] != b[i] {
            return a[i] < b[i];
        }
        assert(a@.skip(i as int).drop_first() =~= a@.skip(i + 1));
        assert(b@.skip(i as int).drop_first() =~= b@.skip(i + 1));
        i = i + 1;
    }
    i < b.len()
}

/// The order is lexicographic: at the first position where two texts differ, the text
/// with the smaller character there comes first, whatever their lengths.
pub proof fn law_seq_lt_first_difference(a: Seq<char>, b: Seq<char>, i: int)
    requires
        0 <= i < a.len(),
        i < b.len(),
        a.take(i) == b.take(i),
        a[i] < b[i],
    ensures
        seq_lt(a, b),
        !seq_lt(b, a),
    decreases i,
{
    if i > 0 {
        assert(a[0] == a.take(i)[0] && b[0] == b.take(i)[0]);
        assert(a.drop_first().take(i - 1) =~= a.take(i).drop_first());
        assert(b.drop_first().take(i - 1) =~= b.take(i).drop_first());
        law_seq_lt_first_difference(a.drop_first(), b.drop_first(), i - 1);
    }
}

/// A proper prefix comes before the longer text.
pub proof fn law_seq_lt_prefix(a: Seq<char>, b: Seq<char>)
    requires
        a.len() < b.len(),
        a == b.take(a.len() as int),
    ensures
        seq_lt(a, b),
        !seq_lt(b, a),
    decreases a.len(),
{
    if a.len() > 0 {
        assert(a[0] == b[0]);
        assert(a.drop_first() =~= b.drop_first().take(a.len() - 1));
        law_seq_lt_prefix(a.drop_first(), b.drop_first());
    }
}

/// Whether the string `a` comes strictly before `b` in the lexicographic order of characters.
pub fn str_lt(a: &str, b: &str) -> (r: bool)
    ensures
        r == seq_lt(a@, b@),
{
    let ac = chars_of(a);
    let bc = chars_of(b);
    chars_lt(&ac, &bc)
}

/// The pieces of `s` between occurrences of `sep`, as `str::split` with a one-character
/// pattern yields them: always at least one piece, empty pieces included.
pub open spec fn split_on(s: Seq<char>, sep: char) -> Seq<Seq<char>>
    decreases s.len(),
{
    if s.len() == 0 {
        seq![Seq::<char>::empty()]
    } else {
        let p = split_on(s.drop_last(), sep);
        if s.last() == sep {
            p.push(Seq::<char>::empty())
        } else {
            p.update(p.len() - 1, p.last().push(s.last()))
        }
    }
}

/// A text splits into two or more pieces exactly when it holds the separator.
pub proof fn law_split_on_len(s: Seq<char>, sep: char)
    ensures
        split_on(s, sep).len() >= 2 <==> s.contains(sep),
    decreases s.len(),
{
    if s.len() > 0 {
        let t = s.drop_last();
        law_split_on_len(t, sep);
        lemma_split_on_nonempty(t, sep);
        if t.contains(sep) {
            let i = choose|i: int| 0 <= i < t.len() && t[i] == sep;
            assert(s[i] == sep);
        }
        if s.contains(sep) {
            let i = choose|i: int| 0 <= i < s.len() && s[i] == sep;
            if i < t.len() {
                assert(t[i] == sep);
            }
        }
        if s.last() == sep {
            assert(s[s.len() - 1] == sep);
        }
    }
}

/// Splitting `a`, the separator and `b` gives the pieces of `a` followed by those of `b`.
pub proof fn law_split_on_concat(a: Seq<char>, b: Seq<char>, sep: char)
    ensures
        split_on(a + seq![sep] + b, sep) == split_on(a, sep) + split_on(b, sep),
    decreases b.len(),
{
    if b.len() == 0 {
        assert((a + seq![sep] + b).drop_last() =~= a);
        assert(split_on(b, sep) =~= seq![Seq::<char>::empty()]);
        assert(split_on(a, sep).push(Seq::<char>::empty()) =~= split_on(a, sep) + seq![Seq::<char>::empty()]);
    } else {
        let c = b.drop_last();
        law_split_on_concat(a, c, sep);
        lemma_split_on_nonempty(c, sep);
        lemma_split_on_nonempty(a, sep);
        assert((a + seq![sep] + b).drop_last() =~= a + seq![sep] + c);
        assert((a + seq![sep] + b).last() == b.last());
        let pa = split_on(a, sep);
        let pc = split_on(c, sep);
        if b.last() == sep {
            assert((pa + pc).push(Seq::<char>::empty()) =~= pa + pc.push(Seq::<char>::empty()));
        } else {
            assert((pa + pc).update((pa + pc).len() - 1, (pa + pc).last().push(b.last())) =~= pa + pc.update(
                pc.len() - 1,
                pc.last().push(b.last()),
            ));
        }
    }
}

/// No piece of a split holds the separator.
pub proof fn law_split_pieces_without_sep(s: Seq<char>, sep: char)
    ensures
        forall|i: int| 0 <= i < split_on(s, sep).len() ==> !(#[trigger] split_on(s, sep)[i]).contains(sep),
    decreases s.len(),
{
    if s.len() > 0 {
        let t = s.drop_last();
        let p = split_on(t, sep);
        law_split_pieces_without_sep(t, sep);
        lemma_split_on_nonempty(t, sep);
        if s.last() != sep {
            let q = split_on(s, sep);
            assert forall|i: int| 0 <= i < q.len() implies !(#[trigger] q[i]).contains(sep) by {
                if i == p.len() - 1 {
                    let x = p.last().push(s.last());
                    assert(!p[i].contains(sep));
                    if x.contains(sep) {
                        let j = choose|j: int| 0 <= j < x.len() && x[j] == sep;
                        if j < p.last().len() {
                            assert(p[i][j] == sep);
                        }
                    }
                } else {
                    assert(q[i] == p[i]);
                }
            }
        } else {
            let q = split_on(s, sep);
            assert forall|i: int| 0 <= i < q.len() implies !(#[trigger] q[i]).contains(sep) by {
                if i < p.len() {
                    assert(q[i] == p[i]);
                } else {
                    assert(q[i] =~= Seq::<char>::empty());
                }
            }
        }
    }
}

/// Splitting always yields at least one piece.
pub proof fn lemma_split_on_nonempty(s: Seq<char>, sep: char)
    ensures
        split_on(s, sep).len() >= 1,
    decreases s.len(),
{
    if s.len() > 0 {
        lemma_split_on_nonempty(s.drop_last(), sep);
    }
}

/// A text without the separator splits into itself alone.
pub proof fn lemma_split_on_without_sep(s: Seq<char>, sep: char)
    requires
        !s.contains(sep),
    ensures
        split_on(s, sep) == seq![s],
    decreases s.len(),
{
    if s.len() > 0 {
        let t = s.drop_last();
        assert(!t.contains(sep)) by {
            if t.contains(sep) {
                let i = choose|i: int| 0 <= i < t.len() && t[i] == sep;
                assert(s[i] == sep);
            }
        }
        lemma_split_on_without_sep(t, sep);
        assert(s[s.len() - 1] != sep);
        assert(t.push(s.last()) =~= s);
    } else {
        assert(s =~= Seq::<char>::empty());
    }
}

/// Splitting `a`, the separator and then a text `b` without the separator gives the
/// pieces of `a` followed by `b`.
pub proof fn lemma_split_on_append(a: Seq<char>, b: Seq<char>, sep: char)
    requires
        !b.contains(sep),
    ensures
        split_on(a + seq![sep] + b, sep) == split_on(a, sep).push(b),
    decreases b.len(),
{
    if b.len() == 0 {
        assert((a + seq![sep] + b).drop_last() =~= a);
        assert(b =~= Seq::<char>::empty());
    } else {
        let c = b.drop_last();
        assert(!c.contains(sep)) by {
            if c.contains(sep) {
                let i = choose|i: int| 0 <= i < c.len() && c[i] == sep;
                assert(b[i] == sep);
            }
        }
        lemma_split_on_append(a, c, sep);
        assert(b[b.len() - 1] != sep);
        assert((a + seq![sep] + b).drop_last() =~= a + seq![sep] + c);
        assert(c.push(b.last()) =~= b);
    }
}

/// The views of a list of strings.
pub open spec fn views_of(v: Seq<String>) -> Seq<Seq<char>> {
    v.map_values(|x: String| x@)
}

/// Splits `s` at every occurrence of `sep`, as `s.split(sep)` does.
pub fn split_str(s: &str, sep: char) -> (r: Vec<String>)
    ensures
        views_of(r@) == split_on(s@, sep),
{
    let cs = chars_of(s);
    let mut pieces: Vec<String> = Vec::new();
    let mut start: usize = 0;
    let mut i: usize = 0;
    assert(cs@.take(0) =~= Seq::<char>::empty());
    assert(views_of(pieces@).push(cs@.subrange(0, 0)) =~= split_on(cs@.take(0), sep));
    while i < cs.len()
        invariant
            cs@ == s@,
            start <= i <= cs@.len(),
            views_of(pieces@).push(cs@.subrange(start as int, i as int)) == split_on(cs@.take(i as int), sep),
        decreases cs@.len() - i,
    {
        proof {
            lemma_split_on_nonempty(cs@.take(i as int), sep);
            assert(cs@.take(i + 1).drop_last() =~= cs@.take(i as int));
            assert(cs@.take(i + 1).last() == cs@[i as int]);
        }
        if cs[i] == sep {
            let ghost before = views_of(pieces@);
            let piece = s.substring_char(start, i).to_owned();
            pieces.push(piece);
            assert(views_of(pieces@) =~= before.push(cs@.subrange(start as int, i as int)));
            start = i + 1;
            assert(cs@.subrange(start as int, i + 1) =~= Seq::<char>::empty());
            assert(views_of(pieces@).push(cs@.subrange(start as int, i + 1)) =~= split_on(cs@.take(i + 1), sep));
        } else {
            assert(cs@.subrange(start as int, i + 1) =~= cs@.subrange(start as int, i as int).push(cs@[i as int]));
            assert(views_of(pieces@).push(cs@.subrange(start as int, i + 1)) =~= split_on(cs@.take(i + 1), sep));
        }
        i = i + 1;
    }
    let ghost before = views_of(pieces@);
    let last = s.substring_char(start, i).to_owned();
    pieces.push(last);
    assert(views_of(pieces@) =~= before.push(cs@.subrange(start as int, i as int)));
    assert(cs@.take(i as int) =~= cs@);
    assert(views_of(pieces@) =~= split_on(s@, sep));
    pieces
}

/// The pieces joined with `sep` between each two of them, as `[String]::join` gives it.
pub open spec fn join(parts: Seq<Seq<char>>, sep: Seq<char>) -> Seq<char>
    decreases parts.len(),
{
    if parts.len() == 0 {
        Seq::<char>::empty()
    } else if parts.len() == 1 {
        parts[0]
    } else {
        join(parts.drop_last(), sep) + sep + parts.last()
    }
}

/// Extending the last piece extends the joined text by the same characters.
proof fn lemma_join_extend_last(p: Seq<Seq<char>>, sep: Seq<char>, y: Seq<char>)
    requires
        p.len() >= 1,
    ensures
        join(p.update(p.len() - 1, p.last() + y), sep) == join(p, sep) + y,
{
    let q = p.update(p.len() - 1, p.last() + y);
    if p.len() > 1 {
        assert(q.drop_last() =~= p.drop_last());
        assert(join(q, sep) == join(q.drop_last(), sep) + sep + q.last());
        assert(join(q, sep) =~= join(p, sep) + y);
    }
}

/// Joining the pieces of a split with the separator gives back the text that was split.
pub proof fn law_join_split(s: Seq<char>, sep: char)
    ensures
        join(split_on(s, sep), seq![sep]) == s,
    decreases s.len(),
{
    if s.len() > 0 {
        let t = s.drop_last();
        let p = split_on(t, sep);
        law_join_split(t, sep);
        lemma_split_on_nonempty(t, sep);
        if s.last() == sep {
            let q = p.push(Seq::<char>::empty());
            assert(q.drop_last() =~= p);
            assert(join(q, seq![sep]) =~= t + seq![sep] + Seq::<char>::empty());
            assert(s =~= t + seq![sep]);
        } else {
            assert(p.last().push(s.last()) =~= p.last() + seq![s.last()]);
            lemma_join_extend_last(p, seq![sep], seq![s.last()]);
            assert(s =~= t + seq![s.last()]);
        }
    }
}

/// Joins the strings of `parts` with `sep` between each two of them.
pub fn join_strings(parts: &Vec<String>, sep: &str) -> (r: String)
    ensures
        r@ == join(views_of(parts@), sep@),
{
    let mut r = String::new();
    let mut i: usize = 0;
    assert(views_of(parts@).take(0) =~= Seq::<Seq<char>>::empty());
    while i < parts.len()
        invariant
            i <= parts@.len(),
            r@ == join(views_of(parts@).take(i as int), sep@),
        decreases parts@.len() - i,
    {
        let ghost prefix = views_of(parts@).take(i + 1);
        assert(prefix.drop_last() =~= views_of(parts@).take(i as int));
        assert(prefix.last() == parts@[i as int]@);
        if i > 0 {
            r.append(sep);
        } else {
            assert(r@ =~= Seq::<char>::empty());
        }
        r.append(parts[i].as_str());
        if i == 0 {
            assert(r@ =~= prefix[0]);
        }
        i = i + 1;
    }
    assert(views_of(parts@).take(i as int) =~= views_of(parts@));
    r
}

/// Appends `c` to `s`: `String::push` from std.
#[verifier::external_body]
pub(crate) fn push_char(s: &mut String, c: char)
    ensures
        final(s)@ == old(s)@.push(c),
{
    s.push(c);
}

/// The lower-case hexadecimal digit of `n`, for `0 <= n < 16`.
pub open spec fn hex_digit(n: int) -> char {
    if n < 10 {
        (n + 48) as char
    } else {
        (n + 87) as char
    }
}

/// Each byte as two lower-case hexadecimal digits, high digit first.
pub open spec fn lower_hex(bytes: Seq<u8>) -> Seq<char>
    decreases bytes.len(),
{
    if bytes.len() == 0 {
        Seq::<char>::empty()
    } else {
        lower_hex(bytes.drop_last()) + seq![hex_digit(bytes.last() as int / 16), hex_digit(bytes.last() as int % 16)]
    }
}

/// The hexadecimal text of `n` bytes has `2 * n` characters, each a digit `0`-`9` or
/// a letter `a`-`f`.
pub proof fn law_lower_hex_shape(bytes: Seq<u8>)
    ensures
        lower_hex(bytes).len() == 2 * bytes.len(),
        forall|i: int| 0 <= i < lower_hex(bytes).len() ==> {
            let c = #[trigger] lower_hex(bytes)[i];
            ('0' <= c && c <= '9') || ('a' <= c && c <= 'f')
        },
    decreases bytes.len(),
{
    if bytes.len() > 0 {
        law_lower_hex_shape(bytes.drop_last());
        let prev = lower_hex(bytes.drop_last());
        let b = bytes.last() as int;
        assert(0 <= b / 16 < 16 && 0 <= b % 16 < 16);
        assert forall|i: int| 0 <= i < lower_hex(bytes).len() implies {
            let c = #[trigger] lower_hex(bytes)[i];
            ('0' <= c && c <= '9') || ('a' <= c && c <= 'f')
        } by {
            if i < prev.len() {
                assert(lower_hex(bytes)[i] == prev[i]);
            }
        }
    }
}

/// Byte `i` is written at positions `2 * i` and `2 * i + 1` as its high and its low
/// hexadecimal digit.
pub proof fn law_lower_hex_digits(bytes: Seq<u8>, i: int)
    requires
        0 <= i < bytes.len(),
    ensures
        lower_hex(bytes).len() == 2 * bytes.len(),
        lower_hex(bytes)[2 * i] == hex_digit(bytes[i] as int / 16),
        lower_hex(bytes)[2 * i + 1] == hex_digit(bytes[i] as int % 16),
    decreases bytes.len(),
{
    law_lower_hex_shape(bytes);
    let prev = bytes.drop_last();
    law_lower_hex_shape(prev);
    if i < bytes.len() - 1 {
        law_lower_hex_digits(prev, i);
        assert(prev[i] == bytes[i]);
    }
}

/// The sixteen digits are `0`-`9` then `a`-`f`, in increasing order.
pub proof fn law_hex_digits_ordered(n: int, m: int)
    requires
        0 <= n < m < 16,
    ensures
        hex_digit(n) < hex_digit(m),
        hex_digit(0) == '0',
        hex_digit(9) == '9',
        hex_digit(10) == 'a',
        hex_digit(15) == 'f',
{
}

fn hex_digit_char(n: u8) -> (c: char)
    requires
        n < 16,
    ensures
        c == hex_digit(n as int),
{
    if n < 10 {
        (n + 48) as char
    } else {
        (n + 87) as char
    }
}

/// Writes each byte as two lower-case hexadecimal digits, as the `{:02x}` format does.
pub fn to_lower_hex(bytes: &[u8]) -> (r: String)
    ensures
        r@ == lower_hex(bytes@),
{
    let mut r = String::new();
    let mut i: usize = 0;
    assert(bytes@.take(0) =~= Seq::<u8>::empty());
    while i < bytes.len()
        invariant
            i <= bytes@.len(),
            r@ == lower_hex(bytes@.take(i as int)),
        decreases bytes@.len() - i,
    {
        let b = bytes[i];
        assert(bytes@.take(i + 1).drop_last() =~= bytes@.take(i as int));
        assert(bytes@.take(i + 1).last() == b);
        push_char(&mut r, hex_digit_char(b / 16));
        push_char(&mut r, hex_digit_char(b % 16));
        assert(r@ =~= lower_hex(bytes@.take(i + 1)));
        i = i + 1;
    }
    assert(bytes@.take(i as int) =~= bytes@);
    r
}

/// Lower-casing as `str::to_lowercase` performs it (Unicode case mapping).
pub uninterp spec fn lowercase(s: Seq<char>) -> Seq<char>;

/// The ASCII lower-case of a character: `A`-`Z` become `a`-`z`, all else stays.
pub open spec fn ascii_lower_char(c: char) -> char {
    if 'A' <= c && c <= 'Z' {
        ((c as u32) + 32) as char
    } else {
        c
    }
}

/// The ASCII upper-case of a character: `a`-`z` become `A`-`Z`, all else stays.
pub open spec fn ascii_upper_char(c: char) -> char {
    if 'a' <= c && c <= 'z' {
        ((c as u32) - 32) as char
    } else {
        c
    }
}

/// The ASCII lower-case of a text, character by character.
pub open spec fn ascii_lower(s: Seq<char>) -> Seq<char> {
    s.map_values(|c: char| ascii_lower_char(c))
}

/// The ASCII upper-case of a text, character by character.
pub open spec fn ascii_upper(s: Seq<char>) -> Seq<char> {
    s.map_values(|c: char| ascii_upper_char(c))
}

/// Changing the ASCII case of an ASCII text keeps it ASCII, and its lower-case form is
/// the same whether it was first turned to upper or to lower case.
pub proof fn law_ascii_case(s: Seq<char>)
    requires
        is_ascii_chars(s),
    ensures
        is_ascii_chars(ascii_upper(s)),
        is_ascii_chars(ascii_lower(s)),
        ascii_lower(ascii_upper(s)) == ascii_lower(s),
        ascii_lower(ascii_lower(s)) == ascii_lower(s),
{
    assert forall|i: int| 0 <= i < s.len() implies ascii_lower_char(ascii_upper_char(s[i])) == ascii_lower_char(s[i])
        && ascii_lower_char(ascii_lower_char(s[i])) == ascii_lower_char(s[i]) && '\0' <= ascii_upper_char(s[i]) <= '\u{7f}'
        && '\0' <= ascii_lower_char(s[i]) <= '\u{7f}' by {
        let c = s[i];
        assert('\0' <= c <= '\u{7f}');
    }
    assert(ascii_lower(ascii_upper(s)) =~= ascii_lower(s));
    assert(ascii_lower(ascii_lower(s)) =~= ascii_lower(s));
}

/// `str::to_lowercase` from std: the contract says that the result is the lower-cased
/// form of `s`, named `lowercase`, and that on ASCII text it is the ASCII lower-case
/// (the Unicode case mapping of the ASCII letters); the mapping of other characters is
/// not stated.
#[verifier::external_body]
pub(crate) fn to_lowercase(s: &str) -> (r: String)
    ensures
        r@ == lowercase(s@),
        is_ascii_chars(s@) ==> r@ == ascii_lower(s@),
{
    s.to_lowercase()
}

} // verus!
