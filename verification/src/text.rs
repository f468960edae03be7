//! Text built from pieces: decimal numbers and character sequences.

use vstd::prelude::*;
use vstd::std_specs::iter::*;
use vstd::string::*;

verus! {

/// The character of a decimal digit.
pub open spec fn digit_char(d: nat) -> char {
    if d == 0 {
        '0'
    } else if d == 1 {
        '1'
    } else if d == 2 {
        '2'
    } else if d == 3 {
        '3'
    } else if d == 4 {
        '4'
    } else if d == 5 {
        '5'
    } else if d == 6 {
        '6'
    } else if d == 7 {
        '7'
    } else if d == 8 {
        '8'
    } else {
        '9'
    }
}

/// The decimal digits of `n`, most significant first, without leading zeros.
pub open spec fn decimal(n: nat) -> Seq<char>
    decreases n,
{
    if n < 10 {
        seq![digit_char(n)]
    } else {
        decimal(n / 10).push(digit_char(n % 10))
    }
}

/// The number that a sequence of digit characters denotes.
pub open spec fn digits_value(s: Seq<char>) -> nat
    decreases s.len(),
{
    if s.len() == 0 {
        0
    } else {
        (digits_value(s.drop_last()) * 10 + digit_value(s.last())) as nat
    }
}

/// The value of one digit character.
pub open spec fn digit_value(c: char) -> nat {
    if '0' <= c && c <= '9' {
        (c as int - '0' as int) as nat
    } else {
        0
    }
}

/// Whether `c` is an ASCII decimal digit.
pub open spec fn is_digit(c: char) -> bool {
    '0' <= c && c <= '9'
}

/// A decimal number denotes the number it was printed from, and consists of
/// digits only.
pub proof fn lemma_decimal_value(n: nat)
    ensures
        digits_value(decimal(n)) == n,
        decimal(n).len() > 0,
        forall|i: int| 0 <= i < decimal(n).len() ==> is_digit(#[trigger] decimal(n)[i]),
    decreases n,
{
    if n < 10 {
        assert(decimal(n).drop_last() =~= Seq::<char>::empty());
        assert(digits_value(Seq::<char>::empty()) == 0);
        assert(decimal(n).last() == digit_char(n));
        assert(digits_value(decimal(n)) == digit_value(digit_char(n)));
    } else {
        lemma_decimal_value(n / 10);
        assert(decimal(n).drop_last() =~= decimal(n / 10));
        assert(decimal(n).last() == digit_char(n % 10));
    }
}

/// Two numbers with the same decimal text are the same number.
pub proof fn lemma_decimal_injective(a: nat, b: nat)
    requires
        decimal(a) == decimal(b),
    ensures
        a == b,
{
    lemma_decimal_value(a);
    lemma_decimal_value(b);
}

/// The text of one digit.
fn digit_text(d: u64) -> (r: &'static str)
    requires
        d < 10,
    ensures
        r@ == seq![digit_char(d as nat)],
{
    proof {
        reveal_strlit("0");
        reveal_strlit("1");
        reveal_strlit("2");
        reveal_strlit("3");
        reveal_strlit("4");
        reveal_strlit("5");
        reveal_strlit("6");
        reveal_strlit("7");
        reveal_strlit("8");
        reveal_strlit("9");
    }
    let r = if d == 0 {
        "0"
    } else if d == 1 {
        "1"
    } else if d == 2 {
        "2"
    } else if d == 3 {
        "3"
    } else if d == 4 {
        "4"
    } else if d == 5 {
        "5"
    } else if d == 6 {
        "6"
    } else if d == 7 {
        "7"
    } else if d == 8 {
        "8"
    } else {
        "9"
    };
    assert(r@ =~= seq![digit_char(d as nat)]);
    r
}

/// Appends the decimal text of `n`.
pub fn append_decimal(out: &mut String, n: u64)
    ensures
        final(out)@ == old(out)@ + decimal(n as nat),
    decreases n,
{
    if n >= 10 {
        append_decimal(out, n / 10);
    }
    out.append(digit_text(n % 10));
    proof {
        if n >= 10 {
            assert(old(out)@ + decimal((n / 10) as nat) + seq![digit_char((n % 10) as nat)]
                =~= old(out)@ + decimal(n as nat));
        } else {
            assert(seq![digit_char((n % 10) as nat)] =~= decimal(n as nat));
        }
    }
}

/// The decimal text of `n`.
pub fn decimal_text(n: u64) -> (r: String)
    ensures
        r@ == decimal(n as nat),
{
    let mut out = String::new();
    append_decimal(&mut out, n);
    assert(Seq::<char>::empty() + decimal(n as nat) =~= decimal(n as nat));
    out
}

/// Whether two texts hold the same characters.
pub fn same_text(a: &str, b: &str) -> (r: bool)
    ensures
        r == (a@ == b@),
{
    let mut rest = b.chars();
    for c in walk: a.chars()
        invariant
            walk.seq() == a@,
            0 <= walk.index() <= a@.len(),
            walk.index() <= b@.len(),
            a@.take(walk.index()) == b@.take(walk.index()),
            IteratorSpec::remaining(&rest) == b@.skip(walk.index()),
    {
        let ghost i = walk.index();
        let next = rest.next();
        proof {
            let left = b@.skip(i);
            if left.len() > 0 {
                assert(left.drop_first() =~= b@.skip(i + 1));
                assert(left[0] == b@[i]);
            }
        }
        match next {
            Some(d) => {
                if c != d {
                    assert(a@[i] != b@[i]);
                    return false;
                }
                assert(a@.take(i + 1) =~= a@.take(i).push(c));
                assert(b@.take(i + 1) =~= b@.take(i).push(c));
            },
            None => {
                return false;
            },
        }
    }
    let done = rest.next().is_none();
    proof {
        let left = b@.skip(a@.len() as int);
        assert(a@.take(a@.len() as int) =~= a@);
        if left.len() == 0 {
            assert(b@.take(a@.len() as int) =~= b@);
        }
    }
    done
}

/// The characters of a text.
pub fn chars_of(s: &str) -> (r: Vec<char>)
    ensures
        r@ == s@,
{
    let mut r: Vec<char> = Vec::new();
    for c in walk: s.chars()
        invariant
            walk.seq() == s@,
            r@ == s@.take(walk.index()),
    {
        r.push(c);
        assert(r@ =~= s@.take(walk.index() + 1));
    }
    assert(s@.take(s@.len() as int) =~= s@);
    r
}

/// Whether a text ends with another one.
pub open spec fn ends_with(s: Seq<char>, suffix: Seq<char>) -> bool {
    suffix.len() <= s.len() && s.skip(s.len() - suffix.len()) == suffix
}

/// What a text holds before its suffix, if it ends with that.
pub fn strip_suffix<'a>(s: &'a str, suffix: &str) -> (r: Option<&'a str>)
    ensures
        match r {
            Some(t) => s@ == t@ + suffix@,
            None => !ends_with(s@, suffix@),
        },
{
    let n: usize = s.unicode_len();
    let m: usize = suffix.unicode_len();
    if m > n {
        return None;
    }
    let tail = s.substring_char(n - m, n);
    assert(tail@ =~= s@.skip(n - m));
    if same_text(tail, suffix) {
        let head = s.substring_char(0, n - m);
        assert(head@ + suffix@ =~= s@);
        Some(head)
    } else {
        None
    }
}

/// A text with a suffix behind it ends with that.
pub proof fn lemma_ends_with(head: Seq<char>, suffix: Seq<char>)
    ensures
        ends_with(head + suffix, suffix),
{
    assert((head + suffix).skip(head.len() as int) =~= suffix);
}

/// Before one suffix, texts are the same only if their heads are.
pub proof fn lemma_same_tail(a: Seq<char>, b: Seq<char>, tail: Seq<char>)
    requires
        a + tail == b + tail,
    ensures
        a == b,
{
    assert((a + tail).len() == (b + tail).len());
    assert(a =~= (a + tail).take(a.len() as int));
    assert(b =~= (b + tail).take(b.len() as int));
}

/// Behind the same head, texts are the same only if their tails are.
pub proof fn lemma_same_head(head: Seq<char>, a: Seq<char>, b: Seq<char>)
    requires
        head + a == head + b,
    ensures
        a == b,
{
    let n = head.len() as int;
    assert(a =~= (head + a).skip(n));
    assert(b =~= (head + b).skip(n));
}

/// A number with `_` behind it can be read off the front of a text.
pub proof fn lemma_fields(a: nat, x: Seq<char>, b: nat, y: Seq<char>)
    requires
        decimal(a) + seq!['_'] + x == decimal(b) + seq!['_'] + y,
    ensures
        a == b,
        x == y,
{
    let s = decimal(a) + seq!['_'] + x;
    let t = decimal(b) + seq!['_'] + y;
    let m = decimal(a).len() as int;
    let n = decimal(b).len() as int;
    lemma_decimal_value(a);
    lemma_decimal_value(b);
    assert(s[m] == '_');
    assert(t[n] == '_');
    if m < n {
        assert(t[m] == decimal(b)[m]);
    } else if n < m {
        assert(s[n] == decimal(a)[n]);
    }
    assert(decimal(a) =~= s.take(m));
    assert(decimal(b) =~= t.take(n));
    assert(x =~= s.skip(m + 1));
    assert(y =~= t.skip(n + 1));
    lemma_decimal_injective(a, b);
}

// ---------------------------------------------------------------------------
// Words
// ---------------------------------------------------------------------------

/// Whether a character separates words: the white space of Unicode.
pub open spec fn is_space(c: char) -> bool {
    let n = c as u32;
    (0x09 <= n && n <= 0x0d) || n == 0x20 || n == 0x85 || n == 0xa0 || n == 0x1680 || (0x2000 <= n && n <= 0x200a) || n
        == 0x2028 || n == 0x2029 || n == 0x202f || n == 0x205f || n == 0x3000
}

/// How many characters there are before the first separator.
pub open spec fn word_len(s: Seq<char>) -> int
    decreases s.len(),
{
    if s.len() == 0 || is_space(s[0]) {
        0
    } else {
        1 + word_len(s.drop_first())
    }
}

/// The words of a text: its longest runs of characters without a separator.
pub open spec fn words(s: Seq<char>) -> Seq<Seq<char>>
    decreases s.len(),
{
    if s.len() == 0 {
        Seq::empty()
    } else if is_space(s[0]) {
        words(s.drop_first())
    } else {
        proof {
            lemma_word_len(s);
        }
        seq![s.take(word_len(s))] + words(s.skip(word_len(s)))
    }
}

/// Texts with a blank between each two.
pub open spec fn joined(parts: Seq<Seq<char>>) -> Seq<char>
    decreases parts.len(),
{
    if parts.len() == 0 {
        Seq::empty()
    } else if parts.len() == 1 {
        parts[0]
    } else {
        parts[0] + seq![' '] + joined(parts.drop_first())
    }
}

/// Whether a text is one word.
pub open spec fn is_word(s: Seq<char>) -> bool {
    s.len() > 0 && forall|i: int| 0 <= i < s.len() ==> !is_space(#[trigger] s[i])
}

pub proof fn lemma_word_len(s: Seq<char>)
    ensures
        0 <= word_len(s) <= s.len(),
        s.len() > 0 && !is_space(s[0]) ==> word_len(s) > 0,
        forall|i: int| 0 <= i < word_len(s) ==> !is_space(#[trigger] s[i]),
        word_len(s) < s.len() ==> is_space(s[word_len(s)]),
    decreases s.len(),
{
    if s.len() > 0 && !is_space(s[0]) {
        let rest = s.drop_first();
        lemma_word_len(rest);
        assert forall|i: int| 0 <= i < word_len(s) implies !is_space(#[trigger] s[i]) by {
            if i > 0 {
                assert(s[i] == rest[i - 1]);
            }
        }
        if word_len(s) < s.len() {
            assert(s[word_len(s)] == rest[word_len(rest)]);
        }
    }
}

/// The length of a word that ends where a separator, or the text, does.
pub proof fn lemma_word_len_is(s: Seq<char>, n: int)
    requires
        0 <= n <= s.len(),
        forall|i: int| 0 <= i < n ==> !is_space(#[trigger] s[i]),
        n < s.len() ==> is_space(s[n]),
    ensures
        word_len(s) == n,
{
    lemma_word_len(s);
    if word_len(s) < n {
        assert(!is_space(s[word_len(s)]));
    }
}

/// The words of joined words are those words.
pub proof fn lemma_words_of_joined(parts: Seq<Seq<char>>)
    requires
        forall|i: int| 0 <= i < parts.len() ==> is_word(#[trigger] parts[i]),
    ensures
        words(joined(parts)) == parts,
    decreases parts.len(),
{
    if parts.len() == 0 {
    } else {
        let w = parts[0];
        let rest = parts.drop_first();
        let s = joined(parts);
        assert(is_word(parts[0]));
        assert forall|i: int| 0 <= i < rest.len() implies is_word(#[trigger] rest[i]) by {
            assert(rest[i] == parts[i + 1]);
        }
        lemma_words_of_joined(rest);
        if parts.len() == 1 {
            assert(s == w);
            lemma_word_len_is(s, w.len() as int);
            assert(s.take(w.len() as int) =~= w);
            assert(s.skip(w.len() as int) =~= Seq::<char>::empty());
            assert(seq![w] + Seq::<Seq<char>>::empty() =~= parts);
        } else {
            let tail = s.skip(w.len() as int);
            assert forall|i: int| 0 <= i < w.len() implies !is_space(#[trigger] s[i]) by {
                assert(s[i] == w[i]);
            }
            assert(s[w.len() as int] == ' ');
            lemma_word_len_is(s, w.len() as int);
            assert(s[0] == w[0]);
            assert(s.take(w.len() as int) =~= w);
            assert(tail =~= seq![' '] + joined(rest));
            assert(tail.drop_first() =~= joined(rest));
            assert(words(tail) == words(joined(rest)));
            assert(seq![w] + rest =~= parts);
        }
    }
}

/// Joining one more text.
pub proof fn lemma_joined_push(parts: Seq<Seq<char>>, i: int)
    requires
        0 < i < parts.len(),
    ensures
        joined(parts.take(i + 1)) == joined(parts.take(i)) + seq![' '] + parts[i],
    decreases i,
{
    let a = parts.take(i + 1);
    let b = parts.take(i);
    if i == 1 {
        assert(a.drop_first() =~= seq![parts[1]]);
        assert(b =~= seq![parts[0]]);
        assert(joined(a.drop_first()) == parts[1]);
    } else {
        let rest = parts.drop_first();
        lemma_joined_push(rest, i - 1);
        assert(a.drop_first() =~= rest.take(i));
        assert(b.drop_first() =~= rest.take(i - 1));
        assert(a[0] + seq![' '] + (joined(rest.take(i - 1)) + seq![' '] + rest[i - 1]) =~= (a[0] + seq![' '] + joined(
            rest.take(i - 1),
        )) + seq![' '] + parts[i]);
    }
}

/// Whether a character separates words.
pub fn is_separator(c: char) -> (r: bool)
    ensures
        r == is_space(c),
{
    let n: u32 = c as u32;
    (0x09 <= n && n <= 0x0d) || n == 0x20 || n == 0x85 || n == 0xa0 || n == 0x1680 || (0x2000 <= n && n <= 0x200a) || n
        == 0x2028 || n == 0x2029 || n == 0x202f || n == 0x205f || n == 0x3000
}

/// The words of a text.
pub fn split_words(s: &str) -> (r: Vec<Vec<char>>)
    ensures
        r@.len() == words(s@).len(),
        forall|i: int| 0 <= i < r@.len() ==> (#[trigger] r@[i])@ == words(s@)[i],
{
    let v = chars_of(s);
    let mut r: Vec<Vec<char>> = Vec::new();
    let mut i: usize = 0;
    let ghost mut found: Seq<Seq<char>> = Seq::empty();
    assert(s@.skip(0) =~= s@);
    assert(found + words(s@) =~= words(s@));
    while i < v.len()
        invariant
            v@ == s@,
            i <= v@.len(),
            r@.len() == found.len(),
            forall|k: int| 0 <= k < r@.len() ==> (#[trigger] r@[k])@ == found[k],
            found + words(s@.skip(i as int)) == words(s@),
        decreases v@.len() - i,
    {
        let ghost left = s@.skip(i as int);
        assert(left[0] == v@[i as int]);
        if is_separator(v[i]) {
            assert(left.drop_first() =~= s@.skip(i + 1));
            i += 1;
        } else {
            let start: usize = i;
            let mut word: Vec<char> = Vec::new();
            while i < v.len() && !is_separator(v[i])
                invariant
                    v@ == s@,
                    start <= i <= v@.len(),
                    left == s@.skip(start as int),
                    word@ == left.take(i - start),
                    forall|k: int| 0 <= k < i - start ==> !is_space(#[trigger] left[k]),
                decreases v@.len() - i,
            {
                assert(left[i - start] == v@[i as int]);
                word.push(v[i]);
                assert(word@ =~= left.take(i + 1 - start));
                i += 1;
            }
            proof {
                if i < v@.len() {
                    assert(left[i - start] == v@[i as int]);
                }
                lemma_word_len_is(left, i - start);
                assert(left.skip(i - start) =~= s@.skip(i as int));
                assert(words(left) == seq![word@] + words(s@.skip(i as int)));
                assert(found + (seq![word@] + words(s@.skip(i as int))) =~= found.push(word@) + words(
                    s@.skip(i as int),
                ));
                found = found.push(word@);
            }
            r.push(word);
        }
    }
    proof {
        assert(s@.skip(i as int) =~= Seq::<char>::empty());
        assert(found + Seq::<Seq<char>>::empty() =~= found);
    }
    r
}

/// Whether the characters from `from` to `to` are those of `s`.
pub fn range_is(v: &Vec<char>, from: usize, to: usize, s: &str) -> (r: bool)
    requires
        from <= to <= v@.len(),
    ensures
        r == (v@.subrange(from as int, to as int) == s@),
{
    let ghost part = v@.subrange(from as int, to as int);
    let mut i: usize = from;
    for c in walk: s.chars()
        invariant
            walk.seq() == s@,
            from <= to <= v@.len(),
            part == v@.subrange(from as int, to as int),
            from <= i <= to,
            i - from == walk.index(),
            part.take(i - from) == s@.take(i - from),
    {
        if i == to {
            assert(part.len() != s@.len());
            return false;
        }
        assert(part[i - from] == v@[i as int]);
        if v[i] != c {
            assert(part[i - from] != s@[i - from]);
            return false;
        }
        assert(part.take(i + 1 - from) =~= part.take(i - from).push(c));
        assert(s@.take(i + 1 - from) =~= s@.take(i - from).push(c));
        i += 1;
    }
    proof {
        assert(s@.take(s@.len() as int) =~= s@);
        if i == to {
            assert(part.take(part.len() as int) =~= part);
        } else {
            assert(part.len() != s@.len());
        }
    }
    i == to
}

} // verus!
