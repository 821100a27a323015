//! Characters, strings and the words of a line.

use vstd::prelude::*;

verus! {

/// Trusted, not proved: what the standard library's `String::push` does.
/// After the call the string holds the characters that it held before,
/// followed by `c`.
pub assume_specification[ String::push ](s: &mut String, c: char)
    ensures
        final(s)@ == old(s)@.push(c),
;

/// The characters of a string slice, in order.
pub fn chars_of(s: &str) -> (out: Vec<char>)
    ensures
        out@ == s@,
{
    let mut out: Vec<char> = Vec::new();
    for c in it: s.chars()
        invariant
            it.seq() == s@,
            out@ == s@.take(it.index()),
    {
        out.push(c);
        assert(out@ =~= s@.take(it.index() + 1));
    }
    assert(out@ =~= s@);
    out
}

/// The string that holds the given characters, in order.
pub fn string_of(chars: &Vec<char>) -> (out: String)
    ensures
        out@ == chars@,
{
    let mut out = String::new();
    let mut k: usize = 0;
    while k < chars.len()
        invariant
            k <= chars@.len(),
            out@ == chars@.take(k as int),
        decreases chars@.len() - k,
    {
        out.push(chars[k]);
        k = k + 1;
        assert(out@ =~= chars@.take(k as int));
    }
    assert(out@ =~= chars@);
    out
}

/// Whether a character separates words: the characters that Unicode lists
/// with the property `White_Space`.
pub open spec fn is_space(c: char) -> bool {
    ||| '\u{9}' <= c <= '\u{d}'
    ||| c == ' '
    ||| c == '\u{85}'
    ||| c == '\u{a0}'
    ||| c == '\u{1680}'
    ||| '\u{2000}' <= c <= '\u{200a}'
    ||| c == '\u{2028}'
    ||| c == '\u{2029}'
    ||| c == '\u{202f}'
    ||| c == '\u{205f}'
    ||| c == '\u{3000}'
}

/// The words of a text: its longest runs of characters that are no spaces,
/// in order. The definition reads the text one character at a time: a space
/// adds nothing, a character after another one makes the last word longer,
/// and any other character starts a word.
pub open spec fn words(s: Seq<char>) -> Seq<Seq<char>>
    decreases s.len(),
{
    if s.len() == 0 {
        Seq::empty()
    } else {
        let before = words(s.drop_last());
        if is_space(s.last()) {
            before
        } else if s.len() > 1 && !is_space(s[s.len() - 2]) {
            before.drop_last().push(before.last().push(s.last()))
        } else {
            before.push(seq![s.last()])
        }
    }
}

/// The pieces of a text between its line feeds. A text with `n` line feeds
/// has `n + 1` pieces, some of which may be empty.
pub open spec fn lines(s: Seq<char>) -> Seq<Seq<char>>
    decreases s.len(),
{
    if s.len() == 0 {
        seq![Seq::empty()]
    } else {
        let before = lines(s.drop_last());
        if s.last() == '\n' {
            before.push(Seq::empty())
        } else {
            before.drop_last().push(before.last().push(s.last()))
        }
    }
}

/// The decimal digit for a number below ten.
pub open spec fn digit(d: nat) -> char {
    ((48 + d) as u8) as char
}

/// A number written in decimal, without leading zeros.
pub open spec fn decimal_of(n: nat) -> Seq<char>
    decreases n,
{
    if n < 10 {
        seq![digit(n)]
    } else {
        decimal_of(n / 10).push(digit(n % 10))
    }
}

/// A text that ends in a character that is no space has a last word, and
/// every word is free of spaces and not empty.
pub proof fn lemma_words(s: Seq<char>)
    ensures
        s.len() > 0 && !is_space(s.last()) ==> words(s).len() > 0,
        forall|w: int|
            0 <= w < words(s).len() ==> (#[trigger] words(s)[w]).len() > 0 && forall|i: int|
                0 <= i < words(s)[w].len() ==> !is_space(#[trigger] words(s)[w][i]),
    decreases s.len(),
{
    if s.len() > 0 {
        let init = s.drop_last();
        let before = words(init);
        lemma_words(init);
        if !is_space(s.last()) && s.len() > 1 && !is_space(s[s.len() - 2]) {
            assert(init.last() == s[s.len() - 2]);
            let longer = before.last().push(s.last());
            assert forall|w: int| 0 <= w < words(s).len() implies (#[trigger] words(s)[w]).len()
                > 0 && forall|i: int|
                0 <= i < words(s)[w].len() ==> !is_space(#[trigger] words(s)[w][i]) by {
                if w == before.len() - 1 {
                    assert(words(s)[w] == longer);
                    assert forall|i: int| 0 <= i < longer.len() implies !is_space(
                        #[trigger] longer[i],
                    ) by {
                        if i < longer.len() - 1 {
                            assert(longer[i] == before.last()[i]);
                        }
                    }
                } else {
                    assert(words(s)[w] == before[w]);
                }
            }
        } else if !is_space(s.last()) {
            assert forall|w: int| 0 <= w < words(s).len() implies (#[trigger] words(s)[w]).len()
                > 0 && forall|i: int|
                0 <= i < words(s)[w].len() ==> !is_space(#[trigger] words(s)[w][i]) by {
                if w < before.len() {
                    assert(words(s)[w] == before[w]);
                }
            }
        }
    }
}

/// Whether a text is one word: not empty and free of spaces.
pub open spec fn is_word(w: Seq<char>) -> bool {
    &&& w.len() > 0
    &&& forall|i: int| 0 <= i < w.len() ==> !is_space(#[trigger] w[i])
}

/// A word written behind a text that does not end in the middle of a word
/// is one more word.
pub proof fn lemma_words_push_word(s: Seq<char>, w: Seq<char>)
    requires
        is_word(w),
        s.len() == 0 || is_space(s.last()),
    ensures
        words(s + w) == words(s).push(w),
    decreases w.len(),
{
    let whole = s + w;
    let shorter = w.drop_last();
    assert(whole.drop_last() =~= s + shorter);
    assert(whole.last() == w.last());
    if shorter.len() == 0 {
        assert(s + shorter =~= s);
        assert(seq![w.last()] =~= w);
    } else {
        assert(is_word(shorter)) by {
            assert forall|i: int| 0 <= i < shorter.len() implies !is_space(
                #[trigger] shorter[i],
            ) by {
                assert(shorter[i] == w[i]);
            }
        }
        lemma_words_push_word(s, shorter);
        assert(whole[whole.len() - 2] == w[w.len() - 2]);
        assert(words(s).push(shorter).drop_last() =~= words(s));
        assert(shorter.push(w.last()) =~= w);
    }
}

/// Two words with a blank between them are the two words of their line.
pub proof fn lemma_words_pair(a: Seq<char>, b: Seq<char>)
    requires
        is_word(a),
        is_word(b),
    ensures
        words(a + seq![' '] + b) == seq![a, b],
{
    let empty = Seq::<char>::empty();
    lemma_words_push_word(empty, a);
    assert(empty + a =~= a);
    let left = a + seq![' '];
    assert(left.drop_last() =~= a);
    assert(words(left) == words(a));
    lemma_words_push_word(left, b);
    assert(words(empty).push(a).push(b) =~= seq![a, b]);
}

/// A text that is empty or ends in a line feed has an empty last line.
pub proof fn lemma_lines_fresh(s: Seq<char>)
    requires
        s.len() == 0 || s.last() == '\n',
    ensures
        lines(s).len() > 0,
        lines(s).last() == Seq::<char>::empty(),
{
}

/// A piece without line feeds, written behind a text, makes the last line
/// of the text longer.
pub proof fn lemma_lines_push_piece(s: Seq<char>, piece: Seq<char>)
    requires
        forall|i: int| 0 <= i < piece.len() ==> #[trigger] piece[i] != '\n',
    ensures
        lines(s).len() > 0,
        lines(s + piece) == lines(s).drop_last().push(lines(s).last() + piece),
    decreases piece.len(),
{
    lemma_lines(s);
    if piece.len() == 0 {
        assert(s + piece =~= s);
        assert(lines(s).last() + piece =~= lines(s).last());
        assert(lines(s).drop_last().push(lines(s).last()) =~= lines(s));
    } else {
        let shorter = piece.drop_last();
        let whole = s + piece;
        assert(whole.drop_last() =~= s + shorter);
        assert(whole.last() == piece.last());
        assert forall|i: int| 0 <= i < shorter.len() implies #[trigger] shorter[i] != '\n' by {
            assert(shorter[i] == piece[i]);
        }
        lemma_lines_push_piece(s, shorter);
        let before = lines(s).drop_last().push(lines(s).last() + shorter);
        assert(before.drop_last() =~= lines(s).drop_last());
        assert((lines(s).last() + shorter).push(piece.last()) =~= lines(s).last() + piece);
    }
}

/// Every text has at least one line, and no line holds a line feed.
pub proof fn lemma_lines(s: Seq<char>)
    ensures
        lines(s).len() > 0,
        forall|l: int, i: int|
            0 <= l < lines(s).len() && 0 <= i < lines(s)[l].len() ==> #[trigger] lines(
                s,
            )[l][i] != '\n',
    decreases s.len(),
{
    if s.len() > 0 {
        lemma_lines(s.drop_last());
    }
}

/// Whether a character separates words.
pub fn space(c: char) -> (b: bool)
    ensures
        b == is_space(c),
{
    ('\u{9}' <= c && c <= '\u{d}') || c == ' ' || c == '\u{85}' || c == '\u{a0}' || c
        == '\u{1680}' || ('\u{2000}' <= c && c <= '\u{200a}') || c == '\u{2028}' || c
        == '\u{2029}' || c == '\u{202f}' || c == '\u{205f}' || c == '\u{3000}'
}

/// Splits a text into its words.
pub fn split_words(text: &Vec<char>) -> (out: Vec<Vec<char>>)
    ensures
        out@.len() == words(text@).len(),
        forall|w: int| 0 <= w < out@.len() ==> (#[trigger] out@[w])@ == words(text@)[w],
{
    let mut out: Vec<Vec<char>> = Vec::new();
    let mut word: Vec<char> = Vec::new();
    let mut k: usize = 0;
    while k < text.len()
        invariant
            k <= text@.len(),
            word@.len() > 0 <==> k > 0 && !is_space(text@[k - 1]),
            word@.len() > 0 ==> words(text@.take(k as int)).len() == out@.len() + 1
                && words(text@.take(k as int)).last() == word@,
            word@.len() == 0 ==> words(text@.take(k as int)).len() == out@.len(),
            forall|w: int|
                0 <= w < out@.len() ==> (#[trigger] out@[w])@ == words(text@.take(k as int))[w],
        decreases text@.len() - k,
    {
        let c = text[k];
        proof {
            assert(text@.take(k + 1).drop_last() =~= text@.take(k as int));
            lemma_words(text@.take(k as int));
        }
        if space(c) {
            if word.len() > 0 {
                out.push(word);
                word = Vec::new();
            }
        } else {
            word.push(c);
        }
        k = k + 1;
    }
    assert(text@.take(k as int) =~= text@);
    if word.len() > 0 {
        out.push(word);
    }
    out
}

/// Splits a text at its line feeds.
pub fn split_lines(text: &Vec<char>) -> (out: Vec<Vec<char>>)
    ensures
        out@.len() == lines(text@).len(),
        forall|l: int| 0 <= l < out@.len() ==> (#[trigger] out@[l])@ == lines(text@)[l],
{
    let mut out: Vec<Vec<char>> = Vec::new();
    let mut line: Vec<char> = Vec::new();
    let mut k: usize = 0;
    while k < text.len()
        invariant
            k <= text@.len(),
            lines(text@.take(k as int)).len() == out@.len() + 1,
            lines(text@.take(k as int)).last() == line@,
            forall|l: int|
                0 <= l < out@.len() ==> (#[trigger] out@[l])@ == lines(text@.take(k as int))[l],
        decreases text@.len() - k,
    {
        let c = text[k];
        proof {
            assert(text@.take(k + 1).drop_last() =~= text@.take(k as int));
        }
        if c == '\n' {
            out.push(line);
            line = Vec::new();
        } else {
            line.push(c);
        }
        k = k + 1;
    }
    assert(text@.take(k as int) =~= text@);
    out.push(line);
    out
}

/// Writes a number in decimal.
pub fn decimal(n: usize) -> (text: String)
    ensures
        text@ == decimal_of(n as nat),
    decreases n,
{
    if n < 10 {
        let mut text = String::new();
        text.push((48u8 + n as u8) as char);
        assert(text@ =~= seq![digit(n as nat)]);
        text
    } else {
        let mut text = decimal(n / 10);
        text.push((48u8 + (n % 10) as u8) as char);
        text
    }
}

} // verus!
