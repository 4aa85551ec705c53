//! Justified text: the words of the input are put on lines of a given width
//! (in bytes) and spread over it with spaces.

use vstd::prelude::*;
use vstd::utf8::encode_utf8;
use crate::text::string_push;

verus! {

/// Whether `c` has the Unicode `White_Space` property.
pub open spec fn is_white(c: char) -> bool {
    let x = c as u32;
    ||| 0x9 <= x <= 0xd
    ||| x == 0x20
    ||| x == 0x85
    ||| x == 0xa0
    ||| x == 0x1680
    ||| 0x2000 <= x <= 0x200a
    ||| x == 0x2028
    ||| x == 0x2029
    ||| x == 0x202f
    ||| x == 0x205f
    ||| x == 0x3000
}

/// The length in bytes of the UTF-8 encoding of `w`.
pub open spec fn byte_len(w: Seq<char>) -> nat {
    encode_utf8(w).len()
}

/// The words of `s`: its maximal runs of characters without white space.
pub open spec fn split_words(s: Seq<char>) -> Seq<Seq<char>>
    decreases s.len(),
{
    if s.len() == 0 {
        Seq::empty()
    } else {
        let init = split_words(s.drop_last());
        let c = s.last();
        if is_white(c) {
            init
        } else if s.len() >= 2 && !is_white(s[s.len() - 2]) {
            init.update(init.len() - 1, init.last().push(c))
        } else {
            init.push(seq![c])
        }
    }
}

/// The words of each line with the sum of their byte lengths: a word goes
/// on the current line when the line's length, the word's and one more stay
/// within `width`, and starts a new line otherwise. The first line starts
/// empty.
pub open spec fn group_lines(words: Seq<Seq<char>>, width: nat) -> Seq<(Seq<Seq<char>>, nat)>
    decreases words.len(),
{
    if words.len() == 0 {
        seq![(Seq::<Seq<char>>::empty(), 0nat)]
    } else {
        let g = group_lines(words.drop_last(), width);
        let w = words.last();
        let line = g.last();
        if line.1 + byte_len(w) + 1 > width {
            g.push((seq![w], byte_len(w)))
        } else {
            g.update(g.len() - 1, (line.0.push(w), line.1 + byte_len(w)))
        }
    }
}

pub open spec fn spaces(n: nat) -> Seq<char> {
    Seq::new(n, |i: int| ' ')
}

/// The spaces after word `k` of `n`: `spw`, one more for the first `add`
/// words, none after the last word of a line of several.
pub open spec fn gap(n: nat, k: nat, spw: nat, add: nat) -> nat {
    if n == 1 {
        spw
    } else if k + 1 == n {
        0
    } else if k < add {
        spw + 1
    } else {
        spw
    }
}

/// The first `k` words of a line, each followed by its spaces.
pub open spec fn line_body(words: Seq<Seq<char>>, k: nat, spw: nat, add: nat) -> Seq<char>
    decreases k,
{
    if k == 0 {
        Seq::empty()
    } else {
        line_body(words, (k - 1) as nat, spw, add) + words[k - 1] + spaces(
            gap(words.len(), (k - 1) as nat, spw, add),
        )
    }
}

/// A line of `words` whose lengths sum to `len`, spread to `width` bytes:
/// the spaces left are shared out between the words, the first ones taking
/// one more; a single word is followed by all of them. Every line but the
/// last ends with a newline. A line without words is empty.
pub open spec fn line_text(words: Seq<Seq<char>>, len: nat, width: nat, is_last: bool) -> Seq<char> {
    let n = words.len();
    if n == 0 {
        Seq::empty()
    } else {
        let sp = (width - len) as nat;
        let spw = if n == 1 {
            sp
        } else {
            sp / ((n - 1) as nat)
        };
        let add = if n == 1 {
            0
        } else {
            sp % ((n - 1) as nat)
        };
        line_body(words, n, spw, add) + if is_last {
            Seq::<char>::empty()
        } else {
            seq!['\n']
        }
    }
}

/// The text of the first `m` lines.
pub open spec fn text_of_lines(lines: Seq<(Seq<Seq<char>>, nat)>, width: nat, m: nat) -> Seq<char>
    decreases m,
{
    if m == 0 {
        Seq::empty()
    } else {
        text_of_lines(lines, width, (m - 1) as nat) + line_text(
            lines[m - 1].0,
            lines[m - 1].1,
            width,
            m == lines.len(),
        )
    }
}

/// The justified text of `input` for lines of `width` bytes.
pub open spec fn transform_spec(input: Seq<char>, width: nat) -> Seq<char> {
    let lines = group_lines(split_words(input), width);
    text_of_lines(lines, width, lines.len())
}

/// The sum of the byte lengths of `ws`.
pub open spec fn sum_bytes(ws: Seq<Seq<char>>) -> nat
    decreases ws.len(),
{
    if ws.len() == 0 {
        0
    } else {
        sum_bytes(ws.drop_last()) + byte_len(ws.last())
    }
}

proof fn lemma_encode_concat(a: Seq<char>, b: Seq<char>)
    ensures
        encode_utf8(a + b) == encode_utf8(a) + encode_utf8(b),
    decreases a.len(),
{
    if a.len() == 0 {
        assert(a + b =~= b);
    } else {
        lemma_encode_concat(a.drop_first(), b);
        assert((a + b).drop_first() =~= a.drop_first() + b);
        assert((a + b)[0] == a[0]);
    }
}

proof fn lemma_byte_len_push(w: Seq<char>, c: char)
    ensures
        byte_len(w.push(c)) == byte_len(w) + byte_len(seq![c]),
{
    lemma_encode_concat(w, seq![c]);
    assert(w + seq![c] =~= w.push(c));
}

/// The words of a text take no more bytes than the text.
proof fn lemma_words_bytes(s: Seq<char>)
    ensures
        sum_bytes(split_words(s)) <= byte_len(s),
        s.len() > 0 && !is_white(s.last()) ==> split_words(s).len() > 0,
    decreases s.len(),
{
    if s.len() > 0 {
        let t = s.drop_last();
        let c = s.last();
        lemma_words_bytes(t);
        lemma_byte_len_push(t, c);
        assert(t.push(c) =~= s);
        let init = split_words(t);
        if is_white(c) {
        } else if s.len() >= 2 && !is_white(s[s.len() - 2]) {
            assert(t.last() == s[s.len() - 2]);
            let w = init.last();
            lemma_byte_len_push(w, c);
            let u = init.update(init.len() - 1, w.push(c));
            assert(u.drop_last() =~= init.drop_last());
        } else {
            let u = init.push(seq![c]);
            assert(u.drop_last() =~= init);
        }
    }
}

/// The spaces after the first `k` words of a line of `n`.
pub open spec fn gap_total(n: nat, k: nat, spw: nat, add: nat) -> nat
    decreases k,
{
    if k == 0 {
        0
    } else {
        gap_total(n, (k - 1) as nat, spw, add) + gap(n, (k - 1) as nat, spw, add)
    }
}

proof fn lemma_spaces_bytes(n: nat)
    ensures
        byte_len(spaces(n)) == n,
    decreases n,
{
    if n == 0 {
        assert(spaces(0) =~= Seq::<char>::empty());
    } else {
        lemma_spaces_bytes((n - 1) as nat);
        assert(spaces(n) =~= spaces((n - 1) as nat).push(' '));
        lemma_byte_len_push(spaces((n - 1) as nat), ' ');
        let one = seq![' '];
        assert(one.drop_first() =~= Seq::<char>::empty());
        assert(encode_utf8(one.drop_first()) =~= Seq::<u8>::empty());
        assert(vstd::utf8::has_width_1_encoding(one[0] as u32));
        assert(encode_utf8(one) == vstd::utf8::encode_scalar(one[0] as u32) + encode_utf8(one.drop_first()));
    }
}

/// Each line's length is the sum of its words' byte lengths and, when no
/// word is longer than `width`, at most `width`.
proof fn lemma_group_lens(words: Seq<Seq<char>>, width: nat)
    requires
        forall|k: int| 0 <= k < words.len() ==> byte_len(#[trigger] words[k]) <= width,
    ensures
        group_lines(words, width).len() >= 1,
        forall|i: int|
            0 <= i < group_lines(words, width).len() ==> (#[trigger] group_lines(words, width)[i]).1
                == sum_bytes(group_lines(words, width)[i].0) && group_lines(words, width)[i].1 <= width,
    decreases words.len(),
{
    if words.len() > 0 {
        let init = words.drop_last();
        assert forall|k: int| 0 <= k < init.len() implies byte_len(#[trigger] init[k]) <= width by {
            assert(init[k] == words[k]);
        }
        lemma_group_lens(init, width);
        let g = group_lines(init, width);
        let w = words.last();
        let line = g.last();
        assert(g[g.len() - 1] == line);
        assert(words[words.len() - 1] == w);
        if line.1 + byte_len(w) + 1 > width {
            let g2 = g.push((seq![w], byte_len(w)));
            assert(seq![w].drop_last() =~= Seq::<Seq<char>>::empty());
            assert(seq![w].last() == w);
            assert(byte_len(words[words.len() - 1]) <= width);
            assert(sum_bytes(Seq::<Seq<char>>::empty()) == 0);
            assert(sum_bytes(seq![w]) == byte_len(w));
            assert forall|i: int| 0 <= i < g2.len() implies (#[trigger] g2[i]).1 == sum_bytes(g2[i].0)
                && g2[i].1 <= width by {
                if i < g.len() {
                    assert(g2[i] == g[i]);
                }
            }
        } else {
            let g2 = g.update(g.len() - 1, (line.0.push(w), line.1 + byte_len(w)));
            assert(line.0.push(w).drop_last() =~= line.0);
            assert(line.0.push(w).last() == w);
            assert(sum_bytes(line.0.push(w)) == sum_bytes(line.0) + byte_len(w));
            assert forall|i: int| 0 <= i < g2.len() implies (#[trigger] g2[i]).1 == sum_bytes(g2[i].0)
                && g2[i].1 <= width by {
                if i < g.len() - 1 {
                    assert(g2[i] == g[i]);
                }
            }
        }
    }
}

proof fn lemma_line_body_bytes(words: Seq<Seq<char>>, k: nat, spw: nat, add: nat)
    requires
        k <= words.len(),
    ensures
        byte_len(line_body(words, k, spw, add)) == sum_bytes(words.take(k as int)) + gap_total(
            words.len(),
            k,
            spw,
            add,
        ),
    decreases k,
{
    if k == 0 {
        assert(words.take(0) =~= Seq::<Seq<char>>::empty());
    } else {
        let k1 = (k - 1) as nat;
        lemma_line_body_bytes(words, k1, spw, add);
        let a = line_body(words, k1, spw, add);
        let g = gap(words.len(), k1, spw, add);
        lemma_encode_concat(a, words[k1 as int]);
        lemma_encode_concat(a + words[k1 as int], spaces(g));
        lemma_spaces_bytes(g);
        assert(words.take(k as int).drop_last() =~= words.take(k1 as int));
        assert(words.take(k as int).last() == words[k1 as int]);
    }
}

/// The spaces of a line of `n` words: `spw` after each word but the last,
/// one more after the first `add`.
proof fn lemma_gap_total(n: nat, k: nat, spw: nat, add: nat)
    requires
        2 <= n,
        k < n,
        add < n - 1,
    ensures
        gap_total(n, k, spw, add) == k * spw + if k < add {
            k
        } else {
            add
        },
    decreases k,
{
    if k > 0 {
        let k1 = (k - 1) as nat;
        lemma_gap_total(n, k1, spw, add);
        assert(k * spw == k1 * spw + spw) by (nonlinear_arith)
            requires
                k1 + 1 == k,
        ;
        assert(gap(n, k1, spw, add) == spw + if k1 < add {
            1nat
        } else {
            0nat
        });
    } else {
        assert(0 * spw == 0) by (nonlinear_arith);
    }
}

/// Every line of the justified text that holds a word takes exactly
/// `width` bytes, its newline aside: the spaces added make up what the
/// words leave.
pub proof fn law_lines_fill_width(input: Seq<char>, width: nat, i: int)
    requires
        forall|k: int|
            0 <= k < split_words(input).len() ==> byte_len(#[trigger] split_words(input)[k]) <= width,
        0 <= i < group_lines(split_words(input), width).len(),
        group_lines(split_words(input), width)[i].0.len() > 0,
    ensures
        byte_len(
            line_text(
                group_lines(split_words(input), width)[i].0,
                group_lines(split_words(input), width)[i].1,
                width,
                true,
            ),
        ) == width,
{
    let lines = group_lines(split_words(input), width);
    lemma_group_lens(split_words(input), width);
    let ws = lines[i].0;
    let len = lines[i].1;
    let n = ws.len();
    let sp = (width - len) as nat;
    let spw = if n == 1 {
        sp
    } else {
        sp / ((n - 1) as nat)
    };
    let add = if n == 1 {
        0
    } else {
        sp % ((n - 1) as nat)
    };
    lemma_line_body_bytes(ws, n, spw, add);
    assert(ws.take(n as int) =~= ws);
    assert(line_body(ws, n, spw, add) + Seq::<char>::empty() =~= line_body(ws, n, spw, add));
    if n == 1 {
        assert(gap_total(1, 0, spw, add) == 0);
    } else {
        let d = (n - 1) as nat;
        lemma_gap_total(n, d, spw, add);
        assert(gap(n, d, spw, add) == 0);
        vstd::arithmetic::div_mod::lemma_fundamental_div_mod(sp as int, d as int);
        assert(d * spw == spw * d) by (nonlinear_arith);
    }
}

/// A line of text being filled with words.
#[derive(Debug)]
pub struct WordsWithSpacesIndices<'a> {
    words_: Vec<&'a str>,
    len_: usize,
    is_last_: bool,
}

#[derive(Clone, Copy, Debug, PartialEq, Eq, Structural)]
pub enum PushWordsError {
    /// The word does not fit on the line.
    Overflow,
}

/// Appends `n` spaces.
fn push_spaces(s: &mut String, n: usize)
    ensures
        final(s)@ == old(s)@ + spaces(n as nat),
{
    let mut i: usize = 0;
    while i < n
        invariant
            i <= n,
            s@ == old(s)@ + spaces(i as nat),
        decreases n - i,
    {
        string_push(s, ' ');
        i += 1;
        proof {
            assert(s@ =~= old(s)@ + spaces(i as nat));
        }
    }
}

impl<'a> WordsWithSpacesIndices<'a> {
    /// The words of the line.
    pub closed spec fn words(&self) -> Seq<Seq<char>> {
        self.words_@.map_values(|w: &str| w@)
    }

    /// The sum of the words' byte lengths.
    pub closed spec fn len(&self) -> nat {
        self.len_ as nat
    }

    pub closed spec fn is_last(&self) -> bool {
        self.is_last_
    }

    /// A line holding just `words`, whose lengths sum to `len`.
    pub fn new(words: Vec<&'a str>, len: usize) -> (r: Self)
        ensures
            r.words() == words@.map_values(|w: &str| w@),
            r.len() == len,
            !r.is_last(),
    {
        WordsWithSpacesIndices { words_: words, len_: len, is_last_: false }
    }

    /// Adds `word` unless the line's length, the word's and one more would
    /// exceed `line_width`.
    pub fn push_word(&mut self, word: &'a str, line_width: usize) -> (r: Result<(), PushWordsError>)
        requires
            old(self).len() + byte_len(word@) + 1 <= usize::MAX,
        ensures
            final(self).is_last() == old(self).is_last(),
            old(self).len() + byte_len(word@) + 1 > line_width ==> r == Err::<(), PushWordsError>(
                PushWordsError::Overflow,
            ) && final(self).words() == old(self).words() && final(self).len() == old(self).len(),
            old(self).len() + byte_len(word@) + 1 <= line_width ==> r is Ok && final(self).words()
                == old(self).words().push(word@) && final(self).len() == old(self).len() + byte_len(
                word@,
            ),
    {
        let wl = word.len();
        if self.len_ + wl + 1 > line_width {
            return Err(PushWordsError::Overflow);
        }
        self.len_ += wl;
        self.words_.push(word);
        proof {
            assert(self.words() =~= old(self).words().push(word@));
        }
        Ok(())
    }

    /// The line's text for lines of `line_width` bytes.
    pub fn to_string(&mut self, line_width: usize) -> (r: Result<String, ()>)
        requires
            old(self).len() <= line_width,
        ensures
            *final(self) == *old(self),
            r matches Ok(s) && s@ == line_text(
                old(self).words(),
                old(self).len(),
                line_width as nat,
                old(self).is_last(),
            ),
    {
        let ghost ws = self.words();
        let n = self.words_.len();
        if n == 0 {
            return Ok(String::new());
        }
        let spaces_to_add = line_width - self.len_;
        let (spaces_per_word, additional_spaces) = if n == 1 {
            (spaces_to_add, 0)
        } else {
            (spaces_to_add / (n - 1), spaces_to_add % (n - 1))
        };
        let mut s = String::new();
        let mut word_pos: usize = 0;
        while word_pos < n
            invariant
                n == ws.len(),
                n > 0,
                ws == self.words(),
                word_pos <= n,
                n == 1 ==> spaces_per_word == spaces_to_add && additional_spaces == 0,
                n > 1 ==> spaces_per_word == spaces_to_add / ((n - 1) as usize) && additional_spaces
                    == spaces_to_add % ((n - 1) as usize),
                n > 1 ==> additional_spaces < n - 1,
                spaces_per_word <= spaces_to_add,
                s@ == line_body(ws, word_pos as nat, spaces_per_word as nat, additional_spaces as nat),
            decreases n - word_pos,
        {
            let w = self.words_[word_pos];
            proof {
                assert(ws[word_pos as int] == w@);
            }
            s.append(w);
            let g = if n == 1 {
                spaces_per_word
            } else if word_pos + 1 == n {
                0
            } else if word_pos < additional_spaces {
                proof {
                    let d = (n - 1) as usize;
                    assert(d >= 2) by {
                        if d == 1 {
                            assert(spaces_to_add % 1 == 0) by (nonlinear_arith);
                        }
                    }
                    assert(spaces_to_add / d <= spaces_to_add / 2) by (nonlinear_arith)
                        requires
                            d >= 2,
                    ;
                }
                spaces_per_word + 1
            } else {
                spaces_per_word
            };
            push_spaces(&mut s, g);
            word_pos += 1;
        }
        if !self.is_last_ {
            string_push(&mut s, '\n');
        }
        proof {
            let sp = (line_width - self.len()) as nat;
            if n > 1 {
                assert(spaces_per_word as nat == sp / ((n - 1) as nat));
                assert(additional_spaces as nat == sp % ((n - 1) as nat));
            }
        }
        Ok(s)
    }

    pub fn set_last(&mut self)
        ensures
            final(self).words() == old(self).words(),
            final(self).len() == old(self).len(),
            final(self).is_last(),
    {
        self.is_last_ = true;
    }
}

proof fn lemma_sum_prefix(ws: Seq<Seq<char>>, j: int)
    requires
        0 <= j <= ws.len(),
    ensures
        sum_bytes(ws.take(j)) <= sum_bytes(ws),
    decreases ws.len() - j,
{
    if j < ws.len() {
        lemma_sum_prefix(ws, j + 1);
        assert(ws.take(j + 1).drop_last() =~= ws.take(j));
    } else {
        assert(ws.take(j) =~= ws);
    }
}

/// Whether `c` has the Unicode `White_Space` property.
fn is_white_char(c: char) -> (r: bool)
    ensures
        r == is_white(c),
{
    let x = c as u32;
    (0x9 <= x && x <= 0xd) || x == 0x20 || x == 0x85 || x == 0xa0 || x == 0x1680 || (0x2000 <= x
        && x <= 0x200a) || x == 0x2028 || x == 0x2029 || x == 0x202f || x == 0x205f || x == 0x3000
}

/// The words of `input`, as slices of it.
fn split_whitespace<'a>(input: &'a str) -> (r: Vec<&'a str>)
    ensures
        r@.map_values(|w: &str| w@) == split_words(input@),
{
    let ghost s = input@;
    let n = input.unicode_len();
    let mut words: Vec<&'a str> = Vec::new();
    let mut in_word = false;
    let mut start: usize = 0;
    let mut i: usize = 0;
    proof {
        assert(s.take(0) =~= Seq::<char>::empty());
        assert(words@.map_values(|w: &str| w@) =~= Seq::<Seq<char>>::empty());
    }
    while i < n
        invariant
            s == input@,
            n == s.len(),
            i <= n,
            start <= i,
            in_word ==> split_words(s.take(i as int)) == words@.map_values(|w: &str| w@).push(
                s.subrange(start as int, i as int),
            ) && start < i && !is_white(s[i - 1]),
            !in_word ==> split_words(s.take(i as int)) == words@.map_values(|w: &str| w@) && (i == 0
                || is_white(s[i - 1])),
        decreases n - i,
    {
        let c = input.get_char(i);
        let ghost ws0 = words@.map_values(|w: &str| w@);
        proof {
            assert(s.take(i + 1).drop_last() =~= s.take(i as int));
            assert(s.take(i + 1).last() == c);
            if i >= 1 {
                assert(s.take(i + 1)[i - 1] == s[i - 1]);
            }
        }
        if is_white_char(c) {
            if in_word {
                let w = input.substring_char(start, i);
                words.push(w);
                in_word = false;
                proof {
                    assert(words@.map_values(|w: &str| w@) =~= ws0.push(s.subrange(start as int, i as int)));
                }
            }
        } else if !in_word {
            start = i;
            in_word = true;
            proof {
                assert(s.subrange(start as int, i + 1) =~= seq![c]);
            }
        } else {
            proof {
                let g = ws0.push(s.subrange(start as int, i as int));
                assert(s.subrange(start as int, i as int).push(c) =~= s.subrange(start as int, i + 1));
                assert(g.update(g.len() - 1, g.last().push(c)) =~= ws0.push(
                    s.subrange(start as int, i + 1),
                ));
            }
        }
        i += 1;
    }
    if in_word {
        let ghost ws0 = words@.map_values(|w: &str| w@);
        let w = input.substring_char(start, n);
        words.push(w);
        proof {
            assert(words@.map_values(|w: &str| w@) =~= ws0.push(s.subrange(start as int, n as int)));
        }
    }
    proof {
        assert(s.take(n as int) =~= s);
    }
    words
}

/// The specification of each line: its words and their length.
pub open spec fn line_specs<'a>(lines: Seq<WordsWithSpacesIndices<'a>>) -> Seq<(Seq<Seq<char>>, nat)> {
    lines.map_values(|l: WordsWithSpacesIndices<'a>| (l.words(), l.len()))
}

/// Justifies the words of `input` on lines of `line_width` bytes. A word
/// joins the current line when the line's length, the word's and one more
/// stay within the width; the spaces left on a line are shared out between
/// its words, the first ones taking one more, and a line with one word gets
/// them all after it. Lines end with a newline, except the last.
pub fn transform(input: &str, line_width: usize) -> (r: String)
    requires
        byte_len(input@) < usize::MAX,
        forall|i: int|
            0 <= i < split_words(input@).len() ==> byte_len(#[trigger] split_words(input@)[i])
                <= line_width,
    ensures
        r@ == transform_spec(input@, line_width as nat),
{
    let v = split_whitespace(input);
    let ghost ws = v@.map_values(|w: &str| w@);
    let ghost width = line_width as nat;
    proof {
        lemma_words_bytes(input@);
    }
    let mut r: Vec<WordsWithSpacesIndices> = Vec::new();
    let mut cur = WordsWithSpacesIndices::new(Vec::new(), 0);
    proof {
        assert(cur.words() =~= Seq::<Seq<char>>::empty());
        assert(ws.take(0) =~= Seq::<Seq<char>>::empty());
        assert(line_specs(r@).push((cur.words(), cur.len())) =~= group_lines(ws.take(0), width));
    }
    let mut j: usize = 0;
    while j < v.len()
        invariant
            ws == v@.map_values(|w: &str| w@),
            ws == split_words(input@),
            width == line_width,
            sum_bytes(ws) <= byte_len(input@),
            byte_len(input@) < usize::MAX,
            forall|i: int| 0 <= i < ws.len() ==> byte_len(#[trigger] ws[i]) <= line_width,
            j <= v@.len(),
            line_specs(r@).push((cur.words(), cur.len())) == group_lines(ws.take(j as int), width),
            cur.len() <= sum_bytes(ws.take(j as int)),
            cur.len() <= line_width,
            !cur.is_last(),
            forall|i: int| 0 <= i < r@.len() ==> !(#[trigger] r@[i]).is_last() && r@[i].len() <= line_width,
        decreases v@.len() - j,
    {
        let w = v[j];
        let ghost g0 = line_specs(r@).push((cur.words(), cur.len()));
        proof {
            assert(ws[j as int] == w@);
            assert(ws.take(j + 1).drop_last() =~= ws.take(j as int));
            assert(ws.take(j + 1).last() == w@);
            lemma_sum_prefix(ws, j + 1);
        }
        match cur.push_word(w, line_width) {
            Ok(()) => {
                proof {
                    assert(line_specs(r@).push((cur.words(), cur.len())) =~= g0.update(
                        g0.len() - 1,
                        (g0.last().0.push(w@), g0.last().1 + byte_len(w@)),
                    ));
                }
            },
            Err(_) => {
                let mut first: Vec<&str> = Vec::new();
                first.push(w);
                let next = WordsWithSpacesIndices::new(first, w.len());
                let ghost r0 = r@;
                r.push(cur);
                cur = next;
                proof {
                    assert(cur.words() =~= seq![w@]);
                    assert(line_specs(r@) =~= line_specs(r0).push(g0.last()));
                    assert(line_specs(r@).push((cur.words(), cur.len())) =~= g0.push(
                        (seq![w@], byte_len(w@)),
                    ));
                    assert forall|i: int| 0 <= i < r@.len() implies !(#[trigger] r@[i]).is_last()
                        && r@[i].len() <= line_width by {
                        if i < r0.len() {
                            assert(r@[i] == r0[i]);
                        }
                    }
                }
            },
        }
        j += 1;
    }
    cur.set_last();
    let ghost r0 = r@;
    r.push(cur);
    let ghost lines = group_lines(ws, width);
    proof {
        assert(ws.take(v@.len() as int) =~= ws);
        assert(line_specs(r@) =~= line_specs(r0).push((r@.last().words(), r@.last().len())));
        assert(line_specs(r@) == lines);
    }
    let mut result = String::new();
    let mut i: usize = 0;
    while i < r.len()
        invariant
            line_specs(r@) == lines,
            lines.len() == r@.len(),
            width == line_width,
            i <= r@.len(),
            forall|k: int| 0 <= k < r@.len() ==> (#[trigger] r@[k]).len() <= line_width,
            forall|k: int| 0 <= k < r@.len() ==> ((#[trigger] r@[k]).is_last() <==> k == r@.len() - 1),
            result@ == text_of_lines(lines, width, i as nat),
        decreases r@.len() - i,
    {
        let ghost line = r@[i as int];
        proof {
            assert(line_specs(r@)[i as int] == (line.words(), line.len()));
        }
        let s = r[i].to_string(line_width);
        match s {
            Ok(s) => {
                result.append(s.as_str());
            },
            Err(()) => {},
        }
        i += 1;
    }
    result
}

} // verus!
