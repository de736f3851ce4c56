//! A segment together with the segment that follows it: the unit that the
//! parser inspects.

use vstd::prelude::*;

use crate::text::{
    chars_of, is_blank, is_blank_text, is_punctuation, is_punctuation_char, is_space,
    is_space_char, push_char,
};

verus! {

/// The lexeme stream of a list of segments: each one paired with its
/// successor, the last one with the empty text.
pub open spec fn lexemes(segs: Seq<Seq<char>>) -> Seq<(Seq<char>, Seq<char>)> {
    Seq::new(
        segs.len(),
        |i: int|
            (segs[i], if i + 1 < segs.len() {
                segs[i + 1]
            } else {
                Seq::empty()
            }),
    )
}

/// How many times a character occurs in a text.
pub open spec fn occurrences(s: Seq<char>, c: char) -> nat
    decreases s.len(),
{
    if s.len() == 0 {
        0
    } else {
        occurrences(s.drop_last(), c) + if s.last() == c {
            1nat
        } else {
            0nat
        }
    }
}

/// A prefix holds no more occurrences than the whole text.
proof fn lemma_occurrences_prefix(s: Seq<char>, c: char, i: int)
    requires
        0 <= i <= s.len(),
    ensures
        occurrences(s.take(i), c) <= occurrences(s, c),
    decreases s.len() - i,
{
    if i < s.len() {
        lemma_occurrences_prefix(s, c, i + 1);
        assert(s.take(i + 1).drop_last() =~= s.take(i));
    } else {
        assert(s.take(i) =~= s);
    }
}

/// A text cut at each occurrence of a separator (an empty text gives one
/// empty piece).
pub open spec fn split_on(s: Seq<char>, sep: char) -> Seq<Seq<char>>
    decreases s.len(),
{
    if s.len() == 0 {
        seq![Seq::empty()]
    } else {
        let prev = split_on(s.drop_last(), sep);
        if s.last() == sep {
            prev.push(Seq::empty())
        } else {
            prev.update(prev.len() - 1, prev.last().push(s.last()))
        }
    }
}

pub proof fn lemma_split_on_nonempty(s: Seq<char>, sep: char)
    ensures
        split_on(s, sep).len() > 0,
    decreases s.len(),
{
    if s.len() > 0 {
        lemma_split_on_nonempty(s.drop_last(), sep);
    }
}

/// The text begins with the given character.
pub open spec fn starts_with(s: Seq<char>, c: char) -> bool {
    s.len() > 0 && s[0] == c
}

/// A segment with the segment that follows it.
#[derive(Clone, Debug)]
pub struct Lexeme {
    pub text: String,
    pub next: String,
}

impl Lexeme {
    pub fn new(raw: &str, next: &str) -> (r: Lexeme)
        ensures
            r.text@ == raw@,
            r.next@ == next@,
    {
        Lexeme { text: raw.to_owned(), next: next.to_owned() }
    }

    pub fn text(&self) -> (r: String)
        ensures
            r@ == self.text@,
    {
        self.text.clone()
    }

    /// How many times `c` occurs in the text.
    pub fn count_char(&self, c: char) -> (r: i32)
        requires
            occurrences(self.text@, c) <= i32::MAX,
        ensures
            r >= 0,
            r as int == occurrences(self.text@, c),
    {
        let cs = chars_of(self.text.as_str());
        let mut n: i32 = 0;
        let mut i: usize = 0;
        while i < cs.len()
            invariant
                i <= cs@.len(),
                cs@ == self.text@,
                occurrences(cs@, c) <= i32::MAX,
                0 <= n,
                n as int == occurrences(cs@.take(i as int), c),
            decreases cs@.len() - i,
        {
            assert(cs@.take(i + 1).drop_last() =~= cs@.take(i as int));
            proof {
                lemma_occurrences_prefix(cs@, c, i + 1);
            }
            if cs[i] == c {
                n = n + 1;
            }
            i = i + 1;
        }
        assert(cs@.take(i as int) =~= cs@);
        n
    }

    /// The characters of the text.
    pub fn split_chars(&self) -> (r: Vec<char>)
        ensures
            r@ == self.text@,
    {
        chars_of(self.text.as_str())
    }

    /// The characters of the following segment.
    pub fn split_chars_of_next(&self) -> (r: Vec<char>)
        ensures
            r@ == self.next@,
    {
        chars_of(self.next.as_str())
    }

    /// The text cut at each space.
    pub fn split_words(self) -> (r: Vec<String>)
        ensures
            r@.map_values(|w: String| w@) == split_on(self.text@, ' '),
    {
        let cs = chars_of(self.text.as_str());
        let mut words: Vec<String> = Vec::new();
        let mut cur = String::new();
        let mut i: usize = 0;
        while i < cs.len()
            invariant
                i <= cs@.len(),
                cs@ == self.text@,
                words@.map_values(|w: String| w@).push(cur@) == split_on(cs@.take(i as int), ' '),
            decreases cs@.len() - i,
        {
            let ghost prefix = cs@.take(i as int);
            assert(cs@.take(i + 1).drop_last() =~= prefix);
            let c = cs[i];
            if c == ' ' {
                words.push(cur);
                cur = String::new();
                assert(words@.map_values(|w: String| w@).push(cur@) =~= split_on(
                    cs@.take(i + 1),
                    ' ',
                ));
            } else {
                push_char(&mut cur, c);
                proof {
                    let prev = split_on(prefix, ' ');
                    assert(words@.map_values(|w: String| w@).push(cur@) =~= prev.update(
                        prev.len() - 1,
                        prev.last().push(c),
                    ));
                }
            }
            i = i + 1;
        }
        words.push(cur);
        assert(cs@.take(i as int) =~= cs@);
        assert(words@.map_values(|w: String| w@) =~= split_on(self.text@, ' '));
        words
    }

    /// The first space-separated word of the text.
    pub fn first(self) -> (r: Option<String>)
        ensures
            r is Some,
            r->0@ == split_on(self.text@, ' ')[0],
    {
        let ghost t = self.text@;
        let words = self.split_words();
        proof {
            lemma_split_on_nonempty(t, ' ');
            assert(words@.map_values(|w: String| w@)[0] == words@[0]@);
        }
        Some(words[0].clone())
    }

    /// Pairs each segment with its successor.
    pub fn collect(raw_strings: &[String]) -> (r: Vec<Lexeme>)
        ensures
            r@.len() == raw_strings@.len(),
            forall|i: int|
                0 <= i < r@.len() ==> (#[trigger] r@[i]).text@ == lexemes(
                    raw_strings@.map_values(|s: String| s@),
                )[i].0 && r@[i].next@ == lexemes(raw_strings@.map_values(|s: String| s@))[i].1,
    {
        let ghost segs = raw_strings@.map_values(|s: String| s@);
        let mut out: Vec<Lexeme> = Vec::new();
        let mut i: usize = 0;
        while i < raw_strings.len()
            invariant
                i <= raw_strings@.len(),
                out@.len() == i,
                segs == raw_strings@.map_values(|s: String| s@),
                forall|k: int|
                    0 <= k < i ==> (#[trigger] out@[k]).text@ == lexemes(segs)[k].0
                        && out@[k].next@ == lexemes(segs)[k].1,
            decreases raw_strings@.len() - i,
        {
            let next = if i + 1 < raw_strings.len() {
                raw_strings[i + 1].clone()
            } else {
                String::new()
            };
            out.push(Lexeme { text: raw_strings[i].clone(), next });
            i = i + 1;
        }
        out
    }

    /// The text is exactly the one character `c`.
    pub fn text_is(&self, c: char) -> (r: bool)
        ensures
            r == (self.text@ == seq![c]),
    {
        let cs = chars_of(self.text.as_str());
        let r = cs.len() == 1 && cs[0] == c;
        proof {
            if r {
                assert(cs@ =~= seq![c]);
            }
        }
        r
    }

    /// The following segment is exactly the one character `c`.
    pub fn next_is(&self, c: char) -> (r: bool)
        ensures
            r == (self.next@ == seq![c]),
    {
        let cs = chars_of(self.next.as_str());
        let r = cs.len() == 1 && cs[0] == c;
        proof {
            if r {
                assert(cs@ =~= seq![c]);
            }
        }
        r
    }

    /// The text is whitespace only.
    pub fn is_whitespace(&self) -> (r: bool)
        ensures
            r == is_blank(self.text@),
    {
        is_blank_text(&chars_of(self.text.as_str()))
    }

    /// The text begins with `c`.
    pub fn match_first_char(&self, c: char) -> (r: bool)
        ensures
            r == starts_with(self.text@, c),
    {
        let cs = chars_of(self.text.as_str());
        cs.len() > 0 && cs[0] == c
    }

    /// The following segment begins with `c`.
    pub fn match_next_first_char(&self, c: char) -> (r: bool)
        ensures
            r == starts_with(self.next@, c),
    {
        let cs = chars_of(self.next.as_str());
        cs.len() > 0 && cs[0] == c
    }

    /// The following segment is whitespace only (true at the end of the stream).
    pub fn is_next_whitespace(&self) -> (r: bool)
        ensures
            r == is_blank(self.next@),
    {
        is_blank_text(&chars_of(self.next.as_str()))
    }

    /// The following segment begins with a punctuation character.
    pub fn is_next_punctuation(&self) -> (r: bool)
        ensures
            r == (self.next@.len() > 0 && is_punctuation_char(self.next@[0])),
    {
        let cs = chars_of(self.next.as_str());
        cs.len() > 0 && is_punctuation(cs[0])
    }
}

} // verus!
