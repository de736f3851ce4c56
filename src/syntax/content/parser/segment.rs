//! Splits a text into segments: each delimiter character alone, and maximal
//! runs of the other characters.

use vstd::prelude::*;

use crate::text::{chars_of, push_char};

verus! {

/// The four characters that always stand as segments of their own.
pub open spec fn is_delimiter(c: char) -> bool {
    c == '\n' || c == ' ' || c == '`' || c == '|'
}

/// A segment made of one delimiter character.
pub open spec fn is_delimiter_segment(s: Seq<char>) -> bool {
    s.len() == 1 && is_delimiter(s[0])
}

/// The segments of a text, as a fold over its characters: a delimiter, or
/// any character after a delimiter, starts a new segment; any other
/// character extends the last one.
pub open spec fn segments(s: Seq<char>) -> Seq<Seq<char>>
    decreases s.len(),
{
    if s.len() == 0 {
        Seq::empty()
    } else {
        let prev = segments(s.drop_last());
        let c = s.last();
        if is_delimiter(c) || prev.len() == 0 || is_delimiter_segment(prev.last()) {
            prev.push(seq![c])
        } else {
            prev.update(prev.len() - 1, prev.last().push(c))
        }
    }
}

/// The concatenation of a sequence of texts.
pub open spec fn joined(parts: Seq<Seq<char>>) -> Seq<char>
    decreases parts.len(),
{
    if parts.len() == 0 {
        Seq::empty()
    } else {
        joined(parts.drop_last()) + parts.last()
    }
}

pub open spec fn views(v: Seq<String>) -> Seq<Seq<char>> {
    v.map_values(|s: String| s@)
}

/// No segment is empty, and a segment that holds a delimiter holds nothing else.
pub open spec fn well_segmented(parts: Seq<Seq<char>>) -> bool {
    forall|k: int|
        0 <= k < parts.len() ==> {
            &&& (#[trigger] parts[k]).len() > 0
            &&& forall|j: int|
                0 <= j < parts[k].len() && is_delimiter(parts[k][j]) ==> parts[k].len() == 1
        }
}

/// Joining the segments of a text gives the text back, and the segments are
/// well formed.
pub proof fn lemma_segments_rejoin(s: Seq<char>)
    ensures
        joined(segments(s)) == s,
        well_segmented(segments(s)),
    decreases s.len(),
{
    if s.len() > 0 {
        let prev = segments(s.drop_last());
        lemma_segments_rejoin(s.drop_last());
        let c = s.last();
        if is_delimiter(c) || prev.len() == 0 || is_delimiter_segment(prev.last()) {
            assert(prev.push(seq![c]).drop_last() =~= prev);
            assert(joined(segments(s)) =~= s);
        } else {
            let next = prev.update(prev.len() - 1, prev.last().push(c));
            assert(next.drop_last() =~= prev.drop_last());
            assert(prev.drop_last().push(prev.last()) =~= prev);
            assert(joined(prev) == joined(prev.drop_last()) + prev.last());
            assert(next.last() == prev.last().push(c));
            assert(joined(next) == joined(next.drop_last()) + next.last());
            assert(s =~= s.drop_last().push(c));
            assert(joined(next) =~= s);
            assert forall|k: int| 0 <= k < next.len() implies {
                &&& (#[trigger] next[k]).len() > 0
                &&& forall|j: int|
                    0 <= j < next[k].len() && is_delimiter(next[k][j]) ==> next[k].len() == 1
            } by {
                if k == next.len() - 1 {
                    assert forall|j: int|
                        0 <= j < next[k].len() && is_delimiter(next[k][j]) implies next[k].len()
                        == 1 by {
                        if j < prev.last().len() {
                            assert(prev[k].len() > 0);
                            assert(prev[k][j] == next[k][j]);
                        }
                    }
                }
            }
        }
    }
}

fn is_delimiter_char(c: char) -> (r: bool)
    ensures
        r == is_delimiter(c),
{
    c == '\n' || c == ' ' || c == '`' || c == '|'
}

/// The segments of a text.
pub fn atomize(text: &str) -> (r: Vec<String>)
    ensures
        views(r@) == segments(text@),
        joined(views(r@)) == text@,
        well_segmented(views(r@)),
{
    let chars = chars_of(text);
    let mut acc: Vec<String> = Vec::new();
    let mut cur = String::new();
    let mut cur_is_delimiter = false;
    let mut i: usize = 0;
    while i < chars.len()
        invariant
            i <= chars@.len(),
            chars@ == text@,
            i == 0 ==> acc@.len() == 0 && cur@.len() == 0,
            i > 0 ==> views(acc@).push(cur@) == segments(chars@.take(i as int)),
            cur_is_delimiter == is_delimiter_segment(cur@),
        decreases chars@.len() - i,
    {
        let c = chars[i];
        let ghost prefix = chars@.take(i as int);
        assert(chars@.take(i + 1).drop_last() =~= prefix);
        if i == 0 || is_delimiter_char(c) || cur_is_delimiter {
            if i > 0 {
                acc.push(cur);
            }
            cur = String::new();
            push_char(&mut cur, c);
            cur_is_delimiter = is_delimiter_char(c);
            proof {
                if i == 0 {
                    assert(segments(prefix).len() == 0);
                }
                assert(views(acc@) =~= segments(prefix));
                assert(seq![c] =~= cur@);
                assert(views(acc@).push(cur@) =~= segments(chars@.take(i + 1)));
            }
        } else {
            push_char(&mut cur, c);
            cur_is_delimiter = false;
            proof {
                let prev = segments(prefix);
                assert(views(acc@).push(cur@) =~= prev.update(prev.len() - 1, prev.last().push(c)));
            }
        }
        i = i + 1;
    }
    if i > 0 {
        acc.push(cur);
    }
    proof {
        assert(chars@.take(i as int) =~= text@);
        if i == 0 {
            assert(views(acc@) =~= segments(text@));
        }
        lemma_segments_rejoin(text@);
    }
    acc
}

/// The segments of a text.
pub fn segment(text: &str) -> (r: Vec<String>)
    ensures
        views(r@) == segments(text@),
        joined(views(r@)) == text@,
        well_segmented(views(r@)),
{
    atomize(text)
}

} // verus!
