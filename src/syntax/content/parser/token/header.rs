use vstd::prelude::*;

use crate::syntax::content::{parser::lexeme::Lexeme, Parseable};
use crate::text::{
    chars_of, decimal, is_ascii_chars, is_ascii_text, push_char, push_decimal,
};
use crate::types::Config;
use super::header_html;

verus! {

/// A header level, one to six.
#[derive(Debug, Clone, Copy, PartialEq, Eq)]
pub enum Level {
    One,
    Two,
    Three,
    Four,
    Five,
    Six,
}

/// A requested level, brought into one to six.
pub open spec fn clamped_level(n: nat) -> nat {
    if n <= 1 {
        1
    } else if n >= 6 {
        6
    } else {
        n
    }
}

impl Level {
    pub open spec fn number(self) -> nat {
        match self {
            Level::One => 1,
            Level::Two => 2,
            Level::Three => 3,
            Level::Four => 4,
            Level::Five => 5,
            Level::Six => 6,
        }
    }

    fn from_u8(u: u8) -> (r: Level)
        ensures
            r.number() == clamped_level(u as nat),
    {
        if u <= 1 {
            Level::One
        } else if u == 2 {
            Level::Two
        } else if u == 3 {
            Level::Three
        } else if u == 4 {
            Level::Four
        } else if u == 5 {
            Level::Five
        } else {
            Level::Six
        }
    }

    pub fn as_u8(&self) -> (r: u8)
        ensures
            r as nat == self.number(),
    {
        match self {
            Level::One => 1,
            Level::Two => 2,
            Level::Three => 3,
            Level::Four => 4,
            Level::Five => 5,
            Level::Six => 6,
        }
    }

    /// The level as a decimal digit.
    pub fn to_string(&self) -> (r: String)
        ensures
            r@ == decimal(self.number()),
    {
        let mut s = String::new();
        push_decimal(&mut s, self.as_u8() as usize);
        s
    }
}

impl From<usize> for Level {
    fn from(z: usize) -> (r: Level) {
        if z > 255 {
            Level::Six
        } else {
            Level::from_u8(z as u8)
        }
    }
}

impl vstd::std_specs::convert::FromSpecImpl<usize> for Level {
    open spec fn obeys_from_spec() -> bool {
        true
    }

    open spec fn from_spec(z: usize) -> Level {
        let n = clamped_level(z as nat);
        if n == 1 {
            Level::One
        } else if n == 2 {
            Level::Two
        } else if n == 3 {
            Level::Three
        } else if n == 4 {
            Level::Four
        } else if n == 5 {
            Level::Five
        } else {
            Level::Six
        }
    }
}

/// The opening or closing of a header; `open` is `None` while the parser
/// has not decided which.
#[derive(Debug)]
pub struct Header {
    pub open: Option<bool>,
    pub level: Level,
    pub dom_id: Option<String>,
}

/// One base identifier and the identifiers issued for it, in order.
#[derive(Debug)]
pub struct IdEntry {
    pub base: String,
    pub issued: Vec<String>,
}

/// The header identifiers issued in one document.
#[derive(Debug)]
pub struct IdTable {
    pub entries: Vec<IdEntry>,
}

pub type IdTableView = Seq<(Seq<char>, Seq<Seq<char>>)>;

impl View for IdTable {
    type V = IdTableView;

    open spec fn view(&self) -> IdTableView {
        self.entries@.map_values(
            |e: IdEntry| (e.base@, e.issued@.map_values(|s: String| s@)),
        )
    }
}

/// The index of the first entry for `base` at or after `i`, or -1.
pub open spec fn base_index(entries: IdTableView, base: Seq<char>, i: int) -> int
    decreases entries.len() - i,
{
    if i < 0 || i >= entries.len() {
        -1
    } else if entries[i].0 == base {
        i
    } else {
        base_index(entries, base, i + 1)
    }
}

/// No two entries share a base, as in a map from base to identifiers.
pub open spec fn unique_bases(entries: IdTableView) -> bool {
    forall|i: int, j: int|
        0 <= i < j < entries.len() ==> (#[trigger] entries[i]).0 != (#[trigger] entries[j]).0
}

proof fn lemma_base_index_found(entries: IdTableView, base: Seq<char>, i: int)
    requires
        0 <= i,
    ensures
        base_index(entries, base, i) < 0 ==> forall|j: int|
            i <= j < entries.len() ==> (#[trigger] entries[j]).0 != base,
        base_index(entries, base, i) >= 0 ==> i <= base_index(entries, base, i) < entries.len()
            && entries[base_index(entries, base, i)].0 == base,
    decreases entries.len() - i,
{
    if i < entries.len() && entries[i].0 != base {
        lemma_base_index_found(entries, base, i + 1);
    }
}

/// Issuing an identifier keeps the bases unique.
pub proof fn lemma_issue_keeps_bases_unique(entries: IdTableView, base: Seq<char>)
    requires
        unique_bases(entries),
    ensures
        unique_bases(issue_id(entries, base).0),
{
    lemma_base_index_found(entries, base, 0);
    let t = issue_id(entries, base).0;
    assert forall|i: int, j: int| 0 <= i < j < t.len() implies (#[trigger] t[i]).0 != (
    #[trigger] t[j]).0 by {
        if base_index(entries, base, 0) < 0 {
            if j == entries.len() {
                assert(t[i] == entries[i]);
            } else {
                assert(t[i] == entries[i] && t[j] == entries[j]);
            }
        } else {
            let k = base_index(entries, base, 0);
            assert(t[i].0 == entries[i].0);
            assert(t[j].0 == entries[j].0);
        }
    }
}

/// The base identifier of a header: the candidate, unless only ASCII is
/// allowed and the candidate is not ASCII, when it is `h`.
pub open spec fn id_base(ascii_only: bool, candidate: Seq<char>) -> Seq<char> {
    if !ascii_only || is_ascii_text(candidate) {
        candidate
    } else {
        seq!['h']
    }
}

/// The identifier issued for `base`, and the table after issuing it: the
/// base itself the first time, then `base-1`, `base-2`, ...
pub open spec fn issue_id(entries: IdTableView, base: Seq<char>) -> (IdTableView, Seq<char>) {
    let k = base_index(entries, base, 0);
    if k < 0 {
        (entries.push((base, seq![base])), base)
    } else {
        let id = base + seq!['-'] + decimal(entries[k].1.len());
        (entries.update(k, (base, entries[k].1.push(id))), id)
    }
}

impl IdTable {
    pub fn new() -> (r: IdTable)
        ensures
            r@ == Seq::<(Seq<char>, Seq<Seq<char>>)>::empty(),
            unique_bases(r@),
    {
        let r = IdTable { entries: Vec::new() };
        assert(r@ =~= Seq::<(Seq<char>, Seq<Seq<char>>)>::empty());
        r
    }

    /// Issues the next identifier for `base`.
    pub fn issue(&mut self, base: String) -> (r: String)
        ensures
            (final(self)@, r@) == issue_id(old(self)@, base@),
            unique_bases(old(self)@) ==> unique_bases(final(self)@),
    {
        proof {
            if unique_bases(self@) {
                lemma_issue_keeps_bases_unique(self@, base@);
            }
        }
        let ghost e0 = self@;
        let mut i: usize = 0;
        while i < self.entries.len()
            invariant
                i <= self.entries@.len(),
                self@ == e0,
                e0 == old(self)@,
                base_index(e0, base@, 0) == base_index(e0, base@, i as int),
            decreases self.entries@.len() - i,
        {
            if self.entries[i].base == base {
                let n = self.entries[i].issued.len();
                let mut id = base.clone();
                push_char(&mut id, '-');
                push_decimal(&mut id, n);
                let ghost old_entries = self.entries@;
                let ghost old_issued = self.entries@[i as int].issued@;
                self.entries[i].issued.push(id.clone());
                proof {
                    assert(id@ =~= base@ + seq!['-'] + decimal(n as nat));
                    assert(self.entries@.len() == old_entries.len());
                    assert(self.entries@[i as int].base == old_entries[i as int].base);
                    assert(self.entries@[i as int].issued@ == old_issued.push(id));
                    assert(forall|j: int| 0 <= j < old_entries.len() && j != i ==> self.entries@[j] == old_entries[j]);
                    assert(self.entries@[i as int].issued@.map_values(|s: String| s@) =~= e0[i as int].1.push(id@));
                    assert(e0[i as int].0 == base@);
                    assert(base_index(e0, base@, i as int) == i);
                    assert(e0[i as int].1.len() == n);
                    assert(self@ =~= e0.update(i as int, (base@, e0[i as int].1.push(id@))));
                }
                return id;
            }
            i = i + 1;
        }
        let ghost before = self.entries@;
        let first = base.clone();
        let mut issued: Vec<String> = Vec::new();
        issued.push(first);
        self.entries.push(IdEntry { base: base.clone(), issued });
        proof {
            assert(issued@.map_values(|s: String| s@) =~= seq![base@]);
            assert(self@ =~= e0.push((base@, seq![base@])));
        }
        base
    }
}

impl Header {
    pub fn new(level: Level, open: bool, dom_id: Option<&str>) -> (r: Header)
        ensures
            r.open == Some(open),
            r.level == level,
            r.dom_id is Some == dom_id is Some,
            dom_id is Some ==> r.dom_id->0@ == dom_id->0@,
    {
        let dom_id = match dom_id {
            Some(d) => Some(d.to_owned()),
            None => None,
        };
        Header { open: Some(open), level, dom_id }
    }

    /// The identifier of a header whose title is the text after the given
    /// lexeme, made unique in the document.
    pub fn make_id(config: &Config, next_lexeme: &Lexeme, ids: &mut IdTable) -> (r: String)
        ensures
            (final(ids)@, r@) == issue_id(
                old(ids)@,
                id_base(config.ascii_dom_ids, next_lexeme.next@),
            ),
            unique_bases(old(ids)@) ==> unique_bases(final(ids)@),
    {
        let base_id = if !config.ascii_dom_ids || is_ascii_chars(
            &chars_of(next_lexeme.next.as_str()),
        ) {
            next_lexeme.next.clone()
        } else {
            let mut h = String::new();
            push_char(&mut h, 'h');
            h
        };
        ids.issue(base_id)
    }

    pub fn from_u8(level: u8, open: bool, dom_id: Option<&str>) -> (r: Header)
        ensures
            r.open == Some(open),
            r.level.number() == clamped_level(level as nat),
            r.dom_id is Some == dom_id is Some,
            dom_id is Some ==> r.dom_id->0@ == dom_id->0@,
    {
        Header::new(Level::from_u8(level), open, dom_id)
    }

    pub fn level(&self) -> (r: u8)
        ensures
            r as nat == self.level.number(),
    {
        self.level.as_u8()
    }
}

/// A run of one to six `#` characters.
pub open spec fn is_hash_run(text: Seq<char>) -> bool {
    1 <= text.len() <= 6 && forall|i: int| 0 <= i < text.len() ==> text[i] == '#'
}

/// The ASCII lower-case form of a character.
pub open spec fn ascii_lower(c: char) -> char {
    if 65 <= c as u32 && c as u32 <= 90 {
        ((c as u32) + 32) as char
    } else {
        c
    }
}

fn lower_char(c: char) -> (r: char)
    ensures
        r == ascii_lower(c),
{
    let u = c as u32;
    if 65 <= u && u <= 90 {
        ((u + 32) as u8) as char
    } else {
        c
    }
}

impl Parseable for Header {
    /// A whole word of one to six `#`.
    open spec fn probe_spec(text: Seq<char>, next: Seq<char>) -> bool {
        is_hash_run(text)
    }

    open spec fn renderable(&self) -> bool {
        self.open is Some
    }

    open spec fn html(&self) -> Seq<char> {
        header_html(
            self.level.number(),
            self.open->0,
            match self.dom_id {
                Some(d) => Some(d@),
                None => None,
            },
        )
    }

    fn probe(lexeme: &Lexeme) -> (r: bool) {
        let cs = lexeme.split_chars();
        if cs.len() < 1 || cs.len() > 6 {
            return false;
        }
        let mut i: usize = 0;
        while i < cs.len()
            invariant
                i <= cs@.len(),
                cs@ == lexeme.text@,
                forall|j: int| 0 <= j < i ==> cs@[j] == '#',
            decreases cs@.len() - i,
        {
            if cs[i] != '#' {
                return false;
            }
            i = i + 1;
        }
        true
    }

    /// An open header whose level is the length of the text, with the
    /// lower-cased following text as its identifier.
    fn lex(lexeme: &Lexeme) -> (r: Header)
        ensures
            r.open == Some(true),
            r.level.number() == clamped_level(lexeme.text@.len()),
            r.dom_id is Some,
            r.dom_id->0@ == lexeme.next@.map_values(|c: char| ascii_lower(c)),
    {
        let text = lexeme.split_chars();
        let next = lexeme.split_chars_of_next();
        let mut lower = String::new();
        let mut i: usize = 0;
        while i < next.len()
            invariant
                i <= next@.len(),
                next@ == lexeme.next@,
                lower@ == next@.take(i as int).map_values(|c: char| ascii_lower(c)),
            decreases next@.len() - i,
        {
            push_char(&mut lower, lower_char(next[i]));
            i = i + 1;
            assert(lower@ =~= next@.take(i as int).map_values(|c: char| ascii_lower(c)));
        }
        assert(next@.take(i as int) =~= next@);
        let level = Level::from(text.len());
        Header { open: Some(true), level, dom_id: Some(lower) }
    }

    fn render(&self) -> (r: String) {
        let open = self.open.unwrap();
        let mut out = String::new();
        if open {
            push_char(&mut out, '<');
        } else {
            push_char(&mut out, '<');
            push_char(&mut out, '/');
        }
        push_char(&mut out, 'h');
        push_decimal(&mut out, self.level.as_u8() as usize);
        if open {
            match &self.dom_id {
                Some(id) => {
                    out.append(" id=\"");
                    out.append(id.as_str());
                    push_char(&mut out, '"');
                    proof {
                        reveal_strlit(" id=\"");
                    }
                },
                None => {},
            }
        }
        push_char(&mut out, '>');
        proof {
            assert(out@ =~= self.html());
        }
        out
    }
}

} // verus!
