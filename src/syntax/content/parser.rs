//! The block and inline state machine that turns lexemes into tokens.

use vstd::prelude::*;

use crate::syntax::content::Parseable;
use crate::text::{decimal, is_blank, is_punctuation_char};
use crate::types::Config;
use lexeme::{lexemes, starts_with, Lexeme};
use segment::{segments, views};
use token::anchor::Anchor;
use token::code::Code;
use token::header::{
    base_index, clamped_level, id_base, is_hash_run, issue_id, Header, IdTable, IdTableView,
};
use token::linebreak::LineBreak;
use token::literal::Literal;
use token::paragraph::Paragraph;
use token::preformat::PreFormat;
use token::{all_renderable, document_html, token_renderable, Token, TokenView};

pub mod lexeme;
pub mod segment;
pub mod token;

verus! {

/// The structural element that is open.
#[derive(Clone, Copy, Debug)]
pub enum BlockContext {
    Paragraph,
    Header(u8),
    PreFormat,
    /// No block is open.
    Outside,
}

/// The inline span that is open.
#[derive(Clone, Copy, Debug)]
pub enum InlineContext {
    Anchor,
    Code,
    /// No inline span is open.
    Outside,
}

/// Why a document could not be parsed.
#[derive(Clone, Copy, Debug, PartialEq, Eq)]
pub enum ParseError {
    /// The text ended inside a header.
    OpenHeader,
    /// The text ended inside a preformatted block.
    OpenPreFormat,
}

impl ParseError {
    /// What went wrong, in words.
    pub fn message(&self) -> (r: String)
        ensures
            *self == ParseError::OpenHeader ==> r@ == "End of file with open header"@,
            *self == ParseError::OpenPreFormat ==> r@ == "End of file with open preformat"@,
    {
        match self {
            ParseError::OpenHeader => "End of file with open header".to_owned(),
            ParseError::OpenPreFormat => "End of file with open preformat".to_owned(),
        }
    }
}

pub type Lexemes = Seq<(Seq<char>, Seq<char>)>;

/// The parser's state between two lexemes, as mathematical values.
pub struct StateView {
    pub block: BlockContext,
    pub inline: InlineContext,
    pub ids: IdTableView,
    pub candidate_text: Seq<char>,
    pub candidate_destination: Option<Seq<char>>,
    pub leading: bool,
    pub text_buffer: Seq<char>,
    pub destination_buffer: Seq<char>,
    /// The source text read since the open inline span began (for an
    /// anchor, its opening lexeme included).
    pub held: Seq<char>,
}

pub open spec fn initial_state() -> StateView {
    StateView {
        block: BlockContext::Outside,
        inline: InlineContext::Outside,
        ids: Seq::empty(),
        candidate_text: Seq::empty(),
        candidate_destination: None,
        leading: false,
        text_buffer: Seq::empty(),
        destination_buffer: Seq::empty(),
        held: Seq::empty(),
    }
}

pub open spec fn pipe() -> Seq<char> {
    seq!['|']
}

pub open spec fn newline() -> Seq<char> {
    seq!['\n']
}

/// The block phase for lexeme `i`: the new state, the tokens emitted, and
/// whether the lexeme is fully handled.
pub open spec fn block_phase(lx: Lexemes, i: int, st: StateView, ascii_ids: bool) -> (
    StateView,
    Seq<TokenView>,
    bool,
) {
    let text = lx[i].0;
    let next = lx[i].1;
    match st.block {
        BlockContext::Outside => {
            if PreFormat::probe_spec(text, next) {
                (
                    StateView { block: BlockContext::PreFormat, ..st },
                    seq![TokenView::PreFormat { open: Some(true) }],
                    true,
                )
            } else if Header::probe_spec(text, next) {
                let after = if i + 1 < lx.len() {
                    lx[i + 1].1
                } else {
                    Seq::empty()
                };
                let issued = issue_id(st.ids, id_base(ascii_ids, after));
                let level = clamped_level(text.len());
                (
                    StateView { block: BlockContext::Header(level as u8), ids: issued.0, ..st },
                    seq![TokenView::Header { level, open: Some(true), id: Some(issued.1) }],
                    true,
                )
            } else if Paragraph::probe_spec(text, next) {
                (
                    StateView { block: BlockContext::Paragraph, ..st },
                    seq![TokenView::Paragraph { open: Some(true) }],
                    false,
                )
            } else {
                (st, Seq::empty(), false)
            }
        },
        BlockContext::PreFormat => {
            if PreFormat::probe_spec(text, next) {
                (
                    StateView { block: BlockContext::Outside, ..st },
                    seq![TokenView::PreFormat { open: Some(false) }],
                    true,
                )
            } else {
                (st, seq![TokenView::Literal { text }], true)
            }
        },
        BlockContext::Paragraph => {
            if text == newline() {
                (
                    StateView { block: BlockContext::Outside, ..st },
                    seq![TokenView::Paragraph { open: Some(false) }],
                    false,
                )
            } else {
                (st, Seq::empty(), false)
            }
        },
        BlockContext::Header(n) => {
            if text == newline() {
                (
                    StateView { block: BlockContext::Outside, ..st },
                    seq![
                        TokenView::Header {
                            level: clamped_level(n as nat),
                            open: Some(false),
                            id: None,
                        },
                    ],
                    false,
                )
            } else {
                (st, Seq::empty(), false)
            }
        },
    }
}

/// The anchor under construction, completed with a destination and emitted.
pub open spec fn completed_anchor(st: StateView, destination: Seq<char>) -> (StateView, TokenView) {
    (
        StateView {
            candidate_destination: Some(destination),
            inline: InlineContext::Outside,
            ..st
        },
        TokenView::Anchor { text: st.candidate_text, destination: Some(destination) },
    )
}

/// Where reading goes on after a leading anchor took the lexeme after its
/// closing pipe as destination: that lexeme is consumed, and so is a pipe
/// right after it.
pub open spec fn after_explicit_destination(lx: Lexemes, i: int) -> int {
    if i + 1 < lx.len() {
        if lx[i + 1].1 == pipe() && i + 2 < lx.len() {
            i + 3
        } else {
            i + 2
        }
    } else {
        i + 1
    }
}

/// The inline phase for lexeme `i`: the new state, the tokens emitted, where
/// reading goes on, and whether the lexeme was handled here.
pub open spec fn inline_phase(lx: Lexemes, i: int, st: StateView) -> (
    StateView,
    Seq<TokenView>,
    int,
    bool,
) {
    let text = lx[i].0;
    let next = lx[i].1;
    match st.inline {
        InlineContext::Outside => {
            if Code::probe_spec(text, next) {
                (
                    StateView { inline: InlineContext::Code, held: Seq::empty(), ..st },
                    Seq::empty(),
                    i + 1,
                    true,
                )
            } else if Anchor::probe_spec(text, next) {
                let leading = starts_with(text, '|');
                (
                    StateView {
                        inline: InlineContext::Anchor,
                        candidate_text: if leading {
                            Seq::empty()
                        } else {
                            text
                        },
                        candidate_destination: None,
                        leading,
                        text_buffer: Seq::empty(),
                        destination_buffer: Seq::empty(),
                        held: text,
                        ..st
                    },
                    Seq::empty(),
                    i + 1,
                    true,
                )
            } else {
                (st, Seq::empty(), i + 1, false)
            }
        },
        InlineContext::Code => {
            if Code::probe_spec(text, next) {
                (
                    StateView { inline: InlineContext::Outside, held: Seq::empty(), ..st },
                    seq![
                        TokenView::Code { open: Some(true) },
                        TokenView::Literal { text: st.held },
                        TokenView::Code { open: Some(false) },
                    ],
                    i + 1,
                    true,
                )
            } else {
                (StateView { held: st.held + text, ..st }, Seq::empty(), i + 1, true)
            }
        },
        InlineContext::Anchor => {
            let st = StateView { held: st.held + text, ..st };
            if st.candidate_text.len() == 0 {
                let buffer = st.text_buffer + text;
                (
                    StateView {
                        text_buffer: buffer,
                        candidate_text: if next == pipe() {
                            buffer
                        } else {
                            st.candidate_text
                        },
                        ..st
                    },
                    Seq::empty(),
                    i + 1,
                    true,
                )
            } else if st.candidate_destination is None {
                if st.leading && text == pipe() {
                    if starts_with(next, '|') {
                        (st, Seq::empty(), i + 1, true)
                    } else if is_blank(next) || (next.len() > 0 && is_punctuation_char(next[0])) {
                        let e = completed_anchor(st, st.candidate_text);
                        (e.0, seq![e.1], i + 1, true)
                    } else {
                        let e = completed_anchor(st, next);
                        (e.0, seq![e.1], after_explicit_destination(lx, i), true)
                    }
                } else if !st.leading && next == pipe() {
                    let e = completed_anchor(st, text);
                    (e.0, seq![e.1], if i + 1 < lx.len() {
                        i + 2
                    } else {
                        i + 1
                    }, true)
                } else if is_blank(next) {
                    let e = completed_anchor(st, text);
                    (e.0, seq![e.1], i + 1, true)
                } else {
                    (
                        StateView { destination_buffer: st.destination_buffer + text, ..st },
                        Seq::empty(),
                        i + 1,
                        true,
                    )
                }
            } else {
                (st, Seq::empty(), i + 1, false)
            }
        },
    }
}

/// The token for a lexeme that nothing else took: a line break, or literal text.
pub open spec fn fallback_token(text: Seq<char>) -> TokenView {
    if LineBreak::probe_spec(text, Seq::empty()) {
        TokenView::LineBreak
    } else {
        TokenView::Literal { text }
    }
}

/// One step of the machine on lexeme `i`: the new state, the tokens
/// emitted, and the index of the next lexeme to read.
pub open spec fn step(lx: Lexemes, i: int, st: StateView, ascii_ids: bool) -> (
    StateView,
    Seq<TokenView>,
    int,
) {
    let f = if ends_block(st, lx[i].0) {
        flush(st)
    } else {
        (st, Seq::empty())
    };
    let p = process(lx, i, f.0, ascii_ids);
    (p.0, f.1 + p.1, p.2)
}

/// The block phase, then (unless it handled the lexeme) the inline phase,
/// then (unless that handled it) the fallback token.
pub open spec fn process(lx: Lexemes, i: int, st: StateView, ascii_ids: bool) -> (
    StateView,
    Seq<TokenView>,
    int,
) {
    let b = block_phase(lx, i, st, ascii_ids);
    if b.2 {
        (b.0, b.1, i + 1)
    } else {
        let n = inline_phase(lx, i, b.0);
        if n.3 {
            (n.0, b.1 + n.1, n.2)
        } else {
            (n.0, b.1.push(fallback_token(lx[i].0)), i + 1)
        }
    }
}

/// The lexeme closes the open paragraph or header.
pub open spec fn ends_block(st: StateView, text: Seq<char>) -> bool {
    (st.block is Paragraph || st.block is Header) && text == newline()
}

/// An inline span still open where its block ends was no span: its opening
/// delimiter and everything read since are emitted as literal text, and the
/// inline context is reset.
pub open spec fn flush(st: StateView) -> (StateView, Seq<TokenView>) {
    match st.inline {
        InlineContext::Code => (
            StateView { inline: InlineContext::Outside, held: Seq::empty(), ..st },
            seq![TokenView::Literal { text: seq!['`'] + st.held }],
        ),
        InlineContext::Anchor => (
            StateView { inline: InlineContext::Outside, held: Seq::empty(), ..st },
            seq![TokenView::Literal { text: st.held }],
        ),
        InlineContext::Outside => (st, Seq::empty()),
    }
}

/// The machine run from lexeme `i` to the end, with `acc` already emitted.
pub open spec fn run(lx: Lexemes, i: int, st: StateView, ascii_ids: bool, acc: Seq<TokenView>) -> (
    StateView,
    Seq<TokenView>,
)
    decreases lx.len() - i,
{
    if i < 0 || i >= lx.len() {
        (st, acc)
    } else {
        let s = step(lx, i, st, ascii_ids);
        if s.2 <= i {
            (st, acc)
        } else {
            run(lx, s.2, s.0, ascii_ids, acc + s.1)
        }
    }
}

/// What the end of the text adds: an inline span left open, as literal
/// text, and the close of an open paragraph; `None`
/// where a header or a preformatted block is still open.
pub open spec fn closing(st: StateView) -> Option<Seq<TokenView>> {
    match st.block {
        BlockContext::Paragraph => Some(
            flush(st).1 + seq![TokenView::Paragraph { open: Some(false) }],
        ),
        BlockContext::Outside => Some(flush(st).1),
        _ => None,
    }
}

/// The final state of the machine on a text.
pub open spec fn final_state(text: Seq<char>, ascii_ids: bool) -> StateView {
    run(lexemes(segments(text)), 0, initial_state(), ascii_ids, Seq::empty()).0
}

/// The tokens of a text, before the end of the text is handled.
pub open spec fn body_tokens(text: Seq<char>, ascii_ids: bool) -> Seq<TokenView> {
    run(lexemes(segments(text)), 0, initial_state(), ascii_ids, Seq::empty()).1
}

/// The tokens of a text, or the error at its end.
pub open spec fn document_tokens(text: Seq<char>, ascii_ids: bool) -> Result<
    Seq<TokenView>,
    ParseError,
> {
    let st = final_state(text, ascii_ids);
    match closing(st) {
        Some(tail) => Ok(body_tokens(text, ascii_ids) + tail),
        None => match st.block {
            BlockContext::Header(_) => Err(ParseError::OpenHeader),
            _ => Err(ParseError::OpenPreFormat),
        },
    }
}

/// The HTML of a text, or the error at its end.
pub open spec fn document(text: Seq<char>, ascii_ids: bool) -> Result<Seq<char>, ParseError> {
    match document_tokens(text, ascii_ids) {
        Ok(ts) => Ok(document_html(ts)),
        Err(e) => Err(e),
    }
}


pub open spec fn token_views(v: Seq<Token>) -> Seq<TokenView> {
    v.map_values(|t: Token| t@)
}

pub open spec fn lexeme_views(v: Seq<Lexeme>) -> Lexemes {
    Seq::new(v.len(), |k: int| (v[k].text@, v[k].next@))
}

struct Context {
    block: BlockContext,
    inline: InlineContext,
}

/// The anchor being read, and the text gathered for it so far.
struct AnchorBuffer {
    candidate: Anchor,
    text: String,
    destination: String,
}

struct Buffers {
    anchor: AnchorBuffer,
    /// The source text read since the open inline span began.
    held: String,
}

/// Everything one parse keeps between two lexemes.
struct State {
    context: Context,
    dom_ids: IdTable,
    buffers: Buffers,
}

impl View for State {
    type V = StateView;

    closed spec fn view(&self) -> StateView {
        StateView {
            block: self.context.block,
            inline: self.context.inline,
            ids: self.dom_ids@,
            candidate_text: self.buffers.anchor.candidate.text@,
            candidate_destination: match self.buffers.anchor.candidate.destination {
                Some(d) => Some(d@),
                None => None,
            },
            leading: self.buffers.anchor.candidate.leading,
            text_buffer: self.buffers.anchor.text@,
            destination_buffer: self.buffers.anchor.destination@,
            held: self.buffers.held@,
        }
    }
}

impl AnchorBuffer {
    fn clear(&mut self)
        ensures
            final(self).candidate.text@ == Seq::<char>::empty(),
            final(self).candidate.destination is None,
            !final(self).candidate.leading,
            final(self).text@ == Seq::<char>::empty(),
            final(self).destination@ == Seq::<char>::empty(),
    {
        self.candidate = Anchor::empty();
        self.text = String::new();
        self.destination = String::new();
    }
}

impl State {
    fn new() -> (r: State)
        ensures
            r@ == initial_state(),
    {
        let r = State {
            context: Context { inline: InlineContext::Outside, block: BlockContext::Outside },
            dom_ids: IdTable::new(),
            buffers: Buffers {
                anchor: AnchorBuffer {
                    candidate: Anchor::empty(),
                    text: String::new(),
                    destination: String::new(),
                },
                held: String::new(),
            },
        };
        assert(r@ == initial_state());
        r
    }
}

fn emit(tokens: &mut Vec<Token>, t: Token)
    ensures
        token_views(final(tokens)@) == token_views(old(tokens)@).push(t@),
{
    let ghost t_view = t@;
    tokens.push(t);
    assert(token_views(final(tokens)@) =~= token_views(old(tokens)@).push(t_view));
}

/// Completes the anchor under construction with `destination` and emits it.
fn emit_anchor(state: &mut State, destination: String, tokens: &mut Vec<Token>)
    ensures
        final(state)@ == completed_anchor(old(state)@, destination@).0,
        token_views(final(tokens)@) == token_views(old(tokens)@).push(
            completed_anchor(old(state)@, destination@).1,
        ),
{
    let token = Anchor {
        text: state.buffers.anchor.candidate.text.clone(),
        destination: Some(destination.clone()),
        leading: state.buffers.anchor.candidate.leading,
    };
    state.buffers.anchor.candidate.destination = Some(destination);
    emit(tokens, Token::Anchor(token));
    state.context.inline = InlineContext::Outside;
}

/// The block phase for lexeme `i`; true when the lexeme is fully handled.
fn lex_block(
    state: &mut State,
    lexemes: &Vec<Lexeme>,
    i: usize,
    config: &Config,
    tokens: &mut Vec<Token>,
) -> (done: bool)
    requires
        i < lexemes@.len() <= usize::MAX,
    ensures
        final(state)@ == block_phase(
            lexeme_views(lexemes@),
            i as int,
            old(state)@,
            config.ascii_dom_ids,
        ).0,
        token_views(final(tokens)@) == token_views(old(tokens)@) + block_phase(
            lexeme_views(lexemes@),
            i as int,
            old(state)@,
            config.ascii_dom_ids,
        ).1,
        done == block_phase(lexeme_views(lexemes@), i as int, old(state)@, config.ascii_dom_ids).2,
{
    let ghost lx = lexeme_views(lexemes@);
    let ghost tv0 = token_views(tokens@);
    let lexeme = &lexemes[i];
    match state.context.block {
        BlockContext::Outside => {
            if PreFormat::probe(lexeme) {
                state.context.block = BlockContext::PreFormat;
                emit(tokens, Token::PreFormat(PreFormat::new(true)));
                assert(token_views(tokens@) =~= tv0 + seq![TokenView::PreFormat { open: Some(true) }]);
                true
            } else if Header::probe(lexeme) {
                let mut header = Header::lex(lexeme);
                let empty = Lexeme::new("", "");
                proof {
                    reveal_strlit("");
                }
                let peek = if i + 1 < lexemes.len() {
                    &lexemes[i + 1]
                } else {
                    &empty
                };
                header.dom_id = Some(Header::make_id(config, peek, &mut state.dom_ids));
                let level = header.level();
                state.context.block = BlockContext::Header(level);
                proof {
                    let text = lx[i as int].0;
                    let after = if i + 1 < lx.len() {
                        lx[i + 1].1
                    } else {
                        Seq::empty()
                    };
                    assert(peek.next@ == after);
                    assert(level == clamped_level(text.len()) as u8);
                }
                let ghost hv = Token::Header(header)@;
                emit(tokens, Token::Header(header));
                assert(token_views(tokens@) =~= tv0 + seq![hv]);
                true
            } else if Paragraph::probe(lexeme) {
                state.context.block = BlockContext::Paragraph;
                emit(tokens, Token::Paragraph(Paragraph::new(true)));
                assert(token_views(tokens@) =~= tv0 + seq![TokenView::Paragraph { open: Some(true) }]);
                false
            } else {
                assert(token_views(tokens@) =~= tv0 + Seq::<TokenView>::empty());
                false
            }
        },
        BlockContext::PreFormat => {
            if PreFormat::probe(lexeme) {
                emit(tokens, Token::PreFormat(PreFormat::new(false)));
                state.context.block = BlockContext::Outside;
                assert(token_views(tokens@) =~= tv0 + seq![TokenView::PreFormat { open: Some(false) }]);
            } else {
                emit(tokens, Token::Literal(Literal::lex(lexeme)));
                assert(token_views(tokens@) =~= tv0 + seq![TokenView::Literal { text: lx[i as int].0 }]);
            }
            true
        },
        BlockContext::Paragraph => {
            if lexeme.text_is('\n') {
                emit(tokens, Token::Paragraph(Paragraph::new(false)));
                state.context.block = BlockContext::Outside;
                assert(token_views(tokens@) =~= tv0 + seq![TokenView::Paragraph { open: Some(false) }]);
            } else {
                assert(token_views(tokens@) =~= tv0 + Seq::<TokenView>::empty());
            }
            false
        },
        BlockContext::Header(n) => {
            if lexeme.text_is('\n') {
                let h = Header::from_u8(n, false, None);
                let ghost hv = Token::Header(h)@;
                emit(tokens, Token::Header(h));
                state.context.block = BlockContext::Outside;
                assert(token_views(tokens@) =~= tv0 + seq![hv]);
            } else {
                assert(token_views(tokens@) =~= tv0 + Seq::<TokenView>::empty());
            }
            false
        },
    }
}

/// The inline phase for lexeme `i`: where reading goes on, and whether the
/// lexeme was handled here.
fn lex_inline(state: &mut State, lexemes: &Vec<Lexeme>, i: usize, tokens: &mut Vec<Token>) -> (r: (
    usize,
    bool,
))
    requires
        i < lexemes@.len() <= usize::MAX,
    ensures
        final(state)@ == inline_phase(lexeme_views(lexemes@), i as int, old(state)@).0,
        token_views(final(tokens)@) == token_views(old(tokens)@) + inline_phase(
            lexeme_views(lexemes@),
            i as int,
            old(state)@,
        ).1,
        r.0 as int == inline_phase(lexeme_views(lexemes@), i as int, old(state)@).2,
        r.1 == inline_phase(lexeme_views(lexemes@), i as int, old(state)@).3,
{
    let ghost lx = lexeme_views(lexemes@);
    let ghost tv0 = token_views(tokens@);
    let ghost st0 = state@;
    let lexeme = &lexemes[i];
    match state.context.inline {
        InlineContext::Outside => {
            if Code::probe(lexeme) {
                state.context.inline = InlineContext::Code;
                state.buffers.held = String::new();
                assert(token_views(tokens@) =~= tv0 + Seq::<TokenView>::empty());
                (i + 1, true)
            } else if Anchor::probe(lexeme) {
                state.context.inline = InlineContext::Anchor;
                state.buffers.anchor.clear();
                state.buffers.held = lexeme.text();
                if lexeme.match_first_char('|') {
                    state.buffers.anchor.candidate.leading = true;
                } else {
                    state.buffers.anchor.candidate.text = lexeme.text();
                }
                assert(token_views(tokens@) =~= tv0 + Seq::<TokenView>::empty());
                (i + 1, true)
            } else {
                assert(token_views(tokens@) =~= tv0 + Seq::<TokenView>::empty());
                (i + 1, false)
            }
        },
        InlineContext::Code => {
            if Code::probe(lexeme) {
                state.context.inline = InlineContext::Outside;
                let content = Literal { text: state.buffers.held.clone() };
                state.buffers.held = String::new();
                emit(tokens, Token::Code(Code::new(true)));
                emit(tokens, Token::Literal(content));
                emit(tokens, Token::Code(Code::new(false)));
                assert(token_views(tokens@) =~= tv0 + seq![
                    TokenView::Code { open: Some(true) },
                    TokenView::Literal { text: st0.held },
                    TokenView::Code { open: Some(false) },
                ]);
                (i + 1, true)
            } else {
                state.buffers.held.append(lexeme.text.as_str());
                assert(token_views(tokens@) =~= tv0 + Seq::<TokenView>::empty());
                (i + 1, true)
            }
        },
        InlineContext::Anchor => {
            state.buffers.held.append(lexeme.text.as_str());
            let ghost st0 = state@;
            if crate::text::chars_of(state.buffers.anchor.candidate.text.as_str()).len() == 0 {
                state.buffers.anchor.text.append(lexeme.text.as_str());
                if lexeme.next_is('|') {
                    state.buffers.anchor.candidate.text = state.buffers.anchor.text.clone();
                }
                assert(token_views(tokens@) =~= tv0 + Seq::<TokenView>::empty());
                (i + 1, true)
            } else if state.buffers.anchor.candidate.destination.is_none() {
                let leading = state.buffers.anchor.candidate.leading;
                if leading && lexeme.text_is('|') {
                    if lexeme.match_next_first_char('|') {
                        assert(token_views(tokens@) =~= tv0 + Seq::<TokenView>::empty());
                        (i + 1, true)
                    } else if lexeme.is_next_whitespace() || lexeme.is_next_punctuation() {
                        let d = state.buffers.anchor.candidate.text.clone();
                        emit_anchor(state, d, tokens);
                        assert(token_views(tokens@) =~= tv0 + seq![completed_anchor(st0, st0.candidate_text).1]);
                        (i + 1, true)
                    } else {
                        emit_anchor(state, lexeme.next.clone(), tokens);
                        assert(token_views(tokens@) =~= tv0 + seq![completed_anchor(st0, lx[i as int].1).1]);
                        let mut j = i + 1;
                        if j < lexemes.len() {
                            let consumed = &lexemes[j];
                            j = j + 1;
                            if consumed.next_is('|') && j < lexemes.len() {
                                j = j + 1;
                            }
                        }
                        (j, true)
                    }
                } else if !leading && lexeme.next_is('|') {
                    emit_anchor(state, lexeme.text(), tokens);
                    assert(token_views(tokens@) =~= tv0 + seq![completed_anchor(st0, lx[i as int].0).1]);
                    if i + 1 < lexemes.len() {
                        (i + 2, true)
                    } else {
                        (i + 1, true)
                    }
                } else if lexeme.is_next_whitespace() {
                    emit_anchor(state, lexeme.text(), tokens);
                    assert(token_views(tokens@) =~= tv0 + seq![completed_anchor(st0, lx[i as int].0).1]);
                    (i + 1, true)
                } else {
                    state.buffers.anchor.destination.append(lexeme.text.as_str());
                    assert(token_views(tokens@) =~= tv0 + Seq::<TokenView>::empty());
                    (i + 1, true)
                }
            } else {
                assert(token_views(tokens@) =~= tv0 + Seq::<TokenView>::empty());
                (i + 1, false)
            }
        },
    }
}

/// Emits an inline span left open as literal text and resets the context.
fn release_span(state: &mut State, tokens: &mut Vec<Token>)
    ensures
        final(state)@ == flush(old(state)@).0,
        token_views(final(tokens)@) == token_views(old(tokens)@) + flush(old(state)@).1,
{
    let ghost tv0 = token_views(tokens@);
    let ghost st0 = state@;
    match state.context.inline {
        InlineContext::Code => {
            let mut text = String::new();
            crate::text::push_char(&mut text, '`');
            text.append(state.buffers.held.as_str());
            emit(tokens, Token::Literal(Literal { text }));
            state.context.inline = InlineContext::Outside;
            state.buffers.held = String::new();
            assert(token_views(tokens@) =~= tv0 + seq![
                TokenView::Literal { text: seq!['`'] + st0.held },
            ]);
        },
        InlineContext::Anchor => {
            let text = state.buffers.held.clone();
            emit(tokens, Token::Literal(Literal { text }));
            state.context.inline = InlineContext::Outside;
            state.buffers.held = String::new();
            assert(token_views(tokens@) =~= tv0 + seq![TokenView::Literal { text: st0.held }]);
        },
        InlineContext::Outside => {
            assert(token_views(tokens@) =~= tv0 + Seq::<TokenView>::empty());
        },
    }
}

/// The token for a lexeme that nothing else took.
fn fallback(lexeme: &Lexeme) -> (r: Token)
    ensures
        r@ == fallback_token(lexeme.text@),
{
    if lexeme.text_is('\n') {
        Token::LineBreak(LineBreak::lex(lexeme))
    } else {
        Token::Literal(Literal::lex(lexeme))
    }
}


/// Every token that a step emits can be rendered.
proof fn lemma_step_renderable(lx: Lexemes, i: int, st: StateView, ascii_ids: bool)
    requires
        0 <= i < lx.len(),
    ensures
        all_renderable(step(lx, i, st, ascii_ids).1),
{
    let b = block_phase(lx, i, st, ascii_ids);
    let n = inline_phase(lx, i, b.0);
    assert(all_renderable(b.1));
    assert(all_renderable(n.1));
    if !b.2 && n.3 {
        assert(all_renderable(b.1 + n.1)) by {
            assert forall|k: int| 0 <= k < (b.1 + n.1).len() implies token_renderable(
                #[trigger] (b.1 + n.1)[k],
            ) by {
                if k >= b.1.len() {
                    assert((b.1 + n.1)[k] == n.1[k - b.1.len()]);
                }
            }
        }
    }
}

/// A run that starts from renderable tokens emits only renderable tokens.
proof fn lemma_run_renderable(
    lx: Lexemes,
    i: int,
    st: StateView,
    ascii_ids: bool,
    acc: Seq<TokenView>,
)
    requires
        all_renderable(acc),
    ensures
        all_renderable(run(lx, i, st, ascii_ids, acc).1),
    decreases lx.len() - i,
{
    if 0 <= i < lx.len() {
        let s = step(lx, i, st, ascii_ids);
        if s.2 > i {
            lemma_step_renderable(lx, i, st, ascii_ids);
            assert(all_renderable(acc + s.1)) by {
                assert forall|k: int| 0 <= k < (acc + s.1).len() implies token_renderable(
                    #[trigger] (acc + s.1)[k],
                ) by {
                    if k >= acc.len() {
                        assert((acc + s.1)[k] == s.1[k - acc.len()]);
                    }
                }
            }
            lemma_run_renderable(lx, s.2, s.0, ascii_ids, acc + s.1);
        }
    }
}

/// One step of the machine on lexeme `i`; returns the index of the next
/// lexeme to read.
fn lex_step(
    state: &mut State,
    stream: &Vec<Lexeme>,
    i: usize,
    config: &Config,
    tokens: &mut Vec<Token>,
) -> (next: usize)
    requires
        i < stream@.len() <= usize::MAX,
    ensures
        final(state)@ == step(lexeme_views(stream@), i as int, old(state)@, config.ascii_dom_ids).0,
        token_views(final(tokens)@) == token_views(old(tokens)@) + step(
            lexeme_views(stream@),
            i as int,
            old(state)@,
            config.ascii_dom_ids,
        ).1,
        next as int == step(lexeme_views(stream@), i as int, old(state)@, config.ascii_dom_ids).2,
        i < next <= stream@.len(),
{
    let ghost lx = lexeme_views(stream@);
    let ghost st_in = state@;
    let ghost tv_in = token_views(tokens@);
    let ends = match state.context.block {
        BlockContext::Paragraph => stream[i].text_is('\n'),
        BlockContext::Header(_) => stream[i].text_is('\n'),
        _ => false,
    };
    if ends {
        release_span(state, tokens);
    } else {
        assert(token_views(tokens@) =~= tv_in + Seq::<TokenView>::empty());
    }
    assert(ends == ends_block(st_in, lx[i as int].0));
    let ghost st0 = state@;
    let ghost tv0 = token_views(tokens@);
    let ghost fl = tv0.subrange(tv_in.len() as int, tv0.len() as int);
    assert(tv0 =~= tv_in + fl);
    proof {
        let f = if ends_block(st_in, lx[i as int].0) {
            flush(st_in)
        } else {
            (st_in, Seq::<TokenView>::empty())
        };
        assert(st0 == f.0);
        assert(fl =~= f.1);
    }
    let next = lex_process(state, stream, i, config, tokens);
    assert(token_views(tokens@) =~= tv_in + (fl + process(lx, i as int, st0, config.ascii_dom_ids).1));
    next
}

/// The block phase, the inline phase and the fallback on lexeme `i`.
fn lex_process(
    state: &mut State,
    stream: &Vec<Lexeme>,
    i: usize,
    config: &Config,
    tokens: &mut Vec<Token>,
) -> (next: usize)
    requires
        i < stream@.len() <= usize::MAX,
    ensures
        final(state)@ == process(lexeme_views(stream@), i as int, old(state)@, config.ascii_dom_ids).0,
        token_views(final(tokens)@) == token_views(old(tokens)@) + process(
            lexeme_views(stream@),
            i as int,
            old(state)@,
            config.ascii_dom_ids,
        ).1,
        next as int == process(lexeme_views(stream@), i as int, old(state)@, config.ascii_dom_ids).2,
        i < next <= stream@.len(),
{
    let ghost lx = lexeme_views(stream@);
    let ghost ascii_ids = config.ascii_dom_ids;
    let mut next: usize = i + 1;
    let ghost tv0 = token_views(tokens@);
    let ghost st0 = state@;
    let done = lex_block(state, stream, i, config, tokens);
    if done {
        proof {
            assert(token_views(tokens@) =~= tv0 + block_phase(lx, i as int, st0, ascii_ids).1);
        }
        next = i + 1;
    } else {
        let ghost st1 = state@;
        let (j, handled) = lex_inline(state, stream, i, tokens);
        if handled {
            proof {
                assert(token_views(tokens@) =~= tv0 + (block_phase(lx, i as int, st0, ascii_ids).1
                    + inline_phase(lx, i as int, st1).1));
            }
            next = j;
        } else {
            emit(tokens, fallback(&stream[i]));
            proof {
                assert(token_views(tokens@) =~= tv0 + block_phase(
                    lx,
                    i as int,
                    st0,
                    ascii_ids,
                ).1.push(fallback_token(lx[i as int].0)));
            }
            next = i + 1;
        }
    }
    next
}

/// Runs the machine over the lexemes of a text.
fn lex(text: &str, config: &Config) -> (r: (Vec<Token>, State))
    ensures
        r.1@ == final_state(text@, config.ascii_dom_ids),
        token_views(r.0@) == body_tokens(text@, config.ascii_dom_ids),
{
    let mut tokens: Vec<Token> = Vec::new();
    let mut state = State::new();
    let segs = segment::segment(text);
    let stream = Lexeme::collect(segs.as_slice());
    let ghost lx = lexeme_views(stream@);
    let ghost ascii_ids = config.ascii_dom_ids;
    proof {
        assert(segs@.map_values(|s: String| s@) == views(segs@));
        assert(lx =~= lexemes(segments(text@)));
        assert(token_views(tokens@) =~= Seq::<TokenView>::empty());
    }
    let mut i: usize = 0;
    while i < stream.len()
        invariant
            i <= stream@.len(),
            lx == lexeme_views(stream@),
            lx == lexemes(segments(text@)),
            ascii_ids == config.ascii_dom_ids,
            run(lx, i as int, state@, ascii_ids, token_views(tokens@)) == run(
                lx,
                0,
                initial_state(),
                ascii_ids,
                Seq::empty(),
            ),
        decreases stream@.len() - i,
    {
        let ghost st_in = state@;
        let ghost tv_in = token_views(tokens@);
        let next = lex_step(&mut state, &stream, i, config, &mut tokens);
        proof {
            let s = step(lx, i as int, st_in, ascii_ids);
            assert(run(lx, i as int, st_in, ascii_ids, tv_in) == run(lx, s.2, s.0, ascii_ids, tv_in + s.1));
        }
        i = next;
    }
    (tokens, state)
}

/// Handles the end of the text: closes an open paragraph, and fails on an
/// open header or preformatted block.
fn close(state: State, tokens: &mut Vec<Token>) -> (r: Result<(), ParseError>)
    ensures
        match closing(state@) {
            Some(tail) => r is Ok && token_views(final(tokens)@) == token_views(old(tokens)@)
                + tail,
            None => r is Err && (state@.block is Header ==> r == Err::<(), ParseError>(
                ParseError::OpenHeader,
            )) && (state@.block is PreFormat ==> r == Err::<(), ParseError>(
                ParseError::OpenPreFormat,
            )),
        },
{
    let ghost tv0 = token_views(tokens@);
    let ghost st0 = state@;
    let mut state = state;
    match state.context.block {
        BlockContext::Paragraph => {
            release_span(&mut state, tokens);
            emit(tokens, Token::Paragraph(Paragraph::new(false)));
            assert(token_views(tokens@) =~= tv0 + (flush(st0).1 + seq![
                TokenView::Paragraph { open: Some(false) },
            ]));
            Ok(())
        },
        BlockContext::Header(_) => Err(ParseError::OpenHeader),
        BlockContext::PreFormat => Err(ParseError::OpenPreFormat),
        BlockContext::Outside => {
            release_span(&mut state, tokens);
            Ok(())
        },
    }
}

/// The renders of the tokens, one after another.
fn render_tokens(tokens: &Vec<Token>) -> (r: String)
    requires
        all_renderable(token_views(tokens@)),
    ensures
        r@ == document_html(token_views(tokens@)),
{
    let mut out = String::new();
    let mut i: usize = 0;
    while i < tokens.len()
        invariant
            i <= tokens@.len(),
            all_renderable(token_views(tokens@)),
            out@ == document_html(token_views(tokens@).take(i as int)),
        decreases tokens@.len() - i,
    {
        assert(token_renderable(token_views(tokens@)[i as int]));
        let piece = tokens[i].render();
        out.append(piece.as_str());
        proof {
            let tv = token_views(tokens@);
            assert(tv.take(i + 1).drop_last() =~= tv.take(i as int));
        }
        i = i + 1;
    }
    assert(token_views(tokens@).take(i as int) =~= token_views(tokens@));
    out
}

/// Renders a text to HTML, or fails where it ends inside a header or a
/// preformatted block.
pub fn read(text: &str, config: &Config) -> (r: Result<String, ParseError>)
    ensures
        match r {
            Ok(html) => document(text@, config.ascii_dom_ids) == Ok::<Seq<char>, ParseError>(
                html@,
            ),
            Err(e) => document(text@, config.ascii_dom_ids) == Err::<Seq<char>, ParseError>(e),
        },
{
    let (mut tokens, state) = lex(text, config);
    let ghost body = token_views(tokens@);
    let ghost final_st = state@;
    match close(state, &mut tokens) {
        Ok(()) => {
            proof {
                lemma_run_renderable(
                    lexemes(segments(text@)),
                    0,
                    initial_state(),
                    config.ascii_dom_ids,
                    Seq::empty(),
                );
                let tail = closing(final_st)->0;
                assert(all_renderable(tail));
                assert(all_renderable(token_views(tokens@))) by {
                    assert forall|k: int| 0 <= k < token_views(tokens@).len() implies token_renderable(
                        #[trigger] token_views(tokens@)[k],
                    ) by {
                        if k >= body.len() {
                            assert(token_views(tokens@)[k] == tail[k - body.len()]);
                        } else {
                            assert(token_views(tokens@)[k] == body[k]);
                        }
                    }
                }
            }
            Ok(render_tokens(&tokens))
        },
        Err(e) => Err(e),
    }
}

} // verus!

verus! {

/// The empty text renders to the empty fragment.
pub proof fn lemma_empty_document(ascii_ids: bool)
    ensures
        document(Seq::empty(), ascii_ids) == Ok::<Seq<char>, ParseError>(Seq::empty()),
{
    let e = Seq::<char>::empty();
    assert(segments(e).len() == 0);
    assert(lexemes(segments(e)).len() == 0);
    assert(document_html(Seq::<TokenView>::empty() + Seq::<TokenView>::empty()) =~= Seq::empty())
        by {
        assert(Seq::<TokenView>::empty() + Seq::<TokenView>::empty() =~= Seq::<TokenView>::empty());
    }
}

/// A text that ends inside a header or a preformatted block fails with the
/// matching error; any other text renders.
pub proof fn lemma_open_block_fails(text: Seq<char>, ascii_ids: bool)
    ensures
        final_state(text, ascii_ids).block is Header ==> document(text, ascii_ids) == Err::<
            Seq<char>,
            ParseError,
        >(ParseError::OpenHeader),
        final_state(text, ascii_ids).block is PreFormat ==> document(text, ascii_ids) == Err::<
            Seq<char>,
            ParseError,
        >(ParseError::OpenPreFormat),
        final_state(text, ascii_ids).block is Paragraph || final_state(text, ascii_ids).block is Outside
            ==> document(text, ascii_ids) is Ok,
{
}

/// Three headers whose identifiers share a base not issued before get the
/// base, then the base with `-1`, then with `-2`.
pub proof fn lemma_ids_deduplicated(table: IdTableView, base: Seq<char>)
    requires
        base_index(table, base, 0) < 0,
    ensures
        issue_id(table, base).1 == base,
        issue_id(issue_id(table, base).0, base).1 == base + seq!['-', '1'],
        issue_id(issue_id(issue_id(table, base).0, base).0, base).1 == base + seq!['-', '2'],
{
    let t1 = issue_id(table, base).0;
    lemma_base_index_push(table, base, 0);
    let k = table.len() as int;
    assert(base_index(t1, base, 0) == k);
    assert(t1[k].1.len() == 1);
    let t2 = issue_id(t1, base).0;
    assert(decimal(1) =~= seq!['1']);
    lemma_base_index_update(t1, base, 0, k);
    assert(base_index(t2, base, 0) == k);
    assert(t2[k].1.len() == 2);
    assert(decimal(2) =~= seq!['2']);
    assert(issue_id(t1, base).1 =~= base + seq!['-', '1']);
    assert(issue_id(t2, base).1 =~= base + seq!['-', '2']);
}

/// Appending an entry for a base that has none makes it the one found.
proof fn lemma_base_index_push(table: IdTableView, base: Seq<char>, i: int)
    requires
        0 <= i <= table.len(),
        base_index(table, base, i) < 0,
    ensures
        base_index(table.push((base, seq![base])), base, i) == table.len(),
    decreases table.len() - i,
{
    if i < table.len() {
        lemma_base_index_push(table, base, i + 1);
    }
}

/// Updating the entry that is found, keeping its base, keeps it the one found.
proof fn lemma_base_index_update(table: IdTableView, base: Seq<char>, i: int, k: int)
    requires
        0 <= i <= k < table.len(),
        base_index(table, base, i) == k,
    ensures
        forall|issued: Seq<Seq<char>>|
            base_index(#[trigger] table.update(k, (base, issued)), base, i) == k,
    decreases k - i,
{
    if i < k {
        lemma_base_index_update(table, base, i + 1, k);
    }
}

} // verus!

verus! {

/// A word with no delimiter and no whitespace.
pub open spec fn is_plain_word(w: Seq<char>) -> bool {
    w.len() > 0 && forall|i: int|
        0 <= i < w.len() ==> !segment::is_delimiter(#[trigger] w[i]) && !crate::text::is_space_char(
            w[i],
        )
}

/// A delimiter after a text is a segment of its own.
proof fn lemma_segments_delimiter(s: Seq<char>, d: char)
    requires
        segment::is_delimiter(d),
    ensures
        segments(s.push(d)) == segments(s).push(seq![d]),
{
    assert(s.push(d).drop_last() =~= s);
}

/// A plain word after a delimiter (or at the start) is a segment of its own.
proof fn lemma_segments_word(s: Seq<char>, w: Seq<char>)
    requires
        is_plain_word(w),
        s.len() == 0 || segment::is_delimiter(s.last()),
    ensures
        segments(s + w) == segments(s).push(w),
    decreases w.len(),
{
    if s.len() > 0 {
        assert(segments(s) == segments(s.drop_last()).push(seq![s.last()]));
    }
    if w.len() == 1 {
        assert((s + w).drop_last() =~= s);
        assert((s + w).last() == w[0]);
        assert(seq![w[0]] =~= w);
    } else {
        let w2 = w.drop_last();
        assert(is_plain_word(w2));
        lemma_segments_word(s, w2);
        assert((s + w).drop_last() =~= s + w2);
        assert((s + w).last() == w.last());
        let prev = segments(s).push(w2);
        assert(!segment::is_delimiter_segment(prev.last())) by {
            assert(!segment::is_delimiter(w2[0]));
        }
        assert(w2.push(w.last()) =~= w);
        assert(prev.last() == w2);
        assert(prev.update(prev.len() - 1, prev.last().push(w.last())) =~= segments(s).push(w));
    }
}

} // verus!

verus! {

/// No pipe and no backtick.
pub open spec fn free_of_markup_delimiters(h: Seq<char>) -> bool {
    forall|i: int| 0 <= i < h.len() ==> #[trigger] h[i] != '|' && h[i] != '`'
}

proof fn lemma_free_concat(a: Seq<char>, b: Seq<char>)
    requires
        free_of_markup_delimiters(a),
        free_of_markup_delimiters(b),
    ensures
        free_of_markup_delimiters(a + b),
{
    assert forall|i: int| 0 <= i < (a + b).len() implies #[trigger] (a + b)[i] != '|' && (a
        + b)[i] != '`' by {
        if i < a.len() {
            assert((a + b)[i] == a[i]);
        } else {
            assert((a + b)[i] == b[i - a.len()]);
        }
    }
}

/// A code span around a plain word, alone in a paragraph, renders to a code
/// element: both backticks are taken as markup and none is left in the HTML.
pub proof fn lemma_code_span_consumed(w: Seq<char>, ascii_ids: bool)
    requires
        is_plain_word(w),
    ensures
        document(seq!['`'] + w + seq!['`'], ascii_ids) == Ok::<Seq<char>, ParseError>(
            seq!['<', 'p', '>', '<', 'c', 'o', 'd', 'e', '>'] + w + seq![
                '<',
                '/',
                'c',
                'o',
                'd',
                'e',
                '>',
                '<',
                '/',
                'p',
                '>',
            ],
        ),
        free_of_markup_delimiters(document(seq!['`'] + w + seq!['`'], ascii_ids)->Ok_0),
{
    let tick = seq!['`'];
    let text = tick + w + tick;
    assert(segments(Seq::<char>::empty()).len() == 0);
    lemma_segments_delimiter(Seq::empty(), '`');
    assert(Seq::<char>::empty().push('`') =~= tick);
    lemma_segments_word(tick, w);
    lemma_segments_delimiter(tick + w, '`');
    assert((tick + w).push('`') =~= text);
    let segs = segments(text);
    assert(segs =~= seq![tick, w, tick]);
    let lx = lexemes(segs);
    assert(lx[0] == (tick, w));
    assert(lx[1] == (w, tick));
    assert(lx[2] == (tick, Seq::<char>::empty()));
    assert(w != seq!['\n']) by {
        assert(!segment::is_delimiter(w[0]));
    }
    assert(w != tick) by {
        assert(!segment::is_delimiter(w[0]));
    }
    assert(!is_blank(tick));
    assert(!is_hash_run(tick));
    let s0 = initial_state();
    let st1 = step(lx, 0, s0, ascii_ids);
    assert(st1.1 =~= seq![TokenView::Paragraph { open: Some(true) }]);
    assert(st1.2 == 1);
    let st2 = step(lx, 1, st1.0, ascii_ids);
    assert(!is_blank(w)) by {
        assert(!crate::text::is_space_char(w[0]));
    }
    assert(st2.0.held =~= w);
    assert(st2.1 =~= Seq::<TokenView>::empty());
    assert(st2.2 == 2);
    let st3 = step(lx, 2, st2.0, ascii_ids);
    assert(st3.1 =~= seq![
        TokenView::Code { open: Some(true) },
        TokenView::Literal { text: w },
        TokenView::Code { open: Some(false) },
    ]);
    assert(st3.2 == 3);
    let acc1 = Seq::<TokenView>::empty() + st1.1;
    let acc2 = acc1 + st2.1;
    let acc3 = acc2 + st3.1;
    assert(run(lx, 3, st3.0, ascii_ids, acc3) == (st3.0, acc3));
    assert(run(lx, 2, st2.0, ascii_ids, acc2) == run(lx, 3, st3.0, ascii_ids, acc3));
    assert(run(lx, 1, st1.0, ascii_ids, acc1) == run(lx, 2, st2.0, ascii_ids, acc2));
    assert(run(lx, 0, s0, ascii_ids, Seq::empty()) == run(lx, 1, st1.0, ascii_ids, acc1));
    assert(st3.0.block == BlockContext::Paragraph);
    assert(st3.0.inline == InlineContext::Outside);
    assert(flush(st3.0).1 =~= Seq::<TokenView>::empty());
    let ts = acc3 + seq![TokenView::Paragraph { open: Some(false) }];
    assert(closing(st3.0) == Some(seq![TokenView::Paragraph { open: Some(false) }])) by {
        assert(flush(st3.0).1 + seq![TokenView::Paragraph { open: Some(false) }] =~= seq![
            TokenView::Paragraph { open: Some(false) },
        ]);
    }
    assert(document_tokens(text, ascii_ids) == Ok::<Seq<TokenView>, ParseError>(ts));
    assert(ts =~= seq![
        TokenView::Paragraph { open: Some(true) },
        TokenView::Code { open: Some(true) },
        TokenView::Literal { text: w },
        TokenView::Code { open: Some(false) },
        TokenView::Paragraph { open: Some(false) },
    ]);
    reveal_with_fuel(document_html, 6);
    let h = document_html(ts);
    let expected = seq!['<', 'p', '>', '<', 'c', 'o', 'd', 'e', '>'] + w + seq![
        '<',
        '/',
        'c',
        'o',
        'd',
        'e',
        '>',
        '<',
        '/',
        'p',
        '>',
    ];
    assert(ts.drop_last().drop_last().drop_last().drop_last().drop_last() =~= Seq::<TokenView>::empty());
    assert(h =~= expected);
    assert(free_of_markup_delimiters(w)) by {
        assert forall|i: int| 0 <= i < w.len() implies #[trigger] w[i] != '|' && w[i] != '`' by {
            assert(!segment::is_delimiter(w[i]));
        }
    }
    let head = seq!['<', 'p', '>', '<', 'c', 'o', 'd', 'e', '>'];
    let tail = seq!['<', '/', 'c', 'o', 'd', 'e', '>', '<', '/', 'p', '>'];
    assert(free_of_markup_delimiters(head));
    assert(free_of_markup_delimiters(tail));
    lemma_free_concat(head, w);
    lemma_free_concat(head + w, tail);
}

} // verus!

verus! {

proof fn lemma_plain_word_free(w: Seq<char>)
    requires
        is_plain_word(w),
    ensures
        free_of_markup_delimiters(w),
        !is_blank(w),
        w != seq!['\n'],
        w != seq!['|'],
        w != seq!['`'],
        !starts_with(w, '|'),
        !starts_with(w, '`'),
{
    assert forall|i: int| 0 <= i < w.len() implies #[trigger] w[i] != '|' && w[i] != '`' by {
        assert(!segment::is_delimiter(w[i]));
    }
    assert(!segment::is_delimiter(w[0]));
    assert(!crate::text::is_space_char(w[0]));
}

/// The HTML of a paragraph holding one anchor.
pub open spec fn anchor_paragraph(text: Seq<char>, destination: Seq<char>) -> Seq<char> {
    seq!['<', 'p', '>'] + token::anchor_html(text, destination) + seq!['<', '/', 'p', '>']
}

proof fn lemma_anchor_paragraph_free(text: Seq<char>, destination: Seq<char>)
    requires
        free_of_markup_delimiters(text),
        free_of_markup_delimiters(destination),
    ensures
        free_of_markup_delimiters(anchor_paragraph(text, destination)),
{
    let target = if destination.len() == 0 {
        text
    } else {
        destination
    };
    let node = seq!['/', 'n', 'o', 'd', 'e', '/'];
    assert(free_of_markup_delimiters(node));
    lemma_free_concat(node, target);
    let r = token::resolved_destination(target);
    let a = seq!['<', 'a', ' ', 'h', 'r', 'e', 'f', '=', '"'];
    let b = seq!['"', '>'];
    let c = seq!['<', '/', 'a', '>'];
    let p = seq!['<', 'p', '>'];
    let q = seq!['<', '/', 'p', '>'];
    assert(free_of_markup_delimiters(a));
    assert(free_of_markup_delimiters(b));
    assert(free_of_markup_delimiters(c));
    assert(free_of_markup_delimiters(p));
    assert(free_of_markup_delimiters(q));
    lemma_free_concat(a, r);
    lemma_free_concat(a + r, b);
    lemma_free_concat(a + r + b, text);
    lemma_free_concat(a + r + b + text, c);
    lemma_free_concat(p, a + r + b + text + c);
    lemma_free_concat(p + (a + r + b + text + c), q);
    assert(anchor_paragraph(text, destination) =~= p + (a + r + b + text + c) + q);
}

/// The document of a text whose run ends in a paragraph, having emitted the
/// paragraph's opening and one anchor.
proof fn lemma_anchor_document(text: Seq<char>, ascii_ids: bool, st: StateView, a: Seq<char>, d: Seq<char>)
    requires
        final_state(text, ascii_ids) == st,
        st.block == BlockContext::Paragraph,
        st.inline == InlineContext::Outside,
        body_tokens(text, ascii_ids) == seq![
            TokenView::Paragraph { open: Some(true) },
            TokenView::Anchor { text: a, destination: Some(d) },
        ],
    ensures
        document(text, ascii_ids) == Ok::<Seq<char>, ParseError>(anchor_paragraph(a, d)),
{
    let ts = body_tokens(text, ascii_ids) + seq![TokenView::Paragraph { open: Some(false) }];
    assert(flush(st).1 + seq![TokenView::Paragraph { open: Some(false) }] =~= seq![
        TokenView::Paragraph { open: Some(false) },
    ]);
    assert(document_tokens(text, ascii_ids) == Ok::<Seq<TokenView>, ParseError>(ts));
    reveal_with_fuel(document_html, 4);
    assert(ts.drop_last().drop_last().drop_last() =~= Seq::<TokenView>::empty());
    assert(ts.drop_last().drop_last() =~= seq![TokenView::Paragraph { open: Some(true) }]);
    assert(document_html(ts) =~= anchor_paragraph(a, d));
}

/// A flanking anchor `|w||` alone in a paragraph links to its own text; all
/// three pipes are taken as markup and none is left in the HTML.
pub proof fn lemma_flanking_anchor_consumed(w: Seq<char>, ascii_ids: bool)
    requires
        is_plain_word(w),
    ensures
        document(seq!['|'] + w + seq!['|', '|'], ascii_ids) == Ok::<Seq<char>, ParseError>(
            anchor_paragraph(w, w),
        ),
        free_of_markup_delimiters(anchor_paragraph(w, w)),
{
    let p = seq!['|'];
    let e = Seq::<char>::empty();
    let text = p + w + seq!['|', '|'];
    lemma_plain_word_free(w);
    assert(segments(e).len() == 0);
    lemma_segments_delimiter(e, '|');
    assert(e.push('|') =~= p);
    lemma_segments_word(p, w);
    lemma_segments_delimiter(p + w, '|');
    lemma_segments_delimiter((p + w).push('|'), '|');
    assert((p + w).push('|').push('|') =~= text);
    let segs = segments(text);
    assert(segs =~= seq![p, w, p, p]);
    let lx = lexemes(segs);
    assert(lx[0] == (p, w));
    assert(lx[1] == (w, p));
    assert(lx[2] == (p, p));
    assert(lx[3] == (p, e));
    assert(!is_blank(p)) by {
        assert(!crate::text::is_space_char(p[0]));
    }
    assert(!is_hash_run(p));
    assert(is_blank(e));
    let s0 = initial_state();
    let r1 = step(lx, 0, s0, ascii_ids);
    assert(r1.1 =~= seq![TokenView::Paragraph { open: Some(true) }]);
    assert(r1.2 == 1);
    let r2 = step(lx, 1, r1.0, ascii_ids);
    assert(r2.0.candidate_text =~= w);
    assert(r2.1 =~= Seq::<TokenView>::empty());
    assert(r2.2 == 2);
    let r3 = step(lx, 2, r2.0, ascii_ids);
    assert(r3.1 =~= Seq::<TokenView>::empty());
    assert(r3.2 == 3);
    let r4 = step(lx, 3, r3.0, ascii_ids);
    assert(r4.1 =~= seq![TokenView::Anchor { text: w, destination: Some(w) }]);
    assert(r4.2 == 4);
    let acc1 = Seq::<TokenView>::empty() + r1.1;
    let acc2 = acc1 + r2.1;
    let acc3 = acc2 + r3.1;
    let acc4 = acc3 + r4.1;
    assert(run(lx, 4, r4.0, ascii_ids, acc4) == (r4.0, acc4));
    assert(run(lx, 3, r3.0, ascii_ids, acc3) == run(lx, 4, r4.0, ascii_ids, acc4));
    assert(run(lx, 2, r2.0, ascii_ids, acc2) == run(lx, 3, r3.0, ascii_ids, acc3));
    assert(run(lx, 1, r1.0, ascii_ids, acc1) == run(lx, 2, r2.0, ascii_ids, acc2));
    assert(run(lx, 0, s0, ascii_ids, Seq::empty()) == run(lx, 1, r1.0, ascii_ids, acc1));
    assert(acc4 =~= seq![
        TokenView::Paragraph { open: Some(true) },
        TokenView::Anchor { text: w, destination: Some(w) },
    ]);
    lemma_anchor_document(text, ascii_ids, r4.0, w, w);
    lemma_anchor_paragraph_free(w, w);
}

/// A leading anchor with an explicit destination, `|w|d|`, alone in a
/// paragraph, links to `d`; its pipes are taken as markup and none is left
/// in the HTML.
pub proof fn lemma_leading_anchor_consumed(w: Seq<char>, d: Seq<char>, ascii_ids: bool)
    requires
        is_plain_word(w),
        is_plain_word(d),
        !is_punctuation_char(d[0]),
    ensures
        document(seq!['|'] + w + seq!['|'] + d + seq!['|'], ascii_ids) == Ok::<
            Seq<char>,
            ParseError,
        >(anchor_paragraph(w, d)),
        free_of_markup_delimiters(anchor_paragraph(w, d)),
{
    let p = seq!['|'];
    let e = Seq::<char>::empty();
    let text = p + w + p + d + p;
    lemma_plain_word_free(w);
    lemma_plain_word_free(d);
    assert(segments(e).len() == 0);
    lemma_segments_delimiter(e, '|');
    assert(e.push('|') =~= p);
    lemma_segments_word(p, w);
    lemma_segments_delimiter(p + w, '|');
    assert((p + w).push('|') =~= p + w + p);
    lemma_segments_word(p + w + p, d);
    lemma_segments_delimiter(p + w + p + d, '|');
    assert((p + w + p + d).push('|') =~= text);
    let segs = segments(text);
    assert(segs =~= seq![p, w, p, d, p]);
    let lx = lexemes(segs);
    assert(lx[0] == (p, w));
    assert(lx[1] == (w, p));
    assert(lx[2] == (p, d));
    assert(lx[3] == (d, p));
    assert(lx[4] == (p, e));
    assert(!is_blank(p)) by {
        assert(!crate::text::is_space_char(p[0]));
    }
    assert(!is_hash_run(p));
    let s0 = initial_state();
    let r1 = step(lx, 0, s0, ascii_ids);
    assert(r1.1 =~= seq![TokenView::Paragraph { open: Some(true) }]);
    assert(r1.2 == 1);
    let r2 = step(lx, 1, r1.0, ascii_ids);
    assert(r2.0.candidate_text =~= w);
    assert(r2.1 =~= Seq::<TokenView>::empty());
    assert(r2.2 == 2);
    let r3 = step(lx, 2, r2.0, ascii_ids);
    assert(r3.1 =~= seq![TokenView::Anchor { text: w, destination: Some(d) }]);
    assert(after_explicit_destination(lx, 2) == 5);
    assert(r3.2 == 5);
    let acc1 = Seq::<TokenView>::empty() + r1.1;
    let acc2 = acc1 + r2.1;
    let acc3 = acc2 + r3.1;
    assert(run(lx, 5, r3.0, ascii_ids, acc3) == (r3.0, acc3));
    assert(run(lx, 2, r2.0, ascii_ids, acc2) == run(lx, 5, r3.0, ascii_ids, acc3));
    assert(run(lx, 1, r1.0, ascii_ids, acc1) == run(lx, 2, r2.0, ascii_ids, acc2));
    assert(run(lx, 0, s0, ascii_ids, Seq::empty()) == run(lx, 1, r1.0, ascii_ids, acc1));
    assert(acc3 =~= seq![
        TokenView::Paragraph { open: Some(true) },
        TokenView::Anchor { text: w, destination: Some(d) },
    ]);
    assert(seq!['|'] + w + seq!['|'] + d + seq!['|'] =~= text);
    lemma_anchor_document(text, ascii_ids, r3.0, w, d);
    lemma_anchor_paragraph_free(w, d);
}

/// An anchor that follows its word, `w|d|`, alone in a paragraph, links to
/// `d`; its pipes are taken as markup and none is left in the HTML.
pub proof fn lemma_nonleading_anchor_consumed(w: Seq<char>, d: Seq<char>, ascii_ids: bool)
    requires
        is_plain_word(w),
        is_plain_word(d),
        !is_hash_run(w),
    ensures
        document(w + seq!['|'] + d + seq!['|'], ascii_ids) == Ok::<Seq<char>, ParseError>(
            anchor_paragraph(w, d),
        ),
        free_of_markup_delimiters(anchor_paragraph(w, d)),
{
    let p = seq!['|'];
    let e = Seq::<char>::empty();
    let text = w + p + d + p;
    lemma_plain_word_free(w);
    lemma_plain_word_free(d);
    assert(segments(e).len() == 0);
    lemma_segments_word(e, w);
    assert(e + w =~= w);
    lemma_segments_delimiter(w, '|');
    assert(w.push('|') =~= w + p);
    lemma_segments_word(w + p, d);
    lemma_segments_delimiter(w + p + d, '|');
    assert((w + p + d).push('|') =~= text);
    let segs = segments(text);
    assert(segs =~= seq![w, p, d, p]);
    let lx = lexemes(segs);
    assert(lx[0] == (w, p));
    assert(lx[1] == (p, d));
    assert(lx[2] == (d, p));
    assert(lx[3] == (p, e));
    let s0 = initial_state();
    let r1 = step(lx, 0, s0, ascii_ids);
    assert(r1.1 =~= seq![TokenView::Paragraph { open: Some(true) }]);
    assert(r1.0.candidate_text == w);
    assert(r1.2 == 1);
    let r2 = step(lx, 1, r1.0, ascii_ids);
    assert(r2.1 =~= Seq::<TokenView>::empty());
    assert(r2.2 == 2);
    let r3 = step(lx, 2, r2.0, ascii_ids);
    assert(r3.1 =~= seq![TokenView::Anchor { text: w, destination: Some(d) }]);
    assert(r3.2 == 4);
    let acc1 = Seq::<TokenView>::empty() + r1.1;
    let acc2 = acc1 + r2.1;
    let acc3 = acc2 + r3.1;
    assert(run(lx, 4, r3.0, ascii_ids, acc3) == (r3.0, acc3));
    assert(run(lx, 2, r2.0, ascii_ids, acc2) == run(lx, 4, r3.0, ascii_ids, acc3));
    assert(run(lx, 1, r1.0, ascii_ids, acc1) == run(lx, 2, r2.0, ascii_ids, acc2));
    assert(run(lx, 0, s0, ascii_ids, Seq::empty()) == run(lx, 1, r1.0, ascii_ids, acc1));
    assert(acc3 =~= seq![
        TokenView::Paragraph { open: Some(true) },
        TokenView::Anchor { text: w, destination: Some(d) },
    ]);
    assert(w + seq!['|'] + d + seq!['|'] =~= text);
    lemma_anchor_document(text, ascii_ids, r3.0, w, d);
    lemma_anchor_paragraph_free(w, d);
}

} // verus!

verus! {

/// A text fails to parse exactly when it ends inside a header or a
/// preformatted block; stray pipes and backticks never make it fail.
pub proof fn lemma_fails_only_on_open_block(text: Seq<char>, ascii_ids: bool)
    ensures
        document(text, ascii_ids) is Err <==> (final_state(text, ascii_ids).block is Header
            || final_state(text, ascii_ids).block is PreFormat),
{
}

/// Opening an anchor starts from nothing: whatever an earlier anchor left in
/// the buffers, the new candidate and buffers depend on the opening lexeme
/// alone.
pub proof fn lemma_anchor_opens_clean(lx: Lexemes, i: int, a: StateView, b: StateView)
    requires
        0 <= i < lx.len(),
        a.inline == InlineContext::Outside,
        b.inline == InlineContext::Outside,
        !Code::probe_spec(lx[i].0, lx[i].1),
        Anchor::probe_spec(lx[i].0, lx[i].1),
    ensures
        ({
            let x = inline_phase(lx, i, a).0;
            let y = inline_phase(lx, i, b).0;
            &&& x.inline == InlineContext::Anchor
            &&& x.candidate_text == y.candidate_text
            &&& x.candidate_destination == y.candidate_destination
            &&& x.candidate_destination is None
            &&& x.leading == y.leading
            &&& x.text_buffer == y.text_buffer
            &&& x.text_buffer.len() == 0
            &&& x.destination_buffer == y.destination_buffer
            &&& x.destination_buffer.len() == 0
            &&& x.held == y.held
        }),
{
}

/// The run of the machine over five lexemes, one step each.
proof fn lemma_five_steps(lx: Lexemes, ascii_ids: bool)
    requires
        lx.len() == 5,
        step(lx, 0, initial_state(), ascii_ids).2 == 1,
        step(lx, 1, step(lx, 0, initial_state(), ascii_ids).0, ascii_ids).2 == 2,
        step(lx, 2, step(lx, 1, step(lx, 0, initial_state(), ascii_ids).0, ascii_ids).0, ascii_ids).2
            == 3,
        step(
            lx,
            3,
            step(lx, 2, step(lx, 1, step(lx, 0, initial_state(), ascii_ids).0, ascii_ids).0, ascii_ids).0,
            ascii_ids,
        ).2 == 4,
        step(
            lx,
            4,
            step(
                lx,
                3,
                step(lx, 2, step(lx, 1, step(lx, 0, initial_state(), ascii_ids).0, ascii_ids).0, ascii_ids).0,
                ascii_ids,
            ).0,
            ascii_ids,
        ).2 == 5,
    ensures
        ({
            let r0 = step(lx, 0, initial_state(), ascii_ids);
            let r1 = step(lx, 1, r0.0, ascii_ids);
            let r2 = step(lx, 2, r1.0, ascii_ids);
            let r3 = step(lx, 3, r2.0, ascii_ids);
            let r4 = step(lx, 4, r3.0, ascii_ids);
            run(lx, 0, initial_state(), ascii_ids, Seq::empty()) == (r4.0, Seq::<TokenView>::empty()
                + r0.1 + r1.1 + r2.1 + r3.1 + r4.1)
        }),
{
    let r0 = step(lx, 0, initial_state(), ascii_ids);
    let r1 = step(lx, 1, r0.0, ascii_ids);
    let r2 = step(lx, 2, r1.0, ascii_ids);
    let r3 = step(lx, 3, r2.0, ascii_ids);
    let r4 = step(lx, 4, r3.0, ascii_ids);
    let a0 = Seq::<TokenView>::empty();
    let a1 = a0 + r0.1;
    let a2 = a1 + r1.1;
    let a3 = a2 + r2.1;
    let a4 = a3 + r3.1;
    let a5 = a4 + r4.1;
    assert(run(lx, 5, r4.0, ascii_ids, a5) == (r4.0, a5));
    assert(run(lx, 4, r3.0, ascii_ids, a4) == run(lx, 5, r4.0, ascii_ids, a5));
    assert(run(lx, 3, r2.0, ascii_ids, a3) == run(lx, 4, r3.0, ascii_ids, a4));
    assert(run(lx, 2, r1.0, ascii_ids, a2) == run(lx, 3, r2.0, ascii_ids, a3));
    assert(run(lx, 1, r0.0, ascii_ids, a1) == run(lx, 2, r1.0, ascii_ids, a2));
    assert(run(lx, 0, initial_state(), ascii_ids, a0) == run(lx, 1, r0.0, ascii_ids, a1));
}

/// The segments of `w`, a space, a delimiter, a space and `v`.
proof fn lemma_spaced_segments(w: Seq<char>, d: char, v: Seq<char>)
    requires
        is_plain_word(w),
        is_plain_word(v),
        segment::is_delimiter(d),
    ensures
        segments(w + seq![' ', d, ' '] + v) == seq![w, seq![' '], seq![d], seq![' '], v],
{
    let e = Seq::<char>::empty();
    assert(segments(e).len() == 0);
    lemma_segments_word(e, w);
    assert(e + w =~= w);
    lemma_segments_delimiter(w, ' ');
    lemma_segments_delimiter(w.push(' '), d);
    lemma_segments_delimiter(w.push(' ').push(d), ' ');
    assert(w.push(' ').push(d).push(' ') =~= w + seq![' ', d, ' ']);
    lemma_segments_word(w + seq![' ', d, ' '], v);
    assert(segments(w + seq![' ', d, ' '] + v) =~= seq![w, seq![' '], seq![d], seq![' '], v]);
}

/// A stray pipe between two words is no anchor: it renders as literal text
/// with the words around it, and the parse does not fail.
pub proof fn lemma_stray_pipe_literal(w: Seq<char>, v: Seq<char>, ascii_ids: bool)
    requires
        is_plain_word(w),
        is_plain_word(v),
        !is_hash_run(w),
    ensures
        document(w + seq![' ', '|', ' '] + v, ascii_ids) == Ok::<Seq<char>, ParseError>(
            seq!['<', 'p', '>'] + w + seq![' ', '|', ' '] + v + seq!['<', '/', 'p', '>'],
        ),
{
    let text = w + seq![' ', '|', ' '] + v;
    lemma_plain_word_free(w);
    lemma_plain_word_free(v);
    lemma_spaced_segments(w, '|', v);
    let sp = seq![' '];
    let p = seq!['|'];
    let e = Seq::<char>::empty();
    let lx = lexemes(segments(text));
    assert(lx[0] == (w, sp));
    assert(lx[1] == (sp, p));
    assert(lx[2] == (p, sp));
    assert(lx[3] == (sp, v));
    assert(lx[4] == (v, e));
    assert(is_blank(sp)) by {
        assert(crate::text::is_space_char(sp[0]));
    }
    assert(is_blank(e));
    assert(sp != newline()) by {
        assert(sp[0] != newline()[0]);
    }
    assert(sp != p) by {
        assert(sp[0] != p[0]);
    }
    assert(p != newline()) by {
        assert(p[0] != newline()[0]);
    }
    assert(!is_blank(p)) by {
        assert(!crate::text::is_space_char(p[0]));
    }
    assert(!is_hash_run(p));
    let r0 = step(lx, 0, initial_state(), ascii_ids);
    assert(r0.1 =~= seq![TokenView::Paragraph { open: Some(true) }, TokenView::Literal { text: w }]);
    let r1 = step(lx, 1, r0.0, ascii_ids);
    assert(r1.1 =~= seq![TokenView::Literal { text: sp }]);
    let r2 = step(lx, 2, r1.0, ascii_ids);
    assert(r2.1 =~= Seq::<TokenView>::empty());
    assert(r2.0.held == p);
    let r3 = step(lx, 3, r2.0, ascii_ids);
    assert(r3.1 =~= Seq::<TokenView>::empty());
    assert(r3.0.candidate_text.len() == 0);
    let r4 = step(lx, 4, r3.0, ascii_ids);
    assert(r4.1 =~= Seq::<TokenView>::empty());
    assert(r4.0.held =~= p + sp + v);
    assert(r4.0.block == BlockContext::Paragraph);
    assert(r4.0.inline == InlineContext::Anchor);
    lemma_five_steps(lx, ascii_ids);
    let body = Seq::<TokenView>::empty() + r0.1 + r1.1 + r2.1 + r3.1 + r4.1;
    assert(body =~= seq![
        TokenView::Paragraph { open: Some(true) },
        TokenView::Literal { text: w },
        TokenView::Literal { text: sp },
    ]);
    let ts = body + (seq![TokenView::Literal { text: p + sp + v }] + seq![
        TokenView::Paragraph { open: Some(false) },
    ]);
    assert(document_tokens(text, ascii_ids) == Ok::<Seq<TokenView>, ParseError>(ts));
    reveal_with_fuel(document_html, 6);
    assert(ts =~= seq![
        TokenView::Paragraph { open: Some(true) },
        TokenView::Literal { text: w },
        TokenView::Literal { text: sp },
        TokenView::Literal { text: p + sp + v },
        TokenView::Paragraph { open: Some(false) },
    ]);
    assert(ts.drop_last().drop_last().drop_last().drop_last().drop_last() =~= Seq::<TokenView>::empty());
    assert(document_html(ts) =~= seq!['<', 'p', '>'] + w + seq![' ', '|', ' '] + v + seq![
        '<',
        '/',
        'p',
        '>',
    ]);
}

/// An unmatched backtick between two words opens no code span: it renders
/// as literal text with the words around it, and the parse does not fail.
pub proof fn lemma_unmatched_backtick_literal(w: Seq<char>, v: Seq<char>, ascii_ids: bool)
    requires
        is_plain_word(w),
        is_plain_word(v),
        !is_hash_run(w),
    ensures
        document(w + seq![' ', '`', ' '] + v, ascii_ids) == Ok::<Seq<char>, ParseError>(
            seq!['<', 'p', '>'] + w + seq![' ', '`', ' '] + v + seq!['<', '/', 'p', '>'],
        ),
{
    let text = w + seq![' ', '`', ' '] + v;
    lemma_plain_word_free(w);
    lemma_plain_word_free(v);
    lemma_spaced_segments(w, '`', v);
    let sp = seq![' '];
    let t = seq!['`'];
    let e = Seq::<char>::empty();
    let lx = lexemes(segments(text));
    assert(lx[0] == (w, sp));
    assert(lx[1] == (sp, t));
    assert(lx[2] == (t, sp));
    assert(lx[3] == (sp, v));
    assert(lx[4] == (v, e));
    assert(is_blank(sp)) by {
        assert(crate::text::is_space_char(sp[0]));
    }
    assert(sp != newline()) by {
        assert(sp[0] != newline()[0]);
    }
    assert(sp != t) by {
        assert(sp[0] != t[0]);
    }
    assert(sp != seq!['|']) by {
        assert(sp[0] != seq!['|'][0]);
    }
    assert(t != newline()) by {
        assert(t[0] != newline()[0]);
    }
    assert(v != t) by {
        assert(!segment::is_delimiter(v[0]));
    }
    assert(!is_blank(t)) by {
        assert(!crate::text::is_space_char(t[0]));
    }
    assert(!is_hash_run(t));
    let r0 = step(lx, 0, initial_state(), ascii_ids);
    assert(r0.1 =~= seq![TokenView::Paragraph { open: Some(true) }, TokenView::Literal { text: w }]);
    let r1 = step(lx, 1, r0.0, ascii_ids);
    assert(r1.1 =~= seq![TokenView::Literal { text: sp }]);
    let r2 = step(lx, 2, r1.0, ascii_ids);
    assert(r2.1 =~= Seq::<TokenView>::empty());
    assert(r2.0.held =~= e);
    let r3 = step(lx, 3, r2.0, ascii_ids);
    assert(r3.1 =~= Seq::<TokenView>::empty());
    let r4 = step(lx, 4, r3.0, ascii_ids);
    assert(r4.1 =~= Seq::<TokenView>::empty());
    assert(r4.0.held =~= e + sp + v);
    assert(r4.0.block == BlockContext::Paragraph);
    assert(r4.0.inline == InlineContext::Code);
    lemma_five_steps(lx, ascii_ids);
    let body = Seq::<TokenView>::empty() + r0.1 + r1.1 + r2.1 + r3.1 + r4.1;
    assert(body =~= seq![
        TokenView::Paragraph { open: Some(true) },
        TokenView::Literal { text: w },
        TokenView::Literal { text: sp },
    ]);
    let ts = body + (seq![TokenView::Literal { text: t + (e + sp + v) }] + seq![
        TokenView::Paragraph { open: Some(false) },
    ]);
    assert(document_tokens(text, ascii_ids) == Ok::<Seq<TokenView>, ParseError>(ts));
    reveal_with_fuel(document_html, 6);
    assert(ts =~= seq![
        TokenView::Paragraph { open: Some(true) },
        TokenView::Literal { text: w },
        TokenView::Literal { text: sp },
        TokenView::Literal { text: t + (e + sp + v) },
        TokenView::Paragraph { open: Some(false) },
    ]);
    assert(ts.drop_last().drop_last().drop_last().drop_last().drop_last() =~= Seq::<TokenView>::empty());
    assert(document_html(ts) =~= seq!['<', 'p', '>'] + w + seq![' ', '`', ' '] + v + seq![
        '<',
        '/',
        'p',
        '>',
    ]);
}

} // verus!

verus! {

/// The HTML of a document is the HTML of its parts, one after another.
proof fn lemma_document_html_concat(a: Seq<TokenView>, b: Seq<TokenView>)
    ensures
        document_html(a + b) == document_html(a) + document_html(b),
    decreases b.len(),
{
    if b.len() == 0 {
        assert(a + b =~= a);
        assert(document_html(a) + document_html(b) =~= document_html(a));
    } else {
        lemma_document_html_concat(a, b.drop_last());
        assert((a + b).drop_last() =~= a + b.drop_last());
        assert((a + b).last() == b.last());
        assert(document_html(a + b) =~= document_html(a) + document_html(b));
    }
}

/// The tokens of a header line `# w` with identifier `id`, and its line break.
pub open spec fn header_line_tokens(w: Seq<char>, id: Seq<char>) -> Seq<TokenView> {
    seq![
        TokenView::Header { level: 1, open: Some(true), id: Some(id) },
        TokenView::Literal { text: seq![' '] },
        TokenView::Literal { text: w },
        TokenView::Header { level: 1, open: Some(false), id: None },
        TokenView::LineBreak,
    ]
}

/// The HTML of a header line `# w` with identifier `id`, and its line break.
pub open spec fn header_line_html(w: Seq<char>, id: Seq<char>) -> Seq<char> {
    seq!['<', 'h', '1', ' ', 'i', 'd', '=', '"'] + id + seq!['"', '>', ' '] + w + seq![
        '<',
        '/',
        'h',
        '1',
        '>',
        '\n',
    ]
}

proof fn lemma_header_line_html(w: Seq<char>, id: Seq<char>)
    ensures
        document_html(header_line_tokens(w, id)) == header_line_html(w, id),
{
    reveal_with_fuel(document_html, 6);
    let ts = header_line_tokens(w, id);
    assert(ts.drop_last().drop_last().drop_last().drop_last().drop_last() =~= Seq::<TokenView>::empty());
    assert(crate::text::decimal(1) =~= seq!['1']);
    assert(document_html(ts) =~= header_line_html(w, id));
}

/// Four lexemes `#`, space, `w`, line break, read outside any block, give
/// one header line and issue one identifier for `w`.
proof fn lemma_header_line_run(
    lx: Lexemes,
    k: int,
    st: StateView,
    ascii_ids: bool,
    acc: Seq<TokenView>,
    w: Seq<char>,
)
    requires
        0 <= k,
        k + 4 <= lx.len(),
        is_plain_word(w),
        lx[k] == (seq!['#'], seq![' ']),
        lx[k + 1] == (seq![' '], w),
        lx[k + 2] == (w, newline()),
        lx[k + 3].0 == newline(),
        st.block == BlockContext::Outside,
        st.inline == InlineContext::Outside,
    ensures
        ({
            let issued = issue_id(st.ids, id_base(ascii_ids, w));
            run(lx, k, st, ascii_ids, acc) == run(
                lx,
                k + 4,
                StateView { ids: issued.0, ..st },
                ascii_ids,
                acc + header_line_tokens(w, issued.1),
            )
        }),
{
    lemma_plain_word_free(w);
    let hash = seq!['#'];
    let sp = seq![' '];
    let issued = issue_id(st.ids, id_base(ascii_ids, w));
    assert(is_hash_run(hash));
    assert(!starts_with(hash, '`'));
    assert(is_blank(sp)) by {
        assert(crate::text::is_space_char(sp[0]));
    }
    assert(is_blank(newline())) by {
        assert(crate::text::is_space_char(newline()[0]));
    }
    assert(sp != newline()) by {
        assert(sp[0] != newline()[0]);
    }
    assert(sp != seq!['|']) by {
        assert(sp[0] != seq!['|'][0]);
    }
    assert(newline() != seq!['|']) by {
        assert(newline()[0] != seq!['|'][0]);
    }
    assert(newline() != seq!['`']) by {
        assert(newline()[0] != seq!['`'][0]);
    }
    assert(sp != seq!['`']) by {
        assert(sp[0] != seq!['`'][0]);
    }
    assert(hash != newline()) by {
        assert(hash[0] != newline()[0]);
    }
    assert(clamped_level(hash.len()) == 1);
    let r0 = step(lx, k, st, ascii_ids);
    assert(r0.1 =~= seq![TokenView::Header { level: 1, open: Some(true), id: Some(issued.1) }]);
    assert(r0.2 == k + 1);
    let r1 = step(lx, k + 1, r0.0, ascii_ids);
    assert(r1.1 =~= seq![TokenView::Literal { text: sp }]);
    assert(r1.2 == k + 2);
    let r2 = step(lx, k + 2, r1.0, ascii_ids);
    assert(r2.1 =~= seq![TokenView::Literal { text: w }]);
    assert(r2.2 == k + 3);
    let r3 = step(lx, k + 3, r2.0, ascii_ids);
    assert(r3.1 =~= seq![TokenView::Header { level: 1, open: Some(false), id: None }, TokenView::LineBreak]);
    assert(r3.2 == k + 4);
    assert(r3.0 == StateView { ids: issued.0, ..st });
    let a1 = acc + r0.1;
    let a2 = a1 + r1.1;
    let a3 = a2 + r2.1;
    let a4 = a3 + r3.1;
    assert(run(lx, k + 3, r2.0, ascii_ids, a3) == run(lx, k + 4, r3.0, ascii_ids, a4));
    assert(run(lx, k + 2, r1.0, ascii_ids, a2) == run(lx, k + 3, r2.0, ascii_ids, a3));
    assert(run(lx, k + 1, r0.0, ascii_ids, a1) == run(lx, k + 2, r1.0, ascii_ids, a2));
    assert(run(lx, k, st, ascii_ids, acc) == run(lx, k + 1, r0.0, ascii_ids, a1));
    assert(a4 =~= acc + header_line_tokens(w, issued.1));
}

} // verus!

verus! {

/// The text of a header line `# w`, with its line break.
pub open spec fn header_line(w: Seq<char>) -> Seq<char> {
    seq!['#', ' '] + w + seq!['\n']
}

proof fn lemma_header_line_segments(s: Seq<char>, w: Seq<char>)
    requires
        is_plain_word(w),
        s.len() == 0 || segment::is_delimiter(s.last()),
    ensures
        segments(s + header_line(w)) == segments(s) + seq![seq!['#'], seq![' '], w, newline()],
{
    let hash = seq!['#'];
    assert(is_plain_word(hash));
    lemma_segments_word(s, hash);
    lemma_segments_delimiter(s + hash, ' ');
    assert((s + hash).push(' ') =~= s + seq!['#', ' ']);
    lemma_segments_word(s + seq!['#', ' '], w);
    lemma_segments_delimiter(s + seq!['#', ' '] + w, '\n');
    assert((s + seq!['#', ' '] + w).push('\n') =~= s + header_line(w));
    assert(segments(s + header_line(w)) =~= segments(s) + seq![seq!['#'], seq![' '], w, newline()]);
}

/// Three headers with the same title word get the identifiers `b`, `b-1`
/// and `b-2` in order, where `b` is the word (or `h`, where identifiers must
/// be ASCII and the word is not).
pub proof fn lemma_repeated_headers_deduplicated(w: Seq<char>, ascii_ids: bool)
    requires
        is_plain_word(w),
    ensures
        ({
            let b = id_base(ascii_ids, w);
            document(header_line(w) + header_line(w) + header_line(w), ascii_ids) == Ok::<
                Seq<char>,
                ParseError,
            >(
                header_line_html(w, b) + header_line_html(w, b + seq!['-', '1']) + header_line_html(
                    w,
                    b + seq!['-', '2'],
                ),
            )
        }),
{
    let l = header_line(w);
    let text = l + l + l;
    let e = Seq::<char>::empty();
    let unit = seq![seq!['#'], seq![' '], w, newline()];
    assert(segments(e).len() == 0);
    lemma_header_line_segments(e, w);
    assert(e + l =~= l);
    assert(l.last() == '\n');
    lemma_header_line_segments(l, w);
    assert((l + l).last() == '\n');
    lemma_header_line_segments(l + l, w);
    let segs = segments(text);
    assert(segs =~= unit + unit + unit);
    let lx = lexemes(segs);
    assert(lx.len() == 12);
    assert forall|k: int| k == 0 || k == 4 || k == 8 implies #[trigger] lx[k] == (seq!['#'], seq![' '])
        && lx[k + 1] == (seq![' '], w) && lx[k + 2] == (w, newline()) && lx[k + 3].0 == newline() by {
        assert(segs[k] == seq!['#']);
        assert(segs[k + 1] == seq![' ']);
        assert(segs[k + 2] == w);
        assert(segs[k + 3] == newline());
    }
    let b = id_base(ascii_ids, w);
    let s0 = initial_state();
    let t0 = s0.ids;
    lemma_ids_deduplicated(t0, b);
    let i1 = issue_id(t0, b);
    let i2 = issue_id(i1.0, b);
    let i3 = issue_id(i2.0, b);
    let s1 = StateView { ids: i1.0, ..s0 };
    let s2 = StateView { ids: i2.0, ..s1 };
    let s3 = StateView { ids: i3.0, ..s2 };
    let acc1 = Seq::<TokenView>::empty() + header_line_tokens(w, i1.1);
    let acc2 = acc1 + header_line_tokens(w, i2.1);
    let acc3 = acc2 + header_line_tokens(w, i3.1);
    lemma_header_line_run(lx, 0, s0, ascii_ids, Seq::empty(), w);
    lemma_header_line_run(lx, 4, s1, ascii_ids, acc1, w);
    lemma_header_line_run(lx, 8, s2, ascii_ids, acc2, w);
    assert(run(lx, 12, s3, ascii_ids, acc3) == (s3, acc3));
    assert(final_state(text, ascii_ids) == s3);
    assert(flush(s3).1 =~= Seq::<TokenView>::empty());
    assert(document_tokens(text, ascii_ids) == Ok::<Seq<TokenView>, ParseError>(
        acc3 + Seq::<TokenView>::empty(),
    ));
    assert(acc3 + Seq::<TokenView>::empty() =~= header_line_tokens(w, i1.1) + header_line_tokens(
        w,
        i2.1,
    ) + header_line_tokens(w, i3.1));
    lemma_document_html_concat(header_line_tokens(w, i1.1), header_line_tokens(w, i2.1));
    lemma_document_html_concat(
        header_line_tokens(w, i1.1) + header_line_tokens(w, i2.1),
        header_line_tokens(w, i3.1),
    );
    lemma_header_line_html(w, i1.1);
    lemma_header_line_html(w, i2.1);
    lemma_header_line_html(w, i3.1);
}

} // verus!
