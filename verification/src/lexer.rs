use crate::error::{TokenizeError, TokenizeErrorKind};
use crate::indent_stack::{
    lemma_adjust_refuses_unmatched_width, spec_adjust, spec_layout_tokens, stack_wf, IndentChange,
    IndentStack,
};
use crate::interner::{Interner, InternerView};
use crate::line_tokenizer::{
    has_atom, measure_indent, spec_has_atom, spec_indent_width, spec_line_tokens, spec_unit_token,
    tokenize_units,
};
use crate::token::Token;
use crate::unit::{line_shape, Line, UnitView};
use std::collections::VecDeque;
use vstd::prelude::*;

verus! {

/// The columns that a tab takes where nothing else is asked for.
pub const DEFAULT_TAB_WIDTH: u32 = 4;

/// Where a lexer stands between two calls of `next`.
#[derive(Debug, Clone, Copy, PartialEq, Eq, Structural)]
pub enum LexerState {
    /// No token is waiting and the next line has not been read.
    BetweenLines,
    /// The next token is a block marker of the line just read.
    DrainingBuffer,
    /// The next token belongs to the content of the line just read.
    WithinLine,
    /// The end of the input was read; its tokens are waiting.
    AtEndOfInput,
    /// The end-of-input token was handed out. Nothing follows.
    Done,
    /// A line was refused. Nothing follows but that failure.
    Failed,
}

/// What one line does to a lexer: the stack and the interner after it, and
/// the tokens of the line or the failure that it raised.
pub struct LineStep {
    pub stack: Seq<u64>,
    pub pool: InternerView,
    pub result: Result<Seq<Token>, TokenizeError>,
}

/// The step for one line. A line without an atom gives one `Newline` and
/// leaves the stack alone. Any other line is first held against the stack,
/// which gives its block markers or refuses it; then come the tokens of its
/// units. A refusal by the stack is reported at the first unit of the line,
/// and nothing of the line is read then. The indentation of a line fits 64
/// bits: see `lemma_indent_width_bound`.
pub open spec fn spec_line_step(
    stack: Seq<u64>,
    units: Seq<UnitView>,
    tab_width: u32,
    pool: InternerView,
) -> LineStep {
    if !spec_has_atom(units) {
        LineStep { stack, pool, result: Ok(seq![Token::Newline]) }
    } else {
        match spec_adjust(stack, spec_indent_width(units, tab_width) as u64) {
            None => LineStep {
                stack,
                pool,
                result: Err(
                    TokenizeError {
                        kind: TokenizeErrorKind::IndentationError,
                        span: units[0].span,
                    },
                ),
            },
            Some(after) => LineStep {
                stack: after,
                pool: spec_line_tokens(units, pool).0,
                result: match spec_line_tokens(units, pool).1 {
                    Ok(ts) => Ok(spec_layout_tokens(stack, after) + ts),
                    Err(e) => Err(e),
                },
            },
        }
    }
}

/// The tokens for the end of the input: one `Dedent` for each level that is
/// still open above the root, then `EndOfInput`.
pub open spec fn spec_closing_tokens(stack: Seq<u64>) -> Seq<Token> {
    Seq::new((stack.len() - 1) as nat, |i: int| Token::Dedent).push(Token::EndOfInput)
}

/// What tokenizing comes to: the tokens handed out, in order; the failure
/// that ended them, if one did; and the interner afterwards.
pub struct Outcome {
    pub tokens: Seq<Token>,
    pub failure: Option<TokenizeError>,
    pub pool: InternerView,
}

impl Outcome {
    /// The outcome with `tokens` put before its own.
    pub open spec fn after(self, tokens: Seq<Token>) -> Outcome {
        Outcome { tokens: tokens + self.tokens, ..self }
    }
}

/// The outcome of tokenizing `lines` with the open levels `stack`: the
/// tokens of each line in turn, up to the first line that is refused, and
/// behind the last line the closing tokens.
pub open spec fn spec_tokenize_from(
    lines: Seq<Seq<UnitView>>,
    stack: Seq<u64>,
    tab_width: u32,
    pool: InternerView,
) -> Outcome
    decreases lines.len(),
{
    if lines.len() == 0 {
        Outcome { tokens: spec_closing_tokens(stack), failure: None, pool }
    } else {
        let step = spec_line_step(stack, lines[0], tab_width, pool);
        match step.result {
            Err(e) => Outcome { tokens: Seq::empty(), failure: Some(e), pool: step.pool },
            Ok(ts) => spec_tokenize_from(lines.drop_first(), step.stack, tab_width, step.pool).after(
                ts,
            ),
        }
    }
}

/// The outcome of tokenizing a whole source.
pub open spec fn spec_tokenize(
    lines: Seq<Seq<UnitView>>,
    tab_width: u32,
    pool: InternerView,
) -> Outcome {
    spec_tokenize_from(lines, seq![0u64], tab_width, pool)
}

/// The mathematical value of a lexer.
pub struct LexerView {
    /// The lines of the source.
    pub lines: Seq<Seq<UnitView>>,
    /// The number of lines read so far.
    pub pos: nat,
    /// The open indentation levels.
    pub stack: Seq<u64>,
    /// The tokens computed and not yet handed out, oldest first.
    pub queue: Seq<Token>,
    pub tab_width: u32,
    /// Whether the end of the input was read.
    pub end_reached: bool,
    /// The failure that stopped the lexer, if one did.
    pub failure: Option<TokenizeError>,
}

impl LexerView {
    /// The lexer for `lines` before its first step.
    pub open spec fn initial(lines: Seq<Seq<UnitView>>, tab_width: u32) -> LexerView {
        LexerView {
            lines,
            pos: 0,
            stack: seq![0u64],
            queue: Seq::empty(),
            tab_width,
            end_reached: false,
            failure: None,
        }
    }

    pub open spec fn wf(self) -> bool {
        &&& self.pos <= self.lines.len()
        &&& stack_wf(self.stack)
        &&& self.end_reached ==> self.pos == self.lines.len() && self.stack == seq![0u64]
        &&& self.failure is Some ==> self.queue.len() == 0 && !self.end_reached
    }

    /// Whether the line that the next step may read has the shape of a
    /// line. Every line of a lexer has it.
    pub open spec fn next_line_shaped(self) -> bool {
        self.pos < self.lines.len() ==> line_shape(self.lines[self.pos as int])
    }

    pub open spec fn state(self) -> LexerState {
        if self.failure is Some {
            LexerState::Failed
        } else if self.end_reached {
            if self.queue.len() == 0 {
                LexerState::Done
            } else {
                LexerState::AtEndOfInput
            }
        } else if self.queue.len() == 0 {
            LexerState::BetweenLines
        } else if self.queue[0] is Indent || self.queue[0] is Dedent {
            LexerState::DrainingBuffer
        } else {
            LexerState::WithinLine
        }
    }

    /// What is still to come from this lexer: the waiting tokens, then the
    /// outcome of the lines not yet read.
    pub open spec fn rest(self, pool: InternerView) -> Outcome {
        if self.failure is Some {
            Outcome { tokens: Seq::empty(), failure: self.failure, pool }
        } else if self.end_reached {
            Outcome { tokens: self.queue, failure: None, pool }
        } else {
            spec_tokenize_from(
                self.lines.skip(self.pos as int),
                self.stack,
                self.tab_width,
                pool,
            ).after(self.queue)
        }
    }

    /// One step of the lexer. A failed lexer repeats its failure. A waiting
    /// token is handed out. Else the next line is read, or the end of the
    /// input, and the first of the tokens that this gives is handed out. A
    /// line that is refused gives no token at all. After the end-of-input
    /// token there is nothing.
    pub open spec fn next(self, pool: InternerView) -> (
        LexerView,
        InternerView,
        Result<Option<Token>, TokenizeError>,
    ) {
        if self.failure is Some {
            (self, pool, Err(self.failure->0))
        } else if self.queue.len() > 0 {
            (LexerView { queue: self.queue.drop_first(), ..self }, pool, Ok(Some(self.queue[0])))
        } else if self.end_reached {
            (self, pool, Ok(None))
        } else if self.pos < self.lines.len() {
            let step = spec_line_step(
                self.stack,
                self.lines[self.pos as int],
                self.tab_width,
                pool,
            );
            match step.result {
                Err(e) => (
                    LexerView { stack: step.stack, failure: Some(e), ..self },
                    step.pool,
                    Err(e),
                ),
                Ok(ts) => (
                    LexerView {
                        stack: step.stack,
                        pos: self.pos + 1,
                        queue: ts.drop_first(),
                        ..self
                    },
                    step.pool,
                    Ok(Some(ts[0])),
                ),
            }
        } else {
            (
                LexerView {
                    stack: seq![0u64],
                    queue: spec_closing_tokens(self.stack).drop_first(),
                    end_reached: true,
                    ..self
                },
                pool,
                Ok(Some(spec_closing_tokens(self.stack)[0])),
            )
        }
    }
}

/// Appends `count` times `Dedent` to `queue`.
fn push_dedents(queue: &mut VecDeque<Token>, count: usize)
    ensures
        final(queue)@ == old(queue)@ + Seq::new(count as nat, |i: int| Token::Dedent),
{
    let ghost start = queue@;
    let mut c: usize = 0;
    assert(queue@ =~= start + Seq::new(0nat, |i: int| Token::Dedent));
    while c < count
        invariant
            c <= count,
            queue@ == start + Seq::new(c as nat, |i: int| Token::Dedent),
        decreases count - c,
    {
        queue.push_back(Token::Dedent);
        c += 1;
        assert(queue@ =~= start + Seq::new(c as nat, |i: int| Token::Dedent));
    }
}

/// Appends `tokens` to `queue`.
fn push_all(queue: &mut VecDeque<Token>, tokens: &Vec<Token>)
    ensures
        final(queue)@ == old(queue)@ + tokens@,
{
    let ghost start = queue@;
    let m = tokens.len();
    let mut j: usize = 0;
    assert(queue@ =~= start + tokens@.take(0));
    while j < m
        invariant
            j <= m,
            m == tokens.len(),
            queue@ == start + tokens@.take(j as int),
        decreases m - j,
    {
        queue.push_back(tokens[j]);
        j += 1;
        assert(queue@ =~= start + tokens@.take(j as int));
    }
    assert(tokens@.take(m as int) =~= tokens@);
}

/// The end of the input for the open levels: every level above the root is
/// closed, and one `Dedent` for each goes into `queue`, behind the tokens
/// that wait there.
pub fn handle_eoi(stack: &mut IndentStack, queue: &mut VecDeque<Token>)
    requires
        old(stack).wf(),
    ensures
        final(stack).wf(),
        final(stack)@ == seq![0u64],
        final(queue)@ == old(queue)@ + Seq::new(
            (old(stack)@.len() - 1) as nat,
            |i: int| Token::Dedent,
        ),
{
    let closed = stack.close_all();
    push_dedents(queue, closed);
}

/// The values of a sequence of lines.
pub open spec fn line_views(lines: Seq<Line>) -> Seq<Seq<UnitView>> {
    lines.map_values(|l: Line| l@)
}

/// The state machine that turns the lines of one source into its tokens,
/// with the markers of block structure among them.
pub struct Lexer {
    lines: Vec<Line>,
    pos: usize,
    stack: IndentStack,
    queue: VecDeque<Token>,
    tab_width: u32,
    end_reached: bool,
    failure: Option<TokenizeError>,
}

impl View for Lexer {
    type V = LexerView;

    closed spec fn view(&self) -> LexerView {
        LexerView {
            lines: line_views(self.lines@),
            pos: self.pos as nat,
            stack: self.stack@,
            queue: self.queue@,
            tab_width: self.tab_width,
            end_reached: self.end_reached,
            failure: self.failure,
        }
    }
}

impl Lexer {
    /// Every lexer made by `new` and changed only through its methods is well formed.
    pub open spec fn wf(&self) -> bool {
        self@.wf()
    }

    /// A lexer at the start of `lines`, with the indentation stack at its root.
    pub fn new(lines: Vec<Line>, tab_width: u32) -> (r: Self)
        ensures
            r.wf(),
            r@ == LexerView::initial(line_views(lines@), tab_width),
    {
        let r = Lexer {
            lines,
            pos: 0,
            stack: IndentStack::new(),
            queue: VecDeque::new(),
            tab_width,
            end_reached: false,
            failure: None,
        };
        assert(r@.queue =~= Seq::<Token>::empty());
        r
    }

    /// The state of the machine.
    pub fn state(&self) -> (r: LexerState)
        requires
            self.wf(),
        ensures
            r == self@.state(),
    {
        if self.failure.is_some() {
            LexerState::Failed
        } else if self.end_reached {
            if self.queue.len() == 0 {
                LexerState::Done
            } else {
                LexerState::AtEndOfInput
            }
        } else if self.queue.len() == 0 {
            LexerState::BetweenLines
        } else {
            match self.queue[0] {
                Token::Indent => LexerState::DrainingBuffer,
                Token::Dedent => LexerState::DrainingBuffer,
                _ => LexerState::WithinLine,
            }
        }
    }

    /// Hands out the next token of the source: the first token of what was
    /// still to come. When no token is left, it reports the failure that
    /// ended them, or that nothing follows.
    pub fn next(&mut self, interner: &mut Interner) -> (r: Result<Option<Token>, TokenizeError>)
        requires
            old(self).wf(),
            old(interner).wf(),
        ensures
            final(self).wf(),
            final(interner).wf(),
            (final(self)@, final(interner)@, r) == old(self)@.next(old(interner)@),
            ({
                let before = old(self)@.rest(old(interner)@);
                let after = final(self)@.rest(final(interner)@);
                &&& after.pool == before.pool
                &&& after.failure == before.failure
                &&& before.tokens.len() > 0 ==> r == Ok::<Option<Token>, TokenizeError>(
                    Some(before.tokens[0]),
                ) && after.tokens == before.tokens.drop_first()
                &&& before.tokens.len() == 0 ==> after.tokens.len() == 0 && r == match before.failure {
                    Some(e) => Err::<Option<Token>, TokenizeError>(e),
                    None => Ok(None),
                }
            }),
    {
        if self.pos < self.lines.len() {
            // Reading the length of a line recalls its shape.
            let _ = self.lines[self.pos].len();
        }
        proof {
            lemma_next_follows_rest(self@, interner@);
        }
        if let Some(e) = self.failure {
            return Err(e);
        }
        if self.queue.len() > 0 {
            let t = self.queue.pop_front();
            return Ok(t);
        }
        if self.end_reached {
            return Ok(None);
        }
        if self.pos < self.lines.len() {
            let line = &self.lines[self.pos];
            let ghost units = line@;
            assert(units == self@.lines[self.pos as int]);
            if !has_atom(line) {
                self.pos = self.pos + 1;
                assert(seq![Token::Newline].drop_first() =~= self.queue@);
                return Ok(Some(Token::Newline));
            }
            let width = measure_indent(line, 0, self.tab_width);
            assert(units.skip(0) =~= units);
            let ghost before = self.stack@;
            match self.stack.adjust(width) {
                None => {
                    let e = TokenizeError {
                        kind: TokenizeErrorKind::IndentationError,
                        span: line.unit(0).span(),
                    };
                    self.failure = Some(e);
                    Err(e)
                },
                Some(change) => {
                    match tokenize_units(line, 0, interner) {
                        Err(e) => {
                            self.failure = Some(e);
                            proof {
                                lemma_adjust_refuses_unmatched_width(before, width);
                            }
                            Err(e)
                        },
                        Ok(tokens) => {
                            proof {
                                lemma_adjust_refuses_unmatched_width(before, width);
                            }
                            assert(self.queue@ =~= Seq::<Token>::empty());
                            match change {
                                IndentChange::Unchanged => {
                                    assert(self.queue@ =~= spec_layout_tokens(before, self.stack@));
                                },
                                IndentChange::Indent => {
                                    self.queue.push_back(Token::Indent);
                                    assert(self.queue@ =~= spec_layout_tokens(before, self.stack@));
                                },
                                IndentChange::Dedent(count) => {
                                    push_dedents(&mut self.queue, count);
                                    assert(self.queue@ =~= spec_layout_tokens(before, self.stack@));
                                },
                            }
                            push_all(&mut self.queue, &tokens);
                            self.pos = self.pos + 1;
                            let t = self.queue.pop_front();
                            Ok(t)
                        },
                    }
                },
            }
        } else {
            let ghost before = self.stack@;
            handle_eoi(&mut self.stack, &mut self.queue);
            self.queue.push_back(Token::EndOfInput);
            assert(self.queue@ =~= spec_closing_tokens(before));
            self.end_reached = true;
            let t = self.queue.pop_front();
            Ok(t)
        }
    }
}

/// Units without a line terminator among them give no `Newline`.
proof fn lemma_no_terminator_no_newline(units: Seq<UnitView>, pool: InternerView)
    requires
        forall|i: int| 0 <= i < units.len() ==> !((#[trigger] units[i]).kind is Newline),
    ensures
        spec_line_tokens(units, pool).1 matches Ok(ts) ==> forall|i: int|
            0 <= i < ts.len() ==> #[trigger] ts[i] != Token::Newline,
    decreases units.len(),
{
    if units.len() > 0 {
        lemma_no_terminator_no_newline(units.drop_last(), pool);
        assert(!(units[units.len() - 1].kind is Newline));
    }
}

/// A line that is accepted gives exactly one `Newline`, as its last token,
/// and leaves a stack that is well formed.
pub proof fn lemma_line_step_gives_tokens(
    stack: Seq<u64>,
    units: Seq<UnitView>,
    tab_width: u32,
    pool: InternerView,
)
    requires
        stack_wf(stack),
        line_shape(units),
    ensures
        stack_wf(spec_line_step(stack, units, tab_width, pool).stack),
        spec_line_step(stack, units, tab_width, pool).result matches Ok(ts) ==> ts.len() > 0
            && ts.last() == Token::Newline && count_token(ts, Token::Newline) == 1,
{
    if spec_has_atom(units) {
        let width = spec_indent_width(units, tab_width) as u64;
        lemma_adjust_refuses_unmatched_width(stack, width);
        if spec_adjust(stack, width) is Some && spec_line_tokens(units, pool).1 is Ok {
            let after = spec_adjust(stack, width)->0;
            let layout = spec_layout_tokens(stack, after);
            let front = spec_line_tokens(units.drop_last(), pool).1->Ok_0;
            assert(units.last().kind is Newline);
            lemma_no_terminator_no_newline(units.drop_last(), pool);
            lemma_count_absent(front, Token::Newline);
            assert(front.push(Token::Newline).drop_last() =~= front);
            if after.len() > stack.len() {
                assert(layout.drop_last() =~= Seq::<Token>::empty());
                reveal_with_fuel(count_token, 2);
            } else {
                let closed = (stack.len() - after.len()) as nat;
                lemma_count_repeat(closed, Token::Dedent, Token::Newline);
            }
            lemma_count_concat(layout, front.push(Token::Newline), Token::Newline);
        }
    } else {
        assert(seq![Token::Newline].drop_last() =~= Seq::<Token>::empty());
        reveal_with_fuel(count_token, 2);
    }
}

/// Each step of a lexer hands out the first token of what is still to
/// come and leaves the rest; when no token is left it reports the failure
/// that ended them, or that nothing follows. What the whole comes to does not
/// change on the way.
pub proof fn lemma_next_follows_rest(v: LexerView, pool: InternerView)
    requires
        v.wf(),
        v.next_line_shaped(),
    ensures
        ({
            let (v2, pool2, r) = v.next(pool);
            let before = v.rest(pool);
            let after = v2.rest(pool2);
            &&& v2.wf()
            &&& after.pool == before.pool
            &&& after.failure == before.failure
            &&& before.tokens.len() > 0 ==> r == Ok::<Option<Token>, TokenizeError>(
                Some(before.tokens[0]),
            ) && after.tokens == before.tokens.drop_first()
            &&& before.tokens.len() == 0 ==> after.tokens.len() == 0 && pool2 == before.pool && r
                == match before.failure {
                Some(e) => Err::<Option<Token>, TokenizeError>(e),
                None => Ok(None),
            }
        }),
{
    let (v2, pool2, r) = v.next(pool);
    let before = v.rest(pool);
    let after = v2.rest(pool2);
    if v.failure is Some {
    } else if v.queue.len() > 0 {
        if !v.end_reached {
            let tail = spec_tokenize_from(v.lines.skip(v.pos as int), v.stack, v.tab_width, pool);
            assert((v.queue + tail.tokens).drop_first() =~= v.queue.drop_first() + tail.tokens);
        }
    } else if v.end_reached {
    } else if v.pos < v.lines.len() {
        let lines = v.lines.skip(v.pos as int);
        assert(lines[0] == v.lines[v.pos as int]);
        assert(lines.drop_first() =~= v.lines.skip(v.pos as int + 1));
        let step = spec_line_step(v.stack, v.lines[v.pos as int], v.tab_width, pool);
        lemma_line_step_gives_tokens(v.stack, v.lines[v.pos as int], v.tab_width, pool);
        match step.result {
            Err(e) => {
                assert(before.tokens =~= Seq::<Token>::empty());
            },
            Ok(ts) => {
                let tail = spec_tokenize_from(
                    lines.drop_first(),
                    step.stack,
                    v.tab_width,
                    step.pool,
                );
                assert(before.tokens =~= ts + tail.tokens);
                assert(after.tokens =~= ts.drop_first() + tail.tokens);
                assert((ts + tail.tokens).drop_first() =~= ts.drop_first() + tail.tokens);
            },
        }
    } else {
        assert(v.lines.skip(v.pos as int) =~= Seq::<Seq<UnitView>>::empty());
        assert(before.tokens =~= spec_closing_tokens(v.stack));
    }
}

impl Lexer {
    /// Runs the lexer to its end and returns the tokens that were still to
    /// come, or the failure that ended them.
    pub fn collect(&mut self, interner: &mut Interner) -> (r: Result<Vec<Token>, TokenizeError>)
        requires
            old(self).wf(),
            old(interner).wf(),
        ensures
            final(self).wf(),
            final(interner).wf(),
            final(interner)@ == old(self)@.rest(old(interner)@).pool,
            match old(self)@.rest(old(interner)@).failure {
                None => r is Ok && r->Ok_0@ == old(self)@.rest(old(interner)@).tokens
                    && final(self)@.state() == LexerState::Done,
                Some(e) => r == Err::<Vec<Token>, TokenizeError>(e) && final(self)@.state()
                    == LexerState::Failed,
            },
    {
        let ghost whole = self@.rest(interner@);
        let mut tokens: Vec<Token> = Vec::new();
        assert(tokens@ + whole.tokens =~= whole.tokens);
        loop
            invariant
                self.wf(),
                interner.wf(),
                whole == old(self)@.rest(old(interner)@),
                self@.rest(interner@).after(tokens@) == whole,
            decreases self@.rest(interner@).tokens.len(),
        {
            let ghost before = self@.rest(interner@);
            match self.next(interner) {
                Ok(Some(t)) => {
                    let ghost sofar = tokens@;
                    tokens.push(t);
                    proof {
                        let now = self@.rest(interner@);
                        assert(before.tokens.len() > 0);
                        assert(t == before.tokens[0]);
                        assert(now.tokens == before.tokens.drop_first());
                        assert(tokens@ + now.tokens =~= sofar + before.tokens);
                        assert(now.after(tokens@).tokens == before.after(sofar).tokens);
                    }
                },
                Ok(None) => {
                    assert(tokens@ + before.tokens =~= tokens@);
                    return Ok(tokens);
                },
                Err(e) => {
                    return Err(e);
                },
            }
        }
    }
}

/// Tokenizes the lines of one source from its start to its end.
pub fn tokenize(lines: Vec<Line>, tab_width: u32, interner: &mut Interner) -> (r: Result<
    Vec<Token>,
    TokenizeError,
>)
    requires
        old(interner).wf(),
    ensures
        final(interner).wf(),
        final(interner)@ == spec_tokenize(line_views(lines@), tab_width, old(interner)@).pool,
        match spec_tokenize(line_views(lines@), tab_width, old(interner)@).failure {
            None => r is Ok && r->Ok_0@ == spec_tokenize(
                line_views(lines@),
                tab_width,
                old(interner)@,
            ).tokens,
            Some(e) => r == Err::<Vec<Token>, TokenizeError>(e),
        },
{
    let ghost views = line_views(lines@);
    let mut lexer = Lexer::new(lines, tab_width);
    proof {
        assert(views.skip(0) =~= views);
        let whole = spec_tokenize(views, tab_width, interner@);
        assert(Seq::<Token>::empty() + whole.tokens =~= whole.tokens);
    }
    lexer.collect(interner)
}

/// How often `t` occurs in `ts`.
pub open spec fn count_token(ts: Seq<Token>, t: Token) -> nat
    decreases ts.len(),
{
    if ts.len() == 0 {
        0
    } else {
        count_token(ts.drop_last(), t) + if ts.last() == t {
            1nat
        } else {
            0nat
        }
    }
}

proof fn lemma_count_concat(a: Seq<Token>, b: Seq<Token>, t: Token)
    ensures
        count_token(a + b, t) == count_token(a, t) + count_token(b, t),
    decreases b.len(),
{
    if b.len() == 0 {
        assert(a + b =~= a);
    } else {
        assert((a + b).drop_last() =~= a + b.drop_last());
        lemma_count_concat(a, b.drop_last(), t);
    }
}

proof fn lemma_count_repeat(n: nat, u: Token, t: Token)
    ensures
        count_token(Seq::new(n, |i: int| u), t) == if u == t {
            n
        } else {
            0
        },
    decreases n,
{
    if n > 0 {
        assert(Seq::new(n, |i: int| u).drop_last() =~= Seq::new((n - 1) as nat, |i: int| u));
        lemma_count_repeat((n - 1) as nat, u, t);
    }
}

proof fn lemma_count_absent(ts: Seq<Token>, t: Token)
    requires
        forall|i: int| 0 <= i < ts.len() ==> #[trigger] ts[i] != t,
    ensures
        count_token(ts, t) == 0,
    decreases ts.len(),
{
    if ts.len() > 0 {
        lemma_count_absent(ts.drop_last(), t);
    }
}

/// The units of a line give neither block markers nor the end-of-input token.
proof fn lemma_line_tokens_are_content(units: Seq<UnitView>, pool: InternerView)
    ensures
        spec_line_tokens(units, pool).1 matches Ok(ts) ==> forall|i: int|
            0 <= i < ts.len() ==> !(#[trigger] ts[i]).is_layout() && !(ts[i] is EndOfInput),
    decreases units.len(),
{
    if units.len() > 0 {
        lemma_line_tokens_are_content(units.drop_last(), pool);
    }
}

/// Over the tokens of an accepted line, the `Dedent`s exceed the `Indent`s by
/// the number of levels that the line closed; the line holds no end-of-input token.
proof fn lemma_line_step_balance(
    stack: Seq<u64>,
    units: Seq<UnitView>,
    tab_width: u32,
    pool: InternerView,
)
    requires
        stack_wf(stack),
    ensures
        spec_line_step(stack, units, tab_width, pool).result matches Ok(ts) ==> count_token(
            ts,
            Token::Dedent,
        ) + spec_line_step(stack, units, tab_width, pool).stack.len() == count_token(
            ts,
            Token::Indent,
        ) + stack.len() && count_token(ts, Token::EndOfInput) == 0 && (count_token(
            ts,
            Token::Dedent,
        ) == 0 || count_token(ts, Token::Indent) == 0),
{
    let step = spec_line_step(stack, units, tab_width, pool);
    if step.result is Ok {
        let ts = step.result->Ok_0;
        if !spec_has_atom(units) {
            assert(ts.drop_last() =~= Seq::<Token>::empty());
            reveal_with_fuel(count_token, 2);
        } else {
            let width = spec_indent_width(units, tab_width) as u64;
            let after = spec_adjust(stack, width)->0;
            let layout = spec_layout_tokens(stack, after);
            let content = spec_line_tokens(units, pool).1->Ok_0;
            lemma_line_tokens_are_content(units, pool);
            lemma_count_absent(content, Token::Dedent);
            lemma_count_absent(content, Token::Indent);
            lemma_count_absent(content, Token::EndOfInput);
            lemma_count_concat(layout, content, Token::Dedent);
            lemma_count_concat(layout, content, Token::Indent);
            lemma_count_concat(layout, content, Token::EndOfInput);
            if after.len() > stack.len() {
                assert(layout.drop_last() =~= Seq::<Token>::empty());
                reveal_with_fuel(count_token, 2);
            } else {
                let n = (stack.len() - after.len()) as nat;
                lemma_count_repeat(n, Token::Dedent, Token::Dedent);
                lemma_count_repeat(n, Token::Dedent, Token::Indent);
                lemma_count_repeat(n, Token::Dedent, Token::EndOfInput);
            }
        }
    }
}

/// Tokenizing from any stack of open levels, when no line is refused: the
/// `Dedent`s exceed the `Indent`s by the levels that were open at the start,
/// and the end-of-input token comes once, as the last token.
pub proof fn lemma_layout_balance_from(
    lines: Seq<Seq<UnitView>>,
    stack: Seq<u64>,
    tab_width: u32,
    pool: InternerView,
)
    requires
        stack_wf(stack),
        forall|i: int| 0 <= i < lines.len() ==> line_shape(#[trigger] lines[i]),
    ensures
        ({
            let o = spec_tokenize_from(lines, stack, tab_width, pool);
            o.failure is None ==> {
                &&& count_token(o.tokens, Token::Dedent) == count_token(o.tokens, Token::Indent)
                    + stack.len() - 1
                &&& o.tokens.len() > 0
                &&& o.tokens.last() == Token::EndOfInput
                &&& count_token(o.tokens, Token::EndOfInput) == 1
            }
        }),
    decreases lines.len(),
{
    let o = spec_tokenize_from(lines, stack, tab_width, pool);
    if lines.len() == 0 {
        let n = (stack.len() - 1) as nat;
        let dedents = Seq::new(n, |i: int| Token::Dedent);
        assert(o.tokens.drop_last() =~= dedents);
        lemma_count_repeat(n, Token::Dedent, Token::Dedent);
        lemma_count_repeat(n, Token::Dedent, Token::Indent);
        lemma_count_repeat(n, Token::Dedent, Token::EndOfInput);
    } else {
        let step = spec_line_step(stack, lines[0], tab_width, pool);
        lemma_line_step_gives_tokens(stack, lines[0], tab_width, pool);
        lemma_line_step_balance(stack, lines[0], tab_width, pool);
        if step.result is Ok {
            let ts = step.result->Ok_0;
            let tail = spec_tokenize_from(lines.drop_first(), step.stack, tab_width, step.pool);
            lemma_layout_balance_from(lines.drop_first(), step.stack, tab_width, step.pool);
            lemma_count_concat(ts, tail.tokens, Token::Dedent);
            lemma_count_concat(ts, tail.tokens, Token::Indent);
            lemma_count_concat(ts, tail.tokens, Token::EndOfInput);
        }
    }
}

/// When a source is tokenized to its end, its tokens hold as many `Indent`s
/// as `Dedent`s, and the end-of-input token once, as the last of them.
pub proof fn lemma_indents_match_dedents(
    lines: Seq<Seq<UnitView>>,
    tab_width: u32,
    pool: InternerView,
)
    requires
        forall|i: int| 0 <= i < lines.len() ==> line_shape(#[trigger] lines[i]),
    ensures
        ({
            let o = spec_tokenize(lines, tab_width, pool);
            o.failure is None ==> {
                &&& count_token(o.tokens, Token::Indent) == count_token(o.tokens, Token::Dedent)
                &&& o.tokens.len() > 0
                &&& o.tokens.last() == Token::EndOfInput
                &&& count_token(o.tokens, Token::EndOfInput) == 1
            }
        }),
{
    lemma_layout_balance_from(lines, seq![0u64], tab_width, pool);
}

/// A prefix holds a token no more often than the whole.
proof fn lemma_count_prefix(ts: Seq<Token>, k: int, t: Token)
    requires
        0 <= k <= ts.len(),
    ensures
        count_token(ts.take(k), t) <= count_token(ts, t),
    decreases ts.len(),
{
    if k == ts.len() {
        assert(ts.take(k) =~= ts);
    } else {
        assert(ts.drop_last().take(k) =~= ts.take(k));
        lemma_count_prefix(ts.drop_last(), k, t);
    }
}

/// Tokenizing from any stack of open levels, whether a line is refused or
/// not: at no point have more levels been closed than were open at the start
/// or have been opened since.
pub proof fn lemma_prefix_balance_from(
    lines: Seq<Seq<UnitView>>,
    stack: Seq<u64>,
    tab_width: u32,
    pool: InternerView,
    k: int,
)
    requires
        stack_wf(stack),
        0 <= k <= spec_tokenize_from(lines, stack, tab_width, pool).tokens.len(),
    ensures
        count_token(
            spec_tokenize_from(lines, stack, tab_width, pool).tokens.take(k),
            Token::Dedent,
        ) + 1 <= count_token(
            spec_tokenize_from(lines, stack, tab_width, pool).tokens.take(k),
            Token::Indent,
        ) + stack.len(),
    decreases lines.len(),
{
    let tokens = spec_tokenize_from(lines, stack, tab_width, pool).tokens;
    let prefix = tokens.take(k);
    if lines.len() == 0 {
        let n = (stack.len() - 1) as nat;
        assert(tokens.drop_last() =~= Seq::new(n, |i: int| Token::Dedent));
        lemma_count_repeat(n, Token::Dedent, Token::Dedent);
        lemma_count_prefix(tokens, k, Token::Dedent);
    } else {
        let step = spec_line_step(stack, lines[0], tab_width, pool);
        lemma_line_step_balance(stack, lines[0], tab_width, pool);
        match step.result {
            Err(e) => {
                assert(prefix =~= Seq::<Token>::empty());
            },
            Ok(ts) => {
                let tail = spec_tokenize_from(lines.drop_first(), step.stack, tab_width, step.pool);
                assert(tokens == ts + tail.tokens);
                assert(stack_wf(step.stack)) by {
                    if spec_has_atom(lines[0]) {
                        lemma_adjust_refuses_unmatched_width(
                            stack,
                            spec_indent_width(lines[0], tab_width) as u64,
                        );
                    }
                }
                if k <= ts.len() {
                    assert(prefix =~= ts.take(k));
                    lemma_count_prefix(ts, k, Token::Dedent);
                } else {
                    let behind = tail.tokens.take(k - ts.len());
                    assert(prefix =~= ts + behind);
                    lemma_prefix_balance_from(
                        lines.drop_first(),
                        step.stack,
                        tab_width,
                        step.pool,
                        k - ts.len(),
                    );
                    lemma_count_concat(ts, behind, Token::Dedent);
                    lemma_count_concat(ts, behind, Token::Indent);
                }
            },
        }
    }
}

/// While a source is tokenized, the tokens handed out so far never hold
/// more `Dedent`s than `Indent`s.
pub proof fn lemma_dedents_never_lead(
    lines: Seq<Seq<UnitView>>,
    tab_width: u32,
    pool: InternerView,
    k: int,
)
    requires
        0 <= k <= spec_tokenize(lines, tab_width, pool).tokens.len(),
    ensures
        count_token(spec_tokenize(lines, tab_width, pool).tokens.take(k), Token::Dedent)
            <= count_token(spec_tokenize(lines, tab_width, pool).tokens.take(k), Token::Indent),
{
    lemma_prefix_balance_from(lines, seq![0u64], tab_width, pool, k);
}

} // verus!
