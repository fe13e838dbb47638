use crate::error::{TokenizeError, TokenizeErrorKind};
use crate::interner::{Interner, InternerView};
use crate::literal::{
    check_float_text, is_float_text, parse_char, parse_integer, spec_parse_char,
    spec_parse_integer, spec_unquote, unquote,
};
use crate::span::Span;
use crate::token::{Literal, Token};
use crate::unit::{line_shape, unit_views, unit_wf, AtomKind, Line, Unit, UnitKind, UnitView};
use vstd::prelude::*;
use vstd::utf8::{encode_scalar, encode_utf8};

verus! {

/// The token of an atom of class `kind` with text `text` at `span`, and the
/// interner after it: keywords, operators and delimiters stand for
/// themselves, names and the contents of string literals are interned,
/// integer and character literals are read, a float literal is checked and
/// keeps its span. A malformed literal is a failure, and so is a new name or
/// string that finds the interner full.
pub open spec fn spec_classify(
    kind: AtomKind,
    text: Seq<char>,
    span: Span,
    pool: InternerView,
) -> (
    InternerView,
    Result<Token, TokenizeErrorKind>,
) {
    match kind {
        AtomKind::Keyword(k) => (pool, Ok(Token::Keyword(k))),
        AtomKind::Operator(o) => (pool, Ok(Token::Operator(o))),
        AtomKind::Delimiter(d) => (pool, Ok(Token::Delimiter(d))),
        AtomKind::Identifier => match pool.try_intern(text).1 {
            Some(sym) => (pool.try_intern(text).0, Ok(Token::Identifier(sym))),
            None => (pool, Err(TokenizeErrorKind::InternerCapacityError)),
        },
        AtomKind::Integer => match spec_parse_integer(text) {
            Some(v) => (pool, Ok(Token::Literal(Literal::Integer(v)))),
            None => (pool, Err(TokenizeErrorKind::LiteralParseError)),
        },
        AtomKind::Character => match spec_parse_char(text) {
            Some(c) => (pool, Ok(Token::Literal(Literal::Char(c)))),
            None => (pool, Err(TokenizeErrorKind::LiteralParseError)),
        },
        AtomKind::Float => if is_float_text(text) {
            (pool, Ok(Token::Literal(Literal::Float(span))))
        } else {
            (pool, Err(TokenizeErrorKind::LiteralParseError))
        },
        AtomKind::String => match spec_unquote(text) {
            Some(content) => match pool.try_intern(content).1 {
                Some(sym) => (
                    pool.try_intern(content).0,
                    Ok(Token::Literal(Literal::String(sym))),
                ),
                None => (pool, Err(TokenizeErrorKind::InternerCapacityError)),
            },
            None => (pool, Err(TokenizeErrorKind::LiteralParseError)),
        },
    }
}

/// Turns one atom into its token.
pub fn classify_atom(
    kind: AtomKind,
    text: &str,
    span: Span,
    interner: &mut Interner,
) -> (r: Result<Token, TokenizeErrorKind>)
    requires
        old(interner).wf(),
    ensures
        final(interner).wf(),
        (final(interner)@, r) == spec_classify(kind, text@, span, old(interner)@),
{
    match kind {
        AtomKind::Keyword(k) => Ok(Token::Keyword(k)),
        AtomKind::Operator(o) => Ok(Token::Operator(o)),
        AtomKind::Delimiter(d) => Ok(Token::Delimiter(d)),
        AtomKind::Identifier => match interner.try_intern(text) {
            Ok(sym) => Ok(Token::Identifier(sym)),
            Err(_) => Err(TokenizeErrorKind::InternerCapacityError),
        },
        AtomKind::Integer => match parse_integer(text) {
            Some(v) => Ok(Token::Literal(Literal::Integer(v))),
            None => Err(TokenizeErrorKind::LiteralParseError),
        },
        AtomKind::Character => match parse_char(text) {
            Some(c) => Ok(Token::Literal(Literal::Char(c))),
            None => Err(TokenizeErrorKind::LiteralParseError),
        },
        AtomKind::Float => if check_float_text(text) {
            Ok(Token::Literal(Literal::Float(span)))
        } else {
            Err(TokenizeErrorKind::LiteralParseError)
        },
        AtomKind::String => match unquote(text) {
            Some(content) => match interner.try_intern(content) {
                Ok(sym) => Ok(Token::Literal(Literal::String(sym))),
                Err(_) => Err(TokenizeErrorKind::InternerCapacityError),
            },
            None => Err(TokenizeErrorKind::LiteralParseError),
        },
    }
}

/// The columns that one character of indentation takes: a tab takes
/// `tab_width`, anything else one.
pub open spec fn char_width(c: char, tab_width: u32) -> nat {
    if c == '\t' {
        tab_width as nat
    } else {
        1
    }
}

/// The columns that a run of whitespace takes.
pub open spec fn spec_run_width(text: Seq<char>, tab_width: u32) -> nat
    decreases text.len(),
{
    if text.len() == 0 {
        0
    } else {
        spec_run_width(text.drop_last(), tab_width) + char_width(text.last(), tab_width)
    }
}

/// The indentation of a line: the columns of the whitespace runs that stand
/// before its first unit of another kind.
pub open spec fn spec_indent_width(units: Seq<UnitView>, tab_width: u32) -> nat
    decreases units.len(),
{
    if units.len() == 0 || !(units[0].kind is WhitespaceRun) {
        0
    } else {
        spec_run_width(units[0].text, tab_width) + spec_indent_width(units.drop_first(), tab_width)
    }
}

/// Whether a line holds an atom. A line without one is blank or holds only a comment.
pub open spec fn spec_has_atom(units: Seq<UnitView>) -> bool {
    exists|i: int| 0 <= i < units.len() && (#[trigger] units[i]).kind is Atom
}

/// What one unit contributes to the tokens of its line: an atom its token,
/// the line terminator a `Newline`, whitespace and comments nothing.
pub open spec fn spec_unit_token(u: UnitView, pool: InternerView) -> (
    InternerView,
    Result<Option<Token>, TokenizeError>,
) {
    match u.kind {
        UnitKind::Atom(kind) => (
            spec_classify(kind, u.text, u.span, pool).0,
            match spec_classify(kind, u.text, u.span, pool).1 {
                Ok(t) => Ok(Some(t)),
                Err(k) => Err(TokenizeError { kind: k, span: u.span }),
            },
        ),
        UnitKind::Newline => (pool, Ok(Some(Token::Newline))),
        _ => (pool, Ok(None)),
    }
}

/// The tokens of the units of a line, in order, and the interner after
/// them. The first unit that fails ends the line: what follows it is not
/// looked at.
pub open spec fn spec_line_tokens(units: Seq<UnitView>, pool: InternerView) -> (
    InternerView,
    Result<Seq<Token>, TokenizeError>,
)
    decreases units.len(),
{
    if units.len() == 0 {
        (pool, Ok(Seq::empty()))
    } else {
        let before = spec_line_tokens(units.drop_last(), pool);
        match before.1 {
            Err(e) => before,
            Ok(ts) => {
                let here = spec_unit_token(units.last(), before.0);
                (
                    here.0,
                    match here.1 {
                        Ok(Some(t)) => Ok(ts.push(t)),
                        Ok(None) => Ok(ts),
                        Err(e) => Err(e),
                    },
                )
            },
        }
    }
}

/// The first position at or behind `pos` whose unit gives a token, or the
/// number of units when there is none.
pub open spec fn next_token_unit(units: Seq<UnitView>, pos: nat) -> nat
    decreases units.len() - pos,
{
    if pos >= units.len() {
        units.len()
    } else if units[pos as int].kind is Atom || units[pos as int].kind is Newline {
        pos
    } else {
        next_token_unit(units, pos + 1)
    }
}

/// A text has no more characters than bytes.
pub proof fn lemma_chars_le_bytes(chars: Seq<char>)
    ensures
        chars.len() <= encode_utf8(chars).len(),
    decreases chars.len(),
{
    if chars.len() > 0 {
        lemma_chars_le_bytes(chars.drop_first());
        assert(encode_scalar(chars[0] as u32).len() >= 1);
    }
}

/// A run is no wider than its characters, each taken at the tab width and one.
pub proof fn lemma_run_width_bound(text: Seq<char>, tab_width: u32)
    ensures
        spec_run_width(text, tab_width) <= text.len() * (tab_width + 1),
    decreases text.len(),
{
    if text.len() > 0 {
        lemma_run_width_bound(text.drop_last(), tab_width);
        assert(text.drop_last().len() * (tab_width + 1) + (tab_width + 1) == text.len() * (tab_width
            + 1)) by (nonlinear_arith)
            requires
                text.drop_last().len() + 1 == text.len(),
        ;
    }
}

/// Once a unit has failed, the units behind it change nothing.
pub proof fn lemma_line_tokens_failure(units: Seq<UnitView>, k: int, pool: InternerView)
    requires
        0 <= k <= units.len(),
        spec_line_tokens(units.take(k), pool).1 is Err,
    ensures
        spec_line_tokens(units, pool) == spec_line_tokens(units.take(k), pool),
    decreases units.len(),
{
    if k == units.len() {
        assert(units.take(k) =~= units);
    } else {
        assert(units.drop_last().take(k) =~= units.take(k));
        lemma_line_tokens_failure(units.drop_last(), k, pool);
    }
}

/// The columns of the whitespace run `text`.
fn run_width(text: &str, tab_width: u32) -> (w: u64)
    requires
        text@.len() <= u32::MAX,
    ensures
        w == spec_run_width(text@, tab_width),
{
    let mut w: u64 = 0;
    for c in it: text.chars()
        invariant
            it.seq() == text@,
            text@.len() <= u32::MAX,
            w == spec_run_width(it.seq().take(it.index()), tab_width),
    {
        proof {
            let i = it.index();
            assert(it.seq().take(i + 1).drop_last() =~= it.seq().take(i));
            assert(it.seq().take(i + 1).last() == c);
            lemma_run_width_bound(it.seq().take(i), tab_width);
            assert(i * (tab_width + 1) + (tab_width + 1) <= 0xffff_ffff * 0x1_0000_0000) by (
                nonlinear_arith)
                requires
                    0 <= i < 0xffff_ffff,
                    0 <= tab_width <= 0xffff_ffff,
            ;
        }
        if c == '\t' {
            w = w + tab_width as u64;
        } else {
            w = w + 1;
        }
    }
    assert(text@.take(text@.len() as int) =~= text@);
    w
}

/// Units that follow one another in the source are indented by no more
/// than the bytes from the first of them to the end of the source, each
/// byte taken at the tab width and one. So the indentation of a line fits 64 bits.
pub proof fn lemma_indent_width_bound(units: Seq<UnitView>, tab_width: u32)
    requires
        forall|i: int| 0 <= i < units.len() ==> unit_wf(#[trigger] units[i]),
        forall|i: int, j: int|
            0 <= i < j < units.len() ==> (#[trigger] units[i]).span.spec_end() <= (
            #[trigger] units[j]).span.spec_start(),
    ensures
        units.len() > 0 ==> spec_indent_width(units, tab_width) <= (u32::MAX
            - units[0].span.spec_start()) * (tab_width + 1),
        spec_indent_width(units, tab_width) <= 0xffff_ffff * 0x1_0000_0000,
    decreases units.len(),
{
    if units.len() > 0 {
        let first = units[0];
        let tail = units.drop_first();
        let room = (u32::MAX - first.span.spec_start()) as int;
        let factor = (tab_width + 1) as int;
        first.span.lemma_bounds();
        assert(unit_wf(first));
        assert(0 <= room * factor <= 0xffff_ffff * 0x1_0000_0000) by (nonlinear_arith)
            requires
                0 <= room <= 0xffff_ffff,
                0 < factor <= 0x1_0000_0000,
        ;
        if first.kind is WhitespaceRun {
            assert forall|i: int| 0 <= i < tail.len() implies unit_wf(#[trigger] tail[i]) by {
                assert(tail[i] == units[i + 1]);
            }
            assert forall|i: int, j: int| 0 <= i < j < tail.len() implies (
            #[trigger] tail[i]).span.spec_end() <= (#[trigger] tail[j]).span.spec_start() by {
                assert(tail[i] == units[i + 1]);
                assert(tail[j] == units[j + 1]);
            }
            lemma_indent_width_bound(tail, tab_width);
            lemma_chars_le_bytes(first.text);
            lemma_run_width_bound(first.text, tab_width);
            let covered = first.span.spec_end() - first.span.spec_start();
            assert(first.text.len() * factor <= covered * factor) by (nonlinear_arith)
                requires
                    first.text.len() <= covered,
                    factor > 0,
            ;
            if tail.len() > 0 {
                let next_room = (u32::MAX - tail[0].span.spec_start()) as int;
                assert(tail[0] == units[1]);
                assert(first.span.spec_end() <= units[1].span.spec_start());
                assert(covered * factor + next_room * factor <= room * factor) by (nonlinear_arith)
                    requires
                        covered + next_room <= room,
                        factor > 0,
                ;
            } else {
                assert(covered * factor <= room * factor) by (nonlinear_arith)
                    requires
                        covered <= room,
                        factor > 0,
                ;
            }
        }
    }
}

/// Measures the indentation of the units of `line` from position `from` on.
pub fn measure_indent(line: &Line, from: usize, tab_width: u32) -> (w: u64)
    requires
        from <= line@.len(),
    ensures
        w == spec_indent_width(line@.skip(from as int), tab_width),
{
    let n = line.len();
    let ghost units = line@;
    let ghost rest = units.skip(from as int);
    proof {
        lemma_indent_width_bound(rest, tab_width);
    }
    let mut w: u64 = 0;
    let mut i: usize = from;
    let mut going = true;
    while going && i < n
        invariant
            from <= i <= n,
            n == units.len(),
            units == line@,
            rest == units.skip(from as int),
            spec_indent_width(rest, tab_width) <= 0xffff_ffff * 0x1_0000_0000,
            going ==> w + spec_indent_width(units.skip(i as int), tab_width) == spec_indent_width(
                rest,
                tab_width,
            ),
            !going ==> w == spec_indent_width(rest, tab_width),
        decreases n - i + if going { 1int } else { 0int },
    {
        let u = line.unit(i);
        let ghost tail = units.skip(i as int);
        assert(tail[0] == units[i as int]);
        assert(tail.drop_first() =~= units.skip(i + 1));
        match u.kind() {
            UnitKind::WhitespaceRun => {
                let span = u.span();
                let end = span.end();
                proof {
                    lemma_chars_le_bytes(u@.text);
                }
                let r = run_width(u.text(), tab_width);
                w = w + r;
                i += 1;
            },
            _ => {
                going = false;
            },
        }
    }
    proof {
        if going {
            assert(units.skip(i as int).len() == 0);
        }
    }
    w
}

/// Whether `line` holds an atom.
pub fn has_atom(line: &Line) -> (r: bool)
    ensures
        r == spec_has_atom(line@),
{
    let n = line.len();
    let mut i: usize = 0;
    while i < n
        invariant
            i <= n,
            n == line@.len(),
            forall|k: int| 0 <= k < i ==> !((#[trigger] line@[k]).kind is Atom),
        decreases n - i,
    {
        match line.unit(i).kind() {
            UnitKind::Atom(_) => {
                assert(line@[i as int].kind is Atom);
                return true;
            },
            _ => {},
        }
        i += 1;
    }
    false
}

/// Turns one unit into what it contributes to the tokens of its line.
pub fn unit_token(u: &Unit, interner: &mut Interner) -> (r: Result<Option<Token>, TokenizeError>)
    requires
        old(interner).wf(),
    ensures
        final(interner).wf(),
        (final(interner)@, r) == spec_unit_token(u@, old(interner)@),
{
    match u.kind() {
        UnitKind::Atom(kind) => match classify_atom(kind, u.text(), u.span(), interner) {
            Ok(t) => Ok(Some(t)),
            Err(k) => Err(TokenizeError { kind: k, span: u.span() }),
        },
        UnitKind::Newline => Ok(Some(Token::Newline)),
        _ => Ok(None),
    }
}

/// Tokenizes the units of `line` from position `from` on.
pub fn tokenize_units(line: &Line, from: usize, interner: &mut Interner) -> (r: Result<
    Vec<Token>,
    TokenizeError,
>)
    requires
        from <= line@.len(),
        old(interner).wf(),
    ensures
        final(interner).wf(),
        final(interner)@ == spec_line_tokens(line@.skip(from as int), old(interner)@).0,
        match spec_line_tokens(line@.skip(from as int), old(interner)@).1 {
            Ok(ts) => r is Ok && r->Ok_0@ == ts,
            Err(e) => r == Err::<Vec<Token>, TokenizeError>(e),
        },
{
    let n = line.len();
    let ghost rest = line@.skip(from as int);
    let ghost pool0 = interner@;
    let mut tokens: Vec<Token> = Vec::new();
    let mut i: usize = from;
    assert(rest.take(0) =~= Seq::<UnitView>::empty());
    while i < n
        invariant
            from <= i <= n,
            n == line@.len(),
            rest == line@.skip(from as int),
            pool0 == old(interner)@,
            interner.wf(),
            spec_line_tokens(rest.take(i - from), pool0) == (
                interner@,
                Ok::<Seq<Token>, TokenizeError>(tokens@),
            ),
        decreases n - i,
    {
        let u = line.unit(i);
        proof {
            assert(rest.take(i + 1 - from).drop_last() =~= rest.take(i - from));
            assert(rest.take(i + 1 - from).last() == u@);
        }
        match unit_token(u, interner) {
            Ok(Some(t)) => {
                tokens.push(t);
            },
            Ok(None) => {},
            Err(e) => {
                proof {
                    lemma_line_tokens_failure(rest, i + 1 - from, pool0);
                }
                return Err(e);
            },
        }
        i += 1;
    }
    assert(rest.take(n - from) =~= rest);
    Ok(tokens)
}

/// A cursor over the units of one line that hands out its tokens one by one.
/// A unit that fails stops the cursor: from then on it only repeats that
/// failure.
pub struct LineTokenizer {
    line: Line,
    pos: usize,
    failed: Option<TokenizeError>,
}

impl LineTokenizer {
    #[verifier::type_invariant]
    spec fn in_bounds(self) -> bool {
        self.pos <= self.line@.len()
    }

    /// The units of the line.
    pub closed spec fn units(&self) -> Seq<UnitView> {
        self.line@
    }

    /// The number of units consumed so far.
    pub closed spec fn position(&self) -> nat {
        self.pos as nat
    }

    /// The failure that stopped the cursor, if one did.
    pub closed spec fn failure(&self) -> Option<TokenizeError> {
        self.failed
    }

    /// A tokenizer at the start of `line`.
    pub fn new(line: Line) -> (r: Self)
        ensures
            r.units() == line@,
            r.position() == 0,
            r.failure() is None,
    {
        LineTokenizer { line, pos: 0, failed: None }
    }

    /// A tokenizer at the start of the line made of `units`, or nothing when
    /// they do not have the shape of a line.
    pub fn new_line_pairs(units: Vec<Unit>) -> (r: Option<Self>)
        ensures
            r is Some <==> line_shape(unit_views(units@)),
            r matches Some(t) ==> t.units() == unit_views(units@) && t.position() == 0
                && t.failure() is None,
    {
        match Line::new(units) {
            Some(line) => Some(LineTokenizer { line, pos: 0, failed: None }),
            None => None,
        }
    }

    /// The next token of the line: units that give none are passed over.
    /// At the end of the line there is nothing more. A unit that fails
    /// gives no token and stops the cursor at that unit: this call and every
    /// later one report its failure, and nothing else changes any more.
    pub fn next(&mut self, interner: &mut Interner) -> (r: Result<Option<Token>, TokenizeError>)
        requires
            old(interner).wf(),
        ensures
            final(interner).wf(),
            final(self).units() == old(self).units(),
            old(self).position() <= final(self).position() <= old(self).units().len(),
            old(self).failure() matches Some(e) ==> {
                &&& r == Err::<Option<Token>, TokenizeError>(e)
                &&& final(self).position() == old(self).position()
                &&& final(self).failure() == old(self).failure()
                &&& final(interner)@ == old(interner)@
            },
            old(self).failure() is None ==> ({
                let at = next_token_unit(old(self).units(), old(self).position());
                if at < old(self).units().len() {
                    &&& (final(interner)@, r) == spec_unit_token(
                        old(self).units()[at as int],
                        old(interner)@,
                    )
                    &&& final(self).failure() == r.err()
                    &&& final(self).position() == if r is Ok {
                        at + 1
                    } else {
                        at
                    }
                } else {
                    &&& final(self).position() == at
                    &&& final(self).failure() is None
                    &&& final(interner)@ == old(interner)@
                    &&& r == Ok::<Option<Token>, TokenizeError>(None)
                }
            }),
    {
        proof {
            use_type_invariant(&*self);
        }
        if let Some(e) = self.failed {
            return Err(e);
        }
        let n = self.line.len();
        let mut i: usize = self.pos;
        while i < n
            invariant
                self.pos <= i <= n,
                n == self.line@.len(),
                next_token_unit(self.line@, self.pos as nat) == next_token_unit(self.line@, i as nat),
            ensures
                i < n ==> self.line@[i as int].kind is Atom || self.line@[i as int].kind is Newline,
            decreases n - i,
        {
            match self.line.unit(i).kind() {
                UnitKind::Atom(_) => {
                    break ;
                },
                UnitKind::Newline => {
                    break ;
                },
                _ => {},
            }
            i += 1;
        }
        if i < n {
            let r = unit_token(self.line.unit(i), interner);
            match r {
                Ok(_) => {
                    self.pos = i + 1;
                },
                Err(e) => {
                    self.pos = i;
                    self.failed = Some(e);
                },
            }
            r
        } else {
            self.pos = n;
            Ok(None)
        }
    }

    /// Reads the rest of the line: the width of the indentation that stands
    /// at the cursor, and the tokens from there on. A cursor that a failure
    /// has stopped reads nothing and reports that failure.
    pub fn parse_line(self, tab_width: u32, interner: &mut Interner) -> (r: Result<
        (u64, Vec<Token>),
        TokenizeError,
    >)
        requires
            old(interner).wf(),
        ensures
            final(interner).wf(),
            self.failure() matches Some(e) ==> r == Err::<(u64, Vec<Token>), TokenizeError>(e)
                && final(interner)@ == old(interner)@,
            self.failure() is None ==> final(interner)@ == spec_line_tokens(
                self.units().skip(self.position() as int),
                old(interner)@,
            ).0,
            self.failure() is None ==> match spec_line_tokens(
                self.units().skip(self.position() as int),
                old(interner)@,
            ).1 {
                Ok(ts) => r is Ok && r->Ok_0.1@ == ts && r->Ok_0.0 == spec_indent_width(
                    self.units().skip(self.position() as int),
                    tab_width,
                ),
                Err(e) => r == Err::<(u64, Vec<Token>), TokenizeError>(e),
            },
    {
        proof {
            use_type_invariant(&self);
        }
        if let Some(e) = self.failed {
            return Err(e);
        }
        let width = measure_indent(&self.line, self.pos, tab_width);
        match tokenize_units(&self.line, self.pos, interner) {
            Ok(tokens) => Ok((width, tokens)),
            Err(e) => Err(e),
        }
    }
}

} // verus!
