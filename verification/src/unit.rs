use crate::delimiter::Delimiter;
use crate::keyword::Keyword;
use crate::operator::Operator;
use crate::span::Span;
use vstd::prelude::*;
use vstd::utf8::encode_utf8;

verus! {

/// The class that the grammar assigns to an atom by its rule, never by its text.
#[derive(Debug, Clone, Copy, PartialEq, Eq, Structural)]
pub enum AtomKind {
    Identifier,
    Keyword(Keyword),
    Integer,
    Float,
    Character,
    String,
    Operator(Operator),
    Delimiter(Delimiter),
}

/// What a unit of a line is.
#[derive(Debug, Clone, Copy, PartialEq, Eq, Structural)]
pub enum UnitKind {
    /// A run of spaces and tabs.
    WhitespaceRun,
    Atom(AtomKind),
    /// A line comment.
    Comment,
    /// The line terminator.
    Newline,
}

/// One lexical unit as the grammar yields it: its class, the text it covers
/// and where that text lies in the source.
#[derive(Debug)]
pub struct Unit {
    kind: UnitKind,
    text: String,
    span: Span,
}

/// The mathematical value of a unit.
pub struct UnitView {
    pub kind: UnitKind,
    pub text: Seq<char>,
    pub span: Span,
}

/// The span of a unit covers exactly the bytes of its text.
pub open spec fn unit_wf(u: UnitView) -> bool {
    u.span.spec_start() + encode_utf8(u.text).len() == u.span.spec_end()
}

impl View for Unit {
    type V = UnitView;

    closed spec fn view(&self) -> UnitView {
        UnitView { kind: self.kind, text: self.text@, span: self.span }
    }
}

impl Unit {
    #[verifier::type_invariant]
    spec fn consistent(self) -> bool {
        unit_wf(self@)
    }

    /// A unit of class `kind` with the given text at `span`, or nothing when
    /// the span does not have the length of the text in bytes.
    pub fn new(kind: UnitKind, text: String, span: Span) -> (r: Option<Unit>)
        ensures
            r is Some <==> unit_wf(UnitView { kind, text: text@, span }),
            r matches Some(u) ==> u@ == (UnitView { kind, text: text@, span }),
    {
        let n = text.as_str().as_bytes().len();
        let start = span.start();
        let end = span.end();
        if n == (end - start) as usize {
            Some(Unit { kind, text, span })
        } else {
            None
        }
    }

    /// The class of the unit.
    pub fn kind(&self) -> (r: UnitKind)
        ensures
            r == self@.kind,
    {
        self.kind
    }

    /// The text that the unit covers.
    pub fn text(&self) -> (r: &str)
        ensures
            r@ == self@.text,
    {
        self.text.as_str()
    }

    /// Where the unit lies in the source.
    pub fn span(&self) -> (r: Span)
        ensures
            r == self@.span,
            unit_wf(self@),
    {
        proof {
            use_type_invariant(self);
        }
        self.span
    }
}

/// The values of a sequence of units.
pub open spec fn unit_views(units: Seq<Unit>) -> Seq<UnitView> {
    units.map_values(|u: Unit| u@)
}

/// The shape of a line: every unit is consistent, the units follow one
/// another in the source, and the line terminator is the last unit and the
/// only one of its kind.
pub open spec fn line_shape(units: Seq<UnitView>) -> bool {
    &&& units.len() >= 1
    &&& forall|i: int| 0 <= i < units.len() ==> unit_wf(#[trigger] units[i])
    &&& forall|i: int, j: int|
        0 <= i < j < units.len() ==> (#[trigger] units[i]).span.spec_end() <= (
        #[trigger] units[j]).span.spec_start()
    &&& forall|i: int|
        0 <= i < units.len() ==> ((#[trigger] units[i]).kind is Newline <==> i == units.len() - 1)
}

/// One line of a source: its units in source order, ending in the line terminator.
#[derive(Debug)]
pub struct Line {
    units: Vec<Unit>,
}

impl View for Line {
    type V = Seq<UnitView>;

    closed spec fn view(&self) -> Seq<UnitView> {
        unit_views(self.units@)
    }
}

impl Line {
    #[verifier::type_invariant]
    spec fn shaped(self) -> bool {
        line_shape(self@)
    }

    /// The line made of `units`, or nothing when they do not have the shape of a line.
    pub fn new(units: Vec<Unit>) -> (r: Option<Line>)
        ensures
            r is Some <==> line_shape(unit_views(units@)),
            r matches Some(l) ==> l@ == unit_views(units@),
    {
        let n = units.len();
        if n == 0 {
            return None;
        }
        let ghost views = unit_views(units@);
        let mut i: usize = 0;
        while i < n
            invariant
                n == units.len(),
                n >= 1,
                views == unit_views(units@),
                views.len() == n,
                forall|k: int| 0 <= k < n ==> #[trigger] views[k] == units@[k]@,
                i <= n,
                forall|k: int| 0 <= k < i ==> unit_wf(#[trigger] views[k]),
                forall|a: int, b: int|
                    0 <= a < b < n && b <= i ==> (#[trigger] views[a]).span.spec_end() <= (
                    #[trigger] views[b]).span.spec_start(),
                forall|k: int| 0 <= k < i ==> ((#[trigger] views[k]).kind is Newline <==> k == n - 1),
            decreases n - i,
        {
            let u = &units[i];
            let span = u.span();
            let is_newline = match u.kind() {
                UnitKind::Newline => true,
                _ => false,
            };
            if is_newline != (i == n - 1) {
                assert(views[i as int].kind is Newline != (i == n - 1));
                return None;
            }
            if i + 1 < n {
                let next = units[i + 1].span();
                if span.end() > next.start() {
                    assert(views[i as int].span.spec_end() > views[i + 1].span.spec_start());
                    return None;
                }
                assert forall|a: int| 0 <= a < i + 1 implies (#[trigger] views[a]).span.spec_end()
                    <= views[i + 1].span.spec_start() by {
                    if a < i {
                        assert(views[a].span.spec_end() <= views[i as int].span.spec_start());
                    }
                }
            }
            i += 1;
        }
        Some(Line { units })
    }

    /// The number of units.
    pub fn len(&self) -> (n: usize)
        ensures
            n == self@.len(),
            line_shape(self@),
    {
        proof {
            use_type_invariant(self);
        }
        self.units.len()
    }

    /// The unit at position `i`.
    pub fn unit(&self, i: usize) -> (u: &Unit)
        requires
            i < self@.len(),
        ensures
            u@ == self@[i as int],
    {
        &self.units[i]
    }
}

} // verus!
