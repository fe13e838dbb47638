use crate::token::Token;
use vstd::prelude::*;

verus! {

/// The levels of a stack of indentation widths: the root level 0 at the
/// bottom, and each level wider than the one below it.
pub open spec fn stack_wf(s: Seq<u64>) -> bool {
    &&& s.len() >= 1
    &&& s[0] == 0
    &&& forall|i: int, j: int| 0 <= i < j < s.len() ==> s[i] < s[j]
}

/// The stack after a line of indentation `width`: a wider line opens a level,
/// a line at an open level closes the levels above it, and a line at any
/// other width fits nowhere.
pub open spec fn spec_adjust(s: Seq<u64>, width: u64) -> Option<Seq<u64>> {
    if width > s.last() {
        Some(s.push(width))
    } else if s.contains(width) {
        Some(s.take(s.index_of(width) + 1))
    } else {
        None
    }
}

/// The block markers for a step from the stack `before` to the stack
/// `after`: one `Indent` for a level opened, one `Dedent` for each level closed.
pub open spec fn spec_layout_tokens(before: Seq<u64>, after: Seq<u64>) -> Seq<Token> {
    if after.len() > before.len() {
        seq![Token::Indent]
    } else {
        Seq::new((before.len() - after.len()) as nat, |i: int| Token::Dedent)
    }
}

/// How the stack moved for a line.
#[derive(Debug, Clone, Copy, PartialEq, Eq, Structural)]
pub enum IndentChange {
    /// The line stands at the current level.
    Unchanged,
    /// The line opened a level.
    Indent,
    /// The line closed this many levels.
    Dedent(usize),
}

/// The change that leads from the stack `before` to the stack `after`.
pub open spec fn spec_change(before: Seq<u64>, after: Seq<u64>) -> IndentChange {
    if after.len() > before.len() {
        IndentChange::Indent
    } else if after.len() == before.len() {
        IndentChange::Unchanged
    } else {
        IndentChange::Dedent((before.len() - after.len()) as usize)
    }
}

/// The open indentation levels of a source, innermost last.
#[derive(Debug)]
pub struct IndentStack {
    levels: Vec<u64>,
}

impl View for IndentStack {
    type V = Seq<u64>;

    closed spec fn view(&self) -> Seq<u64> {
        self.levels@
    }
}

impl IndentStack {
    /// The levels start at 0 and grow strictly. Every stack made by `new`
    /// and changed only through its methods is well formed.
    pub open spec fn wf(&self) -> bool {
        stack_wf(self@)
    }

    /// The stack that holds the root level alone.
    pub fn new() -> (r: Self)
        ensures
            r.wf(),
            r@ == seq![0u64],
    {
        let mut levels: Vec<u64> = Vec::new();
        levels.push(0);
        let r = IndentStack { levels };
        assert(r@ =~= seq![0u64]);
        r
    }

    /// The current indentation width.
    pub fn top(&self) -> (r: u64)
        requires
            self.wf(),
        ensures
            r == self@.last(),
    {
        self.levels[self.levels.len() - 1]
    }

    /// The number of open levels, the root included.
    pub fn depth(&self) -> (r: usize)
        ensures
            r == self@.len(),
    {
        self.levels.len()
    }

    /// Moves the stack to a line of indentation `width` and says how it
    /// moved. A width below the top that is no open level is refused, and the
    /// stack then stays as it was.
    pub fn adjust(&mut self, width: u64) -> (r: Option<IndentChange>)
        requires
            old(self).wf(),
        ensures
            final(self).wf(),
            match spec_adjust(old(self)@, width) {
                Some(after) => final(self)@ == after && r == Some(spec_change(old(self)@, after)),
                None => final(self)@ == old(self)@ && r is None,
            },
            r matches Some(IndentChange::Dedent(closed)) ==> closed + final(self)@.len() == old(
                self,
            )@.len(),
    {
        let n = self.levels.len();
        let ghost before = self@;
        if width > self.levels[n - 1] {
            self.levels.push(width);
            return Some(IndentChange::Indent);
        }
        let mut k: usize = n;
        while self.levels[k - 1] > width
            invariant
                1 <= k <= n,
                n == self.levels.len(),
                self@ == before,
                stack_wf(before),
                forall|j: int| k <= j < n ==> before[j] > width,
            decreases k,
        {
            k -= 1;
        }
        if self.levels[k - 1] == width {
            proof {
                assert(before[k - 1] == width);
                assert(before.contains(width));
                let at = before.index_of(width);
                assert(before[at] == width);
                assert(at == k - 1);
            }
            self.levels.truncate(k);
            assert(self@ =~= before.take(k as int));
            if k == n {
                Some(IndentChange::Unchanged)
            } else {
                Some(IndentChange::Dedent(n - k))
            }
        } else {
            proof {
                assert forall|j: int| 0 <= j < n implies before[j] != width by {
                    if j < k - 1 {
                        assert(before[j] < before[k - 1]);
                    }
                }
            }
            None
        }
    }

    /// Closes every level but the root and returns how many were closed.
    pub fn close_all(&mut self) -> (closed: usize)
        requires
            old(self).wf(),
        ensures
            final(self).wf(),
            final(self)@ == seq![0u64],
            closed == old(self)@.len() - 1,
    {
        let n = self.levels.len();
        self.levels.truncate(1);
        assert(self@ =~= seq![0u64]);
        n - 1
    }
}

/// A line at a width that is below the top of the stack and is no open level
/// is refused; every other line is accepted.
pub proof fn lemma_adjust_refuses_unmatched_width(s: Seq<u64>, width: u64)
    requires
        stack_wf(s),
    ensures
        spec_adjust(s, width) is None <==> width < s.last() && !s.contains(width),
        spec_adjust(s, width) matches Some(after) ==> stack_wf(after) && after.last() == width,
{
    if width > s.last() {
        let after = s.push(width);
        assert forall|i: int, j: int| 0 <= i < j < after.len() implies after[i] < after[j] by {
            if j == s.len() {
                if i < s.len() - 1 {
                    assert(s[i] < s[s.len() - 1]);
                }
            }
        }
    } else if s.contains(width) {
        let at = s.index_of(width);
        assert(s[at] == width);
        assert(s.take(at + 1).last() == width);
    } else {
        assert(s[s.len() - 1] == s.last());
        assert(s.last() != width);
    }
}

} // verus!
