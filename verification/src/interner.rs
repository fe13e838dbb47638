use string_interner::backend::StringBackend;
use string_interner::symbol::SymbolU32;
use string_interner::StringInterner;
use vstd::prelude::*;

verus! {

pub type SymbolIndex = u32;

/// A dense handle for an interned string: the position at which the string
/// was first seen by the interner that produced it.
#[derive(Clone, Copy, Debug, Hash, PartialEq, Eq, PartialOrd, Ord, Structural)]
pub struct Symbol(pub SymbolIndex);

/// No interner takes more distinct strings than this.
pub const SYMBOL_CAPACITY: u32 = 4294967167u32;

/// Raised when the symbol space of an interner is used up.
#[derive(Clone, Copy, Debug, PartialEq, Eq, Structural)]
pub struct InternerCapacityError;

/// The string pool of the `string_interner` crate. Verus does not look inside.
#[verifier::external_body]
#[derive(Debug, PartialEq, Eq)]
pub struct StringPool {
    inner: StringInterner<StringBackend<SymbolU32>>,
}

/// The strings that a pool holds, in the order in which they were first interned.
pub uninterp spec fn pool_strings(pool: StringPool) -> Seq<Seq<char>>;

/// `StringInterner::new`: the fresh pool holds no string.
#[verifier::external_body]
fn pool_new() -> (pool: StringPool)
    ensures
        pool_strings(pool).len() == 0,
{
    StringPool { inner: StringInterner::new() }
}

/// `StringInterner::len`: the number of strings held.
#[verifier::external_body]
fn pool_len(pool: &StringPool) -> (n: usize)
    ensures
        n == pool_strings(*pool).len(),
{
    pool.inner.len()
}

/// `StringInterner::get_or_intern`: a string that the pool already holds keeps
/// its position and leaves the pool as it was; a new string is appended and
/// gets the next position. The crate panics when its 32-bit symbols run out,
/// so the pool must hold fewer than `u32::MAX` strings.
#[verifier::external_body]
fn pool_get_or_intern(pool: &mut StringPool, s: &str) -> (id: u32)
    requires
        pool_strings(*old(pool)).len() < u32::MAX,
    ensures
        id < pool_strings(*final(pool)).len(),
        pool_strings(*final(pool))[id as int] == s@,
        pool_strings(*old(pool)).contains(s@) ==> pool_strings(*final(pool)) == pool_strings(*old(pool)),
        !pool_strings(*old(pool)).contains(s@) ==> pool_strings(*final(pool)) == pool_strings(*old(pool)).push(s@),
        !pool_strings(*old(pool)).contains(s@) ==> id == pool_strings(*old(pool)).len(),
{
    string_interner::Symbol::to_usize(pool.inner.get_or_intern(s)) as u32
}

/// `StringInterner::clone`: the copy holds the same strings at the same
/// positions.
#[verifier::external_body]
fn pool_clone(pool: &StringPool) -> (copy: StringPool)
    ensures
        pool_strings(copy) == pool_strings(*pool),
{
    StringPool { inner: pool.inner.clone() }
}

/// `StringInterner::get`: the position of `s` in the pool, if the pool holds
/// `s`. The pool stays as it is.
#[verifier::external_body]
fn pool_get(pool: &StringPool, s: &str) -> (found: Option<u32>)
    ensures
        found is Some <==> pool_strings(*pool).contains(s@),
        found matches Some(id) ==> id < pool_strings(*pool).len(),
        found matches Some(id) ==> pool_strings(*pool)[id as int] == s@,
{
    Some(string_interner::Symbol::to_usize(pool.inner.get(s)?) as u32)
}

/// `StringInterner::resolve`, reached through `SymbolU32::try_from_usize`:
/// the string at position `id`, or nothing when the pool holds no such position.
#[verifier::external_body]
fn pool_resolve<'a>(pool: &'a StringPool, id: u32) -> (found: Option<&'a str>)
    ensures
        found is Some <==> id < pool_strings(*pool).len(),
        found matches Some(s) ==> s@ == pool_strings(*pool)[id as int],
{
    pool.inner.resolve(<SymbolU32 as string_interner::Symbol>::try_from_usize(id as usize)?)
}

/// What interning `s` does to the strings held: the strings afterwards and
/// the position of `s` among them.
pub open spec fn spec_intern(pool: Seq<Seq<char>>, s: Seq<char>) -> (Seq<Seq<char>>, nat) {
    if pool.contains(s) {
        (pool, pool.index_of(s) as nat)
    } else {
        (pool.push(s), pool.len())
    }
}

/// The mathematical value of an interner: the strings that it holds, in the
/// order in which they were first seen, and the number of strings at which it
/// takes no more work.
pub struct InternerView {
    pub strings: Seq<Seq<char>>,
    pub limit: nat,
}

impl InternerView {
    /// Every held string occurs once, no more strings are held than the
    /// limit allows, and the limit leaves room in the 32-bit symbols.
    pub open spec fn wf(self) -> bool {
        &&& self.strings.no_duplicates()
        &&& self.strings.len() <= self.limit
        &&& self.limit <= SYMBOL_CAPACITY
    }

    /// Whether the symbol space is used up: a new string would exceed it.
    pub open spec fn is_full(self) -> bool {
        self.strings.len() >= self.limit
    }

    /// Whether `s` can be interned: it is held already, or there is room
    /// for a new string.
    pub open spec fn accepts(self, s: Seq<char>) -> bool {
        self.strings.contains(s) || !self.is_full()
    }

    /// Interning `s`: the interner afterwards and the symbol of `s`.
    pub open spec fn intern(self, s: Seq<char>) -> (InternerView, Symbol) {
        (
            InternerView { strings: spec_intern(self.strings, s).0, ..self },
            Symbol(spec_intern(self.strings, s).1 as u32),
        )
    }

    /// Interning under the capacity guard: a string that is held gives its
    /// symbol, also when the interner is full; a new string is interned
    /// where there is room, and else gives no symbol and changes nothing.
    pub open spec fn try_intern(self, s: Seq<char>) -> (InternerView, Option<Symbol>) {
        if self.accepts(s) {
            (self.intern(s).0, Some(self.intern(s).1))
        } else {
            (self, None)
        }
    }
}

/// A table of strings, each held once, that hands out dense symbols in
/// first-seen order starting at 0.
#[derive(Debug, PartialEq, Eq)]
pub struct Interner {
    pool: StringPool,
    limit: u32,
}

impl View for Interner {
    type V = InternerView;

    closed spec fn view(&self) -> InternerView {
        InternerView { strings: pool_strings(self.pool), limit: self.limit as nat }
    }
}

impl Clone for Interner {
    /// An interner of its own that holds the same strings under the same
    /// symbols.
    fn clone(&self) -> (r: Self)
        ensures
            r@ == self@,
    {
        Interner { pool: pool_clone(&self.pool), limit: self.limit }
    }
}

impl Interner {
    /// Each interner made by `new` or `with_symbol_limit` and changed only
    /// through its methods is well formed.
    pub open spec fn wf(&self) -> bool {
        self@.wf()
    }

    /// Whether `sym` was handed out by this interner.
    pub open spec fn has_symbol(&self, sym: Symbol) -> bool {
        sym.0 < self@.strings.len()
    }

    /// An interner that holds no string yet and takes `SYMBOL_CAPACITY` of them.
    pub fn new() -> (r: Self)
        ensures
            r.wf(),
            r@ == (InternerView { strings: Seq::empty(), limit: SYMBOL_CAPACITY as nat }),
    {
        let r = Interner { pool: pool_new(), limit: SYMBOL_CAPACITY };
        assert(r@.strings =~= Seq::<Seq<char>>::empty());
        r
    }

    /// An interner that holds no string yet and takes `limit` of them, or
    /// `SYMBOL_CAPACITY` if that is less.
    pub fn with_symbol_limit(limit: u32) -> (r: Self)
        ensures
            r.wf(),
            r@ == (InternerView {
                strings: Seq::empty(),
                limit: if limit <= SYMBOL_CAPACITY {
                    limit as nat
                } else {
                    SYMBOL_CAPACITY as nat
                },
            }),
    {
        let limit = if limit <= SYMBOL_CAPACITY {
            limit
        } else {
            SYMBOL_CAPACITY
        };
        let r = Interner { pool: pool_new(), limit };
        assert(r@.strings =~= Seq::<Seq<char>>::empty());
        r
    }

    /// The number of distinct strings interned so far.
    pub fn count(&self) -> (n: usize)
        ensures
            n == self@.strings.len(),
    {
        pool_len(&self.pool)
    }

    /// The number of strings at which this interner takes no more work.
    pub fn symbol_limit(&self) -> (n: u32)
        ensures
            n == self@.limit,
    {
        self.limit
    }

    /// Returns the symbol of `s`, interning it first when it is new. For a
    /// new string the symbol space must not be used up: `try_intern` tests
    /// that.
    pub fn intern_or_get(&mut self, s: &str) -> (sym: Symbol)
        requires
            old(self).wf(),
            old(self)@.accepts(s@),
        ensures
            final(self).wf(),
            (final(self)@, sym) == old(self)@.intern(s@),
    {
        let ghost before = self@.strings;
        let id = pool_get_or_intern(&mut self.pool, s);
        proof {
            let now = self@.strings;
            if before.contains(s@) {
                assert(before[before.index_of(s@)] == s@);
            } else {
                assert forall|i: int, j: int|
                    0 <= i < now.len() && 0 <= j < now.len() && i != j implies now[i] != now[j] by {
                    if i < before.len() {
                        assert(before.contains(now[i]));
                    }
                    if j < before.len() {
                        assert(before.contains(now[j]));
                    }
                }
            }
        }
        Symbol(id)
    }

    /// As `intern_or_get`, but reports a new string that finds the symbol
    /// space used up as an error, and then leaves the interner as it was.
    pub fn try_intern(&mut self, s: &str) -> (r: Result<Symbol, InternerCapacityError>)
        requires
            old(self).wf(),
        ensures
            final(self).wf(),
            (final(self)@, r.ok()) == old(self)@.try_intern(s@),
    {
        if self.count() < self.limit as usize {
            Ok(self.intern_or_get(s))
        } else {
            match pool_get(&self.pool, s) {
                Some(id) => {
                    proof {
                        let held = self@.strings;
                        assert(held[held.index_of(s@)] == s@);
                    }
                    Ok(Symbol(id))
                },
                None => Err(InternerCapacityError),
            }
        }
    }

    /// The string that `sym` stands for. The symbol must come from this
    /// interner: `get` takes any symbol.
    pub fn resolve(&self, sym: Symbol) -> (r: Option<&str>)
        requires
            self.has_symbol(sym),
        ensures
            r is Some,
            r matches Some(s) ==> s@ == self@.strings[sym.0 as int],
    {
        pool_resolve(&self.pool, sym.0)
    }

    /// The string at `sym`, if this interner holds that many strings.
    pub fn get(&self, sym: Symbol) -> (r: Option<&str>)
        ensures
            r is Some <==> self.has_symbol(sym),
            r matches Some(s) ==> s@ == self@.strings[sym.0 as int],
    {
        pool_resolve(&self.pool, sym.0)
    }
}

/// Interning returns a symbol that stands for the interned string, and
/// interning the same string again returns the same symbol and adds nothing.
pub proof fn lemma_intern_resolves_and_repeats(pool: Seq<Seq<char>>, s: Seq<char>)
    requires
        pool.no_duplicates(),
    ensures
        ({
            let (pool1, first) = spec_intern(pool, s);
            let (pool2, second) = spec_intern(pool1, s);
            &&& first < pool1.len()
            &&& pool1[first as int] == s
            &&& pool1.no_duplicates()
            &&& second == first
            &&& pool2 == pool1
        }),
{
    let (pool1, first) = spec_intern(pool, s);
    if pool.contains(s) {
        assert(pool[pool.index_of(s)] == s);
    } else {
        assert(pool1[pool.len() as int] == s);
        assert forall|i: int, j: int|
            0 <= i < pool1.len() && 0 <= j < pool1.len() && i != j implies pool1[i] != pool1[j] by {
            if i < pool.len() {
                assert(pool.contains(pool1[i]));
            }
            if j < pool.len() {
                assert(pool.contains(pool1[j]));
            }
        }
    }
    assert(pool1.contains(s));
    assert(pool1[pool1.index_of(s)] == s);
}

/// Interning only ever appends: every symbol handed out before stands for
/// the same string afterwards, and two different strings never share a symbol.
pub proof fn lemma_interning_keeps_symbols(pool: Seq<Seq<char>>, s: Seq<char>, t: Seq<char>)
    requires
        pool.no_duplicates(),
    ensures
        ({
            let (pool1, first) = spec_intern(pool, s);
            let (pool2, second) = spec_intern(pool1, t);
            &&& pool.len() <= pool1.len() <= pool.len() + 1
            &&& forall|i: int| 0 <= i < pool.len() ==> pool1[i] == pool[i]
            &&& pool2[first as int] == s
            &&& s != t ==> first != second
        }),
{
    lemma_intern_resolves_and_repeats(pool, s);
    let (pool1, first) = spec_intern(pool, s);
    lemma_intern_resolves_and_repeats(pool1, t);
}

} // verus!
