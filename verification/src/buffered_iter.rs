use vstd::prelude::*;
use vstd::std_specs::iter::IteratorSpec;

verus! {

/// What putting `value` back does to a single slot that holds `pending`: an
/// empty slot takes the value; a full slot keeps what it holds and the value
/// comes back as the error.
pub open spec fn spec_try_put_back<X>(pending: Option<X>, value: X) -> (Option<X>, Result<(), X>) {
    match pending {
        Some(_) => (pending, Err(value)),
        None => (Some(value), Ok(())),
    }
}

/// What putting back a value that may be missing does to a single slot:
/// a value takes an empty slot; a full slot keeps what it holds, and nothing
/// cannot be put back. Whatever was not put back comes back as the error.
pub open spec fn spec_try_put_back_option<X>(pending: Option<X>, value: Option<X>) -> (
    Option<X>,
    Result<(), Option<X>>,
) {
    match (pending, value) {
        (None, Some(v)) => (Some(v), Ok(())),
        _ => (pending, Err(value)),
    }
}

/// A producer with one slot of look-back: one item can be put back, and it
/// is the next to come out.
pub struct SingleBufferIter<T: Iterator> {
    inner: T,
    buffer: Option<T::Item>,
}

impl<T: Iterator> SingleBufferIter<T> {
    /// The producer underneath.
    pub closed spec fn source(&self) -> T {
        self.inner
    }

    /// The item that was put back and not yet taken, if there is one.
    pub closed spec fn pending(&self) -> Option<T::Item> {
        self.buffer
    }

    /// Wraps `inner`, with nothing put back.
    pub fn new(inner: T) -> (r: Self)
        ensures
            r.source() == inner,
            r.pending() is None,
    {
        Self { inner, buffer: None }
    }

    /// Puts `value` back. This fails while an item is already waiting, a
    /// conflict of look-aheads: the value is then handed back unchanged and
    /// the waiting item stays.
    pub fn try_put_back(&mut self, value: T::Item) -> (r: Result<(), T::Item>)
        ensures
            final(self).source() == old(self).source(),
            (final(self).pending(), r) == spec_try_put_back(old(self).pending(), value),
    {
        match self.buffer.is_some() {
            true => Err(value),
            false => {
                self.buffer = Some(value);
                Ok(())
            },
        }
    }

    /// Puts the value of `opt_value` back. This fails, handing `opt_value`
    /// back unchanged, when it holds no value and when an item is already
    /// waiting; the waiting item stays.
    pub fn try_put_back_option(&mut self, opt_value: Option<T::Item>) -> (r: Result<
        (),
        Option<T::Item>,
    >)
        ensures
            final(self).source() == old(self).source(),
            (final(self).pending(), r) == spec_try_put_back_option(old(self).pending(), opt_value),
    {
        if self.buffer.is_some() {
            return Err(opt_value);
        }
        match opt_value {
            Some(value) => {
                self.buffer = Some(value);
                Ok(())
            },
            None => Err(None),
        }
    }

    /// The next item: the one that was put back, if there is one, else the
    /// next of the producer.
    pub fn next(&mut self) -> (r: Option<T::Item>)
        ensures
            final(self).pending() is None,
            old(self).pending() is Some ==> r == old(self).pending() && final(self).source() == old(
                self,
            ).source(),
            final(self).source().obeys_prophetic_iter_laws() == old(
                self,
            ).source().obeys_prophetic_iter_laws(),
            old(self).pending() is None && final(self).source().obeys_prophetic_iter_laws() ==> (
            if old(self).source().remaining().len() > 0 {
                &&& final(self).source().remaining() == old(self).source().remaining().drop_first()
                &&& r == Some(old(self).source().remaining()[0])
            } else {
                &&& final(self).source().remaining() == old(self).source().remaining()
                &&& r is None
            }),
    {
        match self.buffer.take() {
            Some(v) => Some(v),
            None => self.inner.next(),
        }
    }
}

/// A second put-back without a take in between is refused: the second value
/// comes back, and the first stays the one that waits.
pub proof fn lemma_second_put_back_refused<X>(first: X, second: X)
    ensures
        ({
            let (slot1, r1) = spec_try_put_back(None::<X>, first);
            let (slot2, r2) = spec_try_put_back(slot1, second);
            let (slot3, r3) = spec_try_put_back_option(slot1, Some(second));
            &&& r1 is Ok
            &&& r2 == Err::<(), X>(second)
            &&& slot2 == Some(first)
            &&& r3 == Err::<(), Option<X>>(Some(second))
            &&& slot3 == Some(first)
        }),
{
}

/// A producer with a backlog of look-back: any number of items can be put
/// back, and they come out again last in, first out, before the producer is
/// asked for more.
pub struct MultiBufferIter<T: Iterator> {
    inner: T,
    buffer: Vec<T::Item>,
}

impl<T: Iterator> MultiBufferIter<T> {
    /// The producer underneath.
    pub closed spec fn source(&self) -> T {
        self.inner
    }

    /// The items that were put back and not yet taken; the last is the next to come out.
    pub closed spec fn backlog(&self) -> Seq<T::Item> {
        self.buffer@
    }

    /// Wraps `inner`, with nothing put back.
    pub fn new(inner: T) -> (r: Self)
        ensures
            r.source() == inner,
            r.backlog() == Seq::<T::Item>::empty(),
    {
        Self { inner, buffer: Vec::new() }
    }

    pub fn put_back(&mut self, value: T::Item)
        ensures
            final(self).source() == old(self).source(),
            final(self).backlog() == old(self).backlog().push(value),
    {
        self.buffer.push(value);
    }

    /// Puts the value of `opt_value` back, if there is one.
    pub fn put_back_opt(&mut self, opt_value: Option<T::Item>)
        ensures
            final(self).source() == old(self).source(),
            final(self).backlog() == match opt_value {
                Some(v) => old(self).backlog().push(v),
                None => old(self).backlog(),
            },
    {
        if let Some(v) = opt_value {
            self.put_back(v)
        }
    }

    /// The next item: the one put back last, if any waits, else the next of
    /// the producer.
    pub fn next(&mut self) -> (r: Option<T::Item>)
        ensures
            old(self).backlog().len() > 0 ==> r == Some(old(self).backlog().last())
                && final(self).backlog() == old(self).backlog().drop_last() && final(self).source()
                == old(self).source(),
            old(self).backlog().len() == 0 ==> final(self).backlog() == old(self).backlog(),
            final(self).source().obeys_prophetic_iter_laws() == old(
                self,
            ).source().obeys_prophetic_iter_laws(),
            old(self).backlog().len() == 0 && final(self).source().obeys_prophetic_iter_laws() ==> (
            if old(self).source().remaining().len() > 0 {
                &&& final(self).source().remaining() == old(self).source().remaining().drop_first()
                &&& r == Some(old(self).source().remaining()[0])
            } else {
                &&& final(self).source().remaining() == old(self).source().remaining()
                &&& r is None
            }),
    {
        match self.buffer.pop() {
            Some(v) => Some(v),
            None => self.inner.next(),
        }
    }
}

} // verus!
