//! The handler of a range query, with the record of every call made to it.
use vstd::prelude::*;

verus! {

/// Hands keys and their data to a handler and records each call with the
/// handler's answer. Only `visit` calls the handler, so the record is the
/// list of calls that were made.
pub struct RangeVisitor<F> {
    handler: F,
    calls: Ghost<Seq<(u64, bool)>>,
}

impl<F> RangeVisitor<F> {
    /// The handler.
    pub closed spec fn handler(&self) -> F {
        self.handler
    }

    /// The keys handed to the handler so far, in order, with its answers.
    pub closed spec fn calls(&self) -> Seq<(u64, bool)> {
        self.calls@
    }

    /// A visitor of `handler` that has made no call yet.
    pub fn new(handler: F) -> (r: Self)
        ensures
            r.handler() == handler,
            r.calls() == Seq::<(u64, bool)>::empty(),
    {
        RangeVisitor { handler, calls: Ghost(Seq::empty()) }
    }

    /// The handler back.
    pub fn into_handler(self) -> (f: F)
        ensures
            f == self.handler(),
    {
        self.handler
    }

    /// Hands `key` and `value` to the handler and records the call.
    pub(crate) fn visit<T>(&mut self, key: &u64, value: &T) -> (r: bool) where
        F: FnMut(&u64, &T) -> bool,

        requires
            call_requires(old(self).handler(), (key, value)),
        ensures
            final(self).handler() == old(self).handler(),
            final(self).calls() == old(self).calls().push((*key, r)),
            call_ensures(old(self).handler(), (key, value), r),
    {
        let r = (self.handler)(key, value);
        self.calls = Ghost(self.calls@.push((*key, r)));
        r
    }
}

} // verus!
