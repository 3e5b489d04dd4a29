//! Diagnostics: the queue they are gathered in and the result shape that
//! carries a value together with an optional complaint.

use proc_macro2::Span;
use std::collections::VecDeque;
use vstd::prelude::*;

verus! {

/// `proc_macro2::Span`: a source location. It is copied around and never
/// looked into.
#[verifier::external_type_specification]
#[verifier::external_body]
pub struct ExSpan(proc_macro2::Span);

/// `syn::Error`: one or more diagnostics combined into a single error.
#[verifier::external_type_specification]
#[verifier::external_body]
pub struct ExError(syn::Error);

/// What a `syn::Error` holds: its diagnostics in order, each the message
/// text paired with the location it was created at.
pub uninterp spec fn error_parts(e: syn::Error) -> Seq<(Seq<char>, Span)>;

/// The diagnostics of an optional error; none where there is no error.
pub open spec fn option_parts(e: Option<syn::Error>) -> Seq<(Seq<char>, Span)> {
    match e {
        Some(e) => error_parts(e),
        None => Seq::empty(),
    }
}

/// The diagnostics of a queue of errors, front to back.
pub open spec fn queue_parts(errors: Seq<syn::Error>) -> Seq<(Seq<char>, Span)>
    decreases errors.len(),
{
    if errors.len() == 0 {
        Seq::empty()
    } else {
        queue_parts(errors.drop_last()) + error_parts(errors.last())
    }
}

/// Whether `pieces` is `e` taken apart: one error per diagnostic of `e`, in
/// the same order.
pub open spec fn is_split_of(pieces: Seq<syn::Error>, e: syn::Error) -> bool {
    &&& pieces.len() == error_parts(e).len()
    &&& forall|i: int|
        0 <= i < pieces.len() ==> #[trigger] error_parts(pieces[i]) == seq![error_parts(e)[i]]
}

/// Calls `syn::Error::new`. Trusted: the new error holds exactly one
/// diagnostic, the given message at the given location.
#[verifier::external_body]
pub(crate) fn new_error(span: Span, message: String) -> (e: syn::Error)
    ensures
        error_parts(e) == seq![(message@, span)],
{
    syn::Error::new(span, message)
}

/// Calls `syn::Error::combine`. Trusted: the diagnostics of `another` are
/// appended, in order, behind those already in `first`.
#[verifier::external_body]
pub(crate) fn combine_errors(first: &mut syn::Error, another: syn::Error)
    ensures
        error_parts(*final(first)) == error_parts(*old(first)) + error_parts(another),
{
    first.combine(another)
}

/// Calls `syn::Error::into_iter`. Trusted: it yields one error per
/// diagnostic held, in order, each holding just that diagnostic; and it
/// yields at least one, since a `syn::Error` is only ever made with a
/// diagnostic in it and combining adds to what is there.
#[verifier::external_body]
pub(crate) fn split_error(e: syn::Error) -> (pieces: Vec<syn::Error>)
    ensures
        is_split_of(pieces@, e),
        pieces@.len() >= 1,
{
    e.into_iter().collect()
}

/// Whether every error of the queue holds exactly one diagnostic.
pub open spec fn single_pieces(errors: Seq<syn::Error>) -> bool {
    forall|i: int| 0 <= i < errors.len() ==> (#[trigger] error_parts(errors[i])).len() == 1
}

/// A queue of single diagnostics holds as many diagnostics as entries.
pub proof fn lemma_single_pieces_len(errors: Seq<syn::Error>)
    requires
        single_pieces(errors),
    ensures
        queue_parts(errors).len() == errors.len(),
    decreases errors.len(),
{
    if errors.len() > 0 {
        assert forall|i: int| 0 <= i < errors.drop_last().len() implies (#[trigger] error_parts(
            errors.drop_last()[i],
        )).len() == 1 by {
            assert(errors.drop_last()[i] == errors[i]);
        }
        lemma_single_pieces_len(errors.drop_last());
    }
}

/// A queue of one error holds that error's diagnostics.
pub proof fn lemma_queue_parts_one(e: syn::Error)
    ensures
        queue_parts(seq![e]) == error_parts(e),
{
    assert(seq![e].drop_last() =~= Seq::<syn::Error>::empty());
    assert(queue_parts(Seq::<syn::Error>::empty()) =~= Seq::empty());
    assert(queue_parts(seq![e]) =~= error_parts(e));
}

/// The diagnostics of two queues laid end to end are those of the first
/// followed by those of the second.
pub proof fn lemma_queue_parts_concat(a: Seq<syn::Error>, b: Seq<syn::Error>)
    ensures
        queue_parts(a + b) == queue_parts(a) + queue_parts(b),
    decreases b.len(),
{
    if b.len() == 0 {
        assert(a + b =~= a);
        assert(queue_parts(a) + queue_parts(b) =~= queue_parts(a));
    } else {
        lemma_queue_parts_concat(a, b.drop_last());
        assert((a + b).drop_last() =~= a + b.drop_last());
        assert((a + b).last() == b.last());
        assert(queue_parts(a + b) =~= queue_parts(a) + queue_parts(b));
    }
}

/// A queue of single-diagnostic pieces split from `e` holds the diagnostics
/// of `e`.
pub proof fn lemma_queue_parts_split(pieces: Seq<syn::Error>, e: syn::Error)
    requires
        is_split_of(pieces, e),
    ensures
        queue_parts(pieces) == error_parts(e),
{
    lemma_queue_parts_prefix(pieces, e, pieces.len() as int);
    assert(pieces.take(pieces.len() as int) =~= pieces);
    assert(error_parts(e).take(pieces.len() as int) =~= error_parts(e));
}

proof fn lemma_queue_parts_prefix(pieces: Seq<syn::Error>, e: syn::Error, n: int)
    requires
        is_split_of(pieces, e),
        0 <= n <= pieces.len(),
    ensures
        queue_parts(pieces.take(n)) == error_parts(e).take(n),
    decreases n,
{
    if n == 0 {
        assert(error_parts(e).take(0) =~= Seq::empty());
    } else {
        lemma_queue_parts_prefix(pieces, e, n - 1);
        assert(pieces.take(n).drop_last() =~= pieces.take(n - 1));
        assert(pieces.take(n).last() == pieces[n - 1]);
        assert(error_parts(e).take(n) =~= error_parts(e).take(n - 1) + seq![error_parts(e)[n - 1]]);
    }
}

/// A best-effort value together with the error met while producing it, if
/// any. The value is there either way.
#[derive(Debug)]
pub struct OkMaybe<T, E>(pub T, pub Option<E>);

impl<T, E> OkMaybe<T, E> {
    /// Strict reading: the error if there is one, the value otherwise.
    pub fn to_result(self) -> (r: Result<T, E>)
        ensures
            r == match self.1 {
                Some(e) => Err::<T, E>(e),
                None => Ok::<T, E>(self.0),
            },
    {
        let OkMaybe(ok, maybe) = self;
        if let Some(e) = maybe {
            Err(e)
        } else {
            Ok(ok)
        }
    }
}

impl<T> OkMaybe<T, syn::Error> {
    /// Hands the error, if any, to `push_to` and returns the value.
    pub fn push_unwrap(self, push_to: &mut MaybeError) -> (value: T)
        ensures
            value == self.0,
            match self.1 {
                Some(e) => final(push_to).is_extension_by(*old(push_to), e) && final(push_to)@.len()
                    > old(push_to)@.len(),
                None => *final(push_to) == *old(push_to),
            },
            final(push_to).diagnostics() == old(push_to).diagnostics() + option_parts(self.1),
    {
        let OkMaybe(ok, maybe) = self;
        if let Some(e) = maybe {
            push_to.push_back(e);
        }
        ok
    }
}

/// Zero or more errors, queued in the order in which they are to be
/// reported.
#[derive(Debug, Clone)]
pub struct MaybeError(pub VecDeque<syn::Error>);

impl std::ops::Deref for MaybeError {
    type Target = VecDeque<syn::Error>;

    fn deref(&self) -> (queue: &VecDeque<syn::Error>)
        ensures
            queue@ == self@,
    {
        &self.0
    }
}

impl std::ops::DerefMut for MaybeError {
    fn deref_mut(&mut self) -> (queue: &mut VecDeque<syn::Error>)
        ensures
            *queue == old(self).0,
            final(self).0 == *final(queue),
    {
        &mut self.0
    }
}

impl Default for MaybeError {
    fn default() -> (r: Self)
        ensures
            r@ == Seq::<syn::Error>::empty(),
    {
        MaybeError(VecDeque::new())
    }
}

impl View for MaybeError {
    type V = Seq<syn::Error>;

    open spec fn view(&self) -> Seq<syn::Error> {
        self.0@
    }
}

impl MaybeError {
    /// Every diagnostic queued, front to back.
    pub open spec fn diagnostics(&self) -> Seq<(Seq<char>, Span)> {
        queue_parts(self@)
    }

    /// Whether this queue is `before` with the pieces of `e` queued behind
    /// it.
    pub open spec fn is_extension_by(&self, before: MaybeError, e: syn::Error) -> bool {
        &&& self@.len() == before@.len() + error_parts(e).len()
        &&& self@.take(before@.len() as int) == before@
        &&& is_split_of(self@.skip(before@.len() as int), e)
    }

    /// An empty queue.
    pub fn new() -> (r: Self)
        ensures
            r@ == Seq::<syn::Error>::empty(),
    {
        Self::default()
    }

    /// A queue holding the diagnostics of `error`, one entry each.
    pub fn from(error: syn::Error) -> (r: Self)
        ensures
            is_split_of(r@, error),
            r.diagnostics() == error_parts(error),
            r@.len() >= 1,
    {
        let mut r = MaybeError::new();
        r.push_back(error);
        proof {
            assert(r@.skip(0) =~= r@);
        }
        r
    }

    /// Everything queued as one error, in queue order; `None` where nothing
    /// is queued.
    pub fn maybe(self) -> (r: Option<syn::Error>)
        ensures
            r is None <==> self@.len() == 0,
            option_parts(r) == self.diagnostics(),
    {
        let mut errors = self.0;
        let ghost all = errors@;
        if errors.len() == 0 {
            return None;
        }
        let mut error = errors.pop_front().unwrap();
        let ghost mut done: int = 1;
        proof {
            lemma_queue_parts_one(error);
            assert(all.take(1) =~= seq![error]);
            assert(all.subrange(1, all.len() as int) =~= all.skip(1));
        }
        while errors.len() > 0
            invariant
                1 <= done <= all.len(),
                errors@ == all.skip(done),
                error_parts(error) == queue_parts(all.take(done)),
            decreases all.len() - done,
        {
            let e = errors.pop_front().unwrap();
            combine_errors(&mut error, e);
            proof {
                assert(all.take(done + 1).drop_last() =~= all.take(done));
                assert(all.skip(done).subrange(1, all.len() - done) =~= all.skip(done + 1));
                done = done + 1;
            }
        }
        proof {
            assert(all.take(done) =~= all);
        }
        Some(error)
    }

    /// Whether anything is queued.
    pub fn has_err(&self) -> (b: bool)
        ensures
            b == (self@.len() > 0),
    {
        self.0.len() > 0
    }

    /// Queues the diagnostics of `error` at the back, one entry each.
    pub fn push_back(&mut self, error: syn::Error)
        ensures
            final(self).is_extension_by(*old(self), error),
            final(self).diagnostics() == old(self).diagnostics() + error_parts(error),
            final(self)@.len() > old(self)@.len(),
            single_pieces(old(self)@) ==> single_pieces(final(self)@),
    {
        let ghost before = self@;
        let mut pieces = split_error(error);
        let ghost all = pieces@;
        let mut rest: VecDeque<syn::Error> = VecDeque::new();
        // The pieces leave `pieces` last first; `rest` takes each at its front.
        while pieces.len() > 0
            invariant
                pieces@.len() <= all.len(),
                pieces@ == all.take(pieces@.len() as int),
                rest@ == all.skip(pieces@.len() as int),
            decreases pieces@.len(),
        {
            let e = pieces.pop().unwrap();
            rest.push_front(e);
            proof {
                assert(rest@ =~= all.skip(pieces@.len() as int));
                assert(pieces@ =~= all.take(pieces@.len() as int));
            }
        }
        self.0.append(&mut rest);
        proof {
            assert(all.skip(0) =~= all);
            assert(self@ =~= before + all);
            assert(self@.take(before.len() as int) =~= before);
            assert(self@.skip(before.len() as int) =~= all);
            lemma_queue_parts_concat(before, all);
            lemma_queue_parts_split(all, error);
            if single_pieces(before) {
                assert forall|i: int| 0 <= i < self@.len() implies (#[trigger] error_parts(
                    self@[i],
                )).len() == 1 by {
                    if i < before.len() {
                        assert(self@[i] == before[i]);
                    } else {
                        assert(self@[i] == all[i - before.len()]);
                    }
                }
            }
        }
    }

    /// Queues `error` whole, ahead of everything already queued.
    pub fn push_front(&mut self, error: syn::Error)
        ensures
            final(self)@ == seq![error] + old(self)@,
            final(self).diagnostics() == error_parts(error) + old(self).diagnostics(),
            single_pieces(old(self)@) && error_parts(error).len() == 1 ==> single_pieces(
                final(self)@,
            ),
    {
        let ghost before = self@;
        self.0.push_front(error);
        proof {
            lemma_queue_parts_concat(seq![error], before);
            lemma_queue_parts_one(error);
        }
    }
}

} // verus!
