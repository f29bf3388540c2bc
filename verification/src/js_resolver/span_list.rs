//! The places of one import edge: a short list of spans that is kept in
//! line while it holds one span, which is what most edges have.
use crate::js_resolver::parse_imports::Span;
use vstd::prelude::*;

verus! {

/// The places of one import edge, in a `smallvec::SmallVec` with room for
/// one span in line.
#[verifier::external_body]
pub struct SpanList {
    inner: smallvec::SmallVec<[Span; 1]>,
}

/// The spans that the list holds, in the order they were appended.
pub uninterp spec fn span_list_items(list: SpanList) -> Seq<Span>;

impl View for SpanList {
    type V = Seq<Span>;

    open spec fn view(&self) -> Seq<Span> {
        span_list_items(*self)
    }
}

/// `smallvec::SmallVec::new`: a list without spans.
#[verifier::external_body]
fn span_list_new() -> (list: SpanList)
    ensures
        span_list_items(list) == Seq::<Span>::empty(),
{
    SpanList { inner: smallvec::SmallVec::new() }
}

/// `smallvec::SmallVec::push`: appends `span` behind the spans that are
/// there.
#[verifier::external_body]
fn span_list_push(list: &mut SpanList, span: Span)
    ensures
        span_list_items(*final(list)) == span_list_items(*old(list)).push(span),
{
    list.inner.push(span)
}

/// `smallvec::SmallVec::len`: how many spans the list holds.
#[verifier::external_body]
fn span_list_len(list: &SpanList) -> (n: usize)
    ensures
        n == span_list_items(*list).len(),
{
    list.inner.len()
}

/// `smallvec::SmallVec::as_slice`: the spans in their order, copied out.
#[verifier::external_body]
fn span_list_as_slice(list: &SpanList) -> (r: Vec<Span>)
    ensures
        r@ == span_list_items(*list),
{
    list.inner.as_slice().to_vec()
}

impl SpanList {
    /// A list without spans.
    pub fn new() -> (list: Self)
        ensures
            list@ == Seq::<Span>::empty(),
    {
        span_list_new()
    }

    /// Appends `span`.
    pub fn push(&mut self, span: Span)
        ensures
            final(self)@ == old(self)@.push(span),
    {
        span_list_push(self, span)
    }

    /// How many spans the list holds.
    pub fn len(&self) -> (n: usize)
        ensures
            n == self@.len(),
    {
        span_list_len(self)
    }

    /// The spans in their order.
    pub fn to_vec(&self) -> (r: Vec<Span>)
        ensures
            r@ == self@,
    {
        span_list_as_slice(self)
    }
}

} // verus!
