use crate::span::Span;
use vstd::prelude::*;

verus! {

/// Located data: a value together with the span where it lies in a source
/// text, as for the nodes of a syntax tree.
#[derive(Clone)]
pub struct Loc<T> {
    span: Span,
    value: T,
}

impl<T> Loc<T> {
    pub closed spec fn spec_span(&self) -> Span {
        self.span
    }

    pub closed spec fn spec_value(&self) -> T {
        self.value
    }

    /// Associate a span location to a value.
    pub fn new(t: T, span: Span) -> (r: Loc<T>)
        ensures
            r.spec_value() == t,
            r.spec_span() == span,
    {
        Loc { span, value: t }
    }

    /// Get the span location of the value.
    pub fn span(&self) -> (r: Span)
        ensures
            r == self.spec_span(),
    {
        self.span
    }

    /// Map the value with the given function, keeping the span.
    pub fn map<U, F: FnOnce(T) -> U>(self, f: F) -> (r: Loc<U>)
        requires
            f.requires((self.spec_value(),)),
        ensures
            r.spec_span() == self.spec_span(),
            f.ensures((self.spec_value(),), r.spec_value()),
    {
        Loc { span: self.span, value: f(self.value) }
    }

    /// Convert the value, keeping the span.
    pub fn inner_into<U>(self) -> (r: Loc<U>) where T: Into<U>
        ensures
            r.spec_span() == self.spec_span(),
            call_ensures(T::into, (self.spec_value(),), r.spec_value()),
    {
        Loc { span: self.span, value: self.value.into() }
    }

    /// Map the value with the given fallible function, keeping the span; its
    /// error is returned as it is.
    pub fn try_map<U, E, F: FnOnce(T) -> Result<U, E>>(self, f: F) -> (r: Result<Loc<U>, E>)
        requires
            f.requires((self.spec_value(),)),
        ensures
            r matches Ok(l) ==> l.spec_span() == self.spec_span() && f.ensures((self.spec_value(),), Ok(l.spec_value())),
            r matches Err(e) ==> f.ensures((self.spec_value(),), Err(e)),
    {
        match f(self.value) {
            Ok(value) => Ok(Loc { span: self.span, value }),
            Err(e) => Err(e),
        }
    }

    /// Try to convert the value, keeping the span; the conversion error is
    /// returned as it is.
    pub fn inner_try_into<U>(self) -> (r: Result<Loc<U>, <T as TryInto<U>>::Error>) where T: TryInto<U>
        ensures
            r matches Ok(l) ==> l.spec_span() == self.spec_span() && call_ensures(
                T::try_into,
                (self.spec_value(),),
                Ok(l.spec_value()),
            ),
            r matches Err(e) ==> call_ensures(T::try_into, (self.spec_value(),), Err(e)),
    {
        match self.value.try_into() {
            Ok(value) => Ok(Loc { span: self.span, value }),
            Err(e) => Err(e),
        }
    }

    /// Unwrap the value.
    pub fn into_inner(self) -> (r: T)
        ensures
            r == self.spec_value(),
    {
        self.value
    }

    /// Break the wrapper into the value and its location.
    pub fn into_raw_parts(self) -> (r: (T, Span))
        ensures
            r == (self.spec_value(), self.spec_span()),
    {
        (self.value, self.span)
    }

    /// Borrow the value.
    pub fn as_ref(&self) -> (r: &T)
        ensures
            *r == self.spec_value(),
    {
        &self.value
    }
}

impl<T> Loc<Option<T>> {
    /// Turn an optional located value into a located optional value: a
    /// missing value is located at `span`.
    pub fn transposed(t: Option<Loc<T>>, span: Span) -> (r: Loc<Option<T>>)
        ensures
            t matches Some(l) ==> r.spec_span() == l.spec_span() && r.spec_value() == Some(l.spec_value()),
            t is None ==> r.spec_span() == span && r.spec_value() is None,
    {
        match t {
            Some(l) => Loc { span: l.span, value: Some(l.value) },
            None => Loc { span, value: None },
        }
    }
}

} // verus!
