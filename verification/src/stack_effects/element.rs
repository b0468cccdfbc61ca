//! The elements of effects and references to them.
use vstd::prelude::*;
use crate::errors::Error;
use crate::text::copy_chars;

verus! {

/// A reference to an element: its index among the elements of a
/// scratchpad.
#[derive(Debug, Clone, Copy, PartialEq, Eq, Structural)]
pub struct ElementRef(pub usize);

/// The identity of an element, for maps keyed by element.
#[derive(Debug, Clone, Copy, PartialEq, Eq, Structural)]
pub struct ElementHash(pub usize);

/// An effect: the elements it takes and leaves, bottom first.
#[derive(Debug, Clone, PartialEq, Eq)]
pub struct StackEffect {
    pub inputs: Vec<ElementRef>,
    pub outputs: Vec<ElementRef>,
}

/// An element: a row of any number of values (`..name`), a value, a
/// callable value with an effect of its own, or a sequence of elements that
/// it has been found to stand for.
#[derive(Debug, Clone)]
pub enum Element {
    Ellipsis(Vec<char>),
    Item(Vec<char>),
    Callable(Vec<char>, StackEffect),
    Sequence(Vec<ElementRef>),
}

/// What an element is, with its names and lists as sequences.
pub enum EView {
    Ellipsis(Seq<char>),
    Item(Seq<char>),
    Callable(Seq<char>, Seq<ElementRef>, Seq<ElementRef>),
    Sequence(Seq<ElementRef>),
}

impl View for Element {
    type V = EView;

    open spec fn view(&self) -> EView {
        match self {
            Element::Ellipsis(n) => EView::Ellipsis(n@),
            Element::Item(n) => EView::Item(n@),
            Element::Callable(n, se) => EView::Callable(n@, se.inputs@, se.outputs@),
            Element::Sequence(s) => EView::Sequence(s@),
        }
    }
}

/// The name of an element; sequences have none.
pub open spec fn spec_name(e: EView) -> Option<Seq<char>> {
    match e {
        EView::Ellipsis(n) => Some(n),
        EView::Item(n) => Some(n),
        EView::Callable(n, _, _) => Some(n),
        EView::Sequence(_) => None,
    }
}

/// Whether `a` is less specific than `b`: rows are least specific, then
/// values; a callable and a sequence cannot be compared.
pub open spec fn spec_less_specific(a: EView, b: EView) -> Result<bool, Error> {
    match (a, b) {
        (EView::Ellipsis(_), EView::Ellipsis(_)) => Ok(false),
        (EView::Item(_), EView::Item(_)) => Ok(false),
        (EView::Callable(_, _, _), EView::Callable(_, _, _)) => Ok(false),
        (EView::Sequence(_), EView::Sequence(_)) => Ok(false),
        (EView::Callable(_, _, _), EView::Sequence(_)) => Err(Error::IncompatibleStackEffects),
        (EView::Sequence(_), EView::Callable(_, _, _)) => Err(Error::IncompatibleStackEffects),
        (_, EView::Ellipsis(_)) => Ok(false),
        (EView::Ellipsis(_), _) => Ok(true),
        (_, EView::Item(_)) => Ok(false),
        (EView::Item(_), _) => Ok(true),
    }
}

impl ElementRef {
    /// The identity of the element, which is its index.
    pub fn addr(&self) -> (r: usize)
        ensures
            r == self.0,
    {
        self.0
    }

    /// Whether two references refer to the same element.
    pub fn is_same(&self, other: &ElementRef) -> (r: bool)
        ensures
            r == (self.0 == other.0),
    {
        self.0 == other.0
    }

    /// The identity of the element, for maps keyed by element.
    pub fn hash(&self) -> (r: ElementHash)
        ensures
            r == ElementHash(self.0),
    {
        ElementHash(self.0)
    }
}

/// An empty name.
pub fn no_chars() -> (r: Vec<char>)
    ensures
        r@ == Seq::<char>::empty(),
{
    let r: Vec<char> = Vec::new();
    assert(r@ =~= Seq::<char>::empty());
    r
}

/// A copy of a list of references.
pub fn copy_refs(v: &Vec<ElementRef>) -> (r: Vec<ElementRef>)
    ensures
        r@ == v@,
{
    let mut out: Vec<ElementRef> = Vec::new();
    let mut i: usize = 0;
    while i < v.len()
        invariant
            i <= v@.len(),
            out@ == v@.subrange(0, i as int),
        decreases v@.len() - i,
    {
        out.push(v[i]);
        assert(v@.subrange(0, i + 1) == v@.subrange(0, i as int).push(v@[i as int]));
        i = i + 1;
    }
    assert(v@.subrange(0, v@.len() as int) == v@);
    out
}

impl StackEffect {
    /// A copy of the effect; the elements are shared.
    pub fn copy(&self) -> (r: StackEffect)
        ensures
            r.inputs@ == self.inputs@,
            r.outputs@ == self.outputs@,
    {
        StackEffect { inputs: copy_refs(&self.inputs), outputs: copy_refs(&self.outputs) }
    }
}

impl Element {
    /// A copy of the element; the elements it refers to are shared.
    pub fn copy(&self) -> (r: Element)
        ensures
            r@ == self@,
    {
        match self {
            Element::Ellipsis(n) => Element::Ellipsis(copy_chars(n.as_slice())),
            Element::Item(n) => Element::Item(copy_chars(n.as_slice())),
            Element::Callable(n, se) => Element::Callable(copy_chars(n.as_slice()), se.copy()),
            Element::Sequence(s) => Element::Sequence(copy_refs(s)),
        }
    }

    /// Whether the element is a row.
    pub fn is_ellipsis(&self) -> (r: bool)
        ensures
            r == (self@ is Ellipsis),
    {
        match self {
            Element::Ellipsis(_) => true,
            _ => false,
        }
    }

    /// The name of the element; sequences have none.
    pub fn name(&self) -> (r: Option<&Vec<char>>)
        ensures
            match r {
                Some(n) => spec_name(self@) == Some(n@),
                None => spec_name(self@) is None,
            },
    {
        match self {
            Element::Ellipsis(n) => Some(n),
            Element::Item(n) => Some(n),
            Element::Callable(n, _) => Some(n),
            Element::Sequence(_) => None,
        }
    }

    /// Whether this element is less specific than the other.
    pub fn is_less_specific(&self, other: &Element) -> (r: Result<bool, Error>)
        ensures
            r == spec_less_specific(self@, other@),
    {
        match (self, other) {
            (Element::Ellipsis(_), Element::Ellipsis(_)) => Ok(false),
            (Element::Item(_), Element::Item(_)) => Ok(false),
            (Element::Callable(_, _), Element::Callable(_, _)) => Ok(false),
            (Element::Sequence(_), Element::Sequence(_)) => Ok(false),
            (Element::Callable(_, _), Element::Sequence(_)) => Err(Error::IncompatibleStackEffects),
            (Element::Sequence(_), Element::Callable(_, _)) => Err(Error::IncompatibleStackEffects),
            (_, Element::Ellipsis(_)) => Ok(false),
            (Element::Ellipsis(_), _) => Ok(true),
            (_, Element::Item(_)) => Ok(false),
            (Element::Item(_), _) => Ok(true),
        }
    }

    /// Keeps the more specific of this element and the other here and
    /// returns the other one; a row is less specific than anything, a value
    /// than anything but a row. A callable and a sequence are incompatible.
    /// Two callables, or two sequences, are not to be merged this way.
    pub fn replace_if_more_specific(&mut self, other: Element) -> (r: Result<Element, Error>)
        requires
            !(old(self)@ is Callable && other@ is Callable),
            !(old(self)@ is Sequence && other@ is Sequence),
        ensures
            match (old(self)@, other@) {
                (_, EView::Ellipsis(_)) => r is Ok && r->Ok_0@ == other@ && final(self)@ == old(self)@,
                (EView::Ellipsis(_), _) => r is Ok && r->Ok_0@ == old(self)@ && final(self)@ == other@,
                (_, EView::Item(_)) => r is Ok && r->Ok_0@ == other@ && final(self)@ == old(self)@,
                (EView::Item(_), _) => r is Ok && r->Ok_0@ == old(self)@ && final(self)@ == other@,
                _ => r == Err::<Element, Error>(Error::IncompatibleStackEffects) && final(self)@ == old(self)@,
            },
    {
        let mut other = other;
        match (&*self, &other) {
            (_, Element::Ellipsis(_)) => {},
            (Element::Ellipsis(_), _) => std::mem::swap(self, &mut other),
            (_, Element::Item(_)) => {},
            (Element::Item(_), _) => std::mem::swap(self, &mut other),
            _ => {
                return Err(Error::IncompatibleStackEffects);
            },
        }
        Ok(other)
    }
}

} // verus!
