use vstd::prelude::*;
use crate::text::Span;

verus! {

/// A byte span within the file with id `file`.
#[derive(Debug, Clone, Copy, PartialEq, Eq, Structural)]
pub struct Location {
    pub file: usize,
    pub span: Span,
}

/// A use of a name at `location` whose definition is at `target`.
#[derive(Debug, Clone, Copy, PartialEq, Eq, Structural)]
pub struct Reference {
    pub location: Location,
    pub target: Location,
}

/// The one-byte probe at `offset` in `file` lies within the reference's span.
pub open spec fn covers(r: Reference, file: usize, offset: usize) -> bool {
    &&& r.location.file == file
    &&& r.location.span.start <= offset
    &&& offset < r.location.span.end
}

/// Target of the first reference that covers the probe, if any.
pub open spec fn lookup(refs: Seq<Reference>, file: usize, offset: usize) -> Option<Location>
    decreases refs.len(),
{
    if refs.len() == 0 {
        None
    } else if covers(refs[0], file, offset) {
        Some(refs[0].target)
    } else {
        lookup(refs.drop_first(), file, offset)
    }
}

/// The table that a compiler builds of where each name used in a package is
/// defined.
pub struct DefinitionIndex {
    refs: Vec<Reference>,
}

impl View for DefinitionIndex {
    type V = Seq<Reference>;

    closed spec fn view(&self) -> Seq<Reference> {
        self.refs@
    }
}

impl DefinitionIndex {
    /// An index with no references.
    pub fn new() -> (r: DefinitionIndex)
        ensures
            r@ == Seq::<Reference>::empty(),
    {
        DefinitionIndex { refs: Vec::new() }
    }

    /// Records that the name used at `location` is defined at `target`.
    /// Earlier references take precedence where spans overlap.
    pub fn add_reference(&mut self, location: Location, target: Location)
        ensures
            final(self)@ == old(self)@.push(Reference { location, target }),
    {
        self.refs.push(Reference { location, target });
    }

    /// Definition site of the name used at byte `offset` of `file`.
    pub fn definition_at(&self, file: usize, offset: usize) -> (r: Option<Location>)
        ensures
            r == lookup(self@, file, offset),
    {
        let mut i: usize = 0;
        assert(self.refs@.skip(0) =~= self.refs@);
        while i < self.refs.len()
            invariant
                i <= self.refs@.len(),
                lookup(self.refs@, file, offset) == lookup(self.refs@.skip(i as int), file, offset),
            decreases self.refs@.len() - i,
        {
            let r = self.refs[i];
            assert(self.refs@.skip(i as int).drop_first() =~= self.refs@.skip(i + 1));
            if r.location.file == file && r.location.span.start <= offset && offset
                < r.location.span.end {
                return Some(r.target);
            }
            i = i + 1;
        }
        None
    }
}

} // verus!
