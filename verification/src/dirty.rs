use vstd::prelude::*;

verus! {

/// Wraps a value together with a flag that records whether it has been
/// modified since it was last saved.
#[derive(Debug, Clone)]
pub struct DirtyMarker<T> {
    pub inner: T,
    pub dirty: bool,
}

impl<T> DirtyMarker<T> {
    /// Wrap a value that matches its saved form.
    pub fn clean(inner: T) -> (r: Self)
        ensures
            r.inner == inner,
            !r.dirty,
    {
        Self { inner, dirty: false }
    }

    /// Whether the value has unsaved changes.
    pub fn is_dirty(&self) -> (r: bool)
        ensures
            r == self.dirty,
    {
        self.dirty
    }

    /// Wrap a value that already differs from its saved form.
    pub fn dirty(inner: T) -> (r: Self)
        ensures
            r.inner == inner,
            r.dirty,
    {
        Self { inner, dirty: true }
    }

    /// Record that the value has been modified.
    pub fn mark_dirty(&mut self)
        ensures
            final(self).inner == old(self).inner,
            final(self).dirty,
    {
        self.dirty = true;
    }

    /// Record that the value has been saved.
    pub fn mark_clean(&mut self)
        ensures
            final(self).inner == old(self).inner,
            !final(self).dirty,
    {
        self.dirty = false;
    }
}

} // verus!
