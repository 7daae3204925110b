//! Values that remember whether they have changed since they were last stored.

use vstd::prelude::*;

verus! {

/// A value and whether it has changed since it was last stored.
pub struct Dirty<T> {
    value: T,
    dirty: bool,
}

impl<T> Dirty<T> {
    /// The value.
    pub closed spec fn value(&self) -> T {
        self.value
    }

    /// Whether the value has changed since it was last stored.
    pub closed spec fn is_dirty(&self) -> bool {
        self.dirty
    }

    /// A value that is stored as it is.
    pub fn new(value: T) -> (r: Dirty<T>)
        ensures
            r.value() == value,
            !r.is_dirty(),
    {
        Dirty { value, dirty: false }
    }

    /// A value that is not stored yet.
    pub fn new_dirty(value: T) -> (r: Dirty<T>)
        ensures
            r.value() == value,
            r.is_dirty(),
    {
        Dirty { value, dirty: true }
    }

    /// Whether the value has changed since it was last stored.
    pub fn dirty(&self) -> (r: bool)
        ensures
            r == self.is_dirty(),
    {
        self.dirty
    }

    /// Notes that the value has been stored.
    pub fn sync(&mut self)
        ensures
            final(self).value() == old(self).value(),
            !final(self).is_dirty(),
    {
        self.dirty = false;
    }

    /// Access without a change.
    pub fn get(&self) -> (r: &T)
        ensures
            *r == self.value(),
    {
        &self.value
    }

    /// Access for a change; the value counts as changed from here on.
    pub fn get_mut(&mut self) -> (r: &mut T)
        ensures
            *r == old(self).value(),
            final(self).value() == *final(r),
            final(self).is_dirty(),
    {
        self.dirty = true;
        &mut self.value
    }
}

/// A value counts as changed from the first access for a change until it has been stored; looking at it
/// and storing it do not change it.
pub proof fn law_dirty<T>(
    v: T,
    a: Dirty<T>,
    a2: bool,
    b: Dirty<T>,
    b2: bool,
    c: &mut Dirty<T>,
    c2: bool,
    x: &T,
    y: &T,
    d: &mut Dirty<T>,
    e: &mut T,
    d2: bool,
    z: &T,
)
    requires
        call_ensures(Dirty::<T>::new, (v,), a),
        call_ensures(Dirty::<T>::dirty, (&a,), a2),
        call_ensures(Dirty::<T>::new_dirty, (v,), b),
        call_ensures(Dirty::<T>::dirty, (&b,), b2),
        call_ensures(Dirty::<T>::get, (&*c,), x),
        call_ensures(Dirty::<T>::sync, (c,), ()),
        call_ensures(Dirty::<T>::dirty, (&*final(c),), c2),
        call_ensures(Dirty::<T>::get, (&*final(c),), y),
        call_ensures(Dirty::<T>::get_mut, (d,), e),
        call_ensures(Dirty::<T>::dirty, (&*final(d),), d2),
        call_ensures(Dirty::<T>::get, (&*final(d),), z),
    ensures
        !a2,
        b2,
        !c2,
        *y == *x,
        d2,
        *z == *final(e),
        a.value() == v && b.value() == v,
{
}

} // verus!
