use vstd::prelude::*;

verus! {

/// An optional slot number stored as one machine word: 0 stands for "none",
/// `n + 1` for slot `n`.
#[derive(Debug, Clone, Copy, PartialEq, Eq, Structural)]
pub struct Offset {
    pub value: usize,
}

impl Offset {
    /// What the stored word stands for.
    pub open spec fn spec_get(self) -> Option<usize> {
        if self.value == 0 {
            None
        } else {
            Some((self.value - 1) as usize)
        }
    }

    /// The empty offset.
    pub fn none() -> (r: Self)
        ensures
            r.value == 0,
            r.spec_get() == None::<usize>,
    {
        Offset { value: 0 }
    }

    /// The offset of slot `offset`.
    pub fn some(offset: usize) -> (r: Self)
        requires
            offset < usize::MAX,
        ensures
            r.value == offset + 1,
            r.spec_get() == Some(offset),
    {
        Offset { value: offset + 1 }
    }

    /// The slot this offset designates, if any.
    pub fn get(&self) -> (r: Option<usize>)
        ensures
            r == self.spec_get(),
    {
        if self.value == 0 {
            None
        } else {
            Some(self.value - 1)
        }
    }

    /// Stores the raw word `offset.unwrap_or(0)`.
    ///
    /// The word is stored as given, without the `+ 1` of [`Offset::some`]:
    /// `set(Some(n))` makes the offset designate slot `n - 1` (none for `n == 0`).
    pub fn set(&mut self, offset: Option<usize>)
        ensures
            final(self).value == match offset {
                Some(v) => v,
                None => 0,
            },
    {
        self.value = match offset {
            Some(v) => v,
            None => 0,
        };
    }

    pub fn is_some(&self) -> (r: bool)
        ensures
            r == (self.value != 0),
            r == self.spec_get().is_some(),
    {
        self.value != 0
    }

    pub fn is_none(&self) -> (r: bool)
        ensures
            r == (self.value == 0),
            r == self.spec_get().is_none(),
    {
        self.value == 0
    }

    /// The designated slot; the offset must not be empty.
    pub fn unwrap(&self) -> (r: usize)
        requires
            self.value != 0,
        ensures
            r == self.value - 1,
            self.spec_get() == Some(r),
    {
        self.value - 1
    }

    pub fn unwrap_or(&self, default: usize) -> (r: usize)
        ensures
            r == match self.spec_get() {
                Some(v) => v,
                None => default,
            },
    {
        match self.get() {
            Some(v) => v,
            None => default,
        }
    }

    /// `Offset::some(value)`: the conversion from a slot number.
    pub fn from_slot(value: usize) -> (r: Self)
        requires
            value < usize::MAX,
        ensures
            r.spec_get() == Some(value),
    {
        Self::some(value)
    }

    /// The conversion from an optional slot number.
    pub fn from_option(opt: Option<usize>) -> (r: Self)
        requires
            opt matches Some(v) ==> v < usize::MAX,
        ensures
            r.spec_get() == opt,
    {
        match opt {
            Some(v) => Self::some(v),
            None => Self::none(),
        }
    }
}

} // verus!
