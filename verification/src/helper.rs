//! Addition that reports overflow instead of wrapping.

use vstd::prelude::*;

verus! {

/// Types whose values can be added with the overflow made visible.
pub trait SafeAdd: Sized {
    /// The sum of `self` and `n`, or `None` where the type cannot hold it.
    spec fn sum(&self, n: &Self) -> Option<Self>;

    fn safe_add(&self, n: &Self) -> (r: Option<Self>)
        ensures
            r == self.sum(n),
    ;
}

impl SafeAdd for usize {
    open spec fn sum(&self, n: &Self) -> Option<Self> {
        if *self + *n <= usize::MAX {
            Some((*self + *n) as usize)
        } else {
            None
        }
    }

    fn safe_add(&self, n: &Self) -> (r: Option<Self>) {
        self.checked_add(*n)
    }
}

/// Adds `src` to `dst` in place. Where the sum does not fit, `dst` keeps its
/// value and the error that `f` makes is returned.
pub fn safe_add<T, F, E>(dst: &mut T, src: &T, f: F) -> (r: Result<(), E>)
    where
        T: SafeAdd,
        F: Fn() -> E,
    requires
        old(dst).sum(src) is None ==> f.requires(()),
    ensures
        match old(dst).sum(src) {
            Some(n) => r is Ok && *final(dst) == n,
            None => r is Err && f.ensures((), r->Err_0) && *final(dst) == *old(dst),
        },
{
    if let Some(n) = dst.safe_add(src) {
        *dst = n;
        Ok(())
    } else {
        Err(f())
    }
}

} // verus!
