//! A widget paired with data of its own, independent of the data around it.
use vstd::prelude::*;

verus! {

/// A widget together with the data it shows and edits.
pub struct DataOwner<T, W> {
    pub data: T,
    pub widget: W,
}

impl<T, W> DataOwner<T, W> {
    pub fn new(data: T, widget: W) -> (r: Self)
        ensures
            r.data == data,
            r.widget == widget,
    {
        DataOwner { data, widget }
    }
}

} // verus!
