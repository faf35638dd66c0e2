//! Items that take up one unit each, and common types as such items.

use vstd::prelude::*;
use vstd::pervasive::unreached;
use crate::item::ListItem;

verus! {

/// An item that takes up one unit and cannot be cut in two. A type that
/// says so of itself is a list item without more ado.
pub trait UnitItem: Sized {

}

impl<T: UnitItem> ListItem for T {
    fn get_usersize(&self) -> (size: usize) {
        1
    }

    fn split_item(&self, at: usize) -> (halves: (Self, Self)) {
        unreached()
    }
}

impl UnitItem for () {

}

impl<X, Y> UnitItem for (X, Y) {

}

impl<X, Y, Z> UnitItem for (X, Y, Z) {

}

impl<V> UnitItem for Option<V> {

}

impl<T, E> UnitItem for Result<T, E> {

}

impl<X, Y> UnitItem for &(X, Y) {

}

impl<X, Y, Z> UnitItem for &(X, Y, Z) {

}

impl<V> UnitItem for &Option<V> {

}

impl<T, E> UnitItem for &Result<T, E> {

}

impl UnitItem for u8 {

}

impl UnitItem for i8 {

}

impl UnitItem for u16 {

}

impl UnitItem for i16 {

}

impl UnitItem for u32 {

}

impl UnitItem for i32 {

}

impl UnitItem for &u8 {

}

impl UnitItem for &i8 {

}

impl UnitItem for &u16 {

}

impl UnitItem for &i16 {

}

impl UnitItem for &u32 {

}

impl UnitItem for &i32 {

}

} // verus!
