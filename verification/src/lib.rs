use vstd::prelude::*;

pub mod checker;
pub mod completion;
pub mod creator;
pub mod grid;
pub mod parser;
pub mod render;
pub mod solver;

verus! {

/// Moves a coordinate one step forward through 0, 1, 2. From 2 it wraps
/// to 0 and reports the carry as `Err`.
pub(crate) fn special_add(n: &mut usize) -> (r: Result<(), ()>)
    requires
        *old(n) < 3,
    ensures
        *final(n) == (if *old(n) == 2 { 0 } else { *old(n) + 1 }),
        r is Err <==> *old(n) == 2,
    no_unwind
{
    if *n == 2 {
        *n = 0;
        return Err(());
    }
    *n += 1;
    Ok(())
}

/// Moves a coordinate one step backward through 2, 1, 0. From 0 it wraps
/// to 2 and reports the borrow as `Err`.
pub(crate) fn special_sub(n: &mut usize) -> (r: Result<(), ()>)
    requires
        *old(n) < 3,
    ensures
        *final(n) == (if *old(n) == 0 { 2 } else { *old(n) - 1 }),
        r is Err <==> *old(n) == 0,
    no_unwind
{
    if *n == 0 {
        *n = 2;
        return Err(());
    }
    *n -= 1;
    Ok(())
}

} // verus!
