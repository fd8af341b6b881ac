//! Rules, table layout and broad-phase collision bookkeeping of a two-player
//! pool game, proved with Verus. Ball motion itself (floating point) lives in
//! the application around this library.
use vstd::prelude::*;

pub mod grid;
pub mod rules;
pub mod table;

verus! {

} // verus!
