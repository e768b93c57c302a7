pub mod cli;
pub mod install;
pub mod kicad_detect;
pub mod library_sync;
pub mod search;
pub mod text;

use vstd::prelude::*;

verus! {

} // verus!
