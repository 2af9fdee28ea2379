//! Log-rotation library: classifies the files of a log directory into
//! groups of numbered generations, and plans the shift-and-truncate
//! rotation of every group whose primary file has grown past a size
//! threshold. All decisions are made here on plain values; the
//! filesystem work itself (walking the directory, copying, truncating,
//! deleting) is carried out by the caller from the returned plan.

pub mod config;
pub mod errors;
pub mod groups;
pub mod names;
pub mod rotate;

use vstd::prelude::*;

verus! {

} // verus!
