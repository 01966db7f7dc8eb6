//! Retrieval and extraction core for archived web captures: an allow-list of
//! national-domain hosts read from a ranking file, index records of archive
//! segments and the byte-range requests that fetch them, a scanner that cuts
//! a decompressed archive into record bodies, and the language filter applied
//! to the text extracted from each body.
use vstd::prelude::*;

pub mod domain;
pub mod filter;
pub mod index;
pub mod json;
pub mod num;
pub mod ranking;
pub mod scan;

verus! {

} // verus!
