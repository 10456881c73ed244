//! Preview quality of rendered PDF pages.
use vstd::prelude::*;

verus! {

/// How finely the first page of a PDF is rendered for a preview.
#[derive(Debug, Clone, Copy, PartialEq, Eq)]
pub enum PDFQuailty {
    High,
    Medium,
    Low,
}

} // verus!
