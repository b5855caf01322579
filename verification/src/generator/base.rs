//! Shared option vocabulary kept apart from the generator list; some layouts
//! name their merge choice through this module.

use vstd::prelude::*;

verus! {

/// Which way key cells are merged, where a layout supports merging.
#[derive(Debug, Clone, Copy, PartialEq, Eq, Structural)]
pub enum IntegrateCellsOption {
    Colspan,
    Rowspan,
    Both,
}

} // verus!
