//! Conversion of hierarchical outline data into spreadsheet layouts.
//!
//! An [`outline::Outline`] is a flat, ordered list of level-annotated items
//! together with header metadata.  The [`generator`] module turns an outline
//! (or the tree derived from it by [`outline::Outline::to_tree`]) into a grid
//! of styled cell writes, merge ranges and row groups, which a thin adapter
//! then hands to a spreadsheet-writing library.  The [`parser`] module holds
//! the option records and the text-shaping logic of the input readers.

use vstd::prelude::*;

pub mod generator;
pub mod outline;
pub mod parser;

verus! {

/// Names of the supported input formats, in their canonical order.
pub fn get_parser_types() -> (r: Vec<String>)
    ensures
        r@.len() == 5,
        r@[0]@ == "simple_text"@,
        r@[1]@ == "dir_tree"@,
        r@[2]@ == "html_list"@,
        r@[3]@ == "mspdi"@,
        r@[4]@ == "opml"@,
{
    let mut r: Vec<String> = Vec::new();
    r.push("simple_text".to_owned());
    r.push("dir_tree".to_owned());
    r.push("html_list".to_owned());
    r.push("mspdi".to_owned());
    r.push("opml".to_owned());
    r
}

/// Names of the supported output layouts, in their canonical order.
pub fn get_generator_types() -> (r: Vec<String>)
    ensures
        r@.len() == 6,
        r@[0]@ == "xlsx_type0"@,
        r@[1]@ == "xlsx_type1"@,
        r@[2]@ == "xlsx_type2"@,
        r@[3]@ == "xlsx_type3"@,
        r@[4]@ == "xlsx_type4"@,
        r@[5]@ == "xlsx_type5"@,
{
    let mut r: Vec<String> = Vec::new();
    r.push("xlsx_type0".to_owned());
    r.push("xlsx_type1".to_owned());
    r.push("xlsx_type2".to_owned());
    r.push("xlsx_type3".to_owned());
    r.push("xlsx_type4".to_owned());
    r.push("xlsx_type5".to_owned());
    r
}

} // verus!
