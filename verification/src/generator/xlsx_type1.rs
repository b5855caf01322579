//! The keyed-row layout: one key column plus value columns, one row per item,
//! with optional collapsible row grouping by nesting level.

use vstd::prelude::*;

use crate::generator::sheet::{
    full_border, full_border_style, CellWrite, CellWriteView, RowGroup, SheetOps, SheetOpsView,
    GenerateError, apply_sheet_ops,
};
use crate::generator::{
    concat_blocks, find_intervals_impl, find_intervals_hier_impl, item_levels, row_groups_impl,
    spec_find_intervals, spec_find_intervals_hier, spec_row_groups,
};
use crate::outline::{Outline, OutlineView, spec_max_value_length};
use rust_xlsxwriter::Worksheet;

verus! {

/// Options of the keyed-row layout.
#[derive(Debug, Clone)]
pub struct XlsxType1GeneratorOptions {
    pub outline_rows: bool,
    pub shironuri: bool,
}

/// The keyed-row generator, holding the outline it renders.
pub struct XlsxType1Generator {
    pub outline: Outline,
    pub options: XlsxType1GeneratorOptions,
}

/// The text of the cell at `(r, c)`: the header row shows the first key
/// header and the value headers; a data row shows the item's key and its
/// values, padded with blanks.
pub open spec fn type1_text(o: OutlineView, r: int, c: int) -> Seq<char> {
    if r == 0 {
        if c == 0 {
            if o.key_header.len() > 0 {
                o.key_header[0]
            } else {
                Seq::empty()
            }
        } else if c - 1 < o.value_header.len() {
            o.value_header[c - 1]
        } else {
            Seq::empty()
        }
    } else {
        let it = o.items[r - 1];
        if c == 0 {
            it.key
        } else if c - 1 < it.values.len() {
            it.values[c - 1]
        } else {
            Seq::empty()
        }
    }
}

/// Row `r` of the keyed-row layout: `1 + max value length` cells, all with a
/// full thin border.
pub open spec fn type1_row(o: OutlineView, shironuri: bool, r: int) -> Seq<CellWriteView> {
    Seq::new(
        (1 + spec_max_value_length(o)) as nat,
        |c: int|
            CellWriteView {
                row: r as u32,
                col: c as u16,
                text: type1_text(o, r, c),
                style: full_border(shironuri),
            },
    )
}

/// Everything the keyed-row layout asks of the sheet: a header row, one row
/// per item, and, when row grouping is on, the interval groups of every
/// threshold above 1, offset past the header row.
pub open spec fn type1_ops(o: OutlineView, outline_rows: bool, shironuri: bool) -> SheetOpsView {
    SheetOpsView {
        whitewash: shironuri,
        cells: concat_blocks(|r: int| type1_row(o, shironuri, r), o.items.len() as int + 1),
        formats: Seq::empty(),
        merges: Seq::empty(),
        groups: if outline_rows {
            spec_row_groups(item_levels(o), 1)
        } else {
            Seq::empty()
        },
    }
}

impl XlsxType1Generator {
    /// Wraps an outline and options for rendering.
    pub fn new(outline: Outline, options: XlsxType1GeneratorOptions) -> (r: Self)
        ensures
            r.outline == outline,
            r.options == options,
    {
        XlsxType1Generator { outline, options }
    }

    /// The maximal inclusive index runs of `arr` whose entries are all at or
    /// above `threshold`, in order.
    pub fn find_intervals(arr: &Vec<u32>, threshold: u32) -> (r: Vec<(usize, usize)>)
        ensures
            r@ == spec_find_intervals(arr@, threshold),
    {
        find_intervals_impl(arr, threshold)
    }

    /// One interval list per threshold from 1 up to the largest level; empty
    /// when every level is 0 or there are no levels.
    pub fn find_intervals_hierarchical(arr: &Vec<u32>) -> (r: Vec<Vec<(usize, usize)>>)
        ensures
            r@.len() == spec_find_intervals_hier(arr@).len(),
            forall|j: int|
                0 <= j < r@.len() ==> (#[trigger] r@[j])@ == spec_find_intervals_hier(arr@)[j],
    {
        find_intervals_hier_impl(arr)
    }

    /// Renders the keyed-row layout as a sheet of operations.
    pub fn sheet_ops(&self) -> (r: SheetOps)
        requires
            self.outline@.items.len() + 1 <= u32::MAX,
            1 + spec_max_value_length(self.outline@) <= u16::MAX,
        ensures
            r@ == type1_ops(self.outline@, self.options.outline_rows, self.options.shironuri),
    {
        let ghost o = self.outline@;
        let shironuri = self.options.shironuri;
        let mv = self.outline.max_value_length();
        let width = 1 + mv;
        let n = self.outline.item.len();
        let mut cells: Vec<CellWrite> = Vec::new();
        let mut r: usize = 0;
        while r < n + 1
            invariant
                o == self.outline@,
                shironuri == self.options.shironuri,
                mv == spec_max_value_length(o),
                width == 1 + mv,
                width <= u16::MAX,
                n == o.items.len(),
                n + 1 <= u32::MAX,
                r <= n + 1,
                Seq::new(cells@.len(), |i: int| cells@[i]@) =~= concat_blocks(
                    |rr: int| type1_row(o, shironuri, rr),
                    r as int,
                ),
            decreases n + 1 - r,
        {
            let ghost pre = Seq::new(cells@.len(), |i: int| cells@[i]@);
            let style = full_border_style(shironuri);
            let mut c: usize = 0;
            while c < width
                invariant
                    o == self.outline@,
                    shironuri == self.options.shironuri,
                    mv == spec_max_value_length(o),
                    width == 1 + mv,
                    width <= u16::MAX,
                    n == o.items.len(),
                    n + 1 <= u32::MAX,
                    r <= n,
                    c <= width,
                    style == full_border(shironuri),
                    cells@.len() == pre.len() + c,
                    forall|i: int| 0 <= i < pre.len() ==> #[trigger] cells@[i]@ == pre[i],
                    forall|i: int|
                        0 <= i < c ==> #[trigger] cells@[pre.len() + i]@ == type1_row(
                            o,
                            shironuri,
                            r as int,
                        )[i],
                decreases width - c,
            {
                let text: String = if r == 0 {
                    if c == 0 {
                        if self.outline.key_header.len() > 0 {
                            self.outline.key_header[0].clone()
                        } else {
                            String::new()
                        }
                    } else if c - 1 < self.outline.value_header.len() {
                        self.outline.value_header[c - 1].clone()
                    } else {
                        String::new()
                    }
                } else {
                    let it = &self.outline.item[r - 1];
                    if c == 0 {
                        it.key.clone()
                    } else if c - 1 < it.value.len() {
                        it.value[c - 1].clone()
                    } else {
                        String::new()
                    }
                };
                proof {
                    assert(text@ == type1_text(o, r as int, c as int));
                }
                cells.push(CellWrite { row: r as u32, col: c as u16, text, style });
                c = c + 1;
            }
            proof {
                let now = Seq::new(cells@.len(), |i: int| cells@[i]@);
                let target = pre + type1_row(o, shironuri, r as int);
                assert(now.len() == target.len());
                assert forall|k: int| 0 <= k < now.len() implies now[k] == target[k] by {
                    if k < pre.len() {
                        assert(cells@[k]@ == pre[k]);
                    } else {
                        let i = k - pre.len();
                        assert(cells@[pre.len() + i]@ == type1_row(o, shironuri, r as int)[i]);
                    }
                }
                assert(now =~= target);
            }
            r = r + 1;
        }
        let groups: Vec<RowGroup> = if self.options.outline_rows {
            let levels = self.item_level_vec();
            row_groups_impl(&levels, 1)
        } else {
            Vec::new()
        };
        let ops = SheetOps {
            whitewash: shironuri,
            cells,
            formats: Vec::new(),
            merges: Vec::new(),
            groups,
        };
        proof {
            assert(ops@ =~= type1_ops(o, self.options.outline_rows, shironuri));
        }
        ops
    }

    /// The level of each item, in item order.
    fn item_level_vec(&self) -> (r: Vec<u32>)
        ensures
            r@ == item_levels(self.outline@),
    {
        let mut r: Vec<u32> = Vec::new();
        let mut i: usize = 0;
        while i < self.outline.item.len()
            invariant
                i <= self.outline.item@.len(),
                r@.len() == i,
                forall|k: int| 0 <= k < i ==> #[trigger] r@[k] == self.outline@.items[k].level,
            decreases self.outline.item@.len() - i,
        {
            r.push(self.outline.item[i].level);
            i = i + 1;
        }
        proof {
            assert(r@ =~= item_levels(self.outline@));
        }
        r
    }

    /// Renders the outline into the worksheet; the first writer error aborts
    /// the run.
    pub fn output_to_worksheet(&self, worksheet: &mut Worksheet) -> Result<(), GenerateError>
        requires
            self.outline@.items.len() + 1 <= u32::MAX,
            1 + spec_max_value_length(self.outline@) <= u16::MAX,
    {
        let ops = self.sheet_ops();
        apply_sheet_ops(&ops, worksheet)
    }
}

/// Rendering is a pure function of the outline and options: two sheets that
/// both satisfy the rendering contract are identical.
pub proof fn lemma_type1_deterministic(
    r1: SheetOpsView,
    r2: SheetOpsView,
    o: OutlineView,
    outline_rows: bool,
    shironuri: bool,
)
    requires
        r1 == type1_ops(o, outline_rows, shironuri),
        r2 == type1_ops(o, outline_rows, shironuri),
    ensures
        r1 == r2,
{
}

/// An outline with no items and no headers renders as exactly one header
/// row: every cell write sits on row 0, and there are no format overrides,
/// no merges and no row groups.
pub proof fn lemma_type1_empty_outline(o: OutlineView, outline_rows: bool, shironuri: bool)
    requires
        o.items.len() == 0,
        o.key_header.len() == 0,
        o.value_header.len() == 0,
    ensures
        type1_ops(o, outline_rows, shironuri).cells =~= type1_row(o, shironuri, 0),
        forall|k: int|
            0 <= k < type1_ops(o, outline_rows, shironuri).cells.len() ==> (#[trigger] type1_ops(
                o,
                outline_rows,
                shironuri,
            ).cells[k]).row == 0,
        type1_ops(o, outline_rows, shironuri).formats.len() == 0,
        type1_ops(o, outline_rows, shironuri).merges.len() == 0,
        type1_ops(o, outline_rows, shironuri).groups.len() == 0,
{
    let f = |r: int| type1_row(o, shironuri, r);
    assert(concat_blocks(f, 0) =~= Seq::<CellWriteView>::empty());
    assert(concat_blocks(f, 1) =~= Seq::<CellWriteView>::empty() + f(0));
    assert(concat_blocks(f, 1) =~= f(0));
    assert(item_levels(o).len() == 0);
    if outline_rows {
        assert(spec_row_groups(item_levels(o), 1) =~= Seq::<RowGroup>::empty());
    }
}

} // verus!
