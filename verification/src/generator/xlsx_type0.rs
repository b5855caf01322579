//! The flat layout: two fixed columns (key and numeric level) followed by the
//! value columns, one row per item, no merges.

use vstd::prelude::*;

use crate::generator::sheet::{
    full_border, full_border_style, CellWrite, CellWriteView, SheetOps, SheetOpsView,
    GenerateError, apply_sheet_ops,
};
use crate::generator::{concat_blocks, dec_str, u32_to_decimal};
use crate::outline::{Outline, OutlineView, spec_max_value_length};
use rust_xlsxwriter::Worksheet;

verus! {

/// Options of the flat layout.
#[derive(Debug, Clone, Default)]
pub struct XlsxType0GeneratorOptions {
    /// If true, set the background color of all cells to white.
    pub shironuri: bool,
}

/// The flat-layout generator, holding the outline it renders.
pub struct XlsxType0Generator {
    pub outline: Outline,
    pub options: XlsxType0GeneratorOptions,
}

/// The text of the cell at `(r, c)`: the header row names the key column,
/// the literal level column and the value headers; a data row shows the
/// item's key, its level in decimal, and its values, padded with blanks.
pub open spec fn type0_text(o: OutlineView, r: int, c: int) -> Seq<char> {
    if r == 0 {
        if c == 0 {
            if o.key_header.len() > 0 {
                o.key_header[0]
            } else {
                Seq::empty()
            }
        } else if c == 1 {
            "Outline Level"@
        } else if c - 2 < o.value_header.len() {
            o.value_header[c - 2]
        } else {
            Seq::empty()
        }
    } else {
        let it = o.items[r - 1];
        if c == 0 {
            it.key
        } else if c == 1 {
            dec_str(it.level as int)
        } else if c - 2 < it.values.len() {
            it.values[c - 2]
        } else {
            Seq::empty()
        }
    }
}

/// Row `r` of the flat layout: `2 + max value length` cells, all with a full
/// thin border.
pub open spec fn type0_row(o: OutlineView, shironuri: bool, r: int) -> Seq<CellWriteView> {
    Seq::new(
        (2 + spec_max_value_length(o)) as nat,
        |c: int|
            CellWriteView {
                row: r as u32,
                col: c as u16,
                text: type0_text(o, r, c),
                style: full_border(shironuri),
            },
    )
}

/// Everything the flat layout asks of the sheet: a header row and one row per
/// item, no format overrides, no merges, no groups.
pub open spec fn type0_ops(o: OutlineView, shironuri: bool) -> SheetOpsView {
    SheetOpsView {
        whitewash: shironuri,
        cells: concat_blocks(|r: int| type0_row(o, shironuri, r), o.items.len() as int + 1),
        formats: Seq::empty(),
        merges: Seq::empty(),
        groups: Seq::empty(),
    }
}

impl XlsxType0Generator {
    /// Wraps an outline and options for rendering.
    pub fn new(outline: Outline, options: XlsxType0GeneratorOptions) -> (r: Self)
        ensures
            r.outline == outline,
            r.options == options,
    {
        XlsxType0Generator { outline, options }
    }

    /// Renders the flat layout as a sheet of operations.
    pub fn sheet_ops(&self) -> (r: SheetOps)
        requires
            self.outline@.items.len() + 1 <= u32::MAX,
            2 + spec_max_value_length(self.outline@) <= u16::MAX,
        ensures
            r@ == type0_ops(self.outline@, self.options.shironuri),
    {
        let ghost o = self.outline@;
        let shironuri = self.options.shironuri;
        let mv = self.outline.max_value_length();
        let width = 2 + mv;
        let n = self.outline.item.len();
        let mut cells: Vec<CellWrite> = Vec::new();
        let mut r: usize = 0;
        while r < n + 1
            invariant
                o == self.outline@,
                shironuri == self.options.shironuri,
                mv == spec_max_value_length(o),
                width == 2 + mv,
                width <= u16::MAX,
                n == o.items.len(),
                n + 1 <= u32::MAX,
                r <= n + 1,
                Seq::new(cells@.len(), |i: int| cells@[i]@) =~= concat_blocks(
                    |rr: int| type0_row(o, shironuri, rr),
                    r as int,
                ),
            decreases n + 1 - r,
        {
            let ghost pre = Seq::new(cells@.len(), |i: int| cells@[i]@);
            let style = full_border_style(shironuri);
            let mut c: usize = 0;
            while c < width
                invariant
                    o == self.outline@,
                    shironuri == self.options.shironuri,
                    mv == spec_max_value_length(o),
                    width == 2 + mv,
                    width <= u16::MAX,
                    n == o.items.len(),
                    n + 1 <= u32::MAX,
                    r <= n,
                    c <= width,
                    style == full_border(shironuri),
                    cells@.len() == pre.len() + c,
                    forall|i: int| 0 <= i < pre.len() ==> #[trigger] cells@[i]@ == pre[i],
                    forall|i: int|
                        0 <= i < c ==> #[trigger] cells@[pre.len() + i]@ == type0_row(
                            o,
                            shironuri,
                            r as int,
                        )[i],
                decreases width - c,
            {
                let text: String = if r == 0 {
                    if c == 0 {
                        if self.outline.key_header.len() > 0 {
                            self.outline.key_header[0].clone()
                        } else {
                            String::new()
                        }
                    } else if c == 1 {
                        "Outline Level".to_owned()
                    } else if c - 2 < self.outline.value_header.len() {
                        self.outline.value_header[c - 2].clone()
                    } else {
                        String::new()
                    }
                } else {
                    let it = &self.outline.item[r - 1];
                    if c == 0 {
                        it.key.clone()
                    } else if c == 1 {
                        u32_to_decimal(it.level)
                    } else if c - 2 < it.value.len() {
                        it.value[c - 2].clone()
                    } else {
                        String::new()
                    }
                };
                proof {
                    assert(text@ == type0_text(o, r as int, c as int));
                }
                cells.push(CellWrite { row: r as u32, col: c as u16, text, style });
                c = c + 1;
            }
            proof {
                let now = Seq::new(cells@.len(), |i: int| cells@[i]@);
                let target = pre + type0_row(o, shironuri, r as int);
                assert(now.len() == target.len());
                assert forall|k: int| 0 <= k < now.len() implies now[k] == target[k] by {
                    if k < pre.len() {
                        assert(cells@[k]@ == pre[k]);
                    } else {
                        let i = k - pre.len();
                        assert(cells@[pre.len() + i]@ == type0_row(o, shironuri, r as int)[i]);
                    }
                }
                assert(now =~= target);
            }
            r = r + 1;
        }
        let ops = SheetOps {
            whitewash: shironuri,
            cells,
            formats: Vec::new(),
            merges: Vec::new(),
            groups: Vec::new(),
        };
        proof {
            assert(ops@ =~= type0_ops(o, shironuri));
        }
        ops
    }

    /// Renders the outline into the worksheet; the first writer error aborts
    /// the run.
    pub fn output_to_worksheet(&self, worksheet: &mut Worksheet) -> Result<(), GenerateError>
        requires
            self.outline@.items.len() + 1 <= u32::MAX,
            2 + spec_max_value_length(self.outline@) <= u16::MAX,
    {
        let ops = self.sheet_ops();
        apply_sheet_ops(&ops, worksheet)
    }
}

/// Rendering is a pure function of the outline and options: two sheets that
/// both satisfy the rendering contract are identical.
pub proof fn lemma_type0_deterministic(
    r1: SheetOpsView,
    r2: SheetOpsView,
    o: OutlineView,
    shironuri: bool,
)
    requires
        r1 == type0_ops(o, shironuri),
        r2 == type0_ops(o, shironuri),
    ensures
        r1 == r2,
{
}

/// An outline with no items and no headers renders as exactly one header
/// row: every cell write sits on row 0, and there are no format overrides,
/// no merges and no row groups.
pub proof fn lemma_type0_empty_outline(o: OutlineView, shironuri: bool)
    requires
        o.items.len() == 0,
        o.key_header.len() == 0,
        o.value_header.len() == 0,
    ensures
        type0_ops(o, shironuri).cells =~= type0_row(o, shironuri, 0),
        forall|k: int|
            0 <= k < type0_ops(o, shironuri).cells.len() ==> (#[trigger] type0_ops(
                o,
                shironuri,
            ).cells[k]).row == 0,
        type0_ops(o, shironuri).formats.len() == 0,
        type0_ops(o, shironuri).merges.len() == 0,
        type0_ops(o, shironuri).groups.len() == 0,
{
    let f = |r: int| type0_row(o, shironuri, r);
    assert(concat_blocks(f, 0) =~= Seq::<CellWriteView>::empty());
    assert(concat_blocks(f, 1) =~= Seq::<CellWriteView>::empty() + f(0));
    assert(concat_blocks(f, 1) =~= f(0));
}

} // verus!
