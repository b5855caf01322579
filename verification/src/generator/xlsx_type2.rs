//! The level-column layout: one column per level, the key in the column of
//! its level, borders drawn per cell to trace the hierarchy, with optional
//! row grouping and either colspan or rowspan key merging.

use vstd::prelude::*;

use crate::generator::sheet::{
    full_border, full_border_style, CellStyle, CellWrite, CellWriteView, MergeWrite,
    MergeWriteView, RowGroup, SheetOps, SheetOpsView, GenerateError, apply_sheet_ops,
};
use crate::generator::{
    concat_blocks, find_intervals_impl, find_intervals_hier_impl, item_levels, row_groups_impl,
    spec_find_intervals, spec_find_intervals_hier, spec_row_groups, IntegrateCellsOption,
};
use crate::outline::{
    Outline, OutlineItemView, OutlineView, all_levels_positive, spec_max_level,
    spec_max_value_length,
};
use rust_xlsxwriter::Worksheet;

verus! {

/// Options of the level-column layout.
#[derive(Debug, Clone)]
pub struct XlsxType2GeneratorOptions {
    pub outline_rows: bool,
    pub integrate_cells: Option<IntegrateCellsOption>,
    pub shironuri: bool,
}

/// The level-column generator, holding the outline it renders.
pub struct XlsxType2Generator {
    pub outline: Outline,
    pub options: XlsxType2GeneratorOptions,
}

/// The border rule of a key cell: for item `i` viewed in the column of level
/// `l`, a left line inside the item's own span, a right line where the
/// hierarchy descends further or at the last level column, a top line at or
/// above the item's level and on the first row, a bottom line below the
/// item's level and on the last row.
pub open spec fn type2_key_style(o: OutlineView, shironuri: bool, i: int, l: int) -> CellStyle {
    let ml = spec_max_level(o);
    let lvl = o.items[i].level as int;
    CellStyle {
        top: l >= lvl || i == 0,
        bottom: l > lvl || i == o.items.len() - 1,
        left: l <= lvl,
        right: l < lvl || l == ml,
        white: shironuri,
    }
}

/// The header row: the key headers in the level columns, then the value
/// headers, everything with a full thin border.
pub open spec fn type2_header_row(o: OutlineView, shironuri: bool) -> Seq<CellWriteView> {
    let ml = spec_max_level(o);
    let mv = spec_max_value_length(o);
    Seq::new(
        (ml + mv) as nat,
        |c: int|
            CellWriteView {
                row: 0,
                col: c as u16,
                text: if c < ml {
                    if c < o.key_header.len() {
                        o.key_header[c]
                    } else {
                        Seq::empty()
                    }
                } else if c - ml < o.value_header.len() {
                    o.value_header[c - ml]
                } else {
                    Seq::empty()
                },
                style: full_border(shironuri),
            },
    )
}

/// The row of item `i`: its key in the column of its level, blanks with the
/// border rule in the other level columns, then its values with a full
/// border.
pub open spec fn type2_item_row(o: OutlineView, shironuri: bool, i: int) -> Seq<CellWriteView> {
    let ml = spec_max_level(o);
    let mv = spec_max_value_length(o);
    let it = o.items[i];
    Seq::new(
        (ml + mv) as nat,
        |c: int|
            if c < ml {
                CellWriteView {
                    row: (i + 1) as u32,
                    col: c as u16,
                    text: if c + 1 == it.level as int {
                        it.key
                    } else {
                        Seq::empty()
                    },
                    style: type2_key_style(o, shironuri, i, c + 1),
                }
            } else {
                CellWriteView {
                    row: (i + 1) as u32,
                    col: c as u16,
                    text: if c - ml < it.values.len() {
                        it.values[c - ml]
                    } else {
                        Seq::empty()
                    },
                    style: full_border(shironuri),
                }
            },
    )
}

/// The last index of the run of items after `i` that sit strictly deeper
/// than item `i`, scanning from `j`; `j - 1` when the run has ended.
pub open spec fn desc_run_end(items: Seq<OutlineItemView>, i: int, j: int) -> int
    decreases items.len() - j,
{
    if j < 0 || j >= items.len() || items[j].level <= items[i].level {
        j - 1
    } else {
        desc_run_end(items, i, j + 1)
    }
}

/// The colspan merge of item `i`, if its level lies short of the last level
/// column: its key cell stretched to the last level column.  Only the merge
/// of the last row carries a bottom border.
pub open spec fn type2_colspan_merge(o: OutlineView, shironuri: bool, i: int) -> Seq<
    MergeWriteView,
> {
    let ml = spec_max_level(o);
    let it = o.items[i];
    if (it.level as int) < ml {
        seq![
            MergeWriteView {
                first_row: (i + 1) as u32,
                first_col: (it.level - 1) as u16,
                last_row: (i + 1) as u32,
                last_col: (ml - 1) as u16,
                text: it.key,
                style: CellStyle {
                    top: true,
                    bottom: i == o.items.len() - 1,
                    left: true,
                    right: false,
                    white: shironuri,
                },
            },
        ]
    } else {
        Seq::empty()
    }
}

/// The rowspan merge of item `i`, if later items run strictly deeper: its key
/// cell stretched down over that run.
pub open spec fn type2_rowspan_merge(o: OutlineView, shironuri: bool, i: int) -> Seq<
    MergeWriteView,
> {
    let it = o.items[i];
    let e = desc_run_end(o.items, i, i + 1);
    if e > i {
        seq![
            MergeWriteView {
                first_row: (i + 1) as u32,
                first_col: (it.level - 1) as u16,
                last_row: (e + 1) as u32,
                last_col: (it.level - 1) as u16,
                text: it.key,
                style: CellStyle {
                    top: true,
                    bottom: true,
                    left: true,
                    right: false,
                    white: shironuri,
                },
            },
        ]
    } else {
        Seq::empty()
    }
}

/// The merges of the layout: one scheme or the other; asking for both is not
/// supported here and merges nothing.
pub open spec fn type2_merges(
    o: OutlineView,
    integrate: Option<IntegrateCellsOption>,
    shironuri: bool,
) -> Seq<MergeWriteView> {
    match integrate {
        Some(IntegrateCellsOption::Colspan) => concat_blocks(
            |i: int| type2_colspan_merge(o, shironuri, i),
            o.items.len() as int,
        ),
        Some(IntegrateCellsOption::Rowspan) => concat_blocks(
            |i: int| type2_rowspan_merge(o, shironuri, i),
            o.items.len() as int,
        ),
        _ => Seq::empty(),
    }
}

/// Everything the level-column layout asks of the sheet.
pub open spec fn type2_ops(
    o: OutlineView,
    outline_rows: bool,
    integrate: Option<IntegrateCellsOption>,
    shironuri: bool,
) -> SheetOpsView {
    SheetOpsView {
        whitewash: shironuri,
        cells: type2_header_row(o, shironuri) + concat_blocks(
            |i: int| type2_item_row(o, shironuri, i),
            o.items.len() as int,
        ),
        formats: Seq::empty(),
        merges: type2_merges(o, integrate, shironuri),
        groups: if outline_rows {
            spec_row_groups(item_levels(o), 1)
        } else {
            Seq::empty()
        },
    }
}

impl XlsxType2Generator {
    /// Wraps an outline and options for rendering.
    pub fn new(outline: Outline, options: XlsxType2GeneratorOptions) -> (r: Self)
        ensures
            r.outline == outline,
            r.options == options,
    {
        XlsxType2Generator { outline, options }
    }

    /// The maximal inclusive index runs of `arr` whose entries are all at or
    /// above `threshold`, in order.
    pub fn find_intervals(arr: &Vec<u32>, threshold: u32) -> (r: Vec<(usize, usize)>)
        ensures
            r@ == spec_find_intervals(arr@, threshold),
    {
        find_intervals_impl(arr, threshold)
    }

    /// One interval list per threshold from 1 up to the largest level; empty
    /// when every level is 0 or there are no levels.
    pub fn find_intervals_hierarchical(arr: &Vec<u32>) -> (r: Vec<Vec<(usize, usize)>>)
        ensures
            r@.len() == spec_find_intervals_hier(arr@).len(),
            forall|j: int|
                0 <= j < r@.len() ==> (#[trigger] r@[j])@ == spec_find_intervals_hier(arr@)[j],
    {
        find_intervals_hier_impl(arr)
    }

    /// Renders the level-column layout as a sheet of operations.
    pub fn sheet_ops(&self) -> (r: SheetOps)
        requires
            all_levels_positive(self.outline@),
            self.outline@.items.len() + 1 <= u32::MAX,
            self.outline@.key_header.len() <= u32::MAX,
            spec_max_level(self.outline@) + spec_max_value_length(self.outline@) <= u16::MAX,
        ensures
            r@ == type2_ops(
                self.outline@,
                self.options.outline_rows,
                self.options.integrate_cells,
                self.options.shironuri,
            ),
    {
        let ghost o = self.outline@;
        let shironuri = self.options.shironuri;
        let ml = self.outline.max_level() as usize;
        let mv = self.outline.max_value_length();
        let width = ml + mv;
        let n = self.outline.item.len();
        let mut cells: Vec<CellWrite> = Vec::new();
        // Header row.
        {
            let style = full_border_style(shironuri);
            let mut c: usize = 0;
            while c < width
                invariant
                    o == self.outline@,
                    shironuri == self.options.shironuri,
                    ml == spec_max_level(o),
                    mv == spec_max_value_length(o),
                    width == ml + mv,
                    width <= u16::MAX,
                    n == o.items.len(),
                    c <= width,
                    style == full_border(shironuri),
                    cells@.len() == c,
                    forall|i: int|
                        0 <= i < c ==> #[trigger] cells@[i]@ == type2_header_row(o, shironuri)[i],
                decreases width - c,
            {
                let text: String = if c < ml {
                    if c < self.outline.key_header.len() {
                        self.outline.key_header[c].clone()
                    } else {
                        String::new()
                    }
                } else if c - ml < self.outline.value_header.len() {
                    self.outline.value_header[c - ml].clone()
                } else {
                    String::new()
                };
                cells.push(CellWrite { row: 0, col: c as u16, text, style });
                c = c + 1;
            }
        }
        // Item rows.
        let mut i: usize = 0;
        while i < n
            invariant
                o == self.outline@,
                all_levels_positive(o),
                shironuri == self.options.shironuri,
                ml == spec_max_level(o),
                mv == spec_max_value_length(o),
                width == ml + mv,
                width <= u16::MAX,
                n == o.items.len(),
                n + 1 <= u32::MAX,
                i <= n,
                Seq::new(cells@.len(), |k: int| cells@[k]@) =~= type2_header_row(o, shironuri)
                    + concat_blocks(|ii: int| type2_item_row(o, shironuri, ii), i as int),
            decreases n - i,
        {
            let ghost pre = Seq::new(cells@.len(), |k: int| cells@[k]@);
            let it = &self.outline.item[i];
            let lvl = it.level as usize;
            proof {
                assert(o.items[i as int].level >= 1);
                assert(o.items[i as int].level <= spec_max_level(o)) by {
                    assert(self.outline@.items[i as int].level <= spec_max_level(self.outline@))
                        by {
                        crate::outline::lemma_item_level_le_max(self.outline@, i as int);
                    }
                }
            }
            let mut c: usize = 0;
            while c < width
                invariant
                    o == self.outline@,
                    all_levels_positive(o),
                    shironuri == self.options.shironuri,
                    ml == spec_max_level(o),
                    mv == spec_max_value_length(o),
                    width == ml + mv,
                    width <= u16::MAX,
                    n == o.items.len(),
                    n + 1 <= u32::MAX,
                    i < n,
                    c <= width,
                    it == self.outline.item@[i as int],
                    lvl == o.items[i as int].level as int,
                    1 <= lvl <= ml,
                    cells@.len() == pre.len() + c,
                    forall|k: int| 0 <= k < pre.len() ==> #[trigger] cells@[k]@ == pre[k],
                    forall|k: int|
                        0 <= k < c ==> #[trigger] cells@[pre.len() + k]@ == type2_item_row(
                            o,
                            shironuri,
                            i as int,
                        )[k],
                decreases width - c,
            {
                let cell: CellWrite = if c < ml {
                    let l = c + 1;
                    let style = CellStyle {
                        top: l >= lvl || i == 0,
                        bottom: l > lvl || i == n - 1,
                        left: l <= lvl,
                        right: l < lvl || l == ml,
                        white: shironuri,
                    };
                    let text: String = if l == lvl {
                        it.key.clone()
                    } else {
                        String::new()
                    };
                    CellWrite { row: (i + 1) as u32, col: c as u16, text, style }
                } else {
                    let text: String = if c - ml < it.value.len() {
                        it.value[c - ml].clone()
                    } else {
                        String::new()
                    };
                    CellWrite {
                        row: (i + 1) as u32,
                        col: c as u16,
                        text,
                        style: full_border_style(shironuri),
                    }
                };
                proof {
                    assert(cell@ == type2_item_row(o, shironuri, i as int)[c as int]);
                }
                cells.push(cell);
                c = c + 1;
            }
            proof {
                let now = Seq::new(cells@.len(), |k: int| cells@[k]@);
                let target = pre + type2_item_row(o, shironuri, i as int);
                assert(now.len() == target.len());
                assert forall|k: int| 0 <= k < now.len() implies now[k] == target[k] by {
                    if k < pre.len() {
                        assert(cells@[k]@ == pre[k]);
                    } else {
                        let kk = k - pre.len();
                        assert(cells@[pre.len() + kk]@ == type2_item_row(o, shironuri, i as int)[kk]);
                    }
                }
                assert(now =~= target);
                assert(pre + type2_item_row(o, shironuri, i as int) =~= type2_header_row(
                    o,
                    shironuri,
                ) + concat_blocks(|ii: int| type2_item_row(o, shironuri, ii), i as int + 1));
            }
            i = i + 1;
        }
        // Row groups.
        let groups: Vec<RowGroup> = if self.options.outline_rows {
            let levels = self.item_level_vec();
            row_groups_impl(&levels, 1)
        } else {
            Vec::new()
        };
        // Merges.
        let merges: Vec<MergeWrite> = self.build_merges();
        let ops = SheetOps { whitewash: shironuri, cells, formats: Vec::new(), merges, groups };
        proof {
            assert(ops@ =~= type2_ops(
                o,
                self.options.outline_rows,
                self.options.integrate_cells,
                shironuri,
            ));
        }
        ops
    }

    /// Builds the merge list of [`type2_merges`].
    fn build_merges(&self) -> (r: Vec<MergeWrite>)
        requires
            all_levels_positive(self.outline@),
            self.outline@.items.len() + 1 <= u32::MAX,
            self.outline@.key_header.len() <= u32::MAX,
            spec_max_level(self.outline@) + spec_max_value_length(self.outline@) <= u16::MAX,
        ensures
            Seq::new(r@.len(), |k: int| r@[k]@) == type2_merges(
                self.outline@,
                self.options.integrate_cells,
                self.options.shironuri,
            ),
    {
        let ghost o = self.outline@;
        let shironuri = self.options.shironuri;
        let ml = self.outline.max_level() as usize;
        let n = self.outline.item.len();
        let mut merges: Vec<MergeWrite> = Vec::new();
        match self.options.integrate_cells {
            Some(IntegrateCellsOption::Colspan) => {
                let mut i: usize = 0;
                while i < n
                    invariant
                        o == self.outline@,
                        all_levels_positive(o),
                        shironuri == self.options.shironuri,
                        self.options.integrate_cells == Some(IntegrateCellsOption::Colspan),
                        ml == spec_max_level(o),
                        ml <= u16::MAX,
                        n == o.items.len(),
                        n + 1 <= u32::MAX,
                        i <= n,
                        Seq::new(merges@.len(), |k: int| merges@[k]@) =~= concat_blocks(
                            |ii: int| type2_colspan_merge(o, shironuri, ii),
                            i as int,
                        ),
                    decreases n - i,
                {
                    let ghost pre = Seq::new(merges@.len(), |k: int| merges@[k]@);
                    let it = &self.outline.item[i];
                    let lvl = it.level as usize;
                    proof {
                        assert(o.items[i as int].level >= 1);
                        crate::outline::lemma_item_level_le_max(self.outline@, i as int);
                    }
                    if lvl < ml {
                        let m = MergeWrite {
                            first_row: (i + 1) as u32,
                            first_col: (lvl - 1) as u16,
                            last_row: (i + 1) as u32,
                            last_col: (ml - 1) as u16,
                            text: it.key.clone(),
                            style: CellStyle {
                                top: true,
                                bottom: i == n - 1,
                                left: true,
                                right: false,
                                white: shironuri,
                            },
                        };
                        proof {
                            assert(m@ == type2_colspan_merge(o, shironuri, i as int)[0]);
                        }
                        merges.push(m);
                    }
                    proof {
                        assert(Seq::new(merges@.len(), |k: int| merges@[k]@) =~= pre
                            + type2_colspan_merge(o, shironuri, i as int));
                    }
                    i = i + 1;
                }
            },
            Some(IntegrateCellsOption::Rowspan) => {
                let mut i: usize = 0;
                while i < n
                    invariant
                        o == self.outline@,
                        all_levels_positive(o),
                        shironuri == self.options.shironuri,
                        self.options.integrate_cells == Some(IntegrateCellsOption::Rowspan),
                        ml == spec_max_level(o),
                        ml <= u16::MAX,
                        n == o.items.len(),
                        n + 1 <= u32::MAX,
                        i <= n,
                        Seq::new(merges@.len(), |k: int| merges@[k]@) =~= concat_blocks(
                            |ii: int| type2_rowspan_merge(o, shironuri, ii),
                            i as int,
                        ),
                    decreases n - i,
                {
                    let ghost pre = Seq::new(merges@.len(), |k: int| merges@[k]@);
                    let it = &self.outline.item[i];
                    let lvl = it.level;
                    proof {
                        assert(o.items[i as int].level >= 1);
                        crate::outline::lemma_item_level_le_max(self.outline@, i as int);
                    }
                    let mut e: usize = i;
                    let mut j: usize = i + 1;
                    while j < n && self.outline.item[j].level > lvl
                        invariant
                            o == self.outline@,
                            n == o.items.len(),
                            i < n,
                            lvl == o.items[i as int].level,
                            i + 1 <= j <= n,
                            e == j - 1,
                            desc_run_end(o.items, i as int, i as int + 1) == desc_run_end(
                                o.items,
                                i as int,
                                j as int,
                            ),
                        decreases n - j,
                    {
                        e = j;
                        j = j + 1;
                    }
                    proof {
                        assert(desc_run_end(o.items, i as int, j as int) == j - 1);
                        assert(desc_run_end(o.items, i as int, i as int + 1) == e as int);
                    }
                    if e > i {
                        let m = MergeWrite {
                            first_row: (i + 1) as u32,
                            first_col: (lvl - 1) as u16,
                            last_row: (e + 1) as u32,
                            last_col: (lvl - 1) as u16,
                            text: it.key.clone(),
                            style: CellStyle {
                                top: true,
                                bottom: true,
                                left: true,
                                right: false,
                                white: shironuri,
                            },
                        };
                        proof {
                            assert(m@ == type2_rowspan_merge(o, shironuri, i as int)[0]);
                        }
                        merges.push(m);
                    }
                    proof {
                        assert(Seq::new(merges@.len(), |k: int| merges@[k]@) =~= pre
                            + type2_rowspan_merge(o, shironuri, i as int));
                    }
                    i = i + 1;
                }
            },
            _ => {},
        }
        proof {
            assert(Seq::new(merges@.len(), |k: int| merges@[k]@) =~= type2_merges(
                o,
                self.options.integrate_cells,
                shironuri,
            ));
        }
        merges
    }

    /// The level of each item, in item order.
    fn item_level_vec(&self) -> (r: Vec<u32>)
        ensures
            r@ == item_levels(self.outline@),
    {
        let mut r: Vec<u32> = Vec::new();
        let mut i: usize = 0;
        while i < self.outline.item.len()
            invariant
                i <= self.outline.item@.len(),
                r@.len() == i,
                forall|k: int| 0 <= k < i ==> #[trigger] r@[k] == self.outline@.items[k].level,
            decreases self.outline.item@.len() - i,
        {
            r.push(self.outline.item[i].level);
            i = i + 1;
        }
        proof {
            assert(r@ =~= item_levels(self.outline@));
        }
        r
    }

    /// Renders the outline into the worksheet; the first writer error aborts
    /// the run.  An outline with no items and no headers asks nothing of the
    /// writer (without the white fill) and so succeeds.
    pub fn output_to_worksheet(&self, worksheet: &mut Worksheet) -> (r: Result<(), GenerateError>)
        requires
            all_levels_positive(self.outline@),
            self.outline@.items.len() + 1 <= u32::MAX,
            self.outline@.key_header.len() <= u32::MAX,
            spec_max_level(self.outline@) + spec_max_value_length(self.outline@) <= u16::MAX,
        ensures
            (self.outline@.items.len() == 0 && self.outline@.key_header.len() == 0
                && self.outline@.value_header.len() == 0 && !self.options.shironuri) ==> r is Ok,
    {
        let ops = self.sheet_ops();
        proof {
            let o = self.outline@;
            if o.items.len() == 0 && o.key_header.len() == 0 && o.value_header.len() == 0
                && !self.options.shironuri {
                lemma_type2_empty_outline(
                    o,
                    self.options.outline_rows,
                    self.options.integrate_cells,
                    self.options.shironuri,
                );
                assert(spec_max_level(o) == 0);
                assert(spec_max_value_length(o) == 0);
                assert(type2_header_row(o, self.options.shironuri).len() == 0);
                assert(ops@.cells.len() == 0);
                assert(ops.cells@.len() == 0);
                assert(ops.formats@.len() == 0);
                assert(ops.merges@.len() == 0);
                assert(ops.groups@.len() == 0);
                assert(!ops.whitewash);
            }
        }
        apply_sheet_ops(&ops, worksheet)
    }
}

/// Rendering is a pure function of the outline and options: two sheets that
/// both satisfy the rendering contract are identical.
pub proof fn lemma_type2_deterministic(
    r1: SheetOpsView,
    r2: SheetOpsView,
    o: OutlineView,
    outline_rows: bool,
    integrate: Option<IntegrateCellsOption>,
    shironuri: bool,
)
    requires
        r1 == type2_ops(o, outline_rows, integrate, shironuri),
        r2 == type2_ops(o, outline_rows, integrate, shironuri),
    ensures
        r1 == r2,
{
}

/// An outline with no items and no headers renders as exactly one (empty)
/// header row: every cell write sits on row 0, and there are no format
/// overrides, no merges and no row groups.
pub proof fn lemma_type2_empty_outline(
    o: OutlineView,
    outline_rows: bool,
    integrate: Option<IntegrateCellsOption>,
    shironuri: bool,
)
    requires
        o.items.len() == 0,
        o.key_header.len() == 0,
        o.value_header.len() == 0,
    ensures
        type2_ops(o, outline_rows, integrate, shironuri).cells =~= type2_header_row(o, shironuri),
        forall|k: int|
            0 <= k < type2_ops(o, outline_rows, integrate, shironuri).cells.len() ==> (
            #[trigger] type2_ops(o, outline_rows, integrate, shironuri).cells[k]).row == 0,
        type2_ops(o, outline_rows, integrate, shironuri).formats.len() == 0,
        type2_ops(o, outline_rows, integrate, shironuri).merges.len() == 0,
        type2_ops(o, outline_rows, integrate, shironuri).groups.len() == 0,
{
    assert(concat_blocks(|i: int| type2_item_row(o, shironuri, i), 0)
        =~= Seq::<CellWriteView>::empty());
    assert(type2_ops(o, outline_rows, integrate, shironuri).cells =~= type2_header_row(
        o,
        shironuri,
    ));
    match integrate {
        Some(IntegrateCellsOption::Colspan) => {
            assert(concat_blocks(|i: int| type2_colspan_merge(o, shironuri, i), 0)
                =~= Seq::<MergeWriteView>::empty());
        },
        Some(IntegrateCellsOption::Rowspan) => {
            assert(concat_blocks(|i: int| type2_rowspan_merge(o, shironuri, i), 0)
                =~= Seq::<MergeWriteView>::empty());
        },
        _ => {},
    }
    if outline_rows {
        assert(item_levels(o).len() == 0);
        assert(spec_row_groups(item_levels(o), 1) =~= Seq::<RowGroup>::empty());
    }
}

} // verus!
