//! The offset level-column layout: like the level-column layout but with one
//! spacer column after the level columns, the first value placed beside the
//! key, and colspan and rowspan merging combinable.

use vstd::prelude::*;

use crate::generator::base::IntegrateCellsOption;
use crate::generator::sheet::{
    full_border, full_border_style, CellStyle, CellWrite, CellWriteView, MergeWrite,
    MergeWriteView, RowGroup, SheetOps, SheetOpsView, GenerateError, apply_sheet_ops,
};
use crate::generator::xlsx_type2::desc_run_end;
use crate::generator::{
    concat_blocks, find_intervals_impl, find_intervals_hier_impl, item_levels, row_groups_impl,
    spec_find_intervals, spec_find_intervals_hier, spec_row_groups,
};
use crate::outline::{
    Outline, OutlineView, all_levels_positive, spec_max_level, spec_max_value_length,
};
use rust_xlsxwriter::Worksheet;

verus! {

/// Options of the offset level-column layout.
#[derive(Debug, Clone)]
pub struct XlsxType3GeneratorOptions {
    pub outline_rows: bool,
    pub integrate_cells: Option<IntegrateCellsOption>,
}

/// The offset level-column generator, holding the outline it renders.
pub struct XlsxType3Generator {
    pub outline: Outline,
    pub options: XlsxType3GeneratorOptions,
}

/// The style used by every merge of this layout: a thin line on top and left.
pub open spec fn type3_merge_style() -> CellStyle {
    CellStyle { top: true, bottom: false, left: true, right: false, white: false }
}

/// The column after the spacer block where the later value headers start.
pub open spec fn type3_tail_start(ml: int) -> int {
    if ml >= 1 {
        ml + 1
    } else {
        2
    }
}

/// The header row, as the ordered cells it is written with: the first key
/// header, the first value header, blanks through the spacer block, then the
/// remaining value headers.
pub open spec fn type3_header_row(o: OutlineView) -> Seq<CellWriteView> {
    let ml = spec_max_level(o);
    let mv = spec_max_value_length(o);
    let head0 = CellWriteView {
        row: 0,
        col: 0,
        text: if o.key_header.len() > 0 {
            o.key_header[0]
        } else {
            Seq::empty()
        },
        style: full_border(false),
    };
    let head1 = CellWriteView {
        row: 0,
        col: 1,
        text: if o.value_header.len() > 0 {
            o.value_header[0]
        } else {
            Seq::empty()
        },
        style: full_border(false),
    };
    let blanks = Seq::new(
        if ml >= 1 {
            (ml - 1) as nat
        } else {
            0
        },
        |k: int|
            CellWriteView { row: 0, col: (2 + k) as u16, text: Seq::empty(), style: full_border(false) },
    );
    let tail = Seq::new(
        if mv >= 1 {
            (mv - 1) as nat
        } else {
            0
        },
        |k: int|
            CellWriteView {
                row: 0,
                col: (type3_tail_start(ml) + k) as u16,
                text: if 1 + k < o.value_header.len() {
                    o.value_header[1 + k]
                } else {
                    Seq::empty()
                },
                style: full_border(false),
            },
    );
    seq![head0] + seq![head1] + blanks + tail
}

/// The border rule of a key cell, as in the level-column layout but with the
/// right line also on the spacer column.
pub open spec fn type3_key_style(o: OutlineView, i: int, l: int) -> CellStyle {
    let ml = spec_max_level(o);
    let lvl = o.items[i].level as int;
    CellStyle {
        top: l >= lvl || i == 0,
        bottom: l > lvl || i == o.items.len() - 1,
        left: l <= lvl,
        right: l < lvl || l == ml + 1,
        white: false,
    }
}

/// The row of item `i`, as the ordered cells it is written with: the key and
/// spacer columns under the border rule, the first value overwriting the cell
/// beside the key, then the remaining values.
pub open spec fn type3_item_row(o: OutlineView, i: int) -> Seq<CellWriteView> {
    let ml = spec_max_level(o);
    let mv = spec_max_value_length(o);
    let it = o.items[i];
    let keys = Seq::new(
        (ml + 1) as nat,
        |c: int|
            CellWriteView {
                row: (i + 1) as u32,
                col: c as u16,
                text: if c + 1 == it.level as int {
                    it.key
                } else {
                    Seq::empty()
                },
                style: type3_key_style(o, i, c + 1),
            },
    );
    let value0 = if it.values.len() > 0 {
        seq![
            CellWriteView {
                row: (i + 1) as u32,
                col: it.level as u16,
                text: it.values[0],
                style: full_border(false),
            },
        ]
    } else {
        Seq::empty()
    };
    let tail = Seq::new(
        if mv >= 1 {
            (mv - 1) as nat
        } else {
            0
        },
        |k: int|
            CellWriteView {
                row: (i + 1) as u32,
                col: (ml + 1 + k) as u16,
                text: if 1 + k < it.values.len() {
                    it.values[1 + k]
                } else {
                    Seq::empty()
                },
                style: full_border(false),
            },
    );
    keys + value0 + tail
}

/// The header merge of the colspan scheme: the first value header stretched
/// over the spacer block, present when there are at least two level columns.
pub open spec fn type3_head_merge(o: OutlineView) -> Seq<MergeWriteView> {
    let ml = spec_max_level(o);
    if ml > 1 {
        seq![
            MergeWriteView {
                first_row: 0,
                first_col: 1,
                last_row: 0,
                last_col: ml as u16,
                text: if o.value_header.len() > 0 {
                    o.value_header[0]
                } else {
                    Seq::empty()
                },
                style: type3_merge_style(),
            },
        ]
    } else {
        Seq::empty()
    }
}

/// The colspan merge of item `i`: its first value stretched from beside its
/// key to the spacer column, when its level lies short of the last level
/// column.
pub open spec fn type3_colspan_item_merge(o: OutlineView, i: int) -> Seq<MergeWriteView> {
    let ml = spec_max_level(o);
    let it = o.items[i];
    if (it.level as int) < ml {
        seq![
            MergeWriteView {
                first_row: (i + 1) as u32,
                first_col: it.level as u16,
                last_row: (i + 1) as u32,
                last_col: ml as u16,
                text: if it.values.len() > 0 {
                    it.values[0]
                } else {
                    Seq::empty()
                },
                style: type3_merge_style(),
            },
        ]
    } else {
        Seq::empty()
    }
}

/// The colspan merges: the header merge, then one per shallow item.
pub open spec fn type3_colspan_merges(o: OutlineView) -> Seq<MergeWriteView> {
    type3_head_merge(o) + concat_blocks(
        |i: int| type3_colspan_item_merge(o, i),
        o.items.len() as int,
    )
}

/// The rowspan merge of item `i`: its key cell stretched down over the run
/// of strictly deeper items that follows it.
pub open spec fn type3_rowspan_item_merge(o: OutlineView, i: int) -> Seq<MergeWriteView> {
    let it = o.items[i];
    let e = desc_run_end(o.items, i, i + 1);
    if e > i {
        seq![
            MergeWriteView {
                first_row: (i + 1) as u32,
                first_col: (it.level - 1) as u16,
                last_row: (e + 1) as u32,
                last_col: (it.level - 1) as u16,
                text: it.key,
                style: type3_merge_style(),
            },
        ]
    } else {
        Seq::empty()
    }
}

/// The rowspan merges: one per item with a deeper run after it.
pub open spec fn type3_rowspan_merges(o: OutlineView) -> Seq<MergeWriteView> {
    concat_blocks(|i: int| type3_rowspan_item_merge(o, i), o.items.len() as int)
}

/// The merges of the layout: the colspan set, the rowspan set, or both in
/// that order.
pub open spec fn type3_merges(o: OutlineView, integrate: Option<IntegrateCellsOption>) -> Seq<
    MergeWriteView,
> {
    let col = match integrate {
        Some(IntegrateCellsOption::Colspan) => true,
        Some(IntegrateCellsOption::Both) => true,
        _ => false,
    };
    let row = match integrate {
        Some(IntegrateCellsOption::Rowspan) => true,
        Some(IntegrateCellsOption::Both) => true,
        _ => false,
    };
    (if col {
        type3_colspan_merges(o)
    } else {
        Seq::empty()
    }) + (if row {
        type3_rowspan_merges(o)
    } else {
        Seq::empty()
    })
}

/// Everything the offset level-column layout asks of the sheet.
pub open spec fn type3_ops(
    o: OutlineView,
    outline_rows: bool,
    integrate: Option<IntegrateCellsOption>,
) -> SheetOpsView {
    SheetOpsView {
        whitewash: false,
        cells: type3_header_row(o) + concat_blocks(
            |i: int| type3_item_row(o, i),
            o.items.len() as int,
        ),
        formats: Seq::empty(),
        merges: type3_merges(o, integrate),
        groups: if outline_rows {
            spec_row_groups(item_levels(o), 1)
        } else {
            Seq::empty()
        },
    }
}

impl XlsxType3Generator {
    /// Wraps an outline and options for rendering.
    pub fn new(outline: Outline, options: XlsxType3GeneratorOptions) -> (r: Self)
        ensures
            r.outline == outline,
            r.options == options,
    {
        XlsxType3Generator { outline, options }
    }

    /// The maximal inclusive index runs of `arr` whose entries are all at or
    /// above `threshold`, in order.
    pub fn find_intervals(arr: &Vec<u32>, threshold: u32) -> (r: Vec<(usize, usize)>)
        ensures
            r@ == spec_find_intervals(arr@, threshold),
    {
        find_intervals_impl(arr, threshold)
    }

    /// One interval list per threshold from 1 up to the largest level; empty
    /// when every level is 0 or there are no levels.
    pub fn find_intervals_hierarchical(arr: &Vec<u32>) -> (r: Vec<Vec<(usize, usize)>>)
        ensures
            r@.len() == spec_find_intervals_hier(arr@).len(),
            forall|j: int|
                0 <= j < r@.len() ==> (#[trigger] r@[j])@ == spec_find_intervals_hier(arr@)[j],
    {
        find_intervals_hier_impl(arr)
    }

    /// Renders the offset level-column layout as a sheet of operations.
    pub fn sheet_ops(&self) -> (r: SheetOps)
        requires
            all_levels_positive(self.outline@),
            self.outline@.items.len() + 1 <= u32::MAX,
            self.outline@.key_header.len() <= u32::MAX,
            spec_max_level(self.outline@) + spec_max_value_length(self.outline@) + 1 <= u16::MAX,
        ensures
            r@ == type3_ops(self.outline@, self.options.outline_rows, self.options.integrate_cells),
    {
        let ghost o = self.outline@;
        let ml = self.outline.max_level() as usize;
        let mv = self.outline.max_value_length();
        let n = self.outline.item.len();
        let mut cells: Vec<CellWrite> = Vec::new();
        // Header row.
        {
            let style = full_border_style(false);
            let h0: String = if self.outline.key_header.len() > 0 {
                self.outline.key_header[0].clone()
            } else {
                String::new()
            };
            cells.push(CellWrite { row: 0, col: 0, text: h0, style });
            let h1: String = if self.outline.value_header.len() > 0 {
                self.outline.value_header[0].clone()
            } else {
                String::new()
            };
            cells.push(CellWrite { row: 0, col: 1, text: h1, style });
            let mut c: usize = 2;
            while c <= ml
                invariant
                    o == self.outline@,
                    ml == spec_max_level(o),
                    mv == spec_max_value_length(o),
                    ml + mv + 1 <= u16::MAX,
                    2 <= c,
                    c <= ml + 1 || c == 2,
                    style == full_border(false),
                    cells@.len() == c,
                    forall|k: int|
                        0 <= k < c ==> #[trigger] cells@[k]@ == type3_header_row(o)[k],
                decreases ml + 1 - c,
            {
                cells.push(CellWrite { row: 0, col: c as u16, text: String::new(), style });
                c = c + 1;
            }
            let ghost base = cells@.len() as int;
            proof {
                assert(base == 2 + if ml >= 1 {
                    (ml - 1) as int
                } else {
                    0
                });
            }
            let start: usize = if ml >= 1 {
                ml + 1
            } else {
                2
            };
            let mut k: usize = 1;
            while k < mv
                invariant
                    o == self.outline@,
                    ml == spec_max_level(o),
                    mv == spec_max_value_length(o),
                    ml + mv + 1 <= u16::MAX,
                    1 <= k,
                    k <= mv || k == 1,
                    start == type3_tail_start(ml as int),
                    base == 2 + if ml >= 1 {
                        (ml - 1) as int
                    } else {
                        0
                    },
                    style == full_border(false),
                    cells@.len() == base + k - 1,
                    forall|kk: int|
                        0 <= kk < cells@.len() ==> #[trigger] cells@[kk]@ == type3_header_row(
                            o,
                        )[kk],
                decreases mv - k,
            {
                let text: String = if k < self.outline.value_header.len() {
                    self.outline.value_header[k].clone()
                } else {
                    String::new()
                };
                let cw = CellWrite { row: 0, col: (start + (k - 1)) as u16, text, style };
                proof {
                    assert(cw@ == type3_header_row(o)[base + (k - 1)]);
                }
                cells.push(cw);
                k = k + 1;
            }
            proof {
                assert(Seq::new(cells@.len(), |z: int| cells@[z]@) =~= type3_header_row(o));
            }
        }
        // Item rows.
        let mut i: usize = 0;
        while i < n
            invariant
                o == self.outline@,
                all_levels_positive(o),
                ml == spec_max_level(o),
                mv == spec_max_value_length(o),
                ml + mv + 1 <= u16::MAX,
                n == o.items.len(),
                n + 1 <= u32::MAX,
                i <= n,
                Seq::new(cells@.len(), |k: int| cells@[k]@) =~= type3_header_row(o)
                    + concat_blocks(|ii: int| type3_item_row(o, ii), i as int),
            decreases n - i,
        {
            let ghost pre = Seq::new(cells@.len(), |k: int| cells@[k]@);
            let it = &self.outline.item[i];
            let lvl = it.level as usize;
            proof {
                assert(o.items[i as int].level >= 1);
                crate::outline::lemma_item_level_le_max(self.outline@, i as int);
            }
            let mut c: usize = 0;
            while c < ml + 1
                invariant
                    o == self.outline@,
                    all_levels_positive(o),
                    ml == spec_max_level(o),
                    mv == spec_max_value_length(o),
                    ml + mv + 1 <= u16::MAX,
                    n == o.items.len(),
                    n + 1 <= u32::MAX,
                    i < n,
                    c <= ml + 1,
                    it == self.outline.item@[i as int],
                    lvl == o.items[i as int].level as int,
                    1 <= lvl <= ml,
                    cells@.len() == pre.len() + c,
                    forall|k: int| 0 <= k < pre.len() ==> #[trigger] cells@[k]@ == pre[k],
                    forall|k: int|
                        0 <= k < c ==> #[trigger] cells@[pre.len() + k]@ == type3_item_row(
                            o,
                            i as int,
                        )[k],
                decreases ml + 1 - c,
            {
                let l = c + 1;
                let style = CellStyle {
                    top: l >= lvl || i == 0,
                    bottom: l > lvl || i == n - 1,
                    left: l <= lvl,
                    right: l < lvl || l == ml + 1,
                    white: false,
                };
                let text: String = if l == lvl {
                    it.key.clone()
                } else {
                    String::new()
                };
                let cw = CellWrite { row: (i + 1) as u32, col: c as u16, text, style };
                proof {
                    assert(cw@ == type3_item_row(o, i as int)[c as int]);
                }
                cells.push(cw);
                c = c + 1;
            }
            if it.value.len() > 0 {
                let cw = CellWrite {
                    row: (i + 1) as u32,
                    col: lvl as u16,
                    text: it.value[0].clone(),
                    style: full_border_style(false),
                };
                proof {
                    assert(cw@ == type3_item_row(o, i as int)[ml + 1]);
                }
                cells.push(cw);
            }
            let ghost mid = cells@.len() as int;
            proof {
                assert(mid - pre.len() == (ml + 1) + if o.items[i as int].values.len() > 0 {
                    1int
                } else {
                    0int
                });
                assert forall|z: int| pre.len() <= z < cells@.len() implies #[trigger] cells@[z]@
                    == type3_item_row(o, i as int)[z - pre.len()] by {
                    let kk = z - pre.len();
                    if kk < ml + 1 {
                        assert(cells@[pre.len() + kk]@ == type3_item_row(o, i as int)[kk]);
                    } else {
                        assert(cells@[z]@ == type3_item_row(o, i as int)[ml + 1]);
                    }
                }
            }
            let mut k: usize = 1;
            while k < mv
                invariant
                    o == self.outline@,
                    all_levels_positive(o),
                    ml == spec_max_level(o),
                    mv == spec_max_value_length(o),
                    ml + mv + 1 <= u16::MAX,
                    n == o.items.len(),
                    n + 1 <= u32::MAX,
                    i < n,
                    1 <= k,
                    k <= mv || k == 1,
                    it == self.outline.item@[i as int],
                    mid - pre.len() == (ml + 1) + if o.items[i as int].values.len() > 0 {
                        1int
                    } else {
                        0int
                    },
                    cells@.len() == mid + k - 1,
                    forall|z: int| 0 <= z < pre.len() ==> #[trigger] cells@[z]@ == pre[z],
                    forall|z: int|
                        pre.len() <= z < cells@.len() ==> #[trigger] cells@[z]@ == type3_item_row(
                            o,
                            i as int,
                        )[z - pre.len()],
                decreases mv - k,
            {
                let text: String = if k < it.value.len() {
                    it.value[k].clone()
                } else {
                    String::new()
                };
                let cw = CellWrite {
                    row: (i + 1) as u32,
                    col: (ml + 1 + (k - 1)) as u16,
                    text,
                    style: full_border_style(false),
                };
                proof {
                    assert(cw@ == type3_item_row(o, i as int)[(mid - pre.len()) + (k - 1)]);
                }
                cells.push(cw);
                k = k + 1;
            }
            proof {
                let now = Seq::new(cells@.len(), |z: int| cells@[z]@);
                let target = pre + type3_item_row(o, i as int);
                assert(now.len() == target.len());
                assert forall|z: int| 0 <= z < now.len() implies now[z] == target[z] by {
                    if z < pre.len() {
                        assert(cells@[z]@ == pre[z]);
                    } else {
                        assert(cells@[z]@ == type3_item_row(o, i as int)[z - pre.len()]);
                    }
                }
                assert(now =~= target);
                assert(pre + type3_item_row(o, i as int) =~= type3_header_row(o) + concat_blocks(
                    |ii: int| type3_item_row(o, ii),
                    i as int + 1,
                ));
            }
            i = i + 1;
        }
        // Row groups.
        let groups: Vec<RowGroup> = if self.options.outline_rows {
            let levels = self.item_level_vec();
            row_groups_impl(&levels, 1)
        } else {
            Vec::new()
        };
        // Merges.
        let merges: Vec<MergeWrite> = self.build_merges();
        let ops = SheetOps { whitewash: false, cells, formats: Vec::new(), merges, groups };
        proof {
            assert(ops@ =~= type3_ops(o, self.options.outline_rows, self.options.integrate_cells));
        }
        ops
    }

    /// Builds the merge list of [`type3_merges`].
    fn build_merges(&self) -> (r: Vec<MergeWrite>)
        requires
            all_levels_positive(self.outline@),
            self.outline@.items.len() + 1 <= u32::MAX,
            self.outline@.key_header.len() <= u32::MAX,
            spec_max_level(self.outline@) + spec_max_value_length(self.outline@) + 1 <= u16::MAX,
        ensures
            Seq::new(r@.len(), |k: int| r@[k]@) == type3_merges(
                self.outline@,
                self.options.integrate_cells,
            ),
    {
        let ghost o = self.outline@;
        let ml = self.outline.max_level() as usize;
        let n = self.outline.item.len();
        let do_col = match self.options.integrate_cells {
            Some(IntegrateCellsOption::Colspan) => true,
            Some(IntegrateCellsOption::Both) => true,
            _ => false,
        };
        let do_row = match self.options.integrate_cells {
            Some(IntegrateCellsOption::Rowspan) => true,
            Some(IntegrateCellsOption::Both) => true,
            _ => false,
        };
        let style = CellStyle { top: true, bottom: false, left: true, right: false, white: false };
        let mut merges: Vec<MergeWrite> = Vec::new();
        if do_col {
            if ml > 1 {
                let text: String = if self.outline.value_header.len() > 0 {
                    self.outline.value_header[0].clone()
                } else {
                    String::new()
                };
                let m = MergeWrite {
                    first_row: 0,
                    first_col: 1,
                    last_row: 0,
                    last_col: ml as u16,
                    text,
                    style,
                };
                proof {
                    assert(m@ == type3_colspan_merges(o)[0]);
                }
                merges.push(m);
            }
            let mut i: usize = 0;
            while i < n
                invariant
                    o == self.outline@,
                    all_levels_positive(o),
                    ml == spec_max_level(o),
                    ml + 1 <= u16::MAX,
                    n == o.items.len(),
                    n + 1 <= u32::MAX,
                    i <= n,
                    style == type3_merge_style(),
                    Seq::new(merges@.len(), |k: int| merges@[k]@) =~= type3_head_merge(o)
                        + concat_blocks(|ii: int| type3_colspan_item_merge(o, ii), i as int),
                decreases n - i,
            {
                let ghost pre = Seq::new(merges@.len(), |k: int| merges@[k]@);
                let it = &self.outline.item[i];
                let lvl = it.level as usize;
                proof {
                    assert(o.items[i as int].level >= 1);
                    crate::outline::lemma_item_level_le_max(self.outline@, i as int);
                }
                if lvl < ml {
                    let text: String = if it.value.len() > 0 {
                        it.value[0].clone()
                    } else {
                        String::new()
                    };
                    let m = MergeWrite {
                        first_row: (i + 1) as u32,
                        first_col: lvl as u16,
                        last_row: (i + 1) as u32,
                        last_col: ml as u16,
                        text,
                        style,
                    };
                    proof {
                        assert(m@ == type3_colspan_item_merge(o, i as int)[0]);
                    }
                    merges.push(m);
                }
                proof {
                    assert(Seq::new(merges@.len(), |k: int| merges@[k]@) =~= pre
                        + type3_colspan_item_merge(o, i as int));
                }
                i = i + 1;
            }
        }
        if do_row {
            let ghost colpart = Seq::new(merges@.len(), |k: int| merges@[k]@);
            proof {
                assert(colpart =~= if do_col {
                    type3_colspan_merges(o)
                } else {
                    Seq::<MergeWriteView>::empty()
                });
            }
            let mut i: usize = 0;
            while i < n
                invariant
                    o == self.outline@,
                    all_levels_positive(o),
                    ml == spec_max_level(o),
                    ml + 1 <= u16::MAX,
                    n == o.items.len(),
                    n + 1 <= u32::MAX,
                    i <= n,
                    style == type3_merge_style(),
                    colpart == if do_col {
                        type3_colspan_merges(o)
                    } else {
                        Seq::<MergeWriteView>::empty()
                    },
                    Seq::new(merges@.len(), |k: int| merges@[k]@) =~= colpart + concat_blocks(
                        |ii: int| type3_rowspan_item_merge(o, ii),
                        i as int,
                    ),
                decreases n - i,
            {
                let ghost pre = Seq::new(merges@.len(), |k: int| merges@[k]@);
                let it = &self.outline.item[i];
                let lvl = it.level;
                proof {
                    assert(o.items[i as int].level >= 1);
                    crate::outline::lemma_item_level_le_max(self.outline@, i as int);
                }
                let mut e: usize = i;
                let mut j: usize = i + 1;
                while j < n && self.outline.item[j].level > lvl
                    invariant
                        o == self.outline@,
                        n == o.items.len(),
                        i < n,
                        lvl == o.items[i as int].level,
                        i + 1 <= j <= n,
                        e == j - 1,
                        desc_run_end(o.items, i as int, i as int + 1) == desc_run_end(
                            o.items,
                            i as int,
                            j as int,
                        ),
                    decreases n - j,
                {
                    e = j;
                    j = j + 1;
                }
                proof {
                    assert(desc_run_end(o.items, i as int, j as int) == j - 1);
                    assert(desc_run_end(o.items, i as int, i as int + 1) == e as int);
                }
                if e > i {
                    let m = MergeWrite {
                        first_row: (i + 1) as u32,
                        first_col: (lvl - 1) as u16,
                        last_row: (e + 1) as u32,
                        last_col: (lvl - 1) as u16,
                        text: it.key.clone(),
                        style,
                    };
                    proof {
                        assert(m@ == type3_rowspan_item_merge(o, i as int)[0]);
                    }
                    merges.push(m);
                }
                proof {
                    assert(Seq::new(merges@.len(), |k: int| merges@[k]@) =~= pre
                        + type3_rowspan_item_merge(o, i as int));
                }
                i = i + 1;
            }
        }
        proof {
            assert(Seq::new(merges@.len(), |k: int| merges@[k]@) =~= type3_merges(
                o,
                self.options.integrate_cells,
            ));
        }
        merges
    }

    /// The level of each item, in item order.
    fn item_level_vec(&self) -> (r: Vec<u32>)
        ensures
            r@ == item_levels(self.outline@),
    {
        let mut r: Vec<u32> = Vec::new();
        let mut i: usize = 0;
        while i < self.outline.item.len()
            invariant
                i <= self.outline.item@.len(),
                r@.len() == i,
                forall|k: int| 0 <= k < i ==> #[trigger] r@[k] == self.outline@.items[k].level,
            decreases self.outline.item@.len() - i,
        {
            r.push(self.outline.item[i].level);
            i = i + 1;
        }
        proof {
            assert(r@ =~= item_levels(self.outline@));
        }
        r
    }

    /// Renders the outline into the worksheet; the first writer error aborts
    /// the run.
    pub fn output_to_worksheet(&self, worksheet: &mut Worksheet) -> Result<(), GenerateError>
        requires
            all_levels_positive(self.outline@),
            self.outline@.items.len() + 1 <= u32::MAX,
            self.outline@.key_header.len() <= u32::MAX,
            spec_max_level(self.outline@) + spec_max_value_length(self.outline@) + 1 <= u16::MAX,
    {
        let ops = self.sheet_ops();
        apply_sheet_ops(&ops, worksheet)
    }
}

/// Rendering is a pure function of the outline and options: two sheets that
/// both satisfy the rendering contract are identical.
pub proof fn lemma_type3_deterministic(
    r1: SheetOpsView,
    r2: SheetOpsView,
    o: OutlineView,
    outline_rows: bool,
    integrate: Option<IntegrateCellsOption>,
)
    requires
        r1 == type3_ops(o, outline_rows, integrate),
        r2 == type3_ops(o, outline_rows, integrate),
    ensures
        r1 == r2,
{
}

/// An outline with no items and no headers renders as exactly one header
/// row: every cell write sits on row 0, and there are no format overrides,
/// no merges and no row groups.
pub proof fn lemma_type3_empty_outline(
    o: OutlineView,
    outline_rows: bool,
    integrate: Option<IntegrateCellsOption>,
)
    requires
        o.items.len() == 0,
        o.key_header.len() == 0,
        o.value_header.len() == 0,
    ensures
        type3_ops(o, outline_rows, integrate).cells =~= type3_header_row(o),
        forall|k: int|
            0 <= k < type3_ops(o, outline_rows, integrate).cells.len() ==> (#[trigger] type3_ops(
                o,
                outline_rows,
                integrate,
            ).cells[k]).row == 0,
        type3_ops(o, outline_rows, integrate).formats.len() == 0,
        type3_ops(o, outline_rows, integrate).merges.len() == 0,
        type3_ops(o, outline_rows, integrate).groups.len() == 0,
{
    assert(concat_blocks(|i: int| type3_item_row(o, i), 0) =~= Seq::<CellWriteView>::empty());
    assert(type3_ops(o, outline_rows, integrate).cells =~= type3_header_row(o));
    assert(spec_max_level(o) == 0);
    assert(type3_head_merge(o) =~= Seq::<MergeWriteView>::empty());
    assert(concat_blocks(|i: int| type3_colspan_item_merge(o, i), 0)
        =~= Seq::<MergeWriteView>::empty());
    assert(concat_blocks(|i: int| type3_rowspan_item_merge(o, i), 0)
        =~= Seq::<MergeWriteView>::empty());
    assert(type3_colspan_merges(o) =~= Seq::<MergeWriteView>::empty());
    assert(type3_rowspan_merges(o) =~= Seq::<MergeWriteView>::empty());
    assert(type3_merges(o, integrate) =~= Seq::<MergeWriteView>::empty());
    if outline_rows {
        assert(item_levels(o).len() == 0);
        assert(spec_row_groups(item_levels(o), 1) =~= Seq::<RowGroup>::empty());
    }
}

} // verus!
