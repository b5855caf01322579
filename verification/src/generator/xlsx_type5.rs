//! The compact tree-walk layout: one row per leaf with the full ancestor path
//! repeated, side borders kept only at the leaf's own level and the last
//! level column, and optional colspan key merging.

use vstd::prelude::*;

use crate::generator::sheet::{
    full_border, full_border_style, CellStyle, CellWrite, CellWriteView, MergeWrite,
    MergeWriteView, SheetOps, SheetOpsView, GenerateError, apply_sheet_ops,
};
use crate::generator::{concat_blocks, IntegrateCellsOption};
use crate::outline::{
    key_at_level, leaf_count, lemma_item_level_le_max, lemma_leaf_count_bounds, lemma_leaf_iff,
    spec_is_leaf, spec_max_level, spec_max_value_length, spec_parent_node, tree_matches_items,
    all_levels_positive, Outline, OutlineItemView, OutlineTree, OutlineView,
};
use rust_xlsxwriter::Worksheet;

verus! {

/// Options of the compact tree-walk layout.
#[derive(Debug, Clone)]
pub struct XlsxType5GeneratorOptions {
    pub integrate_cells: Option<IntegrateCellsOption>,
    pub shironuri: bool,
}

/// The compact tree-walk generator, holding the outline it renders.
pub struct XlsxType5Generator {
    pub outline: Outline,
    pub options: XlsxType5GeneratorOptions,
}

/// Pads an optional-string list with `None` up to `target_len`.
pub fn pad_array(arr: Vec<Option<String>>, target_len: usize) -> (r: Vec<Option<String>>)
    ensures
        r@.len() == if arr@.len() >= target_len {
            arr@.len() as int
        } else {
            target_len as int
        },
        forall|i: int| 0 <= i < arr@.len() ==> #[trigger] r@[i] == arr@[i],
        forall|i: int| arr@.len() <= i < r@.len() ==> (#[trigger] r@[i]) is None,
{
    let ghost orig = arr@;
    let mut arr = arr;
    while arr.len() < target_len
        invariant
            forall|i: int| 0 <= i < orig.len() ==> #[trigger] arr@[i] == orig[i],
            forall|i: int| orig.len() <= i < arr@.len() ==> (#[trigger] arr@[i]) is None,
            arr@.len() >= orig.len(),
            arr@.len() <= target_len || arr@.len() == orig.len(),
        decreases target_len - arr@.len(),
    {
        arr.push(None);
    }
    arr
}

/// The header row: key headers in the level columns, then value headers, all
/// with a full thin border.
pub open spec fn type5_header_row(o: OutlineView, shironuri: bool) -> Seq<CellWriteView> {
    let ml = spec_max_level(o);
    let mv = spec_max_value_length(o);
    Seq::new(
        (ml + mv) as nat,
        |c: int|
            CellWriteView {
                row: 0,
                col: c as u16,
                text: if c < ml {
                    if c < o.key_header.len() {
                        o.key_header[c]
                    } else {
                        Seq::empty()
                    }
                } else if c - ml < o.value_header.len() {
                    o.value_header[c - ml]
                } else {
                    Seq::empty()
                },
                style: full_border(shironuri),
            },
    )
}

/// The text of level column `c` on the row of leaf `i`: the key of the chain
/// node at level `c + 1`, or blank.
pub open spec fn type5_key_text(items: Seq<OutlineItemView>, i: int, c: int) -> Seq<char> {
    match key_at_level(items, i + 1, c + 1) {
        Some(k) => k,
        None => Seq::empty(),
    }
}

/// The cells written for leaf `i` on data row `row`: the full path and the
/// values under a full border, then the border fix-ups from the leaf's level
/// through the last level column, which keep a left line only at the leaf's
/// own level and a right line only at the last level column.
pub open spec fn type5_leaf_cells(o: OutlineView, shironuri: bool, i: int, row: int) -> Seq<
    CellWriteView,
> {
    let ml = spec_max_level(o);
    let mv = spec_max_value_length(o);
    let it = o.items[i];
    let lvl = it.level as int;
    let base = Seq::new(
        (ml + mv) as nat,
        |c: int|
            CellWriteView {
                row: row as u32,
                col: c as u16,
                text: if c < ml {
                    type5_key_text(o.items, i, c)
                } else if c - ml < it.values.len() {
                    it.values[c - ml]
                } else {
                    Seq::empty()
                },
                style: full_border(shironuri),
            },
    );
    let fixups = Seq::new(
        if lvl < ml {
            (ml - lvl + 1) as nat
        } else {
            0
        },
        |k: int|
            {
                let l = lvl + k;
                CellWriteView {
                    row: row as u32,
                    col: (l - 1) as u16,
                    text: if l == lvl {
                        it.key
                    } else {
                        Seq::empty()
                    },
                    style: CellStyle {
                        top: true,
                        bottom: true,
                        left: l == lvl,
                        right: l == ml,
                        white: shironuri,
                    },
                }
            },
    );
    base + fixups
}

/// The cells contributed by item `i`: a row when it is a leaf, nothing
/// otherwise.
pub open spec fn type5_item_cells(o: OutlineView, shironuri: bool, i: int) -> Seq<CellWriteView> {
    if spec_is_leaf(o.items, i) {
        type5_leaf_cells(o, shironuri, i, 1 + leaf_count(o.items, i))
    } else {
        Seq::empty()
    }
}

/// The colspan merge contributed by item `i`: for a leaf short of the last
/// level column, its key cell stretched to that column.
pub open spec fn type5_item_merge(o: OutlineView, shironuri: bool, i: int) -> Seq<MergeWriteView> {
    let ml = spec_max_level(o);
    let it = o.items[i];
    if spec_is_leaf(o.items, i) && (it.level as int) < ml {
        seq![
            MergeWriteView {
                first_row: (1 + leaf_count(o.items, i)) as u32,
                first_col: (it.level - 1) as u16,
                last_row: (1 + leaf_count(o.items, i)) as u32,
                last_col: (ml - 1) as u16,
                text: it.key,
                style: full_border(shironuri),
            },
        ]
    } else {
        Seq::empty()
    }
}

/// Everything the compact tree-walk layout asks of the sheet; only the
/// colspan merge request is honoured.
pub open spec fn type5_ops(
    o: OutlineView,
    integrate: Option<IntegrateCellsOption>,
    shironuri: bool,
) -> SheetOpsView {
    SheetOpsView {
        whitewash: shironuri,
        cells: type5_header_row(o, shironuri) + concat_blocks(
            |i: int| type5_item_cells(o, shironuri, i),
            o.items.len() as int,
        ),
        formats: Seq::empty(),
        merges: if integrate == Some(IntegrateCellsOption::Colspan) {
            concat_blocks(|i: int| type5_item_merge(o, shironuri, i), o.items.len() as int)
        } else {
            Seq::empty()
        },
        groups: Seq::empty(),
    }
}

/// Walks the ancestor chain of node `m` for the first node at level `l`,
/// returning its key.
fn chain_key(tree: &OutlineTree, Ghost(items): Ghost<Seq<OutlineItemView>>, m: usize, l: u32) -> (r:
    Option<String>)
    requires
        tree@.wf(),
        tree_matches_items(tree@, items),
        m <= items.len(),
    ensures
        match r {
            Some(s) => key_at_level(items, m as int, l as int) == Some(s@),
            None => key_at_level(items, m as int, l as int) is None,
        },
{
    let mut res: Option<String> = None;
    let mut cur = m;
    while cur != 0
        invariant_except_break
            tree@.wf(),
            tree_matches_items(tree@, items),
            cur <= items.len(),
            res is None,
            key_at_level(items, m as int, l as int) == key_at_level(items, cur as int, l as int),
        ensures
            match res {
                Some(s) => key_at_level(items, m as int, l as int) == Some(s@),
                None => key_at_level(items, m as int, l as int) is None,
            },
        decreases cur,
    {
        proof {
            assert(tree@.nodes[(cur - 1) + 1].item == Some(items[cur - 1]));
            assert(tree@.nodes[(cur - 1) + 1].parent == Some(spec_parent_node(items, cur - 1)));
        }
        let mut stop = false;
        match tree.item(cur) {
            Some(it) => {
                if it.level == l {
                    res = Some(it.key.clone());
                    stop = true;
                }
            },
            None => {
                proof {
                    assert(false);
                }
            },
        }
        if stop {
            break ;
        }
        cur = tree.node_parent(cur);
    }
    res
}


impl XlsxType5Generator {
    /// Wraps an outline and options for rendering.
    pub fn new(outline: Outline, options: XlsxType5GeneratorOptions) -> (r: Self)
        ensures
            r.outline == outline,
            r.options == options,
    {
        XlsxType5Generator { outline, options }
    }

    /// Renders the compact tree-walk layout as a sheet of operations.
    pub fn sheet_ops(&self) -> (r: SheetOps)
        requires
            all_levels_positive(self.outline@),
            self.outline@.items.len() + 1 <= u32::MAX,
            self.outline@.key_header.len() <= u32::MAX,
            spec_max_level(self.outline@) + spec_max_value_length(self.outline@) <= u16::MAX,
        ensures
            r@ == type5_ops(self.outline@, self.options.integrate_cells, self.options.shironuri),
    {
        let ghost o = self.outline@;
        let shironuri = self.options.shironuri;
        let do_colspan = match self.options.integrate_cells {
            Some(IntegrateCellsOption::Colspan) => true,
            _ => false,
        };
        let ml = self.outline.max_level() as usize;
        let mv = self.outline.max_value_length();
        let width = ml + mv;
        let n = self.outline.item.len();
        let tree = self.outline.to_tree();
        let mut cells: Vec<CellWrite> = Vec::new();
        // Header row.
        {
            let style = full_border_style(shironuri);
            let mut c: usize = 0;
            while c < width
                invariant
                    o == self.outline@,
                    shironuri == self.options.shironuri,
                    ml == spec_max_level(o),
                    mv == spec_max_value_length(o),
                    width == ml + mv,
                    width <= u16::MAX,
                    c <= width,
                    style == full_border(shironuri),
                    cells@.len() == c,
                    forall|i: int|
                        0 <= i < c ==> #[trigger] cells@[i]@ == type5_header_row(o, shironuri)[i],
                decreases width - c,
            {
                let text: String = if c < ml {
                    if c < self.outline.key_header.len() {
                        self.outline.key_header[c].clone()
                    } else {
                        String::new()
                    }
                } else if c - ml < self.outline.value_header.len() {
                    self.outline.value_header[c - ml].clone()
                } else {
                    String::new()
                };
                cells.push(CellWrite { row: 0, col: c as u16, text, style });
                c = c + 1;
            }
        }
        // Leaf rows.
        let mut merges: Vec<MergeWrite> = Vec::new();
        let mut row: usize = 1;
        let mut i: usize = 0;
        while i < n
            invariant
                o == self.outline@,
                all_levels_positive(o),
                shironuri == self.options.shironuri,
                do_colspan == (self.options.integrate_cells == Some(IntegrateCellsOption::Colspan)),
                ml == spec_max_level(o),
                mv == spec_max_value_length(o),
                width == ml + mv,
                width <= u16::MAX,
                n == o.items.len(),
                n + 1 <= u32::MAX,
                i <= n,
                tree@.wf(),
                tree@.complete(),
                tree_matches_items(tree@, o.items),
                row as int == 1 + leaf_count(o.items, i as int),
                row <= i + 1,
                Seq::new(cells@.len(), |k: int| cells@[k]@) =~= type5_header_row(o, shironuri)
                    + concat_blocks(|ii: int| type5_item_cells(o, shironuri, ii), i as int),
                Seq::new(merges@.len(), |k: int| merges@[k]@) =~= (if do_colspan {
                    concat_blocks(|ii: int| type5_item_merge(o, shironuri, ii), i as int)
                } else {
                    Seq::<MergeWriteView>::empty()
                }),
            decreases n - i,
        {
            let ghost pre = Seq::new(cells@.len(), |k: int| cells@[k]@);
            let ghost premerge = Seq::new(merges@.len(), |k: int| merges@[k]@);
            proof {
                lemma_leaf_iff(tree@, o.items, i as int);
            }
            let node = i + 1;
            if tree.children(node).len() == 0 {
                let it = &self.outline.item[i];
                let lvl = it.level as usize;
                proof {
                    assert(o.items[i as int].level >= 1);
                    lemma_item_level_le_max(self.outline@, i as int);
                }
                // The full path and the values.
                let mut c: usize = 0;
                while c < width
                    invariant
                        o == self.outline@,
                        all_levels_positive(o),
                        shironuri == self.options.shironuri,
                        ml == spec_max_level(o),
                        mv == spec_max_value_length(o),
                        width == ml + mv,
                        width <= u16::MAX,
                        n == o.items.len(),
                        n + 1 <= u32::MAX,
                        i < n,
                        row <= i + 1,
                        c <= width,
                        tree@.wf(),
                        tree_matches_items(tree@, o.items),
                        node == i + 1,
                        it == self.outline.item@[i as int],
                        lvl == o.items[i as int].level as int,
                        1 <= lvl <= ml,
                        cells@.len() == pre.len() + c,
                        forall|k: int| 0 <= k < pre.len() ==> #[trigger] cells@[k]@ == pre[k],
                        forall|k: int|
                            0 <= k < c ==> #[trigger] cells@[pre.len() + k]@ == type5_leaf_cells(
                                o,
                                shironuri,
                                i as int,
                                row as int,
                            )[k],
                    decreases width - c,
                {
                    let text: String = if c < ml {
                        match chain_key(&tree, Ghost(o.items), node, (c + 1) as u32) {
                            Some(s) => s,
                            None => String::new(),
                        }
                    } else if c - ml < it.value.len() {
                        it.value[c - ml].clone()
                    } else {
                        String::new()
                    };
                    let cw = CellWrite {
                        row: row as u32,
                        col: c as u16,
                        text,
                        style: full_border_style(shironuri),
                    };
                    proof {
                        assert(cw@ == type5_leaf_cells(o, shironuri, i as int, row as int)[c as int]);
                    }
                    cells.push(cw);
                    c = c + 1;
                }
                proof {
                    assert forall|k: int| pre.len() <= k < cells@.len() implies #[trigger] cells@[k]@
                        == type5_leaf_cells(o, shironuri, i as int, row as int)[k - pre.len()] by {
                        let kk = k - pre.len();
                        assert(cells@[pre.len() + kk]@ == type5_leaf_cells(
                            o,
                            shironuri,
                            i as int,
                            row as int,
                        )[kk]);
                    }
                }
                // Border fix-ups.
                if lvl < ml {
                    let mut l: usize = lvl;
                    while l <= ml
                        invariant
                            o == self.outline@,
                            shironuri == self.options.shironuri,
                            ml == spec_max_level(o),
                            mv == spec_max_value_length(o),
                            width == ml + mv,
                            width <= u16::MAX,
                            n == o.items.len(),
                            n + 1 <= u32::MAX,
                            i < n,
                            row <= i + 1,
                            it == self.outline.item@[i as int],
                            lvl == o.items[i as int].level as int,
                            1 <= lvl < ml,
                            lvl <= l <= ml + 1,
                            cells@.len() == pre.len() + width + (l - lvl),
                            forall|k: int| 0 <= k < pre.len() ==> #[trigger] cells@[k]@ == pre[k],
                            forall|k: int|
                                pre.len() <= k < cells@.len() ==> #[trigger] cells@[k]@
                                    == type5_leaf_cells(o, shironuri, i as int, row as int)[k
                                    - pre.len()],
                        decreases ml + 1 - l,
                    {
                        let text: String = if l == lvl {
                            it.key.clone()
                        } else {
                            String::new()
                        };
                        let cw = CellWrite {
                            row: row as u32,
                            col: (l - 1) as u16,
                            text,
                            style: CellStyle {
                                top: true,
                                bottom: true,
                                left: l == lvl,
                                right: l == ml,
                                white: shironuri,
                            },
                        };
                        proof {
                            assert(cw@ == type5_leaf_cells(o, shironuri, i as int, row as int)[width
                                + (l - lvl)]);
                        }
                        cells.push(cw);
                        l = l + 1;
                    }
                }
                proof {
                    assert(cells@.len() - pre.len() == type5_leaf_cells(
                        o,
                        shironuri,
                        i as int,
                        row as int,
                    ).len());
                }
                // Colspan merge.
                if do_colspan && lvl < ml {
                    let m = MergeWrite {
                        first_row: row as u32,
                        first_col: (lvl - 1) as u16,
                        last_row: row as u32,
                        last_col: (ml - 1) as u16,
                        text: it.key.clone(),
                        style: full_border_style(shironuri),
                    };
                    proof {
                        assert(m@ == type5_item_merge(o, shironuri, i as int)[0]);
                    }
                    merges.push(m);
                }
                row = row + 1;
            }
            proof {
                let now = Seq::new(cells@.len(), |k: int| cells@[k]@);
                assert(now.len() == pre.len() + type5_item_cells(o, shironuri, i as int).len());
                assert forall|k: int| 0 <= k < now.len() implies now[k] == (pre + type5_item_cells(
                    o,
                    shironuri,
                    i as int,
                ))[k] by {
                    if k < pre.len() {
                        assert(cells@[k]@ == pre[k]);
                    }
                }
                assert(now =~= pre + type5_item_cells(o, shironuri, i as int));
                assert(pre + type5_item_cells(o, shironuri, i as int) =~= type5_header_row(
                    o,
                    shironuri,
                ) + concat_blocks(|ii: int| type5_item_cells(o, shironuri, ii), i as int + 1));
                let nowm = Seq::new(merges@.len(), |k: int| merges@[k]@);
                if do_colspan {
                    assert(nowm =~= premerge + type5_item_merge(o, shironuri, i as int));
                } else {
                    assert(nowm =~= premerge);
                }
                lemma_leaf_count_bounds(o.items, i as int + 1);
            }
            i = i + 1;
        }
        let ops = SheetOps { whitewash: shironuri, cells, formats: Vec::new(), merges, groups: Vec::new() };
        proof {
            assert(ops@ =~= type5_ops(o, self.options.integrate_cells, shironuri));
        }
        ops
    }

    /// Renders the outline into the worksheet; the first writer error aborts
    /// the run.  An outline with no items and no headers asks nothing of the
    /// writer (without the white fill) and so succeeds.
    pub fn output_to_worksheet(&self, worksheet: &mut Worksheet) -> (r: Result<(), GenerateError>)
        requires
            all_levels_positive(self.outline@),
            self.outline@.items.len() + 1 <= u32::MAX,
            self.outline@.key_header.len() <= u32::MAX,
            spec_max_level(self.outline@) + spec_max_value_length(self.outline@) <= u16::MAX,
        ensures
            (self.outline@.items.len() == 0 && self.outline@.key_header.len() == 0
                && self.outline@.value_header.len() == 0 && !self.options.shironuri) ==> r is Ok,
    {
        let ops = self.sheet_ops();
        proof {
            let o = self.outline@;
            if o.items.len() == 0 && o.key_header.len() == 0 && o.value_header.len() == 0
                && !self.options.shironuri {
                lemma_type5_empty_outline(o, self.options.integrate_cells, self.options.shironuri);
                assert(spec_max_level(o) == 0);
                assert(spec_max_value_length(o) == 0);
                assert(type5_header_row(o, self.options.shironuri).len() == 0);
                assert(ops@.cells.len() == 0);
                assert(ops.cells@.len() == 0);
                assert(ops.formats@.len() == 0);
                assert(ops.merges@.len() == 0);
                assert(ops.groups@.len() == 0);
                assert(!ops.whitewash);
            }
        }
        apply_sheet_ops(&ops, worksheet)
    }
}

/// Rendering is a pure function of the outline and options: two sheets that
/// both satisfy the rendering contract are identical.
pub proof fn lemma_type5_deterministic(
    r1: SheetOpsView,
    r2: SheetOpsView,
    o: OutlineView,
    integrate: Option<IntegrateCellsOption>,
    shironuri: bool,
)
    requires
        r1 == type5_ops(o, integrate, shironuri),
        r2 == type5_ops(o, integrate, shironuri),
    ensures
        r1 == r2,
{
}

/// An outline with no items and no headers renders as exactly one (empty)
/// header row: every cell write sits on row 0, and there are no format
/// overrides, no merges and no row groups.
pub proof fn lemma_type5_empty_outline(
    o: OutlineView,
    integrate: Option<IntegrateCellsOption>,
    shironuri: bool,
)
    requires
        o.items.len() == 0,
        o.key_header.len() == 0,
        o.value_header.len() == 0,
    ensures
        type5_ops(o, integrate, shironuri).cells =~= type5_header_row(o, shironuri),
        forall|k: int|
            0 <= k < type5_ops(o, integrate, shironuri).cells.len() ==> (#[trigger] type5_ops(
                o,
                integrate,
                shironuri,
            ).cells[k]).row == 0,
        type5_ops(o, integrate, shironuri).formats.len() == 0,
        type5_ops(o, integrate, shironuri).merges.len() == 0,
        type5_ops(o, integrate, shironuri).groups.len() == 0,
{
    assert(concat_blocks(|i: int| type5_item_cells(o, shironuri, i), 0)
        =~= Seq::<CellWriteView>::empty());
    assert(type5_ops(o, integrate, shironuri).cells =~= type5_header_row(o, shironuri));
    if integrate == Some(IntegrateCellsOption::Colspan) {
        assert(concat_blocks(|i: int| type5_item_merge(o, shironuri, i), 0)
            =~= Seq::<MergeWriteView>::empty());
    }
}

} // verus!
