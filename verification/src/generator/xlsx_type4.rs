//! The tree-walk layout: one row per leaf, ancestor keys shown only where
//! the hierarchy path is new, per-level border overrides, and colspan or
//! rowspan key merging, the latter tracked by ancestor identity.

use vstd::prelude::*;

use crate::generator::base::IntegrateCellsOption;
use crate::generator::sheet::{
    full_border, full_border_style, CellStyle, CellWrite, CellWriteView, FormatWrite, MergeWrite,
    MergeWriteView, SheetOps, SheetOpsView, GenerateError, apply_sheet_ops,
};
use crate::generator::concat_blocks;
use crate::outline::{
    has_next_item, has_prev_item, leaf_count, lemma_item_level_le_max, lemma_leaf_count_bounds,
    lemma_leaf_iff, lemma_sibling_iff, spec_is_leaf, spec_max_level, spec_max_value_length,
    spec_parent_node, tree_matches_items, all_levels_positive, Outline, OutlineItemView,
    OutlineTree, OutlineView,
};
use rust_xlsxwriter::Worksheet;

verus! {

/// Options of the tree-walk layout.
#[derive(Debug, Clone)]
pub struct XlsxType4GeneratorOptions {
    pub integrate_cells: Option<IntegrateCellsOption>,
}

/// The tree-walk generator, holding the outline it renders.
pub struct XlsxType4Generator {
    pub outline: Outline,
    pub options: XlsxType4GeneratorOptions,
}

/// The handles on the ancestor chain of node `m`, itself first, the root
/// excluded.
pub open spec fn chain_list(items: Seq<OutlineItemView>, m: int) -> Seq<int>
    decreases m,
{
    if m <= 0 {
        Seq::empty()
    } else {
        let p = spec_parent_node(items, m - 1);
        seq![m] + if 0 <= p < m {
            chain_list(items, p)
        } else {
            Seq::empty()
        }
    }
}

/// The key of the first chain node of `m` at level `l`, walking no further
/// up than the first node that has an earlier sibling: ancestor keys are
/// shown only where the hierarchy path is new.
pub open spec fn type4_key_at_level(items: Seq<OutlineItemView>, m: int, l: int) -> Option<
    Seq<char>,
>
    decreases m,
{
    if m <= 0 || m > items.len() {
        None
    } else if items[m - 1].level as int == l {
        Some(items[m - 1].key)
    } else if has_prev_item(items, m) {
        None
    } else {
        let p = spec_parent_node(items, m - 1);
        if 0 <= p < m {
            type4_key_at_level(items, p, l)
        } else {
            None
        }
    }
}

/// The text of level column `c` on the row of leaf `i`.
pub open spec fn type4_key_text(items: Seq<OutlineItemView>, i: int, c: int) -> Seq<char> {
    match type4_key_at_level(items, i + 1, c + 1) {
        Some(k) => k,
        None => Seq::empty(),
    }
}

/// The header row: key headers in the level columns, then value headers, all
/// with a full thin border.
pub open spec fn type4_header_row(o: OutlineView) -> Seq<CellWriteView> {
    let ml = spec_max_level(o);
    let mv = spec_max_value_length(o);
    Seq::new(
        (ml + mv) as nat,
        |c: int|
            CellWriteView {
                row: 0,
                col: c as u16,
                text: if c < ml {
                    if c < o.key_header.len() {
                        o.key_header[c]
                    } else {
                        Seq::empty()
                    }
                } else if c - ml < o.value_header.len() {
                    o.value_header[c - ml]
                } else {
                    Seq::empty()
                },
                style: full_border(false),
            },
    )
}

/// The cells of leaf `i` on data row `row`: the new part of the path and the
/// values, everything with a full thin border.
pub open spec fn type4_leaf_cells(o: OutlineView, i: int, row: int) -> Seq<CellWriteView> {
    let ml = spec_max_level(o);
    let mv = spec_max_value_length(o);
    let it = o.items[i];
    Seq::new(
        (ml + mv) as nat,
        |c: int|
            CellWriteView {
                row: row as u32,
                col: c as u16,
                text: if c < ml {
                    type4_key_text(o.items, i, c)
                } else if c - ml < it.values.len() {
                    it.values[c - ml]
                } else {
                    Seq::empty()
                },
                style: full_border(false),
            },
    )
}

/// Some chain node before position `d` has an earlier sibling.
pub open spec fn any_prev_upto(items: Seq<OutlineItemView>, ns: Seq<int>, d: int) -> bool {
    exists|z: int| 0 <= z < d && has_prev_item(items, #[trigger] ns[z])
}

/// Some chain node before position `d` has a later sibling.
pub open spec fn any_next_upto(items: Seq<OutlineItemView>, ns: Seq<int>, d: int) -> bool {
    exists|z: int| 0 <= z < d && has_next_item(items, #[trigger] ns[z])
}

/// The border override written for the ancestor at chain position `z + 1` of
/// leaf `i`: a top line when some node below it begins later than a sibling,
/// a bottom line when some node below it is followed by a sibling.
pub open spec fn type4_anc_format(o: OutlineView, i: int, row: int, z: int) -> FormatWrite {
    let ns = chain_list(o.items, i + 1);
    FormatWrite {
        row: row as u32,
        col: (o.items[ns[z + 1] - 1].level - 1) as u16,
        style: CellStyle {
            top: any_prev_upto(o.items, ns, z + 1),
            bottom: any_next_upto(o.items, ns, z + 1),
            left: false,
            right: false,
            white: false,
        },
    }
}

/// The format overrides of leaf `i`: one per proper ancestor, walking up,
/// then a full border restated on all but the last value column.
pub open spec fn type4_leaf_formats(o: OutlineView, i: int, row: int) -> Seq<FormatWrite> {
    let ml = spec_max_level(o);
    let mv = spec_max_value_length(o);
    let ns = chain_list(o.items, i + 1);
    Seq::new((ns.len() - 1) as nat, |z: int| type4_anc_format(o, i, row, z)) + Seq::new(
        if mv >= 1 {
            (mv - 1) as nat
        } else {
            0
        },
        |k: int|
            FormatWrite { row: row as u32, col: (ml + k) as u16, style: full_border(false) },
    )
}

/// The format overrides contributed by item `i`.
pub open spec fn type4_item_formats(o: OutlineView, i: int) -> Seq<FormatWrite> {
    if spec_is_leaf(o.items, i) {
        type4_leaf_formats(o, i, 1 + leaf_count(o.items, i))
    } else {
        Seq::empty()
    }
}

/// The cells contributed by item `i`.
pub open spec fn type4_item_cells(o: OutlineView, i: int) -> Seq<CellWriteView> {
    if spec_is_leaf(o.items, i) {
        type4_leaf_cells(o, i, 1 + leaf_count(o.items, i))
    } else {
        Seq::empty()
    }
}

/// The rowspan bookkeeping: per level column, the node whose run is open
/// (0 when none), the row the run started on, the text it will show, and the
/// merges emitted so far.
pub struct Type4Span {
    pub active: Seq<int>,
    pub start: Seq<u32>,
    pub text: Seq<Seq<char>>,
    pub merges: Seq<MergeWriteView>,
}

/// The empty bookkeeping over `ml` level columns.
pub open spec fn type4_span_init(ml: int) -> Type4Span {
    Type4Span {
        active: Seq::new(ml as nat, |z: int| 0),
        start: Seq::new(ml as nat, |z: int| 0u32),
        text: Seq::new(ml as nat, |z: int| Seq::<char>::empty()),
        merges: Seq::empty(),
    }
}

/// One chain node meets the bookkeeping: a different node at its level ends
/// the open run (emitting a merge when it spans more than one row) and opens
/// its own; a level without a run just opens one.
pub open spec fn type4_span_node(
    st: Type4Span,
    items: Seq<OutlineItemView>,
    m: int,
    row: int,
) -> Type4Span {
    let li = items[m - 1].level - 1;
    if st.active[li as int] == 0 {
        Type4Span {
            active: st.active.update(li as int, m),
            start: st.start.update(li as int, row as u32),
            text: st.text.update(li as int, items[m - 1].key),
            merges: st.merges,
        }
    } else if st.active[li as int] != m {
        let emitted = if row - 1 > st.start[li as int] {
            st.merges + seq![
                MergeWriteView {
                    first_row: st.start[li as int],
                    first_col: li as u16,
                    last_row: (row - 1) as u32,
                    last_col: li as u16,
                    text: st.text[li as int],
                    style: full_border(false),
                },
            ]
        } else {
            st.merges
        };
        Type4Span {
            active: st.active.update(li as int, m),
            start: st.start.update(li as int, row as u32),
            text: st.text.update(li as int, items[m - 1].key),
            merges: emitted,
        }
    } else {
        st
    }
}

/// The bookkeeping after a whole chain, processed leaf first.
pub open spec fn type4_span_chain(
    st: Type4Span,
    items: Seq<OutlineItemView>,
    ns: Seq<int>,
    row: int,
) -> Type4Span
    decreases ns.len(),
{
    if ns.len() == 0 {
        st
    } else {
        type4_span_chain(type4_span_node(st, items, ns[0], row), items, ns.drop_first(), row)
    }
}

/// The colspan merge contributed by leaf `i`: its key cell stretched to the
/// last level column when its level lies short of it.
pub open spec fn type4_colspan_merge(o: OutlineView, i: int) -> Seq<MergeWriteView> {
    let ml = spec_max_level(o);
    let it = o.items[i];
    if (it.level as int) < ml {
        seq![
            MergeWriteView {
                first_row: (1 + leaf_count(o.items, i)) as u32,
                first_col: (it.level - 1) as u16,
                last_row: (1 + leaf_count(o.items, i)) as u32,
                last_col: (ml - 1) as u16,
                text: it.key,
                style: full_border(false),
            },
        ]
    } else {
        Seq::empty()
    }
}

/// The merge bookkeeping after the first `i` items: per leaf, the colspan
/// merge (when asked for), then the rowspan bookkeeping over its chain (when
/// asked for).
pub open spec fn type4_merge_fold(
    o: OutlineView,
    do_col: bool,
    do_row: bool,
    i: int,
) -> Type4Span
    decreases i,
{
    if i <= 0 {
        type4_span_init(spec_max_level(o))
    } else {
        let st = type4_merge_fold(o, do_col, do_row, i - 1);
        if spec_is_leaf(o.items, i - 1) {
            let st1 = if do_col {
                Type4Span {
                    active: st.active,
                    start: st.start,
                    text: st.text,
                    merges: st.merges + type4_colspan_merge(o, i - 1),
                }
            } else {
                st
            };
            if do_row {
                type4_span_chain(
                    st1,
                    o.items,
                    chain_list(o.items, i),
                    1 + leaf_count(o.items, i - 1),
                )
            } else {
                st1
            }
        } else {
            st
        }
    }
}

/// The merges flushed at the end of the walk: every still-open run that
/// spans more than one row, by ascending level column.
pub open spec fn type4_flush(st: Type4Span, last_row: int, li: int) -> Seq<MergeWriteView>
    decreases st.active.len() - li,
{
    if li < 0 || li >= st.active.len() {
        Seq::empty()
    } else {
        (if st.active[li] != 0 && last_row > st.start[li] {
            seq![
                MergeWriteView {
                    first_row: st.start[li],
                    first_col: li as u16,
                    last_row: last_row as u32,
                    last_col: li as u16,
                    text: st.text[li],
                    style: full_border(false),
                },
            ]
        } else {
            Seq::empty()
        }) + type4_flush(st, last_row, li + 1)
    }
}

/// All merges of the layout for one merge choice.
pub open spec fn type4_merges(o: OutlineView, integrate: Option<IntegrateCellsOption>) -> Seq<
    MergeWriteView,
> {
    let do_col = integrate == Some(IntegrateCellsOption::Colspan) || integrate == Some(
        IntegrateCellsOption::Both,
    );
    let do_row = integrate == Some(IntegrateCellsOption::Rowspan) || integrate == Some(
        IntegrateCellsOption::Both,
    );
    let st = type4_merge_fold(o, do_col, do_row, o.items.len() as int);
    st.merges + if do_row {
        type4_flush(st, leaf_count(o.items, o.items.len() as int), 0)
    } else {
        Seq::empty()
    }
}

/// Everything the tree-walk layout asks of the sheet.
pub open spec fn type4_ops(o: OutlineView, integrate: Option<IntegrateCellsOption>) -> SheetOpsView {
    SheetOpsView {
        whitewash: false,
        cells: type4_header_row(o) + concat_blocks(
            |i: int| type4_item_cells(o, i),
            o.items.len() as int,
        ),
        formats: concat_blocks(|i: int| type4_item_formats(o, i), o.items.len() as int),
        merges: type4_merges(o, integrate),
        groups: Seq::empty(),
    }
}

/// Walks the ancestor chain of node `m` for the first node at level `l`,
/// stopping after the first node that has an earlier sibling.
fn type4_chain_key(
    tree: &OutlineTree,
    Ghost(items): Ghost<Seq<OutlineItemView>>,
    m: usize,
    l: u32,
) -> (r: Option<String>)
    requires
        tree@.wf(),
        tree@.complete(),
        tree_matches_items(tree@, items),
        m <= items.len(),
    ensures
        match r {
            Some(s) => type4_key_at_level(items, m as int, l as int) == Some(s@),
            None => type4_key_at_level(items, m as int, l as int) is None,
        },
{
    let mut res: Option<String> = None;
    let mut cur = m;
    while cur != 0
        invariant_except_break
            tree@.wf(),
            tree@.complete(),
            tree_matches_items(tree@, items),
            cur <= items.len(),
            res is None,
            type4_key_at_level(items, m as int, l as int) == type4_key_at_level(
                items,
                cur as int,
                l as int,
            ),
        ensures
            match res {
                Some(s) => type4_key_at_level(items, m as int, l as int) == Some(s@),
                None => type4_key_at_level(items, m as int, l as int) is None,
            },
        decreases cur,
    {
        proof {
            assert(tree@.nodes[(cur - 1) + 1].item == Some(items[cur - 1]));
            assert(tree@.nodes[(cur - 1) + 1].parent == Some(spec_parent_node(items, cur - 1)));
            lemma_sibling_iff(tree@, items, cur as int);
        }
        let mut stop = false;
        match tree.item(cur) {
            Some(it) => {
                if it.level == l {
                    res = Some(it.key.clone());
                    stop = true;
                }
            },
            None => {
                proof {
                    assert(false);
                }
            },
        }
        if stop {
            break ;
        }
        match tree.prev(cur) {
            Some(_) => {
                break ;
            },
            None => {},
        }
        cur = tree.node_parent(cur);
    }
    res
}

impl XlsxType4Generator {
    /// Wraps an outline and options for rendering.
    pub fn new(outline: Outline, options: XlsxType4GeneratorOptions) -> (r: Self)
        ensures
            r.outline == outline,
            r.options == options,
    {
        XlsxType4Generator { outline, options }
    }

    /// Renders the tree-walk layout as a sheet of operations.
    pub fn sheet_ops(&self) -> (r: SheetOps)
        requires
            all_levels_positive(self.outline@),
            self.outline@.items.len() + 1 <= u32::MAX,
            self.outline@.key_header.len() <= u32::MAX,
            spec_max_level(self.outline@) + spec_max_value_length(self.outline@) <= u16::MAX,
        ensures
            r@ == type4_ops(self.outline@, self.options.integrate_cells),
    {
        let ghost o = self.outline@;
        let do_col = match self.options.integrate_cells {
            Some(IntegrateCellsOption::Colspan) => true,
            Some(IntegrateCellsOption::Both) => true,
            _ => false,
        };
        let do_row = match self.options.integrate_cells {
            Some(IntegrateCellsOption::Rowspan) => true,
            Some(IntegrateCellsOption::Both) => true,
            _ => false,
        };
        let ml = self.outline.max_level() as usize;
        let mv = self.outline.max_value_length();
        let width = ml + mv;
        let n = self.outline.item.len();
        let tree = self.outline.to_tree();
        let mut cells: Vec<CellWrite> = Vec::new();
        // Header row.
        {
            let style = full_border_style(false);
            let mut c: usize = 0;
            while c < width
                invariant
                    o == self.outline@,
                    ml == spec_max_level(o),
                    mv == spec_max_value_length(o),
                    width == ml + mv,
                    width <= u16::MAX,
                    c <= width,
                    style == full_border(false),
                    cells@.len() == c,
                    forall|i: int|
                        0 <= i < c ==> #[trigger] cells@[i]@ == type4_header_row(o)[i],
                decreases width - c,
            {
                let text: String = if c < ml {
                    if c < self.outline.key_header.len() {
                        self.outline.key_header[c].clone()
                    } else {
                        String::new()
                    }
                } else if c - ml < self.outline.value_header.len() {
                    self.outline.value_header[c - ml].clone()
                } else {
                    String::new()
                };
                cells.push(CellWrite { row: 0, col: c as u16, text, style });
                c = c + 1;
            }
        }
        // Rowspan bookkeeping.
        let mut active: Vec<usize> = Vec::new();
        let mut starts: Vec<u32> = Vec::new();
        let mut texts: Vec<String> = Vec::new();
        {
            let mut z: usize = 0;
            while z < ml
                invariant
                    z <= ml,
                    active@.len() == z,
                    starts@.len() == z,
                    texts@.len() == z,
                    forall|y: int| 0 <= y < z ==> #[trigger] active@[y] == 0,
                    forall|y: int| 0 <= y < z ==> #[trigger] starts@[y] == 0u32,
                    forall|y: int| 0 <= y < z ==> (#[trigger] texts@[y])@ == Seq::<char>::empty(),
                decreases ml - z,
            {
                active.push(0);
                starts.push(0);
                texts.push(String::new());
                z = z + 1;
            }
        }
        let mut formats: Vec<FormatWrite> = Vec::new();
        let mut merges: Vec<MergeWrite> = Vec::new();
        let mut row: usize = 1;
        let mut i: usize = 0;
        proof {
            assert(active@.map_values(|v: usize| v as int) =~= type4_span_init(ml as int).active);
            assert(starts@ =~= type4_span_init(ml as int).start);
            assert(Seq::new(texts@.len(), |z: int| texts@[z]@) =~= type4_span_init(
                ml as int,
            ).text);
        }
        while i < n
            invariant
                o == self.outline@,
                all_levels_positive(o),
                do_col == (self.options.integrate_cells == Some(IntegrateCellsOption::Colspan)
                    || self.options.integrate_cells == Some(IntegrateCellsOption::Both)),
                do_row == (self.options.integrate_cells == Some(IntegrateCellsOption::Rowspan)
                    || self.options.integrate_cells == Some(IntegrateCellsOption::Both)),
                ml == spec_max_level(o),
                mv == spec_max_value_length(o),
                width == ml + mv,
                width <= u16::MAX,
                n == o.items.len(),
                n + 1 <= u32::MAX,
                i <= n,
                tree@.wf(),
                tree@.complete(),
                tree_matches_items(tree@, o.items),
                row as int == 1 + leaf_count(o.items, i as int),
                row <= i + 1,
                active@.len() == ml,
                starts@.len() == ml,
                texts@.len() == ml,
                Seq::new(cells@.len(), |k: int| cells@[k]@) =~= type4_header_row(o)
                    + concat_blocks(|ii: int| type4_item_cells(o, ii), i as int),
                formats@ =~= concat_blocks(|ii: int| type4_item_formats(o, ii), i as int),
                ({
                    let st = type4_merge_fold(o, do_col, do_row, i as int);
                    &&& active@.map_values(|v: usize| v as int) == st.active
                    &&& starts@ == st.start
                    &&& Seq::new(texts@.len(), |z: int| texts@[z]@) == st.text
                    &&& Seq::new(merges@.len(), |k: int| merges@[k]@) == st.merges
                }),
            decreases n - i,
        {
            let ghost pre = Seq::new(cells@.len(), |k: int| cells@[k]@);
            let ghost prefmt = formats@;
            proof {
                lemma_leaf_iff(tree@, o.items, i as int);
            }
            let node = i + 1;
            if tree.children(node).len() == 0 {
                let it = &self.outline.item[i];
                let lvl = it.level as usize;
                proof {
                    assert(o.items[i as int].level >= 1);
                    lemma_item_level_le_max(self.outline@, i as int);
                }
                // The row's cells.
                let mut c: usize = 0;
                while c < width
                    invariant
                        o == self.outline@,
                        all_levels_positive(o),
                        ml == spec_max_level(o),
                        mv == spec_max_value_length(o),
                        width == ml + mv,
                        width <= u16::MAX,
                        n == o.items.len(),
                        n + 1 <= u32::MAX,
                        i < n,
                        row <= i + 1,
                        c <= width,
                        tree@.wf(),
                        tree@.complete(),
                        tree_matches_items(tree@, o.items),
                        node == i + 1,
                        it == self.outline.item@[i as int],
                        cells@.len() == pre.len() + c,
                        forall|k: int| 0 <= k < pre.len() ==> #[trigger] cells@[k]@ == pre[k],
                        forall|k: int|
                            0 <= k < c ==> #[trigger] cells@[pre.len() + k]@ == type4_leaf_cells(
                                o,
                                i as int,
                                row as int,
                            )[k],
                    decreases width - c,
                {
                    let text: String = if c < ml {
                        match type4_chain_key(&tree, Ghost(o.items), node, (c + 1) as u32) {
                            Some(s) => s,
                            None => String::new(),
                        }
                    } else if c - ml < it.value.len() {
                        it.value[c - ml].clone()
                    } else {
                        String::new()
                    };
                    let cw = CellWrite {
                        row: row as u32,
                        col: c as u16,
                        text,
                        style: full_border_style(false),
                    };
                    proof {
                        assert(cw@ == type4_leaf_cells(o, i as int, row as int)[c as int]);
                    }
                    cells.push(cw);
                    c = c + 1;
                }
                proof {
                    assert forall|k: int| pre.len() <= k < cells@.len() implies #[trigger] cells@[k]@
                        == type4_leaf_cells(o, i as int, row as int)[k - pre.len()] by {
                        let kk = k - pre.len();
                        assert(cells@[pre.len() + kk]@ == type4_leaf_cells(
                            o,
                            i as int,
                            row as int,
                        )[kk]);
                    }
                }
                // Ancestor border overrides.
                let ghost chain = chain_list(o.items, i as int + 1);
                proof {
                    lemma_sibling_iff(tree@, o.items, node as int);
                    assert(chain == seq![node as int] + chain_list(
                        o.items,
                        spec_parent_node(o.items, i as int),
                    ));
                }
                let mut ap = match tree.prev(node) {
                    Some(_) => true,
                    None => false,
                };
                let mut an = match tree.next(node) {
                    Some(_) => true,
                    None => false,
                };
                proof {
                    assert(chain[0] == node as int);
                    assert(ap == has_prev_item(o.items, node as int));
                    assert(an == has_next_item(o.items, node as int));
                    assert(ap == any_prev_upto(o.items, chain, 1)) by {
                        if has_prev_item(o.items, chain[0]) {
                            assert(any_prev_upto(o.items, chain, 1));
                        }
                        if any_prev_upto(o.items, chain, 1) {
                            let z = choose|z: int|
                                0 <= z < 1 && has_prev_item(o.items, #[trigger] chain[z]);
                            assert(z == 0);
                        }
                    }
                    assert(an == any_next_upto(o.items, chain, 1)) by {
                        if has_next_item(o.items, chain[0]) {
                            assert(any_next_upto(o.items, chain, 1));
                        }
                        if any_next_upto(o.items, chain, 1) {
                            let z = choose|z: int|
                                0 <= z < 1 && has_next_item(o.items, #[trigger] chain[z]);
                            assert(z == 0);
                        }
                    }
                }
                let mut cur = tree.node_parent(node);
                let ghost d: int = 1;
                proof {
                    assert(tree@.nodes[(i as int) + 1].parent == Some(
                        spec_parent_node(o.items, i as int),
                    ));
                    assert(chain_list(o.items, cur as int) =~= chain.skip(1));
                }
                while cur != 0
                    invariant
                        o == self.outline@,
                        all_levels_positive(o),
                        ml == spec_max_level(o),
                        mv == spec_max_value_length(o),
                        n == o.items.len(),
                        n + 1 <= u32::MAX,
                        i < n,
                        row <= i + 1,
                        tree@.wf(),
                        tree@.complete(),
                        tree_matches_items(tree@, o.items),
                        chain == chain_list(o.items, i as int + 1),
                        1 <= d <= chain.len(),
                        cur <= n,
                        chain_list(o.items, cur as int) == chain.skip(d),
                        cur != 0 ==> d < chain.len() && cur as int == chain[d],
                        cur == 0 ==> d == chain.len(),
                        ap == any_prev_upto(o.items, chain, d),
                        an == any_next_upto(o.items, chain, d),
                        formats@ =~= prefmt + Seq::new(
                            (d - 1) as nat,
                            |z: int| type4_anc_format(o, i as int, row as int, z),
                        ),
                    decreases cur,
                {
                    proof {
                        assert(tree@.nodes[(cur - 1) + 1].item == Some(o.items[cur - 1]));
                        assert(tree@.nodes[(cur - 1) + 1].parent == Some(
                            spec_parent_node(o.items, cur - 1),
                        ));
                        lemma_sibling_iff(tree@, o.items, cur as int);
                        assert(o.items[cur - 1].level >= 1);
                    }
                    let clv = tree.node_level(cur);
                    let fw = FormatWrite {
                        row: row as u32,
                        col: (clv - 1) as u16,
                        style: CellStyle {
                            top: ap,
                            bottom: an,
                            left: false,
                            right: false,
                            white: false,
                        },
                    };
                    proof {
                        assert(chain[(d - 1) + 1] == cur as int);
                        assert(fw == type4_anc_format(o, i as int, row as int, d - 1));
                    }
                    formats.push(fw);
                    let hp = match tree.prev(cur) {
                        Some(_) => true,
                        None => false,
                    };
                    let hn = match tree.next(cur) {
                        Some(_) => true,
                        None => false,
                    };
                    proof {
                        assert(hp == has_prev_item(o.items, cur as int));
                        assert(hn == has_next_item(o.items, cur as int));
                        assert((ap || hp) == any_prev_upto(o.items, chain, d + 1)) by {
                            if ap {
                                let z = choose|z: int|
                                    0 <= z < d && has_prev_item(o.items, #[trigger] chain[z]);
                                assert(any_prev_upto(o.items, chain, d + 1));
                            }
                            if hp {
                                assert(has_prev_item(o.items, chain[d]));
                                assert(any_prev_upto(o.items, chain, d + 1));
                            }
                            if any_prev_upto(o.items, chain, d + 1) && !ap && !hp {
                                let z = choose|z: int|
                                    0 <= z < d + 1 && has_prev_item(o.items, #[trigger] chain[z]);
                                if z < d {
                                    assert(any_prev_upto(o.items, chain, d));
                                } else {
                                    assert(has_prev_item(o.items, chain[d]));
                                }
                                assert(false);
                            }
                        }
                        assert((an || hn) == any_next_upto(o.items, chain, d + 1)) by {
                            if an {
                                let z = choose|z: int|
                                    0 <= z < d && has_next_item(o.items, #[trigger] chain[z]);
                                assert(any_next_upto(o.items, chain, d + 1));
                            }
                            if hn {
                                assert(has_next_item(o.items, chain[d]));
                                assert(any_next_upto(o.items, chain, d + 1));
                            }
                            if any_next_upto(o.items, chain, d + 1) && !an && !hn {
                                let z = choose|z: int|
                                    0 <= z < d + 1 && has_next_item(o.items, #[trigger] chain[z]);
                                if z < d {
                                    assert(any_next_upto(o.items, chain, d));
                                } else {
                                    assert(has_next_item(o.items, chain[d]));
                                }
                                assert(false);
                            }
                        }
                    }
                    ap = ap || hp;
                    an = an || hn;
                    cur = tree.node_parent(cur);
                    proof {
                        assert(chain.skip(d) == seq![chain[d]] + chain_list(
                            o.items,
                            spec_parent_node(o.items, chain[d] - 1),
                        ));
                        assert(chain.skip(d).drop_first() =~= chain.skip(d + 1));
                        assert(chain_list(o.items, cur as int) =~= chain.skip(d + 1));
                        if cur != 0 {
                            assert(chain.skip(d + 1)[0] == cur as int);
                        }
                    }
                    proof {
                        d = d + 1;
                    }
                }
                // Colspan merge.
                let ghost premerge = Seq::new(merges@.len(), |k: int| merges@[k]@);
                if do_col && lvl < ml {
                    let m = MergeWrite {
                        first_row: row as u32,
                        first_col: (lvl - 1) as u16,
                        last_row: row as u32,
                        last_col: (ml - 1) as u16,
                        text: it.key.clone(),
                        style: full_border_style(false),
                    };
                    proof {
                        assert(m@ == type4_colspan_merge(o, i as int)[0]);
                    }
                    merges.push(m);
                }
                proof {
                    if do_col {
                        assert(Seq::new(merges@.len(), |k: int| merges@[k]@) =~= premerge
                            + type4_colspan_merge(o, i as int));
                    }
                }
                proof {
                    lemma_leaf_count_bounds(o.items, i as int);
                }
                // Rowspan bookkeeping over the chain.
                if do_row {
                    let ghost st1 = Type4Span {
                        active: active@.map_values(|v: usize| v as int),
                        start: starts@,
                        text: Seq::new(texts@.len(), |z: int| texts@[z]@),
                        merges: Seq::new(merges@.len(), |k: int| merges@[k]@),
                    };
                    let ghost target = type4_span_chain(st1, o.items, chain, row as int);
                    let mut cur2 = node;
                    let ghost d2: int = 0;
                    proof {
                        assert(chain_list(o.items, cur2 as int) =~= chain.skip(0));
                    }
                    while cur2 != 0
                        invariant
                            o == self.outline@,
                            all_levels_positive(o),
                            ml == spec_max_level(o),
                            n == o.items.len(),
                            n + 1 <= u32::MAX,
                            i < n,
                            1 <= row,
                            row <= i + 1,
                            tree@.wf(),
                            tree@.complete(),
                            tree_matches_items(tree@, o.items),
                            chain == chain_list(o.items, i as int + 1),
                            0 <= d2 <= chain.len(),
                            cur2 <= n,
                            chain_list(o.items, cur2 as int) == chain.skip(d2),
                            cur2 != 0 ==> d2 < chain.len() && cur2 as int == chain[d2],
                            cur2 == 0 ==> d2 == chain.len(),
                            active@.len() == ml,
                            starts@.len() == ml,
                            texts@.len() == ml,
                            type4_span_chain(
                                Type4Span {
                                    active: active@.map_values(|v: usize| v as int),
                                    start: starts@,
                                    text: Seq::new(texts@.len(), |z: int| texts@[z]@),
                                    merges: Seq::new(merges@.len(), |k: int| merges@[k]@),
                                },
                                o.items,
                                chain.skip(d2),
                                row as int,
                            ) == target,
                        decreases cur2,
                    {
                        proof {
                            assert(tree@.nodes[(cur2 - 1) + 1].item == Some(o.items[cur2 - 1]));
                            assert(tree@.nodes[(cur2 - 1) + 1].parent == Some(
                                spec_parent_node(o.items, cur2 - 1),
                            ));
                            assert(o.items[cur2 - 1].level >= 1);
                            lemma_item_level_le_max(o, cur2 - 1);
                        }
                        let ghost stpre = Type4Span {
                            active: active@.map_values(|v: usize| v as int),
                            start: starts@,
                            text: Seq::new(texts@.len(), |z: int| texts@[z]@),
                            merges: Seq::new(merges@.len(), |k: int| merges@[k]@),
                        };
                        let clv = tree.node_level(cur2) as usize;
                        let li = clv - 1;
                        let a = active[li];
                        if a == 0 {
                            let key = match tree.item(cur2) {
                                Some(itc) => itc.key.clone(),
                                None => {
                                    proof {
                                        assert(false);
                                    }
                                    String::new()
                                },
                            };
                            active.set(li, cur2);
                            starts.set(li, row as u32);
                            texts.set(li, key);
                        } else if a != cur2 {
                            if row - 1 > starts[li] as usize {
                                let m = MergeWrite {
                                    first_row: starts[li],
                                    first_col: li as u16,
                                    last_row: (row - 1) as u32,
                                    last_col: li as u16,
                                    text: texts[li].clone(),
                                    style: full_border_style(false),
                                };
                                proof {
                                    assert(m@ == MergeWriteView {
                                        first_row: stpre.start[li as int],
                                        first_col: li as u16,
                                        last_row: (row - 1) as u32,
                                        last_col: li as u16,
                                        text: stpre.text[li as int],
                                        style: full_border(false),
                                    });
                                }
                                merges.push(m);
                            }
                            let key = match tree.item(cur2) {
                                Some(itc) => itc.key.clone(),
                                None => {
                                    proof {
                                        assert(false);
                                    }
                                    String::new()
                                },
                            };
                            active.set(li, cur2);
                            starts.set(li, row as u32);
                            texts.set(li, key);
                        }
                        proof {
                            let stpost = Type4Span {
                                active: active@.map_values(|v: usize| v as int),
                                start: starts@,
                                text: Seq::new(texts@.len(), |z: int| texts@[z]@),
                                merges: Seq::new(merges@.len(), |k: int| merges@[k]@),
                            };
                            let sn = type4_span_node(stpre, o.items, cur2 as int, row as int);
                            assert(stpost.active =~= sn.active);
                            assert(stpost.start =~= sn.start);
                            assert(stpost.text =~= sn.text);
                            assert(stpost.merges =~= sn.merges);
                            assert(stpost =~= sn) by {
                                assert(stpost.active == sn.active && stpost.start == sn.start
                                    && stpost.text == sn.text && stpost.merges == sn.merges);
                            }
                        }
                        cur2 = tree.node_parent(cur2);
                        proof {
                            assert(chain.skip(d2) == seq![chain[d2]] + chain_list(
                                o.items,
                                spec_parent_node(o.items, chain[d2] - 1),
                            ));
                            assert(chain.skip(d2).drop_first() =~= chain.skip(d2 + 1));
                            assert(chain_list(o.items, cur2 as int) =~= chain.skip(d2 + 1));
                            if cur2 != 0 {
                                assert(chain.skip(d2 + 1)[0] == cur2 as int);
                            }
                        }
                        proof {
                            d2 = d2 + 1;
                        }
                    }
                    proof {
                        assert(chain.skip(d2) =~= Seq::<int>::empty());
                    }
                }
                // Full borders restated on all but the last value column.
                let ghost fmtmid = formats@;
                if mv >= 1 {
                    let mut c2: usize = ml;
                    while c2 + 1 < ml + mv
                        invariant
                            o == self.outline@,
                            ml == spec_max_level(o),
                            mv == spec_max_value_length(o),
                            width == ml + mv,
                            width <= u16::MAX,
                            mv >= 1,
                            i < n,
                            n == o.items.len(),
                            n + 1 <= u32::MAX,
                            row <= i + 1,
                            ml <= c2 <= ml + mv - 1,
                            formats@ =~= fmtmid + Seq::new(
                                (c2 - ml) as nat,
                                |k: int|
                                    FormatWrite {
                                        row: row as u32,
                                        col: (ml + k) as u16,
                                        style: full_border(false),
                                    },
                            ),
                        decreases ml + mv - c2,
                    {
                        formats.push(
                            FormatWrite {
                                row: row as u32,
                                col: c2 as u16,
                                style: full_border_style(false),
                            },
                        );
                        c2 = c2 + 1;
                    }
                }
                row = row + 1;
            }
            proof {
                let now = Seq::new(cells@.len(), |k: int| cells@[k]@);
                assert(now.len() == pre.len() + type4_item_cells(o, i as int).len());
                assert forall|k: int| 0 <= k < now.len() implies now[k] == (pre + type4_item_cells(
                    o,
                    i as int,
                ))[k] by {
                    if k < pre.len() {
                        assert(cells@[k]@ == pre[k]);
                    }
                }
                assert(now =~= pre + type4_item_cells(o, i as int));
                assert(pre + type4_item_cells(o, i as int) =~= type4_header_row(o) + concat_blocks(
                    |ii: int| type4_item_cells(o, ii),
                    i as int + 1,
                ));
                assert(formats@ =~= prefmt + type4_item_formats(o, i as int));
                assert(formats@ =~= concat_blocks(
                    |ii: int| type4_item_formats(o, ii),
                    i as int + 1,
                ));
                lemma_leaf_count_bounds(o.items, i as int + 1);
            }
            i = i + 1;
        }
        // Flush still-open runs.
        if do_row {
            let ghost stfin = type4_merge_fold(o, do_col, do_row, n as int);
            proof {
                lemma_leaf_count_bounds(o.items, n as int);
            }
            let last_row = row - 1;
            proof {
                assert(last_row as int == leaf_count(o.items, n as int));
            }
            let ghost base = Seq::new(merges@.len(), |k: int| merges@[k]@);
            let mut li: usize = 0;
            while li < ml
                invariant
                    o == self.outline@,
                    ml == spec_max_level(o),
                    n == o.items.len(),
                    n + 1 <= u32::MAX,
                    li <= ml,
                    last_row as int == leaf_count(o.items, n as int),
                    active@.len() == ml,
                    starts@.len() == ml,
                    texts@.len() == ml,
                    stfin == type4_merge_fold(o, do_col, do_row, n as int),
                    active@.map_values(|v: usize| v as int) == stfin.active,
                    starts@ == stfin.start,
                    Seq::new(texts@.len(), |z: int| texts@[z]@) == stfin.text,
                    base == stfin.merges,
                    stfin.active.len() == ml,
                    Seq::new(merges@.len(), |k: int| merges@[k]@) + type4_flush(
                        stfin,
                        last_row as int,
                        li as int,
                    ) =~= base + type4_flush(stfin, last_row as int, 0),
                decreases ml - li,
            {
                let ghost premerge = Seq::new(merges@.len(), |k: int| merges@[k]@);
                if active[li] != 0 && last_row > starts[li] as usize {
                    let m = MergeWrite {
                        first_row: starts[li],
                        first_col: li as u16,
                        last_row: last_row as u32,
                        last_col: li as u16,
                        text: texts[li].clone(),
                        style: full_border_style(false),
                    };
                    proof {
                        assert(m@ == MergeWriteView {
                            first_row: stfin.start[li as int],
                            first_col: li as u16,
                            last_row: (last_row as int) as u32,
                            last_col: li as u16,
                            text: stfin.text[li as int],
                            style: full_border(false),
                        });
                    }
                    merges.push(m);
                }
                proof {
                    assert(Seq::new(merges@.len(), |k: int| merges@[k]@) =~= premerge
                        + if stfin.active[li as int] != 0 && last_row as int > stfin.start[li as int] {
                        seq![
                            MergeWriteView {
                                first_row: stfin.start[li as int],
                                first_col: li as u16,
                                last_row: (last_row as int) as u32,
                                last_col: li as u16,
                                text: stfin.text[li as int],
                                style: full_border(false),
                            },
                        ]
                    } else {
                        Seq::<MergeWriteView>::empty()
                    });
                }
                li = li + 1;
            }
            proof {
                assert(type4_flush(stfin, last_row as int, ml as int) =~= Seq::<
                    MergeWriteView,
                >::empty());
            }
        }
        let ops = SheetOps { whitewash: false, cells, formats, merges, groups: Vec::new() };
        proof {
            assert(ops@ =~= type4_ops(o, self.options.integrate_cells));
        }
        ops
    }

    /// Renders the outline into the worksheet; the first writer error aborts
    /// the run.  An outline with no items and no headers asks nothing of the
    /// writer and so succeeds.
    pub fn output_to_worksheet(&self, worksheet: &mut Worksheet) -> (r: Result<(), GenerateError>)
        requires
            all_levels_positive(self.outline@),
            self.outline@.items.len() + 1 <= u32::MAX,
            self.outline@.key_header.len() <= u32::MAX,
            spec_max_level(self.outline@) + spec_max_value_length(self.outline@) <= u16::MAX,
        ensures
            (self.outline@.items.len() == 0 && self.outline@.key_header.len() == 0
                && self.outline@.value_header.len() == 0) ==> r is Ok,
    {
        let ops = self.sheet_ops();
        proof {
            let o = self.outline@;
            if o.items.len() == 0 && o.key_header.len() == 0 && o.value_header.len() == 0 {
                lemma_type4_empty_outline(o, self.options.integrate_cells);
                assert(spec_max_level(o) == 0);
                assert(spec_max_value_length(o) == 0);
                assert(type4_header_row(o).len() == 0);
                assert(ops@.cells.len() == 0);
                assert(ops.cells@.len() == 0);
                assert(ops.formats@.len() == 0);
                assert(ops.merges@.len() == 0);
                assert(ops.groups@.len() == 0);
                assert(!ops.whitewash);
            }
        }
        apply_sheet_ops(&ops, worksheet)
    }
}

/// Rendering is a pure function of the outline and options: two sheets that
/// both satisfy the rendering contract are identical.
pub proof fn lemma_type4_deterministic(
    r1: SheetOpsView,
    r2: SheetOpsView,
    o: OutlineView,
    integrate: Option<IntegrateCellsOption>,
)
    requires
        r1 == type4_ops(o, integrate),
        r2 == type4_ops(o, integrate),
    ensures
        r1 == r2,
{
}

/// Flushing bookkeeping with no open runs emits nothing.
proof fn lemma_type4_flush_idle(st: Type4Span, last_row: int, li: int)
    requires
        forall|z: int| 0 <= z < st.active.len() ==> #[trigger] st.active[z] == 0,
        0 <= li,
    ensures
        type4_flush(st, last_row, li) =~= Seq::<MergeWriteView>::empty(),
    decreases st.active.len() - li,
{
    if li < st.active.len() {
        lemma_type4_flush_idle(st, last_row, li + 1);
    }
}

/// An outline with no items and no headers renders as exactly one (empty)
/// header row: every cell write sits on row 0, and there are no format
/// overrides, no merges and no row groups.
pub proof fn lemma_type4_empty_outline(o: OutlineView, integrate: Option<IntegrateCellsOption>)
    requires
        o.items.len() == 0,
        o.key_header.len() == 0,
        o.value_header.len() == 0,
    ensures
        type4_ops(o, integrate).cells =~= type4_header_row(o),
        forall|k: int|
            0 <= k < type4_ops(o, integrate).cells.len() ==> (#[trigger] type4_ops(
                o,
                integrate,
            ).cells[k]).row == 0,
        type4_ops(o, integrate).formats.len() == 0,
        type4_ops(o, integrate).merges.len() == 0,
        type4_ops(o, integrate).groups.len() == 0,
{
    assert(concat_blocks(|i: int| type4_item_cells(o, i), 0) =~= Seq::<CellWriteView>::empty());
    assert(concat_blocks(|i: int| type4_item_formats(o, i), 0) =~= Seq::<FormatWrite>::empty());
    assert(type4_ops(o, integrate).cells =~= type4_header_row(o));
    let do_col = integrate == Some(IntegrateCellsOption::Colspan) || integrate == Some(
        IntegrateCellsOption::Both,
    );
    let do_row = integrate == Some(IntegrateCellsOption::Rowspan) || integrate == Some(
        IntegrateCellsOption::Both,
    );
    let st = type4_merge_fold(o, do_col, do_row, 0);
    assert(st == type4_span_init(spec_max_level(o)));
    assert(st.merges.len() == 0);
    if do_row {
        lemma_type4_flush_idle(st, leaf_count(o.items, 0), 0);
    }
}

} // verus!
