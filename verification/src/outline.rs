//! The outline data model: level-annotated items, the container that owns
//! them, and the tree derived from the item list.

use vstd::prelude::*;

verus! {

/// An error raised when an outline or one of its items fails validation.
///
/// The payload is a human-readable message.
#[derive(Debug, Clone, PartialEq, Eq)]
pub enum OutlineError {
    ValidationError(String),
}

/// Mathematical model of an [`OutlineItem`]: its key and values as character
/// sequences, and its level.
#[verifier::ext_equal]
pub struct OutlineItemView {
    pub key: Seq<char>,
    pub level: u32,
    pub values: Seq<Seq<char>>,
}

/// One record of an outline: a key, a 1-based nesting level, and the values
/// attached to the key.
#[derive(Debug, Clone, PartialEq, Eq, Default)]
pub struct OutlineItem {
    pub key: String,
    pub level: u32,
    pub value: Vec<String>,
}

impl View for OutlineItem {
    type V = OutlineItemView;

    open spec fn view(&self) -> OutlineItemView {
        OutlineItemView { key: self.key@, level: self.level, values: self.value.deep_view() }
    }
}

impl OutlineItem {
    /// Builds an item from its parts.
    pub fn new(key: &str, level: u32, value: Vec<String>) -> (r: Self)
        ensures
            r@.key == key@,
            r@.level == level,
            r@.values == value.deep_view(),
    {
        OutlineItem { key: key.to_owned(), level, value }
    }

    /// Checks that the level is positive; a level of zero yields a
    /// [`OutlineError::ValidationError`] naming the item's key.
    pub fn validate(&self) -> (r: Result<(), OutlineError>)
        ensures
            r is Ok <==> self@.level >= 1,
            self@.level == 0 ==> (r matches Err(OutlineError::ValidationError(m)) && m@
                == "item level for item \""@ + self@.key + "\" must be positive"@),
    {
        if self.level == 0 {
            let mut m: String = "item level for item \"".to_owned();
            m.append(self.key.as_str());
            m.append("\" must be positive");
            return Err(OutlineError::ValidationError(m));
        }
        Ok(())
    }

    /// True exactly when [`Self::validate`] succeeds.
    pub fn valid(&self) -> (r: bool)
        ensures
            r <==> self@.level >= 1,
    {
        self.validate().is_ok()
    }
}

/// Mathematical model of an [`Outline`].
#[verifier::ext_equal]
pub struct OutlineView {
    pub key_header: Seq<Seq<char>>,
    pub value_header: Seq<Seq<char>>,
    pub items: Seq<OutlineItemView>,
}

/// A flat, ordered outline: header rows for keys and values, and the list of
/// items in document order.
#[derive(Debug, Clone, PartialEq, Eq, Default)]
pub struct Outline {
    pub key_header: Vec<String>,
    pub value_header: Vec<String>,
    pub item: Vec<OutlineItem>,
}

impl View for Outline {
    type V = OutlineView;

    open spec fn view(&self) -> OutlineView {
        OutlineView {
            key_header: self.key_header.deep_view(),
            value_header: self.value_header.deep_view(),
            items: Seq::new(self.item@.len(), |i: int| self.item@[i]@),
        }
    }
}

/// The largest item level in `items[0..n]`, as a mathematical integer;
/// 0 when the prefix is empty.
pub open spec fn max_item_level(items: Seq<OutlineItemView>, n: int) -> int
    decreases n,
{
    if n <= 0 {
        0
    } else if items[n - 1].level >= max_item_level(items, n - 1) {
        items[n - 1].level as int
    } else {
        max_item_level(items, n - 1)
    }
}

/// The largest value count in `items[0..n]`; 0 when the prefix is empty.
pub open spec fn max_item_values(items: Seq<OutlineItemView>, n: int) -> int
    decreases n,
{
    if n <= 0 {
        0
    } else if items[n - 1].values.len() >= max_item_values(items, n - 1) {
        items[n - 1].values.len() as int
    } else {
        max_item_values(items, n - 1)
    }
}

/// What [`Outline::max_level`] returns: the larger of the key-header length
/// and every item level.
pub open spec fn spec_max_level(o: OutlineView) -> int {
    if o.key_header.len() >= max_item_level(o.items, o.items.len() as int) {
        o.key_header.len() as int
    } else {
        max_item_level(o.items, o.items.len() as int)
    }
}

/// What [`Outline::max_value_length`] returns: the larger of the value-header
/// length and every item's value count.
pub open spec fn spec_max_value_length(o: OutlineView) -> int {
    if o.value_header.len() >= max_item_values(o.items, o.items.len() as int) {
        o.value_header.len() as int
    } else {
        max_item_values(o.items, o.items.len() as int)
    }
}

/// True when every item of `o` carries a positive level.
pub open spec fn all_levels_positive(o: OutlineView) -> bool {
    forall|i: int| 0 <= i < o.items.len() ==> o.items[i].level >= 1
}

/// True when `s` is acceptable as a header entry: empty, or ASCII throughout.
pub open spec fn header_entry_ok(s: Seq<char>) -> bool {
    s.len() == 0 || vstd::utf8::is_ascii_chars(s)
}

/// True when every entry of the header sequence is acceptable.
pub open spec fn header_ok(h: Seq<Seq<char>>) -> bool {
    forall|i: int| 0 <= i < h.len() ==> header_entry_ok(h[i])
}

impl Outline {
    /// An outline with no headers and no items.
    pub fn new() -> (r: Self)
        ensures
            r@.key_header.len() == 0,
            r@.value_header.len() == 0,
            r@.items.len() == 0,
    {
        Outline { key_header: Vec::new(), value_header: Vec::new(), item: Vec::new() }
    }

    /// Appends a new item built from the given parts.
    pub fn add_item(&mut self, key: &str, level: u32, value: Vec<String>)
        ensures
            final(self)@.key_header == old(self)@.key_header,
            final(self)@.value_header == old(self)@.value_header,
            final(self)@.items.len() == old(self)@.items.len() + 1,
            final(self)@.items == old(self)@.items.push(
                OutlineItemView { key: key@, level, values: value.deep_view() },
            ),
    {
        let it = OutlineItem::new(key, level, value);
        proof {
            assert(self@.items.push(it@) =~= OutlineView {
                key_header: self@.key_header,
                value_header: self@.value_header,
                items: self@.items.push(it@),
            }.items);
        }
        self.item.push(it);
        proof {
            assert(self@.items =~= old(self)@.items.push(
                OutlineItemView { key: key@, level, values: it.value.deep_view() },
            ));
        }
    }

    /// Checks the whole outline: header entries must be acceptable strings and
    /// every item level must be positive.  On failure the result carries the
    /// message of the first check that failed, in the order key header, value
    /// header, items; an item failure names the first offending item's key.
    pub fn validate(&self) -> (r: Result<(), OutlineError>)
        ensures
            r is Ok <==> (header_ok(self@.key_header) && header_ok(self@.value_header)
                && all_levels_positive(self@)),
            !header_ok(self@.key_header) ==> (r matches Err(OutlineError::ValidationError(m)) && m@
                == "key_header elements must be strings."@),
            header_ok(self@.key_header) && !header_ok(self@.value_header) ==> (r matches Err(
                OutlineError::ValidationError(m),
            ) && m@ == "value_header elements must be strings."@),
            header_ok(self@.key_header) && header_ok(self@.value_header) && !all_levels_positive(
                self@,
            ) ==> (r matches Err(OutlineError::ValidationError(m)) && exists|i: int|
                0 <= i < self@.items.len() && (#[trigger] self@.items[i]).level == 0 && (forall|
                    j: int,
                |
                    0 <= j < i ==> self@.items[j].level >= 1) && m@ == "item level for item \""@
                    + self@.items[i].key + "\" must be positive"@),
    {
        let mut i: usize = 0;
        while i < self.key_header.len()
            invariant
                i <= self.key_header@.len(),
                forall|k: int| 0 <= k < i ==> header_entry_ok(self@.key_header[k]),
            decreases self.key_header@.len() - i,
        {
            let v = &self.key_header[i];
            if !(v.as_str().is_empty() || v.as_str().is_ascii()) {
                assert(!header_entry_ok(self@.key_header[i as int]));
                return Err(OutlineError::ValidationError(
                    "key_header elements must be strings.".to_owned(),
                ));
            }
            assert(header_entry_ok(self@.key_header[i as int]));
            i = i + 1;
        }
        let mut i: usize = 0;
        while i < self.value_header.len()
            invariant
                i <= self.value_header@.len(),
                header_ok(self@.key_header),
                forall|k: int| 0 <= k < i ==> header_entry_ok(self@.value_header[k]),
            decreases self.value_header@.len() - i,
        {
            let v = &self.value_header[i];
            if !(v.as_str().is_empty() || v.as_str().is_ascii()) {
                assert(!header_entry_ok(self@.value_header[i as int]));
                return Err(OutlineError::ValidationError(
                    "value_header elements must be strings.".to_owned(),
                ));
            }
            assert(header_entry_ok(self@.value_header[i as int]));
            i = i + 1;
        }
        let mut i: usize = 0;
        while i < self.item.len()
            invariant
                i <= self.item@.len(),
                header_ok(self@.key_header),
                header_ok(self@.value_header),
                forall|k: int| 0 <= k < i ==> self@.items[k].level >= 1,
            decreases self.item@.len() - i,
        {
            match self.item[i].validate() {
                Ok(()) => {},
                Err(e) => {
                    proof {
                        assert(self@.items[i as int].level == 0);
                        assert(!all_levels_positive(self@));
                        assert(forall|j: int| 0 <= j < i ==> self@.items[j].level >= 1);
                    }
                    return Err(e);
                },
            }
            i = i + 1;
        }
        Ok(())
    }

    /// True exactly when [`Self::validate`] succeeds.
    pub fn valid(&self) -> (r: bool)
        ensures
            r <==> (header_ok(self@.key_header) && header_ok(self@.value_header)
                && all_levels_positive(self@)),
    {
        self.validate().is_ok()
    }

    /// The deepest level the outline reaches: the maximum of all item levels,
    /// floored by the key-header length.
    pub fn max_level(&self) -> (r: u32)
        requires
            self@.key_header.len() <= u32::MAX,
        ensures
            r == spec_max_level(self@),
            r >= self@.key_header.len(),
            forall|i: int| 0 <= i < self@.items.len() ==> r >= self@.items[i].level,
    {
        let mut m: u32 = 0;
        let mut i: usize = 0;
        while i < self.item.len()
            invariant
                i <= self.item@.len(),
                m == max_item_level(self@.items, i as int),
            decreases self.item@.len() - i,
        {
            let lv = self.item[i].level;
            if lv >= m {
                m = lv;
            }
            i = i + 1;
        }
        let hl = self.key_header.len() as u32;
        proof {
            lemma_max_item_level_bounds(self@.items, self@.items.len() as int);
        }
        if hl >= m {
            hl
        } else {
            m
        }
    }

    /// The widest value row the outline needs: the maximum of all item value
    /// counts, floored by the value-header length.
    pub fn max_value_length(&self) -> (r: usize)
        ensures
            r == spec_max_value_length(self@),
            r >= self@.value_header.len(),
            forall|i: int| 0 <= i < self@.items.len() ==> r >= self@.items[i].values.len(),
    {
        let mut m: usize = 0;
        let mut i: usize = 0;
        while i < self.item.len()
            invariant
                i <= self.item@.len(),
                m == max_item_values(self@.items, i as int),
            decreases self.item@.len() - i,
        {
            let vl = self.item[i].value.len();
            if vl >= m {
                m = vl;
            }
            i = i + 1;
        }
        proof {
            lemma_max_item_values_bounds(self@.items, self@.items.len() as int);
        }
        let hl = self.value_header.len();
        if hl >= m {
            hl
        } else {
            m
        }
    }
}

/// Mathematical model of one tree node.
#[verifier::ext_equal]
pub struct TreeNodeView {
    pub item: Option<OutlineItemView>,
    pub parent: Option<int>,
    pub children: Seq<int>,
}

/// Mathematical model of an [`OutlineTree`]: the arena as a sequence of nodes.
#[verifier::ext_equal]
pub struct OutlineTreeView {
    pub nodes: Seq<TreeNodeView>,
}

/// One node of the arena: its item (absent only on the root), the handle of
/// its parent, and the handles of its children in order.
#[derive(Debug, Clone)]
pub struct TreeNode {
    pub item: Option<OutlineItem>,
    pub parent: Option<usize>,
    pub children: Vec<usize>,
}

impl View for TreeNode {
    type V = TreeNodeView;

    open spec fn view(&self) -> TreeNodeView {
        TreeNodeView {
            item: match self.item {
                Some(it) => Some(it@),
                None => None,
            },
            parent: match self.parent {
                Some(p) => Some(p as int),
                None => None,
            },
            children: self.children@.map_values(|c: usize| c as int),
        }
    }
}

/// The tree derived from an outline, stored as an arena: nodes are addressed
/// by `usize` handles, handle 0 is the synthetic root.  A parent owns the
/// ordered list of its children's handles; each non-root node records its
/// parent's handle.
#[derive(Debug, Clone)]
pub struct OutlineTree {
    pub nodes: Vec<TreeNode>,
}

impl View for OutlineTree {
    type V = OutlineTreeView;

    open spec fn view(&self) -> OutlineTreeView {
        OutlineTreeView { nodes: Seq::new(self.nodes@.len(), |i: int| self.nodes@[i]@) }
    }
}

impl OutlineTreeView {
    /// Basic shape of the arena: node 0 is the root (no item, no parent);
    /// every other node carries an item and points to an earlier parent; every
    /// child list is strictly increasing and consistent with the parents.
    pub open spec fn wf(self) -> bool {
        &&& self.nodes.len() >= 1
        &&& self.nodes[0].parent is None
        &&& self.nodes[0].item is None
        &&& forall|n: int|
            1 <= n < self.nodes.len() ==> ((#[trigger] self.nodes[n].parent) matches Some(p)
                && 0 <= p < n)
        &&& forall|n: int| 1 <= n < self.nodes.len() ==> (#[trigger] self.nodes[n].item) is Some
        &&& forall|n: int, k: int|
            0 <= n < self.nodes.len() && 0 <= k < self.nodes[n].children.len() ==> n < (
            #[trigger] self.nodes[n].children[k]) < self.nodes.len()
                && self.nodes[self.nodes[n].children[k]].parent == Some(n)
        &&& forall|n: int, k1: int, k2: int|
            0 <= n < self.nodes.len() && 0 <= k1 < k2 < self.nodes[n].children.len() ==> (
            #[trigger] self.nodes[n].children[k1]) < (#[trigger] self.nodes[n].children[k2])
    }

    /// Every non-root node is listed among its parent's children.  A tree
    /// built solely through [`OutlineTree::add_child`] has this; a node made
    /// by [`OutlineTree::new_with_parent`] alone is not yet attached.
    pub open spec fn complete(self) -> bool {
        forall|n: int|
            1 <= n < self.nodes.len() ==> self.nodes[(#[trigger] self.nodes[n].parent)->0].children.contains(
                n,
            )
    }

    /// The parent handle of `n`, read as an integer; -1 on the root.
    pub open spec fn parent_of(self, n: int) -> int {
        match self.nodes[n].parent {
            Some(p) => p,
            None => -1,
        }
    }

    /// The item level of node `n` (meaningful for non-root nodes).
    pub open spec fn level_of(self, n: int) -> u32 {
        self.nodes[n].item->0.level
    }
}

/// `m` lies on the parent chain of `c` (inclusive of `c` itself and of the
/// root).
pub open spec fn on_chain(t: OutlineTreeView, c: int, m: int) -> bool
    decreases c,
{
    if m == c {
        true
    } else if c <= 0 {
        false
    } else if 0 <= c < t.nodes.len() {
        match t.nodes[c].parent {
            Some(p) => 0 <= p < c && on_chain(t, p, m),
            None => false,
        }
    } else {
        false
    }
}

/// No item strictly between `j` and `k` is at or below item `j`'s level: item
/// `j` is still reachable by walking ancestors up from item `k - 1`.
pub open spec fn visible(items: Seq<OutlineItemView>, j: int, k: int) -> bool {
    forall|m: int| j < m < k ==> (#[trigger] items[m].level) > items[j].level
}

/// The node handle of the last item before `j` whose level is strictly below
/// `level`; 0 (the root) when there is none.  Item `i` sits at node `i + 1`.
pub open spec fn last_shallower(items: Seq<OutlineItemView>, j: int, level: u32) -> int
    decreases j,
{
    if j <= 0 {
        0
    } else if items[j - 1].level < level {
        j
    } else {
        last_shallower(items, j - 1, level)
    }
}

/// The node handle that [`Outline::to_tree`] gives item `i` as its parent: the
/// root for level 1 (or below), otherwise the nearest preceding item with a
/// strictly shallower level, or the root when none exists.
pub open spec fn spec_parent_node(items: Seq<OutlineItemView>, i: int) -> int {
    if items[i].level <= 1 {
        0
    } else {
        last_shallower(items, i, items[i].level)
    }
}

/// The structure [`Outline::to_tree`] promises: one node per item in order,
/// each holding its item and parented per [`spec_parent_node`].
pub open spec fn tree_matches_items(t: OutlineTreeView, items: Seq<OutlineItemView>) -> bool {
    &&& t.nodes.len() == items.len() + 1
    &&& forall|i: int|
        0 <= i < items.len() ==> (#[trigger] t.nodes[i + 1].item) == Some(items[i])
    &&& forall|i: int|
        0 <= i < items.len() ==> (#[trigger] t.nodes[i + 1].parent) == Some(
            spec_parent_node(items, i),
        )
}

impl OutlineTree {
    /// A tree holding only the synthetic root.
    pub fn new_root() -> (t: Self)
        ensures
            t@.wf(),
            t@.complete(),
            t@.nodes.len() == 1,
            t@.nodes[0].children.len() == 0,
    {
        let mut nodes: Vec<TreeNode> = Vec::new();
        nodes.push(TreeNode { item: None, parent: None, children: Vec::new() });
        let t = OutlineTree { nodes };
        proof {
            assert(t@.nodes[0].children =~= Seq::<int>::empty());
        }
        t
    }

    /// Number of nodes in the arena, the root included.
    pub fn len(&self) -> (r: usize)
        ensures
            r == self@.nodes.len(),
    {
        self.nodes.len()
    }

    /// Creates a node holding `item` under `parent` without registering it in
    /// the parent's child list; returns its handle.  [`Self::add_child`] is
    /// the attaching counterpart.
    pub fn new_with_parent(&mut self, item: OutlineItem, parent: usize) -> (c: usize)
        requires
            old(self)@.wf(),
            parent < old(self)@.nodes.len(),
        ensures
            final(self)@.wf(),
            c == old(self)@.nodes.len(),
            final(self)@.nodes.len() == old(self)@.nodes.len() + 1,
            forall|n: int|
                0 <= n < old(self)@.nodes.len() ==> final(self)@.nodes[n] == old(self)@.nodes[n],
            final(self)@.nodes[c as int] == (TreeNodeView {
                item: Some(item@),
                parent: Some(parent as int),
                children: Seq::empty(),
            }),
    {
        let c = self.nodes.len();
        self.nodes.push(TreeNode { item: Some(item), parent: Some(parent), children: Vec::new() });
        proof {
            assert(self@.nodes[c as int].children =~= Seq::<int>::empty());
            assert(forall|n: int|
                0 <= n < old(self)@.nodes.len() ==> final(self)@.nodes[n] =~= old(self)@.nodes[n]);
        }
        c
    }

    /// Appends a node holding `item` as the last child of `parent`; returns
    /// the new node's handle.
    pub fn add_child(&mut self, parent: usize, item: OutlineItem) -> (c: usize)
        requires
            old(self)@.wf(),
            parent < old(self)@.nodes.len(),
        ensures
            final(self)@.wf(),
            old(self)@.complete() ==> final(self)@.complete(),
            c == old(self)@.nodes.len(),
            final(self)@.nodes.len() == old(self)@.nodes.len() + 1,
            forall|n: int|
                0 <= n < old(self)@.nodes.len() && n != parent ==> final(self)@.nodes[n] == old(
                    self,
                )@.nodes[n],
            final(self)@.nodes[parent as int].item == old(self)@.nodes[parent as int].item,
            final(self)@.nodes[parent as int].parent == old(self)@.nodes[parent as int].parent,
            final(self)@.nodes[parent as int].children == old(
                self,
            )@.nodes[parent as int].children.push(c as int),
            final(self)@.nodes[c as int] == (TreeNodeView {
                item: Some(item@),
                parent: Some(parent as int),
                children: Seq::empty(),
            }),
    {
        let c = self.nodes.len();
        self.nodes.push(TreeNode { item: Some(item), parent: Some(parent), children: Vec::new() });
        self.nodes[parent].children.push(c);
        proof {
            let tv = self@;
            let ov = old(self)@;
            let p = parent as int;
            assert forall|n: int| 0 <= n < ov.nodes.len() && n != p implies tv.nodes[n]
                == ov.nodes[n] by {
                assert(tv.nodes[n] =~= ov.nodes[n]);
            }
            assert(tv.nodes[p].children =~= ov.nodes[p].children.push(c as int));
            assert(tv.nodes[c as int].children =~= Seq::<int>::empty());
            assert(tv.nodes[c as int] =~= TreeNodeView {
                item: Some(item@),
                parent: Some(p),
                children: Seq::empty(),
            });
            assert forall|n: int, k: int|
                0 <= n < tv.nodes.len() && 0 <= k < tv.nodes[n].children.len() implies n < (
            tv.nodes[n].children[k]) < tv.nodes.len() && tv.nodes[tv.nodes[n].children[k]].parent
                == Some(n) by {
                if n == p && k == tv.nodes[p].children.len() - 1 {
                    assert(tv.nodes[n].children[k] == c as int);
                } else if n != c as int {
                    assert(ov.nodes[n].children[k] == tv.nodes[n].children[k]);
                }
            }
            if ov.complete() {
                assert forall|n: int| 1 <= n < tv.nodes.len() implies tv.nodes[tv.nodes[n].parent->0].children.contains(
                    n,
                ) by {
                    let np = tv.nodes[n].parent->0;
                    if n == c as int {
                        assert(tv.nodes[p].children[tv.nodes[p].children.len() - 1] == n);
                    } else {
                        assert(ov.nodes[np].children.contains(n));
                        let k = choose|k: int|
                            0 <= k < ov.nodes[np].children.len() && ov.nodes[np].children[k] == n;
                        assert(tv.nodes[np].children[k] == n);
                    }
                }
            }
        }
        c
    }

    /// True on the synthetic root: no parent and no item.
    pub fn is_root(&self, n: usize) -> (r: bool)
        requires
            n < self@.nodes.len(),
        ensures
            r == (self@.nodes[n as int].parent is None && self@.nodes[n as int].item is None),
            self@.wf() ==> (r <==> n == 0),
    {
        self.nodes[n].parent.is_none() && self.nodes[n].item.is_none()
    }

    /// The parent handle of `n`, or `None` on the root.
    pub fn parent(&self, n: usize) -> (r: Option<usize>)
        requires
            n < self@.nodes.len(),
        ensures
            match r {
                Some(p) => self@.nodes[n as int].parent == Some(p as int),
                None => self@.nodes[n as int].parent is None,
            },
    {
        self.nodes[n].parent
    }

    /// The item carried by `n`; `None` on the root.
    pub fn item(&self, n: usize) -> (r: Option<&OutlineItem>)
        requires
            n < self@.nodes.len(),
        ensures
            match r {
                Some(it) => self@.nodes[n as int].item == Some(it@),
                None => self@.nodes[n as int].item is None,
            },
    {
        self.nodes[n].item.as_ref()
    }

    /// The ordered child handles of `n`.
    pub fn children(&self, n: usize) -> (r: &Vec<usize>)
        requires
            n < self@.nodes.len(),
        ensures
            r@.map_values(|c: usize| c as int) == self@.nodes[n as int].children,
    {
        &self.nodes[n].children
    }

    /// True on a non-root node with no children.
    pub fn is_leaf(&self, n: usize) -> (r: bool)
        requires
            n < self@.nodes.len(),
        ensures
            r == (!(self@.nodes[n as int].parent is None && self@.nodes[n as int].item is None)
                && self@.nodes[n as int].children.len() == 0),
    {
        !self.is_root(n) && self.nodes[n].children.len() == 0
    }
}

/// Parents carry strictly shallower levels than their children, except under
/// the root.
pub open spec fn levels_decrease(t: OutlineTreeView) -> bool {
    forall|n: int|
        1 <= n < t.nodes.len() && (#[trigger] t.parent_of(n)) >= 1 ==> t.level_of(t.parent_of(n))
            < t.level_of(n)
}

/// The root lies on every node's chain.
proof fn lemma_on_chain_zero(t: OutlineTreeView, c: int)
    requires
        t.wf(),
        0 <= c < t.nodes.len(),
    ensures
        on_chain(t, c, 0),
    decreases c,
{
    if c > 0 {
        lemma_on_chain_zero(t, t.nodes[c].parent->0);
    }
}

/// Chain members never exceed the chain's foot.
proof fn lemma_on_chain_le(t: OutlineTreeView, c: int, m: int)
    requires
        on_chain(t, c, m),
        0 <= c,
    ensures
        0 <= m <= c,
    decreases c,
{
    if m != c && c > 0 && c < t.nodes.len() {
        lemma_on_chain_le(t, t.nodes[c].parent->0, m);
    }
}

/// A chain is totally ordered: of two members the larger reaches the smaller.
proof fn lemma_chain_order(t: OutlineTreeView, c: int, x: int, y: int)
    requires
        on_chain(t, c, x),
        on_chain(t, c, y),
        0 <= c,
        x <= y,
    ensures
        on_chain(t, y, x),
    decreases c,
{
    if y != c {
        lemma_on_chain_le(t, c, y);
        if x == c {
            lemma_on_chain_le(t, c, x);
        } else {
            lemma_chain_order(t, t.nodes[c].parent->0, x, y);
        }
    }
}

/// Chains only read parent links at or below their foot, so growing the arena
/// or touching child lists leaves them unchanged.
proof fn lemma_on_chain_stable(t1: OutlineTreeView, t2: OutlineTreeView, c: int, m: int)
    requires
        0 <= c < t1.nodes.len(),
        c < t2.nodes.len(),
        forall|n: int| 0 <= n <= c ==> t2.nodes[n].parent == t1.nodes[n].parent,
        forall|n: int|
            1 <= n <= c ==> ((#[trigger] t1.nodes[n].parent) matches Some(p) && 0 <= p < n),
    ensures
        on_chain(t1, c, m) == on_chain(t2, c, m),
    decreases c,
{
    if m != c && c > 0 {
        lemma_on_chain_stable(t1, t2, t1.nodes[c].parent->0, m);
    }
}

/// Shape of [`last_shallower`]: it stays within bounds, lands on an item
/// shallower than the threshold, and nothing after it is that shallow.
proof fn lemma_last_shallower_shape(items: Seq<OutlineItemView>, k: int, level: u32)
    requires
        0 <= k <= items.len(),
    ensures
        0 <= last_shallower(items, k, level) <= k,
        last_shallower(items, k, level) >= 1 ==> items[last_shallower(items, k, level)
            - 1].level < level,
        forall|m: int|
            last_shallower(items, k, level) <= m < k ==> (#[trigger] items[m].level) >= level,
    decreases k,
{
    if k > 0 && items[k - 1].level >= level {
        lemma_last_shallower_shape(items, k - 1, level);
    }
}

/// [`last_shallower`] is the largest candidate: any earlier item shallower
/// than the threshold sits at or before it.
proof fn lemma_last_shallower_largest(items: Seq<OutlineItemView>, k: int, level: u32, c: int)
    requires
        1 <= c <= k,
        items[c - 1].level < level,
    ensures
        c <= last_shallower(items, k, level),
    decreases k,
{
    if c < k && items[k - 1].level >= level {
        lemma_last_shallower_largest(items, k - 1, level, c);
    }
}

/// Raising the threshold can only move [`last_shallower`] forward.
proof fn lemma_last_shallower_mono(items: Seq<OutlineItemView>, k: int, l1: u32, l2: u32)
    requires
        l1 <= l2,
        0 <= k <= items.len(),
    ensures
        last_shallower(items, k, l1) <= last_shallower(items, k, l2),
    decreases k,
{
    if k > 0 {
        if items[k - 1].level < l1 {
            assert(last_shallower(items, k, l1) == k);
            assert(last_shallower(items, k, l2) == k);
        } else {
            lemma_last_shallower_mono(items, k - 1, l1, l2);
            if items[k - 1].level < l2 {
                assert(last_shallower(items, k, l2) == k);
                lemma_last_shallower_shape(items, k - 1, l1);
            }
        }
    }
}

/// In a tree whose parents follow [`spec_parent_node`], the candidate parent
/// for any threshold of at least 2 lies on the chain of the newest node: the
/// nearest strictly shallower item is always reachable by walking ancestors.
proof fn lemma_answer_on_chain(
    t: OutlineTreeView,
    items: Seq<OutlineItemView>,
    k: int,
    level: u32,
)
    requires
        t.wf(),
        level >= 2,
        0 <= k < t.nodes.len(),
        k <= items.len(),
        forall|i: int|
            0 <= i < k ==> (#[trigger] t.nodes[i + 1].parent) == Some(spec_parent_node(items, i)),
    ensures
        on_chain(t, k, last_shallower(items, k, level)),
    decreases k,
{
    if k == 0 {
    } else {
        let lk = items[k - 1].level;
        if lk < level {
            // last_shallower is k itself
        } else {
            let a = last_shallower(items, k, level);
            assert(a == last_shallower(items, k - 1, level));
            let p = spec_parent_node(items, k - 1);
            assert(t.nodes[(k - 1) + 1].parent == Some(spec_parent_node(items, k - 1)));
            assert(t.nodes[k].parent == Some(p));
            if lk <= 1 {
                assert(lk >= level);
                assert(false);
            }
            assert(p == last_shallower(items, k - 1, lk));
            lemma_answer_on_chain(t, items, k - 1, level);
            lemma_answer_on_chain(t, items, k - 1, lk);
            lemma_last_shallower_mono(items, k - 1, level, lk);
            lemma_chain_order(t, k - 1, a, p);
            lemma_last_shallower_shape(items, k - 1, level);
        }
    }
}

impl OutlineTree {
    /// The level of non-root node `n`'s item.
    pub(crate) fn node_level(&self, n: usize) -> (r: u32)
        requires
            self@.wf(),
            1 <= n < self@.nodes.len(),
        ensures
            r == self@.level_of(n as int),
    {
        proof {
            assert(self@.nodes[n as int] == self.nodes@[n as int]@);
        }
        match &self.nodes[n].item {
            Some(it) => it.level,
            None => {
                proof {
                    assert(self.nodes@[n as int]@.item is None);
                    assert(false);
                }
                0
            },
        }
    }

    /// The parent handle of non-root node `n`.
    pub(crate) fn node_parent(&self, n: usize) -> (r: usize)
        requires
            self@.wf(),
            1 <= n < self@.nodes.len(),
        ensures
            Some(r as int) == self@.nodes[n as int].parent,
            r < n,
    {
        proof {
            assert(self@.nodes[n as int] == self.nodes@[n as int]@);
        }
        match self.nodes[n].parent {
            Some(p) => p,
            None => {
                proof {
                    assert(self.nodes@[n as int]@.parent is None);
                    assert(false);
                }
                0
            },
        }
    }
}

impl Outline {
    /// Builds the tree of this outline: one node per item, in item order.
    /// An item of level 1 (or lower) hangs off the root; a deeper item hangs
    /// off the nearest preceding item with a strictly shallower level, found
    /// by walking ancestors up from the previously added node, or off the
    /// root when no such item exists.
    pub fn to_tree(&self) -> (t: OutlineTree)
        ensures
            t@.wf(),
            t@.complete(),
            levels_decrease(t@),
            tree_matches_items(t@, self@.items),
    {
        let ghost items = self@.items;
        let n = self.item.len();
        let mut tree = OutlineTree::new_root();
        let mut last: usize = 0;
        let mut idx: usize = 0;
        while idx < n
            invariant
                n == self.item@.len(),
                idx <= n,
                tree@.wf(),
                tree@.complete(),
                levels_decrease(tree@),
                items == self@.items,
                items.len() == n,
                tree@.nodes.len() == idx + 1,
                last == idx,
                forall|i: int|
                    0 <= i < idx ==> (#[trigger] tree@.nodes[i + 1].item) == Some(items[i]),
                forall|i: int|
                    0 <= i < idx ==> (#[trigger] tree@.nodes[i + 1].parent) == Some(
                        spec_parent_node(items, i),
                    ),
            decreases n - idx,
        {
            let ghost k = idx as int;
            let lv = self.item[idx].level;
            assert(items[k].level == lv);
            let mut parent: usize = 0;
            if lv > 1 && last != 0 {
                let lastlv = tree.node_level(last);
                assert(tree@.nodes[(k - 1) + 1].item == Some(items[k - 1]));
                assert(lastlv == items[k - 1].level);
                if lv > lastlv {
                    parent = last;
                    assert(parent as int == spec_parent_node(items, k));
                } else {
                    let ghost a = last_shallower(items, k, lv);
                    proof {
                        lemma_answer_on_chain(tree@, items, k, lv);
                        lemma_last_shallower_shape(items, k, lv);
                    }
                    let mut cur: usize = last;
                    loop
                        invariant_except_break
                            tree@.wf(),
                            levels_decrease(tree@),
                            items.len() == n,
                            tree@.nodes.len() == idx + 1,
                            idx < n,
                            k == idx as int,
                            lv == items[k].level,
                            lv >= 2,
                            a == last_shallower(items, k, lv),
                            0 <= a <= k,
                            a >= 1 ==> items[a - 1].level < lv,
                            forall|i: int|
                                0 <= i < idx ==> (#[trigger] tree@.nodes[i + 1].item) == Some(
                                    items[i],
                                ),
                            cur <= idx,
                            on_chain(tree@, cur as int, a),
                        ensures
                            cur as int == a,
                            cur <= idx,
                        decreases cur,
                    {
                        if cur == 0 {
                            proof {
                                lemma_on_chain_le(tree@, 0, a);
                            }
                            break ;
                        }
                        let clv = tree.node_level(cur);
                        assert(tree@.nodes[(cur as int - 1) + 1].item == Some(items[cur as int - 1]));
                        assert(clv == items[cur - 1].level);
                        if clv < lv {
                            proof {
                                lemma_last_shallower_largest(items, k, lv, cur as int);
                                lemma_on_chain_le(tree@, cur as int, a);
                            }
                            break ;
                        }
                        proof {
                            if a == cur as int {
                                assert(items[a - 1].level < lv);
                                assert(false);
                            }
                        }
                        cur = tree.node_parent(cur);
                    }
                    parent = cur;
                    assert(parent as int == spec_parent_node(items, k));
                }
            } else {
                proof {
                    if lv > 1 {
                        assert(k == 0);
                        assert(spec_parent_node(items, k) == 0);
                    }
                }
            }
            assert(parent as int == spec_parent_node(items, k));
            let src = &self.item[idx];
            let it = OutlineItem { key: src.key.clone(), level: src.level, value: src.value.clone() };
            proof {
                assert(it.value.deep_view() =~= src.value.deep_view()) by {
                    assert(forall|i: int|
                        0 <= i < src.value@.len() ==> it.value@[i]@ == #[trigger] src.value@[i]@);
                }
                assert(it@ =~= items[k]);
            }
            let ghost old_tree = tree@;
            let c = tree.add_child(parent, it);
            last = c;
            idx = idx + 1;
            proof {
                assert forall|i: int|
                    0 <= i < idx ==> (#[trigger] tree@.nodes[i + 1].item) == Some(items[i]) by {}
                assert forall|i: int|
                    0 <= i < idx ==> (#[trigger] tree@.nodes[i + 1].parent) == Some(
                        spec_parent_node(items, i),
                    ) by {}
                assert(levels_decrease(tree@)) by {
                    assert forall|m: int|
                        1 <= m < tree@.nodes.len() && (#[trigger] tree@.parent_of(m)) >= 1 implies
                        tree@.level_of(tree@.parent_of(m)) < tree@.level_of(m) by {
                        if m < c as int {
                            assert(old_tree.parent_of(m) == tree@.parent_of(m));
                            assert(old_tree.level_of(old_tree.parent_of(m)) < old_tree.level_of(m));
                        } else {
                            let p = tree@.parent_of(m);
                            if p >= 1 {
                                assert(tree@.nodes[(p - 1) + 1].item == Some(items[p - 1]));
                                assert(tree@.level_of(p) == items[p - 1].level);
                                assert(items[p - 1].level < lv);
                            }
                        }
                    }
                }
            }
        }
        tree
    }
}

/// Handles that may sit on a traversal stack: strictly between the root and
/// the end of the arena.
pub open spec fn handles_ok(t: OutlineTreeView, ns: Seq<int>) -> bool {
    forall|i: int| 0 <= i < ns.len() ==> 0 < #[trigger] ns[i] < t.nodes.len()
}

/// Preorder listing of the forest made of the subtrees rooted at the handles
/// of `ns`, left to right, each node before its children's listing.  `lb` is
/// a lower bound on the handles, which grows as the recursion descends; a
/// malformed forest yields the empty sequence.
pub open spec fn pre_forest(t: OutlineTreeView, ns: Seq<int>, lb: int) -> Seq<int>
    decreases t.nodes.len() - lb, ns.len(),
{
    if ns.len() == 0 || lb < 0 {
        Seq::empty()
    } else {
        let m = ns[0];
        if lb < m < t.nodes.len() {
            seq![m] + pre_forest(t, t.nodes[m].children, m) + pre_forest(t, ns.drop_first(), lb)
        } else {
            Seq::empty()
        }
    }
}

/// The preorder listing of the descendants of `n` (itself excluded).
pub open spec fn spec_descendants(t: OutlineTreeView, n: int) -> Seq<int> {
    pre_forest(t, t.nodes[n].children, n)
}

/// The handles from `n`'s parent up to and including the root; empty on the
/// root itself.
pub open spec fn anc_seq(t: OutlineTreeView, n: int) -> Seq<int>
    decreases n,
{
    if 1 <= n < t.nodes.len() {
        match t.nodes[n].parent {
            Some(p) => if 0 <= p < n {
                seq![p] + anc_seq(t, p)
            } else {
                Seq::empty()
            },
            None => Seq::empty(),
        }
    } else {
        Seq::empty()
    }
}

/// In a well-formed tree the lower bound of [`pre_forest`] does not matter,
/// as long as the handles clear it.
proof fn lemma_pre_forest_lb(t: OutlineTreeView, ns: Seq<int>, lb1: int, lb2: int)
    requires
        t.wf(),
        handles_ok(t, ns),
        0 <= lb1,
        0 <= lb2,
        forall|i: int| 0 <= i < ns.len() ==> #[trigger] ns[i] > lb1 && ns[i] > lb2,
    ensures
        pre_forest(t, ns, lb1) == pre_forest(t, ns, lb2),
    decreases ns.len(),
{
    if ns.len() > 0 {
        assert(ns[0] > lb1 && ns[0] > lb2);
        lemma_pre_forest_lb(t, ns.drop_first(), lb1, lb2);
    }
}

/// [`pre_forest`] distributes over concatenation of forests.
proof fn lemma_pre_forest_app(t: OutlineTreeView, a: Seq<int>, b: Seq<int>, lb: int)
    requires
        t.wf(),
        0 <= lb,
        forall|i: int| 0 <= i < a.len() ==> lb < #[trigger] a[i] < t.nodes.len(),
        forall|i: int| 0 <= i < b.len() ==> lb < #[trigger] b[i] < t.nodes.len(),
    ensures
        pre_forest(t, a + b, lb) == pre_forest(t, a, lb) + pre_forest(t, b, lb),
    decreases a.len(),
{
    if a.len() == 0 {
        assert(a + b =~= b);
        assert(pre_forest(t, a, lb) + pre_forest(t, b, lb) =~= pre_forest(t, b, lb));
    } else {
        assert((a + b)[0] == a[0]);
        assert((a + b).drop_first() =~= a.drop_first() + b);
        lemma_pre_forest_app(t, a.drop_first(), b, lb);
        assert(pre_forest(t, a + b, lb) =~= pre_forest(t, a, lb) + pre_forest(t, b, lb));
    }
}

/// In a well-formed tree, children handles clear their parent, so they are
/// valid stack handles.
proof fn lemma_children_ok(t: OutlineTreeView, m: int)
    requires
        t.wf(),
        0 <= m < t.nodes.len(),
    ensures
        handles_ok(t, t.nodes[m].children),
        forall|i: int|
            0 <= i < t.nodes[m].children.len() ==> #[trigger] t.nodes[m].children[i] > m,
{
}

/// What remains to be produced by a descendants traversal whose stack (top
/// last) is `st`: the preorder listings of the stacked subtrees, top first.
pub open spec fn stack_output(t: OutlineTreeView, st: Seq<int>) -> Seq<int> {
    pre_forest(t, st.reverse(), 0)
}

/// A preorder walk over the descendants of one node, driven by an explicit
/// stack of pending handles.
#[derive(Debug, Clone)]
pub struct Descendants {
    pub stack: Vec<usize>,
}

impl View for Descendants {
    type V = Seq<int>;

    open spec fn view(&self) -> Seq<int> {
        self.stack@.map_values(|c: usize| c as int)
    }
}

/// A walk from a node's parent up to the root.
#[derive(Debug, Clone)]
pub struct Ancestors {
    pub current: Option<usize>,
}

impl Ancestors {
    /// The handles this walk will still yield, for the given tree.
    pub open spec fn remaining(&self, t: OutlineTreeView) -> Seq<int> {
        match self.current {
            Some(c) => seq![c as int] + anc_seq(t, c as int),
            None => Seq::empty(),
        }
    }

    /// Yields the next ancestor, ending with the root.
    pub fn next(&mut self, tree: &OutlineTree) -> (r: Option<usize>)
        requires
            tree@.wf(),
            match old(self).current {
                Some(c) => c < tree@.nodes.len(),
                None => true,
            },
        ensures
            match old(self).current {
                Some(c) => r == Some(c) && final(self).remaining(tree@) == anc_seq(tree@, c as int)
                    && (match final(self).current {
                    Some(p) => p < c,
                    None => true,
                }),
                None => r is None && final(self).current is None,
            },
    {
        match self.current {
            Some(c) => {
                self.current = tree.parent(c);
                proof {
                    if c > 0 {
                        assert(anc_seq(tree@, c as int) == seq![tree@.nodes[c as int].parent->0]
                            + anc_seq(tree@, tree@.nodes[c as int].parent->0));
                    }
                }
                Some(c)
            },
            None => None,
        }
    }
}

impl OutlineTree {
    /// Starts a preorder walk over the descendants of `n`.
    pub fn descendants(&self, n: usize) -> (r: Descendants)
        requires
            self@.wf(),
            n < self@.nodes.len(),
        ensures
            handles_ok(self@, r@),
            stack_output(self@, r@) == spec_descendants(self@, n as int),
    {
        let ghost cs = self@.nodes[n as int].children;
        let kids = self.children(n);
        let mut stack: Vec<usize> = Vec::new();
        let mut i: usize = kids.len();
        while i > 0
            invariant
                i <= kids.len(),
                kids@.map_values(|c: usize| c as int) == cs,
                cs == self@.nodes[n as int].children,
                n < self@.nodes.len(),
                stack@.len() == kids@.len() - i,
                forall|j: int|
                    0 <= j < stack@.len() ==> (#[trigger] stack@[j]) as int == cs[cs.len() - 1 - j],
            decreases i,
        {
            i = i - 1;
            proof {
                assert(cs[i as int] == kids@.map_values(|c: usize| c as int)[i as int]);
            }
            stack.push(kids[i]);
        }
        let r = Descendants { stack };
        proof {
            lemma_children_ok(self@, n as int);
            assert forall|j: int| 0 <= j < r@.len() implies 0 < #[trigger] r@[j]
                < self@.nodes.len() by {
                assert(r@[j] == cs[cs.len() - 1 - j]);
            }
            assert(r@.reverse() =~= cs);
            lemma_pre_forest_lb(self@, cs, 0, n as int);
        }
        r
    }

    /// Starts a walk over the ancestors of `n`, parent first, root last.
    pub fn ancestors(&self, n: usize) -> (r: Ancestors)
        requires
            self@.wf(),
            n < self@.nodes.len(),
        ensures
            r.remaining(self@) == anc_seq(self@, n as int),
            match r.current {
                Some(p) => p < n,
                None => n == 0,
            },
    {
        Ancestors { current: self.parent(n) }
    }
}

/// One step of the preorder walk, on the stack model: popping the top and
/// pushing its children in reverse drops exactly the first element of the
/// pending output.
proof fn lemma_descendants_step(t: OutlineTreeView, ost: Seq<int>, newst: Seq<int>, mi: int)
    requires
        t.wf(),
        handles_ok(t, ost),
        ost.len() > 0,
        mi == ost.last(),
        newst == ost.drop_last() + t.nodes[mi].children.reverse(),
    ensures
        handles_ok(t, newst),
        stack_output(t, ost)[0] == mi,
        stack_output(t, newst) == stack_output(t, ost).drop_first(),
{
    let popped = ost.drop_last();
    let cs = t.nodes[mi].children;
    assert(0 < mi < t.nodes.len());
    lemma_children_ok(t, mi);
    assert(handles_ok(t, popped));
    assert forall|j: int| 0 <= j < newst.len() implies 0 < #[trigger] newst[j]
        < t.nodes.len() by {
        if j >= popped.len() {
            assert(newst[j] == cs.reverse()[j - popped.len()]);
            assert(cs.reverse()[j - popped.len()] == cs[cs.len() - 1 - (j - popped.len())]);
        } else {
            assert(newst[j] == popped[j]);
        }
    }
    assert(ost.reverse() =~= seq![mi] + popped.reverse());
    assert(ost.reverse().drop_first() =~= popped.reverse());
    assert(pre_forest(t, ost.reverse(), 0) == seq![mi] + pre_forest(t, cs, mi) + pre_forest(
        t,
        popped.reverse(),
        0,
    ));
    assert(newst.reverse() =~= cs.reverse().reverse() + popped.reverse());
    assert(cs.reverse().reverse() =~= cs);
    assert(newst.reverse() =~= cs + popped.reverse());
    lemma_pre_forest_app(t, cs, popped.reverse(), 0);
    lemma_pre_forest_lb(t, cs, 0, mi);
    assert(stack_output(t, newst) == pre_forest(t, cs, mi) + pre_forest(t, popped.reverse(), 0));
    assert(stack_output(t, newst) =~= stack_output(t, ost).drop_first());
}

impl Descendants {
    /// Yields the next handle in preorder: pops the top of the stack and
    /// schedules its children.
    #[verifier::rlimit(100)]
    pub fn next(&mut self, tree: &OutlineTree) -> (r: Option<usize>)
        requires
            tree@.wf(),
            handles_ok(tree@, old(self)@),
        ensures
            handles_ok(tree@, final(self)@),
            match r {
                Some(m) => old(self)@.len() > 0 && m as int == stack_output(tree@, old(self)@)[0]
                    && stack_output(tree@, final(self)@) == stack_output(
                    tree@,
                    old(self)@,
                ).drop_first() && 0 < m < tree@.nodes.len(),
                None => old(self)@.len() == 0 && final(self)@ == old(self)@,
            },
    {
        let m = match self.stack.pop() {
            Some(m) => m,
            None => {
                return None;
            },
        };
        proof {
            assert(old(self)@[old(self)@.len() - 1] == m as int);
        }
        let ghost popped = self.stack@.map_values(|c: usize| c as int);
        let ghost t = tree@;
        let ghost mi = m as int;
        proof {
            assert(popped =~= old(self)@.drop_last());
            assert(handles_ok(t, popped));
        }
        let ghost cs = t.nodes[mi].children;
        let kids = tree.children(m);
        let mut i: usize = kids.len();
        while i > 0
            invariant
                i <= kids.len(),
                kids@.map_values(|c: usize| c as int) == cs,
                cs == t.nodes[mi].children,
                t == tree@,
                tree@.wf(),
                0 < mi < t.nodes.len(),
                self@.len() == popped.len() + kids@.len() - i,
                forall|j: int| 0 <= j < popped.len() ==> #[trigger] self@[j] == popped[j],
                forall|j: int|
                    popped.len() <= j < self@.len() ==> #[trigger] self@[j] == cs[cs.len() - 1 - (j
                        - popped.len())],
            decreases i,
        {
            i = i - 1;
            proof {
                assert(cs[i as int] == kids@.map_values(|c: usize| c as int)[i as int]);
            }
            let c = kids[i];
            let ghost prev = self@;
            self.stack.push(c);
            proof {
                assert(self.stack@.len() == prev.len() + 1);
                assert forall|j: int| 0 <= j < prev.len() implies #[trigger] self@[j]
                    == prev[j] by {
                    assert(self.stack@[j] == self.stack@.drop_last()[j]);
                }
                assert(self@[self@.len() - 1] == c as int);
            }
        }
        proof {
            lemma_children_ok(t, mi);
            assert forall|j: int|
                popped.len() <= j < self@.len() implies #[trigger] self@[j] == cs.reverse()[j
                - popped.len()] by {
                assert(self@[j] == cs[cs.len() - 1 - (j - popped.len())]);
            }
            assert(self@ =~= popped + cs.reverse());
            lemma_descendants_step(t, old(self)@, final(self)@, mi);
        }
        Some(m)
    }
}

impl OutlineTree {
    /// The sibling just before `n` among its parent's children, if any.
    pub fn prev(&self, n: usize) -> (r: Option<usize>)
        requires
            self@.wf(),
            n < self@.nodes.len(),
        ensures
            ({
                let pn = self@.nodes[n as int].parent;
                match r {
                    Some(p) => pn matches Some(pi) && exists|k: int|
                        1 <= k < self@.nodes[pi].children.len() && (#[trigger] self@.nodes[pi].children[k])
                            == n as int && self@.nodes[pi].children[k - 1] == p as int,
                    None => match pn {
                        Some(pi) => !exists|k: int|
                            1 <= k < self@.nodes[pi].children.len()
                                && (#[trigger] self@.nodes[pi].children[k]) == n as int,
                        None => true,
                    },
                }
            }),
    {
        let p = match self.parent(n) {
            Some(p) => p,
            None => {
                return None;
            },
        };
        let ghost pi = p as int;
        let ghost cs = self@.nodes[pi].children;
        let kids = self.children(p);
        let mut k: usize = 0;
        while k < kids.len()
            invariant
                self@.wf(),
                n < self@.nodes.len(),
                pi == p as int,
                0 <= pi < self@.nodes.len(),
                cs == self@.nodes[pi].children,
                kids@.map_values(|c: usize| c as int) == cs,
                k <= kids@.len(),
                forall|j: int| 0 <= j < k ==> cs[j] != n as int,
            decreases kids@.len() - k,
        {
            proof {
                assert(cs[k as int] == kids@.map_values(|c: usize| c as int)[k as int]);
            }
            if kids[k] == n {
                if k == 0 {
                    proof {
                        assert forall|j: int| 1 <= j < cs.len() implies cs[j] != n as int by {
                            assert(cs[0] < cs[j]);
                        }
                    }
                    return None;
                }
                proof {
                    assert(cs[k - 1] == kids@.map_values(|c: usize| c as int)[k - 1]);
                }
                return Some(kids[k - 1]);
            }
            k = k + 1;
        }
        None
    }

    /// The sibling just after `n` among its parent's children, if any.
    pub fn next(&self, n: usize) -> (r: Option<usize>)
        requires
            self@.wf(),
            n < self@.nodes.len(),
        ensures
            ({
                let pn = self@.nodes[n as int].parent;
                match r {
                    Some(q) => pn matches Some(pi) && exists|k: int|
                        0 <= k < self@.nodes[pi].children.len() - 1 && (#[trigger] self@.nodes[pi].children[k])
                            == n as int && self@.nodes[pi].children[k + 1] == q as int,
                    None => match pn {
                        Some(pi) => !exists|k: int|
                            0 <= k < self@.nodes[pi].children.len() - 1
                                && (#[trigger] self@.nodes[pi].children[k]) == n as int,
                        None => true,
                    },
                }
            }),
    {
        let p = match self.parent(n) {
            Some(p) => p,
            None => {
                return None;
            },
        };
        let ghost pi = p as int;
        let ghost cs = self@.nodes[pi].children;
        let kids = self.children(p);
        let mut k: usize = 0;
        while k < kids.len()
            invariant
                self@.wf(),
                n < self@.nodes.len(),
                pi == p as int,
                0 <= pi < self@.nodes.len(),
                cs == self@.nodes[pi].children,
                kids@.map_values(|c: usize| c as int) == cs,
                k <= kids@.len(),
                forall|j: int| 0 <= j < k ==> cs[j] != n as int,
            decreases kids@.len() - k,
        {
            proof {
                assert(cs[k as int] == kids@.map_values(|c: usize| c as int)[k as int]);
            }
            if kids[k] == n {
                if k + 1 >= kids.len() {
                    proof {
                        assert forall|j: int| 0 <= j < cs.len() - 1 implies cs[j] != n as int by {
                            assert(cs[j] < cs[k as int]);
                        }
                    }
                    return None;
                }
                proof {
                    assert(cs[k + 1] == kids@.map_values(|c: usize| c as int)[k + 1]);
                }
                return Some(kids[k + 1]);
            }
            k = k + 1;
        }
        None
    }
}

/// In the tree of an outline whose levels climb by exactly one from 1, every
/// node's children are the single next node, so the tree is one path.
proof fn lemma_chain_children(t: OutlineTreeView, items: Seq<OutlineItemView>, m: int)
    requires
        t.wf(),
        t.complete(),
        tree_matches_items(t, items),
        forall|i: int| 0 <= i < items.len() ==> #[trigger] items[i].level == i + 1,
        0 <= m <= items.len(),
    ensures
        m < items.len() ==> t.nodes[m].children =~= seq![m + 1],
        m == items.len() ==> t.nodes[m].children =~= Seq::<int>::empty(),
{
    assert forall|c: int| 1 <= c <= items.len() implies #[trigger] t.nodes[c].parent == Some(
        c - 1,
    ) by {
        assert(t.nodes[(c - 1) + 1].parent == Some(spec_parent_node(items, c - 1)));
        if c - 1 >= 1 {
            assert(items[c - 1].level == c);
            assert(items[c - 2].level == c - 1);
            assert(last_shallower(items, c - 1, (c) as u32) == c - 1);
        }
    }
    let cs = t.nodes[m].children;
    assert forall|k: int| 0 <= k < cs.len() implies cs[k] == m + 1 by {
        assert(t.nodes[cs[k]].parent == Some(m));
    }
    if m < items.len() {
        assert(t.nodes[m + 1].parent == Some(m));
        assert(cs.contains(m + 1));
        let k0 = choose|k: int| 0 <= k < cs.len() && cs[k] == m + 1;
        if cs.len() >= 2 {
            assert(cs[0] < cs[1]);
            assert(false);
        }
        assert(cs =~= seq![m + 1]);
    } else {
        assert(cs =~= Seq::<int>::empty());
    }
}

/// The preorder of the path suffix starting at node `m` is `m, m+1, ..., n`.
proof fn lemma_chain_pre(t: OutlineTreeView, items: Seq<OutlineItemView>, m: int, lb: int)
    requires
        t.wf(),
        t.complete(),
        tree_matches_items(t, items),
        forall|i: int| 0 <= i < items.len() ==> #[trigger] items[i].level == i + 1,
        1 <= m <= items.len(),
        0 <= lb < m,
    ensures
        pre_forest(t, seq![m], lb) =~= Seq::new((items.len() - m + 1) as nat, |i: int| m + i),
    decreases items.len() - m,
{
    lemma_chain_children(t, items, m);
    assert(pre_forest(t, seq![m], lb) == seq![m] + pre_forest(t, t.nodes[m].children, m)
        + pre_forest(t, seq![m].drop_first(), lb));
    assert(seq![m].drop_first() =~= Seq::<int>::empty());
    if m == items.len() {
        assert(pre_forest(t, t.nodes[m].children, m) =~= Seq::<int>::empty());
    } else {
        assert(t.nodes[m].children =~= seq![m + 1]);
        lemma_chain_pre(t, items, m + 1, m);
    }
}

/// Round trip of the tree builder: an outline whose levels are exactly
/// `1, 2, 3, ...` builds one path, and flattening that tree in preorder via
/// the descendants of the root yields the nodes of the items in their
/// original order.
pub proof fn lemma_chain_round_trip(t: OutlineTreeView, items: Seq<OutlineItemView>)
    requires
        t.wf(),
        t.complete(),
        tree_matches_items(t, items),
        forall|i: int| 0 <= i < items.len() ==> #[trigger] items[i].level == i + 1,
    ensures
        spec_descendants(t, 0) =~= Seq::new(items.len(), |i: int| i + 1),
        forall|i: int|
            0 <= i < items.len() ==> t.nodes[#[trigger] spec_descendants(t, 0)[i]].item == Some(
                items[i],
            ),
{
    lemma_chain_children(t, items, 0);
    if items.len() == 0 {
        assert(pre_forest(t, t.nodes[0].children, 0) =~= Seq::<int>::empty());
    } else {
        assert(t.nodes[0].children =~= seq![1]);
        lemma_chain_pre(t, items, 1, 0);
        assert(spec_descendants(t, 0) =~= Seq::new(items.len(), |i: int| i + 1));
    }
    assert forall|i: int| 0 <= i < items.len() implies t.nodes[#[trigger] spec_descendants(
        t,
        0,
    )[i]].item == Some(items[i]) by {
        assert(spec_descendants(t, 0)[i] == i + 1);
        assert(t.nodes[i + 1].item == Some(items[i]));
    }
}

/// Item `i` is a leaf of the outline's tree: no item is parented on its node.
pub open spec fn spec_is_leaf(items: Seq<OutlineItemView>, i: int) -> bool {
    forall|j: int| 0 <= j < items.len() ==> spec_parent_node(items, j) != i + 1
}

/// How many of the first `n` items are leaves.
pub open spec fn leaf_count(items: Seq<OutlineItemView>, n: int) -> int
    decreases n,
{
    if n <= 0 {
        0
    } else {
        leaf_count(items, n - 1) + if spec_is_leaf(items, n - 1) {
            1int
        } else {
            0int
        }
    }
}

/// Leaf counts stay within the prefix length.
pub proof fn lemma_leaf_count_bounds(items: Seq<OutlineItemView>, n: int)
    ensures
        0 <= leaf_count(items, n) <= if n <= 0 {
            0int
        } else {
            n
        },
    decreases n,
{
    if n > 0 {
        lemma_leaf_count_bounds(items, n - 1);
    }
}

/// The key of the first node at level `l` on the ancestor chain of node `m`
/// (itself included), or `None` when the chain holds no such node.
pub open spec fn key_at_level(items: Seq<OutlineItemView>, m: int, l: int) -> Option<Seq<char>>
    decreases m,
{
    if m <= 0 || m > items.len() {
        None
    } else if items[m - 1].level as int == l {
        Some(items[m - 1].key)
    } else {
        let p = spec_parent_node(items, m - 1);
        if 0 <= p < m {
            key_at_level(items, p, l)
        } else {
            None
        }
    }
}

/// Node `m` has an earlier sibling: an earlier item shares its parent.
pub open spec fn has_prev_item(items: Seq<OutlineItemView>, m: int) -> bool {
    exists|j: int|
        0 <= j < m - 1 && #[trigger] spec_parent_node(items, j) == spec_parent_node(items, m - 1)
}

/// Node `m` has a later sibling: a later item shares its parent.
pub open spec fn has_next_item(items: Seq<OutlineItemView>, m: int) -> bool {
    exists|j: int|
        m - 1 < j < items.len() && #[trigger] spec_parent_node(items, j) == spec_parent_node(
            items,
            m - 1,
        )
}

/// The parent node of an item always lies strictly before the item's node.
pub proof fn lemma_spec_parent_bound(items: Seq<OutlineItemView>, i: int)
    requires
        0 <= i,
    ensures
        0 <= spec_parent_node(items, i) <= i,
{
    if items[i].level > 1 {
        lemma_last_shallower_in_range(items, i, items[i].level);
    }
}

/// [`last_shallower`] stays within `0..=j`.
proof fn lemma_last_shallower_in_range(items: Seq<OutlineItemView>, j: int, level: u32)
    requires
        0 <= j,
    ensures
        0 <= last_shallower(items, j, level) <= j,
    decreases j,
{
    if j > 0 && !(items[j - 1].level < level) {
        lemma_last_shallower_in_range(items, j - 1, level);
    }
}

/// In a complete well-formed tree that matches the items, a node's child list
/// is empty exactly when the item is a leaf in the sense of
/// [`spec_is_leaf`].
pub proof fn lemma_leaf_iff(t: OutlineTreeView, items: Seq<OutlineItemView>, i: int)
    requires
        t.wf(),
        t.complete(),
        tree_matches_items(t, items),
        0 <= i < items.len(),
    ensures
        t.nodes[i + 1].children.len() == 0 <==> spec_is_leaf(items, i),
{
    if t.nodes[i + 1].children.len() == 0 {
        assert forall|j: int| 0 <= j < items.len() implies spec_parent_node(items, j) != i
            + 1 by {
            if spec_parent_node(items, j) == i + 1 {
                assert(t.nodes[j + 1].parent == Some(i + 1));
                assert(t.nodes[i + 1].children.contains(j + 1));
            }
        }
    } else {
        let c = t.nodes[i + 1].children[0];
        assert(t.nodes[c].parent == Some(i + 1));
        assert(t.nodes[(c - 1) + 1].parent == Some(spec_parent_node(items, c - 1)));
        assert(spec_parent_node(items, c - 1) == i + 1);
        assert(!spec_is_leaf(items, i));
    }
}

/// In a complete well-formed tree that matches the items, the sibling
/// lookups of [`OutlineTree::prev`] and [`OutlineTree::next`] agree with
/// [`has_prev_item`] and [`has_next_item`].
pub proof fn lemma_sibling_iff(t: OutlineTreeView, items: Seq<OutlineItemView>, m: int)
    requires
        t.wf(),
        t.complete(),
        tree_matches_items(t, items),
        1 <= m <= items.len(),
    ensures
        has_prev_item(items, m) <==> exists|k: int|
            1 <= k < t.nodes[t.nodes[m].parent->0].children.len()
                && (#[trigger] t.nodes[t.nodes[m].parent->0].children[k]) == m,
        has_next_item(items, m) <==> exists|k: int|
            0 <= k < t.nodes[t.nodes[m].parent->0].children.len() - 1
                && (#[trigger] t.nodes[t.nodes[m].parent->0].children[k]) == m,
{
    let p = t.nodes[m].parent->0;
    let cs = t.nodes[p].children;
    assert(t.nodes[(m - 1) + 1].parent == Some(spec_parent_node(items, m - 1)));
    assert(p == spec_parent_node(items, m - 1));
    assert(cs.contains(m));
    let km = choose|k: int| 0 <= k < cs.len() && cs[k] == m;
    // Any sibling item shares the parent and appears in the child list.
    if has_prev_item(items, m) {
        let j = choose|j: int|
            0 <= j < m - 1 && #[trigger] spec_parent_node(items, j) == spec_parent_node(
                items,
                m - 1,
            );
        assert(t.nodes[j + 1].parent == Some(p));
        assert(cs.contains(j + 1));
        let kj = choose|k: int| 0 <= k < cs.len() && cs[k] == j + 1;
        assert(cs[kj] < cs[km] || kj == km);
        assert(kj < km || kj == km) by {
            if kj > km {
                assert(cs[km] < cs[kj]);
            }
        }
        assert(kj != km);
        assert(cs[km] == m);
        assert(km >= 1);
    }
    if exists|k: int| 1 <= k < cs.len() && (#[trigger] cs[k]) == m {
        let k = choose|k: int| 1 <= k < cs.len() && (#[trigger] cs[k]) == m;
        let q = cs[k - 1];
        assert(t.nodes[q].parent == Some(p));
        assert(q < m);
        assert(q >= 1);
        assert(t.nodes[(q - 1) + 1].parent == Some(spec_parent_node(items, q - 1)));
        assert(spec_parent_node(items, q - 1) == p);
        assert(0 <= q - 1 < m - 1 && spec_parent_node(items, q - 1) == spec_parent_node(
            items,
            m - 1,
        ));
        assert(has_prev_item(items, m));
    }
    if has_next_item(items, m) {
        let j = choose|j: int|
            m - 1 < j < items.len() && #[trigger] spec_parent_node(items, j) == spec_parent_node(
                items,
                m - 1,
            );
        assert(t.nodes[j + 1].parent == Some(p));
        assert(cs.contains(j + 1));
        let kj = choose|k: int| 0 <= k < cs.len() && cs[k] == j + 1;
        assert(cs[kj] == j + 1 > m);
        assert(kj > km) by {
            if kj < km {
                assert(cs[kj] < cs[km]);
            }
        }
        assert(km < cs.len() - 1);
        assert(cs[km] == m);
    }
    if exists|k: int| 0 <= k < cs.len() - 1 && (#[trigger] cs[k]) == m {
        let k = choose|k: int| 0 <= k < cs.len() - 1 && (#[trigger] cs[k]) == m;
        let q = cs[k + 1];
        assert(t.nodes[q].parent == Some(p));
        assert(q > m);
        assert(t.nodes[(q - 1) + 1].parent == Some(spec_parent_node(items, q - 1)));
        assert(m - 1 < q - 1 < items.len() && spec_parent_node(items, q - 1) == spec_parent_node(
            items,
            m - 1,
        ));
        assert(has_next_item(items, m));
    }
}

/// Every item level is bounded by [`spec_max_level`].
pub proof fn lemma_item_level_le_max(o: OutlineView, i: int)
    requires
        0 <= i < o.items.len(),
    ensures
        o.items[i].level <= spec_max_level(o),
{
    lemma_max_item_level_bounds(o.items, o.items.len() as int);
}

/// `max_item_level(items, n)` bounds every level in the prefix.
proof fn lemma_max_item_level_bounds(items: Seq<OutlineItemView>, n: int)
    ensures
        forall|i: int| 0 <= i < n ==> items[i].level <= max_item_level(items, n),
    decreases n,
{
    if n > 0 {
        lemma_max_item_level_bounds(items, n - 1);
    }
}

/// `max_item_values(items, n)` bounds every value count in the prefix.
proof fn lemma_max_item_values_bounds(items: Seq<OutlineItemView>, n: int)
    ensures
        forall|i: int| 0 <= i < n ==> items[i].values.len() <= max_item_values(items, n),
    decreases n,
{
    if n > 0 {
        lemma_max_item_values_bounds(items, n - 1);
    }
}

} // verus!
