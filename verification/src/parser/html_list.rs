//! The HTML list reader: its options and the rule that turns a stream of
//! markup events into outline items.  Parsing the HTML itself is the
//! caller's job; it walks the document and hands each element boundary and
//! text node here, in document order.

use vstd::prelude::*;

use crate::outline::{Outline, OutlineItemView, OutlineView};
use crate::parser::{spec_trim, str_eq, trim_str};

verus! {

/// Options of the HTML list reader: the key headers.
#[derive(Debug, Clone)]
pub struct HtmlListParserOptions {
    pub key_header: Vec<String>,
}

/// The HTML list reader, holding its options.
pub struct HtmlListParser {
    pub options: HtmlListParserOptions,
}

/// One step of a document walk: an element opens, a text node passes, an
/// element closes.
pub enum HtmlEvent {
    Open(String),
    Text(String),
    Close,
}

/// The walk's bookkeeping: the nesting depth in lists, and, per open
/// element, its tag, the text gathered so far, and the outline slot of its
/// item when the element is a list item.
pub struct HtmlParseState {
    pub level: u32,
    pub tags: Vec<String>,
    pub accs: Vec<String>,
    pub item_slots: Vec<Option<usize>>,
}

/// A list container tag.
pub open spec fn is_list_tag(tag: Seq<char>) -> bool {
    tag == "ul"@ || tag == "ol"@
}

/// A list item tag.
pub open spec fn is_item_tag(tag: Seq<char>) -> bool {
    tag == "li"@
}

/// The bookkeeping is consistent: one tag, one text and one slot per open
/// element, and every slot points below the outline's item count.
pub open spec fn html_state_ok(st: HtmlParseState, o: OutlineView) -> bool {
    &&& st.tags@.len() == st.accs@.len()
    &&& st.tags@.len() == st.item_slots@.len()
    &&& forall|i: int|
        0 <= i < st.item_slots@.len() ==> match #[trigger] st.item_slots@[i] {
            Some(idx) => idx < o.items.len(),
            None => true,
        }
}

impl HtmlListParser {
    /// Wraps the options.
    pub fn new(options: HtmlListParserOptions) -> (r: Self)
        ensures
            r.options == options,
    {
        HtmlListParser { options }
    }

    /// The bookkeeping before the first event.
    pub fn initial_state(&self) -> (r: HtmlParseState)
        ensures
            r.level == 0,
            r.tags@.len() == 0,
            r.accs@.len() == 0,
            r.item_slots@.len() == 0,
    {
        HtmlParseState { level: 0, tags: Vec::new(), accs: Vec::new(), item_slots: Vec::new() }
    }

    /// Feeds one event of the document walk.  An opening list tag deepens
    /// the level and an opening item tag reserves the next outline row; text
    /// is trimmed and gathered for the innermost open element; a closing tag
    /// writes the gathered text into its item's key (trimmed once more) and
    /// passes it, unless the element was a list, up to the enclosing
    /// element's text.
    pub fn handle_event(
        &self,
        outline: &mut Outline,
        state: &mut HtmlParseState,
        event: HtmlEvent,
    )
        requires
            html_state_ok(*old(state), old(outline)@),
            old(state).level < u32::MAX,
        ensures
            html_state_ok(*final(state), final(outline)@),
            final(outline)@.key_header == old(outline)@.key_header,
            final(outline)@.value_header == old(outline)@.value_header,
            match event {
                HtmlEvent::Open(tag) => {
                    &&& final(state).level == old(state).level + (if is_list_tag(tag@) {
                        1int
                    } else {
                        0int
                    })
                    &&& final(state).tags@ == old(state).tags@.push(tag)
                    &&& final(state).accs@.len() == old(state).accs@.len() + 1
                    &&& final(state).accs@.last()@ == Seq::<char>::empty()
                    &&& (forall|i: int|
                        0 <= i < old(state).accs@.len() ==> #[trigger] final(state).accs@[i] == old(
                        state).accs@[i])
                    &&& final(state).item_slots@ == old(state).item_slots@.push(
                        if is_item_tag(tag@) {
                            Some(old(outline)@.items.len() as usize)
                        } else {
                            None
                        },
                    )
                    &&& (if is_item_tag(tag@) {
                        final(outline)@.items == old(outline)@.items.push(
                            OutlineItemView {
                                key: Seq::empty(),
                                level: final(state).level,
                                values: Seq::empty(),
                            },
                        )
                    } else {
                        final(outline)@.items == old(outline)@.items
                    })
                },
                HtmlEvent::Text(text) => {
                    &&& *final(state) == (if old(state).accs@.len() > 0 {
                        HtmlParseState {
                            accs: final(state).accs,
                            ..*old(state)
                        }
                    } else {
                        *old(state)
                    })
                    &&& final(state).accs@.len() == old(state).accs@.len()
                    &&& (forall|i: int|
                        0 <= i < old(state).accs@.len() - 1 ==> #[trigger] final(state).accs@[i]
                            == old(state).accs@[i])
                    &&& (old(state).accs@.len() > 0 ==> final(state).accs@.last()@ == old(
                        state,
                    ).accs@.last()@ + spec_trim(text@))
                    &&& final(outline)@.items == old(outline)@.items
                },
                HtmlEvent::Close => {
                    if old(state).tags@.len() == 0 {
                        &&& *final(state) == *old(state)
                        &&& final(outline)@.items == old(outline)@.items
                    } else {
                        let tag = old(state).tags@.last()@;
                        let text = spec_trim(old(state).accs@.last()@);
                        &&& final(state).tags@ == old(state).tags@.drop_last()
                        &&& final(state).item_slots@ == old(state).item_slots@.drop_last()
                        &&& final(state).level == old(state).level - (if is_list_tag(tag)
                            && old(state).level > 0 {
                            1int
                        } else {
                            0int
                        })
                        &&& final(state).accs@.len() == old(state).accs@.len() - 1
                        &&& (forall|i: int|
                            0 <= i < old(state).accs@.len() - 2 ==> #[trigger] final(state).accs@[
                            i] == old(state).accs@[i])
                        &&& (final(state).accs@.len() > 0 ==> final(state).accs@.last()@ == (
                        if is_list_tag(tag) {
                            old(state).accs@[old(state).accs@.len() - 2]@
                        } else {
                            old(state).accs@[old(state).accs@.len() - 2]@ + text
                        }))
                        &&& final(outline)@.items.len() == old(outline)@.items.len()
                        &&& (forall|i: int|
                            0 <= i < old(outline)@.items.len() ==> #[trigger] final(outline)@.items[
                            i] == (match old(state).item_slots@.last() {
                                Some(idx) => if i == idx {
                                    OutlineItemView {
                                        key: text,
                                        ..old(outline)@.items[i]
                                    }
                                } else {
                                    old(outline)@.items[i]
                                },
                                None => old(outline)@.items[i],
                            }))
                    }
                },
            },
    {
        match event {
            HtmlEvent::Open(tag) => {
                let is_list = str_eq(tag.as_str(), "ul") || str_eq(tag.as_str(), "ol");
                let is_item = str_eq(tag.as_str(), "li");
                if is_list {
                    state.level = state.level + 1;
                }
                if is_item {
                    state.item_slots.push(Some(outline.item.len()));
                    let empty_vals: Vec<String> = Vec::new();
                    proof {
                        reveal_strlit("");
                        assert(""@ =~= Seq::<char>::empty());
                        assert(empty_vals.deep_view() =~= Seq::<Seq<char>>::empty());
                    }
                    outline.add_item("", state.level, empty_vals);
                } else {
                    state.item_slots.push(None);
                }
                state.tags.push(tag);
                state.accs.push(String::new());
            },
            HtmlEvent::Text(text) => {
                if state.accs.len() > 0 {
                    let t = trim_str(text.as_str()).to_owned();
                    let last = state.accs.len() - 1;
                    state.accs[last].append(t.as_str());
                    proof {
                        assert(*final(state) == (HtmlParseState {
                            accs: final(state).accs,
                            ..*old(state)
                        }));
                    }
                }
            },
            HtmlEvent::Close => {
                if state.tags.len() == 0 {
                    return ;
                }
                let tag = match state.tags.pop() {
                    Some(t) => t,
                    None => {
                        proof {
                            assert(false);
                        }
                        String::new()
                    },
                };
                let acc = match state.accs.pop() {
                    Some(a) => a,
                    None => {
                        proof {
                            assert(false);
                        }
                        String::new()
                    },
                };
                let slot = match state.item_slots.pop() {
                    Some(s) => s,
                    None => {
                        proof {
                            assert(false);
                        }
                        None
                    },
                };
                let is_list = str_eq(tag.as_str(), "ul") || str_eq(tag.as_str(), "ol");
                if is_list && state.level > 0 {
                    state.level = state.level - 1;
                }
                let text = trim_str(acc.as_str()).to_owned();
                match slot {
                    Some(idx) => {
                        if idx < outline.item.len() {
                            let ghost pre = outline@;
                            outline.item[idx].key = text.clone();
                            proof {
                                assert forall|i: int|
                                    0 <= i < final(outline)@.items.len() implies #[trigger] final(outline)@.items[
                                i] == (if i == idx {
                                    OutlineItemView { key: text@, ..pre.items[i] }
                                } else {
                                    pre.items[i]
                                }) by {
                                    if i != idx {
                                        assert(outline.item@[i] == old(outline).item@[i]);
                                    }
                                    assert(final(outline)@.items[i] == outline.item@[i]@);
                                }
                                assert(final(outline)@.key_header =~= pre.key_header);
                                assert(final(outline)@.value_header =~= pre.value_header);
                            }
                        } else {
                            proof {
                                assert(false);
                            }
                        }
                    },
                    None => {},
                }
                if !is_list && state.accs.len() > 0 {
                    let last = state.accs.len() - 1;
                    state.accs[last].append(text.as_str());
                }
            },
        }
    }
}

} // verus!
