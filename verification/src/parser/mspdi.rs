//! The project-data reader: its options and the rule that turns one task's
//! collected tag texts into an outline item.  Walking the XML itself is the
//! caller's job; it hands each task's tag/text pairs here.

use vstd::prelude::*;

use crate::outline::{Outline, OutlineItemView};
use crate::parser::{
    accumulate_pair, first_lookup, first_pos, lookup_pair, pairs_view, parse_u32_str,
    spec_accumulate, spec_parse_u32, str_eq,
};

verus! {

/// One step of an XML walk: an element starts, text passes, an element ends;
/// anything else is noise here.
pub enum XmlEvent {
    Start(String),
    Text(String),
    End(String),
    Other,
}

/// The walk's bookkeeping: the open tags, innermost last, and the tag/text
/// pairs gathered for the task being read.
pub struct MspdiParseState {
    pub breadcrumb: Vec<String>,
    pub task_values: Vec<(String, String)>,
}

/// Some open tag is the task tag.
pub open spec fn inside_task(breadcrumb: Seq<Seq<char>>) -> bool {
    exists|i: int| 0 <= i < breadcrumb.len() && #[trigger] breadcrumb[i] == "Task"@
}

/// Options of the project-data reader: the key and value headers.
#[derive(Debug, Clone)]
pub struct MspdiParserOptions {
    pub key_header: Vec<String>,
    pub value_header: Vec<String>,
}

/// The project-data reader, holding its options.
pub struct MspdiParser {
    pub options: MspdiParserOptions,
}

/// The outline item one task yields: the task name as key, its outline level
/// as the level (1 when absent or unreadable), and, for each value-header
/// column that names a tag other than the name and level tags, that tag's
/// text; repeated header names fill only their first column.
pub open spec fn mspdi_item(
    vh: Seq<Seq<char>>,
    pairs: Seq<(Seq<char>, Seq<char>)>,
) -> OutlineItemView {
    OutlineItemView {
        key: match first_lookup(pairs, "Name"@) {
            Some(v) => v,
            None => Seq::empty(),
        },
        level: match first_lookup(pairs, "OutlineLevel"@) {
            Some(v) => match spec_parse_u32(v) {
                Some(x) => x,
                None => 1u32,
            },
            None => 1u32,
        },
        values: Seq::new(
            vh.len(),
            |idx: int|
                if first_pos(vh, vh[idx], 0) == idx && vh[idx] != "Name"@ && vh[idx]
                    != "OutlineLevel"@ {
                    match first_lookup(pairs, vh[idx]) {
                        Some(v) => v,
                        None => Seq::empty(),
                    }
                } else {
                    Seq::empty()
                },
        ),
    }
}

/// `first_pos` lands exactly on the first equal entry.
proof fn lemma_first_pos_from(h: Seq<Seq<char>>, x: Seq<char>, j: int, idx: int)
    requires
        0 <= j <= idx < h.len(),
        h[idx] == x,
        forall|k: int| j <= k < idx ==> h[k] != x,
    ensures
        first_pos(h, x, j) == idx,
    decreases idx - j,
{
    if j < idx {
        lemma_first_pos_from(h, x, j + 1, idx);
    }
}

/// `first_pos` never passes an equal entry.
proof fn lemma_first_pos_le(h: Seq<Seq<char>>, x: Seq<char>, j: int, k: int)
    requires
        0 <= j <= k < h.len(),
        h[k] == x,
    ensures
        first_pos(h, x, j) <= k,
    decreases k - j,
{
    if j < k && h[j] != x {
        lemma_first_pos_le(h, x, j + 1, k);
    }
}

impl MspdiParser {
    /// Wraps the options.
    pub fn new(options: MspdiParserOptions) -> (r: Self)
        ensures
            r.options == options,
    {
        MspdiParser { options }
    }

    /// The bookkeeping before the first event.
    pub fn initial_state(&self) -> (r: MspdiParseState)
        ensures
            r.breadcrumb@.len() == 0,
            r.task_values@.len() == 0,
    {
        MspdiParseState { breadcrumb: Vec::new(), task_values: Vec::new() }
    }

    /// Feeds one event of the XML walk.  A starting tag opens on the
    /// breadcrumb (a starting task tag clears the gathered pairs); text
    /// inside a task accumulates under the innermost open tag; an ending tag
    /// closes, and an ending task tag appends the task's outline item.
    pub fn handle_event(
        &self,
        outline: &mut Outline,
        state: &mut MspdiParseState,
        event: XmlEvent,
    )
        ensures
            final(outline)@.key_header == old(outline)@.key_header,
            final(outline)@.value_header == old(outline)@.value_header,
            match event {
                XmlEvent::Start(tag) => {
                    &&& final(state).breadcrumb@ == old(state).breadcrumb@.push(tag)
                    &&& (if tag@ == "Task"@ {
                        final(state).task_values@.len() == 0
                    } else {
                        final(state).task_values@ == old(state).task_values@
                    })
                    &&& final(outline)@.items == old(outline)@.items
                },
                XmlEvent::Text(text) => {
                    &&& final(state).breadcrumb@ == old(state).breadcrumb@
                    &&& (if inside_task(old(state).breadcrumb.deep_view()) && old(
                        state,
                    ).breadcrumb@.len() > 0 {
                        pairs_view(final(state).task_values@) == spec_accumulate(
                            pairs_view(old(state).task_values@),
                            old(state).breadcrumb@.last()@,
                            text@,
                        )
                    } else {
                        final(state).task_values@ == old(state).task_values@
                    })
                    &&& final(outline)@.items == old(outline)@.items
                },
                XmlEvent::End(tag) => {
                    &&& final(state).breadcrumb@ == (if old(state).breadcrumb@.len() > 0 {
                        old(state).breadcrumb@.drop_last()
                    } else {
                        old(state).breadcrumb@
                    })
                    &&& final(state).task_values@ == old(state).task_values@
                    &&& (if tag@ == "Task"@ {
                        final(outline)@.items == old(outline)@.items.push(
                            mspdi_item(
                                old(outline)@.value_header,
                                pairs_view(old(state).task_values@),
                            ),
                        )
                    } else {
                        final(outline)@.items == old(outline)@.items
                    })
                },
                XmlEvent::Other => {
                    &&& *final(state) == *old(state)
                    &&& final(outline)@.items == old(outline)@.items
                },
            },
    {
        match event {
            XmlEvent::Start(tag) => {
                let is_task = str_eq(tag.as_str(), "Task");
                state.breadcrumb.push(tag);
                if is_task {
                    state.task_values.clear();
                }
            },
            XmlEvent::Text(text) => {
                let mut found = false;
                let mut i: usize = 0;
                while i < state.breadcrumb.len()
                    invariant
                        state == old(state),
                        i <= state.breadcrumb@.len(),
                        found == exists|k: int|
                            0 <= k < i && #[trigger] state.breadcrumb.deep_view()[k] == "Task"@,
                    decreases state.breadcrumb@.len() - i,
                {
                    proof {
                        assert(state.breadcrumb.deep_view()[i as int]
                            == state.breadcrumb@[i as int]@);
                    }
                    if str_eq(state.breadcrumb[i].as_str(), "Task") {
                        found = true;
                    }
                    i = i + 1;
                }
                if found && state.breadcrumb.len() > 0 {
                    let last = state.breadcrumb.len() - 1;
                    let tag = state.breadcrumb[last].clone();
                    accumulate_pair(&mut state.task_values, tag.as_str(), text.as_str());
                }
            },
            XmlEvent::End(tag) => {
                let is_task = str_eq(tag.as_str(), "Task");
                if state.breadcrumb.len() > 0 {
                    state.breadcrumb.pop();
                }
                if is_task {
                    let ghost pre = outline@;
                    self.generate_outline_item(outline, &state.task_values);
                }
            },
            XmlEvent::Other => {},
        }
    }

    /// Appends the outline item of one task, built from the task's collected
    /// tag/text pairs.
    pub fn generate_outline_item(
        &self,
        outline: &mut Outline,
        values: &Vec<(String, String)>,
    )
        ensures
            final(outline)@.key_header == old(outline)@.key_header,
            final(outline)@.value_header == old(outline)@.value_header,
            final(outline)@.items == old(outline)@.items.push(
                mspdi_item(old(outline)@.value_header, pairs_view(values@)),
            ),
    {
        let ghost vh = outline@.value_header;
        let ghost pairs = pairs_view(values@);
        let text: String = match lookup_pair(values, "Name") {
            Some(v) => v,
            None => String::new(),
        };
        let level: u32 = match lookup_pair(values, "OutlineLevel") {
            Some(v) => match parse_u32_str(v.as_str()) {
                Some(x) => x,
                None => 1,
            },
            None => 1,
        };
        let mut item_values: Vec<String> = Vec::new();
        let mut idx: usize = 0;
        while idx < outline.value_header.len()
            invariant
                vh == outline@.value_header,
                pairs == pairs_view(values@),
                idx <= vh.len(),
                item_values@.len() == idx,
                forall|k: int|
                    0 <= k < idx ==> (#[trigger] item_values@[k])@ == mspdi_item(
                        vh,
                        pairs,
                    ).values[k],
            decreases vh.len() - idx,
        {
            let h = &outline.value_header[idx];
            let mut dup = false;
            let mut k: usize = 0;
            while k < idx
                invariant
                    vh == outline@.value_header,
                    k <= idx,
                    idx < vh.len(),
                    h == outline.value_header@[idx as int],
                    dup == exists|z: int| 0 <= z < k && vh[z] == vh[idx as int],
                decreases idx - k,
            {
                proof {
                    assert(vh[k as int] == outline.value_header@[k as int]@);
                    assert(vh[idx as int] == outline.value_header@[idx as int]@);
                }
                let e = str_eq(outline.value_header[k].as_str(), h.as_str());
                proof {
                    if e {
                        assert(vh[k as int] == vh[idx as int]);
                    } else {
                        assert(vh[k as int] != vh[idx as int]);
                        if !dup {
                            assert forall|z: int| 0 <= z < k + 1 implies vh[z] != vh[idx as int] by {
                                if z < k {
                                    assert(!(0 <= z < k && vh[z] == vh[idx as int]));
                                }
                            }
                        }
                    }
                }
                if e {
                    dup = true;
                }
                k = k + 1;
            }
            proof {
                if dup {
                    let z = choose|z: int| 0 <= z < idx && vh[z] == vh[idx as int];
                    lemma_first_pos_le(vh, vh[idx as int], 0, z);
                } else {
                    lemma_first_pos_from(vh, vh[idx as int], 0, idx as int);
                }
            }
            let entry: String = if !dup && !str_eq(h.as_str(), "Name") && !str_eq(
                h.as_str(),
                "OutlineLevel",
            ) {
                match lookup_pair(values, h.as_str()) {
                    Some(v) => v,
                    None => String::new(),
                }
            } else {
                String::new()
            };
            proof {
                assert(entry@ == mspdi_item(vh, pairs).values[idx as int]);
            }
            item_values.push(entry);
            idx = idx + 1;
        }
        let ghost expect = mspdi_item(vh, pairs);
        proof {
            assert(item_values.deep_view() =~= expect.values);
            assert(text@ == expect.key);
            assert(level == expect.level);
        }
        outline.add_item(text.as_str(), level, item_values);
        proof {
            assert(OutlineItemView { key: text@, level, values: expect.values } =~= expect);
            assert(final(outline)@.items =~= old(outline)@.items.push(expect));
        }
    }
}

} // verus!
