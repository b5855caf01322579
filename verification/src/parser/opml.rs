//! The outline-markup reader: its options and the rule that turns one
//! element's attributes into an outline item.  Walking the XML itself is the
//! caller's job; it hands each element's attributes and nesting level here.

use vstd::prelude::*;

use crate::outline::{Outline, OutlineItemView};
use crate::parser::{first_lookup, first_pos, lookup_pair, pairs_view, spec_trim, str_eq, trim_str};

verus! {

/// One step of an outline-markup walk: an element starts with its
/// attributes, stands alone with its attributes, or ends; anything else is
/// noise here.
pub enum OpmlEvent {
    Start(String, Vec<(String, String)>),
    Empty(String, Vec<(String, String)>),
    End(String),
    Other,
}

/// Options of the outline-markup reader: optional comma-separated key and
/// value headers.
#[derive(Debug, Clone)]
pub struct OpmlParserOptions {
    pub key_header: Option<String>,
    pub value_header: Option<String>,
}

/// The outline-markup reader, holding its options.
pub struct OpmlParser {
    pub options: OpmlParserOptions,
}

/// The outline item one element yields: its trimmed text attribute as key,
/// and, for each value-header column naming another attribute, that
/// attribute's value; repeated header names fill only their first column.
pub open spec fn opml_item(
    vh: Seq<Seq<char>>,
    pairs: Seq<(Seq<char>, Seq<char>)>,
    level: u32,
) -> OutlineItemView {
    OutlineItemView {
        key: match first_lookup(pairs, "text"@) {
            Some(v) => spec_trim(v),
            None => Seq::empty(),
        },
        level,
        values: Seq::new(
            vh.len(),
            |idx: int|
                if first_pos(vh, vh[idx], 0) == idx && vh[idx] != "text"@ {
                    match first_lookup(pairs, vh[idx]) {
                        Some(v) => v,
                        None => Seq::empty(),
                    }
                } else {
                    Seq::empty()
                },
        ),
    }
}

/// `first_pos` lands exactly on the first equal entry.
proof fn lemma_first_pos_from(h: Seq<Seq<char>>, x: Seq<char>, j: int, idx: int)
    requires
        0 <= j <= idx < h.len(),
        h[idx] == x,
        forall|k: int| j <= k < idx ==> h[k] != x,
    ensures
        first_pos(h, x, j) == idx,
    decreases idx - j,
{
    if j < idx {
        lemma_first_pos_from(h, x, j + 1, idx);
    }
}

/// `first_pos` never passes an equal entry.
proof fn lemma_first_pos_le(h: Seq<Seq<char>>, x: Seq<char>, j: int, k: int)
    requires
        0 <= j <= k < h.len(),
        h[k] == x,
    ensures
        first_pos(h, x, j) <= k,
    decreases k - j,
{
    if j < k && h[j] != x {
        lemma_first_pos_le(h, x, j + 1, k);
    }
}

impl OpmlParser {
    /// Wraps the options.
    pub fn new(options: OpmlParserOptions) -> (r: Self)
        ensures
            r.options == options,
    {
        OpmlParser { options }
    }

    /// Feeds one event of the markup walk, tracking the nesting depth in
    /// `level`: a starting outline element deepens the level and yields its
    /// item there; a childless outline element yields its item one level
    /// deeper without moving; an ending outline element climbs back up.
    pub fn handle_event(&self, outline: &mut Outline, level: &mut u32, event: OpmlEvent)
        requires
            match event {
                OpmlEvent::Start(tag, _) => tag@ == "outline"@ ==> *old(level) < u32::MAX,
                OpmlEvent::Empty(tag, _) => tag@ == "outline"@ ==> *old(level) < u32::MAX,
                OpmlEvent::End(tag) => tag@ == "outline"@ ==> *old(level) >= 1,
                OpmlEvent::Other => true,
            },
        ensures
            final(outline)@.key_header == old(outline)@.key_header,
            final(outline)@.value_header == old(outline)@.value_header,
            match event {
                OpmlEvent::Start(tag, attrs) => if tag@ == "outline"@ {
                    &&& *final(level) == *old(level) + 1
                    &&& final(outline)@.items == old(outline)@.items.push(
                        opml_item(
                            old(outline)@.value_header,
                            pairs_view(attrs@),
                            (*old(level) + 1) as u32,
                        ),
                    )
                } else {
                    *final(level) == *old(level) && final(outline)@.items == old(outline)@.items
                },
                OpmlEvent::Empty(tag, attrs) => if tag@ == "outline"@ {
                    &&& *final(level) == *old(level)
                    &&& final(outline)@.items == old(outline)@.items.push(
                        opml_item(
                            old(outline)@.value_header,
                            pairs_view(attrs@),
                            (*old(level) + 1) as u32,
                        ),
                    )
                } else {
                    *final(level) == *old(level) && final(outline)@.items == old(outline)@.items
                },
                OpmlEvent::End(tag) => if tag@ == "outline"@ {
                    *final(level) == *old(level) - 1 && final(outline)@.items == old(
                        outline,
                    )@.items
                } else {
                    *final(level) == *old(level) && final(outline)@.items == old(outline)@.items
                },
                OpmlEvent::Other => *final(level) == *old(level) && final(outline)@.items == old(
                    outline,
                )@.items,
            },
    {
        match event {
            OpmlEvent::Start(tag, attrs) => {
                if str_eq(tag.as_str(), "outline") {
                    *level = *level + 1;
                    self.generate_outline_item(outline, &attrs, *level);
                }
            },
            OpmlEvent::Empty(tag, attrs) => {
                if str_eq(tag.as_str(), "outline") {
                    self.generate_outline_item(outline, &attrs, *level + 1);
                }
            },
            OpmlEvent::End(tag) => {
                if str_eq(tag.as_str(), "outline") {
                    *level = *level - 1;
                }
            },
            OpmlEvent::Other => {},
        }
    }

    /// Appends the outline item of one element, built from its attributes
    /// and nesting level.
    pub fn generate_outline_item(
        &self,
        outline: &mut Outline,
        attributes: &Vec<(String, String)>,
        level: u32,
    )
        ensures
            final(outline)@.key_header == old(outline)@.key_header,
            final(outline)@.value_header == old(outline)@.value_header,
            final(outline)@.items == old(outline)@.items.push(
                opml_item(old(outline)@.value_header, pairs_view(attributes@), level),
            ),
    {
        let ghost vh = outline@.value_header;
        let ghost pairs = pairs_view(attributes@);
        let text: String = match lookup_pair(attributes, "text") {
            Some(v) => trim_str(v.as_str()).to_owned(),
            None => String::new(),
        };
        let mut item_values: Vec<String> = Vec::new();
        let mut idx: usize = 0;
        while idx < outline.value_header.len()
            invariant
                vh == outline@.value_header,
                pairs == pairs_view(attributes@),
                idx <= vh.len(),
                item_values@.len() == idx,
                forall|k: int|
                    0 <= k < idx ==> (#[trigger] item_values@[k])@ == opml_item(
                        vh,
                        pairs,
                        level,
                    ).values[k],
            decreases vh.len() - idx,
        {
            let h = &outline.value_header[idx];
            let mut dup = false;
            let mut k: usize = 0;
            while k < idx
                invariant
                    vh == outline@.value_header,
                    k <= idx,
                    idx < vh.len(),
                    h == outline.value_header@[idx as int],
                    dup == exists|z: int| 0 <= z < k && vh[z] == vh[idx as int],
                decreases idx - k,
            {
                proof {
                    assert(vh[k as int] == outline.value_header@[k as int]@);
                    assert(vh[idx as int] == outline.value_header@[idx as int]@);
                }
                let e = str_eq(outline.value_header[k].as_str(), h.as_str());
                proof {
                    if e {
                        assert(vh[k as int] == vh[idx as int]);
                    } else {
                        assert(vh[k as int] != vh[idx as int]);
                        if !dup {
                            assert forall|z: int| 0 <= z < k + 1 implies vh[z] != vh[idx as int] by {
                                if z < k {
                                    assert(!(0 <= z < k && vh[z] == vh[idx as int]));
                                }
                            }
                        }
                    }
                }
                if e {
                    dup = true;
                }
                k = k + 1;
            }
            proof {
                if dup {
                    let z = choose|z: int| 0 <= z < idx && vh[z] == vh[idx as int];
                    lemma_first_pos_le(vh, vh[idx as int], 0, z);
                } else {
                    lemma_first_pos_from(vh, vh[idx as int], 0, idx as int);
                }
            }
            let entry: String = if !dup && !str_eq(h.as_str(), "text") {
                match lookup_pair(attributes, h.as_str()) {
                    Some(v) => v,
                    None => String::new(),
                }
            } else {
                String::new()
            };
            proof {
                assert(entry@ == opml_item(vh, pairs, level).values[idx as int]);
            }
            item_values.push(entry);
            idx = idx + 1;
        }
        let ghost expect = opml_item(vh, pairs, level);
        proof {
            assert(item_values.deep_view() =~= expect.values);
            assert(text@ == expect.key);
        }
        outline.add_item(text.as_str(), level, item_values);
        proof {
            assert(OutlineItemView { key: text@, level, values: expect.values } =~= expect);
            assert(final(outline)@.items =~= old(outline)@.items.push(expect));
        }
    }
}

} // verus!
