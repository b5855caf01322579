//! Input parsers: option records and the text-shaping logic of the readers.

use vstd::prelude::*;

pub mod dir_tree;
pub mod html_list;
pub mod mspdi;
pub mod opml;
pub mod simple_text;

verus! {

/// The per-format option records, one variant per parser.
pub enum ParserOptions {
    SimpleText(simple_text::SimpleTextParserOptions),
    DirTree(dir_tree::DirTreeParserOptions),
    HtmlList(html_list::HtmlListParserOptions),
    Mspdi(mspdi::MspdiParserOptions),
    Opml(opml::OpmlParserOptions),
}

/// Whitespace in the sense of the text readers' trimming; what
/// `char::is_whitespace` answers.
pub uninterp spec fn char_is_space(c: char) -> bool;

/// Relies on char::is_whitespace: the Unicode White_Space property, a fixed
/// function of the character alone.
#[verifier::external_body]
pub(crate) fn is_space_char(c: char) -> (r: bool)
    ensures
        r == char_is_space(c),
{
    c.is_whitespace()
}

/// The first index at or after `i` that holds a non-space character.
pub open spec fn trim_start_idx(s: Seq<char>, i: int) -> int
    decreases s.len() - i,
{
    if i < 0 || i >= s.len() {
        if i < 0 {
            0
        } else {
            s.len() as int
        }
    } else if char_is_space(s[i]) {
        trim_start_idx(s, i + 1)
    } else {
        i
    }
}

/// The index just after the last non-space character before `j`.
pub open spec fn trim_end_idx(s: Seq<char>, j: int) -> int
    decreases j,
{
    if j <= 0 || j > s.len() {
        if j > s.len() {
            s.len() as int
        } else {
            0
        }
    } else if char_is_space(s[j - 1]) {
        trim_end_idx(s, j - 1)
    } else {
        j
    }
}

/// What `str::trim` leaves: the text with leading and trailing whitespace
/// removed.
pub open spec fn spec_trim(s: Seq<char>) -> Seq<char> {
    let a = trim_start_idx(s, 0);
    let b = trim_end_idx(s, s.len() as int);
    if a <= b {
        s.subrange(a, b)
    } else {
        Seq::empty()
    }
}

/// Trims whitespace from both ends.
pub fn trim_str(s: &str) -> (r: &str)
    ensures
        r@ == spec_trim(s@),
{
    let len = s.unicode_len();
    let mut a: usize = 0;
    while a < len && is_space_char(s.get_char(a))
        invariant
            len == s@.len(),
            a <= len,
            trim_start_idx(s@, 0) == trim_start_idx(s@, a as int),
        decreases len - a,
    {
        a = a + 1;
    }
    proof {
        assert(a == trim_start_idx(s@, 0));
    }
    let mut b: usize = len;
    while b > a && is_space_char(s.get_char(b - 1))
        invariant
            len == s@.len(),
            a <= b <= len,
            a == trim_start_idx(s@, 0),
            trim_end_idx(s@, len as int) == trim_end_idx(s@, b as int),
        decreases b,
    {
        b = b - 1;
    }
    let r = s.substring_char(a, b);
    proof {
        let a0 = trim_start_idx(s@, 0);
        let b0 = trim_end_idx(s@, s@.len() as int);
        lemma_trim_bounds(s@);
        if b > a {
            assert(b0 == b);
            assert(r@ =~= spec_trim(s@));
        } else {
            lemma_trim_end_range(s@, a as int);
            assert(b0 <= a0);
            if a0 == b0 {
                assert(r@ =~= spec_trim(s@));
            } else {
                assert(r@ =~= spec_trim(s@));
            }
        }
    }
    r
}

/// The trim indices stay in range and in order when they cross.
proof fn lemma_trim_bounds(s: Seq<char>)
    ensures
        0 <= trim_start_idx(s, 0) <= s.len(),
        0 <= trim_end_idx(s, s.len() as int) <= s.len(),
{
    lemma_trim_start_range(s, 0);
    lemma_trim_end_range(s, s.len() as int);
}

proof fn lemma_trim_start_range(s: Seq<char>, i: int)
    requires
        0 <= i <= s.len(),
    ensures
        i <= trim_start_idx(s, i) <= s.len(),
    decreases s.len() - i,
{
    if i < s.len() && char_is_space(s[i]) {
        lemma_trim_start_range(s, i + 1);
    }
}

proof fn lemma_trim_end_range(s: Seq<char>, j: int)
    requires
        0 <= j <= s.len(),
    ensures
        0 <= trim_end_idx(s, j) <= j,
    decreases j,
{
    if j > 0 && char_is_space(s[j - 1]) {
        lemma_trim_end_range(s, j - 1);
    }
}

/// The pieces of `s` between the non-overlapping, leftmost occurrences of
/// the non-empty separator `d`, scanning from `i` with the current piece
/// open since `start`.
pub open spec fn split_lit_rec(s: Seq<char>, d: Seq<char>, i: int, start: int) -> Seq<Seq<char>>
    decreases s.len() - i,
{
    if i < 0 || start < 0 || start > i || d.len() == 0 || i + d.len() > s.len() {
        seq![s.subrange(if 0 <= start <= s.len() {
            start
        } else {
            0
        }, s.len() as int)]
    } else if s.subrange(i, i + d.len() as int) == d && d.len() > 0 {
        seq![s.subrange(start, i)] + split_lit_rec(s, d, i + d.len(), i + d.len())
    } else {
        split_lit_rec(s, d, i + 1, start)
    }
}

/// The pieces of `s` around every occurrence of `d`: for an empty separator,
/// an empty piece, each character on its own, and an empty piece again, as a
/// match at every boundary leaves them.
pub open spec fn spec_split(s: Seq<char>, d: Seq<char>) -> Seq<Seq<char>> {
    if d.len() == 0 {
        seq![Seq::<char>::empty()] + Seq::new(s.len(), |i: int| seq![s[i]]) + seq![
            Seq::<char>::empty(),
        ]
    } else {
        split_lit_rec(s, d, 0, 0)
    }
}

/// Splits `s` on every occurrence of the literal separator `d`.
pub fn split_string(s: &str, d: &str) -> (r: Vec<String>)
    ensures
        r.deep_view() == spec_split(s@, d@),
{
    let slen = s.unicode_len();
    let dlen = d.unicode_len();
    let mut r: Vec<String> = Vec::new();
    if dlen == 0 {
        r.push(String::new());
        let mut i: usize = 0;
        while i < slen
            invariant
                slen == s@.len(),
                i <= slen,
                r.deep_view() =~= seq![Seq::<char>::empty()] + Seq::new(
                    i as nat,
                    |k: int| seq![s@[k]],
                ),
            decreases slen - i,
        {
            let ghost pre = r.deep_view();
            let piece = s.substring_char(i, i + 1);
            proof {
                assert(piece@ =~= seq![s@[i as int]]);
            }
            r.push(piece.to_owned());
            proof {
                assert(r.deep_view() =~= pre.push(seq![s@[i as int]]));
                assert(r.deep_view() =~= seq![Seq::<char>::empty()] + Seq::new(
                    (i + 1) as nat,
                    |k: int| seq![s@[k]],
                ));
            }
            i = i + 1;
        }
        r.push(String::new());
        proof {
            assert(r.deep_view() =~= spec_split(s@, d@));
        }
        return r;
    }
    let mut i: usize = 0;
    let mut start: usize = 0;
    if dlen <= slen {
        while i <= slen - dlen
            invariant
                slen == s@.len(),
                dlen == d@.len(),
                0 < dlen <= slen,
                start <= i <= slen,
                spec_split(s@, d@) == r.deep_view() + split_lit_rec(s@, d@, i as int, start as int),
            decreases slen - i,
        {
            let cand = s.substring_char(i, i + dlen);
            let hit = str_eq(cand, d);
            if hit {
                let piece = s.substring_char(start, i);
                let ghost pre = r.deep_view();
                r.push(piece.to_owned());
                proof {
                    assert(r.deep_view() =~= pre + seq![s@.subrange(start as int, i as int)]);
                    assert(pre + (seq![s@.subrange(start as int, i as int)] + split_lit_rec(
                        s@,
                        d@,
                        i as int + dlen as int,
                        i as int + dlen as int,
                    )) =~= r.deep_view() + split_lit_rec(
                        s@,
                        d@,
                        i as int + dlen as int,
                        i as int + dlen as int,
                    ));
                }
                i = i + dlen;
                start = i;
            } else {
                i = i + 1;
            }
        }
    }
    let piece = s.substring_char(start, slen);
    let ghost pre = r.deep_view();
    r.push(piece.to_owned());
    proof {
        assert(r.deep_view() =~= pre + seq![s@.subrange(start as int, slen as int)]);
        assert(split_lit_rec(s@, d@, i as int, start as int) =~= seq![
            s@.subrange(start as int, slen as int),
        ]);
        assert(r.deep_view() =~= spec_split(s@, d@));
    }
    r
}

/// Character-wise string equality.
pub fn str_eq(a: &str, b: &str) -> (r: bool)
    ensures
        r == (a@ == b@),
{
    let alen = a.unicode_len();
    let blen = b.unicode_len();
    if alen != blen {
        proof {
            assert(a@ != b@);
        }
        return false;
    }
    let mut i: usize = 0;
    while i < alen
        invariant
            alen == a@.len(),
            alen == b@.len(),
            i <= alen,
            forall|k: int| 0 <= k < i ==> a@[k] == b@[k],
        decreases alen - i,
    {
        if a.get_char(i) != b.get_char(i) {
            proof {
                assert(a@[i as int] != b@[i as int]);
            }
            return false;
        }
        i = i + 1;
    }
    proof {
        assert(a@ =~= b@);
    }
    true
}

/// An ASCII decimal digit.
pub open spec fn is_dec_digit(c: char) -> bool {
    '0' <= c && c <= '9'
}

/// The numeric value of the digit string `s`, most significant first.
pub open spec fn dec_value(s: Seq<char>) -> int
    decreases s.len(),
{
    if s.len() == 0 {
        0
    } else {
        dec_value(s.drop_last()) * 10 + (s.last() as int - '0' as int)
    }
}

/// What a plain digit string yields: its value when it is one or more
/// decimal digits and the value fits; nothing otherwise.
pub open spec fn parse_u32_digits(t: Seq<char>) -> Option<u32> {
    if t.len() == 0 || (exists|i: int| 0 <= i < t.len() && !is_dec_digit(#[trigger] t[i]))
        || dec_value(t) > u32::MAX {
        None
    } else {
        Some(dec_value(t) as u32)
    }
}

/// What parsing a `u32` from text yields: an optional leading plus sign,
/// then one or more decimal digits whose value fits; anything else fails.
pub open spec fn spec_parse_u32(s: Seq<char>) -> Option<u32> {
    parse_u32_digits(
        if s.len() > 0 && s[0] == '+' {
            s.drop_first()
        } else {
            s
        },
    )
}

/// Parses a `u32` from decimal text, as the numeric attributes are read.
pub fn parse_u32_str(s: &str) -> (r: Option<u32>)
    ensures
        r == spec_parse_u32(s@),
{
    let len = s.unicode_len();
    let start: usize = if len > 0 && s.get_char(0) == '+' {
        1
    } else {
        0
    };
    let ghost t = if s@.len() > 0 && s@[0] == '+' {
        s@.drop_first()
    } else {
        s@
    };
    proof {
        assert(t =~= s@.subrange(start as int, len as int));
    }
    if start == len {
        proof {
            assert(t.len() == 0);
            assert(parse_u32_digits(t) is None);
        }
        return None;
    }
    let mut v: u64 = 0;
    let mut i: usize = start;
    while i < len
        invariant
            len == s@.len(),
            t == s@.subrange(start as int, len as int),
            start as int == (if s@.len() > 0 && s@[0] == '+' {
                1int
            } else {
                0int
            }),
            t == (if s@.len() > 0 && s@[0] == '+' {
                s@.drop_first()
            } else {
                s@
            }),
            start <= i <= len,
            start < len,
            forall|k: int| 0 <= k < i - start ==> is_dec_digit(#[trigger] t[k]),
            v == dec_value(t.subrange(0, i - start)),
            v <= u32::MAX,
        decreases len - i,
    {
        let c = s.get_char(i);
        proof {
            assert(t[i - start] == s@[i as int]);
        }
        if !(c >= '0' && c <= '9') {
            proof {
                assert(!is_dec_digit(t[i - start]));
                let ghost tt = if s@.len() > 0 && s@[0] == '+' {
                    s@.drop_first()
                } else {
                    s@
                };
                assert(tt == t);
                assert(!is_dec_digit(tt[i - start]));
                assert(parse_u32_digits(tt) is None);
                assert(spec_parse_u32(s@) is None);
            }
            return None;
        }
        let d = (c as u32) as u64 - ('0' as u32) as u64;
        proof {
            assert(t.subrange(0, i as int - start + 1).drop_last() =~= t.subrange(
                0,
                i as int - start,
            ));
            assert(t.subrange(0, i as int - start + 1).last() == t[i as int - start]);
        }
        v = v * 10 + d;
        if v > u32::MAX as u64 {
            proof {
                let ghost tt = if s@.len() > 0 && s@[0] == '+' {
                    s@.drop_first()
                } else {
                    s@
                };
                assert(tt == t);
                let j = i as int - start + 1;
                assert(dec_value(t.subrange(0, j)) > u32::MAX);
                if exists|z: int| 0 <= z < t.len() && !is_dec_digit(#[trigger] t[z]) {
                    let z = choose|z: int| 0 <= z < t.len() && !is_dec_digit(#[trigger] t[z]);
                    assert(!is_dec_digit(tt[z]));
                } else {
                    assert(forall|z: int| 0 <= z < t.len() ==> is_dec_digit(#[trigger] t[z]));
                    lemma_dec_value_mono(t, t.len() as int);
                    assert(t.subrange(0, t.len() as int) =~= t);
                    assert(dec_value(t.subrange(0, j)) <= dec_value(t));
                    assert(dec_value(tt) > u32::MAX);
                }
                assert(parse_u32_digits(tt) is None);
                assert(spec_parse_u32(s@) is None);
            }
            return None;
        }
        i = i + 1;
    }
    proof {
        assert(t.subrange(0, (len - start) as int) =~= t);
        assert(forall|z: int| 0 <= z < t.len() ==> is_dec_digit(#[trigger] t[z]));
        assert(parse_u32_digits(t) == Some(dec_value(t) as u32));
    }
    Some(v as u32)
}

/// A digit string's value only grows along its prefixes.
proof fn lemma_dec_value_mono(t: Seq<char>, j: int)
    requires
        0 <= j <= t.len(),
        forall|k: int| 0 <= k < j ==> is_dec_digit(#[trigger] t[k]),
    ensures
        forall|m: int|
            0 <= m <= j ==> dec_value(t.subrange(0, m)) <= dec_value(#[trigger] t.subrange(0, j)),
    decreases j,
{
    if j > 0 {
        lemma_dec_value_mono(t, j - 1);
        assert(t.subrange(0, j).drop_last() =~= t.subrange(0, j - 1));
        assert(is_dec_digit(t[j - 1]));
        assert(t.subrange(0, j).last() == t[j - 1]);
        assert(dec_value(t.subrange(0, j - 1)) >= 0) by {
            lemma_dec_value_nonneg(t, j - 1);
        }
        assert forall|m: int| 0 <= m <= j implies dec_value(t.subrange(0, m)) <= dec_value(
            #[trigger] t.subrange(0, j),
        ) by {
            if m < j {
                assert(dec_value(t.subrange(0, m)) <= dec_value(t.subrange(0, j - 1)));
            }
        }
    }
}

/// A digit string's value is never negative.
proof fn lemma_dec_value_nonneg(t: Seq<char>, j: int)
    requires
        0 <= j <= t.len(),
        forall|k: int| 0 <= k < j ==> is_dec_digit(#[trigger] t[k]),
    ensures
        dec_value(t.subrange(0, j)) >= 0,
    decreases j,
{
    if j > 0 {
        lemma_dec_value_nonneg(t, j - 1);
        assert(t.subrange(0, j).drop_last() =~= t.subrange(0, j - 1));
        assert(t.subrange(0, j).last() == t[j - 1]);
    }
}

/// The first index in `h` that holds `k`; the length when none does.
pub open spec fn first_pos(h: Seq<Seq<char>>, k: Seq<char>, i: int) -> int
    decreases h.len() - i,
{
    if i < 0 || i >= h.len() {
        h.len() as int
    } else if h[i] == k {
        i
    } else {
        first_pos(h, k, i + 1)
    }
}

/// The value of the first pair whose key is `k`.
pub open spec fn first_lookup(pairs: Seq<(Seq<char>, Seq<char>)>, k: Seq<char>) -> Option<
    Seq<char>,
>
    decreases pairs.len(),
{
    if pairs.len() == 0 {
        None
    } else if pairs[0].0 == k {
        Some(pairs[0].1)
    } else {
        first_lookup(pairs.drop_first(), k)
    }
}

/// The deep view of a key/value pair list.
pub open spec fn pairs_view(pairs: Seq<(String, String)>) -> Seq<(Seq<char>, Seq<char>)> {
    Seq::new(pairs.len(), |i: int| (pairs[i].0@, pairs[i].1@))
}

/// What appending `text` under `key` leaves: the first pair of that key
/// grows by the text; a missing key gains a fresh pair at the end.
pub open spec fn spec_accumulate(
    pairs: Seq<(Seq<char>, Seq<char>)>,
    key: Seq<char>,
    text: Seq<char>,
) -> Seq<(Seq<char>, Seq<char>)>
    decreases pairs.len(),
{
    if pairs.len() == 0 {
        seq![(key, text)]
    } else if pairs[0].0 == key {
        seq![(pairs[0].0, pairs[0].1 + text)] + pairs.drop_first()
    } else {
        seq![pairs[0]] + spec_accumulate(pairs.drop_first(), key, text)
    }
}

/// Appends `text` to the entry of `key`, inserting the pair when absent, as
/// an element's texts accumulate.
pub fn accumulate_pair(pairs: &mut Vec<(String, String)>, key: &str, text: &str)
    ensures
        pairs_view(final(pairs)@) == spec_accumulate(pairs_view(old(pairs)@), key@, text@),
{
    let ghost pre = pairs_view(pairs@);
    let mut i: usize = 0;
    proof {
        assert(pre.skip(0) =~= pre);
        assert(pre.subrange(0, 0) =~= Seq::<(Seq<char>, Seq<char>)>::empty());
        assert(pre.subrange(0, 0) + spec_accumulate(pre.skip(0), key@, text@) =~= spec_accumulate(
            pre,
            key@,
            text@,
        ));
    }
    while i < pairs.len()
        invariant
            pre == pairs_view(pairs@),
            pre == pairs_view(old(pairs)@),
            i <= pairs@.len(),
            forall|k: int| 0 <= k < i ==> (#[trigger] pre[k]).0 != key@,
            spec_accumulate(pre, key@, text@) == pre.subrange(0, i as int) + spec_accumulate(
                pre.skip(i as int),
                key@,
                text@,
            ),
        decreases pairs@.len() - i,
    {
        proof {
            assert(pre.skip(i as int)[0] == (pairs@[i as int].0@, pairs@[i as int].1@));
            assert(pre.skip(i as int).drop_first() =~= pre.skip(i as int + 1));
        }
        if str_eq(pairs[i].0.as_str(), key) {
            let ghost prevec = pairs@;
            pairs[i].1.append(text);
            proof {
                assert forall|k: int| 0 <= k < pairs_view(pairs@).len() implies #[trigger] pairs_view(
                    pairs@,
                )[k] == (if k == i {
                    (pre[k].0, pre[k].1 + text@)
                } else {
                    pre[k]
                }) by {
                    if k != i {
                        assert(pairs@[k] == prevec[k]);
                    }
                }
                assert(pre.skip(i as int)[0] == pre[i as int]);
                assert(spec_accumulate(pre.skip(i as int), key@, text@) =~= seq![
                    (pre[i as int].0, pre[i as int].1 + text@),
                ] + pre.skip(i as int + 1));
                assert(pairs_view(pairs@) =~= pre.subrange(0, i as int) + (seq![
                    (pre[i as int].0, pre[i as int].1 + text@),
                ] + pre.skip(i as int + 1)));
                assert(pairs_view(pairs@) =~= spec_accumulate(pre, key@, text@));
            }
            return ;
        }
        proof {
            assert(pre.subrange(0, i as int + 1) =~= pre.subrange(0, i as int) + seq![
                pre[i as int],
            ]);
            assert(pre.subrange(0, i as int) + (seq![pre[i as int]] + spec_accumulate(
                pre.skip(i as int + 1),
                key@,
                text@,
            )) =~= pre.subrange(0, i as int + 1) + spec_accumulate(
                pre.skip(i as int + 1),
                key@,
                text@,
            ));
        }
        i = i + 1;
    }
    proof {
        assert(pre.skip(pairs@.len() as int).len() == 0);
    }
    pairs.push((key.to_owned(), text.to_owned()));
    proof {
        assert(pairs_view(pairs@) =~= pre.subrange(0, pre.len() as int) + seq![(key@, text@)]);
        assert(pre.subrange(0, pre.len() as int) =~= pre);
        assert(spec_accumulate(pre.skip(pre.len() as int), key@, text@) =~= seq![(key@, text@)]);
    }
}

/// Finds the value of the first pair whose key is `k`.
pub(crate) fn lookup_pair(pairs: &Vec<(String, String)>, k: &str) -> (r: Option<String>)
    ensures
        match r {
            Some(v) => first_lookup(pairs_view(pairs@), k@) == Some(v@),
            None => first_lookup(pairs_view(pairs@), k@) is None,
        },
{
    let mut i: usize = 0;
    proof {
        assert(pairs_view(pairs@).skip(0) =~= pairs_view(pairs@));
    }
    while i < pairs.len()
        invariant
            i <= pairs@.len(),
            first_lookup(pairs_view(pairs@), k@) == first_lookup(
                pairs_view(pairs@).skip(i as int),
                k@,
            ),
        decreases pairs@.len() - i,
    {
        proof {
            assert(pairs_view(pairs@).skip(i as int)[0] == (pairs@[i as int].0@, pairs@[
                i as int].1@));
            assert(pairs_view(pairs@).skip(i as int).drop_first() =~= pairs_view(pairs@).skip(
                i as int + 1,
            ));
        }
        if str_eq(pairs[i].0.as_str(), k) {
            return Some(pairs[i].1.clone());
        }
        i = i + 1;
    }
    proof {
        assert(pairs_view(pairs@).skip(pairs@.len() as int).len() == 0);
    }
    None
}

} // verus!
