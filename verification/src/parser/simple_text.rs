//! The plain-text reader: indented lines, one item per line, the indentation
//! depth giving the level and an optional delimiter separating the key from
//! its values.

use vstd::prelude::*;

use crate::outline::{Outline, OutlineError, OutlineItemView};
use crate::parser::{spec_split, spec_trim, split_string, trim_str};

verus! {

/// Options of the plain-text reader.
#[derive(Debug, Clone)]
pub struct SimpleTextParserOptions {
    /// The string used for indentation (e.g. two spaces, or a tab).
    pub indent: String,
    /// An optional delimiter separating the key from its values.
    pub delimiter: Option<String>,
    /// If true, empty lines are preserved as level-1 items.
    pub preserve_empty_line: bool,
    /// An optional comma-separated key-header list.
    pub key_header: Option<String>,
    /// An optional comma-separated value-header list.
    pub value_header: Option<String>,
}

impl Default for SimpleTextParserOptions {
    /// The defaults: tab indentation, no delimiter, empty lines dropped, no
    /// headers.
    fn default() -> (r: Self)
        ensures
            r.indent@ == "\t"@,
            r.delimiter is None,
            !r.preserve_empty_line,
            r.key_header is None,
            r.value_header is None,
    {
        SimpleTextParserOptions {
            indent: "\t".to_owned(),
            delimiter: None,
            preserve_empty_line: false,
            key_header: None,
            value_header: None,
        }
    }
}

/// What splitting a comma-separated option into trimmed entries yields.
pub open spec fn spec_comma_separated(arg: Option<Seq<char>>) -> Seq<Seq<char>> {
    match arg {
        Some(s) => spec_split(s, ","@).map_values(|p: Seq<char>| spec_trim(p)),
        None => Seq::empty(),
    }
}

impl SimpleTextParserOptions {
    /// Splits an optional comma-separated option string into its trimmed
    /// entries; an absent option yields no entries.
    pub fn parse_comma_separated(arg: &Option<String>) -> (r: Vec<String>)
        ensures
            r.deep_view() == spec_comma_separated(match arg {
                Some(s) => Some(s@),
                None => None,
            }),
    {
        match arg {
            Some(s) => {
                proof {
                    reveal_strlit(",");
                }
                let parts = split_string(s.as_str(), ",");
                let mut r: Vec<String> = Vec::new();
                let mut i: usize = 0;
                while i < parts.len()
                    invariant
                        i <= parts@.len(),
                        r@.len() == i,
                        forall|k: int|
                            0 <= k < i ==> (#[trigger] r@[k])@ == spec_trim(parts@[k]@),
                    decreases parts@.len() - i,
                {
                    r.push(trim_str(parts[i].as_str()).to_owned());
                    i = i + 1;
                }
                proof {
                    assert(r.deep_view() =~= parts.deep_view().map_values(
                        |p: Seq<char>| spec_trim(p),
                    ));
                }
                r
            },
            None => {
                let r: Vec<String> = Vec::new();
                proof {
                    assert(r.deep_view() =~= Seq::<Seq<char>>::empty());
                }
                r
            },
        }
    }

    /// The key headers of these options.
    pub fn key_header_vec(&self) -> (r: Vec<String>)
        ensures
            r.deep_view() == spec_comma_separated(match self.key_header {
                Some(s) => Some(s@),
                None => None,
            }),
    {
        Self::parse_comma_separated(&self.key_header)
    }

    /// The value headers of these options.
    pub fn value_header_vec(&self) -> (r: Vec<String>)
        ensures
            r.deep_view() == spec_comma_separated(match self.value_header {
                Some(s) => Some(s@),
                None => None,
            }),
    {
        Self::parse_comma_separated(&self.value_header)
    }
}

/// The lines of the input, as `str::lines` cuts them: split at newlines, a
/// final newline closing the last line, and a carriage return before any
/// newline dropped.
pub open spec fn spec_lines(s: Seq<char>) -> Seq<Seq<char>> {
    if s.len() == 0 {
        Seq::empty()
    } else {
        let pieces = spec_split(s, seq!['\n']);
        let kept = if s.last() == '\n' {
            pieces.drop_last()
        } else {
            pieces
        };
        kept.map_values(|l: Seq<char>| strip_cr(l))
    }
}

/// Drops one trailing carriage return.
pub open spec fn strip_cr(l: Seq<char>) -> Seq<char> {
    if l.len() > 0 && l.last() == '\r' {
        l.drop_last()
    } else {
        l
    }
}

/// How many copies of the non-empty `ind` prefix the line from `from` on.
pub open spec fn count_reps(l: Seq<char>, ind: Seq<char>, from: int) -> int
    decreases l.len() - from,
{
    if ind.len() == 0 || from < 0 || from + ind.len() > l.len() || l.subrange(
        from,
        from + ind.len() as int,
    ) != ind {
        0
    } else {
        1 + count_reps(l, ind, from + ind.len())
    }
}

/// The item one line yields: the indentation count plus one as level, the
/// rest split at the delimiter, the first part trimmed as key, the later
/// parts trimmed as values.
pub open spec fn line_item(
    l: Seq<char>,
    ind: Seq<char>,
    delim: Option<Seq<char>>,
) -> OutlineItemView {
    let k = count_reps(l, ind, 0);
    let rest = l.subrange(k * ind.len(), l.len() as int);
    match delim {
        Some(d) => {
            let parts = spec_split(rest, d);
            OutlineItemView {
                key: spec_trim(parts[0]),
                level: (1 + k) as u32,
                values: parts.drop_first().map_values(|p: Seq<char>| spec_trim(p)),
            }
        },
        None => OutlineItemView {
            key: spec_trim(rest),
            level: (1 + k) as u32,
            values: Seq::empty(),
        },
    }
}

/// A line is dropped when it is blank and blank lines are not preserved.
pub open spec fn line_kept(l: Seq<char>, preserve: bool) -> bool {
    spec_trim(l).len() > 0 || preserve
}

/// The items of the kept lines, in order.
pub open spec fn spec_parse_items(
    lines: Seq<Seq<char>>,
    ind: Seq<char>,
    delim: Option<Seq<char>>,
    preserve: bool,
    n: int,
) -> Seq<OutlineItemView>
    decreases n,
{
    if n <= 0 {
        Seq::empty()
    } else {
        spec_parse_items(lines, ind, delim, preserve, n - 1) + if line_kept(
            lines[n - 1],
            preserve,
        ) {
            seq![line_item(lines[n - 1], ind, delim)]
        } else {
            Seq::empty()
        }
    }
}

/// The plain-text reader, holding its options.
pub struct SimpleTextParser {
    pub option: SimpleTextParserOptions,
}

/// Splitting always yields at least one piece.
proof fn lemma_split_nonempty(s: Seq<char>, d: Seq<char>)
    ensures
        spec_split(s, d).len() >= 1,
{
    if d.len() > 0 {
        lemma_split_lit_nonempty(s, d, 0, 0);
    }
}

proof fn lemma_split_lit_nonempty(s: Seq<char>, d: Seq<char>, i: int, start: int)
    ensures
        crate::parser::split_lit_rec(s, d, i, start).len() >= 1,
    decreases s.len() - i,
{
    if !(i < 0 || start < 0 || start > i || d.len() == 0 || i + d.len() > s.len()) {
        if s.subrange(i, i + d.len() as int) == d {
            lemma_split_lit_nonempty(s, d, i + d.len(), i + d.len());
        } else {
            lemma_split_lit_nonempty(s, d, i + 1, start);
        }
    }
}

impl SimpleTextParser {
    /// Wraps the options.
    pub fn new(option: SimpleTextParserOptions) -> (r: Self)
        ensures
            r.option == option,
    {
        SimpleTextParser { option }
    }

    /// Reads the input line by line into an outline: headers from the
    /// options, one item per kept line, the indentation giving the level.
    pub fn parse(&self, input: &str) -> (r: Result<Outline, OutlineError>)
        requires
            input@.len() < u32::MAX,
        ensures
            r matches Ok(o) && o@.key_header == spec_comma_separated(
                match self.option.key_header {
                    Some(s) => Some(s@),
                    None => None,
                },
            ) && o@.value_header == spec_comma_separated(
                match self.option.value_header {
                    Some(s) => Some(s@),
                    None => None,
                },
            ) && o@.items == spec_parse_items(
                spec_lines(input@),
                self.option.indent@,
                match self.option.delimiter {
                    Some(d) => Some(d@),
                    None => None,
                },
                self.option.preserve_empty_line,
                spec_lines(input@).len() as int,
            ),
    {
        let ghost ind = self.option.indent@;
        let ghost delim: Option<Seq<char>> = match &self.option.delimiter {
            Some(d) => Some(d@),
            None => None,
        };
        let preserve = self.option.preserve_empty_line;
        let mut outline = Outline::new();
        outline.key_header = self.option.key_header_vec();
        outline.value_header = self.option.value_header_vec();
        proof {
            assert(outline@.key_header == spec_comma_separated(match self.option.key_header {
                Some(s) => Some(s@),
                None => None,
            }));
        }
        let lines = Self::split_lines(input);
        let ghost lns = spec_lines(input@);
        let n = lines.len();
        let mut i: usize = 0;
        while i < n
            invariant
                n == lns.len(),
                lines.deep_view() == lns,
                i <= n,
                n <= input@.len() + 1,
                input@.len() < u32::MAX,
                forall|k: int| 0 <= k < lines@.len() ==> (#[trigger] lines@[k])@.len()
                    <= input@.len(),
                ind == self.option.indent@,
                delim == (match self.option.delimiter {
                    Some(d) => Some(d@),
                    None => None,
                }),
                preserve == self.option.preserve_empty_line,
                outline@.key_header == spec_comma_separated(match self.option.key_header {
                    Some(s) => Some(s@),
                    None => None,
                }),
                outline@.value_header == spec_comma_separated(match self.option.value_header {
                    Some(s) => Some(s@),
                    None => None,
                }),
                outline@.items == spec_parse_items(lns, ind, delim, preserve, i as int),
            decreases n - i,
        {
            let line = &lines[i];
            proof {
                assert(lines@[i as int]@ == lns[i as int]);
                assert(lines@[i as int]@.len() <= input@.len());
            }
            let trimmed = trim_str(line.as_str());
            if trimmed.unicode_len() == 0 && !preserve {
                proof {
                    assert(!line_kept(lns[i as int], preserve));
                    assert(spec_parse_items(lns, ind, delim, preserve, i as int + 1)
                        =~= outline@.items);
                }
                i = i + 1;
                continue ;
            }
            proof {
                assert(line_kept(lns[i as int], preserve));
            }
            let reps = Self::count_indent(line.as_str(), self.option.indent.as_str());
            let llen = line.as_str().unicode_len();
            let ilen = self.option.indent.unicode_len();
            proof {
                assert(reps <= input@.len());
            }
            let level: u32 = 1 + (reps as u32);
            let rest = line.as_str().substring_char(reps * ilen, llen);
            let ghost lw = lns[i as int];
            proof {
                assert(rest@ =~= lw.subrange(
                    count_reps(lw, ind, 0) * ind.len(),
                    lw.len() as int,
                ));
            }
            let ghost pre_items = outline@.items;
            match &self.option.delimiter {
                Some(d) => {
                    let parts = split_string(rest, d.as_str());
                    proof {
                        lemma_split_nonempty(rest@, d@);
                        assert(parts@.len() >= 1);
                    }
                    let key = trim_str(parts[0].as_str()).to_owned();
                    let mut vals: Vec<String> = Vec::new();
                    let mut k: usize = 1;
                    while k < parts.len()
                        invariant
                            1 <= k <= parts@.len(),
                            parts@.len() >= 1,
                            vals@.len() == k - 1,
                            forall|z: int|
                                0 <= z < k - 1 ==> (#[trigger] vals@[z])@ == spec_trim(
                                    parts@[z + 1]@,
                                ),
                        decreases parts@.len() - k,
                    {
                        vals.push(trim_str(parts[k].as_str()).to_owned());
                        k = k + 1;
                    }
                    proof {
                        assert(vals.deep_view() =~= parts.deep_view().drop_first().map_values(
                            |p: Seq<char>| spec_trim(p),
                        ));
                    }
                    outline.add_item(key.as_str(), level, vals);
                    proof {
                        assert(OutlineItemView {
                            key: key@,
                            level,
                            values: parts.deep_view().drop_first().map_values(
                                |p: Seq<char>| spec_trim(p),
                            ),
                        } =~= line_item(lw, ind, delim));
                        assert(outline@.items =~= spec_parse_items(
                            lns,
                            ind,
                            delim,
                            preserve,
                            i as int + 1,
                        ));
                    }
                },
                None => {
                    let key = trim_str(rest).to_owned();
                    let empty_vals: Vec<String> = Vec::new();
                    proof {
                        assert(empty_vals.deep_view() =~= Seq::<Seq<char>>::empty());
                    }
                    outline.add_item(key.as_str(), level, empty_vals);
                    proof {
                        assert(OutlineItemView { key: key@, level, values: Seq::empty() }
                            =~= line_item(lw, ind, delim));
                        assert(outline@.items =~= spec_parse_items(
                            lns,
                            ind,
                            delim,
                            preserve,
                            i as int + 1,
                        ));
                    }
                },
            }
            i = i + 1;
        }
        Ok(outline)
    }

    /// Counts the leading copies of `ind` at the start of `line`.
    fn count_indent(line: &str, ind: &str) -> (r: usize)
        ensures
            r == count_reps(line@, ind@, 0),
            r * ind@.len() <= line@.len(),
            r <= line@.len(),
    {
        let llen = line.unicode_len();
        let ilen = ind.unicode_len();
        if ilen == 0 {
            return 0;
        }
        let mut from: usize = 0;
        let mut reps: usize = 0;
        if ilen > llen {
            return 0;
        }
        while from <= llen - ilen
            invariant_except_break
                llen == line@.len(),
                ilen == ind@.len(),
                0 < ilen <= llen,
                from == reps * ilen,
                reps <= from,
                from <= llen,
                count_reps(line@, ind@, 0) == reps + count_reps(line@, ind@, from as int),
            ensures
                reps == count_reps(line@, ind@, 0),
                reps * ind@.len() <= line@.len(),
                reps <= line@.len(),
            decreases llen - from,
        {
            let cand = line.substring_char(from, from + ilen);
            if crate::parser::str_eq(cand, ind) {
                proof {
                    assert(line@.subrange(from as int, from as int + ilen as int) == ind@);
                    assert((reps + 1) * ilen == reps * ilen + ilen) by (nonlinear_arith);
                }
                from = from + ilen;
                reps = reps + 1;
            } else {
                proof {
                    assert(count_reps(line@, ind@, from as int) == 0);
                }
                break ;
            }
        }
        reps
    }

    /// Cuts the input into lines as `str::lines` does.
    fn split_lines(input: &str) -> (r: Vec<String>)
        ensures
            r.deep_view() == spec_lines(input@),
            r@.len() <= input@.len() + 1,
            forall|k: int| 0 <= k < r@.len() ==> (#[trigger] r@[k])@.len() <= input@.len(),
    {
        let slen = input.unicode_len();
        if slen == 0 {
            let r: Vec<String> = Vec::new();
            proof {
                assert(r.deep_view() =~= Seq::<Seq<char>>::empty());
            }
            return r;
        }
        proof {
            reveal_strlit("\n");
        }
        let mut pieces = split_string(input, "\n");
        let ghost spec0 = spec_split(input@, seq!['\n']);
        proof {
            assert("\n"@ =~= seq!['\n']);
            lemma_split_count(input@, seq!['\n'], 0, 0);
            lemma_split_nonempty(input@, seq!['\n']);
            lemma_split_piece_len(input@, seq!['\n'], 0, 0);
            assert(pieces.deep_view() == spec0);
            assert(pieces@.len() <= input@.len() + 1);
            assert(pieces@.len() >= 1);
        }
        if input.get_char(slen - 1) == '\n' {
            let ghost prev = pieces.deep_view();
            pieces.pop();
            proof {
                assert(pieces.deep_view() =~= prev.drop_last());
            }
        }
        proof {
            assert forall|k: int| 0 <= k < pieces@.len() implies (#[trigger] pieces@[k])@.len()
                <= input@.len() by {
                assert(pieces.deep_view()[k] == pieces@[k]@);
                assert(pieces.deep_view()[k] == spec0[k]);
                assert(spec0[k].len() <= input@.len());
            }
        }
        let mut r: Vec<String> = Vec::new();
        let mut i: usize = 0;
        while i < pieces.len()
            invariant
                i <= pieces@.len(),
                r@.len() == i,
                forall|k: int|
                    0 <= k < pieces@.len() ==> (#[trigger] pieces@[k])@.len() <= input@.len(),
                forall|k: int|
                    0 <= k < i ==> (#[trigger] r@[k])@ == strip_cr(pieces@[k]@),
            decreases pieces@.len() - i,
        {
            let p = &pieces[i];
            let plen = p.as_str().unicode_len();
            if plen > 0 && p.as_str().get_char(plen - 1) == '\r' {
                let cut = p.as_str().substring_char(0, plen - 1);
                proof {
                    assert(cut@ =~= strip_cr(pieces@[i as int]@));
                }
                r.push(cut.to_owned());
            } else {
                proof {
                    assert(p@ =~= strip_cr(pieces@[i as int]@));
                }
                r.push(p.clone());
            }
            i = i + 1;
        }
        proof {
            assert(r.deep_view() =~= spec_lines(input@));
            assert forall|k: int| 0 <= k < r@.len() implies (#[trigger] r@[k])@.len()
                <= input@.len() by {
                assert(r@[k]@ == strip_cr(pieces@[k]@));
                assert(pieces@[k]@.len() <= input@.len());
            }
        }
        r
    }
}

/// A split yields at most one piece per character plus one.
proof fn lemma_split_count(s: Seq<char>, d: Seq<char>, i: int, start: int)
    requires
        d.len() > 0,
        0 <= start <= i,
        i <= s.len(),
    ensures
        crate::parser::split_lit_rec(s, d, i, start).len() <= s.len() - i + 1,
    decreases s.len() - i,
{
    if !(i + d.len() > s.len()) {
        if s.subrange(i, i + d.len() as int) == d {
            lemma_split_count(s, d, i + d.len(), i + d.len());
        } else {
            lemma_split_count(s, d, i + 1, start);
        }
    }
}

/// Every split piece is at most as long as the whole.
proof fn lemma_split_piece_len(s: Seq<char>, d: Seq<char>, i: int, start: int)
    requires
        d.len() > 0,
        0 <= start <= i <= s.len(),
    ensures
        forall|k: int|
            0 <= k < crate::parser::split_lit_rec(s, d, i, start).len() ==> (
            #[trigger] crate::parser::split_lit_rec(s, d, i, start)[k]).len() <= s.len(),
    decreases s.len() - i,
{
    let res = crate::parser::split_lit_rec(s, d, i, start);
    if i + d.len() > s.len() {
        assert(res =~= seq![s.subrange(start, s.len() as int)]);
        assert forall|k: int| 0 <= k < res.len() implies (#[trigger] res[k]).len() <= s.len() by {
            assert(res[0] == s.subrange(start, s.len() as int));
        }
    } else if s.subrange(i, i + d.len() as int) == d {
        let rest = crate::parser::split_lit_rec(s, d, i + d.len(), i + d.len());
        lemma_split_piece_len(s, d, i + d.len(), i + d.len());
        assert(res =~= seq![s.subrange(start, i)] + rest);
        assert forall|k: int| 0 <= k < res.len() implies (#[trigger] res[k]).len() <= s.len() by {
            if k == 0 {
                assert(res[0] == s.subrange(start, i));
            } else {
                assert(res[k] == rest[k - 1]);
                assert(rest[k - 1].len() <= s.len());
            }
        }
    } else {
        lemma_split_piece_len(s, d, i + 1, start);
        assert(res =~= crate::parser::split_lit_rec(s, d, i + 1, start));
    }
}

} // verus!
