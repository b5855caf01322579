//! The directory-tree reader: its options and the path bookkeeping that
//! turns an unordered batch of relative paths into outline items.  Walking
//! the file system itself is the caller's job; it hands the paths (as
//! component lists) here and answers which of them are directories.

use vstd::prelude::*;

use crate::outline::Outline;
use crate::parser::simple_text::spec_comma_separated;
use crate::parser::str_eq;

verus! {

/// Options of the directory-tree reader: an optional comma-separated key
/// header, the glob pattern to enumerate with, and a suffix appended to
/// directory names.
#[derive(Debug, Clone)]
pub struct DirTreeParserOptions {
    pub key_header: Option<String>,
    pub glob_pattern: Option<String>,
    pub dir_indicator: Option<String>,
}

impl Default for DirTreeParserOptions {
    /// The defaults: no key header, the catch-all pattern, no indicator.
    fn default() -> (r: Self)
        ensures
            r.key_header is None,
            r.glob_pattern matches Some(p) && p@ == "**/*"@,
            r.dir_indicator is None,
    {
        DirTreeParserOptions {
            key_header: None,
            glob_pattern: Some("**/*".to_owned()),
            dir_indicator: None,
        }
    }
}

/// The directory-tree reader, holding its options.
pub struct DirTreeParser {
    pub option: DirTreeParserOptions,
}

impl DirTreeParser {
    /// Wraps the options.
    pub fn new(option: DirTreeParserOptions) -> (r: Self)
        ensures
            r.option == option,
    {
        DirTreeParser { option }
    }
}

/// Strict lexicographic order on character sequences, by scalar value.
pub open spec fn seq_lt(a: Seq<char>, b: Seq<char>) -> bool
    decreases a.len(),
{
    if b.len() == 0 {
        false
    } else if a.len() == 0 {
        true
    } else if a[0] != b[0] {
        a[0] < b[0]
    } else {
        seq_lt(a.drop_first(), b.drop_first())
    }
}

/// Strict lexicographic order on paths, component by component: the order
/// the file-system walk presents paths in once they are sorted.
pub open spec fn path_lt(a: Seq<Seq<char>>, b: Seq<Seq<char>>) -> bool
    decreases a.len(),
{
    if b.len() == 0 {
        false
    } else if a.len() == 0 {
        true
    } else if a[0] != b[0] {
        seq_lt(a[0], b[0])
    } else {
        path_lt(a.drop_first(), b.drop_first())
    }
}

/// `p` is a non-empty prefix of one of the entries.
pub open spec fn prefix_of_some(entries: Seq<Seq<Seq<char>>>, p: Seq<Seq<char>>) -> bool {
    exists|e: int, k: int|
        0 <= e < entries.len() && 1 <= k <= entries[e].len() && p == #[trigger] entries[e].subrange(
            0,
            k,
        )
}

/// Two distinct character sequences compare one way or the other.
proof fn lemma_seq_lt_total(a: Seq<char>, b: Seq<char>)
    ensures
        a == b || seq_lt(a, b) || seq_lt(b, a),
    decreases a.len(),
{
    if b.len() == 0 {
        if a.len() == 0 {
            assert(a =~= b);
        }
    } else if a.len() == 0 {
    } else if a[0] != b[0] {
    } else {
        lemma_seq_lt_total(a.drop_first(), b.drop_first());
        if a.drop_first() == b.drop_first() {
            assert(a.drop_first().len() == b.drop_first().len());
            assert(a.len() == b.len());
            assert forall|i: int| 0 <= i < a.len() implies a[i] == b[i] by {
                if i > 0 {
                    assert(a[i] == a.drop_first()[i - 1]);
                    assert(b[i] == b.drop_first()[i - 1]);
                }
            }
            assert(a =~= b);
        }
    }
}

/// Two distinct paths compare one way or the other.
proof fn lemma_path_lt_total(a: Seq<Seq<char>>, b: Seq<Seq<char>>)
    ensures
        a == b || path_lt(a, b) || path_lt(b, a),
    decreases a.len(),
{
    if b.len() == 0 {
        if a.len() == 0 {
            assert(a =~= b);
        }
    } else if a.len() == 0 {
    } else if a[0] != b[0] {
        lemma_seq_lt_total(a[0], b[0]);
    } else {
        lemma_path_lt_total(a.drop_first(), b.drop_first());
        if a.drop_first() == b.drop_first() {
            assert(a.drop_first().len() == b.drop_first().len());
            assert(a.len() == b.len());
            assert forall|i: int| 0 <= i < a.len() implies a[i] == b[i] by {
                if i > 0 {
                    assert(a[i] == a.drop_first()[i - 1]);
                    assert(b[i] == b.drop_first()[i - 1]);
                }
            }
            assert(a =~= b);
        }
    }
}

/// Character-wise strict comparison of two strings.
fn str_less(a: &str, b: &str) -> (r: bool)
    ensures
        r == seq_lt(a@, b@),
{
    let alen = a.unicode_len();
    let blen = b.unicode_len();
    let mut i: usize = 0;
    proof {
        assert(a@.skip(0) =~= a@);
        assert(b@.skip(0) =~= b@);
    }
    loop
        invariant
            alen == a@.len(),
            blen == b@.len(),
            i <= alen,
            i <= blen,
            seq_lt(a@, b@) == seq_lt(a@.skip(i as int), b@.skip(i as int)),
        decreases alen - i,
    {
        if i == blen {
            proof {
                assert(b@.skip(i as int).len() == 0);
            }
            return false;
        }
        if i == alen {
            proof {
                assert(a@.skip(i as int).len() == 0);
                assert(b@.skip(i as int).len() > 0);
            }
            return true;
        }
        let ca = a.get_char(i);
        let cb = b.get_char(i);
        proof {
            assert(a@.skip(i as int)[0] == a@[i as int]);
            assert(b@.skip(i as int)[0] == b@[i as int]);
            assert(a@.skip(i as int).drop_first() =~= a@.skip(i as int + 1));
            assert(b@.skip(i as int).drop_first() =~= b@.skip(i as int + 1));
        }
        if ca != cb {
            return ca < cb;
        }
        i = i + 1;
    }
}

/// Component-wise strict comparison of two paths.
fn path_less(a: &Vec<String>, b: &Vec<String>) -> (r: bool)
    ensures
        r == path_lt(a.deep_view(), b.deep_view()),
{
    let ghost av = a.deep_view();
    let ghost bv = b.deep_view();
    let mut i: usize = 0;
    proof {
        assert(av.skip(0) =~= av);
        assert(bv.skip(0) =~= bv);
    }
    loop
        invariant
            av == a.deep_view(),
            bv == b.deep_view(),
            i <= av.len(),
            i <= bv.len(),
            av.len() == a@.len(),
            bv.len() == b@.len(),
            path_lt(av, bv) == path_lt(av.skip(i as int), bv.skip(i as int)),
        decreases a@.len() - i,
    {
        if i == b.len() {
            proof {
                assert(bv.skip(i as int).len() == 0);
            }
            return false;
        }
        if i == a.len() {
            proof {
                assert(av.skip(i as int).len() == 0);
                assert(bv.skip(i as int).len() > 0);
            }
            return true;
        }
        proof {
            assert(av.skip(i as int)[0] == av[i as int]);
            assert(bv.skip(i as int)[0] == bv[i as int]);
            assert(av.skip(i as int).drop_first() =~= av.skip(i as int + 1));
            assert(bv.skip(i as int).drop_first() =~= bv.skip(i as int + 1));
            assert(av[i as int] == a@[i as int]@);
            assert(bv[i as int] == b@[i as int]@);
        }
        if !str_eq(a[i].as_str(), b[i].as_str()) {
            return str_less(a[i].as_str(), b[i].as_str());
        }
        i = i + 1;
    }
}

/// Component-wise equality of two paths.
fn path_eq(a: &Vec<String>, b: &Vec<String>) -> (r: bool)
    ensures
        r == (a.deep_view() == b.deep_view()),
{
    if a.len() != b.len() {
        proof {
            assert(a.deep_view().len() != b.deep_view().len());
        }
        return false;
    }
    let mut i: usize = 0;
    while i < a.len()
        invariant
            a@.len() == b@.len(),
            i <= a@.len(),
            forall|k: int| 0 <= k < i ==> a.deep_view()[k] == b.deep_view()[k],
        decreases a@.len() - i,
    {
        proof {
            assert(a.deep_view()[i as int] == a@[i as int]@);
            assert(b.deep_view()[i as int] == b@[i as int]@);
        }
        if !str_eq(a[i].as_str(), b[i].as_str()) {
            return false;
        }
        i = i + 1;
    }
    proof {
        assert(a.deep_view() =~= b.deep_view());
    }
    true
}

/// Collects every non-empty prefix of the given paths, without repetition,
/// in strictly ascending path order: the rows the directory listing shows.
pub fn collect_path_prefixes(entries: &Vec<Vec<String>>) -> (r: Vec<Vec<String>>)
    requires
        forall|i: int|
            0 <= i < entries.deep_view().len() ==> (#[trigger] entries.deep_view()[i]).len()
                < usize::MAX,
    ensures
        forall|i: int|
            0 <= i < r.deep_view().len() - 1 ==> path_lt(
                #[trigger] r.deep_view()[i],
                r.deep_view()[i + 1],
            ),
        forall|i: int|
            0 <= i < r.deep_view().len() ==> prefix_of_some(
                entries.deep_view(),
                #[trigger] r.deep_view()[i],
            ),
        forall|e: int, k: int|
            0 <= e < entries.deep_view().len() && 1 <= k <= entries.deep_view()[e].len()
                ==> r.deep_view().contains(#[trigger] entries.deep_view()[e].subrange(0, k)),
{
    let ghost ev = entries.deep_view();
    let mut r: Vec<Vec<String>> = Vec::new();
    let mut e: usize = 0;
    while e < entries.len()
        invariant
            ev == entries.deep_view(),
            ev.len() == entries@.len(),
            forall|i: int| 0 <= i < ev.len() ==> (#[trigger] ev[i]).len() < usize::MAX,
            e <= ev.len(),
            forall|i: int|
                0 <= i < r.deep_view().len() - 1 ==> path_lt(
                    #[trigger] r.deep_view()[i],
                    r.deep_view()[i + 1],
                ),
            forall|i: int|
                0 <= i < r.deep_view().len() ==> prefix_of_some(ev, #[trigger] r.deep_view()[i]),
            forall|ee: int, k: int|
                0 <= ee < e && 1 <= k <= ev[ee].len() ==> r.deep_view().contains(
                    #[trigger] ev[ee].subrange(0, k),
                ),
        decreases ev.len() - e,
    {
        let entry = &entries[e];
        proof {
            assert(ev[e as int].len() < usize::MAX);
        }
        let mut k: usize = 1;
        while k <= entry.len()
            invariant
                ev == entries.deep_view(),
                ev.len() == entries@.len(),
                forall|i: int| 0 <= i < ev.len() ==> (#[trigger] ev[i]).len() < usize::MAX,
                e < ev.len(),
                entry == entries@[e as int],
                entry@.len() == ev[e as int].len(),
                entry@.len() < usize::MAX,
                1 <= k,
                k <= entry@.len() + 1,
                forall|i: int|
                    0 <= i < r.deep_view().len() - 1 ==> path_lt(
                        #[trigger] r.deep_view()[i],
                        r.deep_view()[i + 1],
                    ),
                forall|i: int|
                    0 <= i < r.deep_view().len() ==> prefix_of_some(
                        ev,
                        #[trigger] r.deep_view()[i],
                    ),
                forall|ee: int, kk: int|
                    0 <= ee < e && 1 <= kk <= ev[ee].len() ==> r.deep_view().contains(
                        #[trigger] ev[ee].subrange(0, kk),
                    ),
                forall|kk: int|
                    1 <= kk < k ==> r.deep_view().contains(
                        #[trigger] ev[e as int].subrange(0, kk),
                    ),
            decreases entry@.len() + 1 - k,
        {
            let mut prefix: Vec<String> = Vec::new();
            let mut z: usize = 0;
            while z < k
                invariant
                    z <= k,
                    k <= entry@.len(),
                    entry@.len() == ev[e as int].len(),
                    e < ev.len(),
                    ev == entries.deep_view(),
                    entry == entries@[e as int],
                    prefix@.len() == z,
                    forall|y: int| 0 <= y < z ==> prefix.deep_view()[y] == ev[e as int][y],
                decreases k - z,
            {
                proof {
                    assert(ev[e as int][z as int] == entry@[z as int]@);
                }
                let ghost prev = prefix.deep_view();
                prefix.push(entry[z].clone());
                proof {
                    assert forall|y: int| 0 <= y < z + 1 implies prefix.deep_view()[y] == ev[
                    e as int][y] by {
                        assert(prefix.deep_view()[y] == prefix@[y]@);
                        if y < z {
                            assert(prev[y] == ev[e as int][y]);
                            assert(prev[y] == prefix@[y]@);
                        }
                    }
                }
                z = z + 1;
            }
            proof {
                assert(prefix.deep_view() =~= ev[e as int].subrange(0, k as int));
            }
            let ghost pre = r.deep_view();
            insert_path_sorted(&mut r, prefix, Ghost(ev), Ghost(e as int), Ghost(k as int));
            proof {
                assert forall|ee: int, kk: int|
                    0 <= ee < e && 1 <= kk <= ev[ee].len() implies r.deep_view().contains(
                    #[trigger] ev[ee].subrange(0, kk),
                ) by {
                    assert(pre.contains(ev[ee].subrange(0, kk)));
                }
                assert forall|kk: int| 1 <= kk < k + 1 implies r.deep_view().contains(
                    #[trigger] ev[e as int].subrange(0, kk),
                ) by {
                    if kk < k {
                        assert(pre.contains(ev[e as int].subrange(0, kk)));
                    } else {
                        assert(r.deep_view().contains(ev[e as int].subrange(0, k as int)));
                    }
                }
            }
            k = k + 1;
        }
        e = e + 1;
    }
    r
}

/// Inserts one prefix into the sorted, repetition-free listing, keeping it
/// sorted and repetition-free; everything already present stays present.
fn insert_path_sorted(
    r: &mut Vec<Vec<String>>,
    p: Vec<String>,
    Ghost(ev): Ghost<Seq<Seq<Seq<char>>>>,
    Ghost(e): Ghost<int>,
    Ghost(k): Ghost<int>,
)
    requires
        0 <= e < ev.len(),
        1 <= k <= ev[e].len(),
        p.deep_view() == ev[e].subrange(0, k),
        forall|i: int|
            0 <= i < old(r).deep_view().len() - 1 ==> path_lt(
                #[trigger] old(r).deep_view()[i],
                old(r).deep_view()[i + 1],
            ),
        forall|i: int|
            0 <= i < old(r).deep_view().len() ==> prefix_of_some(
                ev,
                #[trigger] old(r).deep_view()[i],
            ),
    ensures
        forall|i: int|
            0 <= i < final(r).deep_view().len() - 1 ==> path_lt(
                #[trigger] final(r).deep_view()[i],
                final(r).deep_view()[i + 1],
            ),
        forall|i: int|
            0 <= i < final(r).deep_view().len() ==> prefix_of_some(
                ev,
                #[trigger] final(r).deep_view()[i],
            ),
        final(r).deep_view().contains(ev[e].subrange(0, k)),
        forall|q: Seq<Seq<char>>|
            #[trigger] old(r).deep_view().contains(q) ==> final(r).deep_view().contains(q),
{
    let ghost pv = p.deep_view();
    let mut idx: usize = 0;
    while idx < r.len() && path_less(&r[idx], &p)
        invariant
            r == old(r),
            pv == p.deep_view(),
            idx <= r@.len(),
            forall|i: int| 0 <= i < idx ==> path_lt(#[trigger] r.deep_view()[i], pv),
        decreases r@.len() - idx,
    {
        idx = idx + 1;
    }
    if idx < r.len() && path_eq(&r[idx], &p) {
        proof {
            assert(final(r).deep_view()[idx as int] == pv);
            assert(final(r).deep_view().contains(pv));
        }
        return ;
    }
    proof {
        if idx < r@.len() {
            lemma_path_lt_total(r.deep_view()[idx as int], pv);
            assert(path_lt(pv, r.deep_view()[idx as int]));
        }
    }
    let ghost before = r.deep_view();
    r.insert(idx, p);
    proof {
        let after = r.deep_view();
        assert(after.len() == before.len() + 1);
        assert forall|i: int| 0 <= i < after.len() implies #[trigger] after[i] == (if i < idx {
            before[i]
        } else if i == idx {
            pv
        } else {
            before[i - 1]
        }) by {
            if i < idx {
                assert(r@[i] == old(r)@[i]);
            } else if i > idx {
                assert(r@[i] == old(r)@[i - 1]);
            }
        }
        assert forall|i: int| 0 <= i < after.len() - 1 implies path_lt(
            #[trigger] after[i],
            after[i + 1],
        ) by {
            if i + 1 < idx {
                assert(after[i] == before[i] && after[i + 1] == before[i + 1]);
            } else if i + 1 == idx {
                assert(after[i] == before[i] && after[i + 1] == pv);
            } else if i == idx {
                assert(after[i] == pv && after[i + 1] == before[i]);
            } else {
                assert(after[i] == before[i - 1] && after[i + 1] == before[i]);
            }
        }
        assert(after[idx as int] == pv);
        assert(after.contains(pv));
        assert forall|q: Seq<Seq<char>>| #[trigger] before.contains(q) implies after.contains(
            q,
        ) by {
            let j = choose|j: int| 0 <= j < before.len() && before[j] == q;
            if j < idx {
                assert(after[j] == q);
            } else {
                assert(after[j + 1] == q);
            }
            assert(after.contains(q));
        }
    }
}

impl DirTreeParser {
    /// Builds the outline of a sorted directory listing: one item per path,
    /// its last component as the key (the directory indicator appended on
    /// directories), its component count as the level.
    pub fn generate_outline(&self, paths: &Vec<Vec<String>>, is_dir: &Vec<bool>) -> (r: Outline)
        requires
            paths@.len() == is_dir@.len(),
            forall|i: int| 0 <= i < paths.deep_view().len() ==> (#[trigger] paths.deep_view()[
                i]).len() >= 1,
            forall|i: int| 0 <= i < paths.deep_view().len() ==> (#[trigger] paths.deep_view()[
                i]).len() <= u32::MAX,
        ensures
            r@.key_header == spec_comma_separated(
                match self.option.key_header {
                    Some(s) => Some(s@),
                    None => None,
                },
            ),
            r@.value_header.len() == 0,
            r@.items.len() == paths@.len(),
            forall|i: int|
                0 <= i < r@.items.len() ==> (#[trigger] r@.items[i]).level == (paths.deep_view()[
                    i]).len(),
            forall|i: int|
                0 <= i < r@.items.len() ==> (#[trigger] r@.items[i]).key == paths.deep_view()[i][(
                paths.deep_view()[i]).len() - 1] + (if is_dir@[i] {
                    match self.option.dir_indicator {
                        Some(d) => d@,
                        None => Seq::<char>::empty(),
                    }
                } else {
                    Seq::<char>::empty()
                }),
            forall|i: int| 0 <= i < r@.items.len() ==> (#[trigger] r@.items[i]).values.len() == 0,
    {
        let ghost pv = paths.deep_view();
        let mut outline = Outline::new();
        outline.key_header = crate::parser::simple_text::SimpleTextParserOptions::parse_comma_separated(
            &self.option.key_header,
        );
        let ghost ind: Seq<char> = match &self.option.dir_indicator {
            Some(d) => d@,
            None => Seq::empty(),
        };
        let mut i: usize = 0;
        while i < paths.len()
            invariant
                pv == paths.deep_view(),
                pv.len() == paths@.len(),
                paths@.len() == is_dir@.len(),
                forall|z: int| 0 <= z < pv.len() ==> (#[trigger] pv[z]).len() >= 1,
                forall|z: int| 0 <= z < pv.len() ==> (#[trigger] pv[z]).len() <= u32::MAX,
                i <= pv.len(),
                ind == (match self.option.dir_indicator {
                    Some(d) => d@,
                    None => Seq::<char>::empty(),
                }),
                outline@.key_header == spec_comma_separated(
                    match self.option.key_header {
                        Some(s) => Some(s@),
                        None => None,
                    },
                ),
                outline@.value_header.len() == 0,
                outline@.items.len() == i,
                forall|z: int|
                    0 <= z < i ==> (#[trigger] outline@.items[z]).level == (pv[z]).len(),
                forall|z: int|
                    0 <= z < i ==> (#[trigger] outline@.items[z]).key == pv[z][(pv[z]).len() - 1]
                        + (if is_dir@[z] {
                        ind
                    } else {
                        Seq::<char>::empty()
                    }),
                forall|z: int| 0 <= z < i ==> (#[trigger] outline@.items[z]).values.len() == 0,
            decreases pv.len() - i,
        {
            let path = &paths[i];
            proof {
                assert(pv[i as int].len() == path@.len());
                assert(pv[i as int].len() >= 1);
            }
            let last = path.len() - 1;
            proof {
                assert(pv[i as int][last as int] == path@[last as int]@);
            }
            let mut key: String = path[last].clone();
            if is_dir[i] {
                match &self.option.dir_indicator {
                    Some(d) => {
                        key.append(d.as_str());
                    },
                    None => {},
                }
            }
            proof {
                assert(key@ == pv[i as int][(pv[i as int]).len() - 1] + (if is_dir@[i as int] {
                    ind
                } else {
                    Seq::<char>::empty()
                }));
            }
            let level = path.len() as u32;
            let empty_vals: Vec<String> = Vec::new();
            proof {
                assert(empty_vals.deep_view() =~= Seq::<Seq<char>>::empty());
            }
            outline.add_item(key.as_str(), level, empty_vals);
            i = i + 1;
        }
        outline
    }
}

} // verus!
