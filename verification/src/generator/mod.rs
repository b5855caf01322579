//! Output generators: each turns an outline into a sheet of styled cell
//! writes, merge ranges and row groups ([`sheet::SheetOps`]), and can hand
//! that sheet to a spreadsheet worksheet.

use vstd::prelude::*;

pub mod base;
pub mod sheet;
pub mod xlsx_type0;
pub mod xlsx_type1;
pub mod xlsx_type2;
pub mod xlsx_type3;
pub mod xlsx_type4;
pub mod xlsx_type5;

use crate::generator::sheet::RowGroup;

verus! {

/// Which way key cells are merged, where a layout supports merging.
#[derive(Debug, Clone, Copy, PartialEq, Eq, Structural)]
pub enum IntegrateCellsOption {
    Colspan,
    Rowspan,
    Both,
}

/// The per-layout option records, one variant per generator.
#[derive(Debug, Clone)]
pub enum GeneratorOptions {
    XlsxType0(xlsx_type0::XlsxType0GeneratorOptions),
    XlsxType1(xlsx_type1::XlsxType1GeneratorOptions),
    XlsxType2(xlsx_type2::XlsxType2GeneratorOptions),
    XlsxType3(xlsx_type3::XlsxType3GeneratorOptions),
    XlsxType4(xlsx_type4::XlsxType4GeneratorOptions),
    XlsxType5(xlsx_type5::XlsxType5GeneratorOptions),
}

/// Concatenation of `f(0) + f(1) + ... + f(n - 1)`.
pub open spec fn concat_blocks<A>(f: spec_fn(int) -> Seq<A>, n: int) -> Seq<A>
    decreases n,
{
    if n <= 0 {
        Seq::empty()
    } else {
        concat_blocks(f, n - 1) + f(n - 1)
    }
}

/// The decimal digits of `n`, most significant first; empty for negatives.
pub open spec fn dec_str(n: int) -> Seq<char>
    decreases n,
{
    if n < 0 {
        Seq::empty()
    } else if n < 10 {
        seq![dec_digit(n)]
    } else {
        dec_str(n / 10) + seq![dec_digit(n % 10)]
    }
}

/// The character of one decimal digit.
pub open spec fn dec_digit(d: int) -> char {
    if d == 0 {
        '0'
    } else if d == 1 {
        '1'
    } else if d == 2 {
        '2'
    } else if d == 3 {
        '3'
    } else if d == 4 {
        '4'
    } else if d == 5 {
        '5'
    } else if d == 6 {
        '6'
    } else if d == 7 {
        '7'
    } else if d == 8 {
        '8'
    } else {
        '9'
    }
}

/// One decimal digit as a string slice.
fn dec_digit_str(d: u32) -> (r: &'static str)
    requires
        d < 10,
    ensures
        r@ == seq![dec_digit(d as int)],
{
    proof {
        reveal_strlit("0");
        reveal_strlit("1");
        reveal_strlit("2");
        reveal_strlit("3");
        reveal_strlit("4");
        reveal_strlit("5");
        reveal_strlit("6");
        reveal_strlit("7");
        reveal_strlit("8");
        reveal_strlit("9");
    }
    let r = if d == 0 {
        "0"
    } else if d == 1 {
        "1"
    } else if d == 2 {
        "2"
    } else if d == 3 {
        "3"
    } else if d == 4 {
        "4"
    } else if d == 5 {
        "5"
    } else if d == 6 {
        "6"
    } else if d == 7 {
        "7"
    } else {
        "9"
    };
    let r = if d == 8 {
        "8"
    } else {
        r
    };
    proof {
        assert(r@ =~= seq![dec_digit(d as int)]);
    }
    r
}

/// Renders `n` in decimal, as the spreadsheet shows an outline level.
pub fn u32_to_decimal(n: u32) -> (r: String)
    ensures
        r@ == dec_str(n as int),
    decreases n,
{
    if n < 10 {
        dec_digit_str(n).to_owned()
    } else {
        let mut s = u32_to_decimal(n / 10);
        s.append(dec_digit_str(n % 10));
        s
    }
}

/// The level of each item, in item order.
pub open spec fn item_levels(o: crate::outline::OutlineView) -> Seq<u32> {
    Seq::new(o.items.len(), |i: int| o.items[i].level)
}

/// The largest entry of a level sequence; 0 when it is empty.
pub open spec fn max_of_levels(arr: Seq<u32>, n: int) -> u32
    decreases n,
{
    if n <= 0 {
        0u32
    } else if arr[n - 1] >= max_of_levels(arr, n - 1) {
        arr[n - 1]
    } else {
        max_of_levels(arr, n - 1)
    }
}

/// The state-machine reading of interval detection, mirrored from the scan:
/// the maximal runs of positions at or above the threshold within
/// `arr[i..]`, given that a run currently open since `start` (if any).
pub open spec fn intervals_rec(arr: Seq<u32>, t: u32, i: int, start: Option<int>) -> Seq<
    (usize, usize),
>
    decreases arr.len() - i,
{
    if i < 0 || i >= arr.len() {
        match start {
            Some(s) => seq![(s as usize, (arr.len() - 1) as usize)],
            None => Seq::empty(),
        }
    } else if arr[i] >= t {
        intervals_rec(
            arr,
            t,
            i + 1,
            match start {
                Some(s) => Some(s),
                None => Some(i),
            },
        )
    } else {
        match start {
            Some(s) => seq![(s as usize, (i - 1) as usize)] + intervals_rec(arr, t, i + 1, None),
            None => intervals_rec(arr, t, i + 1, None),
        }
    }
}

/// The maximal inclusive index runs of `arr` whose entries are all at or
/// above `t`, in order.
pub open spec fn spec_find_intervals(arr: Seq<u32>, t: u32) -> Seq<(usize, usize)> {
    intervals_rec(arr, t, 0, None)
}

/// One interval list per threshold from 1 up to the largest level; the empty
/// sequence when every level is 0 or there are no levels.
pub open spec fn spec_find_intervals_hier(arr: Seq<u32>) -> Seq<Seq<(usize, usize)>> {
    let mx = max_of_levels(arr, arr.len() as int);
    if mx == 0 {
        Seq::empty()
    } else {
        Seq::new(mx as nat, |j: int| spec_find_intervals(arr, (j + 1) as u32))
    }
}

/// Scans for the maximal runs of positions whose level is at or above the
/// threshold.
pub(crate) fn find_intervals_impl(arr: &Vec<u32>, threshold: u32) -> (r: Vec<(usize, usize)>)
    ensures
        r@ == spec_find_intervals(arr@, threshold),
{
    let mut intervals: Vec<(usize, usize)> = Vec::new();
    let mut start: Option<usize> = None;
    let mut i: usize = 0;
    while i < arr.len()
        invariant
            i <= arr@.len(),
            match start {
                Some(s) => s < i && spec_find_intervals(arr@, threshold) == intervals@
                    + intervals_rec(arr@, threshold, i as int, Some(s as int)),
                None => spec_find_intervals(arr@, threshold) == intervals@ + intervals_rec(
                    arr@,
                    threshold,
                    i as int,
                    None,
                ),
            },
        decreases arr@.len() - i,
    {
        let v = arr[i];
        if v >= threshold {
            if start.is_none() {
                start = Some(i);
            }
        } else if let Some(s) = start {
            let ghost pre = intervals@;
            intervals.push((s, i - 1));
            start = None;
            proof {
                assert(intervals@ =~= pre + seq![(s, (i - 1) as usize)]);
                assert(pre + (seq![(s, (i - 1) as usize)] + intervals_rec(
                    arr@,
                    threshold,
                    i as int + 1,
                    None,
                )) =~= intervals@ + intervals_rec(arr@, threshold, i as int + 1, None));
            }
        }
        i = i + 1;
    }
    if let Some(s) = start {
        let ghost pre = intervals@;
        let last = arr.len() - 1;
        intervals.push((s, last));
        proof {
            assert(intervals@ =~= pre + seq![(s, (arr@.len() - 1) as usize)]);
        }
    }
    proof {
        assert(spec_find_intervals(arr@, threshold) =~= intervals@);
    }
    intervals
}

/// Computes the per-threshold interval lists of
/// [`spec_find_intervals_hier`].
pub(crate) fn find_intervals_hier_impl(arr: &Vec<u32>) -> (r: Vec<Vec<(usize, usize)>>)
    ensures
        r@.len() == spec_find_intervals_hier(arr@).len(),
        forall|j: int|
            0 <= j < r@.len() ==> (#[trigger] r@[j])@ == spec_find_intervals_hier(arr@)[j],
{
    let mut mx: u32 = 0;
    let mut i: usize = 0;
    while i < arr.len()
        invariant
            i <= arr@.len(),
            mx == max_of_levels(arr@, i as int),
        decreases arr@.len() - i,
    {
        let v = arr[i];
        if v >= mx {
            mx = v;
        }
        i = i + 1;
    }
    let mut r: Vec<Vec<(usize, usize)>> = Vec::new();
    if mx == 0 {
        return r;
    }
    let mut t: u64 = 1;
    while t <= mx as u64
        invariant
            1 <= t,
            t <= mx as u64 + 1,
            mx == max_of_levels(arr@, arr@.len() as int),
            mx >= 1,
            r@.len() == t - 1,
            forall|j: int|
                0 <= j < r@.len() ==> (#[trigger] r@[j])@ == spec_find_intervals(
                    arr@,
                    (j + 1) as u32,
                ),
        decreases mx as int + 1 - t,
    {
        r.push(find_intervals_impl(arr, t as u32));
        t = t + 1;
    }
    r
}

/// The row groups a generator emits for one level sequence: every interval of
/// every threshold above 1, offset to the first data row.
pub open spec fn spec_row_groups(arr: Seq<u32>, first_row: int) -> Seq<RowGroup> {
    let hier = spec_find_intervals_hier(arr);
    concat_blocks(
        |j: int|
            if j == 0 {
                Seq::<RowGroup>::empty()
            } else {
                Seq::new(
                    hier[j].len(),
                    |x: int|
                        RowGroup {
                            first_row: (hier[j][x].0 + first_row) as u32,
                            last_row: (hier[j][x].1 + first_row) as u32,
                        },
                )
            },
        hier.len() as int,
    )
}

/// Computes [`spec_row_groups`] for the level sequence of an outline.
pub(crate) fn row_groups_impl(arr: &Vec<u32>, first_row: u32) -> (r: Vec<RowGroup>)
    requires
        arr@.len() + first_row <= u32::MAX,
    ensures
        r@ == spec_row_groups(arr@, first_row as int),
{
    let hier = find_intervals_hier_impl(arr);
    let ghost spec_hier = spec_find_intervals_hier(arr@);
    let ghost f = |j: int|
        if j == 0 {
            Seq::<RowGroup>::empty()
        } else {
            Seq::new(
                spec_hier[j].len(),
                |x: int|
                    RowGroup {
                        first_row: (spec_hier[j][x].0 + first_row) as u32,
                        last_row: (spec_hier[j][x].1 + first_row) as u32,
                    },
            )
        };
    let mut r: Vec<RowGroup> = Vec::new();
    let mut j: usize = 0;
    proof {
        lemma_intervals_bounded(arr@, spec_hier);
    }
    while j < hier.len()
        invariant
            j <= hier@.len(),
            hier@.len() == spec_hier.len(),
            arr@.len() + first_row <= u32::MAX,
            forall|jj: int|
                0 <= jj < hier@.len() ==> (#[trigger] hier@[jj])@ == spec_hier[jj],
            forall|jj: int, x: int|
                0 <= jj < spec_hier.len() && 0 <= x < spec_hier[jj].len() ==> ((
                #[trigger] spec_hier[jj][x]).0 <= spec_hier[jj][x].1 && spec_hier[jj][x].1
                    < arr@.len()),
            f == (|jj: int|
                if jj == 0 {
                    Seq::<RowGroup>::empty()
                } else {
                    Seq::new(
                        spec_hier[jj].len(),
                        |x: int|
                            RowGroup {
                                first_row: (spec_hier[jj][x].0 + first_row) as u32,
                                last_row: (spec_hier[jj][x].1 + first_row) as u32,
                            },
                    )
                }),
            r@ == concat_blocks(f, j as int),
        decreases hier@.len() - j,
    {
        if j > 0 {
            let v = &hier[j];
            let mut x: usize = 0;
            let ghost pre = r@;
            while x < v.len()
                invariant
                    x <= v@.len(),
                    0 < j < hier@.len(),
                    hier@.len() == spec_hier.len(),
                    arr@.len() + first_row <= u32::MAX,
                    v@ == spec_hier[j as int],
                    forall|xx: int|
                        0 <= xx < spec_hier[j as int].len() ==> ((#[trigger] spec_hier[j as int][xx]).0
                            <= spec_hier[j as int][xx].1 && spec_hier[j as int][xx].1
                            < arr@.len()),
                    r@.len() == pre.len() + x,
                    forall|y: int| 0 <= y < pre.len() ==> #[trigger] r@[y] == pre[y],
                    forall|y: int|
                        0 <= y < x ==> #[trigger] r@[pre.len() + y] == (RowGroup {
                            first_row: (spec_hier[j as int][y].0 + first_row) as u32,
                            last_row: (spec_hier[j as int][y].1 + first_row) as u32,
                        }),
                decreases v@.len() - x,
            {
                let (a, b) = v[x];
                r.push(RowGroup { first_row: a as u32 + first_row, last_row: b as u32 + first_row });
                x = x + 1;
            }
            proof {
                let blk = Seq::new(
                    spec_hier[j as int].len(),
                    |x: int|
                        RowGroup {
                            first_row: (spec_hier[j as int][x].0 + first_row) as u32,
                            last_row: (spec_hier[j as int][x].1 + first_row) as u32,
                        },
                );
                assert(f(j as int) == blk);
                let target = pre + blk;
                assert(r@.len() == target.len());
                assert forall|k: int| 0 <= k < r@.len() implies r@[k] == target[k] by {
                    if k < pre.len() {
                        assert(r@[k] == pre[k]);
                    } else {
                        assert(r@[pre.len() + (k - pre.len())] == (RowGroup {
                            first_row: (spec_hier[j as int][k - pre.len()].0 + first_row) as u32,
                            last_row: (spec_hier[j as int][k - pre.len()].1 + first_row) as u32,
                        }));
                    }
                }
                assert(r@ =~= target);
            }
        } else {
            proof {
                assert(f(0) == Seq::<RowGroup>::empty());
                assert(r@ =~= r@ + f(0));
            }
        }
        j = j + 1;
    }
    proof {
        assert(r@ == concat_blocks(f, spec_hier.len() as int));
        lemma_concat_blocks_ext(
            f,
            |jj: int|
                if jj == 0 {
                    Seq::<RowGroup>::empty()
                } else {
                    Seq::new(
                        spec_hier[jj].len(),
                        |x: int|
                            RowGroup {
                                first_row: (spec_hier[jj][x].0 + first_row) as u32,
                                last_row: (spec_hier[jj][x].1 + first_row) as u32,
                            },
                    )
                },
            spec_hier.len() as int,
        );
    }
    r
}

/// Entries of an interval list are ordered pairs inside the array.
pub open spec fn iv_bounded(arr: Seq<u32>, iv: Seq<(usize, usize)>) -> bool {
    forall|x: int| 0 <= x < iv.len() ==> ((#[trigger] iv[x]).0 <= iv[x].1 && iv[x].1 < arr.len())
}

/// Every interval of every threshold stays within the level sequence.
proof fn lemma_intervals_bounded(arr: Seq<u32>, hier: Seq<Seq<(usize, usize)>>)
    requires
        hier == spec_find_intervals_hier(arr),
        arr.len() <= usize::MAX,
    ensures
        forall|j: int, x: int|
            0 <= j < hier.len() && 0 <= x < hier[j].len() ==> ((#[trigger] hier[j][x]).0
                <= hier[j][x].1 && hier[j][x].1 < arr.len()),
{
    assert forall|j: int, x: int|
        0 <= j < hier.len() && 0 <= x < hier[j].len() implies ((#[trigger] hier[j][x]).0
        <= hier[j][x].1 && hier[j][x].1 < arr.len()) by {
        lemma_intervals_rec_bounded(arr, (j + 1) as u32, 0, None);
        assert(iv_bounded(arr, hier[j]));
        assert(hier[j][x].0 <= hier[j][x].1 && hier[j][x].1 < arr.len());
    }
}

/// Bounds of [`intervals_rec`]: entries are ordered pairs inside the array.
proof fn lemma_intervals_rec_bounded(arr: Seq<u32>, t: u32, i: int, start: Option<int>)
    requires
        arr.len() <= usize::MAX,
        0 <= i <= arr.len(),
        match start {
            Some(s) => 0 <= s < i && i >= 1,
            None => true,
        },
    ensures
        iv_bounded(arr, intervals_rec(arr, t, i, start)),
    decreases arr.len() - i,
{
    let res = intervals_rec(arr, t, i, start);
    if i >= arr.len() {
        match start {
            Some(s) => {
                assert(res =~= seq![(s as usize, (arr.len() - 1) as usize)]);
                assert forall|x: int| 0 <= x < res.len() implies ((#[trigger] res[x]).0
                    <= res[x].1 && res[x].1 < arr.len()) by {
                    assert(res[0] == (s as usize, (arr.len() - 1) as usize));
                }
            },
            None => {
                assert(res =~= Seq::<(usize, usize)>::empty());
            },
        }
    } else if arr[i] >= t {
        match start {
            Some(s) => lemma_intervals_rec_bounded(arr, t, i + 1, Some(s)),
            None => lemma_intervals_rec_bounded(arr, t, i + 1, Some(i)),
        }
    } else {
        lemma_intervals_rec_bounded(arr, t, i + 1, None);
        match start {
            Some(s) => {
                let rest = intervals_rec(arr, t, i + 1, None);
                assert(res =~= seq![(s as usize, (i - 1) as usize)] + rest);
                assert forall|x: int| 0 <= x < res.len() implies ((#[trigger] res[x]).0
                    <= res[x].1 && res[x].1 < arr.len()) by {
                    if x == 0 {
                        assert(res[0] == (s as usize, (i - 1) as usize));
                    } else {
                        assert(res[x] == rest[x - 1]);
                        assert(rest[x - 1].0 <= rest[x - 1].1 && rest[x - 1].1 < arr.len());
                    }
                }
            },
            None => {},
        }
    }
}

/// The interval finder lists exactly the maximal runs: every listed interval
/// is an ordered pair inside the array whose positions all reach the
/// threshold and whose neighbours on both sides do not, every qualifying
/// position lies in some listed interval, and consecutive intervals are
/// separated by at least one position below the threshold.
pub proof fn lemma_find_intervals_exact(arr: Seq<u32>, t: u32)
    requires
        arr.len() <= usize::MAX,
    ensures
        ({
            let iv = spec_find_intervals(arr, t);
            &&& forall|k: int|
                0 <= k < iv.len() ==> ((#[trigger] iv[k]).0 <= iv[k].1 && iv[k].1 < arr.len())
            &&& forall|k: int, m: int|
                #![trigger iv[k], arr[m]]
                0 <= k < iv.len() && iv[k].0 <= m <= iv[k].1 ==> arr[m] >= t
            &&& forall|m: int|
                0 <= m < arr.len() && (#[trigger] arr[m]) >= t ==> exists|k: int|
                    0 <= k < iv.len() && (#[trigger] iv[k]).0 <= m <= iv[k].1
            &&& forall|k: int| 0 <= k < iv.len() - 1 ==> (#[trigger] iv[k]).1 + 1 < iv[k + 1].0
            &&& forall|k: int|
                0 <= k < iv.len() ==> ((#[trigger] iv[k]).0 == 0 || arr[iv[k].0 - 1] < t)
            &&& forall|k: int|
                0 <= k < iv.len() ==> ((#[trigger] iv[k]).1 == arr.len() - 1 || arr[iv[k].1 + 1]
                    < t)
        }),
{
    lemma_intervals_rec_exact(arr, t, 0, None);
    let iv = spec_find_intervals(arr, t);
    assert(iv == intervals_rec(arr, t, 0, None));
    assert forall|m: int|
        0 <= m < arr.len() && (#[trigger] arr[m]) >= t implies exists|k: int|
        0 <= k < iv.len() && (#[trigger] iv[k]).0 <= m <= iv[k].1 by {
        let k = choose|k: int|
            0 <= k < intervals_rec(arr, t, 0, None).len() && (#[trigger] intervals_rec(
                arr,
                t,
                0,
                None,
            )[k]).0 <= m <= intervals_rec(arr, t, 0, None)[k].1;
        assert(iv[k].0 <= m <= iv[k].1);
    }
}

/// The inductive heart of [`lemma_find_intervals_exact`], generalized over
/// the scan position and the open run.
proof fn lemma_intervals_rec_exact(arr: Seq<u32>, t: u32, i: int, start: Option<int>)
    requires
        arr.len() <= usize::MAX,
        0 <= i <= arr.len(),
        match start {
            Some(s) => 0 <= s < i && (forall|m: int| s <= m < i ==> (#[trigger] arr[m]) >= t) && (
            s == 0 || arr[s - 1] < t),
            None => i == 0 || arr[i - 1] < t,
        },
    ensures
        ({
            let iv = intervals_rec(arr, t, i, start);
            let lo = match start {
                Some(s) => s,
                None => i,
            };
            &&& forall|k: int|
                0 <= k < iv.len() ==> ((#[trigger] iv[k]).0 <= iv[k].1 && iv[k].1 < arr.len())
            &&& forall|k: int| 0 <= k < iv.len() ==> (#[trigger] iv[k]).0 >= lo
            &&& forall|k: int, m: int|
                #![trigger iv[k], arr[m]]
                0 <= k < iv.len() && iv[k].0 <= m <= iv[k].1 ==> arr[m] >= t
            &&& forall|m: int|
                lo <= m < arr.len() && (#[trigger] arr[m]) >= t ==> exists|k: int|
                    0 <= k < iv.len() && (#[trigger] iv[k]).0 <= m <= iv[k].1
            &&& forall|k: int| 0 <= k < iv.len() - 1 ==> (#[trigger] iv[k]).1 + 1 < iv[k + 1].0
            &&& forall|k: int|
                0 <= k < iv.len() ==> ((#[trigger] iv[k]).0 == 0 || arr[iv[k].0 - 1] < t)
            &&& forall|k: int|
                0 <= k < iv.len() ==> ((#[trigger] iv[k]).1 == arr.len() - 1 || arr[iv[k].1 + 1]
                    < t)
        }),
    decreases arr.len() - i,
{
    let iv = intervals_rec(arr, t, i, start);
    if i >= arr.len() {
        match start {
            Some(s) => {
                assert(iv =~= seq![(s as usize, (arr.len() - 1) as usize)]);
                assert forall|m: int|
                    s <= m < arr.len() && (#[trigger] arr[m]) >= t implies exists|k: int|
                    0 <= k < iv.len() && (#[trigger] iv[k]).0 <= m <= iv[k].1 by {
                    assert(iv[0].0 <= m <= iv[0].1);
                }
            },
            None => {
                assert(iv =~= Seq::<(usize, usize)>::empty());
            },
        }
    } else if arr[i] >= t {
        match start {
            Some(s) => {
                lemma_intervals_rec_exact(arr, t, i + 1, Some(s));
            },
            None => {
                lemma_intervals_rec_exact(arr, t, i + 1, Some(i));
                let ivr = intervals_rec(arr, t, i + 1, Some(i));
                assert(iv == ivr);
                assert forall|m: int|
                    i <= m < arr.len() && (#[trigger] arr[m]) >= t implies exists|k: int|
                    0 <= k < iv.len() && (#[trigger] iv[k]).0 <= m <= iv[k].1 by {}
            },
        }
    } else {
        lemma_intervals_rec_exact(arr, t, i + 1, None);
        let ivr = intervals_rec(arr, t, i + 1, None);
        match start {
            Some(s) => {
                let head = (s as usize, (i - 1) as usize);
                assert(iv =~= seq![head] + ivr);
                assert(iv[0] == head);
                assert forall|k: int| 1 <= k < iv.len() implies #[trigger] iv[k] == ivr[k - 1] by {}
                assert forall|k: int|
                    0 <= k < iv.len() implies ((#[trigger] iv[k]).0 <= iv[k].1 && iv[k].1
                    < arr.len() && iv[k].0 >= s) by {
                    if k >= 1 {
                        assert(iv[k] == ivr[k - 1]);
                        assert(ivr[k - 1].0 >= i + 1);
                    }
                }
                assert forall|k: int, m: int|
                    #![trigger iv[k], arr[m]]
                    0 <= k < iv.len() && iv[k].0 <= m <= iv[k].1 implies arr[m] >= t by {
                    if k == 0 {
                        assert(s <= m < i);
                    } else {
                        assert(iv[k] == ivr[k - 1]);
                        assert(ivr[k - 1].0 <= m <= ivr[k - 1].1);
                    }
                }
                assert forall|m: int|
                    s <= m < arr.len() && (#[trigger] arr[m]) >= t implies exists|k: int|
                    0 <= k < iv.len() && (#[trigger] iv[k]).0 <= m <= iv[k].1 by {
                    if m < i {
                        assert(iv[0].0 <= m <= iv[0].1);
                    } else {
                        assert(m > i);
                        let k = choose|k: int|
                            0 <= k < ivr.len() && (#[trigger] ivr[k]).0 <= m <= ivr[k].1;
                        assert(iv[k + 1] == ivr[k]);
                        assert(iv[k + 1].0 <= m <= iv[k + 1].1);
                    }
                }
                assert forall|k: int|
                    0 <= k < iv.len() - 1 implies (#[trigger] iv[k]).1 + 1 < iv[k + 1].0 by {
                    if k == 0 {
                        assert(iv[1] == ivr[0]);
                        assert(ivr[0].0 >= i + 1);
                    } else {
                        assert(iv[k] == ivr[k - 1]);
                        assert(iv[k + 1] == ivr[k]);
                    }
                }
                assert forall|k: int|
                    0 <= k < iv.len() implies ((#[trigger] iv[k]).0 == 0 || arr[iv[k].0 - 1]
                    < t) by {
                    if k >= 1 {
                        assert(iv[k] == ivr[k - 1]);
                    }
                }
                assert forall|k: int|
                    0 <= k < iv.len() implies ((#[trigger] iv[k]).1 == arr.len() - 1 || arr[iv[k].1
                    + 1] < t) by {
                    if k == 0 {
                        assert(arr[i] < t);
                    } else {
                        assert(iv[k] == ivr[k - 1]);
                    }
                }
            },
            None => {
                assert(iv == ivr);
            },
        }
    }
}

/// Pointwise-equal block functions concatenate to the same sequence.
proof fn lemma_concat_blocks_ext<A>(f: spec_fn(int) -> Seq<A>, g: spec_fn(int) -> Seq<A>, n: int)
    requires
        forall|j: int| 0 <= j < n ==> #[trigger] f(j) == g(j),
    ensures
        concat_blocks(f, n) == concat_blocks(g, n),
    decreases n,
{
    if n > 0 {
        lemma_concat_blocks_ext(f, g, n - 1);
    }
}

} // verus!
