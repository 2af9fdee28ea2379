//! The rotation engine.
//!
//! For every group whose primary file strictly exceeds the size
//! threshold, the engine shifts each present generation up by one index,
//! highest first: the generation at the retention ceiling is deleted
//! outright, every other generation `N` is copied to `N + 1` and then
//! truncated to empty, and the primary file (generation 0) is copied to
//! generation 1 and truncated. Copy-then-truncate keeps every filename
//! at its original path. The engine only decides: it returns the exact
//! sequence of filesystem actions, and the caller carries them out in
//! order, aborting on the first failure.

use vstd::prelude::*;
use crate::errors::Error;
use crate::groups::{build_groups, entry_views, scan_spec, GroupView, Groups, ScanEntry};
use crate::names::{file_name_spec, make_file_name};

verus! {

/// One filesystem action of a rotation plan. Filenames are relative to
/// the log directory.
#[derive(Debug, PartialEq, Eq)]
pub enum FileOp {
    /// Delete the file.
    Remove(Vec<u8>),
    /// Copy the first file's contents over the second, creating it if absent.
    CopyTo(Vec<u8>, Vec<u8>),
    /// Overwrite the file with zero bytes, keeping it at its path.
    Truncate(Vec<u8>),
}

/// A rotation action as the contracts see it.
pub enum OpView {
    Remove(Seq<u8>),
    CopyTo(Seq<u8>, Seq<u8>),
    Truncate(Seq<u8>),
}

impl View for FileOp {
    type V = OpView;

    open spec fn view(&self) -> OpView {
        match self {
            FileOp::Remove(p) => OpView::Remove(p@),
            FileOp::CopyTo(f, t) => OpView::CopyTo(f@, t@),
            FileOp::Truncate(p) => OpView::Truncate(p@),
        }
    }
}

/// The actions of a sequence of plan steps.
pub open spec fn op_views(s: Seq<FileOp>) -> Seq<OpView> {
    s.map(|i: int, op: FileOp| op@)
}

/// `x` inserted before the first element it does not exceed.
pub open spec fn insert_sorted(x: u8, s: Seq<u8>) -> Seq<u8>
    decreases s.len(),
{
    if s.len() == 0 {
        seq![x]
    } else if x <= s[0] {
        seq![x] + s
    } else {
        seq![s[0]] + insert_sorted(x, s.drop_first())
    }
}

/// The ascending insertion sort of `s`.
pub open spec fn sort_spec(s: Seq<u8>) -> Seq<u8>
    decreases s.len(),
{
    if s.len() == 0 {
        s
    } else {
        insert_sorted(s.last(), sort_spec(s.drop_last()))
    }
}

/// `insert_sorted` splits the sequence at the first position whose
/// element is not below `x`.
proof fn lemma_insert_at(x: u8, s: Seq<u8>, p: int)
    requires
        0 <= p <= s.len(),
        forall|i: int| 0 <= i < p ==> s[i] < x,
        p < s.len() ==> x <= s[p],
    ensures
        insert_sorted(x, s) == s.subrange(0, p) + seq![x] + s.subrange(p, s.len() as int),
    decreases p,
{
    if p == 0 {
        if s.len() == 0 {
            assert(insert_sorted(x, s) =~= s.subrange(0, 0) + seq![x] + s.subrange(0, 0));
        } else {
            assert(insert_sorted(x, s) =~= s.subrange(0, 0) + seq![x] + s.subrange(
                0,
                s.len() as int,
            ));
        }
    } else {
        let tail = s.drop_first();
        assert(forall|i: int| 0 <= i < p - 1 ==> tail[i] == s[i + 1]);
        lemma_insert_at(x, tail, p - 1);
        assert(insert_sorted(x, s) =~= s.subrange(0, p) + seq![x] + s.subrange(
            p,
            s.len() as int,
        ));
    }
}

/// Is `s` ascending?
pub open spec fn sorted_asc(s: Seq<u8>) -> bool {
    forall|i: int, j: int| 0 <= i <= j < s.len() ==> s[i] <= s[j]
}

/// The first position of `s` whose element is not below `x`.
spec fn split_point(x: u8, s: Seq<u8>) -> int
    decreases s.len(),
{
    if s.len() == 0 {
        0
    } else if x <= s[0] {
        0
    } else {
        1 + split_point(x, s.drop_first())
    }
}

/// Everything before the split point is below `x`, and the element at it,
/// if any, is not.
proof fn lemma_split_point(x: u8, s: Seq<u8>)
    ensures
        ({
            let p = split_point(x, s);
            &&& 0 <= p <= s.len()
            &&& forall|i: int| 0 <= i < p ==> s[i] < x
            &&& p < s.len() ==> x <= s[p]
        }),
    decreases s.len(),
{
    if s.len() > 0 && !(x <= s[0]) {
        let tail = s.drop_first();
        lemma_split_point(x, tail);
        let pt = split_point(x, tail);
        assert forall|i: int| 0 <= i < pt + 1 implies s[i] < x by {
            if i > 0 {
                assert(tail[i - 1] == s[i]);
            }
        }
        if pt + 1 < s.len() {
            assert(s[pt + 1] == tail[pt]);
        }
    }
}

/// Inserting into an ascending sequence keeps it ascending and adds
/// exactly the inserted element.
proof fn lemma_insert_sorted_ensures(x: u8, s: Seq<u8>)
    requires
        sorted_asc(s),
    ensures
        sorted_asc(insert_sorted(x, s)),
        insert_sorted(x, s).to_multiset() == s.to_multiset().insert(x),
{
    let p = split_point(x, s);
    lemma_split_point(x, s);
    lemma_insert_at(x, s, p);
    let r = insert_sorted(x, s);
    assert(r =~= s.insert(p, x));
    vstd::seq_lib::to_multiset_insert(s, p, x);
    assert forall|i: int, j: int| 0 <= i <= j < r.len() implies r[i] <= r[j] by {
        assert(r.len() == s.len() + 1);
        assert(i < p ==> r[i] == s[i]);
        assert(i == p ==> r[i] == x);
        assert(i > p ==> r[i] == s[i - 1]);
        assert(j < p ==> r[j] == s[j]);
        assert(j == p ==> r[j] == x);
        assert(j > p ==> r[j] == s[j - 1]);
    }
}

/// Law: sorting the generation numbers yields an ascending permutation
/// of them.
pub proof fn lemma_sort_spec_sorts(s: Seq<u8>)
    ensures
        sorted_asc(sort_spec(s)),
        sort_spec(s).to_multiset() == s.to_multiset(),
    decreases s.len(),
{
    if s.len() > 0 {
        lemma_sort_spec_sorts(s.drop_last());
        lemma_insert_sorted_ensures(s.last(), sort_spec(s.drop_last()));
        assert(s.drop_last().push(s.last()) =~= s);
        vstd::seq_lib::to_multiset_build(s.drop_last(), s.last());
    }
}

/// Inserts `x` into the ascending sequence `v`, as `insert_sorted` says.
#[verifier::loop_isolation(false)]
fn insert_into_sorted(v: &Vec<u8>, x: u8) -> (r: Vec<u8>)
    ensures
        r@ == insert_sorted(x, v@),
{
    let n = v.len();
    let mut p: usize = 0;
    while p < n && v[p] < x
        invariant
            0 <= p <= n,
            forall|i: int| 0 <= i < p ==> v@[i] < x,
        decreases n - p,
    {
        p = p + 1;
    }
    let mut r: Vec<u8> = Vec::new();
    let mut k: usize = 0;
    while k < p
        invariant
            0 <= k <= p,
            r@ =~= v@.subrange(0, k as int),
        decreases p - k,
    {
        r.push(v[k]);
        assert(r@ =~= v@.subrange(0, k + 1 as int));
        k = k + 1;
    }
    r.push(x);
    let mut m: usize = p;
    while m < n
        invariant
            p <= m <= n,
            r@ =~= v@.subrange(0, p as int) + seq![x] + v@.subrange(p as int, m as int),
        decreases n - m,
    {
        r.push(v[m]);
        assert(r@ =~= v@.subrange(0, p as int) + seq![x] + v@.subrange(p as int, m + 1 as int));
        m = m + 1;
    }
    proof {
        lemma_insert_at(x, v@, p as int);
    }
    r
}

/// Sorts the generation numbers ascending.
#[verifier::loop_isolation(false)]
fn sort_numbers(v: &Vec<u8>) -> (r: Vec<u8>)
    ensures
        r@ == sort_spec(v@),
{
    let mut r: Vec<u8> = Vec::new();
    assert(v@.subrange(0, 0) =~= Seq::<u8>::empty());
    let n = v.len();
    let mut k: usize = 0;
    while k < n
        invariant
            0 <= k <= n,
            r@ == sort_spec(v@.subrange(0, k as int)),
        decreases n - k,
    {
        r = insert_into_sorted(&r, v[k]);
        proof {
            let pre = v@.subrange(0, k + 1 as int);
            assert(pre.drop_last() =~= v@.subrange(0, k as int));
            assert(pre.last() == v@[k as int]);
        }
        k = k + 1;
    }
    assert(v@.subrange(0, n as int) =~= v@);
    r
}

/// The actions that rotate one generation: delete it at the retention
/// ceiling, copy the primary file to generation 1 and truncate it, and
/// copy any other generation `n` to `n + 1` and truncate it.
pub open spec fn ops_for_number(base: Seq<u8>, n: u8, ceiling: u8) -> Seq<OpView> {
    if n == ceiling {
        seq![OpView::Remove(file_name_spec(base, n as int))]
    } else if n == 0 {
        seq![
            OpView::CopyTo(file_name_spec(base, 0), file_name_spec(base, 1)),
            OpView::Truncate(file_name_spec(base, 0)),
        ]
    } else {
        seq![
            OpView::CopyTo(file_name_spec(base, n as int), file_name_spec(base, n as int + 1)),
            OpView::Truncate(file_name_spec(base, n as int)),
        ]
    }
}

/// The actions for the generations at indices `hi - 1` down to `lo` of
/// `nums`, in that (descending) order.
pub open spec fn shift_range(base: Seq<u8>, nums: Seq<u8>, hi: int, lo: int, ceiling: u8) -> Seq<
    OpView,
>
    decreases hi - lo,
{
    if hi <= lo {
        Seq::<OpView>::empty()
    } else {
        ops_for_number(base, nums[hi - 1], ceiling) + shift_range(base, nums, hi - 1, lo, ceiling)
    }
}

/// All actions that rotate a group whose sorted generations are `nums`:
/// highest generation first, so that no file is overwritten before it
/// has been relocated.
pub open spec fn shift_ops(base: Seq<u8>, nums: Seq<u8>, ceiling: u8) -> Seq<OpView> {
    shift_range(base, nums, nums.len() as int, 0, ceiling)
}

/// Peeling the lowest index off a descending range appends its actions.
proof fn lemma_shift_range_snoc(base: Seq<u8>, nums: Seq<u8>, hi: int, lo: int, ceiling: u8)
    requires
        0 <= lo < hi <= nums.len(),
    ensures
        shift_range(base, nums, hi, lo, ceiling) == shift_range(base, nums, hi, lo + 1, ceiling)
            + ops_for_number(base, nums[lo], ceiling),
    decreases hi - lo,
{
    if lo + 1 == hi {
        assert(shift_range(base, nums, lo, lo, ceiling) == Seq::<OpView>::empty());
        assert(shift_range(base, nums, hi, lo + 1, ceiling) == Seq::<OpView>::empty());
        assert(shift_range(base, nums, hi, lo, ceiling) =~= shift_range(base, nums, hi, lo + 1, ceiling)
            + ops_for_number(base, nums[lo], ceiling));
    } else {
        lemma_shift_range_snoc(base, nums, hi - 1, lo, ceiling);
        assert(shift_range(base, nums, hi, lo, ceiling) == ops_for_number(base, nums[hi - 1], ceiling)
            + shift_range(base, nums, hi - 1, lo, ceiling));
        assert(shift_range(base, nums, hi, lo + 1, ceiling) == ops_for_number(
            base,
            nums[hi - 1],
            ceiling,
        ) + shift_range(base, nums, hi - 1, lo + 1, ceiling));
        assert(shift_range(base, nums, hi, lo, ceiling) =~= shift_range(base, nums, hi, lo + 1, ceiling)
            + ops_for_number(base, nums[lo], ceiling));
    }
}

/// The rotation plan of one group: nothing unless its primary file
/// strictly exceeds `max_size`; otherwise its generations, sorted and
/// taken highest first, are each shifted up by one.
pub open spec fn group_plan(g: GroupView, max_size: u64, ceiling: u8) -> Seq<OpView> {
    if g.main_size > max_size {
        shift_ops(g.base, sort_spec(g.numbers), ceiling)
    } else {
        Seq::<OpView>::empty()
    }
}

/// The rotation plan of a whole scan: each group's plan in order.
pub open spec fn full_plan(gs: Seq<GroupView>, max_size: u64, ceiling: u8) -> Seq<OpView>
    decreases gs.len(),
{
    if gs.len() == 0 {
        Seq::<OpView>::empty()
    } else {
        full_plan(gs.drop_last(), max_size, ceiling) + group_plan(gs.last(), max_size, ceiling)
    }
}

/// Appends the actions that rotate generation `num` of group `base`.
fn push_ops_for(r: &mut Vec<FileOp>, base: &Vec<u8>, num: u8, ceiling: u8)
    ensures
        op_views(final(r)@) == op_views(old(r)@) + ops_for_number(base@, num, ceiling),
{
    let ghost r0 = old(r)@;
    if num == ceiling {
        r.push(FileOp::Remove(make_file_name(base.as_slice(), num as u16)));
    } else if num == 0 {
        r.push(
            FileOp::CopyTo(make_file_name(base.as_slice(), 0), make_file_name(base.as_slice(), 1)),
        );
        r.push(FileOp::Truncate(make_file_name(base.as_slice(), 0)));
    } else {
        r.push(
            FileOp::CopyTo(
                make_file_name(base.as_slice(), num as u16),
                make_file_name(base.as_slice(), num as u16 + 1),
            ),
        );
        r.push(FileOp::Truncate(make_file_name(base.as_slice(), num as u16)));
    }
    proof {
        assert(op_views(r@) =~= op_views(r0) + ops_for_number(base@, num, ceiling));
    }
}

/// Computes the rotation plan of the scanned groups: exactly
/// `full_plan`, group by group in first-seen order.
#[verifier::loop_isolation(false)]
pub fn plan_rotation(groups: &Groups, max_size: u64, max_generation: u8) -> (r: Vec<FileOp>)
    ensures
        op_views(r@) == full_plan(groups@, max_size, max_generation),
{
    let mut r: Vec<FileOp> = Vec::new();
    assert(op_views(r@) =~= full_plan(groups@.subrange(0, 0), max_size, max_generation));
    let gn = groups.len();
    let mut gi: usize = 0;
    while gi < gn
        invariant
            0 <= gi <= gn,
            op_views(r@) == full_plan(groups@.subrange(0, gi as int), max_size, max_generation),
        decreases gn - gi,
    {
        let ghost done = groups@.subrange(0, gi as int);
        let ghost g = groups@[gi as int];
        let size = groups.size_at(gi);
        if size > max_size {
            let sorted = sort_numbers(groups.numbers_at(gi));
            let base = groups.base_at(gi);
            let sn = sorted.len();
            proof {
                assert(shift_range(g.base, sorted@, sn as int, sn as int, max_generation)
                    == Seq::<OpView>::empty());
                assert(op_views(r@) =~= full_plan(done, max_size, max_generation) + shift_range(
                    g.base,
                    sorted@,
                    sn as int,
                    sn as int,
                    max_generation,
                ));
            }
            let mut k: usize = sn;
            while k > 0
                invariant
                    0 <= k <= sn,
                    sn == sorted@.len(),
                    sorted@ == sort_spec(g.numbers),
                    base@ == g.base,
                    op_views(r@) == full_plan(done, max_size, max_generation) + shift_range(
                        g.base,
                        sorted@,
                        sn as int,
                        k as int,
                        max_generation,
                    ),
                decreases k,
            {
                k = k - 1;
                let num = sorted[k];
                push_ops_for(&mut r, base, num, max_generation);
                proof {
                    lemma_shift_range_snoc(g.base, sorted@, sn as int, k as int, max_generation);
                    assert(op_views(r@) =~= full_plan(done, max_size, max_generation)
                        + shift_range(g.base, sorted@, sn as int, k as int, max_generation));
                }
            }
            proof {
                let ext = groups@.subrange(0, gi as int + 1);
                assert(ext.drop_last() =~= done);
                assert(ext.last() == g);
                assert(op_views(r@) =~= full_plan(ext, max_size, max_generation));
            }
        } else {
            proof {
                let ext = groups@.subrange(0, gi as int + 1);
                assert(ext.drop_last() =~= done);
                assert(ext.last() == g);
                assert(op_views(r@) =~= full_plan(ext, max_size, max_generation));
            }
        }
        gi = gi + 1;
    }
    assert(groups@.subrange(0, gn as int) =~= groups@);
    r
}

/// Scans the listed directory entries and plans the whole rotation:
/// classification of every entry completes first, so one malformed
/// filename aborts the run before any action is planned.
pub fn rotation_plan_for_entries(
    entries: &Vec<ScanEntry>,
    max_size: u64,
    max_generation: u8,
) -> (r: Result<Vec<FileOp>, Error>)
    ensures
        ({
            let s = scan_spec(entry_views(entries@));
            match r {
                Ok(ops) => s matches Ok(gs) && op_views(ops@) == full_plan(
                    gs,
                    max_size,
                    max_generation,
                ),
                Err(e) => s matches Err(nm) && (e matches Error::FilenameParse(v) && v@ == nm),
            }
        }),
{
    match build_groups(entries) {
        Ok(groups) => Ok(plan_rotation(&groups, max_size, max_generation)),
        Err(e) => Err(e),
    }
}

/// Law (idempotence): a group whose primary file is empty is never
/// rotated, whatever the threshold; in particular a second rotation pass
/// right after a first one plans nothing for the freshly rotated groups.
pub proof fn lemma_rotation_idempotent(g: GroupView, max_size: u64, ceiling: u8)
    requires
        g.main_size == 0,
    ensures
        group_plan(g, max_size, ceiling) == Seq::<OpView>::empty(),
{
}

/// Law (idempotence, whole scan): when every primary file is empty, the
/// plan of the whole scan is empty.
pub proof fn lemma_freshly_rotated_plans_nothing(gs: Seq<GroupView>, max_size: u64, ceiling: u8)
    requires
        forall|i: int| 0 <= i < gs.len() ==> gs[i].main_size == 0,
    ensures
        full_plan(gs, max_size, ceiling) == Seq::<OpView>::empty(),
    decreases gs.len(),
{
    if gs.len() > 0 {
        assert(forall|i: int| 0 <= i < gs.drop_last().len() ==> gs.drop_last()[i] == gs[i]);
        lemma_freshly_rotated_plans_nothing(gs.drop_last(), max_size, ceiling);
        assert(full_plan(gs, max_size, ceiling) =~= Seq::<OpView>::empty());
    }
}

/// How one action transforms a directory, modelled as a map from
/// filename to contents. Removal deletes the entry; copying overwrites
/// the target with the source's contents, creating the target if absent;
/// truncation overwrites the file with zero bytes, keeping its name in
/// place. A copy whose source is missing fails the real run; the model
/// leaves the directory unchanged there, and no law below relies on that
/// case.
pub open spec fn apply_op(fs: Map<Seq<u8>, Seq<u8>>, op: OpView) -> Map<Seq<u8>, Seq<u8>> {
    match op {
        OpView::Remove(p) => fs.remove(p),
        OpView::CopyTo(f, t) => if fs.dom().contains(f) {
            fs.insert(t, fs[f])
        } else {
            fs
        },
        OpView::Truncate(p) => fs.insert(p, Seq::<u8>::empty()),
    }
}

/// The directory after a plan's actions, applied in order.
pub open spec fn apply_plan(fs: Map<Seq<u8>, Seq<u8>>, ops: Seq<OpView>) -> Map<Seq<u8>, Seq<u8>>
    decreases ops.len(),
{
    if ops.len() == 0 {
        fs
    } else {
        apply_plan(apply_op(fs, ops.first()), ops.drop_first())
    }
}

/// Applying concatenated plans applies them in turn.
proof fn lemma_apply_plan_concat(fs: Map<Seq<u8>, Seq<u8>>, a: Seq<OpView>, b: Seq<OpView>)
    ensures
        apply_plan(fs, a + b) == apply_plan(apply_plan(fs, a), b),
    decreases a.len(),
{
    if a.len() == 0 {
        assert(a + b =~= b);
    } else {
        assert((a + b).first() == a.first());
        assert((a + b).drop_first() =~= a.drop_first() + b);
        lemma_apply_plan_concat(apply_op(fs, a.first()), a.drop_first(), b);
    }
}

/// Law (on the directory): a group whose primary file does not exceed
/// the threshold is left entirely untouched. A freshly rotated group's
/// primary file is empty, so in particular a second rotation pass right
/// after a first one changes nothing: rotation is idempotent.
pub proof fn lemma_group_within_threshold_untouched(
    fs: Map<Seq<u8>, Seq<u8>>,
    g: GroupView,
    max_size: u64,
    ceiling: u8,
)
    requires
        g.main_size <= max_size,
    ensures
        apply_plan(fs, group_plan(g, max_size, ceiling)) == fs,
{
}

/// Law: rotating a group whose only file is an oversized primary copies
/// it to generation 1 and truncates it. Afterwards the primary is empty,
/// generation 1 holds the primary's former contents, and no other file
/// is created or touched.
pub proof fn lemma_single_primary_rotation(
    fs: Map<Seq<u8>, Seq<u8>>,
    g: GroupView,
    max_size: u64,
    ceiling: u8,
)
    requires
        g.numbers == seq![0u8],
        g.main_size > max_size,
        ceiling != 0,
        fs.dom().contains(file_name_spec(g.base, 0)),
    ensures
        ({
            let fs2 = apply_plan(fs, group_plan(g, max_size, ceiling));
            let name0 = file_name_spec(g.base, 0);
            let name1 = file_name_spec(g.base, 1);
            &&& fs2.dom() == fs.dom().insert(name1)
            &&& fs2[name0] == Seq::<u8>::empty()
            &&& fs2[name1] == fs[name0]
            &&& forall|p: Seq<u8>|
                fs.dom().contains(p) && p != name0 && p != name1 ==> fs2[p] == fs[p]
        }),
{
    let name0 = file_name_spec(g.base, 0);
    let name1 = file_name_spec(g.base, 1);
    crate::names::lemma_file_name_injective(g.base, 0, 1);
    let nums = g.numbers;
    assert(nums.drop_last() =~= Seq::<u8>::empty());
    assert(sort_spec(Seq::<u8>::empty()) == Seq::<u8>::empty());
    assert(sort_spec(nums) == insert_sorted(0u8, Seq::<u8>::empty()));
    assert(sort_spec(nums) =~= seq![0u8]);
    let plan = group_plan(g, max_size, ceiling);
    assert(shift_range(g.base, sort_spec(nums), 0, 0, ceiling) == Seq::<OpView>::empty());
    assert(plan =~= seq![OpView::CopyTo(name0, name1), OpView::Truncate(name0)]);
    let fs1 = apply_op(fs, plan.first());
    assert(fs1 == fs.insert(name1, fs[name0]));
    assert(plan.drop_first() =~= seq![OpView::Truncate(name0)]);
    let fs2 = apply_op(fs1, OpView::Truncate(name0));
    assert(apply_plan(fs, plan) == apply_plan(fs1, plan.drop_first()));
    assert(apply_plan(fs1, plan.drop_first()) == apply_plan(
        fs2,
        plan.drop_first().drop_first(),
    ));
    assert(plan.drop_first().drop_first() =~= Seq::<OpView>::empty());
    assert(apply_plan(fs, plan) == fs.insert(name1, fs[name0]).insert(name0, Seq::<u8>::empty()));
    assert(apply_plan(fs, plan).dom() =~= fs.dom().insert(name1));
}

/// The generations 0 through `c`, in ascending order.
pub open spec fn generation_run(c: u8) -> Seq<u8> {
    Seq::new((c + 1) as nat, |i: int| i as u8)
}

/// Sorting the generations 0 through `c` leaves them as they are.
proof fn lemma_sort_run(c: u8)
    ensures
        sort_spec(generation_run(c)) == generation_run(c),
    decreases c,
{
    let run = generation_run(c);
    assert(run.last() == c);
    if c == 0 {
        assert(run.drop_last() =~= Seq::<u8>::empty());
        assert(sort_spec(Seq::<u8>::empty()) == Seq::<u8>::empty());
        assert(sort_spec(run) == insert_sorted(c, Seq::<u8>::empty()));
        assert(insert_sorted(c, Seq::<u8>::empty()) =~= run);
    } else {
        lemma_sort_run((c - 1) as u8);
        let prev = generation_run((c - 1) as u8);
        assert(run.drop_last() =~= prev);
        assert(forall|i: int| 0 <= i < prev.len() ==> prev[i] < c);
        lemma_insert_at(c, prev, prev.len() as int);
        assert(insert_sorted(c, prev) =~= run);
    }
}

/// Is `p` the filename of a generation of `base` between `lo` and `hi`?
pub open spec fn is_run_name(p: Seq<u8>, base: Seq<u8>, lo: int, hi: int) -> bool {
    exists|k: int| lo <= k <= hi && p == file_name_spec(base, k)
}

/// After shifting generations `c` down to `i` (`1 <= i <= c`) of a group
/// whose generations 0 through `c` are all on disk: generation `k` holds
/// the former contents of `k - 1` for `i < k <= c`, generation `i` is
/// empty unless it was the one deleted at the ceiling, and no file
/// outside generations `i` through `c` is touched.
proof fn lemma_run_steps(fs: Map<Seq<u8>, Seq<u8>>, base: Seq<u8>, c: u8, i: u8)
    requires
        1 <= i <= c,
        forall|k: int| 0 <= k <= c ==> fs.dom().contains(#[trigger] file_name_spec(base, k)),
    ensures
        ({
            let fs2 = apply_plan(fs, shift_range(base, generation_run(c), c as int + 1, i as int, c));
            &&& fs2.dom() == if i == c {
                fs.dom().remove(file_name_spec(base, c as int))
            } else {
                fs.dom()
            }
            &&& forall|k: int|
                i < k <= c ==> #[trigger] fs2[file_name_spec(base, k)] == fs[file_name_spec(
                    base,
                    k - 1,
                )]
            &&& i < c ==> fs2[file_name_spec(base, i as int)] == Seq::<u8>::empty()
            &&& forall|p: Seq<u8>|
                fs.dom().contains(p) && !is_run_name(p, base, i as int, c as int) ==> #[trigger] fs2[p]
                    == fs[p]
        }),
    decreases c - i,
{
    let run = generation_run(c);
    let hi = c as int + 1;
    if i == c {
        // Only the ceiling generation is processed: its file is deleted.
        assert(run[c as int] == c);
        assert(ops_for_number(base, c, c) =~= seq![
            OpView::Remove(file_name_spec(base, c as int)),
        ]);
        assert(shift_range(base, run, c as int, c as int, c) == Seq::<OpView>::empty());
        let plan = shift_range(base, run, hi, i as int, c);
        assert(plan =~= seq![OpView::Remove(file_name_spec(base, c as int))]);
        let fs2 = apply_op(fs, OpView::Remove(file_name_spec(base, c as int)));
        assert(apply_plan(fs, plan) == apply_plan(fs2, plan.drop_first()));
        assert(plan.drop_first() =~= Seq::<OpView>::empty());
        assert forall|p: Seq<u8>|
            fs.dom().contains(p) && !is_run_name(p, base, i as int, c as int) implies #[trigger] fs2[p]
            == fs[p] by {
            assert(p != file_name_spec(base, c as int)) by {
                if p == file_name_spec(base, c as int) {
                    assert(is_run_name(p, base, i as int, c as int));
                }
            }
        }
    } else {
        lemma_run_steps(fs, base, c, (i + 1) as u8);
        let fs_mid = apply_plan(fs, shift_range(base, run, hi, i as int + 1, c));
        lemma_shift_range_snoc(base, run, hi, i as int, c);
        lemma_apply_plan_concat(
            fs,
            shift_range(base, run, hi, i as int + 1, c),
            ops_for_number(base, run[i as int], c),
        );
        assert(run[i as int] == i);
        let name_lo = file_name_spec(base, i as int);
        let name_hi = file_name_spec(base, i as int + 1);
        crate::names::lemma_file_name_injective(base, i as int, i as int + 1);
        let ops = ops_for_number(base, i, c);
        assert(ops =~= seq![OpView::CopyTo(name_lo, name_hi), OpView::Truncate(name_lo)]);
        let fs2 = apply_plan(fs, shift_range(base, run, hi, i as int, c));
        assert(fs2 == apply_plan(fs_mid, ops));

        // The source of this step's copy is untouched so far.
        assert(!is_run_name(name_lo, base, i as int + 1, c as int)) by {
            if is_run_name(name_lo, base, i as int + 1, c as int) {
                let k = choose|k: int|
                    i as int + 1 <= k <= c as int && name_lo == file_name_spec(base, k);
                crate::names::lemma_file_name_injective(base, i as int, k);
            }
        }
        assert(name_lo != file_name_spec(base, c as int)) by {
            crate::names::lemma_file_name_injective(base, i as int, c as int);
        }
        assert(fs_mid.dom().contains(name_lo));
        assert(fs_mid[name_lo] == fs[name_lo]);

        let fs_a = apply_op(fs_mid, OpView::CopyTo(name_lo, name_hi));
        assert(fs_a == fs_mid.insert(name_hi, fs[name_lo]));
        let fs_b = apply_op(fs_a, OpView::Truncate(name_lo));
        assert(fs_b == fs_a.insert(name_lo, Seq::<u8>::empty()));
        assert(ops.first() == OpView::CopyTo(name_lo, name_hi));
        assert(ops.drop_first().first() == OpView::Truncate(name_lo));
        assert(fs2 == apply_plan(fs_a, ops.drop_first()));
        assert(fs2 == apply_plan(fs_b, ops.drop_first().drop_first()));
        assert(ops.drop_first().drop_first() =~= Seq::<OpView>::empty());
        assert(fs2 == fs_mid.insert(name_hi, fs[name_lo]).insert(name_lo, Seq::<u8>::empty()));

        // The domain is restored: both written names were already present.
        assert(fs2.dom() =~= fs.dom());

        // The shifted contents, generation by generation.
        assert forall|k: int|
            i < k <= c implies #[trigger] fs2[file_name_spec(base, k)] == fs[file_name_spec(
            base,
            k - 1,
        )] by {
            let name_k = file_name_spec(base, k);
            if k == i as int + 1 {
                assert(fs2[name_k] == fs[name_lo]);
            } else {
                crate::names::lemma_file_name_injective(base, k, i as int);
                crate::names::lemma_file_name_injective(base, k, i as int + 1);
                assert(fs2[name_k] == fs_mid[name_k]);
            }
        }

        // This step empties its own generation.
        assert(fs2[name_lo] == Seq::<u8>::empty());

        // Nothing outside generations `i` through `c` is touched.
        assert forall|p: Seq<u8>|
            fs.dom().contains(p) && !is_run_name(p, base, i as int, c as int) implies #[trigger] fs2[p]
            == fs[p] by {
            assert(!is_run_name(p, base, i as int + 1, c as int)) by {
                if is_run_name(p, base, i as int + 1, c as int) {
                    let k = choose|k: int|
                        i as int + 1 <= k <= c as int && p == file_name_spec(base, k);
                    assert(is_run_name(p, base, i as int, c as int));
                }
            }
            assert(p != name_lo) by {
                if p == name_lo {
                    assert(is_run_name(p, base, i as int, c as int));
                }
            }
            assert(p != name_hi) by {
                if p == name_hi {
                    assert(is_run_name(p, base, i as int, c as int));
                }
            }
        }
    }
}

/// Law (rotation ceiling, on the directory): rotating a fully populated
/// group — generations 0 through the ceiling all present — deletes the
/// file at the ceiling, shifts every other generation's contents up by
/// one, and empties the primary file. The set of generation files is
/// afterwards exactly what it was: nothing beyond the ceiling is ever
/// created, and no file outside the group is touched.
pub proof fn lemma_full_group_rotation(
    fs: Map<Seq<u8>, Seq<u8>>,
    g: GroupView,
    max_size: u64,
    ceiling: u8,
)
    requires
        ceiling >= 1,
        g.numbers == generation_run(ceiling),
        g.main_size > max_size,
        forall|k: int|
            0 <= k <= ceiling ==> fs.dom().contains(#[trigger] file_name_spec(g.base, k)),
    ensures
        ({
            let fs2 = apply_plan(fs, group_plan(g, max_size, ceiling));
            &&& fs2.dom() == fs.dom()
            &&& fs2[file_name_spec(g.base, 0)] == Seq::<u8>::empty()
            &&& forall|k: int|
                1 <= k <= ceiling ==> #[trigger] fs2[file_name_spec(g.base, k)]
                    == fs[file_name_spec(g.base, k - 1)]
            &&& forall|p: Seq<u8>|
                fs.dom().contains(p) && !is_run_name(p, g.base, 0, ceiling as int)
                    ==> #[trigger] fs2[p] == fs[p]
        }),
{
    let base = g.base;
    let c = ceiling;
    let run = generation_run(c);
    let hi = c as int + 1;
    lemma_sort_run(c);
    assert(run.len() == hi);
    let plan = group_plan(g, max_size, c);
    assert(plan == shift_range(base, run, hi, 0, c));
    lemma_shift_range_snoc(base, run, hi, 0, c);
    lemma_run_steps(fs, base, c, 1);
    let fs_mid = apply_plan(fs, shift_range(base, run, hi, 1, c));
    lemma_apply_plan_concat(fs, shift_range(base, run, hi, 1, c), ops_for_number(base, run[0], c));
    assert(run[0] == 0u8);
    let name0 = file_name_spec(base, 0);
    let name1 = file_name_spec(base, 1);
    crate::names::lemma_file_name_injective(base, 0, 1);
    let ops = ops_for_number(base, 0, c);
    assert(ops =~= seq![OpView::CopyTo(name0, name1), OpView::Truncate(name0)]);
    let fs2 = apply_plan(fs, plan);
    assert(fs2 == apply_plan(fs_mid, ops));

    // The primary file is untouched by the shifts of generations c..1.
    assert(!is_run_name(name0, base, 1, c as int)) by {
        if is_run_name(name0, base, 1, c as int) {
            let k = choose|k: int| 1 <= k <= c as int && name0 == file_name_spec(base, k);
            crate::names::lemma_file_name_injective(base, 0, k);
        }
    }
    assert(name0 != file_name_spec(base, c as int)) by {
        crate::names::lemma_file_name_injective(base, 0, c as int);
    }
    assert(fs_mid.dom().contains(name0));
    assert(fs_mid[name0] == fs[name0]);

    let fs_a = apply_op(fs_mid, OpView::CopyTo(name0, name1));
    assert(fs_a == fs_mid.insert(name1, fs[name0]));
    let fs_b = apply_op(fs_a, OpView::Truncate(name0));
    assert(fs_b == fs_a.insert(name0, Seq::<u8>::empty()));
    assert(ops.first() == OpView::CopyTo(name0, name1));
    assert(ops.drop_first().first() == OpView::Truncate(name0));
    assert(fs2 == apply_plan(fs_a, ops.drop_first()));
    assert(fs2 == apply_plan(fs_b, ops.drop_first().drop_first()));
    assert(ops.drop_first().drop_first() =~= Seq::<OpView>::empty());
    assert(fs2 == fs_mid.insert(name1, fs[name0]).insert(name0, Seq::<u8>::empty()));

    assert(fs2.dom() =~= fs.dom());

    assert forall|k: int|
        1 <= k <= c implies #[trigger] fs2[file_name_spec(base, k)] == fs[file_name_spec(
        base,
        k - 1,
    )] by {
        let name_k = file_name_spec(base, k);
        if k == 1 {
            assert(fs2[name_k] == fs[name0]);
        } else {
            crate::names::lemma_file_name_injective(base, k, 0);
            crate::names::lemma_file_name_injective(base, k, 1);
            assert(fs2[name_k] == fs_mid[name_k]);
        }
    }

    assert forall|p: Seq<u8>|
        fs.dom().contains(p) && !is_run_name(p, base, 0, c as int) implies #[trigger] fs2[p]
        == fs[p] by {
        assert(!is_run_name(p, base, 1, c as int)) by {
            if is_run_name(p, base, 1, c as int) {
                let k = choose|k: int| 1 <= k <= c as int && p == file_name_spec(base, k);
                assert(is_run_name(p, base, 0, c as int));
            }
        }
        assert(p != name0) by {
            if p == name0 {
                assert(is_run_name(p, base, 0, c as int));
            }
        }
        assert(p != name1) by {
            if p == name1 {
                assert(is_run_name(p, base, 0, c as int));
            }
        }
    }
}

/// Does every filename this action touches belong to a generation of
/// `base` within the ceiling?
pub open spec fn op_within_ceiling(op: OpView, base: Seq<u8>, ceiling: u8) -> bool {
    match op {
        OpView::Remove(p) => exists|m: int| 0 <= m <= ceiling && p == file_name_spec(base, m),
        OpView::CopyTo(f, t) => (exists|m: int| 0 <= m <= ceiling && f == file_name_spec(base, m))
            && (exists|m: int| 0 <= m <= ceiling && t == file_name_spec(base, m)),
        OpView::Truncate(p) => exists|m: int| 0 <= m <= ceiling && p == file_name_spec(base, m),
    }
}

/// Law (rotation ceiling): when every generation of a group lies within
/// the retention ceiling, the group's plan only ever touches generations
/// within the ceiling — rotating a full group creates no generation
/// beyond it.
pub proof fn lemma_ceiling_respected(base: Seq<u8>, nums: Seq<u8>, hi: int, lo: int, ceiling: u8)
    requires
        0 <= lo <= hi <= nums.len(),
        forall|i: int| 0 <= i < nums.len() ==> nums[i] <= ceiling,
    ensures
        forall|k: int|
            0 <= k < shift_range(base, nums, hi, lo, ceiling).len() ==> op_within_ceiling(
                shift_range(base, nums, hi, lo, ceiling)[k],
                base,
                ceiling,
            ),
    decreases hi - lo,
{
    if hi > lo {
        lemma_ceiling_respected(base, nums, hi - 1, lo, ceiling);
        let n = nums[hi - 1];
        let head = ops_for_number(base, n, ceiling);
        assert forall|k: int| 0 <= k < head.len() implies op_within_ceiling(
            head[k],
            base,
            ceiling,
        ) by {
            if n == ceiling {
                assert(head[k] == OpView::Remove(file_name_spec(base, n as int)));
            } else if n == 0 {
                assert(0 <= 1 <= ceiling && 0 <= 0 <= ceiling);
            } else {
                assert(0 <= n as int + 1 <= ceiling && 0 <= n as int <= ceiling);
            }
        }
        let whole = shift_range(base, nums, hi, lo, ceiling);
        assert forall|k: int| 0 <= k < whole.len() implies op_within_ceiling(
            whole[k],
            base,
            ceiling,
        ) by {
            if k < head.len() {
                assert(whole[k] == head[k]);
            } else {
                assert(whole[k] == shift_range(base, nums, hi - 1, lo, ceiling)[k - head.len()]);
            }
        }
    }
}

} // verus!
