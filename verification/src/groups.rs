//! Grouping scanned directory entries by base name.
//!
//! One pass over the directory entries classifies each filename and
//! builds, per base name, the set of generation numbers observed and the
//! byte length of the primary file. A single malformed filename aborts
//! the pass.

use vstd::prelude::*;
use crate::errors::Error;
use crate::names::{classify_spec, parse_file_name, FileKind};

verus! {

/// One log group as the contracts see it: its base name, the generation
/// numbers in the order they were recorded, and the primary file's size.
pub struct GroupView {
    pub base: Seq<u8>,
    pub numbers: Seq<u8>,
    pub main_size: u64,
}

/// The generations observed for one base name, and the byte length of
/// its primary `<base>.log` file (0 until one is seen).
#[derive(Debug)]
pub struct Log {
    pub numbers: Vec<u8>,
    pub main_size: u64,
}

impl Default for Log {
    /// A group before any generation has been recorded.
    fn default() -> (r: Self)
        ensures
            r.numbers@ == Seq::<u8>::empty(),
            r.main_size == 0,
    {
        Log { numbers: Vec::new(), main_size: 0 }
    }
}

#[derive(Debug)]
struct GroupRec {
    base: Vec<u8>,
    log: Log,
}

/// The groups built from one scan, keyed by base name, in the order the
/// base names were first seen. Base names are unique.
#[derive(Debug)]
pub struct Groups {
    entries: Vec<GroupRec>,
}

impl View for Groups {
    type V = Seq<GroupView>;

    closed spec fn view(&self) -> Seq<GroupView> {
        self.entries@.map(
            |i: int, e: GroupRec|
                GroupView { base: e.base@, numbers: e.log.numbers@, main_size: e.log.main_size },
        )
    }
}

/// No two groups share a base name.
pub open spec fn distinct_bases(gs: Seq<GroupView>) -> bool {
    forall|i: int, j: int| 0 <= i < j < gs.len() ==> gs[i].base != gs[j].base
}

/// The index of the first group named `base`, or -1 if there is none.
pub open spec fn group_index(gs: Seq<GroupView>, base: Seq<u8>) -> int
    decreases gs.len(),
{
    if gs.len() == 0 {
        -1
    } else if gs[0].base == base {
        0
    } else {
        let r = group_index(gs.drop_first(), base);
        if r == -1 {
            -1
        } else {
            r + 1
        }
    }
}

/// `group_index` finds the first group of that name, or reports that
/// none exists.
pub proof fn lemma_group_index(gs: Seq<GroupView>, base: Seq<u8>)
    ensures
        ({
            let r = group_index(gs, base);
            &&& r == -1 ==> forall|i: int| 0 <= i < gs.len() ==> gs[i].base != base
            &&& r != -1 ==> 0 <= r < gs.len() && gs[r].base == base && (forall|i: int|
                0 <= i < r ==> gs[i].base != base)
        }),
    decreases gs.len(),
{
    if gs.len() > 0 && gs[0].base != base {
        let tail = gs.drop_first();
        lemma_group_index(tail, base);
        let rt = group_index(tail, base);
        if rt == -1 {
            assert forall|i: int| 0 <= i < gs.len() implies gs[i].base != base by {
                if i > 0 {
                    assert(tail[i - 1] == gs[i]);
                }
            }
        } else {
            assert(tail[rt] == gs[rt + 1]);
            assert forall|i: int| 0 <= i < rt + 1 implies gs[i].base != base by {
                if i > 0 {
                    assert(tail[i - 1] == gs[i]);
                }
            }
        }
    }
}

/// What recording one classified entry does to the groups: a new group
/// is appended for a first-seen base name, otherwise the generation is
/// pushed onto the existing group; a generation-0 entry also sets the
/// group's primary size.
pub open spec fn record_spec(gs: Seq<GroupView>, base: Seq<u8>, number: u8, size: u64) -> Seq<
    GroupView,
> {
    let i = group_index(gs, base);
    if i == -1 {
        gs.push(
            GroupView {
                base: base,
                numbers: seq![number],
                main_size: if number == 0 {
                    size
                } else {
                    0
                },
            },
        )
    } else {
        let g = gs[i];
        gs.update(
            i,
            GroupView {
                base: base,
                numbers: g.numbers.push(number),
                main_size: if number == 0 {
                    size
                } else {
                    g.main_size
                },
            },
        )
    }
}

/// Recording keeps base names unique.
pub proof fn lemma_record_distinct(gs: Seq<GroupView>, base: Seq<u8>, number: u8, size: u64)
    requires
        distinct_bases(gs),
    ensures
        distinct_bases(record_spec(gs, base, number, size)),
{
    lemma_group_index(gs, base);
}

/// Compares two byte strings.
fn bytes_eq(a: &Vec<u8>, b: &Vec<u8>) -> (r: bool)
    ensures
        r == (a@ == b@),
{
    if a.len() != b.len() {
        return false;
    }
    let n = a.len();
    let mut k: usize = 0;
    while k < n
        invariant
            0 <= k <= n,
            n == a@.len() == b@.len(),
            forall|i: int| 0 <= i < k ==> a@[i] == b@[i],
        decreases n - k,
    {
        if a[k] != b[k] {
            return false;
        }
        k = k + 1;
    }
    assert(a@ =~= b@);
    true
}

impl Groups {
    /// No groups yet.
    pub fn new() -> (r: Groups)
        ensures
            r@ == Seq::<GroupView>::empty(),
    {
        let r = Groups { entries: Vec::new() };
        assert(r@ =~= Seq::<GroupView>::empty());
        r
    }

    /// The number of groups.
    pub fn len(&self) -> (r: usize)
        ensures
            r == self@.len(),
    {
        self.entries.len()
    }

    /// The base name of the group at `i`.
    pub fn base_at(&self, i: usize) -> (r: &Vec<u8>)
        requires
            i < self@.len(),
        ensures
            r@ == self@[i as int].base,
    {
        &self.entries[i].base
    }

    /// The generation numbers of the group at `i`, in recording order.
    pub fn numbers_at(&self, i: usize) -> (r: &Vec<u8>)
        requires
            i < self@.len(),
        ensures
            r@ == self@[i as int].numbers,
    {
        &self.entries[i].log.numbers
    }

    /// The primary file size of the group at `i`.
    pub fn size_at(&self, i: usize) -> (r: u64)
        requires
            i < self@.len(),
        ensures
            r == self@[i as int].main_size,
    {
        self.entries[i].log.main_size
    }

    /// Records one classified entry, as `record_spec` says. The size is
    /// taken into account only for generation 0, where the caller passes
    /// the primary file's byte length.
    #[verifier::loop_isolation(false)]
    pub fn record(&mut self, base: Vec<u8>, number: u8, size: u64)
        ensures
            final(self)@ == record_spec(old(self)@, base@, number, size),
    {
        let ghost gs = self@;
        proof {
            lemma_group_index(gs, base@);
        }
        let n = self.entries.len();
        let mut k: usize = 0;
        while k < n
            invariant
                0 <= k <= n,
                n == gs.len(),
                self == old(self),
                forall|i: int| 0 <= i < k ==> gs[i].base != base@,
            decreases n - k,
        {
            if bytes_eq(&self.entries[k].base, &base) {
                proof {
                    lemma_index_of_first(gs, base@, k as int);
                }
                let mut rec = self.entries.remove(k);
                if number == 0 {
                    rec.log.main_size = size;
                }
                rec.log.numbers.push(number);
                self.entries.insert(k, rec);
                proof {
                    assert(final(self)@ =~= record_spec(gs, base@, number, size));
                }
                return ;
            }
            k = k + 1;
        }
        proof {
            lemma_index_of_none(gs, base@);
        }
        let mut numbers: Vec<u8> = Vec::new();
        numbers.push(number);
        let main_size: u64 = if number == 0 {
            size
        } else {
            0
        };
        self.entries.push(GroupRec { base, log: Log { numbers, main_size } });
        proof {
            assert(final(self)@ =~= record_spec(gs, base@, number, size));
        }
    }
}

/// If nothing before `k` matches and `gs[k]` does, the first match is `k`.
proof fn lemma_index_of_first(gs: Seq<GroupView>, base: Seq<u8>, k: int)
    requires
        0 <= k < gs.len(),
        gs[k].base == base,
        forall|i: int| 0 <= i < k ==> gs[i].base != base,
    ensures
        group_index(gs, base) == k,
{
    lemma_group_index(gs, base);
}

/// If no group matches, the index is -1.
proof fn lemma_index_of_none(gs: Seq<GroupView>, base: Seq<u8>)
    requires
        forall|i: int| 0 <= i < gs.len() ==> gs[i].base != base,
    ensures
        group_index(gs, base) == -1,
{
    lemma_group_index(gs, base);
}

/// One scanned directory entry: its filename and its byte length. The
/// length matters only for primary files; the caller may pass 0 for the
/// rest.
pub struct ScanEntry {
    pub name: Vec<u8>,
    pub len: u64,
}

/// The plain values of a sequence of scanned entries.
pub open spec fn entry_views(s: Seq<ScanEntry>) -> Seq<(Seq<u8>, u64)> {
    s.map(|i: int, e: ScanEntry| (e.name@, e.len))
}

/// Scanning from entry `i` onward with groups `acc` so far: ignored
/// entries are skipped, classified entries are recorded, and the first
/// malformed filename aborts the whole scan.
pub open spec fn scan_from(
    entries: Seq<(Seq<u8>, u64)>,
    i: int,
    acc: Seq<GroupView>,
) -> Result<Seq<GroupView>, Seq<u8>>
    decreases entries.len() - i,
{
    if i < 0 || i >= entries.len() {
        Ok(acc)
    } else {
        match classify_spec(entries[i].0) {
            FileKind::Ignored => scan_from(entries, i + 1, acc),
            FileKind::Malformed => Err(entries[i].0),
            FileKind::Entry { base, number } => scan_from(
                entries,
                i + 1,
                record_spec(acc, base, number, entries[i].1),
            ),
        }
    }
}

/// What a whole scan of the listed entries yields: the groups in
/// first-seen order, or the first malformed filename.
pub open spec fn scan_spec(entries: Seq<(Seq<u8>, u64)>) -> Result<Seq<GroupView>, Seq<u8>> {
    scan_from(entries, 0, Seq::<GroupView>::empty())
}

/// Classifies every entry and builds the groups, exactly as `scan_spec`
/// says: classification of all entries completes (or aborts the run)
/// before any rotation is planned.
#[verifier::loop_isolation(false)]
pub fn build_groups(entries: &Vec<ScanEntry>) -> (r: Result<Groups, Error>)
    ensures
        ({
            let s = scan_spec(entry_views(entries@));
            match r {
                Ok(g) => s matches Ok(gs) && g@ == gs && distinct_bases(g@),
                Err(e) => s matches Err(nm) && (e matches Error::FilenameParse(v) && v@ == nm),
            }
        }),
{
    let ghost ev = entry_views(entries@);
    let mut groups = Groups::new();
    let n = entries.len();
    let mut k: usize = 0;
    while k < n
        invariant
            0 <= k <= n,
            n == ev.len(),
            scan_from(ev, k as int, groups@) == scan_spec(ev),
            distinct_bases(groups@),
        decreases n - k,
    {
        let entry = &entries[k];
        assert(ev[k as int] == (entry.name@, entry.len));
        match parse_file_name(entry.name.as_slice()) {
            Ok(None) => {},
            Ok(Some((base, number))) => {
                proof {
                    lemma_record_distinct(groups@, base@, number, entry.len);
                }
                groups.record(base, number, entry.len);
            },
            Err(e) => {
                return Err(e);
            },
        }
        k = k + 1;
    }
    Ok(groups)
}

} // verus!
