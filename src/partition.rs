//! First-fit assignment of files to size-bounded partitions.
use vstd::prelude::*;

verus! {

/// What the assignment is configured with.
pub struct Config {
    /// The capacity of a partition, in bytes.
    pub max_size: u64,
    /// Whether every partition stays a candidate for later files; when not,
    /// only the newest partition is kept between files.
    pub retain_history: bool,
}

/// One group of files bound for one archive.
pub struct Partition {
    pub id: u64,
    /// The sum of the sizes of the files assigned to it.
    pub size: u64,
    /// The source paths assigned to it, in order of assignment.
    pub files: Vec<String>,
}

/// The state threaded through the walk.
pub struct PartitionSet {
    /// How many partitions were ever created: the id of the next one.
    pub next_id: u64,
    /// The partitions that are still candidates, oldest first.
    pub list: Vec<Partition>,
}

/// A file of the source tree with its size in bytes.
pub struct SourceFile {
    pub path: String,
    pub size: u64,
}

/// Where a file was put.
#[derive(Clone, Copy, Debug, PartialEq, Eq)]
pub struct Placement {
    /// The partition's id.
    pub id: u64,
    /// Whether the partition was created for this file.
    pub created: bool,
}

/// Why a run of the assignment stopped.
#[derive(Debug)]
pub enum AssignError {
    /// No partition can ever hold this file: it is larger than the capacity.
    FileTooLarge { path: String },
}

/// What a partition is, to the contracts.
pub ghost struct PartitionModel {
    pub id: nat,
    pub size: nat,
    pub files: Seq<String>,
}

/// What a partition set is, to the contracts.
pub ghost struct SetModel {
    pub next_id: nat,
    pub list: Seq<PartitionModel>,
}

impl Partition {
    pub open spec fn view(&self) -> PartitionModel {
        PartitionModel { id: self.id as nat, size: self.size as nat, files: self.files@ }
    }
}

impl PartitionSet {
    pub open spec fn view(&self) -> SetModel {
        SetModel {
            next_id: self.next_id as nat,
            list: self.list@.map_values(|p: Partition| p@),
        }
    }

    /// An empty set: no partition created yet.
    pub fn new() -> (r: PartitionSet)
        ensures
            r@.next_id == 0,
            r@.list.len() == 0,
            r.wf(0),
    {
        PartitionSet { next_id: 0, list: Vec::new() }
    }

    /// The set's invariant under capacity `max`: every partition holds at
    /// most `max` bytes, ids are increasing in creation order and below
    /// `next_id`.
    pub open spec fn wf(&self, max: u64) -> bool {
        model_wf(self@, max as nat)
    }
}

pub open spec fn model_wf(m: SetModel, max: nat) -> bool {
    &&& forall|i: int| 0 <= i < m.list.len() ==> #[trigger] m.list[i].size <= max
    &&& forall|i: int| 0 <= i < m.list.len() ==> #[trigger] m.list[i].id < m.next_id
    &&& forall|i: int, j: int|
        0 <= i < j < m.list.len() ==> #[trigger] m.list[i].id < #[trigger] m.list[j].id
}

/// Whether a file of `size` bytes may join a partition that holds `acc`
/// bytes: strictly more room than the file must remain.
pub open spec fn fits(acc: nat, size: nat, max: nat) -> bool {
    acc < max && max - acc > size
}

/// The index of the oldest partition that takes the file; the length of
/// the list where none does.
pub open spec fn first_fit(list: Seq<PartitionModel>, size: nat, max: nat) -> nat
    decreases list.len(),
{
    if list.len() == 0 {
        0
    } else if fits(list[0].size, size, max) {
        0
    } else {
        1 + first_fit(list.drop_first(), size, max)
    }
}

pub open spec fn with_file(p: PartitionModel, file: String, size: nat) -> PartitionModel {
    PartitionModel { id: p.id, size: p.size + size, files: p.files.push(file) }
}

/// The set after a file joins the oldest partition that takes it, or a new
/// partition where none does.
pub open spec fn placed(m: SetModel, file: String, size: nat, max: nat) -> SetModel {
    let i = first_fit(m.list, size, max);
    if i < m.list.len() {
        SetModel { next_id: m.next_id, list: m.list.update(i as int, with_file(m.list[i as int], file, size)) }
    } else {
        SetModel {
            next_id: m.next_id + 1,
            list: m.list.push(PartitionModel { id: m.next_id, size: size, files: seq![file] }),
        }
    }
}

/// The id of the partition that a file joins.
pub open spec fn placed_id(m: SetModel, size: nat, max: nat) -> nat {
    let i = first_fit(m.list, size, max);
    if i < m.list.len() { m.list[i as int].id } else { m.next_id }
}

/// The candidates that remain when history is not kept: the oldest goes
/// where there are two or more.
pub open spec fn trimmed(list: Seq<PartitionModel>) -> Seq<PartitionModel> {
    if list.len() >= 2 { list.subrange(1, list.len() as int) } else { list }
}

/// One step of the assignment: placing, then trimming where history is not kept.
pub open spec fn step(m: SetModel, file: String, size: nat, max: nat, retain: bool) -> SetModel {
    let p = placed(m, file, size, max);
    if retain { p } else { SetModel { next_id: p.next_id, list: trimmed(p.list) } }
}

/// The set after assigning `files` in order, starting from an empty set.
pub open spec fn run(files: Seq<SourceFile>, max: nat, retain: bool) -> SetModel
    decreases files.len(),
{
    if files.len() == 0 {
        SetModel { next_id: 0, list: seq![] }
    } else {
        step(run(files.drop_last(), max, retain), files.last().path, files.last().size as nat, max, retain)
    }
}

/// Whether `k` is the first file of `files` that is larger than `max`.
pub open spec fn first_oversized(files: Seq<SourceFile>, max: nat, k: int) -> bool {
    &&& 0 <= k < files.len()
    &&& files[k].size > max
    &&& forall|j: int| 0 <= j < k ==> #[trigger] files[j].size <= max
}

proof fn lemma_first_fit(list: Seq<PartitionModel>, size: nat, max: nat, i: int)
    requires
        0 <= i <= list.len(),
        forall|j: int| 0 <= j < i ==> !fits(#[trigger] list[j].size, size, max),
        i < list.len() ==> fits(list[i].size, size, max),
    ensures
        first_fit(list, size, max) == i,
    decreases list.len(),
{
    if list.len() > 0 && i > 0 {
        assert(!fits(list[0].size, size, max));
        let rest = list.drop_first();
        assert forall|j: int| 0 <= j < i - 1 implies !fits(#[trigger] rest[j].size, size, max) by {
            assert(rest[j] == list[j + 1]);
        }
        lemma_first_fit(rest, size, max, i - 1);
    }
}

proof fn lemma_first_fit_fits(list: Seq<PartitionModel>, size: nat, max: nat)
    ensures
        first_fit(list, size, max) <= list.len(),
        first_fit(list, size, max) < list.len() ==> fits(
            list[first_fit(list, size, max) as int].size,
            size,
            max,
        ),
    decreases list.len(),
{
    if list.len() > 0 && !fits(list[0].size, size, max) {
        let rest = list.drop_first();
        lemma_first_fit_fits(rest, size, max);
        let i = first_fit(rest, size, max);
        if i < rest.len() {
            assert(rest[i as int] == list[i + 1 as int]);
        }
    }
}

/// One step keeps the set's invariant, for a file within the capacity.
proof fn lemma_step_wf(m: SetModel, file: String, size: nat, max: nat, retain: bool)
    requires
        model_wf(m, max),
        size <= max,
    ensures
        model_wf(step(m, file, size, max, retain), max),
        step(m, file, size, max, retain).next_id <= m.next_id + 1,
        !retain && m.list.len() <= 1 ==> step(m, file, size, max, retain).list.len() <= 1,
{
    lemma_first_fit_fits(m.list, size, max);
    let p = placed(m, file, size, max);
    assert(model_wf(p, max));
    if !retain && p.list.len() >= 2 {
        let t = trimmed(p.list);
        assert forall|i: int, j: int| 0 <= i < j < t.len() implies #[trigger] t[i].id < #[trigger] t[j].id by {
            assert(t[i] == p.list[i + 1]);
            assert(t[j] == p.list[j + 1]);
        }
        assert forall|i: int| 0 <= i < t.len() implies #[trigger] t[i].size <= max && t[i].id < p.next_id by {
            assert(t[i] == p.list[i + 1]);
        }
    }
}

/// Whether a file of `size` bytes may join `p` under capacity `max`.
pub fn has_room(p: &Partition, size: u64, max: u64) -> (r: bool)
    ensures
        r == fits(p.size as nat, size as nat, max as nat),
{
    p.size < max && max - p.size > size
}

/// The index of the oldest candidate that takes a file of `size` bytes.
pub fn find_partition(set: &PartitionSet, size: u64, max: u64) -> (r: Option<usize>)
    ensures
        r matches Some(i) ==> i < set.list.len() && fits(set@.list[i as int].size, size as nat, max as nat)
            && i == first_fit(set@.list, size as nat, max as nat),
        r is None ==> first_fit(set@.list, size as nat, max as nat) == set.list.len(),
{
    let mut i: usize = 0;
    while i < set.list.len()
        invariant
            i <= set.list.len(),
            forall|j: int| 0 <= j < i ==> !fits(#[trigger] set@.list[j].size, size as nat, max as nat),
        decreases set.list.len() - i,
    {
        if has_room(&set.list[i], size, max) {
            proof {
                lemma_first_fit(set@.list, size as nat, max as nat, i as int);
            }
            return Some(i);
        }
        i = i + 1;
    }
    proof {
        lemma_first_fit(set@.list, size as nat, max as nat, i as int);
    }
    None
}

proof fn lemma_view_update(v: Seq<Partition>, i: int, p: Partition)
    requires
        0 <= i < v.len(),
    ensures
        v.update(i, p).map_values(|q: Partition| q@) == v.map_values(|q: Partition| q@).update(i, p@),
{
    assert(v.update(i, p).map_values(|q: Partition| q@) =~= v.map_values(|q: Partition| q@).update(i, p@));
}

proof fn lemma_view_push(v: Seq<Partition>, p: Partition)
    ensures
        v.push(p).map_values(|q: Partition| q@) == v.map_values(|q: Partition| q@).push(p@),
{
    assert(v.push(p).map_values(|q: Partition| q@) =~= v.map_values(|q: Partition| q@).push(p@));
}

proof fn lemma_view_drop_first(v: Seq<Partition>)
    requires
        v.len() >= 1,
    ensures
        v.subrange(1, v.len() as int).map_values(|q: Partition| q@)
            == v.map_values(|q: Partition| q@).subrange(1, v.len() as int),
{
    assert(v.subrange(1, v.len() as int).map_values(|q: Partition| q@)
        =~= v.map_values(|q: Partition| q@).subrange(1, v.len() as int));
}

/// Drops the oldest candidate where there are two or more: what is kept
/// between files when history is not retained.
pub fn clear_dirs(set: &mut PartitionSet)
    ensures
        final(set)@ == (SetModel { next_id: old(set)@.next_id, list: trimmed(old(set)@.list) }),
{
    if set.list.len() >= 2 {
        proof {
            lemma_view_drop_first(set.list@);
        }
        set.list.remove(0);
        assert(set.list@ =~= old(set).list@.subrange(1, old(set).list.len() as int));
    }
}

/// Assigns a file of `size` bytes to the oldest candidate partition with
/// room for it, or to a new partition where none has; then, where history
/// is not retained, drops the oldest candidate of two. A file larger than
/// the capacity is refused and the set left as it was.
pub fn set_file_to_available_dir(
    set: &mut PartitionSet,
    file: String,
    size: u64,
    config: &Config,
) -> (r: Result<Placement, AssignError>)
    requires
        old(set).wf(config.max_size),
        old(set).next_id < u64::MAX,
    ensures
        size > config.max_size ==> r == Err::<Placement, AssignError>(AssignError::FileTooLarge { path: file })
            && final(set)@ == old(set)@,
        size <= config.max_size ==> r == Ok::<Placement, AssignError>(
            Placement {
                id: placed_id(old(set)@, size as nat, config.max_size as nat) as u64,
                created: first_fit(old(set)@.list, size as nat, config.max_size as nat) == old(set)@.list.len(),
            },
        ),
        size <= config.max_size ==> final(set)@ == step(
            old(set)@,
            file,
            size as nat,
            config.max_size as nat,
            config.retain_history,
        ),
        final(set).wf(config.max_size),
        final(set).next_id <= old(set).next_id + 1,
{
    let max = config.max_size;
    if size > max {
        return Err(AssignError::FileTooLarge { path: file });
    }
    let ghost m0 = set@;
    let placement;
    match find_partition(set, size, max) {
        Some(i) => {
            let mut p = set.list.remove(i);
            p.size = p.size + size;
            p.files.push(file);
            let pid = p.id;
            set.list.insert(i, p);
            proof {
                assert(set.list@ =~= old(set).list@.update(i as int, p));
                lemma_view_update(old(set).list@, i as int, p);
                assert(p@ == with_file(m0.list[i as int], file, size as nat));
            }
            placement = Placement { id: pid, created: false };
        },
        None => {
            let mut files = Vec::new();
            files.push(file);
            let p = Partition { id: set.next_id, size: size, files: files };
            proof {
                lemma_view_push(set.list@, p);
                assert(p@.files =~= seq![file]);
            }
            set.list.push(p);
            placement = Placement { id: set.next_id, created: true };
            set.next_id = set.next_id + 1;
        },
    }
    assert(set@ == placed(m0, file, size as nat, max as nat));
    proof {
        lemma_step_wf(m0, file, size as nat, max as nat, config.retain_history);
    }
    if !config.retain_history {
        clear_dirs(set);
    }
    Ok(placement)
}

/// Assigns every file in order, starting from an empty set, and returns the
/// set with where each file was put. Stops at the first file larger than the
/// capacity.
pub fn split_dir(config: &Config, files: &Vec<SourceFile>) -> (r: Result<(PartitionSet, Vec<Placement>), AssignError>)
    requires
        files.len() < u64::MAX,
    ensures
        r is Err <==> exists|k: int| 0 <= k < files.len() && files@[k].size > config.max_size,
        r matches Err(AssignError::FileTooLarge { path }) ==> exists|k: int|
            first_oversized(files@, config.max_size as nat, k) && path == files@[k].path,
        r matches Ok((set, ps)) ==> {
            &&& set@ == run(files@, config.max_size as nat, config.retain_history)
            &&& set.wf(config.max_size)
            &&& ps.len() == files.len()
            &&& forall|k: int| 0 <= k < files.len() ==> {
                let before = #[trigger] run(files@.subrange(0, k), config.max_size as nat, config.retain_history);
                &&& ps@[k].id == placed_id(before, files@[k].size as nat, config.max_size as nat)
                &&& ps@[k].created == (first_fit(before.list, files@[k].size as nat, config.max_size as nat)
                    == before.list.len())
            }
        },
{
    let max = config.max_size;
    let mut set = PartitionSet::new();
    let mut ps: Vec<Placement> = Vec::new();
    let mut i: usize = 0;
    assert(files@.subrange(0, 0) =~= Seq::<SourceFile>::empty());
    assert(set@.list =~= Seq::<PartitionModel>::empty());
    while i < files.len()
        invariant
            i <= files.len(),
            files.len() < u64::MAX,
            max == config.max_size,
            set.next_id <= i,
            set.wf(max),
            set@ == run(files@.subrange(0, i as int), max as nat, config.retain_history),
            ps.len() == i,
            forall|j: int| 0 <= j < i ==> #[trigger] files@[j].size <= max,
            forall|k: int| 0 <= k < i ==> {
                let before = #[trigger] run(files@.subrange(0, k), max as nat, config.retain_history);
                &&& ps@[k].id == placed_id(before, files@[k].size as nat, max as nat)
                &&& ps@[k].created == (first_fit(before.list, files@[k].size as nat, max as nat)
                    == before.list.len())
            },
        decreases files.len() - i,
    {
        let f = &files[i];
        if f.size > max {
            let path = f.path.clone();
            assert(files@[i as int].size > max);
            assert(first_oversized(files@, max as nat, i as int));
            assert(path == files@[i as int].path);
            let r: Result<(PartitionSet, Vec<Placement>), AssignError> = Err(AssignError::FileTooLarge { path });
            return r;
        }
        let ghost before = set@;
        let res = set_file_to_available_dir(&mut set, f.path.clone(), f.size, config);
        match res {
            Ok(p) => {
                ps.push(p);
            },
            Err(_) => {},
        }
        proof {
            let next = files@.subrange(0, i + 1);
            assert(next.drop_last() =~= files@.subrange(0, i as int));
        }
        i = i + 1;
    }
    assert(files@.subrange(0, i as int) =~= files@);
    Ok((set, ps))
}

/// Every partition of a run holds at most the capacity, for any files that
/// each fit within it.
pub proof fn partitions_stay_within_capacity(files: Seq<SourceFile>, max: nat, retain: bool)
    requires
        forall|k: int| 0 <= k < files.len() ==> #[trigger] files[k].size <= max,
    ensures
        model_wf(run(files, max, retain), max),
        forall|i: int| 0 <= i < run(files, max, retain).list.len() ==>
            #[trigger] run(files, max, retain).list[i].size <= max,
    decreases files.len(),
{
    if files.len() > 0 {
        let prefix = files.drop_last();
        assert forall|k: int| 0 <= k < prefix.len() implies #[trigger] prefix[k].size <= max by {
            assert(prefix[k] == files[k]);
        }
        partitions_stay_within_capacity(prefix, max, retain);
        lemma_step_wf(run(prefix, max, retain), files.last().path, files.last().size as nat, max, retain);
    }
}

/// With history retained, a file joins the oldest partition that has room
/// for it, however many newer partitions there are; no partition is created.
pub proof fn oldest_fitting_partition_wins(m: SetModel, file: String, size: nat, max: nat, i: int)
    requires
        0 <= i < m.list.len(),
        fits(m.list[i].size, size, max),
        forall|j: int| 0 <= j < i ==> !fits(#[trigger] m.list[j].size, size, max),
    ensures
        step(m, file, size, max, true).next_id == m.next_id,
        step(m, file, size, max, true).list == m.list.update(i, with_file(m.list[i], file, size)),
        placed_id(m, size, max) == m.list[i].id,
{
    lemma_first_fit(m.list, size, max, i);
}

/// The total size of the files that a run puts in partition `id`.
pub open spec fn total_in(files: Seq<SourceFile>, max: nat, retain: bool, id: nat) -> nat
    decreases files.len(),
{
    if files.len() == 0 {
        0
    } else {
        let prefix = files.drop_last();
        total_in(prefix, max, retain, id) + if placed_id(run(prefix, max, retain), files.last().size as nat, max) == id {
            files.last().size as nat
        } else {
            0nat
        }
    }
}

proof fn lemma_totals(files: Seq<SourceFile>, max: nat, retain: bool)
    requires
        forall|k: int| 0 <= k < files.len() ==> #[trigger] files[k].size <= max,
    ensures
        model_wf(run(files, max, retain), max),
        forall|i: int| 0 <= i < run(files, max, retain).list.len() ==>
            total_in(files, max, retain, #[trigger] run(files, max, retain).list[i].id) == run(files, max, retain).list[i].size,
        forall|id: nat| #[trigger] total_in(files, max, retain, id) <= max,
        forall|id: nat| id >= run(files, max, retain).next_id ==> #[trigger] total_in(files, max, retain, id) == 0,
    decreases files.len(),
{
    if files.len() > 0 {
        let prefix = files.drop_last();
        assert forall|k: int| 0 <= k < prefix.len() implies #[trigger] prefix[k].size <= max by {
            assert(prefix[k] == files[k]);
        }
        lemma_totals(prefix, max, retain);
        let m = run(prefix, max, retain);
        let f = files.last();
        let sz = f.size as nat;
        lemma_first_fit_fits(m.list, sz, max);
        lemma_step_wf(m, f.path, sz, max, retain);
        let t = placed_id(m, sz, max);
        let p = placed(m, f.path, sz, max);
        let fi = first_fit(m.list, sz, max);
        assert forall|id: nat| #[trigger] total_in(files, max, retain, id)
            == total_in(prefix, max, retain, id) + if t == id { sz } else { 0nat } by {}
        assert forall|i: int| 0 <= i < p.list.len() implies
            total_in(files, max, retain, #[trigger] p.list[i].id) == p.list[i].size by {
            if fi < m.list.len() {
                if i != fi {
                    assert(p.list[i] == m.list[i]);
                    if i < fi { assert(m.list[i].id < m.list[fi as int].id); }
                    else { assert(m.list[fi as int].id < m.list[i].id); }
                }
            } else {
                if i < m.list.len() {
                    assert(p.list[i] == m.list[i]);
                    assert(m.list[i].id < m.next_id);
                }
            }
        }
        assert forall|id: nat| #[trigger] total_in(files, max, retain, id) <= max by {
            if t == id {
                if fi < m.list.len() {
                    assert(total_in(prefix, max, retain, id) == m.list[fi as int].size);
                } else {
                    assert(total_in(prefix, max, retain, id) == 0);
                }
            }
        }
        assert forall|id: nat| id >= p.next_id implies #[trigger] total_in(files, max, retain, id) == 0 by {
            assert(total_in(prefix, max, retain, id) == 0);
        }
        if !retain && p.list.len() >= 2 {
            let tl = trimmed(p.list);
            assert forall|i: int| 0 <= i < tl.len() implies
                total_in(files, max, retain, #[trigger] tl[i].id) == tl[i].size by {
                assert(tl[i] == p.list[i + 1]);
            }
        }
    }
}

/// However partitions are trimmed, the files that a run puts in any one
/// partition add up to at most the capacity, for any files that each fit
/// within it.
pub proof fn every_partition_total_within_capacity(files: Seq<SourceFile>, max: nat, retain: bool, id: nat)
    requires
        forall|k: int| 0 <= k < files.len() ==> #[trigger] files[k].size <= max,
    ensures
        total_in(files, max, retain, id) <= max,
{
    lemma_totals(files, max, retain);
}

/// With history retained, every partition ever created stays a candidate:
/// the list holds exactly the ids `0..next_id`, in creation order.
pub proof fn history_keeps_every_partition(files: Seq<SourceFile>, max: nat)
    ensures
        run(files, max, true).list.len() == run(files, max, true).next_id,
        forall|i: int| 0 <= i < run(files, max, true).list.len() ==> #[trigger] run(files, max, true).list[i].id == i,
    decreases files.len(),
{
    if files.len() > 0 {
        history_keeps_every_partition(files.drop_last(), max);
        let m = run(files.drop_last(), max, true);
        lemma_first_fit_fits(m.list, files.last().size as nat, max);
        let p = placed(m, files.last().path, files.last().size as nat, max);
        assert forall|i: int| 0 <= i < p.list.len() implies #[trigger] p.list[i].id == i by {
            if i < m.list.len() {
                assert(m.list[i].id == i);
            }
        }
    }
}

/// Without history, at most one partition stays a candidate between files,
/// so at most two (it and a new one) are ever considered for a file.
pub proof fn lookback_is_bounded(files: Seq<SourceFile>, max: nat)
    ensures
        run(files, max, false).list.len() <= 1,
    decreases files.len(),
{
    if files.len() > 0 {
        lookback_is_bounded(files.drop_last(), max);
        let m = run(files.drop_last(), max, false);
        let p = placed(m, files.last().path, files.last().size as nat, max);
        lemma_first_fit_fits(m.list, files.last().size as nat, max);
        assert(p.list.len() <= m.list.len() + 1);
    }
}

} // verus!
