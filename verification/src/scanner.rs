use vstd::prelude::*;
use crate::entry::{DirectoryEntry, EntryType, SizeState};
use crate::paths::{same_path, parent_path, paths_equal, parent_of};
use crate::listing::{
    split_groups, size_rank, group_ranks, groups_nonempty, is_stable_order,
    lemma_insert_keeps_stable_order, lemma_split_groups_nonempty, is_size_sorting, arrange,
};

verus! {

/// What a walk of the tree does with an entry it has just found.
pub struct WalkStep {
    /// Start computing the entry's size.
    pub measure_size: bool,
    /// Walk on into the entry.
    pub descend: bool,
}

/// The entries found under a directory, down to a chosen depth.
pub struct DirectoryScanner {
    /// The directory being listed.
    pub current_dir: String,
    /// How many levels below the directory the listing reaches.
    pub depth: usize,
    /// The listing, in the order in which it is shown.
    pub entries: Vec<DirectoryEntry>,
    /// How many directories the walk in progress has entered and not yet
    /// left: the level at which the next entry it finds lies.
    pub walk_level: usize,
}

/// The shape of a listing that a walk of the tree produces, depth first and
/// reaching `max` levels down: every entry lies at most `max` levels down,
/// the first lies at the top, and each entry lies at most one level below the
/// one before it, and one level below it only where that one is a directory
/// (which the walk entered).
pub open spec fn walk_shape(entries: Seq<DirectoryEntry>, max: nat) -> bool {
    &&& forall|i: int| 0 <= i < entries.len() ==> #[trigger] entries[i].depth <= max
    &&& entries.len() > 0 ==> entries[0].depth == 0
    &&& forall|i: int| 0 < i < entries.len() ==> #[trigger] walk_step(entries, i)
}

/// Entry `i` lies at most one level below entry `i - 1`, and one level
/// below it only where that one is a directory.
pub open spec fn walk_step(entries: Seq<DirectoryEntry>, i: int) -> bool {
    &&& entries[i].depth <= entries[i - 1].depth + 1
    &&& entries[i].depth == entries[i - 1].depth + 1 ==> entries[i - 1].kind
        == EntryType::Directory
}

/// The scanner is in a state that a walk of the listed directory can reach:
/// the listing has the shape of a walk, and the walk stands at the top where
/// nothing is listed yet, and otherwise at most one level below the last
/// entry, one level below it only where the walk entered it (a directory
/// above the depth that the listing reaches).
pub open spec fn walk_consistent(sc: DirectoryScanner) -> bool {
    let e = sc.entries@;
    &&& walk_shape(e, sc.depth as nat)
    &&& e.len() == 0 ==> sc.walk_level == 0
    &&& e.len() > 0 ==> {
        &&& sc.walk_level <= e.last().depth + 1
        &&& sc.walk_level == e.last().depth + 1 ==> e.last().kind == EntryType::Directory
            && e.last().depth < sc.depth
    }
}

/// An entry that a walk found below the top has its parent directory before
/// it: the nearest earlier entry one level up, which is a directory, with
/// only entries at its own level or deeper in between.
pub proof fn lemma_walk_parent_precedes(entries: Seq<DirectoryEntry>, max: nat, i: int)
    requires
        walk_shape(entries, max),
        0 <= i < entries.len(),
        entries[i].depth > 0,
    ensures
        exists|j: int|
            #![trigger entries[j]]
            0 <= j < i && entries[j].depth + 1 == entries[i].depth && entries[j].kind
                == EntryType::Directory && forall|k: int|
                j < k < i ==> #[trigger] entries[k].depth >= entries[i].depth,
{
    lemma_walk_ancestor(entries, max, i, entries[i].depth as int);
}

/// Below level `d`, the nearest earlier entry one level up from `d` is a
/// directory, with only entries at level `d` or deeper between.
proof fn lemma_walk_ancestor(entries: Seq<DirectoryEntry>, max: nat, m: int, d: int)
    requires
        walk_shape(entries, max),
        0 <= m < entries.len(),
        0 < d <= entries[m].depth,
    ensures
        exists|j: int|
            #![trigger entries[j]]
            0 <= j < m && entries[j].depth + 1 == d && entries[j].kind == EntryType::Directory
                && forall|k: int| j < k < m ==> #[trigger] entries[k].depth >= d,
    decreases m,
{
    assert(m > 0);
    assert(walk_step(entries, m));
    if entries[m - 1].depth + 1 == d {
        assert(entries[m].depth == entries[m - 1].depth + 1);
        assert(entries[m - 1].kind == EntryType::Directory);
    } else {
        lemma_walk_ancestor(entries, max, m - 1, d);
        let j = choose|j: int|
            #![trigger entries[j]]
            0 <= j < m - 1 && entries[j].depth + 1 == d && entries[j].kind == EntryType::Directory
                && forall|k: int| j < k < m - 1 ==> #[trigger] entries[k].depth >= d;
        assert forall|k: int| j < k < m implies #[trigger] entries[k].depth >= d by {
            if k == m - 1 {
            }
        }
        assert(entries[j].depth + 1 == d);
    }
}

/// `i` is the first position of `entries` whose path is `path`.
pub open spec fn is_first_match(entries: Seq<DirectoryEntry>, path: Seq<char>, i: int) -> bool {
    &&& 0 <= i < entries.len()
    &&& same_path(entries[i].path@, path)
    &&& forall|j: int| 0 <= j < i ==> !same_path(#[trigger] entries[j].path@, path)
}

/// No entry has the path `path`.
pub open spec fn no_match(entries: Seq<DirectoryEntry>, path: Seq<char>) -> bool {
    forall|j: int| 0 <= j < entries.len() ==> !same_path(#[trigger] entries[j].path@, path)
}

/// The entry `e` with its size state replaced by `state`.
pub open spec fn with_state(e: DirectoryEntry, state: SizeState) -> DirectoryEntry {
    DirectoryEntry { size_state: state, ..e }
}

/// `s` with the size state of the first entry whose path is `path` set to
/// `state`; `s` itself where no entry has that path.
pub open spec fn set_state_at_path(s: Seq<DirectoryEntry>, path: Seq<char>, state: SizeState) -> Seq<
    DirectoryEntry,
> {
    if exists|i: int| is_first_match(s, path, i) {
        let i = choose|i: int| is_first_match(s, path, i);
        s.update(i, with_state(s[i], state))
    } else {
        s
    }
}

/// Recording a state for a path that the listing holds changes the size state
/// of the first entry with that path, and nothing else.
pub proof fn lemma_state_set_at_first_match(
    s: Seq<DirectoryEntry>,
    path: Seq<char>,
    state: SizeState,
    i: int,
)
    requires
        is_first_match(s, path, i),
    ensures
        set_state_at_path(s, path, state).len() == s.len(),
        set_state_at_path(s, path, state)[i].size_state == state,
        set_state_at_path(s, path, state)[i].path == s[i].path,
        set_state_at_path(s, path, state)[i].name == s[i].name,
        set_state_at_path(s, path, state)[i].depth == s[i].depth,
        set_state_at_path(s, path, state)[i].kind == s[i].kind,
        forall|j: int| 0 <= j < s.len() && j != i ==> set_state_at_path(s, path, state)[j] == s[j],
{
    let k = choose|k: int| is_first_match(s, path, k);
    assert(k == i) by {
        if k < i {
            assert(!same_path(s[k].path@, path));
        } else if k > i {
            assert(!same_path(s[i].path@, path));
        }
    }
}

/// Recording a state for a path that no entry has changes nothing.
pub proof fn lemma_state_set_without_match(s: Seq<DirectoryEntry>, path: Seq<char>, state: SizeState)
    requires
        no_match(s, path),
    ensures
        set_state_at_path(s, path, state) == s,
{
    if exists|i: int| is_first_match(s, path, i) {
        let i = choose|i: int| is_first_match(s, path, i);
        assert(!same_path(s[i].path@, path));
    }
}

impl DirectoryScanner {
    /// A scanner of `current_dir` that reaches `depth` levels down and holds
    /// no entries yet.
    pub fn new(current_dir: String, depth: usize) -> (r: Self)
        ensures
            r.current_dir == current_dir,
            r.depth == depth,
            r.entries@.len() == 0,
            r.walk_level == 0,
            walk_consistent(r),
    {
        DirectoryScanner { current_dir, depth, entries: Vec::new(), walk_level: 0 }
    }

    /// Empties the listing for a walk of the listed directory, which starts
    /// at the top.
    pub fn begin_walk(&mut self)
        ensures
            final(self).entries@.len() == 0,
            final(self).walk_level == 0,
            final(self).current_dir == old(self).current_dir,
            final(self).depth == old(self).depth,
            walk_consistent(*final(self)),
    {
        self.entries.clear();
        self.walk_level = 0;
    }

    /// The walk has read all of the directory it last entered and goes back
    /// up one level (it stays at the top once there).
    pub fn leave_dir(&mut self)
        ensures
            final(self).walk_level == (if old(self).walk_level > 0 {
                old(self).walk_level - 1
            } else {
                0
            }),
            final(self).entries == old(self).entries,
            final(self).current_dir == old(self).current_dir,
            final(self).depth == old(self).depth,
            walk_consistent(*old(self)) ==> walk_consistent(*final(self)),
    {
        if self.walk_level > 0 {
            self.walk_level = self.walk_level - 1;
        }
    }

    /// The listing.
    pub fn entries(&self) -> (r: &[DirectoryEntry])
        ensures
            r@ == self.entries@,
    {
        self.entries.as_slice()
    }

    /// Reaches one level further down.
    pub fn increase_depth(&mut self)
        requires
            old(self).depth < usize::MAX,
        ensures
            final(self).depth == old(self).depth + 1,
            final(self).current_dir == old(self).current_dir,
            final(self).entries == old(self).entries,
            final(self).walk_level == old(self).walk_level,
    {
        self.depth = self.depth + 1;
    }

    /// Reaches one level less far down.
    pub fn decrease_depth(&mut self)
        requires
            old(self).depth > 0,
        ensures
            final(self).depth == old(self).depth - 1,
            final(self).current_dir == old(self).current_dir,
            final(self).entries == old(self).entries,
            final(self).walk_level == old(self).walk_level,
    {
        self.depth = self.depth - 1;
    }

    /// How many levels down the listing reaches.
    pub fn get_depth(&self) -> (r: usize)
        ensures
            r == self.depth,
    {
        self.depth
    }

    /// The directory being listed.
    pub fn get_current_dir(&self) -> (r: &String)
        ensures
            r == self.current_dir,
    {
        &self.current_dir
    }

    /// The parent of the directory being listed, if it has one.
    pub fn get_parent_dir(&self) -> (r: Option<String>)
        ensures
            match r {
                Some(q) => parent_path(self.current_dir@) == Some(q@),
                None => parent_path(self.current_dir@) is None,
            },
    {
        parent_of(self.current_dir.as_str())
    }

    /// The number of entries.
    pub fn len(&self) -> (r: usize)
        ensures
            r == self.entries@.len(),
    {
        self.entries.len()
    }

    /// Makes `path` the directory being listed. The listing is emptied; a walk
    /// of the new directory fills it again.
    pub fn change_dir(&mut self, path: String)
        ensures
            final(self).current_dir == path,
            final(self).depth == old(self).depth,
            final(self).entries@.len() == 0,
            final(self).walk_level == 0,
            walk_consistent(*final(self)),
    {
        self.current_dir = path;
        self.entries.clear();
        self.walk_level = 0;
    }

    /// Opens the entry at `index` if it is a directory: it becomes the
    /// directory being listed, and the listing is emptied for a new walk.
    /// Returns whether it was opened; otherwise nothing changes.
    pub fn navigate_to_index(&mut self, index: usize) -> (r: bool)
        ensures
            r == (index < old(self).entries@.len() && old(self).entries@[index as int].kind
                == EntryType::Directory),
            r ==> final(self).current_dir == old(self).entries@[index as int].path
                && final(self).entries@.len() == 0 && final(self).walk_level == 0,
            !r ==> final(self).current_dir == old(self).current_dir
                && final(self).entries == old(self).entries
                && final(self).walk_level == old(self).walk_level,
            final(self).depth == old(self).depth,
    {
        if index < self.entries.len() && self.entries[index].is_dir() {
            let path = self.entries[index].path.clone();
            self.change_dir(path);
            true
        } else {
            false
        }
    }

    /// Adds an entry that the walk found at the level where it stands: a
    /// directory, whose size is pending, or a file, sized by `len` (its length,
    /// or nothing where its metadata could not be read). Says what the walk
    /// does next: it has the size of a directory computed, and goes on into a
    /// directory that lies above the depth that the listing reaches, one level
    /// further down (`leave_dir` brings it back once that directory is read).
    pub fn record_found(
        &mut self,
        name: String,
        path: String,
        is_dir: bool,
        len: Option<u64>,
    ) -> (step: WalkStep)
        ensures
            step.measure_size == is_dir,
            step.descend == (is_dir && old(self).walk_level < old(self).depth),
            final(self).walk_level == (if step.descend {
                old(self).walk_level + 1
            } else {
                old(self).walk_level as int
            }),
            walk_consistent(*old(self)) ==> walk_consistent(*final(self)),
            final(self).entries@ == old(self).entries@.push(
                DirectoryEntry {
                    name,
                    path,
                    depth: old(self).walk_level,
                    kind: if is_dir { EntryType::Directory } else { EntryType::File },
                    size_state: if is_dir {
                        SizeState::Pending
                    } else {
                        match len {
                            Some(n) => SizeState::Calculated(n),
                            None => SizeState::Error,
                        }
                    },
                },
            ),
            final(self).current_dir == old(self).current_dir,
            final(self).depth == old(self).depth,
    {
        let ghost was = *self;
        let level = self.walk_level;
        let entry = if is_dir {
            DirectoryEntry::directory(name, path, level)
        } else {
            DirectoryEntry::file(name, path, level, len)
        };
        let ghost before = self.entries@;
        self.entries.push(entry);
        let descend = is_dir && level < self.depth;
        if descend {
            self.walk_level = level + 1;
        }
        proof {
            if walk_consistent(was) {
                let e = self.entries@;
                assert(before == was.entries@);
                assert forall|i: int| 0 < i < e.len() implies #[trigger] walk_step(e, i) by {
                    assert(e[i] == if i < before.len() { before[i] } else { entry });
                    assert(e[i - 1] == before[i - 1]);
                    if i < e.len() - 1 {
                        assert(walk_step(before, i));
                    }
                }
                assert forall|i: int| 0 <= i < e.len() implies #[trigger] e[i].depth <= self.depth by {
                    if i < before.len() {
                        assert(e[i] == before[i]);
                    }
                }
            }
        }
        WalkStep { measure_size: is_dir, descend }
    }

    /// The position of the first entry whose path is `path`.
    fn find_entry(&self, path: &str) -> (r: Option<usize>)
        ensures
            match r {
                Some(i) => is_first_match(self.entries@, path@, i as int),
                None => no_match(self.entries@, path@),
            },
    {
        let mut i: usize = 0;
        while i < self.entries.len()
            invariant
                i <= self.entries@.len(),
                forall|j: int| 0 <= j < i ==> !same_path(#[trigger] self.entries@[j].path@, path@),
            decreases self.entries@.len() - i,
        {
            if paths_equal(self.entries[i].path.as_str(), path) {
                return Some(i);
            }
            i = i + 1;
        }
        None
    }

    /// Marks the size of the first entry with the given path as failed.
    pub fn set_error_size(&mut self, path: &str)
        ensures
            final(self).entries@ == set_state_at_path(old(self).entries@, path@, SizeState::Error),
            final(self).current_dir == old(self).current_dir,
            final(self).depth == old(self).depth,
            final(self).walk_level == old(self).walk_level,
    {
        match self.find_entry(path) {
            Some(i) => {
                self.entries[i].set_error_size();
            },
            None => {},
        }
    }

    /// Records the size of the first entry with the given path.
    pub fn update_size(&mut self, path: &str, size: u64)
        ensures
            final(self).entries@ == set_state_at_path(
                old(self).entries@,
                path@,
                SizeState::Calculated(size),
            ),
            final(self).current_dir == old(self).current_dir,
            final(self).depth == old(self).depth,
            final(self).walk_level == old(self).walk_level,
    {
        match self.find_entry(path) {
            Some(i) => {
                self.entries[i].set_size(size);
            },
            None => {},
        }
    }
    /// Groups the entries by top-level entry and orders the groups by the
    /// size state of their heads: known sizes first, largest first, then
    /// pending ones, then failed ones; groups of equal rank keep their order.
    pub fn sort_entries(&mut self)
        ensures
            is_size_sorting(old(self).entries@, final(self).entries@),
            final(self).current_dir == old(self).current_dir,
            final(self).depth == old(self).depth,
            final(self).walk_level == old(self).walk_level,
    {
        let mut taken: Vec<DirectoryEntry> = Vec::new();
        std::mem::swap(&mut taken, &mut self.entries);
        let ghost s = taken@;
        let groups = split_into_groups(taken);
        proof {
            lemma_split_groups_nonempty(s);
        }
        let sorted = sort_groups(groups);
        let ghost gv = split_groups(s);
        let ghost p = choose|p: Seq<int>|
            is_stable_order(group_ranks(gv), p)
            && groups_view(sorted@) == p.map_values(|i: int| gv[i]);
        let ghost sv = groups_view(sorted@);
        let mut result: Vec<DirectoryEntry> = Vec::new();
        for g in it: sorted
            invariant
                it.seq() == sorted@,
                sv == groups_view(sorted@),
                result@ == sv.take(it.index()).flatten(),
        {
            let ghost k = it.index();
            let mut g = g;
            proof {
                assert(sv[k] == g@);
                assert(sv.take(k + 1) == sv.take(k).push(g@));
                sv.take(k).lemma_flatten_push(g@);
            }
            result.append(&mut g);
        }
        proof {
            assert(sv.take(sv.len() as int) == sv);
            assert(p.map_values(|i: int| gv[i]) =~= p.map_values(|i: int| split_groups(s)[i]));
            assert(result@ == arrange(s, p));
        }
        self.entries = result;
    }
}

/// The views of a vector of groups.
pub open spec fn groups_view(gs: Seq<Vec<DirectoryEntry>>) -> Seq<Seq<DirectoryEntry>> {
    gs.map_values(|g: Vec<DirectoryEntry>| g@)
}

/// Moves the entries into their groups (see `split_groups`).
fn split_into_groups(entries: Vec<DirectoryEntry>) -> (gs: Vec<Vec<DirectoryEntry>>)
    ensures
        groups_view(gs@) == split_groups(entries@),
{
    let ghost all = entries@;
    let mut groups: Vec<Vec<DirectoryEntry>> = Vec::new();
    let mut current: Vec<DirectoryEntry> = Vec::new();
    for entry in it: entries
        invariant
            it.seq() == all,
            it.index() == 0 ==> groups@.len() == 0 && current@.len() == 0,
            it.index() > 0 ==> current@.len() > 0
                && groups_view(groups@).push(current@) == split_groups(all.take(it.index())),
    {
        let ghost k = it.index();
        proof {
            assert(all.take(k + 1).drop_last() == all.take(k));
            assert(all.take(k + 1).last() == entry);
        }
        if current.len() > 0 && entry.depth == 0 {
            let mut finished: Vec<DirectoryEntry> = Vec::new();
            std::mem::swap(&mut finished, &mut current);
            let ghost prev = groups@;
            groups.push(finished);
            current.push(entry);
            proof {
                assert(groups_view(groups@) =~= groups_view(prev).push(finished@));
                assert(current@ =~= seq![entry]);
                let t = all.take(k + 1);
                assert(split_groups(t) == split_groups(t.drop_last()).push(seq![t.last()]));
            }
        } else {
            let ghost before = current@;
            current.push(entry);
            proof {
                if k == 0 {
                    assert(all.take(1).drop_last() =~= Seq::<DirectoryEntry>::empty());
                    assert(current@ =~= seq![entry]);
                    assert(groups_view(groups@) =~= Seq::<Seq<DirectoryEntry>>::empty());
                    assert(split_groups(all.take(1)) == split_groups(all.take(0)).push(seq![entry]));
                } else {
                    let g = split_groups(all.take(k));
                    assert(g == groups_view(groups@).push(before));
                    assert(groups_view(groups@).push(current@) =~= g.update(g.len() - 1, g.last().push(entry)));
                    let t = all.take(k + 1);
                    assert(split_groups(t) == g.update(g.len() - 1, g.last().push(entry)));
                }
            }
        }
    }
    proof {
        assert(all.take(all.len() as int) =~= all);
        if all.len() == 0 {
            assert(groups_view(groups@) =~= Seq::<Seq<DirectoryEntry>>::empty());
        }
    }
    if current.len() > 0 {
        groups.push(current);
    }
    groups
}

/// Whether a group headed by size state `a` goes strictly before one headed by `b`.
fn ranks_before(a: &SizeState, b: &SizeState) -> (r: bool)
    ensures
        r == (size_rank(*a) < size_rank(*b)),
{
    match (a, b) {
        (SizeState::Calculated(x), SizeState::Calculated(y)) => *x > *y,
        (SizeState::Calculated(_), _) => true,
        (_, SizeState::Calculated(_)) => false,
        (SizeState::Pending, SizeState::Error) => true,
        _ => false,
    }
}

/// Stable insertion sort of non-empty groups by the rank of their heads.
fn sort_groups(groups: Vec<Vec<DirectoryEntry>>) -> (sorted: Vec<Vec<DirectoryEntry>>)
    requires
        groups_nonempty(groups_view(groups@)),
    ensures
        exists|p: Seq<int>|
            is_stable_order(group_ranks(groups_view(groups@)), p)
            && groups_view(sorted@) == p.map_values(|i: int| groups_view(groups@)[i]),
{
    let ghost orig = groups@;
    let ghost gv = groups_view(groups@);
    let ghost r = group_ranks(gv);
    let mut sorted: Vec<Vec<DirectoryEntry>> = Vec::new();
    let ghost mut p: Seq<int> = Seq::empty();
    proof {
        assert(is_stable_order(r.take(0), p));
    }
    for g in it: groups
        invariant
            it.seq() == orig,
            gv == groups_view(orig),
            r == group_ranks(gv),
            groups_nonempty(gv),
            is_stable_order(r.take(it.index()), p),
            groups_view(sorted@) == p.map_values(|i: int| gv[i]),
            sorted@.len() == p.len(),
            forall|i: int| 0 <= i < sorted@.len() ==> #[trigger] sorted@[i]@.len() > 0,
    {
        let ghost k = it.index();
        proof {
            assert(gv[k] == g@);
            assert(g@.len() > 0);
            assert(r[k] == size_rank(g@[0].size_state));
        }
        let mut pos: usize = 0;
        while pos < sorted.len() && !ranks_before(&g[0].size_state, &sorted[pos][0].size_state)
            invariant
                pos <= sorted@.len(),
                g@.len() > 0,
                r[k] == size_rank(g@[0].size_state),
                groups_view(sorted@) == p.map_values(|i: int| gv[i]),
                sorted@.len() == p.len(),
                forall|i: int| 0 <= i < sorted@.len() ==> #[trigger] sorted@[i]@.len() > 0,
                is_stable_order(r.take(k), p),
                groups_nonempty(gv),
                r == group_ranks(gv),
                0 <= k < r.len(),
                forall|i: int| 0 <= i < pos ==> r[#[trigger] p[i]] <= r[k],
            decreases sorted@.len() - pos,
        {
            proof {
                assert(groups_view(sorted@)[pos as int] == gv[p[pos as int]]);
                assert(0 <= p[pos as int] < k);
                assert(r[p[pos as int]] == size_rank(gv[p[pos as int]][0].size_state));
            }
            pos = pos + 1;
        }
        proof {
            assert forall|i: int| pos <= i < p.len() implies r[k] < r[#[trigger] p[i]] by {
                let rk = r.take(k);
                assert(groups_view(sorted@)[pos as int] == gv[p[pos as int]]);
                assert(r[p[pos as int]] == size_rank(gv[p[pos as int]][0].size_state));
                if i > pos {
                    assert(rk[p[pos as int]] < rk[p[i]] || (rk[p[pos as int]] == rk[p[i]] && p[pos as int] < p[i]));
                }
            }
            lemma_insert_keeps_stable_order(r, p, k, pos as int);
        }
        let ghost before = sorted@;
        sorted.insert(pos, g);
        proof {
            let old_p = p;
            p = p.insert(pos as int, k);
            assert(groups_view(before) == old_p.map_values(|i: int| gv[i]));
            assert forall|i: int| 0 <= i < sorted@.len() implies #[trigger] groups_view(sorted@)[i] == p.map_values(|i: int| gv[i])[i] by {
                if i < pos {
                    assert(sorted@[i] == before[i]);
                    assert(groups_view(before)[i] == gv[old_p[i]]);
                } else if i > pos {
                    assert(sorted@[i] == before[i - 1]);
                    assert(groups_view(before)[i - 1] == gv[old_p[i - 1]]);
                }
            }
            assert(groups_view(sorted@) =~= p.map_values(|i: int| gv[i]));
        }
    }
    proof {
        assert(r.take(r.len() as int) =~= r);
    }
    sorted
}

} // verus!
