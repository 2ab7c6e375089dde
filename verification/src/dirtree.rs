use vstd::prelude::*;

use crate::path::{compare_paths, path_order};
use crate::text::{text_of, trim, trim_str};

verus! {

/// A directory that searches can run over, with an id that stays fixed while
/// it is moved between groups.
#[derive(Clone, Debug)]
pub struct SearchDir {
    pub id: u64,
    pub path: String,
    pub enabled: bool,
}

/// A named group of directories that can be switched on and off together.
#[derive(Clone, Debug)]
pub struct DirGroup {
    pub id: u64,
    pub name: String,
    pub enabled: bool,
    pub collapsed: bool,
    pub dirs: Vec<SearchDir>,
}

/// The directories a search can run over: some on their own, some in groups,
/// and the next id to hand out.
#[derive(Clone, Debug)]
pub struct DirTree {
    pub free: Vec<SearchDir>,
    pub groups: Vec<DirGroup>,
    pub next_id: u64,
}

impl Default for DirTree {
    fn default() -> (r: DirTree)
        ensures
            r.free@.len() == 0,
            r.groups@.len() == 0,
            r.next_id == 0,
    {
        DirTree { free: Vec::new(), groups: Vec::new(), next_id: 0 }
    }
}

/// The paths of the enabled directories of a list, in order.
pub open spec fn enabled_paths_of(dirs: Seq<SearchDir>) -> Seq<Seq<char>>
    decreases dirs.len(),
{
    if dirs.len() == 0 {
        Seq::empty()
    } else {
        enabled_paths_of(dirs.drop_last()) + if dirs.last().enabled {
            seq![dirs.last().path@]
        } else {
            Seq::empty()
        }
    }
}

/// The paths of the enabled directories of the enabled groups, in order.
pub open spec fn enabled_group_paths(groups: Seq<DirGroup>) -> Seq<Seq<char>>
    decreases groups.len(),
{
    if groups.len() == 0 {
        Seq::empty()
    } else {
        enabled_group_paths(groups.drop_last()) + if groups.last().enabled {
            enabled_paths_of(groups.last().dirs@)
        } else {
            Seq::empty()
        }
    }
}

/// The enabled paths of a list are the paths of its switched-on
/// directories, all of them and in order.
pub proof fn lemma_enabled_paths_of(dirs: Seq<SearchDir>)
    ensures
        enabled_paths_of(dirs) == dirs.filter(|d: SearchDir| d.enabled).map_values(
            |d: SearchDir| d.path@,
        ),
        forall|i: int|
            0 <= i < dirs.len() && dirs[i].enabled ==> enabled_paths_of(dirs).contains(
                #[trigger] dirs[i].path@,
            ),
        forall|x: Seq<char>|
            enabled_paths_of(dirs).contains(x) ==> exists|i: int|
                0 <= i < dirs.len() && dirs[i].enabled && #[trigger] dirs[i].path@ == x,
    decreases dirs.len(),
{
    reveal(Seq::filter);
    let f = |d: SearchDir| d.enabled;
    let g = |d: SearchDir| d.path@;
    if dirs.len() > 0 {
        let init = dirs.drop_last();
        lemma_enabled_paths_of(init);
        assert(enabled_paths_of(dirs) =~= dirs.filter(f).map_values(g)) by {
            assert(dirs.filter(f) == if f(dirs.last()) {
                init.filter(f).push(dirs.last())
            } else {
                init.filter(f)
            });
            if f(dirs.last()) {
                assert(init.filter(f).push(dirs.last()).map_values(g) =~= init.filter(f).map_values(
                    g,
                ).push(dirs.last().path@));
            }
        }
        let r = enabled_paths_of(dirs);
        let ri = enabled_paths_of(init);
        assert forall|i: int| 0 <= i < dirs.len() && dirs[i].enabled implies r.contains(
            #[trigger] dirs[i].path@,
        ) by {
            if i < dirs.len() - 1 {
                assert(init[i] == dirs[i]);
                assert(ri.contains(init[i].path@));
                let k = choose|k: int| 0 <= k < ri.len() && ri[k] == init[i].path@;
                assert(r[k] == ri[k]);
            } else {
                assert(r[r.len() - 1] == dirs[i].path@);
            }
        }
        assert forall|x: Seq<char>| r.contains(x) implies exists|i: int|
            0 <= i < dirs.len() && dirs[i].enabled && #[trigger] dirs[i].path@ == x by {
            let k = choose|k: int| 0 <= k < r.len() && r[k] == x;
            if k < ri.len() {
                assert(ri[k] == r[k]);
                assert(ri.contains(x));
                let i = choose|i: int| 0 <= i < init.len() && init[i].enabled && #[trigger] init[i].path@ == x;
                assert(dirs[i] == init[i]);
            } else {
                assert(dirs[dirs.len() - 1].path@ == x);
            }
        }
    } else {
        assert(dirs.filter(f) =~= dirs);
        assert(dirs.filter(f).map_values(g) =~= Seq::<Seq<char>>::empty());
    }
}

/// The enabled paths of the groups are the paths of the switched-on
/// directories of the switched-on groups: each of them is listed, and
/// nothing else is.
pub proof fn lemma_enabled_group_paths(groups: Seq<DirGroup>)
    ensures
        forall|g: int, i: int|
            0 <= g < groups.len() && 0 <= i < groups[g].dirs@.len() && groups[g].enabled
                && groups[g].dirs@[i].enabled ==> enabled_group_paths(groups).contains(
                #[trigger] groups[g].dirs@[i].path@,
            ),
        forall|x: Seq<char>|
            enabled_group_paths(groups).contains(x) ==> exists|g: int, i: int|
                0 <= g < groups.len() && 0 <= i < groups[g].dirs@.len() && groups[g].enabled
                    && groups[g].dirs@[i].enabled && #[trigger] groups[g].dirs@[i].path@ == x,
    decreases groups.len(),
{
    if groups.len() > 0 {
        let init = groups.drop_last();
        let last = groups.last();
        lemma_enabled_group_paths(init);
        lemma_enabled_paths_of(last.dirs@);
        let ri = enabled_group_paths(init);
        let tail = if last.enabled {
            enabled_paths_of(last.dirs@)
        } else {
            Seq::empty()
        };
        let r = enabled_group_paths(groups);
        assert(r == ri + tail);
        assert forall|g: int, i: int|
            0 <= g < groups.len() && 0 <= i < groups[g].dirs@.len() && groups[g].enabled
                && groups[g].dirs@[i].enabled implies r.contains(
            #[trigger] groups[g].dirs@[i].path@,
        ) by {
            let x = groups[g].dirs@[i].path@;
            if g < groups.len() - 1 {
                assert(init[g] == groups[g]);
                assert(ri.contains(init[g].dirs@[i].path@));
                let k = choose|k: int| 0 <= k < ri.len() && ri[k] == x;
                assert(r[k] == ri[k]);
            } else {
                assert(tail.contains(last.dirs@[i].path@));
                let k = choose|k: int| 0 <= k < tail.len() && tail[k] == x;
                assert(r[ri.len() + k] == tail[k]);
            }
        }
        assert forall|x: Seq<char>| r.contains(x) implies exists|g: int, i: int|
            0 <= g < groups.len() && 0 <= i < groups[g].dirs@.len() && groups[g].enabled
                && groups[g].dirs@[i].enabled && #[trigger] groups[g].dirs@[i].path@ == x by {
            let k = choose|k: int| 0 <= k < r.len() && r[k] == x;
            if k < ri.len() {
                assert(ri[k] == r[k]);
                assert(ri.contains(x));
                let (g, i) = choose|g: int, i: int|
                    0 <= g < init.len() && 0 <= i < init[g].dirs@.len() && init[g].enabled
                        && init[g].dirs@[i].enabled && #[trigger] init[g].dirs@[i].path@ == x;
                assert(groups[g] == init[g]);
            } else {
                assert(tail[k - ri.len()] == x);
                assert(tail.contains(x));
                let i = choose|i: int|
                    0 <= i < last.dirs@.len() && last.dirs@[i].enabled && #[trigger] last.dirs@[i].path@ == x;
                assert(groups[groups.len() - 1] == last);
            }
        }
    }
}

/// The number of directories in a list of groups.
pub open spec fn group_dir_count(groups: Seq<DirGroup>) -> int
    decreases groups.len(),
{
    if groups.len() == 0 {
        0
    } else {
        group_dir_count(groups.drop_last()) + groups.last().dirs@.len()
    }
}

/// `i` is the first index of a directory with the id.
pub open spec fn first_with_id(dirs: Seq<SearchDir>, id: u64, i: int) -> bool {
    &&& 0 <= i < dirs.len()
    &&& dirs[i].id == id
    &&& forall|j: int| 0 <= j < i ==> #[trigger] dirs[j].id != id
}

/// Some directory of the list has the id.
pub open spec fn contains_id(dirs: Seq<SearchDir>, id: u64) -> bool {
    exists|i: int| 0 <= i < dirs.len() && #[trigger] dirs[i].id == id
}

/// `g` is the first group that holds a directory with the id.
pub open spec fn first_group_holding(groups: Seq<DirGroup>, id: u64, g: int) -> bool {
    &&& 0 <= g < groups.len()
    &&& contains_id(groups[g].dirs@, id)
    &&& forall|h: int| 0 <= h < g ==> !contains_id(#[trigger] groups[h].dirs@, id)
}

/// Some group holds a directory with the id.
pub open spec fn any_group_holds(groups: Seq<DirGroup>, id: u64) -> bool {
    exists|g: int| 0 <= g < groups.len() && contains_id(#[trigger] groups[g].dirs@, id)
}

/// `g` is the first group with the id.
pub open spec fn first_group_with_id(groups: Seq<DirGroup>, id: u64, g: int) -> bool {
    &&& 0 <= g < groups.len()
    &&& groups[g].id == id
    &&& forall|h: int| 0 <= h < g ==> #[trigger] groups[h].id != id
}

/// `a` and `b` are the same group but for its directories.
pub open spec fn same_group_but_dirs(a: DirGroup, b: DirGroup) -> bool {
    a.id == b.id && a.name == b.name && a.enabled == b.enabled && a.collapsed == b.collapsed
}

/// The position of the first directory with the id.
fn position_of(dirs: &Vec<SearchDir>, id: u64) -> (r: Option<usize>)
    ensures
        r matches Some(i) ==> first_with_id(dirs@, id, i as int),
        r is None ==> !contains_id(dirs@, id),
{
    let mut i: usize = 0;
    while i < dirs.len()
        invariant
            i <= dirs@.len(),
            forall|j: int| 0 <= j < i ==> #[trigger] dirs@[j].id != id,
        decreases dirs@.len() - i,
    {
        if dirs[i].id == id {
            return Some(i);
        }
        i = i + 1;
    }
    None
}

/// The largest of `start` and the ids of the directories.
pub open spec fn max_id_in(start: int, dirs: Seq<SearchDir>) -> int
    decreases dirs.len(),
{
    if dirs.len() == 0 {
        start
    } else {
        let m = max_id_in(start, dirs.drop_last());
        if dirs.last().id > m {
            dirs.last().id as int
        } else {
            m
        }
    }
}

/// The largest of `start` and the ids of the directories of the groups.
pub open spec fn max_id_in_groups(start: int, groups: Seq<DirGroup>) -> int
    decreases groups.len(),
{
    if groups.len() == 0 {
        start
    } else {
        max_id_in(max_id_in_groups(start, groups.drop_last()), groups.last().dirs@)
    }
}

proof fn lemma_max_id_in(start: int, dirs: Seq<SearchDir>)
    ensures
        start <= max_id_in(start, dirs),
        forall|i: int| 0 <= i < dirs.len() ==> #[trigger] dirs[i].id <= max_id_in(start, dirs),
        max_id_in(start, dirs) == start || exists|i: int|
            0 <= i < dirs.len() && max_id_in(start, dirs) == #[trigger] dirs[i].id,
    decreases dirs.len(),
{
    if dirs.len() > 0 {
        lemma_max_id_in(start, dirs.drop_last());
        let m = max_id_in(start, dirs.drop_last());
        assert forall|i: int| 0 <= i < dirs.len() implies #[trigger] dirs[i].id <= max_id_in(
            start,
            dirs,
        ) by {
            if i < dirs.len() - 1 {
                assert(dirs.drop_last()[i] == dirs[i]);
            }
        }
        if max_id_in(start, dirs) != start {
            if dirs.last().id > m {
                assert(max_id_in(start, dirs) == dirs[dirs.len() - 1].id);
            } else {
                let i = choose|i: int|
                    0 <= i < dirs.drop_last().len() && m == #[trigger] dirs.drop_last()[i].id;
                assert(dirs[i] == dirs.drop_last()[i]);
            }
        }
    }
}

proof fn lemma_max_id_in_groups(start: int, groups: Seq<DirGroup>)
    ensures
        start <= max_id_in_groups(start, groups),
        forall|g: int, i: int|
            0 <= g < groups.len() && 0 <= i < groups[g].dirs@.len() ==> #[trigger] groups[g].dirs@[i].id
                <= max_id_in_groups(start, groups),
        max_id_in_groups(start, groups) == start || exists|g: int, i: int|
            0 <= g < groups.len() && 0 <= i < groups[g].dirs@.len() && max_id_in_groups(
                start,
                groups,
            ) == #[trigger] groups[g].dirs@[i].id,
    decreases groups.len(),
{
    if groups.len() > 0 {
        let prev = groups.drop_last();
        lemma_max_id_in_groups(start, prev);
        let m = max_id_in_groups(start, prev);
        let last = groups.last().dirs@;
        lemma_max_id_in(m, last);
        assert forall|g: int, i: int|
            0 <= g < groups.len() && 0 <= i < groups[g].dirs@.len() implies #[trigger] groups[g].dirs@[i].id
            <= max_id_in_groups(start, groups) by {
            if g < groups.len() - 1 {
                assert(prev[g] == groups[g]);
                assert(prev[g].dirs@[i].id <= m);
            }
        }
        if max_id_in_groups(start, groups) != start {
            if max_id_in(m, last) != m {
                let i = choose|i: int| 0 <= i < last.len() && max_id_in(m, last) == #[trigger] last[i].id;
                assert(groups[groups.len() - 1].dirs@[i].id == max_id_in_groups(start, groups));
            } else {
                let (g, i) = choose|g: int, i: int|
                    0 <= g < prev.len() && 0 <= i < prev[g].dirs@.len() && m == #[trigger] prev[g].dirs@[i].id;
                assert(prev[g] == groups[g]);
                assert(groups[g].dirs@[i].id == max_id_in_groups(start, groups));
            }
        }
    }
}

/// The free directories once a legacy flat list has been taken over: the
/// legacy entries, numbered from 0, where there was a legacy list and no free
/// directory; else the free directories as they were.
pub open spec fn migrated_free(free: Seq<SearchDir>, legacy: Seq<SearchDir>) -> Seq<SearchDir> {
    if legacy.len() > 0 && free.len() == 0 {
        Seq::new(
            legacy.len(),
            |i: int| SearchDir { id: i as u64, path: legacy[i].path, enabled: legacy[i].enabled },
        )
    } else {
        free
    }
}

/// The next id once the legacy list is taken over and before ids are
/// checked: the length of the taken list, or the stored one; where that is
/// 0, ten more than the number of directories.
pub open spec fn migrated_base_id(tree: DirTree, legacy: Seq<SearchDir>) -> int {
    let free = migrated_free(tree.free@, legacy);
    let n = if legacy.len() > 0 && tree.free@.len() == 0 {
        legacy.len() as int
    } else {
        tree.next_id as int
    };
    if n == 0 {
        free.len() + group_dir_count(tree.groups@) + 10
    } else {
        n
    }
}

/// The next id after loading: one more than the largest of the base id and
/// every directory id.
pub open spec fn migrated_next_id(tree: DirTree, legacy: Seq<SearchDir>) -> int {
    max_id_in_groups(
        max_id_in(migrated_base_id(tree, legacy), migrated_free(tree.free@, legacy)),
        tree.groups@,
    ) + 1
}

/// What reading a tree back does: where the tree has no free directories
/// and there is a legacy list, the free directories become that list, each
/// entry keeping its path and its on/off state and taking its position as
/// id; otherwise the free directories stay as they are. The next id is one
/// more than the largest of every id in use and the stored next id (the
/// length of a list taken over; ten more than the number of directories
/// where that is 0).
pub proof fn lemma_migrate_loaded_law(tree: DirTree, legacy: Seq<SearchDir>)
    requires
        legacy.len() <= usize::MAX,
    ensures
        ({
            let f = migrated_free(tree.free@, legacy);
            let taken = legacy.len() > 0 && tree.free@.len() == 0;
            let n: int = if taken {
                legacy.len() as int
            } else {
                tree.next_id as int
            };
            let base: int = if n == 0 {
                f.len() + group_dir_count(tree.groups@) + 10
            } else {
                n
            };
            let next = migrated_next_id(tree, legacy);
            &&& taken ==> f.len() == legacy.len() && forall|i: int|
                0 <= i < legacy.len() ==> #[trigger] f[i].id == i && f[i].path == legacy[i].path
                    && f[i].enabled == legacy[i].enabled
            &&& !taken ==> f == tree.free@
            &&& base < next
            &&& forall|i: int| 0 <= i < f.len() ==> #[trigger] f[i].id < next
            &&& forall|g: int, i: int|
                0 <= g < tree.groups@.len() && 0 <= i < tree.groups@[g].dirs@.len()
                    ==> #[trigger] tree.groups@[g].dirs@[i].id < next
            &&& next - 1 == base || (exists|i: int| 0 <= i < f.len() && #[trigger] f[i].id == next - 1)
                || (exists|g: int, i: int|
                0 <= g < tree.groups@.len() && 0 <= i < tree.groups@[g].dirs@.len()
                    && #[trigger] tree.groups@[g].dirs@[i].id == next - 1)
        }),
{
    let f = migrated_free(tree.free@, legacy);
    let base = migrated_base_id(tree, legacy);
    lemma_max_id_in(base, f);
    let m = max_id_in(base, f);
    lemma_max_id_in_groups(m, tree.groups@);
    let next = migrated_next_id(tree, legacy);
    assert(next == max_id_in_groups(m, tree.groups@) + 1);
    if legacy.len() > 0 && tree.free@.len() == 0 {
        assert forall|i: int| 0 <= i < legacy.len() implies #[trigger] f[i].id == i && f[i].path
            == legacy[i].path && f[i].enabled == legacy[i].enabled by {}
    }
    assert forall|i: int| 0 <= i < f.len() implies #[trigger] f[i].id < next by {}
    if next - 1 != base {
        if max_id_in_groups(m, tree.groups@) == m {
            let i = choose|i: int| 0 <= i < f.len() && m == #[trigger] f[i].id;
            assert(f[i].id == next - 1);
        }
    }
}

/// A tree written to the configuration file (which then holds no legacy
/// list) comes back from `migrate_loaded` with the same directories and the
/// next id one higher, where the next id is not 0 and every id is below it.
pub proof fn lemma_reload_saved_tree(t: DirTree)
    requires
        t.next_id >= 1,
        t.ids_below_next(),
    ensures
        migrated_free(t.free@, Seq::empty()) == t.free@,
        migrated_next_id(t, Seq::empty()) == t.next_id + 1,
{
    let base = migrated_base_id(t, Seq::empty());
    assert(base == t.next_id);
    lemma_max_id_in(base, t.free@);
    let m = max_id_in(base, t.free@);
    assert(m == base) by {
        if m != base {
            let i = choose|i: int| 0 <= i < t.free@.len() && m == #[trigger] t.free@[i].id;
            assert(t.free@[i].id < t.next_id);
        }
    }
    lemma_max_id_in_groups(m, t.groups@);
    let k = max_id_in_groups(m, t.groups@);
    assert(k == m) by {
        if k != m {
            let (g, i) = choose|g: int, i: int|
                0 <= g < t.groups@.len() && 0 <= i < t.groups@[g].dirs@.len() && k
                    == #[trigger] t.groups@[g].dirs@[i].id;
            assert(t.groups@[g].dirs@[i].id < t.next_id);
        }
    }
}

/// `after` is `before` with the first directory with the id taken out: from
/// the free directories if one has it, else from the first group that holds
/// one; `r` is what was taken out.
pub open spec fn dir_removed(before: DirTree, after: DirTree, dir_id: u64, r: Option<SearchDir>) -> bool {
    &&& after.next_id == before.next_id
    &&& contains_id(before.free@, dir_id) ==> exists|i: int|
        {
            &&& #[trigger] first_with_id(before.free@, dir_id, i)
            &&& r == Some(before.free@[i])
            &&& after.free@ == before.free@.remove(i)
            &&& after.groups == before.groups
        }
    &&& !contains_id(before.free@, dir_id) && any_group_holds(before.groups@, dir_id) ==> exists|
        g: int,
        i: int,
    |
        {
            &&& #[trigger] first_group_holding(before.groups@, dir_id, g)
            &&& #[trigger] first_with_id(before.groups@[g].dirs@, dir_id, i)
            &&& r == Some(before.groups@[g].dirs@[i])
            &&& after.free == before.free
            &&& after.groups@.len() == before.groups@.len()
            &&& forall|h: int|
                0 <= h < before.groups@.len() && h != g ==> #[trigger] after.groups@[h]
                    == before.groups@[h]
            &&& same_group_but_dirs(after.groups@[g], before.groups@[g])
            &&& after.groups@[g].dirs@ == before.groups@[g].dirs@.remove(i)
        }
    &&& !contains_id(before.free@, dir_id) && !any_group_holds(before.groups@, dir_id) ==> r is None
        && after.free == before.free && after.groups == before.groups
}

/// What taking a directory out gives: nothing exactly when no directory of
/// the tree has the id, and then the tree is unchanged; else a directory
/// with that id. The next id never changes.
pub proof fn lemma_dir_removed_law(before: DirTree, after: DirTree, dir_id: u64, r: Option<SearchDir>)
    requires
        dir_removed(before, after, dir_id, r),
    ensures
        r is None <==> !before.has_dir_id(dir_id),
        r matches Some(d) ==> d.id == dir_id,
        r is None ==> after.free == before.free && after.groups == before.groups,
        after.next_id == before.next_id,
{
    if contains_id(before.free@, dir_id) {
        let i = choose|i: int| 0 <= i < before.free@.len() && #[trigger] before.free@[i].id == dir_id;
        assert(before.has_dir_id(dir_id));
    } else if any_group_holds(before.groups@, dir_id) {
        let g = choose|g: int| 0 <= g < before.groups@.len() && contains_id(#[trigger] before.groups@[g].dirs@, dir_id);
        let i = choose|i: int| 0 <= i < before.groups@[g].dirs@.len() && #[trigger] before.groups@[g].dirs@[i].id == dir_id;
        assert(before.has_dir_id(dir_id));
    } else {
        if before.has_dir_id(dir_id) {
            if exists|i: int| 0 <= i < before.free@.len() && #[trigger] before.free@[i].id == dir_id {
            } else {
                let (g, i) = choose|g: int, i: int|
                    0 <= g < before.groups@.len() && 0 <= i < before.groups@[g].dirs@.len()
                        && #[trigger] before.groups@[g].dirs@[i].id == dir_id;
                assert(contains_id(before.groups@[g].dirs@, dir_id));
            }
        }
    }
}

/// Some directory of the tree, free or grouped, is at a path that `Path`
/// compares equal to `p`.
pub open spec fn path_listed(tree: DirTree, p: Seq<char>) -> bool {
    ||| exists|i: int| 0 <= i < tree.free@.len() && path_order(#[trigger] tree.free@[i].path@, p) == 0
    ||| exists|g: int, i: int|
        0 <= g < tree.groups@.len() && 0 <= i < tree.groups@[g].dirs@.len() && path_order(
            #[trigger] tree.groups@[g].dirs@[i].path@,
            p,
        ) == 0
}

fn path_in(dirs: &Vec<SearchDir>, p: &str) -> (r: bool)
    ensures
        r == exists|i: int| 0 <= i < dirs@.len() && path_order(#[trigger] dirs@[i].path@, p@) == 0,
{
    let mut i: usize = 0;
    while i < dirs.len()
        invariant
            i <= dirs@.len(),
            forall|k: int| 0 <= k < i ==> path_order(#[trigger] dirs@[k].path@, p@) != 0,
        decreases dirs@.len() - i,
    {
        if compare_paths(dirs[i].path.as_str(), p) == 0 {
            return true;
        }
        i = i + 1;
    }
    false
}

impl DirTree {
    /// Every directory of the tree, free or grouped, has an id below `next_id`.
    pub open spec fn ids_below_next(&self) -> bool {
        &&& forall|i: int| 0 <= i < self.free@.len() ==> #[trigger] self.free@[i].id < self.next_id
        &&& forall|g: int, i: int|
            0 <= g < self.groups@.len() && 0 <= i < self.groups@[g].dirs@.len()
                ==> #[trigger] self.groups@[g].dirs@[i].id < self.next_id
    }

    /// Whether some directory of the tree, free or grouped, has the id.
    pub open spec fn has_dir_id(&self, id: u64) -> bool {
        ||| exists|i: int| 0 <= i < self.free@.len() && #[trigger] self.free@[i].id == id
        ||| exists|g: int, i: int|
            0 <= g < self.groups@.len() && 0 <= i < self.groups@[g].dirs@.len()
                && #[trigger] self.groups@[g].dirs@[i].id == id
    }

    /// The number of directories of the tree, free and grouped.
    pub open spec fn spec_total_dirs(&self) -> int {
        self.free@.len() + group_dir_count(self.groups@)
    }

    /// Hands out the next id.
    pub fn alloc_id(&mut self) -> (id: u64)
        requires
            old(self).next_id < u64::MAX,
        ensures
            id == old(self).next_id,
            final(self).next_id == old(self).next_id + 1,
            final(self).free == old(self).free,
            final(self).groups == old(self).groups,
            old(self).ids_below_next() ==> !old(self).has_dir_id(id),
            old(self).ids_below_next() ==> final(self).ids_below_next(),
    {
        let id = self.next_id;
        self.next_id = self.next_id + 1;
        id
    }

    /// The paths of every enabled directory: the free ones first, then those
    /// of each enabled group, in order.
    pub fn enabled_paths(&self) -> (r: Vec<String>)
        ensures
            r@.map_values(|p: String| p@) == enabled_paths_of(self.free@) + enabled_group_paths(
                self.groups@,
            ),
    {
        let mut out: Vec<String> = Vec::new();
        let mut i: usize = 0;
        while i < self.free.len()
            invariant
                i <= self.free@.len(),
                out@.map_values(|p: String| p@) == enabled_paths_of(self.free@.take(i as int)),
            decreases self.free@.len() - i,
        {
            assert(self.free@.take(i + 1).drop_last() =~= self.free@.take(i as int));
            if self.free[i].enabled {
                out.push(self.free[i].path.clone());
            }
            i = i + 1;
            assert(out@.map_values(|p: String| p@) =~= enabled_paths_of(self.free@.take(i as int)));
        }
        assert(self.free@.take(i as int) =~= self.free@);
        let ghost base = enabled_paths_of(self.free@);
        let mut g: usize = 0;
        while g < self.groups.len()
            invariant
                g <= self.groups@.len(),
                base == enabled_paths_of(self.free@),
                out@.map_values(|p: String| p@) == base + enabled_group_paths(
                    self.groups@.take(g as int),
                ),
            decreases self.groups@.len() - g,
        {
            assert(self.groups@.take(g + 1).drop_last() =~= self.groups@.take(g as int));
            let group = &self.groups[g];
            if group.enabled {
                let ghost before = out@.map_values(|p: String| p@);
                let mut j: usize = 0;
                while j < group.dirs.len()
                    invariant
                        j <= group.dirs@.len(),
                        out@.map_values(|p: String| p@) == before + enabled_paths_of(
                            group.dirs@.take(j as int),
                        ),
                    decreases group.dirs@.len() - j,
                {
                    assert(group.dirs@.take(j + 1).drop_last() =~= group.dirs@.take(j as int));
                    let ghost prev = out@;
                    if group.dirs[j].enabled {
                        let p = group.dirs[j].path.clone();
                        out.push(p);
                        assert(out@.map_values(|p: String| p@) =~= prev.map_values(|p: String| p@)
                            + seq![group.dirs@[j as int].path@]);
                    }
                    j = j + 1;
                    assert(out@.map_values(|p: String| p@) =~= before + enabled_paths_of(
                        group.dirs@.take(j as int),
                    ));
                }
                assert(group.dirs@.take(j as int) =~= group.dirs@);
            }
            g = g + 1;
            assert(out@.map_values(|p: String| p@) =~= base + enabled_group_paths(
                self.groups@.take(g as int),
            ));
        }
        assert(self.groups@.take(g as int) =~= self.groups@);
        out
    }

    /// Takes out the first directory with the id: from the free directories
    /// if one has it, else from the first group that holds one.
    pub fn remove_dir(&mut self, dir_id: u64) -> (r: Option<SearchDir>)
        ensures
            dir_removed(*old(self), *final(self), dir_id, r),
    {
        if let Some(idx) = position_of(&self.free, dir_id) {
            let d = self.free.remove(idx);
            return Some(d);
        }
        let mut g: usize = 0;
        while g < self.groups.len()
            invariant
                g <= self.groups@.len(),
                self.groups == old(self).groups,
                self.free == old(self).free,
                self.next_id == old(self).next_id,
                !contains_id(old(self).free@, dir_id),
                forall|h: int| 0 <= h < g ==> !contains_id(#[trigger] self.groups@[h].dirs@, dir_id),
            decreases self.groups@.len() - g,
        {
            if let Some(idx) = position_of(&self.groups[g].dirs, dir_id) {
                let mut grp = self.groups.remove(g);
                let d = grp.dirs.remove(idx);
                self.groups.insert(g, grp);
                proof {
                    assert(first_group_holding(old(self).groups@, dir_id, g as int));
                    assert(first_with_id(old(self).groups@[g as int].dirs@, dir_id, idx as int));
                    assert forall|h: int|
                        0 <= h < old(self).groups@.len() && h != g implies #[trigger] self.groups@[h]
                        == old(self).groups@[h] by {
                        if h < g {
                            assert(self.groups@[h] == old(self).groups@[h]);
                        } else {
                            assert(self.groups@[h] == old(self).groups@[h]);
                        }
                    }
                }
                return Some(d);
            }
            g = g + 1;
        }
        None
    }

    /// Switches the first directory with the id on or off: among the free
    /// directories if one has it, else in the first group that holds one.
    pub fn set_dir_enabled(&mut self, dir_id: u64, on: bool)
        ensures
            final(self).next_id == old(self).next_id,
            contains_id(old(self).free@, dir_id) ==> exists|i: int|
                {
                    &&& #[trigger] first_with_id(old(self).free@, dir_id, i)
                    &&& final(self).free@ == old(self).free@.update(
                        i,
                        SearchDir { enabled: on, ..old(self).free@[i] },
                    )
                    &&& final(self).groups == old(self).groups
                },
            !contains_id(old(self).free@, dir_id) && any_group_holds(old(self).groups@, dir_id)
                ==> exists|g: int, i: int|
                {
                    &&& #[trigger] first_group_holding(old(self).groups@, dir_id, g)
                    &&& #[trigger] first_with_id(old(self).groups@[g].dirs@, dir_id, i)
                    &&& final(self).free == old(self).free
                    &&& final(self).groups@.len() == old(self).groups@.len()
                    &&& forall|h: int|
                        0 <= h < old(self).groups@.len() && h != g ==> #[trigger] final(self).groups@[h] == old(self).groups@[h]
                    &&& same_group_but_dirs(final(self).groups@[g], old(self).groups@[g])
                    &&& final(self).groups@[g].dirs@ == old(self).groups@[g].dirs@.update(
                        i,
                        SearchDir { enabled: on, ..old(self).groups@[g].dirs@[i] },
                    )
                },
            !contains_id(old(self).free@, dir_id) && !any_group_holds(old(self).groups@, dir_id)
                ==> final(self).free == old(self).free && final(self).groups == old(self).groups,
    {
        if let Some(idx) = position_of(&self.free, dir_id) {
            let mut d = self.free.remove(idx);
            d.enabled = on;
            self.free.insert(idx, d);
            proof {
                assert(self.free@ =~= old(self).free@.update(
                    idx as int,
                    SearchDir { enabled: on, ..old(self).free@[idx as int] },
                ));
            }
            return;
        }
        let mut g: usize = 0;
        while g < self.groups.len()
            invariant
                g <= self.groups@.len(),
                self.groups == old(self).groups,
                self.free == old(self).free,
                self.next_id == old(self).next_id,
                !contains_id(old(self).free@, dir_id),
                forall|h: int| 0 <= h < g ==> !contains_id(#[trigger] self.groups@[h].dirs@, dir_id),
            decreases self.groups@.len() - g,
        {
            if let Some(idx) = position_of(&self.groups[g].dirs, dir_id) {
                let mut grp = self.groups.remove(g);
                let mut d = grp.dirs.remove(idx);
                d.enabled = on;
                grp.dirs.insert(idx, d);
                self.groups.insert(g, grp);
                proof {
                    assert(first_group_holding(old(self).groups@, dir_id, g as int));
                    assert(first_with_id(old(self).groups@[g as int].dirs@, dir_id, idx as int));
                    assert(self.groups@[g as int].dirs@ =~= old(self).groups@[g as int].dirs@.update(
                        idx as int,
                        SearchDir { enabled: on, ..old(self).groups@[g as int].dirs@[idx as int] },
                    ));
                    assert forall|h: int|
                        0 <= h < old(self).groups@.len() && h != g implies #[trigger] self.groups@[h]
                        == old(self).groups@[h] by {
                        if h < g {
                            assert(self.groups@[h] == old(self).groups@[h]);
                        } else {
                            assert(self.groups@[h] == old(self).groups@[h]);
                        }
                    }
                }
                return;
            }
            g = g + 1;
        }
    }

    /// The first group with the id, to change in place.
    pub fn group_mut(&mut self, group_id: u64) -> (r: Option<&mut DirGroup>)
        ensures
            final(self).free == old(self).free,
            final(self).next_id == old(self).next_id,
            r is None ==> final(self).groups == old(self).groups && forall|h: int|
                0 <= h < old(self).groups@.len() ==> #[trigger] old(self).groups@[h].id != group_id,
            r matches Some(g) ==> exists|k: int|
                {
                    &&& #[trigger] first_group_with_id(old(self).groups@, group_id, k)
                    &&& *g == old(self).groups@[k]
                    &&& final(self).groups@ == old(self).groups@.update(k, *final(g))
                },
    {
        let mut k: usize = 0;
        while k < self.groups.len()
            invariant
                k <= self.groups@.len(),
                self.free == old(self).free,
                self.groups == old(self).groups,
                self.next_id == old(self).next_id,
                forall|h: int| 0 <= h < k ==> #[trigger] self.groups@[h].id != group_id,
            decreases self.groups@.len() - k,
        {
            if self.groups[k].id == group_id {
                proof {
                    assert(first_group_with_id(self.groups@, group_id, k as int));
                }
                return Some(&mut self.groups[k]);
            }
            k = k + 1;
        }
        None
    }

    /// Brings a tree read back from the configuration up to date: takes over
    /// a legacy flat list of directories where there are no free directories
    /// yet, and moves the next id past every id in use.
    pub fn migrate_loaded(&mut self, legacy: Vec<SearchDir>)
        requires
            migrated_free(old(self).free@, legacy@).len() + group_dir_count(old(self).groups@) + 10
                <= usize::MAX,
            migrated_next_id(*old(self), legacy@) <= u64::MAX,
        ensures
            final(self).free@ == migrated_free(old(self).free@, legacy@),
            final(self).groups == old(self).groups,
            final(self).next_id == migrated_next_id(*old(self), legacy@),
            final(self).ids_below_next(),
    {
        let ghost start = *self;
        if legacy.len() > 0 && self.free.len() == 0 {
            let mut i: usize = 0;
            while i < legacy.len()
                invariant
                    i <= legacy@.len(),
                    self.groups == start.groups,
                    start.free@.len() == 0,
                    legacy@.len() > 0,
                    self.free@ == migrated_free(start.free@, legacy@).take(i as int),
                decreases legacy@.len() - i,
            {
                let d = SearchDir {
                    id: i as u64,
                    path: legacy[i].path.clone(),
                    enabled: legacy[i].enabled,
                };
                self.free.push(d);
                i = i + 1;
                assert(self.free@ =~= migrated_free(start.free@, legacy@).take(i as int));
            }
            assert(self.free@ =~= migrated_free(start.free@, legacy@));
            self.next_id = self.free.len() as u64;
        }
        if self.next_id == 0 {
            self.next_id = self.total_dirs() as u64 + 10;
        }
        assert(self.next_id == migrated_base_id(start, legacy@));
        let mut max_id = self.next_id;
        let mut i: usize = 0;
        while i < self.free.len()
            invariant
                i <= self.free@.len(),
                self.free@ == migrated_free(start.free@, legacy@),
                self.groups == start.groups,
                self.next_id == migrated_base_id(start, legacy@),
                max_id == max_id_in(self.next_id as int, self.free@.take(i as int)),
            decreases self.free@.len() - i,
        {
            assert(self.free@.take(i + 1).drop_last() =~= self.free@.take(i as int));
            if self.free[i].id > max_id {
                max_id = self.free[i].id;
            }
            i = i + 1;
        }
        assert(self.free@.take(i as int) =~= self.free@);
        let ghost m0 = max_id as int;
        let mut g: usize = 0;
        while g < self.groups.len()
            invariant
                g <= self.groups@.len(),
                self.free@ == migrated_free(start.free@, legacy@),
                self.groups == start.groups,
                self.next_id == migrated_base_id(start, legacy@),
                m0 == max_id_in(migrated_base_id(start, legacy@), self.free@),
                max_id == max_id_in_groups(m0, self.groups@.take(g as int)),
            decreases self.groups@.len() - g,
        {
            assert(self.groups@.take(g + 1).drop_last() =~= self.groups@.take(g as int));
            let ghost before = max_id as int;
            let mut j: usize = 0;
            while j < self.groups[g].dirs.len()
                invariant
                    g < self.groups@.len(),
                    j <= self.groups@[g as int].dirs@.len(),
                    self.free@ == migrated_free(start.free@, legacy@),
                    self.groups == start.groups,
                    self.next_id == migrated_base_id(start, legacy@),
                    max_id == max_id_in(before, self.groups@[g as int].dirs@.take(j as int)),
                decreases self.groups@[g as int].dirs@.len() - j,
            {
                assert(self.groups@[g as int].dirs@.take(j + 1).drop_last()
                    =~= self.groups@[g as int].dirs@.take(j as int));
                if self.groups[g].dirs[j].id > max_id {
                    max_id = self.groups[g].dirs[j].id;
                }
                j = j + 1;
            }
            assert(self.groups@[g as int].dirs@.take(j as int) =~= self.groups@[g as int].dirs@);
            g = g + 1;
        }
        assert(self.groups@.take(g as int) =~= self.groups@);
        proof {
            lemma_max_id_in(migrated_base_id(start, legacy@), self.free@);
            lemma_max_id_in_groups(m0, self.groups@);
        }
        self.next_id = max_id + 1;
    }

    /// Adds a directory, switched on, to the free directories, unless it is
    /// not a directory on disk (`is_dir`, which the caller finds out) or a
    /// directory at an equal path is already listed. Says whether it added it.
    pub fn add_directory(&mut self, path: &str, is_dir: bool) -> (added: bool)
        requires
            is_dir && !path_listed(*old(self), path@) ==> old(self).next_id < u64::MAX,
        ensures
            added == (is_dir && !path_listed(*old(self), path@)),
            added ==> final(self).free@ == old(self).free@.push(
                SearchDir { id: old(self).next_id, path: final(self).free@.last().path, enabled: true },
            ) && final(self).free@.last().path@ == path@ && final(self).groups == old(self).groups
                && final(self).next_id == old(self).next_id + 1,
            !added ==> *final(self) == *old(self),
            old(self).ids_below_next() ==> final(self).ids_below_next(),
    {
        if !is_dir {
            return false;
        }
        if path_in(&self.free, path) {
            return false;
        }
        let mut g: usize = 0;
        while g < self.groups.len()
            invariant
                g <= self.groups@.len(),
                *self == *old(self),
                forall|h: int, i: int|
                    0 <= h < g && 0 <= i < self.groups@[h].dirs@.len() ==> path_order(
                        #[trigger] self.groups@[h].dirs@[i].path@,
                        path@,
                    ) != 0,
            decreases self.groups@.len() - g,
        {
            if path_in(&self.groups[g].dirs, path) {
                return false;
            }
            g = g + 1;
        }
        let id = self.alloc_id();
        let p = text_of(path);
        self.free.push(SearchDir { id, path: p, enabled: true });
        true
    }

    /// Adds an empty group, switched on and open, named by the trimmed name,
    /// unless that is empty. Says whether it added one.
    pub fn add_group(&mut self, name: &str) -> (added: bool)
        requires
            trim(name@).len() > 0 ==> old(self).next_id < u64::MAX,
        ensures
            added == (trim(name@).len() > 0),
            added ==> final(self).free == old(self).free && final(self).next_id == old(self).next_id
                + 1 && final(self).groups@.len() == old(self).groups@.len() + 1 && final(
                self).groups@.drop_last() == old(self).groups@ && ({
                let g = final(self).groups@.last();
                &&& g.id == old(self).next_id
                &&& g.name@ == trim(name@)
                &&& g.enabled
                &&& !g.collapsed
                &&& g.dirs@.len() == 0
            }),
            !added ==> *final(self) == *old(self),
            old(self).ids_below_next() ==> final(self).ids_below_next(),
    {
        let t = trim_str(name);
        if t.as_str().is_empty() {
            return false;
        }
        let id = self.alloc_id();
        let ghost before = self.groups@;
        self.groups.push(DirGroup { id, name: t, enabled: true, collapsed: false, dirs: Vec::new() });
        assert(self.groups@.drop_last() =~= before);
        true
    }

    /// Moves a directory, found as `remove_dir` finds it, to the end of the
    /// first group with the id. Where there is no such group the directory
    /// is still taken out, and is gone.
    pub fn move_dir_into_group(&mut self, dir_id: u64, group_id: u64)
        ensures
            (exists|k: int| 0 <= k < old(self).groups@.len() && #[trigger] old(self).groups@[k].id
                == group_id) ==> final(self).spec_total_dirs() == old(self).spec_total_dirs(),
            exists|mid: DirTree, r: Option<SearchDir>|
                {
                    &&& #[trigger] dir_removed(*old(self), mid, dir_id, r)
                    &&& final(self).free == mid.free
                    &&& final(self).next_id == mid.next_id
                    &&& match r {
                        None => final(self).groups == mid.groups,
                        Some(d) => if exists|k: int| #[trigger] first_group_with_id(mid.groups@, group_id, k) {
                            exists|k: int|
                                {
                                    &&& #[trigger] first_group_with_id(mid.groups@, group_id, k)
                                    &&& final(self).groups@.len() == mid.groups@.len()
                                    &&& forall|h: int|
                                        0 <= h < mid.groups@.len() && h != k ==> #[trigger] final(self).groups@[h] == mid.groups@[h]
                                    &&& same_group_but_dirs(final(self).groups@[k], mid.groups@[k])
                                    &&& final(self).groups@[k].dirs@ == mid.groups@[k].dirs@.push(d)
                                }
                        } else {
                            final(self).groups == mid.groups
                        },
                    }
                },
    {
        let ghost start = *self;
        let r = self.remove_dir(dir_id);
        let ghost mid = *self;
        proof {
            lemma_remove_dir_count(start, mid, dir_id, r);
            assert(mid.groups@.len() == start.groups@.len());
            assert forall|k: int| 0 <= k < start.groups@.len() implies #[trigger] mid.groups@[k].id
                == start.groups@[k].id by {
                if !contains_id(start.free@, dir_id) && any_group_holds(start.groups@, dir_id) {
                    let (g, i) = choose|g: int, i: int|
                        {
                            &&& #[trigger] first_group_holding(start.groups@, dir_id, g)
                            &&& #[trigger] first_with_id(start.groups@[g].dirs@, dir_id, i)
                            &&& r == Some(start.groups@[g].dirs@[i])
                            &&& mid.free == start.free
                            &&& mid.groups@.len() == start.groups@.len()
                            &&& forall|h: int|
                                0 <= h < start.groups@.len() && h != g ==> #[trigger] mid.groups@[h]
                                    == start.groups@[h]
                            &&& same_group_but_dirs(mid.groups@[g], start.groups@[g])
                            &&& mid.groups@[g].dirs@ == start.groups@[g].dirs@.remove(i)
                        };
                    if k != g {
                        assert(mid.groups@[k] == start.groups@[k]);
                    }
                }
            }
        }
        if let Some(d) = r {
            if let Some(g) = self.group_mut(group_id) {
                let ghost before = *g;
                g.dirs.push(d);
                assert(same_group_but_dirs(*g, before));
                proof {
                    let k = choose|k: int|
                        {
                            &&& #[trigger] first_group_with_id(mid.groups@, group_id, k)
                            &&& before == mid.groups@[k]
                            &&& self.groups@ == mid.groups@.update(k, *g)
                        };
                    lemma_group_count_update(mid.groups@, self.groups@, k);
                }
            } else {
                proof {
                    if exists|k: int| 0 <= k < start.groups@.len() && #[trigger] start.groups@[k].id == group_id {
                        let k = choose|k: int| 0 <= k < start.groups@.len() && #[trigger] start.groups@[k].id == group_id;
                        assert(mid.groups@[k].id == group_id);
                    }
                }
            }
        }
    }

    /// Moves a directory, found as `remove_dir` finds it, to the end of the
    /// free directories.
    pub fn move_dir_to_free(&mut self, dir_id: u64)
        ensures
            final(self).spec_total_dirs() == old(self).spec_total_dirs(),
            exists|mid: DirTree, r: Option<SearchDir>|
                {
                    &&& #[trigger] dir_removed(*old(self), mid, dir_id, r)
                    &&& final(self).groups == mid.groups
                    &&& final(self).next_id == mid.next_id
                    &&& match r {
                        None => final(self).free == mid.free,
                        Some(d) => final(self).free@ == mid.free@.push(d),
                    }
                },
    {
        let ghost before = *self;
        let r = self.remove_dir(dir_id);
        proof {
            lemma_remove_dir_count(before, *self, dir_id, r);
        }
        if let Some(d) = r {
            self.free.push(d);
        }
    }

    /// Where the tree has no directory at all, adds one, switched on, at the
    /// given path (the starting directory); else leaves the tree as it is.
    pub fn add_start_dir(&mut self, path: &str)
        requires
            old(self).spec_total_dirs() <= usize::MAX,
            old(self).spec_total_dirs() == 0 ==> old(self).next_id < u64::MAX,
        ensures
            old(self).spec_total_dirs() == 0 ==> final(self).free@.len() == 1 && final(self).free@[0].id
                == old(self).next_id && final(self).free@[0].path@ == path@ && final(self).free@[0].enabled
                && final(self).groups == old(self).groups && final(self).next_id == old(self).next_id
                + 1,
            old(self).spec_total_dirs() != 0 ==> *final(self) == *old(self),
            old(self).ids_below_next() ==> final(self).ids_below_next(),
    {
        proof {
            lemma_group_dir_count_nonnegative(self.groups@);
        }
        if self.total_dirs() == 0 {
            let id = self.alloc_id();
            let p = text_of(path);
            self.free.push(SearchDir { id, path: p, enabled: true });
        }
    }

    /// Deletes the free directory at index `i`.
    pub fn delete_free_at(&mut self, i: usize)
        requires
            i < old(self).free@.len(),
        ensures
            final(self).free@ == old(self).free@.remove(i as int),
            final(self).groups == old(self).groups,
            final(self).next_id == old(self).next_id,
            old(self).ids_below_next() ==> final(self).ids_below_next(),
    {
        self.free.remove(i);
        proof {
            assert forall|k: int| 0 <= k < self.free@.len() implies #[trigger] self.free@[k]
                == old(self).free@[if k < i { k } else { k + 1 }] by {}
        }
    }

    /// Deletes the group at index `g`, with its directories.
    pub fn delete_group_at(&mut self, g: usize)
        requires
            g < old(self).groups@.len(),
        ensures
            final(self).groups@ == old(self).groups@.remove(g as int),
            final(self).free == old(self).free,
            final(self).next_id == old(self).next_id,
            old(self).ids_below_next() ==> final(self).ids_below_next(),
    {
        self.groups.remove(g);
        proof {
            assert forall|h: int| 0 <= h < self.groups@.len() implies #[trigger] self.groups@[h]
                == old(self).groups@[if h < g { h } else { h + 1 }] by {}
        }
    }

    /// Deletes the directory at index `i` of the group at index `g`.
    pub fn delete_group_dir_at(&mut self, g: usize, i: usize)
        requires
            g < old(self).groups@.len(),
            i < old(self).groups@[g as int].dirs@.len(),
        ensures
            final(self).groups@.len() == old(self).groups@.len(),
            forall|h: int|
                0 <= h < old(self).groups@.len() && h != g ==> #[trigger] final(self).groups@[h]
                    == old(self).groups@[h],
            same_group_but_dirs(final(self).groups@[g as int], old(self).groups@[g as int]),
            final(self).groups@[g as int].dirs@ == old(self).groups@[g as int].dirs@.remove(
                i as int,
            ),
            final(self).free == old(self).free,
            final(self).next_id == old(self).next_id,
            old(self).ids_below_next() ==> final(self).ids_below_next(),
    {
        let ghost before = self.groups@;
        let mut grp = self.groups.remove(g);
        grp.dirs.remove(i);
        self.groups.insert(g, grp);
        proof {
            assert forall|h: int| 0 <= h < before.len() && h != g implies #[trigger] self.groups@[h]
                == before[h] by {}
            assert forall|k: int| 0 <= k < self.groups@[g as int].dirs@.len() implies #[trigger] self.groups@[g as int].dirs@[k]
                == before[g as int].dirs@[if k < i { k } else { k + 1 }] by {}
        }
    }

    /// Switches the group at index `g` on or off.
    pub fn set_group_enabled(&mut self, g: usize, on: bool)
        requires
            g < old(self).groups@.len(),
        ensures
            final(self).groups@ == old(self).groups@.update(
                g as int,
                DirGroup { enabled: on, ..old(self).groups@[g as int] },
            ),
            final(self).free == old(self).free,
            final(self).next_id == old(self).next_id,
            old(self).ids_below_next() ==> final(self).ids_below_next(),
    {
        let ghost before = self.groups@;
        let mut grp = self.groups.remove(g);
        grp.enabled = on;
        self.groups.insert(g, grp);
        proof {
            assert(self.groups@ =~= before.update(
                g as int,
                DirGroup { enabled: on, ..before[g as int] },
            ));
        }
    }

    /// Folds or unfolds the group at index `g` in the panel.
    pub fn set_group_collapsed(&mut self, g: usize, collapsed: bool)
        requires
            g < old(self).groups@.len(),
        ensures
            final(self).groups@ == old(self).groups@.update(
                g as int,
                DirGroup { collapsed, ..old(self).groups@[g as int] },
            ),
            final(self).free == old(self).free,
            final(self).next_id == old(self).next_id,
            old(self).ids_below_next() ==> final(self).ids_below_next(),
    {
        let ghost before = self.groups@;
        let mut grp = self.groups.remove(g);
        grp.collapsed = collapsed;
        self.groups.insert(g, grp);
        proof {
            assert(self.groups@ =~= before.update(g as int, DirGroup { collapsed, ..before[g as int] }));
        }
    }

    /// The number of directories, free and grouped.
    pub fn total_dirs(&self) -> (n: usize)
        requires
            self.spec_total_dirs() <= usize::MAX,
        ensures
            n == self.spec_total_dirs(),
    {
        let mut sum: usize = 0;
        let mut g: usize = 0;
        while g < self.groups.len()
            invariant
                g <= self.groups@.len(),
                self.spec_total_dirs() <= usize::MAX,
                sum == group_dir_count(self.groups@.take(g as int)),
            decreases self.groups@.len() - g,
        {
            assert(self.groups@.take(g + 1).drop_last() =~= self.groups@.take(g as int));
            proof {
                lemma_group_dir_count_prefix(self.groups@, g as int + 1);
            }
            sum = sum + self.groups[g].dirs.len();
            g = g + 1;
        }
        assert(self.groups@.take(g as int) =~= self.groups@);
        self.free.len() + sum
    }
}

/// Changing the directories of one group changes the count by as much.
proof fn lemma_group_count_update(a: Seq<DirGroup>, b: Seq<DirGroup>, g: int)
    requires
        a.len() == b.len(),
        0 <= g < a.len(),
        forall|h: int| 0 <= h < a.len() && h != g ==> #[trigger] b[h] == a[h],
    ensures
        group_dir_count(b) == group_dir_count(a) + b[g].dirs@.len() - a[g].dirs@.len(),
    decreases a.len(),
{
    if g < a.len() - 1 {
        assert forall|h: int| 0 <= h < a.drop_last().len() && h != g implies #[trigger] b.drop_last()[h]
            == a.drop_last()[h] by {
            assert(b[h] == a[h]);
        }
        lemma_group_count_update(a.drop_last(), b.drop_last(), g);
        assert(b.last() == a.last());
    } else {
        assert(a.drop_last() =~= b.drop_last()) by {
            assert forall|h: int| 0 <= h < a.drop_last().len() implies b.drop_last()[h] == a.drop_last()[h] by {
                assert(b[h] == a[h]);
            }
        }
    }
}

/// Taking a directory out of a tree leaves one fewer; where none has the id,
/// the count stays.
pub proof fn lemma_remove_dir_count(before: DirTree, after: DirTree, dir_id: u64, r: Option<SearchDir>)
    requires
        dir_removed(before, after, dir_id, r),
    ensures
        r is Some ==> after.spec_total_dirs() == before.spec_total_dirs() - 1,
        r is None ==> after.spec_total_dirs() == before.spec_total_dirs(),
{
    if contains_id(before.free@, dir_id) {
    } else if any_group_holds(before.groups@, dir_id) {
        let (g, i) = choose|g: int, i: int|
            {
                &&& #[trigger] first_group_holding(before.groups@, dir_id, g)
                &&& #[trigger] first_with_id(before.groups@[g].dirs@, dir_id, i)
                &&& r == Some(before.groups@[g].dirs@[i])
                &&& after.free == before.free
                &&& after.groups@.len() == before.groups@.len()
                &&& forall|h: int|
                    0 <= h < before.groups@.len() && h != g ==> #[trigger] after.groups@[h]
                        == before.groups@[h]
                &&& same_group_but_dirs(after.groups@[g], before.groups@[g])
                &&& after.groups@[g].dirs@ == before.groups@[g].dirs@.remove(i)
            };
        lemma_group_count_update(before.groups@, after.groups@, g);
    }
}

proof fn lemma_group_dir_count_nonnegative(groups: Seq<DirGroup>)
    ensures
        group_dir_count(groups) >= 0,
    decreases groups.len(),
{
    if groups.len() > 0 {
        lemma_group_dir_count_nonnegative(groups.drop_last());
    }
}

/// A prefix of the groups has no more directories than all of them.
proof fn lemma_group_dir_count_prefix(groups: Seq<DirGroup>, k: int)
    requires
        0 <= k <= groups.len(),
    ensures
        group_dir_count(groups.take(k)) <= group_dir_count(groups),
    decreases groups.len(),
{
    if k < groups.len() {
        assert(groups.drop_last().take(k) =~= groups.take(k));
        lemma_group_dir_count_prefix(groups.drop_last(), k);
    } else {
        assert(groups.take(k) =~= groups);
    }
}

} // verus!
