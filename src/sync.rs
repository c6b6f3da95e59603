//! Reconciliation of local and cloud backup groups.
use vstd::prelude::*;
use crate::names::lemma_name_lt_irreflexive;
use crate::names::lemma_name_lt_total;
use crate::names::lemma_name_lt_transitive;
use crate::names::name_less;
use crate::names::name_lt;

verus! {

pub open spec fn views(v: Seq<String>) -> Seq<Seq<char>> {
    v.map_values(|s: String| s@)
}

/// Strictly ascending, hence free of duplicates.
pub open spec fn sorted(s: Seq<Seq<char>>) -> bool {
    forall|i: int, j: int| 0 <= i < j < s.len() ==> name_lt(#[trigger] s[i], #[trigger] s[j])
}

pub proof fn lemma_contains_push(s: Seq<Seq<char>>, x: Seq<char>, y: Seq<char>)
    ensures
        s.push(x).contains(y) <==> (s.contains(y) || y == x),
{
    if s.contains(y) {
        let k = choose|k: int| 0 <= k < s.len() && s[k] == y;
        assert(s.push(x)[k] == y);
    }
    if y == x {
        assert(s.push(x)[s.len() as int] == y);
    }
    if s.push(x).contains(y) {
        let k = choose|k: int| 0 <= k < s.len() + 1 && s.push(x)[k] == y;
        if k < s.len() {
            assert(s[k] == y);
        }
    }
}

proof fn lemma_views_push(v: Seq<String>, x: String)
    ensures
        views(v.push(x)) == views(v).push(x@),
{
    assert(views(v.push(x)) =~= views(v).push(x@));
}

proof fn lemma_views_take(v: Seq<String>, i: int)
    requires
        0 <= i < v.len(),
    ensures
        views(v.take(i + 1)) == views(v.take(i)).push(v[i]@),
{
    assert(views(v.take(i + 1)) =~= views(v.take(i)).push(v[i]@));
}

fn clone_name(s: &String) -> (r: String)
    ensures
        r@ == s@,
{
    s.clone()
}

/// The names of two ascending lists, merged into one ascending list.
pub fn merge_names(a: &Vec<String>, b: &Vec<String>) -> (r: Vec<String>)
    requires
        sorted(views(a@)),
        sorted(views(b@)),
    ensures
        sorted(views(r@)),
        forall|x: Seq<char>|
            #[trigger] views(r@).contains(x) <==> (views(a@).contains(x) || views(b@).contains(x)),
{
    let mut out: Vec<String> = Vec::new();
    let mut i: usize = 0;
    let mut j: usize = 0;
    assert(a@.take(0) =~= Seq::<String>::empty());
    assert(b@.take(0) =~= Seq::<String>::empty());
    while i < a.len() || j < b.len()
        invariant
            0 <= i <= a@.len(),
            0 <= j <= b@.len(),
            sorted(views(a@)),
            sorted(views(b@)),
            sorted(views(out@)),
            forall|x: Seq<char>|
                #[trigger] views(out@).contains(x) <==> (views(a@.take(i as int)).contains(x)
                    || views(b@.take(j as int)).contains(x)),
            forall|p: int, k: int|
                0 <= p < out@.len() && i <= k < a@.len() ==> name_lt(
                    #[trigger] out@[p]@,
                    #[trigger] a@[k]@,
                ),
            forall|p: int, k: int|
                0 <= p < out@.len() && j <= k < b@.len() ==> name_lt(
                    #[trigger] out@[p]@,
                    #[trigger] b@[k]@,
                ),
        decreases a.len() + b.len() - i - j,
    {
        let take_a: bool;
        let take_b: bool;
        if i == a.len() {
            take_a = false;
            take_b = true;
        } else if j == b.len() {
            take_a = true;
            take_b = false;
        } else if name_less(&a[i], &b[j]) {
            take_a = true;
            take_b = false;
        } else if name_less(&b[j], &a[i]) {
            take_a = false;
            take_b = true;
        } else {
            proof {
                lemma_name_lt_total(a@[i as int]@, b@[j as int]@);
            }
            take_a = true;
            take_b = true;
        }
        let x = if take_a {
            clone_name(&a[i])
        } else {
            clone_name(&b[j])
        };
        proof {
            assert(views(a@)[i as int] == a@[i as int]@ || !take_a);
            assert forall|k: int| (take_a as int) + i <= k < a@.len() implies name_lt(
                x@,
                #[trigger] a@[k]@,
            ) by {
                assert(views(a@)[k] == a@[k]@);
                if take_a {
                    assert(views(a@)[i as int] == a@[i as int]@);
                } else {
                    assert(views(b@)[j as int] == b@[j as int]@);
                    if k > i {
                        assert(views(a@)[i as int] == a@[i as int]@);
                        lemma_name_lt_transitive(x@, a@[i as int]@, a@[k]@);
                    }
                }
            }
            assert forall|k: int| (take_b as int) + j <= k < b@.len() implies name_lt(
                x@,
                #[trigger] b@[k]@,
            ) by {
                assert(views(b@)[k] == b@[k]@);
                if take_b {
                    assert(views(b@)[j as int] == b@[j as int]@);
                } else {
                    assert(views(a@)[i as int] == a@[i as int]@);
                    if k > j {
                        assert(views(b@)[j as int] == b@[j as int]@);
                        lemma_name_lt_transitive(x@, b@[j as int]@, b@[k]@);
                    }
                }
            }
            lemma_views_push(out@, x);
            assert forall|p: int, q: int|
                0 <= p < q < views(out@.push(x)).len() implies name_lt(
                #[trigger] views(out@.push(x))[p],
                #[trigger] views(out@.push(x))[q],
            ) by {
                assert(views(out@.push(x))[p] == out@.push(x)[p]@);
                assert(views(out@.push(x))[q] == out@.push(x)[q]@);
                if q < out@.len() {
                    assert(views(out@)[p] == out@[p]@);
                    assert(views(out@)[q] == out@[q]@);
                } else if take_a {
                    assert(out@[p]@ == out@.push(x)[p]@);
                } else {
                    assert(out@[p]@ == out@.push(x)[p]@);
                }
            }
            if take_a {
                lemma_views_take(a@, i as int);
            }
            if take_b {
                lemma_views_take(b@, j as int);
            }
            assert forall|y: Seq<char>|
                #[trigger] views(out@.push(x)).contains(y) <==> (views(
                    a@.take(i + take_a as int),
                ).contains(y) || views(b@.take(j + take_b as int)).contains(y)) by {
                lemma_contains_push(views(out@), x@, y);
                lemma_contains_push(views(a@.take(i as int)), x@, y);
                lemma_contains_push(views(b@.take(j as int)), x@, y);
                if !take_a {
                    assert(a@.take(i + take_a as int) == a@.take(i as int));
                }
                if !take_b {
                    assert(b@.take(j + take_b as int) == b@.take(j as int));
                }
            }
        }
        out.push(x);
        if take_a {
            i = i + 1;
        }
        if take_b {
            j = j + 1;
        }
    }
    assert(a@.take(i as int) =~= a@);
    assert(b@.take(j as int) =~= b@);
    out
}


/// A backup group: its name and the names of its backups.
pub struct BackupGroup {
    pub name: String,
    pub backups: Vec<String>,
}

pub open spec fn group_names(gs: Seq<BackupGroup>) -> Seq<Seq<char>> {
    gs.map_values(|g: BackupGroup| g.name@)
}

pub open spec fn backup_set(g: BackupGroup) -> Set<Seq<char>> {
    Set::new(|b: Seq<char>| views(g.backups@).contains(b))
}

/// Groups in ascending order of name, each with its backups in ascending order.
pub open spec fn groups_wf(gs: Seq<BackupGroup>) -> bool {
    &&& sorted(group_names(gs))
    &&& forall|i: int| 0 <= i < gs.len() ==> sorted(views(#[trigger] gs[i].backups@))
}

pub open spec fn has_group(gs: Seq<BackupGroup>, k: Seq<char>) -> bool {
    group_names(gs).contains(k)
}

/// The backups of group `k` (empty where there is no such group).
pub open spec fn backups_of(gs: Seq<BackupGroup>, k: Seq<char>) -> Set<Seq<char>> {
    Set::new(
        |b: Seq<char>|
            exists|i: int|
                0 <= i < gs.len() && #[trigger] gs[i].name@ == k && views(gs[i].backups@).contains(
                    b,
                ),
    )
}

proof fn lemma_group_names_push(gs: Seq<BackupGroup>, g: BackupGroup)
    ensures
        group_names(gs.push(g)) == group_names(gs).push(g.name@),
{
    assert(group_names(gs.push(g)) =~= group_names(gs).push(g.name@));
}

proof fn lemma_group_names_take(gs: Seq<BackupGroup>, i: int)
    requires
        0 <= i < gs.len(),
    ensures
        group_names(gs.take(i + 1)) == group_names(gs.take(i)).push(gs[i].name@),
{
    assert(group_names(gs.take(i + 1)) =~= group_names(gs.take(i)).push(gs[i].name@));
}

pub proof fn lemma_backups_of_push(gs: Seq<BackupGroup>, g: BackupGroup, k: Seq<char>)
    ensures
        backups_of(gs.push(g), k) == backups_of(gs, k) + (if g.name@ == k {
            backup_set(g)
        } else {
            Set::empty()
        }),
{
    let l = backups_of(gs.push(g), k);
    let r = backups_of(gs, k) + (if g.name@ == k {
        backup_set(g)
    } else {
        Set::empty()
    });
    assert forall|b: Seq<char>| l.contains(b) <==> r.contains(b) by {
        if l.contains(b) {
            let i = choose|i: int|
                0 <= i < gs.len() + 1 && #[trigger] gs.push(g)[i].name@ == k && views(
                    gs.push(g)[i].backups@,
                ).contains(b);
            if i < gs.len() {
                assert(gs.push(g)[i] == gs[i]);
            }
        }
        if backups_of(gs, k).contains(b) {
            let i = choose|i: int|
                0 <= i < gs.len() && #[trigger] gs[i].name@ == k && views(gs[i].backups@).contains(
                    b,
                );
            assert(gs.push(g)[i] == gs[i]);
        }
        if g.name@ == k && backup_set(g).contains(b) {
            assert(gs.push(g)[gs.len() as int] == g);
        }
    }
    assert(l =~= r);
}

proof fn lemma_backups_of_take(gs: Seq<BackupGroup>, i: int, k: Seq<char>)
    requires
        0 <= i < gs.len(),
    ensures
        backups_of(gs.take(i + 1), k) == backups_of(gs.take(i), k) + (if gs[i].name@ == k {
            backup_set(gs[i])
        } else {
            Set::empty()
        }),
{
    assert(gs.take(i + 1) =~= gs.take(i).push(gs[i]));
    lemma_backups_of_push(gs.take(i), gs[i], k);
}

fn clone_names(v: &Vec<String>) -> (r: Vec<String>)
    ensures
        views(r@) == views(v@),
{
    let mut r: Vec<String> = Vec::new();
    let mut i: usize = 0;
    while i < v.len()
        invariant
            0 <= i <= v@.len(),
            views(r@) == views(v@.take(i as int)),
        decreases v.len() - i,
    {
        let x = clone_name(&v[i]);
        proof {
            lemma_views_push(r@, x);
            lemma_views_take(v@, i as int);
        }
        r.push(x);
        i = i + 1;
    }
    assert(v@.take(i as int) =~= v@);
    r
}

fn clone_group(g: &BackupGroup) -> (r: BackupGroup)
    ensures
        r.name@ == g.name@,
        views(r.backups@) == views(g.backups@),
{
    BackupGroup { name: clone_name(&g.name), backups: clone_names(&g.backups) }
}

/// The union of two group lists: every group of either, with the union of its
/// backups on both sides.
pub fn merge_groups(a: &Vec<BackupGroup>, b: &Vec<BackupGroup>) -> (r: Vec<BackupGroup>)
    requires
        groups_wf(a@),
        groups_wf(b@),
    ensures
        groups_wf(r@),
        forall|k: Seq<char>| #[trigger] has_group(r@, k) <==> (has_group(a@, k) || has_group(b@, k)),
        forall|k: Seq<char>| #[trigger] backups_of(r@, k) == backups_of(a@, k) + backups_of(b@, k),
{
    let mut out: Vec<BackupGroup> = Vec::new();
    let mut i: usize = 0;
    let mut j: usize = 0;
    assert(a@.take(0) =~= Seq::<BackupGroup>::empty());
    assert(b@.take(0) =~= Seq::<BackupGroup>::empty());
    assert forall|k: Seq<char>| #[trigger] backups_of(out@, k) == backups_of(a@.take(0), k)
        + backups_of(b@.take(0), k) by {
        assert(backups_of(out@, k) =~= Set::empty());
        assert(backups_of(a@.take(0), k) =~= Set::empty());
        assert(backups_of(b@.take(0), k) =~= Set::empty());
    }
    while i < a.len() || j < b.len()
        invariant
            0 <= i <= a@.len(),
            0 <= j <= b@.len(),
            groups_wf(a@),
            groups_wf(b@),
            groups_wf(out@),
            forall|x: Seq<char>|
                #[trigger] group_names(out@).contains(x) <==> (group_names(a@.take(i as int)).contains(
                    x,
                ) || group_names(b@.take(j as int)).contains(x)),
            forall|k: Seq<char>|
                #[trigger] backups_of(out@, k) == backups_of(a@.take(i as int), k) + backups_of(
                    b@.take(j as int),
                    k,
                ),
            forall|p: int, k: int|
                0 <= p < out@.len() && i <= k < a@.len() ==> name_lt(
                    #[trigger] out@[p].name@,
                    #[trigger] a@[k].name@,
                ),
            forall|p: int, k: int|
                0 <= p < out@.len() && j <= k < b@.len() ==> name_lt(
                    #[trigger] out@[p].name@,
                    #[trigger] b@[k].name@,
                ),
        decreases a.len() + b.len() - i - j,
    {
        let take_a: bool;
        let take_b: bool;
        if i == a.len() {
            take_a = false;
            take_b = true;
        } else if j == b.len() {
            take_a = true;
            take_b = false;
        } else if name_less(&a[i].name, &b[j].name) {
            take_a = true;
            take_b = false;
        } else if name_less(&b[j].name, &a[i].name) {
            take_a = false;
            take_b = true;
        } else {
            proof {
                lemma_name_lt_total(a@[i as int].name@, b@[j as int].name@);
            }
            take_a = true;
            take_b = true;
        }
        let x = if take_a && take_b {
            proof {
                assert(sorted(views(a@[i as int].backups@)));
                assert(sorted(views(b@[j as int].backups@)));
            }
            BackupGroup {
                name: clone_name(&a[i].name),
                backups: merge_names(&a[i].backups, &b[j].backups),
            }
        } else if take_a {
            clone_group(&a[i])
        } else {
            clone_group(&b[j])
        };
        proof {
            assert(sorted(views(a@[i as int].backups@)) || !take_a);
            assert(sorted(views(b@[j as int].backups@)) || !take_b);
            assert(backup_set(x) == (if take_a {
                backup_set(a@[i as int])
            } else {
                Set::empty()
            }) + (if take_b {
                backup_set(b@[j as int])
            } else {
                Set::empty()
            })) by {
                assert(backup_set(x) =~= (if take_a {
                    backup_set(a@[i as int])
                } else {
                    Set::empty()
                }) + (if take_b {
                    backup_set(b@[j as int])
                } else {
                    Set::empty()
                }));
            }
            assert(group_names(a@)[i as int] == a@[i as int].name@ || !take_a);
            assert forall|k: int| (take_a as int) + i <= k < a@.len() implies name_lt(
                x.name@,
                #[trigger] a@[k].name@,
            ) by {
                assert(group_names(a@)[k] == a@[k].name@);
                if take_a {
                    assert(group_names(a@)[i as int] == a@[i as int].name@);
                } else {
                    assert(group_names(b@)[j as int] == b@[j as int].name@);
                    if k > i {
                        assert(group_names(a@)[i as int] == a@[i as int].name@);
                        lemma_name_lt_transitive(x.name@, a@[i as int].name@, a@[k].name@);
                    }
                }
            }
            assert forall|k: int| (take_b as int) + j <= k < b@.len() implies name_lt(
                x.name@,
                #[trigger] b@[k].name@,
            ) by {
                assert(group_names(b@)[k] == b@[k].name@);
                if take_b {
                    assert(group_names(b@)[j as int] == b@[j as int].name@);
                } else {
                    assert(group_names(a@)[i as int] == a@[i as int].name@);
                    if k > j {
                        assert(group_names(b@)[j as int] == b@[j as int].name@);
                        lemma_name_lt_transitive(x.name@, b@[j as int].name@, b@[k].name@);
                    }
                }
            }
            lemma_group_names_push(out@, x);
            assert forall|p: int, q: int|
                0 <= p < q < group_names(out@.push(x)).len() implies name_lt(
                #[trigger] group_names(out@.push(x))[p],
                #[trigger] group_names(out@.push(x))[q],
            ) by {
                assert(group_names(out@.push(x))[p] == out@.push(x)[p].name@);
                assert(group_names(out@.push(x))[q] == out@.push(x)[q].name@);
                if q < out@.len() {
                    assert(group_names(out@)[p] == out@[p].name@);
                    assert(group_names(out@)[q] == out@[q].name@);
                } else {
                    assert(out@[p].name@ == out@.push(x)[p].name@);
                }
            }
            assert forall|p: int| 0 <= p < out@.push(x).len() implies sorted(
                views(#[trigger] out@.push(x)[p].backups@),
            ) by {
                if p < out@.len() {
                    assert(out@.push(x)[p] == out@[p]);
                }
            }
            if take_a {
                lemma_group_names_take(a@, i as int);
            }
            if take_b {
                lemma_group_names_take(b@, j as int);
            }
            assert forall|y: Seq<char>|
                #[trigger] group_names(out@.push(x)).contains(y) <==> (group_names(
                    a@.take(i + take_a as int),
                ).contains(y) || group_names(b@.take(j + take_b as int)).contains(y)) by {
                lemma_contains_push(group_names(out@), x.name@, y);
                lemma_contains_push(group_names(a@.take(i as int)), x.name@, y);
                lemma_contains_push(group_names(b@.take(j as int)), x.name@, y);
                if !take_a {
                    assert(a@.take(i + take_a as int) == a@.take(i as int));
                }
                if !take_b {
                    assert(b@.take(j + take_b as int) == b@.take(j as int));
                }
            }
            assert forall|k: Seq<char>| #[trigger] backups_of(out@.push(x), k) == backups_of(
                a@.take(i + take_a as int),
                k,
            ) + backups_of(b@.take(j + take_b as int), k) by {
                lemma_backups_of_push(out@, x, k);
                if take_a {
                    lemma_backups_of_take(a@, i as int, k);
                } else {
                    assert(a@.take(i + take_a as int) == a@.take(i as int));
                }
                if take_b {
                    lemma_backups_of_take(b@, j as int, k);
                } else {
                    assert(b@.take(j + take_b as int) == b@.take(j as int));
                }
                assert(backups_of(out@.push(x), k) =~= backups_of(a@.take(i + take_a as int), k)
                    + backups_of(b@.take(j + take_b as int), k));
            }
        }
        out.push(x);
        if take_a {
            i = i + 1;
        }
        if take_b {
            j = j + 1;
        }
    }
    assert(a@.take(i as int) =~= a@);
    assert(b@.take(j as int) =~= b@);
    out
}


pub open spec fn nonempty(g: BackupGroup) -> bool {
    g.backups@.len() > 0
}

/// The number of non-empty groups in `gs`.
pub open spec fn count_nonempty(gs: Seq<BackupGroup>) -> nat
    decreases gs.len(),
{
    if gs.len() == 0 {
        0
    } else {
        (if nonempty(gs[0]) {
            1nat
        } else {
            0nat
        }) + count_nonempty(gs.drop_first())
    }
}

/// Group `i` of an ascending list survives a cap of `max` groups: fewer than
/// `max` non-empty groups are newer than it.
pub open spec fn kept(gs: Seq<BackupGroup>, i: int, max: nat) -> bool {
    count_nonempty(gs.skip(i + 1)) < max
}

/// `gs` is the union of `a` and `b`, in ascending order.
pub open spec fn is_union(gs: Seq<BackupGroup>, a: Seq<BackupGroup>, b: Seq<BackupGroup>) -> bool {
    &&& groups_wf(gs)
    &&& forall|k: Seq<char>| #[trigger] has_group(gs, k) <==> (has_group(a, k) || has_group(b, k))
    &&& forall|k: Seq<char>| #[trigger] backups_of(gs, k) == backups_of(a, k) + backups_of(b, k)
}

/// `t` is what remains of the union of `local` and `cloud` under a cap of
/// `max` groups.
pub open spec fn is_target(
    t: Seq<BackupGroup>,
    local: Seq<BackupGroup>,
    cloud: Seq<BackupGroup>,
    max: nat,
) -> bool {
    &&& groups_wf(t)
    &&& exists|u: Seq<BackupGroup>| is_union(u, local, cloud) && is_retained(t, u, max)
}

/// `r` holds exactly the groups of `gs` that survive a cap of `max` groups.
pub open spec fn is_retained(r: Seq<BackupGroup>, gs: Seq<BackupGroup>, max: nat) -> bool {
    &&& r.len() <= gs.len()
    &&& r == gs.skip(gs.len() - r.len())
    &&& forall|i: int| 0 <= i < gs.len() ==> (kept(gs, i, max) <==> i >= gs.len() - r.len())
}

proof fn lemma_count_skip(gs: Seq<BackupGroup>, i: int)
    requires
        0 <= i < gs.len(),
    ensures
        count_nonempty(gs.skip(i)) == (if nonempty(gs[i]) {
            1nat
        } else {
            0nat
        }) + count_nonempty(gs.skip(i + 1)),
{
    assert(gs.skip(i).drop_first() =~= gs.skip(i + 1));
}

proof fn lemma_count_skip_mono(gs: Seq<BackupGroup>, i: int, j: int)
    requires
        0 <= i <= j <= gs.len(),
    ensures
        count_nonempty(gs.skip(i)) >= count_nonempty(gs.skip(j)),
    decreases j - i,
{
    if i < j {
        lemma_count_skip(gs, i);
        lemma_count_skip_mono(gs, i + 1, j);
    }
}

proof fn lemma_count_bound(gs: Seq<BackupGroup>)
    ensures
        count_nonempty(gs) <= gs.len(),
    decreases gs.len(),
{
    if gs.len() > 0 {
        lemma_count_bound(gs.drop_first());
    }
}

/// Keeps the groups of an ascending list that survive a cap of `max_groups`:
/// the newest `max_groups` non-empty groups and every group newer than the
/// oldest of them.
pub fn retain_newest(groups: Vec<BackupGroup>, max_groups: usize) -> (r: Vec<BackupGroup>)
    requires
        max_groups > 0,
    ensures
        is_retained(r@, groups@, max_groups as nat),
{
    let ghost gs = groups@;
    let mut i: usize = groups.len();
    let mut count: usize = 0;
    assert(gs.skip(gs.len() as int) =~= Seq::<BackupGroup>::empty());
    let mut stop = false;
    while i > 0 && !stop
        invariant
            gs == groups@,
            0 <= i <= gs.len(),
            count == count_nonempty(gs.skip(i as int)),
            count <= gs.len(),
            stop ==> count >= max_groups,
            !stop ==> count < max_groups,
            forall|k: int| i <= k < gs.len() ==> #[trigger] kept(gs, k, max_groups as nat),
        decreases i,
    {
        proof {
            lemma_count_skip(gs, i - 1);
            lemma_count_bound(gs.skip(i - 1));
        }
        let ne = groups[i - 1].backups.len() > 0;
        i = i - 1;
        if ne {
            count = count + 1;
            if count >= max_groups {
                stop = true;
            }
        }
    }
    proof {
        assert forall|k: int| 0 <= k < gs.len() implies (kept(gs, k, max_groups as nat) <==> k
            >= i) by {
            if k < i {
                lemma_count_skip_mono(gs, k + 1, i as int);
            }
        }
    }
    let mut all = groups;
    let r = all.split_off(i);
    r
}

/// The groups that a sync leaves on the cloud side: the union of both sides,
/// capped to the newest `max_groups` non-empty groups.
pub fn get_target_backup_groups(
    local_groups: &Vec<BackupGroup>,
    cloud_groups: &Vec<BackupGroup>,
    max_groups: usize,
) -> (r: Vec<BackupGroup>)
    requires
        groups_wf(local_groups@),
        groups_wf(cloud_groups@),
        max_groups > 0,
    ensures
        is_target(r@, local_groups@, cloud_groups@, max_groups as nat),
{
    let union = merge_groups(local_groups, cloud_groups);
    let ghost u = union@;
    let r = retain_newest(union, max_groups);
    proof {
        assert(is_union(u, local_groups@, cloud_groups@));
        assert forall|p: int, q: int|
            0 <= p < q < group_names(r@).len() implies name_lt(
            #[trigger] group_names(r@)[p],
            #[trigger] group_names(r@)[q],
        ) by {
            let off = u.len() - r@.len();
            assert(group_names(r@)[p] == group_names(u)[p + off]);
            assert(group_names(r@)[q] == group_names(u)[q + off]);
        }
        assert forall|p: int| 0 <= p < r@.len() implies sorted(views(#[trigger] r@[p].backups@)) by {
            assert(r@[p] == u[p + (u.len() - r@.len())]);
        }
    }
    r
}


/// Retention keeps the newest non-empty groups: as many of them as the cap
/// allows (all of them where there are fewer), and each group it keeps is newer
/// than every group it drops.
pub proof fn lemma_retention(r: Seq<BackupGroup>, gs: Seq<BackupGroup>, max: nat)
    requires
        groups_wf(gs),
        is_retained(r, gs, max),
        max > 0,
    ensures
        count_nonempty(r) == (if count_nonempty(gs) < max {
            count_nonempty(gs)
        } else {
            max
        }),
        forall|i: int, j: int|
            0 <= i < gs.len() - r.len() <= j < gs.len() ==> name_lt(
                #[trigger] gs[i].name@,
                #[trigger] gs[j].name@,
            ),
{
    let c = gs.len() - r.len();
    assert(gs.skip(0) =~= gs);
    if c == 0 {
        if gs.len() > 0 {
            assert(kept(gs, 0, max));
            lemma_count_skip(gs, 0);
        }
    } else {
        assert(!kept(gs, c - 1, max));
        if c < gs.len() {
            assert(kept(gs, c, max));
            lemma_count_skip(gs, c);
        } else {
            assert(gs.skip(c) =~= Seq::<BackupGroup>::empty());
        }
        lemma_count_skip_mono(gs, 0, c);
    }
    assert forall|i: int, j: int| 0 <= i < gs.len() - r.len() <= j < gs.len() implies name_lt(
        #[trigger] gs[i].name@,
        #[trigger] gs[j].name@,
    ) by {
        assert(group_names(gs)[i] == gs[i].name@);
        assert(group_names(gs)[j] == gs[j].name@);
    }
}

proof fn lemma_backups_of_unique(gs: Seq<BackupGroup>, i: int)
    requires
        groups_wf(gs),
        0 <= i < gs.len(),
    ensures
        backups_of(gs, gs[i].name@) == backup_set(gs[i]),
{
    let k = gs[i].name@;
    assert forall|b: Seq<char>| backups_of(gs, k).contains(b) <==> backup_set(gs[i]).contains(b) by {
        if backups_of(gs, k).contains(b) {
            let j = choose|j: int|
                0 <= j < gs.len() && #[trigger] gs[j].name@ == k && views(gs[j].backups@).contains(
                    b,
                );
            assert(group_names(gs)[i] == k);
            assert(group_names(gs)[j] == k);
            lemma_name_lt_irreflexive(k);
        }
    }
    assert(backups_of(gs, k) =~= backup_set(gs[i]));
}

proof fn lemma_backups_of_absent(gs: Seq<BackupGroup>, k: Seq<char>)
    requires
        !has_group(gs, k),
    ensures
        backups_of(gs, k) == Set::<Seq<char>>::empty(),
{
    assert forall|b: Seq<char>| !backups_of(gs, k).contains(b) by {
        if backups_of(gs, k).contains(b) {
            let j = choose|j: int|
                0 <= j < gs.len() && #[trigger] gs[j].name@ == k && views(gs[j].backups@).contains(
                    b,
                );
            assert(group_names(gs)[j] == k);
        }
    }
    assert(backups_of(gs, k) =~= Set::empty());
}

/// Looks a group up by name.
pub fn find_group(gs: &Vec<BackupGroup>, name: &String) -> (r: Option<usize>)
    ensures
        r matches Some(i) ==> i < gs@.len() && gs@[i as int].name@ == name@,
        r is None <==> !has_group(gs@, name@),
{
    let mut i: usize = 0;
    while i < gs.len()
        invariant
            0 <= i <= gs@.len(),
            forall|j: int| 0 <= j < i ==> gs@[j].name@ != name@,
        decreases gs.len() - i,
    {
        if gs[i].name == *name {
            assert(group_names(gs@)[i as int] == name@);
            return Some(i);
        }
        i = i + 1;
    }
    assert forall|j: int| 0 <= j < gs@.len() implies group_names(gs@)[j] != name@ by {
        assert(group_names(gs@)[j] == gs@[j].name@);
    }
    None
}

/// Whether `x` is among the names `v`.
pub fn contains_name(v: &Vec<String>, x: &String) -> (r: bool)
    ensures
        r == views(v@).contains(x@),
{
    let mut i: usize = 0;
    while i < v.len()
        invariant
            0 <= i <= v@.len(),
            forall|j: int| 0 <= j < i ==> v@[j]@ != x@,
        decreases v.len() - i,
    {
        if v[i] == *x {
            assert(views(v@)[i as int] == x@);
            return true;
        }
        i = i + 1;
    }
    assert forall|j: int| 0 <= j < v@.len() implies views(v@)[j] != x@ by {
        assert(views(v@)[j] == v@[j]@);
    }
    false
}

/// What a sync does with one non-empty target group: create it on the cloud
/// side first where it is missing, then upload the backups that the cloud side
/// lacks, in ascending order.
pub struct GroupPlan {
    pub name: String,
    pub create: bool,
    pub uploads: Vec<String>,
}

/// The decisions of a sync.
pub struct SyncPlan {
    pub groups: Vec<GroupPlan>,
    pub deletions: Vec<String>,
}

pub open spec fn plan_names(ps: Seq<GroupPlan>) -> Seq<Seq<char>> {
    ps.map_values(|p: GroupPlan| p.name@)
}

/// `p` holds the decisions that bring `cloud` to `target`: one entry per
/// non-empty target group, in ascending order; a group is created where the
/// cloud side lacks it; the uploads are the backups of the target group that the
/// cloud group lacks, in ascending order; the deletions are the cloud groups
/// outside the target, in ascending order.
pub open spec fn is_plan(p: SyncPlan, target: Seq<BackupGroup>, cloud: Seq<BackupGroup>) -> bool {
    &&& sorted(plan_names(p.groups@))
    &&& forall|k: Seq<char>| #[trigger]
        plan_names(p.groups@).contains(k) <==> exists|i: int|
            0 <= i < target.len() && #[trigger] target[i].name@ == k && nonempty(target[i])
    &&& forall|j: int|
        0 <= j < p.groups@.len() ==> (#[trigger] p.groups@[j]).create == !has_group(
            cloud,
            p.groups@[j].name@,
        )
    &&& forall|j: int| 0 <= j < p.groups@.len() ==> sorted(views(#[trigger] p.groups@[j].uploads@))
    &&& forall|j: int, b: Seq<char>|
        0 <= j < p.groups@.len() ==> (#[trigger] views(p.groups@[j].uploads@).contains(b) <==> (
        backups_of(target, p.groups@[j].name@).contains(b) && !backups_of(
            cloud,
            p.groups@[j].name@,
        ).contains(b)))
    &&& sorted(views(p.deletions@))
    &&& forall|k: Seq<char>| #[trigger]
        views(p.deletions@).contains(k) <==> (has_group(cloud, k) && !has_group(target, k))
}

fn plan_uploads(target: &Vec<String>, cloud: &Vec<String>) -> (r: Vec<String>)
    requires
        sorted(views(target@)),
    ensures
        sorted(views(r@)),
        forall|b: Seq<char>| #[trigger]
            views(r@).contains(b) <==> (views(target@).contains(b) && !views(cloud@).contains(b)),
{
    let mut r: Vec<String> = Vec::new();
    let mut i: usize = 0;
    while i < target.len()
        invariant
            0 <= i <= target@.len(),
            sorted(views(target@)),
            sorted(views(r@)),
            forall|b: Seq<char>| #[trigger]
                views(r@).contains(b) <==> (views(target@.take(i as int)).contains(b) && !views(
                    cloud@,
                ).contains(b)),
            forall|p: int, q: int|
                0 <= p < r@.len() && i <= q < target@.len() ==> name_lt(
                    #[trigger] r@[p]@,
                    #[trigger] target@[q]@,
                ),
        decreases target.len() - i,
    {
        let present = contains_name(cloud, &target[i]);
        proof {
            lemma_views_take(target@, i as int);
        }
        if !present {
            let x = clone_name(&target[i]);
            proof {
                assert(views(target@)[i as int] == target@[i as int]@);
                assert forall|q: int| i + 1 <= q < target@.len() implies name_lt(
                    x@,
                    #[trigger] target@[q]@,
                ) by {
                    assert(views(target@)[q] == target@[q]@);
                }
                lemma_views_push(r@, x);
                assert forall|p: int, q: int|
                    0 <= p < q < views(r@.push(x)).len() implies name_lt(
                    #[trigger] views(r@.push(x))[p],
                    #[trigger] views(r@.push(x))[q],
                ) by {
                    assert(views(r@.push(x))[p] == r@.push(x)[p]@);
                    assert(views(r@.push(x))[q] == r@.push(x)[q]@);
                    if q < r@.len() {
                        assert(views(r@)[p] == r@[p]@);
                        assert(views(r@)[q] == r@[q]@);
                    }
                }
                assert forall|b: Seq<char>| #[trigger]
                    views(r@.push(x)).contains(b) <==> (views(target@.take(i + 1)).contains(b)
                        && !views(cloud@).contains(b)) by {
                    lemma_contains_push(views(r@), x@, b);
                    lemma_contains_push(views(target@.take(i as int)), x@, b);
                }
            }
            r.push(x);
        } else {
            proof {
                assert forall|b: Seq<char>| #[trigger]
                    views(r@).contains(b) <==> (views(target@.take(i + 1)).contains(b) && !views(
                        cloud@,
                    ).contains(b)) by {
                    lemma_contains_push(views(target@.take(i as int)), target@[i as int]@, b);
                }
            }
        }
        i = i + 1;
    }
    assert(target@.take(i as int) =~= target@);
    r
}

/// The decisions that bring the cloud side to `target`.
pub fn plan_actions(target: &Vec<BackupGroup>, cloud: &Vec<BackupGroup>) -> (p: SyncPlan)
    requires
        groups_wf(target@),
        groups_wf(cloud@),
    ensures
        is_plan(p, target@, cloud@),
{
    let ghost t = target@;
    let mut groups: Vec<GroupPlan> = Vec::new();
    let mut i: usize = 0;
    let no_backups: Vec<String> = Vec::new();
    while i < target.len()
        invariant
            t == target@,
            0 <= i <= t.len(),
            groups_wf(t),
            groups_wf(cloud@),
            sorted(plan_names(groups@)),
            forall|k: Seq<char>| #[trigger]
                plan_names(groups@).contains(k) <==> exists|j: int|
                    0 <= j < i && #[trigger] t[j].name@ == k && nonempty(t[j]),
            forall|j: int|
                0 <= j < groups@.len() ==> (#[trigger] groups@[j]).create == !has_group(
                    cloud@,
                    groups@[j].name@,
                ),
            forall|j: int| 0 <= j < groups@.len() ==> sorted(views(#[trigger] groups@[j].uploads@)),
            forall|j: int, b: Seq<char>|
                0 <= j < groups@.len() ==> (#[trigger] views(groups@[j].uploads@).contains(b) <==> (
                backups_of(t, groups@[j].name@).contains(b) && !backups_of(
                    cloud@,
                    groups@[j].name@,
                ).contains(b))),
            forall|p: int, q: int|
                0 <= p < groups@.len() && i <= q < t.len() ==> name_lt(
                    #[trigger] groups@[p].name@,
                    #[trigger] t[q].name@,
                ),
            no_backups@.len() == 0,
        decreases t.len() - i,
    {
        let g = &target[i];
        proof {
            assert(group_names(t)[i as int] == t[i as int].name@);
            assert forall|q: int| i + 1 <= q < t.len() implies name_lt(
                t[i as int].name@,
                #[trigger] t[q].name@,
            ) by {
                assert(group_names(t)[q] == t[q].name@);
            }
        }
        if g.backups.len() > 0 {
            let found = find_group(cloud, &g.name);
            let cloud_backups = match found {
                Some(c) => &cloud[c].backups,
                None => &no_backups,
            };
            proof {
                lemma_backups_of_unique(t, i as int);
                match found {
                    Some(c) => {
                        lemma_backups_of_unique(cloud@, c as int);
                    },
                    None => {
                        lemma_backups_of_absent(cloud@, g.name@);
                    },
                }
                assert(backups_of(cloud@, g.name@) =~= Set::new(
                    |b: Seq<char>| views(cloud_backups@).contains(b),
                ));
                assert(sorted(views(t[i as int].backups@)));
            }
            let uploads = plan_uploads(&g.backups, cloud_backups);
            let x = GroupPlan { name: clone_name(&g.name), create: found.is_none(), uploads };
            proof {
                assert(groups@.push(x)[groups@.len() as int] == x);
                assert(plan_names(groups@.push(x)) =~= plan_names(groups@).push(x.name@));
                assert forall|p: int, q: int|
                    0 <= p < q < plan_names(groups@.push(x)).len() implies name_lt(
                    #[trigger] plan_names(groups@.push(x))[p],
                    #[trigger] plan_names(groups@.push(x))[q],
                ) by {
                    if q < groups@.len() {
                        assert(plan_names(groups@)[p] == groups@[p].name@);
                        assert(plan_names(groups@)[q] == groups@[q].name@);
                    } else {
                        assert(plan_names(groups@.push(x))[p] == groups@[p].name@);
                    }
                }
                assert forall|k: Seq<char>| #[trigger]
                    plan_names(groups@.push(x)).contains(k) <==> exists|j: int|
                        0 <= j < i + 1 && #[trigger] t[j].name@ == k && nonempty(t[j]) by {
                    lemma_contains_push(plan_names(groups@), x.name@, k);
                    if plan_names(groups@).contains(k) {
                        let j = choose|j: int| 0 <= j < i && #[trigger] t[j].name@ == k && nonempty(t[j]);
                        assert(0 <= j < i + 1 && t[j].name@ == k && nonempty(t[j]));
                    }
                    if exists|j: int| 0 <= j < i + 1 && #[trigger] t[j].name@ == k && nonempty(t[j]) {
                        let j = choose|j: int| 0 <= j < i + 1 && #[trigger] t[j].name@ == k && nonempty(t[j]);
                        if j < i {
                            assert(plan_names(groups@).contains(k));
                        }
                    }
                }
                assert forall|j: int, b: Seq<char>|
                    0 <= j < groups@.len() + 1 implies (#[trigger] views(groups@.push(x)[j].uploads@).contains(b)
                    <==> (backups_of(t, groups@.push(x)[j].name@).contains(b) && !backups_of(
                        cloud@,
                        groups@.push(x)[j].name@,
                    ).contains(b))) by {
                    if j < groups@.len() {
                        assert(groups@.push(x)[j] == groups@[j]);
                    }
                }
            }
            groups.push(x);
        } else {
            proof {
                assert forall|k: Seq<char>| #[trigger]
                    plan_names(groups@).contains(k) <==> exists|j: int|
                        0 <= j < i + 1 && #[trigger] t[j].name@ == k && nonempty(t[j]) by {
                    if exists|j: int| 0 <= j < i + 1 && #[trigger] t[j].name@ == k && nonempty(t[j]) {
                        let j = choose|j: int| 0 <= j < i + 1 && #[trigger] t[j].name@ == k && nonempty(t[j]);
                        assert(j != i);
                    }
                    if plan_names(groups@).contains(k) {
                        let j = choose|j: int| 0 <= j < i && #[trigger] t[j].name@ == k && nonempty(t[j]);
                        assert(0 <= j < i + 1 && t[j].name@ == k && nonempty(t[j]));
                    }
                }
            }
        }
        i = i + 1;
    }
    let mut deletions: Vec<String> = Vec::new();
    let mut j: usize = 0;
    assert(cloud@.take(0) =~= Seq::<BackupGroup>::empty());
    assert(group_names(cloud@.take(0)) =~= Seq::<Seq<char>>::empty());
    while j < cloud.len()
        invariant
            t == target@,
            0 <= j <= cloud@.len(),
            groups_wf(cloud@),
            sorted(views(deletions@)),
            forall|k: Seq<char>| #[trigger]
                views(deletions@).contains(k) <==> (group_names(cloud@.take(j as int)).contains(k)
                    && !has_group(t, k)),
            forall|p: int, q: int|
                0 <= p < deletions@.len() && j <= q < cloud@.len() ==> name_lt(
                    #[trigger] deletions@[p]@,
                    #[trigger] cloud@[q].name@,
                ),
        decreases cloud.len() - j,
    {
        let found = find_group(target, &cloud[j].name);
        proof {
            lemma_group_names_take(cloud@, j as int);
            assert(group_names(cloud@)[j as int] == cloud@[j as int].name@);
        }
        if found.is_none() {
            let x = clone_name(&cloud[j].name);
            proof {
                assert forall|q: int| j + 1 <= q < cloud@.len() implies name_lt(
                    x@,
                    #[trigger] cloud@[q].name@,
                ) by {
                    assert(group_names(cloud@)[q] == cloud@[q].name@);
                }
                lemma_views_push(deletions@, x);
                assert forall|p: int, q: int|
                    0 <= p < q < views(deletions@.push(x)).len() implies name_lt(
                    #[trigger] views(deletions@.push(x))[p],
                    #[trigger] views(deletions@.push(x))[q],
                ) by {
                    assert(views(deletions@.push(x))[p] == deletions@.push(x)[p]@);
                    assert(views(deletions@.push(x))[q] == deletions@.push(x)[q]@);
                    if q < deletions@.len() {
                        assert(views(deletions@)[p] == deletions@[p]@);
                        assert(views(deletions@)[q] == deletions@[q]@);
                    }
                }
                assert forall|k: Seq<char>| #[trigger]
                    views(deletions@.push(x)).contains(k) <==> (group_names(
                        cloud@.take(j + 1),
                    ).contains(k) && !has_group(t, k)) by {
                    lemma_contains_push(views(deletions@), x@, k);
                    lemma_contains_push(group_names(cloud@.take(j as int)), x@, k);
                }
            }
            deletions.push(x);
        } else {
            proof {
                assert forall|k: Seq<char>| #[trigger]
                    views(deletions@).contains(k) <==> (group_names(cloud@.take(j + 1)).contains(k)
                        && !has_group(t, k)) by {
                    lemma_contains_push(
                        group_names(cloud@.take(j as int)),
                        cloud@[j as int].name@,
                        k,
                    );
                }
            }
        }
        j = j + 1;
    }
    assert(cloud@.take(j as int) =~= cloud@);
    SyncPlan { groups, deletions }
}

/// `cloud` holds exactly the groups and backups of `target`.
pub open spec fn mirrors(cloud: Seq<BackupGroup>, target: Seq<BackupGroup>) -> bool {
    &&& forall|k: Seq<char>| #[trigger] has_group(cloud, k) == has_group(target, k)
    &&& forall|k: Seq<char>| #[trigger] backups_of(cloud, k) == backups_of(target, k)
}

/// `cloud` holds what a sync towards `target` must leave: no group outside
/// the target, every non-empty target group, and each group with the target's
/// backups. (Empty target groups may be there or not.)
pub open spec fn settled_on(cloud: Seq<BackupGroup>, target: Seq<BackupGroup>) -> bool {
    &&& forall|k: Seq<char>| #[trigger] has_group(cloud, k) ==> has_group(target, k)
    &&& forall|k: Seq<char>| #[trigger] backups_of(cloud, k) == backups_of(target, k)
    &&& forall|k: Seq<char>|
        has_group(target, k) && #[trigger] backups_of(target, k) != Set::<Seq<char>>::empty()
            ==> has_group(cloud, k)
}

/// `cloud2` is what a fully successful sync of `cloud` towards `t` leaves:
/// the target groups that hold backups or were there already, each with the
/// target's backups.
pub open spec fn left_by_sync(
    cloud2: Seq<BackupGroup>,
    t: Seq<BackupGroup>,
    cloud: Seq<BackupGroup>,
) -> bool {
    &&& forall|k: Seq<char>| #[trigger]
        has_group(cloud2, k) <==> (has_group(t, k) && (backups_of(t, k) != Set::<
            Seq<char>,
        >::empty() || has_group(cloud, k)))
    &&& forall|k: Seq<char>| #[trigger] backups_of(cloud2, k) == backups_of(t, k)
}

/// Once the cloud side holds the target, planning again decides nothing: no
/// group is created, no backup is uploaded, no group is deleted.
pub proof fn lemma_plan_settled(p: SyncPlan, target: Seq<BackupGroup>, cloud: Seq<BackupGroup>)
    requires
        groups_wf(target),
        is_plan(p, target, cloud),
        settled_on(cloud, target),
    ensures
        forall|j: int| 0 <= j < p.groups@.len() ==> !(#[trigger] p.groups@[j]).create,
        forall|j: int| 0 <= j < p.groups@.len() ==> (#[trigger] p.groups@[j]).uploads@.len() == 0,
        p.deletions@.len() == 0,
{
    assert forall|j: int| 0 <= j < p.groups@.len() implies !(#[trigger] p.groups@[j]).create by {
        let k = p.groups@[j].name@;
        assert(plan_names(p.groups@)[j] == k);
        assert(plan_names(p.groups@).contains(k));
        let i = choose|i: int| 0 <= i < target.len() && #[trigger] target[i].name@ == k && nonempty(target[i]);
        assert(group_names(target)[i] == k);
        assert(has_group(target, k));
        lemma_nonempty_group(target, i);
        assert(backups_of(target, k) != Set::<Seq<char>>::empty());
    }
    assert forall|j: int| 0 <= j < p.groups@.len() implies (#[trigger] p.groups@[j]).uploads@.len() == 0 by {
        if p.groups@[j].uploads@.len() > 0 {
            let b = p.groups@[j].uploads@[0]@;
            assert(views(p.groups@[j].uploads@)[0] == b);
            assert(views(p.groups@[j].uploads@).contains(b));
        }
    }
    if p.deletions@.len() > 0 {
        let k = p.deletions@[0]@;
        assert(views(p.deletions@)[0] == k);
        assert(views(p.deletions@).contains(k));
    }
}


/// An operation on the cloud side.
pub enum Operation {
    Create(String),
    Upload(String, String),
    Delete(String),
}

/// An operation as plain values: its kind (0 create, 1 upload, 2 delete), its
/// group and its backup (empty but for an upload).
pub open spec fn op_view(o: Operation) -> (int, Seq<char>, Seq<char>) {
    match o {
        Operation::Create(g) => (0, g@, Seq::empty()),
        Operation::Upload(g, b) => (1, g@, b@),
        Operation::Delete(g) => (2, g@, Seq::empty()),
    }
}

pub open spec fn ops_view(os: Seq<Operation>) -> Seq<(int, Seq<char>, Seq<char>)> {
    os.map_values(|o: Operation| op_view(o))
}

/// The uploads of a group plan, in order.
pub open spec fn upload_ops(g: GroupPlan) -> Seq<(int, Seq<char>, Seq<char>)> {
    Seq::new(g.uploads@.len(), |k: int| (1int, g.name@, g.uploads@[k]@))
}

/// The operations of a group plan: its creation where it is missing, then
/// its uploads.
pub open spec fn group_ops(g: GroupPlan) -> Seq<(int, Seq<char>, Seq<char>)> {
    (if g.create {
        seq![(0int, g.name@, Seq::<char>::empty())]
    } else {
        Seq::empty()
    }) + upload_ops(g)
}

pub open spec fn groups_ops(gs: Seq<GroupPlan>) -> Seq<(int, Seq<char>, Seq<char>)>
    decreases gs.len(),
{
    if gs.len() == 0 {
        Seq::empty()
    } else {
        groups_ops(gs.drop_last()) + group_ops(gs.last())
    }
}

/// The operations of a plan, in order: those of each group, then the
/// deletions.
pub open spec fn planned_ops(p: SyncPlan) -> Seq<(int, Seq<char>, Seq<char>)> {
    groups_ops(p.groups@) + Seq::new(
        p.deletions@.len(),
        |k: int| (2int, p.deletions@[k]@, Seq::<char>::empty()),
    )
}

/// The operations that carry out `plan`, in order.
pub fn schedule(plan: &SyncPlan) -> (r: Vec<Operation>)
    ensures
        ops_view(r@) == planned_ops(*plan),
{
    let mut r: Vec<Operation> = Vec::new();
    let mut i: usize = 0;
    assert(plan.groups@.take(0) =~= Seq::<GroupPlan>::empty());
    assert(ops_view(r@) =~= Seq::empty());
    while i < plan.groups.len()
        invariant
            0 <= i <= plan.groups@.len(),
            ops_view(r@) == groups_ops(plan.groups@.take(i as int)),
        decreases plan.groups.len() - i,
    {
        let g = &plan.groups[i];
        let ghost base = ops_view(r@);
        if g.create {
            let x = Operation::Create(clone_name(&g.name));
            assert(ops_view(r@.push(x)) =~= ops_view(r@).push(op_view(x)));
            r.push(x);
        }
        let ghost head = ops_view(r@);
        assert(head == base + (if g.create {
            seq![(0int, g.name@, Seq::<char>::empty())]
        } else {
            Seq::empty()
        })) by {
            if !g.create {
                assert(head =~= base + Seq::empty());
            } else {
                assert(head =~= base + seq![(0int, g.name@, Seq::<char>::empty())]);
            }
        }
        let mut j: usize = 0;
        assert(ops_view(r@) =~= head + upload_ops(*g).take(0));
        while j < g.uploads.len()
            invariant
                0 <= j <= g.uploads@.len(),
                ops_view(r@) == head + upload_ops(*g).take(j as int),
            decreases g.uploads.len() - j,
        {
            let x = Operation::Upload(clone_name(&g.name), clone_name(&g.uploads[j]));
            assert(ops_view(r@.push(x)) =~= ops_view(r@).push(op_view(x)));
            assert(head + upload_ops(*g).take(j + 1) =~= (head + upload_ops(*g).take(j as int)).push(
                op_view(x),
            ));
            r.push(x);
            j = j + 1;
        }
        assert(upload_ops(*g).take(j as int) =~= upload_ops(*g));
        assert(plan.groups@.take(i + 1).drop_last() =~= plan.groups@.take(i as int));
        assert(ops_view(r@) =~= groups_ops(plan.groups@.take(i + 1)));
        i = i + 1;
    }
    assert(plan.groups@.take(i as int) =~= plan.groups@);
    let ghost groups_part = ops_view(r@);
    let mut k: usize = 0;
    while k < plan.deletions.len()
        invariant
            0 <= k <= plan.deletions@.len(),
            ops_view(r@) == groups_part + Seq::new(
                k as nat,
                |m: int| (2int, plan.deletions@[m]@, Seq::<char>::empty()),
            ),
        decreases plan.deletions.len() - k,
    {
        let x = Operation::Delete(clone_name(&plan.deletions[k]));
        assert(ops_view(r@.push(x)) =~= ops_view(r@).push(op_view(x)));
        assert(groups_part + Seq::new(
            (k + 1) as nat,
            |m: int| (2int, plan.deletions@[m]@, Seq::<char>::empty()),
        ) =~= (groups_part + Seq::new(
            k as nat,
            |m: int| (2int, plan.deletions@[m]@, Seq::<char>::empty()),
        )).push(op_view(x)));
        r.push(x);
        k = k + 1;
    }
    r
}

/// Operation `k` of `ops` is skipped: it uploads into a group among
/// `failed`, the groups whose creation failed.
pub open spec fn skipped_by(ops: Seq<Operation>, failed: Seq<Seq<char>>, k: int) -> bool {
    ops[k] matches Operation::Upload(g, _) && failed.contains(g@)
}

/// A run of the operations of a sync: the next operation to consider and the
/// groups whose creation failed so far.
pub struct SyncRun {
    pub pos: usize,
    pub failed: Vec<String>,
}

impl SyncRun {
    /// A run that starts at the first operation, with no failure yet.
    pub fn new() -> (r: SyncRun)
        ensures
            r.pos == 0,
            r.failed@.len() == 0,
    {
        SyncRun { pos: 0, failed: Vec::new() }
    }

    /// The next operation to perform: the first one from `pos` on that is not
    /// an upload into a group whose creation failed; `None` when there is none
    /// left. The run moves past it.
    pub fn next_operation(&mut self, ops: &Vec<Operation>) -> (r: Option<usize>)
        ensures
            final(self).failed == old(self).failed,
            r matches Some(i) ==> {
                &&& old(self).pos <= i < ops@.len()
                &&& !skipped_by(ops@, views(old(self).failed@), i as int)
                &&& forall|k: int|
                    old(self).pos <= k < i ==> #[trigger] skipped_by(
                        ops@,
                        views(old(self).failed@),
                        k,
                    )
                &&& final(self).pos == i + 1
            },
            r is None ==> {
                &&& forall|k: int|
                    old(self).pos <= k < ops@.len() ==> #[trigger] skipped_by(
                        ops@,
                        views(old(self).failed@),
                        k,
                    )
                &&& final(self).pos == (if old(self).pos < ops@.len() {
                    ops@.len() as int
                } else {
                    old(self).pos as int
                })
            },
    {
        while self.pos < ops.len()
            invariant
                self.failed == old(self).failed,
                old(self).pos <= self.pos,
                forall|k: int|
                    old(self).pos <= k < self.pos ==> #[trigger] skipped_by(
                        ops@,
                        views(old(self).failed@),
                        k,
                    ),
                old(self).pos >= ops@.len() ==> self.pos == old(self).pos,
                old(self).pos < ops@.len() ==> self.pos <= ops@.len(),
            decreases ops.len() - self.pos,
        {
            let i = self.pos;
            let skip = match &ops[i] {
                Operation::Upload(g, _) => contains_name(&self.failed, g),
                _ => false,
            };
            self.pos = i + 1;
            if !skip {
                return Some(i);
            }
        }
        None
    }

    /// Records whether operation `i`, which was performed, succeeded: a failed
    /// creation makes the uploads into its group skipped.
    pub fn record_outcome(&mut self, ops: &Vec<Operation>, i: usize, ok: bool)
        requires
            i < ops@.len(),
        ensures
            final(self).pos == old(self).pos,
            views(final(self).failed@) == (if !ok && ops@[i as int] is Create {
                views(old(self).failed@).push(ops@[i as int]->Create_0@)
            } else {
                views(old(self).failed@)
            }),
    {
        if !ok {
            if let Operation::Create(g) = &ops[i] {
                let c = clone_name(g);
                proof {
                    lemma_views_push(self.failed@, c);
                }
                self.failed.push(c);
            }
        }
    }
}

/// The decisions of a sync: the plan, and the operations that carry it out.
pub struct SyncReport {
    pub plan: SyncPlan,
    pub operations: Vec<Operation>,
}

/// Decides how to bring the cloud side to the target of `local_groups` and
/// `cloud_groups` under a cap of `max_backup_groups` groups: the plan, and the
/// operations that carry it out in order. A `SyncRun` performs them, skipping
/// the uploads of a group whose creation failed.
pub fn sync_backups(
    local_groups: &Vec<BackupGroup>,
    cloud_groups: &Vec<BackupGroup>,
    max_backup_groups: usize,
) -> (r: SyncReport)
    requires
        groups_wf(local_groups@),
        groups_wf(cloud_groups@),
        max_backup_groups > 0,
    ensures
        exists|t: Seq<BackupGroup>|
            #[trigger] is_target(t, local_groups@, cloud_groups@, max_backup_groups as nat)
                && is_plan(r.plan, t, cloud_groups@),
        ops_view(r.operations@) == planned_ops(r.plan),
{
    let target = get_target_backup_groups(local_groups, cloud_groups, max_backup_groups);
    let plan = plan_actions(&target, cloud_groups);
    let operations = schedule(&plan);
    assert(is_target(target@, local_groups@, cloud_groups@, max_backup_groups as nat) && is_plan(
        plan,
        target@,
        cloud_groups@,
    ));
    SyncReport { plan, operations }
}

/// The names of the non-empty groups of `u` at index `j` or later.
pub open spec fn nonempty_from(u: Seq<BackupGroup>, j: int) -> Set<Seq<char>> {
    Set::new(
        |n: Seq<char>| exists|m: int| j <= m < u.len() && #[trigger] u[m].name@ == n && nonempty(u[m]),
    )
}

/// The groups of `u` that are non-empty and newer than `k`.
pub open spec fn newer_nonempty(u: Seq<BackupGroup>, k: Seq<char>) -> Set<Seq<char>> {
    group_names(u).to_set().filter(
        |n: Seq<char>| name_lt(k, n) && backups_of(u, n) != Set::<Seq<char>>::empty(),
    )
}

proof fn lemma_nonempty_group(u: Seq<BackupGroup>, i: int)
    requires
        groups_wf(u),
        0 <= i < u.len(),
    ensures
        nonempty(u[i]) <==> backups_of(u, u[i].name@) != Set::<Seq<char>>::empty(),
{
    lemma_backups_of_unique(u, i);
    if nonempty(u[i]) {
        assert(views(u[i].backups@)[0] == u[i].backups@[0]@);
        assert(backup_set(u[i]).contains(u[i].backups@[0]@));
    } else {
        assert(backup_set(u[i]) =~= Set::<Seq<char>>::empty());
    }
}

proof fn lemma_index_of(u: Seq<BackupGroup>, n: Seq<char>) -> (m: int)
    requires
        has_group(u, n),
    ensures
        0 <= m < u.len(),
        u[m].name@ == n,
{
    let m = choose|m: int| 0 <= m < group_names(u).len() && group_names(u)[m] == n;
    m
}

proof fn lemma_sorted_index(u: Seq<BackupGroup>, i: int, m: int)
    requires
        groups_wf(u),
        0 <= i < u.len(),
        0 <= m < u.len(),
    ensures
        name_lt(u[i].name@, u[m].name@) <==> i < m,
        u[i].name@ == u[m].name@ <==> i == m,
{
    assert(group_names(u)[i] == u[i].name@);
    assert(group_names(u)[m] == u[m].name@);
    lemma_name_lt_irreflexive(u[i].name@);
    if m < i {
        if name_lt(u[i].name@, u[m].name@) {
            lemma_name_lt_transitive(u[i].name@, u[m].name@, u[i].name@);
        }
    }
}

proof fn lemma_nonempty_from_len(u: Seq<BackupGroup>, j: int)
    requires
        groups_wf(u),
        0 <= j <= u.len(),
    ensures
        nonempty_from(u, j).finite(),
        nonempty_from(u, j).len() == count_nonempty(u.skip(j)),
    decreases u.len() - j,
{
    if j == u.len() {
        assert(nonempty_from(u, j) =~= Set::<Seq<char>>::empty());
        assert(u.skip(j) =~= Seq::<BackupGroup>::empty());
    } else {
        lemma_nonempty_from_len(u, j + 1);
        lemma_count_skip(u, j);
        let rest = nonempty_from(u, j + 1);
        let x = u[j].name@;
        assert(!rest.contains(x)) by {
            if rest.contains(x) {
                let m = choose|m: int| j + 1 <= m < u.len() && #[trigger] u[m].name@ == x && nonempty(u[m]);
                lemma_sorted_index(u, j, m);
            }
        }
        if nonempty(u[j]) {
            assert(nonempty_from(u, j) =~= rest.insert(x));
        } else {
            assert(nonempty_from(u, j) =~= rest);
        }
    }
}

proof fn lemma_newer_is_suffix(u: Seq<BackupGroup>, i: int)
    requires
        groups_wf(u),
        0 <= i < u.len(),
    ensures
        newer_nonempty(u, u[i].name@) == nonempty_from(u, i + 1),
{
    let k = u[i].name@;
    assert forall|n: Seq<char>| newer_nonempty(u, k).contains(n) <==> nonempty_from(u, i + 1).contains(n) by {
        if newer_nonempty(u, k).contains(n) {
            assert(group_names(u).contains(n));
            let m = lemma_index_of(u, n);
            lemma_sorted_index(u, i, m);
            lemma_nonempty_group(u, m);
        }
        if nonempty_from(u, i + 1).contains(n) {
            let m = choose|m: int| i + 1 <= m < u.len() && #[trigger] u[m].name@ == n && nonempty(u[m]);
            lemma_sorted_index(u, i, m);
            lemma_nonempty_group(u, m);
            assert(group_names(u)[m] == n);
        }
    }
    assert(newer_nonempty(u, k) =~= nonempty_from(u, i + 1));
}

/// Group `i` of `u` survives a cap of `max` exactly when fewer than `max`
/// non-empty groups are newer than it.
proof fn lemma_kept_by_names(u: Seq<BackupGroup>, i: int, max: nat)
    requires
        groups_wf(u),
        0 <= i < u.len(),
    ensures
        newer_nonempty(u, u[i].name@).finite(),
        kept(u, i, max) <==> newer_nonempty(u, u[i].name@).len() < max,
{
    lemma_newer_is_suffix(u, i);
    lemma_nonempty_from_len(u, i + 1);
}

proof fn lemma_retained_groups(t: Seq<BackupGroup>, u: Seq<BackupGroup>, max: nat, k: Seq<char>)
    requires
        groups_wf(u),
        is_retained(t, u, max),
    ensures
        has_group(t, k) <==> exists|i: int| 0 <= i < u.len() && #[trigger] u[i].name@ == k && kept(u, i, max),
        has_group(t, k) ==> has_group(u, k),
        backups_of(t, k) == (if has_group(t, k) {
            backups_of(u, k)
        } else {
            Set::<Seq<char>>::empty()
        }),
{
    let c = u.len() - t.len();
    if has_group(t, k) {
        let p = lemma_index_of(t, k);
        assert(t[p] == u[p + c]);
        assert(kept(u, p + c, max));
        assert(group_names(u)[p + c] == k);
        lemma_backups_of_unique(u, p + c);
        assert(groups_wf(t)) by {
            assert forall|a: int, b: int| 0 <= a < b < group_names(t).len() implies name_lt(
                #[trigger] group_names(t)[a],
                #[trigger] group_names(t)[b],
            ) by {
                assert(group_names(t)[a] == group_names(u)[a + c]);
                assert(group_names(t)[b] == group_names(u)[b + c]);
            }
            assert forall|a: int| 0 <= a < t.len() implies sorted(views(#[trigger] t[a].backups@)) by {
                assert(t[a] == u[a + c]);
            }
        }
        lemma_backups_of_unique(t, p);
    } else {
        lemma_backups_of_absent(t, k);
    }
    if exists|i: int| 0 <= i < u.len() && #[trigger] u[i].name@ == k && kept(u, i, max) {
        let i = choose|i: int| 0 <= i < u.len() && #[trigger] u[i].name@ == k && kept(u, i, max);
        assert(t[i - c] == u[i]);
        assert(group_names(t)[i - c] == k);
    }
}

proof fn lemma_retention_by_names_at(t: Seq<BackupGroup>, u: Seq<BackupGroup>, max: nat, k: Seq<char>)
    requires
        groups_wf(u),
        is_retained(t, u, max),
    ensures
        newer_nonempty(u, k).finite(),
        (has_group(t, k) && backups_of(t, k) != Set::<Seq<char>>::empty()) <==> (has_group(u, k)
            && backups_of(u, k) != Set::<Seq<char>>::empty() && newer_nonempty(u, k).len() < max),
{
    lemma_retained_groups(t, u, max, k);
    assert(newer_nonempty(u, k).finite()) by {
        vstd::seq_lib::seq_to_set_is_finite(group_names(u));
    }
    if has_group(u, k) {
        let i = lemma_index_of(u, k);
        lemma_kept_by_names(u, i, max);
        if has_group(t, k) {
            let j = choose|j: int| 0 <= j < u.len() && #[trigger] u[j].name@ == k && kept(u, j, max);
            lemma_sorted_index(u, i, j);
        }
    }
}

/// Retention in set form: a group holds backups after the cap exactly when it
/// holds backups in `u` and fewer than `max` non-empty groups of `u` are newer,
/// that is, when it is one of the `max` newest non-empty groups.
pub proof fn lemma_retention_by_names(t: Seq<BackupGroup>, u: Seq<BackupGroup>, max: nat)
    requires
        groups_wf(u),
        is_retained(t, u, max),
    ensures
        forall|k: Seq<char>|
            (#[trigger] has_group(t, k) && backups_of(t, k) != Set::<Seq<char>>::empty()) <==> (
            has_group(u, k) && backups_of(u, k) != Set::<Seq<char>>::empty() && newer_nonempty(
                u,
                k,
            ).len() < max),
{
    assert forall|k: Seq<char>|
        (#[trigger] has_group(t, k) && backups_of(t, k) != Set::<Seq<char>>::empty()) <==> (
        has_group(u, k) && backups_of(u, k) != Set::<Seq<char>>::empty() && newer_nonempty(
            u,
            k,
        ).len() < max) by {
        lemma_retention_by_names_at(t, u, max, k);
    }
}

proof fn lemma_target_settled_at(
    local: Seq<BackupGroup>,
    cloud: Seq<BackupGroup>,
    max: nat,
    t1: Seq<BackupGroup>,
    t2: Seq<BackupGroup>,
    k: Seq<char>,
)
    requires
        groups_wf(local),
        groups_wf(cloud),
        max > 0,
        is_target(t1, local, cloud, max),
        is_target(t2, local, t1, max),
    ensures
        has_group(t2, k) == has_group(t1, k),
        backups_of(t2, k) == backups_of(t1, k),
{
    let u1 = choose|u: Seq<BackupGroup>| is_union(u, local, cloud) && is_retained(t1, u, max);
    let u2 = choose|u: Seq<BackupGroup>| is_union(u, local, t1) && is_retained(t2, u, max);
    let c1 = u1.len() - t1.len();
    {
        lemma_retained_groups(t1, u1, max, k);
        lemma_retained_groups(t2, u2, max, k);
        if has_group(t1, k) {
            let i1 = choose|i: int| 0 <= i < u1.len() && #[trigger] u1[i].name@ == k && kept(u1, i, max);
            assert(has_group(u2, k));
            let i2 = lemma_index_of(u2, k);
            lemma_kept_by_names(u1, i1, max);
            lemma_kept_by_names(u2, i2, max);
            assert forall|n: Seq<char>| newer_nonempty(u2, k).contains(n) <==> newer_nonempty(u1, k).contains(n) by {
                lemma_retained_groups(t1, u1, max, n);
                if newer_nonempty(u2, k).contains(n) {
                    assert(group_names(u2).contains(n));
                    assert(has_group(u2, n));
                    assert(has_group(local, n) || has_group(t1, n));
                    assert(has_group(u1, n));
                    assert(backups_of(u2, n) == backups_of(local, n) + backups_of(t1, n));
                    assert(backups_of(u1, n) == backups_of(local, n) + backups_of(cloud, n));
                    if has_group(t1, n) {
                        assert(backups_of(u2, n) =~= backups_of(u1, n));
                    } else {
                        assert(backups_of(u2, n) =~= backups_of(local, n));
                        assert(backups_of(u2, n).subset_of(backups_of(u1, n)));
                        if backups_of(u1, n) == Set::<Seq<char>>::empty() {
                            assert(backups_of(u2, n) =~= Set::<Seq<char>>::empty());
                        }
                    }
                    assert(group_names(u1).contains(n));
                }
                if newer_nonempty(u1, k).contains(n) {
                    assert(group_names(u1).contains(n));
                    let m = lemma_index_of(u1, n);
                    lemma_sorted_index(u1, i1, m);
                    assert(kept(u1, m, max)) by {
                        if !kept(u1, m, max) {
                            assert(m < c1);
                        }
                    }
                    assert(has_group(t1, n));
                    assert(has_group(u2, n));
                    assert(backups_of(u2, n) =~= backups_of(u1, n));
                    assert(group_names(u2).contains(n));
                }
            }
            assert(newer_nonempty(u2, k) =~= newer_nonempty(u1, k));
            assert(kept(u2, i2, max));
            assert(has_group(t2, k));
            assert(backups_of(u2, k) =~= backups_of(u1, k));
        } else if has_group(t2, k) {
            let i2 = choose|i: int| 0 <= i < u2.len() && #[trigger] u2[i].name@ == k && kept(u2, i, max);
            assert(group_names(u2)[i2] == k);
            assert(has_group(local, k));
            assert(has_group(u1, k));
            let i1 = lemma_index_of(u1, k);
            assert(!kept(u1, i1, max));
            assert(i1 < c1);
            lemma_retention(t1, u1, max);
            lemma_count_skip_mono(u1, 0, i1 + 1);
            assert(u1.skip(0) =~= u1);
            assert(t1 == u1.skip(c1));
            assert(count_nonempty(t1) == max);
            lemma_nonempty_from_len(u1, c1);
            lemma_kept_by_names(u2, i2, max);
            assert forall|n: Seq<char>| nonempty_from(u1, c1).contains(n) implies newer_nonempty(u2, k).contains(n) by {
                let m = choose|m: int| c1 <= m < u1.len() && #[trigger] u1[m].name@ == n && nonempty(u1[m]);
                lemma_sorted_index(u1, i1, m);
                lemma_nonempty_group(u1, m);
                lemma_retained_groups(t1, u1, max, n);
                assert(has_group(t1, n));
                assert(has_group(u2, n));
                assert(backups_of(u2, n) =~= backups_of(u1, n));
                assert(group_names(u2).contains(n));
            }
            vstd::set_lib::lemma_len_subset(nonempty_from(u1, c1), newer_nonempty(u2, k));
            assert(false);
        }
    }
}

/// Planning is idempotent: once the cloud side holds the target that planning
/// gave, planning again with the same local groups and cap gives the same
/// target (and by `lemma_plan_settled`, nothing to do).
pub proof fn lemma_target_settled(
    local: Seq<BackupGroup>,
    cloud: Seq<BackupGroup>,
    max: nat,
    t1: Seq<BackupGroup>,
    t2: Seq<BackupGroup>,
)
    requires
        groups_wf(local),
        groups_wf(cloud),
        max > 0,
        is_target(t1, local, cloud, max),
        is_target(t2, local, t1, max),
    ensures
        mirrors(t2, t1),
{
    assert forall|k: Seq<char>| #[trigger] has_group(t2, k) == has_group(t1, k) by {
        lemma_target_settled_at(local, cloud, max, t1, t2, k);
    }
    assert forall|k: Seq<char>| #[trigger] backups_of(t2, k) == backups_of(t1, k) by {
        lemma_target_settled_at(local, cloud, max, t1, t2, k);
    }
}


proof fn lemma_groups_ops_empty(gs: Seq<GroupPlan>)
    requires
        forall|j: int| 0 <= j < gs.len() ==> !(#[trigger] gs[j]).create && gs[j].uploads@.len() == 0,
    ensures
        groups_ops(gs).len() == 0,
    decreases gs.len(),
{
    if gs.len() > 0 {
        lemma_groups_ops_empty(gs.drop_last());
        assert(!gs[gs.len() - 1].create && gs[gs.len() - 1].uploads@.len() == 0);
        assert(group_ops(gs.last()) =~= Seq::empty());
    }
}

/// A second sync right after a fully successful one does nothing: planning
/// against the cloud side that the first sync left, with the same local groups
/// and cap, gives the same target, creates no group, uploads no backup and
/// deletes no group, so it schedules no operation at all.
pub proof fn lemma_second_sync_is_no_op(
    local: Seq<BackupGroup>,
    cloud: Seq<BackupGroup>,
    max: nat,
    t1: Seq<BackupGroup>,
    cloud2: Seq<BackupGroup>,
    t2: Seq<BackupGroup>,
    p2: SyncPlan,
)
    requires
        groups_wf(local),
        groups_wf(cloud),
        groups_wf(cloud2),
        max > 0,
        is_target(t1, local, cloud, max),
        left_by_sync(cloud2, t1, cloud),
        is_target(t2, local, cloud2, max),
        is_plan(p2, t2, cloud2),
    ensures
        mirrors(t2, t1),
        forall|j: int| 0 <= j < p2.groups@.len() ==> !(#[trigger] p2.groups@[j]).create,
        forall|j: int| 0 <= j < p2.groups@.len() ==> (#[trigger] p2.groups@[j]).uploads@.len() == 0,
        p2.deletions@.len() == 0,
        planned_ops(p2).len() == 0,
{
    let u1 = choose|u: Seq<BackupGroup>| is_union(u, local, cloud) && is_retained(t1, u, max);
    let u2 = choose|u: Seq<BackupGroup>| is_union(u, local, cloud2) && is_retained(t2, u, max);
    assert forall|k: Seq<char>| #[trigger] has_group(u2, k) <==> (has_group(local, k) || has_group(t1, k))
        by {
        lemma_retained_groups(t1, u1, max, k);
    }
    assert forall|k: Seq<char>| #[trigger] backups_of(u2, k) == backups_of(local, k) + backups_of(t1, k)
        by {
        assert(backups_of(cloud2, k) == backups_of(t1, k));
    }
    assert(is_union(u2, local, t1));
    assert(is_target(t2, local, t1, max));
    lemma_target_settled(local, cloud, max, t1, t2);
    assert forall|k: Seq<char>| #[trigger] has_group(cloud2, k) implies has_group(t2, k) by {
        assert(has_group(t2, k) == has_group(t1, k));
    }
    assert forall|k: Seq<char>| #[trigger] backups_of(cloud2, k) == backups_of(t2, k) by {
        assert(backups_of(t2, k) == backups_of(t1, k));
    }
    assert forall|k: Seq<char>|
        has_group(t2, k) && #[trigger] backups_of(t2, k) != Set::<Seq<char>>::empty() implies has_group(
        cloud2,
        k,
    ) by {
        assert(has_group(t2, k) == has_group(t1, k));
        assert(backups_of(t2, k) == backups_of(t1, k));
    }
    lemma_plan_settled(p2, t2, cloud2);
    lemma_groups_ops_empty(p2.groups@);
}

/// Planning is deterministic: the target of given local and cloud groups and
/// cap is one, whichever run computed it.
pub proof fn lemma_target_unique(
    local: Seq<BackupGroup>,
    cloud: Seq<BackupGroup>,
    max: nat,
    t: Seq<BackupGroup>,
    t2: Seq<BackupGroup>,
)
    requires
        is_target(t, local, cloud, max),
        is_target(t2, local, cloud, max),
    ensures
        mirrors(t, t2),
{
    let u = choose|u: Seq<BackupGroup>| is_union(u, local, cloud) && is_retained(t, u, max);
    let v = choose|u: Seq<BackupGroup>| is_union(u, local, cloud) && is_retained(t2, u, max);
    assert forall|k: Seq<char>| #[trigger] has_group(t, k) == has_group(t2, k)
        && backups_of(t, k) == backups_of(t2, k) by {
        lemma_retained_groups(t, u, max, k);
        lemma_retained_groups(t2, v, max, k);
        assert(has_group(u, k) == has_group(v, k));
        assert(backups_of(u, k) == backups_of(v, k));
        assert(newer_nonempty(u, k) =~= newer_nonempty(v, k)) by {
            assert forall|n: Seq<char>| group_names(u).to_set().contains(n) == group_names(v).to_set().contains(n) by {
                assert(has_group(u, n) == has_group(v, n));
                assert(backups_of(u, n) == backups_of(v, n));
            }
            assert forall|n: Seq<char>| backups_of(u, n) == backups_of(v, n) by {}
        }
        if has_group(u, k) {
            let i = lemma_index_of(u, k);
            let j = lemma_index_of(v, k);
            lemma_kept_by_names(u, i, max);
            lemma_kept_by_names(v, j, max);
            if has_group(t, k) {
                let a = choose|a: int| 0 <= a < u.len() && #[trigger] u[a].name@ == k && kept(u, a, max);
                lemma_sorted_index(u, i, a);
            }
            if has_group(t2, k) {
                let b = choose|b: int| 0 <= b < v.len() && #[trigger] v[b].name@ == k && kept(v, b, max);
                lemma_sorted_index(v, j, b);
            }
        }
    }
    assert forall|k: Seq<char>| #[trigger] has_group(t, k) == has_group(t2, k) by {
        assert(has_group(t, k) == has_group(t2, k) && backups_of(t, k) == backups_of(t2, k));
    }
    assert forall|k: Seq<char>| #[trigger] backups_of(t, k) == backups_of(t2, k) by {
        assert(has_group(t, k) == has_group(t2, k) && backups_of(t, k) == backups_of(t2, k));
    }
}

} // verus!
