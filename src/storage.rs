//! The catalog of backups on a provider: `<root>/<group>/<backup>`.
use vstd::prelude::*;
use vstd::string::StringExecFns;
use crate::provider::File;
use crate::provider::FileType;
use crate::provider::ReadProvider;
use crate::sync::BackupGroup;
use crate::sync::groups_wf;
use crate::sync::merge_groups;
use crate::sync::merge_names;
use crate::sync::backup_set;
use crate::sync::backups_of;
use crate::sync::has_group;
use crate::sync::group_names;
use crate::sync::lemma_backups_of_push;
use crate::sync::lemma_contains_push;
use crate::sync::sorted;
use crate::sync::views;

verus! {

/// The path of `name` inside the directory `dir`.
pub fn child_path(dir: &String, name: &String) -> (r: String)
    ensures
        r@ == dir@ + "/"@ + name@,
{
    let mut p = dir.clone();
    p.append("/");
    p.append(name.as_str());
    p
}

/// The names of the directories among `entries`.
pub open spec fn dir_names(entries: Seq<File>) -> Set<Seq<char>> {
    Set::new(
        |x: Seq<char>|
            exists|i: int|
                0 <= i < entries.len() && #[trigger] entries[i].name@ == x && entries[i].type_
                    == FileType::Directory,
    )
}

/// The directories that a listing shows (none where it failed or found no
/// directory).
pub open spec fn listing_dirs(listing: Result<Option<Vec<File>>, String>) -> Set<Seq<char>> {
    match listing {
        Ok(Some(entries)) => dir_names(entries@),
        _ => Set::empty(),
    }
}

/// The group `k` is among `names` and its listing succeeded.
pub open spec fn listed(
    names: Seq<String>,
    listings: Seq<Result<Option<Vec<File>>, String>>,
    k: Seq<char>,
) -> bool {
    exists|i: int| 0 <= i < names.len() && #[trigger] names[i]@ == k && listings[i] is Ok
}

/// The backups that the listings show for group `k`.
pub open spec fn listed_backups(
    names: Seq<String>,
    listings: Seq<Result<Option<Vec<File>>, String>>,
    k: Seq<char>,
) -> Set<Seq<char>> {
    Set::new(
        |b: Seq<char>|
            exists|i: int|
                0 <= i < names.len() && #[trigger] names[i]@ == k && listing_dirs(
                    listings[i],
                ).contains(b),
    )
}

/// The names of the directories among `entries`, in ascending order.
pub fn directory_names(entries: &Vec<File>) -> (r: Vec<String>)
    ensures
        sorted(views(r@)),
        forall|x: Seq<char>| #[trigger] views(r@).contains(x) <==> dir_names(entries@).contains(x),
{
    let mut names: Vec<String> = Vec::new();
    let mut i: usize = 0;
    assert(sorted(views(names@)));
    while i < entries.len()
        invariant
            0 <= i <= entries@.len(),
            sorted(views(names@)),
            forall|x: Seq<char>| #[trigger]
                views(names@).contains(x) <==> exists|k: int|
                    0 <= k < i && #[trigger] entries@[k].name@ == x && entries@[k].type_
                        == FileType::Directory,
        decreases entries.len() - i,
    {
        if entries[i].type_ == FileType::Directory {
            let one = vec![entries[i].name.clone()];
            proof {
                assert(views(one@) =~= seq![entries@[i as int].name@]);
                assert(sorted(views(one@)));
            }
            let merged = merge_names(&names, &one);
            proof {
                assert forall|x: Seq<char>| #[trigger]
                    views(merged@).contains(x) <==> exists|k: int|
                        0 <= k < i + 1 && #[trigger] entries@[k].name@ == x && entries@[k].type_
                            == FileType::Directory by {
                    lemma_contains_push(Seq::empty(), entries@[i as int].name@, x);
                    assert(seq![entries@[i as int].name@] =~= Seq::<Seq<char>>::empty().push(
                        entries@[i as int].name@,
                    ));
                    if exists|k: int|
                        0 <= k < i + 1 && #[trigger] entries@[k].name@ == x && entries@[k].type_
                            == FileType::Directory {
                        let k = choose|k: int|
                            0 <= k < i + 1 && #[trigger] entries@[k].name@ == x && entries@[k].type_
                                == FileType::Directory;
                        if k < i {
                            assert(views(names@).contains(x));
                        }
                    }
                }
            }
            names = merged;
        } else {
            proof {
                assert forall|x: Seq<char>| #[trigger]
                    views(names@).contains(x) <==> exists|k: int|
                        0 <= k < i + 1 && #[trigger] entries@[k].name@ == x && entries@[k].type_
                            == FileType::Directory by {
                    if exists|k: int|
                        0 <= k < i + 1 && #[trigger] entries@[k].name@ == x && entries@[k].type_
                            == FileType::Directory {
                        let k = choose|k: int|
                            0 <= k < i + 1 && #[trigger] entries@[k].name@ == x && entries@[k].type_
                                == FileType::Directory;
                        assert(k != i);
                    }
                }
            }
        }
        i = i + 1;
    }
    assert forall|x: Seq<char>| #[trigger] views(names@).contains(x) <==> dir_names(entries@).contains(
        x,
    ) by {
        if dir_names(entries@).contains(x) {
            let k = choose|k: int|
                0 <= k < entries@.len() && #[trigger] entries@[k].name@ == x && entries@[k].type_
                    == FileType::Directory;
            assert(0 <= k < i && entries@[k].name@ == x);
        }
    }
    names
}

proof fn lemma_single_group(g: BackupGroup, k: Seq<char>)
    ensures
        has_group(seq![g], k) <==> g.name@ == k,
        backups_of(seq![g], k) == (if g.name@ == k {
            backup_set(g)
        } else {
            Set::empty()
        }),
{
    assert(seq![g] =~= Seq::<BackupGroup>::empty().push(g));
    lemma_backups_of_push(Seq::empty(), g, k);
    assert(backups_of(Seq::<BackupGroup>::empty(), k) =~= Set::empty());
    assert(group_names(seq![g]) =~= seq![g.name@]);
    assert(group_names(seq![g])[0] == g.name@);
}

/// The backup groups that the listings of the group directories `names`
/// show: one group for each listing that succeeded, holding the directories
/// it shows; the flag tells whether every listing succeeded.
pub fn groups_from_listings(
    names: &Vec<String>,
    listings: &Vec<Result<Option<Vec<File>>, String>>,
) -> (r: (Vec<BackupGroup>, bool))
    requires
        names@.len() == listings@.len(),
    ensures
        groups_wf(r.0@),
        forall|k: Seq<char>| #[trigger] has_group(r.0@, k) <==> listed(names@, listings@, k),
        forall|k: Seq<char>| #[trigger]
            backups_of(r.0@, k) == listed_backups(names@, listings@, k),
        r.1 <==> forall|i: int| 0 <= i < listings@.len() ==> (#[trigger] listings@[i]) is Ok,
{
    let mut groups: Vec<BackupGroup> = Vec::new();
    let mut ok = true;
    let mut i: usize = 0;
    assert(groups_wf(groups@));
    assert forall|k: Seq<char>| #[trigger] backups_of(groups@, k) == listed_backups(
        names@.take(0),
        listings@.take(0),
        k,
    ) by {
        assert(backups_of(groups@, k) =~= Set::empty());
        assert(listed_backups(names@.take(0), listings@.take(0), k) =~= Set::empty());
    }
    while i < names.len()
        invariant
            names@.len() == listings@.len(),
            0 <= i <= names@.len(),
            groups_wf(groups@),
            forall|k: Seq<char>| #[trigger]
                has_group(groups@, k) <==> exists|j: int|
                    0 <= j < i && #[trigger] names@[j]@ == k && listings@[j] is Ok,
            forall|k: Seq<char>| #[trigger]
                backups_of(groups@, k) == listed_backups(names@.take(i as int), listings@.take(i as int), k),
            ok <==> forall|j: int| 0 <= j < i ==> (#[trigger] listings@[j]) is Ok,
        decreases names.len() - i,
    {
        let ghost old_groups = groups@;
        let ghost nk = names@[i as int]@;
        let ghost li = listings@[i as int];
        match &listings[i] {
            Ok(listing) => {
                let backups = match listing {
                    Some(entries) => directory_names(entries),
                    None => Vec::new(),
                };
                let g = BackupGroup { name: names[i].clone(), backups };
                proof {
                    assert(backup_set(g) =~= listing_dirs(li));
                }
                let one = vec![g];
                proof {
                    assert(one@ =~= seq![g]);
                    assert(groups_wf(one@));
                }
                groups = merge_groups(&groups, &one);
                proof {
                    assert forall|k: Seq<char>| #[trigger] backups_of(groups@, k) == backups_of(
                        old_groups,
                        k,
                    ) + (if nk == k {
                        listing_dirs(li)
                    } else {
                        Set::empty()
                    }) by {
                        lemma_single_group(g, k);
                    }
                    assert forall|k: Seq<char>| #[trigger] has_group(groups@, k) <==> exists|j: int|
                        0 <= j < i + 1 && #[trigger] names@[j]@ == k && listings@[j] is Ok by {
                        lemma_single_group(g, k);
                        if exists|j: int|
                            0 <= j < i + 1 && #[trigger] names@[j]@ == k && listings@[j] is Ok {
                            let j = choose|j: int|
                                0 <= j < i + 1 && #[trigger] names@[j]@ == k && listings@[j] is Ok;
                            if j < i {
                                assert(has_group(old_groups, k));
                            }
                        }
                    }
                }
            },
            Err(_) => {
                ok = false;
                proof {
                    assert forall|k: Seq<char>| #[trigger] backups_of(groups@, k) == backups_of(
                        old_groups,
                        k,
                    ) + (if nk == k {
                        listing_dirs(li)
                    } else {
                        Set::empty()
                    }) by {
                        assert(backups_of(groups@, k) =~= backups_of(old_groups, k) + (if nk == k {
                            listing_dirs(li)
                        } else {
                            Set::empty()
                        }));
                    }
                    assert forall|k: Seq<char>| #[trigger] has_group(groups@, k) <==> exists|j: int|
                        0 <= j < i + 1 && #[trigger] names@[j]@ == k && listings@[j] is Ok by {
                        if exists|j: int|
                            0 <= j < i + 1 && #[trigger] names@[j]@ == k && listings@[j] is Ok {
                            let j = choose|j: int|
                                0 <= j < i + 1 && #[trigger] names@[j]@ == k && listings@[j] is Ok;
                            assert(j != i);
                        }
                    }
                }
            },
        }
        proof {
            let ns = names@.take(i + 1);
            let ls = listings@.take(i + 1);
            assert forall|k: Seq<char>| #[trigger] backups_of(groups@, k) == listed_backups(ns, ls, k) by {
                let old_set = listed_backups(names@.take(i as int), listings@.take(i as int), k);
                let add = if nk == k {
                    listing_dirs(li)
                } else {
                    Set::empty()
                };
                assert(listed_backups(ns, ls, k) =~= old_set + add) by {
                    assert forall|b: Seq<char>| listed_backups(ns, ls, k).contains(b) implies (old_set
                        + add).contains(b) by {
                        let j = choose|j: int|
                            0 <= j < ns.len() && #[trigger] ns[j]@ == k && listing_dirs(ls[j]).contains(b);
                        if j < i {
                            assert(names@.take(i as int)[j] == ns[j]);
                            assert(listings@.take(i as int)[j] == ls[j]);
                        }
                    }
                    assert forall|b: Seq<char>| (old_set + add).contains(b) implies listed_backups(
                        ns,
                        ls,
                        k,
                    ).contains(b) by {
                        if old_set.contains(b) {
                            let j = choose|j: int|
                                0 <= j < i && #[trigger] names@.take(i as int)[j]@ == k && listing_dirs(
                                    listings@.take(i as int)[j],
                                ).contains(b);
                            assert(ns[j] == names@.take(i as int)[j]);
                            assert(ls[j] == listings@.take(i as int)[j]);
                        } else {
                            assert(ns[i as int] == names@[i as int]);
                            assert(ls[i as int] == li);
                        }
                    }
                }
            }
            assert(ok <==> forall|j: int| 0 <= j < i + 1 ==> (#[trigger] listings@[j]) is Ok);
        }
        i = i + 1;
    }
    proof {
        assert(names@.take(i as int) =~= names@);
        assert(listings@.take(i as int) =~= listings@);
    }
    (groups, ok)
}

/// Lists the backup groups under `root`: the directories of `root`, each with
/// the directories that it holds (see `groups_from_listings`). The flag is
/// `false` where a group could not be listed; that group is then left out.
pub fn get_backup_groups<P: ReadProvider>(provider: &P, root: &String) -> (r: Result<
    (Vec<BackupGroup>, bool),
    String,
>)
    ensures
        r matches Ok((gs, _)) ==> groups_wf(gs@),
{
    let entries = match provider.list_directory(root.as_str()) {
        Ok(Some(entries)) => entries,
        Ok(None) => Vec::new(),
        Err(e) => {
            return Err(e);
        },
    };
    let names = directory_names(&entries);
    let mut listings: Vec<Result<Option<Vec<File>>, String>> = Vec::new();
    let mut i: usize = 0;
    while i < names.len()
        invariant
            0 <= i <= names@.len(),
            listings@.len() == i,
        decreases names.len() - i,
    {
        let path = child_path(root, &names[i]);
        listings.push(provider.list_directory(path.as_str()));
        i = i + 1;
    }
    Ok(groups_from_listings(&names, &listings))
}

} // verus!
