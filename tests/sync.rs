use pyvsb_to_cloud::names::name_less;
use pyvsb_to_cloud::provider::{File, FileType, Provider, ProviderType, ReadProvider};
use pyvsb_to_cloud::storage::{child_path, get_backup_groups};
use pyvsb_to_cloud::sync::{
    contains_name, find_group, get_target_backup_groups, merge_groups, merge_names, plan_actions,
    retain_newest, schedule, sync_backups, BackupGroup, Operation, SyncReport, SyncRun,
};
use pyvsb_to_cloud::storage::{directory_names, groups_from_listings};

fn s(x: &str) -> String {
    x.to_string()
}

fn group(name: &str, backups: &[&str]) -> BackupGroup {
    BackupGroup { name: s(name), backups: backups.iter().map(|b| s(b)).collect() }
}

fn shape(gs: &[BackupGroup]) -> Vec<(String, Vec<String>)> {
    gs.iter().map(|g| (g.name.clone(), g.backups.clone())).collect()
}

#[test]
fn names_order_bytewise() {
    assert!(name_less(&s("2017.01.01"), &s("2017.01.02")));
    assert!(!name_less(&s("b"), &s("a")));
    assert!(!name_less(&s("a"), &s("a")));
    assert!(name_less(&s("a"), &s("ab")));
    assert!(name_less(&s("Z"), &s("a")));
    assert!(name_less(&s("z"), &s("é")));
}

#[test]
fn merge_names_is_a_sorted_union() {
    let a = vec![s("a"), s("c"), s("e")];
    let b = vec![s("b"), s("c"), s("f")];
    assert_eq!(merge_names(&a, &b), vec![s("a"), s("b"), s("c"), s("e"), s("f")]);
    assert!(contains_name(&a, &s("c")));
    assert!(!contains_name(&a, &s("d")));
}

#[test]
fn merge_groups_unions_backups() {
    let local = vec![group("g1", &["b1", "b2"]), group("g3", &["b1"])];
    let cloud = vec![group("g1", &["b0", "b2"]), group("g2", &["b1"])];
    let u = merge_groups(&local, &cloud);
    assert_eq!(
        shape(&u),
        shape(&[group("g1", &["b0", "b1", "b2"]), group("g2", &["b1"]), group("g3", &["b1"])])
    );
    assert_eq!(find_group(&u, &s("g2")), Some(1));
    assert_eq!(find_group(&u, &s("g4")), None);
}

#[test]
fn planning_scenario_with_cap_two() {
    let local = vec![group("g1", &["b1", "b2"]), group("g3", &["b1"])];
    let cloud = vec![group("g2", &["b1"])];
    let target = get_target_backup_groups(&local, &cloud, 2);
    assert_eq!(shape(&target), shape(&[group("g2", &["b1"]), group("g3", &["b1"])]));
    let plan = plan_actions(&target, &cloud);
    assert_eq!(plan.groups.len(), 2);
    assert_eq!(plan.groups[0].name, "g2");
    assert!(!plan.groups[0].create);
    assert!(plan.groups[0].uploads.is_empty());
    assert_eq!(plan.groups[1].name, "g3");
    assert!(plan.groups[1].create);
    assert_eq!(plan.groups[1].uploads, vec![s("b1")]);
    assert!(plan.deletions.is_empty());
}

#[test]
fn retention_keeps_the_newest_non_empty_groups() {
    let gs = vec![
        group("a", &["1"]),
        group("b", &[]),
        group("c", &["1"]),
        group("d", &[]),
        group("e", &["1"]),
    ];
    let kept = retain_newest(gs, 2);
    assert_eq!(shape(&kept), shape(&[group("c", &["1"]), group("d", &[]), group("e", &["1"])]));
    let few = retain_newest(vec![group("a", &["1"]), group("b", &[])], 3);
    assert_eq!(few.len(), 2);
    let one = retain_newest(vec![group("a", &["1"]), group("b", &["2"]), group("c", &[])], 1);
    assert_eq!(shape(&one), shape(&[group("b", &["2"]), group("c", &[])]));
}

#[test]
fn planning_again_after_sync_is_a_no_op() {
    let local = vec![group("g1", &["b1", "b2"]), group("g3", &["b1"])];
    let cloud = vec![group("g0", &["x"]), group("g2", &["b1"])];
    let target = get_target_backup_groups(&local, &cloud, 2);
    let first = plan_actions(&target, &cloud);
    assert_eq!(first.deletions, vec![s("g0")]);
    let again = get_target_backup_groups(&local, &cloud, 2);
    assert_eq!(shape(&again), shape(&target));
    let settled = plan_actions(&target, &target);
    assert!(settled.groups.iter().all(|g| !g.create && g.uploads.is_empty()));
    assert!(settled.deletions.is_empty());
    let second_target = get_target_backup_groups(&local, &target, 2);
    assert_eq!(shape(&second_target), shape(&target));
    let second = plan_actions(&second_target, &target);
    assert!(second.groups.iter().all(|g| !g.create && g.uploads.is_empty()));
    assert!(second.deletions.is_empty());
}

fn run_sync(report: &SyncReport, storage: &mut Recorder) -> Vec<Option<Result<(), String>>> {
    let mut outcomes: Vec<Option<Result<(), String>>> = vec![None; report.operations.len()];
    let mut run = SyncRun::new();
    while let Some(i) = run.next_operation(&report.operations) {
        let result = match &report.operations[i] {
            Operation::Create(g) => storage.create_backup_group(g),
            Operation::Upload(g, b) => storage.upload_backup(g, b),
            Operation::Delete(g) => storage.delete_backup_group(g),
        };
        run.record_outcome(&report.operations, i, result.is_ok());
        outcomes[i] = Some(result);
    }
    outcomes
}

struct Recorder {
    calls: Vec<String>,
    fail_create: bool,
}

impl Recorder {
    fn create_backup_group(&mut self, group: &String) -> Result<(), String> {
        self.calls.push(format!("create {}", group));
        if self.fail_create {
            Err(format!("cannot create {}", group))
        } else {
            Ok(())
        }
    }

    fn upload_backup(&mut self, group: &String, backup: &String) -> Result<(), String> {
        self.calls.push(format!("upload {}/{}", group, backup));
        Ok(())
    }

    fn delete_backup_group(&mut self, group: &String) -> Result<(), String> {
        self.calls.push(format!("delete {}", group));
        Err(format!("cannot delete {}", group))
    }
}

#[test]
fn sync_performs_the_plan_in_order() {
    let local = vec![group("g2", &["b1", "b2"])];
    let cloud = vec![group("g1", &["b1"])];
    let mut storage = Recorder { calls: Vec::new(), fail_create: false };
    let report = sync_backups(&local, &cloud, 1);
    let outcomes = run_sync(&report, &mut storage);
    assert_eq!(
        storage.calls,
        vec![s("create g2"), s("upload g2/b1"), s("upload g2/b2"), s("delete g1")]
    );
    assert_eq!(
        outcomes,
        vec![Some(Ok(())), Some(Ok(())), Some(Ok(())), Some(Err(s("cannot delete g1")))]
    );
    assert_eq!(report.operations.len(), 4);
    assert!(matches!(&report.operations[3], Operation::Delete(g) if g == "g1"));
    assert_eq!(report.plan.deletions, vec![s("g1")]);
}

#[test]
fn failed_group_creation_skips_its_uploads() {
    let local = vec![group("g2", &["b1"])];
    let cloud: Vec<BackupGroup> = Vec::new();
    let mut storage = Recorder { calls: Vec::new(), fail_create: true };
    let report = sync_backups(&local, &cloud, 3);
    let outcomes = run_sync(&report, &mut storage);
    assert_eq!(storage.calls, vec![s("create g2")]);
    assert_eq!(outcomes, vec![Some(Err(s("cannot create g2"))), None]);
}

struct Tree;

impl Provider for Tree {
    fn name(&self) -> &'static str {
        "tree"
    }

    fn type_(&self) -> ProviderType {
        ProviderType::Local
    }
}

fn dir(name: &str) -> File {
    File { name: s(name), type_: FileType::Directory }
}

impl ReadProvider for Tree {
    fn list_directory(&self, path: &str) -> Result<Option<Vec<File>>, String> {
        match path {
            "/b" => Ok(Some(vec![
                dir("h2"),
                File { name: s("notes.txt"), type_: FileType::File },
                dir("h1"),
                dir("broken"),
            ])),
            "/b/h1" => Ok(Some(vec![dir("2"), dir("1")])),
            "/b/h2" => Ok(None),
            "/b/broken" => Err(s("permission denied")),
            _ => Ok(None),
        }
    }
}

#[test]
fn listing_sorts_groups_and_flags_partial_failure() {
    let (groups, ok) = match get_backup_groups(&Tree, &s("/b")) {
        Ok(r) => r,
        Err(e) => panic!("{}", e),
    };
    assert!(!ok);
    assert_eq!(shape(&groups), shape(&[group("h1", &["1", "2"]), group("h2", &[])]));
    assert_eq!(child_path(&s("/b"), &s("h1")), "/b/h1");
    assert_eq!(Tree.name(), "tree");
    assert!(Tree.type_() == ProviderType::Local);
}

#[test]
fn file_type_names() {
    assert_eq!(FileType::Directory.to_string(), "directory");
    assert_eq!(FileType::File.to_string(), "file");
    assert_eq!(FileType::Other.to_string(), "file");
}

#[test]
fn scenario_sync_creates_and_uploads_once() {
    let local = vec![group("g1", &["b1", "b2"]), group("g3", &["b1"])];
    let cloud = vec![group("g2", &["b1"])];
    let mut storage = Recorder { calls: Vec::new(), fail_create: false };
    let report = sync_backups(&local, &cloud, 2);
    let outcomes = run_sync(&report, &mut storage);
    assert_eq!(storage.calls, vec![s("create g3"), s("upload g3/b1")]);
    assert_eq!(outcomes, vec![Some(Ok(())), Some(Ok(()))]);
    let steps = schedule(&report.plan);
    assert_eq!(steps.len(), 2);
}

#[test]
fn second_sync_makes_no_call() {
    let local = vec![group("g1", &["b1", "b2"]), group("g3", &["b1"])];
    let cloud = vec![group("g2", &["b1"])];
    let target = get_target_backup_groups(&local, &cloud, 2);
    let mut storage = Recorder { calls: Vec::new(), fail_create: false };
    let report = sync_backups(&local, &target, 2);
    let outcomes = run_sync(&report, &mut storage);
    assert!(storage.calls.is_empty());
    assert!(report.operations.is_empty());
}

#[test]
fn groups_from_listings_keeps_the_listed_groups() {
    let names = vec![s("a"), s("b"), s("c")];
    let listings = vec![
        Ok(Some(vec![dir("2"), File { name: s("x"), type_: FileType::Other }, dir("1")])),
        Err(s("denied")),
        Ok(None),
    ];
    let (groups, ok) = groups_from_listings(&names, &listings);
    assert!(!ok);
    assert_eq!(shape(&groups), shape(&[group("a", &["1", "2"]), group("c", &[])]));
    let entries = vec![dir("b"), File { name: s("f"), type_: FileType::File }, dir("a")];
    assert_eq!(directory_names(&entries), vec![s("a"), s("b")]);
}

#[test]
fn second_sync_after_leaving_empty_groups_out_makes_no_call() {
    let local = vec![group("g0", &[]), group("g1", &["b1"])];
    let cloud: Vec<BackupGroup> = Vec::new();
    let mut storage = Recorder { calls: Vec::new(), fail_create: false };
    let report = sync_backups(&local, &cloud, 2);
    run_sync(&report, &mut storage);
    assert_eq!(storage.calls, vec![s("create g1"), s("upload g1/b1")]);
    let cloud2 = vec![group("g1", &["b1"])];
    let mut again = Recorder { calls: Vec::new(), fail_create: false };
    let second = sync_backups(&local, &cloud2, 2);
    run_sync(&second, &mut again);
    assert!(again.calls.is_empty());
    assert!(second.operations.is_empty());
}

#[test]
fn sync_run_skips_uploads_of_a_failed_group_only() {
    let ops = vec![
        Operation::Create(s("a")),
        Operation::Upload(s("a"), s("1")),
        Operation::Create(s("b")),
        Operation::Upload(s("b"), s("1")),
        Operation::Delete(s("c")),
    ];
    let mut run = SyncRun::new();
    assert_eq!(run.next_operation(&ops), Some(0));
    run.record_outcome(&ops, 0, false);
    assert_eq!(run.next_operation(&ops), Some(2));
    run.record_outcome(&ops, 2, true);
    assert_eq!(run.next_operation(&ops), Some(3));
    run.record_outcome(&ops, 3, false);
    assert_eq!(run.next_operation(&ops), Some(4));
    assert_eq!(run.next_operation(&ops), None);
    assert_eq!(run.failed, vec![s("a")]);
}
