use std::collections::HashMap;

use profile_swap::command::{plan_command, Commands, Plan};
use profile_swap::disk::FileOp;
use profile_swap::engine::{activate, add_profile, deactivate, remove_profile, SwapError};
use profile_swap::naming::make_canon_names;
use profile_swap::registry::Registry;

type Disk = HashMap<String, Vec<u8>>;

fn run(disk: &mut Disk, ops: &[FileOp]) -> bool {
    for op in ops {
        match op {
            FileOp::Copy { from, to } => match disk.get(from).cloned() {
                Some(content) => {
                    disk.insert(to.clone(), content);
                }
                None => return false,
            },
            FileOp::Remove { path } => {
                if disk.remove(path).is_none() {
                    return false;
                }
            }
        }
    }
    true
}

fn files_of(reg: &Registry, name: &str) -> Option<Vec<String>> {
    reg.profiles.iter().find(|p| p.name == name).map(|p| p.files.clone())
}

fn managed(reg: &Registry) -> Vec<String> {
    reg.profiles.iter().flat_map(|p| p.files.iter().cloned()).collect()
}

fn accepted(plan: Plan) -> Vec<FileOp> {
    assert_eq!(plan.outcome, Ok(()));
    plan.steps
}

fn s(x: &str) -> String {
    x.to_string()
}

fn some(x: &str) -> Option<String> {
    Some(x.to_string())
}

fn targets(ops: &[FileOp]) -> Vec<String> {
    ops.iter()
        .map(|op| match op {
            FileOp::Copy { to, .. } => to.clone(),
            FileOp::Remove { path } => path.clone(),
        })
        .collect()
}

#[test]
fn names_of_snapshots() {
    let (base, variant, org) = make_canon_names(&s("/tmp/a.conf"), "work");
    assert_eq!(base, "/tmp/a.conf");
    assert_eq!(variant, "/tmp/a.conf.work");
    assert_eq!(org, "/tmp/a.conf.org");
}

#[test]
fn add_activate_deactivate_scenario() {
    let mut disk: Disk = HashMap::new();
    disk.insert(s("/tmp/a.conf"), b"v1".to_vec());
    let mut reg = Registry::new();

    let cmd = Commands::Add { profile: s("work"), file: s("/tmp/a.conf") };
    let ops = accepted(plan_command(&cmd, &some("/tmp/a.conf"), &managed(&reg), &mut reg));
    assert!(run(&mut disk, &ops));
    assert_eq!(files_of(&reg, "work"), Some(vec![s("/tmp/a.conf")]));
    assert_eq!(reg.profiles.len(), 1);
    assert_eq!(disk["/tmp/a.conf.org"], b"v1".to_vec());
    assert_eq!(disk["/tmp/a.conf.work"], b"v1".to_vec());

    disk.insert(s("/tmp/a.conf.work"), b"v2".to_vec());
    let cmd = Commands::Activate { profile: s("work") };
    let ops = accepted(plan_command(&cmd, &None, &managed(&reg), &mut reg));
    assert!(run(&mut disk, &ops));
    assert_eq!(disk["/tmp/a.conf"], b"v2".to_vec());

    let ops = accepted(plan_command(&Commands::DeActivate, &None, &managed(&reg), &mut reg));
    assert!(run(&mut disk, &ops));
    assert_eq!(disk["/tmp/a.conf"], b"v1".to_vec());
}

#[test]
fn deactivate_twice_is_idempotent() {
    let mut disk: Disk = HashMap::new();
    disk.insert(s("/a"), b"a0".to_vec());
    disk.insert(s("/b"), b"b0".to_vec());
    let mut reg = Registry::new();
    assert!(run(&mut disk, &add_profile(&s("x"), &some("/a"), &mut reg).unwrap()));
    assert!(run(&mut disk, &add_profile(&s("y"), &some("/b"), &mut reg).unwrap()));
    disk.insert(s("/a"), b"changed".to_vec());
    assert!(run(&mut disk, &deactivate(&reg, &managed(&reg)).unwrap()));
    let first = disk.clone();
    assert!(run(&mut disk, &deactivate(&reg, &managed(&reg)).unwrap()));
    assert_eq!(first, disk);
    assert_eq!(disk["/a"], b"a0".to_vec());
}

#[test]
fn round_trip_after_add() {
    let mut disk: Disk = HashMap::new();
    disk.insert(s("/c"), b"original".to_vec());
    let mut reg = Registry::new();
    assert!(run(&mut disk, &add_profile(&s("p"), &some("/c"), &mut reg).unwrap()));
    disk.insert(s("/c"), b"edited".to_vec());
    assert!(run(&mut disk, &deactivate(&reg, &managed(&reg)).unwrap()));
    assert!(run(&mut disk, &activate(&s("p"), &reg, &managed(&reg)).unwrap()));
    assert_eq!(disk["/c"], b"original".to_vec());
}

#[test]
fn shared_file_restored_after_activations() {
    let mut disk: Disk = HashMap::new();
    disk.insert(s("/f"), b"first".to_vec());
    let mut reg = Registry::new();
    assert!(run(&mut disk, &add_profile(&s("one"), &some("/f"), &mut reg).unwrap()));
    assert!(run(&mut disk, &add_profile(&s("two"), &some("/f"), &mut reg).unwrap()));
    disk.insert(s("/f.one"), b"uno".to_vec());
    disk.insert(s("/f.two"), b"dos".to_vec());
    assert!(run(&mut disk, &activate(&s("one"), &reg, &managed(&reg)).unwrap()));
    assert_eq!(disk["/f"], b"uno".to_vec());
    assert!(run(&mut disk, &activate(&s("two"), &reg, &managed(&reg)).unwrap()));
    assert_eq!(disk["/f"], b"dos".to_vec());
    let ops = deactivate(&reg, &managed(&reg)).unwrap();
    assert_eq!(ops.len(), 1);
    assert!(run(&mut disk, &ops));
    assert_eq!(disk["/f"], b"first".to_vec());
}

#[test]
fn remove_deletes_snapshots_and_empty_profile() {
    let mut disk: Disk = HashMap::new();
    disk.insert(s("/r"), b"r".to_vec());
    disk.insert(s("/q"), b"q".to_vec());
    let mut reg = Registry::new();
    assert!(run(&mut disk, &add_profile(&s("p"), &some("/r"), &mut reg).unwrap()));
    assert!(run(&mut disk, &add_profile(&s("other"), &some("/q"), &mut reg).unwrap()));
    let ops = remove_profile(&s("p"), &some("/r"), &mut reg).unwrap();
    assert_eq!(targets(&ops), vec![s("/r.p"), s("/r.org")]);
    assert!(run(&mut disk, &ops));
    assert!(!disk.contains_key("/r.p"));
    assert!(!disk.contains_key("/r.org"));
    assert!(disk.contains_key("/r"));
    assert!(disk.contains_key("/q.other"));
    assert_eq!(files_of(&reg, "p"), None);
    assert_eq!(files_of(&reg, "other"), Some(vec![s("/q")]));
}

#[test]
fn remove_keeps_non_empty_profile() {
    let mut reg = Registry::new();
    add_profile(&s("p"), &some("/a"), &mut reg).unwrap();
    add_profile(&s("p"), &some("/b"), &mut reg).unwrap();
    add_profile(&s("p"), &some("/a"), &mut reg).unwrap();
    remove_profile(&s("p"), &some("/a"), &mut reg).unwrap();
    assert_eq!(files_of(&reg, "p"), Some(vec![s("/b"), s("/a")]));
}

#[test]
fn reserved_name_rejected() {
    let mut reg = Registry::new();
    add_profile(&s("work"), &some("/a"), &mut reg).unwrap();
    let r = add_profile(&s("org"), &some("/a"), &mut reg);
    assert!(matches!(r, Err(SwapError::ReservedName)));
    assert_eq!(reg.profiles.len(), 1);
    assert_eq!(files_of(&reg, "org"), None);
    let cmd = Commands::Add { profile: s("org"), file: s("/a") };
    let plan = plan_command(&cmd, &None, &managed(&reg), &mut reg);
    assert_eq!(plan.outcome, Err(SwapError::ReservedName));
    assert_eq!(targets(&plan.steps), vec![s("/a")]);
    assert_eq!(files_of(&reg, "work"), Some(vec![s("/a")]));
}

#[test]
fn add_unresolved_path() {
    let mut reg = Registry::new();
    assert!(matches!(add_profile(&s("w"), &None, &mut reg), Err(SwapError::PathResolution)));
    assert!(reg.profiles.is_empty());
}

#[test]
fn remove_errors() {
    let mut reg = Registry::new();
    add_profile(&s("w"), &some("/a"), &mut reg).unwrap();
    assert!(matches!(remove_profile(&s("w"), &None, &mut reg), Err(SwapError::PathResolution)));
    assert!(matches!(remove_profile(&s("v"), &some("/a"), &mut reg), Err(SwapError::ProfileNotFound)));
    assert!(matches!(remove_profile(&s("w"), &some("/b"), &mut reg), Err(SwapError::FileNotManaged)));
    assert_eq!(files_of(&reg, "w"), Some(vec![s("/a")]));
}

#[test]
fn activate_unknown_profile() {
    let reg = Registry::new();
    assert!(matches!(activate(&s("nope"), &reg, &managed(&reg)), Err(SwapError::ProfileNotFound)));
}

#[test]
fn activation_follows_list_order() {
    let mut reg = Registry::new();
    add_profile(&s("p"), &some("/y"), &mut reg).unwrap();
    add_profile(&s("p"), &some("/x"), &mut reg).unwrap();
    let ops = activate(&s("p"), &reg, &managed(&reg)).unwrap();
    assert_eq!(targets(&ops), vec![s("/y"), s("/x")]);
    match &ops[0] {
        FileOp::Copy { from, .. } => assert_eq!(from, "/y.p"),
        FileOp::Remove { .. } => panic!("activation only copies"),
    }
}

#[test]
fn deactivate_empty_registry_plans_nothing() {
    let reg = Registry::new();
    assert!(deactivate(&reg, &managed(&reg)).unwrap().is_empty());
}

#[test]
fn command_plan_starts_with_restore() {
    let mut reg = Registry::new();
    add_profile(&s("a"), &some("/m"), &mut reg).unwrap();
    let cmd = Commands::Add { profile: s("b"), file: s("n") };
    let ops = accepted(plan_command(&cmd, &some("/n"), &managed(&reg), &mut reg));
    assert_eq!(targets(&ops), vec![s("/m"), s("/n.org"), s("/n.b")]);
    let cmd = Commands::Remove { profile: s("zz"), file: s("n") };
    let plan = plan_command(&cmd, &some("/n"), &managed(&reg), &mut reg);
    assert_eq!(plan.outcome, Err(SwapError::ProfileNotFound));
    assert_eq!(targets(&plan.steps), vec![s("/m"), s("/n")]);
}

#[test]
fn set_profile_replaces_list() {
    let mut reg = Registry::new();
    reg.set_profile(s("w"), vec![s("/a")]);
    reg.set_profile(s("w"), vec![s("/b"), s("/c")]);
    assert_eq!(reg.profiles.len(), 1);
    assert_eq!(files_of(&reg, "w"), Some(vec![s("/b"), s("/c")]));
    assert_eq!(reg.find_profile(&s("w")), Some(0));
    assert_eq!(reg.find_profile(&s("v")), None);
}

#[test]
fn missing_live_file_fails_deactivate_and_activate() {
    let mut reg = Registry::new();
    add_profile(&s("p"), &some("/q"), &mut reg).unwrap();
    add_profile(&s("p"), &some("/w"), &mut reg).unwrap();
    let only_w = vec![s("/w")];
    assert!(matches!(deactivate(&reg, &only_w), Err(SwapError::PathResolution)));
    assert!(matches!(activate(&s("p"), &reg, &only_w), Err(SwapError::PathResolution)));
    assert!(matches!(activate(&s("zz"), &reg, &only_w), Err(SwapError::ProfileNotFound)));
    let plan = plan_command(&Commands::Activate { profile: s("p") }, &None, &only_w, &mut reg);
    assert_eq!(plan.outcome, Err(SwapError::PathResolution));
    assert!(plan.steps.is_empty());
}

#[test]
fn refused_activation_still_restores() {
    let mut disk: Disk = HashMap::new();
    disk.insert(s("/k"), b"orig".to_vec());
    let mut reg = Registry::new();
    assert!(run(&mut disk, &add_profile(&s("p"), &some("/k"), &mut reg).unwrap()));
    disk.insert(s("/k.p"), b"variant".to_vec());
    assert!(run(&mut disk, &activate(&s("p"), &reg, &managed(&reg)).unwrap()));
    assert_eq!(disk["/k"], b"variant".to_vec());
    let plan = plan_command(&Commands::Activate { profile: s("nope") }, &None, &managed(&reg), &mut reg);
    assert_eq!(plan.outcome, Err(SwapError::ProfileNotFound));
    assert!(run(&mut disk, &plan.steps));
    assert_eq!(disk["/k"], b"orig".to_vec());
}

#[test]
fn remove_through_command() {
    let mut reg = Registry::new();
    add_profile(&s("p"), &some("/a"), &mut reg).unwrap();
    add_profile(&s("p"), &some("/b"), &mut reg).unwrap();
    let cmd = Commands::Remove { profile: s("p"), file: s("a") };
    let steps = accepted(plan_command(&cmd, &some("/a"), &managed(&reg), &mut reg));
    assert_eq!(targets(&steps), vec![s("/a"), s("/b"), s("/a.p"), s("/a.org")]);
    assert_eq!(files_of(&reg, "p"), Some(vec![s("/b")]));
}
