use vstd::prelude::*;
use crate::disk::FileOp;
use crate::engine::{
    activate, add_profile, deactivate, first_index, files_or_empty, is_activation_plan, is_add_plan,
    is_remove_plan, is_restore_plan, holds_path, managed, remove_profile, resolves_all, SwapError,
};
use crate::naming::org_suffix;
use crate::registry::Registry;

verus! {

/// What the user asks for. `file` is the path as given, before resolution.
pub enum Commands {
    /// Add a file to a profile, creating the profile if it does not exist.
    Add { profile: String, file: String },
    /// Remove a file from a profile, deleting the profile once it is empty.
    Remove { profile: String, file: String },
    /// Activate one profile; all others are deactivated.
    Activate { profile: String },
    /// Deactivate all profiles, restoring every managed file to its original.
    DeActivate,
}

/// Whether `ops` is a restoration of every managed path of `m` followed
/// by `tail`.
pub open spec fn restore_then(ops: Seq<FileOp>, m: Map<Seq<char>, Seq<Seq<char>>>, tail: spec_fn(Seq<FileOp>) -> bool) -> bool {
    exists|k: int| 0 <= k <= ops.len() && is_restore_plan(ops.take(k), m) && #[trigger] tail(ops.skip(k))
}

fn concat(mut a: Vec<FileOp>, mut b: Vec<FileOp>) -> (r: Vec<FileOp>)
    ensures
        r@ == a@ + b@,
{
    a.append(&mut b);
    a
}

/// What a command comes to: the steps to carry out, in order, and whether
/// the command itself was accepted.
pub struct Plan {
    pub steps: Vec<FileOp>,
    pub outcome: Result<(), SwapError>,
}

/// Plans a whole command on `profiles`: the restoration of every managed
/// file always comes first, then the command's own steps. `resolvable`
/// lists the managed paths that the caller found on disk; if one is
/// missing, nothing at all is planned. `resolved` is the command's file
/// once resolved (`None` when that failed); only `Add` and `Remove` read
/// it. A refused command keeps the restoration steps, plans nothing more
/// and leaves the registry as it was.
pub fn plan_command(command: &Commands, resolved: &Option<String>, resolvable: &Vec<String>, profiles: &mut Registry) -> (r: Plan)
    requires
        old(profiles).wf(),
    ensures
        final(profiles).wf(),
        r.outcome is Err ==> final(profiles)@ == old(profiles)@,
        !resolves_all(managed(old(profiles)@), resolvable@) ==> r.steps@.len() == 0
            && r.outcome == Err::<(), SwapError>(SwapError::PathResolution),
        resolves_all(managed(old(profiles)@), resolvable@) && r.outcome is Err ==> is_restore_plan(r.steps@, old(profiles)@),
        match command {
            Commands::Add { profile, .. } => {
                &&& resolves_all(managed(old(profiles)@), resolvable@) && profile@ == org_suffix()
                    ==> r.outcome == Err::<(), SwapError>(SwapError::ReservedName)
                &&& resolves_all(managed(old(profiles)@), resolvable@) && profile@ != org_suffix() && resolved is None
                    ==> r.outcome == Err::<(), SwapError>(SwapError::PathResolution)
                &&& r.outcome is Ok <==> resolves_all(managed(old(profiles)@), resolvable@) && profile@ != org_suffix() && resolved is Some
                &&& r.outcome is Ok ==> {
                    let b = resolved.unwrap()@;
                    &&& restore_then(r.steps@, old(profiles)@, |t: Seq<FileOp>| is_add_plan(t, b, profile@))
                    &&& final(profiles)@ == old(profiles)@.insert(profile@, files_or_empty(old(profiles)@, profile@).push(b))
                }
            },
            Commands::Remove { profile, .. } => {
                &&& resolves_all(managed(old(profiles)@), resolvable@) && resolved is None
                    ==> r.outcome == Err::<(), SwapError>(SwapError::PathResolution)
                &&& resolves_all(managed(old(profiles)@), resolvable@) && resolved is Some && !old(profiles)@.contains_key(profile@)
                    ==> r.outcome == Err::<(), SwapError>(SwapError::ProfileNotFound)
                &&& resolves_all(managed(old(profiles)@), resolvable@) && resolved is Some && old(profiles)@.contains_key(profile@)
                    && !old(profiles)@[profile@].contains(resolved.unwrap()@)
                    ==> r.outcome == Err::<(), SwapError>(SwapError::FileNotManaged)
                &&& r.outcome is Ok <==> resolves_all(managed(old(profiles)@), resolvable@) && resolved is Some
                    && old(profiles)@.contains_key(profile@) && old(profiles)@[profile@].contains(resolved.unwrap()@)
                &&& r.outcome is Ok ==> {
                    let b = resolved.unwrap()@;
                    let files = old(profiles)@[profile@];
                    let rest = files.remove(first_index(files, b));
                    &&& restore_then(r.steps@, old(profiles)@, |t: Seq<FileOp>| is_remove_plan(t, b, profile@))
                    &&& final(profiles)@ == if rest.len() == 0 {
                        old(profiles)@.remove(profile@)
                    } else {
                        old(profiles)@.insert(profile@, rest)
                    }
                }
            },
            Commands::Activate { profile } => {
                &&& resolves_all(managed(old(profiles)@), resolvable@) && !old(profiles)@.contains_key(profile@)
                    ==> r.outcome == Err::<(), SwapError>(SwapError::ProfileNotFound)
                &&& r.outcome is Ok <==> resolves_all(managed(old(profiles)@), resolvable@) && old(profiles)@.contains_key(profile@)
                &&& final(profiles)@ == old(profiles)@
                &&& r.outcome is Ok ==> restore_then(r.steps@, old(profiles)@, |t: Seq<FileOp>| is_activation_plan(t, old(profiles)@[profile@], profile@))
            },
            Commands::DeActivate => {
                &&& final(profiles)@ == old(profiles)@
                &&& r.outcome is Ok <==> resolves_all(managed(old(profiles)@), resolvable@)
                &&& r.outcome is Ok ==> is_restore_plan(r.steps@, old(profiles)@)
            },
        },
{
    let restore = match deactivate(profiles, resolvable) {
        Ok(ops) => ops,
        Err(e) => {
            return Plan { steps: Vec::new(), outcome: Err(e) };
        },
    };
    let ghost k = restore@.len() as int;
    let tail = match command {
        Commands::Add { profile, .. } => add_profile(profile, resolved, profiles),
        Commands::Remove { profile, .. } => remove_profile(profile, resolved, profiles),
        Commands::Activate { profile } => {
            proof {
                if profiles@.contains_key(profile@) {
                    let fs = profiles@[profile@];
                    assert forall|j: int| 0 <= j < fs.len() implies holds_path(resolvable@, #[trigger] fs[j]) by {
                        assert(fs.contains(fs[j]));
                        assert(managed(profiles@).contains(fs[j]));
                    }
                }
            }
            activate(profile, profiles, resolvable)
        },
        Commands::DeActivate => {
            return Plan { steps: restore, outcome: Ok(()) };
        },
    };
    match tail {
        Ok(t) => {
            let ops = concat(restore, t);
            assert(ops@.take(k) =~= restore@);
            assert(ops@.skip(k) =~= t@);
            assert(is_restore_plan(ops@.take(k), old(profiles)@));
            match command {
                Commands::Add { profile, .. } => {
                    let ghost tail = |t: Seq<FileOp>| is_add_plan(t, resolved.unwrap()@, profile@);
                    assert(tail(ops@.skip(k)));
                    assert(restore_then(ops@, old(profiles)@, tail));
                },
                Commands::Remove { profile, .. } => {
                    let ghost tail = |t: Seq<FileOp>| is_remove_plan(t, resolved.unwrap()@, profile@);
                    assert(tail(ops@.skip(k)));
                    assert(restore_then(ops@, old(profiles)@, tail));
                },
                Commands::Activate { profile } => {
                    let ghost tail = |t: Seq<FileOp>| is_activation_plan(t, old(profiles)@[profile@], profile@);
                    assert(tail(ops@.skip(k)));
                    assert(restore_then(ops@, old(profiles)@, tail));
                },
                Commands::DeActivate => {},
            }
            Plan { steps: ops, outcome: Ok(()) }
        },
        Err(e) => Plan { steps: restore, outcome: Err(e) },
    }
}

} // verus!
