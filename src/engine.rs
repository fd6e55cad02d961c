use vstd::prelude::*;
use vstd::string::*;
use crate::disk::FileOp;
use crate::naming::{derived, make_canon_names, org_suffix};
use crate::registry::{
    lemma_profiles_map, names_unique, profiles_map, Profile, lemma_profiles_map_remove, lemma_profiles_map_update, paths_of, Registry,
};

verus! {

/// Why a command was refused before any file was touched.
#[derive(PartialEq, Eq, Debug, Structural)]
pub enum SwapError {
    /// The profile name `org` is kept for the original snapshots.
    ReservedName,
    /// The file given does not exist or cannot be resolved.
    PathResolution,
    /// No profile has the name given.
    ProfileNotFound,
    /// The profile does not hold the file given.
    FileNotManaged,
}

/// The files of profile `name`, or none when it is absent.
pub open spec fn files_or_empty(m: Map<Seq<char>, Seq<Seq<char>>>, name: Seq<char>) -> Seq<Seq<char>> {
    if m.contains_key(name) {
        m[name]
    } else {
        Seq::empty()
    }
}

/// Every path that some profile of `m` holds.
pub open spec fn managed(m: Map<Seq<char>, Seq<Seq<char>>>) -> Set<Seq<char>> {
    Set::new(|f: Seq<char>| exists|n: Seq<char>| m.contains_key(n) && #[trigger] m[n].contains(f))
}

/// The plan that takes both snapshots of `base` for profile `name`.
pub open spec fn is_add_plan(ops: Seq<FileOp>, base: Seq<char>, name: Seq<char>) -> bool {
    &&& ops.len() == 2
    &&& ops[0].is_copy(base, derived(base, org_suffix()))
    &&& ops[1].is_copy(base, derived(base, name))
}

/// The plan that deletes both snapshots of `base` for profile `name`.
pub open spec fn is_remove_plan(ops: Seq<FileOp>, base: Seq<char>, name: Seq<char>) -> bool {
    &&& ops.len() == 2
    &&& ops[0].is_remove(derived(base, name))
    &&& ops[1].is_remove(derived(base, org_suffix()))
}

/// The plan that copies the `name` snapshot of each of `files`, in order,
/// over the live file.
pub open spec fn is_activation_plan(ops: Seq<FileOp>, files: Seq<Seq<char>>, name: Seq<char>) -> bool {
    &&& ops.len() == files.len()
    &&& forall|i: int| 0 <= i < ops.len() ==> (#[trigger] ops[i]).is_copy(derived(files[i], name), files[i])
}

/// The plan that copies the original snapshot of every managed path of `m`
/// over the live file, once per path, in no particular order.
pub open spec fn is_restore_plan(ops: Seq<FileOp>, m: Map<Seq<char>, Seq<Seq<char>>>) -> bool {
    &&& forall|i: int| 0 <= i < ops.len() ==> (#[trigger] ops[i]).is_copy(
        derived(ops[i].target(), org_suffix()),
        ops[i].target(),
    )
    &&& forall|i: int, j: int|
        0 <= i < ops.len() && 0 <= j < ops.len() && i != j ==> (#[trigger] ops[i]).target()
            != (#[trigger] ops[j]).target()
    &&& forall|f: Seq<char>| managed(m).contains(f) <==> exists|i: int| 0 <= i < ops.len() && (#[trigger] ops[i]).target() == f
}

/// The position of the first occurrence of `x` in `s` (`s.len()` if none).
pub open spec fn first_index(s: Seq<Seq<char>>, x: Seq<char>) -> int
    decreases s.len(),
{
    if s.len() == 0 {
        0
    } else if s[0] == x {
        0
    } else {
        first_index(s.drop_first(), x) + 1
    }
}

proof fn lemma_first_index(s: Seq<Seq<char>>, x: Seq<char>, i: int)
    requires
        0 <= i < s.len(),
        s[i] == x,
        forall|j: int| 0 <= j < i ==> s[j] != x,
    ensures
        first_index(s, x) == i,
    decreases i,
{
    if i > 0 {
        assert forall|j: int| 0 <= j < i - 1 implies s.drop_first()[j] != x by {
            assert(s.drop_first()[j] == s[j + 1]);
        }
        lemma_first_index(s.drop_first(), x, i - 1);
    }
}

fn is_reserved(name: &String) -> (r: bool)
    ensures
        r == (name@ == org_suffix()),
{
    let org = String::from_str("org");
    proof {
        reveal_strlit("org");
    }
    assert(org@ =~= org_suffix());
    *name == org
}

/// Registers `basename` (the resolved path, `None` when it could not be
/// resolved) under profile `name` and plans its two snapshots.
pub fn add_profile(name: &String, basename: &Option<String>, profiles: &mut Registry) -> (r: Result<Vec<FileOp>, SwapError>)
    requires
        old(profiles).wf(),
    ensures
        final(profiles).wf(),
        name@ == org_suffix() ==> r == Err::<Vec<FileOp>, SwapError>(SwapError::ReservedName),
        name@ != org_suffix() && basename is None ==> r == Err::<Vec<FileOp>, SwapError>(SwapError::PathResolution),
        r is Err ==> final(profiles)@ == old(profiles)@,
        r is Ok <==> name@ != org_suffix() && basename is Some,
        r matches Ok(ops) ==> {
            let b = basename.unwrap()@;
            &&& is_add_plan(ops@, b, name@)
            &&& final(profiles)@ == old(profiles)@.insert(name@, files_or_empty(old(profiles)@, name@).push(b))
        },
{
    if is_reserved(name) {
        return Err(SwapError::ReservedName);
    }
    let base = match basename {
        Some(b) => b,
        None => {
            return Err(SwapError::PathResolution);
        },
    };
    let (base, new_name, org_name) = make_canon_names(base, name.as_str());
    let mut ops: Vec<FileOp> = Vec::new();
    ops.push(FileOp::Copy { from: base.clone(), to: org_name });
    ops.push(FileOp::Copy { from: base.clone(), to: new_name });
    proof {
        lemma_profiles_map(profiles.profiles@);
    }
    match profiles.find_profile(name) {
        Some(i) => {
            let ghost s = profiles.profiles@;
            profiles.profiles[i].files.push(base);
            proof {
                let p = profiles.profiles[i as int];
                lemma_profiles_map_update(s, i as int, p);
                assert(profiles.profiles@ =~= s.update(i as int, p));
                assert(paths_of(p.files@) =~= paths_of(s[i as int].files@).push(basename.unwrap()@));
            }
        },
        None => {
            let mut files: Vec<String> = Vec::new();
            files.push(base);
            assert(paths_of(files@) =~= files_or_empty(old(profiles)@, name@).push(basename.unwrap()@));
            profiles.set_profile(name.clone(), files);
        },
    }
    Ok(ops)
}

/// The position of the first path in `files` equal to `x`.
fn position(files: &Vec<String>, x: &String) -> (r: Option<usize>)
    ensures
        match r {
            Some(j) => j < files.len() && files[j as int]@ == x@ && forall|k: int| 0 <= k < j ==> (#[trigger] files[k])@ != x@,
            None => forall|k: int| 0 <= k < files.len() ==> (#[trigger] files[k])@ != x@,
        },
{
    let mut j: usize = 0;
    while j < files.len()
        invariant
            j <= files.len(),
            forall|k: int| 0 <= k < j ==> (#[trigger] files[k])@ != x@,
        decreases files.len() - j,
    {
        if files[j] == *x {
            return Some(j);
        }
        j = j + 1;
    }
    None
}

/// Unregisters `basename` (the resolved path, `None` when it could not be
/// resolved) from profile `name`, dropping the profile once it holds no
/// file, and plans the deletion of the file's two snapshots.
pub fn remove_profile(name: &String, basename: &Option<String>, profiles: &mut Registry) -> (r: Result<Vec<FileOp>, SwapError>)
    requires
        old(profiles).wf(),
    ensures
        final(profiles).wf(),
        basename is None ==> r == Err::<Vec<FileOp>, SwapError>(SwapError::PathResolution),
        basename is Some && !old(profiles)@.contains_key(name@) ==> r == Err::<Vec<FileOp>, SwapError>(SwapError::ProfileNotFound),
        basename is Some && old(profiles)@.contains_key(name@) && !old(profiles)@[name@].contains(basename.unwrap()@)
            ==> r == Err::<Vec<FileOp>, SwapError>(SwapError::FileNotManaged),
        basename is Some && old(profiles)@.contains_key(name@) && old(profiles)@[name@].contains(basename.unwrap()@)
            ==> r is Ok,
        r is Err ==> final(profiles)@ == old(profiles)@,
        r matches Ok(ops) ==> {
            let b = basename.unwrap()@;
            let files = old(profiles)@[name@];
            let rest = files.remove(first_index(files, b));
            &&& old(profiles)@.contains_key(name@)
            &&& files.contains(b)
            &&& is_remove_plan(ops@, b, name@)
            &&& final(profiles)@ == if rest.len() == 0 {
                old(profiles)@.remove(name@)
            } else {
                old(profiles)@.insert(name@, rest)
            }
        },
{
    let base = match basename {
        Some(b) => b,
        None => {
            return Err(SwapError::PathResolution);
        },
    };
    let (base, new_name, org_name) = make_canon_names(base, name.as_str());
    proof {
        lemma_profiles_map(profiles.profiles@);
    }
    let i = match profiles.find_profile(name) {
        Some(i) => i,
        None => {
            return Err(SwapError::ProfileNotFound);
        },
    };
    let ghost s = profiles.profiles@;
    let ghost files = paths_of(s[i as int].files@);
    assert(old(profiles)@[name@] == files);
    let j = match position(&profiles.profiles[i].files, &base) {
        Some(j) => j,
        None => {
            assert forall|k: int| 0 <= k < files.len() implies files[k] != base@ by {
                assert(files[k] == s[i as int].files[k]@);
            }
            return Err(SwapError::FileNotManaged);
        },
    };
    proof {
        assert forall|k: int| 0 <= k < j implies files[k] != base@ by {
            assert(files[k] == s[i as int].files[k]@);
        }
        lemma_first_index(files, base@, j as int);
        assert(files[j as int] == base@);
        assert(files.contains(base@));
    }
    profiles.profiles[i].files.remove(j);
    let ghost p = profiles.profiles@[i as int];
    proof {
        lemma_profiles_map_update(s, i as int, p);
        assert(profiles.profiles@ =~= s.update(i as int, p));
        assert(paths_of(p.files@) =~= files.remove(j as int));
    }
    if profiles.profiles[i].files.len() == 0 {
        proof {
            lemma_profiles_map_remove(s.update(i as int, p), i as int);
        }
        profiles.profiles.remove(i);
        assert(profiles@ =~= old(profiles)@.remove(name@));
    }
    let mut ops: Vec<FileOp> = Vec::new();
    ops.push(FileOp::Remove { path: new_name });
    ops.push(FileOp::Remove { path: org_name });
    Ok(ops)
}

/// Whether every path of `fs` is among the paths that resolved.
pub open spec fn all_resolved(fs: Seq<Seq<char>>, resolvable: Seq<String>) -> bool {
    forall|k: int| 0 <= k < fs.len() ==> holds_path(resolvable, #[trigger] fs[k])
}

/// Whether every path of `paths` is among the paths that resolved.
pub open spec fn resolves_all(paths: Set<Seq<char>>, resolvable: Seq<String>) -> bool {
    forall|f: Seq<char>| #[trigger] paths.contains(f) ==> holds_path(resolvable, f)
}

/// Plans the activation of profile `name`: each of its files, in order,
/// gets the profile's snapshot copied over it. `resolvable` lists the
/// managed paths that the caller found on disk; a file of the profile that
/// is not among them fails the activation.
pub fn activate(name: &String, profiles: &Registry, resolvable: &Vec<String>) -> (r: Result<Vec<FileOp>, SwapError>)
    requires
        profiles.wf(),
    ensures
        !profiles@.contains_key(name@) ==> r == Err::<Vec<FileOp>, SwapError>(SwapError::ProfileNotFound),
        profiles@.contains_key(name@) && !all_resolved(profiles@[name@], resolvable@)
            ==> r == Err::<Vec<FileOp>, SwapError>(SwapError::PathResolution),
        r is Ok <==> profiles@.contains_key(name@) && all_resolved(profiles@[name@], resolvable@),
        r matches Ok(ops) ==> is_activation_plan(ops@, profiles@[name@], name@),
{
    proof {
        lemma_profiles_map(profiles.profiles@);
    }
    let i = match profiles.find_profile(name) {
        Some(i) => i,
        None => {
            return Err(SwapError::ProfileNotFound);
        },
    };
    let files = &profiles.profiles[i].files;
    let ghost fs = paths_of(files@);
    assert(profiles@[name@] == fs);
    let mut ops: Vec<FileOp> = Vec::new();
    let mut j: usize = 0;
    while j < files.len()
        invariant
            j <= files.len(),
            fs == paths_of(files@),
            ops.len() == j,
            forall|k: int| 0 <= k < j ==> (#[trigger] ops[k]).is_copy(derived(fs[k], name@), fs[k]),
            forall|k: int| 0 <= k < j ==> holds_path(resolvable@, #[trigger] fs[k]),
            profiles@.contains_key(name@),
            profiles@[name@] == fs,
        decreases files.len() - j,
    {
        match position(resolvable, &files[j]) {
            Some(k) => {
                assert(resolvable[k as int]@ == fs[j as int]);
            },
            None => {
                assert(fs[j as int] == files[j as int]@);
                assert(!holds_path(resolvable@, fs[j as int]));
                return Err(SwapError::PathResolution);
            },
        }
        let (base, new_name, _) = make_canon_names(&files[j], name.as_str());
        ops.push(FileOp::Copy { from: new_name, to: base });
        j = j + 1;
    }
    Ok(ops)
}

/// Whether some path of `v` is `g`.
pub open spec fn holds_path(v: Seq<String>, g: Seq<char>) -> bool {
    exists|k: int| 0 <= k < v.len() && (#[trigger] v[k])@ == g
}

/// Whether some profile of `s` before position (`pi`, `fj`) holds `f`.
pub open spec fn seen_before(s: Seq<Profile>, pi: int, fj: int, f: Seq<char>) -> bool {
    exists|p: int, q: int|
        0 <= p <= pi && p < s.len() && 0 <= q < s[p].files.len() && (p < pi || q < fj)
            && #[trigger] s[p].files@[q]@ == f
}

proof fn lemma_seen_step(s: Seq<Profile>, pi: int, fj: int)
    requires
        0 <= pi < s.len(),
        0 <= fj < s[pi].files.len(),
    ensures
        forall|g: Seq<char>|
            seen_before(s, pi, fj + 1, g) <==> (seen_before(s, pi, fj, g) || g == s[pi].files@[fj]@),
{
    assert forall|g: Seq<char>|
        seen_before(s, pi, fj + 1, g) <==> (seen_before(s, pi, fj, g) || g == s[pi].files@[fj]@) by {
        if seen_before(s, pi, fj + 1, g) {
            let (p, q) = choose|p: int, q: int|
                0 <= p <= pi && p < s.len() && 0 <= q < s[p].files.len() && (p < pi || q < fj + 1)
                    && #[trigger] s[p].files@[q]@ == g;
            if p < pi || q < fj {
                assert(seen_before(s, pi, fj, g));
            }
        }
        if g == s[pi].files@[fj]@ {
            assert(s[pi].files@[fj]@ == g);
        }
    }
}

proof fn lemma_seen_next(s: Seq<Profile>, pi: int)
    requires
        0 <= pi < s.len(),
    ensures
        forall|g: Seq<char>|
            seen_before(s, pi + 1, 0, g) <==> seen_before(s, pi, s[pi].files.len() as int, g),
{
    assert forall|g: Seq<char>|
        seen_before(s, pi + 1, 0, g) <==> seen_before(s, pi, s[pi].files.len() as int, g) by {
        if seen_before(s, pi + 1, 0, g) {
            let (p, q) = choose|p: int, q: int|
                0 <= p <= pi + 1 && p < s.len() && 0 <= q < s[p].files.len() && (p < pi + 1 || q < 0)
                    && #[trigger] s[p].files@[q]@ == g;
            assert(seen_before(s, pi, s[pi].files.len() as int, g));
        }
        if seen_before(s, pi, s[pi].files.len() as int, g) {
            let (p, q) = choose|p: int, q: int|
                0 <= p <= pi && p < s.len() && 0 <= q < s[p].files.len() && (p < pi || q < s[pi].files.len())
                    && #[trigger] s[p].files@[q]@ == g;
            assert(seen_before(s, pi + 1, 0, g));
        }
    }
}

proof fn lemma_seen_all(s: Seq<Profile>)
    requires
        names_unique(s),
    ensures
        forall|g: Seq<char>| seen_before(s, s.len() as int, 0, g) <==> managed(profiles_map(s)).contains(g),
{
    lemma_profiles_map(s);
    let m = profiles_map(s);
    assert forall|g: Seq<char>| seen_before(s, s.len() as int, 0, g) <==> managed(m).contains(g) by {
        if seen_before(s, s.len() as int, 0, g) {
            let (p, q) = choose|p: int, q: int|
                0 <= p <= s.len() && p < s.len() && 0 <= q < s[p].files.len() && (p < s.len() || q < 0)
                    && #[trigger] s[p].files@[q]@ == g;
            let n = s[p].name@;
            assert(m[n] == paths_of(s[p].files@));
            assert(m[n][q] == g);
            assert(m.contains_key(n) && m[n].contains(g));
        }
        if managed(m).contains(g) {
            let n = choose|n: Seq<char>| m.contains_key(n) && #[trigger] m[n].contains(g);
            let p = choose|p: int| 0 <= p < s.len() && (#[trigger] s[p]).name@ == n;
            assert(m[n] == paths_of(s[p].files@));
            let q = choose|q: int| 0 <= q < m[n].len() && m[n][q] == g;
            assert(s[p].files@[q]@ == g);
        }
    }
}

/// Plans the restoration of every managed path to its original snapshot,
/// each path once. `resolvable` lists the managed paths that the caller
/// found on disk; a managed path that is not among them fails the whole
/// deactivation.
pub fn deactivate(profiles: &Registry, resolvable: &Vec<String>) -> (r: Result<Vec<FileOp>, SwapError>)
    requires
        profiles.wf(),
    ensures
        r is Ok <==> resolves_all(managed(profiles@), resolvable@),
        r is Err ==> r == Err::<Vec<FileOp>, SwapError>(SwapError::PathResolution),
        r matches Ok(ops) ==> is_restore_plan(ops@, profiles@),
{
    proof {
        lemma_profiles_map(profiles.profiles@);
    }
    let ps = &profiles.profiles;
    let mut ops: Vec<FileOp> = Vec::new();
    let mut seen: Vec<String> = Vec::new();
    let mut pi: usize = 0;
    while pi < ps.len()
        invariant
            profiles.wf(),
            ps@ == profiles.profiles@,
            pi <= ps.len(),
            ops.len() == seen.len(),
            forall|k: int| 0 <= k < ops.len() ==> (#[trigger] ops[k]).is_copy(derived(seen[k]@, org_suffix()), seen[k]@),
            forall|a: int, b: int| 0 <= a < seen.len() && 0 <= b < seen.len() && a != b ==> (#[trigger] seen[a])@ != (#[trigger] seen[b])@,
            forall|f: Seq<char>| holds_path(seen@, f) <==> seen_before(ps@, pi as int, 0, f),
            forall|k: int| 0 <= k < seen.len() ==> holds_path(resolvable@, (#[trigger] seen[k])@),
        decreases ps.len() - pi,
    {
        let files = &ps[pi].files;
        let mut fj: usize = 0;
        while fj < files.len()
            invariant
                profiles.wf(),
                ps@ == profiles.profiles@,
                pi < ps.len(),
                files == ps[pi as int].files,
                fj <= files.len(),
                ops.len() == seen.len(),
                forall|k: int| 0 <= k < ops.len() ==> (#[trigger] ops[k]).is_copy(derived(seen[k]@, org_suffix()), seen[k]@),
                forall|a: int, b: int| 0 <= a < seen.len() && 0 <= b < seen.len() && a != b ==> (#[trigger] seen[a])@ != (#[trigger] seen[b])@,
                forall|f: Seq<char>| holds_path(seen@, f) <==> seen_before(ps@, pi as int, fj as int, f),
            forall|k: int| 0 <= k < seen.len() ==> holds_path(resolvable@, (#[trigger] seen[k])@),
            decreases files.len() - fj,
        {
            let f = &files[fj];
            proof {
                lemma_seen_step(ps@, pi as int, fj as int);
            }
            match position(&seen, f) {
                Some(k) => {
                    assert(seen[k as int]@ == f@);
                },
                None => {
                    match position(resolvable, f) {
                        Some(k) => {
                            assert(resolvable[k as int]@ == f@);
                        },
                        None => {
                            proof {
                                lemma_profiles_map(ps@);
                                let n = ps[pi as int].name@;
                                assert(profiles@[n] == paths_of(files@));
                                assert(profiles@[n][fj as int] == f@);
                                assert(profiles@.contains_key(n) && profiles@[n].contains(f@));
                                assert(managed(profiles@).contains(f@));
                            }
                            return Err(SwapError::PathResolution);
                        },
                    }
                    let (base, _, org) = make_canon_names(f, "org");
                    ops.push(FileOp::Copy { from: org, to: base });
                    let ghost old_seen = seen@;
                    seen.push(f.clone());
                    assert forall|g: Seq<char>| #[trigger] holds_path(seen@, g) <==> (holds_path(old_seen, g) || g == f@) by {
                        if exists|k: int| 0 <= k < seen.len() && (#[trigger] seen[k])@ == g {
                            let k = choose|k: int| 0 <= k < seen.len() && (#[trigger] seen[k])@ == g;
                            if k < old_seen.len() {
                                assert(old_seen[k] == seen[k]);
                            }
                        }
                        if exists|k: int| 0 <= k < old_seen.len() && (#[trigger] old_seen[k])@ == g {
                            let k = choose|k: int| 0 <= k < old_seen.len() && (#[trigger] old_seen[k])@ == g;
                            assert(old_seen[k] == seen[k]);
                        }
                        if g == f@ {
                            assert(seen[old_seen.len() as int]@ == g);
                        }
                    }
                },
            }
            fj = fj + 1;
        }
        proof {
            lemma_seen_next(ps@, pi as int);
        }
        pi = pi + 1;
    }
    proof {
        lemma_seen_all(ps@);
        assert forall|k: int| 0 <= k < ops.len() implies ops[k].target() == seen[k]@ by {
            assert(ops[k].is_copy(derived(seen[k]@, org_suffix()), seen[k]@));
        }
        assert forall|f: Seq<char>| managed(profiles@).contains(f) <==> exists|i: int| 0 <= i < ops.len() && (#[trigger] ops[i]).target() == f by {
            if managed(profiles@).contains(f) {
                assert(seen_before(ps@, ps.len() as int, 0, f));
                assert(holds_path(seen@, f));
                let k = choose|k: int| 0 <= k < seen.len() && (#[trigger] seen[k])@ == f;
                assert(ops[k].target() == f);
            }
            if exists|i: int| 0 <= i < ops.len() && (#[trigger] ops[i]).target() == f {
                let k = choose|i: int| 0 <= i < ops.len() && (#[trigger] ops[i]).target() == f;
                assert(seen[k]@ == f);
                assert(holds_path(seen@, f));
                assert(seen_before(ps@, ps.len() as int, 0, f));
            }
        }
        assert forall|f: Seq<char>| #[trigger] managed(profiles@).contains(f) implies holds_path(resolvable@, f) by {
            assert(seen_before(ps@, ps.len() as int, 0, f));
            assert(holds_path(seen@, f));
            let k = choose|k: int| 0 <= k < seen.len() && (#[trigger] seen[k])@ == f;
            assert(holds_path(resolvable@, seen[k]@));
        }
    }
    Ok(ops)
}

} // verus!
