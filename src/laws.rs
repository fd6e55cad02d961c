use vstd::prelude::*;
use crate::disk::{apply_op, lemma_run_concat, lemma_run_frame, run_ops, Disk, FileOp};
use crate::engine::{files_or_empty, is_activation_plan, is_add_plan, is_remove_plan, is_restore_plan, managed};
use crate::naming::{derived, is_derived_from, lemma_derived_injective, lemma_derived_is_derived_from, org_suffix};

verus! {

/// No managed path of `m` lies in the snapshot namespace of a managed path,
/// so that snapshots and live files never share a path.
pub open spec fn separated(m: Map<Seq<char>, Seq<Seq<char>>>) -> bool {
    forall|f: Seq<char>, g: Seq<char>|
        managed(m).contains(f) && managed(m).contains(g) ==> !is_derived_from(g, f)
}

/// Whether some step of `ops` writes or deletes `k`.
pub open spec fn writes(ops: Seq<FileOp>, k: Seq<char>) -> bool {
    exists|i: int| 0 <= i < ops.len() && (#[trigger] ops[i]).target() == k
}

/// A plan of copies, each into its target from `src` of that target, where
/// no source is ever a target: it succeeds exactly when every source
/// exists, gives each target its source's content, and leaves every other
/// path alone.
pub proof fn lemma_run_copies(d: Disk, ops: Seq<FileOp>, src: spec_fn(Seq<char>) -> Seq<char>)
    requires
        forall|i: int| 0 <= i < ops.len() ==> (#[trigger] ops[i]).is_copy(src(ops[i].target()), ops[i].target()),
        forall|i: int, j: int| 0 <= i < ops.len() && 0 <= j < ops.len() ==> src((#[trigger] ops[i]).target()) != (#[trigger] ops[j]).target(),
    ensures
        run_ops(d, ops) is Some <==> forall|i: int| 0 <= i < ops.len() ==> d.contains_key(src((#[trigger] ops[i]).target())),
        run_ops(d, ops) is Some ==> forall|i: int| 0 <= i < ops.len() ==> {
            &&& run_ops(d, ops).unwrap().contains_key((#[trigger] ops[i]).target())
            &&& run_ops(d, ops).unwrap()[ops[i].target()] == d[src(ops[i].target())]
        },
        run_ops(d, ops) is Some ==> forall|k: Seq<char>| !writes(ops, k) ==> {
            &&& #[trigger] run_ops(d, ops).unwrap().contains_key(k) == d.contains_key(k)
            &&& d.contains_key(k) ==> run_ops(d, ops).unwrap()[k] == d[k]
        },
    decreases ops.len(),
{
    if ops.len() > 0 {
        let t0 = ops[0].target();
        let rest = ops.drop_first();
        assert forall|i: int| 0 <= i < rest.len() implies (#[trigger] rest[i]).is_copy(src(rest[i].target()), rest[i].target()) by {
            assert(rest[i] == ops[i + 1]);
        }
        assert forall|i: int, j: int| 0 <= i < rest.len() && 0 <= j < rest.len() implies src((#[trigger] rest[i]).target()) != (#[trigger] rest[j]).target() by {
            assert(rest[i] == ops[i + 1] && rest[j] == ops[j + 1]);
        }
        assert(ops[0].is_copy(src(t0), t0));
        if d.contains_key(src(t0)) {
            let d1 = d.insert(t0, d[src(t0)]);
            assert(apply_op(d, ops[0]) == Some(d1));
            assert(run_ops(d, ops) == run_ops(d1, rest));
            lemma_run_copies(d1, rest, src);
            assert forall|i: int| 0 <= i < rest.len() implies (d1.contains_key(src((#[trigger] rest[i]).target())) == d.contains_key(src(rest[i].target()))
                && (d.contains_key(src(rest[i].target())) ==> d1[src(rest[i].target())] == d[src(rest[i].target())])) by {
                assert(rest[i] == ops[i + 1]);
                assert(src(ops[i + 1].target()) != ops[0].target());
            }
            if run_ops(d, ops) is None {
                assert(run_ops(d1, rest) is None);
                let i = choose|i: int| 0 <= i < rest.len() && !d1.contains_key(src((#[trigger] rest[i]).target()));
                assert(rest[i] == ops[i + 1]);
                assert(!d.contains_key(src(ops[i + 1].target())));
            }
            if forall|i: int| 0 <= i < ops.len() ==> d.contains_key(src((#[trigger] ops[i]).target())) {
                assert forall|i: int| 0 <= i < rest.len() implies d1.contains_key(src((#[trigger] rest[i]).target())) by {
                    assert(rest[i] == ops[i + 1]);
                    assert(d.contains_key(src(ops[i + 1].target())));
                }
            }
            if run_ops(d, ops) is Some {
                let r = run_ops(d, ops).unwrap();
                assert forall|i: int| 0 <= i < ops.len() implies d.contains_key(src((#[trigger] ops[i]).target())) by {
                    if i > 0 {
                        assert(ops[i] == rest[i - 1]);
                        assert(d1.contains_key(src(rest[i - 1].target())));
                    }
                }
                assert forall|i: int| 0 <= i < ops.len() implies r.contains_key((#[trigger] ops[i]).target()) && r[ops[i].target()] == d[src(ops[i].target())] by {
                    if i > 0 {
                        assert(ops[i] == rest[i - 1]);
                    } else if writes(rest, t0) {
                        let j = choose|j: int| 0 <= j < rest.len() && (#[trigger] rest[j]).target() == t0;
                        assert(rest[j] == ops[j + 1]);
                        assert(src(ops[j + 1].target()) != ops[0].target());
                        assert(r[rest[j].target()] == d1[src(rest[j].target())]);
                    } else {
                        assert(r.contains_key(t0) == d1.contains_key(t0));
                        assert(r[t0] == d1[t0]);
                    }
                }
                assert forall|k: Seq<char>| !writes(ops, k) implies (#[trigger] r.contains_key(k) == d.contains_key(k)
                    && (d.contains_key(k) ==> r[k] == d[k])) by {
                    assert(k != t0);
                    if writes(rest, k) {
                        let j = choose|j: int| 0 <= j < rest.len() && (#[trigger] rest[j]).target() == k;
                        assert(rest[j] == ops[j + 1]);
                    }
                }
            } else {
                let i = choose|i: int| 0 <= i < rest.len() && !d1.contains_key(src((#[trigger] rest[i]).target()));
                assert(rest[i] == ops[i + 1]);
                assert(!d.contains_key(src(ops[i + 1].target())));
            }
        } else {
            assert(apply_op(d, ops[0]) is None);
            assert(run_ops(d, ops) is None);
            assert(!d.contains_key(src(ops[0].target())));
        }
    }
}

/// A restoration plan only writes managed paths and reads their original
/// snapshots, none of which is managed.
proof fn lemma_restore_shape(ops: Seq<FileOp>, m: Map<Seq<char>, Seq<Seq<char>>>)
    requires
        is_restore_plan(ops, m),
        separated(m),
    ensures
        forall|i: int, j: int| 0 <= i < ops.len() && 0 <= j < ops.len() ==> derived((#[trigger] ops[i]).target(), org_suffix()) != (#[trigger] ops[j]).target(),
        forall|k: Seq<char>| writes(ops, k) <==> #[trigger] managed(m).contains(k),
        forall|f: Seq<char>| managed(m).contains(f) ==> !(#[trigger] managed(m).contains(derived(f, org_suffix()))),
{
    assert forall|i: int, j: int| 0 <= i < ops.len() && 0 <= j < ops.len() implies derived((#[trigger] ops[i]).target(), org_suffix()) != (#[trigger] ops[j]).target() by {
        lemma_derived_is_derived_from(ops[i].target(), org_suffix());
        assert(managed(m).contains(ops[i].target()));
        assert(managed(m).contains(ops[j].target()));
    }
    assert forall|f: Seq<char>| managed(m).contains(f) implies !(#[trigger] managed(m).contains(derived(f, org_suffix()))) by {
        lemma_derived_is_derived_from(f, org_suffix());
    }
}

/// Deactivating twice in a row leaves every path as the first deactivation
/// left it.
pub proof fn law_deactivate_idempotent(m: Map<Seq<char>, Seq<Seq<char>>>, first: Seq<FileOp>, second: Seq<FileOp>, d: Disk)
    requires
        separated(m),
        is_restore_plan(first, m),
        is_restore_plan(second, m),
        run_ops(d, first) is Some,
    ensures
        run_ops(run_ops(d, first).unwrap(), second) == run_ops(d, first),
{
    let org = |k: Seq<char>| derived(k, org_suffix());
    lemma_restore_shape(first, m);
    lemma_restore_shape(second, m);
    lemma_run_copies(d, first, org);
    let d1 = run_ops(d, first).unwrap();
    lemma_run_copies(d1, second, org);
    assert forall|i: int| 0 <= i < second.len() implies d1.contains_key(org((#[trigger] second[i]).target())) by {
        let t = second[i].target();
        assert(writes(second, t));
        assert(managed(m).contains(t));
        let j = choose|j: int| 0 <= j < first.len() && (#[trigger] first[j]).target() == t;
        assert(!managed(m).contains(org(t)));
        assert(!writes(first, org(t)));
    }
    let d2 = run_ops(d1, second).unwrap();
    assert forall|k: Seq<char>| d2.contains_key(k) == d1.contains_key(k) && (d1.contains_key(k) ==> d2[k] == d1[k]) by {
        if writes(second, k) {
            let i = choose|i: int| 0 <= i < second.len() && (#[trigger] second[i]).target() == k;
            assert(managed(m).contains(k));
            assert(writes(first, k));
            let j = choose|j: int| 0 <= j < first.len() && (#[trigger] first[j]).target() == k;
            assert(!writes(first, org(k)));
        }
    }
    assert(d2 =~= d1);
}

/// Carrying out a removal deletes the file's two snapshots and nothing else.
pub proof fn law_remove_deletes_snapshots(ops: Seq<FileOp>, base: Seq<char>, name: Seq<char>, d: Disk)
    requires
        is_remove_plan(ops, base, name),
    ensures
        run_ops(d, ops) is Some <==> d.contains_key(derived(base, name)) && d.contains_key(derived(base, org_suffix()))
            && name != org_suffix(),
        run_ops(d, ops) is Some ==> run_ops(d, ops) == Some(d.remove(derived(base, name)).remove(derived(base, org_suffix()))),
{
    lemma_derived_injective(base, name, org_suffix());
    let v = derived(base, name);
    let o = derived(base, org_suffix());
    let rest = ops.drop_first();
    assert(rest[0] == ops[1]);
    assert(rest.drop_first().len() == 0);
    if d.contains_key(v) {
        let d1 = d.remove(v);
        assert(apply_op(d, ops[0]) == Some(d1));
        assert(run_ops(d, ops) == run_ops(d1, rest));
        if d1.contains_key(o) {
            assert(apply_op(d1, rest[0]) == Some(d1.remove(o)));
            assert(run_ops(d1.remove(o), rest.drop_first()) == Some(d1.remove(o)));
        } else {
            assert(apply_op(d1, rest[0]) is None);
        }
    } else {
        assert(apply_op(d, ops[0]) is None);
    }
}

/// The registry that `add_profile` leaves after adding `base` to `name`.
pub open spec fn added(m: Map<Seq<char>, Seq<Seq<char>>>, name: Seq<char>, base: Seq<char>) -> Map<Seq<char>, Seq<Seq<char>>> {
    m.insert(name, files_or_empty(m, name).push(base))
}

/// Whether each of `steps` is a restoration of `m` or the activation of a
/// profile of `m`, the one named at the same position of `names`.
pub open spec fn swap_steps(m: Map<Seq<char>, Seq<Seq<char>>>, steps: Seq<Seq<FileOp>>, names: Seq<Seq<char>>) -> bool {
    &&& steps.len() == names.len()
    &&& forall|i: int| 0 <= i < steps.len() ==> is_restore_plan(#[trigger] steps[i], m)
        || (m.contains_key(names[i]) && is_activation_plan(steps[i], m[names[i]], names[i]))
}

proof fn lemma_in_managed(m: Map<Seq<char>, Seq<Seq<char>>>, name: Seq<char>, i: int)
    requires
        m.contains_key(name),
        0 <= i < m[name].len(),
    ensures
        managed(m).contains(m[name][i]),
{
    assert(m[name].contains(m[name][i]));
}

/// The effect of carrying out the add plan of `base`.
proof fn lemma_add_effect(d: Disk, ops: Seq<FileOp>, base: Seq<char>, name: Seq<char>)
    requires
        is_add_plan(ops, base, name),
        run_ops(d, ops) is Some,
    ensures
        d.contains_key(base),
        run_ops(d, ops).unwrap().contains_key(derived(base, name)),
        run_ops(d, ops).unwrap()[derived(base, name)] == d[base],
        run_ops(d, ops).unwrap().contains_key(derived(base, org_suffix())),
        run_ops(d, ops).unwrap()[derived(base, org_suffix())] == d[base],
{
    let src = |t: Seq<char>| base;
    lemma_derived_is_derived_from(base, name);
    lemma_derived_is_derived_from(base, org_suffix());
    assert(ops[0].target() == derived(base, org_suffix()));
    assert(ops[1].target() == derived(base, name));
    lemma_run_copies(d, ops, src);
}

/// A run of swap steps leaves every path that no profile manages as it was.
proof fn lemma_steps_frame(d: Disk, m: Map<Seq<char>, Seq<Seq<char>>>, steps: Seq<Seq<FileOp>>, names: Seq<Seq<char>>, k: Seq<char>)
    requires
        separated(m),
        swap_steps(m, steps, names),
        !managed(m).contains(k),
        run_ops(d, steps.flatten()) is Some,
    ensures
        run_ops(d, steps.flatten()).unwrap().contains_key(k) == d.contains_key(k),
        d.contains_key(k) ==> run_ops(d, steps.flatten()).unwrap()[k] == d[k],
    decreases steps.len(),
{
    if steps.len() > 0 {
        let s0 = steps[0];
        assert(steps.flatten() == s0 + steps.drop_first().flatten());
        lemma_run_concat(d, s0, steps.drop_first().flatten());
        assert forall|i: int| 0 <= i < s0.len() implies managed(m).contains(#[trigger] s0[i].target()) by {
            if is_restore_plan(s0, m) {
                assert(writes(s0, s0[i].target()));
            } else {
                assert(s0[i].is_copy(derived(m[names[0]][i], names[0]), m[names[0]][i]));
                lemma_in_managed(m, names[0], i);
            }
        }
        lemma_run_frame(d, s0, managed(m), k);
        let d1 = run_ops(d, s0).unwrap();
        assert forall|i: int| 0 <= i < steps.drop_first().len() implies is_restore_plan(#[trigger] steps.drop_first()[i], m)
            || (m.contains_key(names.drop_first()[i]) && is_activation_plan(steps.drop_first()[i], m[names.drop_first()[i]], names.drop_first()[i])) by {
            assert(steps.drop_first()[i] == steps[i + 1]);
        }
        lemma_steps_frame(d1, m, steps.drop_first(), names.drop_first(), k);
    }
}

/// After adding `base` to profile `name`, deactivating and then activating
/// `name` gives the live file the content it had when it was added.
pub proof fn law_add_activate_round_trip(
    m: Map<Seq<char>, Seq<Seq<char>>>,
    name: Seq<char>,
    base: Seq<char>,
    add_ops: Seq<FileOp>,
    restore: Seq<FileOp>,
    act: Seq<FileOp>,
    d: Disk,
)
    requires
        name != org_suffix(),
        is_add_plan(add_ops, base, name),
        separated(added(m, name, base)),
        is_restore_plan(restore, added(m, name, base)),
        is_activation_plan(act, added(m, name, base)[name], name),
        run_ops(d, add_ops + restore + act) is Some,
    ensures
        run_ops(d, add_ops + restore + act).unwrap()[base] == d[base],
{
    let m2 = added(m, name, base);
    let files = m2[name];
    lemma_run_concat(d, add_ops + restore, act);
    lemma_run_concat(d, add_ops, restore);
    lemma_add_effect(d, add_ops, base, name);
    let d1 = run_ops(d, add_ops).unwrap();
    let d2 = run_ops(d1, restore).unwrap();
    let var = derived(base, name);
    lemma_in_managed(m2, name, files.len() - 1);
    assert(files[files.len() - 1] == base);
    lemma_derived_is_derived_from(base, name);
    assert(!managed(m2).contains(var));
    lemma_restore_shape(restore, m2);
    lemma_run_copies(d1, restore, |k: Seq<char>| derived(k, org_suffix()));
    assert(!writes(restore, var));
    assert(d2.contains_key(var) && d2[var] == d[base]);
    let src = |k: Seq<char>| derived(k, name);
    assert forall|i: int, j: int| 0 <= i < act.len() && 0 <= j < act.len() implies src((#[trigger] act[i]).target()) != (#[trigger] act[j]).target() by {
        assert(act[i].is_copy(derived(files[i], name), files[i]));
        assert(act[j].is_copy(derived(files[j], name), files[j]));
        lemma_in_managed(m2, name, i);
        lemma_in_managed(m2, name, j);
        lemma_derived_is_derived_from(files[i], name);
    }
    assert forall|i: int| 0 <= i < act.len() implies (#[trigger] act[i]).is_copy(src(act[i].target()), act[i].target()) by {
        assert(act[i].is_copy(derived(files[i], name), files[i]));
    }
    lemma_run_copies(d2, act, src);
    let last = act.len() - 1;
    assert(act[last].is_copy(derived(files[last], name), files[last]));
}

/// However profiles sharing `base` are activated and deactivated after
/// `base` was added, deactivating gives `base` back the content it had when
/// it was added, never a profile's snapshot.
pub proof fn law_deactivate_restores_original(
    m: Map<Seq<char>, Seq<Seq<char>>>,
    name: Seq<char>,
    base: Seq<char>,
    add_ops: Seq<FileOp>,
    steps: Seq<Seq<FileOp>>,
    names: Seq<Seq<char>>,
    restore: Seq<FileOp>,
    d: Disk,
)
    requires
        name != org_suffix(),
        is_add_plan(add_ops, base, name),
        separated(added(m, name, base)),
        swap_steps(added(m, name, base), steps, names),
        is_restore_plan(restore, added(m, name, base)),
        run_ops(d, add_ops + steps.flatten() + restore) is Some,
    ensures
        run_ops(d, add_ops + steps.flatten() + restore).unwrap()[base] == d[base],
{
    let m2 = added(m, name, base);
    let org = derived(base, org_suffix());
    lemma_run_concat(d, add_ops + steps.flatten(), restore);
    lemma_run_concat(d, add_ops, steps.flatten());
    lemma_add_effect(d, add_ops, base, name);
    let d1 = run_ops(d, add_ops).unwrap();
    lemma_in_managed(m2, name, m2[name].len() - 1);
    assert(m2[name][m2[name].len() - 1] == base);
    lemma_derived_is_derived_from(base, org_suffix());
    assert(!managed(m2).contains(org));
    lemma_steps_frame(d1, m2, steps, names, org);
    let d3 = run_ops(d1, steps.flatten()).unwrap();
    lemma_restore_shape(restore, m2);
    lemma_run_copies(d3, restore, |k: Seq<char>| derived(k, org_suffix()));
    assert(writes(restore, base));
    let i = choose|i: int| 0 <= i < restore.len() && (#[trigger] restore[i]).target() == base;
}

/// Deactivation reads nothing but the original snapshots: on two disks that
/// agree on the original snapshot of every managed path, it succeeds on both
/// or on neither, and leaves the same content at every managed path,
/// whatever the profiles' snapshots hold.
pub proof fn law_restore_reads_only_originals(m: Map<Seq<char>, Seq<Seq<char>>>, ops: Seq<FileOp>, d1: Disk, d2: Disk)
    requires
        separated(m),
        is_restore_plan(ops, m),
        forall|f: Seq<char>| #[trigger] managed(m).contains(f) ==> {
            &&& d1.contains_key(derived(f, org_suffix())) == d2.contains_key(derived(f, org_suffix()))
            &&& d1.contains_key(derived(f, org_suffix())) ==> d1[derived(f, org_suffix())] == d2[derived(f, org_suffix())]
        },
    ensures
        run_ops(d1, ops) is Some <==> run_ops(d2, ops) is Some,
        run_ops(d1, ops) is Some ==> forall|f: Seq<char>| #[trigger] managed(m).contains(f)
            ==> run_ops(d1, ops).unwrap()[f] == run_ops(d2, ops).unwrap()[f],
{
    let org = |k: Seq<char>| derived(k, org_suffix());
    lemma_restore_shape(ops, m);
    lemma_run_copies(d1, ops, org);
    lemma_run_copies(d2, ops, org);
    assert forall|i: int| 0 <= i < ops.len() implies d1.contains_key(org((#[trigger] ops[i]).target())) == d2.contains_key(org(ops[i].target())) by {
        assert(writes(ops, ops[i].target()));
        assert(managed(m).contains(ops[i].target()));
    }
    if run_ops(d1, ops) is Some {
        assert forall|f: Seq<char>| #[trigger] managed(m).contains(f) implies run_ops(d1, ops).unwrap()[f] == run_ops(d2, ops).unwrap()[f] by {
            assert(writes(ops, f));
            let i = choose|i: int| 0 <= i < ops.len() && (#[trigger] ops[i]).target() == f;
        }
    }
}

} // verus!
