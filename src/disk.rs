use vstd::prelude::*;

verus! {

/// One step of a plan that the caller carries out on the file system.
pub enum FileOp {
    /// Copy the whole content of `from` to `to`, creating or overwriting `to`.
    Copy { from: String, to: String },
    /// Delete the file at `path`.
    Remove { path: String },
}

/// The contents of the file system: path to bytes.
pub type Disk = Map<Seq<char>, Seq<u8>>;

impl FileOp {
    /// Whether this step is a copy from `from` to `to`.
    pub open spec fn is_copy(self, from: Seq<char>, to: Seq<char>) -> bool {
        match self {
            FileOp::Copy { from: f, to: t } => f@ == from && t@ == to,
            FileOp::Remove { .. } => false,
        }
    }

    /// Whether this step is the removal of `path`.
    pub open spec fn is_remove(self, path: Seq<char>) -> bool {
        match self {
            FileOp::Copy { .. } => false,
            FileOp::Remove { path: p } => p@ == path,
        }
    }

    /// The path that this step writes or deletes.
    pub open spec fn target(self) -> Seq<char> {
        match self {
            FileOp::Copy { to, .. } => to@,
            FileOp::Remove { path } => path@,
        }
    }
}

/// The effect of one step: a copy fails when its source is missing, a
/// removal when its path is missing.
pub open spec fn apply_op(d: Disk, op: FileOp) -> Option<Disk> {
    match op {
        FileOp::Copy { from, to } => if d.contains_key(from@) {
            Some(d.insert(to@, d[from@]))
        } else {
            None
        },
        FileOp::Remove { path } => if d.contains_key(path@) {
            Some(d.remove(path@))
        } else {
            None
        },
    }
}

/// The effect of a plan carried out in order, stopping at the first
/// failing step (`None`).
pub open spec fn run_ops(d: Disk, ops: Seq<FileOp>) -> Option<Disk>
    decreases ops.len(),
{
    if ops.len() == 0 {
        Some(d)
    } else {
        match apply_op(d, ops[0]) {
            Some(d1) => run_ops(d1, ops.drop_first()),
            None => None,
        }
    }
}

/// Running two plans one after the other is running their concatenation.
pub proof fn lemma_run_concat(d: Disk, a: Seq<FileOp>, b: Seq<FileOp>)
    ensures
        run_ops(d, a + b) == match run_ops(d, a) {
            Some(d1) => run_ops(d1, b),
            None => None,
        },
    decreases a.len(),
{
    if a.len() == 0 {
        assert(a + b =~= b);
    } else {
        assert((a + b).drop_first() =~= a.drop_first() + b);
        assert((a + b)[0] == a[0]);
        match apply_op(d, a[0]) {
            Some(d1) => lemma_run_concat(d1, a.drop_first(), b),
            None => {},
        }
    }
}

/// A plan whose steps only touch paths in `targets` leaves every other
/// path as it was.
pub proof fn lemma_run_frame(d: Disk, ops: Seq<FileOp>, targets: Set<Seq<char>>, k: Seq<char>)
    requires
        forall|i: int| 0 <= i < ops.len() ==> targets.contains(#[trigger] ops[i].target()),
        !targets.contains(k),
        run_ops(d, ops) is Some,
    ensures
        run_ops(d, ops).unwrap().contains_key(k) == d.contains_key(k),
        d.contains_key(k) ==> run_ops(d, ops).unwrap()[k] == d[k],
    decreases ops.len(),
{
    if ops.len() > 0 {
        let d1 = apply_op(d, ops[0]).unwrap();
        assert(targets.contains(ops[0].target()));
        assert forall|i: int| 0 <= i < ops.drop_first().len() implies targets.contains(
            #[trigger] ops.drop_first()[i].target(),
        ) by {
            assert(ops.drop_first()[i] == ops[i + 1]);
        }
        lemma_run_frame(d1, ops.drop_first(), targets, k);
    }
}

} // verus!
