use vstd::prelude::*;
use vstd::string::*;

verus! {

/// The suffix that names the original snapshot of a managed file.
pub open spec fn org_suffix() -> Seq<char> {
    seq!['o', 'r', 'g']
}

/// `base` with `.suffix` appended: the path of one of its snapshots.
pub open spec fn derived(base: Seq<char>, suffix: Seq<char>) -> Seq<char> {
    base + seq!['.'] + suffix
}

/// Whether `path` lies in the snapshot namespace of `base`, that is,
/// whether it is `base.<something>`.
pub open spec fn is_derived_from(path: Seq<char>, base: Seq<char>) -> bool {
    &&& path.len() > base.len()
    &&& path.subrange(0, base.len() as int) == base
    &&& path[base.len() as int] == '.'
}

/// A derived path always lies in the namespace of its base.
pub proof fn lemma_derived_is_derived_from(base: Seq<char>, suffix: Seq<char>)
    ensures
        is_derived_from(derived(base, suffix), base),
{
    let p = derived(base, suffix);
    assert(p.subrange(0, base.len() as int) =~= base);
    assert(p[base.len() as int] == '.');
}

/// Two derived paths of one base are equal only when their suffixes are.
pub proof fn lemma_derived_injective(base: Seq<char>, s1: Seq<char>, s2: Seq<char>)
    ensures
        derived(base, s1) == derived(base, s2) <==> s1 == s2,
{
    if derived(base, s1) == derived(base, s2) {
        let n = base.len() + 1;
        assert(s1 =~= derived(base, s1).subrange(n as int, derived(base, s1).len() as int));
        assert(s2 =~= derived(base, s2).subrange(n as int, derived(base, s2).len() as int));
    }
}

fn append_suffix(base: &String, suffix: &str) -> (r: String)
    ensures
        r@ == derived(base@, suffix@),
{
    let mut r = base.clone();
    r.append(".");
    proof {
        reveal_strlit(".");
    }
    r.append(suffix);
    assert(r@ =~= derived(base@, suffix@));
    r
}

/// The three forms of a managed file: the live path itself (already
/// resolved by the caller), its snapshot for `profile_name`, and its
/// original snapshot.
pub fn make_canon_names(basename: &String, profile_name: &str) -> (r: (String, String, String))
    ensures
        r.0@ == basename@,
        r.1@ == derived(basename@, profile_name@),
        r.2@ == derived(basename@, org_suffix()),
{
    let variant = append_suffix(basename, profile_name);
    let org = append_suffix(basename, "org");
    proof {
        reveal_strlit("org");
    }
    assert("org"@ =~= org_suffix());
    (basename.clone(), variant, org)
}

} // verus!
