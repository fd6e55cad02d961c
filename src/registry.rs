use vstd::prelude::*;

verus! {

/// A named, ordered list of managed file paths.
pub struct Profile {
    pub name: String,
    pub files: Vec<String>,
}

/// The paths of a file list, as character sequences.
pub open spec fn paths_of(files: Seq<String>) -> Seq<Seq<char>> {
    files.map_values(|f: String| f@)
}

/// No two profiles of `s` share a name.
pub open spec fn names_unique(s: Seq<Profile>) -> bool {
    forall|i: int, j: int|
        0 <= i < s.len() && 0 <= j < s.len() && i != j ==> s[i].name@ != s[j].name@
}

/// The mapping from profile name to file list that `s` stands for.
pub open spec fn profiles_map(s: Seq<Profile>) -> Map<Seq<char>, Seq<Seq<char>>>
    decreases s.len(),
{
    if s.len() == 0 {
        Map::empty()
    } else {
        profiles_map(s.drop_last()).insert(s.last().name@, paths_of(s.last().files@))
    }
}

/// Every profile, by name. The order of the profiles carries no meaning.
pub struct Registry {
    pub profiles: Vec<Profile>,
}

impl View for Registry {
    type V = Map<Seq<char>, Seq<Seq<char>>>;

    open spec fn view(&self) -> Map<Seq<char>, Seq<Seq<char>>> {
        profiles_map(self.profiles@)
    }
}

/// The names of `s` are its keys, each mapped to its own file list.
pub proof fn lemma_profiles_map(s: Seq<Profile>)
    requires
        names_unique(s),
    ensures
        forall|k: Seq<char>|
            profiles_map(s).contains_key(k) <==> exists|i: int|
                0 <= i < s.len() && (#[trigger] s[i]).name@ == k,
        forall|i: int|
            0 <= i < s.len() ==> profiles_map(s)[(#[trigger] s[i]).name@] == paths_of(s[i].files@),
    decreases s.len(),
{
    if s.len() > 0 {
        let t = s.drop_last();
        assert forall|i: int, j: int|
            0 <= i < t.len() && 0 <= j < t.len() && i != j implies t[i].name@ != t[j].name@ by {
            assert(t[i] == s[i] && t[j] == s[j]);
        }
        lemma_profiles_map(t);
        assert forall|k: Seq<char>|
            profiles_map(s).contains_key(k) implies exists|i: int|
                0 <= i < s.len() && (#[trigger] s[i]).name@ == k by {
            if k != s.last().name@ {
                assert(profiles_map(s) == profiles_map(t).insert(s.last().name@, paths_of(s.last().files@)));
                assert(profiles_map(t).contains_key(k));
                let i = choose|i: int| 0 <= i < t.len() && (#[trigger] t[i]).name@ == k;
                assert(s[i] == t[i]);
                assert(s[i].name@ == k);
            } else {
                assert(s[s.len() - 1].name@ == k);
            }
        }
        assert forall|i: int| 0 <= i < s.len() implies profiles_map(s)[(#[trigger] s[i]).name@]
            == paths_of(s[i].files@) by {
            if i < s.len() - 1 {
                assert(s[i] == t[i]);
            }
        }
        assert forall|k: Seq<char>|
            (exists|i: int| 0 <= i < s.len() && (#[trigger] s[i]).name@ == k) implies profiles_map(
            s,
        ).contains_key(k) by {
            let i = choose|i: int| 0 <= i < s.len() && (#[trigger] s[i]).name@ == k;
            if i < s.len() - 1 {
                assert(s[i] == t[i]);
            }
        }
    }
}

/// Replacing the profile at `i` by one of the same name replaces its entry.
pub proof fn lemma_profiles_map_update(s: Seq<Profile>, i: int, p: Profile)
    requires
        names_unique(s),
        0 <= i < s.len(),
        p.name@ == s[i].name@,
    ensures
        names_unique(s.update(i, p)),
        profiles_map(s.update(i, p)) == profiles_map(s).insert(p.name@, paths_of(p.files@)),
{
    let u = s.update(i, p);
    assert forall|a: int, b: int|
        0 <= a < u.len() && 0 <= b < u.len() && a != b implies u[a].name@ != u[b].name@ by {
        assert(u[a].name@ == s[a].name@ && u[b].name@ == s[b].name@);
    }
    lemma_profiles_map(s);
    lemma_profiles_map(u);
    let m = profiles_map(s).insert(p.name@, paths_of(p.files@));
    assert forall|k: Seq<char>| profiles_map(u).contains_key(k) <==> m.contains_key(k) by {
        if m.contains_key(k) && k != p.name@ {
            let j = choose|j: int| 0 <= j < s.len() && (#[trigger] s[j]).name@ == k;
            assert(u[j].name@ == k);
        }
        if profiles_map(u).contains_key(k) {
            let j = choose|j: int| 0 <= j < u.len() && (#[trigger] u[j]).name@ == k;
            assert(s[j].name@ == k);
        }
        if k == p.name@ {
            assert(u[i].name@ == k);
        }
    }
    assert forall|k: Seq<char>| #[trigger] profiles_map(u).contains_key(k) implies profiles_map(u)[k]
        == m[k] by {
        let j = choose|j: int| 0 <= j < u.len() && (#[trigger] u[j]).name@ == k;
        if j != i {
            assert(u[j] == s[j]);
        }
    }
    assert(profiles_map(u) =~= m);
}

/// Removing the profile at `i` removes its entry.
pub proof fn lemma_profiles_map_remove(s: Seq<Profile>, i: int)
    requires
        names_unique(s),
        0 <= i < s.len(),
    ensures
        names_unique(s.remove(i)),
        profiles_map(s.remove(i)) == profiles_map(s).remove(s[i].name@),
{
    let u = s.remove(i);
    assert forall|a: int, b: int|
        0 <= a < u.len() && 0 <= b < u.len() && a != b implies u[a].name@ != u[b].name@ by {
        let a2 = if a < i { a } else { a + 1 };
        let b2 = if b < i { b } else { b + 1 };
        assert(u[a] == s[a2] && u[b] == s[b2]);
    }
    lemma_profiles_map(s);
    lemma_profiles_map(u);
    let m = profiles_map(s).remove(s[i].name@);
    assert forall|k: Seq<char>| profiles_map(u).contains_key(k) <==> m.contains_key(k) by {
        if m.contains_key(k) {
            let j = choose|j: int| 0 <= j < s.len() && (#[trigger] s[j]).name@ == k;
            assert(j != i);
            let j2 = if j < i { j } else { j - 1 };
            assert(u[j2] == s[j]);
        }
        if profiles_map(u).contains_key(k) {
            let j = choose|j: int| 0 <= j < u.len() && (#[trigger] u[j]).name@ == k;
            let j2 = if j < i { j } else { j + 1 };
            assert(u[j] == s[j2]);
        }
    }
    assert forall|k: Seq<char>| #[trigger] profiles_map(u).contains_key(k) implies profiles_map(u)[k]
        == m[k] by {
        let j = choose|j: int| 0 <= j < u.len() && (#[trigger] u[j]).name@ == k;
        let j2 = if j < i { j } else { j + 1 };
        assert(u[j] == s[j2]);
    }
    assert(profiles_map(u) =~= m);
}

impl Registry {
    /// The profiles' names are unique.
    pub open spec fn wf(&self) -> bool {
        names_unique(self.profiles@)
    }

    /// An empty registry.
    pub fn new() -> (r: Registry)
        ensures
            r.wf(),
            r@ == Map::<Seq<char>, Seq<Seq<char>>>::empty(),
    {
        Registry { profiles: Vec::new() }
    }

    /// The position of the profile called `name`, if there is one.
    pub fn find_profile(&self, name: &String) -> (r: Option<usize>)
        requires
            self.wf(),
        ensures
            match r {
                Some(i) => i < self.profiles.len() && self.profiles[i as int].name@ == name@,
                None => !self@.contains_key(name@),
            },
    {
        proof {
            lemma_profiles_map(self.profiles@);
        }
        let mut i: usize = 0;
        while i < self.profiles.len()
            invariant
                i <= self.profiles.len(),
                forall|j: int| 0 <= j < i ==> (#[trigger] self.profiles[j]).name@ != name@,
            decreases self.profiles.len() - i,
        {
            if self.profiles[i].name == *name {
                return Some(i);
            }
            i = i + 1;
        }
        None
    }

    /// Sets the file list of the profile `name`, creating the profile if it
    /// is absent.
    pub fn set_profile(&mut self, name: String, files: Vec<String>)
        requires
            old(self).wf(),
        ensures
            final(self).wf(),
            final(self)@ == old(self)@.insert(name@, paths_of(files@)),
    {
        match self.find_profile(&name) {
            Some(i) => {
                proof {
                    lemma_profiles_map_update(
                        self.profiles@,
                        i as int,
                        Profile { name: self.profiles[i as int].name, files },
                    );
                }
                self.profiles[i].files = files;
                assert(self.profiles@ == old(self).profiles@.update(
                    i as int,
                    Profile { name: old(self).profiles[i as int].name, files },
                ));
            },
            None => {
                proof {
                    lemma_profiles_map(self.profiles@);
                }
                let p = Profile { name, files };
                self.profiles.push(p);
                assert(self.profiles@.drop_last() =~= old(self).profiles@);
                assert forall|a: int, b: int|
                    0 <= a < self.profiles.len() && 0 <= b < self.profiles.len() && a != b implies
                    self.profiles[a].name@ != self.profiles[b].name@ by {
                    if a < old(self).profiles.len() && b < old(self).profiles.len() {
                        assert(self.profiles[a] == old(self).profiles[a]);
                        assert(self.profiles[b] == old(self).profiles[b]);
                    } else if a < old(self).profiles.len() {
                        assert(self.profiles[a] == old(self).profiles[a]);
                    } else if b < old(self).profiles.len() {
                        assert(self.profiles[b] == old(self).profiles[b]);
                    }
                }
            },
        }
    }
}

} // verus!
