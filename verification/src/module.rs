//! Modules: dictionaries arranged in a tree. A name is looked up in a module
//! and then in its ancestors.
use vstd::prelude::*;
use crate::dictionary::{Dictionary, spec_get};
use crate::objects::WordId;
use crate::text::{chars_eq, copy_chars, slice_chars};

verus! {

/// A module: its parent, its submodules by name and its dictionary.
#[derive(Debug)]
pub struct Module {
    pub parent: Option<usize>,
    pub submodules: Vec<(Vec<char>, usize)>,
    pub dict: Dictionary,
}

/// All modules of an interpreter; a module is referred to by its index.
#[derive(Debug)]
pub struct Modules {
    pub mods: Vec<Module>,
}

/// A reference to a module: its index among the modules.
#[derive(Debug, Clone, Copy, PartialEq, Eq, Structural)]
pub struct ModuleRef(pub usize);

/// A path leads to a module that exists.
pub proof fn lemma_access_range(mods: Seq<Module>, m: int, path: Seq<char>)
    ensures
        spec_access(mods, m, path) matches Some(t) ==> 0 <= t < mods.len(),
    decreases path.len(),
{
    if 0 <= m < mods.len() && path.len() > 0 {
        let k = colon_pos(path);
        lemma_colon_pos(path);
        let name = path.subrange(0, k);
        let rest = if k < path.len() {
            path.subrange(k + 1, path.len() as int)
        } else {
            Seq::empty()
        };
        if name.len() == 0 {
            lemma_access_range(mods, m, rest);
        } else {
            match sub_get(mods[m].submodules@, name) {
                Some(sm) => lemma_access_range(mods, sm as int, rest),
                None => {},
            }
        }
    }
}

impl Modules {
    /// A parent comes before its children, and submodules exist.
    pub open spec fn wf(&self) -> bool {
        &&& forall|i: int|
            0 <= i < self.mods@.len() ==> {
                &&& (#[trigger] self.mods@[i]).parent matches Some(p) ==> p < i
                &&& forall|j: int| 0 <= j < self.mods@[i].submodules@.len() ==> #[trigger] self.mods@[i].submodules@[j].1
                    < self.mods@.len()
            }
        &&& forall|i: int| 0 <= i < self.mods@.len() ==> crate::dictionary::unique_keys(#[trigger] self.mods@[i].dict@)
    }

    /// No modules yet.
    pub fn new() -> (r: Modules)
        ensures
            r.wf(),
            r.mods@.len() == 0,
    {
        Modules { mods: Vec::new() }
    }
}

/// The entry that a name stands for in module `m`: its own, or else the one
/// it stands for in the parent.
pub open spec fn mod_lookup(mods: Seq<Module>, m: int, key: Seq<char>) -> Option<WordId>
    decreases m,
{
    if m < 0 || m >= mods.len() {
        None
    } else {
        match spec_get(mods[m].dict@, key) {
            Some(w) => Some(w),
            None => match mods[m].parent {
                Some(p) => if 0 <= p < m {
                    mod_lookup(mods, p as int, key)
                } else {
                    None
                },
                None => None,
            },
        }
    }
}

/// The names of a module's own dictionary, in order.
pub open spec fn own_keys(m: Module) -> Seq<Seq<char>> {
    m.dict@.map_values(|p: (Seq<char>, WordId)| p.0)
}

/// The names visible in module `m`: those of the ancestors, then its own.
pub open spec fn mod_keys(mods: Seq<Module>, m: int) -> Seq<Seq<char>>
    decreases m,
{
    if m < 0 || m >= mods.len() {
        Seq::empty()
    } else {
        let own = own_keys(mods[m]);
        match mods[m].parent {
            Some(p) => if 0 <= p < m {
                mod_keys(mods, p as int) + own
            } else {
                own
            },
            None => own,
        }
    }
}

/// The submodule of the given name: that of the first pair with the name.
pub open spec fn sub_get(v: Seq<(Vec<char>, usize)>, k: Seq<char>) -> Option<usize>
    decreases v.len(),
{
    if v.len() == 0 {
        None
    } else if v[0].0@ == k {
        Some(v[0].1)
    } else {
        sub_get(v.drop_first(), k)
    }
}

/// Finds the submodule of the given name.
fn find_submodule(subs: &Vec<(Vec<char>, usize)>, name: &[char]) -> (r: Option<usize>)
    ensures
        match r {
            Some(i) => i < subs@.len() && subs@[i as int].0@ == name@ && sub_get(subs@, name@) == Some(
                subs@[i as int].1,
            ) && forall|j: int| 0 <= j < i ==> subs@[j].0@ != name@,
            None => sub_get(subs@, name@) is None,
        },
{
    let mut i: usize = 0;
    assert(subs@.subrange(0, subs@.len() as int) == subs@);
    while i < subs.len()
        invariant
            i <= subs@.len(),
            sub_get(subs@, name@) == sub_get(subs@.subrange(i as int, subs@.len() as int), name@),
            forall|j: int| 0 <= j < i ==> subs@[j].0@ != name@,
        decreases subs@.len() - i,
    {
        let ghost rest = subs@.subrange(i as int, subs@.len() as int);
        assert(rest[0] == subs@[i as int]);
        if chars_eq(subs[i].0.as_slice(), name) {
            return Some(i);
        }
        assert(rest.drop_first() == subs@.subrange(i + 1, subs@.len() as int));
        i = i + 1;
    }
    None
}

/// The index of the first `:` in `p`, or its length.
pub open spec fn colon_pos(p: Seq<char>) -> int
    decreases p.len(),
{
    if p.len() == 0 {
        0
    } else if p[0] == ':' {
        0
    } else {
        1 + colon_pos(p.drop_first())
    }
}

proof fn lemma_colon_pos(p: Seq<char>)
    ensures
        0 <= colon_pos(p) <= p.len(),
        colon_pos(p) < p.len() ==> p[colon_pos(p)] == ':',
        forall|j: int| 0 <= j < colon_pos(p) ==> p[j] != ':',
    decreases p.len(),
{
    if p.len() > 0 && p[0] != ':' {
        lemma_colon_pos(p.drop_first());
        assert forall|j: int| 0 <= j < colon_pos(p) implies p[j] != ':' by {
            if j > 0 {
                assert(p[j] == p.drop_first()[j - 1]);
            }
        }
    }
}

/// The module that a path of names separated by `:` leads to from `m`;
/// empty names stay where they are.
pub open spec fn spec_access(mods: Seq<Module>, m: int, path: Seq<char>) -> Option<int>
    decreases path.len(),
{
    if m < 0 || m >= mods.len() {
        None
    } else if path.len() == 0 {
        Some(m)
    } else {
        let k = colon_pos(path);
        let name = path.subrange(0, k);
        let rest = if k < path.len() {
            path.subrange(k + 1, path.len() as int)
        } else {
            Seq::empty()
        };
        if 0 <= k <= path.len() {
            if name.len() == 0 {
                spec_access(mods, m, rest)
            } else {
                match sub_get(mods[m].submodules@, name) {
                    Some(s) => spec_access(mods, s as int, rest),
                    None => None,
                }
            }
        } else {
            None
        }
    }
}

impl Modules {
    /// The entry that a name stands for in module `m` or its ancestors.
    pub fn lookup_from(&self, m: usize, key: &[char]) -> (r: Option<WordId>)
        requires
            self.wf(),
        ensures
            r == mod_lookup(self.mods@, m as int, key@),
        decreases m,
    {
        if m >= self.mods.len() {
            return None;
        }
        match self.mods[m].dict.lookup(key) {
            Some(w) => Some(w),
            None => match self.mods[m].parent {
                Some(p) => {
                    assert(self.mods@[m as int].parent matches Some(q) ==> q < m);
                    self.lookup_from(p, key)
                },
                None => None,
            },
        }
    }

    /// The names visible in module `m`.
    pub fn keys_from(&self, m: usize) -> (r: Vec<Vec<char>>)
        requires
            self.wf(),
        ensures
            r@.map_values(|v: Vec<char>| v@) == mod_keys(self.mods@, m as int),
        decreases m,
    {
        if m >= self.mods.len() {
            let e: Vec<Vec<char>> = Vec::new();
            assert(e@.map_values(|v: Vec<char>| v@) =~= Seq::<Seq<char>>::empty());
            return e;
        }
        let own = self.mods[m].dict.keys();
        let ghost ownv = self.mods@[m as int].dict@.map_values(|p: (Seq<char>, WordId)| p.0);
        assert(own@.map_values(|v: Vec<char>| v@) =~= ownv);
        match self.mods[m].parent {
            Some(p) => {
                assert(self.mods@[m as int].parent matches Some(q) ==> q < m);
                let mut all = self.keys_from(p);
                let ghost pre = all@;
                let mut i: usize = 0;
                while i < own.len()
                    invariant
                        i <= own@.len(),
                        all@.len() == pre.len() + i,
                        forall|j: int| 0 <= j < pre.len() ==> #[trigger] all@[j] == pre[j],
                        forall|j: int| 0 <= j < i ==> #[trigger] all@[pre.len() + j]@ == own@[j]@,
                    decreases own@.len() - i,
                {
                    all.push(copy_chars(own[i].as_slice()));
                    i = i + 1;
                }
                let ghost lhs = all@.map_values(|v: Vec<char>| v@);
                let ghost rhs = pre.map_values(|v: Vec<char>| v@) + own@.map_values(|v: Vec<char>| v@);
                assert forall|j: int| 0 <= j < lhs.len() implies lhs[j] == rhs[j] by {
                    if j >= pre.len() {
                        let t = j - pre.len();
                        assert(all@[pre.len() + t]@ == own@[t]@);
                    }
                }
                assert(lhs =~= rhs);
                all
            },
            None => own,
        }
    }
}

impl Module {
    /// Makes the name stand for the entry in this module.
    pub fn insert(&mut self, key: &[char], val: WordId)
        ensures
            final(self).dict@ == crate::dictionary::spec_insert(old(self).dict@, key@, val),
            final(self).parent == old(self).parent,
            final(self).submodules == old(self).submodules,
    {
        self.dict.insert(key, val)
    }

    /// The entry that the name stands for in this module.
    pub fn local_lookup(&self, key: &[char]) -> (r: Option<WordId>)
        ensures
            r == spec_get(self.dict@, key@),
    {
        self.dict.lookup(key)
    }

    /// The names of this module's own dictionary.
    pub fn local_keys(&self) -> (r: Vec<Vec<char>>)
        ensures
            r@.len() == self.dict@.len(),
            forall|i: int| 0 <= i < r@.len() ==> #[trigger] r@[i]@ == self.dict@[i].0,
    {
        self.dict.keys()
    }

    /// The entry that the name stands for here or, failing that, in the
    /// ancestors, given that this is module `m` of `modules`.
    pub fn lookup(&self, modules: &Modules, m: usize, key: &[char]) -> (r: Option<WordId>)
        requires
            modules.wf(),
            m < modules.mods@.len(),
            modules.mods@[m as int] == *self,
        ensures
            r == mod_lookup(modules.mods@, m as int, key@),
    {
        modules.lookup_from(m, key)
    }

    /// The names visible here, given that this is module `m` of `modules`.
    pub fn keys(&self, modules: &Modules, m: usize) -> (r: Vec<Vec<char>>)
        requires
            modules.wf(),
            m < modules.mods@.len(),
            modules.mods@[m as int] == *self,
        ensures
            r@.map_values(|v: Vec<char>| v@) == mod_keys(modules.mods@, m as int),
    {
        modules.keys_from(m)
    }
}

impl ModuleRef {
    /// A new root module.
    pub fn new(modules: &mut Modules) -> (r: ModuleRef)
        requires
            old(modules).wf(),
        ensures
            final(modules).wf(),
            r.0 == old(modules).mods@.len(),
            final(modules).mods@.len() == old(modules).mods@.len() + 1,
            forall|i: int| 0 <= i < old(modules).mods@.len() ==> final(modules).mods@[i] == old(modules).mods@[i],
            final(modules).mods@[r.0 as int].parent is None,
            final(modules).mods@[r.0 as int].dict@.len() == 0,
            final(modules).mods@[r.0 as int].submodules@.len() == 0,
    {
        let n = modules.mods.len();
        modules.mods.push(Module { parent: None, submodules: Vec::new(), dict: Dictionary::new() });
        proof {
            assert forall|i: int| 0 <= i < modules.mods@.len() implies {
                &&& (#[trigger] modules.mods@[i]).parent matches Some(p) ==> p < i
                &&& forall|j: int| 0 <= j < modules.mods@[i].submodules@.len() ==> #[trigger] modules.mods@[i].submodules@[j].1
                    < modules.mods@.len()
            } by {
                if i < n {
                    assert(modules.mods@[i] == old(modules).mods@[i]);
                }
            }
        }
        ModuleRef(n)
    }

    /// A new module under this one, registered under the given name.
    pub fn new_submodule(&self, modules: &mut Modules, name: &[char]) -> (r: ModuleRef)
        requires
            old(modules).wf(),
            self.0 < old(modules).mods@.len(),
        ensures
            final(modules).wf(),
            r.0 == old(modules).mods@.len(),
            final(modules).mods@.len() == old(modules).mods@.len() + 1,
            final(modules).mods@[r.0 as int].parent == Some(self.0),
            final(modules).mods@[r.0 as int].dict@.len() == 0,
            sub_get(final(modules).mods@[self.0 as int].submodules@, name@) == Some(r.0),
            forall|i: int|
                0 <= i < old(modules).mods@.len() ==> #[trigger] final(modules).mods@[i].dict == old(
                    modules,
                ).mods@[i].dict && final(modules).mods@[i].parent == old(modules).mods@[i].parent,
    {
        let n = modules.mods.len();
        let ghost old_mods = modules.mods@;
        modules.mods.push(Module { parent: Some(self.0), submodules: Vec::new(), dict: Dictionary::new() });
        let mut subs = Vec::new();
        std::mem::swap(&mut subs, &mut modules.mods[self.0].submodules);
        let ghost old_subs = subs@;
        match find_submodule(&subs, name) {
            Some(i) => {
                subs.set(i, (copy_chars(name), n));
                proof {
                    lemma_sub_get_set_view(old_subs, subs@, i as int, name@, n);
                }
            },
            None => {
                subs.push((copy_chars(name), n));
                proof {
                    lemma_sub_get_push(old_subs, subs@, name@, n);
                }
            },
        }
        std::mem::swap(&mut subs, &mut modules.mods[self.0].submodules);
        proof {
            assert forall|i: int| 0 <= i < modules.mods@.len() implies {
                &&& (#[trigger] modules.mods@[i]).parent matches Some(p) ==> p < i
                &&& forall|j: int| 0 <= j < modules.mods@[i].submodules@.len() ==> #[trigger] modules.mods@[i].submodules@[j].1
                    < modules.mods@.len()
            } by {
                if i < n && i != self.0 {
                    assert(modules.mods@[i] == old_mods[i]);
                }
                if i == self.0 {
                    assert forall|j: int| 0 <= j < modules.mods@[i].submodules@.len() implies #[trigger] modules.mods@[i].submodules@[j].1
                        < modules.mods@.len() by {
                        if j < old_subs.len() && modules.mods@[i].submodules@[j].1 != n {
                            assert(modules.mods@[i].submodules@[j] == old_subs[j]);
                            assert(old_mods[i].submodules@[j].1 < n);
                        }
                    }
                }
            }
        }
        ModuleRef(n)
    }

    /// Makes the name stand for the entry in the module.
    pub fn insert(&self, modules: &mut Modules, key: &[char], val: WordId)
        requires
            old(modules).wf(),
        ensures
            final(modules).wf(),
            final(modules).mods@.len() == old(modules).mods@.len(),
            self.0 < old(modules).mods@.len() ==> final(modules).mods@[self.0 as int].dict@
                == crate::dictionary::spec_insert(old(modules).mods@[self.0 as int].dict@, key@, val),
            forall|i: int|
                0 <= i < old(modules).mods@.len() && i != self.0 ==> #[trigger] final(modules).mods@[i] == old(
                    modules,
                ).mods@[i],
            forall|i: int|
                0 <= i < old(modules).mods@.len() ==> #[trigger] final(modules).mods@[i].parent == old(
                    modules,
                ).mods@[i].parent,
            forall|i: int|
                0 <= i < old(modules).mods@.len() ==> #[trigger] final(modules).mods@[i].submodules == old(
                    modules,
                ).mods@[i].submodules,
    {
        if self.0 >= modules.mods.len() {
            return;
        }
        let ghost old_mods = modules.mods@;
        let mut d = Dictionary::new();
        std::mem::swap(&mut d, &mut modules.mods[self.0].dict);
        d.insert(key, val);
        std::mem::swap(&mut d, &mut modules.mods[self.0].dict);
        proof {
            assert forall|i: int| 0 <= i < modules.mods@.len() implies {
                &&& (#[trigger] modules.mods@[i]).parent matches Some(p) ==> p < i
                &&& forall|j: int| 0 <= j < modules.mods@[i].submodules@.len() ==> #[trigger] modules.mods@[i].submodules@[j].1
                    < modules.mods@.len()
            } by {
                if i != self.0 {
                    assert(modules.mods@[i] == old_mods[i]);
                } else {
                    assert(modules.mods@[i].submodules == old_mods[i].submodules);
                }
            }
        }
    }

    /// The entry that the name stands for in the module or its ancestors.
    pub fn lookup(&self, modules: &Modules, key: &[char]) -> (r: Option<WordId>)
        requires
            modules.wf(),
        ensures
            r == mod_lookup(modules.mods@, self.0 as int, key@),
    {
        modules.lookup_from(self.0, key)
    }

    /// The names visible in the module.
    pub fn keys(&self, modules: &Modules) -> (r: Vec<Vec<char>>)
        requires
            modules.wf(),
        ensures
            r@.map_values(|v: Vec<char>| v@) == mod_keys(modules.mods@, self.0 as int),
    {
        modules.keys_from(self.0)
    }

    /// The entry that the name stands for in the module itself.
    pub fn local_lookup(&self, modules: &Modules, key: &[char]) -> (r: Option<WordId>)
        ensures
            self.0 < modules.mods@.len() ==> r == spec_get(modules.mods@[self.0 as int].dict@, key@),
            self.0 >= modules.mods@.len() ==> r is None,
    {
        if self.0 >= modules.mods.len() {
            return None;
        }
        modules.mods[self.0].local_lookup(key)
    }

    /// The names of the module's own dictionary.
    pub fn local_keys(&self, modules: &Modules) -> (r: Vec<Vec<char>>)
        ensures
            self.0 < modules.mods@.len() ==> r@.len() == modules.mods@[self.0 as int].dict@.len() && forall|i: int|
                0 <= i < r@.len() ==> #[trigger] r@[i]@ == modules.mods@[self.0 as int].dict@[i].0,
            self.0 >= modules.mods@.len() ==> r@.len() == 0,
    {
        if self.0 >= modules.mods.len() {
            return Vec::new();
        }
        modules.mods[self.0].local_keys()
    }

    /// The parent module, if any.
    pub fn parent(&self, modules: &Modules) -> (r: Option<ModuleRef>)
        ensures
            self.0 < modules.mods@.len() ==> r == match modules.mods@[self.0 as int].parent {
                Some(p) => Some(ModuleRef(p)),
                None => None::<ModuleRef>,
            },
            self.0 >= modules.mods@.len() ==> r is None,
    {
        if self.0 >= modules.mods.len() {
            return None;
        }
        match modules.mods[self.0].parent {
            Some(p) => Some(ModuleRef(p)),
            None => None,
        }
    }

    /// The module that a path of names separated by `:` leads to.
    pub fn access_path(&self, modules: &Modules, path: &[char]) -> (r: Option<ModuleRef>)
        ensures
            r == match spec_access(modules.mods@, self.0 as int, path@) {
                Some(m) => Some(ModuleRef(m as usize)),
                None => None::<ModuleRef>,
            },
    {
        let mut cur: usize = self.0;
        let mut rest: Vec<char> = copy_chars(path);
        loop
            invariant
                spec_access(modules.mods@, self.0 as int, path@) == spec_access(modules.mods@, cur as int, rest@),
            decreases rest@.len(),
        {
            if cur >= modules.mods.len() {
                return None;
            }
            if rest.len() == 0 {
                return Some(ModuleRef(cur));
            }
            let mut k: usize = 0;
            while k < rest.len() && rest[k] != ':'
                invariant
                    k <= rest@.len(),
                    forall|j: int| 0 <= j < k ==> rest@[j] != ':',
                decreases rest@.len() - k,
            {
                k = k + 1;
            }
            proof {
                lemma_colon_pos(rest@);
                lemma_colon_pos_is(rest@, k as int);
            }
            let name = slice_chars(rest.as_slice(), 0, k);
            let next_rest = if k < rest.len() {
                slice_chars(rest.as_slice(), k + 1, rest.len())
            } else {
                Vec::new()
            };
            if name.len() > 0 {
                match find_submodule(&modules.mods[cur].submodules, name.as_slice()) {
                    Some(i) => {
                        cur = modules.mods[cur].submodules[i].1;
                    },
                    None => {
                        return None;
                    },
                }
            }
            assert(next_rest@ =~= (if k < rest@.len() {
                rest@.subrange(k + 1, rest@.len() as int)
            } else {
                Seq::<char>::empty()
            }));
            rest = next_rest;
        }
    }
}

proof fn lemma_colon_pos_is(p: Seq<char>, k: int)
    requires
        0 <= k <= p.len(),
        k < p.len() ==> p[k] == ':',
        forall|j: int| 0 <= j < k ==> p[j] != ':',
    ensures
        colon_pos(p) == k,
{
    lemma_colon_pos(p);
    if colon_pos(p) < k {
        assert(p[colon_pos(p)] == ':');
    }
    if colon_pos(p) > k {
        assert(p[k] != ':');
    }
}

proof fn lemma_sub_get_set_view(
    old_v: Seq<(Vec<char>, usize)>,
    new_v: Seq<(Vec<char>, usize)>,
    i: int,
    name: Seq<char>,
    n: usize,
)
    requires
        0 <= i < old_v.len(),
        old_v[i].0@ == name,
        forall|j: int| 0 <= j < i ==> old_v[j].0@ != name,
        new_v.len() == old_v.len(),
        new_v[i].0@ == name,
        new_v[i].1 == n,
        forall|j: int| 0 <= j < old_v.len() && j != i ==> new_v[j] == old_v[j],
    ensures
        sub_get(new_v, name) == Some(n),
    decreases old_v.len(),
{
    if i == 0 {
    } else {
        assert(old_v[0].0@ != name);
        assert(new_v[0] == old_v[0]);
        lemma_sub_get_set_view(old_v.drop_first(), new_v.drop_first(), i - 1, name, n);
    }
}

proof fn lemma_sub_get_push(old_v: Seq<(Vec<char>, usize)>, new_v: Seq<(Vec<char>, usize)>, name: Seq<char>, n: usize)
    requires
        sub_get(old_v, name) is None,
        new_v.len() == old_v.len() + 1,
        new_v[old_v.len() as int].0@ == name,
        new_v[old_v.len() as int].1 == n,
        forall|j: int| 0 <= j < old_v.len() ==> new_v[j] == old_v[j],
    ensures
        sub_get(new_v, name) == Some(n),
    decreases old_v.len(),
{
    if old_v.len() > 0 {
        assert(new_v[0] == old_v[0]);
        lemma_sub_get_push(old_v.drop_first(), new_v.drop_first(), name, n);
    }
}

/// Lookups from a module below `m` do not see a change made to module `m`.
proof fn lemma_lookup_below(before: Seq<Module>, after: Seq<Module>, m: int, p: int, k: Seq<char>)
    requires
        after.len() == before.len(),
        forall|i: int| 0 <= i < before.len() && i != m ==> #[trigger] after[i] == before[i],
        p < m,
    ensures
        mod_lookup(after, p, k) == mod_lookup(before, p, k),
    decreases p,
{
    if 0 <= p < before.len() {
        assert(after[p] == before[p]);
        match before[p].parent {
            Some(q) => {
                if 0 <= q < p {
                    lemma_lookup_below(before, after, m, q as int, k);
                }
            },
            None => {},
        }
    }
}

/// After a name is made to stand for an entry in a module, a lookup from
/// that module gives the entry, and every other name is looked up there as
/// before.
pub proof fn law_module_lookup_after_insert(
    before: Seq<Module>,
    after: Seq<Module>,
    m: int,
    key: Seq<char>,
    val: WordId,
    other: Seq<char>,
)
    requires
        0 <= m < before.len(),
        after.len() == before.len(),
        after[m].dict@ == crate::dictionary::spec_insert(before[m].dict@, key, val),
        after[m].parent == before[m].parent,
        forall|i: int| 0 <= i < before.len() && i != m ==> #[trigger] after[i] == before[i],
    ensures
        mod_lookup(after, m, key) == Some(val),
        other != key ==> mod_lookup(after, m, other) == mod_lookup(before, m, other),
{
    crate::dictionary::law_lookup_after_insert(before[m].dict@, key, val, other);
    match before[m].parent {
        Some(p) => {
            if 0 <= p < m {
                lemma_lookup_below(before, after, m, p as int, other);
            }
        },
        None => {},
    }
}


/// Names visible from a module that is not below the changed one, by
/// position, stay as they were.
proof fn lemma_keys_below(before: Seq<Module>, after: Seq<Module>, m: int, p: int)
    requires
        after.len() == before.len(),
        forall|i: int| 0 <= i < before.len() && i != m ==> #[trigger] after[i] == before[i],
        p < m,
    ensures
        mod_keys(after, p) == mod_keys(before, p),
    decreases p,
{
    if 0 <= p < before.len() {
        assert(after[p] == before[p]);
        match before[p].parent {
            Some(q) => {
                if 0 <= q < p {
                    lemma_keys_below(before, after, m, q as int);
                }
            },
            None => {},
        }
    }
}

/// In a module, a name stands for the module's own entry if its dictionary
/// has one; a name it does not define itself stands for what it stands for
/// in the parent module (so a word of an enclosing module is visible in a
/// submodule); in the root module such a name stands for nothing.
pub proof fn law_lookup_through_parent(mods: Modules, m: int, key: Seq<char>)
    requires
        mods.wf(),
        0 <= m < mods.mods@.len(),
    ensures
        spec_get(mods.mods@[m].dict@, key) matches Some(w) ==> mod_lookup(mods.mods@, m, key) == Some(w),
        spec_get(mods.mods@[m].dict@, key) is None && mods.mods@[m].parent is Some ==> mod_lookup(mods.mods@, m, key)
            == mod_lookup(mods.mods@, mods.mods@[m].parent->Some_0 as int, key),
        spec_get(mods.mods@[m].dict@, key) is None && mods.mods@[m].parent is None ==> mod_lookup(mods.mods@, m, key) is None,
{
    assert(mods.mods@[m].parent matches Some(p) ==> p < m);
}

/// A name that some ancestor `a` of module `m` defines, and that no module
/// on the way from `m` up to `a` defines itself, stands in `m` for `a`'s
/// entry.
pub proof fn law_lookup_finds_ancestor(mods: Modules, m: int, a: int, key: Seq<char>, w: WordId)
    requires
        mods.wf(),
        0 <= a < mods.mods@.len(),
        0 <= m < mods.mods@.len(),
        is_ancestor(mods.mods@, m, a),
        spec_get(mods.mods@[a].dict@, key) == Some(w),
        forall|i: int| strictly_between(mods.mods@, m, a, i) ==> spec_get(#[trigger] mods.mods@[i].dict@, key) is None,
    ensures
        mod_lookup(mods.mods@, m, key) == Some(w),
    decreases m,
{
    if m != a {
        assert(strictly_between(mods.mods@, m, a, m));
        let p = mods.mods@[m].parent->Some_0;
        assert(mods.mods@[m].parent matches Some(q) ==> q < m);
        assert forall|i: int| strictly_between(mods.mods@, p as int, a, i) implies spec_get(#[trigger] mods.mods@[i].dict@, key) is None by {
            assert(strictly_between(mods.mods@, m, a, i));
        }
        law_lookup_finds_ancestor(mods, p as int, a, key, w);
    }
}

/// `a` is `m` or, through parents, one of its ancestors.
pub open spec fn is_ancestor(mods: Seq<Module>, m: int, a: int) -> bool
    decreases m,
{
    if m < 0 || m >= mods.len() {
        false
    } else if m == a {
        true
    } else {
        match mods[m].parent {
            Some(p) => if 0 <= p < m { is_ancestor(mods, p as int, a) } else { false },
            None => false,
        }
    }
}

/// `i` is on the way from `m` up to its ancestor `a`, `a` itself excluded.
pub open spec fn strictly_between(mods: Seq<Module>, m: int, a: int, i: int) -> bool
    decreases m,
{
    if m < 0 || m >= mods.len() || m == a {
        false
    } else if i == m {
        true
    } else {
        match mods[m].parent {
            Some(p) => if 0 <= p < m { strictly_between(mods, p as int, a, i) } else { false },
            None => false,
        }
    }
}

/// Making a name stand for an entry in a child module changes neither what
/// any name stands for in its parent (or any module made before it) nor
/// the names visible there; the names visible in the child are those of
/// its parent followed by its own.
pub proof fn law_child_insert_isolated(
    before: Seq<Module>,
    after: Seq<Module>,
    c: int,
    key: Seq<char>,
    val: WordId,
    p: usize,
    other: Seq<char>,
)
    requires
        0 <= c < before.len(),
        after.len() == before.len(),
        after[c].dict@ == crate::dictionary::spec_insert(before[c].dict@, key, val),
        after[c].parent == before[c].parent,
        before[c].parent == Some(p),
        p < c,
        forall|i: int| 0 <= i < before.len() && i != c ==> #[trigger] after[i] == before[i],
    ensures
        mod_lookup(after, p as int, other) == mod_lookup(before, p as int, other),
        mod_keys(after, p as int) == mod_keys(before, p as int),
        mod_keys(after, c) == mod_keys(after, p as int) + own_keys(after[c]),
{
    lemma_lookup_below(before, after, c, p as int, other);
    lemma_keys_below(before, after, c, p as int);
    assert(after[c].parent == Some(p));
    assert(mod_keys(after, c) == mod_keys(after, p as int) + own_keys(after[c]));
}
} // verus!
