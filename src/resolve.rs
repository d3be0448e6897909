//! Canonicalisation of ids and namespaces of modules, memoised per package.
use vstd::prelude::*;
use vstd::string::StringExecFns;
use crate::ids::{AbsId, CanonId, ModuleId};
use crate::model::ItemKind;
use crate::semantics::{
    Package, Outcome, NsLog, ns_names, res_f, path_f, ns_f, kids_f, kid_step, ns_done, ns_lookup,
    find_package, load_outcome, alias_of, is_stdlib, str_views, lemma_res_mono, lemma_res_unique,
    lemma_path_mono, lemma_ns_mono, lemma_kids_mono,
};

verus! {

/// Why an id could not be canonicalised.
#[derive(Debug)]
pub enum Failure {
    MissingPath,
    MissingExternal,
    EmptyPath,
    NotModule,
    /// A path segment that the enclosing namespace does not hold, and the names
    /// that namespace binds.
    UnknownName(String, Vec<String>),
    TooDeep,
}

/// What stops canonicalisation short of a canonical id.
#[derive(Debug)]
pub enum ResolveErr {
    /// The id leads into a standard-library package or a private convention path.
    Ignore,
    /// The package of this name has to be loaded first.
    Need(String),
    Fail(Failure),
}

pub open spec fn err_outcome(e: ResolveErr) -> Outcome {
    match e {
        ResolveErr::Ignore => Outcome::Ignored,
        ResolveErr::Need(n) => Outcome::Need(n@),
        ResolveErr::Fail(Failure::MissingPath) => Outcome::MissingPath,
        ResolveErr::Fail(Failure::MissingExternal) => Outcome::MissingExternal,
        ResolveErr::Fail(Failure::EmptyPath) => Outcome::EmptyPath,
        ResolveErr::Fail(Failure::NotModule) => Outcome::NotModule,
        ResolveErr::Fail(Failure::UnknownName(n, names)) => Outcome::UnknownName(n@, names@.map_values(|s: String| s@)),
        ResolveErr::Fail(Failure::TooDeep) => Outcome::Deep,
    }
}

pub open spec fn outcome_of(r: Result<CanonId, ResolveErr>) -> Outcome {
    match r {
        Ok(c) => Outcome::Canon(c.0),
        Err(e) => err_outcome(e),
    }
}

pub open spec fn ns_outcome(r: Result<Vec<(String, AbsId)>, ResolveErr>) -> Result<NsLog, Outcome> {
    match r {
        Ok(v) => Ok(log_view(v@)),
        Err(e) => Err(err_outcome(e)),
    }
}

pub open spec fn log_view(v: Seq<(String, AbsId)>) -> NsLog {
    v.map_values(|e: (String, AbsId)| (e.0@, e.1))
}

/// Whether some fuel derives the outcome `o` for `id` (or `o` is a give-up).
pub open spec fn derived(pkgs: Seq<Package>, id: AbsId, o: Outcome) -> bool {
    o != Outcome::Deep ==> exists|g: nat| res_f(pkgs, id, g) == o
}

pub open spec fn path_derived(pkgs: Seq<Package>, m: AbsId, segs: Seq<Seq<char>>, o: Outcome) -> bool {
    o != Outcome::Deep ==> exists|g: nat| path_f(pkgs, m, segs, g) == o
}

pub open spec fn ns_derived(pkgs: Seq<Package>, m: AbsId, vis: Seq<AbsId>, r: Result<NsLog, Outcome>) -> bool {
    ns_done(r) ==> exists|g: nat| ns_f(pkgs, m, vis, g) == r
}

/// A memoised canonicalisation.
#[derive(Clone, Copy)]
pub enum Cached {
    Id(AbsId),
    Ignore,
}

pub open spec fn cached_outcome(e: Cached) -> Outcome {
    match e {
        Cached::Id(c) => Outcome::Canon(c),
        Cached::Ignore => Outcome::Ignored,
    }
}

/// Memo tables, one row per package, indexed by local id.
pub struct Memo {
    pub resolved: Vec<Vec<Option<Cached>>>,
    pub namespaces: Vec<Vec<Option<Vec<(String, AbsId)>>>>,
}

impl Memo {
    pub open spec fn entry(&self, id: AbsId) -> Option<Cached> {
        if id.crate_idx < self.resolved@.len() && (id.item_id as int) < self.resolved@[id.crate_idx as int]@.len() {
            self.resolved@[id.crate_idx as int]@[id.item_id as int]
        } else {
            None
        }
    }

    pub open spec fn ns_entry(&self, id: AbsId) -> Option<Vec<(String, AbsId)>> {
        if id.crate_idx < self.namespaces@.len() && (id.item_id as int) < self.namespaces@[id.crate_idx as int]@.len() {
            self.namespaces@[id.crate_idx as int]@[id.item_id as int]
        } else {
            None
        }
    }

    /// Every memoised result is one that some fuel derives.
    pub open spec fn wf(&self, pkgs: Seq<Package>) -> bool {
        &&& self.resolved@.len() == pkgs.len()
        &&& self.namespaces@.len() == pkgs.len()
        &&& forall|id: AbsId| #[trigger] self.entry(id) is Some
            ==> exists|g: nat| res_f(pkgs, id, g) == cached_outcome(self.entry(id)->Some_0)
        &&& forall|id: AbsId| #[trigger] self.ns_entry(id) is Some
            ==> exists|g: nat| ns_f(pkgs, id, seq![id], g) == Ok::<NsLog, Outcome>(log_view(self.ns_entry(id)->Some_0@))
    }

    /// Empty tables for `n` packages.
    pub fn empty(n: usize) -> (r: Memo)
        ensures
            r.resolved@.len() == n,
            r.namespaces@.len() == n,
            forall|id: AbsId| r.entry(id) is None,
            forall|id: AbsId| r.ns_entry(id) is None,
    {
        let mut resolved: Vec<Vec<Option<Cached>>> = Vec::new();
        let mut namespaces: Vec<Vec<Option<Vec<(String, AbsId)>>>> = Vec::new();
        let mut i: usize = 0;
        while i < n
            invariant
                i <= n,
                resolved@.len() == i,
                namespaces@.len() == i,
                forall|j: int| 0 <= j < i ==> resolved@[j]@.len() == 0,
                forall|j: int| 0 <= j < i ==> namespaces@[j]@.len() == 0,
            decreases n - i,
        {
            resolved.push(Vec::new());
            namespaces.push(Vec::new());
            i += 1;
        }
        Memo { resolved, namespaces }
    }

    fn get(&self, id: AbsId) -> (r: Option<Cached>)
        ensures
            r == self.entry(id),
    {
        let p = id.crate_idx;
        let i = id.item_id as usize;
        if p < self.resolved.len() && i < self.resolved[p].len() {
            self.resolved[p][i]
        } else {
            None
        }
    }

    fn set(&mut self, id: AbsId, e: Cached)
        requires
            id.crate_idx < old(self).resolved@.len(),
        ensures
            final(self).resolved@.len() == old(self).resolved@.len(),
            final(self).namespaces == old(self).namespaces,
            forall|x: AbsId| #[trigger] final(self).entry(x) == if x == id { Some(e) } else { old(self).entry(x) },
    {
        let p = id.crate_idx;
        let i = id.item_id as usize;
        let ghost row0 = self.resolved@[p as int]@;
        while self.resolved[p].len() <= i
            invariant
                p < self.resolved@.len(),
                self.resolved@.len() == old(self).resolved@.len(),
                forall|q: int| 0 <= q < self.resolved@.len() && q != p ==> self.resolved@[q] == old(self).resolved@[q],
                row0 == old(self).resolved@[p as int]@,
                self.resolved@[p as int]@.len() >= row0.len(),
                forall|j: int| 0 <= j < row0.len() ==> self.resolved@[p as int]@[j] == row0[j],
                forall|j: int| row0.len() <= j < self.resolved@[p as int]@.len() ==> self.resolved@[p as int]@[j] is None,
                self.namespaces == old(self).namespaces,
            decreases i + 1 - self.resolved@[p as int]@.len(),
        {
            self.resolved[p].push(None);
        }
        self.resolved[p].set(i, Some(e));
        assert forall|x: AbsId| #[trigger] self.entry(x) == if x == id { Some(e) } else { old(self).entry(x) } by {
            if x.crate_idx == p && x != id {
                assert(x.item_id != id.item_id);
            }
        }
    }

    fn set_ns(&mut self, id: AbsId, v: Vec<(String, AbsId)>)
        requires
            id.crate_idx < old(self).namespaces@.len(),
        ensures
            final(self).namespaces@.len() == old(self).namespaces@.len(),
            final(self).resolved == old(self).resolved,
            forall|x: AbsId| #[trigger] final(self).ns_entry(x) == if x == id { Some(v) } else { old(self).ns_entry(x) },
    {
        let p = id.crate_idx;
        let i = id.item_id as usize;
        let ghost row0 = self.namespaces@[p as int]@;
        while self.namespaces[p].len() <= i
            invariant
                p < self.namespaces@.len(),
                self.namespaces@.len() == old(self).namespaces@.len(),
                forall|q: int| 0 <= q < self.namespaces@.len() && q != p ==> self.namespaces@[q] == old(self).namespaces@[q],
                row0 == old(self).namespaces@[p as int]@,
                self.namespaces@[p as int]@.len() >= row0.len(),
                forall|j: int| 0 <= j < row0.len() ==> self.namespaces@[p as int]@[j] == row0[j],
                forall|j: int| row0.len() <= j < self.namespaces@[p as int]@.len() ==> self.namespaces@[p as int]@[j] is None,
                self.resolved == old(self).resolved,
            decreases i + 1 - self.namespaces@[p as int]@.len(),
        {
            self.namespaces[p].push(None);
        }
        self.namespaces[p].set(i, Some(v));
        assert forall|x: AbsId| #[trigger] self.ns_entry(x) == if x == id { Some(v) } else { old(self).ns_entry(x) } by {
            if x.crate_idx == p && x != id {
                assert(x.item_id != id.item_id);
            }
        }
    }
}

/// The most recent binding of `name` in the namespace `ns`.
pub fn lookup_name(ns: &Vec<(String, AbsId)>, name: &String) -> (r: Option<AbsId>)
    ensures
        r == ns_lookup(log_view(ns@), name@),
{
    let ghost full = log_view(ns@);
    assert(full.subrange(0, ns@.len() as int) =~= full);
    let mut i: usize = ns.len();
    while i > 0
        invariant
            i <= ns@.len(),
            full == log_view(ns@),
            ns_lookup(full, name@) == ns_lookup(full.subrange(0, i as int), name@),
        decreases i,
    {
        let ghost pre = full.subrange(0, i as int);
        assert(pre.drop_last() =~= full.subrange(0, i - 1));
        if ns[i - 1].0 == *name {
            return Some(ns[i - 1].1);
        }
        i -= 1;
    }
    assert(full.subrange(0, 0) =~= Seq::<(Seq<char>, AbsId)>::empty());
    None
}

/// Position of the first package named `name`.
pub fn find_package_exec(pkgs: &Vec<Package>, name: &String) -> (r: Option<usize>)
    ensures
        r matches Some(i) ==> find_package(pkgs@, name@, pkgs@.len()) == Some(i as int) && i < pkgs@.len(),
        r is None ==> find_package(pkgs@, name@, pkgs@.len()) is None,
{
    let mut i: usize = 0;
    while i < pkgs.len()
        invariant
            i <= pkgs@.len(),
            find_package(pkgs@, name@, i as nat) is None,
        decreases pkgs@.len() - i,
    {
        if pkgs[i].name == *name {
            assert(find_package(pkgs@, name@, (i + 1) as nat) == Some(i as int));
            proof {
                lemma_find_package_stays(pkgs@, name@, (i + 1) as nat, pkgs@.len());
            }
            return Some(i);
        }
        i += 1;
    }
    None
}

proof fn lemma_find_package_stays(pkgs: Seq<Package>, name: Seq<char>, n: nat, m: nat)
    requires
        n <= m,
        find_package(pkgs, name, n) is Some,
    ensures
        find_package(pkgs, name, m) == find_package(pkgs, name, n),
    decreases m - n,
{
    if n < m {
        lemma_find_package_stays(pkgs, name, n, (m - 1) as nat);
    }
}

/// Whether `name` is a standard-library package.
pub fn is_stdlib_name(name: &String) -> (r: bool)
    ensures
        r == is_stdlib(name@),
{
    proof {
        reveal_strlit("std");
        reveal_strlit("core");
        reveal_strlit("alloc");
        reveal_strlit("proc_macro");
        reveal_strlit("test");
    }
    *name == String::from_str("std") || *name == String::from_str("core") || *name == String::from_str("alloc")
        || *name == String::from_str("proc_macro") || *name == String::from_str("test")
}

/// Applies the package-name aliases.
pub fn alias(name: &String) -> (r: String)
    ensures
        r@ == alias_of(name@),
{
    if *name == String::from_str("webpki") {
        String::from_str("rustls_webpki")
    } else {
        name.clone()
    }
}

/// The root module of the loaded package named `name`, after aliasing.
pub fn load_root(pkgs: &Vec<Package>, name: &String) -> (r: Result<ModuleId, ResolveErr>)
    ensures
        outcome_of(match r { Ok(m) => Ok(m.0), Err(e) => Err(e) }) == load_outcome(pkgs@, name@),
{
    let n = alias(name);
    if is_stdlib_name(&n) {
        return Err(ResolveErr::Ignore);
    }
    match find_package_exec(pkgs, &n) {
        Some(i) => Ok(ModuleId(CanonId(AbsId { crate_idx: i, item_id: pkgs[i].root }))),
        None => Err(ResolveErr::Need(n)),
    }
}

/// The path segments of `path` from position `k` on.
pub open spec fn segs_from(path: Seq<String>, k: int) -> Seq<Seq<char>> {
    str_views(path).subrange(k, path.len() as int)
}

proof fn lemma_kids_err_propagates(pkgs: Seq<Package>, m: AbsId, kids: Seq<u32>, i: nat, n: nat, vis: Seq<AbsId>, f: nat)
    requires
        i <= n,
        kids_f(pkgs, m, kids, i, vis, f) is Err,
    ensures
        kids_f(pkgs, m, kids, n, vis, f) == kids_f(pkgs, m, kids, i, vis, f),
    decreases n - i,
{
    if i < n {
        lemma_kids_err_propagates(pkgs, m, kids, i, (n - 1) as nat, vis, f);
    }
}

/// No two fuels compute different namespaces for one module.
pub proof fn lemma_ns_unique(pkgs: Seq<Package>, m: AbsId, vis: Seq<AbsId>, f1: nat, f2: nat)
    requires
        ns_done(ns_f(pkgs, m, vis, f1)),
        ns_done(ns_f(pkgs, m, vis, f2)),
    ensures
        ns_f(pkgs, m, vis, f1) == ns_f(pkgs, m, vis, f2),
{
    if f1 <= f2 {
        lemma_ns_mono(pkgs, m, vis, f1, f2);
    } else {
        lemma_ns_mono(pkgs, m, vis, f2, f1);
    }
}

/// Whether `vis` holds `g`.
fn contains_id(vis: &Vec<AbsId>, g: AbsId) -> (r: bool)
    ensures
        r == vis@.contains(g),
{
    let mut i: usize = 0;
    while i < vis.len()
        invariant
            i <= vis@.len(),
            forall|j: int| 0 <= j < i ==> vis@[j] != g,
        decreases vis@.len() - i,
    {
        if vis[i] == g {
            assert(vis@[i as int] == g);
            return true;
        }
        i += 1;
    }
    false
}

/// Canonicalises `id`, consulting and filling the memo tables.
///
/// The result is the outcome that fuel `fuel` derives whenever that fuel suffices,
/// and otherwise `TooDeep` or the outcome that some larger fuel derives.
pub fn resolve_in(pkgs: &Vec<Package>, memo: &mut Memo, id: AbsId, fuel: u64) -> (r: Result<CanonId, ResolveErr>)
    requires
        old(memo).wf(pkgs@),
    ensures
        final(memo).wf(pkgs@),
        derived(pkgs@, id, outcome_of(r)),
        res_f(pkgs@, id, fuel as nat) != Outcome::Deep ==> outcome_of(r) == res_f(pkgs@, id, fuel as nat),
        old(memo).entry(id) is Some ==> outcome_of(r) == cached_outcome(old(memo).entry(id)->Some_0)
            && *final(memo) == *old(memo),
    decreases fuel, 1nat,
{
    if let Some(e) = memo.get(id) {
        proof {
            let g = choose|g: nat| res_f(pkgs@, id, g) == cached_outcome(e);
            if res_f(pkgs@, id, fuel as nat) != Outcome::Deep {
                lemma_res_unique(pkgs@, id, g, fuel as nat);
            }
        }
        return match e {
            Cached::Id(c) => Ok(CanonId(c)),
            Cached::Ignore => Err(ResolveErr::Ignore),
        };
    }
    let r = resolve_uncached(pkgs, memo, id, fuel);
    if id.crate_idx < pkgs.len() {
        let e = match &r {
            Ok(c) => Some(Cached::Id(c.0)),
            Err(ResolveErr::Ignore) => Some(Cached::Ignore),
            _ => None,
        };
        if let Some(e) = e {
            let ghost before = *memo;
            memo.set(id, e);
            assert forall|x: AbsId| #[trigger] memo.entry(x) is Some implies exists|g: nat| res_f(pkgs@, x, g) == cached_outcome(memo.entry(x)->Some_0) by {
                if x != id {
                    assert(before.entry(x) == memo.entry(x));
                }
            }
            assert forall|x: AbsId| #[trigger] memo.ns_entry(x) is Some implies exists|g: nat| ns_f(pkgs@, x, seq![x], g) == Ok::<NsLog, Outcome>(log_view(memo.ns_entry(x)->Some_0@)) by {
                assert(before.ns_entry(x) == memo.ns_entry(x));
            }
        }
    }
    r
}

fn resolve_uncached(pkgs: &Vec<Package>, memo: &mut Memo, id: AbsId, fuel: u64) -> (r: Result<CanonId, ResolveErr>)
    requires
        old(memo).wf(pkgs@),
    ensures
        final(memo).wf(pkgs@),
        derived(pkgs@, id, outcome_of(r)),
        res_f(pkgs@, id, fuel as nat) != Outcome::Deep ==> outcome_of(r) == res_f(pkgs@, id, fuel as nat),
    decreases fuel, 0nat,
{
    if id.crate_idx >= pkgs.len() {
        let r = Err(ResolveErr::Fail(Failure::MissingPath));
        assert(res_f(pkgs@, id, 0) == outcome_of(r));
        return r;
    }
    let doc = &pkgs[id.crate_idx].doc;
    match doc.get_item(id.item_id) {
        Some(item) => match &item.kind {
            ItemKind::ExternCrate { name, .. } => {
                let r = match load_root(pkgs, name) {
                    Ok(m) => Ok(m.0),
                    Err(e) => Err(e),
                };
                assert(res_f(pkgs@, id, 0) == outcome_of(r));
                r
            },
            ItemKind::Use { id: target, is_glob, .. } => {
                if *is_glob {
                    let r = Ok(CanonId(id));
                    assert(res_f(pkgs@, id, 0) == outcome_of(r));
                    r
                } else {
                    match target {
                        Some(t) => {
                            if fuel == 0 {
                                return Err(ResolveErr::Fail(Failure::TooDeep));
                            }
                            let tid = id.same_crate(*t);
                            let r = resolve_in(pkgs, memo, tid, fuel - 1);
                            proof {
                                if outcome_of(r) != Outcome::Deep {
                                    let g = choose|g: nat| res_f(pkgs@, tid, g) == outcome_of(r);
                                    assert(res_f(pkgs@, id, g + 1) == res_f(pkgs@, tid, g));
                                }
                            }
                            r
                        },
                        None => {
                            let r = Err(ResolveErr::Ignore);
                            assert(res_f(pkgs@, id, 0) == outcome_of(r));
                            r
                        },
                    }
                }
            },
            _ => {
                let r = Ok(CanonId(id));
                assert(res_f(pkgs@, id, 0) == outcome_of(r));
                r
            },
        },
        None => match doc.get_path(id.item_id) {
            None => {
                let r = Err(ResolveErr::Fail(Failure::MissingPath));
                assert(res_f(pkgs@, id, 0) == outcome_of(r));
                r
            },
            Some(ps) => match doc.get_external_name(ps.crate_id) {
                None => {
                    let r = Err(ResolveErr::Fail(Failure::MissingExternal));
                    assert(res_f(pkgs@, id, 0) == outcome_of(r));
                    r
                },
                Some(name) => match load_root(pkgs, name) {
                    Err(e) => {
                        let r = Err(e);
                        assert(res_f(pkgs@, id, 0) == outcome_of(r));
                        r
                    },
                    Ok(m) => {
                        if ps.path.len() == 0 {
                            let r = Err(ResolveErr::Fail(Failure::EmptyPath));
                            assert(res_f(pkgs@, id, 0) == outcome_of(r));
                            return r;
                        }
                        if fuel == 0 {
                            return Err(ResolveErr::Fail(Failure::TooDeep));
                        }
                        let r = resolve_path_in(pkgs, memo, m.0.0, &ps.path, 1, fuel - 1);
                        proof {
                            let segs = str_views(ps.path@).drop_first();
                            assert(segs =~= segs_from(ps.path@, 1));
                            if outcome_of(r) != Outcome::Deep {
                                let g = choose|g: nat| path_f(pkgs@, m.0.0, segs_from(ps.path@, 1), g) == outcome_of(r);
                                assert(res_f(pkgs@, id, g + 1) == path_f(pkgs@, m.0.0, segs, g));
                            }
                        }
                        r
                    },
                },
            },
        },
    }
}

/// Resolves the segments of `path` from position `k` on, starting at the module `m`.
pub fn resolve_path_in(pkgs: &Vec<Package>, memo: &mut Memo, m: AbsId, path: &Vec<String>, k: usize, fuel: u64) -> (r: Result<CanonId, ResolveErr>)
    requires
        old(memo).wf(pkgs@),
        k <= path@.len(),
    ensures
        final(memo).wf(pkgs@),
        path_derived(pkgs@, m, segs_from(path@, k as int), outcome_of(r)),
        path_f(pkgs@, m, segs_from(path@, k as int), fuel as nat) != Outcome::Deep
            ==> outcome_of(r) == path_f(pkgs@, m, segs_from(path@, k as int), fuel as nat),
    decreases fuel, 0nat,
{
    let ghost segs = segs_from(path@, k as int);
    if k >= path.len() {
        assert(path_f(pkgs@, m, segs, 0) == Outcome::Canon(m));
        return Ok(CanonId(m));
    }
    assert(segs[0] == path@[k as int]@);
    let private = String::from_str("__private");
    if path[k] == private {
        proof {
            reveal_strlit("__private");
        }
        assert(path_f(pkgs@, m, segs, 0) == Outcome::Ignored);
        return Err(ResolveErr::Ignore);
    }
    proof {
        reveal_strlit("__private");
    }
    if fuel == 0 {
        return Err(ResolveErr::Fail(Failure::TooDeep));
    }
    let nr = module_namespace(pkgs, memo, m, fuel - 1);
    match nr {
        Err(e) => {
            proof {
                if err_outcome(e) != Outcome::Deep {
                    let g = choose|g: nat| ns_f(pkgs@, m, seq![m], g) == Err::<NsLog, Outcome>(err_outcome(e));
                    assert(path_f(pkgs@, m, segs, g + 1) == err_outcome(e));
                }
            }
            Err(e)
        },
        Ok(()) => {
            let found = lookup_memo(memo, m, &path[k]);
            let ghost v = memo.ns_entry(m)->Some_0;
            let ghost gn = choose|g: nat| ns_f(pkgs@, m, seq![m], g) == Ok::<NsLog, Outcome>(log_view(v@));
            match found {
                None => {
                    let names = memo_names(memo, m);
                    let r = Err(ResolveErr::Fail(Failure::UnknownName(path[k].clone(), names)));
                    assert(path_f(pkgs@, m, segs, gn + 1) == outcome_of(r));
                    proof {
                        if path_f(pkgs@, m, segs, fuel as nat) != Outcome::Deep {
                            lemma_ns_unique(pkgs@, m, seq![m], gn, (fuel - 1) as nat);
                        }
                    }
                    r
                },
                Some(c) => {
                    let r = resolve_path_in(pkgs, memo, c, path, k + 1, fuel - 1);
                    proof {
                        assert(segs.drop_first() =~= segs_from(path@, k + 1));
                        if path_f(pkgs@, m, segs, fuel as nat) != Outcome::Deep {
                            lemma_ns_unique(pkgs@, m, seq![m], gn, (fuel - 1) as nat);
                        }
                        if outcome_of(r) != Outcome::Deep {
                            let gp = choose|g: nat| #[trigger] path_f(pkgs@, c, segs_from(path@, k + 1), g) == outcome_of(r);
                            let big = if gp > gn { gp } else { gn };
                            lemma_ns_mono(pkgs@, m, seq![m], gn, big);
                            lemma_path_mono(pkgs@, c, segs_from(path@, k + 1), gp, big);
                            assert(path_f(pkgs@, m, segs, big + 1) == outcome_of(r));
                        }
                    }
                    r
                },
            }
        },
    }
}

/// The names that the memoised namespace of `m` binds, in order.
fn memo_names(memo: &Memo, m: AbsId) -> (r: Vec<String>)
    requires
        memo.ns_entry(m) is Some,
    ensures
        r@.map_values(|s: String| s@) == ns_names(log_view(memo.ns_entry(m)->Some_0@)),
{
    let row = &memo.namespaces[m.crate_idx];
    let v = match &row[m.item_id as usize] {
        Some(v) => v,
        None => {
            return Vec::new();
        },
    };
    let ghost target = ns_names(log_view(v@));
    let mut r: Vec<String> = Vec::new();
    let mut i: usize = 0;
    while i < v.len()
        invariant
            i <= v@.len(),
            target == ns_names(log_view(v@)),
            r@.map_values(|s: String| s@) == target.subrange(0, i as int),
        decreases v@.len() - i,
    {
        assert(target[i as int] == log_view(v@)[i as int].0);
        let ghost r0 = r@;
        r.push(v[i].0.clone());
        assert(r@.map_values(|s: String| s@) =~= r0.map_values(|s: String| s@).push(target[i as int]));
        i += 1;
        assert(r@.map_values(|s: String| s@) =~= target.subrange(0, i as int));
    }
    assert(target.subrange(0, v@.len() as int) =~= target);
    r
}

/// Looks `name` up in the memoised namespace of `m`.
fn lookup_memo(memo: &Memo, m: AbsId, name: &String) -> (r: Option<AbsId>)
    requires
        memo.ns_entry(m) is Some,
    ensures
        r == ns_lookup(log_view(memo.ns_entry(m)->Some_0@), name@),
{
    let row = &memo.namespaces[m.crate_idx];
    match &row[m.item_id as usize] {
        Some(v) => lookup_name(v, name),
        None => None,
    }
}

/// Makes sure that the memo tables hold the namespace of the module `m`.
pub fn module_namespace(pkgs: &Vec<Package>, memo: &mut Memo, m: AbsId, fuel: u64) -> (r: Result<(), ResolveErr>)
    requires
        old(memo).wf(pkgs@),
    ensures
        final(memo).wf(pkgs@),
        r is Ok ==> final(memo).ns_entry(m) is Some,
        r is Ok && ns_done(ns_f(pkgs@, m, seq![m], fuel as nat))
            ==> ns_f(pkgs@, m, seq![m], fuel as nat) == Ok::<NsLog, Outcome>(log_view(final(memo).ns_entry(m)->Some_0@)),
        r is Err ==> ns_derived(pkgs@, m, seq![m], Err(err_outcome(r->Err_0))),
        r is Err && ns_done(ns_f(pkgs@, m, seq![m], fuel as nat))
            ==> ns_f(pkgs@, m, seq![m], fuel as nat) == Err::<NsLog, Outcome>(err_outcome(r->Err_0)),
        old(memo).ns_entry(m) is Some ==> r is Ok && *final(memo) == *old(memo),
    decreases fuel, 1nat,
{
    if m.crate_idx >= pkgs.len() {
        assert(ns_f(pkgs@, m, seq![m], 0) == Err::<NsLog, Outcome>(Outcome::NotModule));
        return Err(ResolveErr::Fail(Failure::NotModule));
    }
    if has_ns(memo, m) {
        proof {
            let v = memo.ns_entry(m)->Some_0;
            let g = choose|g: nat| ns_f(pkgs@, m, seq![m], g) == Ok::<NsLog, Outcome>(log_view(v@));
            if ns_done(ns_f(pkgs@, m, seq![m], fuel as nat)) {
                lemma_ns_unique(pkgs@, m, seq![m], g, fuel as nat);
            }
        }
        return Ok(());
    }
    let vis = vec![m];
    assert(vis@ =~= seq![m]);
    match namespace_inner(pkgs, memo, m, &vis, fuel) {
        Ok(v) => {
            let ghost before = *memo;
            let ghost lv = log_view(v@);
            memo.set_ns(m, v);
            assert forall|x: AbsId| #[trigger] memo.ns_entry(x) is Some implies exists|g: nat| ns_f(pkgs@, x, seq![x], g) == Ok::<NsLog, Outcome>(log_view(memo.ns_entry(x)->Some_0@)) by {
                if x != m {
                    assert(before.ns_entry(x) == memo.ns_entry(x));
                }
            }
            assert forall|x: AbsId| #[trigger] memo.entry(x) is Some implies exists|g: nat| res_f(pkgs@, x, g) == cached_outcome(memo.entry(x)->Some_0) by {
                assert(before.entry(x) == memo.entry(x));
            }
            Ok(())
        },
        Err(e) => Err(e),
    }
}

fn has_ns(memo: &Memo, m: AbsId) -> (r: bool)
    ensures
        r == memo.ns_entry(m) is Some,
{
    let p = m.crate_idx;
    let i = m.item_id as usize;
    p < memo.namespaces.len() && i < memo.namespaces[p].len() && memo.namespaces[p][i].is_some()
}

pub open spec fn step_out(r: Result<(), ResolveErr>, acc: NsLog) -> Result<NsLog, Outcome> {
    match r {
        Ok(_) => Ok(acc),
        Err(e) => Err(err_outcome(e)),
    }
}

proof fn lemma_kids_next(
    pkgs: Seq<Package>,
    m: AbsId,
    kids: Seq<u32>,
    i: nat,
    vis: Seq<AbsId>,
    acc0: NsLog,
    gi: nat,
    gc: nat,
    out: Result<NsLog, Outcome>,
)
    requires
        i < kids.len(),
        kids_f(pkgs, m, kids, i, vis, gi) == Ok::<NsLog, Outcome>(acc0),
        ns_done(out),
        kid_step(pkgs, acc0, res_f(pkgs, AbsId { crate_idx: m.crate_idx, item_id: kids[i as int] }, gc), vis, gc) == out,
    ensures
        exists|g: nat| #[trigger] kids_f(pkgs, m, kids, i + 1, vis, g) == out,
{
    let kid = AbsId { crate_idx: m.crate_idx, item_id: kids[i as int] };
    let big = if gi > gc { gi } else { gc };
    lemma_kids_mono(pkgs, m, kids, i, vis, gi, big);
    if res_f(pkgs, kid, gc) == Outcome::Deep {
        assert(kid_step(pkgs, acc0, Outcome::Deep, vis, gc) == Err::<NsLog, Outcome>(Outcome::Deep));
    }
    lemma_res_mono(pkgs, kid, gc, big);
    crate::semantics::lemma_kid_step_mono(pkgs, acc0, res_f(pkgs, kid, gc), vis, gc, big);
    assert(kids_f(pkgs, m, kids, i + 1, vis, big) == out);
}

/// A copy of `vis` with `g` added at the end.
fn pushed(vis: &Vec<AbsId>, g: AbsId) -> (r: Vec<AbsId>)
    ensures
        r@ == vis@.push(g),
{
    let mut r: Vec<AbsId> = Vec::new();
    let mut i: usize = 0;
    while i < vis.len()
        invariant
            i <= vis@.len(),
            r@ == vis@.subrange(0, i as int),
        decreases vis@.len() - i,
    {
        r.push(vis[i]);
        i += 1;
        assert(r@ =~= vis@.subrange(0, i as int));
    }
    assert(vis@.subrange(0, vis@.len() as int) =~= vis@);
    r.push(g);
    r
}

/// Adds to `acc` the bindings that the child `kid_local` of the module `m` contributes.
fn add_child(
    pkgs: &Vec<Package>,
    memo: &mut Memo,
    m: AbsId,
    kid_local: u32,
    vis: &Vec<AbsId>,
    acc: &mut Vec<(String, AbsId)>,
    f: u64,
) -> (r: Result<(), ResolveErr>)
    requires
        old(memo).wf(pkgs@),
    ensures
        final(memo).wf(pkgs@),
        ns_done(kid_step(pkgs@, log_view(old(acc)@), res_f(pkgs@, AbsId { crate_idx: m.crate_idx, item_id: kid_local }, f as nat), vis@, f as nat))
            ==> step_out(r, log_view(final(acc)@))
                == kid_step(pkgs@, log_view(old(acc)@), res_f(pkgs@, AbsId { crate_idx: m.crate_idx, item_id: kid_local }, f as nat), vis@, f as nat),
        ns_done(step_out(r, log_view(final(acc)@))) ==> exists|g: nat|
            kid_step(pkgs@, log_view(old(acc)@), res_f(pkgs@, AbsId { crate_idx: m.crate_idx, item_id: kid_local }, g), vis@, g)
                == step_out(r, log_view(final(acc)@)),
    decreases f, 2nat,
{
    let kid = m.same_crate(kid_local);
    let ghost acc0 = log_view(acc@);
    let rk = resolve_in(pkgs, memo, kid, f);
    let ghost gk = choose|g: nat| res_f(pkgs@, kid, g) == outcome_of(rk);
    match rk {
        Err(ResolveErr::Ignore) => {
            assert(kid_step(pkgs@, acc0, res_f(pkgs@, kid, gk), vis@, gk) == Ok::<NsLog, Outcome>(acc0));
            Ok(())
        },
        Err(e) => {
            assert(err_outcome(e) != Outcome::Deep ==> kid_step(pkgs@, acc0, res_f(pkgs@, kid, gk), vis@, gk) == Err::<NsLog, Outcome>(err_outcome(e)));
            Err(e)
        },
        Ok(cc) => {
            let c = cc.0;
            assert(res_f(pkgs@, kid, gk) == Outcome::Canon(c));
            if c.crate_idx >= pkgs.len() {
                assert(kid_step(pkgs@, acc0, Outcome::Canon(c), vis@, gk) == Ok::<NsLog, Outcome>(acc0));
                return Ok(());
            }
            match pkgs[c.crate_idx].doc.get_item(c.item_id) {
                None => {
                    assert(kid_step(pkgs@, acc0, Outcome::Canon(c), vis@, gk) == Ok::<NsLog, Outcome>(acc0));
                    Ok(())
                },
                Some(ci) => match &ci.name {
                    Some(nm) => {
                        acc.push((nm.clone(), c));
                        assert(log_view(acc@) =~= acc0.push((nm@, c)));
                        assert(kid_step(pkgs@, acc0, Outcome::Canon(c), vis@, gk) == Ok::<NsLog, Outcome>(log_view(acc@)));
                        Ok(())
                    },
                    None => match &ci.kind {
                        ItemKind::Use { id: Some(t), is_glob: true, .. } => {
                            let tid = c.same_crate(*t);
                            let rt = resolve_in(pkgs, memo, tid, f);
                            let ghost gt = choose|g: nat| res_f(pkgs@, tid, g) == outcome_of(rt);
                            match rt {
                                Err(ResolveErr::Ignore) => {
                                    proof {
                                        let big = if gk > gt { gk } else { gt };
                                        lemma_res_mono(pkgs@, kid, gk, big);
                                        lemma_res_mono(pkgs@, tid, gt, big);
                                        assert(kid_step(pkgs@, acc0, res_f(pkgs@, kid, big), vis@, big) == Ok::<NsLog, Outcome>(acc0));
                                    }
                                    Ok(())
                                },
                                Err(e) => {
                                    proof {
                                        if err_outcome(e) != Outcome::Deep {
                                            let big = if gk > gt { gk } else { gt };
                                            lemma_res_mono(pkgs@, kid, gk, big);
                                            lemma_res_mono(pkgs@, tid, gt, big);
                                            assert(kid_step(pkgs@, acc0, res_f(pkgs@, kid, big), vis@, big) == Err::<NsLog, Outcome>(err_outcome(e)));
                                        }
                                    }
                                    Err(e)
                                },
                                Ok(gc) => {
                                    let g = gc.0;
                                    if contains_id(vis, g) {
                                        proof {
                                            let big = if gk > gt { gk } else { gt };
                                            lemma_res_mono(pkgs@, kid, gk, big);
                                            lemma_res_mono(pkgs@, tid, gt, big);
                                            assert(kid_step(pkgs@, acc0, res_f(pkgs@, kid, big), vis@, big) == Ok::<NsLog, Outcome>(acc0));
                                        }
                                        return Ok(());
                                    }
                                    let vis2 = pushed(vis, g);
                                    match namespace_inner(pkgs, memo, g, &vis2, f) {
                                        Ok(gn) => {
                                            let mut gn = gn;
                                            let ghost gnv = log_view(gn@);
                                            acc.append(&mut gn);
                                            assert(log_view(acc@) =~= acc0 + gnv);
                                            proof {
                                                let gg = choose|x: nat| ns_f(pkgs@, g, vis@.push(g), x) == Ok::<NsLog, Outcome>(gnv);
                                                let big0 = if gk > gt { gk } else { gt };
                                                let big = if big0 > gg { big0 } else { gg };
                                                lemma_res_mono(pkgs@, kid, gk, big);
                                                lemma_res_mono(pkgs@, tid, gt, big);
                                                lemma_ns_mono(pkgs@, g, vis@.push(g), gg, big);
                                                assert(kid_step(pkgs@, acc0, res_f(pkgs@, kid, big), vis@, big) == Ok::<NsLog, Outcome>(log_view(acc@)));
                                            }
                                            Ok(())
                                        },
                                        Err(e) => {
                                            proof {
                                                if err_outcome(e) != Outcome::Deep {
                                                    let gg = choose|x: nat| ns_f(pkgs@, g, vis@.push(g), x) == Err::<NsLog, Outcome>(err_outcome(e));
                                                    let big0 = if gk > gt { gk } else { gt };
                                                    let big = if big0 > gg { big0 } else { gg };
                                                    lemma_res_mono(pkgs@, kid, gk, big);
                                                    lemma_res_mono(pkgs@, tid, gt, big);
                                                    lemma_ns_mono(pkgs@, g, vis@.push(g), gg, big);
                                                    assert(kid_step(pkgs@, acc0, res_f(pkgs@, kid, big), vis@, big) == Err::<NsLog, Outcome>(err_outcome(e)));
                                                }
                                            }
                                            Err(e)
                                        },
                                    }
                                },
                            }
                        },
                        _ => {
                            assert(kid_step(pkgs@, acc0, Outcome::Canon(c), vis@, gk) == Ok::<NsLog, Outcome>(acc0));
                            Ok(())
                        },
                    },
                },
            }
        },
    }
}

/// The namespace of the module `m`, built afresh, where the modules of `vis` are
/// being expanded already.
pub fn namespace_inner(pkgs: &Vec<Package>, memo: &mut Memo, m: AbsId, vis: &Vec<AbsId>, fuel: u64) -> (r: Result<Vec<(String, AbsId)>, ResolveErr>)
    requires
        old(memo).wf(pkgs@),
    ensures
        final(memo).wf(pkgs@),
        ns_derived(pkgs@, m, vis@, ns_outcome(r)),
        ns_done(ns_f(pkgs@, m, vis@, fuel as nat)) ==> ns_outcome(r) == ns_f(pkgs@, m, vis@, fuel as nat),
    decreases fuel, 0nat,
{
    if m.crate_idx >= pkgs.len() {
        assert(ns_f(pkgs@, m, vis@, 0) == Err::<NsLog, Outcome>(Outcome::NotModule));
        return Err(ResolveErr::Fail(Failure::NotModule));
    }
    let items = match pkgs[m.crate_idx].doc.get_item(m.item_id) {
        None => {
            assert(ns_f(pkgs@, m, vis@, 0) == Err::<NsLog, Outcome>(Outcome::NotModule));
            return Err(ResolveErr::Fail(Failure::NotModule));
        },
        Some(item) => match &item.kind {
            ItemKind::Module { items, .. } => items,
            _ => {
                assert(ns_f(pkgs@, m, vis@, 0) == Err::<NsLog, Outcome>(Outcome::NotModule));
                return Err(ResolveErr::Fail(Failure::NotModule));
            },
        },
    };
    if fuel == 0 {
        return Err(ResolveErr::Fail(Failure::TooDeep));
    }
    let f = fuel - 1;
    let mut acc: Vec<(String, AbsId)> = Vec::new();
    let mut i: usize = 0;
    assert(log_view(acc@) =~= Seq::<(Seq<char>, AbsId)>::empty());
    assert(kids_f(pkgs@, m, items@, 0, vis@, 0) == Ok::<NsLog, Outcome>(log_view(acc@)));
    while i < items.len()
        invariant
            memo.wf(pkgs@),
            i <= items@.len(),
            f == fuel - 1,
            ns_f(pkgs@, m, vis@, fuel as nat) == kids_f(pkgs@, m, items@, items@.len(), vis@, f as nat),
            forall|x: nat| #[trigger] ns_f(pkgs@, m, vis@, x + 1) == kids_f(pkgs@, m, items@, items@.len(), vis@, x),
            kids_f(pkgs@, m, items@, i as nat, vis@, f as nat) == Ok::<NsLog, Outcome>(log_view(acc@))
                || kids_f(pkgs@, m, items@, i as nat, vis@, f as nat) == Err::<NsLog, Outcome>(Outcome::Deep),
            exists|g: nat| kids_f(pkgs@, m, items@, i as nat, vis@, g) == Ok::<NsLog, Outcome>(log_view(acc@)),
        decreases items@.len() - i,
    {
        let ghost acc0 = log_view(acc@);
        let ghost gi = choose|g: nat| kids_f(pkgs@, m, items@, i as nat, vis@, g) == Ok::<NsLog, Outcome>(acc0);
        let ghost kid = AbsId { crate_idx: m.crate_idx, item_id: items@[i as int] };
        let r = add_child(pkgs, memo, m, items[i], vis, &mut acc, f);
        let ghost out = step_out(r, log_view(acc@));
        proof {
            if ns_done(out) {
                let gc = choose|g: nat| kid_step(pkgs@, acc0, res_f(pkgs@, kid, g), vis@, g) == out;
                lemma_kids_next(pkgs@, m, items@, i as nat, vis@, acc0, gi, gc, out);
            }
        }
        match r {
            Err(e) => {
                proof {
                    let n = items@.len();
                    let next = kids_f(pkgs@, m, items@, (i + 1) as nat, vis@, f as nat);
                    assert(next is Err);
                    lemma_kids_err_propagates(pkgs@, m, items@, (i + 1) as nat, n, vis@, f as nat);
                    if ns_done(out) {
                        let g1 = choose|g: nat| #[trigger] kids_f(pkgs@, m, items@, (i + 1) as nat, vis@, g) == out;
                        lemma_kids_err_propagates(pkgs@, m, items@, (i + 1) as nat, n, vis@, g1);
                        assert(ns_f(pkgs@, m, vis@, g1 + 1) == out);
                    }
                }
                return Err(e);
            },
            Ok(()) => {},
        }
        i += 1;
    }
    proof {
        let g = choose|g: nat| kids_f(pkgs@, m, items@, i as nat, vis@, g) == Ok::<NsLog, Outcome>(log_view(acc@));
        assert(ns_f(pkgs@, m, vis@, g + 1) == kids_f(pkgs@, m, items@, items@.len(), vis@, g));
    }
    Ok(acc)
}

} // verus!
