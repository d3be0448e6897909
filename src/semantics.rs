//! What canonicalisation and namespaces mean, stated over the loaded packages.
//!
//! Each spec function takes a fuel bound `f`, the depth of the derivation it may
//! use; it yields `Outcome::Deep` when that bound is too small. Re-export chains,
//! paths and glob imports make a derivation finite or not at all, so the outcome
//! of an id is the one that some fuel derives; `lemma_res_mono` and its siblings
//! show that no two fuels derive different outcomes.
use vstd::prelude::*;
use crate::ids::AbsId;
use crate::model::{DocIndex, ItemKind};

verus! {

/// A loaded package: its name, its index, and the id of its root module.
pub struct Package {
    pub name: String,
    pub doc: DocIndex,
    pub root: u32,
}

/// What resolving an id yields.
pub enum Outcome {
    /// The canonical id that the input refers to.
    Canon(AbsId),
    /// The id leads into a standard-library package or a private convention path.
    Ignored,
    /// The package of this name has to be loaded first.
    Need(Seq<char>),
    /// The id is in neither the items nor the paths of its index.
    MissingPath,
    /// A path summary names a package key that the index does not list.
    MissingExternal,
    /// A path summary holds no segment.
    EmptyPath,
    /// A path or glob import goes through something that is no module.
    NotModule,
    /// A path segment that the enclosing namespace does not hold, and the names
    /// that namespace binds.
    UnknownName(Seq<char>, Seq<Seq<char>>),
    /// The fuel bound was too small.
    Deep,
}

/// A namespace, as the sequence of its bindings: a later binding of a name
/// shadows an earlier one.
pub type NsLog = Seq<(Seq<char>, AbsId)>;

pub open spec fn is_stdlib(name: Seq<char>) -> bool {
    name == "std"@ || name == "core"@ || name == "alloc"@ || name == "proc_macro"@ || name == "test"@
}

/// The package names that stand for another package.
pub open spec fn alias_of(name: Seq<char>) -> Seq<char> {
    if name == "webpki"@ {
        "rustls_webpki"@
    } else {
        name
    }
}

/// Position of the first package named `name` among the first `n` packages.
pub open spec fn find_package(pkgs: Seq<Package>, name: Seq<char>, n: nat) -> Option<int>
    decreases n,
{
    if n == 0 {
        None
    } else {
        match find_package(pkgs, name, (n - 1) as nat) {
            Some(i) => Some(i),
            None => if pkgs[n - 1].name@ == name {
                Some(n - 1)
            } else {
                None
            },
        }
    }
}

/// What loading the package named `name` yields: its root module.
pub open spec fn load_outcome(pkgs: Seq<Package>, name: Seq<char>) -> Outcome {
    let n = alias_of(name);
    if is_stdlib(n) {
        Outcome::Ignored
    } else {
        match find_package(pkgs, n, pkgs.len()) {
            Some(i) => Outcome::Canon(AbsId { crate_idx: i as usize, item_id: pkgs[i].root }),
            None => Outcome::Need(n),
        }
    }
}

pub open spec fn str_views(s: Seq<String>) -> Seq<Seq<char>> {
    s.map_values(|x: String| x@)
}

/// The names that a namespace binds, in the order of its bindings.
pub open spec fn ns_names(ns: NsLog) -> Seq<Seq<char>> {
    ns.map_values(|e: (Seq<char>, AbsId)| e.0)
}

/// The most recent binding of `name` in a namespace.
pub open spec fn ns_lookup(ns: NsLog, name: Seq<char>) -> Option<AbsId>
    decreases ns.len(),
{
    if ns.len() == 0 {
        None
    } else if ns.last().0 == name {
        Some(ns.last().1)
    } else {
        ns_lookup(ns.drop_last(), name)
    }
}

/// Whether `id` names an item of its package that is a declaration: neither an
/// `extern crate` nor a non-glob `use`.
pub open spec fn is_canonical(pkgs: Seq<Package>, id: AbsId) -> bool {
    &&& id.crate_idx < pkgs.len()
    &&& pkgs[id.crate_idx as int].doc.item_at(id.item_id) matches Some(item)
    &&& !(item.kind is ExternCrate)
    &&& !(item.kind matches ItemKind::Use { is_glob, .. } && !is_glob)
}

/// Resolution of `id` within fuel `f`.
///
/// A non-glob `use` without a target (one whose referent the index does not
/// document) resolves to `Ignored`: a `use` is itself never canonical, so it cannot
/// stand for its own referent, and there is no referent to follow.
pub open spec fn res_f(pkgs: Seq<Package>, id: AbsId, f: nat) -> Outcome
    decreases f, 0nat,
{
    if id.crate_idx >= pkgs.len() {
        Outcome::MissingPath
    } else {
        let doc = pkgs[id.crate_idx as int].doc;
        match doc.item_at(id.item_id) {
            Some(item) => match item.kind {
                ItemKind::ExternCrate { name, .. } => load_outcome(pkgs, name@),
                ItemKind::Use { id: target, is_glob, .. } => if is_glob {
                    Outcome::Canon(id)
                } else {
                    match target {
                        Some(t) => if f == 0 {
                            Outcome::Deep
                        } else {
                            res_f(pkgs, AbsId { crate_idx: id.crate_idx, item_id: t }, (f - 1) as nat)
                        },
                        None => Outcome::Ignored,
                    }
                },
                _ => Outcome::Canon(id),
            },
            None => match doc.path_at(id.item_id) {
                None => Outcome::MissingPath,
                Some(ps) => match doc.external_name(ps.crate_id) {
                    None => Outcome::MissingExternal,
                    Some(name) => match load_outcome(pkgs, name) {
                        Outcome::Canon(m) => if ps.path@.len() == 0 {
                            Outcome::EmptyPath
                        } else if f == 0 {
                            Outcome::Deep
                        } else {
                            path_f(pkgs, m, str_views(ps.path@).drop_first(), (f - 1) as nat)
                        },
                        other => other,
                    },
                },
            },
        }
    }
}

/// Resolution of the path `segs` below the module `m`, within fuel `f`.
pub open spec fn path_f(pkgs: Seq<Package>, m: AbsId, segs: Seq<Seq<char>>, f: nat) -> Outcome
    decreases f, 0nat,
{
    if segs.len() == 0 {
        Outcome::Canon(m)
    } else if segs[0] == "__private"@ {
        Outcome::Ignored
    } else if f == 0 {
        Outcome::Deep
    } else {
        match ns_f(pkgs, m, seq![m], (f - 1) as nat) {
            Ok(ns) => match ns_lookup(ns, segs[0]) {
                Some(c) => path_f(pkgs, c, segs.drop_first(), (f - 1) as nat),
                None => Outcome::UnknownName(segs[0], ns_names(ns)),
            },
            Err(e) => e,
        }
    }
}

/// The namespace of the module `m` within fuel `f`, where the modules of `vis` are
/// being expanded already (a glob import of one of them adds nothing).
pub open spec fn ns_f(pkgs: Seq<Package>, m: AbsId, vis: Seq<AbsId>, f: nat) -> Result<NsLog, Outcome>
    decreases f, 0nat,
{
    if m.crate_idx >= pkgs.len() {
        Err(Outcome::NotModule)
    } else {
        match pkgs[m.crate_idx as int].doc.item_at(m.item_id) {
            Some(item) => match item.kind {
                ItemKind::Module { items, .. } => if f == 0 {
                    Err(Outcome::Deep)
                } else {
                    kids_f(pkgs, m, items@, items@.len(), vis, (f - 1) as nat)
                },
                _ => Err(Outcome::NotModule),
            },
            None => Err(Outcome::NotModule),
        }
    }
}

/// The bindings that the first `n` children of the module `m` contribute.
pub open spec fn kids_f(pkgs: Seq<Package>, m: AbsId, kids: Seq<u32>, n: nat, vis: Seq<AbsId>, f: nat) -> Result<NsLog, Outcome>
    decreases f, n + 3,
{
    if n == 0 {
        Ok(seq![])
    } else {
        match kids_f(pkgs, m, kids, (n - 1) as nat, vis, f) {
            Err(e) => Err(e),
            Ok(acc) => kid_step(pkgs, acc, res_f(pkgs, AbsId { crate_idx: m.crate_idx, item_id: kids[n - 1] }, f), vis, f),
        }
    }
}

/// Adds to `acc` what one child contributes, given the child's resolution `r`.
pub open spec fn kid_step(pkgs: Seq<Package>, acc: NsLog, r: Outcome, vis: Seq<AbsId>, f: nat) -> Result<NsLog, Outcome>
    decreases f, 2nat,
{
    match r {
        Outcome::Canon(c) => {
            if c.crate_idx < pkgs.len() && pkgs[c.crate_idx as int].doc.item_at(c.item_id) is Some {
                let ci = pkgs[c.crate_idx as int].doc.item_at(c.item_id)->Some_0;
                match ci.name {
                    Some(nm) => Ok(acc.push((nm@, c))),
                    None => match ci.kind {
                        ItemKind::Use { id: Some(t), is_glob: true, .. } =>
                            glob_step(pkgs, acc, res_f(pkgs, AbsId { crate_idx: c.crate_idx, item_id: t }, f), vis, f),
                        _ => Ok(acc),
                    },
                }
            } else {
                Ok(acc)
            }
        },
        Outcome::Ignored => Ok(acc),
        e => Err(e),
    }
}

/// Adds to `acc` the namespace of a glob-imported module, given its resolution `r`.
pub open spec fn glob_step(pkgs: Seq<Package>, acc: NsLog, r: Outcome, vis: Seq<AbsId>, f: nat) -> Result<NsLog, Outcome>
    decreases f, 1nat,
{
    match r {
        Outcome::Canon(g) => if vis.contains(g) {
            Ok(acc)
        } else {
            match ns_f(pkgs, g, vis.push(g), f) {
                Ok(gns) => Ok(acc + gns),
                Err(e) => Err(e),
            }
        },
        Outcome::Ignored => Ok(acc),
        e => Err(e),
    }
}

/// Whether a namespace computation came to an end within its fuel.
pub open spec fn ns_done(r: Result<NsLog, Outcome>) -> bool {
    !(r matches Err(Outcome::Deep))
}

/// More fuel never changes an outcome that less fuel derived.
pub proof fn lemma_res_mono(pkgs: Seq<Package>, id: AbsId, f1: nat, f2: nat)
    requires
        f1 <= f2,
        res_f(pkgs, id, f1) != Outcome::Deep,
    ensures
        res_f(pkgs, id, f2) == res_f(pkgs, id, f1),
    decreases f1, 0nat,
{
    if id.crate_idx < pkgs.len() {
        let doc = pkgs[id.crate_idx as int].doc;
        match doc.item_at(id.item_id) {
            Some(item) => {
                if let ItemKind::Use { id: Some(t), is_glob: false, .. } = item.kind {
                    lemma_res_mono(pkgs, AbsId { crate_idx: id.crate_idx, item_id: t }, (f1 - 1) as nat, (f2 - 1) as nat);
                }
            },
            None => {
                if let Some(ps) = doc.path_at(id.item_id) {
                    if let Some(name) = doc.external_name(ps.crate_id) {
                        if let Outcome::Canon(m) = load_outcome(pkgs, name) {
                            if ps.path@.len() > 0 {
                                lemma_path_mono(pkgs, m, str_views(ps.path@).drop_first(), (f1 - 1) as nat, (f2 - 1) as nat);
                            }
                        }
                    }
                }
            },
        }
    }
}

pub proof fn lemma_path_mono(pkgs: Seq<Package>, m: AbsId, segs: Seq<Seq<char>>, f1: nat, f2: nat)
    requires
        f1 <= f2,
        path_f(pkgs, m, segs, f1) != Outcome::Deep,
    ensures
        path_f(pkgs, m, segs, f2) == path_f(pkgs, m, segs, f1),
    decreases f1, 0nat,
{
    if segs.len() > 0 && segs[0] != "__private"@ && f1 > 0 {
        lemma_ns_mono(pkgs, m, seq![m], (f1 - 1) as nat, (f2 - 1) as nat);
        if let Ok(ns) = ns_f(pkgs, m, seq![m], (f1 - 1) as nat) {
            if let Some(c) = ns_lookup(ns, segs[0]) {
                lemma_path_mono(pkgs, c, segs.drop_first(), (f1 - 1) as nat, (f2 - 1) as nat);
            }
        }
    }
}

pub proof fn lemma_ns_mono(pkgs: Seq<Package>, m: AbsId, vis: Seq<AbsId>, f1: nat, f2: nat)
    requires
        f1 <= f2,
        ns_done(ns_f(pkgs, m, vis, f1)),
    ensures
        ns_f(pkgs, m, vis, f2) == ns_f(pkgs, m, vis, f1),
    decreases f1, 0nat,
{
    if m.crate_idx < pkgs.len() {
        if let Some(item) = pkgs[m.crate_idx as int].doc.item_at(m.item_id) {
            if let ItemKind::Module { items, .. } = item.kind {
                if f1 > 0 {
                    lemma_kids_mono(pkgs, m, items@, items@.len(), vis, (f1 - 1) as nat, (f2 - 1) as nat);
                }
            }
        }
    }
}

pub proof fn lemma_kids_mono(pkgs: Seq<Package>, m: AbsId, kids: Seq<u32>, n: nat, vis: Seq<AbsId>, f1: nat, f2: nat)
    requires
        f1 <= f2,
        ns_done(kids_f(pkgs, m, kids, n, vis, f1)),
    ensures
        kids_f(pkgs, m, kids, n, vis, f2) == kids_f(pkgs, m, kids, n, vis, f1),
    decreases f1, n + 3,
{
    if n > 0 {
        lemma_kids_mono(pkgs, m, kids, (n - 1) as nat, vis, f1, f2);
        if let Ok(acc) = kids_f(pkgs, m, kids, (n - 1) as nat, vis, f1) {
            let kid = AbsId { crate_idx: m.crate_idx, item_id: kids[n - 1] };
            if res_f(pkgs, kid, f1) == Outcome::Deep {
                assert(kid_step(pkgs, acc, Outcome::Deep, vis, f1) == Err::<NsLog, Outcome>(Outcome::Deep));
            } else {
                lemma_res_mono(pkgs, kid, f1, f2);
                lemma_kid_step_mono(pkgs, acc, res_f(pkgs, kid, f1), vis, f1, f2);
            }
        }
    }
}

pub proof fn lemma_kid_step_mono(pkgs: Seq<Package>, acc: NsLog, r: Outcome, vis: Seq<AbsId>, f1: nat, f2: nat)
    requires
        f1 <= f2,
        ns_done(kid_step(pkgs, acc, r, vis, f1)),
    ensures
        kid_step(pkgs, acc, r, vis, f2) == kid_step(pkgs, acc, r, vis, f1),
    decreases f1, 2nat,
{
    if let Outcome::Canon(c) = r {
        if c.crate_idx < pkgs.len() && pkgs[c.crate_idx as int].doc.item_at(c.item_id) is Some {
            let ci = pkgs[c.crate_idx as int].doc.item_at(c.item_id)->Some_0;
            if ci.name is None {
                if let ItemKind::Use { id: Some(t), is_glob: true, .. } = ci.kind {
                    let tid = AbsId { crate_idx: c.crate_idx, item_id: t };
                    if res_f(pkgs, tid, f1) == Outcome::Deep {
                        assert(glob_step(pkgs, acc, Outcome::Deep, vis, f1) == Err::<NsLog, Outcome>(Outcome::Deep));
                    } else {
                        lemma_res_mono(pkgs, tid, f1, f2);
                        lemma_glob_step_mono(pkgs, acc, res_f(pkgs, tid, f1), vis, f1, f2);
                    }
                }
            }
        }
    }
}

pub proof fn lemma_glob_step_mono(pkgs: Seq<Package>, acc: NsLog, r: Outcome, vis: Seq<AbsId>, f1: nat, f2: nat)
    requires
        f1 <= f2,
        ns_done(glob_step(pkgs, acc, r, vis, f1)),
    ensures
        glob_step(pkgs, acc, r, vis, f2) == glob_step(pkgs, acc, r, vis, f1),
    decreases f1, 1nat,
{
    if let Outcome::Canon(g) = r {
        if !vis.contains(g) {
            lemma_ns_mono(pkgs, g, vis.push(g), f1, f2);
        }
    }
}

/// No two fuels derive different outcomes for one id.
pub proof fn lemma_res_unique(pkgs: Seq<Package>, id: AbsId, f1: nat, f2: nat)
    requires
        res_f(pkgs, id, f1) != Outcome::Deep,
        res_f(pkgs, id, f2) != Outcome::Deep,
    ensures
        res_f(pkgs, id, f1) == res_f(pkgs, id, f2),
{
    if f1 <= f2 {
        lemma_res_mono(pkgs, id, f1, f2);
    } else {
        lemma_res_mono(pkgs, id, f2, f1);
    }
}

/// Every package's recorded root is its root module.
pub open spec fn pkgs_wf(pkgs: Seq<Package>) -> bool {
    &&& pkgs.len() <= usize::MAX
    &&& forall|i: int| 0 <= i < pkgs.len() ==> #[trigger] pkgs[i].doc.is_root_module(pkgs[i].root as int)
}

/// A namespace computation that succeeded binds only canonical ids; one that
/// failed did not fail with an id.
pub open spec fn ns_result_ok(pkgs: Seq<Package>, r: Result<NsLog, Outcome>) -> bool {
    match r {
        Ok(ns) => all_canonical(pkgs, ns),
        Err(e) => !(e is Canon),
    }
}

/// Every binding of a namespace names a canonical id.
pub open spec fn all_canonical(pkgs: Seq<Package>, ns: NsLog) -> bool {
    forall|k: int| 0 <= k < ns.len() ==> is_canonical(pkgs, #[trigger] ns[k].1)
}

pub proof fn lemma_find_package_bound(pkgs: Seq<Package>, name: Seq<char>, n: nat)
    requires
        find_package(pkgs, name, n) is Some,
    ensures
        0 <= find_package(pkgs, name, n)->Some_0 < n,
    decreases n,
{
    if n > 0 && find_package(pkgs, name, (n - 1) as nat) is Some {
        lemma_find_package_bound(pkgs, name, (n - 1) as nat);
    }
}

pub proof fn lemma_load_canonical(pkgs: Seq<Package>, name: Seq<char>)
    requires
        pkgs_wf(pkgs),
        load_outcome(pkgs, name) is Canon,
    ensures
        is_canonical(pkgs, load_outcome(pkgs, name)->Canon_0),
{
    let n = alias_of(name);
    lemma_find_package_bound(pkgs, n, pkgs.len());
    let i = find_package(pkgs, n, pkgs.len())->Some_0;
    assert(pkgs[i].doc.is_root_module(pkgs[i].root as int));
}

pub proof fn lemma_lookup_in(ns: NsLog, name: Seq<char>)
    requires
        ns_lookup(ns, name) is Some,
    ensures
        exists|k: int| 0 <= k < ns.len() && ns[k].1 == ns_lookup(ns, name)->Some_0,
    decreases ns.len(),
{
    if ns.last().0 != name {
        lemma_lookup_in(ns.drop_last(), name);
        let k = choose|k: int| 0 <= k < ns.drop_last().len() && ns.drop_last()[k].1 == ns_lookup(ns, name)->Some_0;
        assert(ns[k] == ns.drop_last()[k]);
    } else {
        assert(ns[ns.len() - 1].1 == ns_lookup(ns, name)->Some_0);
    }
}

/// Canonicalisation only ever yields canonical ids.
pub proof fn lemma_res_canonical(pkgs: Seq<Package>, id: AbsId, f: nat)
    requires
        pkgs_wf(pkgs),
        res_f(pkgs, id, f) is Canon,
    ensures
        is_canonical(pkgs, res_f(pkgs, id, f)->Canon_0),
    decreases f, 0nat,
{
    let doc = pkgs[id.crate_idx as int].doc;
    match doc.item_at(id.item_id) {
        Some(item) => match item.kind {
            ItemKind::ExternCrate { name, .. } => lemma_load_canonical(pkgs, name@),
            ItemKind::Use { id: Some(t), is_glob: false, .. } => {
                lemma_res_canonical(pkgs, AbsId { crate_idx: id.crate_idx, item_id: t }, (f - 1) as nat);
            },
            _ => {},
        },
        None => {
            let ps = doc.path_at(id.item_id)->Some_0;
            let name = doc.external_name(ps.crate_id)->Some_0;
            lemma_load_canonical(pkgs, name);
            let m = load_outcome(pkgs, name)->Canon_0;
            lemma_path_canonical(pkgs, m, str_views(ps.path@).drop_first(), (f - 1) as nat);
        },
    }
}

pub proof fn lemma_path_canonical(pkgs: Seq<Package>, m: AbsId, segs: Seq<Seq<char>>, f: nat)
    requires
        pkgs_wf(pkgs),
        is_canonical(pkgs, m),
        path_f(pkgs, m, segs, f) is Canon,
    ensures
        is_canonical(pkgs, path_f(pkgs, m, segs, f)->Canon_0),
    decreases f, 0nat,
{
    if segs.len() > 0 {
        assert(segs[0] != "__private"@);
        assert(f > 0);
        lemma_ns_canonical(pkgs, m, seq![m], (f - 1) as nat);
        let ns = ns_f(pkgs, m, seq![m], (f - 1) as nat)->Ok_0;
        lemma_lookup_in(ns, segs[0]);
        let c = ns_lookup(ns, segs[0])->Some_0;
        let k = choose|k: int| 0 <= k < ns.len() && ns[k].1 == c;
        assert(is_canonical(pkgs, ns[k].1));
        lemma_path_canonical(pkgs, c, segs.drop_first(), (f - 1) as nat);
    }
}

/// Namespaces bind only canonical ids.
pub proof fn lemma_ns_canonical(pkgs: Seq<Package>, m: AbsId, vis: Seq<AbsId>, f: nat)
    requires
        pkgs_wf(pkgs),
    ensures
        ns_result_ok(pkgs, ns_f(pkgs, m, vis, f)),
    decreases f, 0nat,
{
    if m.crate_idx < pkgs.len() && pkgs[m.crate_idx as int].doc.item_at(m.item_id) is Some {
        let item = pkgs[m.crate_idx as int].doc.item_at(m.item_id)->Some_0;
        if let ItemKind::Module { items, .. } = item.kind {
            if f > 0 {
                lemma_kids_canonical(pkgs, m, items@, items@.len(), vis, (f - 1) as nat);
            }
        }
    }
}

pub proof fn lemma_kids_canonical(pkgs: Seq<Package>, m: AbsId, kids: Seq<u32>, n: nat, vis: Seq<AbsId>, f: nat)
    requires
        pkgs_wf(pkgs),
    ensures
        ns_result_ok(pkgs, kids_f(pkgs, m, kids, n, vis, f)),
    decreases f, n + 3,
{
    if n > 0 {
        lemma_kids_canonical(pkgs, m, kids, (n - 1) as nat, vis, f);
        if kids_f(pkgs, m, kids, (n - 1) as nat, vis, f) is Ok {
            let acc = kids_f(pkgs, m, kids, (n - 1) as nat, vis, f)->Ok_0;
            let kid = AbsId { crate_idx: m.crate_idx, item_id: kids[n - 1] };
            if res_f(pkgs, kid, f) is Canon {
                lemma_res_canonical(pkgs, kid, f);
            }
            lemma_kid_step_canonical(pkgs, acc, res_f(pkgs, kid, f), vis, f);
        }
    } else {
        assert(all_canonical(pkgs, seq![]));
    }
}

pub proof fn lemma_kid_step_canonical(pkgs: Seq<Package>, acc: NsLog, r: Outcome, vis: Seq<AbsId>, f: nat)
    requires
        pkgs_wf(pkgs),
        all_canonical(pkgs, acc),
        r is Canon ==> is_canonical(pkgs, r->Canon_0),
    ensures
        ns_result_ok(pkgs, kid_step(pkgs, acc, r, vis, f)),
    decreases f, 2nat,
{
    if let Outcome::Canon(c) = r {
        if c.crate_idx < pkgs.len() && pkgs[c.crate_idx as int].doc.item_at(c.item_id) is Some {
            let ci = pkgs[c.crate_idx as int].doc.item_at(c.item_id)->Some_0;
            match ci.name {
                Some(nm) => {
                    let out = acc.push((nm@, c));
                    assert forall|k: int| 0 <= k < out.len() implies is_canonical(pkgs, #[trigger] out[k].1) by {
                        if k < acc.len() {
                            assert(out[k] == acc[k]);
                        }
                    }
                },
                None => {
                    if let ItemKind::Use { id: Some(t), is_glob: true, .. } = ci.kind {
                        let tid = AbsId { crate_idx: c.crate_idx, item_id: t };
                        if let Outcome::Canon(g) = res_f(pkgs, tid, f) {
                            if !vis.contains(g) {
                                lemma_ns_canonical(pkgs, g, vis.push(g), f);
                                if ns_f(pkgs, g, vis.push(g), f) is Ok {
                                    let gns = ns_f(pkgs, g, vis.push(g), f)->Ok_0;
                                    let out = acc + gns;
                                    assert forall|k: int| 0 <= k < out.len() implies is_canonical(pkgs, #[trigger] out[k].1) by {
                                        if k < acc.len() {
                                            assert(out[k] == acc[k]);
                                        } else {
                                            assert(out[k] == gns[k - acc.len()]);
                                        }
                                    }
                                }
                            }
                        }
                    }
                },
            }
        }
    }
}

} // verus!
