//! Laws of canonicalisation, namespaces and traversals.
use vstd::prelude::*;
use crate::ids::{AbsId, CanonId};
use crate::item_graph::{has_key, labels_wf};
use crate::model::ItemKind;
use crate::semantics::{
    glob_step, is_canonical, is_stdlib, kid_step, kids_f, lemma_res_canonical, load_outcome, ns_f, ns_lookup,
    pkgs_wf, res_f, NsLog, Outcome, Package,
};

verus! {

/// A canonical id canonicalises to itself, whatever the fuel.
pub proof fn lemma_canonical_fixed(pkgs: Seq<Package>, c: AbsId, f: nat)
    requires
        is_canonical(pkgs, c),
    ensures
        res_f(pkgs, c, f) == Outcome::Canon(c),
{
}

/// Canonicalisation is idempotent: canonicalising the canonical id that `x` yields
/// yields it again.
pub proof fn lemma_resolve_idempotent(pkgs: Seq<Package>, x: AbsId, f: nat, g: nat)
    requires
        pkgs_wf(pkgs),
        res_f(pkgs, x, f) is Canon,
    ensures
        res_f(pkgs, res_f(pkgs, x, f)->Canon_0, g) == res_f(pkgs, x, f),
{
    lemma_res_canonical(pkgs, x, f);
    lemma_canonical_fixed(pkgs, res_f(pkgs, x, f)->Canon_0, g);
}

/// No canonical id names an `extern crate` item or a non-glob `use` item.
pub proof fn lemma_no_extern_canonicals(pkgs: Seq<Package>, x: AbsId, f: nat)
    requires
        pkgs_wf(pkgs),
        res_f(pkgs, x, f) is Canon,
    ensures
        ({
            let c = res_f(pkgs, x, f)->Canon_0;
            let k = pkgs[c.crate_idx as int].doc.item_at(c.item_id)->Some_0.kind;
            &&& pkgs[c.crate_idx as int].doc.item_at(c.item_id) is Some
            &&& !(k is ExternCrate)
            &&& !(k matches ItemKind::Use { is_glob, .. } && !is_glob)
        }),
{
    lemma_res_canonical(pkgs, x, f);
}

/// Loading a standard-library package yields `Ignored`, whatever is loaded.
pub proof fn lemma_stdlib_quarantine(pkgs: Seq<Package>, name: Seq<char>)
    requires
        is_stdlib(name),
    ensures
        load_outcome(pkgs, name) == Outcome::Ignored,
{
    assert(name != "webpki"@) by {
        reveal_strlit("webpki");
        reveal_strlit("std");
        reveal_strlit("core");
        reveal_strlit("alloc");
        reveal_strlit("proc_macro");
        reveal_strlit("test");
        if name == "webpki"@ {
            assert(name[0] == 'w');
        }
    }
}

/// A name is bound in a namespace exactly when some binding carries it.
pub proof fn lemma_lookup_some(ns: NsLog, n: Seq<char>)
    ensures
        ns_lookup(ns, n) is Some <==> exists|k: int| 0 <= k < ns.len() && (#[trigger] ns[k]).0 == n,
    decreases ns.len(),
{
    if ns.len() > 0 {
        lemma_lookup_some(ns.drop_last(), n);
        if exists|k: int| 0 <= k < ns.len() && (#[trigger] ns[k]).0 == n {
            let k = choose|k: int| 0 <= k < ns.len() && (#[trigger] ns[k]).0 == n;
            if k < ns.len() - 1 {
                assert(ns.drop_last()[k] == ns[k]);
            }
        }
        if exists|k: int| 0 <= k < ns.drop_last().len() && (#[trigger] ns.drop_last()[k]).0 == n {
            let k = choose|k: int| 0 <= k < ns.drop_last().len() && (#[trigger] ns.drop_last()[k]).0 == n;
            assert(ns[k] == ns.drop_last()[k]);
        }
    }
}

proof fn lemma_kid_step_extends(pkgs: Seq<Package>, acc: NsLog, r: Outcome, vis: Seq<AbsId>, f: nat)
    requires
        kid_step(pkgs, acc, r, vis, f) is Ok,
    ensures
        kid_step(pkgs, acc, r, vis, f)->Ok_0.len() >= acc.len(),
        kid_step(pkgs, acc, r, vis, f)->Ok_0.subrange(0, acc.len() as int) == acc,
{
    let out = kid_step(pkgs, acc, r, vis, f)->Ok_0;
    assert(out.subrange(0, acc.len() as int) =~= acc);
}

proof fn lemma_kids_prefix(pkgs: Seq<Package>, m: AbsId, kids: Seq<u32>, i: nat, j: nat, vis: Seq<AbsId>, f: nat)
    requires
        i <= j,
        kids_f(pkgs, m, kids, j, vis, f) is Ok,
    ensures
        kids_f(pkgs, m, kids, i, vis, f) is Ok,
        kids_f(pkgs, m, kids, j, vis, f)->Ok_0.len() >= kids_f(pkgs, m, kids, i, vis, f)->Ok_0.len(),
        kids_f(pkgs, m, kids, j, vis, f)->Ok_0.subrange(0, kids_f(pkgs, m, kids, i, vis, f)->Ok_0.len() as int)
            == kids_f(pkgs, m, kids, i, vis, f)->Ok_0,
    decreases j - i,
{
    if i < j {
        let prev = kids_f(pkgs, m, kids, (j - 1) as nat, vis, f);
        assert(prev is Ok);
        let kid = AbsId { crate_idx: m.crate_idx, item_id: kids[j - 1] };
        lemma_kid_step_extends(pkgs, prev->Ok_0, res_f(pkgs, kid, f), vis, f);
        lemma_kids_prefix(pkgs, m, kids, i, (j - 1) as nat, vis, f);
        let a = kids_f(pkgs, m, kids, i, vis, f)->Ok_0;
        let b = prev->Ok_0;
        let c = kids_f(pkgs, m, kids, j, vis, f)->Ok_0;
        assert(c.subrange(0, a.len() as int) =~= b.subrange(0, a.len() as int));
    } else {
        let a = kids_f(pkgs, m, kids, i, vis, f)->Ok_0;
        assert(a.subrange(0, a.len() as int) =~= a);
    }
}

/// The children of the module that `m` names.
pub open spec fn module_items(pkgs: Seq<Package>, m: AbsId) -> Option<Seq<u32>> {
    if m.crate_idx < pkgs.len() {
        match pkgs[m.crate_idx as int].doc.item_at(m.item_id) {
            Some(it) => match it.kind {
                ItemKind::Module { items, .. } => Some(items@),
                _ => None,
            },
            None => None,
        }
    } else {
        None
    }
}

/// The target of the unnamed glob import that `c` names.
pub open spec fn glob_target(pkgs: Seq<Package>, c: AbsId) -> Option<u32> {
    if c.crate_idx < pkgs.len() {
        match pkgs[c.crate_idx as int].doc.item_at(c.item_id) {
            Some(it) => match (it.name, it.kind) {
                (None, ItemKind::Use { id: Some(t), is_glob: true, .. }) => Some(t),
                _ => None,
            },
            None => None,
        }
    } else {
        None
    }
}

/// `n` is the name of the canonical referent of a child of the module `m` (`d` is
/// zero), or is reached so `d` glob imports deep: through an unnamed glob import
/// among `m`'s children whose target canonicalises to a module `g` not under
/// expansion already. Fuel `f` is that of `m`'s namespace; each level uses one less.
pub open spec fn name_reached(pkgs: Seq<Package>, m: AbsId, vis: Seq<AbsId>, f: nat, d: nat, n: Seq<char>) -> bool
    decreases d,
{
    let items = module_items(pkgs, m)->Some_0;
    &&& f > 0
    &&& module_items(pkgs, m) is Some
    &&& exists|i: int| 0 <= i < items.len() && #[trigger] child_reaches(pkgs, m, items[i], f) && ({
        let c = res_f(pkgs, AbsId { crate_idx: m.crate_idx, item_id: items[i] }, (f - 1) as nat)->Canon_0;
        if d == 0 {
            named(pkgs, c, n)
        } else {
            &&& glob_target(pkgs, c) is Some
            &&& res_f(pkgs, AbsId { crate_idx: c.crate_idx, item_id: glob_target(pkgs, c)->Some_0 }, (f - 1) as nat) is Canon
            &&& ({
                let g = res_f(pkgs, AbsId { crate_idx: c.crate_idx, item_id: glob_target(pkgs, c)->Some_0 }, (f - 1) as nat)->Canon_0;
                &&& !vis.contains(g)
                &&& name_reached(pkgs, g, vis.push(g), (f - 1) as nat, (d - 1) as nat, n)
            })
        }
    })
}

/// The child `kid` of `m` canonicalises within `f - 1`.
pub open spec fn child_reaches(pkgs: Seq<Package>, m: AbsId, kid: u32, f: nat) -> bool {
    f > 0 && res_f(pkgs, AbsId { crate_idx: m.crate_idx, item_id: kid }, (f - 1) as nat) is Canon
}

/// The item that `c` names carries the name `n`.
pub open spec fn named(pkgs: Seq<Package>, c: AbsId, n: Seq<char>) -> bool {
    &&& c.crate_idx < pkgs.len()
    &&& pkgs[c.crate_idx as int].doc.item_at(c.item_id) is Some
    &&& pkgs[c.crate_idx as int].doc.item_at(c.item_id)->Some_0.name is Some
    &&& pkgs[c.crate_idx as int].doc.item_at(c.item_id)->Some_0.name->Some_0@ == n
}

/// Namespace totality at any depth: every name reached through a chain of glob
/// imports from a module is bound in that module's namespace.
pub proof fn lemma_names_reached_bound(pkgs: Seq<Package>, m: AbsId, vis: Seq<AbsId>, f: nat, d: nat, n: Seq<char>)
    requires
        ns_f(pkgs, m, vis, f) is Ok,
        name_reached(pkgs, m, vis, f, d, n),
    ensures
        ns_lookup(ns_f(pkgs, m, vis, f)->Ok_0, n) is Some,
    decreases d,
{
    let items = module_items(pkgs, m)->Some_0;
    let i = choose|i: int| 0 <= i < items.len() && #[trigger] child_reaches(pkgs, m, items[i], f) && ({
        let c = res_f(pkgs, AbsId { crate_idx: m.crate_idx, item_id: items[i] }, (f - 1) as nat)->Canon_0;
        if d == 0 {
            named(pkgs, c, n)
        } else {
            &&& glob_target(pkgs, c) is Some
            &&& res_f(pkgs, AbsId { crate_idx: c.crate_idx, item_id: glob_target(pkgs, c)->Some_0 }, (f - 1) as nat) is Canon
            &&& ({
                let g = res_f(pkgs, AbsId { crate_idx: c.crate_idx, item_id: glob_target(pkgs, c)->Some_0 }, (f - 1) as nat)->Canon_0;
                &&& !vis.contains(g)
                &&& name_reached(pkgs, g, vis.push(g), (f - 1) as nat, (d - 1) as nat, n)
            })
        }
    });
    let f1 = (f - 1) as nat;
    let kid = AbsId { crate_idx: m.crate_idx, item_id: items[i] };
    let c = res_f(pkgs, kid, f1)->Canon_0;
    let total = ns_f(pkgs, m, vis, f)->Ok_0;
    assert(total == kids_f(pkgs, m, items, items.len(), vis, f1)->Ok_0);
    lemma_kids_prefix(pkgs, m, items, (i + 1) as nat, items.len(), vis, f1);
    lemma_kids_prefix(pkgs, m, items, i as nat, (i + 1) as nat, vis, f1);
    let acc = kids_f(pkgs, m, items, i as nat, vis, f1)->Ok_0;
    let next = kids_f(pkgs, m, items, (i + 1) as nat, vis, f1)->Ok_0;
    assert(kids_f(pkgs, m, items, (i + 1) as nat, vis, f1) == kid_step(pkgs, acc, Outcome::Canon(c), vis, f1));
    let k: int;
    if d == 0 {
        let nm = pkgs[c.crate_idx as int].doc.item_at(c.item_id)->Some_0.name->Some_0;
        assert(next == acc.push((nm@, c)));
        k = acc.len() as int;
        assert(next[k].0 == n);
    } else {
        let t = glob_target(pkgs, c)->Some_0;
        let g = res_f(pkgs, AbsId { crate_idx: c.crate_idx, item_id: t }, f1)->Canon_0;
        assert(kid_step(pkgs, acc, Outcome::Canon(c), vis, f1) == glob_step(pkgs, acc, Outcome::Canon(g), vis, f1));
        assert(ns_f(pkgs, g, vis.push(g), f1) is Ok);
        let gns = ns_f(pkgs, g, vis.push(g), f1)->Ok_0;
        assert(next == acc + gns);
        lemma_names_reached_bound(pkgs, g, vis.push(g), f1, (d - 1) as nat, n);
        lemma_lookup_some(gns, n);
        let k0 = choose|k0: int| 0 <= k0 < gns.len() && (#[trigger] gns[k0]).0 == n;
        k = acc.len() + k0;
        assert(next[k] == gns[k0]);
    }
    assert(total.subrange(0, next.len() as int) == next);
    assert(total[k] == next[k]);
    lemma_lookup_some(total, n);
}

/// Namespace totality for a memoised namespace: a name reached through glob
/// imports at any depth, at any fuel whose namespace computation succeeds, is
/// bound in the namespace that the memo tables hold for the module.
pub proof fn lemma_memo_names_bound(
    pkgs: Seq<Package>,
    memo: crate::resolve::Memo,
    m: AbsId,
    f: nat,
    d: nat,
    n: Seq<char>,
)
    requires
        memo.wf(pkgs),
        memo.ns_entry(m) is Some,
        ns_f(pkgs, m, seq![m], f) is Ok,
        name_reached(pkgs, m, seq![m], f, d, n),
    ensures
        ns_lookup(crate::resolve::log_view(memo.ns_entry(m)->Some_0@), n) is Some,
{
    let v = memo.ns_entry(m)->Some_0;
    let g = choose|g: nat| ns_f(pkgs, m, seq![m], g) == Ok::<NsLog, Outcome>(crate::resolve::log_view(v@));
    crate::resolve::lemma_ns_unique(pkgs, m, seq![m], g, f);
    lemma_names_reached_bound(pkgs, m, seq![m], f, d, n);
}

/// When one traversal starts from the entries of another, every id that the first
/// found is among those that the second found.
pub proof fn lemma_containment(importable: Seq<(CanonId, String)>, visible: Seq<(CanonId, String)>, id: AbsId)
    requires
        visible.len() >= importable.len(),
        visible.subrange(0, importable.len() as int) == importable,
        has_key(importable, id),
    ensures
        has_key(visible, id),
{
    let j = choose|j: int| 0 <= j < importable.len() && (#[trigger] importable[j]).0.0 == id;
    assert(visible[j] == visible.subrange(0, importable.len() as int)[j]);
}

/// A traversal's result gives each id one label: two entries with one id are one
/// entry.
pub proof fn lemma_one_label(pkgs: Seq<Package>, s: Seq<(CanonId, String)>, j: int, k: int)
    requires
        labels_wf(pkgs, s),
        0 <= j < s.len(),
        0 <= k < s.len(),
        s[j].0 == s[k].0,
    ensures
        j == k,
{
}

} // verus!
