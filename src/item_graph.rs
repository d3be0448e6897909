//! The package registry and the breadth-first traversal over canonical ids.
use vstd::prelude::*;
use crate::ids::{AbsId, CanonId, ModuleId};
use crate::labels::{
    child_label, insert_sorted, is_public, is_public_spec, label_of, sorted_lex, underscored, underscored_view, views,
};
use crate::linkers::{importable_links, link_importable, link_visible, visible_links, BfsLinker, Link};
use crate::model::{DocIndex, ItemKind};
use crate::resolve::{
    cached_outcome, derived, find_package_exec, load_root, outcome_of, path_derived, resolve_in, resolve_path_in, segs_from,
    Failure, Memo, ResolveErr,
};
use crate::semantics::{
    find_package, is_canonical, lemma_find_package_bound, lemma_load_canonical, lemma_res_canonical, load_outcome, path_f, pkgs_wf, res_f,
    Outcome, Package,
};

verus! {

/// The fuel that one canonicalisation may use: the depth of re-export chains,
/// path segments and glob imports that it follows.
pub const RESOLVE_DEPTH: u64 = 128;

/// Why a package could not be added to the registry.
#[derive(Debug)]
pub enum LoadErr {
    /// Its index holds no root module.
    NoRootModule,
    /// A package of that name is loaded already.
    AlreadyLoaded,
}

/// Which successors the traversal follows.
#[derive(Clone, Copy, Debug, PartialEq, Eq, Structural)]
pub enum LinkMode {
    /// Children of modules and targets of glob imports.
    Importable,
    /// Ids that signatures mention.
    Visible,
}

/// What stops a traversal.
#[derive(Debug)]
pub enum BfsErr {
    /// The package of this name has to be loaded first.
    Need(String),
    /// The root package is a standard-library package.
    RootIgnored,
    /// An item under this label holds a construct that the analysis does not support.
    Unsupported(String),
    /// A child of the item under this label has no name to label it with.
    Unnamed(String),
    /// The packages hold more items than one table can index.
    TooLarge,
}

/// A child that could not be canonicalised: the label of its parent, its own id,
/// and why.
#[derive(Debug)]
pub struct Skipped {
    pub parent: String,
    pub child: AbsId,
    pub failure: Failure,
}

/// What a traversal found: each canonical id with its label, in the order of
/// discovery, and the children that it had to leave out.
#[derive(Debug)]
pub struct BfsOutput {
    pub labels: Vec<(CanonId, String)>,
    pub skipped: Vec<Skipped>,
    /// Positions in `labels` of the entries whose successors were followed, in order.
    pub expanded: Vec<usize>,
}

/// A traversal that stopped: why, what it had found by then, and the position in
/// `partial.expanded` of the entry it was expanding (0 where it stopped before
/// expanding any).
#[derive(Debug)]
pub struct BfsFailure {
    pub error: BfsErr,
    pub partial: BfsOutput,
    pub at: usize,
}

/// The successors that `mode` follows from an item.
pub open spec fn mode_links(mode: LinkMode, item: crate::model::Item) -> Seq<Link> {
    match mode {
        LinkMode::Importable => importable_links(item),
        LinkMode::Visible => visible_links(item),
    }
}

/// Whether `p` names a glob import.
pub open spec fn is_glob_use(pkgs: Seq<Package>, p: AbsId) -> bool {
    &&& p.crate_idx < pkgs.len()
    &&& pkgs[p.crate_idx as int].doc.item_at(p.item_id) is Some
    &&& pkgs[p.crate_idx as int].doc.item_at(p.item_id)->Some_0.kind matches ItemKind::Use { is_glob, .. }
    &&& pkgs[p.crate_idx as int].doc.item_at(p.item_id)->Some_0.kind->Use_is_glob
}

/// Whether the successor `c` of `p` counts as public: the target of a glob import
/// does, since the import re-exports what the target makes importable; any other
/// child does when it is public where it is declared.
pub open spec fn passes(pkgs: Seq<Package>, p: AbsId, c: u32) -> bool {
    is_glob_use(pkgs, p) || is_public_spec(pkgs[p.crate_idx as int].doc, c)
}

/// The label of the successor `c` of `p`, labelled `parent_label`: the target of a
/// glob import keeps the importer's label, so that the names it brings in are
/// labelled at the importer; any other child is labelled as `label_of` says.
pub open spec fn label_via(pkgs: Seq<Package>, p: AbsId, parent_label: Seq<char>, c: u32) -> Option<Seq<char>> {
    if is_glob_use(pkgs, p) {
        Some(parent_label)
    } else {
        label_of(pkgs[p.crate_idx as int].doc, parent_label, c)
    }
}

/// The successor `link` of `parent` is accounted for in `labels`: where it passes
/// the public filter and canonicalises within `RESOLVE_DEPTH`, its canonical id
/// has a label. An unsupported construct is never accounted for.
pub open spec fn child_covered(pkgs: Seq<Package>, labels: Seq<(CanonId, String)>, parent: AbsId, link: Link, require_public: bool) -> bool {
    match link {
        Link::Id(c) => {
            let cid = AbsId { crate_idx: parent.crate_idx, item_id: c };
            (!require_public || passes(pkgs, parent, c)) && res_f(pkgs, cid, RESOLVE_DEPTH as nat) is Canon
                ==> has_key(labels, res_f(pkgs, cid, RESOLVE_DEPTH as nat)->Canon_0)
        },
        Link::Unsupported => false,
    }
}

/// Every successor of the entry at `pos` is accounted for in `labels`.
pub open spec fn expanded_closed(pkgs: Seq<Package>, labels: Seq<(CanonId, String)>, pos: int, mode: LinkMode, require_public: bool) -> bool {
    let id = labels[pos].0.0;
    let links = mode_links(mode, pkgs[id.crate_idx as int].doc.item_at(id.item_id)->Some_0);
    forall|k: int| 0 <= k < links.len() ==> child_covered(pkgs, labels, id, #[trigger] links[k], require_public)
}

/// The entry at `j` is the `k`-th successor of the entry expanded `q`-th: that
/// successor passes the public filter, canonicalises to the entry's id, and gets
/// the entry's label from its parent's.
pub open spec fn justifies(
    pkgs: Seq<Package>,
    labels: Seq<(CanonId, String)>,
    expanded: Seq<usize>,
    j: int,
    q: int,
    k: int,
    mode: LinkMode,
    require_public: bool,
) -> bool {
    &&& 0 <= q < expanded.len()
    &&& expanded[q] < j
    &&& ({
        let p = labels[expanded[q] as int].0.0;
        let doc = pkgs[p.crate_idx as int].doc;
        let links = mode_links(mode, doc.item_at(p.item_id)->Some_0);
        &&& 0 <= k < links.len()
        &&& links[k] is Id
        &&& (!require_public || passes(pkgs, p, links[k]->Id_0))
        &&& derived(pkgs, AbsId { crate_idx: p.crate_idx, item_id: links[k]->Id_0 }, Outcome::Canon(labels[j].0.0))
        &&& label_via(pkgs, p, labels[expanded[q] as int].1@, links[k]->Id_0) == Some(labels[j].1@)
    })
}

/// The entry at `j` was found through a public successor of an expanded entry.
pub open spec fn entry_found_public(
    pkgs: Seq<Package>,
    labels: Seq<(CanonId, String)>,
    expanded: Seq<usize>,
    j: int,
    mode: LinkMode,
    require_public: bool,
) -> bool {
    exists|q: int, k: int| #[trigger] justifies(pkgs, labels, expanded, j, q, k, mode, require_public) && {
        let p = labels[expanded[q] as int].0.0;
        let doc = pkgs[p.crate_idx as int].doc;
        passes(pkgs, p, mode_links(mode, doc.item_at(p.item_id)->Some_0)[k]->Id_0)
    }
}

/// The `k`-th successor of the entry expanded `q`-th passes the filter and
/// canonicalises to `x` within `RESOLVE_DEPTH`.
pub open spec fn reaches(
    pkgs: Seq<Package>,
    labels: Seq<(CanonId, String)>,
    expanded: Seq<usize>,
    q: int,
    k: int,
    x: AbsId,
    mode: LinkMode,
    require_public: bool,
) -> bool {
    &&& 0 <= q < expanded.len()
    &&& ({
        let p = labels[expanded[q] as int].0.0;
        let links = links_of(pkgs, mode, p);
        &&& 0 <= k < links.len()
        &&& links[k] is Id
        &&& (!require_public || passes(pkgs, p, links[k]->Id_0))
        &&& res_f(pkgs, AbsId { crate_idx: p.crate_idx, item_id: links[k]->Id_0 }, RESOLVE_DEPTH as nat) == Outcome::Canon(x)
    })
}

/// `justifies` for the first successor that reaches the entry: no successor earlier
/// in expansion order, and then in link order, reaches its id.
pub open spec fn first_justifies(
    pkgs: Seq<Package>,
    labels: Seq<(CanonId, String)>,
    expanded: Seq<usize>,
    j: int,
    q: int,
    k: int,
    mode: LinkMode,
    require_public: bool,
) -> bool {
    &&& justifies(pkgs, labels, expanded, j, q, k, mode, require_public)
    &&& forall|q2: int, k2: int| (q2 < q || (q2 == q && k2 < k))
        ==> !#[trigger] reaches(pkgs, labels, expanded, q2, k2, labels[j].0.0, mode, require_public)
}

/// The entry at `j` was found first through a successor that labels it, and that is
/// public exactly when the entry is expanded.
pub open spec fn expanded_iff_public(
    pkgs: Seq<Package>,
    labels: Seq<(CanonId, String)>,
    expanded: Seq<usize>,
    j: int,
    mode: LinkMode,
    require_public: bool,
) -> bool {
    exists|q: int, k: int| #[trigger] first_justifies(pkgs, labels, expanded, j, q, k, mode, require_public) && ({
        let p = labels[expanded[q] as int].0.0;
        let doc = pkgs[p.crate_idx as int].doc;
        passes(pkgs, p, mode_links(mode, doc.item_at(p.item_id)->Some_0)[k]->Id_0) <==> expanded.contains(j as usize)
    })
}

/// The successors that `mode` follows from the item that `p` names.
pub open spec fn links_of(pkgs: Seq<Package>, mode: LinkMode, p: AbsId) -> Seq<Link> {
    mode_links(mode, pkgs[p.crate_idx as int].doc.item_at(p.item_id)->Some_0)
}

/// The `k`-th successor of the canonical `p` canonicalises to `Need(n)`.
pub open spec fn child_needs(pkgs: Seq<Package>, mode: LinkMode, p: AbsId, k: int, n: Seq<char>) -> bool {
    &&& is_canonical(pkgs, p)
    &&& 0 <= k < links_of(pkgs, mode, p).len()
    &&& links_of(pkgs, mode, p)[k] is Id
    &&& exists|g: nat| res_f(pkgs, AbsId { crate_idx: p.crate_idx, item_id: links_of(pkgs, mode, p)[k]->Id_0 }, g) == Outcome::Need(n)
}

/// The `k`-th successor of the canonical `p` is a construct the analysis does not support.
pub open spec fn link_unsupported(pkgs: Seq<Package>, mode: LinkMode, p: AbsId, k: int) -> bool {
    &&& is_canonical(pkgs, p)
    &&& 0 <= k < links_of(pkgs, mode, p).len()
    &&& links_of(pkgs, mode, p)[k] is Unsupported
}

/// The `k`-th successor of the canonical `p` has no name to label it with.
pub open spec fn link_unnamed(pkgs: Seq<Package>, mode: LinkMode, p: AbsId, k: int) -> bool {
    &&& is_canonical(pkgs, p)
    &&& !is_glob_use(pkgs, p)
    &&& 0 <= k < links_of(pkgs, mode, p).len()
    &&& links_of(pkgs, mode, p)[k] is Id
    &&& crate::labels::segment_of(pkgs[p.crate_idx as int].doc, links_of(pkgs, mode, p)[k]->Id_0) is None
}


proof fn lemma_iff_extends(
    pkgs: Seq<Package>,
    old_labels: Seq<(CanonId, String)>,
    new_labels: Seq<(CanonId, String)>,
    old_expanded: Seq<usize>,
    new_expanded: Seq<usize>,
    j: int,
    mode: LinkMode,
    require_public: bool,
)
    requires
        0 <= j < old_labels.len() <= new_labels.len(),
        new_labels.subrange(0, old_labels.len() as int) == old_labels,
        old_expanded.len() <= new_expanded.len(),
        new_expanded.subrange(0, old_expanded.len() as int) == old_expanded,
        forall|q: int| 0 <= q < old_expanded.len() ==> #[trigger] old_expanded[q] < old_labels.len(),
        forall|q: int| old_expanded.len() <= q < new_expanded.len() ==> #[trigger] new_expanded[q] >= old_labels.len(),
        expanded_iff_public(pkgs, old_labels, old_expanded, j, mode, require_public),
    ensures
        expanded_iff_public(pkgs, new_labels, new_expanded, j, mode, require_public),
{
    let (q, k) = choose|q: int, k: int| #[trigger] first_justifies(pkgs, old_labels, old_expanded, j, q, k, mode, require_public) && ({
        let p = old_labels[old_expanded[q] as int].0.0;
        let doc = pkgs[p.crate_idx as int].doc;
        passes(pkgs, p, mode_links(mode, doc.item_at(p.item_id)->Some_0)[k]->Id_0) <==> old_expanded.contains(j as usize)
    });
    assert(new_expanded[q] == new_expanded.subrange(0, old_expanded.len() as int)[q]);
    let pos = old_expanded[q] as int;
    assert(new_labels[pos] == new_labels.subrange(0, old_labels.len() as int)[pos]);
    assert(new_labels[j] == new_labels.subrange(0, old_labels.len() as int)[j]);
    assert(justifies(pkgs, new_labels, new_expanded, j, q, k, mode, require_public));
    assert forall|q2: int, k2: int| (q2 < q || (q2 == q && k2 < k))
        implies !#[trigger] reaches(pkgs, new_labels, new_expanded, q2, k2, new_labels[j].0.0, mode, require_public) by {
        if 0 <= q2 {
            assert(new_expanded[q2] == new_expanded.subrange(0, old_expanded.len() as int)[q2]);
            let pos2 = old_expanded[q2] as int;
            assert(new_labels[pos2] == new_labels.subrange(0, old_labels.len() as int)[pos2]);
            assert(!reaches(pkgs, old_labels, old_expanded, q2, k2, old_labels[j].0.0, mode, require_public));
        }
    }
    assert(first_justifies(pkgs, new_labels, new_expanded, j, q, k, mode, require_public));
    if old_expanded.contains(j as usize) {
        let x = choose|x: int| 0 <= x < old_expanded.len() && old_expanded[x] == j as usize;
        assert(new_expanded[x] == new_expanded.subrange(0, old_expanded.len() as int)[x]);
    }
    if new_expanded.contains(j as usize) {
        let x = choose|x: int| 0 <= x < new_expanded.len() && new_expanded[x] == j as usize;
        if x < old_expanded.len() {
            assert(new_expanded[x] == new_expanded.subrange(0, old_expanded.len() as int)[x]);
        }
    }
}

pub open spec fn entry_justified(
    pkgs: Seq<Package>,
    labels: Seq<(CanonId, String)>,
    expanded: Seq<usize>,
    j: int,
    mode: LinkMode,
    require_public: bool,
) -> bool {
    exists|q: int, k: int| #[trigger] justifies(pkgs, labels, expanded, j, q, k, mode, require_public)
}

proof fn lemma_justified_extends(
    pkgs: Seq<Package>,
    old_labels: Seq<(CanonId, String)>,
    new_labels: Seq<(CanonId, String)>,
    old_expanded: Seq<usize>,
    new_expanded: Seq<usize>,
    j: int,
    mode: LinkMode,
    require_public: bool,
)
    requires
        0 <= j < old_labels.len() <= new_labels.len(),
        new_labels.subrange(0, old_labels.len() as int) == old_labels,
        old_expanded.len() <= new_expanded.len(),
        new_expanded.subrange(0, old_expanded.len() as int) == old_expanded,
        entry_justified(pkgs, old_labels, old_expanded, j, mode, require_public),
    ensures
        entry_justified(pkgs, new_labels, new_expanded, j, mode, require_public),
{
    let (q, k) = choose|q: int, k: int| #[trigger] justifies(pkgs, old_labels, old_expanded, j, q, k, mode, require_public);
    assert(new_expanded[q] == new_expanded.subrange(0, old_expanded.len() as int)[q]);
    let pos = old_expanded[q] as int;
    assert(new_labels[pos] == new_labels.subrange(0, old_labels.len() as int)[pos]);
    assert(new_labels[j] == new_labels.subrange(0, old_labels.len() as int)[j]);
    assert(justifies(pkgs, new_labels, new_expanded, j, q, k, mode, require_public));
}

proof fn lemma_found_public_extends(
    pkgs: Seq<Package>,
    old_labels: Seq<(CanonId, String)>,
    new_labels: Seq<(CanonId, String)>,
    old_expanded: Seq<usize>,
    new_expanded: Seq<usize>,
    j: int,
    mode: LinkMode,
    require_public: bool,
)
    requires
        0 <= j < old_labels.len() <= new_labels.len(),
        new_labels.subrange(0, old_labels.len() as int) == old_labels,
        old_expanded.len() <= new_expanded.len(),
        new_expanded.subrange(0, old_expanded.len() as int) == old_expanded,
        entry_found_public(pkgs, old_labels, old_expanded, j, mode, require_public),
    ensures
        entry_found_public(pkgs, new_labels, new_expanded, j, mode, require_public),
{
    let (q, k) = choose|q: int, k: int| #[trigger] justifies(pkgs, old_labels, old_expanded, j, q, k, mode, require_public) && {
        let p = old_labels[old_expanded[q] as int].0.0;
        let doc = pkgs[p.crate_idx as int].doc;
        passes(pkgs, p, mode_links(mode, doc.item_at(p.item_id)->Some_0)[k]->Id_0)
    };
    assert(new_expanded[q] == new_expanded.subrange(0, old_expanded.len() as int)[q]);
    let pos = old_expanded[q] as int;
    assert(new_labels[pos] == new_labels.subrange(0, old_labels.len() as int)[pos]);
    assert(new_labels[j] == new_labels.subrange(0, old_labels.len() as int)[j]);
    assert(justifies(pkgs, new_labels, new_expanded, j, q, k, mode, require_public));
}

proof fn lemma_covered_extends(
    pkgs: Seq<Package>,
    old_labels: Seq<(CanonId, String)>,
    new_labels: Seq<(CanonId, String)>,
    parent: AbsId,
    link: Link,
    require_public: bool,
)
    requires
        old_labels.len() <= new_labels.len(),
        new_labels.subrange(0, old_labels.len() as int) == old_labels,
        child_covered(pkgs, old_labels, parent, link, require_public),
    ensures
        child_covered(pkgs, new_labels, parent, link, require_public),
{
    if let Link::Id(c) = link {
        let cid = AbsId { crate_idx: parent.crate_idx, item_id: c };
        if (!require_public || passes(pkgs, parent, c)) && res_f(pkgs, cid, RESOLVE_DEPTH as nat) is Canon {
            let x = res_f(pkgs, cid, RESOLVE_DEPTH as nat)->Canon_0;
            let j = choose|j: int| 0 <= j < old_labels.len() && (#[trigger] old_labels[j]).0.0 == x;
            assert(new_labels[j] == new_labels.subrange(0, old_labels.len() as int)[j]);
        }
    }
}

proof fn lemma_closed_extends(
    pkgs: Seq<Package>,
    old_labels: Seq<(CanonId, String)>,
    new_labels: Seq<(CanonId, String)>,
    pos: int,
    mode: LinkMode,
    require_public: bool,
)
    requires
        0 <= pos < old_labels.len() <= new_labels.len(),
        new_labels.subrange(0, old_labels.len() as int) == old_labels,
        expanded_closed(pkgs, old_labels, pos, mode, require_public),
    ensures
        expanded_closed(pkgs, new_labels, pos, mode, require_public),
{
    assert(new_labels[pos] == old_labels[pos]);
    let id = old_labels[pos].0.0;
    let links = mode_links(mode, pkgs[id.crate_idx as int].doc.item_at(id.item_id)->Some_0);
    assert forall|k: int| 0 <= k < links.len() implies child_covered(pkgs, new_labels, id, #[trigger] links[k], require_public) by {
        if let Link::Id(c) = links[k] {
            let cid = AbsId { crate_idx: id.crate_idx, item_id: c };
            if (!require_public || passes(pkgs, id, c)) && res_f(pkgs, cid, RESOLVE_DEPTH as nat) is Canon {
                let x = res_f(pkgs, cid, RESOLVE_DEPTH as nat)->Canon_0;
                assert(child_covered(pkgs, old_labels, id, links[k], require_public));
                let j = choose|j: int| 0 <= j < old_labels.len() && (#[trigger] old_labels[j]).0.0 == x;
                assert(new_labels[j] == old_labels[j]);
            }
        }
    }
}

/// Ids that are distinct, and canonical.
pub open spec fn labels_wf(pkgs: Seq<Package>, s: Seq<(CanonId, String)>) -> bool {
    &&& forall|j: int, k: int| 0 <= j < k < s.len() ==> s[j].0 != s[k].0
    &&& forall|j: int| 0 <= j < s.len() ==> is_canonical(pkgs, #[trigger] s[j].0.0)
}

/// Whether `id` is a key of `s`.
pub open spec fn has_key(s: Seq<(CanonId, String)>, id: AbsId) -> bool {
    exists|j: int| 0 <= j < s.len() && (#[trigger] s[j]).0.0 == id
}

pub open spec fn count_true(s: Seq<bool>) -> nat
    decreases s.len(),
{
    if s.len() == 0 {
        0
    } else {
        count_true(s.drop_last()) + if s.last() { 1nat } else { 0nat }
    }
}

proof fn lemma_count_le(s: Seq<bool>)
    ensures
        count_true(s) <= s.len(),
    decreases s.len(),
{
    if s.len() > 0 {
        lemma_count_le(s.drop_last());
    }
}

proof fn lemma_count_set(s: Seq<bool>, i: int)
    requires
        0 <= i < s.len(),
        !s[i],
    ensures
        count_true(s.update(i, true)) == count_true(s) + 1,
    decreases s.len(),
{
    let t = s.update(i, true);
    if i == s.len() - 1 {
        assert(t.drop_last() =~= s.drop_last());
    } else {
        assert(t.drop_last() =~= s.drop_last().update(i, true));
        lemma_count_set(s.drop_last(), i);
    }
}

/// Where the seen-flags of each package start in one flat table.
pub open spec fn layout_ok(pkgs: Seq<Package>, off: Seq<usize>, total: nat) -> bool {
    &&& off.len() == pkgs.len()
    &&& forall|p: int| 0 <= p < pkgs.len() ==> #[trigger] off[p] + pkgs[p].doc.items@.len() <= total
    &&& forall|a: int, b: int| 0 <= a < b < pkgs.len() ==> #[trigger] off[a] + pkgs[a].doc.items@.len() <= #[trigger] off[b]
}

pub open spec fn slot_of(off: Seq<usize>, id: AbsId) -> int {
    off[id.crate_idx as int] + id.item_id
}

/// The traversal state: labels with distinct canonical ids, whose seen-flags are
/// exactly the set ones, and a queue of positions in the labels.
pub open spec fn state_ok(
    pkgs: Seq<Package>,
    off: Seq<usize>,
    total: nat,
    out: Seq<(CanonId, String)>,
    seen: Seq<bool>,
    queue: Seq<usize>,
) -> bool {
    &&& layout_ok(pkgs, off, total)
    &&& seen.len() == total
    &&& labels_wf(pkgs, out)
    &&& out.len() == count_true(seen)
    &&& forall|j: int| 0 <= j < out.len() ==> seen[slot_of(off, #[trigger] out[j].0.0)]
    &&& forall|x: int| 0 <= x < total && #[trigger] seen[x] ==> exists|j: int| 0 <= j < out.len() && slot_of(off, #[trigger] out[j].0.0) == x
    &&& forall|q: int| 0 <= q < queue.len() ==> #[trigger] queue[q] < out.len()
}

proof fn lemma_slot_range(pkgs: Seq<Package>, off: Seq<usize>, total: nat, id: AbsId)
    requires
        layout_ok(pkgs, off, total),
        is_canonical(pkgs, id),
    ensures
        0 <= slot_of(off, id) < total,
{
    assert(off[id.crate_idx as int] + pkgs[id.crate_idx as int].doc.items@.len() <= total);
}

proof fn lemma_slot_injective(pkgs: Seq<Package>, off: Seq<usize>, total: nat, a: AbsId, b: AbsId)
    requires
        layout_ok(pkgs, off, total),
        is_canonical(pkgs, a),
        is_canonical(pkgs, b),
        slot_of(off, a) == slot_of(off, b),
    ensures
        a == b,
{
    let p = a.crate_idx as int;
    let q = b.crate_idx as int;
    if p < q {
        assert(off[p] + pkgs[p].doc.items@.len() <= off[q]);
    } else if q < p {
        assert(off[q] + pkgs[q].doc.items@.len() <= off[p]);
    }
}

/// How many items the first `n` packages hold in all.
pub open spec fn items_total(pkgs: Seq<Package>, n: nat) -> nat
    decreases n,
{
    if n == 0 {
        0
    } else {
        items_total(pkgs, (n - 1) as nat) + pkgs[n - 1].doc.items@.len()
    }
}

/// Whether one table can index every item of the packages.
pub open spec fn fits(pkgs: Seq<Package>) -> bool {
    items_total(pkgs, pkgs.len()) <= usize::MAX
}

proof fn lemma_items_total_mono(pkgs: Seq<Package>, a: nat, b: nat)
    requires
        a <= b,
    ensures
        items_total(pkgs, a) <= items_total(pkgs, b),
    decreases b - a,
{
    if a < b {
        lemma_items_total_mono(pkgs, a, (b - 1) as nat);
    }
}

/// Lays the seen-flags of all packages out in one table.
fn layout(pkgs: &Vec<Package>) -> (r: Option<(Vec<usize>, usize)>)
    ensures
        r matches Some(x) ==> layout_ok(pkgs@, x.0@, x.1 as nat),
        r is None <==> !fits(pkgs@),
{
    let mut off: Vec<usize> = Vec::new();
    let mut total: usize = 0;
    let mut p: usize = 0;
    while p < pkgs.len()
        invariant
            p <= pkgs@.len(),
            off@.len() == p,
            forall|q: int| 0 <= q < p ==> #[trigger] off@[q] + pkgs@[q].doc.items@.len() <= total,
            forall|a: int, b: int| 0 <= a < b < p ==> #[trigger] off@[a] + pkgs@[a].doc.items@.len() <= #[trigger] off@[b],
            total == items_total(pkgs@, p as nat),
        decreases pkgs@.len() - p,
    {
        let n = pkgs[p].doc.items.len();
        if total > usize::MAX - n {
            proof {
                lemma_items_total_mono(pkgs@, (p + 1) as nat, pkgs@.len());
            }
            return None;
        }
        off.push(total);
        total = total + n;
        p += 1;
    }
    Some((off, total))
}

fn slot(off: &Vec<usize>, id: AbsId, pkgs: &Vec<Package>, total: usize) -> (r: usize)
    requires
        layout_ok(pkgs@, off@, total as nat),
        is_canonical(pkgs@, id),
    ensures
        r == slot_of(off@, id),
        r < total,
{
    proof {
        lemma_slot_range(pkgs@, off@, total as nat, id);
    }
    off[id.crate_idx] + id.item_id as usize
}

/// Adds the entry `(c, label)`, new to the traversal, and queues it when `enqueue`.
fn add_entry(
    pkgs: &Vec<Package>,
    off: &Vec<usize>,
    total: usize,
    out: &mut Vec<(CanonId, String)>,
    seen: &mut Vec<bool>,
    queue: &mut Vec<usize>,
    c: CanonId,
    label: String,
    enqueue: bool,
)
    requires
        state_ok(pkgs@, off@, total as nat, old(out)@, old(seen)@, old(queue)@),
        is_canonical(pkgs@, c.0),
        !old(seen)@[slot_of(off@, c.0)],
    ensures
        state_ok(pkgs@, off@, total as nat, final(out)@, final(seen)@, final(queue)@),
        final(out)@ == old(out)@.push((c, label)),
        final(queue)@ == if enqueue { old(queue)@.push(old(out)@.len() as usize) } else { old(queue)@ },
{
    proof {
        lemma_slot_range(pkgs@, off@, total as nat, c.0);
        lemma_count_le(old(seen)@);
    }
    let s = slot(off, c.0, pkgs, total);
    let ghost out0 = out@;
    let ghost seen0 = seen@;
    let ghost queue0 = queue@;
    out.push((c, label));
    seen.set(s, true);
    if enqueue {
        queue.push(out.len() - 1);
    }
    proof {
        lemma_count_set(seen0, s as int);
        assert forall|j: int| 0 <= j < out0.len() implies out0[j].0 != c by {
            assert(seen0[slot_of(off@, out0[j].0.0)]);
        }
        assert forall|j: int, k: int| 0 <= j < k < out@.len() implies out@[j].0 != out@[k].0 by {
            if k == out0.len() {
                assert(out@[j] == out0[j]);
            } else {
                assert(out@[j] == out0[j] && out@[k] == out0[k]);
            }
        }
        assert forall|j: int| 0 <= j < out@.len() implies is_canonical(pkgs@, #[trigger] out@[j].0.0) by {
            if j < out0.len() {
                assert(out@[j] == out0[j]);
            }
        }
        assert forall|j: int| 0 <= j < out@.len() implies seen@[slot_of(off@, #[trigger] out@[j].0.0)] by {
            if j < out0.len() {
                assert(out@[j] == out0[j]);
                assert(seen0[slot_of(off@, out0[j].0.0)]);
            }
        }
        assert forall|x: int| 0 <= x < total && #[trigger] seen@[x] implies exists|j: int| 0 <= j < out@.len() && slot_of(off@, #[trigger] out@[j].0.0) == x by {
            if x == s {
                assert(out@[out0.len() as int].0.0 == c.0);
            } else {
                assert(seen0[x]);
                let j = choose|j: int| 0 <= j < out0.len() && slot_of(off@, #[trigger] out0[j].0.0) == x;
                assert(out@[j] == out0[j]);
            }
        }
        assert forall|q: int| 0 <= q < queue@.len() implies #[trigger] queue@[q] < out@.len() by {
            if q < queue0.len() {
                assert(queue@[q] == queue0[q]);
            }
        }
    }
}

/// Handles one successor `child` of the item `parent`, labelled `parent_label`: skips
/// it when it is private and `require_public` holds, canonicalises it, and records
/// a canonical id not seen before (queued when it is public).
fn visit_child(
    pkgs: &Vec<Package>,
    memo: &mut Memo,
    off: &Vec<usize>,
    total: usize,
    out: &mut Vec<(CanonId, String)>,
    seen: &mut Vec<bool>,
    queue: &mut Vec<usize>,
    skipped: &mut Vec<Skipped>,
    parent: AbsId,
    parent_label: &String,
    child: u32,
    require_public: bool,
    parent_glob: bool,
) -> (r: Result<(), BfsErr>)
    requires
        parent_glob == is_glob_use(pkgs@, parent),
        pkgs_wf(pkgs@),
        old(memo).wf(pkgs@),
        state_ok(pkgs@, off@, total as nat, old(out)@, old(seen)@, old(queue)@),
        parent.crate_idx < pkgs@.len(),
    ensures
        final(memo).wf(pkgs@),
        state_ok(pkgs@, off@, total as nat, final(out)@, final(seen)@, final(queue)@),
        final(out)@.len() >= old(out)@.len(),
        final(out)@.subrange(0, old(out)@.len() as int) == old(out)@,
        final(out)@.len() == old(out)@.len() ==> final(queue)@ == old(queue)@,
        final(queue)@.len() >= old(queue)@.len(),
        final(queue)@.subrange(0, old(queue)@.len() as int) == old(queue)@,
        r is Err ==> final(out)@ == old(out)@ && final(queue)@ == old(queue)@,
        r is Err ==> (r->Err_0 is Need && exists|g: nat| res_f(pkgs@, AbsId { crate_idx: parent.crate_idx, item_id: child }, g)
            == Outcome::Need(r->Err_0->Need_0@))
            || (r->Err_0 is Unnamed && !is_glob_use(pkgs@, parent)
                && crate::labels::segment_of(pkgs@[parent.crate_idx as int].doc, child) is None),
        final(out)@.len() > old(out)@.len() ==> {
            &&& final(out)@.len() == old(out)@.len() + 1
            &&& (!require_public || passes(pkgs@, parent, child))
            &&& derived(pkgs@, AbsId { crate_idx: parent.crate_idx, item_id: child }, Outcome::Canon(final(out)@.last().0.0))
            &&& label_via(pkgs@, parent, parent_label@, child) == Some(final(out)@.last().1@)
            &&& final(queue)@ == if passes(pkgs@, parent, child) {
                old(queue)@.push(old(out)@.len() as usize)
            } else {
                old(queue)@
            }
        },
        ({
            let cid = AbsId { crate_idx: parent.crate_idx, item_id: child };
            r is Ok && (!require_public || passes(pkgs@, parent, child))
                && res_f(pkgs@, cid, RESOLVE_DEPTH as nat) is Canon
                ==> has_key(final(out)@, res_f(pkgs@, cid, RESOLVE_DEPTH as nat)->Canon_0)
        }),
{
    let cid = parent.same_crate(child);
    let doc = &pkgs[parent.crate_idx].doc;
    let is_pub = parent_glob || is_public(doc, child);
    assert(queue@.subrange(0, queue@.len() as int) =~= queue@);
    if require_public && !is_pub {
        assert(out@.subrange(0, out@.len() as int) =~= out@);
        return Ok(());
    }
    match resolve_in(pkgs, memo, cid, RESOLVE_DEPTH) {
        Ok(c) => {
            proof {
                let g = choose|g: nat| res_f(pkgs@, cid, g) == Outcome::Canon(c.0);
                lemma_res_canonical(pkgs@, cid, g);
            }
            let s = slot(off, c.0, pkgs, total);
            if seen[s] {
                proof {
                    let j = choose|j: int| 0 <= j < out@.len() && slot_of(off@, #[trigger] out@[j].0.0) == s as int;
                    lemma_slot_injective(pkgs@, off@, total as nat, out@[j].0.0, c.0);
                    assert(out@.subrange(0, out@.len() as int) =~= out@);
                }
                return Ok(());
            }
            let label = if parent_glob {
                Some(parent_label.clone())
            } else {
                child_label(doc, parent_label, child)
            };
            match label {
                None => {
                    assert(out@.subrange(0, out@.len() as int) =~= out@);
                    Err(BfsErr::Unnamed(parent_label.clone()))
                },
                Some(lbl) => {
                    let ghost out0 = out@;
                    let ghost queue0 = queue@;
                    add_entry(pkgs, off, total, out, seen, queue, c, lbl, is_pub);
                    proof {
                        assert(queue@.subrange(0, queue0.len() as int) =~= queue0);
                        assert(out@.subrange(0, out0.len() as int) =~= out0);
                        assert(out@[out0.len() as int].0.0 == c.0);
                    }
                    Ok(())
                },
            }
        },
        Err(ResolveErr::Ignore) => {
            assert(out@.subrange(0, out@.len() as int) =~= out@);
            Ok(())
        },
        Err(ResolveErr::Need(n)) => {
            assert(out@.subrange(0, out@.len() as int) =~= out@);
            Err(BfsErr::Need(n))
        },
        Err(ResolveErr::Fail(f)) => {
            skipped.push(Skipped { parent: parent_label.clone(), child: cid, failure: f });
            assert(out@.subrange(0, out@.len() as int) =~= out@);
            Ok(())
        },
    }
}

/// Lazy registry of the packages that an analysis reads, with their memo tables.
pub struct GraphCache {
    /// The package whose API surface is analysed.
    pub root_package: String,
    pub packages: Vec<Package>,
    pub memo: Memo,
}

impl GraphCache {
    pub open spec fn wf(&self) -> bool {
        &&& pkgs_wf(self.packages@)
        &&& self.memo.wf(self.packages@)
    }

    /// An empty registry for the analysis of `root_package`.
    pub fn new(root_package: String) -> (r: GraphCache)
        ensures
            r.wf(),
            r.packages@.len() == 0,
            r.root_package == root_package,
    {
        GraphCache { root_package, packages: Vec::new(), memo: Memo::empty(0) }
    }

    /// Adds the package `name` with its index, unless the index has no root module
    /// or the name is taken. Memoised results, computed against fewer packages, are
    /// dropped.
    pub fn add_package(&mut self, name: String, doc: DocIndex) -> (r: Result<ModuleId, LoadErr>)
        requires
            old(self).wf(),
            old(self).packages@.len() < usize::MAX,
        ensures
            final(self).wf(),
            final(self).root_package == old(self).root_package,
            r is Ok <==> find_package(old(self).packages@, name@, old(self).packages@.len()) is None
                && exists|i: int| 0 <= i <= u32::MAX && doc.is_root_module(i),
            r matches Ok(m) ==> {
                &&& final(self).packages@.len() == old(self).packages@.len() + 1
                &&& final(self).packages@.drop_last() == old(self).packages@
                &&& final(self).packages@.last().name == name
                &&& final(self).packages@.last().doc == doc
                &&& m.0.0 == (AbsId { crate_idx: old(self).packages@.len() as usize, item_id: final(self).packages@.last().root })
                &&& forall|j: int| 0 <= j < final(self).packages@.last().root ==> !doc.is_root_module(j)
            },
            r is Err ==> final(self).packages == old(self).packages,
            r is Ok ==> forall|x: AbsId| final(self).memo.entry(x) is None && final(self).memo.ns_entry(x) is None,
            r matches Err(LoadErr::AlreadyLoaded) ==> find_package(old(self).packages@, name@, old(self).packages@.len()) is Some,
    {
        if find_package_exec(&self.packages, &name).is_some() {
            return Err(LoadErr::AlreadyLoaded);
        }
        let root = match doc.find_root_module() {
            Some(root) => root,
            None => {
                return Err(LoadErr::NoRootModule);
            },
        };
        let idx = self.packages.len();
        let ghost old_pkgs = self.packages@;
        self.packages.push(Package { name, doc, root });
        self.memo = Memo::empty(self.packages.len());
        proof {
            assert(self.packages@.drop_last() =~= old_pkgs);
            assert forall|i: int| 0 <= i < self.packages@.len() implies #[trigger] self.packages@[i].doc.is_root_module(self.packages@[i].root as int) by {
                if i < old_pkgs.len() {
                    assert(self.packages@[i] == old_pkgs[i]);
                }
            }
        }
        Ok(ModuleId(CanonId(AbsId { crate_idx: idx, item_id: root })))
    }

    /// The root module of the loaded package `crate_name`.
    pub fn resolve_crate(&self, crate_name: &String) -> (r: Result<ModuleId, ResolveErr>)
        ensures
            outcome_of(match r { Ok(m) => Ok(m.0), Err(e) => Err(e) }) == load_outcome(self.packages@, crate_name@),
    {
        load_root(&self.packages, crate_name)
    }

    /// Canonicalises `id`.
    ///
    /// The outcome is the one that `RESOLVE_DEPTH` derives when that depth suffices;
    /// otherwise it is `TooDeep`, or the outcome that a larger depth derives.
    pub fn resolve(&mut self, id: AbsId) -> (r: Result<CanonId, ResolveErr>)
        requires
            old(self).wf(),
        ensures
            final(self).wf(),
            final(self).packages == old(self).packages,
            final(self).root_package == old(self).root_package,
            derived(old(self).packages@, id, outcome_of(r)),
            res_f(old(self).packages@, id, RESOLVE_DEPTH as nat) != Outcome::Deep
                ==> outcome_of(r) == res_f(old(self).packages@, id, RESOLVE_DEPTH as nat),
            r matches Ok(c) ==> is_canonical(old(self).packages@, c.0),
            is_canonical(old(self).packages@, id) ==> r is Ok && r->Ok_0.0 == id,
            old(self).memo.entry(id) is Some ==> outcome_of(r) == cached_outcome(old(self).memo.entry(id)->Some_0)
                && final(self).memo == old(self).memo,
    {
        proof {
            if is_canonical(self.packages@, id) {
                crate::laws::lemma_canonical_fixed(self.packages@, id, RESOLVE_DEPTH as nat);
            }
        }
        let r = resolve_in(&self.packages, &mut self.memo, id, RESOLVE_DEPTH);
        proof {
            if r is Ok {
                let g = choose|g: nat| res_f(self.packages@, id, g) == outcome_of(r);
                lemma_res_canonical(self.packages@, id, g);
            }
        }
        r
    }

    /// Resolves `path` below the root module of the package `crate_name`.
    pub fn resolve2(&mut self, crate_name: &String, path: &Vec<String>) -> (r: Result<CanonId, ResolveErr>)
        requires
            old(self).wf(),
        ensures
            final(self).wf(),
            final(self).packages == old(self).packages,
            final(self).root_package == old(self).root_package,
            !(load_outcome(old(self).packages@, crate_name@) is Canon) ==> outcome_of(r) == load_outcome(old(self).packages@, crate_name@),
            load_outcome(old(self).packages@, crate_name@) matches Outcome::Canon(m) ==> {
                &&& path_derived(old(self).packages@, m, segs_from(path@, 0), outcome_of(r))
                &&& path_f(old(self).packages@, m, segs_from(path@, 0), RESOLVE_DEPTH as nat) != Outcome::Deep
                    ==> outcome_of(r) == path_f(old(self).packages@, m, segs_from(path@, 0), RESOLVE_DEPTH as nat)
            },
    {
        match load_root(&self.packages, crate_name) {
            Ok(m) => resolve_path_in(&self.packages, &mut self.memo, m.0.0, path, 0, RESOLVE_DEPTH),
            Err(e) => Err(e),
        }
    }

    /// Resolves a full path, whose first segment names a package.
    pub fn resolve_path(&mut self, path: &Vec<String>) -> (r: Result<CanonId, ResolveErr>)
        requires
            old(self).wf(),
        ensures
            final(self).wf(),
            final(self).packages == old(self).packages,
            final(self).root_package == old(self).root_package,
            path@.len() == 0 ==> r matches Err(ResolveErr::Fail(Failure::EmptyPath)),
            path@.len() > 0 && !(load_outcome(old(self).packages@, path@[0]@) is Canon)
                ==> outcome_of(r) == load_outcome(old(self).packages@, path@[0]@),
            path@.len() > 0 ==> (load_outcome(old(self).packages@, path@[0]@) matches Outcome::Canon(m) ==> {
                &&& path_derived(old(self).packages@, m, segs_from(path@, 1), outcome_of(r))
                &&& path_f(old(self).packages@, m, segs_from(path@, 1), RESOLVE_DEPTH as nat) != Outcome::Deep
                    ==> outcome_of(r) == path_f(old(self).packages@, m, segs_from(path@, 1), RESOLVE_DEPTH as nat)
            }),
    {
        if path.len() == 0 {
            return Err(ResolveErr::Fail(Failure::EmptyPath));
        }
        match load_root(&self.packages, &path[0]) {
            Ok(m) => resolve_path_in(&self.packages, &mut self.memo, m.0.0, path, 1, RESOLVE_DEPTH),
            Err(e) => Err(e),
        }
    }

    /// The item that a canonical id names.
    pub fn item(&self, id: CanonId) -> (r: Option<&crate::model::Item>)
        ensures
            r matches Some(it) ==> id.0.crate_idx < self.packages@.len()
                && self.packages@[id.0.crate_idx as int].doc.item_at(id.0.item_id) == Some(*it),
            r is None ==> !is_canonical(self.packages@, id.0),
    {
        if id.0.crate_idx < self.packages.len() {
            self.packages[id.0.crate_idx].doc.get_item(id.0.item_id)
        } else {
            None
        }
    }

    /// Breadth-first traversal from the root modules of the loaded packages, the
    /// root package's first (`start` empty), or from the entries of `start`,
    /// following the successors that `mode` names.
    ///
    /// Each canonical id found gets one label, from the first successor that
    /// reaches it; only public successors are queued, and with `require_public`
    /// private ones are not even recorded. The target of a glob import counts as
    /// public and keeps the importer's label.
    pub fn bfs(&mut self, mode: LinkMode, start: Option<&Vec<(CanonId, String)>>, require_public: bool) -> (r: Result<BfsOutput, BfsFailure>)
        requires
            old(self).wf(),
            start is Some ==> labels_wf(old(self).packages@, start->Some_0@),
        ensures
            final(self).wf(),
            final(self).packages == old(self).packages,
            final(self).root_package == old(self).root_package,
            bfs_post(old(self).packages@, old(self).root_package@, mode, match start { Some(s) => Some(s@), None => None }, require_public, r),
    {
        bfs_in(&self.packages, &mut self.memo, &self.root_package, mode, start, require_public)
    }
}

/// The traversal's invariant: the first `done` queued entries are closed; every
/// entry after the start ones is justified, and expanded exactly when found
/// through a public successor; queued positions are distinct.
#[verifier::opaque]
spec fn trav_inv(
    pkgs: Seq<Package>,
    mode: LinkMode,
    rp: bool,
    first: Seq<(CanonId, String)>,
    first_queue: Seq<usize>,
    out: Seq<(CanonId, String)>,
    queue: Seq<usize>,
    done: int,
) -> bool {
    &&& forall|q: int| 0 <= q < done ==> expanded_closed(pkgs, out, #[trigger] queue[q] as int, mode, rp)
    &&& forall|j: int| first.len() <= j < out.len() ==> #[trigger] entry_justified(pkgs, out, queue, j, mode, rp)
    &&& forall|q: int| first_queue.len() <= q < queue.len() ==> entry_found_public(pkgs, out, queue, #[trigger] queue[q] as int, mode, rp)
    &&& forall|q: int| first_queue.len() <= q < queue.len() ==> first.len() <= #[trigger] queue[q] < out.len()
    &&& forall|j: int| first.len() <= j < out.len() ==> #[trigger] expanded_iff_public(pkgs, out, queue, j, mode, rp)
    &&& forall|a: int, b: int| 0 <= a < b < queue.len() ==> queue[a] != queue[b]
}

proof fn lemma_visit_step(
    pkgs: Seq<Package>,
    mode: LinkMode,
    rp: bool,
    first: Seq<(CanonId, String)>,
    first_queue: Seq<usize>,
    out1: Seq<(CanonId, String)>,
    queue1: Seq<usize>,
    out: Seq<(CanonId, String)>,
    queue: Seq<usize>,
    head: int,
    pos: int,
    id: AbsId,
    parent_label: Seq<char>,
    k: int,
    child: u32,
)
    requires
        trav_inv(pkgs, mode, rp, first, first_queue, out1, queue1, head - 1),
        forall|k2: int| 0 <= k2 < k ==> child_covered(pkgs, out1, id, #[trigger] links_of(pkgs, mode, id)[k2], rp),
        1 <= head <= queue1.len(),
        queue1[head - 1] == pos,
        0 <= pos < out1.len(),
        out1[pos].0.0 == id,
        out1[pos].1@ == parent_label,
        out1.len() >= first.len(),
        queue1.len() >= first_queue.len(),
        forall|q: int| 0 <= q < queue1.len() ==> #[trigger] queue1[q] < out1.len(),
        0 <= k < links_of(pkgs, mode, id).len(),
        links_of(pkgs, mode, id)[k] == Link::Id(child),
        out.len() <= usize::MAX,
        out.len() >= out1.len(),
        out.subrange(0, out1.len() as int) == out1,
        queue.len() >= queue1.len(),
        queue.subrange(0, queue1.len() as int) == queue1,
        out.len() == out1.len() ==> queue == queue1,
        out.len() > out1.len() ==> {
            &&& out.len() == out1.len() + 1
            &&& (!rp || passes(pkgs, id, child))
            &&& derived(pkgs, AbsId { crate_idx: id.crate_idx, item_id: child }, Outcome::Canon(out.last().0.0))
            &&& label_via(pkgs, id, parent_label, child) == Some(out.last().1@)
            &&& queue == if passes(pkgs, id, child) {
                queue1.push(out1.len() as usize)
            } else {
                queue1
            }
        },
        ({
            let cid = AbsId { crate_idx: id.crate_idx, item_id: child };
            (!rp || passes(pkgs, id, child)) && res_f(pkgs, cid, RESOLVE_DEPTH as nat) is Canon
                ==> has_key(out, res_f(pkgs, cid, RESOLVE_DEPTH as nat)->Canon_0)
        }),
        labels_wf(pkgs, out),
    ensures
        trav_inv(pkgs, mode, rp, first, first_queue, out, queue, head - 1),
        forall|k2: int| 0 <= k2 <= k ==> child_covered(pkgs, out, id, #[trigger] links_of(pkgs, mode, id)[k2], rp),
{
    reveal(trav_inv);
    let links = links_of(pkgs, mode, id);
    assert(out[pos] == out.subrange(0, out1.len() as int)[pos]);
    assert(queue[head - 1] == queue.subrange(0, queue1.len() as int)[head - 1]);
    assert forall|q: int| 0 <= q < head - 1 implies expanded_closed(pkgs, out, #[trigger] queue[q] as int, mode, rp) by {
        assert(queue[q] == queue.subrange(0, queue1.len() as int)[q]);
        lemma_closed_extends(pkgs, out1, out, queue1[q] as int, mode, rp);
    }
    assert forall|k2: int| 0 <= k2 <= k implies child_covered(pkgs, out, id, #[trigger] links[k2], rp) by {
        if k2 < k {
            lemma_covered_extends(pkgs, out1, out, id, links[k2], rp);
        }
    }
    assert forall|j: int| first.len() <= j < out.len() implies #[trigger] entry_justified(pkgs, out, queue, j, mode, rp) by {
        if j < out1.len() {
            lemma_justified_extends(pkgs, out1, out, queue1, queue, j, mode, rp);
        } else {
            assert(justifies(pkgs, out, queue, j, head - 1, k, mode, rp));
        }
    }
    assert forall|q: int| first_queue.len() <= q < queue.len()
        implies entry_found_public(pkgs, out, queue, #[trigger] queue[q] as int, mode, rp)
        && first.len() <= queue[q] < out.len() by {
        if q < queue1.len() {
            assert(queue[q] == queue.subrange(0, queue1.len() as int)[q]);
            lemma_found_public_extends(pkgs, out1, out, queue1, queue, queue1[q] as int, mode, rp);
        } else {
            let j = out1.len() as int;
            assert(out.len() != out1.len());
            assert(passes(pkgs, id, child));
            assert(queue == queue1.push(out1.len() as usize));
            assert(queue[q] == j);
            assert(justifies(pkgs, out, queue, j, head - 1, k, mode, rp));
        }
    }
    assert forall|j: int| first.len() <= j < out.len()
        implies #[trigger] expanded_iff_public(pkgs, out, queue, j, mode, rp) by {
        if j < out1.len() {
            assert forall|q: int| queue1.len() <= q < queue.len() implies #[trigger] queue[q] >= out1.len() by {
                assert(queue == queue1.push(out1.len() as usize));
            }
            lemma_iff_extends(pkgs, out1, out, queue1, queue, j, mode, rp);
        } else {
            assert(out.len() > out1.len());
            assert(j == out1.len());
            assert(justifies(pkgs, out, queue, j, head - 1, k, mode, rp));
            assert forall|q2: int, k2: int| (q2 < head - 1 || (q2 == head - 1 && k2 < k))
                implies !#[trigger] reaches(pkgs, out, queue, q2, k2, out[j].0.0, mode, rp) by {
                if reaches(pkgs, out, queue, q2, k2, out[j].0.0, mode, rp) {
                    assert(queue[q2] == queue.subrange(0, queue1.len() as int)[q2]);
                    let p2pos = queue1[q2] as int;
                    assert(out[p2pos] == out.subrange(0, out1.len() as int)[p2pos]);
                    let p2 = out1[p2pos].0.0;
                    if q2 < head - 1 {
                        assert(expanded_closed(pkgs, out1, queue1[q2] as int, mode, rp));
                        assert(child_covered(pkgs, out1, p2, links_of(pkgs, mode, p2)[k2], rp));
                    } else {
                        assert(child_covered(pkgs, out1, id, links_of(pkgs, mode, id)[k2], rp));
                    }
                    let w = choose|w: int| 0 <= w < out1.len() && (#[trigger] out1[w]).0.0 == out[j].0.0;
                    assert(out[w] == out.subrange(0, out1.len() as int)[w]);
                    assert(out[w].0 != out[j].0);
                }
            }
            assert(first_justifies(pkgs, out, queue, j, head - 1, k, mode, rp));
            if passes(pkgs, id, child) {
                assert(queue[queue1.len() as int] == j as usize);
                assert(queue.contains(j as usize));
            } else {
                if queue.contains(j as usize) {
                    let x = choose|x: int| 0 <= x < queue.len() && queue[x] == j as usize;
                    assert(queue1[x] < out1.len());
                }
            }
        }
    }
    assert forall|a: int, b: int| 0 <= a < b < queue.len() implies queue[a] != queue[b] by {
        if b >= queue1.len() {
            assert(queue1[a] < out1.len());
        } else {
            assert(queue[a] == queue.subrange(0, queue1.len() as int)[a]);
            assert(queue[b] == queue.subrange(0, queue1.len() as int)[b]);
        }
    }
}

proof fn lemma_finish_entry(
    pkgs: Seq<Package>,
    mode: LinkMode,
    rp: bool,
    first: Seq<(CanonId, String)>,
    first_queue: Seq<usize>,
    out: Seq<(CanonId, String)>,
    queue: Seq<usize>,
    head: int,
    pos: int,
    id: AbsId,
)
    requires
        trav_inv(pkgs, mode, rp, first, first_queue, out, queue, head - 1),
        forall|k2: int| 0 <= k2 < links_of(pkgs, mode, id).len()
            ==> child_covered(pkgs, out, id, #[trigger] links_of(pkgs, mode, id)[k2], rp),
        1 <= head <= queue.len(),
        queue[head - 1] == pos,
        0 <= pos < out.len(),
        out[pos].0.0 == id,
    ensures
        trav_inv(pkgs, mode, rp, first, first_queue, out, queue, head),
{
    reveal(trav_inv);
    let links = mode_links(mode, pkgs[id.crate_idx as int].doc.item_at(id.item_id)->Some_0);
    assert(links == links_of(pkgs, mode, id));
    assert forall|k: int| 0 <= k < links.len() implies child_covered(pkgs, out, id, #[trigger] links[k], rp) by {
        assert(child_covered(pkgs, out, id, links_of(pkgs, mode, id)[k], rp));
    }
    assert(expanded_closed(pkgs, out, pos, mode, rp));
}

/// The package of the `j`-th start entry of a traversal from the root package at
/// position `ridx`: the root package first, then the others in registry order.
pub open spec fn seed_pkg(ridx: int, j: int) -> int {
    if j == 0 {
        ridx
    } else if j - 1 < ridx {
        j - 1
    } else {
        j
    }
}

/// The start entry `e` at position `j`: the root module of its package, labelled by
/// the package's name (the requested root name for the root package) with `-`
/// written `_`.
pub open spec fn seed_entry_ok(pkgs: Seq<Package>, root: Seq<char>, j: int, e: (CanonId, String)) -> bool {
    let ridx = load_outcome(pkgs, root)->Canon_0.crate_idx as int;
    let i = seed_pkg(ridx, j);
    &&& e.0.0 == (AbsId { crate_idx: i as usize, item_id: pkgs[i].root })
    &&& e.1@ == if j == 0 { underscored_view(root) } else { underscored_view(pkgs[i].name@) }
}

/// Without a start, a traversal starts from every loaded package's root module, so
/// that what each package makes importable from its own root counts too.
pub open spec fn root_seeds_ok(pkgs: Seq<Package>, root: Seq<char>, s: Seq<(CanonId, String)>) -> bool {
    &&& load_outcome(pkgs, root) is Canon
    &&& s.len() == pkgs.len()
    &&& forall|j: int| 0 <= j < s.len() ==> seed_entry_ok(pkgs, root, j, #[trigger] s[j])
}

/// What a traversal promises: distinct canonical ids; every expanded entry's
/// successors accounted for, and none of them unsupported; every other entry
/// labelled from the first successor that reaches it, and expanded exactly when
/// that successor passes the public filter; the entries of `start` kept first,
/// unchanged, and expanded first; without `start`, the root module of every loaded
/// package, the root package's first, expanded first; and each error only from
/// its cause.
pub open spec fn bfs_post(
    pkgs: Seq<Package>,
    root: Seq<char>,
    mode: LinkMode,
    start: Option<Seq<(CanonId, String)>>,
    require_public: bool,
    r: Result<BfsOutput, BfsFailure>,
) -> bool {
    &&& r is Ok ==> trav_state(pkgs, root, mode, start, require_public, r->Ok_0.labels@, r->Ok_0.expanded@, r->Ok_0.expanded@.len() as int)
    &&& start is None && load_outcome(pkgs, root) is Ignored ==> r is Err && r->Err_0.error is RootIgnored
    &&& r is Err ==> fail_cause(pkgs, root, mode, start, require_public, r->Err_0)
}

/// The number of start entries of a traversal.
pub open spec fn seed_count(pkgs: Seq<Package>, start: Option<Seq<(CanonId, String)>>) -> int {
    match start {
        Some(s) => s.len() as int,
        None => pkgs.len() as int,
    }
}

/// The state of a traversal whose first `done` expanded entries have been expanded:
/// distinct canonical ids; those entries' successors accounted for, none of them
/// unsupported; the start entries first, unchanged, and first in `expanded`; every
/// other entry labelled from the first successor that reaches it, and in
/// `expanded` exactly when that successor passes the public filter; positions in
/// `expanded` distinct.
pub open spec fn trav_state(
    pkgs: Seq<Package>,
    root: Seq<char>,
    mode: LinkMode,
    start: Option<Seq<(CanonId, String)>>,
    require_public: bool,
    labels: Seq<(CanonId, String)>,
    expanded: Seq<usize>,
    done: int,
) -> bool {
    let n0 = seed_count(pkgs, start);
    &&& labels_wf(pkgs, labels)
    &&& 0 <= done <= expanded.len()
    &&& forall|q: int| 0 <= q < expanded.len() ==> #[trigger] expanded[q] < labels.len()
    &&& forall|q: int| 0 <= q < done ==> expanded_closed(pkgs, labels, #[trigger] expanded[q] as int, mode, require_public)
    &&& expanded.len() >= n0
    &&& forall|q: int| 0 <= q < n0 ==> #[trigger] expanded[q] == q
    &&& labels.len() >= n0
    &&& start is Some ==> labels.subrange(0, n0) == start->Some_0
    &&& start is None ==> root_seeds_ok(pkgs, root, labels.subrange(0, n0))
    &&& forall|j: int| n0 <= j < labels.len() ==> #[trigger] entry_justified(pkgs, labels, expanded, j, mode, require_public)
    &&& forall|q: int| n0 <= q < expanded.len()
        ==> entry_found_public(pkgs, labels, expanded, #[trigger] expanded[q] as int, mode, require_public)
    &&& forall|j: int| n0 <= j < labels.len() ==> #[trigger] expanded_iff_public(pkgs, labels, expanded, j, mode, require_public)
    &&& forall|a: int, b: int| 0 <= a < b < expanded.len() ==> expanded[a] != expanded[b]
}

/// The entry that a stopped traversal was expanding.
pub open spec fn failed_at(f: BfsFailure) -> AbsId {
    f.partial.labels@[f.partial.expanded@[f.at as int] as int].0.0
}

/// A stopped traversal was expanding an entry of a valid partial traversal.
pub open spec fn in_traversal(
    pkgs: Seq<Package>,
    root: Seq<char>,
    mode: LinkMode,
    start: Option<Seq<(CanonId, String)>>,
    require_public: bool,
    f: BfsFailure,
) -> bool {
    &&& f.at < f.partial.expanded@.len()
    &&& trav_state(pkgs, root, mode, start, require_public, f.partial.labels@, f.partial.expanded@, f.at as int)
}

/// Each error of a traversal comes only from its cause: the root package, the size
/// of the packages, or a successor of the entry it was expanding.
pub open spec fn fail_cause(
    pkgs: Seq<Package>,
    root: Seq<char>,
    mode: LinkMode,
    start: Option<Seq<(CanonId, String)>>,
    require_public: bool,
    f: BfsFailure,
) -> bool {
    match f.error {
        BfsErr::RootIgnored => start is None && load_outcome(pkgs, root) is Ignored,
        BfsErr::TooLarge => !fits(pkgs),
        BfsErr::Need(n) => (start is None && load_outcome(pkgs, root) == Outcome::Need(n@))
            || (in_traversal(pkgs, root, mode, start, require_public, f)
                && exists|k: int| #[trigger] child_needs(pkgs, mode, failed_at(f), k, n@)),
        BfsErr::Unsupported(_) => in_traversal(pkgs, root, mode, start, require_public, f)
            && exists|k: int| #[trigger] link_unsupported(pkgs, mode, failed_at(f), k),
        BfsErr::Unnamed(_) => in_traversal(pkgs, root, mode, start, require_public, f)
            && exists|k: int| #[trigger] link_unnamed(pkgs, mode, failed_at(f), k),
    }
}

proof fn lemma_state(
    pkgs: Seq<Package>,
    root: Seq<char>,
    mode: LinkMode,
    start: Option<Seq<(CanonId, String)>>,
    rp: bool,
    first: Seq<(CanonId, String)>,
    first_queue: Seq<usize>,
    out: Seq<(CanonId, String)>,
    queue: Seq<usize>,
    done: int,
)
    requires
        trav_inv(pkgs, mode, rp, first, first_queue, out, queue, done),
        labels_wf(pkgs, out),
        forall|q: int| 0 <= q < queue.len() ==> #[trigger] queue[q] < out.len(),
        0 <= done <= queue.len(),
        out.len() >= first.len(),
        out.subrange(0, first.len() as int) == first,
        queue.len() >= first_queue.len(),
        queue.subrange(0, first_queue.len() as int) == first_queue,
        start is Some ==> first == start->Some_0,
        start is None ==> root_seeds_ok(pkgs, root, first),
        first_queue.len() == first.len(),
        forall|q: int| 0 <= q < first_queue.len() ==> #[trigger] first_queue[q] == q,
    ensures
        trav_state(pkgs, root, mode, start, rp, out, queue, done),
{
    reveal(trav_inv);
    assert(first.len() == seed_count(pkgs, start));
    assert forall|q: int| 0 <= q < first_queue.len() implies #[trigger] queue[q] == q by {
        assert(queue.subrange(0, first_queue.len() as int)[q] == queue[q]);
    }
}


#[verifier::rlimit(100)]
fn bfs_in(
    pkgs: &Vec<Package>,
    memo: &mut Memo,
    root: &String,
    mode: LinkMode,
    start: Option<&Vec<(CanonId, String)>>,
    require_public: bool,
) -> (r: Result<BfsOutput, BfsFailure>)
    requires
        pkgs_wf(pkgs@),
        old(memo).wf(pkgs@),
        start is Some ==> labels_wf(pkgs@, start->Some_0@),
    ensures
        final(memo).wf(pkgs@),
        bfs_post(pkgs@, root@, mode, match start { Some(s) => Some(s@), None => None }, require_public, r),
{
    let (off, total) = match layout(pkgs) {
        Some(x) => x,
        None => {
            if start.is_none() {
                if let Err(ResolveErr::Ignore) = load_root(pkgs, root) {
                    return Err(stopped(BfsErr::RootIgnored));
                }
            }
            return Err(stopped(BfsErr::TooLarge));
        },
    };
    let mut seen: Vec<bool> = Vec::new();
    while seen.len() < total
        invariant
            seen@.len() <= total,
            count_true(seen@) == 0,
            forall|x: int| 0 <= x < seen@.len() ==> !#[trigger] seen@[x],
        decreases total - seen@.len(),
    {
        let ghost s0 = seen@;
        seen.push(false);
        assert(seen@.drop_last() =~= s0);
    }
    let mut out: Vec<(CanonId, String)> = Vec::new();
    let mut queue: Vec<usize> = Vec::new();
    let mut skipped: Vec<Skipped> = Vec::new();
    match start {
        Some(st) => {
            let mut j: usize = 0;
            while j < st.len()
                invariant
                    pkgs_wf(pkgs@),
                    labels_wf(pkgs@, st@),
                    j <= st@.len(),
                    state_ok(pkgs@, off@, total as nat, out@, seen@, queue@),
                    out@ == st@.subrange(0, j as int),
                    queue@.len() == j,
                    forall|q: int| 0 <= q < j ==> #[trigger] queue@[q] == q,
                decreases st@.len() - j,
            {
                let c = st[j].0;
                proof {
                    assert(is_canonical(pkgs@, st@[j as int].0.0));
                    lemma_slot_range(pkgs@, off@, total as nat, c.0);
                    if seen@[slot_of(off@, c.0)] {
                        let k = choose|k: int| 0 <= k < out@.len() && slot_of(off@, #[trigger] out@[k].0.0) == slot_of(off@, c.0);
                        lemma_slot_injective(pkgs@, off@, total as nat, out@[k].0.0, c.0);
                        assert(out@[k] == st@[k]);
                        assert(false);
                    }
                }
                add_entry(pkgs, &off, total, &mut out, &mut seen, &mut queue, c, st[j].1.clone(), true);
                j += 1;
                assert(out@ =~= st@.subrange(0, j as int));
            }
            assert(st@.subrange(0, st@.len() as int) =~= st@);
        },
        None => match load_root(pkgs, root) {
            Ok(m) => {
                proof {
                    lemma_load_canonical(pkgs@, root@);
                    lemma_slot_range(pkgs@, off@, total as nat, m.0.0);
                }
                add_entry(pkgs, &off, total, &mut out, &mut seen, &mut queue, m.0, underscored(root), true);
                let ridx = m.0.0.crate_idx;
                let ghost rr = ridx as int;
                proof {
                    lemma_find_package_bound(pkgs@, crate::semantics::alias_of(root@), pkgs@.len());
                }
                let mut i: usize = 0;
                while i < pkgs.len()
                    invariant
                        pkgs_wf(pkgs@),
                        state_ok(pkgs@, off@, total as nat, out@, seen@, queue@),
                        load_outcome(pkgs@, root@) == Outcome::Canon(m.0.0),
                        rr == ridx as int,
                        ridx < pkgs@.len(),
                        m.0.0 == (AbsId { crate_idx: ridx, item_id: pkgs@[rr].root }),
                        i <= pkgs@.len(),
                        out@.len() == 1 + i - (if i > ridx { 1int } else { 0int }),
                        queue@.len() == out@.len(),
                        forall|q: int| 0 <= q < queue@.len() ==> #[trigger] queue@[q] == q,
                        forall|j: int| 0 <= j < out@.len() ==> seed_entry_ok(pkgs@, root@, j, #[trigger] out@[j]),
                    decreases pkgs@.len() - i,
                {
                    if i != ridx {
                        let c = CanonId(AbsId { crate_idx: i, item_id: pkgs[i].root });
                        proof {
                            assert(pkgs@[i as int].doc.is_root_module(pkgs@[i as int].root as int));
                            assert(is_canonical(pkgs@, c.0));
                            lemma_slot_range(pkgs@, off@, total as nat, c.0);
                            if seen@[slot_of(off@, c.0)] {
                                let k = choose|k: int| 0 <= k < out@.len() && slot_of(off@, #[trigger] out@[k].0.0) == slot_of(off@, c.0);
                                lemma_slot_injective(pkgs@, off@, total as nat, out@[k].0.0, c.0);
                                assert(seed_entry_ok(pkgs@, root@, k, out@[k]));
                                assert(false);
                            }
                        }
                        let ghost out0 = out@;
                        add_entry(pkgs, &off, total, &mut out, &mut seen, &mut queue, c, underscored(&pkgs[i].name), true);
                        proof {
                            assert forall|j: int| 0 <= j < out@.len() implies seed_entry_ok(pkgs@, root@, j, #[trigger] out@[j]) by {
                                if j < out0.len() {
                                    assert(out@[j] == out0[j]);
                                }
                            }
                        }
                    }
                    i += 1;
                }
                proof {
                    assert forall|j: int| 0 <= j < out@.len() implies seed_entry_ok(pkgs@, root@, j, #[trigger] out@[j]) by {
                        assert(seed_entry_ok(pkgs@, root@, j, out@[j]));
                    }
                }
            },
            Err(ResolveErr::Ignore) => {
                return Err(stopped(BfsErr::RootIgnored));
            },
            Err(ResolveErr::Need(n)) => {
                return Err(stopped(BfsErr::Need(n)));
            },
            Err(ResolveErr::Fail(_)) => {
                assert(false);
                return Err(stopped(BfsErr::RootIgnored));
            },
        },
    }
    let ghost first = out@;
    let ghost first_queue = queue@;
    proof {
        lemma_count_le(seen@);
        reveal(trav_inv);
        assert forall|x: int, y: int| 0 <= x < y < queue@.len() implies queue@[x] != queue@[y] by {
            assert(queue@[x] == x && queue@[y] == y);
        }
    }
    let mut head: usize = 0;
    while head < queue.len()
        invariant
            pkgs_wf(pkgs@),
            memo.wf(pkgs@),
            state_ok(pkgs@, off@, total as nat, out@, seen@, queue@),
            head <= queue@.len(),
            out@.len() <= total,
            out@.len() >= first.len(),
            out@.subrange(0, first.len() as int) == first,
            start is Some ==> first == start->Some_0@,
            start is None ==> root_seeds_ok(pkgs@, root@, first),
            queue@.len() >= first_queue.len(),
            queue@.subrange(0, first_queue.len() as int) == first_queue,
            start is Some ==> first_queue.len() == start->Some_0@.len() && forall|q: int| 0 <= q < first_queue.len() ==> #[trigger] first_queue[q] == q,
            start is None ==> first_queue.len() == pkgs@.len() && forall|q: int| 0 <= q < first_queue.len() ==> #[trigger] first_queue[q] == q,
            trav_inv(pkgs@, mode, require_public, first, first_queue, out@, queue@, head as int),
            first_queue.len() == first.len(),
            forall|q: int| 0 <= q < first_queue.len() ==> #[trigger] first_queue[q] == q,
        decreases total - out@.len(), queue@.len() - head,
    {
        let pos = queue[head];
        head += 1;
        let id = out[pos].0;
        let parent_label = out[pos].1.clone();
        assert(is_canonical(pkgs@, out@[pos as int].0.0));
        let doc = &pkgs[id.0.crate_idx].doc;
        let item = match doc.get_item(id.0.item_id) {
            Some(it) => it,
            None => {
                assert(false);
                continue;
            },
        };
        let parent_glob = match &item.kind {
            ItemKind::Use { is_glob, .. } => *is_glob,
            _ => false,
        };
        let mut l = BfsLinker::new();
        match mode {
            LinkMode::Importable => link_importable(item, &mut l),
            LinkMode::Visible => link_visible(item, &mut l),
        }
        assert(l.links@ =~= links_of(pkgs@, mode, id.0));
        let ghost out_start = out@;
        let ghost queue_start = queue@;
        assert(out_start[pos as int].1 == parent_label);
        let mut k: usize = 0;
        while k < l.links.len()
            invariant
                pkgs_wf(pkgs@),
                memo.wf(pkgs@),
                state_ok(pkgs@, off@, total as nat, out@, seen@, queue@),
                id.0.crate_idx < pkgs@.len(),
                is_canonical(pkgs@, id.0),
                k <= l.links@.len(),
                l.links@ == links_of(pkgs@, mode, id.0),
                parent_glob == is_glob_use(pkgs@, id.0),
                1 <= head <= queue_start.len(),
                queue_start[head - 1] == pos,
                pos < out_start.len(),
                out_start[pos as int].0 == id,
                parent_label@ == out_start[pos as int].1@,
                out_start.len() >= first.len(),
                queue_start.len() >= first_queue.len(),
                out@.len() >= out_start.len(),
                out@.subrange(0, out_start.len() as int) == out_start,
                out@.len() == out_start.len() ==> queue@ == queue_start,
                queue@.len() >= queue_start.len(),
                queue@.subrange(0, queue_start.len() as int) == queue_start,
                out@.len() <= total,
                start is None ==> load_outcome(pkgs@, root@) is Canon,
                trav_inv(pkgs@, mode, require_public, first, first_queue, out@, queue@, head - 1),
                first_queue.len() == first.len(),
                forall|q: int| 0 <= q < first_queue.len() ==> #[trigger] first_queue[q] == q,
                start is Some ==> first == start->Some_0@,
                start is None ==> root_seeds_ok(pkgs@, root@, first),
                out@.subrange(0, first.len() as int) == first,
                queue@.subrange(0, first_queue.len() as int) == first_queue,
                forall|k2: int| 0 <= k2 < k ==> child_covered(pkgs@, out@, id.0, #[trigger] l.links@[k2], require_public),
            decreases l.links@.len() - k,
        {
            match l.links[k] {
                Link::Unsupported => {
                    proof {
                        lemma_state(pkgs@, root@, mode, match start { Some(s) => Some(s@), None => None }, require_public,
                            first, first_queue, out@, queue@, head - 1);
                        assert(queue@[head - 1] == queue@.subrange(0, queue_start.len() as int)[head - 1]);
                        assert(out@[pos as int] == out@.subrange(0, out_start.len() as int)[pos as int]);
                        assert(link_unsupported(pkgs@, mode, id.0, k as int));
                    }
                    let at = head - 1;
                    let f = BfsFailure {
                        error: BfsErr::Unsupported(parent_label),
                        partial: BfsOutput { labels: out, skipped, expanded: queue },
                        at,
                    };
                    proof {
                        let st = match start { Some(s) => Some(s@), None => None };
                        assert(failed_at(f) == id.0);
                        assert(in_traversal(pkgs@, root@, mode, st, require_public, f));
                        assert(fail_cause(pkgs@, root@, mode, st, require_public, f));
                    }
                    return Err(f);
                },
                Link::Id(child) => {
                    let ghost out1 = out@;
                    let ghost queue1 = queue@;
                    assert(out1[pos as int] == out1.subrange(0, out_start.len() as int)[pos as int]);
                    assert(queue1[head - 1] == queue1.subrange(0, queue_start.len() as int)[head - 1]);
                    let r = visit_child(
                        pkgs, memo, &off, total, &mut out, &mut seen, &mut queue, &mut skipped, id.0,
                        &parent_label, child, require_public, parent_glob,
                    );
                    if let Err(e) = r {
                        proof {
                            assert(out@.subrange(0, first.len() as int) =~= out1.subrange(0, first.len() as int));
                            assert(queue@.subrange(0, first_queue.len() as int) =~= queue1.subrange(0, first_queue.len() as int));
                            assert(out@.subrange(0, out_start.len() as int) =~= out1.subrange(0, out_start.len() as int));
                            assert(queue@.subrange(0, queue_start.len() as int) =~= queue1.subrange(0, queue_start.len() as int));
                            assert(queue@[head - 1] == queue@.subrange(0, queue_start.len() as int)[head - 1]);
                            assert(out@[pos as int] == out@.subrange(0, out_start.len() as int)[pos as int]);
                            lemma_count_le(seen@);
                            lemma_state(pkgs@, root@, mode, match start { Some(s) => Some(s@), None => None }, require_public,
                                first, first_queue, out@, queue@, head - 1);
                            if e is Need {
                                assert(child_needs(pkgs@, mode, id.0, k as int, e->Need_0@));
                            } else {
                                assert(link_unnamed(pkgs@, mode, id.0, k as int));
                            }
                        }
                        let at = head - 1;
                        let ghost eg = e;
                        let f = BfsFailure { error: e, partial: BfsOutput { labels: out, skipped, expanded: queue }, at };
                        proof {
                            let st = match start { Some(s) => Some(s@), None => None };
                            assert(failed_at(f) == id.0);
                            assert(in_traversal(pkgs@, root@, mode, st, require_public, f));
                            if eg is Need {
                                assert(child_needs(pkgs@, mode, failed_at(f), k as int, eg->Need_0@));
                            } else {
                                assert(link_unnamed(pkgs@, mode, failed_at(f), k as int));
                            }
                            assert(fail_cause(pkgs@, root@, mode, st, require_public, f));
                        }
                        return Err(f);
                    }
                    proof {
                        lemma_count_le(seen@);
                        lemma_visit_step(
                            pkgs@, mode, require_public, first, first_queue, out1, queue1, out@, queue@, head as int,
                            pos as int, id.0, parent_label@, k as int, child,
                        );
                        assert(out@.subrange(0, out_start.len() as int) =~= out1.subrange(0, out_start.len() as int));
                        assert(queue@.subrange(0, queue_start.len() as int) =~= queue1.subrange(0, queue_start.len() as int));
                        assert(out@.subrange(0, first.len() as int) =~= out1.subrange(0, first.len() as int));
                        assert(queue@.subrange(0, first_queue.len() as int) =~= queue1.subrange(0, first_queue.len() as int));
                        lemma_count_le(seen@);
                    }
                },
            }
            k += 1;
        }
        proof {
            assert(out@[pos as int] == out@.subrange(0, out_start.len() as int)[pos as int]);
            assert(queue@[head - 1] == queue@.subrange(0, queue_start.len() as int)[head - 1]);
            lemma_finish_entry(pkgs@, mode, require_public, first, first_queue, out@, queue@, head as int, pos as int, id.0);
            assert(out@.subrange(0, first.len() as int) =~= out_start.subrange(0, first.len() as int));
            assert(queue@.subrange(0, first_queue.len() as int) =~= queue_start.subrange(0, first_queue.len() as int));
        }
    }
    proof {
        reveal(trav_inv);
        assert forall|q: int| 0 <= q < first_queue.len() implies #[trigger] queue@[q] == first_queue[q] by {
            assert(queue@.subrange(0, first_queue.len() as int)[q] == queue@[q]);
        }
    }
    proof {
        lemma_state(pkgs@, root@, mode, match start { Some(s) => Some(s@), None => None }, require_public,
            first, first_queue, out@, queue@, queue@.len() as int);
    }
    Ok(BfsOutput { labels: out, skipped, expanded: queue })
}

/// A traversal stopped before it expanded any entry.
fn stopped(error: BfsErr) -> (r: BfsFailure)
    ensures
        r.error == error,
        r.at == 0,
        r.partial.labels@.len() == 0,
        r.partial.expanded@.len() == 0,
{
    BfsFailure { error, partial: BfsOutput { labels: Vec::new(), skipped: Vec::new(), expanded: Vec::new() }, at: 0 }
}

/// Why no report could be made.
#[derive(Debug)]
pub enum ReportErr {
    /// The entry under this label is of a kind that the report cannot judge.
    Unjudgeable(String),
    /// The packages hold more items than one table can index.
    TooLarge,
}

/// Whether the item that `id` names is a named type declaration: a union, struct,
/// enum, trait or type alias.
pub open spec fn reportable(pkgs: Seq<Package>, id: AbsId) -> bool {
    let k = pkgs[id.crate_idx as int].doc.item_at(id.item_id)->Some_0.kind;
    k is Union || k is Struct || k is Enum || k is Trait || k is TypeAlias
}

/// Whether the item that `id` names is of a kind that the report cannot judge.
pub open spec fn unjudgeable(pkgs: Seq<Package>, id: AbsId) -> bool {
    let k = pkgs[id.crate_idx as int].doc.item_at(id.item_id)->Some_0.kind;
    k is TraitAlias || k is ExternType
}

/// The labels of the entries of `vis` (in order) that `imp` lacks and that are named
/// type declarations.
pub open spec fn report_spec(pkgs: Seq<Package>, imp: Seq<(CanonId, String)>, vis: Seq<(CanonId, String)>) -> Seq<Seq<char>>
    decreases vis.len(),
{
    if vis.len() == 0 {
        seq![]
    } else {
        report_spec(pkgs, imp, vis.drop_last()) + if !has_key(imp, vis.last().0.0) && reportable(pkgs, vis.last().0.0) {
            seq![vis.last().1@]
        } else {
            seq![]
        }
    }
}

/// Whether some entry of `vis` that `imp` lacks is of a kind the report cannot judge.
pub open spec fn report_blocked(pkgs: Seq<Package>, imp: Seq<(CanonId, String)>, vis: Seq<(CanonId, String)>) -> bool {
    exists|j: int| 0 <= j < vis.len() && !has_key(imp, (#[trigger] vis[j]).0.0) && unjudgeable(pkgs, vis[j].0.0)
}

impl GraphCache {
    /// The labels of the items that are visible but not importable, and are named
    /// type declarations, in the order of `visible`; or the label of an entry of a
    /// kind that cannot be judged.
    pub fn visible_not_importable(&self, importable: &Vec<(CanonId, String)>, visible: &Vec<(CanonId, String)>) -> (r: Result<Vec<String>, ReportErr>)
        requires
            self.wf(),
            labels_wf(self.packages@, importable@),
            labels_wf(self.packages@, visible@),
        ensures
            r is Ok ==> sorted_lex(views(r->Ok_0@)),
            r is Ok ==> views(r->Ok_0@).to_multiset() == report_spec(self.packages@, importable@, visible@).to_multiset(),
            r matches Err(ReportErr::Unjudgeable(_)) ==> report_blocked(self.packages@, importable@, visible@),
            r matches Err(ReportErr::TooLarge) ==> !fits(self.packages@),
            !report_blocked(self.packages@, importable@, visible@) && fits(self.packages@) ==> r is Ok,
    {
        let pkgs = &self.packages;
        let (off, total) = match layout(pkgs) {
            Some(x) => x,
            None => {
                return Err(ReportErr::TooLarge);
            },
        };
        let mut seen: Vec<bool> = Vec::new();
        while seen.len() < total
            invariant
                seen@.len() <= total,
                forall|x: int| 0 <= x < seen@.len() ==> !#[trigger] seen@[x],
            decreases total - seen@.len(),
        {
            seen.push(false);
        }
        let mut i: usize = 0;
        while i < importable.len()
            invariant
                layout_ok(pkgs@, off@, total as nat),
                labels_wf(pkgs@, importable@),
                i <= importable@.len(),
                seen@.len() == total,
                forall|x: int| 0 <= x < total ==> (#[trigger] seen@[x] <==> exists|j: int| 0 <= j < i && slot_of(off@, #[trigger] importable@[j].0.0) == x),
            decreases importable@.len() - i,
        {
            let c = importable[i].0;
            assert(is_canonical(pkgs@, importable@[i as int].0.0));
            let s = slot(&off, c.0, pkgs, total);
            seen.set(s, true);
            i += 1;
            proof {
                assert forall|x: int| 0 <= x < total implies (#[trigger] seen@[x] <==> exists|j: int| 0 <= j < i && slot_of(off@, #[trigger] importable@[j].0.0) == x) by {
                    if x == s {
                        assert(slot_of(off@, importable@[i - 1].0.0) == x);
                    } else if exists|j: int| 0 <= j < i && slot_of(off@, #[trigger] importable@[j].0.0) == x {
                        let j = choose|j: int| 0 <= j < i && slot_of(off@, #[trigger] importable@[j].0.0) == x;
                        assert(j != i - 1);
                    }
                }
            }
        }
        let mut out: Vec<String> = Vec::new();
        assert(views(out@) =~= report_spec(pkgs@, importable@, visible@.subrange(0, 0)));
        let mut k: usize = 0;
        while k < visible.len()
            invariant
                pkgs@ == self.packages@,
                pkgs_wf(pkgs@),
                layout_ok(pkgs@, off@, total as nat),
                labels_wf(pkgs@, importable@),
                labels_wf(pkgs@, visible@),
                i == importable@.len(),
                seen@.len() == total,
                forall|x: int| 0 <= x < total ==> (#[trigger] seen@[x] <==> exists|j: int| 0 <= j < i && slot_of(off@, #[trigger] importable@[j].0.0) == x),
                k <= visible@.len(),
                sorted_lex(views(out@)),
                views(out@).to_multiset() == report_spec(pkgs@, importable@, visible@.subrange(0, k as int)).to_multiset(),
                forall|j: int| 0 <= j < k ==> !(!has_key(importable@, (#[trigger] visible@[j]).0.0) && unjudgeable(pkgs@, visible@[j].0.0)),
            decreases visible@.len() - k,
        {
            let c = visible[k].0;
            assert(is_canonical(pkgs@, visible@[k as int].0.0));
            let s = slot(&off, c.0, pkgs, total);
            let known = seen[s];
            proof {
                if known {
                    let j = choose|j: int| 0 <= j < i && slot_of(off@, #[trigger] importable@[j].0.0) == s as int;
                    assert(is_canonical(pkgs@, importable@[j].0.0));
                    lemma_slot_injective(pkgs@, off@, total as nat, importable@[j].0.0, c.0);
                } else {
                    assert forall|j: int| 0 <= j < importable@.len() implies (#[trigger] importable@[j]).0.0 != c.0 by {
                        assert(is_canonical(pkgs@, importable@[j].0.0));
                    }
                }
                assert(known == has_key(importable@, c.0));
                assert(visible@.subrange(0, k + 1).drop_last() =~= visible@.subrange(0, k as int));
            }
            let ghost out0 = out@;
            if !known {
                let item = match pkgs[c.0.crate_idx].doc.get_item(c.0.item_id) {
                    Some(it) => it,
                    None => {
                        assert(false);
                        return Err(ReportErr::TooLarge);
                    },
                };
                match &item.kind {
                    ItemKind::TraitAlias | ItemKind::ExternType => {
                        assert(unjudgeable(pkgs@, visible@[k as int].0.0));
                        assert(!has_key(importable@, visible@[k as int].0.0));
                        assert(unjudgeable(self.packages@, visible@[k as int].0.0));
                        assert(report_blocked(self.packages@, importable@, visible@));
                        return Err(ReportErr::Unjudgeable(visible[k].1.clone()));
                    },
                    ItemKind::Union { .. } | ItemKind::Struct { .. } | ItemKind::Enum { .. } | ItemKind::Trait { .. } | ItemKind::TypeAlias { .. } => {
                        let lbl = visible[k].1.clone();
                        insert_sorted(&mut out, lbl);
                        proof {
                            let prev = report_spec(pkgs@, importable@, visible@.subrange(0, k as int));
                            assert(report_spec(pkgs@, importable@, visible@.subrange(0, k + 1)) =~= prev.push(visible@[k as int].1@));
                            vstd::seq_lib::to_multiset_build(prev, visible@[k as int].1@);
                        }
                    },
                    _ => {},
                }
            }
            k += 1;
        }
        assert(visible@.subrange(0, visible@.len() as int) =~= visible@);
        Ok(out)
    }
}

} // verus!
