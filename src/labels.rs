//! Display labels of the items that a traversal finds.
use vstd::prelude::*;
use vstd::string::{StrSliceExecFns, StringExecFns};
use crate::model::{DocIndex, ItemKind, Visibility};

verus! {

/// `s` with each `-` replaced by `_`.
pub open spec fn underscored_view(s: Seq<char>) -> Seq<char> {
    s.map_values(|c: char| if c == '-' { '_' } else { c })
}

/// A copy of `s` with each `-` replaced by `_`.
pub fn underscored(s: &String) -> (r: String)
    ensures
        r@ == underscored_view(s@),
{
    let st = s.as_str();
    let n = st.unicode_len();
    let mut out = String::new();
    let mut i: usize = 0;
    proof {
        reveal_strlit("_");
    }
    while i < n
        invariant
            n == st@.len(),
            st@ == s@,
            i <= n,
            out@ == underscored_view(st@.subrange(0, i as int)),
        decreases n - i,
    {
        let c = st.get_char(i);
        let ghost prev = st@.subrange(0, i as int);
        assert(st@.subrange(0, i + 1) =~= prev.push(c));
        assert(underscored_view(prev.push(c)) =~= underscored_view(prev).push(if c == '-' { '_' } else { c }));
        if c == '-' {
            proof {
                reveal_strlit("_");
            }
            assert("_"@ =~= seq!['_']);
            out.append("_");
        } else {
            let piece = st.substring_char(i, i + 1);
            assert(piece@ =~= seq![c]);
            out.append(piece);
        }
        i += 1;
    }
    assert(st@.subrange(0, n as int) =~= st@);
    out
}

/// `parent`, followed by `::` and `seg`.
pub open spec fn joined(parent: Seq<char>, seg: Seq<char>) -> Seq<char> {
    parent + "::"@ + seg
}

/// The segment that the child `c` adds to its parent's label: `Some(None)` for no
/// segment, `None` where the item has no name to give.
pub open spec fn segment_of(doc: DocIndex, c: u32) -> Option<Option<Seq<char>>> {
    match doc.item_at(c) {
        Some(it) => match it.name {
            Some(n) => Some(Some(n@)),
            None => match it.kind {
                ItemKind::Impl { trait_, trait_args, .. } => match trait_ {
                    None => Some(None),
                    Some(t) => Some(Some("`<_ as "@ + t.path@ + "<"@ + trait_args@ + ">>`"@)),
                },
                ItemKind::ExternCrate { name, rename } => match rename {
                    Some(r) => Some(Some(r@)),
                    None => Some(Some(name@)),
                },
                ItemKind::Use { name, is_glob, .. } => if is_glob {
                    Some(None)
                } else {
                    Some(Some(name@))
                },
                _ => None,
            },
        },
        None => match doc.path_at(c) {
            Some(ps) => if ps.path@.len() > 0 {
                Some(Some(ps.path@.last()@))
            } else {
                Some(None)
            },
            None => None,
        },
    }
}

/// The label of the child `c` of an item labelled `parent`.
pub open spec fn label_of(doc: DocIndex, parent: Seq<char>, c: u32) -> Option<Seq<char>> {
    match segment_of(doc, c) {
        Some(Some(seg)) => Some(joined(parent, seg)),
        Some(None) => Some(parent),
        None => None,
    }
}

fn join(parent: &String, seg: &str) -> (r: String)
    ensures
        r@ == joined(parent@, seg@),
{
    proof {
        reveal_strlit("::");
    }
    let mut r = parent.clone();
    r.append("::");
    r.append(seg);
    r
}

/// Derives the label of the child `c` of an item labelled `parent`.
pub fn child_label(doc: &DocIndex, parent: &String, c: u32) -> (r: Option<String>)
    ensures
        r matches Some(s) ==> label_of(*doc, parent@, c) == Some(s@),
        r is None ==> label_of(*doc, parent@, c) is None,
{
    match doc.get_item(c) {
        Some(it) => match &it.name {
            Some(n) => Some(join(parent, n.as_str())),
            None => match &it.kind {
                ItemKind::Impl { trait_, trait_args, .. } => match trait_ {
                    None => Some(parent.clone()),
                    Some(t) => {
                        proof {
                            reveal_strlit("`<_ as ");
                            reveal_strlit("<");
                            reveal_strlit(">>`");
                        }
                        let mut seg = String::from_str("`<_ as ");
                        seg.append(t.path.as_str());
                        seg.append("<");
                        seg.append(trait_args.as_str());
                        seg.append(">>`");
                        Some(join(parent, seg.as_str()))
                    },
                },
                ItemKind::ExternCrate { name, rename } => match rename {
                    Some(rn) => Some(join(parent, rn.as_str())),
                    None => Some(join(parent, name.as_str())),
                },
                ItemKind::Use { name, is_glob, .. } => {
                    if *is_glob {
                        Some(parent.clone())
                    } else {
                        Some(join(parent, name.as_str()))
                    }
                },
                _ => None,
            },
        },
        None => match doc.get_path(c) {
            Some(ps) => {
                let n = ps.path.len();
                if n > 0 {
                    Some(join(parent, ps.path[n - 1].as_str()))
                } else {
                    Some(parent.clone())
                }
            },
            None => None,
        },
    }
}

/// Whether the child `c` counts as public where it is declared: public, or of a
/// kind whose default visibility is that of its enclosing scope.
pub open spec fn is_public_spec(doc: DocIndex, c: u32) -> bool {
    match doc.item_at(c) {
        Some(it) => match it.visibility {
            Visibility::Public => true,
            Visibility::Default => it.kind is AssocType || it.kind is Variant || it.kind is Impl,
            _ => false,
        },
        None => false,
    }
}

pub fn is_public(doc: &DocIndex, c: u32) -> (r: bool)
    ensures
        r == is_public_spec(*doc, c),
{
    match doc.get_item(c) {
        Some(it) => match &it.visibility {
            Visibility::Public => true,
            Visibility::Default => match &it.kind {
                ItemKind::AssocType { .. } => true,
                ItemKind::Variant(_) => true,
                ItemKind::Impl { .. } => true,
                _ => false,
            },
            _ => false,
        },
        None => false,
    }
}

/// A path, rendered with its segments joined by `::`.
pub struct DisplayPath<'a>(pub &'a [String]);

impl<'a> DisplayPath<'a> {
    pub fn render(&self) -> (r: String)
        ensures
            r@ == path_text(self.0@.map_values(|s: String| s@)),
    {
        let segs = self.0;
        let ghost views = segs@.map_values(|s: String| s@);
        let mut out = String::new();
        let mut i: usize = 0;
        while i < segs.len()
            invariant
                i <= segs@.len(),
                views == segs@.map_values(|s: String| s@),
                out@ == path_text(views.subrange(0, i as int)),
            decreases segs@.len() - i,
        {
            proof {
                reveal_strlit("::");
            }
            if i > 0 {
                out.append("::");
            }
            out.append(segs[i].as_str());
            i += 1;
            assert(views.subrange(0, i as int).drop_last() =~= views.subrange(0, i - 1));
        }
        assert(views.subrange(0, segs@.len() as int) =~= views);
        out
    }
}

/// Segments joined by `::`.
pub open spec fn path_text(segs: Seq<Seq<char>>) -> Seq<char>
    decreases segs.len(),
{
    if segs.len() == 0 {
        seq![]
    } else if segs.len() == 1 {
        segs[0]
    } else {
        path_text(segs.drop_last()) + "::"@ + segs.last()
    }
}

/// The views of a sequence of strings.
pub open spec fn views(v: Seq<String>) -> Seq<Seq<char>> {
    v.map_values(|s: String| s@)
}

/// Lexicographic order of character sequences, by code point.
pub open spec fn lex_le(a: Seq<char>, b: Seq<char>) -> bool
    decreases a.len(),
{
    if a.len() == 0 {
        true
    } else if b.len() == 0 {
        false
    } else if (a[0] as u32) < (b[0] as u32) {
        true
    } else if (a[0] as u32) > (b[0] as u32) {
        false
    } else {
        lex_le(a.drop_first(), b.drop_first())
    }
}

/// Whether a sequence is in lexicographic order.
pub open spec fn sorted_lex(s: Seq<Seq<char>>) -> bool {
    forall|i: int, j: int| 0 <= i < j < s.len() ==> lex_le(#[trigger] s[i], #[trigger] s[j])
}

pub proof fn lemma_lex_total(a: Seq<char>, b: Seq<char>)
    ensures
        lex_le(a, b) || lex_le(b, a),
    decreases a.len(),
{
    if a.len() > 0 && b.len() > 0 && (a[0] as u32) == (b[0] as u32) {
        lemma_lex_total(a.drop_first(), b.drop_first());
    }
}

pub proof fn lemma_lex_trans(a: Seq<char>, b: Seq<char>, c: Seq<char>)
    requires
        lex_le(a, b),
        lex_le(b, c),
    ensures
        lex_le(a, c),
    decreases a.len(),
{
    if a.len() > 0 && b.len() > 0 && c.len() > 0 && (a[0] as u32) == (b[0] as u32) && (b[0] as u32) == (c[0] as u32) {
        lemma_lex_trans(a.drop_first(), b.drop_first(), c.drop_first());
    }
}

/// Whether `a` comes no later than `b` in lexicographic order.
pub fn str_le(a: &String, b: &String) -> (r: bool)
    ensures
        r == lex_le(a@, b@),
{
    let sa = a.as_str();
    let sb = b.as_str();
    let na = sa.unicode_len();
    let nb = sb.unicode_len();
    let mut i: usize = 0;
    assert(a@.skip(0) =~= a@ && b@.skip(0) =~= b@);
    while i < na && i < nb
        invariant
            i <= na,
            i <= nb,
            na == a@.len(),
            nb == b@.len(),
            sa@ == a@,
            sb@ == b@,
            lex_le(a@, b@) == lex_le(a@.skip(i as int), b@.skip(i as int)),
        decreases na - i,
    {
        let ca = sa.get_char(i);
        let cb = sb.get_char(i);
        assert(a@.skip(i as int)[0] == ca && b@.skip(i as int)[0] == cb);
        if (ca as u32) != (cb as u32) {
            return (ca as u32) < (cb as u32);
        }
        assert(a@.skip(i as int).drop_first() =~= a@.skip(i + 1));
        assert(b@.skip(i as int).drop_first() =~= b@.skip(i + 1));
        i += 1;
    }
    i == na
}

/// Inserts `x` into the sorted `v` at its place.
pub fn insert_sorted(v: &mut Vec<String>, x: String)
    requires
        sorted_lex(views(old(v)@)),
    ensures
        sorted_lex(views(final(v)@)),
        views(final(v)@).to_multiset() == views(old(v)@).to_multiset().insert(x@),
{
    let ghost vv = views(v@);
    let mut p: usize = 0;
    let mut done = false;
    while !done && p < v.len()
        invariant
            p <= v@.len(),
            vv == views(v@),
            forall|i: int| 0 <= i < p ==> lex_le(#[trigger] vv[i], x@),
            done ==> p < v@.len() && !lex_le(vv[p as int], x@),
        decreases v@.len() - p + if done { 0int } else { 1int },
    {
        if str_le(&v[p], &x) {
            p += 1;
        } else {
            done = true;
        }
    }
    let ghost xv = x@;
    v.insert(p, x);
    proof {
        assert(views(v@) =~= vv.insert(p as int, xv));
        let nv = views(v@);
        if p < vv.len() {
            lemma_lex_total(vv[p as int], xv);
        }
        assert forall|i: int, j: int| 0 <= i < j < nv.len() implies lex_le(#[trigger] nv[i], #[trigger] nv[j]) by {
            if j < p {
                assert(nv[i] == vv[i] && nv[j] == vv[j]);
            } else if j == p {
                assert(nv[i] == vv[i]);
            } else if i == p {
                assert(nv[j] == vv[j - 1]);
                if j - 1 > p {
                    lemma_lex_trans(xv, vv[p as int], vv[j - 1]);
                }
            } else if i < p {
                assert(nv[i] == vv[i] && nv[j] == vv[j - 1]);
                if j - 1 >= p {
                    lemma_lex_trans(vv[i], xv, vv[p as int]);
                    if j - 1 > p {
                        lemma_lex_trans(vv[i], vv[p as int], vv[j - 1]);
                    }
                }
            } else {
                assert(nv[i] == vv[i - 1] && nv[j] == vv[j - 1]);
            }
        }
        vstd::seq_lib::to_multiset_insert(vv, p as int, xv);
    }
}

} // verus!
