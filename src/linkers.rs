//! Successor ids of an item: what it makes importable, and what its signature
//! mentions.
use vstd::prelude::*;
use crate::model::{
    AssocItemConstraint, AssocItemConstraintKind, FunctionSignature, GenericArg, GenericArgs,
    GenericBound, GenericParamDef, Generics, Item, ItemKind, Path, PolyTrait, StructKind, Term, Type,
    VariantKind, WherePredicate,
};

verus! {

/// One successor that a linker emits.
#[derive(Clone, Copy, Debug, PartialEq, Eq, Structural)]
pub enum Link {
    /// A local id of the package of the item being linked.
    Id(u32),
    /// The item holds a construct that this analysis does not support.
    Unsupported,
}

/// The successors collected for one item, in the order they were emitted.
pub struct BfsLinker {
    pub links: Vec<Link>,
}

pub open spec fn ids_links(s: Seq<u32>) -> Seq<Link> {
    s.map_values(|i: u32| Link::Id(i))
}

pub open spec fn opt_ids_links(s: Seq<Option<u32>>) -> Seq<Link>
    decreases s.len(),
{
    if s.len() == 0 {
        seq![]
    } else {
        opt_ids_links(s.drop_last()) + match s.last() {
            Some(i) => seq![Link::Id(i)],
            None => seq![],
        }
    }
}

impl BfsLinker {
    pub fn new() -> (r: BfsLinker)
        ensures
            r.links@ == Seq::<Link>::empty(),
    {
        BfsLinker { links: Vec::new() }
    }

    pub fn link(&mut self, id: u32)
        ensures
            final(self).links@ == old(self).links@.push(Link::Id(id)),
    {
        self.links.push(Link::Id(id));
    }

    pub fn link_all(&mut self, ids: &Vec<u32>)
        ensures
            final(self).links@ == old(self).links@ + ids_links(ids@),
    {
        let ghost start = self.links@;
        let mut i: usize = 0;
        while i < ids.len()
            invariant
                i <= ids@.len(),
                self.links@ == start + ids_links(ids@.subrange(0, i as int)),
            decreases ids@.len() - i,
        {
            self.link(ids[i]);
            i += 1;
            assert(ids_links(ids@.subrange(0, i as int)) =~= ids_links(ids@.subrange(0, i - 1)).push(Link::Id(ids@[i - 1])));
        }
        assert(ids@.subrange(0, ids@.len() as int) =~= ids@);
    }

    /// Links the ids that are present among `ids`.
    pub fn link_present(&mut self, ids: &Vec<Option<u32>>)
        ensures
            final(self).links@ == old(self).links@ + opt_ids_links(ids@),
    {
        let ghost start = self.links@;
        let mut i: usize = 0;
        while i < ids.len()
            invariant
                i <= ids@.len(),
                self.links@ == start + opt_ids_links(ids@.subrange(0, i as int)),
            decreases ids@.len() - i,
        {
            assert(ids@.subrange(0, i + 1).drop_last() =~= ids@.subrange(0, i as int));
            if let Some(id) = ids[i] {
                self.link(id);
            }
            i += 1;
            assert(self.links@ =~= start + opt_ids_links(ids@.subrange(0, i as int)));
        }
        assert(ids@.subrange(0, ids@.len() as int) =~= ids@);
    }

    pub fn unsupported(&mut self)
        ensures
            final(self).links@ == old(self).links@.push(Link::Unsupported),
    {
        self.links.push(Link::Unsupported);
    }
}

pub open spec fn type_links(t: Type) -> Seq<Link>
    decreases t,
{
    match t {
        Type::ResolvedPath(p) => path_links(p),
        Type::DynTrait(ts) => polys_links(ts@),
        Type::FunctionPointer(fp) => sig_links(fp.sig) + params_links(fp.generic_params@),
        Type::Tuple(ts) => types_links(ts@),
        Type::Slice(b) => type_links(*b),
        Type::Array(b) => type_links(*b),
        Type::Pat => seq![Link::Unsupported],
        Type::ImplTrait(bs) => bounds_links(bs@),
        Type::RawPointer(b) => type_links(*b),
        Type::BorrowedRef(b) => type_links(*b),
        Type::QualifiedPath { args, self_type, trait_ } =>
            opt_args_links(args) + type_links(*self_type) + match trait_ {
                Some(p) => path_links(p),
                None => seq![],
            },
        _ => seq![],
    }
}

pub open spec fn types_links(ts: Seq<Type>) -> Seq<Link>
    decreases ts,
{
    if ts.len() == 0 {
        seq![]
    } else {
        types_links(ts.drop_last()) + type_links(ts.last())
    }
}

pub open spec fn opt_type_links(t: Option<Type>) -> Seq<Link>
    decreases t,
{
    match t {
        Some(t) => type_links(t),
        None => seq![],
    }
}

pub open spec fn path_links(p: Path) -> Seq<Link>
    decreases p,
{
    seq![Link::Id(p.id)] + opt_args_links(p.args)
}

pub open spec fn opt_args_links(a: Option<Box<GenericArgs>>) -> Seq<Link>
    decreases a,
{
    match a {
        Some(b) => args_links(*b),
        None => seq![],
    }
}

pub open spec fn args_links(a: GenericArgs) -> Seq<Link>
    decreases a,
{
    match a {
        GenericArgs::AngleBracketed { args, constraints } => arg_seq_links(args@) + constraints_links(constraints@),
        GenericArgs::Parenthesized { inputs, output } => types_links(inputs@) + opt_type_links(output),
        GenericArgs::ReturnTypeNotation => seq![],
    }
}

pub open spec fn arg_seq_links(s: Seq<GenericArg>) -> Seq<Link>
    decreases s,
{
    if s.len() == 0 {
        seq![]
    } else {
        arg_seq_links(s.drop_last()) + match s.last() {
            GenericArg::Type(t) => type_links(t),
            _ => seq![],
        }
    }
}

pub open spec fn constraints_links(s: Seq<AssocItemConstraint>) -> Seq<Link>
    decreases s,
{
    if s.len() == 0 {
        seq![]
    } else {
        constraints_links(s.drop_last()) + constraint_links(s.last())
    }
}

pub open spec fn constraint_links(c: AssocItemConstraint) -> Seq<Link>
    decreases c,
{
    opt_args_links(c.args) + match c.binding {
        AssocItemConstraintKind::Equality(t) => term_links(t),
        AssocItemConstraintKind::Constraint(bs) => bounds_links(bs@),
    }
}

pub open spec fn term_links(t: Term) -> Seq<Link>
    decreases t,
{
    match t {
        Term::Type(t) => type_links(t),
        Term::Constant => seq![],
    }
}

pub open spec fn bound_links(b: GenericBound) -> Seq<Link>
    decreases b,
{
    match b {
        GenericBound::TraitBound { trait_, generic_params } => path_links(trait_) + params_links(generic_params@),
        _ => seq![],
    }
}

pub open spec fn bounds_links(s: Seq<GenericBound>) -> Seq<Link>
    decreases s,
{
    if s.len() == 0 {
        seq![]
    } else {
        bounds_links(s.drop_last()) + bound_links(s.last())
    }
}

pub open spec fn param_links(p: GenericParamDef) -> Seq<Link>
    decreases p,
{
    match p {
        GenericParamDef::Type { bounds, default } => bounds_links(bounds@) + opt_type_links(default),
        _ => seq![],
    }
}

pub open spec fn params_links(s: Seq<GenericParamDef>) -> Seq<Link>
    decreases s,
{
    if s.len() == 0 {
        seq![]
    } else {
        params_links(s.drop_last()) + param_links(s.last())
    }
}

pub open spec fn pred_links(w: WherePredicate) -> Seq<Link>
    decreases w,
{
    match w {
        WherePredicate::BoundPredicate { type_, bounds, generic_params } =>
            type_links(type_) + bounds_links(bounds@) + params_links(generic_params@),
        WherePredicate::LifetimePredicate => seq![],
        WherePredicate::EqPredicate { lhs, rhs } => type_links(lhs) + term_links(rhs),
    }
}

pub open spec fn preds_links(s: Seq<WherePredicate>) -> Seq<Link>
    decreases s,
{
    if s.len() == 0 {
        seq![]
    } else {
        preds_links(s.drop_last()) + pred_links(s.last())
    }
}

pub open spec fn generics_links(g: Generics) -> Seq<Link> {
    params_links(g.params@) + preds_links(g.where_predicates@)
}

pub open spec fn sig_links(s: FunctionSignature) -> Seq<Link>
    decreases s,
{
    types_links(s.inputs@) + opt_type_links(s.output)
}

pub open spec fn polys_links(s: Seq<PolyTrait>) -> Seq<Link>
    decreases s,
{
    if s.len() == 0 {
        seq![]
    } else {
        polys_links(s.drop_last()) + path_links(s.last().trait_) + params_links(s.last().generic_params@)
    }
}

pub open spec fn struct_fields_links(kind: StructKind) -> Seq<Link> {
    match kind {
        StructKind::Unit => seq![],
        StructKind::Tuple(fs) => opt_ids_links(fs@),
        StructKind::Plain(fs) => ids_links(fs@),
    }
}

/// What the importable linker emits for an item: the children of a module, and
/// the target of a glob import.
pub open spec fn importable_links(item: Item) -> Seq<Link> {
    match item.kind {
        ItemKind::Module { items, .. } => ids_links(items@),
        ItemKind::Use { is_glob: true, id: Some(t), .. } => seq![Link::Id(t)],
        _ => seq![],
    }
}

/// What the visible linker emits for an item: the ids that its declared signature
/// mentions.
pub open spec fn visible_links(item: Item) -> Seq<Link> {
    match item.kind {
        ItemKind::Union { generics, fields, impls } =>
            generics_links(generics) + ids_links(fields@) + ids_links(impls@),
        ItemKind::Struct { kind, generics, impls } =>
            struct_fields_links(kind) + generics_links(generics) + ids_links(impls@),
        ItemKind::StructField(t) => type_links(t),
        ItemKind::Enum { generics, variants, impls } =>
            generics_links(generics) + ids_links(variants@) + ids_links(impls@),
        ItemKind::Variant(kind) => match kind {
            VariantKind::Plain => seq![],
            VariantKind::Tuple(fs) => opt_ids_links(fs@),
            VariantKind::Struct(fs) => ids_links(fs@),
        },
        ItemKind::Function { sig, generics } => sig_links(sig) + generics_links(generics),
        ItemKind::Trait { items, generics, bounds } => ids_links(items@) + generics_links(generics) + bounds_links(bounds@),
        ItemKind::TraitAlias => seq![Link::Unsupported],
        ItemKind::Impl { generics, items, .. } => generics_links(generics) + ids_links(items@),
        ItemKind::TypeAlias { type_, generics } => type_links(type_) + generics_links(generics),
        ItemKind::Constant(t) => type_links(t),
        ItemKind::Static(t) => type_links(t),
        ItemKind::ExternType => seq![Link::Unsupported],
        ItemKind::AssocConst(t) => type_links(t),
        ItemKind::AssocType { generics, bounds, type_ } =>
            generics_links(generics) + bounds_links(bounds@) + opt_type_links(type_),
        _ => seq![],
    }
}


fn link_visible_types(xs: &Vec<Type>, l: &mut BfsLinker)
    ensures
        final(l).links@ == old(l).links@ + types_links(xs@),
    decreases xs,
{
    let ghost start = l.links@;
    let mut i: usize = 0;
    while i < xs.len()
        invariant
            i <= xs@.len(),
            l.links@ == start + types_links(xs@.subrange(0, i as int)),
        decreases xs@.len() - i,
    {
        assert(xs@.subrange(0, i + 1).drop_last() =~= xs@.subrange(0, i as int));
        assert(decreases_to!(xs => xs@[i as int]));
        link_visible_type(&xs[i], l);
        i += 1;
        assert(l.links@ =~= start + types_links(xs@.subrange(0, i as int)));
    }
    assert(xs@.subrange(0, xs@.len() as int) =~= xs@);
}

fn link_visible_arg_seq(xs: &Vec<GenericArg>, l: &mut BfsLinker)
    ensures
        final(l).links@ == old(l).links@ + arg_seq_links(xs@),
    decreases xs,
{
    let ghost start = l.links@;
    let mut i: usize = 0;
    while i < xs.len()
        invariant
            i <= xs@.len(),
            l.links@ == start + arg_seq_links(xs@.subrange(0, i as int)),
        decreases xs@.len() - i,
    {
        assert(xs@.subrange(0, i + 1).drop_last() =~= xs@.subrange(0, i as int));
        assert(decreases_to!(xs => xs@[i as int]));
        if let GenericArg::Type(t) = &xs[i] {
            link_visible_type(t, l);
        }
        i += 1;
        assert(l.links@ =~= start + arg_seq_links(xs@.subrange(0, i as int)));
    }
    assert(xs@.subrange(0, xs@.len() as int) =~= xs@);
}

fn link_visible_constraints(xs: &Vec<AssocItemConstraint>, l: &mut BfsLinker)
    ensures
        final(l).links@ == old(l).links@ + constraints_links(xs@),
    decreases xs,
{
    let ghost start = l.links@;
    let mut i: usize = 0;
    while i < xs.len()
        invariant
            i <= xs@.len(),
            l.links@ == start + constraints_links(xs@.subrange(0, i as int)),
        decreases xs@.len() - i,
    {
        assert(xs@.subrange(0, i + 1).drop_last() =~= xs@.subrange(0, i as int));
        assert(decreases_to!(xs => xs@[i as int]));
        link_visible_constraint(&xs[i], l);
        i += 1;
        assert(l.links@ =~= start + constraints_links(xs@.subrange(0, i as int)));
    }
    assert(xs@.subrange(0, xs@.len() as int) =~= xs@);
}

fn link_visible_generic_bounds(xs: &Vec<GenericBound>, l: &mut BfsLinker)
    ensures
        final(l).links@ == old(l).links@ + bounds_links(xs@),
    decreases xs,
{
    let ghost start = l.links@;
    let mut i: usize = 0;
    while i < xs.len()
        invariant
            i <= xs@.len(),
            l.links@ == start + bounds_links(xs@.subrange(0, i as int)),
        decreases xs@.len() - i,
    {
        assert(xs@.subrange(0, i + 1).drop_last() =~= xs@.subrange(0, i as int));
        assert(decreases_to!(xs => xs@[i as int]));
        link_visible_generic_bound(&xs[i], l);
        i += 1;
        assert(l.links@ =~= start + bounds_links(xs@.subrange(0, i as int)));
    }
    assert(xs@.subrange(0, xs@.len() as int) =~= xs@);
}

fn link_visible_generic_params(xs: &Vec<GenericParamDef>, l: &mut BfsLinker)
    ensures
        final(l).links@ == old(l).links@ + params_links(xs@),
    decreases xs,
{
    let ghost start = l.links@;
    let mut i: usize = 0;
    while i < xs.len()
        invariant
            i <= xs@.len(),
            l.links@ == start + params_links(xs@.subrange(0, i as int)),
        decreases xs@.len() - i,
    {
        assert(xs@.subrange(0, i + 1).drop_last() =~= xs@.subrange(0, i as int));
        assert(decreases_to!(xs => xs@[i as int]));
        link_visible_generic_param(&xs[i], l);
        i += 1;
        assert(l.links@ =~= start + params_links(xs@.subrange(0, i as int)));
    }
    assert(xs@.subrange(0, xs@.len() as int) =~= xs@);
}

fn link_visible_where_predicates(xs: &Vec<WherePredicate>, l: &mut BfsLinker)
    ensures
        final(l).links@ == old(l).links@ + preds_links(xs@),
    decreases xs,
{
    let ghost start = l.links@;
    let mut i: usize = 0;
    while i < xs.len()
        invariant
            i <= xs@.len(),
            l.links@ == start + preds_links(xs@.subrange(0, i as int)),
        decreases xs@.len() - i,
    {
        assert(xs@.subrange(0, i + 1).drop_last() =~= xs@.subrange(0, i as int));
        assert(decreases_to!(xs => xs@[i as int]));
        link_visible_where_predicate(&xs[i], l);
        i += 1;
        assert(l.links@ =~= start + preds_links(xs@.subrange(0, i as int)));
    }
    assert(xs@.subrange(0, xs@.len() as int) =~= xs@);
}

fn link_visible_poly_traits(xs: &Vec<PolyTrait>, l: &mut BfsLinker)
    ensures
        final(l).links@ == old(l).links@ + polys_links(xs@),
    decreases xs,
{
    let ghost start = l.links@;
    let mut i: usize = 0;
    while i < xs.len()
        invariant
            i <= xs@.len(),
            l.links@ == start + polys_links(xs@.subrange(0, i as int)),
        decreases xs@.len() - i,
    {
        assert(xs@.subrange(0, i + 1).drop_last() =~= xs@.subrange(0, i as int));
        assert(decreases_to!(xs => xs@[i as int]));
        link_visible_path(&xs[i].trait_, l);
        link_visible_generic_params(&xs[i].generic_params, l);
        i += 1;
        assert(l.links@ =~= start + polys_links(xs@.subrange(0, i as int)));
    }
    assert(xs@.subrange(0, xs@.len() as int) =~= xs@);
}

/// Links the ids that a type mentions.
pub fn link_visible_type(t: &Type, l: &mut BfsLinker)
    ensures
        final(l).links@ == old(l).links@ + type_links(*t),
    decreases t,
{
    let ghost start = l.links@;
    match t {
        Type::ResolvedPath(p) => link_visible_path(p, l),
        Type::DynTrait(ts) => link_visible_poly_traits(ts, l),
        Type::FunctionPointer(fp) => {
            link_visible_function_signature(&fp.sig, l);
            link_visible_generic_params(&fp.generic_params, l);
            assert(l.links@ =~= start + type_links(*t));
        },
        Type::Tuple(ts) => link_visible_types(ts, l),
        Type::Slice(b) => link_visible_type(b, l),
        Type::Array(b) => link_visible_type(b, l),
        Type::Pat => l.unsupported(),
        Type::ImplTrait(bs) => link_visible_generic_bounds(bs, l),
        Type::RawPointer(b) => link_visible_type(b, l),
        Type::BorrowedRef(b) => link_visible_type(b, l),
        Type::QualifiedPath { args, self_type, trait_ } => {
            link_visible_opt_args(args, l);
            link_visible_type(self_type, l);
            if let Some(p) = trait_ {
                link_visible_path(p, l);
            }
            assert(l.links@ =~= start + type_links(*t));
        },
        _ => {
            assert(l.links@ =~= start + type_links(*t));
        },
    }
}

fn link_visible_opt_type(t: &Option<Type>, l: &mut BfsLinker)
    ensures
        final(l).links@ == old(l).links@ + opt_type_links(*t),
    decreases t,
{
    match t {
        Some(t) => link_visible_type(t, l),
        None => {
            assert(l.links@ =~= l.links@ + opt_type_links(None));
        },
    }
}

/// Links a path's id, then what its generic arguments mention.
pub fn link_visible_path(p: &Path, l: &mut BfsLinker)
    ensures
        final(l).links@ == old(l).links@ + path_links(*p),
    decreases p,
{
    let ghost start = l.links@;
    l.link(p.id);
    link_visible_opt_args(&p.args, l);
    assert(l.links@ =~= start + path_links(*p));
}

fn link_visible_opt_args(a: &Option<Box<GenericArgs>>, l: &mut BfsLinker)
    ensures
        final(l).links@ == old(l).links@ + opt_args_links(*a),
    decreases a,
{
    match a {
        Some(b) => link_visible_generic_args(b, l),
        None => {
            assert(l.links@ =~= l.links@ + opt_args_links(None));
        },
    }
}

/// Links the ids that generic arguments mention.
pub fn link_visible_generic_args(a: &GenericArgs, l: &mut BfsLinker)
    ensures
        final(l).links@ == old(l).links@ + args_links(*a),
    decreases a,
{
    let ghost start = l.links@;
    match a {
        GenericArgs::AngleBracketed { args, constraints } => {
            link_visible_arg_seq(args, l);
            link_visible_constraints(constraints, l);
        },
        GenericArgs::Parenthesized { inputs, output } => {
            link_visible_types(inputs, l);
            link_visible_opt_type(output, l);
        },
        GenericArgs::ReturnTypeNotation => {},
    }
    assert(l.links@ =~= start + args_links(*a));
}

fn link_visible_constraint(c: &AssocItemConstraint, l: &mut BfsLinker)
    ensures
        final(l).links@ == old(l).links@ + constraint_links(*c),
    decreases c,
{
    let ghost start = l.links@;
    link_visible_opt_args(&c.args, l);
    match &c.binding {
        AssocItemConstraintKind::Equality(t) => link_visible_term(t, l),
        AssocItemConstraintKind::Constraint(bs) => link_visible_generic_bounds(bs, l),
    }
    assert(l.links@ =~= start + constraint_links(*c));
}

/// Links the ids that a term mentions.
pub fn link_visible_term(t: &Term, l: &mut BfsLinker)
    ensures
        final(l).links@ == old(l).links@ + term_links(*t),
    decreases t,
{
    match t {
        Term::Type(ty) => link_visible_type(ty, l),
        Term::Constant => {
            assert(l.links@ =~= l.links@ + term_links(*t));
        },
    }
}

/// Links the trait of a trait bound, and what its own generic parameters mention.
pub fn link_visible_generic_bound(b: &GenericBound, l: &mut BfsLinker)
    ensures
        final(l).links@ == old(l).links@ + bound_links(*b),
    decreases b,
{
    let ghost start = l.links@;
    if let GenericBound::TraitBound { trait_, generic_params } = b {
        link_visible_path(trait_, l);
        link_visible_generic_params(generic_params, l);
    }
    assert(l.links@ =~= start + bound_links(*b));
}

/// Links the bounds and the default of a type parameter.
pub fn link_visible_generic_param(p: &GenericParamDef, l: &mut BfsLinker)
    ensures
        final(l).links@ == old(l).links@ + param_links(*p),
    decreases p,
{
    let ghost start = l.links@;
    if let GenericParamDef::Type { bounds, default } = p {
        link_visible_generic_bounds(bounds, l);
        link_visible_opt_type(default, l);
    }
    assert(l.links@ =~= start + param_links(*p));
}

fn link_visible_where_predicate(w: &WherePredicate, l: &mut BfsLinker)
    ensures
        final(l).links@ == old(l).links@ + pred_links(*w),
    decreases w,
{
    let ghost start = l.links@;
    match w {
        WherePredicate::BoundPredicate { type_, bounds, generic_params } => {
            link_visible_type(type_, l);
            link_visible_generic_bounds(bounds, l);
            link_visible_generic_params(generic_params, l);
        },
        WherePredicate::LifetimePredicate => {},
        WherePredicate::EqPredicate { lhs, rhs } => {
            link_visible_type(lhs, l);
            link_visible_term(rhs, l);
        },
    }
    assert(l.links@ =~= start + pred_links(*w));
}

/// Links what the parameters and the where-clauses of generics mention.
pub fn link_visible_generics(g: &Generics, l: &mut BfsLinker)
    ensures
        final(l).links@ == old(l).links@ + generics_links(*g),
{
    let ghost start = l.links@;
    link_visible_generic_params(&g.params, l);
    link_visible_where_predicates(&g.where_predicates, l);
    assert(l.links@ =~= start + generics_links(*g));
}

/// Links the input types, then the output type, of a signature.
pub fn link_visible_function_signature(sig: &FunctionSignature, l: &mut BfsLinker)
    ensures
        final(l).links@ == old(l).links@ + sig_links(*sig),
    decreases sig,
{
    let ghost start = l.links@;
    link_visible_types(&sig.inputs, l);
    link_visible_opt_type(&sig.output, l);
    assert(l.links@ =~= start + sig_links(*sig));
}

/// The linker of the importable set: a module's children, a glob import's target.
pub fn link_importable(item: &Item, l: &mut BfsLinker)
    ensures
        final(l).links@ == old(l).links@ + importable_links(*item),
{
    match &item.kind {
        ItemKind::Module { items, .. } => l.link_all(items),
        ItemKind::Use { is_glob: true, id: Some(id), .. } => {
            l.link(*id);
            assert(l.links@ =~= old(l).links@ + importable_links(*item));
        },
        _ => {
            assert(l.links@ =~= old(l).links@ + importable_links(*item));
        },
    }
}

/// The linker of the visible set: the ids that an item's declared signature mentions.
pub fn link_visible(item: &Item, l: &mut BfsLinker)
    ensures
        final(l).links@ == old(l).links@ + visible_links(*item),
{
    let ghost start = l.links@;
    match &item.kind {
        ItemKind::Union { generics, fields, impls } => {
            link_visible_generics(generics, l);
            l.link_all(fields);
            l.link_all(impls);
        },
        ItemKind::Struct { kind, generics, impls } => {
            match kind {
                StructKind::Unit => {},
                StructKind::Tuple(fields) => l.link_present(fields),
                StructKind::Plain(fields) => l.link_all(fields),
            }
            link_visible_generics(generics, l);
            l.link_all(impls);
        },
        ItemKind::StructField(t) => link_visible_type(t, l),
        ItemKind::Enum { generics, variants, impls } => {
            link_visible_generics(generics, l);
            l.link_all(variants);
            l.link_all(impls);
        },
        ItemKind::Variant(kind) => match kind {
            VariantKind::Plain => {},
            VariantKind::Tuple(fields) => l.link_present(fields),
            VariantKind::Struct(fields) => l.link_all(fields),
        },
        ItemKind::Function { sig, generics } => {
            link_visible_function_signature(sig, l);
            link_visible_generics(generics, l);
        },
        ItemKind::Trait { items, generics, bounds } => {
            l.link_all(items);
            link_visible_generics(generics, l);
            link_visible_generic_bounds(bounds, l);
        },
        ItemKind::TraitAlias => l.unsupported(),
        ItemKind::Impl { generics, items, .. } => {
            link_visible_generics(generics, l);
            l.link_all(items);
        },
        ItemKind::TypeAlias { type_, generics } => {
            link_visible_type(type_, l);
            link_visible_generics(generics, l);
        },
        ItemKind::Constant(t) => link_visible_type(t, l),
        ItemKind::Static(t) => link_visible_type(t, l),
        ItemKind::ExternType => l.unsupported(),
        ItemKind::AssocConst(t) => link_visible_type(t, l),
        ItemKind::AssocType { generics, bounds, type_ } => {
            link_visible_generics(generics, l);
            link_visible_generic_bounds(bounds, l);
            link_visible_opt_type(type_, l);
        },
        _ => {},
    }
    assert(l.links@ =~= start + visible_links(*item));
}

} // verus!
