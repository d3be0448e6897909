//! Plain-value model of one package's documentation index.
//!
//! Every local id is a small integer. An index holds, for each id, either the item
//! declared under it (`items`) or a summary of the path of an item of another
//! package (`paths`).
use vstd::prelude::*;

verus! {

pub enum Visibility {
    Public,
    Default,
    Crate,
    Restricted,
}

pub struct Path {
    /// The path as written at the use site.
    pub path: String,
    pub id: u32,
    pub args: Option<Box<GenericArgs>>,
}

pub enum GenericArgs {
    AngleBracketed { args: Vec<GenericArg>, constraints: Vec<AssocItemConstraint> },
    Parenthesized { inputs: Vec<Type>, output: Option<Type> },
    ReturnTypeNotation,
}

pub enum GenericArg {
    Lifetime,
    Type(Type),
    Const,
    Infer,
}

pub struct AssocItemConstraint {
    pub args: Option<Box<GenericArgs>>,
    pub binding: AssocItemConstraintKind,
}

pub enum AssocItemConstraintKind {
    Equality(Term),
    Constraint(Vec<GenericBound>),
}

pub enum Term {
    Type(Type),
    Constant,
}

pub enum GenericBound {
    TraitBound { trait_: Path, generic_params: Vec<GenericParamDef> },
    Outlives,
    Use,
}

pub enum GenericParamDef {
    Lifetime,
    Type { bounds: Vec<GenericBound>, default: Option<Type> },
    Const,
}

pub struct Generics {
    pub params: Vec<GenericParamDef>,
    pub where_predicates: Vec<WherePredicate>,
}

pub enum WherePredicate {
    BoundPredicate { type_: Type, bounds: Vec<GenericBound>, generic_params: Vec<GenericParamDef> },
    LifetimePredicate,
    EqPredicate { lhs: Type, rhs: Term },
}

pub struct PolyTrait {
    pub trait_: Path,
    pub generic_params: Vec<GenericParamDef>,
}

pub struct FunctionSignature {
    pub inputs: Vec<Type>,
    pub output: Option<Type>,
}

pub struct FunctionPointer {
    pub sig: FunctionSignature,
    pub generic_params: Vec<GenericParamDef>,
}

pub enum Type {
    ResolvedPath(Path),
    DynTrait(Vec<PolyTrait>),
    Generic,
    Primitive,
    FunctionPointer(Box<FunctionPointer>),
    Tuple(Vec<Type>),
    Slice(Box<Type>),
    Array(Box<Type>),
    /// A pattern type, which this analysis does not support.
    Pat,
    ImplTrait(Vec<GenericBound>),
    Infer,
    RawPointer(Box<Type>),
    BorrowedRef(Box<Type>),
    QualifiedPath { args: Option<Box<GenericArgs>>, self_type: Box<Type>, trait_: Option<Path> },
}

pub enum StructKind {
    Unit,
    Tuple(Vec<Option<u32>>),
    Plain(Vec<u32>),
}

pub enum VariantKind {
    Plain,
    Tuple(Vec<Option<u32>>),
    Struct(Vec<u32>),
}

#[allow(inconsistent_fields)]
pub enum ItemKind {
    Module { items: Vec<u32>, is_crate: bool },
    ExternCrate { name: String, rename: Option<String> },
    Use { source: String, name: String, id: Option<u32>, is_glob: bool },
    Union { generics: Generics, fields: Vec<u32>, impls: Vec<u32> },
    Struct { kind: StructKind, generics: Generics, impls: Vec<u32> },
    StructField(Type),
    Enum { generics: Generics, variants: Vec<u32>, impls: Vec<u32> },
    Variant(VariantKind),
    Function { sig: FunctionSignature, generics: Generics },
    Trait { items: Vec<u32>, generics: Generics, bounds: Vec<GenericBound> },
    TraitAlias,
    /// `trait_args` is the rendering of the implemented trait's generic arguments.
    Impl { generics: Generics, trait_: Option<Path>, trait_args: String, items: Vec<u32> },
    TypeAlias { type_: Type, generics: Generics },
    Constant(Type),
    Static(Type),
    ExternType,
    Macro,
    ProcMacro,
    Primitive,
    AssocConst(Type),
    AssocType { generics: Generics, bounds: Vec<GenericBound>, type_: Option<Type> },
}

pub struct Item {
    pub name: Option<String>,
    pub visibility: Visibility,
    pub kind: ItemKind,
}

/// Where an id of another package points: that package's key in `externals`, and
/// the item's full path, starting with the package's name.
pub struct PathSummary {
    pub crate_id: u32,
    pub path: Vec<String>,
}

pub struct ExternalCrate {
    pub crate_id: u32,
    pub name: String,
}

/// The documentation index of one package, with ids used as positions.
pub struct DocIndex {
    pub items: Vec<Option<Item>>,
    pub paths: Vec<Option<PathSummary>>,
    pub externals: Vec<ExternalCrate>,
}

impl DocIndex {
    pub open spec fn item_at(&self, id: u32) -> Option<Item> {
        if (id as int) < self.items@.len() {
            self.items@[id as int]
        } else {
            None
        }
    }

    pub open spec fn path_at(&self, id: u32) -> Option<PathSummary> {
        if (id as int) < self.paths@.len() {
            self.paths@[id as int]
        } else {
            None
        }
    }

    /// The name of the package with the given key in `externals` (its first entry).
    pub open spec fn external_name(&self, crate_id: u32) -> Option<Seq<char>> {
        let i = self.first_external(crate_id, self.externals@.len() as nat);
        if i < self.externals@.len() {
            Some(self.externals@[i].name@)
        } else {
            None
        }
    }

    /// Position of the first entry with key `crate_id` among the first `n` entries,
    /// or `n` where there is none.
    pub open spec fn first_external(&self, crate_id: u32, n: nat) -> int
        decreases n,
    {
        if n == 0 {
            0
        } else {
            let i = self.first_external(crate_id, (n - 1) as nat);
            if i < n - 1 {
                i
            } else if self.externals@[n - 1].crate_id == crate_id {
                n - 1
            } else {
                n as int
            }
        }
    }

    /// Looks up the item declared under `id`.
    pub fn get_item(&self, id: u32) -> (r: Option<&Item>)
        ensures
            r matches Some(it) ==> self.item_at(id) == Some(*it),
            r is None ==> self.item_at(id) is None,
    {
        let i = id as usize;
        if i < self.items.len() {
            self.items[i].as_ref()
        } else {
            None
        }
    }

    /// Looks up the path summary recorded under `id`.
    pub fn get_path(&self, id: u32) -> (r: Option<&PathSummary>)
        ensures
            r matches Some(p) ==> self.path_at(id) == Some(*p),
            r is None ==> self.path_at(id) is None,
    {
        let i = id as usize;
        if i < self.paths.len() {
            self.paths[i].as_ref()
        } else {
            None
        }
    }

    /// Looks up the name of the package that `externals` lists under `crate_id`.
    pub fn get_external_name(&self, crate_id: u32) -> (r: Option<&String>)
        ensures
            r matches Some(s) ==> self.external_name(crate_id) == Some(s@),
            r is None ==> self.external_name(crate_id) is None,
    {
        let mut i: usize = 0;
        while i < self.externals.len()
            invariant
                0 <= i <= self.externals@.len(),
                self.first_external(crate_id, i as nat) == i,
            decreases self.externals@.len() - i,
        {
            if self.externals[i].crate_id == crate_id {
                proof {
                    self.lemma_first_external_stays(crate_id, (i + 1) as nat, self.externals@.len() as nat);
                }
                return Some(&self.externals[i].name);
            }
            i += 1;
        }
        None
    }

    proof fn lemma_first_external_stays(&self, crate_id: u32, n: nat, m: nat)
        requires
            n <= m,
            self.first_external(crate_id, n) < n,
        ensures
            self.first_external(crate_id, m) == self.first_external(crate_id, n),
        decreases m - n,
    {
        if n < m {
            self.lemma_first_external_stays(crate_id, n, (m - 1) as nat);
        }
    }

    /// Whether `id` names a module that is the root of its package.
    pub open spec fn is_root_module(&self, id: int) -> bool {
        &&& 0 <= id < self.items@.len()
        &&& self.items@[id] is Some
        &&& self.items@[id]->Some_0.kind matches ItemKind::Module { is_crate, .. } ==> is_crate
        &&& self.items@[id]->Some_0.kind is Module
    }

    /// Finds the first item that is the root module of the package.
    pub fn find_root_module(&self) -> (r: Option<u32>)
        ensures
            r matches Some(id) ==> self.is_root_module(id as int) && forall|j: int| 0 <= j < id ==> !self.is_root_module(j),
            r is None ==> forall|j: int| 0 <= j < self.items@.len() && j <= u32::MAX ==> !self.is_root_module(j),
    {
        let mut i: usize = 0;
        while i < self.items.len() && i <= u32::MAX as usize
            invariant
                0 <= i <= self.items@.len(),
                forall|j: int| 0 <= j < i ==> !self.is_root_module(j),
            decreases self.items@.len() - i,
        {
            if let Some(it) = &self.items[i] {
                if let ItemKind::Module { is_crate, .. } = &it.kind {
                    if *is_crate {
                        return Some(i as u32);
                    }
                }
            }
            i += 1;
        }
        None
    }
}

} // verus!
