use should_be_public::cli_args::CliArgs;
use should_be_public::ids::{AbsId, CanonId};
use should_be_public::item_graph::{BfsErr, BfsFailure, GraphCache, LinkMode, LoadErr, ReportErr};
use should_be_public::labels::{child_label, is_public, underscored, DisplayPath};
use should_be_public::linkers::{link_importable, link_visible, link_visible_type, BfsLinker, Link};
use should_be_public::model::{
    DocIndex, ExternalCrate, FunctionSignature, GenericArg, GenericArgs, GenericBound, GenericParamDef,
    Generics, Item, ItemKind, Path, PathSummary, StructKind, Type, VariantKind, Visibility, WherePredicate,
};
use should_be_public::resolve::{Failure, ResolveErr};

fn generics() -> Generics {
    Generics { params: vec![], where_predicates: vec![] }
}

fn item(name: Option<&str>, visibility: Visibility, kind: ItemKind) -> Option<Item> {
    Some(Item { name: name.map(|s| s.to_string()), visibility, kind })
}

fn root(items: Vec<u32>) -> Option<Item> {
    item(Some("krate"), Visibility::Public, ItemKind::Module { items, is_crate: true })
}

fn unit(name: &str) -> Option<Item> {
    item(Some(name), Visibility::Public, ItemKind::Struct { kind: StructKind::Unit, generics: generics(), impls: vec![] })
}

fn path_to(id: u32) -> Path {
    Path { path: format!("P{}", id), id, args: None }
}

fn id(p: usize, i: u32) -> AbsId {
    AbsId { crate_idx: p, item_id: i }
}

fn graph_with(d: DocIndex) -> GraphCache {
    let mut g = GraphCache::new("krate".to_string());
    g.add_package("krate".to_string(), d).unwrap();
    g
}

#[test]
fn unknown_id_is_missing_path() {
    let mut g = graph_with(DocIndex { items: vec![root(vec![])], paths: vec![], externals: vec![] });
    assert!(matches!(g.resolve(id(0, 7)), Err(ResolveErr::Fail(Failure::MissingPath))));
}

#[test]
fn unlisted_package_key_is_missing_external() {
    let paths = vec![None, Some(PathSummary { crate_id: 9, path: vec!["dep".to_string(), "T".to_string()] })];
    let mut g = graph_with(DocIndex { items: vec![root(vec![])], paths, externals: vec![] });
    assert!(matches!(g.resolve(id(0, 1)), Err(ResolveErr::Fail(Failure::MissingExternal))));
}

#[test]
fn empty_path_summary_is_refused() {
    let paths = vec![None, Some(PathSummary { crate_id: 2, path: vec![] })];
    let externals = vec![ExternalCrate { crate_id: 2, name: "krate".to_string() }];
    let mut g = graph_with(DocIndex { items: vec![root(vec![])], paths, externals });
    assert!(matches!(g.resolve(id(0, 1)), Err(ResolveErr::Fail(Failure::EmptyPath))));
    assert!(matches!(g.resolve_path(&vec![]), Err(ResolveErr::Fail(Failure::EmptyPath))));
}

#[test]
fn path_through_a_struct_is_not_module() {
    let mut g = graph_with(DocIndex { items: vec![root(vec![1]), unit("S")], paths: vec![], externals: vec![] });
    let r = g.resolve2(&"krate".to_string(), &vec!["S".to_string(), "x".to_string()]);
    assert!(matches!(r, Err(ResolveErr::Fail(Failure::NotModule))));
}

#[test]
fn absent_segment_is_unknown_name() {
    let mut g = graph_with(DocIndex { items: vec![root(vec![1]), unit("S")], paths: vec![], externals: vec![] });
    let r = g.resolve_path(&vec!["krate".to_string(), "Nope".to_string()]);
    assert!(matches!(r, Err(ResolveErr::Fail(Failure::UnknownName(ref n, ref names))) if n == "Nope" && names == &vec!["S".to_string()]));
    let ok = g.resolve_path(&vec!["krate".to_string(), "S".to_string()]).unwrap();
    assert_eq!(ok, CanonId(id(0, 1)));
}

#[test]
fn private_convention_path_is_ignored() {
    let mut g = graph_with(DocIndex { items: vec![root(vec![])], paths: vec![], externals: vec![] });
    let r = g.resolve2(&"krate".to_string(), &vec!["__private".to_string(), "x".to_string()]);
    assert!(matches!(r, Err(ResolveErr::Ignore)));
}

#[test]
fn overlong_reexport_chain_is_too_deep() {
    let n: u32 = 300;
    let mut items = vec![root(vec![])];
    for i in 1..n {
        items.push(item(
            None,
            Visibility::Public,
            ItemKind::Use { source: "x".to_string(), name: "x".to_string(), id: Some(i + 1), is_glob: false },
        ));
    }
    items.push(unit("End"));
    let mut g = graph_with(DocIndex { items, paths: vec![], externals: vec![] });
    assert!(matches!(g.resolve(id(0, 1)), Err(ResolveErr::Fail(Failure::TooDeep))));
    assert_eq!(g.resolve(id(0, n - 10)).unwrap(), CanonId(id(0, n)));
}

#[test]
fn use_without_target_is_ignored() {
    let items = vec![
        root(vec![1]),
        item(None, Visibility::Public, ItemKind::Use { source: "u8".to_string(), name: "u8".to_string(), id: None, is_glob: false }),
    ];
    let mut g = graph_with(DocIndex { items, paths: vec![], externals: vec![] });
    assert!(matches!(g.resolve(id(0, 1)), Err(ResolveErr::Ignore)));
}

#[test]
fn extern_crate_resolves_to_its_root() {
    let items = vec![
        root(vec![1]),
        item(None, Visibility::Public, ItemKind::ExternCrate { name: "dep".to_string(), rename: None }),
    ];
    let mut g = graph_with(DocIndex { items, paths: vec![], externals: vec![] });
    assert!(matches!(g.resolve(id(0, 1)), Err(ResolveErr::Need(n)) if n == "dep"));
    let dep = DocIndex { items: vec![unit("Z"), root(vec![0])], paths: vec![], externals: vec![] };
    let m = g.add_package("dep".to_string(), dep).unwrap();
    assert_eq!(m.0, CanonId(id(1, 1)));
    assert_eq!(g.resolve(id(0, 1)).unwrap(), CanonId(id(1, 1)));
}

#[test]
fn loading_twice_or_without_root_is_refused() {
    let mut g = graph_with(DocIndex { items: vec![root(vec![])], paths: vec![], externals: vec![] });
    let again = DocIndex { items: vec![root(vec![])], paths: vec![], externals: vec![] };
    assert!(matches!(g.add_package("krate".to_string(), again), Err(LoadErr::AlreadyLoaded)));
    let rootless = DocIndex { items: vec![unit("S")], paths: vec![], externals: vec![] };
    assert!(matches!(g.add_package("other".to_string(), rootless), Err(LoadErr::NoRootModule)));
}

#[test]
fn missing_root_package_is_asked_for() {
    let mut g = GraphCache::new("krate".to_string());
    assert!(matches!(g.bfs(LinkMode::Importable, None, true), Err(BfsFailure { error: BfsErr::Need(n), .. }) if n == "krate"));
}

#[test]
fn trait_alias_is_unsupported_in_signatures() {
    let items = vec![root(vec![1]), item(Some("A"), Visibility::Public, ItemKind::TraitAlias)];
    let mut g = graph_with(DocIndex { items, paths: vec![], externals: vec![] });
    let imp = g.bfs(LinkMode::Importable, None, true).unwrap().labels;
    assert!(matches!(g.bfs(LinkMode::Visible, Some(&imp), false), Err(BfsFailure { error: BfsErr::Unsupported(l), .. }) if l == "krate::A"));
}

#[test]
fn report_refuses_unjudgeable_kinds() {
    let items = vec![
        root(vec![1]),
        item(
            Some("f"),
            Visibility::Public,
            ItemKind::Function { sig: FunctionSignature { inputs: vec![Type::ResolvedPath(path_to(2))], output: None }, generics: generics() },
        ),
        item(Some("E"), Visibility::Default, ItemKind::ExternType),
    ];
    let mut g = graph_with(DocIndex { items, paths: vec![], externals: vec![] });
    let imp = g.bfs(LinkMode::Importable, None, true).unwrap().labels;
    let vis = g.bfs(LinkMode::Visible, Some(&imp), false).unwrap().labels;
    assert!(matches!(g.visible_not_importable(&imp, &vis), Err(ReportErr::Unjudgeable(l)) if l == "krate::f::E"));
}

#[test]
fn failing_child_is_skipped_not_fatal() {
    let items = vec![root(vec![1, 7]), unit("S")];
    let mut g = graph_with(DocIndex { items, paths: vec![], externals: vec![] });
    let out = g.bfs(LinkMode::Importable, None, true);
    let out = out.unwrap();
    assert_eq!(out.labels.len(), 2);
    assert_eq!(out.skipped.len(), 0);
    let items = vec![root(vec![1]), item(Some("T"), Visibility::Public, ItemKind::StructField(Type::ResolvedPath(path_to(9))))];
    let mut g3 = graph_with(DocIndex { items, paths: vec![], externals: vec![] });
    let imp3 = g3.bfs(LinkMode::Importable, None, true).unwrap().labels;
    let vis3 = g3.bfs(LinkMode::Visible, Some(&imp3), false).unwrap();
    assert_eq!(vis3.skipped.len(), 1);
    assert_eq!(vis3.skipped[0].parent, "krate::T");
    assert_eq!(vis3.skipped[0].child, id(0, 9));
    assert!(matches!(vis3.skipped[0].failure, Failure::MissingPath));
}

#[test]
fn importable_linker_follows_modules_and_globs() {
    let mut l = BfsLinker::new();
    link_importable(&Item { name: None, visibility: Visibility::Public, kind: ItemKind::Module { items: vec![4, 2], is_crate: false } }, &mut l);
    link_importable(&Item { name: None, visibility: Visibility::Public, kind: ItemKind::Use { source: String::new(), name: String::new(), id: Some(9), is_glob: true } }, &mut l);
    link_importable(&Item { name: None, visibility: Visibility::Public, kind: ItemKind::Use { source: String::new(), name: String::new(), id: Some(8), is_glob: false } }, &mut l);
    assert_eq!(l.links, vec![Link::Id(4), Link::Id(2), Link::Id(9)]);
}

#[test]
fn visible_linker_walks_types_in_order() {
    let args = GenericArgs::AngleBracketed {
        args: vec![GenericArg::Lifetime, GenericArg::Type(Type::ResolvedPath(path_to(3)))],
        constraints: vec![],
    };
    let t = Type::Tuple(vec![
        Type::BorrowedRef(Box::new(Type::ResolvedPath(Path { path: "V".to_string(), id: 1, args: Some(Box::new(args)) }))),
        Type::Primitive,
        Type::Slice(Box::new(Type::ImplTrait(vec![GenericBound::TraitBound { trait_: path_to(5), generic_params: vec![] }]))),
        Type::QualifiedPath { args: None, self_type: Box::new(Type::Generic), trait_: Some(path_to(6)) },
    ]);
    let mut l = BfsLinker::new();
    link_visible_type(&t, &mut l);
    assert_eq!(l.links, vec![Link::Id(1), Link::Id(3), Link::Id(5), Link::Id(6)]);
    let mut l2 = BfsLinker::new();
    link_visible_type(&Type::Pat, &mut l2);
    assert_eq!(l2.links, vec![Link::Unsupported]);
}

#[test]
fn visible_linker_on_items() {
    let g = Generics {
        params: vec![GenericParamDef::Type { bounds: vec![GenericBound::TraitBound { trait_: path_to(20), generic_params: vec![] }], default: Some(Type::ResolvedPath(path_to(21))) }],
        where_predicates: vec![WherePredicate::EqPredicate { lhs: Type::ResolvedPath(path_to(22)), rhs: should_be_public::model::Term::Constant }],
    };
    let s = Item { name: Some("S".to_string()), visibility: Visibility::Public, kind: ItemKind::Struct { kind: StructKind::Tuple(vec![Some(1), None, Some(2)]), generics: g, impls: vec![30] } };
    let mut l = BfsLinker::new();
    link_visible(&s, &mut l);
    assert_eq!(l.links, vec![Link::Id(1), Link::Id(2), Link::Id(20), Link::Id(21), Link::Id(22), Link::Id(30)]);
    let v = Item { name: Some("V".to_string()), visibility: Visibility::Default, kind: ItemKind::Variant(VariantKind::Struct(vec![7, 8])) };
    let mut l2 = BfsLinker::new();
    link_visible(&v, &mut l2);
    assert_eq!(l2.links, vec![Link::Id(7), Link::Id(8)]);
    let m = Item { name: Some("m".to_string()), visibility: Visibility::Public, kind: ItemKind::Module { items: vec![1], is_crate: false } };
    let mut l3 = BfsLinker::new();
    link_visible(&m, &mut l3);
    assert!(l3.links.is_empty());
}

#[test]
fn labels_of_unnamed_children() {
    let trait_path = Path { path: "Iterator".to_string(), id: 9, args: None };
    let items = vec![
        root(vec![]),
        item(None, Visibility::Default, ItemKind::Impl { generics: generics(), trait_: None, trait_args: "None".to_string(), items: vec![] }),
        item(None, Visibility::Default, ItemKind::Impl { generics: generics(), trait_: Some(trait_path), trait_args: "None".to_string(), items: vec![] }),
        item(None, Visibility::Public, ItemKind::ExternCrate { name: "dep".to_string(), rename: Some("d".to_string()) }),
        item(None, Visibility::Public, ItemKind::Use { source: "a::b".to_string(), name: "b".to_string(), id: Some(1), is_glob: false }),
        item(None, Visibility::Public, ItemKind::Use { source: "a".to_string(), name: "a".to_string(), id: Some(1), is_glob: true }),
        item(None, Visibility::Public, ItemKind::Macro),
    ];
    let paths = vec![None, None, None, None, None, None, None, Some(PathSummary { crate_id: 1, path: vec!["dep".to_string(), "x".to_string(), "Y".to_string()] })];
    let d = DocIndex { items, paths, externals: vec![] };
    let p = "krate::S".to_string();
    assert_eq!(child_label(&d, &p, 1).unwrap(), "krate::S");
    assert_eq!(child_label(&d, &p, 2).unwrap(), "krate::S::`<_ as Iterator<None>>`");
    assert_eq!(child_label(&d, &p, 3).unwrap(), "krate::S::d");
    assert_eq!(child_label(&d, &p, 4).unwrap(), "krate::S::b");
    assert_eq!(child_label(&d, &p, 5).unwrap(), "krate::S");
    assert!(child_label(&d, &p, 6).is_none());
    assert_eq!(child_label(&d, &p, 7).unwrap(), "krate::S::Y");
    assert!(child_label(&d, &p, 8).is_none());
    assert!(is_public(&d, 1));
    assert!(!is_public(&d, 8));
}

#[test]
fn default_visibility_is_public_only_for_some_kinds() {
    let items = vec![
        item(Some("V"), Visibility::Default, ItemKind::Variant(VariantKind::Plain)),
        item(Some("S"), Visibility::Default, ItemKind::Struct { kind: StructKind::Unit, generics: generics(), impls: vec![] }),
        item(Some("C"), Visibility::Crate, ItemKind::Variant(VariantKind::Plain)),
        item(Some("P"), Visibility::Public, ItemKind::Macro),
    ];
    let d = DocIndex { items, paths: vec![], externals: vec![] };
    assert!(is_public(&d, 0));
    assert!(!is_public(&d, 1));
    assert!(!is_public(&d, 2));
    assert!(is_public(&d, 3));
}

#[test]
fn display_path_joins_segments() {
    assert_eq!(DisplayPath(&[]).render(), "");
    assert_eq!(DisplayPath(&["a".to_string()]).render(), "a");
    let segs = vec!["a".to_string(), "b".to_string(), "c".to_string()];
    assert_eq!(DisplayPath(&segs).render(), "a::b::c");
}

#[test]
fn underscored_replaces_dashes() {
    assert_eq!(underscored(&"my-crate-x".to_string()), "my_crate_x");
    assert_eq!(underscored(&"plain".to_string()), "plain");
    assert_eq!(underscored(&String::new()), "");
}

#[test]
fn root_package_is_the_named_one() {
    let named = CliArgs { path: ".".to_string(), package: Some("p".to_string()) };
    assert_eq!(named.root_package(), Some("p".to_string()));
    let unnamed = CliArgs { path: ".".to_string(), package: None };
    assert_eq!(unnamed.root_package(), None);
}

#[test]
fn report_is_sorted() {
    let field = |n: &str, t: u32| {
        item(Some(n), Visibility::Public, ItemKind::StructField(Type::ResolvedPath(path_to(t))))
    };
    let items = vec![
        root(vec![1]),
        item(Some("S"), Visibility::Public, ItemKind::Struct { kind: StructKind::Plain(vec![2, 3, 4]), generics: generics(), impls: vec![] }),
        field("z", 5),
        field("b", 6),
        field("m", 7),
        item(Some("Zed"), Visibility::Default, ItemKind::Struct { kind: StructKind::Unit, generics: generics(), impls: vec![] }),
        item(Some("Bee"), Visibility::Default, ItemKind::Enum { generics: generics(), variants: vec![], impls: vec![] }),
        item(Some("Em"), Visibility::Default, ItemKind::Trait { items: vec![], generics: generics(), bounds: vec![] }),
    ];
    let mut g = graph_with(DocIndex { items, paths: vec![], externals: vec![] });
    let imp = g.bfs(LinkMode::Importable, None, true).unwrap().labels;
    let vis = g.bfs(LinkMode::Visible, Some(&imp), false).unwrap().labels;
    let r = g.visible_not_importable(&imp, &vis).unwrap();
    assert_eq!(r, vec!["krate::S::b::Bee".to_string(), "krate::S::m::Em".to_string(), "krate::S::z::Zed".to_string()]);
}

#[test]
fn child_needing_a_package_stops_the_traversal() {
    let paths = vec![None, None, Some(PathSummary { crate_id: 3, path: vec!["dep".to_string(), "T".to_string()] })];
    let items = vec![root(vec![1]), item(Some("F"), Visibility::Public, ItemKind::StructField(Type::ResolvedPath(path_to(2))))];
    let externals = vec![ExternalCrate { crate_id: 3, name: "dep".to_string() }];
    let mut g = graph_with(DocIndex { items, paths, externals });
    let imp = g.bfs(LinkMode::Importable, None, true).unwrap().labels;
    assert!(matches!(g.bfs(LinkMode::Visible, Some(&imp), false), Err(BfsFailure { error: BfsErr::Need(n), .. }) if n == "dep"));
}

#[test]
fn failure_records_the_entry_being_expanded() {
    let items = vec![root(vec![1]), item(Some("A"), Visibility::Public, ItemKind::TraitAlias)];
    let mut g = graph_with(DocIndex { items, paths: vec![], externals: vec![] });
    let imp = g.bfs(LinkMode::Importable, None, true).unwrap().labels;
    let f = g.bfs(LinkMode::Visible, Some(&imp), false).unwrap_err();
    assert!(matches!(f.error, BfsErr::Unsupported(_)));
    assert_eq!(f.partial.labels[f.partial.expanded[f.at]].1, "krate::A");
    assert_eq!(f.at, 1);
}
