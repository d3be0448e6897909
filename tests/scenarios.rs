use should_be_public::ids::{AbsId, CanonId};
use should_be_public::item_graph::{BfsErr, BfsFailure, GraphCache, LinkMode};
use should_be_public::model::{
    DocIndex, ExternalCrate, GenericBound, Generics, Item, ItemKind, Path, PathSummary, StructKind, Type,
    Visibility,
};
use should_be_public::resolve::{Failure, ResolveErr};

fn generics() -> Generics {
    Generics { params: vec![], where_predicates: vec![] }
}

fn item(name: Option<&str>, visibility: Visibility, kind: ItemKind) -> Option<Item> {
    Some(Item { name: name.map(|s| s.to_string()), visibility, kind })
}

fn module(name: &str, visibility: Visibility, items: Vec<u32>, is_crate: bool) -> Option<Item> {
    item(Some(name), visibility, ItemKind::Module { items, is_crate })
}

fn plain_struct(name: &str, visibility: Visibility, fields: Vec<u32>) -> Option<Item> {
    item(
        Some(name),
        visibility,
        ItemKind::Struct { kind: StructKind::Plain(fields), generics: generics(), impls: vec![] },
    )
}

fn path_to(id: u32, text: &str) -> Path {
    Path { path: text.to_string(), id, args: None }
}

fn doc(items: Vec<Option<Item>>) -> DocIndex {
    DocIndex { items, paths: vec![], externals: vec![] }
}

fn load(g: &mut GraphCache, docs: &mut Vec<(String, DocIndex)>, name: &str) {
    let pos = docs.iter().position(|(n, _)| n == name).expect("an index for every package asked for");
    let (n, d) = docs.remove(pos);
    g.add_package(n, d).expect("package with a root module");
}

/// Runs both traversals, loading packages as they are asked for.
fn analyse(
    root: &str,
    mut docs: Vec<(String, DocIndex)>,
) -> (GraphCache, Vec<(CanonId, String)>, Vec<(CanonId, String)>) {
    let mut g = GraphCache::new(root.to_string());
    loop {
        let imp = match g.bfs(LinkMode::Importable, None, true) {
            Ok(o) => o.labels,
            Err(BfsFailure { error: BfsErr::Need(n), .. }) => {
                load(&mut g, &mut docs, &n);
                continue;
            }
            Err(e) => panic!("importable traversal failed: {:?}", e),
        };
        let vis = match g.bfs(LinkMode::Visible, Some(&imp), false) {
            Ok(o) => o.labels,
            Err(BfsFailure { error: BfsErr::Need(n), .. }) => {
                load(&mut g, &mut docs, &n);
                continue;
            }
            Err(e) => panic!("visible traversal failed: {:?}", e),
        };
        return (g, imp, vis);
    }
}

fn report(g: &GraphCache, imp: &Vec<(CanonId, String)>, vis: &Vec<(CanonId, String)>) -> Vec<String> {
    g.visible_not_importable(imp, vis).expect("a report")
}

fn has(labels: &Vec<(CanonId, String)>, label: &str) -> bool {
    labels.iter().any(|(_, l)| l == label)
}

fn id(p: usize, i: u32) -> AbsId {
    AbsId { crate_idx: p, item_id: i }
}

/// Root module with `pub struct Foo { pub bar: Bar }` and a private `struct Bar;`.
fn foo_bar_doc() -> DocIndex {
    doc(vec![
        module("krate", Visibility::Public, vec![1, 2], true),
        plain_struct("Foo", Visibility::Public, vec![3]),
        item(
            Some("Bar"),
            Visibility::Default,
            ItemKind::Struct { kind: StructKind::Unit, generics: generics(), impls: vec![] },
        ),
        item(Some("bar"), Visibility::Public, ItemKind::StructField(Type::ResolvedPath(path_to(2, "Bar")))),
    ])
}

#[test]
fn private_field_type_is_reported() {
    let (g, imp, vis) = analyse("krate", vec![("krate".to_string(), foo_bar_doc())]);
    assert!(has(&imp, "krate::Foo"));
    assert!(!has(&imp, "krate::Bar"));
    assert_eq!(report(&g, &imp, &vis), vec!["krate::Foo::bar::Bar".to_string()]);
}

#[test]
fn importable_set_is_within_visible_set() {
    let (_g, imp, vis) = analyse("krate", vec![("krate".to_string(), foo_bar_doc())]);
    assert!(vis.len() >= imp.len());
    for (k, l) in &imp {
        assert!(vis.iter().any(|(k2, l2)| k2 == k && l2 == l));
    }
}

#[test]
fn each_id_has_one_label() {
    let (_g, _imp, vis) = analyse("krate", vec![("krate".to_string(), foo_bar_doc())]);
    for i in 0..vis.len() {
        for j in (i + 1)..vis.len() {
            assert_ne!(vis[i].0, vis[j].0);
        }
    }
}

#[test]
fn root_label_uses_underscores() {
    let (_g, imp, _vis) = analyse("my-krate", vec![("my-krate".to_string(), foo_bar_doc())]);
    assert_eq!(imp[0].1, "my_krate");
    assert!(has(&imp, "my_krate::Foo"));
}

/// `mod inner { struct Zed; }` with `pub use inner::Zed;` at the root.
fn reexport_doc() -> DocIndex {
    doc(vec![
        module("krate", Visibility::Public, vec![1, 2], true),
        module("inner", Visibility::Default, vec![3], false),
        item(
            None,
            Visibility::Public,
            ItemKind::Use { source: "inner::Zed".to_string(), name: "Zed".to_string(), id: Some(3), is_glob: false },
        ),
        item(
            Some("Zed"),
            Visibility::Default,
            ItemKind::Struct { kind: StructKind::Unit, generics: generics(), impls: vec![] },
        ),
    ])
}

#[test]
fn reexport_of_private_type_is_importable() {
    let (mut g, imp, vis) = analyse("krate", vec![("krate".to_string(), reexport_doc())]);
    let via_use = g.resolve(id(0, 2)).unwrap();
    let direct = g.resolve(id(0, 3)).unwrap();
    assert_eq!(via_use, direct);
    assert_eq!(direct, CanonId(id(0, 3)));
    assert!(has(&imp, "krate::Zed"));
    assert!(report(&g, &imp, &vis).is_empty());
}

#[test]
fn canonicalisation_is_idempotent() {
    let (mut g, _imp, _vis) = analyse("krate", vec![("krate".to_string(), reexport_doc())]);
    let once = g.resolve(id(0, 2)).unwrap();
    let twice = g.resolve(once.0).unwrap();
    assert_eq!(once, twice);
}

/// `pub fn f() -> dep::<path>` where the return type's id points into `dep`.
fn fn_returning_dep_doc(path: Vec<&str>) -> DocIndex {
    let sig = should_be_public::model::FunctionSignature {
        inputs: vec![],
        output: Some(Type::ResolvedPath(path_to(5, "T"))),
    };
    let mut paths: Vec<Option<PathSummary>> = (0..5).map(|_| None).collect();
    paths.push(Some(PathSummary { crate_id: 1, path: path.iter().map(|s| s.to_string()).collect() }));
    DocIndex {
        items: vec![
            module("app", Visibility::Public, vec![1], true),
            item(Some("f"), Visibility::Public, ItemKind::Function { sig, generics: generics() }),
        ],
        paths,
        externals: vec![ExternalCrate { crate_id: 1, name: "dep".to_string() }],
    }
}

/// `dep` exports `T` at its root and declares `Q` in `mod internal`.
fn dep_doc() -> DocIndex {
    doc(vec![
        module("dep", Visibility::Public, vec![1, 2], true),
        plain_struct("T", Visibility::Public, vec![]),
        module("internal", Visibility::Default, vec![3], false),
        plain_struct("Q", Visibility::Public, vec![]),
    ])
}

#[test]
fn dependency_public_type_is_importable() {
    let (mut g, imp, vis) = analyse(
        "app",
        vec![("app".to_string(), fn_returning_dep_doc(vec!["dep", "T"])), ("dep".to_string(), dep_doc())],
    );
    let t = g.resolve(id(0, 5)).unwrap();
    assert_eq!(t, CanonId(id(1, 1)));
    assert!(imp.iter().any(|(k, l)| *k == t && l == "dep::T"));
    assert!(vis.iter().any(|(k, _)| *k == t));
    assert!(report(&g, &imp, &vis).is_empty());
}

#[test]
fn unexported_dependency_type_is_reported() {
    let (g, imp, vis) = analyse(
        "app",
        vec![
            ("app".to_string(), fn_returning_dep_doc(vec!["dep", "internal", "Q"])),
            ("dep".to_string(), dep_doc()),
        ],
    );
    assert!(vis.iter().any(|(k, _)| *k == CanonId(id(1, 3))));
    assert!(!imp.iter().any(|(k, _)| *k == CanonId(id(1, 3))));
    assert_eq!(report(&g, &imp, &vis), vec!["app::f::Q".to_string()]);
}

/// `mod other { pub struct S; }` with `pub use other::*;` at the root.
fn glob_doc() -> DocIndex {
    doc(vec![
        module("krate", Visibility::Public, vec![1, 2], true),
        module("other", Visibility::Default, vec![3], false),
        item(
            None,
            Visibility::Public,
            ItemKind::Use { source: "other".to_string(), name: "other".to_string(), id: Some(1), is_glob: true },
        ),
        plain_struct("S", Visibility::Public, vec![]),
    ])
}

#[test]
fn glob_import_from_private_module_is_importable_at_the_importer() {
    let (g, imp, vis) = analyse("krate", vec![("krate".to_string(), glob_doc())]);
    assert!(imp.iter().any(|(k, l)| *k == CanonId(id(0, 3)) && l == "krate::S"));
    assert!(!imp.iter().any(|(_, l)| l == "krate::other::S"));
    assert!(report(&g, &imp, &vis).is_empty());
}

#[test]
fn glob_import_binds_names_at_the_importer() {
    let mut g = GraphCache::new("krate".to_string());
    g.add_package("krate".to_string(), glob_doc()).unwrap();
    let s = g.resolve2(&"krate".to_string(), &vec!["S".to_string()]).unwrap();
    assert_eq!(s, CanonId(id(0, 3)));
    let direct = g.resolve2(&"krate".to_string(), &vec!["other".to_string(), "S".to_string()]).unwrap();
    assert_eq!(direct, s);
}

#[test]
fn glob_cycle_terminates() {
    let d = doc(vec![
        module("krate", Visibility::Public, vec![1, 2], true),
        module("a", Visibility::Public, vec![3, 4], false),
        module("b", Visibility::Public, vec![5, 6], false),
        item(None, Visibility::Public, ItemKind::Use { source: "b".to_string(), name: "b".to_string(), id: Some(2), is_glob: true }),
        plain_struct("X", Visibility::Public, vec![]),
        item(None, Visibility::Public, ItemKind::Use { source: "a".to_string(), name: "a".to_string(), id: Some(1), is_glob: true }),
        plain_struct("Y", Visibility::Public, vec![]),
    ]);
    let mut g = GraphCache::new("krate".to_string());
    g.add_package("krate".to_string(), d).unwrap();
    let y = g.resolve2(&"krate".to_string(), &vec!["a".to_string(), "Y".to_string()]).unwrap();
    assert_eq!(y, CanonId(id(0, 6)));
    let x = g.resolve2(&"krate".to_string(), &vec!["b".to_string(), "X".to_string()]).unwrap();
    assert_eq!(x, CanonId(id(0, 4)));
}

/// `pub trait T { type Hidden: PrivateBound; }` with a private `trait PrivateBound`.
fn assoc_type_doc() -> DocIndex {
    doc(vec![
        module("krate", Visibility::Public, vec![1, 3], true),
        item(Some("T"), Visibility::Public, ItemKind::Trait { items: vec![2], generics: generics(), bounds: vec![] }),
        item(
            Some("Hidden"),
            Visibility::Default,
            ItemKind::AssocType {
                generics: generics(),
                bounds: vec![GenericBound::TraitBound { trait_: path_to(3, "PrivateBound"), generic_params: vec![] }],
                type_: None,
            },
        ),
        item(Some("PrivateBound"), Visibility::Default, ItemKind::Trait { items: vec![], generics: generics(), bounds: vec![] }),
    ])
}

#[test]
fn assoc_type_bound_is_reported() {
    let (g, imp, vis) = analyse("krate", vec![("krate".to_string(), assoc_type_doc())]);
    assert!(has(&vis, "krate::T::Hidden"));
    assert!(has(&vis, "krate::T::Hidden::PrivateBound"));
    assert_eq!(report(&g, &imp, &vis), vec!["krate::T::Hidden::PrivateBound".to_string()]);
}

#[test]
fn stdlib_packages_are_ignored() {
    let g = GraphCache::new("krate".to_string());
    for n in ["std", "core", "alloc", "proc_macro", "test"] {
        assert!(matches!(g.resolve_crate(&n.to_string()), Err(ResolveErr::Ignore)));
    }
    assert!(matches!(g.resolve_crate(&"serde".to_string()), Err(ResolveErr::Need(n)) if n == "serde"));
}

#[test]
fn alias_is_applied_before_loading() {
    let g = GraphCache::new("krate".to_string());
    assert!(matches!(g.resolve_crate(&"webpki".to_string()), Err(ResolveErr::Need(n)) if n == "rustls_webpki"));
}

#[test]
fn stdlib_root_is_refused() {
    let mut g = GraphCache::new("core".to_string());
    assert!(matches!(g.bfs(LinkMode::Importable, None, true), Err(BfsFailure { error: BfsErr::RootIgnored, .. })));
}

#[test]
fn seeds_and_public_children_are_expanded() {
    let mut g = GraphCache::new("krate".to_string());
    g.add_package("krate".to_string(), foo_bar_doc()).unwrap();
    let imp = g.bfs(LinkMode::Importable, None, true).unwrap();
    assert_eq!(imp.expanded, vec![0, 1]);
    let vis = g.bfs(LinkMode::Visible, Some(&imp.labels), false).unwrap();
    assert_eq!(vis.expanded[0], 0);
    assert_eq!(vis.expanded[1], 1);
    assert!(vis.labels.iter().any(|(k, l)| *k == CanonId(id(0, 3)) && l == "krate::Foo::bar"));
    assert!(vis.labels.iter().any(|(k, l)| *k == CanonId(id(0, 2)) && l == "krate::Foo::bar::Bar"));
    let bar_pos = vis.labels.iter().position(|(k, _)| *k == CanonId(id(0, 2))).unwrap();
    assert!(!vis.expanded.contains(&bar_pos));
}
