//! Targets of language items: the definitions that `#[lang = ".."]` marks.
use vstd::prelude::*;
use rustc_hash::FxHashMap;

verus! {

/// A crate of the crate graph.
#[derive(Debug, Clone, Copy, PartialEq, Eq, Hash, Structural)]
pub struct Crate {
    pub id: u32,
}

/// A module; `krate` is the crate that holds it, where it is known.
#[derive(Debug, Clone, Copy, PartialEq, Eq, Hash, Structural)]
pub struct Module {
    pub id: u32,
    pub krate: Option<Crate>,
}

impl Module {
    /// The crate that holds this module.
    pub fn krate(&self) -> (r: Option<Crate>)
        ensures
            r == self.krate,
    {
        self.krate
    }
}

/// A definition: its own id and the module that declares it.
#[derive(Debug, Clone, Copy, PartialEq, Eq, Hash, Structural)]
pub struct Def {
    pub id: u32,
    pub module: Module,
}

/// The definition that a language item names.
#[derive(Debug, Clone, Copy, PartialEq, Eq, Hash, Structural)]
pub enum LangItemTarget {
    Enum(Def),
    Function(Def),
    ImplBlock(Def),
    Static(Def),
    Struct(Def),
    Trait(Def),
}

impl LangItemTarget {
    /// The definition this target stands for, whatever its kind.
    pub open spec fn def(self) -> Def {
        match self {
            LangItemTarget::Enum(d) => d,
            LangItemTarget::Function(d) => d,
            LangItemTarget::ImplBlock(d) => d,
            LangItemTarget::Static(d) => d,
            LangItemTarget::Struct(d) => d,
            LangItemTarget::Trait(d) => d,
        }
    }

    /// The module that declares the target.
    pub fn module(&self) -> (r: Module)
        ensures
            r == self.def().module,
    {
        match self {
            LangItemTarget::Enum(d) => d.module,
            LangItemTarget::Function(d) => d.module,
            LangItemTarget::ImplBlock(d) => d.module,
            LangItemTarget::Static(d) => d.module,
            LangItemTarget::Struct(d) => d.module,
            LangItemTarget::Trait(d) => d.module,
        }
    }

    /// The crate of the module that declares the target.
    pub fn krate(&self) -> (r: Option<Crate>)
        ensures
            r == self.def().module.krate,
    {
        self.module().krate()
    }
}

/// An item's attributes as key-value pairs, in order.
pub struct Attr {
    pub key: String,
    pub value: String,
}

/// The value of the first `lang` attribute.
pub open spec fn lang_of(attrs: Seq<Attr>) -> Option<Seq<char>>
    decreases attrs.len(),
{
    if attrs.len() == 0 {
        None
    } else if attrs[0].key@ == "lang"@ {
        Some(attrs[0].value@)
    } else {
        lang_of(attrs.drop_first())
    }
}

/// The name that a `#[lang = "..."]` attribute gives an item, if any.
pub fn lang_item_from_ast(attrs: &Vec<Attr>) -> (r: Option<String>)
    ensures
        r is None <==> lang_of(attrs@) is None,
        r is Some ==> r->0@ == lang_of(attrs@)->0,
{
    let mut i: usize = 0;
    assert(attrs@.skip(0) =~= attrs@);
    while i < attrs.len()
        invariant
            i <= attrs@.len(),
            lang_of(attrs@) == lang_of(attrs@.skip(i as int)),
        decreases attrs@.len() - i,
    {
        assert(attrs@.skip(i as int).drop_first() =~= attrs@.skip(i as int + 1));
        if matches!(crate::metrics::compare_str(attrs[i].key.as_str(), "lang"), crate::metrics::Order::Equal) {
            return Some(attrs[i].value.clone());
        }
        i = i + 1;
    }
    None
}

/// An impl block with its attributes.
pub struct ImplBlock {
    pub def: Def,
    pub attrs: Vec<Attr>,
}

/// A module as the collection reads it: its impl blocks and its child
/// modules, in order.
pub struct ModuleItems {
    pub impl_blocks: Vec<ImplBlock>,
    pub children: Vec<ModuleItems>,
}

/// The named impl blocks of `blocks`, in order.
pub open spec fn named_impls(blocks: Seq<ImplBlock>) -> Seq<(Seq<char>, LangItemTarget)>
    decreases blocks.len(),
{
    if blocks.len() == 0 {
        Seq::empty()
    } else {
        let b = blocks.last();
        let own = match lang_of(b.attrs@) {
            Some(n) => seq![(n, LangItemTarget::ImplBlock(b.def))],
            None => Seq::empty(),
        };
        named_impls(blocks.drop_last()) + own
    }
}

/// The named impl blocks of modules `ms` and of the modules under them:
/// each module's own first, then its children's.
pub open spec fn tree_impls(ms: Seq<ModuleItems>) -> Seq<(Seq<char>, LangItemTarget)>
    decreases ms,
{
    if ms.len() == 0 {
        Seq::empty()
    } else {
        let m = ms[ms.len() - 1];
        tree_impls(ms.drop_last()) + named_impls(m.impl_blocks@) + tree_impls(m.children@)
    }
}

/// The target of the first entry named `name`.
pub open spec fn first_named(es: Seq<(Seq<char>, LangItemTarget)>, name: Seq<char>) -> Option<LangItemTarget>
    decreases es.len(),
{
    if es.len() == 0 {
        None
    } else if es[0].0 == name {
        Some(es[0].1)
    } else {
        first_named(es.drop_first(), name)
    }
}

proof fn lemma_first_named_add(a: Seq<(Seq<char>, LangItemTarget)>, b: Seq<(Seq<char>, LangItemTarget)>, name: Seq<char>)
    ensures
        first_named(a + b, name) == match first_named(a, name) {
            Some(t) => Some(t),
            None => first_named(b, name),
        },
    decreases a.len(),
{
    if a.len() > 0 {
        assert((a + b).drop_first() =~= a.drop_first() + b);
        lemma_first_named_add(a.drop_first(), b, name);
    } else {
        assert(a + b =~= b);
    }
}

/// The first target that `prev` or else `es` gives `name`.
pub open spec fn or_first(
    prev: Option<LangItemTarget>,
    es: Seq<(Seq<char>, LangItemTarget)>,
    name: Seq<char>,
) -> Option<LangItemTarget> {
    match prev {
        Some(t) => Some(t),
        None => first_named(es, name),
    }
}

proof fn lemma_or_first_add(
    prev: Option<LangItemTarget>,
    a: Seq<(Seq<char>, LangItemTarget)>,
    b: Seq<(Seq<char>, LangItemTarget)>,
    name: Seq<char>,
)
    ensures
        or_first(or_first(prev, a, name), b, name) == or_first(prev, a + b, name),
{
    lemma_first_named_add(a, b, name);
}

/// The hasher of rustc-hash's maps, carried as it is.
#[verifier::external_type_specification]
#[verifier::external_body]
pub struct ExFxHasher(rustc_hash::FxHasher);

/// std's builder of default hashers, carried as it is.
#[verifier::external_type_specification]
#[verifier::external_body]
#[verifier::reject_recursive_types(H)]
pub struct ExBuildHasherDefault<H>(std::hash::BuildHasherDefault<H>);

/// A hash map from language item names to their targets.
pub type LangMap = FxHashMap<String, LangItemTarget>;

/// What a map of language items holds, by name.
pub uninterp spec fn lang_map(m: LangMap) -> Map<Seq<char>, LangItemTarget>;

/// Relies on `FxHashMap::default`: a new map is empty.
#[verifier::external_body]
fn lang_map_new() -> (r: LangMap)
    ensures
        lang_map(r).dom() == Set::<Seq<char>>::empty(),
{
    FxHashMap::default()
}

/// Relies on `HashMap::get`: the value under a key equal to `k`, if any.
#[verifier::external_body]
fn lang_map_get<'m>(m: &'m LangMap, k: &str) -> (r: Option<&'m LangItemTarget>)
    ensures
        r is Some <==> lang_map(*m).contains_key(k@),
        r is Some ==> *r->0 == lang_map(*m)[k@],
{
    m.get(k)
}

/// Relies on `HashMap::entry` and `Entry::or_insert`: `v` goes in under `k`
/// unless `k` already has a value, which stays.
#[verifier::external_body]
fn lang_map_or_insert(m: &mut LangMap, k: String, v: LangItemTarget)
    ensures
        lang_map(*final(m)) == if lang_map(*old(m)).contains_key(k@) {
            lang_map(*old(m))
        } else {
            lang_map(*old(m)).insert(k@, v)
        },
{
    m.entry(k).or_insert(v);
}

/// The language items found in a crate, by name.
pub struct LangItems {
    pub items: LangMap,
}

impl LangItems {
    /// The target of a name.
    pub open spec fn lookup(&self, name: Seq<char>) -> Option<LangItemTarget> {
        if lang_map(self.items).contains_key(name) {
            Some(lang_map(self.items)[name])
        } else {
            None
        }
    }

    /// No language item.
    pub fn new() -> (r: LangItems)
        ensures
            forall|n: Seq<char>| #[trigger] r.lookup(n) is None,
    {
        LangItems { items: lang_map_new() }
    }

    /// The target named `item`, if there is one.
    pub fn target(&self, item: &str) -> (r: Option<&LangItemTarget>)
        ensures
            r is None <==> self.lookup(item@) is None,
            r is Some ==> *r->0 == self.lookup(item@)->0,
    {
        lang_map_get(&self.items, item)
    }

    /// The language items of a crate: the named impl blocks under its root
    /// module, if it has one, each name with the first target found.
    pub fn lang_items_query(root_module: Option<&ModuleItems>) -> (r: LangItems)
        ensures
            forall|n: Seq<char>| #[trigger] r.lookup(n) == match root_module {
                Some(m) => first_named(tree_impls(seq![*m]), n),
                None => None::<LangItemTarget>,
            },
    {
        let mut lang_items = LangItems::new();
        if let Some(module) = root_module {
            lang_items.collect_lang_items_recursive(module);
        }
        lang_items
    }

    /// Adds the named impl blocks of `module` and of every module under it,
    /// each module's own first; a name keeps the first target it was given.
    pub fn collect_lang_items_recursive(&mut self, module: &ModuleItems)
        ensures
            forall|n: Seq<char>| #[trigger] final(self).lookup(n) == or_first(
                old(self).lookup(n),
                tree_impls(seq![*module]),
                n,
            ),
        decreases *module,
    {
        let ghost start = *self;
        let mut i: usize = 0;
        while i < module.impl_blocks.len()
            invariant
                i <= module.impl_blocks@.len(),
                forall|n: Seq<char>| #[trigger] self.lookup(n) == or_first(
                    start.lookup(n),
                    named_impls(module.impl_blocks@.take(i as int)),
                    n,
                ),
            decreases module.impl_blocks@.len() - i,
        {
            let b = &module.impl_blocks[i];
            let ghost before = *self;
            let ghost done = named_impls(module.impl_blocks@.take(i as int));
            assert(module.impl_blocks@.take(i as int + 1).drop_last() =~= module.impl_blocks@.take(i as int));
            let ghost own = match lang_of(b.attrs@) {
                Some(n) => seq![(n, LangItemTarget::ImplBlock(b.def))],
                None => Seq::<(Seq<char>, LangItemTarget)>::empty(),
            };
            assert(named_impls(module.impl_blocks@.take(i as int + 1)) =~= done + own);
            if let Some(name) = lang_item_from_ast(&b.attrs) {
                lang_map_or_insert(&mut self.items, name, LangItemTarget::ImplBlock(b.def));
            }
            proof {
                assert forall|n: Seq<char>| #[trigger] self.lookup(n) == or_first(
                    start.lookup(n),
                    done + own,
                    n,
                ) by {
                    assert(before.lookup(n) == or_first(start.lookup(n), done, n));
                    lemma_or_first_add(start.lookup(n), done, own, n);
                    reveal_with_fuel(first_named, 2);
                    assert(own.len() == 0 || own.drop_first() =~= Seq::<(Seq<char>, LangItemTarget)>::empty());
                }
            }
            i = i + 1;
        }
        proof {
            assert(module.impl_blocks@.take(i as int) =~= module.impl_blocks@);
            assert(named_impls(module.impl_blocks@) + tree_impls(module.children@.take(0))
                =~= named_impls(module.impl_blocks@));
        }
        i = 0;
        while i < module.children.len()
            invariant
                i <= module.children@.len(),
                forall|n: Seq<char>| #[trigger] self.lookup(n) == or_first(
                    start.lookup(n),
                    named_impls(module.impl_blocks@) + tree_impls(module.children@.take(i as int)),
                    n,
                ),
            decreases module.children@.len() - i,
        {
            proof {
                assert(decreases_to!(*module => module.children));
                assert(decreases_to!(module.children => module.children@));
                assert(decreases_to!(module.children@ => module.children@[i as int]));
            }
            let ghost before = *self;
            let ghost c = module.children@[i as int];
            let ghost done = named_impls(module.impl_blocks@) + tree_impls(module.children@.take(i as int));
            self.collect_lang_items_recursive(&module.children[i]);
            proof {
                reveal_with_fuel(tree_impls, 2);
                assert(seq![c].drop_last() =~= Seq::<ModuleItems>::empty());
                assert(tree_impls(seq![c]) =~= named_impls(c.impl_blocks@) + tree_impls(c.children@));
                assert(module.children@.take(i as int + 1).drop_last() =~= module.children@.take(i as int));
                assert(named_impls(module.impl_blocks@) + tree_impls(module.children@.take(i as int + 1))
                    =~= done + tree_impls(seq![c]));
                assert forall|n: Seq<char>| #[trigger] self.lookup(n) == or_first(
                    start.lookup(n),
                    done + tree_impls(seq![c]),
                    n,
                ) by {
                    assert(before.lookup(n) == or_first(start.lookup(n), done, n));
                    lemma_or_first_add(start.lookup(n), done, tree_impls(seq![c]), n);
                }
            }
            i = i + 1;
        }
        proof {
            reveal_with_fuel(tree_impls, 2);
            assert(module.children@.take(i as int) =~= module.children@);
            assert(seq![*module].drop_last() =~= Seq::<ModuleItems>::empty());
            assert(tree_impls(seq![*module]) =~= named_impls(module.impl_blocks@) + tree_impls(
                module.children@,
            ));
        }
    }
}

/// A crate's language items and the crates it depends on, by index.
pub struct CrateData {
    pub lang_items: LangItems,
    pub dependencies: Vec<usize>,
}

/// The crates of a build, each named by its index.
pub struct CrateGraph {
    pub crates: Vec<CrateData>,
}

/// The target of `item` in crate `krate`, else in its dependencies in
/// order, searching at most `depth` crates deep.
pub open spec fn find_lang_item(g: Seq<CrateData>, krate: int, item: Seq<char>, depth: nat) -> Option<
    LangItemTarget,
>
    decreases depth, 0int, 0int,
{
    if depth == 0 || krate < 0 || krate >= g.len() {
        None
    } else {
        match g[krate].lang_items.lookup(item) {
            Some(t) => Some(t),
            None => find_in_deps(g, g[krate].dependencies@, item, (depth - 1) as nat, 0),
        }
    }
}

/// The first target of `item` among the crates `deps[i..]`.
pub open spec fn find_in_deps(
    g: Seq<CrateData>,
    deps: Seq<usize>,
    item: Seq<char>,
    depth: nat,
    i: int,
) -> Option<LangItemTarget>
    decreases depth, 1int, deps.len() - i,
{
    if i < 0 || i >= deps.len() {
        None
    } else {
        match find_lang_item(g, deps[i] as int, item, depth) {
            Some(t) => Some(t),
            None => find_in_deps(g, deps, item, depth, i + 1),
        }
    }
}

fn lang_item_at_depth(g: &CrateGraph, krate: usize, item: &str, depth: usize) -> (r: Option<LangItemTarget>)
    ensures
        r == find_lang_item(g.crates@, krate as int, item@, depth as nat),
    decreases depth,
{
    if depth == 0 || krate >= g.crates.len() {
        return None;
    }
    let data = &g.crates[krate];
    if let Some(t) = data.lang_items.target(item) {
        return Some(*t);
    }
    let deps = &data.dependencies;
    let mut i: usize = 0;
    while i < deps.len()
        invariant
            i <= deps@.len(),
            0 < depth,
            krate < g.crates@.len(),
            g.crates@[krate as int].lang_items.lookup(item@) is None,
            *deps == g.crates@[krate as int].dependencies,
            find_in_deps(g.crates@, deps@, item@, (depth - 1) as nat, 0) == find_in_deps(
                g.crates@,
                deps@,
                item@,
                (depth - 1) as nat,
                i as int,
            ),
        decreases deps@.len() - i,
    {
        let found = lang_item_at_depth(g, deps[i], item, depth - 1);
        if found.is_some() {
            return found;
        }
        i = i + 1;
    }
    None
}

impl LangItems {
    /// The target of `item` in `start_crate`, else the first one found in
    /// its dependencies, in order, each searched the same way. The search
    /// goes as deep as the graph has crates, which reaches every crate
    /// that an acyclic graph can.
    pub fn lang_item_query(graph: &CrateGraph, start_crate: usize, item: &str) -> (r: Option<LangItemTarget>)
        ensures
            r == find_lang_item(graph.crates@, start_crate as int, item@, graph.crates@.len()),
    {
        lang_item_at_depth(graph, start_crate, item, graph.crates.len())
    }
}

} // verus!
