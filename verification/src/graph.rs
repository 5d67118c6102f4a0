//! The as-authored configuration graph and its flattening into one
//! namespaced graph.

use vstd::prelude::*;
use crate::assoc::{entries_map, keys_distinct};
use crate::connection::{ConnView, Connection};
use crate::dir::Dir;
use crate::ident::{Ident, idents_view};
use crate::key::Key;
use crate::link::generic::ConfigView;
use crate::text::{digit_char, split_on};

verus! {

// ------------------------------------------------------------------
// Format version
// ------------------------------------------------------------------

/// True for numeric text without a superfluous leading zero.
pub open spec fn numeric_text(s: Seq<char>) -> bool {
    s.len() > 0 && (forall|i: int| 0 <= i < s.len() ==> digit_char(#[trigger] s[i])) && (s.len()
        > 1 ==> s[0] != '0')
}

/// True for the version texts this crate accepts: `0.1.z` for any
/// numeric patch `z`.
pub open spec fn version_compatible(s: Seq<char>) -> bool {
    let segs = split_on(s, '.');
    segs.len() == 3 && segs[0] == seq!['0'] && segs[1] == seq!['1'] && numeric_text(segs[2])
}

/// The format version of a configuration unit.  Only versions
/// compatible with `0.1.0` are accepted, so the accepted version set
/// carries no further information.
#[derive(Debug, Clone, Copy, PartialEq, Eq, Hash)]
pub struct Version;

impl Version {
    /// Parse a version text, accepting exactly the `0.1.0`-compatible
    /// versions.
    pub fn parse(text: &str) -> (r: Option<Version>)
        ensures
            r is Some <==> version_compatible(text@),
    {
        let segs = crate::text::split_text(text, '.');
        let ghost model = split_on(text@, '.');
        proof {
            assert(crate::text::strings_view(segs@).len() == segs@.len());
        }
        if segs.len() != 3 {
            return None;
        }
        proof {
            assert(crate::text::strings_view(segs@)[0] == segs@[0]@);
            assert(crate::text::strings_view(segs@)[1] == segs@[1]@);
            assert(crate::text::strings_view(segs@)[2] == segs@[2]@);
            reveal_strlit("0");
            reveal_strlit("1");
        }
        if !str_eq_text(segs[0].as_str(), "0") {
            proof {
                assert(("0")@ =~= seq!['0']);
            }
            return None;
        }
        if !str_eq_text(segs[1].as_str(), "1") {
            proof {
                assert(("1")@ =~= seq!['1']);
            }
            return None;
        }
        if !is_numeric(segs[2].as_str()) {
            return None;
        }
        proof {
            assert(("0")@ =~= seq!['0']);
            assert(("1")@ =~= seq!['1']);
            assert(model[0] =~= seq!['0']);
            assert(model[1] =~= seq!['1']);
        }
        Some(Version)
    }
}

/// Compare two string slices by text.
fn str_eq_text(a: &str, b: &str) -> (r: bool)
    ensures
        r == (a@ == b@),
{
    let an = a.unicode_len();
    let bn = b.unicode_len();
    if an != bn {
        return false;
    }
    let mut i: usize = 0;
    while i < an
        invariant
            an == a@.len(),
            an == b@.len(),
            0 <= i <= an,
            forall|j: int| 0 <= j < i ==> a@[j] == b@[j],
        decreases an - i,
    {
        if a.get_char(i) != b.get_char(i) {
            return false;
        }
        i += 1;
    }
    proof {
        assert(a@ =~= b@);
    }
    true
}

/// Check that a string is numeric text without a leading zero.
fn is_numeric(s: &str) -> (r: bool)
    ensures
        r == numeric_text(s@),
{
    let n = s.unicode_len();
    if n == 0 {
        return false;
    }
    if n > 1 && s.get_char(0) == '0' {
        return false;
    }
    let mut i: usize = 0;
    while i < n
        invariant
            n == s@.len(),
            0 <= i <= n,
            forall|j: int| 0 <= j < i ==> digit_char(#[trigger] s@[j]),
        decreases n - i,
    {
        let c = s.get_char(i);
        let v = c as u32;
        if !(48 <= v && v <= 57) {
            return false;
        }
        i += 1;
    }
    true
}

// ------------------------------------------------------------------
// The raw graph and its content
// ------------------------------------------------------------------

/// One included sub-configuration: the identifier it is mounted under,
/// the absolute path of its file, and the graph loaded from that file.
#[derive(Debug, PartialEq)]
pub struct Module {
    pub name: Ident,
    pub path: String,
    pub graph: GraphConfig,
}

/// A configuration unit as authored:
/// - `processors` declares the processor names;
/// - `exchanges` declares each exchange with its transport configuration;
/// - `connections` attaches processors to declared exchanges;
/// - `modules` mounts further configuration files, loaded eagerly.
///
/// Processor names from modules land in one flat namespace; exchange and
/// connection names are prefixed by the chain of module identifiers.
#[derive(Debug, PartialEq)]
pub struct GraphConfig {
    pub version: Version,
    pub processors: Vec<Ident>,
    pub exchanges: Vec<(Ident, crate::link::Config)>,
    pub connections: Vec<(Ident, Connection)>,
    pub modules: Option<Vec<Module>>,
}

/// The content of a module entry.
#[verifier::ext_equal]
pub ghost struct ModuleView {
    pub name: Seq<char>,
    pub path: Seq<char>,
    pub graph: GraphView,
}

/// The content of a configuration unit.
#[verifier::ext_equal]
pub ghost struct GraphView {
    pub processors: Seq<Seq<char>>,
    pub exchanges: Seq<(Seq<char>, ConfigView)>,
    pub connections: Seq<(Seq<char>, ConnView)>,
    pub modules: Option<Seq<ModuleView>>,
}

impl GraphView {
    /// The module entries, an absent field giving the empty sequence.
    pub open spec fn modules_seq(self) -> Seq<ModuleView> {
        match self.modules {
            Some(ms) => ms,
            None => Seq::empty(),
        }
    }
}

/// The content of a module entry.
pub open spec fn module_view(m: Module) -> ModuleView
    decreases m,
{
    ModuleView { name: m.name@, path: m.path@, graph: graph_view(m.graph) }
}

/// The contents of a module sequence.
pub open spec fn modules_view(ms: Seq<Module>) -> Seq<ModuleView>
    decreases ms,
{
    if ms.len() == 0 {
        Seq::empty()
    } else {
        modules_view(ms.drop_last()).push(module_view(ms.last()))
    }
}

/// The content of a configuration unit.
pub open spec fn graph_view(g: GraphConfig) -> GraphView
    decreases g,
{
    GraphView {
        processors: idents_view(g.processors@),
        exchanges: g.exchanges@.map_values(|p: (Ident, crate::link::Config)| (p.0@, p.1@)),
        connections: g.connections@.map_values(|p: (Ident, Connection)| (p.0@, p.1@)),
        modules: match g.modules {
            Some(ms) => Some(modules_view(ms@)),
            None => None,
        },
    }
}

/// Module contents, element by element.
pub proof fn lemma_modules_view(ms: Seq<Module>)
    ensures
        modules_view(ms).len() == ms.len(),
        forall|i: int| 0 <= i < ms.len() ==> modules_view(ms)[i] == module_view(#[trigger] ms[i]),
    decreases ms.len(),
{
    if ms.len() > 0 {
        lemma_modules_view(ms.drop_last());
        assert forall|i: int| 0 <= i < ms.len()
            implies modules_view(ms)[i] == module_view(#[trigger] ms[i]) by {
            if i < ms.len() - 1 {
                assert(ms.drop_last()[i] == ms[i]);
                assert(modules_view(ms)[i] == modules_view(ms.drop_last())[i]);
            }
        }
    }
}

// ------------------------------------------------------------------
// Validity
// ------------------------------------------------------------------

/// Every processor a connection names is among `procs`.
pub open spec fn conn_names_declared(c: ConnView, procs: Seq<Seq<char>>) -> bool {
    (forall|n: Seq<char>| c.sink_names().contains(n) ==> procs.contains(n)) && (forall|
        n: Seq<char>,
    | c.source_names().contains(n) ==> procs.contains(n))
}

/// `n` is among the exchange identifiers `g` declares.
pub open spec fn exchange_declared(g: GraphView, n: Seq<char>) -> bool {
    exists|k: int| 0 <= k < g.exchanges.len() && (#[trigger] g.exchanges[k]).0 == n
}

/// One configuration unit is valid on its own level: connections name
/// only declared processors and refer only to declared exchanges.
pub open spec fn level_ok(g: GraphView) -> bool {
    (forall|i: int|
        0 <= i < g.connections.len() ==> conn_names_declared(
            (#[trigger] g.connections[i]).1,
            g.processors,
        )) && (forall|i: int|
        0 <= i < g.connections.len() ==> exchange_declared(g, (#[trigger] g.connections[i]).0))
}

/// A configuration unit and all the units it includes are valid.
pub open spec fn graph_ok(g: GraphView) -> bool
    decreases g,
{
    level_ok(g) && match g.modules {
        Some(ms) => forall|i: int| 0 <= i < ms.len() ==> graph_ok((#[trigger] ms[i]).graph),
        None => true,
    }
}

/// `sub` is `g` itself or a unit somewhere in `g`'s inclusion tree.
pub open spec fn subgraph_of(sub: GraphView, g: GraphView) -> bool
    decreases g,
{
    sub == g || match g.modules {
        Some(ms) => exists|i: int| 0 <= i < ms.len() && subgraph_of(sub, (#[trigger] ms[i]).graph),
        None => false,
    }
}

/// Some connection of `g` names `n` on its sink or source side although
/// `n` is not a declared processor of `g`.
pub open spec fn processor_violation(g: GraphView, n: Seq<char>) -> bool {
    !g.processors.contains(n) && exists|i: int|
        0 <= i < g.connections.len() && ((#[trigger] g.connections[i]).1.sink_names().contains(n)
            || g.connections[i].1.source_names().contains(n))
}

/// Some connection of `g` is keyed by `n` although `n` is not a declared
/// exchange of `g`.
pub open spec fn exchange_violation(g: GraphView, n: Seq<char>) -> bool {
    !exchange_declared(g, n) && exists|i: int|
        0 <= i < g.connections.len() && (#[trigger] g.connections[i]).0 == n
}

/// The first of `names` that is not among `procs`.
pub open spec fn first_undeclared(names: Seq<Seq<char>>, procs: Seq<Seq<char>>) -> Option<
    Seq<char>,
>
    decreases names.len(),
{
    if names.len() == 0 {
        None
    } else if !procs.contains(names.first()) {
        Some(names.first())
    } else {
        first_undeclared(names.drop_first(), procs)
    }
}

/// The first undeclared processor a connection names, sink side first.
pub open spec fn conn_undeclared(c: ConnView, procs: Seq<Seq<char>>) -> Option<Seq<char>> {
    match first_undeclared(c.sink_names(), procs) {
        Some(n) => Some(n),
        None => first_undeclared(c.source_names(), procs),
    }
}

/// The first undeclared processor any connection names, in declaration
/// order.
pub open spec fn first_undeclared_processor(
    conns: Seq<(Seq<char>, ConnView)>,
    procs: Seq<Seq<char>>,
) -> Option<Seq<char>>
    decreases conns.len(),
{
    if conns.len() == 0 {
        None
    } else {
        match conn_undeclared(conns.first().1, procs) {
            Some(n) => Some(n),
            None => first_undeclared_processor(conns.drop_first(), procs),
        }
    }
}

/// The first connection key that is not a declared exchange, in
/// declaration order.
pub open spec fn first_undeclared_exchange(
    conns: Seq<(Seq<char>, ConnView)>,
    g: GraphView,
) -> Option<Seq<char>>
    decreases conns.len(),
{
    if conns.len() == 0 {
        None
    } else if !exchange_declared(g, conns.first().0) {
        Some(conns.first().0)
    } else {
        first_undeclared_exchange(conns.drop_first(), g)
    }
}

/// The content of a flattening error.
pub ghost enum FlattenErrView {
    ProcessorNotDeclared(Seq<char>),
    ExchangeNotDeclared(Seq<char>),
}

/// The first validation error of a configuration tree, in
/// level-then-recursion order: the current level's processor checks
/// come first, then its exchange checks, then its modules in order.
pub open spec fn first_flatten_error(g: GraphView) -> Option<FlattenErrView>
    decreases g,
{
    if first_undeclared_processor(g.connections, g.processors) is Some {
        Some(
            FlattenErrView::ProcessorNotDeclared(
                first_undeclared_processor(g.connections, g.processors).unwrap(),
            ),
        )
    } else if first_undeclared_exchange(g.connections, g) is Some {
        Some(
            FlattenErrView::ExchangeNotDeclared(
                first_undeclared_exchange(g.connections, g).unwrap(),
            ),
        )
    } else {
        match g.modules {
            Some(ms) => mods_first_error(ms),
            None => None,
        }
    }
}

/// The first validation error among a module sequence, in order.
pub open spec fn mods_first_error(ms: Seq<ModuleView>) -> Option<FlattenErrView>
    decreases ms,
{
    if ms.len() == 0 {
        None
    } else {
        match first_flatten_error(ms.first().graph) {
            Some(e) => Some(e),
            None => mods_first_error(ms.drop_first()),
        }
    }
}

/// When everything below `k` is declared and `names[k]` is not, the
/// first undeclared name is `names[k]`.
proof fn lemma_first_undeclared_at(names: Seq<Seq<char>>, procs: Seq<Seq<char>>, k: int)
    requires
        0 <= k < names.len(),
        forall|j: int| 0 <= j < k ==> procs.contains(#[trigger] names[j]),
        !procs.contains(names[k]),
    ensures
        first_undeclared(names, procs) == Some(names[k]),
    decreases k,
{
    if k == 0 {
        assert(names.first() == names[0]);
    } else {
        assert(procs.contains(names[0]));
        let rest = names.drop_first();
        assert forall|j: int| 0 <= j < k - 1 implies procs.contains(#[trigger] rest[j]) by {
            assert(rest[j] == names[j + 1]);
        }
        assert(rest[k - 1] == names[k]);
        lemma_first_undeclared_at(rest, procs, k - 1);
    }
}

/// When every name is declared there is no first undeclared one.
proof fn lemma_first_undeclared_none(names: Seq<Seq<char>>, procs: Seq<Seq<char>>)
    requires
        forall|j: int| 0 <= j < names.len() ==> procs.contains(#[trigger] names[j]),
    ensures
        first_undeclared(names, procs) is None,
    decreases names.len(),
{
    if names.len() > 0 {
        assert(procs.contains(names[0]));
        let rest = names.drop_first();
        assert forall|j: int| 0 <= j < rest.len() implies procs.contains(#[trigger] rest[j]) by {
            assert(rest[j] == names[j + 1]);
        }
        lemma_first_undeclared_none(rest, procs);
    }
}

/// A connection whose names are all declared reports nothing.
proof fn lemma_conn_undeclared_none(c: ConnView, procs: Seq<Seq<char>>)
    requires
        conn_names_declared(c, procs),
    ensures
        conn_undeclared(c, procs) is None,
{
    assert forall|j: int| 0 <= j < c.sink_names().len()
        implies procs.contains(#[trigger] c.sink_names()[j]) by {
        assert(c.sink_names().contains(c.sink_names()[j]));
    }
    assert forall|j: int| 0 <= j < c.source_names().len()
        implies procs.contains(#[trigger] c.source_names()[j]) by {
        assert(c.source_names().contains(c.source_names()[j]));
    }
    lemma_first_undeclared_none(c.sink_names(), procs);
    lemma_first_undeclared_none(c.source_names(), procs);
}

/// When the connections below `k` report nothing and `conns[k]` reports
/// `n`, the first undeclared processor is `n`.
proof fn lemma_first_undeclared_processor_at(
    conns: Seq<(Seq<char>, ConnView)>,
    procs: Seq<Seq<char>>,
    k: int,
    n: Seq<char>,
)
    requires
        0 <= k < conns.len(),
        forall|j: int| 0 <= j < k ==> conn_undeclared((#[trigger] conns[j]).1, procs) is None,
        conn_undeclared(conns[k].1, procs) == Some(n),
    ensures
        first_undeclared_processor(conns, procs) == Some(n),
    decreases k,
{
    if k == 0 {
        assert(conns.first() == conns[0]);
    } else {
        assert(conn_undeclared(conns[0].1, procs) is None);
        let rest = conns.drop_first();
        assert forall|j: int| 0 <= j < k - 1
            implies conn_undeclared((#[trigger] rest[j]).1, procs) is None by {
            assert(rest[j] == conns[j + 1]);
        }
        assert(rest[k - 1] == conns[k]);
        lemma_first_undeclared_processor_at(rest, procs, k - 1, n);
    }
}

/// When every connection reports nothing, there is no first undeclared
/// processor.
proof fn lemma_first_undeclared_processor_none(
    conns: Seq<(Seq<char>, ConnView)>,
    procs: Seq<Seq<char>>,
)
    requires
        forall|j: int|
            0 <= j < conns.len() ==> conn_undeclared((#[trigger] conns[j]).1, procs) is None,
    ensures
        first_undeclared_processor(conns, procs) is None,
    decreases conns.len(),
{
    if conns.len() > 0 {
        assert(conn_undeclared(conns[0].1, procs) is None);
        let rest = conns.drop_first();
        assert forall|j: int| 0 <= j < rest.len()
            implies conn_undeclared((#[trigger] rest[j]).1, procs) is None by {
            assert(rest[j] == conns[j + 1]);
        }
        lemma_first_undeclared_processor_none(rest, procs);
    }
}

/// When the connection keys below `k` are declared exchanges and
/// `conns[k]`'s key is not, the first undeclared exchange is that key.
proof fn lemma_first_undeclared_exchange_at(
    conns: Seq<(Seq<char>, ConnView)>,
    g: GraphView,
    k: int,
)
    requires
        0 <= k < conns.len(),
        forall|j: int| 0 <= j < k ==> exchange_declared(g, (#[trigger] conns[j]).0),
        !exchange_declared(g, conns[k].0),
    ensures
        first_undeclared_exchange(conns, g) == Some(conns[k].0),
    decreases k,
{
    if k == 0 {
        assert(conns.first() == conns[0]);
    } else {
        assert(exchange_declared(g, conns[0].0));
        let rest = conns.drop_first();
        assert forall|j: int| 0 <= j < k - 1
            implies exchange_declared(g, (#[trigger] rest[j]).0) by {
            assert(rest[j] == conns[j + 1]);
        }
        assert(rest[k - 1] == conns[k]);
        lemma_first_undeclared_exchange_at(rest, g, k - 1);
    }
}

/// When every connection key is a declared exchange, there is no first
/// undeclared one.
proof fn lemma_first_undeclared_exchange_none(conns: Seq<(Seq<char>, ConnView)>, g: GraphView)
    requires
        forall|j: int| 0 <= j < conns.len() ==> exchange_declared(g, (#[trigger] conns[j]).0),
    ensures
        first_undeclared_exchange(conns, g) is None,
    decreases conns.len(),
{
    if conns.len() > 0 {
        assert(exchange_declared(g, conns[0].0));
        let rest = conns.drop_first();
        assert forall|j: int| 0 <= j < rest.len()
            implies exchange_declared(g, (#[trigger] rest[j]).0) by {
            assert(rest[j] == conns[j + 1]);
        }
        lemma_first_undeclared_exchange_none(rest, g);
    }
}

/// When the modules below `k` hold no error and `ms[k]` holds one, it
/// is the first error of the sequence.
proof fn lemma_mods_first_error_at(ms: Seq<ModuleView>, k: int, e: FlattenErrView)
    requires
        0 <= k < ms.len(),
        forall|j: int| 0 <= j < k ==> first_flatten_error((#[trigger] ms[j]).graph) is None,
        first_flatten_error(ms[k].graph) == Some(e),
    ensures
        mods_first_error(ms) == Some(e),
    decreases k,
{
    if k == 0 {
        assert(ms.first() == ms[0]);
    } else {
        assert(first_flatten_error(ms[0].graph) is None);
        let rest = ms.drop_first();
        assert forall|j: int| 0 <= j < k - 1
            implies first_flatten_error((#[trigger] rest[j]).graph) is None by {
            assert(rest[j] == ms[j + 1]);
        }
        assert(rest[k - 1] == ms[k]);
        lemma_mods_first_error_at(rest, k - 1, e);
    }
}

/// When no module holds an error, the sequence holds none.
proof fn lemma_mods_first_error_none(ms: Seq<ModuleView>)
    requires
        forall|j: int| 0 <= j < ms.len() ==> first_flatten_error((#[trigger] ms[j]).graph) is None,
    ensures
        mods_first_error(ms) is None,
    decreases ms.len(),
{
    if ms.len() > 0 {
        assert(first_flatten_error(ms[0].graph) is None);
        let rest = ms.drop_first();
        assert forall|j: int| 0 <= j < rest.len()
            implies first_flatten_error((#[trigger] rest[j]).graph) is None by {
            assert(rest[j] == ms[j + 1]);
        }
        lemma_mods_first_error_none(rest);
    }
}

/// Why flattening a configuration failed: a connection named a
/// processor, or referred to an exchange, that its own unit does not
/// declare.
#[derive(Debug, PartialEq)]
pub enum FlattenError {
    ProcessorNotDeclared(Ident),
    ExchangeNotDeclared(Ident),
}

/// The content of a flattening error value.
pub open spec fn flatten_error_view(e: FlattenError) -> FlattenErrView {
    match e {
        FlattenError::ProcessorNotDeclared(id) => FlattenErrView::ProcessorNotDeclared(id@),
        FlattenError::ExchangeNotDeclared(id) => FlattenErrView::ExchangeNotDeclared(id@),
    }
}

// ------------------------------------------------------------------
// The flat model
// ------------------------------------------------------------------

/// What flattening a configuration denotes: the merged processor set
/// and the namespaced exchange, connection and binding maps.
#[verifier::ext_equal]
pub ghost struct FlatModel {
    pub processors: Set<Seq<char>>,
    pub exchanges: Map<Seq<Seq<char>>, ConfigView>,
    pub connections: Map<Seq<Seq<char>>, ConnView>,
    pub bindings: Map<Seq<char>, Seq<Seq<char>>>,
}

/// Prefix each entry's identifier with the module path `prefix`.
pub open spec fn prefixed_entries<V>(
    entries: Seq<(Seq<char>, V)>,
    prefix: Seq<Seq<char>>,
) -> Seq<(Seq<Seq<char>>, V)> {
    entries.map_values(|p: (Seq<char>, V)| (prefix.push(p.0), p.1))
}

/// The contribution of one configuration unit, without its modules.
pub open spec fn level_model(g: GraphView, prefix: Seq<Seq<char>>) -> FlatModel {
    FlatModel {
        processors: g.processors.to_set(),
        exchanges: entries_map(prefixed_entries(g.exchanges, prefix)),
        connections: entries_map(prefixed_entries(g.connections, prefix)),
        bindings: entries_map(
            g.modules_seq().map_values(|m: ModuleView| (m.path, prefix.push(m.name))),
        ),
    }
}

/// The union of two flat models; on a key collision the right side wins.
pub open spec fn merge_model(a: FlatModel, b: FlatModel) -> FlatModel {
    FlatModel {
        processors: a.processors + b.processors,
        exchanges: a.exchanges.union_prefer_right(b.exchanges),
        connections: a.connections.union_prefer_right(b.connections),
        bindings: a.bindings.union_prefer_right(b.bindings),
    }
}

/// The flat model with nothing in it.
pub open spec fn empty_model() -> FlatModel {
    FlatModel {
        processors: Set::empty(),
        exchanges: Map::empty(),
        connections: Map::empty(),
        bindings: Map::empty(),
    }
}

/// The full flat model of a configuration unit mounted at `prefix`: its
/// own contribution merged with those of its modules, in order.
pub open spec fn flat_model(g: GraphView, prefix: Seq<Seq<char>>) -> FlatModel
    decreases g,
{
    match g.modules {
        Some(ms) => merge_model(level_model(g, prefix), mods_model(ms, prefix)),
        None => level_model(g, prefix),
    }
}

/// The merged contribution of a module sequence, in order.
pub open spec fn mods_model(ms: Seq<ModuleView>, prefix: Seq<Seq<char>>) -> FlatModel
    decreases ms,
{
    if ms.len() == 0 {
        empty_model()
    } else {
        merge_model(
            mods_model(ms.drop_last(), prefix),
            flat_model(ms.last().graph, prefix.push(ms.last().name)),
        )
    }
}

/// Merging flat models is associative.
pub proof fn lemma_merge_model_assoc(a: FlatModel, b: FlatModel, c: FlatModel)
    ensures
        merge_model(merge_model(a, b), c) == merge_model(a, merge_model(b, c)),
{
    assert(merge_model(merge_model(a, b), c).processors
        =~= merge_model(a, merge_model(b, c)).processors);
    assert(merge_model(merge_model(a, b), c).exchanges
        =~= merge_model(a, merge_model(b, c)).exchanges);
    assert(merge_model(merge_model(a, b), c).connections
        =~= merge_model(a, merge_model(b, c)).connections);
    assert(merge_model(merge_model(a, b), c).bindings
        =~= merge_model(a, merge_model(b, c)).bindings);
    assert(merge_model(merge_model(a, b), c) =~= merge_model(a, merge_model(b, c)));
}

/// Merging the empty model on the left changes nothing.
pub proof fn lemma_merge_model_empty(a: FlatModel)
    ensures
        merge_model(empty_model(), a) == a,
{
    assert(merge_model(empty_model(), a).processors =~= a.processors);
    assert(merge_model(empty_model(), a).exchanges =~= a.exchanges);
    assert(merge_model(empty_model(), a).connections =~= a.connections);
    assert(merge_model(empty_model(), a).bindings =~= a.bindings);
    assert(merge_model(empty_model(), a) =~= a);
}

/// Extending a processed module prefix by one module merges its model
/// on the right.
pub proof fn lemma_mods_model_step(ms: Seq<ModuleView>, prefix: Seq<Seq<char>>, k: int)
    requires
        0 <= k < ms.len(),
    ensures
        mods_model(ms.subrange(0, k + 1), prefix) == merge_model(
            mods_model(ms.subrange(0, k), prefix),
            flat_model(ms[k].graph, prefix.push(ms[k].name)),
        ),
{
    let cur = ms.subrange(0, k + 1);
    assert(cur.drop_last() =~= ms.subrange(0, k));
    assert(cur.last() == ms[k]);
}

/// In the flat model of a valid tree, every connection key names a
/// declared exchange.
pub proof fn lemma_flat_model_linked(g: GraphView, prefix: Seq<Seq<char>>)
    requires
        graph_ok(g),
    ensures
        flat_model(g, prefix).connections.dom().subset_of(flat_model(g, prefix).exchanges.dom()),
    decreases g,
{
    let lm = level_model(g, prefix);
    crate::assoc::lemma_entries_map_dom(prefixed_entries(g.connections, prefix));
    crate::assoc::lemma_entries_map_dom(prefixed_entries(g.exchanges, prefix));
    assert forall|k: Seq<Seq<char>>| lm.connections.dom().contains(k)
        implies lm.exchanges.dom().contains(k) by {
        let i = choose|i: int| 0 <= i < prefixed_entries(g.connections, prefix).len()
            && (#[trigger] prefixed_entries(g.connections, prefix)[i]).0 == k;
        assert(prefixed_entries(g.connections, prefix)[i]
            == (prefix.push(g.connections[i].0), g.connections[i].1));
        assert(exchange_declared(g, g.connections[i].0));
        let j = choose|j: int| 0 <= j < g.exchanges.len() && (#[trigger] g.exchanges[j]).0
            == g.connections[i].0;
        assert(prefixed_entries(g.exchanges, prefix)[j].0 == k);
    }
    match g.modules {
        Some(ms) => {
            lemma_mods_model_linked(ms, prefix);
        },
        None => {},
    }
}

/// The same, for the merged contribution of a module sequence.
proof fn lemma_mods_model_linked(ms: Seq<ModuleView>, prefix: Seq<Seq<char>>)
    requires
        forall|i: int| 0 <= i < ms.len() ==> graph_ok((#[trigger] ms[i]).graph),
    ensures
        mods_model(ms, prefix).connections.dom().subset_of(mods_model(ms, prefix).exchanges.dom()),
    decreases ms,
{
    if ms.len() > 0 {
        assert(forall|i: int|
            0 <= i < ms.drop_last().len() ==> graph_ok((#[trigger] ms.drop_last()[i]).graph));
        lemma_mods_model_linked(ms.drop_last(), prefix);
        assert(graph_ok(ms[ms.len() - 1].graph));
        lemma_flat_model_linked(ms.last().graph, prefix.push(ms.last().name));
    }
}

// ------------------------------------------------------------------
// The flat graph
// ------------------------------------------------------------------

/// The content of a keyed association vector.
pub open spec fn keyed_entries<V: View>(list: Seq<(Key, V)>) -> Seq<(Seq<Seq<char>>, V::V)> {
    list.map_values(|p: (Key, V)| (p.0@, p.1@))
}

/// The content of the binding vector.
pub open spec fn binding_entries(list: Seq<(String, Dir)>) -> Seq<(Seq<char>, Seq<Seq<char>>)> {
    list.map_values(|p: (String, Dir)| (p.0@, p.1@))
}

/// The flattened, namespaced graph: the merged result of a whole
/// configuration tree, not yet interpreted by the resolver.
#[derive(Debug)]
pub struct GraphUnchecked {
    pub bindings: Vec<(String, Dir)>,
    pub processors: Vec<Ident>,
    pub exchanges: Vec<(Key, crate::link::Config)>,
    pub connections: Vec<(Key, Connection)>,
}

impl GraphUnchecked {
    /// The processor names, in insertion order.
    pub open spec fn processors_view(&self) -> Seq<Seq<char>> {
        idents_view(self.processors@)
    }

    /// The processor names as a set.
    pub open spec fn processor_set(&self) -> Set<Seq<char>> {
        self.processors_view().to_set()
    }

    /// The exchange entries, key and configuration content.
    pub open spec fn exchange_entries(&self) -> Seq<(Seq<Seq<char>>, ConfigView)> {
        keyed_entries(self.exchanges@)
    }

    /// The exchange map.
    pub open spec fn exchanges_map(&self) -> Map<Seq<Seq<char>>, ConfigView> {
        entries_map(self.exchange_entries())
    }

    /// The connection entries, key and attachment content.
    pub open spec fn connection_entries(&self) -> Seq<(Seq<Seq<char>>, ConnView)> {
        keyed_entries(self.connections@)
    }

    /// The connection map.
    pub open spec fn connections_map(&self) -> Map<Seq<Seq<char>>, ConnView> {
        entries_map(self.connection_entries())
    }

    /// The binding map, file path to mount point.
    pub open spec fn bindings_map(&self) -> Map<Seq<char>, Seq<Seq<char>>> {
        entries_map(binding_entries(self.bindings@))
    }

    /// What this flat graph holds, as one flat model.
    pub open spec fn model(&self) -> FlatModel {
        FlatModel {
            processors: self.processor_set(),
            exchanges: self.exchanges_map(),
            connections: self.connections_map(),
            bindings: self.bindings_map(),
        }
    }

    /// Well-formed: no duplicate processor name and no duplicate key in
    /// any of the keyed vectors.
    pub open spec fn wf(&self) -> bool {
        &&& keys_distinct(self.exchange_entries())
        &&& keys_distinct(self.connection_entries())
        &&& keys_distinct(binding_entries(self.bindings@))
        &&& forall|i: int, j: int|
            0 <= i < j < self.processors_view().len() ==> self.processors_view()[i]
                != self.processors_view()[j]
    }

    /// Merge with the other graph without checking validity: processor
    /// names are unioned (duplicates across units are tolerated) and the
    /// keyed maps are unioned with the other side winning a collision.
    #[verifier::loop_isolation(false)]
    pub fn merge_unchecked(self, other: Self) -> (r: Self)
        requires
            self.wf(),
            other.wf(),
        ensures
            r.wf(),
            r.model() == merge_model(self.model(), other.model()),
    {
        let mut merged = self;
        let ghost base = merged;

        union_idents(&mut merged.processors, &other.processors);
        proof {
            assert(idents_view(merged.processors@) == merged.processors_view());
            assert(idents_view(base.processors@) == base.processors_view());
            assert(idents_view(other.processors@) == other.processors_view());
            assert(merged.processor_set() =~= base.processor_set() + other.processor_set());
        }

        let ghost base2 = merged;
        let mut i: usize = 0;
        proof {
            assert(other.exchange_entries().subrange(0, 0) =~= Seq::<(
                Seq<Seq<char>>,
                ConfigView,
            )>::empty());
            assert(base2.exchanges_map().union_prefer_right(
                entries_map(other.exchange_entries().subrange(0, 0)),
            ) =~= base2.exchanges_map());
        }
        while i < other.exchanges.len()
            invariant
                0 <= i <= other.exchanges@.len(),
                merged.bindings == base2.bindings,
                merged.processors == base2.processors,
                merged.connections == base2.connections,
                keys_distinct(merged.exchange_entries()),
                merged.exchanges_map() == base2.exchanges_map().union_prefer_right(
                    entries_map(other.exchange_entries().subrange(0, i as int)),
                ),
            decreases other.exchanges@.len() - i,
        {
            let key = other.exchanges[i].0.clone();
            let value = other.exchanges[i].1.clone();
            proof {
                assert(other.exchange_entries()[i as int]
                    == (other.exchanges@[i as int].0@, other.exchanges@[i as int].1@));
            }
            upsert_keyed(&mut merged.exchanges, key, value);
            proof {
                let pre = other.exchange_entries().subrange(0, i as int);
                let cur = other.exchange_entries().subrange(0, i + 1);
                assert(cur.drop_last() =~= pre);
                assert(cur.last() == other.exchange_entries()[i as int]);
                assert(base2.exchanges_map().union_prefer_right(entries_map(pre)).insert(
                    cur.last().0,
                    cur.last().1,
                ) =~= base2.exchanges_map().union_prefer_right(entries_map(cur)));
            }
            i += 1;
        }
        proof {
            assert(other.exchange_entries().subrange(0, other.exchanges@.len() as int)
                =~= other.exchange_entries());
        }

        let ghost base3 = merged;
        let mut i: usize = 0;
        proof {
            assert(other.connection_entries().subrange(0, 0) =~= Seq::<(
                Seq<Seq<char>>,
                ConnView,
            )>::empty());
            assert(base3.connections_map().union_prefer_right(
                entries_map(other.connection_entries().subrange(0, 0)),
            ) =~= base3.connections_map());
        }
        while i < other.connections.len()
            invariant
                0 <= i <= other.connections@.len(),
                merged.bindings == base3.bindings,
                merged.processors == base3.processors,
                merged.exchanges == base3.exchanges,
                keys_distinct(merged.connection_entries()),
                merged.connections_map() == base3.connections_map().union_prefer_right(
                    entries_map(other.connection_entries().subrange(0, i as int)),
                ),
            decreases other.connections@.len() - i,
        {
            let key = other.connections[i].0.clone();
            let value = other.connections[i].1.clone();
            proof {
                assert(other.connection_entries()[i as int]
                    == (other.connections@[i as int].0@, other.connections@[i as int].1@));
            }
            upsert_keyed(&mut merged.connections, key, value);
            proof {
                let pre = other.connection_entries().subrange(0, i as int);
                let cur = other.connection_entries().subrange(0, i + 1);
                assert(cur.drop_last() =~= pre);
                assert(cur.last() == other.connection_entries()[i as int]);
                assert(base3.connections_map().union_prefer_right(entries_map(pre)).insert(
                    cur.last().0,
                    cur.last().1,
                ) =~= base3.connections_map().union_prefer_right(entries_map(cur)));
            }
            i += 1;
        }
        proof {
            assert(other.connection_entries().subrange(0, other.connections@.len() as int)
                =~= other.connection_entries());
        }

        let ghost base4 = merged;
        let mut i: usize = 0;
        proof {
            assert(binding_entries(other.bindings@).subrange(0, 0) =~= Seq::<(
                Seq<char>,
                Seq<Seq<char>>,
            )>::empty());
            assert(base4.bindings_map().union_prefer_right(
                entries_map(binding_entries(other.bindings@).subrange(0, 0)),
            ) =~= base4.bindings_map());
        }
        while i < other.bindings.len()
            invariant
                0 <= i <= other.bindings@.len(),
                merged.processors == base4.processors,
                merged.exchanges == base4.exchanges,
                merged.connections == base4.connections,
                keys_distinct(binding_entries(merged.bindings@)),
                merged.bindings_map() == base4.bindings_map().union_prefer_right(
                    entries_map(binding_entries(other.bindings@).subrange(0, i as int)),
                ),
            decreases other.bindings@.len() - i,
        {
            let path = other.bindings[i].0.clone();
            let dir = other.bindings[i].1.clone();
            proof {
                assert(binding_entries(other.bindings@)[i as int].0
                    == other.bindings@[i as int].0@);
                assert(binding_entries(other.bindings@)[i as int].1
                    == other.bindings@[i as int].1@);
            }
            upsert_binding(&mut merged.bindings, path, dir);
            proof {
                let pre = binding_entries(other.bindings@).subrange(0, i as int);
                let cur = binding_entries(other.bindings@).subrange(0, i + 1);
                assert(cur.drop_last() =~= pre);
                assert(cur.last() == binding_entries(other.bindings@)[i as int]);
                assert(base4.bindings_map().union_prefer_right(entries_map(pre)).insert(
                    cur.last().0,
                    cur.last().1,
                ) =~= base4.bindings_map().union_prefer_right(entries_map(cur)));
            }
            i += 1;
        }
        proof {
            assert(binding_entries(other.bindings@).subrange(0, other.bindings@.len() as int)
                =~= binding_entries(other.bindings@));
            assert(merged.model() =~= merge_model(base.model(), other.model()));
        }
        merged
    }
}

/// Add to `dst` every name of `src` that it does not yet hold.
#[verifier::loop_isolation(false)]
pub(crate) fn union_idents(dst: &mut Vec<Ident>, src: &Vec<Ident>)
    requires
        forall|i: int, j: int|
            0 <= i < j < idents_view(old(dst)@).len() ==> idents_view(old(dst)@)[i]
                != idents_view(old(dst)@)[j],
    ensures
        forall|i: int, j: int|
            0 <= i < j < idents_view(final(dst)@).len() ==> idents_view(final(dst)@)[i]
                != idents_view(final(dst)@)[j],
        forall|n: Seq<char>| #[trigger]
            idents_view(final(dst)@).contains(n) <==> (idents_view(old(dst)@).contains(n)
                || idents_view(src@).contains(n)),
{
    let ghost basep = idents_view(dst@);
    let mut i: usize = 0;
    while i < src.len()
        invariant
            0 <= i <= src@.len(),
            forall|i2: int, j2: int|
                0 <= i2 < j2 < idents_view(dst@).len() ==> idents_view(dst@)[i2]
                    != idents_view(dst@)[j2],
            forall|n: Seq<char>| #[trigger]
                idents_view(dst@).contains(n) <==> (basep.contains(n) || idents_view(
                    src@,
                ).subrange(0, i as int).contains(n)),
        decreases src@.len() - i,
    {
        let ghost beforep = idents_view(dst@);
        let ghost procn = src@[i as int]@;
        let ghost prev = idents_view(src@).subrange(0, i as int);
        let ghost cur = idents_view(src@).subrange(0, i + 1);
        let p = src[i].clone();
        let present = contains_ident(dst, &p);
        if !present {
            dst.push(p);
            proof {
                assert(idents_view(dst@) =~= beforep.push(procn));
            }
        }
        proof {
            assert(idents_view(src@)[i as int] == procn);
            assert(cur.drop_last() =~= prev);
            assert(cur.last() == procn);
            let nowp = idents_view(dst@);
            assert forall|n: Seq<char>| #[trigger] nowp.contains(n)
                implies (basep.contains(n) || cur.contains(n)) by {
                let k = choose|k: int| 0 <= k < nowp.len() && nowp[k] == n;
                if k < beforep.len() {
                    assert(beforep[k] == n);
                    assert(beforep.contains(n));
                    if prev.contains(n) {
                        let k2 = choose|k2: int| 0 <= k2 < prev.len() && prev[k2] == n;
                        assert(cur[k2] == n);
                        assert(cur.contains(n));
                    }
                } else {
                    assert(n == procn);
                    assert(cur[cur.len() - 1] == n);
                    assert(cur.contains(n));
                }
            }
            assert forall|n: Seq<char>| (basep.contains(n) || cur.contains(n))
                implies #[trigger] nowp.contains(n) by {
                if basep.contains(n) {
                    assert(beforep.contains(n));
                    let k = choose|k: int| 0 <= k < beforep.len() && beforep[k] == n;
                    assert(nowp[k] == n);
                } else {
                    let k = choose|k: int| 0 <= k < cur.len() && cur[k] == n;
                    if k < cur.len() - 1 {
                        assert(prev[k] == n);
                        assert(prev.contains(n));
                        assert(beforep.contains(n));
                        let k2 = choose|k2: int| 0 <= k2 < beforep.len() && beforep[k2] == n;
                        assert(nowp[k2] == n);
                    } else {
                        assert(n == procn);
                        if present {
                            assert(beforep.contains(procn));
                            let k2 = choose|k2: int| 0 <= k2 < beforep.len() && beforep[k2]
                                == procn;
                            assert(nowp[k2] == n);
                        } else {
                            assert(nowp[nowp.len() - 1] == procn);
                        }
                    }
                }
            }
            if !present {
                assert forall|i2: int, j2: int| 0 <= i2 < j2 < nowp.len()
                    implies nowp[i2] != nowp[j2] by {
                    if j2 == nowp.len() - 1 {
                        assert(nowp[i2] == beforep[i2]);
                        assert(beforep.contains(beforep[i2]));
                        assert(nowp[j2] == procn);
                    } else {
                        assert(nowp[i2] == beforep[i2]);
                        assert(nowp[j2] == beforep[j2]);
                    }
                }
            }
        }
        i += 1;
    }
    proof {
        assert(idents_view(src@).subrange(0, src@.len() as int) =~= idents_view(src@));
    }
}

/// Does the identifier sequence contain this name?
pub(crate) fn contains_ident(v: &Vec<Ident>, x: &Ident) -> (r: bool)
    ensures
        r == idents_view(v@).contains(x@),
{
    let mut i: usize = 0;
    while i < v.len()
        invariant
            0 <= i <= v@.len(),
            forall|j: int| 0 <= j < i ==> idents_view(v@)[j] != x@,
        decreases v@.len() - i,
    {
        if crate::ident::ident_eq(&v[i], x) {
            proof {
                assert(idents_view(v@)[i as int] == x@);
            }
            return true;
        }
        i += 1;
    }
    false
}

/// Insert or replace the entry with this key.
#[verifier::loop_isolation(false)]
fn upsert_keyed<V: View>(list: &mut Vec<(Key, V)>, key: Key, value: V)
    requires
        keys_distinct(keyed_entries(old(list)@)),
    ensures
        keys_distinct(keyed_entries(final(list)@)),
        entries_map(keyed_entries(final(list)@)) == entries_map(keyed_entries(old(list)@)).insert(
            key@,
            value@,
        ),
{
    let ghost entries0 = keyed_entries(list@);
    let ghost keyv = key@;
    let ghost valv = value@;
    let mut i: usize = 0;
    while i < list.len()
        invariant
            0 <= i <= list@.len(),
            list@ == old(list)@,
            forall|j: int| 0 <= j < i ==> (#[trigger] entries0[j]).0 != keyv,
        decreases list@.len() - i,
    {
        proof {
            assert(entries0[i as int] == (list@[i as int].0@, list@[i as int].1@));
        }
        if list[i].0.key_eq(&key) {
            let ghost hit = i as int;
            let _ = list.remove(i);
            let ghost mid = list@;
            list.push((key, value));
            proof {
                assert(keyed_entries(mid) =~= entries0.remove(hit));
                assert(list@.drop_last() =~= mid);
                assert(keyed_entries(list@).drop_last() =~= keyed_entries(mid));
                assert(keyed_entries(list@).last() == (keyv, valv));
                assert(entries_map(keyed_entries(list@)) == entries_map(
                    keyed_entries(list@).drop_last(),
                ).insert(keyv, valv));
                crate::assoc::lemma_entries_map_remove(entries0, hit);
                assert(entries0[hit].0 == keyv);
                assert(entries_map(keyed_entries(list@)) == entries_map(entries0).remove(
                    keyv,
                ).insert(keyv, valv));
                assert(entries_map(entries0).remove(keyv).insert(keyv, valv)
                    =~= entries_map(entries0).insert(keyv, valv));
                lemma_remove_distinct(entries0, hit);
                assert forall|a: int, b: int| 0 <= a < b < keyed_entries(list@).len()
                    implies (#[trigger] keyed_entries(list@)[a]).0
                        != (#[trigger] keyed_entries(list@)[b]).0 by {
                    if b == keyed_entries(list@).len() - 1 {
                        assert(keyed_entries(list@)[a] == entries0.remove(hit)[a]);
                        lemma_removed_key_absent(entries0, hit, a);
                        assert(keyed_entries(list@)[b].0 == keyv);
                    } else {
                        assert(keyed_entries(list@)[a] == entries0.remove(hit)[a]);
                        assert(keyed_entries(list@)[b] == entries0.remove(hit)[b]);
                    }
                }
            }
            return;
        }
        i += 1;
    }
    let ghost before = list@;
    list.push((key, value));
    proof {
        assert(keyed_entries(list@).drop_last() =~= keyed_entries(before));
        assert(keyed_entries(list@).last() == (keyv, valv));
        assert(entries_map(keyed_entries(list@)) == entries_map(
            keyed_entries(before),
        ).insert(keyv, valv));
        assert forall|a: int, b: int| 0 <= a < b < keyed_entries(list@).len()
            implies (#[trigger] keyed_entries(list@)[a]).0
                != (#[trigger] keyed_entries(list@)[b]).0 by {
            if b == keyed_entries(list@).len() - 1 {
                assert(keyed_entries(list@)[a] == entries0[a]);
                assert(keyed_entries(list@)[b].0 == keyv);
            } else {
                assert(keyed_entries(list@)[a] == entries0[a]);
                assert(keyed_entries(list@)[b] == entries0[b]);
            }
        }
    }
}

/// Insert or replace the binding entry with this path.
#[verifier::loop_isolation(false)]
fn upsert_binding(list: &mut Vec<(String, Dir)>, path: String, dir: Dir)
    requires
        keys_distinct(binding_entries(old(list)@)),
    ensures
        keys_distinct(binding_entries(final(list)@)),
        entries_map(binding_entries(final(list)@)) == entries_map(
            binding_entries(old(list)@),
        ).insert(path@, dir@),
{
    let ghost entries0 = binding_entries(list@);
    let ghost keyv = path@;
    let ghost valv = dir@;
    let mut i: usize = 0;
    while i < list.len()
        invariant
            0 <= i <= list@.len(),
            list@ == old(list)@,
            forall|j: int| 0 <= j < i ==> (#[trigger] entries0[j]).0 != keyv,
        decreases list@.len() - i,
    {
        proof {
            assert(entries0[i as int] == (list@[i as int].0@, list@[i as int].1@));
        }
        if list[i].0 == path {
            let ghost hit = i as int;
            let _ = list.remove(i);
            let ghost mid = list@;
            list.push((path, dir));
            proof {
                assert(binding_entries(mid) =~= entries0.remove(hit));
                assert(list@.drop_last() =~= mid);
                assert(binding_entries(list@).drop_last() =~= binding_entries(mid));
                assert(binding_entries(list@).last() == (keyv, valv));
                assert(entries_map(binding_entries(list@)) == entries_map(
                    binding_entries(list@).drop_last(),
                ).insert(keyv, valv));
                crate::assoc::lemma_entries_map_remove(entries0, hit);
                assert(entries0[hit].0 == keyv);
                assert(entries_map(binding_entries(list@)) == entries_map(entries0).remove(
                    keyv,
                ).insert(keyv, valv));
                assert(entries_map(entries0).remove(keyv).insert(keyv, valv)
                    =~= entries_map(entries0).insert(keyv, valv));
                lemma_remove_distinct(entries0, hit);
                assert forall|a: int, b: int| 0 <= a < b < binding_entries(list@).len()
                    implies (#[trigger] binding_entries(list@)[a]).0
                        != (#[trigger] binding_entries(list@)[b]).0 by {
                    if b == binding_entries(list@).len() - 1 {
                        assert(binding_entries(list@)[a] == entries0.remove(hit)[a]);
                        lemma_removed_key_absent(entries0, hit, a);
                        assert(binding_entries(list@)[b].0 == keyv);
                    } else {
                        assert(binding_entries(list@)[a] == entries0.remove(hit)[a]);
                        assert(binding_entries(list@)[b] == entries0.remove(hit)[b]);
                    }
                }
            }
            return;
        }
        i += 1;
    }
    let ghost before = list@;
    list.push((path, dir));
    proof {
        assert(binding_entries(list@).drop_last() =~= binding_entries(before));
        assert(binding_entries(list@).last() == (keyv, valv));
        assert(entries_map(binding_entries(list@)) == entries_map(
            binding_entries(before),
        ).insert(keyv, valv));
        assert forall|a: int, b: int| 0 <= a < b < binding_entries(list@).len()
            implies (#[trigger] binding_entries(list@)[a]).0
                != (#[trigger] binding_entries(list@)[b]).0 by {
            if b == binding_entries(list@).len() - 1 {
                assert(binding_entries(list@)[a] == entries0[a]);
                assert(binding_entries(list@)[b].0 == keyv);
            } else {
                assert(binding_entries(list@)[a] == entries0[a]);
                assert(binding_entries(list@)[b] == entries0[b]);
            }
        }
    }
}

impl Clone for Module {
    /// Cloning preserves the module's content.
    fn clone(&self) -> (r: Self)
        ensures
            module_view(r) == module_view(*self),
        decreases *self,
    {
        Module { name: self.name.clone(), path: self.path.clone(), graph: self.graph.clone() }
    }
}

impl Clone for GraphConfig {
    /// Cloning preserves the configuration's content.
    #[verifier::loop_isolation(false)]
    fn clone(&self) -> (r: Self)
        ensures
            graph_view(r) == graph_view(*self),
        decreases *self,
    {
        let processors = crate::ident::clone_idents(&self.processors);

        let mut exchanges: Vec<(Ident, crate::link::Config)> = Vec::new();
        let mut i: usize = 0;
        while i < self.exchanges.len()
            invariant
                0 <= i <= self.exchanges@.len(),
                exchanges@.len() == i,
                forall|j: int|
                    0 <= j < i ==> (#[trigger] exchanges@[j]).0 == self.exchanges@[j].0
                        && exchanges@[j].1@ == self.exchanges@[j].1@,
            decreases self.exchanges@.len() - i,
        {
            exchanges.push((self.exchanges[i].0.clone(), self.exchanges[i].1.clone()));
            i += 1;
        }

        let mut connections: Vec<(Ident, Connection)> = Vec::new();
        let mut i: usize = 0;
        while i < self.connections.len()
            invariant
                0 <= i <= self.connections@.len(),
                connections@.len() == i,
                forall|j: int|
                    0 <= j < i ==> (#[trigger] connections@[j]).0 == self.connections@[j].0
                        && connections@[j].1@ == self.connections@[j].1@,
            decreases self.connections@.len() - i,
        {
            connections.push((self.connections[i].0.clone(), self.connections[i].1.clone()));
            i += 1;
        }

        let modules = match &self.modules {
            Some(ms) => {
                let mut out: Vec<Module> = Vec::new();
                let mut i: usize = 0;
                while i < ms.len()
                    invariant
                        0 <= i <= ms@.len(),
                        out@.len() == i,
                        forall|j: int|
                            0 <= j < i ==> module_view(#[trigger] out@[j]) == module_view(
                                ms@[j],
                            ),
                    decreases ms@.len() - i,
                {
                    proof {
                        assert(decreases_to!(*self => self.modules->0@[i as int]));
                    }
                    out.push(ms[i].clone());
                    i += 1;
                }
                proof {
                    lemma_modules_view(ms@);
                    lemma_modules_view(out@);
                    assert forall|j: int| 0 <= j < ms@.len()
                        implies modules_view(out@)[j] == modules_view(ms@)[j] by {
                        assert(modules_view(out@)[j] == module_view(out@[j]));
                        assert(modules_view(ms@)[j] == module_view(ms@[j]));
                    }
                    assert(modules_view(out@) =~= modules_view(ms@));
                }
                Some(out)
            },
            None => None,
        };

        let r = GraphConfig {
            version: self.version,
            processors,
            exchanges,
            connections,
            modules,
        };
        proof {
            assert(idents_view(r.processors@) == idents_view(self.processors@));
            assert(r.exchanges@.map_values(|p: (Ident, crate::link::Config)| (p.0@, p.1@))
                =~= self.exchanges@.map_values(
                |p: (Ident, crate::link::Config)| (p.0@, p.1@),
            ));
            assert(r.connections@.map_values(|p: (Ident, Connection)| (p.0@, p.1@))
                =~= self.connections@.map_values(|p: (Ident, Connection)| (p.0@, p.1@)));
            assert(graph_view(r) == graph_view(*self));
        }
        r
    }
}

/// What a flattening error attests: somewhere in the inclusion tree a
/// connection named an undeclared processor or exchange.
pub open spec fn flatten_error_witness(e: FlattenError, g: GraphView) -> bool {
    match e {
        FlattenError::ProcessorNotDeclared(id) => exists|sub: GraphView|
            #[trigger] subgraph_of(sub, g) && processor_violation(sub, id@),
        FlattenError::ExchangeNotDeclared(id) => exists|sub: GraphView|
            #[trigger] subgraph_of(sub, g) && exchange_violation(sub, id@),
    }
}

/// Does the exchange list declare this identifier?
fn contains_exchange_ident(list: &Vec<(Ident, crate::link::Config)>, x: &Ident) -> (r: bool)
    ensures
        r == exists|k: int| 0 <= k < list@.len() && (#[trigger] list@[k]).0@ == x@,
{
    let mut i: usize = 0;
    while i < list.len()
        invariant
            0 <= i <= list@.len(),
            forall|j: int| 0 <= j < i ==> (#[trigger] list@[j]).0@ != x@,
        decreases list@.len() - i,
    {
        if crate::ident::ident_eq(&list[i].0, x) {
            return true;
        }
        i += 1;
    }
    false
}

impl GraphConfig {
    /// Flatten the configuration tree into one namespaced graph.
    ///
    /// Succeeds exactly when every unit of the tree is valid on its own
    /// level; the result then holds the model of the whole tree mounted
    /// at the root.  On failure the error names an identifier that a
    /// connection used although its unit does not declare it.
    pub fn flatten(self) -> (r: Result<GraphUnchecked, FlattenError>)
        ensures
            r is Ok <==> graph_ok(graph_view(self)),
            r is Ok ==> r.unwrap().wf() && r.unwrap().model() == flat_model(
                graph_view(self),
                Seq::empty(),
            ),
            r is Ok ==> first_flatten_error(graph_view(self)) is None,
            r is Err ==> flatten_error_witness(r.unwrap_err(), graph_view(self)),
            r is Err ==> Some(flatten_error_view(r.unwrap_err())) == first_flatten_error(
                graph_view(self),
            ),
    {
        let mut prefix: Vec<Ident> = Vec::new();
        proof {
            assert(idents_view(prefix@) =~= Seq::<Seq<char>>::empty());
        }
        self.flatten_recursive(&mut prefix)
    }

    /// The recursive flattening step: validate this unit, namespace its
    /// exchanges and connections under the current prefix, then flatten
    /// each module below the prefix extended by its name and merge.
    #[verifier::loop_isolation(false)]
    pub fn flatten_recursive(self, prefix: &mut Vec<Ident>) -> (r: Result<
        GraphUnchecked,
        FlattenError,
    >)
        ensures
            final(prefix)@ == old(prefix)@,
            r is Ok <==> graph_ok(graph_view(self)),
            r is Ok ==> r.unwrap().wf() && r.unwrap().model() == flat_model(
                graph_view(self),
                idents_view(old(prefix)@),
            ),
            r is Ok ==> first_flatten_error(graph_view(self)) is None,
            r is Err ==> flatten_error_witness(r.unwrap_err(), graph_view(self)),
            r is Err ==> Some(flatten_error_view(r.unwrap_err())) == first_flatten_error(
                graph_view(self),
            ),
        decreases self,
    {
        let ghost g0 = self;
        let ghost gv = graph_view(self);
        let ghost pv = idents_view(prefix@);
        proof {
            assert(gv.processors == idents_view(self.processors@));
            assert(subgraph_of(gv, gv));
        }

        // Every sink and source name must be a declared processor.
        let mut ci: usize = 0;
        while ci < self.connections.len()
            invariant
                0 <= ci <= self.connections@.len(),
                forall|j: int|
                    0 <= j < ci ==> conn_names_declared(
                        (#[trigger] gv.connections[j]).1,
                        gv.processors,
                    ),
            decreases self.connections@.len() - ci,
        {
            proof {
                assert(gv.connections[ci as int]
                    == (self.connections@[ci as int].0@, self.connections@[ci as int].1@));
            }
            let ghost cv = gv.connections[ci as int].1;
            let conn = &self.connections[ci].1;
            match &conn.sink {
                Some(names) => {
                    let mut si: usize = 0;
                    while si < names.len()
                        invariant
                            0 <= si <= names@.len(),
                            cv.sink_names() == idents_view(names@),
                            forall|j: int|
                                0 <= j < si ==> gv.processors.contains(
                                    #[trigger] idents_view(names@)[j],
                                ),
                        decreases names@.len() - si,
                    {
                        if !contains_ident(&self.processors, &names[si]) {
                            proof {
                                assert(idents_view(names@)[si as int] == names@[si as int]@);
                                assert(cv.sink_names().contains(names@[si as int]@));
                                assert(processor_violation(gv, names@[si as int]@));
                                assert(!conn_names_declared(cv, gv.processors));
                                assert(!level_ok(gv));
                                assert(!graph_ok(gv));
                                assert forall|j: int| 0 <= j < ci
                                    implies conn_undeclared(
                                        (#[trigger] gv.connections[j]).1,
                                        gv.processors,
                                    ) is None by {
                                    lemma_conn_undeclared_none(gv.connections[j].1, gv.processors);
                                }
                                lemma_first_undeclared_at(
                                    cv.sink_names(),
                                    gv.processors,
                                    si as int,
                                );
                                assert(conn_undeclared(cv, gv.processors)
                                    == Some(names@[si as int]@));
                                lemma_first_undeclared_processor_at(
                                    gv.connections,
                                    gv.processors,
                                    ci as int,
                                    names@[si as int]@,
                                );
                                assert(first_flatten_error(gv) == Some(
                                    FlattenErrView::ProcessorNotDeclared(names@[si as int]@),
                                ));
                            }
                            return Err(FlattenError::ProcessorNotDeclared(names[si].clone()));
                        }
                        si += 1;
                    }
                    proof {
                        lemma_first_undeclared_none(cv.sink_names(), gv.processors);
                    }
                },
                None => {
                    proof {
                        assert(cv.sink_names() =~= Seq::<Seq<char>>::empty());
                        assert(first_undeclared(cv.sink_names(), gv.processors) is None);
                    }
                },
            }
            match &conn.source {
                Some(names) => {
                    let mut si: usize = 0;
                    while si < names.len()
                        invariant
                            0 <= si <= names@.len(),
                            cv.source_names() == idents_view(names@),
                            forall|j: int|
                                0 <= j < si ==> gv.processors.contains(
                                    #[trigger] idents_view(names@)[j],
                                ),
                        decreases names@.len() - si,
                    {
                        if !contains_ident(&self.processors, &names[si]) {
                            proof {
                                assert(idents_view(names@)[si as int] == names@[si as int]@);
                                assert(cv.source_names().contains(names@[si as int]@));
                                assert(processor_violation(gv, names@[si as int]@));
                                assert(!conn_names_declared(cv, gv.processors));
                                assert(!level_ok(gv));
                                assert(!graph_ok(gv));
                                assert forall|j: int| 0 <= j < ci
                                    implies conn_undeclared(
                                        (#[trigger] gv.connections[j]).1,
                                        gv.processors,
                                    ) is None by {
                                    lemma_conn_undeclared_none(gv.connections[j].1, gv.processors);
                                }
                                lemma_first_undeclared_at(
                                    cv.source_names(),
                                    gv.processors,
                                    si as int,
                                );
                                assert(conn_undeclared(cv, gv.processors)
                                    == Some(names@[si as int]@));
                                lemma_first_undeclared_processor_at(
                                    gv.connections,
                                    gv.processors,
                                    ci as int,
                                    names@[si as int]@,
                                );
                                assert(first_flatten_error(gv) == Some(
                                    FlattenErrView::ProcessorNotDeclared(names@[si as int]@),
                                ));
                            }
                            return Err(FlattenError::ProcessorNotDeclared(names[si].clone()));
                        }
                        si += 1;
                    }
                },
                None => {},
            }
            proof {
                assert forall|n: Seq<char>| cv.sink_names().contains(n)
                    implies gv.processors.contains(n) by {
                    let k = choose|k: int| 0 <= k < cv.sink_names().len() && cv.sink_names()[k]
                        == n;
                    if conn.sink is Some {
                        assert(gv.processors.contains(idents_view(conn.sink->0@)[k]));
                    }
                }
                assert forall|n: Seq<char>| cv.source_names().contains(n)
                    implies gv.processors.contains(n) by {
                    let k = choose|k: int| 0 <= k < cv.source_names().len()
                        && cv.source_names()[k] == n;
                    if conn.source is Some {
                        assert(gv.processors.contains(idents_view(conn.source->0@)[k]));
                    }
                }
                assert(conn_names_declared(cv, gv.processors));
            }
            ci += 1;
        }

        proof {
            assert(gv.connections.len() == self.connections@.len());
            assert forall|j: int| 0 <= j < gv.connections.len()
                implies conn_undeclared((#[trigger] gv.connections[j]).1, gv.processors)
                    is None by {
                lemma_conn_undeclared_none(gv.connections[j].1, gv.processors);
            }
            lemma_first_undeclared_processor_none(gv.connections, gv.processors);
        }

        // Every connection key must be a declared exchange.
        let mut ci: usize = 0;
        while ci < self.connections.len()
            invariant
                0 <= ci <= self.connections@.len(),
                forall|j: int|
                    0 <= j < ci ==> exchange_declared(gv, (#[trigger] gv.connections[j]).0),
            decreases self.connections@.len() - ci,
        {
            proof {
                assert(gv.connections[ci as int]
                    == (self.connections@[ci as int].0@, self.connections@[ci as int].1@));
            }
            if !contains_exchange_ident(&self.exchanges, &self.connections[ci].0) {
                proof {
                    let n = gv.connections[ci as int].0;
                    assert forall|k: int| 0 <= k < gv.exchanges.len()
                        implies (#[trigger] gv.exchanges[k]).0 != n by {
                        assert(gv.exchanges[k]
                            == (self.exchanges@[k].0@, self.exchanges@[k].1@));
                    }
                    assert(!exchange_declared(gv, n));
                    assert(exchange_violation(gv, n));
                    assert(!level_ok(gv));
                    assert(!graph_ok(gv));
                    lemma_first_undeclared_exchange_at(gv.connections, gv, ci as int);
                    assert(first_flatten_error(gv) == Some(FlattenErrView::ExchangeNotDeclared(n)));
                }
                return Err(FlattenError::ExchangeNotDeclared(self.connections[ci].0.clone()));
            }
            proof {
                let n = gv.connections[ci as int].0;
                let k = choose|k: int| 0 <= k < self.exchanges@.len()
                    && (#[trigger] self.exchanges@[k]).0@ == n;
                assert(gv.exchanges[k] == (self.exchanges@[k].0@, self.exchanges@[k].1@));
                assert(gv.exchanges[k].0 == n);
                assert(exchange_declared(gv, n));
            }
            ci += 1;
        }
        proof {
            assert(gv.connections.len() == self.connections@.len());
            assert(gv.exchanges.len() == self.exchanges@.len());
            assert(forall|i: int|
                0 <= i < gv.connections.len() ==> conn_names_declared(
                    (#[trigger] gv.connections[i]).1,
                    gv.processors,
                ));
            assert(forall|i: int|
                0 <= i < gv.connections.len() ==> exchange_declared(
                    gv,
                    (#[trigger] gv.connections[i]).0,
                ));
            assert(level_ok(gv));
            lemma_first_undeclared_exchange_none(gv.connections, gv);
        }

        // Record where each module file is mounted.
        let mut bindings: Vec<(String, Dir)> = Vec::new();
        let ghost binding_model = gv.modules_seq().map_values(
            |m: ModuleView| (m.path, pv.push(m.name)),
        );
        proof {
            assert(binding_entries(bindings@) =~= Seq::<(Seq<char>, Seq<Seq<char>>)>::empty());
            assert(binding_model.subrange(0, 0) =~= Seq::<(Seq<char>, Seq<Seq<char>>)>::empty());
            assert(entries_map(binding_entries(bindings@))
                =~= entries_map(binding_model.subrange(0, 0)));
        }
        match &self.modules {
            Some(ms) => {
                proof {
                    lemma_modules_view(ms@);
                    assert(gv.modules_seq() == modules_view(ms@));
                }
                let mut mi: usize = 0;
                while mi < ms.len()
                    invariant
                        0 <= mi <= ms@.len(),
                        keys_distinct(binding_entries(bindings@)),
                        entries_map(binding_entries(bindings@)) == entries_map(
                            binding_model.subrange(0, mi as int),
                        ),
                    decreases ms@.len() - mi,
                {
                    proof {
                        assert(gv.modules_seq()[mi as int] == module_view(ms@[mi as int]));
                        assert(binding_model[mi as int] == (
                            ms@[mi as int].path@,
                            pv.push(ms@[mi as int].name@),
                        ));
                    }
                    let dir = ms[mi].name.clone().with_prefix(prefix).into_dir();
                    let path = ms[mi].path.clone();
                    upsert_binding(&mut bindings, path, dir);
                    proof {
                        let pre = binding_model.subrange(0, mi as int);
                        let cur = binding_model.subrange(0, mi + 1);
                        assert(cur.drop_last() =~= pre);
                        assert(cur.last() == binding_model[mi as int]);
                        assert(entries_map(pre).insert(cur.last().0, cur.last().1)
                            =~= entries_map(cur));
                    }
                    mi += 1;
                }
                proof {
                    assert(binding_model.subrange(0, ms@.len() as int) =~= binding_model);
                }
            },
            None => {
                proof {
                    assert(gv.modules_seq() =~= Seq::<ModuleView>::empty());
                    assert(binding_model =~= binding_model.subrange(0, 0));
                }
            },
        }

        // Namespace this unit's exchanges under the prefix.
        let mut flat_exchanges: Vec<(Key, crate::link::Config)> = Vec::new();
        let ghost exchange_model = prefixed_entries(gv.exchanges, pv);
        proof {
            assert(keyed_entries(flat_exchanges@) =~= Seq::<(
                Seq<Seq<char>>,
                ConfigView,
            )>::empty());
            assert(exchange_model.subrange(0, 0) =~= Seq::<(Seq<Seq<char>>, ConfigView)>::empty());
            assert(entries_map(keyed_entries(flat_exchanges@))
                =~= entries_map(exchange_model.subrange(0, 0)));
        }
        let mut ei: usize = 0;
        while ei < self.exchanges.len()
            invariant
                0 <= ei <= self.exchanges@.len(),
                keys_distinct(keyed_entries(flat_exchanges@)),
                entries_map(keyed_entries(flat_exchanges@)) == entries_map(
                    exchange_model.subrange(0, ei as int),
                ),
            decreases self.exchanges@.len() - ei,
        {
            proof {
                assert(gv.exchanges[ei as int]
                    == (self.exchanges@[ei as int].0@, self.exchanges@[ei as int].1@));
                assert(exchange_model[ei as int] == (
                    pv.push(gv.exchanges[ei as int].0),
                    gv.exchanges[ei as int].1,
                ));
            }
            let key = self.exchanges[ei].0.clone().with_prefix(prefix);
            let cfg = self.exchanges[ei].1.clone();
            upsert_keyed(&mut flat_exchanges, key, cfg);
            proof {
                let pre = exchange_model.subrange(0, ei as int);
                let cur = exchange_model.subrange(0, ei + 1);
                assert(cur.drop_last() =~= pre);
                assert(cur.last() == exchange_model[ei as int]);
                assert(entries_map(pre).insert(cur.last().0, cur.last().1)
                    =~= entries_map(cur));
            }
            ei += 1;
        }
        proof {
            assert(exchange_model.subrange(0, self.exchanges@.len() as int) =~= exchange_model);
        }

        // Namespace this unit's connections under the prefix.
        let mut flat_connections: Vec<(Key, Connection)> = Vec::new();
        let ghost connection_model = prefixed_entries(gv.connections, pv);
        proof {
            assert(keyed_entries(flat_connections@) =~= Seq::<(
                Seq<Seq<char>>,
                ConnView,
            )>::empty());
            assert(connection_model.subrange(0, 0) =~= Seq::<(Seq<Seq<char>>, ConnView)>::empty());
            assert(entries_map(keyed_entries(flat_connections@))
                =~= entries_map(connection_model.subrange(0, 0)));
        }
        let mut ki: usize = 0;
        while ki < self.connections.len()
            invariant
                0 <= ki <= self.connections@.len(),
                keys_distinct(keyed_entries(flat_connections@)),
                entries_map(keyed_entries(flat_connections@)) == entries_map(
                    connection_model.subrange(0, ki as int),
                ),
            decreases self.connections@.len() - ki,
        {
            proof {
                assert(gv.connections[ki as int]
                    == (self.connections@[ki as int].0@, self.connections@[ki as int].1@));
                assert(connection_model[ki as int] == (
                    pv.push(gv.connections[ki as int].0),
                    gv.connections[ki as int].1,
                ));
            }
            let key = self.connections[ki].0.clone().with_prefix(prefix);
            let conn = self.connections[ki].1.clone();
            upsert_keyed(&mut flat_connections, key, conn);
            proof {
                let pre = connection_model.subrange(0, ki as int);
                let cur = connection_model.subrange(0, ki + 1);
                assert(cur.drop_last() =~= pre);
                assert(cur.last() == connection_model[ki as int]);
                assert(entries_map(pre).insert(cur.last().0, cur.last().1)
                    =~= entries_map(cur));
            }
            ki += 1;
        }
        proof {
            assert(connection_model.subrange(0, self.connections@.len() as int)
                =~= connection_model);
        }

        // Processors stay in the flat namespace, duplicates collapsed.
        let mut procs: Vec<Ident> = Vec::new();
        union_idents(&mut procs, &self.processors);

        let this = GraphUnchecked {
            bindings,
            processors: procs,
            exchanges: flat_exchanges,
            connections: flat_connections,
        };
        proof {
            assert(this.wf());
            assert(idents_view(this.processors@) == this.processors_view());
            assert(this.processor_set() =~= gv.processors.to_set());
            assert(this.model() =~= level_model(gv, pv));
        }

        // Flatten each module below the extended prefix and merge.
        let mut acc = this;
        match self.modules {
            Some(mut ms) => {
                let ghost msv = ms@;
                let ghost mviews = modules_view(msv);
                proof {
                    lemma_modules_view(msv);
                    assert(gv.modules == Some(mviews));
                    assert(mods_model(mviews.subrange(0, 0), pv) == empty_model());
                    lemma_merge_model_empty(level_model(gv, pv));
                    assert(acc.model() == merge_model(
                        level_model(gv, pv),
                        mods_model(mviews.subrange(0, 0), pv),
                    ));
                }
                let ghost k: int = 0;
                while ms.len() > 0
                    invariant
                        0 <= k <= msv.len(),
                        ms@ =~= msv.subrange(k, msv.len() as int),
                        prefix@ == old(prefix)@,
                        acc.wf(),
                        acc.model() == merge_model(
                            level_model(gv, pv),
                            mods_model(mviews.subrange(0, k), pv),
                        ),
                        forall|j: int| 0 <= j < k ==> graph_ok((#[trigger] mviews[j]).graph),
                        forall|j: int|
                            0 <= j < k ==> first_flatten_error((#[trigger] mviews[j]).graph)
                                is None,
                    decreases msv.len() - k,
                {
                    let m = ms.remove(0);
                    proof {
                        assert(ms@ =~= msv.subrange(k + 1, msv.len() as int));
                        assert(m == msv[k]);
                        assert(mviews[k] == module_view(msv[k]));
                        assert(decreases_to!(g0 => g0.modules->0@[k].graph));
                        assert(m.graph == g0.modules->0@[k].graph);
                    }
                    let ghost name_v = m.name@;
                    prefix.push(m.name);
                    proof {
                        assert(idents_view(prefix@) =~= pv.push(name_v));
                    }
                    match m.graph.flatten_recursive(prefix) {
                        Ok(sub) => {
                            let _ = prefix.pop();
                            proof {
                                assert(prefix@ =~= old(prefix)@);
                                assert(sub.model() == flat_model(
                                    mviews[k].graph,
                                    pv.push(mviews[k].name),
                                ));
                            }
                            acc = acc.merge_unchecked(sub);
                            proof {
                                lemma_mods_model_step(mviews, pv, k);
                                lemma_merge_model_assoc(
                                    level_model(gv, pv),
                                    mods_model(mviews.subrange(0, k), pv),
                                    flat_model(mviews[k].graph, pv.push(mviews[k].name)),
                                );
                                k = k + 1;
                            }
                        },
                        Err(e) => {
                            let _ = prefix.pop();
                            proof {
                                assert(prefix@ =~= old(prefix)@);
                                assert(!graph_ok(mviews[k].graph));
                                assert(!graph_ok(gv));
                                lemma_mods_first_error_at(mviews, k, flatten_error_view(e));
                                assert(first_flatten_error(gv) == Some(flatten_error_view(e)));
                                match &e {
                                    FlattenError::ProcessorNotDeclared(id) => {
                                        let sub = choose|sub: GraphView| #[trigger]
                                            subgraph_of(sub, mviews[k].graph)
                                                && processor_violation(sub, id@);
                                        assert(subgraph_of(sub, gv));
                                    },
                                    FlattenError::ExchangeNotDeclared(id) => {
                                        let sub = choose|sub: GraphView| #[trigger]
                                            subgraph_of(sub, mviews[k].graph)
                                                && exchange_violation(sub, id@);
                                        assert(subgraph_of(sub, gv));
                                    },
                                }
                            }
                            return Err(e);
                        },
                    }
                }
                proof {
                    assert(k == msv.len());
                    assert(mviews.subrange(0, msv.len() as int) =~= mviews);
                    assert(acc.model() == flat_model(gv, pv));
                    assert(graph_ok(gv));
                    lemma_mods_first_error_none(mviews);
                    assert(first_flatten_error(gv) is None);
                }
            },
            None => {
                proof {
                    assert(flat_model(gv, pv) == level_model(gv, pv));
                    assert(graph_ok(gv));
                    assert(first_flatten_error(gv) is None);
                }
            },
        }
        Ok(acc)
    }
}

/// After removing position `i`, the entries stay distinct.
proof fn lemma_remove_distinct<K, V>(entries: Seq<(K, V)>, i: int)
    requires
        keys_distinct(entries),
        0 <= i < entries.len(),
    ensures
        keys_distinct(entries.remove(i)),
{
    assert forall|a: int, b: int|
        0 <= a < b < entries.remove(i).len()
        implies (#[trigger] entries.remove(i)[a]).0 != (#[trigger] entries.remove(i)[b]).0 by {
        let a0: int = if a < i { a } else { a + 1 };
        let b0: int = if b < i { b } else { b + 1 };
        assert(entries.remove(i)[a] == entries[a0]);
        assert(entries.remove(i)[b] == entries[b0]);
    }
}

/// After removing the sole entry with key `entries[i].0`, that key is
/// absent from every remaining position.
proof fn lemma_removed_key_absent<K, V>(entries: Seq<(K, V)>, i: int, a: int)
    requires
        keys_distinct(entries),
        0 <= i < entries.len(),
        0 <= a < entries.remove(i).len(),
    ensures
        entries.remove(i)[a].0 != entries[i].0,
{
    let a0: int = if a < i { a } else { a + 1 };
    assert(entries.remove(i)[a] == entries[a0]);
}

} // verus!
