//! The resolved dataflow: a flattened graph indexed per processor, with
//! the lookup operations that turn "processor P wants its input/output"
//! into the transport configuration of a concrete exchange.

use vstd::prelude::*;
use crate::assoc::{entries_map, keys_distinct};
use crate::connection::{ConnView, Connection};
use crate::dir::Dir;
use crate::error::Error;
use crate::graph::{
    binding_entries, first_flatten_error, flat_model, flatten_error_view, flatten_error_witness,
    graph_ok, graph_view, keyed_entries, FlatModel, FlattenError, GraphConfig, GraphView,
};
use crate::ident::{Ident, idents_view};
use crate::into_ident::IntoIdent;
use crate::into_key::IntoKey;
use crate::key::Key;
use crate::link::generic::ConfigView;

verus! {

/// The contents of a key sequence.
pub open spec fn keys_view(v: Seq<Key>) -> Seq<Seq<Seq<char>>> {
    v.map_values(|k: Key| k@)
}

/// The exchanges whose connection lists `p` on the source side: the
/// processor's receiver-eligible set.
pub open spec fn source_keys_of(cm: Map<Seq<Seq<char>>, ConnView>, p: Seq<char>) -> Set<
    Seq<Seq<char>>,
> {
    Set::new(|k: Seq<Seq<char>>| cm.dom().contains(k) && cm[k].source_names().contains(p))
}

/// The exchanges whose connection lists `p` on the sink side: the
/// processor's sender-eligible set.
pub open spec fn sink_keys_of(cm: Map<Seq<Seq<char>>, ConnView>, p: Seq<char>) -> Set<
    Seq<Seq<char>>,
> {
    Set::new(|k: Seq<Seq<char>>| cm.dom().contains(k) && cm[k].sink_names().contains(p))
}

/// One side of a processor's adjacency record holds exactly the keys of
/// `model`: absent when the set is empty, else a non-empty duplicate-free
/// vector with the same members.
pub open spec fn record_side_ok(side: Option<Vec<Key>>, model: Set<Seq<Seq<char>>>) -> bool {
    match side {
        None => forall|k: Seq<Seq<char>>| !model.contains(k),
        Some(v) => {
            &&& v@.len() > 0
            &&& forall|a: int, b: int|
                0 <= a < b < keys_view(v@).len() ==> keys_view(v@)[a] != keys_view(v@)[b]
            &&& forall|k: Seq<Seq<char>>| #[trigger] keys_view(v@).contains(k) <==> model.contains(
                k,
            )
        },
    }
}

/// The input and output exchanges of one processor.
#[derive(Debug)]
struct ProcInOut {
    /// The receiver-eligible exchanges, fed by source membership.
    inputs: Option<Vec<Key>>,
    /// The sender-eligible exchanges, fed by sink membership.
    outputs: Option<Vec<Key>>,
}

/// How a one-sided lookup resolves for a processor.
pub ghost enum Resolution {
    /// The processor is not declared.
    Missing,
    /// The processor's eligible exchange set is empty.
    Unavailable,
    /// The set holds several exchanges; a selector is needed.
    Ambiguous,
    /// The set holds exactly this exchange.
    Chosen(Seq<Seq<char>>),
}

/// Resolve a one-sided lookup from the processor set and the eligible
/// key set: a three-way split on the set's cardinality, after the
/// processor's existence is checked.
pub open spec fn resolve_from(
    procs: Set<Seq<char>>,
    p: Seq<char>,
    keys: Set<Seq<Seq<char>>>,
) -> Resolution {
    if !procs.contains(p) {
        Resolution::Missing
    } else if forall|k: Seq<Seq<char>>| !keys.contains(k) {
        Resolution::Unavailable
    } else if exists|k1: Seq<Seq<char>>, k2: Seq<Seq<char>>|
        keys.contains(k1) && keys.contains(k2) && k1 != k2 {
        Resolution::Ambiguous
    } else {
        Resolution::Chosen(keys.choose())
    }
}

/// The immutable resolved dataflow: the flattened graph together with a
/// per-processor adjacency index and the raw configuration it came from.
/// Lookups take `&self` and mutate nothing, so one value is safely
/// shared by any number of concurrent readers.
#[derive(Debug)]
pub struct Dataflow {
    bindings: Vec<(String, Dir)>,
    processors: Vec<Ident>,
    exchanges: Vec<(Key, crate::link::Config)>,
    adj_exchange: Vec<(Key, Connection)>,
    adj_processor: Vec<(Ident, ProcInOut)>,
    config: GraphConfig,
}

impl Dataflow {
    /// The declared processor names, in order.
    pub closed spec fn processors_view(&self) -> Seq<Seq<char>> {
        idents_view(self.processors@)
    }

    /// The declared processor names.
    pub closed spec fn processor_set(&self) -> Set<Seq<char>> {
        self.processors_view().to_set()
    }

    /// The exchange map of the flattened graph.
    pub closed spec fn exchanges_map(&self) -> Map<Seq<Seq<char>>, ConfigView> {
        entries_map(keyed_entries(self.exchanges@))
    }

    /// The connection map of the flattened graph.
    pub closed spec fn connections_map(&self) -> Map<Seq<Seq<char>>, ConnView> {
        entries_map(keyed_entries(self.adj_exchange@))
    }

    /// The binding map of the flattened graph.
    pub closed spec fn bindings_map(&self) -> Map<Seq<char>, Seq<Seq<char>>> {
        entries_map(binding_entries(self.bindings@))
    }

    /// The content of the retained raw configuration.
    pub closed spec fn raw_view(&self) -> GraphView {
        graph_view(self.config)
    }

    /// What this dataflow holds, as one flat model.
    pub open spec fn model(&self) -> FlatModel {
        FlatModel {
            processors: self.processor_set(),
            exchanges: self.exchanges_map(),
            connections: self.connections_map(),
            bindings: self.bindings_map(),
        }
    }

    /// The receiver-eligible exchanges of `p`.
    pub open spec fn source_keys(&self, p: Seq<char>) -> Set<Seq<Seq<char>>> {
        source_keys_of(self.connections_map(), p)
    }

    /// The sender-eligible exchanges of `p`.
    pub open spec fn sink_keys(&self, p: Seq<char>) -> Set<Seq<Seq<char>>> {
        sink_keys_of(self.connections_map(), p)
    }

    /// How a receiver lookup resolves for `p`.
    pub open spec fn receiver_resolution(&self, p: Seq<char>) -> Resolution {
        resolve_from(self.processor_set(), p, self.source_keys(p))
    }

    /// How a sender lookup resolves for `p`.
    pub open spec fn sender_resolution(&self, p: Seq<char>) -> Resolution {
        resolve_from(self.processor_set(), p, self.sink_keys(p))
    }

    #[verifier::type_invariant]
    spec fn type_inv(self) -> bool {
        &&& keys_distinct(keyed_entries(self.exchanges@))
        &&& keys_distinct(keyed_entries(self.adj_exchange@))
        &&& forall|i: int, j: int|
            0 <= i < j < self.processors_view().len() ==> self.processors_view()[i]
                != self.processors_view()[j]
        &&& self.connections_map().dom().subset_of(self.exchanges_map().dom())
        &&& self.adj_processor@.len() == self.processors@.len()
        &&& forall|i: int|
            0 <= i < self.adj_processor@.len() ==> (#[trigger] self.adj_processor@[i]).0@
                == self.processors_view()[i]
        &&& forall|i: int|
            0 <= i < self.adj_processor@.len() ==> record_side_ok(
                (#[trigger] self.adj_processor@[i]).1.inputs,
                source_keys_of(self.connections_map(), self.adj_processor@[i].0@),
            )
        &&& forall|i: int|
            0 <= i < self.adj_processor@.len() ==> record_side_ok(
                (#[trigger] self.adj_processor@[i]).1.outputs,
                sink_keys_of(self.connections_map(), self.adj_processor@[i].0@),
            )
    }

    /// Build the resolved dataflow from configuration data: flatten the
    /// tree, then derive each processor's eligible exchange sets from
    /// the flat connections.  Succeeds exactly when flattening does.
    #[verifier::loop_isolation(false)]
    pub fn from_config(config: GraphConfig) -> (r: Result<Dataflow, FlattenError>)
        ensures
            r is Ok <==> graph_ok(graph_view(config)),
            r is Ok ==> ({
                let d = r.unwrap();
                &&& d.model() == flat_model(graph_view(config), Seq::empty())
                &&& d.raw_view() == graph_view(config)
            }),
            r is Err ==> flatten_error_witness(r.unwrap_err(), graph_view(config)),
            r is Err ==> Some(flatten_error_view(r.unwrap_err())) == first_flatten_error(
                graph_view(config),
            ),
    {
        let ghost gv = graph_view(config);
        let retained = config.clone();
        let flat = match config.flatten() {
            Ok(f) => f,
            Err(e) => return Err(e),
        };
        proof {
            crate::graph::lemma_flat_model_linked(gv, Seq::empty());
        }
        let ghost cm = entries_map(keyed_entries(flat.connections@));
        let mut adj: Vec<(Ident, ProcInOut)> = Vec::new();
        let mut i: usize = 0;
        while i < flat.processors.len()
            invariant
                0 <= i <= flat.processors@.len(),
                adj@.len() == i,
                forall|j: int|
                    0 <= j < i ==> (#[trigger] adj@[j]).0@ == idents_view(flat.processors@)[j],
                forall|j: int|
                    0 <= j < i ==> record_side_ok(
                        (#[trigger] adj@[j]).1.inputs,
                        source_keys_of(cm, adj@[j].0@),
                    ),
                forall|j: int|
                    0 <= j < i ==> record_side_ok(
                        (#[trigger] adj@[j]).1.outputs,
                        sink_keys_of(cm, adj@[j].0@),
                    ),
            decreases flat.processors@.len() - i,
        {
            let p = flat.processors[i].clone();
            let inputs_vec = collect_source_keys(&flat.connections, &p);
            let inputs = if inputs_vec.len() > 0 {
                Some(inputs_vec)
            } else {
                proof {
                    assert forall|k: Seq<Seq<char>>|
                        !source_keys_of(cm, p@).contains(k) by {
                        if source_keys_of(cm, p@).contains(k) {
                            assert(keys_view(inputs_vec@).contains(k));
                        }
                    }
                }
                None
            };
            let outputs_vec = collect_sink_keys(&flat.connections, &p);
            let outputs = if outputs_vec.len() > 0 {
                Some(outputs_vec)
            } else {
                proof {
                    assert forall|k: Seq<Seq<char>>|
                        !sink_keys_of(cm, p@).contains(k) by {
                        if sink_keys_of(cm, p@).contains(k) {
                            assert(keys_view(outputs_vec@).contains(k));
                        }
                    }
                }
                None
            };
            adj.push((p, ProcInOut { inputs, outputs }));
            i += 1;
        }
        let ghost flat0 = flat;
        let d = Dataflow {
            bindings: flat.bindings,
            processors: flat.processors,
            exchanges: flat.exchanges,
            adj_exchange: flat.connections,
            adj_processor: adj,
            config: retained,
        };
        proof {
            assert(d.processors_view() == idents_view(flat0.processors@));
            assert(d.connections_map() == cm);
            assert(d.model() =~= flat0.model());
            assert(d.model() == flat_model(gv, Seq::empty()));
            assert(d.connections_map() == flat_model(gv, Seq::empty()).connections);
            assert(d.exchanges_map() == flat_model(gv, Seq::empty()).exchanges);
            assert(d.type_inv());
        }
        Ok(d)
    }

    /// The adjacency record of `p`, if `p` is a declared processor.
    #[verifier::loop_isolation(false)]
    fn find_record<'a>(&'a self, p: &Ident) -> (r: Option<&'a ProcInOut>)
        ensures
            r is Some <==> self.processor_set().contains(p@),
            r is Some ==> record_side_ok(r.unwrap().inputs, self.source_keys(p@))
                && record_side_ok(r.unwrap().outputs, self.sink_keys(p@)),
    {
        proof {
            use_type_invariant(self);
        }
        let mut i: usize = 0;
        while i < self.adj_processor.len()
            invariant
                0 <= i <= self.adj_processor@.len(),
                forall|j: int| 0 <= j < i ==> (#[trigger] self.adj_processor@[j]).0@ != p@,
            decreases self.adj_processor@.len() - i,
        {
            if crate::ident::ident_eq(&self.adj_processor[i].0, p) {
                proof {
                    assert(self.processors_view()[i as int] == p@);
                    assert(self.processors_view().contains(p@));
                }
                return Some(&self.adj_processor[i].1);
            }
            i += 1;
        }
        proof {
            assert forall|j: int| 0 <= j < self.processors_view().len()
                implies #[trigger] self.processors_view()[j] != p@ by {
                assert(self.adj_processor@[j].0@ == self.processors_view()[j]);
            }
            assert(!self.processors_view().contains(p@));
        }
        None
    }

    /// Look up the exchange configuration stored under this key.
    fn find_config<'a>(&'a self, key: &Key) -> (r: Option<&'a crate::link::Config>)
        ensures
            r is Some <==> self.exchanges_map().dom().contains(key@),
            r is Some ==> r.unwrap()@ == self.exchanges_map()[key@],
    {
        proof {
            use_type_invariant(self);
        }
        find_exchange(&self.exchanges, key)
    }

    /// Resolve the single input exchange of `proc`.
    ///
    /// Fails when `proc` is not declared, when no exchange feeds it, or
    /// when several do and one must be selected with
    /// [`resolve_receiver_from`](Self::resolve_receiver_from).
    pub fn resolve_receiver<N: IntoIdent>(&self, proc: N) -> (r: Result<
        &crate::link::Config,
        Error,
    >)
        requires
            proc.ident_ready(),
        ensures
            ({
                let p = proc.ident_view();
                match r {
                    Ok(cfg) => self.receiver_resolution(p) matches Resolution::Chosen(k)
                        && self.source_keys(p).contains(k) && cfg@ == self.exchanges_map()[k],
                    Err(e) => match e {
                        Error::ProcessorNotFound { processor } => processor@ == p
                            && self.receiver_resolution(p) is Missing,
                        Error::NoInputAvailable { processor } => processor@ == p
                            && self.receiver_resolution(p) is Unavailable,
                        Error::InputNotSpecified { processor } => processor@ == p
                            && self.receiver_resolution(p) is Ambiguous,
                        _ => false,
                    },
                }
            }),
    {
        proof {
            use_type_invariant(self);
        }
        let p = IntoIdent::into(proc);
        match self.find_record(&p) {
            None => Err(Error::processor_not_found(p)),
            Some(rec) => match &rec.inputs {
                None => Err(Error::no_input_available(p)),
                Some(keys) => {
                    if keys.len() > 1 {
                        proof {
                            lemma_two_members(keys@, self.source_keys(p@));
                        }
                        Err(Error::input_not_specified(p))
                    } else {
                        proof {
                            lemma_single_member(keys@, self.source_keys(p@));
                        }
                        let key = &keys[0];
                        match self.find_config(key) {
                            Some(cfg) => {
                                proof {
                                    assert(self.source_keys(p@).contains(key@));
                                    assert(self.receiver_resolution(p@)
                                        == Resolution::Chosen(self.source_keys(p@).choose()));
                                }
                                Ok(cfg)
                            },
                            None => {
                                proof {
                                    assert(self.source_keys(p@).contains(key@));
                                    assert(self.connections_map().dom().contains(key@));
                                    assert(false);
                                }
                                Err(Error::exchange_not_found(key))
                            },
                        }
                    }
                },
            },
        }
    }

    /// Resolve the single output exchange of `proc`.
    ///
    /// Fails when `proc` is not declared, when no exchange takes its
    /// output, or when several do and one must be selected with
    /// [`resolve_sender_to`](Self::resolve_sender_to).
    pub fn resolve_sender<N: IntoIdent>(&self, proc: N) -> (r: Result<
        &crate::link::Config,
        Error,
    >)
        requires
            proc.ident_ready(),
        ensures
            ({
                let p = proc.ident_view();
                match r {
                    Ok(cfg) => self.sender_resolution(p) matches Resolution::Chosen(k)
                        && self.sink_keys(p).contains(k) && cfg@ == self.exchanges_map()[k],
                    Err(e) => match e {
                        Error::ProcessorNotFound { processor } => processor@ == p
                            && self.sender_resolution(p) is Missing,
                        Error::NoOutputAvailable { processor } => processor@ == p
                            && self.sender_resolution(p) is Unavailable,
                        Error::OutputNotSpecified { processor } => processor@ == p
                            && self.sender_resolution(p) is Ambiguous,
                        _ => false,
                    },
                }
            }),
    {
        proof {
            use_type_invariant(self);
        }
        let p = IntoIdent::into(proc);
        match self.find_record(&p) {
            None => Err(Error::processor_not_found(p)),
            Some(rec) => match &rec.outputs {
                None => Err(Error::no_output_available(p)),
                Some(keys) => {
                    if keys.len() > 1 {
                        proof {
                            lemma_two_members(keys@, self.sink_keys(p@));
                        }
                        Err(Error::output_not_specified(p))
                    } else {
                        proof {
                            lemma_single_member(keys@, self.sink_keys(p@));
                        }
                        let key = &keys[0];
                        match self.find_config(key) {
                            Some(cfg) => {
                                proof {
                                    assert(self.sink_keys(p@).contains(key@));
                                    assert(self.sender_resolution(p@)
                                        == Resolution::Chosen(self.sink_keys(p@).choose()));
                                }
                                Ok(cfg)
                            },
                            None => {
                                proof {
                                    assert(self.sink_keys(p@).contains(key@));
                                    assert(self.connections_map().dom().contains(key@));
                                    assert(false);
                                }
                                Err(Error::exchange_not_found(key))
                            },
                        }
                    }
                },
            },
        }
    }

    /// Resolve the input exchange `exchange` of `proc`: succeeds exactly
    /// when that exchange is among the processor's receiver-eligible
    /// set.
    pub fn resolve_receiver_from<N: IntoIdent, E: IntoKey>(&self, proc: N, exchange: E) -> (r:
        Result<&crate::link::Config, Error>)
        requires
            proc.ident_ready(),
            exchange.key_ready(),
        ensures
            ({
                let p = proc.ident_view();
                let e = exchange.key_view();
                match r {
                    Ok(cfg) => self.processor_set().contains(p) && self.source_keys(p).contains(e)
                        && cfg@ == self.exchanges_map()[e],
                    Err(err) => match err {
                        Error::ProcessorNotFound { processor } => processor@ == p
                            && !self.processor_set().contains(p),
                        Error::ConnectionError { processor, exchange: ex } => processor@ == p
                            && ex@ == e && self.processor_set().contains(p)
                            && !self.source_keys(p).contains(e),
                        _ => false,
                    },
                }
            }),
    {
        proof {
            use_type_invariant(self);
        }
        let p = IntoIdent::into(proc);
        let key = IntoKey::into(exchange);
        match self.find_record(&p) {
            None => Err(Error::processor_not_found(p)),
            Some(rec) => match &rec.inputs {
                None => Err(Error::connection_error(p, key)),
                Some(keys) => {
                    if contains_key(keys, &key) {
                        match self.find_config(&key) {
                            Some(cfg) => Ok(cfg),
                            None => {
                                proof {
                                    assert(self.source_keys(p@).contains(key@));
                                    assert(self.connections_map().dom().contains(key@));
                                    assert(false);
                                }
                                Err(Error::exchange_not_found(&key))
                            },
                        }
                    } else {
                        Err(Error::connection_error(p, key))
                    }
                },
            },
        }
    }

    /// Resolve the output exchange `exchange` of `proc`: succeeds
    /// exactly when that exchange is among the processor's
    /// sender-eligible set.
    pub fn resolve_sender_to<N: IntoIdent, E: IntoKey>(&self, proc: N, exchange: E) -> (r: Result<
        &crate::link::Config,
        Error,
    >)
        requires
            proc.ident_ready(),
            exchange.key_ready(),
        ensures
            ({
                let p = proc.ident_view();
                let e = exchange.key_view();
                match r {
                    Ok(cfg) => self.processor_set().contains(p) && self.sink_keys(p).contains(e)
                        && cfg@ == self.exchanges_map()[e],
                    Err(err) => match err {
                        Error::ProcessorNotFound { processor } => processor@ == p
                            && !self.processor_set().contains(p),
                        Error::ConnectionError { processor, exchange: ex } => processor@ == p
                            && ex@ == e && self.processor_set().contains(p)
                            && !self.sink_keys(p).contains(e),
                        _ => false,
                    },
                }
            }),
    {
        proof {
            use_type_invariant(self);
        }
        let p = IntoIdent::into(proc);
        let key = IntoKey::into(exchange);
        match self.find_record(&p) {
            None => Err(Error::processor_not_found(p)),
            Some(rec) => match &rec.outputs {
                None => Err(Error::connection_error(p, key)),
                Some(keys) => {
                    if contains_key(keys, &key) {
                        match self.find_config(&key) {
                            Some(cfg) => Ok(cfg),
                            None => {
                                proof {
                                    assert(self.sink_keys(p@).contains(key@));
                                    assert(self.connections_map().dom().contains(key@));
                                    assert(false);
                                }
                                Err(Error::exchange_not_found(&key))
                            },
                        }
                    } else {
                        Err(Error::connection_error(p, key))
                    }
                },
            },
        }
    }

    /// The names of the declared processors, each exactly once.
    pub fn processors(&self) -> (r: &Vec<Ident>)
        ensures
            idents_view(r@) == self.processors_view(),
            forall|i: int, j: int|
                0 <= i < j < idents_view(r@).len() ==> idents_view(r@)[i] != idents_view(r@)[j],
    {
        proof {
            use_type_invariant(self);
            assert(idents_view(self.processors@) == self.processors_view());
        }
        &self.processors
    }

    /// The declared exchanges with their configurations, keyed by
    /// namespaced name.
    pub fn exchanges(&self) -> (r: &Vec<(Key, crate::link::Config)>)
        ensures
            keys_distinct(keyed_entries(r@)),
            entries_map(keyed_entries(r@)) == self.exchanges_map(),
    {
        proof {
            use_type_invariant(self);
        }
        &self.exchanges
    }

    /// The flat connections, keyed by namespaced exchange name.
    pub fn connections(&self) -> (r: &Vec<(Key, Connection)>)
        ensures
            keys_distinct(keyed_entries(r@)),
            entries_map(keyed_entries(r@)) == self.connections_map(),
    {
        proof {
            use_type_invariant(self);
        }
        &self.adj_exchange
    }

    /// The file bindings: where each included module file was mounted.
    pub fn bindings(&self) -> (r: &Vec<(String, Dir)>)
        ensures
            entries_map(binding_entries(r@)) == self.bindings_map(),
    {
        &self.bindings
    }

    /// The raw configuration the dataflow was built from.
    pub fn config(&self) -> (r: &GraphConfig)
        ensures
            graph_view(*r) == self.raw_view(),
    {
        &self.config
    }
}

/// An exchange is sender-eligible for a processor exactly when the flat
/// graph's connection for that exchange lists the processor on its sink
/// side; being a set, the index attributes each exchange to a processor
/// at most once.
pub proof fn lemma_sink_index_membership(d: &Dataflow, p: Seq<char>, e: Seq<Seq<char>>)
    ensures
        d.sink_keys(p).contains(e) <==> (d.connections_map().dom().contains(e)
            && d.connections_map()[e].sink_names().contains(p)),
{
}

/// The mirror statement for the receiver side: an exchange feeds a
/// processor exactly when its connection lists the processor on its
/// source side.
pub proof fn lemma_source_index_membership(d: &Dataflow, p: Seq<char>, e: Seq<Seq<char>>)
    ensures
        d.source_keys(p).contains(e) <==> (d.connections_map().dom().contains(e)
            && d.connections_map()[e].source_names().contains(p)),
{
}

/// Lookups read only the immutable resolved model: two dataflows with
/// the same processors, connections and exchanges resolve every
/// processor identically, so concurrent lookups against one shared
/// dataflow cannot influence each other.
pub proof fn lemma_resolution_reads_only_model(d1: &Dataflow, d2: &Dataflow, p: Seq<char>)
    requires
        d1.processor_set() == d2.processor_set(),
        d1.connections_map() == d2.connections_map(),
    ensures
        d1.receiver_resolution(p) == d2.receiver_resolution(p),
        d1.sender_resolution(p) == d2.sender_resolution(p),
{
    assert(d1.source_keys(p) =~= d2.source_keys(p));
    assert(d1.sink_keys(p) =~= d2.sink_keys(p));
}

/// A non-empty duplicate-free key vector with one element resolves to
/// exactly that element.
proof fn lemma_single_member(v: Seq<Key>, model: Set<Seq<Seq<char>>>)
    requires
        v.len() == 1,
        forall|k: Seq<Seq<char>>| #[trigger] keys_view(v).contains(k) <==> model.contains(k),
    ensures
        model.contains(v[0]@),
        forall|k1: Seq<Seq<char>>, k2: Seq<Seq<char>>|
            model.contains(k1) && model.contains(k2) ==> k1 == k2,
        model.choose() == v[0]@,
{
    assert(keys_view(v)[0] == v[0]@);
    assert(keys_view(v).contains(v[0]@));
    assert forall|k1: Seq<Seq<char>>, k2: Seq<Seq<char>>|
        model.contains(k1) && model.contains(k2) implies k1 == k2 by {
        assert(keys_view(v).contains(k1));
        assert(keys_view(v).contains(k2));
        let a = choose|a: int| 0 <= a < keys_view(v).len() && keys_view(v)[a] == k1;
        let b = choose|b: int| 0 <= b < keys_view(v).len() && keys_view(v)[b] == k2;
        assert(a == 0 && b == 0);
    }
    assert(model.contains(model.choose()));
}

/// A duplicate-free key vector with two or more elements puts two
/// distinct keys into the model set.
proof fn lemma_two_members(v: Seq<Key>, model: Set<Seq<Seq<char>>>)
    requires
        v.len() > 1,
        forall|a: int, b: int|
            0 <= a < b < keys_view(v).len() ==> keys_view(v)[a] != keys_view(v)[b],
        forall|k: Seq<Seq<char>>| #[trigger] keys_view(v).contains(k) <==> model.contains(k),
    ensures
        exists|k1: Seq<Seq<char>>, k2: Seq<Seq<char>>|
            model.contains(k1) && model.contains(k2) && k1 != k2,
{
    assert(keys_view(v)[0] == v[0]@);
    assert(keys_view(v)[1] == v[1]@);
    assert(keys_view(v).contains(v[0]@));
    assert(keys_view(v).contains(v[1]@));
    assert(keys_view(v)[0] != keys_view(v)[1]);
    assert(model.contains(v[0]@) && model.contains(v[1]@) && v[0]@ != v[1]@);
}

/// Does the key sequence contain this key?
fn contains_key(v: &Vec<Key>, x: &Key) -> (r: bool)
    ensures
        r == keys_view(v@).contains(x@),
{
    let mut i: usize = 0;
    while i < v.len()
        invariant
            0 <= i <= v@.len(),
            forall|j: int| 0 <= j < i ==> keys_view(v@)[j] != x@,
        decreases v@.len() - i,
    {
        if v[i].key_eq(x) {
            proof {
                assert(keys_view(v@)[i as int] == x@);
            }
            return true;
        }
        i += 1;
    }
    false
}

/// Look up an exchange entry by key.
#[verifier::loop_isolation(false)]
fn find_exchange<'a>(list: &'a Vec<(Key, crate::link::Config)>, key: &Key) -> (r: Option<
    &'a crate::link::Config,
>)
    requires
        keys_distinct(keyed_entries(list@)),
    ensures
        r is Some <==> entries_map(keyed_entries(list@)).dom().contains(key@),
        r is Some ==> r.unwrap()@ == entries_map(keyed_entries(list@))[key@],
{
    proof {
        crate::assoc::lemma_entries_map_dom(keyed_entries(list@));
    }
    let mut i: usize = 0;
    while i < list.len()
        invariant
            0 <= i <= list@.len(),
            forall|j: int| 0 <= j < i ==> (#[trigger] keyed_entries(list@)[j]).0 != key@,
        decreases list@.len() - i,
    {
        proof {
            assert(keyed_entries(list@)[i as int] == (list@[i as int].0@, list@[i as int].1@));
        }
        if list[i].0.key_eq(key) {
            proof {
                crate::assoc::lemma_entries_map_index(keyed_entries(list@), i as int);
            }
            return Some(&list[i].1);
        }
        i += 1;
    }
    proof {
        assert forall|j: int| 0 <= j < keyed_entries(list@).len()
            implies (#[trigger] keyed_entries(list@)[j]).0 != key@ by {}
    }
    None
}

/// `k` is attributed to `p` by an entry below `upto` listing `p` on the
/// source side.
spec fn source_attributed(
    entries: Seq<(Seq<Seq<char>>, ConnView)>,
    upto: int,
    p: Seq<char>,
    k: Seq<Seq<char>>,
) -> bool {
    exists|j: int|
        0 <= j < upto && (#[trigger] entries[j]).0 == k && entries[j].1.source_names().contains(p)
}

/// `k` is attributed to `p` by an entry below `upto` listing `p` on the
/// sink side.
spec fn sink_attributed(
    entries: Seq<(Seq<Seq<char>>, ConnView)>,
    upto: int,
    p: Seq<char>,
    k: Seq<Seq<char>>,
) -> bool {
    exists|j: int|
        0 <= j < upto && (#[trigger] entries[j]).0 == k && entries[j].1.sink_names().contains(p)
}

/// Collect the keys of the connections that list `p` on the source
/// side.
#[verifier::loop_isolation(false)]
fn collect_source_keys(conns: &Vec<(Key, Connection)>, p: &Ident) -> (r: Vec<Key>)
    requires
        keys_distinct(keyed_entries(conns@)),
    ensures
        forall|a: int, b: int|
            0 <= a < b < keys_view(r@).len() ==> keys_view(r@)[a] != keys_view(r@)[b],
        forall|k: Seq<Seq<char>>| #[trigger]
            keys_view(r@).contains(k) <==> source_keys_of(
                entries_map(keyed_entries(conns@)),
                p@,
            ).contains(k),
{
    let ghost entries = keyed_entries(conns@);
    let ghost cm = entries_map(entries);
    let mut out: Vec<Key> = Vec::new();
    let mut i: usize = 0;
    while i < conns.len()
        invariant
            0 <= i <= conns@.len(),
            forall|a: int, b: int|
                0 <= a < b < keys_view(out@).len() ==> keys_view(out@)[a] != keys_view(out@)[b],
            forall|k: Seq<Seq<char>>| #[trigger]
                keys_view(out@).contains(k) <==> source_attributed(entries, i as int, p@, k),
        decreases conns@.len() - i,
    {
        proof {
            assert(entries[i as int] == (conns@[i as int].0@, conns@[i as int].1@));
        }
        let in_source = match &conns[i].1.source {
            Some(names) => crate::graph::contains_ident(names, p),
            None => false,
        };
        proof {
            assert(in_source == entries[i as int].1.source_names().contains(p@));
        }
        let ghost before = keys_view(out@);
        if in_source {
            out.push(conns[i].0.clone());
            proof {
                assert(keys_view(out@) =~= before.push(entries[i as int].0));
            }
        }
        proof {
            let now = keys_view(out@);
            assert forall|k: Seq<Seq<char>>| #[trigger] now.contains(k)
                implies source_attributed(entries, i + 1, p@, k) by {
                let a = choose|a: int| 0 <= a < now.len() && now[a] == k;
                if a < before.len() {
                    assert(before[a] == k);
                    assert(before.contains(k));
                    assert(source_attributed(entries, i as int, p@, k));
                    let j = choose|j: int|
                        0 <= j < i && (#[trigger] entries[j]).0 == k
                            && entries[j].1.source_names().contains(p@);
                    assert(0 <= j < i + 1 && entries[j].0 == k
                        && entries[j].1.source_names().contains(p@));
                } else {
                    assert(in_source && k == entries[i as int].0);
                }
            }
            assert forall|k: Seq<Seq<char>>| source_attributed(entries, i + 1, p@, k)
                implies #[trigger] now.contains(k) by {
                let j = choose|j: int|
                    0 <= j < i + 1 && (#[trigger] entries[j]).0 == k
                        && entries[j].1.source_names().contains(p@);
                if j < i {
                    assert(source_attributed(entries, i as int, p@, k));
                    assert(before.contains(k));
                    let a = choose|a: int| 0 <= a < before.len() && before[a] == k;
                    assert(now[a] == k);
                } else {
                    assert(in_source);
                    assert(now[now.len() - 1] == k);
                }
            }
            if in_source {
                assert forall|a: int, b: int| 0 <= a < b < keys_view(out@).len()
                    implies keys_view(out@)[a] != keys_view(out@)[b] by {
                    if b == keys_view(out@).len() - 1 {
                        assert(keys_view(out@)[a] == before[a]);
                        assert(before.contains(before[a]));
                        assert(source_attributed(entries, i as int, p@, before[a]));
                        let j = choose|j: int|
                            0 <= j < i && (#[trigger] entries[j]).0 == before[a]
                                && entries[j].1.source_names().contains(p@);
                        assert(entries[j].0 != entries[i as int].0);
                        assert(keys_view(out@)[b] == entries[i as int].0);
                    } else {
                        assert(keys_view(out@)[a] == before[a]);
                        assert(keys_view(out@)[b] == before[b]);
                    }
                }
            }
        }
        i += 1;
    }
    proof {
        crate::assoc::lemma_entries_map_dom(entries);
        assert forall|k: Seq<Seq<char>>| #[trigger] keys_view(out@).contains(k)
            implies source_keys_of(cm, p@).contains(k) by {
            let j = choose|j: int|
                0 <= j < conns@.len() && (#[trigger] entries[j]).0 == k
                    && entries[j].1.source_names().contains(p@);
            crate::assoc::lemma_entries_map_index(entries, j);
        }
        assert forall|k: Seq<Seq<char>>| source_keys_of(cm, p@).contains(k)
            implies #[trigger] keys_view(out@).contains(k) by {
            assert(cm.dom().contains(k));
            let j = choose|j: int| 0 <= j < entries.len() && (#[trigger] entries[j]).0 == k;
            crate::assoc::lemma_entries_map_index(entries, j);
            assert(entries[j].1 == cm[k]);
            assert(source_attributed(entries, conns@.len() as int, p@, k));
        }
    }
    out
}

/// Collect the keys of the connections that list `p` on the sink side.
#[verifier::loop_isolation(false)]
fn collect_sink_keys(conns: &Vec<(Key, Connection)>, p: &Ident) -> (r: Vec<Key>)
    requires
        keys_distinct(keyed_entries(conns@)),
    ensures
        forall|a: int, b: int|
            0 <= a < b < keys_view(r@).len() ==> keys_view(r@)[a] != keys_view(r@)[b],
        forall|k: Seq<Seq<char>>| #[trigger]
            keys_view(r@).contains(k) <==> sink_keys_of(
                entries_map(keyed_entries(conns@)),
                p@,
            ).contains(k),
{
    let ghost entries = keyed_entries(conns@);
    let ghost cm = entries_map(entries);
    let mut out: Vec<Key> = Vec::new();
    let mut i: usize = 0;
    while i < conns.len()
        invariant
            0 <= i <= conns@.len(),
            forall|a: int, b: int|
                0 <= a < b < keys_view(out@).len() ==> keys_view(out@)[a] != keys_view(out@)[b],
            forall|k: Seq<Seq<char>>| #[trigger]
                keys_view(out@).contains(k) <==> sink_attributed(entries, i as int, p@, k),
        decreases conns@.len() - i,
    {
        proof {
            assert(entries[i as int] == (conns@[i as int].0@, conns@[i as int].1@));
        }
        let in_sink = match &conns[i].1.sink {
            Some(names) => crate::graph::contains_ident(names, p),
            None => false,
        };
        proof {
            assert(in_sink == entries[i as int].1.sink_names().contains(p@));
        }
        let ghost before = keys_view(out@);
        if in_sink {
            out.push(conns[i].0.clone());
            proof {
                assert(keys_view(out@) =~= before.push(entries[i as int].0));
            }
        }
        proof {
            let now = keys_view(out@);
            assert forall|k: Seq<Seq<char>>| #[trigger] now.contains(k)
                implies sink_attributed(entries, i + 1, p@, k) by {
                let a = choose|a: int| 0 <= a < now.len() && now[a] == k;
                if a < before.len() {
                    assert(before[a] == k);
                    assert(before.contains(k));
                    assert(sink_attributed(entries, i as int, p@, k));
                    let j = choose|j: int|
                        0 <= j < i && (#[trigger] entries[j]).0 == k
                            && entries[j].1.sink_names().contains(p@);
                    assert(0 <= j < i + 1 && entries[j].0 == k
                        && entries[j].1.sink_names().contains(p@));
                } else {
                    assert(in_sink && k == entries[i as int].0);
                }
            }
            assert forall|k: Seq<Seq<char>>| sink_attributed(entries, i + 1, p@, k)
                implies #[trigger] now.contains(k) by {
                let j = choose|j: int|
                    0 <= j < i + 1 && (#[trigger] entries[j]).0 == k
                        && entries[j].1.sink_names().contains(p@);
                if j < i {
                    assert(sink_attributed(entries, i as int, p@, k));
                    assert(before.contains(k));
                    let a = choose|a: int| 0 <= a < before.len() && before[a] == k;
                    assert(now[a] == k);
                } else {
                    assert(in_sink);
                    assert(now[now.len() - 1] == k);
                }
            }
            if in_sink {
                assert forall|a: int, b: int| 0 <= a < b < keys_view(out@).len()
                    implies keys_view(out@)[a] != keys_view(out@)[b] by {
                    if b == keys_view(out@).len() - 1 {
                        assert(keys_view(out@)[a] == before[a]);
                        assert(before.contains(before[a]));
                        assert(sink_attributed(entries, i as int, p@, before[a]));
                        let j = choose|j: int|
                            0 <= j < i && (#[trigger] entries[j]).0 == before[a]
                                && entries[j].1.sink_names().contains(p@);
                        assert(entries[j].0 != entries[i as int].0);
                        assert(keys_view(out@)[b] == entries[i as int].0);
                    } else {
                        assert(keys_view(out@)[a] == before[a]);
                        assert(keys_view(out@)[b] == before[b]);
                    }
                }
            }
        }
        i += 1;
    }
    proof {
        crate::assoc::lemma_entries_map_dom(entries);
        assert forall|k: Seq<Seq<char>>| #[trigger] keys_view(out@).contains(k)
            implies sink_keys_of(cm, p@).contains(k) by {
            let j = choose|j: int|
                0 <= j < conns@.len() && (#[trigger] entries[j]).0 == k
                    && entries[j].1.sink_names().contains(p@);
            crate::assoc::lemma_entries_map_index(entries, j);
        }
        assert forall|k: Seq<Seq<char>>| sink_keys_of(cm, p@).contains(k)
            implies #[trigger] keys_view(out@).contains(k) by {
            assert(cm.dom().contains(k));
            let j = choose|j: int| 0 <= j < entries.len() && (#[trigger] entries[j]).0 == k;
            crate::assoc::lemma_entries_map_index(entries, j);
            assert(entries[j].1 == cm[k]);
            assert(sink_attributed(entries, conns@.len() as int, p@, k));
        }
    }
    out
}

} // verus!
