use gossip::{
    Diff, Gossip, GossipErr, GossipErrKind, GossipHandler, NodeState, RawNode, VersionSummary,
    Versioned, VersionedValue,
};
use std::cell::{Cell, RefCell};
use std::sync::{Arc, Mutex};

#[derive(PartialEq, Clone, Debug)]
struct Node {
    address: &'static str,
}

#[derive(Debug, Clone, PartialEq)]
struct Value {
    ver: i64,
}

impl Versioned for Value {
    fn version_spec(&self) -> i64 {
        self.ver
    }

    fn version(&self) -> i64 {
        self.ver
    }
}

struct LocalServer {
    local_node: Node,
    gossip: Gossip<Node, Value>,
}

impl LocalServer {
    fn new(local_node: Node, seeds: Vec<Node>) -> LocalServer {
        LocalServer { local_node: local_node.clone(), gossip: Gossip::new(local_node.clone(), seeds) }
    }

    fn gossip(&mut self, handler: &Handler) -> Result<(), GossipErr> {
        self.gossip.gossip(handler)
    }
}

struct Handler {
    servers: Vec<Arc<Mutex<LocalServer>>>,
    contacted: RefCell<Vec<&'static str>>,
}

impl Handler {
    fn peer(&self, address: &'static str) -> Option<Arc<Mutex<LocalServer>>> {
        for server in &self.servers {
            if let Ok(guard) = server.try_lock() {
                if guard.local_node.address == address {
                    return Some(server.clone());
                }
            }
        }
        None
    }
}

impl GossipHandler<Node, Value> for Handler {
    fn syn(&self, nodes: Vec<&RawNode<Node>>, versions: VersionSummary) -> Result<Diff<Value>, GossipErr> {
        let address = nodes[0].raw.address;
        self.contacted.borrow_mut().push(address);
        match self.peer(address) {
            Some(server) => Ok(server.lock().unwrap().gossip.receiving_syn(versions)),
            None => Err(GossipErr::syn_failed()),
        }
    }

    fn ack(&self, updates: Vec<(String, &Value)>) -> Result<(), GossipErr> {
        let address = *self.contacted.borrow().last().unwrap();
        match self.peer(address) {
            Some(server) => {
                let mut guard = server.lock().unwrap();
                for (k, v) in updates {
                    guard.gossip.data.merge(k, v.clone());
                }
                Ok(())
            },
            None => Err(GossipErr::ack_failed()),
        }
    }
}

#[test]
fn it_works() {
    let node1 = Node { address: "1" };
    let node2 = Node { address: "2" };
    let node3 = Node { address: "3" };

    let seeds = vec![node1.clone(), node2.clone(), node3.clone()];
    let server1 = Arc::new(Mutex::new(LocalServer::new(node1, seeds.clone())));
    let server2 = Arc::new(Mutex::new(LocalServer::new(node2, seeds.clone())));
    let server3 = Arc::new(Mutex::new(LocalServer::new(node3, seeds)));
    let servers = vec![server1.clone(), server2.clone(), server3.clone()];
    let handler = Handler { servers, contacted: RefCell::new(Vec::new()) };
    {
        let mut s1 = server1.lock().unwrap();
        let r = s1.gossip(&handler);
        assert_eq!(r, Ok(()));
    }
    let contacted = handler.contacted.borrow();
    assert_eq!(contacted.len(), 1);
    assert!(contacted[0] == "2" || contacted[0] == "3");
}

#[test]
fn three_servers_converge_over_rounds() {
    let seeds = vec![Node { address: "1" }, Node { address: "2" }, Node { address: "3" }];
    let servers: Vec<Arc<Mutex<LocalServer>>> =
        seeds.iter().map(|n| Arc::new(Mutex::new(LocalServer::new(n.clone(), seeds.clone())))).collect();
    servers[0].lock().unwrap().gossip.data.merge("x".to_string(), Value { ver: 1 });
    servers[1].lock().unwrap().gossip.data.merge("x".to_string(), Value { ver: 3 });
    servers[1].lock().unwrap().gossip.data.merge("y".to_string(), Value { ver: 1 });
    servers[2].lock().unwrap().gossip.data.merge("z".to_string(), Value { ver: 7 });
    let handler = Handler { servers: servers.clone(), contacted: RefCell::new(Vec::new()) };
    for _ in 0..60 {
        for server in &servers {
            let mut guard = server.lock().unwrap();
            assert_eq!(guard.gossip(&handler), Ok(()));
        }
    }
    for server in &servers {
        let guard = server.lock().unwrap();
        let data = &guard.gossip.data;
        assert_eq!(data.len(), 3);
        assert_eq!(data.get(&"x".to_string()), Some(&Value { ver: 3 }));
        assert_eq!(data.get(&"y".to_string()), Some(&Value { ver: 1 }));
        assert_eq!(data.get(&"z".to_string()), Some(&Value { ver: 7 }));
    }
}

type Entry = VersionedValue<&'static str>;

fn entry(version: i64, payload: &'static str) -> Entry {
    VersionedValue { version, payload }
}

fn key(k: &str) -> String {
    k.to_string()
}

fn contents(g: &Gossip<&'static str, Entry>) -> Vec<(String, Entry)> {
    let mut out = Vec::new();
    for i in 0..g.data.len() {
        out.push((g.data.key_at(i).clone(), g.data.value_at(i).clone()));
    }
    out
}

/// A transport that reaches one peer held in the same process.
struct Loopback {
    peer: RefCell<Gossip<&'static str, Entry>>,
    fail_syn: bool,
    fail_ack: bool,
    syn_calls: Cell<usize>,
    ack_calls: Cell<usize>,
    seen_targets: RefCell<Vec<&'static str>>,
    seen_summary: RefCell<Vec<(String, i64)>>,
    seen_updates: RefCell<Vec<(String, Entry)>>,
}

impl Loopback {
    fn to(peer: Gossip<&'static str, Entry>) -> Loopback {
        Loopback {
            peer: RefCell::new(peer),
            fail_syn: false,
            fail_ack: false,
            syn_calls: Cell::new(0),
            ack_calls: Cell::new(0),
            seen_targets: RefCell::new(Vec::new()),
            seen_summary: RefCell::new(Vec::new()),
            seen_updates: RefCell::new(Vec::new()),
        }
    }
}

impl GossipHandler<&'static str, Entry> for Loopback {
    fn syn(
        &self,
        nodes: Vec<&RawNode<&'static str>>,
        versions: VersionSummary,
    ) -> Result<Diff<Entry>, GossipErr> {
        self.syn_calls.set(self.syn_calls.get() + 1);
        for n in &nodes {
            self.seen_targets.borrow_mut().push(n.raw);
        }
        for i in 0..versions.len() {
            self.seen_summary.borrow_mut().push((versions.key_at(i).clone(), versions.version_at(i)));
        }
        if self.fail_syn {
            return Err(GossipErr::syn_failed());
        }
        Ok(self.peer.borrow_mut().receiving_syn(versions))
    }

    fn ack(&self, updates: Vec<(String, &Entry)>) -> Result<(), GossipErr> {
        self.ack_calls.set(self.ack_calls.get() + 1);
        for (k, v) in &updates {
            self.seen_updates.borrow_mut().push((k.clone(), (*v).clone()));
        }
        if self.fail_ack {
            return Err(GossipErr::ack_failed());
        }
        for (k, v) in updates {
            self.peer.borrow_mut().data.merge(k, v.clone());
        }
        Ok(())
    }
}

/// A transport that answers every summary with a fixed diff.
struct Scripted {
    needs: Vec<String>,
    changes: Vec<(String, Entry)>,
    acked: RefCell<Vec<(String, Entry)>>,
}

impl GossipHandler<&'static str, Entry> for Scripted {
    fn select_nodes<'a>(
        &self,
        nodes: Vec<&'a RawNode<&'static str>>,
    ) -> Result<Vec<&'a RawNode<&'static str>>, GossipErr> {
        Ok(nodes)
    }

    fn syn(
        &self,
        _nodes: Vec<&RawNode<&'static str>>,
        _versions: VersionSummary,
    ) -> Result<Diff<Entry>, GossipErr> {
        Ok(Diff { needs: self.needs.clone(), changes: self.changes.clone() })
    }

    fn ack(&self, updates: Vec<(String, &Entry)>) -> Result<(), GossipErr> {
        for (k, v) in updates {
            self.acked.borrow_mut().push((k, v.clone()));
        }
        Ok(())
    }
}

#[test]
fn new_engine_knows_its_seeds() {
    let g: Gossip<&'static str, Entry> = Gossip::new("a", vec!["a", "b", "c"]);
    assert_eq!(g.local_node, "a");
    assert_eq!(g.data.len(), 0);
    assert_eq!(g.nodes.len(), 3);
    let raws: Vec<&'static str> = g.nodes.iter().map(|n| n.raw).collect();
    assert_eq!(raws, vec!["a", "b", "c"]);
    for n in &g.nodes {
        assert_eq!(n.state, NodeState::On);
        assert!(n.seed);
    }
    let lonely: Gossip<&'static str, Entry> = Gossip::new("a", Vec::new());
    assert!(lonely.nodes.is_empty());
}

#[test]
fn convergence_scenario() {
    let mut a: Gossip<&'static str, Entry> = Gossip::new("A", vec!["A", "B"]);
    a.data.merge(key("x"), entry(1, "v1"));
    let mut b: Gossip<&'static str, Entry> = Gossip::new("B", vec!["A", "B"]);
    b.data.merge(key("x"), entry(2, "v1"));
    b.data.merge(key("y"), entry(1, "v2"));

    let handler = Loopback::to(b);
    assert_eq!(a.gossip(&handler), Ok(()));

    assert_eq!(*handler.seen_targets.borrow(), vec!["B"]);
    assert_eq!(*handler.seen_summary.borrow(), vec![(key("x"), 1)]);
    assert!(handler.seen_updates.borrow().is_empty());
    assert_eq!(handler.syn_calls.get(), 1);
    assert_eq!(handler.ack_calls.get(), 1);

    let expected = vec![(key("x"), entry(2, "v1")), (key("y"), entry(1, "v2"))];
    assert_eq!(contents(&a), expected);
    assert_eq!(contents(&handler.peer.borrow()), expected);
}

#[test]
fn round_pushes_what_the_peer_needs() {
    let mut a: Gossip<&'static str, Entry> = Gossip::new("A", vec!["A", "B"]);
    a.data.merge(key("x"), entry(5, "a's x"));
    a.data.merge(key("only_a"), entry(1, "a"));
    let mut b: Gossip<&'static str, Entry> = Gossip::new("B", vec!["A", "B"]);
    b.data.merge(key("x"), entry(2, "b's x"));
    b.data.merge(key("only_b"), entry(3, "b"));

    let handler = Loopback::to(b);
    assert_eq!(a.gossip(&handler), Ok(()));

    assert_eq!(
        *handler.seen_updates.borrow(),
        vec![(key("x"), entry(5, "a's x")), (key("only_a"), entry(1, "a"))]
    );
    assert_eq!(
        contents(&a),
        vec![(key("x"), entry(5, "a's x")), (key("only_a"), entry(1, "a")), (key("only_b"), entry(3, "b"))]
    );
    assert_eq!(
        contents(&handler.peer.borrow()),
        vec![(key("x"), entry(5, "a's x")), (key("only_b"), entry(3, "b")), (key("only_a"), entry(1, "a"))]
    );
}

#[test]
fn single_node_cluster_aborts_without_change() {
    let mut a: Gossip<&'static str, Entry> = Gossip::new("A", vec!["A"]);
    a.data.merge(key("x"), entry(1, "v1"));
    let handler = Loopback::to(Gossip::new("B", vec!["B"]));
    let r = a.gossip(&handler);
    assert_eq!(r, Err(GossipErr { kind: GossipErrKind::NoPeersAvailable }));
    assert_eq!(handler.syn_calls.get(), 0);
    assert_eq!(handler.ack_calls.get(), 0);
    assert_eq!(contents(&a), vec![(key("x"), entry(1, "v1"))]);
    assert_eq!(a.nodes.len(), 1);
}

#[test]
fn cluster_without_nodes_aborts_without_change() {
    let mut a: Gossip<&'static str, Entry> = Gossip::new("A", Vec::new());
    a.data.merge(key("x"), entry(1, "v1"));
    let handler = Loopback::to(Gossip::new("B", vec!["B"]));
    assert_eq!(a.gossip(&handler), Err(GossipErr::no_peers()));
    assert_eq!(handler.syn_calls.get(), 0);
    assert_eq!(contents(&a), vec![(key("x"), entry(1, "v1"))]);
}

#[test]
fn open_round_without_peers_fails() {
    let a: Gossip<&'static str, Entry> = Gossip::new("A", vec!["A", "A"]);
    let handler = Loopback::to(Gossip::new("B", vec!["B"]));
    let r = a.open_round(&handler);
    assert_eq!(r.err(), Some(GossipErr::no_peers()));
    assert_eq!(handler.syn_calls.get(), 0);
}

#[test]
fn failed_syn_leaves_store_unchanged() {
    let mut a: Gossip<&'static str, Entry> = Gossip::new("A", vec!["A", "B"]);
    a.data.merge(key("x"), entry(1, "v1"));
    let mut b: Gossip<&'static str, Entry> = Gossip::new("B", vec!["A", "B"]);
    b.data.merge(key("x"), entry(2, "v1"));
    let mut handler = Loopback::to(b);
    handler.fail_syn = true;
    assert_eq!(a.gossip(&handler), Err(GossipErr { kind: GossipErrKind::SynFailed }));
    assert_eq!(handler.syn_calls.get(), 1);
    assert_eq!(handler.ack_calls.get(), 0);
    assert_eq!(contents(&a), vec![(key("x"), entry(1, "v1"))]);
}

#[test]
fn failed_ack_keeps_the_merge() {
    let mut a: Gossip<&'static str, Entry> = Gossip::new("A", vec!["A", "B"]);
    a.data.merge(key("x"), entry(1, "v1"));
    a.data.merge(key("w"), entry(4, "w"));
    let mut b: Gossip<&'static str, Entry> = Gossip::new("B", vec!["A", "B"]);
    b.data.merge(key("x"), entry(2, "v1"));
    let mut handler = Loopback::to(b);
    handler.fail_ack = true;
    assert_eq!(a.gossip(&handler), Err(GossipErr { kind: GossipErrKind::AckFailed }));
    assert_eq!(contents(&a), vec![(key("x"), entry(2, "v1")), (key("w"), entry(4, "w"))]);
    assert_eq!(contents(&handler.peer.borrow()), vec![(key("x"), entry(2, "v1"))]);

    handler.fail_ack = false;
    assert_eq!(a.gossip(&handler), Ok(()));
    assert_eq!(
        contents(&handler.peer.borrow()),
        vec![(key("x"), entry(2, "v1")), (key("w"), entry(4, "w"))]
    );
}

#[test]
fn needed_keys_that_are_missing_are_skipped() {
    let mut a: Gossip<&'static str, Entry> = Gossip::new("A", vec!["A", "B"]);
    a.data.merge(key("x"), entry(1, "x1"));
    let handler = Scripted {
        needs: vec![key("ghost"), key("x"), key("y")],
        changes: vec![(key("y"), entry(2, "y2")), (key("x"), entry(1, "other x1"))],
        acked: RefCell::new(Vec::new()),
    };
    assert_eq!(a.gossip(&handler), Ok(()));
    assert_eq!(contents(&a), vec![(key("x"), entry(1, "x1")), (key("y"), entry(2, "y2"))]);
    assert_eq!(*handler.acked.borrow(), vec![(key("x"), entry(1, "x1")), (key("y"), entry(2, "y2"))]);
}

#[test]
fn close_round_merges_then_resolves() {
    let mut a: Gossip<&'static str, Entry> = Gossip::new("A", vec!["A", "B"]);
    a.data.merge(key("x"), entry(3, "x3"));
    let handler =
        Scripted { needs: Vec::new(), changes: Vec::new(), acked: RefCell::new(Vec::new()) };
    let diff = Diff {
        needs: vec![key("z"), key("x")],
        changes: vec![(key("x"), entry(2, "x2")), (key("z"), entry(1, "z1"))],
    };
    assert_eq!(a.close_round(&handler, diff), Ok(()));
    assert_eq!(contents(&a), vec![(key("x"), entry(3, "x3")), (key("z"), entry(1, "z1"))]);
    assert_eq!(*handler.acked.borrow(), vec![(key("z"), entry(1, "z1")), (key("x"), entry(3, "x3"))]);
}

#[test]
fn repeating_a_round_changes_nothing_more() {
    let mut a: Gossip<&'static str, Entry> = Gossip::new("A", vec!["A", "B"]);
    a.data.merge(key("x"), entry(1, "x1"));
    let handler = Scripted {
        needs: Vec::new(),
        changes: vec![(key("x"), entry(2, "x2")), (key("y"), entry(1, "y1"))],
        acked: RefCell::new(Vec::new()),
    };
    assert_eq!(a.gossip(&handler), Ok(()));
    let once = contents(&a);
    assert_eq!(a.gossip(&handler), Ok(()));
    assert_eq!(contents(&a), once);
    assert_eq!(once, vec![(key("x"), entry(2, "x2")), (key("y"), entry(1, "y1"))]);
}

#[test]
fn receiving_syn_answers_with_the_diff_and_changes_nothing() {
    let mut b: Gossip<&'static str, Entry> = Gossip::new("B", vec!["A", "B"]);
    b.data.merge(key("x"), entry(2, "v1"));
    b.data.merge(key("y"), entry(1, "v2"));
    let mut summary = VersionSummary::new();
    summary.insert(key("x"), 1);
    let d = b.receiving_syn(summary);
    assert!(d.needs.is_empty());
    assert_eq!(d.changes, vec![(key("x"), entry(2, "v1")), (key("y"), entry(1, "v2"))]);
    assert_eq!(contents(&b), vec![(key("x"), entry(2, "v1")), (key("y"), entry(1, "v2"))]);
}

#[test]
fn versioned_value_reports_its_version() {
    assert_eq!(entry(42, "p").version(), 42);
    assert_eq!(entry(-1, "p").version(), -1);
}

/// A transport that fails at a chosen step, always with the same error.
struct Failing {
    at_select: bool,
    at_syn: bool,
    error: GossipErr,
}

impl GossipHandler<&'static str, Entry> for Failing {
    fn select_nodes<'a>(
        &self,
        nodes: Vec<&'a RawNode<&'static str>>,
    ) -> Result<Vec<&'a RawNode<&'static str>>, GossipErr> {
        if self.at_select {
            Err(self.error)
        } else {
            Ok(nodes)
        }
    }

    fn syn(
        &self,
        _nodes: Vec<&RawNode<&'static str>>,
        _versions: VersionSummary,
    ) -> Result<Diff<Entry>, GossipErr> {
        if self.at_syn {
            Err(self.error)
        } else {
            Ok(Diff { needs: Vec::new(), changes: vec![(key("n"), entry(1, "new"))] })
        }
    }

    fn ack(&self, _updates: Vec<(String, &Entry)>) -> Result<(), GossipErr> {
        Err(self.error)
    }
}

#[test]
fn round_error_names_the_step_that_failed() {
    let errors = [GossipErr::no_peers(), GossipErr::syn_failed(), GossipErr::ack_failed()];
    for error in errors {
        let mut a: Gossip<&'static str, Entry> = Gossip::new("A", vec!["A", "B"]);
        a.data.merge(key("x"), entry(1, "x1"));

        let r = a.gossip(&Failing { at_select: true, at_syn: false, error });
        assert_eq!(r, Err(GossipErr { kind: GossipErrKind::NoPeersAvailable }));
        assert_eq!(contents(&a), vec![(key("x"), entry(1, "x1"))]);

        let r = a.gossip(&Failing { at_select: false, at_syn: true, error });
        assert_eq!(r, Err(GossipErr { kind: GossipErrKind::SynFailed }));
        assert_eq!(contents(&a), vec![(key("x"), entry(1, "x1"))]);

        let r = a.gossip(&Failing { at_select: false, at_syn: false, error });
        assert_eq!(r, Err(GossipErr { kind: GossipErrKind::AckFailed }));
        assert_eq!(contents(&a), vec![(key("x"), entry(1, "x1")), (key("n"), entry(1, "new"))]);
    }
}

#[test]
fn default_selection_draws_one_of_the_given_nodes() {
    let handler = Loopback::to(Gossip::new("B", vec!["B"]));
    let nodes = vec![RawNode::seed("a"), RawNode::seed("b"), RawNode::seed("c")];
    for _ in 0..200 {
        let given: Vec<&RawNode<&'static str>> = nodes.iter().collect();
        let chosen = handler.select_nodes(given).unwrap();
        assert_eq!(chosen.len(), 1);
        assert!(nodes.iter().any(|n| std::ptr::eq(n, chosen[0])));
    }
    let one = vec![RawNode::seed("only")];
    let chosen = handler.select_nodes(one.iter().collect()).unwrap();
    assert_eq!(chosen.len(), 1);
    assert_eq!(chosen[0].raw, "only");
}

#[test]
fn default_selection_fails_without_nodes() {
    let handler = Loopback::to(Gossip::new("B", vec!["B"]));
    let r = handler.select_nodes(Vec::new());
    assert_eq!(r.err(), Some(GossipErr { kind: GossipErrKind::NoPeersAvailable }));
}
