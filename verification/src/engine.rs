//! The partitioned ledger engine: routing, worker state and the worker loop.
//!
//! Each worker owns the ledgers of the clients routed to it and applies its
//! private, ordered stream of transactions one at a time. The partition is
//! deterministic — a client id always maps to the same worker for a given
//! worker count — so no ledger is ever touched by two workers.

use std::collections::HashMap;

use vstd::prelude::*;

use crate::account::{ClientAccount, balanced};
use crate::ledger::{
    ClientState, LedgerModel, apply_checked, fresh_ledger, lemma_apply_preserves_balance,
};
use crate::transaction::Transaction;

verus! {

broadcast use
    vstd::std_specs::hash::group_hash_axioms,
    vstd::seq_lib::lemma_seq_contains_after_push;

/// The worker that owns a client: its id is `client mod num_workers`.
pub open spec fn spec_worker_index(client: u16, num_workers: usize) -> int {
    client as int % num_workers as int
}

/// Computes the partition: the index of the worker that owns `client` among
/// `num_workers` workers. The result depends on the two arguments alone, so
/// the same client maps to the same worker on every call and every run.
pub fn worker_index(client: u16, num_workers: usize) -> (r: usize)
    requires
        num_workers >= 1,
    ensures
        r == spec_worker_index(client, num_workers),
        r < num_workers,
{
    (client as usize) % num_workers
}

/// Relies on num_cpus::get: the number of logical CPUs of the machine,
/// documented to always be at least 1.
#[verifier::external_body]
fn cpu_count() -> (n: usize)
    ensures
        1 <= n,
{
    num_cpus::get()
}

/// The worker count a pool is sized to: the machine's logical CPU count,
/// which is at least 1 as every pool must be.
pub fn default_worker_count() -> (n: usize)
    ensures
        1 <= n,
{
    cpu_count()
}

/// The ledger a map holds for a client, or a fresh one where the client has
/// not been seen yet.
pub open spec fn ledger_at(m: Map<u16, LedgerModel>, client: u16) -> LedgerModel {
    if m.contains_key(client) {
        m[client]
    } else {
        fresh_ledger(client)
    }
}

/// What delivering one transaction does to a worker's map of ledgers: the
/// owning client's ledger (created lazily if absent) moves one step, every
/// other ledger is untouched.
pub open spec fn route_step(m: Map<u16, LedgerModel>, t: Transaction) -> Map<u16, LedgerModel> {
    m.insert(t.client, apply_checked(ledger_at(m, t.client), t))
}

/// A whole ordered stream of transactions applied to a map of ledgers, one
/// at a time, front first.
pub open spec fn run_all(m: Map<u16, LedgerModel>, txs: Seq<Transaction>) -> Map<u16, LedgerModel>
    decreases txs.len(),
{
    if txs.len() == 0 {
        m
    } else {
        run_all(route_step(m, txs[0]), txs.drop_first())
    }
}

/// The ledgers of the clients routed to one worker, keyed by client id.
///
/// The `clients` list records the ids in order of first appearance; it always
/// holds exactly the keys of the map, each once, so the final accounts can be
/// read out without walking the map.
pub struct WorkerLedgers {
    clients: Vec<u16>,
    states: HashMap<u16, ClientState>,
}

impl WorkerLedgers {
    /// The ledgers this worker has accumulated, as a map of models.
    pub closed spec fn view(&self) -> Map<u16, LedgerModel> {
        self.states@.map_values(|s: ClientState| s@)
    }

    /// The client-list bookkeeping invariant; established by [`Self::new`]
    /// and preserved by every method.
    pub closed spec fn wf(&self) -> bool {
        &&& self.clients@.no_duplicates()
        &&& forall|c: u16| self.clients@.contains(c) <==> self.states@.contains_key(c)
        &&& forall|c: u16|
            self.states@.contains_key(c) ==> (#[trigger] self.states@[c])@.account.client == c
    }

    /// An empty worker state: no clients, no ledgers.
    pub fn new() -> (r: Self)
        ensures
            r.wf(),
            r@ == Map::<u16, LedgerModel>::empty(),
    {
        let r = WorkerLedgers { clients: Vec::new(), states: HashMap::new() };
        proof {
            assert(r@ =~= Map::<u16, LedgerModel>::empty());
        }
        r
    }

    /// How many clients this worker has seen.
    pub fn len(&self) -> (r: usize)
        requires
            self.wf(),
        ensures
            r == self@.dom().len(),
    {
        proof {
            assert(self@.dom() =~= self.states@.dom());
        }
        self.states.len()
    }

    /// The ledger of one client, if this worker has seen it.
    pub fn get(&self, client: u16) -> (r: Option<&ClientState>)
        ensures
            match r {
                Some(s) => self@.contains_key(client) && s@ == self@[client],
                None => !self@.contains_key(client),
            },
    {
        self.states.get(&client)
    }

    /// Delivers one transaction: looks up or lazily creates the ledger of
    /// the transaction's client and applies the state machine to it.
    pub fn apply(&mut self, transaction: Transaction)
        requires
            old(self).wf(),
        ensures
            final(self).wf(),
            final(self)@ == route_step(old(self)@, transaction),
    {
        let client = transaction.client;
        let mut state: ClientState = match self.states.remove(&client) {
            Some(s) => s,
            None => {
                self.clients.push(client);
                ClientState::new(client)
            },
        };
        state.apply(transaction);
        self.states.insert(client, state);
        proof {
            assert forall|c: u16| self.clients@.contains(c) implies self.states@.contains_key(c)
            by {
                if c != client {
                    assert(old(self).clients@.contains(c));
                }
            }
            assert forall|c: u16| self.states@.contains_key(c) implies self.clients@.contains(c)
            by {
                if c != client {
                    assert(old(self).states@.contains_key(c));
                }
            }
            if !old(self).states@.contains_key(client) {
                assert(!old(self).clients@.contains(client));
                assert(self.clients@.no_duplicates());
            }
            assert(self@ =~= route_step(old(self)@, transaction));
        }
    }

    /// The final account of every client this worker has seen, one entry per
    /// client, in order of first appearance.
    pub fn accounts(&self) -> (r: Vec<ClientAccount>)
        requires
            self.wf(),
        ensures
            forall|i: int|
                0 <= i < r@.len() ==> self@.contains_key(#[trigger] r@[i].client) && r@[i]@
                    == self@[r@[i].client].account,
            forall|i: int, j: int| 0 <= i < j < r@.len() ==> r@[i].client != r@[j].client,
            forall|c: u16|
                self@.contains_key(c) ==> exists|i: int| 0 <= i < r@.len() && r@[i].client == c,
    {
        let mut out: Vec<ClientAccount> = Vec::new();
        let mut i: usize = 0;
        while i < self.clients.len()
            invariant
                self.wf(),
                0 <= i <= self.clients@.len(),
                out@.len() == i,
                forall|k: int| 0 <= k < i ==> (#[trigger] out@[k]).client == self.clients@[k],
                forall|k: int| 0 <= k < i ==> self@.contains_key(#[trigger] self.clients@[k]),
                forall|k: int|
                    0 <= k < i ==> (#[trigger] out@[k])@ == self@[self.clients@[k]].account,
            decreases self.clients@.len() - i,
        {
            let c = self.clients[i];
            assert(self.clients@.contains(c));
            match self.states.get(&c) {
                Some(state) => {
                    let acct = state.account;
                    proof {
                        assert(self.states@.contains_key(c));
                        assert(self@.contains_key(c));
                        assert((*state)@ == self@[c]);
                        assert(acct@ == self@[c].account);
                    }
                    out.push(acct);
                    proof {
                        assert(out@[i as int] == acct);
                    }
                },
                None => {
                    proof {
                        assert(false);
                    }
                },
            }
            i += 1;
        }
        proof {
            assert forall|c: u16| self@.contains_key(c) implies exists|i: int|
                0 <= i < out@.len() && out@[i].client == c by {
                assert(self.clients@.contains(c));
                let k = choose|k: int| 0 <= k < self.clients@.len() && self.clients@[k] == c;
                assert(out@[k].client == c);
            }
        }
        out
    }
}

/// What the router hands a worker: either one transaction to apply, or the
/// shutdown signal sent once the whole input has been routed.
#[derive(Debug, Clone, Copy)]
pub enum WorkerMessage {
    Transaction(Transaction),
    Shutdown,
}

/// The transactions a worker applies out of a message stream: everything up
/// to, and not including, the first shutdown signal.
pub open spec fn pending_transactions(msgs: Seq<WorkerMessage>) -> Seq<Transaction>
    decreases msgs.len(),
{
    if msgs.len() == 0 {
        Seq::empty()
    } else {
        match msgs[0] {
            WorkerMessage::Transaction(t) => seq![t] + pending_transactions(msgs.drop_first()),
            WorkerMessage::Shutdown => Seq::empty(),
        }
    }
}

/// One worker's whole life over an already-delivered message stream: apply
/// each transaction in order, stop at the first shutdown signal, hand back
/// the accumulated ledgers.
pub fn worker_run(messages: Vec<WorkerMessage>) -> (r: WorkerLedgers)
    ensures
        r.wf(),
        r@ == run_all(Map::<u16, LedgerModel>::empty(), pending_transactions(messages@)),
{
    let mut ledgers = WorkerLedgers::new();
    let mut i: usize = 0;
    proof {
        assert(messages@.skip(0) =~= messages@);
    }
    while i < messages.len()
        invariant
            0 <= i <= messages@.len(),
            ledgers.wf(),
            run_all(Map::<u16, LedgerModel>::empty(), pending_transactions(messages@)) == run_all(
                ledgers@,
                pending_transactions(messages@.skip(i as int)),
            ),
        decreases messages@.len() - i,
    {
        let message = messages[i];
        match message {
            WorkerMessage::Transaction(t) => {
                proof {
                    let rest = messages@.skip(i as int);
                    assert(rest[0] == messages@[i as int]);
                    assert(rest.drop_first() =~= messages@.skip(i as int + 1));
                    let pend = pending_transactions(rest);
                    assert(pend == seq![t] + pending_transactions(
                        messages@.skip(i as int + 1),
                    ));
                    assert(pend[0] == t);
                    assert(pend.drop_first() =~= pending_transactions(
                        messages@.skip(i as int + 1),
                    ));
                }
                ledgers.apply(t);
            },
            WorkerMessage::Shutdown => {
                proof {
                    let rest = messages@.skip(i as int);
                    assert(rest[0] == messages@[i as int]);
                    assert(pending_transactions(rest) =~= Seq::<Transaction>::empty());
                }
                return ledgers;
            },
        }
        i += 1;
    }
    proof {
        assert(messages@.skip(messages@.len() as int) =~= Seq::<WorkerMessage>::empty());
    }
    ledgers
}

/// One client's ledger driven by a stream of transactions on its own,
/// without any routing around it.
pub open spec fn run_ledger(s: LedgerModel, txs: Seq<Transaction>) -> LedgerModel
    decreases txs.len(),
{
    if txs.len() == 0 {
        s
    } else {
        run_ledger(apply_checked(s, txs[0]), txs.drop_first())
    }
}

/// The subsequence of a stream that concerns one client, in arrival order.
pub open spec fn for_client(txs: Seq<Transaction>, client: u16) -> Seq<Transaction>
    decreases txs.len(),
{
    if txs.len() == 0 {
        Seq::empty()
    } else if txs[0].client == client {
        seq![txs[0]] + for_client(txs.drop_first(), client)
    } else {
        for_client(txs.drop_first(), client)
    }
}

/// Law: after a whole stream is routed and applied, a client's final ledger
/// is exactly what its own subsequence produces on a lone ledger — the
/// transactions of every other client have no effect on it.
pub proof fn lemma_client_projection(m: Map<u16, LedgerModel>, txs: Seq<Transaction>, client: u16)
    ensures
        ledger_at(run_all(m, txs), client) == run_ledger(
            ledger_at(m, client),
            for_client(txs, client),
        ),
    decreases txs.len(),
{
    if txs.len() == 0 {
    } else {
        let t = txs[0];
        lemma_client_projection(route_step(m, t), txs.drop_first(), client);
        if t.client == client {
            let fc = for_client(txs, client);
            assert(fc == seq![t] + for_client(txs.drop_first(), client));
            assert(fc[0] == t);
            assert(fc.drop_first() =~= for_client(txs.drop_first(), client));
            assert(ledger_at(route_step(m, t), client) == apply_checked(ledger_at(m, client), t));
        } else {
            assert(ledger_at(route_step(m, t), client) == ledger_at(m, client));
        }
    }
}

/// Law (partition independence): two input streams that agree on one
/// client's own subsequence give that client the same final ledger, so
/// re-ordering transactions across *different* clients never changes any
/// client's balances.
pub proof fn lemma_partition_independence(
    m: Map<u16, LedgerModel>,
    txs1: Seq<Transaction>,
    txs2: Seq<Transaction>,
    client: u16,
)
    requires
        for_client(txs1, client) == for_client(txs2, client),
    ensures
        ledger_at(run_all(m, txs1), client) == ledger_at(run_all(m, txs2), client),
{
    lemma_client_projection(m, txs1, client);
    lemma_client_projection(m, txs2, client);
}

/// The subsequence of a stream that the router delivers to one worker: the
/// transactions whose client is owned by worker `w` of `num_workers`.
pub open spec fn for_worker(txs: Seq<Transaction>, w: int, num_workers: usize) -> Seq<Transaction>
    decreases txs.len(),
{
    if txs.len() == 0 {
        Seq::empty()
    } else if spec_worker_index(txs[0].client, num_workers) == w {
        seq![txs[0]] + for_worker(txs.drop_first(), w, num_workers)
    } else {
        for_worker(txs.drop_first(), w, num_workers)
    }
}

/// Some transaction of the stream concerns this client.
pub open spec fn mentions_client(txs: Seq<Transaction>, c: u16) -> bool {
    exists|k: int| 0 <= k < txs.len() && txs[k].client == c
}

/// A run creates no ledgers out of thin air: the final map holds exactly the
/// clients it started with plus the clients the stream mentions.
pub proof fn lemma_run_all_dom(m: Map<u16, LedgerModel>, txs: Seq<Transaction>, c: u16)
    ensures
        run_all(m, txs).contains_key(c) <==> m.contains_key(c) || mentions_client(txs, c),
    decreases txs.len(),
{
    if txs.len() == 0 {
    } else {
        let t = txs[0];
        lemma_run_all_dom(route_step(m, t), txs.drop_first(), c);
        if mentions_client(txs, c) {
            let k = choose|k: int| 0 <= k < txs.len() && txs[k].client == c;
            if k > 0 {
                assert(txs.drop_first()[k - 1].client == c);
                assert(mentions_client(txs.drop_first(), c));
            }
        }
        if mentions_client(txs.drop_first(), c) {
            let k = choose|k: int| 0 <= k < txs.drop_first().len() && txs.drop_first()[k].client == c;
            assert(txs[k + 1].client == c);
            assert(mentions_client(txs, c));
        }
        if t.client == c {
            assert(mentions_client(txs, c));
        }
    }
}

/// Every transaction a worker's subsequence mentions is owned by that
/// worker: the partition key of its client is `w`.
pub proof fn lemma_for_worker_owns(txs: Seq<Transaction>, w: int, num_workers: usize, c: u16)
    requires
        mentions_client(for_worker(txs, w, num_workers), c),
    ensures
        spec_worker_index(c, num_workers) == w,
    decreases txs.len(),
{
    if txs.len() == 0 {
    } else {
        let t = txs[0];
        let rest = for_worker(txs.drop_first(), w, num_workers);
        if spec_worker_index(t.client, num_workers) == w {
            let fw = seq![t] + rest;
            let k = choose|k: int| 0 <= k < fw.len() && fw[k].client == c;
            if k == 0 {
                assert(t.client == c);
            } else {
                assert(rest[k - 1].client == c);
                assert(mentions_client(rest, c));
                lemma_for_worker_owns(txs.drop_first(), w, num_workers, c);
            }
        } else {
            lemma_for_worker_owns(txs.drop_first(), w, num_workers, c);
        }
    }
}

/// Law (partition invariant): two different workers never end up holding the
/// same client, whatever the input stream — the merge of their final maps is
/// a disjoint union.
pub proof fn lemma_partition_disjoint(
    txs: Seq<Transaction>,
    w1: int,
    w2: int,
    num_workers: usize,
    c: u16,
)
    requires
        w1 != w2,
    ensures
        !(run_all(Map::empty(), for_worker(txs, w1, num_workers)).contains_key(c) && run_all(
            Map::empty(),
            for_worker(txs, w2, num_workers),
        ).contains_key(c)),
{
    if run_all(Map::empty(), for_worker(txs, w1, num_workers)).contains_key(c) && run_all(
        Map::empty(),
        for_worker(txs, w2, num_workers),
    ).contains_key(c) {
        lemma_run_all_dom(Map::empty(), for_worker(txs, w1, num_workers), c);
        lemma_run_all_dom(Map::empty(), for_worker(txs, w2, num_workers), c);
        lemma_for_worker_owns(txs, w1, num_workers, c);
        lemma_for_worker_owns(txs, w2, num_workers, c);
    }
}

/// Routing drops none of a client's transactions and keeps their order: the
/// owning worker's subsequence agrees with the whole stream on that client.
pub proof fn lemma_for_client_of_worker(txs: Seq<Transaction>, c: u16, num_workers: usize)
    requires
        num_workers >= 1,
    ensures
        for_client(for_worker(txs, spec_worker_index(c, num_workers), num_workers), c)
            == for_client(txs, c),
    decreases txs.len(),
{
    let w = spec_worker_index(c, num_workers);
    if txs.len() == 0 {
    } else {
        let t = txs[0];
        lemma_for_client_of_worker(txs.drop_first(), c, num_workers);
        let rest = for_worker(txs.drop_first(), w, num_workers);
        if spec_worker_index(t.client, num_workers) == w {
            let fw = seq![t] + rest;
            assert(fw[0] == t);
            assert(fw.drop_first() =~= rest);
            if t.client == c {
                assert(for_client(fw, c) == seq![t] + for_client(rest, c));
                assert(for_client(txs, c) == seq![t] + for_client(txs.drop_first(), c));
            } else {
                assert(for_client(fw, c) == for_client(rest, c));
            }
        } else {
            assert(t.client != c);
        }
    }
}

/// Law (the worker pool computes the sequential semantics): for every
/// client, the ledger its owning worker ends with equals the ledger a single
/// sequential run over the whole stream ends with.
pub proof fn lemma_partitioned_run_matches_sequential(
    txs: Seq<Transaction>,
    c: u16,
    num_workers: usize,
)
    requires
        num_workers >= 1,
    ensures
        ledger_at(
            run_all(
                Map::empty(),
                for_worker(txs, spec_worker_index(c, num_workers), num_workers),
            ),
            c,
        ) == ledger_at(run_all(Map::empty(), txs), c),
{
    let w = spec_worker_index(c, num_workers);
    lemma_for_client_of_worker(txs, c, num_workers);
    lemma_client_projection(Map::empty(), for_worker(txs, w, num_workers), c);
    lemma_client_projection(Map::empty(), txs, c);
}

/// Law: starting from ledgers whose accounts are all balanced — an empty map
/// among them — every account is balanced again after any whole run:
/// `total == available + held` holds at every observation point.
pub proof fn lemma_run_all_balanced(m: Map<u16, LedgerModel>, txs: Seq<Transaction>)
    requires
        forall|c: u16| m.contains_key(c) ==> balanced((#[trigger] m[c]).account),
    ensures
        forall|c: u16|
            run_all(m, txs).contains_key(c) ==> balanced((#[trigger] run_all(m, txs)[c]).account),
    decreases txs.len(),
{
    if txs.len() == 0 {
    } else {
        let t = txs[0];
        assert(balanced(ledger_at(m, t.client).account));
        lemma_apply_preserves_balance(ledger_at(m, t.client), t);
        assert forall|c: u16| route_step(m, t).contains_key(c) implies balanced(
            (#[trigger] route_step(m, t)[c]).account,
        ) by {
            if c != t.client {
                assert(route_step(m, t)[c] == m[c]);
            }
        }
        lemma_run_all_balanced(route_step(m, t), txs.drop_first());
        assert(run_all(m, txs) == run_all(route_step(m, t), txs.drop_first()));
    }
}

} // verus!
