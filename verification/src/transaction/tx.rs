//! The transaction manager: transaction numbers and the state of each transaction.
//!
//! Numbers grow from 1 on; 0 is the bootstrap's and counts as committed. The next number is kept
//! in the `TXLOG` file, eight bytes, little-endian, so that no number is given out twice. A
//! transaction that the state table does not know counts as aborted.

use std::collections::HashMap;
use vstd::prelude::*;
use crate::bytes::{get_le, le_at, le_bytes, le_vec, lemma_le_bytes_len, lemma_le_value_of_bytes,
    lemma_pow256};
use crate::error::{catalog_error, DbResult, ErrorModel};
use crate::storage::tuple::{answers, visible, TxId};

verus! {

/// The state of a transaction.
#[derive(Debug, Clone, Copy, PartialEq, Eq, Structural)]
pub enum TxState {
    Active,
    Committed,
    Aborted,
}

/// Gives out transaction numbers and keeps the state of each transaction.
#[derive(Debug)]
pub struct TxManager {
    next_id: TxId,
    states: HashMap<TxId, TxState>,
}

/// The next number and the states of a transaction manager.
pub struct TxModel {
    pub next_id: int,
    pub states: Map<TxId, TxState>,
}

impl TxModel {
    /// Every known transaction has a number below the next one.
    pub open spec fn wf(self) -> bool {
        forall|t: TxId| #[trigger] self.states.contains_key(t) ==> t < self.next_id
    }

    /// The state of a transaction; that of number 0 is always committed.
    pub open spec fn state_of(self, t: TxId) -> Option<TxState> {
        if t == 0 {
            Some(TxState::Committed)
        } else if self.states.contains_key(t) {
            Some(self.states[t])
        } else {
            None
        }
    }

    /// Whether transaction `t` has committed.
    pub open spec fn committed(self, t: TxId) -> bool {
        self.state_of(t) == Some(TxState::Committed)
    }

    /// Whether transaction `t` is in the state table as active.
    pub open spec fn active(self, t: TxId) -> bool {
        self.states.contains_key(t) && self.states[t] == TxState::Active
    }

    /// The manager after the next transaction has begun.
    pub open spec fn begun(self) -> TxModel {
        TxModel {
            next_id: self.next_id + 1,
            states: self.states.insert(self.next_id as u64, TxState::Active),
        }
    }

    /// The manager after transaction `t` came to the end `state`, if it was active.
    pub open spec fn ended(self, t: TxId, state: TxState) -> TxModel {
        if self.active(t) {
            TxModel { next_id: self.next_id, states: self.states.insert(t, state) }
        } else {
            self
        }
    }
}

impl View for TxManager {
    type V = TxModel;

    closed spec fn view(&self) -> TxModel {
        TxModel { next_id: self.next_id as int, states: self.states@ }
    }
}

impl TxManager {
    /// The manager of a database, from the bytes of its `TXLOG` file; a database without one
    /// starts from 1.
    pub fn open(txlog: Option<&[u8]>) -> (r: DbResult<Self>)
        ensures
            match r {
                Ok(m) => {
                    &&& txlog is Some ==> txlog->0@.len() >= 8
                    &&& m@.states == Map::<TxId, TxState>::empty()
                    &&& m@.next_id == if txlog is Some {
                        le_at(txlog->0@, 0, 8)
                    } else {
                        1
                    }
                },
                Err(e) => {
                    &&& txlog is Some
                    &&& txlog->0@.len() < 8
                    &&& e@ == ErrorModel::Catalog("TXLOG is corrupted (too short)"@)
                },
            },
    {
        let next_id: TxId = match txlog {
            Some(bytes) => {
                if bytes.len() < 8 {
                    return Err(catalog_error("TXLOG is corrupted (too short)"));
                }
                get_le(bytes, 0, 8)
            }
            None => 1,
        };
        Ok(Self::new_in_memory(next_id))
    }

    /// A manager that gives out numbers from `next_id` on.
    pub fn new_in_memory(next_id: TxId) -> (r: Self)
        ensures
            r@.next_id == next_id,
            r@.states == Map::<TxId, TxState>::empty(),
    {
        Self { next_id, states: HashMap::new() }
    }

    /// The bytes of the `TXLOG` file: the next number.
    pub fn txlog_bytes(&self) -> (r: Vec<u8>)
        ensures
            r@ == le_bytes(self@.next_id as nat, 8),
    {
        le_vec(self.next_id, 8)
    }

    /// Takes the next number, which is used up even where the transaction does not begin.
    pub fn allocate(&mut self) -> (r: TxId)
        requires
            old(self)@.next_id < u64::MAX,
        ensures
            r == old(self)@.next_id,
            final(self)@.next_id == old(self)@.next_id + 1,
            final(self)@.states == old(self)@.states,
    {
        let txid: TxId = self.next_id;
        self.next_id = self.next_id + 1;
        txid
    }

    /// Marks a transaction active, once its number is safely on file.
    pub fn activate(&mut self, txid: TxId)
        ensures
            final(self)@.next_id == old(self)@.next_id,
            final(self)@.states == old(self)@.states.insert(txid, TxState::Active),
    {
        self.states.insert(txid, TxState::Active);
    }

    /// Begins a transaction and gives its number.
    pub fn begin(&mut self) -> (r: DbResult<TxId>)
        requires
            old(self)@.next_id < u64::MAX,
        ensures
            r is Ok,
            r->Ok_0 == old(self)@.next_id,
            final(self)@ == old(self)@.begun(),
    {
        let txid: TxId = self.allocate();
        self.activate(txid);
        Ok(txid)
    }

    /// Commits a transaction; `false` where it was not active.
    pub fn commit(&mut self, txid: TxId) -> (r: bool)
        ensures
            r == old(self)@.active(txid),
            final(self)@ == old(self)@.ended(txid, TxState::Committed),
    {
        self.end(txid, TxState::Committed)
    }

    /// Aborts a transaction; `false` where it was not active.
    pub fn abort(&mut self, txid: TxId) -> (r: bool)
        ensures
            r == old(self)@.active(txid),
            final(self)@ == old(self)@.ended(txid, TxState::Aborted),
    {
        self.end(txid, TxState::Aborted)
    }

    fn end(&mut self, txid: TxId, state: TxState) -> (r: bool)
        ensures
            r == old(self)@.active(txid),
            final(self)@ == old(self)@.ended(txid, state),
    {
        if self.is_active(txid) {
            self.states.insert(txid, state);
            true
        } else {
            false
        }
    }

    /// Whether a transaction has committed.
    pub fn is_committed(&self, txid: TxId) -> (r: bool)
        ensures
            r == self@.committed(txid),
    {
        if txid == 0 {
            return true;
        }
        match self.states.get(&txid) {
            Some(s) => *s == TxState::Committed,
            None => false,
        }
    }

    /// Whether a transaction is active.
    pub fn is_active(&self, txid: TxId) -> (r: bool)
        ensures
            r == self@.active(txid),
    {
        match self.states.get(&txid) {
            Some(s) => *s == TxState::Active,
            None => false,
        }
    }

    /// The state of a transaction, where it is known.
    pub fn state(&self, txid: TxId) -> (r: Option<TxState>)
        ensures
            r == self@.state_of(txid),
    {
        if txid == 0 {
            return Some(TxState::Committed);
        }
        match self.states.get(&txid) {
            Some(s) => Some(*s),
            None => None,
        }
    }

    /// The number that the next transaction gets.
    pub fn next_id(&self) -> (r: TxId)
        ensures
            r == self@.next_id,
    {
        self.next_id
    }

    /// A function that tells which transactions have committed.
    pub fn committed_checker<'a>(&'a self) -> (f: impl Fn(TxId) -> bool + 'a)
        ensures
            forall|t: TxId| #[trigger] call_requires(f, (t,)),
            forall|t: TxId, b: bool| #[trigger]
                call_ensures(f, (t,), b) ==> b == self@.committed(t),
            answers(f, |t: TxId| self@.committed(t)),
    {
        move |txid: TxId| -> (b: bool)
            ensures
                b == self@.committed(txid),
            { self.is_committed(txid) }
    }
}

// ── Laws of transactions ──

/// A transaction that begins gets a number that no known transaction has, and is active.
pub proof fn law_begin_is_fresh(m: TxModel)
    requires
        m.wf(),
        0 <= m.next_id <= u64::MAX,
    ensures
        !m.states.contains_key(m.next_id as u64),
        m.begun().active(m.next_id as u64),
        m.begun().wf(),
        forall|t: TxId| t != m.next_id ==> m.begun().state_of(t) == m.state_of(t),
{
}

/// A transaction that has committed or aborted stays so, whatever else begins or ends.
pub proof fn law_ended_is_final(m: TxModel, t: TxId, u: TxId, state: TxState)
    requires
        m.wf(),
        0 <= m.next_id <= u64::MAX,
        m.states.contains_key(t),
        m.states[t] != TxState::Active,
    ensures
        m.ended(u, state).state_of(t) == m.state_of(t),
        m.begun().state_of(t) == m.state_of(t),
{
}

/// Ending a transaction keeps the order of the numbers, sets its state where it was active, and
/// changes no other transaction. Ending it a second time changes nothing.
pub proof fn law_end_once(m: TxModel, t: TxId, first: TxState, second: TxState)
    requires
        m.wf(),
        m.active(t),
        first != TxState::Active,
    ensures
        m.ended(t, first).wf(),
        m.ended(t, first).states[t] == first,
        forall|u: TxId| u != t ==> m.ended(t, first).state_of(u) == m.state_of(u),
        !m.ended(t, first).active(t),
        m.ended(t, first).ended(t, second) == m.ended(t, first),
{
}

/// The bootstrap's transaction counts as committed, whatever the state table says.
pub proof fn law_bootstrap_is_committed(m: TxModel)
    ensures
        m.committed(0),
{
}

/// A transaction that the table does not know counts as not committed.
pub proof fn law_unknown_is_not_committed(m: TxModel, t: TxId)
    requires
        t != 0,
        !m.states.contains_key(t),
    ensures
        !m.committed(t),
{
}

/// A call that changes a transaction manager.
pub enum TxStep {
    Begin,
    Commit(TxId),
    Abort(TxId),
}

/// The manager after the first `n` of some calls.
pub open spec fn after(m: TxModel, steps: Seq<TxStep>, n: int) -> TxModel
    decreases n,
{
    if n <= 0 {
        m
    } else {
        let before = after(m, steps, n - 1);
        match steps[n - 1] {
            TxStep::Begin => before.begun(),
            TxStep::Commit(t) => before.ended(t, TxState::Committed),
            TxStep::Abort(t) => before.ended(t, TxState::Aborted),
        }
    }
}

/// Whether call `i` commits transaction `t`: the transaction is active, so that the call gives
/// `true`.
pub open spec fn commits(m: TxModel, steps: Seq<TxStep>, i: int, t: TxId) -> bool {
    steps[i] == TxStep::Commit(t) && after(m, steps, i).active(t)
}

/// From an empty state table on, a transaction counts as committed if and only if its number is 0
/// or a call of `commit` for it gave `true`; and then its state is that of a committed one.
pub proof fn law_committed_by_commit(m: TxModel, steps: Seq<TxStep>, n: int, t: TxId)
    requires
        m.states == Map::<TxId, TxState>::empty(),
        0 <= n <= steps.len(),
        0 <= m.next_id,
        m.next_id + n <= u64::MAX,
    ensures
        after(m, steps, n).wf(),
        m.next_id <= after(m, steps, n).next_id <= m.next_id + n,
        after(m, steps, n).committed(t) <==> t == 0 || exists|i: int|
            0 <= i < n && #[trigger] commits(m, steps, i, t),
        after(m, steps, n).committed(t) <==> after(m, steps, n).state_of(t) == Some(
            TxState::Committed,
        ),
    decreases n,
{
    if n > 0 {
        law_committed_by_commit(m, steps, n - 1, t);
        let before = after(m, steps, n - 1);
        if steps[n - 1] == TxStep::Commit(t) && before.active(t) {
            assert(commits(m, steps, n - 1, t));
        }
    }
}

/// What a transaction that was rolled back did is undone: a tuple that it made is seen by no other
/// transaction, and one of a committed maker that it deleted is seen again.
pub proof fn law_rollback_undoes(m: TxModel, t: TxId, a: TxId, xmax: TxId, current_tx: TxId)
    requires
        m.active(t),
        t != 0,
        t != current_tx,
        a != t,
        m.committed(a),
    ensures
        ({
            let committed = |x: TxId| m.ended(t, TxState::Aborted).committed(x);
            &&& !visible(t, xmax, current_tx, committed)
            &&& visible(a, t, current_tx, committed)
        }),
{
}

/// What a transaction that committed did is seen by the others: a tuple that it made is there, and
/// one that it deleted is gone.
pub proof fn law_commit_shows(m: TxModel, t: TxId, a: TxId, current_tx: TxId)
    requires
        m.active(t),
        t != 0,
    ensures
        ({
            let committed = |x: TxId| m.ended(t, TxState::Committed).committed(x);
            &&& visible(t, 0, current_tx, committed)
            &&& !visible(a, t, current_tx, committed)
        }),
{
}

/// A manager that is opened from the bytes of a `TXLOG` goes on with the number on file.
pub proof fn law_txlog_round_trip(next_id: TxId)
    ensures
        le_bytes(next_id as nat, 8).len() == 8,
        le_at(le_bytes(next_id as nat, 8), 0, 8) == next_id,
{
    lemma_pow256();
    lemma_le_bytes_len(next_id as nat, 8);
    lemma_le_value_of_bytes(next_id as nat, 8);
    assert(le_bytes(next_id as nat, 8).subrange(0, 8) =~= le_bytes(next_id as nat, 8));
}

} // verus!
