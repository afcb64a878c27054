//! The per-account state machine: balance, credit limit, transaction ids and
//! the version counter that statement caches compare against.
use vstd::prelude::*;

verus! {

/// Whether an entry adds to the balance or takes from it.
#[derive(Clone, Copy, Debug, PartialEq, Eq, Structural)]
pub enum Kind {
    Credit,
    Debit,
}

/// The byte that stands for a kind in logs and statements.
pub open spec fn kind_code(k: Kind) -> u8 {
    match k {
        Kind::Credit => 99u8,
        Kind::Debit => 100u8,
    }
}

impl Kind {
    /// `b'c'` for a credit, `b'd'` for a debit.
    pub fn code(&self) -> (r: u8)
        ensures
            r == kind_code(*self),
    {
        match self {
            Kind::Credit => 99u8,
            Kind::Debit => 100u8,
        }
    }

    /// The kind whose code is `b`, if any.
    pub fn from_code(b: u8) -> (r: Option<Kind>)
        ensures
            match r {
                Some(k) => kind_code(k) == b,
                None => b != 99u8 && b != 100u8,
            },
    {
        if b == 99u8 {
            Some(Kind::Credit)
        } else if b == 100u8 {
            Some(Kind::Debit)
        } else {
            None
        }
    }
}

/// One accepted mutation, as the tail log keeps it.
#[derive(Debug, PartialEq, Eq)]
pub struct LedgerEntry {
    pub tx_id: u64,
    pub delta: i64,
    pub balance_after: i64,
    pub occurred_at: Vec<u8>,
    pub kind: Kind,
    pub description: Vec<u8>,
}

/// The mathematical value of a `LedgerEntry`.
pub ghost struct EntryView {
    pub tx_id: int,
    pub delta: int,
    pub balance_after: int,
    pub occurred_at: Seq<u8>,
    pub kind: Kind,
    pub description: Seq<u8>,
}

impl View for LedgerEntry {
    type V = EntryView;

    open spec fn view(&self) -> EntryView {
        EntryView {
            tx_id: self.tx_id as int,
            delta: self.delta as int,
            balance_after: self.balance_after as int,
            occurred_at: self.occurred_at@,
            kind: self.kind,
            description: self.description@,
        }
    }
}

impl LedgerEntry {
    /// A copy of the entry.
    pub fn duplicate(&self) -> (r: LedgerEntry)
        ensures
            r@ == self@,
    {
        LedgerEntry {
            tx_id: self.tx_id,
            delta: self.delta,
            balance_after: self.balance_after,
            occurred_at: self.occurred_at.clone(),
            kind: self.kind,
            description: self.description.clone(),
        }
    }
}

/// Why a mutation was not applied.
#[derive(Clone, Copy, Debug, PartialEq, Eq, Structural)]
pub enum ApplyError {
    /// The balance would fall below minus the credit limit.
    Rejected,
    /// The balance or a counter would leave its machine range.
    Overflow,
}

/// The mathematical value of an account's state.
pub ghost struct AccountView {
    pub balance: int,
    pub credit_limit: int,
    pub next_tx_id: int,
    pub version: int,
}

impl AccountView {
    /// The ledger's invariant, with the ranges of the machine fields.
    pub open spec fn inv(self) -> bool {
        &&& 0 <= self.credit_limit <= i64::MAX
        &&& -self.credit_limit <= self.balance <= i64::MAX
        &&& 1 <= self.next_tx_id <= u64::MAX
        &&& 0 <= self.version <= u64::MAX
    }
}

/// What one `apply` of `delta` does to state `s`.
pub open spec fn step(s: AccountView, delta: int) -> Result<AccountView, ApplyError> {
    let nb = s.balance + delta;
    if nb < -s.credit_limit {
        Err(ApplyError::Rejected)
    } else if nb > i64::MAX || s.next_tx_id >= u64::MAX || s.version >= u64::MAX {
        Err(ApplyError::Overflow)
    } else {
        Ok(AccountView { balance: nb, next_tx_id: s.next_tx_id + 1, version: s.version + 1, ..s })
    }
}

/// The entry that an accepted `apply` on state `s` records.
pub open spec fn entry_of(
    s: AccountView,
    delta: int,
    kind: Kind,
    description: Seq<u8>,
    occurred_at: Seq<u8>,
) -> EntryView {
    EntryView {
        tx_id: s.next_tx_id,
        delta,
        balance_after: s.balance + delta,
        occurred_at,
        kind,
        description,
    }
}

/// The state after applying `deltas` in order, rejected ones leaving it as it was.
pub open spec fn run(s: AccountView, deltas: Seq<int>) -> AccountView
    decreases deltas.len(),
{
    if deltas.len() == 0 {
        s
    } else {
        let p = run(s, deltas.drop_last());
        match step(p, deltas.last()) {
            Ok(n) => n,
            Err(_) => p,
        }
    }
}

/// The transaction ids of the accepted mutations among `deltas`, in commit order.
pub open spec fn accepted_ids(s: AccountView, deltas: Seq<int>) -> Seq<int>
    decreases deltas.len(),
{
    if deltas.len() == 0 {
        Seq::empty()
    } else {
        let p = run(s, deltas.drop_last());
        let ids = accepted_ids(s, deltas.drop_last());
        match step(p, deltas.last()) {
            Ok(_) => ids.push(p.next_tx_id),
            Err(_) => ids,
        }
    }
}

/// One account's balance, credit limit and counters.
#[derive(Debug)]
pub struct AccountState {
    balance: i64,
    credit_limit: i64,
    next_tx_id: u64,
    version: u64,
}

impl View for AccountState {
    type V = AccountView;

    closed spec fn view(&self) -> AccountView {
        AccountView {
            balance: self.balance as int,
            credit_limit: self.credit_limit as int,
            next_tx_id: self.next_tx_id as int,
            version: self.version as int,
        }
    }
}

impl AccountState {
    pub open spec fn wf(&self) -> bool {
        self@.inv()
    }

    /// A new account at balance zero, whose first transaction id is 1.
    pub fn new(credit_limit: i64) -> (r: AccountState)
        requires
            credit_limit >= 0,
        ensures
            r.wf(),
            r@ == (AccountView { balance: 0, credit_limit: credit_limit as int, next_tx_id: 1, version: 0 }),
    {
        AccountState { balance: 0, credit_limit, next_tx_id: 1, version: 0 }
    }

    /// An account recovered from stored values; `None` where they break the invariant.
    pub fn recover(balance: i64, credit_limit: i64, next_tx_id: u64, version: u64) -> (r: Option<
        AccountState,
    >)
        ensures
            match r {
                Some(a) => a.wf() && a@ == (AccountView {
                    balance: balance as int,
                    credit_limit: credit_limit as int,
                    next_tx_id: next_tx_id as int,
                    version: version as int,
                }),
                None => !(AccountView {
                    balance: balance as int,
                    credit_limit: credit_limit as int,
                    next_tx_id: next_tx_id as int,
                    version: version as int,
                }).inv(),
            },
    {
        if credit_limit < 0 || balance < -credit_limit || next_tx_id < 1 {
            None
        } else {
            Some(AccountState { balance, credit_limit, next_tx_id, version })
        }
    }

    pub fn balance(&self) -> (r: i64)
        ensures
            r == self@.balance,
    {
        self.balance
    }

    pub fn credit_limit(&self) -> (r: i64)
        ensures
            r == self@.credit_limit,
    {
        self.credit_limit
    }

    pub fn version(&self) -> (r: u64)
        ensures
            r == self@.version,
    {
        self.version
    }

    pub fn next_tx_id(&self) -> (r: u64)
        ensures
            r == self@.next_tx_id,
    {
        self.next_tx_id
    }

    /// The current balance and credit limit.
    pub fn get(&self) -> (r: (i64, i64))
        ensures
            r.0 == self@.balance,
            r.1 == self@.credit_limit,
    {
        (self.balance, self.credit_limit)
    }

    /// What `apply` of `delta` would do, without doing it: the transaction id
    /// and the balance after, or why it would be refused.
    pub fn preview(&self, delta: i64) -> (r: Result<(u64, i64), ApplyError>)
        requires
            self.wf(),
        ensures
            match step(self@, delta as int) {
                Ok(n) => r == Ok::<(u64, i64), ApplyError>((self@.next_tx_id as u64, n.balance as i64)),
                Err(e) => r == Err::<(u64, i64), ApplyError>(e),
            },
    {
        let nb = self.balance as i128 + delta as i128;
        if nb < -(self.credit_limit as i128) {
            return Err(ApplyError::Rejected);
        }
        if nb > i64::MAX as i128 || self.next_tx_id == u64::MAX || self.version == u64::MAX {
            return Err(ApplyError::Overflow);
        }
        Ok((self.next_tx_id, nb as i64))
    }

    /// Applies `delta` if the balance stays at or above minus the credit
    /// limit: the balance moves, the transaction id and the version advance,
    /// and the entry to log is returned. Otherwise nothing changes.
    pub fn apply(&mut self, delta: i64, kind: Kind, description: Vec<u8>, occurred_at: Vec<u8>) -> (r:
        Result<LedgerEntry, ApplyError>)
        requires
            old(self).wf(),
        ensures
            final(self).wf(),
            match step(old(self)@, delta as int) {
                Ok(n) => {
                    &&& final(self)@ == n
                    &&& r is Ok
                    &&& r.unwrap()@ == entry_of(
                        old(self)@,
                        delta as int,
                        kind,
                        description@,
                        occurred_at@,
                    )
                },
                Err(err) => final(self)@ == old(self)@ && r == Err::<LedgerEntry, ApplyError>(err),
            },
    {
        let nb = self.balance as i128 + delta as i128;
        if nb < -(self.credit_limit as i128) {
            return Err(ApplyError::Rejected);
        }
        if nb > i64::MAX as i128 || self.next_tx_id == u64::MAX || self.version == u64::MAX {
            return Err(ApplyError::Overflow);
        }
        let tx_id = self.next_tx_id;
        self.balance = nb as i64;
        self.next_tx_id = self.next_tx_id + 1;
        self.version = self.version + 1;
        Ok(LedgerEntry { tx_id, delta, balance_after: nb as i64, occurred_at, kind, description })
    }
}

/// Whatever mutations arrive, in whatever order they commit, every state the
/// account passes through has its balance at or above minus its credit limit.
pub proof fn lemma_run_keeps_invariant(s: AccountView, deltas: Seq<int>)
    requires
        s.inv(),
    ensures
        forall|i: int| 0 <= i <= deltas.len() ==> #[trigger] run(s, deltas.take(i)).inv(),
    decreases deltas.len(),
{
    assert forall|i: int| 0 <= i <= deltas.len() implies #[trigger] run(s, deltas.take(i)).inv() by {
        lemma_run_inv(s, deltas.take(i));
    }
}

proof fn lemma_run_inv(s: AccountView, deltas: Seq<int>)
    requires
        s.inv(),
    ensures
        run(s, deltas).inv(),
    decreases deltas.len(),
{
    if deltas.len() > 0 {
        lemma_run_inv(s, deltas.drop_last());
    }
}

/// The accepted mutations of a run get the transaction ids `next_tx_id`,
/// `next_tx_id + 1`, ... in commit order: strictly increasing, without gaps or
/// repeats; the version advances by the same count.
pub proof fn lemma_tx_ids_consecutive(s: AccountView, deltas: Seq<int>)
    requires
        s.inv(),
    ensures
        accepted_ids(s, deltas) == Seq::new(
            accepted_ids(s, deltas).len(),
            |j: int| s.next_tx_id + j,
        ),
        run(s, deltas).next_tx_id == s.next_tx_id + accepted_ids(s, deltas).len(),
        run(s, deltas).version == s.version + accepted_ids(s, deltas).len(),
    decreases deltas.len(),
{
    if deltas.len() > 0 {
        lemma_tx_ids_consecutive(s, deltas.drop_last());
        let ids = accepted_ids(s, deltas.drop_last());
        assert(accepted_ids(s, deltas) =~= Seq::new(
            accepted_ids(s, deltas).len(),
            |j: int| s.next_tx_id + j,
        ));
    }
}

/// Why the registry did not apply a mutation.
#[derive(Clone, Copy, Debug, PartialEq, Eq, Structural)]
pub enum LedgerError {
    /// No account has that id.
    UnknownAccount,
    /// The balance would fall below minus the credit limit.
    Rejected,
    /// The balance or a counter would leave its machine range.
    Overflow,
}

pub open spec fn ledger_error(e: ApplyError) -> LedgerError {
    match e {
        ApplyError::Rejected => LedgerError::Rejected,
        ApplyError::Overflow => LedgerError::Overflow,
    }
}

/// The position of account `id` among `n` accounts numbered from 1.
pub open spec fn slot(id: int, n: int) -> Option<int> {
    if 1 <= id <= n {
        Some(id - 1)
    } else {
        None
    }
}

/// The accounts of one process, numbered from 1, each with its own state:
/// no invariant spans two accounts.
pub struct Ledger {
    accounts: Vec<AccountState>,
}

impl View for Ledger {
    type V = Seq<AccountView>;

    closed spec fn view(&self) -> Seq<AccountView> {
        self.accounts@.map_values(|a: AccountState| a@)
    }
}

impl Ledger {
    pub open spec fn wf(&self) -> bool {
        forall|i: int| 0 <= i < self@.len() ==> (#[trigger] self@[i]).inv()
    }

    /// Accounts 1 to `limits.len()`, at balance zero, with these credit limits.
    pub fn new(limits: &Vec<i64>) -> (r: Ledger)
        requires
            forall|i: int| 0 <= i < limits@.len() ==> limits@[i] >= 0,
        ensures
            r.wf(),
            r@.len() == limits@.len(),
            forall|i: int|
                0 <= i < limits@.len() ==> #[trigger] r@[i] == (AccountView {
                    balance: 0,
                    credit_limit: limits@[i] as int,
                    next_tx_id: 1,
                    version: 0,
                }),
    {
        let mut accounts: Vec<AccountState> = Vec::new();
        let mut i: usize = 0;
        while i < limits.len()
            invariant
                i <= limits.len(),
                forall|j: int| 0 <= j < limits@.len() ==> limits@[j] >= 0,
                accounts@.len() == i,
                forall|j: int|
                    0 <= j < i ==> #[trigger] accounts@[j]@ == (AccountView {
                        balance: 0,
                        credit_limit: limits@[j] as int,
                        next_tx_id: 1,
                        version: 0,
                    }),
            decreases limits.len() - i,
        {
            accounts.push(AccountState::new(limits[i]));
            i = i + 1;
        }
        let r = Ledger { accounts };
        assert forall|j: int| 0 <= j < r@.len() implies (#[trigger] r@[j]).inv() by {
            assert(r@[j] == r.accounts@[j]@);
        }
        r
    }

    pub fn len(&self) -> (r: usize)
        ensures
            r == self@.len(),
    {
        self.accounts.len()
    }

    /// Opens account `id` with credit limit `credit_limit` if `id` is the
    /// next free id and the limit is not negative; `false`, with nothing
    /// changed, otherwise.
    pub fn open_account(&mut self, id: u64, credit_limit: i64) -> (r: bool)
        requires
            old(self).wf(),
        ensures
            final(self).wf(),
            r == (id == old(self)@.len() + 1 && credit_limit >= 0),
            r ==> final(self)@ == old(self)@.push(
                AccountView { balance: 0, credit_limit: credit_limit as int, next_tx_id: 1, version: 0 },
            ),
            !r ==> final(self)@ == old(self)@,
    {
        if credit_limit < 0 || self.accounts.len() as u64 >= u64::MAX || id != self.accounts.len() as u64 + 1 {
            return false;
        }
        let a = AccountState::new(credit_limit);
        self.accounts.push(a);
        assert(self@ =~= old(self)@.push(a@));
        assert forall|j: int| 0 <= j < self@.len() implies (#[trigger] self@[j]).inv() by {
            if j < old(self)@.len() {
                assert(self@[j] == old(self)@[j]);
            }
        }
        true
    }

    /// The balance and credit limit of account `id`.
    pub fn get(&self, id: u64) -> (r: Option<(i64, i64)>)
        ensures
            match slot(id as int, self@.len() as int) {
                Some(i) => r == Some((self@[i].balance as i64, self@[i].credit_limit as i64)),
                None => r is None,
            },
    {
        if id >= 1 && id <= self.accounts.len() as u64 {
            let a = &self.accounts[(id - 1) as usize];
            Some(a.get())
        } else {
            None
        }
    }

    /// The version of account `id`.
    pub fn version(&self, id: u64) -> (r: Option<u64>)
        ensures
            match slot(id as int, self@.len() as int) {
                Some(i) => r == Some(self@[i].version as u64),
                None => r is None,
            },
    {
        if id >= 1 && id <= self.accounts.len() as u64 {
            Some(self.accounts[(id - 1) as usize].version())
        } else {
            None
        }
    }

    /// Applies `delta` to account `id` as `AccountState::apply` does; the
    /// other accounts do not change.
    pub fn apply(
        &mut self,
        id: u64,
        delta: i64,
        kind: Kind,
        description: Vec<u8>,
        occurred_at: Vec<u8>,
    ) -> (r: Result<LedgerEntry, LedgerError>)
        requires
            old(self).wf(),
        ensures
            final(self).wf(),
            match slot(id as int, old(self)@.len() as int) {
                None => r == Err::<LedgerEntry, LedgerError>(LedgerError::UnknownAccount)
                    && final(self)@ == old(self)@,
                Some(i) => match step(old(self)@[i], delta as int) {
                    Ok(n) => {
                        &&& final(self)@ == old(self)@.update(i, n)
                        &&& r is Ok
                        &&& r.unwrap()@ == entry_of(
                            old(self)@[i],
                            delta as int,
                            kind,
                            description@,
                            occurred_at@,
                        )
                    },
                    Err(e) => r == Err::<LedgerEntry, LedgerError>(ledger_error(e))
                        && final(self)@ == old(self)@,
                },
            },
    {
        if id < 1 || id > self.accounts.len() as u64 {
            return Err(LedgerError::UnknownAccount);
        }
        let i = (id - 1) as usize;
        assert(self.accounts@[i as int]@ == self@[i as int]);
        let mut a = self.accounts.remove(i);
        let r = a.apply(delta, kind, description, occurred_at);
        self.accounts.insert(i, a);
        assert(self@ =~= old(self)@.update(i as int, a@));
        assert forall|j: int| 0 <= j < self@.len() implies (#[trigger] self@[j]).inv() by {
            if j != i {
                assert(self@[j] == old(self)@[j]);
            }
        }
        match r {
            Ok(e) => Ok(e),
            Err(ApplyError::Rejected) => Err(LedgerError::Rejected),
            Err(ApplyError::Overflow) => Err(LedgerError::Overflow),
        }
    }
}

} // verus!
