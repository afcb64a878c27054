//! Statements (balance, limit, as-of time and recent transactions) and the
//! cache that keeps the last statement of each account, tagged with the
//! account version it was rendered at.
use vstd::prelude::*;
use std::collections::HashMap;
use crate::ledger::{EntryView, Kind, LedgerEntry};
use crate::tail_log::{entries_view, lemma_tail_returns_recent, log_bytes, loggable, tail_spec, window_spec};

verus! {

broadcast use vstd::std_specs::hash::group_hash_axioms;

/// One transaction as a statement shows it.
pub ghost struct TransactionLine {
    pub amount: int,
    pub kind: Kind,
    pub description: Seq<u8>,
    pub occurred_at: Seq<u8>,
}

/// The mathematical value of a statement.
pub ghost struct StatementView {
    pub total: int,
    pub as_of: Seq<u8>,
    pub limit: int,
    pub transactions: Seq<TransactionLine>,
}

pub open spec fn abs(x: int) -> int {
    if x < 0 {
        -x
    } else {
        x
    }
}

pub open spec fn line_of(e: EntryView) -> TransactionLine {
    TransactionLine {
        amount: abs(e.delta),
        kind: e.kind,
        description: e.description,
        occurred_at: e.occurred_at,
    }
}

/// The statement of an account at balance `total` and limit `limit`, whose
/// latest entries are `entries`, as of the time `as_of`.
pub open spec fn statement_of(total: int, limit: int, entries: Seq<EntryView>, as_of: Seq<u8>) -> StatementView {
    StatementView {
        total,
        as_of,
        limit,
        transactions: entries.map_values(|e: EntryView| line_of(e)),
    }
}

/// `s` with its as-of time replaced.
pub open spec fn refreshed(s: StatementView, as_of: Seq<u8>) -> StatementView {
    StatementView { as_of, ..s }
}

/// One line of a statement.
#[derive(Debug, PartialEq, Eq)]
pub struct ExtratoTransacaoDTO {
    pub valor: u64,
    pub tipo: Kind,
    pub descricao: Vec<u8>,
    pub realizada_em: Vec<u8>,
}

impl View for ExtratoTransacaoDTO {
    type V = TransactionLine;

    open spec fn view(&self) -> TransactionLine {
        TransactionLine {
            amount: self.valor as int,
            kind: self.tipo,
            description: self.descricao@,
            occurred_at: self.realizada_em@,
        }
    }
}

/// The balance part of a statement.
#[derive(Debug, PartialEq, Eq)]
pub struct ExtratoSaldoDTO {
    pub total: i64,
    pub data_extrato: Vec<u8>,
    pub limite: i64,
}

/// A statement: balance, limit, as-of time and the latest transactions,
/// most recent first.
#[derive(Debug, PartialEq, Eq)]
pub struct ExtratoDTO {
    pub saldo: ExtratoSaldoDTO,
    pub ultimas_transacoes: Vec<ExtratoTransacaoDTO>,
}

impl View for ExtratoDTO {
    type V = StatementView;

    open spec fn view(&self) -> StatementView {
        StatementView {
            total: self.saldo.total as int,
            as_of: self.saldo.data_extrato@,
            limit: self.saldo.limite as int,
            transactions: self.ultimas_transacoes@.map_values(|t: ExtratoTransacaoDTO| t@),
        }
    }
}

impl ExtratoTransacaoDTO {
    pub fn duplicate(&self) -> (r: ExtratoTransacaoDTO)
        ensures
            r@ == self@,
    {
        ExtratoTransacaoDTO {
            valor: self.valor,
            tipo: self.tipo,
            descricao: self.descricao.clone(),
            realizada_em: self.realizada_em.clone(),
        }
    }
}

impl ExtratoDTO {
    /// The statement of balance `saldo` and limit `limite` over the entries
    /// `extrato` (most recent first), as of `data_extrato`. Each line shows the
    /// amount without its sign, next to its kind.
    pub fn from(saldo: i64, limite: i64, extrato: Vec<LedgerEntry>, data_extrato: Vec<u8>) -> (r:
        ExtratoDTO)
        ensures
            r@ == statement_of(saldo as int, limite as int, entries_view(extrato@), data_extrato@),
    {
        let mut ultimas_transacoes: Vec<ExtratoTransacaoDTO> = Vec::new();
        let ghost target = entries_view(extrato@).map_values(|e: EntryView| line_of(e));
        let mut i: usize = 0;
        while i < extrato.len()
            invariant
                i <= extrato.len(),
                target == entries_view(extrato@).map_values(|e: EntryView| line_of(e)),
                ultimas_transacoes@.map_values(|t: ExtratoTransacaoDTO| t@) == target.subrange(
                    0,
                    i as int,
                ),
            decreases extrato.len() - i,
        {
            let e = &extrato[i];
            let valor: u64 = if e.delta < 0 {
                (-(e.delta as i128)) as u64
            } else {
                e.delta as u64
            };
            let line = ExtratoTransacaoDTO {
                valor,
                tipo: e.kind,
                descricao: e.description.clone(),
                realizada_em: e.occurred_at.clone(),
            };
            let ghost prev = ultimas_transacoes@.map_values(|t: ExtratoTransacaoDTO| t@);
            ultimas_transacoes.push(line);
            assert(line@ == target[i as int]);
            assert(ultimas_transacoes@.map_values(|t: ExtratoTransacaoDTO| t@) =~= prev.push(
                line@,
            ));
            i = i + 1;
            assert(target.subrange(0, i as int) =~= target.subrange(0, i - 1).push(
                target[i - 1],
            ));
        }
        assert(target.subrange(0, i as int) =~= target);
        ExtratoDTO {
            saldo: ExtratoSaldoDTO { total: saldo, data_extrato, limite },
            ultimas_transacoes,
        }
    }

    /// A copy of the statement with its as-of time replaced by `as_of`.
    pub fn with_as_of(&self, as_of: Vec<u8>) -> (r: ExtratoDTO)
        ensures
            r@ == refreshed(self@, as_of@),
    {
        let mut lines: Vec<ExtratoTransacaoDTO> = Vec::new();
        let ghost target = self.ultimas_transacoes@.map_values(|t: ExtratoTransacaoDTO| t@);
        let mut i: usize = 0;
        while i < self.ultimas_transacoes.len()
            invariant
                i <= self.ultimas_transacoes.len(),
                target == self.ultimas_transacoes@.map_values(|t: ExtratoTransacaoDTO| t@),
                lines@.map_values(|t: ExtratoTransacaoDTO| t@) == target.subrange(0, i as int),
            decreases self.ultimas_transacoes.len() - i,
        {
            let line = self.ultimas_transacoes[i].duplicate();
            let ghost prev = lines@.map_values(|t: ExtratoTransacaoDTO| t@);
            lines.push(line);
            assert(lines@.map_values(|t: ExtratoTransacaoDTO| t@) =~= prev.push(line@));
            i = i + 1;
            assert(target.subrange(0, i as int) =~= target.subrange(0, i - 1).push(
                target[i - 1],
            ));
        }
        assert(target.subrange(0, i as int) =~= target);
        let r = ExtratoDTO {
            saldo: ExtratoSaldoDTO {
                total: self.saldo.total,
                data_extrato: as_of,
                limite: self.saldo.limite,
            },
            ultimas_transacoes: lines,
        };
        assert(r@.transactions =~= self@.transactions);
        r
    }
}

/// The statement that a cache of view `m` holds for `account` at `version`.
pub open spec fn cached(m: Map<usize, (int, StatementView)>, account: usize, version: int) -> Option<
    StatementView,
> {
    if m.contains_key(account) && m[account].0 == version {
        Some(m[account].1)
    } else {
        None
    }
}

/// What `get_or_render` does to a cache of view `m` and returns, `rendered`
/// being what the render would give.
pub open spec fn serve(
    m: Map<usize, (int, StatementView)>,
    account: usize,
    version: int,
    as_of: Seq<u8>,
    rendered: StatementView,
) -> (Map<usize, (int, StatementView)>, StatementView) {
    match cached(m, account, version) {
        Some(s) => (m, refreshed(s, as_of)),
        None => (m.insert(account, (version, rendered)), rendered),
    }
}

/// At most one statement per account, with the version it was rendered at.
pub struct ReadCache {
    entries: HashMap<usize, (u64, ExtratoDTO)>,
}

impl View for ReadCache {
    type V = Map<usize, (int, StatementView)>;

    closed spec fn view(&self) -> Map<usize, (int, StatementView)> {
        self.entries@.map_values(|p: (u64, ExtratoDTO)| (p.0 as int, p.1@))
    }
}

impl ReadCache {
    pub fn new() -> (r: ReadCache)
        ensures
            r@ == Map::<usize, (int, StatementView)>::empty(),
    {
        let r = ReadCache { entries: HashMap::new() };
        assert(r@ =~= Map::<usize, (int, StatementView)>::empty());
        r
    }

    /// The cached statement of `account` if it was rendered at `version`,
    /// with its as-of time set to `as_of`.
    pub fn lookup(&self, account: usize, version: u64, as_of: Vec<u8>) -> (r: Option<ExtratoDTO>)
        ensures
            match cached(self@, account, version as int) {
                Some(s) => r matches Some(x) && x@ == refreshed(s, as_of@),
                None => r is None,
            },
    {
        match self.entries.get(&account) {
            Some(entry) => {
                if entry.0 == version {
                    Some(entry.1.with_as_of(as_of))
                } else {
                    None
                }
            },
            None => None,
        }
    }

    /// Keeps `statement` as the one of `account`, rendered at `version`,
    /// in place of what was kept for it.
    pub fn store(&mut self, account: usize, version: u64, statement: ExtratoDTO)
        ensures
            final(self)@ == old(self)@.insert(account, (version as int, statement@)),
    {
        self.entries.insert(account, (version, statement));
        assert(self@ =~= old(self)@.insert(account, (version as int, statement@)));
    }

    /// The cached statement of `account` if it was rendered at `version`,
    /// with its as-of time set to `as_of`; otherwise the statement that
    /// `render` gives, which replaces the account's cached one.
    pub fn get_or_render<F: FnOnce() -> ExtratoDTO>(
        &mut self,
        account: usize,
        version: u64,
        as_of: Vec<u8>,
        render: F,
    ) -> (r: ExtratoDTO)
        requires
            render.requires(()),
        ensures
            cached(old(self)@, account, version as int) is None ==> render.ensures((), r),
            (final(self)@, r@) == serve(old(self)@, account, version as int, as_of@, r@),
    {
        match self.entries.get(&account) {
            Some(entry) => {
                if entry.0 == version {
                    return entry.1.with_as_of(as_of);
                }
            },
            None => {},
        }
        let fresh = render();
        let kept = fresh.duplicate();
        self.entries.insert(account, (version, kept));
        assert(self@ =~= old(self)@.insert(account, (version as int, fresh@)));
        fresh
    }
}

impl ExtratoDTO {
    /// A copy of the statement.
    pub fn duplicate(&self) -> (r: ExtratoDTO)
        ensures
            r@ == self@,
    {
        self.with_as_of(self.saldo.data_extrato.clone())
    }
}

/// Between two requests for one account at one version, the second gets the
/// first one's statement with only its as-of time refreshed; once the
/// version has moved on, the second gets a freshly rendered statement, which
/// the cache then keeps.
pub proof fn lemma_cache_staleness(
    m: Map<usize, (int, StatementView)>,
    account: usize,
    v1: int,
    as_of1: Seq<u8>,
    rendered1: StatementView,
    v2: int,
    as_of2: Seq<u8>,
    rendered2: StatementView,
)
    ensures
        ({
            let (m1, out1) = serve(m, account, v1, as_of1, rendered1);
            let (m2, out2) = serve(m1, account, v2, as_of2, rendered2);
            &&& v2 == v1 ==> out2 == refreshed(out1, as_of2) && m2 == m1
            &&& v2 != v1 ==> out2 == rendered2 && m2 == m1.insert(account, (v2, rendered2))
        }),
{
    let (m1, out1) = serve(m, account, v1, as_of1, rendered1);
    assert(m1.contains_key(account) && m1[account].0 == v1);
}

/// Once a mutation's entry `e` is appended behind `es`, the statement
/// rendered from the window of the last ten records shows `e`'s balance as
/// its total and `e` as its first line, followed by at most nine older ones.
pub proof fn lemma_statement_reflects_mutation(
    es: Seq<EntryView>,
    e: EntryView,
    width: nat,
    limit: int,
    as_of: Seq<u8>,
)
    requires
        width >= 1,
        forall|i: int| 0 <= i < es.len() ==> loggable(#[trigger] es[i], width),
        loggable(e, width),
    ensures
        ({
            let file = log_bytes(es.push(e), width);
            let (start, len) = window_spec(file.len(), width, 10);
            let entries = tail_spec(file.subrange(start as int, (start + len) as int), width, start);
            let s = statement_of(entries[0].balance_after, limit, entries, as_of);
            &&& 1 <= entries.len() <= 10
            &&& entries[0] == e
            &&& s.total == e.balance_after
            &&& s.transactions.len() == entries.len()
            &&& s.transactions[0] == line_of(e)
        }),
{
    let all = es.push(e);
    assert forall|i: int| 0 <= i < all.len() implies loggable(#[trigger] all[i], width) by {
        if i < es.len() {
            assert(all[i] == es[i]);
        }
    }
    lemma_tail_returns_recent(all, width, 10);
    let n = all.len();
    let m: int = if 10 < n { 10 } else { n as int };
    let got = all.subrange(n - m, n as int).reverse();
    assert(got[0] == all[n - 1]);
}

} // verus!
