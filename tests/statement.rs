use ledger::clock::parse_sys_time_as_string;
use ledger::ledger::{Kind, LedgerEntry};
use ledger::statement::{ExtratoDTO, ExtratoSaldoDTO, ExtratoTransacaoDTO, ReadCache};

fn entries() -> Vec<LedgerEntry> {
    vec![
        LedgerEntry {
            tx_id: 2,
            delta: -70,
            balance_after: 30,
            occurred_at: b"t2".to_vec(),
            kind: Kind::Debit,
            description: b"luz".to_vec(),
        },
        LedgerEntry {
            tx_id: 1,
            delta: 100,
            balance_after: 100,
            occurred_at: b"t1".to_vec(),
            kind: Kind::Credit,
            description: b"salario".to_vec(),
        },
    ]
}

#[test]
fn statement_lines_show_amounts_unsigned() {
    let s = ExtratoDTO::from(30, 1000, entries(), b"now".to_vec());
    assert_eq!(
        s,
        ExtratoDTO {
            saldo: ExtratoSaldoDTO { total: 30, data_extrato: b"now".to_vec(), limite: 1000 },
            ultimas_transacoes: vec![
                ExtratoTransacaoDTO {
                    valor: 70,
                    tipo: Kind::Debit,
                    descricao: b"luz".to_vec(),
                    realizada_em: b"t2".to_vec(),
                },
                ExtratoTransacaoDTO {
                    valor: 100,
                    tipo: Kind::Credit,
                    descricao: b"salario".to_vec(),
                    realizada_em: b"t1".to_vec(),
                },
            ],
        }
    );
}

#[test]
fn cache_refreshes_only_the_timestamp() {
    let mut c = ReadCache::new();
    let first = c.get_or_render(1, 5, b"t-a".to_vec(), || ExtratoDTO::from(30, 1000, entries(), b"t-a".to_vec()));
    let mut rendered_again = false;
    let second = c.get_or_render(1, 5, b"t-b".to_vec(), || {
        rendered_again = true;
        ExtratoDTO::from(0, 0, Vec::new(), b"t-b".to_vec())
    });
    assert!(!rendered_again);
    assert_eq!(second.saldo.data_extrato, b"t-b".to_vec());
    assert_eq!(second.ultimas_transacoes, first.ultimas_transacoes);
    assert_eq!(second.saldo.total, first.saldo.total);
    assert_eq!(second.saldo.limite, first.saldo.limite);
}

#[test]
fn cache_renders_after_a_mutation() {
    let mut c = ReadCache::new();
    let _ = c.get_or_render(1, 5, b"t-a".to_vec(), || ExtratoDTO::from(30, 1000, entries(), b"t-a".to_vec()));
    let fresh = c.get_or_render(1, 6, b"t-b".to_vec(), || ExtratoDTO::from(-20, 1000, Vec::new(), b"t-b".to_vec()));
    assert_eq!(fresh.saldo.total, -20);
    let again = c.get_or_render(1, 6, b"t-c".to_vec(), || ExtratoDTO::from(0, 0, Vec::new(), b"x".to_vec()));
    assert_eq!(again.saldo.total, -20);
    assert_eq!(again.saldo.data_extrato, b"t-c".to_vec());
}

#[test]
fn timestamps_in_utc() {
    assert_eq!(parse_sys_time_as_string(0).unwrap(), b"1970-01-01T00:00:00.000000Z".to_vec());
    assert_eq!(
        parse_sys_time_as_string(1_662_921_288_000_123).unwrap(),
        b"2022-09-11T18:34:48.000123Z".to_vec()
    );
    assert_eq!(parse_sys_time_as_string(253_402_300_799_999_999).unwrap(), b"9999-12-31T23:59:59.999999Z".to_vec());
}
