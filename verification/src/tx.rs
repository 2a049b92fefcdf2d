//! Journal records. Applied in sequence to an empty ledger, the journal
//! rebuilds the ledger's state.

use vstd::prelude::*;

verus! {

/// A balance-changing event. A transfer is journalled as two records,
/// the withdrawal first.
#[derive(PartialEq, Eq, Debug)]
pub enum Tx {
    Deposit { account: String, amount: u64 },
    Withdraw { account: String, amount: u64 },
}

/// The mathematical value of a [`Tx`].
pub enum TxModel {
    Deposit { account: Seq<char>, amount: int },
    Withdraw { account: Seq<char>, amount: int },
}

impl View for Tx {
    type V = TxModel;

    open spec fn view(&self) -> TxModel {
        match self {
            Tx::Deposit { account, amount } => TxModel::Deposit {
                account: account@,
                amount: *amount as int,
            },
            Tx::Withdraw { account, amount } => TxModel::Withdraw {
                account: account@,
                amount: *amount as int,
            },
        }
    }
}

impl Clone for Tx {
    fn clone(&self) -> (r: Self)
        ensures
            r@ == self@,
    {
        match self {
            Tx::Deposit { account, amount } => Tx::Deposit {
                account: account.clone(),
                amount: *amount,
            },
            Tx::Withdraw { account, amount } => Tx::Withdraw {
                account: account.clone(),
                amount: *amount,
            },
        }
    }
}

/// The views of every element of a sequence of journal records.
pub open spec fn tx_views(s: Seq<Tx>) -> Seq<TxModel> {
    s.map_values(|t: Tx| t@)
}

/// Sum of the amounts of all deposit records in a journal.
pub open spec fn sum_deposits(txs: Seq<TxModel>) -> int
    decreases txs.len(),
{
    if txs.len() == 0 {
        0
    } else {
        (match txs.first() {
            TxModel::Deposit { account, amount } => amount,
            TxModel::Withdraw { account, amount } => 0,
        }) + sum_deposits(txs.drop_first())
    }
}

/// Sum of the amounts of all withdrawal records in a journal.
pub open spec fn sum_withdrawals(txs: Seq<TxModel>) -> int
    decreases txs.len(),
{
    if txs.len() == 0 {
        0
    } else {
        (match txs.first() {
            TxModel::Deposit { account, amount } => 0,
            TxModel::Withdraw { account, amount } => amount,
        }) + sum_withdrawals(txs.drop_first())
    }
}

/// The amount a journal record credits, if it is a deposit.
pub open spec fn deposit_amount(t: TxModel) -> int {
    match t {
        TxModel::Deposit { account, amount } => amount,
        TxModel::Withdraw { account, amount } => 0,
    }
}

/// The amount a journal record debits, if it is a withdrawal.
pub open spec fn withdraw_amount(t: TxModel) -> int {
    match t {
        TxModel::Deposit { account, amount } => 0,
        TxModel::Withdraw { account, amount } => amount,
    }
}

/// Appending one record moves each journal sum by that record's amount.
pub proof fn lemma_journal_sums_push(txs: Seq<TxModel>, t: TxModel)
    ensures
        sum_deposits(txs.push(t)) == sum_deposits(txs) + deposit_amount(t),
        sum_withdrawals(txs.push(t)) == sum_withdrawals(txs) + withdraw_amount(t),
    decreases txs.len(),
{
    let s = txs.push(t);
    if txs.len() == 0 {
        assert(s.first() == t);
        assert(s.drop_first() =~= Seq::<TxModel>::empty());
        assert(sum_deposits(s) == deposit_amount(t) + sum_deposits(s.drop_first()));
        assert(sum_withdrawals(s) == withdraw_amount(t) + sum_withdrawals(s.drop_first()));
        assert(sum_deposits(s.drop_first()) == 0 && sum_withdrawals(s.drop_first()) == 0);
        assert(sum_deposits(txs) == 0 && sum_withdrawals(txs) == 0);
    } else {
        assert(s.first() == txs.first());
        assert(s.drop_first() =~= txs.drop_first().push(t));
        lemma_journal_sums_push(txs.drop_first(), t);
        assert(sum_deposits(s) == deposit_amount(s.first()) + sum_deposits(s.drop_first()));
        assert(sum_withdrawals(s) == withdraw_amount(s.first()) + sum_withdrawals(s.drop_first()));
        assert(sum_deposits(txs) == deposit_amount(txs.first()) + sum_deposits(txs.drop_first()));
        assert(sum_withdrawals(txs) == withdraw_amount(txs.first()) + sum_withdrawals(
            txs.drop_first(),
        ));
    }
}

/// Pushing an exec record and viewing commute.
pub proof fn lemma_tx_views_push(s: Seq<Tx>, x: Tx)
    ensures
        tx_views(s.push(x)) == tx_views(s).push(x@),
{
    assert(tx_views(s.push(x)) =~= tx_views(s).push(x@));
}

} // verus!
