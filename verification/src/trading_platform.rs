//! The orchestrator: composes the matching engine with the account ledger
//! and the transaction journal, so that every matched trade is reflected in
//! balances and in the append-only journal.

use vstd::arithmetic::mul::lemma_mul_inequality;
use vstd::prelude::*;

use crate::accounting::{can_deposit, can_withdraw, deposited, withdrawn, Accounts};
use crate::book::{
    lemma_book_insert, lemma_match_levels, match_levels, matched_any_wf, side_cost_at_most,
    side_flat,
};
use crate::errors::{AccountError, AccountErrorModel};
use crate::matching::{process_spec, resting_model, EngineModel, MatchingEngine};
use crate::tx::{
    lemma_journal_sums_push, lemma_tx_views_push, sum_deposits, sum_withdrawals, tx_views, Tx,
    TxModel,
};
use crate::types::{order_views, Order, PartialOrder, PartialOrderModel, Receipt, Side};

verus! {

/// The trading platform: engine, ledger and journal, moved in step.
pub struct TradingPlatform {
    pub engine: MatchingEngine,
    pub accounts: Accounts,
    pub transactions: Vec<Tx>,
}

/// The ledger and journal after settling the receipt records `ms` one after
/// the other, and the error that stopped settlement, if one did.
///
/// Each record moves `amount * price` between the submitter and the
/// counterparty: from the submitter for a buy, to the submitter for a sell.
/// A successful transfer journals the withdrawal and then the deposit. When
/// a transfer fails nothing further is settled; a failed deposit (overflow
/// of the recipient) leaves the withdrawal committed, with no journal entry.
pub open spec fn settle(
    accs: Map<Seq<char>, u64>,
    txs: Seq<TxModel>,
    signer: Seq<char>,
    side: Side,
    ms: Seq<PartialOrderModel>,
) -> (Map<Seq<char>, u64>, Seq<TxModel>, Option<AccountErrorModel>)
    decreases ms.len(),
{
    if ms.len() == 0 {
        (accs, txs, None)
    } else {
        let m = ms.first();
        let realized = m.amount * m.price;
        let sender = if side == Side::Buy {
            signer
        } else {
            m.signer
        };
        let recipient = if side == Side::Buy {
            m.signer
        } else {
            signer
        };
        if !accs.contains_key(sender) {
            (accs, txs, Some(AccountErrorModel::NotFound(sender)))
        } else if accs[sender] < realized {
            (accs, txs, Some(AccountErrorModel::UnderFunded(sender)))
        } else {
            let a2 = withdrawn(accs, sender, realized);
            if !can_deposit(a2, recipient, realized) {
                (a2, txs, Some(AccountErrorModel::OverFunded(recipient, realized)))
            } else {
                let a3 = deposited(a2, recipient, realized);
                let txs2 = txs + seq![
                    TxModel::Withdraw { account: sender, amount: realized },
                    TxModel::Deposit { account: recipient, amount: realized },
                ];
                settle(a3, txs2, signer, side, ms.drop_first())
            }
        }
    }
}

impl TradingPlatform {
    /// The platform's invariant: a well-formed engine and ledger, and no
    /// resting order whose settlement value `amount * price` could overflow.
    pub open spec fn wf(&self) -> bool {
        &&& self.engine.wf()
        &&& self.accounts.wf()
        &&& side_cost_at_most(self.engine@.bids, u64::MAX as int)
        &&& side_cost_at_most(self.engine@.asks, u64::MAX as int)
    }

    /// The accounting identity: the balances held sum to exactly what the
    /// journal has seen deposited minus what it has seen withdrawn.
    pub open spec fn balanced(&self) -> bool {
        self.accounts.total() == sum_deposits(tx_views(self.transactions@)) - sum_withdrawals(
            tx_views(self.transactions@),
        )
    }

    /// An empty platform: fresh engine, no accounts, empty journal.
    pub fn new() -> (r: Self)
        ensures
            r.wf(),
            r.balanced(),
            r.engine@ == (EngineModel {
                ordinal: 0,
                bids: Seq::empty(),
                asks: Seq::empty(),
                history: Seq::empty(),
            }),
            r.accounts@ == Map::<Seq<char>, u64>::empty(),
            tx_views(r.transactions@) == Seq::<TxModel>::empty(),
    {
        let r = TradingPlatform {
            engine: MatchingEngine::new(),
            accounts: Accounts::new(),
            transactions: Vec::new(),
        };
        proof {
            assert(tx_views(r.transactions@) =~= Seq::<TxModel>::empty());
        }
        r
    }

    /// Fetch the balance of a user account.
    pub fn balance_of(&self, signer: &str) -> (r: Result<u64, AccountError>)
        requires
            self.wf(),
        ensures
            self.accounts@.contains_key(signer@) ==> r == Ok::<u64, AccountError>(
                self.accounts@[signer@],
            ),
            !self.accounts@.contains_key(signer@) ==> (r matches Err(e) && e@
                == AccountErrorModel::NotFound(signer@)),
    {
        self.accounts.balance_of(signer)
    }

    /// Deposit funds, journalling the successful deposit.
    pub fn deposit(&mut self, signer: &str, amount: u64) -> (r: Result<Tx, AccountError>)
        requires
            old(self).wf(),
        ensures
            final(self).wf(),
            final(self).engine@ == old(self).engine@,
            can_deposit(old(self).accounts@, signer@, amount as int) ==> {
                &&& final(self).accounts@ == deposited(old(self).accounts@, signer@, amount as int)
                &&& tx_views(final(self).transactions@) == tx_views(old(self).transactions@).push(
                    TxModel::Deposit { account: signer@, amount: amount as int },
                )
                &&& (r matches Ok(t) && t@ == (TxModel::Deposit {
                    account: signer@,
                    amount: amount as int,
                }))
            },
            !can_deposit(old(self).accounts@, signer@, amount as int) ==> {
                &&& final(self).accounts@ == old(self).accounts@
                &&& final(self).transactions@ == old(self).transactions@
                &&& (r matches Err(e) && e@ == AccountErrorModel::OverFunded(
                    signer@,
                    amount as int,
                ))
            },
            old(self).balanced() ==> final(self).balanced(),
    {
        match self.accounts.deposit(signer, amount) {
            Ok(tx) => {
                let ghost t0 = self.transactions@;
                let out = tx.clone();
                self.transactions.push(tx);
                proof {
                    lemma_tx_views_push(t0, self.transactions@.last());
                    lemma_journal_sums_push(tx_views(t0), self.transactions@.last()@);
                }
                Ok(out)
            },
            Err(e) => Err(e),
        }
    }

    /// Withdraw funds, journalling the successful withdrawal.
    pub fn withdraw(&mut self, signer: &str, amount: u64) -> (r: Result<Tx, AccountError>)
        requires
            old(self).wf(),
        ensures
            final(self).wf(),
            final(self).engine@ == old(self).engine@,
            !old(self).accounts@.contains_key(signer@) ==> {
                &&& final(self).accounts@ == old(self).accounts@
                &&& final(self).transactions@ == old(self).transactions@
                &&& (r matches Err(e) && e@ == AccountErrorModel::NotFound(signer@))
            },
            can_withdraw(old(self).accounts@, signer@, amount as int) ==> {
                &&& final(self).accounts@ == withdrawn(old(self).accounts@, signer@, amount as int)
                &&& tx_views(final(self).transactions@) == tx_views(old(self).transactions@).push(
                    TxModel::Withdraw { account: signer@, amount: amount as int },
                )
                &&& (r matches Ok(t) && t@ == (TxModel::Withdraw {
                    account: signer@,
                    amount: amount as int,
                }))
            },
            old(self).accounts@.contains_key(signer@) && old(self).accounts@[signer@] < amount
                ==> {
                &&& final(self).accounts@ == old(self).accounts@
                &&& final(self).transactions@ == old(self).transactions@
                &&& (r matches Err(e) && e@ == AccountErrorModel::UnderFunded(signer@))
            },
            old(self).balanced() ==> final(self).balanced(),
    {
        match self.accounts.withdraw(signer, amount) {
            Ok(tx) => {
                let ghost t0 = self.transactions@;
                let out = tx.clone();
                self.transactions.push(tx);
                proof {
                    lemma_tx_views_push(t0, self.transactions@.last());
                    lemma_journal_sums_push(tx_views(t0), self.transactions@.last()@);
                }
                Ok(out)
            },
            Err(e) => Err(e),
        }
    }

    /// Transfer funds from `sender` to `recipient`, journalling the
    /// withdrawal and then the deposit.
    ///
    /// If the deposit fails on recipient overflow, the withdrawal has
    /// already been committed and nothing is journalled.
    pub fn send(&mut self, sender: &str, recipient: &str, amount: u64) -> (r: Result<
        (Tx, Tx),
        AccountError,
    >)
        requires
            old(self).wf(),
        ensures
            final(self).wf(),
            final(self).engine@ == old(self).engine@,
            !old(self).accounts@.contains_key(sender@) ==> {
                &&& final(self).accounts@ == old(self).accounts@
                &&& final(self).transactions@ == old(self).transactions@
                &&& (r matches Err(e) && e@ == AccountErrorModel::NotFound(sender@))
            },
            old(self).accounts@.contains_key(sender@) && old(self).accounts@[sender@] < amount
                ==> {
                &&& final(self).accounts@ == old(self).accounts@
                &&& final(self).transactions@ == old(self).transactions@
                &&& (r matches Err(e) && e@ == AccountErrorModel::UnderFunded(sender@))
            },
            can_withdraw(old(self).accounts@, sender@, amount as int) && can_deposit(
                withdrawn(old(self).accounts@, sender@, amount as int),
                recipient@,
                amount as int,
            ) ==> {
                &&& final(self).accounts@ == deposited(
                    withdrawn(old(self).accounts@, sender@, amount as int),
                    recipient@,
                    amount as int,
                )
                &&& tx_views(final(self).transactions@) == tx_views(old(self).transactions@)
                    + seq![
                    TxModel::Withdraw { account: sender@, amount: amount as int },
                    TxModel::Deposit { account: recipient@, amount: amount as int },
                ]
                &&& (r matches Ok(t) && t.0@ == (TxModel::Withdraw {
                    account: sender@,
                    amount: amount as int,
                }) && t.1@ == (TxModel::Deposit { account: recipient@, amount: amount as int }))
            },
            can_withdraw(old(self).accounts@, sender@, amount as int) && !can_deposit(
                withdrawn(old(self).accounts@, sender@, amount as int),
                recipient@,
                amount as int,
            ) ==> {
                &&& final(self).accounts@ == withdrawn(old(self).accounts@, sender@, amount as int)
                &&& final(self).transactions@ == old(self).transactions@
                &&& (r matches Err(e) && e@ == AccountErrorModel::OverFunded(
                    recipient@,
                    amount as int,
                ))
            },
            (old(self).balanced() && r is Ok) ==> final(self).balanced(),
    {
        match self.accounts.send(sender, recipient, amount) {
            Ok((w_tx, d_tx)) => {
                let ghost t0 = self.transactions@;
                let out = (w_tx.clone(), d_tx.clone());
                self.transactions.push(w_tx);
                let ghost t1 = self.transactions@;
                self.transactions.push(d_tx);
                proof {
                    lemma_tx_views_push(t0, t1.last());
                    lemma_tx_views_push(t1, self.transactions@.last());
                    lemma_journal_sums_push(tx_views(t0), t1.last()@);
                    lemma_journal_sums_push(tx_views(t1), self.transactions@.last()@);
                    assert(tx_views(t0).push(t1.last()@).push(self.transactions@.last()@)
                        =~= tx_views(t0) + seq![
                        TxModel::Withdraw { account: sender@, amount: amount as int },
                        TxModel::Deposit { account: recipient@, amount: amount as int },
                    ]);
                }
                Ok(out)
            },
            Err(e) => Err(e),
        }
    }

    /// The flattened view of all resting orders across both sides: the asks
    /// first, then the bids, each in ascending price and time order.
    pub fn orderbook(&self) -> (r: Vec<PartialOrder>)
        ensures
            order_views(r@) == side_flat(self.engine@.asks) + side_flat(self.engine@.bids),
    {
        let mut out: Vec<PartialOrder> = Vec::new();
        proof {
            assert(order_views(out@) =~= Seq::<PartialOrderModel>::empty());
        }
        self.engine.asks.collect_orders(&mut out);
        self.engine.bids.collect_orders(&mut out);
        proof {
            assert((Seq::<PartialOrderModel>::empty() + side_flat(self.engine@.asks)) + side_flat(
                self.engine@.bids,
            ) =~= side_flat(self.engine@.asks) + side_flat(self.engine@.bids));
        }
        out
    }

    /// Process an order and apply the outcome to the accounts involved.
    ///
    /// The signer must hold an account with at least `amount * price` in it
    /// — also for sell orders, as a conservative safeguard. On success the
    /// engine, the ledger and the journal have moved exactly as
    /// [`process_spec`] and [`settle`] describe. A settlement failure midway
    /// (for instance a counterparty's balance overflowing) leaves the engine
    /// already advanced and the earlier transfers committed: there is no
    /// rollback, and [`settle`] describes exactly what was applied.
    #[verifier::loop_isolation(false)]
    pub fn order(&mut self, order: Order) -> (r: Result<Receipt, AccountError>)
        requires
            old(self).wf(),
            order.amount > 0,
            order@.amount * order@.price <= u64::MAX,
            old(self).engine.ordinal < u64::MAX,
        ensures
            final(self).wf(),
            !old(self).accounts@.contains_key(order@.signer) ==> {
                &&& final(self).engine@ == old(self).engine@
                &&& final(self).accounts@ == old(self).accounts@
                &&& final(self).transactions@ == old(self).transactions@
                &&& (r matches Err(e) && e@ == AccountErrorModel::NotFound(order@.signer))
            },
            (old(self).accounts@.contains_key(order@.signer) && old(self).accounts@[order@.signer]
                < order@.amount * order@.price) ==> {
                &&& final(self).engine@ == old(self).engine@
                &&& final(self).accounts@ == old(self).accounts@
                &&& final(self).transactions@ == old(self).transactions@
                &&& (r matches Err(e) && e@ == AccountErrorModel::UnderFunded(order@.signer))
            },
            (old(self).accounts@.contains_key(order@.signer) && old(self).accounts@[order@.signer]
                >= order@.amount * order@.price) ==> ({
                let ep = process_spec(old(self).engine@, order@);
                let s = settle(
                    old(self).accounts@,
                    tx_views(old(self).transactions@),
                    order@.signer,
                    order@.side,
                    ep.1.matches,
                );
                &&& final(self).engine@ == ep.0
                &&& final(self).accounts@ == s.0
                &&& tx_views(final(self).transactions@) == s.1
                &&& (s.2 is None ==> (r matches Ok(rc) && rc@ == ep.1))
                &&& (s.2 matches Some(err) ==> (r matches Err(e) && e@ == err))
            }),
            (old(self).balanced() && r is Ok) ==> final(self).balanced(),
    {
        let ghost a0 = self.accounts@;
        let ghost t0 = tx_views(self.transactions@);
        let ghost e0 = self.engine@;
        let ghost ov = order@;
        let cost = order.amount * order.price;
        let balance = match self.balance_of(order.signer.as_str()) {
            Ok(b) => b,
            Err(e) => {
                return Err(e);
            },
        };
        if balance < cost {
            return Err(AccountError::UnderFunded(order.signer));
        }
        let ghost bside = if ov.side == Side::Buy {
            Side::Sell
        } else {
            Side::Buy
        };
        proof {
            if ov.side == Side::Buy {
                lemma_match_levels(
                    ov.signer,
                    ov.amount,
                    e0.asks,
                    Side::Buy,
                    ov.price,
                    Side::Sell,
                    e0.ordinal,
                    u64::MAX as int,
                );
                let t = match_levels(ov.signer, ov.amount, e0.asks, Side::Buy, ov.price);
                if t.2 > 0 {
                    lemma_mul_inequality(t.2, ov.amount, ov.price);
                    lemma_book_insert(
                        e0.bids,
                        resting_model(ov, e0.ordinal + 1, t.2),
                        Side::Buy,
                        e0.ordinal + 1,
                        u64::MAX as int,
                    );
                }
            } else {
                lemma_match_levels(
                    ov.signer,
                    ov.amount,
                    e0.bids,
                    Side::Sell,
                    ov.price,
                    Side::Buy,
                    e0.ordinal,
                    u64::MAX as int,
                );
                let t = match_levels(ov.signer, ov.amount, e0.bids, Side::Sell, ov.price);
                if t.2 > 0 {
                    lemma_mul_inequality(t.2, ov.amount, ov.price);
                    lemma_book_insert(
                        e0.asks,
                        resting_model(ov, e0.ordinal + 1, t.2),
                        Side::Sell,
                        e0.ordinal + 1,
                        u64::MAX as int,
                    );
                }
            }
        }
        let side = order.side;
        let signer = order.signer.clone();
        let receipt = match self.engine.process(order) {
            Ok(rc) => rc,
            Err(e) => {
                return Err(e);
            },
        };
        let ghost rv = receipt@;
        let ghost e1 = self.engine@;
        proof {
            assert(rv.matches.skip(0) =~= rv.matches);
        }
        let mut i: usize = 0;
        while i < receipt.matches.len()
            invariant
                i <= receipt.matches.len(),
                receipt@ == rv,
                receipt.matches@.len() == rv.matches.len(),
                self.engine@ == e1,
                self.wf(),
                signer@ == ov.signer,
                side == ov.side,
                forall|k: int|
                    0 <= k < rv.matches.len() ==> matched_any_wf(
                        #[trigger] rv.matches[k],
                        bside,
                        ov.signer,
                        e0.ordinal,
                        u64::MAX as int,
                    ),
                settle(a0, t0, ov.signer, ov.side, rv.matches) == settle(
                    self.accounts@,
                    tx_views(self.transactions@),
                    ov.signer,
                    ov.side,
                    rv.matches.skip(i as int),
                ),
                old(self).balanced() ==> self.balanced(),
            decreases receipt.matches.len() - i,
        {
            proof {
                let suffix = rv.matches.skip(i as int);
                assert(suffix.first() == rv.matches[i as int]);
                assert(suffix.drop_first() =~= rv.matches.skip(i as int + 1));
                assert(rv.matches[i as int] == receipt.matches@[i as int]@);
            }
            let m = &receipt.matches[i];
            let realized = m.amount * m.price;
            let res = match side {
                Side::Buy => self.send(signer.as_str(), m.signer.as_str(), realized),
                Side::Sell => self.send(m.signer.as_str(), signer.as_str(), realized),
            };
            match res {
                Ok(_) => {},
                Err(e) => {
                    return Err(e);
                },
            }
            i = i + 1;
        }
        proof {
            assert(rv.matches.skip(i as int) =~= Seq::<PartialOrderModel>::empty());
        }
        Ok(receipt)
    }
}

} // verus!
