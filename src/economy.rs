use vstd::prelude::*;

verus! {

/// A change of the balance, as the simulation reports it.
#[derive(Clone, Copy, Debug, PartialEq, Eq, Structural)]
pub struct ChangeMoneyEvent(pub i64);

/// A debit larger than the balance: the simulation is over.
#[derive(Clone, Copy, Debug, PartialEq, Eq, Structural)]
pub struct Insolvent {
    pub balance: u64,
    pub requested: u64,
}

/// The currency ledger. Its balance is never negative: a debit that would
/// take it below zero is refused and ends the game.
#[derive(Clone, Copy, Debug, PartialEq, Eq, Structural)]
pub struct Money {
    balance: u64,
}

impl Money {
    pub closed spec fn value(&self) -> int {
        self.balance as int
    }

    pub proof fn lemma_bounds(&self)
        ensures
            0 <= self.value() <= u64::MAX,
    {
    }

    pub fn new() -> (m: Money)
        ensures
            m.value() == 0,
    {
        Money { balance: 0 }
    }

    pub fn with_balance(balance: u64) -> (m: Money)
        ensures
            m.value() == balance,
    {
        Money { balance }
    }

    pub fn balance(&self) -> (b: u64)
        ensures
            b == self.value(),
    {
        self.balance
    }

    /// Adds `amount`; the balance saturates at the largest `u64`.
    pub fn credit(&mut self, amount: u64)
        ensures
            final(self).value() == if old(self).value() + amount <= u64::MAX {
                old(self).value() + amount
            } else {
                u64::MAX as int
            },
    {
        self.balance = self.balance.saturating_add(amount);
    }

    /// Takes `amount` off the balance, or, when it exceeds the balance,
    /// leaves the balance as it is and reports insolvency.
    pub fn debit(&mut self, amount: u64) -> (r: Result<(), Insolvent>)
        ensures
            r is Ok <==> amount <= old(self).value(),
            r is Ok ==> final(self).value() == old(self).value() - amount,
            r is Err ==> final(self).value() == old(self).value()
                && r == Err::<(), Insolvent>(Insolvent { balance: old(self).value() as u64, requested: amount }),
            final(self).value() >= 0,
    {
        if amount > self.balance {
            Err(Insolvent { balance: self.balance, requested: amount })
        } else {
            self.balance = self.balance - amount;
            Ok(())
        }
    }

    /// Applies a signed change: a credit for a non-negative delta, a debit
    /// of its magnitude otherwise.
    pub fn change(&mut self, ev: ChangeMoneyEvent) -> (r: Result<(), Insolvent>)
        ensures
            ev.0 >= 0 ==> r is Ok && final(self).value() == if old(self).value() + ev.0 <= u64::MAX {
                old(self).value() + ev.0
            } else {
                u64::MAX as int
            },
            ev.0 < 0 ==> (r is Ok <==> -ev.0 <= old(self).value()),
            ev.0 < 0 && r is Ok ==> final(self).value() == old(self).value() + ev.0,
            r is Err ==> final(self).value() == old(self).value(),
    {
        let d = ev.0;
        if d >= 0 {
            self.credit(d as u64);
            Ok(())
        } else {
            let mag: u64 = if d == i64::MIN { (i64::MAX as u64) + 1 } else { (-d) as u64 };
            self.debit(mag)
        }
    }
}

} // verus!
