//! What the player carries between encounters: credits and the upgrades
//! earned on the contract.

use vstd::prelude::*;
use crate::run_deck::string_views;

verus! {

/// Credits and upgrades as the contracts see them.
pub struct WalletView {
    pub money: int,
    pub upgrades: Seq<Seq<char>>,
}

#[derive(Clone, Debug, PartialEq, Eq)]
pub struct Wallet {
    money: i64,
    upgrades: Vec<String>,
}

impl View for Wallet {
    type V = WalletView;

    closed spec fn view(&self) -> WalletView {
        WalletView { money: self.money as int, upgrades: string_views(self.upgrades@) }
    }
}

impl Wallet {
    /// No credits and no upgrades.
    pub fn new() -> (wallet: Self)
        ensures
            wallet@.money == 0,
            wallet@.upgrades.len() == 0,
    {
        let wallet = Wallet { money: 0, upgrades: Vec::new() };
        assert(wallet@.upgrades =~= Seq::<Seq<char>>::empty());
        wallet
    }

    pub fn money(&self) -> (money: i64)
        ensures
            money == self@.money,
    {
        self.money
    }

    pub fn upgrades(&self) -> (upgrades: &[String])
        ensures
            string_views(upgrades@) == self@.upgrades,
    {
        self.upgrades.as_slice()
    }

    /// Keeps an upgrade earned on the contract.
    pub fn add_upgrade(&mut self, name: &str)
        ensures
            final(self)@.money == old(self)@.money,
            final(self)@.upgrades == old(self)@.upgrades.push(name@),
    {
        self.upgrades.push(String::from_str(name));
        assert(string_views(self.upgrades@) =~= old(self)@.upgrades.push(name@));
    }

    /// Gains `amount` credits, or loses them when it is negative.
    pub fn add_credits(&mut self, amount: i64)
        requires
            i64::MIN <= old(self)@.money + amount <= i64::MAX,
        ensures
            final(self)@.money == old(self)@.money + amount,
            final(self)@.upgrades == old(self)@.upgrades,
    {
        self.money = self.money + amount;
    }

    /// Being caught costs the fine and every upgrade earned on the contract.
    /// Returns the upgrades lost.
    pub fn apply_penalty(&mut self, fine: i64) -> (lost: Vec<String>)
        requires
            i64::MIN <= old(self)@.money - fine <= i64::MAX,
        ensures
            string_views(lost@) == old(self)@.upgrades,
            final(self)@.upgrades.len() == 0,
            final(self)@.money == old(self)@.money - fine,
    {
        let mut lost: Vec<String> = Vec::new();
        core::mem::swap(&mut self.upgrades, &mut lost);
        self.money = self.money - fine;
        assert(string_views(self.upgrades@) =~= Seq::<Seq<char>>::empty());
        lost
    }
}

} // verus!
