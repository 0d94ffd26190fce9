//! The transactions that are under way.
use dashmap::DashSet;
use std::hash::RandomState;
use vstd::prelude::*;

verus! {

#[verifier::external_type_specification]
#[verifier::external_body]
#[verifier::reject_recursive_types(K)]
#[verifier::reject_recursive_types(S)]
pub struct ExDashSet<K, S>(DashSet<K, S>);

/// The numbers that a concurrent set holds.
pub uninterp spec fn numbers_in(set: DashSet<u64, RandomState>) -> Set<u64>;

/// `dashmap::DashSet::new`: an empty set.
#[verifier::external_body]
fn set_new() -> (r: DashSet<u64, RandomState>)
    ensures
        numbers_in(r) == Set::<u64>::empty(),
{
    DashSet::new()
}

/// `dashmap::DashSet::insert`: the number is in the set afterwards. The result says whether it was
/// not before.
#[verifier::external_body]
fn set_insert(set: &mut DashSet<u64, RandomState>, n: u64) -> (r: bool)
    ensures
        numbers_in(*final(set)) == numbers_in(*old(set)).insert(n),
        r == !numbers_in(*old(set)).contains(n),
{
    set.insert(n)
}

/// `dashmap::DashSet::remove`: the number is not in the set afterwards. The result says whether it
/// was before.
#[verifier::external_body]
fn set_remove(set: &mut DashSet<u64, RandomState>, n: u64) -> (r: bool)
    ensures
        numbers_in(*final(set)) == numbers_in(*old(set)).remove(n),
        r == numbers_in(*old(set)).contains(n),
{
    set.remove(&n).is_some()
}

/// `dashmap::DashSet::contains`: whether the number is in the set.
#[verifier::external_body]
fn set_contains(set: &DashSet<u64, RandomState>, n: u64) -> (r: bool)
    ensures
        r == numbers_in(*set).contains(n),
{
    set.contains(&n)
}

/// The transactions that are under way. The set within cannot be reached from elsewhere.
pub struct InFlight {
    numbers: DashSet<u64, RandomState>,
}

impl View for InFlight {
    type V = Set<u64>;

    closed spec fn view(&self) -> Set<u64> {
        numbers_in(self.numbers)
    }
}

impl InFlight {
    /// No transactions.
    pub fn new() -> (r: Self)
        ensures
            r@ == Set::<u64>::empty(),
    {
        InFlight { numbers: set_new() }
    }

    /// Note that a transaction is under way. The result says whether it was not before.
    pub fn insert(&mut self, txnid: u64) -> (r: bool)
        ensures
            final(self)@ == old(self)@.insert(txnid),
            r == !old(self)@.contains(txnid),
    {
        set_insert(&mut self.numbers, txnid)
    }

    /// Note that a transaction is over. The result says whether it was under way.
    pub fn remove(&mut self, txnid: u64) -> (r: bool)
        ensures
            final(self)@ == old(self)@.remove(txnid),
            r == old(self)@.contains(txnid),
    {
        set_remove(&mut self.numbers, txnid)
    }

    /// Whether a transaction is under way.
    pub fn contains(&self, txnid: u64) -> (r: bool)
        ensures
            r == self@.contains(txnid),
    {
        set_contains(&self.numbers, txnid)
    }
}

} // verus!
