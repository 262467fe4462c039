//! Amounts held in finite maps: what one key holds, what all hold together,
//! and how credits and debits change both.

use crate::table::{Key, Table};
use vstd::prelude::*;

verus! {

/// A value that holds an amount of tokens.
pub trait Amount {
    /// The amount that the value holds.
    spec fn amount(&self) -> nat;
}

impl Amount for u128 {
    open spec fn amount(&self) -> nat {
        *self as nat
    }
}

/// A stored value whose amount can be read at run time.
pub trait Holding: View + Sized where Self::V: Amount {
    /// The amount that the value holds.
    fn amount_held(&self) -> (amount: u128)
        ensures
            amount == self@.amount(),
    ;
}

impl Holding for u128 {
    fn amount_held(&self) -> (amount: u128) {
        *self
    }
}

/// The sum of the amounts of all values of `m`, for a map with a finite
/// domain. Of a map with an infinite domain it says nothing.
pub open spec fn total<K, V: Amount>(m: Map<K, V>) -> nat
    decreases m.dom().len(),
    when m.dom().finite()
    via total_decreases::<K, V>
{
    if m.dom().is_empty() {
        0
    } else {
        let key = m.dom().choose();
        m[key].amount() + total(m.remove(key))
    }
}

#[via_fn]
proof fn total_decreases<K, V: Amount>(m: Map<K, V>) {
    if !m.dom().is_empty() {
        let key = m.dom().choose();
        assert(m.dom().contains(key));
        assert(m.remove(key).dom() =~= m.dom().remove(key));
    }
}

/// The empty map holds nothing.
pub proof fn lemma_total_empty<K, V: Amount>()
    ensures
        total(Map::<K, V>::empty()) == 0,
{
    assert(Map::<K, V>::empty().dom() =~= Set::<K>::empty());
}

/// Any one entry can be split off the total.
pub proof fn lemma_total_split<K, V: Amount>(m: Map<K, V>, key: K)
    requires
        m.dom().finite(),
        m.contains_key(key),
    ensures
        total(m) == m[key].amount() + total(m.remove(key)),
    decreases m.dom().len(),
{
    let first = m.dom().choose();
    assert(m.dom().contains(first));
    if first != key {
        let rest = m.remove(first);
        assert(rest.dom() =~= m.dom().remove(first));
        lemma_total_split(rest, key);
        let other = m.remove(key);
        assert(other.dom() =~= m.dom().remove(key));
        lemma_total_split(other, first);
        assert(rest.remove(key) =~= other.remove(first));
    }
}

/// No entry holds more than the total.
pub proof fn lemma_total_bounds_entry<K, V: Amount>(m: Map<K, V>, key: K)
    requires
        m.dom().finite(),
        m.contains_key(key),
    ensures
        m[key].amount() <= total(m),
{
    lemma_total_split(m, key);
}

/// Storing a value puts its amount in place of the amount stored before.
pub proof fn lemma_total_insert<K, V: Amount>(m: Map<K, V>, key: K, value: V)
    requires
        m.dom().finite(),
    ensures
        total(m.insert(key, value)) == total(m.remove(key)) + value.amount(),
        m.contains_key(key) ==> total(m.insert(key, value)) + m[key].amount() == total(m)
            + value.amount(),
        !m.contains_key(key) ==> total(m.insert(key, value)) == total(m) + value.amount(),
{
    let after = m.insert(key, value);
    lemma_total_split(after, key);
    assert(after.remove(key) =~= m.remove(key));
    if m.contains_key(key) {
        lemma_total_split(m, key);
    } else {
        assert(m.remove(key) =~= m);
    }
}

/// Removing an entry takes its amount off the total.
pub proof fn lemma_total_remove<K, V: Amount>(m: Map<K, V>, key: K)
    requires
        m.dom().finite(),
    ensures
        m.contains_key(key) ==> total(m.remove(key)) + m[key].amount() == total(m),
        !m.contains_key(key) ==> total(m.remove(key)) == total(m),
{
    if m.contains_key(key) {
        lemma_total_split(m, key);
    } else {
        assert(m.remove(key) =~= m);
    }
}

/// What `key` holds in `m`: its balance, or nothing if it has no entry.
pub open spec fn held<K>(m: Map<K, u128>, key: K) -> u128 {
    if m.contains_key(key) {
        m[key]
    } else {
        0
    }
}

/// `m` after `amount` was added to what `key` holds.
pub open spec fn credited<K>(m: Map<K, u128>, key: K, amount: u128) -> Map<K, u128> {
    m.insert(key, (held(m, key) + amount) as u128)
}

/// `m` after `amount` was taken from what `key` holds.
pub open spec fn debited<K>(m: Map<K, u128>, key: K, amount: u128) -> Map<K, u128> {
    m.insert(key, (held(m, key) - amount) as u128)
}

/// No key holds more than all keys together.
pub proof fn lemma_held_within_total<K>(m: Map<K, u128>, key: K)
    requires
        m.dom().finite(),
    ensures
        held(m, key) <= total(m),
{
    if m.contains_key(key) {
        lemma_total_bounds_entry(m, key);
    }
}

/// A credit adds its amount to the total.
pub proof fn lemma_credited_total<K>(m: Map<K, u128>, key: K, amount: u128)
    requires
        m.dom().finite(),
        held(m, key) + amount <= u128::MAX,
    ensures
        total(credited(m, key, amount)) == total(m) + amount,
{
    lemma_total_insert(m, key, (held(m, key) + amount) as u128);
}

/// A debit takes its amount off the total.
pub proof fn lemma_debited_total<K>(m: Map<K, u128>, key: K, amount: u128)
    requires
        m.dom().finite(),
        amount <= held(m, key),
    ensures
        total(debited(m, key, amount)) + amount == total(m),
{
    lemma_total_insert(m, key, (held(m, key) - amount) as u128);
}

/// Adds up what the values of `table` hold: the total, or nothing if the
/// total does not fit the balance type.
pub fn sum_of<K: Key, V: Holding>(table: &Table<K, V>) -> (sum: Option<u128>) where V::V: Amount
    requires
        table.wf(),
    ensures
        match sum {
            Some(sum) => sum == total(table@),
            None => total(table@) > u128::MAX,
        },
{
    let mut sum: u128 = 0;
    let mut fits = true;
    let mut i: usize = 0;
    proof {
        table.lemma_prefix_ends();
        lemma_total_empty::<K::V, V::V>();
    }
    while i < table.len()
        invariant
            table.wf(),
            i <= table.spec_len(),
            fits ==> sum == total(table.spec_prefix(i as int)),
            !fits ==> total(table.spec_prefix(i as int)) > u128::MAX,
        decreases table.spec_len() - i,
    {
        let (_, value) = table.entry(i);
        proof {
            table.lemma_prefix_step(i as int);
            lemma_total_insert(
                table.spec_prefix(i as int),
                table.spec_entry(i as int).0,
                table.spec_entry(i as int).1,
            );
        }
        if fits {
            match sum.checked_add(value.amount_held()) {
                Some(more) => {
                    sum = more;
                },
                None => {
                    fits = false;
                },
            }
        }
        i += 1;
    }
    if fits {
        Some(sum)
    } else {
        None
    }
}

} // verus!
