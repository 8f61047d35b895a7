//! Resource kinds, amounts, and per-entity storage.
//!
//! Amounts are held per kind in a plain record, so every query and mutation
//! has an exact arithmetic contract. Aggregates across many storages are
//! computed in a wider integer type, so no sum can overflow.

use vstd::prelude::*;

verus! {

/// The kinds of resource the simulation tracks.
#[derive(Clone, Copy, PartialEq, Eq, Structural, Debug)]
pub enum ResourceKind {
    Wood,
    Food,
}

/// An amount of each resource kind: a storage content or a cost.
#[derive(Clone, Copy, PartialEq, Eq, Structural, Debug)]
pub struct ResourceAmounts {
    pub wood: u64,
    pub food: u64,
}

/// The amount a record holds of one kind.
pub open spec fn amount_of(a: ResourceAmounts, kind: ResourceKind) -> int {
    match kind {
        ResourceKind::Wood => a.wood as int,
        ResourceKind::Food => a.food as int,
    }
}

impl ResourceAmounts {
    /// An empty record.
    pub fn new() -> (result: Self)
        ensures
            result.wood == 0,
            result.food == 0,
    {
        ResourceAmounts { wood: 0, food: 0 }
    }

    /// The amount held of one kind.
    pub fn get_amount(&self, kind: ResourceKind) -> (r: u64)
        ensures
            r == amount_of(*self, kind),
    {
        match kind {
            ResourceKind::Wood => self.wood,
            ResourceKind::Food => self.food,
        }
    }

    /// Whether this record covers another: at least as much of every kind.
    pub fn contains(&self, other: &ResourceAmounts) -> (r: bool)
        ensures
            r == (self.wood >= other.wood && self.food >= other.food),
    {
        self.wood >= other.wood && self.food >= other.food
    }

    /// The kind-wise sum of two records. Summing is commutative: the contract
    /// pins each field to the arithmetic sum.
    pub fn combine(&self, other: &ResourceAmounts) -> (r: ResourceAmounts)
        requires
            self.wood + other.wood <= u64::MAX,
            self.food + other.food <= u64::MAX,
        ensures
            r.wood == self.wood + other.wood,
            r.food == self.food + other.food,
    {
        ResourceAmounts { wood: self.wood + other.wood, food: self.food + other.food }
    }
}

/// A storage co-located with a placement: its current contents and a nominal
/// capacity.
#[derive(Clone, Copy, PartialEq, Eq, Structural, Debug)]
pub struct Storage {
    pub resources: ResourceAmounts,
    pub max_amount: u64,
}

impl Storage {
    /// An empty storage with the given nominal capacity.
    pub fn new(max_amount: u64) -> (result: Self)
        ensures
            result.resources.wood == 0,
            result.resources.food == 0,
            result.max_amount == max_amount,
    {
        Storage { resources: ResourceAmounts::new(), max_amount }
    }

    /// The amount stored of one kind.
    pub fn get_amount(&self, kind: ResourceKind) -> (r: u64)
        ensures
            r == amount_of(self.resources, kind),
    {
        self.resources.get_amount(kind)
    }

    /// Adds an amount of one kind.
    pub fn add(&mut self, kind: ResourceKind, amount: u64)
        requires
            amount_of(old(self).resources, kind) + amount <= u64::MAX,
        ensures
            amount_of(final(self).resources, kind) == amount_of(old(self).resources, kind)
                + amount,
            forall|k: ResourceKind|
                k != kind ==> amount_of(final(self).resources, k) == amount_of(
                    old(self).resources,
                    k,
                ),
            final(self).max_amount == old(self).max_amount,
    {
        match kind {
            ResourceKind::Wood => {
                self.resources.wood = self.resources.wood + amount;
            },
            ResourceKind::Food => {
                self.resources.food = self.resources.food + amount;
            },
        }
    }

    /// Adds an amount of every kind.
    pub fn add_many(&mut self, amounts: &ResourceAmounts)
        requires
            old(self).resources.wood + amounts.wood <= u64::MAX,
            old(self).resources.food + amounts.food <= u64::MAX,
        ensures
            final(self).resources.wood == old(self).resources.wood + amounts.wood,
            final(self).resources.food == old(self).resources.food + amounts.food,
            final(self).max_amount == old(self).max_amount,
    {
        self.resources = self.resources.combine(amounts);
    }

    /// Removes up to `amount` of one kind, bounded by what is stored, and
    /// returns how much of the request could not be removed.
    pub fn remove(&mut self, kind: ResourceKind, amount: u64) -> (remaining: u64)
        ensures
            ({
                let stored = amount_of(old(self).resources, kind);
                let taken = if stored <= amount {
                    stored
                } else {
                    amount as int
                };
                &&& remaining == amount - taken
                &&& amount_of(final(self).resources, kind) == stored - taken
            }),
            forall|k: ResourceKind|
                k != kind ==> amount_of(final(self).resources, k) == amount_of(
                    old(self).resources,
                    k,
                ),
            final(self).max_amount == old(self).max_amount,
    {
        let stored = self.get_amount(kind);
        let taken = if stored <= amount {
            stored
        } else {
            amount
        };
        match kind {
            ResourceKind::Wood => {
                self.resources.wood = self.resources.wood - taken;
            },
            ResourceKind::Food => {
                self.resources.food = self.resources.food - taken;
            },
        }
        amount - taken
    }

    /// Removes up to the requested amount of every kind and returns what could
    /// not be removed.
    pub fn remove_many(&mut self, amounts: &ResourceAmounts) -> (not_removed: ResourceAmounts)
        ensures
            ({
                let taken_wood = if old(self).resources.wood <= amounts.wood {
                    old(self).resources.wood as int
                } else {
                    amounts.wood as int
                };
                let taken_food = if old(self).resources.food <= amounts.food {
                    old(self).resources.food as int
                } else {
                    amounts.food as int
                };
                &&& not_removed.wood == amounts.wood - taken_wood
                &&& not_removed.food == amounts.food - taken_food
                &&& final(self).resources.wood == old(self).resources.wood - taken_wood
                &&& final(self).resources.food == old(self).resources.food - taken_food
            }),
            final(self).max_amount == old(self).max_amount,
    {
        let wood_left = self.remove(ResourceKind::Wood, amounts.wood);
        let food_left = self.remove(ResourceKind::Food, amounts.food);
        ResourceAmounts { wood: wood_left, food: food_left }
    }

    /// The total stored over all kinds, in a wider integer so the sum cannot
    /// overflow.
    pub fn get_stored_amount(&self) -> (r: u128)
        ensures
            r == self.resources.wood + self.resources.food,
    {
        self.resources.wood as u128 + self.resources.food as u128
    }
}

} // verus!
