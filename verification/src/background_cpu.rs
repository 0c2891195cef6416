//! A budget for sustained background CPU work.
use vstd::prelude::*;

verus! {

/// The kinds of work that share the budget.
#[derive(Clone, Copy, Debug, PartialEq, Eq, Structural)]
pub enum BackgroundCpuCategory {
    Generation,
    PacketPreparation,
}

impl BackgroundCpuCategory {
    /// The other kind of work.
    pub open spec fn other(self) -> BackgroundCpuCategory {
        match self {
            BackgroundCpuCategory::Generation => BackgroundCpuCategory::PacketPreparation,
            BackgroundCpuCategory::PacketPreparation => BackgroundCpuCategory::Generation,
        }
    }
}

/// The slots in use.
#[derive(Clone, Copy, Debug, PartialEq, Eq, Structural)]
pub struct Usage {
    pub total: usize,
    pub generation: usize,
    pub packet_preparation: usize,
}

impl Usage {
    /// No slot in use.
    pub open spec fn none() -> Usage {
        Usage { total: 0, generation: 0, packet_preparation: 0 }
    }

    /// The slots in use by a category.
    pub open spec fn of(self, category: BackgroundCpuCategory) -> usize {
        match category {
            BackgroundCpuCategory::Generation => self.generation,
            BackgroundCpuCategory::PacketPreparation => self.packet_preparation,
        }
    }

    /// The usage with `by` slots more or less in use by a category.
    pub open spec fn changed(self, category: BackgroundCpuCategory, by: int) -> Usage {
        match category {
            BackgroundCpuCategory::Generation => Usage {
                total: (self.total + by) as usize,
                generation: (self.generation + by) as usize,
                ..self
            },
            BackgroundCpuCategory::PacketPreparation => Usage {
                total: (self.total + by) as usize,
                packet_preparation: (self.packet_preparation + by) as usize,
                ..self
            },
        }
    }
}

impl Default for Usage {
    fn default() -> (usage: Usage)
        ensures
            usage == Usage::none(),
    {
        Usage { total: 0, generation: 0, packet_preparation: 0 }
    }
}

/// `value`, but at least `low` and at most `high`.
pub open spec fn held_between(value: int, low: int, high: int) -> int {
    if value < low {
        low
    } else if value > high {
        high
    } else {
        value
    }
}

/// A 64-bit counter raised by an amount that is cut off at 64 bits; it wraps.
pub open spec fn raised_by_nanos(counter: u64, nanos: u128) -> u64 {
    ((counter + (if nanos > u64::MAX {
        u64::MAX as int
    } else {
        nanos as int
    })) % 0x1_0000_0000_0000_0000) as u64
}

/// A 64-bit counter raised by one; it wraps.
pub open spec fn raised_by_one(counter: u64) -> u64 {
    ((counter + 1) % 0x1_0000_0000_0000_0000) as u64
}

/// Leave to do background work of one category.
#[derive(Debug)]
pub struct BackgroundCpuPermit {
    category: BackgroundCpuCategory,
}

impl BackgroundCpuPermit {
    /// What the permit is for.
    pub closed spec fn purpose(&self) -> BackgroundCpuCategory {
        self.category
    }

    /// What the permit is for.
    pub fn category(&self) -> (category: BackgroundCpuCategory)
        ensures
            category == self.purpose(),
    {
        self.category
    }
}

/// Coordinates sustained CPU work performed by otherwise independent executors.
pub struct BackgroundCpuBudget {
    capacity: usize,
    generation_limit: usize,
    packet_preparation_limit: usize,
    usage: Usage,
    generation_wait_nanos: u64,
    packet_preparation_wait_nanos: u64,
    generation_acquisitions: u64,
    packet_preparation_acquisitions: u64,
}

impl BackgroundCpuBudget {
    /// The slots of the budget.
    pub closed spec fn slots(&self) -> usize {
        self.capacity
    }

    /// The slots that a category may use.
    pub closed spec fn limit(&self, category: BackgroundCpuCategory) -> usize {
        match category {
            BackgroundCpuCategory::Generation => self.generation_limit,
            BackgroundCpuCategory::PacketPreparation => self.packet_preparation_limit,
        }
    }

    /// The slots in use.
    pub closed spec fn in_use(&self) -> Usage {
        self.usage
    }

    /// The time that acquisitions of a category have waited.
    pub closed spec fn waited(&self, category: BackgroundCpuCategory) -> u64 {
        match category {
            BackgroundCpuCategory::Generation => self.generation_wait_nanos,
            BackgroundCpuCategory::PacketPreparation => self.packet_preparation_wait_nanos,
        }
    }

    /// The permits of a category handed out so far.
    pub closed spec fn granted(&self, category: BackgroundCpuCategory) -> u64 {
        match category {
            BackgroundCpuCategory::Generation => self.generation_acquisitions,
            BackgroundCpuCategory::PacketPreparation => self.packet_preparation_acquisitions,
        }
    }

    /// A slot is free for the category.
    pub open spec fn has_slot(&self, category: BackgroundCpuCategory) -> bool {
        self.in_use().total < self.slots() && self.in_use().of(category) < self.limit(category)
    }

    /// The limits lie within the capacity and the usage within the limits.
    pub open spec fn wf(&self) -> bool {
        &&& 1 <= self.limit(BackgroundCpuCategory::Generation) <= self.slots()
        &&& 1 <= self.limit(BackgroundCpuCategory::PacketPreparation) <= self.slots()
        &&& self.in_use().total <= self.slots()
        &&& self.in_use().total == self.in_use().generation + self.in_use().packet_preparation
        &&& self.in_use().generation <= self.limit(BackgroundCpuCategory::Generation)
        &&& self.in_use().packet_preparation <= self.limit(BackgroundCpuCategory::PacketPreparation)
    }

    /// Capacity and limits are those of another budget.
    pub open spec fn same_limits(&self, other: BackgroundCpuBudget) -> bool {
        &&& self.slots() == other.slots()
        &&& forall|category: BackgroundCpuCategory| #[trigger]
            self.limit(category) == other.limit(category)
    }

    /// A budget for a machine with `parallelism` hardware threads, of which two are
    /// left alone. Each category may use all slots but one, so neither chunk
    /// generation nor packet preparation can starve the other.
    pub fn automatic(packet_preparation_limit: usize, parallelism: usize) -> (budget:
        BackgroundCpuBudget)
        ensures
            budget.wf(),
            budget.slots() == (if parallelism > 3 {
                parallelism - 2
            } else {
                1
            }),
            budget.limit(BackgroundCpuCategory::Generation) == (if budget.slots() > 2 {
                budget.slots() - 1
            } else {
                1
            }),
            budget.limit(BackgroundCpuCategory::PacketPreparation) == held_between(
                packet_preparation_limit as int,
                1,
                budget.limit(BackgroundCpuCategory::Generation) as int,
            ),
            budget.in_use() == Usage::none(),
            1 <= packet_preparation_limit <= budget.limit(BackgroundCpuCategory::Generation)
                ==> budget.limit(BackgroundCpuCategory::PacketPreparation)
                == packet_preparation_limit,
            packet_preparation_limit > budget.limit(BackgroundCpuCategory::Generation)
                ==> budget.limit(BackgroundCpuCategory::PacketPreparation) == budget.limit(
                BackgroundCpuCategory::Generation,
            ),
            packet_preparation_limit == 0 ==> budget.limit(
                BackgroundCpuCategory::PacketPreparation,
            ) == 1,
            budget.in_use().total == 0,
            budget.in_use().generation == 0,
            budget.in_use().packet_preparation == 0,
            forall|category: BackgroundCpuCategory|
                #![trigger budget.waited(category)]
                #![trigger budget.granted(category)]
                budget.waited(category) == 0 && budget.granted(category) == 0,
    {
        let spare: usize = if parallelism > 2 {
            parallelism - 2
        } else {
            0
        };
        let capacity: usize = if spare > 1 {
            spare
        } else {
            1
        };
        let category_max: usize = if capacity > 2 {
            capacity - 1
        } else {
            1
        };
        let packet_limit: usize = if packet_preparation_limit < category_max {
            packet_preparation_limit
        } else {
            category_max
        };
        BackgroundCpuBudget::new(capacity, category_max, packet_limit)
    }

    /// A budget with these limits, each held between one slot and all slots.
    pub fn new(capacity: usize, generation_limit: usize, packet_preparation_limit: usize) -> (budget:
        BackgroundCpuBudget)
        ensures
            budget.wf(),
            budget.slots() == (if capacity > 1 {
                capacity
            } else {
                1
            }),
            budget.limit(BackgroundCpuCategory::Generation) == held_between(
                generation_limit as int,
                1,
                budget.slots() as int,
            ),
            budget.limit(BackgroundCpuCategory::PacketPreparation) == held_between(
                packet_preparation_limit as int,
                1,
                budget.slots() as int,
            ),
            budget.in_use() == Usage::none(),
            budget.in_use().total == 0,
            budget.in_use().generation == 0,
            budget.in_use().packet_preparation == 0,
            1 <= generation_limit <= capacity ==> budget.limit(BackgroundCpuCategory::Generation)
                == generation_limit,
            generation_limit > capacity ==> budget.limit(BackgroundCpuCategory::Generation)
                == budget.slots(),
            generation_limit == 0 ==> budget.limit(BackgroundCpuCategory::Generation) == 1,
            1 <= packet_preparation_limit <= capacity ==> budget.limit(
                BackgroundCpuCategory::PacketPreparation,
            ) == packet_preparation_limit,
            packet_preparation_limit > capacity ==> budget.limit(
                BackgroundCpuCategory::PacketPreparation,
            ) == budget.slots(),
            packet_preparation_limit == 0 ==> budget.limit(
                BackgroundCpuCategory::PacketPreparation,
            ) == 1,
            forall|category: BackgroundCpuCategory|
                #![trigger budget.waited(category)]
                #![trigger budget.granted(category)]
                budget.waited(category) == 0 && budget.granted(category) == 0,
    {
        let capacity: usize = if capacity > 1 {
            capacity
        } else {
            1
        };
        BackgroundCpuBudget {
            capacity,
            generation_limit: if generation_limit < 1 {
                1
            } else if generation_limit > capacity {
                capacity
            } else {
                generation_limit
            },
            packet_preparation_limit: if packet_preparation_limit < 1 {
                1
            } else if packet_preparation_limit > capacity {
                capacity
            } else {
                packet_preparation_limit
            },
            usage: Usage::default(),
            generation_wait_nanos: 0,
            packet_preparation_wait_nanos: 0,
            generation_acquisitions: 0,
            packet_preparation_acquisitions: 0,
        }
    }

    /// The slots of the budget.
    pub fn capacity(&self) -> (capacity: usize)
        ensures
            capacity == self.slots(),
    {
        self.capacity
    }

    /// The slots that chunk generation may use.
    pub fn generation_limit(&self) -> (limit: usize)
        ensures
            limit == self.limit(BackgroundCpuCategory::Generation),
    {
        self.generation_limit
    }

    /// The slots that packet preparation may use.
    pub fn packet_preparation_limit(&self) -> (limit: usize)
        ensures
            limit == self.limit(BackgroundCpuCategory::PacketPreparation),
    {
        self.packet_preparation_limit
    }

    /// Take a slot for a category after waiting for `waited_nanos`. Returns `None`,
    /// and changes nothing, while the caller still has to wait.
    pub fn acquire(&mut self, category: BackgroundCpuCategory, waited_nanos: u128) -> (r: Option<
        BackgroundCpuPermit,
    >)
        requires
            old(self).wf(),
        ensures
            final(self).wf(),
            final(self).same_limits(*old(self)),
            r is Some <==> old(self).has_slot(category),
            r is Some <==> old(self).in_use().total < old(self).slots() && match category {
                BackgroundCpuCategory::Generation => old(self).in_use().generation < old(self).limit(BackgroundCpuCategory::Generation),
                BackgroundCpuCategory::PacketPreparation => old(self).in_use().packet_preparation
                    < old(self).limit(BackgroundCpuCategory::PacketPreparation),
            },
            r is Some ==> final(self).in_use().total == old(self).in_use().total + 1,
            r is Some && category == BackgroundCpuCategory::Generation
                ==> final(self).in_use().generation == old(self).in_use().generation + 1
                && final(self).in_use().packet_preparation
                == old(self).in_use().packet_preparation,
            r is Some && category == BackgroundCpuCategory::PacketPreparation
                ==> final(self).in_use().packet_preparation
                == old(self).in_use().packet_preparation + 1
                && final(self).in_use().generation == old(self).in_use().generation,
            r is Some && old(self).granted(category) < u64::MAX ==> final(self).granted(category)
                == old(self).granted(category) + 1,
            r is Some && old(self).waited(category) + waited_nanos <= u64::MAX
                ==> final(self).waited(category) == old(self).waited(category) + waited_nanos,
            r is None ==> *final(self) == *old(self),
            r matches Some(permit) ==> {
                &&& permit.purpose() == category
                &&& final(self).in_use() == old(self).in_use().changed(category, 1)
                &&& final(self).granted(category) == raised_by_one(old(self).granted(category))
                &&& final(self).waited(category) == raised_by_nanos(
                    old(self).waited(category),
                    waited_nanos,
                )
                &&& final(self).granted(category.other()) == old(self).granted(category.other())
                &&& final(self).waited(category.other()) == old(self).waited(category.other())
            },
    {
        let full: bool = self.usage.total >= self.capacity || match category {
            BackgroundCpuCategory::Generation => self.usage.generation >= self.generation_limit,
            BackgroundCpuCategory::PacketPreparation => {
                self.usage.packet_preparation >= self.packet_preparation_limit
            },
        };
        if full {
            return None;
        }
        self.usage.total = self.usage.total + 1;
        let waited: u64 = if waited_nanos > u64::MAX as u128 {
            u64::MAX
        } else {
            waited_nanos as u64
        };
        match category {
            BackgroundCpuCategory::Generation => {
                self.usage.generation = self.usage.generation + 1;
                self.generation_acquisitions = self.generation_acquisitions.wrapping_add(1);
                self.generation_wait_nanos = self.generation_wait_nanos.wrapping_add(waited);
            },
            BackgroundCpuCategory::PacketPreparation => {
                self.usage.packet_preparation = self.usage.packet_preparation + 1;
                self.packet_preparation_acquisitions =
                self.packet_preparation_acquisitions.wrapping_add(1);
                self.packet_preparation_wait_nanos =
                self.packet_preparation_wait_nanos.wrapping_add(waited);
            },
        }
        Some(BackgroundCpuPermit { category })
    }

    /// Give a slot back.
    pub fn release(&mut self, permit: BackgroundCpuPermit)
        requires
            old(self).wf(),
            old(self).in_use().of(permit.purpose()) > 0,
        ensures
            final(self).wf(),
            final(self).same_limits(*old(self)),
            final(self).in_use() == old(self).in_use().changed(permit.purpose(), -1),
            final(self).in_use().total == old(self).in_use().total - 1,
            permit.purpose() == BackgroundCpuCategory::Generation
                ==> final(self).in_use().generation == old(self).in_use().generation - 1
                && final(self).in_use().packet_preparation
                == old(self).in_use().packet_preparation,
            permit.purpose() == BackgroundCpuCategory::PacketPreparation
                ==> final(self).in_use().packet_preparation
                == old(self).in_use().packet_preparation - 1
                && final(self).in_use().generation == old(self).in_use().generation,
            forall|category: BackgroundCpuCategory|
                #![trigger final(self).waited(category)]
                #![trigger final(self).granted(category)]
                final(self).waited(category) == old(self).waited(category)
                    && final(self).granted(category) == old(self).granted(category),
    {
        self.usage.total = self.usage.total - 1;
        match permit.category {
            BackgroundCpuCategory::Generation => {
                self.usage.generation = self.usage.generation - 1;
            },
            BackgroundCpuCategory::PacketPreparation => {
                self.usage.packet_preparation = self.usage.packet_preparation - 1;
            },
        }
    }

    /// The time that acquisitions of a category have waited.
    pub fn wait_nanos(&self, category: BackgroundCpuCategory) -> (nanos: u64)
        ensures
            nanos == self.waited(category),
    {
        match category {
            BackgroundCpuCategory::Generation => self.generation_wait_nanos,
            BackgroundCpuCategory::PacketPreparation => self.packet_preparation_wait_nanos,
        }
    }

    /// The permits of a category handed out so far.
    pub fn acquisitions(&self, category: BackgroundCpuCategory) -> (n: u64)
        ensures
            n == self.granted(category),
    {
        match category {
            BackgroundCpuCategory::Generation => self.generation_acquisitions,
            BackgroundCpuCategory::PacketPreparation => self.packet_preparation_acquisitions,
        }
    }
}

/// Where each category may use all slots but one of at least two, neither can starve
/// the other: a category that holds no slot gets one whatever the other holds.
pub proof fn law_no_category_starves_the_other(
    budget: BackgroundCpuBudget,
    category: BackgroundCpuCategory,
)
    requires
        budget.wf(),
        budget.slots() >= 2,
        budget.limit(category.other()) <= budget.slots() - 1,
        budget.in_use().of(category) == 0,
    ensures
        budget.has_slot(category),
{
}

/// Giving a slot back undoes what taking it did to the usage.
pub proof fn law_release_undoes_acquire(usage: Usage, category: BackgroundCpuCategory)
    requires
        usage.total < usize::MAX,
        usage.of(category) < usize::MAX,
    ensures
        usage.changed(category, 1).changed(category, -1) == usage,
{
}

/// Once nothing is in use, every category has a slot.
pub proof fn law_idle_budget_has_slots(budget: BackgroundCpuBudget, category: BackgroundCpuCategory)
    requires
        budget.wf(),
        budget.in_use() == Usage::none(),
    ensures
        budget.has_slot(category),
{
}

/// A category gets a slot exactly while slots are free and the category is below its
/// limit, whatever the other category does.
pub proof fn law_slots_are_given_up_to_the_limits(budget: BackgroundCpuBudget)
    ensures
        budget.has_slot(BackgroundCpuCategory::Generation) <==> budget.in_use().total
            < budget.slots() && budget.in_use().generation < budget.limit(
            BackgroundCpuCategory::Generation,
        ),
        budget.has_slot(BackgroundCpuCategory::PacketPreparation) <==> budget.in_use().total
            < budget.slots() && budget.in_use().packet_preparation < budget.limit(
            BackgroundCpuCategory::PacketPreparation,
        ),
{
}

/// From an idle budget, one category can take exactly as many slots in a row as its limit
/// and the capacity admit: `budgets` are the states of such a row, one slot apart.
pub proof fn law_idle_budget_gives_slots_in_a_row(
    budgets: Seq<BackgroundCpuBudget>,
    category: BackgroundCpuCategory,
    i: int,
)
    requires
        budgets.len() > 0,
        budgets[0].in_use().total == 0,
        budgets[0].in_use().generation == 0,
        budgets[0].in_use().packet_preparation == 0,
        forall|j: int|
            0 <= j < budgets.len() - 1 ==> {
                &&& (#[trigger] budgets[j + 1]).slots() == budgets[j].slots()
                &&& budgets[j + 1].limit(category) == budgets[j].limit(category)
                &&& budgets[j + 1].in_use().total == budgets[j].in_use().total + 1
                &&& budgets[j + 1].in_use().of(category) == budgets[j].in_use().of(category) + 1
            },
        0 <= i < budgets.len(),
    ensures
        budgets[i].in_use().total == i,
        budgets[i].slots() == budgets[0].slots(),
        budgets[i].limit(category) == budgets[0].limit(category),
        budgets[i].has_slot(category) <==> i < budgets[0].slots() && i < budgets[0].limit(category),
{
    lemma_row(budgets, category, i);
}

proof fn lemma_row(budgets: Seq<BackgroundCpuBudget>, category: BackgroundCpuCategory, i: int)
    requires
        budgets.len() > 0,
        budgets[0].in_use().total == 0,
        budgets[0].in_use().generation == 0,
        budgets[0].in_use().packet_preparation == 0,
        forall|j: int|
            0 <= j < budgets.len() - 1 ==> {
                &&& (#[trigger] budgets[j + 1]).slots() == budgets[j].slots()
                &&& budgets[j + 1].limit(category) == budgets[j].limit(category)
                &&& budgets[j + 1].in_use().total == budgets[j].in_use().total + 1
                &&& budgets[j + 1].in_use().of(category) == budgets[j].in_use().of(category) + 1
            },
        0 <= i < budgets.len(),
    ensures
        budgets[i].in_use().total == i,
        budgets[i].in_use().of(category) == i,
        budgets[i].slots() == budgets[0].slots(),
        budgets[i].limit(category) == budgets[0].limit(category),
    decreases i,
{
    if i > 0 {
        lemma_row(budgets, category, i - 1);
        assert(budgets[i - 1 + 1].slots() == budgets[i - 1].slots());
    }
}

} // verus!
