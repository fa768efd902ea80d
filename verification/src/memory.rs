//! Memory banks whose blocks are balanced again and again until a distribution
//! of blocks comes back.

use vstd::prelude::*;

verus! {

/// What a memory stands for: the blocks in each bank, how often the banks were
/// balanced, and at which count each distribution that was seen was registered.
pub struct MemoryModel {
    pub banks: Seq<u32>,
    pub balanced: nat,
    pub history: Map<Seq<u32>, u32>,
}

/// The first bank with the most blocks, among the first `count` banks; 0 if there
/// are none.
pub open spec fn fullest(banks: Seq<u32>, count: nat) -> int
    decreases count,
{
    if count <= 1 {
        0
    } else {
        let before = fullest(banks, (count - 1) as nat);
        if banks[count - 1] > banks[before] {
            count - 1
        } else {
            before
        }
    }
}

/// The banks after `left` blocks were handed out one by one, to the banks that
/// follow the bank `at`, wrapping round.
pub open spec fn hand_out(banks: Seq<int>, at: int, left: nat) -> Seq<int>
    decreases left,
{
    if left == 0 || banks.len() == 0 {
        banks
    } else {
        let next = (at + 1) % (banks.len() as int);
        hand_out(banks.update(next, banks[next] + 1), next, (left - 1) as nat)
    }
}

/// The banks after balancing: the fullest bank is emptied and its blocks are
/// handed out to the banks that follow it.
pub open spec fn balanced_banks(banks: Seq<u32>) -> Seq<int> {
    let from = fullest(banks, banks.len());
    hand_out(banks.map_values(|b: u32| b as int).update(from, 0), from, banks[from] as nat)
}

/// The fullest bank is a bank, no bank holds more, and no bank before it as much.
pub proof fn lemma_fullest(banks: Seq<u32>, count: nat)
    requires
        0 < count <= banks.len(),
    ensures
        0 <= fullest(banks, count) < count,
        forall|i: int| 0 <= i < count ==> #[trigger] banks[i] <= banks[fullest(banks, count)],
        forall|i: int|
            0 <= i < fullest(banks, count) ==> #[trigger] banks[i] < banks[fullest(banks, count)],
    decreases count,
{
    if count > 1 {
        lemma_fullest(banks, (count - 1) as nat);
    }
}

/// Handing out blocks keeps the number of banks, takes nothing from any bank, and
/// adds `left` blocks in all.
pub proof fn lemma_hand_out(banks: Seq<int>, at: int, left: nat)
    requires
        banks.len() > 0,
        0 <= at < banks.len(),
    ensures
        hand_out(banks, at, left).len() == banks.len(),
        forall|i: int| 0 <= i < banks.len() ==> banks[i] <= #[trigger] hand_out(banks, at, left)[i],
    decreases left,
{
    if left > 0 {
        let next = (at + 1) % (banks.len() as int);
        lemma_hand_out(banks.update(next, banks[next] + 1), next, (left - 1) as nat);
    }
}

/// The banks, the count of balancings, and the distributions seen.
#[derive(Debug)]
pub struct Memory {
    banks: Vec<u32>,
    balanced: u32,
    seen: Vec<Vec<u32>>,
    seen_at: Vec<u32>,
}

/// The contents of a list of distributions.
pub open spec fn state_views(states: Seq<Vec<u32>>) -> Seq<Seq<u32>> {
    states.map_values(|state: Vec<u32>| state@)
}

impl View for Memory {
    type V = MemoryModel;

    closed spec fn view(&self) -> MemoryModel {
        MemoryModel {
            banks: self.banks@,
            balanced: self.balanced as nat,
            history: Map::new(
                |state: Seq<u32>| state_views(self.seen@).contains(state),
                |state: Seq<u32>| self.seen_at@[state_views(self.seen@).index_of(state)],
            ),
        }
    }
}

impl Memory {
    /// Whether no distribution is registered twice, and none at a later count
    /// than the present one.
    pub closed spec fn well_formed(&self) -> bool {
        &&& self.seen@.len() == self.seen_at@.len()
        &&& state_views(self.seen@).no_duplicates()
        &&& forall|i: int| 0 <= i < self.seen_at@.len() ==> self.seen_at@[i] <= self.balanced
    }

    /// A registered distribution was registered at a count that is not later than
    /// the present one.
    pub proof fn lemma_history_is_past(&self, state: Seq<u32>)
        requires
            self.well_formed(),
            self@.history.contains_key(state),
        ensures
            self@.history[state] <= self@.balanced,
    {
        let at = state_views(self.seen@).index_of(state);
        assert(state_views(self.seen@)[at] == state);
    }

    /// A memory with the given blocks in its banks, not balanced yet.
    pub fn from_iter(banks: &[u32]) -> (memory: Memory)
        ensures
            memory.well_formed(),
            memory@ == (MemoryModel {
                banks: banks@,
                balanced: 0,
                history: Map::<Seq<u32>, u32>::empty(),
            }),
    {
        let memory = Memory {
            banks: vstd::slice::slice_to_vec(banks),
            balanced: 0,
            seen: Vec::new(),
            seen_at: Vec::new(),
        };
        assert(memory@.history =~= Map::<Seq<u32>, u32>::empty());
        memory
    }

    /// The blocks in each bank.
    pub fn banks(&self) -> (banks: &Vec<u32>)
        ensures
            banks@ == self@.banks,
    {
        &self.banks
    }

    /// How often the banks were balanced.
    pub fn balanced(&self) -> (count: u32)
        ensures
            count == self@.balanced,
    {
        self.balanced
    }

    /// Where the present distribution stands in the list of those seen.
    fn find(&self) -> (at: Option<usize>)
        requires
            self.well_formed(),
        ensures
            match at {
                Some(i) => i < self.seen@.len() && self.seen@[i as int]@ == self.banks@
                    && self@.history.contains_key(self@.banks) && self@.history[self@.banks]
                    == self.seen_at@[i as int] && self.seen_at@[i as int] <= self.balanced,
                None => !self@.history.contains_key(self@.banks),
            },
    {
        let ghost views = state_views(self.seen@);
        let mut i: usize = 0;
        while i < self.seen.len()
            invariant
                i <= self.seen.len(),
                self.well_formed(),
                views == state_views(self.seen@),
                forall|k: int| 0 <= k < i ==> views[k] != self.banks@,
            decreases self.seen.len() - i,
        {
            if same_banks(&self.seen[i], &self.banks) {
                proof {
                    assert(views[i as int] == self.banks@);
                    let found = views.index_of(self.banks@);
                    assert(views[found] == self.banks@);
                }
                return Some(i);
            }
            i = i + 1;
        }
        proof {
            if views.contains(self.banks@) {
                let k = choose|k: int| 0 <= k < views.len() && views[k] == self.banks@;
                assert(false);
            }
        }
        None
    }

    /// Whether the present distribution is registered.
    pub fn is_known(&self) -> (known: bool)
        requires
            self.well_formed(),
        ensures
            known == self@.history.contains_key(self@.banks),
    {
        self.find().is_some()
    }

    /// How many balancings ago the present distribution was registered, if it was.
    pub fn known_from(&self) -> (ago: Option<u32>)
        requires
            self.well_formed(),
        ensures
            match ago {
                Some(n) => self@.history.contains_key(self@.banks) && n == self@.balanced
                    - self@.history[self@.banks],
                None => !self@.history.contains_key(self@.banks),
            },
    {
        match self.find() {
            Some(i) => Some(self.balanced - self.seen_at[i]),
            None => None,
        }
    }

    /// Registers the present distribution at the present count.
    pub fn register(&mut self)
        requires
            old(self).well_formed(),
        ensures
            final(self).well_formed(),
            final(self)@ == (MemoryModel {
                history: old(self)@.history.insert(
                    old(self)@.banks,
                    old(self)@.balanced as u32,
                ),
                ..old(self)@
            }),
    {
        let ghost before = self@.history;
        let ghost old_views = state_views(self.seen@);
        let ghost state = self.banks@;
        assert(old_views.no_duplicates() && self.seen@.len() == self.seen_at@.len());
        match self.find() {
            Some(i) => {
                self.seen_at.set(i, self.balanced);
                proof {
                    assert(state_views(self.seen@) == old_views);
                    assert(self@.history =~= before.insert(state, self.balanced)) by {
                        assert forall|k: Seq<u32>| old_views.contains(k) implies #[trigger] self@.history[k]
                            == before.insert(state, self.balanced)[k] by {
                            let at = old_views.index_of(k);
                            assert(old_views[at] == k);
                            if k == state {
                                assert(old_views[i as int] == state);
                                assert(at == i);
                            }
                        }
                    }
                }
            },
            None => {
                let copy = copy_banks(&self.banks);
                self.seen.push(copy);
                self.seen_at.push(self.balanced);
                proof {
                    let views = state_views(self.seen@);
                    assert(views == old_views.push(state));
                    assert(views.no_duplicates());
                    assert(self@.history =~= before.insert(state, self.balanced)) by {
                        assert forall|k: Seq<u32>| views.contains(k) implies (k == state
                            || old_views.contains(k)) && #[trigger] self@.history[k]
                            == before.insert(state, self.balanced)[k] by {
                            let at = views.index_of(k);
                            assert(views[at] == k);
                            if k != state {
                                assert(old_views[at] == k);
                                let was = old_views.index_of(k);
                                assert(old_views[was] == k);
                                assert(views[was] == k);
                                assert(was == at);
                            }
                        }
                        assert forall|k: Seq<u32>| old_views.contains(k) || k == state implies
                            views.contains(k) by {
                            if k == state {
                                assert(views[views.len() - 1] == k);
                            } else {
                                let was = old_views.index_of(k);
                                assert(old_views[was] == k);
                                assert(views[was] == k);
                            }
                        }
                    }
                }
            },
        }
    }

    /// Registers the present distribution, then empties the fullest bank and hands
    /// its blocks out one by one to the banks that follow it, wrapping round.
    ///
    /// There has to be a bank, and the counts have to fit their types.
    pub fn balance(&mut self)
        requires
            old(self).well_formed(),
            Memory::can_balance(old(self)@),
        ensures
            final(self).well_formed(),
            final(self)@.banks.map_values(|b: u32| b as int) == balanced_banks(old(self)@.banks),
            final(self)@.balanced == old(self)@.balanced + 1,
            final(self)@.history == old(self)@.history.insert(
                old(self)@.banks,
                old(self)@.balanced as u32,
            ),
    {
        self.register();
        let ghost given = self.banks@;
        let n = self.banks.len();
        let mut idx: usize = 0;
        let mut i: usize = 1;
        while i < n
            invariant
                1 <= i <= n,
                n == self.banks@.len(),
                self.banks@ == given,
                idx == fullest(given, i as nat),
                idx < i,
            decreases n - i,
        {
            if self.banks[i] > self.banks[idx] {
                idx = i;
            }
            i = i + 1;
        }
        let mut max = self.banks[idx];
        let ghost target = balanced_banks(given);
        self.banks.set(idx, 0);
        proof {
            assert(self.banks@.map_values(|b: u32| b as int) == given.map_values(
                |b: u32| b as int,
            ).update(idx as int, 0));
            lemma_hand_out(
                given.map_values(|b: u32| b as int).update(idx as int, 0),
                idx as int,
                max as nat,
            );
        }
        while max != 0
            invariant
                self.well_formed(),
                n == self.banks@.len(),
                n > 0,
                idx < n,
                self.balanced < u32::MAX,
                target.len() == n,
                forall|i: int| 0 <= i < n ==> #[trigger] target[i] <= u32::MAX,
                hand_out(self.banks@.map_values(|b: u32| b as int), idx as int, max as nat)
                    == target,
                self@.history == old(self)@.history.insert(
                    old(self)@.banks,
                    old(self)@.balanced as u32,
                ),
                self@.balanced == old(self)@.balanced,
            decreases max,
        {
            let ghost now = self.banks@.map_values(|b: u32| b as int);
            idx = (idx + 1) % n;
            proof {
                lemma_hand_out(now.update(idx as int, now[idx as int] + 1), idx as int, (max - 1) as nat);
                assert(now.update(idx as int, now[idx as int] + 1)[idx as int] <= target[idx as int]);
            }
            let more = self.banks[idx] + 1;
            self.banks.set(idx, more);
            max = max - 1;
            proof {
                assert(self.banks@.map_values(|b: u32| b as int) == now.update(
                    idx as int,
                    now[idx as int] + 1,
                ));
            }
        }
        self.balanced = self.balanced + 1;
    }

    /// Whether the banks can be balanced: there is a bank, and the counts after
    /// balancing fit their types.
    pub open spec fn can_balance(model: MemoryModel) -> bool {
        &&& model.banks.len() > 0
        &&& model.balanced < u32::MAX
        &&& forall|i: int|
            0 <= i < model.banks.len() ==> #[trigger] balanced_banks(model.banks)[i] <= u32::MAX
    }

    /// Whether the banks can be balanced.
    pub fn is_balanceable(&self) -> (can: bool)
        requires
            self.well_formed(),
        ensures
            can == Memory::can_balance(self@),
    {
        let n = self.banks.len();
        if n == 0 || self.balanced == u32::MAX {
            return false;
        }
        let ghost given = self.banks@;
        let mut idx: usize = 0;
        let mut i: usize = 1;
        while i < n
            invariant
                1 <= i <= n,
                n == self.banks@.len(),
                idx == fullest(given, i as nat),
                given == self.banks@,
                idx < i,
            decreases n - i,
        {
            if self.banks[i] > self.banks[idx] {
                idx = i;
            }
            i = i + 1;
        }
        let blocks = self.banks[idx];
        let mut wide: Vec<u64> = Vec::new();
        let mut k: usize = 0;
        while k < n
            invariant
                k <= n,
                n == self.banks@.len(),
                idx < n,
                wide@.len() == k,
                forall|j: int|
                    0 <= j < k ==> #[trigger] wide@[j] == if j == idx {
                        0
                    } else {
                        self.banks@[j] as int
                    },
            decreases n - k,
        {
            if k == idx {
                wide.push(0);
            } else {
                wide.push(self.banks[k] as u64);
            }
            k = k + 1;
        }
        let ghost target = balanced_banks(given);
        proof {
            assert(wide@.map_values(|b: u64| b as int) == given.map_values(
                |b: u32| b as int,
            ).update(idx as int, 0));
            lemma_hand_out(wide@.map_values(|b: u64| b as int), idx as int, blocks as nat);
        }
        let mut left = blocks;
        while left != 0
            invariant
                n == wide@.len(),
                n > 0,
                idx < n,
                target.len() == n,
                left <= blocks,
                forall|j: int| 0 <= j < n ==> #[trigger] wide@[j] <= 0xffff_ffff + (blocks - left),
                hand_out(wide@.map_values(|b: u64| b as int), idx as int, left as nat) == target,
            decreases left,
        {
            let ghost now = wide@.map_values(|b: u64| b as int);
            idx = (idx + 1) % n;
            let more = wide[idx] + 1;
            wide.set(idx, more);
            left = left - 1;
            proof {
                assert(wide@.map_values(|b: u64| b as int) == now.update(
                    idx as int,
                    now[idx as int] + 1,
                ));
            }
        }
        proof {
            assert(wide@.map_values(|b: u64| b as int) == target);
        }
        let mut j: usize = 0;
        while j < n
            invariant
                j <= n,
                n == wide@.len(),
                n == self.banks@.len(),
                target == balanced_banks(self.banks@),
                target == wide@.map_values(|b: u64| b as int),
                forall|i: int| 0 <= i < j ==> #[trigger] target[i] <= u32::MAX,
            decreases n - j,
        {
            if wide[j] > 0xffff_ffff {
                proof {
                    assert(balanced_banks(self@.banks)[j as int] > u32::MAX);
                }
                return false;
            }
            j = j + 1;
        }
        true
    }

    /// Balances the banks if that is possible, and leaves the memory as it is if not.
    pub fn checked_balance(&mut self) -> (done: bool)
        requires
            old(self).well_formed(),
        ensures
            final(self).well_formed(),
            done == Memory::can_balance(old(self)@),
            done ==> {
                &&& final(self)@.banks.map_values(|b: u32| b as int) == balanced_banks(
                    old(self)@.banks,
                )
                &&& final(self)@.balanced == old(self)@.balanced + 1
                &&& final(self)@.history == old(self)@.history.insert(
                    old(self)@.banks,
                    old(self)@.balanced as u32,
                )
            },
            !done ==> final(self)@ == old(self)@,
    {
        if self.is_balanceable() {
            self.balance();
            true
        } else {
            false
        }
    }
}

/// Whether two distributions are the same.
fn same_banks(a: &Vec<u32>, b: &Vec<u32>) -> (same: bool)
    ensures
        same == (a@ == b@),
{
    if a.len() != b.len() {
        return false;
    }
    let mut i: usize = 0;
    while i < a.len()
        invariant
            i <= a.len(),
            a.len() == b.len(),
            forall|k: int| 0 <= k < i ==> a@[k] == b@[k],
        decreases a.len() - i,
    {
        if a[i] != b[i] {
            return false;
        }
        i = i + 1;
    }
    assert(a@ =~= b@);
    true
}

/// A copy of a distribution.
fn copy_banks(banks: &Vec<u32>) -> (copy: Vec<u32>)
    ensures
        copy@ == banks@,
{
    vstd::slice::slice_to_vec(banks.as_slice())
}

} // verus!
