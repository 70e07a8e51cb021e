//! Per-code referral totals, created on a code's first swap and never
//! removed.
use vstd::prelude::*;

verus! {

/// Running totals of one referral code.
#[derive(Clone, Copy, Debug, PartialEq, Eq, Structural)]
pub struct CodeStats {
    pub total_rewards_earned: u128,
    pub total_user_bonuses: u128,
    pub total_swaps: u64,
}

/// Totals of a code that has not been used yet.
pub open spec fn zero_stats() -> CodeStats {
    CodeStats { total_rewards_earned: 0, total_user_bonuses: 0, total_swaps: 0 }
}

/// The totals before a swap: the recorded ones, or zero for a new code.
pub open spec fn stats_or_zero(m: Map<Seq<char>, CodeStats>, code: Seq<char>) -> CodeStats {
    if m.contains_key(code) {
        m[code]
    } else {
        zero_stats()
    }
}

/// Adding one swap to `prev` stays within the counters' widths.
pub open spec fn record_fits(prev: CodeStats, user_bonus: u128, referrer_reward: u128) -> bool {
    &&& prev.total_rewards_earned + referrer_reward <= u128::MAX
    &&& prev.total_user_bonuses + user_bonus <= u128::MAX
    &&& prev.total_swaps + 1 <= u64::MAX
}

/// `prev` with one more swap that paid `user_bonus` to the user and
/// `referrer_reward` to the code's owner.
pub open spec fn recorded(prev: CodeStats, user_bonus: u128, referrer_reward: u128) -> CodeStats {
    CodeStats {
        total_rewards_earned: (prev.total_rewards_earned + referrer_reward) as u128,
        total_user_bonuses: (prev.total_user_bonuses + user_bonus) as u128,
        total_swaps: (prev.total_swaps + 1) as u64,
    }
}

/// The totals of every code seen so far.
pub struct Ledger {
    codes: Vec<String>,
    stats: Vec<CodeStats>,
    model: Ghost<Map<Seq<char>, CodeStats>>,
}

impl View for Ledger {
    type V = Map<Seq<char>, CodeStats>;

    closed spec fn view(&self) -> Map<Seq<char>, CodeStats> {
        self.model@
    }
}

impl Ledger {
    /// The arena of codes and totals agrees with the map.
    pub closed spec fn wf(&self) -> bool {
        &&& self.codes.len() == self.stats.len()
        &&& forall|i: int, j: int|
            0 <= i < j < self.codes.len() ==> #[trigger] self.codes@[i]@ != #[trigger] self.codes@[j]@
        &&& forall|i: int|
            0 <= i < self.codes.len() ==> self.model@.contains_key(#[trigger] self.codes@[i]@)
                && self.model@[self.codes@[i]@] == self.stats@[i]
        &&& forall|c: Seq<char>|
            #[trigger] self.model@.contains_key(c) ==> exists|i: int|
                0 <= i < self.codes.len() && #[trigger] self.codes@[i]@ == c
    }

    /// A ledger with no codes.
    pub fn new() -> (r: Ledger)
        ensures
            r.wf(),
            r@ == Map::<Seq<char>, CodeStats>::empty(),
    {
        Ledger { codes: Vec::new(), stats: Vec::new(), model: Ghost(Map::empty()) }
    }

    /// Slot of `code`, if it has totals.
    fn find(&self, code: &String) -> (r: Option<usize>)
        requires
            self.wf(),
        ensures
            match r {
                Some(i) => i < self.codes.len() && self.codes@[i as int]@ == code@,
                None => !self@.contains_key(code@),
            },
    {
        let mut i: usize = 0;
        while i < self.codes.len()
            invariant
                self.wf(),
                i <= self.codes.len(),
                forall|j: int| 0 <= j < i ==> #[trigger] self.codes@[j]@ != code@,
            decreases self.codes.len() - i,
        {
            if self.codes[i] == *code {
                return Some(i);
            }
            i = i + 1;
        }
        None
    }

    /// The totals of `code`; a miss records nothing.
    pub fn get(&self, code: &str) -> (r: Option<CodeStats>)
        requires
            self.wf(),
        ensures
            r == (if self@.contains_key(code@) {
                Some(self@[code@])
            } else {
                None::<CodeStats>
            }),
    {
        let key = code.to_owned();
        match self.find(&key) {
            Some(i) => Some(self.stats[i]),
            None => None,
        }
    }

    /// Whether `record_swap` with these amounts would succeed.
    pub fn can_record(&self, code: &str, user_bonus: u128, referrer_reward: u128) -> (r: bool)
        requires
            self.wf(),
        ensures
            r == record_fits(stats_or_zero(self@, code@), user_bonus, referrer_reward),
    {
        let prev = match self.get(code) {
            Some(s) => s,
            None => CodeStats { total_rewards_earned: 0, total_user_bonuses: 0, total_swaps: 0 },
        };
        prev.total_rewards_earned <= u128::MAX - referrer_reward && prev.total_user_bonuses
            <= u128::MAX - user_bonus && prev.total_swaps < u64::MAX
    }

    /// Adds one swap to the totals of `code` (starting from zero for a new
    /// code) and returns the new totals; `None`, with nothing changed, when
    /// a total would overflow.
    pub fn record_swap(&mut self, code: &str, user_bonus: u128, referrer_reward: u128) -> (r:
        Option<CodeStats>)
        requires
            old(self).wf(),
        ensures
            final(self).wf(),
            ({
                let prev = stats_or_zero(old(self)@, code@);
                if record_fits(prev, user_bonus, referrer_reward) {
                    &&& r == Some(recorded(prev, user_bonus, referrer_reward))
                    &&& final(self)@ == old(self)@.insert(
                        code@,
                        recorded(prev, user_bonus, referrer_reward),
                    )
                } else {
                    &&& r == None::<CodeStats>
                    &&& final(self)@ == old(self)@
                }
            }),
    {
        if !self.can_record(code, user_bonus, referrer_reward) {
            return None;
        }
        let key = code.to_owned();
        let ghost m0 = self.model@;
        let ghost codes0 = self.codes@;
        assert(forall|c: Seq<char>| #[trigger]
            m0.contains_key(c) ==> exists|j: int| 0 <= j < codes0.len() && #[trigger] codes0[j]@ == c);
        match self.find(&key) {
            Some(i) => {
                let prev = self.stats[i];
                let next = CodeStats {
                    total_rewards_earned: prev.total_rewards_earned + referrer_reward,
                    total_user_bonuses: prev.total_user_bonuses + user_bonus,
                    total_swaps: prev.total_swaps + 1,
                };
                self.stats.set(i, next);
                self.model = Ghost(m0.insert(code@, next));
                proof {
                    assert forall|j: int| 0 <= j < self.codes.len() implies self.model@.contains_key(
                        #[trigger] self.codes@[j]@,
                    ) && self.model@[self.codes@[j]@] == self.stats@[j] by {
                        if j != i {
                            if j < i {
                                assert(self.codes@[j]@ != self.codes@[i as int]@);
                            } else {
                                assert(self.codes@[i as int]@ != self.codes@[j]@);
                            }
                        }
                    }
                    assert forall|c: Seq<char>| #[trigger]
                        self.model@.contains_key(c) implies exists|j: int|
                        0 <= j < self.codes.len() && #[trigger] self.codes@[j]@ == c by {
                        if c == code@ {
                            assert(self.codes@[i as int]@ == c);
                        } else {
                            assert(m0.contains_key(c));
                            let j = choose|j: int| 0 <= j < codes0.len() && #[trigger] codes0[j]@ == c;
                            assert(self.codes@[j]@ == c);
                        }
                    }
                }
                Some(next)
            },
            None => {
                let next = CodeStats {
                    total_rewards_earned: referrer_reward,
                    total_user_bonuses: user_bonus,
                    total_swaps: 1,
                };
                let ghost n = self.codes.len();
                self.codes.push(key);
                self.stats.push(next);
                self.model = Ghost(m0.insert(code@, next));
                proof {
                    assert forall|a: int, b: int| 0 <= a < b < self.codes.len() implies #[trigger] self.codes@[a]@
                        != #[trigger] self.codes@[b]@ by {
                        if b == n {
                            assert(m0.contains_key(self.codes@[a]@));
                        }
                    }
                    assert forall|j: int| 0 <= j < self.codes.len() implies self.model@.contains_key(
                        #[trigger] self.codes@[j]@,
                    ) && self.model@[self.codes@[j]@] == self.stats@[j] by {
                        if j < n {
                            assert(m0.contains_key(self.codes@[j]@));
                        }
                    }
                    assert forall|c: Seq<char>| #[trigger]
                        self.model@.contains_key(c) implies exists|j: int|
                        0 <= j < self.codes.len() && #[trigger] self.codes@[j]@ == c by {
                        if c == code@ {
                            assert(self.codes@[n as int]@ == c);
                        } else {
                            assert(m0.contains_key(c));
                            let j = choose|j: int| 0 <= j < codes0.len() && #[trigger] codes0[j]@ == c;
                            assert(self.codes@[j]@ == c);
                        }
                    }
                }
                Some(next)
            },
        }
    }
}

} // verus!
