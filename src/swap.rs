//! One swap from start to end: window and amount checks, the referral
//! verdict, pricing, the code's totals and its leaderboard rank, committed
//! together or not at all.
use vstd::prelude::*;
use crate::code::{lower_of, lowercase};
use crate::conversion::{Conversion, ConversionError, Ratio, compute_conversion, conversion_of};
use crate::leaderboard::{Hint, Leaderboard, RankedEntry};
use crate::ledger::{CodeStats, Ledger, record_fits, recorded, stats_or_zero};
use crate::math::Decimal;
use crate::ranking::{
    Change, Standing, code_index, is_valid_board, lemma_code_index, lemma_upsert_keeps_others, lemma_upsert_places,
    upserted,
};
use crate::rate::{RateSchedule, rate_at};

verus! {

/// Smallest accepted input: one whole unit of a 6-decimal asset.
pub const MIN_SWAP_AMOUNT: u128 = 1_000_000;

/// Fixed parameters of a swap.
#[derive(Clone, Copy, Debug, PartialEq, Eq, Structural)]
pub struct SwapConfig {
    pub schedule: RateSchedule,
    /// Factor from the input's smallest unit to the output's.
    pub scale_adjustment: u128,
    /// Bonus fraction paid to the user and to the referrer.
    pub referral_bonus: Ratio,
    /// Most that one swap may mint, as a fraction of the output's supply.
    pub safety_cap: Ratio,
    pub min_swap_amount: u128,
}

/// The code registry's verdict on a referral code.
#[derive(Debug)]
pub struct ReferralCheck {
    pub code: String,
    pub is_valid_format: bool,
    pub is_registered: bool,
}

/// Running totals of all swaps.
#[derive(Clone, Copy, Debug, PartialEq, Eq, Structural)]
pub struct SwapStats {
    pub total_received: u128,
    pub total_minted: u128,
}

/// What a swap did.
#[derive(Clone, Copy, Debug, PartialEq, Eq, Structural)]
pub struct SwapOutcome {
    pub conversion: Conversion,
    /// Minted in all: the user's total and the referrer's amount.
    pub total_to_mint: u128,
    /// The referral code's totals after the swap, when a code was used.
    pub code_stats: Option<CodeStats>,
    /// How the code's rank changed, when a code was used.
    pub leaderboard_change: Option<Change>,
}

/// The state of the swap window at some moment.
#[derive(Clone, Copy, Debug, PartialEq, Eq, Structural)]
pub struct StatusResponse {
    pub is_active: bool,
    pub has_started: bool,
    pub has_ended: bool,
    pub is_paused: bool,
    pub seconds_remaining: u64,
    pub seconds_until_start: u64,
}

/// One input coin: denomination and amount.
#[derive(Debug)]
pub struct Coin {
    pub denom: String,
    pub amount: u128,
}

/// Why a swap or an administrative call is refused.
#[derive(Clone, Copy, Debug, PartialEq, Eq, Structural)]
pub enum SwapError {
    Unauthorized,
    SwapPaused,
    SwapNotStarted,
    SwapEnded,
    NoFundsSent,
    InvalidFunds,
    BelowMinimumSwap,
    InvalidReferralCode,
    UnregisteredReferralCode,
    Conversion(ConversionError),
    Overflow,
}

/// The first check of the window and amount that fails, if any.
pub open spec fn precheck_error(cfg: SwapConfig, paused: bool, now: u64, amount: u128) -> Option<
    SwapError,
> {
    if paused {
        Some(SwapError::SwapPaused)
    } else if now < cfg.schedule.start_time {
        Some(SwapError::SwapNotStarted)
    } else if now >= cfg.schedule.end_time {
        Some(SwapError::SwapEnded)
    } else if amount < cfg.min_swap_amount {
        Some(SwapError::BelowMinimumSwap)
    } else {
        None
    }
}

/// The reason a referral verdict rules the swap out, if any.
pub open spec fn referral_error(referral: Option<ReferralCheck>) -> Option<SwapError> {
    match referral {
        Some(r) => if !r.is_valid_format {
            Some(SwapError::InvalidReferralCode)
        } else if !r.is_registered {
            Some(SwapError::UnregisteredReferralCode)
        } else {
            None
        },
        None => None,
    }
}

/// The bonus fraction that applies: the configured one when a code is used.
pub open spec fn bonus_for(cfg: SwapConfig, referral: Option<ReferralCheck>) -> Option<Ratio> {
    match referral {
        Some(_) => Some(cfg.referral_bonus),
        None => None,
    }
}

/// The pricing of a swap at `now`.
pub open spec fn swap_conversion(
    cfg: SwapConfig,
    now: u64,
    amount: u128,
    referral: Option<ReferralCheck>,
    total_supply: u128,
) -> Result<Conversion, ConversionError> {
    conversion_of(
        amount,
        Decimal { atomics: rate_at(cfg.schedule, now) as u128 },
        cfg.scale_adjustment,
        bonus_for(cfg, referral),
        total_supply,
        cfg.safety_cap,
    )
}

/// The code's key in the ledger and on the leaderboard.
pub open spec fn referral_key(r: ReferralCheck) -> Seq<char> {
    lower_of(r.code@)
}

/// The totals still fit after adding a swap of `amount` that mints
/// `minted`.
pub open spec fn stats_fit(s: SwapStats, amount: u128, minted: int) -> bool {
    s.total_received + amount <= u128::MAX && s.total_minted + minted <= u128::MAX
}

/// The first reason a swap is refused, in the order the checks run: the
/// window and amount, the referral verdict, the pricing, and then whether
/// every total still fits.
pub open spec fn swap_error(
    e: &SwapEngine,
    now: u64,
    amount: u128,
    referral: Option<ReferralCheck>,
    total_supply: u128,
) -> Option<SwapError> {
    let cfg = e.spec_config();
    if precheck_error(cfg, e.spec_paused(), now, amount) is Some {
        precheck_error(cfg, e.spec_paused(), now, amount)
    } else if referral_error(referral) is Some {
        referral_error(referral)
    } else {
        match swap_conversion(cfg, now, amount, referral, total_supply) {
            Err(x) => Some(SwapError::Conversion(x)),
            Ok(c) => if !stats_fit(e.spec_stats(), amount, c.user_total + c.referrer_amount) || (
            referral matches Some(rc) && !record_fits(
                stats_or_zero(e.spec_ledger(), referral_key(rc)),
                c.bonus,
                c.referrer_amount,
            )) {
                Some(SwapError::Overflow)
            } else {
                None
            },
        }
    }
}

/// What a successful swap leaves behind and reports.
pub open spec fn swap_done(
    pre: &SwapEngine,
    post: &SwapEngine,
    out: SwapOutcome,
    now: u64,
    amount: u128,
    referral: Option<ReferralCheck>,
    total_supply: u128,
) -> bool {
    let c = swap_conversion(pre.spec_config(), now, amount, referral, total_supply)->Ok_0;
    let minted = c.user_total + c.referrer_amount;
    &&& out.conversion == c
    &&& out.total_to_mint == minted
    &&& post.spec_config() == pre.spec_config()
    &&& post.spec_admin() == pre.spec_admin()
    &&& post.spec_paused() == pre.spec_paused()
    &&& post.spec_stats() == (SwapStats {
        total_received: (pre.spec_stats().total_received + amount) as u128,
        total_minted: (pre.spec_stats().total_minted + minted) as u128,
    })
    &&& match referral {
        None => {
            &&& out.code_stats == None::<CodeStats>
            &&& out.leaderboard_change == None::<Change>
            &&& post.spec_ledger() == pre.spec_ledger()
            &&& post.spec_board() == pre.spec_board()
        },
        Some(rc) => {
            let key = referral_key(rc);
            let totals = recorded(stats_or_zero(pre.spec_ledger(), key), c.bonus, c.referrer_amount);
            let ranked = upserted(pre.spec_board(), key, totals.total_rewards_earned);
            &&& out.code_stats == Some(totals)
            &&& out.leaderboard_change == Some(ranked.1)
            &&& post.spec_ledger() == pre.spec_ledger().insert(key, totals)
            &&& post.spec_board() == ranked.0
        },
    }
}

/// The engine: configuration, pause switch, totals, per-code ledger and
/// leaderboard.
pub struct SwapEngine {
    config: SwapConfig,
    admin: String,
    paused: bool,
    stats: SwapStats,
    ledger: Ledger,
    board: Leaderboard,
}

impl SwapEngine {
    pub closed spec fn spec_config(&self) -> SwapConfig {
        self.config
    }

    pub closed spec fn spec_admin(&self) -> Seq<char> {
        self.admin@
    }

    pub closed spec fn spec_paused(&self) -> bool {
        self.paused
    }

    pub closed spec fn spec_stats(&self) -> SwapStats {
        self.stats
    }

    pub closed spec fn spec_ledger(&self) -> Map<Seq<char>, CodeStats> {
        self.ledger@
    }

    pub closed spec fn spec_board(&self) -> Seq<Standing> {
        self.board@
    }

    /// Parts well formed, and every ranked code ranked by its current
    /// total reward.
    pub closed spec fn wf(&self) -> bool {
        &&& self.config.schedule.wf()
        &&& self.ledger.wf()
        &&& self.board.wf()
        &&& forall|i: int|
            0 <= i < self.board@.len() ==> {
                &&& self.ledger@.contains_key(#[trigger] self.board@[i].0)
                &&& self.ledger@[self.board@[i].0].total_rewards_earned == self.board@[i].1
            }
    }

    /// In a well-formed engine the leaderboard is a valid board and every
    /// ranked code stands with its current total reward from the ledger.
    pub proof fn lemma_ranked_by_current_totals(&self)
        requires
            self.wf(),
        ensures
            is_valid_board(self.spec_board()),
            forall|i: int|
                0 <= i < self.spec_board().len() ==> {
                    &&& self.spec_ledger().contains_key(#[trigger] self.spec_board()[i].0)
                    &&& self.spec_ledger()[self.spec_board()[i].0].total_rewards_earned
                        == self.spec_board()[i].1
                },
    {
        self.board.lemma_wf_valid();
    }

    /// Nothing observable differs between `a` and `b`.
    pub open spec fn same_state(a: &SwapEngine, b: &SwapEngine) -> bool {
        &&& a.spec_config() == b.spec_config()
        &&& a.spec_admin() == b.spec_admin()
        &&& a.spec_paused() == b.spec_paused()
        &&& a.spec_stats() == b.spec_stats()
        &&& a.spec_ledger() == b.spec_ledger()
        &&& a.spec_board() == b.spec_board()
    }

    /// A fresh engine: not paused, no totals, no codes.
    pub fn new(config: SwapConfig, admin: String) -> (r: SwapEngine)
        requires
            config.schedule.wf(),
        ensures
            r.wf(),
            r.spec_config() == config,
            r.spec_admin() == admin@,
            !r.spec_paused(),
            r.spec_stats() == (SwapStats { total_received: 0, total_minted: 0 }),
            r.spec_ledger() == Map::<Seq<char>, CodeStats>::empty(),
            r.spec_board() == Seq::<Standing>::empty(),
    {
        SwapEngine {
            config,
            admin,
            paused: false,
            stats: SwapStats { total_received: 0, total_minted: 0 },
            ledger: Ledger::new(),
            board: Leaderboard::new(),
        }
    }

    pub fn config(&self) -> (r: SwapConfig)
        ensures
            r == self.spec_config(),
    {
        self.config
    }

    pub fn is_paused(&self) -> (r: bool)
        ensures
            r == self.spec_paused(),
    {
        self.paused
    }

    pub fn stats(&self) -> (r: SwapStats)
        ensures
            r == self.spec_stats(),
    {
        self.stats
    }

    /// The totals of a normalized code, if it was ever used.
    pub fn code_stats(&self, code: &str) -> (r: Option<CodeStats>)
        requires
            self.wf(),
        ensures
            r == (if self.spec_ledger().contains_key(code@) {
                Some(self.spec_ledger()[code@])
            } else {
                None::<CodeStats>
            }),
    {
        self.ledger.get(code)
    }

    /// The 1-based rank of a normalized code, if it is ranked.
    pub fn position_of(&self, code: &str) -> (r: Option<usize>)
        requires
            self.wf(),
        ensures
            r == (if crate::ranking::holds_code(self.spec_board(), code@) {
                Some((code_index(self.spec_board(), code@) + 1) as usize)
            } else {
                None::<usize>
            }),
    {
        self.board.position_of(code)
    }

    /// A page of the leaderboard, as `Leaderboard::range` gives it.
    pub fn leaderboard(&self, start_after: Option<&str>, limit: usize) -> (r: (
        Vec<RankedEntry>,
        bool,
    ))
        requires
            self.wf(),
        ensures
            r.0@.len() == crate::leaderboard::page_len(
                self.spec_board(),
                crate::leaderboard::page_start(
                    self.spec_board(),
                    crate::leaderboard::chars_of(start_after),
                ),
                limit,
            ),
            forall|i: int|
                0 <= i < r.0@.len() ==> {
                    let at = crate::leaderboard::page_start(
                        self.spec_board(),
                        crate::leaderboard::chars_of(start_after),
                    ) + i;
                    &&& (#[trigger] r.0@[i]).rank == at + 1
                    &&& r.0@[i].code@ == self.spec_board()[at].0
                    &&& r.0@[i].reward == self.spec_board()[at].1
                },
            r.1 == (crate::leaderboard::page_start(
                self.spec_board(),
                crate::leaderboard::chars_of(start_after),
            ) + r.0@.len() < self.spec_board().len()),
    {
        self.board.range(start_after, limit)
    }

    /// Stops (`true`) or restarts (`false`) swaps; only the admin may.
    pub fn set_paused(&mut self, sender: &str, paused: bool) -> (r: Result<(), SwapError>)
        requires
            old(self).wf(),
        ensures
            final(self).wf(),
            sender@ == old(self).spec_admin() ==> r == Ok::<(), SwapError>(())
                && final(self).spec_paused() == paused,
            sender@ != old(self).spec_admin() ==> r == Err::<(), SwapError>(
                SwapError::Unauthorized,
            ) && final(self).spec_paused() == old(self).spec_paused(),
            final(self).spec_config() == old(self).spec_config(),
            final(self).spec_admin() == old(self).spec_admin(),
            final(self).spec_stats() == old(self).spec_stats(),
            final(self).spec_ledger() == old(self).spec_ledger(),
            final(self).spec_board() == old(self).spec_board(),
    {
        let who = sender.to_owned();
        if who != self.admin {
            return Err(SwapError::Unauthorized);
        }
        self.paused = paused;
        Ok(())
    }

    /// The window's state at `now`.
    pub fn status(&self, now: u64) -> (r: StatusResponse)
        requires
            self.wf(),
        ensures
            r.has_started == (now >= self.spec_config().schedule.start_time),
            r.has_ended == (now >= self.spec_config().schedule.end_time),
            r.is_paused == self.spec_paused(),
            r.is_active == (r.has_started && !r.has_ended && !r.is_paused),
            r.seconds_remaining == (if r.has_ended {
                0
            } else {
                self.spec_config().schedule.end_time - now
            }),
            r.seconds_until_start == (if r.has_started {
                0
            } else {
                self.spec_config().schedule.start_time - now
            }),
    {
        let s = self.config.schedule;
        let has_started = now >= s.start_time;
        let has_ended = now >= s.end_time;
        StatusResponse {
            is_active: has_started && !has_ended && !self.paused,
            has_started,
            has_ended,
            is_paused: self.paused,
            seconds_remaining: if has_ended {
                0
            } else {
                s.end_time - now
            },
            seconds_until_start: if has_started {
                0
            } else {
                s.start_time - now
            },
        }
    }

    /// The rate at `now`.
    pub fn current_rate(&self, now: u64) -> (r: Decimal)
        requires
            self.wf(),
        ensures
            r.atomics == rate_at(self.spec_config().schedule, now),
    {
        self.config.schedule.current_rate(now)
    }

    /// Prices a swap at `now` without changing anything. A code applies
    /// only when the registry reports it well formed and registered;
    /// otherwise the swap is priced without a referral.
    pub fn simulate(
        &self,
        now: u64,
        amount: u128,
        referral: Option<&ReferralCheck>,
        total_supply: u128,
    ) -> (r: Result<Conversion, ConversionError>)
        requires
            self.wf(),
        ensures
            r == conversion_of(
                amount,
                Decimal { atomics: rate_at(self.spec_config().schedule, now) as u128 },
                self.spec_config().scale_adjustment,
                match referral {
                    Some(c) => if c.is_valid_format && c.is_registered {
                        Some(self.spec_config().referral_bonus)
                    } else {
                        None
                    },
                    None => None,
                },
                total_supply,
                self.spec_config().safety_cap,
            ),
    {
        let rate = self.config.schedule.current_rate(now);
        let bonus = match referral {
            Some(c) => if c.is_valid_format && c.is_registered {
                Some(self.config.referral_bonus)
            } else {
                None
            },
            None => None,
        };
        compute_conversion(
            amount,
            rate,
            self.config.scale_adjustment,
            bonus,
            total_supply,
            self.config.safety_cap,
        )
    }

    /// Runs one swap of `amount` at `now`. With a referral, the registry's
    /// verdict must be well formed and registered; the code's totals then
    /// grow by the bonus and the code is re-ranked by its new total reward,
    /// starting the search from `hint`. On any refusal nothing changes.
    pub fn execute_swap(
        &mut self,
        now: u64,
        amount: u128,
        referral: Option<ReferralCheck>,
        hint: Option<&Hint>,
        total_supply: u128,
    ) -> (r: Result<SwapOutcome, SwapError>)
        requires
            old(self).wf(),
        ensures
            final(self).wf(),
            swap_error(old(self), now, amount, referral, total_supply) is Some ==> {
                &&& r == Err::<SwapOutcome, SwapError>(
                    swap_error(old(self), now, amount, referral, total_supply)->Some_0,
                )
                &&& Self::same_state(old(self), final(self))
            },
            swap_error(old(self), now, amount, referral, total_supply) is None ==> {
                &&& r is Ok
                &&& swap_done(old(self), final(self), r->Ok_0, now, amount, referral, total_supply)
            },
    {
        if self.paused {
            return Err(SwapError::SwapPaused);
        }
        let sched = self.config.schedule;
        if now < sched.start_time {
            return Err(SwapError::SwapNotStarted);
        }
        if now >= sched.end_time {
            return Err(SwapError::SwapEnded);
        }
        if amount < self.config.min_swap_amount {
            return Err(SwapError::BelowMinimumSwap);
        }
        if let Some(rc) = &referral {
            if !rc.is_valid_format {
                return Err(SwapError::InvalidReferralCode);
            }
            if !rc.is_registered {
                return Err(SwapError::UnregisteredReferralCode);
            }
        }
        let rate = sched.current_rate(now);
        let bonus = match &referral {
            Some(_) => Some(self.config.referral_bonus),
            None => None,
        };
        let conv = match compute_conversion(
            amount,
            rate,
            self.config.scale_adjustment,
            bonus,
            total_supply,
            self.config.safety_cap,
        ) {
            Ok(c) => c,
            Err(e) => {
                return Err(SwapError::Conversion(e));
            },
        };
        let minted = conv.user_total + conv.referrer_amount;
        if self.stats.total_received > u128::MAX - amount || self.stats.total_minted > u128::MAX
            - minted {
            return Err(SwapError::Overflow);
        }
        let key = match &referral {
            Some(rc) => Some(lowercase(rc.code.as_str())),
            None => None,
        };
        if let Some(k) = &key {
            if !self.ledger.can_record(k.as_str(), conv.bonus, conv.referrer_amount) {
                return Err(SwapError::Overflow);
            }
        }
        self.stats = SwapStats {
            total_received: self.stats.total_received + amount,
            total_minted: self.stats.total_minted + minted,
        };
        let ghost l0 = self.ledger@;
        let ghost b0 = self.board@;
        match key {
            Some(k) => {
                let totals = self.ledger.record_swap(k.as_str(), conv.bonus, conv.referrer_amount).unwrap();
                proof {
                    self.board.lemma_wf_valid();
                }
                let change = self.board.upsert(k.as_str(), totals.total_rewards_earned, hint);
                proof {
                    let key = k@;
                    let reward = totals.total_rewards_earned;
                    let u = self.board@;
                    lemma_upsert_places(b0, key, reward);
                    assert forall|i: int| 0 <= i < u.len() implies {
                        &&& self.ledger@.contains_key(#[trigger] u[i].0)
                        &&& self.ledger@[u[i].0].total_rewards_earned == u[i].1
                    } by {
                        if u[i].0 == key {
                            if upserted(b0, key, reward).1 == Change::NotQualified {
                                assert(crate::ranking::holds_code(b0, key));
                                assert(false);
                            }
                            lemma_code_index(u, key, i);
                        } else {
                            lemma_upsert_keeps_others(b0, key, reward, i);
                            let j = choose|j: int| 0 <= j < b0.len() && b0[j] == u[i];
                            assert(l0.contains_key(b0[j].0));
                        }
                    }
                }
                Ok(
                    SwapOutcome {
                        conversion: conv,
                        total_to_mint: minted,
                        code_stats: Some(totals),
                        leaderboard_change: Some(change),
                    },
                )
            },
            None => Ok(
                SwapOutcome {
                    conversion: conv,
                    total_to_mint: minted,
                    code_stats: None,
                    leaderboard_change: None,
                },
            ),
        }
    }
}

/// The amount of the one coin of denomination `denom` that was sent.
pub fn swap_amount_from_funds(funds: &Vec<Coin>, denom: &str) -> (r: Result<u128, SwapError>)
    ensures
        funds@.len() == 0 ==> r == Err::<u128, SwapError>(SwapError::NoFundsSent),
        funds@.len() > 1 ==> r == Err::<u128, SwapError>(SwapError::InvalidFunds),
        funds@.len() == 1 && funds@[0].denom@ != denom@ ==> r == Err::<u128, SwapError>(
            SwapError::InvalidFunds,
        ),
        funds@.len() == 1 && funds@[0].denom@ == denom@ ==> r == Ok::<u128, SwapError>(
            funds@[0].amount,
        ),
{
    if funds.len() == 0 {
        return Err(SwapError::NoFundsSent);
    }
    let wanted = denom.to_owned();
    if funds.len() != 1 || funds[0].denom != wanted {
        return Err(SwapError::InvalidFunds);
    }
    Ok(funds[0].amount)
}

} // verus!
