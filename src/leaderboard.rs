//! The bounded leaderboard: a doubly linked list, highest reward first,
//! whose nodes live in an arena addressed by slot and whose links are
//! optional slots. Updates take an untrusted position hint that only
//! affects how far the search walks, never where the entry lands.
use vstd::prelude::*;
use crate::ranking::{
    Change, MAX_ENTRIES, Standing, codes_distinct, code_index, fits_at, holds_code, ins_index,
    is_descending, is_valid_board, lemma_code_index, lemma_ins_index_at, lemma_ins_index_splits,
    lemma_placed_descending, lemma_placed_distinct, upserted,
};

verus! {

/// Links and reward of one arena slot.
#[derive(Clone, Copy, Debug, PartialEq, Eq, Structural)]
struct Link {
    reward: u128,
    prev: Option<usize>,
    next: Option<usize>,
}

/// A caller's claim about where an update belongs: right after the code
/// `insert_after`, or at the top when it is `None`.
#[derive(Debug)]
pub struct Hint {
    pub insert_after: Option<String>,
}

/// One row of a leaderboard page.
#[derive(Debug)]
pub struct RankedEntry {
    pub rank: usize,
    pub code: String,
    pub reward: u128,
}

/// The bounded, sorted list of codes by reward.
pub struct Leaderboard {
    codes: Vec<String>,
    links: Vec<Link>,
    head: Option<usize>,
    tail: Option<usize>,
    size: usize,
    order: Ghost<Seq<usize>>,
}

impl View for Leaderboard {
    type V = Seq<Standing>;

    /// The entries from head to tail.
    closed spec fn view(&self) -> Seq<Standing> {
        self.order@.map_values(|i: usize| (self.codes@[i as int]@, self.links@[i as int].reward))
    }
}

impl Leaderboard {
    /// The links agree with the ghost order of slots from head to tail.
    spec fn linked(&self) -> bool {
        let o = self.order@;
        &&& self.codes.len() == self.links.len()
        &&& self.size == o.len()
        &&& forall|k: int| 0 <= k < o.len() ==> (#[trigger] o[k]) < self.links.len()
        &&& forall|a: int, b: int| 0 <= a < b < o.len() ==> #[trigger] o[a] != #[trigger] o[b]
        &&& forall|k: int|
            0 <= k < o.len() ==> (#[trigger] self.links@[o[k] as int]).prev == (if k == 0 {
                None
            } else {
                Some(o[k - 1])
            })
        &&& forall|k: int|
            0 <= k < o.len() ==> (#[trigger] self.links@[o[k] as int]).next == (if k == o.len()
                - 1 {
                None
            } else {
                Some(o[k + 1])
            })
        &&& self.head == (if o.len() == 0 {
            None
        } else {
            Some(o[0])
        })
        &&& self.tail == (if o.len() == 0 {
            None
        } else {
            Some(o[o.len() - 1])
        })
    }

    /// Well-formed: linked, every slot in use, and a valid board.
    pub closed spec fn wf(&self) -> bool {
        &&& self.linked()
        &&& self.order@.len() == self.links.len()
        &&& is_valid_board(self@)
    }

    /// An empty leaderboard.
    pub fn new() -> (r: Leaderboard)
        ensures
            r.wf(),
            r@ == Seq::<Standing>::empty(),
    {
        let r = Leaderboard {
            codes: Vec::new(),
            links: Vec::new(),
            head: None,
            tail: None,
            size: 0,
            order: Ghost(Seq::empty()),
        };
        assert(r@ =~= Seq::<Standing>::empty());
        r
    }

    /// A well-formed leaderboard is a valid board: sorted by reward,
    /// highest first, without repeated codes, within `MAX_ENTRIES`.
    pub proof fn lemma_wf_valid(&self)
        requires
            self.wf(),
        ensures
            is_valid_board(self@),
    {
    }

    /// Number of ranked codes.
    pub fn len(&self) -> (n: usize)
        requires
            self.wf(),
        ensures
            n == self@.len(),
    {
        self.size
    }

    /// Slot and index of `code`, found by walking from the head.
    fn find(&self, code: &String) -> (r: Option<(usize, usize)>)
        requires
            self.linked(),
        ensures
            match r {
                Some((slot, k)) => k < self.order@.len() && self.order@[k as int] == slot
                    && self.codes@[slot as int]@ == code@,
                None => forall|k: int|
                    0 <= k < self.order@.len() ==> #[trigger] self.codes@[self.order@[k] as int]@
                        != code@,
            },
    {
        let ghost o = self.order@;
        let mut cur = self.head;
        let mut k: usize = 0;
        while cur.is_some()
            invariant
                self.linked(),
                o == self.order@,
                k <= o.len(),
                cur == (if k == o.len() {
                    None
                } else {
                    Some(o[k as int])
                }),
                forall|j: int| 0 <= j < k ==> #[trigger] self.codes@[o[j] as int]@ != code@,
            decreases o.len() - k,
        {
            let slot = cur.unwrap();
            assert(self.links@[o[k as int] as int].next == self.links@[slot as int].next);
            if self.codes[slot] == *code {
                return Some((slot, k));
            }
            cur = self.links[slot].next;
            k = k + 1;
        }
        None
    }
    /// Takes the entry at index `k` (in slot `slot`) out of the list.
    fn unlink(&mut self, slot: usize, k: Ghost<int>)
        requires
            old(self).linked(),
            0 <= k@ < old(self).order@.len(),
            old(self).order@[k@] == slot,
        ensures
            final(self).linked(),
            final(self).order@ == old(self).order@.remove(k@),
            final(self).codes@ == old(self).codes@,
            final(self).links.len() == old(self).links.len(),
            forall|j: int|
                0 <= j < final(self).links.len() ==> (#[trigger] final(self).links@[j]).reward
                    == old(self).links@[j].reward,
    {
        let ghost o = self.order@;
        let lk = self.links[slot];
        assert(self.links@[o[k@] as int] == lk);
        match lk.prev {
            Some(p) => {
                assert(p == o[k@ - 1]);
                let mut pl = self.links[p];
                pl.next = lk.next;
                self.links.set(p, pl);
            },
            None => {
                self.head = lk.next;
            },
        }
        match lk.next {
            Some(n) => {
                assert(n == o[k@ + 1]);
                let mut nl = self.links[n];
                nl.prev = lk.prev;
                self.links.set(n, nl);
            },
            None => {
                self.tail = lk.prev;
            },
        }
        self.size = self.size - 1;
        self.order = Ghost(o.remove(k@));
        proof {
            let o2 = self.order@;
            o.remove_ensures(k@);
            assert forall|j: int| 0 <= j < o2.len() implies #[trigger] self.links@[o2[j] as int].prev
                == (if j == 0 {
                None
            } else {
                Some(o2[j - 1])
            }) by {
                if j < k@ {
                    assert(o2[j] == o[j]);
                    assert(o[j] != o[k@]);
                    if k@ + 1 < o.len() {
                        assert(o[j] != o[k@ + 1]);
                    }
                    if j > 0 {
                        assert(o2[j - 1] == o[j - 1]);
                    }
                } else {
                    assert(o2[j] == o[j + 1]);
                    assert(o[j + 1] != o[k@]);
                    if k@ > 0 {
                        assert(o[j + 1] != o[k@ - 1]);
                    }
                    if j > k@ {
                        assert(o2[j - 1] == o[j]);
                    } else if j > 0 {
                        assert(o2[j - 1] == o[j - 1]);
                    }
                }
            }
            assert forall|j: int| 0 <= j < o2.len() implies #[trigger] self.links@[o2[j] as int].next
                == (if j == o2.len() - 1 {
                None
            } else {
                Some(o2[j + 1])
            }) by {
                if j < k@ {
                    assert(o2[j] == o[j]);
                    assert(o[j] != o[k@]);
                    if k@ + 1 < o.len() {
                        assert(o[j] != o[k@ + 1]);
                    }
                    if j + 1 < k@ {
                        assert(o2[j + 1] == o[j + 1]);
                    } else if j + 1 < o2.len() {
                        assert(o2[j + 1] == o[j + 2]);
                    }
                } else {
                    assert(o2[j] == o[j + 1]);
                    assert(o[j + 1] != o[k@]);
                    if k@ > 0 {
                        assert(o[j + 1] != o[k@ - 1]);
                    }
                    if j + 1 < o2.len() {
                        assert(o2[j + 1] == o[j + 2]);
                    }
                }
            }
            assert forall|a: int, b: int| 0 <= a < b < o2.len() implies #[trigger] o2[a]
                != #[trigger] o2[b] by {
                if b < k@ {
                } else if a < k@ {
                    assert(o2[b] == o[b + 1]);
                } else {
                    assert(o2[a] == o[a + 1]);
                    assert(o2[b] == o[b + 1]);
                }
            }
            assert forall|j: int| 0 <= j < o2.len() implies (#[trigger] o2[j]) < self.links.len() by {
                if j < k@ {
                } else {
                    assert(o2[j] == o[j + 1]);
                }
            }
        }
    }

    /// Puts the unused slot `slot` into the list at index `p`, right after
    /// `pred` (the entry at index `p - 1`, or none at the top).
    #[verifier::rlimit(60)]
    fn link_at(&mut self, slot: usize, pred: Option<usize>, p: Ghost<int>)
        requires
            old(self).linked(),
            slot < old(self).links.len(),
            !old(self).order@.contains(slot),
            old(self).order@.len() < MAX_ENTRIES,
            0 <= p@ <= old(self).order@.len(),
            pred == (if p@ == 0 {
                None
            } else {
                Some(old(self).order@[p@ - 1])
            }),
        ensures
            final(self).linked(),
            final(self).order@ == old(self).order@.insert(p@, slot),
            final(self).codes@ == old(self).codes@,
            final(self).links.len() == old(self).links.len(),
            forall|j: int|
                0 <= j < final(self).links.len() ==> (#[trigger] final(self).links@[j]).reward
                    == old(self).links@[j].reward,
    {
        let ghost o = self.order@;
        let next = match pred {
            Some(q) => {
                assert(self.links@[o[p@ - 1] as int].next == self.links@[q as int].next);
                self.links[q].next
            },
            None => self.head,
        };
        assert(next == (if p@ == o.len() {
            None
        } else {
            Some(o[p@])
        }));
        let mut sl = self.links[slot];
        sl.prev = pred;
        sl.next = next;
        self.links.set(slot, sl);
        match pred {
            Some(q) => {
                let mut ql = self.links[q];
                ql.next = Some(slot);
                self.links.set(q, ql);
            },
            None => {
                self.head = Some(slot);
            },
        }
        match next {
            Some(n) => {
                let mut nl = self.links[n];
                nl.prev = Some(slot);
                self.links.set(n, nl);
            },
            None => {
                self.tail = Some(slot);
            },
        }
        self.size = self.size + 1;
        self.order = Ghost(o.insert(p@, slot));
        proof {
            let o2 = self.order@;
            o.insert_ensures(p@, slot);
            assert forall|j: int| 0 <= j < o.len() implies o[j] != slot by {
                assert(o.contains(o[j]));
            }
            assert forall|j: int| 0 <= j < o2.len() implies #[trigger] self.links@[o2[j] as int].prev
                == (if j == 0 {
                None
            } else {
                Some(o2[j - 1])
            }) by {
                if j < p@ {
                    assert(o2[j] == o[j]);
                    if p@ < o.len() {
                        assert(o[j] != o[p@]);
                    }
                    if j > 0 {
                        assert(o2[j - 1] == o[j - 1]);
                    }
                } else if j == p@ {
                } else {
                    assert(o2[j] == o[j - 1]);
                    if p@ > 0 {
                        assert(o[j - 1] != o[p@ - 1]);
                    }
                    if j - 1 > p@ {
                        assert(o2[j - 1] == o[j - 2]);
                    }
                }
            }
            assert forall|j: int| 0 <= j < o2.len() implies #[trigger] self.links@[o2[j] as int].next
                == (if j == o2.len() - 1 {
                None
            } else {
                Some(o2[j + 1])
            }) by {
                if j < p@ {
                    assert(o2[j] == o[j]);
                    if p@ < o.len() {
                        assert(o[j] != o[p@]);
                    }
                    if j + 1 < p@ {
                        assert(o2[j + 1] == o[j + 1]);
                    }
                } else if j == p@ {
                    if j + 1 < o2.len() {
                        assert(o2[j + 1] == o[j]);
                    }
                } else {
                    assert(o2[j] == o[j - 1]);
                    if p@ > 0 {
                        assert(o[j - 1] != o[p@ - 1]);
                    }
                    if p@ < o.len() && j - 1 != p@ {
                        assert(o[j - 1] != o[p@]);
                    }
                    if j + 1 < o2.len() {
                        assert(o2[j + 1] == o[j]);
                    }
                }
            }
            assert forall|a: int, b: int| 0 <= a < b < o2.len() implies #[trigger] o2[a]
                != #[trigger] o2[b] by {
                if b < p@ {
                } else if b == p@ {
                    assert(o2[a] == o[a]);
                } else if a < p@ {
                    assert(o2[b] == o[b - 1]);
                } else if a == p@ {
                    assert(o2[b] == o[b - 1]);
                } else {
                    assert(o2[a] == o[a - 1]);
                    assert(o2[b] == o[b - 1]);
                }
            }
            assert forall|j: int| 0 <= j < o2.len() implies (#[trigger] o2[j]) < self.links.len() by {
                if j < p@ {
                } else if j > p@ {
                    assert(o2[j] == o[j - 1]);
                }
            }
        }
    }
    /// Reward stored for the entry at index `k`.
    spec fn reward_at(&self, k: int) -> u128 {
        self.links@[self.order@[k] as int].reward
    }

    /// Where reward `r` belongs, searched from the entry at index `h` (slot
    /// `slot`) whose reward is at least `r`: walks toward the tail while the
    /// next entry still has at least `r`. Returns the predecessor and the
    /// insertion index.
    fn walk_down(&self, r: u128, slot: usize, h: usize) -> (res: (Option<usize>, usize))
        requires
            self.linked(),
            is_descending(self@),
            h < self.order@.len(),
            self.order@[h as int] == slot,
            self.reward_at(h as int) >= r,
        ensures
            res.1 == ins_index(self@, r),
            res.1 > 0,
            res.0 == Some(self.order@[res.1 - 1]),
    {
        let ghost o = self.order@;
        let ghost v = self@;
        let mut cur = slot;
        let mut k = h;
        loop
            invariant
                self.linked(),
                o == self.order@,
                v == self@,
                is_descending(v),
                k < o.len(),
                o[k as int] == cur,
                self.reward_at(k as int) >= r,
            decreases o.len() - k,
        {
            assert(self.links@[o[k as int] as int].next == self.links@[cur as int].next);
            match self.links[cur].next {
                Some(n) => {
                    assert(n == o[k + 1]);
                    if self.links[n].reward >= r {
                        cur = n;
                        k = k + 1;
                    } else {
                        proof {
                            assert(v[k + 1].1 < r);
                            assert forall|j: int| 0 <= j < k + 1 implies #[trigger] v[j].1 >= r by {
                                assert(v[j].1 >= v[k as int].1);
                            }
                            lemma_ins_index_at(v, r, k + 1);
                        }
                        return (Some(cur), k + 1);
                    }
                },
                None => {
                    proof {
                        assert forall|j: int| 0 <= j < k + 1 implies #[trigger] v[j].1 >= r by {
                            if j < k {
                                assert(v[j].1 >= v[k as int].1);
                            }
                        }
                        lemma_ins_index_at(v, r, k + 1);
                    }
                    return (Some(cur), k + 1);
                },
            }
        }
    }

    /// Where reward `r` belongs, searched from the entry at index `h` (slot
    /// `slot`) whose reward is below `r`: walks toward the head while the
    /// previous entry is still below `r`.
    fn walk_up(&self, r: u128, slot: usize, h: usize) -> (res: (Option<usize>, usize))
        requires
            self.linked(),
            is_descending(self@),
            h < self.order@.len(),
            self.order@[h as int] == slot,
            self.reward_at(h as int) < r,
        ensures
            res.1 == ins_index(self@, r),
            res.0 == (if res.1 == 0 {
                None
            } else {
                Some(self.order@[res.1 - 1])
            }),
    {
        let ghost o = self.order@;
        let ghost v = self@;
        let mut cur = slot;
        let mut k = h;
        loop
            invariant
                self.linked(),
                o == self.order@,
                v == self@,
                is_descending(v),
                k < o.len(),
                o[k as int] == cur,
                self.reward_at(k as int) < r,
            decreases k,
        {
            assert(self.links@[o[k as int] as int].prev == self.links@[cur as int].prev);
            match self.links[cur].prev {
                Some(q) => {
                    assert(q == o[k - 1]);
                    if self.links[q].reward >= r {
                        proof {
                            assert forall|j: int| 0 <= j < k implies #[trigger] v[j].1 >= r by {
                                assert(v[j].1 >= v[k - 1].1);
                            }
                            lemma_ins_index_at(v, r, k as int);
                        }
                        return (Some(q), k);
                    } else {
                        cur = q;
                        k = k - 1;
                    }
                },
                None => {
                    proof {
                        lemma_ins_index_at(v, r, 0);
                    }
                    return (None, 0);
                },
            }
        }
    }

    /// Where reward `r` belongs, searched from the seed entry when there is
    /// one (there is exactly when the list is not empty).
    fn locate(&self, r: u128, seed: Option<(usize, usize)>) -> (res: (Option<usize>, usize))
        requires
            self.linked(),
            is_descending(self@),
            match seed {
                Some((slot, h)) => h < self.order@.len() && self.order@[h as int] == slot,
                None => self.order@.len() == 0,
            },
        ensures
            res.1 == ins_index(self@, r),
            res.1 <= self.order@.len(),
            res.0 == (if res.1 == 0 {
                None
            } else {
                Some(self.order@[res.1 - 1])
            }),
    {
        proof {
            lemma_ins_index_splits(self@, r);
        }
        match seed {
            Some((slot, h)) => {
                if self.links[slot].reward >= r {
                    self.walk_down(r, slot, h)
                } else {
                    self.walk_up(r, slot, h)
                }
            },
            None => {
                proof {
                    lemma_ins_index_at(self@, r, 0);
                }
                (None, 0)
            },
        }
    }

    /// The entry to start the search from: the hinted predecessor when it
    /// is ranked, the head when the hint claims the top, else the tail. A
    /// hint naming an entry that was just evicted thus starts from the
    /// evicted entry's predecessor, the new tail. From a correct hint the
    /// search stops after one comparison with the next entry.
    fn seed(&self, hint: Option<&Hint>) -> (r: Option<(usize, usize)>)
        requires
            self.linked(),
        ensures
            match r {
                Some((slot, h)) => h < self.order@.len() && self.order@[h as int] == slot,
                None => self.order@.len() == 0,
            },
    {
        match hint {
            Some(hint) => match &hint.insert_after {
                Some(after) => match self.find(after) {
                    Some(found) => {
                        return Some(found);
                    },
                    None => {},
                },
                None => match self.head {
                    Some(h) => {
                        return Some((h, 0));
                    },
                    None => {
                        return None;
                    },
                },
            },
            None => {},
        }
        match self.tail {
            Some(t) => Some((t, self.size - 1)),
            None => None,
        }
    }
    /// Changing only the reward of the entry at index `k` to one that fits
    /// there keeps the board valid.
    proof fn lemma_update_in_place(
        &self,
        prior: Leaderboard,
        slot: usize,
        k: int,
        code: Seq<char>,
        reward: u128,
    )
        requires
            prior.wf(),
            0 <= k < prior.order@.len(),
            prior.order@[k] == slot,
            prior.codes@[slot as int]@ == code,
            fits_at(prior@, k, reward),
            self.order@ == prior.order@,
            self.codes@ == prior.codes@,
            self.head == prior.head,
            self.tail == prior.tail,
            self.size == prior.size,
            self.links@ == prior.links@.update(
                slot as int,
                Link {
                    reward,
                    prev: prior.links@[slot as int].prev,
                    next: prior.links@[slot as int].next,
                },
            ),
        ensures
            self.wf(),
            self@ == prior@.update(k, (code, reward)),
    {
        let o = self.order@;
        let v = prior@;
        assert forall|j: int| 0 <= j < o.len() implies #[trigger] self.links@[o[j] as int].prev
            == prior.links@[o[j] as int].prev && self.links@[o[j] as int].next == prior.links@[
            o[j] as int].next by {}
        assert(self@ =~= v.update(k, (code, reward)));
        let u = self@;
        assert forall|i: int, j: int| 0 <= i < j < u.len() implies #[trigger] u[i].1
            >= #[trigger] u[j].1 by {
            if i == k {
                assert(v[k + 1].1 >= v[j].1);
            } else if j == k {
                assert(v[i].1 >= v[k - 1].1);
            } else {
                assert(v[i].1 >= v[j].1);
            }
        }
        assert forall|i: int, j: int| 0 <= i < j < u.len() implies #[trigger] u[i].0
            != #[trigger] u[j].0 by {
            assert(v[i].0 != v[j].0);
        }
    }

    /// After the entry at index `k` (slot `slot`) was unlinked and its slot
    /// given new contents, the board is the old one without that entry.
    proof fn lemma_after_unlink(&self, prior: Leaderboard, slot: usize, k: int)
        requires
            prior.wf(),
            0 <= k < prior.order@.len(),
            prior.order@[k] == slot,
            self.linked(),
            self.order@ == prior.order@.remove(k),
            self.codes.len() == prior.codes.len(),
            self.links.len() == prior.links.len(),
            forall|j: int|
                0 <= j < self.codes.len() && j != slot ==> #[trigger] self.codes@[j]
                    == prior.codes@[j],
            forall|j: int|
                0 <= j < self.links.len() && j != slot ==> (#[trigger] self.links@[j]).reward
                    == prior.links@[j].reward,
        ensures
            self@ == prior@.remove(k),
            is_descending(self@),
            codes_distinct(self@),
            forall|j: int| 0 <= j < self@.len() ==> #[trigger] self@[j].0 != prior@[k].0,
            !self.order@.contains(slot),
            self.order@.len() + 1 == self.links.len(),
            self.order@.len() < MAX_ENTRIES,
    {
        let o = prior.order@;
        let v = prior@;
        o.remove_ensures(k);
        v.remove_ensures(k);
        assert forall|j: int| 0 <= j < self.order@.len() implies #[trigger] self.order@[j]
            != slot by {
            if j < k {
                assert(o[j] != o[k]);
            } else {
                assert(o[j + 1] != o[k]);
            }
        }
        assert(self@ =~= v.remove(k));
        let u = self@;
        assert forall|i: int, j: int| 0 <= i < j < u.len() implies #[trigger] u[i].1
            >= #[trigger] u[j].1 by {
            if j < k {
                assert(v[i].1 >= v[j].1);
            } else if i < k {
                assert(v[i].1 >= v[j + 1].1);
            } else {
                assert(v[i + 1].1 >= v[j + 1].1);
            }
        }
        assert forall|i: int, j: int| 0 <= i < j < u.len() implies #[trigger] u[i].0
            != #[trigger] u[j].0 by {
            if j < k {
                assert(v[i].0 != v[j].0);
            } else if i < k {
                assert(v[i].0 != v[j + 1].0);
            } else {
                assert(v[i + 1].0 != v[j + 1].0);
            }
        }
        assert forall|j: int| 0 <= j < u.len() implies #[trigger] u[j].0 != v[k].0 by {
            if j < k {
                assert(v[j].0 != v[k].0);
            } else {
                assert(v[k].0 != v[j + 1].0);
            }
        }
    }

    /// After a fresh slot was appended to the arena, the board is unchanged.
    proof fn lemma_after_push(&self, prior: Leaderboard, code: String, reward: u128)
        requires
            prior.wf(),
            prior.order@.len() < MAX_ENTRIES,
            self.order@ == prior.order@,
            self.codes@ == prior.codes@.push(code),
            self.links@ == prior.links@.push(Link { reward, prev: None, next: None }),
            self.head == prior.head,
            self.tail == prior.tail,
            self.size == prior.size,
        ensures
            self.linked(),
            self@ == prior@,
            !self.order@.contains(prior.links.len()),
            self.order@.len() + 1 == self.links.len(),
    {
        let o = self.order@;
        assert forall|k: int| 0 <= k < o.len() implies #[trigger] self.links@[o[k] as int]
            == prior.links@[o[k] as int] by {}
        assert(self@ =~= prior@);
    }

    /// After slot `slot` was linked in at index `p`, the board is the prior
    /// one with the slot's entry inserted there.
    proof fn lemma_after_link(&self, prior: Leaderboard, slot: usize, p: int)
        requires
            prior.linked(),
            0 <= p <= prior.order@.len(),
            slot < prior.links.len(),
            self.order@ == prior.order@.insert(p, slot),
            self.codes@ == prior.codes@,
            self.links.len() == prior.links.len(),
            forall|j: int|
                0 <= j < self.links.len() ==> (#[trigger] self.links@[j]).reward
                    == prior.links@[j].reward,
        ensures
            self@ == prior@.insert(
                p,
                (prior.codes@[slot as int]@, prior.links@[slot as int].reward),
            ),
    {
        prior.order@.insert_ensures(p, slot);
        prior@.insert_ensures(p, (prior.codes@[slot as int]@, prior.links@[slot as int].reward));
        assert(self@ =~= prior@.insert(
            p,
            (prior.codes@[slot as int]@, prior.links@[slot as int].reward),
        ));
    }

    /// Records that `code` now has reward `reward` and moves it to where that
    /// reward ranks. A new code enters while there is room, or by evicting
    /// the last entry when its reward is strictly greater. The hint only
    /// chooses where the search starts.
    pub fn upsert(&mut self, code: &str, reward: u128, hint: Option<&Hint>) -> (change: Change)
        requires
            old(self).wf(),
        ensures
            final(self).wf(),
            (final(self)@, change) == upserted(old(self)@, code@, reward),
    {
        let key = code.to_owned();
        let ghost s0 = *self;
        let ghost v0 = self@;
        let ghost o0 = self.order@;
        match self.find(&key) {
            Some((slot, k)) => {
                proof {
                    lemma_code_index(v0, code@, k as int);
                }
                let lk = self.links[slot];
                assert(self.links@[o0[k as int] as int] == lk);
                let prev_ok = match lk.prev {
                    Some(q) => {
                        assert(self.links@[o0[k - 1] as int] == self.links@[q as int]);
                        self.links[q].reward >= reward
                    },
                    None => true,
                };
                let next_ok = match lk.next {
                    Some(n) => {
                        assert(self.links@[o0[k + 1] as int] == self.links@[n as int]);
                        self.links[n].reward <= reward
                    },
                    None => true,
                };
                assert((prev_ok && next_ok) == fits_at(v0, k as int, reward));
                if prev_ok && next_ok {
                    let mut nl = lk;
                    nl.reward = reward;
                    self.links.set(slot, nl);
                    proof {
                        self.lemma_update_in_place(s0, slot, k as int, code@, reward);
                    }
                    return Change::NoChange { position: k + 1 };
                }
                let old_reward = lk.reward;
                self.unlink(slot, Ghost(k as int));
                let mut nl = self.links[slot];
                nl.reward = reward;
                self.links.set(slot, nl);
                proof {
                    self.lemma_after_unlink(s0, slot, k as int);
                }
                let ghost s1 = *self;
                let ghost v1 = self@;
                let seed = self.seed(hint);
                let (pred, p) = self.locate(reward, seed);
                self.link_at(slot, pred, Ghost(p as int));
                proof {
                    self.lemma_after_link(s1, slot, p as int);
                    lemma_placed_descending(v1, code@, reward);
                    lemma_placed_distinct(v1, code@, reward);
                }
                if reward > old_reward {
                    Change::PositionUp { position: p + 1 }
                } else {
                    Change::PositionDown { position: p + 1 }
                }
            },
            None => {
                proof {
                    assert forall|j: int| 0 <= j < v0.len() implies #[trigger] v0[j].0 != code@ by {
                        assert(self.codes@[o0[j] as int]@ != code@);
                    }
                }
                if self.size < MAX_ENTRIES {
                    let slot = self.links.len();
                    let ghost kept = key;
                    self.codes.push(key);
                    self.links.push(Link { reward, prev: None, next: None });
                    proof {
                        self.lemma_after_push(s0, kept, reward);
                    }
                    let ghost s1 = *self;
                    let seed = self.seed(hint);
                    let (pred, p) = self.locate(reward, seed);
                    self.link_at(slot, pred, Ghost(p as int));
                    proof {
                        self.lemma_after_link(s1, slot, p as int);
                        lemma_placed_descending(v0, code@, reward);
                        lemma_placed_distinct(v0, code@, reward);
                    }
                    Change::NewEntry { position: p + 1 }
                } else {
                    let t = self.tail.unwrap();
                    assert(self.links@[o0[o0.len() - 1] as int] == self.links@[t as int]);
                    if reward <= self.links[t].reward {
                        return Change::NotQualified;
                    }
                    self.unlink(t, Ghost(o0.len() - 1));
                    self.codes.set(t, key);
                    let mut nl = self.links[t];
                    nl.reward = reward;
                    self.links.set(t, nl);
                    proof {
                        self.lemma_after_unlink(s0, t, o0.len() - 1);
                        assert(v0.remove(o0.len() - 1) =~= v0.drop_last());
                    }
                    let ghost s1 = *self;
                    let ghost v1 = self@;
                    let seed = self.seed(hint);
                    let (pred, p) = self.locate(reward, seed);
                    self.link_at(t, pred, Ghost(p as int));
                    proof {
                        self.lemma_after_link(s1, t, p as int);
                        assert forall|j: int| 0 <= j < v1.len() implies #[trigger] v1[j].0
                            != code@ by {
                            assert(v1[j] == v0[j]);
                        }
                        lemma_placed_descending(v1, code@, reward);
                        lemma_placed_distinct(v1, code@, reward);
                    }
                    Change::NewEntry { position: p + 1 }
                }
            },
        }
    }
    /// The 1-based rank of `code`, if it is ranked.
    pub fn position_of(&self, code: &str) -> (r: Option<usize>)
        requires
            self.wf(),
        ensures
            r == (if holds_code(self@, code@) {
                Some((code_index(self@, code@) + 1) as usize)
            } else {
                None::<usize>
            }),
    {
        let key = code.to_owned();
        match self.find(&key) {
            Some((_slot, k)) => {
                proof {
                    lemma_code_index(self@, code@, k as int);
                }
                Some(k + 1)
            },
            None => {
                proof {
                    assert forall|j: int| 0 <= j < self@.len() implies #[trigger] self@[j].0
                        != code@ by {
                        assert(self.codes@[self.order@[j] as int]@ != code@);
                    }
                }
                None
            },
        }
    }

    /// A page of the ranking: up to `limit` entries (never more than
    /// `MAX_ENTRIES`) following the code `start_after`, or from the top
    /// when it is `None`; empty when `start_after` is not ranked. The flag
    /// tells whether entries remain after the page.
    pub fn range(&self, start_after: Option<&str>, limit: usize) -> (r: (Vec<RankedEntry>, bool))
        requires
            self.wf(),
        ensures
            r.0@.len() == page_len(self@, page_start(self@, chars_of(start_after)), limit),
            forall|i: int|
                0 <= i < r.0@.len() ==> {
                    let at = page_start(self@, chars_of(start_after)) + i;
                    &&& (#[trigger] r.0@[i]).rank == at + 1
                    &&& r.0@[i].code@ == self@[at].0
                    &&& r.0@[i].reward == self@[at].1
                },
            r.1 == (page_start(self@, chars_of(start_after)) + r.0@.len() < self@.len()),
    {
        let ghost o = self.order@;
        let ghost v = self@;
        let ghost start = page_start(v, chars_of(start_after));
        let mut cur: Option<usize>;
        let mut k: usize;
        match start_after {
            None => {
                cur = self.head;
                k = 0;
            },
            Some(c) => {
                let key = c.to_owned();
                match self.find(&key) {
                    Some((slot, j)) => {
                        proof {
                            lemma_code_index(v, c@, j as int);
                        }
                        assert(self.links@[o[j as int] as int].next == self.links@[slot as int].next);
                        cur = self.links[slot].next;
                        k = j + 1;
                    },
                    None => {
                        proof {
                            assert forall|j: int| 0 <= j < v.len() implies #[trigger] v[j].0
                                != c@ by {
                                assert(self.codes@[o[j] as int]@ != c@);
                            }
                        }
                        cur = None;
                        k = self.size;
                    },
                }
            },
        }
        let lim = if limit < MAX_ENTRIES {
            limit
        } else {
            MAX_ENTRIES
        };
        let mut out: Vec<RankedEntry> = Vec::new();
        while out.len() < lim && cur.is_some()
            invariant
                self.wf(),
                o == self.order@,
                v == self@,
                start == k - out@.len(),
                0 <= start <= k <= o.len(),
                out@.len() <= lim,
                cur == (if k == o.len() {
                    None
                } else {
                    Some(o[k as int])
                }),
                forall|i: int|
                    0 <= i < out@.len() ==> {
                        let at = start + i;
                        &&& (#[trigger] out@[i]).rank == at + 1
                        &&& out@[i].code@ == v[at].0
                        &&& out@[i].reward == v[at].1
                    },
            decreases o.len() - k,
        {
            let slot = cur.unwrap();
            assert(self.links@[o[k as int] as int] == self.links@[slot as int]);
            out.push(
                RankedEntry { rank: k + 1, code: self.codes[slot].clone(), reward: self.links[slot].reward },
            );
            cur = self.links[slot].next;
            k = k + 1;
        }
        let has_more = cur.is_some();
        (out, has_more)
    }
}

/// The characters of an optional code.
pub open spec fn chars_of(code: Option<&str>) -> Option<Seq<char>> {
    match code {
        Some(c) => Some(c@),
        None => None,
    }
}

/// Index of the first entry of a page that starts after `start_after`.
pub open spec fn page_start(s: Seq<Standing>, start_after: Option<Seq<char>>) -> int {
    match start_after {
        None => 0,
        Some(c) => if holds_code(s, c) {
            code_index(s, c) + 1
        } else {
            s.len() as int
        },
    }
}

/// Number of entries on a page that starts at index `start`.
pub open spec fn page_len(s: Seq<Standing>, start: int, limit: usize) -> int {
    let lim = if limit < MAX_ENTRIES {
        limit as int
    } else {
        MAX_ENTRIES as int
    };
    if s.len() - start < lim {
        s.len() - start
    } else {
        lim
    }
}

} // verus!
