//! The mathematical model of the leaderboard: a sequence of (code, reward)
//! entries, highest reward first, and what one update does to it.
use vstd::prelude::*;

verus! {

/// Largest number of entries the leaderboard holds.
pub const MAX_ENTRIES: usize = 50;

/// One ranked entry of the model: the code's characters and its reward.
pub type Standing = (Seq<char>, u128);

/// What an update did to the leaderboard. Positions are 1-based ranks.
#[derive(Clone, Copy, Debug, PartialEq, Eq, Structural)]
pub enum Change {
    /// The code was not ranked before and now stands at `position`.
    NewEntry { position: usize },
    /// The code was ranked and moved to the better rank `position`.
    PositionUp { position: usize },
    /// The code was ranked and moved to the worse rank `position`
    /// (only when its reward was lowered).
    PositionDown { position: usize },
    /// The code keeps its rank `position`.
    NoChange { position: usize },
    /// The board is full and the reward does not beat the last entry.
    NotQualified,
}

/// Rewards never increase from one entry to the next.
pub open spec fn is_descending(s: Seq<Standing>) -> bool {
    forall|i: int, j: int| 0 <= i < j < s.len() ==> #[trigger] s[i].1 >= #[trigger] s[j].1
}

/// No code appears twice.
pub open spec fn codes_distinct(s: Seq<Standing>) -> bool {
    forall|i: int, j: int| 0 <= i < j < s.len() ==> #[trigger] s[i].0 != #[trigger] s[j].0
}

/// A leaderboard state: sorted, without repeated codes, within capacity.
pub open spec fn is_valid_board(s: Seq<Standing>) -> bool {
    &&& is_descending(s)
    &&& codes_distinct(s)
    &&& s.len() <= MAX_ENTRIES
}

/// `code` is ranked in `s`.
pub open spec fn holds_code(s: Seq<Standing>, code: Seq<char>) -> bool {
    exists|i: int| 0 <= i < s.len() && #[trigger] s[i].0 == code
}

/// The index at which `code` stands (meaningful when `holds_code`).
pub open spec fn code_index(s: Seq<Standing>, code: Seq<char>) -> int {
    choose|i: int| 0 <= i < s.len() && #[trigger] s[i].0 == code
}

/// Where an entry with reward `r` goes: after every leading entry whose
/// reward is at least `r`. Among equal rewards the earlier arrival ranks
/// first.
pub open spec fn ins_index(s: Seq<Standing>, r: u128) -> int
    decreases s.len(),
{
    if s.len() == 0 {
        0
    } else if s[0].1 >= r {
        1 + ins_index(s.drop_first(), r)
    } else {
        0
    }
}

/// Entry `i` may keep its place with reward `r`.
pub open spec fn fits_at(s: Seq<Standing>, i: int, r: u128) -> bool {
    &&& (i == 0 || s[i - 1].1 >= r)
    &&& (i == s.len() - 1 || s[i + 1].1 <= r)
}

/// `s` with `(code, r)` placed where its reward belongs.
pub open spec fn placed(s: Seq<Standing>, code: Seq<char>, r: u128) -> Seq<Standing> {
    s.insert(ins_index(s, r), (code, r))
}

/// The leaderboard after code `code` reaches reward `r`, and the change
/// reported. The caller's position hint has no part in it.
pub open spec fn upserted(s: Seq<Standing>, code: Seq<char>, r: u128) -> (Seq<Standing>, Change) {
    if holds_code(s, code) {
        let i = code_index(s, code);
        if fits_at(s, i, r) {
            (s.update(i, (code, r)), Change::NoChange { position: (i + 1) as usize })
        } else {
            let t = s.remove(i);
            let p = ins_index(t, r);
            (
                t.insert(p, (code, r)),
                if r > s[i].1 {
                    Change::PositionUp { position: (p + 1) as usize }
                } else {
                    Change::PositionDown { position: (p + 1) as usize }
                },
            )
        }
    } else if s.len() < MAX_ENTRIES {
        let p = ins_index(s, r);
        (s.insert(p, (code, r)), Change::NewEntry { position: (p + 1) as usize })
    } else if r <= s.last().1 {
        (s, Change::NotQualified)
    } else {
        let t = s.drop_last();
        let p = ins_index(t, r);
        (t.insert(p, (code, r)), Change::NewEntry { position: (p + 1) as usize })
    }
}

/// Any index that splits `s` into entries at least `r` followed by one
/// below `r` is the insertion index.
pub proof fn lemma_ins_index_at(s: Seq<Standing>, r: u128, p: int)
    requires
        0 <= p <= s.len(),
        forall|j: int| 0 <= j < p ==> #[trigger] s[j].1 >= r,
        p < s.len() ==> s[p].1 < r,
    ensures
        ins_index(s, r) == p,
    decreases p,
{
    if p > 0 {
        let t = s.drop_first();
        assert forall|j: int| 0 <= j < p - 1 implies #[trigger] t[j].1 >= r by {
            assert(t[j] == s[j + 1]);
        }
        if p - 1 < t.len() {
            assert(t[p - 1] == s[p]);
        }
        lemma_ins_index_at(t, r, p - 1);
    }
}

/// On a sorted sequence the insertion index separates the entries of
/// reward at least `r` from those below it.
pub proof fn lemma_ins_index_splits(s: Seq<Standing>, r: u128)
    requires
        is_descending(s),
    ensures
        0 <= ins_index(s, r) <= s.len(),
        forall|j: int| 0 <= j < ins_index(s, r) ==> #[trigger] s[j].1 >= r,
        forall|j: int| ins_index(s, r) <= j < s.len() ==> #[trigger] s[j].1 < r,
    decreases s.len(),
{
    if s.len() > 0 && s[0].1 >= r {
        let t = s.drop_first();
        assert forall|i: int, j: int| 0 <= i < j < t.len() implies #[trigger] t[i].1
            >= #[trigger] t[j].1 by {
            assert(s[i + 1].1 >= s[j + 1].1);
        }
        lemma_ins_index_splits(t, r);
        assert forall|j: int| 0 <= j < ins_index(s, r) implies #[trigger] s[j].1 >= r by {
            if j > 0 {
                assert(s[j] == t[j - 1]);
            }
        }
        assert forall|j: int| ins_index(s, r) <= j < s.len() implies #[trigger] s[j].1 < r by {
            assert(s[j] == t[j - 1]);
        }
    } else if s.len() > 0 {
        assert forall|j: int| 0 <= j < s.len() implies #[trigger] s[j].1 < r by {
            if j > 0 {
                assert(s[0].1 >= s[j].1);
            }
        }
    }
}

/// Placing an entry keeps a sorted sequence sorted, and puts it at the
/// insertion index.
pub proof fn lemma_placed_descending(s: Seq<Standing>, code: Seq<char>, r: u128)
    requires
        is_descending(s),
    ensures
        is_descending(placed(s, code, r)),
        placed(s, code, r).len() == s.len() + 1,
        placed(s, code, r)[ins_index(s, r)] == (code, r),
{
    lemma_ins_index_splits(s, r);
    let p = ins_index(s, r);
    let u = placed(s, code, r);
    s.insert_ensures(p, (code, r));
    assert forall|i: int, j: int| 0 <= i < j < u.len() implies #[trigger] u[i].1
        >= #[trigger] u[j].1 by {
        if j < p {
        } else if j == p {
            assert(u[i] == s[i]);
        } else if i < p {
            assert(u[j] == s[j - 1]);
        } else if i == p {
            assert(u[j] == s[j - 1]);
        } else {
            assert(u[i] == s[i - 1]);
            assert(u[j] == s[j - 1]);
        }
    }
}

/// Placing an entry whose code is new keeps the codes distinct.
pub proof fn lemma_placed_distinct(s: Seq<Standing>, code: Seq<char>, r: u128)
    requires
        is_descending(s),
        codes_distinct(s),
        !holds_code(s, code),
    ensures
        codes_distinct(placed(s, code, r)),
        holds_code(placed(s, code, r), code),
{
    lemma_ins_index_splits(s, r);
    let p = ins_index(s, r);
    let u = placed(s, code, r);
    s.insert_ensures(p, (code, r));
    assert forall|i: int, j: int| 0 <= i < j < u.len() implies #[trigger] u[i].0
        != #[trigger] u[j].0 by {
        if j < p {
        } else if j == p {
            assert(u[i] == s[i]);
        } else if i < p {
            assert(u[j] == s[j - 1]);
        } else if i == p {
            assert(u[j] == s[j - 1]);
        } else {
            assert(u[i] == s[i - 1]);
            assert(u[j] == s[j - 1]);
        }
    }
    assert(u[p].0 == code);
}

/// With distinct codes, the entry found for a code is the only one.
pub proof fn lemma_code_index(s: Seq<Standing>, code: Seq<char>, i: int)
    requires
        codes_distinct(s),
        0 <= i < s.len(),
        s[i].0 == code,
    ensures
        holds_code(s, code),
        code_index(s, code) == i,
{
    assert(holds_code(s, code));
    let k = code_index(s, code);
    if k < i {
        assert(s[k].0 != s[i].0);
    } else if i < k {
        assert(s[i].0 != s[k].0);
    }
}

/// Dropping one entry keeps a valid board valid, and its code is then gone.
proof fn lemma_remove_valid(s: Seq<Standing>, i: int)
    requires
        is_valid_board(s),
        0 <= i < s.len(),
    ensures
        is_valid_board(s.remove(i)),
        !holds_code(s.remove(i), s[i].0),
{
    let t = s.remove(i);
    s.remove_ensures(i);
    assert forall|a: int, b: int| 0 <= a < b < t.len() implies #[trigger] t[a].1
        >= #[trigger] t[b].1 by {
        if b < i {
            assert(s[a].1 >= s[b].1);
        } else if a < i {
            assert(s[a].1 >= s[b + 1].1);
        } else {
            assert(s[a + 1].1 >= s[b + 1].1);
        }
    }
    assert forall|a: int, b: int| 0 <= a < b < t.len() implies #[trigger] t[a].0
        != #[trigger] t[b].0 by {
        if b < i {
            assert(s[a].0 != s[b].0);
        } else if a < i {
            assert(s[a].0 != s[b + 1].0);
        } else {
            assert(s[a + 1].0 != s[b + 1].0);
        }
    }
    if holds_code(t, s[i].0) {
        let j = choose|j: int| 0 <= j < t.len() && #[trigger] t[j].0 == s[i].0;
        if j < i {
            assert(s[j].0 != s[i].0);
        } else {
            assert(s[i].0 != s[j + 1].0);
        }
    }
}

/// The rank a change reports; zero when the update was turned away.
pub open spec fn reported_position(c: Change) -> int {
    match c {
        Change::NewEntry { position } => position as int,
        Change::PositionUp { position } => position as int,
        Change::PositionDown { position } => position as int,
        Change::NoChange { position } => position as int,
        Change::NotQualified => 0,
    }
}

/// Every update keeps the board sorted by reward (highest first), free of
/// repeated codes, and within `MAX_ENTRIES` entries.
pub proof fn lemma_upsert_keeps_board_valid(s: Seq<Standing>, code: Seq<char>, r: u128)
    requires
        is_valid_board(s),
    ensures
        is_valid_board(upserted(s, code, r).0),
{
    lemma_upsert_places(s, code, r);
}

/// Unless the update is turned away, the code ends up ranked with the new
/// reward, at the rank the change reports.
pub proof fn lemma_upsert_places(s: Seq<Standing>, code: Seq<char>, r: u128)
    requires
        is_valid_board(s),
    ensures
        is_valid_board(upserted(s, code, r).0),
        upserted(s, code, r).1 != Change::NotQualified ==> {
            let u = upserted(s, code, r).0;
            &&& holds_code(u, code)
            &&& u[code_index(u, code)] == (code, r)
            &&& reported_position(upserted(s, code, r).1) == code_index(u, code) + 1
        },
        upserted(s, code, r).1 == Change::NotQualified ==> upserted(s, code, r).0 == s,
{
    let u = upserted(s, code, r).0;
    if holds_code(s, code) {
        let i = code_index(s, code);
        if fits_at(s, i, r) {
            assert forall|a: int, b: int| 0 <= a < b < u.len() implies #[trigger] u[a].1
                >= #[trigger] u[b].1 by {
                if a == i {
                    assert(s[i + 1].1 >= s[b].1);
                } else if b == i {
                    assert(s[a].1 >= s[i - 1].1);
                } else {
                    assert(s[a].1 >= s[b].1);
                }
            }
            assert forall|a: int, b: int| 0 <= a < b < u.len() implies #[trigger] u[a].0
                != #[trigger] u[b].0 by {
                assert(s[a].0 != s[b].0);
            }
            lemma_code_index(u, code, i);
        } else {
            let t = s.remove(i);
            lemma_remove_valid(s, i);
            lemma_placed_descending(t, code, r);
            lemma_placed_distinct(t, code, r);
            lemma_ins_index_splits(t, r);
            lemma_code_index(u, code, ins_index(t, r));
        }
    } else if s.len() < MAX_ENTRIES {
        lemma_placed_descending(s, code, r);
        lemma_placed_distinct(s, code, r);
        lemma_ins_index_splits(s, r);
        lemma_code_index(u, code, ins_index(s, r));
    } else if r <= s.last().1 {
    } else {
        let t = s.drop_last();
        assert(t =~= s.remove(s.len() - 1));
        lemma_remove_valid(s, s.len() - 1);
        assert forall|j: int| 0 <= j < t.len() implies #[trigger] t[j].0 != code by {
            assert(t[j] == s[j]);
        }
        lemma_placed_descending(t, code, r);
        lemma_placed_distinct(t, code, r);
        lemma_ins_index_splits(t, r);
        lemma_code_index(u, code, ins_index(t, r));
    }
}

/// Repeating an update with the same code and reward reports no change and
/// leaves the board as it is (when the first one was not turned away).
pub proof fn lemma_upsert_twice_no_change(s: Seq<Standing>, code: Seq<char>, r: u128)
    requires
        is_valid_board(s),
        upserted(s, code, r).1 != Change::NotQualified,
    ensures
        ({
            let u = upserted(s, code, r).0;
            upserted(u, code, r) == (u, Change::NoChange { position: (code_index(u, code) + 1) as usize })
        }),
{
    lemma_upsert_places(s, code, r);
    let u = upserted(s, code, r).0;
    let i = code_index(u, code);
    if i > 0 {
        assert(u[i - 1].1 >= u[i].1);
    }
    if i < u.len() - 1 {
        assert(u[i].1 >= u[i + 1].1);
    }
    assert(fits_at(u, i, r));
    assert(u.update(i, (code, r)) =~= u);
}

/// An entry of the updated board other than the updated code was already
/// on the board before, unchanged.
pub proof fn lemma_upsert_keeps_others(s: Seq<Standing>, code: Seq<char>, r: u128, m: int)
    requires
        is_valid_board(s),
        0 <= m < upserted(s, code, r).0.len(),
        upserted(s, code, r).0[m].0 != code,
    ensures
        exists|j: int| 0 <= j < s.len() && s[j] == upserted(s, code, r).0[m],
{
    let u = upserted(s, code, r).0;
    if holds_code(s, code) {
        let i = code_index(s, code);
        if fits_at(s, i, r) {
            assert(s[m] == u[m]);
        } else {
            let t = s.remove(i);
            let p = ins_index(t, r);
            s.remove_ensures(i);
            lemma_ins_index_splits(t, r);
            t.insert_ensures(p, (code, r));
            let k = if m < p { m } else { m - 1 };
            let j = if k < i { k } else { k + 1 };
            assert(s[j] == u[m]);
        }
    } else if s.len() < MAX_ENTRIES {
        let p = ins_index(s, r);
        lemma_ins_index_splits(s, r);
        s.insert_ensures(p, (code, r));
        let j = if m < p { m } else { m - 1 };
        assert(s[j] == u[m]);
    } else if r <= s.last().1 {
        assert(s[m] == u[m]);
    } else {
        let t = s.drop_last();
        let p = ins_index(t, r);
        lemma_ins_index_splits(t, r);
        t.insert_ensures(p, (code, r));
        let j = if m < p { m } else { m - 1 };
        assert(t[j] == s[j]);
        assert(s[j] == u[m]);
    }
}

/// When code `a` is updated to a reward strictly above the reward of a
/// ranked code `b`, `a` is ranked afterwards, and ahead of `b` if `b` is
/// still ranked.
pub proof fn lemma_upsert_outranks(s: Seq<Standing>, a: Seq<char>, ra: u128, b: Seq<char>)
    requires
        is_valid_board(s),
        holds_code(s, b),
        a != b,
        ra > s[code_index(s, b)].1,
    ensures
        ({
            let u = upserted(s, a, ra).0;
            &&& holds_code(u, a)
            &&& holds_code(u, b) ==> code_index(u, a) < code_index(u, b)
        }),
{
    let ib = code_index(s, b);
    if upserted(s, a, ra).1 == Change::NotQualified {
        assert(s.last().1 <= s[ib].1 || ib == s.len() - 1);
        if ib < s.len() - 1 {
            assert(s[ib].1 >= s[s.len() - 1].1);
        }
        assert(false);
    }
    lemma_upsert_places(s, a, ra);
    let u = upserted(s, a, ra).0;
    if holds_code(u, b) {
        let ia2 = code_index(u, a);
        let ib2 = code_index(u, b);
        lemma_upsert_keeps_others(s, a, ra, ib2);
        let j = choose|j: int| 0 <= j < s.len() && s[j] == u[ib2];
        lemma_code_index(s, b, j);
        if ib2 < ia2 {
            assert(u[ib2].1 >= u[ia2].1);
            assert(false);
        }
    }
}

/// On a full board, a new code whose reward beats the last entry's evicts
/// exactly that entry and the size stays at `MAX_ENTRIES`; one that does
/// not beat it is turned away and the board is untouched.
pub proof fn lemma_full_board_update(s: Seq<Standing>, code: Seq<char>, r: u128)
    requires
        is_valid_board(s),
        s.len() == MAX_ENTRIES,
        !holds_code(s, code),
    ensures
        r > s.last().1 ==> {
            let u = upserted(s, code, r).0;
            &&& u.len() == MAX_ENTRIES
            &&& !holds_code(u, s.last().0)
            &&& holds_code(u, code)
            &&& forall|j: int| 0 <= j < s.len() - 1 ==> holds_code(u, #[trigger] s[j].0)
        },
        r <= s.last().1 ==> upserted(s, code, r) == (s, Change::NotQualified),
{
    if r > s.last().1 {
        let t = s.drop_last();
        let u = upserted(s, code, r).0;
        let p = ins_index(t, r);
        lemma_upsert_places(s, code, r);
        assert(t =~= s.remove(s.len() - 1));
        lemma_remove_valid(s, s.len() - 1);
        lemma_ins_index_splits(t, r);
        t.insert_ensures(p, (code, r));
        if holds_code(u, s.last().0) {
            let m = choose|m: int| 0 <= m < u.len() && #[trigger] u[m].0 == s.last().0;
            if m < p {
                assert(u[m] == t[m]);
            } else if m > p {
                assert(u[m] == t[m - 1]);
            } else {
                assert(u[m].0 == code);
                assert(s[s.len() - 1].0 == code);
            }
        }
        assert forall|j: int| 0 <= j < s.len() - 1 implies holds_code(u, #[trigger] s[j].0) by {
            assert(t[j] == s[j]);
            if j < p {
                assert(u[j] == t[j]);
            } else {
                assert(u[j + 1] == t[j]);
            }
        }
    }
}

} // verus!
