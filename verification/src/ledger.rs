//! The ledger: a mapping from identity to per-counterparty balances in
//! integer cents.  The double-entry operations `apply_debt` and `apply_split`
//! keep the structure anti-symmetric: whatever one party is owed, the other
//! party owes.

use vstd::prelude::*;

verus! {

/// The mathematical model of the ledger: who owes whom how many cents.
pub type LedgerMap = Map<u64, Map<u64, int>>;

/// The balance of `a` against `b`; a missing entry means zero.
pub open spec fn bal(m: LedgerMap, a: u64, b: u64) -> int {
    if m.contains_key(a) && m[a].contains_key(b) {
        m[a][b]
    } else {
        0
    }
}

/// The ledger with the balance of `a` against `b` set to `v` (creating
/// either level of entry as needed).
pub open spec fn set_bal(m: LedgerMap, a: u64, b: u64, v: int) -> LedgerMap {
    let inner = if m.contains_key(a) {
        m[a]
    } else {
        Map::<u64, int>::empty()
    };
    m.insert(a, inner.insert(b, v))
}

/// One double-entry debt update: the balance of `debtor` against `creditor`
/// rises by `amount` and the reverse balance falls by `amount`, applied in
/// that order (so a self-debt leaves every balance unchanged).
pub open spec fn apply_debt_spec(m: LedgerMap, debtor: u64, creditor: u64, amount: int) -> LedgerMap {
    let m1 = set_bal(m, debtor, creditor, bal(m, debtor, creditor) + amount);
    set_bal(m1, creditor, debtor, bal(m1, creditor, debtor) - amount)
}

/// Both stored balances touched by a debt update stay within `i64`.
pub open spec fn debt_fits(m: LedgerMap, debtor: u64, creditor: u64, amount: int) -> bool {
    let m1 = set_bal(m, debtor, creditor, bal(m, debtor, creditor) + amount);
    &&& i64::MIN <= bal(m, debtor, creditor) + amount <= i64::MAX
    &&& i64::MIN <= bal(m1, creditor, debtor) - amount <= i64::MAX
}

/// A split charges every recipient in turn the full amount, as one debt
/// update per recipient, owed to the initiator.
pub open spec fn apply_split_spec(m: LedgerMap, initiator: u64, amount: int, rs: Seq<u64>) -> LedgerMap
    decreases rs.len(),
{
    if rs.len() == 0 {
        m
    } else {
        apply_split_spec(apply_debt_spec(m, initiator, rs[0], amount), initiator, amount, rs.drop_first())
    }
}

/// Every intermediate balance of a split stays within `i64`.
pub open spec fn split_fits(m: LedgerMap, initiator: u64, amount: int, rs: Seq<u64>) -> bool
    decreases rs.len(),
{
    rs.len() == 0 || (debt_fits(m, initiator, rs[0], amount) && split_fits(
        apply_debt_spec(m, initiator, rs[0], amount),
        initiator,
        amount,
        rs.drop_first(),
    ))
}

/// The anti-symmetry invariant of the data model: for any two identities
/// the two stored directions of one obligation are negatives of each other.
pub open spec fn antisymmetric(m: LedgerMap) -> bool {
    forall|a: u64, b: u64| #[trigger] bal(m, a, b) == -bal(m, b, a)
}

/// How `set_bal` changes each balance: only the one written.
pub proof fn lemma_bal_set(m: LedgerMap, a: u64, b: u64, v: int, x: u64, y: u64)
    ensures
        bal(set_bal(m, a, b, v), x, y) == if x == a && y == b {
            v
        } else {
            bal(m, x, y)
        },
{
}

/// How a debt update changes each balance: the two directions of the pair
/// move by `amount` in opposite senses, everything else is untouched.
pub proof fn lemma_bal_debt(m: LedgerMap, d: u64, c: u64, amount: int, x: u64, y: u64)
    ensures
        bal(apply_debt_spec(m, d, c, amount), x, y) == if d == c {
            bal(m, x, y)
        } else if x == d && y == c {
            bal(m, d, c) + amount
        } else if x == c && y == d {
            bal(m, c, d) - amount
        } else {
            bal(m, x, y)
        },
{
    let m1 = set_bal(m, d, c, bal(m, d, c) + amount);
    lemma_bal_set(m, d, c, bal(m, d, c) + amount, x, y);
    lemma_bal_set(m, d, c, bal(m, d, c) + amount, c, d);
    lemma_bal_set(m1, c, d, bal(m1, c, d) - amount, x, y);
}

/// The empty ledger is anti-symmetric: every balance is zero.
pub proof fn lemma_empty_antisymmetric()
    ensures
        antisymmetric(Map::<u64, Map<u64, int>>::empty()),
{
}

/// A debt update preserves the anti-symmetry invariant.
pub proof fn lemma_debt_antisymmetric(m: LedgerMap, d: u64, c: u64, amount: int)
    requires
        antisymmetric(m),
    ensures
        antisymmetric(apply_debt_spec(m, d, c, amount)),
{
    let m2 = apply_debt_spec(m, d, c, amount);
    assert forall|a: u64, b: u64| #[trigger] bal(m2, a, b) == -bal(m2, b, a) by {
        lemma_bal_debt(m, d, c, amount, a, b);
        lemma_bal_debt(m, d, c, amount, b, a);
        assert(bal(m, a, b) == -bal(m, b, a));
    }
}

/// A split preserves the anti-symmetry invariant.
pub proof fn lemma_split_antisymmetric(m: LedgerMap, initiator: u64, amount: int, rs: Seq<u64>)
    requires
        antisymmetric(m),
    ensures
        antisymmetric(apply_split_spec(m, initiator, amount, rs)),
    decreases rs.len(),
{
    if rs.len() > 0 {
        lemma_debt_antisymmetric(m, initiator, rs[0], amount);
        lemma_split_antisymmetric(
            apply_debt_spec(m, initiator, rs[0], amount),
            initiator,
            amount,
            rs.drop_first(),
        );
    }
}

/// Debt updates on disjoint identity pairs commute: applying them in either
/// order yields the same ledger.  This is the heart of serializability for
/// concurrent debts against disjoint pairs: any interleaving equals some
/// sequential order, and for disjoint pairs all sequential orders agree.
pub proof fn lemma_debt_commutes(
    m: LedgerMap,
    d1: u64,
    c1: u64,
    a1: int,
    d2: u64,
    c2: u64,
    a2: int,
)
    requires
        d1 != d2,
        d1 != c2,
        c1 != d2,
        c1 != c2,
    ensures
        apply_debt_spec(apply_debt_spec(m, d1, c1, a1), d2, c2, a2) == apply_debt_spec(
            apply_debt_spec(m, d2, c2, a2),
            d1,
            c1,
            a1,
        ),
{
    let lhs = apply_debt_spec(apply_debt_spec(m, d1, c1, a1), d2, c2, a2);
    let rhs = apply_debt_spec(apply_debt_spec(m, d2, c2, a2), d1, c1, a1);
    assert forall|x: u64| #[trigger] lhs.contains_key(x) implies rhs.contains_key(x) by {}
    assert forall|x: u64| #[trigger] rhs.contains_key(x) implies lhs.contains_key(x) by {}
    assert forall|x: u64| lhs.contains_key(x) && rhs.contains_key(x) implies #[trigger] lhs[x]
        =~= rhs[x] by {}
    assert(lhs =~~= rhs);
}

/// A batch of debts (debtor, creditor, amount), applied in order.
pub open spec fn apply_debts_spec(m: LedgerMap, ds: Seq<(u64, u64, i64)>) -> LedgerMap
    decreases ds.len(),
{
    if ds.len() == 0 {
        m
    } else {
        apply_debts_spec(
            apply_debt_spec(m, ds[0].0, ds[0].1, ds[0].2 as int),
            ds.drop_first(),
        )
    }
}

/// Two debts touch disjoint identity pairs.
pub open spec fn pair_disjoint(a: (u64, u64, i64), b: (u64, u64, i64)) -> bool {
    a.0 != b.0 && a.0 != b.1 && a.1 != b.0 && a.1 != b.1
}

/// Serializability of debts on disjoint pairs: swapping two adjacent debts
/// whose identity pairs are disjoint does not change the final ledger.
/// Since every reordering is a chain of such swaps, a batch of debts on
/// pairwise disjoint pairs yields the same state in whatever order the
/// concurrent callers were serialized.
pub proof fn lemma_debts_adjacent_swap(m: LedgerMap, ds: Seq<(u64, u64, i64)>, i: int)
    requires
        0 <= i < ds.len() - 1,
        pair_disjoint(ds[i], ds[i + 1]),
    ensures
        apply_debts_spec(m, ds) == apply_debts_spec(
            m,
            ds.update(i, ds[i + 1]).update(i + 1, ds[i]),
        ),
    decreases i,
{
    let t = ds.update(i, ds[i + 1]).update(i + 1, ds[i]);
    if i == 0 {
        let d0 = ds[0];
        let d1 = ds[1];
        lemma_debt_commutes(m, d0.0, d0.1, d0.2 as int, d1.0, d1.1, d1.2 as int);
        assert(t[0] == d1);
        assert(t[1] == d0);
        assert(ds.drop_first()[0] == d1);
        assert(t.drop_first()[0] == d0);
        assert(t.drop_first().drop_first() =~= ds.drop_first().drop_first());
        let ma = apply_debt_spec(m, d0.0, d0.1, d0.2 as int);
        let mb = apply_debt_spec(m, d1.0, d1.1, d1.2 as int);
        let m01 = apply_debt_spec(ma, d1.0, d1.1, d1.2 as int);
        let m10 = apply_debt_spec(mb, d0.0, d0.1, d0.2 as int);
        assert(apply_debts_spec(m, ds) == apply_debts_spec(ma, ds.drop_first()));
        assert(apply_debts_spec(ma, ds.drop_first()) == apply_debts_spec(
            m01,
            ds.drop_first().drop_first(),
        ));
        assert(apply_debts_spec(m, t) == apply_debts_spec(mb, t.drop_first()));
        assert(apply_debts_spec(mb, t.drop_first()) == apply_debts_spec(
            m10,
            t.drop_first().drop_first(),
        ));
        assert(m01 == m10);
    } else {
        assert(t[0] == ds[0]);
        let tail = ds.drop_first();
        assert(tail[i - 1] == ds[i]);
        assert(tail[i] == ds[i + 1]);
        let m0 = apply_debt_spec(m, ds[0].0, ds[0].1, ds[0].2 as int);
        lemma_debts_adjacent_swap(m0, tail, i - 1);
        assert(t.drop_first() =~= tail.update(i - 1, tail[i]).update(i, tail[i - 1]));
        assert(apply_debts_spec(m, ds) == apply_debts_spec(m0, tail));
        assert(apply_debts_spec(m, t) == apply_debts_spec(m0, t.drop_first()));
    }
}

// ---------------------------------------------------------------------------
// Association lists: the executable representation of the two map levels.
// ---------------------------------------------------------------------------

/// The keys of a pair sequence are pairwise distinct.
pub open spec fn distinct_keys(s: Seq<(u64, i64)>) -> bool {
    forall|i: int, j: int| #![trigger s[i].0, s[j].0] 0 <= i < j < s.len() ==> s[i].0 != s[j].0
}

/// The mapping denoted by a sequence of key/value pairs (later entries win;
/// with distinct keys, the order is immaterial).
pub open spec fn pairs_to_map(s: Seq<(u64, i64)>) -> Map<u64, int>
    decreases s.len(),
{
    if s.len() == 0 {
        Map::empty()
    } else {
        pairs_to_map(s.drop_last()).insert(s.last().0, s.last().1 as int)
    }
}

/// A key is in the denoted mapping exactly when some pair holds it.
pub proof fn lemma_ptm_contains(s: Seq<(u64, i64)>, k: u64)
    ensures
        pairs_to_map(s).contains_key(k) <==> exists|i: int| 0 <= i < s.len() && (#[trigger] s[i]).0
            == k,
    decreases s.len(),
{
    if s.len() > 0 {
        lemma_ptm_contains(s.drop_last(), k);
        if s.last().0 == k {
            assert((s[s.len() - 1]).0 == k);
        } else {
            if pairs_to_map(s).contains_key(k) {
                let i = choose|i: int| 0 <= i < s.drop_last().len() && (#[trigger] s.drop_last()[i]).0 == k;
                assert((s[i]).0 == k);
            }
            if exists|i: int| 0 <= i < s.len() && (#[trigger] s[i]).0 == k {
                let i = choose|i: int| 0 <= i < s.len() && (#[trigger] s[i]).0 == k;
                assert(i < s.len() - 1);
                assert((s.drop_last()[i]).0 == k);
            }
        }
    }
}

/// With distinct keys, the pair at any index gives the mapping's value.
pub proof fn lemma_ptm_value(s: Seq<(u64, i64)>, i: int)
    requires
        distinct_keys(s),
        0 <= i < s.len(),
    ensures
        pairs_to_map(s).contains_key(s[i].0),
        pairs_to_map(s)[s[i].0] == s[i].1 as int,
    decreases s.len(),
{
    if i < s.len() - 1 {
        lemma_distinct_drop_last(s);
        lemma_ptm_value(s.drop_last(), i);
        assert(s.drop_last()[i] == s[i]);
        assert(s.last().0 != s[i].0);
    }
}

/// Dropping the last pair keeps the keys distinct.
proof fn lemma_distinct_drop_last(s: Seq<(u64, i64)>)
    requires
        s.len() > 0,
        distinct_keys(s),
    ensures
        distinct_keys(s.drop_last()),
{
    assert forall|i: int, j: int|
        0 <= i < j < s.drop_last().len() implies (#[trigger] s.drop_last()[i]).0 != (
    #[trigger] s.drop_last()[j]).0 by {
        assert(s.drop_last()[i] == s[i]);
        assert(s.drop_last()[j] == s[j]);
    }
}

/// Overwriting the value at an existing key updates the denoted mapping.
pub proof fn lemma_ptm_update(s: Seq<(u64, i64)>, i: int, v: i64)
    requires
        distinct_keys(s),
        0 <= i < s.len(),
    ensures
        pairs_to_map(s.update(i, (s[i].0, v))) == pairs_to_map(s).insert(s[i].0, v as int),
        distinct_keys(s.update(i, (s[i].0, v))),
    decreases s.len(),
{
    let k = s[i].0;
    let t = s.update(i, (k, v));
    assert forall|p: int, q: int|
        0 <= p < q < t.len() implies (#[trigger] t[p]).0 != (#[trigger] t[q]).0 by {
        assert(t[p].0 == s[p].0);
        assert(t[q].0 == s[q].0);
    }
    if i == s.len() - 1 {
        assert(t.drop_last() =~= s.drop_last());
        assert(t.last() == (k, v));
        assert(pairs_to_map(t) =~= pairs_to_map(s).insert(k, v as int));
    } else {
        lemma_distinct_drop_last(s);
        assert(t.drop_last() =~= s.drop_last().update(i, (k, v)));
        assert(s.drop_last()[i] == s[i]);
        lemma_ptm_update(s.drop_last(), i, v);
        assert(s.last().0 != k);
        assert(t.last() == s.last());
        assert(pairs_to_map(t) =~= pairs_to_map(s).insert(k, v as int));
    }
}

/// Appending a pair with a fresh key inserts it into the denoted mapping.
pub proof fn lemma_ptm_push(s: Seq<(u64, i64)>, k: u64, v: i64)
    requires
        distinct_keys(s),
        forall|i: int| 0 <= i < s.len() ==> (#[trigger] s[i]).0 != k,
    ensures
        pairs_to_map(s.push((k, v))) == pairs_to_map(s).insert(k, v as int),
        distinct_keys(s.push((k, v))),
{
    let t = s.push((k, v));
    assert(t.drop_last() =~= s);
    assert forall|p: int, q: int|
        0 <= p < q < t.len() implies (#[trigger] t[p]).0 != (#[trigger] t[q]).0 by {
        if q < t.len() - 1 {
            assert(t[p] == s[p]);
            assert(t[q] == s[q]);
        } else {
            assert(t[p] == s[p]);
        }
    }
}

/// One direction of the ledger: the balances one identity holds against its
/// counterparties, as a copyable list of pairs.
pub struct BalanceMap {
    entries: Vec<(u64, i64)>,
}

impl View for BalanceMap {
    type V = Map<u64, int>;

    closed spec fn view(&self) -> Map<u64, int> {
        pairs_to_map(self.entries@)
    }
}

impl BalanceMap {
    /// The stored pairs, in insertion order.
    pub closed spec fn pairs(&self) -> Seq<(u64, i64)> {
        self.entries@
    }

    /// Well-formed: no key occurs twice.
    pub closed spec fn wf(&self) -> bool {
        distinct_keys(self.entries@)
    }

    /// The denoted mapping is the one the stored pairs spell out.
    pub proof fn lemma_view_is_pairs(&self)
        ensures
            self@ == pairs_to_map(self.pairs()),
    {
    }

    /// Well-formedness is exactly distinctness of the stored keys.
    pub proof fn lemma_wf_is_distinct(&self)
        ensures
            self.wf() == distinct_keys(self.pairs()),
    {
    }

    /// An empty balance map.
    pub fn new() -> (r: BalanceMap)
        ensures
            r.wf(),
            r@ == Map::<u64, int>::empty(),
            r.pairs() == Seq::<(u64, i64)>::empty(),
    {
        BalanceMap { entries: Vec::new() }
    }

    /// The number of stored pairs.
    pub fn len(&self) -> (n: usize)
        ensures
            n == self.pairs().len(),
    {
        self.entries.len()
    }

    /// The pair at one index.
    pub fn pair_at(&self, i: usize) -> (p: (u64, i64))
        requires
            i < self.pairs().len(),
        ensures
            p == self.pairs()[i as int],
    {
        self.entries[i]
    }

    /// Index of the pair holding `k`, if any.
    fn find(&self, k: u64) -> (r: Option<usize>)
        ensures
            match r {
                Some(i) => i < self.entries@.len() && self.entries@[i as int].0 == k,
                None => forall|i: int|
                    0 <= i < self.entries@.len() ==> (#[trigger] self.entries@[i]).0 != k,
            },
    {
        let mut i: usize = 0;
        let n = self.entries.len();
        while i < n
            invariant
                i <= n,
                n == self.entries@.len(),
                forall|p: int| 0 <= p < i ==> (#[trigger] self.entries@[p]).0 != k,
            decreases n - i,
        {
            if self.entries[i].0 == k {
                return Some(i);
            }
            i = i + 1;
        }
        None
    }

    /// The balance stored for `k`, zero when absent.
    pub fn get_or_zero(&self, k: u64) -> (v: i64)
        requires
            self.wf(),
        ensures
            v as int == if self@.contains_key(k) {
                self@[k]
            } else {
                0
            },
    {
        match self.find(k) {
            Some(i) => {
                proof {
                    lemma_ptm_value(self.entries@, i as int);
                }
                self.entries[i].1
            },
            None => {
                proof {
                    lemma_ptm_contains(self.entries@, k);
                }
                0
            },
        }
    }

    /// Sets the balance stored for `k`, inserting a pair if absent.
    pub fn set(&mut self, k: u64, v: i64)
        requires
            old(self).wf(),
        ensures
            final(self).wf(),
            final(self)@ == old(self)@.insert(k, v as int),
    {
        match self.find(k) {
            Some(i) => {
                proof {
                    lemma_ptm_update(self.entries@, i as int, v);
                }
                let _ = self.entries.remove(i);
                self.entries.insert(i, (k, v));
                proof {
                    assert(self.entries@ =~= old(self).entries@.update(
                        i as int,
                        (old(self).entries@[i as int].0, v),
                    ));
                }
            },
            None => {
                proof {
                    lemma_ptm_push(self.entries@, k, v);
                }
                self.entries.push((k, v));
            },
        }
    }

    /// A deep copy with the same pairs.
    pub fn duplicate(&self) -> (r: BalanceMap)
        ensures
            r.pairs() == self.pairs(),
            r@ == self@,
            r.wf() == self.wf(),
    {
        let mut entries: Vec<(u64, i64)> = Vec::new();
        let n = self.entries.len();
        let mut i: usize = 0;
        while i < n
            invariant
                i <= n,
                n == self.entries@.len(),
                entries@ =~= self.entries@.take(i as int),
            decreases n - i,
        {
            entries.push(self.entries[i]);
            i = i + 1;
        }
        proof {
            assert(entries@ =~= self.entries@);
        }
        BalanceMap { entries }
    }

    /// Whether a pair for `k` is stored.
    pub fn has_key(&self, k: u64) -> (r: bool)
        ensures
            r == self@.contains_key(k),
    {
        proof {
            lemma_ptm_contains(self.entries@, k);
        }
        match self.find(k) {
            Some(_) => true,
            None => false,
        }
    }

    /// Appends a pair whose key is not yet stored.
    pub(crate) fn push_pair(&mut self, k: u64, v: i64)
        requires
            old(self).wf(),
            !old(self)@.contains_key(k),
        ensures
            final(self).wf(),
            final(self)@ == old(self)@.insert(k, v as int),
            final(self).pairs() == old(self).pairs().push((k, v)),
    {
        proof {
            lemma_ptm_contains(self.entries@, k);
            lemma_ptm_push(self.entries@, k, v);
        }
        self.entries.push((k, v));
    }
}

// ---------------------------------------------------------------------------
// The ledger itself: an association list of per-identity balance maps.
// ---------------------------------------------------------------------------

/// The keys of an account sequence are pairwise distinct.
pub open spec fn distinct_acct_keys(s: Seq<(u64, BalanceMap)>) -> bool {
    forall|i: int, j: int| #![trigger s[i].0, s[j].0] 0 <= i < j < s.len() ==> s[i].0 != s[j].0
}

/// The ledger mapping denoted by a sequence of account entries.
pub open spec fn accounts_map(s: Seq<(u64, BalanceMap)>) -> LedgerMap
    decreases s.len(),
{
    if s.len() == 0 {
        Map::empty()
    } else {
        accounts_map(s.drop_last()).insert(s.last().0, s.last().1@)
    }
}

/// An identity is in the denoted ledger exactly when some entry holds it.
pub proof fn lemma_am_contains(s: Seq<(u64, BalanceMap)>, k: u64)
    ensures
        accounts_map(s).contains_key(k) <==> exists|i: int| 0 <= i < s.len() && (#[trigger] s[i]).0
            == k,
    decreases s.len(),
{
    if s.len() > 0 {
        lemma_am_contains(s.drop_last(), k);
        if s.last().0 == k {
            assert((s[s.len() - 1]).0 == k);
        } else {
            if accounts_map(s).contains_key(k) {
                let i = choose|i: int|
                    0 <= i < s.drop_last().len() && (#[trigger] s.drop_last()[i]).0 == k;
                assert((s[i]).0 == k);
            }
            if exists|i: int| 0 <= i < s.len() && (#[trigger] s[i]).0 == k {
                let i = choose|i: int| 0 <= i < s.len() && (#[trigger] s[i]).0 == k;
                assert(i < s.len() - 1);
                assert((s.drop_last()[i]).0 == k);
            }
        }
    }
}

/// With distinct keys, the entry at any index gives the denoted inner map.
pub proof fn lemma_am_value(s: Seq<(u64, BalanceMap)>, i: int)
    requires
        distinct_acct_keys(s),
        0 <= i < s.len(),
    ensures
        accounts_map(s).contains_key(s[i].0),
        accounts_map(s)[s[i].0] == s[i].1@,
    decreases s.len(),
{
    if i < s.len() - 1 {
        lemma_am_distinct_drop_last(s);
        lemma_am_value(s.drop_last(), i);
        assert(s.drop_last()[i] == s[i]);
        assert(s.last().0 != s[i].0);
    }
}

/// Dropping the last entry keeps the keys distinct.
proof fn lemma_am_distinct_drop_last(s: Seq<(u64, BalanceMap)>)
    requires
        s.len() > 0,
        distinct_acct_keys(s),
    ensures
        distinct_acct_keys(s.drop_last()),
{
    assert forall|i: int, j: int|
        0 <= i < j < s.drop_last().len() implies (#[trigger] s.drop_last()[i]).0 != (
    #[trigger] s.drop_last()[j]).0 by {
        assert(s.drop_last()[i] == s[i]);
        assert(s.drop_last()[j] == s[j]);
    }
}

/// Replacing the balance map at an existing key updates the denoted ledger.
pub proof fn lemma_am_update(s: Seq<(u64, BalanceMap)>, i: int, bm: BalanceMap)
    requires
        distinct_acct_keys(s),
        0 <= i < s.len(),
    ensures
        accounts_map(s.update(i, (s[i].0, bm))) == accounts_map(s).insert(s[i].0, bm@),
        distinct_acct_keys(s.update(i, (s[i].0, bm))),
    decreases s.len(),
{
    let k = s[i].0;
    let t = s.update(i, (k, bm));
    assert forall|p: int, q: int|
        0 <= p < q < t.len() implies (#[trigger] t[p]).0 != (#[trigger] t[q]).0 by {
        assert(t[p].0 == s[p].0);
        assert(t[q].0 == s[q].0);
    }
    if i == s.len() - 1 {
        assert(t.drop_last() =~= s.drop_last());
        assert(t.last() == (k, bm));
        assert(accounts_map(t) =~= accounts_map(s).insert(k, bm@));
    } else {
        lemma_am_distinct_drop_last(s);
        assert(t.drop_last() =~= s.drop_last().update(i, (k, bm)));
        assert(s.drop_last()[i] == s[i]);
        lemma_am_update(s.drop_last(), i, bm);
        assert(s.last().0 != k);
        assert(t.last() == s.last());
        assert(accounts_map(t) =~= accounts_map(s).insert(k, bm@));
    }
}

/// Appending an entry with a fresh key inserts it into the denoted ledger.
pub proof fn lemma_am_push(s: Seq<(u64, BalanceMap)>, k: u64, bm: BalanceMap)
    requires
        distinct_acct_keys(s),
        forall|i: int| 0 <= i < s.len() ==> (#[trigger] s[i]).0 != k,
    ensures
        accounts_map(s.push((k, bm))) == accounts_map(s).insert(k, bm@),
        distinct_acct_keys(s.push((k, bm))),
{
    let t = s.push((k, bm));
    assert(t.drop_last() =~= s);
    assert forall|p: int, q: int|
        0 <= p < q < t.len() implies (#[trigger] t[p]).0 != (#[trigger] t[q]).0 by {
        if q < t.len() - 1 {
            assert(t[p] == s[p]);
            assert(t[q] == s[q]);
        } else {
            assert(t[p] == s[p]);
        }
    }
}

/// Entry sequences that agree pointwise on keys and on denoted inner maps
/// denote the same ledger.
pub proof fn lemma_am_congruent(s: Seq<(u64, BalanceMap)>, t: Seq<(u64, BalanceMap)>)
    requires
        s.len() == t.len(),
        forall|i: int|
            0 <= i < s.len() ==> (#[trigger] s[i]).0 == t[i].0 && (#[trigger] s[i]).1@ == t[i].1@,
    ensures
        accounts_map(s) == accounts_map(t),
    decreases s.len(),
{
    if s.len() > 0 {
        assert forall|i: int|
            0 <= i < s.drop_last().len() implies (#[trigger] s.drop_last()[i]).0
            == t.drop_last()[i].0 && (#[trigger] s.drop_last()[i]).1@ == t.drop_last()[i].1@ by {
            assert(s.drop_last()[i] == s[i]);
            assert(t.drop_last()[i] == t[i]);
        }
        lemma_am_congruent(s.drop_last(), t.drop_last());
        assert(s.last().0 == t.last().0 && s.last().1@ == t.last().1@);
    }
}

/// The stored balance pairs of `who` in an entry sequence (later entries
/// win; empty when `who` has no entry).
pub open spec fn pairs_of_seq(s: Seq<(u64, BalanceMap)>, who: u64) -> Seq<(u64, i64)>
    decreases s.len(),
{
    if s.len() == 0 {
        Seq::empty()
    } else if s.last().0 == who {
        s.last().1.pairs()
    } else {
        pairs_of_seq(s.drop_last(), who)
    }
}

/// With distinct keys, the entry at any index gives its stored pairs.
proof fn lemma_pairs_of_found(s: Seq<(u64, BalanceMap)>, i: int)
    requires
        distinct_acct_keys(s),
        0 <= i < s.len(),
    ensures
        pairs_of_seq(s, s[i].0) == s[i].1.pairs(),
    decreases s.len(),
{
    if i < s.len() - 1 {
        lemma_am_distinct_drop_last(s);
        assert(s.drop_last()[i] == s[i]);
        lemma_pairs_of_found(s.drop_last(), i);
        assert(s.last().0 != s[i].0);
    }
}

/// Without an entry for `who`, no pairs are stored for it.
proof fn lemma_pairs_of_absent(s: Seq<(u64, BalanceMap)>, who: u64)
    requires
        forall|i: int| 0 <= i < s.len() ==> (#[trigger] s[i]).0 != who,
    ensures
        pairs_of_seq(s, who) == Seq::<(u64, i64)>::empty(),
    decreases s.len(),
{
    if s.len() > 0 {
        assert(s[s.len() - 1].0 != who);
        assert forall|i: int|
            0 <= i < s.drop_last().len() implies (#[trigger] s.drop_last()[i]).0 != who by {
            assert(s.drop_last()[i] == s[i]);
        }
        lemma_pairs_of_absent(s.drop_last(), who);
    }
}

/// The shared ledger of all accounts: every identity's balances against its
/// counterparties, kept anti-symmetric by the double-entry operations.
pub struct Accounts {
    entries: Vec<(u64, BalanceMap)>,
}

impl View for Accounts {
    type V = LedgerMap;

    closed spec fn view(&self) -> LedgerMap {
        accounts_map(self.entries@)
    }
}

impl Accounts {
    /// The stored entries, each an identity with its stored balance pairs,
    /// in insertion order.
    pub closed spec fn records(&self) -> Seq<(u64, Seq<(u64, i64)>)> {
        self.entries@.map_values(|p: (u64, BalanceMap)| (p.0, p.1.pairs()))
    }

    /// Well-formed: distinct identities, each with a well-formed balance map.
    pub closed spec fn wf(&self) -> bool {
        &&& distinct_acct_keys(self.entries@)
        &&& forall|i: int| 0 <= i < self.entries@.len() ==> (#[trigger] self.entries@[i]).1.wf()
    }

    /// An empty ledger.
    pub fn new() -> (r: Accounts)
        ensures
            r.wf(),
            r@ == Map::<u64, Map<u64, int>>::empty(),
            r.records() == Seq::<(u64, Seq<(u64, i64)>)>::empty(),
    {
        let r = Accounts { entries: Vec::new() };
        proof {
            assert(r.records() =~= Seq::<(u64, Seq<(u64, i64)>)>::empty());
        }
        r
    }

    /// Index of the entry holding `k`, if any.
    fn find(&self, k: u64) -> (r: Option<usize>)
        ensures
            match r {
                Some(i) => i < self.entries@.len() && self.entries@[i as int].0 == k,
                None => forall|i: int|
                    0 <= i < self.entries@.len() ==> (#[trigger] self.entries@[i]).0 != k,
            },
    {
        let mut i: usize = 0;
        let n = self.entries.len();
        while i < n
            invariant
                i <= n,
                n == self.entries@.len(),
                forall|p: int| 0 <= p < i ==> (#[trigger] self.entries@[p]).0 != k,
            decreases n - i,
        {
            if self.entries[i].0 == k {
                return Some(i);
            }
            i = i + 1;
        }
        None
    }

    /// Whether an entry for `k` is stored.
    pub fn has_key(&self, k: u64) -> (r: bool)
        ensures
            r == self@.contains_key(k),
    {
        proof {
            lemma_am_contains(self.entries@, k);
        }
        match self.find(k) {
            Some(_) => true,
            None => false,
        }
    }

    /// The balance of `a` against `b`, zero when either entry is absent.
    pub fn get_bal(&self, a: u64, b: u64) -> (v: i64)
        requires
            self.wf(),
        ensures
            v as int == bal(self@, a, b),
    {
        proof {
            lemma_am_contains(self.entries@, a);
        }
        match self.find(a) {
            Some(i) => {
                proof {
                    lemma_am_value(self.entries@, i as int);
                }
                self.entries[i].1.get_or_zero(b)
            },
            None => 0,
        }
    }

    /// Sets the stored balance of `a` against `b`, creating entries as needed.
    fn set_bal_at(&mut self, a: u64, b: u64, v: i64)
        requires
            old(self).wf(),
        ensures
            final(self).wf(),
            final(self)@ == set_bal(old(self)@, a, b, v as int),
    {
        proof {
            lemma_am_contains(self.entries@, a);
        }
        match self.find(a) {
            Some(i) => {
                proof {
                    lemma_am_value(self.entries@, i as int);
                }
                let mut entry = self.entries.remove(i);
                entry.1.set(b, v);
                self.entries.insert(i, entry);
                proof {
                    assert(self.entries@ =~= old(self).entries@.update(
                        i as int,
                        (old(self).entries@[i as int].0, entry.1),
                    ));
                    lemma_am_update(old(self).entries@, i as int, entry.1);
                    assert forall|p: int|
                        0 <= p < self.entries@.len() implies (#[trigger] self.entries@[p]).1.wf() by {
                        if p != i {
                            assert(self.entries@[p] == old(self).entries@[p]);
                        }
                    }
                }
            },
            None => {
                let mut bm = BalanceMap::new();
                bm.set(b, v);
                proof {
                    lemma_am_push(self.entries@, a, bm);
                }
                self.entries.push((a, bm));
                proof {
                    assert forall|p: int|
                        0 <= p < self.entries@.len() implies (#[trigger] self.entries@[p]).1.wf() by {
                        if p < self.entries@.len() - 1 {
                            assert(self.entries@[p] == old(self).entries@[p]);
                        }
                    }
                    assert(final(self)@ =~= set_bal(old(self)@, a, b, v as int));
                }
            },
        }
    }

    /// Applies one debt: the balance of `debtor` against `creditor` rises by
    /// `amount`, the reverse balance falls by `amount`, atomically with
    /// respect to this exclusive borrow.
    pub fn apply_debt(&mut self, debtor: u64, creditor: u64, amount: i64)
        requires
            old(self).wf(),
            debt_fits(old(self)@, debtor, creditor, amount as int),
        ensures
            final(self).wf(),
            final(self)@ == apply_debt_spec(old(self)@, debtor, creditor, amount as int),
    {
        let b1 = self.get_bal(debtor, creditor);
        let v1 = b1 + amount;
        self.set_bal_at(debtor, creditor, v1);
        let b2 = self.get_bal(creditor, debtor);
        let v2 = b2 - amount;
        self.set_bal_at(creditor, debtor, v2);
    }

    /// Whether one debt can be applied without leaving `i64`.
    pub fn debt_fits_check(&self, debtor: u64, creditor: u64, amount: i64) -> (r: bool)
        requires
            self.wf(),
        ensures
            r == debt_fits(self@, debtor, creditor, amount as int),
    {
        let b1 = self.get_bal(debtor, creditor);
        let s1: i128 = b1 as i128 + amount as i128;
        let ok1 = i64::MIN as i128 <= s1 && s1 <= i64::MAX as i128;
        let base2: i128 = if debtor == creditor {
            s1
        } else {
            self.get_bal(creditor, debtor) as i128
        };
        let s2: i128 = base2 - amount as i128;
        let ok2 = i64::MIN as i128 <= s2 && s2 <= i64::MAX as i128;
        proof {
            lemma_bal_set(
                self@,
                debtor,
                creditor,
                bal(self@, debtor, creditor) + amount as int,
                creditor,
                debtor,
            );
        }
        ok1 && ok2
    }

    /// Applies one split: every recipient in turn is charged the full
    /// `amount`, owed to `initiator`.  An empty recipient list changes
    /// nothing.
    pub fn apply_split(&mut self, initiator: u64, amount: i64, recipients: &Vec<u64>)
        requires
            old(self).wf(),
            split_fits(old(self)@, initiator, amount as int, recipients@),
        ensures
            final(self).wf(),
            final(self)@ == apply_split_spec(old(self)@, initiator, amount as int, recipients@),
    {
        let ghost m0 = old(self)@;
        let ghost rs = recipients@;
        let n = recipients.len();
        let mut k: usize = 0;
        proof {
            assert(rs.take(0) =~= Seq::<u64>::empty());
            assert(rs.skip(0) =~= rs);
        }
        while k < n
            invariant
                k <= n,
                n == rs.len(),
                rs == recipients@,
                self.wf(),
                self@ == apply_split_spec(m0, initiator, amount as int, rs.take(k as int)),
                split_fits(self@, initiator, amount as int, rs.skip(k as int)),
            decreases n - k,
        {
            proof {
                assert(rs.skip(k as int)[0] == rs[k as int]);
            }
            let ghost pre = self@;
            self.apply_debt(initiator, recipients[k], amount);
            proof {
                assert(rs.skip(k as int).drop_first() =~= rs.skip(k as int + 1));
                assert(rs.take(k as int).push(rs[k as int]) =~= rs.take(k as int + 1));
                lemma_split_push(m0, initiator, amount as int, rs.take(k as int), rs[k as int]);
            }
            k = k + 1;
        }
        proof {
            assert(rs.take(n as int) =~= rs);
        }
    }

    /// Whether a whole split can be applied without leaving `i64`.
    pub fn split_fits_check(&self, initiator: u64, amount: i64, recipients: &Vec<u64>) -> (r: bool)
        requires
            self.wf(),
        ensures
            r == split_fits(self@, initiator, amount as int, recipients@),
    {
        let ghost rs = recipients@;
        let mut sim = self.snapshot();
        let n = recipients.len();
        let mut k: usize = 0;
        proof {
            assert(rs.skip(0) =~= rs);
        }
        while k < n
            invariant
                k <= n,
                n == rs.len(),
                rs == recipients@,
                sim.wf(),
                split_fits(self@, initiator, amount as int, rs) <==> split_fits(
                    sim@,
                    initiator,
                    amount as int,
                    rs.skip(k as int),
                ),
            decreases n - k,
        {
            proof {
                assert(rs.skip(k as int)[0] == rs[k as int]);
            }
            if !sim.debt_fits_check(initiator, recipients[k], amount) {
                return false;
            }
            sim.apply_debt(initiator, recipients[k], amount);
            proof {
                assert(rs.skip(k as int).drop_first() =~= rs.skip(k as int + 1));
            }
            k = k + 1;
        }
        proof {
            assert(rs.skip(n as int) =~= Seq::<u64>::empty());
        }
        true
    }

    /// The stored balance pairs of `who`, in insertion order.
    pub closed spec fn balances_of(&self, who: u64) -> Seq<(u64, i64)> {
        pairs_of_seq(self.entries@, who)
    }

    /// A point-in-time copy of all stored counterparty balances of `who`
    /// (empty when `who` has no entry).
    pub fn get_balances(&self, who: u64) -> (r: BalanceMap)
        requires
            self.wf(),
        ensures
            r.wf(),
            r@ == if self@.contains_key(who) {
                self@[who]
            } else {
                Map::<u64, int>::empty()
            },
            r.pairs() == self.balances_of(who),
    {
        proof {
            lemma_am_contains(self.entries@, who);
        }
        match self.find(who) {
            Some(i) => {
                proof {
                    lemma_am_value(self.entries@, i as int);
                    lemma_pairs_of_found(self.entries@, i as int);
                }
                self.entries[i].1.duplicate()
            },
            None => {
                proof {
                    lemma_pairs_of_absent(self.entries@, who);
                }
                BalanceMap::new()
            },
        }
    }

    /// A full deep copy of the ledger state.
    pub fn snapshot(&self) -> (r: Accounts)
        requires
            self.wf(),
        ensures
            r.wf(),
            r@ == self@,
            r.records() == self.records(),
    {
        let mut entries: Vec<(u64, BalanceMap)> = Vec::new();
        let n = self.entries.len();
        let mut i: usize = 0;
        while i < n
            invariant
                self.wf(),
                i <= n,
                n == self.entries@.len(),
                entries@.len() == i,
                forall|j: int|
                    0 <= j < i ==> (#[trigger] entries@[j]).0 == self.entries@[j].0
                        && entries@[j].1@ == self.entries@[j].1@ && entries@[j].1.pairs()
                        == self.entries@[j].1.pairs() && entries@[j].1.wf(),
            decreases n - i,
        {
            let key = self.entries[i].0;
            let bm = self.entries[i].1.duplicate();
            entries.push((key, bm));
            i = i + 1;
        }
        let r = Accounts { entries };
        proof {
            assert forall|p: int, q: int|
                0 <= p < q < r.entries@.len() implies (#[trigger] r.entries@[p]).0 != (
            #[trigger] r.entries@[q]).0 by {
                assert(self.entries@[p].0 != self.entries@[q].0);
            }
            lemma_am_congruent(r.entries@, self.entries@);
            assert(r.records() =~= self.records());
        }
        r
    }

    /// Replaces the whole ledger state with the given snapshot.
    pub fn restore(&mut self, snapshot: Accounts)
        ensures
            *final(self) == snapshot,
    {
        *self = snapshot;
    }

    /// Appends an account entry whose identity is not yet stored.
    pub(crate) fn push_record(&mut self, k: u64, bm: BalanceMap)
        requires
            old(self).wf(),
            !old(self)@.contains_key(k),
            bm.wf(),
        ensures
            final(self).wf(),
            final(self)@ == old(self)@.insert(k, bm@),
            final(self).records() == old(self).records().push((k, bm.pairs())),
    {
        proof {
            lemma_am_contains(self.entries@, k);
            lemma_am_push(self.entries@, k, bm);
        }
        self.entries.push((k, bm));
        proof {
            assert forall|p: int|
                0 <= p < self.entries@.len() implies (#[trigger] self.entries@[p]).1.wf() by {
                if p < self.entries@.len() - 1 {
                    assert(self.entries@[p] == old(self).entries@[p]);
                }
            }
            assert(final(self).records() =~= old(self).records().push((k, bm.pairs())));
        }
    }

    /// The number of stored account entries.
    pub fn len(&self) -> (n: usize)
        ensures
            n == self.records().len(),
    {
        self.entries.len()
    }

    /// The identity and balance pairs of the entry at one index.
    pub fn record_at(&self, i: usize) -> (r: (u64, BalanceMap))
        requires
            i < self.records().len(),
            self.wf(),
        ensures
            r.0 == self.records()[i as int].0,
            r.1.pairs() == self.records()[i as int].1,
            r.1.wf(),
    {
        let key = self.entries[i].0;
        let bm = self.entries[i].1.duplicate();
        (key, bm)
    }
}

/// A record list is distinct: no identity occurs twice at the outer level,
/// and no counterparty occurs twice within one record.
pub open spec fn records_distinct(rs: Seq<(u64, Seq<(u64, i64)>)>) -> bool {
    &&& forall|i: int, j: int| #![trigger rs[i].0, rs[j].0] 0 <= i < j < rs.len() ==> rs[i].0 != rs[j].0
    &&& forall|i: int| 0 <= i < rs.len() ==> distinct_keys((#[trigger] rs[i]).1)
}

impl Accounts {
    /// A well-formed ledger stores a distinct record list.
    pub proof fn lemma_records_wf(&self)
        requires
            self.wf(),
        ensures
            records_distinct(self.records()),
    {
        let rs = self.records();
        assert forall|i: int, j: int|
            0 <= i < j < rs.len() implies (#[trigger] rs[i].0) != (#[trigger] rs[j].0) by {
            assert(rs[i] == (self.entries@[i].0, self.entries@[i].1.pairs()));
            assert(rs[j] == (self.entries@[j].0, self.entries@[j].1.pairs()));
        }
        assert forall|i: int| 0 <= i < rs.len() implies distinct_keys((#[trigger] rs[i]).1) by {
            assert(rs[i] == (self.entries@[i].0, self.entries@[i].1.pairs()));
            assert(self.entries@[i].1.wf());
        }
    }
}

/// Two ledgers with the same records denote the same mapping.
pub proof fn lemma_view_from_records(a: &Accounts, b: &Accounts)
    requires
        a.records() == b.records(),
    ensures
        a@ == b@,
{
    assert(a.entries@.len() == a.records().len());
    assert(b.entries@.len() == b.records().len());
    assert forall|i: int|
        0 <= i < a.entries@.len() implies (#[trigger] a.entries@[i]).0 == b.entries@[i].0 && (
    #[trigger] a.entries@[i]).1@ == b.entries@[i].1@ by {
        assert(a.records()[i] == (a.entries@[i].0, a.entries@[i].1.pairs()));
        assert(b.records()[i] == (b.entries@[i].0, b.entries@[i].1.pairs()));
        assert(a.entries@[i].1@ == pairs_to_map(a.entries@[i].1.pairs()));
        assert(b.entries@[i].1@ == pairs_to_map(b.entries@[i].1.pairs()));
    }
    lemma_am_congruent(a.entries@, b.entries@);
}

/// A split of a sequence extended by one recipient is the split of the
/// prefix followed by one more debt.
pub proof fn lemma_split_push(m: LedgerMap, initiator: u64, amount: int, rs: Seq<u64>, r: u64)
    ensures
        apply_split_spec(m, initiator, amount, rs.push(r)) == apply_debt_spec(
            apply_split_spec(m, initiator, amount, rs),
            initiator,
            r,
            amount,
        ),
    decreases rs.len(),
{
    let t = rs.push(r);
    if rs.len() == 0 {
        assert(t.drop_first() =~= Seq::<u64>::empty());
        assert(t[0] == r);
        assert(apply_split_spec(m, initiator, amount, t) == apply_split_spec(
            apply_debt_spec(m, initiator, r, amount),
            initiator,
            amount,
            t.drop_first(),
        ));
        assert(apply_split_spec(apply_debt_spec(m, initiator, r, amount), initiator, amount,
            Seq::<u64>::empty()) == apply_debt_spec(m, initiator, r, amount));
        assert(apply_split_spec(m, initiator, amount, rs) == m);
    } else {
        assert(t[0] == rs[0]);
        assert(t.drop_first() =~= rs.drop_first().push(r));
        lemma_split_push(
            apply_debt_spec(m, initiator, rs[0], amount),
            initiator,
            amount,
            rs.drop_first(),
            r,
        );
    }
}

} // verus!
