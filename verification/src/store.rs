//! The ledger state machine: balances per label, transfer application,
//! snapshot folding and unfolding. The store is a vector of entries
//! kept strictly sorted in the canonical label order, with zero
//! balances never materialized; its mathematical model is the sequence
//! of (label, amount) pairs, looked up by [`ebal`].

use vstd::prelude::*;

use crate::codec::entries_bytes;
use crate::codec::hex_encode;
use crate::codec::push_str_enc;
use crate::codec::push_u128_be;
use crate::digest::current_timestamp_ms;
use crate::digest::sha256_digest;
use crate::digest::spec_root;
use crate::types::key_lt;
use crate::types::label_eq;
use crate::types::label_lt;
use crate::types::lemma_key_lt_trans;
use crate::types::lemma_key_lt_trichotomy;
use crate::types::Balance;
use crate::types::KeyOrder;
use crate::types::LabelId;
use crate::types::LabelKey;
use crate::types::SnapView;
use crate::types::SpecError;
use crate::types::TransferTx;
use crate::types::UniverseSnapshot;
use crate::types::label_cmp;

verus! {

/// One materialized balance: always positive.
pub(crate) struct Entry {
    pub(crate) label: LabelId,
    pub(crate) amount: u128,
}

/// The entries are strictly ascending in the canonical label order,
/// so every label occurs at most once.
pub open spec fn entries_sorted(s: Seq<(LabelKey, u128)>) -> bool {
    forall|i: int, j: int|
        0 <= i < j < s.len() ==> key_lt(#[trigger] s[i].0, #[trigger] s[j].0)
}

/// Every materialized amount is positive: zero balances are implicit.
pub open spec fn entries_positive(s: Seq<(LabelKey, u128)>) -> bool {
    forall|i: int| 0 <= i < s.len() ==> (#[trigger] s[i]).1 > 0
}

/// A well-formed entry sequence: sorted and free of zero entries.
pub open spec fn entries_wf(s: Seq<(LabelKey, u128)>) -> bool {
    entries_sorted(s) && entries_positive(s)
}

/// The balance of a label in an entry sequence: the first entry with
/// that label, zero when absent.
pub open spec fn ebal(s: Seq<(LabelKey, u128)>, k: LabelKey) -> u128
    decreases s.len(),
{
    if s.len() == 0 {
        0
    } else if s[0].0 == k {
        s[0].1
    } else {
        ebal(s.drop_first(), k)
    }
}

/// The total supply: the sum of all materialized amounts.
pub open spec fn total(s: Seq<(LabelKey, u128)>) -> int
    decreases s.len(),
{
    if s.len() == 0 {
        0
    } else {
        s[0].1 + total(s.drop_first())
    }
}

/// The balance of a label in an arbitrary listing of balances, where a
/// later entry overrides an earlier one and absence means zero.
pub open spec fn list_bal(s: Seq<(LabelKey, u128)>, k: LabelKey) -> u128
    decreases s.len(),
{
    if s.len() == 0 {
        0
    } else if s.last().0 == k {
        s.last().1
    } else {
        list_bal(s.drop_last(), k)
    }
}

/// The mathematical value of a supporting-data listing.
pub open spec fn support_view(s: Seq<(LabelId, Balance)>) -> Seq<(LabelKey, u128)> {
    s.map(|i: int, p: (LabelId, Balance)| (p.0@, p.1.amount))
}

/// Whether `es` is the canonical (well-formed) entry sequence holding
/// exactly the balances listed by `s`.
pub open spec fn is_canon_of(s: Seq<(LabelKey, u128)>, es: Seq<(LabelKey, u128)>) -> bool {
    entries_wf(es) && forall|k: LabelKey| ebal(es, k) == list_bal(s, k)
}

/// The canonical entry sequence holding the balances listed by `s`.
/// It is unique by [`lemma_canon_unique`].
pub open spec fn canon(s: Seq<(LabelKey, u128)>) -> Seq<(LabelKey, u128)> {
    choose|es: Seq<(LabelKey, u128)>| is_canon_of(s, es)
}

spec fn view_of(s: Seq<Entry>) -> Seq<(LabelKey, u128)> {
    s.map(|i: int, e: Entry| (e.label@, e.amount))
}

/// The universe state: balances per label, plus the last known snapshot.
pub struct UniverseState {
    pub(crate) entries: Vec<Entry>,
    pub(crate) last_snapshot: Option<UniverseSnapshot>,
}

impl UniverseState {
    /// The model of the stored balances: the entry sequence.
    pub closed spec fn entries_view(self) -> Seq<(LabelKey, u128)> {
        view_of(self.entries@)
    }

    /// The model of the last known snapshot.
    pub closed spec fn snapshot_view(self) -> Option<SnapView> {
        match self.last_snapshot {
            Some(s) => Some(s@),
            None => None,
        }
    }

    /// Well-formedness: the stored entries are canonical.
    pub open spec fn wf(self) -> bool {
        entries_wf(self.entries_view())
    }

    /// The balance of a label, zero when absent.
    pub open spec fn bal(self, k: LabelKey) -> u128 {
        ebal(self.entries_view(), k)
    }

    /// The sum of all balances.
    pub open spec fn total_supply(self) -> int {
        total(self.entries_view())
    }

    /// The height the next fold will record.
    pub open spec fn next_height(self) -> int {
        match self.snapshot_view() {
            None => 0,
            Some(s) => s.height + 1,
        }
    }
}

/// In a sorted entry sequence, distinct positions hold distinct labels.
proof fn lemma_sorted_distinct(s: Seq<(LabelKey, u128)>, i: int, j: int)
    requires
        entries_sorted(s),
        0 <= i < s.len(),
        0 <= j < s.len(),
        i != j,
    ensures
        s[i].0 != s[j].0,
{
    if i < j {
        lemma_key_lt_trichotomy(s[i].0, s[j].0);
    } else {
        lemma_key_lt_trichotomy(s[j].0, s[i].0);
    }
}

/// The balance is the amount at the first position holding the label.
proof fn lemma_ebal_found(s: Seq<(LabelKey, u128)>, k: LabelKey, i: int)
    requires
        0 <= i < s.len(),
        s[i].0 == k,
        forall|j: int| 0 <= j < i ==> s[j].0 != k,
    ensures
        ebal(s, k) == s[i].1,
    decreases i,
{
    if i > 0 {
        assert(s[0].0 != k);
        assert forall|j: int| 0 <= j < i - 1 implies s.drop_first()[j].0 != k by {
            assert(s.drop_first()[j] == s[j + 1]);
        }
        assert(s.drop_first()[i - 1] == s[i]);
        lemma_ebal_found(s.drop_first(), k, i - 1);
    }
}

/// A label occurring nowhere has balance zero.
proof fn lemma_ebal_absent(s: Seq<(LabelKey, u128)>, k: LabelKey)
    requires
        forall|j: int| 0 <= j < s.len() ==> s[j].0 != k,
    ensures
        ebal(s, k) == 0,
    decreases s.len(),
{
    if s.len() > 0 {
        assert forall|j: int| 0 <= j < s.len() - 1 implies s.drop_first()[j].0 != k by {
            assert(s.drop_first()[j] == s[j + 1]);
        }
        lemma_ebal_absent(s.drop_first(), k);
    }
}

/// Inserting an entry for one label leaves every other balance as it was.
proof fn lemma_ebal_insert_other(
    s: Seq<(LabelKey, u128)>,
    i: int,
    k: LabelKey,
    v: u128,
    k2: LabelKey,
)
    requires
        0 <= i <= s.len(),
        k2 != k,
    ensures
        ebal(s.insert(i, (k, v)), k2) == ebal(s, k2),
    decreases i,
{
    let t = s.insert(i, (k, v));
    s.insert_ensures(i, (k, v));
    if i == 0 {
        assert(t.drop_first() =~= s);
    } else {
        assert(t[0] == s[0]);
        if s[0].0 != k2 {
            assert(t.drop_first() =~= s.drop_first().insert(i - 1, (k, v)));
            lemma_ebal_insert_other(s.drop_first(), i - 1, k, v, k2);
        }
    }
}

/// Removing an entry whose label is not `k2` leaves `k2`'s balance as it was.
proof fn lemma_ebal_remove_other(s: Seq<(LabelKey, u128)>, i: int, k2: LabelKey)
    requires
        0 <= i < s.len(),
        s[i].0 != k2,
    ensures
        ebal(s.remove(i), k2) == ebal(s, k2),
    decreases i,
{
    let t = s.remove(i);
    s.remove_ensures(i);
    if i == 0 {
        assert(t =~= s.drop_first());
    } else {
        assert(t[0] == s[0]);
        if s[0].0 != k2 {
            assert(t.drop_first() =~= s.drop_first().remove(i - 1));
            lemma_ebal_remove_other(s.drop_first(), i - 1, k2);
        }
    }
}

/// The total grows by exactly the inserted amount.
proof fn lemma_total_insert(s: Seq<(LabelKey, u128)>, i: int, e: (LabelKey, u128))
    requires
        0 <= i <= s.len(),
    ensures
        total(s.insert(i, e)) == total(s) + e.1,
    decreases i,
{
    let t = s.insert(i, e);
    s.insert_ensures(i, e);
    if i == 0 {
        assert(t.drop_first() =~= s);
    } else {
        assert(t[0] == s[0]);
        assert(t.drop_first() =~= s.drop_first().insert(i - 1, e));
        lemma_total_insert(s.drop_first(), i - 1, e);
    }
}

/// The total shrinks by exactly the removed amount.
proof fn lemma_total_remove(s: Seq<(LabelKey, u128)>, i: int)
    requires
        0 <= i < s.len(),
    ensures
        total(s.remove(i)) == total(s) - s[i].1,
    decreases i,
{
    let t = s.remove(i);
    s.remove_ensures(i);
    if i == 0 {
        assert(t =~= s.drop_first());
    } else {
        assert(t[0] == s[0]);
        assert(t.drop_first() =~= s.drop_first().remove(i - 1));
        lemma_total_remove(s.drop_first(), i - 1);
    }
}

/// Inserting at the position found for `k` keeps the sequence well formed.
proof fn lemma_wf_insert(s: Seq<(LabelKey, u128)>, i: int, k: LabelKey, v: u128)
    requires
        entries_wf(s),
        0 <= i <= s.len(),
        v > 0,
        forall|j: int| 0 <= j < i ==> key_lt(s[j].0, k),
        i < s.len() ==> key_lt(k, s[i].0),
    ensures
        entries_wf(s.insert(i, (k, v))),
{
    let t = s.insert(i, (k, v));
    s.insert_ensures(i, (k, v));
    assert forall|p: int, q: int| 0 <= p < q < t.len() implies key_lt(t[p].0, t[q].0) by {
        if q < i {
        } else if p > i {
            assert(t[p] == s[p - 1]);
            assert(t[q] == s[q - 1]);
        } else if p < i && q == i {
            assert(t[p] == s[p]);
        } else if p == i {
            assert(t[q] == s[q - 1]);
            if q - 1 > i {
                lemma_key_lt_trans(k, s[i].0, s[q - 1].0);
            }
        } else {
            // p < i < q
            assert(t[p] == s[p]);
            assert(t[q] == s[q - 1]);
            if q - 1 == i {
                lemma_key_lt_trans(s[p].0, k, s[i].0);
            } else {
                lemma_key_lt_trans(k, s[i].0, s[q - 1].0);
                lemma_key_lt_trans(s[p].0, k, s[q - 1].0);
            }
        }
    }
    assert forall|p: int| 0 <= p < t.len() implies (#[trigger] t[p]).1 > 0 by {
        if p < i {
            assert(t[p] == s[p]);
        } else if p > i {
            assert(t[p] == s[p - 1]);
        }
    }
}

/// Removing an entry keeps the sequence well formed.
proof fn lemma_wf_remove(s: Seq<(LabelKey, u128)>, i: int)
    requires
        entries_wf(s),
        0 <= i < s.len(),
    ensures
        entries_wf(s.remove(i)),
{
    let t = s.remove(i);
    s.remove_ensures(i);
    assert forall|p: int, q: int| 0 <= p < q < t.len() implies key_lt(t[p].0, t[q].0) by {
        if q < i {
        } else if p >= i {
            assert(t[p] == s[p + 1]);
            assert(t[q] == s[q + 1]);
        } else {
            assert(t[p] == s[p]);
            assert(t[q] == s[q + 1]);
        }
    }
    assert forall|p: int| 0 <= p < t.len() implies (#[trigger] t[p]).1 > 0 by {
        if p < i {
            assert(t[p] == s[p]);
        } else {
            assert(t[p] == s[p + 1]);
        }
    }
}

impl UniverseState {
    /// Create a new empty universe state: no balances, no snapshot yet.
    pub fn new() -> (r: UniverseState)
        ensures
            r.wf(),
            r.entries_view() == Seq::<(LabelKey, u128)>::empty(),
            r.snapshot_view() is None,
            forall|k: LabelKey| r.bal(k) == 0,
            r.total_supply() == 0,
    {
        let r = UniverseState { entries: Vec::new(), last_snapshot: None };
        proof {
            assert(r.entries_view() =~= Seq::<(LabelKey, u128)>::empty());
        }
        r
    }

    /// Get the current balance for a label; zero if absent.
    pub fn balance_of(&self, label: &LabelId) -> (r: Balance)
        requires
            self.wf(),
        ensures
            r.amount == self.bal(label@),
    {
        let ghost s = self.entries_view();
        let n = self.entries.len();
        let mut i: usize = 0;
        while i < n
            invariant
                s == self.entries_view(),
                n == self.entries@.len(),
                s.len() == n,
                i <= n,
                forall|j: int| 0 <= j < i ==> s[j].0 != label@,
            decreases n - i,
        {
            let e = &self.entries[i];
            proof {
                assert(s[i as int] == (e.label@, e.amount));
            }
            match label_cmp(&e.label, label) {
                KeyOrder::Equal => {
                    proof {
                        lemma_ebal_found(s, label@, i as int);
                    }
                    return Balance { amount: e.amount };
                },
                _ => {},
            }
            i += 1;
        }
        proof {
            lemma_ebal_absent(s, label@);
        }
        Balance { amount: 0 }
    }

    /// Set the balance for a label. A zero balance removes the entry:
    /// absent labels implicitly hold zero and are never materialized.
    pub fn set_balance(&mut self, label: LabelId, balance: Balance)
        requires
            old(self).wf(),
        ensures
            final(self).wf(),
            final(self).bal(label@) == balance.amount,
            forall|k: LabelKey| k != label@ ==> final(self).bal(k) == old(self).bal(k),
            final(self).total_supply() == old(self).total_supply() - old(self).bal(label@)
                + balance.amount,
            final(self).snapshot_view() == old(self).snapshot_view(),
    {
        let ghost s0 = self.entries_view();
        let ghost k = label@;
        let mut i: usize = 0;
        while i < self.entries.len() && label_lt(&self.entries[i].label, &label)
            invariant
                self == old(self),
                s0 == self.entries_view(),
                k == label@,
                i <= self.entries@.len(),
                entries_wf(s0),
                forall|j: int| 0 <= j < i ==> key_lt(s0[j].0, k),
            decreases self.entries@.len() - i,
        {
            proof {
                assert(s0[i as int] == (self.entries@[i as int].label@, self.entries@[i as int].amount));
            }
            i += 1;
        }
        proof {
            if i < self.entries@.len() {
                assert(s0[i as int] == (self.entries@[i as int].label@, self.entries@[i as int].amount));
            }
        }
        let found = i < self.entries.len() && label_eq(&self.entries[i].label, &label);
        proof {
            // The first position not below k: everything at or past it is
            // distinct from k unless it is the found entry itself.
            assert forall|j: int| 0 <= j < s0.len() && s0[j].0 == k implies j == i by {
                if j < i {
                    lemma_key_lt_trichotomy(s0[j].0, k);
                } else if j > i {
                    lemma_key_lt_trichotomy(s0[i as int].0, k);
                    if key_lt(k, s0[i as int].0) {
                        lemma_sorted_distinct(s0, i as int, j);
                        lemma_key_lt_trans(k, s0[i as int].0, s0[j].0);
                        lemma_key_lt_trichotomy(k, s0[j].0);
                    }
                }
            }
            if !found {
                assert forall|j: int| 0 <= j < s0.len() implies s0[j].0 != k by {}
                lemma_ebal_absent(s0, k);
            } else {
                lemma_ebal_found(s0, k, i as int);
            }
        }
        if found {
            let _removed = self.entries.remove(i);
            proof {
                assert(self.entries_view() =~= s0.remove(i as int));
                lemma_wf_remove(s0, i as int);
                lemma_total_remove(s0, i as int);
                assert forall|k2: LabelKey| k2 != k implies ebal(self.entries_view(), k2) == ebal(
                    s0,
                    k2,
                ) by {
                    lemma_ebal_remove_other(s0, i as int, k2);
                }
                let t = s0.remove(i as int);
                s0.remove_ensures(i as int);
                assert forall|j: int| 0 <= j < t.len() implies t[j].0 != k by {
                    if j < i {
                        assert(t[j] == s0[j]);
                    } else {
                        assert(t[j] == s0[j + 1]);
                    }
                }
                lemma_ebal_absent(t, k);
                // Position facts still hold for the shortened sequence.
                assert forall|j: int| 0 <= j < i implies key_lt(t[j].0, k) by {
                    assert(t[j] == s0[j]);
                }
                if (i as int) < t.len() {
                    assert(t[i as int] == s0[i as int + 1]);
                    assert(key_lt(s0[i as int].0, s0[i as int + 1].0));
                    assert(s0[i as int].0 == k);
                }
            }
        } else {
            proof {
                if i < self.entries@.len() {
                    lemma_key_lt_trichotomy(s0[i as int].0, k);
                }
            }
        }
        let ghost s1 = self.entries_view();
        let ghost old_bal = ebal(s0, k);
        proof {
            assert(entries_wf(s1));
            assert(ebal(s1, k) == 0);
            assert(total(s1) == total(s0) - old_bal);
            assert(forall|k2: LabelKey| k2 != k ==> ebal(s1, k2) == ebal(s0, k2));
            assert(forall|j: int| 0 <= j < i ==> key_lt(s1[j].0, k));
            assert((i as int) < s1.len() ==> key_lt(k, s1[i as int].0));
        }
        if balance.amount > 0 {
            self.entries.insert(i, Entry { label, amount: balance.amount });
            proof {
                assert(self.entries_view() =~= s1.insert(i as int, (k, balance.amount)));
                lemma_wf_insert(s1, i as int, k, balance.amount);
                s1.insert_ensures(i as int, (k, balance.amount));
                assert forall|j: int| 0 <= j < i implies s1.insert(i as int, (k, balance.amount))[j].0
                    != k by {
                    lemma_key_lt_trichotomy(s1[j].0, k);
                }
                lemma_ebal_found(s1.insert(i as int, (k, balance.amount)), k, i as int);
                assert forall|k2: LabelKey| k2 != k implies ebal(self.entries_view(), k2) == ebal(
                    s1,
                    k2,
                ) by {
                    lemma_ebal_insert_other(s1, i as int, k, balance.amount, k2);
                }
                lemma_total_insert(s1, i as int, (k, balance.amount));
            }
        }
    }

    /// Apply a transfer: `amount` moves from `tx.from` to `tx.to`.
    ///
    /// Validation order: a zero amount is rejected first, then an
    /// insufficient source balance; a transfer that would overflow the
    /// destination is also rejected. On any error the store is left
    /// exactly as it was. On success the source decreases and the
    /// destination increases by the amount — a transfer from a label
    /// to itself leaves its balance unchanged — and the total supply
    /// is conserved.
    pub fn apply_transfer(&mut self, tx: &TransferTx) -> (r: Result<(), SpecError>)
        requires
            old(self).wf(),
        ensures
            final(self).wf(),
            final(self).snapshot_view() == old(self).snapshot_view(),
            final(self).total_supply() == old(self).total_supply(),
            r is Err ==> final(self).entries_view() == old(self).entries_view(),
            (r matches Err(SpecError::InvalidAmount)) <==> tx.amount == 0,
            (r matches Err(SpecError::InsufficientBalance)) <==> (tx.amount != 0 && old(
                self,
            ).bal(tx.from@) < tx.amount),
            (r matches Err(SpecError::Generic(_))) <==> (tx.amount != 0 && old(self).bal(tx.from@)
                >= tx.amount && tx.from@ != tx.to@ && old(self).bal(tx.to@) + tx.amount
                > u128::MAX),
            r is Ok <==> (tx.amount != 0 && old(self).bal(tx.from@) >= tx.amount && (tx.from@
                == tx.to@ || old(self).bal(tx.to@) + tx.amount <= u128::MAX)),
            r is Ok && tx.from@ != tx.to@ ==> final(self).bal(tx.from@) == old(self).bal(tx.from@)
                - tx.amount && final(self).bal(tx.to@) == old(self).bal(tx.to@) + tx.amount,
            r is Ok && tx.from@ == tx.to@ ==> final(self).entries_view() == old(
                self,
            ).entries_view(),
            forall|k: LabelKey|
                k != tx.from@ && k != tx.to@ ==> final(self).bal(k) == old(self).bal(k),
    {
        if tx.amount == 0 {
            return Err(SpecError::InvalidAmount);
        }
        let from_balance = self.balance_of(&tx.from);
        if from_balance.amount < tx.amount {
            return Err(SpecError::InsufficientBalance);
        }
        if label_eq(&tx.from, &tx.to) {
            return Ok(());
        }
        let to_balance = self.balance_of(&tx.to);
        if to_balance.amount > u128::MAX - tx.amount {
            return Err(SpecError::Generic("balance overflow".to_owned()));
        }
        let from_label = LabelId {
            phone: tx.from.phone.clone(),
            label: tx.from.label.clone(),
        };
        let to_label = LabelId { phone: tx.to.phone.clone(), label: tx.to.label.clone() };
        proof {
            assert(from_label@ =~= tx.from@);
            assert(to_label@ =~= tx.to@);
        }
        self.set_balance(from_label, Balance { amount: from_balance.amount - tx.amount });
        self.set_balance(to_label, Balance { amount: to_balance.amount + tx.amount });
        Ok(())
    }

    /// The full balance listing, in canonical order: the supporting
    /// data a later unfold needs.
    pub fn balances(&self) -> (r: Vec<(LabelId, Balance)>)
        ensures
            support_view(r@) == self.entries_view(),
    {
        let ghost s = self.entries_view();
        let mut out: Vec<(LabelId, Balance)> = Vec::new();
        let n = self.entries.len();
        let mut i: usize = 0;
        while i < n
            invariant
                s == self.entries_view(),
                n == self.entries@.len(),
                s.len() == n,
                i <= n,
                out@.len() == i,
                forall|j: int| 0 <= j < i ==> support_view(out@)[j] == s[j],
            decreases n - i,
        {
            let e = &self.entries[i];
            proof {
                assert(s[i as int] == (e.label@, e.amount));
            }
            let label = LabelId { phone: e.label.phone.clone(), label: e.label.label.clone() };
            proof {
                assert(label@ =~= e.label@);
            }
            let ghost prev = out@;
            out.push((label, Balance { amount: e.amount }));
            proof {
                assert forall|j: int| 0 <= j < i + 1 implies support_view(out@)[j] == s[j] by {
                    if j < i {
                        assert(support_view(prev)[j] == s[j]);
                    }
                }
            }
            i += 1;
        }
        proof {
            assert(support_view(out@) =~= s);
        }
        out
    }

    /// The last known snapshot, if any fold has happened yet.
    pub fn latest_snapshot(&self) -> (r: Option<UniverseSnapshot>)
        ensures
            match r {
                None => self.snapshot_view() is None,
                Some(s) => self.snapshot_view() == Some(s@),
            },
    {
        match &self.last_snapshot {
            None => None,
            Some(s) => {
                let copy = UniverseSnapshot {
                    height: s.height,
                    master_root: s.master_root.clone(),
                    timestamp_ms: s.timestamp_ms,
                };
                proof {
                    assert(copy@ =~= s@);
                }
                Some(copy)
            },
        }
    }

    /// The canonical serialization of the stored balances.
    pub(crate) fn canonical_bytes(&self) -> (out: Vec<u8>)
        ensures
            out@ == entries_bytes(self.entries_view()),
    {
        let ghost s = self.entries_view();
        let mut out: Vec<u8> = Vec::new();
        let n = self.entries.len();
        let mut i: usize = 0;
        proof {
            assert(s.take(0) =~= Seq::<(LabelKey, u128)>::empty());
            assert(out@ =~= entries_bytes(s.take(0)));
        }
        while i < n
            invariant
                s == self.entries_view(),
                n == self.entries@.len(),
                s.len() == n,
                i <= n,
                out@ == entries_bytes(s.take(i as int)),
            decreases n - i,
        {
            let e = &self.entries[i];
            proof {
                assert(s[i as int] == (e.label@, e.amount));
            }
            push_str_enc(&mut out, e.label.phone.as_str());
            push_str_enc(&mut out, e.label.label.as_str());
            push_u128_be(&mut out, e.amount);
            proof {
                assert(s.take(i + 1).drop_last() =~= s.take(i as int));
                assert(s.take(i + 1).last() == s[i as int]);
                assert(out@ =~= entries_bytes(s.take(i + 1)));
            }
            i += 1;
        }
        proof {
            assert(s.take(n as int) =~= s);
        }
        out
    }

    /// Fold the current state into a snapshot: the next height, the
    /// digest of the canonically ordered balances, and the capture
    /// time. The snapshot is stored as last known and returned; the
    /// balances are untouched.
    pub fn fold_snapshot(&mut self) -> (r: UniverseSnapshot)
        requires
            old(self).wf(),
            old(self).snapshot_view() matches Some(s) ==> s.height < u64::MAX,
        ensures
            final(self).wf(),
            final(self).entries_view() == old(self).entries_view(),
            r@.height as int == old(self).next_height(),
            r@.master_root == spec_root(old(self).entries_view()),
            final(self).snapshot_view() == Some(r@),
    {
        let new_height: u64 = match &self.last_snapshot {
            Some(s) => s.height + 1,
            None => 0,
        };
        let bytes = self.canonical_bytes();
        let digest = sha256_digest(&bytes);
        let root = hex_encode(&digest);
        let root_copy = root.clone();
        let ts = current_timestamp_ms();
        let snapshot = UniverseSnapshot { height: new_height, master_root: root, timestamp_ms: ts };
        self.last_snapshot = Some(
            UniverseSnapshot { height: new_height, master_root: root_copy, timestamp_ms: ts },
        );
        proof {
            assert(self.snapshot_view() == Some(snapshot@)) by {
                assert(self.last_snapshot.unwrap()@ =~= snapshot@);
            }
        }
        snapshot
    }

    /// Unfold a snapshot from supporting data: rebuild a store from
    /// the listed balances, recompute the root by the same canonical
    /// algorithm, and compare it against the snapshot's recorded root.
    /// On a match the rebuilt store is returned, rehydrated with the
    /// snapshot as its last known one; any divergence is a hard
    /// [`SpecError::RootMismatch`].
    pub fn unfold(snapshot: &UniverseSnapshot, support: &Vec<(LabelId, Balance)>) -> (r: Result<
        UniverseState,
        SpecError,
    >)
        ensures
            r is Ok <==> spec_root(canon(support_view(support@))) == snapshot@.master_root,
            r matches Ok(st) ==> st.wf() && st.entries_view() == canon(support_view(support@)) && (
            forall|k: LabelKey| st.bal(k) == list_bal(support_view(support@), k))
                && st.snapshot_view() == Some(snapshot@),
            r matches Err(e) ==> e is RootMismatch,
    {
        let ghost sv = support_view(support@);
        let mut st = UniverseState::new();
        let n = support.len();
        let mut i: usize = 0;
        proof {
            assert(sv.take(0) =~= Seq::<(LabelKey, u128)>::empty());
        }
        while i < n
            invariant
                sv == support_view(support@),
                n == support@.len(),
                sv.len() == n,
                i <= n,
                st.wf(),
                st.snapshot_view() is None,
                forall|k: LabelKey| st.bal(k) == list_bal(sv.take(i as int), k),
            decreases n - i,
        {
            let p = &support[i];
            proof {
                assert(sv[i as int] == (p.0@, p.1.amount));
            }
            let label = LabelId { phone: p.0.phone.clone(), label: p.0.label.clone() };
            proof {
                assert(label@ =~= p.0@);
            }
            let ghost before = st;
            st.set_balance(label, Balance { amount: p.1.amount });
            proof {
                assert(sv.take(i + 1).drop_last() =~= sv.take(i as int));
                assert(sv.take(i + 1).last() == sv[i as int]);
                assert forall|k: LabelKey| st.bal(k) == list_bal(sv.take(i + 1), k) by {
                    if k != p.0@ {
                        assert(st.bal(k) == before.bal(k));
                    }
                }
            }
            i += 1;
        }
        proof {
            assert(sv.take(n as int) =~= sv);
            assert forall|k: LabelKey| ebal(st.entries_view(), k) == list_bal(sv, k) by {
                assert(st.bal(k) == list_bal(sv.take(n as int), k));
            }
            assert(is_canon_of(sv, st.entries_view()));
            assert(is_canon_of(sv, canon(sv)));
            lemma_canon_unique(canon(sv), st.entries_view());
        }
        let bytes = st.canonical_bytes();
        let digest = sha256_digest(&bytes);
        let computed = hex_encode(&digest);
        if computed == snapshot.master_root {
            st.last_snapshot = Some(
                UniverseSnapshot {
                    height: snapshot.height,
                    master_root: snapshot.master_root.clone(),
                    timestamp_ms: snapshot.timestamp_ms,
                },
            );
            proof {
                assert(st.snapshot_view() == Some(snapshot@)) by {
                    assert(st.last_snapshot.unwrap()@ =~= snapshot@);
                }
            }
            Ok(st)
        } else {
            Err(SpecError::RootMismatch)
        }
    }
}

/// The override balance is the amount at the last position holding the label.
proof fn lemma_list_bal_found(s: Seq<(LabelKey, u128)>, k: LabelKey, i: int)
    requires
        0 <= i < s.len(),
        s[i].0 == k,
        forall|j: int| i < j < s.len() ==> s[j].0 != k,
    ensures
        list_bal(s, k) == s[i].1,
    decreases s.len(),
{
    if i == s.len() - 1 {
    } else {
        assert(s.last().0 != k);
        assert(s.drop_last()[i] == s[i]);
        assert forall|j: int| i < j < s.len() - 1 implies s.drop_last()[j].0 != k by {
            assert(s.drop_last()[j] == s[j]);
        }
        lemma_list_bal_found(s.drop_last(), k, i);
    }
}

/// A label occurring nowhere has override balance zero.
proof fn lemma_list_bal_absent(s: Seq<(LabelKey, u128)>, k: LabelKey)
    requires
        forall|j: int| 0 <= j < s.len() ==> s[j].0 != k,
    ensures
        list_bal(s, k) == 0,
    decreases s.len(),
{
    if s.len() > 0 {
        assert forall|j: int| 0 <= j < s.len() - 1 implies s.drop_last()[j].0 != k by {
            assert(s.drop_last()[j] == s[j]);
        }
        lemma_list_bal_absent(s.drop_last(), k);
    }
}

/// On a well-formed sequence, where every label occurs at most once,
/// the override lookup and the balance lookup agree.
proof fn lemma_list_bal_wf(s: Seq<(LabelKey, u128)>)
    requires
        entries_wf(s),
    ensures
        forall|k: LabelKey| list_bal(s, k) == ebal(s, k),
{
    assert forall|k: LabelKey| list_bal(s, k) == ebal(s, k) by {
        if exists|j: int| 0 <= j < s.len() && s[j].0 == k {
            let j = choose|j: int| 0 <= j < s.len() && s[j].0 == k;
            assert forall|j2: int| 0 <= j2 < s.len() && j2 != j implies s[j2].0 != k by {
                lemma_sorted_distinct(s, j, j2);
            }
            lemma_ebal_found(s, k, j);
            lemma_list_bal_found(s, k, j);
        } else {
            assert(forall|j: int| 0 <= j < s.len() ==> s[j].0 != k);
            lemma_ebal_absent(s, k);
            lemma_list_bal_absent(s, k);
        }
    }
}

/// The canonical form is unique: two well-formed entry sequences that
/// assign the same balance to every label are the same sequence.
pub proof fn lemma_canon_unique(a: Seq<(LabelKey, u128)>, b: Seq<(LabelKey, u128)>)
    requires
        entries_wf(a),
        entries_wf(b),
        forall|k: LabelKey| ebal(a, k) == ebal(b, k),
    ensures
        a == b,
    decreases a.len(),
{
    if a.len() == 0 {
        if b.len() > 0 {
            assert(ebal(b, b[0].0) == b[0].1);
            assert(ebal(a, b[0].0) == 0);
            assert(false);
        }
        assert(a =~= b);
    } else if b.len() == 0 {
        assert(ebal(a, a[0].0) == a[0].1);
        assert(ebal(b, a[0].0) == 0);
        assert(false);
    } else {
        let ka = a[0].0;
        let kb = b[0].0;
        assert(ebal(a, ka) == a[0].1);
        assert(ebal(b, kb) == b[0].1);
        if ka != kb {
            lemma_key_lt_trichotomy(ka, kb);
            if key_lt(ka, kb) {
                assert forall|j: int| 0 <= j < b.len() implies b[j].0 != ka by {
                    if j > 0 {
                        lemma_key_lt_trans(ka, kb, b[j].0);
                        lemma_key_lt_trichotomy(ka, b[j].0);
                    }
                }
                lemma_ebal_absent(b, ka);
                assert(false);
            } else {
                assert forall|j: int| 0 <= j < a.len() implies a[j].0 != kb by {
                    if j > 0 {
                        lemma_key_lt_trans(kb, ka, a[j].0);
                        lemma_key_lt_trichotomy(kb, a[j].0);
                    }
                }
                lemma_ebal_absent(a, kb);
                assert(false);
            }
        }
        assert(ka == kb);
        assert(a[0].1 == b[0].1);
        let ta = a.drop_first();
        let tb = b.drop_first();
        assert forall|p: int, q: int| 0 <= p < q < ta.len() implies key_lt(ta[p].0, ta[q].0) by {
            assert(ta[p] == a[p + 1]);
            assert(ta[q] == a[q + 1]);
        }
        assert forall|p: int| 0 <= p < ta.len() implies (#[trigger] ta[p]).1 > 0 by {
            assert(ta[p] == a[p + 1]);
        }
        assert forall|p: int, q: int| 0 <= p < q < tb.len() implies key_lt(tb[p].0, tb[q].0) by {
            assert(tb[p] == b[p + 1]);
            assert(tb[q] == b[q + 1]);
        }
        assert forall|p: int| 0 <= p < tb.len() implies (#[trigger] tb[p]).1 > 0 by {
            assert(tb[p] == b[p + 1]);
        }
        assert forall|k: LabelKey| ebal(ta, k) == ebal(tb, k) by {
            if k == ka {
                assert forall|j: int| 0 <= j < ta.len() implies ta[j].0 != ka by {
                    assert(ta[j] == a[j + 1]);
                    lemma_sorted_distinct(a, 0, j + 1);
                }
                assert forall|j: int| 0 <= j < tb.len() implies tb[j].0 != ka by {
                    assert(tb[j] == b[j + 1]);
                    lemma_sorted_distinct(b, 0, j + 1);
                }
                lemma_ebal_absent(ta, ka);
                lemma_ebal_absent(tb, ka);
            } else {
                assert(ebal(a, k) == ebal(ta, k));
                assert(ebal(b, k) == ebal(tb, k));
            }
        }
        lemma_canon_unique(ta, tb);
        assert forall|j: int| 0 <= j < a.len() implies a[j] == b[j] by {
            if j > 0 {
                assert(ta[j - 1] == tb[j - 1]);
                assert(ta[j - 1] == a[j]);
                assert(tb[j - 1] == b[j]);
            }
        }
        assert(a =~= b);
    }
}

/// Round trip: a well-formed store's own balance listing is its own
/// canonical form, so unfolding a fold of the store from that listing
/// succeeds and reconstructs exactly the same balance for every label.
pub proof fn lemma_fold_unfold_round_trip(st: UniverseState)
    requires
        st.wf(),
    ensures
        canon(st.entries_view()) == st.entries_view(),
        spec_root(canon(st.entries_view())) == spec_root(st.entries_view()),
        forall|k: LabelKey| ebal(canon(st.entries_view()), k) == st.bal(k),
{
    lemma_list_bal_wf(st.entries_view());
    assert(is_canon_of(st.entries_view(), st.entries_view()));
    assert(is_canon_of(st.entries_view(), canon(st.entries_view())));
    lemma_canon_unique(canon(st.entries_view()), st.entries_view());
}

/// Fold determinism: two stores holding identical balances fold to the
/// same root, whatever their heights or histories.
pub proof fn lemma_fold_deterministic(a: UniverseState, b: UniverseState)
    requires
        a.entries_view() == b.entries_view(),
    ensures
        spec_root(a.entries_view()) == spec_root(b.entries_view()),
{
}

/// Fold monotonicity: once a store holds a snapshot, the next fold
/// records a strictly greater height.
pub proof fn lemma_heights_strictly_increase(st: UniverseState, snap: SnapView)
    requires
        st.snapshot_view() == Some(snap),
    ensures
        st.next_height() > snap.height,
{
}

} // verus!
