//! Shared data types of the ledger: account labels, balances,
//! transactions, snapshots and the error enumeration, together with
//! the canonical ordering of labels used everywhere else.

use vstd::prelude::*;
use vstd::string::StrSliceExecFns;

verus! {

/// A label identifier: an owner's phone number plus a label name.
/// This is how a "slice" of the universe belonging to a person is named.
#[derive(Debug)]
pub struct LabelId {
    /// Phone number as a string, e.g. "9132077554".
    pub phone: String,
    /// Label name, e.g. "fun", "gift1", "comet".
    pub label: String,
}

/// The mathematical value of a [`LabelId`]: both fields as character
/// sequences. Labels are equal exactly when both fields are equal.
#[verifier::ext_equal]
pub ghost struct LabelKey {
    pub phone: Seq<char>,
    pub label: Seq<char>,
}

impl View for LabelId {
    type V = LabelKey;

    open spec fn view(&self) -> LabelKey {
        LabelKey { phone: self.phone@, label: self.label@ }
    }
}

/// Basic balance representation in smallest integer units.
#[derive(Debug, Clone, Copy)]
pub struct Balance {
    /// Raw amount in smallest integer units.
    pub amount: u128,
}

/// A transfer of `amount` units from one label to another.
#[derive(Debug)]
pub struct TransferTx {
    pub from: LabelId,
    pub to: LabelId,
    pub amount: u128,
}

/// A folded summary of the universe state: a height that grows by one
/// per fold, the digest of the canonically ordered balances (hex
/// encoded), and the capture time.
#[derive(Debug)]
pub struct UniverseSnapshot {
    pub height: u64,
    /// Hex-encoded digest of the canonical serialization of all balances.
    pub master_root: String,
    /// Milliseconds since epoch.
    pub timestamp_ms: i64,
}

/// The mathematical value of a [`UniverseSnapshot`].
#[verifier::ext_equal]
pub ghost struct SnapView {
    pub height: u64,
    pub master_root: Seq<char>,
    pub timestamp_ms: i64,
}

impl View for UniverseSnapshot {
    type V = SnapView;

    open spec fn view(&self) -> SnapView {
        SnapView {
            height: self.height,
            master_root: self.master_root@,
            timestamp_ms: self.timestamp_ms,
        }
    }
}

/// Simple representation of a land lock; carried for future land
/// operations, not consulted by the ledger logic yet.
#[derive(Debug)]
pub struct LandLock {
    pub id: String,
    pub owner_phone: String,
    pub world: String,
    pub tier: String,
    pub x: i64,
    pub z: i64,
    pub size: i32,
    pub zillow_estimate_amount: u128,
}

/// Errors that applying high-level actions can produce.
#[derive(Debug)]
pub enum SpecError {
    /// The source balance cannot cover the transfer.
    InsufficientBalance,
    /// Reserved for operations that require a pre-existing account.
    UnknownLabel(LabelId),
    /// Zero or otherwise meaningless transfer amount.
    InvalidAmount,
    /// The recomputed root of supporting data does not match a snapshot.
    RootMismatch,
    /// Catch-all for unanticipated conditions.
    Generic(String),
}

/// Strict lexicographic order on character sequences, comparing
/// characters by their scalar values.
pub open spec fn chars_lt(a: Seq<char>, b: Seq<char>) -> bool
    decreases a.len(),
{
    if b.len() == 0 {
        false
    } else if a.len() == 0 {
        true
    } else if (a[0] as u32) < (b[0] as u32) {
        true
    } else if a[0] == b[0] {
        chars_lt(a.drop_first(), b.drop_first())
    } else {
        false
    }
}

/// The canonical strict order on labels: by phone, then by label name.
pub open spec fn key_lt(a: LabelKey, b: LabelKey) -> bool {
    chars_lt(a.phone, b.phone) || (a.phone == b.phone && chars_lt(a.label, b.label))
}

/// Distinct characters have distinct scalar values.
proof fn lemma_char_scalar_neq(c1: char, c2: char)
    requires
        c1 != c2,
    ensures
        c1 as u32 != c2 as u32,
{
}

/// Of two character sequences, exactly one of `a < b`, `a == b`, `b < a` holds.
pub proof fn lemma_chars_lt_trichotomy(a: Seq<char>, b: Seq<char>)
    ensures
        chars_lt(a, b) || a == b || chars_lt(b, a),
        chars_lt(a, b) ==> a != b && !chars_lt(b, a),
        a == b ==> !chars_lt(a, b) && !chars_lt(b, a),
    decreases a.len(),
{
    if a.len() == 0 && b.len() == 0 {
        assert(a =~= b);
    } else if a.len() != 0 && b.len() != 0 {
        lemma_chars_lt_trichotomy(a.drop_first(), b.drop_first());
        if a[0] == b[0] {
            if a.drop_first() == b.drop_first() {
                assert forall|i: int| 0 <= i < a.len() implies a[i] == b[i] by {
                    if i > 0 {
                        assert(a.drop_first()[i - 1] == b.drop_first()[i - 1]);
                    }
                }
                assert(a =~= b);
            }
            if a == b {
                assert(a.drop_first() =~= b.drop_first());
            }
        } else {
            lemma_char_scalar_neq(a[0], b[0]);
            assert(a != b);
        }
    }
}

/// Lexicographic order on character sequences is transitive.
pub proof fn lemma_chars_lt_trans(a: Seq<char>, b: Seq<char>, c: Seq<char>)
    requires
        chars_lt(a, b),
        chars_lt(b, c),
    ensures
        chars_lt(a, c),
    decreases a.len(),
{
    if a.len() != 0 {
        // b and c are nonempty since something is below each of them.
        if (a[0] as u32) < (b[0] as u32) {
            if (b[0] as u32) < (c[0] as u32) {
            } else {
                assert(b[0] == c[0]);
            }
        } else {
            assert(a[0] == b[0]);
            if (b[0] as u32) < (c[0] as u32) {
            } else {
                assert(b[0] == c[0]);
                lemma_chars_lt_trans(a.drop_first(), b.drop_first(), c.drop_first());
            }
        }
    }
}

/// Of two labels, exactly one of `a < b`, `a == b`, `b < a` holds.
pub proof fn lemma_key_lt_trichotomy(a: LabelKey, b: LabelKey)
    ensures
        key_lt(a, b) || a == b || key_lt(b, a),
        key_lt(a, b) ==> a != b && !key_lt(b, a),
        a == b ==> !key_lt(a, b) && !key_lt(b, a),
{
    lemma_chars_lt_trichotomy(a.phone, b.phone);
    lemma_chars_lt_trichotomy(a.label, b.label);
    if a.phone == b.phone && a.label == b.label {
        assert(a =~= b);
    }
}

/// A shared prefix does not decide the lexicographic comparison: it is
/// decided by what remains after the prefix.
pub proof fn lemma_chars_lt_skip(a: Seq<char>, b: Seq<char>, i: int)
    requires
        0 <= i <= a.len(),
        i <= b.len(),
        forall|j: int| 0 <= j < i ==> a[j] == b[j],
    ensures
        chars_lt(a, b) == chars_lt(a.skip(i), b.skip(i)),
        (a == b) <==> (a.skip(i) == b.skip(i)),
    decreases i,
{
    if i == 0 {
        assert(a.skip(0) =~= a);
        assert(b.skip(0) =~= b);
    } else {
        assert(a[0] == b[0]);
        lemma_chars_lt_skip(a.drop_first(), b.drop_first(), i - 1);
        assert(a.drop_first().skip(i - 1) =~= a.skip(i));
        assert(b.drop_first().skip(i - 1) =~= b.skip(i));
        if a == b {
            assert(a.drop_first() =~= b.drop_first());
        }
        if a.drop_first() == b.drop_first() {
            assert forall|j: int| 0 <= j < a.len() implies a[j] == b[j] by {
                if j > 0 {
                    assert(a.drop_first()[j - 1] == b.drop_first()[j - 1]);
                }
            }
            assert(a =~= b);
        }
    }
}

/// The outcome of comparing two labels in the canonical order.
pub enum KeyOrder {
    Less,
    Equal,
    Greater,
}

/// Three-way lexicographic comparison of two strings by scalar values.
pub fn str_cmp(a: &str, b: &str) -> (r: KeyOrder)
    ensures
        r is Equal <==> a@ == b@,
        r is Less <==> chars_lt(a@, b@),
        r is Greater <==> chars_lt(b@, a@),
{
    proof {
        lemma_chars_lt_trichotomy(a@, b@);
    }
    let a_len = a.unicode_len();
    let b_len = b.unicode_len();
    let n: usize = if a_len < b_len { a_len } else { b_len };
    let mut i: usize = 0;
    while i < n
        invariant
            i <= n,
            n <= a@.len(),
            n <= b@.len(),
            a_len == a@.len(),
            b_len == b@.len(),
            n == a_len || n == b_len,
            forall|j: int| 0 <= j < i ==> a@[j] == b@[j],
        decreases n - i,
    {
        let ca = a.get_char(i);
        let cb = b.get_char(i);
        if (ca as u32) < (cb as u32) {
            proof {
                lemma_chars_lt_skip(a@, b@, i as int);
                assert(a@.skip(i as int)[0] == ca);
                assert(b@.skip(i as int)[0] == cb);
                lemma_chars_lt_trichotomy(a@, b@);
            }
            return KeyOrder::Less;
        } else if (cb as u32) < (ca as u32) {
            proof {
                lemma_chars_lt_skip(b@, a@, i as int);
                assert(b@.skip(i as int)[0] == cb);
                assert(a@.skip(i as int)[0] == ca);
                lemma_chars_lt_trichotomy(a@, b@);
            }
            return KeyOrder::Greater;
        }
        proof {
            assert(ca == cb);
        }
        i += 1;
    }
    if a_len == b_len {
        proof {
            lemma_chars_lt_skip(a@, b@, n as int);
            assert(a@.skip(n as int) =~= b@.skip(n as int));
            lemma_chars_lt_trichotomy(a@, b@);
        }
        KeyOrder::Equal
    } else if a_len < b_len {
        proof {
            lemma_chars_lt_skip(a@, b@, n as int);
            assert(a@.skip(n as int).len() == 0);
            assert(b@.skip(n as int).len() > 0);
            lemma_chars_lt_trichotomy(a@, b@);
        }
        KeyOrder::Less
    } else {
        proof {
            lemma_chars_lt_skip(b@, a@, n as int);
            assert(b@.skip(n as int).len() == 0);
            assert(a@.skip(n as int).len() > 0);
            lemma_chars_lt_trichotomy(a@, b@);
        }
        KeyOrder::Greater
    }
}

/// Three-way comparison of two labels in the canonical order.
pub fn label_cmp(a: &LabelId, b: &LabelId) -> (r: KeyOrder)
    ensures
        r is Equal <==> a@ == b@,
        r is Less <==> key_lt(a@, b@),
        r is Greater <==> key_lt(b@, a@),
{
    proof {
        lemma_chars_lt_trichotomy(a.phone@, b.phone@);
        lemma_chars_lt_trichotomy(a.label@, b.label@);
    }
    match str_cmp(a.phone.as_str(), b.phone.as_str()) {
        KeyOrder::Less => KeyOrder::Less,
        KeyOrder::Greater => KeyOrder::Greater,
        KeyOrder::Equal => match str_cmp(a.label.as_str(), b.label.as_str()) {
            KeyOrder::Less => KeyOrder::Less,
            KeyOrder::Greater => KeyOrder::Greater,
            KeyOrder::Equal => {
                proof {
                    assert(a@ =~= b@);
                }
                KeyOrder::Equal
            },
        },
    }
}

/// Whether `a` comes strictly before `b` in the canonical order.
pub fn label_lt(a: &LabelId, b: &LabelId) -> (r: bool)
    ensures
        r == key_lt(a@, b@),
{
    match label_cmp(a, b) {
        KeyOrder::Less => true,
        _ => false,
    }
}

/// Whether two labels are the same account.
pub fn label_eq(a: &LabelId, b: &LabelId) -> (r: bool)
    ensures
        r == (a@ == b@),
{
    match label_cmp(a, b) {
        KeyOrder::Equal => true,
        _ => false,
    }
}

/// The canonical order on labels is transitive.
pub proof fn lemma_key_lt_trans(a: LabelKey, b: LabelKey, c: LabelKey)
    requires
        key_lt(a, b),
        key_lt(b, c),
    ensures
        key_lt(a, c),
{
    lemma_chars_lt_trichotomy(a.phone, b.phone);
    lemma_chars_lt_trichotomy(b.phone, c.phone);
    if chars_lt(a.phone, b.phone) && chars_lt(b.phone, c.phone) {
        lemma_chars_lt_trans(a.phone, b.phone, c.phone);
    }
    if a.phone == b.phone && b.phone == c.phone {
        lemma_chars_lt_trans(a.label, b.label, c.label);
    }
}

} // verus!
