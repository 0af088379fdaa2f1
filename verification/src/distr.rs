//! Discrete probability distributions over integer outcomes.
//!
//! A distribution gives each of finitely many outcomes a weight, a natural
//! number. The probability mass of an outcome is its weight divided by the
//! total weight, so a distribution that holds any weight at all has masses that
//! sum to exactly one. A fair die with `n` faces gives each face the weight 1.
//! All arithmetic on masses is exact, and so are the mean and the variance;
//! the standard deviation, a square root, is a fraction that is rounded down
//! by less than one part of its denominator. The total weight of a
//! distribution is at most `WEIGHT_LIMIT`, two to the power of 84.

use crate::error::{chained, Error, ErrorKind, ErrorModel, Origin};
use crate::text::{
    fixed_text, int_digits, pow10, push_fixed, push_int, push_int_aligned, push_repeated,
    push_str, right_aligned, string_of,
};
use vstd::arithmetic::power::{lemma_pow_increases, lemma_pow_positive, pow};
use vstd::prelude::*;

verus! {

/// The integer type of outcomes.
pub type KeyType = i32;

/// The integer type of weights.
pub type Weight = u128;

/// The largest total weight that a distribution may hold: two to the power
/// of 84. It leaves room for the moments, which multiply weights by
/// outcomes, within 128 bits.
pub const WEIGHT_LIMIT: u128 = 0x10_0000_0000_0000_0000_0000;

/// Mathematical model of a distribution: its outcomes with their weights, in
/// increasing order of outcome.
pub type DistrModel = Seq<(int, nat)>;

/// Whether outcomes strictly increase along the sequence, so that none occurs
/// twice.
pub open spec fn increasing(m: DistrModel) -> bool {
    forall|i: int, j: int| 0 <= i < j < m.len() ==> m[i].0 < m[j].0
}

/// The sum of all weights.
pub open spec fn total_weight(m: DistrModel) -> nat
    decreases m.len(),
{
    if m.len() == 0 {
        0
    } else {
        total_weight(m.drop_last()) + m.last().1
    }
}

/// How many entries have an outcome smaller than `x`. In an increasing
/// sequence this is the index at which `x` stands or would be inserted.
pub open spec fn below(m: DistrModel, x: int) -> int
    decreases m.len(),
{
    if m.len() == 0 {
        0
    } else {
        below(m.drop_last(), x) + if m.last().0 < x {
            1int
        } else {
            0int
        }
    }
}

/// Whether `x` is an outcome of the distribution.
pub open spec fn has_outcome(m: DistrModel, x: int) -> bool {
    below(m, x) < m.len() && m[below(m, x)].0 == x
}

/// The weight of `x`: zero where `x` is no outcome.
pub open spec fn weight_of(m: DistrModel, x: int) -> nat {
    if has_outcome(m, x) {
        m[below(m, x)].1
    } else {
        0
    }
}

/// The distribution after the weight `p` is added to the outcome `x`: the
/// entry of `x` grows by `p`, or a new entry is put in its place in the order.
pub open spec fn accumulated(m: DistrModel, x: int, p: nat) -> DistrModel {
    let k = below(m, x);
    if has_outcome(m, x) {
        m.update(k, (x, m[k].1 + p))
    } else {
        m.insert(k, (x, p))
    }
}

/// What holds of the model of every [`Distr`]: its outcomes increase and fit
/// the outcome type, and the total weight is within the limit.
pub open spec fn proper(m: DistrModel) -> bool {
    &&& increasing(m)
    &&& total_weight(m) <= WEIGHT_LIMIT
    &&& forall|i: int| 0 <= i < m.len() ==> i32::MIN <= (#[trigger] m[i]).0 <= i32::MAX
}

/// The error for dice whose sum cannot be held.
pub open spec fn dice_too_large() -> ErrorModel {
    ErrorModel {
        reason: "the dice do not fit: their sum or their weight is out of range"@,
        opt_span: None,
        kind: ErrorKind::Overflow,
        origin: Origin::Distribution,
    }
}

/// The error for a distribution that is used as a number and has more or
/// less than one outcome.
pub open spec fn no_scalar() -> ErrorModel {
    ErrorModel {
        reason: "a distribution without a single outcome is no number"@,
        opt_span: None,
        kind: ErrorKind::NotScalar,
        origin: Origin::Distribution,
    }
}

/// The distribution with the single outcome `x`, of weight 1.
pub open spec fn point(x: int) -> DistrModel {
    seq![(x, 1nat)]
}

/// The fair die with faces `1..=n`, each of weight 1; without any outcome
/// where `n` is not positive.
pub open spec fn uniform(n: int) -> DistrModel {
    Seq::new(
        if n > 0 {
            n as nat
        } else {
            0
        },
        |i: int| (i + 1, 1nat),
    )
}

/// The single outcome of a distribution that has exactly one.
pub open spec fn scalar_of(m: DistrModel) -> Option<int> {
    if m.len() == 1 {
        Some(m[0].0)
    } else {
        None
    }
}

/// The number of entries before index `k` is `k` exactly when the outcomes
/// before `k` are smaller than `x` and those from `k` on are not.
pub proof fn lemma_below_is_index(m: DistrModel, x: int, k: int)
    requires
        0 <= k <= m.len(),
        forall|i: int| 0 <= i < k ==> (#[trigger] m[i]).0 < x,
        forall|i: int| k <= i < m.len() ==> (#[trigger] m[i]).0 >= x,
    ensures
        below(m, x) == k,
    decreases m.len(),
{
    if m.len() > 0 {
        let rest = m.drop_last();
        if k == m.len() {
            lemma_below_is_index(rest, x, k - 1);
        } else {
            lemma_below_is_index(rest, x, k);
        }
    }
}

/// In an increasing sequence, `below` splits the entries into those with
/// smaller outcomes and the others.
pub proof fn lemma_below_splits(m: DistrModel, x: int)
    requires
        increasing(m),
    ensures
        0 <= below(m, x) <= m.len(),
        forall|i: int| 0 <= i < below(m, x) ==> (#[trigger] m[i]).0 < x,
        forall|i: int| below(m, x) <= i < m.len() ==> (#[trigger] m[i]).0 >= x,
    decreases m.len(),
{
    if m.len() > 0 {
        let rest = m.drop_last();
        let n = rest.len() as int;
        assert(forall|i: int| 0 <= i < n ==> rest[i] == m[i]);
        lemma_below_splits(rest, x);
        let k = below(rest, x);
        if m.last().0 < x {
            assert forall|i: int| 0 <= i < n implies (#[trigger] rest[i]).0 < x by {
                assert(m[i].0 < m[n].0);
            }
            if k < n {
                assert(rest[k].0 >= x);
            }
            assert(below(m, x) == n + 1);
            assert forall|i: int| 0 <= i < n + 1 implies (#[trigger] m[i]).0 < x by {
                if i < n {
                    assert(rest[i].0 < x);
                }
            }
        } else {
            assert(below(m, x) == k);
            assert forall|i: int| 0 <= i < k implies (#[trigger] m[i]).0 < x by {
                assert(rest[i].0 < x);
            }
            assert forall|i: int| k <= i < m.len() implies (#[trigger] m[i]).0 >= x by {
                if i < n {
                    assert(rest[i].0 >= x);
                }
            }
        }
    }
}

/// An outcome is in an increasing sequence exactly when some entry holds it.
pub proof fn lemma_has_outcome(m: DistrModel, x: int)
    requires
        increasing(m),
    ensures
        has_outcome(m, x) <==> exists|i: int| 0 <= i < m.len() && (#[trigger] m[i]).0 == x,
        forall|i: int| 0 <= i < m.len() && (#[trigger] m[i]).0 == x ==> below(m, x) == i,
{
    lemma_below_splits(m, x);
    let k = below(m, x);
    assert forall|i: int| 0 <= i < m.len() && (#[trigger] m[i]).0 == x implies k == i by {
        if i < k {
            assert(m[i].0 < x);
        } else if i > k {
            assert(m[k].0 >= x);
            assert(m[k].0 < m[i].0);
        }
    }
}

/// The total weight of a concatenation is the sum of the two totals.
pub proof fn lemma_total_concat(a: DistrModel, b: DistrModel)
    ensures
        total_weight(a + b) == total_weight(a) + total_weight(b),
    decreases b.len(),
{
    if b.len() == 0 {
        assert(a + b == a);
    } else {
        lemma_total_concat(a, b.drop_last());
        assert((a + b).drop_last() == a + b.drop_last());
    }
}

/// A single entry weighs what it holds.
pub proof fn lemma_total_single(e: (int, nat))
    ensures
        total_weight(seq![e]) == e.1,
{
    assert(seq![e].drop_last() =~= Seq::<(int, nat)>::empty());
    assert(total_weight(Seq::<(int, nat)>::empty()) == 0);
}

/// The total weight is that of the entries before `k`, of the entry at `k`
/// and of the entries after it.
pub proof fn lemma_total_split(m: DistrModel, k: int)
    requires
        0 <= k < m.len(),
    ensures
        total_weight(m) == total_weight(m.take(k)) + m[k].1 + total_weight(m.skip(k + 1)),
{
    lemma_total_concat(m.take(k), m.skip(k));
    assert(m.take(k) + m.skip(k) == m);
    lemma_total_concat(seq![m[k]], m.skip(k + 1));
    assert(seq![m[k]] + m.skip(k + 1) == m.skip(k));
    lemma_total_single(m[k]);
}

/// No prefix weighs more than the whole, and no entry more than the total.
pub proof fn lemma_total_bounds(m: DistrModel, k: int)
    requires
        0 <= k <= m.len(),
    ensures
        total_weight(m.take(k)) <= total_weight(m),
        k < m.len() ==> total_weight(m.take(k)) + m[k].1 <= total_weight(m),
{
    if k < m.len() {
        lemma_total_split(m, k);
    } else {
        assert(m.take(k) == m);
    }
}

/// Adding weight to an entry that is there keeps the outcomes and adds that
/// much to the total.
proof fn lemma_accumulated_update(m: DistrModel, k: int, p: nat)
    requires
        increasing(m),
        0 <= k < m.len(),
    ensures
        increasing(m.update(k, (m[k].0, m[k].1 + p))),
        total_weight(m.update(k, (m[k].0, m[k].1 + p))) == total_weight(m) + p,
{
    let r = m.update(k, (m[k].0, m[k].1 + p));
    lemma_total_split(m, k);
    lemma_total_split(r, k);
    assert(r.take(k) == m.take(k));
    assert(r.skip(k + 1) == m.skip(k + 1));
    assert forall|i: int, j: int| 0 <= i < j < r.len() implies r[i].0 < r[j].0 by {
        assert(r[i].0 == m[i].0 && r[j].0 == m[j].0);
    }
}

/// Putting a new entry where its outcome belongs keeps the order and adds
/// its weight to the total.
proof fn lemma_accumulated_insert(m: DistrModel, k: int, e: (int, nat))
    requires
        increasing(m),
        0 <= k <= m.len(),
        forall|i: int| 0 <= i < k ==> (#[trigger] m[i]).0 < e.0,
        forall|i: int| k <= i < m.len() ==> (#[trigger] m[i]).0 > e.0,
    ensures
        increasing(m.insert(k, e)),
        total_weight(m.insert(k, e)) == total_weight(m) + e.1,
{
    let r = m.insert(k, e);
    lemma_total_split(r, k);
    lemma_total_concat(m.take(k), m.skip(k));
    assert(m.take(k) + m.skip(k) == m);
    assert(r.take(k) == m.take(k));
    assert(r.skip(k + 1) == m.skip(k));
    assert forall|i: int, j: int| 0 <= i < j < r.len() implies r[i].0 < r[j].0 by {
        if j < k {
            assert(r[i] == m[i] && r[j] == m[j]);
        } else if j == k {
            assert(r[i] == m[i]);
        } else if i < k {
            assert(r[i] == m[i] && r[j] == m[j - 1]);
            assert(m[i].0 < e.0 < m[j - 1].0);
        } else if i == k {
            assert(r[j] == m[j - 1]);
        } else {
            assert(r[i] == m[i - 1] && r[j] == m[j - 1]);
        }
    }
}

/// Adding weight to an outcome keeps the order and adds that much to the
/// total.
pub proof fn lemma_accumulated(m: DistrModel, x: int, p: nat)
    requires
        increasing(m),
    ensures
        increasing(accumulated(m, x, p)),
        total_weight(accumulated(m, x, p)) == total_weight(m) + p,
        accumulated(m, x, p).len() == m.len() + if has_outcome(m, x) {
            0int
        } else {
            1int
        },
{
    let k = below(m, x);
    lemma_below_splits(m, x);
    if has_outcome(m, x) {
        lemma_accumulated_update(m, k, p);
    } else {
        assert forall|i: int| k <= i < m.len() implies (#[trigger] m[i]).0 > x by {
            if i > k {
                assert(m[k].0 < m[i].0);
            }
        }
        lemma_accumulated_insert(m, k, (x, p));
    }
}

/// After weight is added to `x`, the outcomes are the old ones and `x`, and
/// only the weight of `x` has changed.
pub proof fn lemma_accumulated_weights(m: DistrModel, x: int, p: nat, y: int)
    requires
        increasing(m),
    ensures
        has_outcome(accumulated(m, x, p), y) <==> (y == x || has_outcome(m, y)),
        weight_of(accumulated(m, x, p), y) == weight_of(m, y) + if y == x {
            p
        } else {
            0
        },
{
    let k = below(m, x);
    let r = accumulated(m, x, p);
    lemma_accumulated(m, x, p);
    lemma_below_splits(m, x);
    lemma_has_outcome(m, y);
    lemma_has_outcome(r, y);
    if has_outcome(m, x) {
        assert(forall|i: int| 0 <= i < m.len() ==> (#[trigger] r[i]).0 == m[i].0);
        if has_outcome(m, y) {
            let i = below(m, y);
            assert(r[i].0 == y);
        }
        if has_outcome(r, y) {
            let i = below(r, y);
            assert(m[i].0 == y);
        }
    } else {
        if has_outcome(m, y) {
            let i = below(m, y);
            if i < k {
                assert(r[i] == m[i]);
            } else {
                assert(r[i + 1] == m[i]);
            }
        }
        if y == x {
            assert(r[k].0 == y);
        }
        if has_outcome(r, y) && y != x {
            let i = below(r, y);
            if i < k {
                assert(m[i] == r[i]);
            } else {
                assert(m[i - 1] == r[i]);
            }
        }
    }
}

/// The distribution `acc` after the pairs of the entry `x` with the first `j`
/// entries of `b` have been added to it: each pair adds the product of the two
/// weights to the outcome that `f` gives.
pub open spec fn combined_row(
    acc: DistrModel,
    x: (int, nat),
    b: DistrModel,
    f: spec_fn(int, int) -> int,
    j: int,
) -> DistrModel
    decreases j,
{
    if j <= 0 {
        acc
    } else {
        accumulated(combined_row(acc, x, b, f, j - 1), f(x.0, b[j - 1].0), x.1 * b[j - 1].1)
    }
}

/// The combination of the first `i` entries of `a` with all of `b`.
pub open spec fn combined_rows(
    a: DistrModel,
    b: DistrModel,
    f: spec_fn(int, int) -> int,
    i: int,
) -> DistrModel
    decreases i,
{
    if i <= 0 {
        Seq::empty()
    } else {
        combined_row(combined_rows(a, b, f, i - 1), a[i - 1], b, f, b.len() as int)
    }
}

/// The combination of two distributions under `f`: every pair of an outcome
/// `x` of `a` and an outcome `y` of `b` adds the product of their weights to
/// the outcome `f(x, y)`.
pub open spec fn combined(a: DistrModel, b: DistrModel, f: spec_fn(int, int) -> int) -> DistrModel {
    combined_rows(a, b, f, a.len() as int)
}

/// The first entry of `b` among the first `j` on which the pair with `x`
/// fails.
pub open spec fn first_failure_in_row(
    x: int,
    b: DistrModel,
    fails: spec_fn(int, int) -> bool,
    j: int,
) -> Option<int>
    decreases j,
{
    if j <= 0 {
        None
    } else {
        match first_failure_in_row(x, b, fails, j - 1) {
            Some(k) => Some(k),
            None => if fails(x, b[j - 1].0) {
                Some(j - 1)
            } else {
                None
            },
        }
    }
}

/// The first pair that fails, going through the first `i` entries of `a` in
/// order and for each through all of `b` in order: the indices of the pair.
pub open spec fn first_failure(
    a: DistrModel,
    b: DistrModel,
    fails: spec_fn(int, int) -> bool,
    i: int,
) -> Option<(int, int)>
    decreases i,
{
    if i <= 0 {
        None
    } else {
        match first_failure(a, b, fails, i - 1) {
            Some(pair) => Some(pair),
            None => match first_failure_in_row(a[i - 1].0, b, fails, b.len() as int) {
                Some(j) => Some((i - 1, j)),
                None => None,
            },
        }
    }
}

/// The context that a failed combination puts around the error of the
/// operation: it names the two outcomes on which the operation failed.
pub open spec fn failed_pair(x: int, y: int) -> ErrorModel {
    ErrorModel {
        reason: "no result for the outcomes "@ + int_digits(x) + " and "@ + int_digits(y),
        opt_span: None,
        kind: ErrorKind::Context,
        origin: Origin::Distribution,
    }
}

/// Whether `e` is an error that the operation `op` may return for the pair
/// of entry `i` of `a` and entry `j` of `b`, wrapped in the context that
/// names the two outcomes.
pub open spec fn failed_on<F: Fn(KeyType, KeyType) -> Result<KeyType, Error>>(
    op: F,
    a: DistrModel,
    b: DistrModel,
    i: int,
    j: int,
    e: ErrorModel,
) -> bool {
    exists|cause: Error| #[trigger]
        call_ensures(op, (a[i].0 as i32, b[j].0 as i32), Err::<KeyType, Error>(cause)) && e
            == chained(cause@, failed_pair(a[i].0, b[j].0))
}

/// Whether `z` is something that the operation `op` may return for a pair of
/// an outcome of `a` and an outcome of `b`.
pub open spec fn returned_for<F: Fn(KeyType, KeyType) -> Result<KeyType, Error>>(
    op: F,
    a: DistrModel,
    b: DistrModel,
    z: int,
) -> bool {
    exists|i: int, j: int|
        0 <= i < a.len() && 0 <= j < b.len() && #[trigger] call_ensures(
            op,
            (a[i].0 as i32, b[j].0 as i32),
            Ok::<KeyType, Error>(z as i32),
        )
}

/// Whether the operation `op`, on every pair of outcomes of `a` and `b`, fails
/// exactly where `fails` says and otherwise returns what `f` says.
pub open spec fn decides<F: Fn(KeyType, KeyType) -> Result<KeyType, Error>>(
    op: F,
    f: spec_fn(int, int) -> int,
    fails: spec_fn(int, int) -> bool,
    a: DistrModel,
    b: DistrModel,
) -> bool {
    forall|i: int, j: int, res: Result<KeyType, Error>|
        0 <= i < a.len() && 0 <= j < b.len() && #[trigger] call_ensures(
            op,
            (a[i].0 as i32, b[j].0 as i32),
            res,
        ) ==> (res is Err <==> fails(a[i].0, b[j].0)) && (res matches Ok(z) ==> z as int == f(
            a[i].0,
            b[j].0,
        ))
}

/// Whether the operation `op`, on every pair of outcomes of `a` and `b`,
/// returns what `f` says.
pub open spec fn computes<F: Fn(KeyType, KeyType) -> KeyType>(
    op: F,
    f: spec_fn(int, int) -> int,
    a: DistrModel,
    b: DistrModel,
) -> bool {
    forall|i: int, j: int, z: KeyType|
        0 <= i < a.len() && 0 <= j < b.len() && #[trigger] call_ensures(
            op,
            (a[i].0 as i32, b[j].0 as i32),
            z,
        ) ==> z as int == f(a[i].0, b[j].0)
}

/// A row of a combination keeps the order of outcomes and adds the weight of
/// the entry times the weight of what it was combined with.
pub proof fn lemma_combined_row(
    acc: DistrModel,
    x: (int, nat),
    b: DistrModel,
    f: spec_fn(int, int) -> int,
    j: int,
)
    requires
        increasing(acc),
        0 <= j <= b.len(),
    ensures
        increasing(combined_row(acc, x, b, f, j)),
        total_weight(combined_row(acc, x, b, f, j)) == total_weight(acc) + x.1 * total_weight(
            b.take(j),
        ),
    decreases j,
{
    if j > 0 {
        lemma_combined_row(acc, x, b, f, j - 1);
        lemma_accumulated(combined_row(acc, x, b, f, j - 1), f(x.0, b[j - 1].0), x.1 * b[j - 1].1);
        assert(b.take(j).drop_last() == b.take(j - 1));
        assert(x.1 * (total_weight(b.take(j - 1)) + b[j - 1].1) == x.1 * total_weight(
            b.take(j - 1),
        ) + x.1 * b[j - 1].1) by (nonlinear_arith);
    } else {
        assert(total_weight(b.take(0)) == 0);
    }
}

/// A combination keeps the order of outcomes, and its total weight is the
/// product of the two totals.
pub proof fn lemma_combined_rows(
    a: DistrModel,
    b: DistrModel,
    f: spec_fn(int, int) -> int,
    i: int,
)
    requires
        0 <= i <= a.len(),
    ensures
        increasing(combined_rows(a, b, f, i)),
        total_weight(combined_rows(a, b, f, i)) == total_weight(a.take(i)) * total_weight(b),
    decreases i,
{
    if i > 0 {
        lemma_combined_rows(a, b, f, i - 1);
        lemma_combined_row(combined_rows(a, b, f, i - 1), a[i - 1], b, f, b.len() as int);
        assert(b.take(b.len() as int) == b);
        assert(a.take(i).drop_last() == a.take(i - 1));
        assert((total_weight(a.take(i - 1)) + a[i - 1].1) * total_weight(b) == total_weight(
            a.take(i - 1),
        ) * total_weight(b) + a[i - 1].1 * total_weight(b)) by (nonlinear_arith);
    } else {
        assert(total_weight(a.take(0)) == 0);
        assert(0 * total_weight(b) == 0) by (nonlinear_arith);
    }
}

/// A combination keeps the order of outcomes, and its total weight is the
/// product of the two totals.
pub proof fn lemma_combined(a: DistrModel, b: DistrModel, f: spec_fn(int, int) -> int)
    ensures
        increasing(combined(a, b, f)),
        total_weight(combined(a, b, f)) == total_weight(a) * total_weight(b),
{
    lemma_combined_rows(a, b, f, a.len() as int);
    assert(a.take(a.len() as int) == a);
}

/// What has been added to a combination by the time the pair of entry `i` of
/// `a` and entry `j` of `b` is added weighs no more than the finished
/// combination.
pub proof fn lemma_partial_weight(a: DistrModel, b: DistrModel, i: int, j: int)
    requires
        0 <= i < a.len(),
        0 <= j < b.len(),
    ensures
        total_weight(a.take(i)) * total_weight(b) + a[i].1 * total_weight(b.take(j)) + a[i].1
            * b[j].1 <= total_weight(a) * total_weight(b),
        a[i].1 * total_weight(b.take(j)) + a[i].1 * b[j].1 == a[i].1 * total_weight(
            b.take(j + 1),
        ),
        total_weight(a.take(i)) * total_weight(b) + a[i].1 * total_weight(b) == total_weight(
            a.take(i + 1),
        ) * total_weight(b),
{
    lemma_total_bounds(a, i);
    lemma_total_bounds(b, j);
    assert(b.take(j + 1).drop_last() == b.take(j));
    assert(a.take(i + 1).drop_last() == a.take(i));
    let ta = total_weight(a.take(i));
    let tb = total_weight(b.take(j));
    let wa = a[i].1;
    let wb = b[j].1;
    let sa = total_weight(a);
    let sb = total_weight(b);
    assert(ta * sb + wa * tb + wa * wb <= sa * sb) by (nonlinear_arith)
        requires
            ta + wa <= sa,
            tb + wb <= sb,
    ;
    assert(wa * tb + wa * wb == wa * (tb + wb)) by (nonlinear_arith);
    assert(ta * sb + wa * sb == (ta + wa) * sb) by (nonlinear_arith);
}

/// A finished row adds the weight of its entry times the total weight of `b`.
pub proof fn lemma_row_weight(a: DistrModel, b: DistrModel, i: int)
    requires
        0 <= i < a.len(),
    ensures
        total_weight(a.take(i)) * total_weight(b) + a[i].1 * total_weight(b) == total_weight(
            a.take(i + 1),
        ) * total_weight(b),
{
    assert(a.take(i + 1).drop_last() == a.take(i));
    let ta = total_weight(a.take(i));
    let wa = a[i].1;
    let sb = total_weight(b);
    assert(ta * sb + wa * sb == (ta + wa) * sb) by (nonlinear_arith);
}

/// The first failure is a pair of entries, and it fails.
pub proof fn lemma_first_failure_fails(
    a: DistrModel,
    b: DistrModel,
    fails: spec_fn(int, int) -> bool,
    n: int,
)
    requires
        0 <= n <= a.len(),
        first_failure(a, b, fails, n) is Some,
    ensures
        ({
            let (i, j) = first_failure(a, b, fails, n)->Some_0;
            0 <= i < n && 0 <= j < b.len() && fails(a[i].0, b[j].0)
        }),
    decreases n,
{
    if n > 0 {
        if first_failure(a, b, fails, n - 1) is Some {
            lemma_first_failure_fails(a, b, fails, n - 1);
        } else {
            lemma_first_failure_in_row_fails(a[n - 1].0, b, fails, b.len() as int);
        }
    }
}

/// The first failure of a row is an entry, and the pair with it fails.
pub proof fn lemma_first_failure_in_row_fails(
    x: int,
    b: DistrModel,
    fails: spec_fn(int, int) -> bool,
    n: int,
)
    requires
        0 <= n <= b.len(),
        first_failure_in_row(x, b, fails, n) is Some,
    ensures
        ({
            let j = first_failure_in_row(x, b, fails, n)->Some_0;
            0 <= j < n && fails(x, b[j].0)
        }),
    decreases n,
{
    if n > 0 {
        if first_failure_in_row(x, b, fails, n - 1) is Some {
            lemma_first_failure_in_row_fails(x, b, fails, n - 1);
        }
    }
}

/// Where a pair fails there is a first failure.
pub proof fn lemma_some_failure(
    a: DistrModel,
    b: DistrModel,
    fails: spec_fn(int, int) -> bool,
    i: int,
    j: int,
    n: int,
)
    requires
        0 <= i < n <= a.len(),
        0 <= j < b.len(),
        fails(a[i].0, b[j].0),
    ensures
        first_failure(a, b, fails, n) is Some,
    decreases n,
{
    if n > i + 1 {
        lemma_some_failure(a, b, fails, i, j, n - 1);
    } else {
        lemma_some_failure_in_row(a[i].0, b, fails, j, b.len() as int);
    }
}

/// Where a pair of a row fails there is a first failure in the row.
pub proof fn lemma_some_failure_in_row(
    x: int,
    b: DistrModel,
    fails: spec_fn(int, int) -> bool,
    j: int,
    n: int,
)
    requires
        0 <= j < n <= b.len(),
        fails(x, b[j].0),
    ensures
        first_failure_in_row(x, b, fails, n) is Some,
    decreases n,
{
    if n > j + 1 {
        lemma_some_failure_in_row(x, b, fails, j, n - 1);
    }
}

/// Where no pair fails there is no first failure.
pub proof fn lemma_no_failure(
    a: DistrModel,
    b: DistrModel,
    fails: spec_fn(int, int) -> bool,
    i: int,
)
    requires
        0 <= i <= a.len(),
        forall|i: int, j: int| 0 <= i < a.len() && 0 <= j < b.len() ==> !fails(a[i].0, b[j].0),
    ensures
        first_failure(a, b, fails, i) is None,
    decreases i,
{
    if i > 0 {
        lemma_no_failure(a, b, fails, i - 1);
        lemma_no_failure_in_row(a[i - 1].0, b, fails, b.len() as int);
    }
}

/// Where no pair of a row fails there is no first failure in it.
pub proof fn lemma_no_failure_in_row(
    x: int,
    b: DistrModel,
    fails: spec_fn(int, int) -> bool,
    j: int,
)
    requires
        0 <= j <= b.len(),
        forall|j: int| 0 <= j < b.len() ==> !fails(x, b[j].0),
    ensures
        first_failure_in_row(x, b, fails, j) is None,
    decreases j,
{
    if j > 0 {
        lemma_no_failure_in_row(x, b, fails, j - 1);
    }
}

/// Once a pair fails and none before it does, it is the first failure however
/// far the search goes on.
pub proof fn lemma_first_failure_in_row(
    x: int,
    b: DistrModel,
    fails: spec_fn(int, int) -> bool,
    j: int,
    n: int,
)
    requires
        0 <= j < n <= b.len(),
        first_failure_in_row(x, b, fails, j) is None,
        fails(x, b[j].0),
    ensures
        first_failure_in_row(x, b, fails, n) == Some(j),
    decreases n,
{
    if n > j + 1 {
        lemma_first_failure_in_row(x, b, fails, j, n - 1);
    }
}

/// Once a pair fails and none before it does, it is the first failure however
/// far the search goes on.
pub proof fn lemma_first_failure(
    a: DistrModel,
    b: DistrModel,
    fails: spec_fn(int, int) -> bool,
    i: int,
    j: int,
    n: int,
)
    requires
        0 <= i < n <= a.len(),
        0 <= j < b.len(),
        first_failure(a, b, fails, i) is None,
        first_failure_in_row(a[i].0, b, fails, j) is None,
        fails(a[i].0, b[j].0),
    ensures
        first_failure(a, b, fails, n) == Some((i, j)),
    decreases n,
{
    if n > i + 1 {
        lemma_first_failure(a, b, fails, i, j, n - 1);
    } else {
        lemma_first_failure_in_row(a[i].0, b, fails, j, b.len() as int);
    }
}

/// Addition of outcomes.
pub open spec fn plus() -> spec_fn(int, int) -> int {
    |x: int, y: int| x + y
}

/// The sum of `k` independent throws of a fair die with `n` faces. No throw
/// at all gives the certain outcome 0. A count below zero is read as one
/// throw.
pub open spec fn stacked(k: int, n: int) -> DistrModel
    decreases k,
{
    if k == 0 {
        point(0)
    } else if k <= 1 {
        uniform(n)
    } else {
        combined(stacked(k - 1, n), uniform(n), plus())
    }
}

/// Whether the sum of `k` throws of a die with `n` faces can be held: the
/// largest outcome `k * n` fits the outcome type and the total weight `n^k`
/// is within the limit of weights.
pub open spec fn stack_fits(k: int, n: int) -> bool {
    k <= 1 || n <= 0 || (k * n <= i32::MAX && pow(n, k as nat) <= WEIGHT_LIMIT)
}

/// The outcomes of a row of a combination are those that were there before
/// and what `f` gives on the pairs of the row.
pub proof fn lemma_combined_row_outcomes(
    acc: DistrModel,
    x: (int, nat),
    b: DistrModel,
    f: spec_fn(int, int) -> int,
    j: int,
    z: int,
)
    requires
        increasing(acc),
        0 <= j <= b.len(),
    ensures
        has_outcome(combined_row(acc, x, b, f, j), z) <==> has_outcome(acc, z) || exists|q: int|
            0 <= q < j && #[trigger] f(x.0, b[q].0) == z,
    decreases j,
{
    if j > 0 {
        let prev = combined_row(acc, x, b, f, j - 1);
        lemma_combined_row_outcomes(acc, x, b, f, j - 1, z);
        lemma_combined_row(acc, x, b, f, j - 1);
        lemma_accumulated_weights(prev, f(x.0, b[j - 1].0), x.1 * b[j - 1].1, z);
        if has_outcome(combined_row(acc, x, b, f, j), z) && !has_outcome(acc, z) {
            if f(x.0, b[j - 1].0) == z {
            } else {
                let q = choose|q: int| 0 <= q < j - 1 && #[trigger] f(x.0, b[q].0) == z;
                assert(0 <= q < j && f(x.0, b[q].0) == z);
            }
        }
    }
}

/// The outcomes of a combination are what `f` gives on the pairs of
/// outcomes.
pub proof fn lemma_combined_outcomes(
    a: DistrModel,
    b: DistrModel,
    f: spec_fn(int, int) -> int,
    i: int,
    z: int,
)
    requires
        0 <= i <= a.len(),
    ensures
        has_outcome(combined_rows(a, b, f, i), z) <==> exists|p: int, q: int|
            0 <= p < i && 0 <= q < b.len() && #[trigger] f(a[p].0, b[q].0) == z,
    decreases i,
{
    if i > 0 {
        let prev = combined_rows(a, b, f, i - 1);
        lemma_combined_outcomes(a, b, f, i - 1, z);
        lemma_combined_rows(a, b, f, i - 1);
        lemma_combined_row_outcomes(prev, a[i - 1], b, f, b.len() as int, z);
        if has_outcome(combined_rows(a, b, f, i), z) {
            if has_outcome(prev, z) {
                let (p, q) = choose|p: int, q: int|
                    0 <= p < i - 1 && 0 <= q < b.len() && #[trigger] f(a[p].0, b[q].0) == z;
                assert(0 <= p < i && 0 <= q < b.len() && f(a[p].0, b[q].0) == z);
            } else {
                let q = choose|q: int| 0 <= q < b.len() && #[trigger] f(a[i - 1].0, b[q].0) == z;
                assert(0 <= i - 1 < i && 0 <= q < b.len() && f(a[i - 1].0, b[q].0) == z);
            }
        }
        if exists|p: int, q: int|
            0 <= p < i && 0 <= q < b.len() && #[trigger] f(a[p].0, b[q].0) == z {
            let (p, q) = choose|p: int, q: int|
                0 <= p < i && 0 <= q < b.len() && #[trigger] f(a[p].0, b[q].0) == z;
            if p < i - 1 {
                assert(0 <= p < i - 1 && 0 <= q < b.len() && f(a[p].0, b[q].0) == z);
            } else {
                assert(0 <= q < b.len() && f(a[i - 1].0, b[q].0) == z);
            }
        }
    }
}

/// Every entry of an increasing sequence holds an outcome of it.
pub proof fn lemma_entry_is_outcome(m: DistrModel, i: int)
    requires
        increasing(m),
        0 <= i < m.len(),
    ensures
        has_outcome(m, m[i].0),
{
    lemma_has_outcome(m, m[i].0);
}

/// The sum of `k >= 1` throws of a die with `n >= 1` faces: its outcomes
/// increase from `k` to `k * n`, and its total weight is `n^k`.
pub proof fn lemma_stacked(k: int, n: int)
    requires
        k >= 1,
        n >= 1,
    ensures
        increasing(stacked(k, n)),
        stacked(k, n).len() > 0,
        stacked(k, n)[0].0 == k,
        stacked(k, n).last().0 == k * n,
        forall|i: int|
            0 <= i < stacked(k, n).len() ==> k <= (#[trigger] stacked(k, n)[i]).0 <= k * n,
        total_weight(stacked(k, n)) == pow(n, k as nat),
        pow(n, k as nat) > 0,
    decreases k,
{
    reveal(pow);
    lemma_uniform(n);
    lemma_pow_positive(n, k as nat);
    let die = uniform(n);
    if k == 1 {
        assert(pow(n, 0) == 1);
        assert(pow(n, 1) == n * pow(n, 0));
        assert(stacked(k, n) == die);
        assert(die[0] == (1int, 1nat));
        assert(die[n - 1] == (n, 1nat));
        assert(1 * n == n);
        assert forall|i: int| 0 <= i < die.len() implies k <= (#[trigger] die[i]).0 <= k * n by {
            assert(die[i] == (i + 1, 1nat));
        }
    } else {
        let prev = stacked(k - 1, n);
        let s = stacked(k, n);
        lemma_stacked(k - 1, n);
        lemma_combined(prev, die, plus());
        assert(pow(n, k as nat) == n * pow(n, (k - 1) as nat));
        assert(total_weight(prev) * n == n * total_weight(prev)) by (nonlinear_arith);
        assert((k - 1) * n + n == k * n) by (nonlinear_arith);
        assert(prev.take(prev.len() as int) == prev);
        // every outcome lies between k and k * n
        assert forall|i: int| 0 <= i < s.len() implies k <= (#[trigger] s[i]).0 <= k * n by {
            lemma_entry_is_outcome(s, i);
            lemma_combined_outcomes(prev, die, plus(), prev.len() as int, s[i].0);
            let (p, q) = choose|p: int, q: int|
                0 <= p < prev.len() && 0 <= q < die.len() && #[trigger] plus()(
                    prev[p].0,
                    die[q].0,
                ) == s[i].0;
            assert(k - 1 <= prev[p].0 <= (k - 1) * n);
            assert(die[q] == (q + 1, 1nat));
        }
        // the smallest and the largest sum are outcomes
        assert(die[0] == (1int, 1nat));
        assert(die[n - 1] == (n, 1nat));
        assert(plus()(prev[0].0, die[0].0) == k);
        lemma_combined_outcomes(prev, die, plus(), prev.len() as int, k);
        assert(plus()(prev[prev.len() - 1].0, die[n - 1].0) == k * n);
        lemma_combined_outcomes(prev, die, plus(), prev.len() as int, k * n);
        lemma_has_outcome(s, k);
        lemma_has_outcome(s, k * n);
        let lo = below(s, k);
        let hi = below(s, k * n);
        lemma_below_splits(s, k);
        lemma_below_splits(s, k * n);
        if lo > 0 {
            assert(s[0].0 < s[lo].0);
            assert(k <= s[0].0);
        }
        if hi < s.len() - 1 {
            assert(s[hi].0 < s[s.len() - 1].0);
            assert(s[s.len() - 1].0 <= k * n);
        }
        assert(s[0].0 == k);
        assert(s[s.len() - 1].0 == k * n);
    }
}

/// The sum of the outcomes, each taken as often as its weight says.
pub open spec fn first_moment(m: DistrModel) -> int
    decreases m.len(),
{
    if m.len() == 0 {
        0
    } else {
        first_moment(m.drop_last()) + m.last().0 * m.last().1
    }
}

/// The sum of the squares of the outcomes, each taken as often as its weight
/// says.
pub open spec fn second_moment(m: DistrModel) -> int
    decreases m.len(),
{
    if m.len() == 0 {
        0
    } else {
        second_moment(m.drop_last()) + m.last().0 * m.last().0 * m.last().1
    }
}

/// A rational number: `num / den`. A zero denominator stands for the value
/// zero.
#[derive(Clone, Copy, Debug, PartialEq, Eq)]
pub struct Ratio {
    pub num: i128,
    pub den: u128,
}

/// The mean of a distribution, exactly: the sum of outcome times weight over
/// the total weight.
pub open spec fn mean_of(m: DistrModel) -> (int, int) {
    (first_moment(m), total_weight(m) as int)
}

/// The variance of a distribution, exactly: the mean of the squared
/// distance from the mean. With `D` the total weight, `S1` the first and `S2`
/// the second moment, it is `(D * S2 - S1 * S1) / (D * D)`.
pub open spec fn spread_of(m: DistrModel) -> (int, int) {
    (
        total_weight(m) * second_moment(m) - first_moment(m) * first_moment(m),
        (total_weight(m) * total_weight(m)) as int,
    )
}

/// The largest magnitude that the parts of the variance may have for it to
/// be computed.
pub const SPREAD_LIMIT: u128 = 0x8_0000_0000_0000_0000_0000_0000_0000;

/// Whether the variance can be computed within machine integers.
pub open spec fn spread_fits(m: DistrModel) -> bool {
    &&& total_weight(m) * total_weight(m) <= SPREAD_LIMIT
    &&& total_weight(m) * second_moment(m) <= SPREAD_LIMIT
    &&& first_moment(m) * first_moment(m) <= SPREAD_LIMIT
}

/// The weighted sum of the squared distances of the outcomes from `x`.
pub open spec fn scatter(m: DistrModel, x: int) -> int
    decreases m.len(),
{
    if m.len() == 0 {
        0
    } else {
        scatter(m.drop_last(), x) + m.last().1 * ((x - m.last().0) * (x - m.last().0))
    }
}

/// The scatter around `x` is not negative, and it is `D * x * x - 2 * S1 * x
/// + S2`.
pub proof fn lemma_scatter(m: DistrModel, x: int)
    ensures
        scatter(m, x) >= 0,
        scatter(m, x) == total_weight(m) * (x * x) - 2 * first_moment(m) * x + second_moment(m),
    decreases m.len(),
{
    if m.len() > 0 {
        let rest = m.drop_last();
        let y = m.last().0;
        let w = m.last().1 as int;
        lemma_scatter(rest, x);
        let d = total_weight(rest) as int;
        let s1 = first_moment(rest);
        let s2 = second_moment(rest);
        assert(w * ((x - y) * (x - y)) >= 0) by (nonlinear_arith)
            requires
                w >= 0,
        ;
        assert(total_weight(m) == d + w);
        assert(first_moment(m) == s1 + y * w);
        assert(second_moment(m) == s2 + y * y * w);
        assert(scatter(m, x) == scatter(rest, x) + w * ((x - y) * (x - y)));
        assert((d + w) * (x * x) == d * (x * x) + w * (x * x)) by (nonlinear_arith);
        assert(2 * (s1 + y * w) * x == 2 * s1 * x + 2 * (w * (x * y))) by (nonlinear_arith);
        assert(y * y * w == w * (y * y)) by (nonlinear_arith);
        assert(w * ((x - y) * (x - y)) == w * (x * x) - 2 * (w * (x * y)) + w * (y * y))
            by (nonlinear_arith);
        let tm = total_weight(m) as int;
        let fm = first_moment(m);
        assert(tm * (x * x) == (d + w) * (x * x));
        assert(2 * fm * x == 2 * (s1 + y * w) * x);
    } else {
        let tm = total_weight(m) as int;
        let fm = first_moment(m);
        assert(tm * (x * x) == 0) by (nonlinear_arith)
            requires
                tm == 0,
        ;
        assert(2 * fm * x == 0) by (nonlinear_arith)
            requires
                fm == 0,
        ;
    }
}

/// The numerator of the variance, `D * S2 - S1 * S1`, is not negative.
pub proof fn lemma_spread_not_negative(m: DistrModel)
    ensures
        spread_of(m).0 >= 0,
    decreases m.len(),
{
    if m.len() > 0 {
        let rest = m.drop_last();
        let y = m.last().0;
        let w = m.last().1 as int;
        lemma_spread_not_negative(rest);
        lemma_scatter(rest, y);
        let d = total_weight(rest) as int;
        let s1 = first_moment(rest);
        let s2 = second_moment(rest);
        let q = scatter(rest, y);
        assert(w * q >= 0) by (nonlinear_arith)
            requires
                w >= 0,
                q >= 0,
        ;
        let p = y * w;
        let q2 = y * y * w;
        assert(total_weight(m) == d + w);
        assert(first_moment(m) == s1 + p);
        assert(second_moment(m) == s2 + q2);
        assert((d + w) * (s2 + q2) == d * s2 + d * q2 + w * s2 + w * q2) by (nonlinear_arith);
        assert((s1 + p) * (s1 + p) == s1 * s1 + 2 * (s1 * p) + p * p) by (nonlinear_arith);
        assert(d * q2 == w * (d * (y * y))) by (nonlinear_arith)
            requires
                q2 == y * y * w,
        ;
        assert(w * q2 == p * p) by (nonlinear_arith)
            requires
                q2 == y * y * w,
                p == y * w,
        ;
        assert(2 * (s1 * p) == w * (2 * s1 * y)) by (nonlinear_arith)
            requires
                p == y * w,
        ;
        assert(w * q == w * (d * (y * y)) - w * (2 * s1 * y) + w * s2) by (nonlinear_arith)
            requires
                q == d * (y * y) - 2 * s1 * y + s2,
        ;
    } else {
        assert(0 * 0 - 0 * 0 == 0) by (nonlinear_arith);
    }
}

/// Whether `r` is the square root of `x`, rounded down.
pub open spec fn is_root(r: nat, x: nat) -> bool {
    r * r <= x < (r + 1) * (r + 1)
}

/// The square root of `x`, rounded down.
pub open spec fn root_floor(x: nat) -> nat {
    choose|r: nat| is_root(r, x)
}

/// No two numbers are the square root of `x`, rounded down.
pub proof fn lemma_root_unique(r: nat, x: nat)
    requires
        is_root(r, x),
    ensures
        root_floor(x) == r,
{
    let q = root_floor(x);
    assert(is_root(q, x));
    if q < r {
        assert((q + 1) * (q + 1) <= r * r) by (nonlinear_arith)
            requires
                0 <= q + 1 <= r,
        ;
    }
    if r < q {
        assert((r + 1) * (r + 1) <= q * q) by (nonlinear_arith)
            requires
                0 <= r + 1 <= q,
        ;
    }
}

/// How many digits after the point the standard deviation is taken to at
/// most.
pub const ROOT_PLACES: u32 = 9;

/// The number `x` times a power of a hundred, and the power of ten that is
/// the root of that power: one more factor is put in, up to `steps` of them,
/// for as long as the product fits the machine integer.
pub open spec fn refined(x: nat, steps: nat) -> (nat, nat)
    decreases steps,
{
    if steps == 0 || x * 100 > u128::MAX {
        (x, 1)
    } else {
        (refined(x * 100, (steps - 1) as nat).0, 10 * refined(x * 100, (steps - 1) as nat).1)
    }
}

/// Whether the standard deviation can be computed within machine integers.
pub open spec fn deviation_fits(m: DistrModel) -> bool {
    total_weight(m) * second_moment(m) <= i128::MAX
}

/// The standard deviation of a distribution: the square root of the
/// variance, as a fraction. With `N / (D * D)` the variance it is
/// `sqrt(N) / D`. The radicand `N` is scaled by the largest power `t * t` of
/// a hundred that the machine integer takes, up to nine factors; the
/// numerator is the square root of `N * t * t`, rounded down, and the
/// denominator is `D * t`. The fraction is thus no larger than the standard
/// deviation and less than `1 / (D * t)` below it.
pub open spec fn deviation_of(m: DistrModel) -> (int, int) {
    let scaled = refined(spread_of(m).0 as nat, ROOT_PLACES as nat);
    (root_floor(scaled.0) as int, (total_weight(m) * scaled.1) as int)
}

/// A refined number is the number times the square of the scale, which is a
/// power of ten no larger than ten to the number of steps.
pub proof fn lemma_refined(x: nat, steps: nat)
    ensures
        refined(x, steps).0 == x * (refined(x, steps).1 * refined(x, steps).1),
        1 <= refined(x, steps).1 <= pow10(steps),
        refined(x, steps).0 <= u128::MAX || steps == 0 || x * 100 > u128::MAX,
        x <= u128::MAX ==> refined(x, steps).0 <= u128::MAX,
    decreases steps,
{
    crate::text::lemma_pow10_grows(0, steps);
    if steps == 0 || x * 100 > u128::MAX {
        assert(x * (1 * 1) == x) by (nonlinear_arith);
    } else {
        lemma_refined(x * 100, (steps - 1) as nat);
        let t = refined(x * 100, (steps - 1) as nat).1;
        assert(refined(x, steps).1 == 10 * t);
        assert(pow10(steps) == 10 * pow10((steps - 1) as nat));
        assert((x * 100) * (t * t) == x * ((10 * t) * (10 * t))) by (nonlinear_arith);
    }
}

/// The fraction that stands for the standard deviation squares to no more
/// than the variance, and the next larger fraction with the same
/// denominator squares to more: with `(num, den)` the standard deviation and
/// `(v, w)` the variance, `num^2 / den^2 <= v / w < (num + 1)^2 / den^2`.
pub proof fn law_deviation(m: DistrModel)
    requires
        spread_of(m).0 <= u128::MAX,
    ensures
        ({
            let (num, den) = deviation_of(m);
            let (v, w) = spread_of(m);
            num >= 0 && v >= 0 && num * num * w <= v * (den * den) && v * (den * den) < (num + 1)
                * (num + 1) * w || w == 0
        }),
{
    lemma_spread_not_negative(m);
    let n = spread_of(m).0 as nat;
    let d = total_weight(m) as int;
    let x = refined(n, ROOT_PLACES as nat).0;
    let t = refined(n, ROOT_PLACES as nat).1 as int;
    lemma_refined(n, ROOT_PLACES as nat);
    let r = lemma_root_exists(x) as int;
    lemma_root_unique(r as nat, x);
    let nn = n as int;
    if d > 0 {
        assert(r * r * (d * d) <= nn * ((d * t) * (d * t))) by (nonlinear_arith)
            requires
                r * r <= nn * (t * t),
                d > 0,
        ;
        assert(nn * ((d * t) * (d * t)) < (r + 1) * (r + 1) * (d * d)) by (nonlinear_arith)
            requires
                nn * (t * t) < (r + 1) * (r + 1),
                d > 0,
        ;
    } else {
        assert(d * d == 0) by (nonlinear_arith)
            requires
                d == 0,
        ;
    }
}

/// Every number that fits the machine integer has a square root, rounded
/// down.
pub proof fn lemma_root_exists(x: nat) -> (r: nat)
    requires
        x <= u128::MAX,
    ensures
        is_root(r, x),
        r < 0x1_0000_0000_0000_0000,
    decreases x,
{
    if x == 0 {
        assert(is_root(0, 0)) by (nonlinear_arith);
        0
    } else {
        let q = lemma_root_exists((x - 1) as nat);
        if (q + 1) * (q + 1) <= x {
            assert((q + 1) * (q + 1) == x) by (nonlinear_arith)
                requires
                    q * q <= x - 1 < (q + 1) * (q + 1),
                    (q + 1) * (q + 1) <= x,
            ;
            assert(x < (q + 2) * (q + 2)) by (nonlinear_arith)
                requires
                    (q + 1) * (q + 1) == x,
                    q >= 0,
            ;
            assert(q + 1 < 0x1_0000_0000_0000_0000) by (nonlinear_arith)
                requires
                    (q + 1) * (q + 1) <= 0xffff_ffff_ffff_ffff_ffff_ffff_ffff_ffff,
                    q >= 0,
            ;
            (q + 1) as nat
        } else {
            q
        }
    }
}

/// The second moment grows with every entry: that of the first `k` entries
/// and the part of the entry after them are no more than the whole.
pub proof fn lemma_second_moment_grows(m: DistrModel, k: int)
    requires
        0 <= k <= m.len(),
    ensures
        0 <= second_moment(m.take(k)) <= second_moment(m),
        k < m.len() ==> second_moment(m.take(k + 1)) == second_moment(m.take(k)) + m[k].0 * m[k].0
            * m[k].1 && second_moment(m.take(k + 1)) <= second_moment(m) && m[k].0 * m[k].0
            * m[k].1 >= 0,
    decreases m.len() - k,
{
    if k == m.len() {
        assert(m.take(k) == m);
        lemma_second_moment_not_negative(m);
    } else {
        lemma_second_moment_grows(m, k + 1);
        assert(m.take(k + 1).drop_last() == m.take(k));
        assert(m.take(k + 1).last() == m[k]);
        let x = m[k].0;
        let w = m[k].1 as int;
        assert(x * x * w >= 0) by (nonlinear_arith)
            requires
                w >= 0,
        ;
        lemma_second_moment_not_negative(m.take(k));
    }
}

/// The second moment is not negative.
pub proof fn lemma_second_moment_not_negative(m: DistrModel)
    ensures
        second_moment(m) >= 0,
    decreases m.len(),
{
    if m.len() > 0 {
        lemma_second_moment_not_negative(m.drop_last());
        let x = m.last().0;
        let w = m.last().1 as int;
        assert(x * x * w >= 0) by (nonlinear_arith)
            requires
                w >= 0,
        ;
    }
}

/// The moments of a distribution whose outcomes fit 32 bits are bounded by
/// its total weight.
pub proof fn lemma_moment_bounds(m: DistrModel, k: int)
    requires
        0 <= k <= m.len(),
        forall|i: int| 0 <= i < m.len() ==> i32::MIN <= (#[trigger] m[i]).0 <= i32::MAX,
    ensures
        -0x8000_0000 * total_weight(m.take(k)) <= first_moment(m.take(k)) <= 0x8000_0000
            * total_weight(m.take(k)),
        0 <= second_moment(m.take(k)) <= 0x4000_0000_0000_0000 * total_weight(m.take(k)),
        total_weight(m.take(k)) <= total_weight(m),
    decreases k,
{
    lemma_total_bounds(m, k);
    if k > 0 {
        lemma_moment_bounds(m, k - 1);
        assert(m.take(k).drop_last() == m.take(k - 1));
        let x = m[k - 1].0;
        let w = m[k - 1].1;
        assert(m.take(k).last() == (x, w));
        assert(-0x8000_0000 * w <= x * w <= 0x8000_0000 * w) by (nonlinear_arith)
            requires
                -0x8000_0000 <= x <= 0x8000_0000,
                w >= 0,
        ;
        assert(0 <= x * x * w <= 0x4000_0000_0000_0000 * w) by (nonlinear_arith)
            requires
                -0x8000_0000 <= x <= 0x8000_0000,
                w >= 0,
        ;
    }
}

/// The summary of a distribution: its mean and its standard deviation, each
/// with three digits after the point. Where the standard deviation cannot be
/// computed within machine integers, `n/a` stands in its place.
pub open spec fn stat_text(m: DistrModel) -> Seq<char> {
    "<Mean: "@ + fixed_text(mean_of(m).0, mean_of(m).1 as nat, 3) + ", Stdev: "@ + (
    if deviation_fits(m) {
        fixed_text(deviation_of(m).0, deviation_of(m).1 as nat, 3)
    } else {
        "n/a"@
    }) + ">"@
}

/// One line of the table of a distribution: the outcome, right-aligned to two
/// characters, and its mass with five digits after the point.
pub open spec fn table_row(total: nat, e: (int, nat)) -> Seq<char> {
    " "@ + right_aligned(int_digits(e.0), 2) + " | "@ + fixed_text(e.1 as int, total, 5) + "\n"@
}

/// The lines of the table for the first `n` outcomes.
pub open spec fn table_rows(m: DistrModel, n: int) -> Seq<char>
    decreases n,
{
    if n <= 0 {
        Seq::empty()
    } else {
        table_rows(m, n - 1) + table_row(total_weight(m), m[n - 1])
    }
}

/// The table of a distribution: a heading, then one line for each outcome in
/// increasing order.
pub open spec fn table_text(m: DistrModel) -> Seq<char> {
    "  x | P(x)\n ---\u{254b}-----\n"@ + table_rows(m, m.len() as int)
}

/// The largest weight among the first `n` entries.
pub open spec fn max_weight(m: DistrModel, n: int) -> nat
    decreases n,
{
    if n <= 0 {
        0
    } else if m[n - 1].1 > max_weight(m, n - 1) {
        m[n - 1].1
    } else {
        max_weight(m, n - 1)
    }
}

/// The length of the bar of `x` in the histogram: fifty for the heaviest
/// outcome, and in proportion to the weight for the others, rounded down.
pub open spec fn bar_length(m: DistrModel, x: int) -> nat {
    if max_weight(m, m.len() as int) == 0 {
        0
    } else {
        weight_of(m, x) * 50 / max_weight(m, m.len() as int)
    }
}

/// One line of the histogram: the value, right-aligned to two characters,
/// and its bar.
pub open spec fn hist_row(m: DistrModel, x: int) -> Seq<char> {
    right_aligned(int_digits(x), 2) + ": "@ + Seq::new(bar_length(m, x), |i: int| 'X') + "\n"@
}

/// The lines of the histogram for the values from `lo` up to, not including,
/// `hi`.
pub open spec fn hist_rows(m: DistrModel, lo: int, hi: int) -> Seq<char>
    decreases hi - lo,
{
    if hi <= lo {
        Seq::empty()
    } else {
        hist_rows(m, lo, hi - 1) + hist_row(m, hi - 1)
    }
}

/// The histogram of a distribution: one line for every value from the
/// smallest outcome to the largest, outcome or not.
pub open spec fn hist_text(m: DistrModel) -> Seq<char> {
    if m.len() == 0 {
        "The Never Distribution."@
    } else {
        hist_rows(m, m.first().0, m.last().0 + 1)
    }
}

/// No entry weighs more than the largest weight, which no more than the
/// total.
pub proof fn lemma_max_weight(m: DistrModel, n: int)
    requires
        0 <= n <= m.len(),
    ensures
        forall|i: int| 0 <= i < n ==> (#[trigger] m[i]).1 <= max_weight(m, n),
        max_weight(m, n) <= total_weight(m.take(n)),
    decreases n,
{
    if n > 0 {
        lemma_max_weight(m, n - 1);
        assert(m.take(n).drop_last() == m.take(n - 1));
    } else {
        assert(total_weight(m.take(0)) == 0);
    }
}

/// The number `x` times a power of a hundred, and the root of that power.
fn refine(x: u128, steps: u32) -> (r: (u128, u128))
    requires
        steps <= ROOT_PLACES,
    ensures
        (r.0 as nat, r.1 as nat) == refined(x as nat, steps as nat),
        1 <= r.1 <= 1_000_000_000,
    decreases steps,
{
    proof {
        lemma_refined(x as nat, steps as nat);
        crate::text::lemma_pow10_grows(steps as nat, 9);
        reveal_with_fuel(pow10, 10);
        assert(pow10(9) == 1_000_000_000);
    }
    if steps == 0 {
        return (x, 1);
    }
    match x.checked_mul(100) {
        None => (x, 1),
        Some(y) => {
            proof {
                lemma_refined(y as nat, (steps - 1) as nat);
                crate::text::lemma_pow10_grows((steps - 1) as nat, 8);
                assert(pow10(8) == 100_000_000);
            }
            let (z, t) = refine(y, steps - 1);
            (z, 10 * t)
        },
    }
}

/// The square root of `x`, rounded down.
fn root(x: u128) -> (r: u128)
    ensures
        is_root(r as nat, x as nat),
        r < 0x1_0000_0000_0000_0000,
{
    let mut lo: u128 = 0;
    let mut hi: u128 = 0x1_0000_0000_0000_0000;
    assert(0x1_0000_0000_0000_0000int * 0x1_0000_0000_0000_0000int
        == 0x1_0000_0000_0000_0000_0000_0000_0000_0000int) by (nonlinear_arith);
    assert(0int * 0int == 0) by (nonlinear_arith);
    while hi - lo > 1
        invariant
            lo < hi <= 0x1_0000_0000_0000_0000,
            lo * lo <= x,
            x < hi * hi,
        decreases hi - lo,
    {
        let mid = lo + (hi - lo) / 2;
        assert(mid * mid <= 0xffff_ffff_ffff_ffff * 0xffff_ffff_ffff_ffff) by (nonlinear_arith)
            requires
                0 <= mid <= 0xffff_ffff_ffff_ffff,
        ;
        if mid * mid <= x {
            lo = mid;
        } else {
            hi = mid;
        }
    }
    lo
}

/// The model of the entries that a distribution holds.
pub open spec fn entries_model(entries: Seq<(KeyType, Weight)>) -> DistrModel {
    Seq::new(entries.len(), |i: int| (entries[i].0 as int, entries[i].1 as nat))
}

/// A distribution over integer outcomes with exact weights.
#[derive(Debug)]
pub struct Distr {
    entries: Vec<(KeyType, Weight)>,
}

impl View for Distr {
    type V = DistrModel;

    closed spec fn view(&self) -> DistrModel {
        entries_model(self.entries@)
    }
}

impl Distr {
    /// What every distribution keeps: its outcomes increase and its total
    /// weight is within the limit.
    #[verifier::type_invariant]
    spec fn well_formed(self) -> bool {
        increasing(self@) && total_weight(self@) <= WEIGHT_LIMIT
    }

    /// The distribution without any outcome.
    pub fn new() -> (r: Distr)
        ensures
            r@ == Seq::<(int, nat)>::empty(),
    {
        let r = Distr { entries: Vec::new() };
        assert(r@ =~= Seq::<(int, nat)>::empty());
        r
    }

    /// The number of outcomes. As of every distribution, the outcomes
    /// increase and fit the outcome type, and the total weight is within the
    /// limit.
    pub fn len(&self) -> (r: usize)
        ensures
            r == self@.len(),
            proper(self@),
    {
        proof {
            use_type_invariant(self);
        }
        self.entries.len()
    }

    /// The outcomes in increasing order.
    pub fn iter(&self) -> (r: Vec<KeyType>)
        ensures
            r@.len() == self@.len(),
            forall|i: int| 0 <= i < r@.len() ==> r@[i] as int == (#[trigger] self@[i]).0,
    {
        let mut out: Vec<KeyType> = Vec::new();
        let mut i: usize = 0;
        while i < self.entries.len()
            invariant
                i <= self.entries.len(),
                out@.len() == i,
                forall|k: int| 0 <= k < i ==> out@[k] as int == (#[trigger] self@[k]).0,
            decreases self.entries.len() - i,
        {
            out.push(self.entries[i].0);
            i += 1;
        }
        out
    }

    /// The index at which `x` stands or would be inserted.
    fn position(&self, x: KeyType) -> (k: usize)
        ensures
            k == below(self@, x as int),
            k <= self@.len(),
    {
        proof {
            use_type_invariant(self);
        }
        let mut lo: usize = 0;
        let mut hi: usize = self.entries.len();
        while lo < hi
            invariant
                lo <= hi <= self.entries.len(),
                increasing(self@),
                forall|i: int| 0 <= i < lo ==> (#[trigger] self@[i]).0 < x,
                forall|i: int| hi <= i < self@.len() ==> (#[trigger] self@[i]).0 >= x,
            decreases hi - lo,
        {
            let mid = lo + (hi - lo) / 2;
            if self.entries[mid].0 < x {
                assert forall|i: int| 0 <= i < mid + 1 implies (#[trigger] self@[i]).0 < x by {
                    if i < mid {
                        assert(self@[i].0 < self@[mid as int].0);
                    }
                }
                lo = mid + 1;
            } else {
                assert forall|i: int| mid <= i < self@.len() implies (#[trigger] self@[i]).0
                    >= x by {
                    if i > mid {
                        assert(self@[mid as int].0 < self@[i].0);
                    }
                }
                hi = mid;
            }
        }
        proof {
            lemma_below_is_index(self@, x as int, lo as int);
        }
        lo
    }

    /// The weight of the outcome `x`; zero where `x` is no outcome.
    pub fn prob(&self, x: KeyType) -> (r: Weight)
        ensures
            r == weight_of(self@, x as int),
    {
        let k = self.position(x);
        if k < self.entries.len() && self.entries[k].0 == x {
            self.entries[k].1
        } else {
            0
        }
    }

    /// The sum of the weights of all outcomes.
    pub fn total(&self) -> (r: Weight)
        ensures
            r == total_weight(self@),
    {
        proof {
            use_type_invariant(self);
        }
        let mut sum: u128 = 0;
        let mut i: usize = 0;
        while i < self.entries.len()
            invariant
                i <= self.entries.len(),
                sum == total_weight(self@.take(i as int)),
                total_weight(self@) <= WEIGHT_LIMIT,
            decreases self.entries.len() - i,
        {
            proof {
                lemma_total_bounds(self@, i as int);
                assert(self@.take(i + 1).drop_last() == self@.take(i as int));
            }
            sum = sum + self.entries[i].1;
            i += 1;
        }
        assert(self@.take(self.entries.len() as int) == self@);
        sum
    }

    /// Adds the weight `p` to the outcome `x`, which becomes an outcome if
    /// it was none.
    pub fn update_prob(&mut self, x: KeyType, p: Weight)
        requires
            total_weight(old(self)@) + p <= WEIGHT_LIMIT,
        ensures
            final(self)@ == accumulated(old(self)@, x as int, p as nat),
    {
        proof {
            use_type_invariant(&*self);
            lemma_accumulated(self@, x as int, p as nat);
        }
        let k = self.position(x);
        let mut entries: Vec<(KeyType, Weight)> = Vec::new();
        std::mem::swap(&mut entries, &mut self.entries);
        let ghost before = entries_model(entries@);
        assert(before == old(self)@);
        if k < entries.len() && entries[k].0 == x {
            proof {
                lemma_total_bounds(before, k as int);
            }
            let w = entries[k].1 + p;
            entries[k] = (x, w);
        } else {
            entries.insert(k, (x, p));
        }
        let ghost after = entries_model(entries@);
        assert(after =~= accumulated(before, x as int, p as nat));
        self.entries = entries;
        assert(self@ == after);
    }

    /// Combines two distributions under an operation that may fail. Every
    /// pair of an outcome `x` of `self` and an outcome `y` of `other` adds the
    /// product of their weights to the outcome `op(x, y)`. The pairs are taken
    /// in order, and the first failure of `op` ends the combination with the
    /// error of `op`, wrapped in a context that names the two outcomes.
    pub fn combine_fallible_op<F>(&self, other: &Distr, op: F) -> (r: Result<Distr, Error>) where
        F: Fn(KeyType, KeyType) -> Result<KeyType, Error>,

        requires
            total_weight(self@) * total_weight(other@) <= WEIGHT_LIMIT,
            forall|i: int, j: int|
                0 <= i < self@.len() && 0 <= j < other@.len() ==> call_requires(
                    op,
                    (#[trigger] self@[i].0 as i32, #[trigger] other@[j].0 as i32),
                ),
        ensures
            r matches Err(e) ==> exists|i: int, j: int|
                0 <= i < self@.len() && 0 <= j < other@.len() && #[trigger] failed_on(
                    op,
                    self@,
                    other@,
                    i,
                    j,
                    e@,
                ),
            r matches Ok(d) ==> total_weight(d@) == total_weight(self@) * total_weight(other@)
                && forall|z: int| #[trigger]
                has_outcome(d@, z) ==> i32::MIN <= z <= i32::MAX && returned_for(
                    op,
                    self@,
                    other@,
                    z,
                ),
            forall|f: spec_fn(int, int) -> int, fails: spec_fn(int, int) -> bool| #[trigger]
                decides(op, f, fails, self@, other@) ==> match first_failure(
                    self@,
                    other@,
                    fails,
                    self@.len() as int,
                ) {
                    None => r matches Ok(d) && d@ == combined(self@, other@, f),
                    Some((i, j)) => r matches Err(e) && failed_on(op, self@, other@, i, j, e@),
                },
    {
        let ghost a = self@;
        let ghost b = other@;
        let n = self.len();
        let m = other.len();
        let mut distr = Distr::new();
        let mut i: usize = 0;
        assert(total_weight(a.take(0)) == 0);
        assert(0 * total_weight(b) == 0) by (nonlinear_arith);
        while i < n
            invariant
                a == self@,
                b == other@,
                n == a.len(),
                m == b.len(),
                i <= n,
                proper(a),
                proper(b),
                total_weight(a) * total_weight(b) <= WEIGHT_LIMIT,
                forall|i: int, j: int|
                    0 <= i < a.len() && 0 <= j < b.len() ==> call_requires(
                        op,
                        (#[trigger] a[i].0 as i32, #[trigger] b[j].0 as i32),
                    ),
                total_weight(distr@) == total_weight(a.take(i as int)) * total_weight(b),
                forall|z: int| #[trigger]
                    has_outcome(distr@, z) ==> i32::MIN <= z <= i32::MAX && returned_for(
                        op,
                        a,
                        b,
                        z,
                    ),
                forall|f: spec_fn(int, int) -> int, fails: spec_fn(int, int) -> bool| #[trigger]
                    decides(op, f, fails, a, b) ==> first_failure(a, b, fails, i as int) is None
                        && distr@ == combined_rows(a, b, f, i as int),
            decreases n - i,
        {
            let x = self.entries[i].0;
            let wx = self.entries[i].1;
            let mut j: usize = 0;
            assert(total_weight(b.take(0)) == 0);
            assert(a[i as int].1 * 0 == 0) by (nonlinear_arith);
            while j < m
                invariant
                    a == self@,
                    b == other@,
                    n == a.len(),
                    m == b.len(),
                    i < n,
                    j <= m,
                    proper(a),
                    proper(b),
                    x == a[i as int].0,
                    wx == a[i as int].1,
                    total_weight(a) * total_weight(b) <= WEIGHT_LIMIT,
                    forall|i: int, j: int|
                        0 <= i < a.len() && 0 <= j < b.len() ==> call_requires(
                            op,
                            (#[trigger] a[i].0 as i32, #[trigger] b[j].0 as i32),
                        ),
                    total_weight(distr@) == total_weight(a.take(i as int)) * total_weight(b)
                        + a[i as int].1 * total_weight(b.take(j as int)),
                    forall|z: int| #[trigger]
                        has_outcome(distr@, z) ==> i32::MIN <= z <= i32::MAX && returned_for(
                            op,
                            a,
                            b,
                            z,
                        ),
                    forall|f: spec_fn(int, int) -> int, fails: spec_fn(int, int) -> bool| #[trigger]
                        decides(op, f, fails, a, b) ==> first_failure(a, b, fails, i as int)
                            is None && first_failure_in_row(a[i as int].0, b, fails, j as int)
                            is None && distr@ == combined_row(
                            combined_rows(a, b, f, i as int),
                            a[i as int],
                            b,
                            f,
                            j as int,
                        ),
                decreases m - j,
            {
                let y = other.entries[j].0;
                let wy = other.entries[j].1;
                assert(y == b[j as int].0 && wy == b[j as int].1);
                proof {
                    lemma_partial_weight(a, b, i as int, j as int);
                    assert(a[i as int].1 * b[j as int].1 >= 0) by (nonlinear_arith);
                    assert(total_weight(a.take(i as int)) * total_weight(b) >= 0)
                        by (nonlinear_arith);
                    assert(a[i as int].1 * total_weight(b.take(j as int)) >= 0)
                        by (nonlinear_arith);
                }
                match op(x, y) {
                    Err(e) => {
                        proof {
                            assert forall|
                                f: spec_fn(int, int) -> int,
                                fails: spec_fn(int, int) -> bool,
                            | #[trigger]
                                decides(
                                    op,
                                    f,
                                    fails,
                                    a,
                                    b,
                                ) implies first_failure(a, b, fails, a.len() as int) == Some(
                                (i as int, j as int),
                            ) by {
                                assert(call_ensures(
                                    op,
                                    (a[i as int].0 as i32, b[j as int].0 as i32),
                                    Err::<KeyType, Error>(e),
                                ));
                                lemma_first_failure(
                                    a,
                                    b,
                                    fails,
                                    i as int,
                                    j as int,
                                    a.len() as int,
                                );
                            }
                        }
                        let mut buf: Vec<char> = Vec::new();
                        push_str(&mut buf, "no result for the outcomes ");
                        push_int(&mut buf, x as i128);
                        push_str(&mut buf, " and ");
                        push_int(&mut buf, y as i128);
                        let context = Error::fail(
                            ErrorKind::Context,
                            Origin::Distribution,
                            string_of(&buf),
                        );
                        let tagged = e.concat(context);
                        assert(failed_on(op, a, b, i as int, j as int, tagged@)) by {
                            assert(call_ensures(
                                op,
                                (a[i as int].0 as i32, b[j as int].0 as i32),
                                Err::<KeyType, Error>(e),
                            ));
                        }
                        return Err(tagged);
                    },
                    Ok(z) => {
                        let w = wx * wy;
                        let ghost before = distr@;
                        proof {
                            use_type_invariant(&distr);
                        }
                        distr.update_prob(z, w);
                        proof {
                            lemma_accumulated(before, z as int, w as nat);
                            assert forall|y: int| #[trigger]
                                has_outcome(distr@, y) implies i32::MIN <= y <= i32::MAX
                                && returned_for(op, a, b, y) by {
                                lemma_accumulated_weights(before, z as int, w as nat, y);
                                if y == z {
                                    assert(call_ensures(
                                        op,
                                        (a[i as int].0 as i32, b[j as int].0 as i32),
                                        Ok::<KeyType, Error>(y as i32),
                                    ));
                                }
                            }
                            assert forall|
                                f: spec_fn(int, int) -> int,
                                fails: spec_fn(int, int) -> bool,
                            | #[trigger]
                                decides(op, f, fails, a, b) implies first_failure_in_row(
                                a[i as int].0,
                                b,
                                fails,
                                j + 1,
                            ) is None && distr@ == combined_row(
                                combined_rows(a, b, f, i as int),
                                a[i as int],
                                b,
                                f,
                                j + 1,
                            ) by {
                                assert(call_ensures(
                                    op,
                                    (a[i as int].0 as i32, b[j as int].0 as i32),
                                    Ok::<KeyType, Error>(z),
                                ));
                            }
                        }
                    },
                }
                j += 1;
            }
            proof {
                lemma_row_weight(a, b, i as int);
                assert(b.take(m as int) == b);
            }
            i += 1;
        }
        assert(a.take(n as int) == a);
        Ok(distr)
    }

    /// Combines two distributions under `op`: every pair of an outcome `x` of
    /// `self` and an outcome `y` of `other` adds the product of their weights
    /// to the outcome `op(x, y)`.
    pub fn combine_op<F>(&self, other: &Distr, op: F) -> (r: Distr) where
        F: Fn(KeyType, KeyType) -> KeyType,

        requires
            total_weight(self@) * total_weight(other@) <= WEIGHT_LIMIT,
            forall|i: int, j: int|
                0 <= i < self@.len() && 0 <= j < other@.len() ==> call_requires(
                    op,
                    (#[trigger] self@[i].0 as i32, #[trigger] other@[j].0 as i32),
                ),
        ensures
            total_weight(r@) == total_weight(self@) * total_weight(other@),
            forall|z: int| #[trigger]
                has_outcome(r@, z) ==> i32::MIN <= z <= i32::MAX && exists|i: int, j: int|
                    0 <= i < self@.len() && 0 <= j < other@.len() && #[trigger] call_ensures(
                        op,
                        (self@[i].0 as i32, other@[j].0 as i32),
                        z as i32,
                    ),
            forall|f: spec_fn(int, int) -> int| #[trigger]
                computes(op, f, self@, other@) ==> r@ == combined(self@, other@, f),
    {
        let inner = &op;
        let lifted = |x: KeyType, y: KeyType| -> (res: Result<KeyType, Error>)
            requires
                call_requires(inner, (x, y)),
            ensures
                res matches Ok(z) && call_ensures(inner, (x, y), z),
            { Ok(inner(x, y)) };
        let both = self.combine_fallible_op(other, lifted);
        proof {
            let never = |x: int, y: int| false;
            assert forall|f: spec_fn(int, int) -> int| #[trigger]
                computes(op, f, self@, other@) implies decides(
                lifted,
                f,
                never,
                self@,
                other@,
            ) && first_failure(self@, other@, never, self@.len() as int) is None by {
                lemma_no_failure(self@, other@, never, self@.len() as int);
            }
        }
        match both {
            Ok(d) => {
                proof {
                    assert forall|z: int| #[trigger] has_outcome(d@, z) implies exists|
                        i: int,
                        j: int,
                    |
                        0 <= i < self@.len() && 0 <= j < other@.len() && #[trigger] call_ensures(
                            op,
                            (self@[i].0 as i32, other@[j].0 as i32),
                            z as i32,
                        ) by {
                        assert(returned_for(lifted, self@, other@, z));
                        let (i, j) = choose|i: int, j: int|
                            0 <= i < self@.len() && 0 <= j < other@.len()
                                && #[trigger] call_ensures(
                                lifted,
                                (self@[i].0 as i32, other@[j].0 as i32),
                                Ok::<KeyType, Error>(z as i32),
                            );
                        assert(call_ensures(
                            op,
                            (self@[i].0 as i32, other@[j].0 as i32),
                            z as i32,
                        ));
                    }
                }
                d
            },
            Err(_) => {
                // the operation that was handed on never fails
                assert(false);
                Distr::new()
            },
        }
    }

    /// The first moment: the sum of outcome times weight.
    fn moment1(&self) -> (r: i128)
        ensures
            r == first_moment(self@),
            -0x8000_0000 * total_weight(self@) <= r <= 0x8000_0000 * total_weight(self@),
    {
        proof {
            use_type_invariant(self);
        }
        let mut sum: i128 = 0;
        let mut i: usize = 0;
        proof {
            lemma_moment_bounds(self@, 0);
        }
        while i < self.entries.len()
            invariant
                i <= self.entries.len(),
                proper(self@),
                sum == first_moment(self@.take(i as int)),
                -0x8000_0000 * total_weight(self@.take(i as int)) <= sum <= 0x8000_0000
                    * total_weight(self@.take(i as int)),
                total_weight(self@.take(i as int)) <= total_weight(self@),
            decreases self.entries.len() - i,
        {
            proof {
                lemma_total_bounds(self@, i as int);
            }
            let x = self.entries[i].0 as i128;
            let w = self.entries[i].1 as i128;
            proof {
                lemma_moment_bounds(self@, i + 1);
                assert(self@.take(i + 1).drop_last() == self@.take(i as int));
                assert(-0x8000_0000 * w <= x * w <= 0x8000_0000 * w) by (nonlinear_arith)
                    requires
                        -0x8000_0000 <= x <= 0x8000_0000,
                        w >= 0,
                ;
            }
            sum = sum + x * w;
            i += 1;
        }
        assert(self@.take(self.entries.len() as int) == self@);
        sum
    }

    /// The second moment: the sum of squared outcome times weight, where it
    /// fits the machine integer.
    fn moment2(&self) -> (r: Option<u128>)
        ensures
            r is Some <==> second_moment(self@) <= u128::MAX,
            r matches Some(v) ==> v == second_moment(self@),
    {
        proof {
            use_type_invariant(self);
            lemma_second_moment_grows(self@, 0);
        }
        let mut sum: u128 = 0;
        let mut i: usize = 0;
        while i < self.entries.len()
            invariant
                i <= self.entries.len(),
                proper(self@),
                sum == second_moment(self@.take(i as int)),
            decreases self.entries.len() - i,
        {
            let x = self.entries[i].0 as i64;
            let w = self.entries[i].1;
            proof {
                lemma_second_moment_grows(self@, i as int);
                assert(0 <= x * x <= 0x4000_0000_0000_0000) by (nonlinear_arith)
                    requires
                        -0x8000_0000 <= x <= 0x8000_0000,
                ;
                assert(x * x * w == (x * x) * w);
            }
            let sq = (x * x) as u128;
            let term = match sq.checked_mul(w) {
                Some(t) => t,
                None => {
                    return None;
                },
            };
            sum = match sum.checked_add(term) {
                Some(t) => t,
                None => {
                    return None;
                },
            };
            i += 1;
        }
        assert(self@.take(self.entries.len() as int) == self@);
        Some(sum)
    }

    /// The mean: the sum of outcome times weight, over the total weight.
    pub fn mean(&self) -> (r: Ratio)
        ensures
            (r.num as int, r.den as int) == mean_of(self@),
    {
        Ratio { num: self.moment1(), den: self.total() as u128 }
    }

    /// The variance, the mean squared distance from the mean, as an exact
    /// fraction, where it can be computed within machine integers.
    pub fn variance(&self) -> (r: Option<Ratio>)
        ensures
            r is Some <==> spread_fits(self@),
            r matches Some(q) ==> (q.num as int, q.den as int) == spread_of(self@),
    {
        let d = self.total();
        let s1 = self.moment1();
        proof {
            use_type_invariant(self);
            lemma_moment_bounds(self@, self@.len() as int);
            assert(self@.take(self@.len() as int) == self@);
            assert(s1 * s1 >= 0) by (nonlinear_arith);
        }
        let s2 = match self.moment2() {
            Some(v) => v,
            None => {
                assert(total_weight(self@) * second_moment(self@) >= second_moment(self@))
                    by (nonlinear_arith)
                    requires
                        total_weight(self@) >= 1,
                        second_moment(self@) >= 0,
                ;
                return None;
            },
        };
        let dd = match d.checked_mul(d) {
            Some(v) => v,
            None => {
                return None;
            },
        };
        if dd > SPREAD_LIMIT {
            return None;
        }
        let ds2 = match d.checked_mul(s2) {
            Some(v) => v,
            None => {
                return None;
            },
        };
        if ds2 > SPREAD_LIMIT {
            return None;
        }
        let sq = match s1.checked_mul(s1) {
            Some(v) => v,
            None => {
                return None;
            },
        };
        if sq > SPREAD_LIMIT as i128 {
            return None;
        }
        Some(Ratio { num: ds2 as i128 - sq, den: dd })
    }

    /// The standard deviation, the square root of the variance, as a
    /// fraction that is rounded down, where it can be computed within machine
    /// integers. The fraction is no larger than the standard deviation and
    /// less than one part of its denominator below it; the denominator is
    /// the total weight times a power of ten, a billion where that fits.
    pub fn stdev(&self) -> (r: Option<Ratio>)
        ensures
            r is Some <==> deviation_fits(self@),
            r matches Some(q) ==> (q.num as int, q.den as int) == deviation_of(self@),
    {
        let d = self.total();
        let s1 = self.moment1();
        proof {
            use_type_invariant(self);
            lemma_moment_bounds(self@, self@.len() as int);
            assert(self@.take(self@.len() as int) == self@);
            lemma_spread_not_negative(self@);
            assert(s1 * s1 >= 0) by (nonlinear_arith);
        }
        let s2 = match self.moment2() {
            Some(v) => v,
            None => {
                assert(total_weight(self@) * second_moment(self@) >= second_moment(self@))
                    by (nonlinear_arith)
                    requires
                        total_weight(self@) >= 1,
                        second_moment(self@) >= 0,
                ;
                return None;
            },
        };
        let ds2 = match d.checked_mul(s2) {
            Some(v) => v,
            None => {
                return None;
            },
        };
        if ds2 > 0x7fff_ffff_ffff_ffff_ffff_ffff_ffff_ffff {
            return None;
        }
        let sq = match s1.checked_mul(s1) {
            Some(v) => v,
            None => {
                assert(false);
                return None;
            },
        };
        let radicand = (ds2 as i128 - sq) as u128;
        let (x, scale) = refine(radicand, ROOT_PLACES);
        let num = root(x);
        proof {
            lemma_root_unique(num as nat, x as nat);
            assert(d * scale <= 0x10_0000_0000_0000_0000_0000 * 1_000_000_000)
                by (nonlinear_arith)
                requires
                    0 <= d <= 0x10_0000_0000_0000_0000_0000,
                    0 <= scale <= 1_000_000_000,
            ;
        }
        Some(Ratio { num: num as i128, den: d * scale })
    }

    /// The sum of `k` independent throws of a fair die with `n` faces. No
    /// throw at all gives the certain outcome 0; a count below zero is read
    /// as one throw. For at least one throw of a die with faces the weights
    /// add up to `n^k`, so that the masses sum to one, and the outcomes reach
    /// from `k` to `k * n`.
    pub fn stacked_unifs(k: KeyType, n: KeyType) -> (r: Distr)
        requires
            stack_fits(k as int, n as int),
        ensures
            r@ == stacked(k as int, n as int),
            k >= 1 && n > 0 ==> {
                &&& total_weight(r@) == pow(n as int, k as nat)
                &&& total_weight(r@) > 0
                &&& r@.len() > 0
                &&& r@.first().0 == k
                &&& r@.last().0 == k * n
                &&& forall|x: int| x < k || x > k * n ==> weight_of(r@, x) == 0
            },
    {
        proof {
            if k >= 1 && n > 0 {
                law_stacked(k as int, n as int);
            }
        }
        if k == 0 {
            return Distr::certain(0);
        }
        let die = Distr::unif(n);
        let mut distr = Distr::unif(n);
        let mut c: KeyType = 1;
        while c < k
            invariant
                1 <= c,
                k >= 1 ==> c <= k,
                k < 1 ==> c == 1,
                stack_fits(k as int, n as int),
                die@ == uniform(n as int),
                distr@ == stacked(c as int, n as int),
            decreases k - c,
        {
            proof {
                lemma_uniform(n as int);
                if n >= 1 {
                    lemma_stacked(c as int, n as int);
                    lemma_pow_increases(n as nat, (c + 1) as nat, k as nat);
                    reveal(pow);
                    assert(pow(n as int, (c + 1) as nat) == n * pow(n as int, c as nat));
                    assert(total_weight(distr@) * n == n * total_weight(distr@))
                        by (nonlinear_arith);
                    assert((c + 1) * n <= k * n) by (nonlinear_arith)
                        requires
                            c + 1 <= k,
                            n >= 1,
                    ;
                    assert(c * n + n == (c + 1) * n) by (nonlinear_arith);
                } else {
                    assert(total_weight(distr@) * 0 == 0) by (nonlinear_arith);
                }
            }
            let sum = |x: KeyType, y: KeyType| -> (z: KeyType)
                requires
                    i32::MIN <= x + y <= i32::MAX,
                ensures
                    z == x + y,
                { x + y };
            let next = distr.combine_op(&die, sum);
            proof {
                assert(computes(sum, plus(), distr@, die@));
            }
            distr = next;
            c += 1;
        }
        distr
    }

    /// Whether the sum of `k` throws of a die with `n` faces can be held.
    pub fn dice_fit(k: KeyType, n: KeyType) -> (r: bool)
        ensures
            r == stack_fits(k as int, n as int),
    {
        if k <= 1 || n <= 0 {
            return true;
        }
        assert(0 <= (k as i64) * (n as i64) <= 0x4000_0000_0000_0000) by (nonlinear_arith)
            requires
                0 <= k <= 0x8000_0000,
                0 <= n <= 0x8000_0000,
        ;
        let mut fits = (k as i64) * (n as i64) <= 2147483647;
        let mut weight: u128 = 1;
        let mut c: KeyType = 0;
        proof {
            reveal(pow);
            assert(pow(n as int, 0) == 1);
        }
        while fits && c < k && n > 1
            invariant
                0 <= c <= k,
                n >= 1,
                fits ==> weight == pow(n as int, c as nat),
                fits ==> weight <= WEIGHT_LIMIT,
                fits ==> k * n <= i32::MAX,
                !fits ==> !stack_fits(k as int, n as int),
                k > 1,
            decreases
                    k - c + if fits {
                        1int
                    } else {
                        0int
                    },
        {
            proof {
                reveal(pow);
                assert(pow(n as int, (c + 1) as nat) == n * pow(n as int, c as nat));
                lemma_pow_increases(n as nat, (c + 1) as nat, k as nat);
                assert(weight * n == n * weight) by (nonlinear_arith);
            }
            match weight.checked_mul(n as u128) {
                Some(w) => {
                    if w <= WEIGHT_LIMIT {
                        weight = w;
                        c += 1;
                    } else {
                        fits = false;
                    }
                },
                None => {
                    fits = false;
                },
            }
        }
        proof {
            if fits && n == 1 {
                lemma_pow_of_one(k as nat);
            }
        }
        fits
    }

    /// The sum of `k` independent throws of a fair die with `n` faces, where
    /// it can be held; else an error of kind `Overflow`.
    pub fn try_stacked_unifs(k: KeyType, n: KeyType) -> (r: Result<Distr, Error>)
        ensures
            r is Ok <==> stack_fits(k as int, n as int),
            r matches Ok(d) ==> d@ == stacked(k as int, n as int),
            r matches Err(e) ==> e@ == dice_too_large(),
    {
        let fits = Distr::dice_fit(k, n);
        if fits {
            Ok(Distr::stacked_unifs(k, n))
        } else {
            Err(
                Error::fail(
                    ErrorKind::Overflow,
                    Origin::Distribution,
                    String::from_str(
                        "the dice do not fit: their sum or their weight is out of range",
                    ),
                ),
            )
        }
    }

    /// The summary of the distribution: mean and standard deviation.
    pub fn stat_view(&self) -> (r: String)
        ensures
            r@ == stat_text(self@),
    {
        proof {
            use_type_invariant(self);
            lemma_moment_bounds(self@, self@.len() as int);
            assert(self@.take(self@.len() as int) == self@);
            reveal_with_fuel(pow10, 4);
            assert(pow10(3) == 1000);
        }
        let mut buf: Vec<char> = Vec::new();
        push_str(&mut buf, "<Mean: ");
        let mean = self.mean();
        push_fixed(&mut buf, mean.num, mean.den, 3);
        push_str(&mut buf, ", Stdev: ");
        match self.stdev() {
            Some(q) => {
                proof {
                    let n = spread_of(self@).0 as nat;
                    lemma_spread_not_negative(self@);
                    let s1 = first_moment(self@);
                    assert(s1 * s1 >= 0) by (nonlinear_arith);
                    lemma_refined(n, ROOT_PLACES as nat);
                    let x = refined(n, ROOT_PLACES as nat).0;
                    let t = refined(n, ROOT_PLACES as nat).1;
                    let r = lemma_root_exists(x);
                    lemma_root_unique(r, x);
                    crate::text::lemma_pow10_grows(9, 9);
                    reveal_with_fuel(pow10, 10);
                    assert(pow10(9) == 1_000_000_000);
                    assert(total_weight(self@) * t <= 0x10_0000_0000_0000_0000_0000
                        * 1_000_000_000) by (nonlinear_arith)
                        requires
                            0 <= total_weight(self@) <= 0x10_0000_0000_0000_0000_0000,
                            0 <= t <= 1_000_000_000,
                    ;
                }
                push_fixed(&mut buf, q.num, q.den, 3);
            },
            None => {
                push_str(&mut buf, "n/a");
            },
        }
        push_str(&mut buf, ">");
        string_of(&buf)
    }

    /// The table of the distribution: one line for each outcome with its
    /// mass.
    pub fn table_view(&self) -> (r: String)
        ensures
            r@ == table_text(self@),
    {
        proof {
            use_type_invariant(self);
            reveal_with_fuel(pow10, 6);
            assert(pow10(5) == 100000);
        }
        let total = self.total();
        let mut buf: Vec<char> = Vec::new();
        push_str(&mut buf, "  x | P(x)\n ---\u{254b}-----\n");
        let ghost head = buf@;
        let mut i: usize = 0;
        while i < self.entries.len()
            invariant
                i <= self.entries.len(),
                proper(self@),
                total == total_weight(self@),
                pow10(5) == 100000,
                buf@ == head + table_rows(self@, i as int),
            decreases self.entries.len() - i,
        {
            let x = self.entries[i].0;
            let w = self.entries[i].1;
            assert(self@[i as int] == (x as int, w as nat));
            proof {
                lemma_total_bounds(self@, i as int);
            }
            push_str(&mut buf, " ");
            push_int_aligned(&mut buf, x as i128, 2);
            push_str(&mut buf, " | ");
            push_fixed(&mut buf, w as i128, total as u128, 5);
            push_str(&mut buf, "\n");
            i += 1;
        }
        string_of(&buf)
    }

    /// The largest weight of any outcome.
    fn heaviest(&self) -> (r: Weight)
        ensures
            r == max_weight(self@, self@.len() as int),
    {
        let mut best: Weight = 0;
        let mut i: usize = 0;
        while i < self.entries.len()
            invariant
                i <= self.entries.len(),
                best == max_weight(self@, i as int),
            decreases self.entries.len() - i,
        {
            if self.entries[i].1 > best {
                best = self.entries[i].1;
            }
            i += 1;
        }
        best
    }

    /// The histogram of the distribution: one bar for every value from the
    /// smallest outcome to the largest.
    pub fn hist_view(&self) -> (r: String)
        ensures
            r@ == hist_text(self@),
    {
        proof {
            use_type_invariant(self);
        }
        let n = self.entries.len();
        if n == 0 {
            return String::from_str("The Never Distribution.");
        }
        let lo = self.entries[0].0 as i64;
        let hi = self.entries[n - 1].0 as i64;
        let top = self.heaviest();
        let mut buf: Vec<char> = Vec::new();
        let mut x: i64 = lo;
        proof {
            if n > 1 {
                assert(self@[0].0 < self@[n - 1].0);
            }
            lemma_max_weight(self@, n as int);
            assert(self@.take(n as int) == self@);
        }
        while x <= hi
            invariant
                lo <= x <= hi + 1,
                top <= WEIGHT_LIMIT,
                i32::MIN <= lo <= hi <= i32::MAX,
                proper(self@),
                n == self@.len(),
                top == max_weight(self@, n as int),
                forall|i: int| 0 <= i < n ==> (#[trigger] self@[i]).1 <= top,
                buf@ == hist_rows(self@, lo as int, x as int),
            decreases hi - x + 1,
        {
            let w = self.prob(x as i32);
            proof {
                lemma_below_splits(self@, x as int);
                if has_outcome(self@, x as int) {
                    assert(self@[below(self@, x as int)].1 <= top);
                }
            }
            push_int_aligned(&mut buf, x as i128, 2);
            push_str(&mut buf, ": ");
            assert(top > 0 ==> 0 <= (w * 50) / (top as int) <= 50) by (nonlinear_arith)
                requires
                    0 <= w <= top,
            ;
            let len: u64 = if top == 0 {
                0
            } else {
                ((w * 50) / top) as u64
            };
            assert(len == bar_length(self@, x as int));
            push_repeated(&mut buf, 'X', len as usize);
            push_str(&mut buf, "\n");
            x += 1;
        }
        string_of(&buf)
    }

    /// The single outcome of the distribution, where it has exactly one; else
    /// an error of kind `NotScalar`.
    pub fn try_to_num(&self) -> (r: Result<KeyType, Error>)
        ensures
            r is Ok <==> scalar_of(self@) is Some,
            r matches Ok(x) ==> scalar_of(self@) == Some(x as int),
            r matches Err(e) ==> e@ == no_scalar(),
    {
        match self.scalar() {
            Some(x) => Ok(x),
            None => {
                Err(
                    Error::fail(
                        ErrorKind::NotScalar,
                        Origin::Distribution,
                        String::from_str(
                            "a distribution without a single outcome is no number",
                        ),
                    ),
                )
            },
        }
    }

    /// The single outcome of the distribution, where it has exactly one.
    pub fn scalar(&self) -> (r: Option<KeyType>)
        ensures
            r is Some <==> scalar_of(self@) is Some,
            r matches Some(x) ==> scalar_of(self@) == Some(x as int),
    {
        if self.entries.len() == 1 {
            Some(self.entries[0].0)
        } else {
            None
        }
    }

    /// The fair die with faces `1..=stop`, each of weight 1. A die without
    /// faces, `stop <= 0`, is the distribution without any outcome.
    pub fn unif(stop: KeyType) -> (r: Distr)
        ensures
            r@ == uniform(stop as int),
    {
        let mut entries: Vec<(KeyType, Weight)> = Vec::new();
        let mut i: KeyType = 0;
        while i < stop
            invariant
                0 <= i,
                stop >= 0 ==> i <= stop,
                stop < 0 ==> i == 0,
                entries@.len() == i,
                forall|k: int| 0 <= k < i ==> #[trigger] entries@[k] == ((k + 1) as i32, 1u128),
            decreases stop - i,
        {
            i += 1;
            entries.push((i, 1));
        }
        let ghost m = entries_model(entries@);
        proof {
            assert(m =~= uniform(stop as int));
            lemma_uniform(stop as int);
        }
        Distr { entries }
    }
}

/// A fair die has increasing outcomes and as much weight as it has faces.
pub proof fn lemma_uniform(n: int)
    ensures
        increasing(uniform(n)),
        uniform(n).len() == if n > 0 {
            n
        } else {
            0
        },
        total_weight(uniform(n)) == uniform(n).len(),
        forall|i: int| 0 <= i < uniform(n).len() ==> #[trigger] uniform(n)[i] == (i + 1, 1nat),
    decreases n,
{
    if n > 0 {
        lemma_uniform(n - 1);
        assert(uniform(n).drop_last() =~= uniform(n - 1));
    }
}

impl Clone for Distr {
    fn clone(&self) -> (r: Self)
        ensures
            r@ == self@,
    {
        proof {
            use_type_invariant(self);
        }
        let mut entries: Vec<(KeyType, Weight)> = Vec::new();
        let mut i: usize = 0;
        while i < self.entries.len()
            invariant
                i <= self.entries.len(),
                entries@ == self.entries@.take(i as int),
            decreases self.entries.len() - i,
        {
            entries.push(self.entries[i]);
            assert(self.entries@.take(i + 1) == self.entries@.take(i as int).push(
                self.entries@[i as int],
            ));
            i += 1;
        }
        assert(self.entries@.take(self.entries.len() as int) == self.entries@);
        let ghost m = entries_model(entries@);
        assert(m =~= self@);
        Distr { entries }
    }
}

impl From<KeyType> for Distr {
    /// The distribution of a certain value: the single outcome `n`.
    fn from(n: KeyType) -> (r: Distr)
        ensures
            r@ == point(n as int),
    {
        Distr::certain(n)
    }
}

/// What `from` returns is stated on `from` itself, by the model of the
/// result: a distribution cannot be written down as a term.
impl vstd::std_specs::convert::FromSpecImpl<KeyType> for Distr {
    open spec fn obeys_from_spec() -> bool {
        false
    }

    open spec fn from_spec(n: KeyType) -> Distr {
        arbitrary()
    }
}

impl Distr {
    /// The distribution of a certain value: the single outcome `n`.
    pub fn certain(n: KeyType) -> (r: Distr)
        ensures
            r@ == point(n as int),
    {
        let mut entries: Vec<(KeyType, Weight)> = Vec::new();
        entries.push((n, 1));
        let ghost m = entries_model(entries@);
        proof {
            assert(m =~= point(n as int));
            lemma_total_single((n as int, 1nat));
        }
        Distr { entries }
    }
}

/// Every power of one is one.
pub proof fn lemma_pow_of_one(e: nat)
    ensures
        pow(1, e) == 1,
    decreases e,
{
    reveal(pow);
    if e > 0 {
        lemma_pow_of_one((e - 1) as nat);
    }
}

/// The first moment of a fair die with `n` faces is `n * (n + 1) / 2`.
pub proof fn lemma_uniform_moment(n: int)
    requires
        n >= 0,
    ensures
        2 * first_moment(uniform(n)) == n * (n + 1),
    decreases n,
{
    if n > 0 {
        lemma_uniform_moment(n - 1);
        lemma_uniform(n);
        assert(uniform(n).drop_last() =~= uniform(n - 1));
        assert(uniform(n).last() == (n, 1nat));
        assert(2 * first_moment(uniform(n - 1)) + 2 * n == n * (n + 1)) by (nonlinear_arith)
            requires
                2 * first_moment(uniform(n - 1)) == (n - 1) * n,
        ;
    } else {
        assert(uniform(n).len() == 0);
    }
}

/// A fair die with `n > 0` faces has exactly the `n` outcomes `1..=n`, each
/// with the mass `1 / n`: its weight times `n` is the total weight. Its mean
/// is `(n + 1) / 2`.
pub proof fn law_uniform(n: int)
    requires
        n > 0,
    ensures
        uniform(n).len() == n,
        forall|x: int| has_outcome(uniform(n), x) <==> 1 <= x <= n,
        forall|x: int| 1 <= x <= n ==> weight_of(uniform(n), x) * n == total_weight(uniform(n)),
        total_weight(uniform(n)) > 0,
        2 * mean_of(uniform(n)).0 == (n + 1) * mean_of(uniform(n)).1,
{
    lemma_uniform(n);
    lemma_uniform_moment(n);
    let u = uniform(n);
    assert forall|x: int| (has_outcome(u, x) <==> 1 <= x <= n) && (1 <= x <= n ==> weight_of(u, x)
        * n == total_weight(u)) by {
        lemma_has_outcome(u, x);
        lemma_below_splits(u, x);
        if 1 <= x <= n {
            assert(u[x - 1] == (x, 1nat));
            assert(u[x - 1].0 == x);
            assert(below(u, x) == x - 1);
            assert(has_outcome(u, x));
            assert(weight_of(u, x) == 1);
            assert(1 * n == n);
        }
        if has_outcome(u, x) {
            let i = below(u, x);
            assert(u[i] == (i + 1, 1nat));
        }
    }
    assert(n * (n + 1) == (n + 1) * n) by (nonlinear_arith);
}

/// The sum of `k >= 1` throws of a die with `n > 0` faces, however many
/// and however large: it has the total weight `n^k`, which is positive, so
/// that its masses, each a weight over the total weight and none negative,
/// sum to one; its smallest outcome is `k` and its largest `k * n`, and no
/// value below `k` or above `k * n` has any weight.
pub proof fn law_stacked(k: int, n: int)
    requires
        k >= 1,
        n > 0,
    ensures
        total_weight(stacked(k, n)) == pow(n, k as nat),
        total_weight(stacked(k, n)) > 0,
        stacked(k, n).len() > 0,
        stacked(k, n).first().0 == k,
        stacked(k, n).last().0 == k * n,
        has_outcome(stacked(k, n), k),
        has_outcome(stacked(k, n), k * n),
        forall|x: int| has_outcome(stacked(k, n), x) ==> k <= x <= k * n,
        forall|x: int| x < k || x > k * n ==> weight_of(stacked(k, n), x) == 0,
{
    lemma_stacked(k, n);
    let s = stacked(k, n);
    assert forall|x: int| has_outcome(s, x) implies k <= x <= k * n by {
        lemma_below_splits(s, x);
        let i = below(s, x);
        assert(k <= s[i].0 <= k * n);
    }
    lemma_entry_is_outcome(s, 0);
    lemma_entry_is_outcome(s, s.len() - 1);
}

/// Combining two certain values by addition gives the certain value of
/// their sum.
pub proof fn law_combine_points(a: int, b: int)
    ensures
        scalar_of(point(a)) == Some(a),
        scalar_of(point(b)) == Some(b),
        combined(point(a), point(b), plus()) == point(a + b),
        scalar_of(combined(point(a), point(b), plus())) == Some(a + b),
{
    lemma_combined_point(a, b, plus());
}

/// Combining two certain values gives the certain value of what `f` makes
/// of them.
pub proof fn lemma_combined_point(a: int, b: int, f: spec_fn(int, int) -> int)
    ensures
        combined(point(a), point(b), f) == point(f(a, b)),
{
    let pa = point(a);
    let pb = point(b);
    let none = Seq::<(int, nat)>::empty();
    assert(combined_rows(pa, pb, f, 0) == none);
    assert(combined_row(none, pa[0], pb, f, 0) == none);
    assert(combined_row(none, pa[0], pb, f, 1) == accumulated(none, f(a, b), 1nat * 1nat));
    assert(below(none, f(a, b)) == 0);
    assert(accumulated(none, f(a, b), 1) =~= point(f(a, b)));
    assert(combined_rows(pa, pb, f, 1) == combined_row(none, pa[0], pb, f, 1));
}

} // verus!
