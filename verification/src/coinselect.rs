//! Coin selection: pure functions choosing a subset of unspent outputs to
//! satisfy a target amount and a per-input fee, with no cache mutation.
//! Strategies are mutually substitutable: deterministic for fixed inputs (a
//! randomized strategy takes an explicit seed), and each terminates with a
//! sufficient selection or an explicit insufficiency error — an insufficient
//! selection is never mistaken for a sufficient one.

use vstd::prelude::*;
use crate::data::UtxoStatus;
use crate::data::WalletUtxo;
use crate::wallet::WalletCache;

verus! {

/// Coin selection cannot meet the target: no selection is returned.
#[derive(Clone, Copy, PartialEq, Eq, Structural, Debug)]
pub enum SelectionError {
    Insufficient,
}

/// A chosen subset of unspent outputs, its total value, the fee implied by
/// its size, and the residual reported as implied change when it exceeds the
/// dust threshold. The engine never constructs or mutates a change output.
#[derive(Clone, PartialEq, Eq, Debug)]
pub struct Selection {
    pub coins: Vec<WalletUtxo>,
    pub total: u128,
    pub fee: u128,
    pub change: Option<u128>,
}

/// Sum of output values.
pub open spec fn sum_values(s: Seq<WalletUtxo>) -> int
    decreases s.len(),
{
    if s.len() == 0 {
        0
    } else {
        sum_values(s.drop_last()) + s.last().value
    }
}

/// Values are non-increasing.
pub open spec fn sorted_desc(s: Seq<WalletUtxo>) -> bool {
    forall|i: int, j: int| 0 <= i < j < s.len() ==> #[trigger] s[i].value >= #[trigger] s[j].value
}

/// Pairwise distinct outpoints.
pub open spec fn distinct_outpoints(s: Seq<WalletUtxo>) -> bool {
    forall|i: int, j: int|
        0 <= i < j < s.len() ==> #[trigger] s[i].outpoint != #[trigger] s[j].outpoint
}

/// Whether a selection already holds a coin at an outpoint.
pub open spec fn selected_outpoint(coins: Seq<WalletUtxo>, o: crate::data::Outpoint) -> bool {
    exists|k: int| 0 <= k < coins.len() && #[trigger] coins[k].outpoint == o
}

/// What a valid returned selection promises against the candidate set: every
/// chosen coin is one of the candidates and unspent, no outpoint is chosen
/// twice, the recorded total is the exact sum, the fee is per-input, the
/// total suffices, and the residual above the dust threshold is reported as
/// implied change.
pub open spec fn selection_ok(
    sel: Selection,
    candidates: Seq<WalletUtxo>,
    target: u64,
    fee_rate: u64,
    dust: u64,
) -> bool {
    &&& distinct_outpoints(sel.coins@)
    &&& (forall|j: int|
        0 <= j < sel.coins@.len() ==> candidates.contains(#[trigger] sel.coins@[j])
            && sel.coins@[j].status == UtxoStatus::Unspent)
    &&& sel.total == sum_values(sel.coins@)
    &&& sel.fee == fee_rate as int * sel.coins@.len()
    &&& sel.total >= target + sel.fee
    &&& sel.change == (if sel.total > target + sel.fee + dust {
        Some((sel.total - target - sel.fee) as u128)
    } else {
        None::<u128>
    })
}

proof fn lemma_sum_values_push(s: Seq<WalletUtxo>, x: WalletUtxo)
    ensures
        sum_values(s.push(x)) == sum_values(s) + x.value,
{
    assert(s.push(x).drop_last() =~= s);
}

proof fn lemma_sum_values_nonneg(s: Seq<WalletUtxo>)
    ensures
        sum_values(s) >= 0,
    decreases s.len(),
{
    if s.len() > 0 {
        lemma_sum_values_nonneg(s.drop_last());
    }
}

proof fn lemma_sum_values_bound(s: Seq<WalletUtxo>)
    ensures
        sum_values(s) <= s.len() * (u64::MAX as int),
    decreases s.len(),
{
    if s.len() > 0 {
        lemma_sum_values_bound(s.drop_last());
        assert(s.len() * (u64::MAX as int) == (s.len() - 1) * (u64::MAX as int) + (
        u64::MAX as int)) by (nonlinear_arith);
    }
}

/// Picks the position of the largest-value (or, when `smallest` is set, the
/// smallest-value) coin of a nonempty working set.
fn pick_extreme(work: &Vec<WalletUtxo>, smallest: bool) -> (r: usize)
    requires
        work@.len() > 0,
    ensures
        0 <= r < work@.len(),
        !smallest ==> forall|j: int| 0 <= j < work@.len() ==> #[trigger] work@[j].value <= work@[
            r as int
        ].value,
        smallest ==> forall|j: int| 0 <= j < work@.len() ==> #[trigger] work@[j].value >= work@[
            r as int
        ].value,
{
    let n = work.len();
    let mut best: usize = 0;
    let mut j: usize = 1;
    while j < n
        invariant
            n == work@.len(),
            0 <= best < n,
            1 <= j <= n,
            !smallest ==> forall|m: int| 0 <= m < j ==> #[trigger] work@[m].value <= work@[
                best as int
            ].value,
            smallest ==> forall|m: int| 0 <= m < j ==> #[trigger] work@[m].value >= work@[
                best as int
            ].value,
        decreases n - j,
    {
        if !smallest && work[j].value > work[best].value {
            best = j;
        }
        if smallest && work[j].value < work[best].value {
            best = j;
        }
        j += 1;
    }
    best
}

/// Greedy selection over a working set, taking the extreme-value coin first
/// until the total covers target plus the per-input fee of the selection
/// size. Returns a sufficient selection, or the insufficiency error exactly
/// when even the whole working set cannot cover target and fees.
#[verifier::rlimit(100)]
fn select_greedy(work: Vec<WalletUtxo>, target: u64, fee_rate: u64, dust: u64, smallest: bool) -> (r:
    Result<Selection, SelectionError>)
    requires
        distinct_outpoints(work@),
        forall|j: int| 0 <= j < work@.len() ==> #[trigger] work@[j].status == UtxoStatus::Unspent,
    ensures
        r matches Ok(sel) ==> selection_ok(sel, work@, target, fee_rate, dust),
        r is Err ==> sum_values(work@) < target + fee_rate as int * work@.len(),
        !smallest ==> (r matches Ok(sel) ==> sorted_desc(sel.coins@)),
        r matches Ok(sel) ==> forall|k: int|
            0 <= k < sel.coins@.len() ==> sum_values(sel.coins@.take(k)) < target
                + fee_rate as int * k,
        !smallest ==> (r matches Ok(sel) ==> forall|i: int, j: int|
            0 <= i < work@.len() && 0 <= j < sel.coins@.len() && !selected_outpoint(
                sel.coins@,
                work@[i].outpoint,
            ) ==> #[trigger] work@[i].value <= #[trigger] sel.coins@[j].value),
        smallest ==> (r matches Ok(sel) ==> forall|i: int, j: int|
            0 <= i < work@.len() && 0 <= j < sel.coins@.len() && !selected_outpoint(
                sel.coins@,
                work@[i].outpoint,
            ) ==> #[trigger] work@[i].value >= #[trigger] sel.coins@[j].value),
{
    let ghost orig = work@;
    let mut work = work;
    let mut sel: Vec<WalletUtxo> = Vec::new();
    let mut total: u128 = 0;
    loop
        invariant
            distinct_outpoints(orig),
            forall|j: int| 0 <= j < orig.len() ==> #[trigger] orig[j].status == UtxoStatus::Unspent,
            forall|j: int| 0 <= j < work@.len() ==> orig.contains(#[trigger] work@[j]),
            forall|j: int| 0 <= j < sel@.len() ==> orig.contains(#[trigger] sel@[j]),
            distinct_outpoints(work@),
            distinct_outpoints(sel@),
            forall|j: int, k: int|
                0 <= j < sel@.len() && 0 <= k < work@.len() ==> #[trigger] sel@[j].outpoint
                    != #[trigger] work@[k].outpoint,
            sel@.len() + work@.len() == orig.len(),
            total == sum_values(sel@),
            sum_values(sel@) + sum_values(work@) == sum_values(orig),
            forall|k: int|
                0 <= k < sel@.len() ==> sum_values(sel@.take(k)) < target + fee_rate as int * k,
            !smallest ==> sorted_desc(sel@),
            !smallest ==> (forall|j: int, k: int|
                0 <= j < sel@.len() && 0 <= k < work@.len() ==> #[trigger] sel@[j].value
                    >= #[trigger] work@[k].value),
            smallest ==> (forall|j: int, k: int|
                0 <= j < sel@.len() && 0 <= k < work@.len() ==> #[trigger] sel@[j].value
                    <= #[trigger] work@[k].value),
            forall|i: int|
                0 <= i < orig.len() ==> selected_outpoint(sel@, (#[trigger] orig[i]).outpoint)
                    || work@.contains(orig[i]),
        ensures
            forall|k2: int|
                0 <= k2 < sel@.len() ==> sum_values(sel@.take(k2)) < target + fee_rate as int * k2,
            forall|i: int|
                0 <= i < orig.len() ==> selected_outpoint(sel@, (#[trigger] orig[i]).outpoint)
                    || work@.contains(orig[i]),
            !smallest ==> (forall|j: int, k: int|
                0 <= j < sel@.len() && 0 <= k < work@.len() ==> #[trigger] sel@[j].value
                    >= #[trigger] work@[k].value),
            smallest ==> (forall|j: int, k: int|
                0 <= j < sel@.len() && 0 <= k < work@.len() ==> #[trigger] sel@[j].value
                    <= #[trigger] work@[k].value),
            (total == sum_values(sel@) && total >= target + fee_rate as int * sel@.len()
                && distinct_outpoints(sel@) && (forall|j: int|
                0 <= j < sel@.len() ==> orig.contains(#[trigger] sel@[j])) && (!smallest
                ==> sorted_desc(sel@))) || (work@.len() == 0 && sum_values(orig) < target
                + fee_rate as int * orig.len()),
        decreases work@.len(),
    {
        let k = sel.len();
        proof {
            lemma_sum_values_nonneg(work@);
            lemma_sum_values_bound(sel@);
            assert(k <= 0xffff_ffff_ffff_ffffu64 as int);
            assert(sel@.len() * (u64::MAX as int) <= u128::MAX - u64::MAX) by (nonlinear_arith)
                requires
                    0 <= sel@.len() <= 0xffff_ffff_ffff_ffffu64 as int,
            ;
            assert((fee_rate as int) * (k as int) >= 0 && (fee_rate as int) * (k as int) + (
            u64::MAX as int) < u128::MAX) by (nonlinear_arith)
                requires
                    0 <= fee_rate <= u64::MAX as int && 0 <= k <= 0xffff_ffff_ffff_ffffu64 as int,
            ;
        }
        let fee: u128 = (fee_rate as u128) * (k as u128);
        if total >= (target as u128) + fee {
            proof {
                assert(total >= target + fee_rate as int * sel@.len());
            }
            break;
        }
        if work.len() == 0 {
            proof {
                assert(sel@.len() == orig.len());
                assert(sel@.take(sel@.len() as int) =~= sel@);
                assert(sum_values(orig) == sum_values(sel@) + sum_values(work@));
                assert(sum_values(work@) == 0);
                assert(sum_values(orig) < target + fee_rate as int * orig.len());
            }
            break;
        }
        let pick = pick_extreme(&work, smallest);
        let c = work[pick];
        let ghost wpre = work@;
        let removed = work.swap_remove(pick);
        let ghost spre = sel@;
        sel.push(removed);
        proof {
            assert(removed == c);
            lemma_sum_values_push(spre, c);
            // the working set shrank by exactly the picked coin
            assert(work@ =~= wpre.update(pick as int, wpre.last()).drop_last());
            assert forall|j: int| 0 <= j < work@.len() implies orig.contains(#[trigger] work@[j])
                by {
                if j == pick as int {
                    assert(work@[j] == wpre[wpre.len() - 1]);
                } else {
                    assert(work@[j] == wpre[j]);
                }
            }
            assert forall|j: int, k2: int|
                0 <= j < work@.len() && 0 <= k2 < work@.len() && j != k2 implies #[trigger] work@[
                j
            ].outpoint != #[trigger] work@[k2].outpoint by {
                let j0 = if j == pick as int {
                    wpre.len() - 1
                } else {
                    j
                };
                let k0 = if k2 == pick as int {
                    wpre.len() - 1
                } else {
                    k2
                };
                assert(work@[j] == wpre[j0] && work@[k2] == wpre[k0]);
            }
            assert(sum_values(sel@) + sum_values(work@) == sum_values(orig)) by {
                lemma_sum_swap_remove(wpre, pick as int);
            }
            assert(sel@.take(sel@.len() - 1) =~= spre);
            assert forall|k2: int|
                0 <= k2 < sel@.len() implies sum_values(sel@.take(k2)) < target + fee_rate as int
                * k2 by {
                if k2 < sel@.len() - 1 {
                    assert(sel@.take(k2) =~= spre.take(k2));
                } else {
                    assert(sel@.take(k2) =~= spre);
                }
            }
            assert forall|i: int|
                0 <= i < orig.len() implies selected_outpoint(sel@, (#[trigger] orig[i]).outpoint)
                    || work@.contains(orig[i]) by {
                if selected_outpoint(spre, orig[i].outpoint) {
                    let w = choose|w: int|
                        0 <= w < spre.len() && #[trigger] spre[w].outpoint == orig[i].outpoint;
                    assert(sel@[w].outpoint == orig[i].outpoint);
                } else if wpre.contains(orig[i]) {
                    let m = choose|m: int| 0 <= m < wpre.len() && wpre[m] == orig[i];
                    if m == pick as int {
                        assert(sel@[sel@.len() - 1].outpoint == orig[i].outpoint);
                    } else if m == wpre.len() - 1 {
                        assert(work@[pick as int] == wpre[wpre.len() - 1]);
                        assert(work@.contains(orig[i]));
                    } else {
                        assert(work@[m] == wpre[m]);
                        assert(work@.contains(orig[i]));
                    }
                }
            }
        }
        total = total + removed.value as u128;
    }
    let klast = sel.len();
    proof {
        lemma_sum_values_nonneg(sel@);
        lemma_sum_values_bound(sel@);
        assert(klast <= 0xffff_ffff_ffff_ffffu64 as int);
        assert(sel@.len() * (u64::MAX as int) <= u128::MAX - u64::MAX) by (nonlinear_arith)
            requires
                0 <= sel@.len() <= 0xffff_ffff_ffff_ffffu64 as int,
        ;
        assert((fee_rate as int) * (klast as int) >= 0 && (fee_rate as int) * (klast as int) + (
        u64::MAX as int) < u128::MAX) by (nonlinear_arith)
            requires
                0 <= fee_rate <= u64::MAX as int && 0 <= klast <= 0xffff_ffff_ffff_ffffu64 as int,
        ;
    }
    let fee: u128 = (fee_rate as u128) * (klast as u128);
    if work.len() == 0 && total < (target as u128) + fee {
        return Err(SelectionError::Insufficient);
    }
    let change: Option<u128> = if total > (target as u128) + fee + (dust as u128) {
        Some(total - (target as u128) - fee)
    } else {
        None
    };
    proof {
        assert forall|i: int, j: int|
            0 <= i < orig.len() && 0 <= j < sel@.len() && !selected_outpoint(
                sel@,
                orig[i].outpoint,
            ) && !smallest implies #[trigger] orig[i].value <= #[trigger] sel@[j].value by {
            assert(work@.contains(orig[i]));
            let m = choose|m: int| 0 <= m < work@.len() && work@[m] == orig[i];
            assert(sel@[j].value >= work@[m].value);
        }
        assert forall|i: int, j: int|
            0 <= i < orig.len() && 0 <= j < sel@.len() && !selected_outpoint(
                sel@,
                orig[i].outpoint,
            ) && smallest implies #[trigger] orig[i].value >= #[trigger] sel@[j].value by {
            assert(work@.contains(orig[i]));
            let m = choose|m: int| 0 <= m < work@.len() && work@[m] == orig[i];
            assert(sel@[j].value <= work@[m].value);
        }
    }
    Ok(Selection { coins: sel, total, fee, change })
}

proof fn lemma_sum_swap_remove(s: Seq<WalletUtxo>, i: int)
    requires
        0 <= i < s.len(),
    ensures
        sum_values(s.update(i, s.last()).drop_last()) == sum_values(s) - s[i].value,
    decreases s.len(),
{
    if i == s.len() - 1 {
        assert(s.update(i, s.last()).drop_last() =~= s.drop_last());
    } else {
        let t = s.update(i, s.last()).drop_last();
        let d = s.drop_last();
        assert(t =~= d.update(i, s.last()));
        lemma_sum_update(d, i, s.last());
    }
}

proof fn lemma_sum_update(s: Seq<WalletUtxo>, i: int, x: WalletUtxo)
    requires
        0 <= i < s.len(),
    ensures
        sum_values(s.update(i, x)) == sum_values(s) - s[i].value + x.value,
    decreases s.len(),
{
    if i == s.len() - 1 {
        assert(s.update(i, x).drop_last() =~= s.drop_last());
    } else {
        assert(s.update(i, x).drop_last() =~= s.drop_last().update(i, x));
        lemma_sum_update(s.drop_last(), i, x);
    }
}

/// The unspent outputs a spend may draw on: all unspent base outputs,
/// excluding outputs carrying an overlay asset tag unless explicitly
/// requested.
pub fn candidate_coins(cache: &WalletCache, include_tagged: bool) -> (r: Vec<WalletUtxo>)
    requires
        cache@.wf(),
    ensures
        distinct_outpoints(r@),
        forall|j: int|
            0 <= j < r@.len() ==> cache@.utxos.contains(#[trigger] r@[j]) && r@[j].status
                == UtxoStatus::Unspent && (include_tagged || r@[j].tag is None),
        forall|j: int|
            0 <= j < cache@.utxos.len() && #[trigger] cache@.utxos[j].status == UtxoStatus::Unspent
                && (include_tagged || cache@.utxos[j].tag is None) ==> r@.contains(
                cache@.utxos[j],
            ),
{
    let n = cache.utxos.len();
    let mut out: Vec<WalletUtxo> = Vec::new();
    let mut j: usize = 0;
    while j < n
        invariant
            n == cache.utxos@.len(),
            0 <= j <= n,
            crate::wallet::utxos_unique(cache@.utxos),
            distinct_outpoints(out@),
            forall|m: int|
                0 <= m < out@.len() ==> exists|w: int|
                    0 <= w < j && #[trigger] out@[m] == cache@.utxos[w],
            forall|m: int|
                0 <= m < out@.len() ==> #[trigger] out@[m].status == UtxoStatus::Unspent && (
                include_tagged || out@[m].tag is None),
            forall|m: int|
                0 <= m < j && #[trigger] cache@.utxos[m].status == UtxoStatus::Unspent && (
                include_tagged || cache@.utxos[m].tag is None) ==> out@.contains(cache@.utxos[m]),
        decreases n - j,
    {
        let u = cache.utxos[j];
        let keep = u.is_unspent() && (include_tagged || match u.tag {
            None => true,
            Some(_) => false,
        });
        if keep {
            let ghost pre = out@;
            out.push(u);
            proof {
                assert(out@[out@.len() - 1] == cache@.utxos[j as int]);
                assert forall|m: int| 0 <= m < out@.len() implies exists|w: int|
                    0 <= w < j + 1 && #[trigger] out@[m] == cache@.utxos[w] by {
                    if m < out@.len() - 1 {
                        assert(out@[m] == pre[m]);
                        let w0 = choose|w0: int| 0 <= w0 < j && pre[m] == cache@.utxos[w0];
                        assert(out@[m] == cache@.utxos[w0]);
                    } else {
                        assert(out@[m] == cache@.utxos[j as int]);
                    }
                }
                assert forall|m: int, w: int|
                    0 <= m < w < out@.len() implies #[trigger] out@[m].outpoint != #[trigger] out@[
                    w
                ].outpoint by {
                    if w == out@.len() - 1 {
                        assert(out@[m] == pre[m]);
                        let wi = choose|wi: int| 0 <= wi < j && pre[m] == cache@.utxos[wi];
                        if out@[m].outpoint == cache@.utxos[j as int].outpoint {
                            assert(cache@.utxos[wi].outpoint == cache@.utxos[j as int].outpoint);
                        }
                    } else {
                        assert(out@[m] == pre[m] && out@[w] == pre[w]);
                    }
                }
                assert forall|m: int|
                    0 <= m < j + 1 && #[trigger] cache@.utxos[m].status == UtxoStatus::Unspent && (
                    include_tagged || cache@.utxos[m].tag is None) implies out@.contains(
                    cache@.utxos[m],
                ) by {
                    if m < j {
                        assert(pre.contains(cache@.utxos[m]));
                        let w0 = choose|w0: int| 0 <= w0 < pre.len() && pre[w0] == cache@.utxos[m];
                        assert(out@[w0] == cache@.utxos[m]);
                    } else {
                        assert(out@[out@.len() - 1] == cache@.utxos[m]);
                    }
                }
            }
        } else {
            proof {
                assert forall|m: int|
                    0 <= m < j + 1 && #[trigger] cache@.utxos[m].status == UtxoStatus::Unspent && (
                    include_tagged || cache@.utxos[m].tag is None) implies out@.contains(
                    cache@.utxos[m],
                ) by {
                    assert(m < j);
                }
            }
        }
        j += 1;
    }
    proof {
        assert forall|m: int| 0 <= m < out@.len() implies cache@.utxos.contains(#[trigger] out@[m])
            by {
            let w0 = choose|w0: int| 0 <= w0 < n && out@[m] == cache@.utxos[w0];
        }
    }
    out
}

/// Largest-first greedy selection: descending by value, minimizing input
/// count. Deterministic. The returned selection is pinned: it is sorted
/// descending, every proper prefix of it is insufficient (so it never takes
/// a coin too many), and every unselected candidate's value is at most every
/// selected one's (so it always takes the largest available). Returns the
/// insufficiency error — never a partial selection — exactly when even the
/// whole candidate set cannot cover target plus fees.
pub fn select_largest_first(
    candidates: &Vec<WalletUtxo>,
    target: u64,
    fee_rate: u64,
    dust: u64,
) -> (r: Result<Selection, SelectionError>)
    requires
        distinct_outpoints(candidates@),
        forall|j: int|
            0 <= j < candidates@.len() ==> #[trigger] candidates@[j].status == UtxoStatus::Unspent,
    ensures
        r matches Ok(sel) ==> selection_ok(sel, candidates@, target, fee_rate, dust) && sorted_desc(
            sel.coins@,
        ),
        r matches Ok(sel) ==> forall|k: int|
            0 <= k < sel.coins@.len() ==> sum_values(sel.coins@.take(k)) < target
                + fee_rate as int * k,
        r matches Ok(sel) ==> forall|i: int, j: int|
            0 <= i < candidates@.len() && 0 <= j < sel.coins@.len() && !selected_outpoint(
                sel.coins@,
                candidates@[i].outpoint,
            ) ==> #[trigger] candidates@[i].value <= #[trigger] sel.coins@[j].value,
        r is Err ==> sum_values(candidates@) < target + fee_rate as int * candidates@.len(),
{
    let work = clone_coins(candidates);
    select_greedy(work, target, fee_rate, dust, false)
}

/// Smallest-first greedy selection: ascending by value, favoring
/// consolidation. Deterministic, same sufficiency contract; pinned the same
/// way with the value bound reversed (it always takes the smallest
/// available, and never a coin too many).
pub fn select_smallest_first(
    candidates: &Vec<WalletUtxo>,
    target: u64,
    fee_rate: u64,
    dust: u64,
) -> (r: Result<Selection, SelectionError>)
    requires
        distinct_outpoints(candidates@),
        forall|j: int|
            0 <= j < candidates@.len() ==> #[trigger] candidates@[j].status == UtxoStatus::Unspent,
    ensures
        r matches Ok(sel) ==> selection_ok(sel, candidates@, target, fee_rate, dust),
        r matches Ok(sel) ==> forall|k: int|
            0 <= k < sel.coins@.len() ==> sum_values(sel.coins@.take(k)) < target
                + fee_rate as int * k,
        r matches Ok(sel) ==> forall|i: int, j: int|
            0 <= i < candidates@.len() && 0 <= j < sel.coins@.len() && !selected_outpoint(
                sel.coins@,
                candidates@[i].outpoint,
            ) ==> #[trigger] candidates@[i].value >= #[trigger] sel.coins@[j].value,
        r is Err ==> sum_values(candidates@) < target + fee_rate as int * candidates@.len(),
{
    let work = clone_coins(candidates);
    select_greedy(work, target, fee_rate, dust, true)
}

/// Anti-fingerprinting selection: takes candidates in an order drawn from an
/// explicit seed, so it is deterministic for a fixed seed. Same sufficiency
/// contract.
pub fn select_shuffled(
    candidates: &Vec<WalletUtxo>,
    target: u64,
    fee_rate: u64,
    dust: u64,
    seed: u64,
) -> (r: Result<Selection, SelectionError>)
    requires
        distinct_outpoints(candidates@),
        forall|j: int|
            0 <= j < candidates@.len() ==> #[trigger] candidates@[j].status == UtxoStatus::Unspent,
    ensures
        r matches Ok(sel) ==> selection_ok(sel, candidates@, target, fee_rate, dust),
        r matches Ok(sel) ==> forall|k: int|
            0 <= k < sel.coins@.len() ==> sum_values(sel.coins@.take(k)) < target
                + fee_rate as int * k,
        r is Err ==> sum_values(candidates@) < target + fee_rate as int * candidates@.len(),
{
    let mut work = clone_coins(candidates);
    // a linear-congruential walk over positions; a permutation of the coins
    let n = work.len();
    let mut state: u64 = seed;
    let mut j: usize = 0;
    let ghost orig = work@;
    while j < n
        invariant
            n == work@.len(),
            0 <= j <= n,
            distinct_outpoints(work@),
            forall|m: int| 0 <= m < work@.len() ==> orig.contains(#[trigger] work@[m]),
            forall|m: int| 0 <= m < work@.len() ==> #[trigger] work@[m].status
                == UtxoStatus::Unspent,
            sum_values(work@) == sum_values(orig),
        decreases n - j,
    {
        state = state.wrapping_mul(6364136223846793005).wrapping_add(1442695040888963407);
        let pick = j + ((state % ((n - j) as u64)) as usize);
        assert(j <= pick < n);
        let a = work[j];
        let b = work[pick];
        let ghost pre = work@;
        work[j] = b;
        work[pick] = a;
        proof {
            if j != pick {
                assert(work@ =~= pre.update(j as int, pre[pick as int]).update(
                    pick as int,
                    pre[j as int],
                ));
            } else {
                assert(work@ =~= pre);
            }
            lemma_sum_swap(pre, j as int, pick as int);
            assert forall|m: int| 0 <= m < work@.len() implies orig.contains(#[trigger] work@[m])
                by {
                if m == j as int {
                    assert(work@[m] == pre[pick as int]);
                } else if m == pick as int {
                    assert(work@[m] == pre[j as int]);
                } else {
                    assert(work@[m] == pre[m]);
                }
            }
            assert forall|m: int, w: int|
                0 <= m < w < work@.len() implies #[trigger] work@[m].outpoint != #[trigger] work@[
                w
            ].outpoint by {
                let m0 = if m == j as int {
                    pick as int
                } else if m == pick as int {
                    j as int
                } else {
                    m
                };
                let w0 = if w == j as int {
                    pick as int
                } else if w == pick as int {
                    j as int
                } else {
                    w
                };
                assert(work@[m] == pre[m0] && work@[w] == pre[w0]);
            }
        }
        j += 1;
    }
    // take in shuffled order until sufficient
    select_in_order(work, target, fee_rate, dust, Ghost(orig))
}

proof fn lemma_sum_swap(s: Seq<WalletUtxo>, i: int, j: int)
    requires
        0 <= i <= j < s.len(),
    ensures
        sum_values(
            if i == j {
                s
            } else {
                s.update(i, s[j]).update(j, s[i])
            },
        ) == sum_values(s),
{
    if i != j {
        lemma_sum_update(s, i, s[j]);
        lemma_sum_update(s.update(i, s[j]), j, s[i]);
        assert(s.update(i, s[j])[j] == s[j]);
    }
}

/// Takes coins in the given order until the total covers target plus fees.
#[verifier::rlimit(100)]
fn select_in_order(
    work: Vec<WalletUtxo>,
    target: u64,
    fee_rate: u64,
    dust: u64,
    Ghost(orig): Ghost<Seq<WalletUtxo>>,
) -> (r: Result<Selection, SelectionError>)
    requires
        distinct_outpoints(work@),
        forall|j: int| 0 <= j < work@.len() ==> #[trigger] work@[j].status == UtxoStatus::Unspent,
        forall|j: int| 0 <= j < work@.len() ==> orig.contains(#[trigger] work@[j]),
        sum_values(work@) == sum_values(orig),
        work@.len() == orig.len(),
    ensures
        r matches Ok(sel) ==> selection_ok(sel, orig, target, fee_rate, dust),
        r matches Ok(sel) ==> forall|k: int|
            0 <= k < sel.coins@.len() ==> sum_values(sel.coins@.take(k)) < target
                + fee_rate as int * k,
        r is Err ==> sum_values(orig) < target + fee_rate as int * orig.len(),
{
    let n = work.len();
    let mut sel: Vec<WalletUtxo> = Vec::new();
    let mut total: u128 = 0;
    let mut j: usize = 0;
    let mut enough = false;
    loop
        invariant_except_break
            !enough,
        invariant
            n == work@.len(),
            work@.len() == orig.len(),
            distinct_outpoints(work@),
            forall|m: int| 0 <= m < work@.len() ==> #[trigger] work@[m].status
                == UtxoStatus::Unspent,
            forall|m: int| 0 <= m < work@.len() ==> orig.contains(#[trigger] work@[m]),
            sum_values(work@) == sum_values(orig),
            0 <= j <= n,
            sel@ == work@.take(j as int),
            total == sum_values(sel@),
            forall|k2: int|
                0 <= k2 < j ==> sum_values(work@.take(k2)) < target + fee_rate as int * k2,
        ensures
            n == work@.len(),
            sel@ == work@.take(j as int),
            total == sum_values(sel@),
            distinct_outpoints(work@),
            forall|m: int| 0 <= m < work@.len() ==> #[trigger] work@[m].status
                == UtxoStatus::Unspent,
            forall|m: int| 0 <= m < work@.len() ==> orig.contains(#[trigger] work@[m]),
            forall|k2: int|
                0 <= k2 < j ==> sum_values(work@.take(k2)) < target + fee_rate as int * k2,
            enough ==> total >= target + fee_rate as int * sel@.len(),
            !enough ==> j == n && sum_values(orig) < target + fee_rate as int * orig.len(),
        decreases n - j,
    {
        proof {
            lemma_sum_values_bound(sel@);
            assert(j <= 0xffff_ffff_ffff_ffffu64 as int);
            assert(sel@.len() * (u64::MAX as int) <= u128::MAX - u64::MAX) by (nonlinear_arith)
                requires
                    0 <= sel@.len() <= 0xffff_ffff_ffff_ffffu64 as int,
            ;
            assert((fee_rate as int) * (j as int) >= 0 && (fee_rate as int) * (j as int) + (
            u64::MAX as int) < u128::MAX) by (nonlinear_arith)
                requires
                    0 <= fee_rate <= u64::MAX as int && 0 <= j <= 0xffff_ffff_ffff_ffffu64 as int,
            ;
            assert(sel@.len() == j);
        }
        let fee: u128 = (fee_rate as u128) * (j as u128);
        if total >= (target as u128) + fee {
            enough = true;
            break;
        }
        if j == n {
            proof {
                assert(work@.take(n as int) =~= work@);
                assert(sum_values(orig) < target + fee_rate as int * orig.len());
            }
            break;
        }
        proof {
            assert(work@.take(j + 1 as int).drop_last() =~= work@.take(j as int));
            assert(work@.take(j + 1 as int).last() == work@[j as int]);
            assert(sum_values(work@.take(j as int)) < target + fee_rate as int * j);
            lemma_sum_values_nonneg(sel@);
        }
        sel.push(work[j]);
        total = total + work[j].value as u128;
        j += 1;
    }
    if !enough {
        return Err(SelectionError::Insufficient);
    }
    proof {
        assert forall|m: int, w: int|
            0 <= m < w < sel@.len() implies #[trigger] sel@[m].outpoint != #[trigger] sel@[
            w
        ].outpoint by {
            assert(sel@[m] == work@[m] && sel@[w] == work@[w]);
        }
        assert forall|m: int| 0 <= m < sel@.len() implies orig.contains(#[trigger] sel@[m]) by {
            assert(sel@[m] == work@[m]);
        }
        assert forall|k2: int|
            0 <= k2 < sel@.len() implies sum_values(sel@.take(k2)) < target + fee_rate as int
            * k2 by {
            assert(sel@.take(k2) =~= work@.take(k2));
        }
        lemma_sum_values_bound(sel@);
        assert(sel@.len() <= 0xffff_ffff_ffff_ffffu64 as int);
        assert(sel@.len() * (u64::MAX as int) <= u128::MAX - u64::MAX) by (nonlinear_arith)
            requires
                0 <= sel@.len() <= 0xffff_ffff_ffff_ffffu64 as int,
        ;
        assert((fee_rate as int) * (sel@.len() as int) >= 0 && (fee_rate as int) * (
        sel@.len() as int) + (u64::MAX as int) < u128::MAX) by (nonlinear_arith)
            requires
                0 <= fee_rate <= u64::MAX as int && 0 <= sel@.len()
                    <= 0xffff_ffff_ffff_ffffu64 as int,
        ;
    }
    let fee: u128 = (fee_rate as u128) * (sel.len() as u128);
    let change: Option<u128> = if total > (target as u128) + fee + (dust as u128) {
        Some(total - (target as u128) - fee)
    } else {
        None
    };
    Ok(Selection { coins: sel, total, fee, change })
}

/// Branch-and-bound selection: a bounded exhaustive search over subsets of
/// the candidate set for a sufficient selection minimizing the leftover
/// waste (total minus target minus fee), the exact or near-exact match of a
/// small target against a dust threshold. Tie-break, fixed here: among
/// equally wasteful sufficient subsets, the one met first in enumeration
/// order wins (combinations of lower-indexed candidates first, the whole set
/// as the fallback seed); beyond sixteen candidates the bounded search is
/// skipped and largest-first answers. Deterministic; same sufficiency
/// contract as the other strategies.
#[verifier::rlimit(100)]
pub fn select_bnb(candidates: &Vec<WalletUtxo>, target: u64, fee_rate: u64, dust: u64) -> (r:
    Result<Selection, SelectionError>)
    requires
        distinct_outpoints(candidates@),
        forall|j: int|
            0 <= j < candidates@.len() ==> #[trigger] candidates@[j].status == UtxoStatus::Unspent,
    ensures
        r matches Ok(sel) ==> selection_ok(sel, candidates@, target, fee_rate, dust),
        r is Err ==> sum_values(candidates@) < target + fee_rate as int * candidates@.len(),
{
    let n = candidates.len();
    if n > 16 {
        return select_largest_first(candidates, target, fee_rate, dust);
    }
    // feasibility of the whole set, which also seeds the search
    let mut total_all: u128 = 0;
    let mut j: usize = 0;
    while j < n
        invariant
            n == candidates@.len(),
            n <= 16,
            0 <= j <= n,
            total_all == sum_values(candidates@.take(j as int)),
            total_all <= j * (u64::MAX as int),
        decreases n - j,
    {
        proof {
            assert(candidates@.take(j + 1 as int).drop_last() =~= candidates@.take(j as int));
            assert(candidates@.take(j + 1 as int).last() == candidates@[j as int]);
            assert((j + 1) * (u64::MAX as int) == j * (u64::MAX as int) + (u64::MAX as int))
                by (nonlinear_arith);
        }
        total_all = total_all + candidates[j].value as u128;
        j += 1;
    }
    proof {
        assert(candidates@.take(n as int) =~= candidates@);
        assert((fee_rate as int) * (n as int) >= 0 && (fee_rate as int) * (n as int) + (
        u64::MAX as int) < u128::MAX) by (nonlinear_arith)
            requires
                0 <= fee_rate <= u64::MAX as int && 0 <= n <= 16,
        ;
    }
    let fee_all: u128 = (fee_rate as u128) * (n as u128);
    if total_all < (target as u128) + fee_all {
        return Err(SelectionError::Insufficient);
    }
    let mut best_coins = clone_coins(candidates);
    let mut best_total: u128 = total_all;
    let mut best_waste: u128 = total_all - (target as u128) - fee_all;
    proof {
        assert forall|m: int| 0 <= m < best_coins@.len() implies candidates@.contains(
            #[trigger] best_coins@[m],
        ) by {
            assert(best_coins@[m] == candidates@[m]);
        }
    }
    let lim: u32 = 1u32 << (n as u32);
    let mut mask: u32 = 0;
    while mask < lim
        invariant
            n == candidates@.len(),
            n <= 16,
            distinct_outpoints(candidates@),
            forall|w: int|
                0 <= w < candidates@.len() ==> #[trigger] candidates@[w].status
                    == UtxoStatus::Unspent,
            distinct_outpoints(best_coins@),
            forall|m: int|
                0 <= m < best_coins@.len() ==> candidates@.contains(#[trigger] best_coins@[m])
                    && best_coins@[m].status == UtxoStatus::Unspent,
            best_coins@.len() <= 16,
            best_total == sum_values(best_coins@),
            best_total >= target + fee_rate as int * best_coins@.len(),
            best_waste == best_total - target - fee_rate as int * best_coins@.len(),
        decreases lim - mask,
    {
        let mut sub: Vec<WalletUtxo> = Vec::new();
        let mut t: u128 = 0;
        let mut j: usize = 0;
        while j < n
            invariant
                n == candidates@.len(),
                n <= 16,
                distinct_outpoints(candidates@),
                forall|w: int|
                    0 <= w < candidates@.len() ==> #[trigger] candidates@[w].status
                        == UtxoStatus::Unspent,
                0 <= j <= n,
                sub@.len() <= j,
                t == sum_values(sub@),
                t <= j * (u64::MAX as int),
                distinct_outpoints(sub@),
                forall|m: int|
                    0 <= m < sub@.len() ==> exists|w: int|
                        0 <= w < j && #[trigger] sub@[m] == candidates@[w],
            decreases n - j,
        {
            proof {
                assert((j + 1) * (u64::MAX as int) == j * (u64::MAX as int) + (u64::MAX as int))
                    by (nonlinear_arith);
            }
            if ((mask >> (j as u32)) & 1) == 1 {
                let ghost pre = sub@;
                sub.push(candidates[j]);
                proof {
                    lemma_sum_values_push(pre, candidates@[j as int]);
                    assert forall|m: int| 0 <= m < sub@.len() implies exists|w: int|
                        0 <= w < j + 1 && #[trigger] sub@[m] == candidates@[w] by {
                        if m < sub@.len() - 1 {
                            assert(sub@[m] == pre[m]);
                            let w0 = choose|w0: int| 0 <= w0 < j && pre[m] == candidates@[w0];
                            assert(sub@[m] == candidates@[w0]);
                        } else {
                            assert(sub@[m] == candidates@[j as int]);
                        }
                    }
                    assert forall|m: int, w: int|
                        0 <= m < w < sub@.len() implies #[trigger] sub@[m].outpoint
                            != #[trigger] sub@[w].outpoint by {
                        if w == sub@.len() - 1 {
                            assert(sub@[m] == pre[m]);
                            let wi = choose|wi: int| 0 <= wi < j && pre[m] == candidates@[wi];
                            if sub@[m].outpoint == candidates@[j as int].outpoint {
                                assert(candidates@[wi].outpoint
                                    == candidates@[j as int].outpoint);
                            }
                        } else {
                            assert(sub@[m] == pre[m] && sub@[w] == pre[w]);
                        }
                    }
                }
                t = t + candidates[j].value as u128;
            }
            j += 1;
        }
        let k = sub.len();
        proof {
            assert((fee_rate as int) * (k as int) >= 0 && (fee_rate as int) * (k as int) + (
            u64::MAX as int) < u128::MAX) by (nonlinear_arith)
                requires
                    0 <= fee_rate <= u64::MAX as int && 0 <= k <= 16,
            ;
        }
        let fee_k: u128 = (fee_rate as u128) * (k as u128);
        if t >= (target as u128) + fee_k {
            let w = t - (target as u128) - fee_k;
            if w < best_waste {
                proof {
                    assert forall|m: int| 0 <= m < sub@.len() implies candidates@.contains(
                        #[trigger] sub@[m],
                    ) && sub@[m].status == UtxoStatus::Unspent by {
                        let w0 = choose|w0: int| 0 <= w0 < n && sub@[m] == candidates@[w0];
                        assert(candidates@[w0].status == UtxoStatus::Unspent);
                    }
                }
                best_coins = sub;
                best_total = t;
                best_waste = w;
            }
        }
        mask = mask + 1;
    }
    let klast = best_coins.len();
    proof {
        assert((fee_rate as int) * (klast as int) >= 0 && (fee_rate as int) * (klast as int) + 2
            * (u64::MAX as int) < u128::MAX) by (nonlinear_arith)
            requires
                0 <= fee_rate <= u64::MAX as int && 0 <= klast <= 16,
        ;
    }
    let fee: u128 = (fee_rate as u128) * (klast as u128);
    let change: Option<u128> = if best_total > (target as u128) + fee + (dust as u128) {
        Some(best_total - (target as u128) - fee)
    } else {
        None
    };
    Ok(Selection { coins: best_coins, total: best_total, fee, change })
}

fn clone_coins(v: &Vec<WalletUtxo>) -> (r: Vec<WalletUtxo>)
    ensures
        r@ == v@,
{
    let r = v.clone();
    proof {
        assert forall|i: int| 0 <= i < v@.len() implies r@[i] == v@[i] by {
            assert(cloned::<WalletUtxo>(v@[i], r@[i]));
        }
        assert(r@ =~= v@);
    }
    r
}

} // verus!
