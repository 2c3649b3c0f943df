//! Coin selection and the transactions that pay from a wallet's outputs.
use vstd::prelude::*;

use crate::block::{OutPoint, Transaction, TxIn, TxOut};
use crate::error::ErrorWallet;

verus! {

/// The sum of `values` at the positions that `chosen` leaves out.
pub open spec fn unchosen_total(values: Seq<u64>, chosen: Seq<bool>) -> nat
    decreases values.len(),
{
    if values.len() == 0 {
        0
    } else {
        unchosen_total(values.drop_last(), chosen.drop_last()) + if chosen.last() {
            0
        } else {
            values.last() as nat
        }
    }
}

/// The sum of `values` at the positions `idx`.
pub open spec fn sum_at(values: Seq<u64>, idx: Seq<usize>) -> nat
    decreases idx.len(),
{
    if idx.len() == 0 {
        0
    } else {
        sum_at(values, idx.drop_last()) + values[idx.last() as int] as nat
    }
}

/// The sum of all of `values`.
pub open spec fn total(values: Seq<u64>) -> nat {
    unchosen_total(values, Seq::new(values.len(), |i: int| false))
}

proof fn lemma_unchosen_pick(values: Seq<u64>, chosen: Seq<bool>, m: int)
    requires
        values.len() == chosen.len(),
        0 <= m < values.len(),
        !chosen[m],
    ensures
        unchosen_total(values, chosen.update(m, true)) + values[m] == unchosen_total(values, chosen),
    decreases values.len(),
{
    let c2 = chosen.update(m, true);
    if m < values.len() - 1 {
        assert(c2.drop_last() =~= chosen.drop_last().update(m, true));
        lemma_unchosen_pick(values.drop_last(), chosen.drop_last(), m);
    } else {
        assert(c2.drop_last() =~= chosen.drop_last());
    }
}

proof fn lemma_unchosen_all_chosen(values: Seq<u64>, chosen: Seq<bool>)
    requires
        values.len() == chosen.len(),
        forall|i: int| 0 <= i < chosen.len() ==> chosen[i],
    ensures
        unchosen_total(values, chosen) == 0,
    decreases values.len(),
{
    if values.len() > 0 {
        lemma_unchosen_all_chosen(values.drop_last(), chosen.drop_last());
    }
}

/// What coin selection knows after picking `sel`, marked in `chosen`.
pub open spec fn selection_inv(values: Seq<u64>, chosen: Seq<bool>, sel: Seq<usize>, target: nat) -> bool {
    &&& chosen.len() == values.len()
    &&& values.len() <= usize::MAX
    &&& sum_at(values, sel) + unchosen_total(values, chosen) == total(values)
    &&& sel.len() <= values.len()
    &&& forall|j: int| 0 <= j < values.len() ==> (chosen[j] <==> sel.contains(j as usize))
    &&& forall|k: int| 0 <= k < sel.len() ==> #[trigger] sel[k] < values.len()
    &&& forall|k: int, l: int| 0 <= k < l < sel.len() ==> sel[k] != sel[l]
    &&& forall|k: int| 0 <= k < sel.len() ==> sum_at(values, #[trigger] sel.subrange(0, k)) < target
    &&& forall|k: int, j: int|
        #![trigger sel[k], values[j]]
        0 <= k < sel.len() && 0 <= j < values.len() && !sel.subrange(0, k).contains(j as usize)
            ==> values[j] <= values[sel[k] as int]
}

proof fn lemma_step_prefix_sums(values: Seq<u64>, sel: Seq<usize>, target: nat, m: usize)
    requires
        sum_at(values, sel) < target,
        forall|k: int| 0 <= k < sel.len() ==> sum_at(values, #[trigger] sel.subrange(0, k)) < target,
    ensures
        forall|k: int|
            0 <= k < sel.push(m).len() ==> sum_at(values, #[trigger] sel.push(m).subrange(0, k)) < target,
{
    let ns = sel.push(m);
    assert forall|k: int| 0 <= k < ns.len() implies sum_at(values, #[trigger] ns.subrange(0, k))
        < target by {
        if k < sel.len() {
            assert(ns.subrange(0, k) =~= sel.subrange(0, k));
        } else {
            assert(ns.subrange(0, k) =~= sel);
        }
    }
}

proof fn lemma_step_order(values: Seq<u64>, chosen: Seq<bool>, sel: Seq<usize>, m: usize)
    requires
        chosen.len() == values.len(),
        forall|j: int| 0 <= j < values.len() ==> (chosen[j] <==> sel.contains(j as usize)),
        forall|k: int, j: int|
            #![trigger sel[k], values[j]]
            0 <= k < sel.len() && 0 <= j < values.len() && !sel.subrange(0, k).contains(j as usize)
                ==> values[j] <= values[sel[k] as int],
        forall|q: int| 0 <= q < values.len() && !chosen[q] ==> values[q] <= values[m as int],
    ensures
        forall|k: int, j: int|
            #![trigger sel.push(m)[k], values[j]]
            0 <= k < sel.push(m).len() && 0 <= j < values.len() && !sel.push(m).subrange(0, k).contains(
                j as usize,
            ) ==> values[j] <= values[sel.push(m)[k] as int],
{
    let ns = sel.push(m);
    assert forall|k: int, q: int|
        #![trigger ns[k], values[q]]
        0 <= k < ns.len() && 0 <= q < values.len() && !ns.subrange(0, k).contains(q as usize) implies values[q]
        <= values[ns[k] as int] by {
        if k < sel.len() {
            assert(ns.subrange(0, k) =~= sel.subrange(0, k));
            assert(ns[k] == sel[k]);
        } else {
            assert(ns.subrange(0, k) =~= sel);
            assert(ns[k] == m);
            assert(chosen[q] == sel.contains(q as usize));
        }
    }
}

proof fn lemma_step_membership(values: Seq<u64>, chosen: Seq<bool>, sel: Seq<usize>, m: usize)
    requires
        chosen.len() == values.len(),
        values.len() <= usize::MAX,
        m < values.len(),
        forall|j: int| 0 <= j < values.len() ==> (chosen[j] <==> sel.contains(j as usize)),
    ensures
        forall|j: int|
            0 <= j < values.len() ==> (chosen.update(m as int, true)[j] <==> sel.push(m).contains(j as usize)),
{
    let ns = sel.push(m);
    let nc = chosen.update(m as int, true);
    assert forall|q: int| 0 <= q < values.len() implies (nc[q] <==> ns.contains(q as usize)) by {
        if q == m {
            assert(ns[ns.len() - 1] == m);
        } else if ns.contains(q as usize) {
            let w = choose|w: int| 0 <= w < ns.len() && ns[w] == q as usize;
            if w == sel.len() {
                assert(ns[w] == m);
                assert(false);
            }
            assert(ns[w] == sel[w]);
            assert(sel.contains(q as usize));
        } else {
            if chosen[q] {
                let w = choose|w: int| 0 <= w < sel.len() && sel[w] == q as usize;
                assert(ns[w] == q as usize);
            }
        }
    }
}

/// Picking the largest unchosen value while below the target keeps the invariant.
#[verifier::rlimit(50)]
proof fn lemma_select_step(values: Seq<u64>, chosen: Seq<bool>, sel: Seq<usize>, target: nat, m: usize)
    requires
        selection_inv(values, chosen, sel, target),
        sum_at(values, sel) < target,
        m < values.len(),
        !chosen[m as int],
        forall|q: int| 0 <= q < values.len() && !chosen[q] ==> values[q] <= values[m as int],
    ensures
        selection_inv(values, chosen.update(m as int, true), sel.push(m), target),
        sel.len() < values.len(),
{
    lemma_unchosen_pick(values, chosen, m as int);
    assert(!sel.contains(m));
    let ns = sel.push(m);
    assert(ns.drop_last() =~= sel);
    lemma_step_prefix_sums(values, sel, target, m);
    lemma_step_order(values, chosen, sel, m);
    lemma_step_membership(values, chosen, sel, m);
    assert forall|k: int, l: int| 0 <= k < l < ns.len() implies ns[k] != ns[l] by {
        if l == sel.len() {
            assert(sel.contains(sel[k]));
        }
    }
    assert forall|k: int| 0 <= k < ns.len() implies #[trigger] ns[k] < values.len() by {
        if k < sel.len() {
            assert(ns[k] == sel[k]);
        }
    }
    if sel.len() >= values.len() {
        lemma_pigeon(values.len(), sel, m as int);
    }
}

/// Distinct positions below `n`, `n` of them, cover every position below `n`.
proof fn lemma_pigeon(n: nat, sel: Seq<usize>, q: int)
    requires
        sel.len() >= n,
        0 <= q < n,
        forall|k: int| 0 <= k < sel.len() ==> #[trigger] sel[k] < n,
        forall|k: int, l: int| 0 <= k < l < sel.len() ==> sel[k] != sel[l],
    ensures
        sel.contains(q as usize),
{
    if !sel.contains(q as usize) {
        let d = vstd::set_lib::set_int_range(0, n as int);
        vstd::set_lib::lemma_int_range(0, n as int);
        let f = |k: int| sel[k] as int;
        assert(vstd::relations::injective_on(f, d));
        let img = d.map(f);
        vstd::set_lib::lemma_map_size(d, img, f);
        let r = d.remove(q);
        assert forall|x: int| img.contains(x) implies r.contains(x) by {
            let k = choose|k: int| d.contains(k) && f(k) == x;
            assert(sel[k] < n);
            assert(sel[k] != q as usize);
        }
        vstd::set_lib::lemma_len_subset(img, r);
        assert(false);
    }
}

/// Picks outputs largest first until their values cover `amount + fee`;
/// returns their positions in the order picked.
pub fn select_coins(values: &Vec<u64>, amount: u64, fee: u64) -> (r: Result<Vec<usize>, ErrorWallet>)
    ensures
        r is Err <==> total(values@) < amount + fee,
        r matches Err(e) ==> e == ErrorWallet::InsufficientFunds,
        r matches Ok(sel) ==> {
            &&& sum_at(values@, sel@) >= amount + fee
            &&& sum_at(values@, sel@) <= total(values@)
            &&& forall|k: int| 0 <= k < sel@.len() ==> #[trigger] sel@[k] < values@.len()
            &&& forall|k: int, l: int| 0 <= k < l < sel@.len() ==> sel@[k] != sel@[l]
            &&& forall|k: int|
                0 <= k < sel@.len() ==> sum_at(values@, #[trigger] sel@.subrange(0, k)) < amount + fee
            &&& forall|k: int, j: int|
                #![trigger sel@[k], values@[j]]
                0 <= k < sel@.len() && 0 <= j < values@.len() && !sel@.subrange(0, k).contains(j as usize)
                    ==> values@[j] <= values@[sel@[k] as int]
        },
{
    let target: u128 = amount as u128 + fee as u128;
    let n = values.len();
    let mut chosen: Vec<bool> = Vec::new();
    let mut i: usize = 0;
    while i < n
        invariant
            n == values@.len(),
            i <= n,
            chosen@ == Seq::new(i as nat, |j: int| false),
        decreases n - i,
    {
        chosen.push(false);
        i = i + 1;
        assert(chosen@ =~= Seq::new(i as nat, |j: int| false));
    }
    let mut sel: Vec<usize> = Vec::new();
    let mut sum: u128 = 0;
    proof {
        assert(sel@.subrange(0, 0) =~= sel@);
    }
    while sum < target
        invariant
            n == values@.len(),
            target == amount + fee,
            sum == sum_at(values@, sel@),
            sum <= sel@.len() * 0xFFFF_FFFF_FFFF_FFFF,
            selection_inv(values@, chosen@, sel@, target as nat),
        decreases n - sel@.len(),
    {
        let mut best: Option<usize> = None;
        let mut j: usize = 0;
        while j < n
            invariant
                n == values@.len(),
                chosen@.len() == n,
                j <= n,
                best matches Some(b) ==> b < j && !chosen@[b as int] && forall|q: int|
                    0 <= q < j && !chosen@[q] ==> values@[q] <= values@[b as int],
                best is None ==> forall|q: int| 0 <= q < j ==> chosen@[q],
            decreases n - j,
        {
            if !chosen[j] {
                match best {
                    Some(b) => {
                        if values[j] > values[b] {
                            best = Some(j);
                        }
                    },
                    None => {
                        best = Some(j);
                    },
                }
            }
            j = j + 1;
        }
        let m = match best {
            Some(m) => m,
            None => {
                proof {
                    lemma_unchosen_all_chosen(values@, chosen@);
                }
                return Err(ErrorWallet::InsufficientFunds);
            },
        };
        proof {
            lemma_select_step(values@, chosen@, sel@, target as nat, m);
            assert(sel@.push(m).drop_last() =~= sel@);
        }
        chosen.set(m, true);
        sel.push(m);
        sum = sum + values[m] as u128;
        proof {
            assert(sum <= sel@.len() * 0xFFFF_FFFF_FFFF_FFFF) by (nonlinear_arith)
                requires
                    sum <= (sel@.len() - 1) * 0xFFFF_FFFF_FFFF_FFFF + 0xFFFF_FFFF_FFFF_FFFF,
            ;
        }
    }
    proof {
        assert(unchosen_total(values@, chosen@) >= 0);
    }
    Ok(sel)
}


/// An output that the wallet can spend, and its value in satoshis.
#[derive(Debug, Clone, Copy, PartialEq, Eq)]
pub struct Utxo {
    pub outpoint: OutPoint,
    pub value: u64,
}

/// The values of the outputs.
pub open spec fn utxo_values(utxos: Seq<Utxo>) -> Seq<u64> {
    utxos.map_values(|u: Utxo| u.value)
}

/// The sum of the values that the outputs pay.
pub open spec fn outputs_total(outs: Seq<TxOut>) -> int
    decreases outs.len(),
{
    if outs.len() == 0 {
        0
    } else {
        outputs_total(outs.drop_last()) + outs.last().value
    }
}

fn copy_bytes(b: &Vec<u8>) -> (r: Vec<u8>)
    ensures
        r@ == b@,
{
    let mut r: Vec<u8> = Vec::new();
    crate::codec::write_bytes(b, &mut r);
    assert(r@ =~= b@);
    r
}

/// Pays `amount` to `recipient_script` from `utxos`, picked largest first to
/// cover `amount + fee`; what is left over after the fee goes back to
/// `change_script` in a second output. The inputs are left unsigned.
pub fn create_transaction(
    utxos: &Vec<Utxo>,
    recipient_script: &Vec<u8>,
    change_script: &Vec<u8>,
    amount: u64,
    fee: u64,
) -> (r: Result<Transaction, ErrorWallet>)
    ensures
        r == Err::<Transaction, ErrorWallet>(ErrorWallet::InsufficientFunds) <==> total(
            utxo_values(utxos@),
        ) < amount + fee,
        r == Err::<Transaction, ErrorWallet>(ErrorWallet::InvalidAmount) ==> amount > i64::MAX
            || total(utxo_values(utxos@)) - amount - fee > i64::MAX,
        r matches Ok(tx) ==> exists|sel: Seq<usize>|
            {
                &&& sel.len() == tx.inputs@.len()
                &&& forall|k: int| 0 <= k < sel.len() ==> #[trigger] sel[k] < utxos@.len()
                &&& forall|k: int, l: int| 0 <= k < l < sel.len() ==> sel[k] != sel[l]
                &&& forall|k: int|
                    0 <= k < sel.len() ==> (#[trigger] tx.inputs@[k]).previous_output == utxos@[sel[k] as int].outpoint
                &&& sum_at(utxo_values(utxos@), sel) == outputs_total(tx.outputs@) + fee
                &&& sum_at(utxo_values(utxos@), sel) >= amount + fee
            },
        r matches Ok(tx) ==> tx.outputs@.len() >= 1 && tx.outputs@[0].value == amount
            && tx.outputs@[0].script_pubkey@ == recipient_script@,
{
    let mut values: Vec<u64> = Vec::new();
    let mut i: usize = 0;
    while i < utxos.len()
        invariant
            i <= utxos@.len(),
            values@ == utxo_values(utxos@.subrange(0, i as int)),
        decreases utxos@.len() - i,
    {
        values.push(utxos[i].value);
        i = i + 1;
        assert(values@ =~= utxo_values(utxos@.subrange(0, i as int)));
    }
    assert(utxos@.subrange(0, i as int) =~= utxos@);
    let sel = match select_coins(&values, amount, fee) {
        Ok(sel) => sel,
        Err(e) => return Err(e),
    };
    let mut sum: u128 = 0;
    let mut inputs: Vec<TxIn> = Vec::new();
    let mut k: usize = 0;
    while k < sel.len()
        invariant
            values@ == utxo_values(utxos@),
            k <= sel@.len(),
            forall|q: int| 0 <= q < sel@.len() ==> #[trigger] sel@[q] < values@.len(),
            sum == sum_at(values@, sel@.subrange(0, k as int)),
            sum <= k * 0xFFFF_FFFF_FFFF_FFFF,
            inputs@.len() == k,
            forall|q: int|
                0 <= q < k ==> (#[trigger] inputs@[q]).previous_output == utxos@[sel@[q] as int].outpoint,
        decreases sel@.len() - k,
    {
        let u = utxos[sel[k]];
        inputs.push(TxIn { previous_output: u.outpoint, script_sig: Vec::new(), sequence: 0xFFFF_FFFF });
        sum = sum + u.value as u128;
        assert(sel@.subrange(0, k + 1).drop_last() =~= sel@.subrange(0, k as int));
        k = k + 1;
        assert(sum <= k * 0xFFFF_FFFF_FFFF_FFFF) by (nonlinear_arith)
            requires
                sum <= (k - 1) * 0xFFFF_FFFF_FFFF_FFFF + 0xFFFF_FFFF_FFFF_FFFF,
        ;
    }
    assert(sel@.subrange(0, k as int) =~= sel@);
    let change: u128 = sum - amount as u128 - fee as u128;
    proof {
        assert(sum <= total(values@));
    }
    if amount > i64::MAX as u64 || change > i64::MAX as u128 {
        return Err(ErrorWallet::InvalidAmount);
    }
    let mut outputs: Vec<TxOut> = Vec::new();
    outputs.push(TxOut { value: amount as i64, script_pubkey: copy_bytes(recipient_script) });
    if change > 0 {
        outputs.push(TxOut { value: change as i64, script_pubkey: copy_bytes(change_script) });
    }
    proof {
        reveal_with_fuel(outputs_total, 3);
        if change > 0 {
            assert(outputs@.drop_last().drop_last() =~= Seq::<TxOut>::empty());
        } else {
            assert(outputs@.drop_last() =~= Seq::<TxOut>::empty());
        }
    }
    let tx = Transaction { version: 1, inputs, outputs, lock_time: 0 };
    proof {
        assert(sum_at(utxo_values(utxos@), sel@) == outputs_total(tx.outputs@) + fee);
    }
    Ok(tx)
}

} // verus!
