//! The state machine behind the typestate builders of MIR nodes.
//!
//! A builder state records which fields of a node have been set. Fields whose type already has a
//! neutral value (`BackLink<T>`, `Vec<T>`, `Link<Vec<T>>`) start as set; the others start unset.
//! The states are all the ways of setting the unset fields, listed by the number of fields set
//! and then by their leftmost set fields. The transition table maps
//! a state and a field to the state reached by setting that field.
use vstd::prelude::*;

verus! {

/// The enum that a derived node is wrapped into when it is built.
pub enum EnumWrapper {
    Op,
    Root,
}

/// The head of a field's type, as far as the builder needs to know it.
#[derive(Copy, Clone, PartialEq, Eq, Structural, Debug)]
pub enum TypeHead {
    BackLink,
    Vec,
    Link,
    Other,
}

/// `2^n`.
pub open spec fn pow2(n: nat) -> nat
    decreases n,
{
    if n == 0 {
        1
    } else {
        2 * pow2((n - 1) as nat)
    }
}

/// The binary value of a row, entry `i` weighing `2^i`.
pub open spec fn weight(s: Seq<bool>) -> nat
    decreases s.len(),
{
    if s.len() == 0 {
        0
    } else {
        (if s[0] {
            1nat
        } else {
            0nat
        }) + 2 * weight(s.drop_first())
    }
}

/// The number of `true` entries of a row.
pub open spec fn popcount(s: Seq<bool>) -> nat
    decreases s.len(),
{
    if s.len() == 0 {
        0
    } else {
        (if s[0] {
            1nat
        } else {
            0nat
        }) + popcount(s.drop_first())
    }
}

/// The `n` low bits of `v`, least significant first.
pub open spec fn bits_of(v: nat, n: nat) -> Seq<bool>
    decreases n,
{
    if n == 0 {
        seq![]
    } else {
        seq![v % 2 == 1] + bits_of(v / 2, (n - 1) as nat)
    }
}

/// The binary value of a row read from its first entry, which weighs the most.
pub open spec fn lead_weight(s: Seq<bool>) -> nat {
    weight(s.reverse())
}

/// The row of `n` entries whose [lead_weight] is `v`.
pub open spec fn lead_bits(v: nat, n: nat) -> Seq<bool> {
    bits_of(v, n).reverse()
}

/// The order of the builder states: by number of `true` entries, then by leftmost `true`
/// entries: of two rows, the one whose first differing entry is `true` comes first.
pub open spec fn key_lt(a: Seq<bool>, b: Seq<bool>) -> bool {
    ||| popcount(a) < popcount(b)
    ||| (popcount(a) == popcount(b) && lead_weight(a) > lead_weight(b))
}

/// `rows` lists every row of length `n` once, in increasing `key_lt` order.
pub open spec fn is_layered_listing(rows: Seq<Seq<bool>>, n: nat) -> bool {
    &&& forall|j: int| 0 <= j < rows.len() ==> (#[trigger] rows[j]).len() == n
    &&& forall|j: int, k: int| 0 <= j < k < rows.len() ==> key_lt(#[trigger] rows[j], #[trigger] rows[k])
    &&& forall|s: Seq<bool>| s.len() == n ==> exists|j: int| 0 <= j < rows.len() && #[trigger] rows[j] == s
}

/// The rows of a vector of rows.
pub open spec fn rows_of(v: Seq<Vec<bool>>) -> Seq<Seq<bool>> {
    v.map_values(|r: Vec<bool>| r@)
}

proof fn lemma_bits_len(v: nat, n: nat)
    ensures
        bits_of(v, n).len() == n,
    decreases n,
{
    if n > 0 {
        lemma_bits_len(v / 2, (n - 1) as nat);
    }
}

proof fn lemma_pow2_pos(n: nat)
    ensures
        pow2(n) >= 1,
    decreases n,
{
    if n > 0 {
        lemma_pow2_pos((n - 1) as nat);
    }
}

proof fn lemma_weight_bits(v: nat, n: nat)
    requires
        v < pow2(n),
    ensures
        weight(bits_of(v, n)) == v,
    decreases n,
{
    if n > 0 {
        let b = bits_of(v, n);
        lemma_bits_len(v, n);
        assert(b.drop_first() =~= bits_of(v / 2, (n - 1) as nat));
        lemma_weight_bits(v / 2, (n - 1) as nat);
    }
}

proof fn lemma_bits_weight(s: Seq<bool>)
    ensures
        bits_of(weight(s), s.len()) == s,
        weight(s) < pow2(s.len()),
    decreases s.len(),
{
    if s.len() > 0 {
        let t = s.drop_first();
        lemma_bits_weight(t);
        let w = weight(s);
        assert(w % 2 == 1 <==> s[0]);
        assert(w / 2 == weight(t));
        assert(bits_of(w, s.len()) =~= seq![w % 2 == 1] + bits_of(w / 2, t.len()));
        assert(s =~= seq![s[0]] + t);
    }
}

/// The row of the `n` low bits of `v`, with its number of `true` entries.
fn row_of(v: u64, n: usize) -> (res: (Vec<bool>, usize))
    ensures
        res.0@ == bits_of(v as nat, n as nat),
        res.1 == popcount(bits_of(v as nat, n as nat)),
{
    let mut row: Vec<bool> = Vec::new();
    let mut pc: usize = 0;
    let mut cur: u64 = v;
    let mut i: usize = 0;
    while i < n
        invariant
            i <= n,
            pc <= i,
            row@ + bits_of(cur as nat, (n - i) as nat) == bits_of(v as nat, n as nat),
            pc + popcount(bits_of(cur as nat, (n - i) as nat)) == popcount(
                bits_of(v as nat, n as nat),
            ),
        decreases n - i,
    {
        let bit = cur % 2 == 1;
        proof {
            let m = (n - i) as nat;
            let rest = bits_of((cur / 2) as nat, (m - 1) as nat);
            assert(bits_of(cur as nat, m) == seq![bit] + rest);
            assert((seq![bit] + rest).drop_first() =~= rest);
            assert(row@.push(bit) + rest =~= row@ + (seq![bit] + rest));
        }
        row.push(bit);
        if bit {
            pc = pc + 1;
        }
        cur = cur / 2;
        i = i + 1;
    }
    proof {
        assert(row@ + bits_of(cur as nat, 0) =~= row@);
    }
    (row, pc)
}

/// `2^n` as a `u64`.
fn pow2_u64(n: usize) -> (r: u64)
    requires
        n < 32,
    ensures
        r == pow2(n as nat),
        r <= 0x8000_0000,
{
    let mut r: u64 = 1;
    let mut i: usize = 0;
    proof {
        reveal_with_fuel(pow2, 32);
        assert(pow2(31) == 0x8000_0000);
    }
    while i < n
        invariant
            i <= n < 32,
            r == pow2(i as nat),
            r * pow2((31 - i) as nat) == 0x8000_0000,
        decreases n - i,
    {
        proof {
            let p = pow2((31 - i - 1) as nat);
            assert(pow2((31 - i) as nat) == 2 * p);
            assert(r * (2 * p) == (2 * r) * p) by (nonlinear_arith);
            lemma_pow2_pos((31 - i - 1) as nat);
            assert(2 * r <= 0x8000_0000) by (nonlinear_arith)
                requires
                    (2 * r) * p == 0x8000_0000,
                    p >= 1,
            ;
        }
        r = r * 2;
        i = i + 1;
    }
    proof {
        lemma_pow2_pos((31 - i) as nat);
        assert(r <= 0x8000_0000) by (nonlinear_arith)
            requires
                r * pow2((31 - i) as nat) == 0x8000_0000,
                pow2((31 - i) as nat) >= 1,
        ;
    }
    r
}

/// How many of the rows `lead_bits(w, n)`, for `w` from `lo` up to (not including) `hi`, have
/// exactly `k` (`exact`) or fewer than `k` (not `exact`) `true` entries.
pub open spec fn count_rows(n: nat, k: nat, exact: bool, lo: nat, hi: nat) -> nat
    decreases hi - lo,
{
    if lo >= hi {
        0
    } else {
        count_rows(n, k, exact, (lo + 1) as nat, hi) + (if (exact && popcount(lead_bits(lo, n)) == k) || (!exact
            && popcount(lead_bits(lo, n)) < k) {
            1nat
        } else {
            0nat
        })
    }
}

/// The rows with fewer than `k` and those with exactly `k` entries are those with fewer than
/// `k + 1`.
proof fn lemma_count_rows_layer(n: nat, k: nat, lo: nat, hi: nat)
    ensures
        count_rows(n, k, false, lo, hi) + count_rows(n, k, true, lo, hi) == count_rows(n, k + 1, false, lo, hi),
    decreases hi - lo,
{
    if lo < hi {
        lemma_count_rows_layer(n, k, (lo + 1) as nat, hi);
    }
}

/// No row has fewer than no `true` entries.
proof fn lemma_count_rows_none(n: nat, lo: nat, hi: nat)
    ensures
        count_rows(n, 0, false, lo, hi) == 0,
    decreases hi - lo,
{
    if lo < hi {
        lemma_count_rows_none(n, (lo + 1) as nat, hi);
    }
}

/// Every row of `n` entries has fewer than `n + 1` `true` entries.
proof fn lemma_count_rows_all(n: nat, lo: nat, hi: nat)
    requires
        hi <= pow2(n),
    ensures
        count_rows(n, n + 1, false, lo, hi) == if lo < hi {
            (hi - lo) as nat
        } else {
            0nat
        },
    decreases hi - lo,
{
    if lo < hi {
        lemma_count_rows_all(n, (lo + 1) as nat, hi);
        lemma_lead_bits(lo, n);
        lemma_popcount_le(lead_bits(lo, n));
    }
}

/// Generate a sorted list of all possible states for the builder struct: every row of `n`
/// booleans, by number of `true` values, then by leftmost `true` values (of two rows, the one
/// whose first differing entry is `true` comes first). With `n == 0` the list is
/// `[[false], [true]]`.
pub fn sorted_leftmost_layered_gray_codes(n: usize) -> (codes: Vec<Vec<bool>>)
    requires
        n < 32,
    ensures
        n == 0 ==> rows_of(codes@) == seq![seq![false], seq![true]],
        n > 0 ==> is_layered_listing(rows_of(codes@), n as nat),
        n > 0 ==> codes.len() == pow2(n as nat),
{
    if n == 0 {
        let mut lo: Vec<bool> = Vec::new();
        lo.push(false);
        let mut hi: Vec<bool> = Vec::new();
        hi.push(true);
        let mut codes: Vec<Vec<bool>> = Vec::new();
        codes.push(lo);
        codes.push(hi);
        assert(codes@[0]@ =~= seq![false]);
        assert(codes@[1]@ =~= seq![true]);
        assert(rows_of(codes@) =~= seq![seq![false], seq![true]]);
        return codes;
    }
    let total = pow2_u64(n);
    let mut codes: Vec<Vec<bool>> = Vec::new();
    let mut k: usize = 0;
    proof {
        lemma_count_rows_none(n as nat, 0, pow2(n as nat));
    }
    while k <= n
        invariant
            0 < n < 32,
            total == pow2(n as nat),
            k <= n + 1,
            forall|j: int| 0 <= j < codes.len() ==> (#[trigger] codes@[j])@.len() == n,
            forall|j: int| 0 <= j < codes.len() ==> popcount((#[trigger] codes@[j])@) < k,
            forall|j: int, l: int|
                0 <= j < l < codes.len() ==> key_lt((#[trigger] codes@[j])@, (#[trigger] codes@[l])@),
            forall|w: nat|
                w < pow2(n as nat) && popcount(#[trigger] lead_bits(w, n as nat)) < k ==> exists|j: int|
                    0 <= j < codes.len() && (#[trigger] codes@[j])@ == lead_bits(w, n as nat),
            codes.len() == count_rows(n as nat, k as nat, false, 0, pow2(n as nat)),
        decreases n + 1 - k,
    {
        let mut v: u64 = total;
        while v > 0
            invariant
                0 < n < 32,
                total == pow2(n as nat),
                k <= n,
                v <= total,
                forall|j: int| 0 <= j < codes.len() ==> (#[trigger] codes@[j])@.len() == n,
                forall|j: int|
                    0 <= j < codes.len() ==> popcount((#[trigger] codes@[j])@) < k || (popcount(
                        codes@[j]@,
                    ) == k && lead_weight(codes@[j]@) >= v),
                forall|j: int, l: int|
                    0 <= j < l < codes.len() ==> key_lt(
                        (#[trigger] codes@[j])@,
                        (#[trigger] codes@[l])@,
                    ),
                forall|w: nat|
                    w < pow2(n as nat) && (popcount(#[trigger] lead_bits(w, n as nat)) < k || (
                    popcount(lead_bits(w, n as nat)) == k && w >= v)) ==> exists|j: int|
                        0 <= j < codes.len() && (#[trigger] codes@[j])@ == lead_bits(w, n as nat),
                codes.len() == count_rows(n as nat, k as nat, false, 0, pow2(n as nat)) + count_rows(
                    n as nat,
                    k as nat,
                    true,
                    v as nat,
                    pow2(n as nat),
                ),
            decreases v,
        {
            v = v - 1;
            let (row, pc) = lead_row_of(v, n);
            proof {
                lemma_lead_bits(v as nat, n as nat);
            }
            if pc == k {
                let ghost old_codes = codes@;
                codes.push(row);
                proof {
                    assert(codes@[old_codes.len() as int]@ == lead_bits(v as nat, n as nat));
                    assert forall|j: int| 0 <= j < old_codes.len() implies codes@[j] == old_codes[j] by {}
                    assert forall|w: nat|
                        w < pow2(n as nat) && (popcount(#[trigger] lead_bits(w, n as nat)) < k || (
                        popcount(lead_bits(w, n as nat)) == k && w >= v)) implies exists|j: int|
                        0 <= j < codes.len() && (#[trigger] codes@[j])@ == lead_bits(w, n as nat) by {
                        if w == v {
                            assert(codes@[old_codes.len() as int]@ == lead_bits(w, n as nat));
                        } else {
                            let j = choose|j: int|
                                0 <= j < old_codes.len() && (#[trigger] old_codes[j])@ == lead_bits(
                                    w,
                                    n as nat,
                                );
                            assert(codes@[j] == old_codes[j]);
                        }
                    }
                }
            }
        }
        proof {
            lemma_count_rows_layer(n as nat, k as nat, 0, pow2(n as nat));
            assert forall|w: nat|
                w < pow2(n as nat) && popcount(#[trigger] lead_bits(w, n as nat)) < k + 1 implies exists|j: int|
                0 <= j < codes.len() && (#[trigger] codes@[j])@ == lead_bits(w, n as nat) by {
                assert(w < total);
            }
        }
        k = k + 1;
    }
    proof {
        lemma_count_rows_all(n as nat, 0, pow2(n as nat));
        let rows = rows_of(codes@);
        assert forall|s: Seq<bool>| s.len() == n implies exists|j: int|
            0 <= j < rows.len() && #[trigger] rows[j] == s by {
            let w = lead_weight(s);
            lemma_bits_weight(s.reverse());
            assert(s.reverse().reverse() =~= s);
            assert(lead_bits(w, n as nat) == s);
            lemma_popcount_le(s);
            assert(popcount(lead_bits(w, n as nat)) < k);
            let j = choose|j: int| 0 <= j < codes.len() && (#[trigger] codes@[j])@ == lead_bits(w, n as nat);
            assert(rows[j] == s);
        }
        assert forall|j: int, l: int| 0 <= j < l < rows.len() implies key_lt(#[trigger] rows[j], #[trigger] rows[l]) by {
            assert(key_lt(codes@[j]@, codes@[l]@));
        }
    }
    codes
}

/// A row with one more entry has one more `true` entry where that entry is `true`.
proof fn lemma_popcount_push(s: Seq<bool>, x: bool)
    ensures
        popcount(s.push(x)) == popcount(s) + (if x {
            1nat
        } else {
            0nat
        }),
    decreases s.len(),
{
    if s.len() > 0 {
        assert(s.push(x).drop_first() =~= s.drop_first().push(x));
        lemma_popcount_push(s.drop_first(), x);
    } else {
        assert(s.push(x).drop_first() =~= s);
    }
}

/// Reversing a row keeps its number of `true` entries.
proof fn lemma_popcount_reverse(s: Seq<bool>)
    ensures
        popcount(s.reverse()) == popcount(s),
    decreases s.len(),
{
    if s.len() > 0 {
        let t = s.drop_first();
        assert(s.reverse() =~= t.reverse().push(s[0]));
        lemma_popcount_reverse(t);
        lemma_popcount_push(t.reverse(), s[0]);
    }
}

/// The row [lead_bits] of `v` has `n` entries, and [lead_weight] `v`.
proof fn lemma_lead_bits(v: nat, n: nat)
    requires
        v < pow2(n),
    ensures
        lead_bits(v, n).len() == n,
        lead_weight(lead_bits(v, n)) == v,
        popcount(lead_bits(v, n)) == popcount(bits_of(v, n)),
{
    lemma_bits_len(v, n);
    lemma_weight_bits(v, n);
    assert(bits_of(v, n).reverse().reverse() =~= bits_of(v, n));
    lemma_popcount_reverse(bits_of(v, n));
}

/// The row of the `n` low bits of `v`, most significant first, with its number of `true`
/// entries.
fn lead_row_of(v: u64, n: usize) -> (res: (Vec<bool>, usize))
    ensures
        res.0@ == lead_bits(v as nat, n as nat),
        res.1 == popcount(lead_bits(v as nat, n as nat)),
{
    let (low, pc) = row_of(v, n);
    let mut row: Vec<bool> = Vec::new();
    let mut i: usize = low.len();
    while i > 0
        invariant
            i <= low.len(),
            row@ =~= low@.reverse().take((low.len() - i) as int),
        decreases i,
    {
        i = i - 1;
        row.push(low[i]);
        assert(row@ =~= low@.reverse().take((low.len() - i) as int));
    }
    proof {
        assert(row@ =~= low@.reverse());
        lemma_popcount_reverse(low@);
    }
    (row, pc)
}

pub proof fn lemma_popcount_le(s: Seq<bool>)
    ensures
        popcount(s) <= s.len(),
    decreases s.len(),
{
    if s.len() > 0 {
        lemma_popcount_le(s.drop_first());
    }
}


/// The positions of the `false` entries of `init`, in increasing order.
pub open spec fn unset_positions(init: Seq<bool>) -> Seq<int>
    decreases init.len(),
{
    if init.len() == 0 {
        seq![]
    } else {
        unset_positions(init.drop_last()) + (if !init.last() {
            seq![init.len() - 1]
        } else {
            seq![]
        })
    }
}

/// The entries of `s` at the given positions.
pub open spec fn restrict(s: Seq<bool>, positions: Seq<int>) -> Seq<bool> {
    Seq::new(positions.len(), |c: int| s[positions[c]])
}

/// `s` is a state reachable from `init`: same length, and every field set in `init` is set.
pub open spec fn admissible(init: Seq<bool>, s: Seq<bool>) -> bool {
    s.len() == init.len() && forall|i: int| 0 <= i < init.len() && init[i] ==> #[trigger] s[i]
}

/// The number of `false` entries of a row.
pub open spec fn count_unset(s: Seq<bool>) -> nat {
    unset_positions(s).len()
}

/// A fresh vector holding the entries of `row`.
fn copy_row(row: &[bool]) -> (r: Vec<bool>)
    ensures
        r@ == row@,
{
    let mut r: Vec<bool> = Vec::new();
    let mut i: usize = 0;
    while i < row.len()
        invariant
            i <= row.len(),
            r@ == row@.take(i as int),
        decreases row.len() - i,
    {
        r.push(row[i]);
        assert(r@ =~= row@.take(i + 1));
        i = i + 1;
    }
    assert(row@.take(row.len() as int) =~= row@);
    r
}

/// Does `rows` hold the row `row`?
fn contains_row(rows: &Vec<Vec<bool>>, row: &Vec<bool>) -> (r: bool)
    ensures
        r == exists|j: int| 0 <= j < rows.len() && (#[trigger] rows@[j])@ == row@,
{
    let mut j: usize = 0;
    while j < rows.len()
        invariant
            j <= rows.len(),
            forall|l: int| 0 <= l < j ==> (#[trigger] rows@[l])@ != row@,
        decreases rows.len() - j,
    {
        let cand = &rows[j];
        if cand.len() == row.len() {
            let mut i: usize = 0;
            let mut same = true;
            while i < row.len()
                invariant
                    i <= row.len() == cand.len(),
                    same == forall|t: int| 0 <= t < i ==> cand@[t] == row@[t],
                decreases row.len() - i,
            {
                if cand[i] != row[i] {
                    same = false;
                }
                i = i + 1;
            }
            if same {
                assert(cand@ =~= row@);
                return true;
            }
        }
        j = j + 1;
    }
    false
}

/// The positions of the `false` entries of `init`.
fn unset_indices(init: &[bool]) -> (idx: Vec<usize>)
    ensures
        idx@.map_values(|i: usize| i as int) == unset_positions(init@),
        forall|c: int| 0 <= c < idx.len() ==> #[trigger] idx@[c] < init.len() && !init@[idx@[c] as int],
        forall|c: int, d: int| 0 <= c < d < idx.len() ==> #[trigger] idx@[c] < #[trigger] idx@[d],
        forall|i: int|
            0 <= i < init.len() && !init@[i] ==> exists|c: int| 0 <= c < idx.len() && #[trigger] idx@[c] == i,
{
    let mut idx: Vec<usize> = Vec::new();
    let mut i: usize = 0;
    while i < init.len()
        invariant
            i <= init.len(),
            idx@.map_values(|i: usize| i as int) == unset_positions(init@.take(i as int)),
            forall|c: int| 0 <= c < idx.len() ==> #[trigger] idx@[c] < i && !init@[idx@[c] as int],
            forall|c: int, d: int| 0 <= c < d < idx.len() ==> #[trigger] idx@[c] < #[trigger] idx@[d],
            forall|t: int| 0 <= t < i && !init@[t] ==> exists|c: int| 0 <= c < idx.len() && #[trigger] idx@[c] == t,
        decreases init.len() - i,
    {
        let ghost old_idx = idx@;
        assert(init@.take(i + 1).drop_last() =~= init@.take(i as int));
        if !init[i] {
            idx.push(i);
            assert(idx@.map_values(|i: usize| i as int) =~= old_idx.map_values(|i: usize| i as int).push(i as int));
            assert forall|t: int| 0 <= t < i + 1 && !init@[t] implies exists|c: int| 0 <= c < idx.len() && #[trigger] idx@[c] == t by {
                if t == i {
                    assert(idx@[old_idx.len() as int] == t);
                } else {
                    let c = choose|c: int| 0 <= c < old_idx.len() && #[trigger] old_idx[c] == t;
                    assert(idx@[c] == t);
                }
            }
        } else {
            assert(unset_positions(init@.take(i + 1)) =~= unset_positions(init@.take(i as int)));
        }
        i = i + 1;
    }
    assert(init@.take(init.len() as int) =~= init@);
    idx
}

/// Generate all possible states for the builder struct: every state reachable from
/// `initial_state` by setting fields, ordered as the rows of its unset fields are by
/// `sorted_leftmost_layered_gray_codes`. The first state is `initial_state`.
pub fn make_states(initial_state: &[bool]) -> (states: Vec<Vec<bool>>)
    requires
        count_unset(initial_state@) < 32,
    ensures
        count_unset(initial_state@) == 0 ==> rows_of(states@) == seq![initial_state@],
        count_unset(initial_state@) > 0 ==> {
            let p = unset_positions(initial_state@);
            &&& forall|j: int| 0 <= j < states.len() ==> admissible(initial_state@, #[trigger] states@[j]@)
            &&& forall|j: int, l: int| 0 <= j < l < states.len() ==> key_lt(
                restrict((#[trigger] states@[j])@, p),
                restrict((#[trigger] states@[l])@, p),
            )
            &&& forall|s: Seq<bool>| admissible(initial_state@, s) ==> exists|j: int|
                0 <= j < states.len() && (#[trigger] states@[j])@ == s
        },
        is_state_listing(initial_state@, rows_of(states@)),
        count_unset(initial_state@) > 0 ==> states.len() == pow2(count_unset(initial_state@)),
{
    let indices = unset_indices(initial_state);
    let ghost p = unset_positions(initial_state@);
    proof {
        assert(indices@.map_values(|i: usize| i as int).len() == indices.len());
    }
    let m = indices.len();
    let codes = sorted_leftmost_layered_gray_codes(m);
    let mut states: Vec<Vec<bool>> = Vec::new();
    let mut j: usize = 0;
    while j < codes.len()
        invariant
            m == indices.len() == p.len() < 32,
            indices@.map_values(|i: usize| i as int) == p,
            forall|c: int| 0 <= c < m ==> #[trigger] indices@[c] < initial_state.len() && !initial_state@[indices@[c] as int],
            forall|c: int, d: int| 0 <= c < d < m ==> #[trigger] indices@[c] < #[trigger] indices@[d],
            forall|i: int|
                0 <= i < initial_state.len() && !initial_state@[i] ==> exists|c: int| 0 <= c < m && #[trigger] indices@[c] == i,
            m == 0 ==> rows_of(codes@) == seq![seq![false], seq![true]],
            m > 0 ==> is_layered_listing(rows_of(codes@), m as nat),
            j <= codes.len(),
            m == 0 ==> (j == 0 ==> states.len() == 0) && (j > 0 ==> rows_of(states@) == seq![initial_state@]),
            m > 0 ==> forall|l: int| 0 <= l < states.len() ==> admissible(initial_state@, #[trigger] states@[l]@),
            m > 0 ==> states.len() == j,
            m > 0 ==> forall|l: int| 0 <= l < states.len() ==> exists|jj: int| 0 <= jj < j && restrict(#[trigger] states@[l]@, p) == codes@[jj]@,
            m > 0 ==> forall|l: int, r: int| 0 <= l < r < states.len() ==> key_lt(
                restrict((#[trigger] states@[l])@, p),
                restrict((#[trigger] states@[r])@, p),
            ),
            m > 0 ==> forall|s: Seq<bool>| admissible(initial_state@, s) && (exists|jj: int| 0 <= jj < j && codes@[jj]@ == restrict(s, p)) ==> exists|l: int|
                0 <= l < states.len() && (#[trigger] states@[l])@ == s,
        decreases codes.len() - j,
    {
        let code = &codes[j];
        proof {
            if m > 0 {
                assert(rows_of(codes@)[j as int] == code@);
            }
        }
        let mut new_state: Vec<bool> = copy_row(initial_state);
        let mut c: usize = 0;
        while c < indices.len() && c < code.len()
            invariant
                m == indices.len(),
                forall|c: int| 0 <= c < m ==> #[trigger] indices@[c] < initial_state.len() && !initial_state@[indices@[c] as int],
                forall|c: int, d: int| 0 <= c < d < m ==> #[trigger] indices@[c] < #[trigger] indices@[d],
                c <= m,
                new_state.len() == initial_state.len(),
                forall|t: int| 0 <= t < c ==> new_state@[#[trigger] indices@[t] as int] == code@[t],
                forall|i: int| 0 <= i < initial_state.len() && (forall|t: int| 0 <= t < c ==> #[trigger] indices@[t] != i) ==> new_state@[i] == initial_state@[i],
            decreases m - c,
        {
            let col = indices[c];
            let value = code[c];
            new_state.set(col, value);
            proof {
                assert forall|i: int| 0 <= i < initial_state.len() && (forall|t: int| 0 <= t < c + 1 ==> #[trigger] indices@[t] != i) implies new_state@[i] == initial_state@[i] by {
                    assert(indices@[c as int] != i);
                }
            }
            c = c + 1;
        }
        let ghost ns = new_state@;
        let present = contains_row(&states, &new_state);
        proof {
            if m > 0 {
                assert(code@.len() == m);
                assert(c == m);
                assert(restrict(ns, p) =~= code@);
                assert forall|i: int| 0 <= i < initial_state.len() && initial_state@[i] implies #[trigger] ns[i] by {
                    assert forall|t: int| 0 <= t < c implies #[trigger] indices@[t] != i by {}
                }
                assert(admissible(initial_state@, ns));
            }
        }
        let ghost before = states@;
        proof {
            if m > 0 && present {
                let l = choose|l: int| 0 <= l < states.len() && (#[trigger] states@[l])@ == ns;
                let jj = choose|jj: int| 0 <= jj < j && restrict(states@[l]@, p) == codes@[jj]@;
                assert(rows_of(codes@)[jj] == codes@[jj]@);
                assert(rows_of(codes@)[j as int] == codes@[j as int]@);
                assert(key_lt(rows_of(codes@)[jj], rows_of(codes@)[j as int]));
                assert(false);
            }
            if m == 0 {
                assert(ns =~= initial_state@);
                if j > 0 {
                    assert(rows_of(states@)[0] == states@[0]@);
                    assert(states@[0]@ == ns);
                }
            }
        }
        if !present {
            let ghost old_states = states@;
            states.push(new_state);
            proof {
                assert forall|l: int| 0 <= l < old_states.len() implies states@[l] == old_states[l] by {}
                if m > 0 {
                    assert forall|l: int| 0 <= l < states.len() implies exists|jj: int| 0 <= jj < j + 1 && restrict(#[trigger] states@[l]@, p) == codes@[jj]@ by {
                        if l < old_states.len() {
                            let jj = choose|jj: int| 0 <= jj < j && restrict(old_states[l]@, p) == codes@[jj]@;
                        } else {
                            assert(restrict(states@[l]@, p) == codes@[j as int]@);
                        }
                    }
                    assert forall|l: int, r: int| 0 <= l < r < states.len() implies key_lt(
                        restrict((#[trigger] states@[l])@, p),
                        restrict((#[trigger] states@[r])@, p),
                    ) by {
                        if r == old_states.len() {
                            let jj = choose|jj: int| 0 <= jj < j && restrict(old_states[l]@, p) == codes@[jj]@;
                            assert(rows_of(codes@)[jj] == codes@[jj]@);
                            assert(key_lt(rows_of(codes@)[jj], rows_of(codes@)[j as int]));
                        }
                    }
                } else {
                    assert(j == 0);
                    assert(ns =~= initial_state@);
                    assert(rows_of(states@) =~= seq![initial_state@]);
                }
            }
        } else {
            proof {
                if m == 0 {
                    assert(j > 0);
                }
            }
        }
        proof {
            if m > 0 {
                assert forall|s: Seq<bool>| admissible(initial_state@, s) && (exists|jj: int| 0 <= jj < j + 1 && codes@[jj]@ == restrict(s, p)) implies exists|l: int|
                    0 <= l < states.len() && (#[trigger] states@[l])@ == s by {
                    let jj = choose|jj: int| 0 <= jj < j + 1 && codes@[jj]@ == restrict(s, p);
                    assert forall|l: int| 0 <= l < before.len() implies states@[l] == before[l] by {}
                    if jj < j {
                        let l = choose|l: int| 0 <= l < before.len() && (#[trigger] before[l])@ == s;
                        assert(states@[l]@ == s);
                    } else {
                        assert forall|i: int| 0 <= i < s.len() implies ns[i] == s[i] by {
                            if !initial_state@[i] {
                                let t = choose|t: int| 0 <= t < m && #[trigger] indices@[t] == i;
                                assert(p[t] == i);
                                assert(restrict(s, p)[t] == s[i]);
                            } else {
                                assert forall|t: int| 0 <= t < c implies #[trigger] indices@[t] != i by {}
                            }
                        }
                        assert(ns =~= s);
                        if present {
                            let l = choose|l: int| 0 <= l < before.len() && (#[trigger] before[l])@ == ns;
                            assert(states@[l]@ == s);
                        } else {
                            assert(states@[before.len() as int]@ == s);
                        }
                    }
                }
            } else {
                if j == 0 {
                    assert(ns =~= initial_state@);
                }
            }
        }
        j = j + 1;
    }
    proof {
        if m == 0 {
            assert(codes.len() == rows_of(codes@).len());
            lemma_no_unset_all_set(initial_state@);
            let rows = rows_of(states@);
            assert(rows[0] == initial_state@);
            assert forall|s: Seq<bool>| admissible(initial_state@, s) implies exists|j: int|
                0 <= j < rows.len() && #[trigger] rows[j] == s by {
                assert(s =~= initial_state@);
            }
        } else {
            assert forall|s: Seq<bool>| admissible(initial_state@, s) implies exists|l: int|
                0 <= l < states.len() && (#[trigger] states@[l])@ == s by {
                let code = restrict(s, p);
                let rows = rows_of(codes@);
                assert(code.len() == m);
                let jj = choose|jj: int| 0 <= jj < rows.len() && #[trigger] rows[jj] == code;
                assert(codes@[jj]@ == code);
            }
            let rows = rows_of(states@);
            assert forall|j: int| 0 <= j < rows.len() implies admissible(initial_state@, #[trigger] rows[j]) by {
                assert(rows[j] == states@[j]@);
            }
            assert forall|j: int, l: int| 0 <= j < l < rows.len() implies #[trigger] rows[j] != #[trigger] rows[l] by {
                assert(key_lt(restrict(states@[j]@, p), restrict(states@[l]@, p)));
            }
            assert forall|s: Seq<bool>| admissible(initial_state@, s) implies exists|j: int|
                0 <= j < rows.len() && #[trigger] rows[j] == s by {
                let j = choose|j: int| 0 <= j < states.len() && (#[trigger] states@[j])@ == s;
                assert(rows[j] == s);
            }
        }
    }
    states
}

/// `rows` are distinct states reachable from `init`, and every such state is among them.
pub open spec fn is_state_listing(init: Seq<bool>, rows: Seq<Seq<bool>>) -> bool {
    &&& forall|j: int| 0 <= j < rows.len() ==> admissible(init, #[trigger] rows[j])
    &&& forall|j: int, l: int| 0 <= j < l < rows.len() ==> #[trigger] rows[j] != #[trigger] rows[l]
    &&& forall|s: Seq<bool>| admissible(init, s) ==> exists|j: int| 0 <= j < rows.len() && #[trigger] rows[j] == s
}

proof fn lemma_no_unset_all_set(init: Seq<bool>)
    requires
        unset_positions(init).len() == 0,
    ensures
        forall|i: int| 0 <= i < init.len() ==> init[i],
    decreases init.len(),
{
    if init.len() > 0 {
        lemma_no_unset_all_set(init.drop_last());
        assert forall|i: int| 0 <= i < init.len() implies init[i] by {
            if i < init.len() - 1 {
                assert(init.drop_last()[i] == init[i]);
            }
        }
    }
}

/// Does a field whose type has these two leading path segments start as set?
/// `BackLink<T>`, `Vec<T>` and `Link<Vec<T>>` have a neutral value and start as set.
pub open spec fn spec_starts_set(first: TypeHead, second: TypeHead) -> bool {
    match (first, second) {
        (TypeHead::BackLink, _) => true,
        (TypeHead::Vec, _) => true,
        (TypeHead::Link, TypeHead::Vec) => true,
        _ => false,
    }
}

/// Does a field whose type has these heads start set (its type has a neutral value)?
pub fn starts_set(first: TypeHead, second: TypeHead) -> (r: bool)
    ensures
        r == spec_starts_set(first, second),
{
    match (first, second) {
        (TypeHead::BackLink, _) => true,
        (TypeHead::Vec, TypeHead::BackLink) => true,
        (TypeHead::Vec, _) => true,
        (TypeHead::Link, TypeHead::Vec) => true,
        _ => false,
    }
}

/// The initial builder state of a struct whose fields have these types.
pub open spec fn initial_state_of(fields: Seq<(TypeHead, TypeHead)>) -> Seq<bool> {
    Seq::new(fields.len(), |i: int| spec_starts_set(fields[i].0, fields[i].1))
}

/// `table` maps each state and field to the state reached by setting that field.
pub open spec fn is_transition_table(rows: Seq<Seq<bool>>, table: Seq<Seq<usize>>, n: nat) -> bool {
    &&& table.len() == rows.len()
    &&& forall|s: int| 0 <= s < table.len() ==> (#[trigger] table[s]).len() == n
    &&& forall|s: int, c: int|
        0 <= s < table.len() && 0 <= c < n ==> #[trigger] table[s][c] < rows.len() && rows[table[s][c] as int]
            == rows[s].update(c, true)
}

/// The index of `row` in `rows`, if it is there.
fn find_row(rows: &Vec<Vec<bool>>, row: &Vec<bool>) -> (r: Option<usize>)
    ensures
        r matches Some(i) ==> i < rows.len() && rows@[i as int]@ == row@,
        r is None ==> forall|j: int| 0 <= j < rows.len() ==> (#[trigger] rows@[j])@ != row@,
{
    let mut j: usize = 0;
    while j < rows.len()
        invariant
            j <= rows.len(),
            forall|l: int| 0 <= l < j ==> (#[trigger] rows@[l])@ != row@,
        decreases rows.len() - j,
    {
        let cand = &rows[j];
        if cand.len() == row.len() {
            let mut i: usize = 0;
            let mut same = true;
            while i < row.len()
                invariant
                    i <= row.len() == cand.len(),
                    same == forall|t: int| 0 <= t < i ==> cand@[t] == row@[t],
                decreases row.len() - i,
            {
                if cand[i] != row[i] {
                    same = false;
                }
                i = i + 1;
            }
            if same {
                assert(cand@ =~= row@);
                return Some(j);
            }
        }
        j = j + 1;
    }
    None
}

/// The state machine of the builder of a struct whose fields have the given types: the initial
/// state, the states (see `make_states`) and the transition table, whose row `s` gives for each
/// field the state reached from state `s` by setting that field.
pub fn make_builder_struct_fields(fields: &[(TypeHead, TypeHead)]) -> (res: (
    Vec<bool>,
    Vec<Vec<bool>>,
    Vec<Vec<usize>>,
))
    requires
        count_unset(initial_state_of(fields@)) < 32,
    ensures
        res.0@ == initial_state_of(fields@),
        is_state_listing(res.0@, rows_of(res.1@)),
        rows_of(res.1@)[0] == res.0@,
        res.1.len() == (if count_unset(res.0@) == 0 {
            1
        } else {
            pow2(count_unset(res.0@))
        }),
        count_unset(res.0@) > 0 ==> forall|j: int, l: int| 0 <= j < l < res.1.len() ==> key_lt(
            restrict((#[trigger] res.1@[j])@, unset_positions(res.0@)),
            restrict((#[trigger] res.1@[l])@, unset_positions(res.0@)),
        ),
        is_transition_table(rows_of(res.1@), res.2@.map_values(|r: Vec<usize>| r@), fields.len() as nat),
{
    let mut initial_state: Vec<bool> = Vec::new();
    let mut i: usize = 0;
    while i < fields.len()
        invariant
            i <= fields.len(),
            initial_state@ == initial_state_of(fields@).take(i as int),
        decreases fields.len() - i,
    {
        let (first, second) = fields[i];
        initial_state.push(starts_set(first, second));
        assert(initial_state@ =~= initial_state_of(fields@).take(i + 1));
        i = i + 1;
    }
    assert(initial_state@ =~= initial_state_of(fields@));
    let states = make_states(initial_state.as_slice());
    proof {
        let rows = rows_of(states@);
        assert(admissible(initial_state@, initial_state@));
        let j0 = choose|j: int| 0 <= j < rows.len() && #[trigger] rows[j] == initial_state@;
        if count_unset(initial_state@) > 0 {
            if j0 != 0 {
                assert(key_lt(restrict(states@[0]@, unset_positions(initial_state@)), restrict(states@[j0]@, unset_positions(initial_state@))));
                lemma_initial_least(initial_state@, states@[0]@);
            }
        }
        assert(rows[0] == initial_state@);
    }
    let n = fields.len();
    let mut table: Vec<Vec<usize>> = Vec::new();
    let mut s: usize = 0;
    while s < states.len()
        invariant
            n == fields.len() == initial_state.len(),
            is_state_listing(initial_state@, rows_of(states@)),
            s <= states.len(),
            table.len() == s,
            forall|t: int| 0 <= t < s ==> (#[trigger] table@[t])@.len() == n,
            forall|t: int, c: int|
                0 <= t < s && 0 <= c < n ==> #[trigger] table@[t]@[c] < states.len() && states@[table@[t]@[c] as int]@
                    == states@[t]@.update(c, true),
        decreases states.len() - s,
    {
        let mut row: Vec<usize> = Vec::new();
        let mut col: usize = 0;
        assert(rows_of(states@)[s as int] == states@[s as int]@);
        while col < n
            invariant
                n == fields.len() == initial_state.len(),
                is_state_listing(initial_state@, rows_of(states@)),
                s < states.len(),
                col <= n,
                row.len() == col,
                forall|c: int| 0 <= c < col ==> #[trigger] row@[c] < states.len() && states@[row@[c] as int]@
                    == states@[s as int]@.update(c, true),
            decreases n - col,
        {
            proof {
                assert(rows_of(states@)[s as int] == states@[s as int]@);
                assert(admissible(initial_state@, rows_of(states@)[s as int]));
            }
            let mut next_state = copy_row(states[s].as_slice());
            next_state.set(col, true);
            let ghost rows = rows_of(states@);
            proof {
                assert(rows[s as int] == states@[s as int]@);
                assert(admissible(initial_state@, next_state@));
            }
            let found = find_row(&states, &next_state);
            let next_state_index = match found {
                Some(idx) => idx,
                None => {
                    proof {
                        let j = choose|j: int| 0 <= j < rows.len() && #[trigger] rows[j] == next_state@;
                        assert(states@[j]@ == next_state@);
                    }
                    0
                },
            };
            row.push(next_state_index);
            col = col + 1;
        }
        table.push(row);
        s = s + 1;
    }
    proof {
        let rows = rows_of(states@);
        let tv = table@.map_values(|r: Vec<usize>| r@);
        assert forall|t: int, c: int| 0 <= t < tv.len() && 0 <= c < n implies #[trigger] tv[t][c] < rows.len() && rows[tv[t][c] as int]
            == rows[t].update(c, true) by {
            assert(tv[t] == table@[t]@);
        }
        assert forall|t: int| 0 <= t < tv.len() implies (#[trigger] tv[t]).len() == n by {
            assert(tv[t] == table@[t]@);
        }
    }
    (initial_state, states, table)
}

/// The initial state has the least key among the admissible states.
proof fn lemma_initial_least(init: Seq<bool>, s: Seq<bool>)
    requires
        admissible(init, s),
        count_unset(init) > 0,
    ensures
        !key_lt(restrict(s, unset_positions(init)), restrict(init, unset_positions(init))),
{
    let p = unset_positions(init);
    lemma_unset_positions_false(init);
    let zero = restrict(init, p);
    assert forall|c: int| 0 <= c < zero.len() implies !zero[c] by {}
    lemma_popcount_zero(zero);
    let x = restrict(s, p);
    if popcount(x) == 0 {
        lemma_popcount_zero_all_false(x);
        assert forall|c: int| 0 <= c < x.reverse().len() implies !x.reverse()[c] by {}
        lemma_weight_zero(x.reverse());
    }
}

/// A row with no `true` entry is all `false`.
proof fn lemma_popcount_zero_all_false(s: Seq<bool>)
    requires
        popcount(s) == 0,
    ensures
        forall|c: int| 0 <= c < s.len() ==> !s[c],
    decreases s.len(),
{
    if s.len() > 0 {
        lemma_popcount_zero_all_false(s.drop_first());
        assert forall|c: int| 0 <= c < s.len() implies !s[c] by {
            if c > 0 {
                assert(s[c] == s.drop_first()[c - 1]);
            }
        }
    }
}

proof fn lemma_unset_positions_false(init: Seq<bool>)
    ensures
        forall|c: int| 0 <= c < unset_positions(init).len() ==> 0 <= #[trigger] unset_positions(init)[c] < init.len()
            && !init[unset_positions(init)[c]],
    decreases init.len(),
{
    if init.len() > 0 {
        let d = init.drop_last();
        lemma_unset_positions_false(d);
        assert forall|c: int| 0 <= c < unset_positions(init).len() implies 0 <= #[trigger] unset_positions(init)[c] < init.len()
            && !init[unset_positions(init)[c]] by {
            if c < unset_positions(d).len() {
                assert(unset_positions(init)[c] == unset_positions(d)[c]);
                assert(init[unset_positions(d)[c]] == d[unset_positions(d)[c]]);
            }
        }
    }
}

proof fn lemma_popcount_zero(s: Seq<bool>)
    requires
        forall|c: int| 0 <= c < s.len() ==> !s[c],
    ensures
        popcount(s) == 0,
    decreases s.len(),
{
    if s.len() > 0 {
        lemma_popcount_zero(s.drop_first());
    }
}

proof fn lemma_weight_zero(s: Seq<bool>)
    requires
        forall|c: int| 0 <= c < s.len() ==> !s[c],
    ensures
        weight(s) == 0,
    decreases s.len(),
{
    if s.len() > 0 {
        lemma_weight_zero(s.drop_first());
    }
}


/// Setting a field that is already set leaves the builder in the same state.
pub proof fn law_transition_idempotent(
    init: Seq<bool>,
    rows: Seq<Seq<bool>>,
    table: Seq<Seq<usize>>,
    s: int,
    c: int,
)
    requires
        is_state_listing(init, rows),
        is_transition_table(rows, table, init.len()),
        0 <= s < rows.len(),
        0 <= c < init.len(),
    ensures
        table[table[s][c] as int][c] == table[s][c],
{
    let t = table[s][c] as int;
    let u = table[t][c] as int;
    assert(rows[t] == rows[s].update(c, true));
    assert(rows[u] =~= rows[t]);
}

/// The state reached by setting two fields does not depend on the order they are set in.
pub proof fn law_transitions_commute(
    init: Seq<bool>,
    rows: Seq<Seq<bool>>,
    table: Seq<Seq<usize>>,
    s: int,
    a: int,
    b: int,
)
    requires
        is_state_listing(init, rows),
        is_transition_table(rows, table, init.len()),
        0 <= s < rows.len(),
        0 <= a < init.len(),
        0 <= b < init.len(),
    ensures
        table[table[s][a] as int][b] == table[table[s][b] as int][a],
{
    let sa = table[s][a] as int;
    let sb = table[s][b] as int;
    let sab = table[sa][b] as int;
    let sba = table[sb][a] as int;
    assert(rows[sab] =~= rows[sba]);
}

/// Every transition sets its field and keeps every field already set.
pub proof fn law_transition_monotone(
    init: Seq<bool>,
    rows: Seq<Seq<bool>>,
    table: Seq<Seq<usize>>,
    s: int,
    c: int,
)
    requires
        is_state_listing(init, rows),
        is_transition_table(rows, table, init.len()),
        0 <= s < rows.len(),
        0 <= c < init.len(),
    ensures
        rows[table[s][c] as int][c],
        forall|i: int| 0 <= i < init.len() && rows[s][i] ==> rows[table[s][c] as int][i],
{
    assert(admissible(init, rows[s]));
}

} // verus!
