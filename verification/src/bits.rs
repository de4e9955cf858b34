//! Counting set bits of boolean rows: the spec-level population count that
//! entropy bookkeeping is stated against, with its supporting lemmas and the
//! small executable helpers shared by the engine.

use vstd::prelude::*;

verus! {

/// Number of `true` entries in a boolean sequence.
pub open spec fn count_true(s: Seq<bool>) -> nat
    decreases s.len(),
{
    if s.len() == 0 {
        0
    } else {
        count_true(s.drop_last()) + if s.last() {
            1nat
        } else {
            0nat
        }
    }
}

pub proof fn lemma_count_true_le_len(s: Seq<bool>)
    ensures
        count_true(s) <= s.len(),
    decreases s.len(),
{
    if s.len() > 0 {
        lemma_count_true_le_len(s.drop_last());
    }
}

pub proof fn lemma_count_true_all(s: Seq<bool>)
    requires
        forall|i: int| 0 <= i < s.len() ==> s[i],
    ensures
        count_true(s) == s.len(),
    decreases s.len(),
{
    if s.len() > 0 {
        lemma_count_true_all(s.drop_last());
    }
}

pub proof fn lemma_count_true_none(s: Seq<bool>)
    requires
        forall|i: int| 0 <= i < s.len() ==> !s[i],
    ensures
        count_true(s) == 0,
    decreases s.len(),
{
    if s.len() > 0 {
        lemma_count_true_none(s.drop_last());
    }
}

pub proof fn lemma_count_true_update(s: Seq<bool>, i: int, b: bool)
    requires
        0 <= i < s.len(),
    ensures
        count_true(s.update(i, b)) == count_true(s) - (if s[i] {
            1int
        } else {
            0int
        }) + (if b {
            1int
        } else {
            0int
        }),
    decreases s.len(),
{
    let t = s.update(i, b);
    if i == s.len() - 1 {
        assert(t.drop_last() =~= s.drop_last());
    } else {
        assert(t.drop_last() =~= s.drop_last().update(i, b));
        lemma_count_true_update(s.drop_last(), i, b);
    }
}

pub proof fn lemma_count_true_pos(s: Seq<bool>, i: int)
    requires
        0 <= i < s.len(),
        s[i],
    ensures
        count_true(s) >= 1,
    decreases s.len(),
{
    if i < s.len() - 1 {
        lemma_count_true_pos(s.drop_last(), i);
    }
}

/// A row with exactly one set bit has population count 1.
pub proof fn lemma_count_true_single(s: Seq<bool>, c: int)
    requires
        0 <= c < s.len(),
        s[c],
        forall|d: int| 0 <= d < s.len() && d != c ==> !s[d],
    ensures
        count_true(s) == 1,
    decreases s.len(),
{
    if c == s.len() - 1 {
        lemma_count_true_none(s.drop_last());
    } else {
        lemma_count_true_single(s.drop_last(), c);
    }
}

/// A row with exactly two set bits has population count 2.
pub proof fn lemma_count_true_two(s: Seq<bool>, a: int, b: int)
    requires
        0 <= a < s.len(),
        0 <= b < s.len(),
        a != b,
        s[a],
        s[b],
        forall|d: int| 0 <= d < s.len() && d != a && d != b ==> !s[d],
    ensures
        count_true(s) == 2,
    decreases s.len(),
{
    if a == s.len() - 1 {
        lemma_count_true_single(s.drop_last(), b);
    } else if b == s.len() - 1 {
        lemma_count_true_single(s.drop_last(), a);
    } else {
        lemma_count_true_two(s.drop_last(), a, b);
    }
}

/// Two set bits of a row with population count 1 coincide.
pub proof fn lemma_singleton_unique(s: Seq<bool>, a: int, b: int)
    requires
        count_true(s) == 1,
        0 <= a < s.len(),
        0 <= b < s.len(),
        s[a],
        s[b],
    ensures
        a == b,
{
    if a != b {
        lemma_count_true_update(s, a, false);
        assert(s.update(a, false)[b]);
        lemma_count_true_pos(s.update(a, false), b);
        assert(false);
    }
}

pub proof fn lemma_count_true_take_step(s: Seq<bool>, k: int)
    requires
        0 <= k < s.len(),
    ensures
        count_true(s.take(k + 1)) == count_true(s.take(k)) + if s[k] {
            1int
        } else {
            0int
        },
{
    assert(s.take(k + 1).drop_last() =~= s.take(k));
    assert(s.take(k + 1).last() == s[k]);
}

/// The indices of the set bits, as a set.
pub open spec fn true_positions(s: Seq<bool>) -> Set<int> {
    Set::new(|i: int| 0 <= i < s.len() && s[i])
}

/// The indices of the clear bits, as a set.
pub open spec fn false_positions(s: Seq<bool>) -> Set<int> {
    Set::new(|i: int| 0 <= i < s.len() && !s[i])
}

pub proof fn lemma_true_positions_card(s: Seq<bool>)
    ensures
        true_positions(s).finite(),
        true_positions(s).len() == count_true(s),
    decreases s.len(),
{
    if s.len() == 0 {
        assert(true_positions(s) =~= Set::empty());
    } else {
        let pre = s.drop_last();
        lemma_true_positions_card(pre);
        if s.last() {
            assert(true_positions(s) =~= true_positions(pre).insert(s.len() - 1));
            assert(!true_positions(pre).contains(s.len() - 1));
        } else {
            assert(true_positions(s) =~= true_positions(pre));
        }
    }
}

pub proof fn lemma_false_positions_card(s: Seq<bool>)
    ensures
        false_positions(s).finite(),
        false_positions(s).len() == s.len() - count_true(s),
    decreases s.len(),
{
    lemma_count_true_le_len(s);
    if s.len() == 0 {
        assert(false_positions(s) =~= Set::empty());
    } else {
        let pre = s.drop_last();
        lemma_false_positions_card(pre);
        lemma_count_true_le_len(pre);
        if s.last() {
            assert(false_positions(s) =~= false_positions(pre));
        } else {
            assert(false_positions(s) =~= false_positions(pre).insert(s.len() - 1));
            assert(!false_positions(pre).contains(s.len() - 1));
        }
    }
}

/// A set that injects into another finite set is no larger than it.
pub proof fn lemma_injection_card(a: Set<int>, b: Set<int>, f: spec_fn(int) -> int)
    requires
        a.finite(),
        b.finite(),
        forall|x: int| a.contains(x) ==> b.contains(#[trigger] f(x)),
        forall|x: int, y: int| a.contains(x) && a.contains(y) && #[trigger] f(x) == #[trigger] f(y)
            ==> x == y,
    ensures
        a.len() <= b.len(),
    decreases a.len(),
{
    if a.len() > 0 {
        let x = a.choose();
        assert(a.contains(x));
        let a2 = a.remove(x);
        let b2 = b.remove(f(x));
        assert(forall|y: int| a2.contains(y) ==> b2.contains(#[trigger] f(y)));
        lemma_injection_card(a2, b2, f);
    }
}

/// A vector of `len` copies of `value`.
pub fn filled_bools(len: usize, value: bool) -> (v: Vec<bool>)
    ensures
        v@.len() == len,
        forall|i: int| 0 <= i < len ==> v@[i] == value,
{
    let mut v: Vec<bool> = Vec::new();
    let mut k: usize = 0;
    while k < len
        invariant
            k <= len,
            v@.len() == k,
            forall|i: int| 0 <= i < k ==> v@[i] == value,
        decreases len - k,
    {
        v.push(value);
        k = k + 1;
    }
    v
}

/// A vector of `len` copies of `value`.
pub fn filled_usizes(len: usize, value: usize) -> (v: Vec<usize>)
    ensures
        v@.len() == len,
        forall|i: int| 0 <= i < len ==> v@[i] == value,
{
    let mut v: Vec<usize> = Vec::new();
    let mut k: usize = 0;
    while k < len
        invariant
            k <= len,
            v@.len() == k,
            forall|i: int| 0 <= i < k ==> v@[i] == value,
        decreases len - k,
    {
        v.push(value);
        k = k + 1;
    }
    v
}

/// The lowest index of a set bit, if any: the deterministic color choice.
pub fn first_true_index(row: &Vec<bool>) -> (r: Option<usize>)
    ensures
        match r {
            Some(c) => c < row@.len() && row@[c as int] && forall|d: int| 0 <= d < c ==> !row@[d],
            None => forall|d: int| 0 <= d < row@.len() ==> !row@[d],
        },
{
    let mut k: usize = 0;
    while k < row.len()
        invariant
            k <= row@.len(),
            forall|d: int| 0 <= d < k ==> !row@[d],
        decreases row@.len() - k,
    {
        if row[k] {
            return Some(k);
        }
        k = k + 1;
    }
    None
}

/// Population count of a row, executably.
pub fn count_row(row: &Vec<bool>) -> (c: usize)
    ensures
        c == count_true(row@),
{
    let mut c: usize = 0;
    let mut k: usize = 0;
    while k < row.len()
        invariant
            k <= row@.len(),
            c == count_true(row@.take(k as int)),
            c <= k,
        decreases row@.len() - k,
    {
        proof {
            lemma_count_true_take_step(row@, k as int);
            lemma_count_true_le_len(row@.take(k as int));
        }
        if row[k] {
            c = c + 1;
        }
        k = k + 1;
    }
    proof {
        assert(row@.take(row@.len() as int) =~= row@);
    }
    c
}

} // verus!
