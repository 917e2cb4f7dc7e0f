//! The weighted (Wagner-Fischer) edit distance: insertion, deletion and
//! substitution costs are looked up per character in optional caller-supplied
//! tables. An absent table means every operation of that role costs 1.0;
//! a supplied table must cover every character (or differing character pair)
//! of the input it governs, and a missing entry is a lookup error.
//!
//! Costs are non-negative fixed-point numbers counted in thousandths:
//! `COST_ONE` is the encoding of 1.0, `COST_ONE / 2` of 0.5.

use vstd::prelude::*;
use crate::tables::CostTable;
use crate::tables::SubstTable;
use crate::unit::min3;
use crate::unit::unit_dist;
use crate::unit::lemma_match_optimal;

verus! {

/// The fixed-point encoding of cost 1.0: costs are counted in thousandths.
pub const COST_ONE: u64 = 1000;

/// A supplied cost table lacks an entry for a character (or character pair)
/// that appears in the input it governs.
#[derive(Clone, Copy, Debug, PartialEq, Eq)]
pub struct LookupError;

/// The cost the weighted recurrence charges for inserting or deleting `c`
/// under the table `t` of the matching role: the table's entry, or 1.0 when
/// no table was supplied.
pub open spec fn char_cost(t: Option<Map<char, u64>>, c: char) -> int {
    match t {
        Option::None => COST_ONE as int,
        Option::Some(m) => m[c] as int,
    }
}

/// The cost the weighted recurrence charges for substituting `y` for `x`,
/// looked up only when the two differ: the table's entry, or 1.0 when no
/// table was supplied.
pub open spec fn pair_cost(t: Option<Map<(char, char), u64>>, x: char, y: char) -> int {
    match t {
        Option::None => COST_ONE as int,
        Option::Some(m) => m[(x, y)] as int,
    }
}

/// Whether the table of a single-character role can be asked about `c`.
pub open spec fn char_covered(t: Option<Map<char, u64>>, c: char) -> bool {
    match t {
        Option::None => true,
        Option::Some(m) => m.contains_key(c),
    }
}

/// Whether the substitution table can be asked about the pair `(x, y)`.
pub open spec fn pair_covered(t: Option<Map<(char, char), u64>>, x: char, y: char) -> bool {
    match t {
        Option::None => true,
        Option::Some(m) => m.contains_key((x, y)),
    }
}

/// Whether `t` has an entry for every character of `s`.
pub open spec fn covers_chars(t: Option<Map<char, u64>>, s: Seq<char>) -> bool {
    forall|i: int| 0 <= i < s.len() ==> #[trigger] char_covered(t, s[i])
}

/// Whether `t` has an entry for every differing pair of one character of
/// `a` and one of `b`, the only pairs the recurrence ever looks up.
pub open spec fn covers_pairs(t: Option<Map<(char, char), u64>>, a: Seq<char>, b: Seq<char>) -> bool {
    forall|i: int, j: int|
        0 <= i < a.len() && 0 <= j < b.len() && a[i] != b[j] ==> #[trigger] pair_covered(
            t,
            a[i],
            b[j],
        )
}

/// Whether the supplied tables cover everything the weighted recurrence on
/// `a` and `b` looks up: deletion costs of `a`'s characters, insertion
/// costs of `b`'s, and substitution costs of differing pairs.
pub open spec fn covered(
    a: Seq<char>,
    b: Seq<char>,
    ins: Option<Map<char, u64>>,
    del: Option<Map<char, u64>>,
    sub: Option<Map<(char, char), u64>>,
) -> bool {
    covers_chars(del, a) && covers_chars(ins, b) && covers_pairs(sub, a, b)
}

/// The weighted edit distance between `a` and `b` under the given cost
/// tables, stated as the Wagner-Fischer recurrence on last characters.
/// Matching characters align for free, bypassing the substitution table.
pub open spec fn w_dist(
    a: Seq<char>,
    b: Seq<char>,
    ins: Option<Map<char, u64>>,
    del: Option<Map<char, u64>>,
    sub: Option<Map<(char, char), u64>>,
) -> int
    decreases a.len() + b.len(),
{
    if a.len() == 0 && b.len() == 0 {
        0
    } else if a.len() == 0 {
        w_dist(a, b.drop_last(), ins, del, sub) + char_cost(ins, b.last())
    } else if b.len() == 0 {
        w_dist(a.drop_last(), b, ins, del, sub) + char_cost(del, a.last())
    } else if a.last() == b.last() {
        w_dist(a.drop_last(), b.drop_last(), ins, del, sub)
    } else {
        min3(
            w_dist(a.drop_last(), b, ins, del, sub) + char_cost(del, a.last()),
            w_dist(a, b.drop_last(), ins, del, sub) + char_cost(ins, b.last()),
            w_dist(a.drop_last(), b.drop_last(), ins, del, sub) + pair_cost(
                sub,
                a.last(),
                b.last(),
            ),
        )
    }
}

/// The total deletion cost of a whole sequence: what deleting every
/// character of `a` costs.
pub open spec fn del_total(a: Seq<char>, del: Option<Map<char, u64>>) -> int
    decreases a.len(),
{
    if a.len() == 0 {
        0
    } else {
        del_total(a.drop_last(), del) + char_cost(del, a.last())
    }
}

/// The total insertion cost of a whole sequence: what inserting every
/// character of `b` costs.
pub open spec fn ins_total(b: Seq<char>, ins: Option<Map<char, u64>>) -> int
    decreases b.len(),
{
    if b.len() == 0 {
        0
    } else {
        ins_total(b.drop_last(), ins) + char_cost(ins, b.last())
    }
}

/// The weighted distance is never negative.
pub proof fn lemma_w_dist_nonneg(
    a: Seq<char>,
    b: Seq<char>,
    ins: Option<Map<char, u64>>,
    del: Option<Map<char, u64>>,
    sub: Option<Map<(char, char), u64>>,
)
    ensures
        0 <= w_dist(a, b, ins, del, sub),
    decreases a.len() + b.len(),
{
    if a.len() == 0 && b.len() == 0 {
    } else if a.len() == 0 {
        lemma_w_dist_nonneg(a, b.drop_last(), ins, del, sub);
    } else if b.len() == 0 {
        lemma_w_dist_nonneg(a.drop_last(), b, ins, del, sub);
    } else {
        lemma_w_dist_nonneg(a.drop_last(), b, ins, del, sub);
        lemma_w_dist_nonneg(a, b.drop_last(), ins, del, sub);
        lemma_w_dist_nonneg(a.drop_last(), b.drop_last(), ins, del, sub);
    }
}

proof fn lemma_del_total_nonneg(a: Seq<char>, del: Option<Map<char, u64>>)
    ensures
        0 <= del_total(a, del),
    decreases a.len(),
{
    if a.len() == 0 {
    } else {
        lemma_del_total_nonneg(a.drop_last(), del);
    }
}

proof fn lemma_ins_total_nonneg(b: Seq<char>, ins: Option<Map<char, u64>>)
    ensures
        0 <= ins_total(b, ins),
    decreases b.len(),
{
    if b.len() == 0 {
    } else {
        lemma_ins_total_nonneg(b.drop_last(), ins);
    }
}

/// The weighted distance never exceeds the cost of deleting all of `a` and
/// inserting all of `b`.
pub proof fn lemma_w_dist_upper(
    a: Seq<char>,
    b: Seq<char>,
    ins: Option<Map<char, u64>>,
    del: Option<Map<char, u64>>,
    sub: Option<Map<(char, char), u64>>,
)
    ensures
        w_dist(a, b, ins, del, sub) <= del_total(a, del) + ins_total(b, ins),
    decreases a.len() + b.len(),
{
    if a.len() == 0 && b.len() == 0 {
    } else if a.len() == 0 {
        lemma_w_dist_upper(a, b.drop_last(), ins, del, sub);
    } else if b.len() == 0 {
        lemma_w_dist_upper(a.drop_last(), b, ins, del, sub);
    } else if a.last() == b.last() {
        lemma_w_dist_upper(a.drop_last(), b.drop_last(), ins, del, sub);
        lemma_del_total_nonneg(a, del);
        lemma_ins_total_nonneg(b, ins);
    } else {
        lemma_w_dist_upper(a.drop_last(), b, ins, del, sub);
        lemma_ins_total_nonneg(b, ins);
    }
}

/// Identity: a sequence is at weighted distance 0 from itself, whatever the
/// tables, since matching characters align for free.
pub proof fn lemma_weighted_identity(
    s: Seq<char>,
    ins: Option<Map<char, u64>>,
    del: Option<Map<char, u64>>,
    sub: Option<Map<(char, char), u64>>,
)
    ensures
        w_dist(s, s, ins, del, sub) == 0,
    decreases s.len(),
{
    if s.len() == 0 {
    } else {
        lemma_weighted_identity(s.drop_last(), ins, del, sub);
    }
}

/// Uniform-weighted equivalence: when every cost the recurrence can look up
/// is 1.0, the weighted distance is the unit-cost distance, expressed in
/// fixed-point units.
pub proof fn lemma_uniform_weighted(
    a: Seq<char>,
    b: Seq<char>,
    ins: Option<Map<char, u64>>,
    del: Option<Map<char, u64>>,
    sub: Option<Map<(char, char), u64>>,
)
    requires
        forall|i: int| 0 <= i < a.len() ==> #[trigger] char_cost(del, a[i]) == COST_ONE as int,
        forall|j: int| 0 <= j < b.len() ==> #[trigger] char_cost(ins, b[j]) == COST_ONE as int,
        forall|i: int, j: int|
            0 <= i < a.len() && 0 <= j < b.len() && a[i] != b[j] ==> #[trigger] pair_cost(
                sub,
                a[i],
                b[j],
            ) == COST_ONE as int,
    ensures
        w_dist(a, b, ins, del, sub) == COST_ONE * unit_dist(a, b),
    decreases a.len() + b.len(),
{
    let a1 = a.drop_last();
    let b1 = b.drop_last();
    if a.len() == 0 && b.len() == 0 {
    } else if a.len() == 0 {
        assert forall|j: int| 0 <= j < b1.len() implies #[trigger] char_cost(ins, b1[j])
            == COST_ONE as int by {
            assert(b1[j] == b[j]);
        }
        lemma_uniform_weighted(a, b1, ins, del, sub);
        assert(char_cost(ins, b.last()) == COST_ONE as int);
    } else if b.len() == 0 {
        assert forall|i: int| 0 <= i < a1.len() implies #[trigger] char_cost(del, a1[i])
            == COST_ONE as int by {
            assert(a1[i] == a[i]);
        }
        lemma_uniform_weighted(a1, b, ins, del, sub);
        assert(char_cost(del, a.last()) == COST_ONE as int);
    } else {
        assert forall|i: int| 0 <= i < a1.len() implies #[trigger] char_cost(del, a1[i])
            == COST_ONE as int by {
            assert(a1[i] == a[i]);
        }
        assert forall|j: int| 0 <= j < b1.len() implies #[trigger] char_cost(ins, b1[j])
            == COST_ONE as int by {
            assert(b1[j] == b[j]);
        }
        assert forall|i: int, j: int|
            0 <= i < a1.len() && 0 <= j < b.len() && a1[i] != b[j] implies #[trigger] pair_cost(
            sub,
            a1[i],
            b[j],
        ) == COST_ONE as int by {
            assert(a1[i] == a[i]);
        }
        assert forall|i: int, j: int|
            0 <= i < a.len() && 0 <= j < b1.len() && a[i] != b1[j] implies #[trigger] pair_cost(
            sub,
            a[i],
            b1[j],
        ) == COST_ONE as int by {
            assert(b1[j] == b[j]);
        }
        assert forall|i: int, j: int|
            0 <= i < a1.len() && 0 <= j < b1.len() && a1[i] != b1[j] implies #[trigger] pair_cost(
            sub,
            a1[i],
            b1[j],
        ) == COST_ONE as int by {
            assert(a1[i] == a[i]);
            assert(b1[j] == b[j]);
        }
        if a.last() == b.last() {
            lemma_uniform_weighted(a1, b1, ins, del, sub);
            lemma_match_optimal(a, b);
        } else {
            lemma_uniform_weighted(a1, b, ins, del, sub);
            lemma_uniform_weighted(a, b1, ins, del, sub);
            lemma_uniform_weighted(a1, b1, ins, del, sub);
            assert(a.last() == a[a.len() - 1]);
            assert(b.last() == b[b.len() - 1]);
            assert(pair_cost(sub, a.last(), b.last()) == COST_ONE as int);
            assert(char_cost(del, a.last()) == COST_ONE as int);
            assert(char_cost(ins, b.last()) == COST_ONE as int);
        }
    }
}

proof fn lemma_del_total_take_succ(a: Seq<char>, del: Option<Map<char, u64>>, i: int)
    requires
        0 <= i < a.len(),
    ensures
        del_total(a.take(i + 1), del) == del_total(a.take(i), del) + char_cost(del, a[i]),
{
    assert(a.take(i + 1).drop_last() =~= a.take(i));
    assert(a.take(i + 1).last() == a[i]);
}

proof fn lemma_del_total_take_le(a: Seq<char>, del: Option<Map<char, u64>>, i: int)
    requires
        0 <= i <= a.len(),
    ensures
        del_total(a.take(i), del) <= del_total(a, del),
    decreases a.len() - i,
{
    if i == a.len() {
        assert(a.take(i) =~= a);
    } else {
        lemma_del_total_take_succ(a, del, i);
        lemma_del_total_take_le(a, del, i + 1);
    }
}

proof fn lemma_ins_total_take_succ(b: Seq<char>, ins: Option<Map<char, u64>>, j: int)
    requires
        0 <= j < b.len(),
    ensures
        ins_total(b.take(j + 1), ins) == ins_total(b.take(j), ins) + char_cost(ins, b[j]),
{
    assert(b.take(j + 1).drop_last() =~= b.take(j));
    assert(b.take(j + 1).last() == b[j]);
}

proof fn lemma_ins_total_take_le(b: Seq<char>, ins: Option<Map<char, u64>>, j: int)
    requires
        0 <= j <= b.len(),
    ensures
        ins_total(b.take(j), ins) <= ins_total(b, ins),
    decreases b.len() - j,
{
    if j == b.len() {
        assert(b.take(j) =~= b);
    } else {
        lemma_ins_total_take_succ(b, ins, j);
        lemma_ins_total_take_le(b, ins, j + 1);
    }
}

/// The single-character cost tables seen through an optional reference.
pub open spec fn table_view(t: Option<&CostTable>) -> Option<Map<char, u64>> {
    match t {
        Option::None => None,
        Option::Some(tt) => Some(tt@),
    }
}

/// The substitution table seen through an optional reference.
pub open spec fn sub_view(t: Option<&SubstTable>) -> Option<Map<(char, char), u64>> {
    match t {
        Option::None => None,
        Option::Some(tt) => Some(tt@),
    }
}

fn char_cost_x(t: Option<&CostTable>, c: char) -> (r: u64)
    requires
        char_covered(table_view(t), c),
    ensures
        r as int == char_cost(table_view(t), c),
{
    match t {
        None => COST_ONE,
        Some(tt) => tt.get(c).unwrap(),
    }
}

fn pair_cost_x(t: Option<&SubstTable>, x: char, y: char) -> (r: u64)
    requires
        pair_covered(sub_view(t), x, y),
    ensures
        r as int == pair_cost(sub_view(t), x, y),
{
    match t {
        None => COST_ONE,
        Some(tt) => tt.get(x, y).unwrap(),
    }
}

#[verifier::loop_isolation(false)]
fn covers_all_chars(t: &CostTable, s: &Vec<char>) -> (r: bool)
    ensures
        r == covers_chars(Some(t@), s@),
{
    let mut i: usize = 0;
    while i < s.len()
        invariant
            i <= s@.len(),
            forall|k: int| 0 <= k < i ==> #[trigger] char_covered(Some(t@), s@[k]),
        decreases s@.len() - i,
    {
        if !t.contains(s[i]) {
            assert(!char_covered(Some(t@), s@[i as int]));
            return false;
        }
        i = i + 1;
    }
    true
}

#[verifier::loop_isolation(false)]
fn covers_all_pairs(t: &SubstTable, a: &Vec<char>, b: &Vec<char>) -> (r: bool)
    ensures
        r == covers_pairs(Some(t@), a@, b@),
{
    let mut i: usize = 0;
    while i < a.len()
        invariant
            i <= a@.len(),
            forall|k: int, l: int|
                0 <= k < i && 0 <= l < b@.len() && a@[k] != b@[l] ==> #[trigger] pair_covered(
                    Some(t@),
                    a@[k],
                    b@[l],
                ),
        decreases a@.len() - i,
    {
        let x = a[i];
        let mut j: usize = 0;
        while j < b.len()
            invariant
                i < a@.len(),
                j <= b@.len(),
                x == a@[i as int],
                forall|k: int, l: int|
                    0 <= k < i && 0 <= l < b@.len() && a@[k] != b@[l] ==> #[trigger] pair_covered(
                        Some(t@),
                        a@[k],
                        b@[l],
                    ),
                forall|l: int|
                    0 <= l < j && a@[i as int] != b@[l] ==> #[trigger] pair_covered(
                        Some(t@),
                        a@[i as int],
                        b@[l],
                    ),
            decreases b@.len() - j,
        {
            let y = b[j];
            if x != y && !t.contains(x, y) {
                assert(!pair_covered(Some(t@), a@[i as int], b@[j as int]));
                return false;
            }
            j = j + 1;
        }
        i = i + 1;
    }
    true
}

/// One working-row pass of the weighted recurrence. The requirement that
/// the delete-all-insert-all cost fits in a `u64` bounds every cell, so
/// only the substitution candidate needs a capped addition, and a capped
/// candidate can never be the minimum.
#[verifier::loop_isolation(false)]
fn weighted_row(
    a: &Vec<char>,
    b: &Vec<char>,
    ins: Option<&CostTable>,
    del: Option<&CostTable>,
    sub: Option<&SubstTable>,
) -> (d: u64)
    requires
        covered(a@, b@, table_view(ins), table_view(del), sub_view(sub)),
        del_total(a@, table_view(del)) + ins_total(b@, table_view(ins)) <= u64::MAX,
    ensures
        d as int == w_dist(a@, b@, table_view(ins), table_view(del), sub_view(sub)),
{
    let ghost iv = table_view(ins);
    let ghost dv = table_view(del);
    let ghost sv = sub_view(sub);
    let m = a.len();
    let n = b.len();
    let mut row: Vec<u64> = Vec::new();
    row.push(0);
    let mut j: usize = 0;
    while j < n
        invariant
            j <= n,
            row@.len() == j + 1,
            forall|k: int| 0 <= k <= j ==> row@[k] as int == w_dist(a@.take(0), b@.take(k), iv, dv, sv),
            forall|k: int| 0 <= k <= j ==> row@[k] as int == ins_total(b@.take(k), iv),
        decreases n - j,
    {
        assert(char_covered(iv, b@[j as int]));
        let c = char_cost_x(ins, b[j]);
        let top = row[j];
        proof {
            lemma_ins_total_take_succ(b@, iv, j as int);
            lemma_ins_total_take_le(b@, iv, j + 1);
            lemma_del_total_nonneg(a@, dv);
            assert(b@.take(j + 1).drop_last() =~= b@.take(j as int));
            assert(a@.take(0).len() == 0);
        }
        let v = top + c;
        row.push(v);
        j = j + 1;
    }
    let mut i: usize = 0;
    while i < m
        invariant
            i <= m,
            row@.len() == n + 1,
            forall|k: int|
                0 <= k <= n ==> row@[k] as int == w_dist(a@.take(i as int), b@.take(k), iv, dv, sv),
        decreases m - i,
    {
        assert(char_covered(dv, a@[i as int]));
        let x = a[i];
        let dc = char_cost_x(del, x);
        let mut prev: u64 = row[0];
        proof {
            lemma_w_dist_b_empty(a@.take(i as int), b@.take(0), iv, dv, sv);
            lemma_w_dist_b_empty(a@.take(i + 1), b@.take(0), iv, dv, sv);
            lemma_del_total_take_succ(a@, dv, i as int);
            lemma_del_total_take_le(a@, dv, i + 1);
            lemma_ins_total_nonneg(b@, iv);
            assert(a@.take(i + 1).drop_last() =~= a@.take(i as int));
        }
        let r0 = prev + dc;
        row[0] = r0;
        let mut j2: usize = 0;
        while j2 < n
            invariant
                i < m,
                j2 <= n,
                row@.len() == n + 1,
                x == a@[i as int],
                dc as int == char_cost(dv, a@[i as int]),
                prev as int == w_dist(a@.take(i as int), b@.take(j2 as int), iv, dv, sv),
                forall|k: int|
                    0 <= k <= j2 ==> row@[k] as int == w_dist(a@.take(i + 1), b@.take(k), iv, dv, sv),
                forall|k: int|
                    j2 < k <= n ==> row@[k] as int == w_dist(a@.take(i as int), b@.take(k), iv, dv, sv),
            decreases n - j2,
        {
            let jj = j2 + 1;
            let y = b[j2];
            let up = row[jj];
            let left = row[j2];
            let ghost ai = a@.take(i + 1);
            let ghost bj = b@.take(jj as int);
            proof {
                assert(ai.drop_last() =~= a@.take(i as int));
                assert(bj.drop_last() =~= b@.take(j2 as int));
                assert(ai.last() == a@[i as int]);
                assert(bj.last() == b@[j2 as int]);
                lemma_w_dist_upper(a@.take(i as int), bj, iv, dv, sv);
                lemma_w_dist_upper(ai, b@.take(j2 as int), iv, dv, sv);
                lemma_del_total_take_succ(a@, dv, i as int);
                lemma_del_total_take_le(a@, dv, i + 1);
                lemma_ins_total_take_succ(b@, iv, j2 as int);
                lemma_ins_total_take_le(b@, iv, jj as int);
            }
            let cur: u64;
            if x == y {
                cur = prev;
            } else {
                assert(char_covered(iv, b@[j2 as int]));
                assert(pair_covered(sv, a@[i as int], b@[j2 as int]));
                let ic = char_cost_x(ins, y);
                let sc = pair_cost_x(sub, x, y);
                let c1 = up + dc;
                let c2 = left + ic;
                let c3 = if prev > u64::MAX - sc {
                    u64::MAX
                } else {
                    prev + sc
                };
                let mut best = c1;
                if c2 < best {
                    best = c2;
                }
                if c3 < best {
                    best = c3;
                }
                proof {
                    let v = w_dist(ai, bj, iv, dv, sv);
                    assert(v == min3(
                        w_dist(a@.take(i as int), bj, iv, dv, sv) + char_cost(dv, ai.last()),
                        w_dist(ai, b@.take(j2 as int), iv, dv, sv) + char_cost(iv, bj.last()),
                        w_dist(a@.take(i as int), b@.take(j2 as int), iv, dv, sv) + pair_cost(
                            sv,
                            ai.last(),
                            bj.last(),
                        ),
                    ));
                    assert(v <= c1);
                    assert(best == v);
                }
                cur = best;
            }
            prev = up;
            row[jj] = cur;
            j2 = jj;
        }
        i = i + 1;
    }
    proof {
        assert(a@.take(m as int) =~= a@);
        assert(b@.take(n as int) =~= b@);
    }
    row[n]
}

proof fn lemma_w_dist_b_empty(
    a: Seq<char>,
    b: Seq<char>,
    ins: Option<Map<char, u64>>,
    del: Option<Map<char, u64>>,
    sub: Option<Map<(char, char), u64>>,
)
    requires
        b.len() == 0,
    ensures
        w_dist(a, b, ins, del, sub) == del_total(a, del),
    decreases a.len(),
{
    if a.len() == 0 {
    } else {
        lemma_w_dist_b_empty(a.drop_last(), b, ins, del, sub);
    }
}

/// The optional substitution table as the transposed recurrence sees it:
/// every pair key reversed.
pub open spec fn flip_sub(t: Option<Map<(char, char), u64>>) -> Option<Map<(char, char), u64>> {
    match t {
        Option::None => None,
        Option::Some(m) => Some(crate::tables::flip_pair_map(m)),
    }
}

proof fn lemma_covered_drop(
    a: Seq<char>,
    b: Seq<char>,
    ins: Option<Map<char, u64>>,
    del: Option<Map<char, u64>>,
    sub: Option<Map<(char, char), u64>>,
)
    requires
        covered(a, b, ins, del, sub),
    ensures
        a.len() > 0 ==> covered(a.drop_last(), b, ins, del, sub),
        b.len() > 0 ==> covered(a, b.drop_last(), ins, del, sub),
        a.len() > 0 && b.len() > 0 ==> covered(a.drop_last(), b.drop_last(), ins, del, sub),
{
    let a1 = a.drop_last();
    let b1 = b.drop_last();
    if a.len() > 0 {
        assert forall|i: int| 0 <= i < a1.len() implies #[trigger] char_covered(del, a1[i]) by {
            assert(a1[i] == a[i]);
        }
        assert forall|i: int, j: int|
            0 <= i < a1.len() && 0 <= j < b.len() && a1[i] != b[j] implies #[trigger] pair_covered(
            sub,
            a1[i],
            b[j],
        ) by {
            assert(a1[i] == a[i]);
        }
    }
    if b.len() > 0 {
        assert forall|j: int| 0 <= j < b1.len() implies #[trigger] char_covered(ins, b1[j]) by {
            assert(b1[j] == b[j]);
        }
        assert forall|i: int, j: int|
            0 <= i < a.len() && 0 <= j < b1.len() && a[i] != b1[j] implies #[trigger] pair_covered(
            sub,
            a[i],
            b1[j],
        ) by {
            assert(b1[j] == b[j]);
        }
    }
    if a.len() > 0 && b.len() > 0 {
        assert forall|i: int, j: int|
            0 <= i < a1.len() && 0 <= j < b1.len() && a1[i] != b1[j] implies #[trigger] pair_covered(
            sub,
            a1[i],
            b1[j],
        ) by {
            assert(a1[i] == a[i]);
            assert(b1[j] == b[j]);
        }
    }
}

proof fn lemma_covered_transpose(
    a: Seq<char>,
    b: Seq<char>,
    ins: Option<Map<char, u64>>,
    del: Option<Map<char, u64>>,
    sub: Option<Map<(char, char), u64>>,
)
    requires
        covered(a, b, ins, del, sub),
    ensures
        covered(b, a, del, ins, flip_sub(sub)),
{
    assert forall|i: int, j: int|
        0 <= i < b.len() && 0 <= j < a.len() && b[i] != a[j] implies #[trigger] pair_covered(
        flip_sub(sub),
        b[i],
        a[j],
    ) by {
        assert(pair_covered(sub, a[j], b[i]));
    }
}

proof fn lemma_role_total(s: Seq<char>, t: Option<Map<char, u64>>)
    ensures
        del_total(s, t) == ins_total(s, t),
    decreases s.len(),
{
    if s.len() == 0 {
    } else {
        lemma_role_total(s.drop_last(), t);
    }
}

/// Transposition: swapping the two sequences, swapping the roles of the
/// insertion and deletion tables, and reversing the substitution table's
/// pair keys leaves the weighted distance unchanged.
proof fn lemma_w_transpose(
    a: Seq<char>,
    b: Seq<char>,
    ins: Option<Map<char, u64>>,
    del: Option<Map<char, u64>>,
    sub: Option<Map<(char, char), u64>>,
)
    requires
        covered(a, b, ins, del, sub),
    ensures
        w_dist(b, a, del, ins, flip_sub(sub)) == w_dist(a, b, ins, del, sub),
    decreases a.len() + b.len(),
{
    lemma_covered_drop(a, b, ins, del, sub);
    if a.len() == 0 && b.len() == 0 {
    } else if a.len() == 0 {
        lemma_w_transpose(a, b.drop_last(), ins, del, sub);
    } else if b.len() == 0 {
        lemma_w_transpose(a.drop_last(), b, ins, del, sub);
    } else if a.last() == b.last() {
        lemma_w_transpose(a.drop_last(), b.drop_last(), ins, del, sub);
    } else {
        lemma_w_transpose(a.drop_last(), b, ins, del, sub);
        lemma_w_transpose(a, b.drop_last(), ins, del, sub);
        lemma_w_transpose(a.drop_last(), b.drop_last(), ins, del, sub);
        assert(a.last() == a[a.len() - 1]);
        assert(b.last() == b[b.len() - 1]);
        assert(pair_covered(sub, a[a.len() - 1], b[b.len() - 1]));
        match sub {
            Option::None => {
            },
            Option::Some(m) => {
                assert(m.contains_key((a.last(), b.last())));
                assert(crate::tables::flip_pair_map(m)[(b.last(), a.last())] == m[
                    (a.last(), b.last())
                ]);
            },
        }
    }
}

/// The weighted edit distance between `a` and `b`. An absent table means
/// every operation of its role costs 1.0 (`COST_ONE`); matching characters
/// always align for free. A supplied table missing an entry for a
/// character of the input it governs (or, for the substitution table, for
/// a differing pair) is reported as a `LookupError`, with no distance
/// computed.
pub fn weighted_distance(
    a: &Vec<char>,
    b: &Vec<char>,
    ins: Option<&CostTable>,
    del: Option<&CostTable>,
    sub: Option<&SubstTable>,
) -> (r: Result<u64, LookupError>)
    requires
        covered(a@, b@, table_view(ins), table_view(del), sub_view(sub)) ==> del_total(
            a@,
            table_view(del),
        ) + ins_total(b@, table_view(ins)) <= u64::MAX,
    ensures
        r is Ok <==> covered(a@, b@, table_view(ins), table_view(del), sub_view(sub)),
        r is Ok ==> r->Ok_0 as int == w_dist(
            a@,
            b@,
            table_view(ins),
            table_view(del),
            sub_view(sub),
        ),
{
    match del {
        None => (),
        Some(t) => {
            if !covers_all_chars(t, a) {
                return Err(LookupError);
            }
        },
    }
    match ins {
        None => (),
        Some(t) => {
            if !covers_all_chars(t, b) {
                return Err(LookupError);
            }
        },
    }
    match sub {
        None => (),
        Some(t) => {
            if !covers_all_pairs(t, a, b) {
                return Err(LookupError);
            }
        },
    }
    assert(covers_chars(table_view(del), a@));
    assert(covers_chars(table_view(ins), b@));
    assert(covers_pairs(sub_view(sub), a@, b@));
    if b.len() <= a.len() {
        Ok(weighted_row(a, b, ins, del, sub))
    } else {
        // The shorter sequence sizes the working row: run the transposed
        // recurrence, which swaps the two role tables and reverses the
        // substitution table's pair keys.
        proof {
            lemma_covered_transpose(a@, b@, table_view(ins), table_view(del), sub_view(sub));
            lemma_w_transpose(a@, b@, table_view(ins), table_view(del), sub_view(sub));
            lemma_role_total(a@, table_view(del));
            lemma_role_total(b@, table_view(ins));
        }
        match sub {
            None => Ok(weighted_row(b, a, del, ins, None)),
            Some(t) => {
                let f = t.flipped();
                Ok(weighted_row(b, a, del, ins, Some(&f)))
            },
        }
    }
}

} // verus!
