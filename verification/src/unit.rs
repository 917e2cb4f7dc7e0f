//! The unit-cost (Levenshtein) edit distance: every insertion, deletion and
//! substitution costs exactly 1.

use vstd::prelude::*;

verus! {

/// The smallest of three integers.
pub open spec fn min3(x: int, y: int, z: int) -> int {
    if x <= y && x <= z {
        x
    } else if y <= z {
        y
    } else {
        z
    }
}

/// Cost of aligning characters `x` and `y` under unit costs: 0 when they
/// match, 1 for a substitution.
pub open spec fn mismatch(x: char, y: char) -> int {
    if x == y {
        0
    } else {
        1
    }
}

/// The Levenshtein distance between `a` and `b`: the minimum number of
/// single-character insertions, deletions and substitutions that turn `a`
/// into `b`, stated as the classic recurrence on last characters.
pub open spec fn unit_dist(a: Seq<char>, b: Seq<char>) -> int
    decreases a.len() + b.len(),
{
    if a.len() == 0 {
        b.len() as int
    } else if b.len() == 0 {
        a.len() as int
    } else {
        min3(
            unit_dist(a.drop_last(), b) + 1,
            unit_dist(a, b.drop_last()) + 1,
            unit_dist(a.drop_last(), b.drop_last()) + mismatch(a.last(), b.last()),
        )
    }
}

/// The larger of two integers.
pub open spec fn max2(x: int, y: int) -> int {
    if x >= y {
        x
    } else {
        y
    }
}

/// The distance is never negative.
proof fn lemma_unit_dist_nonneg(a: Seq<char>, b: Seq<char>)
    ensures
        0 <= unit_dist(a, b),
    decreases a.len() + b.len(),
{
    if a.len() == 0 || b.len() == 0 {
    } else {
        lemma_unit_dist_nonneg(a.drop_last(), b);
        lemma_unit_dist_nonneg(a, b.drop_last());
        lemma_unit_dist_nonneg(a.drop_last(), b.drop_last());
    }
}

/// The distance never exceeds the longer input's length: one can always
/// substitute along the shorter input and insert or delete the rest.
proof fn lemma_unit_dist_le_max(a: Seq<char>, b: Seq<char>)
    ensures
        unit_dist(a, b) <= max2(a.len() as int, b.len() as int),
    decreases a.len() + b.len(),
{
    if a.len() == 0 || b.len() == 0 {
    } else {
        lemma_unit_dist_le_max(a.drop_last(), b.drop_last());
    }
}

/// The distance never exceeds the sum of the input lengths: one can always
/// delete all of `a` and insert all of `b`.
proof fn lemma_unit_dist_le_sum(a: Seq<char>, b: Seq<char>)
    ensures
        unit_dist(a, b) <= a.len() + b.len(),
    decreases a.len() + b.len(),
{
    if a.len() == 0 || b.len() == 0 {
    } else {
        lemma_unit_dist_le_sum(a.drop_last(), b);
    }
}

/// The distance is at least the difference of the input lengths: every
/// operation changes a length by at most one.
proof fn lemma_unit_dist_ge_len_diff(a: Seq<char>, b: Seq<char>)
    ensures
        unit_dist(a, b) + a.len() >= b.len(),
        unit_dist(a, b) + b.len() >= a.len(),
    decreases a.len() + b.len(),
{
    if a.len() == 0 || b.len() == 0 {
    } else {
        lemma_unit_dist_ge_len_diff(a.drop_last(), b);
        lemma_unit_dist_ge_len_diff(a, b.drop_last());
        lemma_unit_dist_ge_len_diff(a.drop_last(), b.drop_last());
    }
}

/// Deleting the last character of `a` costs at most one extra operation.
proof fn lemma_del_step(a: Seq<char>, b: Seq<char>)
    requires
        a.len() > 0,
    ensures
        unit_dist(a, b) <= unit_dist(a.drop_last(), b) + 1,
{
}

/// Inserting the last character of `b` costs at most one extra operation.
proof fn lemma_ins_step(a: Seq<char>, b: Seq<char>)
    requires
        b.len() > 0,
    ensures
        unit_dist(a, b) <= unit_dist(a, b.drop_last()) + 1,
{
}

/// Aligning the two last characters costs at most a substitution.
proof fn lemma_sub_step(a: Seq<char>, b: Seq<char>)
    requires
        a.len() > 0,
        b.len() > 0,
    ensures
        unit_dist(a, b) <= unit_dist(a.drop_last(), b.drop_last()) + mismatch(a.last(), b.last()),
{
}

/// Dropping the last character of the second argument changes the distance
/// by at most one.
proof fn lemma_drop_last_right(a: Seq<char>, b: Seq<char>)
    requires
        b.len() > 0,
    ensures
        unit_dist(a, b.drop_last()) <= unit_dist(a, b) + 1,
    decreases a.len() + b.len(),
{
    let b1 = b.drop_last();
    if a.len() == 0 {
    } else {
        let a1 = a.drop_last();
        lemma_drop_last_right(a1, b);
        if b1.len() == 0 {
            assert(unit_dist(a, b1) == a.len());
            assert(unit_dist(a1, b1) == a1.len());
        } else {
            lemma_del_step(a, b1);
        }
        lemma_unit_dist_nonneg(a, b1);
        assert(unit_dist(a, b1) <= unit_dist(a1, b) + 2);
        assert(unit_dist(a, b1) <= unit_dist(a1, b1) + mismatch(a.last(), b.last()) + 1);
    }
}

/// The unit-cost distance is symmetric in its arguments.
pub proof fn lemma_unit_symmetry(a: Seq<char>, b: Seq<char>)
    ensures
        unit_dist(a, b) == unit_dist(b, a),
    decreases a.len() + b.len(),
{
    if a.len() == 0 || b.len() == 0 {
    } else {
        lemma_unit_symmetry(a.drop_last(), b);
        lemma_unit_symmetry(a, b.drop_last());
        lemma_unit_symmetry(a.drop_last(), b.drop_last());
    }
}

/// Dropping the last character of the first argument changes the distance
/// by at most one.
proof fn lemma_drop_last_left(a: Seq<char>, b: Seq<char>)
    requires
        a.len() > 0,
    ensures
        unit_dist(a.drop_last(), b) <= unit_dist(a, b) + 1,
{
    lemma_unit_symmetry(a, b);
    lemma_unit_symmetry(a.drop_last(), b);
    lemma_drop_last_right(b, a);
}

/// When the last characters match, aligning them is optimal: the distance
/// equals the distance between the two remainders.
pub(crate) proof fn lemma_match_optimal(a: Seq<char>, b: Seq<char>)
    requires
        a.len() > 0,
        b.len() > 0,
        a.last() == b.last(),
    ensures
        unit_dist(a, b) == unit_dist(a.drop_last(), b.drop_last()),
{
    let a1 = a.drop_last();
    let b1 = b.drop_last();
    lemma_drop_last_right(a1, b);
    lemma_drop_last_left(a, b1);
}

/// Identity: a sequence is at distance 0 from itself.
pub proof fn lemma_unit_identity(s: Seq<char>)
    ensures
        unit_dist(s, s) == 0,
    decreases s.len(),
{
    if s.len() == 0 {
    } else {
        lemma_match_optimal(s, s);
        lemma_unit_identity(s.drop_last());
    }
}

/// Empty-input boundary: the distance from or to the empty sequence is the
/// other sequence's length.
pub proof fn lemma_unit_empty(a: Seq<char>, b: Seq<char>)
    ensures
        unit_dist(Seq::<char>::empty(), b) == b.len(),
        unit_dist(a, Seq::<char>::empty()) == a.len(),
{
}

/// Triangle inequality: going from `a` to `c` directly never costs more
/// than going through `b`.
pub proof fn lemma_unit_triangle(a: Seq<char>, b: Seq<char>, c: Seq<char>)
    ensures
        unit_dist(a, c) <= unit_dist(a, b) + unit_dist(b, c),
    decreases a.len() + b.len() + c.len(),
{
    if a.len() == 0 {
        lemma_unit_dist_ge_len_diff(b, c);
    } else if b.len() == 0 {
        lemma_unit_dist_le_sum(a, c);
    } else if c.len() == 0 {
        lemma_unit_dist_ge_len_diff(a, b);
    } else {
        let a1 = a.drop_last();
        let b1 = b.drop_last();
        let c1 = c.drop_last();
        let dab = unit_dist(a, b);
        let del_b = unit_dist(a1, b) + 1;
        let ins_b = unit_dist(a, b1) + 1;
        let sub_b = unit_dist(a1, b1) + mismatch(a.last(), b.last());
        if dab == del_b {
            lemma_unit_triangle(a1, b, c);
            lemma_del_step(a, c);
        } else if dab == ins_b {
            lemma_unit_triangle(a, b1, c);
            lemma_drop_last_left(b, c);
        } else {
            assert(dab == sub_b);
            let dbc = unit_dist(b, c);
            let del_c = unit_dist(b1, c) + 1;
            let ins_c = unit_dist(b, c1) + 1;
            let sub_c = unit_dist(b1, c1) + mismatch(b.last(), c.last());
            if dbc == del_c {
                lemma_unit_triangle(a, b1, c);
                lemma_del_step(a, b1);
            } else if dbc == ins_c {
                lemma_unit_triangle(a, b, c1);
                lemma_ins_step(a, c);
            } else {
                assert(dbc == sub_c);
                lemma_unit_triangle(a1, b1, c1);
                lemma_sub_step(a, c);
                assert(mismatch(a.last(), c.last()) <= mismatch(a.last(), b.last()) + mismatch(
                    b.last(),
                    c.last(),
                ));
            }
        }
    }
}

/// One working-row pass of the unit-cost recurrence: `x` is the outer
/// dimension, `y` sizes the row. Cell values never exceed the longer
/// length, so the capped increments below never change the minimum.
#[verifier::loop_isolation(false)]
fn unit_row(x: &Vec<char>, y: &Vec<char>) -> (d: usize)
    requires
        y@.len() <= x@.len(),
    ensures
        d == unit_dist(x@, y@),
{
    let m = x.len();
    let n = y.len();
    let mut row: Vec<usize> = Vec::new();
    row.push(0);
    while row.len() <= n
        invariant
            1 <= row@.len() <= n + 1,
            forall|k: int| 0 <= k < row@.len() ==> row@[k] == k,
        decreases n + 1 - row@.len(),
    {
        let l = row.len();
        row.push(l);
    }
    proof {
        assert forall|k: int| 0 <= k <= n implies row@[k] == unit_dist(
            x@.take(0),
            y@.take(k),
        ) by {
            assert(x@.take(0).len() == 0);
            assert(y@.take(k).len() == k);
        }
    }
    let mut i: usize = 0;
    while i < m
        invariant
            i <= m,
            row@.len() == n + 1,
            forall|k: int| 0 <= k <= n ==> row@[k] == unit_dist(x@.take(i as int), y@.take(k)),
        decreases m - i,
    {
        let mut prev: usize = row[0];
        i = i + 1;
        row[0] = i;
        proof {
            assert(x@.take(i as int).len() == i);
            assert(y@.take(0).len() == 0);
        }
        let mut j: usize = 0;
        while j < n
            invariant
                1 <= i <= m,
                j <= n,
                row@.len() == n + 1,
                prev == unit_dist(x@.take(i - 1), y@.take(j as int)),
                forall|k: int| 0 <= k <= j ==> row@[k] == unit_dist(x@.take(i as int), y@.take(k)),
                forall|k: int|
                    j < k <= n ==> row@[k] == unit_dist(x@.take(i - 1), y@.take(k)),
            decreases n - j,
        {
            let jj = j + 1;
            let up = row[jj];
            let left = row[j];
            let cost: usize = if x[i - 1] == y[jj - 1] {
                0
            } else {
                1
            };
            let c1 = if up == usize::MAX {
                up
            } else {
                up + 1
            };
            let c2 = if left == usize::MAX {
                left
            } else {
                left + 1
            };
            let c3 = if cost == 1 && prev == usize::MAX {
                prev
            } else {
                prev + cost
            };
            let mut cur = c1;
            if c2 < cur {
                cur = c2;
            }
            if c3 < cur {
                cur = c3;
            }
            proof {
                let ai = x@.take(i as int);
                let bj = y@.take(jj as int);
                assert(ai.drop_last() =~= x@.take(i - 1));
                assert(bj.drop_last() =~= y@.take(j as int));
                assert(ai.last() == x@[i - 1]);
                assert(bj.last() == y@[jj - 1]);
                let v = unit_dist(ai, bj);
                assert(v == min3(
                    unit_dist(x@.take(i - 1), bj) + 1,
                    unit_dist(ai, y@.take(j as int)) + 1,
                    unit_dist(x@.take(i - 1), y@.take(j as int)) + mismatch(ai.last(), bj.last()),
                ));
                lemma_unit_dist_le_max(ai, bj);
                assert(v <= max2(i as int, jj as int));
                assert(cur == v);
            }
            prev = up;
            row[jj] = cur;
            j = jj;
        }
    }
    proof {
        assert(x@.take(m as int) =~= x@);
        assert(y@.take(n as int) =~= y@);
    }
    row[n]
}

/// The unit-cost (Levenshtein) distance between `a` and `b`: the minimum
/// number of single-character insertions, deletions and substitutions that
/// turn `a` into `b`. Empty inputs short-circuit to the other input's
/// length, and the shorter input sizes the working row.
pub fn unit_distance(a: &Vec<char>, b: &Vec<char>) -> (d: usize)
    ensures
        d == unit_dist(a@, b@),
{
    if a.len() == 0 {
        return b.len();
    }
    if b.len() == 0 {
        return a.len();
    }
    if b.len() <= a.len() {
        unit_row(a, b)
    } else {
        proof {
            lemma_unit_symmetry(a@, b@);
        }
        unit_row(b, a)
    }
}

} // verus!
