//! The balanced size shape: with `n` students in `g` groups, `n % g` groups
//! hold `n / g + 1` students and the others `n / g`.

use vstd::prelude::*;

verus! {

/// How many entries of `s` equal `v`.
pub open spec fn count_eq(s: Seq<int>, v: int) -> nat
    decreases s.len(),
{
    if s.len() == 0 {
        0
    } else {
        count_eq(s.drop_last(), v) + if s.last() == v {
            1nat
        } else {
            0nat
        }
    }
}

/// How many entries of `flags` are set.
pub open spec fn count_set(flags: Seq<bool>) -> nat
    decreases flags.len(),
{
    if flags.len() == 0 {
        0
    } else {
        count_set(flags.drop_last()) + if flags.last() {
            1nat
        } else {
            0nat
        }
    }
}

/// `sizes` is the balanced shape for `n` students in `g` groups: one entry per
/// group, each `n / g` or `n / g + 1`, and exactly `n % g` of the larger.
pub open spec fn is_balanced(sizes: Seq<int>, n: nat, g: nat) -> bool
    recommends
        g > 0,
{
    let base = (n / g) as int;
    &&& sizes.len() == g
    &&& forall|i: int| 0 <= i < sizes.len() ==> #[trigger] sizes[i] == base || sizes[i] == base + 1
    &&& count_eq(sizes, base + 1) == n % g
}

/// `sizes` gives `base` to every group, plus one to each group whose flag is
/// set.
pub open spec fn sizes_from_slots(sizes: Seq<int>, base: int, extra: Seq<bool>) -> bool {
    &&& sizes.len() == extra.len()
    &&& forall|i: int|
        0 <= i < sizes.len() ==> #[trigger] sizes[i] == base + if extra[i] {
            1int
        } else {
            0int
        }
}

pub proof fn lemma_count_slots(sizes: Seq<int>, base: int, extra: Seq<bool>)
    requires
        sizes_from_slots(sizes, base, extra),
    ensures
        count_eq(sizes, base + 1) == count_set(extra),
    decreases sizes.len(),
{
    if sizes.len() > 0 {
        let (s, e) = (sizes.drop_last(), extra.drop_last());
        assert forall|i: int| 0 <= i < s.len() implies #[trigger] s[i] == base + if e[i] {
            1int
        } else {
            0int
        } by {
            assert(sizes[i] == base + if extra[i] {
                1int
            } else {
                0int
            });
        }
        lemma_count_slots(s, base, e);
        assert(sizes[sizes.len() - 1] == base + if extra[sizes.len() - 1] {
            1int
        } else {
            0int
        });
    }
}

/// A size vector is balanced exactly when it hands `n / g` to every group
/// and one more to `n % g` of them, chosen by some assignment of the extra
/// slots.
pub proof fn lemma_balanced_iff_extra_slots(sizes: Seq<int>, n: nat, g: nat)
    requires
        g > 0,
    ensures
        is_balanced(sizes, n, g) <==> exists|extra: Seq<bool>|
            #![trigger count_set(extra)]
            sizes.len() == g && sizes_from_slots(sizes, (n / g) as int, extra) && count_set(extra)
                == n % g,
{
    let base = (n / g) as int;
    if is_balanced(sizes, n, g) {
        let extra = Seq::new(sizes.len(), |i: int| sizes[i] == base + 1);
        assert forall|i: int| 0 <= i < sizes.len() implies #[trigger] sizes[i] == base + if extra[i] {
            1int
        } else {
            0int
        } by {
            assert(sizes[i] == base || sizes[i] == base + 1);
        }
        lemma_count_slots(sizes, base, extra);
    }
    if exists|extra: Seq<bool>|
        #![trigger count_set(extra)]
        sizes.len() == g && sizes_from_slots(sizes, base, extra) && count_set(extra) == n % g {
        let extra = choose|extra: Seq<bool>|
            #![trigger count_set(extra)]
            sizes.len() == g && sizes_from_slots(sizes, base, extra) && count_set(extra) == n % g;
        lemma_count_slots(sizes, base, extra);
        assert forall|i: int| 0 <= i < sizes.len() implies #[trigger] sizes[i] == base || sizes[i]
            == base + 1 by {
            assert(sizes[i] == base + if extra[i] {
                1int
            } else {
                0int
            });
        }
    }
}

/// The integer view of a size vector.
pub open spec fn as_ints(sizes: Seq<usize>) -> Seq<int> {
    sizes.map_values(|x: usize| x as int)
}

/// Whether `group_sizes` is the balanced shape for `num_students` students in
/// `num_groups` groups.
pub fn all_equal(num_groups: usize, num_students: usize, group_sizes: &[usize]) -> (r: bool)
    requires
        num_groups > 0,
    ensures
        r == is_balanced(as_ints(group_sizes@), num_students as nat, num_groups as nat),
{
    let students_per_group = num_students / num_groups;
    let remainder = num_students % num_groups;
    let sizes = Ghost(as_ints(group_sizes@));
    let base = Ghost(students_per_group as int);
    if group_sizes.len() != num_groups {
        return false;
    }
    let mut extra_seen: usize = 0;
    let mut i: usize = 0;
    while i < group_sizes.len()
        invariant
            i <= group_sizes.len(),
            sizes@ == as_ints(group_sizes@),
            base@ == students_per_group,
            students_per_group == num_students / num_groups,
            remainder == num_students % num_groups,
            remainder < num_groups,
            forall|j: int| 0 <= j < i ==> #[trigger] sizes@[j] == base@ || sizes@[j] == base@ + 1,
            extra_seen == count_eq(sizes@.take(i as int), base@ + 1),
            extra_seen <= remainder,
        decreases group_sizes.len() - i,
    {
        let size = group_sizes[i];
        assert(sizes@.take(i + 1).drop_last() =~= sizes@.take(i as int));
        assert(sizes@[i as int] == size as int);
        if size < students_per_group || size - students_per_group > 1 {
            return false;
        }
        if size != students_per_group {
            if extra_seen == remainder {
                assert(count_eq(sizes@.take(i + 1), base@ + 1) == remainder + 1);
                assert(count_eq(sizes@, base@ + 1) >= count_eq(sizes@.take(i + 1), base@ + 1))
                    by {
                    lemma_count_prefix(sizes@, base@ + 1, i + 1);
                }
                return false;
            }
            extra_seen = extra_seen + 1;
        }
        i = i + 1;
    }
    assert(sizes@.take(i as int) =~= sizes@);
    extra_seen == remainder
}

/// Counting over a prefix never gives more than over the whole.
pub proof fn lemma_count_prefix(s: Seq<int>, v: int, k: int)
    requires
        0 <= k <= s.len(),
    ensures
        count_eq(s.take(k), v) <= count_eq(s, v),
    decreases s.len(),
{
    if k < s.len() {
        assert(s.drop_last().take(k) =~= s.take(k));
        lemma_count_prefix(s.drop_last(), v, k);
    } else {
        assert(s.take(k) =~= s);
    }
}

/// `l` is the first index of a largest entry of `sizes`.
pub open spec fn is_first_largest(sizes: Seq<int>, l: int) -> bool {
    &&& 0 <= l < sizes.len()
    &&& forall|j: int| 0 <= j < sizes.len() ==> #[trigger] sizes[j] <= sizes[l]
    &&& forall|j: int| 0 <= j < l ==> #[trigger] sizes[j] < sizes[l]
}

/// `m` is the first index of a smallest entry of `sizes`.
pub open spec fn is_first_smallest(sizes: Seq<int>, m: int) -> bool {
    &&& 0 <= m < sizes.len()
    &&& forall|j: int| 0 <= j < sizes.len() ==> #[trigger] sizes[j] >= sizes[m]
    &&& forall|j: int| 0 <= j < m ==> #[trigger] sizes[j] > sizes[m]
}

/// The first largest and the first smallest group, scanning left to right.
pub fn identify_groups(group_sizes: &[usize]) -> (r: (usize, usize))
    requires
        group_sizes.len() > 0,
    ensures
        is_first_largest(as_ints(group_sizes@), r.0 as int),
        is_first_smallest(as_ints(group_sizes@), r.1 as int),
{
    let ghost sizes = as_ints(group_sizes@);
    let mut largest: usize = 0;
    let mut smallest: usize = 0;
    let mut i: usize = 0;
    while i < group_sizes.len()
        invariant
            sizes == as_ints(group_sizes@),
            i <= group_sizes.len(),
            largest < group_sizes.len(),
            smallest < group_sizes.len(),
            forall|j: int| 0 <= j < i ==> #[trigger] sizes[j] <= sizes[largest as int],
            forall|j: int| 0 <= j < largest ==> #[trigger] sizes[j] < sizes[largest as int],
            forall|j: int| 0 <= j < i ==> #[trigger] sizes[j] >= sizes[smallest as int],
            forall|j: int| 0 <= j < smallest ==> #[trigger] sizes[j] > sizes[smallest as int],
        decreases group_sizes.len() - i,
    {
        let size = group_sizes[i];
        if size > group_sizes[largest] {
            largest = i;
        }
        if size < group_sizes[smallest] {
            smallest = i;
        }
        i = i + 1;
    }
    (largest, smallest)
}

/// The sum of the entries of `s`.
pub open spec fn sum_of(s: Seq<int>) -> int
    decreases s.len(),
{
    if s.len() == 0 {
        0
    } else {
        sum_of(s.drop_last()) + s.last()
    }
}

/// The sum of the squares of the entries of `s`.
pub open spec fn sum_of_squares(s: Seq<int>) -> int
    decreases s.len(),
{
    if s.len() == 0 {
        0
    } else {
        sum_of_squares(s.drop_last()) + s.last() * s.last()
    }
}

pub proof fn lemma_sums_update(s: Seq<int>, i: int, v: int)
    requires
        0 <= i < s.len(),
    ensures
        sum_of(s.update(i, v)) == sum_of(s) - s[i] + v,
        sum_of_squares(s.update(i, v)) == sum_of_squares(s) - s[i] * s[i] + v * v,
    decreases s.len(),
{
    let t = s.update(i, v);
    if i < s.len() - 1 {
        assert(t.drop_last() =~= s.drop_last().update(i, v));
        lemma_sums_update(s.drop_last(), i, v);
    } else {
        assert(t.drop_last() =~= s.drop_last());
    }
}

/// Entries that are all `a` or `a + 1` sum to `len · a` plus the number of
/// `a + 1`.
pub proof fn lemma_sum_of_two_values(s: Seq<int>, a: int)
    requires
        forall|i: int| 0 <= i < s.len() ==> #[trigger] s[i] == a || s[i] == a + 1,
    ensures
        sum_of(s) == s.len() * a + count_eq(s, a + 1),
    decreases s.len(),
{
    if s.len() > 0 {
        let t = s.drop_last();
        assert forall|i: int| 0 <= i < t.len() implies #[trigger] t[i] == a || t[i] == a + 1 by {
            assert(t[i] == s[i]);
        }
        lemma_sum_of_two_values(t, a);
        assert(s.len() * a == t.len() * a + a) by (nonlinear_arith)
            requires
                s.len() == t.len() + 1,
        ;
        assert(s[s.len() - 1] == a || s[s.len() - 1] == a + 1);
    }
}

/// An entry other than `v` keeps the count of `v` below the length.
pub proof fn lemma_count_below_len(s: Seq<int>, v: int, k: int)
    requires
        0 <= k < s.len(),
        s[k] != v,
    ensures
        count_eq(s, v) < s.len(),
    decreases s.len(),
{
    if k < s.len() - 1 {
        lemma_count_below_len(s.drop_last(), v, k);
    } else {
        lemma_count_le_len(s.drop_last(), v);
    }
}

pub proof fn lemma_count_le_len(s: Seq<int>, v: int)
    ensures
        count_eq(s, v) <= s.len(),
    decreases s.len(),
{
    if s.len() > 0 {
        lemma_count_le_len(s.drop_last(), v);
    }
}

/// While the sizes of `n` students are not balanced, moving one student
/// from the first largest group to the first smallest keeps the total and
/// lowers the sum of squared sizes by at least two. That sum never drops
/// below zero, so repeated moves reach the balanced shape.
pub proof fn lemma_corrective_move_progress(sizes: Seq<int>, n: nat, g: nat, l: int, m: int)
    requires
        g > 0,
        sizes.len() == g,
        sum_of(sizes) == n,
        !is_balanced(sizes, n, g),
        is_first_largest(sizes, l),
        is_first_smallest(sizes, m),
    ensures
        sizes[l] - sizes[m] >= 2,
        l != m,
        sum_of(sizes.update(l, sizes[l] - 1).update(m, sizes[m] + 1)) == n,
        sum_of_squares(sizes.update(l, sizes[l] - 1).update(m, sizes[m] + 1)) <= sum_of_squares(
            sizes,
        ) - 2,
{
    let a = sizes[m];
    if sizes[l] - a <= 1 {
        assert forall|i: int| 0 <= i < sizes.len() implies #[trigger] sizes[i] == a || sizes[i]
            == a + 1 by {
            assert(sizes[i] <= sizes[l] && sizes[i] >= a);
        }
        lemma_sum_of_two_values(sizes, a);
        lemma_count_below_len(sizes, a + 1, m);
        let c = count_eq(sizes, a + 1) as int;
        assert(n == a * g + c) by (nonlinear_arith)
            requires
                n == sizes.len() * a + c,
                sizes.len() == g,
        ;
        vstd::arithmetic::div_mod::lemma_fundamental_div_mod_converse(n as int, g as int, a, c);
        assert(is_balanced(sizes, n, g));
    }
    let once = sizes.update(l, sizes[l] - 1);
    lemma_sums_update(sizes, l, sizes[l] - 1);
    assert(once[m] == sizes[m]);
    lemma_sums_update(once, m, sizes[m] + 1);
    let (big, small) = (sizes[l], sizes[m]);
    assert((big - 1) * (big - 1) + (small + 1) * (small + 1) <= big * big + small * small - 2)
        by (nonlinear_arith)
        requires
            big - small >= 2,
    ;
}

pub proof fn lemma_count_is_multiset_count(s: Seq<int>, v: int)
    ensures
        count_eq(s, v) == s.to_multiset().count(v),
    decreases s.len(),
{
    broadcast use {vstd::seq_lib::to_multiset_build, vstd::seq_lib::to_multiset_len, vstd::seq_lib::to_multiset_contains};

    if s.len() > 0 {
        lemma_count_is_multiset_count(s.drop_last(), v);
        assert(s =~= s.drop_last().push(s.last()));
    } else {
        assert(s.to_multiset().len() == 0);
    }
}

/// The balanced shape does not care which groups hold the extra students:
/// reordering a size vector keeps it balanced or unbalanced.
pub proof fn lemma_balanced_ignores_order(v1: Seq<int>, v2: Seq<int>, n: nat, g: nat)
    requires
        g > 0,
        v1.to_multiset() == v2.to_multiset(),
    ensures
        is_balanced(v1, n, g) == is_balanced(v2, n, g),
{
    broadcast use {vstd::seq_lib::to_multiset_build, vstd::seq_lib::to_multiset_len, vstd::seq_lib::to_multiset_contains};

    let base = (n / g) as int;
    lemma_count_is_multiset_count(v1, base + 1);
    lemma_count_is_multiset_count(v2, base + 1);
    vstd::seq_lib::to_multiset_len(v1);
    vstd::seq_lib::to_multiset_len(v2);
    assert(v1.len() == v2.len());
    assert forall|a: Seq<int>, b: Seq<int>|
        a.to_multiset() == b.to_multiset() && (forall|i: int|
            0 <= i < a.len() ==> #[trigger] a[i] == base || a[i] == base + 1) implies (forall|i: int|
        0 <= i < b.len() ==> #[trigger] b[i] == base || b[i] == base + 1) by {
        assert forall|i: int| 0 <= i < b.len() implies #[trigger] b[i] == base || b[i] == base + 1 by {
            assert(b.contains(b[i]));
            assert(a.to_multiset().count(b[i]) > 0);
            assert(a.contains(b[i]));
            let k = choose|k: int| 0 <= k < a.len() && a[k] == b[i];
            assert(a[k] == base || a[k] == base + 1);
        }
    }
}

/// How far a group of size `x` is from the sizes `b` and `b + 1`.
pub open spec fn misfit(x: int, b: int) -> int {
    if x < b {
        b - x
    } else if x > b + 1 {
        x - b - 1
    } else {
        0
    }
}

/// The total distance of the sizes from `b` or `b + 1`: the students
/// missing from groups below `b` plus the students beyond `b + 1`.
pub open spec fn total_misfit(s: Seq<int>, b: int) -> int
    decreases s.len(),
{
    if s.len() == 0 {
        0
    } else {
        total_misfit(s.drop_last(), b) + misfit(s.last(), b)
    }
}

pub proof fn lemma_misfit_update(s: Seq<int>, b: int, i: int, v: int)
    requires
        0 <= i < s.len(),
    ensures
        total_misfit(s.update(i, v), b) == total_misfit(s, b) - misfit(s[i], b) + misfit(v, b),
    decreases s.len(),
{
    let t = s.update(i, v);
    if i < s.len() - 1 {
        assert(t.drop_last() =~= s.drop_last().update(i, v));
        lemma_misfit_update(s.drop_last(), b, i, v);
    } else {
        assert(t.drop_last() =~= s.drop_last());
    }
}

pub proof fn lemma_sum_bounds(s: Seq<int>, lo: int, hi: int)
    requires
        forall|i: int| 0 <= i < s.len() ==> lo <= #[trigger] s[i] <= hi,
    ensures
        s.len() * lo <= sum_of(s) <= s.len() * hi,
    decreases s.len(),
{
    if s.len() > 0 {
        let t = s.drop_last();
        assert forall|i: int| 0 <= i < t.len() implies lo <= #[trigger] t[i] <= hi by {
            assert(t[i] == s[i]);
        }
        lemma_sum_bounds(t, lo, hi);
        assert(s.len() * lo == t.len() * lo + lo && s.len() * hi == t.len() * hi + hi)
            by (nonlinear_arith)
            requires
                s.len() == t.len() + 1,
        ;
        assert(lo <= s[s.len() - 1] <= hi);
    }
}

/// Each move made while the sizes are unbalanced brings the sizes at least
/// one student closer to the balanced shape: the total distance from the
/// sizes `n / g` and `n / g + 1` drops by one or more. So from any start
/// the balanced shape is reached within that many moves.
pub proof fn lemma_corrective_move_closes_gap(sizes: Seq<int>, n: nat, g: nat, l: int, m: int)
    requires
        g > 0,
        sizes.len() == g,
        sum_of(sizes) == n,
        !is_balanced(sizes, n, g),
        is_first_largest(sizes, l),
        is_first_smallest(sizes, m),
    ensures
        total_misfit(sizes.update(l, sizes[l] - 1).update(m, sizes[m] + 1), (n / g) as int)
            <= total_misfit(sizes, (n / g) as int) - 1,
{
    let b = (n / g) as int;
    let (big, small) = (sizes[l], sizes[m]);
    lemma_corrective_move_progress(sizes, n, g, l, m);
    assert forall|i: int| 0 <= i < sizes.len() implies small <= #[trigger] sizes[i] <= big by {}
    lemma_sum_bounds(sizes, small, big);
    vstd::arithmetic::div_mod::lemma_fundamental_div_mod(n as int, g as int);
    assert(small <= b) by (nonlinear_arith)
        requires
            g * small <= n,
            n == g * b + n % g,
            0 <= n % g < g,
            g > 0,
    ;
    assert(big >= b + 1) by {
        if big <= b {
            assert(n <= g * b) by (nonlinear_arith)
                requires
                    n <= g * big,
                    big <= b,
                    g > 0,
            ;
            assert(n % g == 0);
            assert forall|i: int| 0 <= i < sizes.len() implies #[trigger] sizes[i] == b || sizes[i]
                == b + 1 by {
                if sizes[i] < b {
                    let rest = sizes.update(i, b);
                    lemma_sums_update(sizes, i, b);
                    assert forall|k: int| 0 <= k < rest.len() implies small <= #[trigger] rest[k] <= b by {}
                    lemma_sum_bounds(rest, small, b);
                    assert(sum_of(rest) <= g * b);
                }
            }
            lemma_count_absent(sizes, b + 1);
        }
    }
    let once = sizes.update(l, big - 1);
    lemma_misfit_update(sizes, b, l, big - 1);
    assert(once[m] == small);
    lemma_misfit_update(once, b, m, small + 1);
}

pub proof fn lemma_count_absent(s: Seq<int>, v: int)
    requires
        forall|i: int| 0 <= i < s.len() ==> s[i] != v,
    ensures
        count_eq(s, v) == 0,
    decreases s.len(),
{
    if s.len() > 0 {
        lemma_count_absent(s.drop_last(), v);
    }
}

} // verus!
