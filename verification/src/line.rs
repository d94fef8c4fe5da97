//! The per-line shift-and-merge transform.
//!
//! A line is an ordered run of four cells taken from the grid; `0` marks an
//! empty cell. One move first compresses the nonzero tiles toward the target
//! end, then scans from that end and merges each adjacent equal pair once,
//! leaving the doubled tile on the wall side and a gap where its partner
//! stood. A tile produced by a merge never merges again in the same pass.

use vstd::prelude::*;

verus! {

/// The largest tile value the transform accepts: doubling it still fits in
/// an `i32`.
pub const TILE_BOUND: i32 = 0x3FFF_FFFF;

/// The mathematical value of each cell of a line.
pub open spec fn int_view(s: Seq<i32>) -> Seq<int> {
    s.map_values(|v: i32| v as int)
}

/// Every cell is nonnegative and small enough that a merge cannot overflow.
pub open spec fn tiles_bounded(s: Seq<int>) -> bool {
    forall|j: int| 0 <= j < s.len() ==> 0 <= #[trigger] s[j] <= TILE_BOUND
}

/// The nonzero cells of a line, in order: the result of compressing the
/// line toward the low-index end.
pub open spec fn nonzeros(s: Seq<int>) -> Seq<int>
    decreases s.len(),
{
    if s.len() == 0 {
        Seq::<int>::empty()
    } else {
        let rest = nonzeros(s.drop_last());
        if s.last() != 0 {
            rest.push(s.last())
        } else {
            rest
        }
    }
}

/// One merge pass over a line, scanning from the low-index end: each
/// adjacent equal pair becomes the doubled value followed by a gap, and the
/// scan continues past the pair, so a merged tile never merges again.
pub open spec fn merge_low(s: Seq<int>) -> Seq<int>
    decreases s.len(),
{
    if s.len() >= 2 && s[0] == s[1] {
        seq![2 * s[0], 0] + merge_low(s.skip(2))
    } else if s.len() >= 1 {
        seq![s[0]] + merge_low(s.skip(1))
    } else {
        Seq::<int>::empty()
    }
}

/// The full transform toward the low-index end: compress, merge once, and
/// pad the open end with zeros back to the line's length.
pub open spec fn shift_low_spec(s: Seq<int>) -> Seq<int> {
    let m = merge_low(nonzeros(s));
    m + Seq::<int>::new((s.len() - m.len()) as nat, |i: int| 0)
}

/// The transform for either direction of travel: toward the high-index end
/// it is the mirror image of the low-index transform.
pub open spec fn shift_spec(s: Seq<int>, forward: bool) -> Seq<int> {
    if forward {
        shift_low_spec(s.reverse()).reverse()
    } else {
        shift_low_spec(s)
    }
}

/// The sum of all cell values of a line.
pub open spec fn seq_sum(s: Seq<int>) -> int
    decreases s.len(),
{
    if s.len() == 0 {
        0
    } else {
        seq_sum(s.drop_last()) + s.last()
    }
}

/// How many cells of a line are empty.
pub open spec fn count_zeros(s: Seq<int>) -> nat
    decreases s.len(),
{
    if s.len() == 0 {
        0
    } else {
        count_zeros(s.drop_last()) + if s.last() == 0 {
            1nat
        } else {
            0nat
        }
    }
}

/// Compression keeps every nonzero cell and drops every empty one, so the
/// two counts split the line's length between them.
proof fn lemma_nonzeros_len(s: Seq<int>)
    ensures
        nonzeros(s).len() + count_zeros(s) == s.len(),
    decreases s.len(),
{
    if s.len() > 0 {
        lemma_nonzeros_len(s.drop_last());
    }
}

/// The merge pass leaves a gap in place of each merged pair, so it never
/// changes the length of a line.
proof fn lemma_merge_low_len(s: Seq<int>)
    ensures
        merge_low(s).len() == s.len(),
    decreases s.len(),
{
    if s.len() >= 2 && s[0] == s[1] {
        lemma_merge_low_len(s.skip(2));
    } else if s.len() >= 1 {
        lemma_merge_low_len(s.skip(1));
    }
}

proof fn lemma_sum_concat(a: Seq<int>, b: Seq<int>)
    ensures
        seq_sum(a + b) == seq_sum(a) + seq_sum(b),
    decreases b.len(),
{
    if b.len() == 0 {
        assert(a + b =~= a);
    } else {
        assert((a + b).drop_last() =~= a + b.drop_last());
        assert((a + b).last() == b.last());
        lemma_sum_concat(a, b.drop_last());
    }
}

proof fn lemma_sum_zeros(n: nat)
    ensures
        seq_sum(Seq::<int>::new(n, |i: int| 0)) == 0,
    decreases n,
{
    if n > 0 {
        lemma_sum_zeros((n - 1) as nat);
        assert(Seq::<int>::new(n, |i: int| 0).drop_last() =~= Seq::<int>::new(
            (n - 1) as nat,
            |i: int| 0,
        ));
    }
}

proof fn lemma_nonzeros_sum(s: Seq<int>)
    ensures
        seq_sum(nonzeros(s)) == seq_sum(s),
    decreases s.len(),
{
    if s.len() > 0 {
        lemma_nonzeros_sum(s.drop_last());
        if s.last() != 0 {
            let rest = nonzeros(s.drop_last());
            assert(rest.push(s.last()).drop_last() =~= rest);
            assert(rest.push(s.last()).last() == s.last());
        }
    }
}

proof fn lemma_merge_low_sum(s: Seq<int>)
    ensures
        seq_sum(merge_low(s)) == seq_sum(s),
    decreases s.len(),
{
    if s.len() >= 2 && s[0] == s[1] {
        lemma_merge_low_sum(s.skip(2));
        lemma_sum_concat(seq![2 * s[0], 0], merge_low(s.skip(2)));
        assert(seq![2 * s[0], 0].drop_last() =~= seq![2 * s[0]]);
        assert(seq![2 * s[0]].drop_last() =~= Seq::<int>::empty());
        assert(seq_sum(Seq::<int>::empty()) == 0);
        assert(seq_sum(seq![2 * s[0]]) == 2 * s[0]);
        assert(seq_sum(seq![2 * s[0], 0]) == 2 * s[0]);
        assert(s =~= s.take(2) + s.skip(2));
        lemma_sum_concat(s.take(2), s.skip(2));
        assert(s.take(2).drop_last() =~= seq![s[0]]);
        assert(s.take(2).last() == s[1]);
        assert(seq![s[0]].drop_last() =~= Seq::<int>::empty());
        assert(seq_sum(Seq::<int>::empty()) == 0);
        assert(seq_sum(seq![s[0]]) == s[0]);
        assert(seq_sum(s.take(2)) == s[0] + s[1]);
    } else if s.len() >= 1 {
        lemma_merge_low_sum(s.skip(1));
        lemma_sum_concat(seq![s[0]], merge_low(s.skip(1)));
        assert(seq![s[0]].drop_last() =~= Seq::<int>::empty());
        assert(s =~= s.take(1) + s.skip(1));
        lemma_sum_concat(s.take(1), s.skip(1));
        assert(s.take(1).drop_last() =~= Seq::<int>::empty());
        assert(s.take(1).last() == s[0]);
    }
}

proof fn lemma_sum_reverse(s: Seq<int>)
    ensures
        seq_sum(s.reverse()) == seq_sum(s),
    decreases s.len(),
{
    if s.len() > 0 {
        lemma_sum_reverse(s.drop_last());
        assert(s.reverse() =~= seq![s.last()] + s.drop_last().reverse());
        lemma_sum_concat(seq![s.last()], s.drop_last().reverse());
        assert(seq![s.last()].drop_last() =~= Seq::<int>::empty());
        assert(seq_sum(Seq::<int>::empty()) == 0);
        assert(seq_sum(seq![s.last()]) == s.last());
    }
}

pub(crate) proof fn lemma_sum_take_step(s: Seq<int>, i: int)
    requires
        0 <= i < s.len(),
    ensures
        seq_sum(s.take(i + 1)) == seq_sum(s.take(i)) + s[i],
{
    assert(s.take(i + 1).drop_last() =~= s.take(i));
    assert(s.take(i + 1).last() == s[i]);
}

pub(crate) proof fn lemma_sum_elements4(s: Seq<int>)
    requires
        s.len() == 4,
    ensures
        seq_sum(s) == s[0] + s[1] + s[2] + s[3],
{
    assert(s.take(0) =~= Seq::<int>::empty());
    assert(seq_sum(Seq::<int>::empty()) == 0);
    lemma_sum_take_step(s, 0);
    lemma_sum_take_step(s, 1);
    lemma_sum_take_step(s, 2);
    lemma_sum_take_step(s, 3);
    assert(s.take(4) =~= s);
}

pub(crate) proof fn lemma_sum_elements16(s: Seq<int>)
    requires
        s.len() == 16,
    ensures
        seq_sum(s) == s[0] + s[1] + s[2] + s[3] + s[4] + s[5] + s[6] + s[7] + s[8] + s[9] + s[10]
            + s[11] + s[12] + s[13] + s[14] + s[15],
{
    assert(s.take(0) =~= Seq::<int>::empty());
    assert(seq_sum(Seq::<int>::empty()) == 0);
    lemma_sum_take_step(s, 0);
    lemma_sum_take_step(s, 1);
    lemma_sum_take_step(s, 2);
    lemma_sum_take_step(s, 3);
    lemma_sum_take_step(s, 4);
    lemma_sum_take_step(s, 5);
    lemma_sum_take_step(s, 6);
    lemma_sum_take_step(s, 7);
    lemma_sum_take_step(s, 8);
    lemma_sum_take_step(s, 9);
    lemma_sum_take_step(s, 10);
    lemma_sum_take_step(s, 11);
    lemma_sum_take_step(s, 12);
    lemma_sum_take_step(s, 13);
    lemma_sum_take_step(s, 14);
    lemma_sum_take_step(s, 15);
    assert(s.take(16) =~= s);
}

/// The length of a line is not changed by a shift-and-merge pass.
pub proof fn lemma_shift_len(s: Seq<int>, forward: bool)
    ensures
        shift_spec(s, forward).len() == s.len(),
{
    if forward {
        lemma_nonzeros_len(s.reverse());
        lemma_merge_low_len(nonzeros(s.reverse()));
    } else {
        lemma_nonzeros_len(s);
        lemma_merge_low_len(nonzeros(s));
    }
}

proof fn lemma_shift_low_sum(s: Seq<int>)
    ensures
        seq_sum(shift_low_spec(s)) == seq_sum(s),
{
    let m = merge_low(nonzeros(s));
    lemma_nonzeros_sum(s);
    lemma_merge_low_sum(nonzeros(s));
    lemma_nonzeros_len(s);
    lemma_merge_low_len(nonzeros(s));
    lemma_sum_concat(m, Seq::<int>::new((s.len() - m.len()) as nat, |i: int| 0));
    lemma_sum_zeros((s.len() - m.len()) as nat);
}

/// Law: a shift-and-merge pass conserves the total of the tile values.
/// Merging two equal tiles into their double neither creates nor destroys
/// value, and compression only moves tiles.
pub proof fn lemma_shift_preserves_sum(s: Seq<int>, forward: bool)
    ensures
        seq_sum(shift_spec(s, forward)) == seq_sum(s),
{
    if forward {
        lemma_shift_low_sum(s.reverse());
        lemma_sum_reverse(shift_low_spec(s.reverse()));
        lemma_sum_reverse(s);
    } else {
        lemma_shift_low_sum(s);
    }
}

proof fn lemma_count_zeros_concat(a: Seq<int>, b: Seq<int>)
    ensures
        count_zeros(a + b) == count_zeros(a) + count_zeros(b),
    decreases b.len(),
{
    if b.len() == 0 {
        assert(a + b =~= a);
    } else {
        assert((a + b).drop_last() =~= a + b.drop_last());
        assert((a + b).last() == b.last());
        lemma_count_zeros_concat(a, b.drop_last());
    }
}

proof fn lemma_nonzeros_id(s: Seq<int>)
    requires
        count_zeros(s) == 0,
    ensures
        nonzeros(s) == s,
    decreases s.len(),
{
    if s.len() > 0 {
        lemma_nonzeros_id(s.drop_last());
        assert(s.last() != 0);
        assert(nonzeros(s) =~= s);
    } else {
        assert(nonzeros(s) =~= s);
    }
}

proof fn lemma_merge_changed_has_zero(t: Seq<int>)
    requires
        count_zeros(t) == 0,
        merge_low(t) != t,
    ensures
        count_zeros(merge_low(t)) >= 1,
    decreases t.len(),
{
    if t.len() >= 2 && t[0] == t[1] {
        lemma_count_zeros_concat(seq![2 * t[0], 0], merge_low(t.skip(2)));
        assert(seq![2 * t[0], 0].last() == 0);
        assert(count_zeros(seq![2 * t[0], 0]) >= 1);
    } else if t.len() >= 1 {
        assert(t =~= seq![t[0]] + t.skip(1));
        lemma_count_zeros_concat(seq![t[0]], t.skip(1));
        if merge_low(t.skip(1)) == t.skip(1) {
            assert(merge_low(t) =~= t);
            assert(false);
        }
        lemma_merge_changed_has_zero(t.skip(1));
        lemma_count_zeros_concat(seq![t[0]], merge_low(t.skip(1)));
    } else {
        assert(merge_low(t) =~= t);
        assert(false);
    }
}

proof fn lemma_cz_pos_exists_zero(s: Seq<int>)
    requires
        count_zeros(s) >= 1,
    ensures
        exists|j: int| 0 <= j < s.len() && s[j] == 0,
    decreases s.len(),
{
    if s.last() == 0 {
        assert(s[s.len() - 1] == 0);
    } else {
        lemma_cz_pos_exists_zero(s.drop_last());
        let j = choose|j: int| 0 <= j < s.drop_last().len() && s.drop_last()[j] == 0;
        assert(s[j] == 0);
    }
}

proof fn lemma_changed_low_has_empty(s: Seq<int>)
    requires
        shift_low_spec(s) != s,
    ensures
        exists|j: int| 0 <= j < shift_low_spec(s).len() && shift_low_spec(s)[j] == 0,
{
    let t = nonzeros(s);
    let m = merge_low(t);
    let pad = Seq::<int>::new((s.len() - m.len()) as nat, |i: int| 0);
    lemma_nonzeros_len(s);
    lemma_merge_low_len(t);
    if count_zeros(s) >= 1 {
        assert(shift_low_spec(s)[s.len() - 1] == pad[s.len() - 1 - m.len()]);
        assert(shift_low_spec(s)[s.len() - 1] == 0);
    } else {
        lemma_nonzeros_id(s);
        assert(shift_low_spec(s) =~= m);
        if merge_low(s) == s {
            assert(false);
        }
        lemma_merge_changed_has_zero(s);
        lemma_cz_pos_exists_zero(m);
        let j = choose|j: int| 0 <= j < m.len() && m[j] == 0;
        assert(shift_low_spec(s)[j] == 0);
    }
}

/// Law: a shift-and-merge pass that changes a line always leaves an empty
/// cell in it. Compression only changes a line that has an interior gap,
/// which it keeps; otherwise the change came from a merge, which opens one.
pub proof fn lemma_changed_line_has_empty(s: Seq<int>, forward: bool)
    requires
        shift_spec(s, forward) != s,
    ensures
        exists|j: int| 0 <= j < s.len() && shift_spec(s, forward)[j] == 0,
{
    lemma_shift_len(s, forward);
    if forward {
        let rs = s.reverse();
        if shift_low_spec(rs) == rs {
            assert(s.reverse().reverse() =~= s);
            assert(shift_spec(s, true) =~= s);
            assert(false);
        }
        lemma_changed_low_has_empty(rs);
        lemma_nonzeros_len(rs);
        lemma_merge_low_len(nonzeros(rs));
        let j = choose|j: int|
            0 <= j < shift_low_spec(rs).len() && shift_low_spec(rs)[j] == 0;
        assert(shift_spec(s, true)[s.len() - 1 - j] == 0);
    } else {
        lemma_changed_low_has_empty(s);
    }
}

/// Whether `v` could stand in a line derived from `s` by one shift-and-merge
/// pass: it is empty, a tile of `s`, or the double of a tile of `s`.
pub open spec fn value_from(s: Seq<int>, v: int) -> bool {
    v == 0 || exists|i: int| 0 <= i < s.len() && (v == s[i] || v == 2 * s[i])
}

proof fn lemma_value_from_skip(t: Seq<int>, v: int, k: int)
    requires
        0 <= k <= t.len(),
        value_from(t.skip(k), v),
    ensures
        value_from(t, v),
{
    if v != 0 {
        let i = choose|i: int|
            0 <= i < t.skip(k).len() && (v == t.skip(k)[i] || v == 2 * t.skip(k)[i]);
        assert(t.skip(k)[i] == t[i + k]);
    }
}

proof fn lemma_merge_low_values(t: Seq<int>)
    ensures
        forall|j: int|
            0 <= j < merge_low(t).len() ==> value_from(t, #[trigger] merge_low(t)[j]),
    decreases t.len(),
{
    if t.len() >= 2 && t[0] == t[1] {
        lemma_merge_low_values(t.skip(2));
        assert forall|j: int|
            0 <= j < merge_low(t).len() implies value_from(t, #[trigger] merge_low(t)[j]) by {
            if j == 0 {
                assert(merge_low(t)[0] == 2 * t[0]);
            } else if j == 1 {
                assert(merge_low(t)[1] == 0);
            } else {
                assert(merge_low(t)[j] == merge_low(t.skip(2))[j - 2]);
                assert(value_from(t.skip(2), merge_low(t.skip(2))[j - 2]));
                lemma_value_from_skip(t, merge_low(t)[j], 2);
            }
        }
    } else if t.len() >= 1 {
        lemma_merge_low_values(t.skip(1));
        assert forall|j: int|
            0 <= j < merge_low(t).len() implies value_from(t, #[trigger] merge_low(t)[j]) by {
            if j == 0 {
                assert(merge_low(t)[0] == t[0]);
            } else {
                assert(merge_low(t)[j] == merge_low(t.skip(1))[j - 1]);
                assert(value_from(t.skip(1), merge_low(t.skip(1))[j - 1]));
                lemma_value_from_skip(t, merge_low(t)[j], 1);
            }
        }
    }
}

proof fn lemma_nonzeros_values(s: Seq<int>)
    ensures
        forall|j: int| 0 <= j < nonzeros(s).len() ==> s.contains(#[trigger] nonzeros(s)[j]),
    decreases s.len(),
{
    if s.len() > 0 {
        lemma_nonzeros_values(s.drop_last());
        let rest = nonzeros(s.drop_last());
        assert forall|j: int|
            0 <= j < nonzeros(s).len() implies s.contains(#[trigger] nonzeros(s)[j]) by {
            if s.last() != 0 && j == rest.len() {
                assert(nonzeros(s)[j] == s.last());
                assert(s[s.len() - 1] == s.last());
            } else {
                assert(nonzeros(s)[j] == rest[j]);
                assert(s.drop_last().contains(rest[j]));
                let i = choose|i: int| 0 <= i < s.drop_last().len() && s.drop_last()[i] == rest[j];
                assert(s[i] == rest[j]);
            }
        }
    }
}

proof fn lemma_shift_low_values(s: Seq<int>)
    ensures
        forall|j: int|
            0 <= j < shift_low_spec(s).len() ==> value_from(s, #[trigger] shift_low_spec(s)[j]),
{
    let t = nonzeros(s);
    let m = merge_low(t);
    lemma_merge_low_values(t);
    lemma_nonzeros_values(s);
    assert forall|j: int|
        0 <= j < shift_low_spec(s).len() implies value_from(s, #[trigger] shift_low_spec(s)[j]) by {
        if j < m.len() {
            assert(shift_low_spec(s)[j] == m[j]);
            assert(value_from(t, m[j]));
            if m[j] != 0 {
                let i = choose|i: int| 0 <= i < t.len() && (m[j] == t[i] || m[j] == 2 * t[i]);
                assert(s.contains(t[i]));
                let k = choose|k: int| 0 <= k < s.len() && s[k] == t[i];
                assert(m[j] == s[k] || m[j] == 2 * s[k]);
            }
        } else {
            assert(shift_low_spec(s)[j] == 0);
        }
    }
}

/// Law: every cell of a shifted line is empty, a tile that was already in
/// the line, or the double of one; a merge doubles a tile exactly once.
pub proof fn lemma_shift_values(s: Seq<int>, forward: bool)
    ensures
        forall|j: int|
            0 <= j < shift_spec(s, forward).len() ==> value_from(
                s,
                #[trigger] shift_spec(s, forward)[j],
            ),
{
    if forward {
        let rs = s.reverse();
        lemma_shift_low_values(rs);
        lemma_shift_len(s, true);
        assert forall|j: int|
            0 <= j < shift_spec(s, true).len() implies value_from(
            s,
            #[trigger] shift_spec(s, true)[j],
        ) by {
            let x = shift_low_spec(rs);
            assert(shift_spec(s, true)[j] == x[x.len() - 1 - j]);
            assert(value_from(rs, x[x.len() - 1 - j]));
            if shift_spec(s, true)[j] != 0 {
                let i = choose|i: int|
                    0 <= i < rs.len() && (x[x.len() - 1 - j] == rs[i] || x[x.len() - 1 - j] == 2
                        * rs[i]);
                assert(rs[i] == s[s.len() - 1 - i]);
            }
        }
    } else {
        lemma_shift_low_values(s);
    }
}

fn compress_line(line: &Vec<i32>) -> (r: Vec<i32>)
    requires
        tiles_bounded(int_view(line@)),
    ensures
        int_view(r@) == nonzeros(int_view(line@)),
        tiles_bounded(int_view(r@)),
{
    let ghost s = int_view(line@);
    let mut r: Vec<i32> = Vec::new();
    let mut i: usize = 0;
    while i < line.len()
        invariant
            i <= line@.len(),
            s == int_view(line@),
            tiles_bounded(s),
            int_view(r@) == nonzeros(s.take(i as int)),
            tiles_bounded(int_view(r@)),
        decreases line@.len() - i,
    {
        proof {
            assert(s.take(i + 1).drop_last() =~= s.take(i as int));
            assert(s.take(i + 1).last() == s[i as int]);
        }
        if line[i] != 0 {
            r.push(line[i]);
            proof {
                assert(int_view(r@) =~= nonzeros(s.take(i as int)).push(s[i as int]));
            }
        }
        i = i + 1;
    }
    proof {
        assert(s.take(s.len() as int) =~= s);
    }
    r
}

fn merge_line_low(dense: &Vec<i32>) -> (r: Vec<i32>)
    requires
        tiles_bounded(int_view(dense@)),
    ensures
        int_view(r@) == merge_low(int_view(dense@)),
{
    let ghost s = int_view(dense@);
    let mut r: Vec<i32> = Vec::new();
    let mut i: usize = 0;
    proof {
        assert(s.skip(0) =~= s);
        assert(int_view(r@) + merge_low(s) =~= merge_low(s));
    }
    while i < dense.len()
        invariant
            i <= dense@.len(),
            s == int_view(dense@),
            tiles_bounded(s),
            merge_low(s) == int_view(r@) + merge_low(s.skip(i as int)),
        decreases dense@.len() - i,
    {
        let ghost tail = s.skip(i as int);
        let ghost r0 = int_view(r@);
        proof {
            assert(tail[0] == s[i as int]);
            if i + 1 < dense@.len() {
                assert(tail[1] == s[i + 1]);
            }
        }
        if i + 1 < dense.len() && dense[i] == dense[i + 1] {
            r.push(2 * dense[i]);
            r.push(0);
            proof {
                assert(tail.skip(2) =~= s.skip(i + 2));
                assert(merge_low(tail) == seq![2 * s[i as int], 0] + merge_low(s.skip(i + 2)));
                assert(int_view(r@) =~= r0 + seq![2 * s[i as int], 0]);
                assert(int_view(r@) + merge_low(s.skip(i + 2)) =~= r0 + (seq![
                    2 * s[i as int],
                    0,
                ] + merge_low(s.skip(i + 2))));
            }
            i = i + 2;
        } else {
            r.push(dense[i]);
            proof {
                assert(tail.skip(1) =~= s.skip(i + 1));
                assert(merge_low(tail) == seq![s[i as int]] + merge_low(s.skip(i + 1)));
                assert(int_view(r@) =~= r0 + seq![s[i as int]]);
                assert(int_view(r@) + merge_low(s.skip(i + 1)) =~= r0 + (seq![s[i as int]]
                    + merge_low(s.skip(i + 1))));
            }
            i = i + 1;
        }
    }
    proof {
        assert(s.skip(i as int) =~= Seq::<int>::empty());
        assert(int_view(r@) + Seq::<int>::empty() =~= int_view(r@));
    }
    r
}

fn shift_low_line(line: &Vec<i32>) -> (r: Vec<i32>)
    requires
        tiles_bounded(int_view(line@)),
    ensures
        int_view(r@) == shift_low_spec(int_view(line@)),
        r@.len() == line@.len(),
{
    let ghost s = int_view(line@);
    let dense = compress_line(line);
    let mut r = merge_line_low(&dense);
    let ghost m = merge_low(nonzeros(s));
    proof {
        lemma_nonzeros_len(s);
        lemma_merge_low_len(nonzeros(s));
        assert(int_view(r@).take(m.len() as int) =~= m);
    }
    while r.len() < line.len()
        invariant
            m == merge_low(nonzeros(s)),
            m.len() <= line@.len(),
            m.len() <= r@.len() <= line@.len(),
            int_view(r@).take(m.len() as int) == m,
            forall|j: int| m.len() <= j < r@.len() ==> int_view(r@)[j] == 0,
        decreases line@.len() - r@.len(),
    {
        let ghost r1 = r@;
        r.push(0);
        proof {
            assert(int_view(r@).take(m.len() as int) =~= m);
            assert forall|j: int| m.len() <= j < r@.len() implies int_view(r@)[j] == 0 by {
                if j < r1.len() {
                    assert(int_view(r1)[j] == 0);
                    assert(r@[j] == r1[j]);
                } else {
                    assert(r@[j] == 0i32);
                }
            }
        }
    }
    proof {
        assert(int_view(r@) =~= shift_low_spec(s));
    }
    r
}

fn reverse_vec(v: &Vec<i32>) -> (r: Vec<i32>)
    ensures
        r@.len() == v@.len(),
        forall|j: int| 0 <= j < v@.len() ==> r@[j] == v@[v@.len() - 1 - j],
{
    let mut r: Vec<i32> = Vec::new();
    let mut i: usize = v.len();
    while i > 0
        invariant
            i <= v@.len(),
            r@.len() == v@.len() - i,
            forall|j: int| 0 <= j < r@.len() ==> r@[j] == v@[v@.len() - 1 - j],
        decreases i,
    {
        i = i - 1;
        r.push(v[i]);
    }
    r
}

/// Apply one shift-and-merge pass to a line. With `forward` set the tiles
/// travel toward the high-index end, otherwise toward the low-index end.
pub fn shift_line(line: &Vec<i32>, forward: bool) -> (r: Vec<i32>)
    requires
        tiles_bounded(int_view(line@)),
    ensures
        r@.len() == line@.len(),
        int_view(r@) == shift_spec(int_view(line@), forward),
{
    let ghost s = int_view(line@);
    if forward {
        let rev = reverse_vec(line);
        proof {
            assert(int_view(rev@) =~= s.reverse());
            assert(tiles_bounded(int_view(rev@)));
        }
        let out = shift_low_line(&rev);
        let r = reverse_vec(&out);
        proof {
            assert(int_view(r@) =~= shift_low_spec(s.reverse()).reverse());
        }
        r
    } else {
        shift_low_line(line)
    }
}

} // verus!
