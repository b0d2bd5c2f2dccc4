//! Split layers and copies of them: what ranks hold is put together and held against each other.

use crate::awq;
use crate::dist;
use crate::float_bits;
use crate::quant;
use crate::rounding;
use vstd::prelude::*;

verus! {

/// The first bias of the hidden layer.
pub const HIDDEN_BIAS: u32 = 0x3cf5_c28f;

/// The first bias of the output layer.
pub const OUTPUT_BIAS: u32 = 0x3d4c_cccd;

/// By how much the biases of the output layer fall from one to the next.
pub const OUTPUT_STEP: u32 = 0x3ca3_d70a;

/// A bias of the hidden layer: it depends on its place, so that a misplaced column shows.
pub open spec fn hidden_bias(i: int) -> u32 {
    rounding::sum(HIDDEN_BIAS, rounding::product(dist::HUNDREDTH, rounding::count_value(i)))
}

/// A bias of the output layer.
pub open spec fn output_bias(i: int) -> u32 {
    rounding::difference(OUTPUT_BIAS, rounding::product(OUTPUT_STEP, rounding::count_value(i)))
}

/// Makes the biases of a layer of two matrices: those of the hidden and those of the output layer.
pub fn placed_biases(hidden: usize, width: usize) -> (r: (Vec<u32>, Vec<u32>))
    ensures
        r.0@ == Seq::new(hidden as nat, |i: int| hidden_bias(i)),
        r.1@ == Seq::new(width as nat, |i: int| output_bias(i)),
{
    let mut first: Vec<u32> = Vec::new();
    for i in 0..hidden
        invariant
            first@ =~= Seq::new(i as nat, |j: int| hidden_bias(j)),
    {
        let step: u32 = rounding::multiply(dist::HUNDREDTH, rounding::from_count(i as u64));
        first.push(rounding::plus(HIDDEN_BIAS, step));
    }
    let mut second: Vec<u32> = Vec::new();
    for i in 0..width
        invariant
            second@ =~= Seq::new(i as nat, |j: int| output_bias(j)),
    {
        let step: u32 = rounding::multiply(OUTPUT_STEP, rounding::from_count(i as u64));
        second.push(rounding::minus(OUTPUT_BIAS, step));
    }
    (first, second)
}

/// The first `n` pieces one behind the other.
pub open spec fn stacked(pieces: Seq<Vec<u32>>, n: nat) -> Seq<u32>
    decreases n,
{
    if n == 0 {
        Seq::empty()
    } else {
        stacked(pieces, (n - 1) as nat) + pieces[n - 1]@
    }
}

/// Puts a matrix together again from the rows that the ranks hold.
pub fn assemble_rows(pieces: &[Vec<u32>]) -> (r: Vec<u32>)
    ensures
        r@ == stacked(pieces@, pieces@.len()),
{
    let mut out: Vec<u32> = Vec::new();
    for p in 0..pieces.len()
        invariant
            out@ == stacked(pieces@, p as nat),
    {
        let piece: &Vec<u32> = &pieces[p];
        for i in 0..piece.len()
            invariant
                p < pieces@.len(),
                *piece == pieces@[p as int],
                out@ =~= stacked(pieces@, p as nat) + piece@.take(i as int),
        {
            out.push(piece[i]);
        }
        assert(piece@.take(piece@.len() as int) =~= piece@);
    }
    out
}

/// Whether ranges follow one another from zero on without a gap.
pub open spec fn contiguous(ranges: Seq<(usize, usize)>) -> bool {
    &&& ranges.len() > 0 ==> ranges[0].0 == 0
    &&& forall|r: int| 0 <= r < ranges.len() ==> (#[trigger] ranges[r]).0 <= ranges[r].1
    &&& forall|r: int| 0 < r < ranges.len() ==> (#[trigger] ranges[r]).0 == ranges[r - 1].1
}

spec fn stands(
    pieces: Seq<Vec<u32>>,
    ranges: Seq<(usize, usize)>,
    width: int,
    n: nat,
    r: int,
    i: int,
) -> bool {
    let p = ranges[r].0 * width + i;
    0 <= p < stacked(pieces, n).len() && stacked(pieces, n)[p] == pieces[r]@[i]
}

proof fn lemma_stacked_rows(
    pieces: Seq<Vec<u32>>,
    ranges: Seq<(usize, usize)>,
    width: int,
    n: nat,
)
    requires
        width >= 0,
        pieces.len() == ranges.len(),
        n <= pieces.len(),
        contiguous(ranges),
        forall|r: int|
            0 <= r < pieces.len() ==> (#[trigger] pieces[r])@.len() == (ranges[r].1 - ranges[r].0)
                * width,
    ensures
        n == 0 ==> stacked(pieces, n).len() == 0,
        n > 0 ==> stacked(pieces, n).len() == ranges[n - 1].1 * width,
        forall|r: int, i: int|
            0 <= r < n && 0 <= i < pieces[r]@.len() ==> #[trigger] stands(
                pieces,
                ranges,
                width,
                n,
                r,
                i,
            ),
    decreases n,
{
    if n > 0 {
        let m = (n - 1) as nat;
        lemma_stacked_rows(pieces, ranges, width, m);
        let lo = ranges[n - 1].0 as int;
        let hi = ranges[n - 1].1 as int;
        assert(pieces[n - 1]@.len() == (hi - lo) * width);
        assert((hi - lo) * width == hi * width - lo * width) by (nonlinear_arith);
        assert(stacked(pieces, m).len() == lo * width) by {
            if m > 0 {
                assert(ranges[n - 1].0 == ranges[n - 2].1);
            } else {
                assert(0 * width == 0) by (nonlinear_arith);
            }
        }
        assert forall|r: int, i: int| 0 <= r < n && 0 <= i < pieces[r]@.len() implies #[trigger] stands(
            pieces,
            ranges,
            width,
            n,
            r,
            i,
        ) by {
            if r < m {
                assert(stands(pieces, ranges, width, m, r, i));
            } else {
                assert(0 <= lo * width) by (nonlinear_arith)
                    requires
                        lo >= 0,
                        width >= 0,
                ;
            }
        }
    }
}

/// Where the ranks hold rows that follow one another, the matrix that is put together has each row
/// of a rank at the place that the rank's range gives it.
pub proof fn rows_keep_their_place(
    pieces: Seq<Vec<u32>>,
    ranges: Seq<(usize, usize)>,
    width: int,
    r: int,
    row: int,
    c: int,
)
    requires
        pieces.len() == ranges.len(),
        contiguous(ranges),
        forall|s: int|
            0 <= s < pieces.len() ==> (#[trigger] pieces[s])@.len() == (ranges[s].1 - ranges[s].0)
                * width,
        0 <= r < pieces.len(),
        ranges[r].0 <= row < ranges[r].1,
        0 <= c < width,
    ensures
        stacked(pieces, pieces.len())[row * width + c] == pieces[r]@[(row - ranges[r].0) * width
            + c],
{
    lemma_stacked_rows(pieces, ranges, width, pieces.len());
    let lo = ranges[r].0 as int;
    quant::cell_position(row - lo, c, ranges[r].1 - lo, width);
    assert(pieces[r]@.len() == (ranges[r].1 - lo) * width);
    assert(lo * width + ((row - lo) * width + c) == row * width + c) by (nonlinear_arith);
    assert(stands(pieces, ranges, width, pieces.len(), r, (row - lo) * width + c));
}

/// Whether some rank holds column `c`.
pub open spec fn has_owner(cols: Seq<Vec<usize>>, c: int) -> bool {
    exists|r: int, j: int| #[trigger] dist::owns(cols, c, r, j)
}

proof fn lemma_occurrence_is_counted(list: Seq<usize>, c: int, j: int, n: nat)
    requires
        0 <= j < n <= list.len(),
        list[j] == c,
    ensures
        dist::occurrences(list, c, n) >= 1,
    decreases n,
{
    if j < n - 1 {
        lemma_occurrence_is_counted(list, c, j, (n - 1) as nat);
    }
}

proof fn lemma_occurrences_are_counted(list: Seq<usize>, c: int, j: int, k: int, n: nat)
    requires
        0 <= j < k < n <= list.len(),
        list[j] == c,
        list[k] == c,
    ensures
        dist::occurrences(list, c, n) >= 2,
    decreases n,
{
    if k < n - 1 {
        lemma_occurrences_are_counted(list, c, j, k, (n - 1) as nat);
    } else {
        lemma_occurrence_is_counted(list, c, j, (n - 1) as nat);
    }
}

proof fn lemma_counted_occurrence(list: Seq<usize>, c: int, n: nat) -> (j: int)
    requires
        n <= list.len(),
        dist::occurrences(list, c, n) >= 1,
    ensures
        0 <= j < n,
        list[j] == c,
    decreases n,
{
    if list[n - 1] == c {
        n - 1
    } else {
        lemma_counted_occurrence(list, c, (n - 1) as nat)
    }
}

proof fn lemma_owner_is_counted(cols: Seq<Vec<usize>>, c: int, r: int, j: int, n: nat)
    requires
        n <= cols.len(),
        r < n,
        dist::owns(cols, c, r, j),
    ensures
        dist::ownership(cols, c, n) >= 1,
    decreases n,
{
    if r < n - 1 {
        lemma_owner_is_counted(cols, c, r, j, (n - 1) as nat);
    } else {
        lemma_occurrence_is_counted(cols[r]@, c, j, cols[r]@.len());
    }
}

proof fn lemma_owners_are_counted(
    cols: Seq<Vec<usize>>,
    c: int,
    r: int,
    j: int,
    s: int,
    k: int,
    n: nat,
)
    requires
        n <= cols.len(),
        r <= s < n,
        r == s ==> j < k,
        dist::owns(cols, c, r, j),
        dist::owns(cols, c, s, k),
    ensures
        dist::ownership(cols, c, n) >= 2,
    decreases n,
{
    if s < n - 1 {
        lemma_owners_are_counted(cols, c, r, j, s, k, (n - 1) as nat);
    } else if r < s {
        lemma_owner_is_counted(cols, c, r, j, (n - 1) as nat);
        lemma_occurrence_is_counted(cols[s]@, c, k, cols[s]@.len());
    } else {
        lemma_occurrences_are_counted(cols[s]@, c, j, k, cols[s]@.len());
    }
}

proof fn lemma_counted_owner(cols: Seq<Vec<usize>>, c: int, n: nat)
    requires
        n <= cols.len(),
        dist::ownership(cols, c, n) >= 1,
    ensures
        has_owner(cols, c),
    decreases n,
{
    let list = cols[n - 1]@;
    if dist::occurrences(list, c, list.len()) >= 1 {
        let j = lemma_counted_occurrence(list, c, list.len());
        assert(dist::owns(cols, c, n - 1, j));
    } else {
        lemma_counted_owner(cols, c, (n - 1) as nat);
    }
}

/// Lists that share out the columns below `width`, and hold no others, give every column one owner.
pub proof fn shared_columns_have_one_owner(cols: Seq<Vec<usize>>, width: int)
    requires
        forall|c: int| 0 <= c < width ==> #[trigger] dist::ownership(cols, c, cols.len()) == 1,
        forall|r: int, j: int|
            0 <= r < cols.len() && 0 <= j < cols[r]@.len() ==> (#[trigger] cols[r]@[j]) < width,
    ensures
        forall|c: int| 0 <= c < width ==> #[trigger] has_owner(cols, c),
        dist::owned_once(cols),
{
    assert forall|c: int| 0 <= c < width implies #[trigger] has_owner(cols, c) by {
        assert(dist::ownership(cols, c, cols.len()) == 1);
        lemma_counted_owner(cols, c, cols.len());
    }
    assert forall|c: int, r: int, j: int, s: int, k: int| #[trigger]
        dist::owns(cols, c, r, j) && #[trigger] dist::owns(cols, c, s, k) implies r == s && j
        == k by {
        assert(cols[r]@[j] < width);
        assert(dist::ownership(cols, c, cols.len()) == 1);
        if r < s || r == s && j < k {
            lemma_owners_are_counted(cols, c, r, j, s, k, cols.len());
        } else if s < r || r == s && k < j {
            lemma_owners_are_counted(cols, c, s, k, r, j, cols.len());
        }
    }
}

/// Whether a rank's share of a matrix is the columns of it that the rank holds.
pub open spec fn holds_columns(
    m: Seq<u32>,
    rows: int,
    width: int,
    shard: Seq<u32>,
    cols: Seq<usize>,
) -> bool {
    forall|row: int, j: int|
        0 <= row < rows && 0 <= j < cols.len() ==> #[trigger] shard[row * cols.len() + j] == m[row
            * width + cols[j]]
}

/// Where every column of a matrix has an owner and every rank holds its columns, putting them
/// together gives the matrix back.
pub proof fn columns_give_the_matrix_back(
    m: Seq<u32>,
    rows: int,
    width: int,
    shards: Seq<Vec<u32>>,
    cols: Seq<Vec<usize>>,
    out: Seq<u32>,
)
    requires
        rows >= 0,
        width >= 0,
        m.len() == rows * width,
        out.len() == rows * width,
        forall|c: int| 0 <= c < width ==> #[trigger] has_owner(cols, c),
        forall|r: int|
            0 <= r < cols.len() ==> holds_columns(
                m,
                rows,
                width,
                (#[trigger] shards[r])@,
                cols[r]@,
            ),
        forall|row: int, c: int|
            0 <= row < rows && 0 <= c < width ==> dist::is_assembled(
                shards,
                cols,
                row,
                c,
                #[trigger] out[row * width + c],
            ),
    ensures
        out == m,
{
    assert forall|p: int| 0 <= p < out.len() implies out[p] == m[p] by {
        quant::flat_position(p, rows, width);
        let (row, c) = (p / width, p % width);
        assert(dist::is_assembled(shards, cols, row, c, out[row * width + c]));
        assert(has_owner(cols, c));
        let (r, j) = choose|r: int, j: int| #[trigger] dist::owns(cols, c, r, j);
        assert(dist::owns(cols, c, r, j));
        assert(holds_columns(m, rows, width, shards[r]@, cols[r]@));
        assert(shards[r]@[row * cols[r]@.len() + j] == m[row * width + cols[r]@[j]]);
    }
    assert(out =~= m);
}

/// Where ranks hold the rows of a matrix that follow one another up to its last, putting them
/// together gives the matrix back.
pub proof fn rows_give_the_matrix_back(
    m: Seq<u32>,
    rows: int,
    width: int,
    pieces: Seq<Vec<u32>>,
    ranges: Seq<(usize, usize)>,
)
    requires
        width >= 0,
        pieces.len() == ranges.len(),
        pieces.len() > 0,
        contiguous(ranges),
        ranges.last().1 == rows,
        m.len() == rows * width,
        forall|r: int|
            0 <= r < pieces.len() ==> (#[trigger] pieces[r])@ == m.subrange(
                ranges[r].0 * width,
                ranges[r].1 * width,
            ) && ranges[r].1 <= rows,
    ensures
        stacked(pieces, pieces.len()) == m,
{
    lemma_prefix_of_rows(m, rows, width, pieces, ranges, pieces.len());
    assert(m.take(rows * width) =~= m);
}

proof fn lemma_prefix_of_rows(
    m: Seq<u32>,
    rows: int,
    width: int,
    pieces: Seq<Vec<u32>>,
    ranges: Seq<(usize, usize)>,
    n: nat,
)
    requires
        width >= 0,
        pieces.len() == ranges.len(),
        1 <= n <= pieces.len(),
        contiguous(ranges),
        m.len() == rows * width,
        forall|r: int|
            0 <= r < pieces.len() ==> (#[trigger] pieces[r])@ == m.subrange(
                ranges[r].0 * width,
                ranges[r].1 * width,
            ) && ranges[r].1 <= rows,
    ensures
        stacked(pieces, n) == m.take(ranges[n - 1].1 * width),
    decreases n,
{
    let (lo, hi) = (ranges[n - 1].0 as int, ranges[n - 1].1 as int);
    assert(pieces[n - 1]@ == m.subrange(lo * width, hi * width));
    assert(0 <= lo * width <= hi * width && hi * width <= rows * width) by (nonlinear_arith)
        requires
            0 <= lo <= hi <= rows,
            width >= 0,
    ;
    if n > 1 {
        lemma_prefix_of_rows(m, rows, width, pieces, ranges, (n - 1) as nat);
        assert(ranges[n - 1].0 == ranges[n - 2].1);
    } else {
        assert(0 * width == 0);
        assert(stacked(pieces, 0) =~= m.take(0));
    }
    assert(stacked(pieces, n) =~= m.take(hi * width));
}

/// Whether the columns of the first matrix and the rows of the second are cut at the same places.
pub fn seams_meet(cols: &[Vec<usize>], ranges: &[(usize, usize)]) -> (r: bool)
    requires
        cols@.len() == ranges@.len(),
    ensures
        r == (forall|k: int|
            0 <= k < cols@.len() ==> (#[trigger] ranges@[k]).1 - ranges@[k].0 == cols@[k]@.len()),
{
    for k in 0..cols.len()
        invariant
            cols@.len() == ranges@.len(),
            forall|j: int|
                0 <= j < k ==> (#[trigger] ranges@[j]).1 - ranges@[j].0 == cols@[j]@.len(),
    {
        let (lo, hi) = ranges[k];
        if hi < lo || hi - lo != cols[k].len() {
            assert(ranges@[k as int].1 - ranges@[k as int].0 != cols@[k as int]@.len());
            return false;
        }
    }
    true
}

/// What one rank holds: columns of the layers, a range of the layers and a range of the batch.
#[derive(Debug)]
pub struct RankPlan {
    pub columns: Vec<usize>,
    pub layers: (usize, usize),
    pub batch: (usize, usize),
}

/// In what two copies are not what they should be.
#[derive(Clone, Copy, Debug, PartialEq, Eq, Structural)]
pub enum ReplicaFault {
    /// The copies hold different columns.
    Columns,
    /// The copies hold different layers.
    Layers,
    /// The copies hold the same part of the batch.
    Batch,
}

fn same_list(a: &[usize], b: &[usize]) -> (r: bool)
    ensures
        r == (a@ == b@),
{
    if a.len() != b.len() {
        return false;
    }
    for i in 0..a.len()
        invariant
            a@.len() == b@.len(),
            forall|j: int| 0 <= j < i ==> a@[j] == b@[j],
    {
        if a[i] != b[i] {
            return false;
        }
    }
    assert(a@ =~= b@);
    true
}

impl RankPlan {
    /// What is wrong with `other` as a copy: it holds the same parameters and other data.
    pub open spec fn fault(self, other: RankPlan) -> Option<ReplicaFault> {
        if other.columns@ != self.columns@ {
            Some(ReplicaFault::Columns)
        } else if other.layers != self.layers {
            Some(ReplicaFault::Layers)
        } else if other.batch == self.batch {
            Some(ReplicaFault::Batch)
        } else {
            None
        }
    }

    /// Checks a copy.
    pub fn check_replica(&self, other: &RankPlan) -> (r: Result<(), ReplicaFault>)
        ensures
            r is Ok == self.fault(*other) is None,
            r matches Err(e) ==> self.fault(*other) == Some(e),
    {
        if !same_list(other.columns.as_slice(), self.columns.as_slice()) {
            return Err(ReplicaFault::Columns);
        }
        if other.layers.0 != self.layers.0 || other.layers.1 != self.layers.1 {
            return Err(ReplicaFault::Layers);
        }
        if other.batch.0 == self.batch.0 && other.batch.1 == self.batch.1 {
            return Err(ReplicaFault::Batch);
        }
        Ok(())
    }
}

/// Checks all copies of the first plan: the first that is wrong, and in what.
pub fn check_replicas(plans: &[RankPlan]) -> (r: Result<(), (usize, ReplicaFault)>)
    ensures
        r is Ok == (forall|k: int|
            1 <= k < plans@.len() ==> plans@[0].fault(#[trigger] plans@[k]) is None),
        r matches Err(e) ==> {
            &&& 1 <= e.0 < plans@.len()
            &&& plans@[0].fault(plans@[e.0 as int]) == Some(e.1)
            &&& forall|k: int| 1 <= k < e.0 ==> plans@[0].fault(#[trigger] plans@[k]) is None
        },
{
    let n: usize = plans.len();
    let mut k: usize = 1;
    while k < n
        invariant
            n == plans@.len(),
            1 <= k,
            n >= 1 ==> k <= n,
            forall|j: int| 1 <= j < k ==> plans@[0].fault(#[trigger] plans@[j]) is None,
        decreases n - k,
    {
        if let Err(e) = plans[0].check_replica(&plans[k]) {
            assert(plans@[0].fault(plans@[k as int]) is Some);
            return Err((k, e));
        }
        k = k + 1;
    }
    Ok(())
}

proof fn lemma_holders_grow(ranges: Seq<(usize, usize)>, k: int, i: int, n: nat)
    requires
        0 <= i < n,
        ranges[i].0 <= k < ranges[i].1,
    ensures
        dist::holders(ranges, k, n) >= dist::holders(ranges, k, i as nat) + 1,
    decreases n,
{
    if i < n - 1 {
        lemma_holders_grow(ranges, k, i, (n - 1) as nat);
    }
}

/// Where ranges share out a batch, two ranks with any part of it hold different parts.
pub proof fn shared_parts_differ(ranges: Seq<(usize, usize)>, total: int, i: int, j: int)
    requires
        forall|k: int| 0 <= k < total ==> #[trigger] dist::holders(ranges, k, ranges.len()) == 1,
        0 <= i < j < ranges.len(),
        ranges[i].0 < ranges[i].1,
        ranges[i].0 < total,
    ensures
        ranges[i] != ranges[j],
{
    if ranges[i] == ranges[j] {
        let k = ranges[i].0 as int;
        lemma_holders_grow(ranges, k, i, j as nat);
        lemma_holders_grow(ranges, k, j, ranges.len());
        assert(dist::holders(ranges, k, ranges.len()) == 1);
    }
}

/// Whether a loss is as near to that of the reference as two equal runs are.
pub open spec fn keeps_to(loss: u32, reference: u32, tolerance: u32) -> bool {
    awq::less(float_bits::magnitude(rounding::difference(loss, reference)), tolerance)
}

/// The first step in which a run departs from its reference.
pub fn first_departure(losses: &[u32], reference: &[u32], tolerance: u32) -> (r: Option<usize>)
    requires
        losses@.len() == reference@.len(),
    ensures
        r is None == (forall|i: int|
            0 <= i < losses@.len() ==> keeps_to(#[trigger] losses@[i], reference@[i], tolerance)),
        r matches Some(s) ==> {
            &&& s < losses@.len()
            &&& !keeps_to(losses@[s as int], reference@[s as int], tolerance)
            &&& forall|i: int|
                0 <= i < s ==> keeps_to(#[trigger] losses@[i], reference@[i], tolerance)
        },
{
    for i in 0..losses.len()
        invariant
            losses@.len() == reference@.len(),
            forall|j: int|
                0 <= j < i ==> keeps_to(#[trigger] losses@[j], reference@[j], tolerance),
    {
        let apart: u32 = float_bits::abs_bits(rounding::minus(losses[i], reference[i]));
        if !awq::is_less(apart, tolerance) {
            assert(!keeps_to(losses@[i as int], reference@[i as int], tolerance));
            return Some(i);
        }
    }
    None
}

/// What the first `n` ranks keep in all.
pub open spec fn total_bytes(states: Seq<usize>, n: nat) -> int
    decreases n,
{
    if n == 0 {
        0
    } else {
        total_bytes(states, (n - 1) as nat) + states[n - 1]
    }
}

/// The least and the most that one rank keeps, and what all keep together.
#[derive(Clone, Copy, Debug, PartialEq, Eq, Structural)]
pub struct StateSpread {
    pub least: usize,
    pub most: usize,
    pub total: u128,
}

/// Sums up what the ranks keep.
pub fn state_spread(states: &[usize]) -> (r: StateSpread)
    ensures
        r.total == total_bytes(states@, states@.len()),
        states@.len() == 0 ==> r.least == 0 && r.most == 0,
        states@.len() > 0 ==> states@.contains(r.least) && states@.contains(r.most),
        forall|i: int| 0 <= i < states@.len() ==> r.least <= #[trigger] states@[i] <= r.most,
{
    let mut least: usize = 0;
    let mut most: usize = 0;
    let mut total: u128 = 0;
    for i in 0..states.len()
        invariant
            total == total_bytes(states@, i as nat),
            total <= i * usize::MAX,
            i == 0 ==> least == 0 && most == 0,
            i > 0 ==> (exists|k: int| 0 <= k < i && #[trigger] states@[k] == least) && (exists|
                k: int,
            |
                0 <= k < i && #[trigger] states@[k] == most),
            forall|j: int| 0 <= j < i ==> least <= #[trigger] states@[j] <= most,
    {
        let s: usize = states[i];
        if i == 0 || s < least {
            least = s;
        }
        if i == 0 || s > most {
            most = s;
        }
        proof {
            assert((i + 1) * usize::MAX == i * usize::MAX + usize::MAX) by (nonlinear_arith);
            assert((i + 1) * usize::MAX <= usize::MAX * usize::MAX) by (nonlinear_arith)
                requires
                    i + 1 <= usize::MAX,
            ;
            assert(usize::MAX * usize::MAX <= u128::MAX) by (nonlinear_arith)
                requires
                    usize::MAX <= 0xffff_ffff_ffff_ffff,
            ;
        }
        total = total + s as u128;
    }
    StateSpread { least, most, total }
}

} // verus!
