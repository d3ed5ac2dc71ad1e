//! Free-space search and placement of new partitions.
use vstd::prelude::*;
use vstd::relations::{sorted_by, total_ordering};
use vstd::seq_lib::lemma_sorted_unique;

use crate::entry::{is_used_view, EntryView};
use crate::error::Error;
use crate::gpt::GPT;
use crate::header::GPTHeader;

verus! {

/// The order of `u64` values.
pub open spec fn u64_leq() -> spec_fn(u64, u64) -> bool {
    |a: u64, b: u64| a <= b
}

/// The starting and ending LBAs of the used entries, in slot order.
pub open spec fn used_bounds(p: Seq<EntryView>) -> Seq<u64>
    decreases p.len(),
{
    if p.len() == 0 {
        Seq::empty()
    } else {
        used_bounds(p.drop_last()) + if is_used_view(p.last()) {
            seq![p.last().starting_lba, p.last().ending_lba]
        } else {
            Seq::empty()
        }
    }
}

/// The sector just before the usable area, the bounds of every used entry, and the sector
/// just after the usable area.
pub open spec fn boundary_list(h: GPTHeader, p: Seq<EntryView>) -> Seq<u64> {
    seq![(h.first_usable_lba - 1) as u64] + used_bounds(p) + seq![(h.last_usable_lba + 1) as u64]
}

/// The free gap between boundaries `x0` and `x1`, its start moved up to the next multiple of
/// `align` and its length shrunk to match; none when nothing is left of it.
pub open spec fn gap_of_pair(x0: u64, x1: u64, align: u64) -> Option<(u64, u64)> {
    if x1 <= x0 + 1 {
        None
    } else {
        let i = x0 + 1;
        let l = x1 - x0 - 1;
        let s = if i % (align as int) == 0 {
            0
        } else {
            align - i % (align as int)
        };
        if l <= s {
            None
        } else {
            Some(((i + s) as u64, (l - s) as u64))
        }
    }
}

/// The gaps of the first `j` pairs of consecutive boundaries of `q`.
pub open spec fn gaps_upto(q: Seq<u64>, align: u64, j: nat) -> Seq<(u64, u64)>
    decreases j,
{
    if j == 0 {
        Seq::empty()
    } else {
        let g = gaps_upto(q, align, (j - 1) as nat);
        match gap_of_pair(q[2 * (j - 1)], q[2 * (j - 1) + 1], align) {
            Some(x) => g.push(x),
            None => g,
        }
    }
}

/// The aligned free gaps `(start, length)` of a table: its boundaries sorted, taken two by two.
pub open spec fn free_gaps(h: GPTHeader, p: Seq<EntryView>, align: u64) -> Seq<(u64, u64)> {
    let q = boundary_list(h, p).sort_by(u64_leq());
    gaps_upto(q, align, q.len() / 2)
}

/// What the free-space functions ask of a table: one slot per entry, a positive alignment, and
/// boundaries just outside the usable area that are themselves sector numbers.
pub open spec fn searchable(g: GPT) -> bool {
    &&& g.wf()
    &&& g.align > 0
    &&& g.header.first_usable_lba >= 1
    &&& g.header.last_usable_lba < u64::MAX
}

/// The gap of index `i` can hold `size` sectors.
pub open spec fn fits(gaps: Seq<(u64, u64)>, i: int, size: u64) -> bool {
    gaps[i].1 >= size
}

/// The largest multiple of `align` not above `x`.
pub open spec fn round_down(x: int, align: u64) -> int {
    x / (align as int) * align
}

proof fn lemma_u64_leq_total()
    ensures
        total_ordering(u64_leq()),
{
}

/// Sorts a vector of `u64`.
fn sort_u64(v: &Vec<u64>) -> (r: Vec<u64>)
    ensures
        r@ == v@.sort_by(u64_leq()),
{
    broadcast use vstd::seq_lib::group_to_multiset_ensures;

    let ghost leq = u64_leq();
    let mut r: Vec<u64> = Vec::new();
    let mut i: usize = 0;
    while i < v.len()
        invariant
            i <= v@.len(),
            leq == u64_leq(),
            sorted_by(r@, leq),
            r@.to_multiset() == v@.take(i as int).to_multiset(),
        decreases v@.len() - i,
    {
        let x = v[i];
        let mut pos: usize = 0;
        while pos < r.len() && r[pos] <= x
            invariant
                pos <= r@.len(),
                forall|k: int| 0 <= k < pos ==> r@[k] <= x,
            decreases r@.len() - pos,
        {
            pos = pos + 1;
        }
        let ghost old_r = r@;
        proof {
            assert forall|k: int| pos <= k < old_r.len() implies x < old_r[k] by {
                assert(leq(old_r[pos as int], old_r[k]) || k == pos);
            }
        }
        r.insert(pos, x);
        proof {
            assert(r@ == old_r.insert(pos as int, x));
            assert forall|a: int, b: int| 0 <= a < b < r@.len() implies #[trigger] leq(
                r@[a],
                r@[b],
            ) by {
                if b < pos {
                    assert(leq(old_r[a], old_r[b]));
                } else if b == pos {
                } else if a < pos {
                    assert(r@[b] == old_r[b - 1]);
                    assert(old_r[a] <= x);
                } else if a == pos {
                    assert(r@[b] == old_r[b - 1]);
                } else {
                    assert(leq(old_r[a - 1], old_r[b - 1]));
                }
            }
            assert(v@.take(i + 1) =~= v@.take(i as int).push(x));
            vstd::seq_lib::to_multiset_insert(old_r, pos as int, x);
            vstd::seq_lib::to_multiset_build(v@.take(i as int), x);
            assert(old_r.insert(pos as int, x).to_multiset() == old_r.to_multiset().insert(x));
            assert(v@.take(i as int).push(x).to_multiset() == v@.take(i as int).to_multiset().insert(
                x,
            ));
        }
        i = i + 1;
    }
    proof {
        assert(v@.take(i as int) =~= v@);
        v@.lemma_sort_by_ensures(leq);
        lemma_u64_leq_total();
        lemma_sorted_unique(r@, v@.sort_by(leq), leq);
    }
    r
}

/// The aligned gap between two boundaries.
fn gap_between(x0: u64, x1: u64, align: u64) -> (r: Option<(u64, u64)>)
    requires
        align > 0,
    ensures
        r == gap_of_pair(x0, x1, align),
{
    if x1 <= x0 || x1 - x0 <= 1 {
        return None;
    }
    let i = x0 + 1;
    let l = x1 - x0 - 1;
    let s = if i % align == 0 {
        0
    } else {
        align - i % align
    };
    if l <= s {
        None
    } else {
        Some((i + s, l - s))
    }
}

impl GPT {
    /// Find the free spots of the table, as `(starting LBA, length in sectors)`, in disk order.
    /// Each spot starts at a multiple of `align`: its start is moved up to the next multiple,
    /// its length shrunk to match, and a spot with nothing left is dropped.
    pub fn find_free_sectors(&self) -> (r: Vec<(u64, u64)>)
        requires
            searchable(*self),
        ensures
            r@ == free_gaps(self.header, self.entries(), self.align),
    {
        let ghost p = self.entries();
        let mut positions: Vec<u64> = Vec::new();
        positions.push(self.header.first_usable_lba - 1);
        let mut i: usize = 0;
        while i < self.partitions.len()
            invariant
                p == self.entries(),
                searchable(*self),
                i <= p.len(),
                positions@ == seq![(self.header.first_usable_lba - 1) as u64] + used_bounds(
                    p.take(i as int),
                ),
            decreases p.len() - i,
        {
            let e = &self.partitions[i];
            assert(e@ == p[i as int]);
            assert(p.take(i + 1).drop_last() =~= p.take(i as int));
            if e.is_used() {
                positions.push(e.starting_lba);
                positions.push(e.ending_lba);
            }
            i = i + 1;
            assert(positions@ =~= seq![(self.header.first_usable_lba - 1) as u64] + used_bounds(
                p.take(i as int),
            ));
        }
        positions.push(self.header.last_usable_lba + 1);
        assert(p.take(i as int) =~= p);
        assert(positions@ =~= boundary_list(self.header, p));
        let q = sort_u64(&positions);
        let ghost qs = q@;
        proof {
            boundary_list(self.header, p).lemma_sort_by_ensures(u64_leq());
            assert(q@.len() == boundary_list(self.header, p).len()) by {
                vstd::seq_lib::to_multiset_len(q@);
                vstd::seq_lib::to_multiset_len(boundary_list(self.header, p));
            }
        }
        let pairs = q.len() / 2;
        let mut out: Vec<(u64, u64)> = Vec::new();
        let mut j: usize = 0;
        while j < pairs
            invariant
                qs == q@,
                pairs == q@.len() / 2,
                j <= pairs,
                self.align > 0,
                out@ == gaps_upto(qs, self.align, j as nat),
            decreases pairs - j,
        {
            match gap_between(q[2 * j], q[2 * j + 1], self.align) {
                Some(g) => {
                    out.push(g);
                },
                None => {},
            }
            j = j + 1;
        }
        out
    }

    /// Find the first place (most on the left) where a partition of `size` sectors could start.
    pub fn find_first_place(&self, size: u64) -> (r: Option<u64>)
        requires
            searchable(*self),
        ensures
            ({
                let gaps = free_gaps(self.header, self.entries(), self.align);
                &&& r is None <==> forall|i: int| 0 <= i < gaps.len() ==> !fits(gaps, i, size)
                &&& r is Some ==> exists|i: int|
                    0 <= i < gaps.len() && fits(gaps, i, size) && r->Some_0 == gaps[i].0 && forall|
                        j: int,
                    | 0 <= j < i ==> !fits(gaps, j, size)
            }),
    {
        let gaps = self.find_free_sectors();
        let mut i: usize = 0;
        while i < gaps.len()
            invariant
                gaps@ == free_gaps(self.header, self.entries(), self.align),
                i <= gaps@.len(),
                forall|j: int| 0 <= j < i ==> !fits(gaps@, j, size),
            decreases gaps@.len() - i,
        {
            if gaps[i].1 >= size {
                assert(fits(gaps@, i as int, size));
                return Some(gaps[i].0);
            }
            i = i + 1;
        }
        None
    }

    /// Find the last place (most on the right) where a partition of `size` sectors could start:
    /// in the last free spot that can hold it, the highest aligned start.
    pub fn find_last_place(&self, size: u64) -> (r: Option<u64>)
        requires
            searchable(*self),
        ensures
            ({
                let gaps = free_gaps(self.header, self.entries(), self.align);
                &&& r is None <==> forall|i: int| 0 <= i < gaps.len() ==> !fits(gaps, i, size)
                &&& r is Some ==> exists|i: int|
                    0 <= i < gaps.len() && fits(gaps, i, size) && r->Some_0 == round_down(
                        gaps[i].0 + gaps[i].1 - size,
                        self.align,
                    ) && forall|j: int| i < j < gaps.len() ==> !fits(gaps, j, size)
                &&& r is Some ==> (r->Some_0 as int) % (self.align as int) == 0
                &&& r is Some ==> exists|i: int|
                    0 <= i < gaps.len() && gaps[i].0 <= r->Some_0 && r->Some_0 + size <= gaps[i].0
                        + gaps[i].1
            }),
    {
        let gaps = self.find_free_sectors();
        let mut i: usize = gaps.len();
        while i > 0
            invariant
                gaps@ == free_gaps(self.header, self.entries(), self.align),
                searchable(*self),
                i <= gaps@.len(),
                forall|j: int| i <= j < gaps@.len() ==> !fits(gaps@, j, size),
            decreases i,
        {
            let (start, len) = gaps[i - 1];
            if len >= size {
                assert(start + len <= u64::MAX) by {
                    lemma_gap_end(self.header, self.entries(), self.align, (i - 1) as int);
                }
                let top = start + len - size;
                let a = self.align;
                proof {
                    lemma_gap_end(self.header, self.entries(), a, (i - 1) as int);
                    let g0 = start as int;
                    let t = top as int;
                    let ai = a as int;
                    vstd::arithmetic::div_mod::lemma_fundamental_div_mod(t, ai);
                    vstd::arithmetic::div_mod::lemma_fundamental_div_mod(g0, ai);
                    assert(t / ai * ai <= t && g0 <= t / ai * ai) by (nonlinear_arith)
                        requires
                            ai > 0,
                            g0 <= t,
                            g0 % ai == 0,
                            t == ai * (t / ai) + (t % ai),
                            g0 == ai * (g0 / ai) + (g0 % ai),
                            0 <= t % ai < ai,
                    ;
                    vstd::arithmetic::div_mod::lemma_mod_multiples_basic(t / ai, ai);
                }
                assert(fits(gaps@, i - 1, size));
                assert(top / self.align * self.align == round_down(
                    gaps@[i - 1].0 + gaps@[i - 1].1 - size,
                    self.align,
                ));
                return Some(top / self.align * self.align);
            }
            i = i - 1;
        }
        None
    }

    /// Find the start of the smallest free spot that can hold a partition of `size` sectors (the
    /// leftmost among equally small ones), keeping larger spots for larger partitions.
    pub fn find_optimal_place(&self, size: u64) -> (r: Option<u64>)
        requires
            searchable(*self),
        ensures
            ({
                let gaps = free_gaps(self.header, self.entries(), self.align);
                &&& r is None <==> forall|i: int| 0 <= i < gaps.len() ==> !fits(gaps, i, size)
                &&& r is Some ==> exists|i: int|
                    0 <= i < gaps.len() && fits(gaps, i, size) && r->Some_0 == gaps[i].0 && (forall|
                        j: int,
                    | 0 <= j < gaps.len() && fits(gaps, j, size) ==> gaps[j].1 >= gaps[i].1) && (
                    forall|j: int| 0 <= j < i && fits(gaps, j, size) ==> gaps[j].1 > gaps[i].1)
            }),
    {
        let gaps = self.find_free_sectors();
        let mut best: Option<usize> = None;
        let mut i: usize = 0;
        while i < gaps.len()
            invariant
                gaps@ == free_gaps(self.header, self.entries(), self.align),
                i <= gaps@.len(),
                best is None ==> forall|j: int| 0 <= j < i ==> !fits(gaps@, j, size),
                best is Some ==> {
                    let b = best->Some_0 as int;
                    &&& 0 <= b < i
                    &&& fits(gaps@, b, size)
                    &&& forall|j: int| 0 <= j < i && fits(gaps@, j, size) ==> gaps@[j].1 >= gaps@[b].1
                    &&& forall|j: int| 0 <= j < b && fits(gaps@, j, size) ==> gaps@[j].1 > gaps@[b].1
                },
            decreases gaps@.len() - i,
        {
            if gaps[i].1 >= size {
                match best {
                    None => {
                        best = Some(i);
                    },
                    Some(b) => {
                        if gaps[i].1 < gaps[b].1 {
                            best = Some(i);
                        }
                    },
                }
            }
            i = i + 1;
        }
        match best {
            None => None,
            Some(b) => Some(gaps[b].0),
        }
    }

    /// Get the maximum size (in sectors, a multiple of `align`) of a partition that could be
    /// created; `NoSpaceLeft` when there is no free spot.
    pub fn get_maximum_partition_size(&self) -> (r: Result<u64, Error>)
        requires
            searchable(*self),
        ensures
            ({
                let gaps = free_gaps(self.header, self.entries(), self.align);
                &&& gaps.len() == 0 ==> r is Err && r->Err_0 is NoSpaceLeft
                &&& gaps.len() > 0 ==> r is Ok && (exists|i: int|
                    0 <= i < gaps.len() && r->Ok_0 == round_down(gaps[i].1 as int, self.align))
                    && forall|i: int|
                    0 <= i < gaps.len() ==> round_down(gaps[i].1 as int, self.align) <= r->Ok_0
            }),
    {
        let gaps = self.find_free_sectors();
        if gaps.len() == 0 {
            return Err(Error::NoSpaceLeft);
        }
        let a = self.align;
        let l0 = gaps[0].1;
        assert(l0 / a * a <= l0) by (nonlinear_arith)
            requires
                a > 0,
        ;
        let mut best: u64 = l0 / a * a;
        let mut i: usize = 1;
        while i < gaps.len()
            invariant
                gaps@ == free_gaps(self.header, self.entries(), self.align),
                a == self.align,
                a > 0,
                1 <= i <= gaps@.len(),
                exists|k: int| 0 <= k < i && best == round_down(gaps@[k].1 as int, a),
                forall|k: int| 0 <= k < i ==> round_down(gaps@[k].1 as int, a) <= best,
            decreases gaps@.len() - i,
        {
            let l = gaps[i].1;
            assert(l / a * a <= l) by (nonlinear_arith)
                requires
                    a > 0,
            ;
            let m = l / a * a;
            if m > best {
                best = m;
            }
            i = i + 1;
        }
        Ok(best)
    }
}

/// Moving `i` up to the next multiple of `a` gives a multiple of `a`.
proof fn lemma_next_multiple(i: int, a: int)
    requires
        i >= 0,
        a > 0,
    ensures
        (i + if i % a == 0 {
            0
        } else {
            a - i % a
        }) % a == 0,
{
    vstd::arithmetic::div_mod::lemma_fundamental_div_mod(i, a);
    if i % a == 0 {
        vstd::arithmetic::div_mod::lemma_mod_multiples_basic(i / a, a);
        assert(i == (i / a) * a) by (nonlinear_arith)
            requires
                i == a * (i / a) + 0,
        ;
    } else {
        assert(i + (a - i % a) == (i / a + 1) * a) by (nonlinear_arith)
            requires
                i == a * (i / a) + (i % a),
        ;
        vstd::arithmetic::div_mod::lemma_mod_multiples_basic(i / a + 1, a);
    }
}

/// A free gap starts at a multiple of the alignment and ends inside the range of sector numbers.
proof fn lemma_gap_end(h: GPTHeader, p: Seq<EntryView>, align: u64, i: int)
    requires
        align > 0,
        0 <= i < free_gaps(h, p, align).len(),
    ensures
        free_gaps(h, p, align)[i].0 + free_gaps(h, p, align)[i].1 <= u64::MAX,
        (free_gaps(h, p, align)[i].0 as int) % (align as int) == 0,
{
    let q = boundary_list(h, p).sort_by(u64_leq());
    lemma_gaps_upto_end(q, align, q.len() / 2, i);
}

/// Each gap of the first `j` pairs ends at or before the second boundary of its pair.
proof fn lemma_gaps_upto_end(q: Seq<u64>, align: u64, j: nat, i: int)
    requires
        align > 0,
        2 * j <= q.len(),
        0 <= i < gaps_upto(q, align, j).len(),
    ensures
        gaps_upto(q, align, j)[i].0 + gaps_upto(q, align, j)[i].1 <= u64::MAX,
        (gaps_upto(q, align, j)[i].0 as int) % (align as int) == 0,
    decreases j,
{
    if j > 0 {
        let g = gaps_upto(q, align, (j - 1) as nat);
        if i < g.len() {
            lemma_gaps_upto_end(q, align, (j - 1) as nat, i);
            match gap_of_pair(q[2 * (j - 1)], q[2 * (j - 1) + 1], align) {
                Some(x) => {
                    assert(gaps_upto(q, align, j)[i] == g.push(x)[i]);
                },
                None => {},
            }
        } else {
            let x0 = q[2 * (j - 1)];
            let x1 = q[2 * (j - 1) + 1];
            match gap_of_pair(x0, x1, align) {
                Some(x) => {
                    assert(gaps_upto(q, align, j)[i] == x);
                    assert(x1 > x0 + 1);
                    assert(x.0 + x.1 == x1);
                    lemma_next_multiple(x0 + 1, align as int);
                },
                None => {},
            }
        }
    }
}

} // verus!
