//! From group-major scratch to draw-major output.
//!
//! A chain is reported draw after draw, while each group is sampled on its own into a
//! contiguous stretch of scratch. The groups are taken a slab at a time, so that the
//! scratch never holds a second copy of the whole chain.
use rayon::iter::{IndexedParallelIterator, ParallelIterator};
use rayon::slice::ParallelSliceMut;
use vstd::arithmetic::div_mod::*;
use vstd::arithmetic::mul::*;
use vstd::prelude::*;

verus! {

/// Bytes of scratch that a slab may take.
pub const SLAB_BYTES: usize = 4_194_304;

/// Consecutive groups that share a stretch of scratch.
#[derive(Debug, Clone, Copy, PartialEq, Eq, Structural)]
pub struct Slab {
    /// The first group.
    pub start: usize,
    /// How many groups.
    pub here: usize,
    /// Parameters of a group.
    pub width: usize,
    /// Entries that a group takes in the scratch: its parameters for every draw.
    pub per_group: usize,
}

impl Slab {
    /// Whether a parameter, numbered over all groups, belongs to a group of the slab.
    pub open spec fn covers(self, column: int) -> bool {
        self.start * self.width <= column < (self.start + self.here) * self.width
    }

    /// Where the scratch holds a draw of such a parameter.
    pub open spec fn source(self, draw: int, column: int) -> int {
        let at = column - self.start * self.width;
        at / (self.width as int) * self.per_group + draw * self.width + at % (self.width as int)
    }

    /// The slab lies within a row of `n_params`, and the scratch holds `n_draws` draws of
    /// each of its groups.
    pub open spec fn fits(self, n_params: int, scratch: int, n_draws: int) -> bool {
        &&& self.width > 0
        &&& (self.start + self.here) * self.width <= n_params
        &&& self.here * self.per_group <= scratch
        &&& n_draws * self.width <= self.per_group
    }
}

/// The `k`th stretch of `n` entries.
pub open spec fn chunk<T>(s: Seq<T>, n: int, k: int) -> Seq<T> {
    s.subrange(k * n, (k + 1) * n)
}

/// A draw of all parameters once the groups of a slab have been put in their places.
pub open spec fn scattered_row<T>(row: Seq<T>, draw: int, scratch: Seq<T>, slab: Slab) -> Seq<T> {
    Seq::new(
        row.len(),
        |c: int|
            if slab.covers(c) {
                scratch[slab.source(draw, c)]
            } else {
                row[c]
            },
    )
}

/// All draws once the groups of a slab have been put in their places.
pub open spec fn scattered<T>(out: Seq<T>, n_params: int, scratch: Seq<T>, slab: Slab) -> Seq<T> {
    Seq::new(
        out.len(),
        |p: int|
            if slab.covers(p % n_params) {
                scratch[slab.source(p / n_params, p % n_params)]
            } else {
                out[p]
            },
    )
}

/// An entry of a covered column lies where its group, its draw and its place say.
proof fn lemma_source(slab: Slab, draw: int, i: int, k: int)
    requires
        slab.width > 0,
        0 <= k < slab.width,
        0 <= i < slab.here,
    ensures
        slab.covers((slab.start + i) * slab.width + k),
        slab.source(draw, (slab.start + i) * slab.width + k) == i * slab.per_group + draw
            * slab.width + k,
{
    let w = slab.width as int;
    let s = slab.start as int;
    lemma_mul_is_distributive_add_other_way(w, s, i);
    let at = (s + i) * w + k - s * w;
    assert(at == i * w + k);
    lemma_fundamental_div_mod_converse(at, w, i, k);
    assert((s + i) * w + k < (s + slab.here) * w) by (nonlinear_arith)
        requires
            i < slab.here,
            0 <= k < w,
    ;
    assert(s * w <= (s + i) * w) by (nonlinear_arith)
        requires
            0 <= i,
            0 < w,
    ;
}

/// Puts one draw of a slab's groups in its place.
pub fn scatter_row<T: Copy>(row: &mut [T], draw: usize, scratch: &[T], slab: Slab)
    requires
        slab.fits(old(row)@.len() as int, scratch@.len() as int, draw + 1),
    ensures
        final(row)@ == scattered_row(old(row)@, draw as int, scratch@, slab),
{
    let ghost before = row@;
    let ghost n = row@.len() as int;
    let mut i: usize = 0;
    proof {
        assert(row.len() == row@.len());
        assert(scratch.len() == scratch@.len());
    }
    while i < slab.here
        invariant
            i <= slab.here,
            n == before.len(),
            row@.len() == n,
            slab.fits(n, scratch@.len() as int, draw + 1),
            n <= usize::MAX,
            scratch@.len() <= usize::MAX,
            forall|c: int|
                0 <= c < n ==> (#[trigger] row@[c]) == if slab.start * slab.width <= c && c < (
                slab.start + i) * slab.width {
                    scratch@[slab.source(draw as int, c)]
                } else {
                    before[c]
                },
        decreases slab.here - i,
    {
        proof {
            assert((slab.start + i) * slab.width + slab.width <= (slab.start + slab.here)
                * slab.width) by (nonlinear_arith)
                requires
                    i < slab.here,
            ;
            assert(i * slab.per_group + slab.per_group <= slab.here * slab.per_group)
                by (nonlinear_arith)
                requires
                    i < slab.here,
            ;
            assert((draw + 1) * slab.width == draw * slab.width + slab.width) by (nonlinear_arith);
            assert(slab.start + i <= (slab.start + i) * slab.width) by (nonlinear_arith)
                requires
                    slab.width > 0,
            ;
            assert(slab.start * slab.width <= (slab.start + i) * slab.width) by (nonlinear_arith)
                requires
                    0 <= i,
            ;
            assert(0 <= draw * slab.width) by (nonlinear_arith);
            assert(0 <= i * slab.per_group) by (nonlinear_arith);
        }
        let at: usize = (slab.start + i) * slab.width;
        let from: usize = i * slab.per_group + draw * slab.width;
        let mut k: usize = 0;
        while k < slab.width
            invariant
                i < slab.here,
                k <= slab.width,
                n == before.len(),
                row@.len() == n,
                slab.width > 0,
                at == (slab.start + i) * slab.width,
                slab.start * slab.width <= at,
                at + slab.width <= n,
                n <= usize::MAX,
                from == i * slab.per_group + draw * slab.width,
                from + slab.width <= scratch@.len(),
                scratch@.len() <= usize::MAX,
                forall|c: int|
                    0 <= c < n ==> (#[trigger] row@[c]) == if slab.start * slab.width <= c && c
                        < at + k {
                        scratch@[slab.source(draw as int, c)]
                    } else {
                        before[c]
                    },
            decreases slab.width - k,
        {
            proof {
                lemma_source(slab, draw as int, i as int, k as int);
            }
            row[at + k] = scratch[from + k];
            k += 1;
        }
        proof {
            assert((slab.start + i + 1) * slab.width == (slab.start + i) * slab.width + slab.width)
                by (nonlinear_arith);
        }
        i += 1;
    }
    proof {
        assert(row@ =~= scattered_row(before, draw as int, scratch@, slab));
    }
}

/// Hands every stretch of `n_params` entries, with its number, to [`scatter_row`].
///
/// Trusted: `rayon`'s `par_chunks_mut`, `enumerate` and `for_each` part the slice into
/// consecutive stretches that do not overlap, number them from zero in order, and call
/// the closure once on each.
#[verifier::external_body]
fn scatter_rows<T: Copy + Send + Sync>(
    out: &mut [T],
    n_params: usize,
    scratch: &[T],
    slab: Slab,
)
    requires
        n_params > 0,
        old(out)@.len() % (n_params as nat) == 0,
        slab.fits(
            n_params as int,
            scratch@.len() as int,
            (old(out)@.len() / (n_params as nat)) as int,
        ),
    ensures
        final(out)@.len() == old(out)@.len(),
        forall|draw: int|
            0 <= draw < old(out)@.len() / (n_params as nat) ==> #[trigger] chunk(
                final(out)@,
                n_params as int,
                draw,
            ) == scattered_row(
                chunk(old(out)@, n_params as int, draw),
                draw,
                scratch@,
                slab,
            ),
{
    out.par_chunks_mut(n_params).enumerate().for_each(
        |(draw, row)| scatter_row(row, draw, scratch, slab),
    );
}

/// Puts every draw of a slab's groups in its place.
pub fn scatter<T: Copy + Send + Sync>(
    out: &mut [T],
    n_params: usize,
    n_draws: usize,
    scratch: &[T],
    slab: Slab,
)
    requires
        n_params > 0,
        old(out)@.len() == n_draws * n_params,
        slab.fits(n_params as int, scratch@.len() as int, n_draws as int),
    ensures
        final(out)@ == scattered(old(out)@, n_params as int, scratch@, slab),
{
    let ghost before = out@;
    proof {
        lemma_fundamental_div_mod_converse(
            before.len() as int,
            n_params as int,
            n_draws as int,
            0,
        );
    }
    scatter_rows(out, n_params, scratch, slab);
    proof {
        let n = n_params as int;
        let after = out@;
        assert forall|p: int| 0 <= p < before.len() implies after[p] == #[trigger] scattered(
            before,
            n,
            scratch@,
            slab,
        )[p] by {
            let draw = p / n;
            let c = p % n;
            lemma_fundamental_div_mod(p, n);
            assert(0 <= c < n);
            assert(n * draw == draw * n) by (nonlinear_arith);
            assert((draw + 1) * n == draw * n + n) by (nonlinear_arith);
            assert(0 <= draw < n_draws) by (nonlinear_arith)
                requires
                    0 <= p < n_draws * n,
                    p == n * draw + c,
                    0 <= c < n,
            ;
            assert((draw + 1) * n <= n_draws * n) by (nonlinear_arith)
                requires
                    draw + 1 <= n_draws,
                    0 < n,
            ;
            assert(0 <= draw * n) by (nonlinear_arith)
                requires
                    0 <= draw,
                    0 < n,
            ;
            assert(chunk(after, n, draw) == scattered_row(
                chunk(before, n, draw),
                draw,
                scratch@,
                slab,
            ));
            assert(chunk(after, n, draw)[c] == after[p]);
            assert(chunk(before, n, draw)[c] == before[p]);
        }
        assert(after =~= scattered(before, n, scratch@, slab));
    }
}

/// How many groups share a slab: as many as fit in the bytes it may take, one at least
/// and no more than there are.
pub open spec fn batch_size(per_group: int, n_groups: int) -> int {
    let most = if n_groups < 1 {
        1
    } else {
        n_groups
    };
    let fitting = SLAB_BYTES as int / (per_group * 8);
    if fitting < 1 {
        1
    } else if fitting > most {
        most
    } else {
        fitting
    }
}

/// How many groups share a slab.
pub fn group_batch(per_group: usize, n_groups: usize) -> (r: usize)
    requires
        0 < per_group,
        per_group * 8 <= usize::MAX,
    ensures
        r == batch_size(per_group as int, n_groups as int),
        1 <= r,
{
    let most: usize = if n_groups < 1 {
        1
    } else {
        n_groups
    };
    let fitting: usize = SLAB_BYTES / (per_group * 8);
    if fitting < 1 {
        1
    } else if fitting > most {
        most
    } else {
        fitting
    }
}

/// A slab takes as many groups as fit in four mebibytes of eight-byte entries: one at least,
/// all of them where they fit, and otherwise no more and no fewer than fit.
pub proof fn a_slab_takes_as_many_groups_as_fit(per_group: int, n_groups: int)
    requires
        0 < per_group,
        1 <= n_groups,
    ensures
        ({
            let batch = batch_size(per_group, n_groups);
            &&& 1 <= batch <= n_groups
            &&& batch > 1 ==> batch * (per_group * 8) <= 4_194_304
            &&& batch < n_groups ==> (batch + 1) * (per_group * 8) > 4_194_304
        }),
{
    let room = per_group * 8;
    let fitting = 4_194_304int / room;
    lemma_fundamental_div_mod(4_194_304, room);
    assert(room * fitting == fitting * room) by (nonlinear_arith);
    assert((fitting + 1) * room == fitting * room + room) by (nonlinear_arith);
    let batch = batch_size(per_group, n_groups);
    if batch > 1 {
        assert(batch * room <= fitting * room) by (nonlinear_arith)
            requires
                batch <= fitting,
                0 < room,
        ;
    }
    if batch < n_groups {
        assert((fitting + 1) * room <= (batch + 1) * room) by (nonlinear_arith)
            requires
                fitting <= batch,
                0 < room,
        ;
    }
}

/// How many slabs a number of groups takes.
pub open spec fn slab_count(n_groups: int, batch: int) -> int {
    (n_groups + batch - 1) / batch
}

/// The `j`th slab.
pub open spec fn slab_at(n_groups: int, batch: int, width: usize, per_group: usize, j: int) -> Slab {
    Slab {
        start: (j * batch) as usize,
        here: if batch <= n_groups - j * batch {
            batch as usize
        } else {
            (n_groups - j * batch) as usize
        },
        width,
        per_group,
    }
}

/// The slabs that a number of groups is taken in.
pub open spec fn slabs_of(n_groups: int, batch: int, width: usize, per_group: usize) -> Seq<Slab> {
    Seq::new(
        slab_count(n_groups, batch) as nat,
        |j: int| slab_at(n_groups, batch, width, per_group, j),
    )
}

/// How many slabs a fit of this shape takes.
pub fn n_group_batches(per_group: usize, n_groups: usize) -> (r: usize)
    requires
        0 < per_group,
        per_group * 8 <= usize::MAX,
    ensures
        r == slab_count(n_groups as int, batch_size(per_group as int, n_groups as int)),
{
    let batch = group_batch(per_group, n_groups);
    let whole: usize = n_groups / batch;
    let rest: usize = n_groups % batch;
    proof {
        lemma_slab_count(n_groups as int, batch as int);
        assert(n_groups / batch <= n_groups) by (nonlinear_arith)
            requires
                batch >= 1,
        ;
        if batch == 1 {
            lemma_fundamental_div_mod_converse(n_groups as int, 1, n_groups as int, 0);
        } else {
            assert(n_groups / batch < usize::MAX) by (nonlinear_arith)
                requires
                    batch >= 2,
            ;
        }
    }
    if rest == 0 {
        whole
    } else {
        whole + 1
    }
}

proof fn lemma_slab_count(n_groups: int, batch: int)
    requires
        0 <= n_groups,
        1 <= batch,
    ensures
        slab_count(n_groups, batch) == n_groups / batch + if n_groups % batch == 0 {
            0int
        } else {
            1int
        },
{
    let q = n_groups / batch;
    let r = n_groups % batch;
    lemma_fundamental_div_mod(n_groups, batch);
    assert(batch * q == q * batch) by (nonlinear_arith);
    if r == 0 {
        lemma_fundamental_div_mod_converse(n_groups + batch - 1, batch, q, batch - 1);
    } else {
        assert((q + 1) * batch == q * batch + batch) by (nonlinear_arith);
        lemma_fundamental_div_mod_converse(n_groups + batch - 1, batch, q + 1, r - 1);
    }
}

/// A slab of the list starts before the groups end, and only the last may end with them.
proof fn lemma_slab_start(n_groups: int, batch: int, j: int)
    requires
        0 <= n_groups,
        1 <= batch,
        0 <= j,
    ensures
        j < slab_count(n_groups, batch) <==> j * batch < n_groups,
{
    let q = n_groups / batch;
    let r = n_groups % batch;
    lemma_slab_count(n_groups, batch);
    lemma_fundamental_div_mod(n_groups, batch);
    assert(batch * q == q * batch) by (nonlinear_arith);
    if j < q {
        assert(j * batch < q * batch) by (nonlinear_arith)
            requires
                j < q,
                1 <= batch,
        ;
    } else if j == q {
    } else {
        assert(q * batch + batch <= j * batch) by (nonlinear_arith)
            requires
                q + 1 <= j,
                1 <= batch,
        ;
    }
}

/// The slabs that a number of groups is taken in, in order.
pub fn slabs(n_groups: usize, batch: usize, width: usize, per_group: usize) -> (r: Vec<Slab>)
    requires
        1 <= batch,
    ensures
        r@ == slabs_of(n_groups as int, batch as int, width, per_group),
{
    let mut out: Vec<Slab> = Vec::new();
    let mut start: usize = 0;
    let mut more: bool = 0 < n_groups;
    let ghost all = slabs_of(n_groups as int, batch as int, width, per_group);
    proof {
        lemma_slab_start(n_groups as int, batch as int, 0);
        if n_groups == 0 {
            lemma_slab_count(0, batch as int);
            lemma_fundamental_div_mod_converse(0, batch as int, 0, 0);
        }
    }
    while more
        invariant
            1 <= batch,
            all == slabs_of(n_groups as int, batch as int, width, per_group),
            out@.len() <= all.len(),
            out@ =~= all.take(out@.len() as int),
            more ==> start == out@.len() * batch && start < n_groups,
            !more ==> out@.len() == all.len(),
            all.len() == slab_count(n_groups as int, batch as int),
        decreases n_groups - start + if more {
            1int
        } else {
            0int
        },
    {
        let left: usize = n_groups - start;
        let here: usize = if batch <= left {
            batch
        } else {
            left
        };
        let ghost j = out@.len() as int;
        let slab = Slab { start, here, width, per_group };
        proof {
            lemma_slab_start(n_groups as int, batch as int, j);
            lemma_slab_start(n_groups as int, batch as int, j + 1);
            assert((j + 1) * batch == j * batch + batch) by (nonlinear_arith);
            assert(slab == all[j]);
        }
        out.push(slab);
        if batch < left {
            start += batch;
        } else {
            more = false;
        }
        proof {
            assert(out@ =~= all.take(out@.len() as int));
        }
    }
    proof {
        assert(out@ =~= all);
    }
    out
}

/// Every group belongs to the slab that its number divided by the batch names, and to no
/// other.
pub proof fn every_group_is_in_one_slab(
    n_groups: int,
    batch: int,
    width: usize,
    per_group: usize,
    g: int,
    j: int,
)
    requires
        0 <= g < n_groups <= usize::MAX,
        1 <= batch <= usize::MAX,
        0 <= j < slab_count(n_groups, batch),
    ensures
        0 <= g / batch < slab_count(n_groups, batch),
        ({
            let slab = slab_at(n_groups, batch, width, per_group, j);
            slab.start <= g < slab.start + slab.here <==> j == g / batch
        }),
{
    let q = g / batch;
    let r = g % batch;
    lemma_fundamental_div_mod(g, batch);
    assert(batch * q == q * batch) by (nonlinear_arith);
    assert(0 <= q) by (nonlinear_arith)
        requires
            0 <= g,
            g == q * batch + r,
            0 <= r < batch,
    ;
    lemma_slab_start(n_groups, batch, q);
    lemma_slab_start(n_groups, batch, j);
    assert(0 <= j * batch) by (nonlinear_arith)
        requires
            0 <= j,
            1 <= batch,
    ;
    if j < q {
        assert(j * batch + batch <= q * batch) by (nonlinear_arith)
            requires
                j + 1 <= q,
                1 <= batch,
        ;
    } else if q < j {
        assert(q * batch + batch <= j * batch) by (nonlinear_arith)
            requires
                q + 1 <= j,
                1 <= batch,
        ;
    }
}

/// A chain once its slabs have been put in their places one after the other.
pub open spec fn placed<T>(
    out: Seq<T>,
    n_params: int,
    slabs: Seq<Slab>,
    scratches: Seq<Seq<T>>,
) -> Seq<T>
    decreases slabs.len(),
{
    if slabs.len() == 0 {
        out
    } else {
        scattered(
            placed(out, n_params, slabs.drop_last(), scratches),
            n_params,
            scratches[slabs.len() - 1],
            slabs.last(),
        )
    }
}

/// Whichever slab of the first `m` covers a cell's column wrote the cell.
proof fn lemma_placed<T>(
    out: Seq<T>,
    n_params: int,
    slabs: Seq<Slab>,
    scratches: Seq<Seq<T>>,
    p: int,
    j: int,
)
    requires
        0 <= p < out.len(),
        0 <= j < slabs.len(),
        slabs[j].covers(p % n_params),
        forall|i: int|
            0 <= i < slabs.len() && i != j ==> !(#[trigger] slabs[i]).covers(p % n_params),
    ensures
        placed(out, n_params, slabs, scratches).len() == out.len(),
        placed(out, n_params, slabs, scratches)[p] == scratches[j][slabs[j].source(
            p / n_params,
            p % n_params,
        )],
    decreases slabs.len(),
{
    lemma_placed_len(out, n_params, slabs, scratches);
    lemma_placed_len(out, n_params, slabs.drop_last(), scratches);
    if j < slabs.len() - 1 {
        let rest = slabs.drop_last();
        assert(rest[j] == slabs[j]);
        assert forall|i: int| 0 <= i < rest.len() && i != j implies !(#[trigger] rest[i]).covers(
            p % n_params,
        ) by {
            assert(rest[i] == slabs[i]);
        }
        lemma_placed(out, n_params, rest, scratches, p, j);
        assert(!slabs[slabs.len() - 1].covers(p % n_params));
    }
}

proof fn lemma_placed_len<T>(
    out: Seq<T>,
    n_params: int,
    slabs: Seq<Slab>,
    scratches: Seq<Seq<T>>,
)
    ensures
        placed(out, n_params, slabs, scratches).len() == out.len(),
    decreases slabs.len(),
{
    if slabs.len() > 0 {
        lemma_placed_len(out, n_params, slabs.drop_last(), scratches);
    }
}

/// Whatever the batch, a chain that was put together slab by slab holds, in each draw and
/// at the place of each group, the value that the group sampled for that draw.
pub proof fn a_chain_holds_every_groups_draws<T>(
    out: Seq<T>,
    n_groups: int,
    n_draws: int,
    batch: int,
    width: usize,
    per_group: usize,
    scratches: Seq<Seq<T>>,
    draw: int,
    g: int,
    k: int,
)
    requires
        1 <= batch <= usize::MAX,
        0 <= draw < n_draws,
        0 <= g < n_groups <= usize::MAX,
        0 <= k < width,
        per_group == n_draws * width,
        out.len() == n_draws * (n_groups * width),
    ensures
        placed(
            out,
            n_groups * width,
            slabs_of(n_groups, batch, width, per_group),
            scratches,
        )[draw * (n_groups * width) + g * width + k] == scratches[g / batch][g % batch * per_group
            + draw * width + k],
{
    let n_params = n_groups * width;
    let slabs = slabs_of(n_groups, batch, width, per_group);
    let c = g * width + k;
    let p = draw * n_params + c;
    let j = g / batch;
    assert(0 <= c < n_params) by (nonlinear_arith)
        requires
            0 <= g < n_groups,
            0 <= k < width,
            n_params == n_groups * width,
            c == g * width + k,
    ;
    lemma_fundamental_div_mod_converse(p, n_params, draw, c);
    assert(0 <= p < n_draws * n_params) by (nonlinear_arith)
        requires
            0 <= draw < n_draws,
            0 <= c < n_params,
            p == draw * n_params + c,
    ;
    lemma_slab_start(n_groups, batch, 0);
    every_group_is_in_one_slab(n_groups, batch, width, per_group, g, 0);
    assert forall|i: int| 0 <= i < slabs.len() implies (#[trigger] slabs[i]).covers(c) == (i
        == j) by {
        every_group_is_in_one_slab(n_groups, batch, width, per_group, g, i);
        let slab = slabs[i];
        lemma_cover_is_membership(slab, g, k);
    }
    lemma_placed(out, n_params, slabs, scratches, p, j);
    let slab = slabs[j];
    every_group_is_in_one_slab(n_groups, batch, width, per_group, g, j);
    lemma_fundamental_div_mod(g, batch);
    assert(batch * j == j * batch) by (nonlinear_arith);
    lemma_source(slab, draw, g - slab.start, k);
}

proof fn lemma_cover_is_membership(slab: Slab, g: int, k: int)
    requires
        slab.width > 0,
        0 <= g,
        0 <= k < slab.width,
    ensures
        slab.covers(g * slab.width + k) <==> slab.start <= g < slab.start + slab.here,
{
    let w = slab.width as int;
    let s = slab.start as int;
    let e = s + slab.here;
    if s <= g && g < e {
        lemma_source(slab, 0, g - s, k);
    } else if g < s {
        assert(g * w + k < s * w) by (nonlinear_arith)
            requires
                g + 1 <= s,
                0 <= k < w,
        ;
    } else {
        assert(e * w <= g * w + k) by (nonlinear_arith)
            requires
                e <= g,
                0 <= k,
                0 < w,
        ;
    }
}

} // verus!
