use vstd::prelude::*;

use crate::error::Error;
use crate::instr::{is_close, is_open, Instr};
use crate::optimize::{fusable, optimized};

verus! {

/// How an instruction changes the loop nesting depth.
pub open spec fn bracket_delta(i: Instr) -> int {
    if is_open(i) {
        1
    } else if is_close(i) {
        -1
    } else {
        0
    }
}

/// The loop nesting depth before the instruction at index `k`.
pub open spec fn depth(s: Seq<Instr>, k: int) -> int
    decreases k,
{
    if k <= 0 || k > s.len() {
        0
    } else {
        depth(s, k - 1) + bracket_delta(s[k - 1])
    }
}

/// Every loop that is closed was opened before, and every loop that is opened is closed.
pub open spec fn well_bracketed(s: Seq<Instr>) -> bool {
    &&& depth(s, s.len() as int) == 0
    &&& forall|k: int| 0 <= k <= s.len() ==> depth(s, k) >= 0
}

/// No instruction after the open jump at `i`, up to and including index `k`,
/// has brought the depth back down to that before `i`.
pub open spec fn still_open(s: Seq<Instr>, i: int, k: int) -> bool {
    forall|m: int| i < m <= k ==> #[trigger] depth(s, m) >= depth(s, i) + 1
}

/// The jump at `i` opens the loop that the jump at `j` closes.
pub open spec fn matched(s: Seq<Instr>, i: int, j: int) -> bool {
    &&& 0 <= i < j < s.len()
    &&& is_open(s[i])
    &&& is_close(s[j])
    &&& depth(s, j) == depth(s, i) + 1
    &&& still_open(s, i, j)
}

/// The jumps at `p` and `q` are the two ends of one loop.
pub open spec fn partners(s: Seq<Instr>, p: int, q: int) -> bool {
    matched(s, p, q) || matched(s, q, p)
}

/// `r` is `s` with each jump's offset replaced by the distance to its partner.
pub open spec fn resolved(s: Seq<Instr>, r: Seq<Instr>) -> bool {
    &&& r.len() == s.len()
    &&& forall|p: int|
        0 <= p < s.len() && !is_open(s[p]) && !is_close(s[p]) ==> #[trigger] r[p] == s[p]
    &&& forall|p: int|
        0 <= p < s.len() && (is_open(#[trigger] s[p]) || is_close(s[p])) ==> exists|q: int|
            #[trigger] partners(s, p, q) && r[p] == Instr::Jump((q - p) as isize)
}

proof fn lemma_matched_unique_close(s: Seq<Instr>, i: int, j: int, j2: int)
    requires
        matched(s, i, j),
        matched(s, i, j2),
    ensures
        j == j2,
{
    if j < j2 {
        assert(depth(s, j + 1) == depth(s, j) - 1);
    } else if j2 < j {
        assert(depth(s, j2 + 1) == depth(s, j2) - 1);
    }
}

proof fn lemma_matched_unique_open(s: Seq<Instr>, i: int, i2: int, j: int)
    requires
        matched(s, i, j),
        matched(s, i2, j),
    ensures
        i == i2,
{
    if i < i2 {
        assert(depth(s, i2) >= depth(s, i) + 1);
    } else if i2 < i {
        assert(depth(s, i) >= depth(s, i2) + 1);
    }
}

/// Replaces each loop-opening and loop-closing jump by the signed distance to its
/// partner, in one left-to-right pass with a stack of the loops still open. Fails
/// with `BracketMismatch` exactly when the brackets are not balanced.
#[verifier::rlimit(50)]
pub fn resolve_jumps(instr: Vec<Instr>) -> (r: Result<Vec<Instr>, Error>)
    requires
        instr@.len() <= isize::MAX,
    ensures
        match r {
            Ok(v) => well_bracketed(instr@) && resolved(instr@, v@),
            Err(e) => !well_bracketed(instr@) && e == Error::BracketMismatch,
        },
{
    let ghost s = instr@;
    let mut v = instr;
    let n = v.len();
    let mut stack_fwd: Vec<usize> = Vec::new();
    let mut stack_back: Vec<(usize, usize)> = Vec::new();
    let mut idx: usize = 0;
    while idx < n
        invariant
            s == instr@,
            n == v@.len() == s.len(),
            n <= isize::MAX,
            idx <= n,
            stack_fwd@.len() == depth(s, idx as int),
            forall|m: int| 0 <= m <= idx ==> #[trigger] depth(s, m) >= 0,
            forall|t: int|
                0 <= t < stack_fwd@.len() ==> {
                    let i = #[trigger] stack_fwd@[t] as int;
                    &&& i < idx
                    &&& is_open(s[i])
                    &&& depth(s, i) == t
                    &&& still_open(s, i, idx as int)
                },
            forall|q: int|
                0 <= q < stack_back@.len() ==> {
                    let (i, j) = #[trigger] stack_back@[q];
                    &&& matched(s, i as int, j as int)
                    &&& j < idx
                    &&& v@[j as int] == Instr::Jump((i - j) as isize)
                },
            forall|q1: int, q2: int|
                0 <= q1 < q2 < stack_back@.len() ==> #[trigger] stack_back@[q1].1
                    < #[trigger] stack_back@[q2].1,
            forall|p: int| 0 <= p < n && !(p < idx && is_close(s[p])) ==> #[trigger] v@[p] == s[p],
            forall|p: int|
                0 <= p < idx && is_close(#[trigger] s[p]) ==> exists|q: int|
                    0 <= q < stack_back@.len() && #[trigger] stack_back@[q].1 == p,
            forall|p: int|
                0 <= p < idx && is_open(#[trigger] s[p]) ==> (exists|t: int|
                    0 <= t < stack_fwd@.len() && #[trigger] stack_fwd@[t] == p) || (exists|q: int|
                    0 <= q < stack_back@.len() && #[trigger] stack_back@[q].0 == p),
        decreases n - idx,
    {
        let x = v[idx];
        assert(depth(s, idx + 1) == depth(s, idx as int) + bracket_delta(s[idx as int]));
        match x {
            Instr::Jump(d) if d > 0 => {
                let ghost old_fwd = stack_fwd@;
                stack_fwd.push(idx);
                assert forall|t: int| 0 <= t < stack_fwd@.len() implies {
                    let i = #[trigger] stack_fwd@[t] as int;
                    &&& i < idx + 1
                    &&& is_open(s[i])
                    &&& depth(s, i) == t
                    &&& still_open(s, i, idx + 1)
                } by {
                    if t < old_fwd.len() {
                        assert(stack_fwd@[t] == old_fwd[t]);
                    }
                }
                assert forall|p: int|
                    0 <= p < idx + 1 && is_open(#[trigger] s[p]) implies (exists|t: int|
                    0 <= t < stack_fwd@.len() && #[trigger] stack_fwd@[t] == p) || (exists|q: int|
                    0 <= q < stack_back@.len() && #[trigger] stack_back@[q].0 == p) by {
                    if p == idx {
                        assert(stack_fwd@[old_fwd.len() as int] == p);
                    } else if exists|t: int| 0 <= t < old_fwd.len() && #[trigger] old_fwd[t] == p {
                        let t = choose|t: int| 0 <= t < old_fwd.len() && #[trigger] old_fwd[t] == p;
                        assert(stack_fwd@[t] == p);
                    }
                }
            },
            Instr::Jump(d) if d < 0 => {
                let ghost old_fwd = stack_fwd@;
                let ghost old_back = stack_back@;
                let loc = match stack_fwd.pop() {
                    Some(l) => l,
                    None => {
                        assert(depth(s, idx + 1) < 0);
                        return Err(Error::BracketMismatch);
                    },
                };
                assert(loc == old_fwd[old_fwd.len() - 1]);
                assert(matched(s, loc as int, idx as int));
                v.set(idx, Instr::Jump(loc as isize - idx as isize));
                stack_back.push((loc, idx));
                assert forall|t: int| 0 <= t < stack_fwd@.len() implies {
                    let i = #[trigger] stack_fwd@[t] as int;
                    &&& i < idx + 1
                    &&& is_open(s[i])
                    &&& depth(s, i) == t
                    &&& still_open(s, i, idx + 1)
                } by {
                    assert(stack_fwd@[t] == old_fwd[t]);
                }
                assert forall|q: int| 0 <= q < stack_back@.len() implies {
                    let (i, j) = #[trigger] stack_back@[q];
                    &&& matched(s, i as int, j as int)
                    &&& j < idx + 1
                    &&& v@[j as int] == Instr::Jump((i - j) as isize)
                } by {
                    if q < old_back.len() {
                        assert(stack_back@[q] == old_back[q]);
                    }
                }
                assert forall|q1: int, q2: int|
                    0 <= q1 < q2 < stack_back@.len() implies #[trigger] stack_back@[q1].1
                    < #[trigger] stack_back@[q2].1 by {
                    assert(stack_back@[q1] == old_back[q1]);
                    if q2 < old_back.len() {
                        assert(stack_back@[q2] == old_back[q2]);
                    }
                }
                assert forall|p: int|
                    0 <= p < idx + 1 && is_close(#[trigger] s[p]) implies exists|q: int|
                    0 <= q < stack_back@.len() && #[trigger] stack_back@[q].1 == p by {
                    if p == idx {
                        assert(stack_back@[old_back.len() as int].1 == p);
                    } else {
                        let q = choose|q: int| 0 <= q < old_back.len() && #[trigger] old_back[q].1 == p;
                        assert(stack_back@[q].1 == p);
                    }
                }
                assert forall|p: int|
                    0 <= p < idx + 1 && is_open(#[trigger] s[p]) implies (exists|t: int|
                    0 <= t < stack_fwd@.len() && #[trigger] stack_fwd@[t] == p) || (exists|q: int|
                    0 <= q < stack_back@.len() && #[trigger] stack_back@[q].0 == p) by {
                    if exists|t: int| 0 <= t < old_fwd.len() && #[trigger] old_fwd[t] == p {
                        let t = choose|t: int| 0 <= t < old_fwd.len() && #[trigger] old_fwd[t] == p;
                        if t == old_fwd.len() - 1 {
                            assert(stack_back@[old_back.len() as int].0 == p);
                        } else {
                            assert(stack_fwd@[t] == p);
                        }
                    } else {
                        let q = choose|q: int| 0 <= q < old_back.len() && #[trigger] old_back[q].0 == p;
                        assert(stack_back@[q].0 == p);
                    }
                }
            },
            _ => {
                assert forall|t: int| 0 <= t < stack_fwd@.len() implies {
                    let i = #[trigger] stack_fwd@[t] as int;
                    &&& i < idx + 1
                    &&& is_open(s[i])
                    &&& depth(s, i) == t
                    &&& still_open(s, i, idx + 1)
                } by {}
            },
        }
        idx += 1;
    }
    if stack_fwd.len() > 0 {
        return Err(Error::BracketMismatch);
    }
    let ghost mid = v@;
    let m = stack_back.len();
    let mut q: usize = 0;
    while q < m
        invariant
            s == instr@,
            n == v@.len() == s.len() == mid.len(),
            n <= isize::MAX,
            m == stack_back@.len(),
            q <= m,
            forall|k: int|
                0 <= k < m ==> {
                    let (i, j) = #[trigger] stack_back@[k];
                    &&& matched(s, i as int, j as int)
                    &&& mid[j as int] == Instr::Jump((i - j) as isize)
                },
            forall|q1: int, q2: int|
                0 <= q1 < q2 < m ==> #[trigger] stack_back@[q1].1 < #[trigger] stack_back@[q2].1,
            forall|p: int| 0 <= p < n && !is_open(s[p]) ==> #[trigger] v@[p] == mid[p],
            forall|k: int|
                0 <= k < q ==> #[trigger] v@[stack_back@[k].0 as int] == Instr::Jump(
                    (stack_back@[k].1 - stack_back@[k].0) as isize,
                ),
        decreases m - q,
    {
        let (i, j) = stack_back[q];
        assert(matched(s, i as int, j as int));
        v.set(i, Instr::Jump(j as isize - i as isize));
        assert forall|k: int| 0 <= k < q + 1 implies #[trigger] v@[stack_back@[k].0 as int]
            == Instr::Jump((stack_back@[k].1 - stack_back@[k].0) as isize) by {
            if k < q {
                let (i2, j2) = stack_back@[k];
                assert(matched(s, i2 as int, j2 as int));
                if i2 == i {
                    lemma_matched_unique_close(s, i as int, j as int, j2 as int);
                    assert(stack_back@[k].1 < stack_back@[q as int].1);
                }
            }
        }
        q += 1;
    }
    proof {
        assert forall|p: int|
            0 <= p < s.len() && (is_open(#[trigger] s[p]) || is_close(s[p])) implies exists|q: int|
            #[trigger] partners(s, p, q) && v@[p] == Instr::Jump((q - p) as isize) by {
            if is_close(s[p]) {
                let k = choose|k: int| 0 <= k < m && #[trigger] stack_back@[k].1 == p;
                let (i, j) = stack_back@[k];
                assert(partners(s, p, i as int));
            } else {
                let k = choose|k: int| 0 <= k < m && #[trigger] stack_back@[k].0 == p;
                let (i, j) = stack_back@[k];
                assert(v@[p] == Instr::Jump((j - i) as isize));
                assert(partners(s, p, j as int));
            }
        }
    }
    Ok(v)
}

/// In a resolved well-bracketed program, adding an opening jump's offset to its
/// index lands on the index of the jump that closes its loop, and adding the
/// closing jump's offset to that index lands back on the opening jump.
pub proof fn lemma_resolution_round_trip(s: Seq<Instr>, r: Seq<Instr>)
    requires
        s.len() <= isize::MAX,
        well_bracketed(s),
        resolved(s, r),
    ensures
        forall|i: int, j: int| #[trigger] matched(s, i, j) ==> {
            &&& r[i] == Instr::Jump((j - i) as isize)
            &&& r[j] == Instr::Jump((i - j) as isize)
            &&& i + r[i]->Jump_0 == j
            &&& j + r[j]->Jump_0 == i
        },
        forall|p: int|
            0 <= p < s.len() && is_open(#[trigger] s[p]) ==> matched(s, p, p + r[p]->Jump_0),
        forall|p: int|
            0 <= p < s.len() && is_close(#[trigger] s[p]) ==> matched(s, p + r[p]->Jump_0, p),
{
    assert forall|i: int, j: int| #[trigger] matched(s, i, j) implies {
        &&& r[i] == Instr::Jump((j - i) as isize)
        &&& r[j] == Instr::Jump((i - j) as isize)
        &&& i + r[i]->Jump_0 == j
        &&& j + r[j]->Jump_0 == i
    } by {
        assert(is_open(s[i]) && is_close(s[j]));
        let q = choose|q: int| #[trigger] partners(s, i, q) && r[i] == Instr::Jump((q - i) as isize);
        assert(matched(s, i, q));
        lemma_matched_unique_close(s, i, j, q);
        let q2 = choose|q: int| #[trigger] partners(s, j, q) && r[j] == Instr::Jump((q - j) as isize);
        assert(matched(s, q2, j));
        lemma_matched_unique_open(s, i, q2, j);
    }
    assert forall|p: int| 0 <= p < s.len() && is_open(#[trigger] s[p]) implies matched(
        s,
        p,
        p + r[p]->Jump_0,
    ) by {
        let q = choose|q: int| #[trigger] partners(s, p, q) && r[p] == Instr::Jump((q - p) as isize);
        assert(matched(s, p, q));
    }
    assert forall|p: int| 0 <= p < s.len() && is_close(#[trigger] s[p]) implies matched(
        s,
        p + r[p]->Jump_0,
        p,
    ) by {
        let q = choose|q: int| #[trigger] partners(s, p, q) && r[p] == Instr::Jump((q - p) as isize);
        assert(matched(s, q, p));
    }
}

proof fn lemma_depth_prefix(s: Seq<Instr>, t: Seq<Instr>, k: int)
    requires
        0 <= k <= s.len(),
        k <= t.len(),
        s.subrange(0, k) == t.subrange(0, k),
    ensures
        depth(s, k) == depth(t, k),
    decreases k,
{
    if k > 0 {
        assert(s.subrange(0, k - 1) =~= s.subrange(0, k).subrange(0, k - 1));
        assert(t.subrange(0, k - 1) =~= t.subrange(0, k).subrange(0, k - 1));
        assert(s[k - 1] == s.subrange(0, k)[k - 1]);
        assert(t[k - 1] == t.subrange(0, k)[k - 1]);
        lemma_depth_prefix(s, t, k - 1);
    }
}

/// No prefix of `s` closes more loops than it opens.
pub open spec fn never_below_zero(s: Seq<Instr>) -> bool {
    forall|k: int| 0 <= k <= s.len() ==> #[trigger] depth(s, k) >= 0
}

proof fn lemma_push_depth(a: Seq<Instr>, x: Instr)
    ensures
        depth(a.push(x), a.len() + 1 as int) == depth(a, a.len() as int) + bracket_delta(x),
        never_below_zero(a.push(x)) <==> never_below_zero(a) && depth(a, a.len() as int)
            + bracket_delta(x) >= 0,
{
    let b = a.push(x);
    assert forall|k: int| 0 <= k <= a.len() implies #[trigger] depth(b, k) == depth(a, k) by {
        assert(b.subrange(0, k) =~= a.subrange(0, k));
        lemma_depth_prefix(b, a, k);
    }
    let n = a.len() as int;
    assert(b[n] == x);
    assert(depth(b, n) == depth(a, n));
    assert(depth(b, n + 1) == depth(b, n) + bracket_delta(x));
    if never_below_zero(b) {
        assert forall|k: int| 0 <= k <= a.len() implies #[trigger] depth(a, k) >= 0 by {
            assert(depth(b, k) == depth(a, k));
        }
        assert(depth(b, n + 1) >= 0);
    }
    if never_below_zero(a) && depth(a, a.len() as int) + bracket_delta(x) >= 0 {
        assert forall|k: int| 0 <= k <= b.len() implies #[trigger] depth(b, k) >= 0 by {
            if k <= n {
                assert(depth(b, k) == depth(a, k));
            } else {
                assert(k == n + 1);
            }
        }
    }
}

/// Fusing runs of like instructions changes no loop bracket: the optimized
/// sequence is well-bracketed exactly when the original one is.
pub proof fn lemma_optimized_keeps_brackets(s: Seq<Instr>)
    ensures
        depth(optimized(s), optimized(s).len() as int) == depth(s, s.len() as int),
        never_below_zero(optimized(s)) <==> never_below_zero(s),
        well_bracketed(optimized(s)) <==> well_bracketed(s),
    decreases s.len(),
{
    if s.len() == 0 {
        assert(depth(s, 0) == 0);
        assert(depth(optimized(s), 0) == 0);
        assert(never_below_zero(s));
        assert(never_below_zero(optimized(s)));
    } else {
        let p = s.drop_last();
        let x = s.last();
        let a = optimized(p);
        lemma_optimized_keeps_brackets(p);
        assert(p.push(x) =~= s);
        lemma_push_depth(p, x);
        if a.len() > 0 && fusable(a.last(), x) {
            let c = a.drop_last();
            let y = optimized(s).last();
            assert(optimized(s) =~= c.push(y));
            assert(c.push(a.last()) =~= a);
            lemma_push_depth(c, a.last());
            lemma_push_depth(c, y);
            assert(bracket_delta(y) == 0 && bracket_delta(a.last()) == 0 && bracket_delta(x) == 0);
        } else {
            lemma_push_depth(a, x);
        }
    }
}

} // verus!
