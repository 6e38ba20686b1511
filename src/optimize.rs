use vstd::prelude::*;

use crate::instr::{is_barrier, Instr};

verus! {

/// Both instructions belong to the same fusable category: both move right, both
/// move left, both add, or both subtract.
pub open spec fn fusable(a: Instr, b: Instr) -> bool {
    match (a, b) {
        (Instr::Forward(_), Instr::Forward(_)) => true,
        (Instr::Backward(_), Instr::Backward(_)) => true,
        (Instr::Increment(_), Instr::Increment(_)) => true,
        (Instr::Decrement(_), Instr::Decrement(_)) => true,
        _ => false,
    }
}

/// Addition of two pointer displacements, clamped at the largest count.
pub open spec fn sat_add(x: usize, y: usize) -> usize {
    if x + y > usize::MAX {
        usize::MAX
    } else {
        (x + y) as usize
    }
}

/// Addition of two cell changes modulo 256.
pub open spec fn mod_add(x: u8, y: u8) -> u8 {
    ((x + y) % 256) as u8
}

/// The single instruction that stands for `a` followed by `b` when they are fusable.
pub open spec fn fuse(a: Instr, b: Instr) -> Instr {
    match (a, b) {
        (Instr::Forward(x), Instr::Forward(y)) => Instr::Forward(sat_add(x, y)),
        (Instr::Backward(x), Instr::Backward(y)) => Instr::Backward(sat_add(x, y)),
        (Instr::Increment(x), Instr::Increment(y)) => Instr::Increment(mod_add(x, y)),
        (Instr::Decrement(x), Instr::Decrement(y)) => Instr::Decrement(mod_add(x, y)),
        _ => b,
    }
}

/// Appends `i` to an already optimized sequence, merging it into the last
/// instruction when the two are fusable.
pub open spec fn push_fused(acc: Seq<Instr>, i: Instr) -> Seq<Instr> {
    if acc.len() > 0 && fusable(acc.last(), i) {
        acc.drop_last().push(fuse(acc.last(), i))
    } else {
        acc.push(i)
    }
}

/// The optimizer's result: the instructions of `s` taken left to right, each
/// merged into its predecessor in the output when fusable with it.
pub open spec fn optimized(s: Seq<Instr>) -> Seq<Instr>
    decreases s.len(),
{
    if s.len() == 0 {
        Seq::empty()
    } else {
        push_fused(optimized(s.drop_last()), s.last())
    }
}

/// Fuses runs of consecutive same-category instructions into one instruction each.
/// Move counts combine with saturating addition, cell changes modulo 256; jumps,
/// output and input are never fused.
pub fn opt(instr: Vec<Instr>) -> (r: Vec<Instr>)
    ensures
        r@ == optimized(instr@),
{
    let mut stack: Vec<Instr> = Vec::with_capacity(instr.len() / 2);
    let n = instr.len();
    let mut k: usize = 0;
    while k < n
        invariant
            k <= n,
            n == instr@.len(),
            stack@ == optimized(instr@.subrange(0, k as int)),
        decreases n - k,
    {
        let i = instr[k];
        proof {
            assert(instr@.subrange(0, k + 1).drop_last() =~= instr@.subrange(0, k as int));
        }
        match stack.pop() {
            Some(x) => {
                let merged = match (x, i) {
                    (Instr::Forward(a), Instr::Forward(b)) => Instr::Forward(a.saturating_add(b)),
                    (Instr::Backward(a), Instr::Backward(b)) => Instr::Backward(a.saturating_add(b)),
                    (Instr::Increment(a), Instr::Increment(b)) => Instr::Increment(a.wrapping_add(b)),
                    (Instr::Decrement(a), Instr::Decrement(b)) => Instr::Decrement(a.wrapping_add(b)),
                    (x, i) => {
                        stack.push(x);
                        i
                    },
                };
                stack.push(merged);
            },
            None => stack.push(i),
        }
        k += 1;
    }
    proof {
        assert(instr@.subrange(0, n as int) =~= instr@);
    }
    stack
}

/// No two neighbouring instructions of `s` are fusable.
pub open spec fn fully_fused(s: Seq<Instr>) -> bool {
    forall|k: int| 0 <= k < s.len() - 1 ==> !fusable(#[trigger] s[k], s[k + 1])
}

proof fn lemma_optimized_fully_fused(s: Seq<Instr>)
    ensures
        fully_fused(optimized(s)),
    decreases s.len(),
{
    if s.len() > 0 {
        lemma_optimized_fully_fused(s.drop_last());
        let acc = optimized(s.drop_last());
        let r = optimized(s);
        let i = s.last();
        assert forall|k: int| 0 <= k < r.len() - 1 implies !fusable(#[trigger] r[k], r[k + 1]) by {
            assert(r[k] == acc[k]);
            if acc.len() > 0 && fusable(acc.last(), i) {
                if k + 1 < acc.len() - 1 {
                    assert(r[k + 1] == acc[k + 1]);
                } else {
                    assert(r[k + 1] == fuse(acc.last(), i));
                    assert(!fusable(acc[k], acc[k + 1]));
                }
            } else {
                if k + 1 < acc.len() {
                    assert(r[k + 1] == acc[k + 1]);
                } else {
                    assert(r[k + 1] == i);
                }
            }
        }
    }
}

proof fn lemma_fully_fused_unchanged(s: Seq<Instr>)
    requires
        fully_fused(s),
    ensures
        optimized(s) == s,
    decreases s.len(),
{
    if s.len() > 0 {
        let p = s.drop_last();
        assert forall|k: int| 0 <= k < p.len() - 1 implies !fusable(#[trigger] p[k], p[k + 1]) by {
            assert(p[k] == s[k] && p[k + 1] == s[k + 1]);
        }
        lemma_fully_fused_unchanged(p);
        if p.len() > 0 {
            assert(p.last() == s[s.len() - 2]);
        }
        assert(p.push(s.last()) =~= s);
    }
}

/// Running the optimizer on its own output changes nothing.
pub proof fn lemma_opt_idempotent(s: Seq<Instr>)
    ensures
        optimized(optimized(s)) == optimized(s),
{
    lemma_optimized_fully_fused(s);
    lemma_fully_fused_unchanged(optimized(s));
}

/// The count that an instruction carries: a move distance or a cell change.
pub open spec fn count_of(i: Instr) -> nat {
    match i {
        Instr::Forward(n) => n as nat,
        Instr::Backward(n) => n as nat,
        Instr::Increment(n) => n as nat,
        Instr::Decrement(n) => n as nat,
        _ => 0,
    }
}

/// The sum of the counts of all instructions in `s`.
pub open spec fn total_count(s: Seq<Instr>) -> nat
    decreases s.len(),
{
    if s.len() == 0 {
        0
    } else {
        total_count(s.drop_last()) + count_of(s.last())
    }
}

/// The instruction of the same category as `i` carrying the combined count `n`:
/// clamped at the largest count for moves, taken modulo 256 for cell changes.
pub open spec fn with_total(i: Instr, n: nat) -> Instr {
    match i {
        Instr::Forward(_) => Instr::Forward(if n > usize::MAX { usize::MAX } else { n as usize }),
        Instr::Backward(_) => Instr::Backward(if n > usize::MAX { usize::MAX } else { n as usize }),
        Instr::Increment(_) => Instr::Increment((n % 256) as u8),
        Instr::Decrement(_) => Instr::Decrement((n % 256) as u8),
        _ => i,
    }
}

/// A nonempty run of instructions of one fusable category optimizes to exactly one
/// instruction of that category whose count is the sum of the run's counts,
/// saturated for moves and wrapped modulo 256 for cell changes. A run of `k` unit
/// instructions thus becomes a single instruction of count `k`.
pub proof fn lemma_fusion_of_run(s: Seq<Instr>)
    requires
        s.len() > 0,
        forall|k: int| 0 <= k < s.len() ==> fusable(s[0], #[trigger] s[k]),
    ensures
        optimized(s) == seq![with_total(s[0], total_count(s))],
    decreases s.len(),
{
    let p = s.drop_last();
    if s.len() == 1 {
        assert(p =~= Seq::<Instr>::empty());
        assert(optimized(p) == Seq::<Instr>::empty());
        assert(total_count(p) == 0);
        assert(total_count(s) == count_of(s[0]));
        assert(fusable(s[0], s[0]));
        assert(optimized(s) =~= seq![s[0]]);
    } else {
        assert forall|k: int| 0 <= k < p.len() implies fusable(p[0], #[trigger] p[k]) by {
            assert(p[k] == s[k]);
        }
        lemma_fusion_of_run(p);
        let t = total_count(p);
        let c = count_of(s.last());
        assert(fusable(s[0], s[s.len() - 1]));
        assert(((t % 256) + c) % 256 == (t + c) % 256) by {
            vstd::arithmetic::div_mod::lemma_add_mod_noop(t as int, c as int, 256);
            vstd::arithmetic::div_mod::lemma_mod_twice(c as int, 256);
        }
        assert(optimized(s) =~= seq![with_total(s[0], total_count(s))]);
    }
}

/// The sequence that a barrier ends optimizes to a sequence that the same barrier ends.
proof fn lemma_barrier_last(x: Seq<Instr>)
    requires
        x.len() > 0,
        is_barrier(x.last()),
    ensures
        optimized(x) == optimized(x.drop_last()).push(x.last()),
{
}

proof fn lemma_push_fused_append(p: Seq<Instr>, q: Seq<Instr>, i: Instr)
    requires
        q.len() > 0 || p.len() == 0 || !fusable(p.last(), i),
    ensures
        push_fused(p + q, i) == p + push_fused(q, i),
{
    if q.len() > 0 {
        assert((p + q).drop_last() =~= p + q.drop_last());
        assert((p + q).last() == q.last());
        if fusable(q.last(), i) {
            assert(p + q.drop_last().push(fuse(q.last(), i)) =~= (p + q.drop_last()).push(
                fuse(q.last(), i),
            ));
        } else {
            assert(p + q.push(i) =~= (p + q).push(i));
        }
    } else {
        assert(p + q =~= p);
        assert(p + q.push(i) =~= p.push(i));
    }
}

proof fn lemma_optimized_after_barrier(x: Seq<Instr>, y: Seq<Instr>)
    requires
        x.len() > 0,
        is_barrier(x.last()),
    ensures
        optimized(x + y) == optimized(x) + optimized(y),
    decreases y.len(),
{
    if y.len() == 0 {
        assert(x + y =~= x);
        assert(optimized(x) + optimized(y) =~= optimized(x));
    } else {
        let y0 = y.drop_last();
        lemma_optimized_after_barrier(x, y0);
        assert((x + y).drop_last() =~= x + y0);
        assert((x + y).last() == y.last());
        lemma_barrier_last(x);
        let p = optimized(x);
        assert(p.last() == x.last());
        lemma_push_fused_append(p, optimized(y0), y.last());
    }
}

/// A jump, output or input instruction is never merged with a neighbour: whatever
/// stands on either side of it is optimized on its own, and the barrier itself
/// stays in place, unchanged.
pub proof fn lemma_barrier_not_fused(a: Seq<Instr>, b: Instr, c: Seq<Instr>)
    requires
        is_barrier(b),
    ensures
        optimized(a + seq![b] + c) == optimized(a) + seq![b] + optimized(c),
{
    let x = a + seq![b];
    assert(x.drop_last() =~= a);
    lemma_barrier_last(x);
    lemma_optimized_after_barrier(x, c);
    assert(optimized(a).push(b) =~= optimized(a) + seq![b]);
}

} // verus!
