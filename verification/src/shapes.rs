//! What a count of shapes means: laws over the executions of a net.

use crate::keys::{
    lemma_decimal_injective, lemma_marking_key, lemma_packed_all, marking_key, packed_all,
    same_tokens,
};
use crate::net::{is_final_marking, CompiledTransitionView, NetView};
use crate::permissiveness::{
    continuations, continued_by, counted, first_count, options_of, outset, partial_key, shape_of,
    CountView, PartialView,
};
use crate::text::{decimal, Str};
use vstd::prelude::*;

verus! {

// ---------------------------------------------------------------------------
// Executions
// ---------------------------------------------------------------------------
/// What one more firing of any transition leads to.
pub open spec fn further_on(net: NetView, s: PartialView) -> Seq<PartialView> {
    continuations(net, s, net.transitions.len() as int)
}

/// Whether `run` is an execution of the net: it begins at the outset, and each part of it is one
/// firing from the one before.
pub open spec fn is_execution(net: NetView, run: Seq<PartialView>) -> bool {
    &&& run.len() > 0
    &&& run[0] == outset(net)
    &&& forall|i: int, j: int|
        0 <= i < run.len() && j == i + 1 && j < run.len() ==> further_on(
            net,
            #[trigger] run[i],
        ).contains(#[trigger] run[j])
}

/// Whether some execution leads to `s`.
pub open spec fn executable(net: NetView, s: PartialView) -> bool {
    exists|run: Seq<PartialView>| #[trigger] is_execution(net, run) && run.last() == s
}

/// Whether `run` is an execution of at most `depth` firings that ends in a final marking, has
/// emitted something, and has this shape.
pub open spec fn has_shape(net: NetView, depth: nat, run: Seq<PartialView>, shape: Str) -> bool {
    &&& is_execution(net, run)
    &&& run.len() - 1 <= depth
    &&& is_final_marking(net.finals, run.last().marking)
    &&& run.last().trace.len() > 0
    &&& shape_of(run.last().trace) == shape
}

/// The shapes that are counted up to a depth.
pub open spec fn counted_shapes(net: NetView, depth: nat, cap: nat, budget: nat) -> Set<Str> {
    counted(net, depth, cap, budget, first_count(net)).0.shapes
}

/// Whether the count is cut short by a limit.
pub open spec fn cut_short(net: NetView, depth: nat, cap: nat, budget: nat) -> bool {
    counted(net, depth, cap, budget, first_count(net)).1
}

proof fn lemma_continued_level(
    net: NetView,
    s: PartialView,
    t: CompiledTransitionView,
    n: int,
    next: PartialView,
)
    requires
        continued_by(net, s, t, n).contains(next),
    ensures
        next.level == s.level + 1,
    decreases n,
{
    if n > 0 {
        let rest = continued_by(net, s, t, n - 1);
        let all = continued_by(net, s, t, n);
        let i = all.index_of(next);
        if i < rest.len() {
            assert(rest[i] == next);
            lemma_continued_level(net, s, t, n - 1, next);
        }
    }
}

pub proof fn lemma_further_level(net: NetView, s: PartialView, n: int, next: PartialView)
    requires
        continuations(net, s, n).contains(next),
    ensures
        next.level == s.level + 1,
    decreases n,
{
    if n > 0 {
        let rest = continuations(net, s, n - 1);
        let t = net.transitions[n - 1];
        let all = continuations(net, s, n);
        let i = all.index_of(next);
        if i < rest.len() {
            assert(rest[i] == next);
            lemma_further_level(net, s, n - 1, next);
        } else {
            let own = continued_by(net, s, t, options_of(s, t).len() as int);
            assert(own[i - rest.len()] == next);
            lemma_continued_level(net, s, t, options_of(s, t).len() as int, next);
        }
    }
}

pub proof fn lemma_execution_level(net: NetView, run: Seq<PartialView>, i: int)
    requires
        is_execution(net, run),
        0 <= i < run.len(),
    ensures
        run[i].level == i,
    decreases i,
{
    if i > 0 {
        lemma_execution_level(net, run, i - 1);
        assert(further_on(net, run[i - 1]).contains(run[i]));
        lemma_further_level(net, run[i - 1], net.transitions.len() as int, run[i]);
    }
}

pub proof fn lemma_outset(net: NetView)
    ensures
        executable(net, outset(net)),
{
    let run = seq![outset(net)];
    assert(is_execution(net, run));
    assert(run.last() == outset(net));
}

pub proof fn lemma_further_executable(net: NetView, s: PartialView, next: PartialView)
    requires
        executable(net, s),
        further_on(net, s).contains(next),
    ensures
        executable(net, next),
{
    let run = choose|run: Seq<PartialView>| #[trigger] is_execution(net, run) && run.last() == s;
    let longer = run.push(next);
    assert forall|i: int, j: int|
        0 <= i < longer.len() && j == i + 1 && j < longer.len() implies further_on(
        net,
        #[trigger] longer[i],
    ).contains(#[trigger] longer[j]) by {
        assert(longer[i] == run[i]);
        if j < run.len() {
            assert(longer[j] == run[j]);
        } else {
            assert(run[i] == run.last());
        }
    }
    assert(is_execution(net, longer));
    assert(longer.last() == next);
}

/// Whether every execution on the stack is one of the net, within the depth.
pub open spec fn stack_ok(net: NetView, depth: nat, stack: Seq<PartialView>) -> bool {
    forall|i: int|
        0 <= i < stack.len() ==> executable(net, #[trigger] stack[i]) && stack[i].level <= depth
}

pub proof fn lemma_stack_grows(net: NetView, depth: nat, stack: Seq<PartialView>, s: PartialView)
    requires
        stack_ok(net, depth, stack),
        executable(net, s),
        s.level < depth,
    ensures
        stack_ok(net, depth, stack + further_on(net, s)),
{
    let more = further_on(net, s);
    let all = stack + more;
    assert forall|i: int| 0 <= i < all.len() implies executable(net, #[trigger] all[i])
        && all[i].level <= depth by {
        if i < stack.len() {
            assert(all[i] == stack[i]);
        } else {
            let next = more[i - stack.len()];
            assert(all[i] == next);
            assert(more.contains(next));
            lemma_further_executable(net, s, next);
            lemma_further_level(net, s, net.transitions.len() as int, next);
        }
    }
}

pub proof fn lemma_stack_shrinks(net: NetView, depth: nat, stack: Seq<PartialView>)
    requires
        stack_ok(net, depth, stack),
        stack.len() > 0,
    ensures
        stack_ok(net, depth, stack.drop_last()),
        executable(net, stack.last()),
        stack.last().level <= depth,
{
    assert(stack.last() == stack[stack.len() - 1]);
    assert forall|i: int| 0 <= i < stack.drop_last().len() implies executable(
        net,
        #[trigger] stack.drop_last()[i],
    ) && stack.drop_last()[i].level <= depth by {
        assert(stack.drop_last()[i] == stack[i]);
    }
}

proof fn lemma_counted_are_real(
    net: NetView,
    depth: nat,
    cap: nat,
    budget: nat,
    q: CountView,
    shape: Str,
)
    requires
        stack_ok(net, depth, q.stack),
        counted(net, depth, cap, budget, q).0.shapes.contains(shape),
    ensures
        q.shapes.contains(shape) || exists|run: Seq<PartialView>| #[trigger]
            has_shape(net, depth, run, shape),
    decreases budget + 1 - q.states,
{
    if q.stack.len() > 0 {
        let s = q.stack.last();
        lemma_stack_shrinks(net, depth, q.stack);
        let popped = CountView { stack: q.stack.drop_last(), states: q.states + 1, ..q };
        if popped.states > budget || q.shapes.len() >= cap {
        } else {
            let counts = is_final_marking(net.finals, s.marking) && s.trace.len() > 0;
            let shapes = if counts {
                q.shapes.insert(shape_of(s.trace))
            } else {
                q.shapes
            };
            if s.level >= depth || q.seen.contains(partial_key(s)) {
                lemma_counted_are_real(
                    net,
                    depth,
                    cap,
                    budget,
                    CountView { shapes, ..popped },
                    shape,
                );
            } else {
                lemma_stack_grows(net, depth, popped.stack, s);
                lemma_counted_are_real(
                    net,
                    depth,
                    cap,
                    budget,
                    CountView {
                        stack: popped.stack + further_on(net, s),
                        shapes,
                        seen: q.seen.insert(partial_key(s)),
                        ..popped
                    },
                    shape,
                );
            }
            if counts && shape == shape_of(s.trace) {
                let run = choose|run: Seq<PartialView>| #[trigger]
                    is_execution(net, run) && run.last() == s;
                lemma_execution_level(net, run, run.len() - 1);
                assert(has_shape(net, depth, run, shape));
            }
        }
    }
}

/// Only what the net permits is counted: every shape counted up to a depth is that of an
/// execution of at most that many firings that ends in a final marking.
pub proof fn counted_shapes_are_permitted(
    net: NetView,
    depth: nat,
    cap: nat,
    budget: nat,
    shape: Str,
)
    requires
        counted_shapes(net, depth, cap, budget).contains(shape),
    ensures
        exists|run: Seq<PartialView>| #[trigger] has_shape(net, depth, run, shape),
{
    lemma_outset(net);
    assert(first_count(net).stack[0] == outset(net));
    lemma_counted_are_real(net, depth, cap, budget, first_count(net), shape);
}

// ---------------------------------------------------------------------------
// Deeper counts
// ---------------------------------------------------------------------------
/// Executions with the same text hold the same tokens, have emitted the same, and are of one
/// length.
pub proof fn lemma_partial_key(a: PartialView, b: PartialView)
    requires
        partial_key(a) == partial_key(b),
    ensures
        same_tokens(a.marking, b.marking),
        a.trace == b.trace,
        a.level == b.level,
{
    let x = seq![marking_key(a.marking), packed_all(a.trace), decimal(a.level)];
    let y = seq![marking_key(b.marking), packed_all(b.trace), decimal(b.level)];
    lemma_packed_all(x, y);
    assert(x[0] == y[0] && x[1] == y[1] && x[2] == y[2]);
    lemma_marking_key(a.marking, b.marking);
    lemma_packed_all(a.trace, b.trace);
    lemma_decimal_injective(a.level, b.level);
}

/// Those of some executions that are no longer than `depth`.
spec fn near(stack: Seq<PartialView>, depth: nat) -> Seq<PartialView>
    decreases stack.len(),
{
    if stack.len() == 0 {
        Seq::empty()
    } else if stack.last().level <= depth {
        near(stack.drop_last(), depth).push(stack.last())
    } else {
        near(stack.drop_last(), depth)
    }
}

proof fn lemma_near_concat(a: Seq<PartialView>, b: Seq<PartialView>, depth: nat)
    ensures
        near(a + b, depth) == near(a, depth) + near(b, depth),
    decreases b.len(),
{
    if b.len() == 0 {
        assert(a + b =~= a);
        assert(near(a, depth) + near(b, depth) =~= near(a, depth));
    } else {
        lemma_near_concat(a, b.drop_last(), depth);
        assert((a + b).drop_last() =~= a + b.drop_last());
        assert(near(a + b, depth) =~= near(a, depth) + near(b, depth));
    }
}

proof fn lemma_near(s: Seq<PartialView>, depth: nat)
    ensures
        (forall|i: int| 0 <= i < s.len() ==> (#[trigger] s[i]).level <= depth) ==> near(s, depth)
            == s,
        (forall|i: int| 0 <= i < s.len() ==> (#[trigger] s[i]).level > depth) ==> near(s, depth)
            == Seq::<PartialView>::empty(),
    decreases s.len(),
{
    if s.len() > 0 {
        let d = s.drop_last();
        lemma_near(d, depth);
        assert(s.last() == s[s.len() - 1]);
        assert(forall|i: int| 0 <= i < d.len() ==> #[trigger] d[i] == s[i]);
        assert(d.push(s.last()) =~= s);
    }
}

/// What follows an execution is one longer.
proof fn lemma_near_further(net: NetView, s: PartialView, depth: nat)
    ensures
        s.level < depth ==> near(further_on(net, s), depth) == further_on(net, s),
        s.level >= depth ==> near(further_on(net, s), depth) == Seq::<PartialView>::empty(),
{
    let more = further_on(net, s);
    assert forall|i: int| 0 <= i < more.len() implies (#[trigger] more[i]).level == s.level + 1 by {
        assert(more.contains(more[i]));
        lemma_further_level(net, s, net.transitions.len() as int, more[i]);
    }
    lemma_near(more, depth);
}

/// Whether a count to `depth` stands where a deeper one stands, as far as it goes.
spec fn keeps_up(depth: nat, q: CountView, d: CountView) -> bool {
    &&& q.stack == near(d.stack, depth)
    &&& q.states <= d.states
    &&& q.shapes.subset_of(d.shapes)
    &&& d.shapes.finite()
    &&& forall|s: PartialView|
        s.level < depth ==> (q.seen.contains(#[trigger] partial_key(s)) <==> d.seen.contains(
            partial_key(s),
        ))
}

proof fn lemma_seen_apart(depth: nat, seen: Set<Str>, s: PartialView)
    requires
        s.level >= depth,
    ensures
        forall|x: PartialView|
            x.level < depth ==> (seen.insert(partial_key(s)).contains(#[trigger] partial_key(x))
                <==> seen.contains(partial_key(x))),
{
    assert forall|x: PartialView| x.level < depth implies (seen.insert(partial_key(s)).contains(
        #[trigger] partial_key(x),
    ) <==> seen.contains(partial_key(x))) by {
        if partial_key(x) == partial_key(s) {
            lemma_partial_key(x, s);
        }
    }
}

proof fn lemma_keeps_up(
    net: NetView,
    depth: nat,
    deeper: nat,
    cap: nat,
    budget: nat,
    q: CountView,
    d: CountView,
)
    requires
        depth <= deeper,
        keeps_up(depth, q, d),
        !counted(net, deeper, cap, budget, d).1,
    ensures
        counted(net, depth, cap, budget, q).0.shapes.subset_of(
            counted(net, deeper, cap, budget, d).0.shapes,
        ),
    decreases budget + 1 - d.states,
{
    if d.stack.len() > 0 {
        let s = d.stack.last();
        let rest = d.stack.drop_last();
        let dp = CountView { stack: rest, states: d.states + 1, ..d };
        let more = further_on(net, s);
        let counts = is_final_marking(net.finals, s.marking) && s.trace.len() > 0;
        let ds = if counts {
            d.shapes.insert(shape_of(s.trace))
        } else {
            d.shapes
        };
        let grows = s.level < deeper && !d.seen.contains(partial_key(s));
        let d2 = if grows {
            CountView {
                stack: rest + more,
                shapes: ds,
                seen: d.seen.insert(partial_key(s)),
                ..dp
            }
        } else {
            CountView { shapes: ds, ..dp }
        };
        assert(counted(net, deeper, cap, budget, d) == counted(net, deeper, cap, budget, d2));
        lemma_near_concat(rest, more, depth);
        lemma_near_further(net, s, depth);
        assert(near(rest, depth) + Seq::<PartialView>::empty() =~= near(rest, depth));
        if s.level > depth {
            lemma_seen_apart(depth, d.seen, s);
            lemma_keeps_up(net, depth, deeper, cap, budget, q, d2);
        } else {
            assert(q.stack.last() == s);
            assert(q.stack.drop_last() =~= near(rest, depth));
            vstd::set_lib::lemma_len_subset(q.shapes, d.shapes);
            let qp = CountView { stack: q.stack.drop_last(), states: q.states + 1, ..q };
            let qs = if counts {
                q.shapes.insert(shape_of(s.trace))
            } else {
                q.shapes
            };
            let q2 = if s.level < depth && !q.seen.contains(partial_key(s)) {
                CountView {
                    stack: qp.stack + more,
                    shapes: qs,
                    seen: q.seen.insert(partial_key(s)),
                    ..qp
                }
            } else {
                CountView { shapes: qs, ..qp }
            };
            assert(counted(net, depth, cap, budget, q) == counted(net, depth, cap, budget, q2));
            if s.level == depth {
                lemma_seen_apart(depth, d.seen, s);
            }
            lemma_keeps_up(net, depth, deeper, cap, budget, q2, d2);
        }
    } else {
        assert(q.stack =~= Seq::<PartialView>::empty());
    }
}

/// A deeper count finds every shape that a shallower one finds, where no limit cuts the
/// deeper one short.
pub proof fn deeper_counts_find_no_less(
    net: NetView,
    depth: nat,
    deeper: nat,
    cap: nat,
    budget: nat,
)
    requires
        depth <= deeper,
        !cut_short(net, deeper, cap, budget),
    ensures
        counted_shapes(net, depth, cap, budget).subset_of(
            counted_shapes(net, deeper, cap, budget),
        ),
{
    let q = first_count(net);
    lemma_near(q.stack, depth);
    assert(q.stack[0].level == 0);
    lemma_keeps_up(net, depth, deeper, cap, budget, q, q);
}

} // verus!
