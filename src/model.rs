//! The stack as a sequence of values, and laws over runs of operations.
//!
//! A run is what the commits of all agents do to the stack, in the one total
//! order in which they take effect. The step of each operation here is the
//! step that the `push` and `pop` contracts of both variants state.
use vstd::prelude::*;
use vstd::multiset::Multiset;

verus! {

/// One committed operation on the stack.
pub enum StackOp<T> {
    Push(T),
    Pop,
}

/// The contents after `op` is committed on `s`, and what it returns: a pop
/// returns the top value, or nothing on an empty stack.
pub open spec fn step<T>(s: Seq<T>, op: StackOp<T>) -> (Seq<T>, Option<T>) {
    match op {
        StackOp::Push(x) => (s.push(x), None),
        StackOp::Pop => if s.len() == 0 {
            (s, None)
        } else {
            (s.drop_last(), Some(s.last()))
        },
    }
}

/// The contents after `ops` are applied to `s` in order (first element
/// first), and the values that the pops returned, in the order they came. A
/// pop on an empty stack returns nothing and changes nothing.
pub open spec fn run<T>(s: Seq<T>, ops: Seq<StackOp<T>>) -> (Seq<T>, Seq<T>)
    decreases ops.len(),
{
    if ops.len() == 0 {
        (s, Seq::empty())
    } else {
        let (c, p) = run(s, ops.drop_last());
        match ops.last() {
            StackOp::Push(x) => (c.push(x), p),
            StackOp::Pop => if c.len() == 0 {
                (c, p)
            } else {
                (c.drop_last(), p.push(c.last()))
            },
        }
    }
}

/// The values that the pushes of `ops` hand in, in order.
pub open spec fn pushed<T>(ops: Seq<StackOp<T>>) -> Seq<T>
    decreases ops.len(),
{
    if ops.len() == 0 {
        Seq::empty()
    } else {
        match ops.last() {
            StackOp::Push(x) => pushed(ops.drop_last()).push(x),
            StackOp::Pop => pushed(ops.drop_last()),
        }
    }
}

/// One push of each of `items`, in order.
pub open spec fn pushes<T>(items: Seq<T>) -> Seq<StackOp<T>> {
    Seq::new(items.len(), |i: int| StackOp::Push(items[i]))
}

/// `n` pops.
pub open spec fn pops<T>(n: nat) -> Seq<StackOp<T>> {
    Seq::new(n, |i: int| StackOp::Pop)
}

/// A run extended by one operation takes one `step`, and records the value
/// that step returns.
pub proof fn lemma_run_step<T>(s: Seq<T>, ops: Seq<StackOp<T>>, op: StackOp<T>)
    ensures
        run(s, ops.push(op)).0 == step(run(s, ops).0, op).0,
        run(s, ops.push(op)).1 == match step(run(s, ops).0, op).1 {
            Some(v) => run(s, ops).1.push(v),
            None => run(s, ops).1,
        },
{
    assert(ops.push(op).drop_last() =~= ops);
}

/// Running `a` and then `b` is running `a + b`.
pub proof fn lemma_run_concat<T>(s: Seq<T>, a: Seq<StackOp<T>>, b: Seq<StackOp<T>>)
    ensures
        run(s, a + b) == (run(run(s, a).0, b).0, run(s, a).1 + run(run(s, a).0, b).1),
    decreases b.len(),
{
    if b.len() == 0 {
        assert(a + b =~= a);
        assert(run(s, a).1 + Seq::<T>::empty() =~= run(s, a).1);
    } else {
        assert((a + b).drop_last() =~= a + b.drop_last());
        lemma_run_concat(s, a, b.drop_last());
        let p = run(s, a).1;
        let q = run(run(s, a).0, b.drop_last()).1;
        let c = run(run(s, a).0, b.drop_last()).0;
        if c.len() > 0 {
            assert((p + q).push(c.last()) =~= p + q.push(c.last()));
        }
    }
}

proof fn lemma_run_pushes<T>(s: Seq<T>, items: Seq<T>)
    ensures
        run(s, pushes(items)) == (s + items, Seq::<T>::empty()),
    decreases items.len(),
{
    if items.len() == 0 {
        assert(s + items =~= s);
    } else {
        assert(pushes(items).drop_last() =~= pushes(items.drop_last()));
        lemma_run_pushes(s, items.drop_last());
        assert((s + items.drop_last()).push(items.last()) =~= s + items);
    }
}

proof fn lemma_run_pops<T>(c: Seq<T>, n: nat)
    ensures
        n <= c.len() ==> run(c, pops(n)) == (c.subrange(0, c.len() - n), c.subrange(
            c.len() - n,
            c.len() as int,
        ).reverse()),
        n > c.len() ==> run(c, pops(n)) == (Seq::<T>::empty(), c.reverse()),
    decreases n,
{
    let len = c.len() as int;
    if n == 0 {
        assert(c.subrange(0, len) =~= c);
        assert(c.subrange(len, len).reverse() =~= Seq::<T>::empty());
    } else {
        assert(pops::<T>(n).drop_last() =~= pops::<T>((n - 1) as nat));
        lemma_run_pops(c, (n - 1) as nat);
        if n <= len {
            let rest = c.subrange(0, len - n + 1);
            let out = c.subrange(len - n + 1, len).reverse();
            assert(rest.drop_last() =~= c.subrange(0, len - n));
            assert(out.push(rest.last()) =~= c.subrange(len - n, len).reverse());
        } else if n == len + 1 {
            assert(c.subrange(0, 0) =~= Seq::<T>::empty());
            assert(c.subrange(0, len) =~= c);
        }
    }
}

/// Pushing `items` one by one on an empty stack and then popping as many
/// times returns them in reverse order of insertion and leaves the stack
/// empty; one pop more returns nothing.
pub proof fn lemma_round_trip<T>(items: Seq<T>)
    ensures
        run(Seq::empty(), pushes(items) + pops(items.len())) == (Seq::<T>::empty(), items.reverse()),
        run(Seq::empty(), pushes(items) + pops(items.len() + 1)) == (
            Seq::<T>::empty(),
            items.reverse(),
        ),
{
    lemma_run_pushes(Seq::<T>::empty(), items);
    assert(Seq::<T>::empty() + items =~= items);
    lemma_run_concat(Seq::<T>::empty(), pushes(items), pops(items.len()));
    lemma_run_concat(Seq::<T>::empty(), pushes(items), pops(items.len() + 1));
    lemma_run_pops(items, items.len());
    lemma_run_pops(items, items.len() + 1);
    assert(items.subrange(0, 0) =~= Seq::<T>::empty());
    assert(items.subrange(0, items.len() as int) =~= items);
    assert(Seq::<T>::empty() + items.reverse() =~= items.reverse());
}

/// Whatever the order of the operations, nothing is lost or duplicated: what
/// is left on the stack together with what the pops returned is what was on
/// it at the start together with what was pushed.
pub proof fn lemma_conservation<T>(s: Seq<T>, ops: Seq<StackOp<T>>)
    ensures
        run(s, ops).0.to_multiset().add(run(s, ops).1.to_multiset()) =~= s.to_multiset().add(
            pushed(ops).to_multiset(),
        ),
    decreases ops.len(),
{
    broadcast use vstd::seq_lib::group_to_multiset_ensures;
    broadcast use vstd::multiset::group_multiset_axioms;

    if ops.len() > 0 {
        lemma_conservation(s, ops.drop_last());
        let c = run(s, ops.drop_last()).0;
        let p = run(s, ops.drop_last()).1;
        let q = pushed(ops.drop_last());
        match ops.last() {
            StackOp::Push(x) => {
                assert(run(s, ops) == (c.push(x), p));
                assert(pushed(ops) == q.push(x));
                assert(c.push(x).to_multiset() =~= c.to_multiset().insert(x));
                assert(q.push(x).to_multiset() =~= q.to_multiset().insert(x));
                assert forall|y: T| #[trigger] c.to_multiset().insert(x).add(p.to_multiset()).count(
                    y,
                ) == s.to_multiset().add(q.to_multiset().insert(x)).count(y) by {
                    assert(c.to_multiset().add(p.to_multiset()).count(y) == s.to_multiset().add(
                        q.to_multiset(),
                    ).count(y));
                }
                assert(c.to_multiset().insert(x).add(p.to_multiset()) =~= s.to_multiset().add(
                    q.to_multiset().insert(x),
                ));
            },
            StackOp::Pop => {
                assert(pushed(ops) == q);
                if c.len() > 0 {
                    let x = c.last();
                    assert(run(s, ops) == (c.drop_last(), p.push(x)));
                    assert(c =~= c.drop_last().push(x));
                    assert(c.drop_last().push(x).to_multiset() =~= c.drop_last().to_multiset().insert(x));
                    assert(p.push(x).to_multiset() =~= p.to_multiset().insert(x));
                    assert(c.drop_last().to_multiset().add(p.to_multiset().insert(x))
                        =~= s.to_multiset().add(q.to_multiset()));
                } else {
                    assert(run(s, ops) == (c, p));
                }
            },
        }
    } else {
        lemma_empty_multiset::<T>();
        assert(run(s, ops) == (s, Seq::<T>::empty()));
        assert(pushed(ops) == Seq::<T>::empty());
    }
}

proof fn lemma_empty_multiset<T>()
    ensures
        Seq::<T>::empty().to_multiset() =~= Multiset::<T>::empty(),
{
    broadcast use vstd::seq_lib::group_to_multiset_ensures;

    vstd::multiset::lemma_multiset_empty_len(Seq::<T>::empty().to_multiset());
}

/// Where the pushed values are distinct, no value is returned by two pops.
pub proof fn lemma_no_double_pop<T>(ops: Seq<StackOp<T>>)
    requires
        pushed(ops).no_duplicates(),
    ensures
        run(Seq::empty(), ops).1.no_duplicates(),
{
    broadcast use vstd::multiset::group_multiset_axioms;

    lemma_conservation(Seq::<T>::empty(), ops);
    pushed(ops).lemma_multiset_has_no_duplicates();
    let p = run(Seq::<T>::empty(), ops).1;
    let c = run(Seq::<T>::empty(), ops).0;
    lemma_empty_multiset::<T>();
    assert forall|x: T| p.to_multiset().contains(x) implies p.to_multiset().count(x) == 1 by {
        assert(c.to_multiset().add(p.to_multiset()).count(x) >= p.to_multiset().count(x));
        assert(pushed(ops).to_multiset().contains(x));
    }
    p.lemma_multiset_has_no_duplicates_conv();
}

/// A run from the empty stack in which the pops returned as many values as
/// were pushed returned exactly the pushed values, each as often as it was
/// pushed, and leaves the stack empty, so a further pop returns nothing.
pub proof fn lemma_drains_to_empty<T>(items: Seq<T>, ops: Seq<StackOp<T>>)
    requires
        pushed(ops) == items,
        run(Seq::empty(), ops).1.len() == items.len(),
    ensures
        run(Seq::empty(), ops).0.len() == 0,
        run(Seq::empty(), ops).1.to_multiset() =~= items.to_multiset(),
{
    broadcast use vstd::seq_lib::group_to_multiset_ensures;
    broadcast use vstd::multiset::group_multiset_axioms;

    lemma_conservation(Seq::<T>::empty(), ops);
    lemma_empty_multiset::<T>();
    let c = run(Seq::<T>::empty(), ops).0;
    let p = run(Seq::<T>::empty(), ops).1;
    assert(Multiset::<T>::empty().add(items.to_multiset()) =~= items.to_multiset());
    assert(c.to_multiset().add(p.to_multiset()).len() == items.to_multiset().len());
    assert(c.len() == 0);
    assert(c.to_multiset() =~= Multiset::<T>::empty());
    assert(Multiset::<T>::empty().add(p.to_multiset()) =~= p.to_multiset());
}

} // verus!
