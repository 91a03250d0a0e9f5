use vstd::multiset::Multiset;
use vstd::prelude::*;
use vstd::relations::{sorted_by, total_ordering};
use vstd::seq_lib::lemma_sorted_unique;

use crate::operation::{Operation, OperationType};

verus! {

/// Why a game state could not be formed.
#[derive(PartialEq, Eq, Structural, Debug, Clone, Copy)]
pub enum DigitsError {
    /// More numbers were given than a state can hold.
    TooManyDigits,
}

/// Whether `s` stands in ascending order.
pub open spec fn is_ascending(s: Seq<usize>) -> bool {
    forall|i: int, j: int| 0 <= i < j < s.len() ==> s[i] <= s[j]
}

/// The numbers available at one point of the game, with room for `N` of them.
///
/// The first `num_digits` slots of `digits` hold the numbers in ascending order; the other
/// slots hold zero. Two states holding the same numbers are therefore equal slot for slot.
#[derive(Debug, Clone)]
pub struct GameState<const N: usize> {
    pub num_digits: usize,
    pub digits: Vec<usize>,
}

/// Relies on `slice::sort_unstable`: it puts the values in ascending order and only reorders
/// them.
#[verifier::external_body]
fn sort_ascending(v: &mut Vec<usize>)
    ensures
        final(v)@.to_multiset() == old(v)@.to_multiset(),
        is_ascending(final(v)@),
{
    v.sort_unstable();
}

/// Two ascending sequences with the same elements are the same sequence.
pub proof fn lemma_ascending_unique(x: Seq<usize>, y: Seq<usize>)
    requires
        is_ascending(x),
        is_ascending(y),
        x.to_multiset() == y.to_multiset(),
    ensures
        x == y,
{
    let leq = |a: usize, b: usize| a <= b;
    assert(total_ordering(leq));
    assert(sorted_by(x, leq));
    assert(sorted_by(y, leq));
    lemma_sorted_unique(x, y, leq);
}

impl<const N: usize> PartialEq for GameState<N> {
    fn eq(&self, other: &GameState<N>) -> (r: bool) {
        if self.num_digits != other.num_digits || self.digits.len() != other.digits.len() {
            return false;
        }
        let mut i: usize = 0;
        while i < self.digits.len()
            invariant
                self.num_digits == other.num_digits,
                self.digits@.len() == other.digits@.len(),
                i <= self.digits@.len(),
                forall|j: int| 0 <= j < i ==> self.digits@[j] == other.digits@[j],
            decreases self.digits@.len() - i,
        {
            if self.digits[i] != other.digits[i] {
                return false;
            }
            i = i + 1;
        }
        assert(self.digits@ =~= other.digits@);
        true
    }
}

impl<const N: usize> vstd::std_specs::cmp::PartialEqSpecImpl for GameState<N> {
    open spec fn obeys_eq_spec() -> bool {
        true
    }

    open spec fn eq_spec(&self, other: &GameState<N>) -> bool {
        self.num_digits == other.num_digits && self.digits@ == other.digits@
    }
}

impl<const N: usize> GameState<N> {
    /// The numbers of the state, in ascending order.
    pub open spec fn values(&self) -> Seq<usize> {
        self.digits@.take(self.num_digits as int)
    }

    /// The numbers of the state, as a multiset.
    pub open spec fn contents(&self) -> Multiset<usize> {
        self.values().to_multiset()
    }

    /// The state's layout: `N` slots, the numbers ascending in front, zeros behind.
    pub open spec fn wf(&self) -> bool {
        &&& self.digits@.len() == N
        &&& self.num_digits <= N
        &&& is_ascending(self.values())
        &&& forall|i: int| self.num_digits <= i < N ==> self.digits@[i] == 0
    }

    /// `self` is the well-formed state that holds exactly the numbers of `d`.
    pub open spec fn built_from(&self, d: Seq<usize>) -> bool {
        &&& self.wf()
        &&& self.num_digits == d.len()
        &&& self.contents() == d.to_multiset()
    }

    /// Forms the state that holds the numbers of `digits_vec`, in any order; fails where they
    /// are more than `N`.
    pub fn new(digits_vec: Vec<usize>) -> (r: Result<GameState<N>, DigitsError>)
        ensures
            r is Ok <==> digits_vec@.len() <= N,
            r matches Ok(s) ==> s.built_from(digits_vec@),
            r matches Err(e) ==> e == DigitsError::TooManyDigits,
    {
        if digits_vec.len() > N {
            return Err(DigitsError::TooManyDigits);
        }
        let mut v = digits_vec;
        sort_ascending(&mut v);
        proof {
            broadcast use vstd::seq_lib::group_to_multiset_ensures;

            assert(v@.len() == v@.to_multiset().len());
            assert(digits_vec@.len() == digits_vec@.to_multiset().len());
        }
        let num_digits = v.len();
        let ghost sorted = v@;
        assert(v@.take(num_digits as int) =~= sorted);
        while v.len() < N
            invariant
                num_digits <= v@.len() <= N,
                v@.take(num_digits as int) == sorted,
                sorted.len() == num_digits,
                forall|i: int| num_digits <= i < v@.len() ==> v@[i] == 0,
            decreases N - v@.len(),
        {
            v.push(0);
            assert(v@.take(num_digits as int) =~= sorted);
        }
        let s = GameState { num_digits, digits: v };
        assert(s.values() == sorted);
        Ok(s)
    }

    /// The numbers of the state, in ascending order.
    pub fn as_vec(&self) -> (r: Vec<usize>)
        requires
            self.wf(),
        ensures
            r@ == self.values(),
    {
        let mut r: Vec<usize> = Vec::new();
        let mut i: usize = 0;
        while i < self.num_digits
            invariant
                self.wf(),
                i <= self.num_digits,
                r@ == self.values().take(i as int),
            decreases self.num_digits - i,
        {
            r.push(self.digits[i]);
            i = i + 1;
            assert(r@ =~= self.values().take(i as int));
        }
        assert(r@ =~= self.values());
        r
    }

    /// Whether `value` is one of the state's numbers.
    pub fn contains_value(&self, value: usize) -> (r: bool)
        requires
            self.wf(),
        ensures
            r == self.values().contains(value),
    {
        let mut i: usize = 0;
        while i < self.num_digits
            invariant
                self.wf(),
                i <= self.num_digits,
                forall|j: int| 0 <= j < i ==> self.values()[j] != value,
            decreases self.num_digits - i,
        {
            if self.digits[i] == value {
                assert(self.values()[i as int] == value);
                return true;
            }
            i = i + 1;
        }
        false
    }

    /// Whether two states hold the same numbers.
    pub fn same_numbers(&self, other: &GameState<N>) -> (r: bool)
        requires
            self.wf(),
            other.wf(),
        ensures
            r == (self.values() == other.values()),
    {
        if self.num_digits != other.num_digits {
            assert(self.values().len() != other.values().len());
            return false;
        }
        let mut i: usize = 0;
        while i < self.num_digits
            invariant
                self.wf(),
                other.wf(),
                self.num_digits == other.num_digits,
                i <= self.num_digits,
                forall|j: int| 0 <= j < i ==> self.values()[j] == other.values()[j],
            decreases self.num_digits - i,
        {
            if self.digits[i] != other.digits[i] {
                assert(self.values()[i as int] != other.values()[i as int]);
                return false;
            }
            i = i + 1;
        }
        assert(self.values() =~= other.values());
        true
    }
}

/// States formed from two lists that hold the same numbers, in whatever order, are equal slot
/// for slot.
pub proof fn lemma_new_order_independent<const N: usize>(
    d1: Seq<usize>,
    d2: Seq<usize>,
    s1: GameState<N>,
    s2: GameState<N>,
)
    requires
        d1.to_multiset() == d2.to_multiset(),
        s1.built_from(d1),
        s2.built_from(d2),
    ensures
        s1.num_digits == s2.num_digits,
        s1.digits@ == s2.digits@,
{
    broadcast use vstd::seq_lib::group_to_multiset_ensures;

    assert(d1.len() == d1.to_multiset().len());
    assert(d2.len() == d2.to_multiset().len());
    lemma_ascending_unique(s1.values(), s2.values());
    assert forall|i: int| 0 <= i < N implies s1.digits@[i] == s2.digits@[i] by {
        if i < s1.num_digits {
            assert(s1.values()[i] == s2.values()[i]);
        }
    }
    assert(s1.digits@ =~= s2.digits@);
}

/// A step consumes two numbers and yields one: the numbers it leaves are one fewer.
pub proof fn lemma_step_removes_one(m: Multiset<usize>, op: Operation)
    requires
        step(m, op) is Some,
    ensures
        step(m, op)->0.len() + 1 == m.len(),
{
    let m1 = m.remove(op.num1);
    assert(m1.len() + 1 == m.len());
    assert(m1.remove(op.num2).len() + 1 == m1.len());
}

/// The numbers left after taking `op` from the numbers `m`, or `None` where `m` does not hold
/// both operands or the step is illegal.
pub open spec fn step(m: Multiset<usize>, op: Operation) -> Option<Multiset<usize>> {
    if op.is_legal() && m.count(op.num1) >= 1 && m.remove(op.num1).count(op.num2) >= 1 {
        Some(m.remove(op.num1).remove(op.num2).insert(op.result_spec()))
    } else {
        None
    }
}

/// The step of kind `kind` on the numbers at slots `a` and `b` of `v`: the number at the
/// higher slot is the left operand.
pub open spec fn move_op(v: Seq<usize>, a: int, b: int, kind: OperationType) -> Operation {
    let hi = if a > b { a } else { b };
    let lo = if a > b { b } else { a };
    Operation { op_type: kind, num1: v[hi], num2: v[lo] }
}

/// `op` is a step on two different slots below `n` of `v`, with the number at the higher slot
/// as the left operand.
pub open spec fn is_move_of(v: Seq<usize>, n: int, op: Operation) -> bool {
    exists|a: int, b: int, kind: OperationType|
        0 <= a < n && 0 <= b < n && a != b && op == #[trigger] move_op(v, a, b, kind)
}

/// On ascending numbers, a step on two slots has the larger number on the left.
pub proof fn lemma_move_larger_left(v: Seq<usize>, n: int, op: Operation)
    requires
        is_ascending(v),
        n <= v.len(),
        is_move_of(v, n, op),
    ensures
        op.num1 >= op.num2,
{
    let (a, b, kind) = choose|a: int, b: int, kind: OperationType|
        0 <= a < n && 0 <= b < n && a != b && op == #[trigger] move_op(v, a, b, kind);
}

/// Appending to a sequence keeps what it held and adds the new element.
pub proof fn lemma_push_contains<A>(s: Seq<A>, x: A)
    ensures
        s.push(x).contains(x),
        forall|y: A| s.contains(y) ==> #[trigger] s.push(x).contains(y),
{
    assert(s.push(x)[s.len() as int] == x);
    assert forall|y: A| s.contains(y) implies #[trigger] s.push(x).contains(y) by {
        let i = choose|i: int| 0 <= i < s.len() && s[i] == y;
        assert(s.push(x)[i] == y);
    }
}

/// Some entry of `r` lists the step `op`.
pub open spec fn lists_step<const N: usize>(r: Seq<Transition<N>>, op: Operation) -> bool {
    exists|k: int| 0 <= k < r.len() && #[trigger] r[k].operations@.contains(op)
}

/// A state reachable in one step, with every step that reaches it.
#[derive(Debug)]
pub struct Transition<const N: usize> {
    pub state: GameState<N>,
    pub operations: Vec<Operation>,
}

impl<const N: usize> GameState<N> {
    /// Taking `op` from the numbers of `self` leaves exactly the numbers of `next`, one fewer.
    pub open spec fn leads_to(&self, next: &GameState<N>, op: Operation) -> bool {
        &&& next.wf()
        &&& next.num_digits + 1 == self.num_digits
        &&& step(self.contents(), op) == Some(next.contents())
    }

    /// A slot-for-slot copy of the state.
    pub fn copy_state(&self) -> (r: GameState<N>)
        ensures
            r.num_digits == self.num_digits,
            r.digits@ == self.digits@,
    {
        let mut digits: Vec<usize> = Vec::new();
        let mut i: usize = 0;
        while i < self.digits.len()
            invariant
                i <= self.digits@.len(),
                digits@ == self.digits@.take(i as int),
            decreases self.digits@.len() - i,
        {
            digits.push(self.digits[i]);
            i = i + 1;
            assert(digits@ =~= self.digits@.take(i as int));
        }
        assert(digits@ =~= self.digits@);
        GameState { num_digits: self.num_digits, digits }
    }

    /// Combines the numbers at slots `a` and `b` by `kind` and, where that is legal, records
    /// the step and the state it leads to.
    fn push_move(
        &self,
        a: usize,
        b: usize,
        kind: OperationType,
        ops: &mut Vec<Operation>,
        states: &mut Vec<GameState<N>>,
    )
        requires
            self.wf(),
            a != b,
            a < self.num_digits,
            b < self.num_digits,
            old(ops)@.len() == old(states)@.len(),
            forall|t: int| 0 <= t < old(ops)@.len() ==> self.leads_to(&old(states)@[t], old(ops)@[t]),
            forall|t: int|
                0 <= t < old(ops)@.len() ==> is_move_of(
                    self.values(),
                    self.num_digits as int,
                    #[trigger] old(ops)@[t],
                ),
        ensures
            final(ops)@.len() == final(states)@.len(),
            forall|t: int|
                0 <= t < final(ops)@.len() ==> is_move_of(
                    self.values(),
                    self.num_digits as int,
                    #[trigger] final(ops)@[t],
                ),
            forall|t: int|
                0 <= t < final(ops)@.len() ==> self.leads_to(&final(states)@[t], final(ops)@[t]),
            forall|x: Operation| old(ops)@.contains(x) ==> #[trigger] final(ops)@.contains(x),
            move_op(self.values(), a as int, b as int, kind).is_legal() ==> final(ops)@.contains(
                move_op(self.values(), a as int, b as int, kind),
            ),
    {
        let hi = if a > b { a } else { b };
        let lo = if a > b { b } else { a };
        let ghost v = self.values();
        let mut rest = self.as_vec();
        let num1 = rest.remove(hi);
        let ghost rest0 = rest@;
        let num2 = rest.remove(lo);
        let op = Operation { op_type: kind, num1, num2 };
        assert(op == move_op(v, a as int, b as int, kind));
        assert(is_move_of(v, self.num_digits as int, op));
        match kind.operate(num1, num2) {
            Some(result) => {
                proof {
                    broadcast use vstd::seq_lib::group_to_multiset_ensures;

                    assert(rest0[lo as int] == v[lo as int]);
                    assert(v.contains(v[hi as int]));
                    assert(rest0.contains(rest0[lo as int]));
                    assert(v.len() == self.num_digits);
                }
                let ghost rest1 = rest@;
                rest.push(result);
                proof {
                    broadcast use vstd::seq_lib::group_to_multiset_ensures;

                    assert(rest@ == rest1.push(result));
                }
                match GameState::<N>::new(rest) {
                    Ok(next) => {
                        let ghost old_ops = ops@;
                        ops.push(op);
                        states.push(next);
                        proof {
                            lemma_push_contains(old_ops, op);
                        }
                    },
                    Err(_) => {},
                }
            },
            None => {},
        }
    }

    /// Gathers recorded steps by the state that they lead to: one entry per distinct state, in
    /// the order of first appearance, with its steps in their recorded order.
    fn group_moves(&self, ops: &Vec<Operation>, states: &Vec<GameState<N>>) -> (r: Vec<
        Transition<N>,
    >)
        requires
            self.wf(),
            ops@.len() == states@.len(),
            forall|t: int| 0 <= t < ops@.len() ==> self.leads_to(&states@[t], ops@[t]),
            forall|t: int|
                0 <= t < ops@.len() ==> is_move_of(
                    self.values(),
                    self.num_digits as int,
                    #[trigger] ops@[t],
                ),
        ensures
            forall|k: int, j: int|
                0 <= k < r@.len() && 0 <= j < r@[k].operations@.len() ==> is_move_of(
                    self.values(),
                    self.num_digits as int,
                    #[trigger] r@[k].operations@[j],
                ),
            forall|k: int|
                0 <= k < r@.len() ==> {
                    &&& r@[k].operations@.len() > 0
                    &&& forall|j: int|
                        0 <= j < r@[k].operations@.len() ==> #[trigger] self.leads_to(
                            &r@[k].state,
                            r@[k].operations@[j],
                        )
                },
            forall|k1: int, k2: int|
                0 <= k1 < k2 < r@.len() ==> r@[k1].state.values() != r@[k2].state.values(),
            forall|t: int| 0 <= t < ops@.len() ==> lists_step(r@, #[trigger] ops@[t]),
    {
        let mut result: Vec<Transition<N>> = Vec::new();
        let mut m: usize = 0;
        while m < ops.len()
            invariant
                self.wf(),
                ops@.len() == states@.len(),
                forall|t: int| 0 <= t < ops@.len() ==> self.leads_to(&states@[t], ops@[t]),
                forall|t: int|
                    0 <= t < ops@.len() ==> is_move_of(
                        self.values(),
                        self.num_digits as int,
                        #[trigger] ops@[t],
                    ),
                forall|k: int, j: int|
                    0 <= k < result@.len() && 0 <= j < result@[k].operations@.len()
                        ==> is_move_of(
                        self.values(),
                        self.num_digits as int,
                        #[trigger] result@[k].operations@[j],
                    ),
                m <= ops@.len(),
                forall|k: int|
                    0 <= k < result@.len() ==> {
                        &&& result@[k].state.wf()
                        &&& result@[k].operations@.len() > 0
                        &&& forall|j: int|
                            0 <= j < result@[k].operations@.len() ==> #[trigger] self.leads_to(
                                &result@[k].state,
                                result@[k].operations@[j],
                            )
                    },
                forall|k1: int, k2: int|
                    0 <= k1 < k2 < result@.len() ==> result@[k1].state.values()
                        != result@[k2].state.values(),
                forall|t: int| 0 <= t < m ==> lists_step(result@, #[trigger] ops@[t]),
                forall|k: int, t: int|
                    0 <= k < result@.len() && m <= t < ops@.len() && states@[t].values()
                        == result@[k].state.values() ==> #[trigger] result@[k].operations@.contains(
                        #[trigger] ops@[t],
                    ),
            decreases ops@.len() - m,
        {
            assert(self.leads_to(&states@[m as int], ops@[m as int]));
            let ghost r0 = result@;
            let mut k: usize = 0;
            let mut found = false;
            while k < result.len() && !found
                invariant
                    m < states@.len(),
                    states@[m as int].wf(),
                    forall|x: int| 0 <= x < result@.len() ==> result@[x].state.wf(),
                    k <= result@.len(),
                    found ==> k < result@.len() && result@[k as int].state.values()
                        == states@[m as int].values(),
                    !found ==> forall|x: int|
                        0 <= x < k ==> result@[x].state.values() != states@[m as int].values(),
                decreases result@.len() - k + (if found { 0int } else { 1int }),
            {
                if result[k].state.same_numbers(&states[m]) {
                    found = true;
                } else {
                    k = k + 1;
                }
            }
            let ghost mut w: int = k as int;
            if found {
                assert(result@[k as int].operations@.contains(ops@[m as int]));
            } else {
                let mut group: Vec<Operation> = Vec::new();
                let mut t: usize = m;
                while t < ops.len()
                    invariant
                        self.wf(),
                        ops@.len() == states@.len(),
                        forall|u: int| 0 <= u < ops@.len() ==> self.leads_to(&states@[u], ops@[u]),
                        forall|u: int|
                            0 <= u < ops@.len() ==> is_move_of(
                                self.values(),
                                self.num_digits as int,
                                #[trigger] ops@[u],
                            ),
                        forall|j: int|
                            0 <= j < group@.len() ==> is_move_of(
                                self.values(),
                                self.num_digits as int,
                                #[trigger] group@[j],
                            ),
                        m < ops@.len(),
                        m <= t <= ops@.len(),
                        states@[m as int].wf(),
                        forall|j: int|
                            0 <= j < group@.len() ==> self.leads_to(&states@[m as int], group@[j]),
                        forall|u: int|
                            m <= u < t && states@[u].values() == states@[m as int].values()
                                ==> group@.contains(#[trigger] ops@[u]),
                        t > m ==> group@.len() > 0,
                    decreases ops@.len() - t,
                {
                    if states[t].same_numbers(&states[m]) {
                        proof {
                            lemma_push_contains(group@, ops@[t as int]);
                            assert(self.leads_to(&states@[t as int], ops@[t as int]));
                            assert(states@[t as int].contents() == states@[m as int].contents());
                            assert(states@[t as int].values().len() == states@[t as int].num_digits);
                            assert(states@[m as int].values().len() == states@[m as int].num_digits);
                            assert(self.leads_to(&states@[m as int], ops@[t as int]));
                        }
                        group.push(ops[t]);
                    }
                    t = t + 1;
                }
                let state = states[m].copy_state();
                let ghost old_result = result@;
                result.push(Transition { state, operations: group });
                proof {
                    assert(result@[old_result.len() as int].operations@.contains(ops@[m as int]));
                    w = old_result.len() as int;
                }
            }
            proof {
                assert(0 <= w < result@.len() && result@[w].operations@.contains(ops@[m as int]));
                assert(r0.len() <= result@.len());
                assert(forall|x: int| 0 <= x < r0.len() ==> result@[x] == r0[x]);
                assert forall|u: int| 0 <= u <= m implies lists_step(result@, #[trigger] ops@[u]) by {
                    if u == m {
                        assert(result@[w].operations@.contains(ops@[u]));
                    } else {
                        assert(lists_step(r0, ops@[u]));
                        let x = choose|x: int|
                            0 <= x < r0.len() && #[trigger] r0[x].operations@.contains(ops@[u]);
                        assert(result@[x] == r0[x]);
                        assert(result@[x].operations@.contains(ops@[u]));
                    }
                }
            }
            m = m + 1;
        }
        result
    }

    /// Every state reachable from this one in one step, each with the steps that reach it.
    ///
    /// Pairs of slots are tried in ascending order, and on each pair the kinds in the order
    /// add, subtract, multiply, divide; the number at the higher slot is the left operand. The
    /// states come in the order in which they are first reached, and the steps of each in the
    /// order in which they are found.
    pub fn next_states(&self) -> (r: Vec<Transition<N>>)
        requires
            self.wf(),
        ensures
            forall|k: int, j: int|
                0 <= k < r@.len() && 0 <= j < r@[k].operations@.len() ==> {
                    &&& is_move_of(
                        self.values(),
                        self.num_digits as int,
                        #[trigger] r@[k].operations@[j],
                    )
                    &&& r@[k].operations@[j].num1 >= r@[k].operations@[j].num2
                },
            forall|k: int, a: int, b: int, kind: OperationType|
                0 <= k < r@.len() && 0 <= a < self.num_digits && 0 <= b < self.num_digits && a
                    != b && step(self.contents(), #[trigger] move_op(self.values(), a, b, kind))
                    == Some(#[trigger] r@[k].state.contents()) ==> r@[k].operations@.contains(
                    move_op(self.values(), a, b, kind),
                ),
            forall|k: int|
                0 <= k < r@.len() ==> {
                    &&& r@[k].operations@.len() > 0
                    &&& forall|j: int|
                        0 <= j < r@[k].operations@.len() ==> #[trigger] self.leads_to(
                            &r@[k].state,
                            r@[k].operations@[j],
                        )
                },
            forall|k1: int, k2: int|
                0 <= k1 < k2 < r@.len() ==> r@[k1].state.values() != r@[k2].state.values(),
            forall|a: int, b: int, kind: OperationType|
                0 <= a < self.num_digits && 0 <= b < self.num_digits && a != b
                    && #[trigger] move_op(self.values(), a, b, kind).is_legal() ==> exists|k: int|
                    0 <= k < r@.len() && r@[k].operations@.contains(
                        move_op(self.values(), a, b, kind),
                    ),
    {
        let n = self.num_digits;
        let ghost v = self.values();
        let mut ops: Vec<Operation> = Vec::new();
        let mut states: Vec<GameState<N>> = Vec::new();
        let mut i1: usize = 0;
        while i1 < n
            invariant
                self.wf(),
                n == self.num_digits,
                v == self.values(),
                i1 <= n,
                ops@.len() == states@.len(),
                forall|t: int| 0 <= t < ops@.len() ==> self.leads_to(&states@[t], ops@[t]),
                forall|t: int| 0 <= t < ops@.len() ==> is_move_of(v, n as int, #[trigger] ops@[t]),
                forall|a: int, b: int, kind: OperationType|
                    0 <= a < i1 && 0 <= b < n && a != b && #[trigger] move_op(
                        v,
                        a,
                        b,
                        kind,
                    ).is_legal() ==> ops@.contains(move_op(v, a, b, kind)),
            decreases n - i1,
        {
            let mut i2: usize = 0;
            while i2 < n
                invariant
                    self.wf(),
                    n == self.num_digits,
                    v == self.values(),
                    i1 < n,
                    i2 <= n,
                    ops@.len() == states@.len(),
                    forall|t: int| 0 <= t < ops@.len() ==> self.leads_to(&states@[t], ops@[t]),
                    forall|t: int|
                        0 <= t < ops@.len() ==> is_move_of(v, n as int, #[trigger] ops@[t]),
                    forall|a: int, b: int, kind: OperationType|
                        (0 <= a < i1 || (a == i1 && b < i2)) && 0 <= b < n && a != b
                            && #[trigger] move_op(v, a, b, kind).is_legal() ==> ops@.contains(
                            move_op(v, a, b, kind),
                        ),
                decreases n - i2,
            {
                if i2 != i1 {
                    self.push_move(i1, i2, OperationType::Add, &mut ops, &mut states);
                    self.push_move(i1, i2, OperationType::Subtract, &mut ops, &mut states);
                    self.push_move(i1, i2, OperationType::Multiply, &mut ops, &mut states);
                    self.push_move(i1, i2, OperationType::Divide, &mut ops, &mut states);
                    proof {
                        assert forall|kind: OperationType|
                            #[trigger] move_op(v, i1 as int, i2 as int, kind).is_legal()
                                implies ops@.contains(move_op(v, i1 as int, i2 as int, kind)) by {
                            match kind {
                                OperationType::Add => {},
                                OperationType::Subtract => {},
                                OperationType::Multiply => {},
                                OperationType::Divide => {},
                            }
                        }
                    }
                }
                i2 = i2 + 1;
            }
            i1 = i1 + 1;
        }
        let r = self.group_moves(&ops, &states);
        proof {
            assert forall|k: int, j: int|
                0 <= k < r@.len() && 0 <= j < r@[k].operations@.len() implies r@[k].operations@[
                j].num1 >= r@[k].operations@[j].num2 by {
                lemma_move_larger_left(v, n as int, r@[k].operations@[j]);
            }
            assert forall|k: int, a: int, b: int, kind: OperationType|
                0 <= k < r@.len() && 0 <= a < n && 0 <= b < n && a != b && step(
                    self.contents(),
                    #[trigger] move_op(v, a, b, kind),
                ) == Some(#[trigger] r@[k].state.contents()) implies r@[k].operations@.contains(
                move_op(v, a, b, kind),
            ) by {
                let op = move_op(v, a, b, kind);
                assert(op.is_legal());
                let k2 = choose|k2: int| 0 <= k2 < r@.len() && r@[k2].operations@.contains(op);
                let j = choose|j: int|
                    0 <= j < r@[k2].operations@.len() && r@[k2].operations@[j] == op;
                assert(self.leads_to(&r@[k2].state, r@[k2].operations@[j]));
                assert(self.leads_to(&r@[k].state, r@[k].operations@[0]));
                lemma_ascending_unique(r@[k].state.values(), r@[k2].state.values());
            }
        }
        r
    }
}

} // verus!
