use vstd::prelude::*;
use vstd::string::StringExecFns;

use crate::operation::Operation;

verus! {

/// The steps of one solution, rendered and separated by `", "`.
pub open spec fn solution_text(ops: Seq<Operation>) -> Seq<char>
    decreases ops.len(),
{
    if ops.len() == 0 {
        seq![]
    } else if ops.len() == 1 {
        ops[0].render_spec()
    } else {
        solution_text(ops.drop_last()) + seq![',', ' '] + ops.last().render_spec()
    }
}

/// The heading of a reply that lists solutions.
pub open spec fn heading() -> Seq<char> {
    seq!['(', 'S', 'o', 'm', 'e', ')', ' ', 'S', 'o', 'l', 'u', 't', 'i', 'o', 'n', 's', ':']
}

/// A reply that lists solutions: the heading, then each solution on a line of its own
/// between `||` marks, which hide it until it is clicked.
pub open spec fn reply_text(sols: Seq<Seq<Operation>>) -> Seq<char>
    decreases sols.len(),
{
    if sols.len() == 0 {
        heading()
    } else {
        reply_text(sols.drop_last()) + seq!['\n', '|', '|'] + solution_text(sols.last()) + seq![
            '|',
            '|',
        ]
    }
}

/// Every step of every solution is legal.
pub open spec fn all_legal(sols: Seq<Vec<Operation>>) -> bool {
    forall|k: int, j: int|
        0 <= k < sols.len() && 0 <= j < sols[k]@.len() ==> (#[trigger] sols[k]@[j]).is_legal()
}

/// Renders the steps of one solution, separated by `", "`.
pub fn render_solution(ops: &Vec<Operation>) -> (r: String)
    requires
        forall|j: int| 0 <= j < ops@.len() ==> (#[trigger] ops@[j]).is_legal(),
    ensures
        r@ == solution_text(ops@),
{
    let mut text = String::new();
    let mut i: usize = 0;
    while i < ops.len()
        invariant
            forall|j: int| 0 <= j < ops@.len() ==> (#[trigger] ops@[j]).is_legal(),
            i <= ops@.len(),
            text@ == solution_text(ops@.take(i as int)),
        decreases ops@.len() - i,
    {
        let step = ops[i].render();
        if i > 0 {
            text.append(", ");
        }
        text.append(step.as_str());
        proof {
            reveal_strlit(", ");
            let t = ops@.take(i as int + 1);
            assert(t.drop_last() =~= ops@.take(i as int));
            if i == 0 {
                assert(text@ =~= solution_text(t));
            } else {
                assert(text@ =~= solution_text(t));
            }
        }
        i = i + 1;
    }
    assert(ops@.take(i as int) =~= ops@);
    text
}

/// Writes the reply that lists `solutions`: the heading, then each solution on a line of its
/// own between `||` marks.
pub fn format_solutions(solutions: &Vec<Vec<Operation>>) -> (r: String)
    requires
        all_legal(solutions@),
    ensures
        r@ == reply_text(solutions@.map_values(|v: Vec<Operation>| v@)),
{
    let ghost views = solutions@.map_values(|v: Vec<Operation>| v@);
    let mut text = String::from_str("(Some) Solutions:");
    proof {
        reveal_strlit("(Some) Solutions:");
        assert(text@ =~= heading());
        assert(views.take(0) =~= Seq::<Seq<Operation>>::empty());
    }
    let mut k: usize = 0;
    while k < solutions.len()
        invariant
            all_legal(solutions@),
            views == solutions@.map_values(|v: Vec<Operation>| v@),
            k <= solutions@.len(),
            text@ == reply_text(views.take(k as int)),
        decreases solutions@.len() - k,
    {
        proof {
            assert forall|j: int| 0 <= j < solutions@[k as int]@.len() implies (
            #[trigger] solutions@[k as int]@[j]).is_legal() by {}
        }
        let line = render_solution(&solutions[k]);
        text.append("\n||");
        text.append(line.as_str());
        text.append("||");
        proof {
            reveal_strlit("\n||");
            reveal_strlit("||");
            let t = views.take(k as int + 1);
            assert(t.drop_last() =~= views.take(k as int));
            assert(t.last() == solutions@[k as int]@);
            assert(text@ =~= reply_text(t));
        }
        k = k + 1;
    }
    assert(views.take(k as int) =~= views);
    text
}

} // verus!
