use vstd::prelude::*;
use vstd::string::StringExecFns;

verus! {

/// The four arithmetic steps that combine two available numbers into one.
#[derive(PartialEq, Eq, Structural, Debug, Clone, Copy)]
pub enum OperationType {
    Add,
    Subtract,
    Multiply,
    Divide,
}

/// What an operation of kind `k` yields on `left` and `right`, or `None` where the step is
/// illegal: a subtraction that would not stay positive, a division that is not exact or is by
/// zero, or a result that does not fit in a `usize`.
pub open spec fn operate_spec(k: OperationType, left: usize, right: usize) -> Option<usize> {
    let r: int = match k {
        OperationType::Add => left + right,
        OperationType::Subtract => left - right,
        OperationType::Multiply => left * right,
        OperationType::Divide => if right == 0 { -1 } else { left as int / right as int },
    };
    let legal = match k {
        OperationType::Subtract => left > right,
        OperationType::Divide => right != 0 && left % right == 0,
        _ => true,
    };
    if legal && 0 <= r <= usize::MAX {
        Some(r as usize)
    } else {
        None
    }
}

/// The character that names an operation kind in rendered text.
pub open spec fn symbol_char(k: OperationType) -> char {
    match k {
        OperationType::Add => '+',
        OperationType::Subtract => '-',
        OperationType::Multiply => '*',
        OperationType::Divide => '/',
    }
}

/// The operation kind that a symbol character names, if any.
pub open spec fn kind_of_symbol(c: char) -> Option<OperationType> {
    if c == '+' {
        Some(OperationType::Add)
    } else if c == '-' {
        Some(OperationType::Subtract)
    } else if c == '*' {
        Some(OperationType::Multiply)
    } else if c == '/' {
        Some(OperationType::Divide)
    } else {
        None
    }
}

impl OperationType {
    /// Applies this operation to `num1` (left) and `num2` (right), or returns `None` where the
    /// step is illegal.
    pub fn operate(self, num1: usize, num2: usize) -> (r: Option<usize>)
        ensures
            r == operate_spec(self, num1, num2),
    {
        match self {
            OperationType::Add => num1.checked_add(num2),
            OperationType::Subtract => {
                if num1 > num2 {
                    Some(num1 - num2)
                } else {
                    None
                }
            },
            OperationType::Multiply => num1.checked_mul(num2),
            OperationType::Divide => {
                if num2 != 0 && num1 % num2 == 0 {
                    Some(num1 / num2)
                } else {
                    None
                }
            },
        }
    }

    /// The one-character symbol of this operation kind.
    pub fn symbol(self) -> (r: &'static str)
        ensures
            r@ == seq![symbol_char(self)],
    {
        match self {
            OperationType::Add => {
                proof {
                    reveal_strlit("+");
                }
                "+"
            },
            OperationType::Subtract => {
                proof {
                    reveal_strlit("-");
                }
                "-"
            },
            OperationType::Multiply => {
                proof {
                    reveal_strlit("*");
                }
                "*"
            },
            OperationType::Divide => {
                proof {
                    reveal_strlit("/");
                }
                "/"
            },
        }
    }

    /// The operation kind named by a symbol character.
    pub fn from_symbol(c: char) -> (r: Option<OperationType>)
        ensures
            r == kind_of_symbol(c),
    {
        if c == '+' {
            Some(OperationType::Add)
        } else if c == '-' {
            Some(OperationType::Subtract)
        } else if c == '*' {
            Some(OperationType::Multiply)
        } else if c == '/' {
            Some(OperationType::Divide)
        } else {
            None
        }
    }
}

/// Reading back the symbol of any operation kind gives that kind, and no two kinds share a
/// symbol.
pub proof fn lemma_symbol_round_trip(k: OperationType, other: OperationType)
    ensures
        kind_of_symbol(symbol_char(k)) == Some(k),
        symbol_char(k) == symbol_char(other) ==> k == other,
{
}

/// One step of a solution: `num1 <kind> num2`, with `num1` as the left operand.
///
/// A value of this type may describe an illegal step; `is_legal` says which ones are not.
#[derive(PartialEq, Eq, Structural, Debug, Clone, Copy)]
pub struct Operation {
    pub op_type: OperationType,
    pub num1: usize,
    pub num2: usize,
}

/// The character of a decimal digit `d < 10`.
pub open spec fn digit_char(d: nat) -> char {
    seq!['0', '1', '2', '3', '4', '5', '6', '7', '8', '9'][d as int]
}

/// The decimal digits of `n`, most significant first, without leading zeros.
pub open spec fn decimal_spec(n: nat) -> Seq<char>
    decreases n,
{
    if n < 10 {
        seq![digit_char(n)]
    } else {
        decimal_spec(n / 10).push(digit_char(n % 10))
    }
}

impl Operation {
    /// Whether this step may be taken.
    pub open spec fn is_legal(self) -> bool {
        operate_spec(self.op_type, self.num1, self.num2) is Some
    }

    /// The number this step yields; meaningful where the step is legal.
    pub open spec fn result_spec(self) -> usize {
        operate_spec(self.op_type, self.num1, self.num2)->0
    }

    /// The text `"<left> <symbol> <right> = <result>"`.
    pub open spec fn render_spec(self) -> Seq<char> {
        decimal_spec(self.num1 as nat) + seq![' ', symbol_char(self.op_type), ' ']
            + decimal_spec(self.num2 as nat) + seq![' ', '=', ' ']
            + decimal_spec(self.result_spec() as nat)
    }

    /// The number this step yields, or `None` where it is illegal.
    pub fn result(&self) -> (r: Option<usize>)
        ensures
            r == operate_spec(self.op_type, self.num1, self.num2),
    {
        self.op_type.operate(self.num1, self.num2)
    }

    /// Renders a legal step as `"<left> <symbol> <right> = <result>"`.
    pub fn render(&self) -> (r: String)
        requires
            self.is_legal(),
        ensures
            r@ == self.render_spec(),
    {
        let result = match self.op_type.operate(self.num1, self.num2) {
            Some(v) => v,
            None => 0,
        };
        let mut text = decimal_text(self.num1);
        text.append(" ");
        text.append(self.op_type.symbol());
        text.append(" ");
        let right = decimal_text(self.num2);
        text.append(right.as_str());
        text.append(" = ");
        let res = decimal_text(result);
        text.append(res.as_str());
        proof {
            reveal_strlit(" ");
            reveal_strlit(" = ");
            assert(text@ =~= self.render_spec());
        }
        text
    }
}

/// Relies on `usize::to_string` (its `Display` impl): the decimal digits of `n`, most
/// significant first, without sign or leading zeros.
#[verifier::external_body]
pub(crate) fn decimal_text(n: usize) -> (r: String)
    ensures
        r@ == decimal_spec(n as nat),
{
    n.to_string()
}

/// A legal subtraction leaves a positive number; a legal division is exact and not by zero.
pub proof fn lemma_legal_steps(op: Operation)
    requires
        op.is_legal(),
    ensures
        op.op_type == OperationType::Subtract ==> op.num1 > op.num2,
        op.op_type == OperationType::Divide ==> op.num2 != 0 && op.num1 % op.num2 == 0,
{
}

/// In the text of a legal step, the character after the left operand and a space is the
/// symbol, and it reads back as the step's kind.
pub proof fn lemma_rendered_kind(op: Operation)
    requires
        op.is_legal(),
    ensures
        op.render_spec()[decimal_spec(op.num1 as nat).len() as int + 1] == symbol_char(op.op_type),
        kind_of_symbol(op.render_spec()[decimal_spec(op.num1 as nat).len() as int + 1]) == Some(
            op.op_type,
        ),
{
    let l = decimal_spec(op.num1 as nat);
    let s = op.render_spec();
    assert(s[l.len() as int + 1] == (l + seq![' ', symbol_char(op.op_type), ' '])[l.len() as int + 1]);
}

} // verus!
