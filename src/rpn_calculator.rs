use vstd::prelude::*;

verus! {

#[derive(Debug)]
pub enum CalculatorInput {
    Add,
    Subtract,
    Multiply,
    Divide,
    Value(i32),
}

/// What an operator computes from the operand pushed earlier (`a`) and the one
/// pushed last (`b`); `None` where the result is undefined or does not fit.
pub open spec fn apply_op(op: CalculatorInput, a: i32, b: i32) -> Option<i32> {
    match op {
        CalculatorInput::Add => a.checked_add(b),
        CalculatorInput::Subtract => a.checked_sub(b),
        CalculatorInput::Multiply => a.checked_mul(b),
        CalculatorInput::Divide => a.checked_div(b),
        CalculatorInput::Value(_) => None,
    }
}

/// Where a calculation stands.
pub enum Rpn {
    /// Every input so far was applied; this is the stack.
    Stack(Seq<i32>),
    /// An operator found fewer than two operands.
    Underflow,
    /// An operator overflowed or divided by zero.
    Fault,
}

/// The state after the first `k` inputs.
pub open spec fn rpn_run(inputs: Seq<CalculatorInput>, k: nat) -> Rpn
    decreases k,
{
    if k == 0 || k > inputs.len() {
        Rpn::Stack(seq![])
    } else {
        match rpn_run(inputs, (k - 1) as nat) {
            Rpn::Stack(st) => match inputs[k - 1] {
                CalculatorInput::Value(v) => Rpn::Stack(st.push(v)),
                op => if st.len() < 2 {
                    Rpn::Underflow
                } else {
                    match apply_op(op, st[st.len() - 2], st[st.len() - 1]) {
                        Some(x) => Rpn::Stack(st.take(st.len() - 2).push(x)),
                        None => Rpn::Fault,
                    }
                },
            },
            other => other,
        }
    }
}

proof fn lemma_underflow_stays(inputs: Seq<CalculatorInput>, k: nat, m: nat)
    requires
        k <= m <= inputs.len(),
        rpn_run(inputs, k) is Underflow,
    ensures
        rpn_run(inputs, m) is Underflow,
    decreases m,
{
    if k < m {
        lemma_underflow_stays(inputs, k, (m - 1) as nat);
    }
}

/// Evaluates inputs in reverse Polish notation: the value on top of the stack at
/// the end, or `None` if an operator lacks operands or nothing is left.
pub fn evaluate(inputs: &[CalculatorInput]) -> (r: Option<i32>)
    requires
        !(rpn_run(inputs@, inputs@.len()) is Fault),
    ensures
        match rpn_run(inputs@, inputs@.len()) {
            Rpn::Stack(st) => r == if st.len() > 0 {
                Some(st.last())
            } else {
                None
            },
            _ => r is None,
        },
{
    let mut stack: Vec<i32> = Vec::new();
    let mut i: usize = 0;
    while i < inputs.len()
        invariant
            i <= inputs@.len(),
            rpn_run(inputs@, i as nat) == Rpn::Stack(stack@),
            !(rpn_run(inputs@, inputs@.len()) is Fault),
        decreases inputs.len() - i,
    {
        match &inputs[i] {
            CalculatorInput::Value(v) => stack.push(*v),
            others => {
                if stack.len() < 2 {
                    proof {
                        lemma_underflow_stays(inputs@, (i + 1) as nat, inputs@.len());
                    }
                    return None;
                }
                let ghost st = stack@;
                let second = stack.pop().unwrap();
                let first = stack.pop().unwrap();
                assert(stack@ =~= st.take(st.len() - 2));
                let val = match others {
                    CalculatorInput::Add => first.checked_add(second),
                    CalculatorInput::Subtract => first.checked_sub(second),
                    CalculatorInput::Multiply => first.checked_mul(second),
                    CalculatorInput::Divide => first.checked_div(second),
                    CalculatorInput::Value(_) => None,
                };
                match val {
                    Some(x) => stack.push(x),
                    None => {
                        proof {
                            assert(rpn_run(inputs@, (i + 1) as nat) is Fault);
                            lemma_fault_stays(inputs@, (i + 1) as nat, inputs@.len());
                        }
                        return None;
                    },
                }
            },
        }
        i = i + 1;
    }
    stack.pop()
}

proof fn lemma_fault_stays(inputs: Seq<CalculatorInput>, k: nat, m: nat)
    requires
        k <= m <= inputs.len(),
        rpn_run(inputs, k) is Fault,
    ensures
        rpn_run(inputs, m) is Fault,
    decreases m,
{
    if k < m {
        lemma_fault_stays(inputs, k, (m - 1) as nat);
    }
}

} // verus!
