//! The elementwise column operators and the symbols that select them.
use vstd::prelude::*;
use crate::errors::CalcError;

verus! {

/// One of the four elementwise column operators.
#[derive(Clone, Copy, Debug, PartialEq, Eq, Structural)]
pub enum Op {
    Add,
    Sub,
    Mul,
    Div,
}

/// The operator a configured symbol denotes, if any: exactly the four
/// single-character symbols `+ - * /`.
pub open spec fn op_of(s: Seq<char>) -> Option<Op> {
    if s == seq!['+'] {
        Some(Op::Add)
    } else if s == seq!['-'] {
        Some(Op::Sub)
    } else if s == seq!['*'] {
        Some(Op::Mul)
    } else if s == seq!['/'] {
        Some(Op::Div)
    } else {
        None
    }
}

/// Checks a configured operator symbol, naming it in the error when it
/// is not one of the four supported ones.
pub fn parse_operator(operation: &str) -> (r: Result<Op, CalcError>)
    ensures
        r matches Ok(o) ==> op_of(operation@) == Some(o),
        r is Ok <==> op_of(operation@) is Some,
        r matches Err(e) ==> e matches CalcError::UnsupportedOperator { op } && op@ == operation@,
{
    let n = operation.unicode_len();
    if n == 1 {
        let c = operation.get_char(0);
        proof {
            assert(seq!['+'][0] == '+');
            assert(seq!['-'][0] == '-');
            assert(seq!['*'][0] == '*');
            assert(seq!['/'][0] == '/');
            if c == '+' {
                assert(operation@ =~= seq!['+']);
            }
            if c == '-' {
                assert(operation@ =~= seq!['-']);
            }
            if c == '*' {
                assert(operation@ =~= seq!['*']);
            }
            if c == '/' {
                assert(operation@ =~= seq!['/']);
            }
        }
        if c == '+' {
            Ok(Op::Add)
        } else if c == '-' {
            Ok(Op::Sub)
        } else if c == '*' {
            Ok(Op::Mul)
        } else if c == '/' {
            Ok(Op::Div)
        } else {
            Err(CalcError::UnsupportedOperator { op: operation.to_owned() })
        }
    } else {
        proof {
            assert(seq!['+'].len() == 1);
            assert(seq!['-'].len() == 1);
            assert(seq!['*'].len() == 1);
            assert(seq!['/'].len() == 1);
        }
        Err(CalcError::UnsupportedOperator { op: operation.to_owned() })
    }
}

} // verus!
