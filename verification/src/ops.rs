use vstd::prelude::*;

verus! {

/// A unary operation of the runtime expression format.
#[derive(Debug, Clone, Copy, PartialEq, Eq, Structural)]
pub enum UnaryOperation {
    Not,
    Minus,
}

/// A binary operation of the runtime expression format.
#[derive(Debug, Clone, Copy, PartialEq, Eq, Structural)]
pub enum BinaryOperation {
    Add,
    Sub,
    Mul,
    Div,
    Rem,
    And,
    Or,
    Eq,
    Ne,
    Gt,
    Ge,
    Lt,
    Le,
}

/// Errors of evaluating an expression.
#[derive(Debug, Clone)]
pub enum EvalError {
    VariableNotFound(String),
}

/// The number of a two-byte operator text, first byte high; a one-character
/// operator has a zero first byte.
pub open spec fn text_code(first: u8, second: u8) -> u16 {
    (first as int * 256 + second as int) as u16
}

impl UnaryOperation {
    /// The number that stands for the operation: the byte of its character.
    pub open spec fn spec_code(self) -> u8 {
        match self {
            UnaryOperation::Not => 33,
            UnaryOperation::Minus => 45,
        }
    }

    pub fn code(self) -> (res: u8)
        ensures
            res == self.spec_code(),
    {
        match self {
            UnaryOperation::Not => 33,
            UnaryOperation::Minus => 45,
        }
    }

    /// The operation that a number stands for, if any.
    pub fn from_code(value: u8) -> (res: Option<UnaryOperation>)
        ensures
            match res {
                Some(op) => op.spec_code() == value,
                None => forall|op: UnaryOperation| op.spec_code() != value,
            },
    {
        if value == 33 {
            Some(UnaryOperation::Not)
        } else if value == 45 {
            Some(UnaryOperation::Minus)
        } else {
            proof {
                assert forall|op: UnaryOperation| op.spec_code() != value by {
                    match op {
                        UnaryOperation::Not => {},
                        UnaryOperation::Minus => {},
                    }
                }
            }
            None
        }
    }
}

impl BinaryOperation {
    /// The number that stands for the operation: the bytes of its text, read
    /// big-endian, with a zero first byte for one-character operators.
    pub open spec fn spec_code(self) -> u16 {
        match self {
            BinaryOperation::Add => text_code(0, 43),
            BinaryOperation::Sub => text_code(0, 45),
            BinaryOperation::Mul => text_code(0, 42),
            BinaryOperation::Div => text_code(0, 47),
            BinaryOperation::Rem => text_code(0, 37),
            BinaryOperation::And => text_code(38, 38),
            BinaryOperation::Or => text_code(124, 124),
            BinaryOperation::Eq => text_code(61, 61),
            BinaryOperation::Ne => text_code(33, 61),
            BinaryOperation::Gt => text_code(0, 62),
            BinaryOperation::Ge => text_code(62, 61),
            BinaryOperation::Lt => text_code(0, 60),
            BinaryOperation::Le => text_code(60, 61),
        }
    }

    pub fn code(self) -> (res: u16)
        ensures
            res == self.spec_code(),
    {
        match self {
            BinaryOperation::Add => 43,
            BinaryOperation::Sub => 45,
            BinaryOperation::Mul => 42,
            BinaryOperation::Div => 47,
            BinaryOperation::Rem => 37,
            BinaryOperation::And => 9766,
            BinaryOperation::Or => 31868,
            BinaryOperation::Eq => 15677,
            BinaryOperation::Ne => 8509,
            BinaryOperation::Gt => 62,
            BinaryOperation::Ge => 15933,
            BinaryOperation::Lt => 60,
            BinaryOperation::Le => 15421,
        }
    }

    /// All operations, in the order in which their numbers are looked up.
    pub fn all() -> (res: Vec<BinaryOperation>)
        ensures
            res@.len() == 13,
            forall|op: BinaryOperation| #[trigger] res@.contains(op),
    {
        let res = vec![
            BinaryOperation::Add,
            BinaryOperation::Sub,
            BinaryOperation::Mul,
            BinaryOperation::Div,
            BinaryOperation::Rem,
            BinaryOperation::And,
            BinaryOperation::Or,
            BinaryOperation::Eq,
            BinaryOperation::Ne,
            BinaryOperation::Gt,
            BinaryOperation::Ge,
            BinaryOperation::Lt,
            BinaryOperation::Le,
        ];
        proof {
            assert forall|op: BinaryOperation| #[trigger] res@.contains(op) by {
                match op {
                    BinaryOperation::Add => assert(res@[0] == op),
                    BinaryOperation::Sub => assert(res@[1] == op),
                    BinaryOperation::Mul => assert(res@[2] == op),
                    BinaryOperation::Div => assert(res@[3] == op),
                    BinaryOperation::Rem => assert(res@[4] == op),
                    BinaryOperation::And => assert(res@[5] == op),
                    BinaryOperation::Or => assert(res@[6] == op),
                    BinaryOperation::Eq => assert(res@[7] == op),
                    BinaryOperation::Ne => assert(res@[8] == op),
                    BinaryOperation::Gt => assert(res@[9] == op),
                    BinaryOperation::Ge => assert(res@[10] == op),
                    BinaryOperation::Lt => assert(res@[11] == op),
                    BinaryOperation::Le => assert(res@[12] == op),
                }
            }
        }
        res
    }

    /// The operation that a number stands for, looked up among all operations.
    pub fn from_code(value: u16) -> (res: Option<BinaryOperation>)
        ensures
            match res {
                Some(op) => op.spec_code() == value,
                None => forall|op: BinaryOperation| op.spec_code() != value,
            },
    {
        let values = BinaryOperation::all();
        let mut i: usize = 0;
        while i < values.len()
            invariant
                i <= values@.len() == 13,
                forall|op: BinaryOperation| #[trigger] values@.contains(op),
                forall|j: int| 0 <= j < i ==> (#[trigger] values@[j]).spec_code() != value,
            decreases values.len() - i,
        {
            let op = values[i];
            if op.code() == value {
                return Some(op);
            }
            i = i + 1;
        }
        proof {
            assert forall|op: BinaryOperation| op.spec_code() != value by {
                assert(values@.contains(op));
                let j = choose|j: int| 0 <= j < values@.len() && values@[j] == op;
                assert(values@[j].spec_code() != value);
            }
        }
        None
    }
}

/// Each unary operation is read back from its number.
pub proof fn lemma_unary_code_roundtrip(op: UnaryOperation, other: UnaryOperation)
    ensures
        op.spec_code() == other.spec_code() ==> op == other,
{
}

/// Distinct binary operations have distinct numbers, so a number read back
/// gives the operation that was written.
pub proof fn lemma_binary_code_roundtrip(op: BinaryOperation, other: BinaryOperation)
    ensures
        op.spec_code() == other.spec_code() ==> op == other,
{
}

/// Each operation's number is made of the bytes of its operator's text, as
/// the characters of the text give them: one byte for a unary operator, and
/// for a binary one the first byte (zero for a one-character operator) times
/// 256 plus the second.
pub proof fn lemma_codes_are_operator_texts()
    ensures
        UnaryOperation::Not.spec_code() == '!' as u8,
        UnaryOperation::Minus.spec_code() == '-' as u8,
        BinaryOperation::Add.spec_code() == text_code(0, '+' as u8),
        BinaryOperation::Sub.spec_code() == text_code(0, '-' as u8),
        BinaryOperation::Mul.spec_code() == text_code(0, '*' as u8),
        BinaryOperation::Div.spec_code() == text_code(0, '/' as u8),
        BinaryOperation::Rem.spec_code() == text_code(0, '%' as u8),
        BinaryOperation::And.spec_code() == text_code('&' as u8, '&' as u8),
        BinaryOperation::Or.spec_code() == text_code('|' as u8, '|' as u8),
        BinaryOperation::Eq.spec_code() == text_code('=' as u8, '=' as u8),
        BinaryOperation::Ne.spec_code() == text_code('!' as u8, '=' as u8),
        BinaryOperation::Gt.spec_code() == text_code(0, '>' as u8),
        BinaryOperation::Ge.spec_code() == text_code('>' as u8, '=' as u8),
        BinaryOperation::Lt.spec_code() == text_code(0, '<' as u8),
        BinaryOperation::Le.spec_code() == text_code('<' as u8, '=' as u8),
{
    assert('!' as u32 == 33 && '-' as u32 == 45 && '+' as u32 == 43 && '*' as u32 == 42);
    assert('/' as u32 == 47 && '%' as u32 == 37 && '&' as u32 == 38 && '|' as u32 == 124);
    assert('=' as u32 == 61 && '>' as u32 == 62 && '<' as u32 == 60);
}

} // verus!
