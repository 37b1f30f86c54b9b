use vstd::prelude::*;

verus! {

/// One instruction of the language; a loop owns its body.
#[derive(Debug)]
pub enum Statement {
    IncrementPointer,
    DecrementPointer,
    IncrementValue,
    DecrementValue,
    PutChar,
    GetChar,
    Loop(Vec<Statement>),
}

/// Why a byte does not stand for a plain instruction.
#[derive(PartialEq, Eq, Structural, Debug, Clone, Copy)]
pub enum StatementConversionError {
    InsignificantChar,
    OpeningLoop,
    ClosingLoop,
}

/// The plain instruction that a byte stands for, if any.
pub open spec fn plain_statement_of(b: u8) -> Option<Statement> {
    if b == '>' as u8 {
        Some(Statement::IncrementPointer)
    } else if b == '<' as u8 {
        Some(Statement::DecrementPointer)
    } else if b == '+' as u8 {
        Some(Statement::IncrementValue)
    } else if b == '-' as u8 {
        Some(Statement::DecrementValue)
    } else if b == '.' as u8 {
        Some(Statement::PutChar)
    } else if b == ',' as u8 {
        Some(Statement::GetChar)
    } else {
        None
    }
}

/// Whether a byte is one of the eight characters of the language.
pub open spec fn is_significant(b: u8) -> bool {
    plain_statement_of(b).is_some() || b == '[' as u8 || b == ']' as u8
}

/// The source text of a statement, in significant characters only.
pub open spec fn code_of(s: Statement) -> Seq<u8>
    decreases s,
{
    match s {
        Statement::IncrementPointer => seq!['>' as u8],
        Statement::DecrementPointer => seq!['<' as u8],
        Statement::IncrementValue => seq!['+' as u8],
        Statement::DecrementValue => seq!['-' as u8],
        Statement::PutChar => seq!['.' as u8],
        Statement::GetChar => seq![',' as u8],
        Statement::Loop(body) => seq!['[' as u8] + code_of_block(body@) + seq![']' as u8],
    }
}

/// The source text of a sequence of statements, in significant characters only.
pub open spec fn code_of_block(b: Seq<Statement>) -> Seq<u8>
    decreases b,
{
    if b.len() == 0 {
        Seq::empty()
    } else {
        code_of_block(b.drop_last()) + code_of(b.last())
    }
}

/// How deeply loops nest in a statement.
pub open spec fn nesting_of(s: Statement) -> nat
    decreases s,
{
    match s {
        Statement::Loop(body) => 1 + nesting_of_block(body@),
        _ => 0,
    }
}

/// How deeply loops nest in a sequence of statements.
pub open spec fn nesting_of_block(b: Seq<Statement>) -> nat
    decreases b,
{
    if b.len() == 0 {
        0
    } else {
        let a = nesting_of_block(b.drop_last());
        let c = nesting_of(b.last());
        if a >= c {
            a
        } else {
            c
        }
    }
}

pub open spec fn spaces(n: nat) -> Seq<char> {
    Seq::new(n, |i: int| ' ')
}

/// The indented listing of a statement: plain instructions as their
/// characters, a loop as `[`, a newline, its body indented two more
/// columns, a newline, the indentation and `]` with a newline.
pub open spec fn listing_of(s: Statement, indentation: nat) -> Seq<char>
    decreases s,
{
    match s {
        Statement::IncrementPointer => seq!['>'],
        Statement::DecrementPointer => seq!['<'],
        Statement::IncrementValue => seq!['+'],
        Statement::DecrementValue => seq!['-'],
        Statement::PutChar => seq!['.'],
        Statement::GetChar => seq![','],
        Statement::Loop(body) => seq!['[', '\n'] + listing_of_block(body@, indentation + 2) + seq![
            '\n',
        ] + spaces(indentation) + seq![']', '\n'],
    }
}

/// The indented listing of a sequence of statements: the indentation,
/// then each statement's listing.
pub open spec fn listing_of_block(b: Seq<Statement>, indentation: nat) -> Seq<char>
    decreases b,
{
    if b.len() == 0 {
        spaces(indentation)
    } else {
        listing_of_block(b.drop_last(), indentation) + listing_of(b.last(), indentation)
    }
}

/// Relies on String::push: appends the char at the end of the string.
#[verifier::external_body]
fn push_char(s: &mut String, c: char)
    ensures
        final(s)@ == old(s)@.push(c),
{
    s.push(c);
}

fn push_spaces(out: &mut String, n: usize)
    ensures
        final(out)@ == old(out)@ + spaces(n as nat),
{
    let mut i: usize = 0;
    while i < n
        invariant
            i <= n,
            out@ == old(out)@ + spaces(i as nat),
        decreases n - i,
    {
        push_char(out, ' ');
        i = i + 1;
        assert(out@ =~= old(out)@ + spaces(i as nat));
    }
}

impl Statement {
    /// Reads one byte of source: a plain instruction, or the reason it is none.
    pub fn try_from(value: u8) -> (r: Result<Statement, StatementConversionError>)
        ensures
            plain_statement_of(value) is Some <==> r is Ok,
            r is Ok ==> Some(r->Ok_0) == plain_statement_of(value),
            r == Err::<Statement, _>(StatementConversionError::OpeningLoop) <==> value == '[' as u8,
            r == Err::<Statement, _>(StatementConversionError::ClosingLoop) <==> value == ']' as u8,
            r == Err::<Statement, _>(StatementConversionError::InsignificantChar) <==> !is_significant(value),
    {
        if value == '>' as u8 {
            Ok(Statement::IncrementPointer)
        } else if value == '<' as u8 {
            Ok(Statement::DecrementPointer)
        } else if value == '+' as u8 {
            Ok(Statement::IncrementValue)
        } else if value == '-' as u8 {
            Ok(Statement::DecrementValue)
        } else if value == '.' as u8 {
            Ok(Statement::PutChar)
        } else if value == ',' as u8 {
            Ok(Statement::GetChar)
        } else if value == '[' as u8 {
            Err(StatementConversionError::OpeningLoop)
        } else if value == ']' as u8 {
            Err(StatementConversionError::ClosingLoop)
        } else {
            Err(StatementConversionError::InsignificantChar)
        }
    }
}

/// A parsed program: the top-level sequence of statements.
pub struct Program {
    statements: Vec<Statement>,
}

impl View for Program {
    type V = Seq<Statement>;

    closed spec fn view(&self) -> Seq<Statement> {
        self.statements@
    }
}

fn write_block(statements: &Vec<Statement>, indentation: usize, out: &mut String)
    requires
        indentation + 2 * nesting_of_block(statements@) <= usize::MAX,
    ensures
        final(out)@ == old(out)@ + listing_of_block(statements@, indentation as nat),
    decreases statements@, 1nat,
{
    push_spaces(out, indentation);
    let mut i: usize = 0;
    while i < statements.len()
        invariant
            i <= statements@.len(),
            indentation + 2 * nesting_of_block(statements@) <= usize::MAX,
            out@ == old(out)@ + listing_of_block(statements@.subrange(0, i as int), indentation as nat),
        decreases statements@.len() - i,
    {
        proof {
            lemma_nesting_of_element(statements@, i as int);
        }
        write_statement(&statements[i], indentation, out);
        proof {
            let s = statements@.subrange(0, i + 1);
            assert(s.drop_last() =~= statements@.subrange(0, i as int));
        }
        i = i + 1;
    }
    assert(statements@.subrange(0, i as int) =~= statements@);
}

fn write_statement(statement: &Statement, indentation: usize, out: &mut String)
    requires
        indentation + 2 * nesting_of(*statement) <= usize::MAX,
    ensures
        final(out)@ == old(out)@ + listing_of(*statement, indentation as nat),
    decreases statement, 0nat,
{
    match statement {
        Statement::IncrementPointer => push_char(out, '>'),
        Statement::DecrementPointer => push_char(out, '<'),
        Statement::IncrementValue => push_char(out, '+'),
        Statement::DecrementValue => push_char(out, '-'),
        Statement::PutChar => push_char(out, '.'),
        Statement::GetChar => push_char(out, ','),
        Statement::Loop(body) => {
            push_char(out, '[');
            push_char(out, '\n');
            write_block(body, indentation + 2, out);
            push_char(out, '\n');
            push_spaces(out, indentation);
            push_char(out, ']');
            push_char(out, '\n');
        },
    }
    assert(out@ =~= old(out)@ + listing_of(*statement, indentation as nat));
}

proof fn lemma_nesting_of_element(b: Seq<Statement>, i: int)
    requires
        0 <= i < b.len(),
    ensures
        nesting_of(b[i]) <= nesting_of_block(b),
    decreases b.len(),
{
    if i < b.len() - 1 {
        lemma_nesting_of_element(b.drop_last(), i);
    }
}

impl Program {
    pub fn new(statements: Vec<Statement>) -> (r: Program)
        ensures
            r@ == statements@,
    {
        Program { statements }
    }

    pub fn statements(&self) -> (r: &Vec<Statement>)
        ensures
            r@ == self@,
    {
        &self.statements
    }

    /// The program's listing, every line of it indented by `indentation`.
    pub fn fmt_indented(&self, indentation: usize) -> (r: String)
        requires
            indentation + 2 * nesting_of_block(self@) <= usize::MAX,
        ensures
            r@ == listing_of_block(self@, indentation as nat),
    {
        let mut out = String::new();
        write_block(&self.statements, indentation, &mut out);
        assert(out@ =~= listing_of_block(self@, indentation as nat));
        out
    }

    /// The program's listing without indentation.
    pub fn to_string(&self) -> (r: String)
        requires
            2 * nesting_of_block(self@) <= usize::MAX,
        ensures
            r@ == listing_of_block(self@, 0),
    {
        self.fmt_indented(0)
    }
}

} // verus!
