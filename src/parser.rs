use vstd::prelude::*;

use crate::program::{
    code_of,
    code_of_block,
    is_significant,
    plain_statement_of,
    Program,
    Statement,
    StatementConversionError,
};

verus! {

#[derive(PartialEq, Eq, Structural, Debug, Clone, Copy)]
pub enum ParserError {
    ClosingLoop,
    LoopNotClosed,
    UnexpectedChar(u8),
    EndOfSource,
}

/// What a byte adds to the loop depth: one for `[`, minus one for `]`.
pub open spec fn depth_step(b: u8) -> int {
    if b == '[' as u8 {
        1
    } else if b == ']' as u8 {
        -1
    } else {
        0
    }
}

/// The loop depth that `s[i..j]` adds: opened loops minus closed ones.
pub open spec fn balance(s: Seq<u8>, i: int, j: int) -> int
    decreases j - i,
{
    if j <= i {
        0
    } else {
        balance(s, i, j - 1) + depth_step(s[j - 1])
    }
}

/// The significant bytes of `s[i..j]`, in order.
pub open spec fn significant(s: Seq<u8>, i: int, j: int) -> Seq<u8>
    decreases j - i,
{
    if j <= i {
        Seq::empty()
    } else if is_significant(s[j - 1]) {
        significant(s, i, j - 1).push(s[j - 1])
    } else {
        significant(s, i, j - 1)
    }
}

/// `s[i..j]` never closes a loop it did not open, and closes all it opens;
/// its significant bytes are `code`.
pub open spec fn spans(s: Seq<u8>, i: int, j: int, code: Seq<u8>) -> bool {
    &&& 0 <= i <= j <= s.len()
    &&& code == significant(s, i, j)
    &&& forall|k: int| i <= k <= j ==> balance(s, i, k) >= 0
    &&& balance(s, i, j) == 0
}

/// From `i` to the end, `s` never closes a loop it did not open, and leaves
/// at least one open.
pub open spec fn unclosed_from(s: Seq<u8>, i: int) -> bool {
    &&& forall|k: int| i <= k <= s.len() ==> balance(s, i, k) >= 0
    &&& balance(s, i, s.len() as int) > 0
}

/// Some prefix of `s` closes a loop that it did not open.
pub open spec fn overclosed(s: Seq<u8>) -> bool {
    exists|k: int| 0 <= k <= s.len() && balance(s, 0, k) < 0
}

/// Every bracket of `s` has its partner.
pub open spec fn balanced(s: Seq<u8>) -> bool {
    &&& forall|k: int| 0 <= k <= s.len() ==> balance(s, 0, k) >= 0
    &&& balance(s, 0, s.len() as int) == 0
}

/// The first index from `i` on that holds a significant byte, or the
/// length of `s` when there is none.
pub open spec fn first_significant(s: Seq<u8>, i: int) -> int
    decreases s.len() - i,
{
    if i >= s.len() {
        s.len() as int
    } else if is_significant(s[i]) {
        i
    } else {
        first_significant(s, i + 1)
    }
}

/// The `[` at `i` is matched by the `]` at `j - 1`: the depth that `s[i..k]`
/// adds stays positive until it returns to zero at `j`.
pub open spec fn closes_at(s: Seq<u8>, i: int, j: int) -> bool {
    &&& i < j <= s.len()
    &&& balance(s, i, j) == 0
    &&& forall|k: int| i < k < j ==> balance(s, i, k) >= 1
}

/// The `[` at `i` has no matching `]`.
pub open spec fn never_closed(s: Seq<u8>, i: int) -> bool {
    forall|k: int| i < k <= s.len() ==> balance(s, i, k) >= 1
}

proof fn lemma_skip_insignificant(s: Seq<u8>, i: int, m: int)
    requires
        0 <= i <= m <= s.len(),
        forall|k: int| i <= k < m ==> !is_significant(#[trigger] s[k]),
    ensures
        first_significant(s, i) == first_significant(s, m),
    decreases m - i,
{
    if i < m {
        lemma_skip_insignificant(s, i + 1, m);
    }
}

proof fn lemma_split(s: Seq<u8>, i: int, m: int, k: int)
    requires
        i <= m <= k,
    ensures
        balance(s, i, k) == balance(s, i, m) + balance(s, m, k),
        significant(s, i, k) == significant(s, i, m) + significant(s, m, k),
    decreases k - m,
{
    if k > m {
        lemma_split(s, i, m, k - 1);
        assert(significant(s, i, k) =~= significant(s, i, m) + significant(s, m, k));
    } else {
        assert(significant(s, i, m) + significant(s, m, k) =~= significant(s, i, m));
    }
}

/// Joins a stretch that adds nothing to a stretch that spans.
proof fn lemma_spans_join(s: Seq<u8>, i: int, m: int, j: int, a: Seq<u8>, b: Seq<u8>)
    requires
        spans(s, i, m, a),
        spans(s, m, j, b),
    ensures
        spans(s, i, j, a + b),
{
    lemma_split(s, i, m, j);
    assert forall|k: int| i <= k <= j implies balance(s, i, k) >= 0 by {
        if k > m {
            lemma_split(s, i, m, k);
        }
    }
}

proof fn lemma_unclosed_join(s: Seq<u8>, i: int, m: int, a: Seq<u8>)
    requires
        spans(s, i, m, a),
        unclosed_from(s, m),
    ensures
        unclosed_from(s, i),
{
    lemma_split(s, i, m, s.len() as int);
    assert forall|k: int| i <= k <= s.len() implies balance(s, i, k) >= 0 by {
        if k > m {
            lemma_split(s, i, m, k);
        }
    }
}

/// A recursive-descent reader of source bytes into a program.
pub struct Parser<'a> {
    source: &'a [u8],
    index: usize,
}

impl<'a> Parser<'a> {
    pub closed spec fn text(&self) -> Seq<u8> {
        self.source@
    }

    pub closed spec fn pos(&self) -> int {
        self.index as int
    }

    pub open spec fn wf(&self) -> bool {
        0 <= self.pos() <= self.text().len()
    }

    pub fn new(source: &'a [u8]) -> (r: Parser<'a>)
        ensures
            r.text() == source@,
            r.pos() == 0,
    {
        Parser { source, index: 0 }
    }

    /// Reads the whole source into a program.
    pub fn parse(self) -> (r: Result<Program, ParserError>)
        requires
            self.pos() == 0,
        ensures
            r is Ok <==> balanced(self.text()),
            r is Ok ==> code_of_block(r->Ok_0@) == significant(self.text(), 0, self.text().len() as int),
            r is Err && r->Err_0 is UnexpectedChar <==> overclosed(self.text()),
            r is Err && r->Err_0 is UnexpectedChar ==> r->Err_0->UnexpectedChar_0 == ']' as u8,
            r == Err::<Program, ParserError>(ParserError::LoopNotClosed) <==> unclosed_from(self.text(), 0),
            r != Err::<Program, ParserError>(ParserError::ClosingLoop),
            r != Err::<Program, ParserError>(ParserError::EndOfSource),
    {
        let mut parser = self;
        let block = parser.block();
        match block {
            Ok(statements) => {
                if parser.is_at_end() {
                    Ok(Program::new(statements))
                } else {
                    let c = parser.current();
                    proof {
                        let s = parser.text();
                        let j = parser.pos();
                        assert(balance(s, 0, j + 1) == balance(s, 0, j) + depth_step(s[j]));
                        assert(balance(s, 0, j + 1) < 0);
                    }
                    Err(ParserError::UnexpectedChar(c))
                }
            },
            Err(error) => Err(error),
        }
    }

    /// Reads statements until the end of the source or an unmatched `]`,
    /// which is left unread.
    pub fn block(&mut self) -> (r: Result<Vec<Statement>, ParserError>)
        requires
            old(self).wf(),
        ensures
            final(self).wf(),
            final(self).text() == old(self).text(),
            r is Ok ==> spans(old(self).text(), old(self).pos(), final(self).pos(), code_of_block(r->Ok_0@)),
            r is Ok ==> final(self).pos() == final(self).text().len() || final(self).text()[final(self).pos()] == ']' as u8,
            r is Err ==> r->Err_0 == ParserError::LoopNotClosed && unclosed_from(old(self).text(), old(self).pos()),
        decreases old(self).text().len() - old(self).pos(), 2nat,
    {
        let ghost s = self.text();
        let ghost i0 = self.pos();
        let mut statements: Vec<Statement> = Vec::new();
        loop
            invariant
                self.wf(),
                self.text() == s,
                s == old(self).text(),
                i0 == old(self).pos(),
                i0 <= self.pos(),
                spans(s, i0, self.pos(), code_of_block(statements@)),
            ensures
                self.pos() == s.len() || s[self.pos()] == ']' as u8,
            decreases s.len() - self.pos(),
        {
            let ghost m = self.pos();
            match self.statement() {
                Ok(statement) => {
                    proof {
                        lemma_spans_join(s, i0, m, self.pos(), code_of_block(statements@), code_of(statement));
                        assert(statements@.push(statement).drop_last() =~= statements@);
                    }
                    statements.push(statement);
                },
                Err(ParserError::ClosingLoop) => {
                    proof {
                        lemma_spans_join(s, i0, m, self.pos(), code_of_block(statements@), Seq::empty());
                        assert(code_of_block(statements@) + Seq::<u8>::empty() =~= code_of_block(statements@));
                    }
                    break;
                },
                Err(ParserError::EndOfSource) => {
                    proof {
                        lemma_spans_join(s, i0, m, self.pos(), code_of_block(statements@), Seq::empty());
                        assert(code_of_block(statements@) + Seq::<u8>::empty() =~= code_of_block(statements@));
                    }
                    break;
                },
                Err(error) => {
                    proof {
                        lemma_unclosed_join(s, i0, m, code_of_block(statements@));
                    }
                    return Err(error);
                },
            }
        }
        Ok(statements)
    }

    /// Skips insignificant bytes and reads one statement. An unmatched `]`
    /// is left unread and reported as `ClosingLoop`; the end of the source
    /// as `EndOfSource`.
    pub fn statement(&mut self) -> (r: Result<Statement, ParserError>)
        requires
            old(self).wf(),
        ensures
            final(self).wf(),
            final(self).text() == old(self).text(),
            r is Ok ==> old(self).pos() < final(self).pos(),
            r is Ok ==> spans(old(self).text(), old(self).pos(), final(self).pos(), code_of(r->Ok_0)),
            r == Err::<Statement, ParserError>(ParserError::ClosingLoop) ==> {
                &&& spans(old(self).text(), old(self).pos(), final(self).pos(), Seq::empty())
                &&& final(self).pos() < final(self).text().len()
                &&& final(self).text()[final(self).pos()] == ']' as u8
            },
            r == Err::<Statement, ParserError>(ParserError::EndOfSource) ==> {
                &&& spans(old(self).text(), old(self).pos(), final(self).pos(), Seq::empty())
                &&& final(self).pos() == final(self).text().len()
            },
            r == Err::<Statement, ParserError>(ParserError::LoopNotClosed) ==> unclosed_from(old(self).text(), old(self).pos()),
            !(r is Err && r->Err_0 is UnexpectedChar),
            ({
                let s = old(self).text();
                let j = first_significant(s, old(self).pos());
                &&& j == s.len() ==> r == Err::<Statement, ParserError>(ParserError::EndOfSource)
                &&& j < s.len() && s[j] == ']' as u8 ==> {
                    &&& r == Err::<Statement, ParserError>(ParserError::ClosingLoop)
                    &&& final(self).pos() == j
                }
                &&& j < s.len() && plain_statement_of(s[j]) is Some ==> {
                    &&& r is Ok
                    &&& Some(r->Ok_0) == plain_statement_of(s[j])
                    &&& final(self).pos() == j + 1
                }
                &&& j < s.len() && s[j] == '[' as u8 ==> {
                    &&& r is Ok ==> closes_at(s, j, final(self).pos())
                    &&& r is Err ==> r->Err_0 == ParserError::LoopNotClosed && never_closed(s, j)
                }
            }),
        decreases old(self).text().len() - old(self).pos(), 1nat,
    {
        let ghost s = self.text();
        let ghost i0 = self.pos();
        proof {
            reveal_with_fuel(significant, 2);
        }
        while !self.is_at_end()
            invariant
                self.wf(),
                self.text() == s,
                s == old(self).text(),
                i0 == old(self).pos(),
                i0 <= self.pos(),
                spans(s, i0, self.pos(), Seq::empty()),
                forall|k: int| i0 <= k < self.pos() ==> !is_significant(#[trigger] s[k]),
            decreases s.len() - self.pos(),
        {
            let ghost m = self.pos();
            proof {
                reveal_with_fuel(significant, 2);
            }
            let c = self.current();
            proof {
                lemma_skip_insignificant(s, i0, m);
            }
            match Statement::try_from(c) {
                Ok(statement) => {
                    self.advance();
                    proof {
                        assert(balance(s, m, m + 1) == balance(s, m, m) + depth_step(s[m]));
                        assert(significant(s, m, m + 1) =~= seq![c]);
                        assert forall|k: int| m <= k <= m + 1 implies balance(s, m, k) >= 0 by {}
                        lemma_spans_join(s, i0, m, m + 1, Seq::empty(), seq![c]);
                        assert(Seq::<u8>::empty() + seq![c] =~= code_of(statement));
                    }
                    return Ok(statement);
                },
                Err(StatementConversionError::InsignificantChar) => {},
                Err(StatementConversionError::OpeningLoop) => {
                    let r = self.loop_();
                    proof {
                        if r is Ok {
                            lemma_spans_join(s, i0, m, self.pos(), Seq::empty(), code_of(r->Ok_0));
                            assert(Seq::<u8>::empty() + code_of(r->Ok_0) =~= code_of(r->Ok_0));
                        } else {
                            lemma_unclosed_join(s, i0, m, Seq::empty());
                        }
                    }
                    return r;
                },
                Err(StatementConversionError::ClosingLoop) => {
                    return Err(ParserError::ClosingLoop);
                },
            }
            self.advance();
            proof {
                assert(!is_significant(s[m]));
                assert(balance(s, m, m + 1) == balance(s, m, m) + depth_step(s[m]));
                assert(significant(s, m, m + 1) =~= Seq::<u8>::empty());
                lemma_spans_join(s, i0, m, m + 1, Seq::empty(), Seq::empty());
                assert(Seq::<u8>::empty() + Seq::<u8>::empty() =~= Seq::<u8>::empty());
            }
        }
        proof {
            lemma_skip_insignificant(s, i0, s.len() as int);
        }
        Err(ParserError::EndOfSource)
    }

    /// Reads a loop, from its `[` to its matching `]`.
    pub fn loop_(&mut self) -> (r: Result<Statement, ParserError>)
        requires
            old(self).wf(),
            old(self).pos() < old(self).text().len(),
            old(self).text()[old(self).pos()] == '[' as u8,
        ensures
            final(self).wf(),
            final(self).text() == old(self).text(),
            r is Ok ==> old(self).pos() < final(self).pos(),
            r is Ok ==> spans(old(self).text(), old(self).pos(), final(self).pos(), code_of(r->Ok_0)),
            r is Err ==> r->Err_0 == ParserError::LoopNotClosed && unclosed_from(old(self).text(), old(self).pos()),
            r is Ok ==> closes_at(old(self).text(), old(self).pos(), final(self).pos()),
            r is Err ==> never_closed(old(self).text(), old(self).pos()),
        decreases old(self).text().len() - old(self).pos(), 0nat,
    {
        let ghost s = self.text();
        let ghost i = self.pos();
        proof {
            reveal_with_fuel(significant, 2);
        }
        self.advance();
        proof {
            assert(balance(s, i, i + 1) == balance(s, i, i) + depth_step(s[i]));
            assert(significant(s, i, i + 1) =~= seq!['[' as u8]);
        }
        let block = self.block();
        match block {
            Ok(statements) => {
                let ghost j = self.pos();
                if self.current() != ']' as u8 {
                    proof {
                        assert forall|k: int| i < k <= s.len() implies balance(s, i, k) >= 1 by {
                            lemma_split(s, i, i + 1, k);
                        }
                        lemma_split(s, i, i + 1, s.len() as int);
                    }
                    Err(ParserError::LoopNotClosed)
                } else {
                    self.advance();
                    proof {
                        reveal_with_fuel(significant, 2);
                        let code = code_of_block(statements@);
                        assert(balance(s, j, j + 1) == balance(s, j, j) + depth_step(s[j]));
                        assert(significant(s, j, j + 1) =~= seq![']' as u8]);
                        lemma_split(s, i, i + 1, j);
                        lemma_split(s, i, j, j + 1);
                        assert forall|k: int| i < k <= j implies balance(s, i, k) >= 1 by {
                            lemma_split(s, i, i + 1, k);
                        }
                        assert forall|k: int| i <= k <= j + 1 implies balance(s, i, k) >= 0 by {
                            if i < k <= j {
                                lemma_split(s, i, i + 1, k);
                            }
                        }
                        assert(seq!['[' as u8] + code + seq![']' as u8] =~= significant(s, i, j + 1));
                    }
                    Ok(Statement::Loop(statements))
                }
            },
            Err(error) => {
                proof {
                    assert forall|k: int| i < k <= s.len() implies balance(s, i, k) >= 1 by {
                        lemma_split(s, i, i + 1, k);
                    }
                    lemma_split(s, i, i + 1, s.len() as int);
                }
                Err(error)
            },
        }
    }

    /// The byte at the reading position, or zero at the end.
    pub fn current(&self) -> (r: u8)
        requires
            self.wf(),
        ensures
            self.pos() < self.text().len() ==> r == self.text()[self.pos()],
            self.pos() >= self.text().len() ==> r == 0,
    {
        if self.is_at_end() {
            0u8
        } else {
            self.source[self.index]
        }
    }

    pub fn advance(&mut self)
        requires
            old(self).pos() < old(self).text().len(),
        ensures
            final(self).pos() == old(self).pos() + 1,
            final(self).text() == old(self).text(),
    {
        let n = self.source.len();
        proof {
            assert(self.index < n);
        }
        self.index = self.index + 1;
    }

    pub fn is_at_end(&self) -> (r: bool)
        ensures
            r == (self.pos() >= self.text().len()),
    {
        self.index >= self.source.len()
    }
}

} // verus!
