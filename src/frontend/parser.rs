use crate::frontend::tokenizer::Token;
use crate::ir::{lemma_instruction_view, CodeBlock, Instr, Instruction, Program};
use vstd::prelude::*;

verus! {

/// Builds the instruction tree of a token sequence, resolving loops with an
/// explicit stack of the blocks that enclosing loops suspended.
pub struct BrainfuckParser;

/// The ways a token sequence can fail to have a loop structure.
#[derive(Debug, PartialEq, Eq)]
pub enum ParseError {
    UnmatchedStartOfLoop,
    UnmatchedEndOfLoop,
}

/// How far a token moves the loop nesting: in by one, out by one, or not at all.
pub open spec fn nesting_step(t: Token) -> int {
    match t {
        Token::LoopLeft => 1,
        Token::LoopRight => -1,
        _ => 0,
    }
}

/// The loop nesting after a token sequence: opened loops minus closed ones.
pub open spec fn nesting(s: Seq<Token>) -> int
    decreases s.len(),
{
    if s.len() == 0 {
        0
    } else {
        nesting(s.drop_last()) + nesting_step(s.last())
    }
}

/// Some prefix closes a loop that was never opened.
pub open spec fn closes_unopened(s: Seq<Token>) -> bool {
    exists|k: int| 0 <= k <= s.len() && #[trigger] nesting(s.take(k)) < 0
}

/// Every loop end closes an open loop, and every loop is closed.
pub open spec fn balanced(s: Seq<Token>) -> bool {
    !closes_unopened(s) && nesting(s) == 0
}

/// The deepest nesting reached by any prefix of the sequence.
pub open spec fn max_nesting(s: Seq<Token>) -> int
    decreases s.len(),
{
    if s.len() == 0 {
        0
    } else {
        let d = nesting(s);
        let m = max_nesting(s.drop_last());
        if d > m {
            d
        } else {
            m
        }
    }
}

/// The tokens that a block of instructions is written as, one instruction after another.
pub open spec fn written(b: Seq<Instr>) -> Seq<Token>
    decreases b,
{
    if b.len() == 0 {
        Seq::empty()
    } else {
        written(b.drop_last()) + written_one(b.last())
    }
}

/// The tokens that one instruction is written as: a step by a positive amount with
/// the rightward or increasing symbol, any other step with the opposite one, and a
/// loop as its body between the two loop delimiters.
pub open spec fn written_one(i: Instr) -> Seq<Token>
    decreases i,
{
    match i {
        Instr::Move(n) => seq![if n > 0 { Token::MoveRight } else { Token::MoveLeft }],
        Instr::Add(n) => seq![if n > 0 { Token::Increase } else { Token::Decrease }],
        Instr::Output => seq![Token::Output],
        Instr::Input => seq![Token::Input],
        Instr::Loop(body) => seq![Token::LoopLeft] + written(body) + seq![Token::LoopRight],
    }
}

/// Every move and add in the block, loop bodies included, is by one step, up or down.
pub open spec fn unit_steps(b: Seq<Instr>) -> bool
    decreases b,
{
    if b.len() == 0 {
        true
    } else {
        unit_steps(b.drop_last()) && unit_step(b.last())
    }
}

/// A move or add is by one step; a loop's body has unit steps.
pub open spec fn unit_step(i: Instr) -> bool
    decreases i,
{
    match i {
        Instr::Move(n) => n == 1 || n == -1,
        Instr::Add(n) => n == 1 || n == -1,
        Instr::Loop(body) => unit_steps(body),
        _ => true,
    }
}

/// The depth of loop nesting in a block: zero without loops.
pub open spec fn block_depth(b: Seq<Instr>) -> int
    decreases b,
{
    if b.len() == 0 {
        0
    } else {
        let m = block_depth(b.drop_last());
        let d = instr_depth(b.last());
        if d > m {
            d
        } else {
            m
        }
    }
}

/// The depth of loop nesting in one instruction: one more than its body for a loop.
pub open spec fn instr_depth(i: Instr) -> int
    decreases i,
{
    match i {
        Instr::Loop(body) => 1 + block_depth(body),
        _ => 0,
    }
}

/// The tokens of the blocks that wait on the stack, each followed by the loop
/// start that suspended it.
pub open spec fn opened(stack: Seq<Seq<Instr>>) -> Seq<Token>
    decreases stack.len(),
{
    if stack.len() == 0 {
        Seq::empty()
    } else {
        opened(stack.drop_last()) + written(stack.last()).push(Token::LoopLeft)
    }
}

/// The models of the blocks on the stack, bottom first.
spec fn suspended(stack: Seq<CodeBlock>) -> Seq<Seq<Instr>> {
    stack.map_values(|b: CodeBlock| b@)
}

/// A block is the parse of a token sequence: it is written as exactly those
/// tokens, with unit steps.
pub open spec fn parse_of(b: Seq<Instr>, tokens: Seq<Token>) -> bool {
    unit_steps(b) && written(b) == tokens
}

/// Appending an instruction appends what it is written as, and keeps unit steps
/// exactly when the instruction has them.
proof fn lemma_written_push(b: Seq<Instr>, x: Instr)
    ensures
        written(b.push(x)) == written(b) + written_one(x),
        unit_steps(b.push(x)) == (unit_steps(b) && unit_step(x)),
        block_depth(b.push(x)) == if instr_depth(x) > block_depth(b) {
            instr_depth(x)
        } else {
            block_depth(b)
        },
{
    assert(b.push(x).drop_last() == b);
}

proof fn lemma_nesting_concat(a: Seq<Token>, b: Seq<Token>)
    ensures
        nesting(a + b) == nesting(a) + nesting(b),
    decreases b.len(),
{
    if b.len() == 0 {
        assert(a + b == a);
    } else {
        lemma_nesting_concat(a, b.drop_last());
        assert((a + b).drop_last() == a + b.drop_last());
    }
}

proof fn lemma_max_nesting_bounds(a: Seq<Token>)
    ensures
        max_nesting(a) >= 0,
        max_nesting(a) >= nesting(a),
    decreases a.len(),
{
    if a.len() > 0 {
        lemma_max_nesting_bounds(a.drop_last());
    }
}

proof fn lemma_max_nesting_concat(a: Seq<Token>, b: Seq<Token>)
    ensures
        max_nesting(a + b) == if max_nesting(a) > nesting(a) + max_nesting(b) {
            max_nesting(a)
        } else {
            nesting(a) + max_nesting(b)
        },
    decreases b.len(),
{
    lemma_max_nesting_bounds(a);
    if b.len() == 0 {
        assert(a + b == a);
    } else {
        lemma_max_nesting_concat(a, b.drop_last());
        lemma_nesting_concat(a, b);
        assert((a + b).drop_last() == a + b.drop_last());
    }
}

proof fn lemma_single_token(t: Token)
    ensures
        nesting(seq![t]) == nesting_step(t),
        max_nesting(seq![t]) == if nesting_step(t) > 0 {
            nesting_step(t)
        } else {
            0
        },
{
    let s = seq![t];
    assert(s.drop_last() == Seq::<Token>::empty());
    assert(s.last() == t);
    assert(nesting(s.drop_last()) == 0);
    assert(max_nesting(s.drop_last()) == 0);
}

/// The tokens that a block is written as close every loop they open, and the
/// deepest nesting that any prefix of them reaches is the depth of the block.
pub proof fn lemma_depth_matches_nesting(b: Seq<Instr>)
    ensures
        nesting(written(b)) == 0,
        max_nesting(written(b)) == block_depth(b),
    decreases b,
{
    if b.len() > 0 {
        lemma_depth_matches_nesting(b.drop_last());
        lemma_instr_depth_matches_nesting(b.last());
        lemma_nesting_concat(written(b.drop_last()), written_one(b.last()));
        lemma_max_nesting_concat(written(b.drop_last()), written_one(b.last()));
    }
}

/// One instruction's tokens close every loop they open, and reach its depth.
pub proof fn lemma_instr_depth_matches_nesting(i: Instr)
    ensures
        nesting(written_one(i)) == 0,
        max_nesting(written_one(i)) == instr_depth(i),
    decreases i,
{
    match i {
        Instr::Loop(body) => {
            let w = written(body);
            let start = seq![Token::LoopLeft];
            let close = seq![Token::LoopRight];
            lemma_depth_matches_nesting(body);
            lemma_max_nesting_bounds(w);
            lemma_single_token(Token::LoopLeft);
            lemma_single_token(Token::LoopRight);
            lemma_nesting_concat(start, w);
            lemma_nesting_concat(start + w, close);
            lemma_max_nesting_concat(start, w);
            lemma_max_nesting_concat(start + w, close);
        },
        _ => {
            lemma_single_token(written_one(i)[0]);
            assert(written_one(i) == seq![written_one(i)[0]]);
        },
    }
}

/// The tokens that a block is written as are balanced.
pub proof fn lemma_written_balanced(b: Seq<Instr>)
    ensures
        balanced(written(b)),
    decreases b,
{
    lemma_depth_matches_nesting(b);
    if b.len() > 0 {
        let w0 = written(b.drop_last());
        let p = written_one(b.last());
        lemma_written_balanced(b.drop_last());
        lemma_instr_written_balanced(b.last());
        assert forall|k: int| 0 <= k <= w0.len() + p.len() implies nesting(
            #[trigger] (w0 + p).take(k),
        ) >= 0 by {
            if k <= w0.len() {
                assert((w0 + p).take(k) == w0.take(k));
            } else {
                assert((w0 + p).take(k) == w0 + p.take(k - w0.len()));
                lemma_nesting_concat(w0, p.take(k - w0.len()));
            }
        }
    }
}

/// The tokens that one instruction is written as are balanced.
pub proof fn lemma_instr_written_balanced(i: Instr)
    ensures
        balanced(written_one(i)),
    decreases i,
{
    lemma_instr_depth_matches_nesting(i);
    let p = written_one(i);
    match i {
        Instr::Loop(body) => {
            let w = written(body);
            let start = seq![Token::LoopLeft];
            lemma_written_balanced(body);
            lemma_single_token(Token::LoopLeft);
            assert forall|k: int| 0 <= k <= p.len() implies nesting(#[trigger] p.take(k)) >= 0 by {
                if k == 0 {
                    assert(p.take(k) == Seq::<Token>::empty());
                } else if k <= w.len() + 1 {
                    assert(p.take(k) == start + w.take(k - 1));
                    lemma_nesting_concat(start, w.take(k - 1));
                } else {
                    assert(p.take(k) == p);
                }
            }
        },
        _ => {
            lemma_single_token(p[0]);
            assert(p == seq![p[0]]);
            assert forall|k: int| 0 <= k <= p.len() implies nesting(#[trigger] p.take(k)) >= 0 by {
                if k == 0 {
                    assert(p.take(k) == Seq::<Token>::empty());
                } else {
                    assert(p.take(k) == p);
                }
            }
        },
    }
}

/// Where two balanced sequences each follow a loop start at the end of one common
/// sequence, the first cannot be the shorter.
proof fn lemma_no_shorter_body(pa: Seq<Token>, wa: Seq<Token>, pb: Seq<Token>, wb: Seq<Token>)
    requires
        pa + seq![Token::LoopLeft] + wa == pb + seq![Token::LoopLeft] + wb,
        balanced(wa),
        balanced(wb),
    ensures
        wa.len() >= wb.len(),
{
    if wa.len() < wb.len() {
        let t = pa + seq![Token::LoopLeft] + wa;
        let n = t.len() as int;
        let m = wb.len() - wa.len() - 1;
        assert(t.subrange(n - wa.len(), n) == wa);
        assert(t.subrange(n - wb.len(), n) == wb);
        assert(t[n - wa.len() - 1] == Token::LoopLeft);
        assert(wb == wb.take(m) + (seq![Token::LoopLeft] + wa));
        lemma_single_token(Token::LoopLeft);
        lemma_nesting_concat(seq![Token::LoopLeft], wa);
        lemma_nesting_concat(wb.take(m), seq![Token::LoopLeft] + wa);
        assert(nesting(wb.take(m)) < 0);
    }
}

/// A move or add by one step, or an output or input, is fixed by its token.
proof fn lemma_step_determined(x: Instr, y: Instr)
    requires
        unit_step(x),
        unit_step(y),
        !(x is Loop),
        !(y is Loop),
        written_one(x) == written_one(y),
    ensures
        x == y,
{
    let t = written_one(x)[0];
    assert(written_one(y)[0] == t);
    match x {
        Instr::Move(n) => match y {
            Instr::Move(m) => assert(n == m),
            _ => {},
        },
        Instr::Add(n) => match y {
            Instr::Add(m) => assert(n == m),
            _ => {},
        },
        _ => {},
    }
}

/// Two loops whose tokens end the same sequence after the same kind of prefix: their
/// bodies are written alike, and so are the blocks before them.
proof fn lemma_loops_split_alike(a0: Seq<Instr>, ba: Seq<Instr>, b0: Seq<Instr>, bb: Seq<Instr>)
    requires
        written(a0) + written_one(Instr::Loop(ba)) == written(b0) + written_one(Instr::Loop(bb)),
    ensures
        written(ba) == written(bb),
        written(a0) == written(b0),
{
    let (wa, wb) = (written(ba), written(bb));
    let tokens = written(a0) + written_one(Instr::Loop(ba));
    lemma_written_balanced(ba);
    lemma_written_balanced(bb);
    let t = tokens.drop_last();
    assert(t == written(a0) + seq![Token::LoopLeft] + wa);
    assert(t == written(b0) + seq![Token::LoopLeft] + wb);
    lemma_no_shorter_body(written(a0), wa, written(b0), wb);
    lemma_no_shorter_body(written(b0), wb, written(a0), wa);
    assert(wa == t.subrange(t.len() - wa.len(), t.len() as int));
    assert(wb == t.subrange(t.len() - wb.len(), t.len() as int));
    assert(written(a0) == tokens.take(written(a0).len() as int));
    assert(written(b0) == tokens.take(written(b0).len() as int));
}

/// A token sequence has at most one parse: two blocks with unit steps that are
/// written as the same tokens are the same tree. Parsing the same tokens again
/// therefore gives the same program.
pub proof fn lemma_parse_unique(a: Seq<Instr>, b: Seq<Instr>, tokens: Seq<Token>)
    requires
        parse_of(a, tokens),
        parse_of(b, tokens),
    ensures
        a == b,
    decreases tokens.len(),
{
    if a.len() == 0 || b.len() == 0 {
        if a.len() > 0 {
            assert(written_one(a.last()).len() > 0);
            assert(tokens.len() > 0);
        }
        if b.len() > 0 {
            assert(written_one(b.last()).len() > 0);
            assert(tokens.len() > 0);
        }
        assert(a == b);
    } else {
        let (a0, xa) = (a.drop_last(), a.last());
        let (b0, xb) = (b.drop_last(), b.last());
        let (pa, pb) = (written_one(xa), written_one(xb));
        assert(unit_steps(a0) && unit_step(xa));
        assert(unit_steps(b0) && unit_step(xb));
        let n = tokens.len();
        assert(tokens == written(a0) + pa);
        assert(tokens == written(b0) + pb);
        assert(tokens[n - 1] == pa[pa.len() - 1]);
        assert(tokens[n - 1] == pb[pb.len() - 1]);
        if xa is Loop && xb is Loop {
            let ba = xa->Loop_0;
            let bb = xb->Loop_0;
            lemma_loops_split_alike(a0, ba, b0, bb);
            assert(written(ba).len() < n);
            lemma_parse_unique(ba, bb, written(ba));
            lemma_parse_unique(a0, b0, written(a0));
        } else if xa is Loop {
            assert(pb == seq![pb[0]]);
        } else if xb is Loop {
            assert(pa == seq![pa[0]]);
        } else {
            assert(pa == seq![pa[0]]);
            assert(pb == seq![pb[0]]);
            lemma_step_determined(xa, xb);
            assert(written(a0) == tokens.drop_last());
            assert(written(b0) == tokens.drop_last());
            lemma_parse_unique(a0, b0, tokens.drop_last());
        }
        assert(a == a0.push(xa));
        assert(b == b0.push(xb));
    }
}

impl BrainfuckParser {
    /// The instruction that a token other than a loop delimiter stands for.
    fn step_instruction(token: Token) -> (r: Instruction)
        requires
            nesting_step(token) == 0,
        ensures
            written_one(r@) == seq![token],
            unit_step(r@),
    {
        let r = match token {
            Token::MoveRight => Instruction::Move(1),
            Token::MoveLeft => Instruction::Move(-1),
            Token::Increase => Instruction::Add(1),
            Token::Decrease => Instruction::Add(-1),
            Token::Output => Instruction::Output,
            _ => Instruction::Input,
        };
        proof {
            lemma_instruction_view(r);
        }
        r
    }

    /// Parses tokens into a program: succeeds exactly on balanced sequences, fails
    /// at the first loop end that closes nothing, and otherwise fails at the end of
    /// input when some loop stays open.
    pub fn parse(tokens: Vec<Token>) -> (r: Result<Program, ParseError>)
        ensures
            r is Ok <==> balanced(tokens@),
            match r {
                Ok(p) => parse_of(p@, tokens@) && block_depth(p@) == max_nesting(tokens@),
                Err(ParseError::UnmatchedEndOfLoop) => closes_unopened(tokens@),
                Err(ParseError::UnmatchedStartOfLoop) => !closes_unopened(tokens@) && nesting(
                    tokens@,
                ) > 0,
            },
    {
        let mut loop_stack: Vec<CodeBlock> = Vec::new();
        let mut current_block = CodeBlock::new();
        let n: usize = tokens.len();
        let mut current_pos: usize = 0;
        while current_pos < n
            invariant
                n == tokens@.len(),
                current_pos <= n,
                forall|k: int| 0 <= k <= current_pos ==> #[trigger] nesting(tokens@.take(k)) >= 0,
                nesting(tokens@.take(current_pos as int)) == loop_stack@.len(),
                opened(suspended(loop_stack@)) + written(current_block@)
                    == tokens@.take(current_pos as int),
                forall|j: int|
                    0 <= j < loop_stack@.len() ==> unit_steps(#[trigger] loop_stack@[j]@),
                unit_steps(current_block@),
            decreases n - current_pos,
        {
            let token = tokens[current_pos];
            let ghost before = tokens@.take(current_pos as int);
            let ghost stack_before = suspended(loop_stack@);
            let ghost block_before = current_block@;
            assert(tokens@.take(current_pos + 1) == before.push(token));
            assert(tokens@.take(current_pos + 1).drop_last() == before);
            current_pos += 1;
            match token {
                Token::LoopLeft => {
                    loop_stack.push(current_block);
                    current_block = CodeBlock::new();
                    proof {
                        let stack = suspended(loop_stack@);
                        assert(stack == stack_before.push(block_before));
                        assert(stack.drop_last() == stack_before);
                        assert(written(current_block@) == Seq::<Token>::empty());
                        assert(opened(stack) + written(current_block@) == before.push(token));
                    }
                }
                Token::LoopRight => {
                    let ghost old_stack = loop_stack@;
                    if let Some(mut upper_block) = loop_stack.pop() {
                        let ghost upper = upper_block@;
                        let inst = Instruction::Loop(current_block);
                        proof {
                            lemma_instruction_view(inst);
                        }
                        upper_block.add_instruction(inst);
                        current_block = upper_block;
                        proof {
                            let stack = suspended(loop_stack@);
                            assert(stack_before == stack.push(upper));
                            assert(stack_before.drop_last() == stack);
                            let x = Instr::Loop(block_before);
                            assert(current_block@ == upper.push(x));
                            lemma_written_push(upper, x);
                            assert(opened(stack_before) == opened(stack) + written(upper).push(
                                Token::LoopLeft,
                            ));
                            assert(opened(stack) + written(current_block@) == before.push(token));
                            assert forall|j: int| 0 <= j < loop_stack@.len() implies unit_steps(
                                #[trigger] loop_stack@[j]@,
                            ) by {
                                assert(loop_stack@[j] == old_stack[j]);
                            }
                        }
                    } else {
                        proof {
                            assert(nesting(tokens@.take(current_pos as int)) < 0);
                        }
                        return Err(ParseError::UnmatchedEndOfLoop);
                    }
                }
                _ => {
                    let inst = Self::step_instruction(token);
                    let ghost x = inst@;
                    current_block.add_instruction(inst);
                    proof {
                        lemma_written_push(block_before, x);
                        assert(opened(stack_before) + written(current_block@) == before.push(token));
                    }
                }
            }
        }
        assert(tokens@.take(n as int) == tokens@);
        if !loop_stack.is_empty() {
            return Err(ParseError::UnmatchedStartOfLoop);
        }
        proof {
            lemma_depth_matches_nesting(current_block@);
        }
        Ok(Program::new(current_block))
    }
}

} // verus!
