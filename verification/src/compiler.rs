//! The single-pass bytecode compiler.
//!
//! The compiler walks the abstract syntax tree once, emitting instructions
//! into chunks.  Identifiers are resolved at compile time: the in-scope
//! local names form a stack whose index is the slot number, searched from
//! the most recent declaration backward so that shadowing works; unmatched
//! names become global loads and stores.  Forward jumps are emitted with a
//! placeholder target and patched to the next instruction index once the
//! branch body is complete.  Every function and lambda body is compiled
//! into a chunk of its own.
//!
//! Every chunk the compiler produces is well-formed: each constant
//! reference and jump target is in range (`chunk_wf`).

use crate::ast::BinaryOperator;
use crate::ast::Expression;
use crate::ast::Literal;
use crate::ast::Parameter;
use crate::ast::Program;
use crate::ast::Statement;
use crate::ast::UnaryOperator;
use crate::bytecode::Chunk;
use crate::bytecode::Instruction;
use crate::bytecode::chunk_wf;
use crate::bytecode::instruction_wf;
use crate::error::FlowError;
use crate::error::UnsupportedConstruct;
use crate::value::FlowArray;
use crate::value::FlowObject;
use crate::value::Value;
use crate::value::value_wf;
use vstd::prelude::*;

verus! {

/// Compiler state: the chunks built so far, the chunk currently being
/// emitted into, the stack of in-scope local names, and the scope depth
/// (zero at script level, positive inside a function or loop body).
pub struct Compiler {
    pub chunks: Vec<Chunk>,
    pub current_chunk: usize,
    pub locals: Vec<String>,
    pub scope_depth: usize,
}

/// All chunks are well-formed and the current chunk index is valid.
pub open spec fn compiler_wf(c: Compiler) -> bool {
    &&& c.current_chunk < c.chunks@.len()
    &&& forall|i: int| 0 <= i < c.chunks@.len() ==> chunk_wf(#[trigger] c.chunks@[i])
}

/// Two chunks with identical content.
pub open spec fn chunk_same(a: Chunk, b: Chunk) -> bool {
    &&& a.instructions@ == b.instructions@
    &&& a.constants@ == b.constants@
    &&& a.lines@ == b.lines@
    &&& a.header == b.header
}

/// How compilation steps grow the state: the current chunk keeps its
/// already-emitted instructions and constants as a prefix, other
/// pre-existing chunks are untouched, and the scope depth is restored.
pub open spec fn extends(pre: Compiler, post: Compiler) -> bool {
    &&& post.current_chunk == pre.current_chunk
    &&& post.chunks@.len() >= pre.chunks@.len()
    &&& pre.current_chunk < pre.chunks@.len()
    &&& post.current_chunk < post.chunks@.len()
    &&& forall|i: int|
        0 <= i < pre.chunks@.len() && i != pre.current_chunk ==> chunk_same(
            #[trigger] post.chunks@[i],
            pre.chunks@[i],
        )
    &&& cur_instrs(post).len() >= cur_instrs(pre).len()
    &&& cur_instrs(post).subrange(0, cur_instrs(pre).len() as int) == cur_instrs(pre)
    &&& cur_consts(post).len() >= cur_consts(pre).len()
    &&& cur_consts(post).subrange(0, cur_consts(pre).len() as int) == cur_consts(pre)
    &&& post.scope_depth == pre.scope_depth
}

/// The instructions of the chunk currently being emitted into.
pub open spec fn cur_instrs(c: Compiler) -> Seq<Instruction> {
    c.chunks@[c.current_chunk as int].instructions@
}

pub open spec fn cur_consts(c: Compiler) -> Seq<Value> {
    c.chunks@[c.current_chunk as int].constants@
}

/// An element of a preserved prefix keeps its value.
pub proof fn lemma_prefix_index<T>(a: Seq<T>, b: Seq<T>, i: int)
    requires
        b.len() >= a.len(),
        b.subrange(0, a.len() as int) == a,
        0 <= i < a.len(),
    ensures
        b[i] == a[i],
{
    assert(b.subrange(0, a.len() as int)[i] == b[i]);
}

/// Growth is reflexive.
pub proof fn lemma_extends_refl(c: Compiler)
    requires
        c.current_chunk < c.chunks@.len(),
    ensures
        extends(c, c),
{
    assert(cur_instrs(c).subrange(0, cur_instrs(c).len() as int) =~= cur_instrs(c));
    assert(cur_consts(c).subrange(0, cur_consts(c).len() as int) =~= cur_consts(c));
}

/// Growth composes.
pub proof fn lemma_extends_trans(a: Compiler, b: Compiler, c: Compiler)
    requires
        extends(a, b),
        extends(b, c),
    ensures
        extends(a, c),
{
    assert(cur_instrs(c).subrange(0, cur_instrs(a).len() as int) =~= cur_instrs(a)) by {
        assert(forall|i: int|
            0 <= i < cur_instrs(a).len() ==> cur_instrs(b).subrange(
                0,
                cur_instrs(a).len() as int,
            )[i] == #[trigger] cur_instrs(a)[i]);
        assert(forall|i: int|
            0 <= i < cur_instrs(b).len() ==> cur_instrs(c).subrange(
                0,
                cur_instrs(b).len() as int,
            )[i] == #[trigger] cur_instrs(b)[i]);
    }
    assert(cur_consts(c).subrange(0, cur_consts(a).len() as int) =~= cur_consts(a)) by {
        assert(forall|i: int|
            0 <= i < cur_consts(a).len() ==> cur_consts(b).subrange(
                0,
                cur_consts(a).len() as int,
            )[i] == #[trigger] cur_consts(a)[i]);
        assert(forall|i: int|
            0 <= i < cur_consts(b).len() ==> cur_consts(c).subrange(
                0,
                cur_consts(b).len() as int,
            )[i] == #[trigger] cur_consts(b)[i]);
    }
}

impl Compiler {
    /// A fresh compiler with a single empty script chunk.
    pub fn new() -> (r: Compiler)
        ensures
            compiler_wf(r),
            r.current_chunk == 0,
            r.chunks@.len() == 1,
            cur_instrs(r).len() == 0,
            cur_consts(r).len() == 0,
            r.locals@.len() == 0,
            r.scope_depth == 0,
    {
        let mut chunks: Vec<Chunk> = Vec::new();
        chunks.push(Chunk::new());
        Compiler { chunks, current_chunk: 0, locals: Vec::new(), scope_depth: 0 }
    }

    /// Append one instruction to the current chunk.  The instruction's
    /// own references must be in range (a jump may target at most one
    /// past the new end of the code).
    fn emit_instruction(&mut self, instruction: Instruction, line: usize)
        requires
            compiler_wf(*old(self)),
            instruction_wf(
                instruction,
                cur_consts(*old(self)).len() as int,
                cur_instrs(*old(self)).len() as int + 1,
            ),
        ensures
            compiler_wf(*final(self)),
            extends(*old(self), *final(self)),
            final(self).chunks@.len() == old(self).chunks@.len(),
            final(self).locals@ == old(self).locals@,
            cur_instrs(*final(self)) == cur_instrs(*old(self)).push(instruction),
            cur_consts(*final(self)) == cur_consts(*old(self)),
    {
        let cc = self.current_chunk;
        let ghost pre = *self;
        let mut chunk = self.chunks.remove(cc);
        chunk.write_instruction(instruction, line);
        self.chunks.insert(cc, chunk);
        proof {
            assert(self.chunks@ =~= pre.chunks@.update(
                cc as int,
                self.chunks@[cc as int],
            ));
            assert(cur_instrs(*self) =~= cur_instrs(pre).push(instruction));
            assert(cur_instrs(*self).subrange(0, cur_instrs(pre).len() as int)
                =~= cur_instrs(pre));
            assert(cur_consts(*self).subrange(0, cur_consts(pre).len() as int)
                =~= cur_consts(pre));
            assert(forall|i: int|
                0 <= i < cur_instrs(pre).len() ==> cur_instrs(*self)[i]
                    == #[trigger] cur_instrs(pre)[i]);
            assert forall|i: int|
                0 <= i < cur_instrs(*self).len() implies instruction_wf(
                #[trigger] cur_instrs(*self)[i],
                cur_consts(*self).len() as int,
                cur_instrs(*self).len() as int,
            ) by {
                if i < cur_instrs(pre).len() {
                    assert(instruction_wf(
                        cur_instrs(pre)[i],
                        cur_consts(pre).len() as int,
                        cur_instrs(pre).len() as int,
                    ));
                    lemma_instruction_wf_weaken(
                        cur_instrs(pre)[i],
                        cur_consts(pre).len() as int,
                        cur_instrs(pre).len() as int,
                        cur_consts(*self).len() as int,
                        cur_instrs(*self).len() as int,
                    );
                } else {
                    lemma_instruction_wf_weaken(
                        instruction,
                        cur_consts(pre).len() as int,
                        cur_instrs(pre).len() as int + 1,
                        cur_consts(*self).len() as int,
                        cur_instrs(*self).len() as int,
                    );
                }
            }
        }
    }

    /// Intern a constant in the current chunk and load it.
    fn emit_constant(&mut self, value: Value, line: usize)
        requires
            compiler_wf(*old(self)),
            value_wf(value),
        ensures
            compiler_wf(*final(self)),
            extends(*old(self), *final(self)),
            final(self).chunks@.len() == old(self).chunks@.len(),
            final(self).locals@ == old(self).locals@,
            cur_consts(*final(self)).len() <= cur_consts(*old(self)).len() + 1,
            ({
                let n = cur_instrs(*old(self)).len() as int;
                let instrs = cur_instrs(*final(self));
                &&& instrs.len() == n + 1
                &&& instrs[n] is LoadConstant
                &&& instrs[n]->LoadConstant_0 < cur_consts(*final(self)).len()
                &&& crate::bytecode::spec_const_eq(
                    cur_consts(*final(self))[instrs[n]->LoadConstant_0 as int],
                    value,
                ) || cur_consts(*final(self))[instrs[n]->LoadConstant_0 as int] == value
            }),
    {
        let cc = self.current_chunk;
        let ghost pre = *self;
        let mut chunk = self.chunks.remove(cc);
        let index = chunk.add_constant(value);
        self.chunks.insert(cc, chunk);
        proof {
            assert(self.chunks@ =~= pre.chunks@.update(
                cc as int,
                self.chunks@[cc as int],
            ));
            assert(cur_instrs(*self) == cur_instrs(pre));
            assert(cur_consts(*self).subrange(0, cur_consts(pre).len() as int)
                =~= cur_consts(pre));
            assert forall|i: int|
                0 <= i < cur_instrs(*self).len() implies instruction_wf(
                #[trigger] cur_instrs(*self)[i],
                cur_consts(*self).len() as int,
                cur_instrs(*self).len() as int,
            ) by {
                assert(instruction_wf(
                    cur_instrs(pre)[i],
                    cur_consts(pre).len() as int,
                    cur_instrs(pre).len() as int,
                ));
                lemma_instruction_wf_weaken(
                    cur_instrs(pre)[i],
                    cur_consts(pre).len() as int,
                    cur_instrs(pre).len() as int,
                    cur_consts(*self).len() as int,
                    cur_instrs(*self).len() as int,
                );
            }
        }
        let ghost mid = *self;
        proof {
            assert forall|i: int|
                0 <= i < pre.chunks@.len() && i != pre.current_chunk implies chunk_same(
                #[trigger] mid.chunks@[i],
                pre.chunks@[i],
            ) by {
                assert(mid.chunks@[i] == pre.chunks@[i]);
            }
            assert(mid.current_chunk == pre.current_chunk);
            assert(mid.chunks@.len() >= pre.chunks@.len());
            assert(cur_instrs(mid).len() >= cur_instrs(pre).len());
            assert(cur_instrs(mid).subrange(0, cur_instrs(pre).len() as int) == cur_instrs(
                pre,
            ));
            assert(cur_consts(mid).len() >= cur_consts(pre).len());
            assert(cur_consts(mid).subrange(0, cur_consts(pre).len() as int) == cur_consts(
                pre,
            ));
            assert(mid.scope_depth == pre.scope_depth);
            assert(extends(pre, mid));
        }
        self.emit_instruction(Instruction::LoadConstant(index), line);
        proof {
            lemma_extends_trans(pre, mid, *self);
        }
    }

    /// Emit a jump-family instruction with a placeholder target, returning
    /// its index for later patching.
    fn emit_jump(&mut self, instruction: Instruction, line: usize) -> (r: usize)
        requires
            compiler_wf(*old(self)),
            instruction is Jump || instruction is JumpIfFalse || instruction is JumpIfTrue,
            match instruction {
                Instruction::Jump(t) => t == 0,
                Instruction::JumpIfFalse(t) => t == 0,
                Instruction::JumpIfTrue(t) => t == 0,
                _ => false,
            },
        ensures
            compiler_wf(*final(self)),
            extends(*old(self), *final(self)),
            final(self).chunks@.len() == old(self).chunks@.len(),
            final(self).locals@ == old(self).locals@,
            cur_instrs(*final(self)) == cur_instrs(*old(self)).push(instruction),
            cur_consts(*final(self)) == cur_consts(*old(self)),
            r == cur_instrs(*old(self)).len(),
    {
        let cc = self.current_chunk;
        let r = self.chunks[cc].instructions.len();
        self.emit_instruction(instruction, line);
        r
    }

    /// Point the jump at `at` to the instruction that will be emitted
    /// next: the current end of the code.
    fn patch_jump(&mut self, at: usize)
        requires
            compiler_wf(*old(self)),
            at < cur_instrs(*old(self)).len(),
            cur_instrs(*old(self))[at as int] is Jump || cur_instrs(*old(self))[at as int]
                is JumpIfFalse || cur_instrs(*old(self))[at as int] is JumpIfTrue,
        ensures
            compiler_wf(*final(self)),
            final(self).current_chunk == old(self).current_chunk,
            final(self).chunks@.len() == old(self).chunks@.len(),
            final(self).locals@ == old(self).locals@,
            final(self).scope_depth == old(self).scope_depth,
            forall|i: int|
                0 <= i < old(self).chunks@.len() && i != old(self).current_chunk
                    ==> chunk_same(#[trigger] final(self).chunks@[i], old(self).chunks@[i]),
            cur_consts(*final(self)) == cur_consts(*old(self)),
            cur_instrs(*final(self)) == cur_instrs(*old(self)).update(
                at as int,
                patched_jump(
                    cur_instrs(*old(self))[at as int],
                    cur_instrs(*old(self)).len() as int,
                ),
            ),
            cur_instrs(*old(self)).len() <= usize::MAX,
    {
        let cc = self.current_chunk;
        let ghost pre = *self;
        let mut chunk = self.chunks.remove(cc);
        let target = chunk.instructions.len();
        let patched = match &chunk.instructions[at] {
            Instruction::Jump(_) => Instruction::Jump(target),
            Instruction::JumpIfFalse(_) => Instruction::JumpIfFalse(target),
            Instruction::JumpIfTrue(_) => Instruction::JumpIfTrue(target),
            _ => vstd::pervasive::unreached(),
        };
        chunk.instructions.set(at, patched);
        self.chunks.insert(cc, chunk);
        proof {
            assert(self.chunks@ =~= pre.chunks@.update(
                cc as int,
                self.chunks@[cc as int],
            ));
            assert(cur_instrs(*self) =~= cur_instrs(pre).update(
                at as int,
                patched_jump(cur_instrs(pre)[at as int], cur_instrs(pre).len() as int),
            ));
            assert forall|i: int|
                0 <= i < cur_instrs(*self).len() implies instruction_wf(
                #[trigger] cur_instrs(*self)[i],
                cur_consts(*self).len() as int,
                cur_instrs(*self).len() as int,
            ) by {
                if i != at {
                    assert(cur_instrs(*self)[i] == cur_instrs(pre)[i]);
                    assert(instruction_wf(
                        cur_instrs(pre)[i],
                        cur_consts(pre).len() as int,
                        cur_instrs(pre).len() as int,
                    ));
                }
            }
        }
    }

    /// Find the slot of the most recently declared local with this name.
    /// The answer is exact: a hit is the highest matching slot, and a
    /// miss means no local has the name.
    fn resolve_local(&self, name: &String) -> (r: Option<usize>)
        ensures
            match r {
                Some(i) => {
                    &&& i < self.locals@.len()
                    &&& self.locals@[i as int]@ == name@
                    &&& forall|j: int|
                        i < j < self.locals@.len() ==> (#[trigger] self.locals@[j])@
                            != name@
                },
                None => forall|j: int|
                    0 <= j < self.locals@.len() ==> (#[trigger] self.locals@[j])@ != name@,
            },
    {
        let mut i: usize = self.locals.len();
        while i > 0
            invariant
                i <= self.locals@.len(),
                forall|j: int|
                    i <= j < self.locals@.len() ==> (#[trigger] self.locals@[j])@ != name@,
            decreases i,
        {
            i = i - 1;
            if self.locals[i].eq(name) {
                return Some(i);
            }
        }
        None
    }
}

/// The same jump instruction with its target replaced.
pub open spec fn patched_jump(i: Instruction, target: int) -> Instruction {
    match i {
        Instruction::Jump(_) => Instruction::Jump(target as usize),
        Instruction::JumpIfFalse(_) => Instruction::JumpIfFalse(target as usize),
        Instruction::JumpIfTrue(_) => Instruction::JumpIfTrue(target as usize),
        other => other,
    }
}

/// In-range instructions stay in range as the pool and code grow.
pub proof fn lemma_instruction_wf_weaken(
    i: Instruction,
    nc0: int,
    ni0: int,
    nc1: int,
    ni1: int,
)
    requires
        instruction_wf(i, nc0, ni0),
        nc1 >= nc0,
        ni1 >= ni0,
    ensures
        instruction_wf(i, nc1, ni1),
{
}

/// Whether one literal can become a constant value: embedded big
/// integers must be canonical, recursively.
pub open spec fn lit_supported(l: Literal) -> bool
    decreases l,
    via lit_supported_decreases
{
    match l {
        Literal::BigInteger(b) => b.wf(),
        Literal::Array(elements) => lits_supported(elements@),
        Literal::Object(properties) => lit_props_supported(properties@),
        _ => true,
    }
}

pub open spec fn lits_supported(s: Seq<Literal>) -> bool
    decreases s,
    via lits_supported_decreases
{
    if s.len() == 0 {
        true
    } else {
        lit_supported(s[0]) && lits_supported(s.subrange(1, s.len() as int))
    }
}

pub open spec fn lit_props_supported(s: Seq<(String, Literal)>) -> bool
    decreases s,
    via lit_props_supported_decreases
{
    if s.len() == 0 {
        true
    } else {
        lit_supported(s[0].1) && lit_props_supported(s.subrange(1, s.len() as int))
    }
}

#[via_fn]
proof fn lit_supported_decreases(l: Literal) {
    match l {
        Literal::Array(elements) => {
            assert(decreases_to!(l => elements@)) by {
                assert(decreases_to!(l => elements));
                assert(decreases_to!(elements => elements@));
            }
        },
        Literal::Object(properties) => {
            assert(decreases_to!(l => properties@)) by {
                assert(decreases_to!(l => properties));
                assert(decreases_to!(properties => properties@));
            }
        },
        _ => {},
    }
}

#[via_fn]
proof fn lits_supported_decreases(s: Seq<Literal>) {
    if s.len() > 0 {
        assert(decreases_to!(s => s[0]));
        assert(decreases_to!(s => s.subrange(1, s.len() as int)));
    }
}

#[via_fn]
proof fn lit_props_supported_decreases(s: Seq<(String, Literal)>) {
    if s.len() > 0 {
        assert(decreases_to!(s => s[0].1)) by {
            assert(decreases_to!(s => s[0]));
            assert(decreases_to!(s[0] => s[0].1));
        }
        assert(decreases_to!(s => s.subrange(1, s.len() as int)));
    }
}

/// The abstract value a literal converts to.  An object literal keeps
/// the last binding of each repeated key, exactly as the built object
/// does.
pub open spec fn lit_model(l: Literal) -> crate::value::ValueModel
    decreases l,
    via lit_model_decreases
{
    match l {
        Literal::String(s) => crate::value::ValueModel::Str(s@),
        Literal::Integer(i) => crate::value::ValueModel::Int(i as int),
        Literal::BigInteger(b) => crate::value::ValueModel::Big(b@),
        Literal::Float(bits) => crate::value::ValueModel::Float(bits),
        Literal::Boolean(b) => crate::value::ValueModel::Bool(b),
        Literal::Null => crate::value::ValueModel::Null,
        Literal::Array(elements) => crate::value::ValueModel::Arr(lit_models(elements@)),
        Literal::Object(properties) => crate::value::ValueModel::Obj(
            lit_obj_model(properties@),
        ),
    }
}

pub open spec fn lit_models(s: Seq<Literal>) -> Seq<crate::value::ValueModel>
    decreases s,
    via lit_models_decreases
{
    if s.len() == 0 {
        Seq::empty()
    } else {
        lit_models(s.drop_last()).push(lit_model(s.last()))
    }
}

pub open spec fn lit_obj_model(s: Seq<(String, Literal)>) -> Seq<(
    Seq<char>,
    crate::value::ValueModel,
)>
    decreases s,
    via lit_obj_model_decreases
{
    if s.len() == 0 {
        Seq::empty()
    } else {
        crate::vm::assoc_set(
            lit_obj_model(s.drop_last()),
            s.last().0@,
            lit_model(s.last().1),
        )
    }
}

#[via_fn]
proof fn lit_model_decreases(l: Literal) {
    match l {
        Literal::Array(elements) => {
            assert(decreases_to!(l => elements@)) by {
                assert(decreases_to!(l => elements));
                assert(decreases_to!(elements => elements@));
            }
        },
        Literal::Object(properties) => {
            assert(decreases_to!(l => properties@)) by {
                assert(decreases_to!(l => properties));
                assert(decreases_to!(properties => properties@));
            }
        },
        _ => {},
    }
}

#[via_fn]
proof fn lit_models_decreases(s: Seq<Literal>) {
    if s.len() > 0 {
        assert(decreases_to!(s => s.last()));
        assert(decreases_to!(s => s.drop_last()));
    }
}

#[via_fn]
proof fn lit_obj_model_decreases(s: Seq<(String, Literal)>) {
    if s.len() > 0 {
        assert(decreases_to!(s => s.last().1)) by {
            assert(decreases_to!(s => s.last()));
            assert(decreases_to!(s.last() => s.last().1));
        }
        assert(decreases_to!(s => s.drop_last()));
    }
}

/// Parameters the bytecode path can carry: no default values, no
/// variadic markers.
pub open spec fn params_supported(ps: Seq<Parameter>) -> bool {
    forall|i: int|
        0 <= i < ps.len() ==> (#[trigger] ps[i]).default_value is None && !ps[i].is_variadic
}

/// Whether the compiler accepts this expression: every literal is
/// convertible, parameters carry no defaults, and a call's argument count
/// fits the two-byte call operand.
pub open spec fn expr_supported(e: Expression) -> bool
    decreases e,
    via expr_supported_decreases
{
    match e {
        Expression::Literal(l) => lit_supported(l),
        Expression::Identifier(_) => true,
        Expression::Binary { left, right, .. } => expr_supported(*left) && expr_supported(
            *right,
        ),
        Expression::Unary { operand, .. } => expr_supported(*operand),
        Expression::FunctionCall { arguments, .. } => arguments@.len() <= 0xFFFF
            && exprs_supported(arguments@),
        Expression::MethodCall { object, arguments, .. } => expr_supported(*object)
            && exprs_supported(arguments@),
        Expression::Array { elements } => exprs_supported(elements@),
        Expression::Object { properties } => expr_props_supported(properties@),
        Expression::Index { object, index } => expr_supported(*object) && expr_supported(
            *index,
        ),
        Expression::PropertyAccess { object, .. } => expr_supported(*object),
        Expression::Lambda { parameters, body } => params_supported(parameters@)
            && expr_supported(*body),
    }
}

pub open spec fn exprs_supported(s: Seq<Expression>) -> bool
    decreases s,
    via exprs_supported_decreases
{
    if s.len() == 0 {
        true
    } else {
        expr_supported(s[0]) && exprs_supported(s.subrange(1, s.len() as int))
    }
}

pub open spec fn expr_props_supported(s: Seq<(String, Expression)>) -> bool
    decreases s,
    via expr_props_supported_decreases
{
    if s.len() == 0 {
        true
    } else {
        expr_supported(s[0].1) && expr_props_supported(s.subrange(1, s.len() as int))
    }
}

#[via_fn]
proof fn expr_supported_decreases(e: Expression) {
    match e {
        Expression::FunctionCall { arguments, .. } => {
            assert(decreases_to!(e => arguments@)) by {
                assert(decreases_to!(e => arguments));
                assert(decreases_to!(arguments => arguments@));
            }
        },
        Expression::MethodCall { arguments, .. } => {
            assert(decreases_to!(e => arguments@)) by {
                assert(decreases_to!(e => arguments));
                assert(decreases_to!(arguments => arguments@));
            }
        },
        Expression::Array { elements } => {
            assert(decreases_to!(e => elements@)) by {
                assert(decreases_to!(e => elements));
                assert(decreases_to!(elements => elements@));
            }
        },
        Expression::Object { properties } => {
            assert(decreases_to!(e => properties@)) by {
                assert(decreases_to!(e => properties));
                assert(decreases_to!(properties => properties@));
            }
        },
        _ => {},
    }
}

#[via_fn]
proof fn exprs_supported_decreases(s: Seq<Expression>) {
    if s.len() > 0 {
        assert(decreases_to!(s => s[0]));
        assert(decreases_to!(s => s.subrange(1, s.len() as int)));
    }
}

#[via_fn]
proof fn expr_props_supported_decreases(s: Seq<(String, Expression)>) {
    if s.len() > 0 {
        assert(decreases_to!(s => s[0].1)) by {
            assert(decreases_to!(s => s[0]));
            assert(decreases_to!(s[0] => s[0].1));
        }
        assert(decreases_to!(s => s.subrange(1, s.len() as int)));
    }
}

/// Whether the compiler accepts this statement: module and exception
/// constructs are rejected, everything else is accepted when its parts
/// are.
pub open spec fn stmt_supported(st: Statement) -> bool
    decreases st,
    via stmt_supported_decreases
{
    match st {
        Statement::VariableDeclaration { value, .. } => expr_supported(value),
        Statement::FunctionDeclaration { parameters, body, .. } => params_supported(
            parameters@,
        ) && stmts_supported(body@),
        Statement::If { condition, then_branch, else_branch } => expr_supported(condition)
            && stmts_supported(then_branch@) && match else_branch {
            Some(b) => stmts_supported(b@),
            None => true,
        },
        Statement::While { condition, body } => expr_supported(condition) && stmts_supported(
            body@,
        ),
        Statement::For { start, end, body, .. } => expr_supported(start) && expr_supported(
            end,
        ) && stmts_supported(body@),
        Statement::Show(e) => expr_supported(e),
        Statement::Return(oe) => match oe {
            Some(e) => expr_supported(e),
            None => true,
        },
        Statement::Expression(e) => expr_supported(e),
        Statement::Import(_) => false,
        Statement::Export(_) => false,
        Statement::TryCatch { .. } => false,
    }
}

pub open spec fn stmts_supported(s: Seq<Statement>) -> bool
    decreases s,
    via stmts_supported_decreases
{
    if s.len() == 0 {
        true
    } else {
        stmt_supported(s[0]) && stmts_supported(s.subrange(1, s.len() as int))
    }
}

#[via_fn]
proof fn stmt_supported_decreases(st: Statement) {
    match st {
        Statement::FunctionDeclaration { body, .. } => {
            assert(decreases_to!(st => body@)) by {
                assert(decreases_to!(st => body));
                assert(decreases_to!(body => body@));
            }
        },
        Statement::If { then_branch, else_branch, .. } => {
            assert(decreases_to!(st => then_branch@)) by {
                assert(decreases_to!(st => then_branch));
                assert(decreases_to!(then_branch => then_branch@));
            }
            match else_branch {
                Some(b) => {
                    assert(decreases_to!(st => b@)) by {
                        assert(decreases_to!(st => else_branch));
                        assert(decreases_to!(else_branch => b));
                        assert(decreases_to!(b => b@));
                    }
                },
                None => {},
            }
        },
        Statement::While { body, .. } => {
            assert(decreases_to!(st => body@)) by {
                assert(decreases_to!(st => body));
                assert(decreases_to!(body => body@));
            }
        },
        Statement::For { body, .. } => {
            assert(decreases_to!(st => body@)) by {
                assert(decreases_to!(st => body));
                assert(decreases_to!(body => body@));
            }
        },
        _ => {},
    }
}

#[via_fn]
proof fn stmts_supported_decreases(s: Seq<Statement>) {
    if s.len() > 0 {
        assert(decreases_to!(s => s[0]));
        assert(decreases_to!(s => s.subrange(1, s.len() as int)));
    }
}

/// Element-wise readings of the list predicates.
pub proof fn lemma_lits_supported_index(s: Seq<Literal>)
    ensures
        lits_supported(s) <==> forall|i: int|
            0 <= i < s.len() ==> lit_supported(#[trigger] s[i]),
    decreases s,
{
    if s.len() > 0 {
        lemma_lits_supported_index(s.subrange(1, s.len() as int));
        assert(forall|i: int|
            1 <= i < s.len() ==> s.subrange(1, s.len() as int)[i - 1] == #[trigger] s[i]);
    }
}

pub proof fn lemma_lit_props_supported_index(s: Seq<(String, Literal)>)
    ensures
        lit_props_supported(s) <==> forall|i: int|
            0 <= i < s.len() ==> lit_supported((#[trigger] s[i]).1),
    decreases s,
{
    if s.len() > 0 {
        lemma_lit_props_supported_index(s.subrange(1, s.len() as int));
        assert(forall|i: int|
            1 <= i < s.len() ==> s.subrange(1, s.len() as int)[i - 1] == #[trigger] s[i]);
    }
}

pub proof fn lemma_exprs_supported_index(s: Seq<Expression>)
    ensures
        exprs_supported(s) <==> forall|i: int|
            0 <= i < s.len() ==> expr_supported(#[trigger] s[i]),
    decreases s,
{
    if s.len() > 0 {
        lemma_exprs_supported_index(s.subrange(1, s.len() as int));
        assert(forall|i: int|
            1 <= i < s.len() ==> s.subrange(1, s.len() as int)[i - 1] == #[trigger] s[i]);
    }
}

pub proof fn lemma_expr_props_supported_index(s: Seq<(String, Expression)>)
    ensures
        expr_props_supported(s) <==> forall|i: int|
            0 <= i < s.len() ==> expr_supported((#[trigger] s[i]).1),
    decreases s,
{
    if s.len() > 0 {
        lemma_expr_props_supported_index(s.subrange(1, s.len() as int));
        assert(forall|i: int|
            1 <= i < s.len() ==> s.subrange(1, s.len() as int)[i - 1] == #[trigger] s[i]);
    }
}

pub proof fn lemma_stmts_supported_index(s: Seq<Statement>)
    ensures
        stmts_supported(s) <==> forall|i: int|
            0 <= i < s.len() ==> stmt_supported(#[trigger] s[i]),
    decreases s,
{
    if s.len() > 0 {
        lemma_stmts_supported_index(s.subrange(1, s.len() as int));
        assert(forall|i: int|
            1 <= i < s.len() ==> s.subrange(1, s.len() as int)[i - 1] == #[trigger] s[i]);
    }
}

/// An `if` with a boolean-literal condition and no else branch.
pub open spec fn if_with_bool_cond_no_else(st: Statement) -> bool {
    &&& st is If
    &&& bool_literal(st->If_condition)
    &&& st->If_else_branch is None
}

/// A function declaration whose whole body shows one identifier: the
/// shape of the parameter-shadowing scenario.
pub open spec fn fn_body_shows_ident(st: Statement) -> bool {
    &&& st is FunctionDeclaration
    &&& st->FunctionDeclaration_body@.len() == 1
    &&& st->FunctionDeclaration_body@[0] is Show
    &&& (st->FunctionDeclaration_body@[0]->Show_0) is Identifier
}

/// The store instruction a declaration emits: a global store of the name
/// at script depth, a fresh local slot otherwise.
pub open spec fn decl_store(
    instr: Instruction,
    depth: int,
    locals_before: Seq<String>,
    name: Seq<char>,
) -> bool {
    if depth == 0 {
        instr is StoreGlobal && instr->StoreGlobal_0@ == name
    } else {
        instr is StoreLocal && instr->StoreLocal_0 == locals_before.len()
    }
}

/// Whether this expression is a boolean literal.
pub open spec fn bool_literal(e: Expression) -> bool {
    e is Literal && e->Literal_0 is Boolean
}

/// The value of a boolean-literal expression.
pub open spec fn literal_bool(e: Expression) -> bool {
    e->Literal_0->Boolean_0
}

/// A logical `and` whose left operand is a boolean literal.
pub open spec fn and_with_bool_left(e: Expression) -> bool {
    &&& e is Binary
    &&& e->Binary_operator == BinaryOperator::And
    &&& bool_literal(*e->Binary_left)
}

/// A logical `or` whose left operand is a boolean literal.
pub open spec fn or_with_bool_left(e: Expression) -> bool {
    &&& e is Binary
    &&& e->Binary_operator == BinaryOperator::Or
    &&& bool_literal(*e->Binary_left)
}

/// The names of a scope list, in slot order.
pub open spec fn locals_views(locals: Seq<String>) -> Seq<Seq<char>> {
    Seq::new(locals.len(), |i: int| locals[i]@)
}

/// The declared parameter names, in slot order.
pub open spec fn param_names(ps: Seq<Parameter>) -> Seq<Seq<char>> {
    Seq::new(ps.len(), |i: int| ps[i].name@)
}

/// One instruction that loads the value of the name `name` under the
/// scope names `scope`: the highest local slot bearing the name, or a
/// global load when no slot bears it -- declaration site alone decides.
pub open spec fn ident_load(instr: Instruction, scope: Seq<Seq<char>>, name: Seq<char>) -> bool {
    match instr {
        Instruction::LoadLocal(i) => {
            &&& i < scope.len()
            &&& scope[i as int] == name
            &&& forall|j: int| i < j < scope.len() ==> #[trigger] scope[j] != name
        },
        Instruction::LoadGlobal(g) => {
            &&& g@ == name
            &&& forall|j: int| 0 <= j < scope.len() ==> #[trigger] scope[j] != name
        },
        _ => false,
    }
}

/// The instruction emitted for a non-logical binary operator.
pub open spec fn binop_instruction(op: BinaryOperator) -> Instruction {
    match op {
        BinaryOperator::Add => Instruction::Add,
        BinaryOperator::Subtract => Instruction::Subtract,
        BinaryOperator::Multiply => Instruction::Multiply,
        BinaryOperator::Divide => Instruction::Divide,
        BinaryOperator::Modulo => Instruction::Modulo,
        BinaryOperator::Equal => Instruction::Equal,
        BinaryOperator::NotEqual => Instruction::NotEqual,
        BinaryOperator::Greater => Instruction::Greater,
        BinaryOperator::GreaterEqual => Instruction::GreaterEqual,
        BinaryOperator::Less => Instruction::Less,
        BinaryOperator::LessEqual => Instruction::LessEqual,
        BinaryOperator::And => Instruction::And,
        BinaryOperator::Or => Instruction::Or,
    }
}

/// An integer-literal expression.
pub open spec fn int_literal(e: Expression) -> bool {
    e is Literal && e->Literal_0 is Integer
}

/// A non-logical binary expression over two identifiers.
pub open spec fn binary_of_idents(e: Expression) -> bool {
    &&& e is Binary
    &&& e->Binary_operator != BinaryOperator::And
    &&& e->Binary_operator != BinaryOperator::Or
    &&& (*e->Binary_left) is Identifier
    &&& (*e->Binary_right) is Identifier
}

/// Position `n` of `code` loads a constant whose value is the machine
/// integer `i`.
pub open spec fn loads_int(
    n: int,
    code: Seq<Instruction>,
    consts: Seq<crate::value::Value>,
    i: int,
) -> bool {
    &&& 0 <= n < code.len()
    &&& code[n] is LoadConstant
    &&& code[n]->LoadConstant_0 < consts.len()
    &&& crate::value::vabs(consts[code[n]->LoadConstant_0 as int])
        == crate::value::ValueModel::Int(i)
}

/// Position `n` of `code` loads a constant whose value is the boolean
/// `b`.
pub open spec fn loads_bool(
    n: int,
    code: Seq<Instruction>,
    consts: Seq<crate::value::Value>,
    b: bool,
) -> bool {
    &&& 0 <= n < code.len()
    &&& code[n] is LoadConstant
    &&& code[n]->LoadConstant_0 < consts.len()
    &&& crate::value::vabs(consts[code[n]->LoadConstant_0 as int])
        == crate::value::ValueModel::Bool(b)
}

/// Whether `name` names one of the built-in functions dispatched by the
/// dedicated built-in call instruction.
fn is_builtin_function(name: &String) -> (r: bool)
    ensures
        r == (name@ == seq!['s', 'h', 'o', 'w'] || name@ == seq!['p', 'r', 'i', 'n', 't']
            || name@ == seq!['l', 'e', 'n'] || name@ == seq!['t', 'y', 'p', 'e'] || name@
            == seq!['s', 't', 'r'] || name@ == seq!['i', 'n', 't'] || name@ == seq![
            'f',
            'l',
            'o',
            'a',
            't',
        ]),
{
    proof {
        reveal_strlit("show");
        reveal_strlit("print");
        reveal_strlit("len");
        reveal_strlit("type");
        reveal_strlit("str");
        reveal_strlit("int");
        reveal_strlit("float");
        assert(("show")@ =~= seq!['s', 'h', 'o', 'w']);
        assert(("print")@ =~= seq!['p', 'r', 'i', 'n', 't']);
        assert(("len")@ =~= seq!['l', 'e', 'n']);
        assert(("type")@ =~= seq!['t', 'y', 'p', 'e']);
        assert(("str")@ =~= seq!['s', 't', 'r']);
        assert(("int")@ =~= seq!['i', 'n', 't']);
        assert(("float")@ =~= seq!['f', 'l', 'o', 'a', 't']);
    }
    crate::vm::str_eq_lit(name.as_str(), "show") || crate::vm::str_eq_lit(
        name.as_str(),
        "print",
    ) || crate::vm::str_eq_lit(name.as_str(), "len") || crate::vm::str_eq_lit(
        name.as_str(),
        "type",
    ) || crate::vm::str_eq_lit(name.as_str(), "str") || crate::vm::str_eq_lit(
        name.as_str(),
        "int",
    ) || crate::vm::str_eq_lit(name.as_str(), "float")
}

/// Convert a literal to a runtime constant value.  Objects keep the last
/// binding of a repeated key.  Conversion succeeds exactly when the
/// literal is supported, that is, when every embedded big integer is
/// canonical.
pub fn literal_to_value(literal: &Literal) -> (r: Result<Value, FlowError>)
    ensures
        r is Ok <==> lit_supported(*literal),
        match r {
            Ok(v) => {
                &&& value_wf(v)
                &&& crate::value::vabs(v) == lit_model(*literal)
                &&& (literal is Boolean ==> v == Value::Boolean(literal->Boolean_0))
                &&& (literal is Integer ==> v == Value::Integer(literal->Integer_0))
                &&& (literal is Null ==> v == Value::Null)
                &&& (literal is Float ==> v == Value::Float(literal->Float_0))
                &&& (literal is String ==> v is String && v->String_0@
                    == literal->String_0@)
                &&& (literal is BigInteger ==> v is BigInteger && v->BigInteger_0@
                    == literal->BigInteger_0@)
            },
            Err(e) => e == FlowError::TypeError,
        },
    decreases *literal,
{
    match literal {
        Literal::String(st) => Ok(Value::String(st.clone())),
        Literal::Integer(i) => Ok(Value::Integer(*i)),
        Literal::BigInteger(b) => {
            if b.is_canonical() {
                Ok(Value::BigInteger(b.clone()))
            } else {
                // A malformed big-integer literal cannot become a value.
                Err(FlowError::TypeError)
            }
        },
        Literal::Float(bits) => Ok(Value::Float(*bits)),
        Literal::Boolean(b) => Ok(Value::Boolean(*b)),
        Literal::Null => Ok(Value::Null),
        Literal::Array(elements) => {
            let mut values: Vec<Value> = Vec::new();
            let n = elements.len();
            let mut i: usize = 0;
            proof {
                lemma_lits_supported_index(elements@);
            }
            while i < n
                invariant
                    i <= n,
                    n == elements@.len(),
                    (*literal) is Array,
                    elements == literal->Array_0,
                    crate::value::seq_value_wf(values@),
                    crate::value::vabs_seq(values@) == lit_models(
                        elements@.subrange(0, i as int),
                    ),
                    lits_supported(elements@) <==> forall|j: int|
                        0 <= j < n ==> lit_supported(#[trigger] elements@[j]),
                    forall|j: int| 0 <= j < i ==> lit_supported(#[trigger] elements@[j]),
                decreases n - i,
            {
                let v = literal_to_value(&elements[i])?;
                let ghost before = values@;
                values.push(v);
                proof {
                    crate::value::lemma_seq_value_wf_index(before);
                    crate::value::lemma_seq_value_wf_index(values@);
                    assert(forall|j: int|
                        0 <= j < before.len() ==> values@[j] == #[trigger] before[j]);
                    crate::value::lemma_vabs_seq_push(before, v);
                    assert(elements@.subrange(0, i + 1).drop_last() =~= elements@.subrange(
                        0,
                        i as int,
                    ));
                    assert(elements@.subrange(0, i + 1).last() == elements@[i as int]);
                }
                i = i + 1;
            }
            proof {
                assert(elements@.subrange(0, n as int) =~= elements@);
            }
            Ok(Value::Array(FlowArray { elements: values }))
        },
        Literal::Object(properties) => {
            let mut props: Vec<(String, Value)> = Vec::new();
            let n = properties.len();
            let mut i: usize = 0;
            proof {
                lemma_lit_props_supported_index(properties@);
            }
            while i < n
                invariant
                    i <= n,
                    n == properties@.len(),
                    (*literal) is Object,
                    properties == literal->Object_0,
                    crate::value::props_value_wf(props@),
                    crate::value::unique_keys(props@),
                    crate::value::vabs_props(props@) == lit_obj_model(
                        properties@.subrange(0, i as int),
                    ),
                    lit_props_supported(properties@) <==> forall|j: int|
                        0 <= j < n ==> lit_supported((#[trigger] properties@[j]).1),
                    forall|j: int|
                        0 <= j < i ==> lit_supported((#[trigger] properties@[j]).1),
                decreases n - i,
            {
                let v = literal_to_value(&properties[i].1)?;
                let key = properties[i].0.clone();
                crate::vm::assoc_store(&mut props, key, v);
                proof {
                    assert(properties@.subrange(0, i + 1).drop_last() =~= properties@
                        .subrange(0, i as int));
                    assert(properties@.subrange(0, i + 1).last() == properties@[i as int]);
                }
                i = i + 1;
            }
            proof {
                assert(properties@.subrange(0, n as int) =~= properties@);
            }
            Ok(Value::Object(FlowObject { properties: props }))
        },
    }
}

impl Compiler {
    /// Compile one expression, leaving exactly its value on the stack at
    /// run time.  Logical `and` and `or` short-circuit by jumping over
    /// the right operand.
    pub fn compile_expression(&mut self, expression: &Expression) -> (r: Result<
        (),
        FlowError,
    >)
        requires
            compiler_wf(*old(self)),
        ensures
            compiler_wf(*final(self)),
            r is Ok ==> expr_supported(*expression),
            r is Err ==> !expr_supported(*expression),
            r is Ok ==> extends(*old(self), *final(self)) && final(self).locals@ == old(
                self,
            ).locals@,
            r is Ok && bool_literal(*expression) ==> loads_bool(
                cur_instrs(*old(self)).len() as int,
                cur_instrs(*final(self)),
                cur_consts(*final(self)),
                literal_bool(*expression),
            ) && cur_instrs(*final(self)).len() == cur_instrs(*old(self)).len() + 1,
            r is Ok && (*expression) is Literal ==> ({
                let n = cur_instrs(*old(self)).len() as int;
                let code = cur_instrs(*final(self));
                let consts = cur_consts(*final(self));
                &&& code.len() == n + 1
                &&& code[n] is LoadConstant
                &&& code[n]->LoadConstant_0 < consts.len()
                &&& crate::value::vabs(consts[code[n]->LoadConstant_0 as int]) == lit_model(
                    expression->Literal_0,
                )
            }),
            r is Ok && int_literal(*expression) ==> loads_int(
                cur_instrs(*old(self)).len() as int,
                cur_instrs(*final(self)),
                cur_consts(*final(self)),
                expression->Literal_0->Integer_0 as int,
            ) && cur_instrs(*final(self)).len() == cur_instrs(*old(self)).len() + 1,
            r is Ok && (*expression) is Identifier ==> ({
                let n = cur_instrs(*old(self)).len() as int;
                let code = cur_instrs(*final(self));
                &&& code.len() == n + 1
                &&& ident_load(
                    code[n],
                    locals_views(old(self).locals@),
                    expression->Identifier_0@,
                )
            }),
            r is Ok && binary_of_idents(*expression) ==> ({
                let n = cur_instrs(*old(self)).len() as int;
                let code = cur_instrs(*final(self));
                &&& code.len() == n + 3
                &&& ident_load(
                    code[n],
                    locals_views(old(self).locals@),
                    expression->Binary_left->Identifier_0@,
                )
                &&& ident_load(
                    code[n + 1],
                    locals_views(old(self).locals@),
                    expression->Binary_right->Identifier_0@,
                )
                &&& code[n + 2] == binop_instruction(expression->Binary_operator)
            }),
            r is Ok && and_with_bool_left(*expression) ==> ({
                let n = cur_instrs(*old(self)).len() as int;
                let code = cur_instrs(*final(self));
                &&& code.len() >= n + 4
                &&& loads_bool(
                    n,
                    code,
                    cur_consts(*final(self)),
                    literal_bool(*expression->Binary_left),
                )
                &&& code[n + 1] == Instruction::Duplicate
                &&& code[n + 2] is JumpIfFalse
                &&& code[n + 2]->JumpIfFalse_0 == code.len()
                &&& code[n + 3] == Instruction::Pop
            }),
            r is Ok && or_with_bool_left(*expression) ==> ({
                let n = cur_instrs(*old(self)).len() as int;
                let code = cur_instrs(*final(self));
                &&& code.len() >= n + 5
                &&& loads_bool(
                    n,
                    code,
                    cur_consts(*final(self)),
                    literal_bool(*expression->Binary_left),
                )
                &&& code[n + 1] == Instruction::Duplicate
                &&& code[n + 2] is JumpIfFalse
                &&& code[n + 2]->JumpIfFalse_0 == n + 4
                &&& code[n + 3] is Jump
                &&& code[n + 3]->Jump_0 == code.len()
                &&& code[n + 4] == Instruction::Pop
            }),
        decreases *expression,
    {
        let ghost pre = *self;
        match expression {
            Expression::Literal(literal) => {
                let v = literal_to_value(literal)?;
                self.emit_constant(v, 0);
                Ok(())
            },
            Expression::Identifier(name) => {
                match self.resolve_local(name) {
                    Some(index) => {
                        self.emit_instruction(Instruction::LoadLocal(index), 0);
                    },
                    None => {
                        self.emit_instruction(Instruction::LoadGlobal(name.clone()), 0);
                    },
                }
                Ok(())
            },
            Expression::Binary { left, operator, right } => {
                match operator {
                    BinaryOperator::And => {
                        self.compile_expression(left)?;
                        let ghost s1 = *self;
                        self.emit_instruction(Instruction::Duplicate, 0);
                        let ghost a1 = *self;
                        let j = self.emit_jump(Instruction::JumpIfFalse(0), 0);
                        let ghost a2 = *self;
                        self.emit_instruction(Instruction::Pop, 0);
                        let ghost s2 = *self;
                        proof {
                            lemma_extends_trans(s1, a1, a2);
                            lemma_extends_trans(s1, a2, s2);
                            lemma_extends_trans(pre, s1, s2);
                        }
                        self.compile_expression(right)?;
                        let ghost s3 = *self;
                        proof {
                            lemma_extends_trans(pre, s2, s3);
                            assert(cur_instrs(*self)[j as int] == cur_instrs(s2)[j as int]);
                        }
                        self.patch_jump(j);
                        proof {
                            lemma_extends_after_patch(pre, s3, *self, j as int);
                            if and_with_bool_left(*expression) {
                                let n = cur_instrs(pre).len() as int;
                                let code = cur_instrs(*self);
                                let kinst = cur_instrs(s1)[n];
                                assert(loads_bool(
                                    n,
                                    cur_instrs(s1),
                                    cur_consts(s1),
                                    literal_bool(*expression->Binary_left),
                                ));
                                lemma_prefix_index(
                                    cur_instrs(s2),
                                    cur_instrs(s3),
                                    n,
                                );
                                lemma_prefix_index(
                                    cur_instrs(s2),
                                    cur_instrs(s3),
                                    n + 1,
                                );
                                lemma_prefix_index(
                                    cur_instrs(s2),
                                    cur_instrs(s3),
                                    n + 3,
                                );
                                assert(code[n] == kinst);
                                assert(code[n + 1] == Instruction::Duplicate);
                                assert(code[n + 2] is JumpIfFalse && code[n
                                    + 2]->JumpIfFalse_0 == code.len());
                                assert(code[n + 3] == Instruction::Pop);
                                let k = kinst->LoadConstant_0;
                                lemma_prefix_index(
                                    cur_consts(s2),
                                    cur_consts(s3),
                                    k as int,
                                );
                                assert(cur_consts(*self)[k as int] == cur_consts(
                                    s1,
                                )[k as int]);
                            }
                        }
                        Ok(())
                    },
                    BinaryOperator::Or => {
                        self.compile_expression(left)?;
                        let ghost s1 = *self;
                        self.emit_instruction(Instruction::Duplicate, 0);
                        let ghost a1 = *self;
                        let j1 = self.emit_jump(Instruction::JumpIfFalse(0), 0);
                        let ghost a2 = *self;
                        let j2 = self.emit_jump(Instruction::Jump(0), 0);
                        let ghost a3 = *self;
                        proof {
                            lemma_extends_trans(s1, a1, a2);
                            lemma_extends_trans(s1, a2, a3);
                            assert(cur_instrs(*self)[j1 as int] is JumpIfFalse);
                        }
                        self.patch_jump(j1);
                        let ghost a4 = *self;
                        proof {
                            lemma_patch_extends(a3, a4, j1 as int);
                            assert(extends(s1, a4)) by {
                                assert(cur_instrs(a4).subrange(
                                    0,
                                    cur_instrs(s1).len() as int,
                                ) =~= cur_instrs(s1));
                                assert(cur_consts(a4).subrange(
                                    0,
                                    cur_consts(s1).len() as int,
                                ) =~= cur_consts(s1));
                            }
                        }
                        self.emit_instruction(Instruction::Pop, 0);
                        let ghost s2 = *self;
                        proof {
                            lemma_extends_trans(s1, a4, s2);
                            lemma_extends_trans(pre, s1, s2);
                        }
                        self.compile_expression(right)?;
                        let ghost s3 = *self;
                        proof {
                            lemma_extends_trans(pre, s2, s3);
                            assert(cur_instrs(*self)[j2 as int] == cur_instrs(s2)[j2 as int]);
                        }
                        self.patch_jump(j2);
                        proof {
                            lemma_extends_after_patch(pre, s3, *self, j2 as int);
                            if or_with_bool_left(*expression) {
                                let n = cur_instrs(pre).len() as int;
                                let code = cur_instrs(*self);
                                let kinst = cur_instrs(s1)[n];
                                assert(loads_bool(
                                    n,
                                    cur_instrs(s1),
                                    cur_consts(s1),
                                    literal_bool(*expression->Binary_left),
                                ));
                                lemma_prefix_index(
                                    cur_instrs(s2),
                                    cur_instrs(s3),
                                    n,
                                );
                                lemma_prefix_index(
                                    cur_instrs(s2),
                                    cur_instrs(s3),
                                    n + 1,
                                );
                                lemma_prefix_index(
                                    cur_instrs(s2),
                                    cur_instrs(s3),
                                    n + 2,
                                );
                                lemma_prefix_index(
                                    cur_instrs(s2),
                                    cur_instrs(s3),
                                    n + 4,
                                );
                                assert(code[n] == kinst);
                                assert(code[n + 1] == Instruction::Duplicate);
                                assert(code[n + 2] is JumpIfFalse && code[n
                                    + 2]->JumpIfFalse_0 == n + 4);
                                assert(code[n + 3] is Jump && code[n + 3]->Jump_0
                                    == code.len());
                                assert(code[n + 4] == Instruction::Pop);
                                let k = kinst->LoadConstant_0;
                                lemma_prefix_index(
                                    cur_consts(s2),
                                    cur_consts(s3),
                                    k as int,
                                );
                                assert(cur_consts(*self)[k as int] == cur_consts(
                                    s1,
                                )[k as int]);
                            }
                        }
                        Ok(())
                    },
                    _ => {
                        self.compile_expression(left)?;
                        let ghost s1 = *self;
                        self.compile_expression(right)?;
                        let ghost s2 = *self;
                        let instruction = match operator {
                            BinaryOperator::Add => Instruction::Add,
                            BinaryOperator::Subtract => Instruction::Subtract,
                            BinaryOperator::Multiply => Instruction::Multiply,
                            BinaryOperator::Divide => Instruction::Divide,
                            BinaryOperator::Modulo => Instruction::Modulo,
                            BinaryOperator::Equal => Instruction::Equal,
                            BinaryOperator::NotEqual => Instruction::NotEqual,
                            BinaryOperator::Greater => Instruction::Greater,
                            BinaryOperator::GreaterEqual => Instruction::GreaterEqual,
                            BinaryOperator::Less => Instruction::Less,
                            BinaryOperator::LessEqual => Instruction::LessEqual,
                            _ => Instruction::Add,
                        };
                        self.emit_instruction(instruction, 0);
                        proof {
                            lemma_extends_trans(pre, s1, s2);
                            lemma_extends_trans(pre, s2, *self);
                        }
                        Ok(())
                    },
                }
            },
            Expression::Unary { operator, operand } => {
                self.compile_expression(operand)?;
                let ghost s1 = *self;
                match operator {
                    UnaryOperator::Minus => self.emit_instruction(Instruction::Negate, 0),
                    UnaryOperator::Not => self.emit_instruction(Instruction::Not, 0),
                }
                proof {
                    lemma_extends_trans(pre, s1, *self);
                }
                Ok(())
            },
            Expression::FunctionCall { name, arguments } => {
                let n = arguments.len();
                if n > 0xFFFFusize {
                    // The argument count must fit the two-byte call operand.
                    return Err(FlowError::InvalidBytecode);
                }
                let mut i: usize = 0;
                proof {
                    lemma_extends_refl(pre);
                    lemma_exprs_supported_index(arguments@);
                }
                while i < n
                    invariant
                        i <= n,
                        n == arguments@.len(),
                        (*expression) is FunctionCall,
                        arguments == expression->FunctionCall_arguments,
                        compiler_wf(*self),
                        extends(pre, *self),
                        self.locals@ == pre.locals@,
                        compiler_wf(pre),
                        exprs_supported(arguments@) <==> forall|j: int|
                            0 <= j < n ==> expr_supported(#[trigger] arguments@[j]),
                        forall|j: int| 0 <= j < i ==> expr_supported(#[trigger] arguments@[j]),
                    decreases n - i,
                {
                    let ghost before = *self;
                    self.compile_expression(&arguments[i])?;
                    proof {
                        lemma_extends_trans(pre, before, *self);
                    }
                    i = i + 1;
                }
                let ghost s1 = *self;
                if is_builtin_function(name) {
                    self.emit_constant(Value::Integer(n as i64), 0);
                    let ghost s2 = *self;
                    self.emit_instruction(Instruction::CallBuiltin(name.clone()), 0);
                    proof {
                        lemma_extends_trans(s1, s2, *self);
                        lemma_extends_trans(pre, s1, *self);
                    }
                } else {
                    self.emit_instruction(Instruction::LoadGlobal(name.clone()), 0);
                    let ghost s2 = *self;
                    self.emit_instruction(Instruction::Call(n), 0);
                    proof {
                        lemma_extends_trans(s1, s2, *self);
                        lemma_extends_trans(pre, s1, *self);
                    }
                }
                Ok(())
            },
            Expression::MethodCall { object, method, arguments } => {
                self.compile_expression(object)?;
                let n = arguments.len();
                let mut i: usize = 0;
                proof {
                    lemma_exprs_supported_index(arguments@);
                }
                while i < n
                    invariant
                        i <= n,
                        n == arguments@.len(),
                        (*expression) is MethodCall,
                        arguments == expression->MethodCall_arguments,
                        expr_supported(*expression->MethodCall_object),
                        compiler_wf(*self),
                        extends(pre, *self),
                        self.locals@ == pre.locals@,
                        compiler_wf(pre),
                        exprs_supported(arguments@) <==> forall|j: int|
                            0 <= j < n ==> expr_supported(#[trigger] arguments@[j]),
                        forall|j: int| 0 <= j < i ==> expr_supported(#[trigger] arguments@[j]),
                    decreases n - i,
                {
                    let ghost before = *self;
                    self.compile_expression(&arguments[i])?;
                    proof {
                        lemma_extends_trans(pre, before, *self);
                    }
                    i = i + 1;
                }
                let ghost s1 = *self;
                self.emit_instruction(Instruction::CallMethod(method.clone()), 0);
                proof {
                    lemma_extends_trans(pre, s1, *self);
                }
                Ok(())
            },
            Expression::Array { elements } => {
                let n = elements.len();
                let mut i: usize = 0;
                proof {
                    lemma_extends_refl(pre);
                    lemma_exprs_supported_index(elements@);
                }
                while i < n
                    invariant
                        i <= n,
                        n == elements@.len(),
                        (*expression) is Array,
                        elements == expression->Array_elements,
                        compiler_wf(*self),
                        extends(pre, *self),
                        self.locals@ == pre.locals@,
                        compiler_wf(pre),
                        exprs_supported(elements@) <==> forall|j: int|
                            0 <= j < n ==> expr_supported(#[trigger] elements@[j]),
                        forall|j: int| 0 <= j < i ==> expr_supported(#[trigger] elements@[j]),
                    decreases n - i,
                {
                    let ghost before = *self;
                    self.compile_expression(&elements[i])?;
                    proof {
                        lemma_extends_trans(pre, before, *self);
                    }
                    i = i + 1;
                }
                let ghost s1 = *self;
                self.emit_instruction(Instruction::NewArray(n), 0);
                proof {
                    lemma_extends_trans(pre, s1, *self);
                }
                Ok(())
            },
            Expression::Object { properties } => {
                self.emit_instruction(Instruction::NewObject, 0);
                let n = properties.len();
                let mut i: usize = 0;
                proof {
                    lemma_expr_props_supported_index(properties@);
                }
                while i < n
                    invariant
                        i <= n,
                        n == properties@.len(),
                        (*expression) is Object,
                        properties == expression->Object_properties,
                        compiler_wf(*self),
                        extends(pre, *self),
                        self.locals@ == pre.locals@,
                        compiler_wf(pre),
                        expr_props_supported(properties@) <==> forall|j: int|
                            0 <= j < n ==> expr_supported((#[trigger] properties@[j]).1),
                        forall|j: int|
                            0 <= j < i ==> expr_supported((#[trigger] properties@[j]).1),
                    decreases n - i,
                {
                    let ghost before = *self;
                    self.compile_expression(&properties[i].1)?;
                    let ghost mid = *self;
                    self.emit_instruction(
                        Instruction::SetProperty(properties[i].0.clone()),
                        0,
                    );
                    proof {
                        lemma_extends_trans(before, mid, *self);
                        lemma_extends_trans(pre, before, *self);
                    }
                    i = i + 1;
                }
                Ok(())
            },
            Expression::Index { object, index } => {
                self.compile_expression(object)?;
                let ghost s1 = *self;
                self.compile_expression(index)?;
                let ghost s2 = *self;
                self.emit_instruction(Instruction::GetIndex, 0);
                proof {
                    lemma_extends_trans(pre, s1, s2);
                    lemma_extends_trans(pre, s2, *self);
                }
                Ok(())
            },
            Expression::PropertyAccess { object, property } => {
                self.compile_expression(object)?;
                let ghost s1 = *self;
                self.emit_instruction(Instruction::GetProperty(property.clone()), 0);
                proof {
                    lemma_extends_trans(pre, s1, *self);
                }
                Ok(())
            },
            Expression::Lambda { parameters, body } => {
                let arity = check_parameters(parameters)?;
                let saved_chunk = self.current_chunk;
                let saved_depth = self.scope_depth;
                let mut fresh_locals: Vec<String> = Vec::new();
                let mut i: usize = 0;
                while i < parameters.len()
                    invariant
                        i <= parameters@.len(),
                        fresh_locals@.len() == i,
                    decreases parameters@.len() - i,
                {
                    fresh_locals.push(parameters[i].name.clone());
                    i = i + 1;
                }
                let mut saved_locals = fresh_locals;
                core::mem::swap(&mut saved_locals, &mut self.locals);
                self.chunks.push(Chunk::new());
                self.current_chunk = self.chunks.len() - 1;
                self.scope_depth = if saved_depth == usize::MAX {
                    saved_depth
                } else {
                    saved_depth + 1
                };
                proof {
                    assert(compiler_wf(*self));
                }
                let body_result = self.compile_expression(body);
                match body_result {
                    Ok(()) => {},
                    Err(e) => {
                        return Err(e);
                    },
                }
                self.emit_instruction(Instruction::ReturnValue, 0);
                let address = self.current_chunk;
                core::mem::swap(&mut saved_locals, &mut self.locals);
                self.current_chunk = saved_chunk;
                self.scope_depth = saved_depth;
                let ghost s1 = *self;
                proof {
                    assert(extends(pre, s1)) by {
                        assert(cur_instrs(s1).subrange(0, cur_instrs(pre).len() as int)
                            =~= cur_instrs(pre));
                        assert(cur_consts(s1).subrange(0, cur_consts(pre).len() as int)
                            =~= cur_consts(pre));
                    }
                }
                self.emit_constant(
                    Value::BytecodeFunction { address, arity, locals_count: arity },
                    0,
                );
                proof {
                    lemma_extends_trans(pre, s1, *self);
                }
                Ok(())
            },
        }
    }
}

/// Reject parameters the bytecode path cannot represent: default values
/// and variadic markers belong to the tree-walking path.  The check
/// succeeds exactly on supported parameter lists.
fn check_parameters(parameters: &Vec<Parameter>) -> (r: Result<usize, FlowError>)
    ensures
        r is Ok <==> params_supported(parameters@),
        match r {
            Ok(n) => n == parameters@.len(),
            Err(e) => e is CompilationError,
        },
{
    let n = parameters.len();
    let mut i: usize = 0;
    while i < n
        invariant
            i <= n,
            n == parameters@.len(),
            forall|j: int|
                0 <= j < i ==> (#[trigger] parameters@[j]).default_value is None
                    && !parameters@[j].is_variadic,
        decreases n - i,
    {
        if parameters[i].default_value.is_some() {
            return Err(
                FlowError::CompilationError {
                    construct: UnsupportedConstruct::DefaultParameter,
                },
            );
        }
        if parameters[i].is_variadic {
            return Err(
                FlowError::CompilationError {
                    construct: UnsupportedConstruct::VariadicParameter,
                },
            );
        }
        i = i + 1;
    }
    Ok(n)
}

/// Patching a jump emitted after `pre`'s code leaves everything `pre`
/// had emitted intact, so growth from `pre` still holds.
pub proof fn lemma_extends_after_patch(pre: Compiler, s3: Compiler, post: Compiler, at: int)
    requires
        extends(pre, s3),
        at >= cur_instrs(pre).len(),
        0 <= at < cur_instrs(s3).len(),
        post.current_chunk == s3.current_chunk,
        post.chunks@.len() == s3.chunks@.len(),
        post.scope_depth == s3.scope_depth,
        forall|i: int|
            0 <= i < s3.chunks@.len() && i != s3.current_chunk ==> chunk_same(
                #[trigger] post.chunks@[i],
                s3.chunks@[i],
            ),
        cur_consts(post) == cur_consts(s3),
        cur_instrs(post) == cur_instrs(s3).update(
            at,
            patched_jump(cur_instrs(s3)[at], cur_instrs(s3).len() as int),
        ),
    ensures
        extends(pre, post),
{
    assert(cur_instrs(post).subrange(0, cur_instrs(pre).len() as int) =~= cur_instrs(pre))
        by {
        assert(forall|i: int|
            0 <= i < cur_instrs(pre).len() ==> cur_instrs(s3).subrange(
                0,
                cur_instrs(pre).len() as int,
            )[i] == #[trigger] cur_instrs(pre)[i]);
    }
    assert(cur_consts(post).subrange(0, cur_consts(pre).len() as int) =~= cur_consts(pre))
        by {
        assert(forall|i: int|
            0 <= i < cur_consts(pre).len() ==> cur_consts(s3).subrange(
                0,
                cur_consts(pre).len() as int,
            )[i] == #[trigger] cur_consts(pre)[i]);
    }
    assert forall|i: int|
        0 <= i < pre.chunks@.len() && i != pre.current_chunk implies chunk_same(
        #[trigger] post.chunks@[i],
        pre.chunks@[i],
    ) by {
        assert(chunk_same(s3.chunks@[i], pre.chunks@[i]));
        assert(chunk_same(post.chunks@[i], s3.chunks@[i]));
    }
}

/// Patching a jump preserves the emitted prefix except at the patched
/// slot, which remains a jump; growth facts carry over.
pub proof fn lemma_patch_extends(pre: Compiler, post: Compiler, at: int)
    requires
        pre.current_chunk < pre.chunks@.len(),
        post.current_chunk == pre.current_chunk,
        post.chunks@.len() == pre.chunks@.len(),
        post.scope_depth == pre.scope_depth,
        forall|i: int|
            0 <= i < pre.chunks@.len() && i != pre.current_chunk ==> chunk_same(
                #[trigger] post.chunks@[i],
                pre.chunks@[i],
            ),
        cur_consts(post) == cur_consts(pre),
        0 <= at < cur_instrs(pre).len(),
        cur_instrs(post) == cur_instrs(pre).update(
            at,
            patched_jump(cur_instrs(pre)[at], cur_instrs(pre).len() as int),
        ),
    ensures
        post.chunks@.len() >= pre.chunks@.len(),
        cur_instrs(post).len() == cur_instrs(pre).len(),
{
}

impl Compiler {
    /// Compile one statement.  Declarations at scope depth zero store
    /// globals; deeper declarations allocate a fresh local slot.  The
    /// `if`, `while` and `for` forms emit a condition, a conditional
    /// forward jump patched to the instruction after the branch, and, for
    /// the loops, a backward jump to the loop start.  Module and
    /// exception constructs are deliberately rejected.
    pub fn compile_statement(&mut self, statement: &Statement) -> (r: Result<(), FlowError>)
        requires
            compiler_wf(*old(self)),
        ensures
            compiler_wf(*final(self)),
            r is Ok ==> stmt_supported(*statement),
            r is Err ==> !stmt_supported(*statement),
            r is Ok && (*statement) is Show ==> ({
                let code = cur_instrs(*final(self));
                &&& code.len() >= cur_instrs(*old(self)).len() + 1
                &&& code.last() == Instruction::Print
                &&& final(self).locals@ == old(self).locals@
            }),
            r is Ok && (*statement) is VariableDeclaration ==> ({
                let code = cur_instrs(*final(self));
                let name = statement->VariableDeclaration_name@;
                &&& code.len() >= cur_instrs(*old(self)).len() + 1
                &&& decl_store(
                    code.last(),
                    old(self).scope_depth as int,
                    old(self).locals@,
                    name,
                )
                &&& (old(self).scope_depth == 0 ==> final(self).locals@ == old(self).locals@)
                &&& (old(self).scope_depth != 0 ==> final(self).locals@.len()
                    == old(self).locals@.len() + 1 && final(self).locals@.last()@ == name
                    && forall|j: int|
                    0 <= j < old(self).locals@.len() ==> final(self).locals@[j]
                        == old(self).locals@[j])
            }),
            r is Ok && (*statement) is VariableDeclaration && int_literal(
                statement->VariableDeclaration_value,
            ) ==> ({
                let n = cur_instrs(*old(self)).len() as int;
                let code = cur_instrs(*final(self));
                &&& code.len() == n + 2
                &&& loads_int(
                    n,
                    code,
                    cur_consts(*final(self)),
                    statement->VariableDeclaration_value->Literal_0->Integer_0 as int,
                )
            }),
            r is Ok && (*statement) is Show && binary_of_idents(statement->Show_0) ==> ({
                let n = cur_instrs(*old(self)).len() as int;
                let code = cur_instrs(*final(self));
                &&& code.len() == n + 4
                &&& ident_load(
                    code[n],
                    locals_views(old(self).locals@),
                    statement->Show_0->Binary_left->Identifier_0@,
                )
                &&& ident_load(
                    code[n + 1],
                    locals_views(old(self).locals@),
                    statement->Show_0->Binary_right->Identifier_0@,
                )
                &&& code[n + 2] == binop_instruction(statement->Show_0->Binary_operator)
                &&& code[n + 3] == Instruction::Print
            }),
            r is Ok && (*statement) is Show && (statement->Show_0) is Identifier ==> ({
                let n = cur_instrs(*old(self)).len() as int;
                let code = cur_instrs(*final(self));
                &&& code.len() == n + 2
                &&& ident_load(
                    code[n],
                    locals_views(old(self).locals@),
                    statement->Show_0->Identifier_0@,
                )
                &&& code[n + 1] == Instruction::Print
            }),
            r is Ok && (*statement) is FunctionDeclaration ==> ({
                let n = cur_instrs(*old(self)).len() as int;
                let code = cur_instrs(*final(self));
                let consts = cur_consts(*final(self));
                &&& code.len() == n + 2
                &&& code[n] is LoadConstant
                &&& code[n]->LoadConstant_0 < consts.len()
                &&& ({
                    let fv = crate::value::vabs(consts[code[n]->LoadConstant_0 as int]);
                    &&& fv is Func
                    &&& fv->Func_arity == statement->FunctionDeclaration_parameters@.len()
                    &&& old(self).chunks@.len() <= fv->Func_address
                    &&& fv->Func_address < final(self).chunks@.len()
                    &&& fv->Func_address != old(self).current_chunk
                    &&& final(self).chunks@[fv->Func_address].instructions@.len() >= 1
                    &&& final(self).chunks@[fv->Func_address].instructions@.last()
                        == Instruction::Return
                })
                &&& code[n + 1] is StoreGlobal
                &&& code[n + 1]->StoreGlobal_0@ == statement->FunctionDeclaration_name@
            }),
            r is Ok && fn_body_shows_ident(*statement) ==> ({
                let n = cur_instrs(*old(self)).len() as int;
                let code = cur_instrs(*final(self));
                let consts = cur_consts(*final(self));
                let fv = crate::value::vabs(consts[code[n]->LoadConstant_0 as int]);
                let fcode = final(self).chunks@[fv->Func_address].instructions@;
                &&& fcode.len() == 3
                &&& ident_load(
                    fcode[0],
                    param_names(statement->FunctionDeclaration_parameters@),
                    statement->FunctionDeclaration_body@[0]->Show_0->Identifier_0@,
                )
                &&& fcode[1] == Instruction::Print
                &&& fcode[2] == Instruction::Return
            }),
            (*statement) is Import ==> (r matches Err(e) && e == (
            FlowError::CompilationError { construct: UnsupportedConstruct::Import })),
            (*statement) is Export ==> (r matches Err(e) && e == (
            FlowError::CompilationError { construct: UnsupportedConstruct::Export })),
            (*statement) is TryCatch ==> (r matches Err(e) && e == (
            FlowError::CompilationError { construct: UnsupportedConstruct::TryCatch })),
            r is Ok ==> extends(*old(self), *final(self)),
            r is Ok && if_with_bool_cond_no_else(*statement) ==> ({
                let n = cur_instrs(*old(self)).len() as int;
                let code = cur_instrs(*final(self));
                &&& code.len() >= n + 2
                &&& loads_bool(
                    n,
                    code,
                    cur_consts(*final(self)),
                    literal_bool(statement->If_condition),
                )
                &&& code[n + 1] is JumpIfFalse
                &&& code[n + 1]->JumpIfFalse_0 == code.len()
            }),
        decreases *statement,
    {
        let ghost pre = *self;
        match statement {
            Statement::Expression(expr) => {
                self.compile_expression(expr)?;
                let ghost s1 = *self;
                self.emit_instruction(Instruction::Pop, 0);
                proof {
                    lemma_extends_trans(pre, s1, *self);
                }
                Ok(())
            },
            Statement::VariableDeclaration { name, value } => {
                self.compile_expression(value)?;
                let ghost s1 = *self;
                if self.scope_depth == 0 {
                    self.emit_instruction(Instruction::StoreGlobal(name.clone()), 0);
                } else {
                    self.locals.push(name.clone());
                    let index = self.locals.len() - 1;
                    self.emit_instruction(Instruction::StoreLocal(index), 0);
                }
                proof {
                    lemma_extends_trans(pre, s1, *self);
                }
                Ok(())
            },
            Statement::Show(expr) => {
                self.compile_expression(expr)?;
                let ghost s1 = *self;
                self.emit_instruction(Instruction::Print, 0);
                proof {
                    lemma_extends_trans(pre, s1, *self);
                }
                Ok(())
            },
            Statement::Return(expr) => {
                match expr {
                    Some(e) => {
                        self.compile_expression(e)?;
                        let ghost s1 = *self;
                        self.emit_instruction(Instruction::ReturnValue, 0);
                        proof {
                            lemma_extends_trans(pre, s1, *self);
                        }
                    },
                    None => {
                        self.emit_instruction(Instruction::Return, 0);
                    },
                }
                Ok(())
            },
            Statement::If { condition, then_branch, else_branch } => {
                self.compile_expression(condition)?;
                let ghost s1 = *self;
                let else_jump = self.emit_jump(Instruction::JumpIfFalse(0), 0);
                let ghost s2 = *self;
                proof {
                    lemma_extends_trans(pre, s1, s2);
                    lemma_extends_refl(s2);
                }
                let n = then_branch.len();
                let mut i: usize = 0;
                proof {
                    lemma_stmts_supported_index(then_branch@);
                }
                while i < n
                    invariant
                        i <= n,
                        n == then_branch@.len(),
                        (*statement) is If,
                        then_branch == statement->If_then_branch,
                        expr_supported(statement->If_condition),
                        compiler_wf(*self),
                        extends(s2, *self),
                        compiler_wf(s2),
                        extends(pre, s2),
                        else_jump < cur_instrs(s2).len(),
                        else_jump >= cur_instrs(pre).len(),
                        cur_instrs(s2)[else_jump as int] is JumpIfFalse,
                        stmts_supported(then_branch@) <==> forall|j: int|
                            0 <= j < n ==> stmt_supported(#[trigger] then_branch@[j]),
                        forall|j: int|
                            0 <= j < i ==> stmt_supported(#[trigger] then_branch@[j]),
                    decreases n - i,
                {
                    let ghost before = *self;
                    self.compile_statement(&then_branch[i])?;
                    proof {
                        lemma_extends_trans(s2, before, *self);
                    }
                    i = i + 1;
                }
                match else_branch {
                    Some(else_stmts) => {
                        let ghost sl = *self;
                        let end_jump = self.emit_jump(Instruction::Jump(0), 0);
                        let ghost s3 = *self;
                        proof {
                            lemma_extends_trans(s2, sl, s3);
                            lemma_extends_trans(pre, s2, s3);
                            assert(cur_instrs(*self)[else_jump as int] == cur_instrs(
                                s2,
                            )[else_jump as int]);
                        }
                        self.patch_jump(else_jump);
                        let ghost s4 = *self;
                        proof {
                            lemma_extends_after_patch(pre, s3, s4, else_jump as int);
                            lemma_extends_refl(s4);
                            assert(end_jump >= cur_instrs(s2).len());
                            assert(end_jump >= cur_instrs(pre).len());
                            assert(cur_instrs(s4)[end_jump as int] == cur_instrs(
                                s3,
                            )[end_jump as int]);
                            assert(cur_instrs(s4)[end_jump as int] is Jump);
                        }
                        let n2 = else_stmts.len();
                        let mut k: usize = 0;
                        proof {
                            lemma_stmts_supported_index(else_stmts@);
                        }
                        while k < n2
                            invariant
                                k <= n2,
                                n2 == else_stmts@.len(),
                                (*statement) is If,
                                statement->If_else_branch == Some(*else_stmts),
                                expr_supported(statement->If_condition),
                                stmts_supported(statement->If_then_branch@),
                                compiler_wf(*self),
                                extends(s4, *self),
                                compiler_wf(s4),
                                extends(pre, s4),
                                end_jump < cur_instrs(s4).len(),
                                end_jump >= cur_instrs(pre).len(),
                                cur_instrs(s4)[end_jump as int] is Jump,
                                stmts_supported(else_stmts@) <==> forall|j: int|
                                    0 <= j < n2 ==> stmt_supported(
                                        #[trigger] else_stmts@[j],
                                    ),
                                forall|j: int|
                                    0 <= j < k ==> stmt_supported(#[trigger] else_stmts@[j]),
                            decreases n2 - k,
                        {
                            proof {
                                assert(decreases_to!(*statement => else_stmts@[k as int]))
                                    by {
                                    assert(statement->If_else_branch == Some(*else_stmts));
                                    assert(decreases_to!(
                                        *statement => statement->If_else_branch));
                                    assert(decreases_to!(
                                        statement->If_else_branch
                                        => statement->If_else_branch->0));
                                    assert(statement->If_else_branch->0 == *else_stmts);
                                    assert(decreases_to!(*else_stmts => else_stmts@));
                                    assert(decreases_to!(
                                        else_stmts@ => else_stmts@[k as int]));
                                }
                            }
                            let ghost before = *self;
                            self.compile_statement(&else_stmts[k])?;
                            proof {
                                lemma_extends_trans(s4, before, *self);
                            }
                            k = k + 1;
                        }
                        let ghost s5 = *self;
                        proof {
                            lemma_extends_trans(pre, s4, s5);
                            assert(cur_instrs(*self)[end_jump as int] == cur_instrs(
                                s4,
                            )[end_jump as int]);
                        }
                        self.patch_jump(end_jump);
                        proof {
                            lemma_extends_after_patch(pre, s5, *self, end_jump as int);
                        }
                    },
                    None => {
                        let ghost s3 = *self;
                        proof {
                            lemma_extends_trans(pre, s2, s3);
                            assert(cur_instrs(*self)[else_jump as int] == cur_instrs(
                                s2,
                            )[else_jump as int]);
                        }
                        self.patch_jump(else_jump);
                        proof {
                            lemma_extends_after_patch(pre, s3, *self, else_jump as int);
                            if if_with_bool_cond_no_else(*statement) {
                                let n = cur_instrs(pre).len() as int;
                                let code = cur_instrs(*self);
                                let kinst = cur_instrs(s1)[n];
                                assert(loads_bool(
                                    n,
                                    cur_instrs(s1),
                                    cur_consts(s1),
                                    literal_bool(statement->If_condition),
                                ));
                                lemma_prefix_index(cur_instrs(s2), cur_instrs(s3), n);
                                assert(code[n] == kinst);
                                assert(code[n + 1] is JumpIfFalse && code[n
                                    + 1]->JumpIfFalse_0 == code.len());
                                let k = kinst->LoadConstant_0;
                                lemma_prefix_index(
                                    cur_consts(s2),
                                    cur_consts(s3),
                                    k as int,
                                );
                                assert(cur_consts(*self)[k as int] == cur_consts(
                                    s1,
                                )[k as int]);
                            }
                        }
                    },
                }
                Ok(())
            },
            Statement::While { condition, body } => {
                let loop_start = self.chunks[self.current_chunk].instructions.len();
                self.compile_expression(condition)?;
                let ghost s1 = *self;
                let exit_jump = self.emit_jump(Instruction::JumpIfFalse(0), 0);
                let ghost s2 = *self;
                proof {
                    lemma_extends_trans(pre, s1, s2);
                    lemma_extends_refl(s2);
                }
                let n = body.len();
                let mut i: usize = 0;
                proof {
                    lemma_stmts_supported_index(body@);
                }
                while i < n
                    invariant
                        i <= n,
                        n == body@.len(),
                        (*statement) is While,
                        body == statement->While_body,
                        expr_supported(statement->While_condition),
                        compiler_wf(*self),
                        extends(s2, *self),
                        compiler_wf(s2),
                        extends(pre, s2),
                        exit_jump < cur_instrs(s2).len(),
                        exit_jump >= cur_instrs(pre).len(),
                        cur_instrs(s2)[exit_jump as int] is JumpIfFalse,
                        loop_start <= cur_instrs(s2).len(),
                        stmts_supported(body@) <==> forall|j: int|
                            0 <= j < n ==> stmt_supported(#[trigger] body@[j]),
                        forall|j: int| 0 <= j < i ==> stmt_supported(#[trigger] body@[j]),
                    decreases n - i,
                {
                    let ghost before = *self;
                    self.compile_statement(&body[i])?;
                    proof {
                        lemma_extends_trans(s2, before, *self);
                    }
                    i = i + 1;
                }
                let ghost s3 = *self;
                self.emit_instruction(Instruction::Jump(loop_start), 0);
                let ghost s4 = *self;
                proof {
                    lemma_extends_trans(s2, s3, s4);
                    lemma_extends_trans(pre, s2, s4);
                    assert(cur_instrs(*self)[exit_jump as int] == cur_instrs(
                        s2,
                    )[exit_jump as int]);
                }
                self.patch_jump(exit_jump);
                proof {
                    lemma_extends_after_patch(pre, s4, *self, exit_jump as int);
                }
                Ok(())
            },
            Statement::For { variable, start, end, body } => {
                self.compile_expression(start)?;
                let ghost s1 = *self;
                self.locals.push(variable.clone());
                let var_index = self.locals.len() - 1;
                self.emit_instruction(Instruction::StoreLocal(var_index), 0);
                let ghost sa = *self;
                let loop_start = self.chunks[self.current_chunk].instructions.len();
                self.emit_instruction(Instruction::LoadLocal(var_index), 0);
                let ghost s2 = *self;
                proof {
                    lemma_extends_trans(s1, sa, s2);
                    lemma_extends_trans(pre, s1, s2);
                }
                self.compile_expression(end)?;
                let ghost s3 = *self;
                self.emit_instruction(Instruction::Less, 0);
                let ghost s4 = *self;
                let exit_jump = self.emit_jump(Instruction::JumpIfFalse(0), 0);
                let ghost s5 = *self;
                proof {
                    lemma_extends_trans(s2, s3, s4);
                    lemma_extends_trans(s2, s4, s5);
                    lemma_extends_trans(pre, s2, s5);
                    lemma_extends_refl(s5);
                }
                let n = body.len();
                let mut i: usize = 0;
                proof {
                    lemma_stmts_supported_index(body@);
                }
                while i < n
                    invariant
                        i <= n,
                        n == body@.len(),
                        (*statement) is For,
                        body == statement->For_body,
                        expr_supported(statement->For_start),
                        expr_supported(statement->For_end),
                        compiler_wf(*self),
                        extends(s5, *self),
                        compiler_wf(s5),
                        extends(pre, s5),
                        exit_jump < cur_instrs(s5).len(),
                        exit_jump >= cur_instrs(pre).len(),
                        cur_instrs(s5)[exit_jump as int] is JumpIfFalse,
                        loop_start <= cur_instrs(s5).len(),
                        stmts_supported(body@) <==> forall|j: int|
                            0 <= j < n ==> stmt_supported(#[trigger] body@[j]),
                        forall|j: int| 0 <= j < i ==> stmt_supported(#[trigger] body@[j]),
                    decreases n - i,
                {
                    let ghost before = *self;
                    self.compile_statement(&body[i])?;
                    proof {
                        lemma_extends_trans(s5, before, *self);
                    }
                    i = i + 1;
                }
                let ghost s6 = *self;
                self.emit_instruction(Instruction::LoadLocal(var_index), 0);
                let ghost s7 = *self;
                self.emit_constant(Value::Integer(1), 0);
                let ghost s8 = *self;
                self.emit_instruction(Instruction::Add, 0);
                let ghost s9 = *self;
                self.emit_instruction(Instruction::StoreLocal(var_index), 0);
                let ghost s10 = *self;
                self.emit_instruction(Instruction::Jump(loop_start), 0);
                let ghost s11 = *self;
                proof {
                    lemma_extends_trans(s5, s6, s7);
                    lemma_extends_trans(s5, s7, s8);
                    lemma_extends_trans(s5, s8, s9);
                    lemma_extends_trans(s5, s9, s10);
                    lemma_extends_trans(s5, s10, s11);
                    lemma_extends_trans(pre, s5, s11);
                    assert(cur_instrs(*self)[exit_jump as int] == cur_instrs(
                        s5,
                    )[exit_jump as int]);
                }
                self.patch_jump(exit_jump);
                proof {
                    lemma_extends_after_patch(pre, s11, *self, exit_jump as int);
                }
                self.locals.pop();
                Ok(())
            },
            Statement::FunctionDeclaration { name, parameters, body } => {
                let arity = check_parameters(parameters)?;
                let saved_chunk = self.current_chunk;
                let saved_depth = self.scope_depth;
                let mut fresh_locals: Vec<String> = Vec::new();
                let mut i: usize = 0;
                while i < parameters.len()
                    invariant
                        i <= parameters@.len(),
                        (*statement) is FunctionDeclaration,
                        parameters == statement->FunctionDeclaration_parameters,
                        fresh_locals@.len() == i,
                        forall|j: int|
                            0 <= j < i ==> (#[trigger] fresh_locals@[j])@
                                == parameters@[j].name@,
                    decreases parameters@.len() - i,
                {
                    fresh_locals.push(parameters[i].name.clone());
                    i = i + 1;
                }
                proof {
                    assert(locals_views(fresh_locals@) =~= param_names(parameters@));
                }
                let mut saved_locals = fresh_locals;
                core::mem::swap(&mut saved_locals, &mut self.locals);
                self.chunks.push(Chunk::new());
                self.current_chunk = self.chunks.len() - 1;
                self.scope_depth = if saved_depth == usize::MAX {
                    saved_depth
                } else {
                    saved_depth + 1
                };
                proof {
                    assert(compiler_wf(*self));
                }
                let n = body.len();
                let mut k: usize = 0;
                let ghost fpre = *self;
                proof {
                    lemma_extends_refl(fpre);
                    lemma_stmts_supported_index(body@);
                }
                while k < n
                    invariant
                        k <= n,
                        n == body@.len(),
                        (*statement) is FunctionDeclaration,
                        body == statement->FunctionDeclaration_body,
                        parameters == statement->FunctionDeclaration_parameters,
                        params_supported(statement->FunctionDeclaration_parameters@),
                        stmts_supported(body@) <==> forall|j: int|
                            0 <= j < n ==> stmt_supported(#[trigger] body@[j]),
                        forall|j: int| 0 <= j < k ==> stmt_supported(#[trigger] body@[j]),
                        locals_views(fpre.locals@) == param_names(parameters@),
                        cur_instrs(fpre).len() == 0,
                        fn_body_shows_ident(*statement) ==> self.locals@ == fpre.locals@,
                        (fn_body_shows_ident(*statement) && k == 0) ==> cur_instrs(*self)
                            == cur_instrs(fpre),
                        (fn_body_shows_ident(*statement) && k == 1) ==> ({
                            let fcode = cur_instrs(*self);
                            &&& fcode.len() == 2
                            &&& ident_load(
                                fcode[0],
                                param_names(parameters@),
                                body@[0]->Show_0->Identifier_0@,
                            )
                            &&& fcode[1] == Instruction::Print
                        }),
                        compiler_wf(*self),
                        extends(fpre, *self),
                        compiler_wf(fpre),
                        fpre.chunks@.len() > pre.chunks@.len(),
                        pre.current_chunk < pre.chunks@.len(),
                        fpre.current_chunk == fpre.chunks@.len() - 1,
                        pre.current_chunk == saved_chunk,
                        chunk_same(fpre.chunks@[saved_chunk as int], pre.chunks@[saved_chunk as int]),
                        forall|t: int|
                            0 <= t < pre.chunks@.len() && t != pre.current_chunk
                                ==> chunk_same(
                                #[trigger] fpre.chunks@[t],
                                pre.chunks@[t],
                            ),
                    decreases n - k,
                {
                    let ghost before = *self;
                    let body_result = self.compile_statement(&body[k]);
                    match body_result {
                        Ok(()) => {},
                        Err(e) => {
                            return Err(e);
                        },
                    }
                    proof {
                        lemma_extends_trans(fpre, before, *self);
                    }
                    k = k + 1;
                }
                let ghost floop = *self;
                self.emit_instruction(Instruction::Return, 0);
                let ghost fend = *self;
                proof {
                    lemma_extends_trans(fpre, floop, fend);
                }
                let address = self.current_chunk;
                core::mem::swap(&mut saved_locals, &mut self.locals);
                self.current_chunk = saved_chunk;
                self.scope_depth = saved_depth;
                let ghost s1 = *self;
                proof {
                    assert(chunk_same(
                        s1.chunks@[saved_chunk as int],
                        pre.chunks@[saved_chunk as int],
                    ));
                    assert(extends(pre, s1)) by {
                        assert(cur_instrs(s1).subrange(0, cur_instrs(pre).len() as int)
                            =~= cur_instrs(pre));
                        assert(cur_consts(s1).subrange(0, cur_consts(pre).len() as int)
                            =~= cur_consts(pre));
                    }
                }
                self.emit_constant(
                    Value::BytecodeFunction { address, arity, locals_count: arity },
                    0,
                );
                let ghost s2 = *self;
                self.emit_instruction(Instruction::StoreGlobal(name.clone()), 0);
                proof {
                    lemma_extends_trans(s1, s2, *self);
                    lemma_extends_trans(pre, s1, *self);
                }
                Ok(())
            },
            Statement::Import(_) => Err(
                FlowError::CompilationError { construct: UnsupportedConstruct::Import },
            ),
            Statement::Export(_) => Err(
                FlowError::CompilationError { construct: UnsupportedConstruct::Export },
            ),
            Statement::TryCatch { .. } => Err(
                FlowError::CompilationError { construct: UnsupportedConstruct::TryCatch },
            ),
        }
    }
}

/// Compile a whole program: every statement into the script chunk, then a
/// final halt.  Compilation succeeds exactly when every statement is
/// supported: the only rejections are the deliberately unimplemented
/// constructs (import, export, try/catch), parameters with default values
/// or variadic markers, non-canonical big-integer literals, and call
/// argument counts beyond the two-byte operand.  On success every
/// produced chunk is well-formed, so the virtual machine can take the
/// result as a program image.
pub fn compile_program(program: &Program) -> (r: Result<Vec<Chunk>, FlowError>)
    ensures
        r is Ok <==> stmts_supported(program.statements@),
        match r {
            Ok(chunks) => {
                &&& chunks@.len() >= 1
                &&& forall|i: int| 0 <= i < chunks@.len() ==> chunk_wf(#[trigger] chunks@[i])
                &&& chunks@[0].instructions@.len() >= 1
                &&& chunks@[0].instructions@.last() == Instruction::Halt
            },
            Err(_) => true,
        },
{
    let mut compiler = Compiler::new();
    let ghost pre = compiler;
    let n = program.statements.len();
    let mut i: usize = 0;
    proof {
        lemma_extends_refl(pre);
        lemma_stmts_supported_index(program.statements@);
    }
    while i < n
        invariant
            i <= n,
            n == program.statements@.len(),
            compiler_wf(compiler),
            compiler.current_chunk == 0,
            stmts_supported(program.statements@) <==> forall|j: int|
                0 <= j < n ==> stmt_supported(#[trigger] program.statements@[j]),
            forall|j: int|
                0 <= j < i ==> stmt_supported(#[trigger] program.statements@[j]),
        decreases n - i,
    {
        compiler.compile_statement(&program.statements[i])?;
        i = i + 1;
    }
    compiler.emit_instruction(Instruction::Halt, 0);
    Ok(compiler.chunks)
}

} // verus!
