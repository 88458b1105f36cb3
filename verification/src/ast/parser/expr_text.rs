use vstd::prelude::*;

use crate::ast::ast::{BlockExpr, Expr, ExprValue, Operator};
use crate::ast::parser::{made_last, ParseHalt};
use crate::compiler::context::Context;
use crate::ast::lexer::{decl_stop, expr_stop, ran_until, step, steps, LexState, Ty};
use crate::ast::parser::infix_expr::{
    ends_expr, infix_of, infix_prec, prec_rank, InfixParselet, Precedence, RangeExprParselet,
};
use crate::ast::parser::literal::{f64_text_ok, i64_text_value, strip_underscores};
use crate::compiler::str_store::{lemma_names_text_grow, names_text};
use crate::index_vec::Indexer;

verus! {

/// An expression as written, with the texts of its names.
pub ghost enum ExprText {
    Invalid(&'static str),
    Ident(Option<Seq<char>>, Seq<char>),
    Call(Box<ExprText>, Seq<ExprText>),
    Block(Seq<ExprText>),
    Return(Option<Box<ExprText>>),
    If(Box<ExprText>, Seq<ExprText>),
    Loop(Seq<ExprText>),
    Range(Box<ExprText>, Box<ExprText>),
    Break,
    Binary(Box<ExprText>, Operator, Box<ExprText>),
    Int(i64),
    Float(Seq<char>),
    Bool(bool),
}

/// What reading from a lexer state gives: what was read and the state after it; or the source
/// uses a form that is not handled (`Halt`, with the reason parsing stops); or the lexer does
/// not move forward (`Stuck`, which a lexer that reads its source never does).
pub ghost enum Reading<T> {
    Done(T, LexState),
    Halt(ParseHalt),
    Stuck,
}

/// The input left at `s`: the characters after its cursor, and one for a token held that is not
/// the end of input.
pub open spec fn rem(src: Seq<char>, s: LexState) -> nat {
    (src.len() - s.cursor) as nat + if s.peek.ty == Ty::Eof {
        0nat
    } else {
        1nat
    }
}

/// `n` steps from `s` reach the first token that is a `;`, a `}` or the end of input.
pub open spec fn stops_after(src: Seq<char>, s: LexState, n: nat) -> bool {
    &&& ran_until(src, s, n, expr_stop())
    &&& {
        let last = steps(src, s, (n - 1) as nat).peek.ty;
        expr_stop()(last) || last == Ty::Eof
    }
}

/// The state after skipping a broken expression from `s`: past the first `;` or `}`; at the end
/// of input, the end of input stays the token held.
pub open spec fn skip_expr(src: Seq<char>, s: LexState) -> LexState {
    let n = choose|n: nat| stops_after(src, s, n);
    if expr_stop()(steps(src, s, (n - 1) as nat).peek.ty) {
        steps(src, s, n)
    } else {
        steps(src, s, (n - 1) as nat)
    }
}

/// At most one count of steps reaches the first `;`, `}` or end of input.
pub proof fn lemma_stops_after_unique(src: Seq<char>, s: LexState, a: nat, b: nat)
    requires
        stops_after(src, s, a),
        stops_after(src, s, b),
    ensures
        a == b,
{
    if a < b {
        let k = (a - 1) as nat;
        assert(k + 1 < b);
        assert(!expr_stop()(steps(src, s, k).peek.ty) && steps(src, s, k).peek.ty != Ty::Eof);
    } else if b < a {
        let k = (b - 1) as nat;
        assert(k + 1 < a);
        assert(!expr_stop()(steps(src, s, k).peek.ty) && steps(src, s, k).peek.ty != Ty::Eof);
    }
}

/// `n` steps from `s` reach the first token that starts a declaration or is the end of input.
pub open spec fn decl_stops_after(src: Seq<char>, s: LexState, n: nat) -> bool {
    &&& ran_until(src, s, n, decl_stop())
    &&& {
        let last = steps(src, s, (n - 1) as nat).peek.ty;
        decl_stop()(last) || last == Ty::Eof
    }
}

/// The state after skipping a broken declaration from `s`: the token held is the first that
/// starts a declaration, or the end of input.
pub open spec fn skip_decl(src: Seq<char>, s: LexState) -> LexState {
    steps(src, s, ((choose|n: nat| decl_stops_after(src, s, n)) - 1) as nat)
}

/// At most one count of steps reaches the first declaration keyword or end of input.
pub proof fn lemma_decl_stops_after_unique(src: Seq<char>, s: LexState, a: nat, b: nat)
    requires
        decl_stops_after(src, s, a),
        decl_stops_after(src, s, b),
    ensures
        a == b,
{
    if a < b {
        let k = (a - 1) as nat;
        assert(k + 1 < b);
        assert(!decl_stop()(steps(src, s, k).peek.ty) && steps(src, s, k).peek.ty != Ty::Eof);
    } else if b < a {
        let k = (b - 1) as nat;
        assert(k + 1 < a);
        assert(!decl_stop()(steps(src, s, k).peek.ty) && steps(src, s, k).peek.ty != Ty::Eof);
    }
}

/// The expression an integer literal written `text` stands for.
pub open spec fn int_text(text: Seq<char>) -> ExprText {
    match i64_text_value(strip_underscores(text)) {
        Some(n) => ExprText::Int(n),
        None => ExprText::Invalid("invalid integer literal"),
    }
}

/// The expression a float literal written `text` stands for.
pub open spec fn float_text(text: Seq<char>) -> ExprText {
    if f64_text_ok(strip_underscores(text)) {
        ExprText::Float(text)
    } else {
        ExprText::Invalid("invalid float literal")
    }
}

/// Reading an expression at `s` whose infix operators bind tighter than `min`: its first token
/// starts it, and each infix operator after it that binds tighter than `min` extends it.
pub open spec fn read_expr(src: Seq<char>, s: LexState, min: Precedence) -> Reading<ExprText>
    decreases rem(src, s), 1nat,
{
    let s1 = step(src, s);
    if s.peek.ty == Ty::Eof {
        Reading::Halt(ParseHalt::UnexpectedToken)
    } else if rem(src, s1) < rem(src, s) {
        match read_prefix(src, s.peek.ty, s.peek.text, s1) {
            Reading::Done(left, s2) => if rem(src, s2) <= rem(src, s1) {
                read_infix(src, s2, min, left)
            } else {
                Reading::Stuck
            },
            Reading::Halt(h) => Reading::Halt(h),
            Reading::Stuck => Reading::Stuck,
        }
    } else {
        Reading::Stuck
    }
}

/// Reading the infix operators at `s` that extend `left`, while they bind tighter than `min`.
pub open spec fn read_infix(src: Seq<char>, s: LexState, min: Precedence, left: ExprText) -> Reading<ExprText>
    decreases rem(src, s), 0nat,
{
    if ends_expr(s.peek.ty, min) {
        Reading::Done(left, s)
    } else {
        let s1 = step(src, s);
        if rem(src, s1) < rem(src, s) {
            match read_operand(src, infix_of(s.peek.ty)->0, s1, left) {
                Reading::Done(e, s2) => if rem(src, s2) <= rem(src, s1) {
                    read_infix(src, s2, min, e)
                } else {
                    Reading::Stuck
                },
                Reading::Halt(h) => Reading::Halt(h),
                Reading::Stuck => Reading::Stuck,
            }
        } else {
            Reading::Stuck
        }
    }
}

/// Reading what follows the infix operator `p` at `s`, whose left operand is `left`: the
/// arguments of a call; the end of a range, or the right operand of a binary operator, whose
/// operators bind tighter than `p`.
pub open spec fn read_operand(src: Seq<char>, p: InfixParselet, s: LexState, left: ExprText) -> Reading<ExprText>
    decreases rem(src, s), 3nat,
{
    match p {
        InfixParselet::Call(_) => match read_args(src, s, Seq::empty()) {
            Reading::Done(Ok(args), s1) => Reading::Done(ExprText::Call(Box::new(left), args), s1),
            Reading::Done(Err(m), s1) => Reading::Done(ExprText::Invalid(m), s1),
            Reading::Halt(h) => Reading::Halt(h),
            Reading::Stuck => Reading::Stuck,
        },
        InfixParselet::Range(_) => match read_expr(src, s, Precedence::Range) {
            Reading::Done(e, s1) => Reading::Done(ExprText::Range(Box::new(left), Box::new(e)), s1),
            Reading::Halt(h) => Reading::Halt(h),
            Reading::Stuck => Reading::Stuck,
        },
        InfixParselet::Binary(b) => match read_expr(src, s, b.precedence) {
            Reading::Done(e, s1) => Reading::Done(
                ExprText::Binary(Box::new(left), b.operator, Box::new(e)),
                s1,
            ),
            Reading::Halt(h) => Reading::Halt(h),
            Reading::Stuck => Reading::Stuck,
        },
    }
}

/// Infix operators are read while they bind tighter than `min`: reading stops only before a
/// token that ends an expression at `min`.
pub proof fn lemma_read_infix_stops(src: Seq<char>, s: LexState, min: Precedence, left: ExprText)
    ensures
        read_infix(src, s, min, left) matches Reading::Done(_, s1) ==> ends_expr(s1.peek.ty, min),
    decreases rem(src, s),
{
    if !ends_expr(s.peek.ty, min) {
        let s1 = step(src, s);
        if rem(src, s1) < rem(src, s) {
            if let Reading::Done(e, s2) = read_operand(src, infix_of(s.peek.ty)->0, s1, left) {
                if rem(src, s2) <= rem(src, s1) {
                    lemma_read_infix_stops(src, s2, min, e);
                }
            }
        }
    }
}

/// An expression read at `min` takes every infix operator after it that binds tighter than
/// `min`: the token after it is the end of input, a `;`, no infix operator, or one that binds
/// no tighter than `min`.
pub proof fn lemma_read_expr_stops(src: Seq<char>, s: LexState, min: Precedence)
    ensures
        read_expr(src, s, min) matches Reading::Done(_, s1) ==> {
            ||| s1.peek.ty == Ty::Eof
            ||| s1.peek.ty == Ty::Semicolon
            ||| infix_of(s1.peek.ty) is None
            ||| prec_rank(infix_prec(infix_of(s1.peek.ty)->0)) <= prec_rank(min)
        },
{
    let s1 = step(src, s);
    if s.peek.ty != Ty::Eof && rem(src, s1) < rem(src, s) {
        if let Reading::Done(left, s2) = read_prefix(src, s.peek.ty, s.peek.text, s1) {
            lemma_read_infix_stops(src, s2, min, left);
        }
    }
}

/// The end of a range takes every operator that binds tighter than `..`: reading `left ..`
/// gives a range whose start is `left`, and the token after its end is no infix operator that
/// binds tighter than a range, so no such operator can take the whole range as its left operand.
pub proof fn lemma_range_end_extends(src: Seq<char>, s: LexState, left: ExprText)
    ensures
        read_operand(src, InfixParselet::Range(RangeExprParselet), s, left) matches Reading::Done(t, s1) ==> {
            &&& t matches ExprText::Range(start, _) && *start == left
            &&& {
                ||| s1.peek.ty == Ty::Eof
                ||| s1.peek.ty == Ty::Semicolon
                ||| infix_of(s1.peek.ty) is None
                ||| prec_rank(infix_prec(infix_of(s1.peek.ty)->0)) <= prec_rank(
                    infix_prec(InfixParselet::Range(RangeExprParselet)),
                )
            }
        },
{
    lemma_read_expr_stops(src, s, Precedence::Range);
}

/// The right operand of a binary operator takes every operator that binds tighter than it:
/// reading `left op` gives `left op right`, and the token after `right` is no infix operator
/// that binds tighter than `op`.
pub proof fn lemma_binary_operand_extends(
    src: Seq<char>,
    s: LexState,
    b: crate::ast::parser::infix_expr::BinaryExprExprParselet,
    left: ExprText,
)
    ensures
        read_operand(src, InfixParselet::Binary(b), s, left) matches Reading::Done(t, s1) ==> {
            &&& t matches ExprText::Binary(l, op, _) && *l == left && op == b.operator
            &&& {
                ||| s1.peek.ty == Ty::Eof
                ||| s1.peek.ty == Ty::Semicolon
                ||| infix_of(s1.peek.ty) is None
                ||| prec_rank(infix_prec(infix_of(s1.peek.ty)->0)) <= prec_rank(b.precedence)
            }
        },
{
    lemma_read_expr_stops(src, s, b.precedence);
}

/// Reading the arguments at `s` of a call, after the arguments `args`: expressions separated by
/// `,`, up to and including `)`; or the error of a list that is not closed or not separated.
pub open spec fn read_args(src: Seq<char>, s: LexState, args: Seq<ExprText>) -> Reading<Result<Seq<ExprText>, &'static str>>
    decreases rem(src, s), 2nat,
{
    if s.peek.ty == Ty::CloseParen {
        Reading::Done(Ok(args), step(src, s))
    } else if s.peek.ty == Ty::Eof {
        Reading::Done(Err("unclosed argument list"), skip_expr(src, s))
    } else {
        match read_expr(src, s, Precedence::Base) {
            Reading::Done(a, s1) => {
                let sep = s1.peek.ty;
                if sep == Ty::Comma {
                    let s2 = step(src, s1);
                    if rem(src, s2) < rem(src, s) {
                        read_args(src, s2, args.push(a))
                    } else {
                        Reading::Stuck
                    }
                } else if sep == Ty::CloseParen {
                    Reading::Done(Ok(args.push(a)), step(src, s1))
                } else {
                    Reading::Done(Err("expected ',' or ')' in argument list"), skip_expr(src, s1))
                }
            },
            Reading::Halt(h) => Reading::Halt(h),
            Reading::Stuck => Reading::Stuck,
        }
    }
}

/// Reading the expressions at `s` of a block whose `{` was read, after the expressions `acc`,
/// up to and including `}`. At the end of input the block ends with an invalid expression.
pub open spec fn read_block(src: Seq<char>, s: LexState, acc: Seq<ExprText>) -> Reading<Seq<ExprText>>
    decreases rem(src, s), 2nat,
{
    if s.peek.ty == Ty::CloseBrace {
        Reading::Done(acc, step(src, s))
    } else if s.peek.ty == Ty::Eof {
        Reading::Done(acc.push(ExprText::Invalid("unclosed block expression")), s)
    } else {
        match read_expr(src, s, Precedence::Base) {
            Reading::Done(e, s1) => if rem(src, s1) < rem(src, s) {
                read_block(src, s1, acc.push(e))
            } else {
                Reading::Stuck
            },
            Reading::Halt(h) => Reading::Halt(h),
            Reading::Stuck => Reading::Stuck,
        }
    }
}

/// Reading a block's expressions from `s` comes to the end of input before a `}`.
#[verifier::opaque]
pub open spec fn block_unclosed(src: Seq<char>, s: LexState) -> bool
    decreases rem(src, s),
{
    if s.peek.ty == Ty::CloseBrace {
        false
    } else if s.peek.ty == Ty::Eof {
        true
    } else {
        match read_expr(src, s, Precedence::Base) {
            Reading::Done(_, s1) => if rem(src, s1) < rem(src, s) {
                block_unclosed(src, s1)
            } else {
                false
            },
            _ => false,
        }
    }
}

/// Reading the expression that starts with a token of kind `ty` and text `text`, the lexer
/// being at `s` after it.
pub open spec fn read_prefix(src: Seq<char>, ty: Ty, text: Seq<char>, s: LexState) -> Reading<ExprText>
    decreases rem(src, s), 4nat,
{
    match ty {
        Ty::Identifier => if s.peek.ty != Ty::ModuleOperator {
            Reading::Done(ExprText::Ident(None, text), s)
        } else {
            let s1 = step(src, s);
            let s2 = step(src, s1);
            if s1.peek.ty == Ty::Identifier {
                Reading::Done(ExprText::Ident(Some(text), s1.peek.text), s2)
            } else {
                Reading::Done(ExprText::Invalid(""), skip_expr(src, s2))
            }
        },
        Ty::ReturnKeyword => if s.peek.ty == Ty::Semicolon {
            Reading::Done(ExprText::Return(None), s)
        } else {
            match read_expr(src, s, Precedence::Base) {
                Reading::Done(v, s1) => Reading::Done(ExprText::Return(Some(Box::new(v))), s1),
                Reading::Halt(h) => Reading::Halt(h),
                Reading::Stuck => Reading::Stuck,
            }
        },
        Ty::IfKeyword => match read_expr(src, s, Precedence::Base) {
            Reading::Done(c, s1) => {
                let s2 = step(src, s1);
                if s1.peek.ty != Ty::OpenBrace {
                    Reading::Done(ExprText::Invalid("if expression is missing a body"), skip_expr(src, s2))
                } else if rem(src, s2) <= rem(src, s) {
                    match read_block(src, s2, Seq::empty()) {
                        Reading::Done(b, s3) => Reading::Done(ExprText::If(Box::new(c), b), s3),
                        Reading::Halt(h) => Reading::Halt(h),
                        Reading::Stuck => Reading::Stuck,
                    }
                } else {
                    Reading::Stuck
                }
            },
            Reading::Halt(h) => Reading::Halt(h),
            Reading::Stuck => Reading::Stuck,
        },
        Ty::LoopKeyword => {
            let s2 = step(src, s);
            if s.peek.ty != Ty::OpenBrace {
                Reading::Done(ExprText::Invalid("loop expression is missing a body"), skip_expr(src, s2))
            } else if rem(src, s2) <= rem(src, s) {
                match read_block(src, s2, Seq::empty()) {
                    Reading::Done(b, s3) => Reading::Done(ExprText::Loop(b), s3),
                    Reading::Halt(h) => Reading::Halt(h),
                    Reading::Stuck => Reading::Stuck,
                }
            } else {
                Reading::Stuck
            }
        },
        Ty::BreakKeyword => Reading::Done(ExprText::Break, s),
        Ty::Int => Reading::Done(int_text(text), s),
        Ty::Float => Reading::Done(float_text(text), s),
        Ty::TrueKeyword => Reading::Done(ExprText::Bool(true), s),
        Ty::FalseKeyword => Reading::Done(ExprText::Bool(false), s),
        Ty::OpenBrace => match read_block(src, s, Seq::empty()) {
            Reading::Done(b, s1) => Reading::Done(ExprText::Block(b), s1),
            Reading::Halt(h) => Reading::Halt(h),
            Reading::Stuck => Reading::Stuck,
        },
        _ => Reading::Halt(ParseHalt::UnexpectedToken),
    }
}

/// The ids `es` name, in the stores `strs` and `exprs`, the expressions written `ts`.
pub open spec fn denotes_all(strs: Seq<Seq<char>>, exprs: Seq<ExprValue>, es: Seq<Expr>, ts: Seq<ExprText>) -> bool
    decreases ts, 2nat,
{
    &&& es.len() == ts.len()
    &&& forall|i: int| 0 <= i < ts.len() ==> denotes(strs, exprs, #[trigger] es[i], ts[i])
}

/// The id `e` names, in the stores `strs` and `exprs`, the expression written `t`.
pub open spec fn denotes(strs: Seq<Seq<char>>, exprs: Seq<ExprValue>, e: Expr, t: ExprText) -> bool
    decreases t, 1nat,
{
    &&& e.id() < exprs.len()
    &&& value_denotes(strs, exprs, exprs[e.id() as int], t)
}

/// The expression `v`, whose parts are in the stores `strs` and `exprs`, is the one written `t`.
pub open spec fn value_denotes(strs: Seq<Seq<char>>, exprs: Seq<ExprValue>, v: ExprValue, t: ExprText) -> bool
    decreases t, 0nat,
{
    match (v, t) {
        (ExprValue::Invalid(m), ExprText::Invalid(n)) => m == n,
        (ExprValue::Identifier(i), ExprText::Ident(m, n)) => names_text(strs, i.name, n) && match (
            i.module,
            m,
        ) {
            (None, None) => true,
            (Some(a), Some(at)) => names_text(strs, a, at),
            _ => false,
        },
        (ExprValue::Call(c), ExprText::Call(f, args)) => denotes(strs, exprs, c.func, *f)
            && denotes_all(strs, exprs, c.args@, args),
        (ExprValue::Block(b), ExprText::Block(ts)) => denotes_all(strs, exprs, b.exprs@, ts),
        (ExprValue::Return(r), ExprText::Return(v)) => match (r.value, v) {
            (None, None) => true,
            (Some(a), Some(at)) => denotes(strs, exprs, a, *at),
            _ => false,
        },
        (ExprValue::If(i), ExprText::If(c, ts)) => denotes(strs, exprs, i.check, *c)
            && denotes_all(strs, exprs, i.success.exprs@, ts),
        (ExprValue::Loop(l), ExprText::Loop(ts)) => denotes_all(strs, exprs, l.body.exprs@, ts),
        (ExprValue::Range(r), ExprText::Range(a, b)) => denotes(strs, exprs, r.start, *a)
            && denotes(strs, exprs, r.end, *b),
        (ExprValue::Break, ExprText::Break) => true,
        (ExprValue::Binary(b), ExprText::Binary(l, op, r)) => b.operator == op && denotes(
            strs,
            exprs,
            b.left,
            *l,
        ) && denotes(strs, exprs, b.right, *r),
        (ExprValue::IntLiteral(n), ExprText::Int(m)) => n == m,
        (ExprValue::FloatLiteral(s), ExprText::Float(t)) => names_text(strs, s, t),
        (ExprValue::BoolLiteral(a), ExprText::Bool(b)) => a == b,
        _ => false,
    }
}

/// The ids of the context's strings, expressions and declarations fit in 32 bits.
pub open spec fn ids_fit(c: &Context) -> bool {
    &&& c.str_store@.len() <= u32::MAX
    &&& c.ast_store.exprs().len() <= u32::MAX
    &&& c.ast_store.decls().len() <= u32::MAX
}

/// Whether the strings and syntax trees of `c` still fit 32-bit ids: the condition under which
/// the parsing contracts speak of what was read.
pub fn ids_fit_in(c: &Context) -> (r: bool)
    ensures
        r == ids_fit(c),
{
    c.str_store.len() <= 4294967295usize && c.ast_store.expr_count() <= 4294967295usize && c.ast_store.decl_count()
        <= 4294967295usize
}

/// The result `r` of parsing, in the context `c` with the lexer ending at `end`, is what `rd`
/// reads: the expression written as read, or the halt.
pub open spec fn read_as(c: &Context, end: LexState, r: Result<Expr, ParseHalt>, rd: Reading<ExprText>) -> bool {
    match r {
        Ok(e) => rd matches Reading::Done(t, s) && s == end && denotes(
            c.str_store@,
            c.ast_store.exprs(),
            e,
            t,
        ),
        Err(h) => rd == Reading::<ExprText>::Halt(h),
    }
}

/// The result `r` of parsing a block, in the context `c` with the lexer ending at `end`, is
/// what `rd` reads: the expressions written as read, or the halt.
pub open spec fn block_read_as(
    c: &Context,
    end: LexState,
    r: Result<BlockExpr, ParseHalt>,
    rd: Reading<Seq<ExprText>>,
) -> bool {
    match r {
        Ok(b) => rd matches Reading::Done(ts, s) && s == end && denotes_all(
            c.str_store@,
            c.ast_store.exprs(),
            b.exprs@,
            ts,
        ),
        Err(h) => rd == Reading::<Seq<ExprText>>::Halt(h),
    }
}

/// An expression just stored, whose parts name what `t`'s parts are written as, names `t`.
pub proof fn lemma_made(c0: &Context, c1: &Context, e: Expr, v: ExprValue, t: ExprText)
    requires
        c0.wf(),
        c1.ast_store.exprs() == c0.ast_store.exprs().push(v),
        c1.str_store@ == c0.str_store@,
        made_last(c0, c1, e),
        ids_fit(c1),
        value_denotes(c0.str_store@, c0.ast_store.exprs(), v, t),
    ensures
        denotes(c1.str_store@, c1.ast_store.exprs(), e, t),
{
    assert(e.id() == c0.ast_store.exprs().len());
    lemma_denotes_pushed(c0.str_store@, c0.ast_store.exprs(), v, e, t);
}

/// Naming one more expression keeps what the others name.
pub proof fn lemma_denotes_all_push(
    strs: Seq<Seq<char>>,
    exprs: Seq<ExprValue>,
    es: Seq<Expr>,
    ts: Seq<ExprText>,
    e: Expr,
    t: ExprText,
)
    requires
        denotes_all(strs, exprs, es, ts),
        denotes(strs, exprs, e, t),
    ensures
        denotes_all(strs, exprs, es.push(e), ts.push(t)),
{
    assert forall|i: int| 0 <= i < ts.push(t).len() implies denotes(strs, exprs, #[trigger] es.push(e)[i], ts.push(t)[i]) by {
        if i < ts.len() {
            assert(es.push(e)[i] == es[i]);
            assert(ts.push(t)[i] == ts[i]);
        }
    }
}

/// What an id names stays named as the stores grow.
pub proof fn lemma_denotes_grow(
    strs0: Seq<Seq<char>>,
    strs1: Seq<Seq<char>>,
    exprs0: Seq<ExprValue>,
    exprs1: Seq<ExprValue>,
    e: Expr,
    t: ExprText,
)
    requires
        strs0.is_prefix_of(strs1),
        strs1.no_duplicates(),
        exprs0.is_prefix_of(exprs1),
        denotes(strs0, exprs0, e, t),
    ensures
        denotes(strs1, exprs1, e, t),
    decreases t, 1nat,
{
    let id = e.id() as int;
    assert(exprs1[id] == exprs0[id]) by {
        assert(exprs0[id] == exprs1.subrange(0, exprs0.len() as int)[id]);
    }
    lemma_value_denotes_grow(strs0, strs1, exprs0, exprs1, exprs0[id], t);
}

/// What an expression's parts name stays named as the stores grow.
pub proof fn lemma_value_denotes_grow(
    strs0: Seq<Seq<char>>,
    strs1: Seq<Seq<char>>,
    exprs0: Seq<ExprValue>,
    exprs1: Seq<ExprValue>,
    v: ExprValue,
    t: ExprText,
)
    requires
        strs0.is_prefix_of(strs1),
        strs1.no_duplicates(),
        exprs0.is_prefix_of(exprs1),
        value_denotes(strs0, exprs0, v, t),
    ensures
        value_denotes(strs1, exprs1, v, t),
    decreases t, 0nat,
{
    match (v, t) {
        (ExprValue::Identifier(i), ExprText::Ident(m, n)) => {
            lemma_names_text_grow(strs0, strs1, i.name, n);
            match (i.module, m) {
                (Some(a), Some(at)) => lemma_names_text_grow(strs0, strs1, a, at),
                _ => {},
            }
        },
        (ExprValue::Call(c), ExprText::Call(f, args)) => {
            lemma_denotes_grow(strs0, strs1, exprs0, exprs1, c.func, *f);
            lemma_denotes_all_grow(strs0, strs1, exprs0, exprs1, c.args@, args);
        },
        (ExprValue::Block(b), ExprText::Block(ts)) => {
            lemma_denotes_all_grow(strs0, strs1, exprs0, exprs1, b.exprs@, ts);
        },
        (ExprValue::Return(r), ExprText::Return(x)) => match (r.value, x) {
            (Some(a), Some(at)) => lemma_denotes_grow(strs0, strs1, exprs0, exprs1, a, *at),
            _ => {},
        },
        (ExprValue::If(i), ExprText::If(c, ts)) => {
            lemma_denotes_grow(strs0, strs1, exprs0, exprs1, i.check, *c);
            lemma_denotes_all_grow(strs0, strs1, exprs0, exprs1, i.success.exprs@, ts);
        },
        (ExprValue::Loop(l), ExprText::Loop(ts)) => {
            lemma_denotes_all_grow(strs0, strs1, exprs0, exprs1, l.body.exprs@, ts);
        },
        (ExprValue::Range(r), ExprText::Range(a, b)) => {
            lemma_denotes_grow(strs0, strs1, exprs0, exprs1, r.start, *a);
            lemma_denotes_grow(strs0, strs1, exprs0, exprs1, r.end, *b);
        },
        (ExprValue::Binary(b), ExprText::Binary(l, op, r)) => {
            lemma_denotes_grow(strs0, strs1, exprs0, exprs1, b.left, *l);
            lemma_denotes_grow(strs0, strs1, exprs0, exprs1, b.right, *r);
        },
        (ExprValue::FloatLiteral(x), ExprText::Float(y)) => {
            lemma_names_text_grow(strs0, strs1, x, y);
        },
        _ => {},
    }
}

/// What ids name stays named as the stores grow.
pub proof fn lemma_denotes_all_grow(
    strs0: Seq<Seq<char>>,
    strs1: Seq<Seq<char>>,
    exprs0: Seq<ExprValue>,
    exprs1: Seq<ExprValue>,
    es: Seq<Expr>,
    ts: Seq<ExprText>,
)
    requires
        strs0.is_prefix_of(strs1),
        strs1.no_duplicates(),
        exprs0.is_prefix_of(exprs1),
        denotes_all(strs0, exprs0, es, ts),
    ensures
        denotes_all(strs1, exprs1, es, ts),
    decreases ts, 2nat,
{
    assert forall|i: int| 0 <= i < ts.len() implies denotes(strs1, exprs1, #[trigger] es[i], ts[i]) by {
        lemma_denotes_grow(strs0, strs1, exprs0, exprs1, es[i], ts[i]);
    }
}

/// A stored expression whose parts name what `t`'s parts are written as names `t`.
pub proof fn lemma_denotes_pushed(strs: Seq<Seq<char>>, exprs: Seq<ExprValue>, v: ExprValue, e: Expr, t: ExprText)
    requires
        strs.no_duplicates(),
        value_denotes(strs, exprs, v, t),
        e.id() == exprs.len(),
    ensures
        denotes(strs, exprs.push(v), e, t),
{
    assert(exprs.is_prefix_of(exprs.push(v))) by {
        assert(exprs =~= exprs.push(v).subrange(0, exprs.len() as int));
    }
    assert(strs.is_prefix_of(strs)) by {
        assert(strs =~= strs.subrange(0, strs.len() as int));
    }
    lemma_value_denotes_grow(strs, strs, exprs, exprs.push(v), v, t);
}

} // verus!
