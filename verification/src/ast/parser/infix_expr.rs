use vstd::prelude::*;

use crate::ast::ast::{BinaryExpr, CallExpr, Expr, ExprValue, Operator, RangeExpr, all_below};
use crate::ast::lexer::{LexState, Lexer, Token, Ty};
use crate::ast::parser::{
    lemma_frame_refl, lemma_frame_trans, last_expr, made_last, next_token, parse_frame, recover_expr,
    ParseHalt, Parser,
};
use crate::ast::parser::expr_text::{
    denotes, denotes_all, ids_fit, lemma_denotes_all_grow, lemma_denotes_all_push, lemma_denotes_grow,
    lemma_made, read_args, read_as, read_expr, read_operand, ExprText, Reading,
};
use crate::compiler::context::Context;
use crate::index_vec::Indexer;

verus! {

/// How tightly an operator binds, from loosest to tightest.
#[derive(Debug, Clone, Copy, PartialEq, Eq, Structural)]
pub enum Precedence {
    Base,
    Equality,
    Range,
    Comparison,
    Addition,
    Multiplication,
    Call,
}

/// The place of a precedence level in the order, loosest first.
pub open spec fn prec_rank(p: Precedence) -> nat {
    match p {
        Precedence::Base => 0,
        Precedence::Equality => 1,
        Precedence::Range => 2,
        Precedence::Comparison => 3,
        Precedence::Addition => 4,
        Precedence::Multiplication => 5,
        Precedence::Call => 6,
    }
}

impl Precedence {
    /// The place of the level in the order, loosest first.
    pub fn rank(&self) -> (r: u8)
        ensures
            r == prec_rank(*self),
    {
        match self {
            Precedence::Base => 0,
            Precedence::Equality => 1,
            Precedence::Range => 2,
            Precedence::Comparison => 3,
            Precedence::Addition => 4,
            Precedence::Multiplication => 5,
            Precedence::Call => 6,
        }
    }
}

/// `f(args)`: a call of the expression on the left.
#[derive(Clone, Copy)]
pub struct CallExprParselet;

/// `a..b`: a range from the expression on the left.
#[derive(Clone, Copy)]
pub struct RangeExprParselet;

/// `a op b`: a binary operation on the expression on the left.
#[derive(Clone, Copy)]
pub struct BinaryExprExprParselet {
    pub operator: Operator,
    pub precedence: Precedence,
}

/// An operator that follows an expression.
#[derive(Clone, Copy)]
pub enum InfixParselet {
    Call(CallExprParselet),
    Range(RangeExprParselet),
    Binary(BinaryExprExprParselet),
}

/// The infix operator that a token stands for, if any.
pub open spec fn infix_of(ty: Ty) -> Option<InfixParselet> {
    match ty {
        Ty::OpenParen => Some(InfixParselet::Call(CallExprParselet)),
        Ty::RangeOperator => Some(InfixParselet::Range(RangeExprParselet)),
        Ty::Plus => Some(
            InfixParselet::Binary(
                BinaryExprExprParselet { operator: Operator::Plus, precedence: Precedence::Addition },
            ),
        ),
        Ty::Minus => Some(
            InfixParselet::Binary(
                BinaryExprExprParselet { operator: Operator::Minus, precedence: Precedence::Addition },
            ),
        ),
        Ty::Multiply => Some(
            InfixParselet::Binary(
                BinaryExprExprParselet {
                    operator: Operator::Multiply,
                    precedence: Precedence::Multiplication,
                },
            ),
        ),
        Ty::Divide => Some(
            InfixParselet::Binary(
                BinaryExprExprParselet {
                    operator: Operator::Divide,
                    precedence: Precedence::Multiplication,
                },
            ),
        ),
        Ty::EqualEqual => Some(
            InfixParselet::Binary(
                BinaryExprExprParselet { operator: Operator::Equal, precedence: Precedence::Equality },
            ),
        ),
        Ty::LessThan => Some(
            InfixParselet::Binary(
                BinaryExprExprParselet {
                    operator: Operator::LessThan,
                    precedence: Precedence::Comparison,
                },
            ),
        ),
        _ => None,
    }
}

/// How tightly an infix operator binds.
pub open spec fn infix_prec(p: InfixParselet) -> Precedence {
    match p {
        InfixParselet::Call(_) => Precedence::Call,
        InfixParselet::Range(_) => Precedence::Range,
        InfixParselet::Binary(b) => b.precedence,
    }
}

/// An expression parsed at `min` ends before `ty`: the end of input, a `;`, a token that is no
/// infix operator, or one that binds no tighter than `min`.
pub open spec fn ends_expr(ty: Ty, min: Precedence) -> bool {
    ||| ty == Ty::Eof
    ||| ty == Ty::Semicolon
    ||| infix_of(ty) is None
    ||| prec_rank(infix_prec(infix_of(ty)->0)) <= prec_rank(min)
}

/// `t` maps each token kind to its infix operator, and holds every infix operator.
pub open spec fn table_is(t: Seq<(Ty, InfixParselet)>) -> bool {
    &&& forall|i: int| 0 <= i < t.len() ==> infix_of((#[trigger] t[i]).0) == Some(t[i].1)
    &&& forall|ty: Ty| #[trigger] infix_of(ty) is Some ==> exists|i: int| 0 <= i < t.len() && (#[trigger] t[i]).0 == ty
}

/// The table of infix operators: a call, a range, and the binary operators.
pub fn expr_infix_parselets() -> (r: Vec<(Ty, InfixParselet)>)
    ensures
        table_is(r@),
        r@.len() == 8,
{
    let mut t: Vec<(Ty, InfixParselet)> = Vec::new();
    t.push((Ty::OpenParen, InfixParselet::Call(CallExprParselet)));
    t.push((Ty::RangeOperator, InfixParselet::Range(RangeExprParselet)));
    t.push(
        (
            Ty::Plus,
            InfixParselet::Binary(
                BinaryExprExprParselet { operator: Operator::Plus, precedence: Precedence::Addition },
            ),
        ),
    );
    t.push(
        (
            Ty::Minus,
            InfixParselet::Binary(
                BinaryExprExprParselet { operator: Operator::Minus, precedence: Precedence::Addition },
            ),
        ),
    );
    t.push(
        (
            Ty::Multiply,
            InfixParselet::Binary(
                BinaryExprExprParselet {
                    operator: Operator::Multiply,
                    precedence: Precedence::Multiplication,
                },
            ),
        ),
    );
    t.push(
        (
            Ty::Divide,
            InfixParselet::Binary(
                BinaryExprExprParselet {
                    operator: Operator::Divide,
                    precedence: Precedence::Multiplication,
                },
            ),
        ),
    );
    t.push(
        (
            Ty::EqualEqual,
            InfixParselet::Binary(
                BinaryExprExprParselet { operator: Operator::Equal, precedence: Precedence::Equality },
            ),
        ),
    );
    t.push(
        (
            Ty::LessThan,
            InfixParselet::Binary(
                BinaryExprExprParselet {
                    operator: Operator::LessThan,
                    precedence: Precedence::Comparison,
                },
            ),
        ),
    );
    proof {
        let s = t@;
        assert forall|ty: Ty| #[trigger] infix_of(ty) is Some implies exists|i: int|
            0 <= i < s.len() && (#[trigger] s[i]).0 == ty by {
            match ty {
                Ty::OpenParen => assert(s[0].0 == ty),
                Ty::RangeOperator => assert(s[1].0 == ty),
                Ty::Plus => assert(s[2].0 == ty),
                Ty::Minus => assert(s[3].0 == ty),
                Ty::Multiply => assert(s[4].0 == ty),
                Ty::Divide => assert(s[5].0 == ty),
                Ty::EqualEqual => assert(s[6].0 == ty),
                Ty::LessThan => assert(s[7].0 == ty),
                _ => {},
            }
        }
    }
    t
}

impl InfixParselet {
    /// How tightly the operator binds.
    pub fn precedence(&self) -> (r: Precedence)
        ensures
            r == infix_prec(*self),
    {
        match self {
            InfixParselet::Call(_) => Precedence::Call,
            InfixParselet::Range(_) => Precedence::Range,
            InfixParselet::Binary(b) => b.precedence,
        }
    }

    /// Parses what follows the operator `token`, whose left operand is `left`.
    pub fn parse(
        &self,
        parser: &Parser,
        ctx: &mut Context,
        lexer: &mut Lexer,
        left: Expr,
        token: Token,
    ) -> (r: Result<Expr, ParseHalt>)
        requires
            parser.wf(),
            old(ctx).wf(),
            old(lexer).valid_in(old(ctx).str_store@),
            old(ctx).ast_store.has_expr(left),
        ensures
            parse_frame(old(ctx), final(ctx), old(lexer), final(lexer)),
            r is Ok ==> made_last(old(ctx), final(ctx), r->Ok_0),
            r is Ok ==> final(ctx).ast_store.expr_starts().last() == token.pos
                || last_expr(final(ctx)) is Invalid,
            r is Ok ==> infix_result(*self, last_expr(final(ctx)), left),
            ids_fit(final(ctx)) ==> forall|lt: ExprText|
                #[trigger] denotes(old(ctx).str_store@, old(ctx).ast_store.exprs(), left, lt) ==> read_as(
                    final(ctx),
                    final(lexer).state(),
                    r,
                    read_operand(old(lexer).src(), *self, old(lexer).state(), lt),
                ),
        decreases old(lexer).remaining(), 4nat,
    {
        match self {
            InfixParselet::Call(p) => p.parse(parser, ctx, lexer, left, token),
            InfixParselet::Range(p) => p.parse(parser, ctx, lexer, left, token),
            InfixParselet::Binary(p) => p.parse(parser, ctx, lexer, left, token),
        }
    }
}

/// What parsing after the operator `p` with left operand `left` may store last: a call of
/// `left` (or an invalid argument list), a range from `left`, or the operation on `left`.
pub open spec fn infix_result(p: InfixParselet, e: ExprValue, left: Expr) -> bool {
    match p {
        InfixParselet::Call(_) => call_result(e, left),
        InfixParselet::Range(_) => e matches ExprValue::Range(rg) && rg.start == left,
        InfixParselet::Binary(b) => e matches ExprValue::Binary(be) && be.left == left
            && be.operator == b.operator,
    }
}

/// A call of `left`, or the error of an argument list that is not closed or not separated.
pub open spec fn call_result(e: ExprValue, left: Expr) -> bool {
    ||| e matches ExprValue::Call(c) && c.func == left
    ||| e == ExprValue::Invalid("unclosed argument list")
    ||| e == ExprValue::Invalid("expected ',' or ')' in argument list")
}

/// What reading the arguments of a call gave, in the context `c` with the lexer ending at
/// `end`: the arguments, or an invalid expression for a list that is not closed or not
/// separated, as `rd` reads; or the halt.
pub open spec fn args_read_as(
    c: &Context,
    end: LexState,
    r: Result<Result<Vec<Expr>, Expr>, ParseHalt>,
    rd: Reading<Result<Seq<ExprText>, &'static str>>,
) -> bool {
    match r {
        Ok(Ok(args)) => rd matches Reading::Done(Ok(ts), s) && s == end && denotes_all(
            c.str_store@,
            c.ast_store.exprs(),
            args@,
            ts,
        ),
        Ok(Err(e)) => rd matches Reading::Done(Err(m), s) && s == end && denotes(
            c.str_store@,
            c.ast_store.exprs(),
            e,
            ExprText::Invalid(m),
        ),
        Err(h) => rd == Reading::<Result<Seq<ExprText>, &'static str>>::Halt(h),
    }
}

/// Parses the arguments of a call after `(`, separated by `,`, up to and including `)`; a list
/// that is not closed or not separated gives an invalid expression.
#[verifier::rlimit(100)]
fn parse_args(parser: &Parser, ctx: &mut Context, lexer: &mut Lexer) -> (r: Result<Result<Vec<Expr>, Expr>, ParseHalt>)
    requires
        parser.wf(),
        old(ctx).wf(),
        old(lexer).valid_in(old(ctx).str_store@),
    ensures
        parse_frame(old(ctx), final(ctx), old(lexer), final(lexer)),
        r matches Ok(Ok(args)) ==> all_below(args@, final(ctx).ast_store.exprs().len()),
        r matches Ok(Err(e)) ==> made_last(old(ctx), final(ctx), e) && (last_expr(final(ctx))
            == ExprValue::Invalid("unclosed argument list") || last_expr(final(ctx)) == ExprValue::Invalid(
            "expected ',' or ')' in argument list",
        )),
        ids_fit(final(ctx)) ==> args_read_as(
            final(ctx),
            final(lexer).state(),
            r,
            read_args(old(lexer).src(), old(lexer).state(), Seq::empty()),
        ),
    decreases old(lexer).remaining(), 2nat,
{
    let ghost src = lexer.src();
    let ghost s0 = lexer.state();
    let mut args: Vec<Expr> = Vec::new();
    let ghost mut acc: Seq<ExprText> = Seq::empty();
    proof {
        lemma_frame_refl(ctx, lexer);
    }
    loop
        invariant_except_break
            ids_fit(ctx) ==> read_args(src, s0, Seq::empty()) == read_args(src, lexer.state(), acc)
                && denotes_all(ctx.str_store@, ctx.ast_store.exprs(), args@, acc),
        invariant
            parser.wf(),
            parse_frame(old(ctx), ctx, old(lexer), lexer),
            all_below(args@, ctx.ast_store.exprs().len()),
            src == old(lexer).src(),
            s0 == old(lexer).state(),
        ensures
            parse_frame(old(ctx), ctx, old(lexer), lexer),
            all_below(args@, ctx.ast_store.exprs().len()),
            ids_fit(ctx) ==> read_args(src, s0, Seq::empty()) == Reading::Done(
                Ok::<Seq<ExprText>, &'static str>(acc),
                lexer.state(),
            ) && denotes_all(ctx.str_store@, ctx.ast_store.exprs(), args@, acc),
        decreases lexer.remaining(),
    {
        let next = *lexer.peek();
        if next.ty == Ty::CloseParen {
            let ghost c1 = *ctx;
            let ghost l1 = *lexer;
            next_token(ctx, lexer);
            proof {
                lemma_frame_trans(old(ctx), &c1, ctx, old(lexer), &l1, lexer);
                if ids_fit(ctx) {
                    lemma_denotes_all_grow(
                        c1.str_store@,
                        ctx.str_store@,
                        c1.ast_store.exprs(),
                        ctx.ast_store.exprs(),
                        args@,
                        acc,
                    );
                }
            }
            break;
        }
        if next.ty == Ty::Eof {
            let ghost c1 = *ctx;
            let ghost l1 = *lexer;
            recover_expr(ctx, lexer);
            let ghost c2 = *ctx;
            let e = parser.get_expr(ctx, next, ExprValue::Invalid("unclosed argument list"));
            proof {
                lemma_frame_trans(old(ctx), &c1, &c2, old(lexer), &l1, lexer);
                lemma_frame_refl(&c2, lexer);
                lemma_frame_trans(old(ctx), &c2, ctx, old(lexer), lexer, lexer);
                if ids_fit(ctx) {
                    lemma_made(
                        &c2,
                        ctx,
                        e,
                        ExprValue::Invalid("unclosed argument list"),
                        ExprText::Invalid("unclosed argument list"),
                    );
                }
            }
            return Ok(Err(e));
        }
        let ghost c1 = *ctx;
        let ghost l1 = *lexer;
        let res = parser.parse_expr(ctx, lexer, Precedence::Base);
        proof {
            lemma_frame_trans(old(ctx), &c1, ctx, old(lexer), &l1, lexer);
        }
        let arg = match res {
            Ok(e) => e,
            Err(h) => {
                return Err(h);
            },
        };
        let ghost es = args@;
        let ghost at = read_expr(src, l1.state(), Precedence::Base)->Done_0;
        args.push(arg);
        proof {
            if ids_fit(ctx) {
                lemma_denotes_all_grow(
                    c1.str_store@,
                    ctx.str_store@,
                    c1.ast_store.exprs(),
                    ctx.ast_store.exprs(),
                    es,
                    acc,
                );
                lemma_denotes_all_push(ctx.str_store@, ctx.ast_store.exprs(), es, acc, arg, at);
            }
        }
        let sep = *lexer.peek();
        if sep.ty == Ty::Comma || sep.ty == Ty::CloseParen {
            let ghost c2 = *ctx;
            let ghost l2 = *lexer;
            next_token(ctx, lexer);
            proof {
                lemma_frame_trans(old(ctx), &c2, ctx, old(lexer), &l2, lexer);
                if ids_fit(ctx) {
                    lemma_denotes_all_grow(
                        c2.str_store@,
                        ctx.str_store@,
                        c2.ast_store.exprs(),
                        ctx.ast_store.exprs(),
                        args@,
                        acc.push(at),
                    );
                }
                acc = acc.push(at);
            }
            if sep.ty == Ty::CloseParen {
                break;
            }
        } else {
            let ghost c2 = *ctx;
            let ghost l2 = *lexer;
            recover_expr(ctx, lexer);
            let ghost c3 = *ctx;
            let e = parser.get_expr(ctx, sep, ExprValue::Invalid("expected ',' or ')' in argument list"));
            proof {
                lemma_frame_trans(old(ctx), &c2, &c3, old(lexer), &l2, lexer);
                lemma_frame_refl(&c3, lexer);
                lemma_frame_trans(old(ctx), &c3, ctx, old(lexer), lexer, lexer);
                if ids_fit(ctx) {
                    lemma_made(
                        &c3,
                        ctx,
                        e,
                        ExprValue::Invalid("expected ',' or ')' in argument list"),
                        ExprText::Invalid("expected ',' or ')' in argument list"),
                    );
                }
            }
            return Ok(Err(e));
        }
    }
    Ok(Ok(args))
}

impl CallExprParselet {
    /// Parses the arguments after `(`, separated by `,`, up to and including `)`.
    #[verifier::rlimit(50)]
    pub fn parse(
        &self,
        parser: &Parser,
        ctx: &mut Context,
        lexer: &mut Lexer,
        left: Expr,
        token: Token,
    ) -> (r: Result<Expr, ParseHalt>)
        requires
            parser.wf(),
            old(ctx).wf(),
            old(lexer).valid_in(old(ctx).str_store@),
            old(ctx).ast_store.has_expr(left),
        ensures
            parse_frame(old(ctx), final(ctx), old(lexer), final(lexer)),
            r is Ok ==> made_last(old(ctx), final(ctx), r->Ok_0),
            r is Ok ==> final(ctx).ast_store.expr_starts().last() == token.pos
                || last_expr(final(ctx)) is Invalid,
            r is Ok ==> call_result(last_expr(final(ctx)), left),
            ids_fit(final(ctx)) ==> forall|lt: ExprText|
                #[trigger] denotes(old(ctx).str_store@, old(ctx).ast_store.exprs(), left, lt) ==> read_as(
                    final(ctx),
                    final(lexer).state(),
                    r,
                    read_operand(old(lexer).src(), InfixParselet::Call(*self), old(lexer).state(), lt),
                ),
        decreases old(lexer).remaining(), 3nat,
    {
        let ghost src = lexer.src();
        let ghost s0 = lexer.state();
        let res = parse_args(parser, ctx, lexer);
        let args = match res {
            Ok(Ok(args)) => args,
            Ok(Err(e)) => {
                return Ok(e);
            },
            Err(h) => {
                return Err(h);
            },
        };
        let ghost c4 = *ctx;
        let ghost acc = read_args(src, s0, Seq::empty())->Done_0->Ok_0;
        let e = parser.get_expr(ctx, token, ExprValue::Call(CallExpr { func: left, args }));
        proof {
            lemma_frame_refl(&c4, lexer);
            lemma_frame_trans(old(ctx), &c4, ctx, old(lexer), lexer, lexer);
            if ids_fit(ctx) {
                assert forall|lt: ExprText|
                    #[trigger] denotes(old(ctx).str_store@, old(ctx).ast_store.exprs(), left, lt) implies read_as(
                        ctx,
                        lexer.state(),
                        Ok::<Expr, ParseHalt>(e),
                        read_operand(src, InfixParselet::Call(*self), s0, lt),
                    ) by {
                    lemma_denotes_grow(
                        old(ctx).str_store@,
                        c4.str_store@,
                        old(ctx).ast_store.exprs(),
                        c4.ast_store.exprs(),
                        left,
                        lt,
                    );
                    lemma_made(
                        &c4,
                        ctx,
                        e,
                        ExprValue::Call(CallExpr { func: left, args }),
                        ExprText::Call(Box::new(lt), acc),
                    );
                }
            }
        }
        Ok(e)
    }
}

impl RangeExprParselet {
    /// Parses the end of a range that starts with `left`.
    #[verifier::rlimit(50)]
    pub fn parse(
        &self,
        parser: &Parser,
        ctx: &mut Context,
        lexer: &mut Lexer,
        left: Expr,
        token: Token,
    ) -> (r: Result<Expr, ParseHalt>)
        requires
            parser.wf(),
            old(ctx).wf(),
            old(lexer).valid_in(old(ctx).str_store@),
            old(ctx).ast_store.has_expr(left),
        ensures
            parse_frame(old(ctx), final(ctx), old(lexer), final(lexer)),
            r is Ok ==> made_last(old(ctx), final(ctx), r->Ok_0),
            r is Ok ==> final(ctx).ast_store.expr_starts().last() == token.pos,
            r is Ok ==> (last_expr(final(ctx)) matches ExprValue::Range(rg) && rg.start == left),
            ids_fit(final(ctx)) ==> forall|lt: ExprText|
                #[trigger] denotes(old(ctx).str_store@, old(ctx).ast_store.exprs(), left, lt) ==> read_as(
                    final(ctx),
                    final(lexer).state(),
                    r,
                    read_operand(old(lexer).src(), InfixParselet::Range(*self), old(lexer).state(), lt),
                ),
        decreases old(lexer).remaining(), 2nat,
    {
        let end = match parser.parse_expr(ctx, lexer, Precedence::Range) {
            Ok(e) => e,
            Err(h) => {
                return Err(h);
            },
        };
        let ghost c1 = *ctx;
        let e = parser.get_expr(ctx, token, ExprValue::Range(RangeExpr { start: left, end }));
        proof {
            lemma_frame_refl(&c1, lexer);
            lemma_frame_trans(old(ctx), &c1, ctx, old(lexer), lexer, lexer);
            if ids_fit(ctx) {
                let et = read_expr(old(lexer).src(), old(lexer).state(), Precedence::Range)->Done_0;
                assert forall|lt: ExprText|
                    #[trigger] denotes(old(ctx).str_store@, old(ctx).ast_store.exprs(), left, lt) implies read_as(
                        ctx,
                        lexer.state(),
                        Ok::<Expr, ParseHalt>(e),
                        read_operand(old(lexer).src(), InfixParselet::Range(*self), old(lexer).state(), lt),
                    ) by {
                    lemma_denotes_grow(
                        old(ctx).str_store@,
                        c1.str_store@,
                        old(ctx).ast_store.exprs(),
                        c1.ast_store.exprs(),
                        left,
                        lt,
                    );
                    lemma_made(
                        &c1,
                        ctx,
                        e,
                        ExprValue::Range(RangeExpr { start: left, end }),
                        ExprText::Range(Box::new(lt), Box::new(et)),
                    );
                }
            }
        }
        Ok(e)
    }
}

impl BinaryExprExprParselet {
    /// Parses the right operand of the operation on `left`: the operators in it bind tighter
    /// than this one, so operators of one level group from the left.
    #[verifier::rlimit(50)]
    pub fn parse(
        &self,
        parser: &Parser,
        ctx: &mut Context,
        lexer: &mut Lexer,
        left: Expr,
        token: Token,
    ) -> (r: Result<Expr, ParseHalt>)
        requires
            parser.wf(),
            old(ctx).wf(),
            old(lexer).valid_in(old(ctx).str_store@),
            old(ctx).ast_store.has_expr(left),
        ensures
            parse_frame(old(ctx), final(ctx), old(lexer), final(lexer)),
            r is Ok ==> made_last(old(ctx), final(ctx), r->Ok_0),
            r is Ok ==> final(ctx).ast_store.expr_starts().last() == token.pos,
            r is Ok ==> (last_expr(final(ctx)) matches ExprValue::Binary(be) && be.left == left
                && be.operator == self.operator),
            ids_fit(final(ctx)) ==> forall|lt: ExprText|
                #[trigger] denotes(old(ctx).str_store@, old(ctx).ast_store.exprs(), left, lt) ==> read_as(
                    final(ctx),
                    final(lexer).state(),
                    r,
                    read_operand(old(lexer).src(), InfixParselet::Binary(*self), old(lexer).state(), lt),
                ),
        decreases old(lexer).remaining(), 2nat,
    {
        let right = match parser.parse_expr(ctx, lexer, self.precedence) {
            Ok(e) => e,
            Err(h) => {
                return Err(h);
            },
        };
        let ghost c1 = *ctx;
        let e = parser.get_expr(
            ctx,
            token,
            ExprValue::Binary(BinaryExpr { left, operator: self.operator, right }),
        );
        proof {
            lemma_frame_refl(&c1, lexer);
            lemma_frame_trans(old(ctx), &c1, ctx, old(lexer), lexer, lexer);
            if ids_fit(ctx) {
                let rt = read_expr(old(lexer).src(), old(lexer).state(), self.precedence)->Done_0;
                assert forall|lt: ExprText|
                    #[trigger] denotes(old(ctx).str_store@, old(ctx).ast_store.exprs(), left, lt) implies read_as(
                        ctx,
                        lexer.state(),
                        Ok::<Expr, ParseHalt>(e),
                        read_operand(old(lexer).src(), InfixParselet::Binary(*self), old(lexer).state(), lt),
                    ) by {
                    lemma_denotes_grow(
                        old(ctx).str_store@,
                        c1.str_store@,
                        old(ctx).ast_store.exprs(),
                        c1.ast_store.exprs(),
                        left,
                        lt,
                    );
                    lemma_made(
                        &c1,
                        ctx,
                        e,
                        ExprValue::Binary(BinaryExpr { left, operator: self.operator, right }),
                        ExprText::Binary(Box::new(lt), self.operator, Box::new(rt)),
                    );
                }
            }
        }
        Ok(e)
    }
}

} // verus!
