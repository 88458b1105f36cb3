use vstd::prelude::*;

use crate::ast::ast::{
    all_below, BlockExpr, Expr, ExprValue, IdentifierExpr, IfExpr, LoopExpr, ReturnExpr,
};
use crate::ast::lexer::{step, Lexer, Token, Ty};
use crate::ast::parser::infix_expr::Precedence;
use crate::ast::parser::literal::{
    f64_text_ok, i64_text_value, is_f64_text, parse_i64, strip_underscores, strip_underscores_exec,
};
use crate::ast::parser::{
    lemma_frame_refl, lemma_frame_trans, last_expr, made_last, next_token, parse_frame, recover_expr,
    ParseHalt, Parser,
};
use crate::ast::parser::expr_text::{
    float_text, ids_fit, int_text, lemma_denotes_grow, lemma_made, read_as, read_block, read_expr,
    read_prefix, ExprText,
};
use crate::compiler::context::Context;
use crate::compiler::str_store::{lemma_names_own_text, lemma_names_text_grow, names_text};
use crate::index_vec::Indexer;

verus! {

/// The kinds of token that start an expression.
pub open spec fn starts_expr(ty: Ty) -> bool {
    ||| ty == Ty::Identifier
    ||| ty == Ty::ReturnKeyword
    ||| ty == Ty::IfKeyword
    ||| ty == Ty::LoopKeyword
    ||| ty == Ty::BreakKeyword
    ||| ty == Ty::Int
    ||| ty == Ty::Float
    ||| ty == Ty::TrueKeyword
    ||| ty == Ty::FalseKeyword
    ||| ty == Ty::OpenBrace
}

/// The expression an integer literal with text `text` stands for.
pub open spec fn int_literal(text: Seq<char>) -> ExprValue {
    match i64_text_value(strip_underscores(text)) {
        Some(n) => ExprValue::IntLiteral(n),
        None => ExprValue::Invalid("invalid integer literal"),
    }
}

/// What an expression that starts with `token` (whose text is `text`, and after which the lexer
/// held a token of kind `next`) is stored as.
pub open spec fn prefix_result(token: Token, text: Seq<char>, next: Ty, e: ExprValue) -> bool {
    match token.ty {
        Ty::Identifier => if next == Ty::ModuleOperator {
            ||| e matches ExprValue::Identifier(i) && i.module == Some(token.lexeme)
            ||| e == ExprValue::Invalid("")
        } else {
            e == ExprValue::Identifier(IdentifierExpr { module: None, name: token.lexeme })
        },
        Ty::ReturnKeyword => if next == Ty::Semicolon {
            e matches ExprValue::Return(rt) && rt.value is None
        } else {
            e matches ExprValue::Return(rt) && rt.value is Some
        },
        Ty::IfKeyword => e is If || e == ExprValue::Invalid("if expression is missing a body"),
        Ty::LoopKeyword => e is Loop || e == ExprValue::Invalid("loop expression is missing a body"),
        Ty::BreakKeyword => e == ExprValue::Break,
        Ty::Int => e == int_literal(text),
        Ty::Float => if f64_text_ok(strip_underscores(text)) {
            e == ExprValue::FloatLiteral(token.lexeme)
        } else {
            e == ExprValue::Invalid("invalid float literal")
        },
        Ty::TrueKeyword => e == ExprValue::BoolLiteral(true),
        Ty::FalseKeyword => e == ExprValue::BoolLiteral(false),
        Ty::OpenBrace => e is Block,
        _ => false,
    }
}

/// A name, or `module::name`.
fn parse_identifier_expr(parser: &Parser, ctx: &mut Context, lexer: &mut Lexer, token: Token) -> (r: Expr)
    requires
        parser.wf(),
        old(ctx).wf(),
        old(lexer).valid_in(old(ctx).str_store@),
        token.lexeme.id() < old(ctx).str_store@.len(),
    ensures
        parse_frame(old(ctx), final(ctx), old(lexer), final(lexer)),
        made_last(old(ctx), final(ctx), r),
        old(lexer).peeked().ty != Ty::ModuleOperator ==> last_expr(final(ctx)) == ExprValue::Identifier(
            IdentifierExpr { module: None, name: token.lexeme },
        ) && *final(lexer) == *old(lexer),
        old(lexer).peeked().ty == Ty::ModuleOperator ==> if step(old(lexer).src(), old(lexer).state()).peek.ty == Ty::Identifier {
            last_expr(final(ctx)) matches ExprValue::Identifier(i) && i.module == Some(token.lexeme)
        } else {
            last_expr(final(ctx)) == ExprValue::Invalid("")
        },
        (old(lexer).peeked().ty != Ty::ModuleOperator || step(old(lexer).src(), old(lexer).state()).peek.ty == Ty::Identifier)
            ==> final(ctx).ast_store.expr_starts().last() == token.pos,
        !(old(lexer).peeked().ty != Ty::ModuleOperator || step(old(lexer).src(), old(lexer).state()).peek.ty == Ty::Identifier)
            ==> final(ctx).ast_store.expr_starts().last().offset() == (step(old(lexer).src(), old(lexer).state()).peek.pos as u32) as nat,
        ids_fit(final(ctx)) ==> read_as(
            final(ctx),
            final(lexer).state(),
            Ok::<Expr, ParseHalt>(r),
            read_prefix(
                old(lexer).src(),
                Ty::Identifier,
                old(ctx).str_store@[token.lexeme.id() as int],
                old(lexer).state(),
            ),
        ),
{
    let ghost src = lexer.src();
    let ghost text = ctx.str_store@[token.lexeme.id() as int];
    proof {
        lemma_names_own_text(ctx.str_store@, token.lexeme);
    }
    let is_mod = lexer.peek().ty;
    if is_mod != Ty::ModuleOperator {
        let ghost c0 = *ctx;
        let ghost v = ExprValue::Identifier(IdentifierExpr { module: None, name: token.lexeme });
        let e = parser.get_expr(
            ctx,
            token,
            ExprValue::Identifier(IdentifierExpr { module: None, name: token.lexeme }),
        );
        proof {
            lemma_frame_refl(&c0, lexer);
            lemma_frame_trans(&c0, &c0, ctx, lexer, lexer, lexer);
            if ids_fit(ctx) {
                lemma_made(&c0, ctx, e, v, ExprText::Ident(None, text));
            }
        }
        return e;
    }
    next_token(ctx, lexer);
    let ghost c1 = *ctx;
    let ghost l1 = *lexer;
    let ident_name = next_token(ctx, lexer);
    proof {
        lemma_frame_trans(old(ctx), &c1, ctx, old(lexer), &l1, lexer);
    }
    if ident_name.ty != Ty::Identifier {
        let ghost c2 = *ctx;
        let ghost l2 = *lexer;
        recover_expr(ctx, lexer);
        let ghost c3 = *ctx;
        let e = parser.get_expr(ctx, ident_name, ExprValue::Invalid(""));
        proof {
            lemma_frame_trans(old(ctx), &c2, &c3, old(lexer), &l2, lexer);
            lemma_frame_refl(&c3, lexer);
            lemma_frame_trans(old(ctx), &c3, ctx, old(lexer), lexer, lexer);
            if ids_fit(ctx) {
                lemma_made(&c3, ctx, e, ExprValue::Invalid(""), ExprText::Invalid(""));
            }
        }
        return e;
    }
    let ghost c4 = *ctx;
    let ghost v = ExprValue::Identifier(IdentifierExpr { module: Some(token.lexeme), name: ident_name.lexeme });
    let e = parser.get_expr(
        ctx,
        token,
        ExprValue::Identifier(IdentifierExpr { module: Some(token.lexeme), name: ident_name.lexeme }),
    );
    proof {
        lemma_frame_refl(&c4, lexer);
        lemma_frame_trans(old(ctx), &c4, ctx, old(lexer), lexer, lexer);
        if ids_fit(ctx) {
            let name_text = l1.state().peek.text;
            assert(names_text(c1.str_store@, ident_name.lexeme, name_text));
            lemma_names_text_grow(c1.str_store@, c4.str_store@, ident_name.lexeme, name_text);
            lemma_names_text_grow(old(ctx).str_store@, c4.str_store@, token.lexeme, text);
            lemma_made(&c4, ctx, e, v, ExprText::Ident(Some(text), name_text));
        }
    }
    e
}

/// `return` or `return value`.
#[verifier::rlimit(50)]
fn parse_return_expr(parser: &Parser, ctx: &mut Context, lexer: &mut Lexer, token: Token) -> (r: Result<Expr, ParseHalt>)
    requires
        parser.wf(),
        old(ctx).wf(),
        old(lexer).valid_in(old(ctx).str_store@),
    ensures
        parse_frame(old(ctx), final(ctx), old(lexer), final(lexer)),
        r is Ok ==> made_last(old(ctx), final(ctx), r->Ok_0),
        r is Ok ==> (last_expr(final(ctx)) matches ExprValue::Return(rt) && (rt.value is None
            <==> old(lexer).peeked().ty == Ty::Semicolon)),
        old(lexer).peeked().ty == Ty::Semicolon ==> r is Ok,
        ids_fit(final(ctx)) ==> read_as(
            final(ctx),
            final(lexer).state(),
            r,
            read_prefix(
                old(lexer).src(),
                Ty::ReturnKeyword,
                old(ctx).str_store@[token.lexeme.id() as int],
                old(lexer).state(),
            ),
        ),
    decreases old(lexer).remaining(), 2nat,
{
    let ghost c0 = *ctx;
    proof {
        lemma_frame_refl(&c0, lexer);
    }
    if lexer.peek().ty == Ty::Semicolon {
        let e = parser.get_expr(ctx, token, ExprValue::Return(ReturnExpr { value: None }));
        proof {
            lemma_frame_trans(&c0, &c0, ctx, lexer, lexer, lexer);
            if ids_fit(ctx) {
                lemma_made(&c0, ctx, e, ExprValue::Return(ReturnExpr { value: None }), ExprText::Return(None));
            }
        }
        return Ok(e);
    }
    let value = match parser.parse_expr(ctx, lexer, Precedence::Base) {
        Ok(v) => v,
        Err(h) => {
            return Err(h);
        },
    };
    let ghost c1 = *ctx;
    let e = parser.get_expr(ctx, token, ExprValue::Return(ReturnExpr { value: Some(value) }));
    proof {
        lemma_frame_refl(&c1, lexer);
        lemma_frame_trans(old(ctx), &c1, ctx, old(lexer), lexer, lexer);
        if ids_fit(ctx) {
            let vt = read_expr(old(lexer).src(), old(lexer).state(), Precedence::Base)->Done_0;
            lemma_made(
                &c1,
                ctx,
                e,
                ExprValue::Return(ReturnExpr { value: Some(value) }),
                ExprText::Return(Some(Box::new(vt))),
            );
        }
    }
    Ok(e)
}

/// `if check { success }`.
#[verifier::rlimit(50)]
fn parse_if_expr(parser: &Parser, ctx: &mut Context, lexer: &mut Lexer, token: Token) -> (r: Result<Expr, ParseHalt>)
    requires
        parser.wf(),
        old(ctx).wf(),
        old(lexer).valid_in(old(ctx).str_store@),
    ensures
        parse_frame(old(ctx), final(ctx), old(lexer), final(lexer)),
        r is Ok ==> made_last(old(ctx), final(ctx), r->Ok_0),
        r is Ok ==> last_expr(final(ctx)) is If || last_expr(final(ctx)) == ExprValue::Invalid(
            "if expression is missing a body",
        ),
        ids_fit(final(ctx)) ==> read_as(
            final(ctx),
            final(lexer).state(),
            r,
            read_prefix(
                old(lexer).src(),
                Ty::IfKeyword,
                old(ctx).str_store@[token.lexeme.id() as int],
                old(lexer).state(),
            ),
        ),
    decreases old(lexer).remaining(), 2nat,
{
    let ghost src = lexer.src();
    let check = match parser.parse_expr(ctx, lexer, Precedence::Base) {
        Ok(v) => v,
        Err(h) => {
            return Err(h);
        },
    };
    let ghost c1 = *ctx;
    let ghost l1 = *lexer;
    let open_brace = next_token(ctx, lexer);
    proof {
        lemma_frame_trans(old(ctx), &c1, ctx, old(lexer), &l1, lexer);
    }
    if open_brace.ty != Ty::OpenBrace {
        let ghost c2 = *ctx;
        let ghost l2 = *lexer;
        recover_expr(ctx, lexer);
        let ghost c3 = *ctx;
        let e = parser.get_expr(ctx, open_brace, ExprValue::Invalid("if expression is missing a body"));
        proof {
            lemma_frame_trans(old(ctx), &c2, &c3, old(lexer), &l2, lexer);
            lemma_frame_refl(&c3, lexer);
            lemma_frame_trans(old(ctx), &c3, ctx, old(lexer), lexer, lexer);
            if ids_fit(ctx) {
                lemma_made(
                    &c3,
                    ctx,
                    e,
                    ExprValue::Invalid("if expression is missing a body"),
                    ExprText::Invalid("if expression is missing a body"),
                );
            }
        }
        return Ok(e);
    }
    let ghost c2 = *ctx;
    let ghost l2 = *lexer;
    let res = parser.parse_block(ctx, lexer);
    proof {
        lemma_frame_trans(old(ctx), &c2, ctx, old(lexer), &l2, lexer);
    }
    let success = match res {
        Ok(b) => b,
        Err(h) => {
            return Err(h);
        },
    };
    let ghost c3 = *ctx;
    let e = parser.get_expr(ctx, token, ExprValue::If(IfExpr { check, success }));
    proof {
        lemma_frame_refl(&c3, lexer);
        lemma_frame_trans(old(ctx), &c3, ctx, old(lexer), lexer, lexer);
        if ids_fit(ctx) {
            let ct = read_expr(src, old(lexer).state(), Precedence::Base)->Done_0;
            let bts = read_block(src, l2.state(), Seq::empty())->Done_0;
            lemma_denotes_grow(c1.str_store@, c3.str_store@, c1.ast_store.exprs(), c3.ast_store.exprs(), check, ct);
            lemma_made(&c3, ctx, e, ExprValue::If(IfExpr { check, success }), ExprText::If(Box::new(ct), bts));
        }
    }
    Ok(e)
}

/// `loop { body }`.
#[verifier::rlimit(50)]
fn parse_loop_expr(parser: &Parser, ctx: &mut Context, lexer: &mut Lexer, token: Token) -> (r: Result<Expr, ParseHalt>)
    requires
        parser.wf(),
        old(ctx).wf(),
        old(lexer).valid_in(old(ctx).str_store@),
    ensures
        parse_frame(old(ctx), final(ctx), old(lexer), final(lexer)),
        r is Ok ==> made_last(old(ctx), final(ctx), r->Ok_0),
        r is Ok ==> last_expr(final(ctx)) is Loop || last_expr(final(ctx)) == ExprValue::Invalid(
            "loop expression is missing a body",
        ),
        ids_fit(final(ctx)) ==> read_as(
            final(ctx),
            final(lexer).state(),
            r,
            read_prefix(
                old(lexer).src(),
                Ty::LoopKeyword,
                old(ctx).str_store@[token.lexeme.id() as int],
                old(lexer).state(),
            ),
        ),
    decreases old(lexer).remaining(), 2nat,
{
    let ghost src = lexer.src();
    let open_brace = next_token(ctx, lexer);
    if open_brace.ty != Ty::OpenBrace {
        let ghost c2 = *ctx;
        let ghost l2 = *lexer;
        recover_expr(ctx, lexer);
        let ghost c3 = *ctx;
        let e = parser.get_expr(ctx, open_brace, ExprValue::Invalid("loop expression is missing a body"));
        proof {
            lemma_frame_trans(old(ctx), &c2, &c3, old(lexer), &l2, lexer);
            lemma_frame_refl(&c3, lexer);
            lemma_frame_trans(old(ctx), &c3, ctx, old(lexer), lexer, lexer);
            if ids_fit(ctx) {
                lemma_made(
                    &c3,
                    ctx,
                    e,
                    ExprValue::Invalid("loop expression is missing a body"),
                    ExprText::Invalid("loop expression is missing a body"),
                );
            }
        }
        return Ok(e);
    }
    let ghost c2 = *ctx;
    let ghost l2 = *lexer;
    let res = parser.parse_block(ctx, lexer);
    proof {
        lemma_frame_trans(old(ctx), &c2, ctx, old(lexer), &l2, lexer);
    }
    let body = match res {
        Ok(b) => b,
        Err(h) => {
            return Err(h);
        },
    };
    let ghost c3 = *ctx;
    let e = parser.get_expr(ctx, token, ExprValue::Loop(LoopExpr { body }));
    proof {
        lemma_frame_refl(&c3, lexer);
        lemma_frame_trans(old(ctx), &c3, ctx, old(lexer), lexer, lexer);
        if ids_fit(ctx) {
            let bts = read_block(src, l2.state(), Seq::empty())->Done_0;
            lemma_made(&c3, ctx, e, ExprValue::Loop(LoopExpr { body }), ExprText::Loop(bts));
        }
    }
    Ok(e)
}

/// An integer literal: its text without `_`, read as an `i64`.
fn parse_int_literal(parser: &Parser, ctx: &mut Context, token: Token) -> (r: Expr)
    requires
        old(ctx).wf(),
        token.lexeme.id() < old(ctx).str_store@.len(),
    ensures
        final(ctx).wf(),
        final(ctx).str_store == old(ctx).str_store,
        final(ctx).unchecked_ty_store == old(ctx).unchecked_ty_store,
        final(ctx).checked_ty_store == old(ctx).checked_ty_store,
        final(ctx).hir_store == old(ctx).hir_store,
        final(ctx).module_store == old(ctx).module_store,
        final(ctx).ast_store.extends(&old(ctx).ast_store),
        final(ctx).ast_store.exprs() == old(ctx).ast_store.exprs().push(last_expr(final(ctx))),
        made_last(old(ctx), final(ctx), r),
        last_expr(final(ctx)) == int_literal(old(ctx).str_store@[token.lexeme.id() as int]),
{
    let s = strip_underscores_exec(ctx.str_store.get_str(token.lexeme));
    match parse_i64(&s) {
        Some(n) => parser.get_expr(ctx, token, ExprValue::IntLiteral(n)),
        None => parser.get_expr(ctx, token, ExprValue::Invalid("invalid integer literal")),
    }
}

/// A float literal, kept as its text when it reads as an `f64` once `_` is removed.
fn parse_float_literal(parser: &Parser, ctx: &mut Context, token: Token) -> (r: Expr)
    requires
        old(ctx).wf(),
        token.lexeme.id() < old(ctx).str_store@.len(),
    ensures
        final(ctx).wf(),
        final(ctx).str_store == old(ctx).str_store,
        final(ctx).unchecked_ty_store == old(ctx).unchecked_ty_store,
        final(ctx).checked_ty_store == old(ctx).checked_ty_store,
        final(ctx).hir_store == old(ctx).hir_store,
        final(ctx).module_store == old(ctx).module_store,
        final(ctx).ast_store.extends(&old(ctx).ast_store),
        final(ctx).ast_store.exprs() == old(ctx).ast_store.exprs().push(last_expr(final(ctx))),
        made_last(old(ctx), final(ctx), r),
        f64_text_ok(strip_underscores(old(ctx).str_store@[token.lexeme.id() as int])) ==> last_expr(
            final(ctx),
        ) == ExprValue::FloatLiteral(token.lexeme),
        !f64_text_ok(strip_underscores(old(ctx).str_store@[token.lexeme.id() as int])) ==> last_expr(
            final(ctx),
        ) == ExprValue::Invalid("invalid float literal"),
{
    let s = strip_underscores_exec(ctx.str_store.get_str(token.lexeme));
    if is_f64_text(&s) {
        parser.get_expr(ctx, token, ExprValue::FloatLiteral(token.lexeme))
    } else {
        parser.get_expr(ctx, token, ExprValue::Invalid("invalid float literal"))
    }
}

/// A block used as an expression.
fn parse_block_expr(parser: &Parser, ctx: &mut Context, lexer: &mut Lexer, token: Token) -> (r: Result<Expr, ParseHalt>)
    requires
        parser.wf(),
        old(ctx).wf(),
        old(lexer).valid_in(old(ctx).str_store@),
    ensures
        parse_frame(old(ctx), final(ctx), old(lexer), final(lexer)),
        r is Ok ==> made_last(old(ctx), final(ctx), r->Ok_0),
        r is Ok ==> last_expr(final(ctx)) is Block,
        ids_fit(final(ctx)) ==> read_as(
            final(ctx),
            final(lexer).state(),
            r,
            read_prefix(
                old(lexer).src(),
                Ty::OpenBrace,
                old(ctx).str_store@[token.lexeme.id() as int],
                old(lexer).state(),
            ),
        ),
    decreases old(lexer).remaining(), 3nat,
{
    let block = match parser.parse_block(ctx, lexer) {
        Ok(b) => b,
        Err(h) => {
            return Err(h);
        },
    };
    let ghost c1 = *ctx;
    let e = parser.get_expr(ctx, token, ExprValue::Block(block));
    proof {
        lemma_frame_refl(&c1, lexer);
        lemma_frame_trans(old(ctx), &c1, ctx, old(lexer), lexer, lexer);
        if ids_fit(ctx) {
            let bts = read_block(old(lexer).src(), old(lexer).state(), Seq::empty())->Done_0;
            lemma_made(&c1, ctx, e, ExprValue::Block(block), ExprText::Block(bts));
        }
    }
    Ok(e)
}

/// Parses the expression that starts with `token` (already read). Tokens that start no
/// expression stop parsing.
pub fn parse_prefix_expr(parser: &Parser, ctx: &mut Context, lexer: &mut Lexer, token: Token) -> (r: Result<Expr, ParseHalt>)
    requires
        parser.wf(),
        old(ctx).wf(),
        old(lexer).valid_in(old(ctx).str_store@),
        token.lexeme.id() < old(ctx).str_store@.len(),
    ensures
        parse_frame(old(ctx), final(ctx), old(lexer), final(lexer)),
        r is Ok ==> made_last(old(ctx), final(ctx), r->Ok_0),
        r is Ok ==> prefix_result(
            token,
            old(ctx).str_store@[token.lexeme.id() as int],
            old(lexer).peeked().ty,
            last_expr(final(ctx)),
        ),
        !starts_expr(token.ty) ==> r == Err::<Expr, ParseHalt>(ParseHalt::UnexpectedToken)
            && *final(ctx) == *old(ctx) && *final(lexer) == *old(lexer),
        ids_fit(final(ctx)) ==> read_as(
            final(ctx),
            final(lexer).state(),
            r,
            read_prefix(
                old(lexer).src(),
                token.ty,
                old(ctx).str_store@[token.lexeme.id() as int],
                old(lexer).state(),
            ),
        ),
    decreases old(lexer).remaining(), 4nat,
{
    let ghost c0 = *ctx;
    let ghost text = ctx.str_store@[token.lexeme.id() as int];
    proof {
        lemma_frame_refl(&c0, lexer);
        lemma_names_own_text(ctx.str_store@, token.lexeme);
    }
    match token.ty {
        Ty::Identifier => Ok(parse_identifier_expr(parser, ctx, lexer, token)),
        Ty::ReturnKeyword => parse_return_expr(parser, ctx, lexer, token),
        Ty::IfKeyword => parse_if_expr(parser, ctx, lexer, token),
        Ty::LoopKeyword => parse_loop_expr(parser, ctx, lexer, token),
        Ty::BreakKeyword => {
            let e = parser.get_expr(ctx, token, ExprValue::Break);
            proof {
                lemma_frame_trans(&c0, &c0, ctx, lexer, lexer, lexer);
                if ids_fit(ctx) {
                    lemma_made(&c0, ctx, e, ExprValue::Break, ExprText::Break);
                }
            }
            Ok(e)
        },
        Ty::Int => {
            let e = parse_int_literal(parser, ctx, token);
            proof {
                lemma_frame_trans(&c0, &c0, ctx, lexer, lexer, lexer);
                if ids_fit(ctx) {
                    lemma_made(&c0, ctx, e, int_literal(text), int_text(text));
                }
            }
            Ok(e)
        },
        Ty::Float => {
            let e = parse_float_literal(parser, ctx, token);
            proof {
                lemma_frame_trans(&c0, &c0, ctx, lexer, lexer, lexer);
                if ids_fit(ctx) {
                    lemma_made(&c0, ctx, e, last_expr(ctx), float_text(text));
                }
            }
            Ok(e)
        },
        Ty::TrueKeyword => {
            let e = parser.get_expr(ctx, token, ExprValue::BoolLiteral(true));
            proof {
                lemma_frame_trans(&c0, &c0, ctx, lexer, lexer, lexer);
                if ids_fit(ctx) {
                    lemma_made(&c0, ctx, e, ExprValue::BoolLiteral(true), ExprText::Bool(true));
                }
            }
            Ok(e)
        },
        Ty::FalseKeyword => {
            let e = parser.get_expr(ctx, token, ExprValue::BoolLiteral(false));
            proof {
                lemma_frame_trans(&c0, &c0, ctx, lexer, lexer, lexer);
                if ids_fit(ctx) {
                    lemma_made(&c0, ctx, e, ExprValue::BoolLiteral(false), ExprText::Bool(false));
                }
            }
            Ok(e)
        },
        Ty::OpenBrace => parse_block_expr(parser, ctx, lexer, token),
        _ => Err(ParseHalt::UnexpectedToken),
    }
}

} // verus!
