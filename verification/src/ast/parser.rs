pub mod decl;
pub mod expr_text;
pub mod literal;
pub mod infix_expr;
pub mod prefix_expr;

use vstd::prelude::*;

use crate::ast::ast::{all_below, children, decl_children, BlockExpr, Decl, DeclValue, Expr, ExprValue};
use crate::ast::lexer::{decl_stop, expr_stop, is_decl_keyword, lex_next, ran_until, step, steps, token_matches, LexState, LexedToken, Lexer, Token, Ty};
use crate::ast::parser::expr_text::{
    block_read_as, block_unclosed, denotes, denotes_all, ids_fit, lemma_denotes_all_grow, lemma_denotes_all_push,
    lemma_decl_stops_after_unique, lemma_denotes_grow, lemma_made, lemma_stops_after_unique, read_as, read_block, read_expr,
    read_infix, read_operand, read_prefix, decl_stops_after, rem, skip_decl, skip_expr, stops_after, ExprText, Reading,
};
use crate::ast::parser::infix_expr::{
    ends_expr, expr_infix_parselets, infix_of, prec_rank, table_is, InfixParselet, Precedence,
};
use crate::ast::parser::prefix_expr::parse_prefix_expr;
use crate::ast::parser::decl::{
    decl_read_as, decl_value_denotes, lemma_decl_denotes_invalid, lemma_decl_denotes_kind, lemma_decl_value_denotes_grow,
    read_decl, DeclText,
};
use crate::compiler::context::Context;
use crate::compiler::module::Module;
use crate::compiler::str_store::{
    interned, lemma_index_of_prefix, lemma_interned_prefix, lemma_names_own_text, lemma_names_text_grow, names_text, MStr,
};
use crate::index_vec::{IdMap, Indexer};
use crate::types::unchecked_ty::{UncheckedTy, UncheckedTyModel};

verus! {

/// Why parsing stopped: the source uses a form that the parser does not handle yet.
#[derive(Debug, Clone, Copy, PartialEq, Eq, Structural)]
pub enum ParseHalt {
    /// An expression starts with a token that starts no expression.
    UnexpectedToken,
    /// A module-qualified type name is not followed by a name.
    InvalidModuleType,
}

/// What every parsing step keeps: the context stays consistent and its string store, type store
/// and syntax trees only grow; the types checked and the modules are untouched; the lexer reads
/// the same source, stays in step with the string store and only moves forward.
pub open spec fn parse_frame<'s>(c0: &Context, c1: &Context, l0: &Lexer<'s>, l1: &Lexer<'s>) -> bool {
    &&& c1.wf()
    &&& c0.str_store@.is_prefix_of(c1.str_store@)
    &&& c0.unchecked_ty_store@.is_prefix_of(c1.unchecked_ty_store@)
    &&& c1.ast_store.extends(&c0.ast_store)
    &&& c1.checked_ty_store == c0.checked_ty_store
    &&& c1.hir_store == c0.hir_store
    &&& c1.module_store == c0.module_store
    &&& l1.valid_in(c1.str_store@)
    &&& l1.src() == l0.src()
    &&& l1.remaining() <= l0.remaining()
}

/// `e` names the last expression stored, one stored since `c0`.
pub open spec fn made_last(c0: &Context, c1: &Context, e: Expr) -> bool {
    &&& c1.ast_store.exprs().len() > c0.ast_store.exprs().len()
    &&& e.id() == ((c1.ast_store.exprs().len() - 1) as u32) as nat
    &&& e.id() < c1.ast_store.exprs().len()
}

/// `d` names the last declaration stored, one stored since `c0`.
pub open spec fn made_last_decl(c0: &Context, c1: &Context, d: Decl) -> bool {
    &&& c1.ast_store.decls().len() > c0.ast_store.decls().len()
    &&& d.id() == ((c1.ast_store.decls().len() - 1) as u32) as nat
    &&& d.id() < c1.ast_store.decls().len()
}

/// The value of the last expression stored.
pub open spec fn last_expr(c: &Context) -> ExprValue {
    c.ast_store.exprs().last()
}

/// The value of the last declaration stored.
pub open spec fn last_decl(c: &Context) -> DeclValue {
    c.ast_store.decls().last()
}

pub proof fn lemma_frame_refl<'s>(c: &Context, l: &Lexer<'s>)
    requires
        c.wf(),
        l.valid_in(c.str_store@),
    ensures
        parse_frame(c, c, l, l),
{
    assert(c.str_store@.is_prefix_of(c.str_store@));
    assert(c.unchecked_ty_store@.is_prefix_of(c.unchecked_ty_store@));
    assert(c.ast_store.decls().is_prefix_of(c.ast_store.decls()));
    assert(c.ast_store.decl_starts().is_prefix_of(c.ast_store.decl_starts()));
    assert(c.ast_store.exprs().is_prefix_of(c.ast_store.exprs()));
    assert(c.ast_store.expr_starts().is_prefix_of(c.ast_store.expr_starts()));
}

/// While ids fit in 32 bits, a token's id names the text it was lexed from, in the store it was
/// interned in and in every store grown from that one.
pub proof fn lemma_token_text(t: Token, lt: LexedToken, a: Seq<Seq<char>>, b: Seq<Seq<char>>)
    requires
        token_matches(t, lt, a),
        a.is_prefix_of(b),
        b.len() <= u32::MAX,
    ensures
        t.lexeme.id() < b.len(),
        b[t.lexeme.id() as int] == lt.text,
{
    let i = a.index_of(lt.text);
    assert(a[i] == lt.text);
    assert(0 <= i < a.len());
    assert(b[i] == a[i]) by {
        assert(a[i] == b.subrange(0, a.len() as int)[i]);
    }
}

pub proof fn lemma_frame_trans<'s>(
    c0: &Context,
    c1: &Context,
    c2: &Context,
    l0: &Lexer<'s>,
    l1: &Lexer<'s>,
    l2: &Lexer<'s>,
)
    requires
        parse_frame(c0, c1, l0, l1),
        parse_frame(c1, c2, l1, l2),
    ensures
        parse_frame(c0, c2, l0, l2),
{
    assert(c0.str_store@.is_prefix_of(c2.str_store@)) by {
        assert(c0.str_store@ =~= c2.str_store@.subrange(0, c0.str_store@.len() as int)) by {
            assert forall|i: int| 0 <= i < c0.str_store@.len() implies c0.str_store@[i]
                == c2.str_store@[i] by {
                assert(c0.str_store@[i] == c1.str_store@.subrange(0, c0.str_store@.len() as int)[i]);
                assert(c1.str_store@[i] == c2.str_store@.subrange(0, c1.str_store@.len() as int)[i]);
            }
        }
    }
    assert(c0.unchecked_ty_store@.is_prefix_of(c2.unchecked_ty_store@)) by {
        let a = c0.unchecked_ty_store@;
        let b = c1.unchecked_ty_store@;
        let c = c2.unchecked_ty_store@;
        assert forall|i: int| 0 <= i < a.len() implies a[i] == c[i] by {
            assert(a[i] == b.subrange(0, a.len() as int)[i]);
            assert(b[i] == c.subrange(0, b.len() as int)[i]);
        }
        assert(a =~= c.subrange(0, a.len() as int));
    }
    lemma_prefix_trans(c0.ast_store.decls(), c1.ast_store.decls(), c2.ast_store.decls());
    lemma_prefix_trans(c0.ast_store.exprs(), c1.ast_store.exprs(), c2.ast_store.exprs());
    lemma_prefix_trans(
        c0.ast_store.decl_starts(),
        c1.ast_store.decl_starts(),
        c2.ast_store.decl_starts(),
    );
    lemma_prefix_trans(
        c0.ast_store.expr_starts(),
        c1.ast_store.expr_starts(),
        c2.ast_store.expr_starts(),
    );
}

pub proof fn lemma_prefix_trans<T>(a: Seq<T>, b: Seq<T>, c: Seq<T>)
    requires
        a.is_prefix_of(b),
        b.is_prefix_of(c),
    ensures
        a.is_prefix_of(c),
{
    assert forall|i: int| 0 <= i < a.len() implies a[i] == c[i] by {
        assert(a[i] == b.subrange(0, a.len() as int)[i]);
        assert(b[i] == c.subrange(0, b.len() as int)[i]);
    }
    assert(a =~= c.subrange(0, a.len() as int));
}

/// Gives out the token the lexer holds and lexes the next one, interning its text.
pub(crate) fn next_token(ctx: &mut Context, lexer: &mut Lexer) -> (r: Token)
    requires
        old(ctx).wf(),
        old(lexer).valid_in(old(ctx).str_store@),
    ensures
        parse_frame(old(ctx), final(ctx), old(lexer), final(lexer)),
        final(ctx).ast_store == old(ctx).ast_store,
        final(ctx).unchecked_ty_store == old(ctx).unchecked_ty_store,
        r == old(lexer).peeked(),
        r.lexeme.id() < old(ctx).str_store@.len(),
        final(lexer).state() == step(old(lexer).src(), old(lexer).state()),
        final(ctx).str_store@ == interned(old(ctx).str_store@, final(lexer).state().peek.text),
        r.ty != Ty::Eof ==> final(lexer).remaining() < old(lexer).remaining(),
{
    let r = lexer.next(&mut ctx.str_store);
    proof {
        lemma_interned_prefix(old(ctx).str_store@, lexer.state().peek.text);
        Context::lemma_grown_wf(old(ctx), ctx);
        lemma_frame_refl(old(ctx), old(lexer));
    }
    r
}

/// Skips tokens up to the next one that starts a declaration, which stays the token held.
pub(crate) fn recover_decl(ctx: &mut Context, lexer: &mut Lexer) -> (found: bool)
    requires
        old(ctx).wf(),
        old(lexer).valid_in(old(ctx).str_store@),
    ensures
        parse_frame(old(ctx), final(ctx), old(lexer), final(lexer)),
        final(ctx).ast_store == old(ctx).ast_store,
        final(ctx).unchecked_ty_store == old(ctx).unchecked_ty_store,
        final(lexer).state() == skip_decl(old(lexer).src(), old(lexer).state()),
{
    let found = lexer.recover_until_decl(&mut ctx.str_store);
    proof {
        Context::lemma_grown_wf(old(ctx), ctx);
        lemma_frame_refl(old(ctx), old(lexer));
        let src = old(lexer).src();
        let s0 = old(lexer).state();
        let n = choose|n: nat|
            {
                &&& #[trigger] ran_until(src, s0, n, decl_stop())
                &&& found == is_decl_keyword(steps(src, s0, (n - 1) as nat).peek.ty)
                &&& !found ==> steps(src, s0, (n - 1) as nat).peek.ty == Ty::Eof
                &&& lexer.state() == steps(src, s0, (n - 1) as nat)
            };
        assert(decl_stops_after(src, s0, n));
        let m = choose|m: nat| decl_stops_after(src, s0, m);
        lemma_decl_stops_after_unique(src, s0, n, m);
    }
    found
}

/// Skips tokens up to and including the next `;` or `}`.
pub(crate) fn recover_expr(ctx: &mut Context, lexer: &mut Lexer) -> (found: bool)
    requires
        old(ctx).wf(),
        old(lexer).valid_in(old(ctx).str_store@),
    ensures
        parse_frame(old(ctx), final(ctx), old(lexer), final(lexer)),
        final(ctx).ast_store == old(ctx).ast_store,
        final(ctx).unchecked_ty_store == old(ctx).unchecked_ty_store,
        final(lexer).state() == skip_expr(old(lexer).src(), old(lexer).state()),
{
    let found = lexer.recover_until_expr(&mut ctx.str_store);
    proof {
        Context::lemma_grown_wf(old(ctx), ctx);
        lemma_frame_refl(old(ctx), old(lexer));
        let src = old(lexer).src();
        let s0 = old(lexer).state();
        let n = choose|n: nat|
            {
                let stop = expr_stop();
                let last = steps(src, s0, (n - 1) as nat).peek.ty;
                &&& #[trigger] ran_until(src, s0, n, expr_stop())
                &&& found == stop(last)
                &&& !found ==> last == Ty::Eof
                &&& lexer.state() == steps(src, s0, if found { n } else { (n - 1) as nat })
            };
        assert(stops_after(src, s0, n));
        let m = choose|m: nat| stops_after(src, s0, m);
        lemma_stops_after_unique(src, s0, n, m);
    }
    found
}

/// The parser of one module's source: it fills the syntax tree store, and the module's
/// name and declarations.
pub struct Parser {
    module: Module,
    infix_parselets: Vec<(Ty, InfixParselet)>,
}

impl Parser {
    /// The module being parsed.
    pub closed spec fn module(&self) -> Module {
        self.module
    }

    /// The parser's table of infix operators is the language's.
    pub closed spec fn wf(&self) -> bool {
        table_is(self.infix_parselets@)
    }

    /// A parser for `module`.
    pub fn new(ctx: &Context, module: Module) -> (r: Self)
        requires
            ctx.has_module(module),
        ensures
            r.wf(),
            r.module() == module,
    {
        Parser { module, infix_parselets: expr_infix_parselets() }
    }

    /// The infix operator that `ty` stands for, if any.
    fn infix_parselet(&self, ty: Ty) -> (r: Option<InfixParselet>)
        requires
            self.wf(),
        ensures
            r == infix_of(ty),
    {
        let mut i: usize = 0;
        while i < self.infix_parselets.len()
            invariant
                table_is(self.infix_parselets@),
                i <= self.infix_parselets@.len(),
                forall|k: int| 0 <= k < i ==> (#[trigger] self.infix_parselets@[k]).0 != ty,
            decreases self.infix_parselets@.len() - i,
        {
            let entry = self.infix_parselets[i];
            if entry.0 == ty {
                return Some(entry.1);
            }
            i = i + 1;
        }
        None
    }

    /// The function type with `params` and `return_type`, interned.
    pub fn get_fn_type(
        &self,
        ctx: &mut Context,
        params: Vec<UncheckedTy>,
        return_type: UncheckedTy,
    ) -> (r: UncheckedTy)
        requires
            old(ctx).wf(),
            forall|i: int| 0 <= i < params@.len() ==> (#[trigger] params@[i]).id() < old(ctx).unchecked_ty_store@.len(),
            return_type.id() < old(ctx).unchecked_ty_store@.len(),
        ensures
            final(ctx).wf(),
            final(ctx).str_store == old(ctx).str_store,
            final(ctx).ast_store == old(ctx).ast_store,
            final(ctx).checked_ty_store == old(ctx).checked_ty_store,
            final(ctx).hir_store == old(ctx).hir_store,
            final(ctx).module_store == old(ctx).module_store,
            crate::compiler::ty_store::interned_as(
                old(ctx).unchecked_ty_store@,
                final(ctx).unchecked_ty_store@,
                UncheckedTyModel::Func(params@, return_type),
                r.id(),
            ),
            r.id() < final(ctx).unchecked_ty_store@.len(),
    {
        let r = ctx.unchecked_ty_store.get_fn_type(params, return_type);
        proof {
            Context::lemma_grown_wf(old(ctx), ctx);
        }
        r
    }

    /// Stores a declaration that starts at `start`.
    pub fn get_decl(&self, ctx: &mut Context, start: Token, decl: DeclValue) -> (r: Decl)
        requires
            old(ctx).wf(),
            all_below(decl_children(decl), old(ctx).ast_store.exprs().len()),
            crate::compiler::ast_store::decl_ty_below(decl, old(ctx).unchecked_ty_store@.len()),
        ensures
            final(ctx).wf(),
            final(ctx).str_store == old(ctx).str_store,
            final(ctx).unchecked_ty_store == old(ctx).unchecked_ty_store,
            final(ctx).checked_ty_store == old(ctx).checked_ty_store,
            final(ctx).hir_store == old(ctx).hir_store,
            final(ctx).module_store == old(ctx).module_store,
            final(ctx).ast_store.extends(&old(ctx).ast_store),
            final(ctx).ast_store.decls() == old(ctx).ast_store.decls().push(decl),
            final(ctx).ast_store.decl_starts() == old(ctx).ast_store.decl_starts().push(start.pos),
            final(ctx).ast_store.exprs() == old(ctx).ast_store.exprs(),
            made_last_decl(old(ctx), final(ctx), r),
    {
        let ghost d = decl;
        let r = ctx.ast_store.get_decl(start, decl);
        proof {
            assert forall|p: int| 0 <= p < ctx.ast_store.decls().len() implies crate::compiler::ast_store::decl_ty_below(
                #[trigger] ctx.ast_store.decls()[p],
                old(ctx).unchecked_ty_store@.len(),
            ) by {
                if p < old(ctx).ast_store.decls().len() {
                    assert(ctx.ast_store.decls()[p] == old(ctx).ast_store.decls()[p]);
                }
            }
            Context::lemma_grown_wf(old(ctx), ctx);
        }
        r
    }

    /// The declaration `decl` names.
    fn get_decl_value<'c>(&self, ctx: &'c Context, decl: Decl) -> (r: &'c DeclValue)
        requires
            ctx.ast_store.has_decl(decl),
        ensures
            *r == ctx.ast_store.decls()[decl.id() as int],
    {
        ctx.ast_store.get_decl_value(decl)
    }

    /// Replaces the declaration `decl` names.
    fn update_decl_value(&self, ctx: &mut Context, decl: Decl, value: DeclValue)
        requires
            old(ctx).wf(),
            old(ctx).ast_store.has_decl(decl),
            all_below(decl_children(value), old(ctx).ast_store.exprs().len()),
            crate::compiler::ast_store::decl_ty_below(value, old(ctx).unchecked_ty_store@.len()),
        ensures
            final(ctx).wf(),
            final(ctx).str_store == old(ctx).str_store,
            final(ctx).unchecked_ty_store == old(ctx).unchecked_ty_store,
            final(ctx).checked_ty_store == old(ctx).checked_ty_store,
            final(ctx).hir_store == old(ctx).hir_store,
            final(ctx).module_store == old(ctx).module_store,
            final(ctx).ast_store.decls() == old(ctx).ast_store.decls().update(decl.id() as int, value),
            final(ctx).ast_store.exprs() == old(ctx).ast_store.exprs(),
    {
        ctx.ast_store.set_decl_value(decl, value);
        proof {
            assert forall|p: int| 0 <= p < ctx.ast_store.decls().len() implies crate::compiler::ast_store::decl_ty_below(
                #[trigger] ctx.ast_store.decls()[p],
                old(ctx).unchecked_ty_store@.len(),
            ) by {
                if p != decl.id() {
                    assert(ctx.ast_store.decls()[p] == old(ctx).ast_store.decls()[p]);
                }
            }
            Context::lemma_grown_wf(old(ctx), ctx);
        }
    }

    /// Stores an expression that starts at `start`.
    pub fn get_expr(&self, ctx: &mut Context, start: Token, expr: ExprValue) -> (r: Expr)
        requires
            old(ctx).wf(),
            all_below(children(expr), old(ctx).ast_store.exprs().len()),
        ensures
            final(ctx).wf(),
            final(ctx).str_store == old(ctx).str_store,
            final(ctx).unchecked_ty_store == old(ctx).unchecked_ty_store,
            final(ctx).checked_ty_store == old(ctx).checked_ty_store,
            final(ctx).hir_store == old(ctx).hir_store,
            final(ctx).module_store == old(ctx).module_store,
            final(ctx).ast_store.extends(&old(ctx).ast_store),
            final(ctx).ast_store.exprs() == old(ctx).ast_store.exprs().push(expr),
            final(ctx).ast_store.expr_starts() == old(ctx).ast_store.expr_starts().push(start.pos),
            final(ctx).ast_store.decls() == old(ctx).ast_store.decls(),
            made_last(old(ctx), final(ctx), r),
    {
        let r = ctx.ast_store.get_expr(start, expr);
        proof {
            Context::lemma_grown_wf(old(ctx), ctx);
        }
        r
    }

    /// Parses an expression whose operators bind tighter than `min_precedence`. It stops before
    /// the end of input, a `;`, a token that is no infix operator, or an infix operator that
    /// binds no tighter than `min_precedence`.
    pub(crate) fn parse_expr(
        &self,
        ctx: &mut Context,
        lexer: &mut Lexer,
        min_precedence: Precedence,
    ) -> (r: Result<Expr, ParseHalt>)
        requires
            self.wf(),
            old(ctx).wf(),
            old(lexer).valid_in(old(ctx).str_store@),
        ensures
            parse_frame(old(ctx), final(ctx), old(lexer), final(lexer)),
            r is Ok ==> made_last(old(ctx), final(ctx), r->Ok_0),
            r is Ok ==> final(lexer).remaining() < old(lexer).remaining(),
            r is Ok ==> ends_expr(final(lexer).peeked().ty, min_precedence),
            old(lexer).peeked().ty == Ty::Eof ==> r is Err,
            ids_fit(final(ctx)) ==> read_as(
                final(ctx),
                final(lexer).state(),
                r,
                read_expr(old(lexer).src(), old(lexer).state(), min_precedence),
            ),
        decreases old(lexer).remaining(), 1nat,
    {
        let ghost src = lexer.src();
        let ghost s0 = lexer.state();
        let token = next_token(ctx, lexer);
        if token.ty == Ty::Eof {
            return Err(ParseHalt::UnexpectedToken);
        }
        let ghost c1 = *ctx;
        let ghost l1 = *lexer;
        let res = parse_prefix_expr(self, ctx, lexer, token);
        proof {
            lemma_frame_trans(old(ctx), &c1, ctx, old(lexer), &l1, lexer);
            if ids_fit(ctx) {
                lemma_token_text(token, s0.peek, old(ctx).str_store@, c1.str_store@);
            }
        }
        let mut left = match res {
            Ok(e) => e,
            Err(h) => {
                return Err(h);
            },
        };
        let ghost mut lt: ExprText = read_prefix(src, token.ty, c1.str_store@[token.lexeme.id() as int], l1.state())->Done_0;
        loop
            invariant
                self.wf(),
                parse_frame(old(ctx), ctx, old(lexer), lexer),
                made_last(old(ctx), ctx, left),
                lexer.remaining() < old(lexer).remaining(),
                src == old(lexer).src(),
                s0 == old(lexer).state(),
                ids_fit(ctx) ==> read_expr(src, s0, min_precedence) == read_infix(src, lexer.state(), min_precedence, lt)
                    && denotes(ctx.str_store@, ctx.ast_store.exprs(), left, lt),
            ensures
                parse_frame(old(ctx), ctx, old(lexer), lexer),
                made_last(old(ctx), ctx, left),
                lexer.remaining() < old(lexer).remaining(),
                ends_expr(lexer.peeked().ty, min_precedence),
                ids_fit(ctx) ==> read_expr(src, s0, min_precedence) == Reading::Done(lt, lexer.state())
                    && denotes(ctx.str_store@, ctx.ast_store.exprs(), left, lt),
            decreases lexer.remaining(),
        {
            let ty = lexer.peek().ty;
            if ty == Ty::Eof || ty == Ty::Semicolon {
                break;
            }
            let parselet = match self.infix_parselet(ty) {
                Some(p) => p,
                None => break,
            };
            if parselet.precedence().rank() <= min_precedence.rank() {
                break;
            }
            let ghost c2 = *ctx;
            let ghost l2 = *lexer;
            let token = next_token(ctx, lexer);
            let ghost c3 = *ctx;
            let ghost l3 = *lexer;
            proof {
                lemma_frame_trans(old(ctx), &c2, &c3, old(lexer), &l2, &l3);
            }
            let res = parselet.parse(self, ctx, lexer, left, token);
            proof {
                lemma_frame_trans(old(ctx), &c3, ctx, old(lexer), &l3, lexer);
                if ids_fit(ctx) {
                    lemma_denotes_grow(
                        c2.str_store@,
                        c3.str_store@,
                        c2.ast_store.exprs(),
                        c3.ast_store.exprs(),
                        left,
                        lt,
                    );
                }
            }
            left = match res {
                Ok(e) => e,
                Err(h) => {
                    return Err(h);
                },
            };
            proof {
                lt = read_operand(src, parselet, l3.state(), lt)->Done_0;
            }
        }
        Ok(left)
    }

    /// Parses the expressions of a block whose `{` was read, up to and including its `}`. At the
    /// end of input the block ends with an invalid expression.
    #[verifier::rlimit(60)]
    pub(crate) fn parse_block(&self, ctx: &mut Context, lexer: &mut Lexer) -> (r: Result<BlockExpr, ParseHalt>)
        requires
            self.wf(),
            old(ctx).wf(),
            old(lexer).valid_in(old(ctx).str_store@),
        ensures
            parse_frame(old(ctx), final(ctx), old(lexer), final(lexer)),
            r is Ok ==> all_below(r->Ok_0.exprs@, final(ctx).ast_store.exprs().len()),
            ids_fit(final(ctx)) ==> block_read_as(
                final(ctx),
                final(lexer).state(),
                r,
                read_block(old(lexer).src(), old(lexer).state(), Seq::empty()),
            ),
            r is Ok && ids_fit(final(ctx)) && block_unclosed(old(lexer).src(), old(lexer).state()) ==> {
                &&& final(ctx).ast_store.exprs().last() == ExprValue::Invalid("unclosed block expression")
                &&& final(ctx).ast_store.expr_starts().last() == final(lexer).peeked().pos
                &&& final(lexer).peeked().ty == Ty::Eof
            },
        decreases old(lexer).remaining(), 2nat,
    {
        let ghost src = lexer.src();
        let ghost s0 = lexer.state();
        let mut exprs: Vec<Expr> = Vec::new();
        let ghost mut acc: Seq<ExprText> = Seq::empty();
        proof {
            lemma_frame_refl(ctx, lexer);
        }
        loop
            invariant_except_break
                ids_fit(ctx) ==> read_block(src, s0, Seq::empty()) == read_block(src, lexer.state(), acc)
                    && denotes_all(ctx.str_store@, ctx.ast_store.exprs(), exprs@, acc),
                ids_fit(ctx) ==> block_unclosed(src, s0) == block_unclosed(src, lexer.state()),
            invariant
                self.wf(),
                parse_frame(old(ctx), ctx, old(lexer), lexer),
                all_below(exprs@, ctx.ast_store.exprs().len()),
                src == old(lexer).src(),
                s0 == old(lexer).state(),
            ensures
                parse_frame(old(ctx), ctx, old(lexer), lexer),
                all_below(exprs@, ctx.ast_store.exprs().len()),
                ids_fit(ctx) ==> read_block(src, s0, Seq::empty()) == Reading::Done(acc, lexer.state())
                    && denotes_all(ctx.str_store@, ctx.ast_store.exprs(), exprs@, acc),
                ids_fit(ctx) && block_unclosed(src, s0) ==> {
                    &&& ctx.ast_store.exprs().last() == ExprValue::Invalid("unclosed block expression")
                    &&& ctx.ast_store.expr_starts().last() == lexer.peeked().pos
                    &&& lexer.peeked().ty == Ty::Eof
                },
            decreases lexer.remaining(),
        {
            let close = *lexer.peek();
            proof {
                reveal(block_unclosed);
            }
            if close.ty == Ty::CloseBrace {
                let ghost c1 = *ctx;
                let ghost l1 = *lexer;
                next_token(ctx, lexer);
                proof {
                    lemma_frame_trans(old(ctx), &c1, ctx, old(lexer), &l1, lexer);
                    if ids_fit(ctx) {
                        lemma_denotes_all_grow(
                            c1.str_store@,
                            ctx.str_store@,
                            c1.ast_store.exprs(),
                            ctx.ast_store.exprs(),
                            exprs@,
                            acc,
                        );
                    }
                }
                break;
            } else if close.ty == Ty::Eof {
                let ghost c1 = *ctx;
                let ghost es = exprs@;
                let error = self.get_expr(ctx, close, ExprValue::Invalid("unclosed block expression"));
                exprs.push(error);
                proof {
                    lemma_frame_trans(old(ctx), &c1, ctx, old(lexer), lexer, lexer);
                    if ids_fit(ctx) {
                        let t = ExprText::Invalid("unclosed block expression");
                        lemma_made(&c1, ctx, error, ExprValue::Invalid("unclosed block expression"), t);
                        lemma_denotes_all_grow(
                            c1.str_store@,
                            ctx.str_store@,
                            c1.ast_store.exprs(),
                            ctx.ast_store.exprs(),
                            es,
                            acc,
                        );
                        lemma_denotes_all_push(ctx.str_store@, ctx.ast_store.exprs(), es, acc, error, t);
                        acc = acc.push(t);
                    }
                }
                break;
            } else {
                let ghost c1 = *ctx;
                let ghost l1 = *lexer;
                let res = self.parse_expr(ctx, lexer, Precedence::Base);
                proof {
                    lemma_frame_trans(old(ctx), &c1, ctx, old(lexer), &l1, lexer);
                }
                let expr = match res {
                    Ok(e) => e,
                    Err(h) => {
                        return Err(h);
                    },
                };
                let ghost es = exprs@;
                exprs.push(expr);
                proof {
                    if ids_fit(ctx) {
                        let t = read_expr(src, l1.state(), Precedence::Base)->Done_0;
                        lemma_denotes_all_grow(
                            c1.str_store@,
                            ctx.str_store@,
                            c1.ast_store.exprs(),
                            ctx.ast_store.exprs(),
                            es,
                            acc,
                        );
                        lemma_denotes_all_push(ctx.str_store@, ctx.ast_store.exprs(), es, acc, expr, t);
                        acc = acc.push(t);
                    }
                }
            }
        }
        Ok(BlockExpr { exprs })
    }

    /// The type a type name stands for: a builtin type, a name in another module (`m::name`), or a
    /// name in this module.
    pub fn parse_ty(&self, ctx: &mut Context, lexer: &mut Lexer, s: MStr) -> (r: Result<UncheckedTy, ParseHalt>)
        requires
            old(ctx).wf(),
            old(lexer).valid_in(old(ctx).str_store@),
            s.id() < old(ctx).str_store@.len(),
        ensures
            parse_frame(old(ctx), final(ctx), old(lexer), final(lexer)),
            final(ctx).ast_store == old(ctx).ast_store,
            r is Ok ==> r->Ok_0.id() < final(ctx).unchecked_ty_store@.len(),
            r is Ok <==> read_ty(old(lexer).src(), old(ctx).str_store@[s.id() as int], old(lexer).state()) is Some,
            r matches Err(h) ==> h == ParseHalt::InvalidModuleType,
            r is Ok ==> final(lexer).state() == read_ty(
                old(lexer).src(),
                old(ctx).str_store@[s.id() as int],
                old(lexer).state(),
            )->Some_0.1,
            r is Ok ==> ty_text_names(
                final(ctx).str_store@,
                final(ctx).unchecked_ty_store@,
                r->Ok_0,
                read_ty(old(lexer).src(), old(ctx).str_store@[s.id() as int], old(lexer).state())->Some_0.0,
            ),
    {
        let name = ctx.str_store.get_str(s);
        let ghost w = name@;
        let ghost c0 = *ctx;
        proof {
            lemma_frame_refl(ctx, lexer);
            reveal_strlit("i64");
            reveal_strlit("f64");
            reveal_strlit("none");
            reveal_strlit("bool");
        }
        if crate::unicode::str_equal(name, "i64") {
            let r = ctx.unchecked_ty_store.get_i64_ty();
            proof {
                lemma_ty_grown(&c0, ctx, lexer, UncheckedTyModel::I64, r);
            }
            Ok(r)
        } else if crate::unicode::str_equal(name, "f64") {
            let r = ctx.unchecked_ty_store.get_f64_ty();
            proof {
                lemma_ty_grown(&c0, ctx, lexer, UncheckedTyModel::F64, r);
            }
            Ok(r)
        } else if crate::unicode::str_equal(name, "none") {
            let r = ctx.unchecked_ty_store.get_none_ty();
            proof {
                lemma_ty_grown(&c0, ctx, lexer, UncheckedTyModel::Unit, r);
            }
            Ok(r)
        } else if crate::unicode::str_equal(name, "bool") {
            let r = ctx.unchecked_ty_store.get_bool_ty();
            proof {
                lemma_ty_grown(&c0, ctx, lexer, UncheckedTyModel::Bool, r);
            }
            Ok(r)
        } else if lexer.peek().ty == Ty::ModuleOperator {
            next_token(ctx, lexer);
            let ghost c1 = *ctx;
            let ghost l1 = *lexer;
            let name = next_token(ctx, lexer);
            proof {
                lemma_frame_trans(old(ctx), &c1, ctx, old(lexer), &l1, lexer);
            }
            if name.ty != Ty::Identifier {
                return Err(ParseHalt::InvalidModuleType);
            }
            let ghost c2 = *ctx;
            let r = ctx.unchecked_ty_store.get_named_ty(Some(s), name.lexeme);
            proof {
                lemma_ty_grown(&c2, ctx, lexer, UncheckedTyModel::Named(Some(s), name.lexeme), r);
                lemma_frame_trans(old(ctx), &c2, ctx, old(lexer), lexer, lexer);
                lemma_names_own_text(old(ctx).str_store@, s);
                lemma_names_text_grow(old(ctx).str_store@, ctx.str_store@, s, w);
                assert(names_text(c1.str_store@, name.lexeme, l1.state().peek.text));
                lemma_names_text_grow(c1.str_store@, ctx.str_store@, name.lexeme, l1.state().peek.text);
                assert(names_ty(ctx.unchecked_ty_store@, r, UncheckedTyModel::Named(Some(s), name.lexeme)));
            }
            Ok(r)
        } else {
            let r = ctx.unchecked_ty_store.get_named_ty(None, s);
            proof {
                lemma_ty_grown(&c0, ctx, lexer, UncheckedTyModel::Named(None, s), r);
                lemma_names_own_text(old(ctx).str_store@, s);
                assert(names_ty(ctx.unchecked_ty_store@, r, UncheckedTyModel::Named(None, s)));
            }
            Ok(r)
        }
    }

    /// Parses the declaration at the lexer and the `;` after it, storing the declaration (and an
    /// invalid one after it when no `;` follows) in `decls`.
    #[verifier::rlimit(60)]
    fn parse_decl_at(&self, ctx: &mut Context, lexer: &mut Lexer, decls: &mut Vec<Decl>, Ghost(acc): Ghost<Seq<DeclText>>) -> (r: Result<(), ParseHalt>)
        requires
            self.wf(),
            old(ctx).wf(),
            old(lexer).valid_in(old(ctx).str_store@),
            old(lexer).peeked().ty != Ty::Eof,
            forall|i: int| 0 <= i < old(decls)@.len() ==> old(ctx).ast_store.has_decl(#[trigger] old(decls)@[i]),
        ensures
            parse_frame(old(ctx), final(ctx), old(lexer), final(lexer)),
            r is Ok ==> final(lexer).remaining() < old(lexer).remaining(),
            r is Ok ==> final(decls)@.len() > old(decls)@.len(),
            forall|i: int| 0 <= i < final(decls)@.len() ==> final(ctx).ast_store.has_decl(#[trigger] final(decls)@[i]),
            old(decls)@.is_prefix_of(final(decls)@),
            ids_fit(final(ctx)) ==> forall|i: int|
                old(decls)@.len() <= i < final(decls)@.len() ==> (#[trigger] final(decls)@[i]).id() >= old(ctx).ast_store.decls().len(),
            ids_fit(final(ctx)) && decls_denote(old(ctx), old(decls)@, acc) ==> match r {
                Ok(_) => decl_step(old(lexer).src(), old(lexer).state(), acc) matches Reading::Done(a2, s4)
                    && s4 == final(lexer).state() && decls_denote(final(ctx), final(decls)@, a2),
                Err(h) => decl_step(old(lexer).src(), old(lexer).state(), acc) == Reading::<Seq<DeclText>>::Halt(h),
            },
    {
        let ghost src = lexer.src();
        let token = *lexer.peek();
        let ghost c1 = *ctx;
        let ghost l1 = *lexer;
        next_token(ctx, lexer);
        let ghost c2 = *ctx;
        let ghost l2 = *lexer;
        let res = crate::ast::parser::decl::parse_decl(self, ctx, lexer, token);
        proof {
            lemma_frame_trans(&c1, &c2, ctx, &l1, &l2, lexer);
        }
        let decl = match res {
            Ok(d) => d,
            Err(h) => {
                return Err(h);
            },
        };
        let ghost ds0 = decls@;
        decls.push(decl);
        let ghost c3 = *ctx;
        let ghost l3 = *lexer;
        let ghost t = read_decl(src, token.ty, l2.state())->Done_0;
        proof {
            assert(ds0.is_prefix_of(decls@)) by {
                assert(ds0 =~= decls@.subrange(0, ds0.len() as int));
            }
            if ids_fit(ctx) && decls_denote(&c1, ds0, acc) {
                lemma_decls_denote_grow(&c1, ctx, ds0, acc);
                lemma_decls_denote_push(ctx, ds0, acc, decl, t);
            }
        }
        let end = next_token(ctx, lexer);
        proof {
            lemma_frame_trans(old(ctx), &c3, ctx, old(lexer), &l3, lexer);
        }
        if end.ty != Ty::Semicolon {
            let ghost c4 = *ctx;
            let ghost l4 = *lexer;
            recover_decl(ctx, lexer);
            let ghost c5 = *ctx;
            let ghost ds1 = decls@;
            let decl2 = self.get_decl(
                ctx,
                end,
                DeclValue::Invalid("missing semicolon/new line after declaration"),
            );
            decls.push(decl2);
            proof {
                lemma_frame_trans(old(ctx), &c4, &c5, old(lexer), &l4, lexer);
                lemma_frame_refl(&c5, lexer);
                lemma_frame_trans(old(ctx), &c5, ctx, old(lexer), lexer, lexer);
                assert(ds0.is_prefix_of(decls@)) by {
                    assert(ds0 =~= decls@.subrange(0, ds0.len() as int));
                }
                if ids_fit(ctx) && decls_denote(&c1, ds0, acc) {
                    let bad = DeclText::Invalid("missing semicolon/new line after declaration");
                    lemma_decls_denote_grow(&c3, ctx, ds1, acc.push(t));
                    lemma_decl_denotes_invalid(ctx, "missing semicolon/new line after declaration");
                    lemma_decls_denote_push(ctx, ds1, acc.push(t), decl2, bad);
                }
            }
        } else {
            proof {
                if ids_fit(ctx) && decls_denote(&c1, ds0, acc) {
                    lemma_decls_denote_grow(&c3, ctx, decls@, acc.push(t));
                }
            }
        }
        Ok(())
    }

    /// Parses declarations up to the end of input: each is followed by a `;`, or
    /// an invalid declaration is stored after it and the lexer skips to the next declaration.
    fn parse_decls(&self, ctx: &mut Context, lexer: &mut Lexer) -> (r: Result<Vec<Decl>, ParseHalt>)
        requires
            self.wf(),
            old(ctx).wf(),
            old(lexer).valid_in(old(ctx).str_store@),
        ensures
            parse_frame(old(ctx), final(ctx), old(lexer), final(lexer)),
            r matches Ok(ds) ==> forall|i: int| 0 <= i < ds@.len() ==> final(ctx).ast_store.has_decl(#[trigger] ds@[i]),
            r matches Ok(ds) ==> (ds@.len() == 0 ==> *final(ctx) == *old(ctx)),
            ids_fit(final(ctx)) ==> (r matches Ok(ds) ==> forall|i: int|
                0 <= i < ds@.len() ==> (#[trigger] ds@[i]).id() >= old(ctx).ast_store.decls().len()),
            ids_fit(final(ctx)) ==> match r {
                Ok(ds) => read_decls(old(lexer).src(), old(lexer).state(), Seq::empty()) matches Reading::Done(ts, _)
                    && decls_denote(final(ctx), ds@, ts),
                Err(h) => read_decls(old(lexer).src(), old(lexer).state(), Seq::empty()) == Reading::<Seq<DeclText>>::Halt(h),
            },
    {
        let ghost src = lexer.src();
        let ghost s0 = lexer.state();
        let mut decls: Vec<Decl> = Vec::new();
        let ghost mut acc: Seq<DeclText> = Seq::empty();
        proof {
            lemma_frame_refl(ctx, lexer);
        }
        loop
            invariant_except_break
                ids_fit(ctx) ==> read_decls(src, s0, Seq::empty()) == read_decls(src, lexer.state(), acc)
                    && decls_denote(ctx, decls@, acc),
            invariant
                self.wf(),
                src == old(lexer).src(),
                s0 == old(lexer).state(),
                parse_frame(old(ctx), ctx, old(lexer), lexer),
                forall|i: int| 0 <= i < decls@.len() ==> ctx.ast_store.has_decl(#[trigger] decls@[i]),
                ids_fit(ctx) ==> forall|i: int|
                    0 <= i < decls@.len() ==> (#[trigger] decls@[i]).id() >= old(ctx).ast_store.decls().len(),
                decls@.len() == 0 ==> *ctx == *old(ctx),
            ensures
                decls@.len() == 0 ==> *ctx == *old(ctx),
                parse_frame(old(ctx), ctx, old(lexer), lexer),
                forall|i: int| 0 <= i < decls@.len() ==> ctx.ast_store.has_decl(#[trigger] decls@[i]),
                ids_fit(ctx) ==> forall|i: int|
                    0 <= i < decls@.len() ==> (#[trigger] decls@[i]).id() >= old(ctx).ast_store.decls().len(),
                ids_fit(ctx) ==> read_decls(src, s0, Seq::empty()) == Reading::Done(acc, lexer.state())
                    && decls_denote(ctx, decls@, acc),
            decreases lexer.remaining(),
        {
            if lexer.peek().ty == Ty::Eof {
                break;
            }
            let ghost c1 = *ctx;
            let ghost l1 = *lexer;
            let ghost ds0 = decls@;
            let res = self.parse_decl_at(ctx, lexer, &mut decls, Ghost(acc));
            proof {
                lemma_frame_trans(old(ctx), &c1, ctx, old(lexer), &l1, lexer);
            }
            match res {
                Ok(()) => {},
                Err(h) => {
                    return Err(h);
                },
            }
            proof {
                if ids_fit(ctx) {
                    assert forall|i: int| 0 <= i < decls@.len() implies (#[trigger] decls@[i]).id() >= old(ctx).ast_store.decls().len() by {
                        if i < ds0.len() {
                            assert(decls@[i] == ds0[i]) by {
                                assert(ds0[i] == decls@.subrange(0, ds0.len() as int)[i]);
                            }
                        }
                    }
                }
                acc = decl_step(src, l1.state(), acc)->Done_0;
            }
        }
        Ok(decls)
    }

    /// Parses the source of the module: its declarations, each followed by a `;`. The first
    /// declaration names the module; a `mod` or `use` declaration after the
    /// second is marked invalid, and so is a first declaration that is not a `mod`.
    #[verifier::rlimit(100)]
    pub fn parse(&self, ctx: &mut Context, source: &str) -> (r: Result<(), ParseHalt>)
        requires
            self.wf(),
            old(ctx).wf(),
            old(ctx).has_module(self.module()),
            crate::unicode::utf8_len(source@) <= usize::MAX,
        ensures
            final(ctx).wf(),
            others_kept(old(ctx), final(ctx), self.module()),
            old(ctx).str_store@.is_prefix_of(final(ctx).str_store@),
            final(ctx).modules()[self.module().id() as int].import_path == old(ctx).modules()[self.module().id() as int].import_path,
            final(ctx).modules()[self.module().id() as int].deps == old(ctx).modules()[self.module().id() as int].deps,
            r is Ok ==> parsed_module(final(ctx), self.module()),
            old(ctx).ast_store.exprs().len() <= final(ctx).ast_store.exprs().len(),
            old(ctx).ast_store.decls().len() <= final(ctx).ast_store.decls().len(),
            old(ctx).ast_store.exprs().is_prefix_of(final(ctx).ast_store.exprs()),
            old(ctx).unchecked_ty_store@.is_prefix_of(final(ctx).unchecked_ty_store@),
            ids_fit(final(ctx)) ==> old(ctx).ast_store.decls().is_prefix_of(final(ctx).ast_store.decls()),
            r is Ok && final(ctx).modules()[self.module().id() as int].ast@.len() == 0 ==> {
                &&& final(ctx).ast_store.decls() == old(ctx).ast_store.decls().push(DeclValue::Invalid("missing module name"))
                &&& final(ctx).ast_store.decl_starts().last().offset() == 0
                &&& final(ctx).modules()[self.module().id() as int].name == old(ctx).modules()[self.module().id() as int].name
            },
            ids_fit(final(ctx)) ==> match r {
                Ok(_) => read_decls(source@, start_state(source@), Seq::empty()) matches Reading::Done(ts, _)
                    && module_reads(final(ctx), self.module(), ts),
                Err(h) => read_decls(source@, start_state(source@), Seq::empty()) == Reading::<Seq<DeclText>>::Halt(h),
            },
    {
        let ghost s0 = ctx.str_store@;
        let mut lexer = Lexer::new(&mut ctx.str_store, source);
        proof {
            Context::lemma_grown_wf(old(ctx), ctx);
            lemma_interned_prefix(s0, ""@);
            lemma_interned_prefix(interned(s0, ""@), lexer.state().peek.text);
            crate::compiler::str_store::lemma_seq_prefix_trans(s0, interned(s0, ""@), ctx.str_store@);
            assert(lexer.state() == start_state(source@));
        }
        let ghost c0 = *ctx;
        let ghost l0 = lexer;
        proof {
            lemma_frame_refl(ctx, &lexer);
        }
        let decls = match self.parse_decls(ctx, &mut lexer) {
            Ok(ds) => ds,
            Err(h) => {
                return Err(h);
            },
        };
        let ghost ts: Seq<DeclText> = read_decls(source@, start_state(source@), Seq::empty())->Done_0;
        let ghost cd = *ctx;
        proof {
            assert(ids_fit(&cd) ==> read_decls(source@, start_state(source@), Seq::empty()) is Done);
            assert(old(ctx).ast_store.decls().is_prefix_of(cd.ast_store.decls()));
            assert(old(ctx).ast_store.exprs().is_prefix_of(cd.ast_store.exprs()));
            assert(old(ctx).unchecked_ty_store@.is_prefix_of(cd.unchecked_ty_store@));
        }
        let n = decls.len();
        if n > 0 {
            let first = decls[0];
            let is_mod = match self.get_decl_value(ctx, first) {
                DeclValue::Mod(module) => Some(module.name),
                _ => None,
            };
            match is_mod {
                Some(name) => {
                    let ghost c7 = *ctx;
                    self.set_module_name(ctx, name);
                    proof {
                        lemma_others_kept_trans(old(ctx), &c7, ctx, self.module());
                        if ids_fit(ctx) {
                            lemma_decl_denotes_kind(&c7, c7.ast_store.decls()[first.id() as int], ts[0]);
                            assert forall|k: int| 0 <= k < n implies decl_value_denotes(
                                ctx,
                                ctx.ast_store.decls()[(#[trigger] decls@[k]).id() as int],
                                placed_upto(2, k, ts[k]),
                            ) by {
                                lemma_decl_same(&c7, ctx, c7.ast_store.decls()[decls@[k].id() as int], ts[k]);
                            }
                        }
                    }
                },
                None => {
                    let ghost c7 = *ctx;
                    self.update_decl_value(
                        ctx,
                        first,
                        DeclValue::Invalid(
                            "missing module name, first declaration in a file must be a module name decl",
                        ),
                    );
                    proof {
                        if ids_fit(ctx) {
                            lemma_prefix_update(
                                old(ctx).ast_store.decls(),
                                c7.ast_store.decls(),
                                first.id() as int,
                                DeclValue::Invalid(
                                    "missing module name, first declaration in a file must be a module name decl",
                                ),
                            );
                            lemma_decl_denotes_kind(&c7, c7.ast_store.decls()[first.id() as int], ts[0]);
                            lemma_decl_denotes_invalid(
                                ctx,
                                "missing module name, first declaration in a file must be a module name decl",
                            );
                            assert forall|k: int| 0 <= k < n implies decl_value_denotes(
                                ctx,
                                ctx.ast_store.decls()[(#[trigger] decls@[k]).id() as int],
                                placed_upto(2, k, ts[k]),
                            ) by {
                                if k > 0 {
                                    assert(decls@[0].id() < decls@[k].id());
                                    lemma_decl_same(&c7, ctx, c7.ast_store.decls()[decls@[k].id() as int], ts[k]);
                                }
                            }
                        }
                    }
                },
            }
        } else {
            let ghost cb = *ctx;
            let token = Token::new_eof(&mut ctx.str_store, 0);
            proof {
                lemma_interned_prefix(cb.str_store@, ""@);
                Context::lemma_grown_wf(&cb, ctx);
            }
            self.get_decl(ctx, token, DeclValue::Invalid("missing module name"));
        }
        let mut i: usize = 2;
        while i < n
            invariant
                self.wf(),
                n == decls@.len(),
                2 <= i,
                ctx.wf(),
                ctx.has_module(self.module()),
                others_kept(old(ctx), ctx, self.module()),
                old(ctx).str_store@.is_prefix_of(ctx.str_store@),
                ctx.modules()[self.module().id() as int].import_path == old(ctx).modules()[self.module().id() as int].import_path,
                ctx.modules()[self.module().id() as int].deps == old(ctx).modules()[self.module().id() as int].deps,
                forall|k: int| 0 <= k < decls@.len() ==> ctx.ast_store.has_decl(#[trigger] decls@[k]),
                first_decl_ok(ctx, self.module(), decls@),
                forall|k: int| 2 <= k < i && k < n ==> later_decl_ok(#[trigger] ctx.ast_store.decls()[decls@[k].id() as int]),
                cd.str_store@.len() <= ctx.str_store@.len(),
                cd.ast_store.exprs().len() <= ctx.ast_store.exprs().len(),
                cd.ast_store.decls().len() <= ctx.ast_store.decls().len(),
                old(ctx).ast_store.exprs().is_prefix_of(ctx.ast_store.exprs()),
                old(ctx).unchecked_ty_store@.is_prefix_of(ctx.unchecked_ty_store@),
                ids_fit(ctx) ==> old(ctx).ast_store.decls().is_prefix_of(ctx.ast_store.decls()),
                ids_fit(ctx) ==> forall|k: int| 0 <= k < n ==> (#[trigger] decls@[k]).id() >= old(ctx).ast_store.decls().len(),
                ids_fit(&cd) ==> read_decls(source@, start_state(source@), Seq::empty()) is Done,
                ids_fit(ctx) ==> ts.len() == n && (forall|j: int, k: int|
                    0 <= j < k < n ==> (#[trigger] decls@[j]).id() < (#[trigger] decls@[k]).id()),
                ids_fit(ctx) ==> forall|k: int| 0 <= k < n ==> decl_value_denotes(
                    ctx,
                    ctx.ast_store.decls()[(#[trigger] decls@[k]).id() as int],
                    placed_upto(i as int, k, ts[k]),
                ),
                ids_fit(ctx) ==> (n > 0 && ts[0] is Mod ==> names_text(
                    ctx.str_store@,
                    ctx.modules()[self.module().id() as int].name,
                    ts[0]->Mod_0,
                )),
                n == 0 ==> {
                    &&& ctx.ast_store.decls() == old(ctx).ast_store.decls().push(DeclValue::Invalid("missing module name"))
                    &&& ctx.ast_store.decl_starts().last().offset() == 0
                    &&& ctx.modules()[self.module().id() as int].name == old(ctx).modules()[self.module().id() as int].name
                },
            decreases n - i,
        {
            let decl = decls[i];
            let kind: u8 = match self.get_decl_value(ctx, decl) {
                DeclValue::Mod(_) => 1,
                DeclValue::Use(_) => 2,
                _ => 0,
            };
            let ghost d0 = ctx.ast_store.decls();
            let ghost c9 = *ctx;
            if kind == 1 {
                self.update_decl_value(
                    ctx,
                    decl,
                    DeclValue::Invalid("module name can only appear as the first decl in a file"),
                );
                proof {
                    if ids_fit(ctx) {
                        lemma_prefix_update(
                            old(ctx).ast_store.decls(),
                            c9.ast_store.decls(),
                            decl.id() as int,
                            DeclValue::Invalid("module name can only appear as the first decl in a file"),
                        );
                    }
                }
            } else if kind == 2 {
                self.update_decl_value(
                    ctx,
                    decl,
                    DeclValue::Invalid("the use block can only appear directly after the module name in a file"),
                );
                proof {
                    if ids_fit(ctx) {
                        lemma_prefix_update(
                            old(ctx).ast_store.decls(),
                            c9.ast_store.decls(),
                            decl.id() as int,
                            DeclValue::Invalid("the use block can only appear directly after the module name in a file"),
                        );
                    }
                }
            }
            proof {
                assert forall|k: int| 2 <= k < i + 1 && k < n implies later_decl_ok(
                    #[trigger] ctx.ast_store.decls()[decls@[k].id() as int],
                ) by {
                    if k < i {
                        assert(later_decl_ok(d0[decls@[k].id() as int]));
                    }
                }
                if n > 0 {
                    assert(first_decl_ok(ctx, self.module(), decls@));
                }
                if ids_fit(ctx) {
                    assert forall|k: int| 0 <= k < n implies decl_value_denotes(
                        ctx,
                        ctx.ast_store.decls()[(#[trigger] decls@[k]).id() as int],
                        placed_upto(i + 1, k, ts[k]),
                    ) by {
                        assert(decl_value_denotes(&c9, d0[decls@[k].id() as int], placed_upto(i as int, k, ts[k])));
                        if k == i {
                            lemma_decl_denotes_kind(&c9, d0[decls@[k].id() as int], ts[k]);
                            lemma_decl_denotes_invalid(ctx, "module name can only appear as the first decl in a file");
                            lemma_decl_denotes_invalid(
                                ctx,
                                "the use block can only appear directly after the module name in a file",
                            );
                            if kind == 0 {
                                lemma_decl_same(&c9, ctx, d0[decls@[k].id() as int], placed_upto(i as int, k, ts[k]));
                            }
                        }
                        if k != i {
                            if k < i {
                                assert(decls@[k].id() < decls@[i as int].id());
                            } else {
                                assert(decls@[i as int].id() < decls@[k].id());
                            }
                            lemma_decl_same(&c9, ctx, d0[decls@[k].id() as int], placed_upto(i as int, k, ts[k]));
                        }
                    }
                }
            }
            i = i + 1;
        }
        let ghost c8 = *ctx;
        let ghost ds = decls@;
        self.set_module_ast(ctx, decls);
        proof {
            lemma_others_kept_trans(old(ctx), &c8, ctx, self.module());
            if ids_fit(ctx) {
                assert forall|k: int| 0 <= k < ds.len() implies decl_value_denotes(
                    ctx,
                    ctx.ast_store.decls()[(#[trigger] ds[k]).id() as int],
                    placed(k, ts[k]),
                ) by {
                    assert(decl_value_denotes(&c8, c8.ast_store.decls()[ds[k].id() as int], placed_upto(i as int, k, ts[k])));
                    lemma_decl_same(&c8, ctx, c8.ast_store.decls()[ds[k].id() as int], placed(k, ts[k]));
                }
                assert(read_decls(source@, start_state(source@), Seq::empty()) is Done);
                assert(ts.len() == ds.len());
                assert(ctx.modules()[self.module().id() as int].ast@ == ds);
                assert(ds.len() > 0 && ts[0] is Mod ==> names_text(
                    ctx.str_store@,
                    ctx.modules()[self.module().id() as int].name,
                    ts[0]->Mod_0,
                ));
            }
        }
        Ok(())
    }

    /// When the second declaration of the module is a `use`, each module it names gets mapped
    /// (by that name) to the module `module_map` gives for it.
    pub fn set_deps(&self, ctx: &mut Context, module_map: &IdMap<MStr, Module>)
        requires
            old(ctx).wf(),
            old(ctx).has_module(self.module()),
            module_map.wf(),
            forall|k: int| 0 <= k < module_map.vals().len() ==> old(ctx).has_module(#[trigger] module_map.vals()[k]),
            forall|d: MStr| #[trigger] use_deps(old(ctx), self.module()).contains(d) ==> module_map.as_map().contains_key(d),
        ensures
            final(ctx).wf(),
            final(ctx).str_store == old(ctx).str_store,
            final(ctx).ast_store == old(ctx).ast_store,
            final(ctx).unchecked_ty_store == old(ctx).unchecked_ty_store,
            final(ctx).checked_ty_store == old(ctx).checked_ty_store,
            final(ctx).hir_store == old(ctx).hir_store,
            others_kept(old(ctx), final(ctx), self.module()),
            final(ctx).modules()[self.module().id() as int].name == old(ctx).modules()[self.module().id() as int].name,
            final(ctx).modules()[self.module().id() as int].ast == old(ctx).modules()[self.module().id() as int].ast,
            final(ctx).modules()[self.module().id() as int].import_path == old(ctx).modules()[self.module().id() as int].import_path,
            final(ctx).modules()[self.module().id() as int].deps.as_map() == old(ctx).modules()[self.module().id() as int].deps.as_map().union_prefer_right(
                module_map.as_map().restrict(use_deps(old(ctx), self.module()).to_set()),
            ),
    {
        let mv = ctx.get_module_value(self.module);
        proof {
            lemma_module_store_kept_refl(ctx, self.module());
            assert(ctx.module_wf(ctx.modules()[self.module().id() as int]));
        }
        if mv.ast.len() < 2 {
            proof {
                assert(use_deps(ctx, self.module()).to_set() =~= Set::<MStr>::empty());
                assert(module_map.as_map().restrict(Set::<MStr>::empty()) =~= Map::<MStr, Module>::empty());
                assert(mv.deps.as_map().union_prefer_right(Map::<MStr, Module>::empty()) =~= mv.deps.as_map());
            }
            return;
        }
        let decl = mv.ast[1];
        let deps = match ctx.ast_store.get_decl_value(decl) {
            DeclValue::Use(use_decl) => crate::index_vec::copy_vec(&use_decl.deps),
            _ => {
                proof {
                    assert(use_deps(ctx, self.module()).to_set() =~= Set::<MStr>::empty());
                    assert(module_map.as_map().restrict(Set::<MStr>::empty()) =~= Map::<MStr, Module>::empty());
                    assert(mv.deps.as_map().union_prefer_right(Map::<MStr, Module>::empty()) =~= mv.deps.as_map());
                }
                return;
            },
        };
        let ghost all = deps@;
        let ghost d0 = mv.deps.as_map();
        proof {
            assert forall|d: MStr| #[trigger] all.contains(d) implies module_map.as_map().contains_key(d) by {
                assert(use_deps(old(ctx), self.module()).contains(d));
            }
            assert(all.take(0).to_set() =~= Set::<MStr>::empty());
            assert(module_map.as_map().restrict(Set::<MStr>::empty()) =~= Map::<MStr, Module>::empty());
            assert(d0.union_prefer_right(Map::<MStr, Module>::empty()) =~= d0);
        }
        let mut i: usize = 0;
        while i < deps.len()
            invariant
                all == deps@,
                all == use_deps(old(ctx), self.module()),
                i <= all.len(),
                ctx.wf(),
                ctx.has_module(self.module()),
                module_map.wf(),
                forall|k: int| 0 <= k < module_map.vals().len() ==> ctx.has_module(#[trigger] module_map.vals()[k]),
                forall|d: MStr| #[trigger] all.contains(d) ==> module_map.as_map().contains_key(d),
                ctx.str_store == old(ctx).str_store,
                ctx.ast_store == old(ctx).ast_store,
                ctx.unchecked_ty_store == old(ctx).unchecked_ty_store,
                ctx.checked_ty_store == old(ctx).checked_ty_store,
                ctx.hir_store == old(ctx).hir_store,
                others_kept(old(ctx), ctx, self.module()),
                ctx.modules()[self.module().id() as int].name == old(ctx).modules()[self.module().id() as int].name,
                ctx.modules()[self.module().id() as int].ast == old(ctx).modules()[self.module().id() as int].ast,
                ctx.modules()[self.module().id() as int].import_path == old(ctx).modules()[self.module().id() as int].import_path,
                d0 == old(ctx).modules()[self.module().id() as int].deps.as_map(),
                ctx.modules()[self.module().id() as int].deps.as_map() == d0.union_prefer_right(
                    module_map.as_map().restrict(all.take(i as int).to_set()),
                ),
            decreases all.len() - i,
        {
            let dep = deps[i];
            assert(all.contains(dep)) by {
                assert(all[i as int] == dep);
            }
            let module = match module_map.get(&dep) {
                Some(m) => *m,
                None => {
                    assert(false);
                    return;
                },
            };
            proof {
                module_map.lemma_value_in_vals(dep);
            }
            let ghost c0 = *ctx;
            let ghost before = ctx.modules()[self.module().id() as int].deps.as_map();
            match ctx.module_store.get_mut(self.module) {
                Some(mv) => {
                    mv.deps.insert(dep, module);
                },
                None => {},
            }
            proof {
                assert(c0.module_wf(c0.modules()[self.module().id() as int]));
                assert forall|m: int| 0 <= m < ctx.modules().len() implies ctx.module_wf(#[trigger] ctx.modules()[m]) by {
                    assert(c0.module_wf(c0.modules()[m]));
                    if m == self.module().id() {
                        let v = ctx.modules()[m];
                        assert forall|j: int| 0 <= j < v.deps.vals().len() implies (#[trigger] v.deps.vals()[j]).id() < ctx.modules().len() by {
                            let ov = c0.modules()[m];
                            if j < ov.deps.vals().len() && v.deps.vals()[j] == ov.deps.vals()[j] {
                            } else {
                                assert(v.deps.vals()[j] == module);
                            }
                        }
                    }
                }
                lemma_others_kept_trans(old(ctx), &c0, ctx, self.module());
                assert(all.take(i + 1).to_set() =~= all.take(i as int).to_set().insert(dep)) by {
                    assert(all.take(i + 1) =~= all.take(i as int).push(dep));
                    all.take(i as int).lemma_push_to_set_commute(dep);
                }
                assert(ctx.modules()[self.module().id() as int].deps.as_map() =~= d0.union_prefer_right(
                    module_map.as_map().restrict(all.take(i + 1).to_set()),
                ));
            }
            i = i + 1;
        }
        proof {
            assert(all.take(all.len() as int) =~= all);
        }
    }

    fn set_module_name(&self, ctx: &mut Context, name: MStr)
        requires
            old(ctx).wf(),
            old(ctx).has_module(self.module()),
        ensures
            final(ctx).wf(),
            final(ctx).str_store == old(ctx).str_store,
            final(ctx).ast_store == old(ctx).ast_store,
            final(ctx).unchecked_ty_store == old(ctx).unchecked_ty_store,
            final(ctx).checked_ty_store == old(ctx).checked_ty_store,
            final(ctx).hir_store == old(ctx).hir_store,
            others_kept(old(ctx), final(ctx), self.module()),
            final(ctx).modules()[self.module().id() as int].name == name,
            final(ctx).modules()[self.module().id() as int].ast == old(ctx).modules()[self.module().id() as int].ast,
            final(ctx).modules()[self.module().id() as int].deps == old(ctx).modules()[self.module().id() as int].deps,
            final(ctx).modules()[self.module().id() as int].import_path == old(ctx).modules()[self.module().id() as int].import_path,
    {
        match ctx.module_store.get_mut(self.module) {
            Some(mv) => {
                mv.name = name;
            },
            None => {},
        }
        proof {
            assert forall|m: int| 0 <= m < ctx.modules().len() implies ctx.module_wf(#[trigger] ctx.modules()[m]) by {
                assert(old(ctx).module_wf(old(ctx).modules()[m]));
            }
        }
    }

    fn set_module_ast(&self, ctx: &mut Context, decls: Vec<Decl>)
        requires
            old(ctx).wf(),
            old(ctx).has_module(self.module()),
            forall|k: int| 0 <= k < decls@.len() ==> old(ctx).ast_store.has_decl(#[trigger] decls@[k]),
        ensures
            final(ctx).wf(),
            final(ctx).str_store == old(ctx).str_store,
            final(ctx).ast_store == old(ctx).ast_store,
            final(ctx).unchecked_ty_store == old(ctx).unchecked_ty_store,
            final(ctx).checked_ty_store == old(ctx).checked_ty_store,
            final(ctx).hir_store == old(ctx).hir_store,
            others_kept(old(ctx), final(ctx), self.module()),
            final(ctx).modules()[self.module().id() as int].name == old(ctx).modules()[self.module().id() as int].name,
            final(ctx).modules()[self.module().id() as int].ast@ == decls@,
            final(ctx).modules()[self.module().id() as int].deps == old(ctx).modules()[self.module().id() as int].deps,
            final(ctx).modules()[self.module().id() as int].import_path == old(ctx).modules()[self.module().id() as int].import_path,
    {
        match ctx.module_store.get_mut(self.module) {
            Some(mv) => {
                mv.ast = decls;
            },
            None => {},
        }
        proof {
            assert forall|m: int| 0 <= m < ctx.modules().len() implies ctx.module_wf(#[trigger] ctx.modules()[m]) by {
                assert(old(ctx).module_wf(old(ctx).modules()[m]));
            }
        }
    }

    /// The text `s` stands for.
    fn get_str<'c>(&self, ctx: &'c Context, s: MStr) -> (r: &'c str)
        requires
            s.id() < ctx.str_store@.len(),
        ensures
            r@ == ctx.str_store@[s.id() as int],
    {
        ctx.str_store.get_str(s)
    }
}

/// The lexer state at the start of `src`.
pub open spec fn start_state(src: Seq<char>) -> LexState {
    let first = lex_next(src, 0, false);
    LexState { cursor: first.end, peek: first, eos: false }
}

/// Reading one declaration of a module at `s`, after the declarations `acc`: it is read from
/// its first token and must be followed by a `;`; otherwise an invalid
/// declaration follows it, and the lexer skips to the next declaration.
pub open spec fn decl_step(src: Seq<char>, s: LexState, acc: Seq<DeclText>) -> Reading<Seq<DeclText>> {
    match read_decl(src, s.peek.ty, step(src, s)) {
        Reading::Done(d, s2) => if s2.peek.ty == Ty::Semicolon {
            Reading::Done(acc.push(d), step(src, s2))
        } else {
            Reading::Done(
                acc.push(d).push(DeclText::Invalid("missing semicolon/new line after declaration")),
                skip_decl(src, step(src, s2)),
            )
        },
        Reading::Halt(h) => Reading::Halt(h),
        Reading::Stuck => Reading::Stuck,
    }
}

/// Reading the declarations of a module at `s`, after the declarations `acc`, up to the end of
/// input.
pub open spec fn read_decls(src: Seq<char>, s: LexState, acc: Seq<DeclText>) -> Reading<Seq<DeclText>>
    decreases rem(src, s),
{
    if s.peek.ty == Ty::Eof {
        Reading::Done(acc, s)
    } else {
        match decl_step(src, s, acc) {
            Reading::Done(a2, s4) => if rem(src, s4) < rem(src, s) {
                read_decls(src, s4, a2)
            } else {
                Reading::Stuck
            },
            Reading::Halt(h) => Reading::Halt(h),
            Reading::Stuck => Reading::Stuck,
        }
    }
}

/// The declarations `ds` name, in `c`, those written `ts`, and come in the order they were
/// stored.
pub open spec fn decls_denote(c: &Context, ds: Seq<Decl>, ts: Seq<DeclText>) -> bool {
    &&& ds.len() == ts.len()
    &&& forall|k: int|
        0 <= k < ds.len() ==> (#[trigger] ds[k]).id() < c.ast_store.decls().len() && decl_value_denotes(
            c,
            c.ast_store.decls()[ds[k].id() as int],
            ts[k],
        )
    &&& forall|j: int, k: int| 0 <= j < k < ds.len() ==> (#[trigger] ds[j]).id() < (#[trigger] ds[k]).id()
}

/// The declaration written `t` at place `k` of a module, as the module keeps it: the first must
/// be a `mod`, and none after the second may be a `mod` or a `use`.
pub open spec fn placed(k: int, t: DeclText) -> DeclText {
    if k == 0 && !(t is Mod) {
        DeclText::Invalid("missing module name, first declaration in a file must be a module name decl")
    } else if k >= 2 && t is Mod {
        DeclText::Invalid("module name can only appear as the first decl in a file")
    } else if k >= 2 && t is Use {
        DeclText::Invalid("the use block can only appear directly after the module name in a file")
    } else {
        t
    }
}

/// The module `m` holds, in `c`, the declarations written `ts` as a module keeps them, and is
/// named by its first declaration when that is a `mod`.
pub open spec fn module_reads(c: &Context, m: Module, ts: Seq<DeclText>) -> bool {
    let ds = c.modules()[m.id() as int].ast@;
    &&& ds.len() == ts.len()
    &&& forall|k: int|
        0 <= k < ds.len() ==> decl_value_denotes(
            c,
            c.ast_store.decls()[(#[trigger] ds[k]).id() as int],
            placed(k, ts[k]),
        )
    &&& (ts.len() > 0 && ts[0] is Mod ==> names_text(c.str_store@, c.modules()[m.id() as int].name, ts[0]->Mod_0))
}

/// What declarations name stays named as the context grows.
pub proof fn lemma_decls_denote_grow(c0: &Context, c1: &Context, ds: Seq<Decl>, ts: Seq<DeclText>)
    requires
        c1.wf(),
        c0.str_store@.is_prefix_of(c1.str_store@),
        c0.unchecked_ty_store@.is_prefix_of(c1.unchecked_ty_store@),
        c1.ast_store.extends(&c0.ast_store),
        decls_denote(c0, ds, ts),
    ensures
        decls_denote(c1, ds, ts),
{
    assert forall|k: int| 0 <= k < ds.len() implies (#[trigger] ds[k]).id() < c1.ast_store.decls().len()
        && decl_value_denotes(c1, c1.ast_store.decls()[ds[k].id() as int], ts[k]) by {
        let id = ds[k].id() as int;
        assert(c0.ast_store.decls()[id] == c1.ast_store.decls()[id]) by {
            assert(c0.ast_store.decls()[id] == c1.ast_store.decls().subrange(0, c0.ast_store.decls().len() as int)[id]);
        }
        lemma_decl_value_denotes_grow(c0, c1, c0.ast_store.decls()[id], ts[k]);
    }
}

/// One more declaration, stored after the others, keeps what they name.
pub proof fn lemma_decls_denote_push(c: &Context, ds: Seq<Decl>, ts: Seq<DeclText>, d: Decl, t: DeclText)
    requires
        decls_denote(c, ds, ts),
        d.id() < c.ast_store.decls().len(),
        forall|k: int| 0 <= k < ds.len() ==> (#[trigger] ds[k]).id() < d.id(),
        decl_value_denotes(c, c.ast_store.decls()[d.id() as int], t),
    ensures
        decls_denote(c, ds.push(d), ts.push(t)),
{
    let ds1 = ds.push(d);
    let ts1 = ts.push(t);
    assert forall|k: int| 0 <= k < ds1.len() implies (#[trigger] ds1[k]).id() < c.ast_store.decls().len()
        && decl_value_denotes(c, c.ast_store.decls()[ds1[k].id() as int], ts1[k]) by {
        if k < ds.len() {
            assert(ds1[k] == ds[k]);
            assert(ts1[k] == ts[k]);
        }
    }
    assert forall|j: int, k: int| 0 <= j < k < ds1.len() implies (#[trigger] ds1[j]).id() < (#[trigger] ds1[k]).id() by {
        assert(ds1[j] == ds[j]);
        if k < ds.len() {
            assert(ds1[k] == ds[k]);
        }
    }
}

/// What a module holds stays what it reads as while the stores grow and the module keeps its
/// declarations and name.
pub proof fn lemma_module_reads_kept(c0: &Context, c1: &Context, m: Module, ts: Seq<DeclText>)
    requires
        c0.wf(),
        c1.wf(),
        c0.has_module(m),
        m.id() < c1.modules().len(),
        c0.str_store@.is_prefix_of(c1.str_store@),
        c0.unchecked_ty_store@.is_prefix_of(c1.unchecked_ty_store@),
        c0.ast_store.exprs().is_prefix_of(c1.ast_store.exprs()),
        c0.ast_store.decls().is_prefix_of(c1.ast_store.decls()),
        c1.modules()[m.id() as int].ast == c0.modules()[m.id() as int].ast,
        c1.modules()[m.id() as int].name == c0.modules()[m.id() as int].name,
        module_reads(c0, m, ts),
    ensures
        module_reads(c1, m, ts),
{
    let ds = c0.modules()[m.id() as int].ast@;
    assert(c0.module_wf(c0.modules()[m.id() as int]));
    assert forall|k: int| 0 <= k < ds.len() implies decl_value_denotes(
        c1,
        c1.ast_store.decls()[(#[trigger] ds[k]).id() as int],
        placed(k, ts[k]),
    ) by {
        let id = ds[k].id() as int;
        assert(id < c0.ast_store.decls().len());
        assert(c0.ast_store.decls()[id] == c1.ast_store.decls()[id]) by {
            assert(c0.ast_store.decls()[id] == c1.ast_store.decls().subrange(0, c0.ast_store.decls().len() as int)[id]);
        }
        lemma_decl_value_denotes_grow(c0, c1, c0.ast_store.decls()[id], placed(k, ts[k]));
    }
    if ts.len() > 0 && ts[0] is Mod {
        lemma_names_text_grow(c0.str_store@, c1.str_store@, c0.modules()[m.id() as int].name, ts[0]->Mod_0);
    }
}

/// Changing an element past the end of `a` keeps `a` a prefix.
pub proof fn lemma_prefix_update<T>(a: Seq<T>, b: Seq<T>, i: int, v: T)
    requires
        a.is_prefix_of(b),
        a.len() <= i < b.len(),
    ensures
        a.is_prefix_of(b.update(i, v)),
{
    assert(a =~= b.update(i, v).subrange(0, a.len() as int)) by {
        assert forall|k: int| 0 <= k < a.len() implies a[k] == b.update(i, v).subrange(0, a.len() as int)[k] by {
            assert(a[k] == b.subrange(0, a.len() as int)[k]);
        }
    }
}

/// The declaration written `t` at place `k`, once the places before `i` were checked.
pub open spec fn placed_upto(i: int, k: int, t: DeclText) -> DeclText {
    if k < i {
        placed(k, t)
    } else {
        t
    }
}

/// What a declaration is written as depends only on the strings, types and expressions stored.
pub proof fn lemma_decl_same(c0: &Context, c1: &Context, v: DeclValue, t: DeclText)
    requires
        c1.wf(),
        c1.str_store@ == c0.str_store@,
        c1.unchecked_ty_store@ == c0.unchecked_ty_store@,
        c1.ast_store.exprs() == c0.ast_store.exprs(),
        decl_value_denotes(c0, v, t),
    ensures
        decl_value_denotes(c1, v, t),
{
    assert(c0.str_store@.is_prefix_of(c1.str_store@)) by {
        assert(c0.str_store@ =~= c1.str_store@.subrange(0, c0.str_store@.len() as int));
    }
    assert(c0.unchecked_ty_store@.is_prefix_of(c1.unchecked_ty_store@)) by {
        assert(c0.unchecked_ty_store@ =~= c1.unchecked_ty_store@.subrange(0, c0.unchecked_ty_store@.len() as int));
    }
    assert(c0.ast_store.exprs().is_prefix_of(c1.ast_store.exprs())) by {
        assert(c0.ast_store.exprs() =~= c1.ast_store.exprs().subrange(0, c0.ast_store.exprs().len() as int));
    }
    lemma_decl_value_denotes_grow(c0, c1, v, t);
}

/// The first declaration of `decls` names the module (and the module has its name) or is
/// marked invalid.
pub open spec fn first_decl_ok(ctx: &Context, m: Module, decls: Seq<Decl>) -> bool {
    decls.len() > 0 ==> {
        let d = ctx.ast_store.decls()[decls[0].id() as int];
        ||| d matches DeclValue::Mod(md) && md.name == ctx.modules()[m.id() as int].name
        ||| d is Invalid
    }
}

/// A declaration after the second is neither a `mod` nor a `use`.
pub open spec fn later_decl_ok(d: DeclValue) -> bool {
    !(d is Mod) && !(d is Use)
}

/// After parsing, the module's declarations are stored; the first names the module (whose name
/// it gives) or is invalid; none after the second is a `mod` or a `use`.
pub open spec fn parsed_module(ctx: &Context, m: Module) -> bool {
    let decls = ctx.modules()[m.id() as int].ast@;
    &&& forall|k: int| 0 <= k < decls.len() ==> ctx.ast_store.has_decl(#[trigger] decls[k])
    &&& first_decl_ok(ctx, m, decls)
    &&& forall|k: int| 2 <= k < decls.len() ==> later_decl_ok(#[trigger] ctx.ast_store.decls()[decls[k].id() as int])
}

/// The modules named by the module's `use` declaration (its second declaration), if it has
/// one.
pub open spec fn use_deps(ctx: &Context, m: Module) -> Seq<MStr> {
    let ast = ctx.modules()[m.id() as int].ast@;
    if ast.len() >= 2 {
        match ctx.ast_store.decls()[ast[1].id() as int] {
            DeclValue::Use(u) => u.deps@,
            _ => Seq::empty(),
        }
    } else {
        Seq::empty()
    }
}

pub proof fn lemma_module_store_kept_refl(c: &Context, m: Module)
    ensures
        others_kept(c, c, m),
{
}

/// Every module but `m` is as it was.
pub open spec fn others_kept(c0: &Context, c1: &Context, m: Module) -> bool {
    &&& c1.modules().len() == c0.modules().len()
    &&& forall|k: int| 0 <= k < c0.modules().len() && k != m.id() ==> #[trigger] c1.modules()[k] == c0.modules()[k]
}

proof fn lemma_others_kept_trans(c0: &Context, c1: &Context, c2: &Context, m: Module)
    requires
        others_kept(c0, c1, m),
        others_kept(c1, c2, m),
    ensures
        others_kept(c0, c2, m),
{
    assert forall|k: int| 0 <= k < c0.modules().len() && k != m.id() implies #[trigger] c2.modules()[k] == c0.modules()[k] by {
        assert(c1.modules()[k] == c0.modules()[k]);
    }
}

/// `w` names a builtin type.
pub open spec fn is_builtin_ty_name(w: Seq<char>) -> bool {
    w == "i64"@ || w == "f64"@ || w == "none"@ || w == "bool"@
}

/// A type as written: the text of the alias of the module it is taken from, if any, and the
/// text of its name.
pub ghost struct TyText {
    pub module: Option<Seq<char>>,
    pub name: Seq<char>,
}

/// Reading a type whose first name (with text `w`) was read, the lexer being at `s`: the type as
/// written and the state after it, or `None` when a `::` after a name that is not a builtin
/// type is not followed by a name.
pub open spec fn read_ty(src: Seq<char>, w: Seq<char>, s: LexState) -> Option<(TyText, LexState)> {
    if is_builtin_ty_name(w) || s.peek.ty != Ty::ModuleOperator {
        Some((TyText { module: None, name: w }, s))
    } else {
        let s1 = step(src, s);
        if s1.peek.ty == Ty::Identifier {
            Some((TyText { module: Some(w), name: s1.peek.text }, step(src, s1)))
        } else {
            None
        }
    }
}

/// `r` names, in `store` (whose strings are `strs`), the type written as `t`: a builtin type by
/// its name, or else the name in the module aliased as written (this module when no alias is).
pub open spec fn ty_text_names(strs: Seq<Seq<char>>, store: Seq<UncheckedTyModel>, r: UncheckedTy, t: TyText) -> bool {
    if t.module is None && t.name == "i64"@ {
        names_ty(store, r, UncheckedTyModel::I64)
    } else if t.module is None && t.name == "f64"@ {
        names_ty(store, r, UncheckedTyModel::F64)
    } else if t.module is None && t.name == "none"@ {
        names_ty(store, r, UncheckedTyModel::Unit)
    } else if t.module is None && t.name == "bool"@ {
        names_ty(store, r, UncheckedTyModel::Bool)
    } else {
        exists|m: Option<MStr>, n: MStr|
            #[trigger] names_ty(store, r, UncheckedTyModel::Named(m, n)) && names_text(strs, n, t.name) && match (
                m,
                t.module,
            ) {
                (Some(a), Some(at)) => names_text(strs, a, at),
                (None, None) => true,
                _ => false,
            }
    }
}

/// The unit type is the type written `none`.
pub proof fn lemma_unit_ty_text(strs: Seq<Seq<char>>, store: Seq<UncheckedTyModel>, r: UncheckedTy)
    requires
        names_ty(store, r, UncheckedTyModel::Unit),
    ensures
        ty_text_names(strs, store, r, TyText { module: None, name: "none"@ }),
{
    reveal_strlit("i64");
    reveal_strlit("f64");
    reveal_strlit("none");
    assert("none"@.len() == 4);
    assert("none"@ != "i64"@);
    assert("none"@ != "f64"@);
}

/// A type keeps its name as stores grow without duplicates.
pub proof fn lemma_ty_text_names_grow(
    strs0: Seq<Seq<char>>,
    strs1: Seq<Seq<char>>,
    store0: Seq<UncheckedTyModel>,
    store1: Seq<UncheckedTyModel>,
    r: UncheckedTy,
    t: TyText,
)
    requires
        strs0.is_prefix_of(strs1),
        strs1.no_duplicates(),
        store0.is_prefix_of(store1),
        store1.no_duplicates(),
        ty_text_names(strs0, store0, r, t),
    ensures
        ty_text_names(strs1, store1, r, t),
{
    if t.module is None && (t.name == "i64"@ || t.name == "f64"@ || t.name == "none"@ || t.name == "bool"@) {
        let m = if t.name == "i64"@ {
            UncheckedTyModel::I64
        } else if t.name == "f64"@ {
            UncheckedTyModel::F64
        } else if t.name == "none"@ {
            UncheckedTyModel::Unit
        } else {
            UncheckedTyModel::Bool
        };
        lemma_index_of_prefix(store0, store1, m);
    } else {
        let (m, n) = choose|m: Option<MStr>, n: MStr|
            #[trigger] names_ty(store0, r, UncheckedTyModel::Named(m, n)) && names_text(strs0, n, t.name) && match (
                m,
                t.module,
            ) {
                (Some(a), Some(at)) => names_text(strs0, a, at),
                (None, None) => true,
                _ => false,
            };
        lemma_index_of_prefix(store0, store1, UncheckedTyModel::Named(m, n));
        lemma_names_text_grow(strs0, strs1, n, t.name);
        match (m, t.module) {
            (Some(a), Some(at)) => {
                lemma_names_text_grow(strs0, strs1, a, at);
            },
            _ => {},
        }
        assert(names_ty(store1, r, UncheckedTyModel::Named(m, n)));
    }
}

/// `r` is the id that `store` gives the type `t`.
pub open spec fn names_ty(store: Seq<UncheckedTyModel>, r: UncheckedTy, t: UncheckedTyModel) -> bool {
    &&& store.contains(t)
    &&& r.id() == (store.index_of(t) as u32) as nat
}

proof fn lemma_ty_grown<'s>(c0: &Context, c1: &Context, l: &Lexer<'s>, t: UncheckedTyModel, r: UncheckedTy)
    requires
        c0.wf(),
        l.valid_in(c0.str_store@),
        c1.unchecked_ty_store.wf(),
        c1.str_store == c0.str_store,
        c1.ast_store == c0.ast_store,
        c1.checked_ty_store == c0.checked_ty_store,
        c1.hir_store == c0.hir_store,
        c1.mir_store == c0.mir_store,
        c1.module_store == c0.module_store,
        crate::compiler::ty_store::interned_as(c0.unchecked_ty_store@, c1.unchecked_ty_store@, t, r.id()),
    ensures
        parse_frame(c0, c1, l, l),
        names_ty(c1.unchecked_ty_store@, r, t),
{
    lemma_interned_prefix(c0.unchecked_ty_store@, t);
    Context::lemma_grown_wf(c0, c1);
    lemma_frame_refl(c0, l);
}

} // verus!
