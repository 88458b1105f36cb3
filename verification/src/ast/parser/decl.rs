use vstd::prelude::*;

use crate::ast::ast::{all_below, BlockExpr, Decl, DeclValue, FuncDecl, ModDecl, TyDecl, UseDecl};
use crate::ast::lexer::{lemma_lex_next_bounds, step, LexState, Lexer, Token, Ty};
use crate::ast::parser::{
    last_decl, lemma_token_text, lemma_ty_text_names_grow, lemma_unit_ty_text, read_ty, ty_text_names, TyText, lemma_frame_refl, lemma_frame_trans, made_last_decl, names_ty, next_token, parse_frame,
    recover_decl, ParseHalt, Parser,
};
use crate::ast::parser::expr_text::{
    denotes_all, ids_fit, lemma_denotes_all_grow, read_block, skip_decl, ExprText, Reading,
};
use crate::compiler::context::Context;
use crate::compiler::str_store::{interned, lemma_interned_keeps_index, lemma_names_text_grow, names_text, MStr};
use crate::index_vec::Indexer;
use crate::types::unchecked_ty::{UncheckedTy, UncheckedTyModel};

verus! {

/// `mod name`.
fn parse_mod_decl(parser: &Parser, ctx: &mut Context, lexer: &mut Lexer, token: Token) -> (r: Decl)
    requires
        parser.wf(),
        old(ctx).wf(),
        old(lexer).valid_in(old(ctx).str_store@),
    ensures
        parse_frame(old(ctx), final(ctx), old(lexer), final(lexer)),
        made_last_decl(old(ctx), final(ctx), r),
        old(lexer).peeked().ty == Ty::Identifier ==> last_decl(final(ctx)) == DeclValue::Mod(
            ModDecl { name: old(lexer).peeked().lexeme },
        ),
        old(lexer).peeked().ty != Ty::Identifier ==> last_decl(final(ctx)) == DeclValue::Invalid(
            "function is missing a body",
        ),
        old(lexer).peeked().ty == Ty::Identifier ==> final(lexer).state() == step(old(lexer).src(), old(lexer).state()),
        old(lexer).peeked().ty != Ty::Identifier ==> final(lexer).state() == skip_decl(
            old(lexer).src(),
            step(old(lexer).src(), old(lexer).state()),
        ),
        ids_fit(final(ctx)) ==> decl_read_as(
            final(ctx),
            final(lexer).state(),
            Ok::<Decl, ParseHalt>(r),
            read_mod_decl(old(lexer).src(), old(lexer).state()),
        ),
{
    proof {
        reveal(read_mod_decl);
    }
    let name = next_token(ctx, lexer);
    if name.ty != Ty::Identifier {
        let ghost c1 = *ctx;
        let ghost l1 = *lexer;
        recover_decl(ctx, lexer);
        let ghost c2 = *ctx;
        let d = parser.get_decl(ctx, name, DeclValue::Invalid("function is missing a body"));
        proof {
            lemma_frame_trans(old(ctx), &c1, &c2, old(lexer), &l1, lexer);
            lemma_frame_refl(&c2, lexer);
            lemma_frame_trans(old(ctx), &c2, ctx, old(lexer), lexer, lexer);
        }
        return d;
    }
    let ghost c1 = *ctx;
    let d = parser.get_decl(ctx, token, DeclValue::Mod(ModDecl { name: name.lexeme }));
    proof {
        lemma_frame_refl(&c1, lexer);
        lemma_frame_trans(old(ctx), &c1, ctx, old(lexer), lexer, lexer);
    }
    d
}

/// What a `use` declaration may be stored as: the list of modules, or the error of a block that
/// is not opened, holds something other than names, or misses a `;` after a name.
pub open spec fn use_result(d: DeclValue) -> bool {
    ||| d is Use
    ||| d == DeclValue::Invalid("missing opening paren in use decl")
    ||| d == DeclValue::Invalid("invalid token inside use block")
    ||| d == DeclValue::Invalid("missing semicolon/new line after module name")
}

/// What the tokens of a `use` block give, read from the lexer state `s` whose next token is the
/// first inside the block: the texts of the names when the tokens are `name ;` pairs closed by
/// `)`, or the error of the first token that breaks that form.
pub open spec fn use_block(src: Seq<char>, s: LexState) -> Result<Seq<Seq<char>>, &'static str>
    decreases src.len() - s.cursor,
    when s.cursor <= src.len()
{
    if s.peek.ty == Ty::CloseParen {
        Ok(Seq::empty())
    } else if s.peek.ty == Ty::Identifier {
        let s1 = step(src, s);
        if s1.peek.ty == Ty::Semicolon {
            proof {
                lemma_lex_next_bounds(src, s.cursor, false);
                lemma_lex_next_bounds(src, s1.cursor, false);
            }
            prepend_names(seq![s.peek.text], use_block(src, step(src, s1)))
        } else {
            Err("missing semicolon/new line after module name")
        }
    } else {
        Err("invalid token inside use block")
    }
}

/// The lexer state after a `use` block read from `s`, whose next token is the first inside the
/// block: past its `)`, or past the tokens skipped after the first token that breaks its form.
pub open spec fn use_end(src: Seq<char>, s: LexState) -> LexState
    decreases src.len() - s.cursor,
    when s.cursor <= src.len()
{
    if s.peek.ty == Ty::CloseParen {
        step(src, s)
    } else if s.peek.ty == Ty::Identifier {
        let s1 = step(src, s);
        if s1.peek.ty == Ty::Semicolon {
            proof {
                lemma_lex_next_bounds(src, s.cursor, false);
                lemma_lex_next_bounds(src, s1.cursor, false);
            }
            use_end(src, step(src, s1))
        } else {
            skip_decl(src, step(src, s1))
        }
    } else {
        skip_decl(src, step(src, s))
    }
}

/// A name followed by `;` leaves the end of the block where the rest of it ends.
proof fn lemma_use_end_pair(src: Seq<char>, s: LexState)
    requires
        s.cursor <= src.len(),
        s.peek.ty == Ty::Identifier,
        step(src, s).peek.ty == Ty::Semicolon,
    ensures
        use_end(src, s) == use_end(src, step(src, step(src, s))),
{
    lemma_lex_next_bounds(src, s.cursor, false);
    lemma_lex_next_bounds(src, step(src, s).cursor, false);
    reveal_with_fuel(use_end, 2);
}

/// `names` in front of the names of `r`, or the error of `r`.
pub open spec fn prepend_names(names: Seq<Seq<char>>, r: Result<Seq<Seq<char>>, &'static str>) -> Result<Seq<Seq<char>>, &'static str> {
    match r {
        Ok(rest) => Ok(names + rest),
        Err(e) => Err(e),
    }
}

/// Each id of `ids` names, in `store`, the text at the same place in `names`.
pub open spec fn names_interned(ids: Seq<MStr>, names: Seq<Seq<char>>, store: Seq<Seq<char>>) -> bool {
    &&& ids.len() == names.len()
    &&& forall|k: int| 0 <= k < ids.len() ==> #[trigger] names_text(store, ids[k], names[k])
}

proof fn lemma_names_interned_grow(ids: Seq<MStr>, names: Seq<Seq<char>>, store: Seq<Seq<char>>, t: Seq<char>)
    requires
        store.no_duplicates(),
        names_interned(ids, names, store),
    ensures
        names_interned(ids, names, interned(store, t)),
{
    assert forall|k: int| 0 <= k < ids.len() implies #[trigger] names_text(interned(store, t), ids[k], names[k]) by {
        assert(names_text(store, ids[k], names[k]));
        lemma_interned_keeps_index(store, t, names[k]);
    }
}

/// A name followed by `;` puts its text in front of the names after it.
proof fn lemma_use_block_pair(src: Seq<char>, s: LexState)
    requires
        s.cursor <= src.len(),
        s.peek.ty == Ty::Identifier,
        step(src, s).peek.ty == Ty::Semicolon,
    ensures
        use_block(src, s) == prepend_names(seq![s.peek.text], use_block(src, step(src, step(src, s)))),
{
    lemma_lex_next_bounds(src, s.cursor, false);
    lemma_lex_next_bounds(src, step(src, s).cursor, false);
    reveal_with_fuel(use_block, 2);
}

proof fn lemma_prepend_push(names: Seq<Seq<char>>, t: Seq<char>, r: Result<Seq<Seq<char>>, &'static str>)
    ensures
        prepend_names(names, prepend_names(seq![t], r)) == prepend_names(names.push(t), r),
{
    match r {
        Ok(rest) => {
            assert(names + (seq![t] + rest) =~= names.push(t) + rest);
        },
        Err(_) => {},
    }
}

/// `use ( a; b; )`.
#[verifier::rlimit(40)]
fn parse_use_decl(parser: &Parser, ctx: &mut Context, lexer: &mut Lexer, token: Token) -> (r: Decl)
    requires
        parser.wf(),
        old(ctx).wf(),
        old(lexer).valid_in(old(ctx).str_store@),
    ensures
        parse_frame(old(ctx), final(ctx), old(lexer), final(lexer)),
        made_last_decl(old(ctx), final(ctx), r),
        use_result(last_decl(final(ctx))),
        old(lexer).peeked().ty != Ty::OpenParen ==> last_decl(final(ctx)) == DeclValue::Invalid(
            "missing opening paren in use decl",
        ),
        old(lexer).peeked().ty == Ty::OpenParen ==> match use_block(
            old(lexer).src(),
            step(old(lexer).src(), old(lexer).state()),
        ) {
            Ok(names) => last_decl(final(ctx)) matches DeclValue::Use(u) && names_interned(
                u.deps@,
                names,
                final(ctx).str_store@,
            ),
            Err(msg) => last_decl(final(ctx)) == DeclValue::Invalid(msg),
        },
        old(lexer).peeked().ty != Ty::OpenParen ==> final(lexer).state() == skip_decl(
            old(lexer).src(),
            step(old(lexer).src(), old(lexer).state()),
        ),
        old(lexer).peeked().ty == Ty::OpenParen ==> final(lexer).state() == use_end(
            old(lexer).src(),
            step(old(lexer).src(), old(lexer).state()),
        ),
{
    let open_paren = next_token(ctx, lexer);
    if open_paren.ty != Ty::OpenParen {
        let ghost c1 = *ctx;
        let ghost l1 = *lexer;
        recover_decl(ctx, lexer);
        let ghost c2 = *ctx;
        let d = parser.get_decl(
            ctx,
            open_paren,
            DeclValue::Invalid("missing opening paren in use decl"),
        );
        proof {
            lemma_frame_trans(old(ctx), &c1, &c2, old(lexer), &l1, lexer);
            lemma_frame_refl(&c2, lexer);
            lemma_frame_trans(old(ctx), &c2, ctx, old(lexer), lexer, lexer);
        }
        return d;
    }
    let ghost src = lexer.src();
    let ghost start = lexer.state();
    let ghost mut names: Seq<Seq<char>> = Seq::empty();
    let mut deps: Vec<crate::compiler::str_store::MStr> = Vec::new();
    proof {
        assert(names + Seq::<Seq<char>>::empty() =~= names);
        match use_block(src, start) {
            Ok(rest) => {
                assert(names + rest =~= rest);
            },
            Err(_) => {},
        }
    }
    loop
        invariant_except_break
            use_block(src, start) == prepend_names(names, use_block(src, lexer.state())),
            use_end(src, start) == use_end(src, lexer.state()),
        invariant
            parser.wf(),
            parse_frame(old(ctx), ctx, old(lexer), lexer),
            old(lexer).peeked().ty == Ty::OpenParen,
            src == old(lexer).src(),
            start == step(old(lexer).src(), old(lexer).state()),
            start.cursor <= src.len(),
            names_interned(deps@, names, ctx.str_store@),
        ensures
            parse_frame(old(ctx), ctx, old(lexer), lexer),
            use_block(src, start) == Ok::<Seq<Seq<char>>, &'static str>(names),
            use_end(src, start) == lexer.state(),
            names_interned(deps@, names, ctx.str_store@),
        decreases lexer.remaining(),
    {
        let ghost c1 = *ctx;
        let ghost l1 = *lexer;
        let ghost n_start = names;
        let next = next_token(ctx, lexer);
        proof {
            lemma_frame_trans(old(ctx), &c1, ctx, old(lexer), &l1, lexer);
            lemma_names_interned_grow(deps@, names, c1.str_store@, lexer.state().peek.text);
        }
        let ghost t = l1.state().peek.text;
        if next.ty == Ty::Identifier {
            let ghost d0 = deps@;
            let ghost n0 = names;
            proof {
                lemma_interned_keeps_index(c1.str_store@, lexer.state().peek.text, t);
            }
            deps.push(next.lexeme);
            proof {
                names = names.push(t);
                assert forall|k: int| 0 <= k < deps@.len() implies #[trigger] names_text(ctx.str_store@, deps@[k], names[k]) by {
                    if k < d0.len() {
                        assert(deps@[k] == d0[k]);
                        assert(names[k] == n0[k]);
                        assert(names_text(ctx.str_store@, d0[k], n0[k]));
                    }
                }
            }
        } else if next.ty == Ty::CloseParen {
            proof {
                assert(use_block(src, l1.state()) == Ok::<Seq<Seq<char>>, &'static str>(Seq::empty()));
                assert(names + Seq::<Seq<char>>::empty() =~= names);
            }
            break;
        } else {
            let ghost c2 = *ctx;
            let ghost l2 = *lexer;
            recover_decl(ctx, lexer);
            let ghost c3 = *ctx;
            let d = parser.get_decl(ctx, next, DeclValue::Invalid("invalid token inside use block"));
            proof {
                lemma_frame_trans(old(ctx), &c2, &c3, old(lexer), &l2, lexer);
                lemma_frame_refl(&c3, lexer);
                lemma_frame_trans(old(ctx), &c3, ctx, old(lexer), lexer, lexer);
            }
            return d;
        }
        let ghost c2 = *ctx;
        let ghost l2 = *lexer;
        let end = next_token(ctx, lexer);
        proof {
            lemma_frame_trans(old(ctx), &c2, ctx, old(lexer), &l2, lexer);
            lemma_names_interned_grow(deps@, names, c2.str_store@, lexer.state().peek.text);
        }
        if end.ty != Ty::Semicolon {
            let ghost c3 = *ctx;
            let ghost l3 = *lexer;
            recover_decl(ctx, lexer);
            let ghost c4 = *ctx;
            let d = parser.get_decl(
                ctx,
                end,
                DeclValue::Invalid("missing semicolon/new line after module name"),
            );
            proof {
                lemma_frame_trans(old(ctx), &c3, &c4, old(lexer), &l3, lexer);
                lemma_frame_refl(&c4, lexer);
                lemma_frame_trans(old(ctx), &c4, ctx, old(lexer), lexer, lexer);
            }
            return d;
        }
        proof {
            assert(names == n_start.push(t));
            assert(l2.state() == step(src, l1.state()));
            assert(lexer.state() == step(src, l2.state()));
            assert(l1.state().peek.ty == Ty::Identifier);
            assert(l2.state().peek.ty == Ty::Semicolon);
            lemma_use_block_pair(src, l1.state());
            lemma_use_end_pair(src, l1.state());
            lemma_prepend_push(n_start, t, use_block(src, lexer.state()));
        }
    }
    let ghost c5 = *ctx;
    let d = parser.get_decl(ctx, token, DeclValue::Use(UseDecl { deps }));
    proof {
        lemma_frame_refl(&c5, lexer);
        lemma_frame_trans(old(ctx), &c5, ctx, old(lexer), lexer, lexer);
    }
    d
}

/// `type name ty`.
fn parse_type_decl(parser: &Parser, ctx: &mut Context, lexer: &mut Lexer, token: Token) -> (r: Result<Decl, ParseHalt>)
    requires
        parser.wf(),
        old(ctx).wf(),
        old(lexer).valid_in(old(ctx).str_store@),
    ensures
        parse_frame(old(ctx), final(ctx), old(lexer), final(lexer)),
        r is Ok ==> made_last_decl(old(ctx), final(ctx), r->Ok_0),
        old(lexer).peeked().ty != Ty::Identifier ==> r is Ok && last_decl(final(ctx)) == DeclValue::Invalid(
            "missing name for type decl",
        ),
        old(lexer).peeked().ty == Ty::Identifier && r is Ok ==> (last_decl(final(ctx)) matches DeclValue::Ty(t)
            && t.name == old(lexer).peeked().lexeme && t.ty.id() < final(ctx).unchecked_ty_store@.len()),
        old(lexer).peeked().ty == Ty::Identifier && final(ctx).str_store@.len() <= u32::MAX ==> {
            let s1 = step(old(lexer).src(), old(lexer).state());
            match read_ty(old(lexer).src(), s1.peek.text, step(old(lexer).src(), s1)) {
                None => r == Err::<Decl, ParseHalt>(ParseHalt::InvalidModuleType),
                Some(read) => r is Ok && (last_decl(final(ctx)) matches DeclValue::Ty(t) && t.name == old(
                    lexer,
                ).peeked().lexeme && ty_text_names(
                    final(ctx).str_store@,
                    final(ctx).unchecked_ty_store@,
                    t.ty,
                    read.0,
                ) && final(lexer).state() == read.1),
            }
        },
        old(lexer).peeked().ty != Ty::Identifier ==> final(lexer).state() == skip_decl(
            old(lexer).src(),
            step(old(lexer).src(), old(lexer).state()),
        ),
        ids_fit(final(ctx)) ==> decl_read_as(
            final(ctx),
            final(lexer).state(),
            r,
            read_type_decl(old(lexer).src(), old(lexer).state()),
        ),
{
    proof {
        reveal(read_type_decl);
    }
    let name = next_token(ctx, lexer);
    if name.ty != Ty::Identifier {
        let ghost c1 = *ctx;
        let ghost l1 = *lexer;
        recover_decl(ctx, lexer);
        let ghost c2 = *ctx;
        let d = parser.get_decl(ctx, name, DeclValue::Invalid("missing name for type decl"));
        proof {
            lemma_frame_trans(old(ctx), &c1, &c2, old(lexer), &l1, lexer);
            lemma_frame_refl(&c2, lexer);
            lemma_frame_trans(old(ctx), &c2, ctx, old(lexer), lexer, lexer);
        }
        return Ok(d);
    }
    let ghost c1 = *ctx;
    let ghost l1 = *lexer;
    let ty = next_token(ctx, lexer);
    proof {
        lemma_frame_trans(old(ctx), &c1, ctx, old(lexer), &l1, lexer);
    }
    let ghost c2 = *ctx;
    let ghost l2 = *lexer;
    let res = parser.parse_ty(ctx, lexer, ty.lexeme);
    proof {
        lemma_frame_trans(old(ctx), &c2, ctx, old(lexer), &l2, lexer);
        if ctx.str_store@.len() <= u32::MAX {
            lemma_token_text(ty, l1.state().peek, c1.str_store@, c2.str_store@);
        }
    }
    let ty = match res {
        Ok(t) => t,
        Err(h) => {
            return Err(h);
        },
    };
    let ghost c3 = *ctx;
    let d = parser.get_decl(ctx, token, DeclValue::Ty(TyDecl { name: name.lexeme, ty }));
    proof {
        lemma_frame_refl(&c3, lexer);
        lemma_frame_trans(old(ctx), &c3, ctx, old(lexer), lexer, lexer);
    }
    Ok(d)
}

/// What a function declaration named by `name` may be stored as: the function, or the error of a
/// header that is cut short.
pub open spec fn function_result(d: DeclValue, name: crate::compiler::str_store::MStr, store: Seq<UncheckedTyModel>) -> bool {
    ||| d matches DeclValue::Func(f) && f.name == name && exists|ps: Seq<UncheckedTy>, rt: UncheckedTy|
        #[trigger] names_ty(store, f.ty, UncheckedTyModel::Func(ps, rt))
    ||| d == DeclValue::Invalid("function decl is missing a closing paren")
    ||| d == DeclValue::Invalid("function param needs an identifer for a name")
    ||| d == DeclValue::Invalid("expecting paramater type spec")
    ||| d == DeclValue::Invalid("paramaters must be separated by commas")
    ||| d == DeclValue::Invalid("expecting return type")
    ||| d == DeclValue::Invalid("function is missing a body")
}

/// What reading the parameter list of a function header gives.
pub ghost enum ParamsRead {
    /// The texts of the names and the types of the parameters kept, and the lexer state after
    /// the `)`.
    Done(Seq<Seq<char>>, Seq<TyText>, LexState),
    /// The list is malformed: the error the declaration is stored as, and the lexer state after
    /// the tokens skipped.
    Invalid(&'static str, LexState),
    /// A type's `::` is not followed by a name: parsing stops.
    Halt,
}

/// The parameters read from the lexer state `s` whose next token is the first after `(`: each
/// parameter is a name, a type, then `,` or `)`. A `)` right after a type ends the list without
/// keeping that last parameter.
#[verifier::opaque]
pub open spec fn params_read(src: Seq<char>, s: LexState) -> ParamsRead
    decreases src.len() - s.cursor,
    when s.cursor <= src.len()
{
    let s1 = step(src, s);
    if s.peek.ty == Ty::CloseParen {
        ParamsRead::Done(Seq::empty(), Seq::empty(), s1)
    } else if s.peek.ty == Ty::Eof {
        ParamsRead::Invalid("function decl is missing a closing paren", s1)
    } else if s.peek.ty != Ty::Identifier {
        ParamsRead::Invalid("function param needs an identifer for a name", skip_decl(src, s1))
    } else if s1.peek.ty != Ty::Identifier {
        ParamsRead::Invalid("expecting paramater type spec", skip_decl(src, step(src, s1)))
    } else {
        match read_ty(src, s1.peek.text, step(src, s1)) {
            None => ParamsRead::Halt,
            Some(read) => {
                let s3 = read.1;
                let s4 = step(src, s3);
                if s3.peek.ty == Ty::Comma {
                    proof {
                        lemma_lex_next_bounds(src, s.cursor, false);
                        lemma_lex_next_bounds(src, s1.cursor, false);
                        lemma_read_ty_bounds(src, s1.peek.text, step(src, s1));
                        lemma_lex_next_bounds(src, s3.cursor, false);
                    }
                    prepend_param(s.peek.text, read.0, params_read(src, s4))
                } else if s3.peek.ty == Ty::CloseParen {
                    ParamsRead::Done(Seq::empty(), Seq::empty(), s4)
                } else {
                    ParamsRead::Invalid("paramaters must be separated by commas", skip_decl(src, s4))
                }
            },
        }
    }
}

/// A parameter in front of the parameters of `r`, or the outcome of `r` when it is not a list.
pub open spec fn prepend_param(name: Seq<char>, ty: TyText, r: ParamsRead) -> ParamsRead {
    match r {
        ParamsRead::Done(names, tys, st) => ParamsRead::Done(seq![name] + names, seq![ty] + tys, st),
        _ => r,
    }
}

/// Parameters in front of the parameters of `r`, or the outcome of `r` when it is not a list.
pub open spec fn prepend_params(names: Seq<Seq<char>>, tys: Seq<TyText>, r: ParamsRead) -> ParamsRead {
    match r {
        ParamsRead::Done(ns, ts, st) => ParamsRead::Done(names + ns, tys + ts, st),
        _ => r,
    }
}

/// Reading a type never moves the lexer back, nor past the end of the source.
pub proof fn lemma_read_ty_bounds(src: Seq<char>, w: Seq<char>, s: LexState)
    requires
        s.cursor <= src.len(),
    ensures
        read_ty(src, w, s) matches Some(read) ==> s.cursor <= read.1.cursor <= src.len(),
{
    lemma_lex_next_bounds(src, s.cursor, false);
    lemma_lex_next_bounds(src, step(src, s).cursor, false);
}

/// What reading a function header gives, from the lexer state whose next token is the first
/// after `(`.
pub ghost enum HeaderRead {
    /// The texts of the parameters' names, their types and the return type, and the lexer
    /// state at the `{` that opens the body.
    Done(Seq<Seq<char>>, Seq<TyText>, TyText, LexState),
    /// The header is malformed: the error the declaration is stored as, and the lexer state
    /// after the tokens skipped.
    Invalid(&'static str, LexState),
    /// A type's `::` is not followed by a name: parsing stops.
    Halt,
}

/// What reading the return type of a function header gives.
pub ghost enum RetRead {
    /// The return type as written, and the lexer state after it.
    Read(TyText, LexState),
    /// Neither a type nor the `{` of the body comes: the lexer state after the tokens skipped.
    Invalid(LexState),
    /// A type's `::` is not followed by a name: parsing stops.
    Halt,
}

/// The return type read from the lexer state `s` whose next token follows the `)`: a type, or
/// none when the `{` of the body follows at once (that `{` is not read).
pub open spec fn ret_read(src: Seq<char>, s: LexState) -> RetRead {
    if s.peek.ty == Ty::Identifier {
        match read_ty(src, s.peek.text, step(src, s)) {
            None => RetRead::Halt,
            Some(read) => RetRead::Read(read.0, read.1),
        }
    } else if s.peek.ty == Ty::OpenBrace {
        RetRead::Read(TyText { module: None, name: "none"@ }, s)
    } else {
        RetRead::Invalid(skip_decl(src, s))
    }
}

/// The parameters, then the return type, then the `{` that opens the body.
pub open spec fn fn_header(src: Seq<char>, s: LexState) -> HeaderRead {
    match params_read(src, s) {
        ParamsRead::Invalid(m, st) => HeaderRead::Invalid(m, st),
        ParamsRead::Halt => HeaderRead::Halt,
        ParamsRead::Done(names, tys, s1) => match ret_read(src, s1) {
            RetRead::Invalid(st) => HeaderRead::Invalid("expecting return type", st),
            RetRead::Halt => HeaderRead::Halt,
            RetRead::Read(ret, s2) => if s2.peek.ty == Ty::OpenBrace {
                HeaderRead::Done(names, tys, ret, s2)
            } else {
                HeaderRead::Invalid("function is missing a body", skip_decl(src, step(src, s2)))
            },
        },
    }
}

/// A declaration as written, with the texts of its names.
pub ghost enum DeclText {
    Invalid(&'static str),
    /// `mod name`.
    Mod(Seq<char>),
    /// `use ( ... )`: the names of the modules.
    Use(Seq<Seq<char>>),
    /// `type name ty`.
    Ty(Seq<char>, TyText),
    /// `fn name(params) ret { body }`: the name, the parameters' names and types, the return type
    /// and the body's expressions.
    Func(Seq<char>, Seq<Seq<char>>, Seq<TyText>, TyText, Seq<ExprText>),
}

/// Reading a `mod` declaration, the lexer being at `s` after `mod`.
#[verifier::opaque]
pub open spec fn read_mod_decl(src: Seq<char>, s: LexState) -> Reading<DeclText> {
    if s.peek.ty == Ty::Identifier {
        Reading::Done(DeclText::Mod(s.peek.text), step(src, s))
    } else {
        Reading::Done(DeclText::Invalid("function is missing a body"), skip_decl(src, step(src, s)))
    }
}

/// Reading a `use` declaration, the lexer being at `s` after `use`.
#[verifier::opaque]
pub open spec fn read_use_decl(src: Seq<char>, s: LexState) -> Reading<DeclText> {
    let s1 = step(src, s);
    if s.peek.ty != Ty::OpenParen {
        Reading::Done(DeclText::Invalid("missing opening paren in use decl"), skip_decl(src, s1))
    } else {
        Reading::Done(
            match use_block(src, s1) {
                Ok(names) => DeclText::Use(names),
                Err(m) => DeclText::Invalid(m),
            },
            use_end(src, s1),
        )
    }
}

/// Reading a `type` declaration, the lexer being at `s` after `type`.
#[verifier::opaque]
pub open spec fn read_type_decl(src: Seq<char>, s: LexState) -> Reading<DeclText> {
    let s1 = step(src, s);
    if s.peek.ty != Ty::Identifier {
        Reading::Done(DeclText::Invalid("missing name for type decl"), skip_decl(src, s1))
    } else {
        match read_ty(src, s1.peek.text, step(src, s1)) {
            None => Reading::Halt(ParseHalt::InvalidModuleType),
            Some(read) => Reading::Done(DeclText::Ty(s.peek.text, read.0), read.1),
        }
    }
}

/// Reading a function declaration, the lexer being at `s` after `fn`.
#[verifier::opaque]
pub open spec fn read_fn_decl(src: Seq<char>, s: LexState) -> Reading<DeclText> {
    let s1 = step(src, s);
    if s.peek.ty != Ty::Identifier {
        Reading::Done(DeclText::Invalid("function decl is missing a name"), skip_decl(src, s1))
    } else if s1.peek.ty != Ty::OpenParen {
        Reading::Done(DeclText::Invalid("function decl is missing an open paren"), skip_decl(src, step(src, s1)))
    } else {
        match fn_header(src, step(src, s1)) {
            HeaderRead::Invalid(m, st) => Reading::Done(DeclText::Invalid(m), st),
            HeaderRead::Halt => Reading::Halt(ParseHalt::InvalidModuleType),
            HeaderRead::Done(names, tys, ret, at) => match read_block(src, step(src, at), Seq::empty()) {
                Reading::Done(body, e) => Reading::Done(DeclText::Func(s.peek.text, names, tys, ret, body), e),
                Reading::Halt(h) => Reading::Halt(h),
                Reading::Stuck => Reading::Stuck,
            },
        }
    }
}

/// Reading the declaration that starts with a token of kind `ty`, the lexer being at `s` after
/// it; any other token starts an invalid declaration.
pub open spec fn read_decl(src: Seq<char>, ty: Ty, s: LexState) -> Reading<DeclText> {
    match ty {
        Ty::ModKeyword => read_mod_decl(src, s),
        Ty::UseKeyword => read_use_decl(src, s),
        Ty::TypeKeyword => read_type_decl(src, s),
        Ty::FnKeyword => read_fn_decl(src, s),
        _ => Reading::Done(DeclText::Invalid("unknown declaration type"), skip_decl(src, s)),
    }
}

/// What the clauses of parsing a `use` declaration give, it reads as.
proof fn lemma_use_decl_read(c: &Context, end: LexState, d: Decl, src: Seq<char>, s: LexState)
    requires
        s.peek.ty != Ty::OpenParen ==> c.ast_store.decls().last() == DeclValue::Invalid(
            "missing opening paren in use decl",
        ) && end == skip_decl(src, step(src, s)),
        s.peek.ty == Ty::OpenParen ==> match use_block(src, step(src, s)) {
            Ok(names) => c.ast_store.decls().last() matches DeclValue::Use(u) && names_interned(
                u.deps@,
                names,
                c.str_store@,
            ),
            Err(msg) => c.ast_store.decls().last() == DeclValue::Invalid(msg),
        },
        s.peek.ty == Ty::OpenParen ==> end == use_end(src, step(src, s)),
    ensures
        decl_read_as(c, end, Ok::<Decl, ParseHalt>(d), read_use_decl(src, s)),
{
    reveal(read_use_decl);
}

/// What the clauses of parsing a function declaration give, it reads as.
proof fn lemma_fn_decl_read(c: &Context, end: LexState, r: Result<Decl, ParseHalt>, src: Seq<char>, s: LexState, name: MStr)
    requires
        names_text(c.str_store@, name, s.peek.text),
        s.peek.ty != Ty::Identifier ==> r is Ok && c.ast_store.decls().last() == DeclValue::Invalid(
            "function decl is missing a name",
        ) && end == skip_decl(src, step(src, s)),
        s.peek.ty == Ty::Identifier && step(src, s).peek.ty != Ty::OpenParen ==> r is Ok
            && c.ast_store.decls().last() == DeclValue::Invalid("function decl is missing an open paren")
            && end == skip_decl(src, step(src, step(src, s))),
        s.peek.ty == Ty::Identifier && step(src, s).peek.ty == Ty::OpenParen ==> match fn_header(
            src,
            step(src, step(src, s)),
        ) {
            HeaderRead::Invalid(msg, st) => r is Ok && c.ast_store.decls().last() == DeclValue::Invalid(msg)
                && end == st,
            HeaderRead::Halt => r == Err::<Decl, ParseHalt>(ParseHalt::InvalidModuleType),
            HeaderRead::Done(names, tys, ret, at_body) => {
                &&& r is Ok ==> (c.ast_store.decls().last() matches DeclValue::Func(f) && f.name == name
                    && names_interned(f.params@, names, c.str_store@) && fn_ty_names(
                    c.str_store@,
                    c.unchecked_ty_store@,
                    f.ty,
                    tys,
                    ret,
                ))
                &&& body_read_as(c, end, r, read_block(src, step(src, at_body), Seq::empty()))
            },
        },
    ensures
        decl_read_as(c, end, r, read_fn_decl(src, s)),
{
    reveal(read_fn_decl);
}

/// The declaration `v`, whose parts are in the stores of `c`, is the one written `t`.
pub open spec fn decl_value_denotes(c: &Context, v: DeclValue, t: DeclText) -> bool {
    let strs = c.str_store@;
    match (v, t) {
        (DeclValue::Invalid(m), DeclText::Invalid(n)) => m == n,
        (DeclValue::Mod(md), DeclText::Mod(name)) => names_text(strs, md.name, name),
        (DeclValue::Use(u), DeclText::Use(names)) => names_interned(u.deps@, names, strs),
        (DeclValue::Ty(td), DeclText::Ty(name, tt)) => names_text(strs, td.name, name) && ty_text_names(
            strs,
            c.unchecked_ty_store@,
            td.ty,
            tt,
        ),
        (DeclValue::Func(f), DeclText::Func(name, ps, pts, ret, body)) => {
            &&& names_text(strs, f.name, name)
            &&& names_interned(f.params@, ps, strs)
            &&& fn_ty_names(strs, c.unchecked_ty_store@, f.ty, pts, ret)
            &&& denotes_all(strs, c.ast_store.exprs(), f.body.exprs@, body)
        },
        _ => false,
    }
}

/// Names keep their texts as the string store grows.
proof fn lemma_names_interned_prefix(ids: Seq<MStr>, names: Seq<Seq<char>>, a: Seq<Seq<char>>, b: Seq<Seq<char>>)
    requires
        a.is_prefix_of(b),
        b.no_duplicates(),
        names_interned(ids, names, a),
    ensures
        names_interned(ids, names, b),
{
    assert forall|k: int| 0 <= k < ids.len() implies #[trigger] names_text(b, ids[k], names[k]) by {
        assert(names_text(a, ids[k], names[k]));
        lemma_names_text_grow(a, b, ids[k], names[k]);
    }
}

/// A function type keeps what it is written as as the stores grow.
proof fn lemma_fn_ty_names_grow(
    strs0: Seq<Seq<char>>,
    strs1: Seq<Seq<char>>,
    store0: Seq<UncheckedTyModel>,
    store1: Seq<UncheckedTyModel>,
    r: UncheckedTy,
    params: Seq<TyText>,
    ret: TyText,
)
    requires
        strs0.is_prefix_of(strs1),
        strs1.no_duplicates(),
        store0.is_prefix_of(store1),
        store1.no_duplicates(),
        fn_ty_names(strs0, store0, r, params, ret),
    ensures
        fn_ty_names(strs1, store1, r, params, ret),
{
    let (ps, rt) = choose|ps: Seq<UncheckedTy>, rt: UncheckedTy|
        #[trigger] names_ty(store0, r, UncheckedTyModel::Func(ps, rt)) && ps.len() == params.len() && (forall|i: int|
            0 <= i < ps.len() ==> ty_text_names(strs0, store0, #[trigger] ps[i], params[i])) && ty_text_names(
            strs0,
            store0,
            rt,
            ret,
        );
    crate::compiler::str_store::lemma_index_of_prefix(store0, store1, UncheckedTyModel::Func(ps, rt));
    assert forall|i: int| 0 <= i < ps.len() implies ty_text_names(strs1, store1, #[trigger] ps[i], params[i]) by {
        lemma_ty_text_names_grow(strs0, strs1, store0, store1, ps[i], params[i]);
    }
    lemma_ty_text_names_grow(strs0, strs1, store0, store1, rt, ret);
    assert(names_ty(store1, r, UncheckedTyModel::Func(ps, rt)));
}

/// A declaration keeps what it is written as as the stores grow.
pub proof fn lemma_decl_value_denotes_grow(c0: &Context, c1: &Context, v: DeclValue, t: DeclText)
    requires
        c1.wf(),
        c0.str_store@.is_prefix_of(c1.str_store@),
        c0.unchecked_ty_store@.is_prefix_of(c1.unchecked_ty_store@),
        c0.ast_store.exprs().is_prefix_of(c1.ast_store.exprs()),
        decl_value_denotes(c0, v, t),
    ensures
        decl_value_denotes(c1, v, t),
{
    let a = c0.str_store@;
    let b = c1.str_store@;
    match (v, t) {
        (DeclValue::Mod(md), DeclText::Mod(name)) => {
            lemma_names_text_grow(a, b, md.name, name);
        },
        (DeclValue::Use(u), DeclText::Use(names)) => {
            lemma_names_interned_prefix(u.deps@, names, a, b);
        },
        (DeclValue::Ty(td), DeclText::Ty(name, tt)) => {
            lemma_names_text_grow(a, b, td.name, name);
            lemma_ty_text_names_grow(a, b, c0.unchecked_ty_store@, c1.unchecked_ty_store@, td.ty, tt);
        },
        (DeclValue::Func(f), DeclText::Func(name, ps, pts, ret, body)) => {
            lemma_names_text_grow(a, b, f.name, name);
            lemma_names_interned_prefix(f.params@, ps, a, b);
            lemma_fn_ty_names_grow(a, b, c0.unchecked_ty_store@, c1.unchecked_ty_store@, f.ty, pts, ret);
            crate::ast::parser::expr_text::lemma_denotes_all_grow(
                a,
                b,
                c0.ast_store.exprs(),
                c1.ast_store.exprs(),
                f.body.exprs@,
                body,
            );
        },
        _ => {},
    }
}

/// A declaration and what it is written as are of the same kind, and a `mod` declaration names
/// its module by the name written.
pub proof fn lemma_decl_denotes_kind(c: &Context, v: DeclValue, t: DeclText)
    requires
        decl_value_denotes(c, v, t),
    ensures
        v is Mod <==> t is Mod,
        v is Use <==> t is Use,
        v matches DeclValue::Mod(md) ==> names_text(c.str_store@, md.name, t->Mod_0),
{
}

/// An invalid declaration is written as the same error.
pub proof fn lemma_decl_denotes_invalid(c: &Context, m: &'static str)
    ensures
        decl_value_denotes(c, DeclValue::Invalid(m), DeclText::Invalid(m)),
{
}

/// The result `r` of parsing a declaration, in the context `c` with the lexer ending at `end`,
/// is what `rd` reads: the last declaration stored is the one read, or parsing halted.
pub open spec fn decl_read_as(c: &Context, end: LexState, r: Result<Decl, ParseHalt>, rd: Reading<DeclText>) -> bool {
    match r {
        Ok(_) => rd matches Reading::Done(t, s) && s == end && decl_value_denotes(c, c.ast_store.decls().last(), t),
        Err(h) => rd == Reading::<DeclText>::Halt(h),
    }
}

/// The result `r` of parsing a function declaration, in the context `c` with the lexer ending
/// at `end`, is what `rd` reads of its body: a function whose body holds the expressions as
/// read, or the halt.
pub open spec fn body_read_as(c: &Context, end: LexState, r: Result<Decl, ParseHalt>, rd: Reading<Seq<ExprText>>) -> bool {
    match r {
        Ok(_) => c.ast_store.decls().last() matches DeclValue::Func(f) && rd matches Reading::Done(ts, s)
            && s == end && denotes_all(c.str_store@, c.ast_store.exprs(), f.body.exprs@, ts),
        Err(h) => rd == Reading::<Seq<ExprText>>::Halt(h),
    }
}

/// `r` names, in `store`, the function type with parameters written as `params` and the return
/// type written as `ret`.
pub open spec fn fn_ty_names(
    strs: Seq<Seq<char>>,
    store: Seq<UncheckedTyModel>,
    r: UncheckedTy,
    params: Seq<TyText>,
    ret: TyText,
) -> bool {
    exists|ps: Seq<UncheckedTy>, rt: UncheckedTy|
        #[trigger] names_ty(store, r, UncheckedTyModel::Func(ps, rt)) && ps.len() == params.len() && (forall|i: int|
            0 <= i < ps.len() ==> ty_text_names(strs, store, #[trigger] ps[i], params[i])) && ty_text_names(
            strs,
            store,
            rt,
            ret,
        )
}

/// The parameters read so far: their ids name the texts `names`, and their types are the types
/// written as `tys`, in the stores of `ctx`.
pub open spec fn params_named(ctx: &Context, ids: Seq<MStr>, tys: Seq<UncheckedTy>, names: Seq<Seq<char>>, ty_texts: Seq<TyText>) -> bool {
    &&& names_interned(ids, names, ctx.str_store@)
    &&& tys.len() == ty_texts.len()
    &&& forall|i: int| 0 <= i < tys.len() ==> (#[trigger] tys[i]).id() < ctx.unchecked_ty_store@.len()
    &&& forall|i: int|
        0 <= i < tys.len() ==> ty_text_names(ctx.str_store@, ctx.unchecked_ty_store@, #[trigger] tys[i], ty_texts[i])
}

proof fn lemma_params_named_grow(
    c0: &Context,
    c1: &Context,
    ids: Seq<MStr>,
    tys: Seq<UncheckedTy>,
    names: Seq<Seq<char>>,
    ty_texts: Seq<TyText>,
)
    requires
        c1.wf(),
        c0.str_store@.is_prefix_of(c1.str_store@),
        c0.unchecked_ty_store@.is_prefix_of(c1.unchecked_ty_store@),
        params_named(c0, ids, tys, names, ty_texts),
    ensures
        params_named(c1, ids, tys, names, ty_texts),
{
    assert forall|k: int| 0 <= k < ids.len() implies #[trigger] names_text(c1.str_store@, ids[k], names[k]) by {
        assert(names_text(c0.str_store@, ids[k], names[k]));
        lemma_names_text_grow(c0.str_store@, c1.str_store@, ids[k], names[k]);
    }
    assert forall|i: int| 0 <= i < tys.len() implies ty_text_names(
        c1.str_store@,
        c1.unchecked_ty_store@,
        #[trigger] tys[i],
        ty_texts[i],
    ) by {
        assert(ty_text_names(c0.str_store@, c0.unchecked_ty_store@, tys[i], ty_texts[i]));
        lemma_ty_text_names_grow(
            c0.str_store@,
            c1.str_store@,
            c0.unchecked_ty_store@,
            c1.unchecked_ty_store@,
            tys[i],
            ty_texts[i],
        );
    }
}

proof fn lemma_prepend_param_push(names: Seq<Seq<char>>, tys: Seq<TyText>, n: Seq<char>, t: TyText, r: ParamsRead)
    ensures
        prepend_params(names, tys, prepend_param(n, t, r)) == prepend_params(names.push(n), tys.push(t), r),
{
    match r {
        ParamsRead::Done(ns, ts, st) => {
            assert(names + (seq![n] + ns) =~= names.push(n) + ns);
            assert(tys + (seq![t] + ts) =~= tys.push(t) + ts);
        },
        _ => {},
    }
}

/// The type of the parameter whose name is the next token at `s`, as written.
pub open spec fn param_ty_text(src: Seq<char>, s: LexState) -> TyText {
    read_ty(src, step(src, s).peek.text, step(src, step(src, s)))->Some_0.0
}

proof fn lemma_prepend_params_empty(r: ParamsRead)
    ensures
        prepend_params(Seq::empty(), Seq::empty(), r) == r,
{
    match r {
        ParamsRead::Done(ns, ts, st) => {
            assert(Seq::<Seq<char>>::empty() + ns =~= ns);
            assert(Seq::<TyText>::empty() + ts =~= ts);
        },
        _ => {},
    }
}

proof fn lemma_prepend_params_done_empty(names: Seq<Seq<char>>, tys: Seq<TyText>, st: LexState)
    ensures
        prepend_params(names, tys, ParamsRead::Done(Seq::empty(), Seq::empty(), st)) == ParamsRead::Done(names, tys, st),
{
    assert(names + Seq::<Seq<char>>::empty() =~= names);
    assert(tys + Seq::<TyText>::empty() =~= tys);
}

proof fn lemma_params_named_push(
    ctx: &Context,
    ids: Seq<MStr>,
    tys: Seq<UncheckedTy>,
    names: Seq<Seq<char>>,
    ty_texts: Seq<TyText>,
    n: MStr,
    t: UncheckedTy,
    text: Seq<char>,
    tt: TyText,
)
    requires
        params_named(ctx, ids, tys, names, ty_texts),
        names_text(ctx.str_store@, n, text),
        t.id() < ctx.unchecked_ty_store@.len(),
        ty_text_names(ctx.str_store@, ctx.unchecked_ty_store@, t, tt),
    ensures
        params_named(ctx, ids.push(n), tys.push(t), names.push(text), ty_texts.push(tt)),
{
    let ids1 = ids.push(n);
    let tys1 = tys.push(t);
    let names1 = names.push(text);
    let texts1 = ty_texts.push(tt);
    assert forall|k: int| 0 <= k < ids1.len() implies #[trigger] names_text(ctx.str_store@, ids1[k], names1[k]) by {
        if k < ids.len() {
            assert(names_text(ctx.str_store@, ids[k], names[k]));
        }
    }
    assert forall|i: int| 0 <= i < tys1.len() implies (#[trigger] tys1[i]).id() < ctx.unchecked_ty_store@.len() by {
        if i < tys.len() {
            assert(tys1[i] == tys[i]);
        }
    }
    assert forall|i: int| 0 <= i < tys1.len() implies ty_text_names(
        ctx.str_store@,
        ctx.unchecked_ty_store@,
        #[trigger] tys1[i],
        texts1[i],
    ) by {
        if i < tys.len() {
            assert(tys1[i] == tys[i]);
            assert(ty_text_names(ctx.str_store@, ctx.unchecked_ty_store@, tys[i], ty_texts[i]));
        }
    }
}

/// What reading one parameter gives.
enum ParamStep {
    /// The list is over: a `)` came where a name may, or right after a type.
    End,
    /// A name and its type, followed by `,`.
    Next(MStr, UncheckedTy),
    /// The list is malformed; the declaration stored for it.
    Invalid(Decl),
}

/// Reads one parameter of a function header (a name, a type and a `,`), or the `)` that ends
/// the list.
#[verifier::rlimit(40)]
fn parse_param(parser: &Parser, ctx: &mut Context, lexer: &mut Lexer) -> (r: Result<ParamStep, ParseHalt>)
    requires
        parser.wf(),
        old(ctx).wf(),
        old(lexer).valid_in(old(ctx).str_store@),
    ensures
        parse_frame(old(ctx), final(ctx), old(lexer), final(lexer)),
        r matches Ok(ParamStep::Next(_, t)) ==> t.id() < final(ctx).unchecked_ty_store@.len(),
        r matches Ok(ParamStep::Next(_, _)) ==> final(lexer).remaining() < old(lexer).remaining(),
        r matches Ok(ParamStep::Invalid(d)) ==> made_last_decl(old(ctx), final(ctx), d) && (last_decl(final(ctx))
            == DeclValue::Invalid("function decl is missing a closing paren") || last_decl(final(ctx)) == DeclValue::Invalid(
            "function param needs an identifer for a name",
        ) || last_decl(final(ctx)) == DeclValue::Invalid("expecting paramater type spec") || last_decl(final(ctx))
            == DeclValue::Invalid("paramaters must be separated by commas")),
        r matches Ok(ParamStep::Next(n, _)) ==> names_text(final(ctx).str_store@, n, old(lexer).state().peek.text),
        final(ctx).str_store@.len() <= u32::MAX ==> match r {
            Ok(ParamStep::End) => params_read(old(lexer).src(), old(lexer).state()) == ParamsRead::Done(
                Seq::empty(),
                Seq::empty(),
                final(lexer).state(),
            ),
            Ok(ParamStep::Next(n, t)) => {
                &&& params_read(old(lexer).src(), old(lexer).state()) == prepend_param(
                    old(lexer).state().peek.text,
                    param_ty_text(old(lexer).src(), old(lexer).state()),
                    params_read(old(lexer).src(), final(lexer).state()),
                )
                &&& names_text(final(ctx).str_store@, n, old(lexer).state().peek.text)
                &&& ty_text_names(
                    final(ctx).str_store@,
                    final(ctx).unchecked_ty_store@,
                    t,
                    param_ty_text(old(lexer).src(), old(lexer).state()),
                )
            },
            Ok(ParamStep::Invalid(_)) => params_read(old(lexer).src(), old(lexer).state()) matches ParamsRead::Invalid(m, st)
                && last_decl(final(ctx)) == DeclValue::Invalid(m) && st == final(lexer).state(),
            Err(h) => params_read(old(lexer).src(), old(lexer).state()) is Halt && h == ParseHalt::InvalidModuleType,
        },
{
    proof {
        reveal(params_read);
    }
    let ghost src = lexer.src();
    let ghost s0 = lexer.state();
    let ghost c2 = *ctx;
    let ghost l2 = *lexer;
    let name = next_token(ctx, lexer);
    proof {
        lemma_frame_trans(old(ctx), &c2, ctx, old(lexer), &l2, lexer);
    }
    if name.ty == Ty::CloseParen {
        return Ok(ParamStep::End);
    } else if name.ty == Ty::Eof {
        let ghost c3 = *ctx;
        let d = parser.get_decl(ctx, name, DeclValue::Invalid("function decl is missing a closing paren"));
        proof {
            lemma_frame_refl(&c3, lexer);
            lemma_frame_trans(old(ctx), &c3, ctx, old(lexer), lexer, lexer);
        }
        return Ok(ParamStep::Invalid(d));
    } else if name.ty != Ty::Identifier {
        let ghost c3 = *ctx;
        let ghost l3 = *lexer;
        recover_decl(ctx, lexer);
        let ghost c4 = *ctx;
        let d = parser.get_decl(ctx, name, DeclValue::Invalid("function param needs an identifer for a name"));
        proof {
            lemma_frame_trans(old(ctx), &c3, &c4, old(lexer), &l3, lexer);
            lemma_frame_refl(&c4, lexer);
            lemma_frame_trans(old(ctx), &c4, ctx, old(lexer), lexer, lexer);
        }
        return Ok(ParamStep::Invalid(d));
    }
    let param_name = name.lexeme;
    let ghost c3 = *ctx;
    let ghost l3 = *lexer;
    let ty = next_token(ctx, lexer);
    proof {
        lemma_frame_trans(old(ctx), &c3, ctx, old(lexer), &l3, lexer);
    }
    if ty.ty != Ty::Identifier {
        let ghost c4 = *ctx;
        let ghost l4 = *lexer;
        recover_decl(ctx, lexer);
        let ghost c5 = *ctx;
        let d = parser.get_decl(ctx, ty, DeclValue::Invalid("expecting paramater type spec"));
        proof {
            lemma_frame_trans(old(ctx), &c4, &c5, old(lexer), &l4, lexer);
            lemma_frame_refl(&c5, lexer);
            lemma_frame_trans(old(ctx), &c5, ctx, old(lexer), lexer, lexer);
        }
        return Ok(ParamStep::Invalid(d));
    }
    let ghost c4 = *ctx;
    let ghost l4 = *lexer;
    let res = parser.parse_ty(ctx, lexer, ty.lexeme);
    proof {
        lemma_frame_trans(old(ctx), &c4, ctx, old(lexer), &l4, lexer);
        if ctx.str_store@.len() <= u32::MAX {
            lemma_token_text(ty, l3.state().peek, c3.str_store@, c4.str_store@);
        }
    }
    let param_ty = match res {
        Ok(t) => t,
        Err(h) => {
            return Err(h);
        },
    };
    let ghost c5 = *ctx;
    let ghost l5 = *lexer;
    let comma = next_token(ctx, lexer);
    proof {
        lemma_frame_trans(old(ctx), &c5, ctx, old(lexer), &l5, lexer);
        lemma_ty_text_names_grow(
            c5.str_store@,
            ctx.str_store@,
            c5.unchecked_ty_store@,
            ctx.unchecked_ty_store@,
            param_ty,
            read_ty(src, c4.str_store@[ty.lexeme.id() as int], l4.state())->Some_0.0,
        );
    }
    if comma.ty == Ty::Comma {
        proof {
            assert(names_text(c2.str_store@, param_name, s0.peek.text));
            lemma_names_text_grow(c2.str_store@, ctx.str_store@, param_name, s0.peek.text);
            lemma_lex_next_bounds(src, l5.state().cursor, false);
        }
        Ok(ParamStep::Next(param_name, param_ty))
    } else if comma.ty == Ty::CloseParen {
        Ok(ParamStep::End)
    } else {
        let ghost c6 = *ctx;
        let ghost l6 = *lexer;
        recover_decl(ctx, lexer);
        let ghost c7 = *ctx;
        let d = parser.get_decl(ctx, comma, DeclValue::Invalid("paramaters must be separated by commas"));
        proof {
            lemma_frame_trans(old(ctx), &c6, &c7, old(lexer), &l6, lexer);
            lemma_frame_refl(&c7, lexer);
            lemma_frame_trans(old(ctx), &c7, ctx, old(lexer), lexer, lexer);
        }
        Ok(ParamStep::Invalid(d))
    }
}

/// What reading the return type of a function header gives.
enum RetStep {
    /// The return type.
    Ty(UncheckedTy),
    /// Neither a type nor the `{` of the body comes; the declaration stored for it.
    Invalid(Decl),
}

/// Reads the return type of a function header: a type, or none when the `{` of the body
/// follows at once.
fn parse_return_ty(parser: &Parser, ctx: &mut Context, lexer: &mut Lexer) -> (r: Result<RetStep, ParseHalt>)
    requires
        parser.wf(),
        old(ctx).wf(),
        old(lexer).valid_in(old(ctx).str_store@),
    ensures
        parse_frame(old(ctx), final(ctx), old(lexer), final(lexer)),
        r matches Ok(RetStep::Ty(t)) ==> t.id() < final(ctx).unchecked_ty_store@.len(),
        r matches Ok(RetStep::Invalid(d)) ==> made_last_decl(old(ctx), final(ctx), d) && last_decl(final(ctx))
            == DeclValue::Invalid("expecting return type"),
        final(ctx).str_store@.len() <= u32::MAX ==> match r {
            Ok(RetStep::Ty(t)) => ret_read(old(lexer).src(), old(lexer).state()) matches RetRead::Read(ret, st)
                && st == final(lexer).state() && ty_text_names(
                final(ctx).str_store@,
                final(ctx).unchecked_ty_store@,
                t,
                ret,
            ),
            Ok(RetStep::Invalid(_)) => ret_read(old(lexer).src(), old(lexer).state()) matches RetRead::Invalid(st)
                && st == final(lexer).state(),
            Err(h) => ret_read(old(lexer).src(), old(lexer).state()) is Halt && h == ParseHalt::InvalidModuleType,
        },
{
    let return_token = *lexer.peek();
    let ghost c8 = *ctx;
    let ghost l8 = *lexer;
    if return_token.ty == Ty::Identifier {
        next_token(ctx, lexer);
        let ghost c9 = *ctx;
        let ghost l9 = *lexer;
        let res = parser.parse_ty(ctx, lexer, return_token.lexeme);
        proof {
            lemma_frame_trans(&c8, &c9, ctx, &l8, &l9, lexer);
            if ctx.str_store@.len() <= u32::MAX {
                lemma_token_text(return_token, l8.state().peek, c8.str_store@, c9.str_store@);
            }
        }
        proof {
            if ctx.str_store@.len() <= u32::MAX {
                assert(l9.state() == step(l8.src(), l8.state()));
                assert(l9.src() == l8.src());
                assert(c9.str_store@[return_token.lexeme.id() as int] == l8.state().peek.text);
                assert(l8.state().peek.ty == Ty::Identifier);
            }
        }
        match res {
            Ok(t) => Ok(RetStep::Ty(t)),
            Err(h) => Err(h),
        }
    } else if return_token.ty == Ty::OpenBrace {
        let t = ctx.unchecked_ty_store.get_none_ty();
        proof {
            Context::lemma_grown_wf(&c8, ctx);
            crate::compiler::str_store::lemma_interned_prefix(c8.unchecked_ty_store@, UncheckedTyModel::Unit);
            lemma_frame_refl(&c8, lexer);
            assert(parse_frame(&c8, ctx, lexer, lexer));
            assert(names_ty(ctx.unchecked_ty_store@, t, UncheckedTyModel::Unit));
            lemma_unit_ty_text(ctx.str_store@, ctx.unchecked_ty_store@, t);
        }
        Ok(RetStep::Ty(t))
    } else {
        let ghost c9 = *ctx;
        recover_decl(ctx, lexer);
        let ghost c10 = *ctx;
        let d = parser.get_decl(ctx, return_token, DeclValue::Invalid("expecting return type"));
        proof {
            lemma_frame_trans(old(ctx), &c9, &c10, old(lexer), &l8, lexer);
            lemma_frame_refl(&c10, lexer);
            lemma_frame_trans(old(ctx), &c10, ctx, old(lexer), lexer, lexer);
        }
        Ok(RetStep::Invalid(d))
    }
}

/// The parameters of a function header, read from the first token after `(` up to and
/// including `)`; a malformed list gives the declaration stored for it.
#[verifier::rlimit(50)]
fn parse_params(parser: &Parser, ctx: &mut Context, lexer: &mut Lexer) -> (r: Result<Result<(Vec<MStr>, Vec<UncheckedTy>), Decl>, ParseHalt>)
    requires
        parser.wf(),
        old(ctx).wf(),
        old(lexer).valid_in(old(ctx).str_store@),
    ensures
        parse_frame(old(ctx), final(ctx), old(lexer), final(lexer)),
        r matches Ok(Ok(ps)) ==> forall|i: int| 0 <= i < ps.1@.len() ==> (#[trigger] ps.1@[i]).id() < final(ctx).unchecked_ty_store@.len(),
        r matches Ok(Err(d)) ==> made_last_decl(old(ctx), final(ctx), d) && (last_decl(final(ctx))
            == DeclValue::Invalid("function decl is missing a closing paren") || last_decl(final(ctx)) == DeclValue::Invalid(
            "function param needs an identifer for a name",
        ) || last_decl(final(ctx)) == DeclValue::Invalid("expecting paramater type spec") || last_decl(final(ctx))
            == DeclValue::Invalid("paramaters must be separated by commas")),
        final(ctx).str_store@.len() <= u32::MAX ==> match r {
            Ok(Ok(ps)) => params_read(old(lexer).src(), old(lexer).state()) matches ParamsRead::Done(names, texts, st)
                && st == final(lexer).state() && params_named(final(ctx), ps.0@, ps.1@, names, texts),
            Ok(Err(_)) => params_read(old(lexer).src(), old(lexer).state()) matches ParamsRead::Invalid(m, st)
                && st == final(lexer).state() && last_decl(final(ctx)) == DeclValue::Invalid(m),
            Err(h) => params_read(old(lexer).src(), old(lexer).state()) is Halt && h == ParseHalt::InvalidModuleType,
        },
{
    let ghost src = lexer.src();
    let ghost start = lexer.state();
    let ghost mut names: Seq<Seq<char>> = Seq::empty();
    let ghost mut ty_texts: Seq<TyText> = Seq::empty();
    let mut param_names: Vec<MStr> = Vec::new();
    let mut param_tys: Vec<UncheckedTy> = Vec::new();
    proof {
        lemma_prepend_params_empty(params_read(src, start));
    }
    loop
        invariant_except_break
            ctx.str_store@.len() <= u32::MAX ==> params_read(src, start) == prepend_params(
                names,
                ty_texts,
                params_read(src, lexer.state()),
            ),
        invariant
            parser.wf(),
            parse_frame(old(ctx), ctx, old(lexer), lexer),
            src == old(lexer).src(),
            start == old(lexer).state(),
            forall|i: int| 0 <= i < param_tys@.len() ==> (#[trigger] param_tys@[i]).id() < ctx.unchecked_ty_store@.len(),
            ctx.str_store@.len() <= u32::MAX ==> params_named(ctx, param_names@, param_tys@, names, ty_texts),
        ensures
            parse_frame(old(ctx), ctx, old(lexer), lexer),
            forall|i: int| 0 <= i < param_tys@.len() ==> (#[trigger] param_tys@[i]).id() < ctx.unchecked_ty_store@.len(),
            ctx.str_store@.len() <= u32::MAX ==> params_named(ctx, param_names@, param_tys@, names, ty_texts),
            ctx.str_store@.len() <= u32::MAX ==> params_read(src, start) == ParamsRead::Done(
                names,
                ty_texts,
                lexer.state(),
            ),
        decreases lexer.remaining(),
    {
        let ghost c2 = *ctx;
        let ghost l2 = *lexer;
        let res = parse_param(parser, ctx, lexer);
        proof {
            lemma_frame_trans(old(ctx), &c2, ctx, old(lexer), &l2, lexer);
            if ctx.str_store@.len() <= u32::MAX {
                lemma_params_named_grow(&c2, ctx, param_names@, param_tys@, names, ty_texts);
            }
        }
        let param = match res {
            Ok(p) => p,
            Err(h) => {
                return Err(h);
            },
        };
        match param {
            ParamStep::End => {
                proof {
                    lemma_prepend_params_done_empty(names, ty_texts, lexer.state());
                }
                break;
            },
            ParamStep::Next(n, t) => {
                let ghost ids0 = param_names@;
                let ghost tys0 = param_tys@;
                let ghost names0 = names;
                let ghost texts0 = ty_texts;
                let ghost text = l2.state().peek.text;
                let ghost tt = param_ty_text(src, l2.state());
                param_names.push(n);
                param_tys.push(t);
                proof {
                    names = names.push(text);
                    ty_texts = ty_texts.push(tt);
                    assert forall|i: int| 0 <= i < param_tys@.len() implies (#[trigger] param_tys@[i]).id()
                        < ctx.unchecked_ty_store@.len() by {
                        if i < tys0.len() {
                            assert(param_tys@[i] == tys0[i]);
                        }
                    }
                    if ctx.str_store@.len() <= u32::MAX {
                        lemma_params_named_push(ctx, ids0, tys0, names0, texts0, n, t, text, tt);
                        lemma_prepend_param_push(names0, texts0, text, tt, params_read(src, lexer.state()));
                    }
                }
            },
            ParamStep::Invalid(d) => {
                return Ok(Err(d));
            },
        }
    }
    Ok(Ok((param_names, param_tys)))
}

/// `fn name(param ty, ...) ret { body }`: a parameter list ended by `)` right after a type keeps
/// the parameters before it.
#[verifier::rlimit(100)]
fn parse_function_decl(parser: &Parser, ctx: &mut Context, lexer: &mut Lexer, token: Token) -> (r: Result<Decl, ParseHalt>)
    requires
        parser.wf(),
        old(ctx).wf(),
        old(lexer).valid_in(old(ctx).str_store@),
    ensures
        parse_frame(old(ctx), final(ctx), old(lexer), final(lexer)),
        r is Ok ==> made_last_decl(old(ctx), final(ctx), r->Ok_0),
        old(lexer).peeked().ty != Ty::Identifier ==> r is Ok && last_decl(final(ctx)) == DeclValue::Invalid(
            "function decl is missing a name",
        ) && final(lexer).state() == skip_decl(old(lexer).src(), step(old(lexer).src(), old(lexer).state())),
        old(lexer).peeked().ty == Ty::Identifier && step(old(lexer).src(), old(lexer).state()).peek.ty
            != Ty::OpenParen ==> r is Ok && last_decl(final(ctx)) == DeclValue::Invalid(
            "function decl is missing an open paren",
        ) && final(lexer).state() == skip_decl(
            old(lexer).src(),
            step(old(lexer).src(), step(old(lexer).src(), old(lexer).state())),
        ),
        old(lexer).peeked().ty == Ty::Identifier && step(old(lexer).src(), old(lexer).state()).peek.ty
            == Ty::OpenParen && r is Ok ==> function_result(
            last_decl(final(ctx)),
            old(lexer).peeked().lexeme,
            final(ctx).unchecked_ty_store@,
        ),
        old(lexer).peeked().ty == Ty::Identifier && step(old(lexer).src(), old(lexer).state()).peek.ty
            == Ty::OpenParen && final(ctx).str_store@.len() <= u32::MAX ==> match fn_header(
            old(lexer).src(),
            step(old(lexer).src(), step(old(lexer).src(), old(lexer).state())),
        ) {
            HeaderRead::Invalid(msg, st) => r is Ok && last_decl(final(ctx)) == DeclValue::Invalid(msg)
                && final(lexer).state() == st,
            HeaderRead::Halt => r == Err::<Decl, ParseHalt>(ParseHalt::InvalidModuleType),
            HeaderRead::Done(names, tys, ret, at_body) => {
                &&& r is Ok ==> (last_decl(final(ctx)) matches DeclValue::Func(f)
                    && f.name == old(lexer).peeked().lexeme && names_interned(f.params@, names, final(ctx).str_store@) && fn_ty_names(
                    final(ctx).str_store@,
                    final(ctx).unchecked_ty_store@,
                    f.ty,
                    tys,
                    ret,
                ))
                &&& ids_fit(final(ctx)) ==> body_read_as(
                    final(ctx),
                    final(lexer).state(),
                    r,
                    read_block(old(lexer).src(), step(old(lexer).src(), at_body), Seq::empty()),
                )
            },
        },
{
    let function_name = next_token(ctx, lexer);
    if function_name.ty != Ty::Identifier {
        let ghost c1 = *ctx;
        let ghost l1 = *lexer;
        recover_decl(ctx, lexer);
        let ghost c2 = *ctx;
        let d = parser.get_decl(ctx, function_name, DeclValue::Invalid("function decl is missing a name"));
        proof {
            lemma_frame_trans(old(ctx), &c1, &c2, old(lexer), &l1, lexer);
            lemma_frame_refl(&c2, lexer);
            lemma_frame_trans(old(ctx), &c2, ctx, old(lexer), lexer, lexer);
        }
        return Ok(d);
    }
    let ghost c1 = *ctx;
    let ghost l1 = *lexer;
    let open_args = next_token(ctx, lexer);
    proof {
        lemma_frame_trans(old(ctx), &c1, ctx, old(lexer), &l1, lexer);
    }
    if open_args.ty != Ty::OpenParen {
        let ghost c2 = *ctx;
        let ghost l2 = *lexer;
        recover_decl(ctx, lexer);
        let ghost c3 = *ctx;
        let d = parser.get_decl(ctx, open_args, DeclValue::Invalid("function decl is missing an open paren"));
        proof {
            lemma_frame_trans(old(ctx), &c2, &c3, old(lexer), &l2, lexer);
            lemma_frame_refl(&c3, lexer);
            lemma_frame_trans(old(ctx), &c3, ctx, old(lexer), lexer, lexer);
        }
        return Ok(d);
    }
    let ghost src = lexer.src();
    let ghost start = lexer.state();
    let ghost c7 = *ctx;
    let ghost l7 = *lexer;
    let res = parse_params(parser, ctx, lexer);
    proof {
        lemma_frame_trans(old(ctx), &c7, ctx, old(lexer), &l7, lexer);
    }
    let (param_names, param_tys) = match res {
        Ok(Ok(ps)) => ps,
        Ok(Err(d)) => {
            return Ok(d);
        },
        Err(h) => {
            return Err(h);
        },
    };
    let ghost names = params_read(src, start)->Done_0;
    let ghost ty_texts = params_read(src, start)->Done_1;
    let ghost c8 = *ctx;
    let ghost l8 = *lexer;
    let res = parse_return_ty(parser, ctx, lexer);
    proof {
        lemma_frame_trans(old(ctx), &c8, ctx, old(lexer), &l8, lexer);
        if ctx.str_store@.len() <= u32::MAX {
            lemma_params_named_grow(&c8, ctx, param_names@, param_tys@, names, ty_texts);
        }
    }
    let return_ty = match res {
        Ok(RetStep::Ty(t)) => t,
        Ok(RetStep::Invalid(d)) => {
            return Ok(d);
        },
        Err(h) => {
            return Err(h);
        },
    };
    let ghost ret_text = match ret_read(src, l8.state()) {
        RetRead::Read(rt, _) => rt,
        _ => TyText { module: None, name: Seq::empty() },
    };
    let ghost c11 = *ctx;
    let ghost l11 = *lexer;
    let ghost ids = param_names@;
    let ghost pt = param_tys@;
    let res = finish_function(parser, ctx, lexer, token, function_name.lexeme, param_names, param_tys, return_ty);
    proof {
        lemma_frame_trans(old(ctx), &c11, ctx, old(lexer), &l11, lexer);
        if ctx.str_store@.len() <= u32::MAX {
            lemma_params_named_grow(&c11, ctx, ids, pt, names, ty_texts);
            lemma_ty_text_names_grow(
                c11.str_store@,
                ctx.str_store@,
                c11.unchecked_ty_store@,
                ctx.unchecked_ty_store@,
                return_ty,
                ret_text,
            );
        }
    }
    res
}

/// The rest of a function declaration after its header: the `{`, the body, and the declaration
/// stored with the function's type.
fn finish_function(
    parser: &Parser,
    ctx: &mut Context,
    lexer: &mut Lexer,
    token: Token,
    name: MStr,
    param_names: Vec<MStr>,
    param_tys: Vec<UncheckedTy>,
    return_ty: UncheckedTy,
) -> (r: Result<Decl, ParseHalt>)
    requires
        parser.wf(),
        old(ctx).wf(),
        old(lexer).valid_in(old(ctx).str_store@),
        forall|i: int| 0 <= i < param_tys@.len() ==> (#[trigger] param_tys@[i]).id() < old(ctx).unchecked_ty_store@.len(),
        return_ty.id() < old(ctx).unchecked_ty_store@.len(),
    ensures
        parse_frame(old(ctx), final(ctx), old(lexer), final(lexer)),
        r is Ok ==> made_last_decl(old(ctx), final(ctx), r->Ok_0),
        old(lexer).peeked().ty != Ty::OpenBrace ==> r is Ok && last_decl(final(ctx)) == DeclValue::Invalid(
            "function is missing a body",
        ) && final(lexer).state() == skip_decl(old(lexer).src(), step(old(lexer).src(), old(lexer).state())),
        old(lexer).peeked().ty == Ty::OpenBrace && r is Ok ==> (last_decl(final(ctx)) matches DeclValue::Func(f)
            && f.name == name && f.params@ == param_names@ && names_ty(
            final(ctx).unchecked_ty_store@,
            f.ty,
            UncheckedTyModel::Func(param_tys@, return_ty),
        )),
        old(lexer).peeked().ty == Ty::OpenBrace && ids_fit(final(ctx)) ==> body_read_as(
            final(ctx),
            final(lexer).state(),
            r,
            read_block(old(lexer).src(), step(old(lexer).src(), old(lexer).state()), Seq::empty()),
        ),
{
    let ghost c11 = *ctx;
    let ghost l11 = *lexer;
    let open_body = next_token(ctx, lexer);
    proof {
        lemma_frame_trans(old(ctx), &c11, ctx, old(lexer), &l11, lexer);
    }
    if open_body.ty != Ty::OpenBrace {
        let ghost c12 = *ctx;
        let ghost l12 = *lexer;
        recover_decl(ctx, lexer);
        let ghost c13 = *ctx;
        let d = parser.get_decl(ctx, open_body, DeclValue::Invalid("function is missing a body"));
        proof {
            lemma_frame_trans(old(ctx), &c12, &c13, old(lexer), &l12, lexer);
            lemma_frame_refl(&c13, lexer);
            lemma_frame_trans(old(ctx), &c13, ctx, old(lexer), lexer, lexer);
        }
        return Ok(d);
    }
    let ghost c14 = *ctx;
    let ghost l14 = *lexer;
    let res = parser.parse_block(ctx, lexer);
    proof {
        lemma_frame_trans(old(ctx), &c14, ctx, old(lexer), &l14, lexer);
    }
    let body = match res {
        Ok(b) => b,
        Err(h) => {
            return Err(h);
        },
    };
    let ghost c15 = *ctx;
    let ghost pt = param_tys@;
    let function_ty = parser.get_fn_type(ctx, param_tys, return_ty);
    proof {
        crate::compiler::str_store::lemma_interned_prefix(
            c15.unchecked_ty_store@,
            UncheckedTyModel::Func(pt, return_ty),
        );
        lemma_frame_refl(&c15, lexer);
        assert(parse_frame(&c15, ctx, lexer, lexer));
        lemma_frame_trans(old(ctx), &c15, ctx, old(lexer), lexer, lexer);
    }
    let ghost c16 = *ctx;
    let ghost body_exprs = body.exprs@;
    let d = parser.get_decl(ctx, token, DeclValue::Func(FuncDecl { name, params: param_names, body, ty: function_ty }));
    proof {
        lemma_frame_refl(&c16, lexer);
        lemma_frame_trans(old(ctx), &c16, ctx, old(lexer), lexer, lexer);
        assert(names_ty(ctx.unchecked_ty_store@, function_ty, UncheckedTyModel::Func(pt, return_ty)));
        if ids_fit(ctx) {
            let ts = read_block(lexer.src(), l14.state(), Seq::empty())->Done_0;
            lemma_denotes_all_grow(
                c15.str_store@,
                ctx.str_store@,
                c15.ast_store.exprs(),
                ctx.ast_store.exprs(),
                body_exprs,
                ts,
            );
        }
    }
    Ok(d)
}

/// Parses the declaration that starts with `token` (already read); any other token starts an
/// invalid declaration, after which the lexer skips to the next declaration.
#[verifier::rlimit(80)]
pub fn parse_decl(parser: &Parser, ctx: &mut Context, lexer: &mut Lexer, token: Token) -> (r: Result<Decl, ParseHalt>)
    requires
        parser.wf(),
        old(ctx).wf(),
        old(lexer).valid_in(old(ctx).str_store@),
    ensures
        parse_frame(old(ctx), final(ctx), old(lexer), final(lexer)),
        r is Ok ==> made_last_decl(old(ctx), final(ctx), r->Ok_0),
        !crate::ast::lexer::is_decl_keyword(token.ty) ==> r is Ok && last_decl(final(ctx))
            == DeclValue::Invalid("unknown declaration type"),
        ids_fit(final(ctx)) ==> decl_read_as(
            final(ctx),
            final(lexer).state(),
            r,
            read_decl(old(lexer).src(), token.ty, old(lexer).state()),
        ),
{
    let ghost src = lexer.src();
    let ghost s0 = lexer.state();
    match token.ty {
        Ty::ModKeyword => Ok(parse_mod_decl(parser, ctx, lexer, token)),
        Ty::UseKeyword => {
            let d = parse_use_decl(parser, ctx, lexer, token);
            proof {
                if ids_fit(ctx) {
                    lemma_use_decl_read(ctx, lexer.state(), d, src, s0);
                }
            }
            Ok(d)
        },
        Ty::TypeKeyword => parse_type_decl(parser, ctx, lexer, token),
        Ty::FnKeyword => {
            let r = parse_function_decl(parser, ctx, lexer, token);
            proof {
                if ids_fit(ctx) {
                    assert(names_text(old(ctx).str_store@, old(lexer).peeked().lexeme, s0.peek.text));
                    lemma_names_text_grow(old(ctx).str_store@, ctx.str_store@, old(lexer).peeked().lexeme, s0.peek.text);
                    lemma_fn_decl_read(ctx, lexer.state(), r, src, s0, old(lexer).peeked().lexeme);
                }
            }
            r
        },
        _ => {
            let ghost c1 = *ctx;
            let ghost l1 = *lexer;
            recover_decl(ctx, lexer);
            let ghost c2 = *ctx;
            let d = parser.get_decl(ctx, token, DeclValue::Invalid("unknown declaration type"));
            proof {
                lemma_frame_trans(&c1, &c1, &c2, &l1, &l1, lexer);
                lemma_frame_refl(&c2, lexer);
                lemma_frame_trans(old(ctx), &c2, ctx, old(lexer), lexer, lexer);
            }
            Ok(d)
        },
    }
}

} // verus!
