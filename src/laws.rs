use vstd::prelude::*;

use crate::lexer::lex;
use crate::structure::{build, flush, run, start, step, Builder, Frame, Tree};
use crate::token::Tok;

verus! {

/// A tree written back as tokens: a statement as its arguments and `;`, a
/// block as its header arguments, `{`, its children and `}`.
pub open spec fn flatten(t: Tree) -> Seq<Tok>
    decreases t, 0nat,
{
    match t {
        Tree::Stmt(args) => args.push(Tok::Semicolon),
        Tree::Blk(args, cs) => args.push(Tok::BracketOpen) + flatten_upto(cs, cs.len()).push(
            Tok::BracketClose,
        ),
    }
}

/// The first `n` trees of `cs` written back as tokens, one after another.
pub open spec fn flatten_upto(cs: Seq<Tree>, n: nat) -> Seq<Tok>
    decreases cs, n,
{
    if n == 0 || n > cs.len() {
        seq![]
    } else {
        flatten_upto(cs, (n - 1) as nat) + flatten(cs[n - 1])
    }
}

/// A sequence of trees written back as tokens, one after another.
pub open spec fn body(cs: Seq<Tree>) -> Seq<Tok> {
    flatten_upto(cs, cs.len())
}

/// Whether a token sequence ends with an argument token.
pub open spec fn ends_in_arg(s: Seq<Tok>) -> bool {
    s.len() > 0 && s.last().is_arg()
}

/// The tokens that carry directives: comments and newlines dropped, and
/// every `;` that ends no statement dropped.
pub open spec fn directives(ts: Seq<Tok>) -> Seq<Tok>
    decreases ts.len(),
{
    if ts.len() == 0 {
        seq![]
    } else {
        let before = directives(ts.drop_last());
        let t = ts.last();
        if t.is_trivia() || (t is Semicolon && !ends_in_arg(before)) {
            before
        } else {
            before.push(t)
        }
    }
}

/// Blocks opened minus blocks closed.
pub open spec fn depth(ts: Seq<Tok>) -> int
    decreases ts.len(),
{
    if ts.len() == 0 {
        0
    } else {
        depth(ts.drop_last()) + match ts.last() {
            Tok::BracketOpen => 1int,
            Tok::BracketClose => -1int,
            _ => 0int,
        }
    }
}

/// Every `}` closes an open block and follows a complete directive.
pub open spec fn closes_ok(ts: Seq<Tok>) -> bool
    decreases ts.len(),
{
    if ts.len() == 0 {
        true
    } else {
        &&& closes_ok(ts.drop_last())
        &&& ts.last() is BracketClose ==> depth(ts.drop_last()) > 0 && !ends_in_arg(
            directives(ts.drop_last()),
        )
    }
}

/// Every opened block is closed, and every statement ends with `;`.
pub open spec fn balanced(ts: Seq<Tok>) -> bool {
    &&& closes_ok(ts)
    &&& depth(ts) == 0
    &&& !ends_in_arg(directives(ts))
}

/// A frame written back as tokens; the root has no header of its own.
pub open spec fn frame_flat(f: Frame, is_root: bool) -> Seq<Tok> {
    if is_root {
        body(f.children)
    } else {
        f.args.push(Tok::BracketOpen) + body(f.children)
    }
}

/// The open frames written back as tokens, outermost first.
pub open spec fn stack_flat(st: Seq<Frame>) -> Seq<Tok>
    decreases st.len(),
{
    if st.len() == 0 {
        seq![]
    } else {
        stack_flat(st.drop_last()) + frame_flat(st.last(), st.len() == 1)
    }
}

/// Everything the builder has completed, written back as tokens.
pub open spec fn flat(s: Builder) -> Seq<Tok> {
    stack_flat(s.stack) + frame_flat(s.cur, s.stack.len() == 0)
}

/// Only argument tokens.
pub open spec fn args_only(s: Seq<Tok>) -> bool {
    forall|i: int| 0 <= i < s.len() ==> (#[trigger] s[i]).is_arg()
}

/// Every node of the tree has only argument tokens as arguments.
pub open spec fn clean_tree(t: Tree) -> bool
    decreases t,
{
    match t {
        Tree::Stmt(args) => args_only(args),
        Tree::Blk(args, cs) => args_only(args) && forall|i: int|
            0 <= i < cs.len() ==> clean_tree(#[trigger] cs[i]),
    }
}

pub open spec fn clean_frame(f: Frame) -> bool {
    args_only(f.args) && forall|i: int| 0 <= i < f.children.len() ==> clean_tree(
        #[trigger] f.children[i],
    )
}

pub open spec fn clean_builder(s: Builder) -> bool {
    &&& forall|k: int| 0 <= k < s.stack.len() ==> clean_frame(#[trigger] s.stack[k])
    &&& clean_frame(s.cur)
    &&& args_only(s.pending)
}

proof fn lemma_upto_push(cs: Seq<Tree>, t: Tree, n: nat)
    requires
        n <= cs.len(),
    ensures
        flatten_upto(cs.push(t), n) == flatten_upto(cs, n),
    decreases n,
{
    if n > 0 {
        lemma_upto_push(cs, t, (n - 1) as nat);
        assert(cs.push(t)[n - 1] == cs[n - 1]);
    }
}

proof fn lemma_body_push(cs: Seq<Tree>, t: Tree)
    ensures
        body(cs.push(t)) == body(cs) + flatten(t),
{
    lemma_upto_push(cs, t, cs.len());
    assert(cs.push(t)[cs.len() as int] == t);
}

proof fn lemma_body_empty()
    ensures
        body(seq![]) == Seq::<Tok>::empty(),
{
}

proof fn lemma_clean_flush(f: Frame, pending: Seq<Tok>)
    requires
        clean_frame(f),
        args_only(pending),
    ensures
        clean_frame(flush(f, pending)),
{
    let d = flush(f, pending);
    assert forall|i: int| 0 <= i < d.children.len() implies clean_tree(#[trigger] d.children[i]) by {
        if i < f.children.len() {
            assert(d.children[i] == f.children[i]);
        }
    }
}

proof fn lemma_clean_step(s: Builder, t: Tok)
    requires
        clean_builder(s),
    ensures
        clean_builder(step(s, t)),
{
    let n = step(s, t);
    lemma_clean_flush(s.cur, s.pending);
    match t {
        Tok::BracketClose => {
            if s.stack.len() > 0 {
                let done = flush(s.cur, s.pending);
                let inner = Tree::Blk(done.args, done.children);
                assert(clean_tree(inner));
                let parent = s.stack[s.stack.len() - 1];
                assert(clean_frame(parent));
                assert forall|i: int| 0 <= i < n.cur.children.len() implies clean_tree(
                    #[trigger] n.cur.children[i],
                ) by {
                    if i < parent.children.len() {
                        assert(n.cur.children[i] == parent.children[i]);
                    }
                }
                assert forall|k: int| 0 <= k < n.stack.len() implies clean_frame(
                    #[trigger] n.stack[k],
                ) by {
                    assert(n.stack[k] == s.stack[k]);
                }
            }
        },
        Tok::BracketOpen => {
            assert forall|k: int| 0 <= k < n.stack.len() implies clean_frame(
                #[trigger] n.stack[k],
            ) by {
                if k < s.stack.len() {
                    assert(n.stack[k] == s.stack[k]);
                }
            }
        },
        _ => {},
    }
}

proof fn lemma_clean_run(ts: Seq<Tok>)
    ensures
        clean_builder(run(ts)),
    decreases ts.len(),
{
    if ts.len() > 0 {
        lemma_clean_run(ts.drop_last());
        lemma_clean_step(run(ts.drop_last()), ts.last());
    }
}

/// No comment or newline token ever becomes an argument: every statement's
/// arguments and every block's header arguments in the built tree are words,
/// quoted strings or braced strings.
pub proof fn lemma_no_comment_in_args(ts: Seq<Tok>)
    ensures
        clean_tree(build(ts)),
        forall|i: int| 0 <= i < build(ts)->Blk_0.len() ==> !(#[trigger] build(ts)->Blk_0[i] is Comment),
{
    lemma_clean_run(ts);
    let s = run(ts);
    let root = if s.stack.len() > 0 {
        s.stack[0]
    } else {
        s.cur
    };
    assert(clean_frame(root));
    assert(args_only(root.args + s.pending)) by {
        assert forall|i: int| 0 <= i < (root.args + s.pending).len() implies (#[trigger] (root.args
            + s.pending)[i]).is_arg() by {
            if i >= root.args.len() {
                assert((root.args + s.pending)[i] == s.pending[i - root.args.len()]);
            }
        }
    }
}

proof fn lemma_stack_flat_push(st: Seq<Frame>, f: Frame)
    ensures
        stack_flat(st.push(f)) == stack_flat(st) + frame_flat(f, st.len() == 0),
{
    assert(st.push(f).drop_last() =~= st);
}

proof fn lemma_pending_ends(s: Builder)
    requires
        args_only(s.pending),
        s.pending.len() > 0,
    ensures
        ends_in_arg(flat(s) + s.pending),
{
    assert((flat(s) + s.pending).last() == s.pending.last());
}

/// What reading tokens that close every block they open builds: the open
/// blocks match the nesting depth, the root has no header arguments, and the
/// completed part written back, followed by the pending arguments, is the
/// sequence of directive tokens read so far.
proof fn lemma_run_flat(ts: Seq<Tok>)
    requires
        closes_ok(ts),
    ensures
        run(ts).stack.len() == depth(ts),
        flat(run(ts)) + run(ts).pending == directives(ts),
        !ends_in_arg(flat(run(ts))),
        run(ts).stack.len() > 0 ==> run(ts).stack[0].args == Seq::<Tok>::empty(),
        run(ts).stack.len() == 0 ==> run(ts).cur.args == Seq::<Tok>::empty(),
    decreases ts.len(),
{
    lemma_clean_run(ts);
    if ts.len() == 0 {
        lemma_body_empty();
        assert(flat(start()) =~= Seq::<Tok>::empty());
        return ;
    }
    let p = ts.drop_last();
    let t = ts.last();
    lemma_run_flat(p);
    lemma_clean_run(p);
    let s = run(p);
    let n = step(s, t);
    assert(n == run(ts));
    if s.pending.len() > 0 {
        lemma_pending_ends(s);
    } else {
        assert(s.pending =~= Seq::<Tok>::empty());
        assert(flat(s) + s.pending =~= flat(s));
    }
    match t {
        Tok::Semicolon => {
            if s.pending.len() > 0 {
                lemma_body_push(s.cur.children, Tree::Stmt(s.pending));
                assert(flat(n) =~= flat(s) + s.pending.push(Tok::Semicolon));
                assert(flat(n) + n.pending =~= directives(ts));
            }
        },
        Tok::BracketOpen => {
            lemma_stack_flat_push(s.stack, s.cur);
            lemma_body_empty();
            assert(flat(n) =~= flat(s) + s.pending.push(Tok::BracketOpen));
            assert(flat(n) + n.pending =~= directives(ts));
            if s.stack.len() > 0 {
                assert(n.stack[0] == s.stack[0]);
            }
        },
        Tok::BracketClose => {
            let parent = s.stack.last();
            let inner = Tree::Blk(s.cur.args, s.cur.children);
            assert(s.stack.drop_last().push(parent) =~= s.stack);
            lemma_stack_flat_push(s.stack.drop_last(), parent);
            lemma_body_push(parent.children, inner);
            assert(flatten(inner) =~= s.cur.args.push(Tok::BracketOpen) + body(s.cur.children).push(
                Tok::BracketClose,
            ));
            assert(flat(n) =~= flat(s).push(Tok::BracketClose));
            assert(flat(n) + n.pending =~= directives(ts));
            if n.stack.len() > 0 {
                assert(n.stack[0] == s.stack[0]);
            }
        },
        Tok::Comment(_) => {},
        Tok::Newline => {},
        _ => {
            assert(flat(n) + n.pending =~= (flat(s) + s.pending).push(t));
        },
    }
}

/// Re-flattening: for tokens in which every opened block is closed and every
/// statement ends with `;`, the tree's root has no header arguments, and its
/// children written back in order (a statement as its arguments and `;`, a
/// block as its header, `{`, its children and `}`) give back the directive
/// tokens of the input: the same names and arguments in the same order, with
/// comments and newlines left out.
pub proof fn lemma_round_trip(ts: Seq<Tok>)
    requires
        balanced(ts),
    ensures
        build(ts) is Blk,
        build(ts)->Blk_0 == Seq::<Tok>::empty(),
        body(build(ts)->Blk_1) == directives(ts),
{
    lemma_run_flat(ts);
    lemma_clean_run(ts);
    let s = run(ts);
    if s.pending.len() > 0 {
        lemma_pending_ends(s);
    }
    assert(s.pending =~= Seq::<Tok>::empty());
    assert(flat(s) + s.pending =~= flat(s));
    assert(s.cur.args + s.pending =~= Seq::<Tok>::empty());
}

/// The same law stated of a configuration text whose tokens are balanced:
/// the tree that parsing it yields writes back to its directive tokens.
pub proof fn lemma_text_round_trip(text: Seq<char>)
    requires
        lex(text) is Tokens,
        balanced(lex(text)->Tokens_0),
    ensures
        build(lex(text)->Tokens_0)->Blk_0 == Seq::<Tok>::empty(),
        body(build(lex(text)->Tokens_0)->Blk_1) == directives(lex(text)->Tokens_0),
{
    lemma_round_trip(lex(text)->Tokens_0);
}

} // verus!
