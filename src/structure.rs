use vstd::prelude::*;

use crate::lexer::{lex, stuck_error, tokenize, LexError, Lexed};
use crate::text::{decimal, push_decimal, string_of};
use crate::token::{toks_view, Tok, Token};

verus! {

/// A directive tree as a mathematical value.
pub enum Tree {
    /// A `;`-terminated directive: its name followed by its arguments.
    Stmt(Seq<Tok>),
    /// A directive with a body: its header arguments and its children in
    /// source order.
    Blk(Seq<Tok>, Seq<Tree>),
}

/// A node of the directive tree.
///
/// Statements are `;`-terminated directives; blocks are directives followed by
/// a `{ ... }` body. The tokens before the `;` or `{` are the node's `args`,
/// the directive name first.
#[derive(Debug, PartialEq, Eq)]
pub enum Structure {
    Statement { args: Vec<Token> },
    Block { args: Vec<Token>, children: Vec<Structure> },
}

impl View for Structure {
    type V = Tree;

    open spec fn view(&self) -> Tree
        decreases self,
    {
        match self {
            Structure::Statement { args } => Tree::Stmt(toks_view(args@)),
            Structure::Block { args, children } => Tree::Blk(
                toks_view(args@),
                Seq::new(
                    children@.len(),
                    |i: int|
                        if 0 <= i < children@.len() {
                            children@[i].view()
                        } else {
                            Tree::Stmt(seq![])
                        },
                ),
            ),
        }
    }
}

/// The views of a sequence of nodes.
pub open spec fn trees_view(cs: Seq<Structure>) -> Seq<Tree> {
    Seq::new(
        cs.len(),
        |i: int|
            if 0 <= i < cs.len() {
                cs[i].view()
            } else {
                Tree::Stmt(seq![])
            },
    )
}

/// A block under construction: its header arguments and the children
/// completed so far.
pub struct Frame {
    pub args: Seq<Tok>,
    pub children: Seq<Tree>,
}

/// The state of the tree builder: the enclosing blocks still open, the
/// innermost open block, and the arguments of the statement being read.
pub struct Builder {
    pub stack: Seq<Frame>,
    pub cur: Frame,
    pub pending: Seq<Tok>,
}

/// The builder before any token: the root block is current and empty.
pub open spec fn start() -> Builder {
    Builder { stack: seq![], cur: Frame { args: seq![], children: seq![] }, pending: seq![] }
}

/// `f` with the pending arguments, if any, added as a statement.
pub open spec fn flush(f: Frame, pending: Seq<Tok>) -> Frame {
    if pending.len() > 0 {
        Frame { args: f.args, children: f.children.push(Tree::Stmt(pending)) }
    } else {
        f
    }
}

/// One transition of the tree builder.
pub open spec fn step(s: Builder, t: Tok) -> Builder {
    match t {
        Tok::Semicolon => Builder { stack: s.stack, cur: flush(s.cur, s.pending), pending: seq![] },
        Tok::BracketOpen => Builder {
            stack: s.stack.push(s.cur),
            cur: Frame { args: s.pending, children: seq![] },
            pending: seq![],
        },
        Tok::BracketClose => {
            let done = flush(s.cur, s.pending);
            if s.stack.len() > 0 {
                let parent = s.stack.last();
                Builder {
                    stack: s.stack.drop_last(),
                    cur: Frame {
                        args: parent.args,
                        children: parent.children.push(Tree::Blk(done.args, done.children)),
                    },
                    pending: seq![],
                }
            } else {
                Builder { stack: s.stack, cur: done, pending: seq![] }
            }
        },
        Tok::Comment(_) => s,
        Tok::Newline => s,
        _ => Builder { stack: s.stack, cur: s.cur, pending: s.pending.push(t) },
    }
}

/// The builder after reading `ts` from the start.
pub open spec fn run(ts: Seq<Tok>) -> Builder
    decreases ts.len(),
{
    if ts.len() == 0 {
        start()
    } else {
        step(run(ts.drop_last()), ts.last())
    }
}

/// The root block once the input is over: the outermost frame, with the
/// arguments of a statement left unterminated added to its own header.
/// Blocks still open are not part of it.
pub open spec fn finish(s: Builder) -> Tree {
    let root = if s.stack.len() > 0 {
        s.stack[0]
    } else {
        s.cur
    };
    Tree::Blk(root.args + s.pending, root.children)
}

/// The tree built from a token sequence.
pub open spec fn build(ts: Seq<Tok>) -> Tree {
    finish(run(ts))
}

/// The message of a lexical error: its byte range, as `start..end`.
pub open spec fn error_text(e: LexError) -> Seq<char> {
    decimal(e.start as nat) + seq!['.', '.'] + decimal(e.end as nat)
}

/// The abstract state that the executable builder holds.
pub open spec fn builder_view(
    stack: Seq<(Vec<Token>, Vec<Structure>)>,
    args: Seq<Token>,
    children: Seq<Structure>,
    pending: Seq<Token>,
) -> Builder {
    Builder {
        stack: Seq::new(
            stack.len(),
            |k: int| Frame { args: toks_view(stack[k].0@), children: trees_view(stack[k].1@) },
        ),
        cur: Frame { args: toks_view(args), children: trees_view(children) },
        pending: toks_view(pending),
    }
}

fn message(e: LexError) -> (r: String)
    ensures
        r@ == error_text(e),
{
    let mut cs: Vec<char> = Vec::new();
    push_decimal(&mut cs, e.start);
    cs.push('.');
    cs.push('.');
    push_decimal(&mut cs, e.end);
    assert(cs@ =~= error_text(e));
    string_of(&cs, 0, cs.len())
}

impl Structure {
    /// The arguments of the node, for reading or changing in place.
    pub fn args(&mut self) -> (r: &mut Vec<Token>)
        ensures
            *r == match *old(self) {
                Structure::Statement { args } => args,
                Structure::Block { args, .. } => args,
            },
            *final(self) == match *old(self) {
                Structure::Statement { .. } => (Structure::Statement { args: *final(r) }),
                Structure::Block { children, .. } => (Structure::Block {
                    args: *final(r),
                    children,
                }),
            },
    {
        match self {
            Structure::Statement { args } => args,
            Structure::Block { args, .. } => args,
        }
    }

    /// The children of a block, for reading or changing in place.
    pub fn children(&mut self) -> (r: &mut Vec<Structure>)
        requires
            *old(self) is Block,
        ensures
            *r == old(self)->children,
            *final(self) == (Structure::Block { args: old(self)->Block_args, children: *final(r) }),
    {
        match self {
            Structure::Block { children, .. } => children,
            Structure::Statement { .. } => {
                proof {
                    assert(false);
                }
                unreached()
            },
        }
    }

    /// Parses a configuration text into its root block, without checking
    /// what any directive means.
    ///
    /// The root has no header arguments of its own, except that the tokens
    /// of a last statement left without `;` are added to them. A `}` with no
    /// open block only ends the pending statement; blocks still open when
    /// the input ends are left out of the result. Fails with `start..end`,
    /// the byte range of the first character at which no token rule matches.
    pub fn parse(cfg: &str) -> (r: Result<Structure, String>)
        ensures
            match lex(cfg@) {
                Lexed::Tokens(ts) => r is Ok && r->Ok_0@ == build(ts),
                Lexed::Stuck(k) => r is Err && r->Err_0@ == error_text(stuck_error(cfg@, k)),
            },
    {
        let toks = match tokenize(cfg) {
            Ok(toks) => toks,
            Err(e) => {
                return Err(message(e));
            },
        };
        Ok(build_tree(toks))
    }
}

/// Empties `v` and returns what it held.
fn take_vec<T>(v: &mut Vec<T>) -> (r: Vec<T>)
    ensures
        r == *old(v),
        final(v)@ == Seq::<T>::empty(),
{
    let mut r: Vec<T> = Vec::new();
    std::mem::swap(&mut r, v);
    r
}

/// The elements of `v` in reverse order.
fn reversed<T>(v: Vec<T>) -> (r: Vec<T>)
    ensures
        r@.len() == v@.len(),
        forall|k: int| 0 <= k < v@.len() ==> #[trigger] r@[k] == v@[v@.len() - 1 - k],
{
    let ghost orig = v@;
    let mut src = v;
    let mut r: Vec<T> = Vec::new();
    while src.len() > 0
        invariant
            src@ == orig.take(orig.len() - r@.len()),
            r@.len() <= orig.len(),
            forall|k: int| 0 <= k < r@.len() ==> #[trigger] r@[k] == orig[orig.len() - 1 - k],
        decreases src@.len(),
    {
        let x = src.pop().unwrap();
        r.push(x);
    }
    r
}

/// Folds a token sequence into its root block.
pub fn build_tree(toks: Vec<Token>) -> (r: Structure)
    ensures
        r@ == build(toks_view(toks@)),
{
    let ghost ts = toks_view(toks@);
    let mut stack: Vec<(Vec<Token>, Vec<Structure>)> = Vec::new();
    let mut args: Vec<Token> = Vec::new();
    let mut children: Vec<Structure> = Vec::new();
    let mut pending: Vec<Token> = Vec::new();
    let mut rest = reversed(toks);
    assert(builder_view(stack@, args@, children@, pending@) == run(ts.take(0))) by {
        assert(ts.take(0) =~= Seq::<Tok>::empty());
        assert(builder_view(stack@, args@, children@, pending@).stack =~= start().stack);
        assert(builder_view(stack@, args@, children@, pending@).cur.args =~= start().cur.args);
        assert(builder_view(stack@, args@, children@, pending@).cur.children
            =~= start().cur.children);
        assert(builder_view(stack@, args@, children@, pending@).pending =~= start().pending);
    }
    while rest.len() > 0
        invariant
            rest@.len() <= ts.len(),
            ts == toks_view(toks@),
            forall|k: int|
                0 <= k < rest@.len() ==> #[trigger] rest@[k]@ == ts[ts.len() - 1 - k],
            builder_view(stack@, args@, children@, pending@) == run(
                ts.take(ts.len() - rest@.len()),
            ),
        decreases rest@.len(),
    {
        let ghost before = builder_view(stack@, args@, children@, pending@);
        let ghost done = ts.len() - rest@.len();
        let t = rest.pop().unwrap();
        proof {
            assert(ts.take(done + 1).drop_last() =~= ts.take(done));
            assert(t@ == ts[done]);
        }
        match t {
            Token::Semicolon => {
                if pending.len() > 0 {
                    let p = take_vec(&mut pending);
                    children.push(Structure::Statement { args: p });
                }
            },
            Token::BracketOpen => {
                let mut a = take_vec(&mut pending);
                std::mem::swap(&mut args, &mut a);
                let c = take_vec(&mut children);
                stack.push((a, c));
            },
            Token::BracketClose => {
                if pending.len() > 0 {
                    let p = take_vec(&mut pending);
                    children.push(Structure::Statement { args: p });
                }
                let ghost flushed = flush(before.cur, before.pending);
                proof {
                    assert(trees_view(children@) =~= flushed.children);
                }
                let ghost inner_args = args@;
                let ghost inner_children = children@;
                let ghost inner = Tree::Blk(toks_view(args@), trees_view(children@));
                let ghost parent = stack@.last().1@;
                match stack.pop() {
                    Some((pa, pc)) => {
                        let mut a = pa;
                        let mut c = pc;
                        std::mem::swap(&mut args, &mut a);
                        std::mem::swap(&mut children, &mut c);
                        children.push(Structure::Block { args: a, children: c });
                        proof {
                            let v = children@.last()@;
                            assert(v->Blk_1 =~= trees_view(inner_children));
                            assert(v->Blk_0 == toks_view(inner_args));
                            assert(v == inner);
                            assert(trees_view(children@) =~= trees_view(parent).push(inner));
                        }
                    },
                    None => {},
                }
            },
            Token::Comment(_) => {},
            Token::Newline => {},
            _ => {
                pending.push(t);
            },
        }
        proof {
            let after = builder_view(stack@, args@, children@, pending@);
            let expect = step(before, ts[done]);
            assert(after.stack =~= expect.stack);
            assert(after.cur.args =~= expect.cur.args);
            assert(after.cur.children =~= expect.cur.children);
            assert(after.pending =~= expect.pending);
        }
    }
    assert(ts.take(ts.len() as int) =~= ts);
    let ghost fin = builder_view(stack@, args@, children@, pending@);
    let ghost tail = pending@;
    let (mut root_args, root_children) = if stack.len() > 0 {
        stack.swap_remove(0)
    } else {
        (args, children)
    };
    root_args.append(&mut pending);
    let r = Structure::Block { args: root_args, children: root_children };
    proof {
        let root = if fin.stack.len() > 0 {
            fin.stack[0]
        } else {
            fin.cur
        };
        assert(r@->Blk_1 =~= root.children);
        assert(toks_view(root_args@) =~= root.args + toks_view(tail));
    }
    r
}

} // verus!
