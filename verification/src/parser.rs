use vstd::prelude::*;

verus! {

/// The kinds of Cypher tokens.
#[derive(Clone, Copy, Debug, PartialEq, Eq, Structural)]
pub enum TokenType {
    Match,
    Optional,
    Create,
    Delete,
    Return,
    Where,
    With,
    As,
    And,
    Or,
    Not,
    True,
    False,
    Null,
    Identifier,
    Parameter,
    StringType,
    Integer,
    Float,
    OpenParenthesis,
    CloseParenthesis,
    OpenBracket,
    CloseBracket,
    OpenBrace,
    CloseBrace,
    Colon,
    Comma,
    Dot,
    Equals,
    Minus,
    Plus,
    GreaterThan,
    LessThan,
    Star,
    Pipe,
}

/// A token of a Cypher query: its kind and its text.
#[derive(Debug)]
pub struct Token {
    pub token_type: TokenType,
    pub content: String,
}

/// Why a query could not be parsed: a syntax error at a token.
#[derive(Debug, PartialEq, Eq, Structural)]
pub enum ParserError {
    SyntaxError(usize),
}

pub type ParserResult<T> = Result<T, ParserError>;

/// A cursor over the tokens of a query.
pub struct Parser {
    tokens: Vec<Token>,
    pub index: usize,
}

impl Parser {
    /// The position of the current token.
    pub closed spec fn spec_index(&self) -> usize {
        self.index
    }

    /// The tokens the parser reads.
    pub closed spec fn spec_tokens(&self) -> Seq<Token> {
        self.tokens@
    }

    /// The token at the current position exists and has the type `token_type`.
    pub open spec fn spec_check(&self, token_type: TokenType) -> bool {
        self.spec_index() < self.spec_tokens().len() && self.spec_tokens()[self.spec_index() as int].token_type == token_type
    }

    /// A parser at the first of `tokens`.
    pub fn new(tokens: Vec<Token>) -> (p: Parser)
        ensures
            p.spec_tokens() == tokens@,
            p.spec_index() == 0,
    {
        Parser { tokens: tokens, index: 0 }
    }

    /// The tokens the parser reads.
    pub fn get_tokens(&self) -> (t: &Vec<Token>)
        ensures
            t@ == self.spec_tokens(),
    {
        &self.tokens
    }

    /// Moves past the current token where it has the type `token_type` and
    /// returns the new position; a syntax error at the current position
    /// otherwise.
    pub fn require(&mut self, token_type: TokenType) -> (res: ParserResult<usize>)
        ensures
            final(self).spec_tokens() == old(self).spec_tokens(),
            old(self).spec_check(token_type) ==> res == Ok::<usize, ParserError>((old(self).spec_index() + 1) as usize)
                && final(self).spec_index() == old(self).spec_index() + 1,
            !old(self).spec_check(token_type) ==> res == Err::<usize, ParserError>(ParserError::SyntaxError(old(self).spec_index()))
                && final(self).spec_index() == old(self).spec_index(),
    {
        if !self.check(token_type) {
            return Err(ParserError::SyntaxError(self.index));
        }
        assert(self.tokens@.len() == self.tokens.len());
        self.advance();
        Ok(self.index)
    }

    /// Moves to the next token.
    pub fn advance(&mut self)
        requires
            old(self).spec_index() < usize::MAX,
        ensures
            final(self).spec_index() == old(self).spec_index() + 1,
            final(self).spec_tokens() == old(self).spec_tokens(),
    {
        self.index = self.index + 1;
    }

    /// There is a token after the current one.
    pub fn has_next(&self) -> (r: bool)
        ensures
            r == (self.spec_index() + 1 < self.spec_tokens().len()),
    {
        self.tokens.len() > 0 && self.index < self.tokens.len() - 1
    }

    /// Moves past the current token where it has the type `token_type`, and
    /// says whether it did.
    pub fn current_token_type_advance(&mut self, token_type: TokenType) -> (r: bool)
        ensures
            final(self).spec_tokens() == old(self).spec_tokens(),
            r == old(self).spec_check(token_type),
            r ==> final(self).spec_index() == old(self).spec_index() + 1,
            !r ==> final(self).spec_index() == old(self).spec_index(),
    {
        if self.tokens.len() > self.index && self.tokens[self.index].token_type == token_type {
            self.advance();
            true
        } else {
            false
        }
    }

    /// The type of the current token.
    pub fn get_current_token_type(&self) -> (t: TokenType)
        requires
            self.spec_index() < self.spec_tokens().len(),
        ensures
            t == self.spec_tokens()[self.spec_index() as int].token_type,
    {
        self.tokens[self.index].token_type
    }

    /// The current token exists and has the type `token_type`.
    pub fn check(&self, token_type: TokenType) -> (r: bool)
        ensures
            r == self.spec_check(token_type),
    {
        self.tokens.len() > self.index && self.tokens[self.index].token_type == token_type
    }

    /// The token after the current one exists and has the type `token_type`.
    pub fn next_token_type(&self, token_type: TokenType) -> (r: bool)
        ensures
            r == (self.spec_index() + 1 < self.spec_tokens().len() && self.spec_tokens()[self.spec_index() + 1].token_type
                == token_type),
    {
        self.tokens.len() > 0 && self.index < self.tokens.len() - 1 && self.tokens[self.index + 1].token_type
            == token_type
    }
}

/// The kinds of inner nodes of a Cypher syntax tree.
#[derive(Clone, Copy, Debug, PartialEq, Eq, Structural)]
pub enum AstTag {
    Query,
    Create,
    Match,
    OptionalMatch,
    Return,
    Where,
    With,
    Path,
    Node,
    RelDirectedLR,
    RelDirectedRL,
    RelUndirected,
    Label,
    Variable,
    Property,
    Properties,
    Function,
    FunctionArg,
    Item,
    AndOperator,
    OrOperator,
    EqualityOperator,
}

/// A leaf of a syntax tree: a token of the query.
#[derive(Debug)]
pub struct AstTokenNode {
    pub token_id: usize,
    pub token_value: String,
    pub token_type: TokenType,
}

/// An inner node of a syntax tree.
#[derive(Debug)]
pub struct AstTagNode {
    pub ast_tag: Option<AstTag>,
    pub childs: Vec<AstNode>,
}

/// A node of a syntax tree.
#[derive(Debug)]
pub enum AstNode {
    Tag(AstTagNode),
    Token(AstTokenNode),
}

/// Why a visitor stopped the walk over a syntax tree.
#[derive(Debug, PartialEq, Eq, Structural)]
pub enum AstVisitorError {
    SyntaxError,
}

pub type AstVisitorResult = Result<(), AstVisitorError>;

/// What is done with each node of a syntax tree: `accept` when the walk
/// reaches it, `accept_exit` once its children have been walked.
pub trait AstVisitor: Sized {
    /// Visiting `node` (on the way back up where `leaving`), the visitor may
    /// answer `res` and become `after`. A visitor that says nothing of its
    /// visits may do anything.
    closed spec fn visits(&self, node: AstNode, leaving: bool, res: AstVisitorResult, after: Self) -> bool {
        true
    }

    fn accept(&mut self, node: &AstNode) -> (res: AstVisitorResult)
        ensures
            old(self).visits(*node, false, res, *final(self)),
    ;

    fn accept_exit(&mut self, node: &AstNode) -> (res: AstVisitorResult)
        ensures
            old(self).visits(*node, true, res, *final(self)),
    ;
}

/// The number of children of `ast`.
pub open spec fn child_count(ast: AstNode) -> nat {
    match ast {
        AstNode::Tag(t) => t.childs@.len(),
        AstNode::Token(_) => 0,
    }
}

/// The visits of a depth-first walk over `ast`, in order: each node with
/// `false` on the way down and `true` on the way back up.
pub open spec fn walk_events(ast: AstNode) -> Seq<(AstNode, bool)>
    decreases ast, child_count(ast) + 1,
{
    seq![(ast, false)] + children_events(ast, child_count(ast) as int) + seq![(ast, true)]
}

/// The visits of the walks over the first `n` children of `ast`, one after
/// another.
pub open spec fn children_events(ast: AstNode, n: int) -> Seq<(AstNode, bool)>
    decreases ast, n,
{
    match ast {
        AstNode::Tag(t) => if n <= 0 || n > t.childs@.len() {
            Seq::empty()
        } else {
            children_events(ast, n - 1) + walk_events(t.childs@[n - 1])
        },
        AstNode::Token(_) => Seq::empty(),
    }
}

/// The walks over the first `m` children come first among those over the
/// first `n`.
proof fn lemma_children_events_prefix(ast: AstNode, m: int, n: int)
    requires
        0 <= m <= n <= child_count(ast),
    ensures
        children_events(ast, m).len() <= children_events(ast, n).len(),
        forall|j: int| 0 <= j < children_events(ast, m).len() ==> #[trigger] children_events(ast, n)[j] == children_events(ast, m)[j],
    decreases n - m,
{
    if m < n {
        lemma_children_events_prefix(ast, m, n - 1);
    }
}

/// The number of nodes of the tree `ast`.
pub open spec fn tree_size(ast: AstNode) -> nat
    decreases ast, child_count(ast) + 1,
{
    1 + forest_size(ast, child_count(ast) as int)
}

/// The number of nodes of the subtrees of the first `k` children of `ast`.
pub open spec fn forest_size(ast: AstNode, k: int) -> nat
    decreases ast, k,
{
    match ast {
        AstNode::Tag(t) => if k <= 0 || k > t.childs@.len() {
            0
        } else {
            forest_size(ast, k - 1) + tree_size(t.childs@[k - 1])
        },
        AstNode::Token(_) => 0,
    }
}

proof fn lemma_walk_len(ast: AstNode)
    ensures
        walk_events(ast).len() == 2 * tree_size(ast),
    decreases ast, child_count(ast) + 1,
{
    lemma_children_len(ast, child_count(ast) as int);
}

proof fn lemma_children_len(ast: AstNode, k: int)
    ensures
        children_events(ast, k).len() == 2 * forest_size(ast, k),
    decreases ast, k,
{
    match ast {
        AstNode::Tag(t) => if !(k <= 0 || k > t.childs@.len()) {
            lemma_children_len(ast, k - 1);
            lemma_walk_len(t.childs@[k - 1]);
        },
        AstNode::Token(_) => {},
    }
}

/// A depth-first walk enters and leaves every node of the tree once: it
/// makes twice as many visits as the tree has nodes, starts by entering the
/// root and ends by leaving it, and the walk over each child of the root,
/// every child in order, stands whole in it, right after the walks over the
/// children before it.
pub proof fn lemma_walk_covers_tree(ast: AstNode)
    ensures
        walk_events(ast).len() == 2 * tree_size(ast),
        walk_events(ast)[0] == (ast, false),
        walk_events(ast)[walk_events(ast).len() - 1] == (ast, true),
        forall|i: int|
            0 <= i < child_count(ast) ==> walk_events(ast).subrange(
                1 + 2 * forest_size(ast, i) as int,
                1 + 2 * forest_size(ast, i) + 2 * tree_size(ast->Tag_0.childs@[i]) as int,
            ) == #[trigger] walk_events(ast->Tag_0.childs@[i]),
{
    lemma_walk_len(ast);
    let n = child_count(ast) as int;
    let c = children_events(ast, n);
    lemma_children_len(ast, n);
    assert(walk_events(ast) == seq![(ast, false)] + c + seq![(ast, true)]);
    assert forall|i: int| 0 <= i < child_count(ast) implies walk_events(ast).subrange(
        1 + 2 * forest_size(ast, i) as int,
        1 + 2 * forest_size(ast, i) + 2 * tree_size(ast->Tag_0.childs@[i]) as int,
    ) == #[trigger] walk_events(ast->Tag_0.childs@[i]) by {
        let child = ast->Tag_0.childs@[i];
        lemma_children_len(ast, i);
        lemma_children_len(ast, i + 1);
        lemma_walk_len(child);
        lemma_children_events_prefix(ast, i + 1, n);
        let ci = children_events(ast, i);
        assert(children_events(ast, i + 1) == ci + walk_events(child));
        let off: int = 1 + 2 * forest_size(ast, i) as int;
        assert forall|t: int| 0 <= t < walk_events(child).len() implies walk_events(ast)[off + t] == walk_events(child)[t] by {
            assert(walk_events(ast)[off + t] == c[off - 1 + t]);
            assert(c[off - 1 + t] == children_events(ast, i + 1)[off - 1 + t]);
        }
        assert(walk_events(ast).subrange(off, off + 2 * tree_size(child) as int) =~= walk_events(child));
    }
}

/// `states[0]`, making the first `results.len()` of the visits `events` one
/// after another, answered `results`, passing through `states`.
pub open spec fn visit_run<V: AstVisitor>(
    events: Seq<(AstNode, bool)>,
    states: Seq<V>,
    results: Seq<AstVisitorResult>,
) -> bool {
    &&& states.len() == results.len() + 1
    &&& results.len() <= events.len()
    &&& forall|j: int|
        0 <= j < results.len() ==> #[trigger] states[j].visits(events[j].0, events[j].1, results[j], states[j + 1])
}

/// A walk over `ast` that found the visitor `v0` gave `res` and left `v1`:
/// the visitor made the visits of [`walk_events`] in order, each answered
/// `Ok` but the last, whose answer is `res`; an `Ok` there means that all
/// were made.
pub open spec fn walked<V: AstVisitor>(ast: AstNode, v0: V, res: AstVisitorResult, v1: V) -> bool {
    exists|states: Seq<V>, results: Seq<AstVisitorResult>|
        {
            &&& #[trigger] visit_run(walk_events(ast), states, results)
            &&& states[0] == v0
            &&& states.last() == v1
            &&& results.len() > 0
            &&& res == results.last()
            &&& forall|j: int| 0 <= j < results.len() - 1 ==> #[trigger] results[j] is Ok
            &&& res is Ok ==> results.len() == walk_events(ast).len()
        }
}

/// Walks the syntax tree `ast` depth first: accepts a node, walks its
/// children in order, then accepts its exit; stops at the first error a
/// visit returns and returns it.
pub fn walk_ast<V: AstVisitor>(visitor: &mut V, ast: &AstNode) -> (res: AstVisitorResult)
    ensures
        walked(*ast, *old(visitor), res, *final(visitor)),
    decreases ast,
{
    let ghost v0 = *visitor;
    let ghost events = walk_events(*ast);
    let first = visitor.accept(ast);
    let ghost mut states: Seq<V> = seq![v0, *visitor];
    let ghost mut results: Seq<AstVisitorResult> = seq![first];
    proof {
        assert(events[0] == (*ast, false));
        assert(visit_run(events, states, results));
    }
    if let Err(e) = first {
        return Err(e);
    }
    if let AstNode::Tag(tag) = ast {
        let mut i: usize = 0;
        while i < tag.childs.len()
            invariant
                *ast == AstNode::Tag(*tag),
                0 <= i <= tag.childs@.len(),
                events == walk_events(*ast),
                visit_run(events, states, results),
                v0 == *old(visitor),
                states[0] == v0,
                states.last() == *visitor,
                results.len() == 1 + children_events(*ast, i as int).len(),
                forall|j: int| 0 <= j < results.len() ==> #[trigger] results[j] is Ok,
            decreases tag.childs@.len() - i,
        {
            assert(decreases_to!(ast => ast->Tag_0));
            assert(decreases_to!(ast->Tag_0 => ast->Tag_0.childs));
            assert(decreases_to!(tag.childs => tag.childs@));
            assert(decreases_to!(tag.childs@ => tag.childs@[i as int]));
            let ghost child = tag.childs@[i as int];
            let ghost before = *visitor;
            let r = walk_ast(visitor, &tag.childs[i]);
            proof {
                let (cs, crs) = choose|cs: Seq<V>, crs: Seq<AstVisitorResult>|
                    {
                        &&& #[trigger] visit_run(walk_events(child), cs, crs)
                        &&& cs[0] == before
                        &&& cs.last() == *visitor
                        &&& crs.len() > 0
                        &&& r == crs.last()
                        &&& forall|j: int| 0 <= j < crs.len() - 1 ==> #[trigger] crs[j] is Ok
                        &&& r is Ok ==> crs.len() == walk_events(child).len()
                    };
                let off = results.len() as int;
                let n = tag.childs@.len() as int;
                lemma_children_events_prefix(*ast, i + 1, n);
                let pre = children_events(*ast, i as int);
                let ce = walk_events(child);
                assert(children_events(*ast, i + 1) == pre + ce);
                assert forall|t: int| 0 <= t < ce.len() implies #[trigger] events[off + t] == ce[t] by {
                    assert(children_events(*ast, n)[pre.len() + t] == children_events(*ast, i + 1)[pre.len() + t]);
                }
                let ns = states + cs.skip(1);
                let nr = results + crs;
                assert forall|j: int| 0 <= j < nr.len() implies #[trigger] ns[j].visits(events[j].0, events[j].1, nr[j], ns[j + 1]) by {
                    if j < off {
                        assert(states[j].visits(events[j].0, events[j].1, results[j], states[j + 1]));
                        if j + 1 == off {
                            assert(ns[j + 1] == cs[0]);
                        }
                    } else {
                        let t = j - off;
                        assert(cs[t].visits(ce[t].0, ce[t].1, crs[t], cs[t + 1]));
                        assert(events[off + t] == ce[t]);
                    }
                }
                assert(visit_run(events, ns, nr));
                assert(ns.last() == cs.last());
                assert(nr.last() == r);
                assert forall|j: int| 0 <= j < nr.len() - 1 implies #[trigger] nr[j] is Ok by {
                    if j >= off {
                        assert(nr[j] == crs[j - off]);
                        if r is Ok && j - off == crs.len() - 1 {
                            assert(crs[j - off] == r);
                        }
                    }
                }
                if r is Ok {
                    assert forall|j: int| 0 <= j < nr.len() implies #[trigger] nr[j] is Ok by {
                        if j == nr.len() - 1 {
                            assert(nr[j] == r);
                        }
                    }
                    assert(nr.len() == 1 + children_events(*ast, i + 1).len());
                }
                states = ns;
                results = nr;
            }
            if let Err(e) = r {
                proof {
                    assert(walk_events(*ast) == events);
                    assert(visit_run(walk_events(*ast), states, results));
                }
                return Err(e);
            }
            i = i + 1;
        }
    }
    proof {
        assert(children_events(*ast, child_count(*ast) as int).len() + 1 == results.len());
        assert(events[results.len() as int] == (*ast, true));
    }
    let last = visitor.accept_exit(ast);
    proof {
        let ns = states.push(*visitor);
        let nr = results.push(last);
        assert forall|j: int| 0 <= j < nr.len() implies #[trigger] ns[j].visits(events[j].0, events[j].1, nr[j], ns[j + 1]) by {
            if j < results.len() {
                assert(states[j].visits(events[j].0, events[j].1, results[j], states[j + 1]));
            }
        }
        assert(visit_run(walk_events(*ast), ns, nr));
        assert(ns[0] == v0);
        assert(ns.last() == *visitor);
        assert(nr.last() == last);
        assert forall|j: int| 0 <= j < nr.len() - 1 implies #[trigger] nr[j] is Ok by {
            assert(nr[j] == results[j]);
        }
        assert(nr.len() == events.len());
        assert(walked(*ast, v0, last, *visitor));
    }
    last
}

/// The syntax-tree leaf for the token just before the current position.
pub fn make_ast_token(parser: &Parser) -> (node: Box<AstTokenNode>)
    requires
        1 <= parser.spec_index() <= parser.spec_tokens().len(),
    ensures
        node.token_id == parser.spec_index() - 1,
        node.token_value@ == parser.spec_tokens()[parser.spec_index() - 1].content@,
        node.token_type == parser.spec_tokens()[parser.spec_index() - 1].token_type,
{
    let token_id = parser.index - 1;
    let token = &parser.get_tokens()[token_id];
    Box::new(AstTokenNode { token_id, token_value: token.content.clone(), token_type: token.token_type })
}

/// A syntax-tree node of kind `tag`, with no children yet.
pub fn make_ast_tag(tag: AstTag) -> (node: Box<AstTagNode>)
    ensures
        node.ast_tag == Some(tag),
        node.childs@.len() == 0,
{
    Box::new(AstTagNode { ast_tag: Some(tag), childs: Vec::new() })
}

} // verus!
