use zawgl::parser::{
    make_ast_tag, make_ast_token, walk_ast, AstNode, AstTag, AstTagNode, AstTokenNode, AstVisitor, AstVisitorError,
    AstVisitorResult, Parser, ParserError, Token, TokenType,
};

fn tok(t: TokenType, c: &str) -> Token {
    Token { token_type: t, content: c.to_string() }
}

fn tokens() -> Vec<Token> {
    vec![tok(TokenType::Create, "CREATE"), tok(TokenType::OpenParenthesis, "("), tok(TokenType::Identifier, "n"), tok(TokenType::CloseParenthesis, ")")]
}

#[test]
fn require_moves_on_the_expected_token() {
    let mut p = Parser::new(tokens());
    assert_eq!(p.require(TokenType::Create), Ok(1));
    assert_eq!(p.require(TokenType::Identifier), Err(ParserError::SyntaxError(1)));
    assert_eq!(p.index, 1);
    assert_eq!(p.get_current_token_type(), TokenType::OpenParenthesis);
    assert!(p.next_token_type(TokenType::Identifier));
    assert!(!p.next_token_type(TokenType::Create));
}

#[test]
fn checks_at_the_end_of_the_tokens() {
    let mut p = Parser::new(tokens());
    assert!(p.has_next());
    p.index = 3;
    assert!(!p.has_next());
    assert!(p.check(TokenType::CloseParenthesis));
    assert!(!p.next_token_type(TokenType::CloseParenthesis));
    assert!(p.current_token_type_advance(TokenType::CloseParenthesis));
    assert_eq!(p.index, 4);
    assert!(!p.check(TokenType::CloseParenthesis));
    assert!(!p.current_token_type_advance(TokenType::CloseParenthesis));
    assert_eq!(p.index, 4);
    assert_eq!(p.get_tokens().len(), 4);
}

#[test]
fn ast_leaves_and_tags() {
    let mut p = Parser::new(tokens());
    p.advance();
    p.advance();
    let leaf = make_ast_token(&p);
    assert_eq!(leaf.token_id, 1);
    assert_eq!(leaf.token_value, "(");
    assert_eq!(leaf.token_type, TokenType::OpenParenthesis);
    let tag = make_ast_tag(AstTag::Node);
    assert_eq!(tag.ast_tag, Some(AstTag::Node));
    assert!(tag.childs.is_empty());
}

struct Trace {
    events: Vec<String>,
    fail_on: Option<usize>,
}

fn name(node: &AstNode) -> String {
    match node {
        AstNode::Tag(t) => format!("{:?}", t.ast_tag),
        AstNode::Token(t) => t.token_value.clone(),
    }
}

impl AstVisitor for Trace {
    fn accept(&mut self, node: &AstNode) -> AstVisitorResult {
        self.events.push(format!("in {}", name(node)));
        if let AstNode::Token(t) = node {
            if Some(t.token_id) == self.fail_on {
                return Err(AstVisitorError::SyntaxError);
            }
        }
        Ok(())
    }

    fn accept_exit(&mut self, node: &AstNode) -> AstVisitorResult {
        self.events.push(format!("out {}", name(node)));
        Ok(())
    }
}

fn tree() -> AstNode {
    let leaf = |id: usize, v: &str| AstNode::Token(AstTokenNode { token_id: id, token_value: v.to_string(), token_type: TokenType::Identifier });
    AstNode::Tag(AstTagNode {
        ast_tag: Some(AstTag::Query),
        childs: vec![leaf(0, "a"), AstNode::Tag(AstTagNode { ast_tag: Some(AstTag::Node), childs: vec![leaf(1, "b")] })],
    })
}

#[test]
fn walk_visits_depth_first() {
    let mut v = Trace { events: vec![], fail_on: None };
    assert!(walk_ast(&mut v, &tree()).is_ok());
    assert_eq!(
        v.events,
        vec!["in Some(Query)", "in a", "out a", "in Some(Node)", "in b", "out b", "out Some(Node)", "out Some(Query)"]
    );
}

#[test]
fn walk_stops_at_the_first_error() {
    let mut v = Trace { events: vec![], fail_on: Some(0) };
    assert_eq!(walk_ast(&mut v, &tree()), Err(AstVisitorError::SyntaxError));
    assert_eq!(v.events, vec!["in Some(Query)", "in a"]);
}
