use codecrafters_interpreter::environment::Environment;
use codecrafters_interpreter::expression::{Expression, LiteralExpr, VariableExpr};
use codecrafters_interpreter::interpret::{interpret_single_expr, is_equal, is_truthy, parenthesize, Interpreter};
use codecrafters_interpreter::number::{NumberAnswer, NumberQuery, Numeric};
use codecrafters_interpreter::parse::{parse, parse_print_single_expr, ParserError};
use codecrafters_interpreter::scan::{tokenize, Scanner};
use codecrafters_interpreter::token::{
    decimal_text, BooleanLiteral, LiteralType, LiteralValue, NilLiteral, NumberLiteral, StringLiteral, Token,
};
use codecrafters_interpreter::{keyword, TokenType};

/// Numbers as 64-bit floats, printed with Rust's shortest round-trip form.
#[derive(Debug, Clone, Copy, PartialEq)]
struct F(f64);

impl Numeric for F {
    // a specification-only item of the trait, never called at run time
    fn answer(_query: NumberQuery<Self>) -> NumberAnswer<Self> {
        unreachable!()
    }
    fn from_numeral(text: &str) -> Self {
        F(text.parse().unwrap())
    }
    fn text(&self) -> String {
        format!("{}", self.0)
    }
    fn duplicate(&self) -> Self {
        *self
    }
    fn neg(&self) -> Self {
        F(-self.0)
    }
    fn add(&self, other: &Self) -> Self {
        F(self.0 + other.0)
    }
    fn sub(&self, other: &Self) -> Self {
        F(self.0 - other.0)
    }
    fn mul(&self, other: &Self) -> Self {
        F(self.0 * other.0)
    }
    fn div(&self, other: &Self) -> Self {
        F(self.0 / other.0)
    }
    fn greater(&self, other: &Self) -> bool {
        self.0 > other.0
    }
    fn greater_equal(&self, other: &Self) -> bool {
        self.0 >= other.0
    }
    fn less(&self, other: &Self) -> bool {
        self.0 < other.0
    }
    fn less_equal(&self, other: &Self) -> bool {
        self.0 <= other.0
    }
}

fn tokens(source: &str) -> Vec<Token<F>> {
    match tokenize::<F>(source.to_string()) {
        Ok(s) => s.tokens,
        Err(s) => panic!("lexical errors: {}", s.errors.len()),
    }
}

fn listing(source: &str) -> Vec<String> {
    tokens(source).iter().map(|t| t.to_string()).collect()
}

fn render(source: &str) -> String {
    match parse_print_single_expr(tokens(source)) {
        Ok(e) => e.accept(),
        Err(e) => panic!("syntax error: {}", e.message()),
    }
}

/// Evaluates one expression in a fresh environment and gives its printed form.
fn evaluate(source: &str) -> Result<Option<String>, (String, usize)> {
    let expr = parse_print_single_expr(tokens(source)).ok().expect("parses");
    let mut env = Environment::new(None);
    interpret_single_expr(&expr, &mut env).map_err(|e| (e.message, e.token.line))
}

/// Runs a program and gives the printed lines and the runtime error, if any.
fn run(source: &str) -> (Vec<String>, Option<(String, usize)>) {
    let stmts = match parse(tokens(source)) {
        Ok(s) => s,
        Err(e) => panic!("syntax error: {}", e.message()),
    };
    let mut interpreter = Interpreter::new(stmts);
    let r = interpreter.interpret();
    (interpreter.output.clone(), r.err().map(|e| (e.message, e.token.line)))
}

fn parse_error(source: &str) -> String {
    match parse(tokens(source)) {
        Ok(_) => panic!("expected a syntax error"),
        Err(e) => e.message(),
    }
}

#[test]
fn number_literal_scans_to_its_value() {
    let ts = tokens("123");
    assert_eq!(ts.len(), 2);
    assert_eq!(ts[0].token_type, TokenType::Number);
    assert_eq!(ts[0].lexeme, "123");
    match &ts[0].literal {
        Some(LiteralValue::Number(n)) => assert_eq!(n.value.0, 123.0),
        _ => panic!("expected a number literal"),
    }
    let printed = ts[0].literal.as_ref().unwrap().print_value();
    assert_eq!(printed.parse::<f64>().unwrap(), 123.0);
    assert_eq!(ts[1].token_type, TokenType::Eof);
}

#[test]
fn decimal_literal_scans_to_its_value() {
    let ts = tokens("12.50");
    assert_eq!(ts[0].lexeme, "12.50");
    assert_eq!(ts[0].literal.as_ref().unwrap().print_value(), "12.5");
    assert_eq!(listing("0.5"), vec!["NUMBER 0.5 0.5", "EOF  null"]);
}

#[test]
fn trailing_dot_is_not_part_of_a_number() {
    assert_eq!(listing("1."), vec!["NUMBER 1 1", "DOT . null", "EOF  null"]);
}

#[test]
fn token_listing() {
    assert_eq!(
        listing("(){};,+-*!===<=>=!=<>/."),
        vec![
            "LEFT_PAREN ( null",
            "RIGHT_PAREN ) null",
            "LEFT_BRACE { null",
            "RIGHT_BRACE } null",
            "SEMICOLON ; null",
            "COMMA , null",
            "PLUS + null",
            "MINUS - null",
            "STAR * null",
            "BANG_EQUAL != null",
            "EQUAL_EQUAL == null",
            "LESS_EQUAL <= null",
            "GREATER_EQUAL >= null",
            "BANG_EQUAL != null",
            "LESS < null",
            "GREATER > null",
            "SLASH / null",
            "DOT . null",
            "EOF  null",
        ]
    );
}

#[test]
fn keywords_and_identifiers() {
    assert_eq!(
        listing("var and_1 = nil; While while _x"),
        vec![
            "VAR var null",
            "IDENTIFIER and_1 null",
            "EQUAL = null",
            "NIL nil null",
            "SEMICOLON ; null",
            "IDENTIFIER While null",
            "WHILE while null",
            "IDENTIFIER _x null",
            "EOF  null",
        ]
    );
    assert_eq!(keyword(&"class".to_string()), Some(TokenType::Class));
    assert_eq!(keyword(&"Class".to_string()), None);
}

#[test]
fn comments_and_lines() {
    let ts = tokens("// a comment\n1 / 2 // more\n\"a\nb\" x");
    let kinds: Vec<TokenType> = ts.iter().map(|t| t.token_type).collect();
    assert_eq!(
        kinds,
        vec![
            TokenType::Number,
            TokenType::Slash,
            TokenType::Number,
            TokenType::String,
            TokenType::Identifier,
            TokenType::Eof
        ]
    );
    assert_eq!(ts[0].line, 2);
    assert_eq!(ts[3].line, 4);
    assert_eq!(ts[3].literal.as_ref().unwrap().print_value(), "a\nb");
    assert_eq!(ts[4].line, 4);
}

#[test]
fn empty_source_gives_only_end() {
    assert_eq!(listing(""), vec!["EOF  null"]);
}

#[test]
fn unterminated_string_is_reported() {
    match tokenize::<F>("\"a".to_string()) {
        Ok(_) => panic!("expected a lexical error"),
        Err(s) => {
            assert!(s.has_error);
            assert_eq!(s.errors.len(), 1);
            assert_eq!(s.errors[0].message, "Unterminated string.");
            assert_eq!(s.errors[0].line, 1);
            assert_eq!(s.tokens.last().unwrap().token_type, TokenType::Eof);
        }
    }
}

#[test]
fn unterminated_string_keeps_its_start_line() {
    match tokenize::<F>("x\n\"a\nb\nc".to_string()) {
        Ok(_) => panic!("expected a lexical error"),
        Err(s) => {
            assert_eq!(s.errors[0].line, 2);
            assert_eq!(s.tokens.last().unwrap().line, 2);
        }
    }
}

#[test]
fn unknown_characters_are_all_reported() {
    match tokenize::<F>("@ 1 $\n#".to_string()) {
        Ok(_) => panic!("expected lexical errors"),
        Err(s) => {
            let errs: Vec<(usize, String)> = s.errors.iter().map(|e| (e.line, e.message.clone())).collect();
            assert_eq!(
                errs,
                vec![
                    (1, "Unexpected character: @".to_string()),
                    (1, "Unexpected character: $".to_string()),
                    (2, "Unexpected character: #".to_string()),
                ]
            );
            assert_eq!(s.tokens[0].token_type, TokenType::Number);
        }
    }
}

#[test]
fn scanning_reads_grapheme_clusters() {
    // a letter with a combining accent is one text element, and holds a letter
    let ts = tokens("e\u{301}x");
    assert_eq!(ts[0].token_type, TokenType::Identifier);
    assert_eq!(ts[0].lexeme, "e\u{301}x");
    // a precomposed accented letter holds no ASCII letter
    match tokenize::<F>("\u{e9}".to_string()) {
        Ok(_) => panic!("expected a lexical error"),
        Err(s) => assert_eq!(s.errors[0].message, "Unexpected character: \u{e9}"),
    }
}

#[test]
fn scanner_from_text_elements() {
    let mut s: Scanner<F> = Scanner::from_graphemes(vec!["1".to_string(), "+".to_string(), "x".to_string()]);
    s.scan_tokens();
    let kinds: Vec<TokenType> = s.tokens.iter().map(|t| t.token_type).collect();
    assert_eq!(kinds, vec![TokenType::Number, TokenType::Plus, TokenType::Identifier, TokenType::Eof]);
    assert!(!s.has_error);
}

#[test]
fn rendering_follows_precedence() {
    assert_eq!(render("1 + 2 * 3"), "(+ 1 (* 2 3))");
}

#[test]
fn rendering_is_left_associative() {
    assert_eq!(render("1 - 2 - 3"), "(- (- 1 2) 3)");
    assert_eq!(render("1 < 2 == true"), "(== (< 1 2) true)");
}

#[test]
fn rendering_of_groups_unary_and_literals() {
    assert_eq!(render("-(1.5) * !nil"), "(* (- (group 1.5)) (! nil))");
    assert_eq!(render("\"hi\" != false"), "(!= hi false)");
    assert_eq!(render("a = b = 1"), "a = b = 1");
}

#[test]
fn parenthesize_joins_parts() {
    assert_eq!(parenthesize("+", vec!["1".to_string(), "2".to_string()]), "(+ 1 2)");
    assert_eq!(parenthesize("group", vec![]), "(group)");
}

#[test]
fn truthiness() {
    assert!(!is_truthy(&LiteralValue::<F>::Nil(NilLiteral)));
    assert!(!is_truthy(&LiteralValue::<F>::Boolean(BooleanLiteral { value: false })));
    assert!(is_truthy(&LiteralValue::<F>::Boolean(BooleanLiteral { value: true })));
    assert!(is_truthy(&LiteralValue::Number(NumberLiteral { value: F(0.0) })));
    assert!(is_truthy(&LiteralValue::<F>::String(StringLiteral { value: String::new() })));
    assert!(is_truthy(&LiteralValue::<F>::String(StringLiteral { value: "a".to_string() })));
    assert_eq!(evaluate("!0"), Ok(Some("false".to_string())));
    assert_eq!(evaluate("!\"\""), Ok(Some("false".to_string())));
    assert_eq!(evaluate("!nil"), Ok(Some("true".to_string())));
    assert_eq!(evaluate("!!false"), Ok(Some("false".to_string())));
}

#[test]
fn equality_is_type_sensitive() {
    assert_eq!(evaluate("\"1\" == 1"), Ok(Some("false".to_string())));
    assert_eq!(evaluate("\"1\" != 1"), Ok(Some("true".to_string())));
    assert_eq!(evaluate("1 == 1.0"), Ok(Some("true".to_string())));
    assert_eq!(evaluate("nil == nil"), Ok(Some("true".to_string())));
    assert_eq!(evaluate("\"nil\" == nil"), Ok(Some("false".to_string())));
    let s = LiteralValue::<F>::String(StringLiteral { value: "true".to_string() });
    let b = LiteralValue::<F>::Boolean(BooleanLiteral { value: true });
    assert!(!is_equal(&s, &b));
    assert_eq!(s.get_type(), LiteralType::StringLiteral);
}

#[test]
fn inner_shadow_does_not_leak() {
    let (out, err) = run("var a = 1; { var a = 2; } print a;");
    assert_eq!(out, vec!["1"]);
    assert_eq!(err, None);
}

#[test]
fn assignment_reaches_outer_scopes() {
    let (out, err) = run("var a = 1; { { a = 2; print a; } } print a;");
    assert_eq!(out, vec!["2", "2"]);
    assert_eq!(err, None);
}

#[test]
fn block_scope_is_restored_after_an_error() {
    let (out, err) = run("var a = 1;\n{ var a = 2; print a; print b; }");
    assert_eq!(out, vec!["2"]);
    assert_eq!(err, Some(("Undefined variable 'b'.".to_string(), 2)));
}

#[test]
fn undefined_variable_read_cites_its_line() {
    let (out, err) = run("print 1;\n\nprint x;\nprint 2;");
    assert_eq!(out, vec!["1"]);
    assert_eq!(err, Some(("Undefined variable 'x'.".to_string(), 3)));
}

#[test]
fn undefined_variable_assignment_cites_its_line() {
    let (out, err) = run("\ny = 1;");
    assert!(out.is_empty());
    assert_eq!(err, Some(("Undefined variable 'y'.".to_string(), 2)));
}

#[test]
fn plus_type_rule() {
    assert_eq!(evaluate("1 + \"a\""), Err(("Operands must be numbers or strings.".to_string(), 1)));
    assert_eq!(evaluate("\"a\" + \"b\""), Ok(Some("ab".to_string())));
    assert_eq!(evaluate("1 + 2"), Ok(Some("3".to_string())));
}

#[test]
fn arithmetic_needs_numbers() {
    assert_eq!(evaluate("\"a\" - \"b\""), Err(("Operands must be numbers.".to_string(), 1)));
    assert_eq!(evaluate("true * 2"), Err(("Operands must be numbers.".to_string(), 1)));
    assert_eq!(evaluate("1 < \"2\""), Err(("Operands must be numbers.".to_string(), 1)));
    assert_eq!(evaluate("-\"a\""), Err(("Operand must be a number.".to_string(), 1)));
}

#[test]
fn arithmetic_and_comparison() {
    assert_eq!(evaluate("(5 - (3 - 1)) + -1"), Ok(Some("2".to_string())));
    assert_eq!(evaluate("7 / 2"), Ok(Some("3.5".to_string())));
    assert_eq!(evaluate("1 / 0"), Ok(Some("inf".to_string())));
    assert_eq!(evaluate("2 >= 2"), Ok(Some("true".to_string())));
    assert_eq!(evaluate("2 > 2"), Ok(Some("false".to_string())));
    assert_eq!(evaluate("1 <= 0"), Ok(Some("false".to_string())));
}

#[test]
fn program_prints_concatenation() {
    let (out, err) = run("var x = \"a\" + \"b\"; print x;");
    assert_eq!(out, vec!["ab"]);
    assert_eq!(err, None);
}

#[test]
fn uninitialised_variable_prints_nil() {
    let (out, err) = run("var a; print a; a = 3; print a;");
    assert_eq!(out, vec!["nil", "3"]);
    assert_eq!(err, None);
}

#[test]
fn runtime_error_stops_the_program() {
    let (out, err) = run("print 1; print -true; print 2;");
    assert_eq!(out, vec!["1"]);
    assert_eq!(err, Some(("Operand must be a number.".to_string(), 1)));
}

#[test]
fn syntax_errors() {
    assert_eq!(parse_error("print 1"), "Missing semicolon after NUMBER 1 1");
    assert_eq!(parse_error("print 1 2;"), "Missing semicolon after NUMBER 1 1");
    assert_eq!(parse_error("var a = 1 var b;"), "Missing semicolon after NUMBER 1 1");
    assert_eq!(parse_error("var a b;"), "Missing semicolon after IDENTIFIER a null");
    assert_eq!(parse_error("print (1;"), "at SEMICOLON ; null: Undisclosed delimiter");
    assert_eq!(parse_error("print );"), "at RIGHT_PAREN ) null: Unexpected token");
    assert_eq!(parse_error("1 = 2;"), "at EQUAL = null: Invalid assignment target");
    assert_eq!(parse_error("{ print 1;"), "at end: Undisclosed delimiter");
    assert_eq!(parse_error("var 1;"), "at NUMBER 1 1: Undisclosed delimiter");
}

#[test]
fn parser_error_kinds() {
    let ts = tokens("(1");
    match parse_print_single_expr(ts) {
        Err(ParserError::UndisclosedDelimiter(t)) => assert_eq!(t.token_type, TokenType::Eof),
        _ => panic!("expected a delimiter error"),
    }
    match parse(tokens("print 1")) {
        Err(ParserError::NoSemicolon(t)) => {
            assert_eq!(t.token_type, TokenType::Number);
            assert_eq!(t.lexeme, "1");
        }
        _ => panic!("expected a missing semicolon"),
    }
}

#[test]
fn environment_define_get_assign() {
    let name = Token::<F>::new(TokenType::Identifier, "a".to_string(), None, 4);
    let mut global = Environment::new(None);
    global.define("a".to_string(), Some(LiteralValue::Number(NumberLiteral { value: F(1.0) })));
    let mut inner = Environment::new(Some(global));
    inner.define("a".to_string(), None);
    assert!(inner.get(&name).ok().unwrap().is_none());
    inner.assign(&name, Some(LiteralValue::Boolean(BooleanLiteral { value: true }))).ok().unwrap();
    let outer = inner.enclosing().unwrap();
    match outer.get(&name).ok().unwrap() {
        Some(LiteralValue::Number(n)) => assert_eq!(n.value.0, 1.0),
        _ => panic!("the outer binding must be untouched"),
    }
    let missing = Token::<F>::new(TokenType::Identifier, "b".to_string(), None, 9);
    let e = outer.get(&missing).err().unwrap();
    assert_eq!(e.message, "Undefined variable 'b'.");
    assert_eq!(e.token.line, 9);
    assert!(outer.enclosing().is_none());
}

#[test]
fn expression_nodes_report_kind_and_token() {
    let name = Token::<F>::new(TokenType::Identifier, "v".to_string(), None, 1);
    let e = Expression::Variable(VariableExpr::new(name));
    assert_eq!(e.get_token().unwrap().lexeme, "v");
    let l = Expression::<F>::Literal(LiteralExpr::new(LiteralValue::Nil(NilLiteral)));
    assert!(l.get_token().is_none());
    assert_eq!(l.accept(), "nil");
}

#[test]
fn error_reports() {
    let (_, err) = run("\n\n\n\n\n\n\n\n\n\nprint -nil;");
    assert_eq!(err, Some(("Operand must be a number.".to_string(), 11)));
    let stmts = parse(tokens("\n\n\n\n\n\n\n\n\n\nprint -nil;")).ok().unwrap();
    let mut interpreter = Interpreter::new(stmts);
    let e = interpreter.interpret().err().unwrap();
    assert_eq!(e.report(), "Operand must be a number.\n[line 11]");
    match tokenize::<F>("\n\n%".to_string()) {
        Ok(_) => panic!("expected a lexical error"),
        Err(s) => assert_eq!(s.errors[0].report(), "[line 3] Error: Unexpected character: %"),
    }
}

#[test]
fn scanner_listing() {
    match tokenize::<F>("var s = \"hi\";".to_string()) {
        Ok(s) => assert_eq!(
            s.to_string(),
            "VAR var null\nIDENTIFIER s null\nEQUAL = null\nSTRING \"hi\" hi\nSEMICOLON ; null\nEOF  null\n"
        ),
        Err(_) => panic!("no lexical error expected"),
    }
}

#[test]
fn decimal_line_numbers() {
    assert_eq!(decimal_text(0), "0");
    assert_eq!(decimal_text(7), "7");
    assert_eq!(decimal_text(1203), "1203");
}

#[test]
fn empty_program_parses_to_nothing() {
    match parse(tokens("  // only a comment\n")) {
        Ok(stmts) => assert!(stmts.is_empty()),
        Err(e) => panic!("syntax error: {}", e.message()),
    }
    let (out, err) = run("");
    assert!(out.is_empty());
    assert_eq!(err, None);
}

#[test]
fn single_atom_parses() {
    assert_eq!(render("x"), "x");
    assert_eq!(render("\"text\""), "text");
    assert_eq!(render("nil"), "nil");
}

#[test]
fn scanner_new_then_scan() {
    let mut s: Scanner<F> = Scanner::new("print 1;".to_string());
    assert!(s.tokens.is_empty());
    s.scan_tokens();
    let kinds: Vec<TokenType> = s.tokens.iter().map(|t| t.token_type).collect();
    assert_eq!(kinds, vec![TokenType::Print, TokenType::Number, TokenType::Semicolon, TokenType::Eof]);
}

#[test]
fn nested_blocks_shadow_and_restore() {
    let (out, err) = run("var a = \"g\"; { var a = \"b1\"; { var a = \"b2\"; print a; } print a; } print a;");
    assert_eq!(out, vec!["b2", "b1", "g"]);
    assert_eq!(err, None);
}

#[test]
fn redeclaration_overwrites_in_the_same_scope() {
    let (out, err) = run("var a = 1; var a = a + 1; print a;");
    assert_eq!(out, vec!["2"]);
    assert_eq!(err, None);
}

#[test]
fn absent_values_in_operators() {
    let (out, err) = run("var a; print a == nil; print !a;");
    assert_eq!(out, vec!["true", "true"]);
    assert_eq!(err, None);
    let (_, err) = run("var a;\nprint -a;");
    assert_eq!(err, Some(("Operand must be a number.".to_string(), 2)));
    let (_, err) = run("var a;\nprint a + 1;");
    assert_eq!(err, Some(("Operands must be numbers or strings.".to_string(), 2)));
}

#[test]
fn assignment_yields_its_value() {
    let (out, err) = run("var a; var b; print a = b = 4; print a + b;");
    assert_eq!(out, vec!["4", "8"]);
    assert_eq!(err, None);
}

#[test]
fn statement_descriptions() {
    let stmts = parse(tokens("var a = 1 + 2; { print a; a; } var b;")).ok().unwrap();
    let texts: Vec<String> = stmts.iter().map(|s| s.dbg()).collect();
    assert_eq!(
        texts,
        vec![
            "name: IDENTIFIER a null, initializer: (+ 1 2)".to_string(),
            "Print statement with value aExpression statement with value a".to_string(),
            "name: IDENTIFIER b null, initializer: null".to_string(),
        ]
    );
    assert_eq!(stmts[1].get_type(), codecrafters_interpreter::statement::StatementType::Block);
}

#[test]
fn crlf_line_endings() {
    let ts = tokens("var a = 1; // note\r\nprint a;\r\n\"x\r\ny\"");
    let kinds: Vec<TokenType> = ts.iter().map(|t| t.token_type).collect();
    assert_eq!(
        kinds,
        vec![
            TokenType::Var,
            TokenType::Identifier,
            TokenType::Equal,
            TokenType::Number,
            TokenType::Semicolon,
            TokenType::Print,
            TokenType::Identifier,
            TokenType::Semicolon,
            TokenType::String,
            TokenType::Eof
        ]
    );
    assert_eq!(ts[5].line, 2);
    assert_eq!(ts[8].line, 4);
    let (out, err) = run("var a = 1;\r\nprint a;\r\nprint b;");
    assert_eq!(out, vec!["1"]);
    assert_eq!(err, Some(("Undefined variable 'b'.".to_string(), 3)));
}

#[test]
fn runtime_error_in_block_restores_outer_bindings() {
    let stmts = parse(tokens("var a = 1; { var c = 3; a = 2; print a; print b; }")).ok().unwrap();
    let mut interpreter = Interpreter::new(stmts);
    let e = interpreter.interpret().err().unwrap();
    assert_eq!(e.message, "Undefined variable 'b'.");
    assert_eq!(interpreter.output, vec!["2"]);
    let a = Token::<F>::new(TokenType::Identifier, "a".to_string(), None, 1);
    match interpreter.environment.get(&a).ok().unwrap() {
        Some(LiteralValue::Number(n)) => assert_eq!(n.value.0, 1.0),
        _ => panic!("a must be restored to 1"),
    }
    let c = Token::<F>::new(TokenType::Identifier, "c".to_string(), None, 1);
    assert!(interpreter.environment.get(&c).is_err());
}

#[test]
fn expression_error_kinds() {
    match parse_print_single_expr(tokens("1 = 2")) {
        Err(ParserError::InvalidAssignmentTarget(t)) => {
            assert_eq!(t.token_type, TokenType::Equal);
            assert_eq!(t.lexeme, "=");
        }
        _ => panic!("expected an invalid assignment target"),
    }
    match parse_print_single_expr(tokens(";")) {
        Err(ParserError::UnexpectedToken(t)) => assert_eq!(t.token_type, TokenType::Semicolon),
        _ => panic!("expected an unexpected token"),
    }
}

#[test]
fn parse_stops_at_first_failing_declaration() {
    match parse(tokens("print 1; print ); print (2;")) {
        Err(ParserError::UnexpectedToken(t)) => assert_eq!(t.token_type, TokenType::RightParen),
        _ => panic!("expected the first error"),
    }
}

#[test]
fn assignment_to_a_shadowing_name_stays_inside() {
    let (out, err) = run("var a = 1; { var a = 2; a = 3; print a; } print a;");
    assert_eq!(out, vec!["3", "1"]);
    assert_eq!(err, None);
}

#[test]
fn declaration_errors_at_first_failure() {
    match parse(tokens("print 1; var x = 2 print x;")) {
        Err(ParserError::NoSemicolon(t)) => assert_eq!(t.lexeme, "2"),
        _ => panic!("expected a missing semicolon"),
    }
    match parse(tokens("print 1; var 3;")) {
        Err(ParserError::UndisclosedDelimiter(t)) => assert_eq!(t.lexeme, "3"),
        _ => panic!("expected a missing name"),
    }
    match parse(tokens("print 1; -;")) {
        Err(ParserError::UnexpectedToken(t)) => assert_eq!(t.token_type, TokenType::Semicolon),
        _ => panic!("expected an unexpected token"),
    }
}
