use hack_hdsim_lib::tokeniser::{Token, Tokeniser, UnexpectedToken};

#[test]
fn skip_whitespace() {
    let contents = "  This is \t a string\nwith whitespaces  ";
    let contents_nws = "Thisisastringwithwhitespaces";
    let mut tokeniser = Tokeniser::new(contents);
    let mut no_whitespace = Vec::new();
    loop {
        tokeniser.skip_whitespace();
        match tokeniser.next() {
            Some(ch) => no_whitespace.push(ch),
            None => break,
        }
    }
    let contents_nws_vec: Vec<char> = contents_nws.chars().collect();
    assert_eq!(no_whitespace, contents_nws_vec);
    let contents = "   a";
    let mut tokeniser = Tokeniser::new(contents);
    assert_eq!(true, tokeniser.skip_whitespace());
    let contents = "a    ";
    let mut tokeniser = Tokeniser::new(contents);
    assert_eq!(false, tokeniser.skip_whitespace());
}

#[test]
fn skip_comment() {
    let contents = "/*com*/This is/* comment */a string/* comment 2*//**/
// this is a line comment here
// another line comment
//
extra";
    let contents_nc = "This isa string\nextra";
    let mut tokeniser = Tokeniser::new(contents);
    let mut no_com = Vec::new();
    loop {
        tokeniser.skip_comment("/*", "*/");
        tokeniser.skip_comment("//", "\n");
        match tokeniser.next() {
            Some(ch) => no_com.push(ch),
            None => break,
        }
    }
    let contents_nc_vec: Vec<char> = contents_nc.chars().collect();
    assert_eq!(no_com, contents_nc_vec);
    let contents = "/**/a";
    let mut tokeniser = Tokeniser::new(contents);
    assert_eq!(true, tokeniser.skip_comment("/*", "*/"));
    let contents = "a/**/";
    let mut tokeniser = Tokeniser::new(contents);
    assert_eq!(false, tokeniser.skip_comment("/*", "*/"));
}

#[test]
fn skip_nontokens() {
    let contents = "  /* comment */  a /* comment */ = b  // comment
// comment
c=d
";
    let contents_tok_only = "a=bc=d";
    let mut tokeniser = Tokeniser::new(contents);
    let mut tok_only = Vec::new();
    loop {
        tokeniser.skip_nontokens().unwrap();
        match tokeniser.next() {
            Some(ch) => tok_only.push(ch),
            None => break,
        }
    }
    let contents_to_vec: Vec<char> = contents_tok_only.chars().collect();
    assert_eq!(tok_only, contents_to_vec);
}

#[test]
fn tokenise_keyword() {
    let contents = "  CHIP {";
    let mut tokeniser = Tokeniser::new(contents);
    tokeniser.tokenise_keyword("CHIP").unwrap();
    let chip_got = tokeniser.tokens.clone();
    let chip_expected = vec![Token::Keyword("CHIP".to_string())];
    assert_eq!(chip_got, chip_expected);
    assert_eq!(Some('{'), tokeniser.next());
    let contents = "NOTCHIP {";
    let mut tokeniser = Tokeniser::new(contents);
    let chip_err = tokeniser.tokenise_keyword("CHIP").unwrap_err();
    let chip_err_exp = UnexpectedToken {
        expected: Token::Keyword("CHIP".to_string()),
        nline: 1,
        nchar: 1,
    };
    assert_eq!(chip_err, chip_err_exp);
}

#[test]
fn nline_nchar() {
    let contents = "\t\t  CHIP And
// comment
/*comment*/a=b";
    let mut tokeniser = Tokeniser::new(contents);
    assert_eq!((1, 1), (tokeniser.nline, tokeniser.nchar));
    tokeniser.tokenise_keyword("CHIP").unwrap();
    assert_eq!((1, 10), (tokeniser.nline, tokeniser.nchar));
    tokeniser.tokenise_identifier().unwrap();
    assert_eq!((3, 12), (tokeniser.nline, tokeniser.nchar));
}

#[test]
fn tokenise_number() {
    let mut tokeniser = Tokeniser::new("/**/  123");
    let token_exp = Token::Number(123);
    tokeniser.tokenise_number().unwrap();
    assert_eq!(token_exp, tokeniser.tokens[0]);
}

#[test]
fn tokenise_identifier() {
    let token_exp = Token::Identifier("And".to_string());
    let err_exp = UnexpectedToken {
        expected: Token::Identifier("identifier".to_string()),
        nline: 1,
        nchar: 1,
    };

    let mut tokeniser = Tokeniser::new("/**/  And");
    tokeniser.tokenise_identifier().unwrap();
    assert_eq!(token_exp, tokeniser.tokens[0]);

    let mut tokeniser = Tokeniser::new("1And");
    assert_eq!(err_exp, tokeniser.tokenise_identifier().unwrap_err());

    let mut tokeniser = Tokeniser::new("");
    assert_eq!(err_exp, tokeniser.tokenise_identifier().unwrap_err());

    let mut tokeniser = Tokeniser::new("{");
    assert_eq!(err_exp, tokeniser.tokenise_identifier().unwrap_err());

    let mut tokeniser = Tokeniser::new("CHIP");
    assert_eq!(err_exp, tokeniser.tokenise_identifier().unwrap_err());

    let mut tokeniser = Tokeniser::new("a[16]");
    let tokens_exp = vec![
        Token::Identifier("a".to_string()),
        Token::Symbol('['),
        Token::Number(16),
        Token::Symbol(']'),
    ];
    tokeniser.tokenise_identifier().unwrap();
    assert_eq!(tokens_exp, tokeniser.tokens);
}

#[test]
fn tokenise_identifier_list() {
    let mut tokeniser = Tokeniser::new("  a, b  ,c,d/**/,e  /*cc*/;  ");
    let exp_vec = vec![
        Token::Identifier("a".to_string()),
        Token::Symbol(','),
        Token::Identifier("b".to_string()),
        Token::Symbol(','),
        Token::Identifier("c".to_string()),
        Token::Symbol(','),
        Token::Identifier("d".to_string()),
        Token::Symbol(','),
        Token::Identifier("e".to_string()),
    ];
    tokeniser.tokenise_identifier_list().unwrap();
    assert_eq!(exp_vec, tokeniser.tokens);
    assert_eq!(';', tokeniser.next().unwrap());
}

#[test]
fn tokenise_assignment() {
    let mut tokeniser = Tokeniser::new("  a  =  b  ");
    tokeniser.tokenise_assignment().unwrap();
    let tokens = tokeniser.tokens;

    let tokens_exp = vec![
        Token::Identifier("a".to_string()),
        Token::Symbol('='),
        Token::Identifier("b".to_string()),
    ];
    assert_eq!(tokens, tokens_exp);
}

#[test]
fn tokenise_assignment_list() {
    let mut tokeniser = Tokeniser::new(" a = b , c = d , e = f ");
    tokeniser.tokenise_assignment_list().unwrap();
    let tokens = tokeniser.tokens;

    let tokens_exp = vec![
        Token::Identifier("a".to_string()),
        Token::Symbol('='),
        Token::Identifier("b".to_string()),
        Token::Symbol(','),
        Token::Identifier("c".to_string()),
        Token::Symbol('='),
        Token::Identifier("d".to_string()),
        Token::Symbol(','),
        Token::Identifier("e".to_string()),
        Token::Symbol('='),
        Token::Identifier("f".to_string()),
    ];
    assert_eq!(tokens, tokens_exp);
}

#[test]
fn tokenise_part() {
    let mut tokeniser = Tokeniser::new(" Nand( a = a, b = b, out = c ); ");
    tokeniser.tokenise_part().unwrap();
    let tokens_exp = vec![
        Token::Identifier("Nand".to_string()),
        Token::Symbol('('),
        Token::Identifier("a".to_string()),
        Token::Symbol('='),
        Token::Identifier("a".to_string()),
        Token::Symbol(','),
        Token::Identifier("b".to_string()),
        Token::Symbol('='),
        Token::Identifier("b".to_string()),
        Token::Symbol(','),
        Token::Identifier("out".to_string()),
        Token::Symbol('='),
        Token::Identifier("c".to_string()),
        Token::Symbol(')'),
        Token::Symbol(';'),
    ];
    assert_eq!(tokeniser.tokens, tokens_exp);
}

#[test]
fn tokenise_parts_list() {
    let mut tokeniser = Tokeniser::new(
        " Nand( a = a, b = b, out = c ); Nand(a=c, b=c, out=out);",
    );
    tokeniser.tokenise_parts_list().unwrap();
    let tokens_obtained = tokeniser.tokens;

    let mut tokeniser = Tokeniser::new(" Nand( a = a, b = b, out = c );");
    tokeniser.tokenise_part().unwrap();
    let mut tokens_expected = tokeniser.tokens;

    let mut tokeniser = Tokeniser::new(" Nand(a=c, b=c, out=out);");
    tokeniser.tokenise_part().unwrap();
    tokens_expected.append(&mut tokeniser.tokens);

    assert_eq!(tokens_obtained, tokens_expected);
}

#[test]
fn tokenise_whole_chip_token_sequence() {
    let source = "CHIP And { IN a, b; OUT out; PARTS: Nand(a=a,b=b,out=c); Nand(a=c,b=c,out=out); }";
    let mut tokeniser = Tokeniser::new(source);
    tokeniser.tokenise_chip().unwrap();
    let opening = vec![
        Token::Keyword("CHIP".to_string()),
        Token::Identifier("And".to_string()),
        Token::Symbol('{'),
        Token::Keyword("IN".to_string()),
        Token::Identifier("a".to_string()),
        Token::Symbol(','),
        Token::Identifier("b".to_string()),
        Token::Symbol(';'),
        Token::Keyword("OUT".to_string()),
        Token::Identifier("out".to_string()),
        Token::Symbol(';'),
        Token::Keyword("PARTS".to_string()),
        Token::Symbol(':'),
    ];
    assert_eq!(&tokeniser.tokens[..opening.len()], &opening[..]);
    assert_eq!(tokeniser.tokens.last(), Some(&Token::Symbol('}')));
    let nand_part = vec![
        Token::Identifier("Nand".to_string()),
        Token::Symbol('('),
        Token::Identifier("a".to_string()),
        Token::Symbol('='),
        Token::Identifier("a".to_string()),
        Token::Symbol(','),
        Token::Identifier("b".to_string()),
        Token::Symbol('='),
        Token::Identifier("b".to_string()),
        Token::Symbol(','),
        Token::Identifier("out".to_string()),
        Token::Symbol('='),
        Token::Identifier("c".to_string()),
        Token::Symbol(')'),
        Token::Symbol(';'),
    ];
    assert_eq!(
        &tokeniser.tokens[opening.len()..opening.len() + nand_part.len()],
        &nand_part[..]
    );
}

#[test]
fn comments_everywhere_are_ignored() {
    let source = "/*start*/CHIP/*CHIP IN OUT*/ And//line with PARTS keyword
{ IN a;/*x*//*y*/ OUT out; PARTS: Not(in=a,out=out); }//end";
    let mut tokeniser = Tokeniser::new(source);
    tokeniser.tokenise_chip().unwrap();
    assert_eq!(tokeniser.tokens[0], Token::Keyword("CHIP".to_string()));
    assert_eq!(tokeniser.tokens[1], Token::Identifier("And".to_string()));
    assert_eq!(tokeniser.tokens.last(), Some(&Token::Symbol('}')));
}

#[test]
fn unterminated_block_comment_is_error() {
    let mut tokeniser = Tokeniser::new("  /* never closed");
    let err = tokeniser.tokenise_keyword("CHIP").unwrap_err();
    assert_eq!(err.nline, 1);
    assert_eq!(err.nchar, 3);
}

#[test]
fn identifier_followed_by_punctuation() {
    let mut tokeniser = Tokeniser::new("x,");
    tokeniser.tokenise_identifier().unwrap();
    assert_eq!(tokeniser.tokens, vec![Token::Identifier("x".to_string())]);
    assert_eq!(tokeniser.next(), Some(','));

    let mut tokeniser = Tokeniser::new("x;");
    tokeniser.tokenise_identifier().unwrap();
    assert_eq!(tokeniser.next(), Some(';'));

    let mut tokeniser = Tokeniser::new("x(");
    tokeniser.tokenise_identifier().unwrap();
    assert_eq!(tokeniser.next(), Some('('));

    let mut tokeniser = Tokeniser::new("x[2]y");
    tokeniser.tokenise_identifier().unwrap();
    assert_eq!(
        tokeniser.tokens,
        vec![
            Token::Identifier("x".to_string()),
            Token::Symbol('['),
            Token::Number(2),
            Token::Symbol(']'),
        ]
    );
}

#[test]
fn part_with_single_assignment() {
    let mut tokeniser = Tokeniser::new("Not(in=a);");
    tokeniser.tokenise_part().unwrap();
    assert_eq!(
        tokeniser.tokens,
        vec![
            Token::Identifier("Not".to_string()),
            Token::Symbol('('),
            Token::Identifier("in".to_string()),
            Token::Symbol('='),
            Token::Identifier("a".to_string()),
            Token::Symbol(')'),
            Token::Symbol(';'),
        ]
    );
}

#[test]
fn symbol_mismatch_reports_its_position() {
    let mut tokeniser = Tokeniser::new("x");
    let err = tokeniser.tokenise_symbol('{').unwrap_err();
    let err_exp = UnexpectedToken {
        expected: Token::Symbol('{'),
        nline: 1,
        nchar: 1,
    };
    assert_eq!(err, err_exp);
    // the offending character is not consumed
    assert_eq!(tokeniser.next(), Some('x'));
    assert!(tokeniser.tokens.is_empty());
}

#[test]
fn number_too_large_is_error() {
    let mut tokeniser = Tokeniser::new("99999999999");
    assert!(tokeniser.tokenise_number().is_err());
    let mut tokeniser = Tokeniser::new("2147483647");
    tokeniser.tokenise_number().unwrap();
    assert_eq!(tokeniser.tokens[0], Token::Number(2147483647));
}
