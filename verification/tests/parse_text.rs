use tangerine::parse::{parse_text, TokenProcessor, TokenSlice};

struct Token {
    token: String,
    line: usize,
    column: usize,
    offset: usize,
    partial: bool,
}

fn to_token(slice: &TokenSlice) -> Token {
    Token {
        token: slice.token.to_string(),
        line: slice.line,
        column: slice.column,
        offset: slice.offset,
        partial: slice.partial,
    }
}

struct TestIndex {
    tokens: Vec<Token>,
}

impl TestIndex {
    fn new() -> Self {
        TestIndex { tokens: Vec::new() }
    }
}

impl TokenProcessor for TestIndex {
    fn process_token(&mut self, token: &TokenSlice) {
        self.tokens.push(to_token(token));
    }
}

#[test]
fn test_parse_text() {
    let mut index = TestIndex::new();

    parse_text("foo", &mut index);

    assert_eq!(1, index.tokens.len());

    let token = index.tokens.get(0).unwrap();
    assert_eq!("foo", token.token);
    assert_eq!(0, token.line);
    assert_eq!(0, token.column);
    assert_eq!(0, token.offset);
    assert_eq!(false, token.partial);
}

#[test]
fn test_parse_text_multiple_tokens() {
    let mut index = TestIndex::new();

    parse_text("foo bar", &mut index);

    assert_eq!(2, index.tokens.len());

    let token = index.tokens.get(0).unwrap();
    assert_eq!("foo", token.token);
    assert_eq!(0, token.line);
    assert_eq!(0, token.column);
    assert_eq!(0, token.offset);
    assert_eq!(false, token.partial);

    let token = index.tokens.get(1).unwrap();
    assert_eq!("bar", token.token);
    assert_eq!(0, token.line);
    assert_eq!(4, token.column);
    assert_eq!(4, token.offset);
    assert_eq!(false, token.partial);
}

#[test]
fn test_parse_text_space_before() {
    let mut index = TestIndex::new();

    parse_text("  foo bar", &mut index);

    assert_eq!(2, index.tokens.len());

    let token = index.tokens.get(0).unwrap();
    assert_eq!("foo", token.token);
    assert_eq!(0, token.line);
    assert_eq!(2, token.column);
    assert_eq!(2, token.offset);
    assert_eq!(false, token.partial);

    let token = index.tokens.get(1).unwrap();
    assert_eq!("bar", token.token);
    assert_eq!(0, token.line);
    assert_eq!(6, token.column);
    assert_eq!(6, token.offset);
    assert_eq!(false, token.partial);
}

#[test]
fn test_parse_text_space_after() {
    let mut index = TestIndex::new();

    parse_text("foo bar  ", &mut index);

    assert_eq!(2, index.tokens.len());

    let token = index.tokens.get(0).unwrap();
    assert_eq!("foo", token.token);
    assert_eq!(0, token.line);
    assert_eq!(0, token.column);
    assert_eq!(0, token.offset);
    assert_eq!(false, token.partial);

    let token = index.tokens.get(1).unwrap();
    assert_eq!("bar", token.token);
    assert_eq!(0, token.line);
    assert_eq!(4, token.column);
    assert_eq!(4, token.offset);
    assert_eq!(false, token.partial);
}

#[test]
fn test_parse_text_with_numbers() {
    let mut index = TestIndex::new();

    parse_text("foo123bar", &mut index);

    assert_eq!(4, index.tokens.len());

    let token = index.tokens.get(0).unwrap();
    assert_eq!("foo123bar", token.token);
    assert_eq!(0, token.line);
    assert_eq!(0, token.column);
    assert_eq!(0, token.offset);
    assert_eq!(false, token.partial);

    let token = index.tokens.get(1).unwrap();
    assert_eq!("foo", token.token);
    assert_eq!(0, token.line);
    assert_eq!(0, token.column);
    assert_eq!(0, token.offset);
    assert_eq!(true, token.partial);

    let token = index.tokens.get(2).unwrap();
    assert_eq!("123", token.token);
    assert_eq!(0, token.line);
    assert_eq!(0, token.column);
    assert_eq!(3, token.offset);
    assert_eq!(true, token.partial);

    let token = index.tokens.get(3).unwrap();
    assert_eq!("bar", token.token);
    assert_eq!(0, token.line);
    assert_eq!(0, token.column);
    assert_eq!(6, token.offset);
    assert_eq!(true, token.partial);
}

#[test]
fn test_parse_text_with_punctuation() {
    let mut index = TestIndex::new();

    parse_text("foo.bar", &mut index);

    assert_eq!(2, index.tokens.len());

    let token = index.tokens.get(0).unwrap();
    assert_eq!("foo", token.token);
    assert_eq!(0, token.line);
    assert_eq!(0, token.column);
    assert_eq!(0, token.offset);
    assert_eq!(false, token.partial);

    let token = index.tokens.get(1).unwrap();
    assert_eq!("bar", token.token);
    assert_eq!(0, token.line);
    assert_eq!(4, token.column);
    assert_eq!(4, token.offset);
    assert_eq!(false, token.partial);
}

#[test]
fn test_parse_text_with_camelcase() {
    let mut index = TestIndex::new();

    parse_text("FooBar123", &mut index);

    assert_eq!(4, index.tokens.len());

    let token = index.tokens.get(0).unwrap();
    assert_eq!("FooBar123", token.token);
    assert_eq!(0, token.line);
    assert_eq!(0, token.column);
    assert_eq!(0, token.offset);
    assert_eq!(false, token.partial);

    let token = index.tokens.get(1).unwrap();
    assert_eq!("Foo", token.token);
    assert_eq!(0, token.line);
    assert_eq!(0, token.column);
    assert_eq!(0, token.offset);
    assert_eq!(true, token.partial);

    let token = index.tokens.get(2).unwrap();
    assert_eq!("Bar", token.token);
    assert_eq!(0, token.line);
    assert_eq!(0, token.column);
    assert_eq!(3, token.offset);
    assert_eq!(true, token.partial);

    let token = index.tokens.get(3).unwrap();
    assert_eq!("123", token.token);
    assert_eq!(0, token.line);
    assert_eq!(0, token.column);
    assert_eq!(6, token.offset);
    assert_eq!(true, token.partial);
}

#[test]
fn test_parse_text_with_3byte_char() {
    let mut index = TestIndex::new();

    parse_text("\u{798f} \u{798f}foo\u{798f}bar\u{798f}", &mut index);

    assert_eq!(7, index.tokens.len());

    let token = index.tokens.get(0).unwrap();
    assert_eq!("\u{798f}", token.token);
    assert_eq!(0, token.line);
    assert_eq!(0, token.column);
    assert_eq!(0, token.offset);
    assert_eq!(false, token.partial);

    let token = index.tokens.get(1).unwrap();
    assert_eq!("\u{798f}foo\u{798f}bar\u{798f}", token.token);
    assert_eq!(0, token.line);
    assert_eq!(2, token.column);
    assert_eq!(4, token.offset);
    assert_eq!(false, token.partial);

    let token = index.tokens.get(2).unwrap();
    assert_eq!("\u{798f}", token.token);
    assert_eq!(0, token.line);
    assert_eq!(2, token.column);
    assert_eq!(4, token.offset);
    assert_eq!(true, token.partial);

    let token = index.tokens.get(3).unwrap();
    assert_eq!("foo", token.token);
    assert_eq!(0, token.line);
    assert_eq!(2, token.column);
    assert_eq!(7, token.offset);
    assert_eq!(true, token.partial);

    let token = index.tokens.get(4).unwrap();
    assert_eq!("\u{798f}", token.token);
    assert_eq!(0, token.line);
    assert_eq!(2, token.column);
    assert_eq!(10, token.offset);
    assert_eq!(true, token.partial);

    let token = index.tokens.get(5).unwrap();
    assert_eq!("bar", token.token);
    assert_eq!(0, token.line);
    assert_eq!(2, token.column);
    assert_eq!(13, token.offset);
    assert_eq!(true, token.partial);

    let token = index.tokens.get(6).unwrap();
    assert_eq!("\u{798f}", token.token);
    assert_eq!(0, token.line);
    assert_eq!(2, token.column);
    assert_eq!(16, token.offset);
    assert_eq!(true, token.partial);
}

#[test]
fn test_parse_text_with_4byte_char() {
    let mut index = TestIndex::new();

    parse_text("\u{1f49c} \u{1f49c}foo\u{1f49c}bar\u{1f49c}", &mut index);

    assert_eq!(2, index.tokens.len());

    let token = index.tokens.get(0).unwrap();
    assert_eq!("foo", token.token);
    assert_eq!(0, token.line);
    assert_eq!(3, token.column);
    assert_eq!(9, token.offset);
    assert_eq!(false, token.partial);

    let token = index.tokens.get(1).unwrap();
    assert_eq!("bar", token.token);
    assert_eq!(0, token.line);
    assert_eq!(7, token.column);
    assert_eq!(16, token.offset);
    assert_eq!(false, token.partial);
}

#[test]
fn test_parse_text_with_line_and_column() {
    let mut index = TestIndex::new();

    parse_text("foo\n  \n  bar", &mut index);

    assert_eq!(2, index.tokens.len());

    let token = index.tokens.get(0).unwrap();
    assert_eq!("foo", token.token);
    assert_eq!(0, token.line);
    assert_eq!(0, token.column);
    assert_eq!(0, token.offset);
    assert_eq!(false, token.partial);

    let token = index.tokens.get(1).unwrap();
    assert_eq!("bar", token.token);
    assert_eq!(2, token.line);
    assert_eq!(2, token.column);
    assert_eq!(9, token.offset);
    assert_eq!(false, token.partial);
}

#[test]
fn test_parse_text_with_initialism() {
    let mut index = TestIndex::new();

    parse_text("XMLHttpRequest", &mut index);

    assert_eq!(4, index.tokens.len());

    let token = index.tokens.get(0).unwrap();
    assert_eq!("XMLHttpRequest", token.token);
    assert_eq!(0, token.line);
    assert_eq!(0, token.column);
    assert_eq!(0, token.offset);
    assert_eq!(false, token.partial);

    let token = index.tokens.get(1).unwrap();
    assert_eq!("XML", token.token);
    assert_eq!(0, token.line);
    assert_eq!(0, token.column);
    assert_eq!(0, token.offset);
    assert_eq!(true, token.partial);

    let token = index.tokens.get(2).unwrap();
    assert_eq!("Http", token.token);
    assert_eq!(0, token.line);
    assert_eq!(0, token.column);
    assert_eq!(3, token.offset);
    assert_eq!(true, token.partial);

    let token = index.tokens.get(3).unwrap();
    assert_eq!("Request", token.token);
    assert_eq!(0, token.line);
    assert_eq!(0, token.column);
    assert_eq!(7, token.offset);
    assert_eq!(true, token.partial);
}

#[test]
fn test_parse_text_with_wide_initialism() {
    let mut index = TestIndex::new();

    parse_text("\u{dc}\u{dc}\u{dc}\u{dc}ttp\u{dc}equest", &mut index);

    assert_eq!(4, index.tokens.len());

    let token = index.tokens.get(0).unwrap();
    assert_eq!("\u{dc}\u{dc}\u{dc}\u{dc}ttp\u{dc}equest", token.token);
    assert_eq!(0, token.line);
    assert_eq!(0, token.column);
    assert_eq!(0, token.offset);
    assert_eq!(false, token.partial);

    let token = index.tokens.get(1).unwrap();
    assert_eq!("\u{dc}\u{dc}\u{dc}", token.token);
    assert_eq!(0, token.line);
    assert_eq!(0, token.column);
    assert_eq!(0, token.offset);
    assert_eq!(true, token.partial);

    let token = index.tokens.get(2).unwrap();
    assert_eq!("\u{dc}ttp", token.token);
    assert_eq!(0, token.line);
    assert_eq!(0, token.column);
    assert_eq!(6, token.offset);
    assert_eq!(true, token.partial);

    let token = index.tokens.get(3).unwrap();
    assert_eq!("\u{dc}equest", token.token);
    assert_eq!(0, token.line);
    assert_eq!(0, token.column);
    assert_eq!(11, token.offset);
    assert_eq!(true, token.partial);
}
