use kassantra::ql::parser::Operation;
use kassantra::errors::KvError;

#[test]
fn test_parse_insert_statement() {
    // The captured value runs to the closing parenthesis, quotes included.
    let r = Operation::from_str(&b"INSERT INTO the_table (foo) VALUES (\"bar\");\n".to_vec());
    assert_eq!(
        r,
        Ok(Operation::Insert(b"foo".to_vec(), b"\"bar\"".to_vec()))
    );
}

#[test]
fn test_parse_insert_with_trailing_blanks_and_crlf() {
    let r = Operation::from_str(&b"INSERT INTO the_table (k) VALUES (v);  \r\n".to_vec());
    assert_eq!(r, Ok(Operation::Insert(b"k".to_vec(), b"v".to_vec())));
}

#[test]
fn test_parse_delete_statement() {
    // A DELETE's key is taken between the quotes.
    let r = Operation::from_str(&b"DELETE FROM the_table WHERE key = \"foo\";\n".to_vec());
    assert_eq!(r, Ok(Operation::Delete(b"foo".to_vec())));
}

#[test]
fn test_parse_select_statement() {
    let r = Operation::from_str(&b"SELECT foo FROM the_table;\n".to_vec());
    assert_eq!(r, Ok(Operation::Select(b"foo".to_vec())));
}

#[test]
fn test_parse_rejects_malformed_statements() {
    let cases: Vec<&[u8]> = vec![
        b"nonsense\n",
        b"INSERT INTO the_table (foo) VALUES (\"bar\")\n",  // missing semicolon
        b"INSERT INTO the_table (foo) VALUES (\"bar\");",   // missing line ending
        b"INSERT INTO other_table (foo) VALUES (\"bar\");\n",
        b"SELECT foo FROM the_table;\nextra",
        b"DELETE FROM the_table WHERE key = foo;\n",        // missing quotes
        b"",
    ];
    for case in cases {
        assert_eq!(
            Operation::from_str(&case.to_vec()),
            Err(KvError::ParseError),
            "case: {:?}",
            String::from_utf8_lossy(case)
        );
    }
}

#[test]
fn test_parse_rejects_oversized_request() {
    let mut big = Vec::new();
    big.extend_from_slice(b"INSERT INTO the_table (k) VALUES (");
    big.extend(std::iter::repeat(b'x').take(1200));
    big.extend_from_slice(b");\n");
    assert_eq!(Operation::from_str(&big), Err(KvError::Unsupported));
}
