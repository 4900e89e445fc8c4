use topk_eval::tokenizer::WhitespaceTokenizer;

fn spans_of(text: &str) -> Vec<(usize, usize)> {
    let chars: Vec<char> = text.chars().collect();
    WhitespaceTokenizer.token_spans(&chars)
}

#[test]
fn test_whitespace_tokenizer_with_unicode_spaces() {
    let tokens = spans_of("わ |　か　　花");
    assert_eq!(tokens.len(), 4);
}

#[test]
fn ascii_words_split_on_spaces() {
    let spans = spans_of("hello  rust world");
    assert_eq!(spans, vec![(0, 5), (7, 11), (12, 17)]);
}

#[test]
fn blank_text_has_no_tokens() {
    assert_eq!(spans_of(""), Vec::new());
    assert_eq!(spans_of(" \t \n"), Vec::new());
}

#[test]
fn unbroken_text_is_one_token() {
    assert_eq!(spans_of("query"), vec![(0, 5)]);
}
