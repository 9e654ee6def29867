use docent::chunking::{create_token_counter, TokenCounter, Tokenizer, WhitespaceTokenCounter};

fn count_tokens(counter: &dyn TokenCounter, text: &str) -> usize {
    counter.encode_with_offsets(text).0
}

#[test]
fn test_whitespace_counter_basics() {
    let counter = WhitespaceTokenCounter;
    assert_eq!(count_tokens(&counter, ""), 0);
    assert_eq!(count_tokens(&counter, "   "), 0);
    assert_eq!(count_tokens(&counter, "hello"), 1);
    assert_eq!(count_tokens(&counter, "hello world"), 2);

    let (count, offsets) = counter.encode_with_offsets("hello world");
    assert_eq!(count, 2);
    assert_eq!(offsets, vec![(0, 5), (6, 11)]);
}

#[test]
fn whitespace_counter_uses_byte_offsets() {
    let counter = WhitespaceTokenCounter;
    let text = "  héllo\twörld\n x ";
    let (count, offsets) = counter.encode_with_offsets(text);
    assert_eq!(count, 3);
    assert_eq!(offsets, vec![(2, 8), (9, 15), (17, 18)]);
    for (s, e) in offsets {
        assert!(!text[s..e].contains(char::is_whitespace));
    }
}

struct CharTokenizer;

impl Tokenizer for CharTokenizer {
    fn encode_with_offsets(&self, text: &str) -> (usize, Vec<(usize, usize)>) {
        let spans: Vec<(usize, usize)> =
            text.char_indices().map(|(i, c)| (i, i + c.len_utf8())).collect();
        (spans.len(), spans)
    }
}

#[test]
fn token_counter_encodes_as_its_tokenizer() {
    let counter = create_token_counter(CharTokenizer);
    assert_eq!(counter.encode_with_offsets("ab"), (2, vec![(0, 1), (1, 2)]));
    assert_eq!(count_tokens(&counter, "héllo"), 5);
}
