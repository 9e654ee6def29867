//! Token counting for chunking: the swappable `TokenCounter` abstraction.
use vstd::prelude::*;
use crate::text::{
    chars_of, char_utf8_width, find_first, is_whitespace, is_ws, lemma_find_first, lemma_utf8_len_push,
    lemma_utf8_len_take_le, utf8_len,
};

verus! {

/// The tokenizer of an embedding model.
pub trait Tokenizer {
    /// Encodes `text`: (number of tokens, byte span of each token in `text`).
    fn encode_with_offsets(&self, text: &str) -> (usize, Vec<(usize, usize)>);
}

/// Counts the tokens of a text and locates them.
pub trait TokenCounter {
    /// Encodes `text`: (total token count, `(byte_start, byte_end)` of each
    /// token), the offsets being UTF-8 byte offsets into `text`.
    fn encode_with_offsets(&self, text: &str) -> (usize, Vec<(usize, usize)>);
}

/// A token counter backed by the embedding model's tokenizer.
pub struct HuggingFaceTokenCounter<T: Tokenizer> {
    tokenizer: T,
}

impl<T: Tokenizer> HuggingFaceTokenCounter<T> {
    /// The tokenizer that this counter encodes with.
    pub closed spec fn tokenizer(&self) -> T {
        self.tokenizer
    }
}

impl<T: Tokenizer> TokenCounter for HuggingFaceTokenCounter<T> {
    /// The tokenizer's encoding of `text`: the result is one that the
    /// tokenizer's `encode_with_offsets` gives for `text`.
    fn encode_with_offsets(&self, text: &str) -> (r: (usize, Vec<(usize, usize)>))
        ensures
            call_ensures(T::encode_with_offsets, (&self.tokenizer(), text), r),
    {
        self.tokenizer.encode_with_offsets(text)
    }
}

/// A token counter that encodes texts with `tokenizer`.
pub fn create_token_counter<T: Tokenizer>(tokenizer: T) -> (c: HuggingFaceTokenCounter<T>)
    ensures
        c.tokenizer() == tokenizer,
{
    HuggingFaceTokenCounter { tokenizer }
}

/// The predicate "is whitespace".
pub open spec fn ws_char() -> spec_fn(char) -> bool {
    |c: char| is_ws(c)
}

/// Where the word that starts at `i` ends: the next whitespace, or the end.
pub open spec fn word_end(s: Seq<char>, i: int) -> int {
    match find_first(s.skip(i), ws_char()) {
        Some(k) => i + k,
        None => s.len() as int,
    }
}

/// The words of `s` from position `i` on, as character spans `(start, end)`:
/// the maximal runs of non-whitespace characters (`str::split_whitespace`).
pub open spec fn words_from(s: Seq<char>, i: int) -> Seq<(int, int)>
    decreases s.len() - i,
{
    if i < 0 || i >= s.len() {
        Seq::<(int, int)>::empty()
    } else if is_ws(s[i]) {
        words_from(s, i + 1)
    } else {
        proof {
            lemma_find_first(s.skip(i), ws_char());
        }
        seq![(i, word_end(s, i))] + words_from(s, word_end(s, i))
    }
}

/// A character span as UTF-8 byte offsets into `s`.
pub open spec fn byte_span(s: Seq<char>, span: (int, int)) -> (usize, usize) {
    (utf8_len(s.take(span.0)) as usize, utf8_len(s.take(span.1)) as usize)
}

/// The words of `s` as byte spans.
pub open spec fn word_byte_spans(s: Seq<char>) -> Seq<(usize, usize)> {
    words_from(s, 0).map_values(|span: (int, int)| byte_span(s, span))
}

/// A token counter that counts whitespace-separated words: every maximal
/// run of non-whitespace characters is one token.
pub struct WhitespaceTokenCounter;

/// Byte offset of character position `i` of `v`, advanced from the byte
/// offset `b` of position `from`.
fn advance_bytes(v: &Vec<char>, from: usize, b: usize, i: usize, total: usize) -> (r: usize)
    requires
        from <= i <= v.len(),
        b == utf8_len(v@.take(from as int)),
        total == utf8_len(v@),
    ensures
        r == utf8_len(v@.take(i as int)),
{
    let mut k = from;
    let mut bytes = b;
    while k < i
        invariant
            from <= k <= i <= v.len(),
            bytes == utf8_len(v@.take(k as int)),
            total == utf8_len(v@),
        decreases i - k,
    {
        let w = char_utf8_width(v[k]);
        proof {
            lemma_utf8_len_push(v@.take(k as int), v@[k as int]);
            assert(v@.take(k + 1) =~= v@.take(k as int).push(v@[k as int]));
            lemma_utf8_len_take_le(v@, k + 1);
        }
        bytes = bytes + w;
        k = k + 1;
    }
    bytes
}

impl TokenCounter for WhitespaceTokenCounter {
    /// The words of `text`, as many as there are, each as its byte span.
    fn encode_with_offsets(&self, text: &str) -> (r: (usize, Vec<(usize, usize)>))
        ensures
            r.0 == words_from(text@, 0).len(),
            r.1@ == word_byte_spans(text@),
    {
        let v = chars_of(text);
        let total = text.as_bytes().len();
        let n = v.len();
        let ghost s = v@;
        let mut out: Vec<(usize, usize)> = Vec::new();
        let mut i: usize = 0;
        let mut bytes: usize = 0;
        assert(s.take(0) =~= Seq::<char>::empty());
        while i < n
            invariant
                0 <= i <= n == v.len(),
                s == v@,
                s == text@,
                total == utf8_len(s),
                bytes == utf8_len(s.take(i as int)),
                out@ + words_from(s, i as int).map_values(|span: (int, int)| byte_span(s, span))
                    == word_byte_spans(s),
                out@.len() + words_from(s, i as int).len() == words_from(s, 0).len(),
            decreases n - i,
        {
            if is_whitespace(v[i]) {
                let b2 = advance_bytes(&v, i, bytes, i + 1, total);
                i = i + 1;
                bytes = b2;
            } else {
                // The word that starts at `i` ends at the next whitespace.
                let start = i;
                let start_bytes = bytes;
                let mut j = i + 1;
                while j < n && !is_whitespace(v[j])
                    invariant
                        start < j <= n == v.len(),
                        s == v@,
                        forall|k: int| start <= k < j ==> !is_ws(#[trigger] s[k]),
                    decreases n - j,
                {
                    j = j + 1;
                }
                proof {
                    let t = s.skip(start as int);
                    lemma_find_first(t, ws_char());
                    if j < n {
                        assert(t[j - start] == s[j as int]);
                        assert forall|k: int| 0 <= k < j - start implies !ws_char()(#[trigger] t[k]) by {
                            assert(t[k] == s[start + k]);
                        }
                        crate::text::lemma_find_first_is(t, ws_char(), j - start);
                    } else {
                        assert forall|k: int| 0 <= k < t.len() implies !ws_char()(#[trigger] t[k]) by {
                            assert(t[k] == s[start + k]);
                        }
                        crate::text::lemma_find_first_none(t, ws_char());
                    }
                    assert(word_end(s, start as int) == j);
                    let rest = words_from(s, j as int);
                    assert(words_from(s, start as int) == seq![(start as int, j as int)] + rest);
                    assert((seq![(start as int, j as int)] + rest).map_values(
                        |span: (int, int)| byte_span(s, span),
                    ) =~= seq![byte_span(s, (start as int, j as int))] + rest.map_values(
                        |span: (int, int)| byte_span(s, span),
                    ));
                }
                let end_bytes = advance_bytes(&v, start, start_bytes, j, total);
                proof {
                    lemma_utf8_len_take_le(s, j as int);
                }
                out.push((start_bytes, end_bytes));
                i = j;
                bytes = end_bytes;
            }
        }
        assert(words_from(s, n as int) =~= Seq::<(int, int)>::empty());
        assert(out@ =~= word_byte_spans(s));
        (out.len(), out)
    }
}

/// A word span of `s` found from position `i` on: non-empty, no whitespace
/// inside, whitespace or the text's start before it, whitespace or the end
/// after it.
pub open spec fn is_word_span(s: Seq<char>, i: int, span: (int, int)) -> bool {
    let (a, b) = span;
    &&& i <= a < b <= s.len()
    &&& forall|j: int| a <= j < b ==> !is_ws(#[trigger] s[j])
    &&& a == 0 || is_ws(s[a - 1])
    &&& b == s.len() || is_ws(s[b])
}

/// The start condition under which the scan from `i` finds only whole words.
pub open spec fn word_boundary(s: Seq<char>, i: int) -> bool {
    0 <= i && (i == 0 || i >= s.len() || is_ws(s[i - 1]) || is_ws(s[i]))
}

/// The facts about the word that starts at a non-whitespace `i`.
proof fn lemma_word_at(s: Seq<char>, i: int)
    requires
        word_boundary(s, i),
        i < s.len(),
        !is_ws(s[i]),
    ensures
        is_word_span(s, i, (i, word_end(s, i))),
        words_from(s, i) == seq![(i, word_end(s, i))] + words_from(s, word_end(s, i)),
        word_boundary(s, word_end(s, i)),
{
    let t = s.skip(i);
    lemma_find_first(t, ws_char());
    let e = word_end(s, i);
    assert forall|j: int| i <= j < e implies !is_ws(#[trigger] s[j]) by {
        assert(s[j] == t[j - i]);
    }
    if e < s.len() {
        assert(s[e] == t[e - i]);
    }
}

/// Every word found from `i` on is a word span.
proof fn lemma_words_are_spans(s: Seq<char>, i: int)
    requires
        word_boundary(s, i),
    ensures
        forall|k: int| 0 <= k < words_from(s, i).len() ==> is_word_span(s, i, #[trigger] words_from(s, i)[k]),
    decreases s.len() - i,
{
    if i < s.len() {
        if is_ws(s[i]) {
            lemma_words_are_spans(s, i + 1);
            let w = words_from(s, i);
            assert(w == words_from(s, i + 1));
            assert forall|k: int| 0 <= k < w.len() implies is_word_span(s, i, #[trigger] w[k]) by {
                assert(is_word_span(s, i + 1, w[k]));
            }
        } else {
            lemma_word_at(s, i);
            let e = word_end(s, i);
            lemma_words_are_spans(s, e);
            let rest = words_from(s, e);
            let w = words_from(s, i);
            assert forall|k: int| 0 <= k < w.len() implies is_word_span(s, i, #[trigger] w[k]) by {
                if k > 0 {
                    assert(w[k] == rest[k - 1]);
                    assert(is_word_span(s, e, rest[k - 1]));
                }
            }
        }
    }
}

/// The words found from `i` on come in order, whitespace between them.
proof fn lemma_words_ordered(s: Seq<char>, i: int)
    requires
        word_boundary(s, i),
    ensures
        forall|k: int| 0 <= k < words_from(s, i).len() - 1 ==> #[trigger] words_from(s, i)[k].1 < words_from(s, i)[k + 1].0,
    decreases s.len() - i,
{
    if i < s.len() {
        if is_ws(s[i]) {
            lemma_words_ordered(s, i + 1);
            assert(words_from(s, i) == words_from(s, i + 1));
        } else {
            lemma_word_at(s, i);
            let e = word_end(s, i);
            lemma_words_ordered(s, e);
            lemma_words_are_spans(s, e);
            let rest = words_from(s, e);
            let w = words_from(s, i);
            assert forall|k: int| 0 <= k < w.len() - 1 implies #[trigger] w[k].1 < w[k + 1].0 by {
                if k > 0 {
                    assert(w[k] == rest[k - 1]);
                    assert(w[k + 1] == rest[k]);
                } else {
                    assert(w[1] == rest[0]);
                    assert(is_word_span(s, e, rest[0]));
                    if rest[0].0 == e {
                        assert(is_ws(s[e]));
                    }
                }
            }
        }
    }
}

/// Every non-whitespace character from `i` on lies in a word found from `i`.
proof fn lemma_words_cover(s: Seq<char>, i: int, j: int)
    requires
        word_boundary(s, i),
        i <= j < s.len(),
        !is_ws(s[j]),
    ensures
        exists|k: int| 0 <= k < words_from(s, i).len() && (#[trigger] words_from(s, i)[k]).0 <= j < words_from(s, i)[k].1,
    decreases s.len() - i,
{
    if is_ws(s[i]) {
        lemma_words_cover(s, i + 1, j);
    } else {
        lemma_word_at(s, i);
        let e = word_end(s, i);
        let w = words_from(s, i);
        if j < e {
            assert(w[0] == (i, e));
        } else {
            lemma_words_cover(s, e, j);
            let rest = words_from(s, e);
            let k = choose|k: int| 0 <= k < rest.len() && (#[trigger] rest[k]).0 <= j < rest[k].1;
            assert(w[k + 1] == rest[k]);
        }
    }
}

/// A word's byte span is non-empty and lies within the text.
proof fn lemma_word_bytes(text: Seq<char>, a: int, b: int)
    requires
        0 <= a < b <= text.len(),
    ensures
        utf8_len(text.take(a)) < utf8_len(text.take(b)) <= utf8_len(text),
{
    lemma_utf8_len_take_le(text, b);
    lemma_utf8_len_take_le(text.take(b), a + 1);
    assert(text.take(b).take(a + 1) =~= text.take(a).push(text[a]));
    lemma_utf8_len_push(text.take(a), text[a]);
    vstd::utf8::char_is_scalar(text[a]);
}

/// The tokens of a `WhitespaceTokenCounter` are the words of the text: the
/// maximal runs of non-whitespace characters, in order and apart, every
/// non-whitespace character in one of them; their byte spans are not empty
/// and lie within the text.
pub proof fn law_whitespace_tokens_are_words(text: Seq<char>)
    ensures
        forall|k: int|
            0 <= k < words_from(text, 0).len() ==> is_word_span(text, 0, #[trigger] words_from(text, 0)[k])
                && utf8_len(text.take(words_from(text, 0)[k].0)) < utf8_len(
                text.take(words_from(text, 0)[k].1),
            ) <= utf8_len(text),
        forall|k: int| 0 <= k < words_from(text, 0).len() - 1 ==> #[trigger] words_from(text, 0)[k].1 < words_from(text, 0)[k + 1].0,
        forall|j: int|
            0 <= j < text.len() && !is_ws(text[j]) ==> exists|k: int|
                0 <= k < words_from(text, 0).len() && (#[trigger] words_from(text, 0)[k]).0 <= j < words_from(text, 0)[k].1,
{
    lemma_words_are_spans(text, 0);
    lemma_words_ordered(text, 0);
    let w = words_from(text, 0);
    assert forall|k: int| 0 <= k < w.len() implies is_word_span(text, 0, #[trigger] w[k])
        && utf8_len(text.take(w[k].0)) < utf8_len(text.take(w[k].1)) <= utf8_len(text) by {
        lemma_word_bytes(text, w[k].0, w[k].1);
    }
    assert forall|j: int| 0 <= j < text.len() && !is_ws(text[j]) implies exists|k: int|
        0 <= k < w.len() && (#[trigger] w[k]).0 <= j < w[k].1 by {
        lemma_words_cover(text, 0, j);
    }
}

} // verus!
