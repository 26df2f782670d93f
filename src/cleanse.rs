use vstd::prelude::*;
use vstd::utf8::*;

use crate::utf8_split::{lemma_encode_injective, lemma_split_at_char};

verus! {

/// A character that may stand in a token: `a`..`z`, `0`..`9`, or a space.
pub open spec fn is_word_char(c: char) -> bool {
    ('a' <= c && c <= 'z') || ('0' <= c && c <= '9') || c == ' '
}

/// Index of the first character of `s` that may not stand in a token, or
/// `s.len()` when there is none.
pub open spec fn first_noise(s: Seq<char>) -> nat
    decreases s.len(),
{
    if s.len() == 0 || !is_word_char(s[0]) {
        0
    } else {
        1 + first_noise(s.drop_first())
    }
}

/// Length of the run of characters that may not stand in a token at the
/// start of `s`.
pub open spec fn noise_prefix(s: Seq<char>) -> nat
    decreases s.len(),
{
    if s.len() == 0 || is_word_char(s[0]) {
        0
    } else {
        1 + noise_prefix(s.drop_first())
    }
}

/// Index just past the first maximal run of characters that may not stand in
/// a token.
pub open spec fn noise_run_end(s: Seq<char>) -> nat {
    first_noise(s) + noise_prefix(s.skip(first_noise(s) as int))
}

/// Number of bytes of the UTF-8 encoding of `s`.
pub open spec fn byte_len(s: Seq<char>) -> nat {
    encode_utf8(s).len()
}

/// The token cleansed out of the (already lowercased) candidate `s`: drop a
/// leading run of noise, then keep what comes before the next noise. A
/// non-empty candidate made of noise alone gives no token.
pub open spec fn cleanse(s: Seq<char>) -> Option<Seq<char>> {
    let rest = s.skip(noise_prefix(s) as int);
    if s.len() > 0 && rest.len() == 0 {
        None
    } else {
        Some(rest.take(first_noise(rest) as int))
    }
}

proof fn lemma_first_noise(s: Seq<char>)
    ensures
        first_noise(s) <= s.len(),
        forall|k: int| 0 <= k < first_noise(s) ==> is_word_char(#[trigger] s[k]),
        first_noise(s) < s.len() ==> !is_word_char(s[first_noise(s) as int]),
    decreases s.len(),
{
    if s.len() > 0 && is_word_char(s[0]) {
        lemma_first_noise(s.drop_first());
        assert forall|k: int| 0 <= k < first_noise(s) implies is_word_char(#[trigger] s[k]) by {
            if k > 0 {
                assert(s[k] == s.drop_first()[k - 1]);
            }
        }
    }
}

proof fn lemma_noise_prefix(s: Seq<char>)
    ensures
        noise_prefix(s) <= s.len(),
        forall|k: int| 0 <= k < noise_prefix(s) ==> !is_word_char(#[trigger] s[k]),
        noise_prefix(s) < s.len() ==> is_word_char(s[noise_prefix(s) as int]),
    decreases s.len(),
{
    if s.len() > 0 && !is_word_char(s[0]) {
        lemma_noise_prefix(s.drop_first());
        assert forall|k: int| 0 <= k < noise_prefix(s) implies !is_word_char(#[trigger] s[k]) by {
            if k > 0 {
                assert(s[k] == s.drop_first()[k - 1]);
            }
        }
    }
}

/// The text of the pattern that matches a run of characters that may not
/// stand in a token.
pub const NOISE_PATTERN: &'static str = "[^a-z0-9 ]+";

#[verifier::external_type_specification]
#[verifier::external_body]
pub struct ExRegex(regex::Regex);

#[verifier::external_type_specification]
#[verifier::external_body]
pub struct ExRegexError(regex::Error);

/// A compiled regular expression together with the pattern text it was
/// compiled from.
pub struct WordRegex {
    source: String,
    re: regex::Regex,
}

impl WordRegex {
    /// The pattern text this regex was compiled from.
    pub closed spec fn source(&self) -> Seq<char> {
        self.source@
    }

    /// The regex matches runs of characters that may not stand in a token.
    pub open spec fn wf(&self) -> bool {
        self.source() == NOISE_PATTERN@
    }
}

/// Relies on regex::Regex::new: when it succeeds, the regex is compiled from
/// `source`, which is kept beside it. It fails only on an invalid pattern or
/// one over the default size limit, which the noise pattern is not.
#[verifier::external_body]
fn compile(source: &str) -> (r: Result<WordRegex, regex::Error>)
    ensures
        source@ == NOISE_PATTERN@ ==> r is Ok,
        r matches Ok(w) ==> w.source() == source@,
{
    match regex::Regex::new(source) {
        Ok(re) => Ok(WordRegex { source: source.to_string(), re }),
        Err(e) => Err(e),
    }
}

/// Relies on regex::Regex::find, with Match::start and Match::end. A regex
/// compiled from `[^a-z0-9 ]+` (Unicode mode, leftmost-first) finds the first
/// maximal run of characters outside `a-z`, `0-9` and space; its offsets are
/// byte offsets into the UTF-8 encoding of `text`.
#[verifier::external_body]
fn find_noise(re: &WordRegex, text: &str) -> (r: Option<(usize, usize)>)
    ensures
        re.wf() ==> (r is None <==> first_noise(text@) == text@.len()),
        re.wf() ==> (r matches Some((a, b)) ==> a == byte_len(text@.take(first_noise(text@) as int))
            && b == byte_len(text@.take(noise_run_end(text@) as int))),
{
    match re.re.find(text) {
        Some(m) => Some((m.start(), m.end())),
        None => None,
    }
}

/// Compiles the pattern of noise runs, once per run of the cleanser.
pub fn get_regex() -> (r: WordRegex)
    ensures
        r.wf(),
{
    compile(NOISE_PATTERN).unwrap()
}

impl WordRegex {
    /// The first maximal run of characters of `text` that may not stand in a
    /// token, as byte offsets `(start, end)` into its UTF-8 encoding; `None`
    /// when every character may stand in a token.
    pub fn find(&self, text: &str) -> (r: Option<(usize, usize)>)
        requires
            self.wf(),
        ensures
            r is None <==> first_noise(text@) == text@.len(),
            r matches Some((a, b)) ==> a == byte_len(text@.take(first_noise(text@) as int)) && b
                == byte_len(text@.take(noise_run_end(text@) as int)),
    {
        find_noise(self, text)
    }
}

/// Cleanses one lowercased candidate word: the token it holds, or `None` when
/// it is made of noise alone.
pub fn cleanse_word<'a>(text: &'a str, re: &WordRegex) -> (r: Option<&'a str>)
    requires
        re.wf(),
    ensures
        r is None <==> cleanse(text@) is None,
        r matches Some(t) ==> cleanse(text@) == Some(t@),
{
    let ghost s = text@;
    proof {
        lemma_first_noise(s);
        lemma_noise_prefix(s);
    }
    match re.find(text) {
        // No noise at all: the candidate is a token as it stands.
        None => {
            assert(s.skip(0) =~= s);
            assert(s.take(s.len() as int) =~= s);
            Some(text)
        },
        Some((start, end)) => {
            let ghost i = first_noise(s) as int;
            proof {
                lemma_split_at_char(s, i);
            }
            // Noise after some token characters: keep what comes before it.
            if start != 0 {
                let head = text.split_at(start).0;
                assert(s.skip(0) =~= s);
                proof {
                    lemma_encode_injective(head@, s.take(i));
                }
                return Some(head);
            }
            // Leading noise: drop it, then keep what comes before the next
            // noise in the rest; nothing is left when the noise was all.
            let ghost np = noise_prefix(s) as int;
            assert(s.skip(i) =~= s);
            assert(noise_run_end(s) == np);
            proof {
                lemma_split_at_char(s, np);
            }
            let rest = text.split_at(end).1;
            proof {
                lemma_encode_injective(rest@, s.skip(np));
            }
            if !rest.is_empty() {
                let ghost t = rest@;
                proof {
                    lemma_first_noise(t);
                }
                match re.find(rest) {
                    Some((start2, _)) => {
                        let ghost j = first_noise(t) as int;
                        proof {
                            lemma_split_at_char(t, j);
                        }
                        let word = rest.split_at(start2).0;
                        proof {
                            lemma_encode_injective(word@, t.take(j));
                        }
                        Some(word)
                    },
                    None => {
                        assert(t.take(t.len() as int) =~= t);
                        Some(rest)
                    },
                }
            } else {
                None
            }
        },
    }
}

/// ASCII lowercasing of one character: `A`..`Z` become `a`..`z`, every
/// other character is left as it is.
pub open spec fn ascii_lower(c: char) -> char {
    if 'A' <= c && c <= 'Z' {
        ((c as u32) + 32) as char
    } else {
        c
    }
}

/// ASCII lowercasing of a text.
pub open spec fn ascii_lowercase(s: Seq<char>) -> Seq<char> {
    s.map_values(|c: char| ascii_lower(c))
}

/// Relies on str::to_ascii_lowercase: each ASCII upper-case letter is mapped to
/// its lower-case form, every other character is unchanged.
#[verifier::external_body]
fn to_ascii_lowercase(s: &str) -> (r: String)
    ensures
        r@ == ascii_lowercase(s@),
{
    s.to_ascii_lowercase()
}

/// A character with the Unicode White_Space property.
pub open spec fn is_white_space(c: char) -> bool {
    ||| ('\u{9}' <= c && c <= '\u{d}')
    ||| c == ' '
    ||| c == '\u{85}'
    ||| c == '\u{a0}'
    ||| c == '\u{1680}'
    ||| ('\u{2000}' <= c && c <= '\u{200a}')
    ||| c == '\u{2028}'
    ||| c == '\u{2029}'
    ||| c == '\u{202f}'
    ||| c == '\u{205f}'
    ||| c == '\u{3000}'
}

/// The pieces of `s` between runs of white space, in order: a character
/// that is not white space starts a piece, or joins the piece of the next
/// character when that one is not white space either.
pub open spec fn whitespace_words(s: Seq<char>) -> Seq<Seq<char>>
    decreases s.len(),
{
    if s.len() == 0 {
        seq![]
    } else {
        let rest = whitespace_words(s.drop_first());
        if is_white_space(s[0]) {
            rest
        } else if s.len() > 1 && !is_white_space(s[1]) {
            seq![seq![s[0]] + rest[0]] + rest.drop_first()
        } else {
            seq![seq![s[0]]] + rest
        }
    }
}

/// A token: non-empty, of letters `a`..`z` and digits alone.
pub open spec fn is_token(t: Seq<char>) -> bool {
    &&& t.len() > 0
    &&& forall|j: int| 0 <= j < t.len() ==> ('a' <= #[trigger] t[j] && t[j] <= 'z') || ('0' <= t[j] && t[j] <= '9')
}

/// A non-empty piece with no white space in it.
pub open spec fn is_word(w: Seq<char>) -> bool {
    &&& w.len() > 0
    &&& forall|j: int| 0 <= j < w.len() ==> !is_white_space(#[trigger] w[j])
}

/// The pieces of a split are non-empty and hold no white space.
proof fn lemma_whitespace_words_are_words(s: Seq<char>)
    ensures
        forall|i: int| 0 <= i < whitespace_words(s).len() ==> is_word(#[trigger] whitespace_words(s)[i]),
        s.len() > 0 && !is_white_space(s[0]) ==> whitespace_words(s).len() > 0
            && whitespace_words(s)[0][0] == s[0],
    decreases s.len(),
{
    if s.len() > 0 {
        let t = s.drop_first();
        lemma_whitespace_words_are_words(t);
        let rest = whitespace_words(t);
        let ws = whitespace_words(s);
        if !is_white_space(s[0]) {
            if s.len() > 1 && !is_white_space(s[1]) {
                assert(t[0] == s[1]);
                let first = seq![s[0]] + rest[0];
                assert(is_word(rest[0]));
                assert forall|j: int| 0 <= j < first.len() implies !is_white_space(#[trigger] first[j]) by {
                    if j > 0 {
                        assert(first[j] == rest[0][j - 1]);
                    }
                }
                assert forall|i: int| 0 <= i < ws.len() implies is_word(#[trigger] ws[i]) by {
                    if i > 0 {
                        assert(ws[i] == rest[i]);
                    }
                }
            } else {
                assert forall|i: int| 0 <= i < ws.len() implies is_word(#[trigger] ws[i]) by {
                    if i > 0 {
                        assert(ws[i] == rest[i - 1]);
                    }
                }
            }
        }
    }
}

/// Lowercasing and cleansing a word gives no token or a token.
proof fn lemma_word_gives_token(w: Seq<char>)
    requires
        is_word(w),
    ensures
        cleanse(ascii_lowercase(w)) matches Some(t) ==> is_token(t),
{
    let x = ascii_lowercase(w);
    assert forall|j: int| 0 <= j < x.len() implies #[trigger] x[j] != ' ' by {
        assert(!is_white_space(w[j]));
    }
    lemma_noise_prefix(x);
    let rest = x.skip(noise_prefix(x) as int);
    lemma_first_noise(rest);
    if rest.len() > 0 {
        assert(rest[0] == x[noise_prefix(x) as int]);
        assert(first_noise(rest) > 0);
    }
    let t = rest.take(first_noise(rest) as int);
    assert forall|j: int| 0 <= j < t.len() implies ('a' <= #[trigger] t[j] && t[j] <= 'z') || ('0'
        <= t[j] && t[j] <= '9') by {
        assert(t[j] == rest[j]);
        assert(rest[j] == x[j + noise_prefix(x)]);
    }
}

/// The tokens of a sequence of words are tokens.
proof fn lemma_tokens_are_tokens(words: Seq<Seq<char>>)
    requires
        forall|i: int| 0 <= i < words.len() ==> is_word(#[trigger] words[i]),
    ensures
        forall|i: int| 0 <= i < tokens_of(words).len() ==> is_token(#[trigger] tokens_of(words)[i]),
    decreases words.len(),
{
    if words.len() > 0 {
        let init = words.drop_last();
        assert forall|i: int| 0 <= i < init.len() implies is_word(#[trigger] init[i]) by {
            assert(init[i] == words[i]);
        }
        lemma_tokens_are_tokens(init);
        lemma_word_gives_token(words.last());
        let ts = tokens_of(words);
        assert forall|i: int| 0 <= i < ts.len() implies is_token(#[trigger] ts[i]) by {
            if i < tokens_of(init).len() {
                assert(ts[i] == tokens_of(init)[i]);
            }
        }
    }
}

/// Relies on str::split_whitespace: the pieces of `s` separated by runs of
/// characters with the Unicode White_Space property, left to right, none of
/// them empty.
#[verifier::external_body]
fn split_whitespace<'a>(s: &'a str) -> (r: Vec<&'a str>)
    ensures
        r@.map_values(|w: &str| w@) == whitespace_words(s@),
{
    s.split_whitespace().collect()
}

/// The tokens of a sequence of candidate words: each word is lowercased and
/// cleansed; words that give no token are dropped, the rest keep their order.
pub open spec fn tokens_of(words: Seq<Seq<char>>) -> Seq<Seq<char>>
    decreases words.len(),
{
    if words.len() == 0 {
        seq![]
    } else {
        let init = tokens_of(words.drop_last());
        match cleanse(ascii_lowercase(words.last())) {
            Some(t) => init.push(t),
            None => init,
        }
    }
}

/// The tokens of one line of text.
pub open spec fn line_tokens(line: Seq<char>) -> Seq<Seq<char>> {
    tokens_of(whitespace_words(line))
}

/// Lowercases and cleanses each candidate word, keeping the tokens in order.
pub fn clean_words(words: &Vec<&str>, re: &WordRegex) -> (r: Vec<String>)
    requires
        re.wf(),
    ensures
        r@.map_values(|t: String| t@) == tokens_of(words@.map_values(|w: &str| w@)),
{
    let ghost all = words@.map_values(|w: &str| w@);
    let mut out: Vec<String> = Vec::new();
    let mut i: usize = 0;
    while i < words.len()
        invariant
            re.wf(),
            i <= words@.len(),
            all == words@.map_values(|w: &str| w@),
            out@.map_values(|t: String| t@) == tokens_of(all.take(i as int)),
        decreases words@.len() - i,
    {
        let lower = to_ascii_lowercase(words[i]);
        let cleansed = cleanse_word(lower.as_str(), re);
        assert(all.take(i + 1).drop_last() =~= all.take(i as int));
        assert(all.take(i + 1).last() == words@[i as int]@);
        match cleansed {
            Some(t) => {
                out.push(t.to_owned());
                assert(out@.map_values(|t: String| t@) =~= tokens_of(all.take(i + 1)));
            },
            None => {},
        }
        i = i + 1;
    }
    assert(all.take(words@.len() as int) =~= all);
    out
}

/// Splits a line on whitespace and cleanses each piece into a token.
pub fn parse_text_into_vec(line: &str, re: &WordRegex) -> (r: Vec<String>)
    requires
        re.wf(),
    ensures
        r@.map_values(|t: String| t@) == line_tokens(line@),
        forall|i: int| 0 <= i < r@.len() ==> is_token(#[trigger] r@[i]@),
{
    let words = split_whitespace(line);
    let r = clean_words(&words, re);
    proof {
        lemma_whitespace_words_are_words(line@);
        lemma_tokens_are_tokens(whitespace_words(line@));
        assert forall|i: int| 0 <= i < r@.len() implies is_token(#[trigger] r@[i]@) by {
            assert(r@.map_values(|t: String| t@)[i] == r@[i]@);
        }
    }
    r
}

/// A word made of letters `a`..`z` and digits alone is its own token.
pub proof fn lemma_clean_word_is_kept(t: Seq<char>)
    requires
        forall|k: int| 0 <= k < t.len() ==> ('a' <= #[trigger] t[k] && t[k] <= 'z') || ('0' <= t[k]
            && t[k] <= '9'),
    ensures
        cleanse(t) == Some(t),
{
    lemma_all_word_chars(t);
}

/// A non-empty word with no letter `a`..`z`, digit or space gives no token.
pub proof fn lemma_noise_gives_no_token(s: Seq<char>)
    requires
        s.len() > 0,
        forall|k: int| 0 <= k < s.len() ==> !is_word_char(#[trigger] s[k]),
    ensures
        cleanse(s) is None,
{
    lemma_all_noise(s);
    assert(s.skip(s.len() as int).len() == 0);
}

/// Cleansing a token again gives the same token.
pub proof fn lemma_cleanse_idempotent(s: Seq<char>)
    ensures
        cleanse(s) matches Some(t) ==> cleanse(t) == Some(t),
{
    lemma_noise_prefix(s);
    let rest = s.skip(noise_prefix(s) as int);
    lemma_first_noise(rest);
    let t = rest.take(first_noise(rest) as int);
    assert forall|k: int| 0 <= k < t.len() implies is_word_char(#[trigger] t[k]) by {
        assert(t[k] == rest[k]);
    }
    lemma_all_word_chars(t);
}

/// A text made of characters that may stand in a token is cleansed to itself.
proof fn lemma_all_word_chars(t: Seq<char>)
    requires
        forall|k: int| 0 <= k < t.len() ==> is_word_char(#[trigger] t[k]),
    ensures
        cleanse(t) == Some(t),
{
    lemma_first_noise(t);
    lemma_noise_prefix(t);
    if t.len() > 0 {
        assert(is_word_char(t[0]));
    }
    assert(noise_prefix(t) == 0);
    assert(t.skip(0) =~= t);
    assert(first_noise(t) == t.len());
    assert(t.take(t.len() as int) =~= t);
}

/// A text made of noise alone has all of it as its leading noise run.
proof fn lemma_all_noise(s: Seq<char>)
    requires
        forall|k: int| 0 <= k < s.len() ==> !is_word_char(#[trigger] s[k]),
    ensures
        noise_prefix(s) == s.len(),
    decreases s.len(),
{
    if s.len() > 0 {
        assert forall|k: int| 0 <= k < s.drop_first().len() implies !is_word_char(
            #[trigger] s.drop_first()[k],
        ) by {
            assert(s.drop_first()[k] == s[k + 1]);
        }
        lemma_all_noise(s.drop_first());
    }
}

/// Splitting at a white-space character splits the pieces there.
proof fn lemma_whitespace_words_join(a: Seq<char>, c: char, b: Seq<char>)
    requires
        is_white_space(c),
    ensures
        whitespace_words(a + seq![c] + b) == whitespace_words(a) + whitespace_words(b),
    decreases a.len(),
{
    let s = a + seq![c] + b;
    if a.len() == 0 {
        assert(s.drop_first() =~= b);
        assert(whitespace_words(a) + whitespace_words(b) =~= whitespace_words(b));
    } else {
        let a1 = a.drop_first();
        assert(s.drop_first() =~= a1 + seq![c] + b);
        lemma_whitespace_words_join(a1, c, b);
        let rest = whitespace_words(s.drop_first());
        let wa1 = whitespace_words(a1);
        let wb = whitespace_words(b);
        assert(s[0] == a[0]);
        if !is_white_space(a[0]) {
            if a.len() > 1 && !is_white_space(a[1]) {
                assert(s[1] == a[1]);
                assert(a1[0] == a[1]);
                lemma_whitespace_words_are_words(a1);
                assert(rest[0] == wa1[0]);
                assert(rest.drop_first() =~= wa1.drop_first() + wb);
                assert(whitespace_words(s) =~= whitespace_words(a) + wb);
            } else {
                if a.len() == 1 {
                    assert(s[1] == c);
                    assert(a1.len() == 0);
                    assert(wa1 =~= Seq::<Seq<char>>::empty());
                } else {
                    assert(s[1] == a[1]);
                }
                assert(whitespace_words(s) =~= whitespace_words(a) + wb);
            }
        }
    }
}

/// The tokens of joined runs of words are the tokens of each run, in turn.
proof fn lemma_tokens_of_concat(x: Seq<Seq<char>>, y: Seq<Seq<char>>)
    ensures
        tokens_of(x + y) == tokens_of(x) + tokens_of(y),
    decreases y.len(),
{
    if y.len() == 0 {
        assert(x + y =~= x);
        assert(tokens_of(x) + tokens_of(y) =~= tokens_of(x));
    } else {
        assert((x + y).drop_last() =~= x + y.drop_last());
        assert((x + y).last() == y.last());
        lemma_tokens_of_concat(x, y.drop_last());
        match cleanse(ascii_lowercase(y.last())) {
            Some(t) => {
                assert(tokens_of(x + y) =~= tokens_of(x) + tokens_of(y));
            },
            None => {},
        }
    }
}

/// A line break, or any other white-space character, does not cut a token
/// stream: the tokens of the text before it and then of the text after it
/// are the tokens of the whole text.
pub proof fn lemma_line_break_keeps_tokens(a: Seq<char>, c: char, b: Seq<char>)
    requires
        is_white_space(c),
    ensures
        line_tokens(a + seq![c] + b) == line_tokens(a) + line_tokens(b),
{
    lemma_whitespace_words_join(a, c, b);
    lemma_tokens_of_concat(whitespace_words(a), whitespace_words(b));
}

} // verus!
