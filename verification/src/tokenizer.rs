use vstd::prelude::*;

verus! {

/// Whether a character counts as whitespace for tokenization.
pub uninterp spec fn is_whitespace_char(c: char) -> bool;

/// Relies on char::is_whitespace: whether a character has the Unicode
/// White_Space property depends on the character alone.
#[verifier::external_body]
fn char_is_whitespace(c: char) -> (r: bool)
    ensures
        r == is_whitespace_char(c),
{
    c.is_whitespace()
}

/// The spans `scan_tokens` still produces from position `i` on, given
/// that a token began at `cur` and is still open. A span `(a, b)` is a
/// maximal run of non-whitespace characters `a..b`.
pub open spec fn scan_tokens(s: Seq<char>, i: int, cur: Option<int>) -> Seq<(int, int)>
    decreases s.len() - i,
{
    if i < 0 || i > s.len() {
        Seq::empty()
    } else if i == s.len() {
        match cur {
            Some(start) => seq![(start, i)],
            None => Seq::empty(),
        }
    } else if is_whitespace_char(s[i]) {
        match cur {
            Some(start) => seq![(start, i)] + scan_tokens(s, i + 1, None),
            None => scan_tokens(s, i + 1, None),
        }
    } else {
        match cur {
            Some(start) => scan_tokens(s, i + 1, Some(start)),
            None => scan_tokens(s, i + 1, Some(i)),
        }
    }
}

/// The token spans of a text: each maximal run of non-whitespace
/// characters, as a half-open character-index range.
pub open spec fn token_spans(s: Seq<char>) -> Seq<(int, int)> {
    scan_tokens(s, 0, None)
}

/// Splits a text on whitespace characters.
#[derive(Clone, Copy, Debug)]
pub struct WhitespaceTokenizer;

impl WhitespaceTokenizer {
    /// The spans of the text's tokens, in order: one `(start, end)`
    /// character-index pair per maximal non-whitespace run.
    pub fn token_spans(&self, text: &Vec<char>) -> (spans: Vec<(usize, usize)>)
        ensures
            spans@.map_values(|p: (usize, usize)| (p.0 as int, p.1 as int)) == token_spans(text@),
    {
        let n = text.len();
        let mut spans: Vec<(usize, usize)> = Vec::new();
        let mut cur: Option<usize> = None;
        let mut i: usize = 0;
        proof {
            assert(spans@.map_values(|p: (usize, usize)| (p.0 as int, p.1 as int)) =~= Seq::<(
                int,
                int,
            )>::empty());
            assert(Seq::<(int, int)>::empty() + scan_tokens(text@, 0, None) =~= token_spans(
                text@,
            ));
        }
        while i < n
            invariant
                0 <= i <= n,
                n == text@.len(),
                match cur {
                    Some(start) => 0 <= start < i,
                    None => true,
                },
                spans@.map_values(|p: (usize, usize)| (p.0 as int, p.1 as int)) + scan_tokens(
                    text@,
                    i as int,
                    match cur {
                        Some(start) => Some(start as int),
                        None => None,
                    },
                ) == token_spans(text@),
            decreases n - i,
        {
            let ghost views = spans@.map_values(|p: (usize, usize)| (p.0 as int, p.1 as int));
            if char_is_whitespace(text[i]) {
                match cur {
                    Some(start) => {
                        spans.push((start, i));
                        proof {
                            assert(spans@.map_values(
                                |p: (usize, usize)| (p.0 as int, p.1 as int),
                            ) =~= views.push((start as int, i as int)));
                            assert(views.push((start as int, i as int)) + scan_tokens(
                                text@,
                                i as int + 1,
                                None,
                            ) =~= views + (seq![(start as int, i as int)] + scan_tokens(
                                text@,
                                i as int + 1,
                                None,
                            )));
                        }
                        cur = None;
                    },
                    None => {},
                }
            } else {
                match cur {
                    Some(_) => {},
                    None => {
                        cur = Some(i);
                    },
                }
            }
            i += 1;
        }
        match cur {
            Some(start) => {
                let ghost views = spans@.map_values(|p: (usize, usize)| (p.0 as int, p.1 as int));
                spans.push((start, n));
                proof {
                    assert(scan_tokens(text@, n as int, Some(start as int)) =~= seq![
                        (start as int, n as int),
                    ]);
                    assert(spans@.map_values(|p: (usize, usize)| (p.0 as int, p.1 as int)) =~= views
                        + seq![(start as int, n as int)]);
                }
            },
            None => {
                proof {
                    assert(scan_tokens(text@, n as int, None) =~= Seq::<(int, int)>::empty());
                    assert(spans@.map_values(|p: (usize, usize)| (p.0 as int, p.1 as int))
                        + Seq::<(int, int)>::empty() =~= spans@.map_values(
                        |p: (usize, usize)| (p.0 as int, p.1 as int),
                    ));
                }
            },
        }
        spans
    }
}

} // verus!
