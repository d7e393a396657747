//! Shell quoting of paths, and its inverse.
//!
//! A path is rendered as a single-quoted shell word: the whole byte string
//! is wrapped in single quotes, and each embedded single quote is written as
//! `'\''` (close the quotes, an escaped quote, reopen the quotes). The
//! transform is total and pure.
//!
//! [`parse_token_from`] is a POSIX-style word tokenizer over one record:
//! single-quoted spans are taken verbatim, a backslash outside quotes
//! escapes the next byte, and an unquoted blank ends the word.
//! [`lemma_quote_round_trip`] shows that tokenizing a quoted path yields
//! exactly the original path, whatever bytes it holds.

use vstd::prelude::*;

verus! {

/// The byte value of `'`.
pub const QUOTE_BYTE: u8 = 39;

/// The byte value of `\`.
pub const BACKSLASH_BYTE: u8 = 92;

/// How one byte of the path is written inside the single-quoted word.
pub open spec fn quoted_byte(b: u8) -> Seq<u8> {
    if b == QUOTE_BYTE {
        seq![QUOTE_BYTE, BACKSLASH_BYTE, QUOTE_BYTE, QUOTE_BYTE]
    } else {
        seq![b]
    }
}

/// The body of the quoted word: each byte in its written form, in order.
pub open spec fn quoted_body(s: Seq<u8>) -> Seq<u8>
    decreases s.len(),
{
    if s.len() == 0 {
        Seq::empty()
    } else {
        quoted_byte(s.first()) + quoted_body(s.drop_first())
    }
}

/// The quoted form of a byte string: the body wrapped in single quotes.
pub open spec fn quoted_spec(s: Seq<u8>) -> Seq<u8> {
    seq![QUOTE_BYTE] + quoted_body(s) + seq![QUOTE_BYTE]
}

/// An unquoted blank ends a shell word: space, tab or newline.
pub open spec fn is_word_break(b: u8) -> bool {
    b == 32 || b == 9 || b == 10
}

/// A POSIX-style tokenizer over the remainder of one record: `acc` holds
/// the word built so far, `in_quote` says whether a single-quoted span is
/// open. Yields the word exactly when the record is one whole word.
pub open spec fn parse_token_from(rest: Seq<u8>, in_quote: bool, acc: Seq<u8>) -> Option<Seq<u8>>
    decreases rest.len(),
{
    if rest.len() == 0 {
        if in_quote {
            None
        } else {
            Some(acc)
        }
    } else {
        let b = rest.first();
        if in_quote {
            if b == QUOTE_BYTE {
                parse_token_from(rest.drop_first(), false, acc)
            } else {
                parse_token_from(rest.drop_first(), true, acc.push(b))
            }
        } else {
            if b == QUOTE_BYTE {
                parse_token_from(rest.drop_first(), true, acc)
            } else if b == BACKSLASH_BYTE {
                if rest.len() >= 2 {
                    parse_token_from(rest.drop_first().drop_first(), false, acc.push(rest[1]))
                } else {
                    None
                }
            } else if is_word_break(b) {
                None
            } else {
                parse_token_from(rest.drop_first(), false, acc.push(b))
            }
        }
    }
}

/// Tokenizes one whole record as a single shell word.
pub open spec fn parse_token_spec(s: Seq<u8>) -> Option<Seq<u8>> {
    parse_token_from(s, false, Seq::empty())
}

/// Appending one byte to the path appends its written form to the body.
pub proof fn lemma_quoted_body_append(a: Seq<u8>, b: u8)
    ensures
        quoted_body(a.push(b)) == quoted_body(a) + quoted_byte(b),
    decreases a.len(),
{
    if a.len() == 0 {
        assert(a.push(b).drop_first() =~= Seq::<u8>::empty());
        assert(quoted_body(Seq::<u8>::empty()) =~= Seq::<u8>::empty());
        assert(quoted_body(a.push(b)) =~= quoted_byte(b));
        assert(quoted_body(a) + quoted_byte(b) =~= quoted_byte(b));
    } else {
        assert(a.push(b).drop_first() =~= a.drop_first().push(b));
        assert(a.push(b).first() == a.first());
        lemma_quoted_body_append(a.drop_first(), b);
        assert(quoted_byte(a.first()) + (quoted_body(a.drop_first()) + quoted_byte(b))
            =~= (quoted_byte(a.first()) + quoted_body(a.drop_first())) + quoted_byte(b));
    }
}

/// Quotes a byte string as a single shell word.
pub fn quote(s: &Vec<u8>) -> (r: Vec<u8>)
    ensures
        r@ == quoted_spec(s@),
{
    let mut out: Vec<u8> = Vec::new();
    out.push(QUOTE_BYTE);
    proof {
        assert(s@.subrange(0, 0) =~= Seq::<u8>::empty());
        assert(out@ =~= seq![QUOTE_BYTE] + quoted_body(s@.subrange(0, 0)));
    }
    let mut i: usize = 0;
    while i < s.len()
        invariant
            i <= s.len(),
            out@ == seq![QUOTE_BYTE] + quoted_body(s@.subrange(0, i as int)),
        decreases s.len() - i,
    {
        let b = s[i];
        if b == QUOTE_BYTE {
            out.push(QUOTE_BYTE);
            out.push(BACKSLASH_BYTE);
            out.push(QUOTE_BYTE);
            out.push(QUOTE_BYTE);
        } else {
            out.push(b);
        }
        proof {
            lemma_quoted_body_append(s@.subrange(0, i as int), b);
            assert(s@.subrange(0, i + 1) =~= s@.subrange(0, i as int).push(b));
            assert(out@ =~= seq![QUOTE_BYTE] + quoted_body(s@.subrange(0, i + 1)));
        }
        i = i + 1;
    }
    out.push(QUOTE_BYTE);
    proof {
        assert(s@.subrange(0, s@.len() as int) =~= s@);
        assert(out@ =~= quoted_spec(s@));
    }
    out
}

/// Inside an open single-quoted span whose body is the written form of
/// `s`, the tokenizer copies `s` verbatim and leaves the span at the
/// closing quote.
proof fn lemma_parse_quoted_body(s: Seq<u8>, rest: Seq<u8>, acc: Seq<u8>)
    ensures
        parse_token_from(quoted_body(s) + seq![QUOTE_BYTE] + rest, true, acc)
            == parse_token_from(rest, false, acc + s),
    decreases s.len(),
{
    if s.len() == 0 {
        let whole = quoted_body(s) + seq![QUOTE_BYTE] + rest;
        assert(quoted_body(s) =~= Seq::<u8>::empty());
        assert(whole.len() == 1 + rest.len());
        assert(whole.first() == QUOTE_BYTE);
        assert(whole.drop_first() =~= rest);
        assert(parse_token_from(whole, true, acc) == parse_token_from(rest, false, acc));
        assert(acc + s =~= acc);
    } else {
        let b = s.first();
        let tail = quoted_body(s.drop_first()) + seq![QUOTE_BYTE] + rest;
        let whole = quoted_body(s) + seq![QUOTE_BYTE] + rest;
        assert(quoted_body(s) == quoted_byte(b) + quoted_body(s.drop_first()));
        if b == QUOTE_BYTE {
            // the written form of a quote: leave the span, escaped quote, reopen
            assert(whole =~= seq![QUOTE_BYTE, BACKSLASH_BYTE, QUOTE_BYTE, QUOTE_BYTE] + tail);
            let w1 = whole.drop_first();
            assert(whole.first() == QUOTE_BYTE);
            assert(parse_token_from(whole, true, acc) == parse_token_from(w1, false, acc));
            assert(w1 =~= seq![BACKSLASH_BYTE, QUOTE_BYTE, QUOTE_BYTE] + tail);
            assert(w1.first() == BACKSLASH_BYTE);
            assert(w1.len() >= 2);
            assert(w1[1] == QUOTE_BYTE);
            let w2 = w1.drop_first().drop_first();
            assert(parse_token_from(w1, false, acc) == parse_token_from(w2, false, acc.push(QUOTE_BYTE)));
            assert(w2 =~= seq![QUOTE_BYTE] + tail);
            assert(w2.first() == QUOTE_BYTE);
            assert(w2.drop_first() =~= tail);
            assert(parse_token_from(w2, false, acc.push(QUOTE_BYTE)) == parse_token_from(tail, true, acc.push(QUOTE_BYTE)));
            lemma_parse_quoted_body(s.drop_first(), rest, acc.push(b));
            assert(acc.push(b) + s.drop_first() =~= acc + s);
        } else {
            assert(whole =~= seq![b] + tail);
            assert(whole.first() == b);
            assert(whole.drop_first() =~= tail);
            assert(parse_token_from(whole, true, acc) == parse_token_from(tail, true, acc.push(b)));
            lemma_parse_quoted_body(s.drop_first(), rest, acc.push(b));
            assert(acc.push(b) + s.drop_first() =~= acc + s);
        }
    }
}

/// Round trip: tokenizing the quoted form of any byte string yields exactly
/// that byte string, whatever bytes — blanks, quotes, backslashes — it holds.
pub proof fn lemma_quote_round_trip(s: Seq<u8>)
    ensures
        parse_token_spec(quoted_spec(s)) == Some(s),
{
    let whole = quoted_spec(s);
    assert(whole.first() == QUOTE_BYTE);
    assert(whole.drop_first() =~= quoted_body(s) + seq![QUOTE_BYTE] + Seq::<u8>::empty());
    lemma_parse_quoted_body(s, Seq::empty(), Seq::empty());
    assert(parse_token_from(Seq::<u8>::empty(), false, Seq::<u8>::empty() + s) == Some(Seq::<u8>::empty() + s));
    assert(Seq::<u8>::empty() + s =~= s);
}

} // verus!
