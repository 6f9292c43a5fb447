use vstd::prelude::*;

use crate::error::SyntaxError;
use crate::lexer::{
    after, closes_string, is_literal_char, lemma_after_after, lex, literal_end, string_end,
    structural_token,
};
use crate::literal::{classify, decimal_int, digits_between, digits_value, is_digit, sign_len, LexError};
use crate::parser::{
    lemma_value_advances, MAX_DEPTH, array_at, array_tree, object_tree, elements_at, elements_tree, members_at, members_tree, object_at, string_rest, value_at,
    value_tree,
};
use crate::token::{token_at, TokenView};
use crate::tree::{
    digit_char, elements_text, elements_tokens, elements_well_formed, members_text, members_tokens,
    members_well_formed, nat_text, quoted, value_text, value_tokens, well_formed, JsonValue,
    elements_nesting, members_nesting, nesting,
};

verus! {

broadcast use vstd::seq::axiom_seq_index_decreases, vstd::seq::axiom_seq_subrange_decreases;

/// Where `s` stands in `t` at `q`, a part of `s` stands in `t` at the same offset.
pub proof fn lemma_window<A>(t: Seq<A>, q: int, s: Seq<A>, a: int, b: int)
    requires
        0 <= q,
        q + s.len() <= t.len(),
        t.subrange(q, q + s.len()) == s,
        0 <= a <= b <= s.len(),
    ensures
        t.subrange(q + a, q + b) == s.subrange(a, b),
        forall|k: int| a <= k < b ==> t[q + k] == s[k],
{
    assert forall|k: int| a <= k < b implies t[q + k] == s[k] by {
        assert(t.subrange(q, q + s.len())[k] == t[q + k]);
    }
    assert(t.subrange(q + a, q + b) =~= s.subrange(a, b));
}

/// The tokens of a value, standing at `p`, are read as one value that ends
/// just after them.
pub proof fn lemma_parse_value(t: Seq<TokenView>, p: int, v: JsonValue, d: int)
    requires
        0 <= p,
        0 <= d,
        d + nesting(v) <= MAX_DEPTH,
        p + value_tokens(v).len() <= t.len(),
        t.subrange(p, p + value_tokens(v).len()) == value_tokens(v),
    ensures
        value_at(t, p, d) == Ok::<int, SyntaxError>(p + value_tokens(v).len()),
        value_tree(t, p, d) == v,
    decreases v,
{
    let s = value_tokens(v);
    lemma_window(t, p, s, 0, s.len() as int);
    match v {
        JsonValue::Object(m) => {
            let mt = members_tokens(m);
            let n = mt.len() as int;
            assert(s[0] == TokenView::LeftBrace);
            assert(s[n + 1] == TokenView::RightBrace);
            if m.len() == 0 {
                assert(token_at(t, p + 1) == Some(TokenView::RightBrace));
                assert(object_at(t, p, d) == Ok::<int, SyntaxError>(p + 2));
                assert(m =~= seq![]);
            } else {
                assert(s.subrange(1, n + 1) =~= mt);
                lemma_window(t, p, s, 1, n + 1);
                lemma_parse_members(t, p + 1, m, d + 1);
                assert(mt[0] == TokenView::DoubleQuote);
                assert(token_at(t, p + 1) == Some(TokenView::DoubleQuote));
            }
        },
        JsonValue::Array(a) => {
            let et = elements_tokens(a);
            let n = et.len() as int;
            assert(s[0] == TokenView::LeftBracket);
            assert(s[n + 1] == TokenView::RightBracket);
            if a.len() == 0 {
                assert(token_at(t, p + 1) == Some(TokenView::RightBracket));
                assert(array_at(t, p, d) == Ok::<int, SyntaxError>(p + 2));
                assert(a =~= seq![]);
            } else {
                assert(s.subrange(1, n + 1) =~= et);
                lemma_window(t, p, s, 1, n + 1);
                lemma_parse_elements(t, p + 1, a, d + 1);
                lemma_first_token_not_closing(a[0]);
                lemma_starts_with(et, value_tokens(a[0]), a);
                assert(token_at(t, p + 1) != Some(TokenView::RightBracket));
            }
        },
        JsonValue::Str(x) => {
            assert(string_rest(t, p + 1) == Ok::<int, SyntaxError>(p + 3));
        },
        _ => {},
    }
}

/// No value's tokens start with a closing bracket, and there is at least one.
pub proof fn lemma_first_token_not_closing(v: JsonValue)
    ensures
        value_tokens(v).len() > 0,
        value_tokens(v)[0] != TokenView::RightBracket,
        value_tokens(v)[0] != TokenView::RightBrace,
{
    match v {
        JsonValue::Object(m) => {
            assert((seq![TokenView::LeftBrace] + members_tokens(m) + seq![TokenView::RightBrace])[0]
                == TokenView::LeftBrace);
        },
        JsonValue::Array(a) => {
            assert((seq![TokenView::LeftBracket] + elements_tokens(a) + seq![TokenView::RightBracket])[0]
                == TokenView::LeftBracket);
        },
        _ => {},
    }
}

/// The tokens of a nonempty array's elements start with those of its first.
pub proof fn lemma_starts_with(et: Seq<TokenView>, first: Seq<TokenView>, a: Seq<JsonValue>)
    requires
        a.len() > 0,
        et == elements_tokens(a),
        first == value_tokens(a[0]),
        first.len() > 0,
    ensures
        et[0] == first[0],
{
    if a.len() > 1 {
        assert((first + seq![TokenView::Comma] + elements_tokens(a.drop_first()))[0] == first[0]);
    }
}

/// The tokens of nonempty members, standing at `q` and followed by `}`, are
/// read up to and including that `}`.
pub proof fn lemma_parse_members(t: Seq<TokenView>, q: int, m: Seq<(Seq<char>, JsonValue)>, d: int)
    requires
        m.len() > 0,
        0 <= q,
        0 <= d,
        d + members_nesting(m) <= MAX_DEPTH,
        q + members_tokens(m).len() < t.len(),
        t.subrange(q, q + members_tokens(m).len()) == members_tokens(m),
        t[q + members_tokens(m).len()] == TokenView::RightBrace,
    ensures
        members_at(t, q, d) == Ok::<int, SyntaxError>(q + members_tokens(m).len() + 1),
        members_tree(t, q, d) == m,
    decreases m,
{
    let s = members_tokens(m);
    let vt = value_tokens(m[0].1);
    let n = vt.len() as int;
    let key = seq![TokenView::DoubleQuote, TokenView::StringValue(m[0].0), TokenView::DoubleQuote];
    let entry = key + seq![TokenView::Colon] + vt;
    assert(decreases_to!(m => m[0]));
    lemma_window(t, q, s, 0, s.len() as int);
    assert(s.subrange(0, 4 + n) =~= entry) by {
        if m.len() > 1 {
            assert((entry + seq![TokenView::Comma] + members_tokens(m.drop_first())).subrange(0, 4 + n)
                =~= entry);
        }
    }
    assert(entry.subrange(4, 4 + n) =~= vt);
    lemma_window(t, q, s, 0, 4 + n);
    lemma_window(t, q, entry, 4, 4 + n);
    assert(s[0] == entry[0] && s[1] == entry[1] && s[2] == entry[2] && s[3] == entry[3]);
    assert(t[q + 0] == s[0] && t[q + 1] == s[1] && t[q + 2] == s[2] && t[q + 3] == s[3]);
    assert(t[q] == TokenView::DoubleQuote);
    assert(string_rest(t, q + 1) == Ok::<int, SyntaxError>(q + 3));
    assert(t[q + 3] == TokenView::Colon);
    lemma_parse_value(t, q + 4, m[0].1, d);
    let e = q + 4 + n;
    assert(token_at(t, q + 1) == Some(TokenView::StringValue(m[0].0)));
    if m.len() == 1 {
        assert(s =~= entry);
        assert(t[q + (4 + n)] == TokenView::RightBrace);
        assert(members_tree(t, q, d) == seq![(m[0].0, m[0].1)]);
        assert(m =~= seq![(m[0].0, m[0].1)]);
    } else {
        let rest = members_tokens(m.drop_first());
        assert(s =~= entry + seq![TokenView::Comma] + rest);
        assert(s[4 + n] == TokenView::Comma);
        assert(t[q + (4 + n)] == s[4 + n]);
        assert(s.subrange(4 + n + 1, s.len() as int) =~= rest);
        lemma_window(t, q, s, 4 + n + 1, s.len() as int);
        lemma_parse_members(t, e + 1, m.drop_first(), d);
        assert(m =~= seq![(m[0].0, m[0].1)] + m.drop_first());
    }
}

/// The tokens of nonempty elements, standing at `q` and followed by `]`, are
/// read up to and including that `]`.
pub proof fn lemma_parse_elements(t: Seq<TokenView>, q: int, a: Seq<JsonValue>, d: int)
    requires
        a.len() > 0,
        0 <= q,
        0 <= d,
        d + elements_nesting(a) <= MAX_DEPTH,
        q + elements_tokens(a).len() < t.len(),
        t.subrange(q, q + elements_tokens(a).len()) == elements_tokens(a),
        t[q + elements_tokens(a).len()] == TokenView::RightBracket,
    ensures
        elements_at(t, q, d) == Ok::<int, SyntaxError>(q + elements_tokens(a).len() + 1),
        elements_tree(t, q, d) == a,
    decreases a,
{
    let s = elements_tokens(a);
    let vt = value_tokens(a[0]);
    let n = vt.len() as int;
    lemma_window(t, q, s, 0, s.len() as int);
    lemma_first_token_not_closing(a[0]);
    if a.len() == 1 {
        assert(s == vt);
        lemma_parse_value(t, q, a[0], d);
        assert(t[q + n] == TokenView::RightBracket);
        assert(a =~= seq![a[0]]);
    } else {
        let rest = elements_tokens(a.drop_first());
        assert(s =~= vt + seq![TokenView::Comma] + rest);
        assert(s.subrange(0, n) =~= vt);
        lemma_window(t, q, s, 0, n);
        lemma_parse_value(t, q, a[0], d);
        assert(s[n] == TokenView::Comma);
        assert(t[q + n] == s[n]);
        assert(s.subrange(n + 1, s.len() as int) =~= rest);
        lemma_window(t, q, s, n + 1, s.len() as int);
        lemma_parse_elements(t, q + n + 1, a.drop_first(), d);
        assert(a =~= seq![a[0]] + a.drop_first());
    }
}

pub proof fn lemma_digit_char(d: int)
    requires
        0 <= d < 10,
    ensures
        is_digit(digit_char(d)),
        digit_char(d) as u32 - '0' as u32 == d,
{
    let ds = seq!['0', '1', '2', '3', '4', '5', '6', '7', '8', '9'];
    assert(ds[0] == '0' && ds[1] == '1' && ds[2] == '2' && ds[3] == '3' && ds[4] == '4');
    assert(ds[5] == '5' && ds[6] == '6' && ds[7] == '7' && ds[8] == '8' && ds[9] == '9');
}

/// The decimal digits of `n` are digits, at least one, and stand for `n`.
pub proof fn lemma_nat_text(n: nat)
    ensures
        nat_text(n).len() >= 1,
        digits_between(nat_text(n), 0, nat_text(n).len() as int),
        digits_value(nat_text(n)) == n,
    decreases n,
{
    if n < 10 {
        lemma_digit_char(n as int);
        let w = seq![digit_char(n as int)];
        assert(w.drop_last() =~= Seq::<char>::empty());
        assert(digits_value(Seq::<char>::empty()) == 0);
        assert(digits_value(w) == 10 * digits_value(w.drop_last()) + (w.last() as u32 - '0' as u32));
    } else {
        lemma_nat_text(n / 10);
        lemma_digit_char((n % 10) as int);
        let x = nat_text(n / 10);
        let w = x.push(digit_char((n % 10) as int));
        assert(w.drop_last() =~= x);
        assert(w.last() == digit_char((n % 10) as int));
        assert(digits_value(w) == 10 * digits_value(x) + (n % 10));
        assert(10 * (n / 10) + n % 10 == n);
        assert forall|k: int| 0 <= k < w.len() implies is_digit(w[k]) by {
            if k < x.len() {
                assert(w[k] == x[k]);
            }
        }
    }
}

/// A string whose quotes are all before `q`, at `q` quotes, followed by
/// the end or by one of `, : ] }`, ends at `q`.
pub proof fn lemma_string_end_at(s: Seq<char>, a: int, q: int)
    requires
        0 <= a <= q < s.len(),
        forall|k: int| a <= k < q ==> s[k] != '"',
        s[q] == '"',
        q + 1 == s.len() || closes_string(s[q + 1]),
    ensures
        string_end(s, a) == q,
    decreases q - a,
{
    if a < q {
        lemma_string_end_at(s, a + 1, q);
    }
}

/// A literal word that runs from `a` up to a character that cannot continue it
/// (or the end) ends there.
pub proof fn lemma_literal_end_at(s: Seq<char>, a: int, j: int)
    requires
        0 <= a <= j <= s.len(),
        forall|k: int| a <= k < j ==> is_literal_char(s[k]),
        j == s.len() || !is_literal_char(s[j]),
    ensures
        literal_end(s, a) == j,
    decreases j - a,
{
    if a < j {
        lemma_literal_end_at(s, a + 1, j);
    }
}

/// A literal word at `i..j` becomes its one token.
pub proof fn lemma_lex_word(s: Seq<char>, i: int, j: int, tok: TokenView)
    requires
        0 <= i < j <= s.len(),
        forall|k: int| i <= k < j ==> is_literal_char(s[k]),
        j == s.len() || !is_literal_char(s[j]),
        classify(s.subrange(i, j)) == Ok::<TokenView, LexError>(tok),
    ensures
        lex(s, i) == after(seq![tok], lex(s, j)),
{
    assert(is_literal_char(s[i]));
    lemma_literal_end_at(s, i + 1, j);
}

/// A scalar other than a string: its text is a literal word that stands for
/// its token.
pub proof fn lemma_word_value(v: JsonValue)
    requires
        well_formed(v),
        v is Bool || v is Int || v is Float || v is Null,
    ensures
        value_text(v).len() >= 1,
        forall|k: int| 0 <= k < value_text(v).len() ==> is_literal_char(#[trigger] value_text(v)[k]),
        classify(value_text(v)) == Ok::<TokenView, LexError>(value_tokens(v)[0]),
{
    let w = value_text(v);
    let t4 = seq!['t', 'r', 'u', 'e'];
    let f5 = seq!['f', 'a', 'l', 's', 'e'];
    let n4 = seq!['n', 'u', 'l', 'l'];
    match v {
        JsonValue::Bool(b) => {
            if !b {
                assert(w.len() != t4.len());
            }
        },
        JsonValue::Null => {
            assert(w[0] != t4[0]);
            assert(w.len() != f5.len());
        },
        JsonValue::Int(n) => {
            let d = if n < 0 { (-n) as nat } else { n as nat };
            lemma_nat_text(d);
            let digits = nat_text(d);
            assert(forall|k: int| 0 <= k < digits.len() ==> is_digit(#[trigger] digits[k]));
            if n < 0 {
                assert(w =~= seq!['-'] + digits);
                assert(w.subrange(1, w.len() as int) =~= digits);
                assert forall|k: int| 0 <= k < w.len() implies (w[k] == '-' || is_digit(#[trigger] w[k])) by {
                    if k > 0 {
                        assert(w[k] == digits[k - 1]);
                    }
                }
                assert(sign_len(w, 0, w.len() as int) == 1);
            } else {
                assert(w == digits);
                assert(w.subrange(0, w.len() as int) =~= digits);
                assert(sign_len(w, 0, w.len() as int) == 0);
            }
            assert forall|k: int| 0 <= k < w.len() implies (w[k] == '-' || is_digit(#[trigger] w[k])) by {
                if n < 0 && k > 0 {
                    assert(w[k] == digits[k - 1]);
                }
            }
            assert(w[0] != 't' && w[0] != 'f' && w[0] != 'n');
            assert(!w.contains('.') && !w.contains('e') && !w.contains('E'));
            assert(decimal_int(w) == Some(n));
        },
        JsonValue::Float(f) => {
            assert(f[0] != 't' && f[0] != 'f' && f[0] != 'n');
            assert(f.len() >= 1);
        },
        _ => {},
    }
}

/// The canonical text of a well-formed value, standing at `i` and followed by
/// the end or by one of `, : ] }`, becomes exactly the value's tokens.
#[verifier::rlimit(40)]
pub proof fn lemma_lex_value(s: Seq<char>, i: int, v: JsonValue)
    requires
        well_formed(v),
        0 <= i,
        i + value_text(v).len() <= s.len(),
        s.subrange(i, i + value_text(v).len()) == value_text(v),
        i + value_text(v).len() == s.len() || closes_string(s[i + value_text(v).len()]),
    ensures
        lex(s, i) == after(value_tokens(v), lex(s, i + value_text(v).len())),
    decreases v,
{
    let w = value_text(v);
    let j = i + w.len();
    lemma_window(s, i, w, 0, w.len() as int);
    match v {
        JsonValue::Str(x) => {
            let q = i + 1 + x.len();
            assert(w == seq!['"'] + x + seq!['"']);
            assert(s[i + 0] == w[0]);
            assert(s[i + (1 + x.len())] == w[1 + x.len() as int]);
            assert forall|k: int| i + 1 <= k < q implies s[k] != '"' by {
                assert(s[i + (k - i)] == w[k - i]);
                assert(w[k - i] == x[k - i - 1]);
                assert(!x.contains('"'));
            }
            lemma_string_end_at(s, i + 1, q);
            assert(s.subrange(i + 1, q) =~= x) by {
                assert forall|k: int| 0 <= k < x.len() implies s.subrange(i + 1, q)[k] == x[k] by {
                    assert(s[i + (k + 1)] == w[k + 1]);
                }
            }
        },
        JsonValue::Object(m) => {
            let mt = members_text(m);
            let n = mt.len() as int;
            assert(w == seq!['{'] + mt + seq!['}']);
            assert(s[i + 0] == w[0]);
            assert(s[i + (n + 1)] == w[n + 1]);
            assert(structural_token('{') == Some(TokenView::LeftBrace));
            assert(structural_token('}') == Some(TokenView::RightBrace));
            let close = after(seq![TokenView::RightBrace], lex(s, j));
            assert(lex(s, i + 1 + n) == close);
            if m.len() == 0 {
                lemma_after_after(seq![TokenView::LeftBrace], seq![TokenView::RightBrace], lex(s, j));
                assert(value_tokens(v) =~= seq![TokenView::LeftBrace] + seq![TokenView::RightBrace]);
            } else {
                assert(w.subrange(1, n + 1) =~= mt);
                lemma_window(s, i, w, 1, n + 1);
                lemma_lex_members(s, i + 1, m);
                let mtok = members_tokens(m);
                lemma_after_after(mtok, seq![TokenView::RightBrace], lex(s, j));
                lemma_after_after(seq![TokenView::LeftBrace], mtok + seq![TokenView::RightBrace], lex(s, j));
                assert(value_tokens(v) =~= seq![TokenView::LeftBrace] + (mtok + seq![TokenView::RightBrace]));
            }
        },
        JsonValue::Array(a) => {
            let et = elements_text(a);
            let n = et.len() as int;
            assert(w == seq!['['] + et + seq![']']);
            assert(s[i + 0] == w[0]);
            assert(s[i + (n + 1)] == w[n + 1]);
            assert(structural_token('[') == Some(TokenView::LeftBracket));
            assert(structural_token(']') == Some(TokenView::RightBracket));
            let close = after(seq![TokenView::RightBracket], lex(s, j));
            assert(lex(s, i + 1 + n) == close);
            if a.len() == 0 {
                lemma_after_after(seq![TokenView::LeftBracket], seq![TokenView::RightBracket], lex(s, j));
                assert(value_tokens(v) =~= seq![TokenView::LeftBracket] + seq![TokenView::RightBracket]);
            } else {
                assert(w.subrange(1, n + 1) =~= et);
                lemma_window(s, i, w, 1, n + 1);
                lemma_lex_elements(s, i + 1, a);
                let etok = elements_tokens(a);
                lemma_after_after(etok, seq![TokenView::RightBracket], lex(s, j));
                lemma_after_after(seq![TokenView::LeftBracket], etok + seq![TokenView::RightBracket], lex(s, j));
                assert(value_tokens(v) =~= seq![TokenView::LeftBracket] + (etok + seq![TokenView::RightBracket]));
            }
        },
        _ => {
            lemma_word_value(v);
            assert forall|k: int| i <= k < j implies is_literal_char(s[k]) by {
                assert(s[i + (k - i)] == w[k - i]);
            }
            assert(s.subrange(i, j) == w);
            lemma_lex_word(s, i, j, value_tokens(v)[0]);
            assert(value_tokens(v) =~= seq![value_tokens(v)[0]]);
        },
    }
}

/// The text of nonempty well-formed members, standing at `p` and followed by
/// `}`, becomes exactly their tokens.
pub proof fn lemma_lex_members(s: Seq<char>, p: int, m: Seq<(Seq<char>, JsonValue)>)
    requires
        m.len() > 0,
        members_well_formed(m),
        0 <= p,
        p + members_text(m).len() < s.len(),
        s.subrange(p, p + members_text(m).len()) == members_text(m),
        s[p + members_text(m).len()] == '}',
    ensures
        lex(s, p) == after(members_tokens(m), lex(s, p + members_text(m).len())),
    decreases m,
{
    assert(decreases_to!(m => m[0]));
    let w = members_text(m);
    let key = m[0].0;
    let kl = key.len() as int;
    let vt = value_text(m[0].1);
    let vn = vt.len() as int;
    let entry = quoted(key) + seq![':'] + vt;
    let el = kl + 3 + vn;
    let end = p + w.len();
    lemma_window(s, p, w, 0, w.len() as int);
    assert(w.subrange(0, el) =~= entry) by {
        if m.len() > 1 {
            assert((entry + seq![','] + members_text(m.drop_first())).subrange(0, el) =~= entry);
        }
    }
    lemma_window(s, p, w, 0, el);
    // the key
    assert(s[p + 0] == w[0] && w[0] == entry[0]);
    assert(s[p + 0] == '"');
    assert forall|k: int| p + 1 <= k < p + 1 + kl implies s[k] != '"' by {
        assert(s[p + (k - p)] == w[k - p]);
        assert(w[k - p] == entry[k - p]);
        assert(entry[k - p] == key[k - p - 1]);
    }
    assert(s[p + (1 + kl)] == entry[1 + kl]);
    assert(s[p + (2 + kl)] == entry[2 + kl]);
    lemma_string_end_at(s, p + 1, p + 1 + kl);
    assert(s.subrange(p + 1, p + 1 + kl) =~= key) by {
        assert forall|k: int| 0 <= k < kl implies s.subrange(p + 1, p + 1 + kl)[k] == key[k] by {
            assert(s[p + (k + 1)] == w[k + 1]);
            assert(w[k + 1] == entry[k + 1]);
        }
    }
    let key_toks = seq![TokenView::DoubleQuote, TokenView::StringValue(key), TokenView::DoubleQuote];
    assert(lex(s, p) == after(key_toks, lex(s, p + 2 + kl)));
    // the colon
    assert(structural_token(':') == Some(TokenView::Colon));
    assert(lex(s, p + 2 + kl) == after(seq![TokenView::Colon], lex(s, p + 3 + kl)));
    // the value
    assert(entry.subrange(kl + 3, el) =~= vt);
    lemma_window(s, p, entry, kl + 3, el);
    let e = p + el;
    if m.len() == 1 {
        assert(w =~= entry);
    } else {
        let rest = members_text(m.drop_first());
        assert(w =~= entry + seq![','] + rest);
        assert(s[p + el] == w[el]);
    }
    lemma_lex_value(s, p + 3 + kl, m[0].1);
    let vtok = value_tokens(m[0].1);
    lemma_after_after(seq![TokenView::Colon], vtok, lex(s, e));
    lemma_after_after(key_toks, seq![TokenView::Colon] + vtok, lex(s, e));
    let entry_toks = key_toks + (seq![TokenView::Colon] + vtok);
    assert(lex(s, p) == after(entry_toks, lex(s, e)));
    if m.len() == 1 {
        assert(members_tokens(m) =~= entry_toks);
    } else {
        let rest = members_text(m.drop_first());
        let rn = rest.len() as int;
        assert(structural_token(',') == Some(TokenView::Comma));
        assert(lex(s, e) == after(seq![TokenView::Comma], lex(s, e + 1)));
        assert(w.subrange(el + 1, el + 1 + rn) =~= rest);
        lemma_window(s, p, w, el + 1, el + 1 + rn);
        assert(s[p + (el + 1 + rn)] == '}');
        lemma_lex_members(s, e + 1, m.drop_first());
        let rtok = members_tokens(m.drop_first());
        lemma_after_after(seq![TokenView::Comma], rtok, lex(s, end));
        lemma_after_after(entry_toks, seq![TokenView::Comma] + rtok, lex(s, end));
        assert(members_tokens(m) =~= entry_toks + (seq![TokenView::Comma] + rtok));
    }
}

/// The text of nonempty well-formed elements, standing at `p` and followed by
/// `]`, becomes exactly their tokens.
pub proof fn lemma_lex_elements(s: Seq<char>, p: int, a: Seq<JsonValue>)
    requires
        a.len() > 0,
        elements_well_formed(a),
        0 <= p,
        p + elements_text(a).len() < s.len(),
        s.subrange(p, p + elements_text(a).len()) == elements_text(a),
        s[p + elements_text(a).len()] == ']',
    ensures
        lex(s, p) == after(elements_tokens(a), lex(s, p + elements_text(a).len())),
    decreases a,
{
    let w = elements_text(a);
    let vt = value_text(a[0]);
    let vn = vt.len() as int;
    let end = p + w.len();
    lemma_window(s, p, w, 0, w.len() as int);
    if a.len() == 1 {
        assert(w == vt);
        lemma_lex_value(s, p, a[0]);
        assert(elements_tokens(a) == value_tokens(a[0]));
    } else {
        let rest = elements_text(a.drop_first());
        let rn = rest.len() as int;
        assert(w =~= vt + seq![','] + rest);
        assert(w.subrange(0, vn) =~= vt);
        lemma_window(s, p, w, 0, vn);
        assert(s[p + vn] == w[vn]);
        lemma_lex_value(s, p, a[0]);
        let e = p + vn;
        let vtok = value_tokens(a[0]);
        assert(structural_token(',') == Some(TokenView::Comma));
        assert(lex(s, e) == after(seq![TokenView::Comma], lex(s, e + 1)));
        assert(w.subrange(vn + 1, vn + 1 + rn) =~= rest);
        lemma_window(s, p, w, vn + 1, vn + 1 + rn);
        assert(s[p + (vn + 1 + rn)] == ']');
        lemma_lex_elements(s, e + 1, a.drop_first());
        let rtok = elements_tokens(a.drop_first());
        lemma_after_after(seq![TokenView::Comma], rtok, lex(s, end));
        lemma_after_after(vtok, seq![TokenView::Comma] + rtok, lex(s, end));
        assert(elements_tokens(a) =~= vtok + (seq![TokenView::Comma] + rtok));
    }
}

/// The tokens of a value that is read are the token form of the tree read
/// from them.
pub proof fn lemma_read_value(t: Seq<TokenView>, p: int, d: int)
    requires
        0 <= p,
        value_at(t, p, d) is Ok,
    ensures
        value_at(t, p, d)->Ok_0 <= t.len(),
        t.subrange(p, value_at(t, p, d)->Ok_0) == value_tokens(value_tree(t, p, d)),
    decreases t.len() - p, 1int,
{
    lemma_value_advances(t, p, d);
    let e = value_at(t, p, d)->Ok_0;
    match t[p] {
        TokenView::LeftBrace => lemma_read_object(t, p, d),
        TokenView::LeftBracket => lemma_read_array(t, p, d),
        TokenView::DoubleQuote => {
            assert(t.subrange(p, e) =~= value_tokens(value_tree(t, p, d)));
        },
        _ => {
            assert(t.subrange(p, e) =~= value_tokens(value_tree(t, p, d)));
        },
    }
}

pub proof fn lemma_read_object(t: Seq<TokenView>, p: int, d: int)
    requires
        0 <= p < t.len(),
        t[p] is LeftBrace,
        object_at(t, p, d) is Ok,
    ensures
        t.subrange(p, object_at(t, p, d)->Ok_0) == value_tokens(object_tree(t, p, d)),
    decreases t.len() - p, 0int,
{
    let e = object_at(t, p, d)->Ok_0;
    if t[p + 1] is RightBrace {
        assert(t.subrange(p, e) =~= value_tokens(object_tree(t, p, d)));
    } else {
        lemma_read_members(t, p + 1, d + 1);
        assert(t.subrange(p, e) =~= seq![TokenView::LeftBrace] + t.subrange(p + 1, e - 1) + seq![
            TokenView::RightBrace,
        ]);
    }
}

pub proof fn lemma_read_members(t: Seq<TokenView>, q: int, d: int)
    requires
        0 <= q,
        members_at(t, q, d) is Ok,
    ensures
        q < members_at(t, q, d)->Ok_0 <= t.len(),
        t[members_at(t, q, d)->Ok_0 - 1] is RightBrace,
        members_tree(t, q, d).len() > 0,
        t.subrange(q, members_at(t, q, d)->Ok_0 - 1) == members_tokens(members_tree(t, q, d)),
    decreases t.len() - q, 2int,
{
    let e = members_at(t, q, d)->Ok_0;
    let key = t[q + 1]->StringValue_0;
    lemma_read_value(t, q + 4, d);
    let ve = value_at(t, q + 4, d)->Ok_0;
    let vt = value_tree(t, q + 4, d);
    let entry = (key, vt);
    let key_toks = seq![TokenView::DoubleQuote, TokenView::StringValue(key), TokenView::DoubleQuote];
    let entry_toks = key_toks + seq![TokenView::Colon] + value_tokens(vt);
    assert(t.subrange(q, ve) =~= entry_toks) by {
        assert(t.subrange(q, ve) =~= t.subrange(q, q + 4) + t.subrange(q + 4, ve));
    }
    if t[ve] is RightBrace {
        assert(members_tree(t, q, d) == seq![entry]);
        assert(members_tokens(seq![entry]) == entry_toks);
    } else {
        lemma_read_members(t, ve + 1, d);
        let rest = members_tree(t, ve + 1, d);
        let m = seq![entry] + rest;
        assert(members_tree(t, q, d) == m);
        assert(m.drop_first() =~= rest);
        assert(m[0] == entry);
        assert(t.subrange(q, e - 1) =~= t.subrange(q, ve) + seq![TokenView::Comma] + t.subrange(
            ve + 1,
            e - 1,
        ));
    }
}

pub proof fn lemma_read_array(t: Seq<TokenView>, p: int, d: int)
    requires
        0 <= p < t.len(),
        t[p] is LeftBracket,
        array_at(t, p, d) is Ok,
    ensures
        t.subrange(p, array_at(t, p, d)->Ok_0) == value_tokens(array_tree(t, p, d)),
    decreases t.len() - p, 0int,
{
    let e = array_at(t, p, d)->Ok_0;
    if t[p + 1] is RightBracket {
        assert(t.subrange(p, e) =~= value_tokens(array_tree(t, p, d)));
    } else {
        lemma_read_elements(t, p + 1, d + 1);
        assert(t.subrange(p, e) =~= seq![TokenView::LeftBracket] + t.subrange(p + 1, e - 1) + seq![
            TokenView::RightBracket,
        ]);
    }
}

pub proof fn lemma_read_elements(t: Seq<TokenView>, q: int, d: int)
    requires
        0 <= q,
        elements_at(t, q, d) is Ok,
    ensures
        q < elements_at(t, q, d)->Ok_0 <= t.len(),
        t[elements_at(t, q, d)->Ok_0 - 1] is RightBracket,
        elements_tree(t, q, d).len() > 0,
        t.subrange(q, elements_at(t, q, d)->Ok_0 - 1) == elements_tokens(elements_tree(t, q, d)),
    decreases t.len() - q, 2int,
{
    let e = elements_at(t, q, d)->Ok_0;
    lemma_read_value(t, q, d);
    let ve = value_at(t, q, d)->Ok_0;
    let v = value_tree(t, q, d);
    if t[ve] is RightBracket {
        assert(elements_tree(t, q, d) == seq![v]);
        assert(elements_tokens(seq![v]) == value_tokens(v));
    } else {
        lemma_read_elements(t, ve + 1, d);
        let rest = elements_tree(t, ve + 1, d);
        let a = seq![v] + rest;
        assert(elements_tree(t, q, d) == a);
        assert(a.drop_first() =~= rest);
        assert(a[0] == v);
        assert(t.subrange(q, e - 1) =~= t.subrange(q, ve) + seq![TokenView::Comma] + t.subrange(
            ve + 1,
            e - 1,
        ));
    }
}

} // verus!
