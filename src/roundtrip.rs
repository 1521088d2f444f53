use vstd::prelude::*;

use crate::json::{items_text, text_of, JsonValue};
use crate::lexer::{
    decimal_len, digit_count, is_ws, lemma_lexeme_ext, lemma_lexeme_len_bound, number_text,
    unquoted_count, ws_count,
};
use crate::parsed;
use crate::parser::{array_at, elements_at, number_at, object_at, str_at, string_at, value_at};

verus! {

broadcast use vstd::seq::axiom_seq_index_decreases;

/// Rendering a number whose text is one whole decimal float literal, and parsing that
/// text, gives the number whose text is the literal's canonical text.
pub proof fn lemma_number_round_trip(t: Seq<char>)
    requires
        decimal_len(t) == Some(t.len()),
    ensures
        parsed(text_of(JsonValue::Number(t))) == Some(JsonValue::Number(number_text(t))),
{
    lemma_lexeme_len_bound(t);
    assert(t.subrange(0, t.len() as int) =~= t);
}

/// A value whose text parses back to it: each number's text is a whole
/// decimal literal in canonical form, no string holds `"`, and no object has entries
/// (keys are rendered without quotes, which the grammar does not read).
pub open spec fn round_trips(v: JsonValue) -> bool
    decreases v,
{
    match v {
        JsonValue::Number(t) => decimal_len(t) == Some(t.len()) && number_text(t) == t,
        JsonValue::Str(x) => !x.contains('"'),
        JsonValue::Array(items) => forall|j: int|
            0 <= j < items.len() ==> round_trips(#[trigger] items[j]),
        JsonValue::Object(es) => es.len() == 0,
    }
}

/// `,` and the text of each item from index `k` on.
pub open spec fn tail_text(items: Seq<JsonValue>, k: int) -> Seq<char>
    decreases items.len() - k,
{
    if 0 <= k < items.len() {
        seq![','] + text_of(items[k]) + tail_text(items, k + 1)
    } else {
        seq![]
    }
}

proof fn lemma_items_text_front(items: Seq<JsonValue>, n: nat)
    requires
        1 <= n <= items.len(),
    ensures
        items_text(items, n) + tail_text(items, n as int) == text_of(items[0]) + tail_text(items, 1),
    decreases n,
{
    if n > 1 {
        lemma_items_text_front(items, (n - 1) as nat);
        assert(items_text(items, n) + tail_text(items, n as int) =~= items_text(items, (n - 1) as nat)
            + tail_text(items, n - 1));
    }
}

/// The first character of a round-tripping value's text opens a number, a
/// string, an array or an object.
proof fn lemma_first_char(v: JsonValue)
    requires
        round_trips(v),
    ensures
        text_of(v).len() > 0,
        !is_ws(text_of(v)[0]),
        text_of(v)[0] != ']',
        text_of(v)[0] != '}',
        text_of(v)[0] != ',',
{
    if let JsonValue::Number(t) = v {
        lemma_lexeme_len_bound(t);
        assert(digit_count(t, 0) > 0 ==> '0' <= t[0] <= '9');
        assert(digit_count(t, 1) > 0 ==> t.len() > 1);
    }
}

/// No float literal starts at a quote or a bracket.
proof fn lemma_no_number_at(s: Seq<char>, i: int)
    requires
        0 <= i < s.len(),
        s[i] == '"' || s[i] == '[' || s[i] == '{',
    ensures
        number_at(s, i) is None,
{
    let t = s.subrange(i, s.len() as int);
    assert(t[0] == s[i]);
    assert(digit_count(t, 0) == 0);
}

proof fn lemma_unquoted(s: Seq<char>, j: int, e: int)
    requires
        0 <= j <= e < s.len(),
        s[e] == '"',
        forall|k: int| j <= k < e ==> s[k] != '"',
    ensures
        unquoted_count(s, j) == e - j,
    decreases e - j,
{
    if j < e {
        lemma_unquoted(s, j + 1, e);
    }
}

proof fn lemma_sub(s: Seq<char>, i: int, w: Seq<char>, p: int, u: Seq<char>)
    requires
        0 <= i,
        i + w.len() <= s.len(),
        s.subrange(i, i + w.len()) == w,
        0 <= p,
        p + u.len() <= w.len(),
        w.subrange(p, p + u.len()) == u,
    ensures
        s.subrange(i + p, i + p + u.len()) == u,
{
    assert forall|j: int| 0 <= j < u.len() implies #[trigger] s.subrange(i + p, i + p + u.len())[j]
        == u[j] by {
        assert(s.subrange(i, i + w.len())[p + j] == w[p + j]);
        assert(w.subrange(p, p + u.len())[j] == w[p + j]);
    }
    assert(s.subrange(i + p, i + p + u.len()) =~= u);
}

/// The character after position `k` closes an element run, or there is none.
pub open spec fn ends_element(s: Seq<char>, k: int) -> bool {
    k == s.len() || (0 <= k < s.len() && (s[k] == ',' || s[k] == ']'))
}

proof fn lemma_value_at(s: Seq<char>, i: int, v: JsonValue)
    requires
        round_trips(v),
        0 <= i,
        i + text_of(v).len() <= s.len(),
        s.subrange(i, i + text_of(v).len()) == text_of(v),
        ends_element(s, i + text_of(v).len()),
    ensures
        value_at(s, i) == Some((v, text_of(v).len())),
    decreases v, 1nat,
{
    let tv = text_of(v);
    let n = tv.len();
    lemma_first_char(v);
    assert(s[i] == tv[0]);
    match v {
        JsonValue::Number(t) => {
            let rest = s.subrange(i + n, s.len() as int);
            assert(s.subrange(i, s.len() as int) =~= t + rest);
            lemma_lexeme_ext(t, rest);
            assert(s.subrange(i, i + n) == t);
        },
        JsonValue::Str(x) => {
            lemma_no_number_at(s, i);
            assert forall|k: int| i + 1 <= k < i + 1 + x.len() implies s[k] != '"' by {
                assert(s[k] == tv[k - i]);
                assert(tv[k - i] == x[k - i - 1]);
            }
            assert(s[i + 1 + x.len()] == tv[n as int - 1]);
            lemma_unquoted(s, i + 1, i + 1 + x.len());
            assert(tv.subrange(1, 1 + x.len() as int) =~= x);
            lemma_sub(s, i, tv, 1, x);
            assert(string_at(s, i) == Some((x, n)));
        },
        JsonValue::Array(items) => {
            lemma_array_value(s, i, v);
        },
        JsonValue::Object(es) => {
            lemma_no_number_at(s, i);
            assert(str_at(s, i) is None);
            assert(s[i + 1] == tv[1]);
            assert(es =~= seq![]);
            assert(object_at(s, i) == Some((v, n)));
        },
    }
}

#[verifier::rlimit(40)]
proof fn lemma_array_value(s: Seq<char>, i: int, v: JsonValue)
    requires
        v is Array,
        round_trips(v),
        0 <= i,
        i + text_of(v).len() <= s.len(),
        s.subrange(i, i + text_of(v).len()) == text_of(v),
    ensures
        value_at(s, i) == Some((v, text_of(v).len())),
    decreases v, 0nat,
{
    let items = v->Array_0;
    let tv = text_of(v);
    let n = tv.len();
    assert(s[i] == tv[0]);
    lemma_no_number_at(s, i);
    assert(str_at(s, i) is None);
    assert(s.subrange(i, i + n)[1] == s[i + 1]);
    if items.len() == 0 {
        assert(tv =~= seq!['[', ']']);
        assert(s[i + 1] == ']');
        assert(ws_count(s, i + 1) == 0);
        assert(items =~= seq![]);
        assert(array_at(s, i) == Some((v, n)));
    } else {
        let len = items.len();
        lemma_items_text_front(items, len);
        let first = text_of(items[0]);
        let tail = tail_text(items, 1);
        assert(tv =~= seq!['['] + first + tail + seq![']']);
        lemma_first_char(items[0]);
        assert(tv[1] == first[0]);
        assert(s[i + 1] == first[0]);
        assert(ws_count(s, i + 1) == 0);
        assert(tv.subrange(1, 1 + first.len() as int) =~= first);
        lemma_sub(s, i, tv, 1, first);
        let c = i + 1 + first.len();
        assert(s[c] == tv[1 + first.len() as int]);
        if len == 1 {
            assert(tv[1 + first.len() as int] == ']');
        } else {
            assert(tail[0] == ',');
            assert(tv[1 + first.len() as int] == ',');
        }
        lemma_value_at(s, i + 1, items[0]);
        assert(ws_count(s, c) == 0);
        assert(tv.subrange(1 + first.len() as int, 1 + first.len() as int + tail.len()) =~= tail);
        lemma_sub(s, i, tv, 1 + first.len() as int, tail);
        assert(s[c + tail.len()] == tv[n as int - 1]);
        lemma_elements(s, c, items, 1);
        assert(seq![items[0]] + items.skip(1) =~= items);
        assert(array_at(s, i) == Some((v, n)));
    }
}

proof fn lemma_elements(s: Seq<char>, c: int, items: Seq<JsonValue>, k: int)
    requires
        forall|j: int| 0 <= j < items.len() ==> round_trips(#[trigger] items[j]),
        1 <= k <= items.len(),
        0 <= c,
        c + tail_text(items, k).len() < s.len(),
        s.subrange(c, c + tail_text(items, k).len()) == tail_text(items, k),
        s[c + tail_text(items, k).len()] == ']',
    ensures
        elements_at(s, c) == (items.skip(k), tail_text(items, k).len()),
    decreases items, items.len() - k,
{
    let tail = tail_text(items, k);
    if k == items.len() {
        assert(items.skip(k) =~= seq![]);
    } else {
        let item = text_of(items[k]);
        let next = tail_text(items, k + 1);
        assert(tail =~= seq![','] + item + next);
        assert(s[c] == tail[0]);
        lemma_first_char(items[k]);
        assert(s[c + 1] == tail[1]);
        assert(ws_count(s, c + 1) == 0);
        let a = c + 1;
        assert(tail.subrange(1, 1 + item.len() as int) =~= item);
        lemma_sub(s, c, tail, 1, item);
        let e = a + item.len();
        if k + 1 < items.len() {
            assert(next[0] == ',');
        }
        if next.len() > 0 {
            assert(s[e] == tail[1 + item.len() as int]);
        }
        assert(decreases_to!(items => items[k]));
        lemma_value_at(s, a, items[k]);
        assert(ws_count(s, e) == 0);
        assert(tail.subrange(1 + item.len() as int, 1 + item.len() as int + next.len()) =~= next);
        lemma_sub(s, c, tail, 1 + item.len() as int, next);
        lemma_elements(s, e, items, k + 1);
        assert(seq![items[k]] + items.skip(k + 1) =~= items.skip(k));
    }
}

/// Parsing the text of a value that round-trips gives the value back, so
/// rendering what was parsed gives the same text again.
pub proof fn lemma_render_parse_render(v: JsonValue)
    requires
        round_trips(v),
    ensures
        parsed(text_of(v)) == Some(v),
        text_of(parsed(text_of(v))->0) == text_of(v),
{
    let s = text_of(v);
    assert(s.subrange(0, s.len() as int) =~= s);
    lemma_value_at(s, 0, v);
}

} // verus!
