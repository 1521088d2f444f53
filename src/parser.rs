use vstd::prelude::*;
use vstd::string::StrSliceExecFns;

use crate::json::{insert_all, insert_pair, pairs_view, JsonItem, JsonValue};
use crate::{produced, JsonParseError};
use crate::json::{well_formed, items_view, lemma_array_view, lemma_object_view};
use crate::lexer::{
    chars_of, is_lexeme_char, is_whitespace, lemma_lexeme_ext, lemma_lexeme_len_bound, lexeme_char,
    decimal_len, lexeme_len, mantissa_at, nom_double, number_text, string_of, unquoted_count, ws_count,
};

verus! {

/// How many characters stand in `s` from position `i` on.
pub open spec fn rest_len(s: Seq<char>, i: int) -> nat {
    if i < s.len() {
        (s.len() - i) as nat
    } else {
        0
    }
}

/// A string token at `i`: a quote, the run of characters up to the next quote,
/// and that quote. Gives the run and the length of the token.
pub open spec fn string_at(s: Seq<char>, i: int) -> Option<(Seq<char>, nat)> {
    if 0 <= i < s.len() && s[i] == '"' {
        let e = i + 1 + unquoted_count(s, i + 1);
        if e < s.len() {
            Some((s.subrange(i + 1, e), (e + 1 - i) as nat))
        } else {
            None
        }
    } else {
        None
    }
}

/// The number production at `i`: a float literal.
pub open spec fn number_at(s: Seq<char>, i: int) -> Option<(JsonValue, nat)> {
    if 0 <= i <= s.len() {
        match decimal_len(s.subrange(i, s.len() as int)) {
            Some(n) => Some((JsonValue::Number(number_text(s.subrange(i, i + n))), n)),
            None => None,
        }
    } else {
        None
    }
}

/// The string production at `i`.
pub open spec fn str_at(s: Seq<char>, i: int) -> Option<(JsonValue, nat)> {
    match string_at(s, i) {
        Some((t, n)) => Some((JsonValue::Str(t), n)),
        None => None,
    }
}

/// The value that stands at position `i` of `s`, and how many characters it
/// takes. The productions are tried in turn: number, string, array, object.
pub open spec fn value_at(s: Seq<char>, i: int) -> Option<(JsonValue, nat)>
    decreases rest_len(s, i), 3nat,
{
    if !(0 <= i < s.len()) {
        None
    } else {
        if number_at(s, i) is Some {
            number_at(s, i)
        } else if str_at(s, i) is Some {
            str_at(s, i)
        } else if s[i] == '[' {
            array_at(s, i)
        } else if s[i] == '{' {
            object_at(s, i)
        } else {
            None
        }
    }
}

/// An array at `i`: `[`, whitespace, `]`; or `[`, whitespace, a value,
/// whitespace, more elements, `]`.
pub open spec fn array_at(s: Seq<char>, i: int) -> Option<(JsonValue, nat)>
    decreases rest_len(s, i), 2nat,
{
    if !(0 <= i < s.len() && s[i] == '[') {
        None
    } else {
        let a = i + 1 + ws_count(s, i + 1);
        if a >= s.len() {
            None
        } else if s[a] == ']' {
            Some((JsonValue::Array(seq![]), (a + 1 - i) as nat))
        } else {
            match value_at(s, a) {
                None => None,
                Some((v, n)) => {
                    let c = a + n + ws_count(s, a + n);
                    let (vs, m) = elements_at(s, c);
                    let d = c + m;
                    if 0 <= d < s.len() && s[d] == ']' {
                        Some((JsonValue::Array(seq![v] + vs), (d + 1 - i) as nat))
                    } else {
                        None
                    }
                },
            }
        }
    }
}

/// The longest run of `,` whitespace value whitespace at `c`: the values and
/// the characters the run takes.
pub open spec fn elements_at(s: Seq<char>, c: int) -> (Seq<JsonValue>, nat)
    decreases rest_len(s, c), 1nat,
{
    if 0 <= c < s.len() && s[c] == ',' {
        let a = c + 1 + ws_count(s, c + 1);
        if a < s.len() {
            match value_at(s, a) {
                Some((v, n)) => {
                    let e = a + n + ws_count(s, a + n);
                    let (vs, m) = elements_at(s, e);
                    (seq![v] + vs, (e - c + m) as nat)
                },
                None => (seq![], 0),
            }
        } else {
            (seq![], 0)
        }
    } else {
        (seq![], 0)
    }
}

/// A member at `a`: a string token as key, whitespace, `:`, whitespace, a value.
pub open spec fn pair_at(s: Seq<char>, a: int) -> Option<((Seq<char>, JsonValue), nat)>
    decreases rest_len(s, a), 2nat,
{
    match string_at(s, a) {
        None => None,
        Some((k, kn)) => {
            let b = a + kn + ws_count(s, a + kn);
            if 0 <= b < s.len() && s[b] == ':' {
                let c = b + 1 + ws_count(s, b + 1);
                if c < s.len() {
                    match value_at(s, c) {
                        Some((v, n)) => Some(((k, v), (c + n - a) as nat)),
                        None => None,
                    }
                } else {
                    None
                }
            } else {
                None
            }
        },
    }
}

/// The longest run of `,` whitespace member whitespace at `c`: the members in
/// order and the characters the run takes.
pub open spec fn members_at(s: Seq<char>, c: int) -> (Seq<(Seq<char>, JsonValue)>, nat)
    decreases rest_len(s, c), 1nat,
{
    if 0 <= c < s.len() && s[c] == ',' {
        let a = c + 1 + ws_count(s, c + 1);
        if a < s.len() {
            match pair_at(s, a) {
                Some((p, n)) => {
                    let e = a + n + ws_count(s, a + n);
                    let (ps, m) = members_at(s, e);
                    (seq![p] + ps, (e - c + m) as nat)
                },
                None => (seq![], 0),
            }
        } else {
            (seq![], 0)
        }
    } else {
        (seq![], 0)
    }
}

/// An object at `i`: `{`, whitespace, `}`; or `{`, whitespace, a member,
/// whitespace, more members, whitespace, `}`. The members go in in order, so a
/// later one replaces an earlier one with the same key.
pub open spec fn object_at(s: Seq<char>, i: int) -> Option<(JsonValue, nat)>
    decreases rest_len(s, i), 2nat,
{
    if !(0 <= i < s.len() && s[i] == '{') {
        None
    } else {
        let a = i + 1 + ws_count(s, i + 1);
        if a >= s.len() {
            None
        } else if s[a] == '}' {
            Some((JsonValue::Object(seq![]), (a + 1 - i) as nat))
        } else {
            match pair_at(s, a) {
                None => None,
                Some((p, n)) => {
                    let c = a + n + ws_count(s, a + n);
                    let (ps, m) = members_at(s, c);
                    let d = c + m + ws_count(s, c + m);
                    if 0 <= d < s.len() && s[d] == '}' {
                        Some(
                            (
                                JsonValue::Object(insert_all(seq![], seq![p] + ps)),
                                (d + 1 - i) as nat,
                            ),
                        )
                    } else {
                        None
                    }
                },
            }
        }
    }
}

/// The exec result `r` is the spec result `w`.
pub open spec fn same_value(r: Option<(JsonItem, usize)>, w: Option<(JsonValue, nat)>) -> bool {
    match w {
        Some((v, n)) => r matches Some((x, m)) && x@ == v && m == n,
        None => r is None,
    }
}

fn skip_ws(s: &Vec<char>, len: usize, i: usize) -> (j: usize)
    requires
        len == s@.len(),
        i <= len,
    ensures
        j == i + ws_count(s@, i as int),
        j <= len,
{
    let mut j: usize = i;
    while j < len
        invariant
            len == s@.len(),
            i <= j <= len,
            ws_count(s@, i as int) == (j - i) + ws_count(s@, j as int),
        ensures
            i <= j <= len,
            ws_count(s@, i as int) == (j - i) + ws_count(s@, j as int),
            ws_count(s@, j as int) == 0,
        decreases len - j,
    {
        if !is_whitespace(s[j]) {
            break;
        }
        j = j + 1;
    }
    j
}

fn lex_string(s: &Vec<char>, len: usize, i: usize) -> (r: Option<(String, usize)>)
    requires
        len == s@.len(),
        i <= len,
    ensures
        match string_at(s@, i as int) {
            Some((t, n)) => r matches Some((x, m)) && x@ == t && m == n && i + n <= len,
            None => r is None,
        },
{
    if i >= len || s[i] != '"' {
        return None;
    }
    let mut e: usize = i + 1;
    while e < len
        invariant
            len == s@.len(),
            i < e <= len,
            unquoted_count(s@, i + 1) == (e - i - 1) + unquoted_count(s@, e as int),
        ensures
            i < e <= len,
            unquoted_count(s@, i + 1) == (e - i - 1) + unquoted_count(s@, e as int),
            unquoted_count(s@, e as int) == 0,
        decreases len - e,
    {
        if s[e] == '"' {
            break;
        }
        e = e + 1;
    }
    if e >= len {
        return None;
    }
    let t = string_of(s, i + 1, e);
    Some((t, e + 1 - i))
}

/// Parses the value at position `i` of `s`.
pub(crate) fn parse_value(s: &Vec<char>, len: usize, i: usize) -> (r: Option<(JsonItem, usize)>)
    requires
        len == s@.len(),
        i <= len,
    ensures
        same_value(r, value_at(s@, i as int)),
        r matches Some((_, n)) ==> i + n <= len,
        r matches Some((x, _)) ==> well_formed(x@),
    decreases rest_len(s@, i as int), 3nat,
{
    if i >= len {
        return None;
    }
    if mantissa_at(s, i) {
        let mut j: usize = i;
        while j < len
            invariant
                i <= j <= len,
                len == s@.len(),
            ensures
                i <= j <= len,
                j == len || !is_lexeme_char(s@[j as int]),
            decreases len - j,
        {
            if !lexeme_char(s[j]) {
                break;
            }
            j = j + 1;
        }
        let run = string_of(s, i, j);
        proof {
            lemma_lexeme_len_bound(run@);
            lemma_lexeme_ext(run@, s@.subrange(j as int, len as int));
            assert(s@.subrange(i as int, len as int) =~= run@ + s@.subrange(j as int, len as int));
        }
        match nom_double(run.as_str()) {
            Some((rest, text)) => {
                let n = (j - i) - rest.unicode_len();
                proof {
                    assert(run@.subrange(0, n as int) =~= s@.subrange(i as int, i + n));
                }
                return Some((JsonItem::JsonNumber(text), n));
            },
            None => {},
        }
    }
    match lex_string(s, len, i) {
        Some((t, n)) => {
            return Some((JsonItem::JsonString(t), n));
        },
        None => {},
    }
    let c = s[i];
    if c == '[' {
        parse_array(s, len, i)
    } else if c == '{' {
        parse_object(s, len, i)
    } else {
        None
    }
}

fn parse_array(s: &Vec<char>, len: usize, i: usize) -> (r: Option<(JsonItem, usize)>)
    requires
        len == s@.len(),
        i < len,
        s@[i as int] == '[',
    ensures
        same_value(r, array_at(s@, i as int)),
        r matches Some((_, n)) ==> i + n <= len,
        r matches Some((x, _)) ==> well_formed(x@),
    decreases rest_len(s@, i as int), 2nat,
{
    let a = skip_ws(s, len, i + 1);
    if a >= len {
        return None;
    }
    if s[a] == ']' {
        let v: Vec<JsonItem> = Vec::new();
        proof {
            lemma_array_view(v);
            assert(items_view(v@) =~= seq![]);
        }
        return Some((JsonItem::JsonArray(v), a + 1 - i));
    }
    let (first, n) = match parse_value(s, len, a) {
        Some(p) => p,
        None => {
            return None;
        },
    };
    let c0 = skip_ws(s, len, a + n);
    let mut c: usize = c0;
    let mut more: Vec<JsonItem> = Vec::new();
    while c < len
        invariant
            len == s@.len(),
            i < a <= c0 <= c <= len,
            elements_at(s@, c0 as int).0 == items_view(more@) + elements_at(s@, c as int).0,
            elements_at(s@, c0 as int).1 == (c - c0) + elements_at(s@, c as int).1,
            forall|j: int| 0 <= j < more.len() ==> well_formed(#[trigger] more@[j]@),
        ensures
            elements_at(s@, c as int).0.len() == 0,
            elements_at(s@, c as int).1 == 0,
        decreases len - c,
    {
        if s[c] != ',' {
            break;
        }
        let b = skip_ws(s, len, c + 1);
        if b >= len {
            break;
        }
        match parse_value(s, len, b) {
            Some((v, m)) => {
                let e = skip_ws(s, len, b + m);
                let ghost vv = v@;
                let ghost before = items_view(more@);
                more.push(v);
                proof {
                    assert(items_view(more@) =~= before + seq![vv]);
                    assert(elements_at(s@, c as int).0 =~= seq![vv] + elements_at(s@, e as int).0);
                    assert(items_view(more@) + elements_at(s@, e as int).0 =~= before
                        + elements_at(s@, c as int).0);
                }
                c = e;
            },
            None => {
                break;
            },
        }
    }
    if c >= len || s[c] != ']' {
        return None;
    }
    let ghost fv = first@;
    proof {
        assert forall|j: int| 0 <= j < more.len() implies well_formed(#[trigger] items_view(more@)[j]) by {
            assert(items_view(more@)[j] == more@[j]@);
        }
    }
    let ghost mv = items_view(more@);
    let mut all: Vec<JsonItem> = Vec::new();
    all.push(first);
    all.append(&mut more);
    proof {
        lemma_array_view(all);
        assert(items_view(all@) =~= seq![fv] + mv);
        assert forall|j: int| 0 <= j < all.len() implies well_formed(#[trigger] items_view(all@)[j]) by {
            if j > 0 {
                assert(items_view(all@)[j] == mv[j - 1]);
            }
        }
    }
    Some((JsonItem::JsonArray(all), c + 1 - i))
}

fn parse_pair(s: &Vec<char>, len: usize, a: usize) -> (r: Option<(String, JsonItem, usize)>)
    requires
        len == s@.len(),
        a <= len,
    ensures
        match pair_at(s@, a as int) {
            Some((p, n)) => r matches Some((k, v, m)) && k@ == p.0 && v@ == p.1 && m == n && a + n
                <= len && well_formed(v@),
            None => r is None,
        },
    decreases rest_len(s@, a as int), 2nat,
{
    let (k, kn) = match lex_string(s, len, a) {
        Some(t) => t,
        None => {
            return None;
        },
    };
    let b = skip_ws(s, len, a + kn);
    if b >= len || s[b] != ':' {
        return None;
    }
    let c = skip_ws(s, len, b + 1);
    if c >= len {
        return None;
    }
    match parse_value(s, len, c) {
        Some((v, n)) => Some((k, v, c + n - a)),
        None => None,
    }
}

fn parse_object(s: &Vec<char>, len: usize, i: usize) -> (r: Option<(JsonItem, usize)>)
    requires
        len == s@.len(),
        i < len,
        s@[i as int] == '{',
    ensures
        same_value(r, object_at(s@, i as int)),
        r matches Some((_, n)) ==> i + n <= len,
        r matches Some((x, _)) ==> well_formed(x@),
    decreases rest_len(s@, i as int), 2nat,
{
    let a = skip_ws(s, len, i + 1);
    if a >= len {
        return None;
    }
    let mut es: Vec<(String, JsonItem)> = Vec::new();
    if s[a] == '}' {
        proof {
            lemma_object_view(es);
            assert(pairs_view(es@) =~= seq![]);
        }
        return Some((JsonItem::JsonObject(es), a + 1 - i));
    }
    let (k, v, n) = match parse_pair(s, len, a) {
        Some(p) => p,
        None => {
            return None;
        },
    };
    let ghost p0 = (k@, v@);
    proof {
        assert(pairs_view(es@) =~= seq![]);
    }
    insert_pair(&mut es, k, v);
    let c0 = skip_ws(s, len, a + n);
    let mut c: usize = c0;
    proof {
        let ms = members_at(s@, c0 as int).0;
        assert((seq![p0] + ms).drop_first() =~= ms);
    }
    while c < len
        invariant
            len == s@.len(),
            i < a <= c0 <= c <= len,
            members_at(s@, c0 as int).1 == (c - c0) + members_at(s@, c as int).1,
            insert_all(pairs_view(es@), members_at(s@, c as int).0) == insert_all(
                seq![],
                seq![p0] + members_at(s@, c0 as int).0,
            ),
            well_formed(JsonValue::Object(pairs_view(es@))),
        ensures
            members_at(s@, c as int).0.len() == 0,
            members_at(s@, c as int).1 == 0,
        decreases len - c,
    {
        if s[c] != ',' {
            break;
        }
        let b = skip_ws(s, len, c + 1);
        if b >= len {
            break;
        }
        match parse_pair(s, len, b) {
            Some((k2, v2, m)) => {
                let e = skip_ws(s, len, b + m);
                let ghost q = (k2@, v2@);
                let ghost before = pairs_view(es@);
                insert_pair(&mut es, k2, v2);
                proof {
                    let rest = members_at(s@, e as int).0;
                    assert(members_at(s@, c as int).0 =~= seq![q] + rest);
                    assert((seq![q] + rest).drop_first() =~= rest);
                }
                c = e;
            },
            None => {
                break;
            },
        }
    }
    let d = skip_ws(s, len, c);
    if d >= len || s[d] != '}' {
        return None;
    }
    proof {
        lemma_object_view(es);
    }
    Some((JsonItem::JsonObject(es), d + 1 - i))
}

pub(crate) fn finish<'a>(s: &'a str, len: usize, r: Option<(JsonItem, usize)>) -> (out: Result<(&'a str, JsonItem), JsonParseError>)
    requires
        len == s@.len(),
        r matches Some((_, n)) ==> n <= len,
    ensures
        match r {
            Some((x, n)) => out matches Ok((rest, y)) && y == x && rest@ == s@.subrange(n as int, len as int),
            None => out is Err,
        },
{
    match r {
        Some((x, n)) => Ok((s.substring_char(n, len), x)),
        None => Err(JsonParseError {  }),
    }
}

/// Parses a float literal at the start of `input`.
pub fn number_parser(input: &str) -> (r: Result<(&str, JsonItem), JsonParseError>)
    ensures
        produced(r, input@, number_at(input@, 0)),
{
    let len = input.unicode_len();
    proof {
        lemma_lexeme_len_bound(input@);
        assert(input@.subrange(0, input@.len() as int) =~= input@);
    }
    let chars = chars_of(input);
    if !mantissa_at(&chars, 0) {
        return Err(JsonParseError {  });
    }
    proof {
        assert(chars@.subrange(0, chars@.len() as int) =~= input@);
    }
    match nom_double(input) {
        Some((rest, text)) => {
            let n = len - rest.unicode_len();
            proof {
                assert(input@.subrange(0, n as int) =~= input@.subrange(0, 0 + n));
            }
            Ok((rest, JsonItem::JsonNumber(text)))
        },
        None => Err(JsonParseError {  }),
    }
}

/// Parses a string token at the start of `input`.
pub fn string_parser(input: &str) -> (r: Result<(&str, JsonItem), JsonParseError>)
    ensures
        produced(r, input@, str_at(input@, 0)),
{
    let chars = chars_of(input);
    let len = chars.len();
    let r = match lex_string(&chars, len, 0) {
        Some((t, n)) => Some((JsonItem::JsonString(t), n)),
        None => None,
    };
    finish(input, len, r)
}

/// Parses an array at the start of `input`.
pub fn array_parser(input: &str) -> (r: Result<(&str, JsonItem), JsonParseError>)
    ensures
        produced(r, input@, array_at(input@, 0)),
{
    let chars = chars_of(input);
    let len = chars.len();
    let r = if len > 0 && chars[0] == '[' {
        parse_array(&chars, len, 0)
    } else {
        None
    };
    finish(input, len, r)
}

/// Parses an object at the start of `input`.
pub fn object_parser(input: &str) -> (r: Result<(&str, JsonItem), JsonParseError>)
    ensures
        produced(r, input@, object_at(input@, 0)),
{
    let chars = chars_of(input);
    let len = chars.len();
    let r = if len > 0 && chars[0] == '{' {
        parse_object(&chars, len, 0)
    } else {
        None
    };
    finish(input, len, r)
}

} // verus!
