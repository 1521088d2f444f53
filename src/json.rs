use vstd::prelude::*;
use vstd::string::StrSliceExecFns;
use vstd::string::StringExecFns;

use crate::lexer::{chars_of, decimal_len, lemma_lexeme_len_bound, mantissa_at, nom_double, number_text};

verus! {

broadcast use vstd::std_specs::vec::axiom_vec_index_decreases, vstd::seq::axiom_seq_index_decreases;

/// The mathematical value of a document.
///
/// A number is held as its canonical decimal text. An object is held as its
/// entries in ascending key order, each key once.
pub enum JsonValue {
    Number(Seq<char>),
    Str(Seq<char>),
    Array(Seq<JsonValue>),
    Object(Seq<(Seq<char>, JsonValue)>),
}

/// A document tree.
///
/// `JsonNumber` holds the canonical decimal text of a 64-bit float.
/// `JsonObject` holds its entries sorted by key, with no key twice: the
/// `well_formed` invariant, which parsing and the constructors establish and
/// rendering requires.
#[derive(Debug)]
pub enum JsonItem {
    JsonNumber(String),
    JsonString(String),
    JsonArray(Vec<JsonItem>),
    JsonObject(Vec<(String, JsonItem)>),
}

impl JsonItem {
    pub open spec fn view(&self) -> JsonValue
        decreases self,
    {
        match self {
            JsonItem::JsonNumber(t) => JsonValue::Number(t@),
            JsonItem::JsonString(s) => JsonValue::Str(s@),
            JsonItem::JsonArray(v) => JsonValue::Array(
                Seq::new(v.len() as nat, |i: int| if 0 <= i < v.len() { v[i].view() } else { JsonValue::Array(seq![]) }),
            ),
            JsonItem::JsonObject(es) => JsonValue::Object(
                Seq::new(
                    es.len() as nat,
                    |i: int|
                        if 0 <= i < es.len() {
                            (es[i].0@, es[i].1.view())
                        } else {
                            (seq![], JsonValue::Array(seq![]))
                        },
                ),
            ),
        }
    }
}

/// The canonical text of a value.
pub open spec fn text_of(v: JsonValue) -> Seq<char>
    decreases v, 0nat,
{
    match v {
        JsonValue::Number(t) => t,
        JsonValue::Str(s) => seq!['"'] + s + seq!['"'],
        JsonValue::Array(items) => seq!['['] + items_text(items, items.len()) + seq![']'],
        JsonValue::Object(es) => seq!['{'] + entries_text(es, es.len()) + seq!['}'],
    }
}

/// The texts of the first `n` items, joined by commas.
pub open spec fn items_text(items: Seq<JsonValue>, n: nat) -> Seq<char>
    decreases items, n,
{
    if n == 0 || n > items.len() {
        seq![]
    } else if n == 1 {
        text_of(items[0])
    } else {
        items_text(items, (n - 1) as nat) + seq![','] + text_of(items[n - 1])
    }
}

/// One entry as `key:value`, the key as it is.
pub open spec fn entry_text(e: (Seq<char>, JsonValue)) -> Seq<char>
    decreases e, 0nat,
{
    e.0 + seq![':'] + text_of(e.1)
}

/// The texts of the first `n` entries, joined by commas.
pub open spec fn entries_text(es: Seq<(Seq<char>, JsonValue)>, n: nat) -> Seq<char>
    decreases es, n,
{
    if n == 0 || n > es.len() {
        seq![]
    } else if n == 1 {
        entry_text(es[0])
    } else {
        entries_text(es, (n - 1) as nat) + seq![','] + entry_text(es[n - 1])
    }
}

impl JsonItem {
    /// Renders the tree as canonical text: numbers as their text, strings in
    /// quotes without escaping, arrays and objects comma-joined without spaces,
    /// object keys in ascending order and without quotes.
    pub fn to_text(&self) -> (r: String)
        requires
            well_formed(self@),
        ensures
            r@ == text_of(self@),
        decreases self,
    {
        match self {
            JsonItem::JsonNumber(t) => t.clone(),
            JsonItem::JsonString(s) => {
                let mut r = String::from_str("\"");
                r.append(s.as_str());
                r.append("\"");
                proof {
                    reveal_strlit("\"");
                }
                r
            },
            JsonItem::JsonArray(v) => {
                let mut r = String::from_str("[");
                let ghost items = self@->Array_0;
                let mut i: usize = 0;
                proof {
                    reveal_strlit("[");
                    reveal_strlit(",");
                }
                while i < v.len()
                    invariant
                        0 <= i <= v.len(),
                        *self == JsonItem::JsonArray(*v),
                        well_formed(self@),
                        items == self@->Array_0,
                        items.len() == v.len(),
                        forall|j: int| 0 <= j < v.len() ==> items[j] == #[trigger] v[j]@,
                        r@ == seq!['['] + items_text(items, i as nat),
                    decreases v.len() - i,
                {
                    let ghost prev = r@;
                    proof {
                        reveal_strlit(",");
                    }
                    if i > 0 {
                        r.append(",");
                    }
                    proof {
                        assert(decreases_to!(*self => *v));
                    }
                    proof {
                        assert(well_formed(items[i as int]));
                    }
                    let t = v[i].to_text();
                    r.append(t.as_str());
                    proof {
                        reveal_with_fuel(items_text, 2);
                        if i > 0 {
                            assert(r@ =~= prev + seq![','] + text_of(items[i as int]));
                        } else {
                            assert(r@ =~= prev + text_of(items[i as int]));
                        }
                        assert(r@ =~= seq!['['] + items_text(items, (i + 1) as nat));
                    }
                    i = i + 1;
                }
                r.append("]");
                proof {
                    reveal_strlit("]");
                }
                r
            },
            JsonItem::JsonObject(es) => {
                let mut r = String::from_str("{");
                let ghost entries = self@->Object_0;
                let mut i: usize = 0;
                proof {
                    reveal_strlit("{");
                    reveal_strlit(",");
                    reveal_strlit(":");
                }
                while i < es.len()
                    invariant
                        0 <= i <= es.len(),
                        *self == JsonItem::JsonObject(*es),
                        well_formed(self@),
                        entries == self@->Object_0,
                        entries.len() == es.len(),
                        forall|j: int|
                            0 <= j < es.len() ==> entries[j] == (#[trigger] es[j].0@, es[j].1@),
                        r@ == seq!['{'] + entries_text(entries, i as nat),
                    decreases es.len() - i,
                {
                    let ghost prev = r@;
                    proof {
                        reveal_strlit(",");
                        reveal_strlit(":");
                    }
                    if i > 0 {
                        r.append(",");
                    }
                    let ghost mid = r@;
                    r.append(es[i].0.as_str());
                    r.append(":");
                    proof {
                        assert(decreases_to!(*self => *es));
                        assert(decreases_to!(*es => es[i as int]));
                    }
                    proof {
                        assert(well_formed(entries[i as int].1));
                    }
                    let t = es[i].1.to_text();
                    r.append(t.as_str());
                    proof {
                        reveal_with_fuel(entries_text, 2);
                        assert(r@ =~= mid + entry_text(entries[i as int]));
                        if i > 0 {
                            assert(r@ =~= prev + seq![','] + entry_text(entries[i as int]));
                        } else {
                            assert(r@ =~= prev + entry_text(entries[i as int]));
                        }
                        assert(r@ =~= seq!['{'] + entries_text(entries, (i + 1) as nat));
                    }
                    i = i + 1;
                }
                r.append("}");
                proof {
                    reveal_strlit("}");
                }
                r
            },
        }
    }
}

/// Lexicographic order of keys, character by character by code point,
/// compared from position `k` on.
pub open spec fn key_lt_from(a: Seq<char>, b: Seq<char>, k: int) -> bool
    decreases a.len() - k,
{
    if k < 0 || k >= a.len() {
        0 <= k < b.len()
    } else if k >= b.len() {
        false
    } else if a[k] != b[k] {
        a[k] < b[k]
    } else {
        key_lt_from(a, b, k + 1)
    }
}

/// `a` sorts before `b`: the order of `String`'s `Ord`.
pub open spec fn key_lt(a: Seq<char>, b: Seq<char>) -> bool {
    key_lt_from(a, b, 0)
}

pub fn key_less(a: &str, b: &str) -> (r: bool)
    ensures
        r == key_lt(a@, b@),
{
    let la = a.unicode_len();
    let lb = b.unicode_len();
    let mut k: usize = 0;
    while k < la && k < lb
        invariant
            la == a@.len(),
            lb == b@.len(),
            0 <= k <= la,
            k <= lb,
            key_lt(a@, b@) == key_lt_from(a@, b@, k as int),
        decreases la - k,
    {
        let ca = a.get_char(k);
        let cb = b.get_char(k);
        if ca != cb {
            return ca < cb;
        }
        k = k + 1;
    }
    k < lb && k == la
}

/// The entries with `(k, v)` put in: in place of an entry with key `k`, or else
/// before the first entry whose key sorts after `k`.
pub open spec fn insert_entry(es: Seq<(Seq<char>, JsonValue)>, k: Seq<char>, v: JsonValue) -> Seq<
    (Seq<char>, JsonValue),
>
    decreases es.len(),
{
    if es.len() == 0 {
        seq![(k, v)]
    } else if es[0].0 == k {
        seq![(k, v)] + es.drop_first()
    } else if key_lt(k, es[0].0) {
        seq![(k, v)] + es
    } else {
        seq![es[0]] + insert_entry(es.drop_first(), k, v)
    }
}

/// The entries of `es` with each of `pairs` put in, in order: a later pair
/// replaces an earlier one with the same key.
pub open spec fn insert_all(es: Seq<(Seq<char>, JsonValue)>, pairs: Seq<(Seq<char>, JsonValue)>) -> Seq<
    (Seq<char>, JsonValue),
>
    decreases pairs.len(),
{
    if pairs.len() == 0 {
        es
    } else {
        insert_all(insert_entry(es, pairs[0].0, pairs[0].1), pairs.drop_first())
    }
}

pub open spec fn pairs_view(es: Seq<(String, JsonItem)>) -> Seq<(Seq<char>, JsonValue)> {
    es.map_values(|p: (String, JsonItem)| (p.0@, p.1@))
}

proof fn lemma_insert_skip(es: Seq<(Seq<char>, JsonValue)>, k: Seq<char>, v: JsonValue, p: int)
    requires
        0 <= p <= es.len(),
        forall|j: int| 0 <= j < p ==> es[j].0 != k && !key_lt(k, #[trigger] es[j].0),
    ensures
        insert_entry(es, k, v) == es.take(p) + insert_entry(es.skip(p), k, v),
    decreases p,
{
    if p == 0 {
        assert(es.skip(0) =~= es);
        assert(es.take(0) + insert_entry(es, k, v) =~= insert_entry(es, k, v));
    } else {
        let rest = es.drop_first();
        assert forall|j: int| 0 <= j < p - 1 implies rest[j].0 != k && !key_lt(k, #[trigger] rest[j].0) by {
            assert(rest[j] == es[j + 1]);
        }
        lemma_insert_skip(rest, k, v, p - 1);
        assert(rest.skip(p - 1) =~= es.skip(p));
        assert(es.take(p) =~= seq![es[0]] + rest.take(p - 1));
        assert(insert_entry(es, k, v) == seq![es[0]] + insert_entry(rest, k, v));
        assert(seq![es[0]] + (rest.take(p - 1) + insert_entry(es.skip(p), k, v)) =~= es.take(p)
            + insert_entry(es.skip(p), k, v));
    }
}

/// Entries in strictly ascending key order, so no key stands twice.
pub open spec fn sorted_keys(es: Seq<(Seq<char>, JsonValue)>) -> bool {
    forall|a: int, b: int| 0 <= a < b < es.len() ==> key_lt(#[trigger] es[a].0, #[trigger] es[b].0)
}

/// The invariant of a value: every object in it has its keys in strictly
/// ascending order.
pub open spec fn well_formed(v: JsonValue) -> bool
    decreases v,
{
    match v {
        JsonValue::Array(items) => forall|j: int|
            0 <= j < items.len() ==> well_formed(#[trigger] items[j]),
        JsonValue::Object(es) => sorted_keys(es) && forall|j: int|
            0 <= j < es.len() ==> well_formed(#[trigger] es[j].1),
        _ => true,
    }
}

proof fn lemma_key_lt_irreflexive(a: Seq<char>, k: int)
    requires
        0 <= k,
    ensures
        !key_lt_from(a, a, k),
    decreases a.len() - k,
{
    if k < a.len() {
        lemma_key_lt_irreflexive(a, k + 1);
    }
}

proof fn lemma_key_lt_total(a: Seq<char>, b: Seq<char>, k: int)
    requires
        0 <= k <= a.len(),
        k <= b.len(),
        a.subrange(k, a.len() as int) != b.subrange(k, b.len() as int),
    ensures
        key_lt_from(a, b, k) || key_lt_from(b, a, k),
    decreases a.len() - k,
{
    if k < a.len() && k < b.len() && a[k] == b[k] {
        assert(a.subrange(k + 1, a.len() as int) != b.subrange(k + 1, b.len() as int)) by {
            if a.subrange(k + 1, a.len() as int) == b.subrange(k + 1, b.len() as int) {
                assert(a.subrange(k, a.len() as int) =~= seq![a[k]] + a.subrange(k + 1, a.len() as int));
                assert(b.subrange(k, b.len() as int) =~= seq![b[k]] + b.subrange(k + 1, b.len() as int));
            }
        }
        lemma_key_lt_total(a, b, k + 1);
    } else if k >= a.len() && k >= b.len() {
        assert(a.subrange(k, a.len() as int) =~= b.subrange(k, b.len() as int));
    }
}

proof fn lemma_key_lt_trans(a: Seq<char>, b: Seq<char>, c: Seq<char>, k: int)
    requires
        0 <= k,
        key_lt_from(a, b, k),
        key_lt_from(b, c, k),
    ensures
        key_lt_from(a, c, k),
    decreases a.len() - k,
{
    if k < a.len() && k < b.len() && k < c.len() && a[k] == b[k] && b[k] == c[k] {
        lemma_key_lt_trans(a, b, c, k + 1);
    }
}

/// Every key after an insertion is the new key or an old one.
proof fn lemma_insert_keys(es: Seq<(Seq<char>, JsonValue)>, k: Seq<char>, v: JsonValue)
    ensures
        forall|j: int|
            0 <= j < insert_entry(es, k, v).len() ==> (#[trigger] insert_entry(es, k, v)[j] == (k, v)
                || exists|m: int| 0 <= m < es.len() && insert_entry(es, k, v)[j] == es[m]),
    decreases es.len(),
{
    let r = insert_entry(es, k, v);
    if es.len() > 0 {
        let rest = es.drop_first();
        lemma_insert_keys(rest, k, v);
        assert forall|j: int| 0 <= j < r.len() implies (#[trigger] r[j] == (k, v) || exists|m: int|
            0 <= m < es.len() && r[j] == es[m]) by {
            if es[0].0 == k {
                if j > 0 {
                    assert(r[j] == es[j]);
                }
            } else if key_lt(k, es[0].0) {
                if j > 0 {
                    assert(r[j] == es[j - 1]);
                }
            } else if j > 0 {
                let x = insert_entry(rest, k, v)[j - 1];
                assert(r[j] == x);
                if x != (k, v) {
                    let m = choose|m: int| 0 <= m < rest.len() && x == rest[m];
                    assert(r[j] == es[m + 1]);
                }
            }
        }
    }
}

proof fn lemma_insert_well_formed(es: Seq<(Seq<char>, JsonValue)>, k: Seq<char>, v: JsonValue)
    requires
        well_formed(JsonValue::Object(es)),
        well_formed(v),
    ensures
        well_formed(JsonValue::Object(insert_entry(es, k, v))),
    decreases es.len(),
{
    let r = insert_entry(es, k, v);
    if es.len() > 0 {
        let rest = es.drop_first();
        assert(well_formed(JsonValue::Object(rest))) by {
            assert forall|a: int, b: int| 0 <= a < b < rest.len() implies key_lt(
                #[trigger] rest[a].0,
                #[trigger] rest[b].0,
            ) by {
                assert(key_lt(es[a + 1].0, es[b + 1].0));
            }
            assert forall|j: int| 0 <= j < rest.len() implies well_formed(#[trigger] rest[j].1) by {
                assert(well_formed(es[j + 1].1));
            }
        }
        lemma_insert_well_formed(rest, k, v);
        if es[0].0 == k {
            assert forall|a: int, b: int| 0 <= a < b < r.len() implies key_lt(
                #[trigger] r[a].0,
                #[trigger] r[b].0,
            ) by {
                assert(key_lt(es[a].0, es[b].0));
            }
        } else if key_lt(k, es[0].0) {
            assert forall|a: int, b: int| 0 <= a < b < r.len() implies key_lt(
                #[trigger] r[a].0,
                #[trigger] r[b].0,
            ) by {
                if a == 0 {
                    if b > 1 {
                        assert(key_lt(es[0].0, es[b - 1].0));
                        lemma_key_lt_trans(k, es[0].0, es[b - 1].0, 0);
                    }
                } else {
                    assert(key_lt(es[a - 1].0, es[b - 1].0));
                }
            }
        } else {
            assert(es[0].0.subrange(0, es[0].0.len() as int) =~= es[0].0);
            assert(k.subrange(0, k.len() as int) =~= k);
            lemma_key_lt_total(es[0].0, k, 0);
            let ri = insert_entry(rest, k, v);
            lemma_insert_keys(rest, k, v);
            assert forall|a: int, b: int| 0 <= a < b < r.len() implies key_lt(
                #[trigger] r[a].0,
                #[trigger] r[b].0,
            ) by {
                if a == 0 {
                    let x = ri[b - 1];
                    assert(r[b] == x);
                    if x != (k, v) {
                        let m = choose|m: int| 0 <= m < rest.len() && x == rest[m];
                        assert(key_lt(es[0].0, es[m + 1].0));
                    }
                } else {
                    assert(r[a] == ri[a - 1]);
                    assert(r[b] == ri[b - 1]);
                }
            }
            assert forall|j: int| 0 <= j < r.len() implies well_formed(#[trigger] r[j].1) by {
                if j > 0 {
                    assert(r[j] == ri[j - 1]);
                }
            }
        }
    }
}

/// Putting two different keys into an object gives the same object in
/// either order.
pub proof fn lemma_two_keys_commute(k1: Seq<char>, v1: JsonValue, k2: Seq<char>, v2: JsonValue)
    requires
        k1 != k2,
    ensures
        insert_all(seq![], seq![(k1, v1), (k2, v2)]) == insert_all(seq![], seq![(k2, v2), (k1, v1)]),
{
    assert(k1.subrange(0, k1.len() as int) =~= k1);
    assert(k2.subrange(0, k2.len() as int) =~= k2);
    lemma_key_lt_total(k1, k2, 0);
    if key_lt(k1, k2) && key_lt(k2, k1) {
        lemma_key_lt_trans(k1, k2, k1, 0);
        lemma_key_lt_irreflexive(k1, 0);
    }
    let e1: Seq<(Seq<char>, JsonValue)> = seq![(k1, v1)];
    let e2: Seq<(Seq<char>, JsonValue)> = seq![(k2, v2)];
    assert(seq![(k1, v1), (k2, v2)].drop_first() =~= e2);
    assert(seq![(k2, v2), (k1, v1)].drop_first() =~= e1);
    assert(e1.drop_first() =~= seq![]);
    assert(e2.drop_first() =~= seq![]);
    assert(insert_entry(seq![], k1, v1) == e1);
    assert(insert_entry(seq![], k2, v2) == e2);
    assert(insert_entry(e2, k1, v1) =~= insert_entry(e1, k2, v2)) by {
        assert(seq![(k1, v1)] + e2 =~= seq![(k1, v1), (k2, v2)]);
        assert(seq![(k2, v2)] + e1 =~= seq![(k2, v2), (k1, v1)]);
        assert(e1 + seq![(k2, v2)] =~= seq![(k1, v1), (k2, v2)]);
        assert(seq![e2[0]] + insert_entry(e2.drop_first(), k1, v1) =~= seq![(k2, v2), (k1, v1)]);
        assert(seq![e1[0]] + insert_entry(e1.drop_first(), k2, v2) =~= seq![(k1, v1), (k2, v2)]);
    }
    let none: Seq<(Seq<char>, JsonValue)> = seq![];
    assert(insert_all(seq![], seq![(k1, v1), (k2, v2)]) == insert_all(e1, e2));
    assert(insert_all(e1, e2) == insert_all(insert_entry(e1, k2, v2), none));
    assert(insert_all(seq![], seq![(k2, v2), (k1, v1)]) == insert_all(e2, e1));
    assert(insert_all(e2, e1) == insert_all(insert_entry(e2, k1, v1), none));
}

/// Puts `(k, v)` into sorted entries.
pub(crate) fn insert_pair(es: &mut Vec<(String, JsonItem)>, k: String, v: JsonItem)
    ensures
        pairs_view(final(es)@) == insert_entry(pairs_view(old(es)@), k@, v@),
        well_formed(JsonValue::Object(pairs_view(old(es)@))) && well_formed(v@) ==> well_formed(
            JsonValue::Object(pairs_view(final(es)@)),
        ),
{
    proof {
        if well_formed(JsonValue::Object(pairs_view(es@))) && well_formed(v@) {
            lemma_insert_well_formed(pairs_view(es@), k@, v@);
        }
    }
    let ghost e0 = pairs_view(es@);
    let mut p: usize = 0;
    while p < es.len() && !(es[p].0 == k) && !key_less(k.as_str(), es[p].0.as_str())
        invariant
            es@ == old(es)@,
            e0 == pairs_view(es@),
            0 <= p <= es.len(),
            forall|j: int| 0 <= j < p ==> e0[j].0 != k@ && !key_lt(k@, #[trigger] e0[j].0),
        decreases es.len() - p,
    {
        p = p + 1;
    }
    proof {
        lemma_insert_skip(e0, k@, v@, p as int);
    }
    let ghost kv = k@;
    let ghost vv = v@;
    if p < es.len() && es[p].0 == k {
        es.set(p, (k, v));
        proof {
            assert(e0.skip(p as int).drop_first() =~= e0.skip(p as int + 1));
            assert(pairs_view(es@) =~= e0.take(p as int) + insert_entry(e0.skip(p as int), kv, vv));
        }
    } else {
        es.insert(p, (k, v));
        proof {
            assert(pairs_view(es@) =~= e0.take(p as int) + insert_entry(e0.skip(p as int), kv, vv));
        }
    }
}

pub open spec fn items_view(v: Seq<JsonItem>) -> Seq<JsonValue> {
    v.map_values(|x: JsonItem| x@)
}

pub proof fn lemma_array_view(v: Vec<JsonItem>)
    ensures
        JsonItem::JsonArray(v)@ == JsonValue::Array(items_view(v@)),
{
    assert(JsonItem::JsonArray(v)@->Array_0 =~= items_view(v@));
}

pub proof fn lemma_object_view(es: Vec<(String, JsonItem)>)
    ensures
        JsonItem::JsonObject(es)@ == JsonValue::Object(pairs_view(es@)),
{
    assert(JsonItem::JsonObject(es)@->Object_0 =~= pairs_view(es@));
}

impl JsonItem {
    /// The number that a decimal float literal denotes (an optional sign,
    /// digits, an optional fraction and exponent); `None` where `literal` is not
    /// one whole literal.
    pub fn number(literal: &str) -> (r: Option<JsonItem>)
        ensures
            decimal_len(literal@) == Some(literal@.len()) ==> (r matches Some(x) && x@
                == JsonValue::Number(number_text(literal@))),
            decimal_len(literal@) != Some(literal@.len()) ==> r is None,
            r matches Some(x) ==> well_formed(x@),
    {
        proof {
            lemma_lexeme_len_bound(literal@);
        }
        let chars = chars_of(literal);
        proof {
            assert(chars@.subrange(0, chars@.len() as int) =~= literal@);
        }
        if !mantissa_at(&chars, 0) {
            return None;
        }
        match nom_double(literal) {
            Some((rest, text)) => {
                if rest.unicode_len() == 0 {
                    proof {
                        assert(literal@.subrange(0, literal@.len() as int) =~= literal@);
                    }
                    Some(JsonItem::JsonNumber(text))
                } else {
                    None
                }
            },
            None => None,
        }
    }

    /// A string value holding `s` as it is.
    pub fn string(s: &str) -> (r: JsonItem)
        ensures
            r@ == JsonValue::Str(s@),
            well_formed(r@),
    {
        JsonItem::JsonString(String::from_str(s))
    }

    /// An array of `items`, in order.
    pub fn array(items: Vec<JsonItem>) -> (r: JsonItem)
        ensures
            r@ == JsonValue::Array(items_view(items@)),
            (forall|j: int| 0 <= j < items.len() ==> well_formed(#[trigger] items@[j]@)) ==> well_formed(
                r@,
            ),
    {
        proof {
            lemma_array_view(items);
            let iv = items_view(items@);
            if forall|j: int| 0 <= j < items.len() ==> well_formed(#[trigger] items@[j]@) {
                assert forall|j: int| 0 <= j < iv.len() implies well_formed(#[trigger] iv[j]) by {
                    assert(iv[j] == items@[j]@);
                }
            }
        }
        JsonItem::JsonArray(items)
    }

    /// An object of `pairs`, put in in order: a later pair replaces an earlier
    /// one with the same key.
    pub fn object(pairs: Vec<(String, JsonItem)>) -> (r: JsonItem)
        ensures
            r@ == JsonValue::Object(insert_all(seq![], pairs_view(pairs@))),
            (forall|j: int| 0 <= j < pairs.len() ==> well_formed(#[trigger] pairs@[j].1@)) ==> well_formed(
                r@,
            ),
    {
        let mut pairs = pairs;
        let ghost all = pairs_view(pairs@);
        let mut es: Vec<(String, JsonItem)> = Vec::new();
        proof {
            assert(pairs_view(es@) =~= seq![]);
        }
        let ghost fine = forall|j: int| 0 <= j < pairs.len() ==> well_formed(#[trigger] pairs@[j].1@);
        while pairs.len() > 0
            invariant
                insert_all(pairs_view(es@), pairs_view(pairs@)) == insert_all(seq![], all),
                fine ==> well_formed(JsonValue::Object(pairs_view(es@))),
                fine ==> forall|j: int| 0 <= j < pairs.len() ==> well_formed(#[trigger] pairs@[j].1@),
            decreases pairs.len(),
        {
            let ghost before = pairs_view(pairs@);
            let ghost rest_before = pairs@;
            let (k, v) = pairs.remove(0);
            proof {
                assert(pairs_view(pairs@) =~= before.drop_first());
                if fine {
                    assert(well_formed(rest_before[0].1@));
                    assert forall|j: int| 0 <= j < pairs.len() implies well_formed(#[trigger] pairs@[j].1@) by {
                        assert(pairs@[j] == rest_before[j + 1]);
                    }
                }
            }
            insert_pair(&mut es, k, v);
        }
        proof {
            lemma_object_view(es);
        }
        JsonItem::JsonObject(es)
    }
}

/// Two number texts denote equal floats: the same text, except `NaN`, which
/// equals nothing, and `0`, which equals `-0`.
pub open spec fn number_eq(a: Seq<char>, b: Seq<char>) -> bool {
    (a == b && a != seq!['N', 'a', 'N']) || ((a == seq!['0'] || a == seq!['-', '0']) && (b == seq![
        '0',
    ] || b == seq!['-', '0']))
}

/// Equality of values: numbers as floats, strings by their characters, arrays
/// item by item, objects entry by entry.
pub open spec fn value_eq(v: JsonValue, w: JsonValue) -> bool
    decreases v,
{
    match v {
        JsonValue::Number(a) => w is Number && number_eq(a, w->Number_0),
        JsonValue::Str(a) => w is Str && a == w->Str_0,
        JsonValue::Array(x) => w is Array && x.len() == w->Array_0.len() && forall|j: int|
            0 <= j < x.len() ==> value_eq(#[trigger] x[j], w->Array_0[j]),
        JsonValue::Object(x) => w is Object && x.len() == w->Object_0.len() && forall|j: int|
            0 <= j < x.len() ==> (#[trigger] x[j]).0 == w->Object_0[j].0 && value_eq(
                x[j].1,
                w->Object_0[j].1,
            ),
    }
}

fn number_same(a: &String, b: &String) -> (r: bool)
    ensures
        r == number_eq(a@, b@),
{
    let nan = String::from_str("NaN");
    let zero = String::from_str("0");
    let negative_zero = String::from_str("-0");
    proof {
        reveal_strlit("NaN");
        reveal_strlit("0");
        reveal_strlit("-0");
        assert("NaN"@ =~= seq!['N', 'a', 'N']);
        assert("0"@ =~= seq!['0']);
        assert("-0"@ =~= seq!['-', '0']);
    }
    (*a == *b && !(*a == nan)) || ((*a == zero || *a == negative_zero) && (*b == zero || *b
        == negative_zero))
}

impl JsonItem {
    /// Whether two trees have equal values: numbers compare as floats, the
    /// rest item by item and entry by entry.
    pub fn same(&self, other: &JsonItem) -> (r: bool)
        ensures
            r == value_eq(self@, other@),
        decreases self,
    {
        match (self, other) {
            (JsonItem::JsonNumber(a), JsonItem::JsonNumber(b)) => number_same(a, b),
            (JsonItem::JsonString(a), JsonItem::JsonString(b)) => *a == *b,
            (JsonItem::JsonArray(a), JsonItem::JsonArray(b)) => {
                proof {
                    lemma_array_view(*a);
                    lemma_array_view(*b);
                }
                if a.len() != b.len() {
                    proof {
                        assert(items_view(a@).len() != items_view(b@).len());
                    }
                    return false;
                }
                let mut i: usize = 0;
                while i < a.len()
                    invariant
                        *self == JsonItem::JsonArray(*a),
                        *other == JsonItem::JsonArray(*b),
                        self@ == JsonValue::Array(items_view(a@)),
                        other@ == JsonValue::Array(items_view(b@)),
                        a.len() == b.len(),
                        0 <= i <= a.len(),
                        forall|j: int| 0 <= j < i ==> value_eq(#[trigger] items_view(a@)[j], items_view(b@)[j]),
                    decreases a.len() - i,
                {
                    proof {
                        assert(decreases_to!(*self => *a));
                    }
                    if !a[i].same(&b[i]) {
                        proof {
                            assert(!value_eq(items_view(a@)[i as int], items_view(b@)[i as int]));
                        }
                        return false;
                    }
                    i = i + 1;
                }
                true
            },
            (JsonItem::JsonObject(a), JsonItem::JsonObject(b)) => {
                proof {
                    lemma_object_view(*a);
                    lemma_object_view(*b);
                }
                if a.len() != b.len() {
                    proof {
                        assert(pairs_view(a@).len() != pairs_view(b@).len());
                    }
                    return false;
                }
                let mut i: usize = 0;
                while i < a.len()
                    invariant
                        *self == JsonItem::JsonObject(*a),
                        *other == JsonItem::JsonObject(*b),
                        self@ == JsonValue::Object(pairs_view(a@)),
                        other@ == JsonValue::Object(pairs_view(b@)),
                        a.len() == b.len(),
                        0 <= i <= a.len(),
                        forall|j: int|
                            0 <= j < i ==> (#[trigger] pairs_view(a@)[j]).0 == pairs_view(b@)[j].0
                                && value_eq(pairs_view(a@)[j].1, pairs_view(b@)[j].1),
                    decreases a.len() - i,
                {
                    proof {
                        assert(decreases_to!(*self => *a));
                        assert(decreases_to!(*a => a[i as int]));
                    }
                    if !(a[i].0 == b[i].0) || !a[i].1.same(&b[i].1) {
                        proof {
                            assert(!((pairs_view(a@)[i as int]).0 == pairs_view(b@)[i as int].0
                                && value_eq(pairs_view(a@)[i as int].1, pairs_view(b@)[i as int].1)));
                        }
                        return false;
                    }
                    i = i + 1;
                }
                true
            },
            _ => {
                proof {
                    assert(self@ is Number <==> self is JsonNumber);
                    assert(self@ is Str <==> self is JsonString);
                    assert(self@ is Array <==> self is JsonArray);
                    assert(other@ is Number <==> other is JsonNumber);
                    assert(other@ is Str <==> other is JsonString);
                    assert(other@ is Array <==> other is JsonArray);
                }
                false
            },
        }
    }
}

impl PartialEq for JsonItem {
    fn eq(&self, other: &JsonItem) -> (r: bool) {
        self.same(other)
    }
}

impl vstd::std_specs::cmp::PartialEqSpecImpl for JsonItem {
    open spec fn obeys_eq_spec() -> bool {
        true
    }

    open spec fn eq_spec(&self, other: &JsonItem) -> bool {
        value_eq(self@, other@)
    }
}

} // verus!
