use vstd::prelude::*;
use vstd::std_specs::iter::IteratorSpec;
use vstd::string::StrSliceExecFns;

verus! {

/// Unicode's White_Space property, as `char::is_whitespace` classifies it.
pub open spec fn is_ws(c: char) -> bool {
    let u = c as u32;
    (0x09 <= u && u <= 0x0d) || u == 0x20 || u == 0x85 || u == 0xa0 || u == 0x1680 || (0x2000
        <= u && u <= 0x200a) || u == 0x2028 || u == 0x2029 || u == 0x202f || u == 0x205f || u
        == 0x3000
}

pub fn is_whitespace(c: char) -> (r: bool)
    ensures
        r == is_ws(c),
{
    let u = c as u32;
    (0x09 <= u && u <= 0x0d) || u == 0x20 || u == 0x85 || u == 0xa0 || u == 0x1680 || (0x2000
        <= u && u <= 0x200a) || u == 0x2028 || u == 0x2029 || u == 0x202f || u == 0x205f || u
        == 0x3000
}

/// How many whitespace characters stand in `s` from position `i` on.
pub open spec fn ws_count(s: Seq<char>, i: int) -> nat
    decreases s.len() - i,
{
    if 0 <= i < s.len() && is_ws(s[i]) {
        1 + ws_count(s, i + 1)
    } else {
        0
    }
}

/// How many characters other than `"` stand in `s` from position `i` on.
pub open spec fn unquoted_count(s: Seq<char>, i: int) -> nat
    decreases s.len() - i,
{
    if 0 <= i < s.len() && s[i] != '"' {
        1 + unquoted_count(s, i + 1)
    } else {
        0
    }
}

/// How many ASCII digits stand in `s` from position `i` on.
pub open spec fn digit_count(s: Seq<char>, i: int) -> nat
    decreases s.len() - i,
{
    if 0 <= i < s.len() && '0' <= s[i] && s[i] <= '9' {
        1 + digit_count(s, i + 1)
    } else {
        0
    }
}

pub open spec fn is_sign(s: Seq<char>, i: int) -> bool {
    0 <= i < s.len() && (s[i] == '+' || s[i] == '-')
}

pub open spec fn has_char(s: Seq<char>, i: int, c: char) -> bool {
    0 <= i < s.len() && s[i] == c
}

/// `s` begins with the three letters `a`, `b`, `c` in either case.
pub open spec fn starts_no_case(s: Seq<char>, a: char, b: char, c: char) -> bool {
    s.len() >= 3 && (s[0] == a || s[0] == char_upper(a)) && (s[1] == b || s[1] == char_upper(b))
        && (s[2] == c || s[2] == char_upper(c))
}

pub open spec fn char_upper(c: char) -> char {
    if c == 'a' {
        'A'
    } else if c == 'f' {
        'F'
    } else if c == 'i' {
        'I'
    } else if c == 'n' {
        'N'
    } else {
        c
    }
}

/// Where the mantissa of a decimal literal at the start of `s` ends: an
/// optional sign, then digits with an optional point and digits, or a point
/// and digits. `None` where no digit stands where one is needed.
pub open spec fn mantissa_end(s: Seq<char>) -> Option<int> {
    let a: int = if is_sign(s, 0) {
        1
    } else {
        0
    };
    let d = digit_count(s, a);
    if d > 0 {
        if has_char(s, a + d, '.') {
            Some(a + d + 1 + digit_count(s, a + d + 1))
        } else {
            Some(a + d)
        }
    } else if has_char(s, a, '.') && digit_count(s, a + 1) > 0 {
        Some(a + 1 + digit_count(s, a + 1))
    } else {
        None
    }
}

/// The length of the decimal float literal at the start of `s`: a mantissa
/// and an optional exponent whose digits, once `e` or `E` is seen, must be
/// there. This is the number grammar.
pub open spec fn decimal_len(s: Seq<char>) -> Option<nat> {
    match mantissa_end(s) {
        Some(b) => if has_char(s, b, 'e') || has_char(s, b, 'E') {
            let c = if is_sign(s, b + 1) {
                b + 2
            } else {
                b + 1
            };
            if digit_count(s, c) > 0 {
                Some((c + digit_count(s, c)) as nat)
            } else {
                None
            }
        } else {
            Some(b as nat)
        },
        None => None,
    }
}

/// What nom's float recogniser reads at the start of `s`: a decimal literal;
/// where no mantissa stands, `nan` or `inf` in either case.
pub open spec fn lexeme_len(s: Seq<char>) -> Option<nat> {
    if mantissa_end(s) is Some {
        decimal_len(s)
    } else if starts_no_case(s, 'n', 'a', 'n') || starts_no_case(s, 'i', 'n', 'f') {
        Some(3)
    } else {
        None
    }
}

/// Whether a decimal mantissa starts at `i`: a digit, or a point and a digit,
/// after an optional sign.
pub fn mantissa_at(s: &Vec<char>, i: usize) -> (r: bool)
    requires
        i <= s.len(),
    ensures
        r == (mantissa_end(s@.subrange(i as int, s@.len() as int)) is Some),
{
    let ghost t = s@.subrange(i as int, s@.len() as int);
    let len = s.len();
    let mut a: usize = i;
    if a < len && (s[a] == '+' || s[a] == '-') {
        a = a + 1;
    }
    let ghost k = (a - i) as int;
    proof {
        assert(is_sign(t, 0) == (k == 1));
        if a < len {
            assert(t[k] == s@[a as int]);
        }
        if a + 1 < len {
            assert(t[k + 1] == s@[a + 1]);
        }
        assert(digit_count(t, k) > 0 <==> (k < t.len() && '0' <= t[k] && t[k] <= '9'));
        assert(digit_count(t, k + 1) > 0 <==> (k + 1 < t.len() && '0' <= t[k + 1] && t[k + 1] <= '9'));
    }
    if a < len && '0' <= s[a] && s[a] <= '9' {
        true
    } else {
        a < len && a + 1 < len && s[a] == '.' && '0' <= s[a + 1] && s[a + 1] <= '9'
    }
}

/// The canonical decimal text of the 64-bit float that a literal denotes.
pub uninterp spec fn number_text(lexeme: Seq<char>) -> Seq<char>;

/// Relies on nom::number::complete::double: it recognises the literal that
/// `lexeme_len` describes at the start of `s` and parses it with
/// `str::parse` into a 64-bit float, whose documented grammar accepts every such literal;
/// the value is then written with the float's `Display`. Hands back the rest
/// of `s` and the number's text.
#[verifier::external_body]
pub(crate) fn nom_double(s: &str) -> (r: Option<(&str, String)>)
    ensures
        match lexeme_len(s@) {
            Some(n) => r matches Some((rest, text)) && rest@ == s@.subrange(n as int, s@.len() as int)
                && text@ == number_text(s@.subrange(0, n as int)),
            None => r is None,
        },
{
    match nom::number::complete::double::<&str, nom::error::Error<&str>>(s) {
        Ok((rest, x)) => Some((rest, x.to_string())),
        Err(_) => None,
    }
}

proof fn lemma_digit_count_bound(s: Seq<char>, i: int)
    requires
        0 <= i,
    ensures
        i + digit_count(s, i) <= s.len() || digit_count(s, i) == 0,
    decreases s.len() - i,
{
    if 0 <= i < s.len() && '0' <= s[i] && s[i] <= '9' {
        lemma_digit_count_bound(s, i + 1);
    }
}

/// A float literal takes at least one character and no more than there are.
pub proof fn lemma_lexeme_len_bound(s: Seq<char>)
    ensures
        lexeme_len(s) matches Some(n) ==> 0 < n <= s.len(),
        decimal_len(s) matches Some(n) ==> 0 < n <= s.len(),
{
    let a: int = if is_sign(s, 0) {
        1
    } else {
        0
    };
    lemma_digit_count_bound(s, a);
    lemma_digit_count_bound(s, a + 1);
    let d = digit_count(s, a);
    lemma_digit_count_bound(s, a + d + 1);
    let mantissa = mantissa_end(s);
    if let Some(b) = mantissa {
        lemma_digit_count_bound(s, b + 1);
        lemma_digit_count_bound(s, b + 2);
    }
}

/// A character that may stand in a float literal.
pub open spec fn is_lexeme_char(c: char) -> bool {
    ('0' <= c && c <= '9') || c == '.' || c == '+' || c == '-' || c == 'e' || c == 'E' || c == 'n'
        || c == 'N' || c == 'a' || c == 'A' || c == 'i' || c == 'I' || c == 'f' || c == 'F'
}

pub fn lexeme_char(c: char) -> (r: bool)
    ensures
        r == is_lexeme_char(c),
{
    ('0' <= c && c <= '9') || c == '.' || c == '+' || c == '-' || c == 'e' || c == 'E' || c == 'n'
        || c == 'N' || c == 'a' || c == 'A' || c == 'i' || c == 'I' || c == 'f' || c == 'F'
}

proof fn lemma_digit_count_ext(t: Seq<char>, r: Seq<char>, j: int)
    requires
        0 <= j <= t.len(),
        r.len() == 0 || !('0' <= r[0] && r[0] <= '9'),
    ensures
        digit_count(t + r, j) == digit_count(t, j),
    decreases t.len() - j,
{
    if j < t.len() {
        lemma_digit_count_ext(t, r, j + 1);
    }
}

/// What follows a character that cannot stand in a float literal does not
/// change the literal read before it.
pub proof fn lemma_lexeme_ext(t: Seq<char>, r: Seq<char>)
    requires
        r.len() == 0 || !is_lexeme_char(r[0]),
    ensures
        lexeme_len(t + r) == lexeme_len(t),
        mantissa_end(t + r) == mantissa_end(t),
        decimal_len(t + r) == decimal_len(t),
{
    let s = t + r;
    assert forall|j: int| 0 <= j <= t.len() implies #[trigger] digit_count(s, j) == digit_count(t, j) by {
        lemma_digit_count_ext(t, r, j);
    }
    assert forall|j: int| 0 <= j < t.len() implies #[trigger] s[j] == t[j] by {}
    if r.len() > 0 {
        assert(s[t.len() as int] == r[0]);
    }
    assert(is_sign(s, 0) == is_sign(t, 0));
    let a: int = if is_sign(t, 0) {
        1
    } else {
        0
    };
    let d = digit_count(t, a);
    lemma_digit_count_bound(t, a);
    lemma_digit_count_bound(t, a + 1);
    lemma_digit_count_bound(t, a + d + 1);
    assert(has_char(s, a, '.') == has_char(t, a, '.'));
    assert(has_char(s, a + d, '.') == has_char(t, a + d, '.'));
    assert(starts_no_case(s, 'n', 'a', 'n') == starts_no_case(t, 'n', 'a', 'n'));
    assert(starts_no_case(s, 'i', 'n', 'f') == starts_no_case(t, 'i', 'n', 'f'));
    let mantissa = mantissa_end(t);
    assert(mantissa_end(s) == mantissa);
    if let Some(b) = mantissa {
        assert(has_char(s, b, 'e') == has_char(t, b, 'e'));
        assert(has_char(s, b, 'E') == has_char(t, b, 'E'));
        if has_char(t, b, 'e') || has_char(t, b, 'E') {
            assert(is_sign(s, b + 1) == is_sign(t, b + 1));
        }
    }
}

/// Relies on std's `String::push`: appends one character.
#[verifier::external_body]
pub(crate) fn push_char(s: &mut String, c: char)
    ensures
        final(s)@ == old(s)@.push(c),
{
    s.push(c)
}

/// The characters of `s`, in order.
pub fn chars_of(s: &str) -> (v: Vec<char>)
    ensures
        v@ == s@,
{
    broadcast use vstd::string::axiom_spec_iter, vstd::string::next_postcondition;

    let mut it = s.chars();
    let mut v: Vec<char> = Vec::new();
    loop
        invariant
            it.obeys_prophetic_iter_laws(),
            it.decrease() is Some,
            v@ + it.remaining() == s@,
        ensures
            v@ == s@,
        decreases it.decrease()->0,
    {
        let ghost before = it.remaining();
        match it.next() {
            Some(c) => {
                proof {
                    assert(v@.push(c) + it.remaining() =~= v@ + before);
                }
                v.push(c);
            },
            None => {
                proof {
                    assert(v@ + before =~= v@);
                }
                break;
            },
        }
    }
    v
}

/// The characters of `v` from `from` up to `to`, as a string.
pub fn string_of(v: &Vec<char>, from: usize, to: usize) -> (r: String)
    requires
        from <= to <= v.len(),
    ensures
        r@ == v@.subrange(from as int, to as int),
{
    let mut r = String::new();
    let mut k: usize = from;
    while k < to
        invariant
            from <= k <= to <= v.len(),
            r@ == v@.subrange(from as int, k as int),
        decreases to - k,
    {
        push_char(&mut r, v[k]);
        k = k + 1;
        proof {
            assert(r@ =~= v@.subrange(from as int, k as int));
        }
    }
    r
}

} // verus!
