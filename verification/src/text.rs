//! Character and string primitives used by the roster pipeline: whitespace
//! trimming, lower-casing of ASCII letters, equality and lexicographic
//! order on strings, and lookup in small association tables.
use vstd::prelude::*;
use vstd::string::StrSliceExecFns;

verus! {

/// Characters stripped when a cell's text is trimmed: the ASCII whitespace
/// characters and the no-break space that HTML exports commonly contain.
pub open spec fn is_space_char(c: char) -> bool {
    c == ' ' || c == '\t' || c == '\n' || c == '\r' || c == '\u{0b}' || c == '\u{0c}'
        || c == '\u{a0}'
}

pub fn is_space(c: char) -> (r: bool)
    ensures
        r == is_space_char(c),
{
    c == ' ' || c == '\t' || c == '\n' || c == '\r' || c == '\u{0b}' || c == '\u{0c}'
        || c == '\u{a0}'
}

pub open spec fn is_digit_char(c: char) -> bool {
    '0' as u32 <= c as u32 && c as u32 <= '9' as u32
}

pub fn is_digit(c: char) -> (r: bool)
    ensures
        r == is_digit_char(c),
{
    '0' as u32 <= c as u32 && c as u32 <= '9' as u32
}

pub open spec fn digit_val(c: char) -> int {
    c as u32 - '0' as u32
}

/// ASCII upper-case letters map to their lower-case form; every other
/// character is kept as it is.
pub open spec fn lower_char(c: char) -> char {
    if 'A' as u32 <= c as u32 && c as u32 <= 'Z' as u32 {
        ((c as u32 + 32) as u8) as char
    } else {
        c
    }
}

pub open spec fn lower_seq(s: Seq<char>) -> Seq<char> {
    s.map_values(|c: char| lower_char(c))
}

/// Relies on String::push: appends exactly the given character.
#[verifier::external_body]
pub(crate) fn push_char(s: &mut String, c: char)
    ensures
        final(s)@ == old(s)@.push(c),
{
    s.push(c);
}

/// Lower-cases the ASCII letters of a string, leaving all other characters
/// unchanged.
pub fn to_lower(s: &str) -> (r: String)
    ensures
        r@ == lower_seq(s@),
{
    let n = s.unicode_len();
    let mut r = String::new();
    assert(r@ =~= lower_seq(s@.take(0)));
    for i in 0..n
        invariant
            n == s@.len(),
            r@ == lower_seq(s@.take(i as int)),
    {
        let c = s.get_char(i);
        let lc = if 'A' as u32 <= c as u32 && c as u32 <= 'Z' as u32 {
            (c as u32 + 32) as u8 as char
        } else {
            c
        };
        push_char(&mut r, lc);
        assert(lower_seq(s@.take(i + 1)) =~= lower_seq(s@.take(i as int)).push(lower_char(c)));
    }
    assert(s@.take(n as int) =~= s@);
    r
}

/// The string without its leading space characters.
pub open spec fn ltrim(s: Seq<char>) -> Seq<char>
    decreases s.len(),
{
    if s.len() > 0 && is_space_char(s[0]) {
        ltrim(s.drop_first())
    } else {
        s
    }
}

/// The string without its trailing space characters.
pub open spec fn rtrim(s: Seq<char>) -> Seq<char>
    decreases s.len(),
{
    if s.len() > 0 && is_space_char(s.last()) {
        rtrim(s.drop_last())
    } else {
        s
    }
}

/// The string without leading and trailing space characters.
pub open spec fn trim_spec(s: Seq<char>) -> Seq<char> {
    rtrim(ltrim(s))
}

pub(crate) proof fn lemma_ltrim_skip(s: Seq<char>, a: int)
    requires
        0 <= a <= s.len(),
        forall|j: int| 0 <= j < a ==> is_space_char(s[j]),
        a == s.len() || !is_space_char(s[a]),
    ensures
        ltrim(s) == s.skip(a),
    decreases a,
{
    if a == 0 {
        assert(s.skip(0) =~= s);
    } else {
        let t = s.drop_first();
        assert(t =~= s.skip(1));
        assert(forall|j: int| 0 <= j < a - 1 ==> t[j] == s[j + 1]);
        lemma_ltrim_skip(t, a - 1);
        assert(t.skip(a - 1) =~= s.skip(a));
    }
}

pub(crate) proof fn lemma_rtrim_take(s: Seq<char>, b: int)
    requires
        0 <= b <= s.len(),
        forall|j: int| b <= j < s.len() ==> is_space_char(s[j]),
        b == 0 || !is_space_char(s[b - 1]),
    ensures
        rtrim(s) == s.take(b),
    decreases s.len(),
{
    if b == s.len() {
        assert(s.take(b) =~= s);
    } else {
        let t = s.drop_last();
        assert(t =~= s.take(s.len() - 1));
        lemma_rtrim_take(t, b);
        assert(t.take(b) =~= s.take(b));
    }
}

/// The string's characters with surrounding space characters removed.
pub fn trim(s: &str) -> (r: String)
    ensures
        r@ == trim_spec(s@),
{
    let n = s.unicode_len();
    let mut a: usize = 0;
    while a < n && is_space(s.get_char(a))
        invariant
            n == s@.len(),
            0 <= a <= n,
            forall|j: int| 0 <= j < a ==> is_space_char(s@[j]),
        decreases n - a,
    {
        a += 1;
    }
    proof {
        lemma_ltrim_skip(s@, a as int);
    }
    if a == n {
        proof {
            assert(s@.skip(a as int).len() == 0);
        }
        return String::new();
    }
    let mut b: usize = n;
    while b > a + 1 && is_space(s.get_char(b - 1))
        invariant
            n == s@.len(),
            a < b <= n,
            forall|j: int| b <= j < n ==> is_space_char(s@[j]),
        decreases b,
    {
        b -= 1;
    }
    if is_space(s.get_char(b - 1)) {
        // only possible when b == a + 1, i.e. the single kept character
        // would be a space; but s[a] is not a space, so this cannot happen
        assert(false);
    }
    let piece = s.substring_char(a, b);
    proof {
        let t = s@.skip(a as int);
        assert(forall|j: int|
            b - a <= j < t.len() ==> t[j] == s@[j + a] && is_space_char(s@[j + a]));
        assert(!is_space_char(t[b - a - 1]));
        lemma_rtrim_take(t, b - a);
        assert(t.take(b - a) =~= s@.subrange(a as int, b as int));
    }
    piece.to_owned()
}

/// Whether two strings hold the same characters.
pub fn str_eq(a: &str, b: &str) -> (r: bool)
    ensures
        r == (a@ == b@),
{
    let n = a.unicode_len();
    let m = b.unicode_len();
    if n != m {
        return false;
    }
    for i in 0..n
        invariant
            n == a@.len(),
            n == b@.len(),
            forall|j: int| 0 <= j < i ==> a@[j] == b@[j],
    {
        if a.get_char(i) != b.get_char(i) {
            return false;
        }
    }
    assert(a@ =~= b@);
    true
}

/// Strict lexicographic order on character sequences: the first position
/// where the sequences differ decides by scalar value; a proper prefix
/// comes before its extension.
pub open spec fn lex_lt(a: Seq<char>, b: Seq<char>) -> bool
    decreases a.len(),
{
    if b.len() == 0 {
        false
    } else if a.len() == 0 {
        true
    } else if (a[0] as u32) < (b[0] as u32) {
        true
    } else if a[0] == b[0] {
        lex_lt(a.drop_first(), b.drop_first())
    } else {
        false
    }
}

proof fn lemma_lex_skip(a: Seq<char>, b: Seq<char>, i: int)
    requires
        0 <= i <= a.len(),
        i <= b.len(),
        forall|j: int| 0 <= j < i ==> a[j] == b[j],
    ensures
        lex_lt(a, b) == lex_lt(a.skip(i), b.skip(i)),
    decreases i,
{
    if i > 0 {
        assert(a.len() > 0 && b.len() > 0 && a[0] == b[0]);
        assert(a.drop_first() =~= a.skip(1));
        assert(b.drop_first() =~= b.skip(1));
        assert(forall|j: int| 0 <= j < i - 1 ==> a.skip(1)[j] == b.skip(1)[j]);
        lemma_lex_skip(a.skip(1), b.skip(1), i - 1);
        assert(a.skip(1).skip(i - 1) =~= a.skip(i));
        assert(b.skip(1).skip(i - 1) =~= b.skip(i));
    } else {
        assert(a.skip(0) =~= a);
        assert(b.skip(0) =~= b);
    }
}

/// The lexicographic order is total: of two strings, one is smaller or they
/// are equal.
pub proof fn lemma_lex_total(a: Seq<char>, b: Seq<char>)
    ensures
        lex_lt(a, b) || lex_lt(b, a) || a == b,
    decreases a.len(),
{
    if a.len() == 0 && b.len() == 0 {
        assert(a =~= b);
    } else if a.len() > 0 && b.len() > 0 && !lex_lt(a, b) && !lex_lt(b, a) {
        assert(a[0] as u32 == b[0] as u32);
        assert(a[0] == b[0]) by {
            vstd::utf8::char_u32_cast(a[0], a[0] as u32);
            vstd::utf8::char_u32_cast(b[0], b[0] as u32);
        }
        lemma_lex_total(a.drop_first(), b.drop_first());
        assert(a.drop_first() == b.drop_first());
        assert(a =~= b) by {
            assert(forall|j: int|
                1 <= j < a.len() ==> a[j] == a.drop_first()[j - 1] && b[j] == b.drop_first()[j
                    - 1]);
        }
    }
}

/// The lexicographic order is transitive.
pub proof fn lemma_lex_trans(a: Seq<char>, b: Seq<char>, c: Seq<char>)
    requires
        lex_lt(a, b),
        lex_lt(b, c),
    ensures
        lex_lt(a, c),
    decreases a.len(),
{
    if a.len() > 0 && b.len() > 0 && c.len() > 0 {
        if a[0] == b[0] && b[0] == c[0] {
            lemma_lex_trans(a.drop_first(), b.drop_first(), c.drop_first());
        }
    }
}

/// The lexicographic order never holds both ways.
pub proof fn lemma_lex_asym(a: Seq<char>, b: Seq<char>)
    requires
        lex_lt(a, b),
    ensures
        !lex_lt(b, a),
    decreases a.len(),
{
    if a.len() > 0 && b.len() > 0 && a[0] == b[0] {
        lemma_lex_asym(a.drop_first(), b.drop_first());
    }
}

/// Whether the characters of `a` come lexicographically before those of `b`.
pub fn str_lt(a: &str, b: &str) -> (r: bool)
    ensures
        r == lex_lt(a@, b@),
{
    let n = a.unicode_len();
    let m = b.unicode_len();
    let k = if n < m {
        n
    } else {
        m
    };
    for i in 0..k
        invariant
            n == a@.len(),
            m == b@.len(),
            k == if n < m {
                n
            } else {
                m
            },
            forall|j: int| 0 <= j < i ==> a@[j] == b@[j],
    {
        let ca = a.get_char(i);
        let cb = b.get_char(i);
        if (ca as u32) < (cb as u32) {
            proof {
                lemma_lex_skip(a@, b@, i as int);
            }
            return true;
        }
        if (ca as u32) > (cb as u32) {
            proof {
                lemma_lex_skip(a@, b@, i as int);
            }
            return false;
        }
        proof {
            assert(ca == cb) by {
                vstd::utf8::char_u32_cast(ca, ca as u32);
                vstd::utf8::char_u32_cast(cb, cb as u32);
            }
        }
    }
    proof {
        lemma_lex_skip(a@, b@, k as int);
    }
    n < m
}

/// First match in an association table, searched front to back.
pub open spec fn spec_lookup(t: Seq<(Seq<char>, Seq<char>)>, k: Seq<char>) -> Option<Seq<char>>
    decreases t.len(),
{
    if t.len() == 0 {
        None
    } else if t[0].0 == k {
        Some(t[0].1)
    } else {
        spec_lookup(t.drop_first(), k)
    }
}

pub open spec fn pairs_view(t: Seq<(String, String)>) -> Seq<(Seq<char>, Seq<char>)> {
    t.map_values(|p: (String, String)| (p.0@, p.1@))
}

/// Looks a key up in a table of string pairs; the first matching pair wins.
pub fn lookup(t: &Vec<(String, String)>, k: &str) -> (r: Option<String>)
    ensures
        match r {
            Some(v) => spec_lookup(pairs_view(t@), k@) == Some(v@),
            None => spec_lookup(pairs_view(t@), k@) is None,
        },
{
    let n = t.len();
    assert(pairs_view(t@).skip(0) =~= pairs_view(t@));
    for i in 0..n
        invariant
            n == t@.len(),
            spec_lookup(pairs_view(t@), k@) == spec_lookup(pairs_view(t@).skip(i as int), k@),
    {
        proof {
            assert(pairs_view(t@).skip(i as int)[0] == (t@[i as int].0@, t@[i as int].1@));
        }
        if str_eq(t[i].0.as_str(), k) {
            return Some(t[i].1.clone());
        }
        proof {
            assert(pairs_view(t@).skip(i as int).drop_first() =~= pairs_view(t@).skip(i + 1));
        }
    }
    proof {
        assert(pairs_view(t@).skip(n as int).len() == 0);
    }
    None
}

/// Membership in a list of strings.
pub open spec fn spec_contains_str(t: Seq<Seq<char>>, k: Seq<char>) -> bool {
    exists|i: int| 0 <= i < t.len() && t[i] == k
}

pub open spec fn strings_view(t: Seq<String>) -> Seq<Seq<char>> {
    t.map_values(|s: String| s@)
}

/// Whether one of the strings in the list holds the same characters as `k`.
pub fn contains_str(t: &Vec<String>, k: &str) -> (r: bool)
    ensures
        r == spec_contains_str(strings_view(t@), k@),
{
    let n = t.len();
    for i in 0..n
        invariant
            n == t@.len(),
            forall|j: int| 0 <= j < i ==> strings_view(t@)[j] != k@,
    {
        if str_eq(t[i].as_str(), k) {
            assert(strings_view(t@)[i as int] == k@);
            return true;
        }
        assert(strings_view(t@)[i as int] == t@[i as int]@);
    }
    false
}

} // verus!
