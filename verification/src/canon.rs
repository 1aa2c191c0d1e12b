//! The name canonicalizer: maps a trimmed raw name to its stable canonical
//! identity through an ordered pipeline.
//!
//! Under the structural strategy the raw name is first matched against a
//! grammar that strips decorative parts of roster exports: a trailing
//! parenthetical annotation, and up to four leading dash-separated labels
//! (a stream or class tag of upper-case letters, a grade or cohort code of
//! digits, a course-section marker of one upper-case letter and digits, or
//! an organization tag of upper-case letters), leaving a non-empty core
//! token; where the grammar does not match (an unbalanced annotation or an
//! empty remainder) the raw name itself is kept. The core token then runs
//! through the patch table (case-sensitive exact spelling corrections) and
//! the alias table (looked up lower-cased, mapping short codes to display
//! names). The lookup-only strategy skips the grammar and applies the two
//! lookups to the raw name directly; it is the default.
//!
//! Both tables, the strategy and the ignore set are explicit configuration
//! values, so alternate tables can be substituted.
use vstd::prelude::*;
use vstd::string::StrSliceExecFns;

use crate::text::{
    is_digit_char, is_space, is_space_char, lemma_rtrim_take, lookup, lower_seq,
    pairs_view, rtrim, spec_lookup, to_lower,
};

verus! {

/// Which name-handling pipeline runs before the table lookups.
#[derive(Clone, Copy, PartialEq, Eq, Debug)]
pub enum NameStrategy {
    /// Apply the patch and alias lookups to the raw name directly. The
    /// default.
    LookupOnly,
    /// Strip the structural grammar first and look the core token up.
    Grammar,
}

/// The canonicalizer's immutable configuration.
pub struct CanonConfig {
    /// Case-sensitive exact spelling corrections, applied to the core
    /// token; the first matching pair wins.
    pub patch: Vec<(String, String)>,
    /// Short code (matched lower-cased) to display name; the first
    /// matching pair wins.
    pub alias: Vec<(String, String)>,
    /// Which pipeline runs.
    pub strategy: NameStrategy,
}

pub ghost struct CanonConfigV {
    pub patch: Seq<(Seq<char>, Seq<char>)>,
    pub alias: Seq<(Seq<char>, Seq<char>)>,
    pub strategy: NameStrategy,
}

impl View for CanonConfig {
    type V = CanonConfigV;

    open spec fn view(&self) -> CanonConfigV {
        CanonConfigV {
            patch: pairs_view(self.patch@),
            alias: pairs_view(self.alias@),
            strategy: self.strategy,
        }
    }
}

pub open spec fn is_upper_char(c: char) -> bool {
    'A' as u32 <= c as u32 && c as u32 <= 'Z' as u32
}

/// Whether a dash-separated leading label is one of the decorative tag
/// shapes: upper-case letters, digits, or one upper-case letter followed
/// by digits.
pub open spec fn is_tag_seq(u: Seq<char>) -> bool {
    ||| (u.len() >= 1 && forall|j: int| 0 <= j < u.len() ==> is_upper_char(#[trigger] u[j]))
    ||| (u.len() >= 1 && forall|j: int| 0 <= j < u.len() ==> is_digit_char(#[trigger] u[j]))
    ||| (u.len() >= 2 && is_upper_char(u[0]) && forall|j: int|
        1 <= j < u.len() ==> is_digit_char(#[trigger] u[j]))
}

/// Rightmost `(` of the string.
pub open spec fn last_open(s: Seq<char>) -> Option<int>
    decreases s.len(),
{
    if s.len() == 0 {
        None
    } else if s.last() == '(' {
        Some(s.len() - 1)
    } else {
        last_open(s.drop_last())
    }
}

/// First occurrence of `c` at or after `from`.
pub open spec fn find_char(s: Seq<char>, from: int, c: char) -> Option<int>
    decreases s.len() - from,
{
    if from < 0 || from >= s.len() {
        None
    } else if s[from] == c {
        Some(from)
    } else {
        find_char(s, from + 1, c)
    }
}

/// Strips a trailing parenthetical annotation: a name ending in `)` loses
/// everything from its rightmost `(` on, and trailing spaces before it.
/// `None` means the grammar does not match (no matching `(`, or nothing
/// left of it).
pub open spec fn strip_annot(s: Seq<char>) -> Option<Seq<char>> {
    if s.len() > 0 && s.last() == ')' {
        match last_open(s.take(s.len() - 1)) {
            None => None,
            Some(j) => {
                let head = rtrim(s.take(j));
                if head.len() == 0 {
                    None
                } else {
                    Some(head)
                }
            },
        }
    } else {
        Some(s)
    }
}

/// Strips up to `k` leading dash-separated tag-shaped labels, each only
/// when a non-empty remainder follows.
pub open spec fn strip_tags(t: Seq<char>, k: int) -> Seq<char>
    decreases k,
{
    if k <= 0 {
        t
    } else {
        match find_char(t, 0, '-') {
            None => t,
            Some(d) => {
                if d > 0 && d + 1 < t.len() && is_tag_seq(t.take(d)) {
                    strip_tags(t.skip(d + 1), k - 1)
                } else {
                    t
                }
            },
        }
    }
}

/// The core token the structural grammar leaves, or `None` where the
/// grammar does not match.
pub open spec fn structural_core(s: Seq<char>) -> Option<Seq<char>> {
    match strip_annot(s) {
        None => None,
        Some(h) => Some(strip_tags(h, 4)),
    }
}

/// The canonical identity of a trimmed raw name: the structural core (or
/// the raw name, under the lookup-only strategy or where the grammar does
/// not match), with the patch table applied to its exact spelling and the
/// alias table applied to its lower-cased form.
pub open spec fn canon_spec(raw: Seq<char>, cfg: CanonConfigV) -> Seq<char> {
    let base = match cfg.strategy {
        NameStrategy::LookupOnly => raw,
        NameStrategy::Grammar => match structural_core(raw) {
            Some(c) => c,
            None => raw,
        },
    };
    let patched = match spec_lookup(cfg.patch, base) {
        Some(p) => p,
        None => base,
    };
    match spec_lookup(cfg.alias, lower_seq(patched)) {
        Some(a) => a,
        None => patched,
    }
}

/// The string without its trailing space characters.
fn rtrim_str(s: &str) -> (r: String)
    ensures
        r@ == rtrim(s@),
{
    let n = s.unicode_len();
    let mut b: usize = n;
    while b > 0 && is_space(s.get_char(b - 1))
        invariant
            n == s@.len(),
            0 <= b <= n,
            forall|j: int| b <= j < n ==> is_space_char(s@[j]),
        decreases b,
    {
        b -= 1;
    }
    proof {
        lemma_rtrim_take(s@, b as int);
    }
    let piece = s.substring_char(0, b);
    assert(piece@ =~= s@.take(b as int));
    piece.to_owned()
}

/// Rightmost `(` strictly before position `m`.
fn last_open_upto(s: &str, m: usize) -> (r: Option<usize>)
    requires
        m <= s@.len(),
    ensures
        match r {
            Some(j) => last_open(s@.take(m as int)) == Some(j as int) && j < m,
            None => last_open(s@.take(m as int)) is None,
        },
{
    let mut j: usize = m;
    while j > 0
        invariant
            m <= s@.len(),
            0 <= j <= m,
            last_open(s@.take(m as int)) == last_open(s@.take(j as int)),
        decreases j,
    {
        if s.get_char(j - 1) == '(' {
            assert(s@.take(j as int).last() == '(');
            return Some(j - 1);
        }
        assert(s@.take(j as int).drop_last() =~= s@.take(j - 1));
        j -= 1;
    }
    assert(s@.take(0).len() == 0);
    None
}

/// First `-` at or after `from`.
fn find_dash(s: &str, from: usize) -> (r: Option<usize>)
    requires
        from <= s@.len(),
    ensures
        match r {
            Some(d) => find_char(s@, from as int, '-') == Some(d as int) && from <= d < s@.len(),
            None => find_char(s@, from as int, '-') is None,
        },
{
    let n = s.unicode_len();
    let mut j: usize = from;
    while j < n
        invariant
            n == s@.len(),
            from <= j <= n,
            find_char(s@, from as int, '-') == find_char(s@, j as int, '-'),
        decreases n - j,
    {
        if s.get_char(j) == '-' {
            return Some(j);
        }
        j += 1;
    }
    None
}

/// Whether the characters in `[from, to)` form a tag-shaped label.
fn is_tag_range(s: &str, from: usize, to: usize) -> (r: bool)
    requires
        from <= to <= s@.len(),
    ensures
        r == is_tag_seq(s@.subrange(from as int, to as int)),
{
    let ghost u = s@.subrange(from as int, to as int);
    let mut all_upper: bool = true;
    let mut all_digit: bool = true;
    let mut tail_digit: bool = true;
    for j in from..to
        invariant
            from <= j <= to <= s@.len(),
            u == s@.subrange(from as int, to as int),
            all_upper <==> forall|k: int| from <= k < j ==> is_upper_char(#[trigger] s@[k]),
            all_digit <==> forall|k: int| from <= k < j ==> is_digit_char(#[trigger] s@[k]),
            tail_digit <==> forall|k: int| from + 1 <= k < j ==> is_digit_char(#[trigger] s@[k]),
    {
        let c = s.get_char(j);
        let up = 'A' as u32 <= c as u32 && c as u32 <= 'Z' as u32;
        let dg = '0' as u32 <= c as u32 && c as u32 <= '9' as u32;
        all_upper = all_upper && up;
        all_digit = all_digit && dg;
        if j > from {
            tail_digit = tail_digit && dg;
        }
    }
    let len = to - from;
    let first_upper = if len >= 1 {
        let c0 = s.get_char(from);
        'A' as u32 <= c0 as u32 && c0 as u32 <= 'Z' as u32
    } else {
        false
    };
    let r = (len >= 1 && all_upper) || (len >= 1 && all_digit) || (len >= 2 && first_upper
        && tail_digit);
    proof {
        assert(u.len() == to - from);
        assert(forall|i: int| 0 <= i < u.len() ==> u[i] == s@[from + i]);
        if r {
            assert(is_tag_seq(u)) by {
                if len >= 1 && all_upper {
                    assert(forall|i: int| 0 <= i < u.len() ==> is_upper_char(#[trigger] u[i]))
                        by {
                        assert(forall|i: int|
                            0 <= i < u.len() ==> u[i] == s@[from + i] && is_upper_char(
                                s@[from + i],
                            ));
                    }
                } else if len >= 1 && all_digit {
                    assert(forall|i: int| 0 <= i < u.len() ==> is_digit_char(#[trigger] u[i]))
                        by {
                        assert(forall|i: int|
                            0 <= i < u.len() ==> u[i] == s@[from + i] && is_digit_char(
                                s@[from + i],
                            ));
                    }
                } else {
                    assert(is_upper_char(u[0]));
                    assert(forall|i: int| 1 <= i < u.len() ==> is_digit_char(#[trigger] u[i]))
                        by {
                        assert(forall|i: int|
                            1 <= i < u.len() ==> u[i] == s@[from + i] && is_digit_char(
                                s@[from + i],
                            ));
                    }
                }
            }
        }
        if !r && is_tag_seq(u) {
            assert(len >= 1);
            if u.len() >= 1 && forall|j: int| 0 <= j < u.len() ==> is_upper_char(#[trigger] u[j]) {
                assert(forall|k: int|
                    from <= k < to ==> s@[k] == u[k - from] && is_upper_char(u[k - from]));
                assert(all_upper);
            } else if u.len() >= 1 && forall|j: int|
                0 <= j < u.len() ==> is_digit_char(#[trigger] u[j]) {
                assert(forall|k: int|
                    from <= k < to ==> s@[k] == u[k - from] && is_digit_char(u[k - from]));
                assert(all_digit);
            } else {
                assert(u.len() >= 2 && is_upper_char(u[0]) && forall|j: int|
                    1 <= j < u.len() ==> is_digit_char(#[trigger] u[j]));
                assert(forall|k: int|
                    from + 1 <= k < to ==> s@[k] == u[k - from] && is_digit_char(u[k - from]));
                assert(tail_digit);
                assert(u[0] == s@[from as int]);
                assert(first_upper);
            }
            assert(false);
        }
    }
    r
}

/// The structural grammar's core token for a raw name, or `None` where the
/// grammar does not match.
#[verifier::loop_isolation(false)]
pub fn structural_core_exec(raw: &str) -> (r: Option<String>)
    ensures
        match r {
            Some(c) => structural_core(raw@) == Some(c@),
            None => structural_core(raw@) is None,
        },
{
    let n = raw.unicode_len();
    let head: String = if n > 0 && raw.get_char(n - 1) == ')' {
        match last_open_upto(raw, n - 1) {
            None => {
                return None;
            },
            Some(j) => {
                let piece = raw.substring_char(0, j);
                assert(piece@ =~= raw@.take(j as int));
                let h = rtrim_str(piece);
                if h.unicode_len() == 0 {
                    return None;
                }
                h
            },
        }
    } else {
        raw.to_owned()
    };
    proof {
        if n > 0 && raw@.last() == ')' {
            assert(raw@.take(n - 1) == raw@.take(raw@.len() - 1));
        }
        assert(strip_annot(raw@) == Some(head@));
    }
    let mut cur = head;
    let mut k: usize = 0;
    while k < 4
        invariant
            0 <= k <= 4,
            strip_tags(head@, 4) == strip_tags(cur@, 4 - k),
        decreases 4 - k,
    {
        let m = cur.unicode_len();
        let d = match find_dash(cur.as_str(), 0) {
            None => {
                return Some(cur);
            },
            Some(d) => d,
        };
        if d > 0 && d + 1 < m && is_tag_range(cur.as_str(), 0, d) {
            assert(cur@.subrange(0, d as int) =~= cur@.take(d as int));
            let rest = cur.as_str().substring_char(d + 1, m);
            assert(rest@ =~= cur@.skip(d + 1));
            let next = rest.to_owned();
            proof {
                assert(strip_tags(cur@, 4 - k) == strip_tags(next@, 4 - k - 1));
            }
            cur = next;
            k += 1;
        } else {
            return Some(cur);
        }
    }
    Some(cur)
}

/// The canonical identity of a trimmed raw name under this configuration.
pub fn canonicalize(raw: &str, cfg: &CanonConfig) -> (r: String)
    ensures
        r@ == canon_spec(raw@, cfg@),
{
    let base: String = match cfg.strategy {
        NameStrategy::LookupOnly => raw.to_owned(),
        NameStrategy::Grammar => match structural_core_exec(raw) {
            Some(c) => c,
            None => raw.to_owned(),
        },
    };
    let patched: String = match lookup(&cfg.patch, base.as_str()) {
        Some(p) => p,
        None => base,
    };
    let lowered = to_lower(patched.as_str());
    match lookup(&cfg.alias, lowered.as_str()) {
        Some(a) => a,
        None => patched,
    }
}

} // verus!
