//! The placeholder scanner: finds the well-formed `{{KEY}}` occurrences of a
//! template string and the set of distinct keys they reference.
//!
//! A placeholder is exactly two opening braces, one or more identifier
//! characters (letters, digits, `-`, `_`) with no internal whitespace, and
//! exactly two closing braces. Malformed brace sequences such as `{{}}`,
//! `{{ }}` or `{{{}}}` are not placeholders and are never an error: they are
//! ordinary text.

use vstd::prelude::*;

use crate::text::string_from_chars;

verus! {

/// Characters allowed inside a placeholder key.
pub open spec fn is_ident_char(c: char) -> bool {
    ('a' <= c && c <= 'z') || ('A' <= c && c <= 'Z') || ('0' <= c && c <= '9') || c == '-' || c
        == '_'
}

/// A well-formed placeholder key: non-empty, identifier characters only.
pub open spec fn is_key(k: Seq<char>) -> bool {
    k.len() > 0 && (forall|i: int| 0 <= i < k.len() ==> is_ident_char(#[trigger] k[i]))
}

/// The template `t` holds the placeholder `{{k}}` starting at position `i`.
pub open spec fn placeholder_at(t: Seq<char>, i: int, k: Seq<char>) -> bool {
    &&& 0 <= i
    &&& i + k.len() + 4 <= t.len()
    &&& is_key(k)
    &&& t[i] == '{'
    &&& t[i + 1] == '{'
    &&& t.subrange(i + 2, i + 2 + k.len()) == k
    &&& t[i + 2 + k.len()] == '}'
    &&& t[i + 3 + k.len()] == '}'
}

/// `k` is one of the keys referenced by a placeholder somewhere in `t`.
pub open spec fn is_scanned_key(t: Seq<char>, k: Seq<char>) -> bool {
    exists|i: int| placeholder_at(t, i, k)
}

/// `k` is referenced by a placeholder that starts before position `j`.
pub open spec fn is_scanned_key_before(t: Seq<char>, j: int, k: Seq<char>) -> bool {
    exists|i: int| i < j && placeholder_at(t, i, k)
}

/// Whatever the surrounding text, a scanned key is never empty and never
/// holds whitespace or braces: `{{}}`, `{{ }}` and `{{{}}}` contribute no key.
pub proof fn lemma_scanned_keys_are_identifiers(t: Seq<char>, k: Seq<char>)
    requires
        is_scanned_key(t, k),
    ensures
        is_key(k),
{
    let i = choose|i: int| placeholder_at(t, i, k);
    assert(placeholder_at(t, i, k));
}

/// At one position the placeholder key is unique: the identifier run after
/// the opening braces determines it.
pub proof fn lemma_placeholder_unique(t: Seq<char>, i: int, k1: Seq<char>, k2: Seq<char>)
    requires
        placeholder_at(t, i, k1),
        placeholder_at(t, i, k2),
    ensures
        k1 == k2,
{
    if k1.len() < k2.len() {
        assert(k2[k1.len() as int] == t[i + 2 + k1.len()]);
        assert(is_ident_char(k2[k1.len() as int]));
    } else if k2.len() < k1.len() {
        assert(k1[k2.len() as int] == t[i + 2 + k2.len()]);
        assert(is_ident_char(k1[k2.len() as int]));
    } else {
        assert(k1 =~= k2);
    }
}

/// Placeholders never overlap: within the span of one, no other begins.
pub proof fn lemma_no_overlap(t: Seq<char>, i: int, k: Seq<char>, i2: int)
    requires
        placeholder_at(t, i, k),
        i < i2 < i + k.len() + 4,
    ensures
        forall|k2: Seq<char>| !placeholder_at(t, i2, k2),
{
    assert forall|k2: Seq<char>| !placeholder_at(t, i2, k2) by {
        if placeholder_at(t, i2, k2) {
            if i2 == i + 1 {
                assert(t[i2 + 1] == k[0]);
            } else if i2 < i + 2 + k.len() {
                assert(t[i2] == k[i2 - i - 2]);
            } else {
                assert(t[i2] == '}');
            }
        }
    }
}

/// Classifies `c` as a key identifier character.
pub fn ident_char(c: char) -> (r: bool)
    ensures
        r == is_ident_char(c),
{
    ('a' <= c && c <= 'z') || ('A' <= c && c <= 'Z') || ('0' <= c && c <= '9') || c == '-' || c
        == '_'
}

/// Tries to read a placeholder that starts exactly at position `j` of `t`;
/// returns its key and the position just past its closing braces.
pub(crate) fn placeholder_from(t: &str, n: usize, j: usize) -> (r: Option<(Vec<char>, usize)>)
    requires
        n == t@.len(),
        j < n,
    ensures
        match r {
            Some(p) => placeholder_at(t@, j as int, p.0@) && p.1 == j + p.0@.len() + 4,
            None => forall|k: Seq<char>| !placeholder_at(t@, j as int, k),
        },
{
    if t.get_char(j) != '{' {
        return None;
    }
    if j + 1 >= n || t.get_char(j + 1) != '{' {
        return None;
    }
    let mut m: usize = j + 2;
    let mut key: Vec<char> = Vec::new();
    while m < n && ident_char(t.get_char(m))
        invariant
            n == t@.len(),
            j + 2 <= m <= n,
            key@ =~= t@.subrange(j + 2, m as int),
            forall|p: int| j + 2 <= p < m ==> is_ident_char(#[trigger] t@[p]),
        decreases n - m,
    {
        key.push(t.get_char(m));
        m = m + 1;
        assert(key@ =~= t@.subrange(j + 2, m as int));
    }
    // Any key of a placeholder at `j` must be exactly the identifier run
    // [j + 2, m): it cannot stop earlier (the next character would have to be
    // a closing brace, yet lies inside the run) nor reach further (the run's
    // end is not an identifier character).
    proof {
        assert forall|k: Seq<char>| placeholder_at(t@, j as int, k) implies k
            =~= t@.subrange(j + 2, m as int) by {
            assert(forall|q: int| 0 <= q < k.len() ==> k[q] == t@[j + 2 + q]);
            if j + 2 + k.len() < m {
                assert(t@[j + 2 + k.len()] == '}');
                assert(is_ident_char(t@[j + 2 + k.len()]));
            } else if j + 2 + k.len() > m {
                assert(is_ident_char(k[m - j - 2]));
            }
        }
    }
    if key.len() == 0 {
        assert(forall|k: Seq<char>| placeholder_at(t@, j as int, k) ==> !is_key(k));
        return None;
    }
    if m >= n || t.get_char(m) != '}' {
        return None;
    }
    if m + 1 >= n || t.get_char(m + 1) != '}' {
        return None;
    }
    let end = m + 2;
    assert(placeholder_at(t@, j as int, key@));
    Some((key, end))
}

/// A placeholder begins at position `i` of `t`.
pub open spec fn placeholder_starts_at(t: Seq<char>, i: int) -> bool {
    exists|k: Seq<char>| placeholder_at(t, i, k)
}

/// The key of the placeholder beginning at position `i` of `t`.
pub open spec fn key_at(t: Seq<char>, i: int) -> Seq<char> {
    choose|k: Seq<char>| placeholder_at(t, i, k)
}

/// The single left-to-right substitution pass over `t`: each placeholder is
/// replaced by its value under `m` (or kept as written where `m` has no
/// entry for its key), all other text passes through unchanged, and replaced
/// values are not scanned again.
pub open spec fn rendered(t: Seq<char>, m: Map<Seq<char>, Seq<char>>) -> Seq<char>
    decreases t.len(),
{
    if t.len() == 0 {
        Seq::empty()
    } else if placeholder_starts_at(t, 0) {
        let k = key_at(t, 0);
        let rep = if m.contains_key(k) {
            m[k]
        } else {
            t.take(k.len() + 4 as int)
        };
        rep + rendered(t.skip(k.len() + 4 as int), m)
    } else {
        seq![t[0]] + rendered(t.skip(1), m)
    }
}

/// Shifting the start of the template shifts placeholder positions with it.
pub proof fn lemma_placeholder_shift(t: Seq<char>, d: int, i: int, k: Seq<char>)
    requires
        0 <= d <= t.len(),
        0 <= i,
    ensures
        placeholder_at(t.skip(d), i, k) <==> placeholder_at(t, d + i, k),
{
    let u = t.skip(d);
    if placeholder_at(u, i, k) {
        assert(t.subrange(d + i + 2, d + i + 2 + k.len()) =~= u.subrange(i + 2, i + 2 + k.len()));
        assert(placeholder_at(t, d + i, k));
    }
    if placeholder_at(t, d + i, k) {
        assert(u.subrange(i + 2, i + 2 + k.len()) =~= t.subrange(d + i + 2, d + i + 2 + k.len()));
        assert(placeholder_at(u, i, k));
    }
}

/// Failure to read a template. Scanning itself never fails — malformed
/// brace sequences are ordinary text — so these arise only in callers that
/// hold a template to further rules.
#[derive(Debug, Clone)]
pub enum Error {
    /// A template rejected as ill-formed; carries a description.
    Syntax(String),
    /// A placeholder key without a value; carries the key.
    MissingKey(String),
}

/// Some element of `keys` reads `k`.
pub open spec fn in_keys(keys: Seq<String>, k: Seq<char>) -> bool {
    exists|i: int| 0 <= i < keys.len() && keys[i]@ == k
}

/// True when some element of `keys` equals `key`.
fn contains_string(keys: &Vec<String>, key: &String) -> (r: bool)
    ensures
        r == in_keys(keys@, key@),
{
    let mut i: usize = 0;
    while i < keys.len()
        invariant
            i <= keys@.len(),
            forall|q: int| 0 <= q < i ==> keys@[q]@ != key@,
        decreases keys@.len() - i,
    {
        if keys[i] == *key {
            return true;
        }
        i = i + 1;
    }
    false
}

/// Scans `template` and returns its distinct placeholder keys, in order of
/// first occurrence.
pub fn find_keys(template: &str) -> (keys: Vec<String>)
    ensures
        forall|k: Seq<char>| #[trigger] is_scanned_key(template@, k) <==> in_keys(keys@, k),
        forall|i: int, j: int| 0 <= i < j < keys@.len() ==> keys@[i]@ != keys@[j]@,
{
    let ghost t = template@;
    let n = template.unicode_len();
    let mut keys: Vec<String> = Vec::new();
    let mut j: usize = 0;
    while j < n
        invariant
            n == t.len(),
            t == template@,
            j <= n,
            forall|k: Seq<char>| #[trigger] is_scanned_key_before(t, j as int, k) <==> in_keys(
                keys@,
                k,
            ),
            forall|i: int, q: int| 0 <= i < q < keys@.len() ==> keys@[i]@ != keys@[q]@,
        decreases n - j,
    {
        match placeholder_from(template, n, j) {
            Some(p) => {
                let (key, end) = p;
                let ghost prev = keys@;
                let key_string = string_from_chars(&key);
                let had = contains_string(&keys, &key_string);
                if !had {
                    keys.push(key_string);
                }
                proof {
                    assert(placeholder_at(t, j as int, key@));
                    if !had {
                        assert(keys@[keys@.len() - 1]@ == key@);
                    }
                    assert(in_keys(keys@, key@));
                    assert forall|k: Seq<char>| is_scanned_key_before(t, end as int, k) implies
                        in_keys(keys@, k) by {
                        let i = choose|i: int| i < end && placeholder_at(t, i, k);
                        if i < j {
                            assert(is_scanned_key_before(t, j as int, k));
                            assert(in_keys(prev, k));
                            let q = choose|q: int| 0 <= q < prev.len() && prev[q]@ == k;
                            assert(keys@[q]@ == k);
                        } else if i == j {
                            lemma_placeholder_unique(t, i, k, key@);
                        } else {
                            lemma_no_overlap(t, j as int, key@, i);
                        }
                    }
                    assert forall|k: Seq<char>| in_keys(keys@, k) implies is_scanned_key_before(
                        t,
                        end as int,
                        k,
                    ) by {
                        if k == key@ {
                            assert(j < end && placeholder_at(t, j as int, key@));
                        } else {
                            let q = choose|q: int| 0 <= q < keys@.len() && keys@[q]@ == k;
                            assert(prev[q]@ == k);
                            assert(in_keys(prev, k));
                            assert(is_scanned_key_before(t, j as int, k));
                            let i = choose|i: int| i < j && placeholder_at(t, i, k);
                            assert(i < end && placeholder_at(t, i, k));
                        }
                    }
                    assert(forall|k: Seq<char>| #[trigger] is_scanned_key_before(t, end as int, k)
                        <==> in_keys(keys@, k));
                }
                j = end;
            },
            None => {
                proof {
                    assert forall|k: Seq<char>| is_scanned_key_before(t, j + 1, k) implies
                        is_scanned_key_before(t, j as int, k) by {
                        let i = choose|i: int| i < j + 1 && placeholder_at(t, i, k);
                        assert(i != j);
                        assert(i < j && placeholder_at(t, i, k));
                    }
                    assert forall|k: Seq<char>| is_scanned_key_before(t, j as int, k) implies
                        is_scanned_key_before(t, j + 1, k) by {
                        let i = choose|i: int| i < j && placeholder_at(t, i, k);
                        assert(i < j + 1 && placeholder_at(t, i, k));
                    }
                    assert forall|k: Seq<char>| #[trigger] is_scanned_key_before(t, j + 1, k) <==>
                        in_keys(keys@, k) by {
                        if is_scanned_key_before(t, j + 1, k) {
                            assert(is_scanned_key_before(t, j as int, k));
                        }
                        if in_keys(keys@, k) {
                            assert(is_scanned_key_before(t, j as int, k));
                        }
                    }
                }
                j = j + 1;
            },
        }
    }
    proof {
        assert forall|k: Seq<char>| is_scanned_key(t, k) implies is_scanned_key_before(
            t,
            n as int,
            k,
        ) by {
            let i = choose|i: int| placeholder_at(t, i, k);
            assert(i + k.len() + 4 <= n);
            assert(i < n && placeholder_at(t, i, k));
        }
        assert forall|k: Seq<char>| in_keys(keys@, k) implies is_scanned_key(t, k) by {
            assert(is_scanned_key_before(t, n as int, k));
            let i = choose|i: int| i < n && placeholder_at(t, i, k);
            assert(placeholder_at(t, i, k));
        }
    }
    keys
}

} // verus!
