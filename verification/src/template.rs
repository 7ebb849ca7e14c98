//! The property resolver and the substitution engine: properties from every
//! source are merged into one effective mapping by the priority order, and a
//! template is rendered against that mapping in a single pass.

use vstd::prelude::*;

use crate::prop::{prec, Property, PropertyModel, Source};
use crate::templ::{find_keys, in_keys, is_scanned_key, key_at, lemma_placeholder_shift,
    lemma_placeholder_unique, placeholder_at, placeholder_starts_at, rendered};
use crate::text::{chars_range, push_str_chars, str_eq, string_from_chars};

verus! {

/// The index of the property that decides `k` in `s`: among the properties
/// under that key, the one of maximal precedence, the latest of them when
/// several share it; `-1` when no property has the key.
pub open spec fn winner_idx(s: Seq<Property>, k: Seq<char>) -> int
    decreases s.len(),
{
    if s.len() == 0 {
        -1
    } else {
        let r = winner_idx(s.drop_last(), k);
        if s.last()@.key == k && (r < 0 || prec(s[r]@.prio) <= prec(s.last()@.prio)) {
            s.len() - 1
        } else {
            r
        }
    }
}

/// The effective mapping that resolving `s` yields: every key that occurs,
/// bound to the value of its winning property.
pub open spec fn resolved(s: Seq<Property>) -> Map<Seq<char>, Seq<char>> {
    Map::new(
        |k: Seq<char>| winner_idx(s, k) >= 0,
        |k: Seq<char>| s[winner_idx(s, k)]@.value,
    )
}

/// What `winner_idx` returns: an index of a property under `k` whose
/// precedence no other property under `k` exceeds, or `-1` when the key
/// never occurs.
pub proof fn lemma_winner_idx(s: Seq<Property>, k: Seq<char>)
    ensures
        winner_idx(s, k) >= 0 ==> winner_idx(s, k) < s.len() && s[winner_idx(s, k)]@.key == k,
        winner_idx(s, k) >= 0 ==> forall|i: int|
            0 <= i < s.len() && s[i]@.key == k ==> prec(s[i]@.prio) <= prec(
                s[winner_idx(s, k)]@.prio,
            ),
        winner_idx(s, k) < 0 ==> forall|i: int| 0 <= i < s.len() ==> s[i]@.key != k,
    decreases s.len(),
{
    if s.len() > 0 {
        lemma_winner_idx(s.drop_last(), k);
        assert forall|i: int| 0 <= i < s.len() - 1 implies s.drop_last()[i] == s[i] by {}
    }
}

/// The mapping a list of entries builds up, later entries overriding earlier
/// ones.
pub open spec fn map_of(entries: Seq<(String, String)>) -> Map<Seq<char>, Seq<char>>
    decreases entries.len(),
{
    if entries.len() == 0 {
        Map::empty()
    } else {
        map_of(entries.drop_last()).insert(entries.last().0@, entries.last().1@)
    }
}

/// What `map_of` holds of a list with pairwise distinct keys: exactly the
/// listed keys, each bound to its listed value.
proof fn lemma_map_of_distinct(entries: Seq<(String, String)>)
    requires
        forall|i: int, j: int| 0 <= i < j < entries.len() ==> entries[i].0@ != entries[j].0@,
    ensures
        forall|i: int|
            0 <= i < entries.len() ==> map_of(entries).contains_key(#[trigger] entries[i].0@)
                && map_of(entries)[entries[i].0@] == entries[i].1@,
        forall|k: Seq<char>|
            map_of(entries).contains_key(k) ==> exists|i: int|
                0 <= i < entries.len() && #[trigger] entries[i].0@ == k,
    decreases entries.len(),
{
    if entries.len() > 0 {
        let prefix = entries.drop_last();
        lemma_map_of_distinct(prefix);
        assert forall|i: int|
            0 <= i < entries.len() implies map_of(entries).contains_key(#[trigger] entries[i].0@)
            && map_of(entries)[entries[i].0@] == entries[i].1@ by {
            if i < entries.len() - 1 {
                assert(prefix[i] == entries[i]);
                assert(entries[i].0@ != entries.last().0@);
            }
        }
        assert forall|k: Seq<char>| map_of(entries).contains_key(k) implies exists|i: int|
            0 <= i < entries.len() && #[trigger] entries[i].0@ == k by {
            if k != entries.last().0@ {
                assert(map_of(prefix).contains_key(k));
                let i = choose|i: int| 0 <= i < prefix.len() && #[trigger] prefix[i].0@ == k;
                assert(entries[i] == prefix[i]);
                assert(entries[i].0@ == k);
            } else {
                assert(entries[entries.len() - 1].0@ == k);
            }
        }
    }
}

/// The position of the entry under `key`, if one exists.
fn find_key_index(entries: &Vec<(String, String)>, key: &str) -> (r: Option<usize>)
    ensures
        match r {
            Some(i) => i < entries@.len() && entries@[i as int].0@ == key@ && forall|q: int|
                0 <= q < i ==> entries@[q].0@ != key@,
            None => forall|q: int| 0 <= q < entries@.len() ==> entries@[q].0@ != key@,
        },
{
    let mut i: usize = 0;
    while i < entries.len()
        invariant
            i <= entries@.len(),
            forall|q: int| 0 <= q < i ==> entries@[q].0@ != key@,
        decreases entries@.len() - i,
    {
        if str_eq(entries[i].0.as_str(), key) {
            return Some(i);
        }
        i = i + 1;
    }
    None
}

/// The position of the pending winner under `key`, if one exists.
fn find_source_index(entries: &Vec<(String, String, Source)>, key: &str) -> (r: Option<
    usize,
>)
    ensures
        match r {
            Some(i) => i < entries@.len() && entries@[i as int].0@ == key@,
            None => forall|q: int| 0 <= q < entries@.len() ==> entries@[q].0@ != key@,
        },
{
    let mut i: usize = 0;
    while i < entries.len()
        invariant
            i <= entries@.len(),
            forall|q: int| 0 <= q < i ==> entries@[q].0@ != key@,
        decreases entries@.len() - i,
    {
        if str_eq(entries[i].0.as_str(), key) {
            return Some(i);
        }
        i = i + 1;
    }
    None
}

/// The one effective mapping resolution produces: keys unique, immutable in
/// spirit once built, consumed by the substitution engine.
pub struct ResolvedMapping {
    entries: Vec<(String, String)>,
}

impl View for ResolvedMapping {
    type V = Map<Seq<char>, Seq<char>>;

    closed spec fn view(&self) -> Map<Seq<char>, Seq<char>> {
        map_of(self.entries@)
    }
}

impl ResolvedMapping {
    /// The internal invariant: entry keys are pairwise distinct.
    pub closed spec fn wf(self) -> bool {
        forall|i: int, j: int|
            0 <= i < j < self.entries@.len() ==> self.entries@[i].0@ != self.entries@[j].0@
    }

    /// The empty mapping.
    pub fn new() -> (r: ResolvedMapping)
        ensures
            r@ == Map::<Seq<char>, Seq<char>>::empty(),
            r.wf(),
    {
        ResolvedMapping { entries: Vec::new() }
    }

    /// Looks `key` up.
    pub fn get(&self, key: &str) -> (r: Option<&String>)
        requires
            self.wf(),
        ensures
            match r {
                Some(v) => self@.contains_key(key@) && v@ == self@[key@],
                None => !self@.contains_key(key@),
            },
    {
        proof {
            lemma_map_of_distinct(self.entries@);
        }
        match find_key_index(&self.entries, key) {
            Some(i) => {
                proof {
                    assert(self@.contains_key(self.entries@[i as int].0@));
                    assert(self@[self.entries@[i as int].0@] == self.entries@[i as int].1@);
                }
                Some(&self.entries[i].1)
            },
            None => {
                proof {
                    if self@.contains_key(key@) {
                        let q = choose|q: int|
                            0 <= q < self.entries@.len() && #[trigger] self.entries@[q].0@ == key@;
                    }
                }
                None
            },
        }
    }

    /// Binds `key` to `value`, replacing any earlier binding.
    pub fn insert(&mut self, key: String, value: String)
        requires
            old(self).wf(),
        ensures
            final(self)@ == old(self)@.insert(key@, value@),
            final(self).wf(),
    {
        proof {
            lemma_map_of_distinct(self.entries@);
        }
        let ghost before = self.entries@;
        let found = find_key_index(&self.entries, key.as_str());
        if let Some(i) = found {
            self.entries.remove(i);
        }
        let ghost kept = self.entries@;
        self.entries.push((key, value));
        proof {
            if let Some(i) = found {
                assert(kept =~= before.remove(i as int));
                assert forall|a: int| 0 <= a < kept.len() implies kept[a].0@ != key@ by {
                    if a < i {
                        assert(kept[a] == before[a]);
                    } else {
                        assert(kept[a] == before[a + 1]);
                    }
                }
            }
            assert forall|a: int, b: int|
                0 <= a < b < kept.len() implies kept[a].0@ != kept[b].0@ by {
                if let Some(i) = found {
                    assert(kept =~= before.remove(i as int));
                }
            }
            lemma_map_of_distinct(kept);
            lemma_map_of_distinct(self.entries@);
            assert(self.entries@.drop_last() =~= kept);
            assert(self.entries@.last().0@ == key@);
            assert(map_of(self.entries@) == map_of(kept).insert(key@, value@));
            assert forall|k: Seq<char>|
                map_of(kept).contains_key(k) == (k != key@ && map_of(before).contains_key(
                    k,
                )) by {
                if map_of(kept).contains_key(k) {
                    let q = choose|q: int| 0 <= q < kept.len() && #[trigger] kept[q].0@ == k;
                    if let Some(i) = found {
                        if q < i {
                            assert(before[q].0@ == k);
                            assert(map_of(before).contains_key(before[q].0@));
                        } else {
                            assert(before[q + 1].0@ == k);
                            assert(map_of(before).contains_key(before[q + 1].0@));
                        }
                    } else {
                        assert(map_of(before).contains_key(before[q].0@));
                    }
                }
                if k != key@ && map_of(before).contains_key(k) {
                    let q = choose|q: int| 0 <= q < before.len() && #[trigger] before[q].0@ == k;
                    if let Some(i) = found {
                        assert(before[i as int].0@ == key@);
                        assert(q != i);
                        if q < i {
                            assert(kept[q].0@ == k);
                            assert(map_of(kept).contains_key(kept[q].0@));
                        } else {
                            assert(kept[q - 1] == before[q]);
                            assert(map_of(kept).contains_key(kept[q - 1].0@));
                        }
                    } else {
                        assert(map_of(kept).contains_key(kept[q].0@));
                    }
                }
            }
            assert forall|k: Seq<char>|
                map_of(kept).contains_key(k) implies map_of(kept)[k] == map_of(before)[k] by {
                let q = choose|q: int| 0 <= q < kept.len() && #[trigger] kept[q].0@ == k;
                assert(map_of(kept)[k] == kept[q].1@);
                if let Some(i) = found {
                    if q < i {
                        assert(kept[q] == before[q]);
                        assert(map_of(before)[before[q].0@] == before[q].1@);
                    } else {
                        assert(kept[q] == before[q + 1]);
                        assert(map_of(before)[before[q + 1].0@] == before[q + 1].1@);
                    }
                } else {
                    assert(kept[q] == before[q]);
                    assert(map_of(before)[before[q].0@] == before[q].1@);
                }
            }
            assert(map_of(self.entries@) =~= map_of(before).insert(key@, value@));
        }
    }
}

/// Merges the properties of every source into the one effective mapping: for
/// each key, the value of the property with the highest precedence wins, and
/// among several of equal precedence the last-discovered one.
pub fn merge(props: &Vec<Property>) -> (r: ResolvedMapping)
    ensures
        r@ == resolved(props@),
        r.wf(),
{
    let n = props.len();
    let mut winners: Vec<(String, String, Source)> = Vec::new();
    let mut i: usize = 0;
    proof {
        assert(props@.take(0) =~= Seq::<Property>::empty());
    }
    while i < n
        invariant
            n == props@.len(),
            i <= n,
            forall|a: int, b: int|
                0 <= a < b < winners@.len() ==> winners@[a].0@ != winners@[b].0@,
            forall|w: int|
                0 <= w < winners@.len() ==> {
                    let wi = winner_idx(props@.take(i as int), #[trigger] winners@[w].0@);
                    wi >= 0 && props@.take(i as int)[wi]@.value == winners@[w].1@ && props@.take(
                        i as int,
                    )[wi]@.prio == winners@[w].2
                },
            forall|k: Seq<char>|
                winner_idx(props@.take(i as int), k) >= 0 ==> exists|w: int|
                    0 <= w < winners@.len() && #[trigger] winners@[w].0@ == k,
        decreases n - i,
    {
        let key = props[i].key().to_owned();
        let value = props[i].value().to_owned();
        let prio = props[i].prio();
        let ghost t0 = props@.take(i as int);
        let ghost t1 = props@.take(i + 1);
        let ghost prev = winners@;
        let ghost keyv = key@;
        let ghost valv = value@;
        proof {
            assert(t1.drop_last() =~= t0);
            assert(t1.last() == props@[i as int]);
            assert forall|q: int| 0 <= q < t0.len() implies t1[q] == t0[q] by {}
            assert(keyv == props@[i as int]@.key);
            assert(valv == props@[i as int]@.value);
        }
        match find_source_index(&winners, key.as_str()) {
            Some(j) => {
                let existing = winners[j].2;
                if !prio.lower_precedence_than(&existing) {
                    winners.remove(j);
                    winners.push((key, value, prio));
                    proof {
                        let removed = prev.remove(j as int);
                        assert(winners@.drop_last() =~= removed);
                        assert(prev[j as int].0@ == keyv);
                        lemma_winner_idx(t0, keyv);
                        let wi0 = winner_idx(t0, keyv);
                        assert(wi0 >= 0 && t0[wi0]@.prio == prev[j as int].2);
                        assert(t1[wi0] == t0[wi0]);
                        assert(prec(t0[wi0]@.prio) <= prec(t1.last()@.prio));
                        assert(winner_idx(t1, keyv) == t1.len() - 1);
                        assert forall|w: int|
                            0 <= w < winners@.len() implies {
                                let wi = winner_idx(t1, #[trigger] winners@[w].0@);
                                wi >= 0 && t1[wi]@.value == winners@[w].1@ && t1[wi]@.prio
                                    == winners@[w].2
                            } by {
                            if w == winners@.len() - 1 {
                                assert(winners@[w].0@ == keyv);
                                assert(winner_idx(t1, keyv) == i);
                            } else {
                                let a: int = if w < j { w } else { w + 1 };
                                assert(winners@[w] == prev[a]);
                                assert(prev[a].0@ != keyv);
                                lemma_winner_idx(t0, prev[a].0@);
                                assert(winner_idx(t1, prev[a].0@) == winner_idx(t0, prev[a].0@));
                                assert(t1[winner_idx(t0, prev[a].0@)] == t0[winner_idx(
                                    t0,
                                    prev[a].0@,
                                )]);
                            }
                        }
                        assert forall|k: Seq<char>|
                            winner_idx(t1, k) >= 0 implies exists|w: int|
                                0 <= w < winners@.len() && #[trigger] winners@[w].0@ == k by {
                            if k == keyv {
                                assert(winners@[winners@.len() - 1].0@ == k);
                            } else {
                                assert(winner_idx(t1, k) == winner_idx(t0, k));
                                let w0 = choose|w0: int|
                                    0 <= w0 < prev.len() && #[trigger] prev[w0].0@ == k;
                                let b: int = if w0 < j { w0 } else { w0 - 1 };
                                assert(w0 != j);
                                assert(winners@[b].0@ == k);
                            }
                        }
                    }
                } else {
                    proof {
                        assert(prev[j as int].0@ == keyv);
                        lemma_winner_idx(t0, keyv);
                        let wi0 = winner_idx(t0, keyv);
                        assert(wi0 >= 0 && t0[wi0]@.prio == prev[j as int].2);
                        assert(prec(prio) < prec(t0[wi0]@.prio));
                        assert(winner_idx(t1, keyv) == wi0);
                        assert forall|w: int|
                            0 <= w < winners@.len() implies {
                                let wi = winner_idx(t1, #[trigger] winners@[w].0@);
                                wi >= 0 && t1[wi]@.value == winners@[w].1@ && t1[wi]@.prio
                                    == winners@[w].2
                            } by {
                            if winners@[w].0@ != keyv {
                                lemma_winner_idx(t0, winners@[w].0@);
                                assert(winner_idx(t1, winners@[w].0@) == winner_idx(
                                    t0,
                                    winners@[w].0@,
                                ));
                                assert(t1[winner_idx(t0, winners@[w].0@)] == t0[winner_idx(
                                    t0,
                                    winners@[w].0@,
                                )]);
                            } else {
                                assert(winners@[w] == prev[j as int]);
                                lemma_winner_idx(t0, keyv);
                                assert(t1[winner_idx(t0, keyv)] == t0[winner_idx(t0, keyv)]);
                            }
                        }
                        assert forall|k: Seq<char>|
                            winner_idx(t1, k) >= 0 implies exists|w: int|
                                0 <= w < winners@.len() && #[trigger] winners@[w].0@ == k by {
                            if k != keyv {
                                assert(winner_idx(t1, k) == winner_idx(t0, k));
                            } else {
                                assert(winners@[j as int].0@ == k);
                            }
                        }
                    }
                }
            },
            None => {
                winners.push((key, value, prio));
                proof {
                    if winner_idx(t0, keyv) >= 0 {
                        let w0 = choose|w0: int|
                            0 <= w0 < prev.len() && #[trigger] prev[w0].0@ == keyv;
                    }
                    assert(winner_idx(t0, keyv) < 0);
                    assert(t1.last()@.key == keyv);
                    assert(winner_idx(t1, keyv) == t1.len() - 1);
                    assert forall|w: int|
                        0 <= w < winners@.len() implies {
                            let wi = winner_idx(t1, #[trigger] winners@[w].0@);
                            wi >= 0 && t1[wi]@.value == winners@[w].1@ && t1[wi]@.prio
                                == winners@[w].2
                        } by {
                        if w < winners@.len() - 1 {
                            assert(winners@[w] == prev[w]);
                            assert(prev[w].0@ != keyv);
                            lemma_winner_idx(t0, prev[w].0@);
                            assert(winner_idx(t1, prev[w].0@) == winner_idx(t0, prev[w].0@));
                            assert(t1[winner_idx(t0, prev[w].0@)] == t0[winner_idx(
                                t0,
                                prev[w].0@,
                            )]);
                        } else {
                            assert(winners@[w].0@ == keyv);
                        }
                    }
                    assert forall|k: Seq<char>|
                        winner_idx(t1, k) >= 0 implies exists|w: int|
                            0 <= w < winners@.len() && #[trigger] winners@[w].0@ == k by {
                        if k != keyv {
                            assert(winner_idx(t1, k) == winner_idx(t0, k));
                            let w0 = choose|w0: int|
                                0 <= w0 < prev.len() && #[trigger] prev[w0].0@ == k;
                            assert(winners@[w0].0@ == k);
                        } else {
                            assert(winners@[winners@.len() - 1].0@ == k);
                        }
                    }
                }
            },
        }
        i = i + 1;
    }
    proof {
        assert(props@.take(n as int) =~= props@);
    }
    let mut mapping = ResolvedMapping::new();
    let mut w: usize = 0;
    while w < winners.len()
        invariant
            mapping.wf(),
            forall|a: int, b: int|
                0 <= a < b < winners@.len() ==> winners@[a].0@ != winners@[b].0@,
            w <= winners@.len(),
            forall|k: Seq<char>|
                mapping@.contains_key(k) <==> exists|q: int|
                    0 <= q < w && #[trigger] winners@[q].0@ == k,
            forall|q: int|
                0 <= q < w ==> mapping@.contains_key(#[trigger] winners@[q].0@)
                    && mapping@[winners@[q].0@] == winners@[q].1@,
        decreases winners@.len() - w,
    {
        let key = winners[w].0.clone();
        let value = winners[w].1.clone();
        let ghost before = mapping@;
        mapping.insert(key, value);
        proof {
            assert(mapping@ == before.insert(winners@[w as int].0@, winners@[w as int].1@));
            assert forall|k: Seq<char>|
                mapping@.contains_key(k) implies exists|q: int|
                    0 <= q < w + 1 && #[trigger] winners@[q].0@ == k by {
                if k != winners@[w as int].0@ {
                    let q = choose|q: int| 0 <= q < w && #[trigger] winners@[q].0@ == k;
                } else {
                    assert(winners@[w as int].0@ == k);
                }
            }
        }
        w = w + 1;
    }
    proof {
        let s = props@;
        assert forall|k: Seq<char>|
            mapping@.contains_key(k) == resolved(s).contains_key(k) by {
            if mapping@.contains_key(k) {
                let q = choose|q: int|
                    0 <= q < winners@.len() && #[trigger] winners@[q].0@ == k;
            }
        }
        assert forall|k: Seq<char>|
            resolved(s).contains_key(k) implies mapping@[k] == resolved(s)[k] by {
            let q = choose|q: int| 0 <= q < winners@.len() && #[trigger] winners@[q].0@ == k;
            assert(mapping@[winners@[q].0@] == winners@[q].1@);
        }
        assert(mapping@ =~= resolved(s));
    }
    mapping
}

/// Renders `template` against `vars` in a single left-to-right pass: every
/// placeholder whose key `vars` resolves is replaced by the value verbatim,
/// every other character, malformed brace sequences included, passes through
/// unchanged, and replaced values are not scanned again.
pub fn render(template: &str, vars: &ResolvedMapping) -> (r: String)
    requires
        vars.wf(),
    ensures
        r@ == rendered(template@, vars@),
{
    let ghost t = template@;
    let ghost m = vars@;
    let n = template.unicode_len();
    let mut out: Vec<char> = Vec::new();
    let mut j: usize = 0;
    proof {
        assert(t.skip(0) =~= t);
        assert(out@ + rendered(t, m) =~= rendered(t, m));
    }
    while j < n
        invariant
            n == t.len(),
            t == template@,
            m == vars@,
            vars.wf(),
            j <= n,
            rendered(t, m) == out@ + rendered(t.skip(j as int), m),
        decreases n - j,
    {
        let ghost u = t.skip(j as int);
        match crate::templ::placeholder_from(template, n, j) {
            Some(p) => {
                let (key_chars, end) = p;
                proof {
                    lemma_placeholder_shift(t, j as int, 0, key_chars@);
                    assert(placeholder_at(u, 0, key_chars@));
                    assert(placeholder_starts_at(u, 0));
                    lemma_placeholder_unique(u, 0, key_at(u, 0), key_chars@);
                    assert(key_at(u, 0) == key_chars@);
                    assert(u.skip(key_chars@.len() + 4 as int) =~= t.skip(end as int));
                }
                let key_string = string_from_chars(&key_chars);
                match vars.get(key_string.as_str()) {
                    Some(v) => {
                        push_str_chars(&mut out, v.as_str());
                        proof {
                            assert(rendered(t, m) =~= out@ + rendered(t.skip(end as int), m));
                        }
                    },
                    None => {
                        let mut raw = chars_range(template, j, end);
                        proof {
                            assert(u.take(key_chars@.len() + 4 as int) =~= t.subrange(
                                j as int,
                                end as int,
                            ));
                        }
                        out.append(&mut raw);
                        proof {
                            assert(rendered(t, m) =~= out@ + rendered(t.skip(end as int), m));
                        }
                    },
                }
                j = end;
            },
            None => {
                proof {
                    assert forall|k: Seq<char>| !placeholder_at(u, 0, k) by {
                        lemma_placeholder_shift(t, j as int, 0, k);
                    }
                    assert(!placeholder_starts_at(u, 0));
                    assert(u.skip(1) =~= t.skip(j + 1));
                    assert(u[0] == t[j as int]);
                }
                out.push(template.get_char(j));
                proof {
                    assert(rendered(t, m) =~= out@ + rendered(t.skip(j + 1), m));
                }
                j = j + 1;
            },
        }
    }
    proof {
        assert(t.skip(n as int) =~= Seq::<char>::empty());
        assert(rendered(t, m) =~= out@);
    }
    string_from_chars(&out)
}

/// The scanned keys that `vars` does not resolve, in scan order.
pub fn missing_keys(keys: &Vec<String>, vars: &ResolvedMapping) -> (r: Vec<String>)
    requires
        vars.wf(),
    ensures
        forall|x: int| 0 <= x < r@.len() ==> !vars@.contains_key(#[trigger] r@[x]@),
        forall|x: int| 0 <= x < r@.len() ==> in_keys(keys@, #[trigger] r@[x]@),
        forall|idx: int|
            0 <= idx < keys@.len() && !vars@.contains_key(#[trigger] keys@[idx]@) ==> in_keys(
                r@,
                keys@[idx]@,
            ),
{
    let mut out: Vec<String> = Vec::new();
    let mut i: usize = 0;
    while i < keys.len()
        invariant
            vars.wf(),
            i <= keys@.len(),
            forall|x: int| 0 <= x < out@.len() ==> !vars@.contains_key(#[trigger] out@[x]@),
            forall|x: int| 0 <= x < out@.len() ==> in_keys(keys@, #[trigger] out@[x]@),
            forall|idx: int|
                0 <= idx < i && !vars@.contains_key(#[trigger] keys@[idx]@) ==> in_keys(
                    out@,
                    keys@[idx]@,
                ),
        decreases keys@.len() - i,
    {
        let ghost prev = out@;
        if vars.get(keys[i].as_str()).is_none() {
            out.push(keys[i].clone());
        }
        proof {
            assert forall|x: int| 0 <= x < out@.len() implies in_keys(
                keys@,
                #[trigger] out@[x]@,
            ) by {
                if x < prev.len() {
                    assert(prev[x]@ == out@[x]@);
                } else {
                    assert(out@[x]@ == keys@[i as int]@);
                }
            }
            assert forall|idx: int|
                0 <= idx < i + 1 && !vars@.contains_key(#[trigger] keys@[idx]@) implies in_keys(
                out@,
                keys@[idx]@,
            ) by {
                if idx < i {
                    assert(in_keys(prev, keys@[idx]@));
                    let x = choose|x: int| 0 <= x < prev.len() && prev[x]@ == keys@[idx]@;
                    assert(out@[x]@ == keys@[idx]@);
                } else {
                    assert(out@[out@.len() - 1]@ == keys@[i as int]@);
                }
            }
        }
        i = i + 1;
    }
    out
}

/// Failure of template substitution.
#[derive(Debug, Clone)]
pub enum SubstitutionError {
    /// Strict mode found a placeholder key with no resolved value; carries
    /// the key.
    MissingValue(String),
    /// The interactive prompt collaborator failed; carries its message.
    Prompt(String),
}

/// `m2` is `m` extended, through prompting, with values for exactly the keys
/// that `t` references and `m` lacks.
pub open spec fn prompt_extended(
    t: Seq<char>,
    m: Map<Seq<char>, Seq<char>>,
    m2: Map<Seq<char>, Seq<char>>,
) -> bool {
    &&& forall|k: Seq<char>| #[trigger] m.contains_key(k) ==> m2.contains_key(k) && m2[k] == m[k]
    &&& forall|k: Seq<char>| #[trigger] is_scanned_key(t, k) ==> m2.contains_key(k)
    &&& forall|k: Seq<char>|
        #[trigger] m2.contains_key(k) ==> m.contains_key(k) || is_scanned_key(t, k)
}

/// Asks `prompt` for a value for each listed key, in order, and binds the
/// answers; stops at the first prompt failure and hands its message back.
fn prompt_all<F: Fn(String) -> Result<String, String>>(
    missing: &Vec<String>,
    mapping: &mut ResolvedMapping,
    prompt: &F,
) -> (r: Result<(), String>)
    requires
        old(mapping).wf(),
        forall|k: String| call_requires(*prompt, (k,)),
        forall|x: int| 0 <= x < missing@.len() ==> !old(mapping)@.contains_key(
            #[trigger] missing@[x]@,
        ),
    ensures
        final(mapping).wf(),
        r is Ok ==> forall|x: int|
            0 <= x < missing@.len() ==> final(mapping)@.contains_key(#[trigger] missing@[x]@),
        forall|k: Seq<char>|
            #[trigger] old(mapping)@.contains_key(k) ==> final(mapping)@.contains_key(k)
                && final(mapping)@[k] == old(mapping)@[k],
        forall|k: Seq<char>|
            #[trigger] final(mapping)@.contains_key(k) ==> old(mapping)@.contains_key(k)
                || in_keys(missing@, k),
        forall|k: Seq<char>|
            #[trigger] final(mapping)@.contains_key(k) && !old(mapping)@.contains_key(k)
                ==> exists|ks: String, vs: String|
                ks@ == k && vs@ == final(mapping)@[k] && call_ensures(
                    *prompt,
                    (ks,),
                    Ok::<String, String>(vs),
                ),
{
    let mut q: usize = 0;
    while q < missing.len()
        invariant
            forall|k: String| call_requires(*prompt, (k,)),
            q <= missing@.len(),
            mapping.wf(),
            forall|x: int| 0 <= x < missing@.len() ==> !old(mapping)@.contains_key(
                #[trigger] missing@[x]@,
            ),
            forall|x: int| 0 <= x < q ==> mapping@.contains_key(#[trigger] missing@[x]@),
            forall|k: Seq<char>|
                #[trigger] old(mapping)@.contains_key(k) ==> mapping@.contains_key(k) && mapping@[k]
                    == old(mapping)@[k],
            forall|k: Seq<char>|
                #[trigger] mapping@.contains_key(k) ==> old(mapping)@.contains_key(k) || in_keys(
                    missing@,
                    k,
                ),
            forall|k: Seq<char>|
                #[trigger] mapping@.contains_key(k) && !old(mapping)@.contains_key(k)
                    ==> exists|ks: String, vs: String|
                    ks@ == k && vs@ == mapping@[k] && call_ensures(
                        *prompt,
                        (ks,),
                        Ok::<String, String>(vs),
                    ),
        decreases missing@.len() - q,
    {
        let key = missing[q].clone();
        match prompt(key) {
            Ok(value) => {
                let key_again = missing[q].clone();
                let ghost before = mapping@;
                let ghost newkey = key_again@;
                mapping.insert(key_again, value);
                proof {
                    assert(newkey == missing@[q as int]@);
                    assert forall|x: int|
                        0 <= x < q + 1 implies mapping@.contains_key(#[trigger] missing@[x]@) by {
                        if x < q {
                            assert(before.contains_key(missing@[x]@));
                        } else {
                            assert(missing@[x]@ == newkey);
                        }
                    }
                    assert forall|k: Seq<char>|
                        #[trigger] mapping@.contains_key(k) implies old(mapping)@.contains_key(k)
                        || in_keys(missing@, k) by {
                        if k == missing@[q as int]@ {
                            assert(missing@[q as int]@ == k);
                            assert(in_keys(missing@, k));
                        } else {
                            assert(before.contains_key(k));
                        }
                    }
                }
            },
            Err(message) => {
                return Err(message);
            },
        }
        q = q + 1;
    }
    Ok(())
}

/// Resolves `vars`, scans `input` and renders it. In strict mode
/// (`interactive` false) an unresolved placeholder key fails with
/// `MissingValue`, naming the first missing key in scan order; in
/// interactive mode every missing key is asked of `prompt`, one at a time in
/// scan order, and a prompt failure is fatal, carried as `Prompt`.
pub fn substitution<F: Fn(String) -> Result<String, String>>(
    input: String,
    vars: Vec<Property>,
    interactive: bool,
    prompt: F,
) -> (r: Result<String, SubstitutionError>)
    requires
        forall|k: String| call_requires(prompt, (k,)),
    ensures
        ({
            let m = resolved(vars@);
            let all_resolved = forall|k: Seq<char>|
                #[trigger] is_scanned_key(input@, k) ==> m.contains_key(k);
            &&& all_resolved ==> (r matches Ok(s) && s@ == rendered(input@, m))
            &&& !interactive ==> (r is Ok <==> all_resolved)
            &&& (!interactive && !all_resolved) ==> (r matches Err(e) && (e matches
            SubstitutionError::MissingValue(key) && is_scanned_key(input@, key@)
                && !m.contains_key(key@)))
            &&& interactive ==> (r matches Err(e) ==> e is Prompt)
            &&& (interactive && r is Ok) ==> exists|m2: Map<Seq<char>, Seq<char>>|
                r->Ok_0@ == rendered(input@, m2) && #[trigger] prompt_extended(input@, m, m2)
                    && (forall|k: Seq<char>|
                    #[trigger] m2.contains_key(k) && !m.contains_key(k) ==> exists|
                        ks: String,
                        vs: String,
                    | ks@ == k && vs@ == m2[k] && call_ensures(prompt, (ks,), Ok::<String, String>(vs)))
        }),
{
    let ghost m = resolved(vars@);
    let keys = find_keys(input.as_str());
    let mut mapping = merge(&vars);
    let missing = missing_keys(&keys, &mapping);
    if missing.len() == 0 {
        proof {
            assert forall|k: Seq<char>|
                #[trigger] is_scanned_key(input@, k) implies m.contains_key(k) by {
                assert(in_keys(keys@, k));
                let idx = choose|idx: int| 0 <= idx < keys@.len() && keys@[idx]@ == k;
                if !mapping@.contains_key(keys@[idx]@) {
                    assert(in_keys(missing@, keys@[idx]@));
                    let x = choose|x: int| 0 <= x < missing@.len() && missing@[x]@ == keys@[idx]@;
                }
                assert(mapping@.contains_key(k));
            }
        }
        let out = render(input.as_str(), &mapping);
        proof {
            if interactive {
                assert(prompt_extended(input@, m, m));
            }
        }
        return Ok(out);
    }
    proof {
        assert(!m.contains_key(missing@[0]@));
        assert(in_keys(keys@, missing@[0]@));
        let idx = choose|idx: int| 0 <= idx < keys@.len() && keys@[idx]@ == missing@[0]@;
        assert(is_scanned_key(input@, keys@[idx]@));
        assert(is_scanned_key(input@, missing@[0]@));
    }
    if !interactive {
        let first = missing[0].clone();
        return Err(SubstitutionError::MissingValue(first));
    }
    let ghost resolved_before = mapping@;
    match prompt_all(&missing, &mut mapping, &prompt) {
        Ok(_) => {},
        Err(message) => {
            return Err(SubstitutionError::Prompt(message));
        },
    }
    proof {
        assert forall|k: Seq<char>|
            #[trigger] is_scanned_key(input@, k) implies mapping@.contains_key(k) by {
            assert(in_keys(keys@, k));
            let idx = choose|idx: int| 0 <= idx < keys@.len() && keys@[idx]@ == k;
            if !m.contains_key(k) {
                assert(in_keys(missing@, keys@[idx]@));
                let x = choose|x: int| 0 <= x < missing@.len() && missing@[x]@ == k;
                assert(mapping@.contains_key(missing@[x]@));
            }
        }
        assert forall|k: Seq<char>|
            #[trigger] mapping@.contains_key(k) implies m.contains_key(k) || is_scanned_key(
            input@,
            k,
        ) by {
            if !m.contains_key(k) {
                assert(resolved_before.contains_key(k) || in_keys(missing@, k));
                let x = choose|x: int| 0 <= x < missing@.len() && missing@[x]@ == k;
                assert(in_keys(keys@, missing@[x]@));
                let idx = choose|idx: int| 0 <= idx < keys@.len() && keys@[idx]@ == k;
                assert(is_scanned_key(input@, keys@[idx]@));
            }
        }
        assert(prompt_extended(input@, m, mapping@));
    }
    let out = render(input.as_str(), &mapping);
    proof {
        assert(out@ == rendered(input@, mapping@) && prompt_extended(input@, m, mapping@));
    }
    Ok(out)
}

/// For two properties under one key, the one of strictly higher precedence
/// decides the key's value, whichever order the two are discovered in.
pub proof fn lemma_priority_override(a: Property, b: Property)
    requires
        a@.key == b@.key,
        prec(b@.prio) < prec(a@.prio),
    ensures
        resolved(seq![a, b]).contains_key(a@.key),
        resolved(seq![a, b])[a@.key] == a@.value,
        resolved(seq![b, a]).contains_key(a@.key),
        resolved(seq![b, a])[a@.key] == a@.value,
{
    let k = a@.key;
    let s1 = seq![a, b];
    let s2 = seq![b, a];
    reveal_with_fuel(winner_idx, 3);
    assert(s1.drop_last() =~= seq![a]);
    assert(s2.drop_last() =~= seq![b]);
    assert(seq![a].drop_last() =~= Seq::<Property>::empty());
    assert(seq![b].drop_last() =~= Seq::<Property>::empty());
    assert(seq![a].last() == a && seq![b].last() == b);
    assert(winner_idx(seq![a], k) == 0);
    assert(winner_idx(seq![b], k) == 0);
    assert(s1.last() == b && s1[0] == a);
    assert(s2.last() == a && s2[0] == b);
    assert(winner_idx(s1, k) == 0);
    assert(winner_idx(s2, k) == 1);
}

/// Rendering depends only on what the mapping says of the scanned keys.
pub proof fn lemma_rendered_congruent(
    t: Seq<char>,
    m1: Map<Seq<char>, Seq<char>>,
    m2: Map<Seq<char>, Seq<char>>,
)
    requires
        forall|k: Seq<char>|
            #[trigger] is_scanned_key(t, k) ==> m1.contains_key(k) == m2.contains_key(k) && (
            m1.contains_key(k) ==> m1[k] == m2[k]),
    ensures
        rendered(t, m1) == rendered(t, m2),
    decreases t.len(),
{
    if t.len() == 0 {
    } else if placeholder_starts_at(t, 0) {
        let k = key_at(t, 0);
        assert(placeholder_at(t, 0, k));
        assert(is_scanned_key(t, k));
        let step = k.len() + 4 as int;
        let rest = t.skip(step);
        assert forall|k2: Seq<char>|
            #[trigger] is_scanned_key(rest, k2) implies is_scanned_key(t, k2) by {
            let i = choose|i: int| placeholder_at(rest, i, k2);
            lemma_placeholder_shift(t, step, i, k2);
            assert(placeholder_at(t, step + i, k2));
        }
        lemma_rendered_congruent(rest, m1, m2);
    } else {
        let rest = t.skip(1);
        assert forall|k2: Seq<char>|
            #[trigger] is_scanned_key(rest, k2) implies is_scanned_key(t, k2) by {
            let i = choose|i: int| placeholder_at(rest, i, k2);
            lemma_placeholder_shift(t, 1, i, k2);
            assert(placeholder_at(t, 1 + i, k2));
        }
        lemma_rendered_congruent(rest, m1, m2);
    }
}

/// The winner over environment and file properties followed by overrides is
/// the overrides' own winner, for every key some override carries.
proof fn lemma_winner_append(others: Seq<Property>, args: Seq<Property>, k: Seq<char>)
    requires
        forall|i: int|
            0 <= i < others.len() ==> prec(#[trigger] others[i]@.prio) < prec(Source::Arg),
        forall|i: int| 0 <= i < args.len() ==> #[trigger] args[i]@.prio == Source::Arg,
        winner_idx(args, k) >= 0,
    ensures
        winner_idx(others + args, k) == others.len() + winner_idx(args, k),
    decreases args.len(),
{
    let s = others + args;
    assert(args.len() > 0);
    assert(s.drop_last() =~= others + args.drop_last());
    assert(s.last() == args.last());
    let ra = winner_idx(args.drop_last(), k);
    let rs = winner_idx(others + args.drop_last(), k);
    lemma_winner_idx(others + args.drop_last(), k);
    lemma_winner_idx(args.drop_last(), k);
    if args.last()@.key == k {
        assert(args.last()@.prio == Source::Arg);
        if rs >= 0 {
            let e = (others + args.drop_last())[rs];
            if rs < others.len() {
                assert(e == others[rs]);
                assert(prec(e@.prio) < prec(Source::Arg));
            } else {
                assert(e == args.drop_last()[rs - others.len()]);
                assert(args.drop_last()[rs - others.len()] == args[rs - others.len()]);
                assert(prec(e@.prio) == prec(Source::Arg));
            }
            assert(prec(e@.prio) <= prec(s.last()@.prio));
        }
        assert(winner_idx(s, k) == s.len() - 1);
        if ra >= 0 {
            assert(prec(args.drop_last()[ra]@.prio) == prec(Source::Arg));
            assert(args.drop_last()[ra] == args[ra]);
        }
        assert(winner_idx(args, k) == args.len() - 1);
    } else {
        assert(winner_idx(args, k) == ra);
        assert(ra >= 0);
        assert forall|i: int|
            0 <= i < args.drop_last().len() implies #[trigger] args.drop_last()[i]@.prio
            == Source::Arg by {
            assert(args.drop_last()[i] == args[i]);
        }
        lemma_winner_append(others, args.drop_last(), k);
        assert(winner_idx(s, k) == rs);
    }
}

/// Round trip under explicit overrides: when an `Arg` override exists for
/// every key the template references, rendering against the full resolution
/// equals rendering against the overrides alone, whatever environment or
/// file properties are present besides; each placeholder is replaced exactly
/// once, by its override value.
pub proof fn lemma_arg_round_trip(t: Seq<char>, others: Seq<Property>, args: Seq<Property>)
    requires
        forall|i: int|
            0 <= i < others.len() ==> prec(#[trigger] others[i]@.prio) < prec(Source::Arg),
        forall|i: int| 0 <= i < args.len() ==> #[trigger] args[i]@.prio == Source::Arg,
        forall|k: Seq<char>|
            #[trigger] is_scanned_key(t, k) ==> exists|i: int|
                0 <= i < args.len() && #[trigger] args[i]@.key == k,
    ensures
        rendered(t, resolved(others + args)) == rendered(t, resolved(args)),
{
    let ma = resolved(args);
    let mf = resolved(others + args);
    assert forall|k: Seq<char>|
        #[trigger] is_scanned_key(t, k) implies mf.contains_key(k) == ma.contains_key(k) && (
    mf.contains_key(k) ==> mf[k] == ma[k]) by {
        let i = choose|i: int| 0 <= i < args.len() && #[trigger] args[i]@.key == k;
        lemma_winner_idx(args, k);
        if winner_idx(args, k) < 0 {
            assert(args[i]@.key != k);
        }
        let w = winner_idx(args, k);
        lemma_winner_append(others, args, k);
        assert((others + args)[others.len() + w] == args[w]);
        assert(mf[k] == args[w]@.value);
        assert(ma[k] == args[w]@.value);
    }
    lemma_rendered_congruent(t, mf, ma);
}

/// A character sequence without brace characters.
pub open spec fn brace_free(s: Seq<char>) -> bool {
    forall|i: int| 0 <= i < s.len() ==> #[trigger] s[i] != '{' && s[i] != '}'
}

/// Scanning finds nothing in a brace-free text.
pub proof fn lemma_brace_free_scans_empty(s: Seq<char>)
    requires
        brace_free(s),
    ensures
        forall|k: Seq<char>| !is_scanned_key(s, k),
{
    assert forall|k: Seq<char>| !is_scanned_key(s, k) by {
        if is_scanned_key(s, k) {
            let i = choose|i: int| placeholder_at(s, i, k);
            assert(s[i] == '{');
        }
    }
}

/// Scanned keys of a suffix are scanned keys of the whole.
proof fn lemma_scanned_skip(t: Seq<char>, d: int)
    requires
        0 <= d <= t.len(),
    ensures
        forall|k: Seq<char>| #[trigger] is_scanned_key(t.skip(d), k) ==> is_scanned_key(t, k),
{
    assert forall|k: Seq<char>|
        #[trigger] is_scanned_key(t.skip(d), k) implies is_scanned_key(t, k) by {
        let i = choose|i: int| placeholder_at(t.skip(d), i, k);
        lemma_placeholder_shift(t, d, i, k);
        assert(placeholder_at(t, d + i, k));
    }
}

/// Every brace of `t` belongs to a placeholder: the scan that rendering
/// performs meets `{` and `}` only as the delimiters of placeholders.
pub open spec fn braces_covered(t: Seq<char>) -> bool
    decreases t.len(),
{
    if t.len() == 0 {
        true
    } else if placeholder_starts_at(t, 0) {
        braces_covered(t.skip(key_at(t, 0).len() + 4 as int))
    } else {
        t[0] != '{' && t[0] != '}' && braces_covered(t.skip(1))
    }
}

/// Rendering a template whose braces all belong to placeholders, against a
/// mapping that resolves every scanned key to a brace-free value, yields a
/// brace-free text.
proof fn lemma_rendered_brace_free(t: Seq<char>, m: Map<Seq<char>, Seq<char>>)
    requires
        forall|k: Seq<char>| #[trigger] is_scanned_key(t, k) ==> m.contains_key(k),
        forall|k: Seq<char>| #[trigger] m.contains_key(k) ==> brace_free(m[k]),
        braces_covered(t),
    ensures
        brace_free(rendered(t, m)),
    decreases t.len(),
{
    if t.len() == 0 {
    } else if placeholder_starts_at(t, 0) {
        let k = key_at(t, 0);
        assert(placeholder_at(t, 0, k));
        assert(is_scanned_key(t, k));
        assert(m.contains_key(k));
        let step = k.len() + 4 as int;
        let rest = t.skip(step);
        lemma_scanned_skip(t, step);
        lemma_rendered_brace_free(rest, m);
        let rep = m[k];
        assert forall|i: int|
            0 <= i < rendered(t, m).len() implies #[trigger] rendered(t, m)[i] != '{' && rendered(
            t,
            m,
        )[i] != '}' by {
            if i < rep.len() {
                assert(rendered(t, m)[i] == rep[i]);
            } else {
                assert(rendered(t, m)[i] == rendered(rest, m)[i - rep.len()]);
            }
        }
    } else {
        let rest = t.skip(1);
        lemma_scanned_skip(t, 1);
        lemma_rendered_brace_free(rest, m);
        assert forall|i: int|
            0 <= i < rendered(t, m).len() implies #[trigger] rendered(t, m)[i] != '{' && rendered(
            t,
            m,
        )[i] != '}' by {
            if i == 0 {
                assert(rendered(t, m)[0] == t[0]);
            } else {
                assert(rendered(t, m)[i] == rendered(rest, m)[i - 1]);
            }
        }
    }
}

/// Substitution is a single pass: rendering a template whose braces all
/// belong to placeholders, against a mapping that resolves every scanned key
/// to a value without brace characters, yields a text in which scanning
/// finds no placeholder at all; in particular no replaced value is scanned
/// again.
pub proof fn lemma_render_single_pass(t: Seq<char>, m: Map<Seq<char>, Seq<char>>)
    requires
        forall|k: Seq<char>| #[trigger] is_scanned_key(t, k) ==> m.contains_key(k),
        forall|k: Seq<char>| #[trigger] m.contains_key(k) ==> brace_free(m[k]),
        braces_covered(t),
    ensures
        forall|k: Seq<char>| !is_scanned_key(rendered(t, m), k),
{
    lemma_rendered_brace_free(t, m);
    lemma_brace_free_scans_empty(rendered(t, m));
}

} // verus!
