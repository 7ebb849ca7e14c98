//! The property model: an immutable (key, value, priority) triple, the total
//! order on priorities that resolution depends on, and the parser for
//! variable-file lines.

use vstd::prelude::*;

use crate::text::{chars_range, first_index_of, lemma_first_index_of, lemma_first_index_of_is,
    string_from_chars};

verus! {

/// Where a property came from. The precedence order, from lowest to highest,
/// is `EnvVar`, then `File(depth)` with greater depth winning, then `Arg`.
#[derive(Debug, Clone, Copy, PartialEq, Eq, Structural)]
pub enum Source {
    /// Inherited from the process environment; loses to any file or override.
    EnvVar,
    /// Read from a variable file whose directory sits at the given depth
    /// (component count) in the filesystem; deeper files win.
    File(usize),
    /// An explicit `KEY=VALUE` override from the command line; beats everything.
    Arg,
}

/// Numeric precedence rank of a source: a property with a strictly greater
/// rank overrides one with a smaller rank under the same key.
pub open spec fn prec(s: Source) -> int {
    match s {
        Source::EnvVar => 0,
        Source::File(depth) => 1 + depth,
        Source::Arg => usize::MAX + 2,
    }
}

impl Source {
    /// True when `self` has strictly lower override precedence than `other`.
    pub fn lower_precedence_than(&self, other: &Source) -> (r: bool)
        ensures
            r == (prec(*self) < prec(*other)),
    {
        match (self, other) {
            (Source::EnvVar, Source::EnvVar) => false,
            (Source::EnvVar, _) => true,
            (Source::File(_), Source::EnvVar) => false,
            (Source::File(d), Source::File(e)) => d < e,
            (Source::File(_), Source::Arg) => true,
            (Source::Arg, _) => false,
        }
    }
}

/// The priority a freshly parsed line carries before its file's depth is
/// applied: a file at the filesystem root.
pub open spec fn default_prio() -> Source {
    Source::File(0)
}

/// The mathematical content of a `Property`.
pub ghost struct PropertyModel {
    pub key: Seq<char>,
    pub value: Seq<char>,
    pub prio: Source,
}

/// A key/value pair tagged with the priority of the source it came from.
#[derive(Debug, Clone)]
pub struct Property {
    key: String,
    value: String,
    prio: Source,
}

impl View for Property {
    type V = PropertyModel;

    closed spec fn view(&self) -> PropertyModel {
        PropertyModel { key: self.key@, value: self.value@, prio: self.prio }
    }
}

/// Failure to read a property from a line or a file.
#[derive(Debug, Clone)]
pub enum ParsePropertyError {
    /// A non-blank line without the `=` delimiter; carries the line.
    Entry(String),
    /// A key that cannot be used; carries the key.
    Key(String),
    /// A value that cannot be used; carries the value.
    Value(String),
    /// A variable file that cannot be read; carries a description.
    File(String),
}

impl ParsePropertyError {
    /// The error as a line of text.
    pub fn message(&self) -> (r: String)
        ensures
            match self {
                ParsePropertyError::Entry(entry) => r@ == "Invalid entry: "@ + entry@,
                ParsePropertyError::Key(key) => r@ == "Invalid key: "@ + key@,
                ParsePropertyError::Value(value) => r@ == "Invalid value: "@ + value@,
                ParsePropertyError::File(file) => r@ == "Invalid file: "@ + file@,
            },
    {
        match self {
            ParsePropertyError::Entry(entry) => "Invalid entry: ".to_owned().concat(
                entry.as_str(),
            ),
            ParsePropertyError::Key(key) => "Invalid key: ".to_owned().concat(key.as_str()),
            ParsePropertyError::Value(value) => "Invalid value: ".to_owned().concat(
                value.as_str(),
            ),
            ParsePropertyError::File(file) => "Invalid file: ".to_owned().concat(file.as_str()),
        }
    }
}

impl Property {
    /// Builds a property from its parts.
    pub fn new(key: String, value: String, prio: Source) -> (r: Result<
        Property,
        ParsePropertyError,
    >)
        ensures
            r matches Ok(p) && p@ == (PropertyModel { key: key@, value: value@, prio }),
    {
        Ok(Property { key, value, prio })
    }

    /// The property's key.
    pub fn key(&self) -> (r: &str)
        ensures
            r@ == self@.key,
    {
        self.key.as_str()
    }

    /// The property's value.
    pub fn value(&self) -> (r: &str)
        ensures
            r@ == self@.value,
    {
        self.value.as_str()
    }

    /// The property's source priority.
    pub fn prio(&self) -> (r: Source)
        ensures
            r == self@.prio,
    {
        self.prio
    }

    /// The same property under another priority.
    pub fn with_prio(self, prio: Source) -> (r: Self)
        ensures
            r@ == (PropertyModel { prio, ..self@ }),
    {
        Property { prio, ..self }
    }

    /// The same key and value under the priority of another source.
    pub fn with_source(&self, source: Source) -> (r: Property)
        ensures
            r@ == (PropertyModel { key: self@.key, value: self@.value, prio: source }),
    {
        Property { key: self.key.clone(), value: self.value.clone(), prio: source }
    }

    /// Parses one `KEY=VALUE` line: the parts around the first `=` are
    /// normalized; a line without `=` is an `Entry` error carrying the line.
    pub fn from_str(s: &str) -> (r: Result<Property, ParsePropertyError>)
        ensures
            ({
                let f = first_index_of(s@, '=');
                match r {
                    Ok(p) => f >= 0 && p@ == (PropertyModel {
                        key: normalized(s@.take(f)),
                        value: normalized(s@.skip(f + 1)),
                        prio: default_prio(),
                    }),
                    Err(e) => f < 0 && (e matches ParsePropertyError::Entry(line) && line@ == s@),
                }
            }),
    {
        let n = s.unicode_len();
        let mut i: usize = 0;
        while i < n && s.get_char(i) != '='
            invariant
                n == s@.len(),
                i <= n,
                forall|q: int| 0 <= q < i ==> s@[q] != '=',
            decreases n - i,
        {
            i = i + 1;
        }
        if i == n {
            proof {
                lemma_first_index_of(s@, '=');
            }
            return Err(ParsePropertyError::Entry(s.to_owned()));
        }
        proof {
            lemma_first_index_of_is(s@, '=', i as int);
        }
        let key_chars = chars_range(s, 0, i);
        let key_raw = string_from_chars(&key_chars);
        let value_chars = chars_range(s, i + 1, n);
        let value_raw = string_from_chars(&value_chars);
        let key = normalize(key_raw.as_str());
        let value = normalize(value_raw.as_str());
        proof {
            assert(s@.take(i as int) =~= s@.subrange(0, i as int));
            assert(s@.skip(i + 1) =~= s@.subrange(i + 1, n as int));
        }
        Ok(Property { key, value, prio: Source::File(0) })
    }
}

/// Whitespace that trimming removes.
pub open spec fn is_space_char(c: char) -> bool {
    c == ' ' || c == '\t' || c == '\r' || c == '\n'
}

/// A quote character that a value may be wrapped in.
pub open spec fn is_quote_char(c: char) -> bool {
    c == '\'' || c == '"'
}

/// `s` without its leading whitespace.
pub open spec fn trim_front(s: Seq<char>) -> Seq<char>
    decreases s.len(),
{
    if s.len() > 0 && is_space_char(s[0]) {
        trim_front(s.drop_first())
    } else {
        s
    }
}

/// `s` without its trailing whitespace.
pub open spec fn trim_back(s: Seq<char>) -> Seq<char>
    decreases s.len(),
{
    if s.len() > 0 && is_space_char(s.last()) {
        trim_back(s.drop_last())
    } else {
        s
    }
}

/// `s` without one layer of matching surrounding quotes, if it has one.
pub open spec fn strip_quotes(s: Seq<char>) -> Seq<char> {
    if s.len() >= 2 && is_quote_char(s[0]) && s.last() == s[0] {
        s.subrange(1, s.len() - 1)
    } else {
        s
    }
}

/// A key or value as it leaves the parser: trimmed of surrounding whitespace
/// and of a single layer of matching quotes.
pub open spec fn normalized(s: Seq<char>) -> Seq<char> {
    strip_quotes(trim_back(trim_front(s)))
}

proof fn lemma_trim_front_at(s: Seq<char>, a: int)
    requires
        0 <= a <= s.len(),
        forall|q: int| 0 <= q < a ==> is_space_char(#[trigger] s[q]),
        a == s.len() || !is_space_char(s[a]),
    ensures
        trim_front(s) == s.skip(a),
    decreases a,
{
    if a == 0 {
        assert(s.skip(0) =~= s);
    } else {
        assert(is_space_char(s[0]));
        assert forall|q: int| 0 <= q < a - 1 implies is_space_char(#[trigger] s.drop_first()[q]) by {
            assert(s.drop_first()[q] == s[q + 1]);
        }
        assert(a - 1 == s.drop_first().len() || !is_space_char(s.drop_first()[a - 1]));
        lemma_trim_front_at(s.drop_first(), a - 1);
        assert(s.drop_first().skip(a - 1) =~= s.skip(a));
    }
}

proof fn lemma_trim_back_at(s: Seq<char>, b: int)
    requires
        0 <= b <= s.len(),
        forall|q: int| b <= q < s.len() ==> is_space_char(#[trigger] s[q]),
        b == 0 || !is_space_char(s[b - 1]),
    ensures
        trim_back(s) == s.take(b),
    decreases s.len(),
{
    if b == s.len() {
        if s.len() > 0 && is_space_char(s.last()) {
            assert(!is_space_char(s[b - 1]));
        }
        assert(s.take(b) =~= s);
    } else {
        assert(is_space_char(s.last()));
        lemma_trim_back_at(s.drop_last(), b);
        assert(s.drop_last().take(b) =~= s.take(b));
    }
}

/// Classifies `c` as trimmable whitespace.
fn space_char(c: char) -> (r: bool)
    ensures
        r == is_space_char(c),
{
    c == ' ' || c == '\t' || c == '\r' || c == '\n'
}

/// Trims `input` of surrounding whitespace and of a single layer of matching
/// quote characters.
pub fn normalize(input: &str) -> (r: String)
    ensures
        r@ == normalized(input@),
{
    let ghost s = input@;
    let n = input.unicode_len();
    let mut a: usize = 0;
    while a < n && space_char(input.get_char(a))
        invariant
            n == s.len(),
            s == input@,
            a <= n,
            forall|q: int| 0 <= q < a ==> is_space_char(#[trigger] s[q]),
        decreases n - a,
    {
        a = a + 1;
    }
    let mut b: usize = n;
    while b > a && space_char(input.get_char(b - 1))
        invariant
            n == s.len(),
            s == input@,
            a <= b <= n,
            forall|q: int| b <= q < n ==> is_space_char(#[trigger] s[q]),
        decreases b,
    {
        b = b - 1;
    }
    proof {
        lemma_trim_front_at(s, a as int);
        let u = s.skip(a as int);
        assert forall|q: int| b - a <= q < u.len() implies is_space_char(#[trigger] u[q]) by {
            assert(u[q] == s[q + a]);
        }
        if b > a {
            assert(u[b - a - 1] == s[b - 1]);
        }
        lemma_trim_back_at(u, b - a);
        assert(trim_back(trim_front(s)) =~= s.subrange(a as int, b as int));
    }
    let mut from = a;
    let mut to = b;
    if b - a >= 2 {
        let c0 = input.get_char(a);
        let c1 = input.get_char(b - 1);
        if (c0 == '\'' || c0 == '"') && c1 == c0 {
            from = a + 1;
            to = b - 1;
        }
    }
    let chars = chars_range(input, from, to);
    let out = string_from_chars(&chars);
    proof {
        let core = s.subrange(a as int, b as int);
        if from == a {
            assert(out@ =~= core);
        } else {
            assert(core[0] == s[a as int] && core.last() == s[b - 1]);
            assert(out@ =~= core.subrange(1, core.len() - 1));
        }
    }
    out
}

/// Trims `input` of surrounding whitespace.
pub(crate) fn trim_str(input: &str) -> (r: String)
    ensures
        r@ == trim_back(trim_front(input@)),
{
    let ghost s = input@;
    let n = input.unicode_len();
    let mut a: usize = 0;
    while a < n && space_char(input.get_char(a))
        invariant
            n == s.len(),
            s == input@,
            a <= n,
            forall|q: int| 0 <= q < a ==> is_space_char(#[trigger] s[q]),
        decreases n - a,
    {
        a = a + 1;
    }
    let mut b: usize = n;
    while b > a && space_char(input.get_char(b - 1))
        invariant
            n == s.len(),
            s == input@,
            a <= b <= n,
            forall|q: int| b <= q < n ==> is_space_char(#[trigger] s[q]),
        decreases b,
    {
        b = b - 1;
    }
    proof {
        lemma_trim_front_at(s, a as int);
        let u = s.skip(a as int);
        assert forall|q: int| b - a <= q < u.len() implies is_space_char(#[trigger] u[q]) by {
            assert(u[q] == s[q + a]);
        }
        if b > a {
            assert(u[b - a - 1] == s[b - 1]);
        }
        lemma_trim_back_at(u, b - a);
        assert(trim_back(trim_front(s)) =~= s.subrange(a as int, b as int));
    }
    let chars = chars_range(input, a, b);
    string_from_chars(&chars)
}

/// The directory depth `depth` as a file-source priority.
pub fn priority(depth: usize) -> (s: Source)
    ensures
        s == Source::File(depth),
{
    Source::File(depth)
}

/// The lines of `s`, split on `'\n'`; a trailing newline opens no extra line.
pub open spec fn line_split(s: Seq<char>) -> Seq<Seq<char>>
    decreases s.len(),
{
    if s.len() == 0 {
        Seq::empty()
    } else {
        let i = first_index_of(s, '\n');
        if 0 <= i < s.len() {
            seq![s.take(i)] + line_split(s.skip(i + 1))
        } else {
            seq![s]
        }
    }
}

/// A line of nothing but whitespace, skipped silently by the reader.
pub open spec fn is_blank_line(l: Seq<char>) -> bool {
    forall|i: int| 0 <= i < l.len() ==> is_space_char(#[trigger] l[i])
}

/// The property a well-formed line yields under the priority `prio`.
pub open spec fn line_property(l: Seq<char>, prio: Source) -> PropertyModel {
    let f = first_index_of(l, '=');
    PropertyModel { key: normalized(l.take(f)), value: normalized(l.skip(f + 1)), prio }
}

/// The views of a sequence of properties.
pub open spec fn prop_views(props: Seq<Property>) -> Seq<PropertyModel> {
    props.map_values(|p: Property| p@)
}

/// The views of a sequence of lines.
pub open spec fn line_views(lines: Seq<String>) -> Seq<Seq<char>> {
    lines.map_values(|l: String| l@)
}

/// What reading a variable file yields: one property per non-blank line, all
/// under the same priority, or the first non-blank line without a `=`.
pub open spec fn parsed_properties(ls: Seq<Seq<char>>, prio: Source) -> Result<
    Seq<PropertyModel>,
    Seq<char>,
>
    decreases ls.len(),
{
    if ls.len() == 0 {
        Ok(Seq::empty())
    } else {
        let l = ls[0];
        if is_blank_line(l) {
            parsed_properties(ls.drop_first(), prio)
        } else if first_index_of(l, '=') < 0 {
            Err(l)
        } else {
            match parsed_properties(ls.drop_first(), prio) {
                Ok(rest) => Ok(seq![line_property(l, prio)] + rest),
                Err(e) => Err(e),
            }
        }
    }
}

/// Splits `content` into its lines.
fn split_lines(content: &str) -> (r: Vec<String>)
    ensures
        line_views(r@) == line_split(content@),
{
    let ghost t = content@;
    let n = content.unicode_len();
    let mut lines: Vec<String> = Vec::new();
    let mut pos: usize = 0;
    proof {
        assert(t.skip(0) =~= t);
        assert(line_views(lines@) + line_split(t) =~= line_split(t));
    }
    while pos < n
        invariant
            n == t.len(),
            t == content@,
            pos <= n,
            line_split(t) == line_views(lines@) + line_split(t.skip(pos as int)),
        decreases n - pos,
    {
        let mut j: usize = pos;
        while j < n && content.get_char(j) != '\n'
            invariant
                n == t.len(),
                t == content@,
                pos <= j <= n,
                forall|q: int| pos <= q < j ==> t[q] != '\n',
            decreases n - j,
        {
            j = j + 1;
        }
        let piece = chars_range(content, pos, j);
        let line = string_from_chars(&piece);
        let next: usize = if j < n {
            j + 1
        } else {
            n
        };
        let ghost prev = lines@;
        lines.push(line);
        proof {
            let u = t.skip(pos as int);
            assert forall|q: int| 0 <= q < j - pos implies u[q] != '\n' by {
                assert(u[q] == t[q + pos]);
            }
            if j < n {
                assert(u[j - pos] == t[j as int]);
                lemma_first_index_of_is(u, '\n', j - pos);
                assert(u.take(j - pos) =~= t.subrange(pos as int, j as int));
                assert(u.skip(j - pos + 1) =~= t.skip(next as int));
            } else {
                lemma_first_index_of(u, '\n');
                if first_index_of(u, '\n') >= 0 {
                    assert(u[first_index_of(u, '\n')] == '\n');
                }
                assert(u =~= t.subrange(pos as int, n as int));
            }
            assert(line_views(lines@) =~= line_views(prev).push(piece@));
            assert(line_split(t) =~= line_views(lines@) + line_split(t.skip(next as int)));
        }
        pos = next;
    }
    proof {
        assert(t.skip(pos as int) =~= Seq::<char>::empty());
        assert(line_views(lines@) =~= line_views(lines@) + line_split(t.skip(pos as int)));
    }
    lines
}

/// True when `l` is blank: empty or whitespace only.
fn blank_line(l: &str) -> (r: bool)
    ensures
        r == is_blank_line(l@),
{
    let n = l.unicode_len();
    let mut i: usize = 0;
    while i < n
        invariant
            n == l@.len(),
            i <= n,
            forall|q: int| 0 <= q < i ==> is_space_char(#[trigger] l@[q]),
        decreases n - i,
    {
        if !space_char(l.get_char(i)) {
            return false;
        }
        i = i + 1;
    }
    true
}

/// Reads a variable file's content: one `KEY=VALUE` property per non-blank
/// line, every property under the priority `prio`. A non-blank line without
/// `=` fails the whole file with an `Entry` error carrying that line.
pub fn parse_properties(content: &str, prio: Source) -> (r: Result<
    Vec<Property>,
    ParsePropertyError,
>)
    ensures
        match r {
            Ok(props) => parsed_properties(line_split(content@), prio) == Ok::<
                Seq<PropertyModel>,
                Seq<char>,
            >(prop_views(props@)),
            Err(e) => e matches ParsePropertyError::Entry(line) && parsed_properties(
                line_split(content@),
                prio,
            ) == Err::<Seq<PropertyModel>, Seq<char>>(line@),
        },
{
    let lines = split_lines(content);
    let ghost ls = line_views(lines@);
    let mut props: Vec<Property> = Vec::new();
    let mut i: usize = 0;
    proof {
        assert(ls.skip(0) =~= ls);
        if parsed_properties(ls, prio) is Ok {
            assert(prop_views(props@) + parsed_properties(ls, prio)->Ok_0 =~= parsed_properties(
                ls,
                prio,
            )->Ok_0);
        }
    }
    while i < lines.len()
        invariant
            ls == line_split(content@),
            ls == line_views(lines@),
            i <= lines@.len(),
            match parsed_properties(ls.skip(i as int), prio) {
                Ok(rest) => parsed_properties(ls, prio) == Ok::<Seq<PropertyModel>, Seq<char>>(
                    prop_views(props@) + rest,
                ),
                Err(e) => parsed_properties(ls, prio) == Err::<Seq<PropertyModel>, Seq<char>>(e),
            },
        decreases lines@.len() - i,
    {
        proof {
            assert(ls.skip(i as int).drop_first() =~= ls.skip(i + 1));
            assert(ls.skip(i as int)[0] == lines@[i as int]@);
        }
        let blank = blank_line(lines[i].as_str());
        if !blank {
            match Property::from_str(lines[i].as_str()) {
                Ok(p) => {
                    let p = p.with_prio(prio);
                    let ghost prev = props@;
                    props.push(p);
                    proof {
                        assert(prop_views(props@) =~= prop_views(prev).push(p@));
                        let rest_now = parsed_properties(ls.skip(i + 1), prio);
                        if rest_now is Ok {
                            assert(prop_views(props@) + rest_now->Ok_0 =~= prop_views(prev) + (seq![
                                line_property(lines@[i as int]@, prio),
                            ] + rest_now->Ok_0));
                        }
                    }
                },
                Err(e) => {
                    return Err(e);
                },
            }
        }
        i = i + 1;
    }
    proof {
        assert(ls.skip(i as int) =~= Seq::<Seq<char>>::empty());
        assert(prop_views(props@) =~= prop_views(props@) + Seq::<PropertyModel>::empty());
    }
    Ok(props)
}

/// Sorts properties by descending precedence: the property that wins
/// resolution comes first, an explicit override before a deep file, a deep
/// file before a shallow one, a shallow one before the inherited environment.
pub fn sort_properties(props: Vec<Property>) -> (r: Vec<Property>)
    ensures
        r@.to_multiset() == props@.to_multiset(),
        forall|i: int, j: int| 0 <= i < j < r@.len() ==> prec(r@[j]@.prio) <= prec(r@[i]@.prio),
{
    broadcast use vstd::seq_lib::group_to_multiset_ensures;
    broadcast use vstd::multiset::group_multiset_axioms;

    let mut rest = props;
    let mut out: Vec<Property> = Vec::new();
    while rest.len() > 0
        invariant
            out@.to_multiset().add(rest@.to_multiset()) == props@.to_multiset(),
            forall|i: int, j: int| 0 <= i < j < out@.len() ==> prec(out@[j]@.prio) <= prec(
                out@[i]@.prio,
            ),
            forall|i: int, j: int|
                0 <= i < out@.len() && 0 <= j < rest@.len() ==> prec(rest@[j]@.prio) <= prec(
                    out@[i]@.prio,
                ),
        decreases rest@.len(),
    {
        let mut best: usize = 0;
        let mut m: usize = 1;
        while m < rest.len()
            invariant
                rest@.len() > 0,
                best < m <= rest@.len(),
                forall|q: int| 0 <= q < m ==> prec(rest@[q]@.prio) <= prec(rest@[best as int]@.prio),
            decreases rest@.len() - m,
        {
            let a = rest[best].prio();
            let b = rest[m].prio();
            if a.lower_precedence_than(&b) {
                best = m;
            }
            m = m + 1;
        }
        let ghost old_rest = rest@;
        let ghost old_out = out@;
        let p = rest.remove(best);
        out.push(p);
        proof {
            old_out.to_multiset_ensures();
            old_rest.to_multiset_ensures();
            assert(old_rest.contains(old_rest[best as int]));
            assert(old_rest.to_multiset().count(old_rest[best as int]) > 0);
            assert(out@.to_multiset() =~= old_out.to_multiset().insert(p));
            assert(rest@.to_multiset() =~= old_rest.to_multiset().remove(p));
            assert(out@.to_multiset().add(rest@.to_multiset()) =~= old_out.to_multiset().add(
                old_rest.to_multiset(),
            ));
        }
    }
    proof {
        assert(out@.to_multiset().add(rest@.to_multiset()) =~= out@.to_multiset());
    }
    out
}

} // verus!
