//! Canonical contracts: one identity for one bet, whatever venue lists it.
use vstd::prelude::*;
use crate::double::{Double, ONE, ZERO};
use crate::text;

verus! {

/// The class of underlying event a contract resolves on, e.g. `wx.temp`. An open
/// set of names, so that a new class needs no new code. It may hold dots.
#[derive(Debug, Clone, PartialEq, Eq, Hash)]
pub struct EventClass(pub String);

/// Which side of the threshold a contract pays on. `Between` carries its own upper
/// bound: two ranges with one lower bound are different bets.
#[derive(Debug, Clone, Copy, PartialEq, Eq, Structural)]
pub enum Direction {
    GreaterThan,
    LessThan,
    Between { upper: i64 },
}

impl Direction {
    /// The name of the direction.
    pub open spec fn tag_text(self) -> Seq<char> {
        match self {
            Direction::GreaterThan => "gt"@,
            Direction::LessThan => "lt"@,
            Direction::Between { .. } => "between"@,
        }
    }

    /// The name of the direction.
    pub fn tag(&self) -> (r: &'static str)
        ensures
            r@ == self.tag_text(),
    {
        match self {
            Direction::GreaterThan => "gt",
            Direction::LessThan => "lt",
            Direction::Between { .. } => "between",
        }
    }

    /// The direction as text: its name.
    pub fn to_text(&self) -> (r: String)
        ensures
            r@ == self.tag_text(),
    {
        self.tag().to_owned()
    }

    /// Direction and lower threshold as one component of an id: `gt_869`,
    /// `lt_869`, `between_869_900`.
    pub open spec fn token_text(self, threshold: int) -> Seq<char> {
        let lower = self.tag_text().push('_') + text::decimal(threshold);
        match self {
            Direction::Between { upper } => lower.push('_') + text::decimal(upper as int),
            _ => lower,
        }
    }

    /// Direction and lower threshold as one component of an id.
    pub fn token(&self, threshold: i64) -> (r: String)
        ensures
            r@ == self.token_text(threshold as int),
    {
        let mut s = self.tag().to_owned();
        s.push('_');
        s.append(text::decimal_i64(threshold).as_str());
        if let Direction::Between { upper } = self {
            s.push('_');
            s.append(text::decimal_i64(*upper).as_str());
        }
        s
    }

    /// What a token says, if it is one.
    pub open spec fn token_meaning(token: Seq<char>) -> Option<(Direction, int)> {
        let parts = text::split_on(token, '_');
        if parts.len() == 2 && (parts[0] == "gt"@ || parts[0] == "lt"@) {
            match text::parsed(parts[1]) {
                Some(t) => Some(
                    (
                        if parts[0] == "gt"@ {
                            Direction::GreaterThan
                        } else {
                            Direction::LessThan
                        },
                        t,
                    ),
                ),
                None => None,
            }
        } else if parts.len() == 3 && parts[0] == "between"@ {
            match (text::parsed(parts[1]), text::parsed(parts[2])) {
                (Some(t), Some(u)) => Some((Direction::Between { upper: u as i64 }, t)),
                _ => None,
            }
        } else {
            None
        }
    }

    /// What a token says, if it is one.
    pub fn parse_token(token: &str) -> (r: Option<(Direction, i64)>)
        ensures
            match r {
                Some((d, t)) => Direction::token_meaning(token@) == Some((d, t as int)),
                None => Direction::token_meaning(token@) is None,
            },
    {
        let all = text::chars_of(token);
        let parts = text::split(all.as_slice(), '_');
        let gt = text::chars_of("gt");
        let lt = text::chars_of("lt");
        let between = text::chars_of("between");
        if parts.len() == 2 {
            let is_gt = text::same_chars(parts[0].as_slice(), gt.as_slice());
            let is_lt = text::same_chars(parts[0].as_slice(), lt.as_slice());
            if is_gt || is_lt {
                match text::parse_i64(parts[1].as_slice()) {
                    Some(t) => if is_gt {
                        Some((Direction::GreaterThan, t))
                    } else {
                        Some((Direction::LessThan, t))
                    },
                    None => None,
                }
            } else {
                None
            }
        } else if parts.len() == 3 && text::same_chars(parts[0].as_slice(), between.as_slice()) {
            match (text::parse_i64(parts[1].as_slice()), text::parse_i64(parts[2].as_slice())) {
                (Some(t), Some(u)) => Some((Direction::Between { upper: u }, t)),
                _ => None,
            }
        } else {
            None
        }
    }

    /// The sign with which a long position counts in a signed sum over a cluster.
    /// `Between` is not monotone in the underlying, so it never cancels against
    /// anything: its sign is 0.
    pub fn exposure_sign(&self) -> (r: Double)
        ensures
            r == (match self {
                Direction::GreaterThan => Double::from_bits(ONE),
                Direction::LessThan => Double::from_bits(ONE).neg(),
                Direction::Between { .. } => Double::from_bits(ZERO),
            }),
    {
        match self {
            Direction::GreaterThan => Double::from_bits(ONE),
            Direction::LessThan => Double::from_bits(ONE).neg(),
            Direction::Between { .. } => Double::from_bits(ZERO),
        }
    }
}

/// A token says the direction and the threshold it was made of.
pub proof fn law_token_reads_back(direction: Direction, threshold: i64)
    ensures
        Direction::token_meaning(direction.token_text(threshold as int)) == Some(
            (direction, threshold as int),
        ),
{
    reveal_strlit("gt");
    reveal_strlit("lt");
    reveal_strlit("between");
    let tag = direction.tag_text();
    let t = text::decimal(threshold as int);
    let lower = tag.push('_') + t;
    text::lemma_decimal_chars(threshold as int, '_');
    text::law_decimal_reads_back(threshold);
    text::lemma_split_of_piece(tag, '_');
    text::lemma_split_of_join(tag, '_', t);
    assert(text::split_on(lower, '_') == seq![tag, t]);
    match direction {
        Direction::Between { upper } => {
            let u = text::decimal(upper as int);
            text::lemma_decimal_chars(upper as int, '_');
            text::law_decimal_reads_back(upper);
            text::lemma_split_of_join(lower, '_', u);
            assert(text::split_on(lower.push('_') + u, '_') == seq![tag, t, u]);
        },
        Direction::GreaterThan => {},
        Direction::LessThan => {
            assert("gt"@[0] == 'g');
            assert("lt"@[0] == 'l');
        },
    }
}

/// A token holds no dot, so it stays one component of an id.
pub proof fn lemma_token_has_no_dot(direction: Direction, threshold: int)
    ensures
        !direction.token_text(threshold).contains('.'),
{
    reveal_strlit("gt");
    reveal_strlit("lt");
    reveal_strlit("between");
    let s = direction.token_text(threshold);
    let tag = direction.tag_text();
    let t = text::decimal(threshold);
    text::lemma_decimal_chars(threshold, '.');
    if s.contains('.') {
        let i = s.index_of('.');
        assert(s[i] == '.');
        if i < tag.len() {
            assert(s[i] == tag[i]);
        } else if tag.len() < i < tag.len() + 1 + t.len() {
            assert(t[i - tag.len() - 1] == '.');
        } else if i > tag.len() + 1 + t.len() {
            match direction {
                Direction::Between { upper } => {
                    text::lemma_decimal_chars(upper as int, '.');
                    assert(text::decimal(upper as int)[i - tag.len() - 2 - t.len()] == '.');
                },
                _ => {},
            }
        }
    }
}

/// The structured fields a venue's listing is resolved into.
#[derive(Debug, Clone, PartialEq, Eq)]
pub struct CanonicalContractSpec {
    pub event_class: EventClass,
    pub location: String,
    /// In the one canonical unit of the event class. For `Direction::Between` this
    /// is the lower bound.
    pub threshold: i64,
    pub direction: Direction,
    /// The resolution date or window, e.g. "2026-08-12".
    pub resolution_window: String,
    /// The authority whose data resolves the contract, e.g. "nws_official".
    pub resolution_source: String,
}

/// What `str::to_lowercase` makes of a string.
pub uninterp spec fn lowercase(s: Seq<char>) -> Seq<char>;

/// `str::to_lowercase`: the lower-case equivalent by the Unicode tables. That it
/// depends on the string alone is all that is claimed of it.
#[verifier::external_body]
fn to_lowercase(s: &str) -> (r: String)
    ensures
        r@ == lowercase(s@),
{
    s.to_lowercase()
}

/// Spaces as underscores.
pub open spec fn underscored(s: Seq<char>) -> Seq<char> {
    s.map_values(
        |c: char|
            if c == ' ' {
                '_'
            } else {
                c
            },
    )
}

fn underscore(s: &str) -> (r: String)
    ensures
        r@ == underscored(s@),
{
    let all = text::chars_of(s);
    let mut out = String::new();
    let mut i: usize = 0;
    while i < all.len()
        invariant
            i <= all.len(),
            all@ == s@,
            out@ == underscored(s@.take(i as int)),
        decreases all.len() - i,
    {
        let c: char = all[i];
        out.push(
            if c == ' ' {
                '_'
            } else {
                c
            },
        );
        i += 1;
        assert(out@ == underscored(s@.take(i as int)));
    }
    assert(s@.take(i as int) == s@);
    out
}

/// What stands for one character in an escaped component.
pub open spec fn escaped_char(c: char) -> Seq<char> {
    if c == '%' {
        seq!['%', '2', '5']
    } else if c == '.' {
        seq!['%', '2', 'E']
    } else {
        seq![c]
    }
}

/// A component with `%` and `.` written as `%25` and `%2E`.
pub open spec fn escaped(s: Seq<char>) -> Seq<char>
    decreases s.len(),
{
    if s.len() == 0 {
        Seq::empty()
    } else {
        escaped(s.drop_last()) + escaped_char(s.last())
    }
}

/// A component with `%25` and `%2E` read, from the left, as `%` and `.`.
pub open spec fn unescaped(s: Seq<char>) -> Seq<char>
    decreases s.len(),
{
    if s.len() == 0 {
        Seq::empty()
    } else if s.len() >= 3 && s[0] == '%' && s[1] == '2' && (s[2] == '5' || s[2] == 'E') {
        seq![
            if s[2] == '5' {
                '%'
            } else {
                '.'
            },
        ] + unescaped(s.skip(3))
    } else {
        seq![s[0]] + unescaped(s.skip(1))
    }
}

/// Escapes the two characters that would be ambiguous inside a dot-joined id.
pub fn escape_component(s: &str) -> (r: String)
    ensures
        r@ == escaped(s@),
{
    let all = text::chars_of(s);
    let mut out = String::new();
    let mut i: usize = 0;
    while i < all.len()
        invariant
            i <= all.len(),
            all@ == s@,
            out@ == escaped(s@.take(i as int)),
        decreases all.len() - i,
    {
        let c: char = all[i];
        assert(s@.take(i + 1).drop_last() == s@.take(i as int));
        if c == '%' {
            out.push('%');
            out.push('2');
            out.push('5');
        } else if c == '.' {
            out.push('%');
            out.push('2');
            out.push('E');
        } else {
            out.push(c);
        }
        i += 1;
        assert(out@ == escaped(s@.take(i as int)));
    }
    assert(s@.take(i as int) == s@);
    out
}

/// Reads an escaped component back.
pub fn unescape_component(s: &str) -> (r: String)
    ensures
        r@ == unescaped(s@),
{
    let all = text::chars_of(s);
    let mut out = String::new();
    let mut i: usize = 0;
    assert(s@.skip(0) == s@);
    while i < all.len()
        invariant
            i <= all.len(),
            all@ == s@,
            out@ + unescaped(s@.skip(i as int)) == unescaped(s@),
        decreases all.len() - i,
    {
        let ghost before = out@;
        let ghost rest = s@.skip(i as int);
        let left: usize = all.len() - i;
        if left >= 3 && all[i] == '%' && all[i + 1] == '2' && (all[i + 2] == '5' || all[i + 2]
            == 'E') {
            let c: char = if all[i + 2] == '5' {
                '%'
            } else {
                '.'
            };
            out.push(c);
            assert(rest.skip(3) == s@.skip(i + 3));
            assert(before + (seq![c] + unescaped(rest.skip(3))) == before.push(c) + unescaped(
                rest.skip(3),
            ));
            i += 3;
        } else {
            let c: char = all[i];
            out.push(c);
            assert(rest.skip(1) == s@.skip(i + 1));
            assert(before + (seq![c] + unescaped(rest.skip(1))) == before.push(c) + unescaped(
                rest.skip(1),
            ));
            i += 1;
        }
    }
    assert(out@ + unescaped(s@.skip(i as int)) == out@);
    out
}

proof fn lemma_escaped_from_left(s: Seq<char>)
    requires
        s.len() > 0,
    ensures
        escaped(s) == escaped_char(s[0]) + escaped(s.skip(1)),
    decreases s.len(),
{
    if s.len() == 1 {
        assert(s.drop_last() == Seq::<char>::empty());
        assert(s.skip(1) == Seq::<char>::empty());
        assert(escaped(s.drop_last()) == Seq::<char>::empty());
        assert(escaped(s) == escaped_char(s[0]) + escaped(s.skip(1)));
    } else {
        lemma_escaped_from_left(s.drop_last());
        assert(s.drop_last().skip(1) == s.skip(1).drop_last());
        assert(escaped(s) == escaped_char(s[0]) + escaped(s.skip(1)));
    }
}

/// Escaping loses nothing: every component is read back as it was.
pub proof fn law_escape_reads_back(s: Seq<char>)
    ensures
        unescaped(escaped(s)) == s,
    decreases s.len(),
{
    if s.len() > 0 {
        law_escape_reads_back(s.skip(1));
        lemma_escaped_from_left(s);
        let e = escaped(s);
        let c = escaped_char(s[0]);
        assert(e.skip(c.len() as int) == escaped(s.skip(1)));
        assert(e[0] == c[0]);
        if c.len() == 3 {
            assert(e[1] == c[1] && e[2] == c[2]);
        }
        assert(s == seq![s[0]] + s.skip(1));
    }
}

/// An escaped component holds no dot.
pub proof fn law_escaped_has_no_dot(s: Seq<char>)
    ensures
        !escaped(s).contains('.'),
    decreases s.len(),
{
    if s.len() > 0 {
        law_escaped_has_no_dot(s.drop_last());
        let head = escaped(s.drop_last());
        let tail = escaped_char(s.last());
        if escaped(s).contains('.') {
            let i = escaped(s).index_of('.');
            if i < head.len() {
                assert(head[i] == '.');
            } else {
                assert(tail[i - head.len()] == '.');
            }
        }
    }
}

/// The five components of an id.
pub struct IdFields {
    pub event_class: Seq<char>,
    pub location: Seq<char>,
    pub direction: Seq<char>,
    pub window: Seq<char>,
    pub source: Seq<char>,
}

/// The components joined by dots.
pub open spec fn joined(f: IdFields) -> Seq<char> {
    (((f.event_class.push('.') + f.location).push('.') + f.direction).push('.') + f.window).push(
        '.',
    ) + f.source
}

/// The components of an id: four dot-free ones from the right, and whatever is left
/// of them, dots and all, as the event class.
pub open spec fn fields(id: Seq<char>) -> Option<IdFields> {
    let i4 = text::last_place(id, '.');
    let i3 = text::last_place(id.take(i4), '.');
    let i2 = text::last_place(id.take(i3), '.');
    let i1 = text::last_place(id.take(i2), '.');
    if i4 < 0 || i3 < 0 || i2 < 0 || i1 < 0 {
        None
    } else {
        Some(
            IdFields {
                event_class: id.take(i1),
                location: id.subrange(i1 + 1, i2),
                direction: id.subrange(i2 + 1, i3),
                window: id.subrange(i3 + 1, i4),
                source: id.skip(i4 + 1),
            },
        )
    }
}

/// Components are recovered from their join, whatever dots the event class holds.
pub proof fn law_fields_of_join(f: IdFields)
    requires
        !f.location.contains('.'),
        !f.direction.contains('.'),
        !f.window.contains('.'),
        !f.source.contains('.'),
    ensures
        fields(joined(f)) == Some(f),
{
    let a = f.event_class;
    let b = a.push('.') + f.location;
    let c = b.push('.') + f.direction;
    let d = c.push('.') + f.window;
    let e = d.push('.') + f.source;
    text::lemma_last_place_of_join(a, '.', f.location);
    text::lemma_last_place_of_join(b, '.', f.direction);
    text::lemma_last_place_of_join(c, '.', f.window);
    text::lemma_last_place_of_join(d, '.', f.source);
    assert(e.take(d.len() as int) == d);
    assert(e.take(c.len() as int) == c);
    assert(e.take(b.len() as int) == b);
    assert(e.take(a.len() as int) == a);
    assert(e.subrange(a.len() as int + 1, b.len() as int) == f.location);
    assert(e.subrange(b.len() as int + 1, c.len() as int) == f.direction);
    assert(e.subrange(c.len() as int + 1, d.len() as int) == f.window);
    assert(e.skip(d.len() as int + 1) == f.source);
}

impl CanonicalContractSpec {
    /// The location as it stands in an id, before escaping.
    pub open spec fn folded_location(&self) -> Seq<char> {
        underscored(lowercase(self.location@))
    }

    /// The components of the id.
    pub open spec fn id_fields(&self) -> IdFields {
        IdFields {
            event_class: self.event_class.0@,
            location: escaped(self.folded_location()),
            direction: self.direction.token_text(self.threshold as int),
            window: escaped(lowercase(self.resolution_window@)),
            source: escaped(lowercase(self.resolution_source@)),
        }
    }

    /// The key of the cluster.
    pub open spec fn cluster_text(&self) -> Seq<char> {
        let f = self.id_fields();
        (f.event_class.push('.') + f.location).push('.') + f.window
    }

    /// The canonical id, e.g. `wx.temp.chicago.gt_869.2026-08-12.nws_official`.
    pub fn to_id(&self) -> (r: CanonicalContractId)
        ensures
            r@ == joined(self.id_fields()),
    {
        let location = escape_component(
            underscore(to_lowercase(self.location.as_str()).as_str()).as_str(),
        );
        let direction_token = self.direction.token(self.threshold);
        let window = escape_component(to_lowercase(self.resolution_window.as_str()).as_str());
        let source = escape_component(to_lowercase(self.resolution_source.as_str()).as_str());
        let mut s = self.event_class.0.clone();
        s.push('.');
        s.append(location.as_str());
        s.push('.');
        s.append(direction_token.as_str());
        s.push('.');
        s.append(window.as_str());
        s.push('.');
        s.append(source.as_str());
        CanonicalContractId(s)
    }

    /// The key shared by risk-correlated contracts: same event class, place and
    /// window, whatever the threshold, direction or source.
    pub fn cluster_key(&self) -> (r: ClusterKey)
        ensures
            r.0@ == self.cluster_text(),
    {
        let location = escape_component(
            underscore(to_lowercase(self.location.as_str()).as_str()).as_str(),
        );
        let window = escape_component(to_lowercase(self.resolution_window.as_str()).as_str());
        let mut s = self.event_class.0.clone();
        s.push('.');
        s.append(location.as_str());
        s.push('.');
        s.append(window.as_str());
        ClusterKey(s)
    }
}

/// The identity of a canonical contract.
#[derive(Debug, PartialEq, Eq, Hash, PartialOrd, Ord)]
pub struct CanonicalContractId(pub String);

impl View for CanonicalContractId {
    type V = Seq<char>;

    open spec fn view(&self) -> Seq<char> {
        self.0@
    }
}

impl Clone for CanonicalContractId {
    fn clone(&self) -> (r: Self)
        ensures
            r == *self,
    {
        CanonicalContractId(self.0.clone())
    }
}

impl CanonicalContractId {
    /// Whether two ids are the same text.
    pub fn same(&self, other: &CanonicalContractId) -> (r: bool)
        ensures
            r == (self@ == other@),
    {
        self.0 == other.0
    }

    /// The id as text.
    pub fn to_text(&self) -> (r: String)
        ensures
            r@ == self@,
    {
        self.0.clone()
    }

    /// The five components, each as text: event class, location, direction token,
    /// window, source.
    pub fn rsplit_fields(&self) -> (r: Option<(String, String, String, String, String)>)
        ensures
            match r {
                Some((event_class, location, direction, window, source)) => fields(self@) == Some(
                    IdFields {
                        event_class: event_class@,
                        location: location@,
                        direction: direction@,
                        window: window@,
                        source: source@,
                    },
                ),
                None => fields(self@) is None,
            },
    {
        let all = text::chars_of(self.0.as_str());
        let s = all.as_slice();
        assert(s@.take(s.len() as int) == s@);
        let i4: usize = match text::find_last(s, s.len(), '.') {
            Some(i) => i,
            None => return None,
        };
        let i3: usize = match text::find_last(s, i4, '.') {
            Some(i) => i,
            None => return None,
        };
        let i2: usize = match text::find_last(s, i3, '.') {
            Some(i) => i,
            None => return None,
        };
        let i1: usize = match text::find_last(s, i2, '.') {
            Some(i) => i,
            None => return None,
        };
        let event_class = text::piece(s, 0, i1);
        let location = text::piece(s, i1 + 1, i2);
        let direction = text::piece(s, i2 + 1, i3);
        let window = text::piece(s, i3 + 1, i4);
        let source = text::piece(s, i4 + 1, s.len());
        assert(s@.subrange(0, i1 as int) == s@.take(i1 as int));
        assert(s@.subrange(i4 + 1, s.len() as int) == s@.skip(i4 + 1));
        Some((event_class, location, direction, window, source))
    }

    /// Direction and threshold of the id, if it holds them.
    pub open spec fn terms(id: Seq<char>) -> Option<(Direction, int)> {
        match fields(id) {
            Some(f) => Direction::token_meaning(f.direction),
            None => None,
        }
    }

    /// The direction the id was made of; `None` for a malformed id.
    pub fn direction(&self) -> (r: Option<Direction>)
        ensures
            r == (match CanonicalContractId::terms(self@) {
                Some((d, _)) => Some(d),
                None => None,
            }),
    {
        match self.rsplit_fields() {
            Some((_, _, direction, _, _)) => match Direction::parse_token(direction.as_str()) {
                Some((d, _)) => Some(d),
                None => None,
            },
            None => None,
        }
    }

    /// The lower threshold the id was made of; `None` for a malformed id.
    pub fn threshold(&self) -> (r: Option<i64>)
        ensures
            match r {
                Some(t) => CanonicalContractId::terms(self@) matches Some((_, n)) && n == t,
                None => CanonicalContractId::terms(self@) is None,
            },
    {
        match self.rsplit_fields() {
            Some((_, _, direction, _, _)) => match Direction::parse_token(direction.as_str()) {
                Some((_, t)) => Some(t),
                None => None,
            },
            None => None,
        }
    }

    /// The location, unescaped; `None` for a malformed id.
    pub fn location(&self) -> (r: Option<String>)
        ensures
            match r {
                Some(s) => fields(self@) matches Some(f) && s@ == unescaped(f.location),
                None => fields(self@) is None,
            },
    {
        match self.rsplit_fields() {
            Some((_, location, _, _, _)) => Some(unescape_component(location.as_str())),
            None => None,
        }
    }

    /// The resolution source, unescaped; `None` for a malformed id.
    pub fn resolution_source(&self) -> (r: Option<String>)
        ensures
            match r {
                Some(s) => fields(self@) matches Some(f) && s@ == unescaped(f.source),
                None => fields(self@) is None,
            },
    {
        match self.rsplit_fields() {
            Some((_, _, _, _, source)) => Some(unescape_component(source.as_str())),
            None => None,
        }
    }
}

/// The key of a cluster of correlated contracts.
#[derive(Debug, PartialEq, Eq, Hash)]
pub struct ClusterKey(pub String);

impl Clone for ClusterKey {
    fn clone(&self) -> (r: Self)
        ensures
            r == *self,
    {
        ClusterKey(self.0.clone())
    }
}

/// What an id says of the contract it was made of: its direction, its threshold, its
/// folded location and its folded source come back exactly.
pub proof fn law_id_reads_back(spec: CanonicalContractSpec)
    ensures
        fields(joined(spec.id_fields())) == Some(spec.id_fields()),
        CanonicalContractId::terms(joined(spec.id_fields())) == Some(
            (spec.direction, spec.threshold as int),
        ),
        unescaped(spec.id_fields().location) == spec.folded_location(),
        unescaped(spec.id_fields().source) == lowercase(spec.resolution_source@),
{
    law_escaped_has_no_dot(spec.folded_location());
    law_escaped_has_no_dot(lowercase(spec.resolution_window@));
    law_escaped_has_no_dot(lowercase(spec.resolution_source@));
    lemma_token_has_no_dot(spec.direction, spec.threshold as int);
    law_fields_of_join(spec.id_fields());
    law_token_reads_back(spec.direction, spec.threshold);
    law_escape_reads_back(spec.folded_location());
    law_escape_reads_back(lowercase(spec.resolution_source@));
}

/// Two contracts have one id exactly when they are one bet: same event class, same
/// folded location, same direction with its bounds, same folded window and source. A
/// dot in a free-text field never makes two different bets collide.
pub proof fn law_ids_collide_only_for_one_bet(a: CanonicalContractSpec, b: CanonicalContractSpec)
    ensures
        joined(a.id_fields()) == joined(b.id_fields()) <==> {
            &&& a.event_class.0@ == b.event_class.0@
            &&& a.folded_location() == b.folded_location()
            &&& a.direction == b.direction
            &&& a.threshold == b.threshold
            &&& lowercase(a.resolution_window@) == lowercase(b.resolution_window@)
            &&& lowercase(a.resolution_source@) == lowercase(b.resolution_source@)
        },
{
    law_id_reads_back(a);
    law_id_reads_back(b);
    law_escape_reads_back(lowercase(a.resolution_window@));
    law_escape_reads_back(lowercase(b.resolution_window@));
}

/// Two contracts share a cluster exactly when they have one event class, one folded location and
/// one folded window: threshold, direction and source do not matter, and nothing else merges.
pub proof fn law_cluster_ignores_terms(a: CanonicalContractSpec, b: CanonicalContractSpec)
    ensures
        a.cluster_text() == b.cluster_text() <==> {
            &&& a.event_class.0@ == b.event_class.0@
            &&& a.folded_location() == b.folded_location()
            &&& lowercase(a.resolution_window@) == lowercase(b.resolution_window@)
        },
{
    let f = a.id_fields();
    let g = b.id_fields();
    law_escaped_has_no_dot(a.folded_location());
    law_escaped_has_no_dot(b.folded_location());
    law_escaped_has_no_dot(lowercase(a.resolution_window@));
    law_escaped_has_no_dot(lowercase(b.resolution_window@));
    law_escape_reads_back(a.folded_location());
    law_escape_reads_back(b.folded_location());
    law_escape_reads_back(lowercase(a.resolution_window@));
    law_escape_reads_back(lowercase(b.resolution_window@));
    text::lemma_last_place_of_join(f.event_class.push('.') + f.location, '.', f.window);
    text::lemma_last_place_of_join(g.event_class.push('.') + g.location, '.', g.window);
    text::lemma_last_place_of_join(f.event_class, '.', f.location);
    text::lemma_last_place_of_join(g.event_class, '.', g.location);
}

} // verus!
