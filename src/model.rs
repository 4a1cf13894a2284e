//! Keys, values, the table of resolved constants and the group of names.
use vstd::prelude::*;

verus! {

/// The way to look up a constant: its name and the API it is restricted to
/// (`None` when the same definition holds in every API).
#[derive(Debug, Default, Clone, Hash)]
pub struct EnumKey {
    pub name: String,
    pub api: Option<String>,
}

/// The text of an optional string.
pub open spec fn opt_view(o: Option<String>) -> Option<Seq<char>> {
    match o {
        Some(s) => Some(s@),
        None => None,
    }
}

impl View for EnumKey {
    type V = (Seq<char>, Option<Seq<char>>);

    open spec fn view(&self) -> (Seq<char>, Option<Seq<char>>) {
        (self.name@, opt_view(self.api))
    }
}

fn copy_opt(o: &Option<String>) -> (r: Option<String>)
    ensures
        opt_view(r) == opt_view(*o),
{
    match o {
        Some(s) => Some(s.clone()),
        None => None,
    }
}

fn opt_eq(a: &Option<String>, b: &Option<String>) -> (r: bool)
    ensures
        r == (opt_view(*a) == opt_view(*b)),
{
    match a {
        Some(x) => match b {
            Some(y) => {
                let same = *x == *y;
                proof {
                    if same {
                        assert(opt_view(*a) == opt_view(*b));
                    } else {
                        assert(x@ != y@);
                    }
                }
                same
            },
            None => false,
        },
        None => b.is_none(),
    }
}

impl EnumKey {
    /// A key with the same name and API.
    pub fn duplicate(&self) -> (r: EnumKey)
        ensures
            r@ == self@,
    {
        EnumKey { name: self.name.clone(), api: copy_opt(&self.api) }
    }
}

impl PartialEq for EnumKey {
    fn eq(&self, o: &EnumKey) -> (r: bool) {
        self.name == o.name && opt_eq(&self.api, &o.api)
    }
}

impl vstd::std_specs::cmp::PartialEqSpecImpl for EnumKey {
    open spec fn obeys_eq_spec() -> bool {
        true
    }

    open spec fn eq_spec(&self, o: &EnumKey) -> bool {
        self@ == o@
    }
}

impl Eq for EnumKey {}

/// The value that a constant name takes.
#[derive(Debug, Clone, Copy, PartialEq, Eq, Structural, Hash)]
pub enum EnumValue {
    /// An ordinary enumerant (`GLenum`).
    Enum(u32),
    /// A flag value (`GLbitfield`).
    Bitmask(u32),
    /// A value tagged as 64-bit in the registry.
    ULL(u64),
}

/// What can go wrong while folding a scope or rendering an entry.
#[derive(Debug, Clone)]
pub enum EnumsError {
    /// The value text does not parse in the numeric format that applies.
    MalformedNumber { value: String },
    /// An entry carries an attribute outside the known set.
    UnrecognizedAttribute { key: String },
    /// An entry lacks its `name` or its `value`.
    MissingAttribute { key: String },
    /// A key already in the table meets a different value.
    ConflictingRedefinition { key: EnumKey, old: EnumValue, new: EnumValue },
    /// The scope holds a tag other than an entry, an unused marker or its end;
    /// `index` is the position of that event.
    UnexpectedTag { index: usize },
    /// The events ran out before the scope was closed.
    UnexpectedEndOfInput,
    /// A name is shorter than the prefix that was to be stripped from it.
    NameTooShortForPrefix { name: String },
}

/// The mathematical form of an [`EnumsError`].
pub enum ErrorModel {
    MalformedNumber(Seq<char>),
    UnrecognizedAttribute(Seq<char>),
    MissingAttribute(Seq<char>),
    ConflictingRedefinition((Seq<char>, Option<Seq<char>>), EnumValue, EnumValue),
    UnexpectedTag(nat),
    UnexpectedEndOfInput,
    NameTooShortForPrefix(Seq<char>),
}

impl View for EnumsError {
    type V = ErrorModel;

    open spec fn view(&self) -> ErrorModel {
        match self {
            EnumsError::MalformedNumber { value } => ErrorModel::MalformedNumber(value@),
            EnumsError::UnrecognizedAttribute { key } => ErrorModel::UnrecognizedAttribute(key@),
            EnumsError::MissingAttribute { key } => ErrorModel::MissingAttribute(key@),
            EnumsError::ConflictingRedefinition { key, old, new } =>
                ErrorModel::ConflictingRedefinition(key@, *old, *new),
            EnumsError::UnexpectedTag { index } => ErrorModel::UnexpectedTag(*index as nat),
            EnumsError::UnexpectedEndOfInput => ErrorModel::UnexpectedEndOfInput,
            EnumsError::NameTooShortForPrefix { name } => ErrorModel::NameTooShortForPrefix(name@),
        }
    }
}

/// Checked insertion into a table: the result and the table after it.
pub open spec fn insert_spec(
    t: Map<(Seq<char>, Option<Seq<char>>), EnumValue>,
    k: (Seq<char>, Option<Seq<char>>),
    v: EnumValue,
) -> (Result<bool, ErrorModel>, Map<(Seq<char>, Option<Seq<char>>), EnumValue>) {
    if !t.contains_key(k) {
        (Ok(true), t.insert(k, v))
    } else if t[k] == v {
        (Ok(false), t)
    } else {
        (Err(ErrorModel::ConflictingRedefinition(k, t[k], v)), t)
    }
}

/// The map that a list of entries with distinct keys denotes.
pub open spec fn entries_map(s: Seq<(EnumKey, EnumValue)>) -> Map<(Seq<char>, Option<Seq<char>>), EnumValue>
    decreases s.len(),
{
    if s.len() == 0 {
        Map::empty()
    } else {
        entries_map(s.drop_last()).insert(s.last().0@, s.last().1)
    }
}

/// No two entries share a key.
pub open spec fn distinct_keys(s: Seq<(EnumKey, EnumValue)>) -> bool {
    forall|i: int, j: int| 0 <= i < j < s.len() ==> (#[trigger] s[i]).0@ != (#[trigger] s[j]).0@
}

proof fn lemma_entry_in_map(s: Seq<(EnumKey, EnumValue)>, i: int)
    requires
        distinct_keys(s),
        0 <= i < s.len(),
    ensures
        entries_map(s).contains_key(s[i].0@),
        entries_map(s)[s[i].0@] == s[i].1,
    decreases s.len(),
{
    if i < s.len() - 1 {
        assert(s.drop_last()[i] == s[i]);
        lemma_entry_in_map(s.drop_last(), i);
        assert(s[i].0@ != s[s.len() - 1].0@);
    }
}

proof fn lemma_absent_from_map(s: Seq<(EnumKey, EnumValue)>, k: (Seq<char>, Option<Seq<char>>))
    requires
        forall|i: int| 0 <= i < s.len() ==> (#[trigger] s[i]).0@ != k,
    ensures
        !entries_map(s).contains_key(k),
    decreases s.len(),
{
    if s.len() > 0 {
        assert forall|i: int| 0 <= i < s.drop_last().len() implies (#[trigger] s.drop_last()[i]).0@ != k by {
            assert(s.drop_last()[i] == s[i]);
        }
        lemma_absent_from_map(s.drop_last(), k);
    }
}

/// The table of resolved constants. A key, once in it, keeps its value.
#[derive(Debug, Default, Clone)]
pub struct Enums(pub(crate) Vec<(EnumKey, EnumValue)>);

impl Enums {
    /// The table as a map from key to value.
    pub closed spec fn view(&self) -> Map<(Seq<char>, Option<Seq<char>>), EnumValue> {
        entries_map(self.0@)
    }

    /// Each key is held once.
    pub closed spec fn wf(&self) -> bool {
        distinct_keys(self.0@)
    }

    /// An empty table.
    pub fn new() -> (r: Enums)
        ensures
            r.wf(),
            r@ == Map::<(Seq<char>, Option<Seq<char>>), EnumValue>::empty(),
    {
        Enums(Vec::new())
    }

    /// The number of keys in the table.
    pub fn len(&self) -> (r: usize)
        requires
            self.wf(),
        ensures
            r == self@.len(),
    {
        proof { self.lemma_len(); }
        self.0.len()
    }

    proof fn lemma_len(&self)
        requires
            self.wf(),
        ensures
            self@.len() == self.0@.len(),
            self@.dom().finite(),
    {
        lemma_map_len(self.0@);
    }

    /// The key and value at position `i` of the table's listing.
    pub fn entry(&self, i: usize) -> (r: (&EnumKey, &EnumValue))
        requires
            self.wf(),
            i < self@.len(),
        ensures
            self@.contains_key(r.0@),
            self@[r.0@] == *r.1,
    {
        proof {
            self.lemma_len();
            lemma_entry_in_map(self.0@, i as int);
        }
        (&self.0[i].0, &self.0[i].1)
    }

    /// The value stored under `key`, if any.
    pub fn get(&self, key: &EnumKey) -> (r: Option<EnumValue>)
        requires
            self.wf(),
        ensures
            r is Some <==> self@.contains_key(key@),
            r is Some ==> r->0 == self@[key@],
    {
        let mut i: usize = 0;
        while i < self.0.len()
            invariant
                i <= self.0@.len(),
                self.wf(),
                forall|j: int| 0 <= j < i ==> (#[trigger] self.0@[j]).0@ != key@,
            decreases self.0@.len() - i,
        {
            if self.0[i].0 == *key {
                proof { lemma_entry_in_map(self.0@, i as int); }
                return Some(self.0[i].1);
            }
            i = i + 1;
        }
        proof { lemma_absent_from_map(self.0@, key@); }
        None
    }

    /// Inserts `value` under `key` unless the key is present. A key already
    /// present with the same value leaves the table as it is and gives
    /// `Ok(false)`; with another value it gives `ConflictingRedefinition` and
    /// the table keeps the value it had. A new key gives `Ok(true)`.
    pub fn insert_checked(&mut self, key: EnumKey, value: EnumValue) -> (r: Result<bool, EnumsError>)
        requires
            old(self).wf(),
        ensures
            final(self).wf(),
            final(self)@ == insert_spec(old(self)@, key@, value).1,
            r is Ok <==> insert_spec(old(self)@, key@, value).0 is Ok,
            r is Ok ==> insert_spec(old(self)@, key@, value).0 == Ok::<bool, ErrorModel>(r->Ok_0),
            r is Err ==> insert_spec(old(self)@, key@, value).0 == Err::<bool, ErrorModel>(r->Err_0@),
    {
        match self.get(&key) {
            Some(prev) => {
                if prev == value {
                    Ok(false)
                } else {
                    Err(EnumsError::ConflictingRedefinition { key, old: prev, new: value })
                }
            },
            None => {
                let ghost k = key@;
                proof {
                    assert forall|i: int| 0 <= i < self.0@.len() implies (#[trigger] self.0@[i]).0@ != k by {
                        if self.0@[i].0@ == k {
                            lemma_entry_in_map(self.0@, i);
                        }
                    }
                }
                self.0.push((key, value));
                proof {
                    assert(self.0@.drop_last() == old(self).0@);
                }
                Ok(true)
            },
        }
    }
}

proof fn lemma_map_len(s: Seq<(EnumKey, EnumValue)>)
    requires
        distinct_keys(s),
    ensures
        entries_map(s).len() == s.len(),
        entries_map(s).dom().finite(),
    decreases s.len(),
{
    if s.len() > 0 {
        let t = s.drop_last();
        assert(distinct_keys(t)) by {
            assert forall|i: int, j: int| 0 <= i < j < t.len() implies (#[trigger] t[i]).0@ != (#[trigger] t[j]).0@ by {
                assert(t[i] == s[i] && t[j] == s[j]);
            }
        }
        lemma_map_len(t);
        assert forall|i: int| 0 <= i < t.len() implies (#[trigger] t[i]).0@ != s.last().0@ by {
            assert(t[i] == s[i]);
        }
        lemma_absent_from_map(t, s.last().0@);
    }
}

/// The names of one group of constants, each held once.
#[derive(Debug, Default, Clone)]
pub struct Group {
    names: Vec<String>,
}

/// The texts of a list of names.
pub open spec fn names_view(s: Seq<String>) -> Seq<Seq<char>> {
    s.map_values(|n: String| n@)
}

impl Group {
    /// The group as a set of names.
    pub closed spec fn view(&self) -> Set<Seq<char>> {
        names_view(self.names@).to_set()
    }

    /// Each name is held once.
    pub closed spec fn wf(&self) -> bool {
        names_view(self.names@).no_duplicates()
    }

    /// An empty group.
    pub fn new() -> (r: Group)
        ensures
            r.wf(),
            r@ == Set::<Seq<char>>::empty(),
    {
        let r = Group { names: Vec::new() };
        assert(r@ =~= Set::<Seq<char>>::empty());
        r
    }

    /// Whether `name` is in the group.
    pub fn contains(&self, name: &String) -> (r: bool)
        ensures
            r == self@.contains(name@),
    {
        let mut i: usize = 0;
        while i < self.names.len()
            invariant
                i <= self.names@.len(),
                forall|j: int| 0 <= j < i ==> (#[trigger] self.names@[j])@ != name@,
            decreases self.names@.len() - i,
        {
            if self.names[i] == *name {
                assert(names_view(self.names@)[i as int] == name@);
                return true;
            }
            i = i + 1;
        }
        assert(!names_view(self.names@).contains(name@)) by {
            if names_view(self.names@).contains(name@) {
                let j = choose|j: int| 0 <= j < names_view(self.names@).len() && names_view(self.names@)[j] == name@;
                assert(self.names@[j]@ == name@);
            }
        }
        false
    }

    /// Adds `name`; gives whether it was absent before.
    pub fn insert(&mut self, name: String) -> (r: bool)
        requires
            old(self).wf(),
        ensures
            final(self).wf(),
            final(self)@ == old(self)@.insert(name@),
            r == !old(self)@.contains(name@),
    {
        if self.contains(&name) {
            assert(self@.insert(name@) =~= self@);
            false
        } else {
            let ghost n = name@;
            self.names.push(name);
            proof {
                let o = names_view(old(self).names@);
                assert(names_view(self.names@) =~= o.push(n));
                assert forall|a: Seq<char>| o.push(n).contains(a) <==> (o.contains(a) || a == n) by {
                    if o.push(n).contains(a) {
                        let j = choose|j: int| 0 <= j < o.push(n).len() && o.push(n)[j] == a;
                        if j < o.len() {
                            assert(o[j] == a);
                        }
                    }
                    if o.contains(a) {
                        let j = choose|j: int| 0 <= j < o.len() && o[j] == a;
                        assert(o.push(n)[j] == a);
                    }
                    if a == n {
                        assert(o.push(n)[o.len() as int] == a);
                    }
                }
                assert(self@ =~= old(self)@.insert(n));
                assert forall|i: int, j: int| 0 <= i < j < o.push(n).len() implies
                    o.push(n)[i] != o.push(n)[j] by {
                    if j == o.len() {
                        assert(o.contains(o[i]));
                    }
                }
            }
            true
        }
    }

    /// The number of names in the group.
    pub fn len(&self) -> (r: usize)
        requires
            self.wf(),
        ensures
            r == self@.len(),
    {
        proof { names_view(self.names@).unique_seq_to_set(); }
        self.names.len()
    }
}

} // verus!
