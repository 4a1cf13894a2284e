//! Folding the events of one `<enums>` scope into the table.
use vstd::prelude::*;

use crate::model::{opt_view, EnumKey, EnumValue, Enums, EnumsError, ErrorModel, Group};
use crate::number::{resolve_spec, resolve_value};

verus! {

/// One event of a tokenized registry, with the tag's attributes already
/// split into `(key, value)` pairs in the order they were written.
#[derive(Debug, Clone)]
pub enum XmlEvent {
    /// `<name attrs...>`
    StartTag { name: String, attrs: Vec<(String, String)> },
    /// `<name attrs.../>`
    EmptyTag { name: String, attrs: Vec<(String, String)> },
    /// `</name>`
    EndTag { name: String },
}

/// What the attributes of one entry give: its name, its value text, its API,
/// and whether it is tagged 64-bit.
pub type AttrModel = (Option<Seq<char>>, Option<Seq<char>>, Option<Seq<char>>, bool);

/// One attribute applied to what the earlier ones gave. A later attribute of
/// the same key replaces an earlier one; `alias` and `comment` change nothing.
pub open spec fn apply_attr(m: AttrModel, k: Seq<char>, v: Seq<char>) -> Result<AttrModel, ErrorModel> {
    if k == "name"@ {
        Ok((Some(v), m.1, m.2, m.3))
    } else if k == "value"@ {
        Ok((m.0, Some(v), m.2, m.3))
    } else if k == "alias"@ || k == "comment"@ {
        Ok(m)
    } else if k == "type"@ {
        Ok((m.0, m.1, m.2, v == "ull"@))
    } else if k == "api"@ {
        Ok((m.0, m.1, Some(v), m.3))
    } else {
        Err(ErrorModel::UnrecognizedAttribute(k))
    }
}

/// The attributes of one entry, read from first to last; the first unknown
/// key is an error.
pub open spec fn collect_attrs(a: Seq<(String, String)>) -> Result<AttrModel, ErrorModel>
    decreases a.len(),
{
    if a.len() == 0 {
        Ok((None, None, None, false))
    } else {
        match collect_attrs(a.drop_last()) {
            Err(e) => Err(e),
            Ok(m) => apply_attr(m, a.last().0@, a.last().1@),
        }
    }
}

/// What one entry does to a table: `Ok(Some(..))` adds a new key and value,
/// `Ok(None)` re-declares a key with the value it has.
pub open spec fn entry_step(
    a: Seq<(String, String)>,
    table: Map<(Seq<char>, Option<Seq<char>>), EnumValue>,
    is_bitmask: bool,
) -> Result<Option<((Seq<char>, Option<Seq<char>>), EnumValue)>, ErrorModel> {
    match collect_attrs(a) {
        Err(e) => Err(e),
        Ok(m) => {
            if m.0 is None {
                Err(ErrorModel::MissingAttribute("name"@))
            } else if m.1 is None {
                Err(ErrorModel::MissingAttribute("value"@))
            } else {
                match resolve_spec(m.1->0, m.3, is_bitmask) {
                    None => Err(ErrorModel::MalformedNumber(m.1->0)),
                    Some(v) => {
                        let k = (m.0->0, m.2);
                        if !table.contains_key(k) {
                            Ok(Some((k, v)))
                        } else if table[k] == v {
                            Ok(None)
                        } else {
                            Err(ErrorModel::ConflictingRedefinition(k, table[k], v))
                        }
                    },
                }
            }
        },
    }
}

/// A group after a name is added, when there is a group.
pub open spec fn group_add(g: Option<Set<Seq<char>>>, n: Seq<char>) -> Option<Set<Seq<char>>> {
    match g {
        Some(s) => Some(s.insert(n)),
        None => None,
    }
}

/// The outcome of folding the scope from event `pos` on: the result, the
/// position after the last event read, the table and the group.
pub open spec fn fold_scope(
    events: Seq<XmlEvent>,
    pos: nat,
    table: Map<(Seq<char>, Option<Seq<char>>), EnumValue>,
    group: Option<Set<Seq<char>>>,
    is_bitmask: bool,
) -> (Result<(), ErrorModel>, nat, Map<(Seq<char>, Option<Seq<char>>), EnumValue>, Option<Set<Seq<char>>>)
    decreases events.len() - pos,
{
    if pos >= events.len() {
        (Err(ErrorModel::UnexpectedEndOfInput), pos, table, group)
    } else {
        match events[pos as int] {
            XmlEvent::EndTag { name } => {
                if name@ == "enums"@ {
                    (Ok(()), pos + 1, table, group)
                } else {
                    (Err(ErrorModel::UnexpectedTag(pos)), pos + 1, table, group)
                }
            },
            XmlEvent::EmptyTag { name, attrs } => {
                if name@ == "enum"@ {
                    match entry_step(attrs@, table, is_bitmask) {
                        Err(e) => (Err(e), pos + 1, table, group),
                        Ok(None) => fold_scope(events, pos + 1, table, group, is_bitmask),
                        Ok(Some((k, v))) => fold_scope(
                            events,
                            pos + 1,
                            table.insert(k, v),
                            group_add(group, k.0),
                            is_bitmask,
                        ),
                    }
                } else if name@ == "unused"@ {
                    fold_scope(events, pos + 1, table, group, is_bitmask)
                } else {
                    (Err(ErrorModel::UnexpectedTag(pos)), pos + 1, table, group)
                }
            },
            XmlEvent::StartTag { .. } => (Err(ErrorModel::UnexpectedTag(pos)), pos + 1, table, group),
        }
    }
}

/// The set of names of an optional group.
pub open spec fn group_view(g: Option<Group>) -> Option<Set<Seq<char>>> {
    match g {
        Some(x) => Some(x@),
        None => None,
    }
}

/// An optional group is well formed.
pub open spec fn group_wf(g: Option<Group>) -> bool {
    match g {
        Some(x) => x.wf(),
        None => true,
    }
}

/// `s` holds exactly the characters of `lit`.
fn text_is(s: &str, lit: &str) -> (r: bool)
    ensures
        r == (s@ == lit@),
{
    let n = s.unicode_len();
    if n != lit.unicode_len() {
        return false;
    }
    let mut i: usize = 0;
    while i < n
        invariant
            n == s@.len(),
            n == lit@.len(),
            i <= n,
            forall|j: int| 0 <= j < i ==> s@[j] == lit@[j],
        decreases n - i,
    {
        if s.get_char(i) != lit.get_char(i) {
            return false;
        }
        i = i + 1;
    }
    assert(s@ =~= lit@);
    true
}

struct EntryAttrs {
    name: Option<String>,
    value: Option<String>,
    api: Option<String>,
    is_ull: bool,
}

impl EntryAttrs {
    spec fn model(&self) -> AttrModel {
        (opt_view(self.name), opt_view(self.value), opt_view(self.api), self.is_ull)
    }
}

pub(crate) proof fn lemma_collect_err(a: Seq<(String, String)>, i: int)
    requires
        0 <= i <= a.len(),
        collect_attrs(a.take(i)) is Err,
    ensures
        collect_attrs(a) == collect_attrs(a.take(i)),
    decreases a.len() - i,
{
    if i < a.len() {
        assert(a.take(i + 1).drop_last() =~= a.take(i));
        lemma_collect_err(a, i + 1);
    } else {
        assert(a.take(i) =~= a);
    }
}

fn read_attrs(attrs: &Vec<(String, String)>) -> (r: Result<EntryAttrs, EnumsError>)
    ensures
        r is Ok ==> collect_attrs(attrs@) == Ok::<AttrModel, ErrorModel>(r->Ok_0.model()),
        r is Err ==> collect_attrs(attrs@) == Err::<AttrModel, ErrorModel>(r->Err_0@),
{
    let mut e = EntryAttrs { name: None, value: None, api: None, is_ull: false };
    let mut i: usize = 0;
    assert(attrs@.take(0) =~= Seq::<(String, String)>::empty());
    while i < attrs.len()
        invariant
            i <= attrs@.len(),
            collect_attrs(attrs@.take(i as int)) == Ok::<AttrModel, ErrorModel>(e.model()),
        decreases attrs@.len() - i,
    {
        let k = &attrs[i].0;
        let v = &attrs[i].1;
        assert(attrs@.take(i + 1).drop_last() =~= attrs@.take(i as int));
        if text_is(k.as_str(), "name") {
            e.name = Some(v.clone());
        } else if text_is(k.as_str(), "value") {
            e.value = Some(v.clone());
        } else if text_is(k.as_str(), "alias") || text_is(k.as_str(), "comment") {
        } else if text_is(k.as_str(), "type") {
            e.is_ull = text_is(v.as_str(), "ull");
        } else if text_is(k.as_str(), "api") {
            e.api = Some(v.clone());
        } else {
            proof { lemma_collect_err(attrs@, i + 1); }
            return Err(EnumsError::UnrecognizedAttribute { key: k.clone() });
        }
        i = i + 1;
    }
    assert(attrs@.take(i as int) =~= attrs@);
    Ok(e)
}

fn process_entry(
    attrs: &Vec<(String, String)>,
    enums: &mut Enums,
    is_bitmask: bool,
    group: &mut Option<Group>,
) -> (r: Result<(), EnumsError>)
    requires
        old(enums).wf(),
        group_wf(*old(group)),
    ensures
        final(enums).wf(),
        group_wf(*final(group)),
        match entry_step(attrs@, old(enums)@, is_bitmask) {
            Err(err) => r is Err && r->Err_0@ == err && final(enums)@ == old(enums)@
                && group_view(*final(group)) == group_view(*old(group)),
            Ok(None) => r is Ok && final(enums)@ == old(enums)@
                && group_view(*final(group)) == group_view(*old(group)),
            Ok(Some(kv)) => r is Ok && final(enums)@ == old(enums)@.insert(kv.0, kv.1)
                && group_view(*final(group)) == group_add(group_view(*old(group)), kv.0.0),
        },
{
    let e = read_attrs(attrs)?;
    let name = match e.name {
        Some(n) => n,
        None => {
            return Err(EnumsError::MissingAttribute { key: String::from_str("name") });
        },
    };
    let value = match e.value {
        Some(v) => v,
        None => {
            return Err(EnumsError::MissingAttribute { key: String::from_str("value") });
        },
    };
    let val = match resolve_value(value.as_str(), e.is_ull, is_bitmask) {
        Some(v) => v,
        None => {
            return Err(EnumsError::MalformedNumber { value });
        },
    };
    let group_name = name.clone();
    let key = EnumKey { name, api: e.api };
    match enums.insert_checked(key, val) {
        Ok(true) => {
            match group {
                Some(g) => {
                    g.insert(group_name);
                },
                None => {},
            }
            Ok(())
        },
        Ok(false) => Ok(()),
        Err(err) => Err(err),
    }
}

/// Reads the events of one `<enums>` scope from position `pos` on, up to and
/// including its closing tag, and folds each entry into `enums`: a new key is
/// inserted, and its name is added to `group` when a group is given; a key
/// re-declared with the value it has changes nothing; `<unused>` markers are
/// passed over. Stops at the first error. On return `pos` is just past the
/// last event read.
pub fn pull_enums(
    events: &Vec<XmlEvent>,
    pos: &mut usize,
    enums: &mut Enums,
    is_bitmask: bool,
    group: &mut Option<Group>,
) -> (r: Result<(), EnumsError>)
    requires
        old(enums).wf(),
        group_wf(*old(group)),
    ensures
        final(enums).wf(),
        group_wf(*final(group)),
        ({
            let out = fold_scope(events@, *old(pos) as nat, old(enums)@, group_view(*old(group)), is_bitmask);
            &&& r is Ok <==> out.0 is Ok
            &&& r is Err ==> out.0 == Err::<(), ErrorModel>(r->Err_0@)
            &&& *final(pos) as nat == out.1
            &&& final(enums)@ == out.2
            &&& group_view(*final(group)) == out.3
        }),
{
    let ghost target = fold_scope(events@, *old(pos) as nat, old(enums)@, group_view(*old(group)), is_bitmask);
    let mut p: usize = *pos;
    if p >= events.len() {
        return Err(EnumsError::UnexpectedEndOfInput);
    }
    let mut res: Result<(), EnumsError> = Ok(());
    let mut done = false;
    while !done
        invariant
            p <= events@.len(),
            enums.wf(),
            group_wf(*group),
            !done ==> fold_scope(events@, p as nat, enums@, group_view(*group), is_bitmask) == target,
            done ==> {
                &&& res is Ok <==> target.0 is Ok
                &&& res is Err ==> target.0 == Err::<(), ErrorModel>(res->Err_0@)
                &&& p as nat == target.1
                &&& enums@ == target.2
                &&& group_view(*group) == target.3
            },
        decreases events@.len() - p, if done { 0int } else { 1int },
    {
        if p >= events.len() {
            res = Err(EnumsError::UnexpectedEndOfInput);
            done = true;
        } else {
            let i = p;
            p = p + 1;
            match &events[i] {
                XmlEvent::EndTag { name } => {
                    if text_is(name.as_str(), "enums") {
                        res = Ok(());
                    } else {
                        res = Err(EnumsError::UnexpectedTag { index: i });
                    }
                    done = true;
                },
                XmlEvent::EmptyTag { name, attrs } => {
                    if text_is(name.as_str(), "enum") {
                        match process_entry(attrs, enums, is_bitmask, group) {
                            Ok(()) => {},
                            Err(err) => {
                                res = Err(err);
                                done = true;
                            },
                        }
                    } else if text_is(name.as_str(), "unused") {
                    } else {
                        res = Err(EnumsError::UnexpectedTag { index: i });
                        done = true;
                    }
                },
                XmlEvent::StartTag { .. } => {
                    res = Err(EnumsError::UnexpectedTag { index: i });
                    done = true;
                },
            }
        }
    }
    *pos = p;
    res
}

} // verus!
