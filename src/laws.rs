//! Properties that hold of resolution, insertion and folding as a whole.
use vstd::prelude::*;

use crate::model::{insert_spec, EnumValue, ErrorModel};
use crate::number::{all_digits, digit_value, digits_value, has_char, resolve_spec, tag32, unsigned_value};
use crate::scope::{collect_attrs, entry_step, fold_scope, lemma_collect_err, XmlEvent};

verus! {

proof fn lemma_decimal_has_no(v: Seq<char>, c: char)
    requires
        all_digits(v, 10),
        !('0' <= c && c <= '9'),
    ensures
        !has_char(v, c),
{
    if has_char(v, c) {
        let i = choose|i: int| 0 <= i < v.len() && v[i] == c;
        assert(digit_value(v[i], 10) is Some);
    }
}

/// Decimal text without sign or hex marker resolves to an `Enum` with its
/// base-10 value outside a flag scope, and to a `Bitmask` of the same bits
/// inside one.
pub proof fn law_decimal_resolves(v: Seq<char>)
    requires
        v.len() > 0,
        all_digits(v, 10),
        digits_value(v, 10) <= 0xFFFF_FFFF,
    ensures
        resolve_spec(v, false, false) == Some(EnumValue::Enum(digits_value(v, 10) as u32)),
        resolve_spec(v, false, true) == Some(EnumValue::Bitmask(digits_value(v, 10) as u32)),
{
    lemma_decimal_has_no(v, 'x');
    lemma_decimal_has_no(v, 'X');
    lemma_decimal_has_no(v, '-');
    assert(digit_value(v[0], 10) is Some);
    assert(unsigned_value(v, 10, 0xFFFF_FFFF) == Some(digits_value(v, 10)));
}

/// `0x` followed by hex digits of at most 32 bits resolves to those digits
/// read in base 16, as a `Bitmask` in a flag scope and an `Enum` elsewhere.
pub proof fn law_hex_resolves(d: Seq<char>, is_bitmask: bool)
    requires
        d.len() > 0,
        all_digits(d, 16),
        digits_value(d, 16) <= 0xFFFF_FFFF,
    ensures
        resolve_spec("0x"@ + d, false, is_bitmask) == Some(tag32(digits_value(d, 16), is_bitmask)),
{
    reveal_strlit("0x");
    let v = "0x"@ + d;
    assert(v[1] == 'x');
    assert(has_char(v, 'x'));
    assert(v.skip(2) =~= d);
    assert(digit_value(d[0], 16) is Some);
    assert(unsigned_value(d, 16, 0xFFFF_FFFF) == Some(digits_value(d, 16)));
}

/// Text tagged 64-bit, two prefix characters then hex digits, resolves to
/// those digits read in base 16, whatever the scope.
pub proof fn law_wide_resolves(prefix: Seq<char>, d: Seq<char>, is_bitmask: bool)
    requires
        prefix.len() == 2,
        d.len() > 0,
        all_digits(d, 16),
        digits_value(d, 16) <= 0xFFFF_FFFF_FFFF_FFFF,
    ensures
        resolve_spec(prefix + d, true, is_bitmask) == Some(EnumValue::ULL(digits_value(d, 16) as u64)),
{
    assert((prefix + d).skip(2) =~= d);
    assert(digit_value(d[0], 16) is Some);
    assert(unsigned_value(d, 16, 0xFFFF_FFFF_FFFF_FFFF) == Some(digits_value(d, 16)));
}

/// Inserting a key and value that were just inserted, or that were already
/// there, succeeds again and changes nothing.
pub proof fn law_insert_idempotent(
    t: Map<(Seq<char>, Option<Seq<char>>), EnumValue>,
    k: (Seq<char>, Option<Seq<char>>),
    v: EnumValue,
)
    requires
        insert_spec(t, k, v).0 is Ok,
    ensures
        insert_spec(insert_spec(t, k, v).1, k, v) == (Ok::<bool, ErrorModel>(false), insert_spec(t, k, v).1),
{
}

/// After a key is given value `a`, giving it another value `b` is a
/// conflict that carries both values, and the table keeps `a`.
pub proof fn law_insert_conflict(
    t: Map<(Seq<char>, Option<Seq<char>>), EnumValue>,
    k: (Seq<char>, Option<Seq<char>>),
    a: EnumValue,
    b: EnumValue,
)
    requires
        insert_spec(t, k, a).0 is Ok,
        a != b,
    ensures
        ({
            let t1 = insert_spec(t, k, a).1;
            &&& insert_spec(t1, k, b) == (
                Err::<bool, ErrorModel>(ErrorModel::ConflictingRedefinition(k, a, b)),
                t1,
            )
            &&& t1[k] == a
        }),
{
}

/// The names of the keys that `after` holds and `before` does not.
pub open spec fn new_names(
    before: Map<(Seq<char>, Option<Seq<char>>), EnumValue>,
    after: Map<(Seq<char>, Option<Seq<char>>), EnumValue>,
) -> Set<Seq<char>> {
    Set::new(|n: Seq<char>| exists|k: (Seq<char>, Option<Seq<char>>)| #[trigger] after.contains_key(k) && !before.contains_key(k) && k.0 == n)
}

/// Folding a scope keeps every key of the table with its value, and the
/// group, when there is one, gains exactly the names of the keys that the
/// fold added, whether the fold ends well or with an error; with no group
/// there is still none.
pub proof fn law_fold_group(
    events: Seq<XmlEvent>,
    pos: nat,
    t: Map<(Seq<char>, Option<Seq<char>>), EnumValue>,
    g: Option<Set<Seq<char>>>,
    is_bitmask: bool,
)
    ensures
        ({
            let out = fold_scope(events, pos, t, g, is_bitmask);
            &&& forall|k| #[trigger] t.contains_key(k) ==> out.2.contains_key(k) && out.2[k] == t[k]
            &&& out.3 == match g {
                Some(s) => Some(s.union(new_names(t, out.2))),
                None => None::<Set<Seq<char>>>,
            }
        }),
    decreases events.len() - pos,
{
    let out = fold_scope(events, pos, t, g, is_bitmask);
    if pos >= events.len() {
        assert(new_names(t, out.2) =~= Set::empty());
    } else {
        match events[pos as int] {
            XmlEvent::EmptyTag { name, attrs } => {
                if name@ == "enum"@ {
                    match entry_step(attrs@, t, is_bitmask) {
                        Ok(Some((k, v))) => {
                            let t1 = t.insert(k, v);
                            let g1 = match g { Some(s) => Some(s.insert(k.0)), None => None::<Set<Seq<char>>> };
                            law_fold_group(events, pos + 1, t1, g1, is_bitmask);
                            assert(out == fold_scope(events, pos + 1, t1, g1, is_bitmask));
                            assert(!t.contains_key(k));
                            assert(t1.contains_key(k));
                            assert(out.2.contains_key(k));
                            assert forall|kk| #[trigger] t.contains_key(kk) implies out.2.contains_key(kk) && out.2[kk] == t[kk] by {
                                assert(t1.contains_key(kk) && t1[kk] == t[kk]);
                            }
                            if let Some(s) = g {
                                assert(s.insert(k.0).union(new_names(t1, out.2)) =~= s.union(new_names(t, out.2))) by {
                                    assert(new_names(t, out.2).contains(k.0));
                                    assert forall|n: Seq<char>| new_names(t1, out.2).contains(n) implies new_names(t, out.2).contains(n) by {
                                        let kk = choose|kk: (Seq<char>, Option<Seq<char>>)| #[trigger] out.2.contains_key(kk) && !t1.contains_key(kk) && kk.0 == n;
                                        assert(!t.contains_key(kk));
                                    }
                                    assert forall|n: Seq<char>| #[trigger] new_names(t, out.2).contains(n) && n != k.0 implies new_names(t1, out.2).contains(n) by {
                                        let kk = choose|kk: (Seq<char>, Option<Seq<char>>)| #[trigger] out.2.contains_key(kk) && !t.contains_key(kk) && kk.0 == n;
                                        assert(!t1.contains_key(kk));
                                    }
                                }
                            }
                        },
                        Ok(None) => {
                            law_fold_group(events, pos + 1, t, g, is_bitmask);
                        },
                        Err(_) => {
                            assert(new_names(t, out.2) =~= Set::empty());
                        },
                    }
                } else if name@ == "unused"@ {
                    law_fold_group(events, pos + 1, t, g, is_bitmask);
                } else {
                    assert(new_names(t, out.2) =~= Set::empty());
                }
            },
            _ => {
                assert(new_names(t, out.2) =~= Set::empty());
            },
        }
    }
}

/// An `<unused>` marker changes neither the table nor the group: folding
/// from it is folding from the event after it.
pub proof fn law_unused_is_inert(
    events: Seq<XmlEvent>,
    pos: nat,
    t: Map<(Seq<char>, Option<Seq<char>>), EnumValue>,
    g: Option<Set<Seq<char>>>,
    is_bitmask: bool,
)
    requires
        pos < events.len(),
        events[pos as int] matches XmlEvent::EmptyTag { name, .. } && name@ == "unused"@,
    ensures
        fold_scope(events, pos, t, g, is_bitmask) == fold_scope(events, pos + 1, t, g, is_bitmask),
{
    reveal_strlit("unused");
    reveal_strlit("enum");
    if let XmlEvent::EmptyTag { name, .. } = events[pos as int] {
        assert(name@.len() != "enum"@.len());
    }
}

/// The keys that an entry may carry.
pub open spec fn known_attr(k: Seq<char>) -> bool {
    k == "name"@ || k == "value"@ || k == "alias"@ || k == "comment"@ || k == "type"@ || k == "api"@
}

/// An entry whose first unknown attribute key is `attrs[j]` ends the fold
/// with `UnrecognizedAttribute` for that key, and leaves the table and the
/// group as they were before the entry.
pub proof fn law_unrecognized_attribute(
    events: Seq<XmlEvent>,
    pos: nat,
    t: Map<(Seq<char>, Option<Seq<char>>), EnumValue>,
    g: Option<Set<Seq<char>>>,
    is_bitmask: bool,
    j: int,
)
    requires
        pos < events.len(),
        events[pos as int] matches XmlEvent::EmptyTag { name, attrs } && name@ == "enum"@
            && 0 <= j < attrs@.len()
            && !known_attr(attrs@[j].0@)
            && forall|i: int| 0 <= i < j ==> known_attr((#[trigger] attrs@[i]).0@),
    ensures
        ({
            let k = match events[pos as int] {
                XmlEvent::EmptyTag { attrs, .. } => attrs@[j].0@,
                _ => Seq::empty(),
            };
            fold_scope(events, pos, t, g, is_bitmask) == (
                Err::<(), ErrorModel>(ErrorModel::UnrecognizedAttribute(k)),
                pos + 1,
                t,
                g,
            )
        }),
{
    if let XmlEvent::EmptyTag { name, attrs } = events[pos as int] {
        lemma_known_prefix(attrs@, j);
        let a = attrs@;
        assert(a.take(j + 1).drop_last() =~= a.take(j));
        lemma_collect_err(a, j + 1);
    }
}

proof fn lemma_known_prefix(a: Seq<(String, String)>, j: int)
    requires
        0 <= j <= a.len(),
        forall|i: int| 0 <= i < j ==> known_attr((#[trigger] a[i]).0@),
    ensures
        collect_attrs(a.take(j)) is Ok,
    decreases j,
{
    if j > 0 {
        assert(a.take(j).drop_last() =~= a.take(j - 1));
        lemma_known_prefix(a, j - 1);
        assert(known_attr(a[j - 1].0@));
    }
}
} // verus!
