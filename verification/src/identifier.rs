use vstd::prelude::*;
use vstd::std_specs::iter::IteratorSpec;
use crate::text::{str_le, lemma_str_le_total, lemma_str_le_antisymmetric,
    lemma_str_le_transitive, string_le};

verus! {

/// A reference to a classification or project: either by its unique
/// 128-bit id or by its display name.
#[derive(Debug, Clone, PartialEq, Eq)]
pub enum Identifier {
    Uuid(u128),
    ByName(String),
}

/// Mathematical value of an `Identifier`.
pub enum IdentifierView {
    Uuid(u128),
    ByName(Seq<char>),
}

impl View for Identifier {
    type V = IdentifierView;

    open spec fn view(&self) -> IdentifierView {
        match self {
            Identifier::Uuid(id) => IdentifierView::Uuid(*id),
            Identifier::ByName(name) => IdentifierView::ByName(name@),
        }
    }
}

impl Identifier {
    /// An exact copy of the identifier.
    pub fn duplicate(&self) -> (r: Identifier)
        ensures
            r@ == self@,
    {
        match self {
            Identifier::Uuid(id) => Identifier::Uuid(*id),
            Identifier::ByName(name) => Identifier::ByName(name.clone()),
        }
    }
}

/// Order on identifier values: ids before names, ids by value, names
/// lexicographically.
pub open spec fn idv_le(a: IdentifierView, b: IdentifierView) -> bool {
    match (a, b) {
        (IdentifierView::Uuid(x), IdentifierView::Uuid(y)) => x <= y,
        (IdentifierView::Uuid(_), IdentifierView::ByName(_)) => true,
        (IdentifierView::ByName(_), IdentifierView::Uuid(_)) => false,
        (IdentifierView::ByName(x), IdentifierView::ByName(y)) => str_le(x, y),
    }
}

/// Strict version of `idv_le`.
pub open spec fn idv_lt(a: IdentifierView, b: IdentifierView) -> bool {
    idv_le(a, b) && a != b
}

pub proof fn lemma_idv_le_total(a: IdentifierView, b: IdentifierView)
    ensures
        idv_le(a, b) || idv_le(b, a),
{
    match (a, b) {
        (IdentifierView::ByName(x), IdentifierView::ByName(y)) => lemma_str_le_total(x, y),
        _ => (),
    }
}

pub proof fn lemma_idv_le_antisymmetric(a: IdentifierView, b: IdentifierView)
    requires
        idv_le(a, b),
        idv_le(b, a),
    ensures
        a == b,
{
    match (a, b) {
        (IdentifierView::ByName(x), IdentifierView::ByName(y)) => lemma_str_le_antisymmetric(x, y),
        _ => (),
    }
}

pub proof fn lemma_idv_le_transitive(a: IdentifierView, b: IdentifierView, c: IdentifierView)
    requires
        idv_le(a, b),
        idv_le(b, c),
    ensures
        idv_le(a, c),
{
    match (a, b, c) {
        (IdentifierView::ByName(x), IdentifierView::ByName(y), IdentifierView::ByName(z)) =>
            lemma_str_le_transitive(x, y, z),
        _ => (),
    }
}

/// Decide `idv_le` on concrete identifiers.
pub fn identifier_le(a: &Identifier, b: &Identifier) -> (r: bool)
    ensures
        r == idv_le(a@, b@),
{
    match (a, b) {
        (Identifier::Uuid(x), Identifier::Uuid(y)) => *x <= *y,
        (Identifier::Uuid(_), Identifier::ByName(_)) => true,
        (Identifier::ByName(_), Identifier::Uuid(_)) => false,
        (Identifier::ByName(x), Identifier::ByName(y)) => string_le(x, y),
    }
}

/// Decide equality of identifier values.
pub fn identifier_eq(a: &Identifier, b: &Identifier) -> (r: bool)
    ensures
        r == (a@ == b@),
{
    match (a, b) {
        (Identifier::Uuid(x), Identifier::Uuid(y)) => *x == *y,
        (Identifier::ByName(x), Identifier::ByName(y)) => *x == *y,
        _ => false,
    }
}

/// A strictly ascending sequence of identifiers: sorted by value, with no
/// duplicate values.
pub open spec fn ids_sorted_distinct(v: Seq<Identifier>) -> bool {
    forall|i: int, j: int| 0 <= i < j < v.len() ==> idv_lt(#[trigger] v[i]@, #[trigger] v[j]@)
}

/// The set of identifier values held by a sequence.
pub open spec fn id_view_set(v: Seq<Identifier>) -> Set<IdentifierView> {
    Set::new(|x: IdentifierView| exists|i: int| 0 <= i < v.len() && v[i]@ == x)
}

/// A strictly ascending sequence of identifier values.
pub open spec fn idvs_sorted_distinct(s: Seq<IdentifierView>) -> bool {
    forall|i: int, j: int| 0 <= i < j < s.len() ==> idv_lt(#[trigger] s[i], #[trigger] s[j])
}

/// The set of identifier values a sequence holds.
pub open spec fn idv_set(s: Seq<IdentifierView>) -> Set<IdentifierView> {
    Set::new(|x: IdentifierView| s.contains(x))
}

/// Position at which `s` would be inserted to keep `v` sorted.
fn id_lower_bound(v: &Vec<Identifier>, s: &Identifier) -> (i: usize)
    requires
        ids_sorted_distinct(v@),
    ensures
        0 <= i <= v@.len(),
        forall|k: int| 0 <= k < i ==> idv_lt(#[trigger] v@[k]@, s@),
        i < v@.len() ==> idv_le(s@, v@[i as int]@),
{
    let mut i: usize = 0;
    while i < v.len()
        invariant
            0 <= i <= v@.len(),
            ids_sorted_distinct(v@),
            forall|k: int| 0 <= k < i ==> idv_lt(#[trigger] v@[k]@, s@),
        decreases v@.len() - i,
    {
        if identifier_le(&v[i], s) {
            if identifier_eq(&v[i], s) {
                return i;
            }
            i = i + 1;
        } else {
            proof {
                lemma_idv_le_total(v@[i as int]@, s@);
            }
            return i;
        }
    }
    i
}

/// Insert an identifier into a strictly sorted vector, keeping it sorted
/// and discarding it if its value is already present.
pub fn insert_sorted_distinct_id(v: &mut Vec<Identifier>, s: Identifier)
    requires
        ids_sorted_distinct(old(v)@),
    ensures
        ids_sorted_distinct(final(v)@),
        id_view_set(final(v)@) =~= id_view_set(old(v)@).insert(s@),
{
    let i = id_lower_bound(v, &s);
    if i < v.len() && identifier_eq(&v[i], &s) {
        proof {
            assert(v@[i as int]@ == s@);
            assert(id_view_set(v@).contains(s@));
            assert(id_view_set(v@).insert(s@) =~= id_view_set(v@));
        }
        return;
    }
    let ghost old_v = v@;
    let ghost ii = i as int;
    proof {
        if i < v.len() {
            assert(idv_le(s@, old_v[ii]@));
            assert(old_v[ii]@ != s@);
            assert(idv_lt(s@, old_v[ii]@));
        }
    }
    v.insert(i, s);
    proof {
        let nv = v@;
        assert(nv =~= old_v.insert(ii, s));
        assert forall|p: int, q: int| 0 <= p < q < nv.len()
            implies idv_lt(nv[p]@, nv[q]@) by {
            if q < ii {
                assert(idv_lt(old_v[p]@, old_v[q]@));
            } else if p < ii && q == ii {
                assert(idv_lt(old_v[p]@, s@));
            } else if p == ii && q > ii {
                let oq = old_v[q - 1]@;
                assert(nv[q]@ == oq);
                if q - 1 == ii {
                    assert(idv_lt(s@, oq));
                } else {
                    assert(idv_lt(old_v[ii]@, oq));
                    lemma_idv_le_transitive(s@, old_v[ii]@, oq);
                    if s@ == oq {
                        lemma_idv_le_antisymmetric(s@, old_v[ii]@);
                    }
                }
            } else if p < ii && q > ii {
                if q - 1 == ii {
                    assert(idv_lt(old_v[p]@, s@));
                } else {
                    assert(idv_lt(old_v[p]@, old_v[q - 1]@));
                }
            } else {
                assert(idv_lt(old_v[p - 1]@, old_v[q - 1]@));
            }
        }
        assert forall|x: IdentifierView| id_view_set(old_v).insert(s@).contains(x)
            implies id_view_set(nv).contains(x) by {
            if x == s@ {
                assert(nv[ii]@ == x);
            } else {
                let k = choose|k: int| 0 <= k < old_v.len() && old_v[k]@ == x;
                if k < ii {
                    assert(nv[k]@ == x);
                } else {
                    assert(nv[k + 1]@ == x);
                }
            }
        }
        assert forall|x: IdentifierView| id_view_set(nv).contains(x)
            implies id_view_set(old_v).insert(s@).contains(x) by {
            let k = choose|k: int| 0 <= k < nv.len() && nv[k]@ == x;
            if k == ii {
            } else if k < ii {
                assert(old_v[k]@ == x);
            } else {
                assert(old_v[k - 1]@ == x);
            }
        }
    }
}

broadcast use vstd::string::axiom_spec_iter, vstd::string::next_postcondition;

/// Why a string failed to parse as an identifier.
#[derive(Debug, Clone, Copy, PartialEq, Eq, Structural)]
pub enum IdentifierConvertError {
    Empty,
    UuidFormat,
}

pub uninterp spec fn uuid_of_text(s: Seq<char>) -> Option<u128>;

/// Relies on uuid::Uuid::parse_str: whether a string parses as one of the
/// accepted UUID notations, and as which value, depends on its characters
/// alone.
#[verifier::external_body]
fn parse_uuid_text(s: &str) -> (r: Option<u128>)
    ensures
        r == uuid_of_text(s@),
{
    match uuid::Uuid::parse_str(s) {
        Ok(u) => Some(u.as_u128()),
        Err(_) => None,
    }
}

/// What parsing an identifier yields: nothing from an empty string, a
/// name after a leading '@', otherwise a UUID when the text is one.
pub open spec fn spec_parse_identifier(s: Seq<char>)
    -> Result<IdentifierView, IdentifierConvertError> {
    if s.len() == 0 {
        Err(IdentifierConvertError::Empty)
    } else if s[0] == '@' {
        Ok(IdentifierView::ByName(s.drop_first()))
    } else {
        match uuid_of_text(s) {
            Some(v) => Ok(IdentifierView::Uuid(v)),
            None => Err(IdentifierConvertError::UuidFormat),
        }
    }
}

impl Identifier {
    /// Parse an identifier: a leading '@' introduces a name, anything
    /// else must be a UUID.
    pub fn from_str(s: &str) -> (r: Result<Identifier, IdentifierConvertError>)
        ensures
            match (r, spec_parse_identifier(s@)) {
                (Ok(id), Ok(v)) => id@ == v,
                (Err(e1), Err(e2)) => e1 == e2,
                _ => false,
            },
    {
        let mut it = s.chars();
        let first = it.next();
        match first {
            Option::None => {
                proof {
                    assert(s@.len() == 0);
                }
                Err(IdentifierConvertError::Empty)
            },
            Option::Some(c) => {
                proof {
                    assert(c == s@[0]);
                }
                if c == '@' {
                    let mut name = String::new();
                    proof {
                        assert(name@ + it.remaining() =~= s@.drop_first());
                    }
                    loop
                        invariant
                            name@ + it.remaining() == s@.drop_first(),
                            it.obeys_prophetic_iter_laws(),
                            it.decrease() is Some,
                        ensures
                            name@ == s@.drop_first(),
                        decreases it.decrease()->Some_0,
                    {
                        match it.next() {
                            Option::Some(ch) => {
                                proof {
                                    assert(name@.push(ch) + it.remaining()
                                        =~= s@.drop_first());
                                }
                                name.push(ch);
                            },
                            Option::None => {
                                proof {
                                    assert(it.remaining().len() == 0);
                                    assert(name@ =~= s@.drop_first());
                                }
                                break;
                            },
                        }
                    }
                    Ok(Identifier::ByName(name))
                } else {
                    match parse_uuid_text(s) {
                        Option::Some(v) => Ok(Identifier::Uuid(v)),
                        Option::None => Err(IdentifierConvertError::UuidFormat),
                    }
                }
            },
        }
    }
}

} // verus!
