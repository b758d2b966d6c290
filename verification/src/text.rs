use vstd::prelude::*;
use vstd::string::StringExecFns;

verus! {

/// Lexicographic order on character sequences, comparing code points.
pub open spec fn str_le(a: Seq<char>, b: Seq<char>) -> bool
    decreases a.len(),
{
    if a.len() == 0 {
        true
    } else if b.len() == 0 {
        false
    } else if a[0] == b[0] {
        str_le(a.drop_first(), b.drop_first())
    } else {
        (a[0] as u32) < (b[0] as u32)
    }
}

/// Strict version of `str_le`.
pub open spec fn str_lt(a: Seq<char>, b: Seq<char>) -> bool {
    str_le(a, b) && a != b
}

pub proof fn lemma_str_le_total(a: Seq<char>, b: Seq<char>)
    ensures
        str_le(a, b) || str_le(b, a),
    decreases a.len(),
{
    if a.len() == 0 || b.len() == 0 {
    } else if a[0] == b[0] {
        lemma_str_le_total(a.drop_first(), b.drop_first());
    } else {
        if a[0] as u32 == b[0] as u32 {
            vstd::utf8::char_u32_cast(a[0], a[0] as u32);
            vstd::utf8::char_u32_cast(b[0], b[0] as u32);
            assert(false);
        }
    }
}

pub proof fn lemma_str_le_antisymmetric(a: Seq<char>, b: Seq<char>)
    requires
        str_le(a, b),
        str_le(b, a),
    ensures
        a == b,
    decreases a.len(),
{
    if a.len() == 0 {
        assert(b.len() == 0);
        assert(a =~= b);
    } else {
        assert(b.len() > 0);
        assert(a[0] == b[0]);
        lemma_str_le_antisymmetric(a.drop_first(), b.drop_first());
        assert(a =~= seq![a[0]] + a.drop_first());
        assert(b =~= seq![b[0]] + b.drop_first());
    }
}

pub proof fn lemma_str_le_transitive(a: Seq<char>, b: Seq<char>, c: Seq<char>)
    requires
        str_le(a, b),
        str_le(b, c),
    ensures
        str_le(a, c),
    decreases a.len(),
{
    if a.len() == 0 || b.len() == 0 || c.len() == 0 {
    } else if a[0] == b[0] && b[0] == c[0] {
        lemma_str_le_transitive(a.drop_first(), b.drop_first(), c.drop_first());
    }
}

/// Relies on str's `<=`: Rust compares strings lexicographically by byte,
/// which for UTF-8 text orders exactly as comparison by code point.
#[verifier::external_body]
pub fn string_le(a: &String, b: &String) -> (r: bool)
    ensures
        r == str_le(a@, b@),
{
    a <= b
}

/// Relies on String::push appending one character.
pub assume_specification[ String::push ](s: &mut String, c: char)
    ensures
        final(s)@ == old(s)@.push(c),
;

/// A strictly ascending sequence of strings: sorted, with no duplicates.
pub open spec fn sorted_distinct(v: Seq<String>) -> bool {
    forall|i: int, j: int| 0 <= i < j < v.len() ==> str_lt(#[trigger] v[i]@, #[trigger] v[j]@)
}

/// A strictly ascending sequence of character sequences.
pub open spec fn sorted_distinct_seqs(parts: Seq<Seq<char>>) -> bool {
    forall|i: int, j: int| 0 <= i < j < parts.len()
        ==> str_lt(#[trigger] parts[i], #[trigger] parts[j])
}

/// The set of character sequences a sequence holds.
pub open spec fn set_of_seqs(parts: Seq<Seq<char>>) -> Set<Seq<char>> {
    Set::new(|x: Seq<char>| parts.contains(x))
}

/// Two strictly sorted sequences holding the same set are equal.
pub proof fn lemma_sorted_distinct_seqs_unique(a: Seq<Seq<char>>, b: Seq<Seq<char>>)
    requires
        sorted_distinct_seqs(a),
        sorted_distinct_seqs(b),
        set_of_seqs(a) =~= set_of_seqs(b),
    ensures
        a == b,
    decreases a.len(),
{
    if a.len() == 0 {
        if b.len() > 0 {
            assert(set_of_seqs(b).contains(b[0]));
        }
        assert(a =~= b);
    } else {
        assert(set_of_seqs(a).contains(a[0]));
        assert(b.len() > 0);
        // The least element of each side is its first element.
        let ka = choose|k: int| 0 <= k < b.len() && b[k] == a[0];
        let kb = choose|k: int| 0 <= k < a.len() && a[k] == b[0];
        assert(set_of_seqs(b).contains(a[0]));
        assert(set_of_seqs(a).contains(b[0]));
        if ka > 0 {
            assert(str_lt(b[0], b[ka]));
        }
        if kb > 0 {
            assert(str_lt(a[0], a[kb]));
        }
        if a[0] != b[0] {
            assert(str_lt(b[0], a[0]) && str_lt(a[0], b[0]));
            lemma_str_le_antisymmetric(a[0], b[0]);
        }
        assert(a[0] == b[0]);
        let at = a.drop_first();
        let bt = b.drop_first();
        assert forall|x: Seq<char>| set_of_seqs(at).contains(x)
            implies set_of_seqs(bt).contains(x) by {
            let k = choose|k: int| 0 <= k < at.len() && at[k] == x;
            assert(a[k + 1] == x);
            assert(str_lt(a[0], x));
            assert(set_of_seqs(b).contains(x));
            let j = choose|j: int| 0 <= j < b.len() && b[j] == x;
            assert(j != 0);
            assert(bt[j - 1] == x);
        }
        assert forall|x: Seq<char>| set_of_seqs(bt).contains(x)
            implies set_of_seqs(at).contains(x) by {
            let k = choose|k: int| 0 <= k < bt.len() && bt[k] == x;
            assert(b[k + 1] == x);
            assert(str_lt(b[0], x));
            assert(set_of_seqs(a).contains(x));
            let j = choose|j: int| 0 <= j < a.len() && a[j] == x;
            assert(j != 0);
            assert(at[j - 1] == x);
        }
        lemma_sorted_distinct_seqs_unique(at, bt);
        assert(a =~= seq![a[0]] + at);
        assert(b =~= seq![b[0]] + bt);
    }
}

/// The set of character sequences held by a sequence of strings.
pub open spec fn view_set(v: Seq<String>) -> Set<Seq<char>> {
    Set::new(|x: Seq<char>| exists|i: int| 0 <= i < v.len() && v[i]@ == x)
}

/// Position at which `s` would be inserted to keep `v` sorted.
fn lower_bound(v: &Vec<String>, s: &String) -> (i: usize)
    requires
        sorted_distinct(v@),
    ensures
        0 <= i <= v@.len(),
        forall|k: int| 0 <= k < i ==> str_lt(#[trigger] v@[k]@, s@),
        i < v@.len() ==> str_le(s@, v@[i as int]@),
{
    let mut i: usize = 0;
    while i < v.len()
        invariant
            0 <= i <= v@.len(),
            sorted_distinct(v@),
            forall|k: int| 0 <= k < i ==> str_lt(#[trigger] v@[k]@, s@),
        decreases v@.len() - i,
    {
        if string_le(&v[i], s) {
            if v[i] == *s {
                proof {
                    assert(v@[i as int]@ == s@);
                }
                return i;
            }
            proof {
                assert(v@[i as int]@ != s@);
            }
            i = i + 1;
        } else {
            proof {
                lemma_str_le_total(v@[i as int]@, s@);
            }
            return i;
        }
    }
    i
}

/// Insert a string into a strictly sorted vector, keeping it sorted and
/// discarding the string if an equal one is already present.
pub fn insert_sorted_distinct(v: &mut Vec<String>, s: String)
    requires
        sorted_distinct(old(v)@),
    ensures
        sorted_distinct(final(v)@),
        view_set(final(v)@) =~= view_set(old(v)@).insert(s@),
{
    let i = lower_bound(v, &s);
    if i < v.len() && v[i] == s {
        proof {
            assert(v@[i as int]@ == s@);
            assert(view_set(v@).contains(s@));
            assert(view_set(v@).insert(s@) =~= view_set(v@));
        }
        return;
    }
    let ghost old_v = v@;
    let ghost ii = i as int;
    proof {
        if i < v.len() {
            assert(str_le(s@, old_v[ii]@));
            assert(old_v[ii]@ != s@);
        }
    }
    v.insert(i, s);
    proof {
        let nv = v@;
        assert(nv =~= old_v.insert(ii, s));
        assert forall|p: int, q: int| 0 <= p < q < nv.len()
            implies str_lt(nv[p]@, nv[q]@) by {
            if q < ii {
                assert(str_lt(old_v[p]@, old_v[q]@));
            } else if p < ii && q == ii {
                assert(nv[q]@ == s@);
                assert(str_lt(old_v[p]@, s@));
            } else if p == ii && q > ii {
                assert(nv[p]@ == s@);
                let oq = old_v[q - 1]@;
                assert(nv[q]@ == oq);
                if q - 1 == ii {
                    assert(str_lt(s@, oq));
                } else {
                    assert(str_lt(old_v[ii]@, oq));
                    lemma_str_le_transitive(s@, old_v[ii]@, oq);
                    if s@ == oq {
                        lemma_str_le_antisymmetric(s@, old_v[ii]@);
                        assert(false);
                    }
                }
            } else if p < ii && q > ii {
                assert(nv[p]@ == old_v[p]@);
                assert(nv[q]@ == old_v[q - 1]@);
                if q - 1 == ii {
                    assert(str_lt(old_v[p]@, s@));
                } else {
                    assert(str_lt(old_v[p]@, old_v[q - 1]@));
                }
            } else {
                assert(nv[p]@ == old_v[p - (if p > ii { 1int } else { 0int })]@);
                assert(str_lt(old_v[p - 1]@, old_v[q - 1]@));
            }
        }
        assert forall|x: Seq<char>| view_set(old_v).insert(s@).contains(x)
            implies view_set(nv).contains(x) by {
            if x == s@ {
                assert(nv[ii]@ == x);
            } else {
                let k = choose|k: int| 0 <= k < old_v.len() && old_v[k]@ == x;
                if k < ii {
                    assert(nv[k]@ == x);
                } else {
                    assert(nv[k + 1]@ == x);
                }
            }
        }
        assert forall|x: Seq<char>| view_set(nv).contains(x)
            implies view_set(old_v).insert(s@).contains(x) by {
            let k = choose|k: int| 0 <= k < nv.len() && nv[k]@ == x;
            if k == ii {
            } else if k < ii {
                assert(old_v[k]@ == x);
            } else {
                assert(old_v[k - 1]@ == x);
            }
        }
    }
}

/// What joining a sequence of parts with a separator yields.
pub open spec fn join_sep(parts: Seq<Seq<char>>, sep: Seq<char>) -> Seq<char>
    decreases parts.len(),
{
    if parts.len() == 0 {
        Seq::empty()
    } else if parts.len() == 1 {
        parts[0]
    } else {
        parts[0] + sep + join_sep(parts.drop_first(), sep)
    }
}

/// The views of a sequence of strings, in order.
pub open spec fn views_of(v: Seq<String>) -> Seq<Seq<char>> {
    Seq::new(v.len(), |i: int| v[i]@)
}

proof fn lemma_join_sep_snoc(parts: Seq<Seq<char>>, x: Seq<char>, sep: Seq<char>)
    requires
        parts.len() > 0,
    ensures
        join_sep(parts.push(x), sep) == join_sep(parts, sep) + sep + x,
    decreases parts.len(),
{
    if parts.len() == 1 {
        assert(parts.push(x).drop_first() =~= seq![x]);
        assert(parts.push(x)[0] == parts[0]);
        assert(join_sep(seq![x], sep) == x);
        assert(join_sep(parts.push(x), sep) =~= parts[0] + sep + x);
        assert(join_sep(parts, sep) + sep + x =~= parts[0] + sep + x);
    } else {
        lemma_join_sep_snoc(parts.drop_first(), x, sep);
        assert(parts.push(x).drop_first() =~= parts.drop_first().push(x));
        assert(join_sep(parts.push(x), sep)
            =~= parts[0] + sep + join_sep(parts.drop_first().push(x), sep));
        assert(parts[0] + sep + (join_sep(parts.drop_first(), sep) + sep + x)
            =~= (parts[0] + sep + join_sep(parts.drop_first(), sep)) + sep + x);
    }
}

/// Join the strings of `v` with the separator, in order.
pub fn join_strings(v: &Vec<String>, sep: &str) -> (r: String)
    ensures
        r@ == join_sep(views_of(v@), sep@),
{
    let mut r = String::new();
    let mut i: usize = 0;
    while i < v.len()
        invariant
            0 <= i <= v@.len(),
            i == 0 ==> r@ == Seq::<char>::empty(),
            i > 0 ==> r@ == join_sep(views_of(v@).take(i as int), sep@),
        decreases v@.len() - i,
    {
        if i > 0 {
            r.append(sep);
        }
        r.append(v[i].as_str());
        proof {
            let parts = views_of(v@);
            if i == 0 {
                assert(parts.take(1) =~= seq![parts[0]]);
                assert(join_sep(parts.take(1), sep@) == parts[0]);
                assert(r@ =~= parts[0]);
            } else {
                lemma_join_sep_snoc(parts.take(i as int), parts[i as int], sep@);
                assert(parts.take(i + 1) =~= parts.take(i as int).push(parts[i as int]));
                assert(r@ =~= join_sep(parts.take(i as int), sep@) + sep@ + parts[i as int]);
            }
        }
        i = i + 1;
    }
    proof {
        assert(views_of(v@).take(v@.len() as int) =~= views_of(v@));
        if v@.len() == 0 {
            assert(join_sep(views_of(v@), sep@) =~= Seq::<char>::empty());
        }
    }
    r
}

} // verus!
