//! Node identifiers: comparison, ordering and the textual keys built from them.
use vstd::prelude::*;
use vstd::string::*;

verus! {

/// The character sequences of a sequence of owned identifiers.
pub open spec fn id_views(v: Seq<String>) -> Seq<Seq<char>> {
    v.map_values(|s: String| s@)
}

/// Strict lexicographic order on identifiers, character by character by code
/// point.  This is the order of `<` on `str`, which compares UTF-8 bytes, and
/// UTF-8 preserves the order of code points.
pub open spec fn chars_lt(a: Seq<char>, b: Seq<char>) -> bool
    decreases a.len(),
{
    if a.len() == 0 {
        b.len() > 0
    } else if b.len() == 0 {
        false
    } else if a[0] != b[0] {
        (a[0] as u32) < (b[0] as u32)
    } else {
        chars_lt(a.drop_first(), b.drop_first())
    }
}

/// The text `a-b`.
pub open spec fn dash_join(a: Seq<char>, b: Seq<char>) -> Seq<char> {
    a + seq!['-'] + b
}

/// The undirected key of the pair `{a, b}`: the smaller identifier, a dash,
/// then the larger one.
pub open spec fn pair_key(a: Seq<char>, b: Seq<char>) -> Seq<char> {
    if chars_lt(a, b) {
        dash_join(a, b)
    } else {
        dash_join(b, a)
    }
}

proof fn lemma_chars_lt_skip(a: Seq<char>, b: Seq<char>, i: int)
    requires
        0 <= i < a.len(),
        i < b.len(),
        a[i] == b[i],
    ensures
        chars_lt(a.skip(i), b.skip(i)) == chars_lt(a.skip(i + 1), b.skip(i + 1)),
{
    assert(a.skip(i).drop_first() =~= a.skip(i + 1));
    assert(b.skip(i).drop_first() =~= b.skip(i + 1));
}

/// Whether two identifiers are the same text.
pub fn same_id(a: &str, b: &str) -> (r: bool)
    ensures
        r == (a@ == b@),
{
    let na = a.unicode_len();
    let nb = b.unicode_len();
    if na != nb {
        return false;
    }
    let mut i: usize = 0;
    while i < na
        invariant
            na == a@.len(),
            nb == b@.len(),
            na == nb,
            i <= na,
            forall|j: int| 0 <= j < i ==> a@[j] == b@[j],
        decreases na - i,
    {
        let ca = a.get_char(i);
        let cb = b.get_char(i);
        if (ca as u32) != (cb as u32) {
            return false;
        }
        i = i + 1;
    }
    assert(a@ =~= b@);
    true
}

/// Whether `a` sorts strictly before `b`.
pub fn id_lt(a: &str, b: &str) -> (r: bool)
    ensures
        r == chars_lt(a@, b@),
{
    let na = a.unicode_len();
    let nb = b.unicode_len();
    let mut i: usize = 0;
    assert(a@.skip(0) =~= a@);
    assert(b@.skip(0) =~= b@);
    while i < na && i < nb
        invariant
            na == a@.len(),
            nb == b@.len(),
            i <= na,
            i <= nb,
            chars_lt(a@, b@) == chars_lt(a@.skip(i as int), b@.skip(i as int)),
        decreases na - i,
    {
        let ca = a.get_char(i);
        let cb = b.get_char(i);
        if (ca as u32) != (cb as u32) {
            assert(a@.skip(i as int)[0] == ca);
            assert(b@.skip(i as int)[0] == cb);
            return (ca as u32) < (cb as u32);
        }
        proof {
            lemma_chars_lt_skip(a@, b@, i as int);
        }
        i = i + 1;
    }
    assert(a@.skip(i as int).len() == na - i);
    assert(b@.skip(i as int).len() == nb - i);
    i == na && i < nb
}

/// The text `a-b`, built from its two parts.
pub fn dash_joined(a: &str, b: &str) -> (r: String)
    ensures
        r@ == dash_join(a@, b@),
{
    let mut s = String::from_str(a);
    let dash = "-";
    proof {
        reveal_strlit("-");
    }
    s.append(dash);
    s.append(b);
    s
}

/// The undirected key of the pair `{a, b}`.
pub fn pair_key_of(a: &str, b: &str) -> (r: String)
    ensures
        r@ == pair_key(a@, b@),
{
    if id_lt(a, b) {
        dash_joined(a, b)
    } else {
        dash_joined(b, a)
    }
}

/// Position of the first entry of `v` equal to `x`, if any.
pub fn find_id(v: &Vec<String>, x: &str) -> (r: Option<usize>)
    ensures
        match r {
            Some(k) => k < v.len() && v@[k as int]@ == x@ && forall|j: int|
                0 <= j < k ==> v@[j]@ != x@,
            None => forall|j: int| 0 <= j < v.len() ==> v@[j]@ != x@,
        },
{
    let mut i: usize = 0;
    while i < v.len()
        invariant
            i <= v.len(),
            forall|j: int| 0 <= j < i ==> v@[j]@ != x@,
        decreases v.len() - i,
    {
        if same_id(v[i].as_str(), x) {
            return Some(i);
        }
        i = i + 1;
    }
    None
}

/// `chars_lt` is a strict total order: never both ways, and neither way only
/// between equal identifiers.
pub proof fn lemma_chars_lt_total(a: Seq<char>, b: Seq<char>)
    ensures
        !(chars_lt(a, b) && chars_lt(b, a)),
        !chars_lt(a, b) && !chars_lt(b, a) ==> a == b,
    decreases a.len(),
{
    if a.len() > 0 && b.len() > 0 && a[0] == b[0] {
        lemma_chars_lt_total(a.drop_first(), b.drop_first());
        if a.drop_first() == b.drop_first() {
            assert(a =~= seq![a[0]] + a.drop_first());
            assert(b =~= seq![b[0]] + b.drop_first());
        }
    } else if a.len() == 0 && b.len() == 0 {
        assert(a =~= b);
    } else if a.len() > 0 && b.len() > 0 {
        let (x, y) = (a[0], b[0]);
        if (x as u32) == (y as u32) {
            vstd::utf8::char_u32_cast(x, x as u32);
            vstd::utf8::char_u32_cast(y, y as u32);
        }
    }
}

/// Link identifiers are undirected: the key of `{a, b}` does not depend on
/// the order in which the two endpoints are given.
pub proof fn lemma_pair_key_symmetric(a: Seq<char>, b: Seq<char>)
    ensures
        pair_key(a, b) == pair_key(b, a),
{
    lemma_chars_lt_total(a, b);
}

} // verus!
