//! Lexical order on texts and on paths.
//!
//! A sequence comes before another when, at the first position where the two
//! differ, it has run out or holds the smaller item. Texts are ordered by the
//! code points of their characters; paths by the order of their segments.

use vstd::prelude::*;
use crate::text::{chars_of, texts};

verus! {

/// How two values stand to each other in an order.
#[derive(Clone, Copy, Debug, PartialEq, Eq, Structural)]
pub enum Standing {
    Before,
    Same,
    After,
}

/// The two sequences hold the same items at every position before `k`.
pub open spec fn agree_before<T>(a: Seq<T>, b: Seq<T>, k: int) -> bool {
    &&& 0 <= k <= a.len()
    &&& k <= b.len()
    &&& forall|j: int| 0 <= j < k ==> a[j] == b[j]
}

/// `a` and `b` agree before `k`, and at `k` the first has run out or holds the
/// smaller item.
pub open spec fn parts_at<T>(a: Seq<T>, b: Seq<T>, lt: spec_fn(T, T) -> bool, k: int) -> bool {
    &&& agree_before(a, b, k)
    &&& k < b.len()
    &&& (k == a.len() || lt(a[k], b[k]))
}

/// `a` comes strictly before `b` in the lexical order built on `lt`.
pub open spec fn lex_less<T>(a: Seq<T>, b: Seq<T>, lt: spec_fn(T, T) -> bool) -> bool {
    exists|k: int| parts_at(a, b, lt, k)
}

/// No item comes before itself, and of two items at most one comes before the
/// other.
pub open spec fn asymmetric<T>(lt: spec_fn(T, T) -> bool) -> bool {
    forall|x: T, y: T| !(#[trigger] lt(x, y) && lt(y, x))
}

/// Whatever comes before an item comes before all that the item comes before.
pub open spec fn transitive<T>(lt: spec_fn(T, T) -> bool) -> bool {
    forall|x: T, y: T, z: T| #[trigger] lt(x, y) && #[trigger] lt(y, z) ==> lt(x, z)
}

/// Of two different items one comes before the other.
pub open spec fn connected<T>(lt: spec_fn(T, T) -> bool) -> bool {
    forall|x: T, y: T| x != y ==> #[trigger] lt(x, y) || lt(y, x)
}

/// The order of characters: by code point.
pub open spec fn char_order() -> spec_fn(char, char) -> bool {
    |x: char, y: char| x < y
}

/// `a` comes strictly before `b` as a text.
pub open spec fn text_less(a: Seq<char>, b: Seq<char>) -> bool {
    lex_less(a, b, char_order())
}

/// The order of path segments: as texts.
pub open spec fn text_order() -> spec_fn(Seq<char>, Seq<char>) -> bool {
    |a: Seq<char>, b: Seq<char>| text_less(a, b)
}

/// `a` comes strictly before `b` as a path.
pub open spec fn path_less(a: Seq<Seq<char>>, b: Seq<Seq<char>>) -> bool {
    lex_less(a, b, text_order())
}

/// The lexical order on an asymmetric order is asymmetric.
pub proof fn lemma_lex_asymmetric<T>(a: Seq<T>, b: Seq<T>, lt: spec_fn(T, T) -> bool)
    requires
        asymmetric(lt),
    ensures
        !(lex_less(a, b, lt) && lex_less(b, a, lt)),
{
    if lex_less(a, b, lt) && lex_less(b, a, lt) {
        let k1 = choose|k: int| parts_at(a, b, lt, k);
        let k2 = choose|k: int| parts_at(b, a, lt, k);
        if k1 < k2 {
            assert(b[k1] == a[k1]);
            assert(!(lt(a[k1], b[k1]) && lt(b[k1], a[k1])));
        } else if k2 < k1 {
            assert(a[k2] == b[k2]);
            assert(!(lt(b[k2], a[k2]) && lt(a[k2], b[k2])));
        } else {
            assert(!(lt(a[k1], b[k1]) && lt(b[k1], a[k1])));
        }
    }
}

/// The lexical order on a transitive order is transitive.
pub proof fn lemma_lex_transitive<T>(a: Seq<T>, b: Seq<T>, c: Seq<T>, lt: spec_fn(T, T) -> bool)
    requires
        transitive(lt),
        lex_less(a, b, lt),
        lex_less(b, c, lt),
    ensures
        lex_less(a, c, lt),
{
    let k1 = choose|k: int| parts_at(a, b, lt, k);
    let k2 = choose|k: int| parts_at(b, c, lt, k);
    if k1 < k2 {
        assert(b[k1] == c[k1]);
        assert(parts_at(a, c, lt, k1));
    } else if k1 == k2 {
        if k1 < a.len() {
            assert(lt(a[k1], b[k1]) && lt(b[k1], c[k1]));
        }
        assert(parts_at(a, c, lt, k1));
    } else {
        assert(a[k2] == b[k2]);
        assert(parts_at(a, c, lt, k2));
    }
}

/// Of two different sequences one comes before the other, where the same
/// holds of their items.
pub proof fn lemma_lex_connected<T>(a: Seq<T>, b: Seq<T>, lt: spec_fn(T, T) -> bool)
    requires
        connected(lt),
        a != b,
    ensures
        lex_less(a, b, lt) || lex_less(b, a, lt),
    decreases a.len(),
{
    if exists|k: int| 0 <= k < a.len() && k < b.len() && a[k] != b[k] {
        let k = first_difference(a, b, 0);
        assert(lt(a[k], b[k]) || lt(b[k], a[k]));
        if lt(a[k], b[k]) {
            assert(parts_at(a, b, lt, k));
        } else {
            assert(parts_at(b, a, lt, k));
        }
    } else if a.len() < b.len() {
        assert(parts_at(a, b, lt, a.len() as int));
    } else if b.len() < a.len() {
        assert(parts_at(b, a, lt, b.len() as int));
    } else {
        assert(a =~= b);
    }
}

/// The first position at or after `from` where the two sequences differ.
proof fn first_difference<T>(a: Seq<T>, b: Seq<T>, from: int) -> (k: int)
    requires
        0 <= from,
        forall|j: int| 0 <= j < from && j < a.len() && j < b.len() ==> a[j] == b[j],
        exists|k: int| from <= k < a.len() && k < b.len() && a[k] != b[k],
    ensures
        from <= k < a.len(),
        k < b.len(),
        a[k] != b[k],
        forall|j: int| 0 <= j < k ==> a[j] == b[j],
    decreases a.len() - from,
{
    if a[from] != b[from] {
        from
    } else {
        first_difference(a, b, from + 1)
    }
}

/// The order of characters is asymmetric, transitive and connected.
pub proof fn lemma_char_order()
    ensures
        asymmetric(char_order()),
        transitive(char_order()),
        connected(char_order()),
{
}

/// The order of texts is asymmetric, transitive and connected.
pub proof fn lemma_text_order()
    ensures
        asymmetric(text_order()),
        transitive(text_order()),
        connected(text_order()),
{
    lemma_char_order();
    assert forall|x: Seq<char>, y: Seq<char>| !(#[trigger] text_order()(x, y) && text_order()(
        y,
        x,
    )) by {
        lemma_lex_asymmetric(x, y, char_order());
    }
    assert forall|x: Seq<char>, y: Seq<char>, z: Seq<char>| #[trigger]
        text_order()(x, y) && #[trigger] text_order()(y, z) implies text_order()(x, z) by {
        lemma_lex_transitive(x, y, z, char_order());
    }
    assert forall|x: Seq<char>, y: Seq<char>| x != y implies #[trigger] text_order()(x, y)
        || text_order()(y, x) by {
        lemma_lex_connected(x, y, char_order());
    }
}

/// No path comes before itself, and of two paths at most one comes before the
/// other.
pub proof fn lemma_path_less_asymmetric(a: Seq<Seq<char>>, b: Seq<Seq<char>>)
    ensures
        !(path_less(a, b) && path_less(b, a)),
{
    lemma_text_order();
    lemma_lex_asymmetric(a, b, text_order());
}

/// A path that comes before a second comes before all that the second comes
/// before.
pub proof fn lemma_path_less_transitive(a: Seq<Seq<char>>, b: Seq<Seq<char>>, c: Seq<Seq<char>>)
    requires
        path_less(a, b),
        path_less(b, c),
    ensures
        path_less(a, c),
{
    lemma_text_order();
    lemma_lex_transitive(a, b, c, text_order());
}

/// How the text `a` stands to the text `b`.
pub fn text_standing(a: &[char], b: &[char]) -> (r: Standing)
    ensures
        r == Standing::Before <==> text_less(a@, b@),
        r == Standing::Same <==> a@ == b@,
        r == Standing::After <==> text_less(b@, a@),
{
    proof {
        lemma_char_order();
        lemma_lex_asymmetric(a@, b@, char_order());
        lemma_lex_asymmetric(a@, a@, char_order());
    }
    let mut i: usize = 0;
    while i < a.len() && i < b.len()
        invariant
            agree_before(a@, b@, i as int),
        decreases a@.len() - i,
    {
        if a[i] != b[i] {
            if a[i] < b[i] {
                assert(parts_at(a@, b@, char_order(), i as int));
                return Standing::Before;
            } else {
                assert(agree_before(b@, a@, i as int));
                assert(parts_at(b@, a@, char_order(), i as int));
                return Standing::After;
            }
        }
        i += 1;
    }
    if i < b.len() {
        assert(parts_at(a@, b@, char_order(), i as int));
        Standing::Before
    } else if i < a.len() {
        assert(agree_before(b@, a@, i as int));
        assert(parts_at(b@, a@, char_order(), i as int));
        Standing::After
    } else {
        assert(a@ =~= b@);
        Standing::Same
    }
}

/// How the path `a` stands to the path `b`.
pub fn path_standing(a: &Vec<String>, b: &Vec<String>) -> (r: Standing)
    ensures
        r == Standing::Before <==> path_less(texts(a@), texts(b@)),
        r == Standing::Same <==> texts(a@) == texts(b@),
        r == Standing::After <==> path_less(texts(b@), texts(a@)),
{
    let ghost pa = texts(a@);
    let ghost pb = texts(b@);
    proof {
        lemma_text_order();
        lemma_lex_asymmetric(pa, pb, text_order());
        lemma_lex_asymmetric(pa, pa, text_order());
    }
    let mut i: usize = 0;
    while i < a.len() && i < b.len()
        invariant
            pa == texts(a@),
            pb == texts(b@),
            agree_before(pa, pb, i as int),
        decreases a@.len() - i,
    {
        let left = chars_of(a[i].as_str());
        let right = chars_of(b[i].as_str());
        match text_standing(left.as_slice(), right.as_slice()) {
            Standing::Before => {
                assert(text_order()(pa[i as int], pb[i as int]));
                assert(parts_at(pa, pb, text_order(), i as int));
                return Standing::Before;
            },
            Standing::After => {
                assert(agree_before(pb, pa, i as int));
                assert(text_order()(pb[i as int], pa[i as int]));
                assert(parts_at(pb, pa, text_order(), i as int));
                return Standing::After;
            },
            Standing::Same => {},
        }
        i += 1;
    }
    if i < b.len() {
        assert(parts_at(pa, pb, text_order(), i as int));
        Standing::Before
    } else if i < a.len() {
        assert(agree_before(pb, pa, i as int));
        assert(parts_at(pb, pa, text_order(), i as int));
        Standing::After
    } else {
        assert(pa =~= pb);
        Standing::Same
    }
}

} // verus!
