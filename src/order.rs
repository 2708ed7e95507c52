use vstd::prelude::*;


verus! {

/// The lowercase form of a text, as `str::to_lowercase` gives it.
pub uninterp spec fn lowercase_of(s: Seq<char>) -> Seq<char>;

/// Relies on `str::to_lowercase`: Unicode lowercase mapping, which depends on
/// the characters alone.
#[verifier::external_body]
pub(crate) fn lowercase(s: &str) -> (r: String)
    ensures
        r@ == lowercase_of(s@),
{
    s.to_lowercase()
}

/// The sort key of a name: the UTF-8 bytes of its lowercase form, which order
/// as `String`s order.
pub open spec fn name_key(name: Seq<char>) -> Seq<u8> {
    vstd::utf8::encode_utf8(lowercase_of(name))
}

/// Lexicographic order on byte strings, a proper prefix first.
pub open spec fn bytes_before(a: Seq<u8>, b: Seq<u8>) -> bool
    decreases a.len(),
{
    if b.len() == 0 {
        false
    } else if a.len() == 0 {
        true
    } else if a[0] != b[0] {
        a[0] < b[0]
    } else {
        bytes_before(a.drop_first(), b.drop_first())
    }
}

/// Position `i` sorts before position `j`: by key, then by position.
pub open spec fn ranks_before(keys: Seq<Seq<u8>>, i: int, j: int) -> bool {
    ||| bytes_before(keys[i], keys[j])
    ||| (keys[i] == keys[j] && i < j)
}

/// Position `j` occurs in `order`.
pub open spec fn appears_in(order: Seq<usize>, j: int) -> bool {
    exists|k: int| 0 <= k < order.len() && order[k] == j
}

/// `order` lists the positions `0..keys.len()` of `keys`, each once, sorted
/// by key and, among equal keys, by position.
pub open spec fn is_stable_order(keys: Seq<Seq<u8>>, order: Seq<usize>) -> bool {
    &&& order.len() == keys.len()
    &&& forall|k: int| 0 <= k < order.len() ==> order[k] < keys.len()
    &&& forall|j: int| 0 <= j < keys.len() ==> #[trigger] appears_in(order, j)
    &&& forall|k1: int, k2: int|
        0 <= k1 < k2 < order.len() ==> ranks_before(keys, order[k1] as int, order[k2] as int)
}

/// No byte string comes before itself, and two never come before each other.
pub proof fn lemma_bytes_before_strict(a: Seq<u8>, b: Seq<u8>)
    ensures
        !bytes_before(a, a),
        !(bytes_before(a, b) && bytes_before(b, a)),
    decreases a.len(),
{
    if a.len() > 0 && b.len() > 0 {
        lemma_bytes_before_strict(a.drop_first(), b.drop_first());
    }
    if a.len() > 0 {
        lemma_bytes_before_strict(a.drop_first(), a.drop_first());
    }
}

/// Two different byte strings are ordered one way or the other.
pub proof fn lemma_bytes_before_total(a: Seq<u8>, b: Seq<u8>)
    ensures
        a == b || bytes_before(a, b) || bytes_before(b, a),
    decreases a.len(),
{
    if a.len() > 0 && b.len() > 0 {
        lemma_bytes_before_total(a.drop_first(), b.drop_first());
        if a[0] == b[0] && a.drop_first() == b.drop_first() {
            assert(a =~= seq![a[0]] + a.drop_first());
            assert(b =~= seq![b[0]] + b.drop_first());
        }
    } else if a.len() == 0 && b.len() == 0 {
        assert(a =~= b);
    }
}

pub proof fn lemma_bytes_before_transitive(a: Seq<u8>, b: Seq<u8>, c: Seq<u8>)
    requires
        bytes_before(a, b),
        bytes_before(b, c),
    ensures
        bytes_before(a, c),
    decreases a.len(),
{
    if a.len() > 0 && b.len() > 0 && c.len() > 0 && a[0] == b[0] && b[0] == c[0] {
        lemma_bytes_before_transitive(a.drop_first(), b.drop_first(), c.drop_first());
    }
}

/// `ranks_before` is a strict total order on positions.
pub proof fn lemma_ranks_before_order(keys: Seq<Seq<u8>>, i: int, j: int, l: int)
    ensures
        !ranks_before(keys, i, i),
        !(ranks_before(keys, i, j) && ranks_before(keys, j, i)),
        i != j ==> ranks_before(keys, i, j) || ranks_before(keys, j, i),
        ranks_before(keys, i, j) && ranks_before(keys, j, l) ==> ranks_before(keys, i, l),
{
    lemma_bytes_before_strict(keys[i], keys[j]);
    lemma_bytes_before_strict(keys[j], keys[l]);
    lemma_bytes_before_strict(keys[i], keys[l]);
    lemma_bytes_before_total(keys[i], keys[j]);
    if bytes_before(keys[i], keys[j]) && bytes_before(keys[j], keys[l]) {
        lemma_bytes_before_transitive(keys[i], keys[j], keys[l]);
    }
}

/// Whether `a` comes before `b` in lexicographic byte order.
pub(crate) fn bytes_less(a: &[u8], b: &[u8]) -> (r: bool)
    ensures
        r == bytes_before(a@, b@),
{
    let mut i: usize = 0;
    assert(a@.skip(0) =~= a@);
    assert(b@.skip(0) =~= b@);
    while i < a.len() && i < b.len()
        invariant
            i <= a@.len(),
            i <= b@.len(),
            bytes_before(a@.skip(i as int), b@.skip(i as int)) == bytes_before(a@, b@),
        decreases a@.len() - i,
    {
        if a[i] != b[i] {
            return a[i] < b[i];
        }
        assert(a@.skip(i as int).drop_first() =~= a@.skip(i + 1));
        assert(b@.skip(i as int).drop_first() =~= b@.skip(i + 1));
        i = i + 1;
    }
    i < b.len()
}

/// The sort key of each name.
pub fn name_keys(names: &Vec<&str>) -> (r: Vec<Vec<u8>>)
    ensures
        r@.len() == names@.len(),
        forall|k: int| 0 <= k < names@.len() ==> #[trigger] r@[k]@ == name_key(names@[k]@),
{
    let mut r: Vec<Vec<u8>> = Vec::new();
    let mut k: usize = 0;
    while k < names.len()
        invariant
            k <= names@.len(),
            r@.len() == k,
            forall|m: int| 0 <= m < k ==> #[trigger] r@[m]@ == name_key(names@[m]@),
        decreases names@.len() - k,
    {
        let lower = lowercase(names[k]);
        r.push(lower.as_str().as_bytes_vec());
        k = k + 1;
    }
    r
}

/// The positions of `keys`, sorted by key and, among equal keys, by position.
pub fn stable_order(keys: &Vec<Vec<u8>>) -> (order: Vec<usize>)
    ensures
        is_stable_order(keys@.map_values(|k: Vec<u8>| k@), order@),
{
    let ghost ks = keys@.map_values(|k: Vec<u8>| k@);
    let mut order: Vec<usize> = Vec::new();
    let ghost mut pos: Seq<int> = seq![];
    let mut i: usize = 0;
    while i < keys.len()
        invariant
            ks == keys@.map_values(|k: Vec<u8>| k@),
            i <= keys@.len(),
            order@.len() == i,
            pos.len() == i,
            forall|k: int| 0 <= k < order@.len() ==> order@[k] < i,
            forall|j: int| 0 <= j < i ==> 0 <= #[trigger] pos[j] < i && order@[pos[j]] == j,
            forall|k1: int, k2: int|
                0 <= k1 < k2 < order@.len() ==> ranks_before(ks, order@[k1] as int, order@[k2] as int),
        decreases keys@.len() - i,
    {
        let mut p: usize = 0;
        while p < order.len() && !bytes_less(keys[i].as_slice(), keys[order[p]].as_slice())
            invariant
                ks == keys@.map_values(|k: Vec<u8>| k@),
                i < keys@.len(),
                p <= order@.len(),
                forall|k: int| 0 <= k < order@.len() ==> order@[k] < i,
                forall|m: int| 0 <= m < p ==> !bytes_before(ks[i as int], ks[order@[m] as int]),
            decreases order@.len() - p,
        {
            p = p + 1;
        }
        proof {
            assert forall|m: int| p <= m < order@.len() implies bytes_before(
                ks[i as int],
                ks[order@[m] as int],
            ) by {
                if m > p {
                    lemma_ranks_before_order(ks, order@[p as int] as int, order@[m] as int, 0);
                    if bytes_before(ks[order@[p as int] as int], ks[order@[m] as int]) {
                        lemma_bytes_before_transitive(
                            ks[i as int],
                            ks[order@[p as int] as int],
                            ks[order@[m] as int],
                        );
                    }
                }
            }
            assert forall|m: int| 0 <= m < p implies ranks_before(ks, order@[m] as int, i as int) by {
                lemma_bytes_before_total(ks[i as int], ks[order@[m] as int]);
            }
        }
        let ghost old_order = order@;
        order.insert(p, i);
        proof {
            pos = Seq::new(
                (i + 1) as nat,
                |j: int|
                    if j == i {
                        p as int
                    } else if pos[j] >= p {
                        pos[j] + 1
                    } else {
                        pos[j]
                    },
            );
            assert(order@ == old_order.insert(p as int, i));
            assert forall|k1: int, k2: int| 0 <= k1 < k2 < order@.len() implies ranks_before(
                ks,
                order@[k1] as int,
                order@[k2] as int,
            ) by {
                if k1 < p && k2 == p {
                } else if k1 < p && k2 > p {
                    assert(order@[k2] == old_order[k2 - 1]);
                } else if k1 == p {
                    assert(order@[k2] == old_order[k2 - 1]);
                } else if k1 > p {
                    assert(order@[k1] == old_order[k1 - 1]);
                    assert(order@[k2] == old_order[k2 - 1]);
                }
            }
        }
        i = i + 1;
    }
    proof {
        assert forall|j: int| 0 <= j < keys@.len() implies #[trigger] appears_in(order@, j) by {
            assert(order@[pos[j]] == j);
        }
    }
    order
}

} // verus!
