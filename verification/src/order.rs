//! Lexicographic order on sequences, over any strict order of their items.

use vstd::prelude::*;

verus! {

/// How one value stands to another in a strict total order.
#[derive(Clone, Copy, Debug, PartialEq, Eq, Structural)]
pub enum Rank {
    Before,
    Same,
    After,
}

/// `lt` never holds of a value and itself, and carries over a middle value.
pub open spec fn strict<T>(lt: spec_fn(T, T) -> bool) -> bool {
    &&& forall|x: T| !#[trigger] lt(x, x)
    &&& forall|x: T, y: T, z: T| #[trigger] lt(x, y) && #[trigger] lt(y, z) ==> lt(x, z)
}

/// Of two different values `lt` puts one before the other.
pub open spec fn total<T>(lt: spec_fn(T, T) -> bool) -> bool {
    forall|x: T, y: T| #![trigger lt(x, y)] #![trigger lt(y, x)] lt(x, y) || x == y || lt(y, x)
}

/// `a` and `b` agree below `i`, and at `i` either `a` ends while `b` goes on,
/// or `a` holds the lesser item.
pub open spec fn parts_at<T>(lt: spec_fn(T, T) -> bool, a: Seq<T>, b: Seq<T>, i: int) -> bool {
    &&& 0 <= i <= a.len()
    &&& i < b.len()
    &&& forall|j: int| 0 <= j < i ==> a[j] == b[j]
    &&& (i < a.len() ==> lt(a[i], b[i]))
}

/// `a` comes before `b`: item by item, and a proper prefix before what it starts.
pub open spec fn lex_lt<T>(lt: spec_fn(T, T) -> bool, a: Seq<T>, b: Seq<T>) -> bool {
    exists|i: int| parts_at(lt, a, b, i)
}

/// No sequence comes before itself.
pub proof fn lemma_lex_irreflexive<T>(lt: spec_fn(T, T) -> bool, a: Seq<T>)
    requires
        strict(lt),
    ensures
        !lex_lt(lt, a, a),
{
}

/// Of two sequences at most one comes before the other.
pub proof fn lemma_lex_asymmetric<T>(lt: spec_fn(T, T) -> bool, a: Seq<T>, b: Seq<T>)
    requires
        strict(lt),
        lex_lt(lt, a, b),
    ensures
        !lex_lt(lt, b, a),
        a != b,
{
    let i = choose|i: int| parts_at(lt, a, b, i);
    if lex_lt(lt, b, a) {
        let j = choose|j: int| parts_at(lt, b, a, j);
        if i < j {
            assert(b[i] == a[i]);
        } else if j < i {
            assert(a[j] == b[j]);
        } else {
            assert(lt(a[i], b[i]) && lt(b[i], a[i]));
        }
    }
    if a == b {
        lemma_lex_irreflexive(lt, a);
    }
}

/// What comes before something that comes before a third comes before the third.
pub proof fn lemma_lex_transitive<T>(lt: spec_fn(T, T) -> bool, a: Seq<T>, b: Seq<T>, c: Seq<T>)
    requires
        strict(lt),
        lex_lt(lt, a, b),
        lex_lt(lt, b, c),
    ensures
        lex_lt(lt, a, c),
{
    let i = choose|i: int| parts_at(lt, a, b, i);
    let j = choose|j: int| parts_at(lt, b, c, j);
    if i < j {
        assert(b[i] == c[i]);
        assert(parts_at(lt, a, c, i));
    } else if j < i {
        assert(a[j] == b[j]);
        assert(parts_at(lt, a, c, j));
    } else {
        if i < a.len() {
            assert(lt(a[i], b[i]) && lt(b[i], c[i]));
        }
        assert(parts_at(lt, a, c, i));
    }
}

/// Two sequences that agree below `i` are equal or one comes before the other.
proof fn lemma_lex_total_from<T>(lt: spec_fn(T, T) -> bool, a: Seq<T>, b: Seq<T>, i: int)
    requires
        total(lt),
        0 <= i <= a.len(),
        i <= b.len(),
        forall|j: int| 0 <= j < i ==> a[j] == b[j],
    ensures
        lex_lt(lt, a, b) || a == b || lex_lt(lt, b, a),
    decreases a.len() - i,
{
    if i == a.len() {
        if i == b.len() {
            assert(a =~= b);
        } else {
            assert(parts_at(lt, a, b, i));
        }
    } else if i == b.len() {
        assert(parts_at(lt, b, a, i));
    } else if a[i] == b[i] {
        lemma_lex_total_from(lt, a, b, i + 1);
    } else if lt(a[i], b[i]) {
        assert(parts_at(lt, a, b, i));
    } else {
        assert(lt(b[i], a[i]));
        assert(parts_at(lt, b, a, i));
    }
}

/// Of two different sequences one comes before the other.
pub proof fn lemma_lex_total<T>(lt: spec_fn(T, T) -> bool, a: Seq<T>, b: Seq<T>)
    requires
        total(lt),
    ensures
        lex_lt(lt, a, b) || a == b || lex_lt(lt, b, a),
{
    lemma_lex_total_from(lt, a, b, 0);
}

/// The order of bytes by their value.
pub open spec fn byte_order() -> spec_fn(u8, u8) -> bool {
    |x: u8, y: u8| x < y
}

/// `a` comes before `b`, byte by byte.
pub open spec fn bytes_lt(a: Seq<u8>, b: Seq<u8>) -> bool {
    lex_lt(byte_order(), a, b)
}

/// Where `a` stands to `b`, byte by byte.
pub open spec fn bytes_rank(a: Seq<u8>, b: Seq<u8>) -> Rank {
    if bytes_lt(a, b) {
        Rank::Before
    } else if a == b {
        Rank::Same
    } else {
        Rank::After
    }
}

/// The order of bytes is strict and total.
pub proof fn lemma_byte_order()
    ensures
        strict(byte_order()),
        total(byte_order()),
{
}

/// Compares two byte strings.
pub fn rank_bytes(a: &[u8], b: &[u8]) -> (r: Rank)
    ensures
        r == bytes_rank(a@, b@),
        r == Rank::After ==> bytes_lt(b@, a@),
{
    let mut i: usize = 0;
    proof {
        lemma_byte_order();
    }
    while i < a.len() && i < b.len()
        invariant
            i <= a@.len(),
            i <= b@.len(),
            forall|j: int| 0 <= j < i ==> a@[j] == b@[j],
            strict(byte_order()),
        decreases a@.len() - i,
    {
        if a[i] < b[i] {
            assert(parts_at(byte_order(), a@, b@, i as int));
            return Rank::Before;
        }
        if a[i] > b[i] {
            assert(parts_at(byte_order(), b@, a@, i as int));
            proof {
                lemma_lex_asymmetric(byte_order(), b@, a@);
            }
            return Rank::After;
        }
        i = i + 1;
    }
    if i < b.len() {
        assert(parts_at(byte_order(), a@, b@, i as int));
        Rank::Before
    } else if i < a.len() {
        assert(parts_at(byte_order(), b@, a@, i as int));
        proof {
            lemma_lex_asymmetric(byte_order(), b@, a@);
        }
        Rank::After
    } else {
        assert(a@ =~= b@);
        proof {
            lemma_lex_irreflexive(byte_order(), a@);
        }
        Rank::Same
    }
}

} // verus!
