//! Orders: byte by byte for texts, part by part for paths, and what it means for a sequence to
//! be sorted by one of them.
use vstd::prelude::*;
use vstd::utf8::*;

verus! {

/// `lt` is irreflexive, transitive, and leaves no two different values unordered.
pub open spec fn strict_order<T>(lt: spec_fn(T, T) -> bool) -> bool {
    &&& forall|a: T| !#[trigger] lt(a, a)
    &&& forall|a: T, b: T, c: T| #[trigger] lt(a, b) && #[trigger] lt(b, c) ==> lt(a, c)
    &&& forall|a: T, b: T| a == b || #[trigger] lt(a, b) || lt(b, a)
}

/// The lexicographic order that `lt` induces: the first difference decides, and a proper prefix
/// comes before what it is a prefix of.
pub open spec fn lex<T>(lt: spec_fn(T, T) -> bool, a: Seq<T>, b: Seq<T>) -> bool
    decreases a.len(),
{
    if b.len() == 0 {
        false
    } else if a.len() == 0 {
        true
    } else if a[0] == b[0] {
        lex(lt, a.drop_first(), b.drop_first())
    } else {
        lt(a[0], b[0])
    }
}

/// `lex` for a fixed `lt`, as a relation.
pub open spec fn lex_order<T>(lt: spec_fn(T, T) -> bool) -> spec_fn(Seq<T>, Seq<T>) -> bool {
    |a: Seq<T>, b: Seq<T>| lex(lt, a, b)
}

/// Bytes by their value.
pub open spec fn byte_order() -> spec_fn(u8, u8) -> bool {
    |a: u8, b: u8| a < b
}

/// Texts by the bytes of their UTF-8 encoding.
pub open spec fn text_order() -> spec_fn(Seq<char>, Seq<char>) -> bool {
    |a: Seq<char>, b: Seq<char>| lex(byte_order(), encode_utf8(a), encode_utf8(b))
}

/// Each element comes before every later one.
pub open spec fn sorted<T>(s: Seq<T>, lt: spec_fn(T, T) -> bool) -> bool {
    forall|i: int, j: int| 0 <= i < j < s.len() ==> lt(#[trigger] s[i], #[trigger] s[j])
}

/// No element comes before an earlier one.
pub open spec fn weakly_sorted<T>(s: Seq<T>, lt: spec_fn(T, T) -> bool) -> bool {
    forall|i: int, j: int| 0 <= i < j < s.len() ==> !lt(#[trigger] s[j], #[trigger] s[i])
}

/// The elements of a finite set, in order.
pub open spec fn in_order<T>(s: Set<T>, lt: spec_fn(T, T) -> bool) -> Seq<T> {
    choose|q: Seq<T>| #[trigger] sorted(q, lt) && q.to_set() == s
}

/// A lexicographic order over a strict order is a strict order.
pub proof fn lemma_lex_strict<T>(lt: spec_fn(T, T) -> bool)
    requires
        strict_order(lt),
    ensures
        strict_order(lex_order(lt)),
{
    let big = lex_order(lt);
    assert forall|a: Seq<T>| !#[trigger] big(a, a) by {
        lemma_lex_irreflexive(lt, a);
    }
    assert forall|a: Seq<T>, b: Seq<T>, c: Seq<T>| #[trigger] big(a, b) && #[trigger] big(
        b,
        c,
    ) implies big(a, c) by {
        lemma_lex_transitive(lt, a, b, c);
    }
    assert forall|a: Seq<T>, b: Seq<T>| a == b || #[trigger] big(a, b) || big(b, a) by {
        lemma_lex_total(lt, a, b);
    }
}

proof fn lemma_lex_irreflexive<T>(lt: spec_fn(T, T) -> bool, a: Seq<T>)
    ensures
        !lex(lt, a, a),
    decreases a.len(),
{
    if a.len() > 0 {
        lemma_lex_irreflexive(lt, a.drop_first());
    }
}

proof fn lemma_lex_transitive<T>(lt: spec_fn(T, T) -> bool, a: Seq<T>, b: Seq<T>, c: Seq<T>)
    requires
        strict_order(lt),
        lex(lt, a, b),
        lex(lt, b, c),
    ensures
        lex(lt, a, c),
    decreases a.len(),
{
    if a.len() > 0 && a[0] == b[0] && b[0] == c[0] {
        lemma_lex_transitive(lt, a.drop_first(), b.drop_first(), c.drop_first());
    }
}

proof fn lemma_lex_total<T>(lt: spec_fn(T, T) -> bool, a: Seq<T>, b: Seq<T>)
    requires
        strict_order(lt),
    ensures
        a == b || lex(lt, a, b) || lex(lt, b, a),
    decreases a.len(),
{
    if a.len() > 0 && b.len() > 0 && a[0] == b[0] {
        lemma_lex_total(lt, a.drop_first(), b.drop_first());
        if a.drop_first() == b.drop_first() {
            assert(a =~= seq![a[0]] + a.drop_first());
            assert(b =~= seq![b[0]] + b.drop_first());
        }
    } else if a.len() == 0 && b.len() == 0 {
        assert(a =~= b);
    }
}

/// Two texts with the same UTF-8 bytes are the same text.
pub proof fn lemma_same_bytes_same_text(a: Seq<char>, b: Seq<char>)
    requires
        encode_utf8(a) == encode_utf8(b),
    ensures
        a == b,
{
    encode_utf8_decode_utf8(a);
    encode_utf8_decode_utf8(b);
}

/// The order on texts is strict: no two different texts are left unordered.
pub proof fn lemma_text_order_strict()
    ensures
        strict_order(text_order()),
{
    lemma_lex_strict(byte_order());
    let bytes = lex_order(byte_order());
    let lt = text_order();
    assert forall|a: Seq<char>, b: Seq<char>| a == b || #[trigger] lt(a, b) || lt(b, a) by {
        if encode_utf8(a) == encode_utf8(b) {
            lemma_same_bytes_same_text(a, b);
        }
        assert(bytes(encode_utf8(a), encode_utf8(b)) == lt(a, b));
        assert(bytes(encode_utf8(b), encode_utf8(a)) == lt(b, a));
    }
    assert forall|a: Seq<char>| !#[trigger] lt(a, a) by {
        assert(!bytes(encode_utf8(a), encode_utf8(a)));
    }
    assert forall|a: Seq<char>, b: Seq<char>, c: Seq<char>| #[trigger] lt(a, b) && #[trigger] lt(
        b,
        c,
    ) implies lt(a, c) by {
        assert(bytes(encode_utf8(a), encode_utf8(b)));
        assert(bytes(encode_utf8(b), encode_utf8(c)));
    }
}

/// A set has at most one sorted enumeration.
pub proof fn lemma_sorted_unique<T>(a: Seq<T>, b: Seq<T>, lt: spec_fn(T, T) -> bool)
    requires
        strict_order(lt),
        sorted(a, lt),
        sorted(b, lt),
        forall|x: T| #[trigger] a.contains(x) <==> b.contains(x),
    ensures
        a == b,
    decreases a.len(),
{
    if a.len() == 0 {
        if b.len() > 0 {
            assert(b.contains(b[0]));
            assert(a.contains(b[0]));
        }
        assert(a =~= b);
    } else {
        assert(a.contains(a[0]));
        assert(b.len() > 0);
        let x = a.last();
        let y = b.last();
        assert(a.contains(x));
        assert(b.contains(y));
        assert(b.contains(x));
        assert(a.contains(y));
        let i = choose|i: int| 0 <= i < a.len() && a[i] == y;
        let j = choose|j: int| 0 <= j < b.len() && b[j] == x;
        assert(x == y) by {
            if x != y {
                assert(lt(a[i], a[a.len() - 1]));
                assert(lt(b[j], b[b.len() - 1]));
                assert(lt(x, x));
            }
        }
        let a0 = a.drop_last();
        let b0 = b.drop_last();
        assert forall|z: T| #[trigger] a0.contains(z) implies b0.contains(z) by {
            let k = choose|k: int| 0 <= k < a0.len() && a0[k] == z;
            assert(a[k] == z);
            assert(lt(a[k], a[a.len() - 1]));
            assert(a.contains(z));
            let m = choose|m: int| 0 <= m < b.len() && b[m] == z;
            assert(m != b.len() - 1);
            assert(b0[m] == z);
        }
        assert forall|z: T| #[trigger] b0.contains(z) implies a0.contains(z) by {
            let k = choose|k: int| 0 <= k < b0.len() && b0[k] == z;
            assert(b[k] == z);
            assert(lt(b[k], b[b.len() - 1]));
            assert(b.contains(z));
            assert(a.contains(z));
            let m = choose|m: int| 0 <= m < a.len() && a[m] == z;
            assert(m != a.len() - 1);
            assert(a0[m] == z);
        }
        lemma_sorted_unique(a0, b0, lt);
        assert(a =~= a0.push(x));
        assert(b =~= b0.push(y));
    }
}

/// A sorted sequence is the enumeration of its own elements.
pub proof fn lemma_in_order<T>(q: Seq<T>, lt: spec_fn(T, T) -> bool)
    requires
        strict_order(lt),
        sorted(q, lt),
    ensures
        in_order(q.to_set(), lt) == q,
{
    let p = in_order(q.to_set(), lt);
    assert(sorted(p, lt) && p.to_set() == q.to_set());
    assert forall|x: T| #[trigger] p.contains(x) <==> q.contains(x) by {
        assert(p.to_set().contains(x) <==> q.to_set().contains(x));
    }
    lemma_sorted_unique(p, q, lt);
}

/// Where in a sorted sequence a further value belongs.
proof fn lemma_slot<T>(q: Seq<T>, x: T, lt: spec_fn(T, T) -> bool) -> (i: int)
    requires
        strict_order(lt),
        sorted(q, lt),
        !q.contains(x),
    ensures
        0 <= i <= q.len(),
        forall|j: int| 0 <= j < i ==> lt(#[trigger] q[j], x),
        forall|j: int| i <= j < q.len() ==> lt(x, #[trigger] q[j]),
    decreases q.len(),
{
    if q.len() == 0 {
        0
    } else {
        let n = q.len() - 1;
        assert(q.contains(q[n]));
        if lt(q[n], x) {
            assert forall|j: int| 0 <= j < q.len() implies lt(#[trigger] q[j], x) by {
                if j < n {
                    assert(lt(q[j], q[n]));
                }
            }
            q.len() as int
        } else {
            let fewer = q.drop_last();
            assert forall|j: int| 0 <= j < fewer.len() implies #[trigger] fewer[j] != x by {
                assert(q.contains(q[j]));
            }
            let i = lemma_slot(fewer, x, lt);
            assert(lt(x, q[n]));
            assert forall|j: int| 0 <= j < i implies lt(#[trigger] q[j], x) by {
                assert(fewer[j] == q[j]);
            }
            assert forall|j: int| i <= j < q.len() implies lt(x, #[trigger] q[j]) by {
                if j < n {
                    assert(fewer[j] == q[j]);
                }
            }
            i
        }
    }
}

/// Every finite set has a sorted enumeration.
pub proof fn lemma_in_order_of_finite<T>(s: Set<T>, lt: spec_fn(T, T) -> bool)
    requires
        strict_order(lt),
        s.finite(),
    ensures
        sorted(in_order(s, lt), lt),
        in_order(s, lt).to_set() == s,
    decreases s.len(),
{
    if s.len() == 0 {
        let q = Seq::<T>::empty();
        assert(q.to_set() =~= s);
        lemma_in_order(q, lt);
    } else {
        let x = s.choose();
        let rest = s.remove(x);
        lemma_in_order_of_finite(rest, lt);
        let q = in_order(rest, lt);
        assert(!q.contains(x)) by {
            assert(!q.to_set().contains(x));
        }
        let i = lemma_slot(q, x, lt);
        let more = q.insert(i, x);
        assert forall|a: int, b: int| 0 <= a < b < more.len() implies lt(
            #[trigger] more[a],
            #[trigger] more[b],
        ) by {
            let a0 = if a < i { a } else { a - 1 };
            let b0 = if b < i { b } else { b - 1 };
            if a != i {
                assert(more[a] == q[a0]);
            }
            if b != i {
                assert(more[b] == q[b0]);
            }
        }
        assert forall|v: T| #[trigger] more.to_set().contains(v) <==> s.contains(v) by {
            if more.contains(v) && v != x {
                let k = more.index_of(v);
                assert(more[k] == v);
                assert(q[if k < i { k } else { k - 1 }] == v);
                assert(q.to_set().contains(v));
            }
            if s.contains(v) && v != x {
                assert(q.to_set().contains(v));
                let k = q.index_of(v);
                assert(q[k] == v);
                assert(more[if k < i { k } else { k + 1 }] == v);
            }
            assert(more[i] == x);
        }
        assert(more.to_set() =~= s);
        lemma_in_order(more, lt);
    }
}

/// Where one value stands relative to another.
#[derive(Debug, Clone, Copy, PartialEq, Eq, Structural)]
pub enum Place {
    Before,
    Same,
    After,
}

/// What `Place` says of `a` relative to `b`.
pub open spec fn placed<T>(p: Place, a: T, b: T, lt: spec_fn(T, T) -> bool) -> bool {
    match p {
        Place::Before => lt(a, b),
        Place::Same => a == b,
        Place::After => lt(b, a),
    }
}

/// Places one byte string relative to another.
pub fn place_bytes(a: &[u8], b: &[u8]) -> (p: Place)
    ensures
        placed(p, a@, b@, lex_order(byte_order())),
{
    let mut i: usize = 0;
    assert(a@.skip(0) =~= a@);
    assert(b@.skip(0) =~= b@);
    while i < a.len() && i < b.len()
        invariant
            i <= a@.len(),
            i <= b@.len(),
            a@.take(i as int) =~= b@.take(i as int),
            lex(byte_order(), a@, b@) == lex(byte_order(), a@.skip(i as int), b@.skip(i as int)),
            lex(byte_order(), b@, a@) == lex(byte_order(), b@.skip(i as int), a@.skip(i as int)),
        decreases a@.len() - i,
    {
        assert(a@.skip(i as int)[0] == a@[i as int]);
        assert(b@.skip(i as int)[0] == b@[i as int]);
        if a[i] < b[i] {
            return Place::Before;
        }
        if b[i] < a[i] {
            return Place::After;
        }
        assert(a@.skip(i as int).drop_first() =~= a@.skip(i + 1));
        assert(b@.skip(i as int).drop_first() =~= b@.skip(i + 1));
        assert(a@.take(i + 1) =~= a@.take(i as int).push(a@[i as int]));
        assert(b@.take(i + 1) =~= b@.take(i as int).push(b@[i as int]));
        i += 1;
    }
    if i < b.len() {
        Place::Before
    } else if i < a.len() {
        Place::After
    } else {
        assert(a@ =~= a@.take(i as int));
        assert(b@ =~= b@.take(i as int));
        Place::Same
    }
}

/// A type whose values are put in order by what they stand for.
pub trait Ranked: View + Sized {
    /// The order on what the values stand for.
    spec fn order() -> spec_fn(Self::V, Self::V) -> bool;

    proof fn lemma_order_strict()
        ensures
            strict_order(Self::order()),
    ;

    /// Places a value relative to another.
    fn place(&self, other: &Self) -> (p: Place)
        ensures
            placed(p, self@, other@, Self::order()),
    ;

    /// A second value that stands for the same.
    fn duplicate(&self) -> (r: Self)
        ensures
            r@ == self@,
    ;
}

impl Ranked for String {
    open spec fn order() -> spec_fn(Seq<char>, Seq<char>) -> bool {
        text_order()
    }

    proof fn lemma_order_strict() {
        lemma_text_order_strict();
    }

    fn place(&self, other: &Self) -> (p: Place) {
        let p = place_bytes(self.as_str().as_bytes(), other.as_str().as_bytes());
        proof {
            if p == Place::Same {
                lemma_same_bytes_same_text(self@, other@);
            }
        }
        p
    }

    fn duplicate(&self) -> (r: Self) {
        self.clone()
    }
}

/// In a lexicographic order the first difference decides.
pub proof fn law_first_difference_decides<T>(
    lt: spec_fn(T, T) -> bool,
    same: Seq<T>,
    x: T,
    a: Seq<T>,
    y: T,
    b: Seq<T>,
)
    requires
        x != y,
    ensures
        lex_order(lt)(same + seq![x] + a, same + seq![y] + b) <==> lt(x, y),
    decreases same.len(),
{
    let p = same + seq![x] + a;
    let q = same + seq![y] + b;
    if same.len() == 0 {
        assert(p[0] == x && q[0] == y);
    } else {
        let rest = same.drop_first();
        assert(p[0] == same[0] && q[0] == same[0]);
        assert(p.drop_first() =~= rest + seq![x] + a);
        assert(q.drop_first() =~= rest + seq![y] + b);
        law_first_difference_decides(lt, rest, x, a, y, b);
        assert(lex_order(lt)(rest + seq![x] + a, rest + seq![y] + b) == lex(
            lt,
            rest + seq![x] + a,
            rest + seq![y] + b,
        ));
    }
}

/// In a lexicographic order what is shorter comes before what goes on after it, and never the
/// other way round.
pub proof fn law_prefix_comes_first<T>(lt: spec_fn(T, T) -> bool, same: Seq<T>, more: Seq<T>)
    ensures
        lex_order(lt)(same, same + more) <==> more.len() > 0,
        !lex_order(lt)(same + more, same),
    decreases same.len(),
{
    let p = same + more;
    if same.len() > 0 {
        let rest = same.drop_first();
        assert(p[0] == same[0]);
        assert(p.drop_first() =~= rest + more);
        law_prefix_comes_first(lt, rest, more);
        assert(lex_order(lt)(rest, rest + more) == lex(lt, rest, rest + more));
        assert(lex_order(lt)(rest + more, rest) == lex(lt, rest + more, rest));
    }
}

/// Texts are in the order of the bytes that UTF-8 writes them in: the first byte in which they
/// differ decides, and a text comes before a longer one that begins with it.
pub proof fn law_texts_are_in_byte_order(
    a: Seq<char>,
    b: Seq<char>,
    same: Seq<u8>,
    x: Seq<u8>,
    y: Seq<u8>,
)
    requires
        encode_utf8(a) == same + x,
        encode_utf8(b) == same + y,
        x.len() > 0 && y.len() > 0 ==> x[0] != y[0],
    ensures
        text_order()(a, b) <==> y.len() > 0 && (x.len() == 0 || x[0] < y[0]),
{
    let lt = byte_order();
    if x.len() > 0 && y.len() > 0 {
        law_first_difference_decides(lt, same, x[0], x.drop_first(), y[0], y.drop_first());
        assert(same + seq![x[0]] + x.drop_first() =~= same + x);
        assert(same + seq![y[0]] + y.drop_first() =~= same + y);
    } else if x.len() == 0 {
        law_prefix_comes_first(lt, same, y);
        assert(same + x =~= same);
    } else {
        law_prefix_comes_first(lt, same, x);
        assert(same + y =~= same);
    }
    assert(text_order()(a, b) == lex_order(lt)(same + x, same + y));
}

/// In a sorted sequence every element comes before every later one, and where that is so the
/// sequence is sorted.
pub proof fn law_sorted<T>(s: Seq<T>, lt: spec_fn(T, T) -> bool)
    ensures
        sorted(s, lt) <==> forall|i: int, j: int|
            0 <= i < j < s.len() ==> lt(#[trigger] s[i], #[trigger] s[j]),
        weakly_sorted(s, lt) <==> forall|i: int, j: int|
            0 <= i < j < s.len() ==> !lt(#[trigger] s[j], #[trigger] s[i]),
{
}

} // verus!
