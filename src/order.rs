use vstd::prelude::*;
use vstd::string::StringSliceAdditionalSpecFns;
use vstd::utf8::encode_utf8;

verus! {

/// A type whose values are ordered by a total preorder `le`, with an
/// executable strict comparison and an exact copy.
///
/// Values that are ordered both ways need not be identical: the tree keeps
/// such values side by side, in the order that its insertion rule gives them.
pub trait TotalOrder: Sized {
    /// `self` is ordered at or before `other`.
    spec fn le(self, other: Self) -> bool;

    proof fn lemma_transitive(x: Self, y: Self, z: Self)
        requires
            x.le(y),
            y.le(z),
        ensures
            x.le(z),
    ;

    proof fn lemma_total(x: Self, y: Self)
        ensures
            x.le(y) || y.le(x),
    ;

    /// Whether `self` is ordered strictly before `other`.
    fn less_than(&self, other: &Self) -> (r: bool)
        ensures
            r == !other.le(*self),
    ;

    /// A copy of `self`, handed out so that callers never alias stored data.
    fn duplicate(&self) -> (r: Self)
        ensures
            r == *self,
    ;
}

impl TotalOrder for u8 {
    open spec fn le(self, other: Self) -> bool {
        self <= other
    }

    proof fn lemma_transitive(x: Self, y: Self, z: Self) {
    }

    proof fn lemma_total(x: Self, y: Self) {
    }

    fn less_than(&self, other: &Self) -> (r: bool) {
        *self < *other
    }

    fn duplicate(&self) -> (r: Self) {
        *self
    }
}

impl TotalOrder for u16 {
    open spec fn le(self, other: Self) -> bool {
        self <= other
    }

    proof fn lemma_transitive(x: Self, y: Self, z: Self) {
    }

    proof fn lemma_total(x: Self, y: Self) {
    }

    fn less_than(&self, other: &Self) -> (r: bool) {
        *self < *other
    }

    fn duplicate(&self) -> (r: Self) {
        *self
    }
}

impl TotalOrder for u32 {
    open spec fn le(self, other: Self) -> bool {
        self <= other
    }

    proof fn lemma_transitive(x: Self, y: Self, z: Self) {
    }

    proof fn lemma_total(x: Self, y: Self) {
    }

    fn less_than(&self, other: &Self) -> (r: bool) {
        *self < *other
    }

    fn duplicate(&self) -> (r: Self) {
        *self
    }
}

impl TotalOrder for u64 {
    open spec fn le(self, other: Self) -> bool {
        self <= other
    }

    proof fn lemma_transitive(x: Self, y: Self, z: Self) {
    }

    proof fn lemma_total(x: Self, y: Self) {
    }

    fn less_than(&self, other: &Self) -> (r: bool) {
        *self < *other
    }

    fn duplicate(&self) -> (r: Self) {
        *self
    }
}

impl TotalOrder for usize {
    open spec fn le(self, other: Self) -> bool {
        self <= other
    }

    proof fn lemma_transitive(x: Self, y: Self, z: Self) {
    }

    proof fn lemma_total(x: Self, y: Self) {
    }

    fn less_than(&self, other: &Self) -> (r: bool) {
        *self < *other
    }

    fn duplicate(&self) -> (r: Self) {
        *self
    }
}

impl TotalOrder for i32 {
    open spec fn le(self, other: Self) -> bool {
        self <= other
    }

    proof fn lemma_transitive(x: Self, y: Self, z: Self) {
    }

    proof fn lemma_total(x: Self, y: Self) {
    }

    fn less_than(&self, other: &Self) -> (r: bool) {
        *self < *other
    }

    fn duplicate(&self) -> (r: Self) {
        *self
    }
}

impl TotalOrder for i64 {
    open spec fn le(self, other: Self) -> bool {
        self <= other
    }

    proof fn lemma_transitive(x: Self, y: Self, z: Self) {
    }

    proof fn lemma_total(x: Self, y: Self) {
    }

    fn less_than(&self, other: &Self) -> (r: bool) {
        *self < *other
    }

    fn duplicate(&self) -> (r: Self) {
        *self
    }
}

impl TotalOrder for char {
    open spec fn le(self, other: Self) -> bool {
        self <= other
    }

    proof fn lemma_transitive(x: Self, y: Self, z: Self) {
    }

    proof fn lemma_total(x: Self, y: Self) {
    }

    fn less_than(&self, other: &Self) -> (r: bool) {
        *self < *other
    }

    fn duplicate(&self) -> (r: Self) {
        *self
    }
}

/// Lexicographic order on bytes: the first differing byte decides, and a
/// proper prefix comes first.
pub open spec fn lex_le(a: Seq<u8>, b: Seq<u8>) -> bool
    decreases a.len(),
{
    if a.len() == 0 {
        true
    } else if b.len() == 0 {
        false
    } else if a[0] != b[0] {
        a[0] < b[0]
    } else {
        lex_le(a.drop_first(), b.drop_first())
    }
}

pub proof fn lemma_lex_transitive(a: Seq<u8>, b: Seq<u8>, c: Seq<u8>)
    requires
        lex_le(a, b),
        lex_le(b, c),
    ensures
        lex_le(a, c),
    decreases a.len(),
{
    if a.len() > 0 && b.len() > 0 && c.len() > 0 && a[0] == b[0] && b[0] == c[0] {
        lemma_lex_transitive(a.drop_first(), b.drop_first(), c.drop_first());
    }
}

pub proof fn lemma_lex_total(a: Seq<u8>, b: Seq<u8>)
    ensures
        lex_le(a, b) || lex_le(b, a),
    decreases a.len(),
{
    if a.len() > 0 && b.len() > 0 && a[0] == b[0] {
        lemma_lex_total(a.drop_first(), b.drop_first());
    }
}

/// Whether `a` comes strictly before `b` in lexicographic order.
fn lex_less(a: &[u8], b: &[u8]) -> (r: bool)
    ensures
        r == !lex_le(b@, a@),
{
    let mut i: usize = 0;
    assert(a@.skip(0) =~= a@);
    assert(b@.skip(0) =~= b@);
    while i < a.len() && i < b.len()
        invariant
            i <= a@.len(),
            i <= b@.len(),
            lex_le(b@, a@) == lex_le(b@.skip(i as int), a@.skip(i as int)),
        decreases a@.len() - i,
    {
        if a[i] != b[i] {
            return a[i] < b[i];
        }
        assert(a@.skip(i as int).drop_first() =~= a@.skip(i + 1));
        assert(b@.skip(i as int).drop_first() =~= b@.skip(i + 1));
        i = i + 1;
    }
    i < b.len()
}

impl<'a> TotalOrder for &'a [u8] {
    open spec fn le(self, other: Self) -> bool {
        lex_le(self@, other@)
    }

    proof fn lemma_transitive(x: Self, y: Self, z: Self) {
        lemma_lex_transitive(x@, y@, z@);
    }

    proof fn lemma_total(x: Self, y: Self) {
        lemma_lex_total(x@, y@);
    }

    fn less_than(&self, other: &Self) -> (r: bool) {
        lex_less(*self, *other)
    }

    fn duplicate(&self) -> (r: Self) {
        *self
    }
}

/// Strings are ordered by their UTF-8 bytes, which is the order of their
/// characters' code points.
impl<'a> TotalOrder for &'a str {
    open spec fn le(self, other: Self) -> bool {
        lex_le(self.spec_bytes(), other.spec_bytes())
    }

    proof fn lemma_transitive(x: Self, y: Self, z: Self) {
        lemma_lex_transitive(x.spec_bytes(), y.spec_bytes(), z.spec_bytes());
    }

    proof fn lemma_total(x: Self, y: Self) {
        lemma_lex_total(x.spec_bytes(), y.spec_bytes());
    }

    fn less_than(&self, other: &Self) -> (r: bool) {
        lex_less(self.as_bytes(), other.as_bytes())
    }

    fn duplicate(&self) -> (r: Self) {
        *self
    }
}

/// Ordered as `&str` is, by UTF-8 bytes.
impl TotalOrder for String {
    open spec fn le(self, other: Self) -> bool {
        lex_le(encode_utf8(self@), encode_utf8(other@))
    }

    proof fn lemma_transitive(x: Self, y: Self, z: Self) {
        lemma_lex_transitive(encode_utf8(x@), encode_utf8(y@), encode_utf8(z@));
    }

    proof fn lemma_total(x: Self, y: Self) {
        lemma_lex_total(encode_utf8(x@), encode_utf8(y@));
    }

    fn less_than(&self, other: &Self) -> (r: bool) {
        lex_less(self.as_str().as_bytes(), other.as_str().as_bytes())
    }

    fn duplicate(&self) -> (r: Self) {
        self.clone()
    }
}

/// Every value of `s` is ordered at or before each value that follows it.
pub open spec fn sorted<T: TotalOrder>(s: Seq<T>) -> bool {
    forall|i: int, j: int| 0 <= i < j < s.len() ==> #[trigger] s[i].le(s[j])
}

/// How many values of `s` are ordered at or before `v`.
pub open spec fn count_le<T: TotalOrder>(s: Seq<T>, v: T) -> nat
    decreases s.len(),
{
    if s.len() == 0 {
        0
    } else {
        count_le(s.drop_last(), v) + if s.last().le(v) {
            1nat
        } else {
            0nat
        }
    }
}

/// `s` with `v` placed after every value ordered at or before it, and before
/// every value ordered strictly after it (for a sorted `s`).
pub open spec fn sorted_insert<T: TotalOrder>(s: Seq<T>, v: T) -> Seq<T> {
    s.insert(count_le(s, v) as int, v)
}

pub proof fn lemma_count_le_bound<T: TotalOrder>(s: Seq<T>, v: T)
    ensures
        count_le(s, v) <= s.len(),
    decreases s.len(),
{
    if s.len() > 0 {
        lemma_count_le_bound(s.drop_last(), v);
    }
}

pub proof fn lemma_count_le_concat<T: TotalOrder>(a: Seq<T>, b: Seq<T>, v: T)
    ensures
        count_le(a + b, v) == count_le(a, v) + count_le(b, v),
    decreases b.len(),
{
    if b.len() == 0 {
        assert(a + b =~= a);
    } else {
        assert((a + b).drop_last() =~= a + b.drop_last());
        lemma_count_le_concat(a, b.drop_last(), v);
    }
}

pub proof fn lemma_count_le_all<T: TotalOrder>(s: Seq<T>, v: T)
    requires
        forall|i: int| 0 <= i < s.len() ==> #[trigger] s[i].le(v),
    ensures
        count_le(s, v) == s.len(),
    decreases s.len(),
{
    if s.len() > 0 {
        lemma_count_le_all(s.drop_last(), v);
    }
}

pub proof fn lemma_count_le_none<T: TotalOrder>(s: Seq<T>, v: T)
    requires
        forall|i: int| 0 <= i < s.len() ==> !#[trigger] s[i].le(v),
    ensures
        count_le(s, v) == 0,
    decreases s.len(),
{
    if s.len() > 0 {
        lemma_count_le_none(s.drop_last(), v);
    }
}

/// In a sorted sequence the values ordered at or before `v` are exactly its
/// first `count_le(s, v)` values.
pub proof fn lemma_count_le_split<T: TotalOrder>(s: Seq<T>, v: T)
    requires
        sorted(s),
    ensures
        count_le(s, v) <= s.len(),
        forall|i: int| 0 <= i < count_le(s, v) ==> #[trigger] s[i].le(v),
        forall|i: int| count_le(s, v) <= i < s.len() ==> !#[trigger] s[i].le(v),
    decreases s.len(),
{
    if s.len() > 0 {
        let t = s.drop_last();
        assert(sorted(t)) by {
            assert forall|i: int, j: int| 0 <= i < j < t.len() implies #[trigger] t[i].le(t[j]) by {
                assert(s[i].le(s[j]));
            }
        }
        lemma_count_le_split(t, v);
        if s.last().le(v) {
            assert forall|i: int| 0 <= i < t.len() implies #[trigger] t[i].le(v) by {
                assert(s[i].le(s[s.len() - 1]));
                T::lemma_transitive(t[i], s.last(), v);
            }
            lemma_count_le_all(t, v);
        }
        assert forall|i: int| 0 <= i < t.len() implies #[trigger] s[i] == t[i] by {}
    }
}

/// Placing a value by `sorted_insert` keeps a sequence sorted.
pub proof fn lemma_sorted_insert_sorted<T: TotalOrder>(s: Seq<T>, v: T)
    requires
        sorted(s),
    ensures
        sorted(sorted_insert(s, v)),
        sorted_insert(s, v).to_multiset() =~= s.to_multiset().insert(v),
{
    lemma_count_le_split(s, v);
    let k = count_le(s, v) as int;
    let r = sorted_insert(s, v);
    s.insert_ensures(k, v);
    assert forall|i: int, j: int| 0 <= i < j < r.len() implies #[trigger] r[i].le(r[j]) by {
        if j < k {
            assert(s[i].le(s[j]));
        } else if j == k {
        } else if i < k {
            assert(s[i].le(v));
            T::lemma_total(v, s[j - 1]);
            T::lemma_transitive(s[i], v, s[j - 1]);
        } else if i == k {
            T::lemma_total(v, s[j - 1]);
        } else {
            assert(s[i - 1].le(s[j - 1]));
        }
    }
    let front = s.subrange(0, k);
    let back = s.subrange(k, s.len() as int);
    vstd::seq_lib::lemma_multiset_commutative(front.push(v), back);
    vstd::seq_lib::lemma_multiset_commutative(front, back);
    vstd::seq_lib::to_multiset_build(front, v);
    assert(s =~= front + back);
}

} // verus!
