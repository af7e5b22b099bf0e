//! Byte-wise lexicographic order, and stable sorting by a total preorder.

use vstd::prelude::*;

verus! {

/// `a` comes before `b` in dictionary order of bytes, or equals it.
pub open spec fn lex_le(a: Seq<u8>, b: Seq<u8>) -> bool
    decreases a.len(),
{
    ||| a.len() == 0
    ||| b.len() > 0 && a[0] < b[0]
    ||| b.len() > 0 && a[0] == b[0] && lex_le(a.drop_first(), b.drop_first())
}

/// `a` comes strictly before `b` in dictionary order of bytes.
pub open spec fn lex_lt(a: Seq<u8>, b: Seq<u8>) -> bool {
    a != b && lex_le(a, b)
}

/// Dictionary order is reflexive.
pub proof fn lemma_lex_le_reflexive(a: Seq<u8>)
    ensures
        lex_le(a, a),
    decreases a.len(),
{
    if a.len() > 0 {
        lemma_lex_le_reflexive(a.drop_first());
    }
}

/// Dictionary order compares any two byte strings.
pub proof fn lemma_lex_le_total(a: Seq<u8>, b: Seq<u8>)
    ensures
        lex_le(a, b) || lex_le(b, a),
    decreases a.len(),
{
    if a.len() > 0 && b.len() > 0 {
        lemma_lex_le_total(a.drop_first(), b.drop_first());
    }
}

/// Dictionary order is transitive.
pub proof fn lemma_lex_le_transitive(a: Seq<u8>, b: Seq<u8>, c: Seq<u8>)
    requires
        lex_le(a, b),
        lex_le(b, c),
    ensures
        lex_le(a, c),
    decreases a.len(),
{
    if a.len() > 0 && b.len() > 0 && c.len() > 0 && a[0] == b[0] && b[0] == c[0] {
        lemma_lex_le_transitive(a.drop_first(), b.drop_first(), c.drop_first());
    }
}

/// Two byte strings that come before each other are equal.
pub proof fn lemma_lex_le_antisymmetric(a: Seq<u8>, b: Seq<u8>)
    requires
        lex_le(a, b),
        lex_le(b, a),
    ensures
        a == b,
    decreases a.len(),
{
    if a.len() > 0 && b.len() > 0 {
        lemma_lex_le_antisymmetric(a.drop_first(), b.drop_first());
        assert(a =~= seq![a[0]] + a.drop_first());
        assert(b =~= seq![b[0]] + b.drop_first());
    } else {
        assert(a =~= b);
    }
}

/// Strict dictionary order is transitive.
pub proof fn lemma_lex_lt_transitive(a: Seq<u8>, b: Seq<u8>, c: Seq<u8>)
    requires
        lex_lt(a, b),
        lex_lt(b, c),
    ensures
        lex_lt(a, c),
{
    lemma_lex_le_transitive(a, b, c);
    if a == c {
        lemma_lex_le_antisymmetric(a, b);
    }
}

/// Where one byte string stands relative to another.
#[derive(Clone, Copy, Debug, PartialEq, Eq, Structural)]
pub enum Place {
    /// The first comes strictly before the second.
    Before,
    /// The two are equal.
    Same,
    /// The first comes strictly after the second.
    After,
}

/// Compares two byte strings in dictionary order.
pub fn place(a: &[u8], b: &[u8]) -> (r: Place)
    ensures
        r == Place::Before <==> lex_lt(a@, b@),
        r == Place::Same <==> a@ == b@,
        r == Place::After <==> lex_lt(b@, a@),
{
    let mut i: usize = 0;
    proof {
        if lex_lt(a@, b@) && lex_lt(b@, a@) {
            lemma_lex_le_antisymmetric(a@, b@);
        }
        assert(a@.skip(0) =~= a@);
        assert(b@.skip(0) =~= b@);
    }
    while i < a.len() && i < b.len() && a[i] == b[i]
        invariant
            i <= a@.len(),
            i <= b@.len(),
            a@.take(i as int) =~= b@.take(i as int),
            lex_le(a@, b@) == lex_le(a@.skip(i as int), b@.skip(i as int)),
            lex_le(b@, a@) == lex_le(b@.skip(i as int), a@.skip(i as int)),
        decreases a@.len() - i,
    {
        assert(a@.skip(i as int).drop_first() =~= a@.skip(i + 1));
        assert(b@.skip(i as int).drop_first() =~= b@.skip(i + 1));
        assert(a@.take(i + 1) =~= a@.take(i as int).push(a@[i as int]));
        assert(b@.take(i + 1) =~= b@.take(i as int).push(b@[i as int]));
        i = i + 1;
    }
    proof {
        if lex_le(a@, b@) && lex_le(b@, a@) {
            lemma_lex_le_antisymmetric(a@, b@);
        }
        if a@.len() == i && b@.len() == i {
            assert(a@ =~= a@.take(i as int));
            assert(b@ =~= b@.take(i as int));
        } else if i < a@.len() && i < b@.len() {
            assert(a@.skip(i as int)[0] != b@.skip(i as int)[0]);
        }
    }
    if i < a.len() {
        if i < b.len() {
            if a[i] < b[i] {
                Place::Before
            } else {
                Place::After
            }
        } else {
            Place::After
        }
    } else if i < b.len() {
        Place::Before
    } else {
        Place::Same
    }
}

/// Whether two byte strings are equal.
pub fn same_bytes(a: &[u8], b: &[u8]) -> (r: bool)
    ensures
        r == (a@ == b@),
{
    match place(a, b) {
        Place::Same => true,
        _ => false,
    }
}

/// A ranking that compares any two things and is transitive.
pub open spec fn is_ranking<A>(le: spec_fn(A, A) -> bool) -> bool {
    &&& forall|a: A, b: A| #[trigger] le(a, b) || le(b, a)
    &&& forall|a: A, b: A, c: A| #[trigger] le(a, b) && #[trigger] le(b, c) ==> le(a, c)
}

/// Of two places in `items`, `i` goes before `j`: by rank, and within one rank by place.
pub open spec fn goes_before<A>(items: Seq<A>, le: spec_fn(A, A) -> bool, i: int, j: int) -> bool {
    le(items[i], items[j]) && (le(items[j], items[i]) ==> i < j)
}

/// `sorted` holds the items of `items`, each once, in the places that `origin` lists,
/// by rank and within one rank in their old order.
pub open spec fn arranged_by<A>(
    items: Seq<A>,
    le: spec_fn(A, A) -> bool,
    sorted: Seq<A>,
    origin: Seq<int>,
) -> bool {
    &&& items.len() == sorted.len() == origin.len()
    &&& forall|k: int| 0 <= k < items.len() ==> #[trigger] origin.contains(k)
    &&& forall|i: int|
        0 <= i < origin.len() ==> 0 <= #[trigger] origin[i] < items.len() && sorted[i]
            == items[origin[i]]
    &&& forall|i: int, j: int|
        #![trigger origin[i], origin[j]]
        0 <= i < j < origin.len() ==> goes_before(items, le, origin[i], origin[j])
}

/// `sorted` is the stable sort of `items` by rank.
pub open spec fn stably_sorted<A>(
    items: Seq<A>,
    le: spec_fn(A, A) -> bool,
    sorted: Seq<A>,
) -> bool {
    exists|origin: Seq<int>| arranged_by(items, le, sorted, origin)
}

/// The stable sort of `items` by rank.
pub open spec fn stable_sort_of<A>(items: Seq<A>, le: spec_fn(A, A) -> bool) -> Seq<A> {
    choose|sorted: Seq<A>| stably_sorted(items, le, sorted)
}

proof fn lemma_increasing_unique<A>(
    items: Seq<A>,
    le: spec_fn(A, A) -> bool,
    p: Seq<int>,
    q: Seq<int>,
)
    requires
        forall|k: int| #[trigger] p.contains(k) <==> q.contains(k),
        forall|i: int, j: int|
            #![trigger p[i], p[j]]
            0 <= i < j < p.len() ==> goes_before(items, le, p[i], p[j]),
        forall|i: int, j: int|
            #![trigger q[i], q[j]]
            0 <= i < j < q.len() ==> goes_before(items, le, q[i], q[j]),
    ensures
        p == q,
    decreases p.len(),
{
    if p.len() == 0 {
        if q.len() > 0 {
            assert(q.contains(q[0]));
            assert(p.contains(q[0]));
        }
        assert(p =~= q);
    } else {
        assert(p.contains(p[0]));
        assert(q.contains(p[0]));
        assert(q.contains(q[0]));
        assert(p.contains(q[0]));
        let x = choose|x: int| 0 <= x < q.len() && q[x] == p[0];
        let y = choose|y: int| 0 <= y < p.len() && p[y] == q[0];
        if x > 0 && y > 0 {
            assert(goes_before(items, le, q[0], q[x]));
            assert(goes_before(items, le, p[0], p[y]));
        }
        assert(p[0] == q[0]);
        let p2 = p.drop_first();
        let q2 = q.drop_first();
        assert forall|k: int| #[trigger] p2.contains(k) <==> q2.contains(k) by {
            if p2.contains(k) {
                let i = choose|i: int| 0 <= i < p2.len() && p2[i] == k;
                assert(p[i + 1] == k);
                assert(goes_before(items, le, p[0], p[i + 1]));
                assert(p.contains(k));
                assert(q.contains(k));
                let j = choose|j: int| 0 <= j < q.len() && q[j] == k;
                if j == 0 {
                    assert(k == p[0]);
                    assert(!goes_before(items, le, k, k));
                }
                assert(q2[j - 1] == k);
            }
            if q2.contains(k) {
                let i = choose|i: int| 0 <= i < q2.len() && q2[i] == k;
                assert(q[i + 1] == k);
                assert(goes_before(items, le, q[0], q[i + 1]));
                assert(q.contains(k));
                assert(p.contains(k));
                let j = choose|j: int| 0 <= j < p.len() && p[j] == k;
                if j == 0 {
                    assert(k == q[0]);
                    assert(!goes_before(items, le, k, k));
                }
                assert(p2[j - 1] == k);
            }
        }
        assert forall|i: int, j: int|
            #![trigger p2[i], p2[j]]
            0 <= i < j < p2.len() implies goes_before(items, le, p2[i], p2[j]) by {
            assert(p2[i] == p[i + 1] && p2[j] == p[j + 1]);
        }
        assert forall|i: int, j: int|
            #![trigger q2[i], q2[j]]
            0 <= i < j < q2.len() implies goes_before(items, le, q2[i], q2[j]) by {
            assert(q2[i] == q[i + 1] && q2[j] == q[j + 1]);
        }
        lemma_increasing_unique(items, le, p2, q2);
        assert(p =~= seq![p[0]] + p2);
        assert(q =~= seq![q[0]] + q2);
    }
}

/// There is only one stable sort.
pub proof fn law_stable_sort_is_unique<A>(
    items: Seq<A>,
    le: spec_fn(A, A) -> bool,
    a: Seq<A>,
    b: Seq<A>,
)
    requires
        stably_sorted(items, le, a),
        stably_sorted(items, le, b),
    ensures
        a == b,
        a == stable_sort_of(items, le),
{
    let c = stable_sort_of(items, le);
    assert(stably_sorted(items, le, c));
    let p = choose|p: Seq<int>| arranged_by(items, le, a, p);
    let q = choose|q: Seq<int>| arranged_by(items, le, b, q);
    let o = choose|o: Seq<int>| arranged_by(items, le, c, o);
    assert forall|k: int| #[trigger] p.contains(k) <==> q.contains(k) by {
        if p.contains(k) {
            let i = choose|i: int| 0 <= i < p.len() && p[i] == k;
            assert(0 <= p[i] < items.len());
        }
        if q.contains(k) {
            let i = choose|i: int| 0 <= i < q.len() && q[i] == k;
            assert(0 <= q[i] < items.len());
        }
    }
    assert forall|k: int| #[trigger] p.contains(k) <==> o.contains(k) by {
        if p.contains(k) {
            let i = choose|i: int| 0 <= i < p.len() && p[i] == k;
            assert(0 <= p[i] < items.len());
        }
        if o.contains(k) {
            let i = choose|i: int| 0 <= i < o.len() && o[i] == k;
            assert(0 <= o[i] < items.len());
        }
    }
    lemma_increasing_unique(items, le, p, q);
    lemma_increasing_unique(items, le, p, o);
    assert forall|i: int| 0 <= i < a.len() implies a[i] == b[i] && a[i] == c[i] by {
        assert(0 <= p[i] < items.len());
    }
    assert(a =~= b);
    assert(a =~= c);
}

/// In a stable sort, every item ranks up to all items behind it.
pub proof fn law_stable_sort_is_ranked<A>(items: Seq<A>, le: spec_fn(A, A) -> bool, sorted: Seq<A>)
    requires
        stably_sorted(items, le, sorted),
    ensures
        forall|i: int, j: int|
            #![trigger sorted[i], sorted[j]]
            0 <= i < j < sorted.len() ==> le(sorted[i], sorted[j]),
{
    let p = choose|p: Seq<int>| arranged_by(items, le, sorted, p);
    assert forall|i: int, j: int|
        #![trigger sorted[i], sorted[j]]
        0 <= i < j < sorted.len() implies le(sorted[i], sorted[j]) by {
        assert(goes_before(items, le, p[i], p[j]));
    }
}

/// Items can be sorted in steps: to sort some, put others behind them and sort again is to
/// sort all of them at once.
pub proof fn law_stable_sort_in_steps<A>(
    first: Seq<A>,
    then: Seq<A>,
    le: spec_fn(A, A) -> bool,
    between: Seq<A>,
    sorted: Seq<A>,
)
    requires
        stably_sorted(first, le, between),
        stably_sorted(between + then, le, sorted),
    ensures
        stably_sorted(first + then, le, sorted),
{
    let p = choose|p: Seq<int>| arranged_by(first, le, between, p);
    let q = choose|q: Seq<int>| arranged_by(between + then, le, sorted, q);
    let n = first.len() as int;
    let all = first + then;
    let mid = between + then;
    let origin = Seq::new(
        q.len(),
        |i: int|
            if q[i] < n {
                p[q[i]]
            } else {
                q[i]
            },
    );
    assert forall|i: int| 0 <= i < origin.len() implies 0 <= #[trigger] origin[i] < all.len()
        && sorted[i] == all[origin[i]] by {
        assert(0 <= q[i] < mid.len());
        if q[i] < n {
            assert(between[q[i]] == first[p[q[i]]]);
        }
    }
    assert forall|k: int| 0 <= k < all.len() implies #[trigger] origin.contains(k) by {
        let m = if k < n {
            assert(p.contains(k));
            choose|m: int| 0 <= m < p.len() && p[m] == k
        } else {
            k
        };
        assert(q.contains(m));
        let i = choose|i: int| 0 <= i < q.len() && q[i] == m;
        assert(origin[i] == k);
    }
    assert forall|i: int, j: int|
        #![trigger origin[i], origin[j]]
        0 <= i < j < origin.len() implies goes_before(all, le, origin[i], origin[j]) by {
        assert(goes_before(mid, le, q[i], q[j]));
        assert(mid[q[i]] == all[origin[i]] && mid[q[j]] == all[origin[j]]);
        if q[i] < n && q[j] < n && q[i] < q[j] {
            assert(goes_before(first, le, p[q[i]], p[q[j]]));
        }
    }
    assert(arranged_by(all, le, sorted, origin));
}

/// A stable sort holds the same items.
pub proof fn law_stable_sort_keeps_items<A>(items: Seq<A>, le: spec_fn(A, A) -> bool, sorted: Seq<A>)
    requires
        stably_sorted(items, le, sorted),
    ensures
        sorted.len() == items.len(),
        forall|a: A| #[trigger] sorted.contains(a) <==> items.contains(a),
{
    let p = choose|p: Seq<int>| arranged_by(items, le, sorted, p);
    assert forall|a: A| #[trigger] sorted.contains(a) <==> items.contains(a) by {
        if sorted.contains(a) {
            let i = choose|i: int| 0 <= i < sorted.len() && sorted[i] == a;
            assert(items[p[i]] == a);
        }
        if items.contains(a) {
            let k = choose|k: int| 0 <= k < items.len() && items[k] == a;
            assert(p.contains(k));
            let i = choose|i: int| 0 <= i < p.len() && p[i] == k;
            assert(sorted[i] == a);
        }
    }
}

proof fn lemma_arranged_insert<A>(
    items: Seq<A>,
    le: spec_fn(A, A) -> bool,
    sorted: Seq<A>,
    origin: Seq<int>,
    x: A,
    pos: int,
)
    requires
        is_ranking(le),
        arranged_by(items, le, sorted, origin),
        0 <= pos <= sorted.len(),
        pos > 0 ==> le(sorted[pos - 1], x),
        pos < sorted.len() ==> !le(sorted[pos], x),
    ensures
        arranged_by(
            items.push(x),
            le,
            sorted.insert(pos, x),
            origin.insert(pos, items.len() as int),
        ),
{
    let n = items.len() as int;
    let items2 = items.push(x);
    let sorted2 = sorted.insert(pos, x);
    let origin2 = origin.insert(pos, n);
    assert forall|i: int| 0 <= i < pos implies le(#[trigger] sorted[i], x) by {
        if i < pos - 1 {
            assert(goes_before(items, le, origin[i], origin[pos - 1]));
            assert(le(sorted[i], sorted[pos - 1]));
            assert(le(sorted[pos - 1], x));
        }
    }
    assert forall|j: int| pos <= j < sorted.len() implies !le(#[trigger] sorted[j], x) && le(
        x,
        sorted[j],
    ) by {
        assert(le(x, sorted[pos]) || le(sorted[pos], x));
        if pos < j {
            assert(goes_before(items, le, origin[pos], origin[j]));
            assert(le(sorted[pos], sorted[j]));
            assert(le(x, sorted[pos]));
            if le(sorted[j], x) {
                assert(le(sorted[pos], x));
            }
        }
    }
    assert forall|i: int| 0 <= i < origin2.len() implies 0 <= #[trigger] origin2[i] < n + 1
        && sorted2[i] == items2[origin2[i]] by {
        if i < pos {
            assert(origin2[i] == origin[i]);
        } else if i > pos {
            assert(origin2[i] == origin[i - 1]);
        }
    }
    assert forall|k: int| 0 <= k < n + 1 implies #[trigger] origin2.contains(k) by {
        if k == n {
            assert(origin2[pos] == n);
        } else {
            assert(origin.contains(k));
            let i = choose|i: int| 0 <= i < origin.len() && origin[i] == k;
            let i2 = if i < pos { i } else { i + 1 };
            assert(origin2[i2] == k);
        }
    }
    assert forall|i: int, j: int|
        #![trigger origin2[i], origin2[j]]
        0 <= i < j < origin2.len() implies goes_before(items2, le, origin2[i], origin2[j]) by {
        let i0 = if i < pos { i } else { i - 1 };
        let j0 = if j < pos { j } else { j - 1 };
        if i != pos {
            assert(origin2[i] == origin[i0] && items2[origin2[i]] == sorted[i0]);
        }
        if j != pos {
            assert(origin2[j] == origin[j0] && items2[origin2[j]] == sorted[j0]);
        }
        if i != pos && j != pos {
            assert(goes_before(items, le, origin[i0], origin[j0]));
        }
    }
}

/// Things that are sorted by a ranking of what they stand for.
pub trait Ranked: Sized {
    /// What such a thing stands for.
    type Model;

    /// What this thing stands for.
    spec fn model(&self) -> Self::Model;

    /// The ranking.
    spec fn ranking() -> spec_fn(Self::Model, Self::Model) -> bool;

    /// Whether this thing ranks before the other, or with it.
    fn ranks_up_to(&self, other: &Self) -> (r: bool)
        ensures
            r == Self::ranking()(self.model(), other.model()),
    ;

    /// It is a ranking.
    proof fn lemma_ranking()
        ensures
            is_ranking(Self::ranking()),
    ;
}

/// What each of a sequence of things stands for.
pub open spec fn models<T: Ranked>(items: Seq<T>) -> Seq<T::Model> {
    items.map_values(|t: T| t.model())
}

/// Sorts `items` stably.
pub fn stable_sort<T: Ranked>(items: Vec<T>) -> (r: Vec<T>)
    ensures
        stably_sorted(models(items@), T::ranking(), models(r@)),
        models(r@) == stable_sort_of(models(items@), T::ranking()),
{
    let mut sorted: Vec<T> = Vec::new();
    let mut rest: Vec<T> = items;
    let ghost mut origin: Seq<int> = Seq::empty();
    let ghost mut done: Seq<T> = Seq::empty();
    proof {
        T::lemma_ranking();
    }
    while rest.len() > 0
        invariant
            is_ranking(T::ranking()),
            done + rest@ =~= items@,
            arranged_by(models(done), T::ranking(), models(sorted@), origin),
        decreases rest@.len(),
    {
        let x = rest.remove(0);
        let mut pos: usize = sorted.len();
        while pos > 0 && !sorted[pos - 1].ranks_up_to(&x)
            invariant
                pos <= sorted@.len(),
                pos < sorted@.len() ==> !T::ranking()(sorted@[pos as int].model(), x.model()),
            decreases pos,
        {
            pos = pos - 1;
        }
        proof {
            lemma_arranged_insert(
                models(done),
                T::ranking(),
                models(sorted@),
                origin,
                x.model(),
                pos as int,
            );
            assert(models(done.push(x)) =~= models(done).push(x.model()));
            assert(models(sorted@.insert(pos as int, x)) =~= models(sorted@).insert(
                pos as int,
                x.model(),
            ));
            origin = origin.insert(pos as int, done.len() as int);
            done = done.push(x);
        }
        sorted.insert(pos, x);
    }
    proof {
        assert(done =~= items@);
        law_stable_sort_is_unique(
            models(items@),
            T::ranking(),
            models(sorted@),
            models(sorted@),
        );
    }
    sorted
}

/// The first byte in which two byte strings differ decides their order, and a byte string
/// comes before what it is the beginning of.
pub proof fn law_first_difference_decides(
    common: Seq<u8>,
    x: u8,
    y: u8,
    a: Seq<u8>,
    b: Seq<u8>,
)
    ensures
        x < y ==> lex_lt(common + seq![x] + a, common + seq![y] + b) && !lex_le(
            common + seq![y] + b,
            common + seq![x] + a,
        ),
        lex_le(common, common + a),
        a.len() > 0 ==> lex_lt(common, common + a) && !lex_le(common + a, common),
    decreases common.len(),
{
    let (p, q) = (common + seq![x] + a, common + seq![y] + b);
    if common.len() == 0 {
        assert(p[0] == x && q[0] == y);
        assert(common + a =~= a);
        if x < y {
            assert(p != q);
        }
        if a.len() > 0 {
            assert(common != a);
        }
    } else {
        let c = common.drop_first();
        law_first_difference_decides(c, x, y, a, b);
        assert(p.drop_first() =~= c + seq![x] + a);
        assert(q.drop_first() =~= c + seq![y] + b);
        assert((common + a).drop_first() =~= c + a);
        assert(p[0] == common[0] && q[0] == common[0] && (common + a)[0] == common[0]);
        if a.len() > 0 {
            assert((common + a).len() > common.len());
        }
    }
}

/// Strict order is order between different byte strings.
pub proof fn law_strict_order(a: Seq<u8>, b: Seq<u8>)
    ensures
        lex_lt(a, b) <==> lex_le(a, b) && a != b,
        lex_lt(a, b) <==> !lex_le(b, a),
{
    lemma_lex_le_total(a, b);
    lemma_lex_le_reflexive(a);
    if lex_le(a, b) && lex_le(b, a) {
        lemma_lex_le_antisymmetric(a, b);
    }
}

/// Sorting leaves what is in order as it is, with things of one rank in the order that they
/// had.
pub proof fn law_sorted_stays_as_it_is<A>(items: Seq<A>, le: spec_fn(A, A) -> bool, sorted: Seq<A>)
    requires
        stably_sorted(items, le, sorted),
        forall|i: int, j: int|
            #![trigger items[i], items[j]]
            0 <= i < j < items.len() ==> le(items[i], items[j]),
    ensures
        sorted == items,
{
    let places = Seq::new(items.len(), |i: int| i);
    assert forall|k: int| 0 <= k < items.len() implies #[trigger] places.contains(k) by {
        assert(places[k] == k);
    }
    assert(arranged_by(items, le, items, places));
    law_stable_sort_is_unique(items, le, sorted, items);
}

/// Every sequence has a stable sort.
pub proof fn law_stable_sort_exists<A>(items: Seq<A>, le: spec_fn(A, A) -> bool)
    requires
        is_ranking(le),
    ensures
        stably_sorted(items, le, stable_sort_of(items, le)),
    decreases items.len(),
{
    if items.len() == 0 {
        assert(arranged_by(items, le, items, Seq::<int>::empty()));
        assert(stably_sorted(items, le, items));
    } else {
        let front = items.drop_last();
        let x = items.last();
        law_stable_sort_exists(front, le);
        let sorted = stable_sort_of(front, le);
        let origin = choose|origin: Seq<int>| arranged_by(front, le, sorted, origin);
        let pos = lemma_place_for(sorted, le, x, sorted.len() as int);
        lemma_arranged_insert(front, le, sorted, origin, x, pos);
        assert(front.push(x) =~= items);
        assert(stably_sorted(items, le, sorted.insert(pos, x)));
    }
}

proof fn lemma_place_for<A>(sorted: Seq<A>, le: spec_fn(A, A) -> bool, x: A, from: int) -> (pos: int)
    requires
        0 <= from <= sorted.len(),
        from < sorted.len() ==> !le(sorted[from], x),
    ensures
        0 <= pos <= sorted.len(),
        pos > 0 ==> le(sorted[pos - 1], x),
        pos < sorted.len() ==> !le(sorted[pos], x),
    decreases from,
{
    if from > 0 && !le(sorted[from - 1], x) {
        lemma_place_for(sorted, le, x, from - 1)
    } else {
        from
    }
}

/// Each thing in a sequence stands for its own model, in its own place.
pub proof fn law_models_stand_in_place<T: Ranked>(items: Seq<T>, i: int)
    requires
        0 <= i < items.len(),
    ensures
        models(items).len() == items.len(),
        models(items)[i] == items[i].model(),
{
}

} // verus!
