//! Small string helpers shared by the server core.

use vstd::prelude::*;

verus! {

/// Character-for-character equality of two string slices.
pub fn str_eq(a: &str, b: &str) -> (r: bool)
    ensures
        r == (a@ == b@),
{
    let la = a.unicode_len();
    let lb = b.unicode_len();
    if la != lb {
        return false;
    }
    let mut i: usize = 0;
    while i < la
        invariant
            la == a@.len(),
            lb == b@.len(),
            la == lb,
            i <= la,
            forall|j: int| 0 <= j < i ==> a@[j] == b@[j],
        decreases la - i,
    {
        if a.get_char(i) != b.get_char(i) {
            return false;
        }
        i += 1;
    }
    proof {
        assert(a@ =~= b@);
    }
    true
}

/// The views of a sequence of owned strings.
pub open spec fn views_of(items: Seq<String>) -> Seq<Seq<char>> {
    items.map_values(|s: String| s@)
}

/// Filtering a sequence extended by one element keeps the element exactly
/// when the predicate accepts it.
pub proof fn lemma_filter_push<A>(s: Seq<A>, x: A, p: spec_fn(A) -> bool)
    ensures
        s.push(x).filter(p) == if p(x) {
            s.filter(p).push(x)
        } else {
            s.filter(p)
        },
{
    reveal(Seq::filter);
    assert(s.push(x).drop_last() =~= s);
    assert(s.push(x).last() == x);
}

/// A concatenation contains an element exactly when one of its parts does.
pub proof fn lemma_concat_contains<A>(s: Seq<A>, t: Seq<A>, x: A)
    ensures
        (s + t).contains(x) <==> s.contains(x) || t.contains(x),
{
    if s.contains(x) {
        let i = choose|i: int| 0 <= i < s.len() && s[i] == x;
        assert((s + t)[i] == x);
    }
    if t.contains(x) {
        let i = choose|i: int| 0 <= i < t.len() && t[i] == x;
        assert((s + t)[s.len() + i] == x);
    }
    if (s + t).contains(x) {
        let i = choose|i: int| 0 <= i < (s + t).len() && (s + t)[i] == x;
        if i < s.len() {
            assert(s[i] == x);
        } else {
            assert(t[i - s.len()] == x);
        }
    }
}

/// A filter whose predicate accepts every element returns the sequence.
pub proof fn lemma_filter_all<A>(s: Seq<A>, p: spec_fn(A) -> bool)
    requires
        forall|x: A| s.contains(x) ==> #[trigger] p(x),
    ensures
        s.filter(p) == s,
    decreases s.len(),
{
    reveal(Seq::filter);
    if s.len() > 0 {
        assert forall|x: A| s.drop_last().contains(x) implies #[trigger] p(x) by {
            let i = choose|i: int| 0 <= i < s.drop_last().len() && s.drop_last()[i] == x;
            assert(s[i] == x);
        }
        lemma_filter_all(s.drop_last(), p);
        assert(s[s.len() - 1] == s.last());
        assert(s.contains(s.last()));
        assert(s.drop_last().push(s.last()) =~= s);
    }
}

/// Predicates that agree on every element of a sequence filter it alike.
pub proof fn lemma_filter_ext<A>(s: Seq<A>, p: spec_fn(A) -> bool, q: spec_fn(A) -> bool)
    requires
        forall|x: A| s.contains(x) ==> #[trigger] p(x) == #[trigger] q(x),
    ensures
        s.filter(p) == s.filter(q),
    decreases s.len(),
{
    reveal(Seq::filter);
    if s.len() > 0 {
        assert forall|x: A| s.drop_last().contains(x) implies #[trigger] p(x) == q(x) by {
            let i = choose|i: int| 0 <= i < s.drop_last().len() && s.drop_last()[i] == x;
            assert(s[i] == x);
        }
        lemma_filter_ext(s.drop_last(), p, q);
        assert(s[s.len() - 1] == s.last());
        assert(s.contains(s.last()));
    }
}

/// Filtering twice is filtering once with the conjunction.
pub proof fn lemma_filter_compose<A>(
    s: Seq<A>,
    p: spec_fn(A) -> bool,
    q: spec_fn(A) -> bool,
    pq: spec_fn(A) -> bool,
)
    requires
        forall|x: A| #[trigger] pq(x) == (p(x) && q(x)),
    ensures
        s.filter(p).filter(q) == s.filter(pq),
    decreases s.len(),
{
    reveal(Seq::filter);
    if s.len() == 0 {
        assert(s.filter(p).filter(q) =~= s.filter(pq));
    } else {
        lemma_filter_compose(s.drop_last(), p, q, pq);
        if p(s.last()) {
            lemma_filter_push(s.drop_last().filter(p), s.last(), q);
            assert(s.drop_last().filter(p).push(s.last()).drop_last() =~= s.drop_last().filter(p));
        }
    }
}

/// A filtered sequence contains exactly the elements of the original that
/// the predicate accepts.
pub proof fn lemma_filter_contains_iff<A>(s: Seq<A>, p: spec_fn(A) -> bool, x: A)
    ensures
        s.filter(p).contains(x) <==> s.contains(x) && p(x),
    decreases s.len(),
{
    reveal(Seq::filter);
    if s.len() > 0 {
        lemma_filter_contains_iff(s.drop_last(), p, x);
        if s.contains(x) && p(x) {
            let i = choose|i: int| 0 <= i < s.len() && s[i] == x;
            if i < s.len() - 1 {
                assert(s.drop_last()[i] == x);
                let j = choose|j: int|
                    0 <= j < s.drop_last().filter(p).len() && s.drop_last().filter(p)[j] == x;
                if p(s.last()) {
                    assert(s.filter(p)[j] == x);
                } else {
                    assert(s.filter(p)[j] == x);
                }
            } else {
                assert(s.filter(p).last() == x);
            }
        }
        if s.filter(p).contains(x) {
            let j = choose|j: int| 0 <= j < s.filter(p).len() && s.filter(p)[j] == x;
            if p(s.last()) && j == s.filter(p).len() - 1 {
                assert(x == s.last());
                assert(s[s.len() - 1] == x);
            } else {
                assert(s.drop_last().filter(p)[j] == x);
                let i = choose|i: int| 0 <= i < s.drop_last().len() && s.drop_last()[i] == x;
                assert(s[i] == x);
            }
        }
    }
}

/// The text of `items` joined with a comma and a space.
pub open spec fn join_spec(items: Seq<Seq<char>>) -> Seq<char>
    decreases items.len(),
{
    if items.len() == 0 {
        Seq::empty()
    } else if items.len() == 1 {
        items[0]
    } else {
        join_spec(items.drop_last()) + ", "@ + items.last()
    }
}

/// What `format_vector` returns: the items joined with `", "`, in brackets.
pub open spec fn format_vector_spec(items: Seq<Seq<char>>) -> Seq<char> {
    "["@ + join_spec(items) + "]"@
}

/// Renders a list of strings as `[a, b, c]`.
pub fn format_vector(vec: &Vec<String>) -> (r: String)
    ensures
        r@ == format_vector_spec(views_of(vec@)),
{
    let mut out = String::from_str("[");
    proof {
        reveal_strlit("[");
        assert(views_of(vec@).take(0) =~= Seq::<Seq<char>>::empty());
    }
    let mut i: usize = 0;
    while i < vec.len()
        invariant
            i <= vec@.len(),
            out@ == "["@ + join_spec(views_of(vec@).take(i as int)),
        decreases vec@.len() - i,
    {
        if i > 0 {
            out.append(", ");
        }
        out.append(vec[i].as_str());
        proof {
            reveal_strlit(", ");
            let items = views_of(vec@);
            assert(items[i as int] == vec@[i as int]@);
            assert(items.take(i + 1).drop_last() =~= items.take(i as int));
            if i > 0 {
                assert(out@ =~= "["@ + join_spec(items.take(i + 1)));
            } else {
                assert(out@ =~= "["@ + join_spec(items.take(1)));
            }
        }
        i += 1;
    }
    proof {
        assert(views_of(vec@).take(vec@.len() as int) =~= views_of(vec@));
    }
    out.append("]");
    proof {
        reveal_strlit("]");
    }
    out
}

} // verus!
