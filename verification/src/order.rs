use crate::text::chars_of;
use vstd::prelude::*;

verus! {

/// Lexicographic order on character sequences, by code point; a proper
/// prefix comes first. This is the order of `str` comparison.
pub open spec fn chars_less(a: Seq<char>, b: Seq<char>) -> bool
    decreases a.len(),
{
    if b.len() == 0 {
        false
    } else if a.len() == 0 {
        true
    } else if a[0] != b[0] {
        a[0] < b[0]
    } else {
        chars_less(a.drop_first(), b.drop_first())
    }
}

/// No sequence comes before itself.
pub proof fn lemma_chars_less_irreflexive(a: Seq<char>)
    ensures
        !chars_less(a, a),
    decreases a.len(),
{
    if a.len() > 0 {
        lemma_chars_less_irreflexive(a.drop_first());
    }
}

/// The order is transitive.
pub proof fn lemma_chars_less_transitive(a: Seq<char>, b: Seq<char>, c: Seq<char>)
    requires
        chars_less(a, b),
        chars_less(b, c),
    ensures
        chars_less(a, c),
    decreases a.len(),
{
    if a.len() > 0 && b.len() > 0 && c.len() > 0 && a[0] == b[0] && b[0] == c[0] {
        lemma_chars_less_transitive(a.drop_first(), b.drop_first(), c.drop_first());
    }
}

/// Of two different sequences, one comes first.
pub proof fn lemma_chars_less_total(a: Seq<char>, b: Seq<char>)
    requires
        a != b,
    ensures
        chars_less(a, b) || chars_less(b, a),
    decreases a.len(),
{
    if a.len() == 0 && b.len() == 0 {
        assert(a =~= b);
    } else if a.len() > 0 && b.len() > 0 && a[0] == b[0] {
        if a.drop_first() =~= b.drop_first() {
            assert forall|i: int| 0 <= i < a.len() implies a[i] == b[i] by {
                if i > 0 {
                    assert(a[i] == a.drop_first()[i - 1]);
                    assert(b[i] == b.drop_first()[i - 1]);
                }
            }
            assert(a =~= b);
        } else {
            lemma_chars_less_total(a.drop_first(), b.drop_first());
        }
    }
}

/// Whether `a` and `b` agree up to position `k` and `a` has the smaller
/// character there.
pub open spec fn first_difference_smaller(a: Seq<char>, b: Seq<char>, k: int) -> bool {
    0 <= k < a.len() && k < b.len() && a.take(k) == b.take(k) && a[k] < b[k]
}

/// `a` comes before `b` exactly when `a` is a proper prefix of `b`, or the
/// first character in which they differ is smaller in `a`.
pub proof fn lemma_chars_less_characterised(a: Seq<char>, b: Seq<char>)
    ensures
        chars_less(a, b) <==> ((a.len() < b.len() && b.take(a.len() as int) == a) || exists|k: int|
            first_difference_smaller(a, b, k)),
    decreases a.len(),
{
    if b.len() == 0 {
        if exists|k: int| first_difference_smaller(a, b, k) {
            let k = choose|k: int| first_difference_smaller(a, b, k);
            assert(false);
        }
    } else if a.len() == 0 {
        assert(b.take(0) =~= a);
    } else if a[0] != b[0] {
        if a[0] < b[0] {
            assert(a.take(0) =~= b.take(0));
            assert(first_difference_smaller(a, b, 0));
        } else {
            if exists|k: int| first_difference_smaller(a, b, k) {
                let k = choose|k: int| first_difference_smaller(a, b, k);
                if k > 0 {
                    assert(a.take(k)[0] == b.take(k)[0]);
                }
            }
        }
        if a.len() < b.len() && b.take(a.len() as int) == a {
            assert(b.take(a.len() as int)[0] == b[0]);
        }
    } else {
        let a1 = a.drop_first();
        let b1 = b.drop_first();
        lemma_chars_less_characterised(a1, b1);
        if a1.len() < b1.len() && b1.take(a1.len() as int) == a1 {
            assert(b.take(a.len() as int) =~= a) by {
                assert forall|i: int| 0 <= i < a.len() implies #[trigger] b.take(a.len() as int)[i] == a[i] by {
                    if i > 0 {
                        assert(b1.take(a1.len() as int)[i - 1] == a1[i - 1]);
                    }
                }
            }
        }
        if a.len() < b.len() && b.take(a.len() as int) == a {
            assert(b1.take(a1.len() as int) =~= a1) by {
                assert forall|i: int| 0 <= i < a1.len() implies #[trigger] b1.take(a1.len() as int)[i] == a1[i] by {
                    assert(b.take(a.len() as int)[i + 1] == a[i + 1]);
                }
            }
        }
        if exists|k: int| first_difference_smaller(a1, b1, k) {
            let k = choose|k: int| first_difference_smaller(a1, b1, k);
            assert(a.take(k + 1) =~= b.take(k + 1)) by {
                assert forall|i: int| 0 <= i < k + 1 implies #[trigger] a.take(k + 1)[i] == b.take(k + 1)[i] by {
                    if i > 0 {
                        assert(a1.take(k)[i - 1] == b1.take(k)[i - 1]);
                    }
                }
            }
            assert(first_difference_smaller(a, b, k + 1));
        }
        if exists|k: int| first_difference_smaller(a, b, k) {
            let k = choose|k: int| first_difference_smaller(a, b, k);
            assert(k > 0);
            assert(a1.take(k - 1) =~= b1.take(k - 1)) by {
                assert forall|i: int| 0 <= i < k - 1 implies #[trigger] a1.take(k - 1)[i] == b1.take(k - 1)[i] by {
                    assert(a.take(k)[i + 1] == b.take(k)[i + 1]);
                }
            }
            assert(first_difference_smaller(a1, b1, k - 1));
        }
    }
}

/// Whether `a` comes strictly before `b` in lexicographic order.
pub fn str_less(a: &str, b: &str) -> (res: bool)
    ensures
        res == chars_less(a@, b@),
{
    let x = chars_of(a);
    let y = chars_of(b);
    let mut k: usize = 0;
    assert(x@.skip(0) =~= x@);
    assert(y@.skip(0) =~= y@);
    while k < x.len() && k < y.len() && x[k] == y[k]
        invariant
            k <= x@.len(),
            k <= y@.len(),
            x@ == a@,
            y@ == b@,
            chars_less(a@, b@) == chars_less(x@.skip(k as int), y@.skip(k as int)),
        decreases x@.len() - k,
    {
        assert(x@.skip(k as int).drop_first() =~= x@.skip(k + 1));
        assert(y@.skip(k as int).drop_first() =~= y@.skip(k + 1));
        k = k + 1;
    }
    if k == y.len() {
        false
    } else if k == x.len() {
        true
    } else {
        x[k] < y[k]
    }
}

} // verus!
