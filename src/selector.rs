use vstd::prelude::*;

use rand::seq::SliceRandom;

use crate::table::views_of;

verus! {

/// Relies on rand's `SliceRandom::shuffle` with `thread_rng`: it only swaps
/// elements, so the result is a permutation of the input.
#[verifier::external_body]
fn shuffle_strings(v: &mut Vec<String>)
    ensures
        final(v)@.len() == old(v)@.len(),
        views_of(final(v)@).to_multiset() == views_of(old(v)@).to_multiset(),
{
    v.shuffle(&mut rand::thread_rng());
}

/// Picks `min(n, a.len())` of the addresses in `a` in random order: a
/// random permutation of `a`, truncated. The input is taken by value, so no
/// caller's copy is reordered.
pub fn select_random_n_strings(a: Vec<String>, n: usize) -> (r: Vec<String>)
    ensures
        r@.len() == (if n < a@.len() {
            n as int
        } else {
            a@.len() as int
        }),
        views_of(r@).to_multiset().subset_of(views_of(a@).to_multiset()),
        forall|x: Seq<char>| views_of(r@).contains(x) ==> views_of(a@).contains(x),
        views_of(a@).no_duplicates() ==> views_of(r@).no_duplicates(),
        n >= a@.len() ==> views_of(r@).to_multiset() == views_of(a@).to_multiset(),
{
    let mut a = a;
    let ghost input = views_of(a@);
    shuffle_strings(&mut a);
    let ghost shuffled = views_of(a@);
    a.truncate(n);
    proof {
        broadcast use vstd::seq_lib::group_to_multiset_ensures;
        broadcast use vstd::multiset::group_multiset_axioms;

        let k: int = views_of(a@).len() as int;
        assert(views_of(a@) =~= shuffled.take(k));
        vstd::seq_lib::lemma_multiset_commutative(shuffled.take(k), shuffled.skip(k));
        assert(shuffled.take(k) + shuffled.skip(k) =~= shuffled);
        assert(views_of(a@).to_multiset().subset_of(input.to_multiset()));
        if input.no_duplicates() {
            input.lemma_multiset_has_no_duplicates();
            assert forall|x: Seq<char>| views_of(a@).to_multiset().contains(x) implies views_of(
                a@,
            ).to_multiset().count(x) == 1 by {
                assert(input.to_multiset().count(x) >= views_of(a@).to_multiset().count(x));
            }
            views_of(a@).lemma_multiset_has_no_duplicates_conv();
        }
        assert forall|x: Seq<char>| views_of(a@).contains(x) implies input.contains(x) by {
            assert(views_of(a@).to_multiset().count(x) > 0);
            assert(input.to_multiset().count(x) > 0);
        }
        if n >= input.len() {
            assert(views_of(a@) =~= shuffled);
        }
    }
    a
}

} // verus!
