//! The assembly planner: decides page order over loose inputs, resolves
//! section and metadata directives into exact builder calls, and resolves
//! extraction ranges when reading back.
//!
//! Page ordering: rank `> 0` entries first, ascending by rank; rank `0`
//! entries next, ascending lexicographically by filename; rank `< 0` entries
//! last, ascending by rank. Ties are left in input order (the sort is
//! stable).

use crate::text;
use crate::text::spec_contains_bytes;
use crate::text::spec_find_byte;
use crate::text::spec_rfind_byte;
use core::cmp::Ordering;
use vstd::prelude::*;
use vstd::string::StringSliceAdditionalSpecFns;
use vstd::utf8::encode_utf8;

verus! {

broadcast use {vstd::std_specs::vec::axiom_spec_len, vstd::seq_lib::group_to_multiset_ensures};

/// One candidate page: its filename and its ordering rank. Rank `0` means
/// unspecified, `> 0` pins the page towards the start, `< 0` towards the end.
pub struct PagePlan {
    pub filename: String,
    pub order: i32,
}

/// Lexicographic ordering of two byte sequences.
pub open spec fn spec_lex_bytes(a: Seq<u8>, b: Seq<u8>) -> Ordering
    decreases a.len(),
{
    if a.len() == 0 && b.len() == 0 {
        Ordering::Equal
    } else if a.len() == 0 {
        Ordering::Less
    } else if b.len() == 0 {
        Ordering::Greater
    } else if a[0] < b[0] {
        Ordering::Less
    } else if a[0] > b[0] {
        Ordering::Greater
    } else {
        spec_lex_bytes(a.drop_first(), b.drop_first())
    }
}

/// The mirror image of an ordering.
pub open spec fn spec_ord_flip(o: Ordering) -> Ordering {
    match o {
        Ordering::Less => Ordering::Greater,
        Ordering::Equal => Ordering::Equal,
        Ordering::Greater => Ordering::Less,
    }
}

/// Lexicographic comparison is antisymmetric.
pub proof fn lemma_lex_flip(a: Seq<u8>, b: Seq<u8>)
    ensures
        spec_lex_bytes(b, a) == spec_ord_flip(spec_lex_bytes(a, b)),
    decreases a.len(),
{
    if a.len() == 0 && b.len() == 0 {
    } else if a.len() == 0 {
    } else if b.len() == 0 {
    } else if a[0] < b[0] {
    } else if a[0] > b[0] {
    } else {
        lemma_lex_flip(a.drop_first(), b.drop_first());
    }
}

/// Lexicographic "not greater" is transitive.
pub proof fn lemma_lex_trans(a: Seq<u8>, b: Seq<u8>, c: Seq<u8>)
    requires
        spec_lex_bytes(a, b) != Ordering::Greater,
        spec_lex_bytes(b, c) != Ordering::Greater,
    ensures
        spec_lex_bytes(a, c) != Ordering::Greater,
    decreases a.len(),
{
    if a.len() == 0 {
    } else if b.len() == 0 {
    } else if c.len() == 0 {
        assert(spec_lex_bytes(b, c) == Ordering::Greater);
    } else {
        if a[0] == b[0] && b[0] == c[0] {
            lemma_lex_trans(a.drop_first(), b.drop_first(), c.drop_first());
        }
    }
}

/// Characterization of `spec_lex_bytes` at the first differing index.
pub proof fn lemma_lex_bytes_at(a: Seq<u8>, b: Seq<u8>, i: int)
    requires
        0 <= i <= a.len(),
        i <= b.len(),
        forall|k: int| 0 <= k < i ==> a[k] == b[k],
        (i < a.len() && i < b.len()) ==> a[i] != b[i],
    ensures
        spec_lex_bytes(a, b) == if i < a.len() && i < b.len() {
            if a[i] < b[i] {
                Ordering::Less
            } else {
                Ordering::Greater
            }
        } else if a.len() == b.len() {
            Ordering::Equal
        } else if a.len() < b.len() {
            Ordering::Less
        } else {
            Ordering::Greater
        },
    decreases a.len(),
{
    if i == 0 {
    } else {
        assert(a[0] == b[0]);
        assert(forall|k: int|
            0 <= k < i - 1 ==> a.drop_first()[k] == b.drop_first()[k] && a.drop_first()[k] == a[k
                + 1]);
        lemma_lex_bytes_at(a.drop_first(), b.drop_first(), i - 1);
    }
}

/// Byte-wise lexicographic comparison, exactly `spec_lex_bytes`.
pub fn bytes_cmp(a: &[u8], b: &[u8]) -> (r: Ordering)
    ensures
        r == spec_lex_bytes(a@, b@),
{
    let na = a.len();
    let nb = b.len();
    let n = if na < nb {
        na
    } else {
        nb
    };
    let mut i: usize = 0;
    while i < n
        invariant
            i <= n,
            n == if na < nb {
                na
            } else {
                nb
            },
            a@.len() == na,
            b@.len() == nb,
            forall|k: int| 0 <= k < i ==> a@[k] == b@[k],
        decreases n - i,
    {
        let x = *vstd::slice::slice_index_get(a, i);
        let y = *vstd::slice::slice_index_get(b, i);
        if x < y {
            proof {
                lemma_lex_bytes_at(a@, b@, i as int);
            }
            return Ordering::Less;
        }
        if x > y {
            proof {
                lemma_lex_bytes_at(a@, b@, i as int);
            }
            return Ordering::Greater;
        }
        i = i + 1;
    }
    proof {
        lemma_lex_bytes_at(a@, b@, n as int);
    }
    if na == nb {
        Ordering::Equal
    } else if na < nb {
        Ordering::Less
    } else {
        Ordering::Greater
    }
}

/// Ascending comparison of two signed ranks.
pub open spec fn spec_cmp_i32(x: i32, y: i32) -> Ordering {
    if x < y {
        Ordering::Less
    } else if x == y {
        Ordering::Equal
    } else {
        Ordering::Greater
    }
}

/// The total page order: positive ranks first (ascending), then unranked
/// pages in filename order, then negative ranks (ascending).
pub open spec fn spec_compare_pages(a: PagePlan, b: PagePlan) -> Ordering {
    if a.order > 0 && b.order > 0 {
        spec_cmp_i32(a.order, b.order)
    } else if a.order > 0 && b.order <= 0 {
        Ordering::Less
    } else if a.order <= 0 && b.order > 0 {
        Ordering::Greater
    } else if a.order == 0 && b.order == 0 {
        spec_lex_bytes(encode_utf8(a.filename@), encode_utf8(b.filename@))
    } else if a.order == 0 && b.order < 0 {
        Ordering::Less
    } else if a.order < 0 && b.order == 0 {
        Ordering::Greater
    } else {
        spec_cmp_i32(a.order, b.order)
    }
}

/// The page order is antisymmetric.
pub proof fn lemma_compare_pages_flip(a: PagePlan, b: PagePlan)
    ensures
        spec_compare_pages(b, a) == spec_ord_flip(spec_compare_pages(a, b)),
{
    lemma_lex_flip(encode_utf8(a.filename@), encode_utf8(b.filename@));
}

/// The page order's "not greater" is transitive.
pub proof fn lemma_compare_pages_trans(a: PagePlan, b: PagePlan, c: PagePlan)
    requires
        spec_compare_pages(a, b) != Ordering::Greater,
        spec_compare_pages(b, c) != Ordering::Greater,
    ensures
        spec_compare_pages(a, c) != Ordering::Greater,
{
    if a.order == 0 && b.order == 0 && c.order == 0 {
        lemma_lex_trans(
            encode_utf8(a.filename@),
            encode_utf8(b.filename@),
            encode_utf8(c.filename@),
        );
    }
}

/// Decides the order of two candidate pages.
pub fn compare_pages(a: &PagePlan, b: &PagePlan) -> (r: Ordering)
    ensures
        r == spec_compare_pages(*a, *b),
{
    if a.order > 0 && b.order > 0 {
        if a.order < b.order {
            Ordering::Less
        } else if a.order == b.order {
            Ordering::Equal
        } else {
            Ordering::Greater
        }
    } else if a.order > 0 {
        Ordering::Less
    } else if b.order > 0 {
        Ordering::Greater
    } else if a.order == 0 && b.order == 0 {
        bytes_cmp(a.filename.as_str().as_bytes(), b.filename.as_str().as_bytes())
    } else if a.order == 0 {
        Ordering::Less
    } else if b.order == 0 {
        Ordering::Greater
    } else {
        if a.order < b.order {
            Ordering::Less
        } else if a.order == b.order {
            Ordering::Equal
        } else {
            Ordering::Greater
        }
    }
}

/// A page sequence sorted by the page order.
pub open spec fn spec_pages_sorted(s: Seq<PagePlan>) -> bool {
    forall|i: int, j: int|
        0 <= i < j < s.len() ==> spec_compare_pages(#[trigger] s[i], #[trigger] s[j])
            != Ordering::Greater
}

/// Stable insertion of `x` into an already sorted run: `x` moves left past
/// exactly the elements strictly greater than it, so elements that compare
/// equal keep their relative order.
pub open spec fn spec_insert_page(sorted: Seq<PagePlan>, x: PagePlan) -> Seq<PagePlan>
    decreases sorted.len(),
{
    if sorted.len() == 0 {
        seq![x]
    } else if spec_compare_pages(sorted.last(), x) == Ordering::Greater {
        spec_insert_page(sorted.drop_last(), x).push(sorted.last())
    } else {
        sorted.push(x)
    }
}

/// Stable insertion sort by the page order, processing left to right.
pub open spec fn spec_sort_pages(s: Seq<PagePlan>) -> Seq<PagePlan>
    decreases s.len(),
{
    if s.len() == 0 {
        s
    } else {
        spec_insert_page(spec_sort_pages(s.drop_last()), s.last())
    }
}

/// Where a stable insertion lands: just after the rightmost element that is
/// not greater than `x`.
pub proof fn lemma_insert_page_at(sorted: Seq<PagePlan>, x: PagePlan, j: int)
    requires
        0 <= j <= sorted.len(),
        forall|q: int|
            j <= q < sorted.len() ==> spec_compare_pages(#[trigger] sorted[q], x)
                == Ordering::Greater,
        j > 0 ==> spec_compare_pages(sorted[j - 1], x) != Ordering::Greater,
    ensures
        spec_insert_page(sorted, x) == sorted.take(j) + seq![x] + sorted.skip(j),
    decreases sorted.len(),
{
    if sorted.len() == 0 {
        assert(spec_insert_page(sorted, x) =~= sorted.take(j) + seq![x] + sorted.skip(j));
    } else if spec_compare_pages(sorted.last(), x) == Ordering::Greater {
        assert(j < sorted.len());
        assert(forall|q: int|
            j <= q < sorted.drop_last().len() ==> #[trigger] sorted.drop_last()[q] == sorted[q]);
        lemma_insert_page_at(sorted.drop_last(), x, j);
        assert(spec_insert_page(sorted, x) =~= sorted.take(j) + seq![x] + sorted.skip(j));
    } else {
        assert(j == sorted.len());
        assert(spec_insert_page(sorted, x) =~= sorted.take(j) + seq![x] + sorted.skip(j));
    }
}

/// The position at which a stable insertion of `x` lands: just past the
/// rightmost element that is not greater than `x`.
pub open spec fn spec_insert_cut(sorted: Seq<PagePlan>, x: PagePlan) -> int
    decreases sorted.len(),
{
    if sorted.len() == 0 {
        0
    } else if spec_compare_pages(sorted.last(), x) == Ordering::Greater {
        spec_insert_cut(sorted.drop_last(), x)
    } else {
        sorted.len() as int
    }
}

/// What the insertion cut satisfies.
pub proof fn lemma_insert_cut(sorted: Seq<PagePlan>, x: PagePlan)
    ensures
        0 <= spec_insert_cut(sorted, x) <= sorted.len(),
        forall|q: int|
            spec_insert_cut(sorted, x) <= q < sorted.len() ==> spec_compare_pages(
                #[trigger] sorted[q],
                x,
            ) == Ordering::Greater,
        spec_insert_cut(sorted, x) > 0 ==> spec_compare_pages(
            sorted[spec_insert_cut(sorted, x) - 1],
            x,
        ) != Ordering::Greater,
    decreases sorted.len(),
{
    if sorted.len() == 0 {
    } else if spec_compare_pages(sorted.last(), x) == Ordering::Greater {
        lemma_insert_cut(sorted.drop_last(), x);
        assert(forall|q: int|
            0 <= q < sorted.len() - 1 ==> #[trigger] sorted[q] == sorted.drop_last()[q]);
    } else {
    }
}

/// A stable insertion into a sorted run yields a sorted run.
pub proof fn lemma_insert_page_sorted(sorted: Seq<PagePlan>, x: PagePlan)
    requires
        spec_pages_sorted(sorted),
    ensures
        spec_pages_sorted(spec_insert_page(sorted, x)),
{
    let j = spec_insert_cut(sorted, x);
    lemma_insert_cut(sorted, x);
    lemma_insert_page_at(sorted, x, j);
    let res = spec_insert_page(sorted, x);
    assert(res.len() == sorted.len() + 1);
    assert forall|p: int, q: int| 0 <= p < q < res.len() implies spec_compare_pages(
        #[trigger] res[p],
        #[trigger] res[q],
    ) != Ordering::Greater by {
        if p < j && q < j {
            assert(res[p] == sorted[p] && res[q] == sorted[q]);
        } else if p < j && q == j {
            assert(res[p] == sorted[p] && res[q] == x);
            if p < j - 1 {
                lemma_compare_pages_trans(sorted[p], sorted[j - 1], x);
            }
        } else if p < j && q > j {
            assert(res[p] == sorted[p] && res[q] == sorted[q - 1]);
        } else if p == j {
            assert(res[p] == x && res[q] == sorted[q - 1]);
            lemma_compare_pages_flip(sorted[q - 1], x);
        } else {
            assert(res[p] == sorted[p - 1] && res[q] == sorted[q - 1]);
        }
    }
}

/// A stable insertion adds exactly one copy of the inserted page.
pub proof fn lemma_insert_page_multiset(sorted: Seq<PagePlan>, x: PagePlan)
    ensures
        spec_insert_page(sorted, x).to_multiset() == sorted.to_multiset().insert(x),
{
    let j = spec_insert_cut(sorted, x);
    lemma_insert_cut(sorted, x);
    lemma_insert_page_at(sorted, x, j);
    assert(spec_insert_page(sorted, x) =~= sorted.insert(j, x));
    vstd::seq_lib::to_multiset_insert(sorted, j, x);
}

/// The stable sort is sorted.
pub proof fn lemma_sort_pages_sorted(s: Seq<PagePlan>)
    ensures
        spec_pages_sorted(spec_sort_pages(s)),
    decreases s.len(),
{
    if s.len() > 0 {
        lemma_sort_pages_sorted(s.drop_last());
        lemma_insert_page_sorted(spec_sort_pages(s.drop_last()), s.last());
    }
}

/// The stable sort is a permutation.
pub proof fn lemma_sort_pages_multiset(s: Seq<PagePlan>)
    ensures
        spec_sort_pages(s).to_multiset() == s.to_multiset(),
    decreases s.len(),
{
    if s.len() > 0 {
        lemma_sort_pages_multiset(s.drop_last());
        lemma_insert_page_multiset(spec_sort_pages(s.drop_last()), s.last());
        assert(s =~= s.drop_last().push(s.last()));
        vstd::seq_lib::to_multiset_build(s.drop_last(), s.last());
    }
}

/// One outer step of the insertion sort: once the moved element has bubbled
/// to its cut, the grown prefix is the stable insertion, i.e. one fold of
/// the spec-level sort.
pub proof fn lemma_sort_fold(
    olds: Seq<PagePlan>,
    before: Seq<PagePlan>,
    cur: Seq<PagePlan>,
    i: int,
    j: int,
    x: PagePlan,
)
    requires
        before.len() == olds.len(),
        cur.len() == olds.len(),
        1 <= i < olds.len(),
        0 <= j <= i,
        x == before[i],
        before.take(i) == spec_sort_pages(olds.take(i)),
        before.skip(i) == olds.skip(i),
        cur.skip(i + 1) == before.skip(i + 1),
        cur.take(i + 1) == before.take(j) + seq![x] + before.subrange(j, i),
        forall|q: int|
            j <= q < i ==> spec_compare_pages(#[trigger] before[q], x) == Ordering::Greater,
        j > 0 ==> spec_compare_pages(before[j - 1], x) != Ordering::Greater,
    ensures
        cur.take(i + 1) == spec_sort_pages(olds.take(i + 1)),
        cur.skip(i + 1) == olds.skip(i + 1),
{
    let prefix = before.take(i);
    assert(forall|q: int| j <= q < i ==> #[trigger] prefix[q] == before[q]);
    if j > 0 {
        assert(prefix[j - 1] == before[j - 1]);
    }
    lemma_insert_page_at(prefix, x, j);
    assert(prefix.take(j) =~= before.take(j));
    assert(prefix.skip(j) =~= before.subrange(j, i));
    assert(cur.take(i + 1) == spec_insert_page(prefix, x));
    // One fold of the spec-level sort.
    assert(olds.take(i + 1).drop_last() =~= olds.take(i));
    assert(before.skip(i)[0] == before[i]);
    assert(olds.skip(i)[0] == olds[i]);
    assert(x == olds[i]);
    assert(olds.take(i + 1).last() == olds[i]);
    assert(spec_sort_pages(olds.take(i + 1)) == spec_insert_page(
        spec_sort_pages(olds.take(i)),
        olds[i],
    ));
    assert forall|k: int| 0 <= k < olds.len() - (i + 1) implies #[trigger] before.skip(i + 1)[k]
        == olds.skip(i + 1)[k] by {
        assert(before.skip(i)[k + 1] == olds.skip(i)[k + 1]);
    }
    assert(cur.skip(i + 1) =~= olds.skip(i + 1));
}

/// Sorts the manifest by the page order: the result is exactly the stable
/// insertion sort of the input — sorted, a permutation, and with
/// comparator-equal pages kept in input order.
pub fn sort_pages(v: &mut Vec<PagePlan>)
    ensures
        final(v)@ == spec_sort_pages(old(v)@),
        spec_pages_sorted(final(v)@),
        final(v)@.to_multiset() == old(v)@.to_multiset(),
{
    proof {
        lemma_sort_pages_sorted(old(v)@);
        lemma_sort_pages_multiset(old(v)@);
    }
    let n = v.len();
    if n == 0 {
        return ;
    }
    proof {
        assert(old(v)@.take(1).drop_last() =~= Seq::<PagePlan>::empty());
        assert(old(v)@.take(1).last() == old(v)@[0]);
        assert(spec_sort_pages(Seq::<PagePlan>::empty()) == Seq::<PagePlan>::empty());
        assert(spec_insert_page(Seq::<PagePlan>::empty(), old(v)@[0]) =~= seq![old(v)@[0]]);
        assert(spec_sort_pages(old(v)@.take(1 as int)) =~= seq![old(v)@[0]]);
        assert(v@.take(1 as int) =~= seq![old(v)@[0]]);
        assert(v@.skip(1 as int) =~= old(v)@.skip(1 as int));
    }
    let mut i: usize = 1;
    while i < n
        invariant
            1 <= i <= n,
            v@.len() == n,
            old(v)@.len() == n,
            v@.take(i as int) == spec_sort_pages(old(v)@.take(i as int)),
            v@.skip(i as int) == old(v)@.skip(i as int),
        decreases n - i,
    {
        let ghost before = v@;
        let ghost x = before[i as int];
        proof {
            assert(v@.take(i + 1) =~= before.take(i as int) + seq![x] + before.subrange(
                i as int,
                i as int,
            ));
        }
        let mut j = i;
        while j > 0 && matches!(compare_pages(&v[j - 1], &v[j]), Ordering::Greater)
            invariant
                0 <= j <= i < n,
                v@.len() == n,
                before.len() == n,
                x == before[i as int],
                v@.skip(i + 1) == before.skip(i + 1),
                v@.take(i + 1) == before.take(j as int) + seq![x] + before.subrange(
                    j as int,
                    i as int,
                ),
                forall|q: int|
                    j <= q < i ==> spec_compare_pages(#[trigger] before[q], x)
                        == Ordering::Greater,
            decreases j,
        {
            proof {
                // The loop condition compared before[j - 1] with x.
                assert(v@.take(i + 1)[j - 1] == v@[j - 1]);
                assert(v@.take(i + 1)[j as int] == v@[j as int]);
                assert((before.take(j as int) + seq![x] + before.subrange(j as int, i as int))[j
                    - 1] == before[j - 1]);
                assert((before.take(j as int) + seq![x] + before.subrange(j as int, i as int))[j
                    as int] == x);
            }
            let ghost step = v@;
            let moved = v.remove(j);
            v.insert(j - 1, moved);
            proof {
                assert(v@ =~= step.update(j as int, step[j - 1]).update(j - 1, step[j as int]));
                // Positions of `step` inside the insertion window.
                let win = before.take(j as int) + seq![x] + before.subrange(j as int, i as int);
                assert forall|k: int| 0 <= k <= i implies #[trigger] step[k] == win[k] by {
                    assert(step.take(i + 1)[k] == step[k]);
                }
                assert(v@.skip(i + 1) =~= before.skip(i + 1));
                let win2 = before.take(j - 1) + seq![x] + before.subrange(j - 1, i as int);
                assert forall|k: int| 0 <= k <= i implies #[trigger] v@[k] == win2[k] by {
                    if k == j - 1 {
                        assert(v@[k] == step[j as int]);
                    } else if k == j {
                        assert(v@[k] == step[j - 1]);
                    } else {
                        assert(v@[k] == step[k]);
                    }
                }
                assert(v@.take(i + 1) =~= win2);
            }
            j = j - 1;
        }
        proof {
            if j > 0 {
                // The exit comparison was between before[j - 1] and x.
                assert(v@.take(i + 1)[j - 1] == v@[j - 1]);
                assert(v@.take(i + 1)[j as int] == v@[j as int]);
                assert((before.take(j as int) + seq![x] + before.subrange(j as int, i as int))[j
                    - 1] == before[j - 1]);
                assert((before.take(j as int) + seq![x] + before.subrange(j as int, i as int))[j
                    as int] == x);
            }
            lemma_sort_fold(old(v)@, before, v@, i as int, j as int, x);
        }
        i = i + 1;
    }
    proof {
        assert(v@.take(n as int) =~= v@);
        assert(old(v)@.take(n as int) =~= old(v)@);
    }
}


/// Whether every byte is an ASCII decimal digit (vacuously true when empty).
pub open spec fn spec_all_digits(s: Seq<u8>) -> bool {
    forall|i: int| 0 <= i < s.len() ==> 0x30 <= #[trigger] s[i] <= 0x39
}

/// The decimal value of a digit run.
pub open spec fn spec_digits_val(s: Seq<u8>) -> int
    decreases s.len(),
{
    if s.len() == 0 {
        0
    } else {
        spec_digits_val(s.drop_last()) * 10 + (s.last() - 0x30)
    }
}

/// A digit run's value is never negative.
pub proof fn lemma_digits_val_nonneg(s: Seq<u8>)
    requires
        spec_all_digits(s),
    ensures
        spec_digits_val(s) >= 0,
    decreases s.len(),
{
    if s.len() > 0 {
        assert(spec_all_digits(s.drop_last()));
        lemma_digits_val_nonneg(s.drop_last());
    }
}

/// Extending a digit run never decreases its value.
pub proof fn lemma_digits_prefix_le(s: Seq<u8>, i: int)
    requires
        spec_all_digits(s),
        0 <= i <= s.len(),
    ensures
        spec_digits_val(s.take(i)) <= spec_digits_val(s),
    decreases s.len() - i,
{
    if i == s.len() {
        assert(s.take(i) =~= s);
    } else {
        lemma_digits_prefix_le(s, i + 1);
        assert(s.take(i + 1).drop_last() =~= s.take(i));
        assert(s.take(i + 1).last() == s[i]);
        assert(spec_all_digits(s.take(i)));
        lemma_digits_val_nonneg(s.take(i));
        assert(spec_digits_val(s.take(i)) * 10 >= spec_digits_val(s.take(i)))
            by (nonlinear_arith)
            requires
                spec_digits_val(s.take(i)) >= 0,
        ;
    }
}

/// What `str::parse::<i32>` accepts: an optional sign, then one or more
/// ASCII digits, value in range; anything else is `None`.
pub open spec fn spec_parse_i32(s: Seq<u8>) -> Option<i32> {
    if s.len() == 0 {
        None
    } else {
        let neg = s[0] == 0x2d;
        let digits = if s[0] == 0x2d || s[0] == 0x2b {
            s.drop_first()
        } else {
            s
        };
        if digits.len() == 0 || !spec_all_digits(digits) {
            None
        } else {
            let v = spec_digits_val(digits);
            if neg {
                if v <= 0x8000_0000 {
                    Some((-v) as i32)
                } else {
                    None
                }
            } else {
                if v <= 0x7FFF_FFFF {
                    Some(v as i32)
                } else {
                    None
                }
            }
        }
    }
}

/// What `str::parse::<u32>` accepts: an optional `+`, then one or more
/// ASCII digits, value in range; anything else is `None`.
pub open spec fn spec_parse_u32(s: Seq<u8>) -> Option<u32> {
    if s.len() == 0 {
        None
    } else {
        let digits = if s[0] == 0x2b {
            s.drop_first()
        } else {
            s
        };
        if digits.len() == 0 || !spec_all_digits(digits) {
            None
        } else {
            let v = spec_digits_val(digits);
            if v <= 0xFFFF_FFFF {
                Some(v as u32)
            } else {
                None
            }
        }
    }
}

/// Parses a decimal digit run with an accumulator bounded by `cap`;
/// `None` when a non-digit occurs, the run is empty, or the value exceeds
/// `cap`.
fn parse_digits(b: &[u8], start: usize, cap: u64) -> (r: Option<u64>)
    requires
        start <= b@.len(),
        0 < cap <= 0x8000_0000,
    ensures
        ({
            let digits = b@.subrange(start as int, b@.len() as int);
            match r {
                Some(v) => digits.len() > 0 && spec_all_digits(digits) && v
                    == spec_digits_val(digits) && v <= cap,
                None => digits.len() == 0 || !spec_all_digits(digits) || spec_digits_val(digits)
                    > cap,
            }
        }),
{
    let ghost digits = b@.subrange(start as int, b@.len() as int);
    let n = b.len();
    if start == n {
        return None;
    }
    let mut acc: u64 = 0;
    let mut i: usize = start;
    while i < n
        invariant
            start <= i <= n,
            b@.len() == n,
            0 < cap <= 0x8000_0000,
            digits == b@.subrange(start as int, n as int),
            spec_all_digits(b@.subrange(start as int, i as int)),
            acc == spec_digits_val(b@.subrange(start as int, i as int)),
            acc <= cap,
        decreases n - i,
    {
        let d = *vstd::slice::slice_index_get(b, i);
        if d < 0x30 || d > 0x39 {
            proof {
                assert(digits[i - start] == d);
                assert(!spec_all_digits(digits));
            }
            return None;
        }
        proof {
            assert(b@.subrange(start as int, i + 1).drop_last() =~= b@.subrange(
                start as int,
                i as int,
            ));
            assert(b@.subrange(start as int, i + 1).last() == d);
        }
        acc = acc * 10 + ((d - 0x30) as u64);
        i = i + 1;
        if acc > cap {
            proof {
                if spec_all_digits(digits) {
                    assert(digits.take(i - start) =~= b@.subrange(start as int, i as int));
                    lemma_digits_prefix_le(digits, i - start);
                }
            }
            return None;
        }
    }
    proof {
        assert(b@.subrange(start as int, n as int) =~= digits);
    }
    Some(acc)
}

/// Parses the byte run `[start, end of b)` as `str::parse::<i32>` would.
pub fn parse_i32_bytes(b: &[u8], start: usize) -> (r: Option<i32>)
    requires
        start <= b@.len(),
    ensures
        r == spec_parse_i32(b@.subrange(start as int, b@.len() as int)),
{
    let ghost s = b@.subrange(start as int, b@.len() as int);
    let n = b.len();
    if start == n {
        return None;
    }
    let first = *vstd::slice::slice_index_get(b, start);
    let neg = first == 0x2d;
    let dstart = if first == 0x2d || first == 0x2b {
        start + 1
    } else {
        start
    };
    proof {
        assert(b@.subrange(dstart as int, n as int) =~= (if s[0] == 0x2d || s[0] == 0x2b {
            s.drop_first()
        } else {
            s
        }));
    }
    match parse_digits(b, dstart, 0x8000_0000) {
        Some(v) => {
            if neg {
                Some((-(v as i64)) as i32)
            } else {
                if v > 0x7FFF_FFFF {
                    None
                } else {
                    Some(v as i32)
                }
            }
        },
        None => {
            proof {
                let digits = b@.subrange(dstart as int, n as int);
                if digits.len() > 0 && spec_all_digits(digits) {
                    lemma_digits_val_nonneg(digits);
                }
            }
            None
        },
    }
}

/// Parses the byte run `[start, end of b)` as `str::parse::<u32>` would.
pub fn parse_u32_bytes(b: &[u8], start: usize) -> (r: Option<u32>)
    requires
        start <= b@.len(),
    ensures
        r == spec_parse_u32(b@.subrange(start as int, b@.len() as int)),
{
    let ghost s = b@.subrange(start as int, b@.len() as int);
    let n = b.len();
    if start == n {
        return None;
    }
    let first = *vstd::slice::slice_index_get(b, start);
    let dstart = if first == 0x2b {
        start + 1
    } else {
        start
    };
    proof {
        assert(b@.subrange(dstart as int, n as int) =~= (if s[0] == 0x2b {
            s.drop_first()
        } else {
            s
        }));
    }
    // A u32 value never exceeds 0x8000_0000 * 2 - 1; cap at 0x8000_0000 and
    // re-check: values in (0xFFFF_FFFF, 2^31 * 2) cannot be told apart by the
    // capped accumulator, so run the accumulator once more precisely.
    match parse_digits_u32(b, dstart) {
        Some(v) => Some(v),
        None => None,
    }
}

/// Parses a decimal digit run into a `u32`, `None` on overflow, a non-digit
/// or an empty run.
fn parse_digits_u32(b: &[u8], start: usize) -> (r: Option<u32>)
    requires
        start <= b@.len(),
    ensures
        ({
            let digits = b@.subrange(start as int, b@.len() as int);
            match r {
                Some(v) => digits.len() > 0 && spec_all_digits(digits) && v
                    == spec_digits_val(digits) && spec_digits_val(digits) <= 0xFFFF_FFFF,
                None => digits.len() == 0 || !spec_all_digits(digits) || spec_digits_val(digits)
                    > 0xFFFF_FFFF,
            }
        }),
{
    let ghost digits = b@.subrange(start as int, b@.len() as int);
    let n = b.len();
    if start == n {
        return None;
    }
    let mut acc: u64 = 0;
    let mut i: usize = start;
    while i < n
        invariant
            start <= i <= n,
            b@.len() == n,
            digits == b@.subrange(start as int, n as int),
            spec_all_digits(b@.subrange(start as int, i as int)),
            acc == spec_digits_val(b@.subrange(start as int, i as int)),
            acc <= 0xFFFF_FFFF,
        decreases n - i,
    {
        let d = *vstd::slice::slice_index_get(b, i);
        if d < 0x30 || d > 0x39 {
            proof {
                assert(digits[i - start] == d);
                assert(!spec_all_digits(digits));
            }
            return None;
        }
        proof {
            assert(b@.subrange(start as int, i + 1).drop_last() =~= b@.subrange(
                start as int,
                i as int,
            ));
            assert(b@.subrange(start as int, i + 1).last() == d);
        }
        acc = acc * 10 + ((d - 0x30) as u64);
        i = i + 1;
        if acc > 0xFFFF_FFFF {
            proof {
                if spec_all_digits(digits) {
                    assert(digits.take(i - start) =~= b@.subrange(start as int, i as int));
                    lemma_digits_prefix_le(digits, i - start);
                }
            }
            return None;
        }
    }
    proof {
        assert(b@.subrange(start as int, n as int) =~= digits);
    }
    Some(acc as u32)
}

/// `str::parse::<i32>` on a whole string.
pub fn parse_i32(s: &str) -> (r: Option<i32>)
    ensures
        r == spec_parse_i32(s.spec_bytes()),
{
    let b = s.as_bytes();
    proof {
        assert(b@.subrange(0, b@.len() as int) =~= b@);
    }
    parse_i32_bytes(b, 0)
}

/// `str::parse::<u32>` on a whole string.
pub fn parse_u32(s: &str) -> (r: Option<u32>)
    ensures
        r == spec_parse_u32(s.spec_bytes()),
{
    let b = s.as_bytes();
    proof {
        assert(b@.subrange(0, b@.len() as int) =~= b@);
    }
    parse_u32_bytes(b, 0)
}

/// Strips one pair of surrounding double quotes, if both are present.
pub open spec fn spec_trim_quotes(s: Seq<u8>) -> Seq<u8> {
    if s.len() >= 2 && s[0] == 0x22 && s[s.len() - 1] == 0x22 {
        s.subrange(1, s.len() - 1)
    } else {
        s
    }
}

/// The quote-trimmed segment `[a, b)` of `bytes`, as an owned string. The
/// segment must be delimited by ASCII bytes (or the ends of `bytes`).
fn trim_quotes_seg(bytes: &[u8], a: usize, b: usize) -> (r: String)
    requires
        a <= b <= bytes@.len(),
        vstd::utf8::valid_utf8(bytes@),
        a == 0 || bytes@[a - 1] < 0x80,
        b == bytes@.len() || bytes@[b as int] < 0x80,
    ensures
        encode_utf8(r@) == spec_trim_quotes(bytes@.subrange(a as int, b as int)),
{
    let ghost seg = bytes@.subrange(a as int, b as int);
    if b - a >= 2 && *vstd::slice::slice_index_get(bytes, a) == 0x22 && *vstd::slice::slice_index_get(
        bytes,
        b - 1,
    ) == 0x22 {
        let r = text::substr_to_string(bytes, a + 1, b - 1);
        proof {
            assert(bytes@.subrange(a + 1, b - 1) =~= seg.subrange(1, seg.len() - 1));
        }
        r
    } else {
        text::substr_to_string(bytes, a, b)
    }
}

/// Strips one pair of surrounding double quotes from `s`, if present.
pub fn trim_quotes(s: &str) -> (r: String)
    ensures
        encode_utf8(r@) == spec_trim_quotes(s.spec_bytes()),
{
    let b = s.as_bytes();
    proof {
        vstd::utf8::encode_utf8_valid_utf8(s@);
        assert(b@.subrange(0, b@.len() as int) =~= b@);
    }
    trim_quotes_seg(b, 0, b.len())
}

/// Whether every byte of `b` is an ASCII digit.
pub fn all_digits(b: &[u8]) -> (r: bool)
    ensures
        r == spec_all_digits(b@),
{
    let n = b.len();
    let mut i: usize = 0;
    while i < n
        invariant
            i <= n,
            b@.len() == n,
            forall|k: int| 0 <= k < i ==> 0x30 <= #[trigger] b@[k] <= 0x39,
        decreases n - i,
    {
        let d = *vstd::slice::slice_index_get(b, i);
        if d < 0x30 || d > 0x39 {
            return false;
        }
        i = i + 1;
    }
    true
}

/// One section directive, as parsed from `Name:Target[:Parent]`: the target
/// is a filename unless it is all digits (then a 1-based page number).
pub struct SectionReq {
    pub name: String,
    pub target: String,
    pub parent: String,
    pub is_filename: bool,
}

/// Parses a `Name:Target[:Parent]` directive. A missing target defaults to
/// page `1`; a missing parent to none; quotes around each part are stripped.
pub fn parse_section_string(s: &str) -> (r: SectionReq)
    ensures
        ({
            let b = s.spec_bytes();
            let p1 = spec_find_byte(b, 0, 0x3a);
            let p2 = spec_find_byte(b, p1 + 1, 0x3a);
            let p3 = spec_find_byte(b, p2 + 1, 0x3a);
            &&& encode_utf8(r.name@) == spec_trim_quotes(b.subrange(0, p1))
            &&& encode_utf8(r.target@) == if p1 == b.len() {
                seq![0x31u8]
            } else {
                spec_trim_quotes(b.subrange(p1 + 1, p2))
            }
            &&& encode_utf8(r.parent@) == if p1 == b.len() || p2 == b.len() {
                Seq::<u8>::empty()
            } else {
                spec_trim_quotes(b.subrange(p2 + 1, p3))
            }
            &&& r.is_filename == !spec_all_digits(encode_utf8(r.target@))
        }),
{
    let b = s.as_bytes();
    let n = b.len();
    proof {
        vstd::utf8::encode_utf8_valid_utf8(s@);
        crate::text::lemma_find_byte(b@, 0, 0x3a);
    }
    let p1 = text::find_byte(b, 0, 0x3a);
    let name = trim_quotes_seg(b, 0, p1);
    let mut target: String;
    let mut parent: String;
    if p1 == n {
        target = one_string();
        parent = String::new();
        proof {
            assert(encode_utf8(Seq::<char>::empty()) =~= Seq::<u8>::empty());
        }
    } else {
        proof {
            crate::text::lemma_find_byte(b@, p1 + 1, 0x3a);
        }
        let p2 = text::find_byte(b, p1 + 1, 0x3a);
        target = trim_quotes_seg(b, p1 + 1, p2);
        if p2 == n {
            parent = String::new();
            proof {
                assert(encode_utf8(Seq::<char>::empty()) =~= Seq::<u8>::empty());
            }
        } else {
            proof {
                crate::text::lemma_find_byte(b@, p2 + 1, 0x3a);
            }
            let p3 = text::find_byte(b, p2 + 1, 0x3a);
            parent = trim_quotes_seg(b, p2 + 1, p3);
        }
    }
    let is_filename = !all_digits(target.as_str().as_bytes());
    SectionReq { name, target, parent, is_filename }
}

/// The one-character string `1`, the default section target.
fn one_string() -> (r: String)
    ensures
        encode_utf8(r@) == seq![0x31u8],
{
    let r: &str = "1";
    proof {
        reveal_strlit("1");
        assert(r@ =~= seq!['1']);
        assert('1' as u32 == 0x31);
        assert(vstd::utf8::is_leading_byte_width_1(0x31));
        assert((0x31u32 & 0x7F) as u8 == 0x31u8) by (bit_vector);
        assert(vstd::utf8::encode_scalar(0x31) =~= seq![0x31u8]);
        assert(encode_utf8(Seq::<char>::empty()) =~= Seq::<u8>::empty());
        assert(r@.drop_first() =~= Seq::<char>::empty());
        assert(encode_utf8(r@) == vstd::utf8::encode_scalar(r@[0] as u32) + encode_utf8(
            r@.drop_first(),
        ));
        assert(encode_utf8(r@) =~= seq![0x31u8]);
    }
    r.to_owned()
}

/// Parses one line of an order file: `filename:rank` splits at the last
/// colon (an unparsable rank counts as `0`); a line without a colon is a
/// filename with rank `0`. Quotes around the filename are stripped.
pub fn parse_order_line(line: &str) -> (r: (String, i32))
    ensures
        ({
            let b = line.spec_bytes();
            let cut = spec_rfind_byte(b, 0x3a);
            if cut == 0 {
                &&& encode_utf8(r.0@) == spec_trim_quotes(b)
                &&& r.1 == 0
            } else {
                &&& encode_utf8(r.0@) == spec_trim_quotes(b.subrange(0, cut - 1))
                &&& r.1 == match spec_parse_i32(b.subrange(cut, b.len() as int)) {
                    Some(v) => v,
                    None => 0,
                }
            }
        }),
{
    let b = line.as_bytes();
    let n = b.len();
    proof {
        vstd::utf8::encode_utf8_valid_utf8(line@);
        crate::text::lemma_rfind_byte(b@, 0x3a);
    }
    let cut = text::rfind_byte(b, 0x3a);
    if cut == 0 {
        proof {
            assert(b@.subrange(0, n as int) =~= b@);
        }
        (trim_quotes_seg(b, 0, n), 0)
    } else {
        let name = trim_quotes_seg(b, 0, cut - 1);
        let idx = match parse_i32_bytes(b, cut) {
            Some(v) => v,
            None => 0,
        };
        (name, idx)
    }
}

/// Parses one `Key:Value` metadata directive, split at the first colon;
/// `None` when no colon occurs. Quotes around each part are stripped.
pub fn parse_meta_string(s: &str) -> (r: Option<(String, String)>)
    ensures
        ({
            let b = s.spec_bytes();
            let p = spec_find_byte(b, 0, 0x3a);
            match r {
                Some(kv) => p < b.len() && encode_utf8(kv.0@) == spec_trim_quotes(
                    b.subrange(0, p),
                ) && encode_utf8(kv.1@) == spec_trim_quotes(b.subrange(p + 1, b.len() as int)),
                None => p == b.len(),
            }
        }),
{
    let b = s.as_bytes();
    let n = b.len();
    proof {
        vstd::utf8::encode_utf8_valid_utf8(s@);
        crate::text::lemma_find_byte(b@, 0, 0x3a);
    }
    let p = text::find_byte(b, 0, 0x3a);
    if p == n {
        return None;
    }
    let key = trim_quotes_seg(b, 0, p);
    let value = trim_quotes_seg(b, p + 1, n);
    Some((key, value))
}

/// The rank that an order map assigns to `name`: the most recently inserted
/// entry wins; an absent name ranks `0`.
pub open spec fn spec_order_lookup(m: Seq<(String, i32)>, name: Seq<char>) -> i32
    decreases m.len(),
{
    if m.len() == 0 {
        0
    } else if m.last().0@ == name {
        m.last().1
    } else {
        spec_order_lookup(m.drop_last(), name)
    }
}

/// Looks `name` up in an order map built by appending directives.
pub fn order_of(map: &Vec<(String, i32)>, name: &str) -> (r: i32)
    ensures
        r == spec_order_lookup(map@, name@),
{
    let n = map.len();
    proof {
        assert(map@.take(n as int) =~= map@);
    }
    let mut i: usize = n;
    while i > 0
        invariant
            i <= n,
            map@.len() == n,
            spec_order_lookup(map@, name@) == spec_order_lookup(map@.take(i as int), name@),
        decreases i,
    {
        proof {
            assert(map@.take(i as int).last() == map@[i - 1]);
            assert(map@.take(i as int).drop_last() =~= map@.take(i - 1));
        }
        if crate::text::str_eq(map[i - 1].0.as_str(), name) {
            return map[i - 1].1;
        }
        i = i - 1;
    }
    0
}

/// Appends one candidate page to the manifest with the rank that the order
/// map assigns to its filename (`0` if unranked).
pub fn add_to_manifest(manifest: &mut Vec<PagePlan>, filename: String, order_map: &Vec<(String, i32)>)
    ensures
        final(manifest)@ == old(manifest)@.push(
            PagePlan { filename, order: spec_order_lookup(order_map@, filename@) },
        ),
{
    let order = order_of(order_map, filename.as_str());
    manifest.push(PagePlan { filename, order });
}

/// The page index that a filename map assigns to `name`: the most recently
/// inserted entry wins.
pub open spec fn spec_lookup_last_u32(entries: Seq<(String, u32)>, name: Seq<char>) -> Option<u32>
    decreases entries.len(),
{
    if entries.len() == 0 {
        None
    } else if entries.last().0@ == name {
        Some(entries.last().1)
    } else {
        spec_lookup_last_u32(entries.drop_last(), name)
    }
}

/// Looks `name` up in a filename-to-page-index map built by appending.
pub fn page_index_of(map: &Vec<(String, u32)>, name: &str) -> (r: Option<u32>)
    ensures
        r == spec_lookup_last_u32(map@, name@),
{
    let n = map.len();
    proof {
        assert(map@.take(n as int) =~= map@);
    }
    let mut i: usize = n;
    while i > 0
        invariant
            i <= n,
            map@.len() == n,
            spec_lookup_last_u32(map@, name@) == spec_lookup_last_u32(map@.take(i as int), name@),
        decreases i,
    {
        proof {
            assert(map@.take(i as int).last() == map@[i - 1]);
            assert(map@.take(i as int).drop_last() =~= map@.take(i - 1));
        }
        if crate::text::str_eq(map[i - 1].0.as_str(), name) {
            return Some(map[i - 1].1);
        }
        i = i - 1;
    }
    None
}

/// One fully resolved section: the exact `add_section` call it stands for,
/// plus whether a filename target was actually found (an unresolvable target
/// defaults to page index 0 and is reported, never an abort).
pub struct PlannedSection {
    pub title: String,
    pub start_page: u32,
    pub parent: Option<u32>,
    pub target_found: bool,
}

/// The start page a directive resolves to: a filename target through the
/// filename map (missing: 0), a numeric target as its 1-based page number
/// (unparsable: page 1), converted to a 0-based index.
pub open spec fn spec_section_start(req: SectionReq, file_map: Seq<(String, u32)>) -> u32 {
    if req.is_filename {
        match spec_lookup_last_u32(file_map, req.target@) {
            Some(idx) => idx,
            None => 0,
        }
    } else {
        match spec_parse_u32(encode_utf8(req.target@)) {
            Some(v) => if v == 0 {
                0u32
            } else {
                (v - 1) as u32
            },
            None => 0u32,
        }
    }
}

/// Whether a directive's target resolves (numeric targets always do).
pub open spec fn spec_section_found(req: SectionReq, file_map: Seq<(String, u32)>) -> bool {
    !req.is_filename || spec_lookup_last_u32(file_map, req.target@) is Some
}

/// The index of the last directive before `upto` whose name is `name`.
pub open spec fn spec_parent_of(reqs: Seq<SectionReq>, upto: int, name: Seq<char>) -> Option<u32>
    decreases upto,
{
    if upto <= 0 {
        None
    } else if reqs[upto - 1].name@ == name {
        Some((upto - 1) as u32)
    } else {
        spec_parent_of(reqs, upto - 1, name)
    }
}

/// The parent a directive resolves to: the most recent earlier-defined
/// section of that name; an empty parent or a forward reference is none.
pub open spec fn spec_section_parent(reqs: Seq<SectionReq>, i: int) -> Option<u32> {
    if reqs[i].parent@.len() == 0 {
        None
    } else {
        spec_parent_of(reqs, i, reqs[i].parent@)
    }
}

/// Resolves every section directive, in order, against the filename map
/// built while emitting pages: each directive becomes the exact
/// `add_section` call it stands for.
pub fn resolve_sections(reqs: &Vec<SectionReq>, file_map: &Vec<(String, u32)>) -> (res: Vec<
    PlannedSection,
>)
    requires
        reqs@.len() <= u32::MAX,
    ensures
        res@.len() == reqs@.len(),
        forall|i: int|
            0 <= i < res@.len() ==> {
                let p = #[trigger] res@[i];
                &&& p.title@ == reqs@[i].name@
                &&& p.start_page == spec_section_start(reqs@[i], file_map@)
                &&& p.parent == spec_section_parent(reqs@, i)
                &&& p.target_found == spec_section_found(reqs@[i], file_map@)
            },
{
    let n = reqs.len();
    let mut res: Vec<PlannedSection> = Vec::new();
    let mut i: usize = 0;
    while i < n
        invariant
            i <= n,
            reqs@.len() == n,
            n <= u32::MAX,
            res@.len() == i,
            forall|k: int|
                0 <= k < i ==> {
                    let p = #[trigger] res@[k];
                    &&& p.title@ == reqs@[k].name@
                    &&& p.start_page == spec_section_start(reqs@[k], file_map@)
                    &&& p.parent == spec_section_parent(reqs@, k)
                    &&& p.target_found == spec_section_found(reqs@[k], file_map@)
                },
        decreases n - i,
    {
        let req = &reqs[i];
        let start_page: u32;
        let target_found: bool;
        if req.is_filename {
            match page_index_of(file_map, req.target.as_str()) {
                Some(idx) => {
                    start_page = idx;
                    target_found = true;
                },
                None => {
                    start_page = 0;
                    target_found = false;
                },
            }
        } else {
            start_page = match parse_u32(req.target.as_str()) {
                Some(v) => if v == 0 {
                    0
                } else {
                    v - 1
                },
                None => 0,
            };
            target_found = true;
        }
        let parent: Option<u32> = if req.parent.as_str().is_empty() {
            None
        } else {
            let mut j: usize = i;
            let mut found: Option<u32> = None;
            while j > 0 && found.is_none()
                invariant
                    j <= i < n,
                    reqs@.len() == n,
                    n <= u32::MAX,
                    match found {
                        Some(p) => Some(p) == spec_parent_of(reqs@, i as int, reqs@[i as int].parent@),
                        None => spec_parent_of(reqs@, i as int, reqs@[i as int].parent@)
                            == spec_parent_of(reqs@, j as int, reqs@[i as int].parent@),
                    },
                decreases j + (if found is Some { 0int } else { 1int }),
            {
                if crate::text::str_eq(reqs[j - 1].name.as_str(), reqs[i].parent.as_str()) {
                    found = Some((j - 1) as u32);
                } else {
                    j = j - 1;
                }
            }
            found
        };
        let title = clone_string(&req.name);
        res.push(PlannedSection { title, start_page, parent, target_found });
        i = i + 1;
    }
    res
}

/// An owned copy of a string, character-exact.
pub fn clone_string(s: &String) -> (r: String)
    ensures
        r@ == s@,
{
    s.as_str().to_owned()
}

/// The index of the first section titled `filter` at or after `from`, or
/// the section count if none matches.
pub open spec fn spec_find_title(secs: Seq<(String, u32)>, filter: Seq<char>, from: int) -> int
    recommends
        0 <= from <= secs.len(),
    decreases secs.len() - from,
{
    if from < 0 || from >= secs.len() {
        secs.len() as int
    } else if secs[from].0@ == filter {
        from
    } else {
        spec_find_title(secs, filter, from + 1)
    }
}

/// The page index at which an extraction starting at section `j - 1` ends:
/// the start of the first following section that satisfies the boundary rule
/// — a title containing the range key when one is given, otherwise a
/// strictly greater start index — or the page count if none qualifies.
pub open spec fn spec_range_end(
    secs: Seq<(String, u32)>,
    j: int,
    start: u32,
    page_count: u32,
    range_key: Option<Seq<char>>,
) -> u32
    decreases secs.len() - j,
{
    if j < 0 || j >= secs.len() {
        page_count
    } else {
        if spec_boundary_hit(secs[j].0@, secs[j].1, start, range_key) {
            secs[j].1
        } else {
            spec_range_end(secs, j + 1, start, page_count, range_key)
        }
    }
}

/// Whether one later section ends the extraction: its title contains the
/// range key when a non-empty one is given, otherwise its start index is
/// strictly greater than the extraction's start.
pub open spec fn spec_boundary_hit(
    title: Seq<char>,
    sec_start: u32,
    start: u32,
    range_key: Option<Seq<char>>,
) -> bool {
    match range_key {
        Some(k) => if k.len() > 0 {
            spec_contains_bytes(encode_utf8(title), encode_utf8(k))
        } else {
            sec_start > start
        },
        None => sec_start > start,
    }
}

/// The page range `[start, end)` that extracting the section titled
/// `filter` selects, or `None` when no section carries that title.
pub open spec fn spec_extract_range(
    secs: Seq<(String, u32)>,
    page_count: u32,
    filter: Seq<char>,
    range_key: Option<Seq<char>>,
) -> Option<(u32, u32)> {
    let i = spec_find_title(secs, filter, 0);
    if i == secs.len() {
        None
    } else {
        let start = secs[i].1;
        Some((start, spec_range_end(secs, i + 1, start, page_count, range_key)))
    }
}

/// Resolves the page range to extract for the section titled `filter` over
/// a book of `page_count` pages: from that section's start page up to the
/// first qualifying later section's start, or the end of the book.
pub fn resolve_extract_range(
    sections: &Vec<(String, u32)>,
    page_count: u32,
    filter: &str,
    range_key: Option<&str>,
) -> (r: Option<(u32, u32)>)
    ensures
        r == spec_extract_range(
            sections@,
            page_count,
            filter@,
            match range_key {
                Some(k) => Some(k@),
                None => None,
            },
        ),
{
    let ghost rk: Option<Seq<char>> = match range_key {
        Some(k) => Some(k@),
        None => None,
    };
    let n = sections.len();
    let mut i: usize = 0;
    while i < n && !crate::text::str_eq(sections[i].0.as_str(), filter)
        invariant
            i <= n,
            sections@.len() == n,
            spec_find_title(sections@, filter@, 0) == spec_find_title(sections@, filter@, i as int),
        decreases n - i,
    {
        i = i + 1;
    }
    if i == n {
        return None;
    }
    let start = sections[i].1;
    let mut j: usize = i + 1;
    while j < n
        invariant
            i < j <= n,
            sections@.len() == n,
            start == sections@[i as int].1,
            spec_find_title(sections@, filter@, 0) == i as int,
            rk == (match range_key {
                Some(k) => Some(k@),
                None => None::<Seq<char>>,
            }),
            spec_range_end(sections@, i + 1, start, page_count, rk) == spec_range_end(
                sections@,
                j as int,
                start,
                page_count,
                rk,
            ),
        decreases n - j,
    {
        let hit: bool = match range_key {
            Some(k) => {
                if !k.is_empty() {
                    let c = crate::text::contains_bytes(
                        sections[j].0.as_str().as_bytes(),
                        k.as_bytes(),
                    );
                    proof {
                        assert(c == spec_boundary_hit(
                            sections@[j as int].0@,
                            sections@[j as int].1,
                            start,
                            rk,
                        ));
                    }
                    c
                } else {
                    proof {
                        assert((sections@[j as int].1 > start) == spec_boundary_hit(
                            sections@[j as int].0@,
                            sections@[j as int].1,
                            start,
                            rk,
                        ));
                    }
                    sections[j].1 > start
                }
            },
            None => sections[j].1 > start,
        };
        proof {
            assert(hit == spec_boundary_hit(sections@[j as int].0@, sections@[j as int].1, start, rk));
        }
        if hit {
            return Some((start, sections[j].1));
        }
        j = j + 1;
    }
    Some((start, page_count))
}

} // verus!
