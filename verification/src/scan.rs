//! Directory sampling: each directory's image files are filtered by
//! extension, sorted lexicographically, and capped to the five first and
//! five last names, so that very large trees stay cheap to search.

use crate::paths::{
    has_image_extension, is_image_path, lemma_lex_lt_asym, lemma_lex_lt_connected,
    lemma_lex_lt_irrefl, lemma_lex_lt_trans, lex_lt, str_lt,
};
use vstd::prelude::*;

verus! {

/// The views of a sequence of strings.
pub open spec fn views_of(s: Seq<String>) -> Seq<Seq<char>> {
    s.map_values(|x: String| x@)
}

/// Keeps the paths that name image files, in order.
pub open spec fn image_filtered(s: Seq<Seq<char>>) -> Seq<Seq<char>>
    decreases s.len(),
{
    if s.len() == 0 {
        s
    } else if is_image_path(s.last()) {
        image_filtered(s.drop_last()).push(s.last())
    } else {
        image_filtered(s.drop_last())
    }
}

/// Inserts a path into a sequence, before the first element that does not
/// precede it.
pub open spec fn lex_inserted(x: Seq<char>, s: Seq<Seq<char>>) -> Seq<Seq<char>>
    decreases s.len(),
{
    if s.len() == 0 {
        seq![x]
    } else if lex_lt(s[0], x) {
        seq![s[0]] + lex_inserted(x, s.drop_first())
    } else {
        seq![x] + s
    }
}

/// The sequence sorted by `lex_lt`, by repeated insertion.
pub open spec fn lex_sorted(s: Seq<Seq<char>>) -> Seq<Seq<char>>
    decreases s.len(),
{
    if s.len() == 0 {
        s
    } else {
        lex_inserted(s.last(), lex_sorted(s.drop_last()))
    }
}

/// Whether the sequence is ordered by `lex_lt`: no element strictly
/// precedes an earlier one.
pub open spec fn lex_ordered(s: Seq<Seq<char>>) -> bool {
    forall|i: int, j: int| 0 <= i < j < s.len() ==> !lex_lt(s[j], s[i])
}

/// Where `lex_inserted` places its element: after the longest prefix of
/// elements that strictly precede it.
pub open spec fn insert_pos(x: Seq<char>, s: Seq<Seq<char>>) -> int
    decreases s.len(),
{
    if s.len() == 0 {
        0
    } else if lex_lt(s[0], x) {
        1 + insert_pos(x, s.drop_first())
    } else {
        0
    }
}

proof fn lemma_lex_nlt_trans(a: Seq<char>, b: Seq<char>, c: Seq<char>)
    requires
        !lex_lt(b, a),
        !lex_lt(c, b),
    ensures
        !lex_lt(c, a),
{
    if lex_lt(c, a) {
        if lex_lt(a, b) {
            if lex_lt(b, c) {
                lemma_lex_lt_trans(a, b, c);
                lemma_lex_lt_trans(a, c, a);
                lemma_lex_lt_irrefl(a);
            } else {
                lemma_lex_lt_connected(b, c);
                lemma_lex_lt_trans(a, b, a);
                lemma_lex_lt_irrefl(a);
            }
        } else {
            lemma_lex_lt_connected(a, b);
            if lex_lt(b, c) {
                lemma_lex_lt_trans(a, c, a);
                lemma_lex_lt_irrefl(a);
            } else {
                lemma_lex_lt_connected(b, c);
                lemma_lex_lt_irrefl(a);
            }
        }
    }
}

/// `lex_inserted` splits the sequence at `insert_pos` and puts the new
/// element between the two halves.
pub proof fn lemma_lex_inserted_split(x: Seq<char>, s: Seq<Seq<char>>)
    ensures
        0 <= insert_pos(x, s) <= s.len(),
        lex_inserted(x, s) == s.take(insert_pos(x, s)) + seq![x] + s.skip(insert_pos(x, s)),
        forall|j: int| 0 <= j < insert_pos(x, s) ==> lex_lt(s[j], x),
        insert_pos(x, s) < s.len() ==> !lex_lt(s[insert_pos(x, s)], x),
    decreases s.len(),
{
    if s.len() == 0 {
        assert(lex_inserted(x, s) =~= s.take(0) + seq![x] + s.skip(0));
    } else if lex_lt(s[0], x) {
        lemma_lex_inserted_split(x, s.drop_first());
        let k = insert_pos(x, s);
        assert(s.drop_first().take(k - 1) =~= s.take(k).drop_first());
        assert(s.drop_first().skip(k - 1) =~= s.skip(k));
        assert(seq![s[0]] + (s.drop_first().take(k - 1) + seq![x] + s.drop_first().skip(k - 1))
            =~= s.take(k) + seq![x] + s.skip(k));
        assert(forall|j: int| 1 <= j < k ==> s[j] == s.drop_first()[j - 1]);
    } else {
        assert(lex_inserted(x, s) =~= s.take(0) + seq![x] + s.skip(0));
    }
}

/// Inserting into an ordered sequence keeps it ordered.
pub proof fn lemma_lex_inserted_ordered(x: Seq<char>, s: Seq<Seq<char>>)
    requires
        lex_ordered(s),
    ensures
        lex_ordered(lex_inserted(x, s)),
{
    lemma_lex_inserted_split(x, s);
    let k = insert_pos(x, s);
    let t = lex_inserted(x, s);
    assert forall|i: int, j: int| 0 <= i < j < t.len() implies !lex_lt(t[j], t[i]) by {
        if i < k && j < k {
        } else if i < k && j == k {
            // t[j] is x, t[i] strictly precedes x
            lemma_lex_lt_asym(s[i], x);
        } else if i < k && j > k {
            // s[i] < x and s elements after the split do not precede s[i]
        } else if i == k && j == k + 1 {
            // t[j] is s[k], which x does not follow
        } else if i == k && j > k + 1 {
            // t[i] is x; x does not follow s[k], which does not follow s[j-1]
            lemma_lex_nlt_trans(x, s[k], s[j - 1]);
        } else if i > k && j > k {
        }
    }
}

/// Sorting yields an ordered permutation of the same length.
pub proof fn lemma_lex_sorted_ordered(s: Seq<Seq<char>>)
    ensures
        lex_sorted(s).len() == s.len(),
        lex_ordered(lex_sorted(s)),
    decreases s.len(),
{
    if s.len() > 0 {
        lemma_lex_sorted_ordered(s.drop_last());
        lemma_lex_inserted_ordered(s.last(), lex_sorted(s.drop_last()));
        lemma_lex_inserted_split(s.last(), lex_sorted(s.drop_last()));
    }
}

/// The first five and last five entries of a (sorted) listing; the whole
/// listing when it has no more than ten entries.  A name in both halves
/// appears once.
pub open spec fn sample_of(s: Seq<Seq<char>>) -> Seq<Seq<char>> {
    if s.len() <= 10 {
        s
    } else {
        s.take(5) + s.skip(s.len() - 5)
    }
}

/// The sampled image names of one directory listing: filtered to image
/// extensions, sorted, and capped to the lexicographic extremes.
pub open spec fn dir_sample(listing: Seq<Seq<char>>) -> Seq<Seq<char>> {
    sample_of(lex_sorted(image_filtered(listing)))
}

/// A directory's sample is ordered and bounded: every surviving name
/// when ten or fewer files carry an image extension, and exactly ten,
/// the extremes of the sorted listing, otherwise.
pub proof fn lemma_dir_sample_bounded(listing: Seq<Seq<char>>)
    ensures
        dir_sample(listing).len() == (if image_filtered(listing).len() <= 10 {
            image_filtered(listing).len() as int
        } else {
            10
        }),
        lex_ordered(dir_sample(listing)),
{
    lemma_lex_sorted_ordered(image_filtered(listing));
    let sorted = lex_sorted(image_filtered(listing));
    if sorted.len() > 10 {
        let smp = sample_of(sorted);
        let n = sorted.len();
        assert forall|i: int, j: int| 0 <= i < j < smp.len() implies !lex_lt(smp[j], smp[i]) by {
            let ii = if i < 5 {
                i
            } else {
                n - 10 + i
            };
            let jj = if j < 5 {
                j
            } else {
                n - 10 + j
            };
            assert(smp[i] == sorted[ii]);
            assert(smp[j] == sorted[jj]);
        }
    }
}

/// Sorts path strings lexicographically by insertion.
pub fn sort_paths(v: &Vec<String>) -> (r: Vec<String>)
    ensures
        views_of(r@) == lex_sorted(views_of(v@)),
{
    let ghost all = views_of(v@);
    let mut out: Vec<String> = Vec::new();
    let mut i: usize = 0;
    while i < v.len()
        invariant
            i <= v@.len(),
            all == views_of(v@),
            views_of(out@) == lex_sorted(all.take(i as int)),
        decreases v@.len() - i,
    {
        let x = v[i].clone();
        let mut k: usize = 0;
        while k < out.len() && str_lt(out[k].as_str(), x.as_str())
            invariant
                k <= out@.len(),
                x == v@[i as int],
                forall|j: int| 0 <= j < k ==> lex_lt(views_of(out@)[j], x@),
            decreases out@.len() - k,
        {
            k = k + 1;
        }
        proof {
            lemma_insert_pos_found(x@, views_of(out@), k as int);
            lemma_lex_inserted_split(x@, views_of(out@));
        }
        let ghost before = views_of(out@);
        out.insert(k, x);
        proof {
            assert(views_of(out@) =~= before.take(k as int) + seq![x@] + before.skip(k as int));
            assert(all.take(i as int + 1).drop_last() =~= all.take(i as int));
            assert(all.take(i as int + 1).last() == x@);
        }
        i = i + 1;
    }
    proof {
        assert(all.take(v@.len() as int) =~= all);
    }
    out
}

proof fn lemma_insert_pos_found(x: Seq<char>, s: Seq<Seq<char>>, k: int)
    requires
        0 <= k <= s.len(),
        forall|j: int| 0 <= j < k ==> lex_lt(s[j], x),
        k < s.len() ==> !lex_lt(s[k], x),
    ensures
        insert_pos(x, s) == k,
    decreases s.len(),
{
    if s.len() == 0 {
    } else if k == 0 {
    } else {
        assert(lex_lt(s[0], x));
        assert(forall|j: int| 0 <= j < k - 1 ==> s.drop_first()[j] == s[j + 1]);
        lemma_insert_pos_found(x, s.drop_first(), k - 1);
    }
}

/// The sampled candidates of one directory: the files with an image
/// extension, sorted lexicographically, reduced to the first five and
/// last five names.
pub fn sample_directory(files: &Vec<String>) -> (r: Vec<String>)
    ensures
        views_of(r@) == dir_sample(views_of(files@)),
{
    let ghost all = views_of(files@);
    let mut imgs: Vec<String> = Vec::new();
    let mut i: usize = 0;
    while i < files.len()
        invariant
            i <= files@.len(),
            all == views_of(files@),
            views_of(imgs@) == image_filtered(all.take(i as int)),
        decreases files@.len() - i,
    {
        proof {
            assert(all.take(i as int + 1).drop_last() =~= all.take(i as int));
            assert(all.take(i as int + 1).last() == files@[i as int]@);
        }
        if has_image_extension(files[i].as_str()) {
            let ghost before = views_of(imgs@);
            imgs.push(files[i].clone());
            proof {
                assert(views_of(imgs@) =~= before.push(files@[i as int]@));
            }
        }
        i = i + 1;
    }
    proof {
        assert(all.take(files@.len() as int) =~= all);
    }
    let sorted = sort_paths(&imgs);
    let n = sorted.len();
    if n <= 10 {
        sorted
    } else {
        let ghost sv = views_of(sorted@);
        let mut out: Vec<String> = Vec::new();
        let mut i: usize = 0;
        while i < 5
            invariant
                n == sv.len(),
                n == sorted@.len(),
                n > 10,
                sv == views_of(sorted@),
                i <= 5,
                views_of(out@) == sv.take(i as int),
            decreases 5 - i,
        {
            let ghost before = views_of(out@);
            out.push(sorted[i].clone());
            proof {
                assert(views_of(out@) =~= before.push(sv[i as int]));
                assert(sv.take(i as int + 1) =~= sv.take(i as int).push(sv[i as int]));
            }
            i = i + 1;
        }
        let mut j: usize = n - 5;
        while j < n
            invariant
                n == sv.len(),
                n == sorted@.len(),
                n > 10,
                sv == views_of(sorted@),
                n - 5 <= j <= n,
                views_of(out@) == sv.take(5) + sv.skip(n - 5).take(j - (n - 5)),
            decreases n - j,
        {
            let ghost before = views_of(out@);
            out.push(sorted[j].clone());
            proof {
                assert(views_of(out@) =~= before.push(sv[j as int]));
                assert(sv.skip(n - 5).take(j - (n - 5) + 1) =~= sv.skip(n - 5).take(
                    j - (n - 5),
                ).push(sv[j as int]));
            }
            j = j + 1;
        }
        proof {
            assert(sv.skip(n - 5).take(sv.len() - (n - 5)) =~= sv.skip(n - 5));
        }
        out
    }
}

/// The views of a sequence of directory listings.
pub open spec fn listing_views(s: Seq<Vec<String>>) -> Seq<Seq<Seq<char>>> {
    s.map_values(|v: Vec<String>| views_of(v@))
}

/// The concatenated samples of a sequence of directory listings, in
/// visiting order.
pub open spec fn samples_concat(ls: Seq<Seq<Seq<char>>>) -> Seq<Seq<char>>
    decreases ls.len(),
{
    if ls.len() == 0 {
        Seq::empty()
    } else {
        samples_concat(ls.drop_last()) + dir_sample(ls.last())
    }
}

/// The candidate paths of a whole scan: each visited directory's listing
/// sampled, concatenated in visiting order.
pub fn collect_samples(listings: &Vec<Vec<String>>) -> (r: Vec<String>)
    ensures
        views_of(r@) == samples_concat(listing_views(listings@)),
{
    let ghost all = listing_views(listings@);
    let mut out: Vec<String> = Vec::new();
    let mut i: usize = 0;
    while i < listings.len()
        invariant
            i <= listings@.len(),
            all == listing_views(listings@),
            views_of(out@) == samples_concat(all.take(i as int)),
        decreases listings@.len() - i,
    {
        let ghost before = views_of(out@);
        let mut sampled = sample_directory(&listings[i]);
        let ghost sampled_views = views_of(sampled@);
        out.append(&mut sampled);
        proof {
            assert(views_of(out@) =~= before + sampled_views);
            assert(all.take(i as int + 1).drop_last() =~= all.take(i as int));
            assert(all.take(i as int + 1).last() == views_of(listings@[i as int]@));
        }
        i = i + 1;
    }
    proof {
        assert(all.take(listings@.len() as int) =~= all);
    }
    out
}

} // verus!
