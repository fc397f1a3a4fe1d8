//! The packer itself: free-space tracking, greedy placement, and the
//! resulting atlas with its placement map and tight bounding size.

use vstd::prelude::*;
use crate::geometry::{
    Rect, Size, spec_fits, spec_max_size, spec_area, rect_right, rect_bottom, extent_ok,
    disjoint, contained_in, placed_rect, shrunk_space, split_leftover,
    lemma_split_pieces, lemma_contained_extent, lemma_contained_disjoint,
};

verus! {

/// A placement map entry at the specification level: an identifier and the
/// rectangle it was placed at.
pub type Entry = (Seq<char>, Rect);

/// Packs non-repeating images into a texture atlas of bounded size.
///
/// Free space is tracked as a sequence of rectangles, tried in reverse
/// insertion order; placements accumulate as a last-write-wins map from
/// identifier to rectangle, kept as a key-unique vector of pairs.
pub struct AtlasBuilder {
    empty_spaces: Vec<Rect>,
    textures: Vec<(String, Rect)>,
}

/// The final, immutable result of a packing run: the placement map and the
/// tightest size bounding every placed rectangle.
pub struct Atlas {
    pub textures: Vec<(String, Rect)>,
    pub size: Size,
}

impl Atlas {
    /// Well-formedness of a finished atlas: placements are key-unique and
    /// pairwise non-overlapping, and `size` is their folded bounding size,
    /// which encloses every one of them.
    pub open spec fn wf(self) -> bool {
        &&& entries_wf(entries_view(self.textures@))
        &&& self.size == bound_fold(entries_view(self.textures@))
        &&& forall|i: int|
            0 <= i < entries_view(self.textures@).len() ==> {
                &&& rect_right((#[trigger] entries_view(self.textures@)[i]).1) <= self.size.width
                &&& rect_bottom(entries_view(self.textures@)[i].1) <= self.size.height
            }
    }
}

/// Non-overlap: two placements recorded under different indices of a
/// well-formed atlas have non-overlapping interiors.
pub proof fn lemma_atlas_no_overlap(a: Atlas, i: int, j: int)
    requires
        a.wf(),
        0 <= i < entries_view(a.textures@).len(),
        0 <= j < entries_view(a.textures@).len(),
        i != j,
    ensures
        disjoint(entries_view(a.textures@)[i].1, entries_view(a.textures@)[j].1),
{
}

/// Containment: every placement of a well-formed atlas lies within
/// `[0, size.width) x [0, size.height)` of the atlas's bounding size.
pub proof fn lemma_atlas_containment(a: Atlas, i: int)
    requires
        a.wf(),
        0 <= i < entries_view(a.textures@).len(),
    ensures
        rect_right(entries_view(a.textures@)[i].1) <= a.size.width,
        rect_bottom(entries_view(a.textures@)[i].1) <= a.size.height,
{
}

/// The identifiers of `entries`, viewed as sequences of characters, paired
/// with their rectangles.
pub open spec fn entries_view(s: Seq<(String, Rect)>) -> Seq<Entry> {
    Seq::new(s.len(), |i: int| (s[i].0@, s[i].1))
}

/// The index of the last free rectangle `size` fits into, or `-1` when none
/// admits it. The last fitting rectangle is the one the packer tries first:
/// free space is probed in reverse insertion order.
pub open spec fn find_space_idx(spaces: Seq<Rect>, size: Size) -> int
    decreases spaces.len(),
{
    if spaces.len() == 0 {
        -1
    } else if spec_fits(size, spaces.last().size) {
        spaces.len() - 1
    } else {
        find_space_idx(spaces.drop_last(), size)
    }
}

/// The index of the first entry under key `k`, or `-1` when `k` is absent.
pub open spec fn key_index(entries: Seq<Entry>, k: Seq<char>) -> int
    decreases entries.len(),
{
    if entries.len() == 0 {
        -1
    } else if entries.first().0 == k {
        0
    } else {
        let r = key_index(entries.drop_first(), k);
        if r == -1 {
            -1
        } else {
            r + 1
        }
    }
}

/// Record `k -> r`, overwriting the entry already under `k` if there is one
/// (a duplicate identifier is an anomaly, not an error: the later write
/// wins), otherwise appending.
pub open spec fn put_entry(entries: Seq<Entry>, k: Seq<char>, r: Rect) -> Seq<Entry> {
    let i = key_index(entries, k);
    if i == -1 {
        entries.push((k, r))
    } else {
        entries.update(i, (k, r))
    }
}

/// One placement step at the specification level: the state of the free
/// space and of the placement map after placing `name` with `size`, or
/// `None` when no free rectangle admits `size`.
pub open spec fn add_rect_spec(
    spaces: Seq<Rect>,
    entries: Seq<Entry>,
    name: Seq<char>,
    size: Size,
) -> Option<(Seq<Rect>, Seq<Entry>)> {
    let i = find_space_idx(spaces, size);
    if i == -1 {
        None
    } else {
        let space = spaces[i];
        let updated = spaces.update(i, shrunk_space(space, size));
        let spaces2 = match split_leftover(space, size) {
            Some(l) => updated.push(l),
            None => updated,
        };
        Some((spaces2, put_entry(entries, name, placed_rect(space, size))))
    }
}

/// Folds placement steps over a sequence of requests, stopping at the first
/// request no free rectangle admits. Returns the final free space, the final
/// placement map, and whether every request was placed.
pub open spec fn pack_seq(
    spaces: Seq<Rect>,
    entries: Seq<Entry>,
    items: Seq<(Seq<char>, Size)>,
) -> (Seq<Rect>, Seq<Entry>, bool)
    decreases items.len(),
{
    if items.len() == 0 {
        (spaces, entries, true)
    } else {
        match add_rect_spec(spaces, entries, items.first().0, items.first().1) {
            None => (spaces, entries, false),
            Some((spaces2, entries2)) => pack_seq(spaces2, entries2, items.drop_first()),
        }
    }
}

/// The area a request is ranked by when the input list is sorted.
pub open spec fn item_area(p: (Seq<char>, Size)) -> int {
    spec_area(p.1)
}

/// Stable insertion of `x` into `s` by descending area: `x` goes behind
/// every element of at least its area, in front of the rest.
pub open spec fn insert_by_area_spec(
    s: Seq<(Seq<char>, Size)>,
    x: (Seq<char>, Size),
) -> Seq<(Seq<char>, Size)>
    decreases s.len(),
{
    if s.len() > 0 && item_area(s.first()) >= item_area(x) {
        seq![s.first()] + insert_by_area_spec(s.drop_first(), x)
    } else {
        seq![x] + s
    }
}

/// Stable sort by descending area: requests of equal area keep their
/// relative input order.
pub open spec fn sort_by_area_spec(s: Seq<(Seq<char>, Size)>) -> Seq<(Seq<char>, Size)>
    decreases s.len(),
{
    if s.len() == 0 {
        Seq::empty()
    } else {
        insert_by_area_spec(sort_by_area_spec(s.drop_last()), s.last())
    }
}

/// The identifiers of the requests in `s`, viewed as sequences of
/// characters, paired with their sizes.
pub open spec fn items_view(s: Seq<(String, Size)>) -> Seq<(Seq<char>, Size)> {
    Seq::new(s.len(), |i: int| (s[i].0@, s[i].1))
}

/// The predicate selecting requests of area `a`.
pub open spec fn area_is(a: int) -> spec_fn((Seq<char>, Size)) -> bool {
    |p: (Seq<char>, Size)| item_area(p) == a
}

/// The list is ordered by weakly decreasing area.
pub open spec fn sorted_by_area_desc(s: Seq<(Seq<char>, Size)>) -> bool {
    forall|i: int, j: int|
        0 <= i < j < s.len() ==> item_area(#[trigger] s[i]) >= item_area(#[trigger] s[j])
}

/// Where the stable insertion puts its element: behind the longest prefix
/// of elements with at least its area.
spec fn insert_pos(s: Seq<(Seq<char>, Size)>, x: (Seq<char>, Size)) -> int
    decreases s.len(),
{
    if s.len() > 0 && item_area(s.first()) >= item_area(x) {
        1 + insert_pos(s.drop_first(), x)
    } else {
        0
    }
}

proof fn lemma_insert_pos_props(s: Seq<(Seq<char>, Size)>, x: (Seq<char>, Size))
    ensures
        0 <= insert_pos(s, x) <= s.len(),
        forall|m: int| 0 <= m < insert_pos(s, x) ==> item_area(#[trigger] s[m]) >= item_area(x),
        insert_pos(s, x) < s.len() ==> item_area(s[insert_pos(s, x)]) < item_area(x),
    decreases s.len(),
{
    if s.len() > 0 && item_area(s.first()) >= item_area(x) {
        lemma_insert_pos_props(s.drop_first(), x);
        let p = insert_pos(s, x);
        assert forall|m: int| 0 <= m < p implies item_area(#[trigger] s[m]) >= item_area(x) by {
            if m > 0 {
                assert(s.drop_first()[m - 1] == s[m]);
            }
        }
        if p < s.len() {
            assert(s.drop_first()[p - 1] == s[p]);
        }
    }
}

proof fn lemma_insert_by_area_char(s: Seq<(Seq<char>, Size)>, x: (Seq<char>, Size))
    ensures
        insert_by_area_spec(s, x) == s.take(insert_pos(s, x)) + seq![x] + s.skip(
            insert_pos(s, x),
        ),
{
    lemma_insert_pos_props(s, x);
    lemma_insert_by_area_at(s, x, insert_pos(s, x));
}

proof fn lemma_insert_by_area_sorted(s: Seq<(Seq<char>, Size)>, x: (Seq<char>, Size))
    requires
        sorted_by_area_desc(s),
    ensures
        sorted_by_area_desc(insert_by_area_spec(s, x)),
{
    lemma_insert_pos_props(s, x);
    lemma_insert_by_area_char(s, x);
    let p = insert_pos(s, x);
    let r = insert_by_area_spec(s, x);
    assert forall|i: int, j: int| 0 <= i < j < r.len() implies item_area(#[trigger] r[i])
        >= item_area(#[trigger] r[j]) by {
        assert(r[i] == if i < p { s[i] } else if i == p { x } else { s[i - 1] });
        assert(r[j] == if j < p { s[j] } else if j == p { x } else { s[j - 1] });
        if i < p && j == p {
            assert(item_area(s[i]) >= item_area(x));
        } else if i == p && j > p {
            assert(item_area(s[p]) < item_area(x));
            if p < j - 1 {
                assert(item_area(s[p]) >= item_area(s[j - 1]));
            }
        }
    }
}

proof fn lemma_insert_by_area_multiset(s: Seq<(Seq<char>, Size)>, x: (Seq<char>, Size))
    ensures
        insert_by_area_spec(s, x).to_multiset() == s.to_multiset().insert(x),
{
    lemma_insert_pos_props(s, x);
    lemma_insert_by_area_char(s, x);
    let p = insert_pos(s, x);
    s.insert_ensures(p, x);
    assert(insert_by_area_spec(s, x) =~= s.insert(p, x));
    vstd::seq_lib::to_multiset_insert(s, p, x);
}

proof fn lemma_filter_empty_when_none(s: Seq<(Seq<char>, Size)>, a: int)
    requires
        forall|k: int| 0 <= k < s.len() ==> item_area(#[trigger] s[k]) != a,
    ensures
        s.filter(area_is(a)) == Seq::<(Seq<char>, Size)>::empty(),
    decreases s.len(),
{
    reveal(Seq::filter);
    if s.len() > 0 {
        lemma_filter_empty_when_none(s.drop_last(), a);
        assert(!area_is(a)(s.last()));
    }
}

proof fn lemma_filter_single(x: (Seq<char>, Size), a: int)
    ensures
        seq![x].filter(area_is(a)) == (
        if item_area(x) == a {
            seq![x]
        } else {
            Seq::<(Seq<char>, Size)>::empty()
        }),
{
    reveal(Seq::filter);
    assert(seq![x].drop_last() =~= Seq::<(Seq<char>, Size)>::empty());
    assert(seq![x].last() == x);
    assert(Seq::<(Seq<char>, Size)>::empty().filter(area_is(a))
        == Seq::<(Seq<char>, Size)>::empty());
    assert(area_is(a)(x) == (item_area(x) == a));
    if item_area(x) == a {
        assert(seq![x].filter(area_is(a)) =~= seq![x]);
    } else {
        assert(seq![x].filter(area_is(a)) =~= Seq::<(Seq<char>, Size)>::empty());
    }
}

proof fn lemma_insert_by_area_filter(s: Seq<(Seq<char>, Size)>, x: (Seq<char>, Size), a: int)
    requires
        sorted_by_area_desc(s),
    ensures
        insert_by_area_spec(s, x).filter(area_is(a)) == (
        if item_area(x) == a {
            s.filter(area_is(a)).push(x)
        } else {
            s.filter(area_is(a))
        }),
{
    lemma_insert_pos_props(s, x);
    lemma_insert_by_area_char(s, x);
    let p = insert_pos(s, x);
    let pred = area_is(a);
    let front = s.take(p);
    let back = s.skip(p);
    Seq::filter_distributes_over_add(front + seq![x], back, pred);
    Seq::filter_distributes_over_add(front, seq![x], pred);
    Seq::filter_distributes_over_add(front, back, pred);
    assert(front + back =~= s);
    lemma_filter_single(x, a);
    if item_area(x) == a {
        // everything past the insertion point has strictly smaller area,
        // so nothing there matches `a`
        assert forall|k: int| 0 <= k < back.len() implies item_area(#[trigger] back[k]) != a by {
            assert(back[k] == s[p + k]);
            assert(item_area(s[p]) < item_area(x));
            if k > 0 {
                assert(item_area(s[p]) >= item_area(s[p + k]));
            }
        }
        lemma_filter_empty_when_none(back, a);
        assert(insert_by_area_spec(s, x).filter(pred) =~= s.filter(pred).push(x));
    } else {
        assert(insert_by_area_spec(s, x).filter(pred) =~= s.filter(pred));
    }
}

/// The packer's sort really sorts: its output is ordered by weakly
/// decreasing area.
pub proof fn lemma_sort_by_area_sorted(s: Seq<(Seq<char>, Size)>)
    ensures
        sorted_by_area_desc(sort_by_area_spec(s)),
    decreases s.len(),
{
    if s.len() > 0 {
        lemma_sort_by_area_sorted(s.drop_last());
        lemma_insert_by_area_sorted(sort_by_area_spec(s.drop_last()), s.last());
    }
}

/// The sort is a permutation: the same requests come out, with the same
/// multiplicities.
pub proof fn lemma_sort_by_area_permutation(s: Seq<(Seq<char>, Size)>)
    ensures
        sort_by_area_spec(s).to_multiset() == s.to_multiset(),
    decreases s.len(),
{
    broadcast use vstd::seq_lib::group_to_multiset_ensures;

    if s.len() > 0 {
        lemma_sort_by_area_permutation(s.drop_last());
        lemma_insert_by_area_multiset(sort_by_area_spec(s.drop_last()), s.last());
        assert(s =~= s.drop_last().push(s.last()));
    }
}

/// The sort is stable: among the requests of any single area, the sorted
/// output keeps exactly the input order.
pub proof fn lemma_sort_by_area_stable(s: Seq<(Seq<char>, Size)>, a: int)
    ensures
        sort_by_area_spec(s).filter(area_is(a)) == s.filter(area_is(a)),
    decreases s.len(),
{
    reveal(Seq::filter);
    if s.len() > 0 {
        lemma_sort_by_area_stable(s.drop_last(), a);
        lemma_sort_by_area_sorted(s.drop_last());
        lemma_insert_by_area_filter(sort_by_area_spec(s.drop_last()), s.last(), a);
    }
}

/// The tightest size whose box from the origin encloses every placed
/// rectangle: the component-wise maximum of all bottom-right extents,
/// starting from zero.
pub open spec fn bound_fold(entries: Seq<Entry>) -> Size
    decreases entries.len(),
{
    if entries.len() == 0 {
        Size { width: 0, height: 0 }
    } else {
        spec_max_size(
            bound_fold(entries.drop_last()),
            Size {
                width: (entries.last().1.left + entries.last().1.size.width) as u32,
                height: (entries.last().1.top + entries.last().1.size.height) as u32,
            },
        )
    }
}

proof fn lemma_find_space_idx_range(spaces: Seq<Rect>, size: Size)
    ensures
        -1 <= find_space_idx(spaces, size) < spaces.len(),
        find_space_idx(spaces, size) >= 0 ==> spec_fits(
            size,
            spaces[find_space_idx(spaces, size)].size,
        ),
    decreases spaces.len(),
{
    if spaces.len() > 0 && !spec_fits(size, spaces.last().size) {
        lemma_find_space_idx_range(spaces.drop_last(), size);
    }
}

/// A fitting free rectangle is found exactly when one exists.
pub proof fn lemma_find_space_exists(spaces: Seq<Rect>, size: Size)
    ensures
        find_space_idx(spaces, size) >= 0 <==> exists|i: int|
            0 <= i < spaces.len() && spec_fits(size, (#[trigger] spaces[i]).size),
    decreases spaces.len(),
{
    lemma_find_space_idx_range(spaces, size);
    if spaces.len() == 0 {
    } else if spec_fits(size, spaces.last().size) {
        assert(spec_fits(size, spaces[spaces.len() - 1].size));
    } else {
        lemma_find_space_exists(spaces.drop_last(), size);
        if exists|i: int| 0 <= i < spaces.len() && spec_fits(size, (#[trigger] spaces[i]).size) {
            let w = choose|i: int|
                0 <= i < spaces.len() && spec_fits(size, (#[trigger] spaces[i]).size);
            assert(w < spaces.len() - 1);
            assert(spaces.drop_last()[w] == spaces[w]);
            assert(spec_fits(size, (spaces.drop_last()[w]).size));
        }
        if find_space_idx(spaces, size) >= 0 {
            let w = choose|i: int|
                0 <= i < spaces.drop_last().len() && spec_fits(
                    size,
                    (#[trigger] spaces.drop_last()[i]).size,
                );
            assert(spaces.drop_last()[w] == spaces[w]);
        }
    }
}

proof fn lemma_find_space_idx_none(spaces: Seq<Rect>, size: Size)
    requires
        forall|k: int| 0 <= k < spaces.len() ==> !spec_fits(size, (#[trigger] spaces[k]).size),
    ensures
        find_space_idx(spaces, size) == -1,
    decreases spaces.len(),
{
    if spaces.len() > 0 {
        lemma_find_space_idx_none(spaces.drop_last(), size);
    }
}

proof fn lemma_find_space_idx_at(spaces: Seq<Rect>, size: Size, j: int)
    requires
        0 <= j < spaces.len(),
        spec_fits(size, spaces[j].size),
        forall|k: int| j < k < spaces.len() ==> !spec_fits(size, (#[trigger] spaces[k]).size),
    ensures
        find_space_idx(spaces, size) == j,
    decreases spaces.len(),
{
    if j < spaces.len() - 1 {
        lemma_find_space_idx_at(spaces.drop_last(), size, j);
    }
}

proof fn lemma_key_index_none(entries: Seq<Entry>, k: Seq<char>)
    requires
        forall|m: int| 0 <= m < entries.len() ==> (#[trigger] entries[m]).0 != k,
    ensures
        key_index(entries, k) == -1,
    decreases entries.len(),
{
    if entries.len() > 0 {
        assert(forall|m: int|
            0 <= m < entries.drop_first().len()
                ==> (#[trigger] entries.drop_first()[m]).0 == entries[m + 1].0);
        lemma_key_index_none(entries.drop_first(), k);
    }
}

proof fn lemma_key_index_at(entries: Seq<Entry>, k: Seq<char>, j: int)
    requires
        0 <= j < entries.len(),
        entries[j].0 == k,
        forall|m: int| 0 <= m < j ==> (#[trigger] entries[m]).0 != k,
    ensures
        key_index(entries, k) == j,
    decreases entries.len(),
{
    if j > 0 {
        assert(forall|m: int|
            0 <= m < entries.drop_first().len()
                ==> (#[trigger] entries.drop_first()[m]).0 == entries[m + 1].0);
        lemma_key_index_at(entries.drop_first(), k, j - 1);
    }
}

/// Well-formedness of a placement map: extents representable, identifiers
/// unique, and interiors pairwise non-overlapping.
pub open spec fn entries_wf(entries: Seq<Entry>) -> bool {
    &&& forall|i: int| 0 <= i < entries.len() ==> extent_ok((#[trigger] entries[i]).1)
    &&& forall|i: int, j: int|
        0 <= i < entries.len() && 0 <= j < entries.len() && i != j
            ==> (#[trigger] entries[i]).0 != (#[trigger] entries[j]).0
    &&& forall|i: int, j: int|
        0 <= i < entries.len() && 0 <= j < entries.len() && i != j
            ==> disjoint((#[trigger] entries[i]).1, (#[trigger] entries[j]).1)
}

/// Well-formedness of the packer's whole state: the free rectangles have
/// representable extents and pairwise non-overlapping interiors, the
/// placement map is well-formed, and no free rectangle overlaps a placement.
pub open spec fn state_wf(spaces: Seq<Rect>, entries: Seq<Entry>) -> bool {
    &&& forall|i: int| 0 <= i < spaces.len() ==> extent_ok(#[trigger] spaces[i])
    &&& forall|i: int, j: int|
        0 <= i < spaces.len() && 0 <= j < spaces.len() && i != j
            ==> disjoint(#[trigger] spaces[i], #[trigger] spaces[j])
    &&& entries_wf(entries)
    &&& forall|i: int, j: int|
        0 <= i < spaces.len() && 0 <= j < entries.len()
            ==> disjoint(#[trigger] spaces[i], (#[trigger] entries[j]).1)
}

proof fn lemma_key_index_props(entries: Seq<Entry>, k: Seq<char>)
    ensures
        key_index(entries, k) == -1 || (0 <= key_index(entries, k) < entries.len()
            && entries[key_index(entries, k)].0 == k),
        key_index(entries, k) == -1
            ==> forall|m: int| 0 <= m < entries.len() ==> (#[trigger] entries[m]).0 != k,
    decreases entries.len(),
{
    if entries.len() > 0 && entries.first().0 != k {
        lemma_key_index_props(entries.drop_first(), k);
        let r = key_index(entries.drop_first(), k);
        if r == -1 {
            assert forall|m: int| 0 <= m < entries.len() implies (#[trigger] entries[m]).0 != k by {
                if m > 0 {
                    assert(entries.drop_first()[m - 1] == entries[m]);
                }
            }
        } else {
            assert(entries.drop_first()[r] == entries[r + 1]);
        }
    }
}

/// Containment: the folded bounding size encloses the bottom-right extent
/// of every placement that went into the fold.
pub proof fn lemma_bound_fold_contains(entries: Seq<Entry>, i: int)
    requires
        0 <= i < entries.len(),
        forall|m: int| 0 <= m < entries.len() ==> extent_ok((#[trigger] entries[m]).1),
    ensures
        rect_right(entries[i].1) <= bound_fold(entries).width,
        rect_bottom(entries[i].1) <= bound_fold(entries).height,
    decreases entries.len(),
{
    if i < entries.len() - 1 {
        assert forall|m: int| 0 <= m < entries.drop_last().len() implies extent_ok(
            (#[trigger] entries.drop_last()[m]).1,
        ) by {
            assert(entries.drop_last()[m] == entries[m]);
        }
        lemma_bound_fold_contains(entries.drop_last(), i);
        assert(entries.drop_last()[i] == entries[i]);
    }
}

/// Computing the bounding size twice without further insertions yields the
/// same result: the size is a function of the recorded placements alone.
pub proof fn lemma_bounding_size_repeatable(b: AtlasBuilder, first: Size, second: Size)
    requires
        first == bound_fold(b.placements()),
        second == bound_fold(b.placements()),
    ensures
        first == second,
{
}

/// Recording one more placement whose rectangle already lies within the
/// current bounding size leaves the bounding size unchanged.
pub proof fn lemma_bound_fold_stable(entries: Seq<Entry>, name: Seq<char>, r: Rect)
    requires
        extent_ok(r),
        rect_right(r) <= bound_fold(entries).width,
        rect_bottom(r) <= bound_fold(entries).height,
    ensures
        bound_fold(entries.push((name, r))) == bound_fold(entries),
{
    assert(entries.push((name, r)).drop_last() =~= entries);
    assert(entries.push((name, r)).last() == (name, r));
}

proof fn lemma_insert_by_area_at(s: Seq<(Seq<char>, Size)>, x: (Seq<char>, Size), p: int)
    requires
        0 <= p <= s.len(),
        forall|m: int| 0 <= m < p ==> item_area(#[trigger] s[m]) >= item_area(x),
        p < s.len() ==> item_area(s[p]) < item_area(x),
    ensures
        insert_by_area_spec(s, x) == s.take(p) + seq![x] + s.skip(p),
    decreases s.len(),
{
    if p == 0 {
        assert(insert_by_area_spec(s, x) =~= s.take(0) + seq![x] + s.skip(0));
    } else {
        assert(item_area(s[0]) >= item_area(x));
        lemma_insert_by_area_at(s.drop_first(), x, p - 1);
        assert(seq![s.first()] + (s.drop_first().take(p - 1) + seq![x] + s.drop_first().skip(p - 1))
            =~= s.take(p) + seq![x] + s.skip(p));
    }
}

/// Insert one request into a list kept sorted by descending area, behind
/// every request of at least its area.
fn insert_by_area(list: &mut Vec<(String, Size)>, item: (String, Size))
    ensures
        items_view(final(list)@) == insert_by_area_spec(
            items_view(old(list)@),
            (item.0@, item.1),
        ),
{
    let ghost x = (item.0@, item.1);
    let ghost view0 = items_view(old(list)@);
    let a = item.1.area();
    let n = list.len();
    let mut p: usize = 0;
    while p < n && a <= list[p].1.area()
        invariant
            p <= n,
            n == list.len(),
            *list == *old(list),
            view0 == items_view(list@),
            view0.len() == n,
            a == item_area(x),
            forall|m: int| 0 <= m < p ==> item_area(#[trigger] view0[m]) >= item_area(x),
        decreases n - p,
    {
        proof {
            assert(item_area(view0[p as int]) == spec_area(list@[p as int].1));
        }
        p += 1;
    }
    proof {
        lemma_insert_by_area_at(view0, x, p as int);
    }
    list.insert(p, item);
    proof {
        assert(items_view(list@) =~= view0.take(p as int) + seq![x] + view0.skip(p as int));
    }
}

/// Sort the requests by area, largest first; requests of equal area keep
/// their relative input order.
fn sort_by_area(images: Vec<(String, Size)>) -> (r: Vec<(String, Size)>)
    ensures
        items_view(r@) == sort_by_area_spec(items_view(images@)),
{
    let ghost orig = items_view(images@);
    let mut input = images;
    let mut out: Vec<(String, Size)> = Vec::new();
    proof {
        assert(items_view(out@) =~= sort_by_area_spec(orig.take(0)));
        assert(items_view(input@) =~= orig.skip(0));
    }
    while input.len() > 0
        invariant
            input@.len() <= orig.len(),
            items_view(out@) == sort_by_area_spec(orig.take(orig.len() - input@.len())),
            items_view(input@) == orig.skip(orig.len() - input@.len()),
        decreases input@.len(),
    {
        let ghost done = orig.len() - input@.len();
        let ghost input_before = input@;
        let item = input.remove(0);
        proof {
            assert(items_view(input_before)[0] == orig[done]);
        }
        insert_by_area(&mut out, item);
        proof {
            assert((item.0@, item.1) == orig[done]);
            assert(orig.take(done + 1).drop_last() =~= orig.take(done));
            assert(orig.take(done + 1).last() == orig[done]);
            assert(items_view(out@) == sort_by_area_spec(orig.take(done + 1)));
            assert forall|i: int| 0 <= i < input@.len() implies items_view(input@)[i] == orig.skip(
                done + 1,
            )[i] by {
                assert(input@[i] == input_before[i + 1]);
                assert(items_view(input_before)[i + 1] == orig.skip(done)[i + 1]);
            }
            assert(items_view(input@) =~= orig.skip(done + 1));
        }
    }
    proof {
        assert(orig.take(orig.len() as int) =~= orig);
    }
    out
}

/// A placement step taken on a well-formed state succeeds exactly when some
/// free rectangle admits the size, and leaves the state well-formed.
proof fn lemma_add_rect_spec_wf(
    spaces: Seq<Rect>,
    entries: Seq<Entry>,
    name: Seq<char>,
    size: Size,
)
    requires
        state_wf(spaces, entries),
        0 <= find_space_idx(spaces, size) < spaces.len(),
        spec_fits(size, spaces[find_space_idx(spaces, size)].size),
    ensures
        add_rect_spec(spaces, entries, name, size) is Some,
        state_wf(
            add_rect_spec(spaces, entries, name, size)->Some_0.0,
            add_rect_spec(spaces, entries, name, size)->Some_0.1,
        ),
{
    let j = find_space_idx(spaces, size);
    let space = spaces[j];
    let placed = placed_rect(space, size);
    let shrunk = shrunk_space(space, size);
    lemma_split_pieces(space, size);
    lemma_contained_extent(placed, space);
    lemma_contained_extent(shrunk, space);

    // The split pieces stay clear of every other free rectangle ...
    assert forall|m: int| 0 <= m < spaces.len() && m != j implies {
        &&& disjoint(placed, #[trigger] spaces[m])
        &&& disjoint(spaces[m], placed)
        &&& disjoint(shrunk, spaces[m])
        &&& disjoint(spaces[m], shrunk)
    } by {
        lemma_contained_disjoint(placed, space, spaces[m]);
        lemma_contained_disjoint(shrunk, space, spaces[m]);
    }

    // ... and of every placement made so far.
    assert forall|m: int| 0 <= m < entries.len() implies {
        &&& disjoint(placed, (#[trigger] entries[m]).1)
        &&& disjoint(entries[m].1, placed)
        &&& disjoint(shrunk, entries[m].1)
        &&& disjoint(entries[m].1, shrunk)
    } by {
        assert(disjoint(space, entries[m].1));
        lemma_contained_disjoint(placed, space, entries[m].1);
        lemma_contained_disjoint(shrunk, space, entries[m].1);
    }

    let updated = spaces.update(j, shrunk);
    let spaces2 = match split_leftover(space, size) {
        Some(l) => updated.push(l),
        None => updated,
    };
    if split_leftover(space, size) is Some {
        let l = split_leftover(space, size)->Some_0;
        lemma_contained_extent(l, space);
        assert forall|m: int| 0 <= m < spaces.len() && m != j implies {
            &&& disjoint(l, #[trigger] spaces[m])
            &&& disjoint(spaces[m], l)
        } by {
            lemma_contained_disjoint(l, space, spaces[m]);
        }
        assert forall|m: int| 0 <= m < entries.len() implies {
            &&& disjoint(l, (#[trigger] entries[m]).1)
            &&& disjoint(entries[m].1, l)
        } by {
            assert(disjoint(space, entries[m].1));
            lemma_contained_disjoint(l, space, entries[m].1);
        }
    }

    let entries2 = put_entry(entries, name, placed);
    lemma_key_index_props(entries, name);
    let ki = key_index(entries, name);
    if ki == -1 {
        assert(entries2 == entries.push((name, placed)));
        assert(entries_wf(entries2));
    } else {
        assert(entries2 == entries.update(ki, (name, placed)));
        assert(entries2[ki].0 == entries[ki].0);
        assert(entries_wf(entries2));
    }

    assert(state_wf(spaces2, entries2));
}

impl AtlasBuilder {
    /// The free rectangles still available, most recently added last.
    pub closed spec fn spaces(self) -> Seq<Rect> {
        self.empty_spaces@
    }

    /// The placements recorded so far, in insertion order.
    pub closed spec fn placements(self) -> Seq<Entry> {
        entries_view(self.textures@)
    }

    /// The placement list exactly as stored, identifiers included.
    pub closed spec fn textures_list(self) -> Vec<(String, Rect)> {
        self.textures
    }

    /// Internal invariant: every tracked rectangle has representable
    /// extents, free rectangles do not overlap each other, placements are
    /// key-unique and do not overlap each other, and no free rectangle
    /// overlaps a placement.
    pub open spec fn wf(self) -> bool {
        state_wf(self.spaces(), self.placements())
    }

    /// Scan the free rectangles in reverse insertion order and report the
    /// first (hence highest-indexed) one that admits `size`.
    fn find_space(spaces: &Vec<Rect>, size: Size) -> (r: Option<usize>)
        ensures
            match r {
                Some(j) => {
                    &&& find_space_idx(spaces@, size) == j as int
                    &&& j < spaces@.len()
                    &&& spec_fits(size, spaces@[j as int].size)
                },
                None => find_space_idx(spaces@, size) == -1,
            },
    {
        let mut i: usize = spaces.len();
        while i > 0
            invariant
                i <= spaces@.len(),
                forall|k: int|
                    i <= k < spaces@.len() ==> !spec_fits(size, (#[trigger] spaces@[k]).size),
            decreases i,
        {
            let j = i - 1;
            let sp = spaces[j];
            if size.fit_in(sp.size) {
                proof {
                    lemma_find_space_idx_at(spaces@, size, j as int);
                }
                return Some(j);
            }
            i = j;
        }
        proof {
            lemma_find_space_idx_none(spaces@, size);
        }
        None
    }

    /// Record `name -> rect` in the placement map, silently overwriting an
    /// entry already present under `name` (last write wins).
    fn put_texture(&mut self, name: String, rect: Rect)
        ensures
            final(self).placements() == put_entry(old(self).placements(), name@, rect),
            final(self).spaces() == old(self).spaces(),
    {
        let ghost entries0 = old(self).placements();
        let n = self.textures.len();
        let mut k: usize = 0;
        while k < n
            invariant
                k <= n,
                *self == *old(self),
                n == self.textures.len(),
                entries0 == self.placements(),
                entries0.len() == n,
                forall|m: int| 0 <= m < k ==> (#[trigger] entries0[m]).0 != name@,
            decreases n - k,
        {
            let hit = {
                let e = &self.textures[k];
                e.0 == name
            };
            if hit {
                proof {
                    lemma_key_index_at(entries0, name@, k as int);
                }
                self.textures[k] = (name, rect);
                proof {
                    assert(self.placements() =~= entries0.update(k as int, (name@, rect)));
                }
                return;
            }
            k += 1;
        }
        proof {
            lemma_key_index_none(entries0, name@);
        }
        self.textures.push((name, rect));
        proof {
            assert(self.placements() =~= entries0.push((name@, rect)));
        }
    }

    /// Place a single image of `size` under `name`.
    ///
    /// Free rectangles are tried most-recently-appended first; the first
    /// that admits `size` is split, the placement is recorded under `name`
    /// (overwriting a placement already recorded under that name), and the
    /// leftover strip, when the split produces one, is appended to the free
    /// list. When no free rectangle admits `size`, the packer is left
    /// untouched and `None` is returned.
    pub fn add_rect(&mut self, name: String, size: Size) -> (r: Option<()>)
        requires
            old(self).wf(),
        ensures
            final(self).wf(),
            r is Some <==> find_space_idx(old(self).spaces(), size) >= 0,
            r is Some <==> exists|i: int|
                0 <= i < old(self).spaces().len() && spec_fits(
                    size,
                    (#[trigger] old(self).spaces()[i]).size,
                ),
            r is None ==> *final(self) == *old(self),
            r is Some ==> add_rect_spec(old(self).spaces(), old(self).placements(), name@, size)
                == Some((final(self).spaces(), final(self).placements())),
    {
        let ghost spaces0 = old(self).spaces();
        let ghost entries0 = old(self).placements();
        proof {
            lemma_find_space_exists(spaces0, size);
        }
        let found = Self::find_space(&self.empty_spaces, size);
        match found {
            None => None,
            Some(j) => {
                proof {
                    assert(extent_ok(spaces0[j as int]));
                }
                let mut sp = self.empty_spaces[j];
                let ghost space0 = sp;
                let res = sp.insert(size);
                if let Some((placed, leftover)) = res {
                    self.empty_spaces[j] = sp;
                    if let Some(l) = leftover {
                        self.empty_spaces.push(l);
                    }
                    self.put_texture(name, placed);
                    proof {
                        lemma_add_rect_spec_wf(spaces0, entries0, name@, size);
                        assert(add_rect_spec(spaces0, entries0, name@, size)
                            == Some((self.spaces(), self.placements())));
                    }
                    return Some(());
                }
                proof {
                    assert(false);
                }
                None
            },
        }
    }

    /// Pack a whole collection of requests, largest area first.
    ///
    /// The requests are stably sorted by descending area and then placed one
    /// at a time. The first request no free rectangle admits stops the run:
    /// `None` comes back, no later request is attempted, and the packer
    /// keeps what the successful prefix placed. `Some(())` means every
    /// request was placed.
    pub fn build(&mut self, images: Vec<(String, Size)>) -> (r: Option<()>)
        requires
            old(self).wf(),
        ensures
            final(self).wf(),
            ({
                let outcome = pack_seq(
                    old(self).spaces(),
                    old(self).placements(),
                    sort_by_area_spec(items_view(images@)),
                );
                &&& (r is Some <==> outcome.2)
                &&& final(self).spaces() == outcome.0
                &&& final(self).placements() == outcome.1
            }),
    {
        let ghost spaces_init = self.spaces();
        let ghost entries_init = self.placements();
        let mut data = sort_by_area(images);
        let ghost sorted = items_view(data@);
        let mut failed = false;
        while !failed && data.len() > 0
            invariant
                self.wf(),
                !failed ==> pack_seq(spaces_init, entries_init, sorted)
                    == pack_seq(self.spaces(), self.placements(), items_view(data@)),
                failed ==> pack_seq(spaces_init, entries_init, sorted)
                    == (self.spaces(), self.placements(), false),
            decreases data@.len(),
        {
            let ghost spaces_cur = self.spaces();
            let ghost entries_cur = self.placements();
            let ghost data_before = data@;
            let (name, size) = data.remove(0);
            let ghost name_view = name@;
            let placed = self.add_rect(name, size);
            proof {
                assert(items_view(data_before).first() == (name_view, size));
                assert forall|i: int| 0 <= i < data@.len() implies items_view(data@)[i]
                    == items_view(data_before).drop_first()[i] by {
                    assert(data@[i] == data_before[i + 1]);
                }
                assert(items_view(data@) =~= items_view(data_before).drop_first());
            }
            if placed.is_none() {
                failed = true;
                proof {
                    lemma_find_space_idx_range(spaces_cur, size);
                    assert(add_rect_spec(spaces_cur, entries_cur, name_view, size) is None);
                    assert(pack_seq(spaces_cur, entries_cur, items_view(data_before))
                        == (spaces_cur, entries_cur, false));
                }
            } else {
                proof {
                    assert(add_rect_spec(spaces_cur, entries_cur, name_view, size)
                        == Some((self.spaces(), self.placements())));
                    assert(pack_seq(spaces_cur, entries_cur, items_view(data_before))
                        == pack_seq(self.spaces(), self.placements(), items_view(data@)));
                }
            }
        }
        if failed {
            return None;
        }
        proof {
            assert(items_view(data@) =~= Seq::<(Seq<char>, Size)>::empty());
            assert(pack_seq(self.spaces(), self.placements(), items_view(data@))
                == (self.spaces(), self.placements(), true));
        }
        Some(())
    }

    /// The tightest bounding size of everything placed so far: the fold of
    /// `Size::max` over the bottom-right extents of the placed rectangles,
    /// starting from zero. Zero when nothing has been placed.
    pub fn min_bounding_rect(&self) -> (r: Size)
        requires
            self.wf(),
        ensures
            r == bound_fold(self.placements()),
    {
        let mut acc = Size::zero();
        let n = self.textures.len();
        let mut i: usize = 0;
        proof {
            assert(self.placements().take(0) =~= Seq::<Entry>::empty());
        }
        while i < n
            invariant
                i <= n,
                n == self.textures.len(),
                self.wf(),
                acc == bound_fold(self.placements().take(i as int)),
            decreases n - i,
        {
            proof {
                assert(extent_ok((#[trigger] self.placements()[i as int]).1));
            }
            let corner = {
                let e = &self.textures[i];
                e.1.bound_size()
            };
            acc = acc.max(corner);
            proof {
                assert(self.placements().take(i + 1).drop_last() =~= self.placements().take(
                    i as int,
                ));
                assert(self.placements().take(i + 1).last() == self.placements()[i as int]);
            }
            i += 1;
        }
        proof {
            assert(self.placements().take(n as int) =~= self.placements());
        }
        acc
    }

    /// Finish packing: consume the packer and return the atlas, whose size
    /// is the tight bounding size of every placement.
    pub fn get_map(self) -> (r: Atlas)
        requires
            self.wf(),
        ensures
            entries_view(r.textures@) == self.placements(),
            r.size == bound_fold(self.placements()),
            r.wf(),
            r.textures == self.textures_list(),
    {
        let size = self.min_bounding_rect();
        let r = Atlas { textures: self.textures, size };
        proof {
            assert(entries_view(r.textures@) =~= self.placements());
            assert forall|i: int| 0 <= i < entries_view(r.textures@).len() implies {
                &&& rect_right((#[trigger] entries_view(r.textures@)[i]).1) <= r.size.width
                &&& rect_bottom(entries_view(r.textures@)[i].1) <= r.size.height
            } by {
                lemma_bound_fold_contains(entries_view(r.textures@), i);
            }
        }
        r
    }

    /// A fresh packer whose free space is the single rectangle covering the
    /// whole canvas, with nothing placed yet.
    pub fn new(width: u32, height: u32) -> (r: Self)
        ensures
            r.wf(),
            r.spaces() == seq![Rect { left: 0, top: 0, size: Size { width, height } }],
            r.placements() == Seq::<Entry>::empty(),
    {
        let r = Self {
            empty_spaces: vec![Rect { left: 0, top: 0, size: Size { width, height } }],
            textures: Vec::new(),
        };
        proof {
            assert(r.placements() =~= Seq::<Entry>::empty());
            assert(r.spaces() =~= seq![Rect { left: 0, top: 0, size: Size { width, height } }]);
        }
        r
    }
}

} // verus!
