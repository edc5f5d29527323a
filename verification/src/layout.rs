use vstd::prelude::*;
use crate::layout_section::{views_of, LayoutSection, SectionType, SectionView};

verus! {

/// Whether no region of `s` starts before one that stands earlier in it.
pub open spec fn sorted_by_start(s: Seq<SectionView>) -> bool {
    forall|i: int, j: int| 0 <= i <= j < s.len() ==> s[i].start <= s[j].start
}

/// Whether two regions have no byte in common.
pub open spec fn apart(a: SectionView, b: SectionView) -> bool {
    a.length == 0 || b.length == 0 || a.limit() <= b.start || b.limit() <= a.start
}

/// Whether two regions have no byte in common.
pub fn sections_apart(a: &LayoutSection, b: &LayoutSection) -> (r: bool)
    ensures
        r == apart(a@, b@),
{
    a.length == 0 || b.length == 0 || a.start as u128 + a.length as u128 <= b.start as u128
        || b.start as u128 + b.length as u128 <= a.start as u128
}

/// Whether no two regions of `s` have a byte in common.
pub open spec fn pairwise_disjoint(s: Seq<SectionView>) -> bool {
    forall|i: int, j: int| 0 <= i < j < s.len() ==> apart(#[trigger] s[i], #[trigger] s[j])
}

/// 1 for the region of a file, 0 for any other.
pub open spec fn file_weight(x: SectionView) -> int {
    if x.kind == SectionType::File {
        1
    } else {
        0
    }
}

/// How many regions of `s` are files.
pub open spec fn files_in(s: Seq<SectionView>) -> int
    decreases s.len(),
{
    if s.len() == 0 {
        0
    } else {
        files_in(s.drop_last()) + file_weight(s.last())
    }
}

/// A region behind others adds itself to the count of files, where it is
/// one.
pub proof fn lemma_files_in_push(s: Seq<SectionView>, x: SectionView)
    ensures
        files_in(s.push(x)) == files_in(s) + file_weight(x),
        files_in(Seq::<SectionView>::empty()) == 0,
{
    assert(s.push(x).drop_last() =~= s);
}

/// Putting a region among others adds it to the count of files, where it
/// is one.
pub proof fn lemma_files_in_insert(s: Seq<SectionView>, k: int, x: SectionView)
    requires
        0 <= k <= s.len(),
    ensures
        files_in(s.insert(k, x)) == files_in(s) + file_weight(x),
    decreases s.len(),
{
    let t = s.insert(k, x);
    if k == s.len() {
        assert(t.drop_last() =~= s);
    } else {
        assert(t.drop_last() =~= s.drop_last().insert(k, x));
        lemma_files_in_insert(s.drop_last(), k, x);
    }
}

/// Two runs of regions one behind the other hold the files of both.
pub proof fn lemma_files_in_concat(a: Seq<SectionView>, b: Seq<SectionView>)
    ensures
        files_in(a + b) == files_in(a) + files_in(b),
    decreases b.len(),
{
    if b.len() == 0 {
        assert(a + b =~= a);
    } else {
        assert((a + b).drop_last() =~= a + b.drop_last());
        lemma_files_in_concat(a, b.drop_last());
    }
}

/// Whether `x` has no byte in common with any region of `s`.
pub open spec fn apart_from_all(s: Seq<SectionView>, x: SectionView) -> bool {
    forall|i: int| 0 <= i < s.len() ==> apart(#[trigger] s[i], x)
}

/// Regions that share no byte still share none when one more, which
/// shares none with any of them, is put among them.
pub proof fn lemma_insert_keeps_apart(s: Seq<SectionView>, k: int, x: SectionView)
    requires
        pairwise_disjoint(s),
        apart_from_all(s, x),
        0 <= k <= s.len(),
    ensures
        pairwise_disjoint(s.insert(k, x)),
{
    let t = s.insert(k, x);
    assert forall|a: int, b: int| 0 <= a < b < t.len() implies apart(
        #[trigger] t[a],
        #[trigger] t[b],
    ) by {
        if a == k {
            assert(t[b] == s[b - 1]);
            assert(apart(s[b - 1], x));
        } else if b == k {
            assert(t[a] == s[a]);
            assert(apart(s[a], x));
        } else {
            let a0 = if a < k {
                a
            } else {
                a - 1
            };
            let b0 = if b < k {
                b
            } else {
                b - 1
            };
            assert(t[a] == s[a0]);
            assert(t[b] == s[b0]);
            assert(apart(s[a0], s[b0]));
        }
    }
}

/// A region that shares no byte with any of `s`, nor with `x`, shares none
/// with any of `s` once `x` is put among them.
pub proof fn lemma_insert_apart_from_all(
    s: Seq<SectionView>,
    k: int,
    x: SectionView,
    y: SectionView,
)
    requires
        apart_from_all(s, y),
        apart(x, y),
        0 <= k <= s.len(),
    ensures
        apart_from_all(s.insert(k, x), y),
{
    let t = s.insert(k, x);
    assert forall|i: int| 0 <= i < t.len() implies apart(#[trigger] t[i], y) by {
        if i < k {
            assert(t[i] == s[i]);
        } else if i > k {
            assert(t[i] == s[i - 1]);
        }
    }
}

/// The index of the first region from `k` on that covers `offset`; the
/// length of `s` when there is none.
pub open spec fn first_cover(s: Seq<SectionView>, offset: u64, k: int) -> int
    decreases s.len() - k,
{
    if k < 0 || k >= s.len() {
        s.len() as int
    } else if s[k].covers(offset) {
        k
    } else {
        first_cover(s, offset, k + 1)
    }
}

/// The first region of `s` that covers `offset`, if one does.
pub open spec fn lookup(s: Seq<SectionView>, offset: u64) -> Option<SectionView> {
    let i = first_cover(s, offset, 0);
    if i < s.len() {
        Some(s[i])
    } else {
        None
    }
}

/// How many regions of `s` start at `start` or before it.
pub open spec fn rank(s: Seq<SectionView>, start: u64) -> int
    decreases s.len(),
{
    if s.len() == 0 {
        0
    } else {
        rank(s.drop_last(), start) + if s.last().start <= start { 1int } else { 0int }
    }
}

/// From `k` on, `first_cover` names a region that covers the offset and that
/// no covering region precedes, or else no region from `k` on covers it.
pub proof fn lemma_first_cover(s: Seq<SectionView>, offset: u64, k: int)
    requires
        0 <= k <= s.len(),
    ensures
        k <= first_cover(s, offset, k) <= s.len(),
        first_cover(s, offset, k) < s.len() ==> s[first_cover(s, offset, k)].covers(offset),
        forall|j: int| k <= j < first_cover(s, offset, k) ==> !s[j].covers(offset),
    decreases s.len() - k,
{
    if k < s.len() && !s[k].covers(offset) {
        lemma_first_cover(s, offset, k + 1);
    }
}

/// In a layout in order, nothing covers an offset from the first region on
/// that starts behind it.
pub proof fn lemma_none_behind(s: Seq<SectionView>, offset: u64, k: int)
    requires
        sorted_by_start(s),
        0 <= k < s.len(),
        s[k].start > offset,
    ensures
        first_cover(s, offset, k) == s.len(),
    decreases s.len() - k,
{
    if k + 1 < s.len() {
        assert(s[k].start <= s[k + 1].start);
        lemma_none_behind(s, offset, k + 1);
    } else {
        assert(first_cover(s, offset, k + 1) == s.len());
    }
}

/// Lookup finds the region that covers an offset: where no two regions of a
/// layout share a byte and region `i` covers `offset`, looking `offset` up
/// gives region `i`.
pub proof fn lemma_lookup_covered(s: Seq<SectionView>, offset: u64, i: int)
    requires
        pairwise_disjoint(s),
        0 <= i < s.len(),
        s[i].covers(offset),
    ensures
        lookup(s, offset) == Some(s[i]),
{
    lemma_first_cover(s, offset, 0);
    let f = first_cover(s, offset, 0);
    if f < i {
        assert(apart(s[f], s[i]));
    }
}

/// Lookup finds nothing in a gap: where no region of a layout covers
/// `offset`, before the first region, between two or behind the last,
/// looking `offset` up gives nothing.
pub proof fn lemma_lookup_gap(s: Seq<SectionView>, offset: u64)
    requires
        forall|i: int| 0 <= i < s.len() ==> !s[i].covers(offset),
    ensures
        lookup(s, offset).is_none(),
{
    lemma_first_cover(s, offset, 0);
}

/// The regions of an image, in the order of their start offsets.
pub struct ROMLayout {
    sections: Vec<LayoutSection>,
}

impl ROMLayout {
    /// The regions, first to last.
    pub closed spec fn view(&self) -> Seq<SectionView> {
        views_of(self.sections@)
    }

    /// What every layout keeps: its regions stand in the order of their
    /// start offsets.
    pub open spec fn wf(&self) -> bool {
        sorted_by_start(self@)
    }

    /// A layout without regions.
    pub fn new() -> (r: ROMLayout)
        ensures
            r.wf(),
            r@.len() == 0,
    {
        ROMLayout { sections: Vec::new() }
    }

    /// Puts `section` behind the regions that start where it starts or
    /// before, and before those that start later.
    pub fn insert(&mut self, section: LayoutSection)
        requires
            old(self).wf(),
        ensures
            final(self).wf(),
            final(self)@ == old(self)@.insert(rank(old(self)@, section.start), section@),
            0 <= rank(old(self)@, section.start) <= old(self)@.len(),
            final(self)@.to_multiset() == old(self)@.to_multiset().insert(section@),
    {
        let ghost before = self@;
        let ghost item = section@;
        let n: usize = self.sections.len();
        let mut k: usize = n;
        proof {
            lemma_rank_bounds(before, section.start);
        }
        while k > 0 && self.sections[k - 1].start > section.start
            invariant
                self@ == before,
                n == before.len(),
                n == self.sections@.len(),
                0 <= k <= n,
                sorted_by_start(before),
                forall|j: int| k <= j < n ==> before[j].start > section.start,
            decreases k,
        {
            k = k - 1;
        }
        proof {
            lemma_rank_split(before, section.start, k as int);
            let after = before.insert(k as int, item);
            assert(after.remove(k as int) =~= before);
            after.to_multiset_ensures();
            assert(after.to_multiset().count(item) > 0) by {
                assert(after[k as int] == item);
                assert(after.contains(item));
            }
            assert(after.to_multiset() =~= before.to_multiset().insert(item));
        }
        self.sections.insert(k, section);
        assert(self@ =~= before.insert(k as int, item));
    }

    /// The layout of `sections`, whatever order they come in.
    pub fn from_sections(sections: Vec<LayoutSection>) -> (r: ROMLayout)
        ensures
            r.wf(),
            r@.to_multiset() == views_of(sections@).to_multiset(),
            pairwise_disjoint(views_of(sections@)) ==> pairwise_disjoint(r@),
            files_in(r@) == files_in(views_of(sections@)),
    {
        let mut layout = ROMLayout::new();
        let mut rest = sections;
        let ghost all = views_of(rest@);
        let ghost mut taken: Seq<SectionView> = Seq::empty();
        assert(layout@.to_multiset() =~= taken.to_multiset()) by {
            assert(layout@ =~= taken);
        }
        while rest.len() > 0
            invariant
                layout.wf(),
                views_of(rest@) + taken == all,
                layout@.to_multiset() == taken.to_multiset(),
                files_in(layout@) == files_in(taken),
                pairwise_disjoint(all) ==> pairwise_disjoint(layout@),
                pairwise_disjoint(all) ==> forall|j: int|
                    0 <= j < rest@.len() ==> apart_from_all(layout@, #[trigger] all[j]),
            decreases rest.len(),
        {
            let ghost prev = views_of(rest@);
            let ghost placed = layout@;
            let s = rest.pop().unwrap();
            proof {
                lemma_rank_bounds(placed, s.start);
                lemma_files_in_insert(placed, rank(placed, s.start), s@);
                lemma_files_in_concat(seq![s@], taken);
                lemma_files_in_push(Seq::empty(), s@);
                assert(seq![s@] =~= Seq::<SectionView>::empty().push(s@));
                let m = rest@.len() as int;
                assert(all[m] == prev[m]);
                assert(s@ == all[m]);
                assert forall|j: int| 0 <= j < m implies all[j] == views_of(rest@)[j] by {
                    assert(all[j] == prev[j]);
                }
                if pairwise_disjoint(all) {
                    assert(apart_from_all(placed, all[m]));
                    let k = rank(placed, s.start);
                    lemma_rank_bounds(placed, s.start);
                    lemma_insert_keeps_apart(placed, k, s@);
                    assert forall|j: int| 0 <= j < m implies apart_from_all(
                        placed.insert(k, s@),
                        #[trigger] all[j],
                    ) by {
                        assert(apart(all[j], all[m]));
                        assert(apart_from_all(placed, all[j]));
                        lemma_insert_apart_from_all(placed, k, s@, all[j]);
                    }
                }
            }
            proof {
                let grown = seq![s@] + taken;
                assert(views_of(rest@) + grown =~= prev + taken);
                assert(grown.drop_first() =~= taken);
                grown.to_multiset_ensures();
                assert(grown.remove(0) =~= taken);
                assert(grown.contains(s@)) by {
                    assert(grown[0] == s@);
                }
                assert(grown.to_multiset() =~= taken.to_multiset().insert(s@));
                taken = grown;
            }
            layout.insert(s);
        }
        assert(taken =~= all);
        layout
    }

    /// The region that holds the byte at `offset`. The regions are tried in
    /// order, and the search ends at the first that starts behind `offset`.
    pub fn find_offset(&self, offset: u64) -> (r: Option<&LayoutSection>)
        requires
            self.wf(),
        ensures
            r.is_some() == lookup(self@, offset).is_some(),
            r.is_some() ==> r.unwrap()@ == lookup(self@, offset).unwrap(),
    {
        let n: usize = self.sections.len();
        let mut i: usize = 0;
        while i < n
            invariant
                n == self.sections@.len(),
                0 <= i <= n,
                sorted_by_start(self@),
                first_cover(self@, offset, 0) == first_cover(self@, offset, i as int),
            decreases n - i,
        {
            let s = &self.sections[i];
            assert(self@[i as int] == s@);
            if s.start() > offset {
                proof {
                    lemma_none_behind(self@, offset, i as int);
                }
                return None;
            }
            if s.contains_offset(offset) {
                return Some(s);
            }
            i = i + 1;
        }
        None
    }

    pub fn len(&self) -> (r: usize)
        ensures
            r == self@.len(),
    {
        self.sections.len()
    }

    /// The region at place `i` of the layout.
    pub fn get(&self, i: usize) -> (r: &LayoutSection)
        requires
            i < self@.len(),
        ensures
            r@ == self@[i as int],
    {
        &self.sections[i]
    }

    /// Whether no two regions of the layout have a byte in common.
    pub fn is_disjoint(&self) -> (r: bool)
        requires
            self.wf(),
        ensures
            r == pairwise_disjoint(self@),
    {
        let n: usize = self.sections.len();
        let mut i: usize = 0;
        let mut reach: u128 = 0;
        let ghost mut far: int = -1;
        while i < n
            invariant
                n == self.sections@.len(),
                0 <= i <= n,
                sorted_by_start(self@),
                pairwise_disjoint(self@.take(i as int)),
                forall|j: int| 0 <= j < i && self@[j].length > 0 ==> self@[j].limit() <= reach,
                -1 <= far < i,
                far == -1 ==> reach == 0,
                far >= 0 ==> self@[far].length > 0 && self@[far].limit() == reach,
            decreases n - i,
        {
            let s = &self.sections[i];
            assert(self@[i as int] == s@);
            if s.length > 0 {
                if (s.start as u128) < reach {
                    proof {
                        assert(self@[far].start <= self@[i as int].start);
                        assert(!apart(self@[far], self@[i as int]));
                    }
                    return false;
                }
                proof {
                    far = i as int;
                }
                reach = s.start as u128 + s.length as u128;
            }
            proof {
                let cur = self@.take(i as int);
                let next = self@.take(i + 1);
                assert forall|a: int, b: int| 0 <= a < b < next.len() implies apart(
                    #[trigger] next[a],
                    #[trigger] next[b],
                ) by {
                    if b < i {
                        assert(apart(cur[a], cur[b]));
                    }
                }
            }
            i = i + 1;
        }
        assert(self@.take(n as int) =~= self@);
        true
    }
}

/// The rank of a start offset counts a whole layout when every region from
/// `k` on starts behind it and none before `k` does.
pub proof fn lemma_rank_split(s: Seq<SectionView>, start: u64, k: int)
    requires
        sorted_by_start(s),
        0 <= k <= s.len(),
        forall|j: int| k <= j < s.len() ==> s[j].start > start,
        k > 0 ==> s[k - 1].start <= start,
    ensures
        rank(s, start) == k,
    decreases s.len(),
{
    if s.len() > 0 {
        let t = s.drop_last();
        if k == s.len() {
            assert(forall|j: int| 0 <= j < t.len() ==> t[j] == s[j]);
            lemma_rank_full(t, start);
        } else {
            lemma_rank_split(t, start, k);
        }
    }
}

/// A rank lies between nothing and the layout's length.
pub proof fn lemma_rank_bounds(s: Seq<SectionView>, start: u64)
    ensures
        0 <= rank(s, start) <= s.len(),
    decreases s.len(),
{
    if s.len() > 0 {
        lemma_rank_bounds(s.drop_last(), start);
    }
}

/// Where every region starts at `start` or before it, the rank is the
/// layout's length.
pub proof fn lemma_rank_full(s: Seq<SectionView>, start: u64)
    requires
        forall|j: int| 0 <= j < s.len() ==> s[j].start <= start,
    ensures
        rank(s, start) == s.len(),
    decreases s.len(),
{
    if s.len() > 0 {
        let t = s.drop_last();
        assert(forall|j: int| 0 <= j < t.len() ==> t[j] == s[j]);
        lemma_rank_full(t, start);
    }
}

} // verus!
