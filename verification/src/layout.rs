//! The assignment of sections to memory regions.
//!
//! A section belongs to the last region (in declaration order) that contains
//! it whole; a section that no region contains belongs to none.
use vstd::prelude::*;

use crate::memory_map::expression::regions_view;
use crate::arith::saturating_add_spec;
use crate::memory_map::{Region, RegionView};
use crate::sections::{sections_view, SectionInfo, SectionView};

verus! {

/// A region together with the sections that belong to it.
pub struct RegionLayout<'a> {
    pub region: &'a Region,
    /// The sections of the region, in the order they were given.
    pub sections: Vec<&'a SectionInfo>,
    /// The sum of the sizes of `sections`, saturating at `u64::MAX`.
    pub used_bytes: u64,
}

/// Whether the region holds the whole section.
pub open spec fn contains_spec(r: RegionView, s: SectionView) -> bool {
    r.start <= s.start() && r.end() >= s.end()
}

/// The index of the last of the first `n` regions that contains `s`.
pub open spec fn owner_upto(rs: Seq<RegionView>, s: SectionView, n: int) -> Option<int>
    decreases n,
{
    if n <= 0 {
        None
    } else if contains_spec(rs[n - 1], s) {
        Some(n - 1)
    } else {
        owner_upto(rs, s, n - 1)
    }
}

/// The index of the region that `s` belongs to: the last one containing it.
pub open spec fn owner(rs: Seq<RegionView>, s: SectionView) -> Option<int> {
    owner_upto(rs, s, rs.len() as int)
}

/// The sections of `ss` that belong to region `k`, in order.
pub open spec fn assigned(ss: Seq<SectionView>, rs: Seq<RegionView>, k: int) -> Seq<SectionView>
    decreases ss.len(),
{
    if ss.len() == 0 {
        Seq::empty()
    } else if owner(rs, ss.last()) == Some(k) {
        assigned(ss.drop_last(), rs, k).push(ss.last())
    } else {
        assigned(ss.drop_last(), rs, k)
    }
}

/// The sum of the sizes of `ss`, saturating at `u64::MAX`.
pub open spec fn saturating_total(ss: Seq<SectionView>) -> u64
    decreases ss.len(),
{
    if ss.len() == 0 {
        0
    } else {
        saturating_add_spec(saturating_total(ss.drop_last()), ss.last().size)
    }
}

/// The saturating sum of the sizes of the sections of `ss` that belong to
/// region `k`.
pub open spec fn used(ss: Seq<SectionView>, rs: Seq<RegionView>, k: int) -> u64 {
    saturating_total(assigned(ss, rs, k))
}

/// The views of the sections of a layout.
pub open spec fn layout_sections(l: RegionLayout) -> Seq<SectionView> {
    l.sections@.map_values(|s: &SectionInfo| s@)
}

/// The abstract value of a region layout.
pub struct LayoutView {
    pub region: RegionView,
    pub sections: Seq<SectionView>,
    pub used_bytes: u64,
}

pub open spec fn layout_view(l: RegionLayout) -> LayoutView {
    LayoutView { region: l.region@, sections: layout_sections(l), used_bytes: l.used_bytes }
}

pub open spec fn layouts_view(ls: Seq<RegionLayout>) -> Seq<LayoutView> {
    ls.map_values(|l: RegionLayout| layout_view(l))
}

/// What the layout of region `k` holds, given all sections and regions.
pub open spec fn is_layout_of(
    l: RegionLayout,
    ss: Seq<SectionView>,
    rs: Seq<RegionView>,
    k: int,
) -> bool {
    &&& l.region@ == rs[k]
    &&& layout_sections(l) == assigned(ss, rs, k)
    &&& l.used_bytes == used(ss, rs, k)
}

/// Whether `region` holds the whole `section`.
pub fn contains(region: &Region, section: &SectionInfo) -> (b: bool)
    ensures
        b == contains_spec(region@, section@),
{
    region.start <= section.starts_at() && region.ends_at() >= section.ends_at()
}

/// The index of the last region that contains `section`.
fn owner_of(regions: &[Region], section: &SectionInfo) -> (k: Option<usize>)
    ensures
        match k {
            Some(k) => owner(regions_view(regions@), section@) == Some(k as int) && k
                < regions@.len(),
            None => owner(regions_view(regions@), section@) is None,
        },
{
    let ghost rs = regions_view(regions@);
    let mut n = regions.len();
    while n > 0
        invariant
            n <= regions@.len(),
            rs == regions_view(regions@),
            owner(rs, section@) == owner_upto(rs, section@, n as int),
        decreases n,
    {
        if contains(&regions[n - 1], section) {
            return Some(n - 1);
        }
        n = n - 1;
    }
    None
}

/// Assigns each section to the last region that contains it whole.
///
/// There is one layout per region, in the order of `regions`, regions with no
/// section included; a layout lists its sections in the order of `sections`
/// and their total size (saturating). Sections that no region contains are
/// left out.
pub fn map_sections_to_regions<'a>(
    sections: &'a [SectionInfo],
    regions: &'a [Region],
) -> (layouts: Vec<RegionLayout<'a>>)
    ensures
        layouts@.len() == regions@.len(),
        forall|k: int|
            0 <= k < regions@.len() ==> is_layout_of(
                #[trigger] layouts@[k],
                sections_view(sections@),
                regions_view(regions@),
                k,
            ),
{
    let ghost ss = sections_view(sections@);
    let ghost rs = regions_view(regions@);
    let mut layouts: Vec<RegionLayout<'a>> = Vec::new();
    let mut k: usize = 0;
    while k < regions.len()
        invariant
            k <= regions@.len(),
            layouts@.len() == k,
            rs == regions_view(regions@),
            forall|j: int|
                0 <= j < k ==> is_layout_of(#[trigger] layouts@[j], ss.take(0), rs, j),
        decreases regions@.len() - k,
    {
        let layout = RegionLayout { region: &regions[k], sections: Vec::new(), used_bytes: 0 };
        proof {
            assert(layout_sections(layout) =~= Seq::<SectionView>::empty());
        }
        layouts.push(layout);
        k = k + 1;
    }
    let mut i: usize = 0;
    while i < sections.len()
        invariant
            i <= sections@.len(),
            layouts@.len() == regions@.len(),
            ss == sections_view(sections@),
            rs == regions_view(regions@),
            forall|j: int|
                0 <= j < regions@.len() ==> is_layout_of(
                    #[trigger] layouts@[j],
                    ss.take(i as int),
                    rs,
                    j,
                ),
        decreases sections@.len() - i,
    {
        let section = &sections[i];
        proof {
            assert(ss.take(i + 1).drop_last() =~= ss.take(i as int));
            assert(ss.take(i + 1).last() == section@);
        }
        match owner_of(regions, section) {
            Some(k) => {
                let ghost before = layouts@;
                let used_bytes = layouts[k].used_bytes.saturating_add(section.size);
                layouts[k].used_bytes = used_bytes;
                layouts[k].sections.push(section);
                proof {
                    let a = assigned(ss.take(i as int), rs, k as int);
                    assert(a.push(section@).drop_last() =~= a);
                    assert(layout_sections(layouts@[k as int]) =~= layout_sections(
                        before[k as int],
                    ).push(section@));
                    assert forall|j: int| 0 <= j < regions@.len() implies is_layout_of(
                        #[trigger] layouts@[j],
                        ss.take(i + 1),
                        rs,
                        j,
                    ) by {
                        if j != k {
                            assert(layouts@[j] == before[j]);
                        }
                    }
                }
            },
            None => {},
        }
        i = i + 1;
    }
    proof {
        assert(ss.take(sections@.len() as int) =~= ss);
    }
    layouts
}


/// Whether the sums that the search for the region of `s` computes fit in a
/// `u64`. The search looks at the first `n` regions from the last one down and
/// stops at the first that contains `s`; for each region it looks at whose
/// start is at most the section's address it adds `start + length` and
/// `address + size`.
pub open spec fn region_search_fits(rs: Seq<RegionView>, s: SectionView, n: int) -> bool
    decreases n,
{
    if n <= 0 {
        true
    } else {
        let r = rs[n - 1];
        &&& r.start <= s.address ==> r.start + r.length <= u64::MAX && s.address + s.size
            <= u64::MAX
        &&& contains_spec(r, s) || region_search_fits(rs, s, n - 1)
    }
}

/// Whether the region search of every section computes only sums that fit.
pub open spec fn region_searches_fit(ss: Seq<SectionView>, rs: Seq<RegionView>) -> bool {
    forall|i: int| 0 <= i < ss.len() ==> region_search_fits(rs, #[trigger] ss[i], rs.len() as int)
}

/// Each section that some region contains, paired with the last such region,
/// in the order of the sections.
pub open spec fn section_region_pairs(ss: Seq<SectionView>, rs: Seq<RegionView>) -> Seq<
    (SectionView, RegionView),
>
    decreases ss.len(),
{
    if ss.len() == 0 {
        Seq::empty()
    } else {
        match owner(rs, ss.last()) {
            Some(k) => section_region_pairs(ss.drop_last(), rs).push((ss.last(), rs[k])),
            None => section_region_pairs(ss.drop_last(), rs),
        }
    }
}

/// Pairs each section with the last region that contains it whole; sections
/// that no region contains are left out. The ends that the search compares
/// are computed without saturation, so each of them must fit in a `u64`.
pub fn map_regions<'a>(sections: &'a [SectionInfo], map: &'a [Region]) -> (pairs: Vec<
    (&'a SectionInfo, &'a Region),
>)
    requires
        region_searches_fit(sections_view(sections@), regions_view(map@)),
    ensures
        pairs@.map_values(|p: (&SectionInfo, &Region)| (p.0@, p.1@)) == section_region_pairs(
            sections_view(sections@),
            regions_view(map@),
        ),
{
    let ghost ss = sections_view(sections@);
    let ghost rs = regions_view(map@);
    let mut pairs: Vec<(&'a SectionInfo, &'a Region)> = Vec::new();
    let mut i: usize = 0;
    proof {
        assert(pairs@.map_values(|p: (&SectionInfo, &Region)| (p.0@, p.1@)) =~= Seq::<
            (SectionView, RegionView),
        >::empty());
    }
    while i < sections.len()
        invariant
            i <= sections@.len(),
            ss == sections_view(sections@),
            rs == regions_view(map@),
            region_searches_fit(ss, rs),
            pairs@.map_values(|p: (&SectionInfo, &Region)| (p.0@, p.1@)) == section_region_pairs(
                ss.take(i as int),
                rs,
            ),
        decreases sections@.len() - i,
    {
        let section = &sections[i];
        proof {
            assert(ss.take(i + 1).drop_last() =~= ss.take(i as int));
            assert(ss[i as int] == section@);
            assert(region_search_fits(rs, ss[i as int], rs.len() as int));
        }
        let mut n = map.len();
        while n > 0 && !(map[n - 1].start <= section.address && map[n - 1].start + map[n - 1].length
            >= section.address + section.size)
            invariant
                n <= map@.len(),
                rs == regions_view(map@),
                ss[i as int] == section@,
                0 <= i < ss.len(),
                region_search_fits(rs, section@, n as int),
                owner(rs, section@) == owner_upto(rs, section@, n as int),
                n > 0 ==> rs[n - 1] == map@[n - 1]@,
            decreases n,
        {
            n = n - 1;
            proof {
                if n > 0 {
                    assert(rs[n - 1] == map@[n - 1]@);
                }
            }
        }
        if n > 0 {
            let ghost before = pairs@;
            pairs.push((section, &map[n - 1]));
            proof {
                assert(pairs@.map_values(|p: (&SectionInfo, &Region)| (p.0@, p.1@)) =~= before.map_values(
                    |p: (&SectionInfo, &Region)| (p.0@, p.1@),
                ).push((section@, map@[n - 1]@)));
            }
        }
        i = i + 1;
    }
    proof {
        assert(ss.take(sections@.len() as int) =~= ss);
    }
    pairs
}

/// Every section listed for region `k` belongs to region `k`: the region
/// contains it whole, and no later region does. So a section is listed in at
/// most one layout, and a section that no region contains is listed in none.
pub proof fn law_layout_sections_belong_to_their_region(
    ss: Seq<SectionView>,
    rs: Seq<RegionView>,
    k: int,
)
    ensures
        forall|j: int|
            0 <= j < assigned(ss, rs, k).len() ==> owner(rs, #[trigger] assigned(ss, rs, k)[j])
                == Some(k),
        forall|j: int|
            0 <= j < assigned(ss, rs, k).len() ==> contains_spec(
                rs[k],
                #[trigger] assigned(ss, rs, k)[j],
            ),
    decreases ss.len(),
{
    if ss.len() > 0 {
        law_layout_sections_belong_to_their_region(ss.drop_last(), rs, k);
    }
    assert forall|j: int| 0 <= j < assigned(ss, rs, k).len() implies contains_spec(
        rs[k],
        #[trigger] assigned(ss, rs, k)[j],
    ) by {
        lemma_owner_contains(rs, assigned(ss, rs, k)[j], rs.len() as int);
    }
}

proof fn lemma_owner_contains(rs: Seq<RegionView>, s: SectionView, n: int)
    ensures
        owner_upto(rs, s, n) matches Some(k) ==> contains_spec(rs[k], s) && 0 <= k < n,
    decreases n,
{
    if n > 0 && !contains_spec(rs[n - 1], s) {
        lemma_owner_contains(rs, s, n - 1);
    }
}

/// `map_regions` pairs each section only with a region that contains it
/// whole, and that region is the one whose layout lists the section.
pub proof fn law_pairs_agree_with_layouts(ss: Seq<SectionView>, rs: Seq<RegionView>)
    ensures
        forall|j: int|
            0 <= j < section_region_pairs(ss, rs).len() ==> contains_spec(
                (#[trigger] section_region_pairs(ss, rs)[j]).1,
                section_region_pairs(ss, rs)[j].0,
            ),
        forall|j: int|
            0 <= j < section_region_pairs(ss, rs).len() ==> (owner(
                rs,
                (#[trigger] section_region_pairs(ss, rs)[j]).0,
            ) matches Some(k) && rs[k] == section_region_pairs(ss, rs)[j].1),
    decreases ss.len(),
{
    if ss.len() > 0 {
        law_pairs_agree_with_layouts(ss.drop_last(), rs);
        lemma_owner_contains(rs, ss.last(), rs.len() as int);
    }
}

} // verus!
