//! Object file sections: which sections of an ELF/object file are laid out in
//! memory, ordered by start address.
use vstd::prelude::*;

use crate::arith::saturating_add_spec;
use crate::text::string_from_chars;
use object::SectionKind as ObjectKind;
use object::{Object, ObjectSection};

verus! {

/// One section of an object file, with the values the memory map needs.
#[derive(Debug)]
pub struct SectionInfo {
    pub name: String,
    pub address: u64,
    pub size: u64,
}

/// The abstract value of a section.
pub struct SectionView {
    pub name: Seq<char>,
    pub address: u64,
    pub size: u64,
}

impl View for SectionInfo {
    type V = SectionView;

    open spec fn view(&self) -> SectionView {
        SectionView { name: self.name@, address: self.address, size: self.size }
    }
}

impl SectionView {
    pub open spec fn start(self) -> u64 {
        self.address
    }

    /// First address past the section, clamped at `u64::MAX`.
    pub open spec fn end(self) -> u64 {
        saturating_add_spec(self.address, self.size)
    }
}

impl SectionInfo {
    /// The start address.
    pub fn starts_at(&self) -> (a: u64)
        ensures
            a == self@.start(),
    {
        self.address
    }

    /// First address past the section (`address + size`, saturating).
    pub fn ends_at(&self) -> (e: u64)
        ensures
            e == self@.end(),
    {
        self.address.saturating_add(self.size)
    }
}

/// The views of a sequence of sections.
pub open spec fn sections_view(ss: Seq<SectionInfo>) -> Seq<SectionView> {
    ss.map_values(|s: SectionInfo| s@)
}

/// The kind of a section, as an object file declares it: one variant for
/// each kind the `object` crate tells apart (`Unknown` also for any kind a
/// later version adds).
#[derive(Clone, Copy, Debug, PartialEq, Eq)]
pub enum KindOfSection {
    Unknown,
    Text,
    Data,
    ReadOnlyData,
    ReadOnlyDataWithRel,
    ReadOnlyString,
    UninitializedData,
    Common,
    Tls,
    UninitializedTls,
    TlsVariables,
    OtherString,
    Other,
    Debug,
    DebugString,
    Linker,
    Note,
    Metadata,
    /// An ELF section type that has no kind of its own.
    Elf(u32),
}

/// What an object file reports of one section: its name (if it has a
/// readable one), address, size and kind.
pub struct RawSection {
    pub name: Option<String>,
    pub address: u64,
    pub size: u64,
    pub kind: KindOfSection,
}

pub struct RawSectionView {
    pub name: Option<Seq<char>>,
    pub address: u64,
    pub size: u64,
    pub kind: KindOfSection,
}

impl View for RawSection {
    type V = RawSectionView;

    open spec fn view(&self) -> RawSectionView {
        RawSectionView {
            name: match self.name {
                Some(n) => Some(n@),
                None => None,
            },
            address: self.address,
            size: self.size,
            kind: self.kind,
        }
    }
}

pub open spec fn raw_sections_view(rs: Seq<RawSection>) -> Seq<RawSectionView> {
    rs.map_values(|r: RawSection| r@)
}

/// Whether a section of this kind is included in the final binary: code,
/// data, read-only data and strings, zero-filled data, common symbols and
/// thread-local data.
pub open spec fn is_included_in_binary_spec(kind: KindOfSection) -> bool {
    ||| kind is Text
    ||| kind is Data
    ||| kind is ReadOnlyData
    ||| kind is ReadOnlyString
    ||| kind is UninitializedData
    ||| kind is Common
    ||| kind is Tls
    ||| kind is UninitializedTls
}

pub open spec fn unknown_name() -> Seq<char> {
    seq!['U', 'N', 'K', 'N', 'O', 'W', 'N']
}

/// The section that a raw section becomes (a missing name reads `UNKNOWN`).
pub open spec fn section_of(r: RawSectionView) -> SectionView {
    SectionView {
        name: match r.name {
            Some(n) => n,
            None => unknown_name(),
        },
        address: r.address,
        size: r.size,
    }
}

/// Whether a raw section is kept: non-empty and included in the binary.
pub open spec fn is_kept(r: RawSectionView) -> bool {
    r.size != 0 && is_included_in_binary_spec(r.kind)
}

/// The kept raw sections, as sections, in the order the file lists them.
pub open spec fn kept_sections(rs: Seq<RawSectionView>) -> Seq<SectionView>
    decreases rs.len(),
{
    if rs.len() == 0 {
        Seq::empty()
    } else {
        let rest = kept_sections(rs.drop_last());
        if is_kept(rs.last()) {
            rest.push(section_of(rs.last()))
        } else {
            rest
        }
    }
}

/// `x` inserted into `s` after every element whose address is at most its
/// own (the step of a stable insertion sort).
pub open spec fn insert_by_address(s: Seq<SectionView>, x: SectionView) -> Seq<SectionView>
    decreases s.len(),
{
    if s.len() == 0 {
        seq![x]
    } else if s.last().address <= x.address {
        s.push(x)
    } else {
        insert_by_address(s.drop_last(), x).push(s.last())
    }
}

/// `s` stably sorted by address: elements with equal addresses keep their
/// order.
pub open spec fn sort_by_address(s: Seq<SectionView>) -> Seq<SectionView>
    decreases s.len(),
{
    if s.len() == 0 {
        Seq::empty()
    } else {
        insert_by_address(sort_by_address(s.drop_last()), s.last())
    }
}

/// The sections of the memory map: the kept raw sections, stably sorted by
/// address.
pub open spec fn select_spec(rs: Seq<RawSectionView>) -> Seq<SectionView> {
    sort_by_address(kept_sections(rs))
}

pub open spec fn sorted_by_address(s: Seq<SectionView>) -> bool {
    forall|i: int, j: int| 0 <= i <= j < s.len() ==> s[i].address <= s[j].address
}

/// Inserting where every later element has a larger address and no earlier
/// one does.
proof fn lemma_insert_at(s: Seq<SectionView>, x: SectionView, p: int)
    requires
        0 <= p <= s.len(),
        forall|k: int| p <= k < s.len() ==> #[trigger] s[k].address > x.address,
        p > 0 ==> s[p - 1].address <= x.address,
    ensures
        insert_by_address(s, x) == s.insert(p, x),
    decreases s.len(),
{
    if s.len() == 0 {
        assert(s.insert(p, x) =~= seq![x]);
    } else if p == s.len() {
        assert(s.insert(p, x) =~= s.push(x));
    } else {
        lemma_insert_at(s.drop_last(), x, p);
        assert(s.drop_last().insert(p, x).push(s.last()) =~= s.insert(p, x));
    }
}

/// Insertion keeps a sorted sequence sorted.
proof fn lemma_insert_sorted(s: Seq<SectionView>, x: SectionView, p: int)
    requires
        sorted_by_address(s),
        0 <= p <= s.len(),
        forall|k: int| p <= k < s.len() ==> #[trigger] s[k].address > x.address,
        p > 0 ==> s[p - 1].address <= x.address,
    ensures
        sorted_by_address(s.insert(p, x)),
{
    let t = s.insert(p, x);
    assert forall|i: int, j: int| 0 <= i <= j < t.len() implies t[i].address <= t[j].address by {
        if i < p && j == p {
            assert(s[i].address <= s[p - 1].address);
        } else if i == p && j > p {
            assert(t[j] == s[j - 1]);
        } else if i < p && j > p {
            assert(t[j] == s[j - 1]);
        } else if i > p {
            assert(t[i] == s[i - 1] && t[j] == s[j - 1]);
        }
    }
}

proof fn lemma_insert_by_address_holds(s: Seq<SectionView>, x: SectionView)
    ensures
        insert_by_address(s, x).contains(x),
        forall|k: int| 0 <= k < s.len() ==> insert_by_address(s, x).contains(#[trigger] s[k]),
        forall|y: SectionView|
            #[trigger] insert_by_address(s, x).contains(y) ==> y == x || s.contains(y),
    decreases s.len(),
{
    let r = insert_by_address(s, x);
    if s.len() == 0 {
        assert(r[0] == x);
    } else if s.last().address <= x.address {
        assert(r[s.len() as int] == x);
        assert forall|k: int| 0 <= k < s.len() implies r.contains(#[trigger] s[k]) by {
            assert(r[k] == s[k]);
        }
        assert forall|y: SectionView| #[trigger] r.contains(y) implies y == x || s.contains(y) by {
            let k = choose|k: int| 0 <= k < r.len() && r[k] == y;
            if k < s.len() {
                assert(s[k] == y);
            }
        }
    } else {
        let d = s.drop_last();
        lemma_insert_by_address_holds(d, x);
        let rd = insert_by_address(d, x);
        assert(r == rd.push(s.last()));
        let ix = choose|k: int| 0 <= k < rd.len() && rd[k] == x;
        assert(r[ix] == x);
        assert forall|k: int| 0 <= k < s.len() implies r.contains(#[trigger] s[k]) by {
            if k == s.len() - 1 {
                assert(r[rd.len() as int] == s[k]);
            } else {
                assert(d[k] == s[k]);
                assert(rd.contains(d[k]));
                let j = choose|j: int| 0 <= j < rd.len() && rd[j] == d[k];
                assert(r[j] == s[k]);
            }
        }
        assert forall|y: SectionView| #[trigger] r.contains(y) implies y == x || s.contains(y) by {
            let k = choose|k: int| 0 <= k < r.len() && r[k] == y;
            if k == rd.len() {
                assert(s[s.len() - 1] == y);
            } else {
                assert(rd[k] == y);
                assert(rd.contains(y));
                if y != x {
                    let j = choose|j: int| 0 <= j < d.len() && d[j] == y;
                    assert(s[j] == y);
                }
            }
        }
    }
}

/// Sorting by address keeps exactly the elements.
proof fn lemma_sort_by_address_holds(s: Seq<SectionView>)
    ensures
        forall|k: int| 0 <= k < s.len() ==> sort_by_address(s).contains(#[trigger] s[k]),
        forall|y: SectionView| #[trigger] sort_by_address(s).contains(y) ==> s.contains(y),
    decreases s.len(),
{
    if s.len() > 0 {
        let d = s.drop_last();
        lemma_sort_by_address_holds(d);
        let sd = sort_by_address(d);
        lemma_insert_by_address_holds(sd, s.last());
        let r = sort_by_address(s);
        assert(r == insert_by_address(sd, s.last()));
        assert forall|k: int| 0 <= k < s.len() implies r.contains(#[trigger] s[k]) by {
            if k < s.len() - 1 {
                assert(d[k] == s[k]);
                assert(sd.contains(d[k]));
                let j = choose|j: int| 0 <= j < sd.len() && sd[j] == d[k];
                assert(insert_by_address(sd, s.last()).contains(sd[j]));
            }
        }
        assert forall|y: SectionView| #[trigger] r.contains(y) implies s.contains(y) by {
            if y == s.last() {
                assert(s[s.len() - 1] == y);
            } else {
                assert(sd.contains(y));
                assert(d.contains(y));
                let j = choose|j: int| 0 <= j < d.len() && d[j] == y;
                assert(s[j] == y);
            }
        }
    }
}

/// The kept sections are exactly the non-empty raw sections of an included
/// kind, whatever their address.
proof fn lemma_kept_sections_hold(rs: Seq<RawSectionView>)
    ensures
        forall|i: int|
            0 <= i < rs.len() && rs[i].size != 0 && is_included_in_binary_spec(rs[i].kind)
                ==> kept_sections(rs).contains(section_of(#[trigger] rs[i])),
        forall|y: SectionView|
            #[trigger] kept_sections(rs).contains(y) ==> exists|i: int|
                0 <= i < rs.len() && rs[i].size != 0 && is_included_in_binary_spec(rs[i].kind)
                    && y == section_of(#[trigger] rs[i]),
    decreases rs.len(),
{
    if rs.len() > 0 {
        let d = rs.drop_last();
        lemma_kept_sections_hold(d);
        let kd = kept_sections(d);
        let r = kept_sections(rs);
        let last = rs.last();
        assert forall|i: int|
            0 <= i < rs.len() && rs[i].size != 0 && is_included_in_binary_spec(rs[i].kind)
                implies r.contains(section_of(#[trigger] rs[i])) by {
            if i == rs.len() - 1 {
                assert(r == kd.push(section_of(last)));
                assert(r[kd.len() as int] == section_of(rs[i]));
            } else {
                assert(d[i] == rs[i]);
                assert(kd.contains(section_of(d[i])));
                let j = choose|j: int| 0 <= j < kd.len() && kd[j] == section_of(d[i]);
                if is_kept(last) {
                    assert(kd.push(section_of(last))[j] == section_of(rs[i]));
                }
            }
        }
        assert forall|y: SectionView| #[trigger] r.contains(y) implies exists|i: int|
            0 <= i < rs.len() && rs[i].size != 0 && is_included_in_binary_spec(rs[i].kind) && y
                == section_of(#[trigger] rs[i]) by {
            let k = choose|k: int| 0 <= k < r.len() && r[k] == y;
            if is_kept(last) && k == kd.len() {
                assert(section_of(rs[rs.len() - 1]) == y);
            } else {
                if is_kept(last) {
                    assert(kd[k] == y);
                }
                assert(kd.contains(y));
                let i = choose|i: int|
                    0 <= i < d.len() && d[i].size != 0 && is_included_in_binary_spec(d[i].kind) && y
                        == section_of(#[trigger] d[i]);
                assert(rs[i] == d[i]);
            }
        }
    }
}

/// The sections of the memory map are the raw sections that are non-empty
/// and of a kind that ends up in the binary (code, data, read-only data and
/// strings, zero-filled data, common symbols, thread-local data), whatever
/// their address: each such raw section is in the result, and each section of
/// the result is one of them. The result is sorted by address.
pub proof fn law_selected_sections_are_the_loadable_nonempty_ones(rs: Seq<RawSectionView>)
    ensures
        forall|i: int|
            0 <= i < rs.len() && rs[i].size != 0 && (rs[i].kind is Text || rs[i].kind is Data
                || rs[i].kind is ReadOnlyData || rs[i].kind is ReadOnlyString
                || rs[i].kind is UninitializedData || rs[i].kind is Common || rs[i].kind is Tls
                || rs[i].kind is UninitializedTls) ==> select_spec(rs).contains(
                section_of(#[trigger] rs[i]),
            ),
        forall|y: SectionView|
            #[trigger] select_spec(rs).contains(y) ==> exists|i: int|
                0 <= i < rs.len() && rs[i].size != 0 && (rs[i].kind is Text || rs[i].kind is Data
                    || rs[i].kind is ReadOnlyData || rs[i].kind is ReadOnlyString
                    || rs[i].kind is UninitializedData || rs[i].kind is Common
                    || rs[i].kind is Tls || rs[i].kind is UninitializedTls) && y == section_of(
                    #[trigger] rs[i],
                ),
{
    let kept = kept_sections(rs);
    lemma_kept_sections_hold(rs);
    lemma_sort_by_address_holds(kept);
    assert forall|i: int|
        0 <= i < rs.len() && rs[i].size != 0 && (rs[i].kind is Text || rs[i].kind is Data
            || rs[i].kind is ReadOnlyData || rs[i].kind is ReadOnlyString
            || rs[i].kind is UninitializedData || rs[i].kind is Common || rs[i].kind is Tls
            || rs[i].kind is UninitializedTls) implies select_spec(rs).contains(
        section_of(#[trigger] rs[i]),
    ) by {
        assert(kept.contains(section_of(rs[i])));
        let j = choose|j: int| 0 <= j < kept.len() && kept[j] == section_of(rs[i]);
        assert(sort_by_address(kept).contains(kept[j]));
    }
    assert forall|y: SectionView| #[trigger] select_spec(rs).contains(y) implies exists|i: int|
        0 <= i < rs.len() && rs[i].size != 0 && (rs[i].kind is Text || rs[i].kind is Data
            || rs[i].kind is ReadOnlyData || rs[i].kind is ReadOnlyString
            || rs[i].kind is UninitializedData || rs[i].kind is Common || rs[i].kind is Tls
            || rs[i].kind is UninitializedTls) && y == section_of(#[trigger] rs[i]) by {
        assert(kept.contains(y));
    }
}

// ---------------------------------------------------------------------------
// Implementation
// ---------------------------------------------------------------------------

/// Whether a section of this kind is included in the final binary: code,
/// data, read-only data and strings, zero-filled data, common symbols and
/// thread-local data.
pub fn is_included_in_binary(kind: KindOfSection) -> (b: bool)
    ensures
        b == is_included_in_binary_spec(kind),
{
    match kind {
        KindOfSection::Text | KindOfSection::Data | KindOfSection::ReadOnlyData
        | KindOfSection::ReadOnlyString | KindOfSection::UninitializedData | KindOfSection::Common
        | KindOfSection::Tls | KindOfSection::UninitializedTls => true,
        _ => false,
    }
}

/// The section that a kept raw section becomes.
fn from_raw(raw: &RawSection) -> (s: SectionInfo)
    ensures
        s@ == section_of(raw@),
{
    let name = match &raw.name {
        Some(n) => n.clone(),
        None => {
            let unknown = vec!['U', 'N', 'K', 'N', 'O', 'W', 'N'];
            proof {
                assert(unknown@ =~= unknown_name());
            }
            string_from_chars(&unknown)
        },
    };
    SectionInfo { name, address: raw.address, size: raw.size }
}

/// Inserts `x` into the address-sorted `v` after every element whose
/// address is at most its own.
fn insert_sorted(v: &mut Vec<SectionInfo>, x: SectionInfo)
    requires
        sorted_by_address(sections_view(old(v)@)),
    ensures
        sections_view(final(v)@) == insert_by_address(sections_view(old(v)@), x@),
        sorted_by_address(sections_view(final(v)@)),
{
    let ghost s = sections_view(v@);
    let mut p = v.len();
    while p > 0 && v[p - 1].address > x.address
        invariant
            p <= v@.len(),
            s == sections_view(v@),
            forall|k: int| p <= k < s.len() ==> #[trigger] s[k].address > x.address,
        decreases p,
    {
        p = p - 1;
    }
    proof {
        lemma_insert_at(s, x@, p as int);
        lemma_insert_sorted(s, x@, p as int);
    }
    let ghost xv = x@;
    v.insert(p, x);
    proof {
        assert(sections_view(v@) =~= s.insert(p as int, xv));
    }
}

/// The sections of the memory map: the non-empty sections of a class that is
/// included in the binary, in order of start address (sections with equal
/// addresses keep the object file's order).
pub fn select_sections(raw: &Vec<RawSection>) -> (sections: Vec<SectionInfo>)
    ensures
        sections_view(sections@) == select_spec(raw_sections_view(raw@)),
        sorted_by_address(sections_view(sections@)),
{
    let mut sections: Vec<SectionInfo> = Vec::new();
    let ghost rv = raw_sections_view(raw@);
    let mut i: usize = 0;
    proof {
        assert(rv.take(0) =~= Seq::<RawSectionView>::empty());
        assert(sections_view(sections@) =~= Seq::<SectionView>::empty());
    }
    while i < raw.len()
        invariant
            i <= raw@.len(),
            rv == raw_sections_view(raw@),
            sections_view(sections@) == sort_by_address(kept_sections(rv.take(i as int))),
            sorted_by_address(sections_view(sections@)),
        decreases raw@.len() - i,
    {
        let r = &raw[i];
        proof {
            assert(rv.take(i + 1).drop_last() =~= rv.take(i as int));
        }
        if r.size != 0 && is_included_in_binary(r.kind) {
            let s = from_raw(r);
            proof {
                let kept = kept_sections(rv.take(i as int));
                assert(kept.push(s@).drop_last() =~= kept);
            }
            insert_sorted(&mut sections, s);
        }
        i = i + 1;
    }
    proof {
        assert(rv.take(raw@.len() as int) =~= rv);
    }
    sections
}


// ---------------------------------------------------------------------------
// Reading an object file
// ---------------------------------------------------------------------------

#[verifier::external_type_specification]
#[verifier::external_body]
pub struct ExObjectError(object::Error);

#[verifier::external_type_specification]
#[verifier::external_body]
pub struct ExObjectSectionKind(object::SectionKind);

/// One section as the object file lists it.
pub struct SectionRecord {
    pub name: Option<String>,
    pub address: u64,
    pub size: u64,
    pub kind: object::SectionKind,
}

pub struct SectionRecordView {
    pub name: Option<Seq<char>>,
    pub address: u64,
    pub size: u64,
    pub kind: object::SectionKind,
}

impl View for SectionRecord {
    type V = SectionRecordView;

    open spec fn view(&self) -> SectionRecordView {
        SectionRecordView {
            name: match self.name {
                Some(n) => Some(n@),
                None => None,
            },
            address: self.address,
            size: self.size,
            kind: self.kind,
        }
    }
}

/// The sections that the `object` crate reads from the object file bytes
/// `data` (`None` where it cannot parse them).
pub uninterp spec fn object_file_sections(data: Seq<u8>) -> Option<Seq<SectionRecordView>>;

/// The variant of the `object` crate's `SectionKind` value `kind`, as the
/// [`KindOfSection`] of the same name.
pub uninterp spec fn object_section_kind(kind: object::SectionKind) -> KindOfSection;

/// The raw sections of the records, each kind as a [`KindOfSection`].
pub open spec fn classify(recs: Seq<SectionRecordView>) -> Seq<RawSectionView> {
    recs.map_values(
        |r: SectionRecordView|
            RawSectionView {
                name: r.name,
                address: r.address,
                size: r.size,
                kind: object_section_kind(r.kind),
            },
    )
}

/// Trusted: parses `data` with `object::File::parse` and lists its sections
/// (`Object::sections`) in the order the file gives them, each with
/// `ObjectSection::name` (`None` where the name does not read), `address`,
/// `size` and `kind`. The contract claims only that the result is a function
/// of the bytes: `Ok` with the named list where parsing succeeds, the
/// `object::Error` where it fails.
#[verifier::external_body]
fn read_object_sections(data: &[u8]) -> (res: Result<Vec<SectionRecord>, object::Error>)
    ensures
        match res {
            Ok(v) => object_file_sections(data@) == Some(v@.map_values(|r: SectionRecord| r@)),
            Err(_) => object_file_sections(data@) is None,
        },
{
    let file = object::File::parse(data)?;
    Ok(
        file.sections().map(
            |s| SectionRecord {
                name: s.name().ok().map(String::from),
                address: s.address(),
                size: s.size(),
                kind: s.kind(),
            },
        ).collect(),
    )
}

/// Trusted: tells apart the variants of `object::SectionKind`, one arm per
/// variant, each to the variant of the same name (a variant that a later
/// version of the crate adds to `Unknown`). The contract names the result
/// only, as a function of the kind: the outside type is opaque here.
#[verifier::external_body]
fn section_kind(kind: object::SectionKind) -> (k: KindOfSection)
    ensures
        k == object_section_kind(kind),
{
    match kind {
        ObjectKind::Unknown => KindOfSection::Unknown, ObjectKind::Text => KindOfSection::Text,
        ObjectKind::Data => KindOfSection::Data, ObjectKind::ReadOnlyData => KindOfSection::ReadOnlyData,
        ObjectKind::ReadOnlyDataWithRel => KindOfSection::ReadOnlyDataWithRel,
        ObjectKind::ReadOnlyString => KindOfSection::ReadOnlyString,
        ObjectKind::UninitializedData => KindOfSection::UninitializedData,
        ObjectKind::Common => KindOfSection::Common, ObjectKind::Tls => KindOfSection::Tls,
        ObjectKind::UninitializedTls => KindOfSection::UninitializedTls,
        ObjectKind::TlsVariables => KindOfSection::TlsVariables,
        ObjectKind::OtherString => KindOfSection::OtherString, ObjectKind::Other => KindOfSection::Other,
        ObjectKind::Debug => KindOfSection::Debug, ObjectKind::DebugString => KindOfSection::DebugString,
        ObjectKind::Linker => KindOfSection::Linker, ObjectKind::Note => KindOfSection::Note,
        ObjectKind::Metadata => KindOfSection::Metadata, ObjectKind::Elf(t) => KindOfSection::Elf(t),
        _ => KindOfSection::Unknown,
    }
}

/// The sections of the memory map of an ELF/object file, given its bytes:
/// the non-empty sections that are included in the binary, sorted by start
/// address; or the `object` crate's error where the bytes do not parse.
pub fn sections_from_object_data(data: &[u8]) -> (res: Result<Vec<SectionInfo>, object::Error>)
    ensures
        match res {
            Ok(sections) => object_file_sections(data@) matches Some(recs) && sections_view(
                sections@,
            ) == select_spec(classify(recs)),
            Err(_) => object_file_sections(data@) is None,
        },
{
    let records = read_object_sections(data)?;
    let ghost recs = records@.map_values(|r: SectionRecord| r@);
    let mut raw: Vec<RawSection> = Vec::new();
    let mut i: usize = 0;
    while i < records.len()
        invariant
            i <= records@.len(),
            recs == records@.map_values(|r: SectionRecord| r@),
            raw_sections_view(raw@) == classify(recs).take(i as int),
        decreases records@.len() - i,
    {
        let rec = &records[i];
        let raw_section = RawSection {
            name: match &rec.name {
                Some(n) => Some(n.clone()),
                None => None,
            },
            address: rec.address,
            size: rec.size,
            kind: section_kind(rec.kind),
        };
        proof {
            assert(recs[i as int] == rec@);
            assert(raw_section@ == classify(recs)[i as int]);
        }
        let ghost before = raw@;
        let ghost xv = raw_section@;
        raw.push(raw_section);
        i = i + 1;
        proof {
            assert(raw_sections_view(raw@) =~= raw_sections_view(before).push(xv));
            assert(classify(recs).take(i as int) =~= classify(recs).take(i - 1).push(xv));
            assert(raw_sections_view(raw@) =~= classify(recs).take(i as int));
        }
    }
    proof {
        assert(classify(recs).take(records@.len() as int) =~= classify(recs));
    }
    Ok(select_sections(&raw))
}

} // verus!
