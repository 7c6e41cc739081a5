//! Memory-protection configurations: fixed-capacity tables of address
//! ranges with access kinds, installed into a core's protection unit.
use vstd::prelude::*;

verus! {

/// The number of regions the protection hardware can hold.
pub const PMP_ENTRIES: usize = 16;

/// The kinds of access that a region grants, from narrowest to widest.
#[derive(Clone, Copy, Debug, PartialEq, Eq, Structural)]
pub enum MemoryRegionType {
    ReadOnlyData,
    ReadWriteData,
    ReadOnlyExecutable,
    ReadWriteExecutable,
}

/// Whether a region of kind `region` permits an access of kind `access`:
/// a region permits reads always, writes if it is writable, and execution
/// if it is executable.
pub open spec fn permits(region: MemoryRegionType, access: MemoryRegionType) -> bool {
    match access {
        MemoryRegionType::ReadOnlyData => true,
        MemoryRegionType::ReadWriteData => region == MemoryRegionType::ReadWriteData || region
            == MemoryRegionType::ReadWriteExecutable,
        MemoryRegionType::ReadOnlyExecutable => region == MemoryRegionType::ReadOnlyExecutable
            || region == MemoryRegionType::ReadWriteExecutable,
        MemoryRegionType::ReadWriteExecutable => region == MemoryRegionType::ReadWriteExecutable,
    }
}

impl MemoryRegionType {
    /// Whether a region of this kind permits an access of kind `access`.
    pub fn has_access(&self, access: MemoryRegionType) -> (r: bool)
        ensures
            r == permits(*self, access),
    {
        match access {
            MemoryRegionType::ReadOnlyData => true,
            MemoryRegionType::ReadWriteData => *self == MemoryRegionType::ReadWriteData || *self
                == MemoryRegionType::ReadWriteExecutable,
            MemoryRegionType::ReadOnlyExecutable => *self == MemoryRegionType::ReadOnlyExecutable
                || *self == MemoryRegionType::ReadWriteExecutable,
            MemoryRegionType::ReadWriteExecutable => *self == MemoryRegionType::ReadWriteExecutable,
        }
    }
}

/// An address range `[start, end)` with the access it grants.
#[derive(Clone, Copy, Debug, PartialEq, Eq, Structural)]
pub struct MemoryRegion {
    pub ty: MemoryRegionType,
    pub start: usize,
    pub end: usize,
}

/// Whether region `r` covers the whole range `[start, end)`; a reversed
/// range, with `end` before `start`, is covered by no region.
pub open spec fn covers(r: MemoryRegion, start: usize, end: usize) -> bool {
    r.start <= start && start <= end && end <= r.end
}

/// The access that a region table grants to `[start, end)`: the last region
/// that covers the whole range decides; with none, there is no access.
pub open spec fn table_access(regions: Seq<MemoryRegion>, access: MemoryRegionType, start: usize, end: usize) -> bool
    decreases regions.len(),
{
    if regions.len() == 0 {
        false
    } else if covers(regions.last(), start, end) {
        permits(regions.last().ty, access)
    } else {
        table_access(regions.drop_last(), access, start, end)
    }
}

/// Whether a table of regions fits the protection hardware.
pub open spec fn fits_hardware(regions: Seq<MemoryRegion>) -> bool {
    regions.len() <= PMP_ENTRIES
}

fn table_has_access(regions: &Vec<MemoryRegion>, access: MemoryRegionType, start: usize, end: usize) -> (r: bool)
    ensures
        r == table_access(regions@, access, start, end),
{
    let mut i: usize = regions.len();
    assert(regions@.subrange(0, i as int) =~= regions@);
    while i > 0
        invariant
            0 <= i <= regions@.len(),
            table_access(regions@, access, start, end) == table_access(regions@.subrange(0, i as int), access, start, end),
        decreases i,
    {
        let r = regions[i - 1];
        assert(regions@.subrange(0, i as int).last() == r);
        if r.start <= start && start <= end && end <= r.end {
            return r.ty.has_access(access);
        }
        assert(regions@.subrange(0, i as int).drop_last() =~= regions@.subrange(0, i - 1));
        i = i - 1;
    }
    false
}

/// A validated region table for one protection domain.
pub struct MemoryConfig {
    regions: Vec<MemoryRegion>,
}

impl View for MemoryConfig {
    type V = Seq<MemoryRegion>;

    closed spec fn view(&self) -> Seq<MemoryRegion> {
        self.regions@
    }
}

impl MemoryConfig {
    /// Builds a configuration from `regions`, which must fit the protection
    /// hardware: a table that does not is a build-time error.
    pub fn const_new(regions: &Vec<MemoryRegion>) -> (cfg: MemoryConfig)
        requires
            fits_hardware(regions@),
        ensures
            cfg@ == regions@,
            fits_hardware(cfg@),
    {
        MemoryConfig { regions: regions.clone() }
    }

    /// The configuration of kernel threads: the whole address space,
    /// readable, writable and executable.
    pub fn kernel_thread_memory_config() -> (cfg: MemoryConfig)
        ensures
            cfg@ == seq![MemoryRegion { ty: MemoryRegionType::ReadWriteExecutable, start: 0, end: 0xffff_ffff }],
    {
        let mut v: Vec<MemoryRegion> = Vec::new();
        v.push(MemoryRegion { ty: MemoryRegionType::ReadWriteExecutable, start: 0, end: 0xffff_ffff });
        MemoryConfig::const_new(&v)
    }

    /// The regions, in priority order: a later region overrides an earlier one.
    pub fn regions(&self) -> (r: Vec<MemoryRegion>)
        ensures
            r@ == self@,
    {
        self.regions.clone()
    }

    /// Installs this configuration into the protection unit of one core.
    pub fn write(&self, unit: &mut ProtectionUnit)
        ensures
            final(unit)@ == self@,
    {
        unit.regions = self.regions.clone();
    }

    /// Whether this configuration grants `access` on `[start, end)`.
    pub fn range_has_access(&self, access: MemoryRegionType, start: usize, end: usize) -> (r: bool)
        ensures
            r == table_access(self@, access, start, end),
    {
        table_has_access(&self.regions, access, start, end)
    }
}

/// A core's memory-protection unit and the regions installed in it.
pub struct ProtectionUnit {
    regions: Vec<MemoryRegion>,
}

impl View for ProtectionUnit {
    type V = Seq<MemoryRegion>;

    closed spec fn view(&self) -> Seq<MemoryRegion> {
        self.regions@
    }
}

impl ProtectionUnit {
    /// A unit with no region installed, which grants nothing.
    pub fn new() -> (u: ProtectionUnit)
        ensures
            u@ == Seq::<MemoryRegion>::empty(),
    {
        ProtectionUnit { regions: Vec::new() }
    }

    /// Whether the installed configuration grants `access` on `[start, end)`.
    pub fn range_has_access(&self, access: MemoryRegionType, start: usize, end: usize) -> (r: bool)
        ensures
            r == table_access(self@, access, start, end),
    {
        table_has_access(&self.regions, access, start, end)
    }
}

/// The access that a table grants on a range is that of the last region
/// covering the range, and none when no region covers it.
pub proof fn lemma_last_covering_region_decides(
    regions: Seq<MemoryRegion>,
    access: MemoryRegionType,
    start: usize,
    end: usize,
)
    ensures
        table_access(regions, access, start, end) <==> exists|i: int|
            0 <= i < regions.len() && covers(#[trigger] regions[i], start, end) && permits(regions[i].ty, access)
                && forall|j: int| i < j < regions.len() ==> !covers(#[trigger] regions[j], start, end),
    decreases regions.len(),
{
    if regions.len() > 0 {
        let n = regions.len() - 1;
        let rest = regions.drop_last();
        lemma_last_covering_region_decides(rest, access, start, end);
        if covers(regions.last(), start, end) {
            if !permits(regions.last().ty, access) {
                assert forall|i: int| 0 <= i < regions.len() && covers(#[trigger] regions[i], start, end)
                    && permits(regions[i].ty, access)
                    implies exists|j: int| i < j < regions.len() && covers(#[trigger] regions[j], start, end) by {
                    assert(i != n);
                    assert(covers(regions[n], start, end));
                }
            }
        } else {
            if table_access(rest, access, start, end) {
                let i = choose|i: int| 0 <= i < rest.len() && covers(#[trigger] rest[i], start, end)
                    && permits(rest[i].ty, access)
                    && forall|j: int| i < j < rest.len() ==> !covers(#[trigger] rest[j], start, end);
                assert(regions[i] == rest[i]);
                assert forall|j: int| i < j < regions.len() implies !covers(#[trigger] regions[j], start, end) by {
                    if j < n {
                        assert(regions[j] == rest[j]);
                    }
                }
            } else {
                assert forall|i: int| 0 <= i < regions.len() && covers(#[trigger] regions[i], start, end)
                    && permits(regions[i].ty, access)
                    implies exists|j: int| i < j < regions.len() && covers(#[trigger] regions[j], start, end) by {
                    assert(i != n);
                    assert(regions[i] == rest[i]);
                    if !exists|j: int| i < j < rest.len() && covers(#[trigger] rest[j], start, end) {
                        assert forall|j: int| i < j < rest.len() implies !covers(#[trigger] rest[j], start, end) by {}
                    }
                    let j = choose|j: int| i < j < rest.len() && covers(#[trigger] rest[j], start, end);
                    assert(regions[j] == rest[j]);
                }
            }
        }
    }
}

/// A configuration built from a table that fits the hardware and installed
/// into a core grants an access on a range exactly when the last region of
/// the table that covers the range permits it.
pub proof fn lemma_installed_config_round_trip(
    regions: Seq<MemoryRegion>,
    cfg: MemoryConfig,
    unit: ProtectionUnit,
    access: MemoryRegionType,
    start: usize,
    end: usize,
)
    requires
        fits_hardware(regions),
        cfg@ == regions,
        unit@ == cfg@,
    ensures
        table_access(unit@, access, start, end) <==> exists|i: int|
            0 <= i < regions.len() && covers(#[trigger] regions[i], start, end) && permits(regions[i].ty, access)
                && forall|j: int| i < j < regions.len() ==> !covers(#[trigger] regions[j], start, end),
        end < start ==> !table_access(unit@, access, start, end),
{
    lemma_last_covering_region_decides(regions, access, start, end);
}

} // verus!
