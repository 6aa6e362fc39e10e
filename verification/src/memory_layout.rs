//! The memory regions that generated assembly works on, and the test that a
//! layout keeps them apart.
//!
//! Addresses are base field elements, so a region that runs past the largest
//! address continues at address 0.

use crate::field::P;
use crate::instruction::IOList;
use crate::tasm::MEM_PAGE_SIZE;
use crate::tasm::NUM_POINTER_POINTERS;
use vstd::prelude::*;

verus! {

/// A run of `size` consecutive addresses from `start` on.
#[derive(Clone, Copy, Debug, PartialEq, Eq, Structural, Hash)]
pub struct MemoryRegion {
    pub start: u64,
    pub size: u64,
}

/// How many words each of the regions that hold input takes.
#[derive(Clone, Copy, Debug, PartialEq, Eq, Structural, Hash)]
pub struct RegionSizes {
    pub main_row: u64,
    pub aux_row: u64,
    pub challenges: u64,
}

/// Where everything lies when the rows' addresses are known at the time the
/// code is assembled.
#[derive(Clone, Copy, Debug, PartialEq, Eq, Structural, Hash)]
pub struct StaticTasmConstraintEvaluationMemoryLayout {
    pub free_mem_page_ptr: u64,
    pub curr_base_row_ptr: u64,
    pub curr_ext_row_ptr: u64,
    pub next_base_row_ptr: u64,
    pub next_ext_row_ptr: u64,
    pub challenges_ptr: u64,
}

/// Where everything lies when the rows' addresses arrive on the stack.
#[derive(Clone, Copy, Debug, PartialEq, Eq, Structural, Hash)]
pub struct DynamicTasmConstraintEvaluationMemoryLayout {
    pub free_mem_page_ptr: u64,
    pub challenges_ptr: u64,
}

impl MemoryRegion {
    /// Whether `addr` is one of the region's addresses, also where the
    /// region wraps around the end of the address space.
    pub open spec fn spec_contains_address(self, addr: u64) -> bool {
        ||| self.start <= addr < self.start + self.size
        ||| self.start <= addr + P < self.start + self.size
    }

    /// Neither region holds the other's first address.
    pub open spec fn spec_disjoint_from(self, other: MemoryRegion) -> bool {
        !self.spec_contains_address(other.start) && !other.spec_contains_address(self.start)
    }

    /// The region of `size` addresses from `address` on.
    pub fn new(address: u64, size: u64) -> (r: Self)
        ensures
            r.start == address,
            r.size == size,
    {
        MemoryRegion { start: address, size }
    }

    /// Whether `addr` is one of the region's addresses.
    #[verifier::when_used_as_spec(spec_contains_address)]
    pub fn contains_address(self, addr: u64) -> (r: bool)
        ensures
            r == self.spec_contains_address(addr),
    {
        let addr = addr as u128;
        let start = self.start as u128;
        let end = start + self.size as u128;
        (start <= addr && addr < end) || (start <= addr + P as u128 && addr + (P as u128) < end)
    }

    /// Whether neither region holds the other's first address.
    #[verifier::when_used_as_spec(spec_disjoint_from)]
    pub fn disjoint_from(self, other: MemoryRegion) -> (r: bool)
        ensures
            r == self.spec_disjoint_from(other),
    {
        !self.contains_address(other.start) && !other.contains_address(self.start)
    }
}

/// Regions that are disjoint in the sense of `disjoint_from` share no
/// address, provided their first addresses are field elements.
pub proof fn lemma_disjoint_regions_share_no_address(a: MemoryRegion, b: MemoryRegion, addr: u64)
    requires
        a.start < P,
        b.start < P,
        addr < P,
        a.spec_disjoint_from(b),
    ensures
        !(a.spec_contains_address(addr) && b.spec_contains_address(addr)),
{
}

/// The two regions differ and neither holds the other's first address.
pub open spec fn apart(a: MemoryRegion, b: MemoryRegion) -> bool {
    a != b && a.spec_disjoint_from(b)
}

/// No two regions are the same, and no region holds another's first address.
pub open spec fn pairwise_disjoint(regions: Seq<MemoryRegion>) -> bool {
    forall|i: int, j: int|
        0 <= i < j < regions.len() ==> apart(#[trigger] regions[i], #[trigger] regions[j])
}

/// Decides `pairwise_disjoint`.
pub fn all_disjoint(regions: &Vec<MemoryRegion>) -> (r: bool)
    ensures
        r == pairwise_disjoint(regions@),
{
    let mut j: usize = 0;
    while j < regions.len()
        invariant
            j <= regions@.len(),
            forall|a: int, b: int|
                0 <= a < b < j ==> apart(#[trigger] regions@[a], #[trigger] regions@[b]),
        decreases regions@.len() - j,
    {
        let mut i: usize = 0;
        while i < j
            invariant
                i <= j < regions@.len(),
                forall|a: int| 0 <= a < i ==> apart(#[trigger] regions@[a], regions@[j as int]),
            decreases j - i,
        {
            if regions[i] == regions[j] || !regions[i].disjoint_from(regions[j]) {
                assert(!apart(regions@[i as int], regions@[j as int]));
                return false;
            }
            i = i + 1;
        }
        j = j + 1;
    }
    true
}

impl StaticTasmConstraintEvaluationMemoryLayout {
    /// The regions of the layout: the free page, the four rows, the
    /// challenges.
    pub open spec fn spec_memory_regions(self, sizes: RegionSizes) -> Seq<MemoryRegion> {
        seq![
            MemoryRegion { start: self.free_mem_page_ptr, size: MEM_PAGE_SIZE },
            MemoryRegion { start: self.curr_base_row_ptr, size: sizes.main_row },
            MemoryRegion { start: self.curr_ext_row_ptr, size: sizes.aux_row },
            MemoryRegion { start: self.next_base_row_ptr, size: sizes.main_row },
            MemoryRegion { start: self.next_ext_row_ptr, size: sizes.aux_row },
            MemoryRegion { start: self.challenges_ptr, size: sizes.challenges },
        ]
    }

    /// All addresses of the layout are field elements.
    pub open spec fn pointers_canonical(self) -> bool {
        &&& self.free_mem_page_ptr < P
        &&& self.curr_base_row_ptr < P
        &&& self.curr_ext_row_ptr < P
        &&& self.next_base_row_ptr < P
        &&& self.next_ext_row_ptr < P
        &&& self.challenges_ptr < P
    }

    /// A layout is integral if its addresses are field elements and its
    /// regions are pairwise disjoint.
    pub open spec fn spec_is_integral(self, sizes: RegionSizes) -> bool {
        self.pointers_canonical() && pairwise_disjoint(self.spec_memory_regions(sizes))
    }

    /// The regions of the layout.
    pub fn memory_regions(&self, sizes: RegionSizes) -> (r: Vec<MemoryRegion>)
        ensures
            r@ == self.spec_memory_regions(sizes),
    {
        let r = vec![
            MemoryRegion::new(self.free_mem_page_ptr, MEM_PAGE_SIZE),
            MemoryRegion::new(self.curr_base_row_ptr, sizes.main_row),
            MemoryRegion::new(self.curr_ext_row_ptr, sizes.aux_row),
            MemoryRegion::new(self.next_base_row_ptr, sizes.main_row),
            MemoryRegion::new(self.next_ext_row_ptr, sizes.aux_row),
            MemoryRegion::new(self.challenges_ptr, sizes.challenges),
        ];
        assert(r@ =~= self.spec_memory_regions(sizes));
        r
    }

    /// Decides whether the layout is integral.
    pub fn is_integral(&self, sizes: RegionSizes) -> (r: bool)
        ensures
            r == self.spec_is_integral(sizes),
    {
        if !(self.free_mem_page_ptr < P && self.curr_base_row_ptr < P && self.curr_ext_row_ptr < P
            && self.next_base_row_ptr < P && self.next_ext_row_ptr < P && self.challenges_ptr < P) {
            return false;
        }
        all_disjoint(&self.memory_regions(sizes))
    }

    /// The address that a named region starts at.
    pub open spec fn spec_pointer(self, list: IOList) -> u64 {
        match list {
            IOList::FreeMemPage => self.free_mem_page_ptr,
            IOList::CurrBaseRow => self.curr_base_row_ptr,
            IOList::CurrExtRow => self.curr_ext_row_ptr,
            IOList::NextBaseRow => self.next_base_row_ptr,
            IOList::NextExtRow => self.next_ext_row_ptr,
            IOList::Challenges => self.challenges_ptr,
        }
    }

    /// The address that a named region starts at.
    #[verifier::when_used_as_spec(spec_pointer)]
    pub fn pointer(self, list: IOList) -> (r: u64)
        ensures
            r == self.spec_pointer(list),
    {
        match list {
            IOList::FreeMemPage => self.free_mem_page_ptr,
            IOList::CurrBaseRow => self.curr_base_row_ptr,
            IOList::CurrExtRow => self.curr_ext_row_ptr,
            IOList::NextBaseRow => self.next_base_row_ptr,
            IOList::NextExtRow => self.next_ext_row_ptr,
            IOList::Challenges => self.challenges_ptr,
        }
    }
}

impl DynamicTasmConstraintEvaluationMemoryLayout {
    /// The regions of the layout: the free page and the challenges.
    pub open spec fn spec_memory_regions(self, sizes: RegionSizes) -> Seq<MemoryRegion> {
        seq![
            MemoryRegion { start: self.free_mem_page_ptr, size: MEM_PAGE_SIZE },
            MemoryRegion { start: self.challenges_ptr, size: sizes.challenges },
        ]
    }

    /// A layout is integral if its addresses are field elements and its
    /// regions are pairwise disjoint.
    pub open spec fn spec_is_integral(self, sizes: RegionSizes) -> bool {
        &&& self.free_mem_page_ptr < P
        &&& self.challenges_ptr < P
        &&& pairwise_disjoint(self.spec_memory_regions(sizes))
    }

    /// The regions of the layout.
    pub fn memory_regions(&self, sizes: RegionSizes) -> (r: Vec<MemoryRegion>)
        ensures
            r@ == self.spec_memory_regions(sizes),
    {
        let r = vec![
            MemoryRegion::new(self.free_mem_page_ptr, MEM_PAGE_SIZE),
            MemoryRegion::new(self.challenges_ptr, sizes.challenges),
        ];
        assert(r@ =~= self.spec_memory_regions(sizes));
        r
    }

    /// Decides whether the layout is integral.
    pub fn is_integral(&self, sizes: RegionSizes) -> (r: bool)
        ensures
            r == self.spec_is_integral(sizes),
    {
        if !(self.free_mem_page_ptr < P && self.challenges_ptr < P) {
            return false;
        }
        all_disjoint(&self.memory_regions(sizes))
    }

    /// The address that a name stands for. The four row pointers are kept in
    /// the first words of the free page, so a row's name stands for the word
    /// that holds its pointer, and the free page's name for the first word
    /// after them.
    pub open spec fn spec_pointer(self, list: IOList) -> u64 {
        match list {
            IOList::FreeMemPage => (self.free_mem_page_ptr + NUM_POINTER_POINTERS) as u64,
            IOList::CurrBaseRow => self.free_mem_page_ptr,
            IOList::CurrExtRow => (self.free_mem_page_ptr + 1) as u64,
            IOList::NextBaseRow => (self.free_mem_page_ptr + 2) as u64,
            IOList::NextExtRow => (self.free_mem_page_ptr + 3) as u64,
            IOList::Challenges => self.challenges_ptr,
        }
    }

    /// The address that a name stands for.
    #[verifier::when_used_as_spec(spec_pointer)]
    pub fn pointer(self, list: IOList) -> (r: u64)
        requires
            self.free_mem_page_ptr < P,
        ensures
            r == self.spec_pointer(list),
    {
        match list {
            IOList::FreeMemPage => self.free_mem_page_ptr + NUM_POINTER_POINTERS,
            IOList::CurrBaseRow => self.free_mem_page_ptr,
            IOList::CurrExtRow => self.free_mem_page_ptr + 1,
            IOList::NextBaseRow => self.free_mem_page_ptr + 2,
            IOList::NextExtRow => self.free_mem_page_ptr + 3,
            IOList::Challenges => self.challenges_ptr,
        }
    }
}

/// A region holds the addresses up to its size after its start.
pub proof fn lemma_region_contains(region: MemoryRegion, off: int)
    requires
        region.start < P,
        0 <= off < region.size <= P,
    ensures
        region.spec_contains_address(crate::machine::address(region.start, off)),
{
    reveal(crate::machine::address);
    let x = region.start + off;
    if x < P {
        vstd::arithmetic::div_mod::lemma_small_mod(x as nat, P as nat);
    } else {
        vstd::arithmetic::div_mod::lemma_small_mod((x - P) as nat, P as nat);
        vstd::arithmetic::div_mod::lemma_mod_add_multiples_vanish(x - P, P as int);
    }
}

/// The extent of a named region under the given sizes.
pub open spec fn region_size(sizes: RegionSizes, list: IOList) -> u64 {
    match list {
        IOList::FreeMemPage => MEM_PAGE_SIZE,
        IOList::CurrBaseRow => sizes.main_row,
        IOList::NextBaseRow => sizes.main_row,
        IOList::CurrExtRow => sizes.aux_row,
        IOList::NextExtRow => sizes.aux_row,
        IOList::Challenges => sizes.challenges,
    }
}

/// Under an integral layout, no word of a row or of the challenges lies on
/// the free page.
pub proof fn lemma_integral_layout_keeps_inputs_off_page(
    layout: StaticTasmConstraintEvaluationMemoryLayout,
    sizes: RegionSizes,
    list: IOList,
    off: int,
)
    requires
        layout.spec_is_integral(sizes),
        list != IOList::FreeMemPage,
        0 <= off < region_size(sizes, list) <= P,
    ensures
        !(MemoryRegion {
            start: layout.free_mem_page_ptr,
            size: MEM_PAGE_SIZE,
        }).spec_contains_address(crate::machine::address(layout.spec_pointer(list), off)),
{
    let regions = layout.spec_memory_regions(sizes);
    let page = regions[0];
    let k: int = match list {
        IOList::CurrBaseRow => 1,
        IOList::CurrExtRow => 2,
        IOList::NextBaseRow => 3,
        IOList::NextExtRow => 4,
        _ => 5,
    };
    let region = regions[k];
    assert(apart(regions[0], regions[k]));
    assert(region.start == layout.spec_pointer(list));
    assert(region.size == region_size(sizes, list));
    let a = crate::machine::address(region.start, off);
    lemma_region_contains(region, off);
    crate::machine::lemma_address_bound(region.start, off);
    lemma_disjoint_regions_share_no_address(page, region, a);
}

} // verus!
