use constraint_evaluation_generator::field::P;
use constraint_evaluation_generator::instruction::IOList;
use constraint_evaluation_generator::memory_layout::all_disjoint;
use constraint_evaluation_generator::memory_layout::DynamicTasmConstraintEvaluationMemoryLayout;
use constraint_evaluation_generator::memory_layout::MemoryRegion;
use constraint_evaluation_generator::memory_layout::RegionSizes;
use constraint_evaluation_generator::memory_layout::StaticTasmConstraintEvaluationMemoryLayout;
use constraint_evaluation_generator::gpu_parallel::GpuParallel;
use constraint_evaluation_generator::tasm::MEM_PAGE_SIZE;

fn sizes() -> RegionSizes {
    RegionSizes { main_row: 300, aux_row: 150, challenges: 180 }
}

fn integral_layout() -> StaticTasmConstraintEvaluationMemoryLayout {
    StaticTasmConstraintEvaluationMemoryLayout {
        free_mem_page_ptr: 1 << 33,
        curr_base_row_ptr: 0,
        curr_ext_row_ptr: 300,
        next_base_row_ptr: 450,
        next_ext_row_ptr: 750,
        challenges_ptr: 900,
    }
}

#[test]
fn a_region_holds_the_addresses_from_its_start_up_to_its_size() {
    let region = MemoryRegion::new(10, 5);
    assert!(!region.contains_address(9));
    assert!(region.contains_address(10));
    assert!(region.contains_address(14));
    assert!(!region.contains_address(15));
    assert!(!MemoryRegion::new(10, 0).contains_address(10));
}

#[test]
fn a_region_wraps_around_the_end_of_the_address_space() {
    let region = MemoryRegion::new(P - 2, 5);
    assert!(region.contains_address(P - 2));
    assert!(region.contains_address(P - 1));
    assert!(region.contains_address(0));
    assert!(region.contains_address(2));
    assert!(!region.contains_address(3));
    assert!(!region.contains_address(P - 3));
}

#[test]
fn regions_that_overlap_are_not_disjoint() {
    let region = MemoryRegion::new(10, 5);
    assert!(region.disjoint_from(MemoryRegion::new(15, 5)));
    assert!(region.disjoint_from(MemoryRegion::new(5, 5)));
    assert!(!region.disjoint_from(MemoryRegion::new(14, 5)));
    assert!(!region.disjoint_from(MemoryRegion::new(6, 5)));
    assert!(!region.disjoint_from(MemoryRegion::new(0, 100)));
    assert!(!MemoryRegion::new(P - 2, 5).disjoint_from(MemoryRegion::new(1, 1)));
}

#[test]
fn a_layout_whose_regions_lie_apart_is_integral() {
    assert!(integral_layout().is_integral(sizes()));
    assert_eq!(integral_layout().memory_regions(sizes()).len(), 6);
    assert_eq!(
        integral_layout().memory_regions(sizes())[0],
        MemoryRegion::new(1 << 33, MEM_PAGE_SIZE)
    );
}

#[test]
fn a_layout_with_overlapping_regions_is_not_integral() {
    let mut layout = integral_layout();
    layout.curr_ext_row_ptr = 299;
    assert!(!layout.is_integral(sizes()));

    let mut layout = integral_layout();
    layout.challenges_ptr = (1 << 33) + 5;
    assert!(!layout.is_integral(sizes()));

    let mut layout = integral_layout();
    layout.free_mem_page_ptr = 0;
    assert!(!layout.is_integral(sizes()));

    // the free page wraps around the end of the address space
    let mut layout = integral_layout();
    layout.free_mem_page_ptr = P - 10;
    assert!(!layout.is_integral(sizes()));
}

#[test]
fn a_layout_with_an_address_that_is_no_field_element_is_not_integral() {
    let mut layout = integral_layout();
    layout.free_mem_page_ptr = P;
    assert!(!layout.is_integral(sizes()));
    let layout = DynamicTasmConstraintEvaluationMemoryLayout {
        free_mem_page_ptr: 1 << 33,
        challenges_ptr: u64::MAX,
    };
    assert!(!layout.is_integral(sizes()));
}

#[test]
fn a_layout_with_the_same_region_twice_is_not_integral() {
    let empty = RegionSizes { main_row: 0, aux_row: 0, challenges: 0 };
    let mut layout = integral_layout();
    assert!(layout.is_integral(empty));
    layout.next_base_row_ptr = layout.curr_base_row_ptr;
    assert!(!layout.is_integral(empty));
    assert!(!all_disjoint(&vec![MemoryRegion::new(5, 0), MemoryRegion::new(5, 0)]));
    assert!(all_disjoint(&vec![MemoryRegion::new(5, 0), MemoryRegion::new(6, 0)]));
    assert!(all_disjoint(&vec![]));
}

#[test]
fn a_dynamic_layout_keeps_the_row_pointers_at_the_start_of_the_free_page() {
    let layout =
        DynamicTasmConstraintEvaluationMemoryLayout { free_mem_page_ptr: 1000, challenges_ptr: 10 };
    assert!(layout.is_integral(sizes()));
    assert_eq!(layout.pointer(IOList::CurrBaseRow), 1000);
    assert_eq!(layout.pointer(IOList::CurrExtRow), 1001);
    assert_eq!(layout.pointer(IOList::NextBaseRow), 1002);
    assert_eq!(layout.pointer(IOList::NextExtRow), 1003);
    assert_eq!(layout.pointer(IOList::FreeMemPage), 1004);
    assert_eq!(layout.pointer(IOList::Challenges), 10);
    let overlapping =
        DynamicTasmConstraintEvaluationMemoryLayout { free_mem_page_ptr: 100, challenges_ptr: 10 };
    assert!(!overlapping.is_integral(sizes()));

    let layout = integral_layout();
    assert_eq!(layout.pointer(IOList::FreeMemPage), 1 << 33);
    assert_eq!(layout.pointer(IOList::NextExtRow), 750);
}

#[test]
fn the_handle_to_the_graphics_processor_holds_nothing() {
    assert_eq!(std::mem::size_of::<GpuParallel>(), 0);
    assert_eq!(format!("{:?}", GpuParallel), "GpuParallel");
}
