use arena_allocators::utils::{align_forward, calc_padding_with_header, is_power_of_two};

#[test]
fn test_align_forward() {
    assert_eq!(align_forward(10, 4), 12);
    assert_eq!(align_forward(20, 8), 24);
    assert_eq!(align_forward(100, 32), 128);
}

#[test]
fn test_calc_padding_with_header() {
    assert_eq!(calc_padding_with_header(3, 8, 8), 13);
    assert_eq!(calc_padding_with_header(3, 8, 29), 29);
}

#[test]
fn power_of_two_is_recognised() {
    assert!(is_power_of_two(1));
    assert!(is_power_of_two(2));
    assert!(is_power_of_two(4096));
    assert!(!is_power_of_two(3));
    assert!(!is_power_of_two(6));
    assert!(!is_power_of_two(4097));
}

#[test]
fn align_forward_gives_the_least_multiple() {
    for shift in 0..12u32 {
        let align = 1usize << shift;
        for addr in 0..300usize {
            let aligned = align_forward(addr, align);
            assert_eq!(aligned % align, 0);
            assert!(addr <= aligned && aligned < addr + align);
        }
    }
    assert_eq!(align_forward(0, 1), 0);
    assert_eq!(align_forward(4096, 4096), 4096);
    assert_eq!(align_forward(4097, 4096), 8192);
    assert_eq!(align_forward(usize::MAX, 1), usize::MAX);
    let top = 1usize << (usize::BITS - 1);
    assert_eq!(align_forward(top - 5, top), top);
}

#[test]
fn padding_is_the_least_that_is_aligned_and_holds_the_header() {
    for shift in 0..8u32 {
        let align = 1usize << shift;
        for ptr in 0..70usize {
            for header in 0..40usize {
                let padding = calc_padding_with_header(ptr, align, header);
                assert_eq!((ptr + padding) % align, 0);
                assert!(padding >= header);
                // no smaller padding does both
                for less in header..padding {
                    assert_ne!((ptr + less) % align, 0);
                }
            }
        }
    }
    assert_eq!(calc_padding_with_header(0, 8, 16), 16);
    assert_eq!(calc_padding_with_header(20, 8, 16), 20);
    assert_eq!(calc_padding_with_header(8, 8, 0), 0);
    assert_eq!(calc_padding_with_header(9, 8, 0), 7);
    assert_eq!(calc_padding_with_header(320, 256, 16), 192);
}
