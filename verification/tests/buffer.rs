use bitplanes::{AlpError, AlpResult, Bitplanes, Control, DataFormat};

fn checkerboard(p: usize, x: usize, y: usize) -> bool {
    (p + x + y) % 2 == 0
}

#[test]
fn new_buffer_reads_false_everywhere() {
    let b = Bitplanes::new(3, 13, 5);
    for p in 0..3 {
        for y in 0..5 {
            for x in 0..13 {
                assert!(!b.get(p, x, y));
            }
        }
    }
}

#[test]
fn new_geometry_exact() {
    let b = Bitplanes::new(3, 10, 2);
    assert_eq!(b.planes(), 3);
    assert_eq!(b.width(), 10);
    assert_eq!(b.height(), 2);
    assert_eq!(b.row_stride(), 2);
    assert_eq!(b.plane_stride(), 4);
    assert_eq!(b.as_slice().len(), 12);
}

#[test]
fn set_writes_documented_byte_and_bit() {
    let mut b = Bitplanes::new(3, 10, 2);
    b.set(1, 9, 1, true);
    assert!(b.get(1, 9, 1));
    let raw = b.as_slice();
    assert_eq!(raw[7], 0b0100_0000);
    for (i, byte) in raw.iter().enumerate() {
        if i != 7 {
            assert_eq!(*byte, 0);
        }
    }
    for p in 0..3 {
        for y in 0..2 {
            for x in 0..10 {
                assert_eq!(b.get(p, x, y), p == 1 && x == 9 && y == 1);
            }
        }
    }
}

#[test]
fn set_then_get_round_trip_and_frame() {
    let mut b = Bitplanes::from_fn(2, 9, 3, checkerboard);
    b.set(1, 4, 2, true);
    assert!(b.get(1, 4, 2));
    for p in 0..2 {
        for y in 0..3 {
            for x in 0..9 {
                if !(p == 1 && x == 4 && y == 2) {
                    assert_eq!(b.get(p, x, y), checkerboard(p, x, y));
                }
            }
        }
    }
    b.set(1, 4, 2, false);
    assert!(!b.get(1, 4, 2));
}

#[test]
fn fill_true_then_false() {
    let mut b = Bitplanes::new(2, 11, 4);
    b.fill(true);
    for p in 0..2 {
        for y in 0..4 {
            for x in 0..11 {
                assert!(b.get(p, x, y));
            }
        }
    }
    for byte in b.as_slice() {
        assert_eq!(*byte, 0xff);
    }
    b.fill(false);
    for p in 0..2 {
        for y in 0..4 {
            for x in 0..11 {
                assert!(!b.get(p, x, y));
            }
        }
    }
    for byte in b.as_slice() {
        assert_eq!(*byte, 0x00);
    }
}

#[test]
fn from_fn_visits_every_coordinate() {
    let b = Bitplanes::from_fn(3, 17, 4, checkerboard);
    for p in 0..3 {
        for y in 0..4 {
            for x in 0..17 {
                assert_eq!(b.get(p, x, y), checkerboard(p, x, y));
            }
        }
    }
}

#[test]
fn fill_from_fn_overwrites_previous_content() {
    let mut b = Bitplanes::new(2, 6, 2);
    b.fill(true);
    b.fill_from_fn(|p: usize, x: usize, y: usize| p == 0 && x == y);
    for p in 0..2 {
        for y in 0..2 {
            for x in 0..6 {
                assert_eq!(b.get(p, x, y), p == 0 && x == y);
            }
        }
    }
}

#[test]
fn plane_range_full_reads_identically() {
    let b = Bitplanes::from_fn(4, 7, 3, checkerboard);
    let v = b.plane_range(0..4);
    assert_eq!(v.planes(), 4);
    for p in 0..4 {
        for y in 0..3 {
            for x in 0..7 {
                assert_eq!(v.get(p, x, y), b.get(p, x, y));
            }
        }
    }
    assert_eq!(v.as_slice(), b.as_slice());
}

#[test]
fn plane_range_partial_offsets_planes() {
    let b = Bitplanes::from_fn(4, 7, 3, checkerboard);
    let v = b.plane_range(1..3);
    assert_eq!(v.planes(), 2);
    assert_eq!(v.width(), 7);
    assert_eq!(v.height(), 3);
    for p in 0..2 {
        for y in 0..3 {
            for x in 0..7 {
                assert_eq!(v.get(p, x, y), b.get(p + 1, x, y));
            }
        }
    }
}

#[test]
fn plane_view_reads_one_plane() {
    let b = Bitplanes::from_fn(3, 5, 2, checkerboard);
    let v = b.plane(2);
    assert_eq!(v.planes(), 1);
    for y in 0..2 {
        for x in 0..5 {
            assert_eq!(v.get(0, x, y), b.get(2, x, y));
        }
    }
}

#[test]
fn split_concat_reproduces_raw_bytes() {
    let b = Bitplanes::from_fn(5, 9, 2, checkerboard);
    for p in 0..6 {
        let (head, tail) = b.split_at_plane(p);
        assert_eq!(head.planes(), p);
        assert_eq!(tail.planes(), 5 - p);
        let mut joined: Vec<u8> = Vec::new();
        joined.extend_from_slice(head.as_slice());
        joined.extend_from_slice(tail.as_slice());
        assert_eq!(joined.as_slice(), b.as_slice());
    }
}

#[test]
fn swap_planes_exchanges_content() {
    let mut b = Bitplanes::from_fn(3, 8, 2, checkerboard);
    let before = b.as_slice().to_vec();
    b.swap_planes(0, 2);
    for y in 0..2 {
        for x in 0..8 {
            assert_eq!(b.get(0, x, y), checkerboard(2, x, y));
            assert_eq!(b.get(2, x, y), checkerboard(0, x, y));
            assert_eq!(b.get(1, x, y), checkerboard(1, x, y));
        }
    }
    b.swap_planes(0, 2);
    assert_eq!(b.as_slice(), before.as_slice());
}

#[test]
fn swap_planes_twice_restores_unaligned_pattern() {
    let mut b = Bitplanes::from_fn(4, 11, 3, |p: usize, x: usize, y: usize| (p * x + y) % 3 == 1);
    let before = b.as_slice().to_vec();
    b.swap_planes(3, 1);
    b.swap_planes(3, 1);
    assert_eq!(b.as_slice(), before.as_slice());
}

#[test]
fn copy_exact_match_is_byte_identical() {
    let a = Bitplanes::from_fn(2, 13, 3, checkerboard);
    let mut b = Bitplanes::new(2, 13, 3);
    b.fill(true);
    b.copy_from(&a);
    assert_eq!(b.as_slice(), a.as_slice());
}

#[test]
fn copy_across_plane_padding() {
    let a = Bitplanes::from_fn(2, 13, 3, checkerboard);
    // Same width and row stride, but each plane padded by three extra bytes.
    let mut b = Bitplanes::with_strides(2, 13, 3, 2, 9);
    b.fill(true);
    b.copy_from(&a);
    for p in 0..2 {
        for y in 0..3 {
            for x in 0..13 {
                assert_eq!(b.get(p, x, y), a.get(p, x, y));
            }
        }
    }
}

#[test]
fn copy_across_row_padding() {
    // Width 5 packs into one byte; the destination uses two bytes per row.
    let mut a = Bitplanes::new(2, 5, 4);
    a.fill_from_fn(|p: usize, x: usize, y: usize| (p + 2 * x + y) % 3 == 0);
    let mut b = Bitplanes::with_strides(2, 5, 4, 2, 8);
    b.fill(true);
    b.copy_from(&a);
    for p in 0..2 {
        for y in 0..4 {
            for x in 0..5 {
                assert_eq!(b.get(p, x, y), a.get(p, x, y));
            }
        }
    }
    // The logical content agrees though the raw regions differ in size.
    assert_eq!(a.as_slice().len(), 8);
    assert_eq!(b.as_slice().len(), 16);
}

#[test]
fn copy_from_wider_rows_back_to_tight_rows() {
    let mut a = Bitplanes::with_strides(1, 5, 2, 2, 4);
    a.fill_from_fn(|_p: usize, x: usize, y: usize| x == y);
    let mut b = Bitplanes::new(1, 5, 2);
    b.copy_from(&a);
    for y in 0..2 {
        for x in 0..5 {
            assert_eq!(b.get(0, x, y), x == y);
        }
    }
}

#[test]
fn to_owned_is_deep_copy() {
    let mut a = Bitplanes::from_fn(2, 6, 2, checkerboard);
    let b = a.to_owned();
    assert_eq!(b.as_slice(), a.as_slice());
    assert_eq!(b.planes(), a.planes());
    a.set(0, 0, 0, !a.get(0, 0, 0));
    // The copy does not follow later writes to the source.
    assert_ne!(b.get(0, 0, 0), a.get(0, 0, 0));
}

#[test]
fn as_slice_mut_writes_land_in_storage() {
    let mut b = Bitplanes::new(1, 8, 1);
    b.as_slice_mut()[0] = 0b1000_0001;
    assert!(b.get(0, 0, 0));
    assert!(b.get(0, 7, 0));
    assert!(!b.get(0, 1, 0));
}

#[test]
fn zero_sized_buffers_are_total() {
    let b = Bitplanes::new(0, 0, 0);
    assert_eq!(b.planes(), 0);
    assert_eq!(b.as_slice().len(), 0);
    let c = Bitplanes::new(2, 0, 3);
    assert_eq!(c.as_slice().len(), 0);
    let (h, t) = c.split_at_plane(1);
    assert_eq!(h.planes(), 1);
    assert_eq!(t.planes(), 1);
}

#[test]
fn padding_bits_do_not_leak_into_reads() {
    let mut b = Bitplanes::new(1, 5, 2);
    b.fill(true);
    // All padding bits are set; every in-range pixel still reads true, and
    // clearing one pixel leaves the rest readable.
    b.set(0, 4, 0, false);
    for y in 0..2 {
        for x in 0..5 {
            assert_eq!(b.get(0, x, y), !(x == 4 && y == 0));
        }
    }
}

#[test]
fn bounds_checked_accessors_reject_out_of_range() {
    let mut b = Bitplanes::new(2, 5, 3);
    assert_eq!(b.try_get(0, 4, 2), Some(false));
    assert_eq!(b.try_get(2, 0, 0), None);
    assert_eq!(b.try_get(0, 5, 0), None);
    assert_eq!(b.try_get(0, 0, 3), None);
    assert!(b.try_set(1, 4, 2, true));
    assert_eq!(b.try_get(1, 4, 2), Some(true));
    let before = b.as_slice().to_vec();
    assert!(!b.try_set(1, 5, 0, true));
    assert_eq!(b.as_slice(), before.as_slice());
}

#[test]
fn vendor_enums_compare_and_copy() {
    let e: AlpError = AlpError::MemoryFull;
    let e2 = e;
    assert_eq!(e, e2);
    assert_ne!(e, AlpError::Unknown);
    let r: AlpResult<u8> = Err(AlpError::NotOnline);
    assert!(r.is_err());
    assert_eq!(DataFormat::BinaryTopDown, DataFormat::BinaryTopDown);
    assert_ne!(Control::SeqRepeat, Control::DataFormat);
}
