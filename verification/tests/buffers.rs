use gloom_rs::buffers::{byte_size_of_array, offset, sequential_indices, size_of};

#[test]
fn byte_size_of_float_array() {
    let vertices: Vec<f32> = vec![0.0; 9];
    assert_eq!(byte_size_of_array(&vertices), 36);
}

#[test]
fn byte_size_of_index_and_byte_arrays() {
    let indices: Vec<u32> = vec![0, 1, 2, 3];
    assert_eq!(byte_size_of_array(&indices), 16);
    let bytes: Vec<u8> = vec![7; 5];
    assert_eq!(byte_size_of_array(&bytes), 5);
    let empty: Vec<u64> = Vec::new();
    assert_eq!(byte_size_of_array(&empty), 0);
}

#[test]
fn size_of_types() {
    assert_eq!(size_of::<f32>(), 4);
    assert_eq!(size_of::<u64>(), 8);
    assert_eq!(size_of::<[f32; 4]>(), 16);
    assert_eq!(size_of::<()>(), 0);
}

#[test]
fn offset_in_packed_buffer() {
    assert_eq!(offset::<f32>(3), 12);
    assert_eq!(offset::<u64>(0), 0);
    assert_eq!(offset::<[f32; 3]>(2), 24);
}

#[test]
fn indices_for_whole_vertices() {
    assert_eq!(sequential_indices(9), vec![0, 1, 2]);
    assert_eq!(sequential_indices(10), vec![0, 1, 2]);
    assert_eq!(sequential_indices(2), Vec::<u32>::new());
    assert_eq!(sequential_indices(0), Vec::<u32>::new());
}

#[test]
fn stride_of_colour_attribute() {
    // Four floats per colour, as the colour attribute is laid out.
    assert_eq!(4 * size_of::<f32>(), 16);
}
