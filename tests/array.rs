use dyn_array::{check_index, get_index, next_index, shape_len, DynArray};

#[test]
fn iterate() {
    let mut arr = DynArray::new([5, 5, 5], String::from("hi"));
    *arr.index_mut([1, 1, 1]) = String::from("bye");
    let mut it = arr.iter();
    while let Some((i, c)) = it.next() {
        if i == [1, 1, 1] {
            assert_eq!(c, "bye");
        }
    }

    let mut it = arr.iter_mut();
    while let Some((i, c)) = it.next() {
        if i == [1, 1, 1] {
            assert_eq!(c, "bye");
            *c = String::from("hello");
        }
    }
    assert_eq!(*arr.index([1, 1, 1]), String::from("hello"));

    *arr.index_mut([2, 2, 2]) = String::from("bye");
    let mut it = arr.into_iter();
    while let Some((i, c)) = it.next() {
        if i == [2, 2, 2] {
            assert_eq!(c, "bye");
        }
    }
}

#[test]
fn index() {
    let mut index = [4, 3, 4];
    let dims = [5, 5, 5];
    next_index(&mut index, &dims);
    assert_eq!(index, [0, 4, 4]);
    next_index(&mut index, &dims);
    assert_eq!(index, [1, 4, 4]);
    next_index(&mut index, &dims);
    assert_eq!(index, [2, 4, 4]);
    next_index(&mut index, &dims);
    assert_eq!(index, [3, 4, 4]);
    next_index(&mut index, &dims);
    assert_eq!(index, [4, 4, 4]);
    next_index(&mut index, &dims);
    assert_eq!(index, [0, 0, 5]);
}

#[test]
fn new_fills_every_cell() {
    let arr = DynArray::new([2, 3], 7u32);
    assert_eq!(arr.data().len(), 6);
    assert!(arr.data().iter().all(|x| *x == 7));
    for y in 0..3 {
        for x in 0..2 {
            assert_eq!(*arr.index([x, y]), 7);
        }
    }
    assert_eq!(arr.dims(), &[2, 3]);
    assert_eq!(arr.width(), 2);
    assert_eq!(arr.height(), 3);
}

#[test]
fn from_data_round_trip() {
    let data: Vec<u32> = (0..24).collect();
    let arr = DynArray::new_from_data([2, 3, 4], data.clone());
    assert_eq!(arr.data(), &data[..]);
    for z in 0..4 {
        for y in 0..3 {
            for x in 0..2 {
                assert_eq!(*arr.index([x, y, z]), data[x + 2 * y + 6 * z]);
            }
        }
    }
    assert_eq!(*arr.index([1, 2, 3]), 23);
    assert_eq!(*arr.index([0, 1, 0]), 2);
    assert_eq!(arr.width(), 2);
    assert_eq!(arr.height(), 3);
    assert_eq!(arr.depth(), 4);
}

#[test]
fn flat_offsets() {
    assert_eq!(get_index(&[5, 5, 5], &[0, 0, 0]), 0);
    assert_eq!(get_index(&[5, 5, 5], &[1, 2, 3]), 86);
    assert_eq!(get_index(&[5, 5, 5], &[4, 4, 4]), 124);
    assert_eq!(get_index(&[3, 7], &[2, 6]), 20);
    assert_eq!(get_index(&[9], &[8]), 8);
    assert_eq!(get_index(&[2, usize::MAX], &[1, 1]), 3);
}

#[test]
fn bounds_checks() {
    assert!(check_index(&[5, 5, 5], &[4, 4, 4]));
    assert!(check_index(&[5, 5, 5], &[0, 0, 0]));
    assert!(!check_index(&[5, 5, 5], &[5, 0, 0]));
    assert!(!check_index(&[5, 5, 5], &[0, 5, 0]));
    assert!(!check_index(&[5, 5, 5], &[0, 0, 5]));
    assert!(!check_index(&[5, 0], &[0, 0]));
    assert!(!check_index(&[5, 5, 5], &[0, 0, 5000]));
}

#[test]
fn cell_counts() {
    assert_eq!(shape_len(&[2, 3, 4]), Some(24));
    assert_eq!(shape_len(&[7]), Some(7));
    assert_eq!(shape_len(&[3, 0, usize::MAX]), Some(0));
    assert_eq!(shape_len(&[usize::MAX, 2]), None);
    assert_eq!(shape_len(&[usize::MAX, 1]), Some(usize::MAX));
}

#[test]
fn advance_one_dimension() {
    let mut index = [1];
    next_index(&mut index, &[3]);
    assert_eq!(index, [2]);
    next_index(&mut index, &[3]);
    assert_eq!(index, [3]);
}

#[test]
fn advance_wraps_lower_dimensions() {
    let mut index = [2, 1];
    next_index(&mut index, &[3, 4]);
    assert_eq!(index, [0, 2]);
    let mut index = [2, 3];
    next_index(&mut index, &[3, 4]);
    assert_eq!(index, [0, 4]);
}

#[test]
fn traversal_visits_each_cell_once_in_layout_order() {
    let data: Vec<u32> = (0..24).collect();
    let arr = DynArray::new_from_data([2, 3, 4], data);
    let mut seen = Vec::new();
    let mut it = arr.iter();
    while let Some((c, e)) = it.next() {
        let off = get_index(&[2, 3, 4], &c);
        assert_eq!(*e as usize, off);
        seen.push(off);
    }
    assert_eq!(seen, (0..24).collect::<Vec<usize>>());
    assert!(it.next().is_none());
}

#[test]
fn traversal_of_empty_shape_yields_nothing() {
    let arr = DynArray::new([3, 0], 1u8);
    assert_eq!(arr.data().len(), 0);
    assert!(arr.iter().next().is_none());
    let mut arr = arr;
    assert!(arr.iter_mut().next().is_none());
    assert!(arr.into_iter().next().is_none());
}

#[test]
fn mutable_traversal_writes_are_read_back() {
    let mut arr = DynArray::new([3, 2], 0i64);
    let mut it = arr.iter_mut();
    let mut n = 0;
    while let Some((c, e)) = it.next() {
        *e = (c[0] * 10 + c[1]) as i64;
        n += 1;
    }
    assert_eq!(n, 6);
    assert_eq!(*arr.index([2, 1]), 21);
    assert_eq!(*arr.index([0, 1]), 1);
    assert_eq!(arr.data(), &[0, 10, 20, 1, 11, 21]);
}

#[test]
fn owning_traversal_yields_each_element_once() {
    let data: Vec<String> = (0..6).map(|i| i.to_string()).collect();
    let arr = DynArray::new_from_data([2, 3], data.clone());
    let mut it = arr.into_iter();
    let mut out = Vec::new();
    while let Some((c, e)) = it.next() {
        assert_eq!(e, data[c[0] + 2 * c[1]]);
        out.push(e);
    }
    assert_eq!(out, data);
    assert!(it.next().is_none());
}

#[test]
fn data_mut_writes_are_seen_by_index() {
    let mut arr = DynArray::new([4], 0u8);
    arr.data_mut()[2] = 9;
    assert_eq!(*arr.index([2]), 9);
    assert_eq!(arr.width(), 4);
}

#[test]
fn clone_is_independent() {
    let a = DynArray::new([2, 2], String::from("a"));
    let mut b = a.clone();
    *b.index_mut([1, 1]) = String::from("b");
    assert_eq!(*a.index([1, 1]), "a");
    assert_eq!(*b.index([1, 1]), "b");
    assert_eq!(b.dims(), a.dims());
}
