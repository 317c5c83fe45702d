use paramo::counter::data_frequencies;
use paramo::sorter::sort;

#[test]
fn test_sort() {
    let mut s = vec![6, 2, 1, 7, 3];
    sort(&mut s);
    println!("{:?}", s)
}

#[test]
fn sort_orders_ascending() {
    let mut s = vec![6, 2, 1, 7, 3];
    sort(&mut s);
    assert_eq!(s, vec![1, 2, 3, 6, 7]);
    let mut t: Vec<i32> = Vec::new();
    sort(&mut t);
    assert_eq!(t, Vec::<i32>::new());
    let mut u = vec![5, 5, 5, 1, 9, 1];
    sort(&mut u);
    assert_eq!(u, vec![1, 1, 5, 5, 5, 9]);
}

#[test]
fn byte_counter_builds_table() {
    let data = vec![1u8, 1, 2];
    let q = paramo::queue::frequency_counter(&data).unwrap();
    // a fresh symbol goes to the front of the table
    assert_eq!(q.data.len(), 2);
    assert_eq!(q.data[0].0, 2);
    assert_eq!(q.data[0].1, 1);
    assert_eq!(q.data[1].0, 1);
    assert_eq!(q.data[1].1, 2);
    assert!(paramo::queue::frequency_counter(&Vec::new()).is_none());
}

#[test]
fn char_counter_builds_table() {
    let data = b"hello".to_vec();
    let q = paramo::frequency::frequency_counter(&data).unwrap();
    assert_eq!(q.data.len(), 4);
    // front to back: most recently discovered first
    assert_eq!(q.data[0].0, 'o');
    assert_eq!(q.data[0].1, 1);
    assert_eq!(q.data[1].0, 'l');
    assert_eq!(q.data[1].1, 2);
    assert_eq!(q.data[2].0, 'e');
    assert_eq!(q.data[2].1, 1);
    assert_eq!(q.data[3].0, 'h');
    assert_eq!(q.data[3].1, 1);
    assert!(paramo::frequency::frequency_counter(&Vec::new()).is_none());
}

#[test]
fn counted_nodes_come_out_sorted() {
    let data = b"aabbbc".to_vec();
    let freq = data_frequencies(&data);
    assert_eq!(freq.nodes.len(), 3);
    // ascending by count
    assert_eq!(freq.nodes[0].count, 1);
    assert_eq!(freq.nodes[0].datum, b'c');
    assert_eq!(freq.nodes[1].count, 2);
    assert_eq!(freq.nodes[1].datum, b'a');
    assert_eq!(freq.nodes[2].count, 3);
    assert_eq!(freq.nodes[2].datum, b'b');
}

#[test]
fn heap_encoder_emits_whole_bytes() {
    // A=4, B=4: one-bit codes; eight input bytes give exactly one byte
    let data = b"AAAABBBB".to_vec();
    let q = paramo::queue::frequency_counter(&data).unwrap();
    let mut enc = paramo::heap::HuffmanEncoder::new(q.data, &data);
    // B heads the table and takes the left edge: A = 1, B = 0
    assert_eq!(enc.encode().unwrap(), vec![0xF0]);
    // a trailing partial byte is dropped
    let short = b"AAAB".to_vec();
    let q2 = paramo::queue::frequency_counter(&short).unwrap();
    let mut enc2 = paramo::heap::HuffmanEncoder::new(q2.data, &short);
    assert_eq!(enc2.encode().unwrap(), Vec::<u8>::new());
}
