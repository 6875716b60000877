use holidays::heap::MinHeap;

#[test]
fn the_heap_yields_entries_by_ascending_position() {
    let mut heap = MinHeap::with_capacity(4);
    assert_eq!(heap.peek(), None);
    assert_eq!(heap.pop(), None);
    for entry in [(40usize, 0usize), (10, 1), (30, 2), (20, 3), (50, 4), (5, 5), (25, 6)] {
        heap.push(entry);
    }
    assert_eq!(heap.peek(), Some((5, 5)));
    let mut found = Vec::new();
    while let Some(entry) = heap.pop() {
        found.push(entry);
    }
    assert_eq!(found, vec![(5, 5), (10, 1), (20, 3), (25, 6), (30, 2), (40, 0), (50, 4)]);
    assert_eq!(heap.pop(), None);
}

#[test]
fn the_heap_takes_entries_between_pops() {
    let mut heap = MinHeap::with_capacity(0);
    let mut state: usize = 12345;
    let mut held: Vec<usize> = Vec::new();
    let mut next_id = 0;
    for round in 0..2000 {
        state = state.wrapping_mul(6364136223846793005).wrapping_add(1442695040888963407);
        let position = (state >> 33) % 100000;
        if round % 3 == 2 {
            let smallest = held.iter().copied().min();
            assert_eq!(heap.pop().map(|e| e.0), smallest);
            if let Some(smallest) = smallest {
                let at = held.iter().position(|&p| p == smallest).unwrap();
                held.swap_remove(at);
            }
        } else {
            heap.push((position, next_id));
            held.push(position);
            next_id += 1;
        }
    }
    held.sort();
    let mut rest = Vec::new();
    while let Some(entry) = heap.pop() {
        rest.push(entry.0);
    }
    assert_eq!(rest, held);
}
