use media_parser::sessions::{sessions_after_insert, sessions_after_lookup};

struct Pool {
    capacity: usize,
    held: Vec<(&'static str, u64)>,
    builds: usize,
}

impl Pool {
    fn arrange(&mut self, order: &[usize]) {
        self.held = order.iter().map(|&i| self.held[i]).collect();
    }

    /// Looks a session up, and builds one that ends at `end` where none is held.
    fn get(&mut self, key: &'static str, now: u64, end: u64) {
        let ends: Vec<u64> = self.held.iter().map(|h| h.1).collect();
        let found = self.held.iter().position(|h| h.0 == key);
        self.arrange(&sessions_after_lookup(&ends, now, found));
        if self.held.iter().any(|h| h.0 == key) {
            return;
        }
        let ends: Vec<u64> = self.held.iter().map(|h| h.1).collect();
        self.arrange(&sessions_after_insert(&ends, now, None, self.capacity));
        self.held.push((key, end));
        self.builds += 1;
    }
}

#[test]
fn sessions_obey_their_ends_and_the_order_of_use() {
    let mut pool = Pool { capacity: 2, held: Vec::new(), builds: 0 };
    pool.get("first", 0, 60);
    pool.get("second", 0, 60);
    // The first is used again, so that the second makes room for the third.
    pool.get("first", 0, 60);
    assert_eq!(pool.builds, 2);
    pool.get("third", 0, 60);
    assert_eq!(pool.held, vec![("first", 60), ("third", 60)]);
    pool.get("second", 0, 0);
    // A session that ends at once is built again.
    pool.get("second", 0, 60);
    assert_eq!(pool.builds, 5);
}

#[test]
fn a_lookup_drops_what_ended_and_moves_what_it_finds() {
    assert_eq!(sessions_after_lookup(&[9, 3, 9, 9], 3, Some(0)), vec![2, 3, 0]);
    assert_eq!(sessions_after_lookup(&[9, 3, 9, 9], 3, Some(1)), vec![0, 2, 3]);
    assert_eq!(sessions_after_lookup(&[9, 3], 2, None), vec![0, 1]);
    assert_eq!(sessions_after_lookup(&[], 2, Some(4)), Vec::<usize>::new());
}

#[test]
fn an_insert_leaves_room_for_the_new_session() {
    assert_eq!(sessions_after_insert(&[9, 9, 9], 0, None, 3), vec![1, 2]);
    assert_eq!(sessions_after_insert(&[9, 9, 9], 0, Some(1), 3), vec![0, 2]);
    // What ended makes room first.
    assert_eq!(sessions_after_insert(&[9, 5, 9], 5, None, 3), vec![0, 2]);
    assert_eq!(sessions_after_insert(&[9, 9], 0, None, 8), vec![0, 1]);
    assert_eq!(sessions_after_insert(&[9, 9], 0, None, 1), Vec::<usize>::new());
    assert_eq!(sessions_after_insert(&[9, 9], 0, None, 0), Vec::<usize>::new());
}
