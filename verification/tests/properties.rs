use skiplist::height_for;
use skiplist::userlen_of_slice;
use skiplist::ItemMarker;
use skiplist::LastMarker;
use skiplist::ListItem;
use skiplist::NotifyTarget;
use skiplist::SimpleApi;
use skiplist::SkipList;
use skiplist::UnitItem;

#[derive(Debug, PartialEq, Eq, Copy, Clone)]
struct Byte(u8);

impl UnitItem for Byte {}

#[derive(Debug, PartialEq, Eq, Copy, Clone)]
struct Run(u32);

impl ListItem for Run {
    fn get_usersize(&self) -> usize {
        self.0 as usize
    }

    fn split_item(&self, at: usize) -> (Self, Self) {
        (Run(at as u32), Run(self.0 - at as u32))
    }
}

fn bytes(n: usize) -> Vec<Byte> {
    (0..n).map(|i| Byte((i % 251) as u8)).collect()
}

fn collect<Item: ListItem + Copy>(list: &SkipList<Item>) -> Vec<Item> {
    let mut out = Vec::new();
    let mut it = list.iter();
    while let Some(item) = it.next() {
        out.push(*item);
    }
    out
}

#[test]
fn fresh_list_is_empty() {
    let list = SkipList::<Byte>::new();
    assert_eq!(list.len_items(), 0);
    assert_eq!(list.len_user(), 0);
    assert_eq!(list.height(), 1);
    let mut it = list.iter();
    assert_eq!(it.size_hint(), (0, Some(0)));
    assert!(it.next().is_none());
    assert!(it.next().is_none());
    assert!(list.check());
    assert_eq!(list.node_lens(), Vec::<usize>::new());
}

#[test]
fn default_list_is_empty() {
    let list: SkipList<Byte> = Default::default();
    assert_eq!(list.len_items(), 0);
    assert!(list.to_vec().is_empty());
}

#[test]
fn lengths_follow_the_items() {
    let list = SkipList::new_from_iter(vec![Run(3), Run(0), Run(4), Run(1)]);
    assert_eq!(list.len_items(), 4);
    assert_eq!(list.len_user(), 8);
    assert!(list.check());
}

#[test]
fn iteration_gives_the_items_in_order() {
    let content = bytes(777);
    let list = SkipList::new_from_slice(&content);
    assert_eq!(collect(&list), content);
    assert_eq!(list.to_vec(), content);
    let mut it = list.iter();
    assert_eq!(it.size_hint(), (777, Some(777)));
    assert_eq!(it.next(), Some(&content[0]));
    assert_eq!(it.size_hint(), (776, Some(776)));
}

#[test]
fn edit_stands_at_the_position_asked_for() {
    let mut list = SkipList::new_from_iter(vec![Run(5), Run(4), Run(3)]);
    for p in 0..=12usize {
        let (edit, offset) = (&mut list).edit(p);
        assert_eq!(edit.user_position(), p);
        let expected = match p {
            0 | 5 | 9 | 12 => 0,
            1..=4 => p,
            6..=8 => p - 5,
            _ => p - 9,
        };
        assert_eq!(offset, expected);
    }
    assert!(list.check());
}

#[test]
fn position_lands_on_the_first_of_equal_places() {
    let mut list = SkipList::new_from_iter(vec![Run(2), Run(0), Run(0), Run(1)]);
    let (edit, offset) = (&mut list).edit(2);
    assert_eq!(offset, 0);
    assert_eq!(edit.prev_item(), Some(&Run(2)));
    assert_eq!(edit.current_item(), Some(&Run(0)));
}

#[test]
fn inserting_nothing_and_deleting_nothing_changes_nothing() {
    let content = bytes(345);
    let mut list = SkipList::new_from_slice(&content);
    for p in [0usize, 1, 99, 100, 101, 200, 344, 345] {
        list.insert_at(p, Vec::new());
        list.del_at(p, 0);
        assert_eq!(list.to_vec(), content);
        assert!(list.check());
    }
}

#[test]
fn insert_then_delete_gives_back_the_list() {
    let content = bytes(230);
    let extra: Vec<Byte> = (0..150).map(|i| Byte(200 + (i % 50) as u8)).collect();
    for p in [0usize, 1, 57, 100, 200, 229, 230] {
        let mut list = SkipList::new_from_slice(&content);
        list.insert_at(p, extra.clone());
        assert_eq!(list.len_items(), 380);
        list.del_at(p, extra.len());
        assert_eq!(list.to_vec(), content);
        assert_eq!(list.len_user(), 230);
        assert!(list.check());
    }
}

#[test]
fn replacing_by_equal_sizes_keeps_the_user_size() {
    let mut list = SkipList::new_from_iter(vec![Run(5), Run(4), Run(3), Run(2), Run(1)]);
    list.replace_at(5, 2, vec![Run(6), Run(1)]);
    assert_eq!(list.to_vec(), vec![Run(5), Run(6), Run(1), Run(2), Run(1)]);
    assert_eq!(list.len_user(), 15);
    assert!(list.check());
}

#[test]
fn replace_with_more_and_with_fewer_items() {
    let mut list = SkipList::new_from_slice(&bytes(10));
    list.replace_at(2, 3, vec![Byte(100)]);
    let mut expected = bytes(10);
    expected.splice(2..5, vec![Byte(100)]);
    assert_eq!(list.to_vec(), expected);
    list.replace_at(0, 1, vec![Byte(7), Byte(8), Byte(9)]);
    expected.splice(0..1, vec![Byte(7), Byte(8), Byte(9)]);
    assert_eq!(list.to_vec(), expected);
    list.replace_at_slice(3, 0, &[]);
    assert_eq!(list.to_vec(), expected);
    assert!(list.check());
}

#[test]
fn insert_at_start_end_and_node_boundary() {
    let content = bytes(300);
    let extra = vec![Byte(255), Byte(254)];
    for p in [0usize, 100, 200, 300] {
        let mut list = SkipList::new_from_slice(&content);
        list.insert_at(p, extra.clone());
        let mut expected = content.clone();
        expected.splice(p..p, extra.clone());
        assert_eq!(list.to_vec(), expected);
        assert!(list.check());
    }
}

#[test]
fn insert_behind_the_end_goes_to_the_end() {
    let mut list = SkipList::new_from_slice(&bytes(3));
    list.insert_at(1000, vec![Byte(9)]);
    assert_eq!(list.to_vec(), vec![Byte(0), Byte(1), Byte(2), Byte(9)]);
}

#[test]
fn insert_inside_an_item_cuts_it() {
    let mut list = SkipList::new_from_iter(vec![Run(5), Run(2)]);
    list.insert_at(1, vec![Run(10)]);
    assert_eq!(list.to_vec(), vec![Run(1), Run(10), Run(4), Run(2)]);
    assert_eq!(list.len_user(), 17);
    list.insert_at(13, Vec::new());
    assert_eq!(list.to_vec(), vec![Run(1), Run(10), Run(2), Run(2), Run(2)]);
    assert_eq!(list.len_user(), 17);
    assert!(list.check());
}

#[test]
fn many_items_fill_many_nodes() {
    let content = bytes(1000);
    let list = SkipList::new_from_slice(&content);
    let lens = list.node_lens();
    assert_eq!(lens, vec![100; 10]);
    assert!(list.height() >= 1 && list.height() <= 10);
    assert!(list.check());
}

#[test]
fn items_that_fit_go_into_the_node_at_hand() {
    let mut list = SkipList::new_from_slice(&bytes(50));
    list.insert_at(50, bytes(30));
    assert_eq!(list.node_lens(), vec![80]);
    list.insert_at(10, bytes(20));
    assert_eq!(list.node_lens(), vec![100]);
    list.insert_at(40, bytes(1));
    assert_eq!(list.node_lens(), vec![40, 1, 60]);
    list.insert_at(41, bytes(5));
    assert_eq!(list.node_lens(), vec![40, 6, 60]);
    list.insert_at(40, bytes(3));
    assert_eq!(list.node_lens(), vec![43, 6, 60]);
    assert!(list.check());
}

#[test]
fn delete_over_node_boundaries_frees_whole_nodes() {
    let content = bytes(500);
    let mut list = SkipList::new_from_slice(&content);
    assert_eq!(list.node_lens(), vec![100; 5]);
    list.del_at(150, 270);
    assert_eq!(list.node_lens(), vec![100, 50, 80]);
    let mut expected = content.clone();
    expected.drain(150..420);
    assert_eq!(list.to_vec(), expected);
    list.del_at(100, 50);
    assert_eq!(list.node_lens(), vec![100, 80]);
    list.del_at(0, 100);
    assert_eq!(list.node_lens(), vec![80]);
    list.del_at(0, 80);
    assert_eq!(list.node_lens(), Vec::<usize>::new());
    assert_eq!(list.len_items(), 0);
    assert!(list.check());
}

#[test]
fn freed_nodes_are_used_again() {
    let mut list = SkipList::new_from_slice(&bytes(400));
    list.del_at(100, 200);
    list.insert_at(100, bytes(250));
    assert_eq!(list.len_items(), 450);
    assert!(list.check());
    let mut expected = bytes(400);
    expected.drain(100..300);
    expected.splice(100..100, bytes(250));
    assert_eq!(list.to_vec(), expected);
}

#[test]
fn same_seed_gives_the_same_heights() {
    let mut a = SkipList::<Byte>::new();
    let mut b = SkipList::<Byte>::new();
    a.init_rng_from_seed(42);
    b.init_rng_from_seed(42);
    a.insert_at(0, bytes(5000));
    b.insert_at(0, bytes(5000));
    assert_eq!(a.height(), b.height());
    assert_eq!(a.to_vec(), b.to_vec());
    assert!(a.check());
}

#[test]
fn edit_steps_inserts_and_deletes() {
    let mut list = SkipList::new_from_slice(&bytes(6));
    let mut edit = (&mut list).edit_exact(2);
    assert_eq!(edit.user_position(), 2);
    edit.advance_item();
    assert_eq!(edit.user_position(), 3);
    assert_eq!(edit.prev_item(), Some(&Byte(2)));
    edit.insert(Byte(50));
    edit.insert_slice(&[Byte(51), Byte(52)]);
    assert_eq!(edit.user_position(), 6);
    edit.del(2);
    edit.replace(1, vec![Byte(60), Byte(61)]);
    edit.replace_prev_item(Byte(62));
    edit.modify_prev_item(|item| item.0 += 1);
    assert_eq!(edit.current_item(), None);
    assert_eq!(list.to_vec(), vec![Byte(0), Byte(1), Byte(2), Byte(50), Byte(51), Byte(52), Byte(60), Byte(63)]);
    assert!(list.check());
}

#[test]
fn modify_changes_sizes_at_every_level() {
    let runs: Vec<Run> = (0..600).map(|i| Run(1 + (i % 3) as u32)).collect();
    let mut list = SkipList::new_from_slice(&runs);
    let before = list.len_user();
    let mut edit = (&mut list).edit_exact(0);
    edit.modify_current_item(|item| item.0 = 100);
    assert_eq!(edit.user_position(), 100);
    assert_eq!(list.len_user(), before + 99);
    let (edit, offset) = (&mut list).edit(100);
    assert_eq!(offset, 0);
    assert_eq!(edit.prev_item(), Some(&Run(100)));
    assert!(list.check());
}

#[test]
fn insert_between_with_an_edit() {
    let mut list = SkipList::new_from_iter(vec![Run(6)]);
    let (mut edit, offset) = (&mut list).edit(4);
    assert_eq!(offset, 4);
    edit.insert_between(offset, Run(9));
    assert_eq!(edit.user_position(), 15);
    assert_eq!(list.to_vec(), vec![Run(4), Run(9), Run(2)]);
    assert!(list.check());
}

#[derive(Debug, PartialEq, Eq, Copy, Clone)]
struct Tag(u32);

impl UnitItem for Tag {}

struct TagRecorder {
    seen: Vec<(Vec<Tag>, ItemMarker<Tag>)>,
}

impl NotifyTarget<Tag> for TagRecorder {
    fn notify(&mut self, items: &[Tag], at_marker: ItemMarker<Tag>) {
        self.seen.push((items.to_vec(), at_marker));
    }
}

#[test]
fn notifications_name_the_node_that_holds_the_items() {
    let mut recorder = TagRecorder { seen: Vec::new() };
    let mut list = SkipList::<Tag, TagRecorder>::new();
    let mut next: u32 = 0;
    for round in 0..40usize {
        let count = 1 + (round * 37) % 130;
        let items: Vec<Tag> = (0..count)
            .map(|_| {
                next += 1;
                Tag(next)
            })
            .collect();
        let at = (round * 53) % (list.len_items() + 1);
        recorder.seen.clear();
        list.notify(&mut recorder).insert_at(at, items.clone());
        assert!(!recorder.seen.is_empty());
        let seen = recorder.seen.clone();
        let mut told: Vec<Tag> = Vec::new();
        for (slice, marker) in seen {
            assert!(!marker.is_null());
            assert!(list.has_marker(marker));
            assert!(!slice.is_empty());
            let first = slice[0];
            let found = list.edit_at_marker_exact(&mut recorder, marker, |item| *item == first);
            let mut edit = found.unwrap();
            for item in slice.iter() {
                assert_eq!(edit.current_item(), Some(item));
                edit.advance_item();
            }
            told.extend(slice.iter().filter(|item| items.contains(item)));
        }
        assert_eq!(told, items);
        assert!(list.check());
    }
}

struct Recorder {
    seen: Vec<(Vec<Byte>, ItemMarker<Byte>)>,
}

impl NotifyTarget<Byte> for Recorder {
    fn notify(&mut self, items: &[Byte], at_marker: ItemMarker<Byte>) {
        self.seen.push((items.to_vec(), at_marker));
    }
}

#[test]
fn replace_and_modify_notify_too() {
    let mut recorder = Recorder { seen: Vec::new() };
    let mut list = SkipList::<Byte, Recorder>::new_from_slice_n(&mut recorder, &bytes(5));
    assert_eq!(recorder.seen.len(), 1);
    assert_eq!(recorder.seen[0].0, bytes(5));
    recorder.seen.clear();
    list.notify(&mut recorder).replace_at(1, 2, vec![Byte(10), Byte(11)]);
    assert_eq!(recorder.seen.len(), 1);
    assert_eq!(recorder.seen[0].0, vec![Byte(10), Byte(11)]);
    recorder.seen.clear();
    list.notify(&mut recorder).modify_item_after(3, |item, _| item.0 = 77);
    assert_eq!(recorder.seen.len(), 1);
    assert_eq!(recorder.seen[0].0, vec![Byte(77)]);
    recorder.seen.clear();
    list.notify(&mut recorder).del_at(0, 2);
    assert!(recorder.seen.is_empty());
    assert_eq!(list.to_vec(), vec![Byte(11), Byte(77), Byte(4)]);
}

#[test]
fn marker_of_nothing() {
    let list = SkipList::<Byte>::new();
    let null = ItemMarker::<Byte>::null();
    assert!(null.is_null());
    assert!(!list.has_marker(null));
    assert!(ItemMarker::<Byte>::default().is_null());
    assert!(null == ItemMarker::<Byte>::null());
}

#[test]
fn predicate_that_never_holds_finds_nothing() {
    let mut recorder = Recorder { seen: Vec::new() };
    let mut list = SkipList::<Byte, Recorder>::new_from_iter_n(&mut recorder, bytes(3));
    let marker = recorder.seen[0].1;
    assert!(list.edit_at_marker(&mut recorder, marker, |_| None).is_none());
    let found = list.edit_at_marker(&mut recorder, marker, |item| if item.0 == 2 { Some(0) } else { None });
    let (edit, offset) = found.unwrap();
    assert_eq!(offset, 0);
    assert_eq!(edit.user_position(), 2);
}

#[test]
fn slice_measure_adds_up() {
    assert_eq!(userlen_of_slice::<Run>(&[]), 0);
    assert_eq!(userlen_of_slice(&[Run(3), Run(0), Run(9)]), 12);
    assert_eq!(userlen_of_slice(&[1u8, 2, 3]), 3);
    assert_eq!(userlen_of_slice(&[Some(1), None]), 2);
}

#[test]
fn common_types_are_items() {
    let mut list = SkipList::<u32>::new();
    list.insert_at(0, vec![7, 8, 9]);
    list.del_at(1, 1);
    assert!(list.eq_list(&[7u32, 9]));
    let pairs = SkipList::new_from_iter(vec![(1, 'a'), (2, 'b')]);
    assert_eq!(pairs.len_user(), 2);
}

#[test]
fn long_random_walk_keeps_everything_in_order() {
    let mut list = SkipList::<Run>::new();
    list.init_rng_from_seed(7);
    let mut oracle: Vec<Run> = Vec::new();
    let mut state: u64 = 12345;
    let mut step = || {
        state = state.wrapping_mul(6364136223846793005).wrapping_add(1442695040888963407);
        (state >> 33) as usize
    };
    for _ in 0..400 {
        let index = step() % (oracle.len() + 1);
        let userpos = userlen_of_slice(&oracle[..index]);
        match step() % 3 {
            0 => {
                let count = step() % 260;
                let items: Vec<Run> = (0..count).map(|_| Run((step() % 4) as u32)).collect();
                // The list puts items at the first place with that user
                // position; so does the oracle.
                let mut at = index;
                while at > 0 && oracle[at - 1].0 == 0 {
                    at -= 1;
                }
                oracle.splice(at..at, items.clone());
                list.insert_at(userpos, items);
            }
            1 => {
                let mut at = index;
                while at > 0 && oracle[at - 1].0 == 0 {
                    at -= 1;
                }
                let count = step() % 300;
                let count = count.min(oracle.len() - at);
                oracle.drain(at..at + count);
                list.del_at(userpos, count);
            }
            _ => {
                let mut at = index;
                while at > 0 && oracle[at - 1].0 == 0 {
                    at -= 1;
                }
                let removed = (step() % 150).min(oracle.len() - at);
                let count = step() % 150;
                let items: Vec<Run> = (0..count).map(|_| Run((step() % 4) as u32)).collect();
                oracle.splice(at..at + removed, items.clone());
                list.replace_at(userpos, removed, items);
            }
        }
        assert!(list.check());
        assert_eq!(list.len_items(), oracle.len());
        assert_eq!(list.len_user(), userlen_of_slice(&oracle));
        assert!(list.eq_list(&oracle));
        let lens = list.node_lens();
        assert_eq!(lens.iter().sum::<usize>(), oracle.len());
        assert!(lens.iter().all(|n| *n >= 1 && *n <= 100));
    }
    assert_eq!(list.to_vec(), oracle);
}

#[test]
fn last_marker_counts_and_remembers() {
    let mut sink = LastMarker::<Byte>::new();
    assert_eq!(sink.count, 0);
    assert!(sink.last.is_null());
    let mut list = SkipList::<Byte, LastMarker<Byte>>::new_from_iter_n(&mut sink, bytes(250));
    assert_eq!(sink.count, 3);
    assert!(list.has_marker(sink.last));
    let last = sink.last;
    let first = Byte(200);
    let edit = list.edit_at_marker_exact(&mut sink, last, |item| *item == first).unwrap();
    assert_eq!(edit.user_position(), 200);
    list.notify(&mut sink).del_at(0, 250);
    assert_eq!(sink.count, 3);
    assert!(!list.has_marker(last));
}

#[test]
fn edits_with_a_sink_by_position() {
    let mut sink = LastMarker::<Run>::new();
    let mut list = SkipList::<Run, LastMarker<Run>>::new();
    list.notify(&mut sink).insert_at_slice(0, &[Run(3), Run(4)]);
    let (mut edit, offset) = list.edit_n(&mut sink, 5);
    assert_eq!(offset, 2);
    edit.insert_between_iter(offset, vec![Run(1)]);
    assert_eq!(list.to_vec(), vec![Run(3), Run(2), Run(1), Run(2)]);
    let mut edit = list.edit_between_n(&mut sink, 3);
    edit.del(1);
    assert_eq!(edit.current_item(), Some(&Run(1)));
    list.notify(&mut sink).replace_at_slice(3, 1, &[Run(7), Run(7)]);
    assert_eq!(list.to_vec(), vec![Run(3), Run(7), Run(7), Run(2)]);
    assert_eq!(list.len_user(), 19);
    assert!(list.check());
    assert!(sink.count >= 4);
}

#[test]
fn height_follows_the_bytes_drawn() {
    assert_eq!(height_for(&[]), 1);
    assert_eq!(height_for(&[100]), 1);
    assert_eq!(height_for(&[255, 0, 0]), 1);
    assert_eq!(height_for(&[99]), 2);
    assert_eq!(height_for(&[0, 99, 100, 0]), 3);
    assert_eq!(height_for(&[7, 7, 7, 7]), 5);
    assert_eq!(height_for(&[0; 9]), 10);
    assert_eq!(height_for(&[0; 40]), 10);
    assert_eq!(height_for(&[0, 0, 0, 0, 0, 0, 0, 0, 200]), 9);
}

#[test]
fn sinks_say_whether_they_listen() {
    assert!(!<() as NotifyTarget<Byte>>::notifications_used());
    assert!(<LastMarker<Byte> as NotifyTarget<Byte>>::notifications_used());
}

#[test]
fn seeding_leaves_the_items_alone() {
    let mut list = SkipList::<Byte>::new_from_iter(bytes(350));
    let lens = list.node_lens();
    let height = list.height();
    list.init_rng_from_seed(77);
    assert_eq!(list.to_vec(), bytes(350));
    assert_eq!(list.node_lens(), lens);
    assert_eq!(list.height(), height);
    assert!(list.check());
    let mut other = SkipList::<Byte>::new();
    other.init_rng_from_seed(77);
    let mut twin = SkipList::<Byte>::new();
    twin.init_rng_from_seed(77);
    for round in 0..30 {
        other.insert_at(round * 50, bytes(120));
        twin.insert_at(round * 50, bytes(120));
        assert_eq!(other.height(), twin.height());
    }
    assert!(other.height() > 1);
    assert!(other.check());
}
