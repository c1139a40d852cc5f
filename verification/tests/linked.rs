use rusty_awa::abyss::Abyss as Store;
use rusty_awa::arena::{Arena, Index};
use rusty_awa::linked::Abyss;

fn leaves(abyss: &mut Abyss) -> Vec<isize> {
    abyss
        .consume(|v| Ok::<isize, ()>(v))
        .unwrap()
        .unwrap()
}

#[test]
fn arena_insert_get_remove() {
    let mut arena: Arena<u32> = Arena::new();
    let a = arena.insert(7);
    let b = arena.insert(9);
    assert_eq!(arena.get(a), Some(&7));
    assert_eq!(arena.get(b), Some(&9));
    assert_eq!(arena.remove(a), Some(7));
    assert_eq!(arena.get(a), None);
    assert_eq!(arena.remove(a), None);
    let c = arena.insert(11);
    assert_eq!(c, a);
    assert_eq!(arena.get(Index(5)), None);
}

#[test]
fn blow_merge_pop() {
    let mut abyss = Abyss::new();
    assert!(abyss.is_empty());
    abyss.blow(1);
    abyss.blow(2);
    abyss.blow(3);
    assert_eq!(abyss.surround(3), Some(()));
    assert_eq!(abyss.count(), Some(()));
    assert_eq!(leaves(&mut abyss), vec![3]);
    assert_eq!(leaves(&mut abyss), vec![3, 2, 1]);
    assert!(abyss.is_empty());
}

#[test]
fn combine_spreads_a_number_over_a_row() {
    let mut abyss = Abyss::new();
    abyss.blow(10);
    abyss.blow(20);
    abyss.surround(2);
    abyss.blow(1);
    assert_eq!(abyss.combine_single(|a, b| a - b), Some(()));
    assert_eq!(leaves(&mut abyss), vec![-19, -9]);
    assert!(abyss.is_empty());
}
