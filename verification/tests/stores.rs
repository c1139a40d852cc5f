use rusty_awa::abyss::Abyss as Store;
use rusty_awa::arena::{Arena, Entry, Index};
use rusty_awa::awascii::AwaSCII;
use rusty_awa::buffered::{Buffer, BufferKind, Buffered};
use rusty_awa::linked::Abyss;
use rusty_awa::text::{decimal, parse_number_input};

fn text<A: Store>(abyss: &A) -> String {
    String::from_utf8(abyss.render()).unwrap()
}

#[test]
fn awascii_goes_to_ascii_and_back() {
    let table = "AWawJELYHOSIUMjelyhosiumPCNTpcntBDFGRbdfgr0123456789 .,!`()~_/;\n";
    assert_eq!(table.len(), 64);
    for (code, ascii) in table.bytes().enumerate() {
        let character = AwaSCII::new(code as u8).unwrap();
        assert_eq!(character.to_ascii(), ascii);
        assert_eq!(character.code(), code as u8);
        assert_eq!(AwaSCII::from_ascii(ascii), Some(character));
    }
    for ascii in 0..=255u8 {
        match AwaSCII::from_ascii(ascii) {
            Some(character) => assert_eq!(character.to_ascii(), ascii),
            None => assert!(!table.as_bytes().contains(&ascii)),
        }
    }
    assert_eq!(AwaSCII::new(64), None);
    assert_eq!(AwaSCII::new_unchecked(5).code(), 5);
}

#[test]
fn arena_hands_out_empty_slots_first() {
    let mut arena: Arena<&str> = Arena::with_capacity(4);
    let a = arena.insert("a");
    let b = arena.insert("b");
    let c = arena.insert("c");
    assert_eq!((a, b, c), (Index(0), Index(1), Index(2)));
    assert_eq!(arena.remove(b), Some("b"));
    assert_eq!(arena.remove(a), Some("a"));
    assert_eq!(arena.get(a), None);
    assert_eq!(arena.get(b), None);
    assert_eq!(arena.get(c), Some(&"c"));
    // The storage does not grow while a slot is empty.
    let d = arena.insert("d");
    let e = arena.insert("e");
    // The slot that was emptied last is taken first.
    assert_eq!((d, e), (a, b));
    assert_eq!(arena.insert("f"), Index(3));
    assert_eq!(arena.get(d), Some(&"d"));
    if let Some(slot) = arena.get_mut(e) {
        *slot = "E";
    }
    assert_eq!(arena.get(e), Some(&"E"));
    assert!(arena.get_mut(Index(9)).is_none());
    assert_eq!(arena.remove(Index(9)), None);
}

#[test]
fn entries_give_what_they_hold() {
    let mut full: Entry<u8> = Entry::Occupied(3);
    let free: Entry<u8> = Entry::Free(Some(Index(7)));
    if let Entry::Occupied(value) = full.as_mut() {
        *value = 4;
    }
    assert_eq!(full.into_occupied(), Some(4));
    assert_eq!(free.into_occupied(), None);
    assert_eq!(free.into_free(), Some(Some(Index(7))));
    assert_eq!(full.into_free(), None);
}

#[test]
fn no_handle_is_reached_twice() {
    let mut abyss = Abyss::with_capacity(8);
    for v in 0..6 {
        abyss.blow(v);
    }
    abyss.surround(3);
    abyss.duplicate();
    abyss.merge();
    abyss.duplicate();
    abyss.blow(9);
    abyss.combine_single(|a, b| a * b);
    abyss.submerge(1);
    abyss.count();
    abyss.combine_double(|a, b| a + b, |a, b| a - b);
    abyss.pop();
    let handles = abyss.handles();
    let mut sorted: Vec<usize> = handles.iter().map(|h| h.0).collect();
    sorted.sort();
    sorted.dedup();
    assert_eq!(sorted.len(), handles.len());
    assert_eq!(
        text(&abyss),
        "[11, 1]\n[10, 2]\n[9, 3]\n[11, 1]\n[10, 2]\n[9, 3]\n[45, 36, 27, 45, 36, 27]\n2\n1\n0\n"
    );
    assert_eq!(handles.len(), 3 * 6 + 7 + 3);
}

#[test]
fn awascii_text_is_blown_in_reading_order() {
    let word: Vec<AwaSCII> = b"awa".iter().map(|c| AwaSCII::from_ascii(*c).unwrap()).collect();
    let mut abyss = Abyss::new();
    abyss.blow_awascii(&word);
    abyss.blow_awascii(&[]);
    assert_eq!(text(&abyss), "0\n[2, 3, 2]\n");
    let mut buffered = Buffered::from_inner(Abyss::new());
    buffered.blow_awascii(&word);
    buffered.blow_awascii(&[]);
    assert_eq!(text(&buffered), "0\n[2, 3, 2]\n");
    assert_eq!(text(&buffered.into_inner()), "0\n[2, 3, 2]\n");
}

#[test]
fn test_compares_the_top_with_the_one_below() {
    let mut abyss = Abyss::new();
    assert_eq!(abyss.test(|a, b| a < b), None);
    abyss.blow(2);
    assert_eq!(abyss.test(|a, b| a < b), None);
    abyss.blow(1);
    assert_eq!(abyss.test(|a, b| a < b), Some(true));
    assert_eq!(abyss.test(|a, b| a > b), Some(false));
    abyss.surround(1);
    assert_eq!(abyss.test(|_, _| true), Some(false));
    assert_eq!(text(&abyss), "[1]\n2\n");
}

#[test]
fn consume_stops_at_the_first_error() {
    let mut abyss = Abyss::new();
    assert_eq!(abyss.consume(|v| Ok::<isize, isize>(v)), Ok(None));
    abyss.blow(3);
    abyss.blow(2);
    abyss.blow(1);
    abyss.surround(3);
    let odd = |v: isize| if v % 2 == 1 { Ok(v * 10) } else { Err(v) };
    assert_eq!(abyss.consume(odd), Err(2));
    assert_eq!(text(&abyss), "[1, 2, 3]\n");
    assert_eq!(abyss.consume(|v| Ok::<isize, isize>(v * 10)), Ok(Some(vec![10, 20, 30])));
    assert!(abyss.is_empty());
}

#[test]
fn can_divide_looks_at_every_pair() {
    let mut abyss = Abyss::new();
    assert_eq!(abyss.can_divide(), None);
    abyss.blow(0);
    abyss.blow(5);
    assert_eq!(abyss.can_divide(), Some(false));
    abyss.submerge(0);
    assert_eq!(abyss.can_divide(), Some(true));
    abyss.blow(-1);
    abyss.blow(isize::MIN);
    assert_eq!(abyss.can_divide(), Some(false));
    abyss.pop();
    abyss.blow(3);
    abyss.blow(0);
    abyss.surround(2);
    // -1 is divided by 3, and by 0.
    abyss.submerge(1);
    assert_eq!(text(&abyss), "-1\n[0, 3]\n0\n5\n");
    assert_eq!(abyss.can_divide(), Some(false));
    abyss.submerge(1);
    // 0 and 3 are divided by -1.
    assert_eq!(abyss.can_divide(), Some(true));
}

#[test]
fn buffer_holds_numbers_or_one_row() {
    let mut buffer = Buffer::with_capacity(4);
    assert_eq!(buffer.kind, BufferKind::Empty);
    assert_eq!(buffer.pop(), None);
    assert_eq!(buffer.double_pop(), None);
    buffer.data.extend([1, 2, 3]);
    buffer.kind = BufferKind::Singles;
    assert_eq!(buffer.pop(), Some(Some(3)));
    assert_eq!(buffer.double_pop(), Some(Some(2)));
    assert_eq!(buffer.kind, BufferKind::Singles);
    assert_eq!(buffer.pop(), Some(Some(1)));
    assert_eq!(buffer.kind, BufferKind::Empty);
    buffer.data.extend([1, 2]);
    buffer.kind = BufferKind::Double;
    assert_eq!(buffer.pop(), Some(None));
    assert_eq!((buffer.kind, buffer.data.len()), (BufferKind::Singles, 2));
    buffer.kind = BufferKind::Double;
    assert_eq!(buffer.double_pop(), Some(None));
    assert_eq!((buffer.kind, buffer.data.len()), (BufferKind::Empty, 0));
    let mut fresh = Buffer::new();
    fresh.data.push(1);
    fresh.clear();
    assert_eq!(fresh.data, vec![]);
}

#[test]
fn buffered_store_is_the_store_behind_it() {
    let mut plain = Abyss::new();
    let mut buffered = Buffered::with_capacity(Abyss::new(), 8);
    step_both(&mut plain, &mut buffered);
}

fn step_both(plain: &mut Abyss, buffered: &mut Buffered<Abyss>) {
    let same = |plain: &Abyss, buffered: &Buffered<Abyss>| {
        assert_eq!(text(plain), text(buffered));
    };
    assert_eq!(plain.blow(1), buffered.blow(1));
    assert_eq!(plain.blow(2), buffered.blow(2));
    same(plain, buffered);
    assert_eq!(plain.merge(), buffered.merge());
    same(plain, buffered);
    assert_eq!(plain.count(), buffered.count());
    same(plain, buffered);
    assert_eq!(plain.count(), buffered.count());
    same(plain, buffered);
    assert_eq!(plain.duplicate(), buffered.duplicate());
    assert_eq!(plain.surround(2), buffered.surround(2));
    same(plain, buffered);
    assert_eq!(plain.duplicate(), buffered.duplicate());
    same(plain, buffered);
    assert_eq!(plain.pop(), buffered.pop());
    same(plain, buffered);
    assert_eq!(plain.double_pop(), buffered.double_pop());
    assert_eq!(plain.submerge(2), buffered.submerge(2));
    same(plain, buffered);
    assert_eq!(plain.surround(9), buffered.surround(9));
    assert_eq!(plain.surround(9), None);
    assert_eq!(plain.combine_single(|a, b| a - b), buffered.combine_single(|a, b| a - b));
    same(plain, buffered);
    assert_eq!(plain.test(|a, b| a == b), buffered.test(|a, b| a == b));
    assert_eq!(plain.can_divide(), buffered.can_divide());
    assert_eq!(
        plain.combine_double(|a, b| a + b, |a, b| a * b),
        buffered.combine_double(|a, b| a + b, |a, b| a * b)
    );
    same(plain, buffered);
    assert_eq!(plain.is_empty(), buffered.is_empty());
    assert_eq!(
        plain.consume(|v| Ok::<isize, ()>(v)),
        buffered.consume(|v| Ok::<isize, ()>(v))
    );
    same(plain, buffered);
    while plain.pop().is_some() {
        assert_eq!(buffered.pop(), Some(()));
        same(plain, buffered);
    }
    assert_eq!(buffered.pop(), None);
    assert!(buffered.is_empty());
}

#[test]
fn numbers_are_blown_together() {
    let mut abyss = Abyss::new();
    assert_eq!(abyss.blow_many(&[1, 2, 3]), Some(()));
    assert_eq!(text(&abyss), "3\n2\n1\n");
    assert_eq!(abyss.blow_double(&[4, 5]), Some(()));
    assert_eq!(text(&abyss), "[5, 4]\n3\n2\n1\n");
    assert_eq!(abyss.blow_double(&[]), Some(()));
    assert_eq!(text(&abyss), "[5, 4]\n3\n2\n1\n");
}

#[test]
fn numbers_are_written_in_decimal() {
    assert_eq!(decimal(0), b"0");
    assert_eq!(decimal(7), b"7");
    assert_eq!(decimal(-7), b"-7");
    assert_eq!(decimal(1234567890), b"1234567890");
    assert_eq!(decimal(isize::MIN as i128), isize::MIN.to_string().as_bytes());
    assert_eq!(decimal(isize::MAX as i128), isize::MAX.to_string().as_bytes());
}

#[test]
fn leading_digits_are_a_number() {
    assert_eq!(parse_number_input(b"120 apples"), Some(120));
    assert_eq!(parse_number_input(b"0"), Some(0));
    assert_eq!(parse_number_input(b""), None);
    assert_eq!(parse_number_input(b" 1"), None);
    assert_eq!(parse_number_input(b"+1"), None);
    let big = format!("{}0", u64::MAX);
    assert_eq!(
        parse_number_input(big.as_bytes()),
        Some((u64::MAX as isize).wrapping_mul(10))
    );
}

/// One step of a fixed sequence of numbers that looks random.
fn shuffle(state: &mut u64) -> u64 {
    *state = state
        .wrapping_mul(6364136223846793005)
        .wrapping_add(1442695040888963407);
    *state >> 33
}

#[test]
fn buffered_store_follows_the_plain_one_step_by_step() {
    for seed in 0..40u64 {
        let mut state = seed;
        let mut plain = Abyss::new();
        let mut buffered = Buffered::from_inner(Abyss::new());
        for _ in 0..300 {
            let pick = shuffle(&mut state) % 24;
            let small = (shuffle(&mut state) % 5) as usize;
            let value = (shuffle(&mut state) % 9) as isize - 4;
            match pick {
                0 | 1 | 2 | 3 => assert_eq!(plain.blow(value), buffered.blow(value)),
                4 => assert_eq!(plain.submerge(small), buffered.submerge(small)),
                5 => assert_eq!(plain.pop(), buffered.pop()),
                6 => assert_eq!(plain.double_pop(), buffered.double_pop()),
                7 => assert_eq!(plain.duplicate(), buffered.duplicate()),
                8 => assert_eq!(plain.surround(small), buffered.surround(small)),
                9 => assert_eq!(plain.merge(), buffered.merge()),
                10 => assert_eq!(plain.count(), buffered.count()),
                11 => assert_eq!(
                    plain.combine_single(|a, b| a - b),
                    buffered.combine_single(|a, b| a - b)
                ),
                12 => assert_eq!(
                    plain.combine_double(|a, b| a * b, |a, b| a - 2 * b),
                    buffered.combine_double(|a, b| a * b, |a, b| a - 2 * b)
                ),
                13 => {
                    assert_eq!(plain.test(|a, b| a < b), buffered.test(|a, b| a < b));
                    assert_eq!(plain.can_divide(), buffered.can_divide());
                    assert_eq!(plain.is_empty(), buffered.is_empty());
                }
                14 => {
                    let picky = |v: isize| if v == 3 { Err(v) } else { Ok(v + 1) };
                    assert_eq!(plain.consume(picky), buffered.consume(picky));
                }
                15 => {
                    let values = vec![value; small];
                    assert_eq!(plain.blow_many(&values), buffered.blow_many(&values));
                }
                16 => {
                    let values = vec![value, value + 1];
                    assert_eq!(plain.blow_double(&values), buffered.blow_double(&values));
                }
                17 => assert_eq!(plain.pop_many(small), buffered.pop_many(small)),
                18 => assert_eq!(
                    plain.double_pop_many(small),
                    buffered.double_pop_many(small)
                ),
                19 => assert_eq!(
                    plain.duplicate_many(small),
                    buffered.duplicate_many(small)
                ),
                20 => assert_eq!(plain.merge_many(small), buffered.merge_many(small)),
                21 => assert_eq!(
                    plain.submerge_many(&[small, 1]),
                    buffered.submerge_many(&[small, 1])
                ),
                22 => assert_eq!(
                    plain.surround_many(&[small, 2]),
                    buffered.surround_many(&[small, 2])
                ),
                _ => {
                    let word: Vec<AwaSCII> =
                        (0..small as u8).map(|c| AwaSCII::new(c).unwrap()).collect();
                    assert_eq!(plain.blow_awascii(&word), buffered.blow_awascii(&word));
                }
            }
            assert_eq!(text(&plain), text(&buffered));
            let handles = plain.handles();
            let mut sorted: Vec<usize> = handles.iter().map(|h| h.0).collect();
            sorted.sort();
            sorted.dedup();
            assert_eq!(sorted.len(), handles.len());
            // Nothing lies about: the occupied slots are those of the handles.
            let slots = sorted.last().map_or(0, |last| last + 1) + 512;
            let occupied: Vec<usize> = (0..slots)
                .filter(|&slot| plain.arena().get(Index(slot)).is_some())
                .collect();
            assert_eq!(occupied, sorted);
        }
    }
}

#[test]
fn batches_stop_at_the_first_failure() {
    let mut plain = Abyss::new();
    let mut buffered = Buffered::from_inner(Abyss::new());
    assert_eq!(plain.blow_many(&[1, 2, 3]), Some(()));
    assert_eq!(buffered.blow_many(&[1, 2, 3]), Some(()));
    assert_eq!(plain.blow_double(&[4, 5]), Some(()));
    assert_eq!(buffered.blow_double(&[4, 5]), Some(()));
    assert_eq!(text(&plain), "[5, 4]\n3\n2\n1\n");
    assert_eq!(text(&buffered), "[5, 4]\n3\n2\n1\n");
    // Two bursts: the row sets 5 and 4 free, then 5 goes.
    assert_eq!(plain.pop_many(2), Some(()));
    assert_eq!(buffered.pop_many(2), Some(()));
    assert_eq!(text(&plain), "4\n3\n2\n1\n");
    assert_eq!(text(&buffered), "4\n3\n2\n1\n");
    assert_eq!(plain.duplicate_many(2), Some(()));
    assert_eq!(buffered.duplicate_many(2), Some(()));
    assert_eq!(text(&plain), "4\n4\n4\n3\n2\n1\n");
    assert_eq!(text(&buffered), "4\n4\n4\n3\n2\n1\n");
    assert_eq!(plain.merge_many(2), Some(()));
    assert_eq!(buffered.merge_many(2), Some(()));
    assert_eq!(text(&plain), "[4, 4, 4]\n3\n2\n1\n");
    assert_eq!(text(&buffered), "[4, 4, 4]\n3\n2\n1\n");
    assert_eq!(plain.duplicate_many(1), Some(()));
    assert_eq!(buffered.duplicate_many(1), Some(()));
    assert_eq!(text(&buffered), "[4, 4, 4]\n[4, 4, 4]\n3\n2\n1\n");
    assert_eq!(plain.double_pop_many(3), Some(()));
    assert_eq!(buffered.double_pop_many(3), Some(()));
    assert_eq!(text(&plain), "2\n1\n");
    assert_eq!(text(&buffered), "2\n1\n");
    assert_eq!(plain.surround_many(&[2, 1, 5, 1]), None);
    assert_eq!(buffered.surround_many(&[2, 1, 5, 1]), None);
    assert_eq!(text(&plain), "[[2, 1]]\n");
    assert_eq!(text(&buffered), "[[2, 1]]\n");
    assert_eq!(plain.submerge_many(&[0, 3]), Some(()));
    assert_eq!(buffered.submerge_many(&[0, 3]), Some(()));
    assert_eq!(text(&buffered), "[[2, 1]]\n");
    // Three bursts: the two rows open one after the other, then 2 goes.
    assert_eq!(plain.pop_many(3), Some(()));
    assert_eq!(buffered.pop_many(3), Some(()));
    assert_eq!(text(&plain), "1\n");
    assert_eq!(plain.pop_many(2), None);
    assert_eq!(buffered.pop_many(2), None);
    assert!(plain.is_empty() && buffered.is_empty());
    assert_eq!(plain.merge_many(1), None);
    assert_eq!(buffered.duplicate_many(1), None);
    assert_eq!(buffered.double_pop_many(0), Some(()));
    assert_eq!(plain.submerge_many(&[1]), None);
}
