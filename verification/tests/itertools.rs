use mipt_rust::itertools::{extract, Extract, GroupBy, LazyCycle, TeeBuffer};

fn cycle_next<I: Iterator<Item = i32>>(c: &mut LazyCycle<i32>, it: &mut I) -> Option<i32> {
    if c.pulling() {
        match it.next() {
            Some(x) => {
                c.record(x);
                return Some(x);
            }
            None => {
                if !c.source_ended() {
                    return None;
                }
            }
        }
    }
    Some(c.next_stored())
}

fn tee_next<I: Iterator<Item = char>>(t: &mut TeeBuffer<char>, id: bool, it: &mut I) -> Option<char> {
    if let Some(x) = t.take_backlog(id) {
        return Some(x);
    }
    let x = it.next()?;
    t.record(id, x);
    Some(x)
}

fn group_next<I: Iterator<Item = i32>, F: Fn(&i32) -> u64>(
    g: &mut GroupBy<i32, F>,
    it: &mut I,
) -> Option<(u64, Vec<i32>)> {
    loop {
        match it.next() {
            None => return g.finish(),
            Some(x) => {
                if let Some(group) = g.feed(x) {
                    return Some(group);
                }
            }
        }
    }
}

#[test]
fn lazy_cycle_repeats() {
    let mut c = LazyCycle::new();
    let mut it = vec![1, 2, 3].into_iter();
    let got: Vec<i32> = (0..8).map(|_| cycle_next(&mut c, &mut it).unwrap()).collect();
    assert_eq!(got, vec![1, 2, 3, 1, 2, 3, 1, 2]);
    let mut empty = LazyCycle::new();
    let mut none = Vec::<i32>::new().into_iter();
    assert_eq!(cycle_next(&mut empty, &mut none), None);
    assert_eq!(cycle_next(&mut empty, &mut none), None);
}

#[test]
fn lazy_cycle_of_an_endless_source_passes_it_on() {
    let mut c = LazyCycle::new();
    let mut it = 0..;
    let got: Vec<i32> = (0..5).map(|_| cycle_next(&mut c, &mut it).unwrap()).collect();
    assert_eq!(got, vec![0, 1, 2, 3, 4]);
}

fn drain(ex: &mut Extract<i32>, it: &mut std::vec::IntoIter<i32>) -> Vec<i32> {
    std::iter::from_fn(|| ex.next_skipped().or_else(|| it.next())).collect()
}

#[test]
fn extract_takes_one_out() {
    let mut it = vec![10, 20, 30, 40].into_iter();
    let ahead: Vec<i32> = it.by_ref().take(3).collect();
    let (x, mut rest) = extract(ahead, 2);
    assert_eq!(x, Some(30));
    assert_eq!(drain(&mut rest, &mut it), vec![10, 20, 40]);
    let mut it = vec![1, 2].into_iter();
    let ahead: Vec<i32> = it.by_ref().take(6).collect();
    let (y, mut all) = extract(ahead, 5);
    assert_eq!(y, None);
    assert_eq!(drain(&mut all, &mut it), vec![1, 2]);
}

#[test]
fn tee_readers_see_everything() {
    let mut t = TeeBuffer::new();
    let mut it = vec!['a', 'b', 'c'].into_iter();
    assert_eq!(tee_next(&mut t, true, &mut it), Some('a'));
    assert_eq!(tee_next(&mut t, true, &mut it), Some('b'));
    assert_eq!(tee_next(&mut t, false, &mut it), Some('a'));
    assert_eq!(tee_next(&mut t, true, &mut it), Some('c'));
    assert_eq!(tee_next(&mut t, true, &mut it), None);
    assert_eq!(tee_next(&mut t, false, &mut it), Some('b'));
    assert_eq!(tee_next(&mut t, false, &mut it), Some('c'));
    assert_eq!(tee_next(&mut t, false, &mut it), None);
}

#[test]
fn group_by_runs_of_equal_keys() {
    let mut g = GroupBy::new(|x: &i32| (*x % 2) as u64);
    let mut it = vec![1, 3, 2, 4, 4, 5, 7, 6].into_iter();
    assert_eq!(group_next(&mut g, &mut it), Some((1, vec![1, 3])));
    assert_eq!(group_next(&mut g, &mut it), Some((0, vec![2, 4, 4])));
    assert_eq!(group_next(&mut g, &mut it), Some((1, vec![5, 7])));
    assert_eq!(group_next(&mut g, &mut it), Some((0, vec![6])));
    assert_eq!(group_next(&mut g, &mut it), None);
}
