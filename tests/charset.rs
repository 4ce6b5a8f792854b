use goldparser::charset::CharacterSet;

fn gen_charset() -> CharacterSet {
    let rs: [u16; 11] = [86, 112, 100, 103, 9, 11, 12, 32, 160, 0, 33];
    let mut ranges: Vec<(u32, u32)> = Vec::new();
    ranges.insert(0, (rs[4] as u32, rs[4] as u32));
    ranges.insert(1, (rs[5] as u32, rs[6] as u32));
    ranges.insert(2, (rs[7] as u32, rs[7] as u32));
    ranges.insert(3, (rs[8] as u32, rs[8] as u32));
    CharacterSet::new(ranges)
}

#[test]
fn add() {
    let rs: [u16; 11] = [0; 11];
    let mut ranges: Vec<(u32, u32)> = Vec::new();
    let a = rs[0] as u32;
    ranges.insert(0, (a, a));
    let a = rs[1] as u32;
    ranges.insert(1, (a, a));
    let a = rs[2] as u32;
    let b = rs[3] as u32;
    ranges.insert(2, (a, b));
    let mut chars = CharacterSet::new(ranges);
    let a = rs[10] as u32;
    chars.add((a, a));
    assert!(chars.ranges().len() == 4);
}

#[test]
fn contains() {
    let charset = gen_charset();
    println!("{:?}", charset);
    assert!(charset.contains(char::from_u32(9_u32).unwrap()));
    assert!(charset.contains(char::from_u32(160_u32).unwrap()));
    assert!(charset.contains(char::from_u32(32_u32).unwrap()));
    assert!(charset.contains(char::from_u32(180_u32).unwrap()) == false);
}

#[test]
fn default() {
    let mut defset = CharacterSet::empty();
    assert!(defset.ranges().is_empty());
    defset.add((0, 0));
    assert!(!defset.ranges().is_empty());
}

#[test]
fn contains_range_edges() {
    let set = CharacterSet::new(vec![(97, 99)]);
    assert!(set.contains('a'));
    assert!(set.contains('c'));
    assert!(!set.contains('d'));
    assert!(!set.contains('`'));
    let copy = set.duplicate();
    assert_eq!(copy.ranges(), &vec![(97, 99)]);
}
