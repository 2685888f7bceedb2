use javaminer::codecity::mock;
use javaminer::codecity::mockh;
use javaminer::codecity::Package;

#[test]
fn get_max_height() {
    let mut root = Package::new("_root_");
    let mut org = Package::new("org");
    let mut com = Package::new("com");
    for _ in 0..4 {
        org.buildings.push(mockh(3));
    }
    for _ in 0..2 {
        com.buildings.push(mockh(4));
    }
    root.packages.push(org);
    root.packages.push(com);
    assert!(root.height() == 6);
}

#[test]
fn get_max_height_empty() {
    let root = Package::new("_root_");
    assert!(root.height() == 1);
}

#[test]
fn get_max_height_buildings() {
    let mut root = Package::new("_root_");
    root.buildings.push(mockh(3));
    assert!(root.height() == 4);
}

// A package is never flat, and with positive building heights it is exactly
// one high just when it holds nothing at all.
#[test]
fn height_one_only_when_empty() {
    let mut root = Package::new("_root_");
    assert_eq!(root.height(), 1);
    root.packages.push(Package::new("p"));
    assert!(root.height() >= 2);
    let mut other = Package::new("q");
    other.buildings.push(mockh(1));
    assert_eq!(other.height(), 2);
    let mut third = Package::new("r");
    third.buildings.push(mock("a", 1, 1));
    // a zero-height building still counts as contents but adds no height
    assert_eq!(third.height(), 1);
}

#[test]
fn height_unchanged_by_packing() {
    let mut root = Package::new("_root_");
    let mut org = Package::new("org");
    for _ in 0..4 {
        org.buildings.push(mockh(3));
    }
    root.packages.push(org);
    let before = root.height();
    root.pack().unwrap();
    assert_eq!(root.height(), before);
    assert_eq!(before, 5);
}
