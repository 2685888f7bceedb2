use javaminer::codecity::mock;
use javaminer::codecity::CityError;
use javaminer::codecity::Package;

#[test]
fn pack_4_singles() {
    let mut pkg = Package::new("_root_");
    for _ in 0..4 {
        pkg.buildings.push(mock("a", 1, 1));
    }
    pkg.pack().unwrap();
    assert!(pkg.size() == (5, 5));
    // Make sure the last building is in the corner
    assert!(pkg.buildings[3].position() == (3, 3));
}

#[test]
fn pack_5_singles() {
    let mut pkg = Package::new("_root_");
    for _ in 0..5 {
        pkg.buildings.push(mock("a", 1, 1));
    }
    pkg.pack().unwrap();
    assert!(pkg.size() == (7, 5));
    assert!(pkg.buildings[4].position() == (5, 1));
}

#[test]
fn pack_16_singles() {
    let mut pkg = Package::new("_root_");
    for _ in 0..16 {
        pkg.buildings.push(mock("a", 1, 1));
    }
    pkg.pack().unwrap();
    assert!(pkg.size() == (9, 9));
    // Make sure the last building is in the corner
    assert!(pkg.buildings[15].position() == (7, 7));
}

#[test]
fn pack_smart_square_width() {
    let mut pkg = Package::new("_root_");
    pkg.buildings.push(mock("w", 3, 1));
    for _ in 0..2 {
        pkg.buildings.push(mock("a", 1, 1));
    }
    pkg.pack().unwrap();
    assert!(pkg.size() == (5, 5));
    // Make sure the last building is in the corner
    assert!(pkg.buildings[2].position() == (3, 3));
}

#[test]
fn pack_buildings() {
    let mut pkg = Package::new("_root_");
    pkg.buildings.push(mock("b", 8, 3));
    pkg.buildings.push(mock("c", 4, 2));
    pkg.buildings.push(mock("a", 10, 7));
    pkg.buildings.push(mock("d", 3, 2));
    pkg.buildings.push(mock("e1", 1, 1));
    pkg.buildings.push(mock("e2", 1, 1));
    pkg.buildings.push(mock("e3", 1, 1));
    println!("Starting the test");
    pkg.pack().unwrap();
    assert!(pkg.size() == (17, 13));
    assert!(pkg.buildings[0].position() == (1, 1));
    assert!(pkg.buildings[1].position() == (1, 9));
    assert!(pkg.buildings[2].position() == (12, 1));
    assert!(pkg.buildings[3].position() == (12, 4));
    assert!(pkg.buildings[4].position() == (12, 7));
    assert!(pkg.buildings[5].position() == (12, 9));
    assert!(pkg.buildings[6].position() == (12, 11));
}

#[test]
fn pack_packages() {
    let mut root = Package::new("_root_");
    let mut org = Package::new("org");
    let mut com = Package::new("com");
    for _ in 0..4 {
        org.buildings.push(mock("a", 1, 1));
    }
    for _ in 0..2 {
        com.buildings.push(mock("b", 1, 1));
    }
    root.packages.push(org);
    root.packages.push(com);
    root.pack().unwrap();
    assert!(root.size() == (13, 7));
    let org = root
        .packages()
        .into_iter()
        .find(|p| p.name().as_str() == "org")
        .unwrap();
    let com = root
        .packages()
        .into_iter()
        .find(|p| p.name().as_str() == "com")
        .unwrap();
    assert!(org.size() == (5, 5));
    assert!(com.size() == (5, 3));
}

#[test]
fn pack_empty_package() {
    let mut pkg = Package::new("_root_");
    pkg.pack().unwrap();
    assert_eq!(pkg.size(), (1, 1));
}

// No two siblings may overlap once packed, border included on growth edges.
#[test]
fn pack_children_disjoint() {
    let mut pkg = Package::new("_root_");
    pkg.buildings.push(mock("b", 8, 3));
    pkg.buildings.push(mock("c", 4, 2));
    pkg.buildings.push(mock("a", 10, 7));
    pkg.buildings.push(mock("d", 3, 2));
    pkg.buildings.push(mock("e1", 1, 1));
    pkg.buildings.push(mock("e2", 5, 5));
    pkg.buildings.push(mock("e3", 2, 9));
    pkg.pack().unwrap();
    let (pw, pd) = pkg.size();
    for i in 0..pkg.buildings.len() {
        let (xi, yi) = pkg.buildings[i].position();
        let (wi, di) = pkg.buildings[i].size();
        assert!(xi >= 1 && yi >= 1);
        assert!(xi + wi <= pw && yi + di <= pd);
        for j in 0..i {
            let (xj, yj) = pkg.buildings[j].position();
            let (wj, dj) = pkg.buildings[j].size();
            let disjoint =
                xi + wi <= xj || xj + wj <= xi || yi + di <= yj || yj + dj <= yi;
            assert!(disjoint, "buildings {} and {} overlap", i, j);
        }
    }
}

#[test]
fn pack_overflow_reported() {
    let mut pkg = Package::new("_root_");
    pkg.buildings.push(mock("a", 65000, 1));
    pkg.buildings.push(mock("b", 65000, 1));
    assert_eq!(pkg.pack(), Err(CityError::LayoutOverflow));
}

#[test]
fn add_builds_path() {
    let mut root = Package::new("_root_");
    let names: Vec<String> = vec!["com".to_string(), "example".to_string(), "Foo".to_string()];
    root.add(&names, mock("com/example/Foo", 2, 3)).unwrap();
    assert_eq!(root.packages.len(), 1);
    assert_eq!(root.packages[0].name().as_str(), "com");
    assert_eq!(root.packages[0].packages.len(), 1);
    assert_eq!(root.packages[0].packages[0].name().as_str(), "example");
    let leaf = &root.packages[0].packages[0].buildings[0];
    assert_eq!(leaf.size(), (2, 3));
    // a second class under the same package reuses the existing nodes
    let names2: Vec<String> = vec!["com".to_string(), "example".to_string(), "Bar".to_string()];
    root.add(&names2, mock("com/example/Bar", 1, 1)).unwrap();
    assert_eq!(root.packages.len(), 1);
    assert_eq!(root.packages[0].packages.len(), 1);
    assert_eq!(root.packages[0].packages[0].buildings.len(), 2);
}

#[test]
fn add_rejects_empty_path() {
    let mut root = Package::new("_root_");
    let names: Vec<String> = Vec::new();
    assert_eq!(root.add(&names, mock("a", 1, 1)), Err(CityError::InvalidPath));
    assert_eq!(root.packages.len(), 0);
    assert_eq!(root.buildings.len(), 0);
}

#[test]
fn add_rejects_zero_size() {
    let mut root = Package::new("_root_");
    let names: Vec<String> = vec!["a".to_string()];
    assert_eq!(
        root.add(&names, mock("a", 0, 1)),
        Err(CityError::InvalidDimensions)
    );
    assert_eq!(
        root.add(&names, mock("a", 1, 0)),
        Err(CityError::InvalidDimensions)
    );
    assert_eq!(root.buildings.len(), 0);
}

// Re-packing is not meaningful, but it must not panic; the layout it
// produces is simply the packer run again on the already-grown footprints.
#[test]
fn pack_twice_does_not_panic() {
    let mut pkg = Package::new("_root_");
    for _ in 0..4 {
        pkg.buildings.push(mock("a", 1, 1));
    }
    pkg.pack().unwrap();
    assert!(pkg.pack().is_ok());
}
