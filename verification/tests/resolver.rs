use release_order::package::{publishable_packages, Package};
use release_order::release_order::release_order;

fn pkg(name: &str, deps: &[&str]) -> Package {
    Package::new(
        name.to_string(),
        deps.iter().map(|d| d.to_string()).collect(),
        true,
    )
}

fn names(packages: &[Package]) -> Vec<&str> {
    packages.iter().map(|p| p.name.as_str()).collect()
}

#[test]
fn chain_is_ordered_dependencies_first() {
    let packages = vec![pkg("A", &[]), pkg("B", &["A"]), pkg("C", &["B"])];
    let order = release_order(&packages).unwrap();
    assert_eq!(names(&order), vec!["A", "B", "C"]);
}

#[test]
fn chain_given_in_reverse_is_reordered() {
    let packages = vec![pkg("C", &["B"]), pkg("B", &["A"]), pkg("A", &[])];
    let order = release_order(&packages).unwrap();
    assert_eq!(names(&order), vec!["A", "B", "C"]);
}

#[test]
fn direct_cycle_is_detected() {
    let packages = vec![pkg("A", &["B"]), pkg("B", &["A"])];
    let err = release_order(&packages).unwrap_err();
    assert_eq!(err.dependency, "A");
    assert_eq!(err.dependent, "B");
}

#[test]
fn three_package_cycle_is_detected() {
    let packages = vec![pkg("A", &["B"]), pkg("B", &["C"]), pkg("C", &["A"])];
    let err = release_order(&packages).unwrap_err();
    assert_eq!(err.dependency, "A");
    assert_eq!(err.dependent, "C");
}

// Pins the breadth of the on-path clearing: the whole marker set is cleared
// once any visit finishes, so the cycle through A and C is noticed only on
// the re-descent from C into A, and the reported back edge is C -> A. A
// resolver that instead unmarked only the finished package would keep A
// marked and report A -> C.
#[test]
fn finished_visit_clears_the_whole_path() {
    let packages = vec![pkg("A", &["B", "C"]), pkg("B", &[]), pkg("C", &["A"])];
    let err = release_order(&packages).unwrap_err();
    assert_eq!(err.dependency, "C");
    assert_eq!(err.dependent, "A");
}

#[test]
fn input_order_drives_root_resolution() {
    let packages = vec![pkg("C", &["A"]), pkg("B", &["A"]), pkg("A", &[])];
    let order = release_order(&packages).unwrap();
    assert_eq!(names(&order), vec!["A", "C", "B"]);
}

#[test]
fn external_dependency_is_ignored() {
    let packages = vec![pkg("A", &["external-lib"])];
    let order = release_order(&packages).unwrap();
    assert_eq!(names(&order), vec!["A"]);
}

#[test]
fn self_dependency_is_ignored() {
    let packages = vec![pkg("A", &["A"])];
    let order = release_order(&packages).unwrap();
    assert_eq!(names(&order), vec!["A"]);
}

#[test]
fn shared_dependency_is_emitted_once() {
    let packages = vec![
        pkg("A", &["B", "C"]),
        pkg("B", &["D"]),
        pkg("C", &["D"]),
        pkg("D", &[]),
    ];
    let order = release_order(&packages).unwrap();
    assert_eq!(names(&order), vec!["D", "B", "C", "A"]);
}

#[test]
fn declared_dependency_order_drives_descent() {
    let packages = vec![
        pkg("B", &["A"]),
        pkg("D", &["C", "B"]),
        pkg("A", &[]),
        pkg("C", &[]),
    ];
    let order = release_order(&packages).unwrap();
    assert_eq!(names(&order), vec!["A", "B", "C", "D"]);
}

#[test]
fn empty_input_yields_empty_order() {
    let packages: Vec<Package> = vec![];
    let order = release_order(&packages).unwrap();
    assert!(order.is_empty());
}

#[test]
fn duplicate_names_are_resolved_once() {
    let packages = vec![pkg("A", &[]), pkg("A", &[])];
    let order = release_order(&packages).unwrap();
    assert_eq!(names(&order), vec!["A"]);
}

#[test]
fn repeated_runs_give_identical_orders() {
    let packages = vec![
        pkg("E", &["B", "D"]),
        pkg("B", &["A"]),
        pkg("D", &["C"]),
        pkg("A", &[]),
        pkg("C", &["A"]),
    ];
    let first = release_order(&packages).unwrap();
    let second = release_order(&packages).unwrap();
    assert_eq!(names(&first), names(&second));
}

#[test]
fn every_dependency_precedes_its_dependent() {
    let packages = vec![
        pkg("E", &["B", "D"]),
        pkg("B", &["A"]),
        pkg("D", &["C", "B"]),
        pkg("A", &[]),
        pkg("C", &["A"]),
    ];
    let order = release_order(&packages).unwrap();
    let ns = names(&order);
    assert_eq!(ns.len(), packages.len());
    for p in &packages {
        let at = ns.iter().position(|n| *n == p.name).unwrap();
        for d in &p.dependencies {
            if *d != p.name {
                if let Some(dep_at) = ns.iter().position(|n| n == d) {
                    assert!(dep_at < at);
                }
            }
        }
    }
}

#[test]
fn excluded_packages_are_filtered_out() {
    let packages = vec![
        Package::new("A".to_string(), vec![], true),
        Package::new("B".to_string(), vec!["A".to_string()], false),
        Package::new("C".to_string(), vec!["A".to_string()], true),
    ];
    let scoped = publishable_packages(&packages);
    assert_eq!(names(&scoped), vec!["A", "C"]);
    let order = release_order(&scoped).unwrap();
    assert_eq!(names(&order), vec!["A", "C"]);
}

#[test]
fn duplicate_builds_an_equal_package() {
    let p = pkg("A", &["B", "C"]);
    let q = p.duplicate();
    assert_eq!(p, q);
}
