use sf_winmd_gen::pipeline::{route_items, search_dirs, system_dir_args, Routes};

fn strings(items: &[&str]) -> Vec<String> {
    items.iter().map(|item| item.to_string()).collect()
}

fn sorted_routes(routes: &Routes) -> Vec<(String, String)> {
    let mut entries = routes.entries().clone();
    entries.sort();
    entries
}

#[test]
fn search_dirs_drop_empty_entries() {
    assert_eq!(
        search_dirs(r"C:\VS\include;;C:\Kits\um;"),
        strings(&[r"C:\VS\include", r"C:\Kits\um"])
    );
    assert_eq!(search_dirs("single"), strings(&["single"]));
    assert!(search_dirs("").is_empty());
    assert!(search_dirs(";;;").is_empty());
}

#[test]
fn search_dirs_match_str_split() {
    for list in ["a;b", ";a;;b;;", "", ";", "x;y;z", "one"] {
        let expected: Vec<String> = list
            .split(';')
            .filter(|piece| !piece.is_empty())
            .map(|piece| piece.to_string())
            .collect();
        assert_eq!(search_dirs(list), expected, "list {list:?}");
    }
}

#[test]
fn system_dir_args_precede_each_directory() {
    let dirs = strings(&["a", "b"]);
    assert_eq!(
        system_dir_args(&dirs),
        strings(&["-isystem", "a", "-isystem", "b"])
    );
    assert!(system_dir_args(&Vec::new()).is_empty());
}

#[test]
fn routes_insert_gives_back_previous_namespace() {
    let mut routes = Routes::new();
    assert_eq!(routes.insert("A".to_string(), "N1".to_string()), None);
    assert_eq!(
        routes.insert("A".to_string(), "N2".to_string()),
        Some("N1".to_string())
    );
    assert_eq!(
        sorted_routes(&routes),
        vec![("A".to_string(), "N2".to_string())]
    );
}

#[test]
fn routing_a_partition_twice_is_no_conflict() {
    let mut routes = Routes::new();
    let names = strings(&["FABRIC_A", "FABRIC_B", "FABRIC_A"]);
    let namespace = "Windows.ServiceFabric.FabricTypes".to_string();
    assert_eq!(route_items(&mut routes, &names, &namespace), None);
    assert_eq!(route_items(&mut routes, &names, &namespace), None);
    assert_eq!(
        sorted_routes(&routes),
        vec![
            ("FABRIC_A".to_string(), namespace.clone()),
            ("FABRIC_B".to_string(), namespace.clone()),
        ]
    );
}

#[test]
fn item_owned_by_two_partitions_is_reported() {
    let mut routes = Routes::new();
    let types = "Windows.ServiceFabric.FabricTypes".to_string();
    let client = "Windows.ServiceFabric.FabricClient".to_string();
    assert_eq!(
        route_items(&mut routes, &strings(&["FABRIC_A", "FABRIC_B"]), &types),
        None
    );
    assert_eq!(
        route_items(
            &mut routes,
            &strings(&["IFabricClient", "FABRIC_B", "FABRIC_A"]),
            &client
        ),
        Some(("FABRIC_B".to_string(), types.clone()))
    );
}

#[test]
fn routing_keeps_other_items() {
    let mut routes = Routes::new();
    let types = "Windows.ServiceFabric.FabricTypes".to_string();
    let client = "Windows.ServiceFabric.FabricClient".to_string();
    route_items(&mut routes, &strings(&["FABRIC_A"]), &types);
    route_items(&mut routes, &strings(&["IFabricClient"]), &client);
    assert_eq!(
        sorted_routes(&routes),
        vec![
            ("FABRIC_A".to_string(), types.clone()),
            ("IFabricClient".to_string(), client.clone()),
        ]
    );
}
