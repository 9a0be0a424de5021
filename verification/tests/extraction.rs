use game_communities::adjacency::AdjacencyMap;
use game_communities::community::Community;
use game_communities::extract::{label_propagation, label_propagation_sales};
use game_communities::weighted::WeightedAdjacencyMap;

fn names(list: &[&str]) -> Vec<String> {
    list.iter().map(|s| s.to_string()).collect()
}

fn sorted_members(community: &Community) -> Vec<String> {
    let mut members = community.members().clone();
    members.sort();
    members
}

#[test]
fn test_label_propagation() {
    let mut adjacency_list = AdjacencyMap::new();
    adjacency_list.insert("A".to_string(), vec!["B".to_string(), "C".to_string()]);
    adjacency_list.insert("B".to_string(), vec!["A".to_string()]);
    adjacency_list.insert("C".to_string(), vec!["A".to_string()]);

    let communities = label_propagation(&adjacency_list);
    assert_eq!(communities.len(), 1);
    assert!(communities[0].contains("A"));
    assert!(communities[0].contains("B"));
    assert!(communities[0].contains("C"));
}

#[test]
fn test_label_propagation_sales() {
    let mut adjacency_list: WeightedAdjacencyMap<f64> = WeightedAdjacencyMap::new();
    adjacency_list.insert("A".to_string(), vec![("B".to_string(), 10.0), ("C".to_string(), 20.0)]);
    adjacency_list.insert("B".to_string(), vec![("A".to_string(), 15.0)]);
    adjacency_list.insert("C".to_string(), vec![("A".to_string(), 25.0)]);

    let communities = label_propagation_sales(&adjacency_list);
    assert_eq!(communities.len(), 1);
    assert!(communities[0].contains("A"));
    assert!(communities[0].contains("B"));
    assert!(communities[0].contains("C"));
}

#[test]
fn one_community_holds_exactly_its_three_labels() {
    let mut map = AdjacencyMap::new();
    map.insert("A".to_string(), names(&["B", "C"]));
    map.insert("B".to_string(), names(&["A"]));
    map.insert("C".to_string(), names(&["A"]));
    let communities = label_propagation(&map);
    assert_eq!(communities.len(), 1);
    assert_eq!(communities[0].len(), 3);
    assert_eq!(sorted_members(&communities[0]), names(&["A", "B", "C"]));
}

#[test]
fn two_separate_pairs_give_two_communities() {
    let mut map = AdjacencyMap::new();
    map.insert("A".to_string(), names(&["B"]));
    map.insert("B".to_string(), names(&["A"]));
    map.insert("X".to_string(), names(&["Y"]));
    map.insert("Y".to_string(), names(&["X"]));
    let communities = label_propagation(&map);
    assert_eq!(communities.len(), 2);
    assert_eq!(sorted_members(&communities[0]), names(&["A", "B"]));
    assert_eq!(sorted_members(&communities[1]), names(&["X", "Y"]));
}

#[test]
fn weights_do_not_change_membership() {
    let mut light: WeightedAdjacencyMap<f64> = WeightedAdjacencyMap::new();
    light.insert("A".to_string(), vec![("B".to_string(), 10.0), ("C".to_string(), 20.0)]);
    light.insert("B".to_string(), vec![("A".to_string(), 15.0)]);
    light.insert("X".to_string(), vec![("Y".to_string(), 0.0)]);
    let mut heavy: WeightedAdjacencyMap<f64> = WeightedAdjacencyMap::new();
    heavy.insert("A".to_string(), vec![("B".to_string(), 1e9), ("C".to_string(), 0.5)]);
    heavy.insert("B".to_string(), vec![("A".to_string(), 7.25)]);
    heavy.insert("X".to_string(), vec![("Y".to_string(), 3.0)]);
    let first = label_propagation_sales(&light);
    let second = label_propagation_sales(&heavy);
    assert_eq!(first.len(), 2);
    assert_eq!(second.len(), 2);
    assert_eq!(sorted_members(&first[0]), names(&["A", "B", "C"]));
    assert_eq!(sorted_members(&second[0]), names(&["A", "B", "C"]));
    assert_eq!(sorted_members(&first[1]), names(&["X", "Y"]));
    assert_eq!(sorted_members(&second[1]), names(&["X", "Y"]));
}

#[test]
fn weighted_and_bare_map_agree() {
    let mut weighted: WeightedAdjacencyMap<u32> = WeightedAdjacencyMap::new();
    weighted.insert("A".to_string(), vec![("B".to_string(), 1), ("B".to_string(), 2)]);
    weighted.insert("C".to_string(), vec![("B".to_string(), 3)]);
    let bare = weighted.without_weights();
    assert_eq!(bare.len(), 2);
    assert_eq!(bare.key(0), "A");
    assert_eq!(bare.key(1), "C");
    assert_eq!(bare.neighbors(0), &names(&["B", "B"]));
    assert_eq!(bare.neighbors(1), &names(&["B"]));
    let from_weighted = label_propagation_sales(&weighted);
    let from_bare = label_propagation(&bare);
    assert_eq!(from_weighted.len(), from_bare.len());
    for i in 0..from_bare.len() {
        assert_eq!(from_weighted[i].members(), from_bare[i].members());
    }
}

#[test]
fn empty_map_gives_no_community() {
    let map = AdjacencyMap::new();
    assert_eq!(label_propagation(&map).len(), 0);
    let weighted: WeightedAdjacencyMap<f64> = WeightedAdjacencyMap::new();
    assert_eq!(label_propagation_sales(&weighted).len(), 0);
}

#[test]
fn keys_without_edges_stand_alone() {
    let mut map = AdjacencyMap::new();
    map.insert("A".to_string(), Vec::new());
    map.insert("B".to_string(), Vec::new());
    let communities = label_propagation(&map);
    assert_eq!(communities.len(), 2);
    assert_eq!(sorted_members(&communities[0]), names(&["A"]));
    assert_eq!(sorted_members(&communities[1]), names(&["B"]));
}

#[test]
fn label_that_is_only_a_neighbor_joins_the_first_key_that_reaches_it() {
    let mut map = AdjacencyMap::new();
    map.insert("A".to_string(), names(&["C"]));
    map.insert("B".to_string(), names(&["C"]));
    let communities = label_propagation(&map);
    assert_eq!(communities.len(), 2);
    assert_eq!(sorted_members(&communities[0]), names(&["A", "C"]));
    assert_eq!(sorted_members(&communities[1]), names(&["B"]));
}

#[test]
fn key_order_decides_where_a_shared_neighbor_goes() {
    let mut map = AdjacencyMap::new();
    map.insert("B".to_string(), names(&["C"]));
    map.insert("A".to_string(), names(&["C"]));
    let communities = label_propagation(&map);
    assert_eq!(communities.len(), 2);
    assert_eq!(sorted_members(&communities[0]), names(&["B", "C"]));
    assert_eq!(sorted_members(&communities[1]), names(&["A"]));
}

#[test]
fn later_key_reached_earlier_opens_nothing() {
    let mut map = AdjacencyMap::new();
    map.insert("A".to_string(), names(&["B"]));
    map.insert("B".to_string(), names(&["C"]));
    map.insert("C".to_string(), names(&["D", "A"]));
    let communities = label_propagation(&map);
    assert_eq!(communities.len(), 1);
    assert_eq!(communities[0].members(), &names(&["A", "B", "C", "D"]));
}

#[test]
fn self_loops_and_repeated_edges_are_harmless() {
    let mut map = AdjacencyMap::new();
    map.insert("A".to_string(), names(&["A", "B", "B", "A"]));
    let communities = label_propagation(&map);
    assert_eq!(communities.len(), 1);
    assert_eq!(communities[0].len(), 2);
    assert_eq!(sorted_members(&communities[0]), names(&["A", "B"]));
}

#[test]
fn communities_split_the_nodes() {
    let mut map = AdjacencyMap::new();
    map.insert("Action".to_string(), names(&["PS2", "X360", "PS2"]));
    map.insert("Sports".to_string(), names(&["Wii", "PS2"]));
    map.insert("Puzzle".to_string(), names(&["DS"]));
    map.insert("Wii".to_string(), names(&["Sports"]));
    let nodes = names(&["Action", "PS2", "X360", "Sports", "Wii", "Puzzle", "DS"]);
    let communities = label_propagation(&map);
    for node in &nodes {
        let holders = communities.iter().filter(|c| c.contains(node)).count();
        assert_eq!(holders, 1, "{}", node);
    }
    let total: usize = communities.iter().map(|c| c.len()).sum();
    assert_eq!(total, nodes.len());
    for community in &communities {
        assert!(community.len() > 0);
    }
    assert_eq!(communities.len(), 3);
    assert_eq!(sorted_members(&communities[0]), names(&["Action", "PS2", "X360"]));
    assert_eq!(sorted_members(&communities[1]), names(&["Sports", "Wii"]));
    assert_eq!(sorted_members(&communities[2]), names(&["DS", "Puzzle"]));
}

#[test]
fn extracting_twice_gives_the_same_communities() {
    let mut map = AdjacencyMap::new();
    map.insert("A".to_string(), names(&["B"]));
    map.insert("X".to_string(), names(&["Y", "B"]));
    map.insert("B".to_string(), names(&["A"]));
    let first = label_propagation(&map);
    let second = label_propagation(&map);
    assert_eq!(first.len(), second.len());
    for i in 0..first.len() {
        assert_eq!(sorted_members(&first[i]), sorted_members(&second[i]));
    }
}

#[test]
fn sharing_a_community_is_transitive() {
    let mut map = AdjacencyMap::new();
    map.insert("X".to_string(), names(&["Y"]));
    map.insert("Y".to_string(), names(&["Z"]));
    map.insert("Q".to_string(), names(&["R"]));
    let communities = label_propagation(&map);
    let together = |a: &str, b: &str| communities.iter().any(|c| c.contains(a) && c.contains(b));
    assert!(together("X", "Y"));
    assert!(together("Y", "Z"));
    assert!(together("X", "Z"));
    assert!(together("Q", "R"));
    assert!(!together("X", "Q"));
    assert!(!together("Z", "R"));
}

#[test]
fn symmetric_map_gives_connected_components() {
    let mut map = AdjacencyMap::new();
    map.insert("A".to_string(), names(&["B"]));
    map.insert("C".to_string(), names(&["B"]));
    map.insert("B".to_string(), names(&["A", "C"]));
    map.insert("D".to_string(), names(&["E"]));
    map.insert("E".to_string(), names(&["D"]));
    let communities = label_propagation(&map);
    assert_eq!(communities.len(), 2);
    assert_eq!(sorted_members(&communities[0]), names(&["A", "B", "C"]));
    assert_eq!(sorted_members(&communities[1]), names(&["D", "E"]));
}

#[test]
fn members_come_in_the_order_of_the_walk() {
    let mut map = AdjacencyMap::new();
    map.insert("A".to_string(), names(&["B", "C"]));
    map.insert("B".to_string(), names(&["D"]));
    let communities = label_propagation(&map);
    assert_eq!(communities.len(), 1);
    assert_eq!(communities[0].members(), &names(&["A", "C", "B", "D"]));
}

#[test]
fn community_behaves_as_a_set() {
    let mut community = Community::new();
    assert_eq!(community.len(), 0);
    assert!(!community.contains("A"));
    assert!(community.insert("A".to_string()));
    assert!(community.insert("B".to_string()));
    assert!(!community.insert("A".to_string()));
    assert_eq!(community.len(), 2);
    assert!(community.contains("A"));
    assert!(community.contains("B"));
    assert!(!community.contains("C"));
    assert!(!community.contains(""));
    assert_eq!(community.members(), &names(&["A", "B"]));
}
