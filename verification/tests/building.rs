use game_communities::adjacency::AdjacencyMap;
use game_communities::builder::{
    construct_genre_graph, construct_sales_graph, detect_genre_communities,
    detect_sales_communities, SalesRecord,
};
use game_communities::labels::position;
use game_communities::weighted::WeightedAdjacencyMap;

fn record(genre: &str, platform: &str, na: f64, eu: f64, jp: f64) -> SalesRecord<f64> {
    SalesRecord { genre: genre.to_string(), platform: platform.to_string(), sales: na + eu + jp }
}

fn sample() -> Vec<SalesRecord<f64>> {
    vec![
        record("Sports", "Wii", 41.5, 29.0, 3.75),
        record("Platform", "NES", 29.0, 3.5, 6.75),
        record("Sports", "Wii", 15.75, 11.0, 3.25),
        record("Racing", "Wii", 15.5, 12.75, 3.75),
        record("Puzzle", "GB", 23.0, 2.25, 4.25),
        record("Sports", "PS2", 1.0, 0.5, 0.25),
    ]
}

#[test]
fn genre_graph_groups_platforms_by_genre_in_input_order() {
    let graph = construct_genre_graph(&sample());
    assert_eq!(graph.len(), 4);
    assert_eq!(graph.key(0), "Sports");
    assert_eq!(graph.key(1), "Platform");
    assert_eq!(graph.key(2), "Racing");
    assert_eq!(graph.key(3), "Puzzle");
    assert_eq!(graph.neighbors(0), &vec!["Wii".to_string(), "Wii".to_string(), "PS2".to_string()]);
    assert_eq!(graph.neighbors(1), &vec!["NES".to_string()]);
    assert_eq!(graph.neighbors(2), &vec!["Wii".to_string()]);
    assert_eq!(graph.neighbors(3), &vec!["GB".to_string()]);
}

#[test]
fn sales_graph_keeps_one_weighted_edge_for_each_record() {
    let graph = construct_sales_graph(&sample());
    assert_eq!(graph.len(), 4);
    assert_eq!(graph.key(0), "Sports");
    assert_eq!(
        graph.neighbors(0),
        &vec![("Wii".to_string(), 74.25), ("Wii".to_string(), 30.0), ("PS2".to_string(), 1.75)]
    );
    assert_eq!(graph.neighbors(1), &vec![("NES".to_string(), 39.25)]);
    assert_eq!(graph.neighbors(2), &vec![("Wii".to_string(), 32.0)]);
    assert_eq!(graph.neighbors(3), &vec![("GB".to_string(), 29.5)]);
}

#[test]
fn no_records_give_empty_maps_and_no_communities() {
    let none: Vec<SalesRecord<f64>> = Vec::new();
    assert_eq!(construct_genre_graph(&none).len(), 0);
    assert_eq!(construct_sales_graph(&none).len(), 0);
    assert_eq!(detect_genre_communities(&none).len(), 0);
    assert_eq!(detect_sales_communities(&none).len(), 0);
}

#[test]
fn both_variants_find_the_same_communities() {
    let records = sample();
    let by_genre = detect_genre_communities(&records);
    let by_sales = detect_sales_communities(&records);
    assert_eq!(by_genre.len(), 4);
    assert_eq!(by_sales.len(), 4);
    for i in 0..4 {
        assert_eq!(by_genre[i].members(), by_sales[i].members());
    }
    assert_eq!(by_genre[0].members(), &vec!["Sports".to_string(), "PS2".to_string(), "Wii".to_string()]);
    assert_eq!(by_genre[1].members(), &vec!["Platform".to_string(), "NES".to_string()]);
    assert_eq!(by_genre[2].members(), &vec!["Racing".to_string()]);
    assert_eq!(by_genre[3].members(), &vec!["Puzzle".to_string(), "GB".to_string()]);
}

#[test]
fn genre_and_platform_share_one_namespace() {
    let records = vec![
        record("Action", "Arcade", 1.0, 0.0, 0.0),
        record("Arcade", "PC", 0.0, 1.0, 0.0),
    ];
    let communities = detect_genre_communities(&records);
    assert_eq!(communities.len(), 1);
    assert!(communities[0].contains("Action"));
    assert!(communities[0].contains("Arcade"));
    assert!(communities[0].contains("PC"));
    assert_eq!(communities[0].len(), 3);
}

#[test]
fn insert_replaces_the_list_of_a_present_key() {
    let mut map = AdjacencyMap::new();
    map.insert("A".to_string(), vec!["B".to_string()]);
    map.insert("C".to_string(), vec![]);
    map.insert("A".to_string(), vec!["D".to_string(), "E".to_string()]);
    assert_eq!(map.len(), 2);
    assert_eq!(map.key(0), "A");
    assert_eq!(map.key(1), "C");
    assert_eq!(map.neighbors(0), &vec!["D".to_string(), "E".to_string()]);
    assert_eq!(map.get(&"A".to_string()), Some(&vec!["D".to_string(), "E".to_string()]));
    assert_eq!(map.get(&"C".to_string()), Some(&Vec::new()));
    assert_eq!(map.get(&"B".to_string()), None);
    assert_eq!(map.find(&"C".to_string()), Some(1));
    assert_eq!(map.find(&"D".to_string()), None);
}

#[test]
fn add_edge_appends_to_a_present_key_or_opens_a_new_one() {
    let mut map = AdjacencyMap::new();
    map.add_edge("A".to_string(), "B".to_string());
    map.add_edge("C".to_string(), "B".to_string());
    map.add_edge("A".to_string(), "B".to_string());
    map.add_edge("A".to_string(), "D".to_string());
    assert_eq!(map.len(), 2);
    assert_eq!(map.neighbors(0), &vec!["B".to_string(), "B".to_string(), "D".to_string()]);
    assert_eq!(map.neighbors(1), &vec!["B".to_string()]);
}

#[test]
fn weighted_map_keeps_weights_and_order() {
    let mut map: WeightedAdjacencyMap<u64> = WeightedAdjacencyMap::new();
    map.add_edge("A".to_string(), "B".to_string(), 5);
    map.add_edge("A".to_string(), "B".to_string(), 7);
    map.insert("C".to_string(), vec![("A".to_string(), 1)]);
    map.insert("C".to_string(), vec![("B".to_string(), 2)]);
    assert_eq!(map.len(), 2);
    assert_eq!(map.key(1), "C");
    assert_eq!(map.neighbors(0), &vec![("B".to_string(), 5), ("B".to_string(), 7)]);
    assert_eq!(map.get(&"C".to_string()), Some(&vec![("B".to_string(), 2)]));
    assert_eq!(map.get(&"B".to_string()), None);
}

#[test]
fn position_finds_the_first_equal_entry() {
    let items = vec!["Wii".to_string(), "DS".to_string(), "Wii".to_string()];
    assert_eq!(position(&items, &"Wii".to_string()), Some(0));
    assert_eq!(position(&items, &"DS".to_string()), Some(1));
    assert_eq!(position(&items, &"wii".to_string()), None);
    assert_eq!(position(&Vec::new(), &"Wii".to_string()), None);
}
