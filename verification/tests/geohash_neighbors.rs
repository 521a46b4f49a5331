use earthquake_alert::geohash::{encode_cell, get_neighbors, neighbor, try_get_neighbors, valid_geohash, Direction};

#[test]
fn test_neighbors_count() {
    let test_hashes = vec!["wecn", "wx4g", "wtw3", "gcpv", "s000"];

    for hash in test_hashes {
        let neighbors = get_neighbors(hash);
        assert_eq!(neighbors.len(), 9, "GeoHash {} 应该有9个邻居", hash);
        assert!(neighbors.contains(&hash.to_string()), "邻居列表应该包含自己");
    }
}

#[test]
fn test_neighbors_detail() {
    let hash = "wecn";
    let neighbors = get_neighbors(hash);

    assert_eq!(neighbors.len(), 9);

    assert!(neighbors.contains(&hash.to_string()));

    let mut sorted = neighbors.clone();
    sorted.sort();
    sorted.dedup();
    assert_eq!(sorted.len(), neighbors.len(), "邻居列表不应该有重复");
}

#[test]
fn test_neighbor_directions() {
    let hash = "wecn";

    let north = neighbor(hash, Direction::North);
    let south = neighbor(hash, Direction::South);
    let east = neighbor(hash, Direction::East);
    let west = neighbor(hash, Direction::West);

    assert!(north.as_deref().is_some_and(|value| value != hash));
    assert!(south.as_deref().is_some_and(|value| value != hash));
    assert!(east.as_deref().is_some_and(|value| value != hash));
    assert!(west.as_deref().is_some_and(|value| value != hash));
}

#[test]
fn test_neighbor_reciprocity() {
    let hash = "wecn";

    if let Some(north) = neighbor(hash, Direction::North) {
        if let Some(south_of_north) = neighbor(&north, Direction::South) {
            assert_eq!(south_of_north, hash, "北邻居的南邻居应该是原点");
        }
    }

    if let Some(east) = neighbor(hash, Direction::East) {
        if let Some(west_of_east) = neighbor(&east, Direction::West) {
            assert_eq!(west_of_east, hash, "东邻居的西邻居应该是原点");
        }
    }
}

#[test]
fn test_neighbors_at_boundaries() {
    let boundary_hashes = vec!["0", "00", "000", "s000", "pbpbp"];

    for hash in boundary_hashes {
        let neighbors = get_neighbors(hash);
        assert!(!neighbors.is_empty(), "GeoHash {} 应该至少有1个元素（自己）", hash);
        assert!(neighbors.len() <= 9, "GeoHash {} 不应该超过9个邻居", hash);
    }
}

#[test]
fn test_neighbors_uniqueness() {
    let test_cases = vec!["wecn", "wx4g", "wtw3", "gcpv", "9q5", "dqc", "u4pr"];

    for hash in test_cases {
        let neighbors = get_neighbors(hash);
        let unique_count = neighbors.len();

        let mut sorted = neighbors.clone();
        sorted.sort();
        sorted.dedup();
        let deduped_count = sorted.len();

        assert_eq!(unique_count, deduped_count, "GeoHash {} 的邻居应该都是唯一的", hash);
    }
}

#[test]
fn test_empty_geohash() {
    let result = neighbor("", Direction::North);
    assert!(result.is_none(), "空 GeoHash 应该返回 None");
}

#[test]
fn test_neighbors_symmetry() {
    let hash = "wx4g";
    let neighbors = get_neighbors(hash);

    let mut symmetric_count = 0;

    for neighbor_hash in &neighbors {
        if neighbor_hash != hash {
            let reverse_neighbors = get_neighbors(neighbor_hash);
            if reverse_neighbors.contains(&hash.to_string()) {
                symmetric_count += 1;
            }
        }
    }

    assert!(symmetric_count >= (neighbors.len() - 1) / 2, "至少一半的邻居关系应该是对称的");
}

#[test]
fn test_neighbors_different_precisions() {
    let precisions = vec![("w", 1), ("wx", 2), ("wx4", 3), ("wx4g", 4), ("wx4g0", 5)];

    for (hash, precision) in precisions {
        let neighbors = get_neighbors(hash);
        assert!(
            !neighbors.is_empty() && neighbors.len() <= 9,
            "精度 {} 的 GeoHash '{}' 应该有1-9个邻居",
            precision,
            hash
        );
    }
}

#[test]
fn test_neighbor_corners() {
    let hash = "wx4g";
    let neighbors = get_neighbors(hash);

    assert_eq!(neighbors.len(), 9);

    for neighbor in &neighbors {
        assert_eq!(neighbor.len(), hash.len(), "邻居 '{}' 的长度应该与原始哈希 '{}' 相同", neighbor, hash);
    }
}

#[test]
fn test_neighbor_calculation_stability() {
    let test_hashes = vec!["wecn", "wx4g", "gcpv", "9q5"];

    for hash in test_hashes {
        let neighbors1 = get_neighbors(hash);
        let neighbors2 = get_neighbors(hash);
        let neighbors3 = get_neighbors(hash);

        assert_eq!(neighbors1, neighbors2);
        assert_eq!(neighbors2, neighbors3);
    }
}

#[test]
fn neighbors_of_known_cell_are_the_surrounding_block() {
    let expected: Vec<String> = ["wx4d", "wx4e", "wx4f", "wx4g", "wx4s", "wx4u", "wx54", "wx55", "wx5h"]
        .iter()
        .map(|s| s.to_string())
        .collect();
    assert_eq!(get_neighbors("wx4g"), expected);
}

#[test]
fn four_direction_neighbors_of_known_cell() {
    assert_eq!(neighbor("wx4g", Direction::North).as_deref(), Some("wx4u"));
    assert_eq!(neighbor("wx4g", Direction::South).as_deref(), Some("wx4f"));
    assert_eq!(neighbor("wx4g", Direction::East).as_deref(), Some("wx55"));
    assert_eq!(neighbor("wx4g", Direction::West).as_deref(), Some("wx4e"));
}

#[test]
fn neighbor_wraps_at_the_grid_edge() {
    // "z" is the north-east corner cell of the one-digit grid
    assert_eq!(neighbor("z", Direction::North).as_deref(), Some("p"));
    assert_eq!(neighbor("z", Direction::East).as_deref(), Some("b"));
    assert_eq!(neighbor("0", Direction::South).as_deref(), Some("b"));
    assert_eq!(neighbor("0", Direction::West).as_deref(), Some("p"));
}

#[test]
fn every_diagonal_is_a_composition_of_two_steps() {
    for hash in ["wecn", "s000", "zzzz", "0", "pbpbp"] {
        let neighbors = get_neighbors(hash);
        let north = neighbor(hash, Direction::North).unwrap();
        let south = neighbor(hash, Direction::South).unwrap();
        for diagonal in [
            neighbor(&north, Direction::East).unwrap(),
            neighbor(&north, Direction::West).unwrap(),
            neighbor(&south, Direction::East).unwrap(),
            neighbor(&south, Direction::West).unwrap(),
        ] {
            assert!(neighbors.contains(&diagonal));
        }
    }
}

#[test]
fn malformed_hashes_are_rejected() {
    assert!(!valid_geohash(""));
    assert!(!valid_geohash("wx4a"));
    assert!(!valid_geohash("WX4G"));
    assert!(!valid_geohash("0123456789bcd"));
    assert!(valid_geohash("0123456789bc"));
    assert!(try_get_neighbors("abc").is_none());
    assert!(get_neighbors("i").is_empty());
    assert!(neighbor("wx4g!", Direction::East).is_none());
}

#[test]
fn encode_cell_builds_hashes_of_grid_cells() {
    // the one-digit grid has 8 columns and 4 rows
    assert_eq!(encode_cell(0, 0, 1).as_deref(), Some("0"));
    assert_eq!(encode_cell(7, 3, 1).as_deref(), Some("z"));
    assert_eq!(encode_cell(8, 0, 1), None);
    assert_eq!(encode_cell(0, 4, 1), None);
    assert_eq!(encode_cell(0, 0, 0).as_deref(), Some(""));
    assert_eq!(encode_cell(0, 0, 13), None);
    // the two-digit grid has 32 columns and 32 rows
    assert_eq!(encode_cell(31, 31, 2).as_deref(), Some("zz"));
}

#[test]
fn encode_cell_interleaves_columns_and_rows() {
    // the first bit is a column bit, the second a row bit
    assert_eq!(encode_cell(1, 0, 1).as_deref(), Some("1"));
    assert_eq!(encode_cell(0, 1, 1).as_deref(), Some("2"));
    assert_eq!(encode_cell(4, 0, 1).as_deref(), Some("h"));
    // the cells of Beijing, Shanghai and London at four digits
    assert_eq!(encode_cell(843, 739, 4).as_deref(), Some("wx4g"));
    assert_eq!(encode_cell(857, 689, 4).as_deref(), Some("wtw3"));
    assert_eq!(encode_cell(511, 805, 4).as_deref(), Some("gcpv"));
}
