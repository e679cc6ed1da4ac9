use fleet_suggest::tiles::{
    assign_mask, booster_slots, layout_rows, neighbour_count, place_tiles, Base, Board, Tile,
};

#[test]
fn tile_symbols() {
    assert_eq!(Tile::Empty.symbol(), "   ");
    assert_eq!(Tile::Mats.symbol(), " B ");
    assert_eq!(Tile::DrainReduce.symbol(), " X ");
}

#[test]
fn base_shapes() {
    let l = Base::Base4.layout();
    assert_eq!((l.height, l.width, l.boost_range, l.swapped_shapes), (5, 6, 2, false));
    assert_eq!(l.blocked.len(), 8);
    assert!(Base::Base5.layout().swapped_shapes);
}

#[test]
fn board_of_base3() {
    let b = Board::new(Base::Base3);
    assert_eq!(b.n(), 20);
    assert_eq!(&b.usable[0..4], &[(0, 0), (0, 2), (0, 4), (1, 0)]);
    // (0,0) is boosted within plus-shape range 2: (0,2), (1,0) and (2,0); drained by (1,1).
    assert_eq!(b.boost_adj[0], vec![1, 3, 8]);
    assert_eq!(b.drain_adj[0], vec![4]);
}

#[test]
fn board_of_base4_reaches_two() {
    let b = Board::new(Base::Base4);
    assert_eq!(b.n(), 22);
    // (0,0): plus shape up to two away: (0,1), (0,2), (2,0); (1,0) is blocked.
    assert_eq!(b.usable[0], (0, 0));
    let cells: Vec<(usize, usize)> = b.boost_adj[0].iter().map(|&j| b.usable[j]).collect();
    assert_eq!(cells, vec![(0, 1), (0, 2), (2, 0)]);
    let diag: Vec<(usize, usize)> = b.drain_adj[0].iter().map(|&j| b.usable[j]).collect();
    assert_eq!(diag, vec![(1, 1)]);
}

#[test]
fn board_of_base5_swaps_shapes() {
    let b = Board::new(Base::Base5);
    assert_eq!(b.n(), 22);
    let cells: Vec<(usize, usize)> = b.boost_adj[0].iter().map(|&j| b.usable[j]).collect();
    assert_eq!(cells, vec![(1, 1)]);
    let plus: Vec<(usize, usize)> = b.drain_adj[0].iter().map(|&j| b.usable[j]).collect();
    assert_eq!(plus, vec![(0, 1), (1, 0)]);
}

#[test]
fn drawing_a_layout() {
    let b = Board::new(Base::Base3);
    let mut tiles = vec![Tile::Mats; 20];
    tiles[0] = Tile::Booster;
    let rows = layout_rows(&b, &tiles);
    assert_eq!(rows.len(), 5);
    assert_eq!(rows[0], " +     B     B ");
    assert_eq!(rows[2], " B  B     B  B ");
    assert_eq!(rows[4], "    B  B  B    ");
}

#[test]
fn slots_masks_and_counts() {
    let mut tiles = vec![Tile::Mats, Tile::Booster, Tile::Parts, Tile::Booster, Tile::Booster];
    let slots = booster_slots(&tiles);
    assert_eq!(slots, vec![1, 3, 4]);
    assign_mask(&mut tiles, &slots, 0b101);
    assert_eq!(
        tiles,
        vec![Tile::Mats, Tile::DrainReduce, Tile::Parts, Tile::Booster, Tile::DrainReduce]
    );
    assert_eq!(neighbour_count(&tiles, &vec![1, 3, 4, 4], Tile::DrainReduce), 3);
    assert_eq!(neighbour_count(&tiles, &vec![0, 2], Tile::Booster), 0);
    assign_mask(&mut tiles, &slots, 0);
    assert_eq!(tiles, vec![Tile::Mats, Tile::Booster, Tile::Parts, Tile::Booster, Tile::Booster]);
    place_tiles(&mut tiles, &vec![4, 1], Tile::Components);
    assert_eq!(
        tiles,
        vec![Tile::Mats, Tile::Components, Tile::Parts, Tile::Booster, Tile::Components]
    );
}

#[test]
fn adjacency_lists_are_other_tiles_in_order() {
    for base in [Base::Base3, Base::Base4, Base::Base5] {
        let b = Board::new(base);
        let n = b.n();
        for i in 0..n {
            for adj in [&b.boost_adj[i], &b.drain_adj[i]] {
                assert!(adj.iter().all(|&j| j < n && j != i));
                assert!(adj.windows(2).all(|w| w[0] < w[1]));
            }
        }
    }
}

#[test]
fn drawing_uses_only_the_board_tiles() {
    let b = Board::new(Base::Base5);
    let mut tiles = vec![Tile::Parts; 23];
    tiles[22] = Tile::Booster;
    let rows = layout_rows(&b, &tiles);
    assert!(rows.iter().all(|r| !r.contains('+')));
    assert_eq!(rows[0], " P  P  P     P  P ");
}
