use hyperbolic::color::Color;
use hyperbolic::config::{ConfigError, TilingConfig};
use hyperbolic::mesh::TileTemplate;
use hyperbolic::tiling::TilingGenerator;

fn count(g: &TilingGenerator, depth: usize) -> usize {
    g.generate(depth).len()
}

#[test]
fn config_accepts_hyperbolic_pairs() {
    assert_eq!(
        TilingConfig::new(4, 5, 10),
        Ok(TilingConfig { sides: 4, corners: 5, subdiv: 10 })
    );
    assert!(TilingConfig::new(6, 4, 1).is_ok());
    assert!(TilingConfig::new(8, 3, 2).is_ok());
}

#[test]
fn config_errors() {
    assert_eq!(TilingConfig::new(2, 7, 10), Err(ConfigError::Degenerate));
    assert_eq!(TilingConfig::new(4, 2, 10), Err(ConfigError::Degenerate));
    assert_eq!(TilingConfig::new(4, 4, 10), Err(ConfigError::NotHyperbolic));
    assert_eq!(TilingConfig::new(6, 3, 10), Err(ConfigError::NotHyperbolic));
    assert_eq!(TilingConfig::new(3, 5, 10), Err(ConfigError::NotHyperbolic));
    assert_eq!(TilingConfig::new(5, 4, 10), Err(ConfigError::OddSides));
    assert_eq!(TilingConfig::new(4, 5, 0), Err(ConfigError::BadSubdivision));
    assert_eq!(TilingConfig::new(4, 5, 1 << 30), Err(ConfigError::BadSubdivision));
}

#[test]
fn depth_zero_is_the_root_alone() {
    for text in ["", "1,1,1,1", "2,2,2,2\n1,1,1,1", "zz;1"] {
        let g = TilingGenerator::new(text);
        let tiles = g.generate(0);
        assert_eq!(tiles.len(), 1);
        assert_eq!(tiles[0].fragment, 0);
        assert!(tiles[0].path.is_empty());
    }
}

#[test]
fn closed_root_emits_no_children() {
    let g = TilingGenerator::new("0,0,0,0");
    assert_eq!(count(&g, 3), count(&g, 0));
    assert_eq!(count(&g, 3), 1);
    let template = TileTemplate::new(g.config());
    assert_eq!(template.assemble(count(&g, 3)), template.assemble(count(&g, 0)));
    assert_eq!(template.assemble(count(&g, 3)).unwrap().len(), template.index().len());
}

#[test]
fn self_looped_type_branches_three_ways_below_the_root() {
    let g = TilingGenerator::new("1,1,1,1\n2,2,2,2");
    assert_eq!(count(&g, 0), 1);
    assert_eq!(count(&g, 1), 5);
    assert_eq!(count(&g, 2), 17);
    assert_eq!(count(&g, 3), 53);
}

#[test]
fn entry_side_is_skipped_below_the_root() {
    let g = TilingGenerator::new("1,1,1,1");
    let tiles = g.generate(2);
    let paths: Vec<Vec<usize>> = tiles.iter().map(|t| t.path.clone()).collect();
    assert_eq!(paths[0], Vec::<usize>::new());
    assert_eq!(paths[1], vec![0]);
    assert_eq!(paths[2], vec![0, 0]);
    assert_eq!(paths[3], vec![0, 1]);
    assert_eq!(paths[4], vec![0, 3]);
    assert_eq!(paths[5], vec![1]);
    assert!(!paths.contains(&vec![0, 2]));
    assert!(paths.contains(&vec![2]));
}

#[test]
fn rotation_reindexes_the_child_table() {
    // Type 1 reaches type 2 across side 0 only; type 2, entered with
    // rotation 1, reads its own entry 1 for traversal side 0.
    let g = TilingGenerator::new("2+1,0,0,0\n0,1,0,0");
    let tiles = g.generate(2);
    let got: Vec<(usize, Vec<usize>)> = tiles.iter().map(|t| (t.fragment, t.path.clone())).collect();
    assert_eq!(got, vec![(0, vec![]), (1, vec![0]), (0, vec![0, 0])]);
    let h = TilingGenerator::new("2,0,0,0\n0,1,0,0");
    let got: Vec<(usize, Vec<usize>)> =
        h.generate(2).iter().map(|t| (t.fragment, t.path.clone())).collect();
    assert_eq!(got, vec![(0, vec![]), (1, vec![0]), (0, vec![0, 1])]);
}

#[test]
fn out_of_range_neighbours_are_skipped() {
    let g = TilingGenerator::new("9,0\n");
    assert_eq!(count(&g, 4), 1);
}

#[test]
fn counts_do_not_shrink_with_depth() {
    let g = TilingGenerator::new("2,0,2,0\n1,2,0,0\n");
    let mut last = 0;
    for d in 0..7 {
        let c = count(&g, d);
        assert!(c >= last);
        last = c;
    }
    assert!(last > 1);
}

#[test]
fn same_text_gives_same_tiles() {
    let text = "2,3,0,2+1\n1,0,3+2,0\n2,1,1,0";
    let a = TilingGenerator::new(text).generate(4);
    let b = TilingGenerator::new(text).generate(4);
    let c = TilingGenerator::new(text).generate(4);
    let view = |v: &Vec<hyperbolic::tiling::TileInstance>| {
        v.iter().map(|t| (t.fragment, t.path.clone())).collect::<Vec<_>>()
    };
    assert_eq!(view(&a), view(&b));
    assert_eq!(view(&b), view(&c));
}

#[test]
fn hexagons_skip_side_three() {
    let config = TilingConfig::new(6, 4, 2).unwrap();
    let g = TilingGenerator::with_config(config, "1,1,1,1,1,1");
    assert_eq!(count(&g, 1), 7);
    assert_eq!(count(&g, 2), 7 + 6 * 5);
}

#[test]
fn tile_colours() {
    let g = TilingGenerator::new("ff0000;1,1,1,1\n0,0,0,0\n");
    let palette = vec![Color { r: 1, g: 2, b: 3 }, Color { r: 4, g: 5, b: 6 }];
    assert_eq!(g.tile_color(0, &palette), Color { r: 255, g: 0, b: 0 });
    assert_eq!(g.tile_color(1, &palette), Color { r: 4, g: 5, b: 6 });
    assert_eq!(g.tile_color(4, &palette), Color { r: 1, g: 2, b: 3 });
    assert_eq!(g.tile_color(1, &vec![]), Color { r: 0, g: 0, b: 0 });
}

#[test]
fn template_fan() {
    let t = TileTemplate::new(TilingConfig::new(4, 5, 2).unwrap());
    assert_eq!(t.vertex_count(), 9);
    assert_eq!(
        *t.index(),
        vec![0, 1, 2, 0, 2, 3, 0, 3, 4, 0, 4, 5, 0, 5, 6, 0, 6, 7, 0, 7, 8, 0, 8, 1]
    );
    let d = TileTemplate::new(TilingConfig::new(4, 5, 10).unwrap());
    assert_eq!(d.vertex_count(), 41);
    assert_eq!(d.index().len(), 120);
}

#[test]
fn assembled_indices_are_offset_per_tile() {
    let t = TileTemplate::new(TilingConfig::new(4, 5, 1).unwrap());
    assert_eq!(t.vertex_count(), 5);
    let idx = t.assemble(3).unwrap();
    assert_eq!(idx.len(), 36);
    assert_eq!(&idx[0..12], &t.index()[..]);
    assert_eq!(&idx[12..15], &[5, 6, 7]);
    assert_eq!(&idx[33..36], &[10, 14, 11]);
    assert_eq!(t.assemble(0), Some(vec![]));
}

#[test]
fn assembled_indices_refuse_more_vertices_than_u32_holds() {
    let t = TileTemplate::new(TilingConfig::new(4, 5, 1).unwrap());
    let most = (1usize << 32) / 5;
    assert!(t.assemble(most + 1).is_none());
    let big = TileTemplate::new(TilingConfig::new(4, 5, 1 << 16).unwrap());
    assert_eq!(big.vertex_count(), (1 << 18) + 1);
    assert!(big.assemble(1 << 14).is_none());
}

#[test]
fn emitted_tiles_stay_in_range() {
    let g = TilingGenerator::new("2+7,3,9,1+65535\n1,0,2+2,3\n3+1,1,1,4");
    let depth = 4;
    let tiles = g.generate(depth);
    assert!(tiles.len() > 1);
    assert_eq!(tiles[0].fragment, 0);
    assert!(tiles[0].path.is_empty());
    for t in &tiles[1..] {
        assert!(t.fragment < 3);
        assert!(!t.path.is_empty() && t.path.len() <= depth);
        assert!(t.path.iter().all(|&i| i < 4));
    }
}

#[test]
fn every_tile_follows_the_tile_it_was_reached_from() {
    let g = TilingGenerator::new("2,3,1,2+1\n1,3+3,0,2\n3,1,2,0");
    let tiles = g.generate(4);
    for (m, t) in tiles.iter().enumerate().skip(1) {
        let parent = &t.path[..t.path.len() - 1];
        assert!(tiles[..m].iter().any(|u| u.path == parent));
    }
}
