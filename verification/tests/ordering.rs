use inkling::art::{ink_mask, Art};
use inkling::ordering::{
    adaptive_bridge, count_pieces, is_mostly_connected, single_value_of, skeletonize, skeletonize_mask, Geodesic,
    GeodesicReport, SkeletonValue, StartHint,
};
use inkling::schedule::geodesic_steps;

#[test]
fn spine_traces_largest_component() {
    let art = Art::parse(".\n\n   ========");
    let report = Geodesic::default().diagnose(&art);
    assert_eq!(report.ink_cells, 9);
    assert_eq!(report.connected_cells, 8); // the bar, not the 1-cell fleck
}

#[test]
fn diagnose_counts_connectivity() {
    let report = Geodesic::default().diagnose(&Art::parse("==========    ."));
    assert_eq!(report.ink_cells, 11);
    assert_eq!(report.connected_cells, 10); // the bar; the '.' is an island
}

#[test]
fn diagnose_reports_the_traced_skeleton() {
    let art = Art::parse(&"##########\n".repeat(3));
    let report = Geodesic::default().diagnose(&art);
    assert_eq!(report.ink_cells, 30);
    assert_eq!(report.connected_cells, 30);
    assert!(report.skeleton_cells < report.ink_cells, "thinning should shrink the ink: {report:?}");
    assert_eq!(report.pieces, 1);
    assert!(
        (report.spine_length as usize) < report.ink_cells,
        "spine must be the centerline, not the ink: {report:?}"
    );
}

#[test]
fn diagnose_counts_pieces() {
    let art = Art::parse("##        ##        ##");
    let report = Geodesic::default().diagnose(&art);
    assert_eq!(report.pieces, 3);
}

#[test]
fn diagnose_of_empty_art_is_all_zero() {
    let report = Geodesic::default().diagnose(&Art::parse("   \n   "));
    assert_eq!(report.ink_cells, 0);
    assert_eq!(report.spine_length, 0);
    assert_eq!(report.pieces, 0);
}

#[test]
fn bridges_small_gaps_when_fragmented() {
    let art = Art::parse("== ==");
    let strict = Geodesic { start: StartHint::TopLeft, bridge: 0 };
    assert_eq!(strict.diagnose(&art).pieces, 2);
    assert_eq!(Geodesic::default().diagnose(&art).pieces, 1);
}

#[test]
fn connected_art_is_not_bridged() {
    // A zigzag whose passes sit two rows apart; bridging would short-circuit
    // it, but since it is one strict component the spine stays long.
    let art = Art::parse("####\n   #\n####\n#\n####");
    let report = Geodesic::default().diagnose(&art);
    assert_eq!(report.connected_cells, report.ink_cells);
    assert_eq!(report.pieces, 1);
    assert!(report.spine_length >= 9, "spine was {}", report.spine_length);
}

#[test]
fn a_line_is_its_own_skeleton() {
    let art = Art::parse("=========");
    assert_eq!(skeletonize(&art), vec![true; 9]);
    let report = Geodesic::default().diagnose(&art);
    assert_eq!(report.skeleton_cells, 9);
    assert_eq!(report.spine_length, 8);
}

#[test]
fn a_two_by_two_block_thins_away() {
    let art = Art::parse("##\n##");
    assert_eq!(skeletonize(&art), vec![false; 4]);
    assert_eq!(
        Geodesic::default().diagnose(&art),
        GeodesicReport { ink_cells: 4, connected_cells: 4, skeleton_cells: 0, pieces: 0, spine_length: 0 }
    );
}

#[test]
fn the_connectivity_threshold_matches_single_precision() {
    // The threshold compares `strict as f32 >= 0.6f32 * count as f32`.
    for count in 0usize..300 {
        for strict in 0..=count {
            let expected = strict as f32 >= 0.6f32 * count.max(1) as f32;
            assert_eq!(is_mostly_connected(strict, count.max(1)), expected, "strict {strict} of {count}");
        }
    }
    for (strict, count) in [(6_000_000usize, 10_000_000usize), (5_999_999, 9_999_999), (16_777_217, 27_962_029)] {
        let expected = strict as f32 >= 0.6f32 * count as f32;
        assert_eq!(is_mostly_connected(strict, count), expected);
    }
}

#[test]
fn bridging_engages_only_on_fragmented_masks() {
    let art = Art::parse("== ==");
    let mask = ink_mask(&art);
    assert_eq!(adaptive_bridge(&mask, art.width(), art.height(), 1), 1);
    assert_eq!(adaptive_bridge(&mask, art.width(), art.height(), 0), 0);
    assert_eq!(count_pieces(&mask, art.width(), art.height(), 0), 2);
    assert_eq!(count_pieces(&mask, art.width(), art.height(), 1), 1);
    let whole = Art::parse("=====");
    let m2 = ink_mask(&whole);
    assert_eq!(adaptive_bridge(&m2, whole.width(), whole.height(), 3), 0);
}

#[test]
fn skeletonizing_a_skeleton_changes_nothing() {
    let art = Art::parse("#####\n#####\n#####\n#####\n#####");
    let skel = skeletonize(&art);
    let mask = ink_mask(&art);
    assert!(skel.iter().zip(mask.iter()).all(|(s, m)| !*s || *m));
    let again = inkling::ordering::skeletonize_mask(&skel, art.width(), art.height());
    assert_eq!(again, skel);
}

#[test]
fn diagnose_counts_never_exceed_the_ink() {
    for text in ["#####\n#####\n#####", "# # #\n     \n# # #", "==========    .", "/\\__/\\\n\\____/"] {
        let report = Geodesic::default().diagnose(&Art::parse(text));
        assert!(report.connected_cells <= report.ink_cells);
        assert!(report.skeleton_cells <= report.ink_cells);
        assert!(report.pieces <= report.skeleton_cells);
    }
}

fn geo_rank_at(r: &inkling::schedule::RankSteps, x: u16, y: u16) -> Option<f32> {
    if x >= r.width || y >= r.height {
        return None;
    }
    r.steps[y as usize * r.width as usize + x as usize].map(|s| s as f32 / r.denom as f32)
}

#[test]
fn straight_line_reveals_along_itself() {
    let art = Art::parse("=========");
    let ranks = Geodesic::default().rank(&art);
    let row: Vec<f32> = (0..art.width()).map(|x| geo_rank_at(&ranks, x, 0).unwrap()).collect();
    let increasing = row.windows(2).all(|w| w[0] <= w[1]);
    let decreasing = row.windows(2).all(|w| w[0] >= w[1]);
    assert!(increasing || decreasing, "spine reveal was not monotone: {row:?}");
    assert!((row.iter().cloned().fold(0.0_f32, f32::max) - 1.0).abs() < 1e-6);
}

#[test]
fn islands_inherit_nearest_spine_rank() {
    let art = Art::parse(".  ======  .");
    let ranks = Geodesic::default().rank(&art);
    let left = geo_rank_at(&ranks, 0, 0).unwrap();
    let right = geo_rank_at(&ranks, 11, 0).unwrap();
    assert!(left < right, "left {left} should precede right {right}");
    assert!(left < 0.25 && right > 0.75, "left={left} right={right}");
}

#[test]
fn solid_block_reveals_across_the_whole_bar() {
    let art = Art::parse(&"########\n".repeat(8));
    let r = Geodesic::default().rank(&art);
    let ranks: Vec<f32> = (0..8)
        .flat_map(|y| (0..8u16).map(move |x| (x, y)))
        .map(|(x, y)| geo_rank_at(&r, x, y).unwrap())
        .collect();
    let lo = ranks.iter().cloned().fold(f32::MAX, f32::min);
    let hi = ranks.iter().cloned().fold(f32::MIN, f32::max);
    assert!(lo < 0.02 && hi > 0.98, "block did not use the whole bar: {lo}..{hi}");
}

#[test]
fn separate_pieces_reveal_in_reading_order() {
    let art = Art::parse("##        ##\n##        ##\n##        ##");
    let r = Geodesic::default().rank(&art);
    let left = geo_rank_at(&r, 0, 1).unwrap();
    let right = geo_rank_at(&r, 11, 1).unwrap();
    assert!(left < right, "left piece {left} should precede right {right}");
    assert!(left < 0.5 && right > 0.5, "pieces out of order: {left} {right}");
}

#[test]
fn thin_line_stays_a_trace() {
    let art = Art::parse("==============");
    let r = Geodesic::default().rank(&art);
    let row: Vec<f32> = (0..art.width()).map(|x| geo_rank_at(&r, x, 0).unwrap()).collect();
    let lo = row.iter().cloned().fold(f32::MAX, f32::min);
    let hi = row.iter().cloned().fold(f32::MIN, f32::max);
    assert!(lo < 0.01 && hi > 0.99, "line did not trace end to end: {row:?}");
}

#[test]
fn key_values_match_single_precision() {
    let scale = 2f64.powi(55);
    let pieces: [usize; 8] = [0, 1, 2, 7, 1000, 16_777_215, 16_777_217, 123_456_789];
    let spans: [u32; 8] = [1, 3, 7, 10, 1000, 16_777_217, 123_456_789, u32::MAX];
    for &piece in &pieces {
        for &span in &spans {
            for dist in [0, 1, 2, span / 3, span / 2, span - 1, span] {
                let v = SkeletonValue { piece, dist, span };
                let ours = single_value_of(v) as f64 / scale;
                let float = (piece as f32 + dist as f32 / span as f32) as f64;
                assert_eq!(ours, float, "piece {piece} dist {dist} span {span}");
            }
        }
    }
}

#[test]
fn geodesic_steps_follow_the_sorted_keys() {
    for text in ["=========", ".  ======  .", "##        ##\n##        ##", "#####\n#####\n#####\n\n   .   #", "/\\_/\\\n( o.o )\n > ^ <"] {
        let art = Art::parse(text);
        let keys = Geodesic::default().keys(&art);
        let mut order: Vec<(usize, f32, u32)> = keys
            .iter()
            .enumerate()
            .map(|(i, k)| {
                let value = match k.value {
                    Some(v) => v.piece as f32 + v.dist as f32 / v.span as f32,
                    None => f32::NAN,
                };
                (i, value, k.depth)
            })
            .collect();
        order.sort_by(|a, b| a.1.total_cmp(&b.1).then(a.2.cmp(&b.2)));
        let mut expected = vec![0usize; keys.len()];
        for (place, &(i, _, _)) in order.iter().enumerate() {
            expected[i] = place;
        }
        assert_eq!(geodesic_steps(&keys), expected, "{text:?}");
        let r = Geodesic::default().rank(&art);
        let listed: Vec<usize> = r.steps.iter().flatten().copied().collect();
        assert_eq!(listed, expected, "{text:?}");
    }
}

#[test]
fn a_skeleton_is_its_own_skeleton() {
    for text in ["########\n########\n########\n########", "=========", "#   #\n ### \n#   #", "##########\n##########\n##########"] {
        let art = Art::parse(text);
        let skel = skeletonize(&art);
        assert_eq!(skeletonize_mask(&skel, art.width(), art.height()), skel, "{text:?}");
    }
}

#[test]
fn a_cloned_art_keeps_its_grid() {
    let art = Art::parse("ab\n c");
    let copy = art.clone();
    assert_eq!(copy.width(), art.width());
    assert_eq!(copy.height(), art.height());
    assert_eq!(copy.glyphs(), art.glyphs());
}
