use inkling::grid::{bfs, flood};

#[test]
fn a_search_ends_on_the_first_cell_it_visits_farthest_out() {
    // Every cell of a solid 3x3 block is one step from the centre; the search
    // visits the corner at index 0 first.
    let (dist, far) = bfs(&vec![true; 9], 3, 3, 4, 0);
    assert_eq!(dist, vec![Some(1), Some(1), Some(1), Some(1), Some(0), Some(1), Some(1), Some(1), Some(1)]);
    assert_eq!(far, 0);
    // From a corner the whole far row and column lie two steps away; the
    // search reaches index 2 first.
    let (dist, far) = bfs(&vec![true; 9], 3, 3, 0, 0);
    assert_eq!(dist[8], Some(2));
    assert_eq!(far, 2);
}

#[test]
fn a_flood_credits_each_cell_to_the_source_that_reached_it_first() {
    let mut src = vec![false; 9];
    src[0] = true;
    src[8] = true;
    let res = flood(&src, 3, 3);
    assert_eq!(res[0], Some((0, 0)));
    assert_eq!(res[8], Some((8, 0)));
    // The centre is one step from both corners; the lower-index source
    // expands first and claims it.
    assert_eq!(res[4], Some((0, 1)));
    assert_eq!(res[5], Some((8, 1)));
    assert_eq!(res[2], Some((0, 2)));
    assert_eq!(res[6], Some((0, 2)));
}

#[test]
fn a_search_starts_from_its_source_even_when_that_cell_is_blank() {
    let (dist, far) = bfs(&vec![true, false, true], 3, 1, 1, 0);
    assert_eq!(dist, vec![Some(1), Some(0), Some(1)]);
    assert_eq!(far, 0);
    let (dist, far) = bfs(&vec![false; 3], 3, 1, 0, 0);
    assert_eq!(dist, vec![Some(0), None, None]);
    assert_eq!(far, 0);
}
