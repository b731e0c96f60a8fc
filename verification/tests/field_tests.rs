use libtfce::field::{generate_1d_field, generate_2d4c_field, generate_2d8c_field};
use libtfce::freesurfer::{check_corners, extend_graph_into_time, triangles_to_graph};
use libtfce::voxel::{Voxel, ZERO_VALUE};

fn links(voxels: &Vec<Voxel>) -> Vec<Vec<usize>> {
    voxels.iter().map(|v| v.voxel_links.clone()).collect()
}

fn is_symmetric(voxels: &Vec<Voxel>) -> bool {
    voxels.iter().enumerate().all(|(i, v)| {
        v.voxel_links.iter().all(|l| *l != i && *l < voxels.len() && voxels[*l].voxel_links.contains(&i))
    })
}

#[test]
fn voxel_new_keeps_value_and_links() {
    let v = Voxel::new(17, vec![3, 1]);
    assert_eq!(v.value, 17);
    assert_eq!(v.voxel_links, vec![3, 1]);
}

#[test]
fn chain_of_two_and_of_four() {
    assert_eq!(links(&generate_1d_field(2)), vec![vec![1], vec![0]]);
    let chain = generate_1d_field(4);
    assert_eq!(links(&chain), vec![vec![1], vec![0, 2], vec![1, 3], vec![2]]);
    assert!(chain.iter().all(|v| v.value == ZERO_VALUE));
}

#[test]
fn grid_of_four_neighbours() {
    assert_eq!(
        links(&generate_2d4c_field(2)),
        vec![vec![1, 2], vec![0, 3], vec![3, 0], vec![2, 1]]
    );
    let grid = generate_2d4c_field(3);
    assert_eq!(grid.len(), 9);
    assert_eq!(grid[4].voxel_links, vec![5, 3, 7, 1]);
    assert_eq!(grid[0].voxel_links, vec![1, 3]);
    assert_eq!(grid[8].voxel_links, vec![7, 5]);
    assert!(is_symmetric(&grid));
    assert!(grid.iter().all(|v| v.value == ZERO_VALUE));
}

#[test]
fn grid_of_eight_neighbours() {
    let grid = generate_2d8c_field(3);
    assert_eq!(grid.len(), 9);
    assert_eq!(grid[4].voxel_links, vec![5, 3, 7, 1, 8, 2, 6, 0]);
    assert_eq!(grid[0].voxel_links, vec![1, 3, 4]);
    assert_eq!(grid[2].voxel_links, vec![1, 5, 4]);
    assert_eq!(grid[6].voxel_links, vec![7, 3, 4]);
    assert_eq!(grid[8].voxel_links, vec![7, 5, 4]);
    assert_eq!(grid[5].voxel_links, vec![4, 8, 2, 7, 1]);
    assert!(is_symmetric(&grid));
    assert!(is_symmetric(&generate_2d8c_field(7)));
}

#[test]
fn mesh_of_two_hemispheres() {
    let voxels = triangles_to_graph(
        4,
        vec![vec![1, 2, 3], vec![2, 3, 4]],
        3,
        vec![vec![1, 2, 3]],
    );
    assert_eq!(
        links(&voxels),
        vec![
            vec![1, 2],
            vec![0, 2, 3],
            vec![0, 1, 3],
            vec![1, 2],
            vec![5, 6],
            vec![4, 6],
            vec![4, 5],
        ]
    );
    assert!(is_symmetric(&voxels));
    assert!(voxels.iter().all(|v| v.value == ZERO_VALUE));
}

#[test]
fn mesh_with_a_repeated_corner() {
    let voxels = triangles_to_graph(2, vec![vec![1, 1, 2]], 0, vec![]);
    assert_eq!(links(&voxels), vec![vec![1], vec![0]]);
}

#[test]
fn corners_are_checked_against_the_vertex_count() {
    assert!(check_corners(&vec![vec![1, 2, 3], vec![3, 2, 1]], 3));
    assert!(!check_corners(&vec![vec![1, 2, 4]], 3));
    assert!(!check_corners(&vec![vec![0, 1, 2]], 3));
    assert!(!check_corners(&vec![vec![1, -2, 2]], 3));
    assert!(check_corners(&vec![], 0));
}

#[test]
fn graph_extended_into_time() {
    let mut chain = generate_1d_field(3);
    chain[1].value = 42;
    let extended = extend_graph_into_time(chain, 3);
    assert_eq!(extended.len(), 9);
    assert_eq!(
        links(&extended),
        vec![
            vec![1, 3],
            vec![0, 2, 4],
            vec![1, 5],
            vec![4, 6, 0],
            vec![3, 5, 7, 1],
            vec![4, 8, 2],
            vec![7, 3],
            vec![6, 8, 4],
            vec![7, 5],
        ]
    );
    assert_eq!(extended[4].value, 42);
    assert_eq!(extended[7].value, 42);
    assert_eq!(extended[0].value, ZERO_VALUE);
    assert!(is_symmetric(&extended));
}

#[test]
fn graph_extended_into_one_time_slice_or_none() {
    let chain = generate_1d_field(2);
    assert_eq!(links(&extend_graph_into_time(chain.clone(), 1)), vec![vec![1], vec![0]]);
    assert_eq!(extend_graph_into_time(chain, 0).len(), 0);
}

#[test]
fn graphs_are_checked_before_the_transform() {
    use_checks();
}

fn use_checks() {
    let good = generate_2d8c_field(4);
    assert!(libtfce::voxel::check_graph(&good));
    assert!(libtfce::voxel::check_adjacency(&good));
    assert!(libtfce::voxel::check_links_in_range(&good));
    assert!(libtfce::voxel::has_link(&good, 0, 1));
    assert!(!libtfce::voxel::has_link(&good, 0, 2));

    let empty: Vec<Voxel> = vec![];
    assert!(!libtfce::voxel::check_graph(&empty));
    assert!(libtfce::voxel::check_adjacency(&empty));

    let one_way = vec![Voxel::new(1, vec![1]), Voxel::new(2, vec![])];
    assert!(libtfce::voxel::check_links_in_range(&one_way));
    assert!(!libtfce::voxel::check_adjacency(&one_way));
    assert!(!libtfce::voxel::check_graph(&one_way));

    let outside = vec![Voxel::new(1, vec![2]), Voxel::new(2, vec![0])];
    assert!(!libtfce::voxel::check_links_in_range(&outside));
    assert!(!libtfce::voxel::check_graph(&outside));

    let loops = vec![Voxel::new(1, vec![0, 1]), Voxel::new(2, vec![0])];
    assert!(libtfce::voxel::check_links_in_range(&loops));
    assert!(!libtfce::voxel::check_graph(&loops));

    let alone = vec![Voxel::new(1, vec![])];
    assert!(libtfce::voxel::check_graph(&alone));
}
