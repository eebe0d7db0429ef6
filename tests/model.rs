use spectra::model::{create_keys_from_primitive, index_geometry, vtnindex_to_key, Primitive, UnsupportedVertex};

#[test]
fn complete_corner_becomes_position_normal_texture() {
    assert_eq!(vtnindex_to_key((4, Some(7), Some(9))), Ok((4, 9, 7)));
    assert_eq!(vtnindex_to_key((4, None, Some(9))), Err(UnsupportedVertex));
    assert_eq!(vtnindex_to_key((4, Some(7), None)), Err(UnsupportedVertex));
}

#[test]
fn primitive_keys_follow_corners() {
    let a = (0, Some(1), Some(2));
    let b = (3, Some(4), Some(5));
    assert_eq!(create_keys_from_primitive(Primitive::Point(a)), Ok(vec![(0, 2, 1)]));
    assert_eq!(create_keys_from_primitive(Primitive::Line(a, b)), Ok(vec![(0, 2, 1), (3, 5, 4)]));
    assert_eq!(
        create_keys_from_primitive(Primitive::Triangle(a, b, (6, None, Some(0)))),
        Err(UnsupportedVertex)
    );
}

#[test]
fn shared_corners_share_a_vertex() {
    let a = (0, Some(0), Some(0));
    let b = (1, Some(0), Some(0));
    let c = (2, Some(0), Some(0));
    let d = (3, Some(0), Some(0));
    let prims = vec![Primitive::Triangle(a, b, c), Primitive::Triangle(c, b, d), Primitive::Point(a)];
    let (vs, ix) = index_geometry(&prims).unwrap();
    assert_eq!(vs, vec![(0, 0, 0), (1, 0, 0), (2, 0, 0), (3, 0, 0)]);
    assert_eq!(ix, vec![0, 1, 2, 2, 1, 3, 0]);
}

#[test]
fn one_incomplete_corner_fails_the_mesh() {
    let a = (0, Some(0), Some(0));
    let prims = vec![Primitive::Point(a), Primitive::Line(a, (1, Some(0), None))];
    assert_eq!(index_geometry(&prims), Err(UnsupportedVertex));
    assert_eq!(index_geometry(&vec![]), Ok((vec![], vec![])));
}

use spectra::runner::{window_dim, WindowDim};

#[test]
fn window_dim_from_options() {
    assert_eq!(window_dim(None, None, 800, 600, false), WindowDim::Windowed(800, 600));
    assert_eq!(window_dim(Some(1024), None, 800, 600, false), WindowDim::Windowed(1024, 600));
    assert_eq!(window_dim(Some(1024), None, 800, 600, true), WindowDim::Fullscreen);
    assert_eq!(window_dim(Some(1024), Some(768), 800, 600, true), WindowDim::FullscreenRestricted(1024, 768));
}
