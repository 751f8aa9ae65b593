use softrender::fragment::{triangle_fragments, Fragment, Weighting};
use softrender::raster::{fill, line_pixels};

fn frag(x: i32, y: i32, weighting: Weighting) -> Fragment {
    Fragment { x, y, weighting }
}

#[test]
fn wireframe_is_three_strokes() {
    let frags = triangle_fragments((0, 0), (2, 0), (0, 2), true);
    assert_eq!(
        frags,
        vec![
            frag(0, 0, Weighting::Corner(0)),
            frag(1, 0, Weighting::Edge(0, 1)),
            frag(2, 0, Weighting::Edge(0, 1)),
            frag(2, 0, Weighting::Corner(1)),
            frag(1, 1, Weighting::Edge(1, 2)),
            frag(0, 2, Weighting::Edge(1, 2)),
            frag(0, 2, Weighting::Corner(2)),
            frag(0, 1, Weighting::Edge(2, 0)),
            frag(0, 0, Weighting::Edge(2, 0)),
        ]
    );
}

#[test]
fn filled_triangle_is_fill_then_outline() {
    let (a, b, c) = ((0, 0), (4, 0), (0, 4));
    let frags = triangle_fragments(a, b, c, false);
    let outline = triangle_fragments(a, b, c, true);
    let interior = fill(a, b, c);
    assert_eq!(frags.len(), interior.len() + outline.len());
    for (f, p) in frags.iter().zip(interior.iter()) {
        assert_eq!(*f, frag(p.0, p.1, Weighting::Interior));
    }
    assert_eq!(frags[interior.len()..].to_vec(), outline);
}

#[test]
fn degenerate_triangle_paints_only_its_segment() {
    let (a, b, c) = ((1, 1), (3, 3), (5, 5));
    let frags = triangle_fragments(a, b, c, false);
    assert!(frags.iter().all(|f| f.weighting != Weighting::Interior));
    let segment = line_pixels((1, 1), (5, 5));
    for p in segment.iter() {
        assert!(frags.iter().any(|f| (f.x, f.y) == *p));
    }
    for f in frags.iter() {
        assert!(segment.contains(&(f.x, f.y)));
    }
}

#[test]
fn back_facing_triangle_keeps_its_outline() {
    let frags = triangle_fragments((0, 0), (0, 4), (4, 0), false);
    assert!(!frags.is_empty());
    assert!(frags.iter().all(|f| f.weighting != Weighting::Interior));
}
