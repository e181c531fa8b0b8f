use shrimpy::geometry::{Triangle, Vec3, UNITS_PER_LENGTH};
use shrimpy::mesh::parse_mesh;

const U: i32 = UNITS_PER_LENGTH;

fn tri(a: Vec3, b: Vec3, c: Vec3, m: u32) -> Triangle {
    Triangle::new([a, b, c], m)
}

#[test]
fn reads_plain_faces() {
    let text = b"v 0 0 0\nv 1 0 0\nv 0 1 0\nf 1 2 3\n";
    let tris = parse_mesh(text, 3);
    assert_eq!(tris, vec![tri(Vec3::zero(), Vec3::new(U, 0, 0), Vec3::new(0, U, 0), 3)]);
}

#[test]
fn reads_textured_faces() {
    let text = b"v 0 0 0\nv 2 0 0\nv 0 0 2\nvt 0.5 0.5\nvt 1 0\nf 3/1 1/2 2/1\n";
    let tris = parse_mesh(text, 1);
    assert_eq!(tris, vec![tri(Vec3::new(0, 0, 2 * U), Vec3::zero(), Vec3::new(2 * U, 0, 0), 1)]);
}

#[test]
fn textured_mesh_skips_faces_without_pairs() {
    let text = b"v 0 0 0\nv 1 0 0\nv 0 1 0\nvt 0 0\nf 1 2 3\n";
    assert!(parse_mesh(text, 0).is_empty());
}

#[test]
fn plain_mesh_skips_faces_with_pairs() {
    let text = b"v 0 0 0\nv 1 0 0\nv 0 1 0\nf 1/1 2/1 3/1\n";
    assert!(parse_mesh(text, 0).is_empty());
}

#[test]
fn skips_faces_naming_missing_vertices() {
    let text = b"v 0 0 0\nv 1 0 0\nv 0 1 0\nf 1 2 4\nf 0 1 2\nf 1 2\nf 1 x 3\nf 3 2 1";
    let tris = parse_mesh(text, 0);
    assert_eq!(tris, vec![tri(Vec3::new(0, U, 0), Vec3::new(U, 0, 0), Vec3::zero(), 0)]);
}

#[test]
fn reads_signed_and_fractional_coordinates() {
    let text = b"v -1.5 0.00005 2.71828\nv +3. .25 -0.00004\nv 100000 -100000 0.0001\nf 1 2 3\n";
    let tris = parse_mesh(text, 0);
    assert_eq!(tris.len(), 1);
    assert_eq!(tris[0].vertex_0, Vec3::new(-15_000, 1, 27_183));
    assert_eq!(tris[0].vertex_1, Vec3::new(3 * U, 2_500, 0));
    assert_eq!(tris[0].vertex_2, Vec3::new(1_000_000_000, -1_000_000_000, 1));
}

#[test]
fn unreadable_coordinates_read_as_zero() {
    let text = b"v abc 1e3 100001\nv - . 1.2.3\nv 1 1 1\nf 1 2 3\n";
    let tris = parse_mesh(text, 0);
    assert_eq!(tris[0].vertex_0, Vec3::zero());
    assert_eq!(tris[0].vertex_1, Vec3::zero());
    assert_eq!(tris[0].vertex_2, Vec3::all(U));
}

#[test]
fn handles_crlf_blank_lines_and_indentation() {
    let text = b"# corner\r\n\r\n  v 1 2 3\r\n\tv 4 5 6\r\nv 7 8 9\r\nf 1 2 3 \r\n";
    let tris = parse_mesh(text, 2);
    assert_eq!(
        tris,
        vec![tri(Vec3::new(U, 2 * U, 3 * U), Vec3::new(4 * U, 5 * U, 6 * U), Vec3::new(7 * U, 8 * U, 9 * U), 2)]
    );
}

#[test]
fn any_line_starting_with_v_is_a_vertex() {
    let text = b"vn 0 1 0\nv 1 0 0\nv 0 0 1\nf 1 2 3\n";
    let tris = parse_mesh(text, 0);
    assert_eq!(tris[0].vertex_0, Vec3::new(0, U, 0));
}

#[test]
fn quads_keep_their_first_three_vertices() {
    let text = b"v 0 0 0\nv 1 0 0\nv 1 1 0\nv 0 1 0\nf 1 2 3 4\nf +4 3 2\n";
    let tris = parse_mesh(text, 0);
    assert_eq!(tris.len(), 2);
    assert_eq!(tris[0].vertex_2, Vec3::new(U, U, 0));
    assert_eq!(tris[1].vertex_0, Vec3::new(0, U, 0));
}

#[test]
fn empty_text_has_no_triangles() {
    assert!(parse_mesh(b"", 0).is_empty());
    assert!(parse_mesh(b"v 1 2\nf 1 1 1\n", 0).is_empty());
}
