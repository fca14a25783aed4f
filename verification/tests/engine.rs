use softraster::fixed::{AMBIENT_FLOOR, DEPTH_FAR, SCALE};
use softraster::math::{
    apply_lighting, calculate_light_intensity, calculate_normal, edge_function, multiply_matrices,
    multiply_matrix_vector, DegenerateVectorError,
};
use softraster::order::sorted_face_order;
use softraster::pipeline::{compute_projected_vertices, rotation_x_matrix, rotation_y_matrix};
use softraster::raster::{draw_line, draw_triangle};
use softraster::render::{render_frame, RenderError};
use softraster::text::create_text_texture;
use softraster::texture::Texture;
use softraster::types::{Face, Rgba, Vec2, Vec3, Vertex};

fn vx(x: i64, y: i64, sx: i64, sy: i64, z: i64) -> Vertex {
    Vertex {
        position: Vec3 { x, y, z },
        screen_position: Vec2 { x: sx, y: sy },
        normal: Vec3 { x: 0, y: 0, z: -SCALE },
        uv: Vec2 { x: 0, y: 0 },
    }
}

/// A fixed-point vertex whose screen position is given in whole pixels.
fn screen_vx(px: i64, py: i64, z: i64) -> Vertex {
    vx(0, 0, px * SCALE, py * SCALE, z)
}

#[test]
fn edge_function_exact_values() {
    let a = Vec2 { x: 0, y: 0 };
    let b = Vec2 { x: 4 * SCALE, y: 0 };
    let c = Vec2 { x: 0, y: 4 * SCALE };
    // (c - a) x (b - a) for this counter-clockwise triangle.
    let area = edge_function(&a, &b, &c);
    assert_eq!(area, -(16i128 * (SCALE as i128) * (SCALE as i128)));
    // A point on the other side of edge a-b flips the sign.
    let p = Vec2 { x: SCALE, y: -SCALE };
    assert_eq!(
        edge_function(&a, &b, &p),
        16i128 * (SCALE as i128) * (SCALE as i128) / 4
    );
}

#[test]
fn barycentric_weights_sum_to_area() {
    // The three edge weights of any pixel sum to the triangle's area
    // (the exact integer form of "weights sum to one").
    let a = Vec2 { x: 10 * SCALE, y: 10 * SCALE };
    let b = Vec2 { x: 90 * SCALE, y: 20 * SCALE };
    let c = Vec2 { x: 40 * SCALE, y: 80 * SCALE };
    let area = edge_function(&a, &b, &c);
    for (px, py) in [(30i64, 30i64), (0, 0), (55, 41), (200, 7)] {
        let p = Vec2 { x: px * SCALE + SCALE / 2, y: py * SCALE + SCALE / 2 };
        let w0 = edge_function(&b, &c, &p);
        let w1 = edge_function(&c, &a, &p);
        let w2 = edge_function(&a, &b, &p);
        assert_eq!(w0 + w1 + w2, area);
    }
}

#[test]
fn interior_point_weights_share_area_sign() {
    // A point strictly inside has all weights of the area's sign; a point
    // outside has at least one of the opposite sign.
    let a = Vec2 { x: 0, y: 0 };
    let b = Vec2 { x: 0, y: 100 * SCALE };
    let c = Vec2 { x: 100 * SCALE, y: 100 * SCALE };
    let area = edge_function(&a, &b, &c);
    assert!(area > 0);
    let inside = Vec2 { x: 30 * SCALE, y: 70 * SCALE };
    assert!(edge_function(&b, &c, &inside) > 0);
    assert!(edge_function(&c, &a, &inside) > 0);
    assert!(edge_function(&a, &b, &inside) > 0);
    let outside = Vec2 { x: 70 * SCALE, y: 30 * SCALE };
    assert!(
        edge_function(&b, &c, &outside) < 0
            || edge_function(&c, &a, &outside) < 0
            || edge_function(&a, &b, &outside) < 0
    );
}

#[test]
fn matrix_vector_rotates_quarter_turn() {
    // A quarter turn about y sends +x to -z.
    let m = rotation_y_matrix(SCALE, 0);
    let v = Vec3 { x: SCALE, y: 0, z: 0 };
    let r = multiply_matrix_vector(&m, &v);
    assert_eq!((r.x, r.y, r.z), (0, 0, -SCALE));
}

#[test]
fn matrix_product_composes_rotations() {
    let rx = rotation_x_matrix(0, SCALE);
    let ry = rotation_y_matrix(0, SCALE);
    let m = multiply_matrices(&ry, &rx);
    assert_eq!(
        (m.m00, m.m01, m.m02, m.m10, m.m11, m.m12, m.m20, m.m21, m.m22),
        (SCALE, 0, 0, 0, SCALE, 0, 0, 0, SCALE)
    );
}

#[test]
fn calculate_normal_unit_z() {
    let a = Vec3 { x: 0, y: 0, z: 0 };
    let b = Vec3 { x: SCALE, y: 0, z: 0 };
    let c = Vec3 { x: 0, y: SCALE, z: 0 };
    let n = calculate_normal(&a, &b, &c).unwrap();
    assert_eq!((n.x, n.y, n.z), (0, 0, SCALE));
}

#[test]
fn calculate_normal_rejects_degenerate() {
    // Collinear vertices have no normal: the defensive error comes back
    // instead of a silent division by zero.
    let a = Vec3 { x: 0, y: 0, z: 0 };
    let b = Vec3 { x: SCALE, y: SCALE, z: SCALE };
    let c = Vec3 { x: 2 * SCALE, y: 2 * SCALE, z: 2 * SCALE };
    assert_eq!(calculate_normal(&a, &b, &c), Err(DegenerateVectorError));
}

#[test]
fn facing_light_full_intensity() {
    // Normal (0,0,-1), light straight ahead on -z: intensity is exactly
    // one unit.
    let n = Vec3 { x: 0, y: 0, z: -SCALE };
    let p = Vec3 { x: 0, y: 0, z: 0 };
    let l = Vec3 { x: 0, y: 0, z: -5 * SCALE };
    assert_eq!(calculate_light_intensity(&n, &p, &l), SCALE);
}

#[test]
fn perpendicular_light_ambient_floor() {
    // Normal perpendicular to the light direction: exactly the ambient
    // floor, never less.
    let n = Vec3 { x: SCALE, y: 0, z: 0 };
    let p = Vec3 { x: 0, y: 0, z: 0 };
    let l = Vec3 { x: 0, y: 0, z: 5 * SCALE };
    assert_eq!(calculate_light_intensity(&n, &p, &l), AMBIENT_FLOOR);
    // A normal facing away from the light clamps to the same floor.
    let away = Vec3 { x: 0, y: 0, z: -SCALE };
    assert_eq!(calculate_light_intensity(&away, &p, &l), AMBIENT_FLOOR);
}

#[test]
fn apply_lighting_exact_channels() {
    let c = Rgba { r: 255, g: 0, b: 100, a: 7 };
    let dim = apply_lighting(c, AMBIENT_FLOOR);
    assert_eq!((dim.r, dim.g, dim.b, dim.a), (25, 0, 10, 255));
    let full = apply_lighting(c, SCALE);
    assert_eq!((full.r, full.g, full.b, full.a), (255, 0, 100, 255));
    let over = apply_lighting(Rgba { r: 200, g: 1, b: 0, a: 0 }, 2 * SCALE);
    assert_eq!((over.r, over.g, over.b, over.a), (255, 2, 0, 255));
}

fn draw_one_triangle(pixels: &mut Vec<u8>, zs: &mut Vec<i64>) {
    let v0 = screen_vx(0, 0, -SCALE);
    let v1 = screen_vx(0, 8, -SCALE);
    let v2 = screen_vx(8, 8, -SCALE);
    let light = Vec3 { x: 0, y: 0, z: 5 * SCALE };
    let red = Rgba { r: 255, g: 0, b: 0, a: 255 };
    draw_triangle(&v0, &v1, &v2, pixels, zs, 8, 8, &light, None, red);
}

#[test]
fn draw_triangle_writes_depth_and_color() {
    let mut pixels = vec![0u8; 8 * 8 * 4];
    let mut zs = vec![DEPTH_FAR; 8 * 8];
    draw_one_triangle(&mut pixels, &mut zs);
    // Pixel (1, 7) is well inside; ambient-lit red.
    let idx = 7 * 8 + 1;
    assert_eq!(zs[idx], -SCALE);
    assert_eq!(&pixels[idx * 4..idx * 4 + 4], &[25, 0, 0, 255]);
    // Pixel (7, 0) is outside: untouched.
    let out = 0 * 8 + 7;
    assert_eq!(zs[out], DEPTH_FAR);
    assert_eq!(&pixels[out * 4..out * 4 + 4], &[0, 0, 0, 0]);
}

#[test]
fn depth_test_idempotent_and_monotonic() {
    // Rendering the same triangle twice over a cleared buffer pair gives
    // exactly the buffers of rendering it once.
    let mut pixels1 = vec![0u8; 8 * 8 * 4];
    let mut zs1 = vec![DEPTH_FAR; 8 * 8];
    draw_one_triangle(&mut pixels1, &mut zs1);
    let mut pixels2 = pixels1.clone();
    let mut zs2 = zs1.clone();
    draw_one_triangle(&mut pixels2, &mut zs2);
    assert_eq!(pixels1, pixels2);
    assert_eq!(zs1, zs2);
    // And no depth ever grew.
    for (a, b) in zs1.iter().zip(vec![DEPTH_FAR; 8 * 8].iter()) {
        assert!(a <= b);
    }
}

#[test]
fn nearer_triangle_wins_depth_test() {
    let mut pixels = vec![0u8; 8 * 8 * 4];
    let mut zs = vec![DEPTH_FAR; 8 * 8];
    let light = Vec3 { x: 0, y: 0, z: 5 * SCALE };
    let far0 = screen_vx(0, 0, SCALE);
    let far1 = screen_vx(0, 8, SCALE);
    let far2 = screen_vx(8, 8, SCALE);
    let green = Rgba { r: 0, g: 255, b: 0, a: 255 };
    // Near (red) first, far (green) second: the far one is rejected.
    draw_one_triangle(&mut pixels, &mut zs);
    draw_triangle(&far0, &far1, &far2, &mut pixels, &mut zs, 8, 8, &light, None, green);
    let idx = 7 * 8 + 1;
    assert_eq!(zs[idx], -SCALE);
    assert_eq!(&pixels[idx * 4..idx * 4 + 4], &[25, 0, 0, 255]);
}

#[test]
fn degenerate_triangle_is_skipped() {
    let mut pixels = vec![7u8; 4 * 4 * 4];
    let mut zs = vec![DEPTH_FAR; 4 * 4];
    let v = screen_vx(1, 1, 0);
    let light = Vec3 { x: 0, y: 0, z: 5 * SCALE };
    let red = Rgba { r: 255, g: 0, b: 0, a: 255 };
    draw_triangle(&v, &v, &v, &mut pixels, &mut zs, 4, 4, &light, None, red);
    assert!(pixels.iter().all(|&b| b == 7));
    assert!(zs.iter().all(|&z| z == DEPTH_FAR));
}

#[test]
fn draw_line_paints_endpoints_and_row() {
    let mut pixels = vec![0u8; 8 * 8 * 4];
    let white = Rgba { r: 255, g: 255, b: 255, a: 255 };
    // A horizontal line across row 3, from pixel (1,3) to (6,3).
    draw_line(SCALE, 3 * SCALE, 6 * SCALE, 3 * SCALE, &mut pixels, 8, 8, white);
    for x in 1..=6usize {
        let idx = (3 * 8 + x) * 4;
        assert_eq!(&pixels[idx..idx + 4], &[255, 255, 255, 255]);
    }
    // Row 5 is untouched.
    for x in 0..8usize {
        let idx = (5 * 8 + x) * 4;
        assert_eq!(&pixels[idx..idx + 4], &[0, 0, 0, 0]);
    }
}

#[test]
fn draw_line_clips_out_of_viewport_steps() {
    let mut pixels = vec![0u8; 4 * 4 * 4];
    let white = Rgba { r: 255, g: 255, b: 255, a: 255 };
    // The segment leaves the viewport; drawing must not panic and the
    // in-viewport endpoint is painted.
    draw_line(-3 * SCALE, 2 * SCALE, 2 * SCALE, 2 * SCALE, &mut pixels, 4, 4, white);
    let idx = (2 * 4 + 2) * 4;
    assert_eq!(&pixels[idx..idx + 4], &[255, 255, 255, 255]);
}

fn unit_cube() -> (Vec<Vertex>, Vec<Face>, Vec<(usize, usize)>) {
    let h = SCALE / 2;
    let corners = [
        (-h, -h, -h),
        (h, -h, -h),
        (h, h, -h),
        (-h, h, -h),
        (-h, -h, h),
        (h, -h, h),
        (h, h, h),
        (-h, h, h),
    ];
    let vertices: Vec<Vertex> = corners
        .iter()
        .map(|&(x, y, z)| Vertex {
            position: Vec3 { x, y, z },
            screen_position: Vec2 { x: 0, y: 0 },
            normal: Vec3 { x: 0, y: 0, z: 0 },
            uv: Vec2 { x: 0, y: 0 },
        })
        .collect();
    let red = Rgba { r: 255, g: 0, b: 0, a: 255 };
    let cyan = Rgba { r: 0, g: 255, b: 255, a: 255 };
    let grey = Rgba { r: 9, g: 9, b: 9, a: 255 };
    // The face list keeps the quad windings of the driver's cube; the
    // rasterizer accepts either orientation. The four side faces are
    // edge-on under the orthographic projection at zero rotation:
    // degenerate in screen space, skipped.
    let faces = vec![
        Face { a: 0, b: 1, c: 2, d: 3, color: red },
        Face { a: 5, b: 4, c: 7, d: 6, color: cyan },
        Face { a: 4, b: 0, c: 3, d: 7, color: grey },
        Face { a: 1, b: 5, c: 6, d: 2, color: grey },
        Face { a: 4, b: 5, c: 1, d: 0, color: grey },
        Face { a: 3, b: 2, c: 6, d: 7, color: grey },
    ];
    let edges = vec![
        (0, 1),
        (1, 2),
        (2, 3),
        (3, 0),
        (4, 5),
        (5, 6),
        (6, 7),
        (7, 4),
        (0, 4),
        (1, 5),
        (2, 6),
        (3, 7),
    ];
    (vertices, faces, edges)
}

fn projected_cube() -> (Vec<Vertex>, Vec<Face>, Vec<(usize, usize)>) {
    let (vertices, faces, edges) = unit_cube();
    let rotation = multiply_matrices(&rotation_y_matrix(0, SCALE), &rotation_x_matrix(0, SCALE));
    let projected = compute_projected_vertices(
        &vertices,
        &faces,
        &rotation,
        &Vec2 { x: 0, y: 0 },
        100 * SCALE,
        &Vec2 { x: 100 * SCALE, y: 100 * SCALE },
    );
    (projected, faces, edges)
}

#[test]
fn cube_frame_renders_front_face() {
    // An 8-vertex, 6-face unit cube at the origin, no rotation,
    // orthographic scale 100, viewport 200x200 centered at (100,100):
    // the front face fills screen (50,50)-(150,150) with its base color
    // under the ambient floor, everything else is depth-rejected or
    // untouched.
    let (projected, faces, edges) = projected_cube();
    // The front face's corner lands at screen pixel (50, 50).
    assert_eq!(projected[0].screen_position.x, 50 * SCALE);
    assert_eq!(projected[0].screen_position.y, 50 * SCALE);
    let mut pixels = vec![0u8; 200 * 200 * 4];
    let mut zs = vec![0i64; 200 * 200];
    let light = Vec3 { x: 0, y: 0, z: -5 * SCALE };
    let r = render_frame(
        &projected, &faces, &edges, false, &light, &mut pixels, &mut zs, 200, 200,
    );
    assert_eq!(r, Ok(()));
    for &(x, y) in [(50usize, 50usize), (100, 100), (149, 149), (75, 120)].iter() {
        let idx = y * 200 + x;
        assert_eq!(zs[idx], -SCALE / 2, "depth at {x},{y}");
        assert_eq!(&pixels[idx * 4..idx * 4 + 4], &[25, 0, 0, 255], "color at {x},{y}");
    }
    for &(x, y) in [(10usize, 10usize), (49, 100), (150, 100), (100, 151)].iter() {
        let idx = y * 200 + x;
        assert_eq!(zs[idx], DEPTH_FAR, "depth at {x},{y}");
        assert_eq!(&pixels[idx * 4..idx * 4 + 4], &[0, 0, 0, 0], "pixels at {x},{y}");
    }
}

#[test]
fn full_turn_restores_screen_positions() {
    // Rotating the cube by two pi about one axis returns every vertex to
    // its original screen position.
    let (vertices, faces, _) = unit_cube();
    let two_pi = 2.0 * std::f64::consts::PI;
    let sin = (two_pi.sin() * SCALE as f64).round() as i64;
    let cos = (two_pi.cos() * SCALE as f64).round() as i64;
    assert_eq!((sin, cos), (0, SCALE));
    let turned = multiply_matrices(&rotation_y_matrix(0, SCALE), &rotation_x_matrix(sin, cos));
    let still = multiply_matrices(&rotation_y_matrix(0, SCALE), &rotation_x_matrix(0, SCALE));
    let t = Vec2 { x: 3 * SCALE, y: -2 * SCALE };
    let center = Vec2 { x: 100 * SCALE, y: 100 * SCALE };
    let a = compute_projected_vertices(&vertices, &faces, &turned, &t, 100 * SCALE, &center);
    let b = compute_projected_vertices(&vertices, &faces, &still, &t, 100 * SCALE, &center);
    for (va, vb) in a.iter().zip(b.iter()) {
        assert_eq!(va.screen_position, vb.screen_position);
        assert_eq!(va.position, vb.position);
    }
    // And the identity transform leaves object coordinates in place.
    for (va, vo) in a.iter().zip(vertices.iter()) {
        assert_eq!(va.position.x, vo.position.x + 3 * SCALE / 100);
        assert_eq!(va.position.z, vo.position.z);
    }
}

#[test]
fn smooth_normals_average_face_normals() {
    let (projected, _, _) = projected_cube();
    // Corner 0 touches three faces whose normals (under these windings)
    // are +x, +y and +z: its smooth normal is the normalized sum, the
    // cube-corner diagonal 1/sqrt(3) in every component.
    assert_eq!(
        (projected[0].normal.x, projected[0].normal.y, projected[0].normal.z),
        (577350, 577350, 577350)
    );
}

#[test]
fn too_small_viewport_rejected_with_untouched_buffers() {
    let (projected, faces, edges) = projected_cube();
    let light = Vec3 { x: 0, y: 0, z: 5 * SCALE };
    let mut pixels = vec![42u8; 5 * 5 * 4];
    let mut zs = vec![13i64; 5 * 5];
    let r = render_frame(
        &projected, &faces, &edges, false, &light, &mut pixels, &mut zs, 5, 5,
    );
    assert_eq!(r, Err(RenderError::ViewportTooSmall));
    assert!(pixels.iter().all(|&b| b == 42));
    assert!(zs.iter().all(|&z| z == 13));
}

#[test]
fn wireframe_draws_white_edges_only() {
    let (projected, faces, edges) = projected_cube();
    let light = Vec3 { x: 0, y: 0, z: 5 * SCALE };
    let mut pixels = vec![0u8; 200 * 200 * 4];
    let mut zs = vec![0i64; 200 * 200];
    let r = render_frame(
        &projected, &faces, &edges, true, &light, &mut pixels, &mut zs, 200, 200,
    );
    assert_eq!(r, Ok(()));
    assert!(pixels.iter().all(|&b| b == 0 || b == 255));
    assert!(zs.iter().all(|&z| z == DEPTH_FAR));
    // The corner (50, 50) is an edge endpoint: painted white.
    let idx = (50 * 200 + 50) * 4;
    assert_eq!(&pixels[idx..idx + 4], &[255, 255, 255, 255]);
    // The viewport center lies on no cube edge at this rotation.
    let mid = (100 * 200 + 100) * 4;
    assert_eq!(&pixels[mid..mid + 4], &[0, 0, 0, 0]);
}

#[test]
fn faces_sorted_back_to_front() {
    let (projected, faces, _) = projected_cube();
    let order = sorted_face_order(&projected, &faces);
    assert_eq!(order.len(), faces.len());
    // The back face (all corners at z = +1/2, face index 1) comes before
    // the front face (index 0).
    let back_pos = order.iter().position(|&f| f == 1).unwrap();
    let front_pos = order.iter().position(|&f| f == 0).unwrap();
    assert!(back_pos < front_pos);
    // Each face index appears exactly once.
    let mut seen = vec![false; faces.len()];
    for &f in order.iter() {
        assert!(!seen[f]);
        seen[f] = true;
    }
}

#[test]
fn either_winding_rasterizes() {
    // Spec 4.4: a pixel is inside iff all edge values share the area's
    // sign; the engine culls no back faces, so the mirrored triangle
    // paints the same pixels.
    let light = Vec3 { x: 0, y: 0, z: 5 * SCALE };
    let red = Rgba { r: 255, g: 0, b: 0, a: 255 };
    let v0 = screen_vx(0, 0, -SCALE);
    let v1 = screen_vx(0, 8, -SCALE);
    let v2 = screen_vx(8, 8, -SCALE);
    let mut pixels_ccw = vec![0u8; 8 * 8 * 4];
    let mut zs_ccw = vec![DEPTH_FAR; 8 * 8];
    draw_triangle(&v0, &v1, &v2, &mut pixels_ccw, &mut zs_ccw, 8, 8, &light, None, red);
    let mut pixels_cw = vec![0u8; 8 * 8 * 4];
    let mut zs_cw = vec![DEPTH_FAR; 8 * 8];
    draw_triangle(&v0, &v2, &v1, &mut pixels_cw, &mut zs_cw, 8, 8, &light, None, red);
    assert_eq!(pixels_ccw, pixels_cw);
    assert_eq!(zs_ccw, zs_cw);
    let idx = 7 * 8 + 1;
    assert_eq!(&pixels_cw[idx * 4..idx * 4 + 4], &[25, 0, 0, 255]);
}

#[test]
fn textured_triangle_samples_and_blends() {
    // A 2x2 texture, all vertex uv at (0,0): the sample lands on the
    // bottom-left texel (v is flipped), its full alpha replaces the base
    // color, and the ambient floor scales it by a tenth.
    let texel = |r: u8, g: u8, b: u8, a: u8| [r, g, b, a];
    let mut data = Vec::new();
    data.extend_from_slice(&texel(1, 2, 3, 255)); // (0, 0)
    data.extend_from_slice(&texel(4, 5, 6, 255)); // (1, 0)
    data.extend_from_slice(&texel(200, 40, 60, 255)); // (0, 1): sampled
    data.extend_from_slice(&texel(7, 8, 9, 255)); // (1, 1)
    let tex = Texture { data, width: 2, height: 2 };
    let light = Vec3 { x: 0, y: 0, z: 5 * SCALE };
    let red = Rgba { r: 255, g: 0, b: 0, a: 255 };
    let v0 = screen_vx(0, 0, -SCALE);
    let v1 = screen_vx(0, 8, -SCALE);
    let v2 = screen_vx(8, 8, -SCALE);
    let mut pixels = vec![0u8; 8 * 8 * 4];
    let mut zs = vec![DEPTH_FAR; 8 * 8];
    draw_triangle(&v0, &v1, &v2, &mut pixels, &mut zs, 8, 8, &light, Some(&tex), red);
    let idx = 7 * 8 + 1;
    assert_eq!(&pixels[idx * 4..idx * 4 + 4], &[20, 4, 6, 255]);
}

#[test]
fn transparent_texel_keeps_base_color() {
    // A fully transparent texture leaves the base color in place.
    let tex = Texture { data: vec![0u8; 4], width: 1, height: 1 };
    let light = Vec3 { x: 0, y: 0, z: 5 * SCALE };
    let red = Rgba { r: 255, g: 0, b: 0, a: 255 };
    let v0 = screen_vx(0, 0, -SCALE);
    let v1 = screen_vx(0, 8, -SCALE);
    let v2 = screen_vx(8, 8, -SCALE);
    let mut pixels = vec![0u8; 8 * 8 * 4];
    let mut zs = vec![DEPTH_FAR; 8 * 8];
    draw_triangle(&v0, &v1, &v2, &mut pixels, &mut zs, 8, 8, &light, Some(&tex), red);
    let idx = 7 * 8 + 1;
    assert_eq!(&pixels[idx * 4..idx * 4 + 4], &[25, 0, 0, 255]);
}

#[test]
fn line_endpoint_rounds_half_away_from_zero() {
    // An endpoint at exactly -0.5 pixels rounds to column -1 (clipped),
    // so painting starts at column 0 on the way to the other endpoint.
    let mut pixels = vec![0u8; 4 * 4 * 4];
    let white = Rgba { r: 255, g: 255, b: 255, a: 255 };
    draw_line(-SCALE / 2, 2 * SCALE, SCALE, 2 * SCALE, &mut pixels, 4, 4, white);
    for x in 0..2usize {
        let idx = (2 * 4 + x) * 4;
        assert_eq!(&pixels[idx..idx + 4], &[255, 255, 255, 255]);
    }
    let idx = (2 * 4 + 2) * 4;
    assert_eq!(&pixels[idx..idx + 4], &[0, 0, 0, 0]);
}

#[test]
fn text_texture_blank_for_space() {
    let t = create_text_texture(&vec![' '], 32, 32);
    assert_eq!(t.width, 32);
    assert_eq!(t.height, 32);
    assert_eq!(t.data.len(), 32 * 32 * 4);
    assert!(t.data.iter().all(|&b| b == 0));
}

#[test]
fn text_texture_draws_scaled_ink() {
    let t = create_text_texture(&vec!['A'], 32, 32);
    // Ink exists, is opaque black, and comes in 4x4 blocks.
    let alpha_at = |x: usize, y: usize| t.data[(y * 32 + x) * 4 + 3];
    let mut ink = 0usize;
    for y in 0..32 {
        for x in 0..32 {
            let a = alpha_at(x, y);
            assert!(a == 0 || a == 255);
            assert_eq!(t.data[(y * 32 + x) * 4], 0);
            assert_eq!(a, alpha_at(x - x % 4, y - y % 4));
            if a == 255 {
                ink += 1;
            }
        }
    }
    assert!(ink > 0);
    assert_eq!(ink % 16, 0);
}
