use term3d::draw::{Face, Screen};
use term3d::shading::shade;
use term3d::sorting::paint_order;

fn square(x: i32, y: i32, side: i32) -> Vec<(i32, i32)> {
    vec![(x, y), (x + side, y), (x + side, y + side), (x, y + side)]
}

#[test]
fn shade_scales_each_channel_and_rounds_toward_zero() {
    // channel * brightness / 255
    assert_eq!(shade((200, 100, 51), 128, false), (100, 50, 25));
    assert_eq!(shade((255, 255, 255), 34, false), (34, 34, 34));
    assert_eq!(shade((255, 100, 0), 34, false), (34, 13, 0));
    assert_eq!(shade((1, 2, 254), 254, false), (0, 1, 253));
    assert_eq!(shade((9, 9, 9), 0, false), (0, 0, 0));
    assert_eq!(shade((9, 8, 7), 255, false), (9, 8, 7));
}

#[test]
fn shade_caps_the_intensity() {
    assert_eq!(shade((200, 100, 51), 256, false), (200, 100, 51));
    assert_eq!(shade((200, 100, 51), 100_000, false), (200, 100, 51));
    assert_eq!(shade((200, 100, 51), i32::MAX, false), (200, 100, 51));
    assert_eq!(shade((200, 100, 51), -1, false), (0, 0, 0));
    assert_eq!(shade((200, 100, 51), i32::MIN, false), (0, 0, 0));
}

#[test]
fn flat_material_keeps_the_base_colour() {
    assert_eq!(shade((200, 100, 51), 34, true), (200, 100, 51));
    assert_eq!(shade((200, 100, 51), -7, true), (200, 100, 51));
    assert_eq!(shade((200, 100, 51), 9999, true), (200, 100, 51));
}

#[test]
fn shaded_channels_never_exceed_the_base_colour() {
    for intensity in [-300, -1, 0, 1, 33, 34, 127, 254, 255, 256, 1000] {
        for c in [0u8, 1, 2, 127, 128, 254, 255] {
            let out = shade((c, c, c), intensity, false);
            assert!(out.0 <= c && out.1 <= c && out.2 <= c);
        }
    }
}

#[test]
fn deepest_face_is_painted_first() {
    assert_eq!(paint_order(&vec![3, 9, -4, 7]), vec![1, 3, 0, 2]);
    assert_eq!(paint_order(&Vec::new()), Vec::<usize>::new());
    assert_eq!(paint_order(&vec![0]), vec![0]);
    assert_eq!(paint_order(&vec![i32::MIN, i32::MAX]), vec![1, 0]);
}

#[test]
fn faces_of_equal_depth_are_painted_last_to_first() {
    assert_eq!(paint_order(&vec![5, 9, 5]), vec![1, 2, 0]);
    assert_eq!(paint_order(&vec![1, 1, 1, 1]), vec![3, 2, 1, 0]);
    assert_eq!(paint_order(&vec![2, 1, 2, 1, 2]), vec![4, 2, 0, 3, 1]);
}

#[test]
fn nearer_face_overdraws_deeper_face() {
    let mut screen = Screen::new(8, 3);
    let faces = vec![
        Face { outline: square(0, 0, 4), depth: 1, intensity: 255 },
        Face { outline: square(2, 2, 4), depth: 5, intensity: 34 },
    ];
    screen.polyhedron(faces, (255, 100, 0), false);
    // the face of depth 5 first, the face of depth 1 over it
    assert_eq!(screen.pixel(1, 1), Some((255, 100, 0)));
    assert_eq!(screen.pixel(3, 3), Some((255, 100, 0)));
    assert_eq!(screen.pixel(5, 3), Some((34, 13, 0)));
    assert_eq!(screen.pixel(5, 5), Some((34, 13, 0)));
    assert_eq!(screen.pixel(7, 0), Some((0, 0, 0)));
}

#[test]
fn order_of_the_faces_in_the_list_does_not_matter_for_different_depths() {
    let mut one = Screen::new(8, 3);
    one.polyhedron(
        vec![
            Face { outline: square(0, 0, 4), depth: 1, intensity: 200 },
            Face { outline: square(2, 2, 4), depth: 5, intensity: 90 },
        ],
        (255, 255, 255),
        false,
    );
    let mut two = Screen::new(8, 3);
    two.polyhedron(
        vec![
            Face { outline: square(2, 2, 4), depth: 5, intensity: 90 },
            Face { outline: square(0, 0, 4), depth: 1, intensity: 200 },
        ],
        (255, 255, 255),
        false,
    );
    assert_eq!(one.write(), two.write());
    assert_eq!(one.pixel(3, 3), Some((200, 200, 200)));
}

#[test]
fn of_two_faces_of_equal_depth_the_first_ends_on_top() {
    let mut screen = Screen::new(8, 3);
    screen.polyhedron(
        vec![
            Face { outline: square(0, 0, 4), depth: 7, intensity: 100 },
            Face { outline: square(2, 2, 4), depth: 7, intensity: 200 },
        ],
        (255, 255, 255),
        false,
    );
    assert_eq!(screen.pixel(3, 3), Some((100, 100, 100)));
    assert_eq!(screen.pixel(5, 5), Some((200, 200, 200)));
}

#[test]
fn flat_material_paints_every_face_in_the_base_colour() {
    let mut screen = Screen::new(8, 3);
    screen.polyhedron(
        vec![
            Face { outline: square(0, 0, 4), depth: 1, intensity: 34 },
            Face { outline: square(2, 2, 4), depth: 5, intensity: -20 },
        ],
        (12, 34, 56),
        true,
    );
    assert_eq!(screen.pixel(1, 1), Some((12, 34, 56)));
    assert_eq!(screen.pixel(5, 5), Some((12, 34, 56)));
}

#[test]
fn intensity_beyond_the_channel_range_is_stored_as_a_channel_value() {
    let mut screen = Screen::new(4, 2);
    screen.polyhedron(
        vec![Face { outline: square(0, 0, 4), depth: 0, intensity: 70_000 }],
        (255, 128, 3),
        false,
    );
    assert_eq!(screen.pixel(0, 0), Some((255, 128, 3)));
    let frame = String::from_utf8(screen.write()).unwrap();
    assert!(frame.starts_with("\x1b[38;2;255;128;3;48;2;255;128;3m"));
    let mut dark = Screen::new(4, 2);
    dark.polyhedron(
        vec![Face { outline: square(0, 0, 4), depth: 0, intensity: -70_000 }],
        (255, 128, 3),
        false,
    );
    assert_eq!(dark.pixel(0, 0), Some((0, 0, 0)));
}

#[test]
fn no_faces_paint_nothing() {
    let mut screen = Screen::new(4, 2);
    screen.polygon(square(0, 0, 2), (4, 5, 6));
    let before = screen.write();
    screen.polyhedron(Vec::new(), (255, 255, 255), true);
    assert_eq!(screen.write(), before);
}
