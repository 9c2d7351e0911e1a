use atlast::atlas::{Atlas, Glyph, NoGlyph};
use atlast::bitmap::{Bitmap, Pixel};
use atlast::index::{baseline, frame, is_frameish, IndexGlyph, LoadedGlyph, LoadedIndex};
use atlast::point::Point;

fn ink() -> Pixel {
    Pixel { r: 10, g: 20, b: 30, a: 255 }
}

/// Builds a buffer from rows of characters: `p` frame, `c` baseline
/// marker, `.` a visible glyph pixel, anything else background.
fn bmp(rows: &[&str]) -> Bitmap {
    let h = rows.len() as u32;
    let w = if h == 0 { 0 } else { rows[0].len() as u32 };
    let bg = Pixel { r: 0, g: 0, b: 0, a: 0 };
    let mut b = Bitmap::new(w, h, bg).unwrap();
    for (y, line) in rows.iter().enumerate() {
        for (x, ch) in line.chars().enumerate() {
            let p = match ch {
                'p' => frame(),
                'c' => baseline(),
                '.' => ink(),
                _ => bg,
            };
            b.put(x as u32, y as u32, p);
        }
    }
    b
}

fn solid(w: u32, h: u32) -> Bitmap {
    Bitmap::new(w, h, ink()).unwrap()
}

fn loaded(path: &str, descent: u32, image: Bitmap) -> LoadedGlyph {
    LoadedGlyph {
        glyph: IndexGlyph { path: path.to_string(), descent },
        image,
    }
}

fn boxes(atlas: &Atlas) -> Vec<Vec<(u32, u32, u32, u32, u32)>> {
    atlas
        .rows()
        .iter()
        .map(|row| {
            row.iter()
                .map(|g| (g.tl.x, g.tl.y, g.br.x, g.br.y, g.descent))
                .collect()
        })
        .collect()
}

#[test]
fn literal_scenario_decode() {
    // A 9x5 buffer: one glyph over rows 0-3 and columns 0-7, a frame
    // column at x=8 whose row 2 is the baseline marker, and a frame row.
    let b = bmp(&[
        "........p",
        "........p",
        "........c",
        "........p",
        "ppppppppp",
    ]);
    let atlas = Atlas::from_image(&b);
    assert_eq!(atlas.row_count(), 1);
    assert_eq!(atlas.len(), 1);
    let rows = atlas.rows();
    assert_eq!(rows[0].len(), 1);
    let g = rows[0][0];
    assert_eq!((g.tl.x, g.tl.y), (0, 0));
    assert_eq!((g.br.x, g.br.y), (7, 3));
    assert_eq!(g.descent, 2);
    assert_eq!(g.x(), 0);
    assert_eq!(g.y(), 0);
    assert_eq!(g.w(), 8);
    assert_eq!(g.h(), 4);
    assert!(g.descent < g.h());
}

#[test]
fn compose_single_glyph_auto_size() {
    // Composing the literal scenario's glyph (8x4 image, descent 2) at
    // automatic size reproduces a 9x5 canvas with the frame border at
    // x=8 and y=4 and the baseline marker at (8, 2).
    let li = LoadedIndex { rows: vec![vec![loaded("000.png", 2, solid(8, 4))]] };
    let canvas = li.to_atlas_image((0, 0)).unwrap();
    assert_eq!(canvas.width(), 9);
    assert_eq!(canvas.height(), 5);
    for y in 0..5 {
        for x in 0..9 {
            let p = canvas.get(x, y).unwrap();
            if x == 8 && y == 2 {
                assert_eq!(p, baseline());
            } else if x == 8 || y == 4 {
                assert_eq!(p, frame());
            } else {
                assert_eq!(p, ink());
            }
        }
    }
}

#[test]
fn round_trip_two_rows() {
    // decode -> compose (auto size) -> decode is idempotent on a
    // synthetic atlas: same boxes, frame placement and markers.
    let li = LoadedIndex {
        rows: vec![
            vec![loaded("000.png", 1, solid(3, 2)), loaded("001.png", 0, solid(2, 2))],
            vec![loaded("002.png", 2, solid(4, 3))],
        ],
    };
    let canvas = li.to_atlas_image((0, 0)).unwrap();
    assert_eq!(canvas.width(), 7);
    assert_eq!(canvas.height(), 7);

    let atlas = Atlas::from_image(&canvas);
    assert_eq!(atlas.row_count(), 2);
    assert_eq!(atlas.len(), 3);
    let first = boxes(&atlas);
    assert_eq!(
        first,
        vec![
            vec![(0, 0, 2, 1, 1), (4, 0, 5, 1, 0)],
            vec![(0, 3, 3, 5, 2)],
        ]
    );

    let exported = atlas.export();
    let canvas2 = exported.to_atlas_image((0, 0)).unwrap();
    assert_eq!(canvas2.width(), canvas.width());
    assert_eq!(canvas2.height(), canvas.height());
    for y in 0..canvas.height() {
        for x in 0..canvas.width() {
            assert_eq!(canvas2.get(x, y), canvas.get(x, y));
        }
    }

    let atlas2 = Atlas::from_image(&canvas2);
    assert_eq!(boxes(&atlas2), first);
}

#[test]
fn empty_row_terminates_decode() {
    // Below the all-frame row that ends the decode there is a whole
    // well-formed glyph row; it must not be scanned.
    let b = bmp(&[
        "..p",
        "..p",
        "ppp",
        "ppp",
        "..p",
        "..p",
        "ppp",
    ]);
    let atlas = Atlas::from_image(&b);
    assert_eq!(atlas.row_count(), 1);
    assert_eq!(atlas.len(), 1);
    let g = atlas.rows()[0][0];
    assert_eq!((g.tl.x, g.tl.y, g.br.x, g.br.y), (0, 0, 1, 1));
}

#[test]
fn decode_of_frameless_buffer_is_empty() {
    let b = solid(4, 4);
    let atlas = Atlas::from_image(&b);
    assert_eq!(atlas.row_count(), 0);
    assert_eq!(atlas.len(), 0);
}

#[test]
fn decode_of_all_frame_buffer_is_empty() {
    let b = Bitmap::new(4, 4, frame()).unwrap();
    let atlas = Atlas::from_image(&b);
    assert_eq!(atlas.row_count(), 0);
    assert_eq!(atlas.len(), 0);
}

#[test]
fn detect_sentinels() {
    let b = bmp(&["..p", "..p", "ppp"]);
    // At a frame pixel the detector reports JustFrame, not a glyph.
    let r = Glyph::from_image(&b, Point { x: 2, y: 0 });
    assert_eq!(r, Err(NoGlyph::JustFrame { point: Point { x: 2, y: 0 } }));
    // Off the buffer edge it reports End.
    let r = Glyph::from_image(&b, Point { x: 3, y: 0 });
    assert_eq!(r, Err(NoGlyph::End));
    // A column without any frame pixel runs off the edge: End.
    let all_ink = solid(3, 3);
    let r = Glyph::from_image(&all_ink, Point { x: 0, y: 0 });
    assert_eq!(r, Err(NoGlyph::End));
}

#[test]
fn override_smaller_clips_silently() {
    // A 3x3 override for a 4x4 glyph succeeds and clips: no frame or
    // marker pixel survives on the canvas.
    let li = LoadedIndex { rows: vec![vec![loaded("000.png", 2, solid(4, 4))]] };
    let canvas = li.to_atlas_image((3, 3)).unwrap();
    assert_eq!(canvas.width(), 3);
    assert_eq!(canvas.height(), 3);
    for y in 0..3 {
        for x in 0..3 {
            assert_eq!(canvas.get(x, y).unwrap(), ink());
        }
    }
}

#[test]
fn zero_dimension_is_rejected() {
    // A requested dimension of 0 means automatic; only a derived zero
    // dimension is an error.
    let li = LoadedIndex { rows: vec![vec![loaded("000.png", 0, solid(4, 4))]] };
    let e = li.to_atlas_image((0, 0)).map(|_| ()).err();
    assert_eq!(e, None);
    let empty = LoadedIndex { rows: vec![] };
    let e = empty.to_atlas_image((0, 0)).map(|_| ()).unwrap_err();
    assert_eq!((e.width, e.height), (0, 0));
    let e = empty.to_atlas_image((5, 0)).map(|_| ()).unwrap_err();
    assert_eq!((e.width, e.height), (5, 0));
    // A row without glyphs derives a zero width.
    let hollow = LoadedIndex { rows: vec![vec![]] };
    let e = hollow.to_atlas_image((0, 7)).map(|_| ()).unwrap_err();
    assert_eq!((e.width, e.height), (0, 7));
}

#[test]
fn export_assigns_row_major_identifiers() {
    let li = LoadedIndex {
        rows: vec![
            vec![loaded("a", 1, solid(2, 2)), loaded("b", 0, solid(2, 2))],
            vec![loaded("c", 0, solid(2, 2))],
        ],
    };
    let canvas = li.to_atlas_image((0, 0)).unwrap();
    let atlas = Atlas::from_image(&canvas);
    let exported = atlas.export();
    let ix = exported.to_index();
    assert_eq!(ix.len(), 3);
    assert_eq!(ix.rows[0][0].path, "000.png");
    assert_eq!(ix.rows[0][0].descent, 1);
    assert_eq!(ix.rows[0][1].path, "001.png");
    assert_eq!(ix.rows[0][1].descent, 0);
    assert_eq!(ix.rows[1][0].path, "002.png");
    assert_eq!(ix.rows[1][0].descent, 0);
    // The exported crops keep the glyph pixels and their dimensions.
    let crop = &exported.rows[0][0].image;
    assert_eq!((crop.width(), crop.height()), (2, 2));
    assert_eq!(crop.get(0, 0).unwrap(), ink());
}

#[test]
fn point_arithmetic() {
    let p = Point { x: 2, y: 3 };
    assert_eq!(p.checked_add(Point { x: 5, y: 7 }), Some(Point { x: 7, y: 10 }));
    assert_eq!(p.checked_add(Point { x: u32::MAX, y: 0 }), None);
    assert_eq!(p.next_x(), Some(Point { x: 3, y: 3 }));
    assert_eq!(Point { x: u32::MAX, y: 0 }.next_x(), None);

    let mut xs = p.x_counter();
    assert_eq!(xs.next(), Some(Point { x: 2, y: 3 }));
    assert_eq!(xs.next(), Some(Point { x: 3, y: 3 }));
    let mut ys = p.y_counter();
    assert_eq!(ys.next(), Some(Point { x: 2, y: 3 }));
    assert_eq!(ys.next(), Some(Point { x: 2, y: 4 }));
    let mut edge = Point { x: u32::MAX, y: 0 }.x_counter();
    assert_eq!(edge.next(), Some(Point { x: u32::MAX, y: 0 }));
    assert_eq!(edge.next(), None);
    assert_eq!(edge.next(), None);
}

#[test]
fn point_scans() {
    let b = bmp(&["..p", "..p", "ppp"]);
    let p = Point { x: 0, y: 0 };
    assert_eq!(p.get_pixel_at(&b), Some((ink(), p)));
    assert_eq!(Point { x: 3, y: 0 }.get_pixel_at(&b), None);
    assert_eq!(p.scan_x(&b), Some(Point { x: 2, y: 0 }));
    assert_eq!(p.scan_y(&b), Some(Point { x: 0, y: 2 }));
    let no_frame = solid(2, 2);
    assert_eq!(p.scan_x(&no_frame), None);
    assert_eq!(p.scan_y(&no_frame), None);
}

#[test]
fn frameish_colors() {
    assert!(is_frameish(frame()));
    assert!(is_frameish(baseline()));
    assert!(!is_frameish(ink()));
}

#[test]
fn bitmap_basics() {
    let mut b = Bitmap::new(3, 2, frame()).unwrap();
    assert_eq!((b.width(), b.height()), (3, 2));
    assert_eq!(b.get(2, 1), Some(frame()));
    assert_eq!(b.get(3, 0), None);
    assert_eq!(b.get(0, 2), None);
    b.put(1, 1, ink());
    assert_eq!(b.get(1, 1), Some(ink()));
    assert_eq!(b.get(0, 1), Some(frame()));
    // An out-of-bounds write is ignored.
    b.put(9, 9, ink());
    let c = b.crop(1, 0, 2, 2);
    assert_eq!((c.width(), c.height()), (2, 2));
    assert_eq!(c.get(0, 1), Some(ink()));
    assert_eq!(c.get(1, 1), Some(frame()));
}

#[test]
fn marker_at_top_of_frame_column_counts_full_height() {
    // When the first frame-ish pixel right of the glyph's top row is
    // itself the baseline marker, the descent search starts on it and
    // the descent equals the glyph's full height.
    let b = bmp(&[
        "..c",
        "..p",
        "ppp",
    ]);
    let atlas = Atlas::from_image(&b);
    let g = atlas.rows()[0][0];
    assert_eq!((g.tl.x, g.tl.y, g.br.x, g.br.y), (0, 0, 1, 1));
    assert_eq!(g.h(), 2);
    assert_eq!(g.descent, 2);
}

#[test]
fn glyph_extent_saturates() {
    let g = Glyph {
        tl: Point { x: 5, y: 5 },
        br: Point { x: 2, y: 3 },
        descent: 0,
    };
    // A box whose corner lies above or left of its origin still
    // measures at least one pixel.
    assert_eq!(g.w(), 1);
    assert_eq!(g.h(), 1);
}
