use resvg::{tiny_skia, usvg};
use vector_magik::dither::{runs, split, square, subpaths, Square};
use vector_magik::geometry::{Segment, Xy, MICRO};
use vector_magik::markup::{attribute, with_attribute};
use vector_magik::path_data::read_straight;
use vector_magik::pattern::patterned_svg;

/// A document shaped like the engine's for dithered pixel art: a white
/// field, a 2 px checker of squares over 32 x 32 px in one colour's path,
/// and three lone squares of the same colour that repeat nothing.
fn dithered() -> String {
    let mut squares = String::new();
    for y in 4..36 {
        for x in 4..36 {
            if (x + y) % 2 == 0 {
                squares.push_str(&format!(
                    " M {} {} L {x} {} L {x} {y} L {} {y} L {} {} Z",
                    x + 1,
                    y + 1,
                    y + 1,
                    x + 1,
                    x + 1,
                    y + 1
                ));
            }
        }
    }
    for (x, y) in [(0, 0), (38, 1), (2, 39)] {
        squares.push_str(&format!(
            " M {} {} L {x} {} L {x} {y} L {} {y} L {} {} Z",
            x + 1,
            y + 1,
            y + 1,
            x + 1,
            x + 1,
            y + 1
        ));
    }
    format!(
        "<svg width=\"40\" height=\"40\" viewBox=\"0 0 40 40\" version=\"1.1\" xmlns=\"http://www.w3.org/2000/svg\">\n\
         <g id=\"#ffffffff\">\n<path fill=\"#ffffff\" d=\" M 0 0 L 40 0 L 40 40 L 0 40 Z\" />\n</g>\n\
         <g id=\"#1428a0ff\">\n<path fill=\"#1428a0\" d=\"{squares}\" />\n</g>\n</svg>\n"
    )
}

/// The drawing as pixels, twice its size.
fn pixels(svg: &str) -> Vec<u8> {
    let tree = usvg::Tree::from_str(svg, &usvg::Options::default()).unwrap();
    let mut pixmap = tiny_skia::Pixmap::new(80, 80).unwrap();
    resvg::render(
        &tree,
        tiny_skia::Transform::from_scale(2., 2.),
        &mut pixmap.as_mut(),
    );
    pixmap.take()
}

fn value<'a>(element: &'a str, name: &str) -> &'a str {
    let (_, rest) = element.split_once(&format!("{name}=\"")).unwrap();
    rest.split_once('"').unwrap().0
}

fn number(text: &str) -> i64 {
    (text.parse::<f64>().unwrap() * MICRO as f64).round() as i64
}

/// A saved drawing with its patterns drawn out as squares once more.
fn reopened(saved: &str) -> String {
    let (before, rest) = saved.split_once("<pattern ").unwrap();
    let (pattern, after) = rest.split_once("</pattern>").unwrap();
    let (x, y) = (number(value(pattern, " x")), number(value(pattern, " y")));
    let width = number(value(pattern, " width"));
    let height = number(value(pattern, " height"));
    let id = value(pattern, "id");
    let inner = pattern.split_once("<path ").unwrap().1;
    let cells: Vec<(i64, i64, i64)> = value(inner, "d")
        .split('M')
        .skip(1)
        .map(|cell| {
            let (at, size) = cell.split_once('h').unwrap();
            let (cx, cy) = at.split_once(' ').unwrap();
            (
                number(cx),
                number(cy),
                number(size.split_once('v').unwrap().0),
            )
        })
        .collect();
    let fill = value(inner, "fill");
    let mut out = format!("{before}{after}");
    let name = format!("url(#{id})");
    let at = out.find(&name).unwrap();
    let start = out[..at].rfind("<path").unwrap();
    let end = at + out[at..].find("/>").unwrap();
    let element = out[start..end].to_owned();
    let words: Vec<&str> = value(&element, " d").split_whitespace().collect();
    let edge = |i: usize| number(words[i]);
    let (left, top, right, bottom) = (edge(1), edge(2), edge(4), edge(6));
    let mut d = String::new();
    let mut ty = y;
    while ty < bottom {
        let mut tx = x;
        while tx < right {
            for (cx, cy, side) in &cells {
                let (a, b) = (tx + cx, ty + cy);
                if a >= left && b >= top && a < right && b < bottom {
                    let f = |v: i64| v as f64 / MICRO as f64;
                    d.push_str(&format!(
                        " M {} {} H {} V {} H {} Z",
                        f(a),
                        f(b),
                        f(a + side),
                        f(b + side),
                        f(a)
                    ));
                }
            }
            tx += width;
        }
        ty += height;
    }
    out.replace_range(start..end, &format!("<path fill=\"{fill}\" d=\"{d}\" "));
    out
}

/// The steps of a path of `M`, `L` and `Z`.
fn steps(d: &str) -> Vec<Segment> {
    let mut words = d.split_whitespace();
    let mut out = Vec::new();
    while let Some(letter) = words.next() {
        if letter == "Z" {
            out.push(Segment::Close);
            continue;
        }
        let p = Xy {
            x: number(words.next().unwrap()),
            y: number(words.next().unwrap()),
        };
        out.push(match letter {
            "M" => Segment::Move(p),
            _ => Segment::Line(p),
        });
    }
    out
}

#[test]
fn a_dithered_area_saves_as_one_patterned_rectangle_that_draws_and_reopens_the_same() {
    let document = dithered();
    let saved = patterned_svg(&document);
    assert_eq!(saved.matches("<pattern ").count(), 1, "{saved}");
    assert!(
        saved.len() * 10 < document.len(),
        "{} of {} bytes",
        saved.len(),
        document.len()
    );
    let before = pixels(&document);
    let after = pixels(&saved);
    assert!(before == after, "the saved SVG draws other pixels");
    // Opened again, the pattern is its squares once more.
    let again = pixels(&reopened(&saved));
    assert!(before == again, "the reopened SVG draws other pixels");
}

#[test]
fn a_dithered_area_saves_to_pdf_and_eps_as_a_tiling_pattern() {
    let document = dithered();
    let path = document.rsplit_once("<path ").unwrap().1;
    let segments = steps(value(path, " d"));
    let (rest, runs) = split(&segments).unwrap();
    // One tiling pattern.
    assert_eq!(runs.len(), 1);
    let run = &runs[0];
    assert_eq!((run.x, run.y), (4 * MICRO, 4 * MICRO));
    assert_eq!((run.width, run.height), (32 * MICRO, 32 * MICRO));
    assert_eq!(run.side, MICRO);
    assert_eq!(run.tile(), (2 * MICRO, 2 * MICRO));
    assert_eq!(run.inked, [(0, 0), (1, 1)]);
    // The field and the three lone squares are still drawn as paths.
    let field = steps(" M 0 0 L 40 0 L 40 40 L 0 40 Z");
    assert!(split(&field).is_none());
    assert_eq!(subpaths(&field).len() + subpaths(&rest).len(), 4);
}

#[test]
fn squares_that_repeat_nothing_are_left_as_they_are() {
    // A diagonal line of squares repeats no tile across a rectangle.
    let mut squares = String::new();
    for i in 0..40 {
        squares.push_str(&format!(
            " M {i} {i} L {} {i} L {} {} L {i} {} Z",
            i + 1,
            i + 1,
            i + 1,
            i + 1
        ));
    }
    let document = format!(
        "<svg width=\"40\" height=\"40\" viewBox=\"0 0 40 40\" xmlns=\"http://www.w3.org/2000/svg\">\n\
         <path fill=\"#000000\" d=\"{squares}\" />\n</svg>\n"
    );
    assert_eq!(patterned_svg(&document), document);
}

#[test]
fn only_a_square_outline_is_a_square() {
    let s = square(&steps("M 3 4 L 5 4 L 5 6 L 3 6 Z")).unwrap();
    assert_eq!((s.x, s.y, s.side), (3 * MICRO, 4 * MICRO, 2 * MICRO));
    assert!(square(&steps("M 3 4 L 5 4 L 5 7 L 3 7 Z")).is_none());
    assert!(square(&steps("M 3 4 L 5 4 L 5 6 Z")).is_none());
    let parts = steps("M 0 0 L 1 0 Z M 2 2 L 3 3");
    assert_eq!(subpaths(&parts).len(), 2);
}

#[test]
fn runs_come_most_squares_first() {
    let square_at = |x: i64, y: i64| Square {
        x: x * MICRO,
        y: y * MICRO,
        side: MICRO,
    };
    // One dot in four over 20 x 20 cells: the larger rectangle, 100 squares.
    let mut squares = Vec::new();
    for y in (0..20).step_by(2) {
        for x in (0..20).step_by(2) {
            squares.push(square_at(x, y));
        }
    }
    // A checkerboard over 16 x 16 cells: 128 squares.
    for y in 0..16 {
        for x in 0..16 {
            if (x + y) % 2 == 0 {
                squares.push(square_at(40 + x, y));
            }
        }
    }
    let (found, covered) = runs(&squares);
    assert!(covered.iter().all(|c| *c));
    assert_eq!(found.len(), 2);
    assert_eq!((found[0].x, found[0].inked.len()), (40 * MICRO, 2));
    assert_eq!((found[1].x, found[1].inked.len()), (0, 1));
}

fn chars(text: &str) -> Vec<char> {
    text.chars().collect()
}

#[test]
fn numbers_are_read_to_the_nearest_millionth() {
    let read = |number: &str| match read_straight(&chars(&format!("M {number} 0")))?.first() {
        Some(Segment::Move(p)) => Some(p.x),
        _ => None,
    };
    for (text, millionths) in [
        ("1.25", 1_250_000),
        ("-1.25", -1_250_000),
        ("0.1234567", 123_457),
        ("0.1234564999", 123_456),
        ("-0.0000005", -1),
        ("0.00000049999", 0),
        ("1e3", 1_000_000_000),
        ("1.5E-3", 1_500),
        ("2.5e-7", 0),
        ("5e-7", 1),
        ("0.00001e+5", 1_000_000),
        ("0e999999999999999999999999999999999999", 0),
        ("1e-999999999999999999999999999999999999", 0),
        ("1e12", 1_000_000_000_000_000_000),
    ] {
        assert_eq!(read(text), Some(millionths), "{text}");
    }
    for text in ["1e13", "1e999999999999999999999999999999999999", "1e", ".", "1e+"] {
        assert_eq!(read(text), None, "{text}");
    }
}

#[test]
fn squares_written_with_many_decimals_are_squares() {
    let mut squares = String::new();
    for y in 0..8 {
        for x in 0..8 {
            if (x + y) % 2 == 0 {
                squares.push_str(&format!(
                    " M {x}.000000049 {y} L {}e0 {y} L {} {}.00000001 L {x} {} Z",
                    x + 1,
                    x + 1,
                    y + 1,
                    y + 1
                ));
            }
        }
    }
    let document = format!("<svg><path fill=\"#000000\" d=\"{squares}\" /></svg>");
    assert_eq!(patterned_svg(&document).matches("<pattern ").count(), 1);
}

#[test]
fn a_written_value_reads_back() {
    let (element, name) = (chars("<path fill = '#fff' d=\"M 0 0\"/>"), chars("fill"));
    let written = with_attribute(&element, &name, "url(#\"a\")");
    assert_eq!(written, "<path fill = 'url(#\"a\")' d=\"M 0 0\"/>");
    assert_eq!(
        attribute(&chars(&written), &name),
        Some(&chars("url(#\"a\")")[..])
    );
    let same: String = element.iter().collect();
    assert_eq!(with_attribute(&element, &name, "#fff"), same);
    assert_eq!(with_attribute(&element, &chars("stroke"), "#fff"), same);
    assert_eq!(attribute(&element, &chars("stroke")), None);
}
