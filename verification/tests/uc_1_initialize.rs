use rs_vulkan::config::{parse_args, Command};
use rs_vulkan::example::{
    example_chapters, presenter_notes_markdown, random_slide_png, slide_file_name,
    example_rectangle, rectangles_png, random_rectangles, ExampleChapter, ExampleSlide, Rectangle,
};
use rs_vulkan::texture::{index_slide_files, parse_presenter_notes, parse_slide_filename, SlideKey};

const WIDTH: u32 = 1920;
const HEIGHT: u32 = 1080;

fn parse(args: &[&str]) -> Command {
    let v: Vec<String> = args.iter().map(|a| a.to_string()).collect();
    let numeric: Vec<bool> = v.iter().map(|a| a.parse::<f32>().is_ok()).collect();
    parse_args(&v, &numeric)
}

/// The file names and the presenter-notes text that `init` writes.
fn example_files() -> (Vec<String>, String) {
    let chapters = example_chapters();
    let mut names = Vec::new();
    for ch in &chapters {
        for s in &ch.slides {
            names.push(slide_file_name(SlideKey { chapter: ch.num, slide: s.num }));
        }
    }
    (names, presenter_notes_markdown(&chapters))
}

/// One placeholder slide as the PNG file would hold it, decoded again.
fn example_png() -> image::RgbaImage {
    let mut rng = rand::thread_rng();
    let bytes = random_slide_png(&mut rng, WIDTH, HEIGHT).expect("PNG encoding failed");
    image::load_from_memory(&bytes).unwrap().to_rgba8()
}

/// `rs-vulkan init <path>` writes the slides and the presenter
/// notes, and the deck reads back with its names and notes.
#[test]
fn uc_1_initialize_init_creates_valid_presentation() {
    let (mut names, notes) = example_files();
    names.push("presenter_notes.md".to_string());

    let expected_files = [
        "1_1.png", "1_2.png", "1_3.png",
        "2_1.png", "2_2.png",
        "3_1.png", "3_2.png",
        "presenter_notes.md",
    ];
    for f in &expected_files {
        assert!(names.iter().any(|n| n == f), "missing: {f}");
    }

    let (keys, meta, _order) = index_slide_files(&names, Some(notes.as_str())).unwrap();
    assert_eq!(keys.len(), 7);
    assert_eq!(keys[0], SlideKey { chapter: 1, slide: 1 });
    assert_eq!(keys[6], SlideKey { chapter: 3, slide: 2 });

    let m = meta.get(&(1, 1)).unwrap();
    assert_eq!(m.chapter_name, "Getting Started");
    assert_eq!(m.slide_name, "Overview");
    assert!(m.presenter_notes.contains("RS-Vulkan presentation viewer"));

    let m = meta.get(&(2, 2)).unwrap();
    assert_eq!(m.chapter_name, "Advanced Topics");
    assert_eq!(m.slide_name, "Deployment");

    let m = meta.get(&(3, 1)).unwrap();
    assert_eq!(m.chapter_name, "Conclusion");
    assert_eq!(m.slide_name, "Summary");
}

/// Placeholder slides have a transparent background with visible
/// rectangles drawn on top.
#[test]
fn uc_1_initialize_init_slides_have_transparent_background() {
    let img = example_png();
    let pixel = img.get_pixel(0, 0);
    assert_eq!(pixel.0[3], 0, "background should be transparent");

    let mut has_opaque = false;
    for y in 0..img.height() {
        for x in 0..img.width() {
            if img.get_pixel(x, y).0[3] > 0 {
                has_opaque = true;
                break;
            }
        }
        if has_opaque {
            break;
        }
    }
    assert!(has_opaque, "slide should have non-transparent rectangles");
}

/// All generated slides share the same pixel dimensions.
#[test]
fn uc_1_initialize_init_slides_have_matching_dimensions() {
    let (names, _) = example_files();
    let first = example_png();
    let (w, h) = first.dimensions();
    assert_eq!((w, h), (WIDTH, HEIGHT));
    for name in names.iter().skip(1) {
        let img = example_png();
        assert_eq!(img.dimensions(), (w, h), "dimension mismatch in {}", name);
    }
}

/// `rs-vulkan init <path>` asks for the example deck at that path
/// rather than for a deck to show.
#[test]
fn uc_1_initialize_parse_args_init_returns_none() {
    match parse(&["program", "init", "/tmp/example"]) {
        Command::Init { path } => assert_eq!(path, "/tmp/example"),
        _ => panic!("expected the init command"),
    }
}

/// `rs-vulkan init` without a path is rejected.
#[test]
fn uc_1_initialize_parse_args_init_missing_path_returns_none() {
    assert!(matches!(parse(&["program", "init"]), Command::InitMissingPath));
}

/// The notes file of the example deck starts with the first chapter's header
/// and its first slide's header.
#[test]
fn example_notes_markdown_layout() {
    let (_, notes) = example_files();
    assert!(notes.starts_with("# 1: Getting Started\n## 1_1: Overview\nWelcome to this example presentation."));
    assert!(notes.contains("\n# 2: Advanced Topics\n## 2_1: Configuration\n"));
    assert!(notes.ends_with("- Build a slide editor UI\n"));
}

/// Slide file names follow `{chapter}_{slide}.png`.
#[test]
fn slide_file_name_format() {
    assert_eq!(slide_file_name(SlideKey { chapter: 1, slide: 1 }), "1_1.png");
    assert_eq!(slide_file_name(SlideKey { chapter: 12, slide: 345 }), "12_345.png");
    assert_eq!(slide_file_name(SlideKey { chapter: 0, slide: 4294967295 }), "0_4294967295.png");
}

/// Every pixel of a placeholder slide is transparent black or a rectangle
/// colour with channels in 30..=220, fully opaque.
#[test]
fn example_slide_pixel_colours() {
    let img = example_png();
    for p in img.pixels() {
        let [r, g, b, a] = p.0;
        let blank = r == 0 && g == 0 && b == 0 && a == 0;
        let rect = (30..=220).contains(&r)
            && (30..=220).contains(&g)
            && (30..=220).contains(&b)
            && a == 255;
        assert!(blank || rect, "unexpected pixel {:?}", p.0);
    }
}

/// The presenter notes written for any deck read back with each slide's
/// chapter name, title and notes, a later slide with the same key winning.
#[test]
fn notes_file_reads_back() {
    let slide = |num: u32, name: &str, notes: &str| ExampleSlide {
        num,
        name: name.to_string(),
        notes: notes.to_string(),
    };
    let chapters = vec![
        ExampleChapter {
            num: 4,
            name: "Intro: part one".to_string(),
            slides: vec![slide(1, "Hello", "line one\n\n#hashtag\nline three"), slide(2, "Empty", "")],
        },
        ExampleChapter { num: 5, name: "No slides".to_string(), slides: vec![] },
        ExampleChapter {
            num: 4,
            name: "Again".to_string(),
            slides: vec![slide(2, "Replaced", "new notes")],
        },
    ];
    let text = presenter_notes_markdown(&chapters);
    assert_eq!(
        text,
        "# 4: Intro: part one\n## 4_1: Hello\nline one\n\n#hashtag\nline three\n## 4_2: Empty\n\n# 5: No slides\n# 4: Again\n## 4_2: Replaced\nnew notes\n"
    );
    let m = parse_presenter_notes(&text);
    assert_eq!(m.len(), 2);
    let a = m.get(&(4, 1)).unwrap();
    assert_eq!(a.chapter_name, "Intro: part one");
    assert_eq!(a.slide_name, "Hello");
    assert_eq!(a.presenter_notes, "line one\n\n#hashtag\nline three");
    let b = m.get(&(4, 2)).unwrap();
    assert_eq!(b.chapter_name, "Again");
    assert_eq!(b.slide_name, "Replaced");
    assert_eq!(b.presenter_notes, "new notes");
}

/// Rectangles are painted in order on a transparent background: the last one
/// covering a pixel gives its colour.
#[test]
fn rectangles_painted_in_order() {
    let rects = vec![
        Rectangle { x: 0, y: 0, width: 30, height: 20, red: 10, green: 20, blue: 30, alpha: 40 },
        Rectangle { x: 20, y: 10, width: 40, height: 30, red: 50, green: 60, blue: 70, alpha: 80 },
    ];
    let bytes = rectangles_png(60, 40, &rects).expect("PNG encoding failed");
    let img = image::load_from_memory(&bytes).unwrap().to_rgba8();
    assert_eq!(img.dimensions(), (60, 40));
    assert_eq!(img.get_pixel(0, 0).0, [10, 20, 30, 40]);
    assert_eq!(img.get_pixel(29, 9).0, [10, 20, 30, 40]);
    assert_eq!(img.get_pixel(25, 15).0, [50, 60, 70, 80]);
    assert_eq!(img.get_pixel(59, 39).0, [50, 60, 70, 80]);
    assert_eq!(img.get_pixel(35, 5).0, [0, 0, 0, 0]);
    assert_eq!(img.get_pixel(5, 30).0, [0, 0, 0, 0]);
}

/// Random example rectangles: 5 to 12 of them, each inside the slide with
/// the sizes and colours of the example deck.
#[test]
fn random_rectangles_in_range() {
    let mut rng = rand::thread_rng();
    for _ in 0..20 {
        let rs = random_rectangles(&mut rng, 200, 120);
        assert!((5..=12).contains(&rs.len()));
        for r in &rs {
            assert!(r.x < 150 && r.y < 70);
            assert!((50..=400).contains(&r.width) && (50..=300).contains(&r.height));
            assert!(r.x + r.width <= 200 && r.y + r.height <= 120);
            assert!((30..=220).contains(&r.red) && r.alpha == 255);
        }
    }
}

/// The file name of a slide reads back as that slide.
#[test]
fn slide_file_name_reads_back() {
    for (c, s) in [(0, 0), (1, 1), (3, 12), (4294967295, 7), (10, 4294967295)] {
        let k = SlideKey { chapter: c, slide: s };
        assert_eq!(parse_slide_filename(&slide_file_name(k)), Some(k));
    }
}

/// On a 50 by 50 slide every example rectangle fills the slide.
#[test]
fn random_rectangles_smallest_slide() {
    let mut rng = rand::thread_rng();
    let rs = random_rectangles(&mut rng, 50, 50);
    assert!((5..=12).contains(&rs.len()));
    for r in &rs {
        assert_eq!((r.x, r.y, r.width, r.height), (0, 0, 50, 50));
    }
}

/// The drawn numbers make a rectangle exactly when they lie in the example
/// ranges; the rectangle is opaque.
#[test]
fn example_rectangle_from_draws() {
    assert_eq!(
        example_rectangle(1920, 1080, 0, 1029, 50, 51, 30, 220, 100),
        Some(Rectangle {
            x: 0, y: 1029, width: 50, height: 51, red: 30, green: 220, blue: 100, alpha: 255
        })
    );
    assert_eq!(example_rectangle(1920, 1080, 1870, 0, 50, 50, 30, 30, 30), None);
    assert_eq!(example_rectangle(1920, 1080, 1800, 0, 121, 50, 30, 30, 30), None);
    assert_eq!(example_rectangle(1920, 1080, 0, 0, 401, 50, 30, 30, 30), None);
    assert_eq!(example_rectangle(1920, 1080, 0, 0, 50, 50, 29, 30, 30), None);
    assert_eq!(example_rectangle(49, 1080, 0, 0, 50, 50, 30, 30, 30), None);
    assert_eq!(
        example_rectangle(50, 50, 0, 0, 50, 50, 221, 30, 30),
        None
    );
}

/// An empty image cannot be encoded; any other size can.
#[test]
fn rectangles_png_of_empty_image() {
    assert!(rectangles_png(0, 10, &vec![]).is_none());
    assert!(rectangles_png(10, 0, &vec![]).is_none());
    assert!(rectangles_png(1, 1, &vec![]).is_some());
}
