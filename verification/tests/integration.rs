use rs_vulkan::config::{
    parse_args, Command, RunOptions, TransitionType,
    DEFAULT_BLUR_RADIUS, DEFAULT_TRANSITION_DURATION_MS,
};
use rs_vulkan::example::{
    example_chapters, presenter_notes_markdown, random_slide_png, slide_file_name,
};
use rs_vulkan::texture::{
    dir_error_message, format_slide_display, index_slide_files, parse_presenter_notes,
    parse_slide_filename, SlideCollection, SlideDirError, SlideKey, SlideMeta, SlideMetaMap,
};

/// Parses an argument list, marking which arguments read as numbers.
fn parse(args: &[&str]) -> Command {
    let v: Vec<String> = args.iter().map(|a| a.to_string()).collect();
    let numeric: Vec<bool> = v.iter().map(|a| a.parse::<f32>().is_ok()).collect();
    parse_args(&v, &numeric)
}

/// The options of a `Run` command, `None` for anything else.
fn run(args: &[&str]) -> Option<RunOptions> {
    match parse(args) {
        Command::Run(o) => Some(o),
        _ => None,
    }
}

fn duration(o: &RunOptions) -> f32 {
    match &o.transition_duration {
        Some(t) => t.parse().unwrap(),
        None => DEFAULT_TRANSITION_DURATION_MS as f32 / 1000.0,
    }
}

fn blur_radius_max(o: &RunOptions) -> f32 {
    match &o.blur_radius {
        Some(t) => t.parse().unwrap(),
        None => DEFAULT_BLUR_RADIUS as f32,
    }
}

/// The file names of a directory holding the given slides.
fn slide_names(pairs: &[(u32, u32)]) -> Vec<String> {
    pairs.iter().map(|&(c, s)| format!("{}_{}.png", c, s)).collect()
}

// --- Slide filename parsing ---

#[test]
fn integration_parse_filename_integration() {
    let entries = &["1_1.png", "12_345.png", "999_0.png"];
    for name in entries {
        let key = parse_slide_filename(name);
        assert!(key.is_some(), "should parse: {name}");
    }
}

#[test]
fn integration_parse_filename_ignores_non_matching() {
    let entries = &["notes.md", "image.jpg", "123.png", "a_b.png"];
    for name in entries {
        assert!(parse_slide_filename(name).is_none(), "should reject: {name}");
    }
}

// --- Directory indexing ---

#[test]
fn integration_load_directory_basic() {
    let names = slide_names(&[(1, 1), (1, 2), (2, 1)]);
    let (keys, meta, order) = index_slide_files(&names, None).unwrap();

    assert_eq!(keys.len(), 3);
    assert_eq!(keys[0], SlideKey { chapter: 1, slide: 1 });
    assert_eq!(keys[1], SlideKey { chapter: 1, slide: 2 });
    assert_eq!(keys[2], SlideKey { chapter: 2, slide: 1 });

    assert_eq!(order.len(), 3);
    assert!(order[0] < names.len());

    assert_eq!(meta.len(), 3);
    let m = meta.get(&(1, 1)).unwrap();
    assert_eq!(m.chapter_name, "Chapter 1");
    assert_eq!(m.slide_name, "Slide 1_1");
}

#[test]
fn integration_load_directory_sorted() {
    let names = slide_names(&[(2, 3), (1, 1), (2, 1), (1, 2)]);
    let (keys, _, _) = index_slide_files(&names, None).unwrap();

    assert_eq!(keys, vec![
        SlideKey { chapter: 1, slide: 1 },
        SlideKey { chapter: 1, slide: 2 },
        SlideKey { chapter: 2, slide: 1 },
        SlideKey { chapter: 2, slide: 3 },
    ]);
}

#[test]
fn integration_load_directory_empty_errors() {
    let names: Vec<String> = Vec::new();
    let err = index_slide_files(&names, None).unwrap_err();
    assert_eq!(err, SlideDirError::NoSlides);
    assert!(dir_error_message(err, "empty").contains("No PNG files"));
}

#[test]
fn integration_load_directory_duplicate_errors() {
    let names: Vec<String> = vec!["01_01.png".into(), "1_2.png".into(), "2_1.png".into(), "1_1.png".into()];
    let err = index_slide_files(&names, None).unwrap_err();
    assert!(dir_error_message(err, "dup").contains("Duplicate slide"));
}

#[test]
fn load_directory_mismatched_dimensions_errors() {
    let names = slide_names(&[(1, 1), (1, 2)]);
    let (keys, _meta, order) = index_slide_files(&names, None).unwrap();
    // Dimension mismatch is checked when the images are uploaded, not here.
    assert_eq!(keys.len(), 2);
    assert_eq!(order.len(), 2);
}

#[test]
fn integration_load_directory_with_presenter_notes() {
    let names: Vec<String> = vec!["1_1.png".into(), "2_1.png".into(), "2_2.png".into(), "presenter_notes.md".into()];
    let notes_content = "\
# 1: Getting Started
## 1_1: Welcome
Hello and welcome to this presentation!

# 2: Deep Dive
## 2_1: Core Concepts
Explanation of core ideas.
## 2_2: Examples
Practical examples.
";
    let (keys, meta, _) = index_slide_files(&names, Some(notes_content)).unwrap();
    assert_eq!(keys.len(), 3);

    let m1 = meta.get(&(1, 1)).unwrap();
    assert_eq!(m1.chapter_name, "Getting Started");
    assert_eq!(m1.slide_name, "Welcome");
    assert_eq!(m1.presenter_notes, "Hello and welcome to this presentation!");

    let m2 = meta.get(&(2, 1)).unwrap();
    assert_eq!(m2.chapter_name, "Deep Dive");
    assert_eq!(m2.slide_name, "Core Concepts");

    let m3 = meta.get(&(2, 2)).unwrap();
    assert_eq!(m3.chapter_name, "Deep Dive");
    assert_eq!(m3.slide_name, "Examples");
    assert_eq!(m3.presenter_notes, "Practical examples.");
}

#[test]
fn integration_load_directory_missing_notes_file() {
    let names = slide_names(&[(1, 1), (1, 2)]);
    let (_, meta, _) = index_slide_files(&names, None).unwrap();
    let m = meta.get(&(1, 1)).unwrap();
    assert_eq!(m.chapter_name, "Chapter 1");
    assert!(m.presenter_notes.is_empty());
}

// --- SlideCollection integration ---

fn make_collection(keys: &[(u32, u32)]) -> SlideCollection {
    let slides: Vec<SlideKey> = keys.iter().map(|&(c, s)| SlideKey { chapter: c, slide: s }).collect();
    let mut metadata = SlideMetaMap::new();
    for &(c, s) in keys {
        metadata.insert(
            (c, s),
            SlideMeta {
                chapter_num: c,
                slide_num: s,
                chapter_name: format!("Chapter {c}"),
                slide_name: format!("Slide {c}_{s}"),
                presenter_notes: String::new(),
            },
        );
    }
    SlideCollection { slides, metadata }
}

#[test]
fn integration_navigation_single_chapter() {
    let c = make_collection(&[(1, 1), (1, 2), (1, 3)]);

    assert_eq!(c.chapter_of(0), Some(1));
    assert_eq!(c.chapter_of(2), Some(1));

    assert!(c.is_first_of_chapter(0));
    assert!(c.is_last_of_chapter(2));

    assert_eq!(c.next_slide(0), Some(1));
    assert_eq!(c.next_slide(2), None);
    assert_eq!(c.prev_slide(0), None);
    assert_eq!(c.prev_slide(1), Some(0));

    assert_eq!(c.next_chapter(0), None);
    assert_eq!(c.prev_chapter(2), None);
}

#[test]
fn integration_navigation_multi_chapter_from_loaded_dir() {
    let names = slide_names(&[(1, 1), (2, 1), (2, 2), (3, 1)]);
    let (keys, meta, _) = index_slide_files(&names, None).unwrap();
    let collection = SlideCollection { slides: keys, metadata: meta };

    assert_eq!(collection.len(), 4);

    assert_eq!(collection.chapter_of(0), Some(1));
    assert_eq!(collection.chapter_of(1), Some(2));
    assert_eq!(collection.chapter_of(3), Some(3));

    assert!(collection.is_first_of_chapter(0));
    assert!(collection.is_first_of_chapter(1));
    assert!(collection.is_first_of_chapter(3));

    assert_eq!(collection.next_slide(0), Some(1));
    assert_eq!(collection.prev_slide(1), Some(0));
    assert_eq!(collection.next_slide(3), None);

    assert_eq!(collection.next_chapter(0), Some(1));
    assert_eq!(collection.next_chapter(1), Some(3));
    assert_eq!(collection.next_chapter(3), None);

    assert_eq!(collection.prev_chapter(0), None);
    assert_eq!(collection.prev_chapter(1), Some(0));
    assert_eq!(collection.prev_chapter(2), Some(0));
    assert_eq!(collection.prev_chapter(3), Some(2));
}

// --- Presenter notes parsing ---

#[test]
fn integration_parse_presenter_notes_empty_input() {
    let result = parse_presenter_notes("");
    assert!(result.is_empty());
}

#[test]
fn integration_parse_presenter_notes_only_chapters() {
    let result = parse_presenter_notes("# 1: Intro\n# 2: Main");
    assert!(result.is_empty());
}

#[test]
fn integration_parse_presenter_notes_multiple_slides() {
    let result = parse_presenter_notes("\
# 1: Chapter One
## 1_1: Slide A
Notes for A

## 1_2: Slide B
Notes for B

# 2: Chapter Two
## 2_1: Slide C
Notes for C
");

    assert_eq!(result.len(), 3);
    assert_eq!(result.get(&(1, 1)).unwrap().presenter_notes, "Notes for A");
    assert_eq!(result.get(&(1, 2)).unwrap().presenter_notes, "Notes for B");
    assert_eq!(result.get(&(2, 1)).unwrap().presenter_notes, "Notes for C");
}

#[test]
fn integration_parse_presenter_notes_chapter_inheritance() {
    let result = parse_presenter_notes("\
# 1: Intro
## 1_1: First
# 2: Deep Dive
## 2_1: Core
");

    assert_eq!(result.get(&(1, 1)).unwrap().chapter_name, "Intro");
    assert_eq!(result.get(&(2, 1)).unwrap().chapter_name, "Deep Dive");
}

#[test]
fn integration_parse_presenter_notes_preserves_blank_lines() {
    let result = parse_presenter_notes("## 1_1: Test\nLine 1\n\nLine 3\n\n\nLine 6");
    let notes = &result.get(&(1, 1)).unwrap().presenter_notes;
    assert_eq!(notes, "Line 1\n\nLine 3\n\n\nLine 6");
}

// --- format_slide_display ---

#[test]
fn integration_display_formats_correctly() {
    let meta = SlideMeta {
        chapter_num: 2,
        slide_num: 5,
        chapter_name: "Advanced".into(),
        slide_name: "Example".into(),
        presenter_notes: String::new(),
    };
    let output = format_slide_display(&meta, 0, 10);
    assert_eq!(output, "--- Chapter 2: Advanced ---\nSlide 2_5: Example");
}

#[test]
fn integration_display_includes_notes_when_present() {
    let meta = SlideMeta {
        chapter_num: 1,
        slide_num: 1,
        chapter_name: "Intro".into(),
        slide_name: "Welcome".into(),
        presenter_notes: "Say hello to everyone.".into(),
    };
    let output = format_slide_display(&meta, 0, 5);
    assert!(output.contains("Say hello to everyone."));
    assert!(output.starts_with("--- Chapter 1: Intro ---"));
}

// --- Command-line parsing ---

#[test]
fn integration_parse_args_default_config() {
    let config = run(&["program", "/slides"]);
    assert!(config.is_some());
    let cfg = config.unwrap();
    assert_eq!(cfg.slides_path, "/slides");
    assert!((blur_radius_max(&cfg) - 20.0).abs() < 1e-6);
    assert!((duration(&cfg) - 0.5).abs() < 1e-6);
}

#[test]
fn integration_parse_args_custom_values() {
    let config = run(&["program", "/slides", "--blur-radius", "30.0", "--transition-duration", "1.0"]);
    assert!(config.is_some());
    let cfg = config.unwrap();
    assert!((blur_radius_max(&cfg) - 30.0).abs() < 1e-6);
    assert!((duration(&cfg) - 1.0).abs() < 1e-6);
}

#[test]
fn integration_parse_args_transition_type_instant() {
    let config = run(&["program", "/slides", "--transition-type", "instant"]);
    assert!(config.is_some());
    assert_eq!(config.unwrap().transition_type, TransitionType::Instant);
}

#[test]
fn integration_parse_args_transition_type_smooth_explicit() {
    let config = run(&["program", "/slides", "--transition-type", "smooth"]);
    assert!(config.is_some());
    assert_eq!(config.unwrap().transition_type, TransitionType::Smooth);
}

#[test]
fn integration_parse_args_transition_type_slide() {
    let config = run(&["program", "/slides", "--transition-type", "slide"]);
    assert!(config.is_some());
    assert_eq!(config.unwrap().transition_type, TransitionType::Slide);
}

#[test]
fn integration_parse_args_transition_type_invalid() {
    assert!(run(&["program", "/slides", "--transition-type", "bogus"]).is_none());
}

#[test]
fn integration_parse_args_help_returns_none() {
    assert!(run(&["program", "--help"]).is_none());
}

#[test]
fn integration_parse_args_no_args_returns_none() {
    assert!(run(&["program"]).is_none());
}

#[test]
fn integration_parse_args_unknown_option_returns_none() {
    assert!(run(&["program", "/slides", "--bogus"]).is_none());
}

#[test]
fn parse_args_invalid_number_returns_none() {
    assert!(run(&["program", "/slides", "--blur-radius", "abc"]).is_none());
}

#[test]
fn integration_parse_args_init_missing_path_returns_none() {
    assert!(run(&["program", "init"]).is_none());
    assert!(matches!(parse(&["program", "init"]), Command::InitMissingPath));
}

// --- init command ---

/// The file names and the presenter-notes text that `init` writes.
fn example_files() -> (Vec<String>, String) {
    let chapters = example_chapters();
    let mut names = Vec::new();
    for ch in &chapters {
        for s in &ch.slides {
            names.push(slide_file_name(SlideKey { chapter: ch.num, slide: s.num }));
        }
    }
    (names, presenter_notes_markdown(&chapters))
}

/// One placeholder slide as the PNG file would hold it, decoded again.
fn example_png() -> image::RgbaImage {
    let mut rng = rand::thread_rng();
    let bytes = random_slide_png(&mut rng, 1920, 1080).expect("PNG encoding failed");
    image::load_from_memory(&bytes).unwrap().to_rgba8()
}

#[test]
fn integration_parse_args_init_returns_none() {
    assert!(run(&["program", "init", "/tmp/example"]).is_none());
    match parse(&["program", "init", "/tmp/example"]) {
        Command::Init { path } => assert_eq!(path, "/tmp/example"),
        _ => panic!("expected the init command"),
    }
}

#[test]
fn integration_init_creates_valid_presentation() {
    let (mut names, notes) = example_files();
    names.push("presenter_notes.md".to_string());
    let expected_files = [
        "1_1.png", "1_2.png", "1_3.png",
        "2_1.png", "2_2.png",
        "3_1.png", "3_2.png",
        "presenter_notes.md",
    ];
    for f in &expected_files {
        assert!(names.iter().any(|n| n == f), "missing: {f}");
    }

    let (keys, meta, _order) = index_slide_files(&names, Some(notes.as_str())).unwrap();
    assert_eq!(keys.len(), 7);
    assert_eq!(keys[0], SlideKey { chapter: 1, slide: 1 });
    assert_eq!(keys[6], SlideKey { chapter: 3, slide: 2 });

    let m = meta.get(&(1, 1)).unwrap();
    assert_eq!(m.chapter_name, "Getting Started");
    assert_eq!(m.slide_name, "Overview");
    assert!(m.presenter_notes.contains("RS-Vulkan presentation viewer"));

    let m = meta.get(&(2, 2)).unwrap();
    assert_eq!(m.chapter_name, "Advanced Topics");
    assert_eq!(m.slide_name, "Deployment");

    let m = meta.get(&(3, 1)).unwrap();
    assert_eq!(m.chapter_name, "Conclusion");
    assert_eq!(m.slide_name, "Summary");
}

#[test]
fn integration_init_slides_have_transparent_background() {
    let img = example_png();
    let pixel = img.get_pixel(0, 0);
    assert_eq!(pixel.0[3], 0, "background should be transparent");

    let mut has_opaque = false;
    for y in 0..img.height() {
        for x in 0..img.width() {
            if img.get_pixel(x, y).0[3] > 0 {
                has_opaque = true;
                break;
            }
        }
        if has_opaque {
            break;
        }
    }
    assert!(has_opaque, "slide should have non-transparent rectangles");
}

#[test]
fn integration_init_slides_have_matching_dimensions() {
    let (names, _) = example_files();
    let first = example_png();
    let (w, h) = first.dimensions();
    for name in names.iter().skip(1) {
        let img = example_png();
        assert_eq!(img.dimensions(), (w, h), "dimension mismatch in {}", name);
    }
}
