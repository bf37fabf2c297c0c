use rs_vulkan::navigation::{Key, KeyResponse, Navigator, SlideDirection};
use rs_vulkan::config::TransitionType;
use rs_vulkan::texture::{
    dir_error_message, first_size_mismatch, format_slide_display, index_slide_files, parse_presenter_notes,
    parse_slide_filename, SlideCollection, SlideDirError, SlideKey, SlideMeta, SlideMetaMap,
};

/// The file names of a directory holding the given slides.
fn setup_slide_names(pairs: &[(u32, u32)]) -> Vec<String> {
    pairs.iter().map(|&(c, s)| format!("{}_{}.png", c, s)).collect()
}

/// Build a SlideCollection from a slice of (chapter, slide) key pairs.
/// Metadata is generated with default names ("Chapter N", "Slide C_S").
fn make_collection(keys: &[(u32, u32)]) -> SlideCollection {
    let slides: Vec<SlideKey> =
        keys.iter().map(|&(c, s)| SlideKey { chapter: c, slide: s }).collect();
    let mut metadata = SlideMetaMap::new();
    for &(c, s) in keys {
        metadata.insert(
            (c, s),
            SlideMeta {
                chapter_num: c,
                slide_num: s,
                chapter_name: format!("Chapter {}", c),
                slide_name: format!("Slide {}_{}", c, s),
                presenter_notes: String::new(),
            },
        );
    }
    SlideCollection { slides, metadata }
}

/// Parse presenter notes from a string.
fn notes_from(s: &str) -> SlideMetaMap {
    parse_presenter_notes(s)
}

// --- parse_slide_filename ---

/// A basic `chapter_slide.png` filename is parsed correctly.
#[test]
fn parse_basic() {
    assert_eq!(parse_slide_filename("1_1.png"), Some(SlideKey { chapter: 1, slide: 1 }));
}

/// Zero-padded chapter and slide numbers are parsed correctly.
#[test]
fn parse_zero_padded() {
    assert_eq!(parse_slide_filename("01_02.png"), Some(SlideKey { chapter: 1, slide: 2 }));
}

/// Large chapter and slide numbers are parsed correctly.
#[test]
fn parse_large_numbers() {
    assert_eq!(parse_slide_filename("10_100.png"), Some(SlideKey { chapter: 10, slide: 100 }));
}

/// Filenames without an underscore are rejected.
#[test]
fn parse_no_underscore() {
    assert_eq!(parse_slide_filename("slide.png"), None);
}

/// Non-numeric chapter/slide values are rejected.
#[test]
fn parse_non_numeric() {
    assert_eq!(parse_slide_filename("a_b.png"), None);
}

/// Filenames with more than two parts are rejected.
#[test]
fn parse_too_many_parts() {
    assert_eq!(parse_slide_filename("1_2_3.png"), None);
}

/// Filenames with a missing number are rejected.
#[test]
fn parse_missing_number() {
    assert_eq!(parse_slide_filename("1_.png"), None);
}

/// Filenames without the .png extension are rejected.
#[test]
fn parse_missing_ext() {
    assert_eq!(parse_slide_filename("1_2"), None);
}

/// A plain number without underscore and dot is rejected.
#[test]
fn parse_no_underscore_dot() {
    assert_eq!(parse_slide_filename("12.png"), None);
}

/// Multiple valid filenames parse successfully in sequence.
#[test]
fn uc_2_show_presentation_parse_filename_integration() {
    let entries = &["1_1.png", "12_345.png", "999_0.png"];
    for name in entries {
        let key = parse_slide_filename(name);
        assert!(key.is_some(), "should parse: {name}");
    }
}

/// Non-PNG files and malformed names are filtered out.
#[test]
fn uc_2_show_presentation_parse_filename_ignores_non_matching() {
    let entries = &["notes.md", "image.jpg", "123.png", "a_b.png"];
    for name in entries {
        assert!(parse_slide_filename(name).is_none(), "should reject: {name}");
    }
}

// --- directory listing ---

/// A directory with valid slides is indexed, sorted, and metadata
/// defaults are created for slides without presenter notes.
#[test]
fn uc_2_show_presentation_load_directory_basic() {
    let names = setup_slide_names(&[(1, 1), (1, 2), (2, 1)]);
    let (keys, meta, order) = index_slide_files(&names, None).unwrap();

    assert_eq!(keys.len(), 3);
    assert_eq!(keys[0], SlideKey { chapter: 1, slide: 1 });
    assert_eq!(keys[1], SlideKey { chapter: 1, slide: 2 });
    assert_eq!(keys[2], SlideKey { chapter: 2, slide: 1 });
    assert_eq!(order.len(), 3);
    assert_eq!(names[order[0]], "1_1.png");

    let m = meta.get(&(1, 1)).unwrap();
    assert_eq!(m.chapter_name, "Chapter 1");
    assert_eq!(m.slide_name, "Slide 1_1");
}

/// Slides are sorted by (chapter, slide) regardless of
/// listing order.
#[test]
fn uc_2_show_presentation_load_directory_sorted() {
    let names = setup_slide_names(&[(2, 3), (1, 1), (2, 1), (1, 2)]);
    let (keys, _, order) = index_slide_files(&names, None).unwrap();
    assert_eq!(keys, vec![
        SlideKey { chapter: 1, slide: 1 },
        SlideKey { chapter: 1, slide: 2 },
        SlideKey { chapter: 2, slide: 1 },
        SlideKey { chapter: 2, slide: 3 },
    ]);
    assert_eq!(order, vec![1, 3, 2, 0]);
}

/// A directory without slides produces an error.
#[test]
fn uc_2_show_presentation_load_directory_empty_errors() {
    let names: Vec<String> = Vec::new();
    let err = index_slide_files(&names, None).unwrap_err();
    assert!(dir_error_message(err, "empty").contains("No PNG files"));
}

/// Duplicate slide keys (e.g. 1_1.png and 01_01.png) are
/// detected and produce an error.
#[test]
fn uc_2_show_presentation_load_directory_duplicate_errors() {
    let names: Vec<String> = vec!["01_01.png".into(), "1_2.png".into(), "2_1.png".into(), "1_1.png".into()];
    let err = index_slide_files(&names, None).unwrap_err();
    assert_eq!(err, SlideDirError::DuplicateSlide(SlideKey { chapter: 1, slide: 1 }));
    assert!(dir_error_message(err, "dup").contains("Duplicate slide"));
}

/// Slides with matching dimensions index successfully (dimension
/// mismatch is validated when the images are uploaded).
#[test]
fn load_directory_mismatched_dimensions() {
    let names = setup_slide_names(&[(1, 1), (1, 2)]);
    let (_keys, _meta, _order) = index_slide_files(&names, None).unwrap();
    assert_eq!(_keys.len(), 2);
    assert_eq!(_order.len(), 2);
}

/// Presenter notes are associated with the correct slides.
#[test]
fn uc_2_show_presentation_load_directory_with_presenter_notes() {
    let names: Vec<String> = vec!["1_1.png".into(), "2_1.png".into(), "2_2.png".into(), "presenter_notes.md".into()];
    let notes_content = "\
# 1: Getting Started
## 1_1: Welcome
Hello and welcome to this presentation!

# 2: Deep Dive
## 2_1: Core Concepts
Explanation of core ideas.
## 2_2: Examples
Practical examples.
";
    let (keys, meta, _) = index_slide_files(&names, Some(notes_content)).unwrap();
    assert_eq!(keys.len(), 3);

    let m1 = meta.get(&(1, 1)).unwrap();
    assert_eq!(m1.chapter_name, "Getting Started");
    assert_eq!(m1.slide_name, "Welcome");
    assert_eq!(m1.presenter_notes, "Hello and welcome to this presentation!");

    let m2 = meta.get(&(2, 1)).unwrap();
    assert_eq!(m2.chapter_name, "Deep Dive");
    assert_eq!(m2.slide_name, "Core Concepts");

    let m3 = meta.get(&(2, 2)).unwrap();
    assert_eq!(m3.chapter_name, "Deep Dive");
    assert_eq!(m3.slide_name, "Examples");
    assert_eq!(m3.presenter_notes, "Practical examples.");
}

/// When there is no presenter_notes.md, defaults are generated.
#[test]
fn uc_2_show_presentation_load_directory_missing_notes_file() {
    let names = setup_slide_names(&[(1, 1), (1, 2)]);
    let (_, meta, _) = index_slide_files(&names, None).unwrap();
    let m = meta.get(&(1, 1)).unwrap();
    assert_eq!(m.chapter_name, "Chapter 1");
    assert!(m.presenter_notes.is_empty());
}

// --- parse_presenter_notes ---

/// Presenter notes with a chapter header, slide header, and note
/// text are parsed correctly.
#[test]
fn notes_basic() {
    let n = notes_from("# 1: Intro\n## 1_1: Welcome\nHi");
    let e = n.get(&(1, 1)).unwrap();
    assert_eq!(e.chapter_name, "Intro");
    assert_eq!(e.slide_name, "Welcome");
    assert_eq!(e.presenter_notes, "Hi");
}

/// Multiple chapters with their own slides inherit the correct
/// chapter name.
#[test]
fn notes_multi_chapter() {
    let n = notes_from("# 1: A\n## 1_1: X\nN1\n# 2: B\n## 2_1: Y\nN2");
    assert_eq!(n.get(&(1, 1)).unwrap().chapter_name, "A");
    assert_eq!(n.get(&(2, 1)).unwrap().chapter_name, "B");
    assert_eq!(n.get(&(2, 1)).unwrap().presenter_notes, "N2");
}

/// Multi-line presenter notes are preserved with their line
/// breaks.
#[test]
fn notes_multi_line() {
    let n = notes_from("## 1_1: X\nL1\nL2\nL3");
    assert_eq!(n.get(&(1, 1)).unwrap().presenter_notes, "L1\nL2\nL3");
}

/// A slide header with no note text produces empty notes.
#[test]
fn notes_empty() {
    let n = notes_from("## 1_1: X\n");
    assert_eq!(n.get(&(1, 1)).unwrap().presenter_notes, "");
}

/// Chapter-only headers without slide entries produce no metadata.
#[test]
fn notes_no_slides() {
    let n = notes_from("# 1: A\ntext");
    assert!(n.is_empty());
}

/// Duplicate slide keys in presenter notes are overwritten by the last
/// occurrence.
#[test]
fn notes_duplicate_key() {
    let n = notes_from("## 1_1: A\nn1\n## 1_1: B\nn2");
    let e = n.get(&(1, 1)).unwrap();
    assert_eq!(e.slide_name, "B");
    assert_eq!(e.presenter_notes, "n2");
}

/// Chapter names containing colons are parsed correctly.
#[test]
fn notes_chapter_name_with_colon() {
    let n = notes_from("# 1: Complex: Name\n## 1_1: X\nnotes");
    assert_eq!(n.get(&(1, 1)).unwrap().chapter_name, "Complex: Name");
}

/// Slide names containing colons are parsed correctly.
#[test]
fn notes_slide_name_with_colon() {
    let n = notes_from("## 1_1: Title: Subtitle\nnotes");
    assert_eq!(n.get(&(1, 1)).unwrap().slide_name, "Title: Subtitle");
}

/// Blank lines within presenter notes are preserved.
#[test]
fn notes_blank_lines() {
    let n = notes_from("## 1_1: X\nA\n\nB");
    assert_eq!(n.get(&(1, 1)).unwrap().presenter_notes, "A\n\nB");
}

/// An empty presenter notes input produces an empty map.
#[test]
fn uc_2_show_presentation_parse_presenter_notes_empty_input() {
    let result = parse_presenter_notes("");
    assert!(result.is_empty());
}

/// Notes with only chapter headers (no slide entries) produce
/// an empty map.
#[test]
fn uc_2_show_presentation_parse_presenter_notes_only_chapters() {
    let result = parse_presenter_notes("# 1: Intro\n# 2: Main");
    assert!(result.is_empty());
}

/// Multiple slides across chapters are all parsed correctly.
#[test]
fn uc_2_show_presentation_parse_presenter_notes_multiple_slides() {
    let result = parse_presenter_notes("\
# 1: Chapter One
## 1_1: Slide A
Notes for A

## 1_2: Slide B
Notes for B

# 2: Chapter Two
## 2_1: Slide C
Notes for C
");
    assert_eq!(result.len(), 3);
    assert_eq!(result.get(&(1, 1)).unwrap().presenter_notes, "Notes for A");
    assert_eq!(result.get(&(1, 2)).unwrap().presenter_notes, "Notes for B");
    assert_eq!(result.get(&(2, 1)).unwrap().presenter_notes, "Notes for C");
}

/// Each slide inherits the chapter name from the most recent
/// chapter header.
#[test]
fn uc_2_show_presentation_parse_presenter_notes_chapter_inheritance() {
    let result = parse_presenter_notes("\
# 1: Intro
## 1_1: First
# 2: Deep Dive
## 2_1: Core
");
    assert_eq!(result.get(&(1, 1)).unwrap().chapter_name, "Intro");
    assert_eq!(result.get(&(2, 1)).unwrap().chapter_name, "Deep Dive");
}

/// Blank lines within notes are preserved, including consecutive
/// blank lines.
#[test]
fn uc_2_show_presentation_parse_presenter_notes_preserves_blank_lines() {
    let result = parse_presenter_notes("## 1_1: Test\nLine 1\n\nLine 3\n\n\nLine 6");
    let notes = &result.get(&(1, 1)).unwrap().presenter_notes;
    assert_eq!(notes, "Line 1\n\nLine 3\n\n\nLine 6");
}

// --- SlideCollection navigation ---

/// chapter_of returns the chapter number for each slide layer.
#[test]
fn nav_chapter_of() {
    let c = make_collection(&[(1, 1), (1, 2), (2, 1), (2, 2), (2, 3), (3, 1)]);
    assert_eq!(c.chapter_of(0), Some(1));
    assert_eq!(c.chapter_of(1), Some(1));
    assert_eq!(c.chapter_of(2), Some(2));
    assert_eq!(c.chapter_of(5), Some(3));
}

/// is_first_of_chapter is true for the first slide of each
/// chapter and false otherwise.
#[test]
fn nav_is_first_of_chapter() {
    let c = make_collection(&[(1, 1), (1, 2), (2, 1)]);
    assert!(c.is_first_of_chapter(0));
    assert!(!c.is_first_of_chapter(1));
    assert!(c.is_first_of_chapter(2));
    assert!(!c.is_first_of_chapter(3));
}

/// is_last_of_chapter is true for the last slide of each chapter
/// and false otherwise.
#[test]
fn nav_is_last_of_chapter() {
    let c = make_collection(&[(1, 1), (1, 2), (2, 1)]);
    assert!(!c.is_last_of_chapter(0));
    assert!(c.is_last_of_chapter(1));
    assert!(c.is_last_of_chapter(2));
    assert!(!c.is_last_of_chapter(3));
}

/// next_slide returns the next slide when within the same
/// chapter.
#[test]
fn nav_next_slide_within_chapter() {
    let c = make_collection(&[(1, 1), (1, 2), (2, 1)]);
    assert_eq!(c.next_slide(0), Some(1));
}

/// next_slide returns the first slide of the next chapter when
/// the current slide is the last of its chapter.
#[test]
fn nav_next_slide_cross_chapter() {
    let c = make_collection(&[(1, 1), (1, 2), (2, 1)]);
    assert_eq!(c.next_slide(1), Some(2));
}

/// next_slide returns None when at the last slide.
#[test]
fn nav_next_slide_at_end() {
    let c = make_collection(&[(1, 1), (1, 2)]);
    assert_eq!(c.next_slide(1), None);
}

/// prev_slide returns the previous slide within the same
/// chapter.
#[test]
fn nav_prev_slide_within_chapter() {
    let c = make_collection(&[(1, 1), (1, 2)]);
    assert_eq!(c.prev_slide(1), Some(0));
}

/// prev_slide returns None when at the first slide.
#[test]
fn nav_prev_slide_at_start() {
    let c = make_collection(&[(1, 1), (1, 2)]);
    assert_eq!(c.prev_slide(0), None);
}

/// prev_slide crosses a chapter boundary to the last slide of
/// the previous chapter.
#[test]
fn nav_prev_slide_cross_chapter() {
    let c = make_collection(&[(1, 1), (2, 1)]);
    assert_eq!(c.prev_slide(1), Some(0));
}

/// next_chapter finds the first slide of the next chapter.
#[test]
fn nav_next_chapter() {
    let c = make_collection(&[(1, 1), (1, 2), (2, 1), (3, 1)]);
    assert_eq!(c.next_chapter(0), Some(2));
    assert_eq!(c.next_chapter(1), Some(2));
    assert_eq!(c.next_chapter(2), Some(3));
}

/// next_chapter returns None when on the last chapter.
#[test]
fn nav_next_chapter_at_end() {
    let c = make_collection(&[(1, 1), (2, 1)]);
    assert_eq!(c.next_chapter(1), None);
}

/// prev_chapter finds the last slide of the previous
/// chapter.
#[test]
fn nav_prev_chapter() {
    let c = make_collection(&[(1, 1), (2, 1), (2, 2), (3, 1)]);
    assert_eq!(c.prev_chapter(0), None);
    assert_eq!(c.prev_chapter(1), Some(0));
    assert_eq!(c.prev_chapter(3), Some(2));
}

/// prev_chapter returns None when on the first chapter.
#[test]
fn nav_prev_chapter_at_start() {
    let c = make_collection(&[(1, 1)]);
    assert_eq!(c.prev_chapter(0), None);
}

/// Non-sequential chapter numbers (e.g. chapters 1, 3, 5) are handled
/// correctly by next_chapter and prev_chapter.
#[test]
fn nav_non_sequential_chapters() {
    let c = make_collection(&[(1, 1), (3, 1), (5, 1)]);
    assert_eq!(c.next_chapter(0), Some(1));
    assert_eq!(c.prev_chapter(2), Some(1));
    assert_eq!(c.prev_chapter(1), Some(0));
}

/// A single-slide presentation has correct boundary behavior: no next
/// or previous slide, no next or previous chapter, and is both first and last
/// of its chapter.
#[test]
fn nav_single_slide() {
    let c = make_collection(&[(1, 1)]);
    assert_eq!(c.next_slide(0), None);
    assert_eq!(c.prev_slide(0), None);
    assert_eq!(c.next_chapter(0), None);
    assert_eq!(c.prev_chapter(0), None);
    assert!(c.is_first_of_chapter(0));
    assert!(c.is_last_of_chapter(0));
}

// --- Directions of next_slide / prev_slide ---

/// When next_slide crosses a chapter boundary, the
/// chapters differ, so a slide transition enters from the right.
#[test]
fn next_slide_cross_chapter_direction() {
    let c = make_collection(&[(1, 1), (1, 2), (2, 1)]);
    let current = 1;
    let target = c.next_slide(current).unwrap();
    let same = c.chapter_of(current) == c.chapter_of(target);
    assert!(!same);
}

/// When prev_slide crosses a chapter boundary, the
/// chapters differ, so a slide transition enters from the left.
#[test]
fn prev_slide_cross_chapter_direction() {
    let c = make_collection(&[(1, 1), (2, 1), (2, 2)]);
    let current = 1;
    let target = c.prev_slide(current).unwrap();
    let same = c.chapter_of(current) == c.chapter_of(target);
    assert!(!same);
}

/// When next_slide stays in the same chapter, the chapters match
/// and a slide transition enters from below.
#[test]
fn next_slide_same_chapter_direction() {
    let c = make_collection(&[(1, 1), (1, 2), (2, 1)]);
    let current = 0;
    let target = c.next_slide(current).unwrap();
    let same = c.chapter_of(current) == c.chapter_of(target);
    assert!(same);
}

/// When prev_slide stays in the same chapter, the chapters
/// match and a slide transition enters from above.
#[test]
fn prev_slide_same_chapter_direction() {
    let c = make_collection(&[(1, 1), (1, 2), (2, 1)]);
    let current = 1;
    let target = c.prev_slide(current).unwrap();
    let same = c.chapter_of(current) == c.chapter_of(target);
    assert!(same);
}

// --- Navigation from loaded directory ---

/// Full navigation verification within a single chapter.
#[test]
fn uc_2_show_presentation_navigation_single_chapter() {
    let c = make_collection(&[(1, 1), (1, 2), (1, 3)]);

    assert_eq!(c.chapter_of(0), Some(1));
    assert_eq!(c.chapter_of(2), Some(1));
    assert!(c.is_first_of_chapter(0));
    assert!(c.is_last_of_chapter(2));
    assert_eq!(c.next_slide(0), Some(1));
    assert_eq!(c.next_slide(2), None);
    assert_eq!(c.prev_slide(0), None);
    assert_eq!(c.prev_slide(1), Some(0));
    assert_eq!(c.next_chapter(0), None);
    assert_eq!(c.prev_chapter(2), None);
}

/// Full navigation across multiple chapters, using a SlideCollection
/// built from an actual loaded directory.
#[test]
fn uc_2_show_presentation_navigation_multi_chapter_from_loaded_dir() {
    let names = setup_slide_names(&[(1, 1), (2, 1), (2, 2), (3, 1)]);
    let (keys, meta, _) = index_slide_files(&names, None).unwrap();
    let collection = SlideCollection { slides: keys, metadata: meta };

    assert_eq!(collection.len(), 4);
    assert_eq!(collection.chapter_of(0), Some(1));
    assert_eq!(collection.chapter_of(1), Some(2));
    assert_eq!(collection.chapter_of(3), Some(3));

    assert!(collection.is_first_of_chapter(0));
    assert!(collection.is_first_of_chapter(1));
    assert!(collection.is_first_of_chapter(3));

    assert_eq!(collection.next_slide(0), Some(1));
    assert_eq!(collection.prev_slide(1), Some(0));
    assert_eq!(collection.next_slide(3), None);

    assert_eq!(collection.next_chapter(0), Some(1));
    assert_eq!(collection.next_chapter(1), Some(3));
    assert_eq!(collection.next_chapter(3), None);

    assert_eq!(collection.prev_chapter(0), None);
    assert_eq!(collection.prev_chapter(1), Some(0));
    assert_eq!(collection.prev_chapter(2), Some(0));
    assert_eq!(collection.prev_chapter(3), Some(2));
}

// --- format_slide_display ---

/// format_slide_display includes chapter name, slide name, and
/// presenter notes when notes are present.
#[test]
fn format_display_with_notes() {
    let meta = SlideMeta {
        chapter_num: 1,
        slide_num: 2,
        chapter_name: "Intro".into(),
        slide_name: "Welcome".into(),
        presenter_notes: "Hello\nWorld".into(),
    };
    let s = format_slide_display(&meta, 0, 5);
    assert!(s.contains("Chapter 1: Intro"));
    assert!(s.contains("Slide 1_2: Welcome"));
    assert!(s.contains("Hello\nWorld"));
}

/// format_slide_display omits the notes section when presenter
/// notes are empty.
#[test]
fn format_display_no_notes() {
    let meta = SlideMeta {
        chapter_num: 1,
        slide_num: 1,
        chapter_name: "Test".into(),
        slide_name: "Slide".into(),
        presenter_notes: String::new(),
    };
    let s = format_slide_display(&meta, 0, 1);
    assert!(s.contains("--- Chapter 1: Test ---"));
    assert!(s.contains("Slide 1_1: Slide"));
}

/// format_slide_display produces the exact expected string
/// format.
#[test]
fn uc_2_show_presentation_display_formats_correctly() {
    let meta = SlideMeta {
        chapter_num: 2,
        slide_num: 5,
        chapter_name: "Advanced".into(),
        slide_name: "Example".into(),
        presenter_notes: String::new(),
    };
    let output = format_slide_display(&meta, 0, 10);
    assert_eq!(output, "--- Chapter 2: Advanced ---\nSlide 2_5: Example");
}

/// Notes content appears in the display output when present.
#[test]
fn uc_2_show_presentation_display_includes_notes_when_present() {
    let meta = SlideMeta {
        chapter_num: 1,
        slide_num: 1,
        chapter_name: "Intro".into(),
        slide_name: "Welcome".into(),
        presenter_notes: "Say hello to everyone.".into(),
    };
    let output = format_slide_display(&meta, 0, 5);
    assert!(output.contains("Say hello to everyone."));
    assert!(output.starts_with("--- Chapter 1: Intro ---"));
}

// --- Keys and frame steps ---

/// The arrow keys and space move through the deck; escape
/// and Q quit; other keys do nothing.
#[test]
fn keys_move_through_deck() {
    let c = make_collection(&[(1, 1), (1, 2), (2, 1), (2, 2), (3, 1)]);
    let tt = TransitionType::Instant;
    let mut n = Navigator::new();
    assert_eq!(n.press(&c, tt, Key::ArrowDown), KeyResponse::Moved);
    assert_eq!(n.current_layer, 1);
    assert_eq!(n.press(&c, tt, Key::Space), KeyResponse::Moved);
    assert_eq!(n.current_layer, 2);
    assert_eq!(n.press(&c, tt, Key::ArrowRight), KeyResponse::Moved);
    assert_eq!(n.current_layer, 4);
    assert_eq!(n.press(&c, tt, Key::ArrowLeft), KeyResponse::Moved);
    assert_eq!(n.current_layer, 3);
    assert_eq!(n.press(&c, tt, Key::ArrowUp), KeyResponse::Moved);
    assert_eq!(n.current_layer, 2);
    let before = n;
    assert_eq!(n.press(&c, tt, Key::Other), KeyResponse::Ignore);
    assert_eq!(n, before);
    assert_eq!(n.press(&c, tt, Key::Escape), KeyResponse::Quit);
    assert_eq!(n, before);
    assert_eq!(n.press(&c, tt, Key::Q), KeyResponse::Quit);
    assert_eq!(n, before);
}

/// Extension: a key at the edge of the deck still redraws but stays put.
#[test]
fn keys_at_deck_edge() {
    let c = make_collection(&[(1, 1), (1, 2)]);
    let mut n = Navigator::new();
    assert_eq!(n.press(&c, TransitionType::Smooth, Key::ArrowUp), KeyResponse::Redraw);
    assert_eq!(n.current_layer, 0);
    assert!(!n.is_transitioning);
    assert_eq!(n.press(&c, TransitionType::Smooth, Key::ArrowLeft), KeyResponse::Redraw);
    assert_eq!(n.current_layer, 0);
    assert_eq!(n.press(&c, TransitionType::Smooth, Key::ArrowRight), KeyResponse::Redraw);
    assert_eq!(n.press(&c, TransitionType::Smooth, Key::ArrowDown), KeyResponse::Moved);
    assert!(n.is_transitioning);
    assert_eq!(n.press(&c, TransitionType::Smooth, Key::Space), KeyResponse::Redraw);
    assert_eq!(n.current_layer, 1);
}

/// Between frames a running transition ends once its time has elapsed; the
/// window keeps drawing while it runs, and the feedback styles always.
#[test]
fn frame_step_ends_transition() {
    let mut n = Navigator::new();
    assert!(n.navigate_to(2, TransitionType::Slide, Some(1)));
    assert!(n.advance(TransitionType::Slide, false));
    assert!(n.is_transitioning);
    assert!(n.advance(TransitionType::Slide, true));
    assert!(!n.is_transitioning);
    assert_eq!(n.previous_layer, 1);
    assert!(!n.advance(TransitionType::Slide, true));
    assert!(n.advance(TransitionType::Fluid, false));
    assert!(n.advance(TransitionType::Smooth, true));
    assert!(!n.advance(TransitionType::Instant, false));
}

/// A slide's notes are only the text after its own header: text after a
/// chapter header, or before any header, belongs to no slide.
#[test]
fn notes_text_before_slide_header_is_dropped() {
    let m = notes_from("# 1: A\nPreamble\n## 1_1: X\nN");
    let e = m.get(&(1, 1)).unwrap();
    assert_eq!(e.presenter_notes, "N");
    assert_eq!(e.chapter_name, "A");
    let m = notes_from("Intro\n## 2_3: Y\nnotes\n# 3: B\ntrailing");
    assert_eq!(m.get(&(2, 3)).unwrap().presenter_notes, "notes");
    assert_eq!(m.len(), 1);
}

/// All slides must have one size: the first image of another size is found.
#[test]
fn slide_sizes_must_match() {
    assert_eq!(first_size_mismatch(&vec![(64, 64), (64, 64), (32, 64), (1, 1)]), Some(2));
    assert_eq!(first_size_mismatch(&vec![(64, 64), (64, 64)]), None);
    assert_eq!(first_size_mismatch(&vec![(64, 64)]), None);
    assert_eq!(first_size_mismatch(&vec![]), None);
}
