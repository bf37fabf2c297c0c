//! The example deck that `init` writes: chapter and slide names, presenter
//! notes, and placeholder slide images with random rectangles.
use vstd::prelude::*;

use image::{ImageFormat, Rgba, RgbaImage};
use rand::rngs::ThreadRng;
use rand::Rng;

use crate::text::{decimal, push_decimal, push_str_chars};
use crate::texture::{slide_filename_of, string_from_chars, SlideKey};

verus! {

/// `rand::rngs::ThreadRng`, the thread-local random number generator; its
/// state stays hidden and it is only handed to `Rng::gen_range`.
#[verifier::external_type_specification]
#[verifier::external_body]
pub struct ExThreadRng(ThreadRng);

/// An RGBA slide image held for drawing: an `image::RgbaImage` (the image
/// crate's pixel buffer), hidden from the verifier, whose contents are known
/// through `image_pixels` and `image_size` as the wrappers below state them.
#[verifier::external_body]
pub struct SlideImage {
    image: RgbaImage,
}

/// The pixels of a slide image: red, green, blue and alpha at each `(x, y)`.
pub uninterp spec fn image_pixels(img: SlideImage) -> Map<(u32, u32), (u8, u8, u8, u8)>;

/// The width and height that a slide image was made with.
pub uninterp spec fn image_size(img: SlideImage) -> (u32, u32);

/// The PNG file that the image crate writes for these pixels and this size.
pub uninterp spec fn png_encoding(pixels: Map<(u32, u32), (u8, u8, u8, u8)>, size: (u32, u32)) -> Seq<u8>;

/// A fully transparent black image of the given size.
pub open spec fn blank_pixels(width: u32, height: u32) -> Map<(u32, u32), (u8, u8, u8, u8)> {
    Map::new(|p: (u32, u32)| p.0 < width && p.1 < height, |p: (u32, u32)| (0u8, 0u8, 0u8, 0u8))
}

/// `ImageBuffer::new`: an image of `width` by `height` pixels, all zero
/// (transparent black). The crate panics when the buffer length
/// `4 * width * height` overflows `usize`, and allocating more than
/// `isize::MAX` bytes panics too; `requires` rules both out.
#[verifier::external_body]
fn new_slide_image(width: u32, height: u32) -> (img: SlideImage)
    requires
        4 * (width as int) * (height as int) <= isize::MAX,
    ensures
        image_size(img) == (width, height),
        image_pixels(img) == blank_pixels(width, height),
{
    SlideImage { image: RgbaImage::new(width, height) }
}

/// `ImageBuffer::put_pixel`: sets the pixel at `(x, y)` and nothing else. The
/// crate panics outside the image, which `requires` rules out.
#[verifier::external_body]
fn put_pixel(img: &mut SlideImage, x: u32, y: u32, px: (u8, u8, u8, u8))
    requires
        x < image_size(*old(img)).0,
        y < image_size(*old(img)).1,
    ensures
        image_size(*final(img)) == image_size(*old(img)),
        image_pixels(*final(img)) == image_pixels(*old(img)).insert((x, y), px),
{
    img.image.put_pixel(x, y, Rgba([px.0, px.1, px.2, px.3]));
}

/// `ImageBuffer::write_to` with the PNG format into memory: the bytes of the
/// PNG file for the image, or `None` when the encoder reports an error. For an
/// RGBA image written to memory the png encoder fails only on a zero width or
/// height, so an image of positive size is always encoded.
#[verifier::external_body]
fn encode_png(img: &SlideImage) -> (r: Option<Vec<u8>>)
    ensures
        r matches Some(b) ==> b@ == png_encoding(image_pixels(*img), image_size(*img)),
        image_size(*img).0 > 0 && image_size(*img).1 > 0 ==> r is Some,
{
    let mut out = std::io::Cursor::new(Vec::new());
    match img.image.write_to(&mut out, ImageFormat::Png) {
        Ok(()) => Some(out.into_inner()),
        Err(_) => None,
    }
}

/// `Rng::gen_range` over `low..=high`: a number drawn uniformly from that
/// range; only the range is promised. The crate panics on an empty range,
/// which `requires` rules out.
#[verifier::external_body]
fn random_in(rng: &mut ThreadRng, low: u32, high: u32) -> (r: u32)
    requires
        low <= high,
    ensures
        low <= r <= high,
{
    rng.gen_range(low..=high)
}


/// A filled rectangle of one colour.
#[derive(Debug, Clone, Copy, PartialEq, Eq, Structural)]
pub struct Rectangle {
    pub x: u32,
    pub y: u32,
    pub width: u32,
    pub height: u32,
    pub red: u8,
    pub green: u8,
    pub blue: u8,
    pub alpha: u8,
}

/// The colour of a rectangle.
pub open spec fn rect_color(r: Rectangle) -> (u8, u8, u8, u8) {
    (r.red, r.green, r.blue, r.alpha)
}

/// Whether the rectangle covers pixel `p`.
pub open spec fn covers(r: Rectangle, p: (u32, u32)) -> bool {
    r.x <= p.0 < r.x + r.width && r.y <= p.1 < r.y + r.height
}

/// Whether the rectangle lies inside a `width` by `height` image.
pub open spec fn fits(r: Rectangle, width: u32, height: u32) -> bool {
    r.x + r.width <= width && r.y + r.height <= height
}

/// The colour of pixel `p` once `rects` are painted in order on a transparent
/// background: the colour of the last rectangle that covers it.
pub open spec fn painted_color(rects: Seq<Rectangle>, p: (u32, u32)) -> (u8, u8, u8, u8)
    decreases rects.len(),
{
    if rects.len() == 0 {
        (0u8, 0u8, 0u8, 0u8)
    } else if covers(rects.last(), p) {
        rect_color(rects.last())
    } else {
        painted_color(rects.drop_last(), p)
    }
}

/// The pixels of a `width` by `height` image with `rects` painted in order.
pub open spec fn painted(width: u32, height: u32, rects: Seq<Rectangle>) -> Map<
    (u32, u32),
    (u8, u8, u8, u8),
> {
    Map::new(|p: (u32, u32)| p.0 < width && p.1 < height, |p: (u32, u32)| painted_color(rects, p))
}

/// How many positions a rectangle's corner may take along a side of length
/// `n`: all that leave 50 pixels after it, and at least one.
pub open spec fn corner_range(n: u32) -> u32 {
    if n > 50 {
        (n - 50) as u32
    } else {
        1
    }
}

/// Whether `r` is a rectangle that the example slides may hold: at least 50
/// by 50 pixels, at most 400 by 300, inside the image, its corner in the top
/// left `corner_range(width)` by `corner_range(height)` area, colour channels
/// from 30 to 220, fully opaque.
pub open spec fn example_rect(r: Rectangle, width: u32, height: u32) -> bool {
    &&& r.x < corner_range(width) && r.y < corner_range(height)
    &&& 50 <= r.width <= 400 && 50 <= r.height <= 300
    &&& fits(r, width, height)
    &&& 30 <= r.red <= 220 && 30 <= r.green <= 220 && 30 <= r.blue <= 220
    &&& r.alpha == 255
}

/// Paints `r` onto `img`.
fn paint_rectangle(img: &mut SlideImage, r: Rectangle, Ghost(done): Ghost<Seq<Rectangle>>)
    requires
        fits(r, image_size(*old(img)).0, image_size(*old(img)).1),
        image_pixels(*old(img)) == painted(
            image_size(*old(img)).0,
            image_size(*old(img)).1,
            done,
        ),
    ensures
        image_size(*final(img)) == image_size(*old(img)),
        image_pixels(*final(img)) == painted(
            image_size(*old(img)).0,
            image_size(*old(img)).1,
            done.push(r),
        ),
{
    let ghost (w, h) = image_size(*img);
    let ghost all = done.push(r);
    assert(all.drop_last() =~= done);
    let color = (r.red, r.green, r.blue, r.alpha);
    let mut py = r.y;
    while py < r.y + r.height
        invariant
            r.y <= py <= r.y + r.height,
            fits(r, w, h),
            all == done.push(r),
            all.drop_last() == done,
            color == rect_color(r),
            image_size(*img) == (w, h),
            image_pixels(*img) == Map::new(
                |p: (u32, u32)| p.0 < w && p.1 < h,
                |p: (u32, u32)|
                    if covers(r, p) && p.1 < py {
                        rect_color(r)
                    } else {
                        painted_color(done, p)
                    },
            ),
        decreases r.y + r.height - py,
    {
        let mut px = r.x;
        while px < r.x + r.width
            invariant
                r.x <= px <= r.x + r.width,
                r.y <= py < r.y + r.height,
                fits(r, w, h),
                color == rect_color(r),
                image_size(*img) == (w, h),
                image_pixels(*img) == Map::new(
                    |p: (u32, u32)| p.0 < w && p.1 < h,
                    |p: (u32, u32)|
                        if covers(r, p) && (p.1 < py || (p.1 == py && p.0 < px)) {
                            rect_color(r)
                        } else {
                            painted_color(done, p)
                        },
                ),
            decreases r.x + r.width - px,
        {
            put_pixel(img, px, py, color);
            px += 1;
            assert(image_pixels(*img) =~= Map::new(
                |p: (u32, u32)| p.0 < w && p.1 < h,
                |p: (u32, u32)|
                    if covers(r, p) && (p.1 < py || (p.1 == py && p.0 < px)) {
                        rect_color(r)
                    } else {
                        painted_color(done, p)
                    },
            ));
        }
        py += 1;
        assert(image_pixels(*img) =~= Map::new(
            |p: (u32, u32)| p.0 < w && p.1 < h,
            |p: (u32, u32)|
                if covers(r, p) && p.1 < py {
                    rect_color(r)
                } else {
                    painted_color(done, p)
                },
        ));
    }
    assert(image_pixels(*img) =~= painted(w, h, all));
}

/// A transparent `width` by `height` image with `rects` painted in order.
fn paint_rectangles(width: u32, height: u32, rects: &Vec<Rectangle>) -> (img: SlideImage)
    requires
        4 * (width as int) * (height as int) <= isize::MAX,
        forall|i: int| 0 <= i < rects.len() ==> fits(#[trigger] rects[i], width, height),
    ensures
        image_size(img) == (width, height),
        image_pixels(img) == painted(width, height, rects@),
{
    let mut img = new_slide_image(width, height);
    assert(image_pixels(img) =~= painted(width, height, Seq::<Rectangle>::empty()));
    let mut i: usize = 0;
    while i < rects.len()
        invariant
            0 <= i <= rects.len(),
            forall|j: int| 0 <= j < rects.len() ==> fits(#[trigger] rects[j], width, height),
            image_size(img) == (width, height),
            image_pixels(img) == painted(width, height, rects@.take(i as int)),
        decreases rects.len() - i,
    {
        let r = rects[i];
        assert(fits(rects[i as int], width, height));
        paint_rectangle(&mut img, r, Ghost(rects@.take(i as int)));
        assert(rects@.take(i as int).push(r) =~= rects@.take(i + 1));
        i += 1;
    }
    assert(rects@.take(rects.len() as int) =~= rects@);
    img
}

/// The largest width a rectangle with its corner at `x` may take on a slide
/// `width` pixels wide: what is left of the slide, at most 400.
pub open spec fn max_rect_width(width: u32, x: u32) -> u32 {
    if width - x < 400 {
        (width - x) as u32
    } else {
        400
    }
}

/// The largest height a rectangle with its corner at `y` may take on a slide
/// `height` pixels high: what is left of the slide, at most 300.
pub open spec fn max_rect_height(height: u32, y: u32) -> u32 {
    if height - y < 300 {
        (height - y) as u32
    } else {
        300
    }
}

/// The rectangle that the drawn numbers describe, when they are in the ranges
/// of the example slides: corner `(x, y)`, size `w` by `h`, colour
/// `(red, green, blue)`, fully opaque. The draws are taken in this order, the
/// size after the corner, from `0..corner_range(width)`,
/// `0..corner_range(height)`, `50..=max_rect_width(width, x)`,
/// `50..=max_rect_height(height, y)` and `30..=220` for each colour channel.
pub fn example_rectangle(
    width: u32,
    height: u32,
    x: u32,
    y: u32,
    w: u32,
    h: u32,
    red: u32,
    green: u32,
    blue: u32,
) -> (r: Option<Rectangle>)
    ensures
        r == (if 50 <= width && 50 <= height && x < corner_range(width) && y < corner_range(height)
            && 50 <= w <= max_rect_width(width, x) && 50 <= h <= max_rect_height(height, y) && 30
            <= red <= 220 && 30 <= green <= 220 && 30 <= blue <= 220 {
            Some(
                Rectangle {
                    x,
                    y,
                    width: w,
                    height: h,
                    red: red as u8,
                    green: green as u8,
                    blue: blue as u8,
                    alpha: 255,
                },
            )
        } else {
            None
        }),
        r matches Some(rect) ==> example_rect(rect, width, height),
{
    if width < 50 || height < 50 {
        return None;
    }
    let x_range = if width > 50 { width - 50 } else { 1 };
    let y_range = if height > 50 { height - 50 } else { 1 };
    if x >= x_range || y >= y_range {
        return None;
    }
    let max_w = if width - x < 400 { width - x } else { 400 };
    let max_h = if height - y < 300 { height - y } else { 300 };
    if w < 50 || w > max_w || h < 50 || h > max_h {
        return None;
    }
    if red < 30 || red > 220 || green < 30 || green > 220 || blue < 30 || blue > 220 {
        return None;
    }
    Some(
        Rectangle {
            x,
            y,
            width: w,
            height: h,
            red: red as u8,
            green: green as u8,
            blue: blue as u8,
            alpha: 255,
        },
    )
}

/// A random rectangle for an example slide.
fn random_rectangle(rng: &mut ThreadRng, width: u32, height: u32) -> (r: Rectangle)
    requires
        50 <= width,
        50 <= height,
    ensures
        example_rect(r, width, height),
{
    let x_range = if width > 50 { width - 50 } else { 1 };
    let y_range = if height > 50 { height - 50 } else { 1 };
    let x = random_in(rng, 0, x_range - 1);
    let y = random_in(rng, 0, y_range - 1);
    let max_w = if width - x < 400 { width - x } else { 400 };
    let max_h = if height - y < 300 { height - y } else { 300 };
    let w = random_in(rng, 50, max_w);
    let h = random_in(rng, 50, max_h);
    let red = random_in(rng, 30, 220);
    let green = random_in(rng, 30, 220);
    let blue = random_in(rng, 30, 220);
    match example_rectangle(width, height, x, y, w, h, red, green, blue) {
        Some(r) => r,
        None => {
            proof {
                assert(false);
            }
            Rectangle { x, y, width: w, height: h, red: 30, green: 30, blue: 30, alpha: 255 }
        },
    }
}

/// Between 5 and 12 random rectangles for an example slide.
pub fn random_rectangles(rng: &mut ThreadRng, width: u32, height: u32) -> (rs: Vec<Rectangle>)
    requires
        50 <= width,
        50 <= height,
    ensures
        5 <= rs.len() <= 12,
        forall|i: int| 0 <= i < rs.len() ==> example_rect(#[trigger] rs[i], width, height),
{
    let count = random_in(rng, 5, 12);
    let mut rs: Vec<Rectangle> = Vec::new();
    let mut i: u32 = 0;
    while i < count
        invariant
            0 <= i <= count <= 12,
            5 <= count,
            50 <= width,
            50 <= height,
            rs.len() == i,
            forall|j: int| 0 <= j < rs.len() ==> example_rect(#[trigger] rs[j], width, height),
        decreases count - i,
    {
        rs.push(random_rectangle(rng, width, height));
        i += 1;
    }
    rs
}

/// The PNG file of a transparent `width` by `height` image with `rects`
/// painted in order; `None` only for an empty image, which the encoder
/// refuses.
pub fn rectangles_png(width: u32, height: u32, rects: &Vec<Rectangle>) -> (r: Option<Vec<u8>>)
    requires
        4 * (width as int) * (height as int) <= isize::MAX,
        forall|i: int| 0 <= i < rects.len() ==> fits(#[trigger] rects[i], width, height),
    ensures
        r matches Some(b) ==> b@ == png_encoding(painted(width, height, rects@), (width, height)),
        width > 0 && height > 0 ==> r is Some,
{
    let img = paint_rectangles(width, height, rects);
    encode_png(&img)
}

/// The PNG file of a placeholder slide: a transparent image with 5 to 12
/// random opaque rectangles painted on it.
pub fn random_slide_png(rng: &mut ThreadRng, width: u32, height: u32) -> (r: Option<Vec<u8>>)
    requires
        50 <= width,
        50 <= height,
        4 * (width as int) * (height as int) <= isize::MAX,
    ensures
        r is Some,
        r matches Some(b) ==> exists|rs: Seq<Rectangle>|
            {
                &&& 5 <= rs.len() <= 12
                &&& forall|i: int| 0 <= i < rs.len() ==> example_rect(#[trigger] rs[i], width, height)
                &&& b@ == png_encoding(painted(width, height, rs), (width, height))
            },
{
    let rs = random_rectangles(rng, width, height);
    assert forall|i: int| 0 <= i < rs.len() implies fits(#[trigger] rs[i], width, height) by {
        assert(example_rect(rs[i], width, height));
    }
    let r = rectangles_png(width, height, &rs);
    if let Some(b) = &r {
        assert(b@ == png_encoding(painted(width, height, rs@), (width, height)));
    }
    r
}

/// Whether every pixel that no rectangle covers is transparent black.
pub proof fn lemma_painted_background(width: u32, height: u32, rects: Seq<Rectangle>, p: (u32, u32))
    requires
        p.0 < width && p.1 < height,
        forall|i: int| 0 <= i < rects.len() ==> !covers(#[trigger] rects[i], p),
    ensures
        painted(width, height, rects)[p] == (0u8, 0u8, 0u8, 0u8),
{
    lemma_painted_color_uncovered(rects, p);
}

proof fn lemma_painted_color_uncovered(rects: Seq<Rectangle>, p: (u32, u32))
    requires
        forall|i: int| 0 <= i < rects.len() ==> !covers(#[trigger] rects[i], p),
    ensures
        painted_color(rects, p) == (0u8, 0u8, 0u8, 0u8),
    decreases rects.len(),
{
    if rects.len() > 0 {
        let t = rects.drop_last();
        assert(!covers(rects[rects.len() - 1], p));
        assert forall|i: int| 0 <= i < t.len() implies !covers(#[trigger] t[i], p) by {
            assert(t[i] == rects[i]);
        }
        lemma_painted_color_uncovered(t, p);
    }
}

proof fn lemma_painted_color_range(rects: Seq<Rectangle>, width: u32, height: u32, p: (u32, u32))
    requires
        forall|i: int| 0 <= i < rects.len() ==> example_rect(#[trigger] rects[i], width, height),
    ensures
        ({
            let c = painted_color(rects, p);
            c == (0u8, 0u8, 0u8, 0u8) || (30 <= c.0 <= 220 && 30 <= c.1 <= 220 && 30 <= c.2 <= 220
                && c.3 == 255)
        }),
    decreases rects.len(),
{
    if rects.len() > 0 {
        let t = rects.drop_last();
        assert(example_rect(rects[rects.len() - 1], width, height));
        assert forall|i: int| 0 <= i < t.len() implies example_rect(#[trigger] t[i], width, height) by {
            assert(t[i] == rects[i]);
        }
        lemma_painted_color_range(t, width, height, p);
    }
}

/// On an example slide every pixel is either transparent black or a
/// rectangle colour (channels 30 to 220, fully opaque), and the corner
/// of the last rectangle painted is visible.
pub proof fn lemma_example_slide_pixels(width: u32, height: u32, rects: Seq<Rectangle>)
    requires
        50 <= width,
        50 <= height,
        rects.len() > 0,
        forall|i: int| 0 <= i < rects.len() ==> example_rect(#[trigger] rects[i], width, height),
    ensures
        forall|p: (u32, u32)| #[trigger]
            painted(width, height, rects).contains_key(p) ==> {
                let c = painted(width, height, rects)[p];
                c == (0u8, 0u8, 0u8, 0u8) || (30 <= c.0 <= 220 && 30 <= c.1 <= 220 && 30 <= c.2
                    <= 220 && c.3 == 255)
            },
        ({
            let r = rects.last();
            &&& painted(width, height, rects).contains_key((r.x, r.y))
            &&& painted(width, height, rects)[(r.x, r.y)].3 == 255
        }),
{
    assert forall|p: (u32, u32)| #[trigger] painted(width, height, rects).contains_key(p) implies {
        let c = painted(width, height, rects)[p];
        c == (0u8, 0u8, 0u8, 0u8) || (30 <= c.0 <= 220 && 30 <= c.1 <= 220 && 30 <= c.2 <= 220 && c.3
            == 255)
    } by {
        lemma_painted_color_range(rects, width, height, p);
    }
    assert(example_rect(rects[rects.len() - 1], width, height));
}

/// One slide of the example deck.
pub struct ExampleSlide {
    pub num: u32,
    pub name: String,
    pub notes: String,
}

/// One chapter of the example deck.
pub struct ExampleChapter {
    pub num: u32,
    pub name: String,
    pub slides: Vec<ExampleSlide>,
}

/// The value of an [`ExampleSlide`].
pub struct SlideDef {
    pub num: u32,
    pub name: Seq<char>,
    pub notes: Seq<char>,
}

/// The value of an [`ExampleChapter`].
pub struct ChapterDef {
    pub num: u32,
    pub name: Seq<char>,
    pub slides: Seq<SlideDef>,
}

impl View for ExampleSlide {
    type V = SlideDef;

    open spec fn view(&self) -> SlideDef {
        SlideDef { num: self.num, name: self.name@, notes: self.notes@ }
    }
}

/// The values of a list of slides.
pub open spec fn slide_defs(v: Seq<ExampleSlide>) -> Seq<SlideDef> {
    v.map_values(|s: ExampleSlide| s@)
}

impl View for ExampleChapter {
    type V = ChapterDef;

    open spec fn view(&self) -> ChapterDef {
        ChapterDef { num: self.num, name: self.name@, slides: slide_defs(self.slides@) }
    }
}

/// The values of a list of chapters.
pub open spec fn chapter_defs(v: Seq<ExampleChapter>) -> Seq<ChapterDef> {
    v.map_values(|c: ExampleChapter| c@)
}

pub const OVERVIEW_NOTES: &'static str = "Welcome to this example presentation.\n\nThis slide deck demonstrates the RS-Vulkan presentation viewer.\nEach slide is a PNG image with a transparent background and randomly placed rectangles.";

pub const INSTALLATION_NOTES: &'static str = "To install RS-Vulkan:\n\n1. Clone the repository\n2. Run `cargo build --release`\n3. Run `rs-vulkan <slides-folder>`\n\nMake sure you have Vulkan drivers installed on your system.";

pub const HELLO_WORLD_NOTES: &'static str = "Create your first presentation:\n\n```\nrs-vulkan init my-presentation\nrs-vulkan my-presentation\n```\n\nNavigate with arrow keys and Escape to quit.";

pub const CONFIGURATION_NOTES: &'static str = "Customize the viewing experience:\n\n- `--transition-duration`: Transition timing\n\nDefault values work well for most presentations.";

pub const DEPLOYMENT_NOTES: &'static str = "Tips for presentations:\n\n- Use consistent slide dimensions\n- PNG files support transparency\n- Use `chapter_slide.png` naming convention\n- Add presenter notes via `presenter_notes.md`";

pub const SUMMARY_NOTES: &'static str = "RS-Vulkan features:\n\n- Hardware-accelerated rendering via Vulkan\n- Smooth transitions with compute-shader blur and feedback\n- Presenter notes support\n- Chapter-based navigation\n- Fullscreen presentation mode";

pub const NEXT_STEPS_NOTES: &'static str = "Ideas for extending:\n\n- Add video slide support\n- Implement smooth scrolling\n- Add remote control support\n- Build a slide editor UI";

/// The example deck: three chapters of three, two and two slides.
pub open spec fn example_deck() -> Seq<ChapterDef> {
    seq![
        ChapterDef {
            num: 1,
            name: "Getting Started"@,
            slides: seq![
                SlideDef { num: 1, name: "Overview"@, notes: OVERVIEW_NOTES@ },
                SlideDef { num: 2, name: "Installation"@, notes: INSTALLATION_NOTES@ },
                SlideDef { num: 3, name: "Hello World"@, notes: HELLO_WORLD_NOTES@ },
            ],
        },
        ChapterDef {
            num: 2,
            name: "Advanced Topics"@,
            slides: seq![
                SlideDef { num: 1, name: "Configuration"@, notes: CONFIGURATION_NOTES@ },
                SlideDef { num: 2, name: "Deployment"@, notes: DEPLOYMENT_NOTES@ },
            ],
        },
        ChapterDef {
            num: 3,
            name: "Conclusion"@,
            slides: seq![
                SlideDef { num: 1, name: "Summary"@, notes: SUMMARY_NOTES@ },
                SlideDef { num: 2, name: "Next Steps"@, notes: NEXT_STEPS_NOTES@ },
            ],
        },
    ]
}

fn example_slide(num: u32, name: &str, notes: &str) -> (s: ExampleSlide)
    ensures
        s@ == (SlideDef { num, name: name@, notes: notes@ }),
{
    ExampleSlide { num, name: name.to_owned(), notes: notes.to_owned() }
}

/// The chapters and slides of the example deck.
pub fn example_chapters() -> (r: Vec<ExampleChapter>)
    ensures
        chapter_defs(r@) == example_deck(),
{
    let c1 = ExampleChapter {
        num: 1,
        name: "Getting Started".to_owned(),
        slides: vec![
            example_slide(1, "Overview", OVERVIEW_NOTES),
            example_slide(2, "Installation", INSTALLATION_NOTES),
            example_slide(3, "Hello World", HELLO_WORLD_NOTES),
        ],
    };
    let c2 = ExampleChapter {
        num: 2,
        name: "Advanced Topics".to_owned(),
        slides: vec![
            example_slide(1, "Configuration", CONFIGURATION_NOTES),
            example_slide(2, "Deployment", DEPLOYMENT_NOTES),
        ],
    };
    let c3 = ExampleChapter {
        num: 3,
        name: "Conclusion".to_owned(),
        slides: vec![
            example_slide(1, "Summary", SUMMARY_NOTES),
            example_slide(2, "Next Steps", NEXT_STEPS_NOTES),
        ],
    };
    assert(slide_defs(c1.slides@) =~= example_deck()[0].slides);
    assert(slide_defs(c2.slides@) =~= example_deck()[1].slides);
    assert(slide_defs(c3.slides@) =~= example_deck()[2].slides);
    let r = vec![c1, c2, c3];
    assert(chapter_defs(r@) =~= example_deck());
    r
}

/// The presenter notes written for the example slide titled `title`.
pub open spec fn notes_for_title(title: Seq<char>) -> Seq<char> {
    if title == "Overview"@ {
        OVERVIEW_NOTES@
    } else if title == "Installation"@ {
        INSTALLATION_NOTES@
    } else if title == "Hello World"@ {
        HELLO_WORLD_NOTES@
    } else if title == "Configuration"@ {
        CONFIGURATION_NOTES@
    } else if title == "Deployment"@ {
        DEPLOYMENT_NOTES@
    } else if title == "Summary"@ {
        SUMMARY_NOTES@
    } else if title == "Next Steps"@ {
        NEXT_STEPS_NOTES@
    } else {
        seq![]
    }
}

/// Every slide of the example deck carries the notes written for its title:
/// no two slides trade notes.
pub proof fn lemma_example_notes_match_titles()
    ensures
        forall|i: int, j: int|
            0 <= i < example_deck().len() && 0 <= j < example_deck()[i].slides.len() ==> {
                let sd = #[trigger] example_deck()[i].slides[j];
                sd.notes == notes_for_title(sd.name)
            },
{
    reveal_strlit("Overview");
    reveal_strlit("Installation");
    reveal_strlit("Hello World");
    reveal_strlit("Configuration");
    reveal_strlit("Deployment");
    reveal_strlit("Summary");
    reveal_strlit("Next Steps");
    let d = example_deck();
    assert("Installation"@ != "Overview"@) by {
        assert("Installation"@.len() != "Overview"@.len());
    }
    assert("Hello World"@ != "Overview"@) by {
        assert("Hello World"@.len() != "Overview"@.len());
    }
    assert("Hello World"@ != "Installation"@) by {
        assert("Hello World"@.len() != "Installation"@.len());
    }
    assert("Configuration"@ != "Overview"@) by {
        assert("Configuration"@.len() != "Overview"@.len());
    }
    assert("Configuration"@ != "Installation"@) by {
        assert("Configuration"@.len() != "Installation"@.len());
    }
    assert("Configuration"@ != "Hello World"@) by {
        assert("Configuration"@.len() != "Hello World"@.len());
    }
    assert("Deployment"@ != "Overview"@) by {
        assert("Deployment"@.len() != "Overview"@.len());
    }
    assert("Deployment"@ != "Installation"@) by {
        assert("Deployment"@.len() != "Installation"@.len());
    }
    assert("Deployment"@ != "Hello World"@) by {
        assert("Deployment"@.len() != "Hello World"@.len());
    }
    assert("Deployment"@ != "Configuration"@) by {
        assert("Deployment"@.len() != "Configuration"@.len());
    }
    assert("Summary"@ != "Overview"@) by {
        assert("Summary"@.len() != "Overview"@.len());
    }
    assert("Summary"@ != "Installation"@) by {
        assert("Summary"@.len() != "Installation"@.len());
    }
    assert("Summary"@ != "Hello World"@) by {
        assert("Summary"@.len() != "Hello World"@.len());
    }
    assert("Summary"@ != "Configuration"@) by {
        assert("Summary"@.len() != "Configuration"@.len());
    }
    assert("Summary"@ != "Deployment"@) by {
        assert("Summary"@.len() != "Deployment"@.len());
    }
    assert("Next Steps"@ != "Overview"@) by {
        assert("Next Steps"@.len() != "Overview"@.len());
    }
    assert("Next Steps"@ != "Installation"@) by {
        assert("Next Steps"@.len() != "Installation"@.len());
    }
    assert("Next Steps"@ != "Hello World"@) by {
        assert("Next Steps"@[0] != "Hello World"@[0]);
    }
    assert("Next Steps"@ != "Configuration"@) by {
        assert("Next Steps"@.len() != "Configuration"@.len());
    }
    assert("Next Steps"@ != "Deployment"@) by {
        assert("Next Steps"@[0] != "Deployment"@[0]);
    }
    assert("Next Steps"@ != "Summary"@) by {
        assert("Next Steps"@.len() != "Summary"@.len());
    }
    assert forall|i: int, j: int|
        0 <= i < d.len() && 0 <= j < d[i].slides.len() implies {
            let sd = #[trigger] d[i].slides[j];
            sd.notes == notes_for_title(sd.name)
        } by {
        if i == 0 {
            assert(j == 0 || j == 1 || j == 2);
        } else if i == 1 {
            assert(j == 0 || j == 1);
        } else {
            assert(j == 0 || j == 1);
        }
    }
}

/// The presenter-notes entry of one slide: its header line and its notes.
pub open spec fn slide_block(chapter: u32, s: SlideDef) -> Seq<char> {
    "## "@ + decimal(chapter as nat) + "_"@ + decimal(s.num as nat) + ": "@ + s.name + "\n"@
        + s.notes + "\n"@
}

/// The presenter-notes entries of the slides `ss` of chapter `chapter`.
pub open spec fn slides_block(chapter: u32, ss: Seq<SlideDef>) -> Seq<char>
    decreases ss.len(),
{
    if ss.len() == 0 {
        seq![]
    } else {
        slides_block(chapter, ss.drop_last()) + slide_block(chapter, ss.last())
    }
}

/// The presenter-notes text of a chapter: its header line, then its slides.
pub open spec fn chapter_block(c: ChapterDef) -> Seq<char> {
    "# "@ + decimal(c.num as nat) + ": "@ + c.name + "\n"@ + slides_block(c.num, c.slides)
}

/// The presenter-notes file for the chapters `cs`.
pub open spec fn notes_markdown(cs: Seq<ChapterDef>) -> Seq<char>
    decreases cs.len(),
{
    if cs.len() == 0 {
        seq![]
    } else {
        notes_markdown(cs.drop_last()) + chapter_block(cs.last())
    }
}

/// Writes the presenter-notes file for `chapters`: a `# {n}: {name}` line per
/// chapter, then for each slide a `## {c}_{s}: {name}` line and its notes.
pub fn presenter_notes_markdown(chapters: &Vec<ExampleChapter>) -> (r: String)
    ensures
        r@ == notes_markdown(chapter_defs(chapters@)),
{
    let ghost cs = chapter_defs(chapters@);
    let mut out: Vec<char> = Vec::new();
    let mut i: usize = 0;
    while i < chapters.len()
        invariant
            0 <= i <= chapters.len(),
            cs == chapter_defs(chapters@),
            out@ == notes_markdown(cs.take(i as int)),
        decreases chapters.len() - i,
    {
        let ch = &chapters[i];
        let ghost before = out@;
        push_str_chars(&mut out, "# ");
        push_decimal(&mut out, ch.num);
        push_str_chars(&mut out, ": ");
        push_str_chars(&mut out, ch.name.as_str());
        push_str_chars(&mut out, "\n");
        let ghost head = out@;
        let ghost ss = slide_defs(ch.slides@);
        let mut j: usize = 0;
        while j < ch.slides.len()
            invariant
                0 <= j <= ch.slides.len(),
                ss == slide_defs(ch.slides@),
                out@ == head + slides_block(ch.num, ss.take(j as int)),
            decreases ch.slides.len() - j,
        {
            let sl = &ch.slides[j];
            let ghost mid = out@;
            push_str_chars(&mut out, "## ");
            push_decimal(&mut out, ch.num);
            push_str_chars(&mut out, "_");
            push_decimal(&mut out, sl.num);
            push_str_chars(&mut out, ": ");
            push_str_chars(&mut out, sl.name.as_str());
            push_str_chars(&mut out, "\n");
            push_str_chars(&mut out, sl.notes.as_str());
            push_str_chars(&mut out, "\n");
            proof {
                assert(ss.take(j + 1).drop_last() =~= ss.take(j as int));
                assert(ss[j as int] == sl@);
                assert(out@ =~= mid + slide_block(ch.num, sl@));
                assert(out@ =~= head + slides_block(ch.num, ss.take(j + 1)));
            }
            j += 1;
        }
        proof {
            assert(ss.take(ch.slides.len() as int) =~= ss);
            assert(cs[i as int] == ch@);
            assert(cs.take(i + 1).drop_last() =~= cs.take(i as int));
            assert(out@ =~= before + chapter_block(ch@));
        }
        i += 1;
    }
    assert(cs.take(chapters.len() as int) =~= cs);
    string_from_chars(&out)
}

/// The file name `{chapter}_{slide}.png` of a slide.
pub fn slide_file_name(k: SlideKey) -> (r: String)
    ensures
        r@ == slide_filename_of(k),
{
    let mut out: Vec<char> = Vec::new();
    push_decimal(&mut out, k.chapter);
    push_str_chars(&mut out, "_");
    push_decimal(&mut out, k.slide);
    push_str_chars(&mut out, ".png");
    string_from_chars(&out)
}

} // verus!
