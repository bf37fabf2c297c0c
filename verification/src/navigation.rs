//! The presenter's position in the deck and the transition between slides.
use vstd::prelude::*;

use crate::config::{redraws_while_idle, redraws_while_idle_spec, uses_feedback, TransitionType};
use crate::texture::{
    lemma_position_chapter_above, lemma_rposition_chapter_below, next_chapter_spec,
    next_slide_spec, opt_int, prev_chapter_spec, prev_slide_spec, SlideCollection, SlideKey,
};

verus! {

/// Where the incoming slide enters from during a slide transition.
#[derive(Debug, Clone, Copy, PartialEq, Eq, Structural)]
pub enum SlideDirection {
    /// No movement.
    Still,
    /// From below, moving up: the next slide of the same chapter.
    FromBelow,
    /// From above, moving down: the previous slide of the same chapter.
    FromAbove,
    /// From the right, moving left: a later chapter.
    FromRight,
    /// From the left, moving right: an earlier chapter.
    FromLeft,
}

/// The layers that the view shows and the state of the running transition.
#[derive(Debug, Clone, Copy, PartialEq, Eq, Structural)]
pub struct Navigator {
    /// The layer being shown (the target of the running transition).
    pub current_layer: usize,
    /// The layer that the running transition moves to.
    pub target_layer: usize,
    /// The layer that the running transition moves away from.
    pub previous_layer: usize,
    pub is_transitioning: bool,
    /// Whether the departing slide has been seeded into the feedback buffer
    /// for the running transition.
    pub transition_blended: bool,
    pub transition_direction: SlideDirection,
}

/// Whether `n` points at slides of a deck of `count` slides.
pub open spec fn nav_wf(n: Navigator, count: nat) -> bool {
    &&& n.current_layer < count
    &&& n.target_layer == n.current_layer
    &&& n.previous_layer < count
}

/// The navigator after a request to go to `target` in a deck of `count`
/// slides: nothing changes unless `target` is a slide of the deck.
pub open spec fn navigate_spec(
    n: Navigator,
    count: nat,
    tt: TransitionType,
    target: Option<int>,
) -> Navigator {
    if navigates(count, target) {
        let t = target->0;
        Navigator {
            current_layer: t as usize,
            target_layer: t as usize,
            previous_layer: if n.is_transitioning {
                n.target_layer
            } else {
                n.current_layer
            },
            is_transitioning: tt != TransitionType::Instant,
            transition_blended: false,
            transition_direction: if tt == TransitionType::Slide {
                n.transition_direction
            } else {
                SlideDirection::Still
            },
        }
    } else {
        n
    }
}

/// Whether a request to go to `target` moves the view.
pub open spec fn navigates(count: nat, target: Option<int>) -> bool {
    match target {
        Some(t) => 0 <= t < count,
        None => false,
    }
}

/// The direction that a step to `target` takes: vertical inside a chapter,
/// horizontal across chapters.
pub open spec fn step_direction(
    s: Seq<SlideKey>,
    from: int,
    target: int,
    within: SlideDirection,
    across: SlideDirection,
) -> SlideDirection {
    let same = if 0 <= from < s.len() && 0 <= target < s.len() {
        s[from].chapter == s[target].chapter
    } else {
        !(0 <= from < s.len()) && !(0 <= target < s.len())
    };
    if same {
        within
    } else {
        across
    }
}

/// The navigator with its direction set for a step to `target`.
pub open spec fn aim(
    n: Navigator,
    s: Seq<SlideKey>,
    target: Option<int>,
    within: SlideDirection,
    across: SlideDirection,
) -> Navigator {
    match target {
        Some(t) => Navigator {
            transition_direction: step_direction(s, n.current_layer as int, t, within, across),
            ..n
        },
        None => n,
    }
}

/// The navigator after the "next slide" key.
pub open spec fn next_slide_nav(n: Navigator, s: Seq<SlideKey>, tt: TransitionType) -> Navigator {
    let target = next_slide_spec(s.len(), n.current_layer as int);
    navigate_spec(
        aim(n, s, target, SlideDirection::FromBelow, SlideDirection::FromRight),
        s.len(),
        tt,
        target,
    )
}

/// The navigator after the "previous slide" key.
pub open spec fn prev_slide_nav(n: Navigator, s: Seq<SlideKey>, tt: TransitionType) -> Navigator {
    let target = prev_slide_spec(n.current_layer as int);
    navigate_spec(
        aim(n, s, target, SlideDirection::FromAbove, SlideDirection::FromLeft),
        s.len(),
        tt,
        target,
    )
}

/// The navigator after the "next chapter" key: nothing changes when there is
/// no later chapter.
pub open spec fn next_chapter_nav(n: Navigator, s: Seq<SlideKey>, tt: TransitionType) -> Navigator {
    let target = next_chapter_spec(s, n.current_layer as int);
    navigate_spec(
        aim(n, s, target, SlideDirection::FromRight, SlideDirection::FromRight),
        s.len(),
        tt,
        target,
    )
}

/// The navigator after the "previous chapter" key: nothing changes when there
/// is no earlier chapter.
pub open spec fn prev_chapter_nav(n: Navigator, s: Seq<SlideKey>, tt: TransitionType) -> Navigator {
    let target = prev_chapter_spec(s, n.current_layer as int);
    navigate_spec(
        aim(n, s, target, SlideDirection::FromLeft, SlideDirection::FromLeft),
        s.len(),
        tt,
        target,
    )
}

/// The navigator once the running transition has run its time.
pub open spec fn finish_spec(n: Navigator) -> Navigator {
    Navigator { is_transitioning: false, previous_layer: n.current_layer, ..n }
}

/// Whether the departing slide is still to be seeded into the feedback buffer:
/// once per transition, on its first frame.
pub open spec fn seed_due(n: Navigator) -> bool {
    n.is_transitioning && !n.transition_blended
}

impl Navigator {
    /// The view of a freshly opened deck: the first slide, no transition.
    pub fn new() -> (r: Navigator)
        ensures
            r.current_layer == 0 && r.target_layer == 0 && r.previous_layer == 0,
            !r.is_transitioning && !r.transition_blended,
            r.transition_direction == SlideDirection::Still,
    {
        Navigator {
            current_layer: 0,
            target_layer: 0,
            previous_layer: 0,
            is_transitioning: false,
            transition_blended: false,
            transition_direction: SlideDirection::Still,
        }
    }

    /// Starts a transition to `target` when it is a slide of a deck of
    /// `slide_count` slides; tells whether it did. A transition that is still
    /// running is cut short: its target becomes the departing slide.
    pub fn navigate_to(&mut self, slide_count: usize, tt: TransitionType, target: Option<usize>) -> (moved: bool)
        ensures
            moved == navigates(slide_count as nat, opt_int(target)),
            *final(self) == navigate_spec(*old(self), slide_count as nat, tt, opt_int(target)),
    {
        let t = match target {
            Some(t) => t,
            None => {
                return false;
            },
        };
        if t >= slide_count {
            return false;
        }
        if self.is_transitioning {
            self.current_layer = self.target_layer;
        }
        self.previous_layer = self.current_layer;
        self.target_layer = t;
        self.current_layer = t;
        self.is_transitioning = match tt {
            TransitionType::Instant => false,
            _ => true,
        };
        match tt {
            TransitionType::Slide => {},
            _ => {
                self.transition_direction = SlideDirection::Still;
            },
        }
        self.transition_blended = false;
        true
    }

    /// The "next slide" key: downwards within a chapter, leftwards into the
    /// next chapter.
    pub fn next_slide(&mut self, c: &SlideCollection, tt: TransitionType) -> (moved: bool)
        ensures
            moved == navigates(
                c.slides.len() as nat,
                next_slide_spec(c.slides.len() as nat, old(self).current_layer as int),
            ),
            *final(self) == next_slide_nav(*old(self), c.slides@, tt),
    {
        let target = c.next_slide(self.current_layer);
        if let Some(t) = target {
            let same_chapter = match (c.chapter_of(self.current_layer), c.chapter_of(t)) {
                (Some(a), Some(b)) => a == b,
                (None, None) => true,
                _ => false,
            };
            self.transition_direction = if same_chapter {
                SlideDirection::FromBelow
            } else {
                SlideDirection::FromRight
            };
        }
        self.navigate_to(c.len(), tt, target)
    }

    /// The "previous slide" key: upwards within a chapter, rightwards into
    /// the previous chapter.
    pub fn prev_slide(&mut self, c: &SlideCollection, tt: TransitionType) -> (moved: bool)
        ensures
            moved == navigates(c.slides.len() as nat, prev_slide_spec(old(self).current_layer as int)),
            *final(self) == prev_slide_nav(*old(self), c.slides@, tt),
    {
        let target = c.prev_slide(self.current_layer);
        if let Some(t) = target {
            let same_chapter = match (c.chapter_of(self.current_layer), c.chapter_of(t)) {
                (Some(a), Some(b)) => a == b,
                (None, None) => true,
                _ => false,
            };
            self.transition_direction = if same_chapter {
                SlideDirection::FromAbove
            } else {
                SlideDirection::FromLeft
            };
        }
        self.navigate_to(c.len(), tt, target)
    }

    /// The "next chapter" key.
    pub fn next_chapter(&mut self, c: &SlideCollection, tt: TransitionType) -> (moved: bool)
        ensures
            moved == navigates(
                c.slides.len() as nat,
                next_chapter_spec(c.slides@, old(self).current_layer as int),
            ),
            *final(self) == next_chapter_nav(*old(self), c.slides@, tt),
    {
        let target = c.next_chapter(self.current_layer);
        if target.is_some() {
            self.transition_direction = SlideDirection::FromRight;
        }
        self.navigate_to(c.len(), tt, target)
    }

    /// The "previous chapter" key.
    pub fn prev_chapter(&mut self, c: &SlideCollection, tt: TransitionType) -> (moved: bool)
        ensures
            moved == navigates(
                c.slides.len() as nat,
                prev_chapter_spec(c.slides@, old(self).current_layer as int),
            ),
            *final(self) == prev_chapter_nav(*old(self), c.slides@, tt),
    {
        let target = c.prev_chapter(self.current_layer);
        if target.is_some() {
            self.transition_direction = SlideDirection::FromLeft;
        }
        self.navigate_to(c.len(), tt, target)
    }

    /// Ends the running transition: the shown slide is now also the departed one.
    pub fn finish_transition(&mut self)
        ensures
            *final(self) == finish_spec(*old(self)),
    {
        self.is_transitioning = false;
        self.previous_layer = self.current_layer;
    }

    /// Whether the departing slide is still to be seeded into the feedback buffer.
    pub fn feedback_seed_due(&self) -> (r: bool)
        ensures
            r == seed_due(*self),
    {
        self.is_transitioning && !self.transition_blended
    }

    /// Takes the seeding of the feedback buffer: true on the first frame of a
    /// transition, and from then on false until the next transition starts.
    pub fn take_feedback_seed(&mut self) -> (r: bool)
        ensures
            r == seed_due(*old(self)),
            *final(self) == (if r {
                Navigator { transition_blended: true, ..*old(self) }
            } else {
                *old(self)
            }),
    {
        if self.is_transitioning && !self.transition_blended {
            self.transition_blended = true;
            true
        } else {
            false
        }
    }
}


/// The keys that the viewer reads.
#[derive(Debug, Clone, Copy, PartialEq, Eq, Structural)]
pub enum Key {
    Escape,
    /// The Q key, which also closes the viewer.
    Q,
    ArrowLeft,
    ArrowRight,
    ArrowDown,
    ArrowUp,
    Space,
    /// Any other key.
    Other,
}

/// What the window does after a key press.
#[derive(Debug, Clone, Copy, PartialEq, Eq, Structural)]
pub enum KeyResponse {
    /// Close the viewer.
    Quit,
    /// A navigation key moved to another slide: announce it and draw.
    Moved,
    /// A navigation key found no slide to move to: draw anyway.
    Redraw,
    /// Nothing.
    Ignore,
}

/// The navigator after pressing `key`: the left and right arrows change
/// chapter, the down arrow and space go to the next slide, the up arrow to
/// the previous one.
pub open spec fn press_spec(n: Navigator, s: Seq<SlideKey>, tt: TransitionType, key: Key) -> Navigator {
    match key {
        Key::ArrowLeft => prev_chapter_nav(n, s, tt),
        Key::ArrowRight => next_chapter_nav(n, s, tt),
        Key::ArrowDown | Key::Space => next_slide_nav(n, s, tt),
        Key::ArrowUp => prev_slide_nav(n, s, tt),
        _ => n,
    }
}

/// The layer that a navigation key asks for.
pub open spec fn key_target_spec(n: Navigator, s: Seq<SlideKey>, key: Key) -> Option<int> {
    let cur = n.current_layer as int;
    match key {
        Key::ArrowLeft => prev_chapter_spec(s, cur),
        Key::ArrowRight => next_chapter_spec(s, cur),
        Key::ArrowDown | Key::Space => next_slide_spec(s.len(), cur),
        Key::ArrowUp => prev_slide_spec(cur),
        _ => None,
    }
}

/// The response to pressing `key`: escape and Q quit, a navigation key
/// redraws (and says whether it moved), any other key is ignored.
pub open spec fn key_response_spec(n: Navigator, s: Seq<SlideKey>, key: Key) -> KeyResponse {
    match key {
        Key::Escape | Key::Q => KeyResponse::Quit,
        Key::Other => KeyResponse::Ignore,
        _ => if navigates(s.len(), key_target_spec(n, s, key)) {
            KeyResponse::Moved
        } else {
            KeyResponse::Redraw
        },
    }
}

/// The navigator between two frames: a running transition whose time has
/// `elapsed` ends; nothing else changes.
pub open spec fn advance_spec(n: Navigator, elapsed: bool) -> Navigator {
    if n.is_transitioning && elapsed {
        finish_spec(n)
    } else {
        n
    }
}

impl Navigator {
    /// Handles a key press on the deck `c` shown in style `tt`.
    pub fn press(&mut self, c: &SlideCollection, tt: TransitionType, key: Key) -> (r: KeyResponse)
        ensures
            r == key_response_spec(*old(self), c.slides@, key),
            *final(self) == press_spec(*old(self), c.slides@, tt, key),
    {
        let moved = match key {
            Key::Escape | Key::Q => {
                return KeyResponse::Quit;
            },
            Key::Other => {
                return KeyResponse::Ignore;
            },
            Key::ArrowLeft => self.prev_chapter(c, tt),
            Key::ArrowRight => self.next_chapter(c, tt),
            Key::ArrowDown | Key::Space => self.next_slide(c, tt),
            Key::ArrowUp => self.prev_slide(c, tt),
        };
        if moved {
            KeyResponse::Moved
        } else {
            KeyResponse::Redraw
        }
    }

    /// The step between two frames in style `tt`: ends a running transition
    /// whose time has `elapsed`, and tells whether to draw another frame: while
    /// a transition runs or has just ended, and always for the styles that
    /// animate while idle.
    pub fn advance(&mut self, tt: TransitionType, elapsed: bool) -> (redraw: bool)
        ensures
            redraw == (old(self).is_transitioning || redraws_while_idle_spec(tt)),
            *final(self) == advance_spec(*old(self), elapsed),
    {
        if !self.is_transitioning {
            return redraws_while_idle(tt);
        }
        if elapsed {
            self.finish_transition();
        }
        true
    }
}

/// The passes that draw one frame.
#[derive(Debug, Clone, Copy, PartialEq, Eq, Structural)]
pub struct FramePlan {
    /// Blend the departing slide into the feedback buffer.
    pub seed_feedback: bool,
    /// Add the buoyancy force, from the density gradient of the feedback
    /// buffer, to the fluid velocity field.
    pub buoyancy: bool,
    /// Advance the stable-fluids simulation of the feedback buffer.
    pub fluid_step: bool,
    /// Blur the feedback buffer, horizontally then vertically.
    pub blur_step: bool,
    /// Composite the shown slide over the feedback buffer; otherwise the
    /// slide is drawn directly.
    pub composite: bool,
}

/// The navigator after the seeding decision of a frame drawn in style `tt`.
pub open spec fn seeded(n: Navigator, tt: TransitionType) -> Navigator {
    if (tt == TransitionType::Smooth || tt == TransitionType::Fluid) && seed_due(n) {
        Navigator { transition_blended: true, ..n }
    } else {
        n
    }
}

/// The passes of a frame drawn in style `tt`: the feedback styles seed the
/// buffer on the first frame of a transition, then simulate (fluid) or blur
/// (smooth) it and composite the slide over it; the other styles draw the
/// slide directly. Every fluid frame drives the velocity field with the
/// buoyancy of the feedback buffer before advancing the simulation.
pub open spec fn frame_plan_spec(n: Navigator, tt: TransitionType) -> FramePlan {
    let feedback = tt == TransitionType::Smooth || tt == TransitionType::Fluid;
    FramePlan {
        seed_feedback: feedback && seed_due(n),
        buoyancy: tt == TransitionType::Fluid,
        fluid_step: tt == TransitionType::Fluid,
        blur_step: tt == TransitionType::Smooth,
        composite: feedback,
    }
}

impl Navigator {
    /// Decides the passes of the next frame, taking the feedback seeding
    /// when it is due.
    pub fn plan_frame(&mut self, tt: TransitionType) -> (p: FramePlan)
        ensures
            p == frame_plan_spec(*old(self), tt),
            *final(self) == seeded(*old(self), tt),
    {
        let feedback = uses_feedback(tt);
        let seed = if feedback {
            self.take_feedback_seed()
        } else {
            false
        };
        let fluid = match tt {
            TransitionType::Fluid => true,
            _ => false,
        };
        let smooth = match tt {
            TransitionType::Smooth => true,
            _ => false,
        };
        FramePlan {
            seed_feedback: seed,
            buoyancy: fluid,
            fluid_step: fluid,
            blur_step: smooth,
            composite: feedback,
        }
    }
}

/// Every key and every transition step keeps the view on slides of the deck:
/// the shown layer is a slide, it is the transition's target, and the
/// departed layer is a slide.
pub proof fn lemma_navigation_stays_in_deck(
    n: Navigator,
    s: Seq<SlideKey>,
    tt: TransitionType,
    target: Option<int>,
    key: Key,
    elapsed: bool,
)
    requires
        nav_wf(n, s.len()),
    ensures
        nav_wf(press_spec(n, s, tt, key), s.len()),
        nav_wf(advance_spec(n, elapsed), s.len()),
        nav_wf(seeded(n, tt), s.len()),
        nav_wf(navigate_spec(n, s.len(), tt, target), s.len()),
        nav_wf(next_slide_nav(n, s, tt), s.len()),
        nav_wf(prev_slide_nav(n, s, tt), s.len()),
        nav_wf(next_chapter_nav(n, s, tt), s.len()),
        nav_wf(prev_chapter_nav(n, s, tt), s.len()),
        nav_wf(finish_spec(n), s.len()),
        nav_wf(Navigator { transition_blended: true, ..n }, s.len()),
{
}

/// A fresh view of a non-empty deck points at its slides.
pub proof fn lemma_new_navigator_in_deck(count: nat)
    requires
        count > 0,
    ensures
        nav_wf(
            Navigator {
                current_layer: 0,
                target_layer: 0,
                previous_layer: 0,
                is_transitioning: false,
                transition_blended: false,
                transition_direction: SlideDirection::Still,
            },
            count,
        ),
{
}

/// A navigation that moves shows the target, departs from the slide that was
/// shown (or from the target of a transition it cuts short), and restarts the
/// seeding: instant cuts never leave a transition running, the other styles
/// always start one, and only slide transitions keep a direction.
pub proof fn lemma_navigation_outcome(n: Navigator, count: nat, tt: TransitionType, t: int)
    requires
        0 <= t < count,
        count <= usize::MAX,
        nav_wf(n, count),
    ensures
        ({
            let m = navigate_spec(n, count, tt, Some(t));
            &&& m.current_layer == t
            &&& m.previous_layer == n.current_layer
            &&& m.is_transitioning == (tt != TransitionType::Instant)
            &&& seed_due(m) == (tt != TransitionType::Instant)
            &&& (tt != TransitionType::Slide ==> m.transition_direction == SlideDirection::Still)
        }),
{
}

/// A request that names no slide of the deck changes nothing.
pub proof fn lemma_navigation_ignores_missing_target(n: Navigator, count: nat, tt: TransitionType, target: Option<int>)
    requires
        !navigates(count, target),
    ensures
        navigate_spec(n, count, tt, target) == n,
{
}

/// The feedback buffer is seeded once per transition: after the seed is
/// taken it is not due again, and ending the transition keeps it so.
pub proof fn lemma_seed_taken_once(n: Navigator)
    ensures
        !seed_due(Navigator { transition_blended: true, ..n }),
        !seed_due(finish_spec(n)),
{
}

/// "Next slide" followed by "previous slide" shows the slide where it started,
/// and the departed slide is the one stepped over; within a chapter the first
/// step comes from below and the second from above.
pub proof fn lemma_next_then_prev_returns(n: Navigator, s: Seq<SlideKey>, tt: TransitionType)
    requires
        nav_wf(n, s.len()),
        n.current_layer + 1 < s.len(),
        s.len() <= usize::MAX,
    ensures
        ({
            let a = next_slide_nav(n, s, tt);
            let b = prev_slide_nav(a, s, tt);
            &&& a.current_layer == n.current_layer + 1
            &&& b.current_layer == n.current_layer
            &&& b.previous_layer == n.current_layer + 1
            &&& (tt == TransitionType::Slide && s[n.current_layer as int].chapter == s[n.current_layer
                + 1].chapter) ==> a.transition_direction == SlideDirection::FromBelow
                && b.transition_direction == SlideDirection::FromAbove
        }),
{
}

/// The first frame after a navigation seeds the feedback buffer exactly when
/// the style composes through it, and a frame never seeds when the frame
/// before it did or found nothing to seed.
pub proof fn lemma_frame_seeds_once(n: Navigator, count: nat, tt: TransitionType, t: int)
    requires
        0 <= t < count,
        count <= usize::MAX,
    ensures
        frame_plan_spec(navigate_spec(n, count, tt, Some(t)), tt).seed_feedback == (tt
            == TransitionType::Smooth || tt == TransitionType::Fluid),
        !frame_plan_spec(seeded(n, tt), tt).seed_feedback,
{
}

/// A navigation key that finds no slide to go to changes nothing: on the last
/// slide "next" and on the last chapter "next chapter" leave the view as it is,
/// and likewise at the start.
pub proof fn lemma_key_without_target_changes_nothing(
    n: Navigator,
    s: Seq<SlideKey>,
    tt: TransitionType,
    key: Key,
)
    requires
        nav_wf(n, s.len()),
        !navigates(s.len(), key_target_spec(n, s, key)),
    ensures
        press_spec(n, s, tt, key) == n,
{
    let cur = n.current_layer as int;
    lemma_position_chapter_above(s, s[cur].chapter);
    lemma_rposition_chapter_below(s, s[cur].chapter);
}

/// Apart from seeding, the passes of a frame depend on the transition style
/// alone, whether a transition runs or not: smooth frames always blur and
/// composite, fluid frames always drive and advance the simulation and
/// composite, instant and slide frames draw directly. Seeding happens exactly
/// on a frame of a running feedback-style transition that has not seeded yet.
pub proof fn lemma_frame_passes(n: Navigator, m: Navigator, tt: TransitionType)
    ensures
        frame_plan_spec(n, tt) == (FramePlan {
            seed_feedback: frame_plan_spec(n, tt).seed_feedback,
            ..frame_plan_spec(m, tt)
        }),
        frame_plan_spec(n, tt).blur_step == (tt == TransitionType::Smooth),
        frame_plan_spec(n, tt).buoyancy == (tt == TransitionType::Fluid),
        frame_plan_spec(n, tt).fluid_step == (tt == TransitionType::Fluid),
        frame_plan_spec(n, tt).composite == (tt == TransitionType::Smooth || tt
            == TransitionType::Fluid),
        frame_plan_spec(n, tt).seed_feedback == ((tt == TransitionType::Smooth || tt
            == TransitionType::Fluid) && n.is_transitioning && !n.transition_blended),
{
}

/// Space acts as the down arrow; both go to the next slide when there is one,
/// and the up arrow to the previous one.
pub proof fn lemma_space_is_next_slide(n: Navigator, s: Seq<SlideKey>, tt: TransitionType)
    requires
        nav_wf(n, s.len()),
        s.len() <= usize::MAX,
    ensures
        press_spec(n, s, tt, Key::Space) == press_spec(n, s, tt, Key::ArrowDown),
        key_response_spec(n, s, Key::Space) == key_response_spec(n, s, Key::ArrowDown),
        n.current_layer + 1 < s.len() ==> press_spec(n, s, tt, Key::ArrowDown).current_layer
            == n.current_layer + 1 && key_response_spec(n, s, Key::ArrowDown) == KeyResponse::Moved,
        n.current_layer + 1 >= s.len() ==> press_spec(n, s, tt, Key::ArrowDown) == n
            && key_response_spec(n, s, Key::ArrowDown) == KeyResponse::Redraw,
        n.current_layer > 0 ==> press_spec(n, s, tt, Key::ArrowUp).current_layer == n.current_layer
            - 1 && key_response_spec(n, s, Key::ArrowUp) == KeyResponse::Moved,
{
}

/// Once a transition has run its time, the view rests on the shown slide.
pub proof fn lemma_finish_rests(n: Navigator)
    ensures
        !finish_spec(n).is_transitioning,
        finish_spec(n).previous_layer == n.current_layer,
        finish_spec(n).current_layer == n.current_layer,
{
}

} // verus!
